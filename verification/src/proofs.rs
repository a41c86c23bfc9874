//! Proofs of what a key leads to in a trie with a given digest, and their
//! verification, which needs the digest alone.

use vstd::prelude::*;
use crate::bits::Bits;
use crate::hash::{
    branch_digest, branch_preimage, data_digest, data_preimage, empty_digest, empty_preimage,
    has_collision, leaf_digest, leaf_preimage, lemma_branch_preimage, lemma_data_preimage,
    lemma_leaf_preimage, lemma_same_preimage, lemma_value_preimage, spec_branch_digest,
    spec_data_digest, spec_empty_digest, spec_leaf_digest, spec_value_digest, value_digest,
    value_preimage, Digest, Hasher, TAG_BRANCH, TAG_EMPTY, TAG_LEAF, TAG_VALUE,
};
use crate::nodes::{lemma_digest_of_preimage, Lookup, Node};
use crate::trie::Error;

verus! {

/// What a proof records of one node on the way from the key's place up to the root.
#[derive(Clone, Copy, Debug, PartialEq, Eq)]
pub enum Step {
    /// A branch: the side that the key took, and the digest of the other subtree.
    Branch { direction: bool, sibling: Digest },
    /// An extension: how many bits of the key it stands for.
    Extension { len: usize },
    /// The value node of a shorter key: the digest of that value's bytes.
    Value { data: Digest },
}

/// Where a key that is absent parts from what the trie holds.
#[derive(Clone, Debug, PartialEq, Eq)]
pub enum Fork {
    /// The trie holds nothing.
    Empty,
    /// The key ends at a branch, of which these are the children's digests.
    Branch { left: Digest, right: Digest },
    /// The rest of the key does not begin with the bits of this extension.
    Extension { path: Bits, child: Digest },
    /// The key goes on beyond a value node that has nothing below it.
    Value { data: Digest },
}

/// The lowest node that a proof speaks of.
#[derive(Clone, Debug, PartialEq, Eq)]
pub enum Terminal {
    /// The value node of the key. `next` is the digest of the subtree of
    /// longer keys, if there is one.
    Leaf { next: Option<Digest> },
    /// The place where the key parts from the trie: the key is absent.
    Divergence { fork: Fork },
    /// A sealed subtree on the way of the key. Such a proof shows the digest
    /// of that subtree and nothing of the key.
    SealedCommitment { digest: Digest },
}

/// A proof of what a key leads to.
#[derive(Clone, Debug, PartialEq, Eq)]
pub struct Proof {
    /// The nodes above the terminal one, from the lowest up to the root.
    pub steps: Vec<Step>,
    /// The lowest node.
    pub terminal: Terminal,
}

/// The bytes of a digest that may be missing.
pub open spec fn opt_bytes(digest: Option<Digest>) -> Option<Seq<u8>> {
    match digest {
        Some(d) => Some(d@),
        None => None,
    }
}

/// The digest of the node that a fork describes, if the rest of the key
/// parts from the trie there.
pub open spec fn fork_digest<H: Hasher>(fork: Fork, key: Seq<bool>) -> Option<Seq<u8>> {
    match fork {
        Fork::Empty => Some(spec_empty_digest::<H>()),
        Fork::Branch { left, right } => if key.len() == 0 {
            Some(spec_branch_digest::<H>(left@, right@))
        } else {
            None
        },
        Fork::Extension { path, child } => if !path@.is_prefix_of(key) {
            Some(spec_leaf_digest::<H>(path@, child@))
        } else {
            None
        },
        Fork::Value { data } => if key.len() > 0 {
            Some(spec_value_digest::<H>(data@, None))
        } else {
            None
        },
    }
}

/// The digest of the terminal node, if it fits the rest of the key and the claim.
pub open spec fn terminal_digest<H: Hasher>(terminal: Terminal, key: Seq<bool>, claim: Lookup) -> Option<
    Seq<u8>,
> {
    match terminal {
        Terminal::Leaf { next } => match claim {
            Lookup::Found(value) => if key.len() == 0 && spec_data_digest::<H>(value).len() == 32 {
                Some(spec_value_digest::<H>(spec_data_digest::<H>(value), opt_bytes(next)))
            } else {
                None
            },
            _ => None,
        },
        Terminal::Divergence { fork } => match claim {
            Lookup::Absent => fork_digest::<H>(fork, key),
            _ => None,
        },
        Terminal::SealedCommitment { digest } => match claim {
            Lookup::Sealed => Some(digest@),
            _ => None,
        },
    }
}

/// The digest of the topmost node that the steps describe, computed from
/// the terminal node upwards with the bits of `key`; `None` if the steps do
/// not fit the key or the terminal node does not fit the claim.
pub open spec fn implied<H: Hasher>(
    steps: Seq<Step>,
    terminal: Terminal,
    key: Seq<bool>,
    claim: Lookup,
) -> Option<Seq<u8>>
    decreases steps.len(),
{
    if steps.len() == 0 {
        terminal_digest::<H>(terminal, key, claim)
    } else {
        let lower = steps.drop_last();
        match steps.last() {
            Step::Branch { direction, sibling } => {
                if key.len() > 0 && key[0] == direction {
                    match implied::<H>(lower, terminal, key.skip(1), claim) {
                        Some(d) => if d.len() != 32 {
                            None
                        } else if direction {
                            Some(spec_branch_digest::<H>(sibling@, d))
                        } else {
                            Some(spec_branch_digest::<H>(d, sibling@))
                        },
                        None => None,
                    }
                } else {
                    None
                }
            },
            Step::Extension { len } => {
                if 0 < len <= key.len() {
                    match implied::<H>(lower, terminal, key.skip(len as int), claim) {
                        Some(d) => if d.len() != 32 {
                            None
                        } else {
                            Some(spec_leaf_digest::<H>(key.take(len as int), d))
                        },
                        None => None,
                    }
                } else {
                    None
                }
            },
            Step::Value { data } => {
                if key.len() > 0 {
                    match implied::<H>(lower, terminal, key, claim) {
                        Some(d) => if d.len() != 32 {
                            None
                        } else {
                            Some(spec_value_digest::<H>(data@, Some(d)))
                        },
                        None => None,
                    }
                } else {
                    None
                }
            },
        }
    }
}

/// True if the proof shows that, in a trie with the digest `root`, `key`
/// leads to what `claim` says.
pub open spec fn accepts<H: Hasher>(root: Seq<u8>, key: Seq<bool>, proof: Proof, claim: Lookup) -> bool {
    implied::<H>(proof.steps@, proof.terminal, key, claim) == Some(root)
}

/// The claim that a verifier checks: a sealed subtree on the way, or else
/// the value if one is given, or else that the key is absent.
pub open spec fn claim_of(value: Option<&[u8]>, sealed: bool) -> Lookup {
    if sealed {
        Lookup::Sealed
    } else {
        match value {
            Some(v) => Lookup::Found(v@),
            None => Lookup::Absent,
        }
    }
}

/// True if `out` is the digest `spec`, or both are missing.
pub open spec fn same_digest(out: Option<Digest>, spec: Option<Seq<u8>>) -> bool {
    match spec {
        Some(d) => out matches Some(x) && x@ == d,
        None => out is None,
    }
}

/// Computes the digest of the terminal node of the proof.
fn terminal_of<H: Hasher>(
    terminal: &Terminal,
    key: &Bits,
    pos: usize,
    value: Option<&[u8]>,
    sealed: bool,
) -> (out: Option<Digest>)
    requires
        pos <= key@.len(),
    ensures
        same_digest(
            out,
            terminal_digest::<H>(*terminal, key@.skip(pos as int), claim_of(value, sealed)),
        ),
{
    let total: usize = key.len();
    match terminal {
        Terminal::Leaf { next } => {
            if sealed || pos != total {
                return None;
            }
            match value {
                Some(v) => {
                    let data = data_digest::<H>(v);
                    match next {
                        Some(n) => Some(value_digest::<H>(&data, Some(n))),
                        None => Some(value_digest::<H>(&data, None)),
                    }
                },
                None => None,
            }
        },
        Terminal::Divergence { fork } => {
            if sealed || value.is_some() {
                return None;
            }
            match fork {
                Fork::Empty => Some(empty_digest::<H>()),
                Fork::Branch { left, right } => {
                    if pos == total {
                        Some(branch_digest::<H>(left, right))
                    } else {
                        None
                    }
                },
                Fork::Extension { path, child } => {
                    if !key.starts_with_at(pos, path) {
                        Some(leaf_digest::<H>(path, child))
                    } else {
                        None
                    }
                },
                Fork::Value { data } => {
                    if pos < total {
                        Some(value_digest::<H>(data, None))
                    } else {
                        None
                    }
                },
            }
        },
        Terminal::SealedCommitment { digest } => {
            if sealed {
                Some(*digest)
            } else {
                None
            }
        },
    }
}

/// Computes the digest of the topmost node that the first `upto` steps
/// describe, with the bits of `key` from `pos` on.
fn implied_digest<H: Hasher>(
    proof: &Proof,
    upto: usize,
    key: &Bits,
    pos: usize,
    value: Option<&[u8]>,
    sealed: bool,
) -> (out: Option<Digest>)
    requires
        upto <= proof.steps@.len(),
        pos <= key@.len(),
    ensures
        same_digest(
            out,
            implied::<H>(
                proof.steps@.take(upto as int),
                proof.terminal,
                key@.skip(pos as int),
                claim_of(value, sealed),
            ),
        ),
    decreases upto,
{
    let total: usize = key.len();
    let ghost steps = proof.steps@.take(upto as int);
    let ghost rest = key@.skip(pos as int);
    if upto == 0 {
        return terminal_of::<H>(&proof.terminal, key, pos, value, sealed);
    }
    assert(steps.drop_last() =~= proof.steps@.take(upto - 1));
    assert(steps.last() == proof.steps@[upto - 1]);
    match &proof.steps[upto - 1] {
        Step::Branch { direction, sibling } => {
            if pos == total || key.get(pos) != *direction {
                return None;
            }
            assert(rest.skip(1) =~= key@.skip(pos + 1));
            match implied_digest::<H>(proof, upto - 1, key, pos + 1, value, sealed) {
                Some(d) => {
                    if *direction {
                        Some(branch_digest::<H>(sibling, &d))
                    } else {
                        Some(branch_digest::<H>(&d, sibling))
                    }
                },
                None => None,
            }
        },
        Step::Extension { len } => {
            if *len == 0 || *len > total - pos {
                return None;
            }
            assert(rest.skip(*len as int) =~= key@.skip(pos + *len));
            match implied_digest::<H>(proof, upto - 1, key, pos + *len, value, sealed) {
                Some(d) => {
                    let path = key.slice(pos, pos + *len);
                    assert(path@ =~= rest.take(*len as int));
                    Some(leaf_digest::<H>(&path, &d))
                },
                None => None,
            }
        },
        Step::Value { data } => {
            if pos == total {
                return None;
            }
            match implied_digest::<H>(proof, upto - 1, key, pos, value, sealed) {
                Some(d) => Some(value_digest::<H>(data, Some(&d))),
                None => None,
            }
        },
    }
}

/// Checks a proof that `key` has the value `claimed_value`, or, with no
/// value given, that `key` is absent, against the digest of the trie. A
/// proof that ends in a sealed subtree shows neither, and is not accepted.
pub fn verify<H: Hasher>(
    root: &Digest,
    key: &Bits,
    proof: &Proof,
    claimed_value: Option<&[u8]>,
) -> (out: bool)
    ensures
        out == accepts::<H>(root@, key@, *proof, claim_of(claimed_value, false)),
{
    assert(key@.skip(0) =~= key@);
    assert(proof.steps@.take(proof.steps@.len() as int) =~= proof.steps@);
    match implied_digest::<H>(proof, proof.steps.len(), key, 0, claimed_value, false) {
        Some(d) => d.same(root),
        None => false,
    }
}

/// Checks a proof as `verify` does, and tells a failure as an error.
pub fn check<H: Hasher>(
    root: &Digest,
    key: &Bits,
    proof: &Proof,
    claimed_value: Option<&[u8]>,
) -> (out: Result<(), Error>)
    ensures
        out == if accepts::<H>(root@, key@, *proof, claim_of(claimed_value, false)) {
            Ok::<(), Error>(())
        } else {
            Err::<(), Error>(Error::ProofVerificationFailed)
        },
{
    if verify::<H>(root, key, proof, claimed_value) {
        Ok(())
    } else {
        Err(Error::ProofVerificationFailed)
    }
}

/// Checks a proof that the way of `key` enters a subtree that is sealed, or
/// that the prover chose to treat as sealed, in a trie with the digest
/// `root`. The digest of that subtree is the one in the proof's terminal.
pub fn verify_sealed<H: Hasher>(root: &Digest, key: &Bits, proof: &Proof) -> (out: bool)
    ensures
        out == accepts::<H>(root@, key@, *proof, Lookup::Sealed),
{
    assert(key@.skip(0) =~= key@);
    assert(proof.steps@.take(proof.steps@.len() as int) =~= proof.steps@);
    match implied_digest::<H>(proof, proof.steps.len(), key, 0, None, true) {
        Some(d) => d.same(root),
        None => false,
    }
}

/// The kind of the terminal node goes with what the key leads to.
pub open spec fn tagged_for(terminal: Terminal, found: Lookup) -> bool {
    match found {
        Lookup::Found(_) => terminal is Leaf,
        Lookup::Absent => terminal is Divergence,
        Lookup::Sealed => terminal is SealedCommitment,
    }
}

/// Adds the step for a node to the proof made for the subtree below it.
fn with_step(lower: Proof, step: Step) -> (out: Proof)
    ensures
        out.steps@ == lower.steps@.push(step),
        out.steps@.drop_last() == lower.steps@,
        out.steps@.last() == step,
        out.terminal == lower.terminal,
{
    let Proof { steps, terminal } = lower;
    let mut steps = steps;
    steps.push(step);
    assert(steps@.drop_last() =~= lower.steps@);
    Proof { steps, terminal }
}

/// Walks from `node` down the bits of `key` from `pos` on and records, for
/// each node passed, what a verifier needs to compute its digest again.
pub fn prove_at<H: Hasher>(node: &Node, key: &Bits, pos: usize) -> (out: Proof)
    requires
        node.wf::<H>(),
        pos <= key@.len(),
    ensures
        implied::<H>(
            out.steps@,
            out.terminal,
            key@.skip(pos as int),
            node.lookup(key@.skip(pos as int)),
        ) == Some(node.spec_digest()@),
        tagged_for(out.terminal, node.lookup(key@.skip(pos as int))),
    decreases *node,
{
    let total: usize = key.len();
    let ghost rest = key@.skip(pos as int);
    match node {
        Node::Branch { left, right, .. } => {
            if pos == total {
                let fork = Fork::Branch { left: left.digest(), right: right.digest() };
                Proof { steps: Vec::new(), terminal: Terminal::Divergence { fork } }
            } else {
                assert(rest.skip(1) =~= key@.skip(pos + 1));
                let direction = key.get(pos);
                if direction {
                    let lower = prove_at::<H>(right, key, pos + 1);
                    with_step(lower, Step::Branch { direction, sibling: left.digest() })
                } else {
                    let lower = prove_at::<H>(left, key, pos + 1);
                    with_step(lower, Step::Branch { direction, sibling: right.digest() })
                }
            }
        },
        Node::Extension { path, child, .. } => {
            if key.starts_with_at(pos, path) {
                let len = path.len();
                assert(len <= rest.len());
                assert(rest.skip(len as int) =~= key@.skip(pos + len));
                assert(rest.take(len as int) =~= path@);
                let lower = prove_at::<H>(child, key, pos + len);
                with_step(lower, Step::Extension { len })
            } else {
                let fork = Fork::Extension { path: path.clone(), child: child.digest() };
                Proof { steps: Vec::new(), terminal: Terminal::Divergence { fork } }
            }
        },
        Node::Value { data, next, .. } => {
            if pos == total {
                let below = match next {
                    Some(c) => Some(c.digest()),
                    None => None,
                };
                Proof { steps: Vec::new(), terminal: Terminal::Leaf { next: below } }
            } else {
                match next {
                    Some(c) => {
                        let lower = prove_at::<H>(c, key, pos);
                        with_step(lower, Step::Value { data: *data })
                    },
                    None => {
                        let fork = Fork::Value { data: *data };
                        Proof { steps: Vec::new(), terminal: Terminal::Divergence { fork } }
                    },
                }
            }
        },
        Node::Sealed { digest } => {
            Proof { steps: Vec::new(), terminal: Terminal::SealedCommitment { digest: *digest } }
        },
    }
}

/// The proof that a trie which holds nothing gives for any key.
pub fn prove_empty() -> (out: Proof)
    ensures
        out.steps@.len() == 0,
        out.terminal == (Terminal::Divergence { fork: Fork::Empty }),
{
    Proof { steps: Vec::new(), terminal: Terminal::Divergence { fork: Fork::Empty } }
}

/// A proof that is accepted for a claim ends in the kind of node that goes
/// with the claim.
pub proof fn lemma_terminal_fits<H: Hasher>(
    steps: Seq<Step>,
    terminal: &Terminal,
    key: Seq<bool>,
    claim: Lookup,
)
    requires
        implied::<H>(steps, *terminal, key, claim) is Some,
    ensures
        tagged_for(*terminal, claim),
    decreases steps.len(),
{
    if steps.len() > 0 {
        let lower = steps.drop_last();
        match steps.last() {
            Step::Branch { .. } => {
                lemma_terminal_fits::<H>(lower, terminal, key.skip(1), claim);
            },
            Step::Extension { len } => {
                lemma_terminal_fits::<H>(lower, terminal, key.skip(len as int), claim);
            },
            Step::Value { .. } => {
                lemma_terminal_fits::<H>(lower, terminal, key, claim);
            },
        }
    }
}

/// Soundness below a node. If a proof for `key` and a claim leads to the
/// digest of `node`, and no two byte strings have the same digest, then in
/// the tree below `node` the key leads to what is claimed; or it leads into
/// a sealed subtree, of which the tree knows no more than the digest.
pub proof fn lemma_sound<H: Hasher>(
    node: &Node,
    steps: Seq<Step>,
    terminal: &Terminal,
    key: Seq<bool>,
    claim: Lookup,
)
    requires
        node.wf::<H>(),
        !has_collision::<H>(),
        !(claim is Sealed),
        implied::<H>(steps, *terminal, key, claim) == Some(node.spec_digest()@),
    ensures
        node.lookup(key) is Sealed || node.lookup(key) == claim,
    decreases steps.len(),
{
    if node.is_sealed() {
        return ;
    }
    lemma_digest_of_preimage::<H>(node);
    let mine = node.preimage();
    if steps.len() == 0 {
        match *terminal {
            Terminal::Leaf { next } => {
                let value = claim->Found_0;
                let data = spec_data_digest::<H>(value);
                let theirs = value_preimage(data, opt_bytes(next));
                lemma_same_preimage::<H>(mine, theirs);
                assert(theirs[0] == TAG_VALUE);
                match node {
                    Node::Value { value: held, data: held_data, next: below, .. } => {
                        let below_bytes = match *below {
                            Some(c) => Some(c.spec_digest()@),
                            None => None,
                        };
                        lemma_value_preimage(held_data@, below_bytes, data, opt_bytes(next));
                        lemma_same_preimage::<H>(data_preimage(held@), data_preimage(value));
                        lemma_data_preimage(held@, value);
                    },
                    _ => {},
                }
            },
            Terminal::Divergence { fork } => {
                match fork {
                    Fork::Empty => {
                        lemma_same_preimage::<H>(mine, empty_preimage());
                        assert(empty_preimage()[0] == TAG_EMPTY);
                    },
                    Fork::Branch { left, right } => {
                        let theirs = branch_preimage(left@, right@);
                        lemma_same_preimage::<H>(mine, theirs);
                        assert(theirs[0] == TAG_BRANCH);
                    },
                    Fork::Extension { path, child } => {
                        let theirs = leaf_preimage(path@, child@);
                        lemma_same_preimage::<H>(mine, theirs);
                        assert(theirs[0] == TAG_LEAF);
                        match node {
                            Node::Extension { path: run, child: below, .. } => {
                                lemma_leaf_preimage(run@, below.spec_digest()@, path@, child@);
                            },
                            _ => {},
                        }
                    },
                    Fork::Value { data } => {
                        let theirs = value_preimage(data@, None);
                        lemma_same_preimage::<H>(mine, theirs);
                        assert(theirs[0] == TAG_VALUE);
                        match node {
                            Node::Value { data: held_data, next: below, .. } => {
                                let below_bytes = match *below {
                                    Some(c) => Some(c.spec_digest()@),
                                    None => None,
                                };
                                lemma_value_preimage(held_data@, below_bytes, data@, None);
                            },
                            _ => {},
                        }
                    },
                }
            },
            Terminal::SealedCommitment { .. } => {},
        }
    } else {
        let lower = steps.drop_last();
        match steps.last() {
            Step::Branch { direction, sibling } => {
                let d = implied::<H>(lower, *terminal, key.skip(1), claim)->Some_0;
                let theirs = if direction {
                    branch_preimage(sibling@, d)
                } else {
                    branch_preimage(d, sibling@)
                };
                lemma_same_preimage::<H>(mine, theirs);
                assert(theirs[0] == TAG_BRANCH);
                match node {
                    Node::Branch { left, right, .. } => {
                        if direction {
                            lemma_branch_preimage(
                                left.spec_digest()@,
                                right.spec_digest()@,
                                sibling@,
                                d,
                            );
                            lemma_sound::<H>(&**right, lower, terminal, key.skip(1), claim);
                        } else {
                            lemma_branch_preimage(
                                left.spec_digest()@,
                                right.spec_digest()@,
                                d,
                                sibling@,
                            );
                            lemma_sound::<H>(&**left, lower, terminal, key.skip(1), claim);
                        }
                    },
                    _ => {},
                }
            },
            Step::Extension { len } => {
                let d = implied::<H>(lower, *terminal, key.skip(len as int), claim)->Some_0;
                let theirs = leaf_preimage(key.take(len as int), d);
                lemma_same_preimage::<H>(mine, theirs);
                assert(theirs[0] == TAG_LEAF);
                match node {
                    Node::Extension { path, child, .. } => {
                        lemma_leaf_preimage(path@, child.spec_digest()@, key.take(len as int), d);
                        assert(path@.is_prefix_of(key));
                        lemma_sound::<H>(&**child, lower, terminal, key.skip(len as int), claim);
                    },
                    _ => {},
                }
            },
            Step::Value { data } => {
                let d = implied::<H>(lower, *terminal, key, claim)->Some_0;
                let theirs = value_preimage(data@, Some(d));
                lemma_same_preimage::<H>(mine, theirs);
                assert(theirs[0] == TAG_VALUE);
                match node {
                    Node::Value { data: held_data, next: below, .. } => {
                        let below_bytes = match *below {
                            Some(c) => Some(c.spec_digest()@),
                            None => None,
                        };
                        lemma_value_preimage(held_data@, below_bytes, data@, Some(d));
                        match below {
                            Some(c) => {
                                lemma_sound::<H>(&**c, lower, terminal, key, claim);
                            },
                            None => {},
                        }
                    },
                    _ => {},
                }
            },
        }
    }
}

/// The two sequences of steps are the same but at `at`, where both pass a
/// branch on the same side with different digests for the other subtree.
pub open spec fn tampered_at(a: Seq<Step>, b: Seq<Step>, at: int) -> bool {
    &&& a.len() == b.len()
    &&& 0 <= at < a.len()
    &&& forall|j: int| 0 <= j < a.len() && j != at ==> a[j] == b[j]
    &&& a[at] is Branch
    &&& b[at] is Branch
    &&& a[at]->direction == b[at]->direction
    &&& a[at]->sibling@ != b[at]->sibling@
}

/// Proofs that differ in one sibling digest lead to different digests,
/// where no two byte strings have the same digest.
pub proof fn lemma_tamper<H: Hasher>(
    a: Seq<Step>,
    b: Seq<Step>,
    at: int,
    terminal: &Terminal,
    key: Seq<bool>,
    claim: Lookup,
)
    requires
        tampered_at(a, b, at),
        !has_collision::<H>(),
        implied::<H>(a, *terminal, key, claim) is Some,
        implied::<H>(b, *terminal, key, claim) is Some,
    ensures
        implied::<H>(a, *terminal, key, claim) != implied::<H>(b, *terminal, key, claim),
    decreases a.len(),
{
    let top_a = implied::<H>(a, *terminal, key, claim)->Some_0;
    let top_b = implied::<H>(b, *terminal, key, claim)->Some_0;
    let low_a = a.drop_last();
    let low_b = b.drop_last();
    let last: int = a.len() - 1;
    if at == last {
        assert(low_a =~= low_b);
        let direction = a[at]->direction;
        let d = implied::<H>(low_a, *terminal, key.skip(1), claim)->Some_0;
        let sa = a[at]->sibling@;
        let sb = b[at]->sibling@;
        if top_a == top_b {
            if direction {
                lemma_same_preimage::<H>(branch_preimage(sa, d), branch_preimage(sb, d));
                lemma_branch_preimage(sa, d, sb, d);
            } else {
                lemma_same_preimage::<H>(branch_preimage(d, sa), branch_preimage(d, sb));
                lemma_branch_preimage(d, sa, d, sb);
            }
        }
    } else {
        assert(a.last() == b.last());
        assert(tampered_at(low_a, low_b, at));
        match a.last() {
            Step::Branch { direction, sibling } => {
                let rest = key.skip(1);
                lemma_tamper::<H>(low_a, low_b, at, terminal, rest, claim);
                let da = implied::<H>(low_a, *terminal, rest, claim)->Some_0;
                let db = implied::<H>(low_b, *terminal, rest, claim)->Some_0;
                if top_a == top_b {
                    if direction {
                        lemma_same_preimage::<H>(
                            branch_preimage(sibling@, da),
                            branch_preimage(sibling@, db),
                        );
                        lemma_branch_preimage(sibling@, da, sibling@, db);
                    } else {
                        lemma_same_preimage::<H>(
                            branch_preimage(da, sibling@),
                            branch_preimage(db, sibling@),
                        );
                        lemma_branch_preimage(da, sibling@, db, sibling@);
                    }
                }
            },
            Step::Extension { len } => {
                let rest = key.skip(len as int);
                let path = key.take(len as int);
                lemma_tamper::<H>(low_a, low_b, at, terminal, rest, claim);
                let da = implied::<H>(low_a, *terminal, rest, claim)->Some_0;
                let db = implied::<H>(low_b, *terminal, rest, claim)->Some_0;
                if top_a == top_b {
                    lemma_same_preimage::<H>(leaf_preimage(path, da), leaf_preimage(path, db));
                    lemma_leaf_preimage(path, da, path, db);
                }
            },
            Step::Value { data } => {
                lemma_tamper::<H>(low_a, low_b, at, terminal, key, claim);
                let da = implied::<H>(low_a, *terminal, key, claim)->Some_0;
                let db = implied::<H>(low_b, *terminal, key, claim)->Some_0;
                if top_a == top_b {
                    lemma_same_preimage::<H>(
                        value_preimage(data@, Some(da)),
                        value_preimage(data@, Some(db)),
                    );
                    lemma_value_preimage(data@, Some(da), data@, Some(db));
                }
            },
        }
    }
}

/// A proof that leads to the digest of the trie that holds nothing shows
/// that the key is absent, where no two byte strings have the same digest.
pub proof fn lemma_sound_empty<H: Hasher>(
    steps: Seq<Step>,
    terminal: &Terminal,
    key: Seq<bool>,
    claim: Lookup,
)
    requires
        !has_collision::<H>(),
        !(claim is Sealed),
        implied::<H>(steps, *terminal, key, claim) == Some(spec_empty_digest::<H>()),
    ensures
        claim is Absent,
{
    let mine = empty_preimage();
    assert(mine[0] == TAG_EMPTY);
    if steps.len() == 0 {
        match *terminal {
            Terminal::Leaf { next } => {
                let data = spec_data_digest::<H>(claim->Found_0);
                let theirs = value_preimage(data, opt_bytes(next));
                lemma_same_preimage::<H>(mine, theirs);
                assert(theirs[0] == TAG_VALUE);
            },
            _ => {},
        }
    } else {
        let lower = steps.drop_last();
        match steps.last() {
            Step::Branch { direction, sibling } => {
                let d = implied::<H>(lower, *terminal, key.skip(1), claim)->Some_0;
                let theirs = if direction {
                    branch_preimage(sibling@, d)
                } else {
                    branch_preimage(d, sibling@)
                };
                lemma_same_preimage::<H>(mine, theirs);
                assert(theirs[0] == TAG_BRANCH);
            },
            Step::Extension { len } => {
                let d = implied::<H>(lower, *terminal, key.skip(len as int), claim)->Some_0;
                let theirs = leaf_preimage(key.take(len as int), d);
                lemma_same_preimage::<H>(mine, theirs);
                assert(theirs[0] == TAG_LEAF);
            },
            Step::Value { data } => {
                let d = implied::<H>(lower, *terminal, key, claim)->Some_0;
                let theirs = value_preimage(data@, Some(d));
                lemma_same_preimage::<H>(mine, theirs);
                assert(theirs[0] == TAG_VALUE);
            },
        }
    }
}

} // verus!
