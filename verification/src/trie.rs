//! The trie: lookups, updates that share what they do not change, sealing,
//! and the laws that tie the digest of a trie to what it holds.

use std::marker::PhantomData;
use std::rc::Rc;
use vstd::prelude::*;
use crate::bits::{Bits, MAX_KEY_BYTES};
use crate::canonical::{first_key, lemma_canonical, lemma_first_key, lemma_never_sealed};
use crate::hash::{
    empty_digest, has_collision, sealed_digest, spec_empty_digest, Digest, Hasher,
};
use crate::proofs::{
    accepts, lemma_sound, lemma_sound_empty, lemma_tamper, lemma_terminal_fits, prove_at,
    prove_empty, tagged_for, tampered_at, Proof,
};
use crate::nodes::{
    lemma_prefix_concat, lookup_through, new_branch, new_extension, new_value, share, Lookup, Node,
    Rooted,
};

verus! {

/// Why an operation on a trie or on one of its keys did not go through.
#[derive(Clone, Copy, PartialEq, Eq, Structural, Debug)]
pub enum Error {
    /// The key is made from more bytes than a key may be, or holds more bits
    /// than the trie was set up to take.
    KeyTooLong,
    /// The value holds more bytes than the trie was set up to store.
    ValueTooLong,
    /// The path to the key enters a sealed subtree, whose contents are gone.
    SealedUnreadable,
    /// Nothing is rooted at the given path.
    NotFound,
    /// The path ends at, or goes on into, a subtree that is sealed already.
    AlreadySealed,
    /// The proof does not show what is claimed of the key.
    ProofVerificationFailed,
}

/// True if `out` is what a reader gets for the outcome `found`.
pub open spec fn answers(out: Result<Option<Vec<u8>>, Error>, found: Lookup) -> bool {
    match found {
        Lookup::Found(bytes) => out matches Ok(Some(v)) && v@ == bytes,
        Lookup::Absent => out == Ok::<Option<Vec<u8>>, Error>(None),
        Lookup::Sealed => out == Err::<Option<Vec<u8>>, Error>(Error::SealedUnreadable),
    }
}

/// A copy of `bytes`.
fn copy_bytes(bytes: &[u8]) -> (out: Vec<u8>)
    ensures
        out@ == bytes@,
{
    let mut out: Vec<u8> = Vec::new();
    let mut i: usize = 0;
    while i < bytes.len()
        invariant
            i <= bytes@.len(),
            out@ == bytes@.take(i as int),
        decreases bytes@.len() - i,
    {
        out.push(bytes[i]);
        assert(out@ =~= bytes@.take(i + 1));
        i = i + 1;
    }
    assert(bytes@.take(bytes@.len() as int) =~= bytes@);
    out
}

/// Follows the bits of `key` from `pos` on down the tree below `node`.
fn find(node: &Node, key: &Bits, pos: usize) -> (out: Result<Option<Vec<u8>>, Error>)
    requires
        pos <= key@.len(),
    ensures
        answers(out, node.lookup(key@.skip(pos as int))),
    decreases *node,
{
    let ghost rest = key@.skip(pos as int);
    match node {
        Node::Branch { left, right, .. } => {
            if pos == key.len() {
                Ok(None)
            } else {
                assert(rest.skip(1) =~= key@.skip(pos + 1));
                if key.get(pos) {
                    find(right, key, pos + 1)
                } else {
                    find(left, key, pos + 1)
                }
            }
        },
        Node::Extension { path, child, .. } => {
            if key.starts_with_at(pos, path) {
                let total: usize = key.len();
                assert(path@.len() <= rest.len());
                assert(rest.skip(path@.len() as int) =~= key@.skip(pos + path@.len()));
                find(child, key, pos + path.len())
            } else {
                Ok(None)
            }
        },
        Node::Value { value, next, .. } => {
            if pos == key.len() {
                Ok(Some(copy_bytes(value.as_slice())))
            } else {
                match next {
                    Some(c) => find(c, key, pos),
                    None => Ok(None),
                }
            }
        },
        Node::Sealed { .. } => Err(Error::SealedUnreadable),
    }
}

/// The lookups of `after` are those of `before`, but that `key` leads to `value`.
pub open spec fn differs_by_insert(before: Node, after: Node, key: Seq<bool>, value: Seq<u8>) -> bool {
    forall|k: Seq<bool>| #[trigger]
        after.lookup(k) == if k == key {
            Lookup::Found(value)
        } else {
            before.lookup(k)
        }
}

/// A key is `head` followed by `tail` just if it starts with `head` and the rest of it is `tail`.
proof fn lemma_split_key(head: Seq<bool>, tail: Seq<bool>, k: Seq<bool>)
    ensures
        k == head + tail <==> head.is_prefix_of(k) && k.skip(head.len() as int) == tail,
{
    if k == head + tail {
        assert(head =~= k.subrange(0, head.len() as int));
        assert(k.skip(head.len() as int) =~= tail);
    }
    if head.is_prefix_of(k) && k.skip(head.len() as int) == tail {
        assert(k =~= head + tail);
    }
}

/// The subtree that holds `value` under the bits of `key` from `from` on, and nothing else.
fn leaf<H: Hasher>(key: &Bits, from: usize, value: &[u8]) -> (out: Rc<Node>)
    requires
        from <= key@.len(),
    ensures
        out.wf::<H>(),
        out.unsealed(),
        !out.is_sealed(),
        !out.is_branch(),
        from < key@.len() <==> out.is_extension(),
        forall|k: Seq<bool>| #[trigger]
            out.lookup(k) == if k == key@.skip(from as int) {
                Lookup::Found(value@)
            } else {
                Lookup::Absent
            },
{
    let end = new_value::<H>(copy_bytes(value), None);
    let path = key.slice(from, key.len());
    let out = new_extension::<H>(path, end);
    proof {
        let rest = key@.skip(from as int);
        assert(path@ =~= rest);
        assert forall|k: Seq<bool>| #[trigger]
            out.lookup(k) == if k == rest {
                Lookup::Found(value@)
            } else {
                Lookup::Absent
            } by {
            lemma_split_key(rest, Seq::<bool>::empty(), k);
            assert(rest + Seq::<bool>::empty() =~= rest);
            if rest.is_prefix_of(k) {
                let tail = k.skip(rest.len() as int);
                if tail.len() == 0 {
                    assert(tail =~= Seq::<bool>::empty());
                }
            }
        }
    }
    out
}

/// Another pointer to the subtree, if there is one.
fn share_opt(node: &Option<Rc<Node>>) -> (out: Option<Rc<Node>>)
    ensures
        out == *node,
{
    match node {
        Some(n) => Some(share(n)),
        None => None,
    }
}

/// The tree below `node` with the bits of `key` from `pos` on leading to
/// `value`: new nodes along the way of the key, the other subtrees shared.
fn insert<H: Hasher>(node: &Rc<Node>, key: &Bits, pos: usize, value: &[u8]) -> (out: Result<
    Rc<Node>,
    Error,
>)
    requires
        node.wf::<H>(),
        pos <= key@.len(),
    ensures
        out is Err <==> node.lookup(key@.skip(pos as int)) is Sealed,
        out is Err ==> out == Err::<Rc<Node>, Error>(Error::SealedUnreadable),
        out matches Ok(n) ==> {
            &&& n.wf::<H>()
            &&& differs_by_insert(**node, *n, key@.skip(pos as int), value@)
            &&& !n.is_sealed()
            &&& (n.is_extension() ==> node.is_extension())
            &&& (pos < key@.len() && (node.is_branch() || node.is_extension()) ==> n.is_branch()
                || n.is_extension())
            &&& (node.unsealed() ==> n.unsealed())
        },
    decreases **node,
{
    let ghost rest = key@.skip(pos as int);
    let total: usize = key.len();
    match &**node {
        Node::Branch { left, right, .. } => {
            if pos == total {
                let out = new_value::<H>(copy_bytes(value), Some(share(node)));
                assert(rest =~= Seq::<bool>::empty());
                assert forall|k: Seq<bool>| #[trigger]
                    out.lookup(k) == if k == rest {
                        Lookup::Found(value@)
                    } else {
                        node.lookup(k)
                    } by {
                    if k.len() == 0 {
                        assert(k =~= rest);
                    }
                }
                Ok(out)
            } else {
                assert(rest.skip(1) =~= key@.skip(pos + 1));
                let bit = key.get(pos);
                let below = if bit {
                    insert::<H>(right, key, pos + 1, value)?
                } else {
                    insert::<H>(left, key, pos + 1, value)?
                };
                let out = if bit {
                    new_branch::<H>(share(left), below)
                } else {
                    new_branch::<H>(below, share(right))
                };
                assert forall|k: Seq<bool>| #[trigger]
                    out.lookup(k) == if k == rest {
                        Lookup::Found(value@)
                    } else {
                        node.lookup(k)
                    } by {
                    if k.len() == 0 {
                        assert(k != rest);
                    } else if k[0] == bit {
                        lemma_split_key(seq![bit], rest.skip(1), k);
                        assert(seq![bit] + rest.skip(1) =~= rest);
                        assert(seq![bit] =~= k.subrange(0, 1));
                        assert(out.lookup(k) == below.lookup(k.skip(1)));
                        if bit {
                            assert(node.lookup(k) == right.lookup(k.skip(1)));
                        } else {
                            assert(node.lookup(k) == left.lookup(k.skip(1)));
                        }
                    } else {
                        assert(k != rest);
                        assert(out.lookup(k) == node.lookup(k));
                    }
                }
                Ok(out)
            }
        },
        Node::Extension { path, child, .. } => {
            let n = path.common_prefix_len(0, key, pos);
            assert(path@.skip(0) =~= path@);
            if n == path.len() {
                assert(path@ =~= rest.subrange(0, n as int));
                assert(rest.skip(n as int) =~= key@.skip(pos + n));
                let below = insert::<H>(child, key, pos + n, value)?;
                let out = new_extension::<H>(path.clone(), below);
                assert forall|k: Seq<bool>| #[trigger]
                    out.lookup(k) == if k == rest {
                        Lookup::Found(value@)
                    } else {
                        node.lookup(k)
                    } by {
                    lemma_split_key(path@, rest.skip(n as int), k);
                    assert(path@ + rest.skip(n as int) =~= rest);
                }
                Ok(out)
            } else {
                let head = path.slice(0, n);
                let ghost tail = path@.skip(n as int);
                assert(head@ + tail =~= path@);
                assert(head@ =~= rest.subrange(0, n as int));
                assert(head@ + rest.skip(n as int) =~= rest);
                let inner = if pos + n == total {
                    let below = new_extension::<H>(path.slice(n, path.len()), share(child));
                    let inner = new_value::<H>(copy_bytes(value), Some(below));
                    assert(rest.skip(n as int) =~= Seq::<bool>::empty());
                    assert forall|k: Seq<bool>| #[trigger]
                        inner.lookup(k) == if k == rest.skip(n as int) {
                            Lookup::Found(value@)
                        } else {
                            lookup_through(tail, **child, k)
                        } by {
                        if k.len() == 0 {
                            assert(k =~= rest.skip(n as int));
                            assert(!tail.is_prefix_of(k));
                            assert(inner.lookup(k) == Lookup::Found(value@));
                        } else {
                            assert(k != rest.skip(n as int));
                            assert(inner.lookup(k) == below.lookup(k));
                            assert(below.lookup(k) == lookup_through(tail, **child, k));
                        }
                    }
                    inner
                } else {
                    let old_side = new_extension::<H>(
                        path.slice(n + 1, path.len()),
                        share(child),
                    );
                    let new_side = leaf::<H>(key, pos + n + 1, value);
                    let bit = path.get(n);
                    assert(rest[n as int] != path@[n as int]);
                    assert(rest.skip(n as int).skip(1) =~= key@.skip(pos + n + 1));
                    let inner = if bit {
                        new_branch::<H>(new_side, old_side)
                    } else {
                        new_branch::<H>(old_side, new_side)
                    };
                    assert forall|k: Seq<bool>| #[trigger]
                        inner.lookup(k) == if k == rest.skip(n as int) {
                            Lookup::Found(value@)
                        } else {
                            lookup_through(tail, **child, k)
                        } by {
                        let r = rest.skip(n as int);
                        lemma_prefix_concat(seq![bit], tail.skip(1), k);
                        assert(seq![bit] + tail.skip(1) =~= tail);
                        lemma_split_key(seq![!bit], r.skip(1), k);
                        assert(seq![!bit] + r.skip(1) =~= r);
                        if k.len() == 0 {
                            assert(k != r);
                            assert(!tail.is_prefix_of(k));
                            assert(inner.lookup(k) == Lookup::Absent);
                        } else {
                            assert(seq![k[0]] =~= k.subrange(0, 1));
                            if k[0] == bit {
                                assert(k != r);
                                assert(inner.lookup(k) == old_side.lookup(k.skip(1)));
                                assert(old_side.lookup(k.skip(1)) == lookup_through(
                                    tail.skip(1),
                                    **child,
                                    k.skip(1),
                                ));
                            } else {
                                assert(inner.lookup(k) == new_side.lookup(k.skip(1)));
                                assert(!tail.is_prefix_of(k)) by {
                                    if tail.is_prefix_of(k) {
                                        assert(tail[0] == k.subrange(0, tail.len() as int)[0]);
                                    }
                                }
                            }
                        }
                    }
                    inner
                };
                let out = new_extension::<H>(head, inner);
                assert forall|k: Seq<bool>| #[trigger]
                    out.lookup(k) == if k == rest {
                        Lookup::Found(value@)
                    } else {
                        node.lookup(k)
                    } by {
                    lemma_split_key(head@, rest.skip(n as int), k);
                    lemma_prefix_concat(head@, tail, k);
                }
                Ok(out)
            }
        },
        Node::Value { value: held, next, .. } => {
            if pos == total {
                let out = new_value::<H>(copy_bytes(value), share_opt(next));
                assert(rest =~= Seq::<bool>::empty());
                assert forall|k: Seq<bool>| #[trigger]
                    out.lookup(k) == if k == rest {
                        Lookup::Found(value@)
                    } else {
                        node.lookup(k)
                    } by {
                    if k.len() == 0 {
                        assert(k =~= rest);
                    }
                }
                Ok(out)
            } else {
                let below = match next {
                    Some(c) => insert::<H>(c, key, pos, value)?,
                    None => leaf::<H>(key, pos, value),
                };
                let out = new_value::<H>(copy_bytes(held.as_slice()), Some(below));
                assert forall|k: Seq<bool>| #[trigger]
                    out.lookup(k) == if k == rest {
                        Lookup::Found(value@)
                    } else {
                        node.lookup(k)
                    } by {
                    if k.len() == 0 {
                        assert(k != rest);
                    } else {
                        assert(out.lookup(k) == below.lookup(k));
                    }
                }
                Ok(out)
            }
        },
        Node::Sealed { .. } => Err(Error::SealedUnreadable),
    }
}

/// The lookups of `after` are those of `before`, but that `key` is absent.
pub open spec fn differs_by_remove(before: Node, after: Node, key: Seq<bool>) -> bool {
    forall|k: Seq<bool>| #[trigger]
        after.lookup(k) == if k == key {
            Lookup::Absent
        } else {
            before.lookup(k)
        }
}

/// `key` is the one key that leads anywhere in the tree.
pub open spec fn holds_only(node: Node, key: Seq<bool>) -> bool {
    forall|k: Seq<bool>| k != key ==> #[trigger] node.lookup(k) == Lookup::Absent
}

/// The tree below `node` without the key made of the bits of `key` from
/// `pos` on, or `None` if that was its only key. A branch that loses a
/// subtree gives way to the other one, behind the bit that led to it.
fn remove<H: Hasher>(node: &Rc<Node>, key: &Bits, pos: usize) -> (out: Result<
    Option<Rc<Node>>,
    Error,
>)
    requires
        node.wf::<H>(),
        pos <= key@.len(),
        node.lookup(key@.skip(pos as int)) is Found,
    ensures
        out is Err <==> node.removal_blocked(key@.skip(pos as int)),
        out is Err ==> out == Err::<Option<Rc<Node>>, Error>(Error::SealedUnreadable),
        out matches Ok(left_over) ==> match left_over {
            Some(n) => {
                &&& !node.vanishes(key@.skip(pos as int))
                &&& n.wf::<H>()
                &&& differs_by_remove(**node, *n, key@.skip(pos as int))
                &&& !n.is_sealed()
                &&& (node.is_branch() || node.is_extension() ==> n.is_branch()
                    || n.is_extension())
                &&& (node.unsealed() ==> n.unsealed())
            },
            None => {
                &&& node.vanishes(key@.skip(pos as int))
                &&& holds_only(**node, key@.skip(pos as int))
            },
        },
    decreases **node,
{
    let ghost rest = key@.skip(pos as int);
    let total: usize = key.len();
    match &**node {
        Node::Branch { left, right, .. } => {
            assert(rest.skip(1) =~= key@.skip(pos + 1));
            let bit = key.get(pos);
            let (side, other) = if bit {
                (right, left)
            } else {
                (left, right)
            };
            proof {
                if side.removal_blocked(rest.skip(1)) {
                    lemma_blocked_stays(&**side, rest.skip(1));
                }
            }
            let below = remove::<H>(side, key, pos + 1)?;
            match below {
                Some(b) => {
                    let out = if bit {
                        new_branch::<H>(share(other), b)
                    } else {
                        new_branch::<H>(b, share(other))
                    };
                    assert forall|k: Seq<bool>| #[trigger]
                        out.lookup(k) == if k == rest {
                            Lookup::Absent
                        } else {
                            node.lookup(k)
                        } by {
                        if k.len() == 0 {
                            assert(k != rest);
                        } else if k[0] == bit {
                            lemma_split_key(seq![bit], rest.skip(1), k);
                            assert(seq![bit] + rest.skip(1) =~= rest);
                            assert(seq![bit] =~= k.subrange(0, 1));
                            assert(out.lookup(k) == b.lookup(k.skip(1)));
                            assert(node.lookup(k) == side.lookup(k.skip(1)));
                        } else {
                            assert(k != rest);
                            assert(out.lookup(k) == node.lookup(k));
                        }
                    }
                    Ok(Some(out))
                },
                None => {
                    if other.sealed() {
                        return Err(Error::SealedUnreadable);
                    }
                    let out = new_extension::<H>(Bits::single(!bit), share(other));
                    assert forall|k: Seq<bool>| #[trigger]
                        out.lookup(k) == if k == rest {
                            Lookup::Absent
                        } else {
                            node.lookup(k)
                        } by {
                        let way = seq![!bit];
                        if k.len() == 0 {
                            assert(k != rest);
                            assert(!way.is_prefix_of(k));
                        } else if k[0] == bit {
                            assert(!way.is_prefix_of(k)) by {
                                if way.is_prefix_of(k) {
                                    assert(way[0] == k.subrange(0, 1)[0]);
                                }
                            }
                            lemma_split_key(seq![bit], rest.skip(1), k);
                            assert(seq![bit] + rest.skip(1) =~= rest);
                            assert(seq![bit] =~= k.subrange(0, 1));
                            assert(node.lookup(k) == side.lookup(k.skip(1)));
                        } else {
                            assert(k != rest);
                            assert(way =~= k.subrange(0, 1));
                            assert(node.lookup(k) == other.lookup(k.skip(1)));
                        }
                    }
                    Ok(Some(out))
                },
            }
        },
        Node::Extension { path, child, .. } => {
            let n = path.len();
            assert(path@.len() <= rest.len());
            assert(rest.skip(n as int) =~= key@.skip(pos + n));
            let below = remove::<H>(child, key, pos + n)?;
            assert(path@ + rest.skip(n as int) =~= rest);
            match below {
                Some(b) => {
                    let out = new_extension::<H>(path.clone(), b);
                    assert forall|k: Seq<bool>| #[trigger]
                        out.lookup(k) == if k == rest {
                            Lookup::Absent
                        } else {
                            node.lookup(k)
                        } by {
                        lemma_split_key(path@, rest.skip(n as int), k);
                    }
                    Ok(Some(out))
                },
                None => {
                    assert forall|k: Seq<bool>| k != rest implies #[trigger] node.lookup(k)
                        == Lookup::Absent by {
                        lemma_split_key(path@, rest.skip(n as int), k);
                        if path@.is_prefix_of(k) {
                            assert(k.skip(n as int) != rest.skip(n as int));
                            assert(node.lookup(k) == child.lookup(k.skip(n as int)));
                        }
                    }
                    Ok(None)
                },
            }
        },
        Node::Value { value: held, next, .. } => {
            if pos == total {
                assert(rest =~= Seq::<bool>::empty());
                match next {
                    Some(c) => {
                        let out = share(c);
                        assert forall|k: Seq<bool>| #[trigger]
                            out.lookup(k) == if k == rest {
                                Lookup::Absent
                            } else {
                                node.lookup(k)
                            } by {
                            if k.len() == 0 {
                                assert(k =~= rest);
                                lemma_nothing_at_top::<H>(&**c);
                            }
                        }
                        Ok(Some(out))
                    },
                    None => {
                        assert forall|k: Seq<bool>| k != rest implies #[trigger] node.lookup(k)
                            == Lookup::Absent by {
                            if k.len() == 0 {
                                assert(k =~= rest);
                            }
                        }
                        Ok(None)
                    },
                }
            } else {
                match next {
                    Some(c) => {
                        let below = remove::<H>(c, key, pos)?;
                        let out = new_value::<H>(copy_bytes(held.as_slice()), below);
                        assert forall|k: Seq<bool>| #[trigger]
                            out.lookup(k) == if k == rest {
                                Lookup::Absent
                            } else {
                                node.lookup(k)
                            } by {
                            if k.len() == 0 {
                                assert(k != rest);
                            } else {
                                assert(node.lookup(k) == c.lookup(k));
                                match below {
                                    Some(b) => {
                                        assert(out.lookup(k) == b.lookup(k));
                                    },
                                    None => {
                                        assert(out.lookup(k) == Lookup::Absent);
                                    },
                                }
                            }
                        }
                        Ok(Some(out))
                    },
                    // Not reached: the key is present, so it goes on below.
                    None => Ok(None),
                }
            }
        },
        // Not reached: the key is present, so its way enters no sealed node.
        Node::Sealed { .. } => Ok(None),
    }
}

/// A tree from which a key cannot be taken does not vanish with that key.
pub proof fn lemma_blocked_stays(node: &Node, key: Seq<bool>)
    requires
        node.removal_blocked(key),
    ensures
        !node.vanishes(key),
    decreases node,
{
    match node {
        Node::Extension { path, child, .. } => {
            lemma_blocked_stays(&**child, key.skip(path@.len() as int));
        },
        _ => {},
    }
}

/// The empty key leads nowhere in a branch or an extension.
pub proof fn lemma_nothing_at_top<H: Hasher>(node: &Node)
    requires
        node.wf::<H>(),
        node.is_branch() || node.is_extension(),
    ensures
        node.lookup(Seq::<bool>::empty()) == Lookup::Absent,
{
    match node {
        Node::Extension { path, .. } => {
            assert(!path@.is_prefix_of(Seq::<bool>::empty()));
        },
        _ => {},
    }
}

/// The lookups of `after` are those of `before`, but that every key that
/// starts with `prefix` leads into a sealed subtree.
pub open spec fn differs_by_seal(before: Node, after: Node, prefix: Seq<bool>) -> bool {
    forall|k: Seq<bool>| #[trigger]
        after.lookup(k) == if prefix.is_prefix_of(k) {
            Lookup::Sealed
        } else {
            before.lookup(k)
        }
}

/// The tree below `node` with the subtree rooted at the bits of `key` from
/// `pos` on replaced by a sealed node of the same digest. No digest on the
/// way changes, so none is computed.
fn seal_at<H: Hasher>(node: &Rc<Node>, key: &Bits, pos: usize) -> (out: Result<Rc<Node>, Error>)
    requires
        node.wf::<H>(),
        pos <= key@.len(),
    ensures
        match node.rooted(key@.skip(pos as int)) {
            Rooted::Live => out matches Ok(n) && {
                &&& n.wf::<H>()
                &&& n.spec_digest() == node.spec_digest()
                &&& differs_by_seal(**node, *n, key@.skip(pos as int))
                &&& if pos == key@.len() {
                    n.is_sealed()
                } else {
                    n.same_kind(&**node)
                }
            },
            Rooted::Nothing => out == Err::<Rc<Node>, Error>(Error::NotFound),
            Rooted::Sealed => out == Err::<Rc<Node>, Error>(Error::AlreadySealed),
        },
    decreases **node,
{
    let ghost rest = key@.skip(pos as int);
    let total: usize = key.len();
    if node.sealed() {
        return Err(Error::AlreadySealed);
    }
    if pos == total {
        let out = Rc::new(Node::Sealed { digest: sealed_digest(&node.digest()) });
        assert(rest =~= Seq::<bool>::empty());
        assert forall|k: Seq<bool>| #[trigger] out.lookup(k) == Lookup::Sealed by {}
        assert forall|k: Seq<bool>| #[trigger] rest.is_prefix_of(k) by {
            assert(rest =~= k.subrange(0, 0));
        }
        return Ok(out);
    }
    match &**node {
        Node::Branch { left, right, digest } => {
            assert(rest.skip(1) =~= key@.skip(pos + 1));
            let bit = key.get(pos);
            let below = if bit {
                seal_at::<H>(right, key, pos + 1)?
            } else {
                seal_at::<H>(left, key, pos + 1)?
            };
            let out = if bit {
                Rc::new(Node::Branch { left: share(left), right: below, digest: *digest })
            } else {
                Rc::new(Node::Branch { left: below, right: share(right), digest: *digest })
            };
            assert forall|k: Seq<bool>| #[trigger]
                out.lookup(k) == if rest.is_prefix_of(k) {
                    Lookup::Sealed
                } else {
                    node.lookup(k)
                } by {
                lemma_prefix_concat(seq![bit], rest.skip(1), k);
                assert(seq![bit] + rest.skip(1) =~= rest);
                if k.len() == 0 {
                    assert(!rest.is_prefix_of(k));
                } else if k[0] == bit {
                    assert(seq![bit] =~= k.subrange(0, 1));
                    assert(out.lookup(k) == below.lookup(k.skip(1)));
                } else {
                    assert(!seq![bit].is_prefix_of(k)) by {
                        if seq![bit].is_prefix_of(k) {
                            assert(seq![bit][0] == k.subrange(0, 1)[0]);
                        }
                    }
                    assert(out.lookup(k) == node.lookup(k));
                }
            }
            Ok(out)
        },
        Node::Extension { path, child, digest } => {
            if !key.starts_with_at(pos, path) {
                return Err(Error::NotFound);
            }
            let n = path.len();
            assert(path@.len() <= rest.len());
            assert(rest.skip(n as int) =~= key@.skip(pos + n));
            let below = seal_at::<H>(child, key, pos + n)?;
            let out = Rc::new(Node::Extension { path: path.clone(), child: below, digest: *digest });
            assert(path@ + rest.skip(n as int) =~= rest);
            assert forall|k: Seq<bool>| #[trigger]
                out.lookup(k) == if rest.is_prefix_of(k) {
                    Lookup::Sealed
                } else {
                    node.lookup(k)
                } by {
                lemma_prefix_concat(path@, rest.skip(n as int), k);
                if path@.is_prefix_of(k) {
                    assert(out.lookup(k) == below.lookup(k.skip(n as int)));
                }
            }
            Ok(out)
        },
        Node::Value { value, data, next, digest } => {
            match next {
                Some(c) => {
                    let below = seal_at::<H>(c, key, pos)?;
                    let out = Rc::new(
                        Node::Value {
                            value: copy_bytes(value.as_slice()),
                            data: *data,
                            next: Some(below),
                            digest: *digest,
                        },
                    );
                    assert forall|k: Seq<bool>| #[trigger]
                        out.lookup(k) == if rest.is_prefix_of(k) {
                            Lookup::Sealed
                        } else {
                            node.lookup(k)
                        } by {
                        if k.len() == 0 {
                            assert(!rest.is_prefix_of(k));
                        } else {
                            assert(out.lookup(k) == below.lookup(k));
                        }
                    }
                    Ok(out)
                },
                None => Err(Error::NotFound),
            }
        },
        Node::Sealed { .. } => Err(Error::AlreadySealed),
    }
}

/// A trie from keys, which are sequences of bits, to values, which are byte
/// strings, with a digest that commits to all it holds. `H` is the hash
/// function that the digests are made with.
pub struct Trie<H: Hasher> {
    root: Option<Rc<Node>>,
    empty: Digest,
    max_key_bits: usize,
    max_value_bytes: usize,
    hasher: PhantomData<H>,
}

impl<H: Hasher> Trie<H> {
    /// Every digest in the trie is the hash of what its node holds, and the
    /// nodes are in the one shape admitted for what the trie holds.
    pub closed spec fn wf(&self) -> bool {
        &&& self.empty@ == spec_empty_digest::<H>()
        &&& match self.root {
            Some(n) => n.wf::<H>(),
            None => true,
        }
    }

    /// What `key` leads to.
    pub closed spec fn lookup(&self, key: Seq<bool>) -> Lookup {
        match self.root {
            Some(n) => n.lookup(key),
            None => Lookup::Absent,
        }
    }

    /// What is rooted at `path`.
    pub closed spec fn rooted(&self, path: Seq<bool>) -> Rooted {
        match self.root {
            Some(n) => n.rooted(path),
            None => Rooted::Nothing,
        }
    }

    /// True if `key` is present and cannot be taken out, because a sealed
    /// subtree would have to be read to close the trie up over the gap.
    pub closed spec fn removal_blocked(&self, key: Seq<bool>) -> bool {
        match self.root {
            Some(n) => n.removal_blocked(key),
            None => false,
        }
    }

    /// No part of the trie is sealed.
    pub closed spec fn unsealed(&self) -> bool {
        match self.root {
            Some(n) => n.unsealed(),
            None => true,
        }
    }

    /// The bytes of the digest of the whole trie.
    pub closed spec fn spec_root_digest(&self) -> Seq<u8> {
        match self.root {
            Some(n) => n.spec_digest()@,
            None => self.empty@,
        }
    }

    /// The most bits that a key to be stored may have.
    pub closed spec fn max_key_bits(&self) -> nat {
        self.max_key_bits as nat
    }

    /// The most bytes that a value to be stored may have.
    pub closed spec fn max_value_bytes(&self) -> nat {
        self.max_value_bytes as nat
    }

    /// What the trie holds: the present keys that can be read, each with its value.
    pub open spec fn view(&self) -> Map<Seq<bool>, Seq<u8>> {
        Map::new(|k: Seq<bool>| self.lookup(k) is Found, |k: Seq<bool>| self.lookup(k)->Found_0)
    }

    /// An empty trie that takes keys of up to `MAX_KEY_BYTES` bytes and values of any length.
    pub fn new() -> (out: Self)
        ensures
            out.wf(),
            out.unsealed(),
            forall|k: Seq<bool>| #[trigger] out.lookup(k) == Lookup::Absent,
            out.spec_root_digest() == spec_empty_digest::<H>(),
            out.max_key_bits() == MAX_KEY_BYTES * 8,
            out.max_value_bytes() == usize::MAX,
    {
        Trie {
            root: None,
            empty: empty_digest::<H>(),
            max_key_bits: MAX_KEY_BYTES * 8,
            max_value_bytes: usize::MAX,
            hasher: PhantomData,
        }
    }

    /// An empty trie that takes keys of up to `max_key_bits` bits and values
    /// of up to `max_value_bytes` bytes.
    pub fn with_limits(max_key_bits: usize, max_value_bytes: usize) -> (out: Self)
        ensures
            out.wf(),
            out.unsealed(),
            forall|k: Seq<bool>| #[trigger] out.lookup(k) == Lookup::Absent,
            out.spec_root_digest() == spec_empty_digest::<H>(),
            out.max_key_bits() == max_key_bits,
            out.max_value_bytes() == max_value_bytes,
    {
        Trie {
            root: None,
            empty: empty_digest::<H>(),
            max_key_bits,
            max_value_bytes,
            hasher: PhantomData,
        }
    }

    /// True if the trie holds nothing, not even a sealed subtree.
    pub fn is_empty(&self) -> (out: bool)
        requires
            self.wf(),
        ensures
            out ==> self.spec_root_digest() == spec_empty_digest::<H>(),
            out ==> forall|k: Seq<bool>| #[trigger] self.lookup(k) == Lookup::Absent,
            out == (self.rooted(Seq::<bool>::empty()) is Nothing),
    {
        self.root.is_none()
    }

    /// The topmost node, if the trie holds anything. What the trie says of
    /// keys and of its digest is what the tree below that node says.
    pub fn root(&self) -> (out: Option<&Node>)
        requires
            self.wf(),
        ensures
            match out {
                Some(n) => {
                    &&& n.wf::<H>()
                    &&& n.spec_digest()@ == self.spec_root_digest()
                    &&& n.unsealed() == self.unsealed()
                    &&& forall|k: Seq<bool>| #[trigger] self.lookup(k) == n.lookup(k)
                    &&& forall|k: Seq<bool>| #[trigger] self.rooted(k) == n.rooted(k)
                    &&& forall|k: Seq<bool>| #[trigger]
                        self.removal_blocked(k) == n.removal_blocked(k)
                },
                None => {
                    &&& self.spec_root_digest() == spec_empty_digest::<H>()
                    &&& self.unsealed()
                    &&& forall|k: Seq<bool>| #[trigger] self.lookup(k) == Lookup::Absent
                    &&& forall|k: Seq<bool>| #[trigger] self.rooted(k) is Nothing
                },
            },
    {
        match &self.root {
            Some(n) => Some(&**n),
            None => None,
        }
    }

    /// The trie as it is now, to read from while this one is updated. The
    /// two share their nodes: an update makes new ones and changes none.
    pub fn snapshot(&self) -> (out: Self)
        ensures
            out == *self,
    {
        Trie {
            root: share_opt(&self.root),
            empty: self.empty,
            max_key_bits: self.max_key_bits,
            max_value_bytes: self.max_value_bytes,
            hasher: PhantomData,
        }
    }

    /// The digest of the whole trie, which is kept at its top.
    pub fn root_digest(&self) -> (out: Digest)
        ensures
            out@ == self.spec_root_digest(),
    {
        match &self.root {
            Some(n) => n.digest(),
            None => self.empty,
        }
    }

    /// The value of `key`, `None` if the key is absent, or the error
    /// `SealedUnreadable` if the way to the key enters a sealed subtree.
    pub fn get(&self, key: &Bits) -> (out: Result<Option<Vec<u8>>, Error>)
        ensures
            answers(out, self.lookup(key@)),
    {
        match &self.root {
            Some(n) => {
                assert(key@.skip(0) =~= key@);
                find(n, key, 0)
            },
            None => Ok(None),
        }
    }

    /// Stores `value` under `key` and returns the value that `key` had.
    /// Nothing changes if the key or the value is too long, or if the way to
    /// the key enters a sealed subtree.
    pub fn set(&mut self, key: &Bits, value: &[u8]) -> (out: Result<Option<Vec<u8>>, Error>)
        requires
            old(self).wf(),
        ensures
            final(self).wf(),
            final(self).max_key_bits() == old(self).max_key_bits(),
            final(self).max_value_bytes() == old(self).max_value_bytes(),
            key@.len() > old(self).max_key_bits() ==> out == Err::<Option<Vec<u8>>, Error>(
                Error::KeyTooLong,
            ),
            key@.len() <= old(self).max_key_bits() && value@.len() > old(self).max_value_bytes()
                ==> out == Err::<Option<Vec<u8>>, Error>(Error::ValueTooLong),
            key@.len() <= old(self).max_key_bits() && value@.len() <= old(self).max_value_bytes()
                ==> answers(out, old(self).lookup(key@)),
            out is Err ==> *final(self) == *old(self),
            out is Ok ==> forall|k: Seq<bool>| #[trigger]
                final(self).lookup(k) == if k == key@ {
                    Lookup::Found(value@)
                } else {
                    old(self).lookup(k)
                },
            out is Ok ==> final(self)@ == old(self)@.insert(key@, value@),
            out is Ok && old(self).unsealed() ==> final(self).unsealed(),
    {
        if key.len() > self.max_key_bits {
            return Err(Error::KeyTooLong);
        }
        if value.len() > self.max_value_bytes {
            return Err(Error::ValueTooLong);
        }
        let before = self.get(key)?;
        assert(key@.skip(0) =~= key@);
        let root = match &self.root {
            Some(n) => insert::<H>(n, key, 0, value)?,
            None => leaf::<H>(key, 0, value),
        };
        self.root = Some(root);
        assert(self@ =~= old(self)@.insert(key@, value@));
        Ok(before)
    }

    /// Takes `key` out of the trie and returns the value it had; `None` if
    /// it was absent. Fails with `SealedUnreadable`, and changes nothing, if
    /// the way to the key enters a sealed subtree, or if the branch that the
    /// key hangs from is left with a sealed subtree alone.
    pub fn delete(&mut self, key: &Bits) -> (out: Result<Option<Vec<u8>>, Error>)
        requires
            old(self).wf(),
        ensures
            final(self).wf(),
            final(self).max_key_bits() == old(self).max_key_bits(),
            final(self).max_value_bytes() == old(self).max_value_bytes(),
            old(self).lookup(key@) is Found && old(self).removal_blocked(key@) ==> out == Err::<
                Option<Vec<u8>>,
                Error,
            >(Error::SealedUnreadable),
            !(old(self).lookup(key@) is Found && old(self).removal_blocked(key@)) ==> answers(
                out,
                old(self).lookup(key@),
            ),
            out is Err ==> *final(self) == *old(self),
            out is Ok ==> forall|k: Seq<bool>| #[trigger]
                final(self).lookup(k) == if k == key@ {
                    Lookup::Absent
                } else {
                    old(self).lookup(k)
                },
            out is Ok ==> final(self)@ == old(self)@.remove(key@),
            out is Ok && old(self).unsealed() ==> final(self).unsealed(),
    {
        let before = self.get(key)?;
        if before.is_none() {
            assert(self@ =~= old(self)@.remove(key@));
            return Ok(None);
        }
        assert(key@.skip(0) =~= key@);
        let root = match &self.root {
            Some(n) => remove::<H>(n, key, 0)?,
            None => None,
        };
        self.root = root;
        assert(self@ =~= old(self)@.remove(key@));
        Ok(before)
    }

    /// A proof of what `key` leads to: of its value if it is present, that
    /// it is absent if it is, and otherwise of the digest of the sealed
    /// subtree on its way, which shows neither.
    pub fn prove(&self, key: &Bits) -> (out: Proof)
        requires
            self.wf(),
        ensures
            accepts::<H>(self.spec_root_digest(), key@, out, self.lookup(key@)),
            tagged_for(out.terminal, self.lookup(key@)),
    {
        assert(key@.skip(0) =~= key@);
        match &self.root {
            Some(n) => prove_at::<H>(n, key, 0),
            None => prove_empty(),
        }
    }

    /// Seals the subtree rooted exactly at `path`: puts in its place a node
    /// that holds its digest and nothing else. The digest of the trie stays
    /// as it is. Fails with `NotFound` if nothing is rooted at `path`, and
    /// with `AlreadySealed` if the path ends at or goes on into a sealed
    /// subtree; nothing changes then.
    pub fn seal(&mut self, path: &Bits) -> (out: Result<(), Error>)
        requires
            old(self).wf(),
        ensures
            final(self).wf(),
            final(self).max_key_bits() == old(self).max_key_bits(),
            final(self).max_value_bytes() == old(self).max_value_bytes(),
            final(self).spec_root_digest() == old(self).spec_root_digest(),
            match old(self).rooted(path@) {
                Rooted::Live => out == Ok::<(), Error>(()),
                Rooted::Nothing => out == Err::<(), Error>(Error::NotFound),
                Rooted::Sealed => out == Err::<(), Error>(Error::AlreadySealed),
            },
            old(self).lookup(path@) is Found ==> out is Ok,
            out is Err ==> *final(self) == *old(self),
            out is Ok ==> forall|k: Seq<bool>| #[trigger]
                final(self).lookup(k) == if path@.is_prefix_of(k) {
                    Lookup::Sealed
                } else {
                    old(self).lookup(k)
                },
    {
        assert(path@.skip(0) =~= path@);
        proof {
            match &self.root {
                Some(n) => {
                    if n.lookup(path@) is Found {
                        lemma_present_is_rooted(&**n, path@);
                    }
                },
                None => {},
            }
        }
        let root = match &self.root {
            Some(n) => seal_at::<H>(n, path, 0)?,
            None => {
                return Err(Error::NotFound);
            },
        };
        self.root = Some(root);
        Ok(())
    }
}

/// A key that is present has its value node rooted at it.
pub proof fn lemma_present_is_rooted(node: &Node, key: Seq<bool>)
    requires
        node.lookup(key) is Found,
    ensures
        node.rooted(key) is Live,
    decreases node,
{
    match node {
        Node::Branch { left, right, .. } => {
            if key[0] {
                lemma_present_is_rooted(&**right, key.skip(1));
            } else {
                lemma_present_is_rooted(&**left, key.skip(1));
            }
        },
        Node::Extension { path, child, .. } => {
            if key.len() > 0 {
                lemma_present_is_rooted(&**child, key.skip(path@.len() as int));
            }
        },
        Node::Value { next, .. } => {
            if key.len() > 0 {
                match next {
                    Some(c) => {
                        lemma_present_is_rooted(&**c, key);
                    },
                    None => {},
                }
            }
        },
        Node::Sealed { .. } => {},
    }
}

/// Canonical form. Two tries with no sealed part that hold the same keys
/// with the same values have the same digest, whatever updates made them.
pub proof fn law_canonical<H: Hasher>(a: &Trie<H>, b: &Trie<H>)
    requires
        a.wf(),
        b.wf(),
        a.unsealed(),
        b.unsealed(),
        a@ == b@,
    ensures
        a.spec_root_digest() == b.spec_root_digest(),
{
    assert forall|k: Seq<bool>| a.lookup(k) == b.lookup(k) by {
        assert(a@.dom().contains(k) == (a.lookup(k) is Found));
        assert(b@.dom().contains(k) == (b.lookup(k) is Found));
        if a.lookup(k) is Found {
            assert(a@[k] == a.lookup(k)->Found_0);
            assert(b@[k] == b.lookup(k)->Found_0);
        }
        match &a.root {
            Some(n) => {
                lemma_never_sealed(&**n, k);
            },
            None => {},
        }
        match &b.root {
            Some(n) => {
                lemma_never_sealed(&**n, k);
            },
            None => {},
        }
    }
    match (&a.root, &b.root) {
        (Some(x), Some(y)) => {
            assert forall|k: Seq<bool>| #![trigger x.lookup(k)] #![trigger y.lookup(k)]
                x.lookup(k) == y.lookup(k) by {
                assert(a.lookup(k) == b.lookup(k));
            }
            lemma_canonical::<H>(&**x, &**y);
        },
        (Some(x), None) => {
            lemma_first_key::<H>(&**x);
            assert(a.lookup(first_key(&**x)) == b.lookup(first_key(&**x)));
        },
        (None, Some(y)) => {
            lemma_first_key::<H>(&**y);
            assert(a.lookup(first_key(&**y)) == b.lookup(first_key(&**y)));
        },
        (None, None) => {},
    }
}

/// Taking a key out and putting it back with the value it had gives the
/// digest that the trie had before, in a trie with no sealed part.
pub proof fn law_reinsert_restores<H: Hasher>(
    before: &Trie<H>,
    without: &Trie<H>,
    after: &Trie<H>,
    key: Seq<bool>,
    value: Seq<u8>,
)
    requires
        before.wf(),
        after.wf(),
        before.unsealed(),
        after.unsealed(),
        before.lookup(key) == Lookup::Found(value),
        forall|k: Seq<bool>| #[trigger]
            without.lookup(k) == if k == key {
                Lookup::Absent
            } else {
                before.lookup(k)
            },
        forall|k: Seq<bool>| #[trigger]
            after.lookup(k) == if k == key {
                Lookup::Found(value)
            } else {
                without.lookup(k)
            },
    ensures
        after.spec_root_digest() == before.spec_root_digest(),
{
    assert forall|k: Seq<bool>| after.lookup(k) == before.lookup(k) by {
        assert(without.lookup(k) == if k == key {
            Lookup::Absent
        } else {
            before.lookup(k)
        });
    }
    assert(after@ =~= before@);
    law_canonical::<H>(after, before);
}

/// Soundness. If a proof is accepted, against the digest of a trie, for the
/// claim that `key` has a value or that it is absent, then the trie holds
/// what is claimed, unless the way of the key enters a sealed subtree of the
/// trie, of which the trie knows the digest alone; or else two byte strings
/// have the same digest.
pub proof fn law_proof_sound<H: Hasher>(
    trie: &Trie<H>,
    key: Seq<bool>,
    proof: &Proof,
    claim: Lookup,
)
    requires
        trie.wf(),
        !(claim is Sealed),
        accepts::<H>(trie.spec_root_digest(), key, *proof, claim),
    ensures
        has_collision::<H>() || trie.lookup(key) is Sealed || trie.lookup(key) == claim,
{
    if !has_collision::<H>() {
        match &trie.root {
            Some(n) => {
                lemma_sound::<H>(&**n, proof.steps@, &proof.terminal, key, claim);
            },
            None => {
                lemma_sound_empty::<H>(proof.steps@, &proof.terminal, key, claim);
            },
        }
    }
}

/// A proof that the trie made for `key` is accepted for a claim just if the
/// claim is what the trie holds for `key`; or else two byte strings have the
/// same digest. A proof made where the way of the key enters a sealed
/// subtree is accepted for no claim of a value or of absence.
pub proof fn law_verify_iff_get<H: Hasher>(
    trie: &Trie<H>,
    key: Seq<bool>,
    proof: &Proof,
    claim: Lookup,
)
    requires
        trie.wf(),
        !(claim is Sealed),
        accepts::<H>(trie.spec_root_digest(), key, *proof, trie.lookup(key)),
        tagged_for(proof.terminal, trie.lookup(key)),
    ensures
        has_collision::<H>() || (accepts::<H>(trie.spec_root_digest(), key, *proof, claim)
            <==> trie.lookup(key) == claim),
{
    if accepts::<H>(trie.spec_root_digest(), key, *proof, claim) {
        law_proof_sound::<H>(trie, key, proof, claim);
        lemma_terminal_fits::<H>(proof.steps@, &proof.terminal, key, claim);
    }
}

/// Tamper detection. Of two proofs that differ in the digest of one sibling
/// and in nothing else, at most one is accepted against a given digest; or
/// else two byte strings have the same digest.
pub proof fn law_tamper_detected<H: Hasher>(
    root: Seq<u8>,
    key: Seq<bool>,
    proof: &Proof,
    tampered: &Proof,
    at: int,
    claim: Lookup,
)
    requires
        tampered_at(proof.steps@, tampered.steps@, at),
        proof.terminal == tampered.terminal,
        accepts::<H>(root, key, *proof, claim),
    ensures
        has_collision::<H>() || !accepts::<H>(root, key, *tampered, claim),
{
    if !has_collision::<H>() && accepts::<H>(root, key, *tampered, claim) {
        lemma_tamper::<H>(proof.steps@, tampered.steps@, at, &proof.terminal, key, claim);
    }
}

} // verus!
