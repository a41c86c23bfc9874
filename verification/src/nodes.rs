//! The nodes of the trie, what a tree of them holds, and how they are built.

use std::rc::Rc;
use vstd::prelude::*;
use crate::bits::Bits;
use crate::hash::{
    branch_digest, branch_preimage, data_digest, leaf_digest, leaf_preimage, spec_branch_digest,
    spec_data_digest, spec_leaf_digest, spec_value_digest, value_digest, value_preimage, Digest,
    Hasher, TAG_BRANCH, TAG_LEAF, TAG_VALUE,
};

verus! {

/// A node of the trie. A node is never changed once it is made: an update
/// makes new nodes along one path and shares the rest.
#[derive(Debug)]
pub enum Node {
    /// Two subtrees; the next bit of a key picks the right one if it is set
    /// and the left one if it is not.
    Branch { left: Rc<Node>, right: Rc<Node>, digest: Digest },
    /// A run of bits that all keys below share, and the node it leads to.
    /// Where that node is a value, this is the leaf of a single key.
    Extension { path: Bits, child: Rc<Node>, digest: Digest },
    /// The value of the key that ends here and, if longer keys go on from
    /// here, the subtree that holds them.
    Value { value: Vec<u8>, data: Digest, next: Option<Rc<Node>>, digest: Digest },
    /// What is left of a subtree that was sealed: its digest.
    Sealed { digest: Digest },
}

/// What stands at a path in a tree.
pub enum Rooted {
    /// A node that is not sealed is rooted exactly there.
    Live,
    /// No node is rooted there.
    Nothing,
    /// The path ends at a sealed node, or goes on into one.
    Sealed,
}

/// What a key leads to.
pub enum Lookup {
    /// The key is present with these bytes as its value.
    Found(Seq<u8>),
    /// The key is not present.
    Absent,
    /// The way to the key enters a sealed subtree.
    Sealed,
}

impl Node {
    /// The digest held by the node.
    pub open spec fn spec_digest(&self) -> Digest {
        match *self {
            Node::Branch { digest, .. } => digest,
            Node::Extension { digest, .. } => digest,
            Node::Value { digest, .. } => digest,
            Node::Sealed { digest } => digest,
        }
    }

    /// The bytes that the digest of a node that is not sealed is the hash of.
    pub open spec fn preimage(&self) -> Seq<u8> {
        match *self {
            Node::Branch { left, right, .. } => branch_preimage(
                left.spec_digest()@,
                right.spec_digest()@,
            ),
            Node::Extension { path, child, .. } => leaf_preimage(path@, child.spec_digest()@),
            Node::Value { data, next, .. } => value_preimage(
                data@,
                match next {
                    Some(c) => Some(c.spec_digest()@),
                    None => None,
                },
            ),
            Node::Sealed { .. } => Seq::<u8>::empty(),
        }
    }

    /// True for an extension.
    pub open spec fn is_extension(&self) -> bool {
        *self matches Node::Extension { .. }
    }

    /// True for a branch.
    pub open spec fn is_branch(&self) -> bool {
        *self matches Node::Branch { .. }
    }

    /// True for a value node.
    pub open spec fn is_value(&self) -> bool {
        *self matches Node::Value { .. }
    }

    /// True for a sealed node.
    pub open spec fn is_sealed(&self) -> bool {
        *self matches Node::Sealed { .. }
    }

    /// The tree is in its one admitted shape and every digest in it is the
    /// hash of what its node holds. An extension holds at least one bit and
    /// never leads to another extension; below a value stands a branch or an
    /// extension.
    pub open spec fn wf<H: Hasher>(&self) -> bool
        decreases self,
    {
        match *self {
            Node::Branch { left, right, digest } => {
                &&& left.wf::<H>()
                &&& right.wf::<H>()
                &&& digest@ == spec_branch_digest::<H>(left.spec_digest()@, right.spec_digest()@)
            },
            Node::Extension { path, child, digest } => {
                &&& path@.len() > 0
                &&& !child.is_extension()
                &&& child.wf::<H>()
                &&& digest@ == spec_leaf_digest::<H>(path@, child.spec_digest()@)
            },
            Node::Value { value, data, next, digest } => {
                &&& data@ == spec_data_digest::<H>(value@)
                &&& match next {
                    Some(c) => {
                        &&& (c.is_branch() || c.is_extension())
                        &&& c.wf::<H>()
                        &&& digest@ == spec_value_digest::<H>(data@, Some(c.spec_digest()@))
                    },
                    None => digest@ == spec_value_digest::<H>(data@, None),
                }
            },
            Node::Sealed { .. } => true,
        }
    }

    /// What `key` leads to in the tree below this node.
    pub open spec fn lookup(&self, key: Seq<bool>) -> Lookup
        decreases self,
    {
        match *self {
            Node::Branch { left, right, .. } => {
                if key.len() == 0 {
                    Lookup::Absent
                } else if key[0] {
                    right.lookup(key.skip(1))
                } else {
                    left.lookup(key.skip(1))
                }
            },
            Node::Extension { path, child, .. } => {
                if path@.is_prefix_of(key) {
                    child.lookup(key.skip(path@.len() as int))
                } else {
                    Lookup::Absent
                }
            },
            Node::Value { value, next, .. } => {
                if key.len() == 0 {
                    Lookup::Found(value@)
                } else {
                    match next {
                        Some(c) => c.lookup(key),
                        None => Lookup::Absent,
                    }
                }
            },
            Node::Sealed { .. } => Lookup::Sealed,
        }
    }

    /// No part of the tree is sealed.
    pub open spec fn unsealed(&self) -> bool
        decreases self,
    {
        match *self {
            Node::Branch { left, right, .. } => left.unsealed() && right.unsealed(),
            Node::Extension { child, .. } => child.unsealed(),
            Node::Value { next, .. } => match next {
                Some(c) => c.unsealed(),
                None => true,
            },
            Node::Sealed { .. } => false,
        }
    }

    /// Nothing is left of the tree once `key` is taken out of it.
    pub open spec fn vanishes(&self, key: Seq<bool>) -> bool
        decreases self,
    {
        match *self {
            Node::Extension { path, child, .. } => path@.is_prefix_of(key) && child.vanishes(
                key.skip(path@.len() as int),
            ),
            Node::Value { next, .. } => key.len() == 0 && next is None,
            _ => false,
        }
    }

    /// To take `key` out of the tree, a branch on the way would have to give
    /// way to its other subtree, and that subtree is sealed: its shape is not
    /// known, so the tree cannot be closed up over it.
    pub open spec fn removal_blocked(&self, key: Seq<bool>) -> bool
        decreases self,
    {
        match *self {
            Node::Branch { left, right, .. } => {
                if key.len() == 0 {
                    false
                } else if key[0] {
                    if right.vanishes(key.skip(1)) {
                        left.is_sealed()
                    } else {
                        right.removal_blocked(key.skip(1))
                    }
                } else {
                    if left.vanishes(key.skip(1)) {
                        right.is_sealed()
                    } else {
                        left.removal_blocked(key.skip(1))
                    }
                }
            },
            Node::Extension { path, child, .. } => path@.is_prefix_of(key)
                && child.removal_blocked(key.skip(path@.len() as int)),
            Node::Value { next, .. } => key.len() > 0 && match next {
                Some(c) => c.removal_blocked(key),
                None => false,
            },
            Node::Sealed { .. } => false,
        }
    }

    /// What is rooted at `path` in the tree below this node. Where a value
    /// node and the subtree of the longer keys stand at one path, the value
    /// node is the one rooted there.
    pub open spec fn rooted(&self, path: Seq<bool>) -> Rooted
        decreases self,
    {
        match *self {
            Node::Sealed { .. } => Rooted::Sealed,
            Node::Branch { left, right, .. } => {
                if path.len() == 0 {
                    Rooted::Live
                } else if path[0] {
                    right.rooted(path.skip(1))
                } else {
                    left.rooted(path.skip(1))
                }
            },
            Node::Extension { path: run, child, .. } => {
                if path.len() == 0 {
                    Rooted::Live
                } else if run@.is_prefix_of(path) {
                    child.rooted(path.skip(run@.len() as int))
                } else {
                    Rooted::Nothing
                }
            },
            Node::Value { next, .. } => {
                if path.len() == 0 {
                    Rooted::Live
                } else {
                    match next {
                        Some(c) => c.rooted(path),
                        None => Rooted::Nothing,
                    }
                }
            },
        }
    }

    /// The two nodes are of the same kind.
    pub open spec fn same_kind(&self, other: &Node) -> bool {
        &&& self.is_branch() == other.is_branch()
        &&& self.is_extension() == other.is_extension()
        &&& self.is_value() == other.is_value()
        &&& self.is_sealed() == other.is_sealed()
    }

    /// True if the node is a sealed one.
    pub fn sealed(&self) -> (out: bool)
        ensures
            out == self.is_sealed(),
    {
        match self {
            Node::Sealed { .. } => true,
            _ => false,
        }
    }

    /// The digest of the subtree below this node.
    pub fn digest(&self) -> (out: Digest)
        ensures
            out == self.spec_digest(),
    {
        match self {
            Node::Branch { digest, .. } => *digest,
            Node::Extension { digest, .. } => *digest,
            Node::Value { digest, .. } => *digest,
            Node::Sealed { digest } => *digest,
        }
    }
}

/// Calls `Rc::clone`, which returns another pointer to the same node: the
/// result holds what the argument holds.
#[verifier::external_body]
pub(crate) fn share(node: &Rc<Node>) -> (out: Rc<Node>)
    ensures
        out == *node,
{
    Rc::clone(node)
}

/// A branch over the two subtrees.
pub fn new_branch<H: Hasher>(left: Rc<Node>, right: Rc<Node>) -> (out: Rc<Node>)
    requires
        left.wf::<H>(),
        right.wf::<H>(),
    ensures
        out.wf::<H>(),
        out.is_branch(),
        out->left == left,
        out->right == right,
{
    let digest = branch_digest::<H>(&left.digest(), &right.digest());
    Rc::new(Node::Branch { left, right, digest })
}

/// A value node for `value`, over the subtree of the longer keys if there is one.
pub fn new_value<H: Hasher>(value: Vec<u8>, next: Option<Rc<Node>>) -> (out: Rc<Node>)
    requires
        next matches Some(c) ==> c.wf::<H>() && (c.is_branch() || c.is_extension()),
    ensures
        out.wf::<H>(),
        out.is_value(),
        out->value == value,
        out->next == next,
{
    let data = data_digest::<H>(value.as_slice());
    let digest = match &next {
        Some(c) => {
            let below = c.digest();
            value_digest::<H>(&data, Some(&below))
        },
        None => value_digest::<H>(&data, None),
    };
    Rc::new(Node::Value { value, data, next, digest })
}

/// What `key` leads to through a run of bits `path` in front of `child`.
pub open spec fn lookup_through(path: Seq<bool>, child: Node, key: Seq<bool>) -> Lookup {
    if path.is_prefix_of(key) {
        child.lookup(key.skip(path.len() as int))
    } else {
        Lookup::Absent
    }
}

/// A key starts with `p + q` just if it starts with `p` and goes on with `q`.
pub proof fn lemma_prefix_concat(p: Seq<bool>, q: Seq<bool>, key: Seq<bool>)
    ensures
        (p + q).is_prefix_of(key) <==> p.is_prefix_of(key) && q.is_prefix_of(
            key.skip(p.len() as int),
        ),
        (p + q).is_prefix_of(key) ==> key.skip(p.len() as int).skip(q.len() as int) == key.skip(
            (p + q).len() as int,
        ),
{
    let pq = p + q;
    if p.is_prefix_of(key) && q.is_prefix_of(key.skip(p.len() as int)) {
        let rest = key.skip(p.len() as int);
        assert(pq.len() <= key.len());
        assert forall|i: int| 0 <= i < pq.len() implies pq[i] == key[i] by {
            if i < p.len() {
                assert(p[i] == key.subrange(0, p.len() as int)[i]);
            } else {
                assert(q[i - p.len()] == rest.subrange(0, q.len() as int)[i - p.len()]);
            }
        }
        assert(pq =~= key.subrange(0, pq.len() as int));
    }
    if pq.is_prefix_of(key) {
        assert forall|i: int| 0 <= i < p.len() implies p[i] == key[i] by {
            assert(pq[i] == key.subrange(0, pq.len() as int)[i]);
        }
        assert(p =~= key.subrange(0, p.len() as int));
        let rest = key.skip(p.len() as int);
        assert forall|i: int| 0 <= i < q.len() implies q[i] == rest[i] by {
            assert(pq[i + p.len()] == key.subrange(0, pq.len() as int)[i + p.len()]);
        }
        assert(q =~= rest.subrange(0, q.len() as int));
    }
    if pq.is_prefix_of(key) {
        assert(key.skip(p.len() as int).skip(q.len() as int) =~= key.skip(pq.len() as int));
    }
}

/// The node that stands for `child` behind the run of bits `path`, in the
/// admitted shape: with no bit it is `child` itself, and in front of an
/// extension the two runs become one.
pub fn new_extension<H: Hasher>(path: Bits, child: Rc<Node>) -> (out: Rc<Node>)
    requires
        child.wf::<H>(),
    ensures
        out.wf::<H>(),
        forall|key: Seq<bool>| #[trigger] out.lookup(key) == lookup_through(path@, *child, key),
        path@.len() == 0 ==> out == child,
        path@.len() > 0 ==> out.is_extension(),
        path@.len() > 0 && child.is_extension() ==> out->path@ == path@ + child->path@
            && out->child == child->child,
        path@.len() > 0 && !child.is_extension() ==> out->path@ == path@ && out->child == child,
        out.unsealed() == child.unsealed(),
{
    if path.is_empty() {
        assert forall|key: Seq<bool>| #[trigger]
            child.lookup(key) == lookup_through(path@, *child, key) by {
            assert(path@.is_prefix_of(key));
            assert(key.skip(0) =~= key);
        }
        return child;
    }
    match &*child {
        Node::Extension { path: more, child: below, .. } => {
            let whole = path.concat(more);
            let digest = leaf_digest::<H>(&whole, &below.digest());
            let out = Rc::new(Node::Extension { path: whole, child: share(below), digest });
            assert forall|key: Seq<bool>| #[trigger]
                out.lookup(key) == lookup_through(path@, *child, key) by {
                lemma_prefix_concat(path@, more@, key);
            }
            out
        },
        _ => {
            let digest = leaf_digest::<H>(&path, &child.digest());
            Rc::new(Node::Extension { path, child, digest })
        },
    }
}

/// The digest of a node that is not sealed is the hash of its preimage.
pub proof fn lemma_digest_of_preimage<H: Hasher>(node: &Node)
    requires
        node.wf::<H>(),
        !node.is_sealed(),
    ensures
        node.spec_digest()@ == H::spec_hash(node.preimage()),
        node.preimage().len() > 0,
        node.is_branch() <==> node.preimage()[0] == TAG_BRANCH,
        node.is_extension() <==> node.preimage()[0] == TAG_LEAF,
        node.is_value() <==> node.preimage()[0] == TAG_VALUE,
{
}

} // verus!
