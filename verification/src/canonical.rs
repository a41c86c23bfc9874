//! The shape of a tree, and with it its digest, follows from what the tree
//! holds: two trees with the same keys and values are the same tree.

use vstd::prelude::*;
use crate::hash::Hasher;
use crate::nodes::Node;
use crate::trie::lemma_nothing_at_top;

verus! {

/// Every key leads to the same in both trees.
pub open spec fn same_lookups(a: &Node, b: &Node) -> bool {
    forall|k: Seq<bool>| #![trigger a.lookup(k)] #![trigger b.lookup(k)] a.lookup(k) == b.lookup(k)
}

/// A key that is present in the tree, if the tree has no sealed part: the
/// one reached by taking the left subtree at every branch.
pub open spec fn first_key(node: &Node) -> Seq<bool>
    decreases node,
{
    match *node {
        Node::Branch { left, .. } => seq![false] + first_key(&*left),
        Node::Extension { path, child, .. } => path@ + first_key(&*child),
        _ => Seq::<bool>::empty(),
    }
}

/// In a tree with no sealed part no key leads into one.
pub proof fn lemma_never_sealed(node: &Node, key: Seq<bool>)
    requires
        node.unsealed(),
    ensures
        !(node.lookup(key) is Sealed),
    decreases node,
{
    match node {
        Node::Branch { left, right, .. } => {
            if key.len() > 0 {
                lemma_never_sealed(&**left, key.skip(1));
                lemma_never_sealed(&**right, key.skip(1));
            }
        },
        Node::Extension { path, child, .. } => {
            lemma_never_sealed(&**child, key.skip(path@.len() as int));
        },
        Node::Value { next, .. } => {
            match next {
                Some(c) => {
                    lemma_never_sealed(&**c, key);
                },
                None => {},
            }
        },
        Node::Sealed { .. } => {},
    }
}

/// What `key` leads to below a branch is what the rest of it leads to in
/// the subtree that its first bit picks.
pub proof fn lemma_lookup_side(node: &Node, bit: bool, key: Seq<bool>)
    requires
        node.is_branch(),
    ensures
        node.lookup(seq![bit] + key) == if bit {
            node->right.lookup(key)
        } else {
            node->left.lookup(key)
        },
{
    let whole = seq![bit] + key;
    assert(whole.skip(1) =~= key);
    assert(whole[0] == bit);
}

/// What `path + key` leads to below an extension by `path` is what `key`
/// leads to below its child.
pub proof fn lemma_lookup_run(node: &Node, key: Seq<bool>)
    requires
        node.is_extension(),
    ensures
        node.lookup(node->path@ + key) == node->child.lookup(key),
{
    let path = node->path@;
    let whole = path + key;
    assert(whole.skip(path.len() as int) =~= key);
    assert(path =~= whole.subrange(0, path.len() as int));
}

/// A tree with no sealed part holds its first key, which has at least one
/// bit if the tree begins with a branch or an extension.
pub proof fn lemma_first_key<H: Hasher>(node: &Node)
    requires
        node.wf::<H>(),
        node.unsealed(),
    ensures
        node.lookup(first_key(node)) is Found,
        node.is_branch() || node.is_extension() ==> first_key(node).len() > 0,
        node.is_branch() ==> first_key(node)[0] == false,
    decreases node,
{
    match node {
        Node::Branch { left, .. } => {
            lemma_first_key::<H>(&**left);
            lemma_lookup_side(node, false, first_key(&**left));
        },
        Node::Extension { child, .. } => {
            lemma_first_key::<H>(&**child);
            lemma_lookup_run(node, first_key(&**child));
        },
        _ => {},
    }
}

/// A key that starts with `path` has the first bit of `path`.
proof fn lemma_first_bit(path: Seq<bool>, key: Seq<bool>)
    requires
        path.len() > 0,
        path.is_prefix_of(key),
    ensures
        key.len() > 0,
        key[0] == path[0],
{
    assert(path[0] == key.subrange(0, path.len() as int)[0]);
}

/// A branch and an extension do not hold the same keys: below a branch keys
/// begin with either bit, below an extension with one.
proof fn lemma_branch_is_no_extension<H: Hasher>(a: &Node, b: &Node)
    requires
        a.wf::<H>(),
        b.wf::<H>(),
        a.unsealed(),
        b.unsealed(),
        a.is_branch(),
        b.is_extension(),
    ensures
        !same_lookups(a, b),
{
    if !same_lookups(a, b) {
        return ;
    }
    let left = first_key(&*a->left);
    let right = first_key(&*a->right);
    lemma_first_key::<H>(&*a->left);
    lemma_first_key::<H>(&*a->right);
    lemma_lookup_side(a, false, left);
    lemma_lookup_side(a, true, right);
    let k0 = seq![false] + left;
    let k1 = seq![true] + right;
    assert(b.lookup(k0) is Found);
    assert(b.lookup(k1) is Found);
    lemma_first_bit(b->path@, k0);
    lemma_first_bit(b->path@, k1);
}

/// Trees that hold the same begin with the same kind of node.
proof fn lemma_same_kind<H: Hasher>(a: &Node, b: &Node)
    requires
        a.wf::<H>(),
        b.wf::<H>(),
        a.unsealed(),
        b.unsealed(),
        same_lookups(a, b),
    ensures
        a.same_kind(b),
{
    let top = Seq::<bool>::empty();
    assert(a.lookup(top) == b.lookup(top));
    if a.is_extension() {
        assert(!a->path@.is_prefix_of(top));
    }
    if b.is_extension() {
        assert(!b->path@.is_prefix_of(top));
    }
    if a.is_branch() && b.is_extension() {
        lemma_branch_is_no_extension::<H>(a, b);
    }
    if b.is_branch() && a.is_extension() {
        lemma_branch_is_no_extension::<H>(b, a);
    }
}

/// Of two extensions that hold the same keys, the first has no shorter run
/// of bits than the second.
proof fn lemma_run_not_shorter<H: Hasher>(a: &Node, b: &Node)
    requires
        a.wf::<H>(),
        b.wf::<H>(),
        a.unsealed(),
        b.unsealed(),
        same_lookups(a, b),
        a.is_extension(),
        b.is_extension(),
    ensures
        a->path@.len() >= b->path@.len(),
{
    let p = a->path@;
    let q = b->path@;
    let c = &*a->child;
    assert(c.wf::<H>() && c.unsealed() && !c.is_extension() && !c.is_sealed()) by {
        match a {
            Node::Extension { child, .. } => {
                assert(child.wf::<H>());
                assert(child.unsealed());
            },
            _ => {},
        }
    }
    if p.len() < q.len() {
        if c.is_value() {
            let none = Seq::<bool>::empty();
            lemma_lookup_run(a, none);
            assert(p + none =~= p);
            assert(b.lookup(p) is Found);
        } else {
            assert(c.is_branch());
            let left = first_key(&*c->left);
            let right = first_key(&*c->right);
            assert(c->left.wf::<H>() && c->right.wf::<H>() && c->left.unsealed()
                && c->right.unsealed()) by {
                match c {
                    Node::Branch { left, right, .. } => {
                        assert(left.wf::<H>() && right.wf::<H>());
                        assert(left.unsealed() && right.unsealed());
                    },
                    _ => {},
                }
            }
            lemma_first_key::<H>(&*c->left);
            lemma_first_key::<H>(&*c->right);
            lemma_lookup_side(c, false, left);
            lemma_lookup_side(c, true, right);
            let k0 = seq![false] + left;
            let k1 = seq![true] + right;
            lemma_lookup_run(a, k0);
            lemma_lookup_run(a, k1);
            assert(b.lookup(p + k0) is Found);
            assert(b.lookup(p + k1) is Found);
            let at = p.len() as int;
            assert(q[at] == (p + k0).subrange(0, q.len() as int)[at]);
            assert(q[at] == (p + k1).subrange(0, q.len() as int)[at]);
            assert((p + k0)[at] == k0[0]);
            assert((p + k1)[at] == k1[0]);
        }
    }
}

/// Canonical form. Two well-formed trees with no sealed part in which every
/// key leads to the same have the same digest.
pub proof fn lemma_canonical<H: Hasher>(a: &Node, b: &Node)
    requires
        a.wf::<H>(),
        b.wf::<H>(),
        a.unsealed(),
        b.unsealed(),
        same_lookups(a, b),
    ensures
        a.spec_digest()@ == b.spec_digest()@,
    decreases a,
{
    lemma_same_kind::<H>(a, b);
    match a {
        Node::Branch { left: la, right: ra, .. } => {
            match b {
                Node::Branch { left: lb, right: rb, .. } => {
                    assert forall|k: Seq<bool>| #![trigger la.lookup(k)] #![trigger lb.lookup(k)]
                        la.lookup(k) == lb.lookup(k) by {
                        lemma_lookup_side(a, false, k);
                        lemma_lookup_side(b, false, k);
                    }
                    assert forall|k: Seq<bool>| #![trigger ra.lookup(k)] #![trigger rb.lookup(k)]
                        ra.lookup(k) == rb.lookup(k) by {
                        lemma_lookup_side(a, true, k);
                        lemma_lookup_side(b, true, k);
                    }
                    lemma_canonical::<H>(&**la, &**lb);
                    lemma_canonical::<H>(&**ra, &**rb);
                },
                _ => {},
            }
        },
        Node::Extension { path: p, child: c, .. } => {
            match b {
                Node::Extension { path: q, child: d, .. } => {
                    lemma_run_not_shorter::<H>(a, b);
                    lemma_run_not_shorter::<H>(b, a);
                    let w = first_key(&**c);
                    lemma_first_key::<H>(&**c);
                    lemma_lookup_run(a, w);
                    assert(b.lookup(p@ + w) is Found);
                    assert(p@ =~= (p@ + w).subrange(0, p@.len() as int));
                    assert(p@ == q@);
                    assert forall|k: Seq<bool>| #![trigger c.lookup(k)] #![trigger d.lookup(k)]
                        c.lookup(k) == d.lookup(k) by {
                        lemma_lookup_run(a, k);
                        lemma_lookup_run(b, k);
                    }
                    lemma_canonical::<H>(&**c, &**d);
                },
                _ => {},
            }
        },
        Node::Value { value: va, next: na, .. } => {
            match b {
                Node::Value { value: vb, next: nb, .. } => {
                    let top = Seq::<bool>::empty();
                    assert(a.lookup(top) == b.lookup(top));
                    assert(va@ == vb@);
                    match na {
                        Some(ca) => {
                            let w = first_key(&**ca);
                            lemma_first_key::<H>(&**ca);
                            assert(a.lookup(w) == ca.lookup(w));
                            assert(b.lookup(w) is Found);
                        },
                        None => {},
                    }
                    match nb {
                        Some(cb) => {
                            let w = first_key(&**cb);
                            lemma_first_key::<H>(&**cb);
                            assert(b.lookup(w) == cb.lookup(w));
                            assert(a.lookup(w) is Found);
                        },
                        None => {},
                    }
                    match (na, nb) {
                        (Some(ca), Some(cb)) => {
                            assert forall|k: Seq<bool>|
                                #![trigger ca.lookup(k)]
                                #![trigger cb.lookup(k)]
                                ca.lookup(k) == cb.lookup(k) by {
                                if k.len() == 0 {
                                    assert(k =~= top);
                                    lemma_nothing_at_top::<H>(&**ca);
                                    lemma_nothing_at_top::<H>(&**cb);
                                } else {
                                    assert(a.lookup(k) == ca.lookup(k));
                                    assert(b.lookup(k) == cb.lookup(k));
                                }
                            }
                            lemma_canonical::<H>(&**ca, &**cb);
                        },
                        _ => {},
                    }
                },
                _ => {},
            }
        },
        Node::Sealed { .. } => {},
    }
}

} // verus!
