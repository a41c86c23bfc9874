//! Digests, and the rules by which the digest of a node is made from its parts.

use vstd::prelude::*;
use crate::bits::{lemma_path_bytes_injective, path_bytes, Bits};

verus! {

/// The number of bytes in a digest.
pub const DIGEST_LEN: usize = 32;

/// First byte of what is hashed for the bytes of a stored value.
pub const TAG_DATA: u8 = 0;

/// First byte of what is hashed for a branch.
pub const TAG_BRANCH: u8 = 1;

/// First byte of what is hashed for a leaf, or extension.
pub const TAG_LEAF: u8 = 2;

/// First byte of what is hashed for a value node.
pub const TAG_VALUE: u8 = 3;

/// The one byte that is hashed for a trie that holds nothing.
pub const TAG_EMPTY: u8 = 4;

/// A commitment to a subtree: the hash of what the subtree's top node holds.
#[derive(Clone, Copy, Debug, PartialEq, Eq, Hash)]
pub struct Digest {
    pub bytes: [u8; 32],
}

impl View for Digest {
    type V = Seq<u8>;

    open spec fn view(&self) -> Seq<u8> {
        self.bytes@
    }
}

/// Digests with the same bytes are the same digest.
pub proof fn lemma_digest_ext(a: Digest, b: Digest)
    requires
        a@ == b@,
    ensures
        a == b,
{
    assert(a.bytes =~= b.bytes);
}

impl Digest {
    /// The digest made of the given bytes.
    pub fn new(bytes: [u8; 32]) -> (out: Digest)
        ensures
            out@ == bytes@,
    {
        Digest { bytes }
    }

    /// The bytes of the digest.
    pub fn as_bytes(&self) -> (out: &[u8])
        ensures
            out@ == self@,
    {
        self.bytes.as_slice()
    }

    /// True if the two digests hold the same bytes.
    pub fn same(&self, other: &Digest) -> (out: bool)
        ensures
            out == (self@ == other@),
            out == (*self == *other),
    {
        let mut i: usize = 0;
        while i < 32
            invariant
                i <= 32,
                forall|k: int| 0 <= k < i ==> self.bytes@[k] == other.bytes@[k],
            decreases 32 - i,
        {
            if self.bytes[i] != other.bytes[i] {
                return false;
            }
            i = i + 1;
        }
        assert(self@ =~= other@);
        proof {
            lemma_digest_ext(*self, *other);
        }
        true
    }
}

/// A hash function from byte strings to digests, which the user of the trie
/// chooses. The trie asks nothing of it but to be a function; how hard it is
/// to find two inputs with one digest is what the trie's commitments rest on.
pub trait Hasher {
    /// The bytes of the digest of `bytes`.
    spec fn spec_hash(bytes: Seq<u8>) -> Seq<u8>;

    /// Hashes `bytes`.
    fn hash(bytes: &[u8]) -> (out: Digest)
        ensures
            out@ == Self::spec_hash(bytes@),
    ;
}

/// True if two different byte strings have the same digest under `H`.
pub open spec fn has_collision<H: Hasher>() -> bool {
    exists|a: Seq<u8>, b: Seq<u8>| a != b && #[trigger] H::spec_hash(a) == #[trigger] H::spec_hash(b)
}

/// What is hashed for a trie that holds nothing.
pub open spec fn empty_preimage() -> Seq<u8> {
    seq![TAG_EMPTY]
}

/// What is hashed for the bytes of a stored value.
pub open spec fn data_preimage(value: Seq<u8>) -> Seq<u8> {
    seq![TAG_DATA] + value
}

/// What is hashed for a branch with the given children.
pub open spec fn branch_preimage(left: Seq<u8>, right: Seq<u8>) -> Seq<u8> {
    seq![TAG_BRANCH] + left + right
}

/// What is hashed for a leaf that holds `suffix` and refers to `target`.
pub open spec fn leaf_preimage(suffix: Seq<bool>, target: Seq<u8>) -> Seq<u8> {
    seq![TAG_LEAF] + target + path_bytes(suffix)
}

/// What is hashed for a value node: the digest of the value's bytes, then
/// the digest of the subtree of longer keys, if there is one.
pub open spec fn value_preimage(data: Seq<u8>, child: Option<Seq<u8>>) -> Seq<u8> {
    seq![TAG_VALUE] + data + match child {
        Some(c) => c,
        None => Seq::<u8>::empty(),
    }
}

/// The digest of a trie that holds nothing.
pub open spec fn spec_empty_digest<H: Hasher>() -> Seq<u8> {
    H::spec_hash(empty_preimage())
}

/// The digest of the bytes of a stored value.
pub open spec fn spec_data_digest<H: Hasher>(value: Seq<u8>) -> Seq<u8> {
    H::spec_hash(data_preimage(value))
}

/// The digest of a branch: left and right child in this order.
pub open spec fn spec_branch_digest<H: Hasher>(left: Seq<u8>, right: Seq<u8>) -> Seq<u8> {
    H::spec_hash(branch_preimage(left, right))
}

/// The digest of a leaf.
pub open spec fn spec_leaf_digest<H: Hasher>(suffix: Seq<bool>, target: Seq<u8>) -> Seq<u8> {
    H::spec_hash(leaf_preimage(suffix, target))
}

/// The digest of a value node.
pub open spec fn spec_value_digest<H: Hasher>(data: Seq<u8>, child: Option<Seq<u8>>) -> Seq<u8> {
    H::spec_hash(value_preimage(data, child))
}

/// Where no two byte strings have the same digest, equal digests come from
/// equal byte strings.
pub proof fn lemma_same_preimage<H: Hasher>(a: Seq<u8>, b: Seq<u8>)
    requires
        !has_collision::<H>(),
        H::spec_hash(a) == H::spec_hash(b),
    ensures
        a == b,
{
}

/// A branch is hashed from its two children: other children, other bytes.
pub proof fn lemma_branch_preimage(left_a: Seq<u8>, right_a: Seq<u8>, left_b: Seq<u8>, right_b: Seq<u8>)
    requires
        left_a.len() == left_b.len(),
        branch_preimage(left_a, right_a) == branch_preimage(left_b, right_b),
    ensures
        left_a == left_b,
        right_a == right_b,
{
    let a = branch_preimage(left_a, right_a);
    let b = branch_preimage(left_b, right_b);
    assert(a.len() == 1 + left_a.len() + right_a.len());
    assert(b.len() == 1 + left_b.len() + right_b.len());
    assert(left_a =~= a.subrange(1, 1 + left_a.len() as int));
    assert(left_b =~= b.subrange(1, 1 + left_b.len() as int));
    assert(right_a =~= a.subrange(1 + left_a.len() as int, a.len() as int));
    assert(right_b =~= b.subrange(1 + left_b.len() as int, b.len() as int));
}

/// A leaf is hashed from its bits and what it refers to: other parts, other bytes.
pub proof fn lemma_leaf_preimage(path_a: Seq<bool>, target_a: Seq<u8>, path_b: Seq<bool>, target_b: Seq<u8>)
    requires
        target_a.len() == target_b.len(),
        leaf_preimage(path_a, target_a) == leaf_preimage(path_b, target_b),
    ensures
        path_a == path_b,
        target_a == target_b,
{
    let a = leaf_preimage(path_a, target_a);
    let b = leaf_preimage(path_b, target_b);
    assert(a.len() == 1 + target_a.len() + path_bytes(path_a).len());
    assert(b.len() == 1 + target_b.len() + path_bytes(path_b).len());
    assert(target_a =~= a.subrange(1, 1 + target_a.len() as int));
    assert(target_b =~= b.subrange(1, 1 + target_b.len() as int));
    assert(path_bytes(path_a) =~= a.subrange(1 + target_a.len() as int, a.len() as int));
    assert(path_bytes(path_b) =~= b.subrange(1 + target_b.len() as int, b.len() as int));
    lemma_path_bytes_injective(path_a, path_b);
}

/// A value node is hashed from the digest of its value and from the digest
/// of the subtree below it, or from the first alone: other parts, other bytes.
pub proof fn lemma_value_preimage(
    data_a: Seq<u8>,
    child_a: Option<Seq<u8>>,
    data_b: Seq<u8>,
    child_b: Option<Seq<u8>>,
)
    requires
        data_a.len() == data_b.len(),
        child_a matches Some(c) ==> c.len() > 0,
        child_b matches Some(c) ==> c.len() > 0,
        value_preimage(data_a, child_a) == value_preimage(data_b, child_b),
    ensures
        data_a == data_b,
        child_a == child_b,
{
    let a = value_preimage(data_a, child_a);
    let b = value_preimage(data_b, child_b);
    let target_a = match child_a {
        Some(c) => c,
        None => Seq::<u8>::empty(),
    };
    let target_b = match child_b {
        Some(c) => c,
        None => Seq::<u8>::empty(),
    };
    assert(a.len() == 1 + data_a.len() + target_a.len());
    assert(b.len() == 1 + data_b.len() + target_b.len());
    assert(data_a =~= a.subrange(1, 1 + data_a.len() as int));
    assert(data_b =~= b.subrange(1, 1 + data_b.len() as int));
    assert(target_a =~= a.subrange(1 + data_a.len() as int, a.len() as int));
    assert(target_b =~= b.subrange(1 + data_b.len() as int, b.len() as int));
}

/// The bytes of a value are hashed behind one byte: other values, other bytes.
pub proof fn lemma_data_preimage(value_a: Seq<u8>, value_b: Seq<u8>)
    requires
        data_preimage(value_a) == data_preimage(value_b),
    ensures
        value_a == value_b,
{
    let a = data_preimage(value_a);
    let b = data_preimage(value_b);
    assert(value_a =~= a.subrange(1, a.len() as int));
    assert(value_b =~= b.subrange(1, b.len() as int));
}

/// Appends `bytes` to `buf`.
fn append(buf: &mut Vec<u8>, bytes: &[u8])
    ensures
        final(buf)@ == old(buf)@ + bytes@,
{
    let ghost before = buf@;
    let mut i: usize = 0;
    while i < bytes.len()
        invariant
            i <= bytes@.len(),
            buf@ == before + bytes@.take(i as int),
        decreases bytes@.len() - i,
    {
        buf.push(bytes[i]);
        assert(buf@ =~= before + bytes@.take(i + 1));
        i = i + 1;
    }
    assert(bytes@.take(bytes@.len() as int) =~= bytes@);
}

/// The digest of a trie that holds nothing.
pub fn empty_digest<H: Hasher>() -> (out: Digest)
    ensures
        out@ == spec_empty_digest::<H>(),
{
    let mut buf: Vec<u8> = Vec::new();
    buf.push(TAG_EMPTY);
    assert(buf@ =~= seq![TAG_EMPTY]);
    H::hash(buf.as_slice())
}

/// Hashes the bytes of a value that is to be stored.
pub fn data_digest<H: Hasher>(value: &[u8]) -> (out: Digest)
    ensures
        out@ == spec_data_digest::<H>(value@),
{
    let mut buf: Vec<u8> = Vec::new();
    buf.push(TAG_DATA);
    assert(buf@ =~= seq![TAG_DATA]);
    append(&mut buf, value);
    H::hash(buf.as_slice())
}

/// Combines the digests of the two children of a branch. The order counts:
/// with the children swapped, other bytes are hashed.
pub fn branch_digest<H: Hasher>(left: &Digest, right: &Digest) -> (out: Digest)
    ensures
        out@ == spec_branch_digest::<H>(left@, right@),
{
    let mut buf: Vec<u8> = Vec::new();
    buf.push(TAG_BRANCH);
    assert(buf@ =~= seq![TAG_BRANCH]);
    append(&mut buf, left.as_bytes());
    append(&mut buf, right.as_bytes());
    H::hash(buf.as_slice())
}

/// Combines the bits that a leaf holds with the digest of what it refers to.
pub fn leaf_digest<H: Hasher>(suffix: &Bits, target: &Digest) -> (out: Digest)
    ensures
        out@ == spec_leaf_digest::<H>(suffix@, target@),
{
    let mut buf: Vec<u8> = Vec::new();
    buf.push(TAG_LEAF);
    assert(buf@ =~= seq![TAG_LEAF]);
    append(&mut buf, target.as_bytes());
    let path = suffix.to_path_bytes();
    append(&mut buf, path.as_slice());
    H::hash(buf.as_slice())
}

/// Combines the digest of a value's bytes with that of the subtree below it.
pub fn value_digest<H: Hasher>(data: &Digest, child: Option<&Digest>) -> (out: Digest)
    ensures
        out@ == spec_value_digest::<H>(
            data@,
            match child {
                Some(c) => Some(c@),
                None => None,
            },
        ),
{
    let mut buf: Vec<u8> = Vec::new();
    buf.push(TAG_VALUE);
    assert(buf@ =~= seq![TAG_VALUE]);
    append(&mut buf, data.as_bytes());
    match child {
        Some(c) => {
            append(&mut buf, c.as_bytes());
        },
        None => {
            assert(buf@ =~= buf@ + Seq::<u8>::empty());
        },
    }
    H::hash(buf.as_slice())
}

/// The digest of a sealed node: that of the subtree it stands for, unchanged.
pub fn sealed_digest(existing: &Digest) -> (out: Digest)
    ensures
        out == *existing,
{
    *existing
}

/// The bytes of the SHA-256 hash of a byte string.
pub uninterp spec fn sha256(bytes: Seq<u8>) -> Seq<u8>;

/// Calls `solana_program::hash::hash`, which returns the SHA-256 hash of
/// its input, and takes the 32 bytes out of it. That hash is a function of
/// the input alone; nothing more is claimed of it.
#[verifier::external_body]
fn sha256_of(bytes: &[u8]) -> (out: [u8; 32])
    ensures
        out@ == sha256(bytes@),
{
    anchor_lang::solana_program::hash::hash(bytes).to_bytes()
}

/// SHA-256 as the trie's hash function.
#[derive(Clone, Copy, Debug)]
pub struct Sha256;

impl Hasher for Sha256 {
    open spec fn spec_hash(bytes: Seq<u8>) -> Seq<u8> {
        sha256(bytes)
    }

    fn hash(bytes: &[u8]) -> (out: Digest) {
        Digest::new(sha256_of(bytes))
    }
}

} // verus!
