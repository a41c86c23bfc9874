//! Keys as sequences of bits, most significant bit of each byte first.

use vstd::prelude::*;
use crate::trie::Error;

verus! {

/// Largest number of bytes a key may be made from.
pub const MAX_KEY_BYTES: usize = 8191;

/// Bit `j` of a byte, counted from the most significant one.
pub open spec fn bit_of_byte(b: u8, j: u8) -> bool {
    (b >> (7u8 - j) as u8) & 1u8 == 1u8
}

/// The bits of a byte string: eight per byte, in order.
pub open spec fn bits_of(bytes: Seq<u8>) -> Seq<bool> {
    Seq::new(bytes.len() * 8, |i: int| bit_of_byte(bytes[i / 8], (i % 8) as u8))
}

/// True if the first `n` bits of `a` and `b` agree and the two part ways
/// right after them: `n` is the length of their longest common prefix.
pub open spec fn is_common_prefix_len(a: Seq<bool>, b: Seq<bool>, n: int) -> bool {
    &&& 0 <= n <= a.len()
    &&& n <= b.len()
    &&& forall|i: int| 0 <= i < n ==> a[i] == b[i]
    &&& (n == a.len() || n == b.len() || a[n] != b[n])
}

/// What the bit `j` places after `at` adds to the byte that is packed from
/// there: its place value if it is there and set, else nothing.
pub open spec fn weight(bits: Seq<bool>, at: int, j: u8) -> u8 {
    if at + j < bits.len() && bits[at + j] {
        0x80u8 >> j
    } else {
        0u8
    }
}

/// The byte packed from the eight bits from `at` on, the first of them the
/// most significant; bits beyond the end count as clear.
pub open spec fn packed_byte(bits: Seq<bool>, at: int) -> u8 {
    weight(bits, at, 0) | weight(bits, at, 1) | weight(bits, at, 2) | weight(bits, at, 3) | weight(
        bits,
        at,
        4,
    ) | weight(bits, at, 5) | weight(bits, at, 6) | weight(bits, at, 7)
}

/// The bits packed eight to a byte.
pub open spec fn packed(bits: Seq<bool>) -> Seq<u8> {
    Seq::new(((bits.len() + 7) / 8) as nat, |i: int| packed_byte(bits, 8 * i))
}

/// A path as it enters a digest: the number of bits in its last byte if
/// that byte is not full, else zero, and then the bits, packed.
pub open spec fn path_bytes(path: Seq<bool>) -> Seq<u8> {
    seq![(path.len() % 8) as u8] + packed(path)
}

/// In a byte that is the union of place values, a bit is set just if its
/// place value is in the union.
proof fn lemma_union_bits(x0: u8, x1: u8, x2: u8, x3: u8, x4: u8, x5: u8, x6: u8, x7: u8)
    requires
        x0 == 0 || x0 == 0x80,
        x1 == 0 || x1 == 0x40,
        x2 == 0 || x2 == 0x20,
        x3 == 0 || x3 == 0x10,
        x4 == 0 || x4 == 0x08,
        x5 == 0 || x5 == 0x04,
        x6 == 0 || x6 == 0x02,
        x7 == 0 || x7 == 0x01,
    ensures
        bit_of_byte(x0 | x1 | x2 | x3 | x4 | x5 | x6 | x7, 0) == (x0 != 0),
        bit_of_byte(x0 | x1 | x2 | x3 | x4 | x5 | x6 | x7, 1) == (x1 != 0),
        bit_of_byte(x0 | x1 | x2 | x3 | x4 | x5 | x6 | x7, 2) == (x2 != 0),
        bit_of_byte(x0 | x1 | x2 | x3 | x4 | x5 | x6 | x7, 3) == (x3 != 0),
        bit_of_byte(x0 | x1 | x2 | x3 | x4 | x5 | x6 | x7, 4) == (x4 != 0),
        bit_of_byte(x0 | x1 | x2 | x3 | x4 | x5 | x6 | x7, 5) == (x5 != 0),
        bit_of_byte(x0 | x1 | x2 | x3 | x4 | x5 | x6 | x7, 6) == (x6 != 0),
        bit_of_byte(x0 | x1 | x2 | x3 | x4 | x5 | x6 | x7, 7) == (x7 != 0),
{
    let u = x0 | x1 | x2 | x3 | x4 | x5 | x6 | x7;
    assert(((u >> 7u8) & 1u8 == 1u8) == (x0 != 0u8) && ((u >> 6u8) & 1u8 == 1u8) == (x1 != 0u8) && ((u
        >> 5u8) & 1u8 == 1u8) == (x2 != 0u8) && ((u >> 4u8) & 1u8 == 1u8) == (x3 != 0u8) && ((u
        >> 3u8) & 1u8 == 1u8) == (x4 != 0u8) && ((u >> 2u8) & 1u8 == 1u8) == (x5 != 0u8) && ((u
        >> 1u8) & 1u8 == 1u8) == (x6 != 0u8) && ((u >> 0u8) & 1u8 == 1u8) == (x7 != 0u8))
        by (bit_vector)
        requires
            u == x0 | x1 | x2 | x3 | x4 | x5 | x6 | x7,
            x0 == 0u8 || x0 == 0x80u8,
            x1 == 0u8 || x1 == 0x40u8,
            x2 == 0u8 || x2 == 0x20u8,
            x3 == 0u8 || x3 == 0x10u8,
            x4 == 0u8 || x4 == 0x08u8,
            x5 == 0u8 || x5 == 0x04u8,
            x6 == 0u8 || x6 == 0x02u8,
            x7 == 0u8 || x7 == 0x01u8,
    ;
}

/// The place values of the eight bits of a byte.
proof fn lemma_place_values()
    ensures
        0x80u8 >> 0u8 == 0x80u8,
        0x80u8 >> 1u8 == 0x40u8,
        0x80u8 >> 2u8 == 0x20u8,
        0x80u8 >> 3u8 == 0x10u8,
        0x80u8 >> 4u8 == 0x08u8,
        0x80u8 >> 5u8 == 0x04u8,
        0x80u8 >> 6u8 == 0x02u8,
        0x80u8 >> 7u8 == 0x01u8,
{
    assert(0x80u8 >> 0u8 == 0x80u8 && 0x80u8 >> 1u8 == 0x40u8 && 0x80u8 >> 2u8 == 0x20u8 && 0x80u8
        >> 3u8 == 0x10u8 && 0x80u8 >> 4u8 == 0x08u8 && 0x80u8 >> 5u8 == 0x04u8 && 0x80u8 >> 6u8
        == 0x02u8 && 0x80u8 >> 7u8 == 0x01u8) by (bit_vector);
}

/// Every bit can be read back from the packed bytes.
pub proof fn lemma_unpack(bits: Seq<bool>, i: int)
    requires
        0 <= i < bits.len(),
    ensures
        i / 8 < packed(bits).len(),
        bit_of_byte(packed(bits)[i / 8], (i % 8) as u8) == bits[i],
{
    let at = 8 * (i / 8);
    lemma_place_values();
    lemma_union_bits(
        weight(bits, at, 0),
        weight(bits, at, 1),
        weight(bits, at, 2),
        weight(bits, at, 3),
        weight(bits, at, 4),
        weight(bits, at, 5),
        weight(bits, at, 6),
        weight(bits, at, 7),
    );
    assert(packed(bits)[i / 8] == packed_byte(bits, at));
    let j = (i % 8) as u8;
    assert(at + j == i);
    assert(weight(bits, at, j) != 0 <==> bits[i]);
}

/// Different paths are written as different bytes.
pub proof fn lemma_path_bytes_injective(a: Seq<bool>, b: Seq<bool>)
    requires
        path_bytes(a) == path_bytes(b),
    ensures
        a == b,
{
    let x = path_bytes(a);
    let y = path_bytes(b);
    assert(x[0] == (a.len() % 8) as u8);
    assert(y[0] == (b.len() % 8) as u8);
    assert(x.len() == 1 + (a.len() + 7) / 8);
    assert(y.len() == 1 + (b.len() + 7) / 8);
    assert(a.len() == b.len());
    assert(packed(a) =~= x.subrange(1, x.len() as int));
    assert(packed(b) =~= y.subrange(1, y.len() as int));
    assert forall|i: int| 0 <= i < a.len() implies a[i] == b[i] by {
        lemma_unpack(a, i);
        lemma_unpack(b, i);
    }
    assert(a =~= b);
}

/// A sequence of bits: a key, or the part of a key that a node stands for.
#[derive(Debug, PartialEq, Eq)]
pub struct Bits {
    bits: Vec<bool>,
}

impl View for Bits {
    type V = Seq<bool>;

    closed spec fn view(&self) -> Seq<bool> {
        self.bits@
    }
}

impl Clone for Bits {
    fn clone(&self) -> (out: Self)
        ensures
            out@ == self@,
    {
        self.slice(0, self.len())
    }
}

impl Bits {
    /// The empty sequence.
    pub fn empty() -> (out: Bits)
        ensures
            out@ == Seq::<bool>::empty(),
    {
        Bits { bits: Vec::new() }
    }

    /// The bits of `bytes`, unless there are more than `MAX_KEY_BYTES` of them.
    pub fn from_bytes(bytes: &[u8]) -> (out: Result<Bits, Error>)
        ensures
            bytes@.len() > MAX_KEY_BYTES ==> out == Err::<Bits, Error>(Error::KeyTooLong),
            bytes@.len() <= MAX_KEY_BYTES ==> out.is_ok() && out.unwrap()@ == bits_of(bytes@),
    {
        if bytes.len() > MAX_KEY_BYTES {
            return Err(Error::KeyTooLong);
        }
        let mut bits: Vec<bool> = Vec::new();
        let mut i: usize = 0;
        while i < bytes.len()
            invariant
                i <= bytes.len() <= MAX_KEY_BYTES,
                bits@.len() == i * 8,
                forall|k: int| 0 <= k < bits@.len() ==> bits@[k] == bits_of(bytes@)[k],
            decreases bytes.len() - i,
        {
            let b: u8 = bytes[i];
            let mut j: u8 = 0;
            while j < 8
                invariant
                    i < bytes.len() <= MAX_KEY_BYTES,
                    j <= 8,
                    b == bytes@[i as int],
                    bits@.len() == i * 8 + j,
                    forall|k: int| 0 <= k < bits@.len() ==> bits@[k] == bits_of(bytes@)[k],
                decreases 8 - j,
            {
                let bit: bool = (b >> (7u8 - j)) & 1u8 == 1u8;
                proof {
                    let k = i * 8 + j;
                    assert(k / 8 == i as int && k % 8 == j as int);
                }
                bits.push(bit);
                j = j + 1;
            }
            i = i + 1;
        }
        assert(bits@ =~= bits_of(bytes@));
        Ok(Bits { bits })
    }

    /// How many bits there are.
    pub fn len(&self) -> (n: usize)
        ensures
            n == self@.len(),
    {
        self.bits.len()
    }

    /// True if there is no bit.
    pub fn is_empty(&self) -> (out: bool)
        ensures
            out == (self@.len() == 0),
    {
        self.bits.len() == 0
    }

    /// The bit at `index`.
    pub fn get(&self, index: usize) -> (bit: bool)
        requires
            index < self@.len(),
        ensures
            bit == self@[index as int],
    {
        self.bits[index]
    }

    /// The bits from `from` up to, not including, `to`.
    pub fn slice(&self, from: usize, to: usize) -> (out: Bits)
        requires
            from <= to <= self@.len(),
        ensures
            out@ == self@.subrange(from as int, to as int),
    {
        let mut bits: Vec<bool> = Vec::new();
        let mut i: usize = from;
        while i < to
            invariant
                from <= i <= to <= self.bits@.len(),
                bits@ == self.bits@.subrange(from as int, i as int),
            decreases to - i,
        {
            bits.push(self.bits[i]);
            assert(bits@ =~= self.bits@.subrange(from as int, i + 1));
            i = i + 1;
        }
        Bits { bits }
    }

    /// The two parts of the sequence before and from `at`.
    pub fn split_at(&self, at: usize) -> (out: (Bits, Bits))
        requires
            at <= self@.len(),
        ensures
            out.0@ == self@.take(at as int),
            out.1@ == self@.skip(at as int),
    {
        (self.slice(0, at), self.slice(at, self.len()))
    }

    /// This sequence followed by `tail`.
    pub fn concat(&self, tail: &Bits) -> (out: Bits)
        ensures
            out@ == self@ + tail@,
    {
        let mut bits: Vec<bool> = Vec::new();
        let mut i: usize = 0;
        while i < self.bits.len()
            invariant
                i <= self.bits@.len(),
                bits@ == self.bits@.take(i as int),
            decreases self.bits@.len() - i,
        {
            bits.push(self.bits[i]);
            assert(bits@ =~= self.bits@.take(i + 1));
            i = i + 1;
        }
        let mut j: usize = 0;
        while j < tail.bits.len()
            invariant
                j <= tail.bits@.len(),
                bits@ == self.bits@ + tail.bits@.take(j as int),
            decreases tail.bits@.len() - j,
        {
            bits.push(tail.bits[j]);
            assert(bits@ =~= self.bits@ + tail.bits@.take(j + 1));
            j = j + 1;
        }
        assert(bits@ =~= self.bits@ + tail.bits@);
        Bits { bits }
    }

    /// The one-bit sequence that holds `bit`.
    pub fn single(bit: bool) -> (out: Bits)
        ensures
            out@ == seq![bit],
    {
        let mut bits: Vec<bool> = Vec::new();
        bits.push(bit);
        assert(bits@ =~= seq![bit]);
        Bits { bits }
    }

    /// The length of the longest common prefix of this sequence from `from`
    /// on and `other` from `other_from` on.
    pub fn common_prefix_len(&self, from: usize, other: &Bits, other_from: usize) -> (n: usize)
        requires
            from <= self@.len(),
            other_from <= other@.len(),
        ensures
            is_common_prefix_len(self@.skip(from as int), other@.skip(other_from as int), n as int),
    {
        let a_len: usize = self.bits.len();
        let b_len: usize = other.bits.len();
        let mut n: usize = 0;
        while from + n < a_len && other_from + n < b_len
            invariant
                a_len == self.bits@.len(),
                b_len == other.bits@.len(),
                from + n <= a_len,
                other_from + n <= b_len,
                forall|i: int|
                    0 <= i < n ==> self.bits@.skip(from as int)[i] == other.bits@.skip(
                        other_from as int,
                    )[i],
            decreases self.bits@.len() - from - n,
        {
            if self.bits[from + n] != other.bits[other_from + n] {
                return n;
            }
            n = n + 1;
        }
        n
    }

    /// True if the bits from `from` on begin with all of `prefix`.
    pub fn starts_with_at(&self, from: usize, prefix: &Bits) -> (out: bool)
        requires
            from <= self@.len(),
        ensures
            out == prefix@.is_prefix_of(self@.skip(from as int)),
    {
        let n = prefix.common_prefix_len(0, self, from);
        let ghost rest = self@.skip(from as int);
        proof {
            assert(prefix@.skip(0) =~= prefix@);
            if n == prefix@.len() {
                assert(prefix@ =~= rest.subrange(0, prefix@.len() as int));
            } else if prefix@.is_prefix_of(rest) {
                assert(prefix@[n as int] == rest.subrange(0, prefix@.len() as int)[n as int]);
            }
        }
        n == prefix.len()
    }

    /// The place value of the bit `j` places after `at`, if it is there and set.
    fn weight_at(&self, at: usize, j: u8) -> (out: u8)
        requires
            at <= self@.len(),
            j < 8,
        ensures
            out == weight(self@, at as int, j),
    {
        let n: usize = self.bits.len();
        if (j as usize) < n - at && self.bits[at + j as usize] {
            0x80u8 >> j
        } else {
            0
        }
    }

    /// The bits as they enter a digest: the number of bits in the last byte
    /// if it is not full, and the bits packed eight to a byte.
    pub fn to_path_bytes(&self) -> (out: Vec<u8>)
        ensures
            out@ == path_bytes(self@),
    {
        let n: usize = self.bits.len();
        let mut out: Vec<u8> = Vec::new();
        out.push((n % 8) as u8);
        let mut at: usize = 0;
        while at < n
            invariant
                n == self.bits@.len(),
                at <= n,
                at % 8 == 0 || at == n,
                out@ == seq![(n % 8) as u8] + packed(self.bits@).take((at + 7) / 8),
            decreases n - at,
        {
            let byte: u8 = self.weight_at(at, 0) | self.weight_at(at, 1) | self.weight_at(at, 2)
                | self.weight_at(at, 3) | self.weight_at(at, 4) | self.weight_at(at, 5)
                | self.weight_at(at, 6) | self.weight_at(at, 7);
            let ghost done = (at + 7) / 8;
            assert(8 * done == at);
            assert(byte == packed(self.bits@)[done]);
            out.push(byte);
            if n - at >= 8 {
                at = at + 8;
            } else {
                at = n;
            }
            assert((at + 7) / 8 == done + 1);
            assert(out@ =~= seq![(n % 8) as u8] + packed(self.bits@).take(done + 1));
        }
        assert(packed(self.bits@).take((n + 7) / 8) =~= packed(self.bits@));
        out
    }
}

} // verus!
