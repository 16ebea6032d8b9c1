//! Fixed-width little-endian records inside a block.
use vstd::prelude::*;

verus! {

/// `b` with the bytes from `off` on replaced by `s`.
pub open spec fn splice(b: Seq<u8>, off: int, s: Seq<u8>) -> Seq<u8> {
    Seq::new(
        b.len(),
        |i: int|
            if off <= i < off + s.len() {
                s[i - off]
            } else {
                b[i]
            },
    )
}

/// The little-endian `u32` at byte `off` of `b`.
pub open spec fn le32(b: Seq<u8>, off: int) -> u32 {
    (b[off] + 256 * b[off + 1] + 65536 * b[off + 2] + 16777216 * b[off + 3]) as u32
}

/// The `i`-th little-endian `u32` of `b`.
pub open spec fn word(b: Seq<u8>, i: int) -> u32 {
    le32(b, 4 * i)
}

/// The four bytes of `x`, least significant first.
pub open spec fn le32_bytes(x: u32) -> Seq<u8> {
    seq![
        (x % 256) as u8,
        (x / 256 % 256) as u8,
        (x / 65536 % 256) as u8,
        (x / 16777216) as u8,
    ]
}

/// The little-endian `u64` at byte `off` of `b`.
pub open spec fn le64(b: Seq<u8>, off: int) -> u64 {
    (le32(b, off) + 0x1_0000_0000 * le32(b, off + 4)) as u64
}

/// The eight bytes of `x`, least significant first.
pub open spec fn le64_bytes(x: u64) -> Seq<u8> {
    le32_bytes((x % 0x1_0000_0000) as u32) + le32_bytes((x / 0x1_0000_0000) as u32)
}

/// Reading at an offset of a slice is reading at the sum of the offsets.
pub broadcast proof fn lemma_le32_subrange(b: Seq<u8>, lo: int, hi: int, off: int)
    requires
        0 <= lo <= lo + off,
        0 <= off,
        lo + off + 4 <= hi <= b.len(),
    ensures
        #[trigger] le32(b.subrange(lo, hi), off) == le32(b, lo + off),
{
}

/// A `u32` is what its bytes decode to.
pub proof fn lemma_le32_of_bytes(x: u32)
    ensures
        le32(le32_bytes(x), 0) == x,
        le32_bytes(x).len() == 4,
{
}

/// A `u64` is what its bytes decode to.
pub proof fn lemma_le64_of_bytes(x: u64)
    ensures
        le64(le64_bytes(x), 0) == x,
        le64_bytes(x).len() == 8,
{
    let lo = (x % 0x1_0000_0000) as u32;
    let hi = (x / 0x1_0000_0000) as u32;
    lemma_le32_of_bytes(lo);
    lemma_le32_of_bytes(hi);
    let s = le64_bytes(x);
    assert(s.subrange(0, 4) =~= le32_bytes(lo));
    assert(s.subrange(4, 8) =~= le32_bytes(hi));
    lemma_le32_subrange(s, 0, 4, 0);
    lemma_le32_subrange(s, 4, 8, 0);
}

/// What lies in a block at a fixed offset and with a fixed length.
pub trait Record: View + Sized {
    /// The number of bytes of a record.
    spec fn record_size() -> nat;

    /// What the bytes of a record mean.
    spec fn decode(bytes: Seq<u8>) -> Self::V;

    /// The bytes of a record that means `v`.
    spec fn encode(v: Self::V) -> Seq<u8>;

    /// The number of bytes of a record.
    fn size() -> (r: usize)
        ensures
            r == Self::record_size(),
    ;

    /// The record that the bytes stand for.
    fn from_bytes(bytes: &[u8]) -> (r: Self)
        requires
            bytes@.len() == Self::record_size(),
        ensures
            r@ == Self::decode(bytes@),
    ;

    /// The bytes that stand for the record.
    fn to_bytes(&self) -> (r: Vec<u8>)
        ensures
            r@ == Self::encode(self@),
            r@.len() == Self::record_size(),
            Self::decode(r@) == self@,
    ;
}

/// Append the four bytes of `x`.
pub fn push_u32(v: &mut Vec<u8>, x: u32)
    ensures
        final(v)@ == old(v)@ + le32_bytes(x),
{
    v.push((x % 256) as u8);
    v.push((x / 256 % 256) as u8);
    v.push((x / 65536 % 256) as u8);
    v.push((x / 16777216) as u8);
    assert(v@ =~= old(v)@ + le32_bytes(x));
}

/// Read the `u32` at byte `off`.
pub fn get_u32(b: &[u8], off: usize) -> (r: u32)
    requires
        off + 4 <= b@.len(),
    ensures
        r == le32(b@, off as int),
{
    let n: usize = b.len();
    b[off] as u32 + 256 * (b[off + 1] as u32) + 65536 * (b[off + 2] as u32) + 16777216 * (b[off
        + 3] as u32)
}

impl Record for u32 {
    open spec fn record_size() -> nat {
        4
    }

    open spec fn decode(bytes: Seq<u8>) -> u32 {
        le32(bytes, 0)
    }

    open spec fn encode(v: u32) -> Seq<u8> {
        le32_bytes(v)
    }

    fn size() -> (r: usize) {
        4
    }

    fn from_bytes(bytes: &[u8]) -> (r: u32) {
        get_u32(bytes, 0)
    }

    fn to_bytes(&self) -> (r: Vec<u8>) {
        let mut v: Vec<u8> = Vec::new();
        push_u32(&mut v, *self);
        assert(v@ =~= le32_bytes(*self));
        proof {
            lemma_le32_of_bytes(*self);
        }
        v
    }
}

impl Record for u64 {
    open spec fn record_size() -> nat {
        8
    }

    open spec fn decode(bytes: Seq<u8>) -> u64 {
        le64(bytes, 0)
    }

    open spec fn encode(v: u64) -> Seq<u8> {
        le64_bytes(v)
    }

    fn size() -> (r: usize) {
        8
    }

    fn from_bytes(bytes: &[u8]) -> (r: u64) {
        let lo: u32 = get_u32(bytes, 0);
        let hi: u32 = get_u32(bytes, 4);
        lo as u64 + 0x1_0000_0000 * (hi as u64)
    }

    fn to_bytes(&self) -> (r: Vec<u8>) {
        let mut v: Vec<u8> = Vec::new();
        push_u32(&mut v, (*self % 0x1_0000_0000) as u32);
        push_u32(&mut v, (*self / 0x1_0000_0000) as u32);
        assert(v@ =~= le64_bytes(*self));
        proof {
            lemma_le64_of_bytes(*self);
        }
        v
    }
}

/// Replacing bytes elsewhere leaves a range as it was.
pub proof fn lemma_splice_disjoint(b: Seq<u8>, off: int, s: Seq<u8>, lo: int, hi: int)
    requires
        0 <= lo <= hi <= b.len(),
        hi <= off || off + s.len() <= lo,
    ensures
        splice(b, off, s).subrange(lo, hi) == b.subrange(lo, hi),
{
    assert(splice(b, off, s).subrange(lo, hi) =~= b.subrange(lo, hi));
}

/// The replaced range reads as what replaced it.
pub proof fn lemma_splice_same(b: Seq<u8>, off: int, s: Seq<u8>)
    requires
        0 <= off,
        off + s.len() <= b.len(),
    ensures
        splice(b, off, s).subrange(off, off + s.len()) == s,
{
    assert(splice(b, off, s).subrange(off, off + s.len()) =~= s);
}

} // verus!
