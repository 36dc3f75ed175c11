//! Content hashes and the big-endian encodings that feed them.
use vstd::prelude::*;

verus! {

/// What BLAKE3 returns for a byte string.
pub uninterp spec fn blake3_of(input: Seq<u8>) -> Seq<u8>;

/// Relies on `blake3::hash`: the 32-byte BLAKE3 digest of the input, which
/// depends on the input bytes alone.
#[verifier::external_body]
fn blake3_digest(input: &Vec<u8>) -> (r: Vec<u8>)
    ensures
        r@ == blake3_of(input@),
        r@.len() == 32,
{
    blake3::hash(input.as_slice()).as_bytes().to_vec()
}

/// A 256-bit digest, held as two big-endian 128-bit words: `hi` carries the
/// first sixteen bytes, `lo` the last sixteen.
#[derive(Clone, Copy, Debug, PartialEq, Eq, Structural)]
pub struct H256 {
    pub hi: u128,
    pub lo: u128,
}

/// The big-endian value of the sixteen bytes of `s` that start at `at`.
pub open spec fn word_at(s: Seq<u8>, at: int) -> int {
    s[at] as int * 0x1_0000_0000_0000_0000_0000_0000_0000_00
        + s[at + 1] as int * 0x1_0000_0000_0000_0000_0000_0000_0000
        + s[at + 2] as int * 0x100_0000_0000_0000_0000_0000_0000
        + s[at + 3] as int * 0x1_0000_0000_0000_0000_0000_0000
        + s[at + 4] as int * 0x100_0000_0000_0000_0000_0000
        + s[at + 5] as int * 0x1_0000_0000_0000_0000_0000
        + s[at + 6] as int * 0x100_0000_0000_0000_0000
        + s[at + 7] as int * 0x1_0000_0000_0000_0000
        + s[at + 8] as int * 0x100_0000_0000_0000
        + s[at + 9] as int * 0x1_0000_0000_0000
        + s[at + 10] as int * 0x100_0000_0000
        + s[at + 11] as int * 0x1_0000_0000
        + s[at + 12] as int * 0x100_0000
        + s[at + 13] as int * 0x1_0000
        + s[at + 14] as int * 0x100
        + s[at + 15] as int
}

/// The hash whose 32 bytes are `d`.
pub open spec fn hash_of_digest(d: Seq<u8>) -> H256 {
    H256 { hi: word_at(d, 0) as u128, lo: word_at(d, 16) as u128 }
}

/// The hash of a byte string.
pub open spec fn hash_of(input: Seq<u8>) -> H256 {
    hash_of_digest(blake3_of(input))
}

/// The eight big-endian bytes of `x`.
pub open spec fn be64(x: u64) -> Seq<u8> {
    seq![
        (x / 0x100_0000_0000_0000 % 0x100) as u8,
        (x / 0x1_0000_0000_0000 % 0x100) as u8,
        (x / 0x100_0000_0000 % 0x100) as u8,
        (x / 0x1_0000_0000 % 0x100) as u8,
        (x / 0x100_0000 % 0x100) as u8,
        (x / 0x1_0000 % 0x100) as u8,
        (x / 0x100 % 0x100) as u8,
        (x % 0x100) as u8,
    ]
}

/// The sixteen big-endian bytes of `x`.
pub open spec fn be128(x: u128) -> Seq<u8> {
    be64((x / 0x1_0000_0000_0000_0000) as u64) + be64((x % 0x1_0000_0000_0000_0000) as u64)
}

/// The 32 bytes of a hash, first byte first.
pub open spec fn hash_bytes(h: H256) -> Seq<u8> {
    be128(h.hi) + be128(h.lo)
}

impl H256 {
    /// Lexicographic order of the 32 bytes, which is the order of the pair
    /// of big-endian words.
    pub open spec fn lt(self, other: H256) -> bool {
        self.hi < other.hi || (self.hi == other.hi && self.lo < other.lo)
    }

    /// The all-zero hash.
    pub fn zero() -> (r: H256)
        ensures
            r.hi == 0 && r.lo == 0,
    {
        H256 { hi: 0, lo: 0 }
    }

    /// Whether `self` comes before `other` in lexicographic byte order.
    pub fn less_than(&self, other: &H256) -> (r: bool)
        ensures
            r == self.lt(*other),
    {
        self.hi < other.hi || (self.hi == other.hi && self.lo < other.lo)
    }
}

fn be_word(d: &Vec<u8>, at: usize) -> (r: u128)
    requires
        at <= 16,
        d@.len() == 32,
    ensures
        r as int == word_at(d@, at as int),
{
    (d[at] as u128) * 0x1_0000_0000_0000_0000_0000_0000_0000_00
        + (d[at + 1] as u128) * 0x1_0000_0000_0000_0000_0000_0000_0000
        + (d[at + 2] as u128) * 0x100_0000_0000_0000_0000_0000_0000
        + (d[at + 3] as u128) * 0x1_0000_0000_0000_0000_0000_0000
        + (d[at + 4] as u128) * 0x100_0000_0000_0000_0000_0000
        + (d[at + 5] as u128) * 0x1_0000_0000_0000_0000_0000
        + (d[at + 6] as u128) * 0x100_0000_0000_0000_0000
        + (d[at + 7] as u128) * 0x1_0000_0000_0000_0000
        + (d[at + 8] as u128) * 0x100_0000_0000_0000
        + (d[at + 9] as u128) * 0x1_0000_0000_0000
        + (d[at + 10] as u128) * 0x100_0000_0000
        + (d[at + 11] as u128) * 0x1_0000_0000
        + (d[at + 12] as u128) * 0x100_0000
        + (d[at + 13] as u128) * 0x1_0000
        + (d[at + 14] as u128) * 0x100
        + (d[at + 15] as u128)
}

/// Hashes a byte string.
pub fn hash_slice(input: &Vec<u8>) -> (r: H256)
    ensures
        r == hash_of(input@),
{
    let d = blake3_digest(input);
    H256 { hi: be_word(&d, 0), lo: be_word(&d, 16) }
}

/// Appends the eight big-endian bytes of `x`.
pub fn push_u64(out: &mut Vec<u8>, x: u64)
    ensures
        final(out)@ == old(out)@ + be64(x),
{
    out.push((x / 0x100_0000_0000_0000 % 0x100) as u8);
    out.push((x / 0x1_0000_0000_0000 % 0x100) as u8);
    out.push((x / 0x100_0000_0000 % 0x100) as u8);
    out.push((x / 0x1_0000_0000 % 0x100) as u8);
    out.push((x / 0x100_0000 % 0x100) as u8);
    out.push((x / 0x1_0000 % 0x100) as u8);
    out.push((x / 0x100 % 0x100) as u8);
    out.push((x % 0x100) as u8);
    assert(final(out)@ =~= old(out)@ + be64(x));
}

/// Appends the sixteen big-endian bytes of `x`.
pub fn push_u128(out: &mut Vec<u8>, x: u128)
    ensures
        final(out)@ == old(out)@ + be128(x),
{
    push_u64(out, (x / 0x1_0000_0000_0000_0000) as u64);
    push_u64(out, (x % 0x1_0000_0000_0000_0000) as u64);
    assert(final(out)@ =~= old(out)@ + be128(x));
}

/// Appends the 32 bytes of a hash.
pub fn push_hash(out: &mut Vec<u8>, h: H256)
    ensures
        final(out)@ == old(out)@ + hash_bytes(h),
{
    push_u128(out, h.hi);
    push_u128(out, h.lo);
    assert(final(out)@ =~= old(out)@ + hash_bytes(h));
}

} // verus!
