//! The request for information on one piece of a block, and its wire form.
use vstd::prelude::*;
use crate::hash::{be64, push_u64};

verus! {

/// Gives `rand::random` a contract: it returns some value of the type, and
/// nothing more is known of it.
pub assume_specification<T>[ rand::random::<T> ]() -> (r: T)
    where
        rand::distributions::Standard: rand::distributions::Distribution<T>,
;

/// An eight-byte short hash.
#[derive(Clone, Copy, Debug, PartialEq, Eq)]
pub struct ShortHash(pub [u8; 8]);

/// Why a packet was refused.
#[derive(Clone, Copy, Debug, PartialEq, Eq, Structural)]
pub enum NetworkErr {
    /// The bytes are not a packet of the expected kind.
    BadFormat,
}

/// Asks a peer for information on the piece `piece_hash` of the block
/// `block_hash`.
#[derive(Clone, Copy, Debug, PartialEq, Eq)]
pub struct RequestPieceInfo {
    /// Randomly generated nonce.
    pub nonce: u64,
    /// The hash of the block.
    pub block_hash: ShortHash,
    /// The hash of the piece we are requesting info for.
    pub piece_hash: ShortHash,
}

/// The tag byte that opens this packet.
pub const PACKET_TYPE: u8 = 14;

/// The packet's 25 bytes: the tag, the nonce big-endian, then the two
/// short hashes.
pub open spec fn packet_bytes(p: RequestPieceInfo) -> Seq<u8> {
    seq![PACKET_TYPE] + be64(p.nonce) + p.block_hash.0@ + p.piece_hash.0@
}

/// The big-endian value of the eight bytes of `s` that start at `at`.
pub open spec fn u64_at(s: Seq<u8>, at: int) -> u64 {
    (s[at] as int * 0x100_0000_0000_0000 + s[at + 1] as int * 0x1_0000_0000_0000 + s[at + 2] as int
        * 0x100_0000_0000 + s[at + 3] as int * 0x1_0000_0000 + s[at + 4] as int * 0x100_0000
        + s[at + 5] as int * 0x1_0000 + s[at + 6] as int * 0x100 + s[at + 7] as int) as u64
}

/// What a byte string decodes to.
pub open spec fn parse_packet(s: Seq<u8>) -> Result<(u64, Seq<u8>, Seq<u8>), NetworkErr> {
    if s.len() != 25 || s[0] != PACKET_TYPE {
        Err(NetworkErr::BadFormat)
    } else {
        Ok((u64_at(s, 1), s.subrange(9, 17), s.subrange(17, 25)))
    }
}

/// Reading back the eight bytes written for `x` gives `x`.
proof fn lemma_u64_round_trip(x: u64)
    ensures
        u64_at(be64(x), 0) == x,
{
    let b0 = (x / 0x100_0000_0000_0000 % 0x100) as u64;
    let b1 = (x / 0x1_0000_0000_0000 % 0x100) as u64;
    let b2 = (x / 0x100_0000_0000 % 0x100) as u64;
    let b3 = (x / 0x1_0000_0000 % 0x100) as u64;
    let b4 = (x / 0x100_0000 % 0x100) as u64;
    let b5 = (x / 0x1_0000 % 0x100) as u64;
    let b6 = (x / 0x100 % 0x100) as u64;
    let b7 = (x % 0x100) as u64;
    assert(b0 * 0x100_0000_0000_0000 + b1 * 0x1_0000_0000_0000 + b2 * 0x100_0000_0000 + b3
        * 0x1_0000_0000 + b4 * 0x100_0000 + b5 * 0x1_0000 + b6 * 0x100 + b7 == x) by (bit_vector)
        requires
            b0 == x / 0x100_0000_0000_0000 % 0x100,
            b1 == x / 0x1_0000_0000_0000 % 0x100,
            b2 == x / 0x100_0000_0000 % 0x100,
            b3 == x / 0x1_0000_0000 % 0x100,
            b4 == x / 0x100_0000 % 0x100,
            b5 == x / 0x1_0000 % 0x100,
            b6 == x / 0x100 % 0x100,
            b7 == x % 0x100,
    ;
}

/// Decoding the bytes of a packet gives the packet back.
pub proof fn lemma_packet_round_trip(p: RequestPieceInfo)
    ensures
        parse_packet(packet_bytes(p)) == Ok::<(u64, Seq<u8>, Seq<u8>), NetworkErr>(
            (p.nonce, p.block_hash.0@, p.piece_hash.0@),
        ),
{
    let s = packet_bytes(p);
    lemma_u64_round_trip(p.nonce);
    assert(s.subrange(1, 9) =~= be64(p.nonce));
    assert(u64_at(s, 1) == u64_at(be64(p.nonce), 0));
    assert(s.subrange(9, 17) =~= p.block_hash.0@);
    assert(s.subrange(17, 25) =~= p.piece_hash.0@);
}

impl RequestPieceInfo {
    /// A request with a fresh random nonce.
    pub fn new(block_hash: ShortHash, piece_hash: ShortHash) -> (r: RequestPieceInfo)
        ensures
            r.block_hash == block_hash,
            r.piece_hash == piece_hash,
    {
        RequestPieceInfo { block_hash, piece_hash, nonce: rand::random::<u64>() }
    }

    /// The packet's wire form.
    pub fn to_bytes(&self) -> (r: Vec<u8>)
        ensures
            r@ == packet_bytes(*self),
    {
        let mut buffer: Vec<u8> = Vec::new();
        buffer.push(PACKET_TYPE);
        push_u64(&mut buffer, self.nonce);
        let mut i: usize = 0;
        let ghost start = buffer@;
        while i < 8
            invariant
                i <= 8,
                buffer@ == start + self.block_hash.0@.subrange(0, i as int),
            decreases 8 - i,
        {
            buffer.push(self.block_hash.0[i]);
            i = i + 1;
            assert(buffer@ =~= start + self.block_hash.0@.subrange(0, i as int));
        }
        let ghost mid = buffer@;
        i = 0;
        while i < 8
            invariant
                i <= 8,
                buffer@ == mid + self.piece_hash.0@.subrange(0, i as int),
            decreases 8 - i,
        {
            buffer.push(self.piece_hash.0[i]);
            i = i + 1;
            assert(buffer@ =~= mid + self.piece_hash.0@.subrange(0, i as int));
        }
        assert(self.block_hash.0@.subrange(0, 8) =~= self.block_hash.0@);
        assert(self.piece_hash.0@.subrange(0, 8) =~= self.piece_hash.0@);
        assert(buffer@ =~= packet_bytes(*self));
        buffer
    }

    /// Reads a packet from its wire form: exactly 25 bytes that open with
    /// the packet's tag.
    pub fn from_bytes(bytes: &Vec<u8>) -> (r: Result<RequestPieceInfo, NetworkErr>)
        ensures
            match parse_packet(bytes@) {
                Err(e) => r == Err::<RequestPieceInfo, NetworkErr>(e),
                Ok((nonce, b, p)) => r is Ok && r->Ok_0.nonce == nonce && r->Ok_0.block_hash.0@ == b
                    && r->Ok_0.piece_hash.0@ == p,
            },
    {
        if bytes.len() != 25 || bytes[0] != PACKET_TYPE {
            return Err(NetworkErr::BadFormat);
        }
        let nonce = (bytes[1] as u64) * 0x100_0000_0000_0000 + (bytes[2] as u64) * 0x1_0000_0000_0000
            + (bytes[3] as u64) * 0x100_0000_0000 + (bytes[4] as u64) * 0x1_0000_0000 + (bytes[5] as u64)
            * 0x100_0000 + (bytes[6] as u64) * 0x1_0000 + (bytes[7] as u64) * 0x100 + (bytes[8] as u64);
        let block_hash = ShortHash(
            [bytes[9], bytes[10], bytes[11], bytes[12], bytes[13], bytes[14], bytes[15], bytes[16]],
        );
        let piece_hash = ShortHash(
            [bytes[17], bytes[18], bytes[19], bytes[20], bytes[21], bytes[22], bytes[23], bytes[24]],
        );
        assert(block_hash.0@ =~= bytes@.subrange(9, 17));
        assert(piece_hash.0@ =~= bytes@.subrange(17, 25));
        Ok(RequestPieceInfo { nonce, block_hash, piece_hash })
    }
}

} // verus!
