//! Blocks of the three chains and their content hash.
use vstd::prelude::*;
use crate::hash::{be64, hash_bytes, hash_of, hash_slice, push_hash, push_u64, H256};
use crate::state::Transaction;

verus! {

/// A binding of the hard chain to one easy-chain block and the state root
/// that block commits to.
#[derive(Clone, Copy, Debug, PartialEq, Eq, Structural)]
pub struct Checkpoint {
    pub easy_height: u64,
    pub easy_hash: H256,
    pub state_root: H256,
}

/// What a block carries, by chain.
#[derive(Clone, Debug, PartialEq, Eq)]
pub enum Payload {
    /// A state-chain block: a batch of transactions applied in order.
    Transactions(Vec<Transaction>),
    /// An easy-chain block: the state chain's root at a height.
    StateCommit { state_height: u64, state_root: H256 },
    /// A hard-chain block: a checkpoint into the easy chain.
    Anchor(Checkpoint),
}

/// A block. `hash` is derived from every other field; a block whose `hash`
/// does not recompute is refused by the chains.
#[derive(Clone, Debug, PartialEq, Eq)]
pub struct Block {
    pub height: u64,
    pub parent_hash: H256,
    pub timestamp: u64,
    pub difficulty: u64,
    pub nonce: u64,
    pub payload: Payload,
    pub hash: H256,
}

pub open spec fn encode_txs(txs: Seq<Transaction>) -> Seq<u8>
    decreases txs.len(),
{
    if txs.len() == 0 {
        Seq::empty()
    } else {
        let t = txs.last();
        encode_txs(txs.drop_last()) + be64(t.from) + be64(t.to) + be64(t.amount) + be64(t.nonce)
    }
}

pub open spec fn encode_payload(p: Payload) -> Seq<u8> {
    match p {
        Payload::Transactions(txs) => seq![0u8] + encode_txs(txs@),
        Payload::StateCommit { state_height, state_root } => seq![1u8] + be64(state_height)
            + hash_bytes(state_root),
        Payload::Anchor(c) => seq![2u8] + be64(c.easy_height) + hash_bytes(c.easy_hash)
            + hash_bytes(c.state_root),
    }
}

/// The bytes a block's hash commits to: every field but the hash.
#[verifier::opaque]
pub open spec fn encode_header(
    height: u64,
    parent_hash: H256,
    timestamp: u64,
    difficulty: u64,
    nonce: u64,
    payload: Payload,
) -> Seq<u8> {
    be64(height) + hash_bytes(parent_hash) + be64(timestamp) + be64(difficulty) + be64(nonce)
        + encode_payload(payload)
}

pub open spec fn header_hash(
    height: u64,
    parent_hash: H256,
    timestamp: u64,
    difficulty: u64,
    nonce: u64,
    payload: Payload,
) -> H256 {
    hash_of(encode_header(height, parent_hash, timestamp, difficulty, nonce, payload))
}

/// Whether a hash meets a difficulty: its first sixteen bytes, read as a
/// number, are at most the largest 128-bit value divided by the difficulty.
pub open spec fn meets(h: H256, difficulty: u64) -> bool {
    difficulty > 0 && h.hi <= u128::MAX / (difficulty as u128)
}

impl Block {
    /// The hash this block's fields determine.
    pub open spec fn computed_hash(self) -> H256 {
        header_hash(
            self.height,
            self.parent_hash,
            self.timestamp,
            self.difficulty,
            self.nonce,
            self.payload,
        )
    }

    /// Whether the stored hash is the one the fields determine.
    pub open spec fn hash_ok(self) -> bool {
        self.hash == self.computed_hash()
    }

    /// Builds a block and derives its hash.
    pub fn new(
        height: u64,
        parent_hash: H256,
        timestamp: u64,
        difficulty: u64,
        nonce: u64,
        payload: Payload,
    ) -> (r: Block)
        ensures
            r.height == height,
            r.parent_hash == parent_hash,
            r.timestamp == timestamp,
            r.difficulty == difficulty,
            r.nonce == nonce,
            r.payload == payload,
            r.hash_ok(),
    {
        let hash = compute_hash(height, parent_hash, timestamp, difficulty, nonce, &payload);
        Block { height, parent_hash, timestamp, difficulty, nonce, payload, hash }
    }

    /// Recomputes the hash from the fields.
    pub fn recompute_hash(&self) -> (r: H256)
        ensures
            r == self.computed_hash(),
    {
        compute_hash(
            self.height,
            self.parent_hash,
            self.timestamp,
            self.difficulty,
            self.nonce,
            &self.payload,
        )
    }

    /// Whether the stored hash is the one the fields determine.
    pub fn has_valid_hash(&self) -> (r: bool)
        ensures
            r == self.hash_ok(),
    {
        let h = self.recompute_hash();
        h == self.hash
    }
}

/// Whether `h` meets `difficulty`.
pub fn meets_difficulty(h: H256, difficulty: u64) -> (r: bool)
    ensures
        r == meets(h, difficulty),
{
    difficulty > 0 && h.hi <= u128::MAX / (difficulty as u128)
}

#[verifier::rlimit(30)]
fn push_txs(out: &mut Vec<u8>, txs: &Vec<Transaction>)
    ensures
        final(out)@ == old(out)@ + encode_txs(txs@),
{
    let ghost start = out@;
    let mut k: usize = 0;
    assert(txs@.subrange(0, 0) =~= Seq::<Transaction>::empty());
    assert(out@ =~= start + encode_txs(txs@.subrange(0, 0)));
    while k < txs.len()
        invariant
            k <= txs@.len(),
            out@ == start + encode_txs(txs@.subrange(0, k as int)),
        decreases txs@.len() - k,
    {
        assert(txs@.subrange(0, k + 1).drop_last() =~= txs@.subrange(0, k as int));
        let t = txs[k];
        push_u64(out, t.from);
        push_u64(out, t.to);
        push_u64(out, t.amount);
        push_u64(out, t.nonce);
        k = k + 1;
        assert(out@ =~= start + encode_txs(txs@.subrange(0, k as int)));
    }
    assert(txs@.subrange(0, txs@.len() as int) =~= txs@);
}

fn encode_payload_into(out: &mut Vec<u8>, p: &Payload)
    ensures
        final(out)@ == old(out)@ + encode_payload(*p),
{
    let ghost start = out@;
    match p {
        Payload::Transactions(txs) => {
            out.push(0u8);
            push_txs(out, txs);
        },
        Payload::StateCommit { state_height, state_root } => {
            out.push(1u8);
            push_u64(out, *state_height);
            push_hash(out, *state_root);
        },
        Payload::Anchor(c) => {
            out.push(2u8);
            push_u64(out, c.easy_height);
            push_hash(out, c.easy_hash);
            push_hash(out, c.state_root);
        },
    }
    assert(out@ =~= start + encode_payload(*p));
}

fn compute_hash(
    height: u64,
    parent_hash: H256,
    timestamp: u64,
    difficulty: u64,
    nonce: u64,
    payload: &Payload,
) -> (r: H256)
    ensures
        r == header_hash(height, parent_hash, timestamp, difficulty, nonce, *payload),
{
    let mut out: Vec<u8> = Vec::new();
    push_u64(&mut out, height);
    push_hash(&mut out, parent_hash);
    push_u64(&mut out, timestamp);
    push_u64(&mut out, difficulty);
    push_u64(&mut out, nonce);
    encode_payload_into(&mut out, payload);
    reveal(encode_header);
    assert(out@ =~= encode_header(height, parent_hash, timestamp, difficulty, nonce, *payload));
    hash_slice(&out)
}

} // verus!
