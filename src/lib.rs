//! Consensus and ledger core of a proof-of-work node: a generic fork-aware
//! block store shared by a state chain, an easy chain and a hard chain, and
//! the aggregate view derived from the three.

pub mod hash;
pub mod state;
pub mod block;
pub mod chain;
pub mod pow_state;
pub mod mempool;
pub mod peer;
pub mod ping_pong;
pub mod graph;
pub mod packet;
