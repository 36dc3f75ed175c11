//! State of the receiving side of the ping-pong exchange.
use vstd::prelude::*;

verus! {

#[derive(Clone, Copy, Debug, PartialEq, Eq, Structural)]
pub enum PingPongReceiverState {
    /// Ready to receive a `Ping`.
    Ready,
}

impl Default for PingPongReceiverState {
    fn default() -> (r: Self)
        ensures
            r == PingPongReceiverState::Ready,
    {
        PingPongReceiverState::Ready
    }
}

} // verus!
