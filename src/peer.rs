//! Which side opened a connection.
use vstd::prelude::*;

verus! {

/// `Client` when we connected to the peer, `Server` when the peer connected
/// to us.
#[derive(Clone, Copy, Debug, PartialEq, Eq, Structural)]
pub enum ConnectionType {
    Client,
    Server,
}

} // verus!
