//! Identity of a directly-connected peer.
//!
//! The transport layer owns the peer's session and its outbound channel;
//! the routing core only needs a stable identity to order and compare
//! neighbours and to address outbound packets. The router therefore holds
//! peers as plain identity values, and hands packets destined for a peer
//! back to the caller.

use vstd::prelude::*;

verus! {

/// A directly-connected neighbour, identified by its overlay address.
#[derive(Clone, Copy, Debug, PartialEq, Eq, Structural)]
pub struct Peer {
    pub address: u128,
}

impl Peer {
    pub fn new(address: u128) -> (r: Peer)
        ensures
            r.address == address,
    {
        Peer { address }
    }

    /// The overlay address identifying this peer.
    pub fn overlay_ip(self) -> (r: u128)
        ensures
            r == self.address,
    {
        self.address
    }
}

} // verus!
