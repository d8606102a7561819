//! Network endpoint of a peer, as plain values.

use vstd::prelude::*;

verus! {

/// A peer's socket endpoint: an IPv4 address held as one 32-bit value,
/// plus a port. Directory and listener sets are keyed by this type.
#[derive(Clone, Copy, PartialEq, Eq, Structural, PartialOrd, Ord, Hash, Debug)]
pub struct PeerAddress {
    pub ip: u32,
    pub port: u16,
}

impl PeerAddress {
    pub fn new(ip: u32, port: u16) -> (r: PeerAddress)
        ensures
            r == (PeerAddress { ip, port }),
    {
        PeerAddress { ip, port }
    }
}

} // verus!
