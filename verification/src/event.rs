//! Queue element types of the replication core.

use vstd::prelude::*;
use crate::addr::PeerAddress;
use crate::channel::PeerSender;

verus! {

/// One element of the incoming queue, fed by the transport layer.
///
/// `Attach` is a purely local signal: the transport finished a handshake
/// (inbound or outbound) and hands over the connection's write-handle.
/// `RemoteAction` carries a replicated action received from some peer.
pub enum ReplicationEvent {
    Attach { sender: PeerSender, runtime_id: u64, addr: PeerAddress },
    RemoteAction { pool: Vec<u8>, action: Vec<u8> },
}

/// One element of the outgoing queue, fed by application publishers.
///
/// The outgoing queue can hold nothing but this payload, so only
/// replicable actions ever reach the wire; attach signals cannot.
pub struct OutgoingAction {
    pub pool: Vec<u8>,
    pub action: Vec<u8>,
}

} // verus!
