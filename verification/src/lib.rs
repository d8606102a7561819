//! Replication core of a multi-node chat server: a directory of peer
//! connection states, the transition rules that govern it, routing of
//! incoming replication events, fan-out of outgoing actions to connected
//! peers, reconciliation of configured listen addresses, and the publish
//! handles handed to application code.
//!
//! Transport (connect/accept/read/write), the timer, and the local delivery
//! processor are external collaborators: they live behind channel handles,
//! and the loops that drain the queues run outside this crate.

pub mod addr;
pub mod channel;
pub mod codec;
pub mod directory;
pub mod event;
pub mod session;
pub mod watcher;
