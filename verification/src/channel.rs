//! Handles on the queues that tie the core to its collaborators.
//!
//! The queues themselves belong to the `futures` crate; this module declares
//! the two sender types the core stores and wraps the only two calls the
//! core makes on them. Everything a queue decides at run time (whether the
//! consumer half is still alive) is outside this crate's control, so the
//! wrappers promise nothing about which outcome comes back.

use vstd::prelude::*;

verus! {

#[verifier::external_type_specification]
#[verifier::external_body]
#[verifier::reject_recursive_types(T)]
pub struct ExUnboundedSender<T>(futures::sync::mpsc::UnboundedSender<T>);

#[verifier::external_type_specification]
#[verifier::external_body]
#[verifier::reject_recursive_types(T)]
pub struct ExOneshotSender<T>(futures::sync::oneshot::Sender<T>);

/// Relies on futures::sync::mpsc::UnboundedSender::unbounded_send: the queue
/// is unbounded, so the call enqueues without ever blocking; it returns Err
/// exactly when the consumer half has been dropped, which only the run-time
/// state of the channel decides.
#[verifier::external_body]
pub(crate) fn unbounded_push<T>(tx: &futures::sync::mpsc::UnboundedSender<T>, value: T) -> bool {
    tx.unbounded_send(value).is_ok()
}

/// Relies on futures' `Clone` for `UnboundedSender`: the clone is a second
/// producer handle feeding the same queue as the original.
pub assume_specification<T>[ <futures::sync::mpsc::UnboundedSender<T> as core::clone::Clone>::clone ](
    tx: &futures::sync::mpsc::UnboundedSender<T>,
) -> futures::sync::mpsc::UnboundedSender<T>;

/// Relies on futures::sync::oneshot::Sender::send: consumes the sender and
/// hands the value to the receiver, waking it; it returns Err exactly when
/// the receiver was already dropped, in which case the value is discarded.
#[verifier::external_body]
pub(crate) fn oneshot_fire(tx: futures::sync::oneshot::Sender<()>) -> bool {
    tx.send(()).is_ok()
}

/// Transport write-handle of one established peer connection. Frames pushed
/// here are drained by the connection task that owns the socket.
pub struct PeerSender {
    tx: futures::sync::mpsc::UnboundedSender<Vec<u8>>,
}

impl PeerSender {
    pub fn new(tx: futures::sync::mpsc::UnboundedSender<Vec<u8>>) -> PeerSender {
        PeerSender { tx }
    }

    /// Push one wire frame at this peer. Never blocks; the result is false
    /// exactly when the connection task has gone away, which the caller
    /// treats as the peer having disconnected.
    pub fn push_frame(&self, frame: Vec<u8>) -> bool {
        unbounded_push(&self.tx, frame)
    }
}

/// One `(pool, action)` pair handed to the local delivery processor.
pub struct Delivery {
    pub pool: Vec<u8>,
    pub action: Vec<u8>,
}

/// Handle on the external processor that delivers an action to the local
/// subscribers of a session pool. Delivery is fire-and-forget: nothing comes
/// back, and a processor that is gone loses the pair silently.
pub struct Processor {
    tx: futures::sync::mpsc::UnboundedSender<Delivery>,
}

impl Processor {
    pub fn new(tx: futures::sync::mpsc::UnboundedSender<Delivery>) -> Processor {
        Processor { tx }
    }

    /// Forward one `(pool, action)` pair; never blocks, never reports back.
    pub fn deliver(&self, pool: Vec<u8>, action: Vec<u8>) {
        let _ = unbounded_push(&self.tx, Delivery { pool, action });
    }
}

/// Cancellation signal of one active listener: firing it must terminate
/// that listener's accept loop. The signal is consumed by firing, so it can
/// be raised at most once per handle.
pub struct ListenerShutter {
    tx: futures::sync::oneshot::Sender<()>,
}

impl ListenerShutter {
    pub fn new(tx: futures::sync::oneshot::Sender<()>) -> ListenerShutter {
        ListenerShutter { tx }
    }

    /// Raise the cancellation signal. A listener that already terminated on
    /// its own has dropped the receiving half; that case is ignored.
    pub fn fire(self) {
        let _ = oneshot_fire(self.tx);
    }
}

} // verus!
