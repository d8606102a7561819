//! The watcher: sole owner of the peer directory, and the handlers that the
//! three long-lived loops call — one per incoming event, one per outgoing
//! action, one per scheduler tick. Each handler runs to completion before
//! the next is taken, so every directory transition is serialized here.

use vstd::prelude::*;
use crate::addr::PeerAddress;
use crate::channel::Processor;
use crate::codec::encode_frame;
use crate::directory::{ConnectionState, PeerDirectory};
use crate::event::{OutgoingAction, ReplicationEvent};

verus! {

pub struct Watcher {
    pub directory: PeerDirectory,
    pub processor: Processor,
}

impl Watcher {
    pub open spec fn wf(&self) -> bool {
        self.directory.wf()
    }

    pub fn new(processor: Processor) -> (r: Watcher)
        ensures
            r.wf(),
            r.directory@ == Map::<PeerAddress, ConnectionState>::empty(),
    {
        Watcher { directory: PeerDirectory::new(), processor }
    }

    /// Handle one incoming event, fully, in the order the queue gives them.
    ///
    /// An `Attach` for address A always leaves `directory[A]` holding the
    /// event's sender, whatever A's prior state: the last attach wins, and a
    /// connection whose sender is overwritten is silently orphaned. A
    /// `RemoteAction` is forwarded to the processor, fire-and-forget, and
    /// leaves the directory alone. Nothing is reported to the caller.
    pub fn handle_incoming(&mut self, event: ReplicationEvent)
        requires
            old(self).wf(),
        ensures
            final(self).wf(),
            event matches ReplicationEvent::Attach { sender, addr, .. } ==> final(self).directory@
                == old(self).directory@.insert(addr, (ConnectionState::Connected { sender })),
            event matches ReplicationEvent::RemoteAction { .. } ==> final(self).directory@ == old(self).directory@,
    {
        match event {
            ReplicationEvent::Attach { sender, runtime_id: _, addr } => {
                self.directory.upsert(addr, ConnectionState::Connected { sender });
            },
            ReplicationEvent::RemoteAction { pool, action } => {
                self.processor.deliver(pool, action);
            },
        }
    }

    /// One scheduler tick: every `Unknown` peer becomes `Connecting`, and
    /// each of those addresses comes back exactly once so that the caller
    /// can issue one connect attempt per peer, outside the directory
    /// access. Peers in any other state are skipped.
    pub fn reconnect(&mut self) -> (dial: Vec<PeerAddress>)
        requires
            old(self).wf(),
        ensures
            final(self).wf(),
            final(self).directory@.dom() == old(self).directory@.dom(),
            forall|a: PeerAddress| #![auto]
                old(self).directory@.contains_key(a) ==> final(self).directory@[a] == (if old(self).directory@[a] is Unknown {
                    ConnectionState::Connecting
                } else {
                    old(self).directory@[a]
                }),
            forall|a: PeerAddress| #![auto]
                dial@.contains(a) <==> (old(self).directory@.contains_key(a) && old(self).directory@[a] is Unknown),
            forall|m: int, n: int| 0 <= m < n < dial@.len() ==> dial@[m] != dial@[n],
    {
        self.directory.begin_connects()
    }

    /// Handle one outgoing action: serialize it into its wire frame exactly
    /// once, then push that frame at every `Connected` peer. A peer whose
    /// transport refuses the frame becomes `Disconnected`; the addresses of
    /// exactly those peers come back, each once, and no error is raised —
    /// partial delivery is an accepted outcome of a broadcast round.
    pub fn handle_outgoing(&mut self, item: OutgoingAction) -> (failed: Vec<PeerAddress>)
        requires
            old(self).wf(),
        ensures
            final(self).wf(),
            final(self).directory@.dom() == old(self).directory@.dom(),
            forall|a: PeerAddress| #![auto]
                old(self).directory@.contains_key(a) && !(old(self).directory@[a] is Connected)
                    ==> final(self).directory@[a] == old(self).directory@[a],
            forall|a: PeerAddress| #![auto]
                old(self).directory@.contains_key(a) && old(self).directory@[a] is Connected ==> (
                final(self).directory@[a] == old(self).directory@[a] || final(self).directory@[a] is Disconnected),
            forall|a: PeerAddress| #![auto]
                failed@.contains(a) <==> (old(self).directory@.contains_key(a) && old(self).directory@[a] is Connected && final(self).directory@[a] is Disconnected),
            forall|m: int, n: int| 0 <= m < n < failed@.len() ==> failed@[m] != failed@[n],
    {
        let frame = encode_frame(&item.pool, &item.action);
        self.directory.broadcast(&frame)
    }
}

} // verus!
