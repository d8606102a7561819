//! The replication session: the watcher, the publish handle handed to
//! application code, and reconciliation of the configured listen and peer
//! addresses against the running state.

use vstd::prelude::*;
use crate::addr::PeerAddress;
use crate::channel::{unbounded_push, ListenerShutter, Processor};
use crate::codec::copy_bytes;
use crate::event::OutgoingAction;
use crate::watcher::Watcher;

verus! {

/// One active listener: the address it accepts on, and the signal that
/// terminates its accept loop.
pub struct ListenerEntry {
    pub addr: PeerAddress,
    pub shutter: ListenerShutter,
}

/// The replication part of the configuration: local endpoints to accept
/// peer connections on, and remote endpoints to dial.
pub struct ReplicationConfig {
    pub listen: Vec<PeerAddress>,
    pub peers: Vec<PeerAddress>,
}

pub open spec fn has_addr(s: Seq<ListenerEntry>, a: PeerAddress) -> bool {
    exists|i: int| 0 <= i < s.len() && (#[trigger] s[i]).addr == a
}

pub open spec fn distinct_listener_addrs(s: Seq<ListenerEntry>) -> bool {
    forall|i: int, j: int|
        #![trigger s[i].addr, s[j].addr]
        0 <= i < j < s.len() ==> s[i].addr != s[j].addr
}

/// Membership in a prefix grown by one element.
pub proof fn lemma_take_push_contains<T>(s: Seq<T>, j: int, x: T)
    requires
        0 <= j < s.len(),
    ensures
        s.take(j + 1).contains(x) <==> (s.take(j).contains(x) || x == s[j]),
{
    assert(s.take(j + 1) =~= s.take(j).push(s[j]));
    if s.take(j + 1).contains(x) {
        let i = choose|i: int| 0 <= i < s.take(j + 1).len() && #[trigger] s.take(j + 1)[i] == x;
        if i < j {
            assert(s.take(j)[i] == x);
        }
    }
    if s.take(j).contains(x) {
        let i = choose|i: int| 0 <= i < s.take(j).len() && #[trigger] s.take(j)[i] == x;
        assert(s.take(j + 1)[i] == x);
    }
    assert(s.take(j + 1)[j] == s[j]);
}

/// The addresses of `cfg_listen` with no entry in `shutters`, first
/// occurrence of each only, in configuration order.
pub open spec fn missing_addrs(cfg_listen: Seq<PeerAddress>, shutters: Seq<ListenerEntry>) -> Seq<
    PeerAddress,
>
    decreases cfg_listen.len(),
{
    if cfg_listen.len() == 0 {
        Seq::empty()
    } else {
        let head = missing_addrs(cfg_listen.drop_last(), shutters);
        if !has_addr(shutters, cfg_listen.last()) && !head.contains(cfg_listen.last()) {
            head + seq![cfg_listen.last()]
        } else {
            head
        }
    }
}

pub proof fn lemma_missing_contains(s: Seq<PeerAddress>, sh: Seq<ListenerEntry>, x: PeerAddress)
    ensures
        missing_addrs(s, sh).contains(x) <==> (s.contains(x) && !has_addr(sh, x)),
    decreases s.len(),
{
    if s.len() > 0 {
        lemma_missing_contains(s.drop_last(), sh, x);
        let head = missing_addrs(s.drop_last(), sh);
        let a = s.last();
        if missing_addrs(s, sh).contains(x) {
            let m = choose|m: int|
                0 <= m < missing_addrs(s, sh).len() && missing_addrs(s, sh)[m] == x;
            if m < head.len() {
                assert(head[m] == x);
                assert(head.contains(x));
                let i = choose|i: int| 0 <= i < s.drop_last().len() && s.drop_last()[i] == x;
                assert(s[i] == x);
                assert(s.contains(x));
            } else {
                assert(x == a);
                assert(s[s.len() - 1] == x);
                assert(s.contains(x));
            }
        }
        if s.contains(x) && !has_addr(sh, x) {
            let i = choose|i: int| 0 <= i < s.len() && s[i] == x;
            if i < s.len() - 1 {
                assert(s.drop_last()[i] == x);
                assert(s.drop_last().contains(x));
                assert(head.contains(x));
                let m = choose|m: int| 0 <= m < head.len() && head[m] == x;
                assert(missing_addrs(s, sh)[m] == x);
                assert(missing_addrs(s, sh).contains(x));
            } else {
                if head.contains(a) {
                    let m = choose|m: int| 0 <= m < head.len() && head[m] == x;
                    assert(missing_addrs(s, sh)[m] == x);
                    assert(missing_addrs(s, sh).contains(x));
                } else {
                    assert(missing_addrs(s, sh)[missing_addrs(s, sh).len() - 1] == x);
                    assert(missing_addrs(s, sh).contains(x));
                }
            }
        }
    }
}

pub proof fn lemma_missing_distinct(s: Seq<PeerAddress>, sh: Seq<ListenerEntry>)
    ensures
        forall|m: int, n: int|
            0 <= m < n < missing_addrs(s, sh).len() ==> missing_addrs(s, sh)[m] != missing_addrs(
                s,
                sh,
            )[n],
    decreases s.len(),
{
    if s.len() > 0 {
        lemma_missing_distinct(s.drop_last(), sh);
        let head = missing_addrs(s.drop_last(), sh);
        let a = s.last();
        assert forall|m: int, n: int|
            0 <= m < n < missing_addrs(s, sh).len() implies missing_addrs(s, sh)[m]
            != missing_addrs(s, sh)[n] by {
            if n >= head.len() {
                assert(!has_addr(sh, a) && !head.contains(a));
                assert(missing_addrs(s, sh)[n] == a);
                assert(missing_addrs(s, sh)[m] == head[m]);
                if head[m] == a {
                    assert(head.contains(a));
                }
            } else {
                assert(missing_addrs(s, sh)[m] == head[m]);
                assert(missing_addrs(s, sh)[n] == head[n]);
            }
        }
    }
}

/// Process-wide handle wrapping the outgoing queue's producer side.
/// Duplicating it is cheap and carries no state beyond the producer.
#[derive(Clone)]
pub struct RemoteSender {
    pub queue: futures::sync::mpsc::UnboundedSender<OutgoingAction>,
}

/// A publish handle bound to one session-pool name, sharing the outgoing
/// queue's producer with the `RemoteSender` it was derived from.
pub struct RemotePool {
    pub pool: Vec<u8>,
    pub queue: futures::sync::mpsc::UnboundedSender<OutgoingAction>,
}

impl RemoteSender {
    pub fn new(queue: futures::sync::mpsc::UnboundedSender<OutgoingAction>) -> RemoteSender {
        RemoteSender { queue }
    }

    /// Derive a handle bound to the session pool called `name`.
    pub fn pool(&self, name: &Vec<u8>) -> (r: RemotePool)
        ensures
            r.pool@ == name@,
    {
        RemotePool { pool: copy_bytes(name), queue: self.queue.clone() }
    }
}

impl RemotePool {
    /// Enqueue `(pool, action)` for broadcast. The queue is unbounded, so
    /// the call returns at once whatever the queue holds; if the consumer
    /// side is gone the action is silently dropped. Nothing of the eventual
    /// delivery is ever reported back: replication is a consistency aid and
    /// must not backpressure the publishing path.
    pub fn send(&self, action: Vec<u8>) {
        let item = OutgoingAction { pool: copy_bytes(&self.pool), action };
        let _ = unbounded_push(&self.queue, item);
    }
}

/// One replication session: the watcher owning the peer directory, the
/// sender handed to application code, this process's runtime identifier,
/// and one shutter per active listener.
pub struct ReplicationSession {
    pub watcher: Watcher,
    pub remote_sender: RemoteSender,
    pub runtime_id: u64,
    pub shutters: Vec<ListenerEntry>,
}

impl ReplicationSession {
    /// The addresses this session currently accepts peers on.
    pub open spec fn listeners(&self) -> Set<PeerAddress> {
        Set::new(|a: PeerAddress| has_addr(self.shutters@, a))
    }

    pub open spec fn wf(&self) -> bool {
        self.watcher.wf() && distinct_listener_addrs(self.shutters@)
    }

    /// A fresh session: empty directory, no listeners. The caller supplies
    /// the outgoing queue's producer (whose consumer the outgoing loop
    /// drains), the processor handle, and the per-process runtime
    /// identifier that tags this session's connect attempts.
    pub fn new(
        processor: Processor,
        outgoing: futures::sync::mpsc::UnboundedSender<OutgoingAction>,
        runtime_id: u64,
    ) -> (r: ReplicationSession)
        ensures
            r.wf(),
            r.watcher.directory@ == Map::<
                PeerAddress,
                crate::directory::ConnectionState,
            >::empty(),
            r.listeners() == Set::<PeerAddress>::empty(),
            r.runtime_id == runtime_id,
    {
        let r = ReplicationSession {
            watcher: Watcher::new(processor),
            remote_sender: RemoteSender::new(outgoing),
            runtime_id,
            shutters: Vec::new(),
        };
        proof {
            assert(r.listeners() =~= Set::<PeerAddress>::empty());
        }
        r
    }

    /// Whether `addr` currently has an active listener.
    pub fn has_listener(&self, addr: PeerAddress) -> (r: bool)
        ensures
            r == self.listeners().contains(addr),
    {
        let n = self.shutters.len();
        let mut j: usize = 0;
        while j < n
            invariant
                j <= n,
                n == self.shutters@.len(),
                forall|i: int| 0 <= i < j ==> (#[trigger] self.shutters@[i]).addr != addr,
            decreases n - j,
        {
            if self.shutters[j].addr == addr {
                return true;
            }
            j += 1;
        }
        false
    }

    /// Record a fresh listener for `addr`. The caller binds first and calls
    /// this only on success, and only for an address with no active
    /// listener, keeping handles and active addresses one-to-one.
    pub fn register_listener(&mut self, addr: PeerAddress, shutter: ListenerShutter)
        requires
            old(self).wf(),
            !old(self).listeners().contains(addr),
        ensures
            final(self).wf(),
            forall|a: PeerAddress| #![auto]
                final(self).listeners().contains(a) <==> (old(self).listeners().contains(a) || a
                    == addr),
            final(self).watcher == old(self).watcher,
    {
        let ghost shutters0 = self.shutters@;
        self.shutters.push(ListenerEntry { addr, shutter });
        proof {
            assert forall|a: PeerAddress| #![auto]
                has_addr(self.shutters@, a) <==> (has_addr(shutters0, a) || a == addr) by {
                if has_addr(self.shutters@, a) {
                    let i = choose|i: int|
                        0 <= i < self.shutters@.len() && (#[trigger] self.shutters@[i]).addr == a;
                    if i < shutters0.len() {
                        assert(shutters0[i].addr == a);
                    }
                }
                if has_addr(shutters0, a) {
                    let i = choose|i: int|
                        0 <= i < shutters0.len() && (#[trigger] shutters0[i]).addr == a;
                    assert(self.shutters@[i].addr == a);
                }
                assert(self.shutters@[self.shutters@.len() - 1].addr == addr);
            }
            assert forall|i: int, j: int|
                0 <= i < j < self.shutters@.len() implies #[trigger] self.shutters@[i].addr
                != #[trigger] self.shutters@[j].addr by {
                if j < shutters0.len() {
                } else {
                    assert(shutters0[i].addr == self.shutters@[i].addr);
                    assert(has_addr(shutters0, self.shutters@[i].addr));
                }
            }
        }
    }

    /// Reconcile the session against a new configuration.
    ///
    /// Listeners whose address is no longer configured get exactly one
    /// cancellation signal — firing consumes the handle — and leave the
    /// active set. The addresses that come back are exactly the configured
    /// ones with no active listener, each once: the caller attempts to bind
    /// each, outside this call, and registers the handles that succeed; an
    /// address that fails to bind is simply retried on the next update.
    /// Configured peers are folded into the directory as `Unknown` when
    /// absent; existing entries, and entries no longer configured, are left
    /// exactly as they are.
    #[verifier::loop_isolation(false)]
    pub fn update(&mut self, cfg: &ReplicationConfig) -> (to_listen: Vec<PeerAddress>)
        requires
            old(self).wf(),
        ensures
            final(self).wf(),
            forall|a: PeerAddress| #![auto]
                final(self).listeners().contains(a) <==> (old(self).listeners().contains(a)
                    && cfg.listen@.contains(a)),
            forall|a: PeerAddress| #![auto]
                to_listen@.contains(a) <==> (cfg.listen@.contains(a) && !old(self).listeners().contains(a)),
            forall|m: int, n: int| 0 <= m < n < to_listen@.len() ==> to_listen@[m] != to_listen@[n],
            forall|a: PeerAddress| #![auto]
                final(self).watcher.directory@.contains_key(a) <==> (old(self).watcher.directory@.contains_key(a) || cfg.peers@.contains(a)),
            forall|a: PeerAddress| #![auto]
                old(self).watcher.directory@.contains_key(a) ==> final(self).watcher.directory@[a]
                    == old(self).watcher.directory@[a],
            forall|a: PeerAddress| #![auto]
                !old(self).watcher.directory@.contains_key(a) && cfg.peers@.contains(a) ==> final(self).watcher.directory@[a] is Unknown,
            final(self).runtime_id == old(self).runtime_id,
    {
        let ghost old_shutters = self.shutters@;

        // Retire the listeners whose address is gone from the configuration.
        let mut kept: Vec<ListenerEntry> = Vec::new();
        proof {
            assert(old_shutters.take(old_shutters.len() as int) =~= old_shutters);
        }
        while self.shutters.len() > 0
            invariant
                distinct_listener_addrs(old_shutters),
                self.shutters@.len() <= old_shutters.len(),
                self.shutters@ == old_shutters.take(self.shutters@.len() as int),
                self.watcher == old(self).watcher,
                self.remote_sender == old(self).remote_sender,
                self.runtime_id == old(self).runtime_id,
                forall|k: int|
                    0 <= k < kept@.len() ==> cfg.listen@.contains(
                        (#[trigger] kept@[k]).addr,
                    ),
                forall|a: PeerAddress| #![auto]
                    has_addr(kept@, a) <==> (has_addr(
                        old_shutters.skip(self.shutters@.len() as int),
                        a,
                    ) && cfg.listen@.contains(a)),
                distinct_listener_addrs(kept@),
            decreases self.shutters@.len(),
        {
            let ghost remaining0 = self.shutters@;
            let ghost m = self.shutters@.len() as int;
            let popped = self.shutters.pop();
            match popped {
                None => {},
                Some(entry) => {
                    proof {
                        assert(remaining0 == old_shutters.take(m));
                        assert(entry == old_shutters[m - 1]);
                        assert(self.shutters@ =~= old_shutters.take(m - 1));
                        assert forall|a: PeerAddress| #![auto]
                            has_addr(old_shutters.skip(m - 1), a) <==> (a == entry.addr || has_addr(
                            old_shutters.skip(m),
                            a,
                        )) by {
                            if has_addr(old_shutters.skip(m - 1), a) {
                                let i = choose|i: int|
                                    0 <= i < old_shutters.skip(m - 1).len() && (
                                    #[trigger] old_shutters.skip(m - 1)[i]).addr == a;
                                if i > 0 {
                                    assert(old_shutters.skip(m)[i - 1].addr == a);
                                }
                            }
                            if has_addr(old_shutters.skip(m), a) {
                                let i = choose|i: int|
                                    0 <= i < old_shutters.skip(m).len() && (
                                    #[trigger] old_shutters.skip(m)[i]).addr == a;
                                assert(old_shutters.skip(m - 1)[i + 1].addr == a);
                            }
                            assert(old_shutters.skip(m - 1)[0].addr == entry.addr);
                        }
                    }
                    let is_configured = contains_addr(&cfg.listen, entry.addr);
                    if is_configured {
                        let ghost kept0 = kept@;
                        proof {
                            if has_addr(kept0, entry.addr) {
                                let i = choose|i: int|
                                    0 <= i < kept0.len() && (#[trigger] kept0[i]).addr
                                        == entry.addr;
                                let j = choose|j: int|
                                    0 <= j < old_shutters.skip(m).len() && (
                                    #[trigger] old_shutters.skip(m)[j]).addr == entry.addr;
                                assert(old_shutters[m + j].addr == old_shutters[m - 1].addr);
                            }
                        }
                        kept.push(entry);
                        proof {
                            assert forall|a: PeerAddress| #![auto]
                                has_addr(kept@, a) <==> (has_addr(kept0, a) || a
                                    == entry.addr) by {
                                if has_addr(kept@, a) {
                                    let i = choose|i: int|
                                        0 <= i < kept@.len() && (#[trigger] kept@[i]).addr == a;
                                    if i < kept0.len() {
                                        assert(kept0[i].addr == a);
                                    }
                                }
                                if has_addr(kept0, a) {
                                    let i = choose|i: int|
                                        0 <= i < kept0.len() && (#[trigger] kept0[i]).addr == a;
                                    assert(kept@[i].addr == a);
                                }
                                assert(kept@[kept@.len() - 1].addr == entry.addr);
                            }
                            assert forall|i: int, j: int|
                                0 <= i < j < kept@.len() implies #[trigger] kept@[i].addr
                                != #[trigger] kept@[j].addr by {
                                if j == kept@.len() - 1 {
                                    assert(kept0[i].addr == kept@[i].addr);
                                    assert(has_addr(kept0, kept@[i].addr));
                                }
                            }
                            assert(self.shutters@.len() as int == m - 1);
                            assert forall|a: PeerAddress| #![auto]
                                has_addr(kept@, a) <==> (has_addr(old_shutters.skip(m - 1), a)
                                    && cfg.listen@.contains(a)) by {
                                assert(has_addr(kept@, a) <==> (has_addr(kept0, a) || a
                                    == entry.addr));
                                assert(has_addr(kept0, a) <==> (has_addr(old_shutters.skip(m), a)
                                    && cfg.listen@.contains(a)));
                                assert(has_addr(old_shutters.skip(m - 1), a) <==> (a == entry.addr
                                    || has_addr(old_shutters.skip(m), a)));
                            }
                        }
                    } else {
                        proof {
                            if has_addr(kept@, entry.addr) {
                                let i = choose|i: int|
                                    0 <= i < kept@.len() && (#[trigger] kept@[i]).addr
                                        == entry.addr;
                            }
                            assert(self.shutters@.len() as int == m - 1);
                            assert forall|a: PeerAddress| #![auto]
                                has_addr(kept@, a) <==> (has_addr(old_shutters.skip(m - 1), a)
                                    && cfg.listen@.contains(a)) by {
                                assert(has_addr(kept@, a) <==> (has_addr(old_shutters.skip(m), a)
                                    && cfg.listen@.contains(a)));
                                assert(has_addr(old_shutters.skip(m - 1), a) <==> (a == entry.addr
                                    || has_addr(old_shutters.skip(m), a)));
                            }
                        }
                        entry.shutter.fire();
                    }
                },
            }
        }
        proof {
            assert(self.shutters@.len() == 0);
            assert(old_shutters.skip(0) =~= old_shutters);
        }
        self.shutters = kept;

        // Collect the configured addresses that still need a listener.
        let mut to_listen: Vec<PeerAddress> = Vec::new();
        let nl = cfg.listen.len();
        let mut j: usize = 0;
        let ghost kept_final = self.shutters@;
        while j < nl
            invariant
                j <= nl,
                nl == cfg.listen@.len(),
                self.wf(),
                self.watcher == old(self).watcher,
                self.remote_sender == old(self).remote_sender,
                self.runtime_id == old(self).runtime_id,
                self.shutters@ == kept_final,
                forall|a: PeerAddress| #![auto]
                    has_addr(kept_final, a) <==> (has_addr(old_shutters, a) && cfg.listen@.contains(
                        a,
                    )),
                to_listen@ == missing_addrs(cfg.listen@.take(j as int), old_shutters),
            decreases nl - j,
        {
            let a = cfg.listen[j];
            proof {
                assert(cfg.listen@.take(j + 1 as int).drop_last() =~= cfg.listen@.take(j as int));
                assert(cfg.listen@.take(j + 1 as int).last() == a);
                assert(cfg.listen@[j as int] == a);
                assert(cfg.listen@.contains(a));
            }
            let already = contains_addr(&to_listen, a);
            let active = self.has_listener(a);
            proof {
                if active {
                    assert(has_addr(kept_final, a));
                    assert(has_addr(old_shutters, a));
                }
                if !active && has_addr(old_shutters, a) {
                    assert(has_addr(kept_final, a));
                }
            }
            if !already && !active {
                to_listen.push(a);
                proof {
                    assert(to_listen@ =~= missing_addrs(
                        cfg.listen@.take(j + 1 as int),
                        old_shutters,
                    ));
                }
            } else {
                proof {
                    assert(to_listen@ =~= missing_addrs(
                        cfg.listen@.take(j + 1 as int),
                        old_shutters,
                    ));
                }
            }
            j += 1;
        }
        proof {
            assert(cfg.listen@.take(nl as int) =~= cfg.listen@);
            lemma_missing_distinct(cfg.listen@, old_shutters);
            assert forall|x: PeerAddress| #![auto]
                to_listen@.contains(x) <==> (cfg.listen@.contains(x) && !has_addr(
                old_shutters,
                x,
            )) by {
                lemma_missing_contains(cfg.listen@, old_shutters, x);
            }
        }

        // Fold the configured peers into the directory as Unknown if absent.
        let ghost old_dir = self.watcher.directory@;
        let np = cfg.peers.len();
        let mut p: usize = 0;
        let ghost listen_final = self.shutters@;
        while p < np
            invariant
                p <= np,
                np == cfg.peers@.len(),
                self.watcher.wf(),
                self.shutters@ == listen_final,
                self.remote_sender == old(self).remote_sender,
                self.runtime_id == old(self).runtime_id,
                forall|x: PeerAddress| #![auto]
                    self.watcher.directory@.contains_key(x) <==> (old_dir.contains_key(x)
                        || cfg.peers@.take(p as int).contains(x)),
                forall|x: PeerAddress| #![auto]
                    old_dir.contains_key(x) ==> self.watcher.directory@[x] == old_dir[x],
                forall|x: PeerAddress| #![auto]
                    self.watcher.directory@.contains_key(x) && !old_dir.contains_key(x)
                        ==> self.watcher.directory@[x] is Unknown,
            decreases np - p,
        {
            let a = cfg.peers[p];
            let ghost dir0 = self.watcher.directory@;
            self.watcher.directory.ensure_present(a);
            proof {
                let t0 = cfg.peers@.take(p as int);
                let t1 = cfg.peers@.take(p + 1 as int);
                assert forall|x: PeerAddress| #![auto]
                    self.watcher.directory@.contains_key(x) <==> (old_dir.contains_key(x)
                        || t1.contains(x)) by {
                    assert(dir0.contains_key(x) <==> (old_dir.contains_key(x) || t0.contains(x)));
                    lemma_take_push_contains(cfg.peers@, p as int, x);
                    assert(cfg.peers@[p as int] == a);
                }
            }
            p += 1;
        }
        proof {
            assert(cfg.peers@.take(np as int) =~= cfg.peers@);
        }

        proof {
            assert forall|a: PeerAddress| #![auto]
                to_listen@.contains(a) <==> (cfg.listen@.contains(a) && !old(
                self,
            ).listeners().contains(a)) by {
                assert(old(self).listeners().contains(a) == has_addr(old_shutters, a));
                lemma_missing_contains(cfg.listen@, old_shutters, a);
            }
        }
        to_listen
    }
}

/// Whether `list` holds `a`, by linear scan.
fn contains_addr(list: &Vec<PeerAddress>, a: PeerAddress) -> (r: bool)
    ensures
        r == list@.contains(a),
{
    let n = list.len();
    let mut j: usize = 0;
    while j < n
        invariant
            j <= n,
            n == list@.len(),
            forall|i: int| 0 <= i < j ==> list@[i] != a,
        decreases n - j,
    {
        if list[j] == a {
            return true;
        }
        j += 1;
    }
    proof {
        if list@.contains(a) {
            let i = choose|i: int| 0 <= i < list@.len() && list@[i] == a;
        }
    }
    false
}

} // verus!
