//! The peer directory: a mapping from peer address to connection state.
//!
//! The directory is held as a vector of entries with pairwise-distinct
//! addresses; its view is the finite map those entries spell out. All state
//! transitions of the replication core go through the operations here.

use vstd::prelude::*;
use crate::addr::PeerAddress;
use crate::channel::PeerSender;
use crate::codec::copy_bytes;

verus! {

/// Connection state of one peer.
///
/// `Unknown` is eligible for an outbound connect; `Connecting` marks an
/// attempt in flight; `Connected` holds the transport write-handle;
/// `Disconnected` is terminal in this design (no automatic return to
/// `Unknown`).
pub enum ConnectionState {
    Unknown,
    Connecting,
    Connected { sender: PeerSender },
    Disconnected,
}

/// The same states with the write-handle stripped: what a caller outside
/// the core can observe of an entry.
#[derive(Clone, Copy, PartialEq, Eq, Structural, Debug)]
pub enum StateKind {
    Unknown,
    Connecting,
    Connected,
    Disconnected,
}

/// The observable kind of a connection state.
pub open spec fn kind_of(s: ConnectionState) -> StateKind {
    match s {
        ConnectionState::Unknown => StateKind::Unknown,
        ConnectionState::Connecting => StateKind::Connecting,
        ConnectionState::Connected { .. } => StateKind::Connected,
        ConnectionState::Disconnected => StateKind::Disconnected,
    }
}

pub struct PeerEntry {
    pub addr: PeerAddress,
    pub state: ConnectionState,
}

/// The map a sequence of entries spells out; later entries win, though
/// under `distinct_addrs` there is nothing to win over.
pub open spec fn dir_map_of(s: Seq<PeerEntry>) -> Map<PeerAddress, ConnectionState>
    decreases s.len(),
{
    if s.len() == 0 {
        Map::empty()
    } else {
        dir_map_of(s.drop_last()).insert(s.last().addr, s.last().state)
    }
}

pub open spec fn distinct_addrs(s: Seq<PeerEntry>) -> bool {
    forall|i: int, j: int|
        #![trigger s[i].addr, s[j].addr]
        0 <= i < j < s.len() ==> s[i].addr != s[j].addr
}

pub proof fn lemma_dir_map_dom(s: Seq<PeerEntry>, a: PeerAddress)
    ensures
        dir_map_of(s).contains_key(a) <==> exists|i: int|
            0 <= i < s.len() && #[trigger] s[i].addr == a,
    decreases s.len(),
{
    if s.len() > 0 {
        lemma_dir_map_dom(s.drop_last(), a);
        if dir_map_of(s).contains_key(a) && a != s.last().addr {
            let i = choose|i: int| 0 <= i < s.drop_last().len() && #[trigger] s.drop_last()[i].addr == a;
            assert(s[i].addr == a);
        }
        if exists|i: int| 0 <= i < s.len() && #[trigger] s[i].addr == a {
            let i = choose|i: int| 0 <= i < s.len() && #[trigger] s[i].addr == a;
            if i < s.len() - 1 {
                assert(s.drop_last()[i].addr == a);
            }
        }
    }
}

pub proof fn lemma_dir_map_at(s: Seq<PeerEntry>, i: int)
    requires
        distinct_addrs(s),
        0 <= i < s.len(),
    ensures
        dir_map_of(s).contains_key(s[i].addr),
        dir_map_of(s)[s[i].addr] == s[i].state,
    decreases s.len(),
{
    if i < s.len() - 1 {
        assert(distinct_addrs(s.drop_last()));
        lemma_dir_map_at(s.drop_last(), i);
        assert(s.drop_last()[i] == s[i]);
        assert(s[i].addr != s.last().addr);
    }
}

pub proof fn lemma_dir_map_update(s: Seq<PeerEntry>, i: int, e: PeerEntry)
    requires
        distinct_addrs(s),
        0 <= i < s.len(),
        e.addr == s[i].addr,
    ensures
        dir_map_of(s.update(i, e)) == dir_map_of(s).insert(e.addr, e.state),
    decreases s.len(),
{
    if i == s.len() - 1 {
        assert(s.update(i, e).drop_last() =~= s.drop_last());
        assert(s.update(i, e).last() == e);
        assert(dir_map_of(s.drop_last()).insert(e.addr, e.state) =~= dir_map_of(
            s.drop_last(),
        ).insert(s.last().addr, s.last().state).insert(e.addr, e.state));
    } else {
        assert(distinct_addrs(s.drop_last()));
        assert(s.drop_last()[i] == s[i]);
        lemma_dir_map_update(s.drop_last(), i, e);
        assert(s.update(i, e).drop_last() =~= s.drop_last().update(i, e));
        assert(s.update(i, e).last() == s.last());
        assert(e.addr != s.last().addr);
        assert(dir_map_of(s.drop_last()).insert(e.addr, e.state).insert(s.last().addr, s.last().state)
            =~= dir_map_of(s.drop_last()).insert(s.last().addr, s.last().state).insert(e.addr, e.state));
    }
}

pub proof fn lemma_dir_map_push(s: Seq<PeerEntry>, e: PeerEntry)
    ensures
        dir_map_of(s.push(e)) == dir_map_of(s).insert(e.addr, e.state),
{
    assert(s.push(e).drop_last() =~= s);
    assert(s.push(e).last() == e);
}

/// The addresses of the `Unknown` entries of `s`, in entry order.
pub open spec fn unknown_addrs(s: Seq<PeerEntry>) -> Seq<PeerAddress>
    decreases s.len(),
{
    if s.len() == 0 {
        Seq::empty()
    } else {
        unknown_addrs(s.drop_last()) + (if s.last().state is Unknown {
            seq![s.last().addr]
        } else {
            Seq::empty()
        })
    }
}

pub proof fn lemma_unknown_addrs_contains(s: Seq<PeerEntry>, a: PeerAddress)
    ensures
        unknown_addrs(s).contains(a) <==> exists|i: int|
            0 <= i < s.len() && (#[trigger] s[i]).addr == a && s[i].state is Unknown,
    decreases s.len(),
{
    if s.len() > 0 {
        lemma_unknown_addrs_contains(s.drop_last(), a);
        let head = unknown_addrs(s.drop_last());
        if unknown_addrs(s).contains(a) {
            let m = choose|m: int| 0 <= m < unknown_addrs(s).len() && unknown_addrs(s)[m] == a;
            if m < head.len() {
                assert(head[m] == a);
                assert(head.contains(a));
                let i = choose|i: int|
                    0 <= i < s.drop_last().len() && (#[trigger] s.drop_last()[i]).addr == a
                        && s.drop_last()[i].state is Unknown;
                assert(s[i].addr == a && s[i].state is Unknown);
            } else {
                assert(s.last().state is Unknown && s.last().addr == a);
                assert(s[s.len() - 1].addr == a && s[s.len() - 1].state is Unknown);
            }
        }
        if exists|i: int| 0 <= i < s.len() && (#[trigger] s[i]).addr == a && s[i].state is Unknown {
            let i = choose|i: int|
                0 <= i < s.len() && (#[trigger] s[i]).addr == a && s[i].state is Unknown;
            if i < s.len() - 1 {
                assert(s.drop_last()[i].addr == a && s.drop_last()[i].state is Unknown);
                assert(head.contains(a));
                let m = choose|m: int| 0 <= m < head.len() && head[m] == a;
                assert(unknown_addrs(s)[m] == a);
            } else {
                assert(unknown_addrs(s)[unknown_addrs(s).len() - 1] == a);
            }
        }
    }
}

pub proof fn lemma_unknown_addrs_distinct(s: Seq<PeerEntry>)
    requires
        distinct_addrs(s),
    ensures
        forall|m: int, n: int|
            0 <= m < n < unknown_addrs(s).len() ==> unknown_addrs(s)[m] != unknown_addrs(s)[n],
    decreases s.len(),
{
    if s.len() > 0 {
        assert(distinct_addrs(s.drop_last()));
        lemma_unknown_addrs_distinct(s.drop_last());
        let head = unknown_addrs(s.drop_last());
        assert forall|m: int, n: int|
            0 <= m < n < unknown_addrs(s).len() implies unknown_addrs(s)[m] != unknown_addrs(
            s,
        )[n] by {
            if n < head.len() {
                assert(unknown_addrs(s)[m] == head[m] && unknown_addrs(s)[n] == head[n]);
            } else {
                assert(s.last().state is Unknown);
                assert(unknown_addrs(s)[n] == s.last().addr);
                assert(head[m] == unknown_addrs(s)[m]);
                assert(head.contains(head[m]));
                lemma_unknown_addrs_contains(s.drop_last(), head[m]);
                let i = choose|i: int|
                    0 <= i < s.drop_last().len() && (#[trigger] s.drop_last()[i]).addr == head[m]
                        && s.drop_last()[i].state is Unknown;
                assert(s[i].addr == head[m]);
                assert(s[i].addr != s.last().addr);
            }
        }
    }
}

/// Mapping from peer address to connection state; exclusively owned by the
/// watcher, so every transition is serialized through `&mut` access here.
pub struct PeerDirectory {
    pub entries: Vec<PeerEntry>,
}

impl View for PeerDirectory {
    type V = Map<PeerAddress, ConnectionState>;

    open spec fn view(&self) -> Map<PeerAddress, ConnectionState> {
        dir_map_of(self.entries@)
    }
}

impl PeerDirectory {
    /// Directory keys are unique: no address appears in two entries.
    pub open spec fn wf(&self) -> bool {
        distinct_addrs(self.entries@)
    }

    pub fn new() -> (r: PeerDirectory)
        ensures
            r.wf(),
            r@ == Map::<PeerAddress, ConnectionState>::empty(),
    {
        PeerDirectory { entries: Vec::new() }
    }

    /// Index of the entry for `addr`, if the address is present.
    fn find(&self, addr: PeerAddress) -> (r: Option<usize>)
        ensures
            match r {
                Some(i) => i < self.entries@.len() && self.entries@[i as int].addr == addr,
                None => forall|i: int|
                    0 <= i < self.entries@.len() ==> #[trigger] self.entries@[i].addr != addr,
            },
    {
        let n = self.entries.len();
        let mut j: usize = 0;
        while j < n
            invariant
                j <= n,
                n == self.entries@.len(),
                forall|i: int| 0 <= i < j ==> #[trigger] self.entries@[i].addr != addr,
            decreases n - j,
        {
            if self.entries[j].addr == addr {
                return Some(j);
            }
            j += 1;
        }
        None
    }

    /// Whether `addr` has an entry, and of which observable kind.
    pub fn kind(&self, addr: PeerAddress) -> (r: Option<StateKind>)
        requires
            self.wf(),
        ensures
            match r {
                Some(k) => self@.contains_key(addr) && k == kind_of(self@[addr]),
                None => !self@.contains_key(addr),
            },
    {
        proof {
            lemma_dir_map_dom(self.entries@, addr);
        }
        match self.find(addr) {
            Some(i) => {
                proof {
                    lemma_dir_map_at(self.entries@, i as int);
                }
                let k = match &self.entries[i].state {
                    ConnectionState::Unknown => StateKind::Unknown,
                    ConnectionState::Connecting => StateKind::Connecting,
                    ConnectionState::Connected { .. } => StateKind::Connected,
                    ConnectionState::Disconnected => StateKind::Disconnected,
                };
                Some(k)
            },
            None => None,
        }
    }

    /// Insert or overwrite the entry at `addr`: the unconditional
    /// last-writer-wins update every transition reduces to.
    pub fn upsert(&mut self, addr: PeerAddress, state: ConnectionState)
        requires
            old(self).wf(),
        ensures
            final(self).wf(),
            final(self)@ == old(self)@.insert(addr, state),
    {
        let ghost old_entries = self.entries@;
        match self.find(addr) {
            Some(i) => {
                let e = PeerEntry { addr, state };
                proof {
                    lemma_dir_map_update(old_entries, i as int, e);
                }
                self.entries[i] = e;
                proof {
                    assert(forall|k: int|
                        0 <= k < self.entries@.len() ==> #[trigger] self.entries@[k].addr
                            == old_entries[k].addr);
                }
            },
            None => {
                proof {
                    lemma_dir_map_push(old_entries, PeerEntry { addr, state });
                }
                self.entries.push(PeerEntry { addr, state });
            },
        }
    }

    /// One scheduler tick: every `Unknown` peer becomes `Connecting`, and
    /// its address is returned exactly once, so that the caller can issue
    /// one connect attempt per peer. Entries in any other state are left
    /// alone, so a tick never duplicates an attempt already in flight.
    pub fn begin_connects(&mut self) -> (dial: Vec<PeerAddress>)
        requires
            old(self).wf(),
        ensures
            final(self).wf(),
            final(self)@.dom() == old(self)@.dom(),
            forall|a: PeerAddress| #![auto]
                old(self)@.contains_key(a) ==> final(self)@[a] == (if old(self)@[a] is Unknown {
                    ConnectionState::Connecting
                } else {
                    old(self)@[a]
                }),
            forall|a: PeerAddress| #![auto]
                dial@.contains(a) <==> (old(self)@.contains_key(a) && old(self)@[a] is Unknown),
            forall|m: int, n: int| 0 <= m < n < dial@.len() ==> dial@[m] != dial@[n],
    {
        let ghost old_entries = self.entries@;
        let mut dial: Vec<PeerAddress> = Vec::new();
        let n = self.entries.len();
        let mut i: usize = 0;
        while i < n
            invariant
                i <= n,
                n == self.entries@.len(),
                n == old_entries.len(),
                distinct_addrs(old_entries),
                forall|k: int|
                    0 <= k < n ==> (#[trigger] self.entries@[k]).addr == old_entries[k].addr,
                forall|k: int|
                    0 <= k < i ==> (#[trigger] self.entries@[k]).state == (
                    if old_entries[k].state is Unknown {
                        ConnectionState::Connecting
                    } else {
                        old_entries[k].state
                    }),
                forall|k: int| i <= k < n ==> #[trigger] self.entries@[k] == old_entries[k],
                dial@ == unknown_addrs(old_entries.take(i as int)),
            decreases n - i,
        {
            proof {
                assert(old_entries.take(i + 1 as int).drop_last() =~= old_entries.take(i as int));
                assert(old_entries.take(i + 1 as int).last() == old_entries[i as int]);
            }
            let is_unknown = match &self.entries[i].state {
                ConnectionState::Unknown => true,
                _ => false,
            };
            if is_unknown {
                let a = self.entries[i].addr;
                self.entries[i] = PeerEntry { addr: a, state: ConnectionState::Connecting };
                dial.push(a);
                proof {
                    assert(dial@ =~= unknown_addrs(old_entries.take(i + 1 as int)));
                }
            } else {
                proof {
                    assert(dial@ =~= unknown_addrs(old_entries.take(i + 1 as int)));
                }
            }
            i += 1;
        }
        proof {
            assert(old_entries.take(n as int) =~= old_entries);
            assert(dial@ == unknown_addrs(old_entries));
            lemma_unknown_addrs_distinct(old_entries);
            assert(distinct_addrs(self.entries@));
            assert forall|a: PeerAddress|
                dir_map_of(self.entries@).contains_key(a) == dir_map_of(old_entries).contains_key(
                    a,
                ) by {
                lemma_dir_map_dom(self.entries@, a);
                lemma_dir_map_dom(old_entries, a);
                if dir_map_of(self.entries@).contains_key(a) {
                    let k = choose|k: int|
                        0 <= k < self.entries@.len() && #[trigger] self.entries@[k].addr == a;
                    assert(old_entries[k].addr == a);
                }
                if dir_map_of(old_entries).contains_key(a) {
                    let k = choose|k: int|
                        0 <= k < old_entries.len() && #[trigger] old_entries[k].addr == a;
                    assert(self.entries@[k].addr == a);
                }
            }
            assert(dir_map_of(self.entries@).dom() =~= dir_map_of(old_entries).dom());
            assert forall|a: PeerAddress| dir_map_of(old_entries).contains_key(a) implies dir_map_of(
                self.entries@,
            )[a] == (if dir_map_of(old_entries)[a] is Unknown {
                ConnectionState::Connecting
            } else {
                dir_map_of(old_entries)[a]
            }) by {
                lemma_dir_map_dom(old_entries, a);
                let k = choose|k: int|
                    0 <= k < old_entries.len() && (#[trigger] old_entries[k]).addr == a;
                lemma_dir_map_at(old_entries, k);
                lemma_dir_map_at(self.entries@, k);
            }
            assert forall|a: PeerAddress| #![auto]
                dial@.contains(a) implies (dir_map_of(old_entries).contains_key(a) && dir_map_of(
                old_entries,
            )[a] is Unknown) by {
                lemma_unknown_addrs_contains(old_entries, a);
                let k = choose|k: int|
                    0 <= k < old_entries.len() && (#[trigger] old_entries[k]).addr == a
                        && old_entries[k].state is Unknown;
                lemma_dir_map_at(old_entries, k);
            }
            assert forall|a: PeerAddress| #![auto]
                (dir_map_of(old_entries).contains_key(a) && dir_map_of(old_entries)[a] is Unknown)
                implies dial@.contains(a) by {
                lemma_dir_map_dom(old_entries, a);
                let k = choose|k: int|
                    0 <= k < old_entries.len() && (#[trigger] old_entries[k]).addr == a;
                lemma_dir_map_at(old_entries, k);
                lemma_unknown_addrs_contains(old_entries, a);
            }
        }
        dial
    }

    /// One broadcast round: push `frame` at every `Connected` peer. A peer
    /// whose transport refuses the frame is marked `Disconnected` in place;
    /// the addresses of exactly those peers come back, each once. No error
    /// is raised: partial delivery is an acceptable outcome here.
    pub fn broadcast(&mut self, frame: &Vec<u8>) -> (failed: Vec<PeerAddress>)
        requires
            old(self).wf(),
        ensures
            final(self).wf(),
            final(self)@.dom() == old(self)@.dom(),
            forall|a: PeerAddress| #![auto]
                old(self)@.contains_key(a) && !(old(self)@[a] is Connected) ==> final(self)@[a]
                    == old(self)@[a],
            forall|a: PeerAddress| #![auto]
                old(self)@.contains_key(a) && old(self)@[a] is Connected ==> (final(self)@[a]
                    == old(self)@[a] || final(self)@[a] is Disconnected),
            forall|a: PeerAddress| #![auto]
                failed@.contains(a) <==> (old(self)@.contains_key(a)
                    && old(self)@[a] is Connected && final(self)@[a] is Disconnected),
            forall|m: int, n: int| 0 <= m < n < failed@.len() ==> failed@[m] != failed@[n],
    {
        let ghost old_entries = self.entries@;
        let mut failed: Vec<PeerAddress> = Vec::new();
        let n = self.entries.len();
        let mut i: usize = 0;
        while i < n
            invariant
                i <= n,
                n == self.entries@.len(),
                n == old_entries.len(),
                distinct_addrs(old_entries),
                forall|k: int|
                    0 <= k < n ==> (#[trigger] self.entries@[k]).addr == old_entries[k].addr,
                forall|k: int|
                    0 <= k < i ==> (#[trigger] self.entries@[k] == old_entries[k] || (
                    old_entries[k].state is Connected
                        && self.entries@[k].state is Disconnected)),
                forall|k: int| i <= k < n ==> #[trigger] self.entries@[k] == old_entries[k],
                forall|m: int|
                    #![trigger failed@[m]]
                    0 <= m < failed@.len() ==> exists|k: int|
                        0 <= k < i && (#[trigger] old_entries[k]).addr == failed@[m]
                            && old_entries[k].state is Connected
                            && self.entries@[k].state is Disconnected,
                forall|k: int|
                    0 <= k < i && (#[trigger] old_entries[k]).state is Connected
                        && self.entries@[k].state is Disconnected ==> failed@.contains(
                        old_entries[k].addr,
                    ),
                forall|m: int, n2: int| 0 <= m < n2 < failed@.len() ==> failed@[m] != failed@[n2],
            decreases n - i,
        {
            let delivered: Option<bool> = match &self.entries[i].state {
                ConnectionState::Connected { sender } => Some(
                    sender.push_frame(copy_bytes(frame)),
                ),
                _ => None,
            };
            if let Some(false) = delivered {
                let a = self.entries[i].addr;
                proof {
                    assert forall|m: int| 0 <= m < failed@.len() implies failed@[m] != a by {
                        let k = choose|k: int|
                            0 <= k < i && (#[trigger] old_entries[k]).addr == failed@[m]
                                && old_entries[k].state is Connected
                                && self.entries@[k].state is Disconnected;
                        assert(old_entries[k].addr != old_entries[i as int].addr);
                    }
                }
                self.entries[i] = PeerEntry { addr: a, state: ConnectionState::Disconnected };
                let ghost failed0 = failed@;
                failed.push(a);
                proof {
                    assert forall|k: int|
                        0 <= k < i + 1 && (#[trigger] old_entries[k]).state is Connected
                            && self.entries@[k].state is Disconnected implies failed@.contains(
                        old_entries[k].addr,
                    ) by {
                        if k < i {
                            assert(failed0.contains(old_entries[k].addr));
                            let m = choose|m: int|
                                0 <= m < failed0.len() && failed0[m] == old_entries[k].addr;
                            assert(failed@[m] == old_entries[k].addr);
                        } else {
                            assert(failed@[failed@.len() - 1] == a);
                        }
                    }
                    assert forall|m: int| #![trigger failed@[m]]
                        0 <= m < failed@.len() implies exists|k: int|
                        0 <= k < i + 1 && (#[trigger] old_entries[k]).addr == failed@[m]
                            && old_entries[k].state is Connected
                            && self.entries@[k].state is Disconnected by {
                        if m < failed@.len() - 1 {
                            assert(failed@[m] == failed0[m]);
                            let k = choose|k: int|
                                0 <= k < i && (#[trigger] old_entries[k]).addr == failed0[m]
                                    && old_entries[k].state is Connected
                                    && self.entries@[k].state is Disconnected;
                            assert(0 <= k < i + 1 && old_entries[k].addr == failed@[m]
                                && old_entries[k].state is Connected
                                && self.entries@[k].state is Disconnected);
                        } else {
                            assert(old_entries[i as int].addr == failed@[m]
                                && old_entries[i as int].state is Connected
                                && self.entries@[i as int].state is Disconnected);
                        }
                    }
                }
            }
            i += 1;
        }
        proof {
            assert(distinct_addrs(self.entries@));
            assert forall|a: PeerAddress|
                dir_map_of(self.entries@).contains_key(a) == dir_map_of(old_entries).contains_key(
                    a,
                ) by {
                lemma_dir_map_dom(self.entries@, a);
                lemma_dir_map_dom(old_entries, a);
                if dir_map_of(self.entries@).contains_key(a) {
                    let k = choose|k: int|
                        0 <= k < self.entries@.len() && #[trigger] self.entries@[k].addr == a;
                    assert(old_entries[k].addr == a);
                }
                if dir_map_of(old_entries).contains_key(a) {
                    let k = choose|k: int|
                        0 <= k < old_entries.len() && #[trigger] old_entries[k].addr == a;
                    assert(self.entries@[k].addr == a);
                }
            }
            assert(dir_map_of(self.entries@).dom() =~= dir_map_of(old_entries).dom());
            assert forall|a: PeerAddress| #![auto]
                dir_map_of(old_entries).contains_key(a) implies ((!(dir_map_of(
                old_entries,
            )[a] is Connected) ==> dir_map_of(self.entries@)[a] == dir_map_of(old_entries)[a]) && (
            dir_map_of(old_entries)[a] is Connected ==> (dir_map_of(self.entries@)[a] == dir_map_of(
                old_entries,
            )[a] || dir_map_of(self.entries@)[a] is Disconnected))) by {
                lemma_dir_map_dom(old_entries, a);
                let k = choose|k: int|
                    0 <= k < old_entries.len() && (#[trigger] old_entries[k]).addr == a;
                lemma_dir_map_at(old_entries, k);
                lemma_dir_map_at(self.entries@, k);
            }
            assert forall|a: PeerAddress| #![auto]
                failed@.contains(a) implies (dir_map_of(old_entries).contains_key(a) && dir_map_of(
                old_entries,
            )[a] is Connected && dir_map_of(self.entries@)[a] is Disconnected) by {
                let m = choose|m: int| 0 <= m < failed@.len() && failed@[m] == a;
                let k = choose|k: int|
                    0 <= k < n && (#[trigger] old_entries[k]).addr == failed@[m]
                        && old_entries[k].state is Connected
                        && self.entries@[k].state is Disconnected;
                lemma_dir_map_at(old_entries, k);
                lemma_dir_map_at(self.entries@, k);
            }
            assert forall|a: PeerAddress| #![auto]
                (dir_map_of(old_entries).contains_key(a) && dir_map_of(old_entries)[a] is Connected
                    && dir_map_of(self.entries@)[a] is Disconnected) implies failed@.contains(
                a,
            ) by {
                lemma_dir_map_dom(old_entries, a);
                let k = choose|k: int|
                    0 <= k < old_entries.len() && (#[trigger] old_entries[k]).addr == a;
                lemma_dir_map_at(old_entries, k);
                lemma_dir_map_at(self.entries@, k);
            }
        }
        failed
    }

    /// Add `addr` as `Unknown` if it has no entry yet; an existing entry,
    /// whatever its state, is left alone.
    pub fn ensure_present(&mut self, addr: PeerAddress)
        requires
            old(self).wf(),
        ensures
            final(self).wf(),
            final(self)@ == if old(self)@.contains_key(addr) {
                old(self)@
            } else {
                old(self)@.insert(addr, ConnectionState::Unknown)
            },
    {
        proof {
            lemma_dir_map_dom(self.entries@, addr);
        }
        match self.find(addr) {
            Some(_) => {},
            None => {
                proof {
                    lemma_dir_map_push(self.entries@, PeerEntry { addr, state: ConnectionState::Unknown });
                }
                self.entries.push(PeerEntry { addr, state: ConnectionState::Unknown });
            },
        }
    }
}

} // verus!
