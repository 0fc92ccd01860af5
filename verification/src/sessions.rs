//! Sessions of connectionless traffic: which are open, and when each was last
//! used.
use vstd::prelude::*;

use crate::addr::SocketAddr;
use crate::echo::FlowKey;

verus! {

/// How long a UDP session stays open without traffic unless configured
/// otherwise, in seconds.
pub const DEFAULT_UDP_TIMEOUT_SECS: u64 = 300;

/// How long an ICMP flow stays open without traffic, in seconds.
pub const ICMP_FLOW_TIMEOUT_SECS: u64 = 30;

/// What a session is known by: who talks to whom.
#[derive(Clone, Copy, Debug, PartialEq, Eq, Hash, Structural)]
pub enum SessionKey {
    Udp { src: SocketAddr, dst: SocketAddr },
    Echo(FlowKey),
}

#[derive(Clone, Copy, Debug, PartialEq, Eq, Structural)]
pub struct SessionEntry {
    pub key: SessionKey,
    pub last_seen: u64,
}

/// The open sessions. No key occurs twice.
pub struct SessionTable {
    entries: Vec<SessionEntry>,
}

impl SessionTable {
    pub closed spec fn list(self) -> Seq<SessionEntry> {
        self.entries@
    }

    pub open spec fn wf(self) -> bool {
        forall|a: int, b: int|
            0 <= a < b < self.list().len() ==> (#[trigger] self.list()[a]).key != (
            #[trigger] self.list()[b]).key
    }

    /// The session is open and was last used at `t`.
    pub open spec fn seen(self, key: SessionKey, t: u64) -> bool {
        self.list().contains(SessionEntry { key, last_seen: t })
    }

    /// The session is open.
    pub open spec fn is_open(self, key: SessionKey) -> bool {
        exists|k: int| 0 <= k < self.list().len() && (#[trigger] self.list()[k]).key == key
    }

    pub fn new() -> (table: Self)
        ensures
            table.wf(),
            table.list().len() == 0,
    {
        SessionTable { entries: Vec::new() }
    }

    /// Notes that a session is used, and opens it if it was not open. The
    /// result tells whether it was opened.
    pub fn touch(&mut self, key: SessionKey, now: u64) -> (fresh: bool)
        requires
            old(self).wf(),
        ensures
            final(self).wf(),
            fresh == !old(self).is_open(key),
            final(self).seen(key, now),
            forall|k: SessionKey, t: u64|
                k != key ==> #[trigger] final(self).seen(k, t) == old(self).seen(k, t),
            fresh ==> final(self).list() == old(self).list().push(
                SessionEntry { key, last_seen: now },
            ),
    {
        let ghost before = self.entries@;
        let mut i: usize = 0;
        while i < self.entries.len()
            invariant
                i <= self.entries@.len(),
                self.entries@ == before,
                before == old(self).list(),
                old(self).wf(),
                forall|j: int| 0 <= j < i ==> (#[trigger] before[j]).key != key,
            decreases self.entries@.len() - i,
        {
            if self.entries[i].key == key {
                self.entries.set(i, SessionEntry { key, last_seen: now });
                proof {
                    let after = self.entries@;
                    assert(before[i as int].key == key);
                    assert(after[i as int] == SessionEntry { key, last_seen: now });
                    assert forall|a: int, b: int| 0 <= a < b < after.len() implies (
                    #[trigger] after[a]).key != (#[trigger] after[b]).key by {
                        assert(before[a].key != before[b].key);
                    }
                    assert forall|k: SessionKey, t: u64| k != key implies
                        #[trigger] self.seen(k, t) == old(self).seen(k, t) by {
                        let e = SessionEntry { key: k, last_seen: t };
                        if before.contains(e) {
                            let j = choose|j: int| 0 <= j < before.len() && before[j] == e;
                            assert(after[j] == e);
                        }
                        if after.contains(e) {
                            let j = choose|j: int| 0 <= j < after.len() && after[j] == e;
                            assert(before[j] == e);
                        }
                    }
                }
                return false;
            }
            i += 1;
        }
        self.entries.push(SessionEntry { key, last_seen: now });
        proof {
            let after = self.entries@;
            assert(after[before.len() as int] == SessionEntry { key, last_seen: now });
            assert forall|k: SessionKey, t: u64| k != key implies #[trigger] self.seen(k, t) == old(
                self,
            ).seen(k, t) by {
                let e = SessionEntry { key: k, last_seen: t };
                if before.contains(e) {
                    let j = choose|j: int| 0 <= j < before.len() && before[j] == e;
                    assert(after[j] == e);
                }
                if after.contains(e) {
                    let j = choose|j: int| 0 <= j < after.len() && after[j] == e;
                    assert(before[j] == e);
                }
            }
        }
        true
    }

    /// Closes the sessions that have not been used for `timeout`. The result
    /// lists them.
    pub fn gc(&mut self, now: u64, timeout: u64) -> (closed: Vec<SessionKey>)
        requires
            old(self).wf(),
        ensures
            final(self).wf(),
            final(self).list() == old(self).list().filter(|e: SessionEntry| alive(e, now, timeout)),
            closed@ == old(self).list().filter(|e: SessionEntry| !alive(e, now, timeout)).map_values(
                |e: SessionEntry| e.key,
            ),
    {
        let ghost before = self.entries@;
        let ghost live = |e: SessionEntry| alive(e, now, timeout);
        let ghost dead = |e: SessionEntry| !alive(e, now, timeout);
        let mut kept: Vec<SessionEntry> = Vec::new();
        let mut closed: Vec<SessionKey> = Vec::new();
        let mut i: usize = 0;
        proof {
            reveal(Seq::filter);
            assert(before.take(0) =~= Seq::<SessionEntry>::empty());
        }
        while i < self.entries.len()
            invariant
                i <= self.entries@.len(),
                self.entries@ == before,
                live == (|e: SessionEntry| alive(e, now, timeout)),
                dead == (|e: SessionEntry| !alive(e, now, timeout)),
                kept@ == before.take(i as int).filter(live),
                closed@ == before.take(i as int).filter(dead).map_values(
                    |e: SessionEntry| e.key,
                ),
            decreases self.entries@.len() - i,
        {
            let e: SessionEntry = self.entries[i];
            let elapsed: u64 = if now > e.last_seen {
                now - e.last_seen
            } else {
                0
            };
            proof {
                reveal(Seq::filter);
                let next = before.take(i + 1);
                assert(next.drop_last() =~= before.take(i as int));
                assert(next.last() == e);
            }
            let ghost closed_before = before.take(i as int).filter(dead);
            if elapsed < timeout {
                kept.push(e);
            } else {
                closed.push(e.key);
                assert(closed_before.push(e).map_values(|e: SessionEntry| e.key)
                    =~= closed_before.map_values(|e: SessionEntry| e.key).push(e.key));
            }
            i += 1;
        }
        assert(before.take(before.len() as int) =~= before);
        self.entries = kept;
        proof {
            lemma_filter_keeps_distinct(before, live);
        }
        closed
    }

    /// Closes all sessions.
    pub fn clear(&mut self)
        ensures
            final(self).wf(),
            final(self).list().len() == 0,
    {
        self.entries.clear();
    }
}

/// The session was used less than `timeout` ago.
pub open spec fn alive(e: SessionEntry, now: u64, timeout: u64) -> bool {
    if now > e.last_seen {
        now - e.last_seen < timeout
    } else {
        0 < timeout
    }
}

/// Dropping entries from a list without doubles leaves none.
proof fn lemma_filter_keeps_distinct(
    s: Seq<SessionEntry>,
    keep: spec_fn(SessionEntry) -> bool,
)
    requires
        forall|a: int, b: int|
            0 <= a < b < s.len() ==> (#[trigger] s[a]).key != (#[trigger] s[b]).key,
    ensures
        ({
            let f = s.filter(keep);
            &&& forall|a: int, b: int|
                0 <= a < b < f.len() ==> (#[trigger] f[a]).key != (#[trigger] f[b]).key
            &&& forall|a: int|
                0 <= a < f.len() ==> exists|j: int|
                    0 <= j < s.len() && s[j] == #[trigger] f[a]
        }),
    decreases s.len(),
{
    reveal(Seq::filter);
    if s.len() > 0 {
        let t = s.drop_last();
        lemma_filter_keeps_distinct(t, keep);
        let f = s.filter(keep);
        let g = t.filter(keep);
        assert forall|a: int, b: int| 0 <= a < b < f.len() implies (#[trigger] f[a]).key != (
        #[trigger] f[b]).key by {
            if b < g.len() {
                assert(f[a] == g[a] && f[b] == g[b]);
            } else {
                assert(f[a] == g[a]);
                let j = choose|j: int| 0 <= j < t.len() && t[j] == g[a];
                assert(s[j] == f[a]);
                assert(f[b] == s.last());
            }
        }
        assert forall|a: int| 0 <= a < f.len() implies exists|j: int|
            0 <= j < s.len() && s[j] == #[trigger] f[a] by {
            if a < g.len() {
                assert(f[a] == g[a]);
                let j = choose|j: int| 0 <= j < t.len() && t[j] == g[a];
                assert(s[j] == f[a]);
            } else {
                assert(s[s.len() - 1] == f[a]);
            }
        }
    }
}

/// Where a datagram goes.
#[derive(Clone, Copy, Debug, PartialEq, Eq, Structural)]
pub enum UdpRoute {
    /// To the DNS resolver. If that is gone, the datagram goes on to its
    /// session.
    Resolver,
    /// To the session of its source and destination.
    Session,
}

/// Where a datagram to `dst` goes: queries go to the resolver where they are
/// hijacked and there is one.
pub fn udp_route(dst: SocketAddr, dns_hijack: bool, resolver: bool) -> (r: UdpRoute)
    ensures
        r == (if dns_hijack && dst.port_of() == 53 && resolver {
            UdpRoute::Resolver
        } else {
            UdpRoute::Session
        }),
{
    if dns_hijack && dst.port() == 53 && resolver {
        UdpRoute::Resolver
    } else {
        UdpRoute::Session
    }
}

/// The configured timeout in seconds, where zero stands for the default.
pub fn effective_udp_timeout(configured: u64) -> (secs: u64)
    ensures
        secs == (if configured == 0 {
            DEFAULT_UDP_TIMEOUT_SECS
        } else {
            configured
        }),
{
    if configured == 0 {
        DEFAULT_UDP_TIMEOUT_SECS
    } else {
        configured
    }
}

} // verus!
