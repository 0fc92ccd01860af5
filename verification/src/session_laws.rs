//! Connections and sessions over time: which port a connection gets, when
//! idle ones end, and who serves a datagram or a query.
use vstd::prelude::*;

use crate::addr::SocketAddr;
use crate::dns;
use crate::dns::{DnsActionView, DnsEvent, DnsStage};
use crate::engine;
use crate::engine::{EngineView, UdpDispatcher};
use crate::plain;
use crate::process;
use crate::sessions;
use crate::sessions::{SessionEntry, SessionKey, SessionTable};
use crate::tcp_laws;
use crate::tcp_nat;
use crate::tcp_nat::TcpNat;

verus! {

/// When a connection was last used: at `now` or as was known, never longer ago
/// than was known, and no more than a second before `now`.
pub open spec fn used(before: u64, after: u64, now: u64) -> bool {
    &&& after == before || after == now
    &&& before <= after
    &&& now <= after + 1_000_000_000
    &&& now <= before + 1_000_000_000 ==> after == before
}

/// A connection that a reply came for counts as used, and nothing else changes.
pub proof fn law_replies_keep_connection(
    before: TcpNat,
    after: TcpNat,
    port: u16,
    now: u64,
    r: Option<(SocketAddr, SocketAddr)>,
)
    requires
        tcp_nat::looked_back(before, after, port, now, r),
    ensures
        r is Some <==> before.sessions().contains_key(port),
        r matches Some((src, dst)) ==> {
            &&& src == before.sessions()[port].source
            &&& dst == before.sessions()[port].destination
            &&& used(before.sessions()[port].last_active, after.sessions()[port].last_active, now)
        },
        tcp_laws::same_connections(before, after),
        forall|q: u16| #[trigger]
            after.sessions().contains_key(q) && q != port ==> after.sessions()[q]
                == before.sessions()[q],
        after.cursor() == before.cursor(),
{
}

/// A connection that is looked up counts as used; a new one is used from then
/// on.
pub proof fn law_lookups_keep_connection(
    before: TcpNat,
    after: TcpNat,
    src: SocketAddr,
    dst: SocketAddr,
    now: u64,
    p: u16,
)
    requires
        tcp_nat::looked_up(before, after, src, dst, now, Some(p)),
    ensures
        tcp_laws::port_held(before, src, dst) ==> before.sessions().contains_key(p) && used(
            before.sessions()[p].last_active,
            after.sessions()[p].last_active,
            now,
        ) && after.cursor() == before.cursor(),
        !tcp_laws::port_held(before, src, dst) ==> after.sessions()[p].last_active == now,
{
    if tcp_laws::port_held(before, src, dst) {
        let q = choose|q: u16| #[trigger]
            before.sessions().contains_key(q) && before.sessions()[q].source == src
                && before.sessions()[q].destination == dst;
        assert(before.maps(src, dst, q));
    } else {
        assert forall|q: u16| !#[trigger] before.maps(src, dst, q) by {
            if before.maps(src, dst, q) {
                assert(before.sessions().contains_key(q));
            }
        }
    }
}

/// All ports from `low` to `high`, both counted, are taken.
pub open spec fn all_taken(table: TcpNat, low: int, high: int) -> bool {
    forall|q: u16| low <= q <= high ==> #[trigger] table.sessions().contains_key(q)
}

/// Ports are given out in turn: a new connection gets the first free one from
/// the cursor on, and after the last port the search goes on with the first.
/// The cursor then stands behind it.
pub proof fn law_ports_in_turn(
    before: TcpNat,
    after: TcpNat,
    src: SocketAddr,
    dst: SocketAddr,
    now: u64,
    p: u16,
)
    requires
        tcp_nat::looked_up(before, after, src, dst, now, Some(p)),
        !tcp_laws::port_held(before, src, dst),
    ensures
        10000 <= p,
        ({
            let first: int = if before.cursor() < 10000 {
                10000
            } else {
                before.cursor() as int
            };
            if first <= p {
                all_taken(before, first, p - 1)
            } else {
                all_taken(before, first, 65535) && all_taken(before, 10000, p - 1)
            }
        }),
        after.cursor() == (if p == 65535 {
            0
        } else {
            p + 1
        }),
{
    assert forall|q: u16| !#[trigger] before.maps(src, dst, q) by {
        if before.maps(src, dst, q) {
            assert(before.sessions().contains_key(q));
        }
    }
    let c = before.cursor();
    let first: int = if c < 10000 {
        10000
    } else {
        c as int
    };
    let k = choose|k: int| #[trigger]
        tcp_nat::probe(c, k) == p && 0 <= k < 55536 && forall|j: int|
            0 <= j < k ==> before.sessions().contains_key(#[trigger] tcp_nat::probe(c, j) as u16);
    assert forall|q: u16| first <= q <= 65535 && q - first < k implies #[trigger]
        before.sessions().contains_key(q) by {
        let j = q - first;
        assert(tcp_nat::probe(c, j) == q);
    }
    assert forall|q: u16| 10000 <= q < first && q - first + 55536 < k implies #[trigger]
        before.sessions().contains_key(q) by {
        let j = q - first + 55536;
        assert(tcp_nat::probe(c, j) == q);
    }
    if first <= p {
        assert(k == p - first || k == p - first + 55536);
    } else {
        assert(k == p - first + 55536);
    }
}

/// A connection is over once it was idle for longer than the timeout, and not
/// before.
pub proof fn law_idle_connections_end(table: TcpNat, now: u64, timeout: u64, p: u16)
    requires
        table.sessions().contains_key(p),
    ensures
        ({
            let left = table.sessions().restrict(
                Set::new(
                    |q: u16| !tcp_nat::expired(table.sessions()[q].last_active, now, timeout),
                ),
            );
            &&& left.contains_key(p) <==> now <= table.sessions()[p].last_active + timeout
            &&& left.contains_key(p) ==> left[p] == table.sessions()[p]
        }),
{
}

/// A connection that was used is not taken for idle until the timeout has
/// passed but for a second.
pub proof fn law_used_connections_live(
    before: TcpNat,
    after: TcpNat,
    port: u16,
    at: u64,
    r: Option<(SocketAddr, SocketAddr)>,
    now: u64,
    timeout: u64,
)
    requires
        tcp_nat::looked_back(before, after, port, at, r),
        r is Some,
        now + 1_000_000_000 <= at + timeout,
    ensures
        after.sessions().contains_key(port),
        !tcp_nat::expired(after.sessions()[port].last_active, now, timeout),
{
    law_replies_keep_connection(before, after, port, at, r);
}

/// A session closes once it was idle for the timeout, and not before.
pub proof fn law_idle_sessions_close(
    list: Seq<SessionEntry>,
    e: SessionEntry,
    now: u64,
    timeout: u64,
)
    requires
        list.contains(e),
        timeout > 0,
    ensures
        list.filter(|s: SessionEntry| sessions::alive(s, now, timeout)).contains(e) <==> now
            < e.last_seen + timeout,
        list.filter(|s: SessionEntry| !sessions::alive(s, now, timeout)).contains(e) <==> now
            >= e.last_seen + timeout,
{
    let live = |s: SessionEntry| sessions::alive(s, now, timeout);
    let gone = |s: SessionEntry| !sessions::alive(s, now, timeout);
    let i = choose|i: int| 0 <= i < list.len() && list[i] == e;
    if live(e) {
        list.lemma_filter_contains(live, i);
    } else {
        list.lemma_filter_contains(gone, i);
    }
    let a = list.filter(live);
    let b = list.filter(gone);
    if a.contains(e) {
        let k = choose|k: int| 0 <= k < a.len() && a[k] == e;
        list.lemma_filter_pred(live, k);
    }
    if b.contains(e) {
        let k = choose|k: int| 0 <= k < b.len() && b[k] == e;
        list.lemma_filter_pred(gone, k);
    }
}

/// Without a timeout nothing lives on.
pub proof fn law_no_timeout_closes_all(e: SessionEntry, now: u64)
    ensures
        !sessions::alive(e, now, 0),
{
}

/// The port of a socket address.
pub open spec fn port(a: SocketAddr) -> u16 {
    match a {
        SocketAddr::V4(s) => s.port,
        SocketAddr::V6(s) => s.port,
    }
}

/// The session was known, at any time.
pub open spec fn known(table: SessionTable, key: SessionKey) -> bool {
    exists|k: int| 0 <= k < table.list().len() && (#[trigger] table.list()[k]).key == key
}

/// What becomes of a packet: a datagram to port 53 goes to the resolver, where
/// there is one and queries are to go there, and opens no session; any other
/// belongs to the session of its two addresses, which is new if it was not
/// known. All else passes through.
pub proof fn law_datagrams_are_dispatched(
    p: process::ActionView,
    before: UdpDispatcher,
    after: UdpDispatcher,
    now: u64,
    a: EngineView,
)
    requires
        engine::dispatched(p, before, after, now, a),
    ensures
        after.dns_hijack == before.dns_hijack,
        after.resolver == before.resolver,
        match p {
            process::ActionView::Drop => a == EngineView::Drop && after == before,
            process::ActionView::Write(b) => a == EngineView::Write(b) && after == before,
            process::ActionView::SendEcho(k, b) => a == EngineView::SendEcho(k, b) && after
                == before,
            process::ActionView::Datagram(src, dst, data, header) => {
                let key = SessionKey::Udp { src, dst };
                if port(dst) == 53 && before.dns_hijack && before.resolver {
                    a == (EngineView::Resolve { src, dst, data, header }) && after == before
                } else {
                    &&& a == (EngineView::Datagram {
                        src,
                        dst,
                        data,
                        header,
                        fresh: !known(before.sessions, key),
                    })
                    &&& known(after.sessions, key)
                    &&& after.sessions.list().contains(SessionEntry { key, last_seen: now })
                    &&& forall|e: SessionEntry|
                        e.key != key ==> (#[trigger] after.sessions.list().contains(e)
                            <==> before.sessions.list().contains(e))
                }
            },
        },
{
    if let process::ActionView::Datagram(src, dst, data, header) = p {
        if !(port(dst) == 53 && before.dns_hijack && before.resolver) {
            let key = SessionKey::Udp { src, dst };
            assert(!engine::is_query(before, dst));
            assert(after.sessions.seen(key, now));
            let s = after.sessions.list();
            let k = choose|k: int| 0 <= k < s.len() && s[k] == (SessionEntry { key, last_seen: now });
            assert(s[k].key == key);
            assert forall|e: SessionEntry| e.key != key implies (
            #[trigger] after.sessions.list().contains(e) <==> before.sessions.list().contains(
                e,
            )) by {
                assert(after.sessions.seen(e.key, e.last_seen) == before.sessions.seen(
                    e.key,
                    e.last_seen,
                ));
                assert(e == (SessionEntry { key: e.key, last_seen: e.last_seen }));
            }
        }
    }
}

/// A message over TCP has its length in front of it.
pub proof fn law_messages_are_framed(message: Seq<u8>)
    requires
        message.len() <= 65535,
    ensures
        ({
            let f = dns::tcp_frame(message);
            &&& f.len() == message.len() + 2
            &&& plain::n16(f, 0) == message.len()
            &&& f.subrange(2, f.len() as int) == message
        }),
{
    assert(dns::tcp_frame(message).subrange(2, message.len() as int + 2) =~= message);
}

/// A conversation over TCP: two bytes say how long the query is, the query
/// goes to the resolver as it is, and its answer comes back framed; then the
/// next query may come.
pub proof fn law_queries_are_answered(length: Vec<u8>, query: Vec<u8>, answer: Vec<u8>)
    requires
        length@.len() == 2,
        query@.len() == plain::n16(length@, 0),
        query@.len() > 0,
        answer@.len() <= 65535,
    ensures
        ({
            let n = query@.len() as usize;
            &&& dns::dns_next(DnsStage::Length, DnsEvent::Bytes(length), true) == (
                DnsStage::Message(n),
                DnsActionView::Read(query@.len() as int),
            )
            &&& dns::dns_next(DnsStage::Message(n), DnsEvent::Bytes(query), true) == (
                DnsStage::Answer,
                DnsActionView::Query(query@),
            )
            &&& dns::dns_next(DnsStage::Answer, DnsEvent::Reply(answer), true).0 == DnsStage::Length
            &&& (dns::dns_next(DnsStage::Answer, DnsEvent::Reply(answer), true).1 matches
                DnsActionView::Send(f) && f.len() == answer@.len() + 2 && plain::n16(f, 0)
                == answer@.len() && f.subrange(2, f.len() as int) == answer@)
        }),
{
    law_messages_are_framed(answer@);
    plain::lemma_n16(length@, 0);
}

/// A conversation ends where a length is missing or zero, a query is cut
/// short, nobody resolves it, or it fails; and then nothing goes on.
pub proof fn law_conversation_ends(stage: DnsStage, event: DnsEvent, resolver: bool)
    ensures
        ({
            let next = dns::dns_next(stage, event, resolver);
            let goes_on = match (stage, event) {
                (DnsStage::Length, DnsEvent::Bytes(b)) => b@.len() == 2 && (b@[0] != 0 || b@[1]
                    != 0),
                (DnsStage::Message(n), DnsEvent::Bytes(b)) => b@.len() == n && resolver,
                (DnsStage::Answer, DnsEvent::Reply(_)) => true,
                _ => false,
            };
            &&& !goes_on ==> next == (DnsStage::Closed, DnsActionView::Close)
            &&& goes_on ==> next.0 != DnsStage::Closed && next.1 != DnsActionView::Close
        }),
{
}

} // verus!
