//! What becomes of TCP packets, told by their bytes: which are led to a
//! listener, which go back to a client, which are reflected and which go no
//! further.
use vstd::prelude::*;

use crate::addr::{Ipv4Addr, Ipv6Addr, SocketAddr, SocketAddrV4, SocketAddrV6};
use crate::checksum;
use crate::plain;
use crate::tcp;
use crate::tcp::{TcpContextV4, TcpContextV6};
use crate::tcp_nat;
use crate::tcp_nat::TcpNat;
use crate::wire;

verus! {

/// From the TCP option at `a` the next one starts at `b`.
pub open spec fn option_follows(pkt: Seq<u8>, a: int, b: int, end: int) -> bool {
    ||| a < end && pkt[a] == 1 && b == a + 1
    ||| a + 2 <= end && pkt[a] > 2 && pkt[a + 1] >= 2 && b == a + pkt[a + 1] && b <= end
}

/// The option at place `j` of a list is followed by the next of the list.
pub open spec fn option_linked(pkt: Seq<u8>, starts: Seq<int>, end: int, j: int) -> bool {
    option_follows(pkt, starts[j], starts[j + 1], end)
}

/// One option follows the other, from the first place to the last.
pub open spec fn option_chain(pkt: Seq<u8>, starts: Seq<int>, end: int) -> bool {
    &&& starts.len() > 0
    &&& forall|j: int|
        0 <= j < starts.len() - 1 ==> #[trigger] option_linked(pkt, starts, end, j)
}

/// The packet, whose TCP header starts at `off`, is a SYN, and the segment size
/// that it announces stands at `at`.
pub open spec fn announces(pkt: Seq<u8>, off: int, at: int) -> bool {
    let end = off + 4 * (pkt[off + 12] / 16);
    &&& off + 20 <= end <= pkt.len()
    &&& pkt[off + 13] / 2 % 2 == 1
    &&& pkt[at - 2] == 2
    &&& pkt[at - 1] == 4
    &&& at + 2 <= end
    &&& exists|starts: Seq<int>| #[trigger]
        option_chain(pkt, starts, end) && starts[0] == off + 20 && starts.last() == at - 2
}

/// The byte is part of the segment size that a packet announces.
pub open spec fn announced_byte(pkt: Seq<u8>, off: int, k: int) -> bool {
    announces(pkt, off, k) || announces(pkt, off, k - 1)
}

proof fn lemma_chain_found(pkt: Seq<u8>, off: int, end: int, starts: Seq<int>, j: int)
    requires
        off + 20 <= end <= pkt.len(),
        0 <= off,
        option_chain(pkt, starts, end),
        0 <= j < starts.len(),
        starts[0] == off + 20,
        starts.last() + 4 <= end,
        pkt[starts.last()] == 2,
        pkt[starts.last() + 1] == 4,
    ensures
        off + 20 <= starts[j] <= starts.last(),
        tcp::mss_option(pkt.subrange(off + 20, end), starts[j] - off - 20) == Some(
            starts.last() - off - 20,
        ),
    decreases starts.len() - j,
{
    lemma_chain_rises(pkt, end, starts, j);
    let o = pkt.subrange(off + 20, end);
    if j + 1 < starts.len() {
        lemma_chain_found(pkt, off, end, starts, j + 1);
        assert(option_linked(pkt, starts, end, j));
        let i = starts[j] - off - 20;
        assert(o[i] == pkt[starts[j]]);
        if pkt[starts[j]] != 1 {
            assert(o[i + 1] == pkt[starts[j] + 1]);
        }
    } else {
        let i = starts[j] - off - 20;
        assert(o[i] == 2 && o[i + 1] == 4);
    }
}

proof fn lemma_chain_rises(pkt: Seq<u8>, end: int, starts: Seq<int>, j: int)
    requires
        option_chain(pkt, starts, end),
        0 <= j < starts.len(),
    ensures
        starts[0] <= starts[j],
    decreases j,
{
    if j > 0 {
        lemma_chain_rises(pkt, end, starts, j - 1);
        assert(option_linked(pkt, starts, end, j - 1));
    }
}

proof fn lemma_found_chain(pkt: Seq<u8>, from: int, end: int, i: int) -> (starts: Seq<int>)
    requires
        0 <= from <= end <= pkt.len(),
        0 <= i,
        tcp::mss_option(pkt.subrange(from, end), i) is Some,
    ensures
        option_chain(pkt, starts, end),
        starts[0] == from + i,
        starts.last() == from + tcp::mss_option(pkt.subrange(from, end), i)->0,
    decreases end - from - i,
{
    let o = pkt.subrange(from, end);
    assert(o[i] == pkt[from + i]);
    if o[i] == 2 {
        seq![from + i]
    } else {
        let next = if o[i] == 1 {
            i + 1
        } else {
            assert(o[i + 1] == pkt[from + i + 1]);
            i + o[i + 1]
        };
        let rest = lemma_found_chain(pkt, from, end, next);
        let starts = seq![from + i] + rest;
        assert forall|j: int| 0 <= j < starts.len() - 1 implies #[trigger] option_linked(
            pkt,
            starts,
            end,
            j,
        ) by {
            if j > 0 {
                assert(starts[j] == rest[j - 1]);
                assert(starts[j + 1] == rest[j]);
                assert(option_linked(pkt, rest, end, j - 1));
            } else {
                assert(starts[1] == rest[0]);
            }
        }
        starts
    }
}

/// The segment size is found exactly where a walk over the options comes to it.
pub proof fn law_segment_size_found(pkt: Seq<u8>, off: int, at: int)
    requires
        0 <= off,
        off + 20 <= pkt.len(),
    ensures
        tcp::mss_at(pkt, off) == Some(at) <==> announces(pkt, off, at),
{
    let end = off + 4 * (pkt[off + 12] / 16);
    let flags = pkt[off + 13];
    assert(flags & 0x02 == 0 <==> flags / 2 % 2 == 0) by (bit_vector);
    if announces(pkt, off, at) {
        let starts = choose|starts: Seq<int>| #[trigger]
            option_chain(pkt, starts, end) && starts[0] == off + 20 && starts.last() == at - 2;
        lemma_chain_found(pkt, off, end, starts, 0);
    }
    if tcp::mss_at(pkt, off) == Some(at) {
        let o = pkt.subrange(off + 20, end);
        let starts = lemma_found_chain(pkt, off + 20, end, 0);
        lemma_option_place(o, 0);
        assert(pkt[at - 2] == o[at - 2 - off - 20]);
        assert(pkt[at - 1] == o[at - 1 - off - 20]);
        assert(option_chain(pkt, starts, end) && starts[0] == off + 20 && starts.last() == at - 2);
    }
}

proof fn lemma_option_place(options: Seq<u8>, i: int)
    requires
        i >= 0,
    ensures
        tcp::mss_option(options, i) matches Some(k) ==> i <= k && k + 4 <= options.len()
            && options[k] == 2 && options[k + 1] == 4,
    decreases options.len() - i,
{
    if i < options.len() {
        if options[i] == 1 {
            lemma_option_place(options, i + 1);
        } else if options[i] != 0 && options[i] != 2 && i + 2 <= options.len() && options[i + 1]
            >= 2 && i + options[i + 1] <= options.len() {
            lemma_option_place(options, i + options[i + 1]);
        }
    }
}

/// The smaller of two numbers.
pub open spec fn lesser(a: int, b: int) -> int {
    if a < b {
        a
    } else {
        b
    }
}

/// What follows the ports of a TCP header goes over unchanged, but for the
/// checksum and for a segment size, which is limited.
#[verifier::opaque]
pub open spec fn segment_kept(raw: Seq<u8>, out: Seq<u8>, off: int, mss: Option<u16>) -> bool {
    &&& out.len() == raw.len()
    &&& forall|k: int|
        off + 4 <= k < raw.len() && k != off + 16 && k != off + 17 && !(mss is Some
            && announced_byte(raw, off, k)) ==> #[trigger] out[k] == raw[k]
    &&& mss matches Some(m) ==> forall|at: int| #[trigger]
        announces(raw, off, at) ==> plain::n16(out, at) == lesser(plain::n16(raw, at), m as int)
}

/// `out` is the IPv4 packet `raw` on its way from one socket to another, whole
/// and with valid checksums.
pub open spec fn sent_v4(
    raw: Seq<u8>,
    out: Seq<u8>,
    from: SocketAddrV4,
    to: SocketAddrV4,
    mss: Option<u16>,
) -> bool {
    let off = plain::head_len(raw);
    &&& segment_kept(raw, out, off, mss)
    &&& forall|k: int| 0 <= k < off && !(10 <= k < 20) ==> #[trigger] out[k] == raw[k]
    &&& plain::is_v4(out, 12, from.ip)
    &&& plain::is_v4(out, 16, to.ip)
    &&& plain::n16(out, off) == from.port
    &&& plain::n16(out, off + 2) == to.port
    &&& plain::balanced(plain::total(out.subrange(0, off)))
    &&& raw.len() - off < 65536 ==> plain::sound_v4(out, off, 6)
}

/// `out` is the IPv6 packet `raw`, whose TCP header starts at `off`, on its way
/// from one socket to another.
pub open spec fn sent_v6(
    raw: Seq<u8>,
    out: Seq<u8>,
    off: int,
    from: SocketAddrV6,
    to: SocketAddrV6,
    mss: Option<u16>,
) -> bool {
    &&& segment_kept(raw, out, off, mss)
    &&& forall|k: int| 0 <= k < off && !(8 <= k < 40) ==> #[trigger] out[k] == raw[k]
    &&& plain::is_v6(out, 8, from.ip)
    &&& plain::is_v6(out, 24, to.ip)
    &&& plain::n16(out, off) == from.port
    &&& plain::n16(out, off + 2) == to.port
    &&& raw.len() - off < 0x1_0000_0000 ==> plain::sound_v6(out, off, 6)
}

proof fn lemma_segment_kept(raw: Seq<u8>, ported: Seq<u8>, out: Seq<u8>, off: int, mss: Option<u16>)
    requires
        0 <= off,
        off + 20 <= raw.len(),
        ported.len() == raw.len(),
        out.len() == raw.len(),
        forall|k: int| off + 4 <= k < raw.len() ==> #[trigger] ported[k] == raw[k],
        forall|k: int|
            off + 4 <= k < raw.len() && k != off + 16 && k != off + 17 ==> #[trigger] out[k]
                == tcp::mss_limited(ported, off, mss)[k],
    ensures
        segment_kept(raw, out, off, mss),
{
    reveal(segment_kept);
    let limited = tcp::mss_limited(ported, off, mss);
    assert(ported[off + 12] == raw[off + 12] && ported[off + 13] == raw[off + 13]);
    let end = off + 4 * (raw[off + 12] / 16);
    if off + 20 <= end <= raw.len() {
        assert(ported.subrange(off + 20, end) =~= raw.subrange(off + 20, end));
    }
    assert(tcp::mss_at(ported, off) == tcp::mss_at(raw, off));
    if let Some(m) = mss {
        tcp::law_clamp_limits_mss(ported, off, m as int);
        if let Some(at) = tcp::mss_at(raw, off) {
            law_segment_size_found(raw, off, at);
            let o = raw.subrange(off + 20, end);
            lemma_option_place(o, 0);
        }
        assert forall|at: int| #[trigger] announces(raw, off, at) implies plain::n16(out, at)
            == lesser(plain::n16(raw, at), m as int) by {
            law_segment_size_found(raw, off, at);
            assert(out[at] == limited[at] && out[at + 1] == limited[at + 1]);
            assert(ported[at] == raw[at] && ported[at + 1] == raw[at + 1]);
        }
        assert forall|k: int|
            off + 4 <= k < raw.len() && k != off + 16 && k != off + 17 && !announced_byte(
                raw,
                off,
                k,
            ) implies #[trigger] out[k] == raw[k] by {
            if let Some(at) = tcp::mss_at(raw, off) {
                assert(k != at && k != at + 1);
                assert(limited[k] == ported[k]);
            }
        }
    }
}

proof fn lemma_sent_v4(
    raw: Seq<u8>,
    from: SocketAddrV4,
    to: SocketAddrV4,
    mss: Option<u16>,
)
    requires
        20 <= plain::head_len(raw),
        plain::head_len(raw) + 20 <= raw.len(),
    ensures
        sent_v4(
            raw,
            tcp::readdressed_v4(raw, from.ip, to.ip, Some((from.port, to.port)), mss),
            from,
            to,
            mss,
        ),
{
    let off = plain::head_len(raw);
    let out = tcp::readdressed_v4(raw, from.ip, to.ip, Some((from.port, to.port)), mss);
    lemma_kept_v4(raw, from, to, mss);
    tcp::law_readdressed_v4(raw, from.ip, to.ip, from.port, to.port, mss);
    assert(plain::balanced(plain::total(out.subrange(0, off)))) by {
        plain::lemma_header_sound(out.subrange(0, off));
    }
    assert(plain::sound_v4(out, off, 6) || raw.len() - off >= 65536) by {
        if raw.len() - off < 65536 {
            plain::lemma_sound(
                out.subrange(12, 16),
                out.subrange(16, 20),
                6,
                out.subrange(off, out.len() as int),
                checksum::limit_v4(),
            );
        }
    }
    assert(plain::is_v4(out, 12, from.ip)) by {
        plain::lemma_n32(out, 12);
        assert(tcp::src_v4(out).bits == from.ip.bits);
    }
    assert(plain::is_v4(out, 16, to.ip)) by {
        plain::lemma_n32(out, 16);
        assert(tcp::dst_v4(out).bits == to.ip.bits);
    }
    assert(forall|k: int|
        #![trigger out[k]]
        0 <= k < off && mss is Some ==> !tcp::in_mss_field(raw, off, k)) by {
        if let Some(at) = tcp::mss_at(raw, off) {
            let end = off + 4 * (raw[off + 12] / 16);
            lemma_option_place(raw.subrange(off + 20, end), 0);
        }
    }
}

proof fn lemma_kept_v4(raw: Seq<u8>, from: SocketAddrV4, to: SocketAddrV4, mss: Option<u16>)
    requires
        20 <= plain::head_len(raw),
        plain::head_len(raw) + 20 <= raw.len(),
    ensures
        segment_kept(
            raw,
            tcp::readdressed_v4(raw, from.ip, to.ip, Some((from.port, to.port)), mss),
            plain::head_len(raw),
            mss,
        ),
{
    let off = plain::head_len(raw);
    let out = tcp::readdressed_v4(raw, from.ip, to.ip, Some((from.port, to.port)), mss);
    let first = wire::put32(raw, 12, from.ip.bits as int);
    let addressed = wire::put32(first, 16, to.ip.bits as int);
    wire::lemma_put32(raw, 12, from.ip.bits as int);
    wire::lemma_put32(first, 16, to.ip.bits as int);
    let half = wire::put16(addressed, off, from.port as int);
    let ported = wire::put16(half, off + 2, to.port as int);
    let limited = tcp::mss_limited(ported, off, mss);
    if let Some(m) = mss {
        tcp::law_clamp_limits_mss(ported, off, m as int);
        if let Some(at) = tcp::mss_at(ported, off) {
            let end = off + 4 * (ported[off + 12] / 16);
            lemma_option_place(ported.subrange(off + 20, end), 0);
        }
    }
    assert(limited.len() == raw.len());
    assert forall|k: int| off + 4 <= k < raw.len() implies #[trigger] ported[k] == raw[k] by {
        assert(ported[k] == addressed[k]);
        assert(addressed[k] == first[k]);
    }
    assert(ported[0] == raw[0]);
    assert(limited[0] == ported[0]);
    let done = checksum::tcp_rechecked_v4(limited, off);
    assert(done[0] == raw[0]);
    assert(out == checksum::ipv4_rechecked(done));
    assert(out.len() == raw.len());
    assert forall|k: int|
        off + 4 <= k < raw.len() && k != off + 16 && k != off + 17 implies #[trigger] out[k]
        == limited[k] by {
        assert(out[k] == done[k]);
    }
    lemma_segment_kept(raw, ported, out, off, mss);
}

proof fn lemma_sent_v6(
    raw: Seq<u8>,
    off: int,
    from: SocketAddrV6,
    to: SocketAddrV6,
    mss: Option<u16>,
)
    requires
        40 <= off,
        off + 20 <= raw.len(),
    ensures
        sent_v6(
            raw,
            tcp::readdressed_v6(raw, off, from.ip, to.ip, Some((from.port, to.port)), mss),
            off,
            from,
            to,
            mss,
        ),
{
    let out = tcp::readdressed_v6(raw, off, from.ip, to.ip, Some((from.port, to.port)), mss);
    lemma_kept_v6(raw, off, from, to, mss);
    tcp::law_readdressed_v6(raw, off, from.ip, to.ip, from.port, to.port, mss);
    assert(plain::sound_v6(out, off, 6) || raw.len() - off >= 0x1_0000_0000) by {
        if raw.len() - off < 0x1_0000_0000 {
            plain::lemma_sound(
                out.subrange(8, 24),
                out.subrange(24, 40),
                6,
                out.subrange(off, out.len() as int),
                checksum::limit_v6(),
            );
        }
    }
    assert(plain::is_v6(out, 8, from.ip)) by {
        plain::lemma_n128(out, 8);
        assert(tcp::src_v6(out).bits == from.ip.bits);
    }
    assert(plain::is_v6(out, 24, to.ip)) by {
        plain::lemma_n128(out, 24);
        assert(tcp::dst_v6(out).bits == to.ip.bits);
    }
}

proof fn lemma_kept_v6(
    raw: Seq<u8>,
    off: int,
    from: SocketAddrV6,
    to: SocketAddrV6,
    mss: Option<u16>,
)
    requires
        40 <= off,
        off + 20 <= raw.len(),
    ensures
        ({
            let out = tcp::readdressed_v6(raw, off, from.ip, to.ip, Some((from.port, to.port)), mss);
            &&& segment_kept(raw, out, off, mss)
            &&& forall|k: int| 0 <= k < off && !(8 <= k < 40) ==> #[trigger] out[k] == raw[k]
        }),
{
    let out = tcp::readdressed_v6(raw, off, from.ip, to.ip, Some((from.port, to.port)), mss);
    let first = wire::put128(raw, 8, from.ip.bits as int);
    let addressed = wire::put128(first, 24, to.ip.bits as int);
    wire::lemma_put128(raw, 8, from.ip.bits as int);
    wire::lemma_put128(first, 24, to.ip.bits as int);
    let ported = wire::put16(
        wire::put16(addressed, off, from.port as int),
        off + 2,
        to.port as int,
    );
    let limited = tcp::mss_limited(ported, off, mss);
    if let Some(m) = mss {
        tcp::law_clamp_limits_mss(ported, off, m as int);
        if let Some(at) = tcp::mss_at(ported, off) {
            let end = off + 4 * (ported[off + 12] / 16);
            lemma_option_place(ported.subrange(off + 20, end), 0);
        }
    }
    assert(limited.len() == raw.len());
    assert forall|k: int| off + 4 <= k < raw.len() implies #[trigger] ported[k] == raw[k] by {
        assert(ported[k] == addressed[k]);
        assert(addressed[k] == first[k]);
    }
    assert forall|k: int| 0 <= k < off && !(8 <= k < 40) implies #[trigger] ported[k]
        == raw[k] by {
        assert(ported[k] == addressed[k]);
        assert(addressed[k] == first[k]);
    }
    assert(out == checksum::tcp_rechecked_v6(limited, off));
    assert(out.len() == raw.len());
    lemma_segment_kept(raw, ported, out, off, mss);
}

/// The sockets that an IPv4 packet names.
pub open spec fn source_v4(pkt: Seq<u8>) -> SocketAddrV4 {
    SocketAddrV4 {
        ip: Ipv4Addr { bits: plain::n32(pkt, 12) as u32 },
        port: plain::n16(pkt, plain::head_len(pkt)) as u16,
    }
}

pub open spec fn destination_v4(pkt: Seq<u8>) -> SocketAddrV4 {
    SocketAddrV4 {
        ip: Ipv4Addr { bits: plain::n32(pkt, 16) as u32 },
        port: plain::n16(pkt, plain::head_len(pkt) + 2) as u16,
    }
}

/// The sockets that an IPv6 packet names, whose transport header starts at
/// `off`.
pub open spec fn source_v6(pkt: Seq<u8>, off: int) -> SocketAddrV6 {
    SocketAddrV6 {
        ip: Ipv6Addr { bits: plain::n128(pkt, 8) as u128 },
        port: plain::n16(pkt, off) as u16,
    }
}

pub open spec fn destination_v6(pkt: Seq<u8>, off: int) -> SocketAddrV6 {
    SocketAddrV6 {
        ip: Ipv6Addr { bits: plain::n128(pkt, 24) as u128 },
        port: plain::n16(pkt, off + 2) as u16,
    }
}

/// No connection comes, goes or changes.
pub open spec fn same_connections(before: TcpNat, after: TcpNat) -> bool {
    forall|p: u16|
        #![trigger after.sessions().contains_key(p)]
        {
            &&& after.sessions().contains_key(p) <==> before.sessions().contains_key(p)
            &&& after.sessions().contains_key(p) ==> after.sessions()[p].source
                == before.sessions()[p].source && after.sessions()[p].destination
                == before.sessions()[p].destination
        }
}

/// The connection has this port, and every other port is as it was.
pub open spec fn has_port(
    before: TcpNat,
    after: TcpNat,
    src: SocketAddr,
    dst: SocketAddr,
    p: u16,
) -> bool {
    &&& 10000 <= p
    &&& after.sessions().contains_key(p)
    &&& after.sessions()[p].source == src
    &&& after.sessions()[p].destination == dst
    &&& before.sessions().contains_key(p) ==> before.sessions()[p].source == src
        && before.sessions()[p].destination == dst
    &&& forall|q: u16|
        #![trigger after.sessions().contains_key(q)]
        q != p ==> {
            &&& after.sessions().contains_key(q) <==> before.sessions().contains_key(q)
            &&& after.sessions().contains_key(q) ==> after.sessions()[q] == before.sessions()[q]
        }
}

/// Some port that can be given is free.
pub open spec fn port_left(table: TcpNat) -> bool {
    exists|p: u16| 10000 <= p && !#[trigger] table.sessions().contains_key(p)
}

/// Some port belongs to the connection.
pub open spec fn port_held(table: TcpNat, src: SocketAddr, dst: SocketAddr) -> bool {
    exists|p: u16| #[trigger]
        table.sessions().contains_key(p) && table.sessions()[p].source == src
            && table.sessions()[p].destination == dst
}

/// A connection that has a port keeps it, and one that has none gets one as
/// long as there is one.
pub proof fn law_connection_gets_port(
    before: TcpNat,
    after: TcpNat,
    src: SocketAddr,
    dst: SocketAddr,
    now: u64,
    r: Option<u16>,
)
    requires
        before.wf(),
        tcp_nat::looked_up(before, after, src, dst, now, r),
    ensures
        r is Some <==> port_held(before, src, dst) || port_left(before),
        r matches Some(p) ==> has_port(before, after, src, dst, p),
        r is None ==> same_connections(before, after),
        r matches Some(p) ==> (before.sessions().contains_key(p) <==> port_held(before, src, dst)),
{
    if !before.unknown(src, dst) {
        let p = choose|p: u16| before.maps(src, dst, p);
        assert(before.maps(src, dst, p));
        assert(port_held(before, src, dst));
        tcp_nat::law_one_port_per_connection(before, src, dst, p, p);
    } else if port_held(before, src, dst) {
        let p = choose|p: u16| #[trigger]
            before.sessions().contains_key(p) && before.sessions()[p].source == src
                && before.sessions()[p].destination == dst;
        assert(before.maps(src, dst, p));
    }
    if r is None {
        assert(before.exhausted());
    }
    if let Some(p) = r {
        if before.unknown(src, dst) {
            assert(!before.sessions().contains_key(p));
            assert(port_left(before));
        }
    }
}

/// An IPv4 packet from a listener's address and port goes to the client of the
/// connection on its destination port, as from the destination of that
/// connection; without such a connection it goes no further. No connection
/// changes.
pub proof fn law_answers_go_back_v4(
    raw: Seq<u8>,
    ctx: TcpContextV4,
    before: TcpNat,
    after: TcpNat,
    now: u64,
    r: Option<Seq<u8>>,
)
    requires
        tcp::tcp_outcome_v4(raw, ctx, before, after, now, r),
        ctx.client_addr is Some,
        20 <= plain::head_len(raw),
        plain::head_len(raw) + 20 <= raw.len(),
        ctx.server_addr == Some(source_v4(raw).ip),
        source_v4(raw).port == ctx.tcp_port || ctx.dns_tcp_port == Some(source_v4(raw).port),
    ensures
        same_connections(before, after),
        ({
            let port = destination_v4(raw).port;
            let known = before.sessions().contains_key(port) && before.sessions()[port].source is V4
                && before.sessions()[port].destination is V4;
            &&& r is Some <==> known
            &&& known ==> sent_v4(
                raw,
                r->0,
                before.sessions()[port].destination->V4_0,
                before.sessions()[port].source->V4_0,
                ctx.tcp_mss,
            )
        }),
{
    let off = plain::head_len(raw);
    plain::lemma_n32(raw, 12);
    let port = destination_v4(raw).port;
    if before.sessions().contains_key(port) {
        let e = before.sessions()[port];
        if let (SocketAddr::V4(client), SocketAddr::V4(server)) = (e.source, e.destination) {
            lemma_sent_v4(raw, server, client, ctx.tcp_mss);
        }
    }
}

/// The same for IPv6.
pub proof fn law_answers_go_back_v6(
    raw: Seq<u8>,
    off: int,
    ctx: TcpContextV6,
    before: TcpNat,
    after: TcpNat,
    now: u64,
    r: Option<Seq<u8>>,
)
    requires
        tcp::tcp_outcome_v6(raw, off, ctx, before, after, now, r),
        ctx.client_addr is Some,
        40 <= off,
        off + 20 <= raw.len(),
        ctx.server_addr == Some(source_v6(raw, off).ip),
        source_v6(raw, off).port == ctx.tcp_port || ctx.dns_tcp_port == Some(
            source_v6(raw, off).port,
        ),
    ensures
        same_connections(before, after),
        ({
            let port = destination_v6(raw, off).port;
            let known = before.sessions().contains_key(port) && before.sessions()[port].source is V6
                && before.sessions()[port].destination is V6;
            &&& r is Some <==> known
            &&& known ==> sent_v6(
                raw,
                r->0,
                off,
                before.sessions()[port].destination->V6_0,
                before.sessions()[port].source->V6_0,
                ctx.tcp_mss,
            )
        }),
{
    plain::lemma_n128(raw, 8);
    let port = destination_v6(raw, off).port;
    if before.sessions().contains_key(port) {
        let e = before.sessions()[port];
        if let (SocketAddr::V6(client), SocketAddr::V6(server)) = (e.source, e.destination) {
            lemma_sent_v6(raw, off, server, client, ctx.tcp_mss);
        }
    }
}

/// The port of the listener that a connection to `port` belongs to.
pub open spec fn listens(
    port: u16,
    tcp_port: u16,
    dns_tcp_port: Option<u16>,
    dns_hijack: bool,
    listener: int,
) -> bool {
    if port == 53 && dns_hijack && dns_tcp_port is Some {
        dns_tcp_port == Some(listener as u16) && 0 <= listener < 65536
    } else {
        listener == tcp_port
    }
}

/// An IPv4 packet that does not come from a listener goes no further where its
/// destination is not reachable; it goes back to its sender, as from its
/// destination, where that is a reflected address; else it goes from the
/// tunnel's client address, with the port of its connection, to the listener,
/// as long as there is a port for the connection.
pub proof fn law_connections_are_led_v4(
    raw: Seq<u8>,
    ctx: TcpContextV4,
    before: TcpNat,
    after: TcpNat,
    now: u64,
    r: Option<Seq<u8>>,
)
    requires
        before.wf(),
        tcp::tcp_outcome_v4(raw, ctx, before, after, now, r),
        ctx.client_addr is Some,
        ctx.server_addr is Some,
        20 <= plain::head_len(raw),
        plain::head_len(raw) + 20 <= raw.len(),
        !(ctx.server_addr == Some(source_v4(raw).ip) && (source_v4(raw).port == ctx.tcp_port
            || ctx.dns_tcp_port == Some(source_v4(raw).port))),
    ensures
        !plain::reachable_v4(raw, 16) ==> r is None && same_connections(before, after),
        plain::reachable_v4(raw, 16) && ctx.loopback@.contains(destination_v4(raw).ip) ==> {
            &&& r is Some
            &&& same_connections(before, after)
            &&& sent_v4(
                raw,
                r->0,
                SocketAddrV4 { ip: destination_v4(raw).ip, port: source_v4(raw).port },
                SocketAddrV4 { ip: source_v4(raw).ip, port: destination_v4(raw).port },
                ctx.tcp_mss,
            )
        },
        plain::reachable_v4(raw, 16) && !ctx.loopback@.contains(destination_v4(raw).ip) ==> {
            let src = SocketAddr::V4(source_v4(raw));
            let dst = SocketAddr::V4(destination_v4(raw));
            let off = plain::head_len(raw);
            &&& r is Some <==> port_held(before, src, dst) || port_left(before)
            &&& r is None ==> same_connections(before, after)
            &&& r matches Some(out) ==> {
                let p = plain::n16(out, off) as u16;
                let listener = plain::n16(out, off + 2) as u16;
                &&& has_port(before, after, src, dst, p)
                &&& listens(
                    destination_v4(raw).port,
                    ctx.tcp_port,
                    ctx.dns_tcp_port,
                    ctx.dns_hijack,
                    listener as int,
                )
                &&& sent_v4(
                    raw,
                    out,
                    SocketAddrV4 { ip: ctx.client_addr->0, port: p },
                    SocketAddrV4 { ip: ctx.server_addr->0, port: listener },
                    ctx.tcp_mss,
                )
            }
        },
{
    let off = plain::head_len(raw);
    assert(plain::n32(raw, 12) == wire::be32(raw, 12) && plain::n32(raw, 16) == wire::be32(
        raw,
        16,
    )) by {
        plain::lemma_n32(raw, 12);
        plain::lemma_n32(raw, 16);
    }
    assert(plain::is_v4(raw, 16, destination_v4(raw).ip)) by {
        plain::lemma_n32(raw, 16);
    }
    plain::law_reachable_v4(raw, 16, destination_v4(raw).ip);
    assert(tcp::src_v4(raw) == source_v4(raw).ip);
    assert(tcp::dst_v4(raw) == destination_v4(raw).ip);
    assert(checksum::header_len(raw) == off);
    if plain::reachable_v4(raw, 16) {
        if ctx.loopback@.contains(destination_v4(raw).ip) {
            let from = SocketAddrV4 { ip: destination_v4(raw).ip, port: source_v4(raw).port };
            let to = SocketAddrV4 { ip: source_v4(raw).ip, port: destination_v4(raw).port };
            lemma_sent_v4(raw, from, to, ctx.tcp_mss);
            lemma_own_ports_v4(raw, from, to);
        } else {
            let src = SocketAddr::V4(source_v4(raw));
            let dst = SocketAddr::V4(destination_v4(raw));
            let lp = tcp::listener_port(
                destination_v4(raw).port as int,
                ctx.tcp_port,
                ctx.dns_tcp_port,
                ctx.dns_hijack,
            );
            let port = choose|port: Option<u16>|
                #[trigger] tcp_nat::looked_up(before, after, src, dst, now, port) && r == (
                match port {
                    Some(p) => Some(
                        tcp::readdressed_v4(
                            raw,
                            ctx.client_addr->0,
                            ctx.server_addr->0,
                            Some((p, lp)),
                            ctx.tcp_mss,
                        ),
                    ),
                    None => None,
                });
            law_connection_gets_port(before, after, src, dst, now, port);
            if let Some(p) = port {
                lemma_sent_v4(
                    raw,
                    SocketAddrV4 { ip: ctx.client_addr->0, port: p },
                    SocketAddrV4 { ip: ctx.server_addr->0, port: lp },
                    ctx.tcp_mss,
                );
            }
        }
    }
}

/// The same for IPv6.
pub proof fn law_connections_are_led_v6(
    raw: Seq<u8>,
    off: int,
    ctx: TcpContextV6,
    before: TcpNat,
    after: TcpNat,
    now: u64,
    r: Option<Seq<u8>>,
)
    requires
        before.wf(),
        tcp::tcp_outcome_v6(raw, off, ctx, before, after, now, r),
        ctx.client_addr is Some,
        ctx.server_addr is Some,
        40 <= off,
        off + 20 <= raw.len(),
        !(ctx.server_addr == Some(source_v6(raw, off).ip) && (source_v6(raw, off).port
            == ctx.tcp_port || ctx.dns_tcp_port == Some(source_v6(raw, off).port))),
    ensures
        !plain::reachable_v6(raw, 24) ==> r is None && same_connections(before, after),
        plain::reachable_v6(raw, 24) && ctx.loopback@.contains(destination_v6(raw, off).ip) ==> {
            &&& r is Some
            &&& same_connections(before, after)
            &&& sent_v6(
                raw,
                r->0,
                off,
                SocketAddrV6 { ip: destination_v6(raw, off).ip, port: source_v6(raw, off).port },
                SocketAddrV6 { ip: source_v6(raw, off).ip, port: destination_v6(raw, off).port },
                ctx.tcp_mss,
            )
        },
        plain::reachable_v6(raw, 24) && !ctx.loopback@.contains(destination_v6(raw, off).ip) ==> {
            let src = SocketAddr::V6(source_v6(raw, off));
            let dst = SocketAddr::V6(destination_v6(raw, off));
            &&& r is Some <==> port_held(before, src, dst) || port_left(before)
            &&& r is None ==> same_connections(before, after)
            &&& r matches Some(out) ==> {
                let p = plain::n16(out, off) as u16;
                let listener = plain::n16(out, off + 2) as u16;
                &&& has_port(before, after, src, dst, p)
                &&& listens(
                    destination_v6(raw, off).port,
                    ctx.tcp_port,
                    ctx.dns_tcp_port,
                    ctx.dns_hijack,
                    listener as int,
                )
                &&& sent_v6(
                    raw,
                    out,
                    off,
                    SocketAddrV6 { ip: ctx.client_addr->0, port: p },
                    SocketAddrV6 { ip: ctx.server_addr->0, port: listener },
                    ctx.tcp_mss,
                )
            }
        },
{
    assert(plain::n128(raw, 8) == wire::be128(raw, 8) && plain::n128(raw, 24) == wire::be128(
        raw,
        24,
    )) by {
        plain::lemma_n128(raw, 8);
        plain::lemma_n128(raw, 24);
    }
    assert(plain::is_v6(raw, 24, destination_v6(raw, off).ip)) by {
        plain::lemma_n128(raw, 24);
    }
    plain::law_reachable_v6(raw, 24, destination_v6(raw, off).ip);
    assert(tcp::src_v6(raw) == source_v6(raw, off).ip);
    assert(tcp::dst_v6(raw) == destination_v6(raw, off).ip);
    if plain::reachable_v6(raw, 24) {
        if ctx.loopback@.contains(destination_v6(raw, off).ip) {
            let from = SocketAddrV6 {
                ip: destination_v6(raw, off).ip,
                port: source_v6(raw, off).port,
            };
            let to = SocketAddrV6 {
                ip: source_v6(raw, off).ip,
                port: destination_v6(raw, off).port,
            };
            lemma_sent_v6(raw, off, from, to, ctx.tcp_mss);
            lemma_own_ports_v6(raw, off, from, to);
        } else {
            let src = SocketAddr::V6(source_v6(raw, off));
            let dst = SocketAddr::V6(destination_v6(raw, off));
            let lp = tcp::listener_port(
                destination_v6(raw, off).port as int,
                ctx.tcp_port,
                ctx.dns_tcp_port,
                ctx.dns_hijack,
            );
            let port = choose|port: Option<u16>|
                #[trigger] tcp_nat::looked_up(before, after, src, dst, now, port) && r == (
                match port {
                    Some(p) => Some(
                        tcp::readdressed_v6(
                            raw,
                            off,
                            ctx.client_addr->0,
                            ctx.server_addr->0,
                            Some((p, lp)),
                            ctx.tcp_mss,
                        ),
                    ),
                    None => None,
                });
            law_connection_gets_port(before, after, src, dst, now, port);
            if let Some(p) = port {
                lemma_sent_v6(
                    raw,
                    off,
                    SocketAddrV6 { ip: ctx.client_addr->0, port: p },
                    SocketAddrV6 { ip: ctx.server_addr->0, port: lp },
                    ctx.tcp_mss,
                );
            }
        }
    }
}

proof fn lemma_own_ports_v4(raw: Seq<u8>, from: SocketAddrV4, to: SocketAddrV4)
    requires
        20 <= plain::head_len(raw),
        plain::head_len(raw) + 20 <= raw.len(),
        from.port == plain::n16(raw, plain::head_len(raw)),
        to.port == plain::n16(raw, plain::head_len(raw) + 2),
    ensures
        ({
            let off = plain::head_len(raw);
            let a = wire::put32(wire::put32(raw, 12, from.ip.bits as int), 16, to.ip.bits as int);
            wire::put16(wire::put16(a, off, from.port as int), off + 2, to.port as int) == a
        }),
{
    let off = plain::head_len(raw);
    let first = wire::put32(raw, 12, from.ip.bits as int);
    let a = wire::put32(first, 16, to.ip.bits as int);
    wire::lemma_put32(raw, 12, from.ip.bits as int);
    wire::lemma_put32(first, 16, to.ip.bits as int);
    assert(a[off] == first[off] && a[off + 1] == first[off + 1]);
    assert(a[off + 2] == first[off + 2] && a[off + 3] == first[off + 3]);
    assert(wire::put16(wire::put16(a, off, from.port as int), off + 2, to.port as int) =~= a);
}

proof fn lemma_own_ports_v6(raw: Seq<u8>, off: int, from: SocketAddrV6, to: SocketAddrV6)
    requires
        40 <= off,
        off + 20 <= raw.len(),
        from.port == plain::n16(raw, off),
        to.port == plain::n16(raw, off + 2),
    ensures
        ({
            let a = wire::put128(wire::put128(raw, 8, from.ip.bits as int), 24, to.ip.bits as int);
            wire::put16(wire::put16(a, off, from.port as int), off + 2, to.port as int) == a
        }),
{
    let first = wire::put128(raw, 8, from.ip.bits as int);
    let a = wire::put128(first, 24, to.ip.bits as int);
    wire::lemma_put128(raw, 8, from.ip.bits as int);
    wire::lemma_put128(first, 24, to.ip.bits as int);
    assert(a[off] == first[off] && a[off + 1] == first[off + 1]);
    assert(a[off + 2] == first[off + 2] && a[off + 3] == first[off + 3]);
    assert(wire::put16(wire::put16(a, off, from.port as int), off + 2, to.port as int) =~= a);
}

/// Without an address for the listener or for its client, and for a packet that
/// is too short for a TCP header, nothing happens.
pub proof fn law_unfit_segments_dropped(
    raw: Seq<u8>,
    off: int,
    v4: TcpContextV4,
    v6: TcpContextV6,
    before: TcpNat,
    after: TcpNat,
    now: u64,
    r: Option<Seq<u8>>,
)
    ensures
        tcp::tcp_outcome_v4(raw, v4, before, after, now, r) && (v4.server_addr is None
            || v4.client_addr is None || raw.len() < plain::head_len(raw) + 20) ==> r is None
            && after == before,
        tcp::tcp_outcome_v6(raw, off, v6, before, after, now, r) && (v6.server_addr is None
            || v6.client_addr is None || raw.len() < off + 20) ==> r is None && after == before,
{
}

/// What a TCP packet over IPv4 comes to, told by its bytes.
pub open spec fn served_v4(
    raw: Seq<u8>,
    ctx: TcpContextV4,
    before: TcpNat,
    after: TcpNat,
    r: Option<Seq<u8>>,
) -> bool {
    let off = plain::head_len(raw);
    let src = source_v4(raw);
    let dst = destination_v4(raw);
    if ctx.server_addr is None || ctx.client_addr is None || raw.len() < off + 20 {
        r is None && after == before
    } else if ctx.server_addr == Some(src.ip) && (src.port == ctx.tcp_port || ctx.dns_tcp_port
        == Some(src.port)) {
        let known = before.sessions().contains_key(dst.port) && before.sessions()[dst.port].source is V4
            && before.sessions()[dst.port].destination is V4;
        &&& same_connections(before, after)
        &&& r is Some <==> known
        &&& known ==> sent_v4(
            raw,
            r->0,
            before.sessions()[dst.port].destination->V4_0,
            before.sessions()[dst.port].source->V4_0,
            ctx.tcp_mss,
        )
    } else if !plain::reachable_v4(raw, 16) {
        r is None && same_connections(before, after)
    } else if ctx.loopback@.contains(dst.ip) {
        &&& same_connections(before, after)
        &&& r is Some
        &&& sent_v4(
            raw,
            r->0,
            SocketAddrV4 { ip: dst.ip, port: src.port },
            SocketAddrV4 { ip: src.ip, port: dst.port },
            ctx.tcp_mss,
        )
    } else {
        let a = SocketAddr::V4(src);
        let b = SocketAddr::V4(dst);
        &&& r is Some <==> port_held(before, a, b) || port_left(before)
        &&& r is None ==> same_connections(before, after)
        &&& r matches Some(out) ==> {
            let p = plain::n16(out, off) as u16;
            let listener = plain::n16(out, off + 2) as u16;
            &&& has_port(before, after, a, b, p)
            &&& listens(dst.port, ctx.tcp_port, ctx.dns_tcp_port, ctx.dns_hijack, listener as int)
            &&& sent_v4(
                raw,
                out,
                SocketAddrV4 { ip: ctx.client_addr->0, port: p },
                SocketAddrV4 { ip: ctx.server_addr->0, port: listener },
                ctx.tcp_mss,
            )
        }
    }
}

/// What a TCP packet over IPv6 comes to, told by its bytes.
pub open spec fn served_v6(
    raw: Seq<u8>,
    off: int,
    ctx: TcpContextV6,
    before: TcpNat,
    after: TcpNat,
    r: Option<Seq<u8>>,
) -> bool {
    let src = source_v6(raw, off);
    let dst = destination_v6(raw, off);
    if ctx.server_addr is None || ctx.client_addr is None || raw.len() < off + 20 {
        r is None && after == before
    } else if ctx.server_addr == Some(src.ip) && (src.port == ctx.tcp_port || ctx.dns_tcp_port
        == Some(src.port)) {
        let known = before.sessions().contains_key(dst.port) && before.sessions()[dst.port].source is V6
            && before.sessions()[dst.port].destination is V6;
        &&& same_connections(before, after)
        &&& r is Some <==> known
        &&& known ==> sent_v6(
            raw,
            r->0,
            off,
            before.sessions()[dst.port].destination->V6_0,
            before.sessions()[dst.port].source->V6_0,
            ctx.tcp_mss,
        )
    } else if !plain::reachable_v6(raw, 24) {
        r is None && same_connections(before, after)
    } else if ctx.loopback@.contains(dst.ip) {
        &&& same_connections(before, after)
        &&& r is Some
        &&& sent_v6(
            raw,
            r->0,
            off,
            SocketAddrV6 { ip: dst.ip, port: src.port },
            SocketAddrV6 { ip: src.ip, port: dst.port },
            ctx.tcp_mss,
        )
    } else {
        let a = SocketAddr::V6(src);
        let b = SocketAddr::V6(dst);
        &&& r is Some <==> port_held(before, a, b) || port_left(before)
        &&& r is None ==> same_connections(before, after)
        &&& r matches Some(out) ==> {
            let p = plain::n16(out, off) as u16;
            let listener = plain::n16(out, off + 2) as u16;
            &&& has_port(before, after, a, b, p)
            &&& listens(dst.port, ctx.tcp_port, ctx.dns_tcp_port, ctx.dns_hijack, listener as int)
            &&& sent_v6(
                raw,
                out,
                off,
                SocketAddrV6 { ip: ctx.client_addr->0, port: p },
                SocketAddrV6 { ip: ctx.server_addr->0, port: listener },
                ctx.tcp_mss,
            )
        }
    }
}

/// Every TCP packet over IPv4 is served as its bytes say.
pub proof fn law_segments_are_served_v4(
    raw: Seq<u8>,
    ctx: TcpContextV4,
    before: TcpNat,
    after: TcpNat,
    now: u64,
    r: Option<Seq<u8>>,
)
    requires
        before.wf(),
        20 <= plain::head_len(raw),
        tcp::tcp_outcome_v4(raw, ctx, before, after, now, r),
    ensures
        served_v4(raw, ctx, before, after, r),
{
    let off = plain::head_len(raw);
    if ctx.server_addr is Some && ctx.client_addr is Some && raw.len() >= off + 20 {
        let src = source_v4(raw);
        if ctx.server_addr == Some(src.ip) && (src.port == ctx.tcp_port || ctx.dns_tcp_port == Some(
            src.port,
        )) {
            law_answers_go_back_v4(raw, ctx, before, after, now, r);
        } else {
            law_connections_are_led_v4(raw, ctx, before, after, now, r);
        }
    }
}

/// Every TCP packet over IPv6 is served as its bytes say.
pub proof fn law_segments_are_served_v6(
    raw: Seq<u8>,
    off: int,
    ctx: TcpContextV6,
    before: TcpNat,
    after: TcpNat,
    now: u64,
    r: Option<Seq<u8>>,
)
    requires
        before.wf(),
        40 <= off,
        tcp::tcp_outcome_v6(raw, off, ctx, before, after, now, r),
    ensures
        served_v6(raw, off, ctx, before, after, r),
{
    if ctx.server_addr is Some && ctx.client_addr is Some && raw.len() >= off + 20 {
        let src = source_v6(raw, off);
        if ctx.server_addr == Some(src.ip) && (src.port == ctx.tcp_port || ctx.dns_tcp_port == Some(
            src.port,
        )) {
            law_answers_go_back_v6(raw, off, ctx, before, after, now, r);
        } else {
            law_connections_are_led_v6(raw, off, ctx, before, after, now, r);
        }
    }
}

} // verus!
