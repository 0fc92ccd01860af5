//! Where each packet of the tunnel goes in each of the stacks, told by its
//! bytes.
use vstd::prelude::*;

use crate::addr;
use crate::addr::{IpAddr, Ipv4Addr, Ipv6Addr, SocketAddr};
use crate::checksum;
use crate::echo;
use crate::echo_laws;
use crate::plain;
use crate::process;
use crate::process::{ActionView, StackView};
use crate::tcp;
use crate::tcp::{TcpContextV4, TcpContextV6};
use crate::tcp_laws;
use crate::tcp_nat::TcpNat;
use crate::udp;
use crate::wire;

verus! {

/// A header of this type is followed by another: hop-by-hop options, routing
/// and destination options.
pub open spec fn is_extension(kind: u8) -> bool {
    kind == 0 || kind == 43 || kind == 60
}

/// The header at place `j` of a list is an extension header that fits the
/// packet, and it names the next of the list, which starts behind it.
pub open spec fn header_linked(
    raw: Seq<u8>,
    kinds: Seq<u8>,
    starts: Seq<int>,
    j: int,
) -> bool {
    let s = starts[j];
    let next = s + 8 * (raw[s + 1] + 1);
    &&& is_extension(kinds[j])
    &&& s + 2 <= raw.len()
    &&& next <= raw.len()
    &&& kinds[j + 1] == raw[s]
    &&& starts[j + 1] == next
}

/// The headers of an IPv6 packet behind the fixed one, by type and place; each
/// names the next.
pub open spec fn header_chain(raw: Seq<u8>, kinds: Seq<u8>, starts: Seq<int>) -> bool {
    &&& kinds.len() == starts.len()
    &&& kinds.len() > 0
    &&& forall|j: int|
        0 <= j < kinds.len() - 1 ==> #[trigger] header_linked(raw, kinds, starts, j)
}

/// Behind all extension headers, none of them a fragment header, a header of
/// type `proto` starts at `at`.
pub open spec fn transport_at(raw: Seq<u8>, proto: u8, at: int) -> bool {
    &&& raw.len() >= 40
    &&& !is_extension(proto)
    &&& proto != 44
    &&& exists|kinds: Seq<u8>, starts: Seq<int>| #[trigger]
        header_chain(raw, kinds, starts) && kinds[0] == raw[6] && starts[0] == 40 && kinds.last()
            == proto && starts.last() == at
}

proof fn lemma_chain_walked(raw: Seq<u8>, kinds: Seq<u8>, starts: Seq<int>, j: int)
    requires
        raw.len() >= 40,
        header_chain(raw, kinds, starts),
        starts[0] == 40,
        0 <= j < kinds.len(),
        !is_extension(kinds.last()),
        kinds.last() != 44,
    ensures
        40 <= starts[j] <= raw.len(),
        udp::ext_walk(kinds[j], raw.subrange(40, raw.len() as int), starts[j] - 40) == (
            kinds.last(),
            starts.last() - 40,
            false,
            true,
        ),
    decreases kinds.len() - j,
{
    lemma_chain_places(raw, kinds, starts, j);
    let payload = raw.subrange(40, raw.len() as int);
    if j + 1 < kinds.len() {
        lemma_chain_walked(raw, kinds, starts, j + 1);
        assert(header_linked(raw, kinds, starts, j));
        let s = starts[j];
        assert(payload[s - 40] == raw[s]);
        assert(payload[s - 40 + 1] == raw[s + 1]);
    }
}

proof fn lemma_chain_places(raw: Seq<u8>, kinds: Seq<u8>, starts: Seq<int>, j: int)
    requires
        raw.len() >= 40,
        header_chain(raw, kinds, starts),
        starts[0] == 40,
        0 <= j < kinds.len(),
    ensures
        40 <= starts[j] <= raw.len(),
    decreases j,
{
    if j > 0 {
        lemma_chain_places(raw, kinds, starts, j - 1);
        assert(header_linked(raw, kinds, starts, j - 1));
    }
}

proof fn lemma_walked_chain(raw: Seq<u8>, kind: u8, s: int) -> (r: (Seq<u8>, Seq<int>))
    requires
        40 <= s <= raw.len(),
        ({
            let w = udp::ext_walk(kind, raw.subrange(40, raw.len() as int), s - 40);
            !w.2 && w.3
        }),
    ensures
        ({
            let w = udp::ext_walk(kind, raw.subrange(40, raw.len() as int), s - 40);
            &&& header_chain(raw, r.0, r.1)
            &&& r.0[0] == kind
            &&& r.1[0] == s
            &&& r.0.last() == w.0
            &&& r.1.last() == 40 + w.1
            &&& !is_extension(w.0)
            &&& w.0 != 44
        }),
    decreases raw.len() - s,
{
    let payload = raw.subrange(40, raw.len() as int);
    if is_extension(kind) {
        assert(payload.len() - (s - 40) >= 2);
        assert(payload[s - 40] == raw[s]);
        assert(payload[s - 40 + 1] == raw[s + 1]);
        let next = s + (raw[s + 1] + 1) * 8;
        let (kinds, starts) = lemma_walked_chain(raw, raw[s], next);
        let k = seq![kind] + kinds;
        let t = seq![s] + starts;
        assert forall|j: int| 0 <= j < k.len() - 1 implies #[trigger] header_linked(
            raw,
            k,
            t,
            j,
        ) by {
            if j > 0 {
                assert(header_linked(raw, kinds, starts, j - 1));
                assert(k[j] == kinds[j - 1] && k[j + 1] == kinds[j]);
                assert(t[j] == starts[j - 1] && t[j + 1] == starts[j]);
            } else {
                assert(k[1] == kinds[0] && t[1] == starts[0]);
            }
        }
        (k, t)
    } else {
        (seq![kind], seq![s])
    }
}

/// The transport part of an IPv6 packet is found exactly where its headers lead
/// to.
pub proof fn law_transport_found(raw: Seq<u8>, proto: u8, at: int)
    ensures
        process::transport_v6(raw) == Some((proto, at)) <==> transport_at(raw, proto, at),
        process::transport_v6(raw) == Some((proto, at)) ==> 40 <= at <= raw.len(),
{
    if transport_at(raw, proto, at) {
        let (kinds, starts) = choose|kinds: Seq<u8>, starts: Seq<int>| #[trigger]
            header_chain(raw, kinds, starts) && kinds[0] == raw[6] && starts[0] == 40
                && kinds.last() == proto && starts.last() == at;
        lemma_chain_walked(raw, kinds, starts, 0);
        lemma_chain_places(raw, kinds, starts, kinds.len() - 1);
    }
    if process::transport_v6(raw) == Some((proto, at)) {
        let (kinds, starts) = lemma_walked_chain(raw, raw[6], 40);
        assert(header_chain(raw, kinds, starts) && kinds[0] == raw[6] && starts[0] == 40
            && kinds.last() == proto && starts.last() == at);
        lemma_chain_places(raw, kinds, starts, kinds.len() - 1);
    }
}

/// How many bytes a datagram whose header starts at `at` carries: as many as
/// its length says, but no more than there are.
pub open spec fn carried(raw: Seq<u8>, at: int) -> int {
    let there = raw.len() - at - 8;
    let said = plain::n16(raw, at + 4) - 8;
    if said < 0 {
        0
    } else {
        tcp_laws::lesser(said, there)
    }
}

/// The action hands on the datagram whose header starts at `at`, with the
/// headers in front of its data.
pub open spec fn hands_on(
    raw: Seq<u8>,
    at: int,
    src: SocketAddr,
    dst: SocketAddr,
    a: ActionView,
) -> bool {
    a == ActionView::Datagram(
        src,
        dst,
        raw.subrange(at + 8, at + 8 + carried(raw, at)),
        raw.subrange(0, at + 8),
    )
}

proof fn lemma_carried(raw: Seq<u8>, at: int)
    requires
        0 <= at,
        at + 8 <= raw.len(),
    ensures
        ({
            let udp = raw.subrange(at, raw.len() as int);
            &&& udp::udp_payload_len(udp) == carried(raw, at)
            &&& 0 <= carried(raw, at) <= raw.len() - at - 8
            &&& udp.subrange(8, 8 + carried(raw, at)) == raw.subrange(
                at + 8,
                at + 8 + carried(raw, at),
            )
        }),
{
    let udp = raw.subrange(at, raw.len() as int);
    assert(udp[4] == raw[at + 4] && udp[5] == raw[at + 5]);
    assert(udp.subrange(8, 8 + carried(raw, at)) =~= raw.subrange(
        at + 8,
        at + 8 + carried(raw, at),
    ));
}

/// What a TCP packet comes to, as an action.
pub open spec fn tcp_action_v4(
    raw: Seq<u8>,
    ctx: TcpContextV4,
    before: TcpNat,
    after: TcpNat,
    a: ActionView,
) -> bool {
    match a {
        ActionView::Drop => tcp_laws::served_v4(raw, ctx, before, after, None),
        ActionView::Write(out) => tcp_laws::served_v4(raw, ctx, before, after, Some(out)),
        _ => false,
    }
}

pub open spec fn tcp_action_v6(
    raw: Seq<u8>,
    at: int,
    ctx: TcpContextV6,
    before: TcpNat,
    after: TcpNat,
    a: ActionView,
) -> bool {
    match a {
        ActionView::Drop => tcp_laws::served_v6(raw, at, ctx, before, after, None),
        ActionView::Write(out) => tcp_laws::served_v6(raw, at, ctx, before, after, Some(out)),
        _ => false,
    }
}

/// More fragments follow the packet, or it is not the first: the flag that
/// forbids fragments says nothing here.
pub open spec fn is_piece(raw: Seq<u8>) -> bool {
    raw[6] % 64 != 0 || raw[7] != 0
}

/// The system stack takes every IPv4 packet to its handler: TCP to translation,
/// datagrams to sessions, echo requests to whom they ask where these are sent
/// on, and else to an answer on the spot. What has no whole header, goes to
/// the broadcast address or is a piece of a larger one goes no further.
pub proof fn law_system_takes_v4(
    raw: Seq<u8>,
    forward_echo: bool,
    broadcast: Option<Ipv4Addr>,
    v4: TcpContextV4,
    v6: TcpContextV6,
    before: TcpNat,
    after: TcpNat,
    now: u64,
    a: ActionView,
)
    requires
        before.wf(),
        process::outcome_system(raw, forward_echo, broadcast, v4, v6, before, after, now, a),
        raw.len() > 0,
        raw[0] / 16 == 4,
    ensures
        ({
            let head = plain::head_len(raw);
            let whole = raw.len() >= 20 && 20 <= head <= raw.len();
            let everyone = broadcast matches Some(b) && plain::is_v4(raw, 16, b);
            if forward_echo && echo_laws::asks_v4(raw) {
                &&& after == before
                &&& a matches ActionView::SendEcho(key, m) && Some((key, m)) == echo::echo_request(
                    raw,
                )
            } else if !whole || everyone {
                a == ActionView::Drop && after == before
            } else if raw[9] == 6 {
                if is_piece(raw) {
                    a == ActionView::Drop && after == before
                } else {
                    tcp_action_v4(raw, v4, before, after, a)
                }
            } else if raw[9] == 17 {
                &&& after == before
                &&& if is_piece(raw) || !plain::reachable_v4(raw, 16) || raw.len() < head + 8 {
                    a == ActionView::Drop
                } else {
                    hands_on(
                        raw,
                        head,
                        SocketAddr::V4(tcp_laws::source_v4(raw)),
                        SocketAddr::V4(tcp_laws::destination_v4(raw)),
                        a,
                    )
                }
            } else if raw[9] == 1 && plain::reachable_v4(raw, 16) && echo_laws::asks_v4(raw) {
                &&& after == before
                &&& a matches ActionView::Write(out) && echo_laws::answers_v4(raw, out)
            } else {
                a == ActionView::Drop && after == before
            }
        }),
{
    let head = plain::head_len(raw);
    echo_laws::law_requests_are_known(raw);
    assert(plain::n32(raw, 12) == wire::be32(raw, 12) && plain::n32(raw, 16) == wire::be32(
        raw,
        16,
    ) && 0 <= wire::be32(raw, 16) <= u32::MAX) by {
        plain::lemma_n32(raw, 12);
        plain::lemma_n32(raw, 16);
    }
    plain::law_reachable_v4(raw, 16, tcp::dst_v4(raw));
    if raw.len() >= 20 && 20 <= head <= raw.len() {
        echo_laws::law_requests_are_answered_v4(raw);
        assert(wire::be16(raw, 6) % 0x4000 != 0 <==> is_piece(raw));
        if raw[9] == 6 && process::admitted_v4(raw, broadcast) && !process::fragment_v4(raw) {
            let r = choose|r: Option<Seq<u8>>| #[trigger]
                tcp::tcp_outcome_v4(raw, v4, before, after, now, r) && a == process::write_if(r);
            tcp_laws::law_segments_are_served_v4(raw, v4, before, after, now, r);
        }
        if raw.len() >= head + 8 {
            lemma_carried(raw, head);
        }
    }
}

/// The same for IPv6; a packet goes by the header that its extension headers
/// lead to, and no further where they lead to none.
pub proof fn law_system_takes_v6(
    raw: Seq<u8>,
    forward_echo: bool,
    broadcast: Option<Ipv4Addr>,
    v4: TcpContextV4,
    v6: TcpContextV6,
    before: TcpNat,
    after: TcpNat,
    now: u64,
    a: ActionView,
)
    requires
        before.wf(),
        process::outcome_system(raw, forward_echo, broadcast, v4, v6, before, after, now, a),
        raw.len() > 0,
        raw[0] / 16 == 6,
    ensures
        forward_echo && echo_laws::asks_v6(raw) ==> after == before && (
        a matches ActionView::SendEcho(key, m) && Some((key, m)) == echo::echo_request(raw)),
        !(forward_echo && echo_laws::asks_v6(raw)) ==> {
            &&& forall|at: int| #[trigger]
                transport_at(raw, 6, at) ==> tcp_action_v6(raw, at, v6, before, after, a)
            &&& forall|at: int| #[trigger]
                transport_at(raw, 17, at) ==> after == before && (if !plain::reachable_v6(raw, 24)
                    || raw.len() < at + 8 {
                    a == ActionView::Drop
                } else {
                    hands_on(
                        raw,
                        at,
                        SocketAddr::V6(tcp_laws::source_v6(raw, at)),
                        SocketAddr::V6(tcp_laws::destination_v6(raw, at)),
                        a,
                    )
                })
            &&& raw.len() >= 40 && raw[6] == 58 ==> after == before && (if plain::reachable_v6(
                raw,
                24,
            ) && echo_laws::asks_v6(raw) {
                a matches ActionView::Write(out) && echo_laws::answers_v6(raw, out)
            } else {
                a == ActionView::Drop
            })
            &&& (forall|at: int| !#[trigger] transport_at(raw, 6, at)) && (forall|at: int|
                !#[trigger] transport_at(raw, 17, at)) && !(raw.len() >= 40 && raw[6] == 58) ==> a == ActionView::Drop && after == before
        },
{
    echo_laws::law_requests_are_known(raw);
    echo_laws::law_requests_are_answered_v6(raw);
    lemma_fields_v6(raw);
    plain::law_reachable_v6(raw, 24, tcp::dst_v6(raw));
    match process::transport_v6(raw) {
        Some((proto, at)) => {
            law_transport_found(raw, proto, at);
            lemma_walk_of_58(raw, proto, at);
            if proto == 6 {
                if !(forward_echo && echo_laws::asks_v6(raw)) {
                    let r = choose|r: Option<Seq<u8>>| #[trigger]
                        tcp::tcp_outcome_v6(raw, at, v6, before, after, now, r) && a
                            == process::write_if(r);
                    tcp_laws::law_segments_are_served_v6(raw, at, v6, before, after, now, r);
                }
            }
            if raw.len() >= at + 8 {
                lemma_carried(raw, at);
            }
        },
        None => {
            if raw.len() >= 40 && raw[6] == 58 {
                assert(udp::ext_walk(58, raw.subrange(40, raw.len() as int), 0).3);
            }
        },
    }
    assert forall|at: int| #[trigger] transport_at(raw, 6, at) implies process::transport_v6(raw)
        == Some((6u8, at)) by {
        law_transport_found(raw, 6, at);
    }
    assert forall|at: int| #[trigger] transport_at(raw, 17, at) implies process::transport_v6(raw)
        == Some((17u8, at)) by {
        law_transport_found(raw, 17, at);
    }
}

proof fn lemma_fields_v6(raw: Seq<u8>)
    ensures
        plain::n128(raw, 8) == wire::be128(raw, 8),
        plain::n128(raw, 24) == wire::be128(raw, 24),
        0 <= wire::be128(raw, 24) <= u128::MAX,
        0 <= wire::be128(raw, 8) <= u128::MAX,
        plain::is_v6(raw, 24, tcp::dst_v6(raw)),
        plain::is_v6(raw, 8, tcp::src_v6(raw)),
{
    plain::lemma_n128(raw, 8);
    plain::lemma_n128(raw, 24);
}

/// Where the fixed header names ICMPv6, that comes next; where it comes next,
/// the fixed header names it.
proof fn lemma_walk_of_58(raw: Seq<u8>, proto: u8, at: int)
    requires
        process::transport_v6(raw) == Some((proto, at)),
    ensures
        raw[6] == 58 ==> proto == 58 && at == 40,
        proto == 58 && at == 40 ==> raw[6] == 58,
{
    let payload = raw.subrange(40, raw.len() as int);
    if is_extension(raw[6]) {
        if payload.len() >= 2 && payload.len() >= (payload[1] + 1) * 8 {
            lemma_walk_rises(payload[0], payload, (payload[1] + 1) * 8);
        }
    }
}

proof fn lemma_walk_rises(kind: u8, payload: Seq<u8>, at: int)
    requires
        0 <= at <= payload.len(),
    ensures
        udp::ext_walk(kind, payload, at).1 >= at,
    decreases payload.len() - at,
{
    if is_extension(kind) && payload.len() - at >= 2 && payload.len() - at >= (payload[at + 1] + 1)
        * 8 {
        lemma_walk_rises(payload[at], payload, at + (payload[at + 1] + 1) * 8);
    }
}

/// A packet of any other IP version goes no further in any stack.
pub proof fn law_other_versions_dropped(
    raw: Seq<u8>,
    forward_echo: bool,
    broadcast: Option<Ipv4Addr>,
    v4: TcpContextV4,
    v6: TcpContextV6,
    local_v4: Seq<(Ipv4Addr, u8)>,
    local_v6: Seq<(Ipv6Addr, u8)>,
    before: TcpNat,
    after: TcpNat,
    now: u64,
    a: ActionView,
    b: StackView,
)
    requires
        raw.len() == 0 || (raw[0] / 16 != 4 && raw[0] / 16 != 6),
    ensures
        process::outcome_system(raw, forward_echo, broadcast, v4, v6, before, after, now, a) ==> a
            == ActionView::Drop && after == before,
        process::outcome_mixed(raw, local_v4, local_v6, v4, v6, before, after, now, b) ==> b
            == StackView::Drop && after == before,
{
}

/// The packet comes from or goes to a network that the machine is attached to.
pub open spec fn is_local(
    raw: Seq<u8>,
    v4: Seq<(Ipv4Addr, u8)>,
    v6: Seq<(Ipv6Addr, u8)>,
) -> bool {
    ||| raw.len() >= 20 && raw[0] / 16 == 4 && (exists|a: Ipv4Addr|
        (plain::is_v4(raw, 12, a) || plain::is_v4(raw, 16, a)) && #[trigger] plain::among_v4(a, v4))
    ||| raw.len() >= 40 && raw[0] / 16 == 6 && (exists|a: Ipv6Addr|
        (plain::is_v6(raw, 8, a) || plain::is_v6(raw, 24, a)) && #[trigger] plain::among_v6(a, v6))
}

/// Local packets are told by their addresses.
pub proof fn law_local_packets(raw: Seq<u8>, v4: Seq<(Ipv4Addr, u8)>, v6: Seq<(Ipv6Addr, u8)>)
    ensures
        process::local_packet(raw, v4, v6) <==> is_local(raw, v4, v6),
{
    if raw.len() >= 20 && raw[0] / 16 == 4 {
        plain::lemma_n32(raw, 12);
        plain::lemma_n32(raw, 16);
        let s = tcp::src_v4(raw);
        let d = tcp::dst_v4(raw);
        plain::law_among_networks_v4(s, v4);
        plain::law_among_networks_v4(d, v4);
        assert(plain::is_v4(raw, 12, s) && plain::is_v4(raw, 16, d));
        if is_local(raw, v4, v6) {
            let a = choose|a: Ipv4Addr|
                (plain::is_v4(raw, 12, a) || plain::is_v4(raw, 16, a)) && #[trigger]
                    plain::among_v4(a, v4);
            assert(a == s || a == d);
        }
    }
    if raw.len() >= 40 && raw[0] / 16 == 6 {
        lemma_fields_v6(raw);
        let s = tcp::src_v6(raw);
        let d = tcp::dst_v6(raw);
        plain::law_among_networks_v6(s, v6);
        plain::law_among_networks_v6(d, v6);
        if is_local(raw, v4, v6) {
            let a = choose|a: Ipv6Addr|
                (plain::is_v6(raw, 8, a) || plain::is_v6(raw, 24, a)) && #[trigger]
                    plain::among_v6(a, v6);
            assert(a == s || a == d);
        }
    }
}

/// The userspace stack takes everything in but local packets, which go no
/// further, and echo requests, where these are sent on.
pub proof fn law_userspace_takes(
    raw: Seq<u8>,
    forward_echo: bool,
    v4: Seq<(Ipv4Addr, u8)>,
    v6: Seq<(Ipv6Addr, u8)>,
)
    ensures
        ({
            let a = process::outcome_userspace(raw, forward_echo, v4, v6);
            if raw.len() == 0 || is_local(raw, v4, v6) {
                a == StackView::Drop
            } else if forward_echo && (echo_laws::asks_v4(raw) || echo_laws::asks_v6(raw)) {
                a matches StackView::SendEcho(key, m) && Some((key, m)) == echo::echo_request(raw)
            } else {
                a == StackView::Inject
            }
        }),
{
    law_local_packets(raw, v4, v6);
    echo_laws::law_requests_are_known(raw);
}

/// What a TCP packet comes to in the mixed stack.
pub open spec fn tcp_stack_v4(
    raw: Seq<u8>,
    ctx: TcpContextV4,
    before: TcpNat,
    after: TcpNat,
    a: StackView,
) -> bool {
    match a {
        StackView::Drop => tcp_laws::served_v4(raw, ctx, before, after, None),
        StackView::Write(out) => tcp_laws::served_v4(raw, ctx, before, after, Some(out)),
        _ => false,
    }
}

pub open spec fn tcp_stack_v6(
    raw: Seq<u8>,
    at: int,
    ctx: TcpContextV6,
    before: TcpNat,
    after: TcpNat,
    a: StackView,
) -> bool {
    match a {
        StackView::Drop => tcp_laws::served_v6(raw, at, ctx, before, after, None),
        StackView::Write(out) => tcp_laws::served_v6(raw, at, ctx, before, after, Some(out)),
        _ => false,
    }
}

/// The mixed stack translates TCP, puts UDP into the userspace stack and
/// answers echo requests; local packets, and what has no whole header, go no
/// further.
pub proof fn law_mixed_takes_v4(
    raw: Seq<u8>,
    local_v4: Seq<(Ipv4Addr, u8)>,
    local_v6: Seq<(Ipv6Addr, u8)>,
    v4: TcpContextV4,
    v6: TcpContextV6,
    before: TcpNat,
    after: TcpNat,
    now: u64,
    a: StackView,
)
    requires
        before.wf(),
        process::outcome_mixed(raw, local_v4, local_v6, v4, v6, before, after, now, a),
        raw.len() > 0,
        raw[0] / 16 == 4,
    ensures
        ({
            let head = plain::head_len(raw);
            if is_local(raw, local_v4, local_v6) || !(20 <= head <= raw.len()) {
                a == StackView::Drop && after == before
            } else if raw[9] == 6 {
                tcp_stack_v4(raw, v4, before, after, a)
            } else if raw[9] == 17 {
                a == StackView::Inject && after == before
            } else if echo_laws::asks_v4(raw) {
                &&& after == before
                &&& a matches StackView::Write(out) && echo_laws::answers_v4(raw, out)
            } else {
                a == StackView::Drop && after == before
            }
        }),
{
    let head = plain::head_len(raw);
    law_local_packets(raw, local_v4, local_v6);
    if !process::local_packet(raw, local_v4, local_v6) && 20 <= head <= raw.len() {
        echo_laws::law_requests_are_answered_v4(raw);
        if raw[9] == 6 {
            let r = choose|r: Option<Seq<u8>>| #[trigger]
                tcp::tcp_outcome_v4(raw, v4, before, after, now, r) && a
                    == process::stack_write_if(r);
            tcp_laws::law_segments_are_served_v4(raw, v4, before, after, now, r);
        }
    }
}

/// The same for IPv6.
pub proof fn law_mixed_takes_v6(
    raw: Seq<u8>,
    local_v4: Seq<(Ipv4Addr, u8)>,
    local_v6: Seq<(Ipv6Addr, u8)>,
    v4: TcpContextV4,
    v6: TcpContextV6,
    before: TcpNat,
    after: TcpNat,
    now: u64,
    a: StackView,
)
    requires
        before.wf(),
        process::outcome_mixed(raw, local_v4, local_v6, v4, v6, before, after, now, a),
        raw.len() > 0,
        raw[0] / 16 == 6,
    ensures
        is_local(raw, local_v4, local_v6) ==> a == StackView::Drop && after == before,
        !is_local(raw, local_v4, local_v6) ==> {
            &&& forall|at: int| #[trigger]
                transport_at(raw, 6, at) ==> tcp_stack_v6(raw, at, v6, before, after, a)
            &&& forall|at: int| #[trigger]
                transport_at(raw, 17, at) ==> after == before && a == (if plain::reachable_v6(
                    raw,
                    24,
                ) {
                    StackView::Inject
                } else {
                    StackView::Drop
                })
            &&& raw.len() >= 40 && raw[6] == 58 ==> after == before && (if echo_laws::asks_v6(
                raw,
            ) {
                a matches StackView::Write(out) && echo_laws::answers_v6(raw, out)
            } else {
                a == StackView::Drop
            })
            &&& (forall|at: int| !#[trigger] transport_at(raw, 6, at)) && (forall|at: int|
                !#[trigger] transport_at(raw, 17, at)) && !(raw.len() >= 40 && raw[6] == 58) ==> a
                == StackView::Drop && after == before
        },
{
    law_local_packets(raw, local_v4, local_v6);
    echo_laws::law_requests_are_answered_v6(raw);
    lemma_fields_v6(raw);
    plain::law_reachable_v6(raw, 24, tcp::dst_v6(raw));
    match process::transport_v6(raw) {
        Some((proto, at)) => {
            law_transport_found(raw, proto, at);
            lemma_walk_of_58(raw, proto, at);
            if proto == 6 && !process::local_packet(raw, local_v4, local_v6) {
                let r = choose|r: Option<Seq<u8>>| #[trigger]
                    tcp::tcp_outcome_v6(raw, at, v6, before, after, now, r) && a
                        == process::stack_write_if(r);
                tcp_laws::law_segments_are_served_v6(raw, at, v6, before, after, now, r);
            }
        },
        None => {
            if raw.len() >= 40 && raw[6] == 58 {
                assert(udp::ext_walk(58, raw.subrange(40, raw.len() as int), 0).3);
            }
        },
    }
    assert forall|at: int| #[trigger] transport_at(raw, 6, at) implies process::transport_v6(raw)
        == Some((6u8, at)) by {
        law_transport_found(raw, 6, at);
    }
    assert forall|at: int| #[trigger] transport_at(raw, 17, at) implies process::transport_v6(raw)
        == Some((17u8, at)) by {
        law_transport_found(raw, 17, at);
    }
}

} // verus!
