//! What becomes of a packet that was read from the tunnel, for each of the
//! stacks that can handle it.
use vstd::prelude::*;

use crate::addr;
use crate::addr::{
    ip_in_local_subnets_v4, ip_in_local_subnets_v6, is_global_unicast_v4, is_global_unicast_v6,
    Ipv4Addr, Ipv6Addr, SocketAddr, SocketAddrV4, SocketAddrV6,
};
use crate::checksum;
use crate::echo;
use crate::echo::FlowKey;
use crate::mtu;
use crate::octets;
use crate::tcp;
use crate::tcp::{handle_tcp_v4, handle_tcp_v6, TcpContextV4, TcpContextV6};
use crate::tcp_nat::TcpNat;
use crate::udp;
use crate::udp::{parse_udp_v4, parse_udp_v6, skip_ipv6_extension_headers};
use crate::wire;
use crate::wire::{get_be128, get_be16, get_be32, sub_vec};

verus! {

/// What to do for a packet.
pub enum PacketAction {
    /// Nothing.
    Drop,
    /// Write this packet to the tunnel.
    Write(Vec<u8>),
    /// Send this echo message on, for this flow.
    SendEcho(FlowKey, bytes::Bytes),
    /// Hand on a datagram. The headers it came with serve to make replies.
    Datagram(SocketAddr, SocketAddr, bytes::Bytes, Vec<u8>),
}

/// The same with the contents of the buffers.
pub enum ActionView {
    Drop,
    Write(Seq<u8>),
    SendEcho(FlowKey, Seq<u8>),
    Datagram(SocketAddr, SocketAddr, Seq<u8>, Seq<u8>),
}

pub open spec fn action_view(a: PacketAction) -> ActionView {
    match a {
        PacketAction::Drop => ActionView::Drop,
        PacketAction::Write(v) => ActionView::Write(v@),
        PacketAction::SendEcho(key, data) => ActionView::SendEcho(key, octets::content(data)),
        PacketAction::Datagram(src, dst, data, header) => ActionView::Datagram(
            src,
            dst,
            octets::content(data),
            header@,
        ),
    }
}

/// Writing a packet, where there is one.
pub open spec fn write_if(r: Option<Seq<u8>>) -> ActionView {
    match r {
        Some(pkt) => ActionView::Write(pkt),
        None => ActionView::Drop,
    }
}

fn write_some(r: Option<Vec<u8>>) -> (a: PacketAction)
    ensures
        action_view(a) == write_if(mtu::bytes_view(r)),
{
    match r {
        Some(pkt) => PacketAction::Write(pkt),
        None => PacketAction::Drop,
    }
}

/// An IPv4 packet with a whole header that does not go to the broadcast
/// address of the tunnel's network.
pub open spec fn admitted_v4(raw: Seq<u8>, broadcast: Option<Ipv4Addr>) -> bool {
    let ihl = checksum::header_len(raw);
    &&& raw.len() >= 20
    &&& 20 <= ihl <= raw.len()
    &&& !(broadcast is Some && broadcast->0 == tcp::dst_v4(raw))
}

/// More fragments follow, or this is not the first.
pub open spec fn fragment_v4(raw: Seq<u8>) -> bool {
    wire::be16(raw, 6) % 0x4000 != 0
}

/// The datagram of an IPv4 packet, if it is whole and goes to a global unicast
/// address.
pub open spec fn datagram_v4(raw: Seq<u8>) -> ActionView {
    let ihl = checksum::header_len(raw);
    let udp = raw.subrange(ihl, raw.len() as int);
    if fragment_v4(raw) || !addr::global_unicast_v4(tcp::dst_v4(raw)) || udp.len() < 8 {
        ActionView::Drop
    } else {
        ActionView::Datagram(
            SocketAddr::V4(
                SocketAddrV4 { ip: tcp::src_v4(raw), port: wire::be16(raw, ihl) as u16 },
            ),
            SocketAddr::V4(
                SocketAddrV4 { ip: tcp::dst_v4(raw), port: wire::be16(raw, ihl + 2) as u16 },
            ),
            udp.subrange(8, 8 + udp::udp_payload_len(udp)),
            raw.subrange(0, ihl + 8),
        )
    }
}

/// What becomes of an IPv4 packet. TCP goes through the translation table,
/// which nothing else touches; whole datagrams are handed on; echo requests
/// are answered.
pub open spec fn outcome_v4(
    raw: Seq<u8>,
    broadcast: Option<Ipv4Addr>,
    ctx: TcpContextV4,
    before: TcpNat,
    after: TcpNat,
    now: u64,
    a: ActionView,
) -> bool {
    if !admitted_v4(raw, broadcast) {
        a == ActionView::Drop && after == before
    } else if raw[9] == 6 {
        if fragment_v4(raw) {
            a == ActionView::Drop && after == before
        } else {
            exists|r: Option<Seq<u8>>| #[trigger]
                tcp::tcp_outcome_v4(raw, ctx, before, after, now, r) && a == write_if(r)
        }
    } else {
        &&& after == before
        &&& a == (if raw[9] == 17 {
            datagram_v4(raw)
        } else if raw[9] == 1 && addr::global_unicast_v4(tcp::dst_v4(raw)) {
            write_if(echo::echoed_v4(raw))
        } else {
            ActionView::Drop
        })
    }
}

/// Handles an IPv4 packet.
pub fn process_ipv4(
    raw: &[u8],
    broadcast: Option<Ipv4Addr>,
    ctx: &TcpContextV4,
    table: &mut TcpNat,
    now: u64,
) -> (a: PacketAction)
    requires
        old(table).wf(),
    ensures
        final(table).wf(),
        outcome_v4(raw@, broadcast, *ctx, *old(table), *final(table), now, action_view(a)),
{
    if raw.len() < 20 {
        return PacketAction::Drop;
    }
    let ihl: usize = (raw[0] % 16) as usize * 4;
    if raw.len() < ihl || ihl < 20 {
        return PacketAction::Drop;
    }
    let fragment = get_be16(raw, 6) % 0x4000 != 0;
    let src_ip = Ipv4Addr { bits: get_be32(raw, 12) };
    let dst_ip = Ipv4Addr { bits: get_be32(raw, 16) };
    if let Some(b) = broadcast {
        if b == dst_ip {
            return PacketAction::Drop;
        }
    }
    if raw[9] == 6 {
        if fragment {
            return PacketAction::Drop;
        }
        let r = handle_tcp_v4(raw, ctx, table, now);
        assert(tcp::tcp_outcome_v4(raw@, *ctx, *old(table), *table, now, tcp::view_of(r)));
        assert(tcp::view_of(r) == mtu::bytes_view(r));
        return write_some(r);
    }
    if raw[9] == 17 {
        if fragment {
            return PacketAction::Drop;
        }
        if !is_global_unicast_v4(dst_ip) {
            return PacketAction::Drop;
        }
        let ghost udp = raw@.subrange(ihl as int, raw@.len() as int);
        return match parse_udp_v4(&raw[ihl..raw.len()], src_ip, dst_ip) {
            Some((src, dst, data)) => {
                assert(wire::be16(udp, 0) == wire::be16(raw@, ihl as int));
                assert(wire::be16(udp, 2) == wire::be16(raw@, ihl + 2));
                PacketAction::Datagram(src, dst, data, sub_vec(raw, 0, ihl + 8))
            },
            None => PacketAction::Drop,
        };
    }
    if raw[9] == 1 {
        return answer_v4(raw, dst_ip);
    }
    PacketAction::Drop
}

/// Answers an echo request that goes to a global unicast address.
fn answer_v4(raw: &[u8], dst_ip: Ipv4Addr) -> (a: PacketAction)
    requires
        raw.len() >= 20,
        20 <= checksum::header_len(raw@) <= raw.len(),
        dst_ip == tcp::dst_v4(raw@),
    ensures
        action_view(a) == (if addr::global_unicast_v4(dst_ip) {
            write_if(echo::echoed_v4(raw@))
        } else {
            ActionView::Drop
        }),
{
    if !is_global_unicast_v4(dst_ip) {
        return PacketAction::Drop;
    }
    write_some(echo::handle_icmpv4(raw))
}

fn answer_v6(raw: &[u8]) -> (a: PacketAction)
    ensures
        action_view(a) == write_if(echo::echoed_v6(raw@)),
{
    write_some(echo::handle_icmpv6(raw))
}

/// Where the transport part of an IPv6 packet starts, and its protocol, if it
/// is not a fragment and all extension headers fit.
pub open spec fn transport_v6(raw: Seq<u8>) -> Option<(u8, int)> {
    let w = udp::ext_walk(raw[6], raw.subrange(40, raw.len() as int), 0);
    if raw.len() < 40 || w.2 || !w.3 {
        None
    } else {
        Some((w.0, 40 + w.1))
    }
}

/// The datagram of an IPv6 packet whose UDP header starts at `at`.
pub open spec fn datagram_v6(raw: Seq<u8>, at: int) -> ActionView {
    let udp = raw.subrange(at, raw.len() as int);
    if !addr::global_unicast_v6(tcp::dst_v6(raw)) || udp.len() < 8 {
        ActionView::Drop
    } else {
        ActionView::Datagram(
            SocketAddr::V6(
                SocketAddrV6 { ip: tcp::src_v6(raw), port: wire::be16(raw, at) as u16 },
            ),
            SocketAddr::V6(
                SocketAddrV6 { ip: tcp::dst_v6(raw), port: wire::be16(raw, at + 2) as u16 },
            ),
            udp.subrange(8, 8 + udp::udp_payload_len(udp)),
            raw.subrange(0, at + 8),
        )
    }
}

/// What becomes of an IPv6 packet.
pub open spec fn outcome_v6(
    raw: Seq<u8>,
    ctx: TcpContextV6,
    before: TcpNat,
    after: TcpNat,
    now: u64,
    a: ActionView,
) -> bool {
    match transport_v6(raw) {
        None => a == ActionView::Drop && after == before,
        Some((proto, at)) => if proto == 6 {
            exists|r: Option<Seq<u8>>| #[trigger]
                tcp::tcp_outcome_v6(raw, at, ctx, before, after, now, r) && a == write_if(r)
        } else {
            &&& after == before
            &&& a == (if proto == 17 {
                datagram_v6(raw, at)
            } else if proto == 58 && at == 40 && addr::global_unicast_v6(tcp::dst_v6(raw)) {
                write_if(echo::echoed_v6(raw))
            } else {
                ActionView::Drop
            })
        },
    }
}

/// Finds the transport part of an IPv6 packet.
fn find_transport_v6(raw: &[u8]) -> (r: Option<(u8, usize)>)
    ensures
        match r {
            Some((proto, at)) => transport_v6(raw@) == Some((proto, at as int)) && 40 <= at
                <= raw.len(),
            None => transport_v6(raw@) is None,
        },
{
    if raw.len() < 40 {
        return None;
    }
    let (proto, rest, fragment, present) = skip_ipv6_extension_headers(
        raw[6],
        &raw[40..raw.len()],
    );
    if fragment || !present {
        return None;
    }
    Some((proto, raw.len() - rest.len()))
}

/// Handles an IPv6 packet.
pub fn process_ipv6(raw: &[u8], ctx: &TcpContextV6, table: &mut TcpNat, now: u64) -> (a:
    PacketAction)
    requires
        old(table).wf(),
    ensures
        final(table).wf(),
        outcome_v6(raw@, *ctx, *old(table), *final(table), now, action_view(a)),
{
    let (proto, at) = match find_transport_v6(raw) {
        Some(t) => t,
        None => {
            return PacketAction::Drop;
        },
    };
    if proto == 6 {
        let r = handle_tcp_v6(raw, at, ctx, table, now);
        assert(tcp::tcp_outcome_v6(
            raw@,
            at as int,
            *ctx,
            *old(table),
            *table,
            now,
            tcp::view_of(r),
        ));
        assert(tcp::view_of(r) == mtu::bytes_view(r));
        return write_some(r);
    }
    let src_ip = Ipv6Addr { bits: get_be128(raw, 8) };
    let dst_ip = Ipv6Addr { bits: get_be128(raw, 24) };
    if proto == 17 {
        if !is_global_unicast_v6(dst_ip) {
            return PacketAction::Drop;
        }
        let ghost udp = raw@.subrange(at as int, raw@.len() as int);
        return match parse_udp_v6(&raw[at..raw.len()], src_ip, dst_ip) {
            Some((src, dst, data)) => {
                assert(wire::be16(udp, 0) == wire::be16(raw@, at as int));
                assert(wire::be16(udp, 2) == wire::be16(raw@, at + 2));
                PacketAction::Datagram(src, dst, data, sub_vec(raw, 0, at + 8))
            },
            None => PacketAction::Drop,
        };
    }
    if proto == 58 && at == 40 && is_global_unicast_v6(dst_ip) {
        return answer_v6(raw);
    }
    PacketAction::Drop
}

/// What becomes of a packet in the system stack: an echo request is sent on
/// before anything else is looked at, then it goes by its IP version.
pub open spec fn outcome_system(
    raw: Seq<u8>,
    forward_echo: bool,
    broadcast: Option<Ipv4Addr>,
    v4: TcpContextV4,
    v6: TcpContextV6,
    before: TcpNat,
    after: TcpNat,
    now: u64,
    a: ActionView,
) -> bool {
    if raw.len() == 0 {
        a == ActionView::Drop && after == before
    } else if forward_echo && echo::echo_request(raw) is Some {
        let (key, message) = echo::echo_request(raw)->0;
        a == ActionView::SendEcho(key, message) && after == before
    } else if raw[0] / 16 == 4 {
        outcome_v4(raw, broadcast, v4, before, after, now, a)
    } else if raw[0] / 16 == 6 {
        outcome_v6(raw, v6, before, after, now, a)
    } else {
        a == ActionView::Drop && after == before
    }
}

/// Handles a packet in the system stack.
pub fn process_packet(
    raw: &[u8],
    forward_echo: bool,
    broadcast: Option<Ipv4Addr>,
    v4: &TcpContextV4,
    v6: &TcpContextV6,
    table: &mut TcpNat,
    now: u64,
) -> (a: PacketAction)
    requires
        old(table).wf(),
    ensures
        final(table).wf(),
        outcome_system(
            raw@,
            forward_echo,
            broadcast,
            *v4,
            *v6,
            *old(table),
            *final(table),
            now,
            action_view(a),
        ),
{
    if raw.len() == 0 {
        return PacketAction::Drop;
    }
    if forward_echo {
        if let Some((key, message)) = echo::handle_packet(raw) {
            return PacketAction::SendEcho(key, message);
        }
    }
    if raw[0] / 16 == 4 {
        process_ipv4(raw, broadcast, v4, table, now)
    } else if raw[0] / 16 == 6 {
        process_ipv6(raw, v6, table, now)
    } else {
        PacketAction::Drop
    }
}

/// A packet that comes from or goes to a network that the machine is attached
/// to.
pub open spec fn local_packet(
    raw: Seq<u8>,
    v4: Seq<(Ipv4Addr, u8)>,
    v6: Seq<(Ipv6Addr, u8)>,
) -> bool {
    if raw.len() == 0 {
        false
    } else if raw[0] / 16 == 4 {
        raw.len() >= 20 && (addr::in_subnets_v4(tcp::src_v4(raw), v4) || addr::in_subnets_v4(
            tcp::dst_v4(raw),
            v4,
        ))
    } else if raw[0] / 16 == 6 {
        raw.len() >= 40 && (addr::in_subnets_v6(tcp::src_v6(raw), v6) || addr::in_subnets_v6(
            tcp::dst_v6(raw),
            v6,
        ))
    } else {
        false
    }
}

/// Whether a packet comes from or goes to a network that the machine is
/// attached to. Such a packet must not enter the userspace stack: it would come
/// out again and be caught by the tunnel once more.
pub fn is_local_subnet_packet(
    raw: &[u8],
    local_subnets_v4: &[(Ipv4Addr, u8)],
    local_subnets_v6: &[(Ipv6Addr, u8)],
) -> (r: bool)
    ensures
        r == local_packet(raw@, local_subnets_v4@, local_subnets_v6@),
{
    if raw.len() == 0 {
        return false;
    }
    if raw[0] / 16 == 4 {
        if raw.len() < 20 {
            return false;
        }
        let src = Ipv4Addr { bits: get_be32(raw, 12) };
        let dst = Ipv4Addr { bits: get_be32(raw, 16) };
        ip_in_local_subnets_v4(src, local_subnets_v4) || ip_in_local_subnets_v4(
            dst,
            local_subnets_v4,
        )
    } else if raw[0] / 16 == 6 {
        if raw.len() < 40 {
            return false;
        }
        let src = Ipv6Addr { bits: get_be128(raw, 8) };
        let dst = Ipv6Addr { bits: get_be128(raw, 24) };
        ip_in_local_subnets_v6(src, local_subnets_v6) || ip_in_local_subnets_v6(
            dst,
            local_subnets_v6,
        )
    } else {
        false
    }
}

/// What to do for a packet in a stack that uses the userspace stack.
pub enum StackAction {
    /// Nothing.
    Drop,
    /// Write this packet to the tunnel.
    Write(Vec<u8>),
    /// Send this echo message on, for this flow.
    SendEcho(FlowKey, bytes::Bytes),
    /// Put the packet into the userspace stack.
    Inject,
}

/// The same with the contents of the buffers.
pub enum StackView {
    Drop,
    Write(Seq<u8>),
    SendEcho(FlowKey, Seq<u8>),
    Inject,
}

pub open spec fn stack_view(a: StackAction) -> StackView {
    match a {
        StackAction::Drop => StackView::Drop,
        StackAction::Write(v) => StackView::Write(v@),
        StackAction::SendEcho(key, data) => StackView::SendEcho(key, octets::content(data)),
        StackAction::Inject => StackView::Inject,
    }
}

pub open spec fn stack_write_if(r: Option<Seq<u8>>) -> StackView {
    match r {
        Some(pkt) => StackView::Write(pkt),
        None => StackView::Drop,
    }
}

fn stack_write_some(r: Option<Vec<u8>>) -> (a: StackAction)
    ensures
        stack_view(a) == stack_write_if(mtu::bytes_view(r)),
{
    match r {
        Some(pkt) => StackAction::Write(pkt),
        None => StackAction::Drop,
    }
}

/// What becomes of a packet in the userspace stack: local packets are left
/// out, echo requests are sent on, and everything else goes in.
pub open spec fn outcome_userspace(
    raw: Seq<u8>,
    forward_echo: bool,
    v4: Seq<(Ipv4Addr, u8)>,
    v6: Seq<(Ipv6Addr, u8)>,
) -> StackView {
    if raw.len() == 0 || local_packet(raw, v4, v6) {
        StackView::Drop
    } else {
        match echo::echo_request(raw) {
            Some((key, message)) if forward_echo => StackView::SendEcho(key, message),
            _ => StackView::Inject,
        }
    }
}

/// Handles a packet where the userspace stack takes both TCP and UDP.
pub fn process_gvisor(
    raw: &[u8],
    forward_echo: bool,
    local_subnets_v4: &[(Ipv4Addr, u8)],
    local_subnets_v6: &[(Ipv6Addr, u8)],
) -> (a: StackAction)
    ensures
        stack_view(a) == outcome_userspace(
            raw@,
            forward_echo,
            local_subnets_v4@,
            local_subnets_v6@,
        ),
{
    if raw.len() == 0 {
        return StackAction::Drop;
    }
    if is_local_subnet_packet(raw, local_subnets_v4, local_subnets_v6) {
        return StackAction::Drop;
    }
    if forward_echo {
        if let Some((key, message)) = echo::handle_packet(raw) {
            return StackAction::SendEcho(key, message);
        }
    }
    StackAction::Inject
}

/// What becomes of an IPv4 packet where the userspace stack takes UDP only:
/// TCP goes through the translation table, echo requests are answered.
pub open spec fn outcome_mixed_v4(
    raw: Seq<u8>,
    ctx: TcpContextV4,
    before: TcpNat,
    after: TcpNat,
    now: u64,
    a: StackView,
) -> bool {
    let ihl = checksum::header_len(raw);
    if raw.len() < ihl || ihl < 20 {
        a == StackView::Drop && after == before
    } else if raw[9] == 6 {
        exists|r: Option<Seq<u8>>| #[trigger]
            tcp::tcp_outcome_v4(raw, ctx, before, after, now, r) && a == stack_write_if(r)
    } else {
        &&& after == before
        &&& a == (if raw[9] == 17 {
            StackView::Inject
        } else if raw[9] == 1 {
            stack_write_if(echo::echoed_v4(raw))
        } else {
            StackView::Drop
        })
    }
}

pub open spec fn outcome_mixed_v6(
    raw: Seq<u8>,
    ctx: TcpContextV6,
    before: TcpNat,
    after: TcpNat,
    now: u64,
    a: StackView,
) -> bool {
    match transport_v6(raw) {
        None => a == StackView::Drop && after == before,
        Some((proto, at)) => if proto == 6 {
            exists|r: Option<Seq<u8>>| #[trigger]
                tcp::tcp_outcome_v6(raw, at, ctx, before, after, now, r) && a == stack_write_if(r)
        } else {
            &&& after == before
            &&& a == (if proto == 17 && addr::global_unicast_v6(tcp::dst_v6(raw)) {
                StackView::Inject
            } else if proto == 58 && at == 40 {
                stack_write_if(echo::echoed_v6(raw))
            } else {
                StackView::Drop
            })
        },
    }
}

/// What becomes of a packet in the mixed stack.
pub open spec fn outcome_mixed(
    raw: Seq<u8>,
    local_v4: Seq<(Ipv4Addr, u8)>,
    local_v6: Seq<(Ipv6Addr, u8)>,
    v4: TcpContextV4,
    v6: TcpContextV6,
    before: TcpNat,
    after: TcpNat,
    now: u64,
    a: StackView,
) -> bool {
    if raw.len() == 0 || local_packet(raw, local_v4, local_v6) {
        a == StackView::Drop && after == before
    } else if raw[0] / 16 == 4 {
        outcome_mixed_v4(raw, v4, before, after, now, a)
    } else if raw[0] / 16 == 6 {
        outcome_mixed_v6(raw, v6, before, after, now, a)
    } else {
        a == StackView::Drop && after == before
    }
}

fn mixed_v4(raw: &[u8], ctx: &TcpContextV4, table: &mut TcpNat, now: u64) -> (a: StackAction)
    requires
        raw.len() > 0,
        old(table).wf(),
    ensures
        final(table).wf(),
        outcome_mixed_v4(raw@, *ctx, *old(table), *final(table), now, stack_view(a)),
{
    let ihl: usize = (raw[0] % 16) as usize * 4;
    if raw.len() < ihl || ihl < 20 {
        return StackAction::Drop;
    }
    if raw[9] == 6 {
        let r = handle_tcp_v4(raw, ctx, table, now);
        assert(tcp::tcp_outcome_v4(raw@, *ctx, *old(table), *table, now, tcp::view_of(r)));
        assert(tcp::view_of(r) == mtu::bytes_view(r));
        return stack_write_some(r);
    }
    if raw[9] == 17 {
        return StackAction::Inject;
    }
    if raw[9] == 1 {
        return stack_answer_v4(raw);
    }
    StackAction::Drop
}

fn stack_answer_v4(raw: &[u8]) -> (a: StackAction)
    requires
        raw.len() >= 20,
        20 <= checksum::header_len(raw@) <= raw.len(),
    ensures
        stack_view(a) == stack_write_if(echo::echoed_v4(raw@)),
{
    stack_write_some(echo::handle_icmpv4(raw))
}

fn stack_answer_v6(raw: &[u8]) -> (a: StackAction)
    ensures
        stack_view(a) == stack_write_if(echo::echoed_v6(raw@)),
{
    stack_write_some(echo::handle_icmpv6(raw))
}

fn mixed_v6(raw: &[u8], ctx: &TcpContextV6, table: &mut TcpNat, now: u64) -> (a: StackAction)
    requires
        old(table).wf(),
    ensures
        final(table).wf(),
        outcome_mixed_v6(raw@, *ctx, *old(table), *final(table), now, stack_view(a)),
{
    let (proto, at) = match find_transport_v6(raw) {
        Some(t) => t,
        None => {
            return StackAction::Drop;
        },
    };
    if proto == 6 {
        let r = handle_tcp_v6(raw, at, ctx, table, now);
        assert(tcp::tcp_outcome_v6(
            raw@,
            at as int,
            *ctx,
            *old(table),
            *table,
            now,
            tcp::view_of(r),
        ));
        assert(tcp::view_of(r) == mtu::bytes_view(r));
        return stack_write_some(r);
    }
    let dst_ip = Ipv6Addr { bits: get_be128(raw, 24) };
    if proto == 17 {
        if is_global_unicast_v6(dst_ip) {
            return StackAction::Inject;
        }
        return StackAction::Drop;
    }
    if proto == 58 && at == 40 {
        return stack_answer_v6(raw);
    }
    StackAction::Drop
}

/// Handles a packet where TCP goes through the translation table and the
/// userspace stack takes UDP.
pub fn process_mixed(
    raw: &[u8],
    local_subnets_v4: &[(Ipv4Addr, u8)],
    local_subnets_v6: &[(Ipv6Addr, u8)],
    v4: &TcpContextV4,
    v6: &TcpContextV6,
    table: &mut TcpNat,
    now: u64,
) -> (a: StackAction)
    requires
        old(table).wf(),
    ensures
        final(table).wf(),
        outcome_mixed(
            raw@,
            local_subnets_v4@,
            local_subnets_v6@,
            *v4,
            *v6,
            *old(table),
            *final(table),
            now,
            stack_view(a),
        ),
{
    if raw.len() == 0 {
        return StackAction::Drop;
    }
    if is_local_subnet_packet(raw, local_subnets_v4, local_subnets_v6) {
        return StackAction::Drop;
    }
    if raw[0] / 16 == 4 {
        mixed_v4(raw, v4, table, now)
    } else if raw[0] / 16 == 6 {
        mixed_v6(raw, v6, table, now)
    } else {
        StackAction::Drop
    }
}

/// The packet carries a whole UDP or TCP part of this protocol.
pub open spec fn carries(raw: Seq<u8>, proto: u8) -> bool {
    if raw[0] / 16 == 4 {
        raw[9] == proto
    } else {
        transport_v6(raw) matches Some((p, _)) && p == proto
    }
}

/// The system stack hands on only datagrams that go to a global unicast address
/// and not to the broadcast address, and they leave the translation table
/// alone.
pub proof fn law_datagrams_are_global(
    raw: Seq<u8>,
    forward_echo: bool,
    broadcast: Option<Ipv4Addr>,
    v4: TcpContextV4,
    v6: TcpContextV6,
    before: TcpNat,
    after: TcpNat,
    now: u64,
    src: SocketAddr,
    dst: SocketAddr,
    data: Seq<u8>,
    header: Seq<u8>,
)
    requires
        outcome_system(
            raw,
            forward_echo,
            broadcast,
            v4,
            v6,
            before,
            after,
            now,
            ActionView::Datagram(src, dst, data, header),
        ),
    ensures
        carries(raw, 17),
        after == before,
        match dst {
            SocketAddr::V4(a) => addr::global_unicast_v4(a.ip) && broadcast != Some(a.ip),
            SocketAddr::V6(a) => addr::global_unicast_v6(a.ip),
        },
        src is V4 <==> dst is V4,
{
}

/// A walk over extension headers ends in front of the payload's end, and at its
/// start only where there are none.
proof fn lemma_ext_walk(protocol: u8, payload: Seq<u8>, at: int)
    requires
        0 <= at <= payload.len(),
    ensures
        at <= udp::ext_walk(protocol, payload, at).1 <= payload.len(),
        udp::ext_walk(protocol, payload, at).0 == 17 ==> (udp::ext_walk(protocol, payload, at).1
            == at <==> protocol == 17),
    decreases payload.len() - at,
{
    if protocol == udp::IPPROTO_HOPOPTS || protocol == udp::IPPROTO_ROUTING || protocol
        == udp::IPPROTO_DSTOPTS {
        if payload.len() - at >= 2 && payload.len() - at >= (payload[at + 1] + 1) * 8 {
            lemma_ext_walk(payload[at], payload, at + (payload[at + 1] + 1) * 8);
        }
    }
}

/// A reply is a datagram to the client.
pub open spec fn answers(
    out: Seq<u8>,
    server: SocketAddr,
    client: SocketAddr,
    payload: Seq<u8>,
) -> bool {
    match (server, client) {
        (SocketAddr::V4(s), SocketAddr::V4(c)) => {
            let ihl = checksum::header_len(out);
            &&& out.len() == ihl + 8 + payload.len()
            &&& out[0] / 16 == 4
            &&& out[9] == 17
            &&& wire::be32(out, 12) == s.ip.bits
            &&& wire::be32(out, 16) == c.ip.bits
            &&& wire::be16(out, ihl) == s.port
            &&& wire::be16(out, ihl + 2) == c.port
            &&& out.subrange(ihl + 8, out.len() as int) == payload
        },
        (SocketAddr::V6(s), SocketAddr::V6(c)) => {
            &&& out.len() == 48 + payload.len()
            &&& out[0] / 16 == 6
            &&& out[6] == 17
            &&& wire::be128(out, 8) == s.ip.bits
            &&& wire::be128(out, 24) == c.ip.bits
            &&& wire::be16(out, 40) == s.port
            &&& wire::be16(out, 42) == c.port
            &&& out.subrange(48, out.len() as int) == payload
        },
        _ => false,
    }
}

/// The reply to a datagram that the system stack hands on goes back to the
/// address and port that the datagram came from, whatever headers stood in
/// front of it: IPv4 options are kept, IPv6 extension headers are left out.
pub proof fn law_reply_reaches_sender(
    raw: Seq<u8>,
    forward_echo: bool,
    broadcast: Option<Ipv4Addr>,
    v4: TcpContextV4,
    v6: TcpContextV6,
    before: TcpNat,
    after: TcpNat,
    now: u64,
    src: SocketAddr,
    dst: SocketAddr,
    data: Seq<u8>,
    header: Seq<u8>,
    server: SocketAddr,
    payload: Seq<u8>,
)
    requires
        outcome_system(
            raw,
            forward_echo,
            broadcast,
            v4,
            v6,
            before,
            after,
            now,
            ActionView::Datagram(src, dst, data, header),
        ),
        server is V4 <==> src is V4,
        (if src is V4 {
            header.len() as int
        } else {
            8int
        }) + payload.len() <= 65535,
    ensures
        udp::reply_for(header, server, src, payload) is Some,
        answers(udp::reply_for(header, server, src, payload)->0, server, src, payload),
{
    match (server, src) {
        (SocketAddr::V4(s), SocketAddr::V4(_)) => {
            let ihl = checksum::header_len(raw);
            assert(header == raw.subrange(0, ihl + 8));
            assert(checksum::header_len(header) == ihl);
            assert(udp::template_ok_v4(header));
            udp::law_templated_v4(header, s, payload);
            assert(wire::be32(header, 12) == wire::be32(raw, 12));
            assert(wire::be16(header, ihl) == wire::be16(raw, ihl));
            let out = udp::templated_v4(header, s, payload);
            assert(out[0] == header[0] && out[9] == header[9]);
        },
        (SocketAddr::V6(s), SocketAddr::V6(_)) => {
            let rest = raw.subrange(40, raw.len() as int);
            lemma_ext_walk(raw[6], rest, 0);
            let found = transport_v6(raw)->0;
            let at = found.1;
            assert(header == raw.subrange(0, at + 8));
            udp::law_templated_v6(header, s, payload);
            wire::lemma_be128_same(raw, header, 8);
            assert(udp::udp_header_at_v6(header) == at);
            assert(wire::be16(header, at) == wire::be16(raw, at));
            let out = udp::templated_v6(header, s, payload);
            assert(out[0] == header[0]);
        },
        _ => {},
    }
}

/// In the mixed stack connections and datagrams part: what is put into the
/// userspace stack carries UDP and leaves the translation table alone, and TCP
/// is never put in.
pub proof fn law_mixed_parts_by_protocol(
    raw: Seq<u8>,
    local_v4: Seq<(Ipv4Addr, u8)>,
    local_v6: Seq<(Ipv6Addr, u8)>,
    v4: TcpContextV4,
    v6: TcpContextV6,
    before: TcpNat,
    after: TcpNat,
    now: u64,
    a: StackView,
)
    requires
        outcome_mixed(raw, local_v4, local_v6, v4, v6, before, after, now, a),
    ensures
        a is Inject ==> carries(raw, 17) && after == before,
        raw.len() > 0 && carries(raw, 6) ==> !(a is Inject),
{
}

/// A packet of a network that the machine is attached to goes nowhere, in
/// either of the stacks that use the userspace stack.
pub proof fn law_local_packets_stay_out(
    raw: Seq<u8>,
    forward_echo: bool,
    local_v4: Seq<(Ipv4Addr, u8)>,
    local_v6: Seq<(Ipv6Addr, u8)>,
    v4: TcpContextV4,
    v6: TcpContextV6,
    before: TcpNat,
    after: TcpNat,
    now: u64,
    a: StackView,
)
    requires
        local_packet(raw, local_v4, local_v6),
        outcome_mixed(raw, local_v4, local_v6, v4, v6, before, after, now, a),
    ensures
        a == StackView::Drop,
        after == before,
        outcome_userspace(raw, forward_echo, local_v4, local_v6) == StackView::Drop,
{
}

} // verus!
