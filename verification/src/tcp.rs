//! TCP packets on their way through the tunnel: the maximum segment size, and
//! the rewriting that leads connections to the local listener and back.
use vstd::prelude::*;

use crate::addr;
use crate::addr::{
    is_global_unicast_v4, is_global_unicast_v6, Ipv4Addr, Ipv6Addr, SocketAddr, SocketAddrV4,
    SocketAddrV6,
};
use crate::checksum;
use crate::checksum::{
    recompute_ipv4_checksum, recompute_tcp_checksum_v4, recompute_tcp_checksum_v6,
};
use crate::tcp_nat;
use crate::tcp_nat::TcpNat;
use crate::wire;
use crate::wire::{get_be128, get_be16, get_be32, set_be128, set_be16, set_be32, sub_vec};

verus! {

/// The segment size that fits the tunnel: as configured, or what an MTU leaves
/// beside the headers of IPv6, which also fits IPv4; for an MTU too small for
/// these, what it leaves beside those of IPv4.
pub open spec fn effective_mss(cfg_mss: Option<u16>, mtu: u32) -> Option<u16> {
    match cfg_mss {
        Some(mss) => Some(mss),
        None => if mtu > 60 {
            Some(((mtu - 60) % 65536) as u16)
        } else if mtu > 40 {
            Some((mtu - 40) as u16)
        } else {
            None
        },
    }
}

/// Finds the segment size that fits the tunnel.
pub fn compute_effective_mss(cfg_mss: Option<u16>, mtu: u32) -> (r: Option<u16>)
    ensures
        r == effective_mss(cfg_mss, mtu),
{
    if let Some(mss) = cfg_mss {
        return Some(mss);
    }
    if mtu > 60 {
        Some(((mtu - 60) % 65536) as u16)
    } else if mtu > 40 {
        Some((mtu - 40) as u16)
    } else {
        None
    }
}

/// Where the maximum segment size option starts, looking from `i` on. The
/// search ends at the end-of-options mark and at the first option whose length
/// cannot be.
pub open spec fn mss_option(options: Seq<u8>, i: int) -> Option<int>
    decreases options.len() - i,
{
    if i < 0 || i >= options.len() || options[i] == 0 {
        None
    } else if options[i] == 1 {
        mss_option(options, i + 1)
    } else if options[i] == 2 {
        if i + 4 > options.len() || options[i + 1] != 4 {
            None
        } else {
            Some(i)
        }
    } else if i + 2 > options.len() || options[i + 1] < 2 || i + options[i + 1] > options.len() {
        None
    } else {
        mss_option(options, i + options[i + 1])
    }
}

/// Where the segment size stands in a packet whose TCP header starts at
/// `tcp_off`: only a SYN packet has one.
pub open spec fn mss_at(pkt: Seq<u8>, tcp_off: int) -> Option<int> {
    let data_offset = pkt[tcp_off + 12] / 16 * 4;
    if pkt.len() < tcp_off + 24 || data_offset < 20 || tcp_off + data_offset > pkt.len() || pkt[tcp_off
        + 13] & 0x02 == 0 {
        None
    } else {
        match mss_option(pkt.subrange(tcp_off + 20, tcp_off + data_offset), 0) {
            Some(i) => Some(tcp_off + 20 + i + 2),
            None => None,
        }
    }
}

/// A packet with its segment size limited.
pub open spec fn mss_clamped(pkt: Seq<u8>, tcp_off: int, max_mss: int) -> Seq<u8> {
    match mss_at(pkt, tcp_off) {
        Some(at) => if wire::be16(pkt, at) > max_mss {
            wire::put16(pkt, at, max_mss)
        } else {
            pkt
        },
        None => pkt,
    }
}

/// Limits the segment size that a SYN packet announces. The result tells
/// whether it was changed; its checksum is for the caller to fill in.
pub fn clamp_tcp_mss(pkt: &mut [u8], tcp_off: usize, max_mss: u16) -> (changed: bool)
    ensures
        final(pkt)@ == mss_clamped(old(pkt)@, tcp_off as int, max_mss as int),
        changed == (mss_at(old(pkt)@, tcp_off as int) matches Some(at) && wire::be16(
            old(pkt)@,
            at,
        ) > max_mss),
{
    if pkt.len() < 24 || pkt.len() - 24 < tcp_off {
        return false;
    }
    let data_offset: usize = (pkt[tcp_off + 12] / 16) as usize * 4;
    if data_offset < 20 || data_offset > pkt.len() - tcp_off {
        return false;
    }
    if pkt[tcp_off + 13] & 0x02 == 0 {
        return false;
    }
    let start: usize = tcp_off + 20;
    let end: usize = tcp_off + data_offset;
    let ghost options = pkt@.subrange(start as int, end as int);
    let mut i: usize = start;
    while i < end
        invariant
            start <= i <= end <= pkt.len(),
            start == tcp_off + 20,
            pkt@ == old(pkt)@,
            options == pkt@.subrange(start as int, end as int),
            mss_option(options, 0) == mss_option(options, i - start),
            mss_at(pkt@, tcp_off as int) == (match mss_option(options, 0) {
                Some(i) => Some(tcp_off + 20 + i + 2),
                None => None,
            }),
        decreases end - i,
    {
        let kind: u8 = pkt[i];
        assert(options[i - start] == kind);
        if kind == 0 {
            return false;
        }
        if kind == 1 {
            i += 1;
        } else if kind == 2 {
            if end - i < 4 || pkt[i + 1] != 4 {
                return false;
            }
            let current: u16 = get_be16(pkt, i + 2);
            if current <= max_mss {
                return false;
            }
            set_be16(pkt, i + 2, max_mss);
            return true;
        } else {
            if end - i < 2 {
                return false;
            }
            let opt_len: usize = pkt[i + 1] as usize;
            if opt_len < 2 || opt_len > end - i {
                return false;
            }
            i += opt_len;
        }
    }
    false
}

proof fn lemma_mss_option_bounds(options: Seq<u8>, i: int)
    requires
        i >= 0,
    ensures
        mss_option(options, i) matches Some(k) ==> i <= k && k + 4 <= options.len() && options[k]
            == 2 && options[k + 1] == 4,
    decreases options.len() - i,
{
    if i < options.len() {
        if options[i] == 1 {
            lemma_mss_option_bounds(options, i + 1);
        } else if options[i] != 0 && options[i] != 2 && i + 2 <= options.len() && options[i + 1] >= 2
            && i + options[i + 1] <= options.len() {
            lemma_mss_option_bounds(options, i + options[i + 1]);
        }
    }
}

/// The search for the option sees nothing behind what it has found.
proof fn lemma_mss_option_stable(a: Seq<u8>, b: Seq<u8>, i: int)
    requires
        i >= 0,
        a.len() == b.len(),
        mss_option(a, i) matches Some(k) && forall|j: int| 0 <= j < k + 2 ==> a[j] == b[j],
    ensures
        mss_option(b, i) == mss_option(a, i),
    decreases a.len() - i,
{
    lemma_mss_option_bounds(a, i);
    if i < a.len() {
        if a[i] == 1 {
            lemma_mss_option_bounds(a, i + 1);
            lemma_mss_option_stable(a, b, i + 1);
        } else if a[i] != 0 && a[i] != 2 && i + 2 <= a.len() && a[i + 1] >= 2 && i + a[i + 1]
            <= a.len() {
            lemma_mss_option_bounds(a, i + a[i + 1]);
            lemma_mss_option_stable(a, b, i + a[i + 1]);
        }
    }
}

/// Limiting the segment size never raises it, leaves it within the limit,
/// touches no other byte and does nothing the second time.
pub proof fn law_clamp_limits_mss(pkt: Seq<u8>, tcp_off: int, max_mss: int)
    requires
        0 <= tcp_off,
        0 <= max_mss < 65536,
    ensures
        ({
            let done = mss_clamped(pkt, tcp_off, max_mss);
            &&& done.len() == pkt.len()
            &&& mss_at(done, tcp_off) == mss_at(pkt, tcp_off)
            &&& mss_clamped(done, tcp_off, max_mss) == done
            &&& match mss_at(pkt, tcp_off) {
                Some(at) => {
                    &&& wire::be16(done, at) <= max_mss
                    &&& wire::be16(done, at) <= wire::be16(pkt, at)
                    &&& forall|k: int|
                        0 <= k < pkt.len() && k != at && k != at + 1 ==> #[trigger] done[k]
                            == pkt[k]
                },
                None => done == pkt,
            }
        }),
{
    let done = mss_clamped(pkt, tcp_off, max_mss);
    if let Some(at) = mss_at(pkt, tcp_off) {
        let data_offset = pkt[tcp_off + 12] / 16 * 4;
        let a = pkt.subrange(tcp_off + 20, tcp_off + data_offset);
        lemma_mss_option_bounds(a, 0);
        if wire::be16(pkt, at) > max_mss {
            let b = done.subrange(tcp_off + 20, tcp_off + data_offset);
            lemma_mss_option_stable(a, b, 0);
            assert(done[tcp_off + 12] == pkt[tcp_off + 12]);
            assert(done[tcp_off + 13] == pkt[tcp_off + 13]);
            assert(wire::be16(done, at) == max_mss);
        }
    }
}

/// What the tunnel knows about one IP version: the address its listener is
/// bound to, the address that connections seem to come from, the addresses
/// that are reflected, the ports of the listeners and the segment size limit.
pub struct TcpContextV4 {
    pub server_addr: Option<Ipv4Addr>,
    pub client_addr: Option<Ipv4Addr>,
    pub loopback: Vec<Ipv4Addr>,
    pub tcp_port: u16,
    pub dns_tcp_port: Option<u16>,
    pub tcp_mss: Option<u16>,
    pub dns_hijack: bool,
}

pub struct TcpContextV6 {
    pub server_addr: Option<Ipv6Addr>,
    pub client_addr: Option<Ipv6Addr>,
    pub loopback: Vec<Ipv6Addr>,
    pub tcp_port: u16,
    pub dns_tcp_port: Option<u16>,
    pub tcp_mss: Option<u16>,
    pub dns_hijack: bool,
}

/// The listener that a connection to `dst_port` is led to: the one for DNS
/// where that is hijacked and there is one, else the general one.
pub open spec fn listener_port(
    dst_port: int,
    tcp_port: u16,
    dns_tcp_port: Option<u16>,
    dns_hijack: bool,
) -> u16 {
    if dns_hijack && dst_port == 53 && dns_tcp_port is Some {
        dns_tcp_port->0
    } else {
        tcp_port
    }
}

pub fn effective_tcp_port(
    dst_port: u16,
    tcp_port: u16,
    dns_tcp_port: Option<u16>,
    dns_hijack: bool,
) -> (port: u16)
    ensures
        port == listener_port(dst_port as int, tcp_port, dns_tcp_port, dns_hijack),
{
    if dns_hijack && dst_port == 53 {
        match dns_tcp_port {
            Some(p) => p,
            None => tcp_port,
        }
    } else {
        tcp_port
    }
}

/// What is to be done with a TCP packet.
pub enum TcpPlan {
    /// It goes no further.
    Drop,
    /// It comes from a listener and goes back to the client of the connection
    /// on this port.
    Back(u16),
    /// It is sent back to where it came from, as if from its destination.
    Reflect,
    /// It goes to the listener.
    Forward,
}

pub open spec fn src_v4(raw: Seq<u8>) -> Ipv4Addr {
    Ipv4Addr { bits: wire::be32(raw, 12) as u32 }
}

pub open spec fn dst_v4(raw: Seq<u8>) -> Ipv4Addr {
    Ipv4Addr { bits: wire::be32(raw, 16) as u32 }
}

pub open spec fn src_v6(raw: Seq<u8>) -> Ipv6Addr {
    Ipv6Addr { bits: wire::be128(raw, 8) as u128 }
}

pub open spec fn dst_v6(raw: Seq<u8>) -> Ipv6Addr {
    Ipv6Addr { bits: wire::be128(raw, 24) as u128 }
}

/// What is to be done with an IPv4 TCP packet. What comes from a listener is
/// told by its address and port; of the rest, only what goes to a global
/// unicast address is taken.
pub open spec fn tcp_plan_v4(raw: Seq<u8>, ctx: TcpContextV4) -> TcpPlan {
    let ihl = checksum::header_len(raw);
    let src_port = wire::be16(raw, ihl);
    let dst_port = wire::be16(raw, ihl + 2);
    if ctx.server_addr is None || ctx.client_addr is None || raw.len() < ihl + 20 {
        TcpPlan::Drop
    } else if src_v4(raw) == ctx.server_addr->0 && (src_port == ctx.tcp_port || (
    ctx.dns_tcp_port is Some && ctx.dns_tcp_port->0 == src_port)) {
        TcpPlan::Back(dst_port as u16)
    } else if !addr::global_unicast_v4(dst_v4(raw)) {
        TcpPlan::Drop
    } else if ctx.loopback@.contains(dst_v4(raw)) {
        TcpPlan::Reflect
    } else {
        TcpPlan::Forward
    }
}

/// What is to be done with an IPv6 TCP packet whose TCP header starts at
/// `tcp_off`.
pub open spec fn tcp_plan_v6(raw: Seq<u8>, tcp_off: int, ctx: TcpContextV6) -> TcpPlan {
    let src_port = wire::be16(raw, tcp_off);
    let dst_port = wire::be16(raw, tcp_off + 2);
    if ctx.server_addr is None || ctx.client_addr is None || tcp_off < 40 || raw.len() < tcp_off
        + 20 {
        TcpPlan::Drop
    } else if src_v6(raw) == ctx.server_addr->0 && (src_port == ctx.tcp_port || (
    ctx.dns_tcp_port is Some && ctx.dns_tcp_port->0 == src_port)) {
        TcpPlan::Back(dst_port as u16)
    } else if !addr::global_unicast_v6(dst_v6(raw)) {
        TcpPlan::Drop
    } else if ctx.loopback@.contains(dst_v6(raw)) {
        TcpPlan::Reflect
    } else {
        TcpPlan::Forward
    }
}

/// A packet whose segment size is limited where there is a limit.
pub open spec fn mss_limited(pkt: Seq<u8>, tcp_off: int, mss: Option<u16>) -> Seq<u8> {
    match mss {
        Some(max) => mss_clamped(pkt, tcp_off, max as int),
        None => pkt,
    }
}

/// An IPv4 packet with other addresses and, where given, other ports, with its
/// segment size limited and its checksums filled in.
pub open spec fn readdressed_v4(
    raw: Seq<u8>,
    src: Ipv4Addr,
    dst: Ipv4Addr,
    ports: Option<(u16, u16)>,
    mss: Option<u16>,
) -> Seq<u8> {
    let ihl = checksum::header_len(raw);
    let addressed = wire::put32(wire::put32(raw, 12, src.bits as int), 16, dst.bits as int);
    let ported = match ports {
        Some((s, d)) => wire::put16(wire::put16(addressed, ihl, s as int), ihl + 2, d as int),
        None => addressed,
    };
    checksum::ipv4_rechecked(checksum::tcp_rechecked_v4(mss_limited(ported, ihl, mss), ihl))
}

/// An IPv6 packet with other addresses and, where given, other ports, with its
/// segment size limited and its checksum filled in.
pub open spec fn readdressed_v6(
    raw: Seq<u8>,
    tcp_off: int,
    src: Ipv6Addr,
    dst: Ipv6Addr,
    ports: Option<(u16, u16)>,
    mss: Option<u16>,
) -> Seq<u8> {
    let addressed = wire::put128(wire::put128(raw, 8, src.bits as int), 24, dst.bits as int);
    let ported = match ports {
        Some((s, d)) => wire::put16(
            wire::put16(addressed, tcp_off, s as int),
            tcp_off + 2,
            d as int,
        ),
        None => addressed,
    };
    checksum::tcp_rechecked_v6(mss_limited(ported, tcp_off, mss), tcp_off)
}

proof fn lemma_mss_limited_len(pkt: Seq<u8>, tcp_off: int, mss: Option<u16>)
    requires
        0 <= tcp_off,
    ensures
        mss_limited(pkt, tcp_off, mss).len() == pkt.len(),
{
    if let Some(max) = mss {
        law_clamp_limits_mss(pkt, tcp_off, max as int);
    }
}

fn readdress_v4(
    raw: &[u8],
    src: Ipv4Addr,
    dst: Ipv4Addr,
    ports: Option<(u16, u16)>,
    mss: Option<u16>,
) -> (pkt: Vec<u8>)
    requires
        20 <= checksum::header_len(raw@),
        checksum::header_len(raw@) + 20 <= raw.len(),
    ensures
        pkt@ == readdressed_v4(raw@, src, dst, ports, mss),
{
    let ihl: usize = (raw[0] % 16) as usize * 4;
    let mut pkt: Vec<u8> = sub_vec(raw, 0, raw.len());
    assert(pkt@ =~= raw@);
    set_be32(pkt.as_mut_slice(), 12, src.bits);
    set_be32(pkt.as_mut_slice(), 16, dst.bits);
    if let Some((s, d)) = ports {
        set_be16(pkt.as_mut_slice(), ihl, s);
        set_be16(pkt.as_mut_slice(), ihl + 2, d);
    }
    proof {
        lemma_mss_limited_len(pkt@, ihl as int, mss);
    }
    if let Some(max) = mss {
        clamp_tcp_mss(pkt.as_mut_slice(), ihl, max);
    }
    recompute_tcp_checksum_v4(pkt.as_mut_slice(), ihl);
    recompute_ipv4_checksum(pkt.as_mut_slice());
    pkt
}

fn readdress_v6(
    raw: &[u8],
    tcp_off: usize,
    src: Ipv6Addr,
    dst: Ipv6Addr,
    ports: Option<(u16, u16)>,
    mss: Option<u16>,
) -> (pkt: Vec<u8>)
    requires
        40 <= tcp_off,
        tcp_off + 20 <= raw.len(),
    ensures
        pkt@ == readdressed_v6(raw@, tcp_off as int, src, dst, ports, mss),
{
    let mut pkt: Vec<u8> = sub_vec(raw, 0, raw.len());
    assert(pkt@ =~= raw@);
    set_be128(pkt.as_mut_slice(), 8, src.bits);
    set_be128(pkt.as_mut_slice(), 24, dst.bits);
    if let Some((s, d)) = ports {
        set_be16(pkt.as_mut_slice(), tcp_off, s);
        set_be16(pkt.as_mut_slice(), tcp_off + 2, d);
    }
    if let Some(max) = mss {
        clamp_tcp_mss(pkt.as_mut_slice(), tcp_off, max);
    }
    recompute_tcp_checksum_v6(pkt.as_mut_slice(), tcp_off);
    pkt
}

/// What becomes of an IPv4 TCP packet: the packet to be written in its place,
/// if any, and what the table holds afterwards.
pub open spec fn tcp_outcome_v4(
    raw: Seq<u8>,
    ctx: TcpContextV4,
    before: TcpNat,
    after: TcpNat,
    now: u64,
    r: Option<Seq<u8>>,
) -> bool {
    let ihl = checksum::header_len(raw);
    match tcp_plan_v4(raw, ctx) {
        TcpPlan::Drop => r is None && after == before,
        TcpPlan::Back(port) => {
            &&& tcp_nat::looked_back(before, after, port, now, back_result(before, port))
            &&& r == (match back_result(before, port) {
                Some((SocketAddr::V4(client), SocketAddr::V4(server))) => Some(
                    readdressed_v4(
                        raw,
                        server.ip,
                        client.ip,
                        Some((server.port, client.port)),
                        ctx.tcp_mss,
                    ),
                ),
                _ => None,
            })
        },
        TcpPlan::Reflect => {
            &&& after == before
            &&& r == Some(readdressed_v4(raw, dst_v4(raw), src_v4(raw), None, ctx.tcp_mss))
        },
        TcpPlan::Forward => exists|port: Option<u16>| #[trigger]
            tcp_nat::looked_up(
                before,
                after,
                SocketAddr::V4(
                    SocketAddrV4 { ip: src_v4(raw), port: wire::be16(raw, ihl) as u16 },
                ),
                SocketAddr::V4(
                    SocketAddrV4 { ip: dst_v4(raw), port: wire::be16(raw, ihl + 2) as u16 },
                ),
                now,
                port,
            ) && r == (match port {
                Some(p) => Some(
                    readdressed_v4(
                        raw,
                        ctx.client_addr->0,
                        ctx.server_addr->0,
                        Some(
                            (
                                p,
                                listener_port(
                                    wire::be16(raw, ihl + 2),
                                    ctx.tcp_port,
                                    ctx.dns_tcp_port,
                                    ctx.dns_hijack,
                                ),
                            ),
                        ),
                        ctx.tcp_mss,
                    ),
                ),
                None => None,
            }),
    }
}

/// The connection on a port.
pub open spec fn back_result(table: TcpNat, port: u16) -> Option<(SocketAddr, SocketAddr)> {
    if table.sessions().contains_key(port) {
        Some((table.sessions()[port].source, table.sessions()[port].destination))
    } else {
        None
    }
}

/// What becomes of an IPv6 TCP packet.
pub open spec fn tcp_outcome_v6(
    raw: Seq<u8>,
    tcp_off: int,
    ctx: TcpContextV6,
    before: TcpNat,
    after: TcpNat,
    now: u64,
    r: Option<Seq<u8>>,
) -> bool {
    match tcp_plan_v6(raw, tcp_off, ctx) {
        TcpPlan::Drop => r is None && after == before,
        TcpPlan::Back(port) => {
            &&& tcp_nat::looked_back(before, after, port, now, back_result(before, port))
            &&& r == (match back_result(before, port) {
                Some((SocketAddr::V6(client), SocketAddr::V6(server))) => Some(
                    readdressed_v6(
                        raw,
                        tcp_off,
                        server.ip,
                        client.ip,
                        Some((server.port, client.port)),
                        ctx.tcp_mss,
                    ),
                ),
                _ => None,
            })
        },
        TcpPlan::Reflect => {
            &&& after == before
            &&& r == Some(
                readdressed_v6(raw, tcp_off, dst_v6(raw), src_v6(raw), None, ctx.tcp_mss),
            )
        },
        TcpPlan::Forward => exists|port: Option<u16>| #[trigger]
            tcp_nat::looked_up(
                before,
                after,
                SocketAddr::V6(
                    SocketAddrV6 { ip: src_v6(raw), port: wire::be16(raw, tcp_off) as u16 },
                ),
                SocketAddr::V6(
                    SocketAddrV6 { ip: dst_v6(raw), port: wire::be16(raw, tcp_off + 2) as u16 },
                ),
                now,
                port,
            ) && r == (match port {
                Some(p) => Some(
                    readdressed_v6(
                        raw,
                        tcp_off,
                        ctx.client_addr->0,
                        ctx.server_addr->0,
                        Some(
                            (
                                p,
                                listener_port(
                                    wire::be16(raw, tcp_off + 2),
                                    ctx.tcp_port,
                                    ctx.dns_tcp_port,
                                    ctx.dns_hijack,
                                ),
                            ),
                        ),
                        ctx.tcp_mss,
                    ),
                ),
                None => None,
            }),
    }
}

/// The contents of an optional buffer.
pub open spec fn view_of(r: Option<Vec<u8>>) -> Option<Seq<u8>> {
    match r {
        Some(v) => Some(v@),
        None => None,
    }
}

/// Whether an address is on a list.
fn listed_v4(list: &Vec<Ipv4Addr>, a: Ipv4Addr) -> (r: bool)
    ensures
        r == list@.contains(a),
{
    let mut k: usize = 0;
    while k < list.len()
        invariant
            k <= list.len(),
            forall|j: int| 0 <= j < k ==> list@[j] != a,
        decreases list.len() - k,
    {
        if list[k] == a {
            return true;
        }
        k += 1;
    }
    false
}

fn listed_v6(list: &Vec<Ipv6Addr>, a: Ipv6Addr) -> (r: bool)
    ensures
        r == list@.contains(a),
{
    let mut k: usize = 0;
    while k < list.len()
        invariant
            k <= list.len(),
            forall|j: int| 0 <= j < k ==> list@[j] != a,
        decreases list.len() - k,
    {
        if list[k] == a {
            return true;
        }
        k += 1;
    }
    false
}

/// Takes an IPv4 TCP packet through the tunnel: what comes from a listener
/// goes back to its client, what goes to a reflected address goes back to its
/// sender, and everything else is led to the listener. The result is the
/// packet to write.
pub fn handle_tcp_v4(raw: &[u8], ctx: &TcpContextV4, table: &mut TcpNat, now: u64) -> (r: Option<
    Vec<u8>,
>)
    requires
        old(table).wf(),
        raw.len() >= 20,
        20 <= checksum::header_len(raw@) <= raw.len(),
    ensures
        final(table).wf(),
        tcp_outcome_v4(raw@, *ctx, *old(table), *final(table), now, view_of(r)),
{
    let (server_addr, client_addr) = match (ctx.server_addr, ctx.client_addr) {
        (Some(s), Some(c)) => (s, c),
        _ => {
            return None;
        },
    };
    let ihl: usize = (raw[0] % 16) as usize * 4;
    if raw.len() - ihl < 20 {
        return None;
    }
    let src_ip = Ipv4Addr { bits: get_be32(raw, 12) };
    let dst_ip = Ipv4Addr { bits: get_be32(raw, 16) };
    let src_port: u16 = get_be16(raw, ihl);
    let dst_port: u16 = get_be16(raw, ihl + 2);
    let port: u16 = effective_tcp_port(dst_port, ctx.tcp_port, ctx.dns_tcp_port, ctx.dns_hijack);
    let from_dns = match ctx.dns_tcp_port {
        Some(p) => p == src_port,
        None => false,
    };
    if src_ip == server_addr && (src_port == ctx.tcp_port || from_dns) {
        return match table.lookup_back(dst_port, now) {
            Some((SocketAddr::V4(client), SocketAddr::V4(server))) => Some(
                readdress_v4(
                    raw,
                    server.ip,
                    client.ip,
                    Some((server.port, client.port)),
                    ctx.tcp_mss,
                ),
            ),
            _ => None,
        };
    }
    if !is_global_unicast_v4(dst_ip) {
        return None;
    }
    if listed_v4(&ctx.loopback, dst_ip) {
        return Some(readdress_v4(raw, dst_ip, src_ip, None, ctx.tcp_mss));
    }
    let src = SocketAddr::V4(SocketAddrV4 { ip: src_ip, port: src_port });
    let dst = SocketAddr::V4(SocketAddrV4 { ip: dst_ip, port: dst_port });
    let found = table.lookup_or_insert(src, dst, now);
    assert(tcp_nat::looked_up(
        *old(table),
        *table,
        SocketAddr::V4(
            SocketAddrV4 {
                ip: src_v4(raw@),
                port: wire::be16(raw@, checksum::header_len(raw@)) as u16,
            },
        ),
        SocketAddr::V4(
            SocketAddrV4 {
                ip: dst_v4(raw@),
                port: wire::be16(raw@, checksum::header_len(raw@) + 2) as u16,
            },
        ),
        now,
        found,
    ));
    match found {
        Some(p) => Some(
            readdress_v4(raw, client_addr, server_addr, Some((p, port)), ctx.tcp_mss),
        ),
        None => None,
    }
}

/// Takes an IPv6 TCP packet, whose TCP header starts at `tcp_off` behind all
/// extension headers, through the tunnel.
pub fn handle_tcp_v6(
    raw: &[u8],
    tcp_off: usize,
    ctx: &TcpContextV6,
    table: &mut TcpNat,
    now: u64,
) -> (r: Option<Vec<u8>>)
    requires
        old(table).wf(),
        raw.len() >= 40,
        tcp_off <= raw.len(),
    ensures
        final(table).wf(),
        tcp_outcome_v6(raw@, tcp_off as int, *ctx, *old(table), *final(table), now, view_of(r)),
{
    let (server_addr, client_addr) = match (ctx.server_addr, ctx.client_addr) {
        (Some(s), Some(c)) => (s, c),
        _ => {
            return None;
        },
    };
    if tcp_off < 40 || raw.len() - tcp_off < 20 {
        return None;
    }
    let src_ip = Ipv6Addr { bits: get_be128(raw, 8) };
    let dst_ip = Ipv6Addr { bits: get_be128(raw, 24) };
    let src_port: u16 = get_be16(raw, tcp_off);
    let dst_port: u16 = get_be16(raw, tcp_off + 2);
    let port: u16 = effective_tcp_port(dst_port, ctx.tcp_port, ctx.dns_tcp_port, ctx.dns_hijack);
    let from_dns = match ctx.dns_tcp_port {
        Some(p) => p == src_port,
        None => false,
    };
    if src_ip == server_addr && (src_port == ctx.tcp_port || from_dns) {
        return match table.lookup_back(dst_port, now) {
            Some((SocketAddr::V6(client), SocketAddr::V6(server))) => Some(
                readdress_v6(
                    raw,
                    tcp_off,
                    server.ip,
                    client.ip,
                    Some((server.port, client.port)),
                    ctx.tcp_mss,
                ),
            ),
            _ => None,
        };
    }
    if !is_global_unicast_v6(dst_ip) {
        return None;
    }
    if listed_v6(&ctx.loopback, dst_ip) {
        return Some(readdress_v6(raw, tcp_off, dst_ip, src_ip, None, ctx.tcp_mss));
    }
    let src = SocketAddr::V6(SocketAddrV6 { ip: src_ip, port: src_port });
    let dst = SocketAddr::V6(SocketAddrV6 { ip: dst_ip, port: dst_port });
    let found = table.lookup_or_insert(src, dst, now);
    assert(tcp_nat::looked_up(
        *old(table),
        *table,
        SocketAddr::V6(
            SocketAddrV6 { ip: src_v6(raw@), port: wire::be16(raw@, tcp_off as int) as u16 },
        ),
        SocketAddr::V6(
            SocketAddrV6 { ip: dst_v6(raw@), port: wire::be16(raw@, tcp_off + 2) as u16 },
        ),
        now,
        found,
    ));
    match found {
        Some(p) => Some(
            readdress_v6(raw, tcp_off, client_addr, server_addr, Some((p, port)), ctx.tcp_mss),
        ),
        None => None,
    }
}

/// The byte `k` is part of the segment size that a packet announces.
pub open spec fn in_mss_field(pkt: Seq<u8>, tcp_off: int, k: int) -> bool {
    mss_at(pkt, tcp_off) matches Some(at) && at <= k < at + 2
}

/// A readdressed IPv4 packet bears the addresses and ports it was given, its
/// checksums are valid, and nothing else has changed but a segment size above
/// the limit.
pub proof fn law_readdressed_v4(
    raw: Seq<u8>,
    src: Ipv4Addr,
    dst: Ipv4Addr,
    s: u16,
    d: u16,
    mss: Option<u16>,
)
    requires
        20 <= checksum::header_len(raw),
        checksum::header_len(raw) + 20 <= raw.len(),
    ensures
        ({
            let ihl = checksum::header_len(raw);
            let out = readdressed_v4(raw, src, dst, Some((s, d)), mss);
            &&& out.len() == raw.len()
            &&& src_v4(out) == src
            &&& dst_v4(out) == dst
            &&& wire::be16(out, ihl) == s
            &&& wire::be16(out, ihl + 2) == d
            &&& checksum::internet_sum(out.subrange(0, ihl)) == 0
            &&& checksum::pseudo_checksum(
                out.subrange(12, 16),
                out.subrange(16, 20),
                6,
                out.subrange(ihl, out.len() as int),
                checksum::limit_v4(),
            ) == 0
            &&& forall|k: int|
                0 <= k < raw.len() && !(10 <= k < 20) && !(ihl <= k < ihl + 4) && !(ihl + 16 <= k
                    < ihl + 18) && !(mss is Some && in_mss_field(raw, ihl, k)) ==> #[trigger] out[k] == raw[k]
        }),
{
    let ihl = checksum::header_len(raw);
    let addressed = wire::put32(wire::put32(raw, 12, src.bits as int), 16, dst.bits as int);
    let ported = wire::put16(wire::put16(addressed, ihl, s as int), ihl + 2, d as int);
    let limited = mss_limited(ported, ihl, mss);
    let tcp = checksum::tcp_rechecked_v4(limited, ihl);
    let out = readdressed_v4(raw, src, dst, Some((s, d)), mss);
    lemma_mss_at_ported(raw, ported, ihl);
    if let Some(max) = mss {
        law_clamp_limits_mss(ported, ihl, max as int);
        lemma_mss_at_bounds(ported, ihl);
    }
    assert(limited.len() == raw.len());
    checksum::law_rechecked_transport_valid(limited, ihl, 16, 6, 12, 4, checksum::limit_v4());
    assert(tcp[0] == raw[0]);
    assert(checksum::header_len(tcp) == ihl);
    checksum::law_rechecked_ipv4_header_valid(tcp);
    assert(out.subrange(12, 16) =~= tcp.subrange(12, 16));
    assert(out.subrange(16, 20) =~= tcp.subrange(16, 20));
    assert(out.subrange(ihl, out.len() as int) =~= tcp.subrange(ihl, out.len() as int));
    assert(forall|k: int| 12 <= k < 20 ==> #[trigger] out[k] == ported[k]);
    assert(forall|k: int| ihl <= k < ihl + 4 ==> #[trigger] out[k] == ported[k]);
    assert(wire::be32(ported, 12) == src.bits);
    assert(wire::be32(ported, 16) == dst.bits);
    assert(wire::be32(out, 12) == src.bits);
    assert(wire::be32(out, 16) == dst.bits);
}

proof fn lemma_mss_at_bounds(pkt: Seq<u8>, tcp_off: int)
    requires
        0 <= tcp_off,
    ensures
        mss_at(pkt, tcp_off) matches Some(at) ==> tcp_off + 22 <= at && at + 2 <= pkt.len(),
{
    if let Some(at) = mss_at(pkt, tcp_off) {
        let data_offset = pkt[tcp_off + 12] / 16 * 4;
        lemma_mss_option_bounds(pkt.subrange(tcp_off + 20, tcp_off + data_offset), 0);
    }
}

/// Where the segment size stands does not depend on what lies before the
/// sequence number.
proof fn lemma_mss_at_ported(a: Seq<u8>, b: Seq<u8>, tcp_off: int)
    requires
        0 <= tcp_off,
        a.len() == b.len(),
        forall|k: int| tcp_off + 4 <= k < a.len() ==> #[trigger] b[k] == a[k],
    ensures
        mss_at(b, tcp_off) == mss_at(a, tcp_off),
{
    if a.len() >= tcp_off + 24 {
        assert(b[tcp_off + 12] == a[tcp_off + 12]);
        assert(b[tcp_off + 13] == a[tcp_off + 13]);
        let data_offset = a[tcp_off + 12] / 16 * 4;
        if data_offset >= 20 && tcp_off + data_offset <= a.len() {
            assert(a.subrange(tcp_off + 20, tcp_off + data_offset) =~= b.subrange(
                tcp_off + 20,
                tcp_off + data_offset,
            ));
        }
    }
}

/// What a listener answers to a connection that was led to it goes back to
/// the client of that connection, as if from the destination that the client
/// had asked for.
pub proof fn law_answer_reaches_client_v4(
    raw: Seq<u8>,
    ctx: TcpContextV4,
    t0: TcpNat,
    t1: TcpNat,
    t2: TcpNat,
    now1: u64,
    now2: u64,
    out: Seq<u8>,
    answer: Seq<u8>,
    r: Option<Seq<u8>>,
)
    requires
        t0.wf(),
        20 <= checksum::header_len(raw) <= raw.len(),
        tcp_plan_v4(raw, ctx) is Forward,
        tcp_outcome_v4(raw, ctx, t0, t1, now1, Some(out)),
        tcp_plan_v4(answer, ctx) == TcpPlan::Back(
            wire::be16(out, checksum::header_len(raw)) as u16,
        ),
        tcp_outcome_v4(answer, ctx, t1, t2, now2, r),
    ensures
        r == Some(
            readdressed_v4(
                answer,
                dst_v4(raw),
                src_v4(raw),
                Some(
                    (
                        wire::be16(raw, checksum::header_len(raw) + 2) as u16,
                        wire::be16(raw, checksum::header_len(raw)) as u16,
                    ),
                ),
                ctx.tcp_mss,
            ),
        ),
{
    let ihl = checksum::header_len(raw);
    let src = SocketAddr::V4(SocketAddrV4 { ip: src_v4(raw), port: wire::be16(raw, ihl) as u16 });
    let dst = SocketAddr::V4(
        SocketAddrV4 { ip: dst_v4(raw), port: wire::be16(raw, ihl + 2) as u16 },
    );
    let lp = listener_port(wire::be16(raw, ihl + 2), ctx.tcp_port, ctx.dns_tcp_port, ctx.dns_hijack);
    let port = choose|port: Option<u16>|
        #[trigger] tcp_nat::looked_up(t0, t1, src, dst, now1, port) && Some(out) == (match port {
            Some(p) => Some(
                readdressed_v4(
                    raw,
                    ctx.client_addr->0,
                    ctx.server_addr->0,
                    Some((p, lp)),
                    ctx.tcp_mss,
                ),
            ),
            None => None,
        });
    assert(port is Some);
    law_readdressed_v4(raw, ctx.client_addr->0, ctx.server_addr->0, port->0, lp, ctx.tcp_mss);
    assert(t1.maps(src, dst, port->0));
}

/// A readdressed IPv6 packet bears the addresses and ports it was given, its
/// checksum is valid, and nothing else has changed but a segment size above
/// the limit.
pub proof fn law_readdressed_v6(
    raw: Seq<u8>,
    tcp_off: int,
    src: Ipv6Addr,
    dst: Ipv6Addr,
    s: u16,
    d: u16,
    mss: Option<u16>,
)
    requires
        40 <= tcp_off,
        tcp_off + 20 <= raw.len(),
    ensures
        ({
            let out = readdressed_v6(raw, tcp_off, src, dst, Some((s, d)), mss);
            &&& out.len() == raw.len()
            &&& src_v6(out) == src
            &&& dst_v6(out) == dst
            &&& wire::be16(out, tcp_off) == s
            &&& wire::be16(out, tcp_off + 2) == d
            &&& checksum::pseudo_checksum(
                out.subrange(8, 24),
                out.subrange(24, 40),
                6,
                out.subrange(tcp_off, out.len() as int),
                checksum::limit_v6(),
            ) == 0
            &&& forall|k: int|
                0 <= k < raw.len() && !(8 <= k < 40) && !(tcp_off <= k < tcp_off + 4) && !(tcp_off
                    + 16 <= k < tcp_off + 18) && !(mss is Some && in_mss_field(raw, tcp_off, k))
                    ==> #[trigger] out[k] == raw[k]
        }),
{
    let addressed = wire::put128(wire::put128(raw, 8, src.bits as int), 24, dst.bits as int);
    let ported = wire::put16(wire::put16(addressed, tcp_off, s as int), tcp_off + 2, d as int);
    let limited = mss_limited(ported, tcp_off, mss);
    let out = readdressed_v6(raw, tcp_off, src, dst, Some((s, d)), mss);
    wire::lemma_put128(raw, 8, src.bits as int);
    wire::lemma_put128(wire::put128(raw, 8, src.bits as int), 24, dst.bits as int);
    lemma_mss_at_ported(raw, ported, tcp_off);
    if let Some(max) = mss {
        law_clamp_limits_mss(ported, tcp_off, max as int);
        lemma_mss_at_bounds(ported, tcp_off);
    }
    assert(limited.len() == raw.len());
    checksum::law_rechecked_transport_valid(limited, tcp_off, 16, 6, 8, 16, checksum::limit_v6());
    assert(forall|k: int| 0 <= k < tcp_off + 4 ==> #[trigger] out[k] == ported[k]);
    wire::lemma_be128_same(ported, out, 8);
    wire::lemma_be128_same(ported, out, 24);
    wire::lemma_be128_same(addressed, ported, 8);
    wire::lemma_be128_same(addressed, ported, 24);
    wire::lemma_be128_same(wire::put128(raw, 8, src.bits as int), addressed, 8);
}

/// What a listener answers to a connection that was led to it goes back to
/// the client of that connection, as if from the destination that the client
/// had asked for.
pub proof fn law_answer_reaches_client_v6(
    raw: Seq<u8>,
    tcp_off: int,
    ctx: TcpContextV6,
    t0: TcpNat,
    t1: TcpNat,
    t2: TcpNat,
    now1: u64,
    now2: u64,
    out: Seq<u8>,
    answer: Seq<u8>,
    answer_off: int,
    r: Option<Seq<u8>>,
)
    requires
        t0.wf(),
        tcp_plan_v6(raw, tcp_off, ctx) is Forward,
        tcp_outcome_v6(raw, tcp_off, ctx, t0, t1, now1, Some(out)),
        tcp_plan_v6(answer, answer_off, ctx) == TcpPlan::Back(wire::be16(out, tcp_off) as u16),
        tcp_outcome_v6(answer, answer_off, ctx, t1, t2, now2, r),
    ensures
        r == Some(
            readdressed_v6(
                answer,
                answer_off,
                dst_v6(raw),
                src_v6(raw),
                Some((wire::be16(raw, tcp_off + 2) as u16, wire::be16(raw, tcp_off) as u16)),
                ctx.tcp_mss,
            ),
        ),
{
    let src = SocketAddr::V6(
        SocketAddrV6 { ip: src_v6(raw), port: wire::be16(raw, tcp_off) as u16 },
    );
    let dst = SocketAddr::V6(
        SocketAddrV6 { ip: dst_v6(raw), port: wire::be16(raw, tcp_off + 2) as u16 },
    );
    let lp = listener_port(
        wire::be16(raw, tcp_off + 2),
        ctx.tcp_port,
        ctx.dns_tcp_port,
        ctx.dns_hijack,
    );
    let port = choose|port: Option<u16>|
        #[trigger] tcp_nat::looked_up(t0, t1, src, dst, now1, port) && Some(out) == (match port {
            Some(p) => Some(
                readdressed_v6(
                    raw,
                    tcp_off,
                    ctx.client_addr->0,
                    ctx.server_addr->0,
                    Some((p, lp)),
                    ctx.tcp_mss,
                ),
            ),
            None => None,
        });
    assert(port is Some);
    law_readdressed_v6(
        raw,
        tcp_off,
        ctx.client_addr->0,
        ctx.server_addr->0,
        port->0,
        lp,
        ctx.tcp_mss,
    );
    assert(t1.maps(src, dst, port->0));
}

/// A listener that accepts a connection learns from its port which client and
/// destination it is for.
pub proof fn law_listener_learns_destination_v4(
    raw: Seq<u8>,
    ctx: TcpContextV4,
    t0: TcpNat,
    t1: TcpNat,
    t2: TcpNat,
    now1: u64,
    now2: u64,
    out: Seq<u8>,
    r: Option<(SocketAddr, SocketAddr)>,
)
    requires
        t0.wf(),
        20 <= checksum::header_len(raw) <= raw.len(),
        tcp_plan_v4(raw, ctx) is Forward,
        tcp_outcome_v4(raw, ctx, t0, t1, now1, Some(out)),
        tcp_nat::looked_back(
            t1,
            t2,
            wire::be16(out, checksum::header_len(raw)) as u16,
            now2,
            r,
        ),
    ensures
        ({
            let ihl = checksum::header_len(raw);
            r == Some(
                (
                    SocketAddr::V4(
                        SocketAddrV4 { ip: src_v4(raw), port: wire::be16(raw, ihl) as u16 },
                    ),
                    SocketAddr::V4(
                        SocketAddrV4 { ip: dst_v4(raw), port: wire::be16(raw, ihl + 2) as u16 },
                    ),
                ),
            )
        }),
        dst_v4(out) == ctx.server_addr->0,
        src_v4(out) == ctx.client_addr->0,
{
    let ihl = checksum::header_len(raw);
    let src = SocketAddr::V4(SocketAddrV4 { ip: src_v4(raw), port: wire::be16(raw, ihl) as u16 });
    let dst = SocketAddr::V4(
        SocketAddrV4 { ip: dst_v4(raw), port: wire::be16(raw, ihl + 2) as u16 },
    );
    let lp = listener_port(wire::be16(raw, ihl + 2), ctx.tcp_port, ctx.dns_tcp_port, ctx.dns_hijack);
    let port = choose|port: Option<u16>|
        #[trigger] tcp_nat::looked_up(t0, t1, src, dst, now1, port) && Some(out) == (match port {
            Some(p) => Some(
                readdressed_v4(
                    raw,
                    ctx.client_addr->0,
                    ctx.server_addr->0,
                    Some((p, lp)),
                    ctx.tcp_mss,
                ),
            ),
            None => None,
        });
    assert(port is Some);
    law_readdressed_v4(raw, ctx.client_addr->0, ctx.server_addr->0, port->0, lp, ctx.tcp_mss);
    assert(t1.maps(src, dst, port->0));
}

/// A listener that accepts a connection learns from its port which client and
/// destination it is for.
pub proof fn law_listener_learns_destination_v6(
    raw: Seq<u8>,
    tcp_off: int,
    ctx: TcpContextV6,
    t0: TcpNat,
    t1: TcpNat,
    t2: TcpNat,
    now1: u64,
    now2: u64,
    out: Seq<u8>,
    r: Option<(SocketAddr, SocketAddr)>,
)
    requires
        t0.wf(),
        tcp_plan_v6(raw, tcp_off, ctx) is Forward,
        tcp_outcome_v6(raw, tcp_off, ctx, t0, t1, now1, Some(out)),
        tcp_nat::looked_back(t1, t2, wire::be16(out, tcp_off) as u16, now2, r),
    ensures
        r == Some(
            (
                SocketAddr::V6(
                    SocketAddrV6 { ip: src_v6(raw), port: wire::be16(raw, tcp_off) as u16 },
                ),
                SocketAddr::V6(
                    SocketAddrV6 { ip: dst_v6(raw), port: wire::be16(raw, tcp_off + 2) as u16 },
                ),
            ),
        ),
        dst_v6(out) == ctx.server_addr->0,
        src_v6(out) == ctx.client_addr->0,
{
    let src = SocketAddr::V6(
        SocketAddrV6 { ip: src_v6(raw), port: wire::be16(raw, tcp_off) as u16 },
    );
    let dst = SocketAddr::V6(
        SocketAddrV6 { ip: dst_v6(raw), port: wire::be16(raw, tcp_off + 2) as u16 },
    );
    let lp = listener_port(
        wire::be16(raw, tcp_off + 2),
        ctx.tcp_port,
        ctx.dns_tcp_port,
        ctx.dns_hijack,
    );
    let port = choose|port: Option<u16>|
        #[trigger] tcp_nat::looked_up(t0, t1, src, dst, now1, port) && Some(out) == (match port {
            Some(p) => Some(
                readdressed_v6(
                    raw,
                    tcp_off,
                    ctx.client_addr->0,
                    ctx.server_addr->0,
                    Some((p, lp)),
                    ctx.tcp_mss,
                ),
            ),
            None => None,
        });
    assert(port is Some);
    law_readdressed_v6(
        raw,
        tcp_off,
        ctx.client_addr->0,
        ctx.server_addr->0,
        port->0,
        lp,
        ctx.tcp_mss,
    );
    assert(t1.maps(src, dst, port->0));
}

} // verus!
