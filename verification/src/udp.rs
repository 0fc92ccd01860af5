//! UDP and IPv6 headers: where the transport part of a packet starts, what a
//! datagram carries, and the packets that carry replies.
use vstd::prelude::*;

use crate::addr::{Ipv4Addr, Ipv6Addr, SocketAddr, SocketAddrV4, SocketAddrV6};
use crate::checksum;
use crate::checksum::{internet_checksum, pseudo_checksum_v4, pseudo_checksum_v6};
use crate::mtu;
use crate::mtu::tun_write_mtu;
use crate::octets;
use crate::wire;
use crate::wire::{copy_at, get_be16, set_be128, set_be16, set_be32, sub_vec, zero_vec};

verus! {

pub const IPPROTO_HOPOPTS: u8 = 0;

pub const IPPROTO_ROUTING: u8 = 43;

pub const IPPROTO_FRAGMENT: u8 = 44;

pub const IPPROTO_DSTOPTS: u8 = 60;

/// Where a walk over the extension headers ends that has come to a header of
/// type `protocol` at `at`: the type of what is there, its place, whether it
/// is a fragment header, and whether it is a transport header. The walk stops
/// at a header that does not fit.
pub open spec fn ext_walk(protocol: u8, payload: Seq<u8>, at: int) -> (u8, int, bool, bool)
    decreases payload.len() - at,
{
    if protocol == IPPROTO_HOPOPTS || protocol == IPPROTO_ROUTING || protocol == IPPROTO_DSTOPTS {
        if at < 0 || payload.len() - at < 2 || payload.len() - at < (payload[at + 1] + 1) * 8 {
            (protocol, at, false, false)
        } else {
            ext_walk(payload[at], payload, at + (payload[at + 1] + 1) * 8)
        }
    } else if protocol == IPPROTO_FRAGMENT {
        (protocol, at, true, false)
    } else {
        (protocol, at, false, true)
    }
}

/// Walks over the extension headers of an IPv6 packet, from the type in the
/// fixed header and what follows that header. The result is the type of the
/// first other header, what starts there, whether it is a fragment header, and
/// whether a transport header was found.
pub fn skip_ipv6_extension_headers(protocol: u8, payload: &[u8]) -> (r: (u8, &[u8], bool, bool))
    ensures
        ({
            let w = ext_walk(protocol, payload@, 0);
            &&& r.0 == w.0
            &&& r.2 == w.2
            &&& r.3 == w.3
            &&& 0 <= w.1 <= payload@.len()
            &&& r.1@ == payload@.subrange(w.1, payload@.len() as int)
        }),
{
    let mut proto: u8 = protocol;
    let mut at: usize = 0;
    while proto == IPPROTO_HOPOPTS || proto == IPPROTO_ROUTING || proto == IPPROTO_DSTOPTS
        invariant
            at <= payload.len(),
            ext_walk(protocol, payload@, 0) == ext_walk(proto, payload@, at as int),
        decreases payload.len() - at,
    {
        if payload.len() - at < 2 {
            return (proto, &payload[at..payload.len()], false, false);
        }
        let ext: usize = (payload[at + 1] as usize + 1) * 8;
        if payload.len() - at < ext {
            return (proto, &payload[at..payload.len()], false, false);
        }
        proto = payload[at];
        at = at + ext;
    }
    let fragment = proto == IPPROTO_FRAGMENT;
    (proto, &payload[at..payload.len()], fragment, !fragment)
}

/// How many payload bytes a datagram has: what its length field says beyond
/// the header, but no more than there are.
pub open spec fn udp_payload_len(udp: Seq<u8>) -> int {
    let said = if wire::be16(udp, 4) < 8 {
        0
    } else {
        wire::be16(udp, 4) - 8
    };
    mtu::min(said, udp.len() - 8)
}

/// A datagram as read: where it comes from, where it goes, what it carries.
pub open spec fn udp_read(
    r: Option<(SocketAddr, SocketAddr, bytes::Bytes)>,
    udp: Seq<u8>,
    src: SocketAddr,
    dst: SocketAddr,
) -> bool {
    if udp.len() < 8 {
        r is None
    } else {
        match r {
            Some((s, d, data)) => {
                &&& s == src
                &&& d == dst
                &&& octets::content(data) == udp.subrange(8, 8 + udp_payload_len(udp))
            },
            None => false,
        }
    }
}

fn payload_len(udp: &[u8]) -> (n: usize)
    requires
        udp.len() >= 8,
    ensures
        n == udp_payload_len(udp@),
        n <= udp.len() - 8,
{
    let length: usize = get_be16(udp, 4) as usize;
    let said: usize = if length < 8 {
        0
    } else {
        length - 8
    };
    if said < udp.len() - 8 {
        said
    } else {
        udp.len() - 8
    }
}

/// Reads a datagram of an IPv4 packet.
pub fn parse_udp_v4(udp: &[u8], src_ip: Ipv4Addr, dst_ip: Ipv4Addr) -> (r: Option<
    (SocketAddr, SocketAddr, bytes::Bytes),
>)
    ensures
        udp_read(
            r,
            udp@,
            SocketAddr::V4(SocketAddrV4 { ip: src_ip, port: wire::be16(udp@, 0) as u16 }),
            SocketAddr::V4(SocketAddrV4 { ip: dst_ip, port: wire::be16(udp@, 2) as u16 }),
        ),
{
    if udp.len() < 8 {
        return None;
    }
    let src = SocketAddr::V4(SocketAddrV4 { ip: src_ip, port: get_be16(udp, 0) });
    let dst = SocketAddr::V4(SocketAddrV4 { ip: dst_ip, port: get_be16(udp, 2) });
    let n: usize = payload_len(udp);
    Some((src, dst, octets::bytes_copy(&udp[8..8 + n])))
}

/// Reads a datagram of an IPv6 packet.
pub fn parse_udp_v6(udp: &[u8], src_ip: Ipv6Addr, dst_ip: Ipv6Addr) -> (r: Option<
    (SocketAddr, SocketAddr, bytes::Bytes),
>)
    ensures
        udp_read(
            r,
            udp@,
            SocketAddr::V6(SocketAddrV6 { ip: src_ip, port: wire::be16(udp@, 0) as u16 }),
            SocketAddr::V6(SocketAddrV6 { ip: dst_ip, port: wire::be16(udp@, 2) as u16 }),
        ),
{
    if udp.len() < 8 {
        return None;
    }
    let src = SocketAddr::V6(SocketAddrV6 { ip: src_ip, port: get_be16(udp, 0) });
    let dst = SocketAddr::V6(SocketAddrV6 { ip: dst_ip, port: get_be16(udp, 2) });
    let n: usize = payload_len(udp);
    Some((src, dst, octets::bytes_copy(&udp[8..8 + n])))
}

/// The length that the UDP header of a datagram gives: sixteen bits of it.
pub open spec fn udp_len(payload: Seq<u8>) -> int {
    (8 + payload.len() as int) % 65536
}

/// A datagram with a zero checksum.
pub open spec fn udp_blank(src_port: int, dst_port: int, payload: Seq<u8>) -> Seq<u8> {
    seq![
        (src_port / 256) as u8,
        (src_port % 256) as u8,
        (dst_port / 256) as u8,
        (dst_port % 256) as u8,
        (udp_len(payload) / 256) as u8,
        (udp_len(payload) % 256) as u8,
        0,
        0,
    ] + payload
}

/// The four bytes of an IPv4 address.
pub open spec fn octets_v4(ip: Ipv4Addr) -> Seq<u8> {
    wire::put32(wire::zeros(4), 0, ip.bits as int)
}

/// The sixteen bytes of an IPv6 address.
pub open spec fn octets_v6(ip: Ipv6Addr) -> Seq<u8> {
    wire::put128(wire::zeros(16), 0, ip.bits as int)
}

/// An IPv4 packet, not to be fragmented, with a datagram in it.
pub open spec fn udp_packet_v4(src: SocketAddrV4, dst: SocketAddrV4, payload: Seq<u8>) -> Seq<u8> {
    let total = 20 + udp_len(payload);
    let header = seq![
        0x45u8,
        0,
        (total / 256) as u8,
        (total % 256) as u8,
        0,
        0,
        0x40,
        0,
        64,
        17,
        0,
        0,
    ] + octets_v4(src.ip) + octets_v4(dst.ip);
    let udp = udp_blank(src.port as int, dst.port as int, payload);
    wire::put16(header, 10, checksum::internet_sum(header)) + wire::put16(
        udp,
        6,
        checksum::pseudo_checksum(
            octets_v4(src.ip),
            octets_v4(dst.ip),
            17,
            udp,
            checksum::limit_v4(),
        ),
    )
}

/// An IPv6 packet with a datagram in it.
pub open spec fn udp_packet_v6(src: SocketAddrV6, dst: SocketAddrV6, payload: Seq<u8>) -> Seq<u8> {
    let header = seq![
        0x60u8,
        0,
        0,
        0,
        (udp_len(payload) / 256) as u8,
        (udp_len(payload) % 256) as u8,
        17,
        64,
    ] + octets_v6(src.ip) + octets_v6(dst.ip);
    let udp = udp_blank(src.port as int, dst.port as int, payload);
    header + wire::put16(
        udp,
        6,
        checksum::pseudo_checksum(
            octets_v6(src.ip),
            octets_v6(dst.ip),
            17,
            udp,
            checksum::limit_v6(),
        ),
    )
}

fn write_octets_v4(ip: Ipv4Addr) -> (v: Vec<u8>)
    ensures
        v@ == octets_v4(ip),
        v@.len() == 4,
{
    let mut v: Vec<u8> = zero_vec(4);
    set_be32(v.as_mut_slice(), 0, ip.bits);
    v
}

fn write_octets_v6(ip: Ipv6Addr) -> (v: Vec<u8>)
    ensures
        v@ == octets_v6(ip),
        v@.len() == 16,
{
    let mut v: Vec<u8> = zero_vec(16);
    set_be128(v.as_mut_slice(), 0, ip.bits);
    v
}

fn write_udp(src_port: u16, dst_port: u16, payload: &[u8]) -> (v: Vec<u8>)
    requires
        payload.len() <= usize::MAX - 64,
    ensures
        v@ == udp_blank(src_port as int, dst_port as int, payload@),
{
    let mut v: Vec<u8> = zero_vec(8 + payload.len());
    let length: u16 = ((8 + payload.len()) % 65536) as u16;
    set_be16(v.as_mut_slice(), 0, src_port);
    set_be16(v.as_mut_slice(), 2, dst_port);
    set_be16(v.as_mut_slice(), 4, length);
    copy_at(v.as_mut_slice(), 8, payload);
    assert(v@ =~= udp_blank(src_port as int, dst_port as int, payload@));
    v
}

pub fn build_udp_reply_v4(src: SocketAddrV4, dst: SocketAddrV4, payload: &[u8]) -> (pkt: Vec<u8>)
    requires
        payload.len() <= usize::MAX - 64,
        udp_len(payload@) + 20 <= 65535,
    ensures
        pkt@ == udp_packet_v4(src, dst, payload@),
{
    let length: u16 = ((8 + payload.len()) % 65536) as u16;
    let a: Vec<u8> = write_octets_v4(src.ip);
    let b: Vec<u8> = write_octets_v4(dst.ip);
    let mut pkt: Vec<u8> = zero_vec(20);
    pkt.set(0, 0x45);
    set_be16(pkt.as_mut_slice(), 2, 20 + length);
    pkt.set(6, 0x40);
    pkt.set(8, 64);
    pkt.set(9, 17);
    copy_at(pkt.as_mut_slice(), 12, a.as_slice());
    copy_at(pkt.as_mut_slice(), 16, b.as_slice());
    let ghost header = seq![
        0x45u8,
        0,
        ((20 + length) / 256) as u8,
        ((20 + length) % 256) as u8,
        0,
        0,
        0x40,
        0,
        64,
        17,
        0,
        0,
    ] + octets_v4(src.ip) + octets_v4(dst.ip);
    assert(pkt@ =~= header);
    let sum: u16 = internet_checksum(pkt.as_slice());
    set_be16(pkt.as_mut_slice(), 10, sum);
    let mut udp: Vec<u8> = write_udp(src.port, dst.port, payload);
    let sum2: u16 = pseudo_checksum_v4(a.as_slice(), b.as_slice(), 17, udp.as_slice());
    set_be16(udp.as_mut_slice(), 6, sum2);
    pkt.append(&mut udp);
    pkt
}

pub fn build_udp_reply_v6(src: SocketAddrV6, dst: SocketAddrV6, payload: &[u8]) -> (pkt: Vec<u8>)
    requires
        payload.len() <= usize::MAX - 64,
    ensures
        pkt@ == udp_packet_v6(src, dst, payload@),
{
    let length: u16 = ((8 + payload.len()) % 65536) as u16;
    let a: Vec<u8> = write_octets_v6(src.ip);
    let b: Vec<u8> = write_octets_v6(dst.ip);
    let mut pkt: Vec<u8> = zero_vec(40);
    pkt.set(0, 0x60);
    set_be16(pkt.as_mut_slice(), 4, length);
    pkt.set(6, 17);
    pkt.set(7, 64);
    copy_at(pkt.as_mut_slice(), 8, a.as_slice());
    copy_at(pkt.as_mut_slice(), 24, b.as_slice());
    let ghost header = seq![
        0x60u8,
        0,
        0,
        0,
        (length / 256) as u8,
        (length % 256) as u8,
        17,
        64,
    ] + octets_v6(src.ip) + octets_v6(dst.ip);
    assert(pkt@ =~= header);
    let mut udp: Vec<u8> = write_udp(src.port, dst.port, payload);
    let sum: u16 = pseudo_checksum_v6(a.as_slice(), b.as_slice(), 17, udp.as_slice());
    set_be16(udp.as_mut_slice(), 6, sum);
    pkt.append(&mut udp);
    pkt
}

/// A packet with a datagram from `src` to `dst`, or `None` where these are not
/// of one IP version.
pub fn build_udp_reply_packet(src: SocketAddr, dst: SocketAddr, payload: &[u8]) -> (r: Option<
    Vec<u8>,
>)
    requires
        payload.len() <= usize::MAX - 64,
        src is V4 && dst is V4 ==> udp_len(payload@) + 20 <= 65535,
    ensures
        mtu::bytes_view(r) == udp_reply(src, dst, payload@),
{
    match (src, dst) {
        (SocketAddr::V4(s), SocketAddr::V4(d)) => Some(build_udp_reply_v4(s, d, payload)),
        (SocketAddr::V6(s), SocketAddr::V6(d)) => Some(build_udp_reply_v6(s, d, payload)),
        _ => None,
    }
}

pub open spec fn udp_reply(src: SocketAddr, dst: SocketAddr, payload: Seq<u8>) -> Option<Seq<u8>> {
    match (src, dst) {
        (SocketAddr::V4(s), SocketAddr::V4(d)) => Some(udp_packet_v4(s, d, payload)),
        (SocketAddr::V6(s), SocketAddr::V6(d)) => Some(udp_packet_v6(s, d, payload)),
        _ => None,
    }
}

/// The headers of the request turned round, with the payload behind them: the
/// client's address and port become the destination, the server's the source,
/// and the lengths are those of the reply.
#[verifier::opaque]
pub open spec fn turned_round_v4(
    template: Seq<u8>,
    server: SocketAddrV4,
    payload: Seq<u8>,
) -> Seq<u8> {
    let ihl = checksum::header_len(template);
    let joined = template.subrange(0, ihl + 8) + payload;
    let sized = wire::put16(joined, 2, ihl + udp_len(payload));
    let addressed = wire::put32(
        wire::put32(sized, 16, wire::be32(template, 12)),
        12,
        server.ip.bits as int,
    );
    let ported = wire::put16(
        wire::put16(addressed, ihl + 2, wire::be16(template, ihl)),
        ihl,
        server.port as int,
    );
    wire::put16(ported, ihl + 4, udp_len(payload))
}

/// Extension headers stand between the fixed header of an IPv6 request and its
/// UDP header, which is the last of its headers.
pub open spec fn has_extensions(template: Seq<u8>) -> bool {
    template.len() > 48 && template[6] != 17
}

/// The fixed header and the UDP header of an IPv6 request, the one right behind
/// the other; extension headers are left out.
pub open spec fn plain_headers_v6(template: Seq<u8>) -> Seq<u8> {
    if has_extensions(template) {
        template.subrange(0, 40).update(6, 17) + template.subrange(
            template.len() - 8,
            template.len() as int,
        )
    } else {
        template.subrange(0, 48)
    }
}

/// Where the UDP header of an IPv6 request starts.
pub open spec fn udp_header_at_v6(template: Seq<u8>) -> int {
    if has_extensions(template) {
        template.len() - 8
    } else {
        40
    }
}

/// The same for IPv6, from a fixed header and the UDP header behind it.
#[verifier::opaque]
pub open spec fn turned_round_v6(
    template: Seq<u8>,
    server: SocketAddrV6,
    payload: Seq<u8>,
) -> Seq<u8> {
    let joined = template.subrange(0, 48) + payload;
    let sized = wire::put16(joined, 4, udp_len(payload));
    let addressed = wire::put128(
        wire::put128(sized, 24, wire::be128(template, 8)),
        8,
        server.ip.bits as int,
    );
    let ported = wire::put16(
        wire::put16(addressed, 42, wire::be16(template, 40)),
        40,
        server.port as int,
    );
    wire::put16(ported, 44, udp_len(payload))
}

/// A reply made from the headers of the request: turned round, with checksums
/// of its own; everything else in the headers, IP options and all, stays.
pub open spec fn templated_v4(
    template: Seq<u8>,
    server: SocketAddrV4,
    payload: Seq<u8>,
) -> Seq<u8> {
    let ihl = checksum::header_len(template);
    let done = checksum::transport_rechecked(
        turned_round_v4(template, server, payload),
        ihl,
        6,
        17,
        12,
        4,
        checksum::limit_v4(),
    );
    let cleared = wire::put16(done, 10, 0);
    wire::put16(cleared, 10, checksum::internet_sum(cleared.subrange(0, ihl)))
}

/// The same for IPv6, whose header has no checksum. Extension headers of the
/// request are not repeated.
pub open spec fn templated_v6(
    template: Seq<u8>,
    server: SocketAddrV6,
    payload: Seq<u8>,
) -> Seq<u8> {
    checksum::transport_rechecked(
        turned_round_v6(plain_headers_v6(template), server, payload),
        40,
        6,
        17,
        8,
        16,
        checksum::limit_v6(),
    )
}

/// A template that a reply can be made from.
pub open spec fn template_ok_v4(template: Seq<u8>) -> bool {
    let ihl = checksum::header_len(template);
    template.len() >= 28 && ihl >= 20 && template.len() >= ihl + 8
}

pub fn build_udp_reply_v4_with_template(
    template: &[u8],
    reply_src: SocketAddrV4,
    payload: &[u8],
) -> (r: Option<Vec<u8>>)
    requires
        payload.len() <= usize::MAX - 128,
        template_ok_v4(template@) ==> checksum::header_len(template@) + udp_len(payload@) <= 65535,
    ensures
        mtu::bytes_view(r) == (if template_ok_v4(template@) {
            Some(templated_v4(template@, reply_src, payload@))
        } else {
            None
        }),
{
    if template.len() < 28 {
        return None;
    }
    let ihl: usize = (template[0] % 16) as usize * 4;
    if ihl < 20 || template.len() < ihl + 8 {
        return None;
    }
    reveal(turned_round_v4);
    let length: u16 = ((8 + payload.len()) % 65536) as u16;
    let mut pkt: Vec<u8> = sub_vec(template, 0, ihl + 8);
    let mut tail: Vec<u8> = sub_vec(payload, 0, payload.len());
    assert(tail@ =~= payload@);
    pkt.append(&mut tail);
    let client_ip: u32 = crate::wire::get_be32(template, 12);
    let client_port: u16 = get_be16(template, ihl);
    set_be16(pkt.as_mut_slice(), 2, ihl as u16 + length);
    set_be32(pkt.as_mut_slice(), 16, client_ip);
    set_be32(pkt.as_mut_slice(), 12, reply_src.ip.bits);
    set_be16(pkt.as_mut_slice(), ihl + 2, client_port);
    set_be16(pkt.as_mut_slice(), ihl, reply_src.port);
    set_be16(pkt.as_mut_slice(), ihl + 4, length);
    let a: Vec<u8> = sub_vec(pkt.as_slice(), 12, 16);
    let b: Vec<u8> = sub_vec(pkt.as_slice(), 16, 20);
    set_be16(pkt.as_mut_slice(), ihl + 6, 0);
    let len: usize = pkt.len();
    let sum: u16 = pseudo_checksum_v4(
        a.as_slice(),
        b.as_slice(),
        17,
        &pkt.as_slice()[ihl..len],
    );
    set_be16(pkt.as_mut_slice(), ihl + 6, sum);
    set_be16(pkt.as_mut_slice(), 10, 0);
    let sum2: u16 = internet_checksum(&pkt.as_slice()[0..ihl]);
    set_be16(pkt.as_mut_slice(), 10, sum2);
    Some(pkt)
}

fn write_plain_headers_v6(template: &[u8]) -> (headers: Vec<u8>)
    requires
        template.len() >= 48,
    ensures
        headers@ == plain_headers_v6(template@),
{
    if template.len() > 48 && template[6] != 17 {
        let mut headers: Vec<u8> = sub_vec(template, 0, 40);
        headers.set(6, 17);
        let mut udp: Vec<u8> = sub_vec(template, template.len() - 8, template.len());
        headers.append(&mut udp);
        headers
    } else {
        sub_vec(template, 0, 48)
    }
}

pub fn build_udp_reply_v6_with_template(
    template: &[u8],
    reply_src: SocketAddrV6,
    payload: &[u8],
) -> (r: Option<Vec<u8>>)
    requires
        payload.len() <= usize::MAX - 128,
    ensures
        mtu::bytes_view(r) == (if template@.len() >= 48 {
            Some(templated_v6(template@, reply_src, payload@))
        } else {
            None
        }),
{
    if template.len() < 48 {
        return None;
    }
    reveal(turned_round_v6);
    let length: u16 = ((8 + payload.len()) % 65536) as u16;
    let headers: Vec<u8> = write_plain_headers_v6(template);
    let mut pkt: Vec<u8> = sub_vec(headers.as_slice(), 0, 48);
    let mut tail: Vec<u8> = sub_vec(payload, 0, payload.len());
    assert(tail@ =~= payload@);
    pkt.append(&mut tail);
    let client_ip: u128 = crate::wire::get_be128(headers.as_slice(), 8);
    let client_port: u16 = get_be16(headers.as_slice(), 40);
    set_be16(pkt.as_mut_slice(), 4, length);
    set_be128(pkt.as_mut_slice(), 24, client_ip);
    set_be128(pkt.as_mut_slice(), 8, reply_src.ip.bits);
    set_be16(pkt.as_mut_slice(), 42, client_port);
    set_be16(pkt.as_mut_slice(), 40, reply_src.port);
    set_be16(pkt.as_mut_slice(), 44, length);
    let a: Vec<u8> = sub_vec(pkt.as_slice(), 8, 24);
    let b: Vec<u8> = sub_vec(pkt.as_slice(), 24, 40);
    set_be16(pkt.as_mut_slice(), 46, 0);
    let len: usize = pkt.len();
    let sum: u16 = pseudo_checksum_v6(a.as_slice(), b.as_slice(), 17, &pkt.as_slice()[40..len]);
    set_be16(pkt.as_mut_slice(), 46, sum);
    Some(pkt)
}

/// What a template makes of a reply: nothing, unless it, the server and the
/// client are of one IP version and it is long enough.
pub open spec fn udp_reply_templated(
    template: Seq<u8>,
    reply_src: SocketAddr,
    reply_dst: SocketAddr,
    payload: Seq<u8>,
) -> Option<Seq<u8>> {
    match (reply_src, reply_dst) {
        (SocketAddr::V4(s), SocketAddr::V4(_)) => if template.len() > 0 && template[0] / 16 == 4
            && template_ok_v4(template) {
            Some(templated_v4(template, s, payload))
        } else {
            None
        },
        (SocketAddr::V6(s), SocketAddr::V6(_)) => if template.len() >= 48 && template[0] / 16 == 6 {
            Some(templated_v6(template, s, payload))
        } else {
            None
        },
        _ => None,
    }
}

/// A reply made from the headers of the request that it answers.
pub fn build_udp_reply_packet_with_template(
    template: &[u8],
    reply_src: SocketAddr,
    reply_dst: SocketAddr,
    payload: &[u8],
) -> (r: Option<Vec<u8>>)
    requires
        payload.len() <= usize::MAX - 128,
        udp_reply_templated(template@, reply_src, reply_dst, payload@) is Some && reply_src is V4
            ==> checksum::header_len(template@) + udp_len(payload@) <= 65535,
    ensures
        mtu::bytes_view(r) == udp_reply_templated(template@, reply_src, reply_dst, payload@),
{
    if template.len() == 0 {
        return None;
    }
    match (reply_src, reply_dst) {
        (SocketAddr::V4(s), SocketAddr::V4(_)) => if template[0] / 16 == 4 {
            build_udp_reply_v4_with_template(template, s, payload)
        } else {
            None
        },
        (SocketAddr::V6(s), SocketAddr::V6(_)) => if template[0] / 16 == 6 {
            build_udp_reply_v6_with_template(template, s, payload)
        } else {
            None
        },
        _ => None,
    }
}

/// The reply to a client: made from the headers of its request where they
/// serve, else from scratch.
pub open spec fn reply_for(
    template: Seq<u8>,
    server: SocketAddr,
    client: SocketAddr,
    payload: Seq<u8>,
) -> Option<Seq<u8>> {
    match udp_reply_templated(template, server, client, payload) {
        Some(pkt) => Some(pkt),
        None => udp_reply(server, client, payload),
    }
}

/// The packets that are written for a reply, given the MTU.
pub open spec fn replies(
    template: Seq<u8>,
    server: SocketAddr,
    client: SocketAddr,
    payload: Seq<u8>,
    mtu: int,
) -> Seq<Seq<u8>> {
    match reply_for(template, server, client, payload) {
        Some(pkt) => mtu::written_for(pkt, mtu, server is V6),
        None => Seq::empty(),
    }
}

/// The total length of an IPv4 reply fits its header.
pub open spec fn reply_fits(
    template: Seq<u8>,
    server: SocketAddr,
    client: SocketAddr,
    payload: Seq<u8>,
) -> bool {
    &&& payload.len() <= usize::MAX - 128
    &&& server is V4 && client is V4 ==> (if udp_reply_templated(template, server, client, payload)
        is Some {
        checksum::header_len(template)
    } else {
        20
    }) + udp_len(payload) <= 65535
}

/// Whether the total length of an IPv4 reply fits its header.
pub fn can_reply(template: &[u8], server: SocketAddr, client: SocketAddr, payload: &[u8]) -> (r:
    bool)
    ensures
        r == reply_fits(template@, server, client, payload@),
{
    if payload.len() > usize::MAX - 128 {
        return false;
    }
    match (server, client) {
        (SocketAddr::V4(_), SocketAddr::V4(_)) => {
            let length: usize = (8 + payload.len()) % 65536;
            let mut header: usize = 20;
            if template.len() >= 28 && template[0] / 16 == 4 {
                let ihl: usize = (template[0] % 16) as usize * 4;
                if ihl >= 20 && template.len() >= ihl + 8 {
                    header = ihl;
                }
            }
            header + length <= 65535
        },
        _ => true,
    }
}

/// The packets to write to the tunnel for a reply.
pub fn reply_packets(
    template: &[u8],
    server: SocketAddr,
    client: SocketAddr,
    payload: &[u8],
    mtu: usize,
) -> (list: Vec<Vec<u8>>)
    requires
        reply_fits(template@, server, client, payload@),
    ensures
        wire::views(list@) == replies(template@, server, client, payload@, mtu as int),
{
    let pkt: Option<Vec<u8>> = match build_udp_reply_packet_with_template(
        template,
        server,
        client,
        payload,
    ) {
        Some(pkt) => Some(pkt),
        None => build_udp_reply_packet(server, client, payload),
    };
    match pkt {
        Some(pkt) => tun_write_mtu(
            pkt,
            mtu,
            match server {
                SocketAddr::V6(_) => true,
                SocketAddr::V4(_) => false,
            },
        ),
        None => {
            let list: Vec<Vec<u8>> = Vec::new();
            assert(wire::views(list@) =~= Seq::<Seq<u8>>::empty());
            list
        },
    }
}

/// A reply made from the headers of an IPv4 request goes from the server to
/// the client, has the lengths and valid checksums of its own, carries the
/// payload, and keeps everything else of the headers: type of service,
/// identification, flags, time to live and options.
pub proof fn law_templated_v4(template: Seq<u8>, server: SocketAddrV4, payload: Seq<u8>)
    requires
        template_ok_v4(template),
        checksum::header_len(template) + 8 + payload.len() <= 65535,
    ensures
        ({
            let ihl = checksum::header_len(template);
            let out = templated_v4(template, server, payload);
            &&& out.len() == ihl + 8 + payload.len()
            &&& out.subrange(ihl + 8, out.len() as int) == payload
            &&& wire::be16(out, 2) == out.len()
            &&& wire::be16(out, ihl + 4) == 8 + payload.len()
            &&& wire::be32(out, 12) == server.ip.bits
            &&& wire::be32(out, 16) == wire::be32(template, 12)
            &&& wire::be16(out, ihl) == server.port
            &&& wire::be16(out, ihl + 2) == wire::be16(template, ihl)
            &&& checksum::internet_sum(out.subrange(0, ihl)) == 0
            &&& checksum::pseudo_checksum(
                out.subrange(12, 16),
                out.subrange(16, 20),
                17,
                out.subrange(ihl, out.len() as int),
                checksum::limit_v4(),
            ) == 0
            &&& forall|k: int|
                0 <= k < ihl && !(2 <= k < 4) && !(10 <= k < 20) ==> #[trigger] out[k]
                    == template[k]
        }),
{
    let ihl = checksum::header_len(template);
    let before = turned_round_v4(template, server, payload);
    lemma_turned_round_v4(template, server, payload);
    let done = checksum::transport_rechecked(before, ihl, 6, 17, 12, 4, checksum::limit_v4());
    let out = templated_v4(template, server, payload);
    checksum::law_rechecked_transport_valid(before, ihl, 6, 17, 12, 4, checksum::limit_v4());
    let cleared = wire::put16(done, 10, 0);
    let head = cleared.subrange(0, ihl);
    checksum::lemma_word_sum_nonneg(head);
    checksum::law_complement_makes_sum_valid(checksum::word_sum(head));
    checksum::lemma_word_sum_put16(head, 10, checksum::internet_sum(head));
    assert(wire::be16(head, 10) == 0);
    assert(out.subrange(0, ihl) =~= wire::put16(head, 10, checksum::internet_sum(head)));
    assert(out.subrange(12, 16) =~= done.subrange(12, 16));
    assert(out.subrange(16, 20) =~= done.subrange(16, 20));
    assert(out.subrange(ihl, out.len() as int) =~= done.subrange(ihl, out.len() as int));
    assert(out.subrange(ihl + 8, out.len() as int) =~= before.subrange(
        ihl + 8,
        out.len() as int,
    ));
    assert(forall|k: int| 12 <= k < ihl + 6 ==> #[trigger] out[k] == before[k]);
    assert(forall|k: int| 0 <= k < 10 ==> #[trigger] out[k] == before[k]);
}

proof fn lemma_turned_round_v4(template: Seq<u8>, server: SocketAddrV4, payload: Seq<u8>)
    requires
        template_ok_v4(template),
        checksum::header_len(template) + 8 + payload.len() <= 65535,
    ensures
        ({
            let ihl = checksum::header_len(template);
            let b = turned_round_v4(template, server, payload);
            &&& b.len() == ihl + 8 + payload.len()
            &&& b.subrange(ihl + 8, b.len() as int) == payload
            &&& wire::be16(b, 2) == b.len()
            &&& wire::be16(b, ihl + 4) == 8 + payload.len()
            &&& wire::be32(b, 12) == server.ip.bits
            &&& wire::be32(b, 16) == wire::be32(template, 12)
            &&& wire::be16(b, ihl) == server.port
            &&& wire::be16(b, ihl + 2) == wire::be16(template, ihl)
            &&& forall|k: int|
                0 <= k < ihl && !(2 <= k < 4) && !(12 <= k < 20) ==> #[trigger] b[k] == template[k]
        }),
{
    reveal(turned_round_v4);
    let ihl = checksum::header_len(template);
    let b = turned_round_v4(template, server, payload);
    let joined = template.subrange(0, ihl + 8) + payload;
    let sized = wire::put16(joined, 2, ihl + udp_len(payload));
    let client = wire::be32(template, 12);
    let first = wire::put32(sized, 16, client);
    let addressed = wire::put32(first, 12, server.ip.bits as int);
    lemma_addresses(joined, ihl + udp_len(payload), client, server.ip.bits as int);
    lemma_ports(addressed, ihl, wire::be16(template, ihl), server.port as int, udp_len(payload));
    assert(forall|k: int| 0 <= k < ihl ==> #[trigger] b[k] == addressed[k]);
    assert(b.subrange(ihl + 8, b.len() as int) =~= payload);
    assert(wire::be32(b, 12) == wire::be32(addressed, 12));
    assert(wire::be32(b, 16) == wire::be32(addressed, 16));
}

proof fn lemma_addresses(s: Seq<u8>, total: int, client: int, server: int)
    requires
        s.len() >= 20,
        0 <= total < 65536,
        0 <= client <= u32::MAX,
        0 <= server <= u32::MAX,
    ensures
        ({
            let a = wire::put32(wire::put32(wire::put16(s, 2, total), 16, client), 12, server);
            &&& a.len() == s.len()
            &&& wire::be16(a, 2) == total
            &&& wire::be32(a, 12) == server
            &&& wire::be32(a, 16) == client
            &&& forall|k: int|
                0 <= k < s.len() && !(2 <= k < 4) && !(12 <= k < 20) ==> #[trigger] a[k] == s[k]
        }),
{
    let sized = wire::put16(s, 2, total);
    let first = wire::put32(sized, 16, client);
    wire::lemma_put16(s, 2, total);
    wire::lemma_put32(sized, 16, client);
    wire::lemma_put32(first, 12, server);
}

/// A reply made from the headers of an IPv6 request goes from the server to
/// the address and port that the request came from, has a valid checksum,
/// carries the payload, and keeps traffic class, flow label and hop limit. Its
/// UDP header follows the fixed header, and the fixed header says so where the
/// request had extension headers.
pub proof fn law_templated_v6(template: Seq<u8>, server: SocketAddrV6, payload: Seq<u8>)
    requires
        template.len() >= 48,
        8 + payload.len() <= 65535,
    ensures
        ({
            let out = templated_v6(template, server, payload);
            &&& out.len() == 48 + payload.len()
            &&& out.subrange(48, out.len() as int) == payload
            &&& wire::be16(out, 4) == 8 + payload.len()
            &&& wire::be16(out, 44) == 8 + payload.len()
            &&& wire::be128(out, 8) == server.ip.bits
            &&& wire::be128(out, 24) == wire::be128(template, 8)
            &&& wire::be16(out, 40) == server.port
            &&& wire::be16(out, 42) == wire::be16(template, udp_header_at_v6(template))
            &&& has_extensions(template) ==> out[6] == 17
            &&& checksum::pseudo_checksum(
                out.subrange(8, 24),
                out.subrange(24, 40),
                17,
                out.subrange(40, out.len() as int),
                checksum::limit_v6(),
            ) == 0
            &&& forall|k: int|
                0 <= k < 8 && k != 4 && k != 5 && !(k == 6 && has_extensions(template))
                    ==> #[trigger] out[k] == template[k]
        }),
{
    let headers = plain_headers_v6(template);
    let before = turned_round_v6(headers, server, payload);
    lemma_turned_round_v6(headers, server, payload);
    wire::lemma_be128_same(template, headers, 8);
    let out = templated_v6(template, server, payload);
    checksum::law_rechecked_transport_valid(before, 40, 6, 17, 8, 16, checksum::limit_v6());
    assert(out.subrange(48, out.len() as int) =~= before.subrange(48, out.len() as int));
    assert(forall|k: int| 0 <= k < 46 ==> #[trigger] out[k] == before[k]);
    wire::lemma_be128_same(before, out, 24);
    wire::lemma_be128_same(before, out, 8);
}

proof fn lemma_turned_round_v6(template: Seq<u8>, server: SocketAddrV6, payload: Seq<u8>)
    requires
        template.len() >= 48,
        8 + payload.len() <= 65535,
    ensures
        ({
            let b = turned_round_v6(template, server, payload);
            &&& b.len() == 48 + payload.len()
            &&& b.subrange(48, b.len() as int) == payload
            &&& wire::be16(b, 4) == 8 + payload.len()
            &&& wire::be16(b, 44) == 8 + payload.len()
            &&& wire::be128(b, 8) == server.ip.bits
            &&& wire::be128(b, 24) == wire::be128(template, 8)
            &&& wire::be16(b, 40) == server.port
            &&& wire::be16(b, 42) == wire::be16(template, 40)
            &&& forall|k: int| 0 <= k < 8 && k != 4 && k != 5 ==> #[trigger] b[k] == template[k]
        }),
{
    reveal(turned_round_v6);
    let joined = template.subrange(0, 48) + payload;
    let sized = wire::put16(joined, 4, udp_len(payload));
    let client = wire::be128(template, 8);
    let first = wire::put128(sized, 24, client);
    let addressed = wire::put128(first, 8, server.ip.bits as int);
    wire::lemma_put128(sized, 24, client);
    wire::lemma_put128(first, 8, server.ip.bits as int);
    let b = turned_round_v6(template, server, payload);
    lemma_ports(addressed, 40, wire::be16(template, 40), server.port as int, udp_len(payload));
    assert(forall|k: int| 0 <= k < 40 ==> #[trigger] b[k] == addressed[k]);
    wire::lemma_be128_same(first, addressed, 24);
    wire::lemma_be128_same(addressed, b, 24);
    wire::lemma_be128_same(addressed, b, 8);
    assert(b.subrange(48, b.len() as int) =~= payload);
    assert(wire::be16(sized, 4) == 8 + payload.len());
    assert(b[4] == sized[4] && b[5] == sized[5]);
}

proof fn lemma_ports(s: Seq<u8>, at: int, client: int, server: int, length: int)
    requires
        0 <= at,
        s.len() >= at + 8,
        0 <= client < 65536,
        0 <= server < 65536,
        0 <= length < 65536,
    ensures
        ({
            let b = wire::put16(
                wire::put16(wire::put16(s, at + 2, client), at, server),
                at + 4,
                length,
            );
            &&& b.len() == s.len()
            &&& wire::be16(b, at) == server
            &&& wire::be16(b, at + 2) == client
            &&& wire::be16(b, at + 4) == length
            &&& forall|k: int|
                0 <= k < s.len() && !(at <= k < at + 6) ==> #[trigger] b[k] == s[k]
        }),
{
}

/// A datagram that was packed is read back: the same ports and payload.
pub proof fn law_udp_read_back(src_port: int, dst_port: int, payload: Seq<u8>, sum: int)
    requires
        0 <= src_port < 65536,
        0 <= dst_port < 65536,
        0 <= sum < 65536,
        8 + payload.len() <= 65535,
    ensures
        ({
            let udp = wire::put16(udp_blank(src_port, dst_port, payload), 6, sum);
            &&& wire::be16(udp, 0) == src_port
            &&& wire::be16(udp, 2) == dst_port
            &&& udp.subrange(8, 8 + udp_payload_len(udp)) == payload
        }),
{
    let udp = wire::put16(udp_blank(src_port, dst_port, payload), 6, sum);
    assert(wire::be16(udp, 4) == 8 + payload.len());
    assert(udp.subrange(8, 8 + udp_payload_len(udp)) =~= payload);
}

/// The checksums of a reply made from scratch are valid.
pub proof fn law_udp_packet_v4_valid(src: SocketAddrV4, dst: SocketAddrV4, payload: Seq<u8>)
    requires
        28 + payload.len() <= 65535,
    ensures
        ({
            let out = udp_packet_v4(src, dst, payload);
            &&& out.len() == 28 + payload.len()
            &&& wire::be16(out, 2) == out.len()
            &&& checksum::internet_sum(out.subrange(0, 20)) == 0
            &&& checksum::pseudo_checksum(
                out.subrange(12, 16),
                out.subrange(16, 20),
                17,
                out.subrange(20, out.len() as int),
                checksum::limit_v4(),
            ) == 0
        }),
{
    let total = 20 + udp_len(payload);
    let header = seq![
        0x45u8,
        0,
        (total / 256) as u8,
        (total % 256) as u8,
        0,
        0,
        0x40,
        0,
        64,
        17,
        0,
        0,
    ] + octets_v4(src.ip) + octets_v4(dst.ip);
    let udp = udp_blank(src.port as int, dst.port as int, payload);
    let a = octets_v4(src.ip);
    let b = octets_v4(dst.ip);
    let out = udp_packet_v4(src, dst, payload);
    let v = checksum::pseudo_checksum(a, b, 17, udp, checksum::limit_v4());
    checksum::lemma_word_sum_nonneg(header);
    checksum::law_complement_makes_sum_valid(checksum::word_sum(header));
    checksum::lemma_word_sum_put16(header, 10, checksum::internet_sum(header));
    assert(wire::be16(header, 10) == 0);
    assert(out.subrange(0, 20) =~= wire::put16(header, 10, checksum::internet_sum(header)));
    checksum::lemma_word_sum_nonneg(a);
    checksum::lemma_word_sum_nonneg(b);
    checksum::lemma_word_sum_nonneg(udp);
    assert(out.subrange(12, 16) =~= a);
    assert(out.subrange(16, 20) =~= b);
    assert(out.subrange(20, out.len() as int) =~= wire::put16(udp, 6, v));
    assert(wire::be16(udp, 6) == 0);
    checksum::law_complement_makes_sum_valid(
        checksum::word_sum(a) + checksum::word_sum(b) + 17 + udp.len() as int
            % checksum::limit_v4() + checksum::word_sum(udp),
    );
    checksum::lemma_word_sum_put16(udp, 6, v);
}

/// The checksum of a reply made from scratch is valid.
pub proof fn law_udp_packet_v6_valid(src: SocketAddrV6, dst: SocketAddrV6, payload: Seq<u8>)
    requires
        8 + payload.len() <= 65535,
    ensures
        ({
            let out = udp_packet_v6(src, dst, payload);
            &&& out.len() == 48 + payload.len()
            &&& wire::be16(out, 4) == 8 + payload.len()
            &&& checksum::pseudo_checksum(
                out.subrange(8, 24),
                out.subrange(24, 40),
                17,
                out.subrange(40, out.len() as int),
                checksum::limit_v6(),
            ) == 0
        }),
{
    let udp = udp_blank(src.port as int, dst.port as int, payload);
    let a = octets_v6(src.ip);
    let b = octets_v6(dst.ip);
    wire::lemma_put128(wire::zeros(16), 0, src.ip.bits as int);
    wire::lemma_put128(wire::zeros(16), 0, dst.ip.bits as int);
    let out = udp_packet_v6(src, dst, payload);
    let v = checksum::pseudo_checksum(a, b, 17, udp, checksum::limit_v6());
    checksum::lemma_word_sum_nonneg(a);
    checksum::lemma_word_sum_nonneg(b);
    checksum::lemma_word_sum_nonneg(udp);
    assert(out.subrange(8, 24) =~= a);
    assert(out.subrange(24, 40) =~= b);
    assert(out.subrange(40, out.len() as int) =~= wire::put16(udp, 6, v));
    assert(wire::be16(udp, 6) == 0);
    checksum::law_complement_makes_sum_valid(
        checksum::word_sum(a) + checksum::word_sum(b) + 17 + udp.len() as int
            % checksum::limit_v6() + checksum::word_sum(udp),
    );
    checksum::lemma_word_sum_put16(udp, 6, v);
}

} // verus!
