//! ICMP echo: requests that are answered on the spot, requests that are sent
//! on, and the replies that come back for them.
use vstd::prelude::*;

use crate::addr::{IpAddr, Ipv4Addr, Ipv6Addr};
use crate::checksum;
use crate::checksum::{
    internet_checksum, pseudo_checksum_v6, recompute_icmpv6_checksum, recompute_ipv4_checksum,
};
use crate::mtu;
use crate::octets;
use crate::tcp;
use crate::udp;
use crate::wire;
use crate::wire::{
    get_be128, get_be16, get_be32, set_be128, set_be16, set_be32, sub_vec, zero_vec,
};

verus! {

pub const ICMPV4_ECHO_REQUEST: u8 = 8;

pub const ICMPV4_ECHO_REPLY: u8 = 0;

pub const ICMPV6_ECHO_REQUEST: u8 = 128;

pub const ICMPV6_ECHO_REPLY: u8 = 129;

/// Who asks whom, and the identifier that the request bears.
#[derive(Clone, Copy, Debug, PartialEq, Eq, Hash, Structural)]
pub struct FlowKey {
    pub src: IpAddr,
    pub dst: IpAddr,
    pub id: u16,
}

/// An IPv4 packet is an echo request, its header and that of the message
/// whole.
pub open spec fn is_echo_request_v4(raw: Seq<u8>) -> bool {
    let ihl = checksum::header_len(raw);
    &&& raw.len() >= 28
    &&& ihl >= 20
    &&& raw.len() >= ihl + 8
    &&& raw[9] == 1
    &&& raw[ihl] == ICMPV4_ECHO_REQUEST
    &&& raw[ihl + 1] == 0
}

/// An IPv6 packet is an echo request right behind the fixed header.
pub open spec fn is_echo_request_v6(raw: Seq<u8>) -> bool {
    &&& raw.len() >= 48
    &&& raw[6] == 58
    &&& raw[40] == ICMPV6_ECHO_REQUEST
    &&& raw[41] == 0
}

/// The flow of an echo request and the message that is sent on for it.
pub open spec fn echo_request(raw: Seq<u8>) -> Option<(FlowKey, Seq<u8>)> {
    if raw.len() == 0 {
        None
    } else if raw[0] / 16 == 4 && is_echo_request_v4(raw) {
        let ihl = checksum::header_len(raw);
        Some(
            (
                FlowKey {
                    src: IpAddr::V4(tcp::src_v4(raw)),
                    dst: IpAddr::V4(tcp::dst_v4(raw)),
                    id: wire::be16(raw, ihl + 4) as u16,
                },
                raw.subrange(ihl, raw.len() as int),
            ),
        )
    } else if raw[0] / 16 == 6 && is_echo_request_v6(raw) {
        Some(
            (
                FlowKey {
                    src: IpAddr::V6(tcp::src_v6(raw)),
                    dst: IpAddr::V6(tcp::dst_v6(raw)),
                    id: wire::be16(raw, 44) as u16,
                },
                raw.subrange(40, raw.len() as int),
            ),
        )
    } else {
        None
    }
}

/// What an echo request holds, by its view.
pub open spec fn request_view(r: Option<(FlowKey, bytes::Bytes)>) -> Option<(FlowKey, Seq<u8>)> {
    match r {
        Some((key, data)) => Some((key, octets::content(data))),
        None => None,
    }
}

fn handle_v4(raw: &[u8]) -> (r: Option<(FlowKey, bytes::Bytes)>)
    requires
        raw.len() > 0,
        raw@[0] / 16 == 4,
    ensures
        request_view(r) == echo_request(raw@),
{
    if raw.len() < 28 {
        return None;
    }
    let ihl: usize = (raw[0] % 16) as usize * 4;
    if raw.len() < ihl + 8 || ihl < 20 {
        return None;
    }
    if raw[9] != 1 || raw[ihl] != ICMPV4_ECHO_REQUEST || raw[ihl + 1] != 0 {
        return None;
    }
    let key = FlowKey {
        src: IpAddr::V4(Ipv4Addr { bits: get_be32(raw, 12) }),
        dst: IpAddr::V4(Ipv4Addr { bits: get_be32(raw, 16) }),
        id: get_be16(raw, ihl + 4),
    };
    Some((key, octets::bytes_copy(&raw[ihl..raw.len()])))
}

fn handle_v6(raw: &[u8]) -> (r: Option<(FlowKey, bytes::Bytes)>)
    requires
        raw.len() > 0,
        raw@[0] / 16 == 6,
    ensures
        request_view(r) == echo_request(raw@),
{
    if raw.len() < 48 {
        return None;
    }
    if raw[6] != 58 || raw[40] != ICMPV6_ECHO_REQUEST || raw[41] != 0 {
        return None;
    }
    let key = FlowKey {
        src: IpAddr::V6(Ipv6Addr { bits: get_be128(raw, 8) }),
        dst: IpAddr::V6(Ipv6Addr { bits: get_be128(raw, 24) }),
        id: get_be16(raw, 44),
    };
    Some((key, octets::bytes_copy(&raw[40..raw.len()])))
}

/// The flow and the message of an echo request that is to be sent on, or
/// `None` for any other packet.
pub fn handle_packet(raw: &[u8]) -> (r: Option<(FlowKey, bytes::Bytes)>)
    ensures
        request_view(r) == echo_request(raw@),
{
    if raw.len() == 0 {
        return None;
    }
    if raw[0] / 16 == 4 {
        handle_v4(raw)
    } else if raw[0] / 16 == 6 {
        handle_v6(raw)
    } else {
        None
    }
}

/// The ICMP message behind the IP header that a raw socket delivers with it:
/// the IPv4 header with its options, or the fixed IPv6 header.
pub open spec fn behind_ip_header(data: Seq<u8>) -> Option<Seq<u8>> {
    if data.len() == 0 {
        None
    } else if data[0] / 16 == 4 && data.len() >= 20 && checksum::header_len(data) >= 20 && data.len()
        >= checksum::header_len(data) + 8 {
        Some(data.subrange(checksum::header_len(data), data.len() as int))
    } else if data[0] / 16 == 6 && data.len() >= 48 {
        Some(data.subrange(40, data.len() as int))
    } else {
        None
    }
}

pub open spec fn slice_view(r: Option<&[u8]>) -> Option<Seq<u8>> {
    match r {
        Some(s) => Some(s@),
        None => None,
    }
}

/// Takes the IP header off what a raw socket delivered.
pub fn strip_raw_ip_header(data: &[u8]) -> (r: Option<&[u8]>)
    ensures
        slice_view(r) == behind_ip_header(data@),
{
    if data.len() == 0 {
        return None;
    }
    if data[0] / 16 == 4 {
        if data.len() < 20 {
            return None;
        }
        let ihl: usize = (data[0] % 16) as usize * 4;
        if ihl < 20 || data.len() < ihl + 8 {
            return None;
        }
        Some(&data[ihl..data.len()])
    } else if data[0] / 16 == 6 {
        if data.len() < 48 {
            return None;
        }
        Some(&data[40..data.len()])
    } else {
        None
    }
}

/// The sixteen bytes of an IPv6 address, zeros where there is none.
pub open spec fn octets_or_zero(ip: Option<IpAddr>) -> Seq<u8> {
    match ip {
        Some(IpAddr::V6(a)) => udp::octets_v6(a),
        _ => wire::zeros(16),
    }
}

/// The message as it is handed to a socket. The kernel fills in the checksum
/// for a ping socket; for a raw socket it is filled in here, for IPv6 with the
/// pseudo header.
pub open spec fn outgoing(
    payload: Seq<u8>,
    is_v6: bool,
    is_raw: bool,
    local_src: Option<IpAddr>,
    dst: IpAddr,
) -> Seq<u8> {
    if payload.len() < 8 {
        payload
    } else {
        let kind: u8 = if is_v6 {
            ICMPV6_ECHO_REQUEST
        } else {
            ICMPV4_ECHO_REQUEST
        };
        let cleared = wire::put16(payload.update(0, kind).update(1, 0), 2, 0);
        if !is_raw {
            cleared
        } else if is_v6 {
            wire::put16(
                cleared,
                2,
                checksum::pseudo_checksum(
                    octets_or_zero(local_src),
                    octets_or_zero(Some(dst)),
                    58,
                    cleared,
                    checksum::limit_v6(),
                ),
            )
        } else {
            wire::put16(cleared, 2, checksum::internet_sum(cleared))
        }
    }
}

fn write_octets(ip: Option<IpAddr>) -> (v: Vec<u8>)
    ensures
        v@ == octets_or_zero(ip),
{
    let mut v: Vec<u8> = zero_vec(16);
    if let Some(IpAddr::V6(a)) = ip {
        set_be128(v.as_mut_slice(), 0, a.bits);
    }
    v
}

/// Makes the message ready to be sent on.
pub fn prepare_send_payload(
    payload: &[u8],
    is_v6: bool,
    is_raw: bool,
    local_src: Option<IpAddr>,
    dst: IpAddr,
) -> (out: Vec<u8>)
    ensures
        out@ == outgoing(payload@, is_v6, is_raw, local_src, dst),
{
    let mut out: Vec<u8> = sub_vec(payload, 0, payload.len());
    assert(out@ =~= payload@);
    if out.len() < 8 {
        return out;
    }
    out.set(
        0,
        if is_v6 {
            ICMPV6_ECHO_REQUEST
        } else {
            ICMPV4_ECHO_REQUEST
        },
    );
    out.set(1, 0);
    set_be16(out.as_mut_slice(), 2, 0);
    if !is_raw {
        return out;
    }
    let sum: u16 = if is_v6 {
        let a: Vec<u8> = write_octets(local_src);
        let b: Vec<u8> = write_octets(Some(dst));
        pseudo_checksum_v6(a.as_slice(), b.as_slice(), 58, out.as_slice())
    } else {
        internet_checksum(out.as_slice())
    };
    set_be16(out.as_mut_slice(), 2, sum);
    out
}

/// The length of the IPv4 header of a packet.
fn header_bytes(raw: &[u8]) -> (ihl: usize)
    requires
        raw.len() > 0,
    ensures
        ihl == checksum::header_len(raw@),
{
    (raw[0] % 16) as usize * 4
}

/// The lower sixteen bits of a length.
fn low_half(n: usize) -> (v: u16)
    ensures
        v == n % 65536,
{
    (n % 65536) as u16
}

/// The ICMP message with a reply's type and its checksum filled in.
pub open spec fn reply_message_v4(message: Seq<u8>) -> Seq<u8> {
    let cleared = wire::put16(message.update(0, ICMPV4_ECHO_REPLY).update(1, 0), 2, 0);
    wire::put16(cleared, 2, checksum::internet_sum(cleared))
}

/// The reply as it is written to the tunnel: the header of the request with
/// the addresses the other way round, and the message that came.
pub open spec fn echo_reply_v4(
    template: Seq<u8>,
    src: Ipv4Addr,
    dst: Ipv4Addr,
    message: Seq<u8>,
) -> Seq<u8> {
    let ihl = checksum::header_len(template);
    let header = wire::put16(
        wire::put32(
            wire::put32(template.subrange(0, ihl), 12, dst.bits as int),
            16,
            src.bits as int,
        ),
        2,
        (ihl + message.len()) % 65536,
    );
    checksum::ipv4_rechecked(header + reply_message_v4(message))
}

pub open spec fn echo_reply_v6(
    template: Seq<u8>,
    src: Ipv6Addr,
    dst: Ipv6Addr,
    message: Seq<u8>,
) -> Seq<u8> {
    let header = wire::put16(
        wire::put128(
            wire::put128(template.subrange(0, 40), 8, dst.bits as int),
            24,
            src.bits as int,
        ),
        4,
        message.len() as int % 65536,
    );
    checksum::message6_rechecked(header + message.update(0, ICMPV6_ECHO_REPLY).update(1, 0))
}

/// The reply for a flow, where the header of its request and the message that
/// came allow one.
pub open spec fn echo_reply(
    template: Seq<u8>,
    key: FlowKey,
    message: Seq<u8>,
    is_v6: bool,
) -> Option<Seq<u8>> {
    let ihl = checksum::header_len(template);
    match (key.src, key.dst) {
        (IpAddr::V4(src), IpAddr::V4(dst)) => if !is_v6 && template.len() >= 20 && message.len() > 0
            && ihl >= 20 && template.len() >= ihl {
            Some(echo_reply_v4(template, src, dst, message))
        } else {
            None
        },
        (IpAddr::V6(src), IpAddr::V6(dst)) => if is_v6 && template.len() >= 40 && message.len()
            > 0 {
            Some(echo_reply_v6(template, src, dst, message))
        } else {
            None
        },
        _ => None,
    }
}

fn build_echo_reply_v4(template: &[u8], key: FlowKey, reply_payload: &[u8]) -> (r: Option<Vec<u8>>)
    requires
        reply_payload.len() == 0 || 4 <= reply_payload.len() <= usize::MAX - 64,
    ensures
        mtu::bytes_view(r) == echo_reply(template@, key, reply_payload@, false),
{
    if template.len() < 20 || reply_payload.len() == 0 {
        return None;
    }
    let ihl: usize = (template[0] % 16) as usize * 4;
    if ihl < 20 || template.len() < ihl {
        return None;
    }
    match (key.src, key.dst) {
        (IpAddr::V4(src), IpAddr::V4(dst)) => {
            let total: usize = ihl + reply_payload.len();
            let mut message: Vec<u8> = sub_vec(reply_payload, 0, reply_payload.len());
            assert(message@ =~= reply_payload@);
            message.set(0, ICMPV4_ECHO_REPLY);
            message.set(1, 0);
            set_be16(message.as_mut_slice(), 2, 0);
            let sum: u16 = internet_checksum(message.as_slice());
            set_be16(message.as_mut_slice(), 2, sum);
            let mut pkt: Vec<u8> = sub_vec(template, 0, ihl);
            set_be32(pkt.as_mut_slice(), 12, dst.bits);
            set_be32(pkt.as_mut_slice(), 16, src.bits);
            set_be16(pkt.as_mut_slice(), 2, (total % 65536) as u16);
            pkt.append(&mut message);
            recompute_ipv4_checksum(pkt.as_mut_slice());
            Some(pkt)
        },
        _ => None,
    }
}

fn build_echo_reply_v6(template: &[u8], key: FlowKey, reply_payload: &[u8]) -> (r: Option<Vec<u8>>)
    requires
        reply_payload.len() != 1,
    ensures
        mtu::bytes_view(r) == echo_reply(template@, key, reply_payload@, true),
{
    if template.len() < 40 || reply_payload.len() == 0 {
        return None;
    }
    match (key.src, key.dst) {
        (IpAddr::V6(src), IpAddr::V6(dst)) => {
            let mut message: Vec<u8> = sub_vec(reply_payload, 0, reply_payload.len());
            assert(message@ =~= reply_payload@);
            message.set(0, ICMPV6_ECHO_REPLY);
            message.set(1, 0);
            let mut pkt: Vec<u8> = sub_vec(template, 0, 40);
            set_be128(pkt.as_mut_slice(), 8, dst.bits);
            set_be128(pkt.as_mut_slice(), 24, src.bits);
            set_be16(pkt.as_mut_slice(), 4, low_half(reply_payload.len()));
            pkt.append(&mut message);
            recompute_icmpv6_checksum(pkt.as_mut_slice());
            Some(pkt)
        },
        _ => None,
    }
}

/// The packet that carries the reply of a flow back to whoever asked.
pub fn build_echo_reply_packet(
    template: &[u8],
    key: FlowKey,
    reply_payload: &[u8],
    is_v6: bool,
) -> (r: Option<Vec<u8>>)
    requires
        reply_payload.len() == 0 || (if is_v6 {
            2int
        } else {
            4int
        }) <= reply_payload.len() <= usize::MAX - 64,
    ensures
        mtu::bytes_view(r) == echo_reply(template@, key, reply_payload@, is_v6),
{
    if is_v6 {
        build_echo_reply_v6(template, key, reply_payload)
    } else {
        build_echo_reply_v4(template, key, reply_payload)
    }
}

/// What an upstream socket delivered, as the packet to write: a raw socket
/// delivers the IP header too. What is too short for a reply is passed over.
pub open spec fn upstream_reply(
    template: Seq<u8>,
    key: FlowKey,
    data: Seq<u8>,
    is_raw: bool,
    is_v6: bool,
) -> Option<Seq<u8>> {
    if is_raw {
        match behind_ip_header(data) {
            Some(rest) => echo_reply(template, key, rest, is_v6),
            None => None,
        }
    } else {
        echo_reply(template, key, data, is_v6)
    }
}

/// Turns what an upstream socket delivered into the packet to write.
pub fn reply_from_upstream(
    template: &[u8],
    key: FlowKey,
    data: &[u8],
    is_raw: bool,
    is_v6: bool,
) -> (r: Option<Vec<u8>>)
    requires
        data.len() <= usize::MAX - 64,
        is_raw || data.len() == 0 || data.len() >= (if is_v6 {
            2int
        } else {
            4int
        }),
    ensures
        mtu::bytes_view(r) == upstream_reply(template@, key, data@, is_raw, is_v6),
{
    if is_raw {
        match strip_raw_ip_header(data) {
            Some(rest) => build_echo_reply_packet(template, key, rest, is_v6),
            None => None,
        }
    } else {
        build_echo_reply_packet(template, key, data, is_v6)
    }
}

/// The answer to an echo request, given on the spot: the request with its
/// addresses the other way round and a reply's type.
pub open spec fn echoed_v4(raw: Seq<u8>) -> Option<Seq<u8>> {
    let ihl = checksum::header_len(raw);
    if raw.len() - ihl < 8 || raw[ihl] != 8 || raw[ihl + 1] != 0 {
        None
    } else {
        let turned = wire::put32(wire::put32(raw, 12, wire::be32(raw, 16)), 16, wire::be32(raw, 12));
        let cleared = wire::put16(turned.update(ihl, 0), ihl + 2, 0);
        Some(
            checksum::ipv4_rechecked(
                wire::put16(
                    cleared,
                    ihl + 2,
                    checksum::internet_sum(cleared.subrange(ihl, raw.len() as int)),
                ),
            ),
        )
    }
}

pub open spec fn echoed_v6(raw: Seq<u8>) -> Option<Seq<u8>> {
    if raw.len() < 48 || raw[40] != 128 || raw[41] != 0 {
        None
    } else {
        let turned = wire::put128(
            wire::put128(raw, 8, wire::be128(raw, 24)),
            24,
            wire::be128(raw, 8),
        );
        Some(checksum::message6_rechecked(turned.update(40, 129)))
    }
}

/// Answers an IPv4 echo request.
pub fn handle_icmpv4(raw: &[u8]) -> (r: Option<Vec<u8>>)
    requires
        raw.len() >= 20,
        20 <= checksum::header_len(raw@) <= raw.len(),
    ensures
        mtu::bytes_view(r) == echoed_v4(raw@),
{
    let ihl: usize = header_bytes(raw);
    if raw.len() - ihl < 8 {
        return None;
    }
    if raw[ihl] != ICMPV4_ECHO_REQUEST || raw[ihl + 1] != 0 {
        return None;
    }
    let len: usize = raw.len();
    let mut pkt: Vec<u8> = sub_vec(raw, 0, len);
    assert(pkt@ =~= raw@);
    set_be32(pkt.as_mut_slice(), 12, get_be32(raw, 16));
    set_be32(pkt.as_mut_slice(), 16, get_be32(raw, 12));
    pkt.set(ihl, ICMPV4_ECHO_REPLY);
    set_be16(pkt.as_mut_slice(), ihl + 2, 0);
    let sum: u16 = internet_checksum(&pkt.as_slice()[ihl..len]);
    set_be16(pkt.as_mut_slice(), ihl + 2, sum);
    recompute_ipv4_checksum(pkt.as_mut_slice());
    Some(pkt)
}

/// Answers an IPv6 echo request right behind the fixed header.
pub fn handle_icmpv6(raw: &[u8]) -> (r: Option<Vec<u8>>)
    ensures
        mtu::bytes_view(r) == echoed_v6(raw@),
{
    if raw.len() < 48 {
        return None;
    }
    if raw[40] != ICMPV6_ECHO_REQUEST || raw[41] != 0 {
        return None;
    }
    let mut pkt: Vec<u8> = sub_vec(raw, 0, raw.len());
    assert(pkt@ =~= raw@);
    set_be128(pkt.as_mut_slice(), 8, get_be128(raw, 24));
    set_be128(pkt.as_mut_slice(), 24, get_be128(raw, 8));
    pkt.set(40, ICMPV6_ECHO_REPLY);
    recompute_icmpv6_checksum(pkt.as_mut_slice());
    Some(pkt)
}

/// The answer to an IPv4 echo request goes back to whoever asked, as from whom
/// was asked; its checksums are valid, and identifier, sequence number and
/// data are those of the request.
pub proof fn law_echoed_v4(raw: Seq<u8>)
    requires
        20 <= checksum::header_len(raw) <= raw.len(),
        echoed_v4(raw) is Some,
    ensures
        ({
            let ihl = checksum::header_len(raw);
            let out = echoed_v4(raw)->0;
            &&& out.len() == raw.len()
            &&& wire::be32(out, 12) == wire::be32(raw, 16)
            &&& wire::be32(out, 16) == wire::be32(raw, 12)
            &&& out[ihl] == 0
            &&& checksum::internet_sum(out.subrange(0, ihl)) == 0
            &&& checksum::internet_sum(out.subrange(ihl, out.len() as int)) == 0
            &&& forall|k: int| ihl + 4 <= k < raw.len() ==> #[trigger] out[k] == raw[k]
        }),
{
    let ihl = checksum::header_len(raw);
    let a = wire::be32(raw, 12);
    let b = wire::be32(raw, 16);
    let first = wire::put32(raw, 12, b);
    let turned = wire::put32(first, 16, a);
    wire::lemma_put32(raw, 12, b);
    wire::lemma_put32(first, 16, a);
    let cleared = wire::put16(turned.update(ihl, 0), ihl + 2, 0);
    let message = cleared.subrange(ihl, raw.len() as int);
    let v = checksum::internet_sum(message);
    let summed = wire::put16(cleared, ihl + 2, v);
    let out = echoed_v4(raw)->0;
    checksum::lemma_word_sum_nonneg(message);
    checksum::law_complement_makes_sum_valid(checksum::word_sum(message));
    checksum::lemma_word_sum_put16(message, 2, v);
    assert(wire::be16(message, 2) == 0);
    assert(summed.subrange(ihl, raw.len() as int) =~= wire::put16(message, 2, v));
    assert(summed[0] == raw[0]);
    assert(checksum::header_len(summed) == ihl);
    checksum::law_rechecked_ipv4_header_valid(summed);
    assert(out.subrange(ihl, out.len() as int) =~= summed.subrange(ihl, raw.len() as int));
    assert(forall|k: int| 12 <= k < 20 ==> #[trigger] out[k] == turned[k]);
    assert(wire::be32(out, 12) == wire::be32(turned, 12));
    assert(wire::be32(out, 16) == wire::be32(turned, 16));
    assert(wire::be32(turned, 12) == wire::be32(first, 12));
}

/// A reply from upstream is written with valid checksums, from whom was asked
/// to whoever asked.
pub proof fn law_echo_reply_v4(
    template: Seq<u8>,
    src: Ipv4Addr,
    dst: Ipv4Addr,
    message: Seq<u8>,
)
    requires
        20 <= checksum::header_len(template) <= template.len(),
        message.len() >= 4,
    ensures
        ({
            let ihl = checksum::header_len(template);
            let out = echo_reply_v4(template, src, dst, message);
            &&& out.len() == ihl + message.len()
            &&& tcp::src_v4(out) == dst
            &&& tcp::dst_v4(out) == src
            &&& out[ihl] == 0
            &&& checksum::internet_sum(out.subrange(0, ihl)) == 0
            &&& checksum::internet_sum(out.subrange(ihl, out.len() as int)) == 0
            &&& forall|k: int| 4 <= k < message.len() ==> #[trigger] out[ihl + k] == message[k]
        }),
{
    let ihl = checksum::header_len(template);
    let h0 = template.subrange(0, ihl);
    let h1 = wire::put32(h0, 12, dst.bits as int);
    let h2 = wire::put32(h1, 16, src.bits as int);
    let h3 = wire::put16(h2, 2, (ihl + message.len()) % 65536);
    wire::lemma_put32(h0, 12, dst.bits as int);
    wire::lemma_put32(h1, 16, src.bits as int);
    wire::lemma_put16(h2, 2, (ihl + message.len()) % 65536);
    let cleared = wire::put16(message.update(0, 0).update(1, 0), 2, 0);
    let v = checksum::internet_sum(cleared);
    let m = reply_message_v4(message);
    checksum::lemma_word_sum_nonneg(cleared);
    checksum::law_complement_makes_sum_valid(checksum::word_sum(cleared));
    checksum::lemma_word_sum_put16(cleared, 2, v);
    assert(wire::be16(cleared, 2) == 0);
    let joined = h3 + m;
    assert(joined[0] == template[0]);
    assert(checksum::header_len(joined) == ihl);
    checksum::law_rechecked_ipv4_header_valid(joined);
    let out = echo_reply_v4(template, src, dst, message);
    assert(out.subrange(ihl, out.len() as int) =~= m);
    assert(forall|k: int| 12 <= k < 20 ==> #[trigger] out[k] == h2[k]);
    assert(wire::be32(out, 12) == wire::be32(h2, 12));
    assert(wire::be32(h2, 12) == wire::be32(h1, 12));
    assert(wire::be32(out, 16) == wire::be32(h2, 16));
    assert forall|k: int| 4 <= k < message.len() implies #[trigger] out[ihl + k] == message[k] by {
        assert(out[ihl + k] == m[k]);
    }
}

/// The answer to an IPv6 echo request goes back to whoever asked, as from whom
/// was asked; its checksum is valid, and identifier, sequence number and data
/// are those of the request.
pub proof fn law_echoed_v6(raw: Seq<u8>)
    requires
        echoed_v6(raw) is Some,
    ensures
        ({
            let out = echoed_v6(raw)->0;
            &&& out.len() == raw.len()
            &&& wire::be128(out, 8) == wire::be128(raw, 24)
            &&& wire::be128(out, 24) == wire::be128(raw, 8)
            &&& out[40] == 129
            &&& checksum::pseudo_checksum(
                out.subrange(8, 24),
                out.subrange(24, 40),
                58,
                out.subrange(40, out.len() as int),
                checksum::limit_v6(),
            ) == 0
            &&& forall|k: int| 44 <= k < raw.len() ==> #[trigger] out[k] == raw[k]
        }),
{
    let a = wire::be128(raw, 8);
    let b = wire::be128(raw, 24);
    let first = wire::put128(raw, 8, b);
    let turned = wire::put128(first, 24, a);
    wire::lemma_put128(raw, 8, b);
    wire::lemma_put128(first, 24, a);
    let typed = turned.update(40, 129);
    checksum::law_rechecked_transport_valid(typed, 40, 2, 58, 8, 16, checksum::limit_v6());
    let out = echoed_v6(raw)->0;
    wire::lemma_be128_same(first, turned, 8);
    wire::lemma_be128_same(turned, out, 8);
    wire::lemma_be128_same(turned, out, 24);
}

/// A reply from upstream is written with a valid checksum, from whom was asked
/// to whoever asked.
pub proof fn law_echo_reply_v6(
    template: Seq<u8>,
    src: Ipv6Addr,
    dst: Ipv6Addr,
    message: Seq<u8>,
)
    requires
        template.len() >= 40,
        message.len() >= 8,
    ensures
        ({
            let out = echo_reply_v6(template, src, dst, message);
            &&& out.len() == 40 + message.len()
            &&& tcp::src_v6(out) == dst
            &&& tcp::dst_v6(out) == src
            &&& out[40] == 129
            &&& checksum::pseudo_checksum(
                out.subrange(8, 24),
                out.subrange(24, 40),
                58,
                out.subrange(40, out.len() as int),
                checksum::limit_v6(),
            ) == 0
            &&& forall|k: int| 4 <= k < message.len() ==> #[trigger] out[40 + k] == message[k]
        }),
{
    let h0 = template.subrange(0, 40);
    let h1 = wire::put128(h0, 8, dst.bits as int);
    let h2 = wire::put128(h1, 24, src.bits as int);
    let h3 = wire::put16(h2, 4, message.len() as int % 65536);
    wire::lemma_put128(h0, 8, dst.bits as int);
    wire::lemma_put128(h1, 24, src.bits as int);
    wire::lemma_put16(h2, 4, message.len() as int % 65536);
    let m = message.update(0, 129).update(1, 0);
    let joined = h3 + m;
    checksum::law_rechecked_transport_valid(joined, 40, 2, 58, 8, 16, checksum::limit_v6());
    let out = echo_reply_v6(template, src, dst, message);
    assert(forall|k: int| 8 <= k < 40 ==> #[trigger] out[k] == h2[k]);
    wire::lemma_be128_same(h2, out, 8);
    wire::lemma_be128_same(h2, out, 24);
    wire::lemma_be128_same(h1, h2, 8);
    assert forall|k: int| 4 <= k < message.len() implies #[trigger] out[40 + k] == message[k] by {
        assert(joined[40 + k] == m[k]);
    }
}

} // verus!
