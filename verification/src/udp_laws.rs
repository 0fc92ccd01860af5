//! UDP told by bytes: what is read from a datagram, and what the packets that
//! carry replies hold.
use vstd::prelude::*;

use crate::addr::{Ipv4Addr, Ipv6Addr, SocketAddr, SocketAddrV4, SocketAddrV6};
use crate::checksum;
use crate::mtu;
use crate::mtu_laws;
use crate::octets;
use crate::plain;
use crate::udp;
use crate::wire;

verus! {

/// A datagram shorter than its header reads as nothing. Else the addresses are
/// handed through, and the payload is as much as the length field says, and as
/// is there.
pub proof fn law_payload_read(
    r: Option<(SocketAddr, SocketAddr, bytes::Bytes)>,
    b: Seq<u8>,
    src: SocketAddr,
    dst: SocketAddr,
)
    requires
        udp::udp_read(r, b, src, dst),
    ensures
        r is None <==> b.len() < 8,
        r matches Some((s, d, data)) ==> {
            let n = mtu_laws::nearest(plain::n16(b, 4) - 8, 0, b.len() - 8);
            &&& s == src
            &&& d == dst
            &&& octets::content(data).len() == n
            &&& forall|k: int| 0 <= k < n ==> #[trigger] octets::content(data)[k] == b[8 + k]
        },
{
    plain::lemma_n16(b, 4);
}

/// The IPv4 packet carries the payload in a datagram between these two, and
/// everything in it that a receiver tests is valid.
pub open spec fn carries_v4(
    pkt: Seq<u8>,
    src: SocketAddrV4,
    dst: SocketAddrV4,
    payload: Seq<u8>,
) -> bool {
    let head = plain::head_len(pkt);
    &&& pkt[0] / 16 == 4
    &&& head >= 20
    &&& pkt.len() == head + 8 + payload.len()
    &&& plain::n16(pkt, 2) == pkt.len()
    &&& plain::is_v4(pkt, 12, src.ip)
    &&& plain::is_v4(pkt, 16, dst.ip)
    &&& plain::balanced(plain::total(pkt.subrange(0, head)))
    &&& plain::n16(pkt, head) == src.port
    &&& plain::n16(pkt, head + 2) == dst.port
    &&& plain::n16(pkt, head + 4) == 8 + payload.len()
    &&& plain::sound_v4(pkt, head, 17)
    &&& pkt.subrange(head + 8, pkt.len() as int) == payload
}

/// The same for an IPv6 packet.
pub open spec fn carries_v6(
    pkt: Seq<u8>,
    src: SocketAddrV6,
    dst: SocketAddrV6,
    payload: Seq<u8>,
) -> bool {
    &&& pkt[0] / 16 == 6
    &&& pkt.len() == 48 + payload.len()
    &&& plain::n16(pkt, 4) == 8 + payload.len()
    &&& plain::is_v6(pkt, 8, src.ip)
    &&& plain::is_v6(pkt, 24, dst.ip)
    &&& plain::n16(pkt, 40) == src.port
    &&& plain::n16(pkt, 42) == dst.port
    &&& plain::n16(pkt, 44) == 8 + payload.len()
    &&& plain::sound_v6(pkt, 40, 17)
    &&& pkt.subrange(48, pkt.len() as int) == payload
}

proof fn lemma_octets_v4(ip: Ipv4Addr)
    ensures
        udp::octets_v4(ip).len() == 4,
        plain::n32(udp::octets_v4(ip), 0) == ip.bits,
{
    plain::lemma_n32(udp::octets_v4(ip), 0);
}

proof fn lemma_octets_v6(ip: Ipv6Addr)
    ensures
        udp::octets_v6(ip).len() == 16,
        plain::n128(udp::octets_v6(ip), 0) == ip.bits,
{
    wire::lemma_put128(wire::zeros(16), 0, ip.bits as int);
    plain::lemma_n128(udp::octets_v6(ip), 0);
}

proof fn lemma_n128_at(a: Seq<u8>, i: int, b: Seq<u8>)
    requires
        0 <= i,
        i + 16 <= a.len(),
        b.len() == 16,
        a.subrange(i, i + 16) == b,
    ensures
        plain::n128(a, i) == plain::n128(b, 0),
{
    assert forall|k: int| 0 <= k < 16 implies #[trigger] b[k] == a[i + k] by {}
    assert(b[0] == a[i] && b[1] == a[i + 1] && b[2] == a[i + 2] && b[3] == a[i + 3] && b[4] == a[i
        + 4] && b[5] == a[i + 5] && b[6] == a[i + 6] && b[7] == a[i + 7]);
    assert(b[8] == a[i + 8] && b[9] == a[i + 9] && b[10] == a[i + 10] && b[11] == a[i + 11] && b[12]
        == a[i + 12] && b[13] == a[i + 13] && b[14] == a[i + 14] && b[15] == a[i + 15]);
}

/// A reply without a model is a packet from the server to the client, with a
/// hop limit of 64 and, for IPv4, the mark that it may not be fragmented.
pub proof fn law_reply_built_v4(src: SocketAddrV4, dst: SocketAddrV4, payload: Seq<u8>)
    requires
        28 + payload.len() <= 65535,
    ensures
        udp::udp_reply(SocketAddr::V4(src), SocketAddr::V4(dst), payload) matches Some(pkt)
            && carries_v4(pkt, src, dst, payload) && plain::head_len(pkt) == 20 && pkt[1] == 0
            && plain::n16(pkt, 4) == 0 && plain::n16(pkt, 6) == 0x4000 && pkt[8] == 64 && pkt[9]
            == 17,
{
    let pkt = udp::udp_packet_v4(src, dst, payload);
    udp::law_udp_packet_v4_valid(src, dst, payload);
    lemma_octets_v4(src.ip);
    lemma_octets_v4(dst.ip);
    plain::lemma_header_sound(pkt.subrange(0, 20));
    plain::lemma_sound(
        pkt.subrange(12, 16),
        pkt.subrange(16, 20),
        17,
        pkt.subrange(20, pkt.len() as int),
        checksum::limit_v4(),
    );
    assert(pkt.subrange(28, pkt.len() as int) =~= payload);
    let a = udp::octets_v4(src.ip);
    let b = udp::octets_v4(dst.ip);
    assert(pkt[12] == a[0] && pkt[13] == a[1] && pkt[14] == a[2] && pkt[15] == a[3]);
    assert(pkt[16] == b[0] && pkt[17] == b[1] && pkt[18] == b[2] && pkt[19] == b[3]);
}

#[verifier::rlimit(40)]
pub proof fn law_reply_built_v6(src: SocketAddrV6, dst: SocketAddrV6, payload: Seq<u8>)
    requires
        8 + payload.len() <= 65535,
    ensures
        udp::udp_reply(SocketAddr::V6(src), SocketAddr::V6(dst), payload) matches Some(pkt)
            && carries_v6(pkt, src, dst, payload) && pkt[0] == 0x60 && pkt[1] == 0 && pkt[2] == 0
            && pkt[3] == 0 && pkt[6] == 17 && pkt[7] == 64,
{
    let pkt = udp::udp_packet_v6(src, dst, payload);
    udp::law_udp_packet_v6_valid(src, dst, payload);
    lemma_octets_v6(src.ip);
    lemma_octets_v6(dst.ip);
    plain::lemma_sound(
        pkt.subrange(8, 24),
        pkt.subrange(24, 40),
        17,
        pkt.subrange(40, pkt.len() as int),
        checksum::limit_v6(),
    );
    assert(pkt.subrange(48, pkt.len() as int) =~= payload);
    assert(pkt.subrange(8, 24) =~= udp::octets_v6(src.ip));
    assert(pkt.subrange(24, 40) =~= udp::octets_v6(dst.ip));
    lemma_n128_at(pkt, 8, udp::octets_v6(src.ip));
    lemma_n128_at(pkt, 24, udp::octets_v6(dst.ip));
}

/// The model is an IPv4 packet that holds a UDP header.
pub open spec fn models_v4(model: Seq<u8>) -> bool {
    &&& model.len() >= 28
    &&& model[0] / 16 == 4
    &&& 20 <= plain::head_len(model) <= model.len() - 8
}

/// The model is an IPv6 packet that holds a UDP header.
pub open spec fn models_v6(model: Seq<u8>) -> bool {
    model.len() >= 48 && model[0] / 16 == 6
}

/// Where the UDP header of an IPv6 model starts: behind the IPv6 header, or at
/// its end where other headers come between.
pub open spec fn model_udp_at(model: Seq<u8>) -> int {
    if model.len() > 48 && model[6] != 17 {
        model.len() - 8
    } else {
        40
    }
}

/// A reply on the model of a packet goes from the server back to where that
/// packet came from, and keeps the rest of its IPv4 header.
pub proof fn law_reply_modelled_v4(
    model: Seq<u8>,
    server: SocketAddrV4,
    client: SocketAddrV4,
    sender: SocketAddrV4,
    payload: Seq<u8>,
)
    requires
        models_v4(model),
        plain::is_v4(model, 12, sender.ip),
        plain::n16(model, plain::head_len(model)) == sender.port,
        plain::head_len(model) + 8 + payload.len() <= 65535,
    ensures
        udp::udp_reply_templated(
            model,
            SocketAddr::V4(server),
            SocketAddr::V4(client),
            payload,
        ) matches Some(pkt) && carries_v4(pkt, server, sender, payload) && (forall|k: int|
            0 <= k < plain::head_len(model) && !(2 <= k < 4) && !(10 <= k < 20) ==> #[trigger]
                pkt[k] == model[k]),
{
    let pkt = udp::templated_v4(model, server, payload);
    let head = plain::head_len(model);
    udp::law_templated_v4(model, server, payload);
    plain::lemma_header_sound(pkt.subrange(0, head));
    plain::lemma_sound(
        pkt.subrange(12, 16),
        pkt.subrange(16, 20),
        17,
        pkt.subrange(head, pkt.len() as int),
        checksum::limit_v4(),
    );
    plain::lemma_n32(pkt, 12);
    plain::lemma_n32(pkt, 16);
    plain::lemma_n32(model, 12);
    assert(pkt[0] == model[0]);
}

pub proof fn law_reply_modelled_v6(
    model: Seq<u8>,
    server: SocketAddrV6,
    client: SocketAddrV6,
    sender: SocketAddrV6,
    payload: Seq<u8>,
)
    requires
        models_v6(model),
        plain::is_v6(model, 8, sender.ip),
        plain::n16(model, model_udp_at(model)) == sender.port,
        8 + payload.len() <= 65535,
    ensures
        udp::udp_reply_templated(
            model,
            SocketAddr::V6(server),
            SocketAddr::V6(client),
            payload,
        ) matches Some(pkt) && carries_v6(pkt, server, sender, payload) && (forall|k: int|
            0 <= k < 8 && k != 4 && k != 5 && k != 6 ==> #[trigger] pkt[k] == model[k]) && pkt[6]
            == (if model.len() > 48 {
            17u8
        } else {
            model[6]
        }),
{
    let pkt = udp::templated_v6(model, server, payload);
    udp::law_templated_v6(model, server, payload);
    plain::lemma_sound(
        pkt.subrange(8, 24),
        pkt.subrange(24, 40),
        17,
        pkt.subrange(40, pkt.len() as int),
        checksum::limit_v6(),
    );
    plain::lemma_n128(pkt, 8);
    plain::lemma_n128(pkt, 24);
    plain::lemma_n128(model, 8);
    assert(pkt[0] == model[0]);
}

/// Without a model of the right kind a reply is built from nothing, and there
/// is none between addresses of two kinds.
pub proof fn law_reply_chosen(
    model: Seq<u8>,
    server: SocketAddr,
    client: SocketAddr,
    payload: Seq<u8>,
)
    ensures
        ({
            let r = udp::reply_for(model, server, client, payload);
            let modelled = udp::udp_reply_templated(model, server, client, payload);
            match (server, client) {
                (SocketAddr::V4(_), SocketAddr::V4(_)) => {
                    &&& modelled is Some <==> models_v4(model)
                    &&& r is Some
                    &&& r == (if models_v4(model) {
                        modelled
                    } else {
                        udp::udp_reply(server, client, payload)
                    })
                },
                (SocketAddr::V6(_), SocketAddr::V6(_)) => {
                    &&& modelled is Some <==> models_v6(model)
                    &&& r is Some
                    &&& r == (if models_v6(model) {
                        modelled
                    } else {
                        udp::udp_reply(server, client, payload)
                    })
                },
                _ => modelled is None && r is None,
            }
        }),
{
}

/// A reply of the client's own kind that the tunnel takes whole is written as
/// one packet from the server to the client.
pub proof fn law_reply_reaches_client_v4(
    model: Seq<u8>,
    server: SocketAddrV4,
    client: SocketAddrV4,
    payload: Seq<u8>,
    mtu: int,
)
    requires
        models_v4(model) ==> plain::is_v4(model, 12, client.ip) && plain::n16(
            model,
            plain::head_len(model),
        ) == client.port,
        (if models_v4(model) {
            plain::head_len(model)
        } else {
            20
        }) + 8 + payload.len() <= (if mtu == 0 {
            65535
        } else {
            mtu_laws::nearest(mtu, 0, 65535)
        }),
    ensures
        ({
            let list = udp::replies(
                model,
                SocketAddr::V4(server),
                SocketAddr::V4(client),
                payload,
                mtu,
            );
            list.len() == 1 && carries_v4(list[0], server, client, payload)
        }),
{
    law_reply_chosen(model, SocketAddr::V4(server), SocketAddr::V4(client), payload);
    if models_v4(model) {
        law_reply_modelled_v4(model, server, client, client, payload);
        let pkt = udp::templated_v4(model, server, payload);
        assert(pkt[0] == model[0]);
    } else {
        law_reply_built_v4(server, client, payload);
    }
}

pub proof fn law_reply_reaches_client_v6(
    model: Seq<u8>,
    server: SocketAddrV6,
    client: SocketAddrV6,
    payload: Seq<u8>,
    mtu: int,
)
    requires
        models_v6(model) ==> plain::is_v6(model, 8, client.ip) && plain::n16(
            model,
            model_udp_at(model),
        ) == client.port,
        8 + payload.len() <= 65535,
        mtu == 0 || 48 + payload.len() <= mtu,
    ensures
        ({
            let list = udp::replies(
                model,
                SocketAddr::V6(server),
                SocketAddr::V6(client),
                payload,
                mtu,
            );
            list.len() == 1 && carries_v6(list[0], server, client, payload)
        }),
{
    law_reply_chosen(model, SocketAddr::V6(server), SocketAddr::V6(client), payload);
    if models_v6(model) {
        law_reply_modelled_v6(model, server, client, client, payload);
    } else {
        law_reply_built_v6(server, client, payload);
    }
}

/// A reply that the tunnel does not take whole is written as any packet of its
/// kind: by the server's address.
pub proof fn law_reply_written(
    model: Seq<u8>,
    server: SocketAddr,
    client: SocketAddr,
    payload: Seq<u8>,
    mtu: int,
)
    ensures
        udp::replies(model, server, client, payload, mtu) == (match udp::reply_for(
            model,
            server,
            client,
            payload,
        ) {
            Some(pkt) => mtu::written_for(
                pkt,
                mtu,
                match server {
                    SocketAddr::V4(_) => false,
                    SocketAddr::V6(_) => true,
                },
            ),
            None => Seq::<Seq<u8>>::empty(),
        }),
{
}

/// A reply can be built where its length fits its headers.
pub proof fn law_replies_that_fit(
    model: Seq<u8>,
    server: SocketAddr,
    client: SocketAddr,
    payload: Seq<u8>,
)
    requires
        payload.len() <= 65507,
        server is V4 && client is V4 && models_v4(model) ==> plain::head_len(model) + 8
            + payload.len() <= 65535,
    ensures
        udp::reply_fits(model, server, client, payload),
{
    law_reply_chosen(model, server, client, payload);
}

} // verus!
