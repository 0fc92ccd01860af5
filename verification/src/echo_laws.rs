//! What becomes of echo messages, told by their bytes.
use vstd::prelude::*;

use crate::addr::{IpAddr, Ipv6Addr};
use crate::checksum;
use crate::echo;
use crate::echo::FlowKey;
use crate::echo_flow;
use crate::echo_flow::{FlowActionView, FlowEvent, FlowStage};
use crate::plain;
use crate::tcp;
use crate::udp;
use crate::wire;

verus! {

/// The sixteen bytes are the IPv6 address, or zeros where there is none.
pub open spec fn bytes_of(b: Seq<u8>, ip: Option<IpAddr>) -> bool {
    &&& b.len() == 16
    &&& match ip {
        Some(IpAddr::V6(a)) => plain::is_v6(b, 0, a),
        _ => forall|k: int| 0 <= k < 16 ==> #[trigger] b[k] == 0,
    }
}

/// A message that goes on is an echo request with the identifier, the sequence
/// number and the data of the message; a ping socket gets it with no checksum,
/// a raw socket with a valid one.
pub open spec fn goes_on(
    message: Seq<u8>,
    out: Seq<u8>,
    is_v6: bool,
    is_raw: bool,
    local: Option<IpAddr>,
    dst: IpAddr,
) -> bool {
    &&& out.len() == message.len()
    &&& out[0] == (if is_v6 {
        128int
    } else {
        8int
    })
    &&& out[1] == 0
    &&& forall|k: int| 4 <= k < message.len() ==> #[trigger] out[k] == message[k]
    &&& !is_raw ==> out[2] == 0 && out[3] == 0
    &&& is_raw && !is_v6 ==> plain::balanced(plain::total(out))
    &&& is_raw && is_v6 && message.len() < 0x1_0000_0000 ==> forall|a: Seq<u8>, b: Seq<u8>|
        #![trigger bytes_of(a, local), bytes_of(b, Some(dst))]
        bytes_of(a, local) && bytes_of(b, Some(dst)) ==> plain::sound(a, b, 58, out)
}

proof fn lemma_bytes_of(b: Seq<u8>, ip: Option<IpAddr>)
    requires
        bytes_of(b, ip),
    ensures
        b == echo::octets_or_zero(ip),
{
    match ip {
        Some(IpAddr::V6(a)) => {
            let o = udp::octets_v6(a);
            lemma_octets(a);
            plain::lemma_n128(b, 0);
            plain::lemma_n128(o, 0);
            lemma_bytes_unique(b, o);
        },
        _ => {
            assert(b =~= wire::zeros(16));
        },
    }
}

proof fn lemma_octets(a: Ipv6Addr)
    ensures
        udp::octets_v6(a).len() == 16,
        wire::be128(udp::octets_v6(a), 0) == a.bits,
{
    wire::lemma_put128(wire::zeros(16), 0, a.bits as int);
}

/// Sixteen bytes are told by the number they make.
proof fn lemma_bytes_unique(a: Seq<u8>, b: Seq<u8>)
    requires
        a.len() == 16,
        b.len() == 16,
        wire::be128(a, 0) == wire::be128(b, 0),
    ensures
        a == b,
{
    lemma_words_unique(a, b);
    lemma_word_bytes(a, b, 0, 0);
    lemma_word_bytes(a, b, 4, 4);
    lemma_word_bytes(a, b, 8, 8);
    lemma_word_bytes(a, b, 12, 12);
    assert(a =~= b);
}

/// Four bytes are told by the number they make.
proof fn lemma_word_bytes(a: Seq<u8>, b: Seq<u8>, i: int, j: int)
    requires
        wire::be32(a, i) == wire::be32(b, j),
    ensures
        a[i] == b[j],
        a[i + 1] == b[j + 1],
        a[i + 2] == b[j + 2],
        a[i + 3] == b[j + 3],
{
}

proof fn lemma_words_unique(a: Seq<u8>, b: Seq<u8>)
    requires
        wire::be128(a, 0) == wire::be128(b, 0),
    ensures
        wire::be32(a, 0) == wire::be32(b, 0),
        wire::be32(a, 4) == wire::be32(b, 4),
        wire::be32(a, 8) == wire::be32(b, 8),
        wire::be32(a, 12) == wire::be32(b, 12),
{
    plain::lemma_n32(a, 0);
    plain::lemma_n32(b, 0);
    plain::lemma_n32(a, 4);
    plain::lemma_n32(b, 4);
    plain::lemma_n32(a, 8);
    plain::lemma_n32(b, 8);
    plain::lemma_n32(a, 12);
    plain::lemma_n32(b, 12);
}

/// What is sent on for a message is an echo request that carries it; what is
/// too short for one is left as it is.
pub proof fn law_requests_go_on(
    message: Seq<u8>,
    is_v6: bool,
    is_raw: bool,
    local: Option<IpAddr>,
    dst: IpAddr,
)
    ensures
        ({
            let out = echo::outgoing(message, is_v6, is_raw, local, dst);
            &&& message.len() < 8 ==> out == message
            &&& message.len() >= 8 ==> goes_on(message, out, is_v6, is_raw, local, dst)
        }),
{
    if message.len() >= 8 {
        let kind: u8 = if is_v6 {
            128
        } else {
            8
        };
        let cleared = wire::put16(message.update(0, kind).update(1, 0), 2, 0);
        let out = echo::outgoing(message, is_v6, is_raw, local, dst);
        checksum::lemma_word_sum_nonneg(cleared);
        assert(wire::be16(cleared, 2) == 0);
        if is_raw && !is_v6 {
            let v = checksum::internet_sum(cleared);
            checksum::law_complement_makes_sum_valid(checksum::word_sum(cleared));
            checksum::lemma_word_sum_put16(cleared, 2, v);
            plain::lemma_header_sound(out);
        }
        if is_raw && is_v6 && message.len() < 0x1_0000_0000 {
            let a = echo::octets_or_zero(local);
            let b = echo::octets_or_zero(Some(dst));
            checksum::lemma_word_sum_nonneg(a);
            checksum::lemma_word_sum_nonneg(b);
            let rest = checksum::word_sum(a) + checksum::word_sum(b) + 58 + cleared.len();
            vstd::arithmetic::div_mod::lemma_small_mod(
                cleared.len(),
                checksum::limit_v6() as nat,
            );
            let v = checksum::pseudo_checksum(a, b, 58, cleared, checksum::limit_v6());
            checksum::law_complement_makes_sum_valid(rest + checksum::word_sum(cleared));
            checksum::lemma_word_sum_put16(cleared, 2, v);
            plain::lemma_sound(a, b, 58, out, checksum::limit_v6());
            assert(plain::sound(a, b, 58, out));
            assert forall|c: Seq<u8>, d: Seq<u8>|
                #![trigger bytes_of(c, local), bytes_of(d, Some(dst))]
                bytes_of(c, local) && bytes_of(d, Some(dst)) implies plain::sound(
                c,
                d,
                58,
                out,
            ) by {
                lemma_bytes_of(c, local);
                lemma_bytes_of(d, Some(dst));
            }
        }
    }
}

/// An echo request is told by its bytes: ICMP behind the IPv4 header with its
/// options, or ICMPv6 right behind the fixed header, of the type of a request,
/// code 0 and with a whole header of its own.
pub open spec fn asks_v4(raw: Seq<u8>) -> bool {
    let head = plain::head_len(raw);
    &&& raw[0] / 16 == 4
    &&& head >= 20
    &&& raw.len() >= head + 8
    &&& raw[9] == 1
    &&& raw[head] == 8
    &&& raw[head + 1] == 0
}

pub open spec fn asks_v6(raw: Seq<u8>) -> bool {
    &&& raw[0] / 16 == 6
    &&& raw.len() >= 48
    &&& raw[6] == 58
    &&& raw[40] == 128
    &&& raw[41] == 0
}

/// Where the ICMP message of a packet starts.
pub open spec fn message_at(raw: Seq<u8>) -> int {
    if raw[0] / 16 == 4 {
        plain::head_len(raw)
    } else {
        40
    }
}

/// Exactly the echo requests are sent on; the flow of one is told by who asks,
/// who is asked and the identifier, and what is sent on is the message.
pub proof fn law_requests_are_known(raw: Seq<u8>)
    ensures
        echo::echo_request(raw) is Some <==> raw.len() > 0 && (asks_v4(raw) || asks_v6(raw)),
        echo::echo_request(raw) matches Some((key, message)) ==> {
            let at = message_at(raw);
            &&& message == raw.subrange(at, raw.len() as int)
            &&& key.id == plain::n16(raw, at + 4)
            &&& match (key.src, key.dst) {
                (IpAddr::V4(s), IpAddr::V4(d)) => asks_v4(raw) && plain::is_v4(raw, 12, s)
                    && plain::is_v4(raw, 16, d),
                (IpAddr::V6(s), IpAddr::V6(d)) => asks_v6(raw) && plain::is_v6(raw, 8, s)
                    && plain::is_v6(raw, 24, d),
                _ => false,
            }
        },
{
    plain::lemma_n32(raw, 12);
    plain::lemma_n32(raw, 16);
    assert(0 <= wire::be128(raw, 8) <= u128::MAX && 0 <= wire::be128(raw, 24) <= u128::MAX
        && plain::n128(raw, 8) == wire::be128(raw, 8) && plain::n128(raw, 24) == wire::be128(
        raw,
        24,
    )) by {
        plain::lemma_n128(raw, 8);
        plain::lemma_n128(raw, 24);
    }
}

/// `out` answers the IPv4 request `raw`: the addresses change places, the
/// message becomes a reply, both checksums are valid, and all else is kept.
pub open spec fn answers_v4(raw: Seq<u8>, out: Seq<u8>) -> bool {
    let head = plain::head_len(raw);
    &&& out.len() == raw.len()
    &&& forall|k: int| 0 <= k < 4 ==> #[trigger] out[12 + k] == raw[16 + k]
    &&& forall|k: int| 0 <= k < 4 ==> #[trigger] out[16 + k] == raw[12 + k]
    &&& forall|k: int| 0 <= k < head && !(10 <= k < 20) ==> #[trigger] out[k] == raw[k]
    &&& out[head] == 0
    &&& out[head + 1] == 0
    &&& forall|k: int| head + 4 <= k < raw.len() ==> #[trigger] out[k] == raw[k]
    &&& plain::balanced(plain::total(out.subrange(0, head)))
    &&& plain::balanced(plain::total(out.subrange(head, out.len() as int)))
}

/// The same for IPv6.
pub open spec fn answers_v6(raw: Seq<u8>, out: Seq<u8>) -> bool {
    &&& out.len() == raw.len()
    &&& forall|k: int| 0 <= k < 16 ==> #[trigger] out[8 + k] == raw[24 + k]
    &&& forall|k: int| 0 <= k < 16 ==> #[trigger] out[24 + k] == raw[8 + k]
    &&& forall|k: int| 0 <= k < 8 ==> #[trigger] out[k] == raw[k]
    &&& out[40] == 129
    &&& out[41] == 0
    &&& forall|k: int| 44 <= k < raw.len() ==> #[trigger] out[k] == raw[k]
    &&& raw.len() < 0x1_0000_0000 ==> plain::sound_v6(out, 40, 58)
}

/// An echo request is answered on the spot, and no other message is.
pub proof fn law_requests_are_answered_v4(raw: Seq<u8>)
    requires
        20 <= plain::head_len(raw) <= raw.len(),
    ensures
        ({
            let head = plain::head_len(raw);
            &&& echo::echoed_v4(raw) is Some <==> raw.len() >= head + 8 && raw[head] == 8
                && raw[head + 1] == 0
            &&& echo::echoed_v4(raw) matches Some(out) ==> answers_v4(raw, out)
        }),
{
    let head = plain::head_len(raw);
    if let Some(out) = echo::echoed_v4(raw) {
        echo::law_echoed_v4(raw);
        plain::lemma_header_sound(out.subrange(0, head));
        plain::lemma_header_sound(out.subrange(head, out.len() as int));
        lemma_word_bytes(out, raw, 12, 16);
        lemma_word_bytes(out, raw, 16, 12);
        lemma_answer_header_v4(raw);
    }
}

proof fn lemma_answer_header_v4(raw: Seq<u8>)
    requires
        20 <= plain::head_len(raw) <= raw.len(),
        echo::echoed_v4(raw) is Some,
    ensures
        ({
            let head = plain::head_len(raw);
            let out = echo::echoed_v4(raw)->0;
            &&& forall|k: int| 0 <= k < head && !(10 <= k < 20) ==> #[trigger] out[k] == raw[k]
            &&& out[head + 1] == raw[head + 1]
        }),
{
    let head = plain::head_len(raw);
    let out = echo::echoed_v4(raw)->0;
    let a = wire::be32(raw, 12);
    let b = wire::be32(raw, 16);
    let first = wire::put32(raw, 12, b);
    let turned = wire::put32(first, 16, a);
    wire::lemma_put32(raw, 12, b);
    wire::lemma_put32(first, 16, a);
    let cleared = wire::put16(turned.update(head, 0), head + 2, 0);
    let message = cleared.subrange(head, raw.len() as int);
    let summed = wire::put16(cleared, head + 2, checksum::internet_sum(message));
    assert(summed.len() == raw.len());
    assert(turned[0] == first[0]);
    assert(summed[0] == raw[0]);
    checksum::law_rechecked_ipv4_header_valid(summed);
    assert forall|k: int| 0 <= k < head && !(10 <= k < 20) implies #[trigger] out[k]
        == raw[k] by {
        assert(out[k] == summed[k]);
        assert(summed[k] == turned[k]);
        assert(turned[k] == first[k]);
    }
    assert(out[head + 1] == summed[head + 1]);
    assert(turned[head + 1] == first[head + 1]);
}

/// The same for IPv6.
pub proof fn law_requests_are_answered_v6(raw: Seq<u8>)
    ensures
        echo::echoed_v6(raw) is Some <==> raw.len() >= 48 && raw[40] == 128 && raw[41] == 0,
        echo::echoed_v6(raw) matches Some(out) ==> answers_v6(raw, out),
{
    if let Some(out) = echo::echoed_v6(raw) {
        echo::law_echoed_v6(raw);
        if raw.len() < 0x1_0000_0000 {
            plain::lemma_sound(
                out.subrange(8, 24),
                out.subrange(24, 40),
                58,
                out.subrange(40, out.len() as int),
                checksum::limit_v6(),
            );
        }
        lemma_turned_bytes(raw, out, 8, 24);
        lemma_turned_bytes(raw, out, 24, 8);
        let a = wire::be128(raw, 8);
        let b = wire::be128(raw, 24);
        let first = wire::put128(raw, 8, b);
        let turned = wire::put128(first, 24, a);
        assert(0 <= a <= u128::MAX && 0 <= b <= u128::MAX) by {
            plain::lemma_n128(raw, 8);
            plain::lemma_n128(raw, 24);
        }
        wire::lemma_put128(raw, 8, b);
        wire::lemma_put128(first, 24, a);
        checksum::law_rechecked_transport_valid(
            turned.update(40, 129),
            40,
            2,
            58,
            8,
            16,
            checksum::limit_v6(),
        );
        assert forall|k: int| 0 <= k < 8 implies #[trigger] out[k] == raw[k] by {
            assert(out[k] == turned[k]);
            assert(turned[k] == first[k]);
        }
        assert(out[41] == turned[41] && turned[41] == first[41]);
    }
}

proof fn lemma_turned_bytes(raw: Seq<u8>, out: Seq<u8>, i: int, j: int)
    requires
        0 <= i,
        0 <= j,
        i + 16 <= out.len(),
        j + 16 <= raw.len(),
        wire::be128(out, i) == wire::be128(raw, j),
    ensures
        forall|k: int| 0 <= k < 16 ==> #[trigger] out[i + k] == raw[j + k],
{
    let a = out.subrange(i, i + 16);
    let b = raw.subrange(j, j + 16);
    lemma_moved(out, i);
    lemma_moved(raw, j);
    lemma_bytes_unique(a, b);
    assert forall|k: int| 0 <= k < 16 implies #[trigger] out[i + k] == raw[j + k] by {
        assert(a[k] == b[k]);
    }
}

proof fn lemma_moved(s: Seq<u8>, i: int)
    requires
        0 <= i,
        i + 16 <= s.len(),
    ensures
        wire::be128(s.subrange(i, i + 16), 0) == wire::be128(s, i),
{
    let t = s.subrange(i, i + 16);
    assert(wire::be32(t, 0) == wire::be32(s, i));
    assert(wire::be32(t, 4) == wire::be32(s, i + 4));
    assert(wire::be32(t, 8) == wire::be32(s, i + 8));
    assert(wire::be32(t, 12) == wire::be32(s, i + 12));
}

/// `out` brings the ICMP message `m` to who asked, over IPv4: the header is
/// that of the request with the addresses changed over and the length of its
/// own, the message is a reply, and both checksums are valid.
pub open spec fn brings_v4(template: Seq<u8>, key: FlowKey, m: Seq<u8>, out: Seq<u8>) -> bool {
    let head = plain::head_len(template);
    &&& key.src is V4 && key.dst is V4
    &&& out.len() == head + m.len()
    &&& plain::is_v4(out, 12, key.dst->V4_0)
    &&& plain::is_v4(out, 16, key.src->V4_0)
    &&& out.len() < 65536 ==> plain::n16(out, 2) == out.len()
    &&& forall|k: int|
        0 <= k < head && !(2 <= k < 4) && !(10 <= k < 20) ==> #[trigger] out[k] == template[k]
    &&& out[head] == 0
    &&& out[head + 1] == 0
    &&& out.subrange(head + 4, out.len() as int) == m.subrange(4, m.len() as int)
    &&& plain::balanced(plain::total(out.subrange(0, head)))
    &&& plain::balanced(plain::total(out.subrange(head, out.len() as int)))
}

/// The same for IPv6.
pub open spec fn brings_v6(template: Seq<u8>, key: FlowKey, m: Seq<u8>, out: Seq<u8>) -> bool {
    &&& key.src is V6 && key.dst is V6
    &&& out.len() == 40 + m.len()
    &&& plain::is_v6(out, 8, key.dst->V6_0)
    &&& plain::is_v6(out, 24, key.src->V6_0)
    &&& m.len() < 65536 ==> plain::n16(out, 4) == m.len()
    &&& forall|k: int| 0 <= k < 8 && !(4 <= k < 6) ==> #[trigger] out[k] == template[k]
    &&& out[40] == 129
    &&& out[41] == 0
    &&& out.subrange(44, out.len() as int) == m.subrange(4, m.len() as int)
    &&& m.len() < 0x1_0000_0000 ==> plain::sound_v6(out, 40, 58)
}

/// A reply that came for a flow is brought to who asked.
pub proof fn law_replies_are_brought(template: Seq<u8>, key: FlowKey, m: Seq<u8>)
    requires
        m.len() >= 8,
    ensures
        ({
            let head = plain::head_len(template);
            let v4 = echo::echo_reply(template, key, m, false);
            let v6 = echo::echo_reply(template, key, m, true);
            &&& v4 is Some <==> key.src is V4 && key.dst is V4 && 20 <= head <= template.len()
            &&& v4 matches Some(out) ==> brings_v4(template, key, m, out)
            &&& v6 is Some <==> key.src is V6 && key.dst is V6 && template.len() >= 40
            &&& v6 matches Some(out) ==> brings_v6(template, key, m, out)
        }),
{
    if let Some(out) = echo::echo_reply(template, key, m, false) {
        lemma_brings_v4(template, key, m);
    }
    if let Some(out) = echo::echo_reply(template, key, m, true) {
        lemma_brings_v6(template, key, m);
    }
}

proof fn lemma_brings_v4(template: Seq<u8>, key: FlowKey, m: Seq<u8>)
    requires
        m.len() >= 8,
        echo::echo_reply(template, key, m, false) is Some,
    ensures
        brings_v4(template, key, m, echo::echo_reply(template, key, m, false)->0),
{
    let head = plain::head_len(template);
    let src = key.src->V4_0;
    let dst = key.dst->V4_0;
    let out = echo::echo_reply_v4(template, src, dst, m);
    echo::law_echo_reply_v4(template, src, dst, m);
    plain::lemma_n32(out, 12);
    plain::lemma_n32(out, 16);
    plain::lemma_header_sound(out.subrange(0, head));
    plain::lemma_header_sound(out.subrange(head, out.len() as int));
    let h0 = template.subrange(0, head);
    let h1 = wire::put32(h0, 12, dst.bits as int);
    let h2 = wire::put32(h1, 16, src.bits as int);
    let n = (head + m.len()) % 65536;
    let h3 = wire::put16(h2, 2, n);
    wire::lemma_put32(h0, 12, dst.bits as int);
    wire::lemma_put32(h1, 16, src.bits as int);
    wire::lemma_put16(h2, 2, n);
    let joined = h3 + echo::reply_message_v4(m);
    assert(h2[0] == h1[0] && h1[0] == h0[0]);
    assert(joined[0] == template[0]);
    checksum::law_rechecked_ipv4_header_valid(joined);
    assert forall|k: int| 0 <= k < head && !(2 <= k < 4) && !(10 <= k < 20) implies #[trigger] out[k]
        == template[k] by {
        assert(out[k] == joined[k]);
        assert(h3[k] == h2[k]);
        assert(h2[k] == h1[k]);
        assert(h1[k] == h0[k]);
    }
    assert(out[2] == h3[2] && out[3] == h3[3]);
    assert(out[head + 1] == joined[head + 1]);
    assert(out.subrange(head + 4, out.len() as int) =~= m.subrange(4, m.len() as int)) by {
        assert forall|k: int| 0 <= k < m.len() - 4 implies out.subrange(
            head + 4,
            out.len() as int,
        )[k] == m.subrange(4, m.len() as int)[k] by {
            assert(out[head + (k + 4)] == m[k + 4]);
        }
    }
}

proof fn lemma_brings_v6(template: Seq<u8>, key: FlowKey, m: Seq<u8>)
    requires
        m.len() >= 8,
        echo::echo_reply(template, key, m, true) is Some,
    ensures
        brings_v6(template, key, m, echo::echo_reply(template, key, m, true)->0),
{
    let src = key.src->V6_0;
    let dst = key.dst->V6_0;
    let out = echo::echo_reply_v6(template, src, dst, m);
    echo::law_echo_reply_v6(template, src, dst, m);
    assert(plain::is_v6(out, 8, dst) && plain::is_v6(out, 24, src)) by {
        plain::lemma_n128(out, 8);
        plain::lemma_n128(out, 24);
        assert(tcp::src_v6(out).bits == dst.bits);
        assert(tcp::dst_v6(out).bits == src.bits);
    }
    if m.len() < 0x1_0000_0000 {
        plain::lemma_sound(
            out.subrange(8, 24),
            out.subrange(24, 40),
            58,
            out.subrange(40, out.len() as int),
            checksum::limit_v6(),
        );
    }
    let h0 = template.subrange(0, 40);
    let h1 = wire::put128(h0, 8, dst.bits as int);
    let h2 = wire::put128(h1, 24, src.bits as int);
    let n = m.len() as int % 65536;
    let h3 = wire::put16(h2, 4, n);
    wire::lemma_put128(h0, 8, dst.bits as int);
    wire::lemma_put128(h1, 24, src.bits as int);
    wire::lemma_put16(h2, 4, n);
    let joined = h3 + m.update(0, 129).update(1, 0);
    checksum::law_rechecked_transport_valid(joined, 40, 2, 58, 8, 16, checksum::limit_v6());
    assert forall|k: int| 0 <= k < 8 && !(4 <= k < 6) implies #[trigger] out[k]
        == template[k] by {
        assert(out[k] == joined[k]);
        assert(h3[k] == h2[k]);
        assert(h2[k] == h1[k]);
        assert(h1[k] == h0[k]);
    }
    assert(out[4] == h3[4] && out[5] == h3[5]);
    assert(out[41] == joined[41]);
    assert(out.subrange(44, out.len() as int) =~= m.subrange(4, m.len() as int)) by {
        assert forall|k: int| 0 <= k < m.len() - 4 implies out.subrange(44, out.len() as int)[k]
            == m.subrange(4, m.len() as int)[k] by {
            assert(out[40 + (k + 4)] == m[k + 4]);
        }
    }
}

/// What a raw socket delivers is an IP packet: the message starts behind its
/// header.
pub proof fn law_raw_delivery(template: Seq<u8>, key: FlowKey, data: Seq<u8>, is_v6: bool)
    ensures
        data.len() > 0 && data[0] / 16 == 4 && plain::head_len(data) >= 20 && data.len()
            >= plain::head_len(data) + 8 ==> echo::upstream_reply(
            template,
            key,
            data,
            true,
            is_v6,
        ) == echo::echo_reply(
            template,
            key,
            data.subrange(plain::head_len(data), data.len() as int),
            is_v6,
        ),
        data.len() >= 48 && data[0] / 16 == 6 ==> echo::upstream_reply(
            template,
            key,
            data,
            true,
            is_v6,
        ) == echo::echo_reply(template, key, data.subrange(40, data.len() as int), is_v6),
        data.len() < 28 ==> echo::upstream_reply(template, key, data, true, is_v6) is None,
        data.len() > 0 && data[0] / 16 != 4 && data[0] / 16 != 6 ==> echo::upstream_reply(
            template,
            key,
            data,
            true,
            is_v6,
        ) is None,
        echo::upstream_reply(template, key, data, false, is_v6) == echo::echo_reply(
            template,
            key,
            data,
            is_v6,
        ),
{
}

/// A running flow sends every request on to whom is asked and brings every
/// reply to who asked; both leave it running.
pub proof fn law_flow_serves(
    raw: bool,
    local: Option<IpAddr>,
    data: Vec<u8>,
    template: Seq<u8>,
    key: FlowKey,
)
    requires
        data@.len() >= 8,
        key.src is V4 <==> key.dst is V4,
        key.dst is V4 ==> 20 <= plain::head_len(template) <= template.len(),
        key.dst is V6 ==> template.len() >= 40,
    ensures
        ({
            let stage = FlowStage::Running { raw, local };
            let (s1, sent) = echo_flow::flow_next(stage, FlowEvent::Request(data), template, key);
            let (s2, got) = echo_flow::flow_next(stage, FlowEvent::Received(data), template, key);
            &&& s1 == stage
            &&& s2 == stage
            &&& sent matches FlowActionView::Send(out) && goes_on(
                data@,
                out,
                key.dst is V6,
                raw,
                local,
                key.dst,
            )
            &&& !raw && key.dst is V4 ==> (got matches FlowActionView::Write(out) && brings_v4(
                template,
                key,
                data@,
                out,
            ))
            &&& !raw && key.dst is V6 ==> (got matches FlowActionView::Write(out) && brings_v6(
                template,
                key,
                data@,
                out,
            ))
        }),
{
    law_requests_go_on(data@, key.dst is V6, raw, local, key.dst);
    law_replies_are_brought(template, key, data@);
}

/// A flow tries a datagram socket first where it may, then a raw one, and ends
/// where that fails too; an open socket makes it run, and the address of a raw
/// one is remembered.
pub proof fn law_flow_opens(
    local: Option<IpAddr>,
    template: Seq<u8>,
    key: FlowKey,
)
    ensures
        echo_flow::flow_next(FlowStage::OpenDatagram, FlowEvent::Opened(local), template, key) == (
            FlowStage::Running { raw: false, local: None },
            FlowActionView::Wait,
        ),
        echo_flow::flow_next(FlowStage::OpenDatagram, FlowEvent::Failed, template, key) == (
            FlowStage::OpenRaw,
            FlowActionView::Open { raw: true },
        ),
        echo_flow::flow_next(FlowStage::OpenRaw, FlowEvent::Opened(local), template, key) == (
            FlowStage::Running { raw: true, local },
            FlowActionView::Wait,
        ),
        echo_flow::flow_next(FlowStage::OpenRaw, FlowEvent::Failed, template, key) == (
            FlowStage::Ended,
            FlowActionView::End,
        ),
{
}

} // verus!
