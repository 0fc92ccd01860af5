//! Segmentation told by bytes: what a receiver of the packets that come out of
//! a split sees of the packet that went in.
use vstd::prelude::*;

use crate::checksum;
use crate::gso;
use crate::gso::{GsoError, GsoOptions, GsoType};
use crate::plain;
use crate::wire;

verus! {

/// Two packets agree in every byte but the two at `at`.
pub open spec fn agree_but(a: Seq<u8>, b: Seq<u8>, at: int) -> bool {
    &&& a.len() == b.len()
    &&& forall|k: int| 0 <= k < a.len() && k != at && k != at + 1 ==> #[trigger] a[k] == b[k]
}

/// A packet that is handed on whole keeps every byte but its checksum. That is
/// completed where the request says so: with what the field held, it balances
/// the sum of everything from `csum_start` on.
pub proof fn law_whole_packet_balances(input: Seq<u8>, o: GsoOptions, rest: Seq<u8>)
    requires
        o.csum_start + o.csum_offset + 2 <= input.len(),
        agree_but(rest, input, o.csum_start + o.csum_offset),
        plain::n16(rest, o.csum_start + o.csum_offset) == 0,
    ensures
        ({
            let out = gso::whole_packet(input, o);
            let at = o.csum_start + o.csum_offset;
            if o.needs_csum {
                &&& agree_but(out, input, at)
                &&& plain::balanced(
                    plain::n16(out, at) + plain::n16(input, at) + plain::total(
                        rest.subrange(o.csum_start as int, rest.len() as int),
                    ),
                )
            } else {
                out == input
            }
        }),
{
    if o.needs_csum {
        let at = o.csum_start + o.csum_offset;
        let cleared = wire::put16(input, at, 0);
        assert(cleared =~= rest);
        let tail = rest.subrange(o.csum_start as int, rest.len() as int);
        plain::lemma_total(tail);
        plain::lemma_n16(input, at);
        let n = wire::be16(input, at) + checksum::word_sum(tail);
        checksum::law_complement_makes_sum_valid(n);
        let v = checksum::ones_not(checksum::ones_fold(n));
        let out = gso::whole_packet(input, o);
        assert(out =~= wire::put16(rest, at, v));
        assert(plain::n16(out, at) == v);
        plain::lemma_balanced(n + v);
    }
}

/// A packet whose checksum was left to be completed, and whose checksum field
/// holds the folded sum of its pseudo header, comes out whole with a valid
/// transport checksum.
pub proof fn law_whole_packet_is_sound(
    input: Seq<u8>,
    o: GsoOptions,
    src: Seq<u8>,
    dst: Seq<u8>,
    proto: int,
)
    requires
        o.needs_csum,
        o.csum_offset % 2 == 0,
        o.csum_start + o.csum_offset + 2 <= input.len(),
        proto > 0,
        plain::n16(input, o.csum_start + o.csum_offset) % 65535 == (plain::total(src)
            + plain::total(dst) + proto + (input.len() - o.csum_start)) % 65535,
    ensures
        ({
            let out = gso::whole_packet(input, o);
            &&& out.len() == input.len()
            &&& plain::sound(src, dst, proto, out.subrange(o.csum_start as int, out.len() as int))
            &&& agree_but(out, input, o.csum_start + o.csum_offset)
        }),
{
    let at = o.csum_start + o.csum_offset;
    let start = o.csum_start as int;
    let len = input.len() as int;
    let rest = wire::put16(input, at, 0);
    assert(plain::n16(rest, at) == 0);
    law_whole_packet_balances(input, o, rest);
    let out = gso::whole_packet(input, o);
    let tail = out.subrange(start, len);
    let blank = rest.subrange(start, len);
    let v = plain::n16(out, at);
    plain::lemma_n16(out, at);
    plain::lemma_n16(input, at);
    plain::lemma_total(src);
    plain::lemma_total(dst);
    plain::lemma_total(tail);
    plain::lemma_total(blank);
    assert(tail =~= wire::put16(blank, o.csum_offset as int, v));
    checksum::lemma_word_sum_put16(blank, o.csum_offset as int, v);
    let p = plain::total(src) + plain::total(dst) + proto + (len - start);
    let f = plain::n16(input, at);
    let t = plain::total(blank);
    assert(plain::total(tail) == t + v);
    assert((v + f + t) % 65535 == 0);
    assert(f % 65535 == p % 65535);
    lemma_swap(v + t, f, p);
}

proof fn lemma_swap(a: int, f: int, p: int)
    requires
        (a + f) % 65535 == 0,
        f % 65535 == p % 65535,
    ensures
        (a + p) % 65535 == 0,
{
}

/// When a packet is taken, and when it is handed on whole: its checksum field
/// and its headers must lie inside it, there must be room for what comes out,
/// and a packet to be split must hold a transport header. A payload shorter
/// than a segment is not split.
pub proof fn law_requests_taken(input: Seq<u8>, o: GsoOptions, bufs: int)
    requires
        bufs >= 0,
    ensures
        ({
            let len = input.len();
            let whole = o.gso_type == GsoType::NoGso || len < o.hdr_len + o.gso_size;
            let tcp = o.gso_type == GsoType::TcpV4 || o.gso_type == GsoType::TcpV6;
            let no = gso::gso_refusal(input, o, bufs);
            &&& no is None <==> {
                &&& o.csum_start + o.csum_offset + 2 <= len
                &&& o.hdr_len <= len
                &&& whole ==> bufs > 0
                &&& !whole ==> o.csum_start <= o.hdr_len
                &&& !whole && tcp ==> o.csum_start + 20 <= len
            }
            &&& len < o.csum_start + o.csum_offset + 2 ==> no == Some(GsoError::ChecksumOffset)
            &&& no == Some(GsoError::ChecksumOffset) ==> len < o.csum_start + o.csum_offset + 2
            &&& no == Some(GsoError::PacketTooShort) ==> len < o.hdr_len
            &&& no == Some(GsoError::NoBuffers) ==> whole && bufs == 0
            &&& no == Some(GsoError::HeaderLength) ==> !whole && o.hdr_len < o.csum_start
            &&& no == Some(GsoError::TcpHeaderTooShort) ==> !whole && tcp && len < o.csum_start + 20
            &&& no matches Some(e) ==> e == GsoError::ChecksumOffset || e
                == GsoError::PacketTooShort || e == GsoError::NoBuffers || e
                == GsoError::HeaderLength || e == GsoError::TcpHeaderTooShort
            &&& o.passes_whole(len as int) <==> whole
        }),
{
}

/// As many segments are written as it takes to carry the payload, one size
/// after the other; where the buffers are too few, the request fails with all
/// of them filled.
pub proof fn law_segments_needed(len: int, o: GsoOptions, bufs: int)
    requires
        o.hdr_len < len,
        o.gso_size > 0,
        bufs >= 0,
    ensures
        ({
            let n = gso::segments_written(len, o, bufs);
            let payload = len - o.hdr_len;
            &&& gso::too_many_segments(len, o, bufs) <==> bufs * o.gso_size < payload
            &&& bufs * o.gso_size < payload ==> n == bufs
            &&& bufs * o.gso_size >= payload ==> {
                &&& 0 < n <= bufs
                &&& n * o.gso_size >= payload
                &&& (n - 1) * o.gso_size < payload
            }
        }),
{
    let payload = len - o.hdr_len;
    let size = o.gso_size as int;
    let c = gso::segment_count(payload, size);
    gso::lemma_segment_count(payload, size, bufs);
    assert(0 * size == 0);
    gso::lemma_segment_count(payload, size, 0);
    gso::lemma_segment_count(payload, size, c);
    gso::lemma_segment_count(payload, size, c - 1);
}

/// Segment `i` of a packet: its payload is the `i`-th piece, it says how long
/// it is, it counts on from the packet, its checksums are valid, and in all
/// else its headers are those of the packet. FIN and PSH are on the last one
/// only.
pub open spec fn is_segment(input: Seq<u8>, o: GsoOptions, i: int, s: Seq<u8>) -> bool {
    let at = o.csum_start as int;
    let head = o.hdr_len as int;
    let from = head + i * o.gso_size;
    let last = from + o.gso_size >= input.len();
    let tcp = o.gso_type == GsoType::TcpV4 || o.gso_type == GsoType::TcpV6;
    let v4 = input[0] / 16 == 4;
    &&& s.len() == (if last {
        head + input.len() - from
    } else {
        head + o.gso_size
    })
    &&& forall|k: int| head <= k < s.len() ==> #[trigger] s[k] == input[from + (k - head)]
    &&& v4 ==> {
        &&& plain::n16(s, 2) == s.len()
        &&& plain::n16(s, 4) == (plain::n16(input, 4) + i) % 65536
        &&& plain::balanced(plain::total(s.subrange(0, at)))
        &&& plain::sound_v4(
            s,
            at,
            if tcp {
                6
            } else {
                17
            },
        )
        &&& forall|k: int|
            0 <= k < at && k != 2 && k != 3 && k != 4 && k != 5 && k != 10 && k != 11
                ==> #[trigger] s[k] == input[k]
    }
    &&& !v4 ==> {
        &&& plain::n16(s, 4) == s.len() - at
        &&& plain::sound_v6(
            s,
            at,
            if tcp {
                6
            } else {
                17
            },
        )
        &&& forall|k: int| 0 <= k < at && k != 4 && k != 5 ==> #[trigger] s[k] == input[k]
    }
    &&& tcp ==> {
        &&& plain::n32(s, at + 4) == (plain::n32(input, at + 4) + i * o.gso_size) % 0x1_0000_0000
        &&& flags_kept(input[at + 13], s[at + 13], last)
        &&& forall|k: int|
            at <= k < head && !(at + 4 <= k < at + 8) && k != at + 13 && !(at + 16 <= k < at + 18)
                ==> #[trigger] s[k] == input[k]
    }
    &&& !tcp ==> {
        &&& plain::n16(s, at + 4) == s.len() - at
        &&& forall|k: int|
            at <= k < head && !(at + 4 <= k < at + 8) ==> #[trigger] s[k] == input[k]
    }
}

/// The flags of a segment: those of the packet, but FIN (the lowest bit) and
/// PSH (the fourth) only on the last one.
pub open spec fn flags_kept(before: u8, after: u8, last: bool) -> bool {
    if last {
        after == before
    } else {
        after == before - before % 2 - 8 * (before / 8 % 2)
    }
}

proof fn lemma_flags(f: u8)
    ensures
        f & 0xf6 == f - f % 2 - 8 * (f / 8 % 2),
{
    assert(f & 0xf6 == f - f % 2 - 8 * (f / 8 % 2)) by (bit_vector);
}

/// Every segment of a packet with ordinary headers is a packet that carries
/// its piece of the payload.
#[verifier::rlimit(60)]
pub proof fn law_segments(input: Seq<u8>, o: GsoOptions, i: int)
    requires
        gso::ordinary_layout(input, o),
        0 <= i,
        o.hdr_len + i * o.gso_size < input.len(),
    ensures
        is_segment(input, o, i, gso::segment(input, o, i)),
{
    let at = o.csum_start as int;
    let len = input.len() as int;
    let head = o.hdr_len as int;
    let s = gso::segment(input, o, i);
    assert(i * o.gso_size >= 0) by (nonlinear_arith)
        requires
            i >= 0,
    ;
    assert(i * o.gso_size == o.gso_size * i) by (nonlinear_arith);
    gso::lemma_segment_count(len - head, o.gso_size as int, i);
    gso::lemma_segment_bounds(input, o, i);
    gso::law_segment_payload(input, o, i);
    gso::law_segment_fields(input, o, i);
    gso::law_segment_checksums(input, o, i);
    lemma_flags(input[at + 13]);
    lemma_segment_sums(input, o, i);
    lemma_segment_headers(input, o, i);
    let from = head + i * o.gso_size;
    assert forall|k: int| head <= k < s.len() implies #[trigger] s[k] == input[from + (k
        - head)] by {
        assert(s[k] == gso::segment_payload(input, o, i)[k - head]);
    }
    plain::lemma_n16(s, 2);
    plain::lemma_n16(s, 4);
    plain::lemma_n16(input, 4);
    plain::lemma_n32(s, at + 4);
    plain::lemma_n32(input, at + 4);
    plain::lemma_n16(s, at + 4);
}

proof fn lemma_segment_sums(input: Seq<u8>, o: GsoOptions, i: int)
    requires
        gso::ordinary_layout(input, o),
        o.hdr_len < input.len(),
        0 <= i < gso::segment_count(input.len() - o.hdr_len, o.gso_size as int),
    ensures
        ({
            let s = gso::segment(input, o, i);
            let at = o.csum_start as int;
            let proto: int = if o.gso_type == GsoType::TcpV4 || o.gso_type == GsoType::TcpV6 {
                6
            } else {
                17
            };
            &&& input[0] / 16 == 4 ==> plain::balanced(plain::total(s.subrange(0, at)))
            &&& input[0] / 16 == 4 ==> plain::sound_v4(s, at, proto)
            &&& input[0] / 16 != 4 ==> plain::sound_v6(s, at, proto)
        }),
{
    let s = gso::segment(input, o, i);
    let at = o.csum_start as int;
    gso::lemma_segment_bounds(input, o, i);
    gso::law_segment_checksums(input, o, i);
    plain::lemma_total(s.subrange(0, at));
    plain::lemma_balanced(plain::total(s.subrange(0, at)));
    let src: int = if input[0] / 16 == 4 {
        12
    } else {
        8
    };
    let n: int = if input[0] / 16 == 4 {
        4
    } else {
        16
    };
    let a = s.subrange(src, src + n);
    let b = s.subrange(src + n, src + 2 * n);
    let d = s.subrange(at, s.len() as int);
    plain::lemma_total(a);
    plain::lemma_total(b);
    plain::lemma_total(d);
    assert(checksum::even_part(a) =~= a);
    assert(checksum::even_part(b) =~= b);
    let sum = plain::total(a) + plain::total(b) + o.protocol() + d.len();
    checksum::lemma_fold_add(sum, plain::total(d));
    plain::lemma_balanced(sum + plain::total(d));
}

#[verifier::rlimit(60)]
proof fn lemma_segment_headers(input: Seq<u8>, o: GsoOptions, i: int)
    requires
        gso::ordinary_layout(input, o),
        o.hdr_len < input.len(),
        0 <= i < gso::segment_count(input.len() - o.hdr_len, o.gso_size as int),
    ensures
        ({
            let s = gso::segment(input, o, i);
            let at = o.csum_start as int;
            &&& forall|k: int|
                0 <= k < at && k != 4 && k != 5 && (input[0] / 16 == 4 ==> k != 2 && k != 3 && k
                    != 10 && k != 11) ==> #[trigger] s[k] == input[k]
            &&& forall|k: int|
                at <= k < o.hdr_len && !(at + 4 <= k < at + 8) && !(o.is_tcp() && (k == at + 13
                    || at + 16 <= k < at + 18)) ==> #[trigger] s[k] == input[k]
        }),
{
    reveal(gso::segment);
    gso::lemma_segment_bounds(input, o, i);
}

} // verus!
