//! A framed device told by bytes: what the header in front of a packet asks
//! for, which packets come out of one read, and in what order they are handed
//! out.
use vstd::prelude::*;

use crate::addr::Ipv4Addr;
use crate::checksum;
use crate::gso;
use crate::gso::{GsoError, GsoOptions, GsoType, VirtioNetHdr};
use crate::native_tun;
use crate::plain;
use crate::wire;

verus! {

/// The number in two bytes, the low one first, or last.
pub open spec fn field(b: Seq<u8>, i: int, little: bool) -> int {
    if little {
        b[i] + 256 * b[i + 1]
    } else {
        256 * b[i] + b[i + 1]
    }
}

/// The request is what the ten bytes of a header say.
pub open spec fn asked(b: Seq<u8>, little: bool, o: GsoOptions) -> bool {
    &&& b[1] == (match o.gso_type {
        GsoType::NoGso => 0u8,
        GsoType::TcpV4 => 1u8,
        GsoType::TcpV6 => 3u8,
        GsoType::UdpL4 => 5u8,
    })
    &&& o.needs_csum <==> b[0] % 2 == 1
    &&& o.hdr_len == field(b, 2, little)
    &&& o.gso_size == field(b, 4, little)
    &&& o.csum_start == field(b, 6, little)
    &&& o.csum_offset == field(b, 8, little)
}

/// A header is read from ten bytes and no fewer, and asks for what they say;
/// a type that is none of the four is refused.
pub proof fn law_headers_are_read(b: Seq<u8>, little: bool)
    ensures
        b.len() < 10 ==> gso::decoded(b, little) == Err::<VirtioNetHdr, GsoError>(
            GsoError::HeaderTooShort,
        ),
        b.len() >= 10 ==> (gso::decoded(b, little) matches Ok(hdr) && hdr.flags == b[0]
            && hdr.gso_type == b[1] && hdr.hdr_len == field(b, 2, little) && hdr.gso_size == field(
            b,
            4,
            little,
        ) && hdr.csum_start == field(b, 6, little) && hdr.csum_offset == field(b, 8, little)),
        b.len() >= 10 ==> match native_tun::options_of(gso::hdr_of(b, little)) {
            Some(o) => asked(b, little, o),
            None => b[1] != 0 && b[1] != 1 && b[1] != 3 && b[1] != 5,
        },
{
    if b.len() >= 10 {
        let f = b[0];
        assert((f & 1 != 0) == (f % 2 == 1)) by (bit_vector);
    }
}

/// A header is written as the ten bytes that read as it, and no byte behind
/// them changes.
pub proof fn law_headers_are_written(hdr: VirtioNetHdr, b: Seq<u8>, little: bool)
    ensures
        b.len() < 10 ==> gso::encoded(hdr, b, little) == (
            Err::<(), GsoError>(GsoError::HeaderTooShort),
            b,
        ),
        b.len() >= 10 ==> ({
            let (r, out) = gso::encoded(hdr, b, little);
            &&& r is Ok
            &&& out.len() == b.len()
            &&& out[0] == hdr.flags
            &&& out[1] == hdr.gso_type
            &&& field(out, 2, little) == hdr.hdr_len
            &&& field(out, 4, little) == hdr.gso_size
            &&& field(out, 6, little) == hdr.csum_start
            &&& field(out, 8, little) == hdr.csum_offset
            &&& forall|k: int| 10 <= k < b.len() ==> #[trigger] out[k] == b[k]
        }),
{
}

/// What one read from the device gives: without a header in front, or with too
/// few bytes for one and a packet, the bytes themselves; with a header that
/// asks for no split, the bytes behind it; with one that asks for a split, the
/// packets of that split; and with any other header an error.
pub proof fn law_reads_give_packets(vnet_hdr: bool, little: bool, data: Seq<u8>)
    ensures
        ({
            let r = native_tun::received(vnet_hdr, little, data);
            if !vnet_hdr || data.len() <= 10 {
                r == Ok::<Seq<Seq<u8>>, GsoError>(seq![data])
            } else if data[1] == 0 {
                r == Ok::<Seq<Seq<u8>>, GsoError>(seq![data.subrange(10, data.len() as int)])
            } else if data[1] == 1 || data[1] == 3 || data[1] == 5 {
                forall|o: GsoOptions| #[trigger]
                    asked(data, little, o) ==> r == native_tun::split_packets(
                        data.subrange(10, data.len() as int),
                        o,
                        128,
                    )
            } else {
                r == Err::<Seq<Seq<u8>>, GsoError>(GsoError::UnsupportedType(data[1]))
            }
        }),
{
    if vnet_hdr && data.len() > 10 {
        let b = data.subrange(0, 10);
        law_headers_are_read(b, little);
        assert(forall|k: int| 0 <= k < 10 ==> #[trigger] b[k] == data[k]);
        if data[1] == 1 || data[1] == 3 || data[1] == 5 {
            let got = native_tun::options_of(gso::hdr_of(b, little))->0;
            assert forall|o: GsoOptions| #[trigger] asked(data, little, o) implies o == got by {
                assert(asked(b, little, got));
            }
        }
    }
}

/// A split gives the packet itself where it passes whole, and else its
/// segments, as many as there are; it fails where they are too many.
pub proof fn law_splits_give_segments(pkt: Seq<u8>, o: GsoOptions, bufs: int)
    requires
        bufs > 0,
    ensures
        match native_tun::split_packets(pkt, o, bufs) {
            Err(e) => gso::gso_refusal(pkt, o, bufs) == Some(e) || {
                &&& e == GsoError::TooManySegments
                &&& o.gso_size == 0 || bufs * o.gso_size < pkt.len() - o.hdr_len
            },
            Ok(list) => {
                &&& gso::gso_refusal(pkt, o, bufs) is None
                &&& if o.gso_type == GsoType::NoGso || pkt.len() < o.hdr_len + o.gso_size {
                    list.len() == 1 && list[0] == gso::whole_packet(pkt, o)
                } else {
                    &&& forall|k: int|
                        0 <= k < list.len() ==> #[trigger] list[k] == gso::segment(pkt, o, k)
                    &&& pkt.len() > o.hdr_len ==> list.len() * o.gso_size >= pkt.len() - o.hdr_len
                        && (list.len() - 1) * o.gso_size < pkt.len() - o.hdr_len
                    &&& pkt.len() == o.hdr_len ==> list.len() == 0
                }
            },
        },
{
    if o.hdr_len < pkt.len() && o.gso_size > 0 {
        crate::gso_laws::law_segments_needed(pkt.len() as int, o, bufs);
    }
}

/// Packets are handed out in the order in which they came, as many as there
/// are buffers left for; the others wait, and no other buffer changes.
pub proof fn law_handed_out_in_order(waiting: Seq<Seq<u8>>, bufs: Seq<Seq<u8>>, from: int)
    requires
        0 <= from <= bufs.len(),
    ensures
        ({
            let (left, out) = native_tun::filled(waiting, bufs, from);
            let n = waiting.len() - left.len();
            &&& 0 <= n
            &&& from + n <= out.len()
            &&& left.len() == 0 || from + n == bufs.len()
            &&& out.len() == bufs.len()
            &&& out.subrange(from, from + n) + left == waiting
            &&& forall|k: int|
                0 <= k < bufs.len() && !(from <= k < from + n) ==> #[trigger] out[k] == bufs[k]
        }),
{
    let (left, out) = native_tun::filled(waiting, bufs, from);
    let n = waiting.len() - left.len();
    assert(out.subrange(from, from + n) + left =~= waiting);
}

/// A packet to be written has ten zeros in front.
pub proof fn law_framed_with_zeros(packets: Seq<Seq<u8>>, k: int)
    requires
        0 <= k < packets.len(),
    ensures
        native_tun::framed(packets).len() == packets.len(),
        ({
            let f = native_tun::framed(packets)[k];
            &&& f.len() == 10 + packets[k].len()
            &&& forall|j: int| 0 <= j < 10 ==> #[trigger] f[j] == 0
            &&& f.subrange(10, f.len() as int) == packets[k]
        }),
{
    let f = native_tun::framed(packets)[k];
    assert(f.subrange(10, f.len() as int) =~= packets[k]);
}

/// The packets that try out merging are TCP segments of one connection from
/// the address to itself, the second where the first ends, and both valid.
pub proof fn law_probe_segments(a: Ipv4Addr, i: int)
    requires
        0 <= i < 2,
    ensures
        ({
            let p = native_tun::probe_segment(a, i);
            &&& p.len() == 60
            &&& p[0] == 0x45
            &&& plain::n16(p, 2) == 60
            &&& plain::n16(p, 6) == 0x4000
            &&& p[9] == 6
            &&& plain::is_v4(p, 12, a)
            &&& plain::is_v4(p, 16, a)
            &&& plain::n32(p, 24) == 1 + 20 * i
            &&& p[32] == 0x50
            &&& p[33] == 0x10
            &&& plain::balanced(plain::total(p.subrange(0, 20)))
            &&& plain::sound_v4(p, 20, 6)
        }),
{
    let p = native_tun::probe_segment(a, i);
    native_tun::law_probe_segments_valid(a, i);
    plain::lemma_header_sound(p.subrange(0, 20));
    plain::lemma_total(p.subrange(0, 20));
    plain::lemma_balanced(plain::total(p.subrange(0, 20)));
    let s = p.subrange(12, 16);
    let d = p.subrange(16, 20);
    let t = p.subrange(20, 60);
    plain::lemma_total(s);
    plain::lemma_total(d);
    plain::lemma_total(t);
    assert(checksum::even_part(s) =~= s);
    assert(checksum::even_part(d) =~= d);
    let sum = plain::total(s) + plain::total(d) + 6 + 40;
    checksum::lemma_fold_add(sum, plain::total(t));
    plain::lemma_balanced(sum + plain::total(t));
}

} // verus!
