//! What merging promises: the headers of a merged packet are in order, splitting
//! it gives back the packets that it was merged from, and a table that was reset
//! serves as a new one.
use vstd::prelude::*;

use crate::checksum;
use crate::gro;
use crate::gro::{CanCoalesce, GroResult, GroState, TcpGroItem, TcpGroTable, UdpGroItem, UdpGroTable};
use crate::gso;
use crate::gso::{GsoError, GsoOptions, GsoType, VIRTIO_NET_HDR_LEN};
use crate::wire;

verus! {

/// How a merged TCP packet is split.
pub open spec fn tcp_split_options(item: TcpGroItem, gso_size: u16) -> GsoOptions {
    GsoOptions {
        gso_type: if item.key.is_v6 {
            GsoType::TcpV6
        } else {
            GsoType::TcpV4
        },
        hdr_len: (item.iph_len + item.tcph_len) as u16,
        csum_start: item.iph_len as u16,
        csum_offset: 16,
        gso_size,
        needs_csum: true,
    }
}

/// How a merged UDP packet is split.
pub open spec fn udp_split_options(item: UdpGroItem) -> GsoOptions {
    GsoOptions {
        gso_type: GsoType::UdpL4,
        hdr_len: (item.iph_len + 8) as u16,
        csum_start: item.iph_len as u16,
        csum_offset: 6,
        gso_size: item.gso_size,
        needs_csum: true,
    }
}

/// The number of segments that a packet splits into.
pub open spec fn pieces(pkt: Seq<u8>, o: GsoOptions) -> int {
    gso::segment_count(pkt.len() - o.hdr_len, o.gso_size as int)
}

/// What follows the headers.
pub open spec fn behind_headers(pkt: Seq<u8>, o: GsoOptions) -> Seq<u8> {
    pkt.subrange(o.hdr_len as int, pkt.len() as int)
}

/// Payloads that fill whole segments and one more payload of at most a segment
/// split where they were joined.
proof fn lemma_appended_splits(held: Seq<u8>, merged: Seq<u8>, tail: Seq<u8>, o: GsoOptions)
    requires
        gso::ordinary_layout(held, o),
        gso::ordinary_layout(merged, o),
        held.len() > o.hdr_len,
        (held.len() - o.hdr_len) % (o.gso_size as int) == 0,
        0 < tail.len() <= o.gso_size,
        behind_headers(merged, o) == behind_headers(held, o) + tail,
    ensures
        pieces(merged, o) == pieces(held, o) + 1,
        pieces(held, o) >= 1,
        forall|i: int|
            0 <= i < pieces(held, o) ==> #[trigger] gso::segment_payload(merged, o, i)
                == gso::segment_payload(held, o, i),
        gso::segment_payload(merged, o, pieces(held, o)) == tail,
{
    let h = o.hdr_len as int;
    let g = o.gso_size as int;
    let p = held.len() - h;
    let q = tail.len() as int;
    let c = p / g;
    assert(behind_headers(merged, o).len() == p + q);
    assert(merged.len() == held.len() + q);
    vstd::arithmetic::div_mod::lemma_fundamental_div_mod(p, g);
    assert(p == c * g) by (nonlinear_arith)
        requires
            p == g * c,
    ;
    assert((c + 1) * g == c * g + g) by (nonlinear_arith);
    vstd::arithmetic::div_mod::lemma_fundamental_div_mod_converse(p + g - 1, g, c, g - 1);
    vstd::arithmetic::div_mod::lemma_fundamental_div_mod_converse(p + q + g - 1, g, c + 1, q - 1);
    assert(c >= 1) by (nonlinear_arith)
        requires
            p == c * g,
            p > 0,
            g > 0,
    ;
    assert(pieces(held, o) == c);
    assert(pieces(merged, o) == c + 1);
    assert forall|i: int| 0 <= i < pieces(held, o) implies #[trigger] gso::segment_payload(
        merged,
        o,
        i,
    ) == gso::segment_payload(held, o, i) by {
        gso::law_segment_payload(held, o, i);
        gso::law_segment_payload(merged, o, i);
        assert((i + 1) * g <= c * g) by (nonlinear_arith)
            requires
                i + 1 <= c,
                g > 0,
        ;
        assert((i + 1) * g == i * g + g) by (nonlinear_arith);
        assert(0 <= i * g) by (nonlinear_arith)
            requires
                0 <= i,
                g > 0,
        ;
        let from = gso::segment_start(o, i);
        assert(gso::segment_end(held.len() as int, o, i) == from + g);
        assert(gso::segment_end(merged.len() as int, o, i) == from + g);
        assert(merged.subrange(from, from + g) =~= behind_headers(merged, o).subrange(
            from - h,
            from - h + g,
        ));
        assert(held.subrange(from, from + g) =~= behind_headers(held, o).subrange(
            from - h,
            from - h + g,
        ));
        assert((behind_headers(held, o) + tail).subrange(from - h, from - h + g)
            =~= behind_headers(held, o).subrange(from - h, from - h + g));
    }
    gso::law_segment_payload(merged, o, c);
    assert(gso::segment_start(o, c) == held.len());
    assert(gso::segment_end(merged.len() as int, o, c) == merged.len());
    assert(merged.subrange(held.len() as int, merged.len() as int) =~= behind_headers(
        merged,
        o,
    ).subrange(p, p + q));
    assert((behind_headers(held, o) + tail).subrange(p, p + q) =~= tail);
}

/// A TCP packet that joined another from behind comes off again as the last
/// segment, and the segments in front of it are those of the other.
pub proof fn law_tcp_append_splits_back(
    new: TcpGroItem,
    item: TcpGroItem,
    bufs: Seq<Seq<u8>>,
    offset: int,
)
    requires
        0 <= offset,
        item.bufs_index < bufs.len(),
        new.bufs_index < bufs.len(),
        item.bufs_index != new.bufs_index,
        ({
            let o = tcp_split_options(item, item.gso_size);
            let held = gro::packet(bufs, offset, item.bufs_index as int);
            let came = gro::packet(bufs, offset, new.bufs_index as int);
            &&& 20 <= item.tcph_len <= 60
            &&& offset <= bufs[item.bufs_index as int].len()
            &&& offset <= bufs[new.bufs_index as int].len()
            &&& gso::ordinary_layout(held, o)
            &&& held.len() > o.hdr_len
            &&& came.len() > o.hdr_len
            &&& new.gso_size == came.len() - o.hdr_len
            &&& gro::tcp_direction(came, new, item, held) == CanCoalesce::Append
        }),
    ensures
        ({
            let o = tcp_split_options(item, item.gso_size);
            let held = gro::packet(bufs, offset, item.bufs_index as int);
            let came = gro::packet(bufs, offset, new.bufs_index as int);
            let after = gro::tcp_merged_bufs(CanCoalesce::Append, new, item, bufs, offset);
            let merged = gro::packet(after, offset, item.bufs_index as int);
            &&& pieces(merged, o) == pieces(held, o) + 1
            &&& forall|i: int|
                0 <= i < pieces(held, o) ==> #[trigger] gso::segment_payload(merged, o, i)
                    == gso::segment_payload(held, o, i)
            &&& gso::segment_payload(merged, o, pieces(held, o)) == behind_headers(came, o)
        }),
{
    let o = tcp_split_options(item, item.gso_size);
    let held = gro::packet(bufs, offset, item.bufs_index as int);
    let came = gro::packet(bufs, offset, new.bufs_index as int);
    let after = gro::tcp_merged_bufs(CanCoalesce::Append, new, item, bufs, offset);
    let merged = gro::packet(after, offset, item.bufs_index as int);
    gro::law_tcp_append_adds_payload(new, item, bufs, offset);
    assert(merged[0] == held[0]);
    lemma_appended_splits(held, merged, behind_headers(came, o), o);
}

/// A TCP packet that joined another from the front comes off again as the
/// first segment, and the segments behind it are those of the other.
pub proof fn law_tcp_prepend_splits_back(
    new: TcpGroItem,
    item: TcpGroItem,
    bufs: Seq<Seq<u8>>,
    offset: int,
)
    requires
        0 <= offset,
        item.bufs_index < bufs.len(),
        new.bufs_index < bufs.len(),
        item.bufs_index != new.bufs_index,
        ({
            let o = tcp_split_options(item, new.gso_size);
            let held = gro::packet(bufs, offset, item.bufs_index as int);
            let came = gro::packet(bufs, offset, new.bufs_index as int);
            &&& 20 <= item.tcph_len <= 60
            &&& offset <= bufs[item.bufs_index as int].len()
            &&& offset <= bufs[new.bufs_index as int].len()
            &&& gso::ordinary_layout(held, o)
            &&& gso::ordinary_layout(came, o)
            &&& held.len() > o.hdr_len
            &&& came.len() > o.hdr_len
            &&& new.gso_size == came.len() - o.hdr_len
        }),
    ensures
        ({
            let o = tcp_split_options(item, new.gso_size);
            let held = gro::packet(bufs, offset, item.bufs_index as int);
            let came = gro::packet(bufs, offset, new.bufs_index as int);
            let after = gro::tcp_merged_bufs(CanCoalesce::Prepend, new, item, bufs, offset);
            let merged = gro::packet(after, offset, item.bufs_index as int);
            &&& pieces(merged, o) == pieces(held, o) + 1
            &&& gso::segment_payload(merged, o, 0) == behind_headers(came, o)
            &&& forall|i: int|
                0 <= i < pieces(held, o) ==> #[trigger] gso::segment_payload(held, o, i)
                    == gso::segment_payload(merged, o, i + 1)
        }),
{
    let o = tcp_split_options(item, new.gso_size);
    let h = o.hdr_len as int;
    let g = o.gso_size as int;
    let held = gro::packet(bufs, offset, item.bufs_index as int);
    let came = gro::packet(bufs, offset, new.bufs_index as int);
    let after = gro::tcp_merged_bufs(CanCoalesce::Prepend, new, item, bufs, offset);
    let merged = gro::packet(after, offset, item.bufs_index as int);
    let p = held.len() - h;
    gro::law_tcp_prepend_adds_payload(new, item, bufs, offset);
    assert(merged == came + behind_headers(held, o));
    assert(merged.len() == h + g + p);
    assert(merged[0] == came[0]);
    let c = pieces(held, o);
    vstd::arithmetic::div_mod::lemma_fundamental_div_mod(p + g - 1, g);
    vstd::arithmetic::div_mod::lemma_mod_bound(p + g - 1, g);
    let r = (p + g - 1) % g;
    assert((c + 1) * g + r == p + g + g - 1) by (nonlinear_arith)
        requires
            p + g - 1 == g * c + r,
    ;
    vstd::arithmetic::div_mod::lemma_fundamental_div_mod_converse(p + g + g - 1, g, c + 1, r);
    assert(pieces(merged, o) == c + 1);
    assert(c >= 1) by (nonlinear_arith)
        requires
            p + g - 1 == g * c + r,
            r < g,
            p > 0,
            g > 0,
    ;
    gso::law_segment_payload(merged, o, 0);
    assert(gso::segment_start(o, 0) == h);
    assert(merged.subrange(h, h + g) =~= behind_headers(came, o));
    assert forall|i: int| 0 <= i < pieces(held, o) implies #[trigger] gso::segment_payload(
        held,
        o,
        i,
    ) == gso::segment_payload(merged, o, i + 1) by {
        gso::law_segment_payload(held, o, i);
        gso::law_segment_payload(merged, o, i + 1);
        assert((i + 1) * g == i * g + g) by (nonlinear_arith);
        assert(0 <= i * g) by (nonlinear_arith)
            requires
                0 <= i,
                g > 0,
        ;
        assert(i * g < p) by (nonlinear_arith)
            requires
                p + g - 1 == g * c + r,
                r < g,
                r >= 0,
                i <= c - 1,
                g > 0,
        ;
        let from = gso::segment_start(o, i);
        let to = gso::segment_end(held.len() as int, o, i);
        assert(gso::segment_start(o, i + 1) == from + g);
        assert(gso::segment_end(merged.len() as int, o, i + 1) == to + g);
        assert(merged.subrange(from + g, to + g) =~= held.subrange(from, to));
    }
}

/// A UDP packet that joined another comes off again as the last segment, and
/// the segments in front of it are those of the other.
pub proof fn law_udp_append_splits_back(
    new: UdpGroItem,
    item: UdpGroItem,
    bufs: Seq<Seq<u8>>,
    offset: int,
)
    requires
        0 <= offset,
        item.bufs_index < bufs.len(),
        new.bufs_index < bufs.len(),
        item.bufs_index != new.bufs_index,
        ({
            let o = udp_split_options(item);
            let held = gro::packet(bufs, offset, item.bufs_index as int);
            let came = gro::packet(bufs, offset, new.bufs_index as int);
            &&& offset <= bufs[item.bufs_index as int].len()
            &&& offset <= bufs[new.bufs_index as int].len()
            &&& new.iph_len == item.iph_len
            &&& gso::ordinary_layout(held, o)
            &&& held.len() > o.hdr_len
            &&& came.len() > o.hdr_len
            &&& new.gso_size == came.len() - o.hdr_len
            &&& gro::udp_direction(came, new, item, held) == CanCoalesce::Append
        }),
    ensures
        ({
            let o = udp_split_options(item);
            let held = gro::packet(bufs, offset, item.bufs_index as int);
            let came = gro::packet(bufs, offset, new.bufs_index as int);
            let after = gro::udp_merged_bufs(new, item, bufs, offset);
            let merged = gro::packet(after, offset, item.bufs_index as int);
            &&& pieces(merged, o) == pieces(held, o) + 1
            &&& forall|i: int|
                0 <= i < pieces(held, o) ==> #[trigger] gso::segment_payload(merged, o, i)
                    == gso::segment_payload(held, o, i)
            &&& gso::segment_payload(merged, o, pieces(held, o)) == behind_headers(came, o)
        }),
{
    let o = udp_split_options(item);
    let held = gro::packet(bufs, offset, item.bufs_index as int);
    let came = gro::packet(bufs, offset, new.bufs_index as int);
    let after = gro::udp_merged_bufs(new, item, bufs, offset);
    let merged = gro::packet(after, offset, item.bufs_index as int);
    assert(merged =~= held + behind_headers(came, o));
    assert(merged[0] == held[0]);
    assert(behind_headers(merged, o) =~= behind_headers(held, o) + behind_headers(came, o));
    lemma_appended_splits(held, merged, behind_headers(came, o), o);
}

/// The IP header of a packet tells the packet's length, and for IPv4 its
/// checksum is valid.
pub open spec fn ip_header_in_order(pkt: Seq<u8>, is_v6: bool) -> bool {
    if is_v6 {
        wire::be16(pkt, 4) == pkt.len() - 40
    } else {
        &&& wire::be16(pkt, 2) == pkt.len()
        &&& checksum::ones_fold(checksum::word_sum(pkt.subrange(0, 20))) == 65535
    }
}

/// The transport checksum field at `at` holds the sum of the pseudo header, so
/// that whoever adds the rest completes the checksum.
pub open spec fn pseudo_sum_in_place(pkt: Seq<u8>, proto: int, is_v6: bool, at: int) -> bool {
    let src = if is_v6 {
        8int
    } else {
        12int
    };
    let n = if is_v6 {
        16int
    } else {
        4int
    };
    wire::be16(pkt, at) == checksum::pseudo_sum(
        proto,
        pkt.subrange(src, src + n),
        pkt.subrange(src + n, src + 2 * n),
        pkt.len() - gro::ip_len(is_v6),
    )
}

proof fn lemma_ip_length(b: Seq<u8>, offset: int, is_v6: bool)
    requires
        0 <= offset,
        offset + gro::ip_len(is_v6) <= b.len(),
        b.len() - offset <= 65535,
    ensures
        ({
            let w = gro::with_ip_length(b, offset, is_v6);
            &&& w.len() == b.len()
            &&& ip_header_in_order(w.subrange(offset, w.len() as int), is_v6)
            &&& forall|k: int|
                0 <= k < b.len() && !(offset <= k < offset + 12) ==> #[trigger] w[k] == b[k]
        }),
{
    let n = b.len() - offset;
    let w = gro::with_ip_length(b, offset, is_v6);
    let pkt = w.subrange(offset, w.len() as int);
    if is_v6 {
        wire::lemma_put16(b, offset + 4, n - 40);
        assert(wire::be16(pkt, 4) == wire::be16(w, offset + 4));
    } else {
        let cleared = wire::put16(b, offset + 10, 0);
        wire::lemma_put16(b, offset + 10, 0);
        wire::lemma_put16(cleared, offset + 2, n);
        let sized = wire::put16(cleared, offset + 2, n);
        let head = sized.subrange(offset, offset + 20);
        let sum = checksum::ones_not(checksum::ones_fold(checksum::word_sum(head)));
        checksum::lemma_word_sum_nonneg(head);
        checksum::law_complement_makes_sum_valid(checksum::word_sum(head));
        wire::lemma_put16(sized, offset + 10, sum);
        checksum::lemma_word_sum_put16(head, 10, sum);
        assert(wire::be16(head, 10) == 0);
        assert(pkt.subrange(0, 20) =~= wire::put16(head, 10, sum));
        assert(wire::be16(pkt, 2) == wire::be16(sized, offset + 2));
    }
}

proof fn lemma_pseudo_sum(b: Seq<u8>, offset: int, proto: int, is_v6: bool, at: int)
    requires
        0 <= offset,
        offset + gro::ip_len(is_v6) <= at,
        at + 2 <= b.len(),
        b.len() - offset <= 65535,
        0 <= proto,
    ensures
        ({
            let w = gro::with_pseudo_sum(b, offset, proto, is_v6, at);
            &&& w.len() == b.len()
            &&& pseudo_sum_in_place(w.subrange(offset, w.len() as int), proto, is_v6, at - offset)
            &&& forall|k: int|
                0 <= k < b.len() && !(at <= k < at + 2) ==> #[trigger] w[k] == b[k]
        }),
{
    let src = if is_v6 {
        8int
    } else {
        12int
    };
    let n = if is_v6 {
        16int
    } else {
        4int
    };
    let from = b.subrange(offset + src, offset + src + n);
    let to = b.subrange(offset + src + n, offset + src + 2 * n);
    let length = b.len() - offset - gro::ip_len(is_v6);
    let sum = checksum::pseudo_sum(proto, from, to, length);
    let w = gro::with_pseudo_sum(b, offset, proto, is_v6, at);
    let pkt = w.subrange(offset, w.len() as int);
    wire::lemma_put16(b, at, sum);
    assert(pkt.subrange(src, src + n) =~= from);
    assert(pkt.subrange(src + n, src + 2 * n) =~= to);
    assert(wire::be16(pkt, at - offset) == wire::be16(w, at));
}

/// A merged TCP packet is written with its headers in order: the virtio header
/// tells how to split it, the IP header tells its length, its checksum is
/// valid, the TCP checksum is left to be completed, and what follows the
/// checksum is what was merged.
pub proof fn law_tcp_written_in_order(
    b: Seq<u8>,
    offset: int,
    item: TcpGroItem,
    little: bool,
)
    requires
        VIRTIO_NET_HDR_LEN <= offset,
        item.num_merged > 0,
        item.iph_len == gro::ip_len(item.key.is_v6),
        20 <= item.tcph_len <= 60,
        offset + item.iph_len + item.tcph_len <= b.len(),
        b.len() - offset <= 65535,
    ensures
        ({
            let w = gro::tcp_accounted(b, offset, item, little);
            let pkt = w.subrange(offset, w.len() as int);
            let at = item.iph_len + 16;
            &&& w.len() == b.len()
            &&& w.subrange(offset - VIRTIO_NET_HDR_LEN, offset) == gso::hdr_bytes(
                gro::tcp_gso_hdr(item),
                little,
            )
            &&& ip_header_in_order(pkt, item.key.is_v6)
            &&& pseudo_sum_in_place(pkt, 6, item.key.is_v6, at)
            &&& forall|k: int|
                12 <= k < pkt.len() && k != at && k != at + 1 ==> #[trigger] pkt[k] == b[offset + k]
        }),
{
    let v6 = item.key.is_v6;
    let headed = gro::with_virtio_hdr(b, offset, gro::tcp_gso_hdr(item), little);
    let sized = gro::with_ip_length(headed, offset, v6);
    let at = offset + item.iph_len + 16;
    let w = gro::tcp_accounted(b, offset, item, little);
    lemma_ip_length(headed, offset, v6);
    lemma_pseudo_sum(sized, offset, 6, v6, at);
    let hdr = gso::hdr_bytes(gro::tcp_gso_hdr(item), little);
    lemma_written(b, headed, sized, w, offset, v6, at, hdr);
}

/// Filling in the transport checksum leaves the headers in front of it alone.
proof fn lemma_written(
    b: Seq<u8>,
    headed: Seq<u8>,
    sized: Seq<u8>,
    w: Seq<u8>,
    offset: int,
    is_v6: bool,
    at: int,
    hdr: Seq<u8>,
)
    requires
        VIRTIO_NET_HDR_LEN <= offset,
        hdr.len() == VIRTIO_NET_HDR_LEN,
        headed == wire::splice(b, offset - VIRTIO_NET_HDR_LEN, hdr),
        offset + gro::ip_len(is_v6) <= at,
        at + 2 <= b.len(),
        sized.len() == b.len(),
        w.len() == b.len(),
        ip_header_in_order(sized.subrange(offset, sized.len() as int), is_v6),
        forall|k: int|
            0 <= k < b.len() && !(offset <= k < offset + 12) ==> #[trigger] sized[k] == headed[k],
        forall|k: int| 0 <= k < b.len() && !(at <= k < at + 2) ==> #[trigger] w[k] == sized[k],
    ensures
        w.subrange(offset - VIRTIO_NET_HDR_LEN, offset) == hdr,
        ip_header_in_order(w.subrange(offset, w.len() as int), is_v6),
        forall|k: int|
            12 <= k < w.len() - offset && k != at - offset && k != at - offset + 1
                ==> #[trigger] w.subrange(offset, w.len() as int)[k] == b[offset + k],
{
    let pkt = w.subrange(offset, w.len() as int);
    let before = sized.subrange(offset, sized.len() as int);
    assert(w.subrange(offset - VIRTIO_NET_HDR_LEN, offset) =~= hdr);
    if is_v6 {
        assert(pkt[4] == before[4]);
        assert(pkt[5] == before[5]);
    } else {
        assert(pkt[2] == before[2]);
        assert(pkt[3] == before[3]);
        assert(pkt.subrange(0, 20) =~= before.subrange(0, 20));
    }
}

/// A merged UDP packet is written with its headers in order: as for TCP, and
/// the UDP header tells the length of what follows the IP header.
pub proof fn law_udp_written_in_order(
    b: Seq<u8>,
    offset: int,
    item: UdpGroItem,
    little: bool,
)
    requires
        VIRTIO_NET_HDR_LEN <= offset,
        item.num_merged > 0,
        item.iph_len == gro::ip_len(item.key.is_v6),
        offset + item.iph_len + 8 <= b.len(),
        b.len() - offset <= 65535,
    ensures
        ({
            let w = gro::udp_accounted(b, offset, item, little);
            let pkt = w.subrange(offset, w.len() as int);
            let at = item.iph_len + 6;
            &&& w.len() == b.len()
            &&& w.subrange(offset - VIRTIO_NET_HDR_LEN, offset) == gso::hdr_bytes(
                gro::udp_gso_hdr(item),
                little,
            )
            &&& ip_header_in_order(pkt, item.key.is_v6)
            &&& wire::be16(pkt, item.iph_len + 4) == pkt.len() - item.iph_len
            &&& pseudo_sum_in_place(pkt, 17, item.key.is_v6, at)
            &&& forall|k: int|
                item.iph_len + 8 <= k < pkt.len() ==> #[trigger] pkt[k] == b[offset + k]
        }),
{
    let v6 = item.key.is_v6;
    let hdr = gso::hdr_bytes(gro::udp_gso_hdr(item), little);
    let headed = gro::with_virtio_hdr(b, offset, gro::udp_gso_hdr(item), little);
    let sized = gro::with_ip_length(headed, offset, v6);
    let long = wire::put16(
        sized,
        offset + item.iph_len + 4,
        (sized.len() - offset - item.iph_len) % 65536,
    );
    let at = offset + item.iph_len + 6;
    let w = gro::udp_accounted(b, offset, item, little);
    lemma_ip_length(headed, offset, v6);
    wire::lemma_put16(
        sized,
        offset + item.iph_len + 4,
        (sized.len() - offset - item.iph_len) % 65536,
    );
    lemma_pseudo_sum(long, offset, 17, v6, at);
    lemma_written(b, headed, sized, long, offset, v6, at - 2, hdr);
    let pkt = w.subrange(offset, w.len() as int);
    let before = long.subrange(offset, long.len() as int);
    assert(w.subrange(offset - VIRTIO_NET_HDR_LEN, offset) =~= hdr) by {
        assert(forall|k: int| 0 <= k < offset ==> #[trigger] w[k] == long[k]);
        assert(long.subrange(offset - VIRTIO_NET_HDR_LEN, offset) =~= w.subrange(
            offset - VIRTIO_NET_HDR_LEN,
            offset,
        ));
    }
    if v6 {
        assert(pkt[4] == before[4]);
        assert(pkt[5] == before[5]);
    } else {
        assert(pkt[2] == before[2]);
        assert(pkt[3] == before[3]);
        assert(pkt.subrange(0, 20) =~= before.subrange(0, 20));
    }
    assert(wire::be16(pkt, item.iph_len + 4) == wire::be16(long, offset + item.iph_len + 4));
}

/// What merging makes of a batch is determined by the buffers, their
/// capacities, the tables, the list to be written, the offset, what may be
/// merged and the byte order.
pub proof fn law_merging_is_determined(
    st: GroState,
    offset: int,
    tcp: bool,
    udp: bool,
    little: bool,
    r1: Result<(), GsoError>,
    end1: GroState,
    r2: Result<(), GsoError>,
    end2: GroState,
)
    requires
        gro::gro_outcome(st, offset, tcp, udp, little, r1, end1),
        gro::gro_outcome(st, offset, tcp, udp, little, r2, end2),
    ensures
        r1 == r2,
        end1.bufs == end2.bufs,
        end1.tcp == end2.tcp,
        end1.udp == end2.udp,
        end1.to_write == end2.to_write,
{
    if r1 is Err {
        let n = choose|n: int|
            #![trigger gro::gro_run(st, offset, tcp, udp, n)]
            {
                &&& 0 <= n < st.bufs.len()
                &&& !gro::offset_fits(st.bufs, offset, n)
                &&& forall|k: int| 0 <= k < n ==> #[trigger] gro::offset_fits(st.bufs, offset, k)
                &&& end1.bufs == gro::gro_run(st, offset, tcp, udp, n).bufs
                &&& end1.tcp == gro::gro_run(st, offset, tcp, udp, n).tcp
                &&& end1.udp == gro::gro_run(st, offset, tcp, udp, n).udp
                &&& end1.to_write == gro::gro_run(st, offset, tcp, udp, n).to_write
            };
        assert(!gro::offset_fits(st.bufs, offset, n));
    }
    if r1 is Ok && r2 is Ok {
        assert(r1->Ok_0 == () && r2->Ok_0 == ());
    }
}

/// A TCP table that was reset serves as a new one: on the same buffers and the
/// same UDP table, merging with either gives the same result, the same buffers
/// and the same list to be written.
pub proof fn law_reset_tcp_table_is_new(
    after_reset: TcpGroTable,
    fresh: TcpGroTable,
    udp_table: UdpGroTable,
    bufs: Seq<Vec<u8>>,
    caps: Seq<usize>,
    to_write: Seq<usize>,
    offset: int,
    tcp: bool,
    udp: bool,
    little: bool,
    r1: Result<(), GsoError>,
    end1: GroState,
    r2: Result<(), GsoError>,
    end2: GroState,
)
    requires
        after_reset.holds_nothing(),
        fresh.holds_nothing(),
        gro::gro_outcome(
            gro::state_of(bufs, caps, after_reset.items@, udp_table.items@, to_write),
            offset,
            tcp,
            udp,
            little,
            r1,
            end1,
        ),
        gro::gro_outcome(
            gro::state_of(bufs, caps, fresh.items@, udp_table.items@, to_write),
            offset,
            tcp,
            udp,
            little,
            r2,
            end2,
        ),
    ensures
        r1 == r2,
        end1.bufs == end2.bufs,
        end1.to_write == end2.to_write,
        end1.tcp == end2.tcp,
        end1.udp == end2.udp,
{
    let st = gro::state_of(bufs, caps, fresh.items@, udp_table.items@, to_write);
    assert(after_reset.items@ =~= fresh.items@);
    law_merging_is_determined(st, offset, tcp, udp, little, r1, end1, r2, end2);
}

/// A UDP table that was reset serves as a new one, as for TCP.
pub proof fn law_reset_udp_table_is_new(
    after_reset: UdpGroTable,
    fresh: UdpGroTable,
    tcp_table: TcpGroTable,
    bufs: Seq<Vec<u8>>,
    caps: Seq<usize>,
    to_write: Seq<usize>,
    offset: int,
    tcp: bool,
    udp: bool,
    little: bool,
    r1: Result<(), GsoError>,
    end1: GroState,
    r2: Result<(), GsoError>,
    end2: GroState,
)
    requires
        after_reset.holds_nothing(),
        fresh.holds_nothing(),
        gro::gro_outcome(
            gro::state_of(bufs, caps, tcp_table.items@, after_reset.items@, to_write),
            offset,
            tcp,
            udp,
            little,
            r1,
            end1,
        ),
        gro::gro_outcome(
            gro::state_of(bufs, caps, tcp_table.items@, fresh.items@, to_write),
            offset,
            tcp,
            udp,
            little,
            r2,
            end2,
        ),
    ensures
        r1 == r2,
        end1.bufs == end2.bufs,
        end1.to_write == end2.to_write,
        end1.tcp == end2.tcp,
        end1.udp == end2.udp,
{
    let st = gro::state_of(bufs, caps, tcp_table.items@, fresh.items@, to_write);
    assert(after_reset.items@ =~= fresh.items@);
    law_merging_is_determined(st, offset, tcp, udp, little, r1, end1, r2, end2);
}

/// Merging fails exactly where the offset does not fit some buffer.
pub proof fn law_merging_fails_on_bad_offset(
    st: GroState,
    offset: int,
    tcp: bool,
    udp: bool,
    little: bool,
    r: Result<(), GsoError>,
    end: GroState,
)
    requires
        gro::gro_outcome(st, offset, tcp, udp, little, r, end),
    ensures
        r is Err <==> exists|k: int|
            0 <= k < st.bufs.len() && !#[trigger] gro::offset_fits(st.bufs, offset, k),
        r is Err ==> r == Err::<(), GsoError>(GsoError::InvalidOffset),
{
}

/// A packet is listed to be written, in the order of the batch, exactly where
/// it was not merged into an earlier one.
pub proof fn law_unlisted_packets_were_merged(
    st: GroState,
    offset: int,
    tcp: bool,
    udp: bool,
    n: int,
    i: int,
)
    requires
        0 <= i < n <= usize::MAX,
    ensures
        ({
            let added = gro::gro_run(
                (GroState { to_write: Seq::empty(), ..st }),
                offset,
                tcp,
                udp,
                n,
            ).to_write;
            let before = gro::gro_run(st, offset, tcp, udp, i);
            &&& gro::gro_run(st, offset, tcp, udp, n).to_write == st.to_write + added
            &&& added.contains(i as usize) <==> gro::gro_look(before, offset, tcp, udp, i).0
                != GroResult::Coalesced
        }),
    decreases n,
{
    let bare = GroState { to_write: Seq::empty(), ..st };
    gro::lemma_run_appends(st, offset, tcp, udp, n);
    gro::lemma_run_appends(st, offset, tcp, udp, n - 1);
    let e = gro::gro_run(bare, offset, tcp, udp, n - 1);
    let full = gro::gro_run(st, offset, tcp, udp, n - 1);
    let added = gro::gro_run(bare, offset, tcp, udp, n).to_write;
    gro::lemma_look_any_list(e, offset, tcp, udp, n - 1, full.to_write);
    gro::lemma_look_any_list(e, offset, tcp, udp, n - 1, e.to_write);
    let last = (n - 1) as usize;
    let result = gro::gro_look(e, offset, tcp, udp, n - 1).0;
    assert(added == (if result == GroResult::Coalesced {
        e.to_write
    } else {
        e.to_write.push(last)
    }));
    if result != GroResult::Coalesced {
        assert(added[e.to_write.len() as int] == last);
        assert forall|x: usize| e.to_write.contains(x) implies added.contains(x) by {
            let j = choose|j: int| 0 <= j < e.to_write.len() && e.to_write[j] == x;
            assert(added[j] == x);
        }
        assert forall|x: usize| added.contains(x) && x != last implies e.to_write.contains(x) by {
            let j = choose|j: int| 0 <= j < added.len() && added[j] == x;
            assert(e.to_write[j] == x);
        }
    }
    if i < n - 1 {
        law_unlisted_packets_were_merged(st, offset, tcp, udp, n - 1, i);
    } else {
        lemma_run_lists_below(bare, offset, tcp, udp, n - 1);
    }
}

/// Only packets that were looked at are listed.
proof fn lemma_run_lists_below(st: GroState, offset: int, tcp: bool, udp: bool, n: int)
    requires
        st.to_write.len() == 0,
        0 <= n <= usize::MAX,
    ensures
        forall|x: usize| gro::gro_run(st, offset, tcp, udp, n).to_write.contains(x) ==> x < n,
    decreases n,
{
    if n > 0 {
        lemma_run_lists_below(st, offset, tcp, udp, n - 1);
        let e = gro::gro_run(st, offset, tcp, udp, n - 1);
        gro::lemma_look_any_list(e, offset, tcp, udp, n - 1, e.to_write);
        let added = gro::gro_run(st, offset, tcp, udp, n).to_write;
        let last = (n - 1) as usize;
        assert forall|x: usize| added.contains(x) implies x < n by {
            let j = choose|j: int| 0 <= j < added.len() && added[j] == x;
            if j < e.to_write.len() {
                assert(e.to_write[j] == x);
                assert(e.to_write.contains(x));
            }
        }
    }
}

/// With merging switched off every packet of a batch passes: all are listed in
/// their order behind what was listed before, each gets a header of zeros,
/// nothing else of any buffer changes, and the tables stay empty.
pub proof fn law_without_merging_all_pass(
    st: GroState,
    offset: int,
    little: bool,
    r: Result<(), GsoError>,
    end: GroState,
)
    requires
        st.tcp.len() == 0,
        st.udp.len() == 0,
        st.bufs.len() <= usize::MAX,
        forall|k: int| 0 <= k < st.bufs.len() ==> #[trigger] gro::offset_fits(st.bufs, offset, k),
        gro::gro_outcome(st, offset, false, false, little, r, end),
    ensures
        r is Ok,
        end.bufs.len() == st.bufs.len(),
        forall|k: int|
            0 <= k < st.bufs.len() ==> #[trigger] end.bufs[k] == gro::with_empty_hdr(
                st.bufs[k],
                offset,
            ),
        end.to_write == st.to_write + Seq::new(st.bufs.len(), |k: int| k as usize),
        end.tcp.len() == 0,
        end.udp.len() == 0,
{
    if r is Err {
        let k = choose|k: int|
            0 <= k < st.bufs.len() && !#[trigger] gro::offset_fits(st.bufs, offset, k);
        assert(gro::offset_fits(st.bufs, offset, k));
    }
    lemma_all_pass(st, offset, st.bufs.len() as int);
}

proof fn lemma_all_pass(st: GroState, offset: int, n: int)
    requires
        st.tcp.len() == 0,
        st.udp.len() == 0,
        0 <= n <= st.bufs.len() <= usize::MAX,
    ensures
        ({
            let end = gro::gro_run(st, offset, false, false, n);
            &&& end.bufs.len() == st.bufs.len()
            &&& forall|k: int|
                0 <= k < st.bufs.len() ==> #[trigger] end.bufs[k] == (if k < n {
                    gro::with_empty_hdr(st.bufs[k], offset)
                } else {
                    st.bufs[k]
                })
            &&& end.to_write == st.to_write + Seq::new(n as nat, |k: int| k as usize)
            &&& end.tcp.len() == 0
            &&& end.udp.len() == 0
        }),
    decreases n,
{
    if n > 0 {
        lemma_all_pass(st, offset, n - 1);
        reveal(gro::gro_look);
        let before = gro::gro_run(st, offset, false, false, n - 1);
        let end = gro::gro_run(st, offset, false, false, n);
        assert(end.to_write =~= before.to_write.push((n - 1) as usize));
    }
    assert(gro::gro_run(st, offset, false, false, n).to_write =~= st.to_write + Seq::new(
        n as nat,
        |k: int| k as usize,
    ));
}

} // verus!
