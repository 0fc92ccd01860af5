//! Packets larger than the tunnel takes: they are fragmented, or their sender
//! is told the size that fits.
use vstd::arithmetic::div_mod;
use vstd::prelude::*;

use crate::checksum;
use crate::checksum::{internet_checksum, pseudo_checksum_v6};
use crate::wire;
use crate::wire::{copy_at, get_be16, set_be16, set_be32, sub_vec, zero_vec};

verus! {

/// Every IPv4 link carries at least this much.
pub const IPV4_MINIMUM_MTU: usize = 68;

/// Every IPv6 link carries at least this much.
pub const IPV6_MINIMUM_MTU: usize = 1280;

/// The time to live of messages made here.
pub const SYNTHESIZED_TTL: u8 = 64;

/// How many payload bytes a fragment takes: what the MTU leaves beside the
/// header, rounded down to a multiple of eight.
pub open spec fn fragment_room(mtu: int, ihl: int) -> int {
    if mtu <= ihl {
        0
    } else {
        (mtu - ihl) / 8 * 8
    }
}

/// The packet has a header and something behind it, and the MTU leaves room
/// for a fragment.
pub open spec fn can_fragment(pkt: Seq<u8>, mtu: int) -> bool {
    let ihl = checksum::header_len(pkt);
    &&& pkt.len() >= 20
    &&& 20 <= ihl < pkt.len()
    &&& fragment_room(mtu, ihl) > 0
}

/// The number of fragments.
pub open spec fn fragment_count(pkt: Seq<u8>, mtu: int) -> int {
    let ihl = checksum::header_len(pkt);
    let room = fragment_room(mtu, ihl);
    (pkt.len() - ihl + room - 1) / room
}

/// Where the payload of fragment `k` starts within that of the packet.
pub open spec fn fragment_start(pkt: Seq<u8>, mtu: int, k: int) -> int {
    k * fragment_room(mtu, checksum::header_len(pkt))
}

/// Where it ends.
pub open spec fn fragment_end(pkt: Seq<u8>, mtu: int, k: int) -> int {
    let room = fragment_room(mtu, checksum::header_len(pkt));
    let payload = pkt.len() - checksum::header_len(pkt);
    if fragment_start(pkt, mtu, k) + room < payload {
        fragment_start(pkt, mtu, k) + room
    } else {
        payload
    }
}

/// The flags and offset of a fragment that starts at `start`: those of the
/// packet, the offset moved on, and "more fragments" set if the packet had it
/// or this is not the last one.
pub open spec fn fragment_field(field: int, start: int, last: bool) -> int {
    let flags = field / 0x2000;
    let more = if flags % 2 == 1 || !last {
        1int
    } else {
        0int
    };
    (flags - flags % 2 + more) * 0x2000 + (field % 0x2000 + start % 65536 / 8) % 0x2000
}

/// Fragment `k`, with a header checksum of its own.
pub open spec fn fragment(pkt: Seq<u8>, mtu: int, k: int) -> Seq<u8> {
    let ihl = checksum::header_len(pkt);
    let start = fragment_start(pkt, mtu, k);
    let end = fragment_end(pkt, mtu, k);
    let cut = pkt.subrange(0, ihl) + pkt.subrange(ihl + start, ihl + end);
    let placed = wire::put16(
        cut,
        6,
        fragment_field(wire::be16(pkt, 6), start, end == pkt.len() - ihl),
    );
    let sized = wire::put16(wire::put16(placed, 2, cut.len() as int % 65536), 10, 0);
    wire::put16(sized, 10, checksum::internet_sum(sized.subrange(0, ihl)))
}

/// All fragments of a packet, in order.
pub open spec fn fragments(pkt: Seq<u8>, mtu: int) -> Seq<Seq<u8>> {
    Seq::new(fragment_count(pkt, mtu) as nat, |k: int| fragment(pkt, mtu, k))
}

/// A list of packets, where there is one.
pub open spec fn list_view(r: Option<Vec<Vec<u8>>>) -> Option<Seq<Seq<u8>>> {
    match r {
        Some(v) => Some(wire::views(v@)),
        None => None,
    }
}

proof fn lemma_fragment_count(payload: int, room: int, k: int)
    requires
        payload > 0,
        room > 0,
        k >= 0,
    ensures
        (k * room < payload) == (k < (payload + room - 1) / room),
{
    let c = (payload + room - 1) / room;
    div_mod::lemma_fundamental_div_mod(payload + room - 1, room);
    div_mod::lemma_mod_bound(payload + room - 1, room);
    assert(room * c == c * room) by (nonlinear_arith);
    if k < c {
        assert(k * room <= (c - 1) * room) by (nonlinear_arith)
            requires
                k <= c - 1,
                room > 0,
        ;
        assert((c - 1) * room == c * room - room) by (nonlinear_arith);
    } else {
        assert(k * room >= c * room) by (nonlinear_arith)
            requires
                k >= c,
                room > 0,
        ;
    }
}

/// Cuts an IPv4 packet into fragments that the MTU takes, or `None` where it
/// has no usable header, no payload, or the MTU leaves no room.
pub fn fragment_ipv4_packet(pkt: &[u8], mtu: usize) -> (r: Option<Vec<Vec<u8>>>)
    ensures
        list_view(r) == (if can_fragment(pkt@, mtu as int) {
            Some(fragments(pkt@, mtu as int))
        } else {
            None
        }),
{
    if pkt.len() < 20 {
        return None;
    }
    let ihl: usize = (pkt[0] % 16) as usize * 4;
    if ihl < 20 || ihl >= pkt.len() {
        return None;
    }
    let payload: usize = pkt.len() - ihl;
    let room: usize = if mtu <= ihl {
        0
    } else {
        (mtu - ihl) / 8 * 8
    };
    if room == 0 {
        return None;
    }
    let field: u16 = get_be16(pkt, 6);
    let mut list: Vec<Vec<u8>> = Vec::new();
    let mut start: usize = 0;
    let ghost n = fragment_count(pkt@, mtu as int);
    proof {
        lemma_fragment_count(payload as int, room as int, 0);
    }
    while start < payload
        invariant
            can_fragment(pkt@, mtu as int),
            ihl == checksum::header_len(pkt@),
            payload == pkt.len() - ihl,
            room == fragment_room(mtu as int, ihl as int),
            room > 0,
            payload > 0,
            field == wire::be16(pkt@, 6),
            n == fragment_count(pkt@, mtu as int),
            list@.len() <= n,
            start == (if list@.len() < n {
                fragment_start(pkt@, mtu as int, list@.len() as int)
            } else {
                payload as int
            }),
            forall|j: int|
                0 <= j < list@.len() ==> (#[trigger] list@[j])@ == fragment(pkt@, mtu as int, j),
        decreases payload - start,
    {
        let ghost k = list@.len() as int;
        let end: usize = if payload - start > room {
            start + room
        } else {
            payload
        };
        assert(end == fragment_end(pkt@, mtu as int, k));
        let mut frag: Vec<u8> = sub_vec(pkt, 0, ihl);
        let mut tail: Vec<u8> = sub_vec(pkt, ihl + start, ihl + end);
        frag.append(&mut tail);
        let flags: u16 = field / 0x2000;
        let more: u16 = if flags % 2 == 1 || end < payload {
            1
        } else {
            0
        };
        let offset: u16 = (field % 0x2000 + (start % 65536) as u16 / 8) % 0x2000;
        let placed: u16 = (flags - flags % 2 + more) * 0x2000 + offset;
        let total: u16 = (frag.len() % 65536) as u16;
        set_be16(frag.as_mut_slice(), 6, placed);
        set_be16(frag.as_mut_slice(), 2, total);
        set_be16(frag.as_mut_slice(), 10, 0);
        let sum: u16 = internet_checksum(&frag.as_slice()[0..ihl]);
        set_be16(frag.as_mut_slice(), 10, sum);
        assert(frag@ == fragment(pkt@, mtu as int, k));
        list.push(frag);
        proof {
            lemma_fragment_count(payload as int, room as int, k);
            lemma_fragment_count(payload as int, room as int, k + 1);
            assert((k + 1) * room == k * room + room) by (nonlinear_arith);
        }
        start = end;
    }
    proof {
        lemma_fragment_count(payload as int, room as int, list@.len() as int);
    }
    assert(wire::views(list@) =~= fragments(pkt@, mtu as int));
    Some(list)
}

/// The smaller of two numbers.
pub open spec fn min(a: int, b: int) -> int {
    if a < b {
        a
    } else {
        b
    }
}

/// The larger of two numbers.
pub open spec fn max(a: int, b: int) -> int {
    if a > b {
        a
    } else {
        b
    }
}

/// The ICMP message that tells the sender of `orig` that it is too large:
/// destination unreachable, fragmentation needed. It comes from where `orig`
/// was going and quotes at most 548 bytes of it.
pub open spec fn fragmentation_needed(orig: Seq<u8>, mtu: int) -> Seq<u8> {
    let quoted = min(orig.len() as int, 548);
    let size = 28 + quoted;
    let header = seq![
        0x45u8,
        0,
        (size / 256) as u8,
        (size % 256) as u8,
        0,
        0,
        0,
        0,
        64,
        1,
        0,
        0,
    ] + orig.subrange(16, 20) + orig.subrange(12, 16);
    let advertised = min(max(mtu, 68), 0xffff);
    let message = seq![
        3u8,
        4,
        0,
        0,
        0,
        0,
        (advertised / 256) as u8,
        (advertised % 256) as u8,
    ] + orig.subrange(0, quoted);
    wire::put16(header, 10, checksum::internet_sum(header)) + wire::put16(
        message,
        2,
        checksum::internet_sum(message),
    )
}

/// The message can be made: there is a header and the eight bytes behind it
/// that the message has to quote.
pub open spec fn can_report_v4(orig: Seq<u8>) -> bool {
    let ihl = checksum::header_len(orig);
    orig.len() >= 20 && ihl >= 20 && orig.len() >= ihl + 8
}

pub open spec fn bytes_view(r: Option<Vec<u8>>) -> Option<Seq<u8>> {
    match r {
        Some(v) => Some(v@),
        None => None,
    }
}

/// Tells the sender of an IPv4 packet that it is too large.
pub fn build_fragmentation_needed(orig: &[u8], mtu: usize) -> (r: Option<Vec<u8>>)
    ensures
        bytes_view(r) == (if can_report_v4(orig@) {
            Some(fragmentation_needed(orig@, mtu as int))
        } else {
            None
        }),
{
    if orig.len() < 20 {
        return None;
    }
    let ihl: usize = (orig[0] % 16) as usize * 4;
    if ihl < 20 || orig.len() < ihl + 8 {
        return None;
    }
    let advertised: u16 = if mtu < IPV4_MINIMUM_MTU {
        68
    } else if mtu > 0xffff {
        0xffff
    } else {
        mtu as u16
    };
    let quoted: usize = if orig.len() < 548 {
        orig.len()
    } else {
        548
    };
    let size: usize = 28 + quoted;
    let mut pkt: Vec<u8> = zero_vec(size);
    pkt.set(0, 0x45);
    set_be16(pkt.as_mut_slice(), 2, size as u16);
    pkt.set(8, SYNTHESIZED_TTL);
    pkt.set(9, 1);
    copy_at(pkt.as_mut_slice(), 12, &orig[16..20]);
    copy_at(pkt.as_mut_slice(), 16, &orig[12..16]);
    pkt.set(20, 3);
    pkt.set(21, 4);
    set_be16(pkt.as_mut_slice(), 26, advertised);
    copy_at(pkt.as_mut_slice(), 28, &orig[0..quoted]);
    let ghost header = seq![
        0x45u8,
        0,
        (size / 256) as u8,
        (size % 256) as u8,
        0,
        0,
        0,
        0,
        64,
        1,
        0,
        0,
    ] + orig@.subrange(16, 20) + orig@.subrange(12, 16);
    let ghost message = seq![
        3u8,
        4,
        0,
        0,
        0,
        0,
        (advertised / 256) as u8,
        (advertised % 256) as u8,
    ] + orig@.subrange(0, quoted as int);
    assert(pkt@ =~= header + message);
    assert(pkt@.subrange(0, 20) =~= header);
    let sum: u16 = internet_checksum(&pkt.as_slice()[0..20]);
    set_be16(pkt.as_mut_slice(), 10, sum);
    assert(pkt@ =~= wire::put16(header, 10, sum as int) + message);
    assert(pkt@.subrange(20, size as int) =~= message);
    let sum2: u16 = internet_checksum(&pkt.as_slice()[20..size]);
    set_be16(pkt.as_mut_slice(), 22, sum2);
    assert(pkt@ =~= wire::put16(header, 10, sum as int) + wire::put16(message, 2, sum2 as int));
    Some(pkt)
}

/// The ICMPv6 message that tells the sender of `orig` that it is too large. It
/// quotes at most 1232 bytes of it.
pub open spec fn packet_too_big(orig: Seq<u8>, mtu: int) -> Seq<u8> {
    let quoted = min(orig.len() as int, 1232);
    let length = 8 + quoted;
    let header = seq![
        0x60u8,
        0,
        0,
        0,
        (length / 256) as u8,
        (length % 256) as u8,
        58,
        64,
    ] + orig.subrange(24, 40) + orig.subrange(8, 24);
    let message = wire::put32(seq![2u8, 0, 0, 0, 0, 0, 0, 0], 4, max(mtu, 1280) % 0x1_0000_0000)
        + orig.subrange(0, quoted);
    header + wire::put16(
        message,
        2,
        checksum::pseudo_checksum(
            orig.subrange(24, 40),
            orig.subrange(8, 24),
            58,
            message,
            checksum::limit_v6(),
        ),
    )
}

/// Tells the sender of an IPv6 packet that it is too large.
pub fn build_packet_too_big(orig: &[u8], mtu: usize) -> (r: Option<Vec<u8>>)
    ensures
        bytes_view(r) == (if orig@.len() >= 40 {
            Some(packet_too_big(orig@, mtu as int))
        } else {
            None
        }),
{
    if orig.len() < 40 {
        return None;
    }
    let advertised: usize = if mtu > IPV6_MINIMUM_MTU {
        mtu
    } else {
        IPV6_MINIMUM_MTU
    };
    let quoted: usize = if orig.len() < 1232 {
        orig.len()
    } else {
        1232
    };
    let size: usize = 48 + quoted;
    let mut pkt: Vec<u8> = zero_vec(size);
    pkt.set(0, 0x60);
    set_be16(pkt.as_mut_slice(), 4, (8 + quoted) as u16);
    pkt.set(6, 58);
    pkt.set(7, SYNTHESIZED_TTL);
    copy_at(pkt.as_mut_slice(), 8, &orig[24..40]);
    copy_at(pkt.as_mut_slice(), 24, &orig[8..24]);
    pkt.set(40, 2);
    let told: u32 = (advertised as u64 % 0x1_0000_0000) as u32;
    set_be32(pkt.as_mut_slice(), 44, told);
    copy_at(pkt.as_mut_slice(), 48, &orig[0..quoted]);
    let ghost header = seq![
        0x60u8,
        0,
        0,
        0,
        ((8 + quoted) / 256) as u8,
        ((8 + quoted) % 256) as u8,
        58,
        64,
    ] + orig@.subrange(24, 40) + orig@.subrange(8, 24);
    let ghost message = wire::put32(seq![2u8, 0, 0, 0, 0, 0, 0, 0], 4, told as int)
        + orig@.subrange(0, quoted as int);
    assert(pkt@ =~= header + message);
    assert(pkt@.subrange(40, size as int) =~= message);
    let sum: u16 = pseudo_checksum_v6(
        &orig[24..40],
        &orig[8..24],
        58,
        &pkt.as_slice()[40..size],
    );
    set_be16(pkt.as_mut_slice(), 42, sum);
    assert(pkt@ =~= header + wire::put16(message, 2, sum as int));
    Some(pkt)
}

/// The packets that are written in place of `pkt`. One that fits is written
/// as it is. A larger IPv4 packet is fragmented; where it must not or cannot
/// be, and for IPv6 in any case, its sender is told instead.
pub open spec fn written_for(pkt: Seq<u8>, mtu: int, is_ipv6: bool) -> Seq<Seq<u8>> {
    let dont_fragment = pkt.len() >= 8 && wire::be16(pkt, 6) / 0x4000 % 2 == 1;
    if mtu == 0 || pkt.len() <= mtu {
        seq![pkt]
    } else if is_ipv6 {
        if pkt.len() >= 40 {
            seq![packet_too_big(pkt, mtu)]
        } else {
            Seq::empty()
        }
    } else if !dont_fragment && can_fragment(pkt, mtu) {
        fragments(pkt, mtu)
    } else if can_report_v4(pkt) {
        seq![fragmentation_needed(pkt, mtu)]
    } else {
        Seq::empty()
    }
}

/// What to write to the tunnel for a packet, given its MTU.
pub fn tun_write_mtu(pkt: Vec<u8>, mtu: usize, is_ipv6: bool) -> (list: Vec<Vec<u8>>)
    ensures
        wire::views(list@) == written_for(pkt@, mtu as int, is_ipv6),
{
    let mut list: Vec<Vec<u8>> = Vec::new();
    let ghost before = pkt@;
    if mtu == 0 || pkt.len() <= mtu {
        list.push(pkt);
        assert(wire::views(list@) =~= seq![before]);
        return list;
    }
    if is_ipv6 {
        if let Some(reply) = build_packet_too_big(pkt.as_slice(), mtu) {
            list.push(reply);
            assert(wire::views(list@) =~= seq![packet_too_big(before, mtu as int)]);
        } else {
            assert(wire::views(list@) =~= Seq::<Seq<u8>>::empty());
        }
        return list;
    }
    let df = pkt.len() >= 8 && get_be16(pkt.as_slice(), 6) / 0x4000 % 2 == 1;
    if !df {
        if let Some(frags) = fragment_ipv4_packet(pkt.as_slice(), mtu) {
            return frags;
        }
    }
    if let Some(reply) = build_fragmentation_needed(pkt.as_slice(), mtu) {
        list.push(reply);
        assert(wire::views(list@) =~= seq![fragmentation_needed(before, mtu as int)]);
    } else {
        assert(wire::views(list@) =~= Seq::<Seq<u8>>::empty());
    }
    list
}

/// The payloads of the first `n` fragments, one after the other.
pub open spec fn joined(pkt: Seq<u8>, mtu: int, n: int) -> Seq<u8>
    decreases n,
{
    if n <= 0 {
        Seq::empty()
    } else {
        joined(pkt, mtu, n - 1) + fragment(pkt, mtu, n - 1).subrange(
            checksum::header_len(pkt),
            fragment(pkt, mtu, n - 1).len() as int,
        )
    }
}

proof fn lemma_fragment_bounds(pkt: Seq<u8>, mtu: int, k: int)
    requires
        can_fragment(pkt, mtu),
        0 <= k < fragment_count(pkt, mtu),
    ensures
        0 <= fragment_start(pkt, mtu, k) < fragment_end(pkt, mtu, k) <= pkt.len()
            - checksum::header_len(pkt),
        fragment(pkt, mtu, k).len() == checksum::header_len(pkt) + fragment_end(pkt, mtu, k)
            - fragment_start(pkt, mtu, k),
        fragment_start(pkt, mtu, k) % 8 == 0,
        k + 1 < fragment_count(pkt, mtu) ==> fragment_end(pkt, mtu, k) == fragment_start(
            pkt,
            mtu,
            k + 1,
        ),
        k + 1 == fragment_count(pkt, mtu) ==> fragment_end(pkt, mtu, k) == pkt.len()
            - checksum::header_len(pkt),
{
    let ihl = checksum::header_len(pkt);
    let room = fragment_room(mtu, ihl);
    lemma_fragment_count(pkt.len() - ihl, room, k);
    lemma_fragment_count(pkt.len() - ihl, room, k + 1);
    assert((k + 1) * room == k * room + room) by (nonlinear_arith);
    assert(0 <= k * room) by (nonlinear_arith)
        requires
            k >= 0,
            room > 0,
    ;
    let e = (mtu - ihl) / 8;
    assert(k * room == 8 * (k * e)) by (nonlinear_arith)
        requires
            room == e * 8,
    ;
}

/// A fragment fits the MTU, carries its part of the payload, and says where
/// that part belongs and whether more follows.
pub proof fn law_fragment_fields(pkt: Seq<u8>, mtu: int, k: int)
    requires
        can_fragment(pkt, mtu),
        pkt.len() <= 65535,
        0 <= k < fragment_count(pkt, mtu),
    ensures
        ({
            let f = fragment(pkt, mtu, k);
            let ihl = checksum::header_len(pkt);
            let start = fragment_start(pkt, mtu, k);
            &&& f.len() <= mtu
            &&& f.subrange(ihl, f.len() as int) == pkt.subrange(
                ihl + start,
                ihl + fragment_end(pkt, mtu, k),
            )
            &&& wire::be16(f, 2) == f.len()
            &&& wire::be16(f, 6) % 0x2000 == (wire::be16(pkt, 6) + start / 8) % 0x2000
            &&& (wire::be16(f, 6) / 0x2000 % 2 == 1) == (k + 1 < fragment_count(pkt, mtu)
                || wire::be16(pkt, 6) / 0x2000 % 2 == 1)
            &&& forall|j: int|
                0 <= j < ihl && !(2 <= j < 4) && !(6 <= j < 8) && !(10 <= j < 12)
                    ==> #[trigger] f[j] == pkt[j]
        }),
{
    lemma_fragment_bounds(pkt, mtu, k);
    let ihl = checksum::header_len(pkt);
    let f = fragment(pkt, mtu, k);
    let start = fragment_start(pkt, mtu, k);
    let end = fragment_end(pkt, mtu, k);
    let field = wire::be16(pkt, 6);
    assert(f.subrange(ihl, f.len() as int) =~= pkt.subrange(ihl + start, ihl + end));
    lemma_fragment_field(field, start, end == pkt.len() - ihl);
    assert(wire::be16(f, 6) == fragment_field(field, start, end == pkt.len() - ihl));
    assert(wire::be16(f, 2) == f.len());
    if k + 1 < fragment_count(pkt, mtu) {
        lemma_fragment_bounds(pkt, mtu, k + 1);
    }
}

proof fn lemma_fragment_field(field: int, start: int, last: bool)
    requires
        0 <= field < 65536,
        0 <= start < 65536,
    ensures
        0 <= fragment_field(field, start, last) < 65536,
        fragment_field(field, start, last) % 0x2000 == (field + start / 8) % 0x2000,
        (fragment_field(field, start, last) / 0x2000 % 2 == 1) == (field / 0x2000 % 2 == 1
            || !last),
{
    let flags = field / 0x2000;
    let more = if flags % 2 == 1 || !last {
        1int
    } else {
        0int
    };
    let top = flags - flags % 2 + more;
    let offset = (field % 0x2000 + start / 8) % 0x2000;
    assert(fragment_field(field, start, last) == top * 0x2000 + offset);
    assert(0 <= top <= 7);
    assert((top * 0x2000 + offset) / 0x2000 == top);
    assert((top * 0x2000 + offset) % 0x2000 == offset);
}

proof fn lemma_joined(pkt: Seq<u8>, mtu: int, n: int)
    requires
        can_fragment(pkt, mtu),
        0 <= n <= fragment_count(pkt, mtu),
    ensures
        n > 0 ==> joined(pkt, mtu, n) == pkt.subrange(
            checksum::header_len(pkt),
            checksum::header_len(pkt) + fragment_end(pkt, mtu, n - 1),
        ),
    decreases n,
{
    reveal_with_fuel(joined, 2);
    if n > 0 {
        let ihl = checksum::header_len(pkt);
        lemma_joined(pkt, mtu, n - 1);
        lemma_fragment_bounds(pkt, mtu, n - 1);
        if n > 1 {
            lemma_fragment_bounds(pkt, mtu, n - 2);
        } else {
            assert(0 * fragment_room(mtu, ihl) == 0);
        }
        let f = fragment(pkt, mtu, n - 1);
        assert(f.subrange(ihl, f.len() as int) =~= pkt.subrange(
            ihl + fragment_start(pkt, mtu, n - 1),
            ihl + fragment_end(pkt, mtu, n - 1),
        ));
        assert(joined(pkt, mtu, n) =~= pkt.subrange(ihl, ihl + fragment_end(pkt, mtu, n - 1)));
    }
}

/// The payloads of all fragments, one after the other, are the payload of the
/// packet.
pub proof fn law_fragments_partition_payload(pkt: Seq<u8>, mtu: int)
    requires
        can_fragment(pkt, mtu),
    ensures
        joined(pkt, mtu, fragment_count(pkt, mtu)) == pkt.subrange(
            checksum::header_len(pkt),
            pkt.len() as int,
        ),
{
    let ihl = checksum::header_len(pkt);
    let n = fragment_count(pkt, mtu);
    lemma_fragment_count(pkt.len() - ihl, fragment_room(mtu, ihl), 0);
    assert(0 * fragment_room(mtu, ihl) == 0);
    lemma_joined(pkt, mtu, n);
    lemma_fragment_bounds(pkt, mtu, n - 1);
}

/// Filling in the checksum of a piece whose checksum field is clear makes it
/// valid.
proof fn lemma_filled_in(piece: Seq<u8>, at: int)
    requires
        0 <= at,
        at + 1 < piece.len(),
        at % 2 == 0,
        wire::be16(piece, at) == 0,
    ensures
        checksum::internet_sum(wire::put16(piece, at, checksum::internet_sum(piece))) == 0,
{
    checksum::lemma_word_sum_nonneg(piece);
    checksum::law_complement_makes_sum_valid(checksum::word_sum(piece));
    checksum::lemma_word_sum_put16(piece, at, checksum::internet_sum(piece));
}

/// The header checksum of every fragment is valid.
pub proof fn law_fragment_checksum_valid(pkt: Seq<u8>, mtu: int, k: int)
    requires
        can_fragment(pkt, mtu),
        0 <= k < fragment_count(pkt, mtu),
    ensures
        checksum::header_len(fragment(pkt, mtu, k)) == checksum::header_len(pkt),
        checksum::internet_sum(
            fragment(pkt, mtu, k).subrange(0, checksum::header_len(pkt)),
        ) == 0,
{
    lemma_fragment_bounds(pkt, mtu, k);
    let ihl = checksum::header_len(pkt);
    let f = fragment(pkt, mtu, k);
    let start = fragment_start(pkt, mtu, k);
    let end = fragment_end(pkt, mtu, k);
    let cut = pkt.subrange(0, ihl) + pkt.subrange(ihl + start, ihl + end);
    let placed = wire::put16(
        cut,
        6,
        fragment_field(wire::be16(pkt, 6), start, end == pkt.len() - ihl),
    );
    let sized = wire::put16(wire::put16(placed, 2, cut.len() as int % 65536), 10, 0);
    let head = sized.subrange(0, ihl);
    assert(wire::be16(head, 10) == 0);
    lemma_filled_in(head, 10);
    assert(f.subrange(0, ihl) =~= wire::put16(head, 10, checksum::internet_sum(head)));
    assert(f[0] == pkt[0]);
}

/// Both checksums of the message for IPv4, that of its header and its own, are
/// valid.
pub proof fn law_fragmentation_needed_valid(orig: Seq<u8>, mtu: int)
    requires
        can_report_v4(orig),
    ensures
        ({
            let m = fragmentation_needed(orig, mtu);
            &&& checksum::internet_sum(m.subrange(0, 20)) == 0
            &&& checksum::internet_sum(m.subrange(20, m.len() as int)) == 0
        }),
{
    let quoted = min(orig.len() as int, 548);
    let size = 28 + quoted;
    let header = seq![
        0x45u8,
        0,
        (size / 256) as u8,
        (size % 256) as u8,
        0,
        0,
        0,
        0,
        64,
        1,
        0,
        0,
    ] + orig.subrange(16, 20) + orig.subrange(12, 16);
    let advertised = min(max(mtu, 68), 0xffff);
    let message = seq![
        3u8,
        4,
        0,
        0,
        0,
        0,
        (advertised / 256) as u8,
        (advertised % 256) as u8,
    ] + orig.subrange(0, quoted);
    let m = fragmentation_needed(orig, mtu);
    assert(wire::be16(header, 10) == 0);
    assert(wire::be16(message, 2) == 0);
    lemma_filled_in(header, 10);
    lemma_filled_in(message, 2);
    assert(m.subrange(0, 20) =~= wire::put16(header, 10, checksum::internet_sum(header)));
    assert(m.subrange(20, m.len() as int) =~= wire::put16(
        message,
        2,
        checksum::internet_sum(message),
    ));
}

/// The checksum of the message for IPv6 is valid.
pub proof fn law_packet_too_big_valid(orig: Seq<u8>, mtu: int)
    requires
        orig.len() >= 40,
        mtu >= 0,
    ensures
        ({
            let m = packet_too_big(orig, mtu);
            checksum::pseudo_checksum(
                m.subrange(8, 24),
                m.subrange(24, 40),
                58,
                m.subrange(40, m.len() as int),
                checksum::limit_v6(),
            ) == 0
        }),
{
    let quoted = min(orig.len() as int, 1232);
    let m = packet_too_big(orig, mtu);
    let a = orig.subrange(24, 40);
    let b = orig.subrange(8, 24);
    let message = wire::put32(seq![2u8, 0, 0, 0, 0, 0, 0, 0], 4, max(mtu, 1280) % 0x1_0000_0000)
        + orig.subrange(0, quoted);
    let v = checksum::pseudo_checksum(a, b, 58, message, checksum::limit_v6());
    assert(m.subrange(8, 24) =~= a);
    assert(m.subrange(24, 40) =~= b);
    assert(m.subrange(40, m.len() as int) =~= wire::put16(message, 2, v));
    assert(wire::be16(message, 2) == 0);
    checksum::lemma_word_sum_nonneg(a);
    checksum::lemma_word_sum_nonneg(b);
    checksum::lemma_word_sum_nonneg(message);
    checksum::lemma_word_sum_put16(message, 2, v);
    let n = checksum::word_sum(a) + checksum::word_sum(b) + 58 + message.len() as int
        % checksum::limit_v6() + checksum::word_sum(message);
    checksum::law_complement_makes_sum_valid(n);
}

} // verus!
