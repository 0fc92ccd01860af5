//! Packets larger than the tunnel takes, told by bytes: what is written in
//! their place.
use vstd::arithmetic::div_mod;
use vstd::prelude::*;

use crate::checksum;
use crate::mtu;
use crate::plain;

verus! {

/// The number nearest to `n` that is neither below `low` nor above `high`.
pub open spec fn nearest(n: int, low: int, high: int) -> int {
    if n < low {
        low
    } else if n > high {
        high
    } else {
        n
    }
}

/// `f` carries the payload of the IPv4 packet `pkt` from byte `from` on, says
/// so in its header, and is otherwise headed as `pkt` is.
pub open spec fn is_fragment(pkt: Seq<u8>, f: Seq<u8>, from: int, more: bool) -> bool {
    let head = plain::head_len(pkt);
    &&& f.len() > head
    &&& f.subrange(head, f.len() as int) == pkt.subrange(head + from, from + f.len())
    &&& plain::n16(f, 2) == f.len()
    &&& plain::n16(f, 6) % 0x2000 == (plain::n16(pkt, 6) + from / 8) % 0x2000
    &&& f[6] / 32 % 2 == 1 <==> more || pkt[6] / 32 % 2 == 1
    &&& f[6] / 64 == pkt[6] / 64
    &&& plain::balanced(plain::total(f.subrange(0, head)))
    &&& forall|j: int|
        0 <= j < head && !(2 <= j < 4) && !(6 <= j < 8) && !(10 <= j < 12) ==> #[trigger] f[j]
            == pkt[j]
}

/// The packets are the fragments of `pkt`: all but the last one as long as the
/// tunnel and the unit of eight bytes allow, and together they carry all of it.
pub open spec fn are_fragments(pkt: Seq<u8>, mtu: int, list: Seq<Seq<u8>>) -> bool {
    let head = plain::head_len(pkt);
    let room = (mtu - head) - (mtu - head) % 8;
    let payload = pkt.len() - head;
    &&& list.len() > 0
    &&& forall|k: int|
        0 <= k < list.len() ==> {
            &&& is_fragment(pkt, #[trigger] list[k], k * room, k + 1 < list.len())
            &&& list[k].len() <= mtu
            &&& k + 1 < list.len() ==> list[k].len() == head + room
            &&& k + 1 == list.len() ==> k * room + (list[k].len() - head) == payload
        }
}

/// `m` tells the sender of the IPv4 packet `pkt` that it may not be larger
/// than `mtu`, and quotes the packet.
pub open spec fn reports_v4(pkt: Seq<u8>, mtu: int, m: Seq<u8>) -> bool {
    &&& m.len() == 28 + nearest(pkt.len() as int, 0, 548)
    &&& m[0] == 0x45
    &&& plain::n16(m, 2) == m.len()
    &&& m[8] == 64
    &&& m[9] == 1
    &&& m.subrange(12, 16) == pkt.subrange(16, 20)
    &&& m.subrange(16, 20) == pkt.subrange(12, 16)
    &&& plain::balanced(plain::total(m.subrange(0, 20)))
    &&& m[20] == 3
    &&& m[21] == 4
    &&& plain::n16(m, 24) == 0
    &&& plain::n16(m, 26) == nearest(mtu, 68, 65535)
    &&& plain::balanced(plain::total(m.subrange(20, m.len() as int)))
    &&& m.subrange(28, m.len() as int) == pkt.subrange(0, m.len() - 28)
    &&& m[1] == 0 && m[4] == 0 && m[5] == 0 && m[6] == 0 && m[7] == 0
}

/// `m` tells the sender of the IPv6 packet `pkt` that it may not be larger
/// than `mtu`, and quotes the packet.
pub open spec fn reports_v6(pkt: Seq<u8>, mtu: int, m: Seq<u8>) -> bool {
    &&& m.len() == 48 + nearest(pkt.len() as int, 0, 1232)
    &&& m[0] == 0x60
    &&& plain::n16(m, 4) == m.len() - 40
    &&& m[6] == 58
    &&& m[7] == 64
    &&& m.subrange(8, 24) == pkt.subrange(24, 40)
    &&& m.subrange(24, 40) == pkt.subrange(8, 24)
    &&& m[40] == 2
    &&& m[41] == 0
    &&& plain::n32(m, 44) == nearest(mtu, 1280, 0xffff_ffff)
    &&& plain::sound_v6(m, 40, 58)
    &&& m.subrange(48, m.len() as int) == pkt.subrange(0, m.len() - 48)
    &&& m[1] == 0 && m[2] == 0 && m[3] == 0
}

/// The report of an IPv4 packet.
pub proof fn law_reports_v4(pkt: Seq<u8>, mtu: int)
    requires
        mtu::can_report_v4(pkt),
    ensures
        reports_v4(pkt, mtu, mtu::fragmentation_needed(pkt, mtu)),
{
    let m = mtu::fragmentation_needed(pkt, mtu);
    mtu::law_fragmentation_needed_valid(pkt, mtu);
    plain::lemma_header_sound(m.subrange(0, 20));
    plain::lemma_header_sound(m.subrange(20, m.len() as int));
    assert(m.subrange(12, 16) =~= pkt.subrange(16, 20));
    assert(m.subrange(16, 20) =~= pkt.subrange(12, 16));
    assert(m.subrange(28, m.len() as int) =~= pkt.subrange(0, m.len() - 28));
}

/// The report of an IPv6 packet.
pub proof fn law_reports_v6(pkt: Seq<u8>, mtu: int)
    requires
        pkt.len() >= 40,
        0 <= mtu <= 0xffff_ffff,
    ensures
        reports_v6(pkt, mtu, mtu::packet_too_big(pkt, mtu)),
{
    let m = mtu::packet_too_big(pkt, mtu);
    mtu::law_packet_too_big_valid(pkt, mtu);
    plain::lemma_sound(
        m.subrange(8, 24),
        m.subrange(24, 40),
        58,
        m.subrange(40, m.len() as int),
        checksum::limit_v6(),
    );
    assert(m.subrange(8, 24) =~= pkt.subrange(24, 40));
    assert(m.subrange(24, 40) =~= pkt.subrange(8, 24));
    assert(m.subrange(48, m.len() as int) =~= pkt.subrange(0, m.len() - 48));
    plain::lemma_n32(m, 44);
}

/// The fragments of an IPv4 packet.
#[verifier::rlimit(40)]
pub proof fn law_fragments(pkt: Seq<u8>, mtu: int)
    requires
        20 <= plain::head_len(pkt) < pkt.len() <= 65535,
        mtu >= plain::head_len(pkt) + 8,
    ensures
        mtu::can_fragment(pkt, mtu),
        are_fragments(pkt, mtu, mtu::fragments(pkt, mtu)),
{
    let head = plain::head_len(pkt);
    let room = (mtu - head) - (mtu - head) % 8;
    let payload = pkt.len() - head;
    let list = mtu::fragments(pkt, mtu);
    let n = mtu::fragment_count(pkt, mtu);
    assert(room == mtu::fragment_room(mtu, head));
    div_mod::lemma_fundamental_div_mod(payload + room - 1, room);
    div_mod::lemma_mod_bound(payload + room - 1, room);
    assert(room * n == n * room) by (nonlinear_arith);
    assert(n > 0) by (nonlinear_arith)
        requires
            n * room > payload - 1,
            payload >= 1,
            room > 0,
    ;
    assert((n - 1) * room == n * room - room) by (nonlinear_arith);
    assert forall|k: int| 0 <= k < list.len() implies {
        &&& is_fragment(pkt, #[trigger] list[k], k * room, k + 1 < list.len())
        &&& list[k].len() <= mtu
        &&& k + 1 < list.len() ==> list[k].len() == head + room
        &&& k + 1 == list.len() ==> k * room + (list[k].len() - head) == payload
    } by {
        let f = list[k];
        assert(f == mtu::fragment(pkt, mtu, k));
        mtu::law_fragment_fields(pkt, mtu, k);
        mtu::law_fragment_checksum_valid(pkt, mtu, k);
        plain::lemma_header_sound(f.subrange(0, head));
        assert(k * room <= (n - 1) * room) by (nonlinear_arith)
            requires
                k <= n - 1,
                room > 0,
        ;
        assert(k * room >= 0) by (nonlinear_arith)
            requires
                k >= 0,
                room > 0,
        ;
        if k + 1 < n {
            assert((k + 1) * room <= (n - 1) * room) by (nonlinear_arith)
                requires
                    k + 1 <= n - 1,
                    room > 0,
            ;
            assert((k + 1) * room == k * room + room) by (nonlinear_arith);
        }
        assert(f.len() == head + mtu::fragment_end(pkt, mtu, k) - k * room);
        lemma_flags(pkt, f, mtu, k);
    }
}

proof fn lemma_flags(pkt: Seq<u8>, f: Seq<u8>, mtu: int, k: int)
    requires
        mtu::can_fragment(pkt, mtu),
        pkt.len() <= 65535,
        0 <= k < mtu::fragment_count(pkt, mtu),
        f == mtu::fragment(pkt, mtu, k),
    ensures
        f[6] / 64 == pkt[6] / 64,
{
    mtu::law_fragment_fields(pkt, mtu, k);
    assert(f.len() > 8);
}

/// What is written in place of a packet: the packet itself where it fits; else
/// its fragments, or a report to its sender where it may not be fragmented or
/// is an IPv6 packet; and nothing where it has no whole header.
pub proof fn law_written(pkt: Seq<u8>, mtu: int, is_ipv6: bool)
    requires
        pkt.len() <= 65535,
        0 <= mtu <= 0xffff_ffff,
    ensures
        ({
            let list = mtu::written_for(pkt, mtu, is_ipv6);
            let head = plain::head_len(pkt);
            let kept_whole = pkt.len() >= 8 && pkt[6] / 64 % 2 == 1;
            if mtu == 0 || pkt.len() <= mtu {
                list == seq![pkt]
            } else if is_ipv6 {
                if pkt.len() >= 40 {
                    list.len() == 1 && reports_v6(pkt, mtu, list[0])
                } else {
                    list.len() == 0
                }
            } else if !kept_whole && 20 <= head < pkt.len() && head + 8 <= mtu {
                are_fragments(pkt, mtu, list)
            } else if 20 <= head && head + 8 <= pkt.len() {
                list.len() == 1 && reports_v4(pkt, mtu, list[0])
            } else {
                list.len() == 0
            }
        }),
{
    let head = plain::head_len(pkt);
    if mtu == 0 || pkt.len() <= mtu {
    } else if is_ipv6 {
        if pkt.len() >= 40 {
            law_reports_v6(pkt, mtu);
        }
    } else {
        if 20 <= head < pkt.len() && head + 8 <= mtu {
            law_fragments(pkt, mtu);
        }
        if 20 <= head && head + 8 <= pkt.len() {
            law_reports_v4(pkt, mtu);
        }
        plain::lemma_n16(pkt, 6);
    }
}

} // verus!
