//! Merging told by bytes: which packets may be merged, with which, and what
//! the merged packet holds.
use vstd::prelude::*;

use crate::checksum;
use crate::device_laws;
use crate::gro;
use crate::gro::{
    CanCoalesce, CoalesceResult, GroCandidateType, GroResult, GroState, TcpGroItem, UdpGroItem,
};
use crate::gro_laws;
use crate::gso;
use crate::gso::{GsoOptions, GsoType};
use crate::plain;

verus! {

/// The packets that merging looks at: TCP and UDP packets with whole headers,
/// those of IPv4 without options, as far as their kind may be merged.
pub proof fn law_candidates(b: Seq<u8>, tcp: bool, udp: bool)
    ensures
        ({
            let c = gro::gro_candidate(b, tcp, udp);
            &&& c == GroCandidateType::Tcp4 <==> tcp && b.len() >= 40 && b[0] == 0x45 && b[9] == 6
            &&& c == GroCandidateType::Udp4 <==> udp && b.len() >= 28 && b[0] == 0x45 && b[9] == 17
            &&& c == GroCandidateType::Tcp6 <==> tcp && b.len() >= 60 && b[0] / 16 == 6 && b[6] == 6
            &&& c == GroCandidateType::Udp6 <==> udp && b.len() >= 48 && b[0] / 16 == 6 && b[6]
                == 17
        }),
{
}

/// Two packets hold the same bytes from `i` to `j`.
pub open spec fn same_bytes(a: Seq<u8>, b: Seq<u8>, i: int, j: int) -> bool {
    forall|k: int| i <= k < j ==> #[trigger] a[k] == b[k]
}

proof fn lemma_same_n16(a: Seq<u8>, b: Seq<u8>, i: int)
    ensures
        plain::n16(a, i) == plain::n16(b, i) <==> same_bytes(a, b, i, i + 2),
{
    if same_bytes(a, b, i, i + 2) {
        assert(a[i] == b[i] && a[i + 1] == b[i + 1]);
    }
}

proof fn lemma_same_n32(a: Seq<u8>, b: Seq<u8>, i: int)
    ensures
        plain::n32(a, i) == plain::n32(b, i) <==> same_bytes(a, b, i, i + 4),
{
    lemma_same_n16(a, b, i);
    lemma_same_n16(a, b, i + 2);
    plain::lemma_n16(a, i);
    plain::lemma_n16(b, i);
    plain::lemma_n16(a, i + 2);
    plain::lemma_n16(b, i + 2);
}

proof fn lemma_same_n64(a: Seq<u8>, b: Seq<u8>, i: int)
    ensures
        plain::n64(a, i) == plain::n64(b, i) <==> same_bytes(a, b, i, i + 8),
{
    lemma_same_n32(a, b, i);
    lemma_same_n32(a, b, i + 4);
    plain::lemma_n32(a, i);
    plain::lemma_n32(b, i);
    plain::lemma_n32(a, i + 4);
    plain::lemma_n32(b, i + 4);
}

proof fn lemma_same_n128(a: Seq<u8>, b: Seq<u8>, i: int)
    ensures
        plain::n128(a, i) == plain::n128(b, i) <==> same_bytes(a, b, i, i + 16),
{
    lemma_same_n64(a, b, i);
    lemma_same_n64(a, b, i + 8);
    plain::lemma_n32(a, i);
    plain::lemma_n32(b, i);
    plain::lemma_n32(a, i + 4);
    plain::lemma_n32(b, i + 4);
    plain::lemma_n32(a, i + 8);
    plain::lemma_n32(b, i + 8);
    plain::lemma_n32(a, i + 12);
    plain::lemma_n32(b, i + 12);
}

/// Two packets belong to one flow exactly where their addresses and ports are
/// the same, and for TCP their acknowledgement numbers too.
pub proof fn law_flows_v4(a: Seq<u8>, b: Seq<u8>)
    ensures
        gro::tcp_flow_key(a, false) == gro::tcp_flow_key(b, false) <==> same_bytes(a, b, 12, 24)
            && same_bytes(a, b, 28, 32),
        gro::udp_flow_key(a, false) == gro::udp_flow_key(b, false) <==> same_bytes(a, b, 12, 24),
{
    lemma_same_n32(a, b, 12);
    lemma_same_n32(a, b, 16);
    lemma_same_n16(a, b, 20);
    lemma_same_n16(a, b, 22);
    lemma_same_n32(a, b, 28);
    plain::lemma_n32(a, 12);
    plain::lemma_n32(b, 12);
    plain::lemma_n32(a, 16);
    plain::lemma_n32(b, 16);
    plain::lemma_n16(a, 20);
    plain::lemma_n16(b, 20);
    plain::lemma_n16(a, 22);
    plain::lemma_n16(b, 22);
    plain::lemma_n32(a, 28);
    plain::lemma_n32(b, 28);
    assert(same_bytes(a, b, 12, 24) <==> same_bytes(a, b, 12, 16) && same_bytes(a, b, 16, 20)
        && same_bytes(a, b, 20, 22) && same_bytes(a, b, 22, 24));
}

pub proof fn law_flows_v6(a: Seq<u8>, b: Seq<u8>)
    ensures
        gro::tcp_flow_key(a, true) == gro::tcp_flow_key(b, true) <==> same_bytes(a, b, 8, 44)
            && same_bytes(a, b, 48, 52),
        gro::udp_flow_key(a, true) == gro::udp_flow_key(b, true) <==> same_bytes(a, b, 8, 44),
{
    lemma_same_n128(a, b, 8);
    lemma_same_n128(a, b, 24);
    lemma_same_n16(a, b, 40);
    lemma_same_n16(a, b, 42);
    lemma_same_n32(a, b, 48);
    plain::lemma_n128(a, 8);
    plain::lemma_n128(b, 8);
    plain::lemma_n128(a, 24);
    plain::lemma_n128(b, 24);
    plain::lemma_n16(a, 40);
    plain::lemma_n16(b, 40);
    plain::lemma_n16(a, 42);
    plain::lemma_n16(b, 42);
    plain::lemma_n32(a, 48);
    plain::lemma_n32(b, 48);
    assert(same_bytes(a, b, 8, 44) <==> same_bytes(a, b, 8, 24) && same_bytes(a, b, 24, 40)
        && same_bytes(a, b, 40, 42) && same_bytes(a, b, 42, 44));
}

proof fn lemma_sum_tested(src: Seq<u8>, dst: Seq<u8>, proto: int, data: Seq<u8>)
    requires
        proto >= 0,
        src.len() % 2 == 0,
        dst.len() % 2 == 0,
    ensures
        checksum::ones_fold(
            checksum::pseudo_sum(proto, src, dst, data.len() as int) + checksum::word_sum(data),
        ) == 65535 <==> plain::sound(src, dst, proto, data),
{
    assert(checksum::even_part(src) =~= src);
    assert(checksum::even_part(dst) =~= dst);
    plain::lemma_total(src);
    plain::lemma_total(dst);
    plain::lemma_total(data);
    let sum = plain::total(src) + plain::total(dst) + proto + data.len();
    checksum::lemma_fold_add(sum, plain::total(data));
    plain::lemma_balanced(sum + plain::total(data));
}

/// A checksum is taken for valid exactly where a receiver would take it so.
pub proof fn law_sums_are_tested_v4(pkt: Seq<u8>, proto: int)
    requires
        proto >= 0,
        pkt.len() <= 65535,
    ensures
        gro::transport_sum_valid(pkt, 20, proto, false) <==> pkt.len() >= 20 && plain::sound_v4(
            pkt,
            20,
            proto,
        ),
{
    if pkt.len() >= 20 {
        lemma_sum_tested(
            pkt.subrange(12, 16),
            pkt.subrange(16, 20),
            proto,
            pkt.subrange(20, pkt.len() as int),
        );
    }
}

pub proof fn law_sums_are_tested_v6(pkt: Seq<u8>, proto: int)
    requires
        proto >= 0,
        pkt.len() <= 65535,
    ensures
        gro::transport_sum_valid(pkt, 40, proto, true) <==> pkt.len() >= 40 && plain::sound_v6(
            pkt,
            40,
            proto,
        ),
{
    if pkt.len() >= 40 {
        lemma_sum_tested(
            pkt.subrange(8, 24),
            pkt.subrange(24, 40),
            proto,
            pkt.subrange(40, pkt.len() as int),
        );
    }
}

/// A TCP packet may be merged where its length field is right, it is whole,
/// carries data, and has no flag but ACK, or ACK and PSH.
pub open spec fn fit_tcp(pkt: Seq<u8>, is_v6: bool) -> bool {
    let at: int = if is_v6 {
        40
    } else {
        20
    };
    let head = 4 * (pkt[at + 12] / 16);
    &&& pkt.len() <= 65535
    &&& if is_v6 {
        plain::n16(pkt, 4) == pkt.len() - 40
    } else {
        plain::n16(pkt, 2) == pkt.len() && plain::n16(pkt, 6) % 0x4000 == 0
    }
    &&& head >= 20
    &&& pkt.len() > at + head
    &&& pkt[at + 13] == 0x10 || pkt[at + 13] == 0x18
}

pub open spec fn fit_udp(pkt: Seq<u8>, is_v6: bool) -> bool {
    let at: int = if is_v6 {
        40
    } else {
        20
    };
    &&& pkt.len() <= 65535
    &&& if is_v6 {
        plain::n16(pkt, 4) == pkt.len() - 40
    } else {
        plain::n16(pkt, 2) == pkt.len() && plain::n16(pkt, 6) % 0x4000 == 0
    }
    &&& pkt.len() > at + 8
}

/// What is remembered of a TCP packet that may be merged.
pub proof fn law_fit_tcp(pkt: Seq<u8>, i: int, is_v6: bool)
    requires
        0 <= i <= usize::MAX,
    ensures
        ({
            let at: int = if is_v6 {
                40
            } else {
                20
            };
            let head = 4 * (pkt[at + 12] / 16);
            match gro::tcp_item(pkt, i, is_v6) {
                Some(item) => {
                    &&& fit_tcp(pkt, is_v6)
                    &&& item.key == gro::tcp_flow_key(pkt, is_v6)
                    &&& item.key.is_v6 == is_v6
                    &&& item.sent_seq == plain::n32(pkt, at + 4)
                    &&& item.bufs_index == i
                    &&& item.num_merged == 0
                    &&& item.gso_size == pkt.len() - at - head
                    &&& item.iph_len == at
                    &&& item.tcph_len == head
                    &&& item.psh_set <==> pkt[at + 13] / 8 % 2 == 1
                },
                None => !fit_tcp(pkt, is_v6),
            }
        }),
{
    let at: int = if is_v6 {
        40
    } else {
        20
    };
    plain::lemma_n32(pkt, at + 4);
    plain::lemma_n16(pkt, 2);
    plain::lemma_n16(pkt, 4);
    plain::lemma_n16(pkt, 6);
}

/// What is remembered of a UDP packet that may be merged.
pub proof fn law_fit_udp(pkt: Seq<u8>, i: int, is_v6: bool)
    requires
        0 <= i <= usize::MAX,
    ensures
        ({
            let at: int = if is_v6 {
                40
            } else {
                20
            };
            match gro::udp_item(pkt, i, is_v6) {
                Some(item) => {
                    &&& fit_udp(pkt, is_v6)
                    &&& item.key == gro::udp_flow_key(pkt, is_v6)
                    &&& item.key.is_v6 == is_v6
                    &&& item.bufs_index == i
                    &&& item.num_merged == 0
                    &&& item.gso_size == pkt.len() - at - 8
                    &&& item.iph_len == at
                },
                None => !fit_udp(pkt, is_v6),
            }
        }),
{
    plain::lemma_n16(pkt, 2);
    plain::lemma_n16(pkt, 4);
    plain::lemma_n16(pkt, 6);
}

/// Two packets are treated alike on their way: for IPv6 by version, traffic
/// class and hop limit, for IPv4 by type of service, fragment flags and time
/// to live.
pub open spec fn alike(a: Seq<u8>, b: Seq<u8>) -> bool {
    &&& a.len() >= 9
    &&& b.len() >= 9
    &&& if a[0] / 16 == 6 {
        a[0] == b[0] && a[1] / 16 == b[1] / 16 && a[7] == b[7]
    } else {
        a[1] == b[1] && a[6] / 32 == b[6] / 32 && a[8] == b[8]
    }
}

/// Where a TCP packet goes that may be merged with a held one of its flow:
/// behind it, where its data follow on; in front, where the held data follow
/// on; only with the same TCP options and treatment; and such that all pieces
/// but the last are of one size, and only the last one pushes.
pub proof fn law_tcp_direction(
    pkt: Seq<u8>,
    new: TcpGroItem,
    item: TcpGroItem,
    held: Seq<u8>,
)
    requires
        item.gso_size > 0,
        new.gso_size > 0,
        item.iph_len == new.iph_len,
        20 <= item.tcph_len,
        item.iph_len + item.tcph_len <= held.len(),
        item.iph_len + new.tcph_len <= pkt.len(),
        held.len() - item.iph_len - item.tcph_len <= 0x1_0000_0000,
    ensures
        ({
            let d = gro::tcp_direction(pkt, new, item, held);
            let at = item.iph_len as int;
            let end = at + item.tcph_len;
            let mates = new.tcph_len == item.tcph_len && same_bytes(pkt, held, at + 20, end)
                && alike(pkt, held);
            let follows = new.sent_seq == (item.sent_seq + item.gso_size * (item.num_merged + 1))
                % 0x1_0000_0000;
            let precedes = item.sent_seq == (new.sent_seq + new.gso_size) % 0x1_0000_0000;
            &&& d == CanCoalesce::Append <==> {
                &&& mates
                &&& follows
                &&& !item.psh_set
                &&& (held.len() - end) % (item.gso_size as int) == 0
                &&& new.gso_size <= item.gso_size
            }
            &&& d == CanCoalesce::Prepend <==> {
                &&& mates
                &&& !follows
                &&& precedes
                &&& !new.psh_set
                &&& new.gso_size >= item.gso_size
                &&& new.gso_size > item.gso_size ==> item.num_merged == 0
            }
        }),
{
    let at = item.iph_len as int;
    let end = at + item.tcph_len;
    if new.tcph_len == item.tcph_len {
        let a = pkt.subrange(at + 20, end);
        let b = held.subrange(at + 20, end);
        if same_bytes(pkt, held, at + 20, end) {
            assert(a =~= b);
        }
        if a == b {
            assert forall|k: int| at + 20 <= k < end implies #[trigger] pkt[k] == held[k] by {
                assert(a[k - at - 20] == b[k - at - 20]);
            }
        }
    }
    assert(item.gso_size * (1 + item.num_merged) == item.gso_size * (item.num_merged + 1));
}

/// A UDP packet goes behind the last held one of its flow, where all pieces but
/// the last are then of one size, and both are treated alike.
pub proof fn law_udp_direction(pkt: Seq<u8>, new: UdpGroItem, item: UdpGroItem, held: Seq<u8>)
    ensures
        ({
            let d = gro::udp_direction(pkt, new, item, held);
            &&& d == CanCoalesce::Append <==> {
                &&& alike(pkt, held)
                &&& (held.len() - new.iph_len - 8) % (item.gso_size as int) == 0
                &&& new.gso_size <= item.gso_size
            }
            &&& d != CanCoalesce::Prepend
        }),
{
}

/// Two packets are merged only where there is room, both checksums are valid
/// and the count still fits; a packet with a wrong checksum is named.
pub proof fn law_tcp_verdict(
    direction: CanCoalesce,
    pkt: Seq<u8>,
    new: TcpGroItem,
    item: TcpGroItem,
    held: Seq<u8>,
    room: int,
)
    requires
        pkt.len() <= 65535,
        held.len() <= 65535,
        direction == CanCoalesce::Prepend ==> !new.psh_set,
        direction != CanCoalesce::Unavailable,
        item.iph_len == (if item.key.is_v6 {
            40int
        } else {
            20int
        }),
        item.iph_len <= pkt.len(),
        item.iph_len <= held.len(),
    ensures
        ({
            let v = gro::tcp_verdict(direction, pkt, new, item, held, room);
            let head = item.iph_len + item.tcph_len;
            let roomy = if direction == CanCoalesce::Append {
                pkt.len() - head <= room
            } else {
                held.len() - head <= room
            };
            let pkt_ok = if item.key.is_v6 {
                plain::sound_v6(pkt, 40, 6)
            } else {
                plain::sound_v4(pkt, 20, 6)
            };
            let held_ok = item.num_merged > 0 || (if item.key.is_v6 {
                plain::sound_v6(held, 40, 6)
            } else {
                plain::sound_v4(held, 20, 6)
            });
            &&& v == CoalesceResult::Success <==> roomy && pkt_ok && held_ok && item.num_merged
                < 65535
            &&& v == CoalesceResult::ItemInvalidCsum <==> roomy && !held_ok
            &&& v == CoalesceResult::PktInvalidCsum <==> roomy && held_ok && !pkt_ok
            &&& v != CoalesceResult::PshEnding
        }),
{
    if item.key.is_v6 {
        law_sums_are_tested_v6(pkt, 6);
        law_sums_are_tested_v6(held, 6);
    } else {
        law_sums_are_tested_v4(pkt, 6);
        law_sums_are_tested_v4(held, 6);
    }
}

pub proof fn law_udp_verdict(pkt: Seq<u8>, item: UdpGroItem, held: Seq<u8>, room: int)
    requires
        pkt.len() <= 65535,
        held.len() <= 65535,
        item.iph_len == (if item.key.is_v6 {
            40int
        } else {
            20int
        }),
        item.iph_len <= pkt.len(),
        item.iph_len <= held.len(),
    ensures
        ({
            let v = gro::udp_verdict(pkt, item, held, room);
            let roomy = pkt.len() - item.iph_len - 8 <= room;
            let pkt_ok = if item.key.is_v6 {
                plain::sound_v6(pkt, 40, 17)
            } else {
                plain::sound_v4(pkt, 20, 17)
            };
            let held_ok = item.num_merged > 0 || (if item.key.is_v6 {
                plain::sound_v6(held, 40, 17)
            } else {
                plain::sound_v4(held, 20, 17)
            });
            &&& v == CoalesceResult::Success <==> roomy && pkt_ok && held_ok && item.num_merged
                < 65535
            &&& v == CoalesceResult::ItemInvalidCsum <==> roomy && !held_ok
            &&& v == CoalesceResult::PktInvalidCsum <==> roomy && held_ok && !pkt_ok
        }),
{
    if item.key.is_v6 {
        law_sums_are_tested_v6(pkt, 17);
        law_sums_are_tested_v6(held, 17);
    } else {
        law_sums_are_tested_v4(pkt, 17);
        law_sums_are_tested_v4(held, 17);
    }
}

/// What a merge leaves in the buffers: the held packet's place has the headers
/// of the packet in front and the data of both in order, and pushes where the
/// packet behind did. A packet that went in front leaves the held one in its
/// own place. No other buffer changes.
#[verifier::rlimit(40)]
pub proof fn law_tcp_merged(
    direction: CanCoalesce,
    new: TcpGroItem,
    item: TcpGroItem,
    bufs: Seq<Seq<u8>>,
    offset: int,
)
    requires
        direction != CanCoalesce::Unavailable,
        item.bufs_index < bufs.len(),
        new.bufs_index < bufs.len(),
        item.bufs_index != new.bufs_index,
        0 <= offset,
        20 <= item.tcph_len,
        offset + item.iph_len + item.tcph_len <= bufs[item.bufs_index as int].len(),
        offset + item.iph_len + item.tcph_len <= bufs[new.bufs_index as int].len(),
    ensures
        ({
            let after = gro::tcp_merged_bufs(direction, new, item, bufs, offset);
            let head = offset + item.iph_len + item.tcph_len;
            let i = item.bufs_index as int;
            let j = new.bufs_index as int;
            let flags = offset + item.iph_len + 13;
            &&& after.len() == bufs.len()
            &&& forall|k: int|
                0 <= k < bufs.len() && k != i && k != j ==> #[trigger] after[k] == bufs[k]
            &&& direction == CanCoalesce::Append ==> {
                &&& after[j] == bufs[j]
                &&& after[i].len() == bufs[i].len() + bufs[j].len() - head
                &&& after[i].subrange(head, after[i].len() as int) == bufs[i].subrange(
                    head,
                    bufs[i].len() as int,
                ) + bufs[j].subrange(head, bufs[j].len() as int)
                &&& forall|k: int| 0 <= k < head && k != flags ==> #[trigger] after[i][k]
                    == bufs[i][k]
                &&& after[i][flags] == (if new.psh_set && bufs[i][flags] / 8 % 2 == 0 {
                    bufs[i][flags] + 8
                } else {
                    bufs[i][flags] as int
                })
            }
            &&& direction == CanCoalesce::Prepend ==> {
                &&& after[j] == bufs[i]
                &&& after[i].subrange(0, bufs[j].len() as int) == bufs[j]
                &&& after[i].subrange(bufs[j].len() as int, after[i].len() as int)
                    == bufs[i].subrange(head, bufs[i].len() as int)
            }
        }),
{
    let after = gro::tcp_merged_bufs(direction, new, item, bufs, offset);
    let head = offset + item.iph_len + item.tcph_len;
    let i = item.bufs_index as int;
    let j = new.bufs_index as int;
    let flags = offset + item.iph_len + 13;
    if direction == CanCoalesce::Append {
        assert(after[i].subrange(head, after[i].len() as int) =~= bufs[i].subrange(
            head,
            bufs[i].len() as int,
        ) + bufs[j].subrange(head, bufs[j].len() as int));
        let f = bufs[i][flags];
        assert(f | 0x08 == (if f / 8 % 2 == 0 {
            f + 8
        } else {
            f as int
        })) by (bit_vector);
    } else {
        assert(after[i].subrange(0, bufs[j].len() as int) =~= bufs[j]);
        assert(after[i].subrange(bufs[j].len() as int, after[i].len() as int) =~= bufs[i].subrange(
            head,
            bufs[i].len() as int,
        ));
    }
}

pub proof fn law_udp_merged(
    new: UdpGroItem,
    item: UdpGroItem,
    bufs: Seq<Seq<u8>>,
    offset: int,
)
    requires
        item.bufs_index < bufs.len(),
        new.bufs_index < bufs.len(),
        item.bufs_index != new.bufs_index,
        0 <= offset,
        offset + item.iph_len + 8 <= bufs[item.bufs_index as int].len(),
        offset + item.iph_len + 8 <= bufs[new.bufs_index as int].len(),
    ensures
        ({
            let after = gro::udp_merged_bufs(new, item, bufs, offset);
            let head = offset + item.iph_len + 8;
            let i = item.bufs_index as int;
            let j = new.bufs_index as int;
            &&& after.len() == bufs.len()
            &&& forall|k: int| 0 <= k < bufs.len() && k != i ==> #[trigger] after[k] == bufs[k]
            &&& after[i].subrange(0, bufs[i].len() as int) == bufs[i]
            &&& after[i].subrange(bufs[i].len() as int, after[i].len() as int) == bufs[j].subrange(
                head,
                bufs[j].len() as int,
            )
        }),
{
    let after = gro::udp_merged_bufs(new, item, bufs, offset);
    let head = offset + item.iph_len + 8;
    let i = item.bufs_index as int;
    let j = new.bufs_index as int;
    assert(after[i].subrange(0, bufs[i].len() as int) =~= bufs[i]);
    assert(after[i].subrange(bufs[i].len() as int, after[i].len() as int) =~= bufs[j].subrange(
        head,
        bufs[j].len() as int,
    ));
}

/// What is remembered after a merge: it starts with the data that come first,
/// pushes where the last piece does, and counts one more piece; pieces are as
/// large as the larger of the two.
pub proof fn law_tcp_remembered(direction: CanCoalesce, new: TcpGroItem, item: TcpGroItem)
    requires
        direction != CanCoalesce::Unavailable,
        item.num_merged < 65535,
    ensures
        ({
            let m = gro::tcp_merged_item(direction, new, item);
            &&& m.key == item.key
            &&& m.bufs_index == item.bufs_index
            &&& m.iph_len == item.iph_len
            &&& m.tcph_len == item.tcph_len
            &&& m.num_merged == item.num_merged + 1
            &&& direction == CanCoalesce::Append ==> m.sent_seq == item.sent_seq && (m.psh_set
                <==> item.psh_set || new.psh_set)
            &&& direction == CanCoalesce::Prepend ==> m.sent_seq == new.sent_seq && (m.psh_set
                <==> item.psh_set)
            &&& m.gso_size >= item.gso_size
            &&& m.gso_size >= new.gso_size
            &&& m.gso_size == item.gso_size || m.gso_size == new.gso_size
        }),
{
}

/// The packet may be put to the held one.
pub open spec fn fits(st: GroState, offset: int, new: TcpGroItem, k: int) -> bool {
    &&& st.tcp[k].key == new.key
    &&& gro::tcp_direction(
        gro::packet(st.bufs, offset, new.bufs_index as int),
        new,
        st.tcp[k],
        gro::packet(st.bufs, offset, st.tcp[k].bufs_index as int),
    ) != CanCoalesce::Unavailable
}

/// What comes of the attempt to put the packet to the held one.
pub open spec fn attempt(st: GroState, offset: int, new: TcpGroItem, k: int) -> CoalesceResult {
    let pkt = gro::packet(st.bufs, offset, new.bufs_index as int);
    let item = st.tcp[k];
    let held = gro::packet(st.bufs, offset, item.bufs_index as int);
    let d = gro::tcp_direction(pkt, new, item, held);
    let grows: int = if d == CanCoalesce::Prepend {
        new.bufs_index as int
    } else {
        item.bufs_index as int
    };
    gro::tcp_verdict(d, pkt, new, item, held, st.caps[grows] - st.bufs[grows].len())
}

/// Placing a TCP packet: it is merged with a held one of its flow that it fits,
/// or put on the table with no buffer changed, or left alone because its own
/// checksum is wrong. What is held stays held, unless the packet was merged to
/// it or its checksum is wrong.
#[verifier::rlimit(40)]
pub proof fn law_tcp_placed(st: GroState, offset: int, new: TcpGroItem, n: int)
    requires
        0 <= n <= st.tcp.len(),
    ensures
        ({
            let (r, end) = gro::tcp_place(st, offset, new, n);
            &&& end.udp == st.udp
            &&& end.to_write == st.to_write
            &&& r == GroResult::Coalesced ==> exists|k: int|
                0 <= k < n && #[trigger] fits(st, offset, new, k) && attempt(st, offset, new, k)
                    == CoalesceResult::Success
            &&& r == GroResult::Noop ==> exists|k: int|
                0 <= k < n && #[trigger] fits(st, offset, new, k) && attempt(st, offset, new, k)
                    == CoalesceResult::PktInvalidCsum
            &&& r != GroResult::Coalesced ==> end.bufs == st.bufs && end.caps == st.caps
            &&& r == GroResult::TableInsert ==> {
                &&& end.tcp.len() > 0
                &&& end.tcp.last() == new
                &&& forall|k: int|
                    0 <= k < n && #[trigger] fits(st, offset, new, k) ==> attempt(
                        st,
                        offset,
                        new,
                        k,
                    ) != CoalesceResult::Success && attempt(st, offset, new, k)
                        != CoalesceResult::PktInvalidCsum
            }
            &&& forall|k: int|
                0 <= k < st.tcp.len() && (k >= n || !fits(st, offset, new, k)) ==> end.tcp.contains(
                    #[trigger] st.tcp[k],
                )
        }),
    decreases n,
{
    let (r, end) = gro::tcp_place(st, offset, new, n);
    if n <= 0 {
        assert forall|k: int| 0 <= k < st.tcp.len() implies end.tcp.contains(
            #[trigger] st.tcp[k],
        ) by {
            assert(end.tcp[k] == st.tcp[k]);
        }
    } else if !fits(st, offset, new, n - 1) {
        law_tcp_placed(st, offset, new, n - 1);
    } else {
        let v = attempt(st, offset, new, n - 1);
        if v == CoalesceResult::Success {
            assert forall|k: int|
                0 <= k < st.tcp.len() && (k >= n || !fits(st, offset, new, k)) implies
                end.tcp.contains(#[trigger] st.tcp[k]) by {
                assert(k != n - 1);
                assert(end.tcp[k] == st.tcp[k]);
            }
        } else if v == CoalesceResult::PktInvalidCsum {
            assert forall|k: int| 0 <= k < st.tcp.len() implies end.tcp.contains(
                #[trigger] st.tcp[k],
            ) by {
                assert(end.tcp[k] == st.tcp[k]);
            }
        } else if v == CoalesceResult::ItemInvalidCsum {
            let less = GroState { tcp: st.tcp.remove(n - 1), ..st };
            law_tcp_placed(less, offset, new, n - 1);
            assert forall|k: int| 0 <= k < n - 1 implies #[trigger] fits(less, offset, new, k)
                == fits(st, offset, new, k) && attempt(less, offset, new, k) == attempt(
                st,
                offset,
                new,
                k,
            ) by {
                assert(less.tcp[k] == st.tcp[k]);
            }
            assert forall|k: int| 0 <= k < n - 1 && #[trigger] fits(st, offset, new, k) implies fits(
                less,
                offset,
                new,
                k,
            ) by {
                assert(less.tcp[k] == st.tcp[k]);
            }
            assert forall|k: int|
                0 <= k < st.tcp.len() && (k >= n || !fits(st, offset, new, k)) implies
                end.tcp.contains(#[trigger] st.tcp[k]) by {
                if k < n - 1 {
                    assert(less.tcp[k] == st.tcp[k]);
                    assert(!fits(less, offset, new, k));
                } else {
                    assert(k != n - 1);
                    assert(less.tcp[k - 1] == st.tcp[k]);
                }
            }
        } else {
            law_tcp_placed(st, offset, new, n - 1);
        }
    }
}

proof fn lemma_pseudo(src: Seq<u8>, dst: Seq<u8>, proto: int, n: int)
    requires
        proto > 0,
        n >= 0,
        src.len() % 2 == 0,
        dst.len() % 2 == 0,
    ensures
        checksum::pseudo_sum(proto, src, dst, n) % 65535 == (plain::total(src) + plain::total(dst)
            + proto + n) % 65535,
{
    assert(checksum::even_part(src) =~= src);
    assert(checksum::even_part(dst) =~= dst);
    plain::lemma_total(src);
    plain::lemma_total(dst);
}

/// A merged TCP packet is written behind a header that asks for its split, with
/// its length and IP checksum in order, and with the sum of its pseudo header
/// where its checksum goes.
#[verifier::rlimit(60)]
pub proof fn law_tcp_written(b: Seq<u8>, offset: int, item: TcpGroItem, little: bool)
    requires
        10 <= offset,
        item.num_merged > 0,
        item.iph_len == (if item.key.is_v6 {
            40int
        } else {
            20int
        }),
        20 <= item.tcph_len <= 60,
        offset + item.iph_len + item.tcph_len <= b.len(),
        b.len() - offset <= 65535,
    ensures
        ({
            let w = gro::tcp_accounted(b, offset, item, little);
            let pkt = w.subrange(offset, w.len() as int);
            let o = GsoOptions {
                gso_type: if item.key.is_v6 {
                    GsoType::TcpV6
                } else {
                    GsoType::TcpV4
                },
                hdr_len: (item.iph_len + item.tcph_len) as u16,
                csum_start: item.iph_len as u16,
                csum_offset: 16,
                gso_size: item.gso_size,
                needs_csum: true,
            };
            let at = item.iph_len + 16;
            let n = pkt.len() - item.iph_len;
            &&& w.len() == b.len()
            &&& device_laws::asked(w.subrange(offset - 10, offset), little, o)
            &&& item.key.is_v6 ==> plain::n16(pkt, 4) == n && plain::n16(pkt, at) % 65535 == (
            plain::total(pkt.subrange(8, 24)) + plain::total(pkt.subrange(24, 40)) + 6 + n)
                % 65535
            &&& !item.key.is_v6 ==> plain::n16(pkt, 2) == pkt.len() && plain::balanced(
                plain::total(pkt.subrange(0, 20)),
            ) && plain::n16(pkt, at) % 65535 == (plain::total(pkt.subrange(12, 16)) + plain::total(
                pkt.subrange(16, 20),
            ) + 6 + n) % 65535
            &&& forall|k: int| item.iph_len + item.tcph_len <= k < pkt.len() ==> #[trigger] pkt[k] == b[offset + k]
        }),
{
    let w = gro::tcp_accounted(b, offset, item, little);
    let pkt = w.subrange(offset, w.len() as int);
    gro_laws::law_tcp_written_in_order(b, offset, item, little);
    let h = gso::hdr_bytes(gro::tcp_gso_hdr(item), little);
    assert(w.subrange(offset - 10, offset) == h);
    assert(1u8 % 2 == 1);
    let head = pkt.subrange(0, 20);
    plain::lemma_total(head);
    plain::lemma_balanced(plain::total(head));
    if item.key.is_v6 {
        lemma_pseudo(pkt.subrange(8, 24), pkt.subrange(24, 40), 6, pkt.len() - 40);
    } else {
        lemma_pseudo(pkt.subrange(12, 16), pkt.subrange(16, 20), 6, pkt.len() - 20);
    }
}

/// A merged UDP packet is written behind a header that asks for its split, with
/// its length and IP checksum in order, and with the sum of its pseudo header
/// where its checksum goes.
#[verifier::rlimit(60)]
pub proof fn law_udp_written(b: Seq<u8>, offset: int, item: UdpGroItem, little: bool)
    requires
        10 <= offset,
        item.num_merged > 0,
        item.iph_len == (if item.key.is_v6 {
            40int
        } else {
            20int
        }),
        offset + item.iph_len + 8 <= b.len(),
        b.len() - offset <= 65535,
    ensures
        ({
            let w = gro::udp_accounted(b, offset, item, little);
            let pkt = w.subrange(offset, w.len() as int);
            let o = GsoOptions {
                gso_type: GsoType::UdpL4,
                hdr_len: (item.iph_len + 8) as u16,
                csum_start: item.iph_len as u16,
                csum_offset: 6,
                gso_size: item.gso_size,
                needs_csum: true,
            };
            let at = item.iph_len + 6;
            let n = pkt.len() - item.iph_len;
            &&& w.len() == b.len()
            &&& device_laws::asked(w.subrange(offset - 10, offset), little, o)
            &&& item.key.is_v6 ==> plain::n16(pkt, 4) == n && plain::n16(pkt, at) % 65535 == (
            plain::total(pkt.subrange(8, 24)) + plain::total(pkt.subrange(24, 40)) + 17 + n)
                % 65535
            &&& !item.key.is_v6 ==> plain::n16(pkt, 2) == pkt.len() && plain::balanced(
                plain::total(pkt.subrange(0, 20)),
            ) && plain::n16(pkt, at) % 65535 == (plain::total(pkt.subrange(12, 16)) + plain::total(
                pkt.subrange(16, 20),
            ) + 17 + n) % 65535
            &&& plain::n16(pkt, item.iph_len + 4) == n
            &&& forall|k: int| item.iph_len + 8 <= k < pkt.len() ==> #[trigger] pkt[k] == b[offset + k]
        }),
{
    let w = gro::udp_accounted(b, offset, item, little);
    let pkt = w.subrange(offset, w.len() as int);
    gro_laws::law_udp_written_in_order(b, offset, item, little);
    let h = gso::hdr_bytes(gro::udp_gso_hdr(item), little);
    assert(w.subrange(offset - 10, offset) == h);
    assert(1u8 % 2 == 1);
    let head = pkt.subrange(0, 20);
    plain::lemma_total(head);
    plain::lemma_balanced(plain::total(head));
    if item.key.is_v6 {
        lemma_pseudo(pkt.subrange(8, 24), pkt.subrange(24, 40), 17, pkt.len() - 40);
    } else {
        lemma_pseudo(pkt.subrange(12, 16), pkt.subrange(16, 20), 17, pkt.len() - 20);
    }
}

/// A packet that nothing was merged to is written behind ten zeros, and is not
/// changed.
pub proof fn law_single_written(b: Seq<u8>, offset: int, t: TcpGroItem, u: UdpGroItem, little: bool)
    requires
        10 <= offset <= b.len(),
        t.num_merged == 0,
        u.num_merged == 0,
    ensures
        forall|k: int|
            0 <= k < b.len() ==> #[trigger] gro::tcp_accounted(b, offset, t, little)[k] == (
            if offset - 10 <= k < offset {
                0u8
            } else {
                b[k]
            }),
        forall|k: int|
            0 <= k < b.len() ==> #[trigger] gro::udp_accounted(b, offset, u, little)[k] == (
            if offset - 10 <= k < offset {
                0u8
            } else {
                b[k]
            }),
{
}

/// A held UDP packet of the flow, and none of the flow behind it.
pub open spec fn last_held(st: GroState, new: UdpGroItem, k: int) -> bool {
    &&& 0 <= k < st.udp.len()
    &&& st.udp[k].key == new.key
    &&& forall|j: int| k < j < st.udp.len() ==> (#[trigger] st.udp[j]).key != new.key
}

proof fn lemma_last_held(items: Seq<UdpGroItem>, key: gro::UdpFlowKey, n: int)
    requires
        0 <= n <= items.len(),
    ensures
        match gro::last_of_flow(items, key, n) {
            Some(k) => 0 <= k < n && items[k].key == key && forall|j: int|
                k < j < n ==> (#[trigger] items[j]).key != key,
            None => forall|j: int| 0 <= j < n ==> (#[trigger] items[j]).key != key,
        },
    decreases n,
{
    if n > 0 && items[n - 1].key != key {
        lemma_last_held(items, key, n - 1);
    }
}

/// Placing a UDP packet: one that may not be merged is left alone; else it is
/// put to the last held one of its flow, where the two fit and nothing is wrong
/// with them, and else on the table with no buffer changed.
pub proof fn law_udp_placed(st: GroState, offset: int, i: int, is_v6: bool)
    requires
        0 <= i <= usize::MAX,
    ensures
        ({
            let pkt = gro::packet(st.bufs, offset, i);
            let (r, end) = gro::udp_step(st, offset, i, is_v6);
            &&& end.tcp == st.tcp
            &&& end.caps == st.caps
            &&& end.to_write == st.to_write
            &&& r == GroResult::Noop <==> !fit_udp(pkt, is_v6)
            &&& r == GroResult::Noop ==> end == st
            &&& gro::udp_item(pkt, i, is_v6) matches Some(new) ==> {
                &&& r == GroResult::TableInsert ==> end.bufs == st.bufs && end.udp == st.udp.push(
                    new,
                )
                &&& r == GroResult::Coalesced ==> exists|k: int| #[trigger]
                    last_held(st, new, k) && taken_in(st, end, offset, i, new, k)
                &&& forall|k: int| #[trigger]
                    last_held(st, new, k) && may_take(st, offset, i, new, k) ==> r
                        == GroResult::Coalesced
            }
        }),
{
    let pkt = gro::packet(st.bufs, offset, i);
    law_fit_udp(pkt, i, is_v6);
    if let Some(new) = gro::udp_item(pkt, i, is_v6) {
        lemma_last_held(st.udp, new.key, st.udp.len() as int);
        let found = gro::last_of_flow(st.udp, new.key, st.udp.len() as int);
        if found is Some {
            let k = found->0;
            assert(last_held(st, new, k));
            assert forall|j: int| #[trigger] last_held(st, new, j) implies j == k by {
                if j < k {
                    assert(st.udp[k].key != new.key);
                } else if k < j {
                    assert(st.udp[j].key != new.key);
                }
            }
        }
    }
}

/// The held packet may take the new one in.
pub open spec fn may_take(st: GroState, offset: int, i: int, new: UdpGroItem, k: int) -> bool {
    let item = st.udp[k];
    let at = item.bufs_index as int;
    let pkt = gro::packet(st.bufs, offset, i);
    let held = gro::packet(st.bufs, offset, at);
    &&& gro::udp_direction(pkt, new, item, held) == CanCoalesce::Append
    &&& gro::udp_verdict(pkt, item, held, st.caps[at] - st.bufs[at].len())
        == CoalesceResult::Success
}

/// The held packet took the new one in, and counts one piece more.
pub open spec fn taken_in(
    st: GroState,
    end: GroState,
    offset: int,
    i: int,
    new: UdpGroItem,
    k: int,
) -> bool {
    &&& may_take(st, offset, i, new, k)
    &&& end.bufs == gro::udp_merged_bufs(new, st.udp[k], st.bufs, offset)
    &&& end.udp.len() == st.udp.len()
    &&& forall|j: int| 0 <= j < st.udp.len() && j != k ==> #[trigger] end.udp[j] == st.udp[j]
    &&& end.udp[k].key == st.udp[k].key
    &&& end.udp[k].bufs_index == st.udp[k].bufs_index
    &&& end.udp[k].gso_size == st.udp[k].gso_size
    &&& end.udp[k].iph_len == st.udp[k].iph_len
    &&& end.udp[k].num_merged == (st.udp[k].num_merged + 1) as u16
}

/// A packet is looked at as what it is.
pub proof fn law_looked_at(st: GroState, offset: int, tcp: bool, udp: bool, i: int)
    ensures
        ({
            let b = gro::packet(st.bufs, offset, i);
            let r = gro::gro_look(st, offset, tcp, udp, i);
            &&& tcp && b.len() >= 40 && b[0] == 0x45 && b[9] == 6 ==> r == gro::tcp_step(
                st,
                offset,
                i,
                false,
            )
            &&& tcp && b.len() >= 60 && b[0] / 16 == 6 && b[6] == 6 ==> r == gro::tcp_step(
                st,
                offset,
                i,
                true,
            )
            &&& udp && b.len() >= 28 && b[0] == 0x45 && b[9] == 17 ==> r == gro::udp_step(
                st,
                offset,
                i,
                false,
            )
            &&& udp && b.len() >= 48 && b[0] / 16 == 6 && b[6] == 17 ==> r == gro::udp_step(
                st,
                offset,
                i,
                true,
            )
            &&& !tcp && !udp ==> r == (GroResult::Noop, st)
            &&& b.len() < 28 || (b[0] != 0x45 && b[0] / 16 != 6) ==> r == (GroResult::Noop, st)
        }),
{
    reveal(gro::gro_look);
    law_candidates(gro::packet(st.bufs, offset, i), tcp, udp);
}

/// A TCP packet that may be merged is placed among the held ones, and one that
/// may not is left alone.
pub proof fn law_tcp_stepped(st: GroState, offset: int, i: int, is_v6: bool)
    requires
        0 <= i <= usize::MAX,
    ensures
        ({
            let pkt = gro::packet(st.bufs, offset, i);
            match gro::tcp_item(pkt, i, is_v6) {
                Some(new) => fit_tcp(pkt, is_v6) && gro::tcp_step(st, offset, i, is_v6)
                    == gro::tcp_place(st, offset, new, st.tcp.len() as int),
                None => !fit_tcp(pkt, is_v6) && gro::tcp_step(st, offset, i, is_v6) == (
                    GroResult::Noop,
                    st,
                ),
            }
        }),
{
    law_fit_tcp(gro::packet(st.bufs, offset, i), i, is_v6);
}

/// After the look at a packet it is listed to be written, unless it was merged;
/// one that is left alone gets ten zeros in front.
pub proof fn law_listed(st: GroState, offset: int, tcp: bool, udp: bool, i: int)
    requires
        0 <= i < st.bufs.len(),
        i <= usize::MAX,
        10 <= offset <= gro::gro_look(st, offset, tcp, udp, i).1.bufs[i].len(),
        i < gro::gro_look(st, offset, tcp, udp, i).1.bufs.len(),
    ensures
        ({
            let (r, seen) = gro::gro_look(st, offset, tcp, udp, i);
            let end = gro::gro_step(st, offset, tcp, udp, i);
            &&& r == GroResult::Coalesced ==> end == seen
            &&& r != GroResult::Coalesced ==> end.to_write == seen.to_write.push(i as usize)
                && end.tcp == seen.tcp && end.udp == seen.udp && end.caps == seen.caps
            &&& r == GroResult::TableInsert ==> end.bufs == seen.bufs
            &&& r == GroResult::Noop ==> {
                &&& end.bufs.len() == seen.bufs.len()
                &&& forall|k: int| 0 <= k < seen.bufs.len() && k != i ==> #[trigger] end.bufs[k]
                    == seen.bufs[k]
                &&& end.bufs[i].len() == seen.bufs[i].len()
                &&& forall|k: int|
                    0 <= k < seen.bufs[i].len() ==> #[trigger] end.bufs[i][k] == (if offset - 10
                        <= k < offset {
                        0u8
                    } else {
                        seen.bufs[i][k]
                    })
            }
        }),
{
}

} // verus!
