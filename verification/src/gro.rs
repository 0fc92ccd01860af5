//! Generic receive offload: packets of one flow that follow each other are
//! merged into one large packet before they are written.
use vstd::prelude::*;

use crate::checksum;
use crate::checksum::{complement, pseudo_header_checksum};
use crate::gso;
use crate::gso::{GsoError, VirtioNetHdr, VIRTIO_NET_HDR_LEN};
use crate::wire;
use crate::wire::{bytes_eq, get_be128, get_be16, get_be32, native_one, set_be16, sub_vec};

verus! {

/// How a packet takes part in merging.
#[derive(Clone, Copy, Debug, PartialEq, Eq, Structural)]
pub enum GroCandidateType {
    NotCandidate,
    Tcp4,
    Tcp6,
    Udp4,
    Udp6,
}

/// Which protocols are kept from merging.
#[derive(Clone, Copy, Debug, PartialEq, Eq, Structural)]
pub struct GroDisablementFlags {
    pub tcp_off: bool,
    pub udp_off: bool,
}

impl Default for GroDisablementFlags {
    fn default() -> (flags: Self)
        ensures
            flags.tcp_allowed(),
            flags.udp_allowed(),
    {
        GroDisablementFlags { tcp_off: false, udp_off: false }
    }
}

impl GroDisablementFlags {
    pub open spec fn tcp_allowed(self) -> bool {
        !self.tcp_off
    }

    pub open spec fn udp_allowed(self) -> bool {
        !self.udp_off
    }

    pub fn disable_tcp(&mut self)
        ensures
            !final(self).tcp_allowed(),
            final(self).udp_allowed() == old(self).udp_allowed(),
    {
        self.tcp_off = true;
    }

    pub fn can_tcp(&self) -> (r: bool)
        ensures
            r == self.tcp_allowed(),
    {
        !self.tcp_off
    }

    pub fn disable_udp(&mut self)
        ensures
            !final(self).udp_allowed(),
            final(self).tcp_allowed() == old(self).tcp_allowed(),
    {
        self.udp_off = true;
    }

    pub fn can_udp(&self) -> (r: bool)
        ensures
            r == self.udp_allowed(),
    {
        !self.udp_off
    }
}

/// How a packet takes part in merging: long enough for its headers, IPv4
/// without options, TCP or UDP, and the protocol not switched off.
pub open spec fn gro_candidate(b: Seq<u8>, tcp: bool, udp: bool) -> GroCandidateType {
    if b.len() < 28 {
        GroCandidateType::NotCandidate
    } else if b[0] / 16 == 4 {
        if b[0] % 16 != 5 {
            GroCandidateType::NotCandidate
        } else if b[9] == 6 && b.len() >= 40 && tcp {
            GroCandidateType::Tcp4
        } else if b[9] == 17 && udp {
            GroCandidateType::Udp4
        } else {
            GroCandidateType::NotCandidate
        }
    } else if b[0] / 16 == 6 {
        if b[6] == 6 && b.len() >= 60 && tcp {
            GroCandidateType::Tcp6
        } else if b[6] == 17 && b.len() >= 48 && udp {
            GroCandidateType::Udp6
        } else {
            GroCandidateType::NotCandidate
        }
    } else {
        GroCandidateType::NotCandidate
    }
}

pub fn packet_is_gro_candidate(b: &[u8], gro: GroDisablementFlags) -> (r: GroCandidateType)
    ensures
        r == gro_candidate(b@, gro.tcp_allowed(), gro.udp_allowed()),
{
    if b.len() < 28 {
        return GroCandidateType::NotCandidate;
    }
    if b[0] / 16 == 4 {
        if b[0] % 16 != 5 {
            return GroCandidateType::NotCandidate;
        }
        if b[9] == 6 && b.len() >= 40 && gro.can_tcp() {
            return GroCandidateType::Tcp4;
        }
        if b[9] == 17 && gro.can_udp() {
            return GroCandidateType::Udp4;
        }
    } else if b[0] / 16 == 6 {
        if b[6] == 6 && b.len() >= 60 && gro.can_tcp() {
            return GroCandidateType::Tcp6;
        }
        if b[6] == 17 && b.len() >= 48 && gro.can_udp() {
            return GroCandidateType::Udp6;
        }
    }
    GroCandidateType::NotCandidate
}

/// What the packets of one TCP flow have in common. Packets that acknowledge
/// different bytes are kept apart too.
#[derive(Clone, Copy, Debug, PartialEq, Eq, Structural)]
pub struct TcpFlowKey {
    pub src_addr: u128,
    pub dst_addr: u128,
    pub src_port: u16,
    pub dst_port: u16,
    pub rx_ack: u32,
    pub is_v6: bool,
}

/// What the packets of one UDP flow have in common.
#[derive(Clone, Copy, Debug, PartialEq, Eq, Structural)]
pub struct UdpFlowKey {
    pub src_addr: u128,
    pub dst_addr: u128,
    pub src_port: u16,
    pub dst_port: u16,
    pub is_v6: bool,
}

/// The length of the IP header of a packet that can be merged.
pub open spec fn ip_len(is_v6: bool) -> int {
    if is_v6 {
        40
    } else {
        20
    }
}

/// The source address as a number.
pub open spec fn src_addr(pkt: Seq<u8>, is_v6: bool) -> int {
    if is_v6 {
        wire::be128(pkt, 8)
    } else {
        wire::be32(pkt, 12)
    }
}

/// The destination address as a number.
pub open spec fn dst_addr(pkt: Seq<u8>, is_v6: bool) -> int {
    if is_v6 {
        wire::be128(pkt, 24)
    } else {
        wire::be32(pkt, 16)
    }
}

pub open spec fn tcp_flow_key(pkt: Seq<u8>, is_v6: bool) -> TcpFlowKey {
    let at = ip_len(is_v6);
    TcpFlowKey {
        src_addr: src_addr(pkt, is_v6) as u128,
        dst_addr: dst_addr(pkt, is_v6) as u128,
        src_port: wire::be16(pkt, at) as u16,
        dst_port: wire::be16(pkt, at + 2) as u16,
        rx_ack: wire::be32(pkt, at + 8) as u32,
        is_v6,
    }
}

pub open spec fn udp_flow_key(pkt: Seq<u8>, is_v6: bool) -> UdpFlowKey {
    let at = ip_len(is_v6);
    UdpFlowKey {
        src_addr: src_addr(pkt, is_v6) as u128,
        dst_addr: dst_addr(pkt, is_v6) as u128,
        src_port: wire::be16(pkt, at) as u16,
        dst_port: wire::be16(pkt, at + 2) as u16,
        is_v6,
    }
}

impl TcpFlowKey {
    pub fn new(pkt: &[u8], is_v6: bool) -> (key: Self)
        requires
            pkt.len() >= ip_len(is_v6) + 20,
        ensures
            key == tcp_flow_key(pkt@, is_v6),
    {
        let at: usize = if is_v6 {
            40
        } else {
            20
        };
        TcpFlowKey {
            src_addr: if is_v6 {
                get_be128(pkt, 8)
            } else {
                get_be32(pkt, 12) as u128
            },
            dst_addr: if is_v6 {
                get_be128(pkt, 24)
            } else {
                get_be32(pkt, 16) as u128
            },
            src_port: get_be16(pkt, at),
            dst_port: get_be16(pkt, at + 2),
            rx_ack: get_be32(pkt, at + 8),
            is_v6,
        }
    }
}

impl UdpFlowKey {
    pub fn new(pkt: &[u8], is_v6: bool) -> (key: Self)
        requires
            pkt.len() >= ip_len(is_v6) + 8,
        ensures
            key == udp_flow_key(pkt@, is_v6),
    {
        let at: usize = if is_v6 {
            40
        } else {
            20
        };
        UdpFlowKey {
            src_addr: if is_v6 {
                get_be128(pkt, 8)
            } else {
                get_be32(pkt, 12) as u128
            },
            dst_addr: if is_v6 {
                get_be128(pkt, 24)
            } else {
                get_be32(pkt, 16) as u128
            },
            src_port: get_be16(pkt, at),
            dst_port: get_be16(pkt, at + 2),
            is_v6,
        }
    }
}

/// A TCP packet that later ones may be merged into. `bufs_index` is its place
/// in the batch and `num_merged` how many packets it has taken in.
#[derive(Clone, Copy, Debug, PartialEq, Eq, Structural)]
pub struct TcpGroItem {
    pub key: TcpFlowKey,
    pub sent_seq: u32,
    pub bufs_index: usize,
    pub num_merged: u16,
    pub gso_size: u16,
    pub iph_len: u8,
    pub tcph_len: u8,
    pub psh_set: bool,
}

/// A UDP packet that later ones may be merged into.
#[derive(Clone, Copy, Debug, PartialEq, Eq, Structural)]
pub struct UdpGroItem {
    pub key: UdpFlowKey,
    pub bufs_index: usize,
    pub num_merged: u16,
    pub gso_size: u16,
    pub iph_len: u8,
}

/// The TCP packets of a batch that later ones may be merged into, in the order
/// in which they came.
pub struct TcpGroTable {
    pub items: Vec<TcpGroItem>,
}

impl Default for TcpGroTable {
    fn default() -> (table: Self)
        ensures
            table.holds_nothing(),
    {
        Self::new()
    }
}

impl TcpGroTable {
    /// The table holds no packet of any flow.
    pub open spec fn holds_nothing(&self) -> bool {
        self.items@.len() == 0
    }

    pub fn new() -> (table: Self)
        ensures
            table.holds_nothing(),
    {
        TcpGroTable { items: Vec::with_capacity(gso::IDEAL_BATCH_SIZE) }
    }

    /// Forgets all packets: the table is as good as a new one.
    pub fn reset(&mut self)
        ensures
            final(self).holds_nothing(),
    {
        self.items.clear();
    }
}

/// The UDP packets of a batch that later ones may be merged into, in the order
/// in which they came.
pub struct UdpGroTable {
    pub items: Vec<UdpGroItem>,
}

impl Default for UdpGroTable {
    fn default() -> (table: Self)
        ensures
            table.holds_nothing(),
    {
        Self::new()
    }
}

impl UdpGroTable {
    /// The table holds no packet of any flow.
    pub open spec fn holds_nothing(&self) -> bool {
        self.items@.len() == 0
    }

    pub fn new() -> (table: Self)
        ensures
            table.holds_nothing(),
    {
        UdpGroTable { items: Vec::with_capacity(gso::IDEAL_BATCH_SIZE) }
    }

    /// Forgets all packets: the table is as good as a new one.
    pub fn reset(&mut self)
        ensures
            final(self).holds_nothing(),
    {
        self.items.clear();
    }
}

/// The folded sum over the pseudo header and everything behind the IP header
/// is that of a valid checksum.
pub open spec fn transport_sum_valid(pkt: Seq<u8>, iph_len: int, proto: int, is_v6: bool) -> bool {
    let at = if is_v6 {
        8int
    } else {
        12int
    };
    let n = if is_v6 {
        16int
    } else {
        4int
    };
    &&& pkt.len() >= at + 2 * n
    &&& checksum::ones_fold(
        checksum::pseudo_sum(
            proto,
            pkt.subrange(at, at + n),
            pkt.subrange(at + n, at + 2 * n),
            (pkt.len() - iph_len) % 65536,
        ) + checksum::word_sum(pkt.subrange(iph_len, pkt.len() as int)),
    ) == 65535
}

/// Whether the transport checksum of a packet is valid.
pub fn checksum_valid(pkt: &[u8], iph_len: u8, proto: u8, is_v6: bool) -> (r: bool)
    requires
        iph_len <= pkt.len(),
    ensures
        r == transport_sum_valid(pkt@, iph_len as int, proto as int, is_v6),
{
    let at: usize = if is_v6 {
        8
    } else {
        12
    };
    let n: usize = if is_v6 {
        16
    } else {
        4
    };
    if pkt.len() < at + 2 * n {
        return false;
    }
    let length: u16 = ((pkt.len() - iph_len as usize) % 65536) as u16;
    let pseudo: u16 = pseudo_header_checksum(
        proto,
        &pkt[at..at + n],
        &pkt[at + n..at + 2 * n],
        length,
    );
    complement(checksum::checksum(&pkt[iph_len as usize..pkt.len()], pseudo)) == 0
}

/// The directions in which a packet may join another.
#[derive(Clone, Copy, Debug, PartialEq, Eq, Structural)]
pub enum CanCoalesce {
    Prepend,
    Unavailable,
    Append,
}

/// Two IP headers agree in what merging would otherwise lose: for IPv6 the
/// version, the traffic class and the hop limit, for IPv4 the type of service,
/// the fragment flags and the time to live.
pub open spec fn ip_headers_agree(a: Seq<u8>, b: Seq<u8>) -> bool {
    &&& a.len() >= 9
    &&& b.len() >= 9
    &&& if a[0] / 16 == 6 {
        a[0] == b[0] && a[1] / 16 == b[1] / 16 && a[7] == b[7]
    } else {
        a[1] == b[1] && a[6] / 32 == b[6] / 32 && a[8] == b[8]
    }
}

pub fn ip_headers_can_coalesce(pkt_a: &[u8], pkt_b: &[u8]) -> (r: bool)
    ensures
        r == ip_headers_agree(pkt_a@, pkt_b@),
{
    if pkt_a.len() < 9 || pkt_b.len() < 9 {
        return false;
    }
    if pkt_a[0] / 16 == 6 {
        pkt_a[0] == pkt_b[0] && pkt_a[1] / 16 == pkt_b[1] / 16 && pkt_a[7] == pkt_b[7]
    } else {
        pkt_a[1] == pkt_b[1] && pkt_a[6] / 32 == pkt_b[6] / 32 && pkt_a[8] == pkt_b[8]
    }
}

/// A TCP packet that can be merged, as an item of its own.
pub open spec fn tcp_item(pkt: Seq<u8>, pkt_i: int, is_v6: bool) -> Option<TcpGroItem> {
    let at = ip_len(is_v6);
    let tcph_len = pkt[at + 12] / 16 * 4;
    let flags = pkt[at + 13];
    if pkt.len() > 65535 {
        None
    } else if is_v6 && wire::be16(pkt, 4) != pkt.len() - 40 {
        None
    } else if !is_v6 && wire::be16(pkt, 2) != pkt.len() {
        None
    } else if tcph_len < 20 || pkt.len() <= at + tcph_len {
        None
    } else if !is_v6 && is_fragment(pkt) {
        None
    } else if flags != 0x10 && flags != 0x18 {
        None
    } else {
        Some(
            TcpGroItem {
                key: tcp_flow_key(pkt, is_v6),
                sent_seq: wire::be32(pkt, at + 4) as u32,
                bufs_index: pkt_i as usize,
                num_merged: 0,
                gso_size: (pkt.len() - at - tcph_len) as u16,
                iph_len: at as u8,
                tcph_len: tcph_len as u8,
                psh_set: flags == 0x18,
            },
        )
    }
}

/// The packet is a fragment: more fragments follow, or it does not start at
/// offset zero.
pub open spec fn is_fragment(pkt: Seq<u8>) -> bool {
    wire::be16(pkt, 6) % 0x4000 != 0
}

/// A UDP packet that can be merged, as an item of its own.
pub open spec fn udp_item(pkt: Seq<u8>, pkt_i: int, is_v6: bool) -> Option<UdpGroItem> {
    let at = ip_len(is_v6);
    if pkt.len() > 65535 {
        None
    } else if is_v6 && wire::be16(pkt, 4) != pkt.len() - 40 {
        None
    } else if !is_v6 && wire::be16(pkt, 2) != pkt.len() {
        None
    } else if pkt.len() <= at + 8 {
        None
    } else if !is_v6 && is_fragment(pkt) {
        None
    } else {
        Some(
            UdpGroItem {
                key: udp_flow_key(pkt, is_v6),
                bufs_index: pkt_i as usize,
                num_merged: 0,
                gso_size: (pkt.len() - at - 8) as u16,
                iph_len: at as u8,
            },
        )
    }
}

/// Reads a TCP packet as an item of its own, where it can be merged.
fn read_tcp_item(pkt: &[u8], pkt_i: usize, is_v6: bool) -> (r: Option<TcpGroItem>)
    requires
        pkt.len() >= ip_len(is_v6) + 20,
    ensures
        r == tcp_item(pkt@, pkt_i as int, is_v6),
{
    let len: usize = pkt.len();
    let at: usize = if is_v6 {
        40
    } else {
        20
    };
    if len > 65535 {
        return None;
    }
    if is_v6 {
        if get_be16(pkt, 4) as usize != len - 40 {
            return None;
        }
    } else if get_be16(pkt, 2) as usize != len {
        return None;
    }
    let tcph_len: usize = (pkt[at + 12] / 16) as usize * 4;
    if tcph_len < 20 || len <= at + tcph_len {
        return None;
    }
    if !is_v6 && get_be16(pkt, 6) % 0x4000 != 0 {
        return None;
    }
    let flags: u8 = pkt[at + 13];
    if flags != 0x10 && flags != 0x18 {
        return None;
    }
    Some(
        TcpGroItem {
            key: TcpFlowKey::new(pkt, is_v6),
            sent_seq: get_be32(pkt, at + 4),
            bufs_index: pkt_i,
            num_merged: 0,
            gso_size: (len - at - tcph_len) as u16,
            iph_len: at as u8,
            tcph_len: tcph_len as u8,
            psh_set: flags == 0x18,
        },
    )
}

/// Reads a UDP packet as an item of its own, where it can be merged.
fn read_udp_item(pkt: &[u8], pkt_i: usize, is_v6: bool) -> (r: Option<UdpGroItem>)
    requires
        pkt.len() >= ip_len(is_v6) + 8,
    ensures
        r == udp_item(pkt@, pkt_i as int, is_v6),
{
    let len: usize = pkt.len();
    let at: usize = if is_v6 {
        40
    } else {
        20
    };
    if len > 65535 {
        return None;
    }
    if is_v6 {
        if get_be16(pkt, 4) as usize != len - 40 {
            return None;
        }
    } else if get_be16(pkt, 2) as usize != len {
        return None;
    }
    if len <= at + 8 {
        return None;
    }
    if !is_v6 && get_be16(pkt, 6) % 0x4000 != 0 {
        return None;
    }
    Some(
        UdpGroItem {
            key: UdpFlowKey::new(pkt, is_v6),
            bufs_index: pkt_i,
            num_merged: 0,
            gso_size: (len - at - 8) as u16,
            iph_len: at as u8,
        },
    )
}

/// How the packet `pkt`, read as the item `new`, may join `item`, whose packet
/// is `target`: behind it if its sequence number is the next one, in front of
/// it if `item` starts where it ends.
pub open spec fn tcp_direction(
    pkt: Seq<u8>,
    new: TcpGroItem,
    item: TcpGroItem,
    target: Seq<u8>,
) -> CanCoalesce {
    let at = item.iph_len as int;
    let end = at + item.tcph_len;
    if new.tcph_len != item.tcph_len || pkt.subrange(at + 20, end) != target.subrange(at + 20, end)
        || !ip_headers_agree(pkt, target) {
        CanCoalesce::Unavailable
    } else if new.sent_seq == (item.sent_seq + item.gso_size * (1 + item.num_merged))
        % 0x1_0000_0000 {
        if item.psh_set || (target.len() - end) % (item.gso_size as int) != 0 || new.gso_size
            > item.gso_size {
            CanCoalesce::Unavailable
        } else {
            CanCoalesce::Append
        }
    } else if (new.sent_seq + new.gso_size) % 0x1_0000_0000 == item.sent_seq {
        if new.psh_set || new.gso_size < item.gso_size || (new.gso_size > item.gso_size
            && item.num_merged > 0) {
            CanCoalesce::Unavailable
        } else {
            CanCoalesce::Prepend
        }
    } else {
        CanCoalesce::Unavailable
    }
}

/// How a UDP packet may join `item`: behind it, unless it is longer or a
/// shorter one came before.
pub open spec fn udp_direction(
    pkt: Seq<u8>,
    new: UdpGroItem,
    item: UdpGroItem,
    target: Seq<u8>,
) -> CanCoalesce {
    if !ip_headers_agree(pkt, target) || (target.len() - new.iph_len - 8) % (item.gso_size as int)
        != 0 || new.gso_size > item.gso_size {
        CanCoalesce::Unavailable
    } else {
        CanCoalesce::Append
    }
}

pub fn tcp_packets_can_coalesce(
    pkt: &[u8],
    new: &TcpGroItem,
    item: &TcpGroItem,
    target: &[u8],
) -> (r: CanCoalesce)
    requires
        new.iph_len == item.iph_len,
        new.tcph_len >= 20,
        new.iph_len + new.tcph_len <= pkt.len(),
        item.iph_len + item.tcph_len <= target.len(),
        item.gso_size > 0,
    ensures
        r == tcp_direction(pkt@, *new, *item, target@),
{
    if new.tcph_len != item.tcph_len {
        return CanCoalesce::Unavailable;
    }
    let at: usize = item.iph_len as usize;
    let end: usize = at + item.tcph_len as usize;
    if !bytes_eq(&pkt[at + 20..end], &target[at + 20..end]) {
        return CanCoalesce::Unavailable;
    }
    if !ip_headers_can_coalesce(pkt, target) {
        return CanCoalesce::Unavailable;
    }
    assert(item.gso_size * (1 + item.num_merged) <= 65535 * 65536) by (nonlinear_arith)
        requires
            item.gso_size <= 65535,
            item.num_merged <= 65535,
    ;
    assert(item.gso_size * (1 + item.num_merged) >= 0) by (nonlinear_arith);
    let held: u64 = (item.gso_size as u64) * (1 + item.num_merged as u64);
    let next: u32 = ((item.sent_seq as u64 + held) % 0x1_0000_0000) as u32;
    let after: u32 = ((new.sent_seq as u64 + new.gso_size as u64) % 0x1_0000_0000) as u32;
    if new.sent_seq == next {
        if item.psh_set || (target.len() - end) % (item.gso_size as usize) != 0 || new.gso_size
            > item.gso_size {
            return CanCoalesce::Unavailable;
        }
        CanCoalesce::Append
    } else if after == item.sent_seq {
        if new.psh_set || new.gso_size < item.gso_size || (new.gso_size > item.gso_size
            && item.num_merged > 0) {
            return CanCoalesce::Unavailable;
        }
        CanCoalesce::Prepend
    } else {
        CanCoalesce::Unavailable
    }
}

pub fn udp_packets_can_coalesce(
    pkt: &[u8],
    new: &UdpGroItem,
    item: &UdpGroItem,
    target: &[u8],
) -> (r: CanCoalesce)
    requires
        new.iph_len + 8 <= target.len(),
        item.gso_size > 0,
    ensures
        r == udp_direction(pkt@, *new, *item, target@),
{
    if !ip_headers_can_coalesce(pkt, target) {
        return CanCoalesce::Unavailable;
    }
    if (target.len() - new.iph_len as usize - 8) % (item.gso_size as usize) != 0 {
        return CanCoalesce::Unavailable;
    }
    if new.gso_size > item.gso_size {
        return CanCoalesce::Unavailable;
    }
    CanCoalesce::Append
}

/// What came of an attempt to merge.
#[derive(Clone, Copy, Debug, PartialEq, Eq, Structural)]
pub enum CoalesceResult {
    InsufficientCap,
    PshEnding,
    ItemInvalidCsum,
    PktInvalidCsum,
    Success,
}

/// What became of a packet.
#[derive(Clone, Copy, Debug, PartialEq, Eq, Structural)]
pub enum GroResult {
    Noop,
    TableInsert,
    Coalesced,
}

/// A batch while it is being merged: the buffers, how many bytes each can
/// hold without being moved, the items of both tables, and the buffers to be
/// written.
#[verifier::ext_equal]
pub struct GroState {
    pub bufs: Seq<Seq<u8>>,
    pub caps: Seq<usize>,
    pub tcp: Seq<TcpGroItem>,
    pub udp: Seq<UdpGroItem>,
    pub to_write: Seq<usize>,
}

/// What comes of an attempt to merge `pkt` with `item`, whose packet is
/// `target`, where the buffer that grows has `room` left. A checksum is looked
/// at only once for an item. An item whose count is at its limit takes nothing
/// more in.
pub open spec fn tcp_verdict(
    direction: CanCoalesce,
    pkt: Seq<u8>,
    new: TcpGroItem,
    item: TcpGroItem,
    target: Seq<u8>,
    room: int,
) -> CoalesceResult {
    let headers = item.iph_len + item.tcph_len;
    let extra = if direction == CanCoalesce::Prepend {
        target.len() - headers
    } else {
        pkt.len() - headers
    };
    if room < extra {
        CoalesceResult::InsufficientCap
    } else if direction == CanCoalesce::Prepend && new.psh_set {
        CoalesceResult::PshEnding
    } else if item.num_merged == 0 && !transport_sum_valid(
        target,
        item.iph_len as int,
        6,
        item.key.is_v6,
    ) {
        CoalesceResult::ItemInvalidCsum
    } else if !transport_sum_valid(pkt, item.iph_len as int, 6, item.key.is_v6) {
        CoalesceResult::PktInvalidCsum
    } else if item.num_merged == u16::MAX {
        CoalesceResult::InsufficientCap
    } else {
        CoalesceResult::Success
    }
}

/// The item after a merge.
pub open spec fn tcp_merged_item(
    direction: CanCoalesce,
    new: TcpGroItem,
    item: TcpGroItem,
) -> TcpGroItem {
    TcpGroItem {
        sent_seq: if direction == CanCoalesce::Prepend {
            new.sent_seq
        } else {
            item.sent_seq
        },
        psh_set: item.psh_set || (direction != CanCoalesce::Prepend && new.psh_set),
        gso_size: if new.gso_size > item.gso_size {
            new.gso_size
        } else {
            item.gso_size
        },
        num_merged: (item.num_merged + 1) as u16,
        ..item
    }
}

/// The buffers after a merge. Behind: the payload of the packet is added to
/// the item's buffer, and its PSH flag with it. In front: the item's payload is
/// added to the packet's buffer, and the two buffers change places.
pub open spec fn tcp_merged_bufs(
    direction: CanCoalesce,
    new: TcpGroItem,
    item: TcpGroItem,
    bufs: Seq<Seq<u8>>,
    offset: int,
) -> Seq<Seq<u8>> {
    let headers = item.iph_len + item.tcph_len;
    let held = bufs[item.bufs_index as int];
    let came = bufs[new.bufs_index as int];
    if direction == CanCoalesce::Prepend {
        bufs.update(
            item.bufs_index as int,
            came + held.subrange(offset + headers, held.len() as int),
        ).update(new.bufs_index as int, held)
    } else {
        let flags_at = offset + item.iph_len + 13;
        let flagged = if new.psh_set {
            held.update(flags_at, held[flags_at] | 0x08)
        } else {
            held
        };
        bufs.update(
            item.bufs_index as int,
            flagged + came.subrange(offset + headers, came.len() as int),
        )
    }
}

/// The capacities after a merge: they go with their buffers.
pub open spec fn tcp_merged_caps(
    direction: CanCoalesce,
    new: TcpGroItem,
    item: TcpGroItem,
    caps: Seq<usize>,
) -> Seq<usize> {
    if direction == CanCoalesce::Prepend {
        caps.update(item.bufs_index as int, caps[new.bufs_index as int]).update(
            new.bufs_index as int,
            caps[item.bufs_index as int],
        )
    } else {
        caps
    }
}

/// The part of buffer `i` behind the offset.
pub open spec fn packet(bufs: Seq<Seq<u8>>, offset: int, i: int) -> Seq<u8> {
    bufs[i].subrange(offset, bufs[i].len() as int)
}

/// The packet of `new` is tried against the first `n` items of its flow, the
/// latest first, until one takes it in. An item with an invalid checksum
/// leaves the table; a packet with one is passed on alone; a packet that no
/// item takes becomes an item.
pub open spec fn tcp_place(st: GroState, offset: int, new: TcpGroItem, n: int) -> (
    GroResult,
    GroState,
)
    decreases n,
{
    if n <= 0 {
        (GroResult::TableInsert, (GroState { tcp: st.tcp.push(new), ..st }))
    } else {
        let item = st.tcp[n - 1];
        let pkt = packet(st.bufs, offset, new.bufs_index as int);
        let target = packet(st.bufs, offset, item.bufs_index as int);
        let direction = tcp_direction(pkt, new, item, target);
        if item.key != new.key || direction == CanCoalesce::Unavailable {
            tcp_place(st, offset, new, n - 1)
        } else {
            let grows = if direction == CanCoalesce::Prepend {
                new.bufs_index as int
            } else {
                item.bufs_index as int
            };
            match tcp_verdict(
                direction,
                pkt,
                new,
                item,
                target,
                st.caps[grows] - st.bufs[grows].len(),
            ) {
                CoalesceResult::Success => (
                    GroResult::Coalesced,
                    (GroState {
                        bufs: tcp_merged_bufs(direction, new, item, st.bufs, offset),
                        caps: tcp_merged_caps(direction, new, item, st.caps),
                        tcp: st.tcp.update(n - 1, tcp_merged_item(direction, new, item)),
                        ..st
                    }),
                ),
                CoalesceResult::ItemInvalidCsum => tcp_place(
                    (GroState { tcp: st.tcp.remove(n - 1), ..st }),
                    offset,
                    new,
                    n - 1,
                ),
                CoalesceResult::PktInvalidCsum => (GroResult::Noop, st),
                _ => tcp_place(st, offset, new, n - 1),
            }
        }
    }
}

/// What becomes of the TCP packet in buffer `i`.
pub open spec fn tcp_step(st: GroState, offset: int, i: int, is_v6: bool) -> (GroResult, GroState) {
    match tcp_item(packet(st.bufs, offset, i), i, is_v6) {
        None => (GroResult::Noop, st),
        Some(new) => tcp_place(st, offset, new, st.tcp.len() as int),
    }
}

/// An item describes a packet of the batch before `i`, long enough for its
/// headers.
pub open spec fn tcp_item_ok(item: TcpGroItem, bufs: Seq<Seq<u8>>, offset: int, i: int) -> bool {
    &&& item.bufs_index < i
    &&& item.iph_len == ip_len(item.key.is_v6)
    &&& 20 <= item.tcph_len <= 60
    &&& item.gso_size > 0
    &&& offset + item.iph_len + item.tcph_len <= bufs[item.bufs_index as int].len()
}

pub open spec fn udp_item_ok(item: UdpGroItem, bufs: Seq<Seq<u8>>, offset: int, i: int) -> bool {
    &&& item.bufs_index < i
    &&& item.iph_len == ip_len(item.key.is_v6)
    &&& item.gso_size > 0
    &&& offset + item.iph_len + 8 <= bufs[item.bufs_index as int].len()
}

/// The state after the first `i` packets of a batch: the items of each table
/// name different buffers in rising order, and no buffer is larger than its
/// capacity.
pub open spec fn gro_wf(st: GroState, offset: int, i: int) -> bool {
    &&& st.caps.len() == st.bufs.len()
    &&& forall|k: int| 0 <= k < st.bufs.len() ==> (#[trigger] st.bufs[k]).len() <= st.caps[k]
    &&& forall|k: int|
        0 <= k < st.tcp.len() ==> tcp_item_ok(#[trigger] st.tcp[k], st.bufs, offset, i)
    &&& forall|k: int|
        0 <= k < st.udp.len() ==> udp_item_ok(#[trigger] st.udp[k], st.bufs, offset, i)
    &&& forall|a: int, b: int|
        0 <= a < b < st.tcp.len() ==> (#[trigger] st.tcp[a]).bufs_index < (
        #[trigger] st.tcp[b]).bufs_index
    &&& forall|a: int, b: int|
        0 <= a < b < st.udp.len() ==> (#[trigger] st.udp[a]).bufs_index < (
        #[trigger] st.udp[b]).bufs_index
}

/// Merges the packet of `new` with `item`, where both checksums and the room
/// left allow it.
pub fn coalesce_tcp_packets(
    direction: CanCoalesce,
    new: &TcpGroItem,
    item: &mut TcpGroItem,
    bufs: &mut [Vec<u8>],
    caps: &mut Vec<usize>,
    offset: usize,
) -> (r: CoalesceResult)
    requires
        old(caps)@.len() == old(bufs)@.len(),
        forall|k: int|
            0 <= k < old(bufs)@.len() ==> (#[trigger] old(bufs)@[k])@.len() <= old(caps)@[k],
        old(item).bufs_index < new.bufs_index < old(bufs)@.len(),
        old(item).iph_len == ip_len(old(item).key.is_v6),
        20 <= old(item).tcph_len <= 60,
        offset + old(item).iph_len + old(item).tcph_len <= old(bufs)@[old(
            item,
        ).bufs_index as int].len(),
        offset + old(item).iph_len + old(item).tcph_len <= old(bufs)@[new.bufs_index as int].len(),
    ensures
        final(bufs)@.len() == old(bufs)@.len(),
        ({
            let pkt = packet(wire::views(old(bufs)@), offset as int, new.bufs_index as int);
            let target = packet(wire::views(old(bufs)@), offset as int, old(item).bufs_index as int);
            let grows = if direction == CanCoalesce::Prepend {
                new.bufs_index as int
            } else {
                old(item).bufs_index as int
            };
            r == tcp_verdict(
                direction,
                pkt,
                *new,
                *old(item),
                target,
                old(caps)@[grows] - old(bufs)@[grows]@.len(),
            )
        }),
        if r == CoalesceResult::Success {
            &&& wire::views(final(bufs)@) == tcp_merged_bufs(
                direction,
                *new,
                *old(item),
                wire::views(old(bufs)@),
                offset as int,
            )
            &&& final(caps)@ == tcp_merged_caps(direction, *new, *old(item), old(caps)@)
            &&& *final(item) == tcp_merged_item(direction, *new, *old(item))
        } else {
            &&& final(bufs)@ == old(bufs)@
            &&& final(caps)@ == old(caps)@
            &&& *final(item) == *old(item)
        },
{
    let headers: usize = item.iph_len as usize + item.tcph_len as usize;
    let at: usize = item.bufs_index;
    let pkt_i: usize = new.bufs_index;
    let held_len: usize = bufs[at].len();
    let came_len: usize = bufs[pkt_i].len();
    let ghost before = wire::views(bufs@);
    assert(before[at as int] == bufs@[at as int]@);
    assert(before[pkt_i as int] == bufs@[pkt_i as int]@);
    let prepend = direction == CanCoalesce::Prepend;
    let (room, extra): (usize, usize) = if prepend {
        (caps[pkt_i] - came_len, held_len - offset - headers)
    } else {
        (caps[at] - held_len, came_len - offset - headers)
    };
    if room < extra {
        return CoalesceResult::InsufficientCap;
    }
    if prepend && new.psh_set {
        return CoalesceResult::PshEnding;
    }
    if item.num_merged == 0 && !checksum_valid(
        &bufs[at].as_slice()[offset..held_len],
        item.iph_len,
        6,
        item.key.is_v6,
    ) {
        return CoalesceResult::ItemInvalidCsum;
    }
    if !checksum_valid(
        &bufs[pkt_i].as_slice()[offset..came_len],
        item.iph_len,
        6,
        item.key.is_v6,
    ) {
        return CoalesceResult::PktInvalidCsum;
    }
    if item.num_merged == u16::MAX {
        return CoalesceResult::InsufficientCap;
    }
    if prepend {
        item.sent_seq = new.sent_seq;
        let mut payload: Vec<u8> = sub_vec(bufs[at].as_slice(), offset + headers, held_len);
        bufs[pkt_i].append(&mut payload);
        let mut merged: Vec<u8> = Vec::new();
        std::mem::swap(&mut merged, &mut bufs[pkt_i]);
        std::mem::swap(&mut merged, &mut bufs[at]);
        bufs[pkt_i] = merged;
        let cap: usize = caps[at];
        let other: usize = caps[pkt_i];
        caps.set(at, other);
        caps.set(pkt_i, cap);
    } else {
        let mut payload: Vec<u8> = sub_vec(bufs[pkt_i].as_slice(), offset + headers, came_len);
        if new.psh_set {
            item.psh_set = true;
            let flags_at: usize = offset + item.iph_len as usize + 13;
            let flags: u8 = bufs[at][flags_at];
            bufs[at].set(flags_at, flags | 0x08);
        }
        bufs[at].append(&mut payload);
    }
    proof {
        assert(wire::views(bufs@) =~= tcp_merged_bufs(
            direction,
            *new,
            *old(item),
            before,
            offset as int,
        ));
    }
    if new.gso_size > item.gso_size {
        item.gso_size = new.gso_size;
    }
    item.num_merged = item.num_merged + 1;
    CoalesceResult::Success
}

/// What comes of an attempt to add a UDP packet to `item`.
pub open spec fn udp_verdict(
    pkt: Seq<u8>,
    item: UdpGroItem,
    target: Seq<u8>,
    room: int,
) -> CoalesceResult {
    if room < pkt.len() - item.iph_len - 8 {
        CoalesceResult::InsufficientCap
    } else if item.num_merged == 0 && !transport_sum_valid(
        target,
        item.iph_len as int,
        17,
        item.key.is_v6,
    ) {
        CoalesceResult::ItemInvalidCsum
    } else if !transport_sum_valid(pkt, item.iph_len as int, 17, item.key.is_v6) {
        CoalesceResult::PktInvalidCsum
    } else if item.num_merged == u16::MAX {
        CoalesceResult::InsufficientCap
    } else {
        CoalesceResult::Success
    }
}

/// The buffers after the payload of a UDP packet was added to that of `item`.
pub open spec fn udp_merged_bufs(
    new: UdpGroItem,
    item: UdpGroItem,
    bufs: Seq<Seq<u8>>,
    offset: int,
) -> Seq<Seq<u8>> {
    let came = bufs[new.bufs_index as int];
    bufs.update(
        item.bufs_index as int,
        bufs[item.bufs_index as int] + came.subrange(
            offset + item.iph_len + 8,
            came.len() as int,
        ),
    )
}

/// The place of the last of the first `n` items that belongs to a flow.
pub open spec fn last_of_flow(items: Seq<UdpGroItem>, key: UdpFlowKey, n: int) -> Option<int>
    decreases n,
{
    if n <= 0 {
        None
    } else if items[n - 1].key == key {
        Some(n - 1)
    } else {
        last_of_flow(items, key, n - 1)
    }
}

/// What becomes of the UDP packet in buffer `i`: the last item of its flow
/// takes it in, or it becomes an item.
pub open spec fn udp_step(st: GroState, offset: int, i: int, is_v6: bool) -> (GroResult, GroState) {
    let pkt = packet(st.bufs, offset, i);
    match udp_item(pkt, i, is_v6) {
        None => (GroResult::Noop, st),
        Some(new) => {
            let inserted = (
                GroResult::TableInsert,
                (GroState { udp: st.udp.push(new), ..st }),
            );
            match last_of_flow(st.udp, new.key, st.udp.len() as int) {
                None => inserted,
                Some(k) => {
                    let item = st.udp[k];
                    let at = item.bufs_index as int;
                    let target = packet(st.bufs, offset, at);
                    if udp_direction(pkt, new, item, target) == CanCoalesce::Append && udp_verdict(
                        pkt,
                        item,
                        target,
                        st.caps[at] - st.bufs[at].len(),
                    ) == CoalesceResult::Success {
                        (
                            GroResult::Coalesced,
                            (GroState {
                                bufs: udp_merged_bufs(new, item, st.bufs, offset),
                                udp: st.udp.update(
                                    k,
                                    (UdpGroItem {
                                        num_merged: (item.num_merged + 1) as u16,
                                        ..item
                                    }),
                                ),
                                ..st
                            }),
                        )
                    } else {
                        inserted
                    }
                },
            }
        },
    }
}

/// Adds the packet of `new` to `item`, where both checksums and the room left
/// allow it.
pub fn coalesce_udp_packets(
    new: &UdpGroItem,
    item: &mut UdpGroItem,
    bufs: &mut [Vec<u8>],
    cap: usize,
    offset: usize,
) -> (r: CoalesceResult)
    requires
        old(item).bufs_index < new.bufs_index < old(bufs)@.len(),
        old(bufs)@[old(item).bufs_index as int]@.len() <= cap,
        old(item).iph_len == ip_len(old(item).key.is_v6),
        offset + old(item).iph_len + 8 <= old(bufs)@[old(item).bufs_index as int].len(),
        offset + old(item).iph_len + 8 <= old(bufs)@[new.bufs_index as int].len(),
    ensures
        final(bufs)@.len() == old(bufs)@.len(),
        r == udp_verdict(
            packet(wire::views(old(bufs)@), offset as int, new.bufs_index as int),
            *old(item),
            packet(wire::views(old(bufs)@), offset as int, old(item).bufs_index as int),
            cap - old(bufs)@[old(item).bufs_index as int]@.len(),
        ),
        if r == CoalesceResult::Success {
            &&& wire::views(final(bufs)@) == udp_merged_bufs(
                *new,
                *old(item),
                wire::views(old(bufs)@),
                offset as int,
            )
            &&& *final(item) == (UdpGroItem {
                num_merged: (old(item).num_merged + 1) as u16,
                ..*old(item)
            })
        } else {
            &&& final(bufs)@ == old(bufs)@
            &&& *final(item) == *old(item)
        },
{
    let headers: usize = item.iph_len as usize + 8;
    let at: usize = item.bufs_index;
    let pkt_i: usize = new.bufs_index;
    let held_len: usize = bufs[at].len();
    let came_len: usize = bufs[pkt_i].len();
    let ghost before = wire::views(bufs@);
    assert(before[at as int] == bufs@[at as int]@);
    assert(before[pkt_i as int] == bufs@[pkt_i as int]@);
    if cap - held_len < came_len - offset - headers {
        return CoalesceResult::InsufficientCap;
    }
    if item.num_merged == 0 && !checksum_valid(
        &bufs[at].as_slice()[offset..held_len],
        item.iph_len,
        17,
        item.key.is_v6,
    ) {
        return CoalesceResult::ItemInvalidCsum;
    }
    if !checksum_valid(
        &bufs[pkt_i].as_slice()[offset..came_len],
        item.iph_len,
        17,
        item.key.is_v6,
    ) {
        return CoalesceResult::PktInvalidCsum;
    }
    if item.num_merged == u16::MAX {
        return CoalesceResult::InsufficientCap;
    }
    let mut payload: Vec<u8> = sub_vec(bufs[pkt_i].as_slice(), offset + headers, came_len);
    bufs[at].append(&mut payload);
    assert(wire::views(bufs@) =~= udp_merged_bufs(*new, *old(item), before, offset as int));
    item.num_merged = item.num_merged + 1;
    CoalesceResult::Success
}

/// The state of a batch whose buffers, capacities and tables are these.
pub open spec fn state_of(
    bufs: Seq<Vec<u8>>,
    caps: Seq<usize>,
    tcp: Seq<TcpGroItem>,
    udp: Seq<UdpGroItem>,
    to_write: Seq<usize>,
) -> GroState {
    GroState { bufs: wire::views(bufs), caps, tcp, udp, to_write }
}

/// Finds an earlier packet for the TCP packet in buffer `pkt_i` to join, or
/// enters it in the table.
fn tcp_gro(
    bufs: &mut [Vec<u8>],
    caps: &mut Vec<usize>,
    offset: usize,
    pkt_i: usize,
    table: &mut TcpGroTable,
    is_v6: bool,
    Ghost(udp): Ghost<Seq<UdpGroItem>>,
    Ghost(to_write): Ghost<Seq<usize>>,
) -> (r: GroResult)
    requires
        pkt_i < old(bufs)@.len(),
        offset + ip_len(is_v6) + 20 <= old(bufs)@[pkt_i as int].len(),
        gro_wf(
            state_of(old(bufs)@, old(caps)@, old(table).items@, udp, to_write),
            offset as int,
            pkt_i as int,
        ),
    ensures
        final(bufs)@.len() == old(bufs)@.len(),
        (
            r,
            state_of(final(bufs)@, final(caps)@, final(table).items@, udp, to_write),
        ) == tcp_step(
            state_of(old(bufs)@, old(caps)@, old(table).items@, udp, to_write),
            offset as int,
            pkt_i as int,
            is_v6,
        ),
        gro_wf(
            state_of(final(bufs)@, final(caps)@, final(table).items@, udp, to_write),
            offset as int,
            pkt_i + 1,
        ),
        forall|k: int|
            pkt_i < k < old(bufs)@.len() ==> (#[trigger] final(bufs)@[k])@ == old(bufs)@[k]@,
{
    let ghost st0 = state_of(bufs@, caps@, table.items@, udp, to_write);
    assert(st0.bufs[pkt_i as int] == bufs@[pkt_i as int]@);
    let len: usize = bufs[pkt_i].len();
    let new = match read_tcp_item(&bufs[pkt_i].as_slice()[offset..len], pkt_i, is_v6) {
        Some(new) => new,
        None => {
            return GroResult::Noop;
        },
    };
    let mut i: usize = table.items.len();
    while i > 0
        invariant
            pkt_i < bufs@.len(),
            bufs@ == old(bufs)@,
            caps@ == old(caps)@,
            st0 == state_of(old(bufs)@, old(caps)@, old(table).items@, udp, to_write),
            i <= table.items@.len(),
            new.bufs_index == pkt_i,
            tcp_item(packet(st0.bufs, offset as int, pkt_i as int), pkt_i as int, is_v6) == Some(
                new,
            ),
            len == bufs@[pkt_i as int]@.len(),
            offset + ip_len(is_v6) + 20 <= bufs@[pkt_i as int].len(),
            gro_wf(
                state_of(bufs@, caps@, table.items@, udp, to_write),
                offset as int,
                pkt_i as int,
            ),
            tcp_step(st0, offset as int, pkt_i as int, is_v6) == tcp_place(
                state_of(bufs@, caps@, table.items@, udp, to_write),
                offset as int,
                new,
                i as int,
            ),
        decreases i,
    {
        i -= 1;
        let ghost st = state_of(bufs@, caps@, table.items@, udp, to_write);
        assert(tcp_item_ok(st.tcp[i as int], st.bufs, offset as int, pkt_i as int));
        let mut item: TcpGroItem = table.items[i];
        assert(st.bufs[item.bufs_index as int] == bufs@[item.bufs_index as int]@);
        assert(st.bufs[pkt_i as int] == bufs@[pkt_i as int]@);
        if item.key == new.key {
            let held_len: usize = bufs[item.bufs_index].len();
            let direction = tcp_packets_can_coalesce(
                &bufs[pkt_i].as_slice()[offset..len],
                &new,
                &item,
                &bufs[item.bufs_index].as_slice()[offset..held_len],
            );
            if direction != CanCoalesce::Unavailable {
                assert(forall|k: int|
                    0 <= k < bufs@.len() ==> (#[trigger] bufs@[k])@ == st.bufs[k]);
                match coalesce_tcp_packets(direction, &new, &mut item, bufs, caps, offset) {
                    CoalesceResult::Success => {
                        table.items.set(i, item);
                        proof {
                            let st2 = state_of(bufs@, caps@, table.items@, udp, to_write);
                            lemma_tcp_merge_keeps_wf(
                                st,
                                st2,
                                offset as int,
                                new,
                                i as int,
                                direction,
                            );
                            assert forall|k: int| pkt_i < k < old(bufs)@.len() implies (
                            #[trigger] bufs@[k])@ == old(bufs)@[k]@ by {
                                assert(st2.bufs[k] == st.bufs[k]);
                            }
                        }
                        return GroResult::Coalesced;
                    },
                    CoalesceResult::ItemInvalidCsum => {
                        table.items.remove(i);
                    },
                    CoalesceResult::PktInvalidCsum => {
                        return GroResult::Noop;
                    },
                    _ => {},
                }
            }
        }
    }
    table.items.push(new);
    GroResult::TableInsert
}

/// A merge leaves every item within its buffer, and no buffer larger than its
/// capacity.
proof fn lemma_tcp_merge_keeps_wf(
    st: GroState,
    st2: GroState,
    offset: int,
    new: TcpGroItem,
    k: int,
    direction: CanCoalesce,
)
    requires
        gro_wf(st, offset, new.bufs_index as int),
        0 <= k < st.tcp.len(),
        0 <= offset,
        new.bufs_index < st.bufs.len(),
        offset + st.tcp[k].iph_len + st.tcp[k].tcph_len <= st.bufs[new.bufs_index as int].len(),
        ({
            let item = st.tcp[k];
            let grows = if direction == CanCoalesce::Prepend {
                new.bufs_index as int
            } else {
                item.bufs_index as int
            };
            tcp_verdict(
                direction,
                packet(st.bufs, offset, new.bufs_index as int),
                new,
                item,
                packet(st.bufs, offset, item.bufs_index as int),
                st.caps[grows] - st.bufs[grows].len(),
            ) == CoalesceResult::Success
        }),
        st2 == (GroState {
            bufs: tcp_merged_bufs(direction, new, st.tcp[k], st.bufs, offset),
            caps: tcp_merged_caps(direction, new, st.tcp[k], st.caps),
            tcp: st.tcp.update(k, tcp_merged_item(direction, new, st.tcp[k])),
            ..st
        }),
    ensures
        gro_wf(st2, offset, new.bufs_index + 1),
{
    let item = st.tcp[k];
    assert(tcp_item_ok(item, st.bufs, offset, new.bufs_index as int));
    assert forall|j: int| 0 <= j < st2.tcp.len() implies tcp_item_ok(
        #[trigger] st2.tcp[j],
        st2.bufs,
        offset,
        new.bufs_index + 1,
    ) by {
        assert(tcp_item_ok(st.tcp[j], st.bufs, offset, new.bufs_index as int));
    }
    assert forall|j: int| 0 <= j < st2.udp.len() implies udp_item_ok(
        #[trigger] st2.udp[j],
        st2.bufs,
        offset,
        new.bufs_index + 1,
    ) by {
        assert(udp_item_ok(st.udp[j], st.bufs, offset, new.bufs_index as int));
    }
}

/// Finds an earlier packet for the UDP packet in buffer `pkt_i` to join, or
/// enters it in the table.
fn udp_gro(
    bufs: &mut [Vec<u8>],
    caps: &Vec<usize>,
    offset: usize,
    pkt_i: usize,
    table: &mut UdpGroTable,
    is_v6: bool,
    Ghost(tcp): Ghost<Seq<TcpGroItem>>,
    Ghost(to_write): Ghost<Seq<usize>>,
) -> (r: GroResult)
    requires
        pkt_i < old(bufs)@.len(),
        offset + ip_len(is_v6) + 8 <= old(bufs)@[pkt_i as int].len(),
        gro_wf(
            state_of(old(bufs)@, caps@, tcp, old(table).items@, to_write),
            offset as int,
            pkt_i as int,
        ),
    ensures
        final(bufs)@.len() == old(bufs)@.len(),
        (r, state_of(final(bufs)@, caps@, tcp, final(table).items@, to_write)) == udp_step(
            state_of(old(bufs)@, caps@, tcp, old(table).items@, to_write),
            offset as int,
            pkt_i as int,
            is_v6,
        ),
        gro_wf(
            state_of(final(bufs)@, caps@, tcp, final(table).items@, to_write),
            offset as int,
            pkt_i + 1,
        ),
        forall|k: int|
            pkt_i < k < old(bufs)@.len() ==> (#[trigger] final(bufs)@[k])@ == old(bufs)@[k]@,
{
    let ghost st = state_of(bufs@, caps@, tcp, table.items@, to_write);
    assert(st.bufs[pkt_i as int] == bufs@[pkt_i as int]@);
    let len: usize = bufs[pkt_i].len();
    let new = match read_udp_item(&bufs[pkt_i].as_slice()[offset..len], pkt_i, is_v6) {
        Some(new) => new,
        None => {
            return GroResult::Noop;
        },
    };
    let mut n: usize = table.items.len();
    while n > 0 && table.items[n - 1].key != new.key
        invariant
            n <= table.items@.len(),
            last_of_flow(table.items@, new.key, table.items@.len() as int) == last_of_flow(
                table.items@,
                new.key,
                n as int,
            ),
        decreases n,
    {
        n -= 1;
    }
    if n > 0 {
        let mut item: UdpGroItem = table.items[n - 1];
        assert(udp_item_ok(st.udp[n - 1], st.bufs, offset as int, pkt_i as int));
        assert(st.bufs[item.bufs_index as int] == bufs@[item.bufs_index as int]@);
        let held_len: usize = bufs[item.bufs_index].len();
        let direction = udp_packets_can_coalesce(
            &bufs[pkt_i].as_slice()[offset..len],
            &new,
            &item,
            &bufs[item.bufs_index].as_slice()[offset..held_len],
        );
        if direction == CanCoalesce::Append {
            let cap: usize = caps[item.bufs_index];
            let result = coalesce_udp_packets(&new, &mut item, bufs, cap, offset);
            if result == CoalesceResult::Success {
                table.items.set(n - 1, item);
                proof {
                    let st2 = state_of(bufs@, caps@, tcp, table.items@, to_write);
                    assert forall|j: int| 0 <= j < st2.tcp.len() implies tcp_item_ok(
                        #[trigger] st2.tcp[j],
                        st2.bufs,
                        offset as int,
                        pkt_i + 1,
                    ) by {
                        assert(tcp_item_ok(st.tcp[j], st.bufs, offset as int, pkt_i as int));
                    }
                    assert forall|j: int| 0 <= j < st2.udp.len() implies udp_item_ok(
                        #[trigger] st2.udp[j],
                        st2.bufs,
                        offset as int,
                        pkt_i + 1,
                    ) by {
                        assert(udp_item_ok(st.udp[j], st.bufs, offset as int, pkt_i as int));
                    }
                    assert forall|k: int| pkt_i < k < old(bufs)@.len() implies (
                    #[trigger] bufs@[k])@ == old(bufs)@[k]@ by {
                        assert(st2.bufs[k] == st.bufs[k]);
                    }
                }
                return GroResult::Coalesced;
            }
        }
    }
    table.items.push(new);
    GroResult::TableInsert
}

/// The buffer with the lengths of the IP header brought up to date, and for
/// IPv4 the header checksum with them.
pub open spec fn with_ip_length(b: Seq<u8>, offset: int, is_v6: bool) -> Seq<u8> {
    let n = b.len() - offset;
    if is_v6 {
        wire::put16(b, offset + 4, (n - 40) % 65536)
    } else {
        let sized = wire::put16(wire::put16(b, offset + 10, 0), offset + 2, n % 65536);
        wire::put16(
            sized,
            offset + 10,
            checksum::ones_not(
                checksum::ones_fold(checksum::word_sum(sized.subrange(offset, offset + 20))),
            ),
        )
    }
}

/// The buffer with the sum of the pseudo header in the transport checksum
/// field at `at`, for whoever completes the checksum.
pub open spec fn with_pseudo_sum(
    b: Seq<u8>,
    offset: int,
    proto: int,
    is_v6: bool,
    at: int,
) -> Seq<u8> {
    let src = offset + (if is_v6 {
        8int
    } else {
        12int
    });
    let n = if is_v6 {
        16int
    } else {
        4int
    };
    wire::put16(
        b,
        at,
        checksum::pseudo_sum(
            proto,
            b.subrange(src, src + n),
            b.subrange(src + n, src + 2 * n),
            (b.len() - offset - ip_len(is_v6)) % 65536,
        ),
    )
}

/// The virtio header of a merged TCP packet.
pub open spec fn tcp_gso_hdr(item: TcpGroItem) -> VirtioNetHdr {
    VirtioNetHdr {
        flags: 1,
        gso_type: if item.key.is_v6 {
            3
        } else {
            1
        },
        hdr_len: (item.iph_len + item.tcph_len) as u16,
        gso_size: item.gso_size,
        csum_start: item.iph_len as u16,
        csum_offset: 16,
    }
}

/// The virtio header of a merged UDP packet.
pub open spec fn udp_gso_hdr(item: UdpGroItem) -> VirtioNetHdr {
    VirtioNetHdr {
        flags: 1,
        gso_type: 5,
        hdr_len: (item.iph_len + 8) as u16,
        gso_size: item.gso_size,
        csum_start: item.iph_len as u16,
        csum_offset: 6,
    }
}

/// The buffer with a virtio header in front of the packet.
pub open spec fn with_virtio_hdr(
    b: Seq<u8>,
    offset: int,
    hdr: VirtioNetHdr,
    little: bool,
) -> Seq<u8> {
    wire::splice(b, offset - VIRTIO_NET_HDR_LEN, gso::hdr_bytes(hdr, little))
}

/// The buffer with a virtio header of zeros in front of the packet: one that
/// asks for nothing.
pub open spec fn with_empty_hdr(b: Seq<u8>, offset: int) -> Seq<u8> {
    wire::splice(b, offset - VIRTIO_NET_HDR_LEN, wire::zeros(VIRTIO_NET_HDR_LEN as int))
}

/// Writes a virtio header of zeros in front of the packet.
fn write_empty_hdr(b: &mut [u8], offset: usize)
    requires
        VIRTIO_NET_HDR_LEN <= offset <= old(b).len(),
    ensures
        final(b)@ == with_empty_hdr(old(b)@, offset as int),
{
    proof {
        gso::lemma_empty_hdr(true);
    }
    VirtioNetHdr::default().encode_at(b, offset - VIRTIO_NET_HDR_LEN, true);
}

/// The buffer of a TCP item as it is written.
pub open spec fn tcp_accounted(
    b: Seq<u8>,
    offset: int,
    item: TcpGroItem,
    little: bool,
) -> Seq<u8> {
    if item.num_merged > 0 {
        with_pseudo_sum(
            with_ip_length(
                with_virtio_hdr(b, offset, tcp_gso_hdr(item), little),
                offset,
                item.key.is_v6,
            ),
            offset,
            6,
            item.key.is_v6,
            offset + item.iph_len + 16,
        )
    } else {
        with_empty_hdr(b, offset)
    }
}

/// The buffer of a UDP item as it is written.
pub open spec fn udp_accounted(
    b: Seq<u8>,
    offset: int,
    item: UdpGroItem,
    little: bool,
) -> Seq<u8> {
    if item.num_merged > 0 {
        let sized = with_ip_length(
            with_virtio_hdr(b, offset, udp_gso_hdr(item), little),
            offset,
            item.key.is_v6,
        );
        with_pseudo_sum(
            wire::put16(
                sized,
                offset + item.iph_len + 4,
                (sized.len() - offset - item.iph_len) % 65536,
            ),
            offset,
            17,
            item.key.is_v6,
            offset + item.iph_len + 6,
        )
    } else {
        with_empty_hdr(b, offset)
    }
}

/// The buffers after the first `n` TCP items have been brought up to date.
pub open spec fn all_tcp_accounted(
    bufs: Seq<Seq<u8>>,
    offset: int,
    items: Seq<TcpGroItem>,
    n: int,
    little: bool,
) -> Seq<Seq<u8>>
    decreases n,
{
    if n <= 0 {
        bufs
    } else {
        let before = all_tcp_accounted(bufs, offset, items, n - 1, little);
        let at = items[n - 1].bufs_index as int;
        before.update(at, tcp_accounted(before[at], offset, items[n - 1], little))
    }
}

/// The buffers after the first `n` UDP items have been brought up to date.
pub open spec fn all_udp_accounted(
    bufs: Seq<Seq<u8>>,
    offset: int,
    items: Seq<UdpGroItem>,
    n: int,
    little: bool,
) -> Seq<Seq<u8>>
    decreases n,
{
    if n <= 0 {
        bufs
    } else {
        let before = all_udp_accounted(bufs, offset, items, n - 1, little);
        let at = items[n - 1].bufs_index as int;
        before.update(at, udp_accounted(before[at], offset, items[n - 1], little))
    }
}

fn write_ip_length(b: &mut [u8], offset: usize, is_v6: bool)
    requires
        offset + ip_len(is_v6) <= old(b).len(),
    ensures
        final(b)@ == with_ip_length(old(b)@, offset as int, is_v6),
{
    let n: usize = b.len() - offset;
    if is_v6 {
        set_be16(b, offset + 4, ((n - 40) % 65536) as u16);
    } else {
        set_be16(b, offset + 10, 0);
        set_be16(b, offset + 2, (n % 65536) as u16);
        let sum: u16 = checksum::checksum(&b[offset..offset + 20], 0);
        set_be16(b, offset + 10, complement(sum));
    }
}

fn write_pseudo_sum(b: &mut [u8], offset: usize, proto: u8, is_v6: bool, at: usize)
    requires
        offset + ip_len(is_v6) <= old(b).len(),
        at + 1 < old(b).len(),
    ensures
        final(b)@ == with_pseudo_sum(old(b)@, offset as int, proto as int, is_v6, at as int),
{
    let src: usize = offset + if is_v6 {
        8
    } else {
        12
    };
    let n: usize = if is_v6 {
        16
    } else {
        4
    };
    let iph_len: usize = if is_v6 {
        40
    } else {
        20
    };
    let length: u16 = ((b.len() - offset - iph_len) % 65536) as u16;
    let sum: u16 = pseudo_header_checksum(
        proto,
        &b[src..src + n],
        &b[src + n..src + 2 * n],
        length,
    );
    set_be16(b, at, sum);
}

/// Brings the buffers of all TCP items up to date: their virtio headers and,
/// where packets were merged, their lengths and checksums.
pub fn apply_tcp_coalesce_accounting(
    bufs: &mut [Vec<u8>],
    offset: usize,
    table: &TcpGroTable,
    little: bool,
)
    requires
        offset >= VIRTIO_NET_HDR_LEN,
        forall|k: int|
            0 <= k < table.items@.len() ==> tcp_item_ok(
                #[trigger] table.items@[k],
                wire::views(old(bufs)@),
                offset as int,
                old(bufs)@.len() as int,
            ),
    ensures
        final(bufs)@.len() == old(bufs)@.len(),
        wire::views(final(bufs)@) == all_tcp_accounted(
            wire::views(old(bufs)@),
            offset as int,
            table.items@,
            table.items@.len() as int,
            little,
        ),
        forall|k: int|
            0 <= k < old(bufs)@.len() ==> (#[trigger] final(bufs)@[k])@.len() == old(
                bufs,
            )@[k]@.len(),
{
    let ghost start = wire::views(bufs@);
    let mut n: usize = 0;
    while n < table.items.len()
        invariant
            n <= table.items@.len(),
            offset >= VIRTIO_NET_HDR_LEN,
            start == wire::views(old(bufs)@),
            bufs@.len() == old(bufs)@.len(),
            forall|k: int|
                0 <= k < table.items@.len() ==> tcp_item_ok(
                    #[trigger] table.items@[k],
                    start,
                    offset as int,
                    bufs@.len() as int,
                ),
            forall|k: int|
                0 <= k < bufs@.len() ==> (#[trigger] bufs@[k])@.len() == old(bufs)@[k]@.len(),
            wire::views(bufs@) == all_tcp_accounted(
                start,
                offset as int,
                table.items@,
                n as int,
                little,
            ),
        decreases table.items@.len() - n,
    {
        let item: TcpGroItem = table.items[n];
        let at: usize = item.bufs_index;
        let is_v6 = item.key.is_v6;
        let ghost before = wire::views(bufs@);
        assert(tcp_item_ok(table.items@[n as int], start, offset as int, bufs@.len() as int));
        assert(start[at as int].len() == old(bufs)@[at as int]@.len());
        assert(before[at as int] == bufs@[at as int]@);
        assert(bufs@[at as int]@.len() == old(bufs)@[at as int]@.len());
        let mut b: Vec<u8> = Vec::new();
        std::mem::swap(&mut b, &mut bufs[at]);
        if item.num_merged > 0 {
            let hdr = VirtioNetHdr {
                flags: gso::VIRTIO_NET_HDR_F_NEEDS_CSUM,
                gso_type: if is_v6 {
                    gso::VIRTIO_NET_HDR_GSO_TCPV6
                } else {
                    gso::VIRTIO_NET_HDR_GSO_TCPV4
                },
                hdr_len: item.iph_len as u16 + item.tcph_len as u16,
                gso_size: item.gso_size,
                csum_start: item.iph_len as u16,
                csum_offset: 16,
            };
            hdr.encode_at(b.as_mut_slice(), offset - VIRTIO_NET_HDR_LEN, little);
            write_ip_length(b.as_mut_slice(), offset, is_v6);
            assert(offset + item.iph_len + item.tcph_len <= b.len());
            write_pseudo_sum(
                b.as_mut_slice(),
                offset,
                gso::IPPROTO_TCP,
                is_v6,
                offset + item.iph_len as usize + 16,
            );
        } else {
            write_empty_hdr(b.as_mut_slice(), offset);
        }
        assert(b@ == tcp_accounted(before[at as int], offset as int, item, little));
        bufs[at] = b;
        assert(wire::views(bufs@) =~= before.update(
            at as int,
            tcp_accounted(before[at as int], offset as int, item, little),
        ));
        n += 1;
    }
}

/// Brings the buffers of all UDP items up to date.
pub fn apply_udp_coalesce_accounting(
    bufs: &mut [Vec<u8>],
    offset: usize,
    table: &UdpGroTable,
    little: bool,
)
    requires
        offset >= VIRTIO_NET_HDR_LEN,
        forall|k: int|
            0 <= k < table.items@.len() ==> udp_item_ok(
                #[trigger] table.items@[k],
                wire::views(old(bufs)@),
                offset as int,
                old(bufs)@.len() as int,
            ),
    ensures
        final(bufs)@.len() == old(bufs)@.len(),
        wire::views(final(bufs)@) == all_udp_accounted(
            wire::views(old(bufs)@),
            offset as int,
            table.items@,
            table.items@.len() as int,
            little,
        ),
{
    let ghost start = wire::views(bufs@);
    let mut n: usize = 0;
    while n < table.items.len()
        invariant
            n <= table.items@.len(),
            offset >= VIRTIO_NET_HDR_LEN,
            start == wire::views(old(bufs)@),
            bufs@.len() == old(bufs)@.len(),
            forall|k: int|
                0 <= k < table.items@.len() ==> udp_item_ok(
                    #[trigger] table.items@[k],
                    start,
                    offset as int,
                    bufs@.len() as int,
                ),
            forall|k: int|
                0 <= k < bufs@.len() ==> (#[trigger] bufs@[k])@.len() == old(bufs)@[k]@.len(),
            wire::views(bufs@) == all_udp_accounted(
                start,
                offset as int,
                table.items@,
                n as int,
                little,
            ),
        decreases table.items@.len() - n,
    {
        let item: UdpGroItem = table.items[n];
        let at: usize = item.bufs_index;
        let is_v6 = item.key.is_v6;
        let ghost before = wire::views(bufs@);
        assert(udp_item_ok(table.items@[n as int], start, offset as int, bufs@.len() as int));
        assert(start[at as int].len() == old(bufs)@[at as int]@.len());
        assert(before[at as int] == bufs@[at as int]@);
        assert(bufs@[at as int]@.len() == old(bufs)@[at as int]@.len());
        let mut b: Vec<u8> = Vec::new();
        std::mem::swap(&mut b, &mut bufs[at]);
        if item.num_merged > 0 {
            let iph_len: usize = item.iph_len as usize;
            let hdr = VirtioNetHdr {
                flags: gso::VIRTIO_NET_HDR_F_NEEDS_CSUM,
                gso_type: gso::VIRTIO_NET_HDR_GSO_UDP_L4,
                hdr_len: item.iph_len as u16 + 8,
                gso_size: item.gso_size,
                csum_start: item.iph_len as u16,
                csum_offset: 6,
            };
            hdr.encode_at(b.as_mut_slice(), offset - VIRTIO_NET_HDR_LEN, little);
            write_ip_length(b.as_mut_slice(), offset, is_v6);
            let length: u16 = ((b.len() - offset - iph_len) % 65536) as u16;
            set_be16(b.as_mut_slice(), offset + iph_len + 4, length);
            write_pseudo_sum(
                b.as_mut_slice(),
                offset,
                gso::IPPROTO_UDP,
                is_v6,
                offset + iph_len + 6,
            );
        } else {
            write_empty_hdr(b.as_mut_slice(), offset);
        }
        assert(b@ == udp_accounted(before[at as int], offset as int, item, little));
        bufs[at] = b;
        assert(wire::views(bufs@) =~= before.update(
            at as int,
            udp_accounted(before[at as int], offset as int, item, little),
        ));
        n += 1;
    }
}

/// What becomes of the packet in buffer `i`.
#[verifier::opaque]
pub open spec fn gro_look(st: GroState, offset: int, tcp: bool, udp: bool, i: int) -> (
    GroResult,
    GroState,
) {
    match gro_candidate(packet(st.bufs, offset, i), tcp, udp) {
        GroCandidateType::Tcp4 => tcp_step(st, offset, i, false),
        GroCandidateType::Tcp6 => tcp_step(st, offset, i, true),
        GroCandidateType::Udp4 => udp_step(st, offset, i, false),
        GroCandidateType::Udp6 => udp_step(st, offset, i, true),
        GroCandidateType::NotCandidate => (GroResult::Noop, st),
    }
}

/// The state after the packet in buffer `i` was looked at. One that takes no
/// part in merging gets an empty virtio header; one that was merged is not
/// written.
pub open spec fn gro_step(st: GroState, offset: int, tcp: bool, udp: bool, i: int) -> GroState {
    let (result, next) = gro_look(st, offset, tcp, udp, i);
    match result {
        GroResult::Noop => GroState {
            bufs: next.bufs.update(i, with_empty_hdr(next.bufs[i], offset)),
            to_write: next.to_write.push(i as usize),
            ..next
        },
        GroResult::TableInsert => GroState { to_write: next.to_write.push(i as usize), ..next },
        GroResult::Coalesced => next,
    }
}

/// The state after the first `n` packets of a batch.
pub open spec fn gro_run(st: GroState, offset: int, tcp: bool, udp: bool, n: int) -> GroState
    decreases n,
{
    if n <= 0 {
        st
    } else {
        gro_step(gro_run(st, offset, tcp, udp, n - 1), offset, tcp, udp, n - 1)
    }
}

/// The state with all items brought up to date.
pub open spec fn gro_finish(st: GroState, offset: int, little: bool) -> GroState {
    GroState {
        bufs: all_udp_accounted(
            all_tcp_accounted(st.bufs, offset, st.tcp, st.tcp.len() as int, little),
            offset,
            st.udp,
            st.udp.len() as int,
            little,
        ),
        ..st
    }
}

/// There is room for a virtio header in front of the packet, and the buffer
/// reaches to where the packet starts.
pub open spec fn offset_fits(bufs: Seq<Seq<u8>>, offset: int, i: int) -> bool {
    VIRTIO_NET_HDR_LEN <= offset <= bufs[i].len()
}

/// What merging makes of a batch: every packet in turn, up to the first that
/// the offset does not fit, and if there is none, the items brought up to date.
pub open spec fn gro_outcome(
    st: GroState,
    offset: int,
    tcp: bool,
    udp: bool,
    little: bool,
    r: Result<(), GsoError>,
    end: GroState,
) -> bool {
    match r {
        Ok(_) => {
            &&& forall|k: int| 0 <= k < st.bufs.len() ==> #[trigger] offset_fits(st.bufs, offset, k)
            &&& end.bufs == gro_finish(
                gro_run(st, offset, tcp, udp, st.bufs.len() as int),
                offset,
                little,
            ).bufs
            &&& end.tcp == gro_run(st, offset, tcp, udp, st.bufs.len() as int).tcp
            &&& end.udp == gro_run(st, offset, tcp, udp, st.bufs.len() as int).udp
            &&& end.to_write == gro_run(st, offset, tcp, udp, st.bufs.len() as int).to_write
        },
        Err(e) => {
            &&& e == GsoError::InvalidOffset
            &&& exists|n: int|
                #![trigger gro_run(st, offset, tcp, udp, n)]
                {
                    &&& 0 <= n < st.bufs.len()
                    &&& !offset_fits(st.bufs, offset, n)
                    &&& forall|k: int| 0 <= k < n ==> #[trigger] offset_fits(st.bufs, offset, k)
                    &&& end.bufs == gro_run(st, offset, tcp, udp, n).bufs
                    &&& end.tcp == gro_run(st, offset, tcp, udp, n).tcp
                    &&& end.udp == gro_run(st, offset, tcp, udp, n).udp
                    &&& end.to_write == gro_run(st, offset, tcp, udp, n).to_write
                }
        },
    }
}

/// What merging makes of a batch on a machine of either byte order.
pub open spec fn gro_native_outcome(
    st: GroState,
    offset: int,
    tcp: bool,
    udp: bool,
    r: Result<(), GsoError>,
    end: GroState,
) -> bool {
    gro_outcome(st, offset, tcp, udp, true, r, end) || gro_outcome(
        st,
        offset,
        tcp,
        udp,
        false,
        r,
        end,
    )
}

/// Looks at the packet in buffer `i`.
#[verifier::rlimit(40)]
fn gro_packet(
    bufs: &mut [Vec<u8>],
    room: &mut Vec<usize>,
    offset: usize,
    i: usize,
    tcp_table: &mut TcpGroTable,
    udp_table: &mut UdpGroTable,
    gro_flags: GroDisablementFlags,
    to_write: &mut Vec<usize>,
)
    requires
        i < old(bufs)@.len(),
        VIRTIO_NET_HDR_LEN <= offset <= old(bufs)@[i as int].len(),
        gro_wf(
            state_of(
                old(bufs)@,
                old(room)@,
                old(tcp_table).items@,
                old(udp_table).items@,
                old(to_write)@,
            ),
            offset as int,
            i as int,
        ),
    ensures
        final(bufs)@.len() == old(bufs)@.len(),
        state_of(
            final(bufs)@,
            final(room)@,
            final(tcp_table).items@,
            final(udp_table).items@,
            final(to_write)@,
        ) == gro_step(
            state_of(
                old(bufs)@,
                old(room)@,
                old(tcp_table).items@,
                old(udp_table).items@,
                old(to_write)@,
            ),
            offset as int,
            gro_flags.tcp_allowed(),
            gro_flags.udp_allowed(),
            i as int,
        ),
        gro_wf(
            state_of(
                final(bufs)@,
                final(room)@,
                final(tcp_table).items@,
                final(udp_table).items@,
                final(to_write)@,
            ),
            offset as int,
            i + 1,
        ),
        forall|k: int|
            i < k < old(bufs)@.len() ==> (#[trigger] final(bufs)@[k])@ == old(bufs)@[k]@,
{
    reveal(gro_look);
    let ghost tcp = gro_flags.tcp_allowed();
    let ghost udp = gro_flags.udp_allowed();
    let ghost st = state_of(bufs@, room@, tcp_table.items@, udp_table.items@, to_write@);
    let len: usize = bufs[i].len();
    assert(st.bufs[i as int] == bufs@[i as int]@);
    let candidate = packet_is_gro_candidate(&bufs[i].as_slice()[offset..len], gro_flags);
    let result = match candidate {
        GroCandidateType::Tcp4 => tcp_gro(
            bufs,
            room,
            offset,
            i,
            tcp_table,
            false,
            Ghost(udp_table.items@),
            Ghost(to_write@),
        ),
        GroCandidateType::Tcp6 => tcp_gro(
            bufs,
            room,
            offset,
            i,
            tcp_table,
            true,
            Ghost(udp_table.items@),
            Ghost(to_write@),
        ),
        GroCandidateType::Udp4 => udp_gro(
            bufs,
            room,
            offset,
            i,
            udp_table,
            false,
            Ghost(tcp_table.items@),
            Ghost(to_write@),
        ),
        GroCandidateType::Udp6 => udp_gro(
            bufs,
            room,
            offset,
            i,
            udp_table,
            true,
            Ghost(tcp_table.items@),
            Ghost(to_write@),
        ),
        GroCandidateType::NotCandidate => {
            proof {
                lemma_wf_step(st, offset as int, i as int);
            }
            GroResult::Noop
        },
    };
    let ghost next = state_of(bufs@, room@, tcp_table.items@, udp_table.items@, to_write@);
    assert(gro_wf(next, offset as int, i + 1));
    match result {
        GroResult::Noop => {
            assert(next.bufs[i as int] == bufs@[i as int]@);
            proof {
                lemma_noop_keeps_buffer(st, offset as int, tcp, udp, i as int);
            }
            write_empty_hdr(bufs[i].as_mut_slice(), offset);
            to_write.push(i);
            proof {
                let end = state_of(
                    bufs@,
                    room@,
                    tcp_table.items@,
                    udp_table.items@,
                    to_write@,
                );
                assert(end.bufs =~= next.bufs.update(
                    i as int,
                    with_empty_hdr(next.bufs[i as int], offset as int),
                ));
                lemma_wf_same_lengths(next, end, offset as int, i + 1);
            }
        },
        GroResult::TableInsert => {
            to_write.push(i);
        },
        GroResult::Coalesced => {},
    }
    assert(state_of(bufs@, room@, tcp_table.items@, udp_table.items@, to_write@) =~= gro_step(
        st,
        offset as int,
        tcp,
        udp,
        i as int,
    ));
}

/// Merges the packets of a batch, where `caps` tells how many bytes each
/// buffer can hold without being moved. Packet data starts at `offset` in
/// each buffer, behind the virtio header, which is written in the given byte
/// order. The places of the buffers to be written are added to `to_write`.
pub fn handle_gro_within(
    bufs: &mut [Vec<u8>],
    caps: Vec<usize>,
    offset: usize,
    tcp_table: &mut TcpGroTable,
    udp_table: &mut UdpGroTable,
    gro_flags: GroDisablementFlags,
    to_write: &mut Vec<usize>,
    little: bool,
) -> (r: Result<(), GsoError>)
    requires
        caps@.len() == old(bufs)@.len(),
        forall|k: int| 0 <= k < old(bufs)@.len() ==> (#[trigger] old(bufs)@[k])@.len() <= caps@[k],
        old(tcp_table).holds_nothing(),
        old(udp_table).holds_nothing(),
    ensures
        final(bufs)@.len() == old(bufs)@.len(),
        gro_outcome(
            state_of(
                old(bufs)@,
                caps@,
                old(tcp_table).items@,
                old(udp_table).items@,
                old(to_write)@,
            ),
            offset as int,
            gro_flags.tcp_allowed(),
            gro_flags.udp_allowed(),
            little,
            r,
            state_of(
                final(bufs)@,
                caps@,
                final(tcp_table).items@,
                final(udp_table).items@,
                final(to_write)@,
            ),
        ),
{
    let mut room: Vec<usize> = caps;
    let ghost st0 = state_of(bufs@, room@, tcp_table.items@, udp_table.items@, to_write@);
    let ghost tcp = gro_flags.tcp_allowed();
    let ghost udp = gro_flags.udp_allowed();
    let mut i: usize = 0;
    while i < bufs.len()
        invariant
            i <= bufs@.len(),
            bufs@.len() == st0.bufs.len(),
            bufs@.len() == old(bufs)@.len(),
            st0 == state_of(
                old(bufs)@,
                caps@,
                old(tcp_table).items@,
                old(udp_table).items@,
                old(to_write)@,
            ),
            tcp == gro_flags.tcp_allowed(),
            udp == gro_flags.udp_allowed(),
            state_of(bufs@, room@, tcp_table.items@, udp_table.items@, to_write@) == gro_run(
                st0,
                offset as int,
                tcp,
                udp,
                i as int,
            ),
            gro_wf(
                state_of(bufs@, room@, tcp_table.items@, udp_table.items@, to_write@),
                offset as int,
                i as int,
            ),
            forall|k: int| 0 <= k < i ==> #[trigger] offset_fits(st0.bufs, offset as int, k),
            forall|k: int| i <= k < bufs@.len() ==> (#[trigger] bufs@[k])@ == st0.bufs[k],
        decreases bufs@.len() - i,
    {
        let ghost st = state_of(bufs@, room@, tcp_table.items@, udp_table.items@, to_write@);
        let len: usize = bufs[i].len();
        assert(bufs@[i as int]@ == st0.bufs[i as int]);
        assert(st.bufs[i as int] == bufs@[i as int]@);
        if offset < VIRTIO_NET_HDR_LEN || offset > len {
            assert(!offset_fits(st0.bufs, offset as int, i as int));
            return Err(GsoError::InvalidOffset);
        }
        assert(offset_fits(st0.bufs, offset as int, i as int));
        gro_packet(bufs, &mut room, offset, i, tcp_table, udp_table, gro_flags, to_write);
        i += 1;
    }
    if bufs.len() > 0 {
        assert(offset_fits(st0.bufs, offset as int, 0));
        let ghost st = state_of(bufs@, room@, tcp_table.items@, udp_table.items@, to_write@);
        assert(i == bufs@.len());
        proof {
            assert forall|k: int| 0 <= k < tcp_table.items@.len() implies tcp_item_ok(
                #[trigger] tcp_table.items@[k],
                wire::views(bufs@),
                offset as int,
                bufs@.len() as int,
            ) by {
                assert(tcp_item_ok(st.tcp[k], st.bufs, offset as int, i as int));
            }
        }
        apply_tcp_coalesce_accounting(bufs, offset, tcp_table, little);
        proof {
            assert forall|k: int| 0 <= k < udp_table.items@.len() implies udp_item_ok(
                #[trigger] udp_table.items@[k],
                wire::views(bufs@),
                offset as int,
                bufs@.len() as int,
            ) by {
                let item = st.udp[k];
                assert(udp_item_ok(item, st.bufs, offset as int, bufs@.len() as int));
                assert(wire::views(bufs@)[item.bufs_index as int].len()
                    == bufs@[item.bufs_index as int]@.len());
            }
        }
        apply_udp_coalesce_accounting(bufs, offset, udp_table, little);
    }
    Ok(())
}

/// An unchanged state stays well-formed for one packet more.
proof fn lemma_wf_step(st: GroState, offset: int, i: int)
    requires
        gro_wf(st, offset, i),
    ensures
        gro_wf(st, offset, i + 1),
{
    assert forall|k: int| 0 <= k < st.tcp.len() implies tcp_item_ok(
        #[trigger] st.tcp[k],
        st.bufs,
        offset,
        i + 1,
    ) by {
        assert(tcp_item_ok(st.tcp[k], st.bufs, offset, i));
    }
    assert forall|k: int| 0 <= k < st.udp.len() implies udp_item_ok(
        #[trigger] st.udp[k],
        st.bufs,
        offset,
        i + 1,
    ) by {
        assert(udp_item_ok(st.udp[k], st.bufs, offset, i));
    }
}

/// Well-formedness speaks of the lengths of the buffers only.
proof fn lemma_wf_same_lengths(a: GroState, b: GroState, offset: int, i: int)
    requires
        gro_wf(a, offset, i),
        i <= a.bufs.len(),
        b.tcp == a.tcp,
        b.udp == a.udp,
        b.caps == a.caps,
        b.bufs.len() == a.bufs.len(),
        forall|k: int| 0 <= k < a.bufs.len() ==> (#[trigger] b.bufs[k]).len() == a.bufs[k].len(),
    ensures
        gro_wf(b, offset, i),
{
    assert forall|k: int| 0 <= k < b.tcp.len() implies tcp_item_ok(
        #[trigger] b.tcp[k],
        b.bufs,
        offset,
        i,
    ) by {
        assert(tcp_item_ok(a.tcp[k], a.bufs, offset, i));
        assert(b.bufs[b.tcp[k].bufs_index as int].len() == a.bufs[b.tcp[k].bufs_index as int].len());
    }
    assert forall|k: int| 0 <= k < b.udp.len() implies udp_item_ok(
        #[trigger] b.udp[k],
        b.bufs,
        offset,
        i,
    ) by {
        assert(udp_item_ok(a.udp[k], a.bufs, offset, i));
        assert(b.bufs[b.udp[k].bufs_index as int].len() == a.bufs[b.udp[k].bufs_index as int].len());
    }
}

/// A packet that is passed on alone leaves all buffers as they are.
proof fn lemma_tcp_noop(st: GroState, offset: int, new: TcpGroItem, n: int)
    requires
        n <= st.tcp.len(),
    ensures
        tcp_place(st, offset, new, n).0 == GroResult::Noop ==> tcp_place(st, offset, new, n).1.bufs
            == st.bufs,
    decreases n,
{
    if n > 0 {
        lemma_tcp_noop(st, offset, new, n - 1);
        lemma_tcp_noop((GroState { tcp: st.tcp.remove(n - 1), ..st }), offset, new, n - 1);
    }
}

proof fn lemma_noop_keeps_buffer(st: GroState, offset: int, tcp: bool, udp: bool, i: int)
    ensures
        gro_look(st, offset, tcp, udp, i).0 == GroResult::Noop ==> gro_look(
            st,
            offset,
            tcp,
            udp,
            i,
        ).1.bufs == st.bufs,
{
    reveal(gro_look);
    let pkt = packet(st.bufs, offset, i);
    if let Some(new) = tcp_item(pkt, i, false) {
        lemma_tcp_noop(st, offset, new, st.tcp.len() as int);
    }
    if let Some(new) = tcp_item(pkt, i, true) {
        lemma_tcp_noop(st, offset, new, st.tcp.len() as int);
    }
}

/// How many bytes the buffer can hold without being moved: `Vec::capacity`,
/// which is never less than the length. What it is beyond that, the allocator
/// decides.
#[verifier::external_body]
fn buffer_capacity(buf: &Vec<u8>) -> (cap: usize)
    ensures
        cap >= buf@.len(),
{
    buf.capacity()
}

/// Merges the packets of a batch as far as the capacities of their buffers
/// allow, with headers in the byte order of this machine. The tables are those
/// of this batch and start empty. What the capacities are, and which of the two
/// byte orders it is, are left open.
pub fn handle_gro(
    bufs: &mut [Vec<u8>],
    offset: usize,
    tcp_table: &mut TcpGroTable,
    udp_table: &mut UdpGroTable,
    gro_flags: GroDisablementFlags,
    to_write: &mut Vec<usize>,
) -> (r: Result<(), GsoError>)
    requires
        old(tcp_table).holds_nothing(),
        old(udp_table).holds_nothing(),
    ensures
        final(bufs)@.len() == old(bufs)@.len(),
        exists|caps: Seq<usize>| #[trigger]
            caps_ok(caps, old(bufs)@) && gro_native_outcome(
                state_of(
                    old(bufs)@,
                    caps,
                    old(tcp_table).items@,
                    old(udp_table).items@,
                    old(to_write)@,
                ),
                offset as int,
                gro_flags.tcp_allowed(),
                gro_flags.udp_allowed(),
                r,
                state_of(
                    final(bufs)@,
                    caps,
                    final(tcp_table).items@,
                    final(udp_table).items@,
                    final(to_write)@,
                ),
            ),
{
    let mut caps: Vec<usize> = Vec::with_capacity(bufs.len());
    let mut k: usize = 0;
    while k < bufs.len()
        invariant
            k <= bufs@.len(),
            bufs@ == old(bufs)@,
            caps@.len() == k,
            forall|j: int| 0 <= j < k ==> (#[trigger] bufs@[j])@.len() <= caps@[j],
        decreases bufs@.len() - k,
    {
        caps.push(buffer_capacity(&bufs[k]));
        k += 1;
    }
    let ghost at_start = caps@;
    assert(caps_ok(at_start, old(bufs)@));
    handle_gro_within(
        bufs,
        caps,
        offset,
        tcp_table,
        udp_table,
        gro_flags,
        to_write,
        native_one() == 1,
    )
}

/// A capacity for every buffer, none less than the buffer's length.
pub open spec fn caps_ok(caps: Seq<usize>, bufs: Seq<Vec<u8>>) -> bool {
    &&& caps.len() == bufs.len()
    &&& forall|k: int| 0 <= k < bufs.len() ==> (#[trigger] bufs[k])@.len() <= caps[k]
}

/// A TCP packet that joins another from behind adds its payload at the end and
/// nothing else, but for the PSH flag that it may carry over.
pub proof fn law_tcp_append_adds_payload(
    new: TcpGroItem,
    item: TcpGroItem,
    bufs: Seq<Seq<u8>>,
    offset: int,
)
    requires
        0 <= offset,
        item.bufs_index < bufs.len(),
        new.bufs_index < bufs.len(),
        item.bufs_index != new.bufs_index,
        item.tcph_len >= 20,
        offset + item.iph_len + item.tcph_len <= bufs[item.bufs_index as int].len(),
        offset + item.iph_len + item.tcph_len <= bufs[new.bufs_index as int].len(),
    ensures
        ({
            let after = tcp_merged_bufs(CanCoalesce::Append, new, item, bufs, offset);
            let headers = item.iph_len + item.tcph_len;
            let held = packet(bufs, offset, item.bufs_index as int);
            let came = packet(bufs, offset, new.bufs_index as int);
            let merged = packet(after, offset, item.bufs_index as int);
            &&& merged.subrange(headers, merged.len() as int) == held.subrange(
                headers,
                held.len() as int,
            ) + came.subrange(headers, came.len() as int)
            &&& forall|k: int|
                0 <= k < headers && k != item.iph_len + 13 ==> #[trigger] merged[k] == held[k]
            &&& forall|k: int|
                0 <= k < bufs.len() && k != item.bufs_index ==> #[trigger] after[k] == bufs[k]
        }),
{
    let after = tcp_merged_bufs(CanCoalesce::Append, new, item, bufs, offset);
    let headers = item.iph_len + item.tcph_len;
    let held = packet(bufs, offset, item.bufs_index as int);
    let came = packet(bufs, offset, new.bufs_index as int);
    let merged = packet(after, offset, item.bufs_index as int);
    assert(merged.subrange(headers, merged.len() as int) =~= held.subrange(
        headers,
        held.len() as int,
    ) + came.subrange(headers, came.len() as int));
}

/// A TCP packet that joins another from the front keeps its headers and gets
/// the other's payload behind its own.
pub proof fn law_tcp_prepend_adds_payload(
    new: TcpGroItem,
    item: TcpGroItem,
    bufs: Seq<Seq<u8>>,
    offset: int,
)
    requires
        0 <= offset,
        item.bufs_index < bufs.len(),
        new.bufs_index < bufs.len(),
        item.bufs_index != new.bufs_index,
        item.tcph_len >= 20,
        offset + item.iph_len + item.tcph_len <= bufs[item.bufs_index as int].len(),
        offset + item.iph_len + item.tcph_len <= bufs[new.bufs_index as int].len(),
    ensures
        ({
            let after = tcp_merged_bufs(CanCoalesce::Prepend, new, item, bufs, offset);
            let headers = item.iph_len + item.tcph_len;
            let held = packet(bufs, offset, item.bufs_index as int);
            let came = packet(bufs, offset, new.bufs_index as int);
            packet(after, offset, item.bufs_index as int) == came + held.subrange(
                headers,
                held.len() as int,
            )
        }),
{
    let after = tcp_merged_bufs(CanCoalesce::Prepend, new, item, bufs, offset);
    let headers = item.iph_len + item.tcph_len;
    let held = packet(bufs, offset, item.bufs_index as int);
    let came = packet(bufs, offset, new.bufs_index as int);
    assert(packet(after, offset, item.bufs_index as int) =~= came + held.subrange(
        headers,
        held.len() as int,
    ));
}

/// How many packets the items of a table have taken in.
pub open spec fn tcp_merged_total(items: Seq<TcpGroItem>) -> int
    decreases items.len(),
{
    if items.len() == 0 {
        0
    } else {
        tcp_merged_total(items.drop_last()) + items.last().num_merged
    }
}

pub open spec fn udp_merged_total(items: Seq<UdpGroItem>) -> int
    decreases items.len(),
{
    if items.len() == 0 {
        0
    } else {
        udp_merged_total(items.drop_last()) + items.last().num_merged
    }
}

/// The buffers of all items are among those to be written.
pub open spec fn items_written(st: GroState) -> bool {
    &&& forall|k: int|
        0 <= k < st.tcp.len() ==> st.to_write.contains((#[trigger] st.tcp[k]).bufs_index)
    &&& forall|k: int|
        0 <= k < st.udp.len() ==> st.to_write.contains((#[trigger] st.udp[k]).bufs_index)
}

proof fn lemma_tcp_total_update(items: Seq<TcpGroItem>, k: int, item: TcpGroItem)
    requires
        0 <= k < items.len(),
    ensures
        tcp_merged_total(items.update(k, item)) == tcp_merged_total(items) - items[k].num_merged
            + item.num_merged,
    decreases items.len(),
{
    if k == items.len() - 1 {
        assert(items.update(k, item).drop_last() =~= items.drop_last());
    } else {
        assert(items.update(k, item).drop_last() =~= items.drop_last().update(k, item));
        lemma_tcp_total_update(items.drop_last(), k, item);
    }
}

proof fn lemma_tcp_total_remove(items: Seq<TcpGroItem>, k: int)
    requires
        0 <= k < items.len(),
    ensures
        tcp_merged_total(items.remove(k)) == tcp_merged_total(items) - items[k].num_merged,
    decreases items.len(),
{
    if k == items.len() - 1 {
        assert(items.remove(k) =~= items.drop_last());
    } else {
        assert(items.remove(k).drop_last() =~= items.drop_last().remove(k));
        lemma_tcp_total_remove(items.drop_last(), k);
    }
}

proof fn lemma_udp_total_update(items: Seq<UdpGroItem>, k: int, item: UdpGroItem)
    requires
        0 <= k < items.len(),
    ensures
        udp_merged_total(items.update(k, item)) == udp_merged_total(items) - items[k].num_merged
            + item.num_merged,
    decreases items.len(),
{
    if k == items.len() - 1 {
        assert(items.update(k, item).drop_last() =~= items.drop_last());
    } else {
        assert(items.update(k, item).drop_last() =~= items.drop_last().update(k, item));
        lemma_udp_total_update(items.drop_last(), k, item);
    }
}

/// What a step keeps: the state stays well-formed, what was to be written
/// still is, and the merged packets are counted.
pub open spec fn step_keeps(
    st: GroState,
    offset: int,
    i: int,
    result: GroResult,
    next: GroState,
) -> bool {
    let counted = tcp_merged_total(st.tcp) + udp_merged_total(st.udp);
    &&& next.bufs.len() == st.bufs.len()
    &&& gro_wf(next, offset, i + 1)
    &&& next.to_write == st.to_write
    &&& tcp_merged_total(next.tcp) + udp_merged_total(next.udp) == (if result
        == GroResult::Coalesced {
        counted + 1
    } else {
        counted
    })
    &&& items_written(st) ==> if result == GroResult::TableInsert {
        items_written((GroState { to_write: next.to_write.push(i as usize), ..next }))
    } else {
        items_written(next)
    }
    &&& forall|k: int| i < k < st.bufs.len() ==> #[trigger] next.bufs[k] == st.bufs[k]
}

proof fn lemma_tcp_place_keeps(st: GroState, offset: int, new: TcpGroItem, n: int)
    requires
        gro_wf(st, offset, new.bufs_index as int),
        0 <= n <= st.tcp.len(),
        0 <= offset,
        new.bufs_index < st.bufs.len() <= usize::MAX,
        tcp_item_ok(new, st.bufs, offset, new.bufs_index + 1),
        new.num_merged == 0,
    ensures
        step_keeps(
            st,
            offset,
            new.bufs_index as int,
            tcp_place(st, offset, new, n).0,
            tcp_place(st, offset, new, n).1,
        ),
    decreases n,
{
    let i = new.bufs_index as int;
    if n == 0 {
        let next = GroState { tcp: st.tcp.push(new), ..st };
        lemma_wf_step(st, offset, i);
        assert(next.tcp.drop_last() =~= st.tcp);
        assert(gro_wf(next, offset, i + 1));
        if items_written(st) {
            let w = st.to_write.push(i as usize);
            assert(w[st.to_write.len() as int] == i as usize);
            lemma_written_push(next.tcp, st.udp, st, i as usize);
        }
    } else {
        let item = st.tcp[n - 1];
        assert(tcp_item_ok(item, st.bufs, offset, i));
        let pkt = packet(st.bufs, offset, i);
        let target = packet(st.bufs, offset, item.bufs_index as int);
        let direction = tcp_direction(pkt, new, item, target);
        if item.key != new.key || direction == CanCoalesce::Unavailable {
            lemma_tcp_place_keeps(st, offset, new, n - 1);
        } else {
            let grows = if direction == CanCoalesce::Prepend {
                i
            } else {
                item.bufs_index as int
            };
            let verdict = tcp_verdict(
                direction,
                pkt,
                new,
                item,
                target,
                st.caps[grows] - st.bufs[grows].len(),
            );
            if verdict == CoalesceResult::Success {
                let next = GroState {
                    bufs: tcp_merged_bufs(direction, new, item, st.bufs, offset),
                    caps: tcp_merged_caps(direction, new, item, st.caps),
                    tcp: st.tcp.update(n - 1, tcp_merged_item(direction, new, item)),
                    ..st
                };
                lemma_tcp_merge_keeps_wf(st, next, offset, new, n - 1, direction);
                lemma_tcp_total_update(st.tcp, n - 1, tcp_merged_item(direction, new, item));
                if items_written(st) {
                    assert forall|k: int| 0 <= k < next.tcp.len() implies next.to_write.contains(
                        (#[trigger] next.tcp[k]).bufs_index,
                    ) by {
                        assert(st.to_write.contains(st.tcp[k].bufs_index));
                    }
                }
            } else if verdict == CoalesceResult::ItemInvalidCsum {
                let next = GroState { tcp: st.tcp.remove(n - 1), ..st };
                assert forall|k: int| 0 <= k < next.tcp.len() implies tcp_item_ok(
                    #[trigger] next.tcp[k],
                    next.bufs,
                    offset,
                    i,
                ) by {
                    let j = if k < n - 1 {
                        k
                    } else {
                        k + 1
                    };
                    assert(next.tcp[k] == st.tcp[j]);
                    assert(tcp_item_ok(st.tcp[j], st.bufs, offset, i));
                }
                assert(gro_wf(next, offset, i));
                lemma_tcp_total_remove(st.tcp, n - 1);
                if items_written(st) {
                    assert forall|k: int| 0 <= k < next.tcp.len() implies next.to_write.contains(
                        (#[trigger] next.tcp[k]).bufs_index,
                    ) by {
                        let j = if k < n - 1 {
                            k
                        } else {
                            k + 1
                        };
                        assert(next.tcp[k] == st.tcp[j]);
                        assert(st.to_write.contains(st.tcp[j].bufs_index));
                    }
                }
                lemma_tcp_place_keeps(next, offset, new, n - 1);
            } else if verdict == CoalesceResult::PktInvalidCsum {
                lemma_wf_step(st, offset, i);
            } else {
                lemma_tcp_place_keeps(st, offset, new, n - 1);
            }
        }
    }
}

/// An item that is added to a table together with its buffer's place in the
/// list to be written.
proof fn lemma_written_push(
    tcp: Seq<TcpGroItem>,
    udp: Seq<UdpGroItem>,
    st: GroState,
    i: usize,
)
    requires
        items_written(st),
        forall|k: int|
            0 <= k < tcp.len() ==> (#[trigger] tcp[k]).bufs_index == i || (k < st.tcp.len()
                && tcp[k] == st.tcp[k]),
        forall|k: int|
            0 <= k < udp.len() ==> (#[trigger] udp[k]).bufs_index == i || (k < st.udp.len()
                && udp[k] == st.udp[k]),
    ensures
        items_written((GroState { tcp, udp, to_write: st.to_write.push(i), ..st })),
{
    let w = st.to_write.push(i);
    assert(w[st.to_write.len() as int] == i);
    assert forall|x: usize| st.to_write.contains(x) implies w.contains(x) by {
        let j = choose|j: int| 0 <= j < st.to_write.len() && st.to_write[j] == x;
        assert(w[j] == x);
    }
    assert forall|k: int| 0 <= k < tcp.len() implies w.contains(
        (#[trigger] tcp[k]).bufs_index,
    ) by {
        if tcp[k].bufs_index != i {
            assert(st.to_write.contains(st.tcp[k].bufs_index));
        }
    }
    assert forall|k: int| 0 <= k < udp.len() implies w.contains(
        (#[trigger] udp[k]).bufs_index,
    ) by {
        if udp[k].bufs_index != i {
            assert(st.to_write.contains(st.udp[k].bufs_index));
        }
    }
}

proof fn lemma_last_of_flow(items: Seq<UdpGroItem>, key: UdpFlowKey, n: int)
    requires
        n <= items.len(),
    ensures
        last_of_flow(items, key, n) matches Some(k) ==> 0 <= k < items.len() && items[k].key == key,
    decreases n,
{
    if n > 0 {
        lemma_last_of_flow(items, key, n - 1);
    }
}

proof fn lemma_udp_step_keeps(st: GroState, offset: int, i: int, is_v6: bool)
    requires
        gro_wf(st, offset, i),
        0 <= offset,
        0 <= i < st.bufs.len() <= usize::MAX,
        offset <= st.bufs[i].len(),
    ensures
        step_keeps(
            st,
            offset,
            i,
            udp_step(st, offset, i, is_v6).0,
            udp_step(st, offset, i, is_v6).1,
        ),
{
    let pkt = packet(st.bufs, offset, i);
    lemma_wf_step(st, offset, i);
    if let Some(new) = udp_item(pkt, i, is_v6) {
        lemma_last_of_flow(st.udp, new.key, st.udp.len() as int);
        let (result, next) = udp_step(st, offset, i, is_v6);
        if result == GroResult::TableInsert {
            assert(next.udp.drop_last() =~= st.udp);
            assert(udp_item_ok(new, st.bufs, offset, i + 1));
            assert(gro_wf(next, offset, i + 1));
            if items_written(st) {
                lemma_written_push(st.tcp, next.udp, st, i as usize);
            }
        } else {
            let k = last_of_flow(st.udp, new.key, st.udp.len() as int)->0;
            let item = st.udp[k];
            assert(udp_item_ok(item, st.bufs, offset, i));
            assert forall|j: int| 0 <= j < next.tcp.len() implies tcp_item_ok(
                #[trigger] next.tcp[j],
                next.bufs,
                offset,
                i + 1,
            ) by {
                assert(tcp_item_ok(st.tcp[j], st.bufs, offset, i));
            }
            assert forall|j: int| 0 <= j < next.udp.len() implies udp_item_ok(
                #[trigger] next.udp[j],
                next.bufs,
                offset,
                i + 1,
            ) by {
                assert(udp_item_ok(st.udp[j], st.bufs, offset, i));
            }
            assert(gro_wf(next, offset, i + 1));
            lemma_udp_total_update(st.udp, k, next.udp[k]);
            if items_written(st) {
                assert forall|j: int| 0 <= j < next.udp.len() implies next.to_write.contains(
                    (#[trigger] next.udp[j]).bufs_index,
                ) by {
                    assert(st.to_write.contains(st.udp[j].bufs_index));
                }
            }
        }
    }
}

proof fn lemma_tcp_step_keeps(st: GroState, offset: int, i: int, is_v6: bool)
    requires
        gro_wf(st, offset, i),
        0 <= offset,
        0 <= i < st.bufs.len() <= usize::MAX,
        offset <= st.bufs[i].len(),
    ensures
        step_keeps(
            st,
            offset,
            i,
            tcp_step(st, offset, i, is_v6).0,
            tcp_step(st, offset, i, is_v6).1,
        ),
{
    lemma_wf_step(st, offset, i);
    if let Some(new) = tcp_item(packet(st.bufs, offset, i), i, is_v6) {
        lemma_tcp_place_keeps(st, offset, new, st.tcp.len() as int);
    }
}

/// No packet of a batch is lost, where nothing was to be written before.
proof fn lemma_run_accounts(
    st: GroState,
    offset: int,
    tcp: bool,
    udp: bool,
    n: int,
)
    requires
        st.tcp.len() == 0,
        st.udp.len() == 0,
        st.to_write.len() == 0,
        st.bufs.len() <= usize::MAX,
        st.caps.len() == st.bufs.len(),
        forall|k: int| 0 <= k < st.bufs.len() ==> (#[trigger] st.bufs[k]).len() <= st.caps[k],
        0 <= n <= st.bufs.len(),
        forall|k: int| 0 <= k < n ==> #[trigger] offset_fits(st.bufs, offset, k),
    ensures
        ({
            let end = gro_run(st, offset, tcp, udp, n);
            &&& end.to_write.len() + tcp_merged_total(end.tcp) + udp_merged_total(end.udp) == n
            &&& items_written(end)
            &&& forall|a: int| 0 <= a < end.to_write.len() ==> #[trigger] end.to_write[a] < n
            &&& forall|a: int, b: int|
                0 <= a < b < end.to_write.len() ==> #[trigger] end.to_write[a]
                    < #[trigger] end.to_write[b]
            &&& gro_wf(end, offset, n)
            &&& end.bufs.len() == st.bufs.len()
            &&& forall|k: int| n <= k < st.bufs.len() ==> #[trigger] end.bufs[k] == st.bufs[k]
        }),
    decreases n,
{
    if n > 0 {
        lemma_run_accounts(st, offset, tcp, udp, n - 1);
        let i = n - 1;
        assert(offset_fits(st.bufs, offset, i));
        let before = gro_run(st, offset, tcp, udp, i);
        assert(before.bufs[i] == st.bufs[i]);
        lemma_look_keeps(before, offset, tcp, udp, i);
        lemma_noop_keeps_buffer(before, offset, tcp, udp, i);
        let (result, next) = gro_look(before, offset, tcp, udp, i);
        let end = gro_run(st, offset, tcp, udp, n);
        assert(end == gro_step(before, offset, tcp, udp, i));
        lemma_wf_same_lengths(next, end, offset, n);
        if result == GroResult::Noop {
            lemma_written_push(next.tcp, next.udp, next, i as usize);
            let w = next.to_write.push(i as usize);
            let written = GroState { tcp: next.tcp, udp: next.udp, to_write: w, ..next };
            assert(items_written(written));
            assert(end.tcp == written.tcp && end.udp == written.udp && end.to_write
                == written.to_write);
            assert forall|k: int| 0 <= k < end.tcp.len() implies end.to_write.contains(
                (#[trigger] end.tcp[k]).bufs_index,
            ) by {
                assert(written.to_write.contains(written.tcp[k].bufs_index));
            }
            assert forall|k: int| 0 <= k < end.udp.len() implies end.to_write.contains(
                (#[trigger] end.udp[k]).bufs_index,
            ) by {
                assert(written.to_write.contains(written.udp[k].bufs_index));
            }
        }
    }
}

/// No packet of a batch is lost: each is written itself or was merged into
/// one that is. What was to be written before stays in front; the places that
/// are added to it rise, so no packet is written twice.
pub proof fn law_gro_accounts_for_every_packet(
    st: GroState,
    offset: int,
    tcp: bool,
    udp: bool,
    n: int,
)
    requires
        st.tcp.len() == 0,
        st.udp.len() == 0,
        st.bufs.len() <= usize::MAX,
        st.caps.len() == st.bufs.len(),
        forall|k: int| 0 <= k < st.bufs.len() ==> (#[trigger] st.bufs[k]).len() <= st.caps[k],
        0 <= n <= st.bufs.len(),
        forall|k: int| 0 <= k < n ==> #[trigger] offset_fits(st.bufs, offset, k),
    ensures
        ({
            let end = gro_run(st, offset, tcp, udp, n);
            let had = st.to_write.len() as int;
            let added = end.to_write.skip(had);
            &&& end.to_write == st.to_write + added
            &&& added.len() + tcp_merged_total(end.tcp) + udp_merged_total(end.udp) == n
            &&& items_written((GroState { to_write: added, ..end }))
            &&& forall|a: int| 0 <= a < added.len() ==> #[trigger] added[a] < n
            &&& forall|a: int, b: int|
                0 <= a < b < added.len() ==> #[trigger] added[a] < #[trigger] added[b]
            &&& gro_wf(end, offset, n)
            &&& end.bufs.len() == st.bufs.len()
            &&& forall|k: int| n <= k < st.bufs.len() ==> #[trigger] end.bufs[k] == st.bufs[k]
        }),
{
    let bare = GroState { to_write: Seq::empty(), ..st };
    assert forall|k: int| 0 <= k < n implies #[trigger] offset_fits(bare.bufs, offset, k) by {
        assert(offset_fits(st.bufs, offset, k));
    }
    lemma_run_accounts(bare, offset, tcp, udp, n);
    lemma_run_appends(st, offset, tcp, udp, n);
    let end = gro_run(st, offset, tcp, udp, n);
    let e = gro_run(bare, offset, tcp, udp, n);
    let added = end.to_write.skip(st.to_write.len() as int);
    assert(added =~= e.to_write);
    assert(GroState { to_write: added, ..end } == e);
    lemma_wf_same_lengths(e, end, offset, n);
}

/// The list to be written takes no part in placing a TCP packet.
proof fn lemma_tcp_place_any_list(
    st: GroState,
    offset: int,
    new: TcpGroItem,
    n: int,
    w: Seq<usize>,
)
    ensures
        ({
            let (result, next) = tcp_place(st, offset, new, n);
            tcp_place((GroState { to_write: w, ..st }), offset, new, n) == (
                result,
                GroState { to_write: w, ..next },
            )
        }),
    decreases n,
{
    if n > 0 {
        let other = GroState { to_write: w, ..st };
        let less = GroState { tcp: st.tcp.remove(n - 1), ..st };
        lemma_tcp_place_any_list(st, offset, new, n - 1, w);
        lemma_tcp_place_any_list(less, offset, new, n - 1, w);
        assert(GroState { tcp: other.tcp.remove(n - 1), ..other } == GroState {
            to_write: w,
            ..less
        });
    }
}

/// The list to be written takes no part in what becomes of a packet.
pub proof fn lemma_look_any_list(
    st: GroState,
    offset: int,
    tcp: bool,
    udp: bool,
    i: int,
    w: Seq<usize>,
)
    ensures
        ({
            let (result, next) = gro_look(st, offset, tcp, udp, i);
            gro_look((GroState { to_write: w, ..st }), offset, tcp, udp, i) == (
                result,
                GroState { to_write: w, ..next },
            )
        }),
{
    reveal(gro_look);
    let pkt = packet(st.bufs, offset, i);
    if let Some(new) = tcp_item(pkt, i, false) {
        lemma_tcp_place_any_list(st, offset, new, st.tcp.len() as int, w);
    }
    if let Some(new) = tcp_item(pkt, i, true) {
        lemma_tcp_place_any_list(st, offset, new, st.tcp.len() as int, w);
    }
}

/// Looking at a packet leaves the list to be written alone.
proof fn lemma_look_keeps_list(st: GroState, offset: int, tcp: bool, udp: bool, i: int)
    ensures
        gro_look(st, offset, tcp, udp, i).1.to_write == st.to_write,
{
    lemma_look_any_list(st, offset, tcp, udp, i, st.to_write);
}

/// A batch adds to the list to be written, and is merged as if the list had
/// been empty.
pub proof fn lemma_run_appends(st: GroState, offset: int, tcp: bool, udp: bool, n: int)
    ensures
        ({
            let e = gro_run((GroState { to_write: Seq::empty(), ..st }), offset, tcp, udp, n);
            gro_run(st, offset, tcp, udp, n) == (GroState {
                to_write: st.to_write + e.to_write,
                ..e
            })
        }),
    decreases n,
{
    let bare = GroState { to_write: Seq::empty(), ..st };
    if n <= 0 {
        assert(st.to_write + Seq::<usize>::empty() =~= st.to_write);
    } else {
        lemma_run_appends(st, offset, tcp, udp, n - 1);
        let e = gro_run(bare, offset, tcp, udp, n - 1);
        let full = gro_run(st, offset, tcp, udp, n - 1);
        lemma_look_any_list(e, offset, tcp, udp, n - 1, full.to_write);
        lemma_look_keeps_list(e, offset, tcp, udp, n - 1);
        let at = (n - 1) as usize;
        assert((st.to_write + e.to_write).push(at) =~= st.to_write + e.to_write.push(at));
    }
}

proof fn lemma_look_keeps(st: GroState, offset: int, tcp: bool, udp: bool, i: int)
    requires
        gro_wf(st, offset, i),
        0 <= offset,
        0 <= i < st.bufs.len() <= usize::MAX,
        offset <= st.bufs[i].len(),
    ensures
        step_keeps(
            st,
            offset,
            i,
            gro_look(st, offset, tcp, udp, i).0,
            gro_look(st, offset, tcp, udp, i).1,
        ),
{
    reveal(gro_look);
    lemma_tcp_step_keeps(st, offset, i, false);
    lemma_tcp_step_keeps(st, offset, i, true);
    lemma_udp_step_keeps(st, offset, i, false);
    lemma_udp_step_keeps(st, offset, i, true);
    lemma_wf_step(st, offset, i);
}

} // verus!
