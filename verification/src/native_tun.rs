//! Packets in and out of a device that frames them with virtio-net headers:
//! what is read is stripped and split, what is written is framed and merged.
use vstd::prelude::*;

use crate::addr::Ipv4Addr;
use crate::checksum;
use crate::checksum::{checksum, complement, pseudo_header_checksum};
use crate::gro;
use crate::gro::{handle_gro, GroDisablementFlags, TcpGroTable, UdpGroTable};
use crate::gso;
use crate::gso::{
    gso_split, GsoError, GsoOptions, GsoType, VirtioNetHdr, IDEAL_BATCH_SIZE,
    VIRTIO_NET_HDR_GSO_NONE, VIRTIO_NET_HDR_LEN,
};
use crate::wire;
use crate::wire::{bytes_eq, native_one, set_be16, sub_vec, zero_vec};

verus! {

/// The request to split that a header makes.
pub open spec fn options_of(hdr: VirtioNetHdr) -> Option<GsoOptions> {
    match gso::gso_type_of(hdr.gso_type) {
        Some(t) => Some(
            GsoOptions {
                gso_type: t,
                hdr_len: hdr.hdr_len,
                csum_start: hdr.csum_start,
                csum_offset: hdr.csum_offset,
                gso_size: hdr.gso_size,
                needs_csum: hdr.flags & gso::VIRTIO_NET_HDR_F_NEEDS_CSUM != 0,
            },
        ),
        None => None,
    }
}

/// The packets that splitting gives, into at most `bufs` of them.
pub open spec fn split_packets(pkt: Seq<u8>, o: GsoOptions, bufs: int) -> Result<
    Seq<Seq<u8>>,
    GsoError,
> {
    match gso::gso_refusal(pkt, o, bufs) {
        Some(e) => Err(e),
        None => if o.passes_whole(pkt.len() as int) {
            Ok(seq![gso::whole_packet(pkt, o)])
        } else if gso::too_many_segments(pkt.len() as int, o, bufs) {
            Err(GsoError::TooManySegments)
        } else {
            Ok(
                Seq::new(
                    gso::segments_written(pkt.len() as int, o, bufs) as nat,
                    |k: int| gso::segment(pkt, o, k),
                ),
            )
        },
    }
}

/// The packets in what one read from the device gave. With headers, the first
/// bytes are the header, and where it says that the packet is larger than the
/// MTU, the packet is split.
pub open spec fn received(vnet_hdr: bool, little: bool, data: Seq<u8>) -> Result<
    Seq<Seq<u8>>,
    GsoError,
> {
    if vnet_hdr && data.len() > VIRTIO_NET_HDR_LEN {
        let hdr = gso::hdr_of(data.subrange(0, VIRTIO_NET_HDR_LEN as int), little);
        let pkt = data.subrange(VIRTIO_NET_HDR_LEN as int, data.len() as int);
        if hdr.gso_type != VIRTIO_NET_HDR_GSO_NONE {
            match options_of(hdr) {
                Some(o) => split_packets(pkt, o, IDEAL_BATCH_SIZE as int),
                None => Err(GsoError::UnsupportedType(hdr.gso_type)),
            }
        } else {
            Ok(seq![pkt])
        }
    } else {
        Ok(seq![data])
    }
}

/// What was read can be split: its headers have room for the fields that
/// splitting changes.
pub open spec fn receivable(vnet_hdr: bool, little: bool, data: Seq<u8>) -> bool {
    vnet_hdr && data.len() > VIRTIO_NET_HDR_LEN ==> {
        let hdr = gso::hdr_of(data.subrange(0, VIRTIO_NET_HDR_LEN as int), little);
        let pkt = data.subrange(VIRTIO_NET_HDR_LEN as int, data.len() as int);
        hdr.gso_type != VIRTIO_NET_HDR_GSO_NONE ==> match options_of(hdr) {
            Some(o) => gso::gso_ready(pkt, o, IDEAL_BATCH_SIZE as int, IDEAL_BATCH_SIZE as int),
            None => true,
        }
    }
}

/// How many segments are written, of at most `bufs`.
fn count_segments(len: usize, o: &GsoOptions, bufs: usize) -> (n: usize)
    ensures
        n == gso::segments_written(len as int, *o, bufs as int),
        n <= bufs || len <= o.hdr_len,
{
    if len <= o.hdr_len as usize {
        return 0;
    }
    let payload: usize = len - o.hdr_len as usize;
    if o.gso_size == 0 {
        return bufs;
    }
    let size: u128 = o.gso_size as u128;
    let count: u128 = (payload as u128 + size - 1) / size;
    proof {
        vstd::arithmetic::div_mod::lemma_div_is_ordered_by_denominator(
            payload as int + size as int - 1,
            1,
            size as int,
        );
    }
    if count > bufs as u128 {
        bufs
    } else {
        count as usize
    }
}

/// Whether segment `i` has room for the fields that are written into it.
fn segment_has_room(input: &[u8], o: &GsoOptions, i: usize) -> (r: bool)
    requires
        input.len() > 0,
    ensures
        r == ({
            let end = gso::segment_end(input@.len() as int, *o, i as int);
            let total = o.hdr_len + end - gso::segment_start(*o, i as int);
            &&& total >= (if input@[0] / 16 == 4 {
                12int
            } else {
                6int
            })
            &&& o.csum_start + (if o.is_tcp() {
                8int
            } else {
                6int
            }) <= total
            &&& o.is_tcp() && end != input@.len() ==> o.csum_start + 13 < total
            &&& o.csum_at() + 1 < total
            &&& total - o.csum_start <= 65535
        }),
{
    let tcp: bool = match o.gso_type {
        GsoType::TcpV4 => true,
        GsoType::TcpV6 => true,
        _ => false,
    };
    assert(0 <= i * o.gso_size < 0x1_0000_0000_0000_0000_0000) by (nonlinear_arith)
        requires
            0 <= i < 0x1_0000_0000_0000_0000,
            0 <= o.gso_size < 0x1_0000,
    ;
    let start: i128 = o.hdr_len as i128 + i as i128 * o.gso_size as i128;
    let len: i128 = input.len() as i128;
    let end: i128 = if start + (o.gso_size as i128) < len {
        start + o.gso_size as i128
    } else {
        len
    };
    let total: i128 = o.hdr_len as i128 + end - start;
    let ip_room: i128 = if input[0] / 16 == 4 {
        12
    } else {
        6
    };
    let field_room: i128 = if tcp {
        8
    } else {
        6
    };
    let csum_start: i128 = o.csum_start as i128;
    total >= ip_room && csum_start + field_room <= total && (!tcp || end == len || csum_start + 13
        < total) && csum_start + (o.csum_offset as i128) + 1 < total && total - csum_start <= 65535
}

/// Whether `gso_split` can be called with these.
pub fn can_split(input: &[u8], o: &GsoOptions, bufs: usize, sizes: usize) -> (r: bool)
    ensures
        r == gso::gso_ready(input@, *o, bufs as int, sizes as int),
{
    let len: usize = input.len();
    let csum_at: usize = o.csum_start as usize + o.csum_offset as usize;
    if csum_at + 1 >= len || len < o.hdr_len as usize {
        return true;
    }
    let whole: bool = match o.gso_type {
        GsoType::NoGso => true,
        _ => len - (o.hdr_len as usize) < o.gso_size as usize,
    };
    if whole {
        return bufs == 0 || sizes >= 1;
    }
    let tcp: bool = match o.gso_type {
        GsoType::TcpV4 => true,
        GsoType::TcpV6 => true,
        _ => false,
    };
    if o.hdr_len < o.csum_start || (tcp && len < o.csum_start as usize + 20) {
        return true;
    }
    let n: usize = count_segments(len, o, bufs);
    let addresses_end: usize = if input[0] / 16 == 4 {
        20
    } else {
        40
    };
    if len as u128 + o.gso_size as u128 > u32::MAX as u128 || sizes < n || addresses_end > len {
        return false;
    }
    let mut i: usize = 0;
    while i < n
        invariant
            i <= n,
            input.len() > 0,
            n == gso::segments_written(input@.len() as int, *o, bufs as int),
            gso::gso_refusal(input@, *o, bufs as int) is None,
            !o.passes_whole(input@.len() as int),
            forall|k: int|
                0 <= k < i ==> {
                    let total = o.hdr_len + #[trigger] gso::segment_end(
                        input@.len() as int,
                        *o,
                        k,
                    ) - gso::segment_start(*o, k);
                    &&& total >= (if input@[0] / 16 == 4 {
                        12int
                    } else {
                        6int
                    })
                    &&& o.csum_start + (if o.is_tcp() {
                        8int
                    } else {
                        6int
                    }) <= total
                    &&& o.is_tcp() && gso::segment_end(input@.len() as int, *o, k)
                        != input@.len() ==> o.csum_start + 13 < total
                    &&& o.csum_at() + 1 < total
                    &&& total - o.csum_start <= 65535
                },
        decreases n - i,
    {
        if !segment_has_room(input, o, i) {
            assert(!gso::segment_room(input@, *o, bufs as int)) by {
                let e = gso::segment_end(input@.len() as int, *o, i as int);
            }
            return false;
        }
        i += 1;
    }
    true
}

/// The packets that wait to be handed out, read from a device.
pub struct PacketQueue {
    vnet_hdr: bool,
    /// Headers hold the low byte of a field first.
    little: bool,
    /// The packets in reverse: the last is the next.
    stack: Vec<Vec<u8>>,
}

/// What filling buffers from waiting packets leaves.
pub open spec fn filled(
    waiting: Seq<Seq<u8>>,
    bufs: Seq<Seq<u8>>,
    from: int,
) -> (Seq<Seq<u8>>, Seq<Seq<u8>>) {
    let n = if waiting.len() < bufs.len() - from {
        waiting.len() as int
    } else {
        bufs.len() - from
    };
    (
        waiting.skip(n),
        Seq::new(
            bufs.len(),
            |k: int|
                if from <= k < from + n {
                    waiting[k - from]
                } else {
                    bufs[k]
                },
        ),
    )
}

impl PacketQueue {
    /// The packets that wait, the next one first.
    pub closed spec fn waiting(&self) -> Seq<Seq<u8>> {
        Seq::new(self.stack@.len(), |k: int| self.stack@[self.stack@.len() - 1 - k]@)
    }

    pub closed spec fn has_vnet_hdr(&self) -> bool {
        self.vnet_hdr
    }

    /// Headers hold the low byte of a field first.
    pub closed spec fn is_little(&self) -> bool {
        self.little
    }

    /// Nothing waits; headers are in the byte order of this machine. Which of
    /// the two orders that is, is left open.
    pub fn new(vnet_hdr: bool) -> (q: Self)
        ensures
            q.waiting().len() == 0,
            q.has_vnet_hdr() == vnet_hdr,
    {
        Self::new_in(vnet_hdr, native_one() == 1)
    }

    /// Nothing waits; headers are in the given byte order.
    pub fn new_in(vnet_hdr: bool, little: bool) -> (q: Self)
        ensures
            q.waiting().len() == 0,
            q.has_vnet_hdr() == vnet_hdr,
            q.is_little() == little,
    {
        PacketQueue { vnet_hdr, little, stack: Vec::new() }
    }

    /// Hands waiting packets out into the buffers behind those that `sizes`
    /// counts, and adds their lengths.
    pub fn drain(&mut self, bufs: &mut [Vec<u8>], sizes: &mut Vec<usize>)
        requires
            old(sizes)@.len() <= old(bufs)@.len(),
        ensures
            final(self).has_vnet_hdr() == old(self).has_vnet_hdr(),
            final(self).is_little() == old(self).is_little(),
            ({
                let r = filled(
                    old(self).waiting(),
                    wire::views(old(bufs)@),
                    old(sizes)@.len() as int,
                );
                &&& final(self).waiting() == r.0
                &&& wire::views(final(bufs)@) == r.1
                &&& final(sizes)@.len() == old(sizes)@.len() + old(self).waiting().len()
                    - r.0.len()
                &&& forall|k: int|
                    0 <= k < final(sizes)@.len() ==> #[trigger] final(sizes)@[k] == (if k < old(
                        sizes,
                    )@.len() {
                        old(sizes)@[k] as int
                    } else {
                        r.1[k].len() as int
                    })
            }),
            final(bufs)@.len() == old(bufs)@.len(),
            final(sizes)@.len() <= final(bufs)@.len(),
    {
        let ghost w = self.waiting();
        let ghost b0 = wire::views(bufs@);
        let ghost s0 = sizes@;
        let ghost from = sizes@.len() as int;
        assert(w.skip(0) =~= w);
        while self.stack.len() > 0 && sizes.len() < bufs.len()
            invariant
                from == s0.len(),
                from <= sizes@.len() <= bufs@.len(),
                bufs@.len() == b0.len(),
                bufs@.len() == old(bufs)@.len(),
                sizes@.len() - from <= w.len(),
                self.vnet_hdr == old(self).vnet_hdr,
                self.little == old(self).little,
                self.waiting() == w.skip(sizes@.len() - from),
                forall|k: int|
                    0 <= k < sizes@.len() ==> #[trigger] sizes@[k] == (if k < from {
                        s0[k] as int
                    } else {
                        w[k - from].len() as int
                    }),
                forall|k: int|
                    0 <= k < bufs@.len() ==> (#[trigger] bufs@[k])@ == (if from <= k
                        < sizes@.len() {
                        w[k - from]
                    } else {
                        b0[k]
                    }),
            decreases self.stack.len(),
        {
            let ghost before = self.stack@;
            let ghost done = sizes@.len() - from;
            let pkt: Vec<u8> = match self.stack.pop() {
                Some(p) => p,
                None => {
                    return ;
                },
            };
            assert(self.waiting() =~= w.skip(done).skip(1)) by {
                assert forall|k: int| 0 <= k < self.stack@.len() implies self.waiting()[k]
                    == w.skip(done)[k + 1] by {
                    assert(self.stack@[self.stack@.len() - 1 - k] == before[before.len() - 2 - k]);
                }
            }
            assert(pkt@ == w.skip(done)[0]);
            let at: usize = sizes.len();
            sizes.push(pkt.len());
            bufs[at] = pkt;
            assert(w.skip(done).skip(1) =~= w.skip(done + 1));
        }
        proof {
            let r = filled(w, b0, from);
            assert(wire::views(bufs@) =~= r.1);
            assert(self.waiting() =~= r.0);
        }
    }

    /// Takes what one read from the device gave; nothing may wait.
    pub fn receive(&mut self, data: &[u8]) -> (r: Result<(), GsoError>)
        requires
            old(self).waiting().len() == 0,
            receivable(old(self).has_vnet_hdr(), old(self).is_little(), data@),
        ensures
            final(self).has_vnet_hdr() == old(self).has_vnet_hdr(),
            final(self).is_little() == old(self).is_little(),
            match received(old(self).has_vnet_hdr(), old(self).is_little(), data@) {
                Ok(p) => r is Ok && final(self).waiting() == p,
                Err(e) => r == Err::<(), GsoError>(e) && final(self).waiting().len() == 0,
            },
    {
        if self.vnet_hdr && data.len() > VIRTIO_NET_HDR_LEN {
            let hdr = match VirtioNetHdr::decode_in(&data[0..VIRTIO_NET_HDR_LEN], self.little) {
                Ok(hdr) => hdr,
                Err(e) => {
                    return Err(e);
                },
            };
            let pkt: Vec<u8> = sub_vec(data, VIRTIO_NET_HDR_LEN, data.len());
            if hdr.is_gso() {
                let options = match hdr.to_gso_options() {
                    Ok(options) => options,
                    Err(e) => {
                        return Err(e);
                    },
                };
                return self.split(pkt.as_slice(), &options);
            }
            self.stack.push(pkt);
            assert(self.waiting() =~= seq![pkt@]);
        } else {
            let pkt: Vec<u8> = sub_vec(data, 0, data.len());
            assert(pkt@ =~= data@);
            self.stack.push(pkt);
            assert(self.waiting() =~= seq![data@]);
        }
        Ok(())
    }

    fn split(&mut self, pkt: &[u8], options: &GsoOptions) -> (r: Result<(), GsoError>)
        requires
            old(self).waiting().len() == 0,
            gso::gso_ready(pkt@, *options, IDEAL_BATCH_SIZE as int, IDEAL_BATCH_SIZE as int),
        ensures
            final(self).has_vnet_hdr() == old(self).has_vnet_hdr(),
            final(self).is_little() == old(self).is_little(),
            match split_packets(pkt@, *options, IDEAL_BATCH_SIZE as int) {
                Ok(p) => r is Ok && final(self).waiting() == p,
                Err(e) => r == Err::<(), GsoError>(e) && final(self).waiting().len() == 0,
            },
    {
        let mut out: Vec<Vec<u8>> = Vec::new();
        let mut sizes: Vec<usize> = Vec::new();
        let mut k: usize = 0;
        while k < IDEAL_BATCH_SIZE
            invariant
                k <= IDEAL_BATCH_SIZE,
                out@.len() == k,
                sizes@.len() == k,
            decreases IDEAL_BATCH_SIZE - k,
        {
            out.push(Vec::new());
            sizes.push(0);
            k += 1;
        }
        let n: usize = match gso_split(
            pkt,
            options,
            out.as_mut_slice(),
            sizes.as_mut_slice(),
        ) {
            Ok(n) => n,
            Err(e) => {
                return Err(e);
            },
        };
        let ghost parts = wire::views(out@).take(n as int);
        proof {
            let p = split_packets(pkt@, *options, IDEAL_BATCH_SIZE as int);
            assert(p is Ok);
            assert(parts =~= p->Ok_0);
        }
        out.truncate(n);
        assert(wire::views(out@) =~= parts);
        let ghost mut taken: int = 0;
        assert(self.waiting() =~= parts.skip(n as int));
        while out.len() > 0
            invariant
                0 <= out@.len() <= n,
                parts.len() == n,
                self.vnet_hdr == old(self).vnet_hdr,
                self.little == old(self).little,
                wire::views(out@) == parts.take(out@.len() as int),
                self.waiting() == parts.skip(out@.len() as int),
            decreases out.len(),
        {
            let ghost before = out@;
            let ghost held = self.stack@;
            let ghost later = self.waiting();
            if let Some(p) = out.pop() {
                assert(wire::views(before)[before.len() - 1] == p@);
                assert(parts.take(before.len() as int)[before.len() - 1] == p@);
                assert(wire::views(out@) =~= parts.take(out@.len() as int)) by {
                    assert forall|j: int| 0 <= j < out@.len() implies wire::views(out@)[j]
                        == parts[j] by {
                        assert(wire::views(before)[j] == parts.take(before.len() as int)[j]);
                    }
                }
                self.stack.push(p);
                assert(self.waiting() =~= seq![p@] + later) by {
                    assert forall|j: int| 1 <= j < self.stack@.len() implies self.waiting()[j]
                        == later[j - 1] by {
                        assert(self.stack@[self.stack@.len() - 1 - j] == held[held.len() - j]);
                    }
                }
                assert(parts.skip(out@.len() as int) =~= seq![p@] + parts.skip(
                    out@.len() as int + 1,
                ));
            }
        }
        assert(parts.skip(0) =~= parts);
        Ok(())
    }

    /// Whether what was read can be taken.
    pub fn can_receive(&self, data: &[u8]) -> (r: bool)
        ensures
            r == receivable(self.has_vnet_hdr(), self.is_little(), data@),
    {
        if self.vnet_hdr && data.len() > VIRTIO_NET_HDR_LEN {
            match VirtioNetHdr::decode_in(&data[0..VIRTIO_NET_HDR_LEN], self.little) {
                Ok(hdr) => if hdr.is_gso() {
                    match hdr.to_gso_options() {
                        Ok(options) => {
                            let pkt: &[u8] = &data[VIRTIO_NET_HDR_LEN..data.len()];
                            can_split(pkt, &options, IDEAL_BATCH_SIZE, IDEAL_BATCH_SIZE)
                        },
                        Err(_) => true,
                    }
                } else {
                    true
                },
                Err(_) => true,
            }
        } else {
            true
        }
    }
}

/// Packets with room for a header in front of each.
pub open spec fn framed(packets: Seq<Seq<u8>>) -> Seq<Seq<u8>> {
    Seq::new(packets.len(), |k: int| wire::zeros(VIRTIO_NET_HDR_LEN as int) + packets[k])
}

/// Puts room for a header in front of each packet.
pub fn frame_packets(packets: &[Vec<u8>]) -> (bufs: Vec<Vec<u8>>)
    ensures
        wire::views(bufs@) == framed(wire::views(packets@)),
{
    let mut bufs: Vec<Vec<u8>> = Vec::new();
    let mut k: usize = 0;
    while k < packets.len()
        invariant
            k <= packets.len(),
            bufs@.len() == k,
            forall|j: int|
                0 <= j < k ==> (#[trigger] bufs@[j])@ == wire::zeros(VIRTIO_NET_HDR_LEN as int)
                    + packets@[j]@,
        decreases packets.len() - k,
    {
        let buf: Vec<u8> = frame_packet(packets[k].as_slice());
        bufs.push(buf);
        k += 1;
    }
    assert(wire::views(bufs@) =~= framed(wire::views(packets@)));
    bufs
}

/// Puts a header of zeros in front of a packet: one that asks for nothing.
pub fn frame_packet(packet: &[u8]) -> (buf: Vec<u8>)
    ensures
        buf@ == wire::zeros(VIRTIO_NET_HDR_LEN as int) + packet@,
{
    let mut buf: Vec<u8> = zero_vec(VIRTIO_NET_HDR_LEN);
    let mut rest: Vec<u8> = sub_vec(packet, 0, packet.len());
    assert(rest@ =~= packet@);
    buf.append(&mut rest);
    buf
}

/// A batch as it is written: the buffers, and which of them in which order.
pub struct WriteBatch {
    pub bufs: Vec<Vec<u8>>,
    pub to_write: Vec<usize>,
}

/// What a batch of packets becomes: without headers the packets themselves,
/// with headers the framed packets, merged as far as allowed.
pub open spec fn batched(
    vnet_hdr: bool,
    packets: Seq<Seq<u8>>,
    tcp: bool,
    udp: bool,
    r: Result<(), GsoError>,
    bufs: Seq<Seq<u8>>,
    to_write: Seq<usize>,
) -> bool {
    if vnet_hdr && packets.len() > 0 {
        exists|caps: Seq<usize>, end: gro::GroState|
            {
                &&& caps.len() == packets.len()
                &&& forall|k: int|
                    0 <= k < packets.len() ==> (#[trigger] framed(packets)[k]).len() <= caps[k]
                &&& #[trigger] gro::gro_native_outcome(
                    gro::GroState {
                        bufs: framed(packets),
                        caps,
                        tcp: Seq::empty(),
                        udp: Seq::empty(),
                        to_write: Seq::empty(),
                    },
                    VIRTIO_NET_HDR_LEN as int,
                    tcp,
                    udp,
                    r,
                    end,
                )
                &&& end.bufs == bufs
                &&& end.to_write == to_write
            }
    } else {
        &&& r is Ok
        &&& bufs == packets
        &&& to_write.len() == packets.len()
        &&& forall|k: int| 0 <= k < packets.len() ==> #[trigger] to_write[k] == k
    }
}

fn batch_with_headers(packets: Vec<Vec<u8>>, gro: GroDisablementFlags) -> (r: (
    Result<(), GsoError>,
    WriteBatch,
))
    requires
        0 < packets@.len(),
    ensures
        batched(
            true,
            wire::views(packets@),
            gro.tcp_allowed(),
            gro.udp_allowed(),
            r.0,
            wire::views(r.1.bufs@),
            r.1.to_write@,
        ),
{
    let ghost pkts = wire::views(packets@);
    let mut bufs: Vec<Vec<u8>> = frame_packets(packets.as_slice());
    let ghost start = bufs@;
    let mut tcp_table: TcpGroTable = TcpGroTable::new();
    let mut udp_table: UdpGroTable = UdpGroTable::new();
    let mut to_write: Vec<usize> = Vec::new();
    let ghost t0 = tcp_table.items@;
    let ghost u0 = udp_table.items@;
    let ghost w0 = to_write@;
    assert(wire::views(start).len() == pkts.len());
    let r: Result<(), GsoError> = handle_gro(
        bufs.as_mut_slice(),
        VIRTIO_NET_HDR_LEN,
        &mut tcp_table,
        &mut udp_table,
        gro,
        &mut to_write,
    );
    proof {
        let tcp = gro.tcp_allowed();
        let udp = gro.udp_allowed();
        let caps = choose|caps: Seq<usize>| #[trigger]
            gro::caps_ok(caps, start) && gro::gro_native_outcome(
                gro::state_of(start, caps, t0, u0, w0),
                VIRTIO_NET_HDR_LEN as int,
                tcp,
                udp,
                r,
                gro::state_of(bufs@, caps, tcp_table.items@, udp_table.items@, to_write@),
            );
        let end = gro::state_of(bufs@, caps, tcp_table.items@, udp_table.items@, to_write@);
        let st = gro::state_of(start, caps, t0, u0, w0);
        let st2 = gro::GroState {
            bufs: framed(pkts),
            caps,
            tcp: Seq::empty(),
            udp: Seq::empty(),
            to_write: Seq::empty(),
        };
        assert(st.bufs =~= st2.bufs);
        assert(st.tcp =~= st2.tcp);
        assert(st.udp =~= st2.udp);
        assert(st.to_write =~= st2.to_write);
        assert forall|k: int| 0 <= k < pkts.len() implies (#[trigger] framed(pkts)[k]).len()
            <= caps[k] by {
            assert(start[k]@ == framed(pkts)[k]) by {
                assert(wire::views(start)[k] == framed(pkts)[k]);
            }
        }
        assert(gro::gro_native_outcome(st2, VIRTIO_NET_HDR_LEN as int, tcp, udp, r, end));
    }
    (r, WriteBatch { bufs, to_write })
}

/// Makes a batch of packets ready to be written; the buffers of the result are
/// written in the order that it gives.
pub fn do_batch_write(vnet_hdr: bool, packets: Vec<Vec<u8>>, gro: GroDisablementFlags) -> (r: (
    Result<(), GsoError>,
    WriteBatch,
))
    ensures
        batched(
            vnet_hdr,
            wire::views(packets@),
            gro.tcp_allowed(),
            gro.udp_allowed(),
            r.0,
            wire::views(r.1.bufs@),
            r.1.to_write@,
        ),
{
    if vnet_hdr && packets.len() > 0 {
        return batch_with_headers(packets, gro);
    }
    let mut to_write: Vec<usize> = Vec::new();
    let mut k: usize = 0;
    while k < packets.len()
        invariant
            k <= packets.len(),
            to_write@.len() == k,
            forall|j: int| 0 <= j < k ==> #[trigger] to_write@[j] == j,
        decreases packets.len() - k,
    {
        to_write.push(k);
        k += 1;
    }
    (Ok(()), WriteBatch { bufs: packets, to_write })
}

/// How much room a packet needs in front of it.
pub fn front_headroom(vnet_hdr: bool) -> (n: usize)
    ensures
        n == (if vnet_hdr {
            VIRTIO_NET_HDR_LEN
        } else {
            0
        }),
{
    if vnet_hdr {
        VIRTIO_NET_HDR_LEN
    } else {
        0
    }
}

/// One packet on its way to a device that takes headers: what is left of it
/// may take several writes.
pub struct StagedPacket {
    buf: Vec<u8>,
    pos: usize,
}

/// What comes next in writing a packet.
#[derive(Clone, Copy, Debug, PartialEq, Eq, Structural)]
pub enum WriteStep {
    /// Write what is left of the staged packet.
    Flush,
    /// The packet was written; report its length.
    Done(usize),
}

impl StagedPacket {
    /// The packet that is staged, without its header.
    pub closed spec fn packet(&self) -> Option<Seq<u8>> {
        if self.buf@.len() > VIRTIO_NET_HDR_LEN {
            Some(self.buf@.subrange(VIRTIO_NET_HDR_LEN as int, self.buf@.len() as int))
        } else {
            None
        }
    }

    /// The bytes of the framed packet that are still to be written.
    pub closed spec fn unwritten(&self) -> Seq<u8> {
        self.buf@.subrange(self.pos as int, self.buf@.len() as int)
    }

    pub closed spec fn wf(&self) -> bool {
        &&& self.pos <= self.buf@.len()
        &&& self.buf@.len() == 0 || self.buf@.len() > VIRTIO_NET_HDR_LEN
    }

    /// Nothing is staged.
    pub fn new() -> (s: Self)
        ensures
            s.wf(),
            s.packet() is None,
            s.unwritten().len() == 0,
    {
        let s = StagedPacket { buf: Vec::new(), pos: 0 };
        assert(s.unwritten() =~= Seq::<u8>::empty());
        s
    }

    /// What is still to be written.
    pub fn rest(&self) -> (b: &[u8])
        requires
            self.wf(),
        ensures
            b@ == self.unwritten(),
    {
        &self.buf.as_slice()[self.pos..self.buf.len()]
    }

    /// The device took this many bytes.
    pub fn advance(&mut self, n: usize)
        requires
            old(self).wf(),
            n <= old(self).unwritten().len(),
        ensures
            final(self).wf(),
            final(self).packet() == old(self).packet(),
            final(self).unwritten() == old(self).unwritten().skip(n as int),
    {
        let total: usize = self.buf.len();
        assert(n <= total - self.pos);
        self.pos = self.pos + n;
        assert(self.unwritten() =~= old(self).unwritten().skip(n as int));
    }

    /// Starts writing a packet, or, where an earlier one is not written yet,
    /// goes on with that. An empty packet is done at once.
    pub fn begin(&mut self, data: &[u8]) -> (step: WriteStep)
        requires
            old(self).wf(),
        ensures
            final(self).wf(),
            if old(self).unwritten().len() > 0 {
                step == WriteStep::Flush && *final(self) == *old(self)
            } else if data@.len() == 0 {
                step == WriteStep::Done(0) && *final(self) == *old(self)
            } else {
                &&& step == WriteStep::Flush
                &&& final(self).packet() == Some(data@)
                &&& final(self).unwritten() == wire::zeros(VIRTIO_NET_HDR_LEN as int) + data@
            },
    {
        if self.pos < self.buf.len() {
            return WriteStep::Flush;
        }
        if data.len() == 0 {
            return WriteStep::Done(0);
        }
        self.load(data);
        WriteStep::Flush
    }

    fn load(&mut self, data: &[u8])
        requires
            data@.len() > 0,
        ensures
            final(self).wf(),
            final(self).packet() == Some(data@),
            final(self).unwritten() == wire::zeros(VIRTIO_NET_HDR_LEN as int) + data@,
    {
        self.buf = frame_packet(data);
        self.pos = 0;
        assert(self.packet()->Some_0 =~= data@);
        assert(self.unwritten() =~= wire::zeros(VIRTIO_NET_HDR_LEN as int) + data@);
    }

    /// What follows when the packet that was staged is written: the call that
    /// was made for it is done; a call for another packet stages that one.
    /// `resumed` tells that the packet was staged by an earlier call.
    pub fn complete(&mut self, data: &[u8], resumed: bool) -> (step: WriteStep)
        requires
            old(self).wf(),
            old(self).unwritten().len() == 0,
            old(self).packet() is Some,
        ensures
            final(self).wf(),
            if !resumed || old(self).packet() == Some(data@) {
                &&& step == WriteStep::Done(old(self).packet()->Some_0.len() as usize)
                &&& final(self).packet() is None
                &&& final(self).unwritten().len() == 0
            } else if data@.len() == 0 {
                &&& step == WriteStep::Done(0)
                &&& final(self).packet() is None
                &&& final(self).unwritten().len() == 0
            } else {
                &&& step == WriteStep::Flush
                &&& final(self).packet() == Some(data@)
                &&& final(self).unwritten() == wire::zeros(VIRTIO_NET_HDR_LEN as int) + data@
            },
    {
        let total: usize = self.buf.len() - VIRTIO_NET_HDR_LEN;
        let same: bool = bytes_eq(
            data,
            &self.buf.as_slice()[VIRTIO_NET_HDR_LEN..self.buf.len()],
        );
        self.buf = Vec::new();
        self.pos = 0;
        assert(self.unwritten() =~= Seq::<u8>::empty());
        if !resumed || same {
            return WriteStep::Done(total);
        }
        if data.len() == 0 {
            return WriteStep::Done(0);
        }
        self.load(data);
        WriteStep::Flush
    }
}

/// The payload of the probe segments.
pub open spec fn probe_mark() -> Seq<u8> {
    seq![
        0x72u8, 0x65, 0x66, 0x6c, 0x65, 0x78, 0x2d, 0x70, 0x72, 0x6f, 0x62, 0x65, 0x2d, 0x74, 0x75,
        0x6e, 0x2d, 0x67, 0x72, 0x6f,
    ]
}

/// The four octets of an address.
pub open spec fn octets(a: Ipv4Addr) -> Seq<u8> {
    seq![
        (a.bits / 0x100_0000) as u8,
        (a.bits / 0x1_0000 % 0x100) as u8,
        (a.bits / 0x100 % 0x100) as u8,
        (a.bits % 0x100) as u8,
    ]
}

/// Probe segment `i` before its checksums: a TCP segment from the address to
/// itself, with a time to live of zero, whose payload follows that of segment
/// `i - 1`.
pub open spec fn bare_probe(a: Ipv4Addr, i: int) -> Seq<u8> {
    seq![
        0x45u8, 0, 0, 60, 0x51, (0x54 + i) as u8, 0x40, 0, 0, 6, 0, 0,
    ] + octets(a) + octets(a) + seq![
        0u8, 0, 0, 0, 0, 0, 0, (1 + i * 20) as u8, 0, 0, 0, 1, 0x50, 0x10, 0x0b, 0xb8, 0, 0, 0, 0,
    ] + probe_mark()
}

/// Probe segment `i`.
pub open spec fn probe_segment(a: Ipv4Addr, i: int) -> Seq<u8> {
    let bare = bare_probe(a, i);
    let pseudo = checksum::pseudo_sum(6, octets(a), octets(a), 40);
    let tcp = wire::put16(
        bare,
        36,
        checksum::ones_not(
            checksum::ones_fold(pseudo + checksum::word_sum(bare.subrange(20, 60))),
        ),
    );
    wire::put16(
        tcp,
        10,
        checksum::ones_not(checksum::ones_fold(checksum::word_sum(tcp.subrange(0, 20)))),
    )
}

fn probe(a: Ipv4Addr, i: u8) -> (pkt: Vec<u8>)
    requires
        i < 2,
    ensures
        pkt@ == probe_segment(a, i as int),
{
    let o: Vec<u8> = vec![
        (a.bits / 0x100_0000) as u8,
        (a.bits / 0x1_0000 % 0x100) as u8,
        (a.bits / 0x100 % 0x100) as u8,
        (a.bits % 0x100) as u8,
    ];
    assert(o@ =~= octets(a));
    let mut pkt: Vec<u8> = vec![
        0x45u8, 0, 0, 60, 0x51, 0x54 + i, 0x40, 0, 0, 6, 0, 0, o[0], o[1], o[2], o[3], o[0], o[1],
        o[2], o[3], 0, 0, 0, 0, 0, 0, 0, 1 + i * 20, 0, 0, 0, 1, 0x50, 0x10, 0x0b, 0xb8, 0, 0, 0, 0,
        0x72, 0x65, 0x66, 0x6c, 0x65, 0x78, 0x2d, 0x70, 0x72, 0x6f, 0x62, 0x65, 0x2d, 0x74, 0x75,
        0x6e, 0x2d, 0x67, 0x72, 0x6f,
    ];
    assert(pkt@ =~= bare_probe(a, i as int));
    let pseudo: u16 = pseudo_header_checksum(6, o.as_slice(), o.as_slice(), 40);
    let sum: u16 = checksum(&pkt.as_slice()[20..60], pseudo);
    set_be16(pkt.as_mut_slice(), 36, complement(sum));
    let sum: u16 = checksum(&pkt.as_slice()[0..20], 0);
    set_be16(pkt.as_mut_slice(), 10, complement(sum));
    pkt
}

/// Two segments that can be merged into one, by which it is tried whether the
/// device takes merged packets. They go to the device's own address, or to the
/// loopback address without one.
pub fn build_gro_probe_segments(probe_addr: Option<Ipv4Addr>) -> (v: Vec<Vec<u8>>)
    ensures
        ({
            let a = match probe_addr {
                Some(a) => a,
                None => Ipv4Addr { bits: 0x7f00_0001 },
            };
            wire::views(v@) == seq![probe_segment(a, 0), probe_segment(a, 1)]
        }),
{
    let a: Ipv4Addr = match probe_addr {
        Some(a) => a,
        None => Ipv4Addr { bits: 0x7f00_0001 },
    };
    let mut v: Vec<Vec<u8>> = Vec::new();
    v.push(probe(a, 0));
    v.push(probe(a, 1));
    assert(wire::views(v@) =~= seq![probe_segment(a, 0), probe_segment(a, 1)]);
    v
}

/// What may be merged after the probe: nothing where writing it failed.
pub fn flags_after_probe(gro: GroDisablementFlags, written: bool) -> (r: GroDisablementFlags)
    ensures
        r.tcp_allowed() == (gro.tcp_allowed() && written),
        r.udp_allowed() == (gro.udp_allowed() && written),
{
    let mut r: GroDisablementFlags = gro;
    if !written {
        r.disable_tcp();
        r.disable_udp();
    }
    r
}

proof fn lemma_probe_bytes(a: Ipv4Addr, i: int)
    requires
        0 <= i < 2,
    ensures
        bare_probe(a, i).len() == 60,
        probe_segment(a, i).len() == 60,
        forall|k: int|
            0 <= k < 60 && k != 10 && k != 11 && k != 36 && k != 37 ==> #[trigger] probe_segment(
                a,
                i,
            )[k] == bare_probe(a, i)[k],
{
}

/// The bytes by which a probe segment is merged.
spec fn probe_fields(p: Seq<u8>, i: int) -> bool {
    &&& p.len() == 60
    &&& p[0] == 0x45 && p[1] == 0 && p[2] == 0 && p[3] == 60
    &&& p[6] == 0x40 && p[7] == 0 && p[8] == 0 && p[9] == 6
    &&& p[24] == 0 && p[25] == 0 && p[26] == 0 && p[27] == 1 + i * 20
    &&& p[28] == 0 && p[29] == 0 && p[30] == 0 && p[31] == 1
    &&& p[32] == 0x50 && p[33] == 0x10
}

proof fn lemma_probe_fields(a: Ipv4Addr, i: int)
    requires
        0 <= i < 2,
    ensures
        probe_fields(probe_segment(a, i), i),
        forall|k: int|
            12 <= k < 24 ==> #[trigger] probe_segment(a, i)[k] == (if k < 16 {
                octets(a)[k - 12]
            } else if k < 20 {
                octets(a)[k - 16]
            } else {
                0
            }),
{
    let p = probe_segment(a, i);
    let b = bare_probe(a, i);
    lemma_probe_bytes(a, i);
    assert(p[0] == b[0] && p[1] == b[1] && p[2] == b[2] && p[3] == b[3]);
    assert(p[6] == b[6] && p[7] == b[7] && p[8] == b[8] && p[9] == b[9]);
    assert(p[24] == b[24] && p[25] == b[25] && p[26] == b[26] && p[27] == b[27]);
    assert(p[28] == b[28] && p[29] == b[29] && p[30] == b[30] && p[31] == b[31]);
    assert(p[32] == b[32] && p[33] == b[33]);
}

proof fn lemma_fields_merge(p: Seq<u8>, q: Seq<u8>)
    requires
        probe_fields(p, 0),
        probe_fields(q, 1),
        forall|k: int| 12 <= k < 24 ==> #[trigger] p[k] == q[k],
    ensures
        ({
            let item0 = gro::tcp_item(p, 0, false);
            let item1 = gro::tcp_item(q, 1, false);
            &&& gro::gro_candidate(p, true, true) == gro::GroCandidateType::Tcp4
            &&& gro::gro_candidate(q, true, true) == gro::GroCandidateType::Tcp4
            &&& item0 is Some
            &&& item1 is Some
            &&& item0->0.key == item1->0.key
            &&& gro::tcp_direction(q, item1->0, item0->0, p) == gro::CanCoalesce::Append
        }),
{
    assert(gro::tcp_item(p, 0, false) is Some);
    assert(gro::tcp_item(q, 1, false) is Some);
    assert(p.subrange(40, 40) =~= q.subrange(40, 40));
    assert(gro::ip_headers_agree(q, p));
    assert(gro::gro_candidate(p, true, true) == gro::GroCandidateType::Tcp4);
    assert(gro::gro_candidate(q, true, true) == gro::GroCandidateType::Tcp4);
    let item0 = gro::tcp_item(p, 0, false)->0;
    let item1 = gro::tcp_item(q, 1, false)->0;
    assert(item0.key == item1.key);
    assert(item0.sent_seq == 1 && item1.sent_seq == 21 && item0.gso_size == 20);
}

/// The probe segments can be merged: both are candidates of one flow, and the
/// second joins the first from behind.
pub proof fn law_probe_segments_merge(a: Ipv4Addr)
    ensures
        ({
            let first = probe_segment(a, 0);
            let second = probe_segment(a, 1);
            let item0 = gro::tcp_item(first, 0, false);
            let item1 = gro::tcp_item(second, 1, false);
            &&& gro::gro_candidate(first, true, true) == gro::GroCandidateType::Tcp4
            &&& gro::gro_candidate(second, true, true) == gro::GroCandidateType::Tcp4
            &&& item0 is Some
            &&& item1 is Some
            &&& item0->0.key == item1->0.key
            &&& gro::tcp_direction(second, item1->0, item0->0, first) == gro::CanCoalesce::Append
        }),
{
    lemma_probe_fields(a, 0);
    lemma_probe_fields(a, 1);
    lemma_fields_merge(probe_segment(a, 0), probe_segment(a, 1));
}

/// The checksums of the probe segments are valid.
pub proof fn law_probe_segments_valid(a: Ipv4Addr, i: int)
    requires
        0 <= i < 2,
    ensures
        gro::transport_sum_valid(probe_segment(a, i), 20, 6, false),
        checksum::ones_fold(checksum::word_sum(probe_segment(a, i).subrange(0, 20))) == 65535,
{
    let bare = bare_probe(a, i);
    let pkt = probe_segment(a, i);
    lemma_probe_bytes(a, i);
    let pseudo = checksum::pseudo_sum(6, octets(a), octets(a), 40);
    let body = bare.subrange(20, 60);
    let n = pseudo + checksum::word_sum(body);
    let c = checksum::ones_not(checksum::ones_fold(n));
    assert(pkt.subrange(12, 16) =~= octets(a));
    assert(pkt.subrange(16, 20) =~= octets(a));
    checksum::lemma_word_sum_nonneg(body);
    checksum::lemma_word_sum_put16(body, 16, c);
    assert(pkt.subrange(20, 60) =~= wire::put16(body, 16, c));
    assert(wire::be16(body, 16) == 0);
    checksum::law_complement_makes_sum_valid(n);
    let tcp = wire::put16(bare, 36, c);
    let head = tcp.subrange(0, 20);
    let m = checksum::word_sum(head);
    let d = checksum::ones_not(checksum::ones_fold(m));
    checksum::lemma_word_sum_nonneg(head);
    checksum::lemma_word_sum_put16(head, 10, d);
    assert(pkt.subrange(0, 20) =~= wire::put16(head, 10, d));
    assert(wire::be16(head, 10) == 0);
    checksum::law_complement_makes_sum_valid(m);
}

} // verus!
