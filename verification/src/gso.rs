//! Generic segmentation offload: the virtio header that travels in front of a
//! packet, and the split of one large TCP or UDP packet into segments.
use vstd::prelude::*;

use crate::checksum;
use crate::checksum::{complement, pseudo_header_checksum};
use crate::wire;
use crate::wire::{
    copy_at, get_be16, get_be32, get_native16, native_one, set_be16, set_be32, set_native16, sub_vec, zero_vec,
};

verus! {

pub const VIRTIO_NET_HDR_LEN: usize = 10;

pub const GSO_MAX_SIZE: usize = 65536;

pub const IDEAL_BATCH_SIZE: usize = 128;

/// Header flag: the transport checksum is still to be completed.
pub const VIRTIO_NET_HDR_F_NEEDS_CSUM: u8 = 1;

pub const VIRTIO_NET_HDR_GSO_NONE: u8 = 0;

pub const VIRTIO_NET_HDR_GSO_TCPV4: u8 = 1;

pub const VIRTIO_NET_HDR_GSO_TCPV6: u8 = 3;

pub const VIRTIO_NET_HDR_GSO_UDP_L4: u8 = 5;

pub const TUN_F_CSUM: u32 = 0x01;

pub const TUN_F_TSO4: u32 = 0x02;

pub const TUN_F_TSO6: u32 = 0x04;

pub const TUN_F_USO4: u32 = 0x10;

pub const TUN_F_USO6: u32 = 0x20;

pub const IPPROTO_TCP: u8 = 6;

pub const IPPROTO_UDP: u8 = 17;

pub const TCP_FLAGS_OFFSET: usize = 13;

/// Everything that can be wrong with a segmentation request.
#[derive(Clone, Copy, Debug, PartialEq, Eq, Structural)]
pub enum GsoError {
    /// Fewer bytes than a virtio header has.
    HeaderTooShort,
    /// A segmentation type that the header does not define.
    UnsupportedType(u8),
    /// The checksum field lies outside the packet.
    ChecksumOffset,
    /// The packet is shorter than the header length of the request.
    PacketTooShort,
    /// There is no buffer to write to.
    NoBuffers,
    /// The header length ends before the transport header starts.
    HeaderLength,
    /// The packet has no room for a TCP header.
    TcpHeaderTooShort,
    /// More segments than buffers.
    TooManySegments,
    /// The packet data does not start behind a virtio header.
    InvalidOffset,
}

/// The header that the kernel puts in front of a packet: ten bytes, the
/// 16-bit fields in the byte order of the machine.
#[derive(Clone, Copy, Debug, PartialEq, Eq, Structural)]
pub struct VirtioNetHdr {
    pub flags: u8,
    pub gso_type: u8,
    pub hdr_len: u16,
    pub gso_size: u16,
    pub csum_start: u16,
    pub csum_offset: u16,
}

impl Default for VirtioNetHdr {
    fn default() -> (hdr: Self)
        ensures
            hdr == empty_hdr(),
    {
        VirtioNetHdr {
            flags: 0,
            gso_type: 0,
            hdr_len: 0,
            gso_size: 0,
            csum_start: 0,
            csum_offset: 0,
        }
    }
}

/// The header of a packet that asks for no offload.
pub open spec fn empty_hdr() -> VirtioNetHdr {
    VirtioNetHdr {
        flags: 0,
        gso_type: 0,
        hdr_len: 0,
        gso_size: 0,
        csum_start: 0,
        csum_offset: 0,
    }
}

/// The two bytes of a 16-bit field, the low one first, or last.
pub open spec fn field_bytes(v: u16, little: bool) -> Seq<u8> {
    if little {
        seq![(v % 256) as u8, (v / 256) as u8]
    } else {
        seq![(v / 256) as u8, (v % 256) as u8]
    }
}

/// The ten bytes of a header.
pub open spec fn hdr_bytes(hdr: VirtioNetHdr, little: bool) -> Seq<u8> {
    seq![hdr.flags, hdr.gso_type] + field_bytes(hdr.hdr_len, little) + field_bytes(
        hdr.gso_size,
        little,
    ) + field_bytes(hdr.csum_start, little) + field_bytes(hdr.csum_offset, little)
}

/// The header that ten bytes stand for.
pub open spec fn hdr_of(b: Seq<u8>, little: bool) -> VirtioNetHdr {
    VirtioNetHdr {
        flags: b[0],
        gso_type: b[1],
        hdr_len: wire::native16(b, 2, little) as u16,
        gso_size: wire::native16(b, 4, little) as u16,
        csum_start: wire::native16(b, 6, little) as u16,
        csum_offset: wire::native16(b, 8, little) as u16,
    }
}

/// What reading a header from the front of bytes gives.
pub open spec fn decoded(b: Seq<u8>, little: bool) -> Result<VirtioNetHdr, GsoError> {
    if b.len() < VIRTIO_NET_HDR_LEN {
        Err(GsoError::HeaderTooShort)
    } else {
        Ok(hdr_of(b, little))
    }
}

/// What writing a header to the front of bytes gives, and leaves.
pub open spec fn encoded(hdr: VirtioNetHdr, b: Seq<u8>, little: bool) -> (
    Result<(), GsoError>,
    Seq<u8>,
) {
    if b.len() < VIRTIO_NET_HDR_LEN {
        (Err(GsoError::HeaderTooShort), b)
    } else {
        (Ok(()), wire::splice(b, 0, hdr_bytes(hdr, little)))
    }
}

impl VirtioNetHdr {
    /// Reads a header of the given byte order from the front of `b`.
    pub fn decode_in(b: &[u8], little: bool) -> (r: Result<Self, GsoError>)
        ensures
            r == decoded(b@, little),
    {
        if b.len() < VIRTIO_NET_HDR_LEN {
            return Err(GsoError::HeaderTooShort);
        }
        Ok(
            VirtioNetHdr {
                flags: b[0],
                gso_type: b[1],
                hdr_len: get_native16(b, 2, little),
                gso_size: get_native16(b, 4, little),
                csum_start: get_native16(b, 6, little),
                csum_offset: get_native16(b, 8, little),
            },
        )
    }

    /// Reads a header from the front of `b`, in the byte order of this machine.
    /// Which of the two orders that is, is left open.
    pub fn decode(b: &[u8]) -> (r: Result<Self, GsoError>)
        ensures
            r == decoded(b@, true) || r == decoded(b@, false),
    {
        Self::decode_in(b, native_one() == 1)
    }

    /// Writes the header to the front of `b` in the given byte order.
    pub fn encode_in(&self, b: &mut [u8], little: bool) -> (r: Result<(), GsoError>)
        ensures
            (r, final(b)@) == encoded(*self, old(b)@, little),
    {
        if b.len() < VIRTIO_NET_HDR_LEN {
            return Err(GsoError::HeaderTooShort);
        }
        self.encode_at(b, 0, little);
        Ok(())
    }

    /// Writes the header to the front of `b`, in the byte order of this machine.
    /// Which of the two orders that is, is left open.
    pub fn encode(&self, b: &mut [u8]) -> (r: Result<(), GsoError>)
        ensures
            (r, final(b)@) == encoded(*self, old(b)@, true) || (r, final(b)@) == encoded(
                *self,
                old(b)@,
                false,
            ),
    {
        self.encode_in(b, native_one() == 1)
    }

    /// Writes the header at `at` in the given byte order.
    pub fn encode_at(&self, b: &mut [u8], at: usize, little: bool)
        requires
            at + VIRTIO_NET_HDR_LEN <= old(b).len(),
        ensures
            final(b)@ == wire::splice(old(b)@, at as int, hdr_bytes(*self, little)),
    {
        b[at] = self.flags;
        b[at + 1] = self.gso_type;
        set_native16(b, at + 2, self.hdr_len, little);
        set_native16(b, at + 4, self.gso_size, little);
        set_native16(b, at + 6, self.csum_start, little);
        set_native16(b, at + 8, self.csum_offset, little);
        assert(b@ =~= wire::splice(old(b)@, at as int, hdr_bytes(*self, little)));
    }

    pub fn is_gso(&self) -> (r: bool)
        ensures
            r == (self.gso_type != VIRTIO_NET_HDR_GSO_NONE),
    {
        self.gso_type != VIRTIO_NET_HDR_GSO_NONE
    }

    pub fn needs_csum(&self) -> (r: bool)
        ensures
            r == (self.flags & VIRTIO_NET_HDR_F_NEEDS_CSUM != 0),
    {
        self.flags & VIRTIO_NET_HDR_F_NEEDS_CSUM != 0
    }

    /// The segmentation request that the header makes.
    pub fn to_gso_options(&self) -> (r: Result<GsoOptions, GsoError>)
        ensures
            match gso_type_of(self.gso_type) {
                Some(t) => r == Ok::<GsoOptions, GsoError>(
                    (GsoOptions {
                        gso_type: t,
                        hdr_len: self.hdr_len,
                        csum_start: self.csum_start,
                        csum_offset: self.csum_offset,
                        gso_size: self.gso_size,
                        needs_csum: self.flags & VIRTIO_NET_HDR_F_NEEDS_CSUM != 0,
                    }),
                ),
                None => r == Err::<GsoOptions, GsoError>(GsoError::UnsupportedType(self.gso_type)),
            },
    {
        let gso_type = if self.gso_type == VIRTIO_NET_HDR_GSO_NONE {
            GsoType::NoGso
        } else if self.gso_type == VIRTIO_NET_HDR_GSO_TCPV4 {
            GsoType::TcpV4
        } else if self.gso_type == VIRTIO_NET_HDR_GSO_TCPV6 {
            GsoType::TcpV6
        } else if self.gso_type == VIRTIO_NET_HDR_GSO_UDP_L4 {
            GsoType::UdpL4
        } else {
            return Err(GsoError::UnsupportedType(self.gso_type));
        };
        Ok(
            GsoOptions {
                gso_type,
                hdr_len: self.hdr_len,
                csum_start: self.csum_start,
                csum_offset: self.csum_offset,
                gso_size: self.gso_size,
                needs_csum: self.needs_csum(),
            },
        )
    }
}

/// A header that was written is read back unchanged, whatever the buffer held
/// before.
pub proof fn law_decode_encoded(hdr: VirtioNetHdr, b: Seq<u8>, little: bool)
    requires
        b.len() >= VIRTIO_NET_HDR_LEN,
    ensures
        decoded(encoded(hdr, b, little).1, little) == Ok::<VirtioNetHdr, GsoError>(hdr),
{
}

/// Writing back a header that was read leaves the buffer as it was.
pub proof fn law_encode_decoded(b: Seq<u8>, little: bool)
    requires
        b.len() >= VIRTIO_NET_HDR_LEN,
    ensures
        encoded(hdr_of(b, little), b, little).1 == b,
{
    assert(encoded(hdr_of(b, little), b, little).1 =~= b);
}

/// A header that asks for nothing is ten zeros in either byte order.
pub proof fn lemma_empty_hdr(little: bool)
    ensures
        hdr_bytes(empty_hdr(), little) == wire::zeros(VIRTIO_NET_HDR_LEN as int),
{
    assert(hdr_bytes(empty_hdr(), little) =~= wire::zeros(VIRTIO_NET_HDR_LEN as int));
}

#[derive(Clone, Copy, Debug, PartialEq, Eq, Structural)]
pub enum GsoType {
    NoGso,
    TcpV4,
    TcpV6,
    UdpL4,
}

impl Default for GsoType {
    fn default() -> (t: Self)
        ensures
            t == GsoType::NoGso,
    {
        GsoType::NoGso
    }
}

/// The segmentation type that a header's type byte stands for.
pub open spec fn gso_type_of(t: u8) -> Option<GsoType> {
    if t == VIRTIO_NET_HDR_GSO_NONE {
        Some(GsoType::NoGso)
    } else if t == VIRTIO_NET_HDR_GSO_TCPV4 {
        Some(GsoType::TcpV4)
    } else if t == VIRTIO_NET_HDR_GSO_TCPV6 {
        Some(GsoType::TcpV6)
    } else if t == VIRTIO_NET_HDR_GSO_UDP_L4 {
        Some(GsoType::UdpL4)
    } else {
        None
    }
}

/// A request to split a packet.
#[derive(Clone, Copy, Debug, PartialEq, Eq, Structural)]
pub struct GsoOptions {
    pub gso_type: GsoType,
    pub hdr_len: u16,
    pub csum_start: u16,
    pub csum_offset: u16,
    pub gso_size: u16,
    pub needs_csum: bool,
}

impl Default for GsoOptions {
    fn default() -> (o: Self)
        ensures
            o == (GsoOptions {
                gso_type: GsoType::NoGso,
                hdr_len: 0,
                csum_start: 0,
                csum_offset: 0,
                gso_size: 0,
                needs_csum: false,
            }),
    {
        GsoOptions {
            gso_type: GsoType::NoGso,
            hdr_len: 0,
            csum_start: 0,
            csum_offset: 0,
            gso_size: 0,
            needs_csum: false,
        }
    }
}

impl GsoOptions {
    /// Where the transport checksum lies in the packet.
    pub open spec fn csum_at(self) -> int {
        self.csum_start + self.csum_offset
    }

    pub open spec fn is_tcp(self) -> bool {
        self.gso_type == GsoType::TcpV4 || self.gso_type == GsoType::TcpV6
    }

    pub open spec fn protocol(self) -> int {
        if self.is_tcp() {
            6
        } else {
            17
        }
    }

    /// The packet is handed on whole: there is nothing to split.
    pub open spec fn passes_whole(self, len: int) -> bool {
        self.gso_type == GsoType::NoGso || len - self.hdr_len < self.gso_size
    }
}

/// Where the source address lies, by the IP version in the first byte; the
/// destination address follows it.
pub open spec fn src_addr_at(input: Seq<u8>) -> int {
    if input[0] / 16 == 4 {
        12
    } else {
        8
    }
}

pub open spec fn addr_size(input: Seq<u8>) -> int {
    if input[0] / 16 == 4 {
        4
    } else {
        16
    }
}

/// The reason to refuse a request before anything is written.
pub open spec fn gso_refusal(input: Seq<u8>, o: GsoOptions, bufs: int) -> Option<GsoError> {
    if o.csum_at() + 1 >= input.len() {
        Some(GsoError::ChecksumOffset)
    } else if input.len() < o.hdr_len {
        Some(GsoError::PacketTooShort)
    } else if o.passes_whole(input.len() as int) {
        if bufs == 0 {
            Some(GsoError::NoBuffers)
        } else {
            None
        }
    } else if o.hdr_len < o.csum_start {
        Some(GsoError::HeaderLength)
    } else if o.is_tcp() && input.len() < o.csum_start + 20 {
        Some(GsoError::TcpHeaderTooShort)
    } else {
        None
    }
}

/// A packet that is handed on whole; a checksum that was left to be completed
/// is completed over everything from `csum_start` on.
pub open spec fn whole_packet(input: Seq<u8>, o: GsoOptions) -> Seq<u8> {
    if o.needs_csum {
        let cleared = wire::put16(input, o.csum_at(), 0);
        wire::put16(
            cleared,
            o.csum_at(),
            checksum::ones_not(
                checksum::ones_fold(
                    wire::be16(input, o.csum_at()) + checksum::word_sum(
                        cleared.subrange(o.csum_start as int, cleared.len() as int),
                    ),
                ),
            ),
        )
    } else {
        input
    }
}

/// Where the payload of segment `i` starts in the packet.
pub open spec fn segment_start(o: GsoOptions, i: int) -> int {
    o.hdr_len + i * o.gso_size
}

/// Where the payload of segment `i` ends in the packet.
pub open spec fn segment_end(len: int, o: GsoOptions, i: int) -> int {
    if segment_start(o, i) + o.gso_size < len {
        segment_start(o, i) + o.gso_size
    } else {
        len
    }
}

/// The number of segments, of at most `bufs`, that are written. A segment
/// size of zero never gets to the end of the payload.
pub open spec fn segments_written(len: int, o: GsoOptions, bufs: int) -> int {
    let payload = len - o.hdr_len;
    if payload <= 0 {
        0
    } else if o.gso_size == 0 || segment_count(payload, o.gso_size as int) > bufs {
        bufs
    } else {
        segment_count(payload, o.gso_size as int)
    }
}

/// The payload length divided by the segment size, rounded up.
pub open spec fn segment_count(payload: int, size: int) -> int {
    (payload + size - 1) / size
}

/// More segments are needed than there are buffers.
pub open spec fn too_many_segments(len: int, o: GsoOptions, bufs: int) -> bool {
    let payload = len - o.hdr_len;
    payload > 0 && (o.gso_size == 0 || segment_count(payload, o.gso_size as int) > bufs)
}

/// The IP header of segment `i`: for IPv4 the identification counts up and
/// the total length and header checksum are its own, for IPv6 the payload
/// length is.
pub open spec fn segment_ip(s: Seq<u8>, at: int, i: int, v4: bool) -> Seq<u8> {
    if v4 {
        let ided = wire::put16(s, 4, (wire::be16(s, 4) + i) % 65536);
        let sized = wire::put16(wire::put16(ided, 10, 0), 2, s.len() as int % 65536);
        wire::put16(
            sized,
            10,
            checksum::ones_not(
                checksum::ones_fold(checksum::word_sum(sized.subrange(0, at))),
            ),
        )
    } else {
        wire::put16(s, 4, (s.len() - at) % 65536)
    }
}

/// The transport header of segment `i`: for TCP the sequence number counts
/// the bytes before, and FIN and PSH stay on the last segment only; for UDP
/// the length is the segment's own.
pub open spec fn segment_transport(s: Seq<u8>, o: GsoOptions, seq: int, i: int, last: bool) -> Seq<
    u8,
> {
    let at = o.csum_start as int;
    if o.is_tcp() {
        let numbered = wire::put32(s, at + 4, (seq + o.gso_size * i) % 0x1_0000_0000);
        if last {
            numbered
        } else {
            numbered.update(at + 13, numbered[at + 13] & 0xf6)
        }
    } else {
        wire::put16(s, at + 4, s.len() - at)
    }
}

/// Segment `i` of a packet.
#[verifier::opaque]
pub open spec fn segment(input: Seq<u8>, o: GsoOptions, i: int) -> Seq<u8> {
    let start = segment_start(o, i);
    let end = segment_end(input.len() as int, o, i);
    let blank = input.subrange(0, o.hdr_len as int) + wire::zeros(end - start);
    let headers = segment_transport(
        segment_ip(blank, o.csum_start as int, i, input[0] / 16 == 4),
        o,
        wire::be32(input, o.csum_start + 4),
        i,
        end == input.len(),
    );
    let filled = headers.subrange(0, o.hdr_len as int) + input.subrange(start, end);
    with_transport_checksum(filled, o, address_sum(input, o))
}

/// The part of the pseudo header sum that all segments share.
pub open spec fn address_sum(input: Seq<u8>, o: GsoOptions) -> int {
    let at = src_addr_at(input);
    let n = addr_size(input);
    checksum::pseudo_sum(
        o.protocol(),
        input.subrange(at, at + n),
        input.subrange(at + n, at + 2 * n),
        0,
    )
}

/// A segment with its transport checksum filled in.
pub open spec fn with_transport_checksum(s: Seq<u8>, o: GsoOptions, addresses: int) -> Seq<u8> {
    let cleared = wire::put16(s, o.csum_at(), 0);
    let initial = checksum::ones_fold(addresses + (s.len() - o.csum_start));
    wire::put16(
        cleared,
        o.csum_at(),
        checksum::ones_not(
            checksum::ones_fold(
                initial + checksum::word_sum(
                    cleared.subrange(o.csum_start as int, cleared.len() as int),
                ),
            ),
        ),
    )
}

/// The fields that are written into each segment lie inside it. The shortest
/// segment is the last one.
pub open spec fn segment_room(input: Seq<u8>, o: GsoOptions, bufs: int) -> bool {
    let n = segments_written(input.len() as int, o, bufs);
    forall|i: int|
        0 <= i < n ==> {
            let total = o.hdr_len + #[trigger] segment_end(input.len() as int, o, i)
                - segment_start(o, i);
            &&& total >= (if input[0] / 16 == 4 {
                12int
            } else {
                6int
            })
            &&& o.csum_start + (if o.is_tcp() {
                8int
            } else {
                6int
            }) <= total
            &&& o.is_tcp() && segment_end(input.len() as int, o, i) != input.len() ==> o.csum_start
                + 13 < total
            &&& o.csum_at() + 1 < total
            &&& total - o.csum_start <= 65535
        }
}

/// What a caller of `gso_split` has to provide: a size slot for each segment
/// written, and headers with room for the fields that change.
pub open spec fn gso_ready(input: Seq<u8>, o: GsoOptions, bufs: int, sizes: int) -> bool {
    gso_refusal(input, o, bufs) is None ==> if o.passes_whole(input.len() as int) {
        sizes >= 1
    } else {
        &&& input.len() + o.gso_size <= u32::MAX
        &&& sizes >= segments_written(input.len() as int, o, bufs)
        &&& src_addr_at(input) + 2 * addr_size(input) <= input.len()
        &&& segment_room(input, o, bufs)
    }
}

pub proof fn lemma_segment_count(payload: int, size: int, i: int)
    requires
        payload > 0,
        size > 0,
        i >= 0,
    ensures
        (i * size < payload) == (i < segment_count(payload, size)),
{
    let c = segment_count(payload, size);
    vstd::arithmetic::div_mod::lemma_fundamental_div_mod(payload + size - 1, size);
    vstd::arithmetic::div_mod::lemma_mod_bound(payload + size - 1, size);
    if i < c {
        assert(i * size <= (c - 1) * size) by (nonlinear_arith)
            requires
                i <= c - 1,
                size > 0,
        ;
        assert((c - 1) * size == size * c - size) by (nonlinear_arith);
    } else {
        assert(i * size >= c * size) by (nonlinear_arith)
            requires
                i >= c,
                size > 0,
        ;
        assert(c * size == size * c) by (nonlinear_arith);
    }
}

/// Writes the IP header fields of segment `i`.
fn write_segment_ip(out: &mut [u8], at: usize, i: usize, v4: bool)
    requires
        at <= old(out).len(),
        old(out).len() >= (if v4 {
            12int
        } else {
            6int
        }),
    ensures
        final(out)@ == segment_ip(old(out)@, at as int, i as int, v4),
{
    let total: usize = out.len();
    if v4 {
        let id: u16 = get_be16(out, 4);
        let next: u16 = ((id as u32 + (i % 65536) as u32) % 65536) as u16;
        assert(next == (wire::be16(old(out)@, 4) + i) % 65536);
        set_be16(out, 4, next);
        set_be16(out, 10, 0);
        set_be16(out, 2, (total % 65536) as u16);
        let sum: u16 = checksum::checksum(&out[0..at], 0);
        set_be16(out, 10, complement(sum));
    } else {
        set_be16(out, 4, ((total - at) % 65536) as u16);
    }
}

/// Writes the transport header fields of segment `i`, whose payload starts
/// `skipped` bytes into that of the packet.
fn write_segment_transport(
    out: &mut [u8],
    o: &GsoOptions,
    i: usize,
    skipped: usize,
    seq: u32,
    last: bool,
)
    requires
        skipped == i * o.gso_size,
        skipped <= u32::MAX,
        o.csum_start + (if o.is_tcp() {
            8int
        } else {
            6int
        }) <= old(out).len(),
        o.is_tcp() && !last ==> o.csum_start + 13 < old(out).len(),
        old(out).len() - o.csum_start <= 65535,
    ensures
        final(out)@ == segment_transport(old(out)@, *o, seq as int, i as int, last),
{
    let at: usize = o.csum_start as usize;
    if o.gso_type == GsoType::TcpV4 || o.gso_type == GsoType::TcpV6 {
        let next: u32 = ((seq as u64 + skipped as u64) % 0x1_0000_0000) as u32;
        assert(i * o.gso_size == o.gso_size * i) by (nonlinear_arith);
        set_be32(out, at + 4, next);
        if !last {
            let flags: u8 = out[at + TCP_FLAGS_OFFSET];
            out[at + TCP_FLAGS_OFFSET] = flags & 0xf6;
        }
    } else {
        let length: u16 = (out.len() - at) as u16;
        set_be16(out, at + 4, length);
    }
}

/// Fills in the transport checksum of a segment.
fn write_transport_checksum(out: &mut [u8], o: &GsoOptions, addresses: u16)
    requires
        o.csum_at() + 1 < old(out).len(),
        old(out).len() - o.csum_start <= 65535,
    ensures
        final(out)@ == with_transport_checksum(old(out)@, *o, addresses as int),
{
    let at: usize = o.csum_start as usize;
    let csum_at: usize = at + o.csum_offset as usize;
    let total: usize = out.len();
    set_be16(out, csum_at, 0);
    let initial: u16 = checksum::checksum_combine(addresses, (total - at) as u16);
    let sum: u16 = checksum::checksum(&out[at..total], initial);
    set_be16(out, csum_at, complement(sum));
}

/// Segment `i`, whose payload lies between `start` and `end` of the packet.
fn build_segment(
    input: &[u8],
    o: &GsoOptions,
    i: usize,
    start: usize,
    end: usize,
    seq: u32,
    addresses: u16,
) -> (out: Vec<u8>)
    requires
        input.len() + o.gso_size <= u32::MAX,
        start == segment_start(*o, i as int),
        end == segment_end(input@.len() as int, *o, i as int),
        o.hdr_len <= start < input.len(),
        o.csum_start <= o.hdr_len,
        o.is_tcp() ==> seq == wire::be32(input@, o.csum_start + 4),
        addresses == address_sum(input@, *o),
        o.hdr_len + end - start >= (if input@[0] / 16 == 4 {
            12int
        } else {
            6int
        }),
        o.csum_start + (if o.is_tcp() {
            8int
        } else {
            6int
        }) <= o.hdr_len + end - start,
        o.is_tcp() && end != input.len() ==> o.csum_start + 13 < o.hdr_len + end - start,
        o.csum_at() + 1 < o.hdr_len + end - start,
        o.hdr_len + end - start - o.csum_start <= 65535,
    ensures
        out@ == segment(input@, *o, i as int),
        out@.len() == o.hdr_len + end - start,
{
    reveal(segment);
    let hdr_len: usize = o.hdr_len as usize;
    let mut out: Vec<u8> = zero_vec(hdr_len + (end - start));
    copy_at(out.as_mut_slice(), 0, &input[0..hdr_len]);
    assert(out@ =~= input@.subrange(0, hdr_len as int) + wire::zeros(end - start));
    write_segment_ip(
        out.as_mut_slice(),
        o.csum_start as usize,
        i,
        input[0] / 16 == 4,
    );
    write_segment_transport(out.as_mut_slice(), o, i, start - hdr_len, seq, end == input.len());
    let ghost headers = out@;
    copy_at(out.as_mut_slice(), hdr_len, &input[start..end]);
    assert(out@ =~= headers.subrange(0, hdr_len as int) + input@.subrange(start as int, end as int));
    write_transport_checksum(out.as_mut_slice(), o, addresses);
    out
}

/// Splits one packet into segments that each are a packet of their own.
///
/// `input` is the IP packet behind the virtio header and `options` what that
/// header asks for. Segment `i` goes to `out_bufs[i]` and its length to
/// `sizes[i]`; the result is their number. A packet that needs no split goes
/// to the first buffer.
pub fn gso_split(
    input: &[u8],
    options: &GsoOptions,
    out_bufs: &mut [Vec<u8>],
    sizes: &mut [usize],
) -> (r: Result<usize, GsoError>)
    requires
        gso_ready(input@, *options, old(out_bufs)@.len() as int, old(sizes)@.len() as int),
    ensures
        final(out_bufs)@.len() == old(out_bufs)@.len(),
        final(sizes)@.len() == old(sizes)@.len(),
        match gso_refusal(input@, *options, old(out_bufs)@.len() as int) {
            Some(e) => r == Err::<usize, GsoError>(e) && final(out_bufs)@ == old(out_bufs)@
                && final(sizes)@ == old(sizes)@,
            None => if options.passes_whole(input@.len() as int) {
                &&& r == Ok::<usize, GsoError>(1)
                &&& final(out_bufs)@[0]@ == whole_packet(input@, *options)
                &&& final(sizes)@[0] == input@.len()
                &&& forall|k: int|
                    1 <= k < old(out_bufs)@.len() ==> final(out_bufs)@[k] == old(out_bufs)@[k]
                &&& forall|k: int| 1 <= k < old(sizes)@.len() ==> final(sizes)@[k] == old(sizes)@[k]
            } else {
                let n = segments_written(
                    input@.len() as int,
                    *options,
                    old(out_bufs)@.len() as int,
                );
                &&& r == (if too_many_segments(
                    input@.len() as int,
                    *options,
                    old(out_bufs)@.len() as int,
                ) {
                    Err::<usize, GsoError>(GsoError::TooManySegments)
                } else {
                    Ok::<usize, GsoError>(n as usize)
                })
                &&& forall|k: int|
                    0 <= k < n ==> #[trigger] final(out_bufs)@[k]@ == segment(input@, *options, k)
                        && final(sizes)@[k] == segment(input@, *options, k).len()
                &&& forall|k: int|
                    n <= k < old(out_bufs)@.len() ==> final(out_bufs)@[k] == old(out_bufs)@[k]
                &&& forall|k: int| n <= k < old(sizes)@.len() ==> final(sizes)@[k] == old(sizes)@[k]
            },
        },
{
    let len: usize = input.len();
    let csum_at: usize = options.csum_start as usize + options.csum_offset as usize;
    if csum_at + 1 >= len {
        return Err(GsoError::ChecksumOffset);
    }
    let hdr_len: usize = options.hdr_len as usize;
    if len < hdr_len {
        return Err(GsoError::PacketTooShort);
    }
    if options.gso_type == GsoType::NoGso || len - hdr_len < options.gso_size as usize {
        if out_bufs.len() == 0 {
            return Err(GsoError::NoBuffers);
        }
        let mut pkt: Vec<u8> = sub_vec(input, 0, len);
        assert(pkt@ =~= input@);
        if options.needs_csum {
            let initial: u16 = get_be16(pkt.as_slice(), csum_at);
            set_be16(pkt.as_mut_slice(), csum_at, 0);
            let sum: u16 = checksum::checksum(
                &pkt.as_slice()[options.csum_start as usize..len],
                initial,
            );
            set_be16(pkt.as_mut_slice(), csum_at, complement(sum));
        }
        out_bufs[0] = pkt;
        sizes[0] = len;
        return Ok(1);
    }
    if options.hdr_len < options.csum_start {
        return Err(GsoError::HeaderLength);
    }
    let at: usize = options.csum_start as usize;
    let tcp = options.gso_type == GsoType::TcpV4 || options.gso_type == GsoType::TcpV6;
    if tcp && len < at + 20 {
        return Err(GsoError::TcpHeaderTooShort);
    }
    let seq: u32 = if tcp {
        get_be32(input, at + 4)
    } else {
        0
    };
    let v4 = input[0] / 16 == 4;
    let src: usize = if v4 {
        12
    } else {
        8
    };
    let n: usize = if v4 {
        4
    } else {
        16
    };
    let addresses: u16 = pseudo_header_checksum(
        if tcp {
            IPPROTO_TCP
        } else {
            IPPROTO_UDP
        },
        &input[src..src + n],
        &input[src + n..src + 2 * n],
        0,
    );
    let size: usize = options.gso_size as usize;
    let mut start: usize = hdr_len;
    let mut i: usize = 0;
    let ghost bufs = out_bufs@.len() as int;
    let ghost count = segments_written(len as int, *options, bufs);
    while start < len
        invariant
            len == input@.len(),
            size == options.gso_size,
            hdr_len == options.hdr_len,
            at == options.csum_start,
            !options.passes_whole(len as int),
            gso_refusal(input@, *options, bufs) is None,
            gso_ready(input@, *options, bufs, sizes@.len() as int),
            bufs == out_bufs@.len(),
            out_bufs@.len() == old(out_bufs)@.len(),
            sizes@.len() == old(sizes)@.len(),
            count == segments_written(len as int, *options, bufs),
            options.is_tcp() ==> seq == wire::be32(input@, options.csum_start + 4),
            addresses == address_sum(input@, *options),
            hdr_len <= len,
            start == segment_start(*options, i as int),
            i <= count,
            i <= bufs,
            forall|k: int|
                0 <= k < i ==> #[trigger] out_bufs@[k]@ == segment(input@, *options, k) && sizes@[k]
                    == segment(input@, *options, k).len(),
            forall|k: int| i <= k < bufs ==> out_bufs@[k] == old(out_bufs)@[k],
            forall|k: int| i <= k < sizes@.len() ==> sizes@[k] == old(sizes)@[k],
        decreases bufs - i,
    {
        proof {
            if size > 0 {
                lemma_segment_count(len - hdr_len, size as int, i as int);
            }
        }
        if i >= out_bufs.len() {
            return Err(GsoError::TooManySegments);
        }
        let end: usize = if len - start > size {
            start + size
        } else {
            len
        };
        assert(i < count);
        assert(end == segment_end(len as int, *options, i as int));
        let out: Vec<u8> = build_segment(input, options, i, start, end, seq, addresses);
        sizes[i] = hdr_len + (end - start);
        out_bufs[i] = out;
        assert((i + 1) * size == i * size + size) by (nonlinear_arith);
        start = start + size;
        i += 1;
    }
    proof {
        if size > 0 && len > hdr_len {
            lemma_segment_count(len - hdr_len, size as int, i as int);
            if i > 0 {
                lemma_segment_count(len - hdr_len, size as int, i - 1);
            }
            lemma_segment_count(len - hdr_len, size as int, bufs);
        }
        if len == hdr_len {
            assert(count == 0);
        }
    }
    Ok(i)
}

/// The header layout that segmentation is made for: whole IP and transport
/// headers, the checksum at its place in the transport header, and the
/// addresses in front of it.
pub open spec fn ordinary_layout(input: Seq<u8>, o: GsoOptions) -> bool {
    &&& o.gso_type != GsoType::NoGso
    &&& o.gso_size > 0
    &&& o.csum_start % 2 == 0
    &&& o.csum_start >= (if input[0] / 16 == 4 {
        20int
    } else {
        40int
    })
    &&& o.csum_offset == (if o.is_tcp() {
        16int
    } else {
        6int
    })
    &&& o.hdr_len >= o.csum_start + (if o.is_tcp() {
        20int
    } else {
        8int
    })
    &&& o.hdr_len <= input.len()
    &&& o.hdr_len + o.gso_size <= 65535
}

/// The bytes of segment `i` behind its headers.
pub open spec fn segment_payload(input: Seq<u8>, o: GsoOptions, i: int) -> Seq<u8> {
    segment(input, o, i).subrange(o.hdr_len as int, segment(input, o, i).len() as int)
}

/// The payloads of the first `n` segments, one after the other.
pub open spec fn joined_payloads(input: Seq<u8>, o: GsoOptions, n: int) -> Seq<u8>
    decreases n,
{
    if n <= 0 {
        Seq::empty()
    } else {
        joined_payloads(input, o, n - 1) + segment_payload(input, o, n - 1)
    }
}

pub proof fn lemma_segment_bounds(input: Seq<u8>, o: GsoOptions, i: int)
    requires
        ordinary_layout(input, o),
        0 <= i < segment_count(input.len() - o.hdr_len, o.gso_size as int),
        o.hdr_len < input.len(),
    ensures
        o.hdr_len <= segment_start(o, i) < segment_end(input.len() as int, o, i) <= input.len(),
        segment_end(input.len() as int, o, i) - segment_start(o, i) <= o.gso_size,
        segment(input, o, i).len() == o.hdr_len + segment_end(input.len() as int, o, i)
            - segment_start(o, i),
{
    reveal(segment);
    lemma_segment_count(input.len() - o.hdr_len, o.gso_size as int, i);
    assert(0 <= i * o.gso_size) by (nonlinear_arith)
        requires
            0 <= i,
    ;
}

/// A segment carries the bytes of the packet between its start and its end.
pub proof fn law_segment_payload(input: Seq<u8>, o: GsoOptions, i: int)
    requires
        ordinary_layout(input, o),
        o.hdr_len < input.len(),
        0 <= i < segment_count(input.len() - o.hdr_len, o.gso_size as int),
    ensures
        segment_payload(input, o, i) == input.subrange(
            segment_start(o, i),
            segment_end(input.len() as int, o, i),
        ),
{
    reveal(segment);
    lemma_segment_bounds(input, o, i);
    assert(segment_payload(input, o, i) =~= input.subrange(
        segment_start(o, i),
        segment_end(input.len() as int, o, i),
    ));
}

proof fn lemma_joined_payloads(input: Seq<u8>, o: GsoOptions, n: int)
    requires
        ordinary_layout(input, o),
        o.hdr_len < input.len(),
        0 <= n <= segment_count(input.len() - o.hdr_len, o.gso_size as int),
    ensures
        n > 0 ==> joined_payloads(input, o, n) == input.subrange(
            o.hdr_len as int,
            segment_end(input.len() as int, o, n - 1),
        ),
    decreases n,
{
    reveal_with_fuel(joined_payloads, 2);
    if n > 0 {
        lemma_joined_payloads(input, o, n - 1);
        law_segment_payload(input, o, n - 1);
        lemma_segment_bounds(input, o, n - 1);
        if n > 1 {
            lemma_segment_bounds(input, o, n - 2);
            assert((n - 1) * o.gso_size == (n - 2) * o.gso_size + o.gso_size) by (nonlinear_arith);
            assert(segment_end(input.len() as int, o, n - 2) == segment_start(o, n - 1));
        } else {
            assert(0 * o.gso_size == 0);
        }
        assert(joined_payloads(input, o, n) =~= input.subrange(
            o.hdr_len as int,
            segment_end(input.len() as int, o, n - 1),
        ));
    }
}

/// Nothing is lost, doubled or reordered: the payloads of all segments, one
/// after the other, are the payload of the packet.
pub proof fn law_segments_partition_payload(input: Seq<u8>, o: GsoOptions)
    requires
        ordinary_layout(input, o),
        o.hdr_len < input.len(),
    ensures
        joined_payloads(
            input,
            o,
            segment_count(input.len() - o.hdr_len, o.gso_size as int),
        ) == input.subrange(o.hdr_len as int, input.len() as int),
{
    let payload = input.len() - o.hdr_len;
    let n = segment_count(payload, o.gso_size as int);
    lemma_segment_count(payload, o.gso_size as int, 0);
    assert(0 * o.gso_size == 0);
    lemma_segment_count(payload, o.gso_size as int, n);
    lemma_joined_payloads(input, o, n);
    assert(n * o.gso_size == (n - 1) * o.gso_size + o.gso_size) by (nonlinear_arith);
}

/// Every segment is a packet of its own: its length field tells its length,
/// its identification and sequence number count up from those of the packet,
/// and of the TCP flags only FIN and PSH are dropped, except on the last one.
#[verifier::rlimit(60)]
pub proof fn law_segment_fields(input: Seq<u8>, o: GsoOptions, i: int)
    requires
        ordinary_layout(input, o),
        o.hdr_len < input.len(),
        0 <= i < segment_count(input.len() - o.hdr_len, o.gso_size as int),
    ensures
        ({
            let s = segment(input, o, i);
            let at = o.csum_start as int;
            let last = segment_end(input.len() as int, o, i) == input.len();
            &&& s.len() <= o.hdr_len + o.gso_size
            &&& input[0] / 16 == 4 ==> wire::be16(s, 2) == s.len() && wire::be16(s, 4) == (
            wire::be16(input, 4) + i) % 65536
            &&& input[0] / 16 != 4 ==> wire::be16(s, 4) == s.len() - at
            &&& o.is_tcp() ==> wire::be32(s, at + 4) == (wire::be32(input, at + 4) + o.gso_size * i)
                % 0x1_0000_0000 && s[at + 13] == (if last {
                input[at + 13]
            } else {
                input[at + 13] & 0xf6
            })
            &&& !o.is_tcp() ==> wire::be16(s, at + 4) == s.len() - at
        }),
{
    reveal(segment);
    lemma_segment_bounds(input, o, i);
    assert(o.gso_size * i >= 0) by (nonlinear_arith)
        requires
            i >= 0,
    ;
}

/// The transport checksum of every segment is valid, and for IPv4 so is the
/// header checksum.
#[verifier::rlimit(60)]
pub proof fn law_segment_checksums(input: Seq<u8>, o: GsoOptions, i: int)
    requires
        ordinary_layout(input, o),
        o.hdr_len < input.len(),
        0 <= i < segment_count(input.len() - o.hdr_len, o.gso_size as int),
    ensures
        ({
            let s = segment(input, o, i);
            let at = o.csum_start as int;
            let src = src_addr_at(input);
            let n = addr_size(input);
            &&& input[0] / 16 == 4 ==> checksum::ones_fold(checksum::word_sum(s.subrange(0, at)))
                == 65535
            &&& checksum::ones_fold(
                checksum::pseudo_sum(
                    o.protocol(),
                    s.subrange(src, src + n),
                    s.subrange(src + n, src + 2 * n),
                    s.len() - at,
                ) + checksum::word_sum(s.subrange(at, s.len() as int)),
            ) == 65535
        }),
{
    reveal(segment);
    lemma_segment_bounds(input, o, i);
    let len = input.len() as int;
    let at = o.csum_start as int;
    let start = segment_start(o, i);
    let end = segment_end(len, o, i);
    let v4 = input[0] / 16 == 4;
    let blank = input.subrange(0, o.hdr_len as int) + wire::zeros(end - start);
    let ip = segment_ip(blank, at, i, v4);
    let headers = segment_transport(ip, o, wire::be32(input, at + 4), i, end == len);
    let filled = headers.subrange(0, o.hdr_len as int) + input.subrange(start, end);
    let s = segment(input, o, i);
    let src = src_addr_at(input);
    let n = addr_size(input);

    if v4 {
        let ided = wire::put16(blank, 4, (wire::be16(blank, 4) + i) % 65536);
        let sized = wire::put16(wire::put16(ided, 10, 0), 2, blank.len() as int % 65536);
        let head = sized.subrange(0, at);
        let w = checksum::word_sum(head);
        checksum::lemma_word_sum_nonneg(head);
        checksum::law_complement_makes_sum_valid(w);
        let v = checksum::ones_not(checksum::ones_fold(w));
        checksum::lemma_word_sum_put16(head, 10, v);
        assert(wire::be16(head, 10) == 0);
        assert(s.subrange(0, at) =~= wire::put16(head, 10, v));
    }
    let cleared = wire::put16(filled, o.csum_at(), 0);
    let tail = cleared.subrange(at, s.len() as int);
    let w = checksum::word_sum(tail);
    checksum::lemma_word_sum_nonneg(tail);
    let a = input.subrange(src, src + n);
    let b = input.subrange(src + n, src + 2 * n);
    assert(s.subrange(src, src + n) =~= a);
    assert(s.subrange(src + n, src + 2 * n) =~= b);
    let sum = checksum::word_sum(checksum::even_part(a)) + checksum::word_sum(
        checksum::even_part(b),
    ) + o.protocol();
    checksum::lemma_word_sum_nonneg(checksum::even_part(a));
    checksum::lemma_word_sum_nonneg(checksum::even_part(b));
    let length = s.len() - at;
    checksum::lemma_fold_add(sum, length);
    checksum::lemma_fold_add(sum + length, w);
    let v = checksum::ones_not(checksum::ones_fold(sum + length + w));
    checksum::law_complement_makes_sum_valid(sum + length + w);
    checksum::lemma_word_sum_put16(tail, o.csum_offset as int, v);
    assert(wire::be16(tail, o.csum_offset as int) == 0);
    assert(s.subrange(at, s.len() as int) =~= wire::put16(tail, o.csum_offset as int, v));
    checksum::lemma_fold_add(sum + length, w + v);
}

} // verus!
