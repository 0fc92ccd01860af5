//! What a TUN device takes over from the host: which of it was switched on.
use vstd::prelude::*;

use crate::gro::GroDisablementFlags;

verus! {

/// The device frames every packet with a virtio-net header.
pub const IFF_VNET_HDR: u16 = 0x4000;

pub const TUN_F_CSUM: u32 = 0x01;

pub const TUN_F_TSO4: u32 = 0x02;

pub const TUN_F_TSO6: u32 = 0x04;

pub const TUN_F_USO4: u32 = 0x10;

pub const TUN_F_USO6: u32 = 0x20;

/// The offloads of TCP: checksums and segmentation for both IP versions.
pub const TCP_OFFLOADS: u32 = 0x07;

/// The offloads of TCP and UDP.
pub const ALL_OFFLOADS: u32 = 0x37;

/// What was switched on.
#[derive(Clone, Copy, Debug, PartialEq, Eq, Structural)]
pub struct TunOffload {
    /// Packets carry a virtio-net header.
    pub vnet_hdr: bool,
    /// TCP packets may be larger than the MTU.
    pub tcp_gso: bool,
    /// UDP packets may be larger than the MTU.
    pub udp_gso: bool,
}

impl Default for TunOffload {
    fn default() -> (o: Self)
        ensures
            o == (TunOffload { vnet_hdr: false, tcp_gso: false, udp_gso: false }),
    {
        TunOffload { vnet_hdr: false, tcp_gso: false, udp_gso: false }
    }
}

/// Whether the flags of an interface say that packets carry a virtio-net
/// header.
pub fn tun_has_vnet_hdr(flags: u16) -> (r: bool)
    ensures
        r == (flags / IFF_VNET_HDR % 2 == 1),
{
    flags / IFF_VNET_HDR % 2 == 1
}

/// How far the offloads have been tried.
#[derive(Clone, Copy, Debug, PartialEq, Eq, Structural)]
pub enum OffloadStep {
    /// The offloads of TCP come next.
    Tcp,
    /// The offloads of TCP and UDP come next.
    All,
    Done,
}

/// The first thing to try: nothing without virtio-net headers.
pub fn first_offload(vnet_hdr: bool) -> (r: (TunOffload, OffloadStep))
    ensures
        r.0 == (TunOffload { vnet_hdr, tcp_gso: false, udp_gso: false }),
        r.1 == (if vnet_hdr {
            OffloadStep::Tcp
        } else {
            OffloadStep::Done
        }),
{
    let offload = TunOffload { vnet_hdr, tcp_gso: false, udp_gso: false };
    if vnet_hdr {
        (offload, OffloadStep::Tcp)
    } else {
        (offload, OffloadStep::Done)
    }
}

/// The offloads that a step asks for.
pub fn offload_flags(step: OffloadStep) -> (flags: Option<u32>)
    ensures
        flags == (match step {
            OffloadStep::Tcp => Some(TCP_OFFLOADS),
            OffloadStep::All => Some(ALL_OFFLOADS),
            OffloadStep::Done => None,
        }),
{
    match step {
        OffloadStep::Tcp => Some(TCP_OFFLOADS),
        OffloadStep::All => Some(ALL_OFFLOADS),
        OffloadStep::Done => None,
    }
}

/// What holds after a step: where the device refuses, nothing more is tried.
pub fn next_offload(offload: TunOffload, step: OffloadStep, accepted: bool) -> (r: (
    TunOffload,
    OffloadStep,
))
    ensures
        r.0 == (match step {
            OffloadStep::Tcp => TunOffload { tcp_gso: accepted || offload.tcp_gso, ..offload },
            OffloadStep::All => TunOffload { udp_gso: accepted || offload.udp_gso, ..offload },
            OffloadStep::Done => offload,
        }),
        r.1 == (if step == OffloadStep::Tcp && accepted {
            OffloadStep::All
        } else {
            OffloadStep::Done
        }),
{
    match step {
        OffloadStep::Tcp => if accepted {
            (TunOffload { tcp_gso: true, ..offload }, OffloadStep::All)
        } else {
            (offload, OffloadStep::Done)
        },
        OffloadStep::All => if accepted {
            (TunOffload { udp_gso: true, ..offload }, OffloadStep::Done)
        } else {
            (offload, OffloadStep::Done)
        },
        OffloadStep::Done => (offload, OffloadStep::Done),
    }
}

/// What is switched on after all steps, from what the device accepted: headers
/// do not hang on the offloads, and UDP hangs on TCP.
pub fn setup_tun_offload(vnet_hdr: bool, tcp_accepted: bool, all_accepted: bool) -> (o: TunOffload)
    ensures
        o == (TunOffload {
            vnet_hdr,
            tcp_gso: vnet_hdr && tcp_accepted,
            udp_gso: vnet_hdr && tcp_accepted && all_accepted,
        }),
{
    let (offload, step) = first_offload(vnet_hdr);
    let (offload, step) = next_offload(offload, step, tcp_accepted);
    let (offload, _step) = next_offload(offload, step, all_accepted);
    offload
}

/// What may be merged on the way out: what the device takes oversized.
pub fn merge_flags(offload: TunOffload) -> (flags: GroDisablementFlags)
    ensures
        flags.tcp_allowed() == offload.tcp_gso,
        flags.udp_allowed() == offload.udp_gso,
{
    let mut flags: GroDisablementFlags = GroDisablementFlags::default();
    if !offload.tcp_gso {
        flags.disable_tcp();
    }
    if !offload.udp_gso {
        flags.disable_udp();
    }
    flags
}

} // verus!
