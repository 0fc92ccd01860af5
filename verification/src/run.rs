//! Running an inbound: what its settings decide, and the phases from a fresh
//! device to its end.
use vstd::prelude::*;

use crate::addr;
use crate::addr::{Ipv4Addr, Ipv6Addr};
use crate::config::TunInboundConfig;
use crate::gro::GroDisablementFlags;
use crate::inbound;
use crate::inbound::{
    bind_again, choose_stack, device_address, first_broadcast, loopback_addresses, resolve_addresses,
    AddressError, InboundAddresses, BIND_ATTEMPTS, TUN_VISIBILITY_MAX_ATTEMPTS,
};
use crate::offload::{merge_flags, TunOffload};
use crate::options::StackKind;
use crate::sessions;
use crate::sessions::effective_udp_timeout;
use crate::tcp;
use crate::tcp::{compute_effective_mss, TcpContextV4, TcpContextV6};
use crate::text;
use crate::windows::{wait_for_tun_address, ADDRESS_ATTEMPTS};

verus! {

/// What the settings decide before the device is there.
pub struct InboundPlan {
    pub addresses: InboundAddresses,
    pub loopback_v4: Vec<Ipv4Addr>,
    pub loopback_v6: Vec<Ipv6Addr>,
    /// The broadcast address of the first IPv4 prefix.
    pub broadcast: Option<Ipv4Addr>,
    pub tcp_mss: Option<u16>,
    /// How long a session may be idle, in seconds.
    pub udp_timeout: u64,
    /// The device's MTU: sixteen bits of the configured one.
    pub device_mtu: u16,
    /// The device's address and mask.
    pub device_address: Option<(Ipv4Addr, Ipv4Addr)>,
    pub stack: StackKind,
    pub auto_route: bool,
}

impl InboundPlan {
    /// The plan follows from the settings, whose prefixes are these.
    pub open spec fn follows(
        self,
        cfg: TunInboundConfig,
        a: Seq<(Ipv4Addr, u8)>,
        b: Seq<(Ipv6Addr, u8)>,
    ) -> bool {
        let loopback = text::str_views(cfg.loopback_address@);
        &&& self.addresses.go_with(a, b)
        &&& self.loopback_v4@ == inbound::loopbacks_v4(loopback)
        &&& self.loopback_v6@ == inbound::loopbacks_v6(loopback)
        &&& match self.broadcast {
            Some(x) => a.len() > 0 && x.bits == addr::block_end(
                a[0].0.bits as int,
                a[0].1 as int,
                32,
            ),
            None => a.len() == 0,
        }
        &&& self.tcp_mss == tcp::effective_mss(cfg.tcp_mss, cfg.mtu)
        &&& self.udp_timeout == (if cfg.udp_timeout == 0 {
            sessions::DEFAULT_UDP_TIMEOUT_SECS
        } else {
            cfg.udp_timeout
        })
        &&& self.device_mtu == cfg.mtu % 65536
        &&& match self.device_address {
            Some((x, mask)) => a.len() > 0 && x == a[0].0 && mask.bits == 0x1_0000_0000
                - addr::block_size(a[0].1 as int, 32),
            None => a.len() == 0,
        }
        &&& self.stack == inbound::stack_named(cfg.stack@)
        &&& self.auto_route == cfg.auto_route
    }
}

/// Decides what the settings decide; they fail where they name no usable
/// address.
pub fn plan_inbound(cfg: &TunInboundConfig) -> (r: Result<InboundPlan, AddressError>)
    ensures
        match inbound::resolved(text::str_views(cfg.address@)) {
            Ok((a, b)) => r is Ok && r->Ok_0.follows(*cfg, a, b),
            Err(e) => r is Err && r->Err_0 == e,
        },
{
    let addresses: InboundAddresses = match resolve_addresses(cfg.address.as_slice()) {
        Ok(a) => a,
        Err(e) => {
            return Err(e);
        },
    };
    let (loopback_v4, loopback_v6) = loopback_addresses(cfg.loopback_address.as_slice());
    let broadcast: Option<Ipv4Addr> = first_broadcast(&addresses.inet4_prefixes);
    let device_address: Option<(Ipv4Addr, Ipv4Addr)> = device_address(&addresses.inet4_prefixes);
    Ok(
        InboundPlan {
            addresses,
            loopback_v4,
            loopback_v6,
            broadcast,
            tcp_mss: compute_effective_mss(cfg.tcp_mss, cfg.mtu),
            udp_timeout: effective_udp_timeout(cfg.udp_timeout),
            device_mtu: (cfg.mtu % 65536) as u16,
            device_address,
            stack: choose_stack(cfg.stack.as_str()),
            auto_route: cfg.auto_route,
        },
    )
}

/// What decides which phases a run goes through.
#[derive(Clone, Copy, Debug, PartialEq, Eq, Structural)]
pub struct RunSettings {
    pub stack: StackKind,
    pub auto_route: bool,
    /// There is an IPv4 address to listen on.
    pub has_v4: bool,
    /// There is an IPv6 address to listen on.
    pub has_v6: bool,
    pub dns_hijack: bool,
    /// The system takes its time to give the device its address.
    pub slow_address: bool,
}

/// Where a run stands: what is to be done next.
#[derive(Clone, Copy, Debug, PartialEq, Eq, Structural)]
pub enum RunPhase {
    /// Look whether the device's interface is there; before any look but the
    /// first, rest.
    Look { attempt: u32 },
    /// Set up routes.
    Setup,
    /// Find out what the device takes over.
    Offload,
    /// Write a probe to the device.
    Probe,
    /// Try whether the device's address can be used.
    Address { attempt: u32 },
    /// Listen on the IPv4 address; before any try but the first, rest.
    ListenV4 { attempt: u32 },
    /// Listen on the IPv6 address; before any try but the first, rest.
    ListenV6 { attempt: u32 },
    /// Listen for queries on the IPv4 address.
    QueriesV4,
    /// Listen for queries on the IPv6 address.
    QueriesV6,
    /// Handle packets until the device is closed.
    Serve,
    /// Take the routes down.
    Teardown,
    /// Nothing is left to be done.
    Finished,
    /// The run failed: it could not listen.
    Failed,
}

/// What happened in a phase.
#[derive(Clone, Copy, Debug, PartialEq, Eq, Structural)]
pub enum RunEvent {
    /// The interface was seen, or not.
    Looked(bool),
    /// Setting up is over, however it went.
    SetUp,
    Offered(TunOffload),
    /// The probe was written, or not.
    Probed(bool),
    /// The address could be used, or not.
    Tried(bool),
    /// The port that is listened on, if any.
    Listening(Option<u16>),
    /// The device was closed.
    Closed,
    /// Taking down is over, however it went.
    TornDown,
}

/// Where a run stands, and what it has found out.
#[derive(Clone, Copy, Debug, PartialEq, Eq, Structural)]
pub struct RunState {
    pub phase: RunPhase,
    /// Packets are read and written with a header in front.
    pub vnet_hdr: bool,
    /// Which packets may be merged.
    pub merge: GroDisablementFlags,
    /// The ports of the listeners; zero stands for none.
    pub port_v4: u16,
    pub port_v6: u16,
    /// The ports of the listeners for queries.
    pub dns_v4: Option<u16>,
    pub dns_v6: Option<u16>,
}

pub open spec fn from_queries_v6(s: RunSettings) -> RunPhase {
    if s.stack == StackKind::System && s.dns_hijack && s.has_v6 {
        RunPhase::QueriesV6
    } else {
        RunPhase::Serve
    }
}

pub open spec fn from_queries_v4(s: RunSettings) -> RunPhase {
    if s.stack == StackKind::System && s.dns_hijack && s.has_v4 {
        RunPhase::QueriesV4
    } else {
        from_queries_v6(s)
    }
}

pub open spec fn from_listen_v6(s: RunSettings) -> RunPhase {
    if s.has_v6 {
        RunPhase::ListenV6 { attempt: 0 }
    } else {
        from_queries_v4(s)
    }
}

/// The userspace stack listens itself.
pub open spec fn from_listen_v4(s: RunSettings) -> RunPhase {
    if s.stack == StackKind::Gvisor {
        RunPhase::Serve
    } else if s.has_v4 {
        RunPhase::ListenV4 { attempt: 0 }
    } else {
        from_listen_v6(s)
    }
}

pub open spec fn from_address(s: RunSettings) -> RunPhase {
    if s.stack == StackKind::System && s.slow_address && s.auto_route && s.has_v4 {
        RunPhase::Address { attempt: 0 }
    } else {
        from_listen_v4(s)
    }
}

pub open spec fn from_setup(s: RunSettings) -> RunPhase {
    if s.auto_route {
        RunPhase::Setup
    } else {
        RunPhase::Offload
    }
}

/// The state after an event. One that does not belong to the phase changes
/// nothing.
pub open spec fn run_next(s: RunSettings, st: RunState, event: RunEvent) -> RunState {
    match (st.phase, event) {
        (RunPhase::Look { attempt }, RunEvent::Looked(seen)) => RunState {
            phase: if seen || attempt + 1 >= TUN_VISIBILITY_MAX_ATTEMPTS {
                from_setup(s)
            } else {
                RunPhase::Look { attempt: (attempt + 1) as u32 }
            },
            ..st
        },
        (RunPhase::Setup, RunEvent::SetUp) => RunState { phase: RunPhase::Offload, ..st },
        (RunPhase::Offload, RunEvent::Offered(o)) => {
            let merge = after_offload(o);
            RunState {
                phase: if o.vnet_hdr && o.tcp_gso {
                    RunPhase::Probe
                } else {
                    from_address(s)
                },
                vnet_hdr: o.vnet_hdr,
                merge,
                ..st
            }
        },
        (RunPhase::Probe, RunEvent::Probed(written)) => RunState {
            phase: from_address(s),
            merge: if written {
                st.merge
            } else {
                GroDisablementFlags { tcp_off: true, udp_off: true }
            },
            ..st
        },
        (RunPhase::Address { attempt }, RunEvent::Tried(usable)) => RunState {
            phase: if usable || attempt + 1 >= ADDRESS_ATTEMPTS {
                from_listen_v4(s)
            } else {
                RunPhase::Address { attempt: (attempt + 1) as u32 }
            },
            ..st
        },
        (RunPhase::ListenV4 { attempt }, RunEvent::Listening(port)) => match port {
            Some(p) => RunState { phase: from_listen_v6(s), port_v4: p, ..st },
            None => RunState {
                phase: if attempt + 1 < BIND_ATTEMPTS {
                    RunPhase::ListenV4 { attempt: (attempt + 1) as u32 }
                } else if s.stack == StackKind::Mixed {
                    RunPhase::Failed
                } else {
                    from_listen_v6(s)
                },
                ..st
            },
        },
        (RunPhase::ListenV6 { attempt }, RunEvent::Listening(port)) => match port {
            Some(p) => RunState { phase: from_queries_v4(s), port_v6: p, ..st },
            None => RunState {
                phase: if attempt + 1 < BIND_ATTEMPTS {
                    RunPhase::ListenV6 { attempt: (attempt + 1) as u32 }
                } else {
                    from_queries_v4(s)
                },
                ..st
            },
        },
        (RunPhase::QueriesV4, RunEvent::Listening(port)) => RunState {
            phase: from_queries_v6(s),
            dns_v4: port,
            ..st
        },
        (RunPhase::QueriesV6, RunEvent::Listening(port)) => RunState {
            phase: RunPhase::Serve,
            dns_v6: port,
            ..st
        },
        (RunPhase::Serve, RunEvent::Closed) => RunState {
            phase: if s.stack == StackKind::System && s.auto_route {
                RunPhase::Teardown
            } else {
                RunPhase::Finished
            },
            ..st
        },
        (RunPhase::Teardown, RunEvent::TornDown) => RunState { phase: RunPhase::Finished, ..st },
        _ => st,
    }
}

/// What may be merged for a device that takes this over.
pub open spec fn after_offload(o: TunOffload) -> GroDisablementFlags {
    GroDisablementFlags { tcp_off: !o.tcp_gso, udp_off: !o.udp_gso }
}

fn enter_queries_v6(s: &RunSettings) -> (p: RunPhase)
    ensures
        p == from_queries_v6(*s),
{
    if s.stack == StackKind::System && s.dns_hijack && s.has_v6 {
        RunPhase::QueriesV6
    } else {
        RunPhase::Serve
    }
}

fn enter_queries_v4(s: &RunSettings) -> (p: RunPhase)
    ensures
        p == from_queries_v4(*s),
{
    if s.stack == StackKind::System && s.dns_hijack && s.has_v4 {
        RunPhase::QueriesV4
    } else {
        enter_queries_v6(s)
    }
}

fn enter_listen_v6(s: &RunSettings) -> (p: RunPhase)
    ensures
        p == from_listen_v6(*s),
{
    if s.has_v6 {
        RunPhase::ListenV6 { attempt: 0 }
    } else {
        enter_queries_v4(s)
    }
}

fn enter_listen_v4(s: &RunSettings) -> (p: RunPhase)
    ensures
        p == from_listen_v4(*s),
{
    if s.stack == StackKind::Gvisor {
        RunPhase::Serve
    } else if s.has_v4 {
        RunPhase::ListenV4 { attempt: 0 }
    } else {
        enter_listen_v6(s)
    }
}

fn enter_address(s: &RunSettings) -> (p: RunPhase)
    ensures
        p == from_address(*s),
{
    if s.stack == StackKind::System && s.slow_address && s.auto_route && s.has_v4 {
        RunPhase::Address { attempt: 0 }
    } else {
        enter_listen_v4(s)
    }
}

/// The state of a run whose device was just made.
pub fn run_start() -> (st: RunState)
    ensures
        st.phase == (RunPhase::Look { attempt: 0 }),
        !st.vnet_hdr,
        st.merge == (GroDisablementFlags { tcp_off: false, udp_off: false }),
        st.port_v4 == 0,
        st.port_v6 == 0,
        st.dns_v4 is None,
        st.dns_v6 is None,
{
    RunState {
        phase: RunPhase::Look { attempt: 0 },
        vnet_hdr: false,
        merge: GroDisablementFlags::default(),
        port_v4: 0,
        port_v6: 0,
        dns_v4: None,
        dns_v6: None,
    }
}

/// Moves a run on.
pub fn run_step(s: &RunSettings, st: RunState, event: RunEvent) -> (r: RunState)
    ensures
        r == run_next(*s, st, event),
{
    let mut r: RunState = st;
    match (st.phase, event) {
        (RunPhase::Look { attempt }, RunEvent::Looked(seen)) => {
            r.phase =
            if seen || attempt >= TUN_VISIBILITY_MAX_ATTEMPTS - 1 {
                if s.auto_route {
                    RunPhase::Setup
                } else {
                    RunPhase::Offload
                }
            } else {
                RunPhase::Look { attempt: attempt + 1 }
            };
        },
        (RunPhase::Setup, RunEvent::SetUp) => {
            r.phase = RunPhase::Offload;
        },
        (RunPhase::Offload, RunEvent::Offered(o)) => {
            r.vnet_hdr = o.vnet_hdr;
            r.merge = merge_flags(o);
            r.phase =
            if o.vnet_hdr && o.tcp_gso {
                RunPhase::Probe
            } else {
                enter_address(s)
            };
        },
        (RunPhase::Probe, RunEvent::Probed(written)) => {
            if !written {
                r.merge.disable_tcp();
                r.merge.disable_udp();
            }
            r.phase = enter_address(s);
        },
        (RunPhase::Address { attempt }, RunEvent::Tried(usable)) => {
            r.phase =
            if wait_for_tun_address(attempt, usable) {
                RunPhase::Address { attempt: attempt + 1 }
            } else {
                enter_listen_v4(s)
            };
        },
        (RunPhase::ListenV4 { attempt }, RunEvent::Listening(port)) => {
            if let Some(p) = port {
                r.port_v4 = p;
                r.phase = enter_listen_v6(s);
            } else if bind_again(attempt) {
                r.phase = RunPhase::ListenV4 { attempt: attempt + 1 };
            } else if s.stack == StackKind::Mixed {
                r.phase = RunPhase::Failed;
            } else {
                r.phase = enter_listen_v6(s);
            }
        },
        (RunPhase::ListenV6 { attempt }, RunEvent::Listening(port)) => {
            if let Some(p) = port {
                r.port_v6 = p;
                r.phase = enter_queries_v4(s);
            } else if bind_again(attempt) {
                r.phase = RunPhase::ListenV6 { attempt: attempt + 1 };
            } else {
                r.phase = enter_queries_v4(s);
            }
        },
        (RunPhase::QueriesV4, RunEvent::Listening(port)) => {
            r.dns_v4 = port;
            r.phase = enter_queries_v6(s);
        },
        (RunPhase::QueriesV6, RunEvent::Listening(port)) => {
            r.dns_v6 = port;
            r.phase = RunPhase::Serve;
        },
        (RunPhase::Serve, RunEvent::Closed) => {
            r.phase =
            if s.stack == StackKind::System && s.auto_route {
                RunPhase::Teardown
            } else {
                RunPhase::Finished
            };
        },
        (RunPhase::Teardown, RunEvent::TornDown) => {
            r.phase = RunPhase::Finished;
        },
        _ => {},
    }
    r
}

/// How the connections of a run are translated, once its listeners are there.
pub fn contexts(plan: &InboundPlan, st: &RunState, dns_hijack: bool) -> (r: (
    TcpContextV4,
    TcpContextV6,
))
    ensures
        r.0.server_addr == plan.addresses.inet4_server,
        r.0.client_addr == plan.addresses.inet4_client,
        r.0.loopback@ == plan.loopback_v4@,
        r.0.tcp_port == st.port_v4,
        r.0.dns_tcp_port == st.dns_v4,
        r.0.tcp_mss == plan.tcp_mss,
        r.0.dns_hijack == dns_hijack,
        r.1.server_addr == plan.addresses.inet6_server,
        r.1.client_addr == plan.addresses.inet6_client,
        r.1.loopback@ == plan.loopback_v6@,
        r.1.tcp_port == st.port_v6,
        r.1.dns_tcp_port == st.dns_v6,
        r.1.tcp_mss == plan.tcp_mss,
        r.1.dns_hijack == dns_hijack,
{
    let loopback_v4: Vec<Ipv4Addr> = plan.loopback_v4.clone();
    let loopback_v6: Vec<Ipv6Addr> = plan.loopback_v6.clone();
    assert(loopback_v4@ =~= plan.loopback_v4@);
    assert(loopback_v6@ =~= plan.loopback_v6@);
    (
        TcpContextV4 {
            server_addr: plan.addresses.inet4_server,
            client_addr: plan.addresses.inet4_client,
            loopback: loopback_v4,
            tcp_port: st.port_v4,
            dns_tcp_port: st.dns_v4,
            tcp_mss: plan.tcp_mss,
            dns_hijack,
        },
        TcpContextV6 {
            server_addr: plan.addresses.inet6_server,
            client_addr: plan.addresses.inet6_client,
            loopback: loopback_v6,
            tcp_port: st.port_v6,
            dns_tcp_port: st.dns_v6,
            tcp_mss: plan.tcp_mss,
            dns_hijack,
        },
    )
}

/// How many steps are left at most, from a phase that a run can reach.
pub open spec fn steps_left(p: RunPhase) -> int {
    match p {
        RunPhase::Look { attempt } => 50 + TUN_VISIBILITY_MAX_ATTEMPTS - attempt,
        RunPhase::Setup => 50,
        RunPhase::Offload => 49,
        RunPhase::Probe => 48,
        RunPhase::Address { attempt } => 17 + ADDRESS_ATTEMPTS - attempt,
        RunPhase::ListenV4 { attempt } => 10 + BIND_ATTEMPTS - attempt,
        RunPhase::ListenV6 { attempt } => 6 + BIND_ATTEMPTS - attempt,
        RunPhase::QueriesV4 => 5,
        RunPhase::QueriesV6 => 4,
        RunPhase::Serve => 3,
        RunPhase::Teardown => 2,
        RunPhase::Finished => 0,
        RunPhase::Failed => 0,
    }
}

/// The tries of a phase are counted within their limits.
pub open spec fn reachable(p: RunPhase) -> bool {
    match p {
        RunPhase::Look { attempt } => attempt < TUN_VISIBILITY_MAX_ATTEMPTS,
        RunPhase::Address { attempt } => attempt < ADDRESS_ATTEMPTS,
        RunPhase::ListenV4 { attempt } => attempt < BIND_ATTEMPTS,
        RunPhase::ListenV6 { attempt } => attempt < BIND_ATTEMPTS,
        _ => true,
    }
}

/// The event belongs to the phase.
pub open spec fn belongs(p: RunPhase, event: RunEvent) -> bool {
    match p {
        RunPhase::Look { attempt } => event is Looked,
        RunPhase::Setup => event is SetUp,
        RunPhase::Offload => event is Offered,
        RunPhase::Probe => event is Probed,
        RunPhase::Address { attempt } => event is Tried,
        RunPhase::ListenV4 { attempt } => event is Listening,
        RunPhase::ListenV6 { attempt } => event is Listening,
        RunPhase::QueriesV4 => event is Listening,
        RunPhase::QueriesV6 => event is Listening,
        RunPhase::Serve => event is Closed,
        RunPhase::Teardown => event is TornDown,
        RunPhase::Finished => false,
        RunPhase::Failed => false,
    }
}

/// Every event that belongs to its phase brings a run nearer to its end.
pub proof fn law_run_moves_on(s: RunSettings, st: RunState, event: RunEvent)
    requires
        reachable(st.phase),
        belongs(st.phase, event),
    ensures
        reachable(run_next(s, st, event).phase),
        0 <= steps_left(run_next(s, st, event).phase) < steps_left(st.phase),
{
}

/// In the system stack routes that were set up are taken down when the device
/// is closed, and only then.
pub proof fn law_system_run_takes_routes_down(s: RunSettings, st: RunState, event: RunEvent)
    requires
        s.stack == StackKind::System,
        st.phase != RunPhase::Teardown,
    ensures
        run_next(s, st, event).phase == RunPhase::Teardown <==> (s.auto_route && st.phase
            == RunPhase::Serve && event == RunEvent::Closed),
{
}

/// A run serves packets only after its listeners were tried: whatever happens
/// in one step, what is served next has every listener's try behind it.
pub proof fn law_listeners_come_first(s: RunSettings, st: RunState, event: RunEvent)
    requires
        s.stack != StackKind::Gvisor,
        st.phase != RunPhase::Serve,
        run_next(s, st, event).phase == RunPhase::Serve,
        s.has_v4 || s.has_v6,
    ensures
        event is Listening,
        s.has_v6 && s.stack == StackKind::System && s.dns_hijack ==> st.phase
            == RunPhase::QueriesV6,
{
}

} // verus!
