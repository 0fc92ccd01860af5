//! Setting up and taking down a device on Windows: addresses, routes, name
//! servers and the command lines that stand in for calls that fail.
use vstd::prelude::*;
use vstd::string::*;

use crate::addr;
use crate::addr::{prefix_len_to_mask_v4, IpAddr, Ipv4Addr, Ipv6Addr};
use crate::command;
use crate::command::{command, extend, push_words};
use crate::config::TunInboundConfig;
use crate::macos;
use crate::macos::{exclude_routes_v4, exclude_routes_v6};
use crate::platform::SetupState;
use crate::render;
use crate::render::{dec_string, ip_string, prefix_string, v4_string};
use crate::routes;
use crate::routes::{any_version, keep_version};
use crate::text;
use crate::text::{
    chars_of, parse_addr_prefix, parse_ipv4, parse_ipv6, parse_number, string_of,
    trimmed,
};

verus! {

/// How often the adapter's name is asked for.
pub const NAME_ATTEMPTS: u32 = 10;

/// How often the device's interface is looked for.
pub const INTERFACE_ATTEMPTS: u32 = 30;

/// How often the device's address is tried.
pub const ADDRESS_ATTEMPTS: u32 = 30;

/// The milliseconds between two looks at the interface or its name.
pub const INTERFACE_PAUSE_MS: u64 = 100;

/// The milliseconds between two tries of the address.
pub const ADDRESS_PAUSE_MS: u64 = 200;

/// The prefix that a text names, where it is one of this IP version.
pub open spec fn cidr_of(s: Seq<char>, v4: bool) -> Option<(IpAddr, u8)> {
    match text::addr_prefix(s) {
        Some(p) => if (p.0 is V4) == v4 {
            Some(p)
        } else {
            None
        },
        None => None,
    }
}

/// Reads an IPv4 prefix.
pub fn parse_cidr_v4(s: &str) -> (r: Option<(Ipv4Addr, u8)>)
    ensures
        match r {
            Some(p) => cidr_of(s@, true) == Some((IpAddr::V4(p.0), p.1)),
            None => cidr_of(s@, true) is None,
        },
{
    match parse_addr_prefix(s) {
        Some((IpAddr::V4(ip), len)) => Some((ip, len)),
        _ => None,
    }
}

/// Reads an IPv6 prefix.
pub fn parse_cidr_v6(s: &str) -> (r: Option<(Ipv6Addr, u8)>)
    ensures
        match r {
            Some(p) => cidr_of(s@, false) == Some((IpAddr::V6(p.0), p.1)),
            None => cidr_of(s@, false) is None,
        },
{
    match parse_addr_prefix(s) {
        Some((IpAddr::V6(ip), len)) => Some((ip, len)),
        _ => None,
    }
}

/// The routes into the device: the prefixes of this IP version that the
/// settings name, or the default route.
pub open spec fn tun_routes(cfg: &TunInboundConfig, v4: bool) -> Seq<Seq<char>> {
    if cfg.route_address@.len() > 0 {
        routes::texts_of_version(text::str_views(cfg.route_address@), v4)
    } else if v4 {
        seq!["0.0.0.0/0"@]
    } else {
        seq!["::/0"@]
    }
}

fn default_route(v4: bool) -> (v: Vec<String>)
    ensures
        text::str_views(v@) == (if v4 {
            seq!["0.0.0.0/0"@]
        } else {
            seq!["::/0"@]
        }),
{
    let w: Vec<&str> = if v4 {
        vec!["0.0.0.0/0"]
    } else {
        vec!["::/0"]
    };
    let v: Vec<String> = command(&w);
    assert(text::str_views(v@) =~= (if v4 {
        seq!["0.0.0.0/0"@]
    } else {
        seq!["::/0"@]
    }));
    v
}

pub fn tun_routes_v4(cfg: &TunInboundConfig) -> (v: Vec<String>)
    ensures
        text::str_views(v@) == tun_routes(cfg, true),
{
    if cfg.route_address.len() > 0 {
        keep_version(&cfg.route_address, true)
    } else {
        default_route(true)
    }
}

pub fn tun_routes_v6(cfg: &TunInboundConfig) -> (v: Vec<String>)
    ensures
        text::str_views(v@) == tun_routes(cfg, false),
{
    if cfg.route_address.len() > 0 {
        keep_version(&cfg.route_address, false)
    } else {
        default_route(false)
    }
}

/// The address behind this one, if there is one.
pub open spec fn address_after(ip: Ipv4Addr) -> Option<Ipv4Addr> {
    if ip.bits == u32::MAX {
        None
    } else {
        Some(Ipv4Addr { bits: (ip.bits + 1) as u32 })
    }
}

pub fn next_v4(ip: Ipv4Addr) -> (r: Option<Ipv4Addr>)
    ensures
        r == address_after(ip),
{
    if ip.bits == u32::MAX {
        None
    } else {
        Some(Ipv4Addr { bits: ip.bits + 1 })
    }
}

/// The device's gateway and name server: the address behind the first IPv4
/// address, from text `i` on, that has one behind it.
pub open spec fn server_v4(s: Seq<Seq<char>>, i: int) -> Option<Ipv4Addr>
    decreases s.len() - i,
{
    if i < 0 || i >= s.len() {
        None
    } else {
        match text::addr_prefix(s[i]) {
            Some((IpAddr::V4(ip), _)) => if ip.bits < u32::MAX {
                address_after(ip)
            } else {
                server_v4(s, i + 1)
            },
            _ => server_v4(s, i + 1),
        }
    }
}

/// The device's gateway and name server: the address behind the first IPv6
/// address, from text `i` on; behind the last address comes the first.
pub open spec fn server_v6(s: Seq<Seq<char>>, i: int) -> Option<Ipv6Addr>
    decreases s.len() - i,
{
    if i < 0 || i >= s.len() {
        None
    } else {
        match text::addr_prefix(s[i]) {
            Some((IpAddr::V6(ip), _)) => Some(
                Ipv6Addr {
                    bits: if ip.bits == u128::MAX {
                        0
                    } else {
                        (ip.bits + 1) as u128
                    },
                },
            ),
            _ => server_v6(s, i + 1),
        }
    }
}

pub fn server_addr_v4(cfg: &TunInboundConfig) -> (r: Option<Ipv4Addr>)
    ensures
        r == server_v4(text::str_views(cfg.address@), 0),
{
    let ghost all = text::str_views(cfg.address@);
    let mut i: usize = 0;
    while i < cfg.address.len()
        invariant
            i <= cfg.address@.len(),
            all == text::str_views(cfg.address@),
            server_v4(all, 0) == server_v4(all, i as int),
        decreases cfg.address.len() - i,
    {
        assert(all[i as int] == cfg.address@[i as int]@);
        if let Some((IpAddr::V4(ip), _)) = parse_addr_prefix(cfg.address[i].as_str()) {
            let next: Option<Ipv4Addr> = next_v4(ip);
            if next.is_some() {
                return next;
            }
        }
        i += 1;
    }
    None
}

pub fn server_addr_v6(cfg: &TunInboundConfig) -> (r: Option<Ipv6Addr>)
    ensures
        r == server_v6(text::str_views(cfg.address@), 0),
{
    let ghost all = text::str_views(cfg.address@);
    let mut i: usize = 0;
    while i < cfg.address.len()
        invariant
            i <= cfg.address@.len(),
            all == text::str_views(cfg.address@),
            server_v6(all, 0) == server_v6(all, i as int),
        decreases cfg.address.len() - i,
    {
        assert(all[i as int] == cfg.address@[i as int]@);
        if let Some((IpAddr::V6(ip), _)) = parse_addr_prefix(cfg.address[i].as_str()) {
            return Some(
                Ipv6Addr {
                    bits: if ip.bits == u128::MAX {
                        0
                    } else {
                        ip.bits + 1
                    },
                },
            );
        }
        i += 1;
    }
    None
}

/// The gateway of the routes into the device; the unspecified address where the
/// device has none.
pub open spec fn gateway_of(cfg: &TunInboundConfig, v4: bool) -> IpAddr {
    if v4 {
        IpAddr::V4(
            match server_v4(text::str_views(cfg.address@), 0) {
                Some(ip) => ip,
                None => Ipv4Addr { bits: 0 },
            },
        )
    } else {
        IpAddr::V6(
            match server_v6(text::str_views(cfg.address@), 0) {
                Some(ip) => ip,
                None => Ipv6Addr { bits: 0 },
            },
        )
    }
}

fn gateway(cfg: &TunInboundConfig, v4: bool) -> (ip: IpAddr)
    ensures
        ip == gateway_of(cfg, v4),
{
    if v4 {
        match server_addr_v4(cfg) {
            Some(ip) => IpAddr::V4(ip),
            None => IpAddr::V4(Ipv4Addr { bits: 0 }),
        }
    } else {
        match server_addr_v6(cfg) {
            Some(ip) => IpAddr::V6(ip),
            None => IpAddr::V6(Ipv6Addr { bits: 0 }),
        }
    }
}

/// One route to add or delete: a system call with destination, prefix length
/// and gateway, and the command line that stands in for it where there is no
/// call to make or it fails.
#[derive(Debug)]
pub struct RouteStep {
    pub native: Option<(IpAddr, u8, IpAddr)>,
    pub fallback: Vec<String>,
}

/// What a route step does.
pub struct RouteStepView {
    pub native: Option<(IpAddr, u8, IpAddr)>,
    pub fallback: Seq<Seq<char>>,
}

impl View for RouteStep {
    type V = RouteStepView;

    open spec fn view(&self) -> RouteStepView {
        RouteStepView { native: self.native, fallback: text::str_views(self.fallback@) }
    }
}

pub open spec fn step_views(v: Seq<RouteStep>) -> Seq<RouteStepView> {
    Seq::new(v.len(), |k: int| v[k]@)
}

/// The call for a route: none where the interface is not resolved, no gateway
/// is known, or the text is no prefix of this IP version.
pub open spec fn native_call(
    cidr: Seq<char>,
    gateway: Option<IpAddr>,
    v4: bool,
    resolved: bool,
) -> Option<(IpAddr, u8, IpAddr)> {
    match (gateway, cidr_of(cidr, v4)) {
        (Some(gw), Some(p)) => if resolved {
            Some((p.0, p.1, gw))
        } else {
            None
        },
        _ => None,
    }
}

/// The word for an IP version.
pub open spec fn family(v4: bool) -> Seq<char> {
    if v4 {
        "ipv4"@
    } else {
        "ipv6"@
    }
}

fn family_word(v4: bool) -> (s: &'static str)
    ensures
        s@ == family(v4),
{
    if v4 {
        "ipv4"
    } else {
        "ipv6"
    }
}

/// The step that adds a route. `through` is the gateway that the command line
/// names, where it names one.
pub open spec fn add_step(
    cidr: Seq<char>,
    if_name: Seq<char>,
    gateway: IpAddr,
    through: Option<IpAddr>,
    v4: bool,
    resolved: bool,
) -> RouteStepView {
    RouteStepView {
        native: native_call(cidr, Some(gateway), v4, resolved),
        fallback: seq!["netsh"@, "interface"@, family(v4), "add"@, "route"@, cidr, if_name] + (
        match through {
            Some(gw) => seq![render::ip_text(gw)],
            None => Seq::empty(),
        }) + seq!["metric=0"@],
    }
}

pub open spec fn add_steps(
    r: Seq<Seq<char>>,
    if_name: Seq<char>,
    gateway: IpAddr,
    through: Option<IpAddr>,
    v4: bool,
    resolved: bool,
) -> Seq<RouteStepView> {
    Seq::new(r.len(), |k: int| add_step(r[k], if_name, gateway, through, v4, resolved))
}

fn native(cidr: &str, gateway: Option<IpAddr>, v4: bool, resolved: bool) -> (r: Option<
    (IpAddr, u8, IpAddr),
>)
    ensures
        r == native_call(cidr@, gateway, v4, resolved),
{
    if let Some(gw) = gateway {
        if resolved {
            if v4 {
                if let Some((ip, len)) = parse_cidr_v4(cidr) {
                    return Some((IpAddr::V4(ip), len, gw));
                }
            } else {
                if let Some((ip, len)) = parse_cidr_v6(cidr) {
                    return Some((IpAddr::V6(ip), len, gw));
                }
            }
        }
    }
    None
}

fn push_step(steps: &mut Vec<RouteStep>, step: RouteStep)
    ensures
        step_views(final(steps)@) == step_views(old(steps)@).push(step@),
{
    let ghost before = step_views(steps@);
    let ghost view = step@;
    steps.push(step);
    assert(step_views(steps@) =~= before.push(view));
}

fn route_step(
    cidr: &str,
    if_name: &str,
    gateway: IpAddr,
    through: Option<IpAddr>,
    v4: bool,
    resolved: bool,
) -> (step: RouteStep)
    ensures
        step@ == add_step(cidr@, if_name@, gateway, through, v4, resolved),
{
    let w: Vec<&str> = vec!["netsh", "interface", family_word(v4), "add", "route", cidr, if_name];
    let ghost head = seq!["netsh"@, "interface"@, family(v4), "add"@, "route"@, cidr@, if_name@];
    assert(command::words(w@) =~= head);
    let mut fallback: Vec<String> = command(&w);
    if let Some(gw) = through {
        let s: String = ip_string(gw);
        let g: Vec<&str> = vec![s.as_str()];
        assert(command::words(g@) =~= seq![render::ip_text(gw)]);
        extend(&mut fallback, &g);
    }
    let m: Vec<&str> = vec!["metric=0"];
    assert(command::words(m@) =~= seq!["metric=0"@]);
    extend(&mut fallback, &m);
    assert(text::str_views(fallback@) =~= add_step(
        cidr@,
        if_name@,
        gateway,
        through,
        v4,
        resolved,
    ).fallback);
    RouteStep { native: native(cidr, Some(gateway), v4, resolved), fallback }
}

fn push_additions(
    steps: &mut Vec<RouteStep>,
    r: &Vec<String>,
    if_name: &str,
    gateway: IpAddr,
    through: Option<IpAddr>,
    v4: bool,
    resolved: bool,
)
    ensures
        step_views(final(steps)@) == step_views(old(steps)@) + add_steps(
            text::str_views(r@),
            if_name@,
            gateway,
            through,
            v4,
            resolved,
        ),
{
    let ghost before = step_views(steps@);
    let ghost all = add_steps(text::str_views(r@), if_name@, gateway, through, v4, resolved);
    let mut k: usize = 0;
    assert(before + all.take(0) =~= before);
    while k < r.len()
        invariant
            k <= r.len(),
            all == add_steps(text::str_views(r@), if_name@, gateway, through, v4, resolved),
            step_views(steps@) == before + all.take(k as int),
        decreases r.len() - k,
    {
        let step: RouteStep = route_step(
            r[k].as_str(),
            if_name,
            gateway,
            through,
            v4,
            resolved,
        );
        push_step(steps, step);
        assert(all.take(k + 1) =~= all.take(k as int).push(all[k as int]));
        assert(step_views(steps@) =~= before + all.take(k + 1));
        k += 1;
    }
    assert(all.take(all.len() as int) =~= all);
}

/// The step that deletes a route.
pub open spec fn delete_step(
    cidr: Seq<char>,
    if_name: Seq<char>,
    gateway: Option<IpAddr>,
    v4: bool,
    resolved: bool,
) -> RouteStepView {
    RouteStepView {
        native: native_call(cidr, gateway, v4, resolved),
        fallback: seq!["netsh"@, "interface"@, family(v4), "delete"@, "route"@, cidr, if_name],
    }
}

pub open spec fn delete_steps(
    r: Seq<Seq<char>>,
    if_name: Seq<char>,
    gateway: Option<IpAddr>,
    v4: bool,
    resolved: bool,
) -> Seq<RouteStepView> {
    Seq::new(r.len(), |k: int| delete_step(r[k], if_name, gateway, v4, resolved))
}

fn push_deletions(
    steps: &mut Vec<RouteStep>,
    r: &Vec<String>,
    if_name: &str,
    gateway: Option<IpAddr>,
    v4: bool,
    resolved: bool,
)
    ensures
        step_views(final(steps)@) == step_views(old(steps)@) + delete_steps(
            text::str_views(r@),
            if_name@,
            gateway,
            v4,
            resolved,
        ),
{
    let ghost before = step_views(steps@);
    let ghost all = delete_steps(text::str_views(r@), if_name@, gateway, v4, resolved);
    let mut k: usize = 0;
    assert(before + all.take(0) =~= before);
    while k < r.len()
        invariant
            k <= r.len(),
            all == delete_steps(text::str_views(r@), if_name@, gateway, v4, resolved),
            step_views(steps@) == before + all.take(k as int),
        decreases r.len() - k,
    {
        let cidr: &str = r[k].as_str();
        let w: Vec<&str> = vec![
            "netsh",
            "interface",
            family_word(v4),
            "delete",
            "route",
            cidr,
            if_name,
        ];
        assert(command::words(w@) =~= all[k as int].fallback);
        let step: RouteStep = RouteStep {
            native: native(cidr, gateway, v4, resolved),
            fallback: command(&w),
        };
        assert(step@ == all[k as int]);
        push_step(steps, step);
        assert(all.take(k + 1) =~= all.take(k as int).push(all[k as int]));
        assert(step_views(steps@) =~= before + all.take(k + 1));
        k += 1;
    }
    assert(all.take(all.len() as int) =~= all);
}

/// The routes of one IP version that are wanted.
pub open spec fn wanted_routes(cfg: &TunInboundConfig, v4: bool) -> Seq<Seq<char>> {
    macos::wanted(
        tun_routes(cfg, v4),
        routes::has_version(text::str_views(cfg.address@), v4),
    )
}

/// The steps that route traffic into the device. `resolved` tells whether the
/// system knows the device's interface.
pub fn add_auto_routes(
    cfg: &TunInboundConfig,
    if_name: &str,
    resolved: bool,
    state: &mut SetupState,
) -> (steps: Vec<RouteStep>)
    ensures
        step_views(steps@) == add_steps(
            wanted_routes(cfg, true),
            if_name@,
            gateway_of(cfg, true),
            None,
            true,
            resolved,
        ) + add_steps(
            wanted_routes(cfg, false),
            if_name@,
            gateway_of(cfg, false),
            None,
            false,
            resolved,
        ),
        text::str_views(final(state).routes_v4@) == text::str_views(old(state).routes_v4@)
            + wanted_routes(cfg, true),
        text::str_views(final(state).routes_v6@) == text::str_views(old(state).routes_v6@)
            + wanted_routes(cfg, false),
        final(state).exclude_routes_v4 == old(state).exclude_routes_v4,
        final(state).exclude_routes_v6 == old(state).exclude_routes_v6,
        final(state).rule_priorities == old(state).rule_priorities,
        final(state).wfp_session == old(state).wfp_session,
        final(state).monitor_id == old(state).monitor_id,
{
    let mut steps: Vec<RouteStep> = Vec::new();
    let ghost old_v4 = text::str_views(state.routes_v4@);
    let ghost old_v6 = text::str_views(state.routes_v6@);
    let ghost a = add_steps(
        wanted_routes(cfg, true),
        if_name@,
        gateway_of(cfg, true),
        None,
        true,
        resolved,
    );
    let ghost b = add_steps(
        wanted_routes(cfg, false),
        if_name@,
        gateway_of(cfg, false),
        None,
        false,
        resolved,
    );
    assert(step_views(steps@) =~= Seq::<RouteStepView>::empty());
    if any_version(&cfg.address, true) {
        let mut r: Vec<String> = tun_routes_v4(cfg);
        push_additions(&mut steps, &r, if_name, gateway(cfg, true), None, true, resolved);
        state.routes_v4.append(&mut r);
    }
    assert(step_views(steps@) =~= a);
    assert(text::str_views(state.routes_v4@) =~= old_v4 + wanted_routes(cfg, true));
    if any_version(&cfg.address, false) {
        let mut r: Vec<String> = tun_routes_v6(cfg);
        push_additions(&mut steps, &r, if_name, gateway(cfg, false), None, false, resolved);
        state.routes_v6.append(&mut r);
    }
    assert(step_views(steps@) =~= a + b);
    assert(text::str_views(state.routes_v6@) =~= old_v6 + wanted_routes(cfg, false));
    steps
}

/// The excluded prefixes of one IP version that are led past the device: those
/// of the settings, where the device has an address of that version and the
/// system a gateway.
pub open spec fn wanted_excludes(cfg: &TunInboundConfig, v4: bool, gateway: bool) -> Seq<
    Seq<char>,
> {
    macos::wanted(
        macos::exclude_routes(cfg, v4),
        gateway && routes::has_version(text::str_views(cfg.address@), v4),
    )
}

/// The steps that lead excluded prefixes of one IP version past the device.
pub open spec fn exclude_steps(
    cfg: &TunInboundConfig,
    if_name: Seq<char>,
    gateway: Option<IpAddr>,
    v4: bool,
    resolved: bool,
) -> Seq<RouteStepView> {
    match gateway {
        Some(gw) => add_steps(
            wanted_excludes(cfg, v4, true),
            if_name,
            gw,
            Some(gw),
            v4,
            resolved,
        ),
        None => Seq::empty(),
    }
}

pub open spec fn ip_v4(gw: Option<Ipv4Addr>) -> Option<IpAddr> {
    match gw {
        Some(ip) => Some(IpAddr::V4(ip)),
        None => None,
    }
}

pub open spec fn ip_v6(gw: Option<Ipv6Addr>) -> Option<IpAddr> {
    match gw {
        Some(ip) => Some(IpAddr::V6(ip)),
        None => None,
    }
}

/// The steps that lead excluded prefixes past the device, through the gateways
/// that the system names.
pub fn add_exclude_routes(
    cfg: &TunInboundConfig,
    if_name: &str,
    resolved: bool,
    gateway_v4: Option<Ipv4Addr>,
    gateway_v6: Option<Ipv6Addr>,
    state: &mut SetupState,
) -> (steps: Vec<RouteStep>)
    ensures
        step_views(steps@) == exclude_steps(cfg, if_name@, ip_v4(gateway_v4), true, resolved)
            + exclude_steps(cfg, if_name@, ip_v6(gateway_v6), false, resolved),
        text::str_views(final(state).exclude_routes_v4@) == text::str_views(
            old(state).exclude_routes_v4@,
        ) + wanted_excludes(cfg, true, gateway_v4 is Some),
        text::str_views(final(state).exclude_routes_v6@) == text::str_views(
            old(state).exclude_routes_v6@,
        ) + wanted_excludes(cfg, false, gateway_v6 is Some),
        final(state).routes_v4 == old(state).routes_v4,
        final(state).routes_v6 == old(state).routes_v6,
        final(state).rule_priorities == old(state).rule_priorities,
        final(state).wfp_session == old(state).wfp_session,
        final(state).monitor_id == old(state).monitor_id,
{
    let mut steps: Vec<RouteStep> = Vec::new();
    let ghost old_v4 = text::str_views(state.exclude_routes_v4@);
    let ghost old_v6 = text::str_views(state.exclude_routes_v6@);
    let ghost a = exclude_steps(cfg, if_name@, ip_v4(gateway_v4), true, resolved);
    let ghost b = exclude_steps(cfg, if_name@, ip_v6(gateway_v6), false, resolved);
    assert(step_views(steps@) =~= Seq::<RouteStepView>::empty());
    if any_version(&cfg.address, true) {
        if let Some(ip) = gateway_v4 {
            let gw: IpAddr = IpAddr::V4(ip);
            let mut r: Vec<String> = exclude_routes_v4(cfg);
            push_additions(&mut steps, &r, if_name, gw, Some(gw), true, resolved);
            state.exclude_routes_v4.append(&mut r);
        }
    }
    assert(step_views(steps@) =~= a);
    assert(text::str_views(state.exclude_routes_v4@) =~= old_v4 + wanted_excludes(
        cfg,
        true,
        gateway_v4 is Some,
    ));
    if any_version(&cfg.address, false) {
        if let Some(ip) = gateway_v6 {
            let gw: IpAddr = IpAddr::V6(ip);
            let mut r: Vec<String> = exclude_routes_v6(cfg);
            push_additions(&mut steps, &r, if_name, gw, Some(gw), false, resolved);
            state.exclude_routes_v6.append(&mut r);
        }
    }
    assert(step_views(steps@) =~= a + b);
    assert(text::str_views(state.exclude_routes_v6@) =~= old_v6 + wanted_excludes(
        cfg,
        false,
        gateway_v6 is Some,
    ));
    steps
}

/// One address of the device: a system call, and the command line that stands
/// in for it.
#[derive(Debug)]
pub struct AddressStep {
    pub ip: IpAddr,
    pub prefix_len: u8,
    pub fallback: Vec<String>,
}

/// What an address step does.
pub struct AddressStepView {
    pub ip: IpAddr,
    pub prefix_len: u8,
    pub fallback: Seq<Seq<char>>,
}

impl View for AddressStep {
    type V = AddressStepView;

    open spec fn view(&self) -> AddressStepView {
        AddressStepView {
            ip: self.ip,
            prefix_len: self.prefix_len,
            fallback: text::str_views(self.fallback@),
        }
    }
}

pub open spec fn address_views(v: Seq<AddressStep>) -> Seq<AddressStepView> {
    Seq::new(v.len(), |k: int| v[k]@)
}

/// The step that gives the device an address.
pub open spec fn address_step(ip: IpAddr, prefix_len: u8, if_name: Seq<char>) -> AddressStepView {
    AddressStepView {
        ip,
        prefix_len,
        fallback: match ip {
            IpAddr::V4(_) => seq![
                "netsh"@,
                "interface"@,
                "ipv4"@,
                "set"@,
                "address"@,
                "name"@,
                if_name,
                "static"@,
                render::ip_text(ip),
                render::v4_text(0x1_0000_0000 - addr::block_size(prefix_len as int, 32)),
            ],
            IpAddr::V6(_) => seq![
                "netsh"@,
                "interface"@,
                "ipv6"@,
                "add"@,
                "address"@,
                if_name,
                render::prefix_text(ip, prefix_len as int),
            ],
        },
    }
}

/// The addresses of one IP version among the texts.
pub open spec fn addresses_of(s: Seq<Seq<char>>, v4: bool, if_name: Seq<char>) -> Seq<
    AddressStepView,
>
    decreases s.len(),
{
    if s.len() == 0 {
        Seq::empty()
    } else {
        let before = addresses_of(s.drop_last(), v4, if_name);
        match cidr_of(s.last(), v4) {
            Some(p) => before.push(address_step(p.0, p.1, if_name)),
            None => before,
        }
    }
}

fn give_address(ip: IpAddr, prefix_len: u8, if_name: &str) -> (step: AddressStep)
    requires
        ip is V4 ==> prefix_len <= 32,
    ensures
        step@ == address_step(ip, prefix_len, if_name@),
{
    let ip_text: String = ip_string(ip);
    let fallback: Vec<String> = match ip {
        IpAddr::V4(_) => {
            let mask: String = v4_string(prefix_len_to_mask_v4(prefix_len));
            proof {
                addr::lemma_block_v4(prefix_len as int);
            }
            let w: Vec<&str> = vec![
                "netsh",
                "interface",
                "ipv4",
                "set",
                "address",
                "name",
                if_name,
                "static",
                ip_text.as_str(),
                mask.as_str(),
            ];
            assert(command::words(w@) =~= address_step(ip, prefix_len, if_name@).fallback);
            command(&w)
        },
        IpAddr::V6(_) => {
            let prefix: String = prefix_string(ip, prefix_len);
            let w: Vec<&str> = vec![
                "netsh",
                "interface",
                "ipv6",
                "add",
                "address",
                if_name,
                prefix.as_str(),
            ];
            assert(command::words(w@) =~= address_step(ip, prefix_len, if_name@).fallback);
            command(&w)
        },
    };
    AddressStep { ip, prefix_len, fallback }
}

fn push_addresses(steps: &mut Vec<AddressStep>, s: &Vec<String>, v4: bool, if_name: &str)
    ensures
        address_views(final(steps)@) == address_views(old(steps)@) + addresses_of(
            text::str_views(s@),
            v4,
            if_name@,
        ),
{
    let ghost before = address_views(steps@);
    let ghost texts = text::str_views(s@);
    let mut k: usize = 0;
    assert(texts.take(0) =~= Seq::<Seq<char>>::empty());
    assert(before + addresses_of(texts.take(0), v4, if_name@) =~= before);
    while k < s.len()
        invariant
            k <= s.len(),
            texts == text::str_views(s@),
            address_views(steps@) == before + addresses_of(texts.take(k as int), v4, if_name@),
        decreases s.len() - k,
    {
        let ghost so_far = address_views(steps@);
        assert(texts.take(k + 1).drop_last() =~= texts.take(k as int));
        assert(texts.take(k + 1).last() == s@[k as int]@);
        if let Some((ip, len)) = parse_addr_prefix(s[k].as_str()) {
            proof {
                text::lemma_addr_prefix_len(s@[k as int]@);
            }
            if ip.is_ipv4() == v4 {
                let step: AddressStep = give_address(ip, len, if_name);
                let ghost view = step@;
                steps.push(step);
                assert(address_views(steps@) =~= so_far.push(view));
            }
        }
        assert(address_views(steps@) =~= before + addresses_of(texts.take(k + 1), v4, if_name@));
        k += 1;
    }
    assert(texts.take(texts.len() as int) =~= texts);
}

/// The steps that give the device its addresses: the IPv4 ones first.
pub fn address_steps(cfg: &TunInboundConfig, if_name: &str) -> (steps: Vec<AddressStep>)
    ensures
        address_views(steps@) == addresses_of(text::str_views(cfg.address@), true, if_name@)
            + addresses_of(text::str_views(cfg.address@), false, if_name@),
{
    let mut steps: Vec<AddressStep> = Vec::new();
    let ghost a = addresses_of(text::str_views(cfg.address@), true, if_name@);
    assert(address_views(steps@) =~= Seq::<AddressStepView>::empty());
    push_addresses(&mut steps, &cfg.address, true, if_name);
    assert(address_views(steps@) =~= a);
    push_addresses(&mut steps, &cfg.address, false, if_name);
    steps
}

/// How the device's interface is set up for one IP version.
#[derive(Clone, Copy, Debug, PartialEq, Eq, Structural)]
pub struct InterfaceSettings {
    /// Packets of others are forwarded; where not set, as it was.
    pub forwarding: bool,
    /// Routers are looked for.
    pub router_discovery: bool,
    /// How often an address is asked for before it is used.
    pub dad_transmits: u32,
    /// Addresses and other settings are taken from a server.
    pub managed_config: bool,
    pub other_config: bool,
    pub mtu: u32,
    /// The metric; where there is none, the system chooses it.
    pub metric: Option<u32>,
}

/// How the device's interface is set up: nothing is taken from the network,
/// addresses can be used at once, and with automatic routes its metric is the
/// best.
pub fn configure_interface(mtu: u32, auto_route: bool, set_forwarding: bool) -> (s:
    InterfaceSettings)
    ensures
        s == (InterfaceSettings {
            forwarding: set_forwarding,
            router_discovery: false,
            dad_transmits: 0,
            managed_config: false,
            other_config: false,
            mtu,
            metric: if auto_route {
                Some(0)
            } else {
                None
            },
        }),
{
    InterfaceSettings {
        forwarding: set_forwarding,
        router_discovery: false,
        dad_transmits: 0,
        managed_config: false,
        other_config: false,
        mtu,
        metric: if auto_route {
            Some(0)
        } else {
            None
        },
    }
}

/// The name servers of the device's interface.
pub open spec fn servers_of(cfg: &TunInboundConfig) -> Seq<IpAddr> {
    let s = text::str_views(cfg.address@);
    (match server_v4(s, 0) {
        Some(ip) => seq![IpAddr::V4(ip)],
        None => Seq::empty(),
    }) + (match server_v6(s, 0) {
        Some(ip) => seq![IpAddr::V6(ip)],
        None => Seq::empty(),
    })
}

/// The name servers of the device's interface.
pub fn dns_servers(cfg: &TunInboundConfig) -> (v: Vec<IpAddr>)
    ensures
        v@ == servers_of(cfg),
{
    let mut v: Vec<IpAddr> = Vec::new();
    if let Some(ip) = server_addr_v4(cfg) {
        v.push(IpAddr::V4(ip));
    }
    if let Some(ip) = server_addr_v6(cfg) {
        v.push(IpAddr::V6(ip));
    }
    assert(v@ =~= servers_of(cfg));
    v
}

/// Addresses with commas between them.
pub open spec fn comma_list(ips: Seq<IpAddr>) -> Seq<char>
    decreases ips.len(),
{
    if ips.len() == 0 {
        Seq::empty()
    } else if ips.len() == 1 {
        render::ip_text(ips[0])
    } else {
        comma_list(ips.drop_last()) + ","@ + render::ip_text(ips.last())
    }
}

/// Writes addresses with commas between them.
pub fn server_list(ips: &[IpAddr]) -> (s: String)
    ensures
        s@ == comma_list(ips@),
{
    let mut s: String = "".to_owned();
    proof {
        reveal_strlit("");
    }
    let mut k: usize = 0;
    assert(s@ =~= comma_list(ips@.take(0)));
    while k < ips.len()
        invariant
            k <= ips.len(),
            s@ == comma_list(ips@.take(k as int)),
        decreases ips.len() - k,
    {
        assert(ips@.take(k + 1).drop_last() =~= ips@.take(k as int));
        assert(ips@.take(k + 1).last() == ips@[k as int]);
        let ghost before = s@;
        if k > 0 {
            s.append(",");
        }
        s.append(ip_string(ips[k]).as_str());
        assert(s@ =~= comma_list(ips@.take(k + 1)));
        k += 1;
    }
    assert(ips@.take(ips@.len() as int) =~= ips@);
    s
}

/// The command line that runs a script.
pub open spec fn script_line(script: Seq<char>) -> Seq<Seq<char>> {
    seq!["powershell"@, "-NoProfile"@, "-NonInteractive"@, "-Command"@, script]
}

fn script_command(script: &str) -> (c: Vec<String>)
    ensures
        text::str_views(c@) == script_line(script@),
{
    let w: Vec<&str> = vec!["powershell", "-NoProfile", "-NonInteractive", "-Command", script];
    assert(command::words(w@) =~= script_line(script@));
    command(&w)
}

/// The command line that sets an interface's name servers, where the system
/// call fails.
pub fn dns_command(index: u32, servers: &[IpAddr]) -> (c: Vec<String>)
    ensures
        text::str_views(c@) == script_line(
            "Set-DnsClientServerAddress -InterfaceIndex "@ + render::dec_text(index as int)
                + " -ServerAddresses ('"@ + comma_list(servers@)
                + "' -split ',') -ErrorAction Stop"@,
        ),
{
    let mut s: String = "Set-DnsClientServerAddress -InterfaceIndex ".to_owned();
    s.append(dec_string(index as u64).as_str());
    s.append(" -ServerAddresses ('");
    s.append(server_list(servers).as_str());
    s.append("' -split ',') -ErrorAction Stop");
    script_command(s.as_str())
}

/// What is asked about the system's default route.
#[derive(Clone, Copy, Debug, PartialEq, Eq, Structural)]
pub enum RouteProperty {
    InterfaceIndex,
    NextHop,
}

/// The script that asks for a property of the default route.
pub open spec fn default_route_script(v4: bool, property: RouteProperty) -> Seq<char> {
    "(Get-NetRoute -DestinationPrefix '"@ + (if v4 {
        "0.0.0.0/0"@
    } else {
        "::/0"@
    })
        + "' -ErrorAction SilentlyContinue | Sort-Object RouteMetric | Select-Object -First 1)."@
        + (match property {
        RouteProperty::InterfaceIndex => "InterfaceIndex"@,
        RouteProperty::NextHop => "NextHop"@,
    })
}

/// The command line that asks for a property of the default route.
pub fn default_route_query(v4: bool, property: RouteProperty) -> (c: Vec<String>)
    ensures
        text::str_views(c@) == script_line(default_route_script(v4, property)),
{
    let mut s: String = "(Get-NetRoute -DestinationPrefix '".to_owned();
    s.append(
        if v4 {
            "0.0.0.0/0"
        } else {
            "::/0"
        },
    );
    s.append(
        "' -ErrorAction SilentlyContinue | Sort-Object RouteMetric | Select-Object -First 1).",
    );
    s.append(
        match property {
            RouteProperty::InterfaceIndex => "InterfaceIndex",
            RouteProperty::NextHop => "NextHop",
        },
    );
    script_command(s.as_str())
}

/// The script that asks for an interface's first IPv4 address.
pub open spec fn interface_address_script(index: u32) -> Seq<char> {
    "(Get-NetIPAddress -InterfaceIndex "@ + render::dec_text(index as int)
        + " -AddressFamily IPv4 -ErrorAction SilentlyContinue | Select-Object -First 1).IPAddress"@
}

/// The command line that asks for an interface's first IPv4 address.
pub fn interface_address_query(index: u32) -> (c: Vec<String>)
    ensures
        text::str_views(c@) == script_line(interface_address_script(index)),
{
    let mut s: String = "(Get-NetIPAddress -InterfaceIndex ".to_owned();
    s.append(dec_string(index as u64).as_str());
    s.append(
        " -AddressFamily IPv4 -ErrorAction SilentlyContinue | Select-Object -First 1).IPAddress",
    );
    script_command(s.as_str())
}

/// The script that asks for a property of an adapter.
pub open spec fn adapter_script(if_name: Seq<char>, index: bool) -> Seq<char> {
    "(Get-NetAdapter -Name '"@ + if_name + "' -ErrorAction SilentlyContinue)."@ + (if index {
        "ifIndex"@
    } else {
        "Name"@
    })
}

/// The command line that asks for an adapter's index or name.
pub fn adapter_query(if_name: &str, index: bool) -> (c: Vec<String>)
    ensures
        text::str_views(c@) == script_line(adapter_script(if_name@, index)),
{
    let mut s: String = "(Get-NetAdapter -Name '".to_owned();
    s.append(if_name);
    s.append("' -ErrorAction SilentlyContinue).");
    s.append(
        if index {
            "ifIndex"
        } else {
            "Name"
        },
    );
    script_command(s.as_str())
}

/// Reads an interface index from an answer.
pub fn parse_index(output: &str) -> (r: Option<u32>)
    ensures
        match r {
            Some(n) => text::number(text::trim(output@), u32::MAX as int) == Some(n as int),
            None => text::number(text::trim(output@), u32::MAX as int) is None,
        },
{
    let c: Vec<char> = chars_of(output);
    parse_number(trimmed(c.as_slice()), u32::MAX)
}

/// Reads an IPv4 gateway from an answer.
pub fn get_default_gateway_v4(output: &str) -> (r: Option<Ipv4Addr>)
    ensures
        match r {
            Some(ip) => text::ipv4_of(text::trim(output@)) == Some(ip.bits as int),
            None => text::ipv4_of(text::trim(output@)) is None,
        },
{
    let c: Vec<char> = chars_of(output);
    match parse_ipv4(trimmed(c.as_slice())) {
        Some(bits) => Some(Ipv4Addr { bits }),
        None => None,
    }
}

/// Reads an IPv6 gateway from an answer.
pub fn get_default_gateway_v6(output: &str) -> (r: Option<Ipv6Addr>)
    ensures
        match r {
            Some(ip) => text::ipv6_of(text::trim(output@)) == Some(ip.bits as int),
            None => text::ipv6_of(text::trim(output@)) is None,
        },
{
    let c: Vec<char> = chars_of(output);
    match parse_ipv6(trimmed(c.as_slice())) {
        Some(bits) => Some(Ipv6Addr { bits }),
        None => None,
    }
}

/// Reads a text from an answer: what stands between white space, if anything.
pub fn answered_text(output: &str) -> (r: Option<String>)
    ensures
        match r {
            Some(s) => s@ == text::trim(output@) && s@.len() > 0,
            None => text::trim(output@).len() == 0,
        },
{
    let c: Vec<char> = chars_of(output);
    let t: &[char] = trimmed(c.as_slice());
    if t.len() == 0 {
        None
    } else {
        Some(string_of(t))
    }
}

/// What to do after a look at the adapter's name.
pub enum NameStep {
    Found(String),
    Again,
}

/// The adapter's name after look `attempt`, if it is settled.
pub open spec fn named_adapter(expected: Seq<char>, attempt: int, output: Option<&str>) -> Option<
    Seq<char>,
> {
    if output is Some && text::trim(output->0@).len() > 0 {
        Some(text::trim(output->0@))
    } else if attempt + 1 >= NAME_ATTEMPTS {
        Some(expected)
    } else {
        None
    }
}

/// Whether the interface is looked for once more after look `attempt`.
pub open spec fn looked_for(attempt: int, output: Option<&str>) -> bool {
    &&& attempt + 1 < INTERFACE_ATTEMPTS
    &&& output is None || text::number(text::trim(output->0@), u32::MAX as int) is None
}

/// Decides the adapter's name after look `attempt`: what was answered, another
/// look, or after the last one the name that was expected.
pub fn resolve_actual_interface_name(expected: &str, attempt: u32, output: Option<&str>) -> (r:
    NameStep)
    ensures
        match r {
            NameStep::Found(s) => if output is Some && text::trim(output->0@).len() > 0 {
                s@ == text::trim(output->0@)
            } else {
                s@ == expected@ && attempt + 1 >= NAME_ATTEMPTS
            },
            NameStep::Again => (output is None || text::trim(output->0@).len() == 0) && attempt + 1
                < NAME_ATTEMPTS,
        },
        match r {
            NameStep::Found(s) => named_adapter(expected@, attempt as int, output) == Some(s@),
            NameStep::Again => named_adapter(expected@, attempt as int, output) is None,
        },
{
    if let Some(out) = output {
        if let Some(name) = answered_text(out) {
            return NameStep::Found(name);
        }
    }
    if attempt < NAME_ATTEMPTS - 1 {
        NameStep::Again
    } else {
        NameStep::Found(expected.to_owned())
    }
}

/// Whether to look for the device's interface again after look `attempt`.
pub fn wait_for_interface(attempt: u32, output: Option<&str>) -> (again: bool)
    ensures
        again <==> attempt + 1 < INTERFACE_ATTEMPTS && !(output is Some && text::number(
            text::trim(output->0@),
            u32::MAX as int,
        ) is Some),
        again == looked_for(attempt as int, output),
{
    if let Some(out) = output {
        if parse_index(out).is_some() {
            return false;
        }
    }
    attempt < INTERFACE_ATTEMPTS - 1
}

/// Whether to try the device's address again after try `attempt`.
pub fn wait_for_tun_address(attempt: u32, bound: bool) -> (again: bool)
    ensures
        again <==> !bound && attempt + 1 < ADDRESS_ATTEMPTS,
{
    !bound && attempt < ADDRESS_ATTEMPTS - 1
}

/// The names of firewall rules that stand in the way of the filters.
pub open spec fn legacy_rules() -> Seq<Seq<char>> {
    seq![
        "reflex-tun-strict-allow-v4"@,
        "reflex-tun-strict-allow-v6"@,
        "reflex-tun-strict-allow-tun-v4"@,
        "reflex-tun-strict-block-tun-v4"@,
        "reflex-tun-strict-block-v4"@,
        "reflex-tun-strict-block-v6"@,
        "reflex-tun-strict-allow-udp"@,
        "reflex-tun-strict-allow-tcp"@,
        "reflex-tun-strict-allow-tun"@,
        "reflex-tun-strict-block-udp"@,
        "reflex-tun-strict-block-tcp"@,
        "reflex-tun-strict-block-tun"@,
    ]
}

/// The command line that deletes a firewall rule.
pub open spec fn delete_rule_line(name: Seq<char>) -> Seq<Seq<char>> {
    seq!["netsh"@, "advfirewall"@, "firewall"@, "delete"@, "rule"@, "name="@ + name]
}

/// The command lines that delete such rules.
pub open spec fn legacy_lines() -> Seq<Seq<Seq<char>>> {
    Seq::new(legacy_rules().len(), |k: int| delete_rule_line(legacy_rules()[k]))
}

/// The command lines that delete such rules.
pub fn legacy_rule_commands() -> (commands: Vec<Vec<String>>)
    ensures
        command::lines(commands@) == legacy_lines(),
{
    let names: Vec<&str> = vec![
        "reflex-tun-strict-allow-v4",
        "reflex-tun-strict-allow-v6",
        "reflex-tun-strict-allow-tun-v4",
        "reflex-tun-strict-block-tun-v4",
        "reflex-tun-strict-block-v4",
        "reflex-tun-strict-block-v6",
        "reflex-tun-strict-allow-udp",
        "reflex-tun-strict-allow-tcp",
        "reflex-tun-strict-allow-tun",
        "reflex-tun-strict-block-udp",
        "reflex-tun-strict-block-tcp",
        "reflex-tun-strict-block-tun",
    ];
    assert(command::words(names@) =~= legacy_rules());
    let mut commands: Vec<Vec<String>> = Vec::new();
    let mut k: usize = 0;
    assert(command::lines(commands@) =~= legacy_lines().take(0));
    while k < names.len()
        invariant
            k <= names.len(),
            command::words(names@) == legacy_rules(),
            command::lines(commands@) == legacy_lines().take(k as int),
        decreases names.len() - k,
    {
        assert(legacy_rules()[k as int] == names@[k as int]@);
        let mut name: String = "name=".to_owned();
        name.append(names[k]);
        let w: Vec<&str> = vec![
            "netsh",
            "advfirewall",
            "firewall",
            "delete",
            "rule",
            name.as_str(),
        ];
        assert(command::words(w@) =~= legacy_lines()[k as int]);
        push_words(&mut commands, &w);
        assert(legacy_lines().take(k + 1) =~= legacy_lines().take(k as int).push(
            legacy_lines()[k as int],
        ));
        k += 1;
    }
    assert(legacy_lines().take(k as int) =~= legacy_lines());
    commands
}

/// The command line that makes the system forget what it resolved.
pub fn flush_dns_command() -> (c: Vec<String>)
    ensures
        text::str_views(c@) == seq!["ipconfig"@, "/flushdns"@],
{
    let w: Vec<&str> = vec!["ipconfig", "/flushdns"];
    assert(command::words(w@) =~= seq!["ipconfig"@, "/flushdns"@]);
    command(&w)
}

/// The steps that delete the routes into the device. `resolved` tells whether
/// the system knows the device's interface.
pub fn teardown(cfg: &TunInboundConfig, if_name: &str, state: &SetupState, resolved: bool) -> (steps:
    Vec<RouteStep>)
    ensures
        step_views(steps@) == delete_steps(
            text::str_views(state.routes_v4@),
            if_name@,
            Some(gateway_of(cfg, true)),
            true,
            resolved,
        ) + delete_steps(
            text::str_views(state.routes_v6@),
            if_name@,
            Some(gateway_of(cfg, false)),
            false,
            resolved,
        ),
{
    let mut steps: Vec<RouteStep> = Vec::new();
    let ghost a = delete_steps(
        text::str_views(state.routes_v4@),
        if_name@,
        Some(gateway_of(cfg, true)),
        true,
        resolved,
    );
    assert(step_views(steps@) =~= Seq::<RouteStepView>::empty());
    push_deletions(&mut steps, &state.routes_v4, if_name, Some(gateway(cfg, true)), true, resolved);
    assert(step_views(steps@) =~= a);
    push_deletions(
        &mut steps,
        &state.routes_v6,
        if_name,
        Some(gateway(cfg, false)),
        false,
        resolved,
    );
    steps
}

/// The steps that delete the routes past the device, through the gateways that
/// the system names.
pub fn teardown_excluded(
    if_name: &str,
    state: &SetupState,
    resolved: bool,
    gateway_v4: Option<Ipv4Addr>,
    gateway_v6: Option<Ipv6Addr>,
) -> (steps: Vec<RouteStep>)
    ensures
        step_views(steps@) == delete_steps(
            text::str_views(state.exclude_routes_v4@),
            if_name@,
            ip_v4(gateway_v4),
            true,
            resolved,
        ) + delete_steps(
            text::str_views(state.exclude_routes_v6@),
            if_name@,
            ip_v6(gateway_v6),
            false,
            resolved,
        ),
{
    let mut steps: Vec<RouteStep> = Vec::new();
    let gw_v4: Option<IpAddr> = match gateway_v4 {
        Some(ip) => Some(IpAddr::V4(ip)),
        None => None,
    };
    let gw_v6: Option<IpAddr> = match gateway_v6 {
        Some(ip) => Some(IpAddr::V6(ip)),
        None => None,
    };
    let ghost a = delete_steps(
        text::str_views(state.exclude_routes_v4@),
        if_name@,
        ip_v4(gateway_v4),
        true,
        resolved,
    );
    assert(step_views(steps@) =~= Seq::<RouteStepView>::empty());
    push_deletions(&mut steps, &state.exclude_routes_v4, if_name, gw_v4, true, resolved);
    assert(step_views(steps@) =~= a);
    push_deletions(&mut steps, &state.exclude_routes_v6, if_name, gw_v6, false, resolved);
    steps
}

/// Whether the embedded driver has to be written: no file of its size is there.
pub fn must_write_driver(existing: Option<u64>, size: u64) -> (r: bool)
    ensures
        r <==> existing != Some(size),
{
    match existing {
        Some(n) => n != size,
        None => true,
    }
}

/// Every route that the setup adds by a call is deleted by a call with the same
/// destination, prefix length and gateway.
pub proof fn law_deleted_as_added(
    cfg: &TunInboundConfig,
    if_name: Seq<char>,
    v4: bool,
    k: int,
)
    requires
        0 <= k < wanted_routes(cfg, v4).len(),
    ensures
        delete_steps(
            wanted_routes(cfg, v4),
            if_name,
            Some(gateway_of(cfg, v4)),
            v4,
            true,
        )[k].native == add_steps(
            wanted_routes(cfg, v4),
            if_name,
            gateway_of(cfg, v4),
            None,
            v4,
            true,
        )[k].native,
{
}

} // verus!
