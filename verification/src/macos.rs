//! Setting up and taking down a device on macOS: the command lines that route
//! traffic into it, and what the system's answers say.
use vstd::arithmetic::div_mod;
use vstd::arithmetic::power2;
use vstd::prelude::*;

use crate::addr;
use crate::addr::{IpAddr, Ipv4Addr, Ipv6Addr};
use crate::command;
use crate::command::{command, extend, push_line, push_words};
use crate::config::TunInboundConfig;
use crate::platform::SetupState;
use crate::render;
use crate::render::{ip_string, prefix_string};
use crate::routes;
use crate::routes::{any_version, keep_version};
use crate::text;
use crate::text::{chars_of, find_char, parse_ip_chars, split_on, string_of, trimmed};

verus! {

/// The prefixes that stand for all IPv4 addresses: the system's default route
/// stays, and these are more specific.
pub open spec fn sub_range_v4(k: int) -> (int, int) {
    if k == 0 {
        (0x0100_0000, 8)
    } else if k == 1 {
        (0x0200_0000, 7)
    } else if k == 2 {
        (0x0400_0000, 6)
    } else if k == 3 {
        (0x0800_0000, 5)
    } else if k == 4 {
        (0x1000_0000, 4)
    } else if k == 5 {
        (0x2000_0000, 3)
    } else if k == 6 {
        (0x4000_0000, 2)
    } else {
        (0x8000_0000, 1)
    }
}

pub open spec fn sub_range_v6(k: int) -> (int, int) {
    (sub_range_v4(k).0 * 0x1_0000_0000_0000_0000_0000_0000, sub_range_v4(k).1)
}

/// The texts of those prefixes.
pub open spec fn sub_range_texts(v4: bool) -> Seq<Seq<char>> {
    Seq::new(
        8,
        |k: int|
            if v4 {
                render::prefix_text(
                    IpAddr::V4(Ipv4Addr { bits: sub_range_v4(k).0 as u32 }),
                    sub_range_v4(k).1,
                )
            } else {
                render::prefix_text(
                    IpAddr::V6(Ipv6Addr { bits: sub_range_v6(k).0 as u128 }),
                    sub_range_v6(k).1,
                )
            },
    )
}

fn sub_ranges(v4: bool) -> (v: Vec<String>)
    ensures
        text::str_views(v@) == sub_range_texts(v4),
{
    let mut v: Vec<String> = Vec::new();
    let mut bits: u32 = 0x0100_0000;
    let mut len: u8 = 8;
    let mut k: usize = 0;
    while k < 8
        invariant
            k <= 8,
            v@.len() == k,
            k < 8 ==> bits == sub_range_v4(k as int).0,
            k < 8 ==> len == sub_range_v4(k as int).1,
            forall|j: int| 0 <= j < k ==> (#[trigger] v@[j])@ == sub_range_texts(v4)[j],
        decreases 8 - k,
    {
        let s: String = if v4 {
            prefix_string(IpAddr::V4(Ipv4Addr { bits }), len)
        } else {
            prefix_string(
                IpAddr::V6(Ipv6Addr { bits: bits as u128 * 0x1_0000_0000_0000_0000_0000_0000 }),
                len,
            )
        };
        v.push(s);
        k += 1;
        if k < 8 {
            bits = bits * 2;
            len = len - 1;
        }
    }
    assert(text::str_views(v@) =~= sub_range_texts(v4));
    v
}

/// The routes into the device: the prefixes of this IP version that the
/// settings name, or those that stand for all addresses.
pub open spec fn tun_routes(cfg: &TunInboundConfig, v4: bool) -> Seq<Seq<char>> {
    if cfg.route_address@.len() > 0 {
        routes::texts_of_version(text::str_views(cfg.route_address@), v4)
    } else {
        sub_range_texts(v4)
    }
}

pub fn tun_routes_v4(cfg: &TunInboundConfig) -> (v: Vec<String>)
    ensures
        text::str_views(v@) == tun_routes(cfg, true),
{
    if cfg.route_address.len() > 0 {
        keep_version(&cfg.route_address, true)
    } else {
        sub_ranges(true)
    }
}

pub fn tun_routes_v6(cfg: &TunInboundConfig) -> (v: Vec<String>)
    ensures
        text::str_views(v@) == tun_routes(cfg, false),
{
    if cfg.route_address.len() > 0 {
        keep_version(&cfg.route_address, false)
    } else {
        sub_ranges(false)
    }
}

/// The prefixes of this IP version that are kept out of the device.
pub open spec fn exclude_routes(cfg: &TunInboundConfig, v4: bool) -> Seq<Seq<char>> {
    routes::texts_of_version(text::str_views(cfg.route_exclude_address@), v4)
}

pub fn exclude_routes_v4(cfg: &TunInboundConfig) -> (v: Vec<String>)
    ensures
        text::str_views(v@) == exclude_routes(cfg, true),
{
    keep_version(&cfg.route_exclude_address, true)
}

pub fn exclude_routes_v6(cfg: &TunInboundConfig) -> (v: Vec<String>)
    ensures
        text::str_views(v@) == exclude_routes(cfg, false),
{
    keep_version(&cfg.route_exclude_address, false)
}

/// The text holds a colon: it is an IPv6 prefix.
pub open spec fn has_colon(s: Seq<char>) -> bool {
    text::first_at(s, ':', 0) is Some
}

/// The command line that adds a route, through a gateway or an interface.
pub open spec fn add_route_line(
    dst: Seq<char>,
    gateway: Option<IpAddr>,
    if_name: Option<Seq<char>>,
) -> Seq<Seq<char>> {
    seq!["route"@, "-n"@, "add"@] + (if has_colon(dst) {
        seq!["-inet6"@]
    } else {
        Seq::empty()
    }) + seq!["-net"@, dst] + (match gateway {
        Some(gw) => seq![render::ip_text(gw)],
        None => Seq::empty(),
    }) + (match if_name {
        Some(name) => seq!["-interface"@, name],
        None => Seq::empty(),
    })
}

pub open spec fn name_view(name: Option<&str>) -> Option<Seq<char>> {
    match name {
        Some(s) => Some(s@),
        None => None,
    }
}

fn is_v6_text(s: &str) -> (r: bool)
    ensures
        r == has_colon(s@),
{
    let c: Vec<char> = chars_of(s);
    find_char(c.as_slice(), ':').is_some()
}

/// The command line that adds a route.
pub fn add_route(dst: &str, gateway: Option<IpAddr>, if_name: Option<&str>) -> (c: Vec<String>)
    ensures
        text::str_views(c@) == add_route_line(dst@, gateway, name_view(if_name)),
{
    let head: Vec<&str> = vec!["route", "-n", "add"];
    assert(command::words(head@) =~= seq!["route"@, "-n"@, "add"@]);
    let mut c: Vec<String> = command(&head);
    if is_v6_text(dst) {
        let w: Vec<&str> = vec!["-inet6"];
        assert(command::words(w@) =~= seq!["-inet6"@]);
        extend(&mut c, &w);
    }
    let net: Vec<&str> = vec!["-net", dst];
    assert(command::words(net@) =~= seq!["-net"@, dst@]);
    extend(&mut c, &net);
    if let Some(gw) = gateway {
        let s: String = ip_string(gw);
        let w: Vec<&str> = vec![s.as_str()];
        assert(command::words(w@) =~= seq![render::ip_text(gw)]);
        extend(&mut c, &w);
    }
    if let Some(name) = if_name {
        let w: Vec<&str> = vec!["-interface", name];
        assert(command::words(w@) =~= seq!["-interface"@, name@]);
        extend(&mut c, &w);
    }
    assert(text::str_views(c@) =~= add_route_line(dst@, gateway, name_view(if_name)));
    c
}

/// The command line that deletes a route.
pub open spec fn delete_route_line(dst: Seq<char>) -> Seq<Seq<char>> {
    seq!["route"@, "-n"@, "delete"@] + (if has_colon(dst) {
        seq!["-inet6"@]
    } else {
        Seq::empty()
    }) + seq!["-net"@, dst]
}

/// The command line that deletes a route.
pub fn delete_route(dst: &str) -> (c: Vec<String>)
    ensures
        text::str_views(c@) == delete_route_line(dst@),
{
    let head: Vec<&str> = vec!["route", "-n", "delete"];
    assert(command::words(head@) =~= seq!["route"@, "-n"@, "delete"@]);
    let mut c: Vec<String> = command(&head);
    if is_v6_text(dst) {
        let w: Vec<&str> = vec!["-inet6"];
        assert(command::words(w@) =~= seq!["-inet6"@]);
        extend(&mut c, &w);
    }
    let net: Vec<&str> = vec!["-net", dst];
    assert(command::words(net@) =~= seq!["-net"@, dst@]);
    extend(&mut c, &net);
    assert(text::str_views(c@) =~= delete_route_line(dst@));
    c
}

/// The option that tells IPv4 from IPv6 prefixes.
pub open spec fn family_option(v4: bool) -> Seq<char> {
    if v4 {
        "-net"@
    } else {
        "-inet6"@
    }
}

/// The command line that routes a prefix into the device: by the routing
/// socket's way where there is one, else by the plain one.
pub open spec fn tun_route_line(cidr: Seq<char>, if_name: Seq<char>, v4: bool, socket: bool) -> Seq<
    Seq<char>,
> {
    if socket {
        add_route_line(cidr, None, Some(if_name))
    } else {
        seq!["route"@, "-n"@, "add"@, family_option(v4), cidr, "-interface"@, if_name]
    }
}

/// The command lines that route prefixes into the device.
pub open spec fn tun_route_lines(r: Seq<Seq<char>>, if_name: Seq<char>, v4: bool, socket: bool) -> Seq<
    Seq<Seq<char>>,
> {
    Seq::new(r.len(), |k: int| tun_route_line(r[k], if_name, v4, socket))
}

fn family_word(v4: bool) -> (s: &'static str)
    ensures
        s@ == family_option(v4),
{
    if v4 {
        "-net"
    } else {
        "-inet6"
    }
}

fn push_tun_routes(
    commands: &mut Vec<Vec<String>>,
    r: &Vec<String>,
    if_name: &str,
    v4: bool,
    socket: bool,
)
    ensures
        command::lines(final(commands)@) == command::lines(old(commands)@) + tun_route_lines(
            text::str_views(r@),
            if_name@,
            v4,
            socket,
        ),
{
    let ghost before = command::lines(commands@);
    let ghost all = tun_route_lines(text::str_views(r@), if_name@, v4, socket);
    let mut k: usize = 0;
    assert(before + all.take(0) =~= before);
    while k < r.len()
        invariant
            k <= r.len(),
            all == tun_route_lines(text::str_views(r@), if_name@, v4, socket),
            command::lines(commands@) == before + all.take(k as int),
        decreases r.len() - k,
    {
        let cidr: &str = r[k].as_str();
        if socket {
            let line: Vec<String> = add_route(cidr, None, Some(if_name));
            push_line(commands, line);
        } else {
            let w: Vec<&str> = vec![
                "route",
                "-n",
                "add",
                family_word(v4),
                cidr,
                "-interface",
                if_name,
            ];
            assert(command::words(w@) =~= all[k as int]);
            push_words(commands, &w);
        }
        assert(all.take(k + 1) =~= all.take(k as int).push(all[k as int]));
        assert(command::lines(commands@) =~= before + all.take(k + 1));
        k += 1;
    }
    assert(all.take(all.len() as int) =~= all);
}

pub open spec fn has_v4(cfg: &TunInboundConfig) -> bool {
    routes::has_version(text::str_views(cfg.address@), true)
}

pub open spec fn has_v6(cfg: &TunInboundConfig) -> bool {
    routes::has_version(text::str_views(cfg.address@), false)
}

/// Texts where they are wanted, else none.
pub open spec fn wanted(r: Seq<Seq<char>>, want: bool) -> Seq<Seq<char>> {
    if want {
        r
    } else {
        Seq::empty()
    }
}

/// The command lines that route traffic into the device, and what to remember
/// of them. `socket` tells whether a routing socket could be opened.
pub fn setup(cfg: &TunInboundConfig, if_name: &str, socket: bool) -> (r: (
    Vec<Vec<String>>,
    SetupState,
))
    ensures
        command::lines(r.0@) == tun_route_lines(
            wanted(tun_routes(cfg, true), has_v4(cfg)),
            if_name@,
            true,
            socket,
        ) + tun_route_lines(
            wanted(tun_routes(cfg, false), has_v6(cfg)),
            if_name@,
            false,
            socket,
        ),
        text::str_views(r.1.routes_v4@) == wanted(tun_routes(cfg, true), has_v4(cfg)),
        text::str_views(r.1.routes_v6@) == wanted(tun_routes(cfg, false), has_v6(cfg)),
        r.1.exclude_routes_v4@.len() == 0,
        r.1.exclude_routes_v6@.len() == 0,
        r.1.rule_priorities@.len() == 0,
        r.1.wfp_session == 0,
        r.1.monitor_id == 0,
{
    let mut state: SetupState = SetupState::default();
    let mut commands: Vec<Vec<String>> = Vec::new();
    assert(text::str_views(state.routes_v4@) =~= Seq::<Seq<char>>::empty());
    assert(text::str_views(state.routes_v6@) =~= Seq::<Seq<char>>::empty());
    if any_version(&cfg.address, true) {
        state.routes_v4 = tun_routes_v4(cfg);
    }
    if any_version(&cfg.address, false) {
        state.routes_v6 = tun_routes_v6(cfg);
    }
    assert(command::lines(commands@) =~= Seq::<Seq<Seq<char>>>::empty());
    push_tun_routes(&mut commands, &state.routes_v4, if_name, true, socket);
    push_tun_routes(&mut commands, &state.routes_v6, if_name, false, socket);
    assert(command::lines(commands@) =~= tun_route_lines(
        wanted(tun_routes(cfg, true), has_v4(cfg)),
        if_name@,
        true,
        socket,
    ) + tun_route_lines(wanted(tun_routes(cfg, false), has_v6(cfg)), if_name@, false, socket));
    (commands, state)
}

/// The command lines that lead excluded prefixes through a gateway.
pub open spec fn gateway_lines(r: Seq<Seq<char>>, gateway: Option<IpAddr>, v4: bool) -> Seq<
    Seq<Seq<char>>,
> {
    match gateway {
        Some(gw) => Seq::new(
            r.len(),
            |k: int| seq!["route"@, "-n"@, "add"@, family_option(v4), r[k], render::ip_text(gw)],
        ),
        None => Seq::empty(),
    }
}

fn push_gateway_routes(
    commands: &mut Vec<Vec<String>>,
    r: &Vec<String>,
    gateway: Option<IpAddr>,
    v4: bool,
)
    ensures
        command::lines(final(commands)@) == command::lines(old(commands)@) + gateway_lines(
            text::str_views(r@),
            gateway,
            v4,
        ),
{
    let ghost before = command::lines(commands@);
    let ghost all = gateway_lines(text::str_views(r@), gateway, v4);
    assert(before + all.take(0) =~= before);
    if let Some(gw) = gateway {
        let gw_text: String = ip_string(gw);
        let mut k: usize = 0;
        while k < r.len()
            invariant
                k <= r.len(),
                gateway == Some(gw),
                gw_text@ == render::ip_text(gw),
                all == gateway_lines(text::str_views(r@), gateway, v4),
                command::lines(commands@) == before + all.take(k as int),
            decreases r.len() - k,
        {
            let w: Vec<&str> = vec![
                "route",
                "-n",
                "add",
                family_word(v4),
                r[k].as_str(),
                gw_text.as_str(),
            ];
            assert(command::words(w@) =~= all[k as int]);
            push_words(commands, &w);
            assert(all.take(k + 1) =~= all.take(k as int).push(all[k as int]));
            assert(command::lines(commands@) =~= before + all.take(k + 1));
            k += 1;
        }
        assert(all.take(all.len() as int) =~= all);
    } else {
        assert(before + all =~= before);
    }
}

/// The command line that makes the system forget what it resolved.
pub open spec fn flush_line() -> Seq<Seq<char>> {
    seq!["dscacheutil"@, "-flushcache"@]
}

fn push_flush(commands: &mut Vec<Vec<String>>)
    ensures
        command::lines(final(commands)@) == command::lines(old(commands)@).push(flush_line()),
{
    let w: Vec<&str> = vec!["dscacheutil", "-flushcache"];
    assert(command::words(w@) =~= flush_line());
    push_words(commands, &w);
}

/// The command lines that lead excluded prefixes past the device, through the
/// gateways that the system had, and make it forget what it resolved.
pub fn setup_excluded(
    cfg: &TunInboundConfig,
    gateway_v4: Option<IpAddr>,
    gateway_v6: Option<IpAddr>,
) -> (commands: Vec<Vec<String>>)
    ensures
        command::lines(commands@) == (gateway_lines(
            wanted(exclude_routes(cfg, true), has_v4(cfg)),
            gateway_v4,
            true,
        ) + gateway_lines(
            wanted(exclude_routes(cfg, false), has_v6(cfg)),
            gateway_v6,
            false,
        )).push(flush_line()),
{
    let mut commands: Vec<Vec<String>> = Vec::new();
    let ghost a = gateway_lines(
        wanted(exclude_routes(cfg, true), has_v4(cfg)),
        gateway_v4,
        true,
    );
    let ghost b = gateway_lines(
        wanted(exclude_routes(cfg, false), has_v6(cfg)),
        gateway_v6,
        false,
    );
    assert(command::lines(commands@) =~= Seq::<Seq<Seq<char>>>::empty());
    if any_version(&cfg.address, true) {
        push_gateway_routes(&mut commands, &exclude_routes_v4(cfg), gateway_v4, true);
    }
    assert(command::lines(commands@) =~= a);
    if any_version(&cfg.address, false) {
        push_gateway_routes(&mut commands, &exclude_routes_v6(cfg), gateway_v6, false);
    }
    assert(command::lines(commands@) =~= a + b);
    push_flush(&mut commands);
    commands
}

/// The command lines that delete routes.
pub open spec fn delete_lines(r: Seq<Seq<char>>, v4: bool) -> Seq<Seq<Seq<char>>> {
    Seq::new(r.len(), |k: int| seq!["route"@, "-n"@, "delete"@, family_option(v4), r[k]])
}

fn push_deletions(commands: &mut Vec<Vec<String>>, r: &Vec<String>, v4: bool)
    ensures
        command::lines(final(commands)@) == command::lines(old(commands)@) + delete_lines(
            text::str_views(r@),
            v4,
        ),
{
    let ghost before = command::lines(commands@);
    let ghost all = delete_lines(text::str_views(r@), v4);
    let mut k: usize = 0;
    assert(before + all.take(0) =~= before);
    while k < r.len()
        invariant
            k <= r.len(),
            all == delete_lines(text::str_views(r@), v4),
            command::lines(commands@) == before + all.take(k as int),
        decreases r.len() - k,
    {
        let w: Vec<&str> = vec!["route", "-n", "delete", family_word(v4), r[k].as_str()];
        assert(command::words(w@) =~= all[k as int]);
        push_words(commands, &w);
        assert(all.take(k + 1) =~= all.take(k as int).push(all[k as int]));
        assert(command::lines(commands@) =~= before + all.take(k + 1));
        k += 1;
    }
    assert(all.take(all.len() as int) =~= all);
}

/// The command lines that delete what was routed into the device and past it.
pub fn teardown(cfg: &TunInboundConfig, state: &SetupState) -> (commands: Vec<Vec<String>>)
    ensures
        command::lines(commands@) == (delete_lines(
            wanted(text::str_views(state.routes_v4@), has_v4(cfg)),
            true,
        ) + delete_lines(wanted(text::str_views(state.routes_v6@), has_v6(cfg)), false)
            + delete_lines(exclude_routes(cfg, true), true) + delete_lines(
            exclude_routes(cfg, false),
            false,
        )).push(flush_line()),
{
    let mut commands: Vec<Vec<String>> = Vec::new();
    let ghost a = delete_lines(wanted(text::str_views(state.routes_v4@), has_v4(cfg)), true);
    let ghost b = delete_lines(wanted(text::str_views(state.routes_v6@), has_v6(cfg)), false);
    assert(command::lines(commands@) =~= Seq::<Seq<Seq<char>>>::empty());
    if any_version(&cfg.address, true) {
        push_deletions(&mut commands, &state.routes_v4, true);
    }
    assert(command::lines(commands@) =~= a);
    if any_version(&cfg.address, false) {
        push_deletions(&mut commands, &state.routes_v6, false);
    }
    assert(command::lines(commands@) =~= a + b);
    push_deletions(&mut commands, &exclude_routes_v4(cfg), true);
    push_deletions(&mut commands, &exclude_routes_v6(cfg), false);
    push_flush(&mut commands);
    commands
}

/// The command line that asks for the default route.
pub open spec fn default_route_line(inet6: bool) -> Seq<Seq<char>> {
    seq!["route"@, "-n"@, "get"@] + (if inet6 {
        seq!["-inet6"@]
    } else {
        Seq::empty()
    }) + seq!["default"@]
}

/// The command line that asks for the default route.
pub fn default_route_query(inet6: bool) -> (c: Vec<String>)
    ensures
        text::str_views(c@) == default_route_line(inet6),
{
    let head: Vec<&str> = vec!["route", "-n", "get"];
    assert(command::words(head@) =~= seq!["route"@, "-n"@, "get"@]);
    let mut c: Vec<String> = command(&head);
    if inet6 {
        let w: Vec<&str> = vec!["-inet6"];
        assert(command::words(w@) =~= seq!["-inet6"@]);
        extend(&mut c, &w);
    }
    let last: Vec<&str> = vec!["default"];
    assert(command::words(last@) =~= seq!["default"@]);
    extend(&mut c, &last);
    assert(text::str_views(c@) =~= default_route_line(inet6));
    c
}

/// The text starts with another.
pub open spec fn starts_with(s: Seq<char>, t: Seq<char>) -> bool {
    t.len() <= s.len() && s.subrange(0, t.len() as int) == t
}

/// The value behind a key in the first line that starts with the key, from
/// line `i` on: what stands between the first two colons, without white space
/// around it.
pub open spec fn value_of(lines: Seq<Seq<char>>, key: Seq<char>, i: int) -> Option<Seq<char>>
    decreases lines.len() - i,
{
    if i < 0 || i >= lines.len() {
        None
    } else if starts_with(text::trim(lines[i]), key) {
        let parts = text::split(lines[i], ':');
        if parts.len() > 1 {
            Some(text::trim(parts[1]))
        } else {
            None
        }
    } else {
        value_of(lines, key, i + 1)
    }
}

fn begins_with(s: &[char], t: &[char]) -> (r: bool)
    ensures
        r == starts_with(s@, t@),
{
    if t.len() > s.len() {
        return false;
    }
    let ghost part = s@.subrange(0, t@.len() as int);
    let mut k: usize = 0;
    while k < t.len()
        invariant
            k <= t.len() <= s.len(),
            part == s@.subrange(0, t@.len() as int),
            forall|j: int| 0 <= j < k ==> part[j] == t@[j],
        decreases t.len() - k,
    {
        if s[k] != t[k] {
            assert(part[k as int] != t@[k as int]);
            return false;
        }
        k += 1;
    }
    assert(part =~= t@);
    true
}

fn find_value(output: &str, key: &str) -> (r: Option<Vec<char>>)
    ensures
        match r {
            Some(v) => value_of(text::split(output@, '\n'), key@, 0) == Some(v@),
            None => value_of(text::split(output@, '\n'), key@, 0) is None,
        },
{
    let c: Vec<char> = chars_of(output);
    let lines: Vec<Vec<char>> = split_on(c.as_slice(), '\n');
    let k: Vec<char> = chars_of(key);
    let ghost all = text::split(output@, '\n');
    let mut i: usize = 0;
    while i < lines.len()
        invariant
            i <= lines.len(),
            k@ == key@,
            all == text::split(output@, '\n'),
            text::char_views(lines@) == all,
            all.len() == lines@.len(),
            value_of(all, key@, 0) == value_of(all, key@, i as int),
        decreases lines.len() - i,
    {
        assert(all[i as int] == lines@[i as int]@);
        let line: &[char] = lines[i].as_slice();
        if begins_with(trimmed(line), k.as_slice()) {
            let mut parts: Vec<Vec<char>> = split_on(line, ':');
            let ghost p = text::split(line@, ':');
            assert(p.len() == parts@.len());
            if parts.len() < 2 {
                return None;
            }
            assert(p[1] == parts@[1]@);
            let value: &[char] = trimmed(parts[1].as_slice());
            let mut v: Vec<char> = Vec::new();
            let mut j: usize = 0;
            while j < value.len()
                invariant
                    j <= value.len(),
                    v@ == value@.take(j as int),
                decreases value.len() - j,
            {
                v.push(value[j]);
                assert(value@.take(j + 1) =~= value@.take(j as int).push(value@[j as int]));
                j += 1;
            }
            assert(value@.take(value@.len() as int) =~= value@);
            return Some(v);
        }
        i += 1;
    }
    None
}

/// The gateway that the system's answer names.
pub open spec fn gateway_in(output: Seq<char>) -> Option<IpAddr> {
    match value_of(text::split(output, '\n'), "gateway:"@, 0) {
        Some(v) => text::ip_of(v),
        None => None,
    }
}

/// Reads the gateway from what the system answered about its default route.
pub fn parse_gateway(output: &str) -> (r: Option<IpAddr>)
    ensures
        r == gateway_in(output@),
{
    match find_value(output, "gateway:") {
        Some(v) => parse_ip_chars(v.as_slice()),
        None => None,
    }
}

/// Reads the interface from what the system answered about its default route.
pub fn parse_interface(output: &str) -> (r: Option<String>)
    ensures
        match r {
            Some(s) => value_of(text::split(output@, '\n'), "interface:"@, 0) == Some(s@),
            None => value_of(text::split(output@, '\n'), "interface:"@, 0) is None,
        },
{
    match find_value(output, "interface:") {
        Some(v) => Some(string_of(v.as_slice())),
        None => None,
    }
}

/// The prefixes that stand for all addresses, as numbers.
pub open spec fn sub_range_pairs(v4: bool) -> Seq<(int, int)> {
    Seq::new(
        8,
        |k: int|
            if v4 {
                sub_range_v4(k)
            } else {
                sub_range_v6(k)
            },
    )
}

proof fn lemma_sub_sizes()
    ensures
        addr::block_size(8, 32) == 0x0100_0000,
        addr::block_size(7, 32) == 0x0200_0000,
        addr::block_size(6, 32) == 0x0400_0000,
        addr::block_size(5, 32) == 0x0800_0000,
        addr::block_size(4, 32) == 0x1000_0000,
        addr::block_size(3, 32) == 0x2000_0000,
        addr::block_size(2, 32) == 0x4000_0000,
        addr::block_size(1, 32) == 0x8000_0000,
{
    power2::lemma2_to64();
}

/// The IPv4 prefixes that stand for all addresses cover every address but
/// those of 0.0.0.0/8.
pub proof fn law_sub_ranges_cover_v4(x: u32)
    ensures
        routes::in_prefixes(sub_range_pairs(true), x as int, 32) <==> x >= 0x0100_0000,
{
    lemma_sub_sizes();
    let s = sub_range_pairs(true);
    if routes::in_prefixes(s, x as int, 32) {
        let k = choose|k: int|
            0 <= k < s.len() && addr::same_block(x as int, (#[trigger] s[k]).0, s[k].1, 32);
        assert(s[k] == sub_range_v4(k));
    }
    if x >= 0x0100_0000 {
        let k: int = if x < 0x0200_0000 {
            0
        } else if x < 0x0400_0000 {
            1
        } else if x < 0x0800_0000 {
            2
        } else if x < 0x1000_0000 {
            3
        } else if x < 0x2000_0000 {
            4
        } else if x < 0x4000_0000 {
            5
        } else if x < 0x8000_0000 {
            6
        } else {
            7
        };
        assert(s[k] == sub_range_v4(k));
        assert(addr::same_block(x as int, s[k].0, s[k].1, 32));
    }
}

proof fn lemma_sub_sizes_v6(k: int)
    requires
        0 <= k < 8,
    ensures
        addr::block_size(sub_range_v4(k).1, 128) == addr::block_size(sub_range_v4(k).1, 32)
            * 0x1_0000_0000_0000_0000_0000_0000,
        addr::block_size(sub_range_v4(k).1, 32) == sub_range_v4(k).0,
{
    lemma_sub_sizes();
    power2::lemma2_to64();
    power2::lemma_pow2_adds(64, 32);
    assert(0x1_0000_0000_0000_0000 * 0x1_0000_0000 == 0x1_0000_0000_0000_0000_0000_0000)
        by (nonlinear_arith);
    let l = sub_range_v4(k).1;
    power2::lemma_pow2_adds((32 - l) as nat, 96);
}

/// The IPv6 prefixes that stand for all addresses cover every address but
/// those of ::/8.
pub proof fn law_sub_ranges_cover_v6(x: u128)
    ensures
        routes::in_prefixes(sub_range_pairs(false), x as int, 128) <==> x
            >= 0x0100_0000_0000_0000_0000_0000_0000_0000,
{
    let unit = 0x1_0000_0000_0000_0000_0000_0000int;
    let s = sub_range_pairs(false);
    let t = sub_range_pairs(true);
    let high = x as int / unit;
    assert(0 <= high <= u32::MAX) by {
        div_mod::lemma_div_is_ordered(x as int, u128::MAX as int, unit);
    }
    law_sub_ranges_cover_v4(high as u32);
    assert forall|k: int| 0 <= k < 8 implies (addr::same_block(
        x as int,
        (#[trigger] s[k]).0,
        s[k].1,
        128,
    ) <==> addr::same_block(high, t[k].0, t[k].1, 32)) by {
        lemma_sub_sizes_v6(k);
        let size = sub_range_v4(k).0;
        assert(s[k] == sub_range_v6(k));
        assert(t[k] == sub_range_v4(k));
        assert(unit * size == size * unit) by (nonlinear_arith);
        div_mod::lemma_div_denominator(x as int, unit, size);
        assert((size * unit) / (size * unit) == 1) by {
            assert(size * unit > 0) by (nonlinear_arith)
                requires
                    size > 0,
                    unit > 0,
            ;
            div_mod::lemma_div_by_self(size * unit);
        }
        div_mod::lemma_div_by_self(size);
    }
    if routes::in_prefixes(s, x as int, 128) {
        let k = choose|k: int|
            0 <= k < s.len() && addr::same_block(x as int, (#[trigger] s[k]).0, s[k].1, 128);
        assert(addr::same_block(high, t[k].0, t[k].1, 32));
    }
    if routes::in_prefixes(t, high, 32) {
        let k = choose|k: int|
            0 <= k < t.len() && addr::same_block(high, (#[trigger] t[k]).0, t[k].1, 32);
        assert(addr::same_block(x as int, s[k].0, s[k].1, 128));
    }
    assert(high >= 0x0100_0000 <==> x >= 0x0100_0000_0000_0000_0000_0000_0000_0000) by {
        div_mod::lemma_fundamental_div_mod(x as int, unit);
        div_mod::lemma_mod_bound(x as int, unit);
    }
}

/// The texts of the prefixes that stand for all addresses read back as those
/// prefixes.
pub proof fn law_sub_range_texts_read_back(k: int)
    requires
        0 <= k < 8,
    ensures
        text::addr_prefix(sub_range_texts(true)[k]) == Some(
            (IpAddr::V4(Ipv4Addr { bits: sub_range_v4(k).0 as u32 }), sub_range_v4(k).1 as u8),
        ),
        text::addr_prefix(sub_range_texts(false)[k]) == Some(
            (IpAddr::V6(Ipv6Addr { bits: sub_range_v6(k).0 as u128 }), sub_range_v6(k).1 as u8),
        ),
{
    render::law_prefix_read_back(
        IpAddr::V4(Ipv4Addr { bits: sub_range_v4(k).0 as u32 }),
        sub_range_v4(k).1 as u8,
    );
    render::law_prefix_read_back(
        IpAddr::V6(Ipv6Addr { bits: sub_range_v6(k).0 as u128 }),
        sub_range_v6(k).1 as u8,
    );
}

} // verus!
