//! Setting up and taking down a device on Linux: the command lines that give it
//! addresses, routes and policy rules, and those that undo them.
use vstd::prelude::*;
use vstd::string::*;

use crate::addr::{IpAddr, Ipv4Addr, Ipv6Addr};
use crate::command;
use crate::command::push_words;
use crate::config::TunInboundConfig;
use crate::linux_rules;
use crate::linux_rules::{rules_fit, write_rules, RuleContext, RuleWriter};
use crate::platform::SetupState;
use crate::render;
use crate::render::{dec_string, hex_string, prefix_string};
use crate::routes;
use crate::routes::{final_route_v4, final_route_v6, parse_prefixes_v4, parse_prefixes_v6};
use crate::text;
use crate::text::parse_addr_prefix;
use crate::uid;
use crate::uid::build_excluded_uid_ranges;

verus! {

/// The addresses of the device.
pub struct AddrInfo {
    pub inet4: Vec<(Ipv4Addr, u8)>,
    pub inet6: Vec<(Ipv6Addr, u8)>,
}

pub open spec fn inet4(cfg: &TunInboundConfig) -> Seq<(Ipv4Addr, u8)> {
    routes::prefixes_v4(text::str_views(cfg.address@))
}

pub open spec fn inet6(cfg: &TunInboundConfig) -> Seq<(Ipv6Addr, u8)> {
    routes::prefixes_v6(text::str_views(cfg.address@))
}

/// Reads the addresses of the device; a text that is no prefix is passed over.
pub fn parse_addresses(cfg: &TunInboundConfig) -> (info: AddrInfo)
    ensures
        info.inet4@ == inet4(cfg),
        info.inet6@ == inet6(cfg),
{
    AddrInfo {
        inet4: parse_prefixes_v4(cfg.address.as_slice()),
        inet6: parse_prefixes_v6(cfg.address.as_slice()),
    }
}

/// The mark on the inbound's own traffic: that of the settings, or with
/// redirection its mark for outgoing traffic.
pub open spec fn own_mark(cfg: &TunInboundConfig) -> Option<u32> {
    match cfg.so_mark {
        Some(mark) => Some(mark),
        None => if cfg.auto_redirect {
            Some(cfg.auto_redirect_output_mark)
        } else {
            None
        },
    }
}

/// The mark on the inbound's own traffic.
pub fn effective_so_mark(cfg: &TunInboundConfig) -> (mark: Option<u32>)
    ensures
        mark == own_mark(cfg),
{
    match cfg.so_mark {
        Some(mark) => Some(mark),
        None => if cfg.auto_redirect {
            Some(cfg.auto_redirect_output_mark)
        } else {
            None
        },
    }
}

/// What the policy rules are made from.
pub open spec fn rule_input(cfg: &TunInboundConfig, if_name: Seq<char>) -> linux_rules::RuleInput {
    linux_rules::RuleInput {
        if_name,
        table: cfg.iproute2_table_index as int,
        nop: cfg.iproute2_rule_index + 100,
        mark: own_mark(cfg),
        uids: uid::excluded_uids(cfg),
        included: text::str_views(cfg.include_interface@),
        excluded: text::str_views(cfg.exclude_interface@),
        strict: cfg.strict_route,
        inet4: inet4(cfg),
        inet6: inet6(cfg),
    }
}

/// The policy rules of the device.
pub open spec fn device_rules(cfg: &TunInboundConfig, if_name: Seq<char>) -> linux_rules::Rules {
    linux_rules::all_rules(rule_input(cfg, if_name), cfg.iproute2_rule_index as int)
}

/// A prefix of numbers, as text.
pub open spec fn pair_text_v4(p: (int, int)) -> Seq<char> {
    render::prefix_text(IpAddr::V4(Ipv4Addr { bits: p.0 as u32 }), p.1)
}

pub open spec fn pair_text_v6(p: (int, int)) -> Seq<char> {
    render::prefix_text(IpAddr::V6(Ipv6Addr { bits: p.0 as u128 }), p.1)
}

/// The routes of the device, as text.
pub open spec fn route_texts_v4(cfg: &TunInboundConfig) -> Seq<Seq<char>> {
    let r = routes::final_v4(cfg);
    if inet4(cfg).len() > 0 {
        Seq::new(r.len(), |k: int| pair_text_v4(r[k]))
    } else {
        Seq::empty()
    }
}

pub open spec fn route_texts_v6(cfg: &TunInboundConfig) -> Seq<Seq<char>> {
    let r = routes::final_v6(cfg);
    if inet6(cfg).len() > 0 {
        Seq::new(r.len(), |k: int| pair_text_v6(r[k]))
    } else {
        Seq::empty()
    }
}

/// The command lines that give the device its addresses.
pub open spec fn address_lines_v4(a: Seq<(Ipv4Addr, u8)>, if_name: Seq<char>) -> Seq<
    Seq<Seq<char>>,
> {
    Seq::new(
        a.len(),
        |k: int|
            seq![
                "ip"@,
                "addr"@,
                "add"@,
                render::prefix_text(IpAddr::V4(a[k].0), a[k].1 as int),
                "dev"@,
                if_name,
            ],
    )
}

pub open spec fn address_lines_v6(a: Seq<(Ipv6Addr, u8)>, if_name: Seq<char>) -> Seq<
    Seq<Seq<char>>,
> {
    Seq::new(
        a.len(),
        |k: int|
            seq![
                "ip"@,
                "-6"@,
                "addr"@,
                "add"@,
                render::prefix_text(IpAddr::V6(a[k].0), a[k].1 as int),
                "dev"@,
                if_name,
            ],
    )
}

/// The command lines that add routes to the device's table.
pub open spec fn route_lines_v4(r: Seq<Seq<char>>, if_name: Seq<char>, table: int) -> Seq<
    Seq<Seq<char>>,
> {
    Seq::new(
        r.len(),
        |k: int|
            seq![
                "ip"@,
                "route"@,
                "add"@,
                r[k],
                "dev"@,
                if_name,
                "table"@,
                render::dec_text(table),
            ],
    )
}

pub open spec fn route_lines_v6(r: Seq<Seq<char>>, if_name: Seq<char>, table: int) -> Seq<
    Seq<Seq<char>>,
> {
    Seq::new(
        r.len(),
        |k: int|
            seq![
                "ip"@,
                "-6"@,
                "route"@,
                "add"@,
                r[k],
                "dev"@,
                if_name,
                "table"@,
                render::dec_text(table),
            ],
    )
}

/// The command lines before and with the policy rules.
pub open spec fn setup_lines(cfg: &TunInboundConfig, if_name: Seq<char>) -> Seq<Seq<Seq<char>>> {
    let table = cfg.iproute2_table_index as int;
    seq![seq!["ip"@, "link"@, "set"@, if_name, "up"@]] + address_lines_v4(inet4(cfg), if_name)
        + address_lines_v6(inet6(cfg), if_name) + route_lines_v4(
        route_texts_v4(cfg),
        if_name,
        table,
    ) + route_lines_v6(route_texts_v6(cfg), if_name, table) + device_rules(cfg, if_name).commands
}

/// The first IPv4 and the first IPv6 address of the device, each followed by
/// one: the addresses that answer DNS queries, in the order of the settings.
pub open spec fn dns_servers(s: Seq<Seq<char>>) -> Seq<IpAddr>
    decreases s.len(),
{
    if s.len() == 0 {
        Seq::empty()
    } else {
        let before = dns_servers(s.drop_last());
        match text::addr_prefix(s.last()) {
            Some((IpAddr::V4(ip), _)) => if exists|k: int|
                0 <= k < before.len() && (#[trigger] before[k]) is V4 {
                before
            } else {
                before.push(IpAddr::V4(Ipv4Addr { bits: wrap_add_one(ip.bits) }))
            },
            Some((IpAddr::V6(ip), _)) => if exists|k: int|
                0 <= k < before.len() && (#[trigger] before[k]) is V6 {
                before
            } else {
                before.push(IpAddr::V6(Ipv6Addr { bits: wrap_add_one_v6(ip.bits) }))
            },
            None => before,
        }
    }
}

/// The number after this one, or zero after the last.
pub open spec fn wrap_add_one(n: u32) -> u32 {
    if n < u32::MAX {
        (n + 1) as u32
    } else {
        0
    }
}

pub open spec fn wrap_add_one_v6(n: u128) -> u128 {
    if n < u128::MAX {
        (n + 1) as u128
    } else {
        0
    }
}

/// The addresses that answer DNS queries.
pub fn dns_server_addresses(address: &[String]) -> (v: Vec<IpAddr>)
    ensures
        v@ == dns_servers(text::str_views(address@)),
{
    let ghost texts = text::str_views(address@);
    let mut v: Vec<IpAddr> = Vec::new();
    let mut found_v4: bool = false;
    let mut found_v6: bool = false;
    let mut k: usize = 0;
    assert(texts.take(0) =~= Seq::<Seq<char>>::empty());
    while k < address.len()
        invariant
            k <= address.len(),
            texts == text::str_views(address@),
            v@ == dns_servers(texts.take(k as int)),
            found_v4 == (exists|j: int| 0 <= j < v@.len() && (#[trigger] v@[j]) is V4),
            found_v6 == (exists|j: int| 0 <= j < v@.len() && (#[trigger] v@[j]) is V6),
        decreases address.len() - k,
    {
        let ghost before = v@;
        assert(texts.take(k + 1).drop_last() =~= texts.take(k as int));
        assert(texts.take(k + 1).last() == address@[k as int]@);
        match parse_addr_prefix(address[k].as_str()) {
            Some((IpAddr::V4(ip), _)) => {
                if !found_v4 {
                    let bits: u32 = if ip.bits < u32::MAX {
                        ip.bits + 1
                    } else {
                        0
                    };
                    v.push(IpAddr::V4(Ipv4Addr { bits }));
                    found_v4 = true;
                    assert(v@[before.len() as int] is V4);
                    assert(forall|j: int| 0 <= j < before.len() ==> v@[j] == #[trigger] before[j]);
                }
            },
            Some((IpAddr::V6(ip), _)) => {
                if !found_v6 {
                    let bits: u128 = if ip.bits < u128::MAX {
                        ip.bits + 1
                    } else {
                        0
                    };
                    v.push(IpAddr::V6(Ipv6Addr { bits }));
                    found_v6 = true;
                    assert(v@[before.len() as int] is V6);
                    assert(forall|j: int| 0 <= j < before.len() ==> v@[j] == #[trigger] before[j]);
                }
            },
            None => {},
        }
        k += 1;
    }
    assert(texts.take(texts.len() as int) =~= texts);
    v
}

/// Addresses as text.
pub open spec fn ip_texts(v: Seq<IpAddr>) -> Seq<Seq<char>> {
    Seq::new(v.len(), |k: int| render::ip_text(v[k]))
}

/// The command lines that make the resolver ask the device.
pub open spec fn resolver_lines(cfg: &TunInboundConfig, if_name: Seq<char>) -> Seq<
    Seq<Seq<char>>,
> {
    let servers = dns_servers(text::str_views(cfg.address@));
    let first = seq![
        seq!["resolvectl"@, "domain"@, if_name, "~."@],
        seq!["resolvectl"@, "default-route"@, if_name, "true"@],
    ];
    if servers.len() > 0 {
        first.push(seq!["resolvectl"@, "dns"@, if_name] + ip_texts(servers))
    } else {
        first
    }
}

/// The command lines that make the resolver ask the device.
pub fn setup_systemd_resolved(cfg: &TunInboundConfig, if_name: &str) -> (v: Vec<Vec<String>>)
    ensures
        command::lines(v@) == resolver_lines(cfg, if_name@),
{
    let mut v: Vec<Vec<String>> = Vec::new();
    let domain: Vec<&str> = vec!["resolvectl", "domain", if_name, "~."];
    let default: Vec<&str> = vec!["resolvectl", "default-route", if_name, "true"];
    let ghost first = seq![
        seq!["resolvectl"@, "domain"@, if_name@, "~."@],
        seq!["resolvectl"@, "default-route"@, if_name@, "true"@],
    ];
    assert(command::words(domain@) =~= first[0]);
    assert(command::words(default@) =~= first[1]);
    push_words(&mut v, &domain);
    push_words(&mut v, &default);
    assert(command::lines(v@) =~= first);
    let servers: Vec<IpAddr> = dns_server_addresses(cfg.address.as_slice());
    if servers.len() > 0 {
        let head: Vec<&str> = vec!["resolvectl", "dns", if_name];
        let mut line: Vec<String> = command::command(&head);
        let ghost start = seq!["resolvectl"@, "dns"@, if_name@];
        assert(command::words(head@) =~= start);
        let mut k: usize = 0;
        assert(ip_texts(servers@).take(0) =~= Seq::<Seq<char>>::empty());
        assert(text::str_views(line@) =~= start + ip_texts(servers@).take(0));
        while k < servers.len()
            invariant
                k <= servers.len(),
                text::str_views(line@) == start + ip_texts(servers@).take(k as int),
            decreases servers.len() - k,
        {
            let ghost before = text::str_views(line@);
            let s: String = render::ip_string(servers[k]);
            line.push(s);
            assert(text::str_views(line@) =~= before.push(ip_texts(servers@)[k as int]));
            assert(ip_texts(servers@).take(k + 1) =~= ip_texts(servers@).take(k as int).push(
                ip_texts(servers@)[k as int],
            ));
            assert(text::str_views(line@) =~= start + ip_texts(servers@).take(k + 1));
            k += 1;
        }
        assert(ip_texts(servers@).take(servers@.len() as int) =~= ip_texts(servers@));
        command::push_line(&mut v, line);
    }
    v
}

/// The command line that gives the resolver its settings back.
pub fn cleanup_systemd_resolved(if_name: &str) -> (c: Vec<String>)
    ensures
        text::str_views(c@) == seq!["resolvectl"@, "revert"@, if_name@],
{
    let w: Vec<&str> = vec!["resolvectl", "revert", if_name];
    assert(command::words(w@) =~= seq!["resolvectl"@, "revert"@, if_name@]);
    command::command(&w)
}

/// The command lines that switch on the device's checksum offload.
pub open spec fn offload_lines(if_name: Seq<char>) -> Seq<Seq<Seq<char>>> {
    seq![
        seq!["ethtool"@, "-K"@, if_name, "tx"@, "on"@],
        seq!["ethtool"@, "-K"@, if_name, "rx"@, "on"@],
    ]
}

/// The command lines that switch on the device's checksum offload, first for
/// sending and then for receiving.
pub fn setup_checksum_offload(if_name: &str) -> (v: Vec<Vec<String>>)
    ensures
        command::lines(v@) == offload_lines(if_name@),
{
    let mut v: Vec<Vec<String>> = Vec::new();
    let tx: Vec<&str> = vec!["ethtool", "-K", if_name, "tx", "on"];
    let rx: Vec<&str> = vec!["ethtool", "-K", if_name, "rx", "on"];
    assert(command::words(tx@) =~= offload_lines(if_name@)[0]);
    assert(command::words(rx@) =~= offload_lines(if_name@)[1]);
    push_words(&mut v, &tx);
    push_words(&mut v, &rx);
    assert(command::lines(v@) =~= offload_lines(if_name@));
    v
}

/// A mark as text.
pub open spec fn mark_text(mark: int) -> Seq<char> {
    "0x"@ + render::hex_text(mark)
}

fn mark_string(mark: u32) -> (s: String)
    ensures
        s@ == mark_text(mark as int),
{
    let mut s: String = "0x".to_owned();
    s.append(hex_string(mark as u64).as_str());
    s
}

/// The command lines that lead marked traffic to the table.
pub open spec fn redirect_lines(cfg: &TunInboundConfig) -> Seq<Seq<Seq<char>>> {
    let mark = mark_text(cfg.auto_redirect_input_mark as int);
    let table = render::dec_text(cfg.iproute2_table_index as int);
    let v4 = seq!["ip"@, "rule"@, "add"@, "fwmark"@, mark, "lookup"@, table];
    let v6 = seq!["ip"@, "-6"@, "rule"@, "add"@, "fwmark"@, mark, "lookup"@, table];
    if !cfg.auto_redirect {
        Seq::empty()
    } else {
        (if inet4(cfg).len() > 0 {
            seq![v4]
        } else {
            Seq::empty()
        }) + (if inet6(cfg).len() > 0 {
            seq![v6]
        } else {
            Seq::empty()
        })
    }
}

/// The command lines after the policy rules.
pub open spec fn finish_lines(cfg: &TunInboundConfig, if_name: Seq<char>) -> Seq<Seq<Seq<char>>> {
    offload_lines(if_name) + resolver_lines(cfg, if_name) + redirect_lines(cfg)
}

/// What setting up a device takes.
pub struct SetupPlan {
    /// The command lines up to and with the policy rules.
    pub commands: Vec<Vec<String>>,
    /// The file that keeps the priorities that come next, and what it holds.
    pub state_file: String,
    pub state_text: String,
    /// The command lines that follow.
    pub finish: Vec<Vec<String>>,
    pub state: SetupState,
}

/// The file that keeps the priorities that come next.
pub open spec fn state_file_text(cfg: &TunInboundConfig) -> Seq<char> {
    "/tmp/reflex-tun-"@ + render::dec_text(cfg.iproute2_table_index as int) + ".state"@
}

/// The file that keeps the priorities that come next.
pub fn state_file(cfg: &TunInboundConfig) -> (s: String)
    ensures
        s@ == state_file_text(cfg),
{
    let mut s: String = "/tmp/reflex-tun-".to_owned();
    s.append(dec_string(cfg.iproute2_table_index as u64).as_str());
    s.append(".state");
    s
}

/// The plan sets the device up.
pub open spec fn sets_up(plan: &SetupPlan, cfg: &TunInboundConfig, if_name: Seq<char>) -> bool {
    let rules = device_rules(cfg, if_name);
    &&& command::lines(plan.commands@) == setup_lines(cfg, if_name)
    &&& command::lines(plan.finish@) == finish_lines(cfg, if_name)
    &&& plan.state_file@ == state_file_text(cfg)
    &&& plan.state_text@ == render::dec_text(rules.p4) + " "@ + render::dec_text(rules.p6)
    &&& text::str_views(plan.state.routes_v4@) == route_texts_v4(cfg)
    &&& text::str_views(plan.state.routes_v6@) == route_texts_v6(cfg)
    &&& plan.state.exclude_routes_v4@.len() == 0
    &&& plan.state.exclude_routes_v6@.len() == 0
    &&& linux_rules::numbers(plan.state.rule_priorities@) == recorded(cfg, if_name)
    &&& plan.state.wfp_session == 0
    &&& plan.state.monitor_id == 0
}

/// The priorities that are remembered: those of the policy rules, and zero for
/// the rule without one that redirection adds.
pub open spec fn recorded(cfg: &TunInboundConfig, if_name: Seq<char>) -> Seq<int> {
    let r = device_rules(cfg, if_name).recorded;
    if cfg.auto_redirect && inet4(cfg).len() > 0 {
        r.push(0)
    } else {
        r
    }
}

/// The settings can be set up: the priorities fit, and no prefix of the device
/// is of length zero.
pub open spec fn can_set_up(cfg: &TunInboundConfig, if_name: Seq<char>) -> bool {
    &&& cfg.iproute2_rule_index + 100 <= u32::MAX
    &&& device_rules(cfg, if_name).fits()
    &&& routes::no_zero_v4(inet4(cfg))
    &&& routes::no_zero_v6(inet6(cfg))
}

fn push_addresses_v4(
    commands: &mut Vec<Vec<String>>,
    a: &Vec<(Ipv4Addr, u8)>,
    if_name: &str,
)
    ensures
        command::lines(final(commands)@) == command::lines(old(commands)@) + address_lines_v4(
            a@,
            if_name@,
        ),
{
    let ghost before = command::lines(commands@);
    let ghost all = address_lines_v4(a@, if_name@);
    let mut k: usize = 0;
    assert(before + all.take(0) =~= before);
    while k < a.len()
        invariant
            k <= a.len(),
            all == address_lines_v4(a@, if_name@),
            command::lines(commands@) == before + all.take(k as int),
        decreases a.len() - k,
    {
        let cidr: String = prefix_string(IpAddr::V4(a[k].0), a[k].1);
        let w: Vec<&str> = vec!["ip", "addr", "add", cidr.as_str(), "dev", if_name];
        assert(command::words(w@) =~= all[k as int]);
        push_words(commands, &w);
        assert(all.take(k + 1) =~= all.take(k as int).push(all[k as int]));
        assert(command::lines(commands@) =~= before + all.take(k + 1));
        k += 1;
    }
    assert(all.take(all.len() as int) =~= all);
}

fn push_addresses_v6(
    commands: &mut Vec<Vec<String>>,
    a: &Vec<(Ipv6Addr, u8)>,
    if_name: &str,
)
    ensures
        command::lines(final(commands)@) == command::lines(old(commands)@) + address_lines_v6(
            a@,
            if_name@,
        ),
{
    let ghost before = command::lines(commands@);
    let ghost all = address_lines_v6(a@, if_name@);
    let mut k: usize = 0;
    assert(before + all.take(0) =~= before);
    while k < a.len()
        invariant
            k <= a.len(),
            all == address_lines_v6(a@, if_name@),
            command::lines(commands@) == before + all.take(k as int),
        decreases a.len() - k,
    {
        let cidr: String = prefix_string(IpAddr::V6(a[k].0), a[k].1);
        let w: Vec<&str> = vec!["ip", "-6", "addr", "add", cidr.as_str(), "dev", if_name];
        assert(command::words(w@) =~= all[k as int]);
        push_words(commands, &w);
        assert(all.take(k + 1) =~= all.take(k as int).push(all[k as int]));
        assert(command::lines(commands@) =~= before + all.take(k + 1));
        k += 1;
    }
    assert(all.take(all.len() as int) =~= all);
}

/// Writes the routes of the device.
fn route_strings_v4(cfg: &TunInboundConfig) -> (v: Vec<String>)
    requires
        inet4(cfg).len() > 0,
    ensures
        text::str_views(v@) == route_texts_v4(cfg),
{
    let r: Vec<(Ipv4Addr, u8)> = final_route_v4(cfg);
    let ghost all = route_texts_v4(cfg);
    let ghost pairs = routes::pairs_v4(r@);
    let mut v: Vec<String> = Vec::new();
    let mut k: usize = 0;
    assert(all.take(0) =~= text::str_views(v@));
    while k < r.len()
        invariant
            k <= r.len(),
            all.len() == r@.len(),
            pairs == routes::pairs_v4(r@),
            forall|j: int| 0 <= j < all.len() ==> #[trigger] all[j] == pair_text_v4(pairs[j]),
            text::str_views(v@) == all.take(k as int),
        decreases r.len() - k,
    {
        let ghost before = text::str_views(v@);
        let s: String = prefix_string(IpAddr::V4(r[k].0), r[k].1);
        assert(pairs[k as int] == (r@[k as int].0.bits as int, r@[k as int].1 as int));
        assert(s@ == all[k as int]);
        v.push(s);
        assert(text::str_views(v@) =~= before.push(all[k as int]));
        assert(all.take(k + 1) =~= all.take(k as int).push(all[k as int]));
        k += 1;
    }
    assert(all.take(all.len() as int) =~= all);
    v
}

fn route_strings_v6(cfg: &TunInboundConfig) -> (v: Vec<String>)
    requires
        inet6(cfg).len() > 0,
    ensures
        text::str_views(v@) == route_texts_v6(cfg),
{
    let r: Vec<(Ipv6Addr, u8)> = final_route_v6(cfg);
    let ghost all = route_texts_v6(cfg);
    let ghost pairs = routes::pairs_v6(r@);
    let mut v: Vec<String> = Vec::new();
    let mut k: usize = 0;
    assert(all.take(0) =~= text::str_views(v@));
    while k < r.len()
        invariant
            k <= r.len(),
            all.len() == r@.len(),
            pairs == routes::pairs_v6(r@),
            forall|j: int| 0 <= j < all.len() ==> #[trigger] all[j] == pair_text_v6(pairs[j]),
            text::str_views(v@) == all.take(k as int),
        decreases r.len() - k,
    {
        let ghost before = text::str_views(v@);
        let s: String = prefix_string(IpAddr::V6(r[k].0), r[k].1);
        assert(pairs[k as int] == (r@[k as int].0.bits as int, r@[k as int].1 as int));
        assert(s@ == all[k as int]);
        v.push(s);
        assert(text::str_views(v@) =~= before.push(all[k as int]));
        assert(all.take(k + 1) =~= all.take(k as int).push(all[k as int]));
        k += 1;
    }
    assert(all.take(all.len() as int) =~= all);
    v
}

fn push_routes_v4(
    commands: &mut Vec<Vec<String>>,
    r: &Vec<String>,
    if_name: &str,
    table: u32,
)
    ensures
        command::lines(final(commands)@) == command::lines(old(commands)@) + route_lines_v4(
            text::str_views(r@),
            if_name@,
            table as int,
        ),
{
    let ghost before = command::lines(commands@);
    let ghost all = route_lines_v4(text::str_views(r@), if_name@, table as int);
    let table_text: String = dec_string(table as u64);
    let mut k: usize = 0;
    assert(before + all.take(0) =~= before);
    while k < r.len()
        invariant
            k <= r.len(),
            table_text@ == render::dec_text(table as int),
            all == route_lines_v4(text::str_views(r@), if_name@, table as int),
            command::lines(commands@) == before + all.take(k as int),
        decreases r.len() - k,
    {
        let w: Vec<&str> = vec![
            "ip",
            "route",
            "add",
            r[k].as_str(),
            "dev",
            if_name,
            "table",
            table_text.as_str(),
        ];
        assert(command::words(w@) =~= all[k as int]);
        push_words(commands, &w);
        assert(all.take(k + 1) =~= all.take(k as int).push(all[k as int]));
        assert(command::lines(commands@) =~= before + all.take(k + 1));
        k += 1;
    }
    assert(all.take(all.len() as int) =~= all);
}

fn push_routes_v6(
    commands: &mut Vec<Vec<String>>,
    r: &Vec<String>,
    if_name: &str,
    table: u32,
)
    ensures
        command::lines(final(commands)@) == command::lines(old(commands)@) + route_lines_v6(
            text::str_views(r@),
            if_name@,
            table as int,
        ),
{
    let ghost before = command::lines(commands@);
    let ghost all = route_lines_v6(text::str_views(r@), if_name@, table as int);
    let table_text: String = dec_string(table as u64);
    let mut k: usize = 0;
    assert(before + all.take(0) =~= before);
    while k < r.len()
        invariant
            k <= r.len(),
            table_text@ == render::dec_text(table as int),
            all == route_lines_v6(text::str_views(r@), if_name@, table as int),
            command::lines(commands@) == before + all.take(k as int),
        decreases r.len() - k,
    {
        let w: Vec<&str> = vec![
            "ip",
            "-6",
            "route",
            "add",
            r[k].as_str(),
            "dev",
            if_name,
            "table",
            table_text.as_str(),
        ];
        assert(command::words(w@) =~= all[k as int]);
        push_words(commands, &w);
        assert(all.take(k + 1) =~= all.take(k as int).push(all[k as int]));
        assert(command::lines(commands@) =~= before + all.take(k + 1));
        k += 1;
    }
    assert(all.take(all.len() as int) =~= all);
}

/// Adds the routes of the device to its table, and remembers them behind those
/// that are remembered already.
pub fn add_routes_to_table(
    cfg: &TunInboundConfig,
    if_name: &str,
    commands: &mut Vec<Vec<String>>,
    state: &mut SetupState,
)
    ensures
        command::lines(final(commands)@) == command::lines(old(commands)@) + route_lines_v4(
            route_texts_v4(cfg),
            if_name@,
            cfg.iproute2_table_index as int,
        ) + route_lines_v6(route_texts_v6(cfg), if_name@, cfg.iproute2_table_index as int),
        text::str_views(final(state).routes_v4@) == text::str_views(old(state).routes_v4@)
            + route_texts_v4(cfg),
        text::str_views(final(state).routes_v6@) == text::str_views(old(state).routes_v6@)
            + route_texts_v6(cfg),
        final(state).exclude_routes_v4 == old(state).exclude_routes_v4,
        final(state).exclude_routes_v6 == old(state).exclude_routes_v6,
        final(state).rule_priorities == old(state).rule_priorities,
        final(state).wfp_session == old(state).wfp_session,
        final(state).monitor_id == old(state).monitor_id,
{
    let table: u32 = cfg.iproute2_table_index;
    let info: AddrInfo = parse_addresses(cfg);
    let ghost start = command::lines(commands@);
    let ghost had_v4 = text::str_views(state.routes_v4@);
    let ghost had_v6 = text::str_views(state.routes_v6@);
    if info.inet4.len() > 0 {
        let mut r: Vec<String> = route_strings_v4(cfg);
        push_routes_v4(commands, &r, if_name, table);
        state.routes_v4.append(&mut r);
    }
    let ghost lines_v4 = route_lines_v4(route_texts_v4(cfg), if_name@, table as int);
    assert(command::lines(commands@) =~= start + lines_v4);
    if info.inet6.len() > 0 {
        let mut r: Vec<String> = route_strings_v6(cfg);
        push_routes_v6(commands, &r, if_name, table);
        state.routes_v6.append(&mut r);
    }
    let ghost lines_v6 = route_lines_v6(route_texts_v6(cfg), if_name@, table as int);
    assert(command::lines(commands@) =~= start + lines_v4 + lines_v6);
    assert(text::str_views(state.routes_v4@) =~= had_v4 + route_texts_v4(cfg));
    assert(text::str_views(state.routes_v6@) =~= had_v6 + route_texts_v6(cfg));
}

fn rule_context<'a>(cfg: &'a TunInboundConfig, if_name: &'a str) -> (c: RuleContext<'a>)
    requires
        cfg.iproute2_rule_index + 100 <= u32::MAX,
    ensures
        c.input() == rule_input(cfg, if_name@),
{
    let info: AddrInfo = parse_addresses(cfg);
    RuleContext {
        if_name,
        table: cfg.iproute2_table_index,
        nop: cfg.iproute2_rule_index + 100,
        mark: effective_so_mark(cfg),
        uids: build_excluded_uid_ranges(cfg),
        included: &cfg.include_interface,
        excluded: &cfg.exclude_interface,
        strict: cfg.strict_route,
        inet4: info.inet4,
        inet6: info.inet6,
    }
}

fn append_lines(v: &mut Vec<Vec<String>>, more: &mut Vec<Vec<String>>)
    ensures
        command::lines(final(v)@) == command::lines(old(v)@) + command::lines(old(more)@),
{
    let ghost a = command::lines(v@);
    let ghost b = command::lines(more@);
    v.append(more);
    assert(command::lines(v@) =~= a + b);
}

fn redirect_commands(cfg: &TunInboundConfig) -> (v: Vec<Vec<String>>)
    ensures
        command::lines(v@) == redirect_lines(cfg),
{
    let mut v: Vec<Vec<String>> = Vec::new();
    if cfg.auto_redirect {
        let info: AddrInfo = parse_addresses(cfg);
        let mark: String = mark_string(cfg.auto_redirect_input_mark);
        let table: String = dec_string(cfg.iproute2_table_index as u64);
        if info.inet4.len() > 0 {
            let w: Vec<&str> = vec![
                "ip",
                "rule",
                "add",
                "fwmark",
                mark.as_str(),
                "lookup",
                table.as_str(),
            ];
            assert(command::words(w@) =~= seq![
                "ip"@,
                "rule"@,
                "add"@,
                "fwmark"@,
                mark@,
                "lookup"@,
                table@,
            ]);
            push_words(&mut v, &w);
        }
        if info.inet6.len() > 0 {
            let w: Vec<&str> = vec![
                "ip",
                "-6",
                "rule",
                "add",
                "fwmark",
                mark.as_str(),
                "lookup",
                table.as_str(),
            ];
            assert(command::words(w@) =~= seq![
                "ip"@,
                "-6"@,
                "rule"@,
                "add"@,
                "fwmark"@,
                mark@,
                "lookup"@,
                table@,
            ]);
            push_words(&mut v, &w);
        }
    }
    assert(command::lines(v@) =~= redirect_lines(cfg));
    v
}

/// What setting up the device takes: its addresses, its routes, the policy
/// rules, and the settings of the resolver and of redirection.
pub fn setup(cfg: &TunInboundConfig, if_name: &str) -> (plan: SetupPlan)
    requires
        can_set_up(cfg, if_name@),
    ensures
        sets_up(&plan, cfg, if_name@),
{
    let table: u32 = cfg.iproute2_table_index;
    let context: RuleContext = rule_context(cfg, if_name);
    let mut state: SetupState = SetupState::default();
    let mut commands: Vec<Vec<String>> = Vec::new();
    let up: Vec<&str> = vec!["ip", "link", "set", if_name, "up"];
    let ghost up_line = seq!["ip"@, "link"@, "set"@, if_name@, "up"@];
    assert(command::words(up@) =~= up_line);
    push_words(&mut commands, &up);
    assert(command::lines(commands@) =~= seq![up_line]);
    push_addresses_v4(&mut commands, &context.inet4, if_name);
    push_addresses_v6(&mut commands, &context.inet6, if_name);
    let ghost bare = state;
    add_routes_to_table(cfg, if_name, &mut commands, &mut state);
    assert(text::str_views(bare.routes_v4@) + route_texts_v4(cfg) =~= route_texts_v4(cfg));
    assert(text::str_views(bare.routes_v6@) + route_texts_v6(cfg) =~= route_texts_v6(cfg));
    let mut w: RuleWriter = write_rules(&context, cfg.iproute2_rule_index);
    let ghost rules = device_rules(cfg, if_name@);
    append_lines(&mut commands, &mut w.commands);
    let mut priorities: Vec<u32> = w.recorded;
    let ghost before = linux_rules::numbers(priorities@);
    if cfg.auto_redirect && context.inet4.len() > 0 {
        priorities.push(0);
        assert(linux_rules::numbers(priorities@) =~= before.push(0));
    }
    state.rule_priorities = priorities;
    let mut state_text: String = dec_string(w.p4 as u64);
    state_text.append(" ");
    state_text.append(dec_string(w.p6 as u64).as_str());
    let mut finish: Vec<Vec<String>> = setup_checksum_offload(if_name);
    let mut resolver: Vec<Vec<String>> = setup_systemd_resolved(cfg, if_name);
    append_lines(&mut finish, &mut resolver);
    let mut redirect: Vec<Vec<String>> = redirect_commands(cfg);
    append_lines(&mut finish, &mut redirect);
    SetupPlan { commands, state_file: state_file(cfg), state_text, finish, state }
}

fn no_zero_lengths_v4(v: &Vec<(Ipv4Addr, u8)>) -> (r: bool)
    ensures
        r == routes::no_zero_v4(v@),
{
    let mut k: usize = 0;
    while k < v.len()
        invariant
            k <= v.len(),
            forall|j: int| 0 <= j < k ==> (#[trigger] v@[j]).1 > 0,
        decreases v.len() - k,
    {
        if v[k].1 == 0 {
            return false;
        }
        k += 1;
    }
    true
}

fn no_zero_lengths_v6(v: &Vec<(Ipv6Addr, u8)>) -> (r: bool)
    ensures
        r == routes::no_zero_v6(v@),
{
    let mut k: usize = 0;
    while k < v.len()
        invariant
            k <= v.len(),
            forall|j: int| 0 <= j < k ==> (#[trigger] v@[j]).1 > 0,
        decreases v.len() - k,
    {
        if v[k].1 == 0 {
            return false;
        }
        k += 1;
    }
    true
}

/// What setting up the device takes, where the settings can be set up.
pub fn try_setup(cfg: &TunInboundConfig, if_name: &str) -> (r: Option<SetupPlan>)
    ensures
        r is Some <==> can_set_up(cfg, if_name@),
        r matches Some(plan) ==> sets_up(&plan, cfg, if_name@),
{
    if cfg.iproute2_rule_index > u32::MAX - 100 {
        return None;
    }
    let context: RuleContext = rule_context(cfg, if_name);
    if rules_fit(&context, cfg.iproute2_rule_index) && no_zero_lengths_v4(&context.inet4)
        && no_zero_lengths_v6(&context.inet6) {
        Some(setup(cfg, if_name))
    } else {
        None
    }
}

} // verus!
