//! Setting up and taking down on Linux, line by line: what is run for which
//! setting, and that taking down undoes what was set up.
use vstd::prelude::*;
use vstd::string::*;

use crate::addr::{IpAddr, Ipv4Addr, Ipv6Addr};
use crate::command;
use crate::config::TunInboundConfig;
use crate::linux;
use crate::linux::SetupPlan;
use crate::linux_rules;
use crate::linux_teardown;
use crate::linux_teardown::TeardownPlan;
use crate::nftables;
use crate::render;
use crate::route_laws;
use crate::routes;
use crate::text;
use crate::uid;

verus! {

/// The addresses of the device are those that the texts of the settings name,
/// in their order.
pub proof fn law_device_addresses(cfg: &TunInboundConfig, a: Ipv4Addr, b: Ipv6Addr, len: u8)
    ensures
        linux::inet4(cfg).contains((a, len)) <==> exists|k: int|
            0 <= k < cfg.address@.len() && text::addr_prefix((#[trigger] cfg.address@[k])@) == Some(
                (IpAddr::V4(a), len),
            ),
        linux::inet6(cfg).contains((b, len)) <==> exists|k: int|
            0 <= k < cfg.address@.len() && text::addr_prefix((#[trigger] cfg.address@[k])@) == Some(
                (IpAddr::V6(b), len),
            ),
{
    route_laws::lemma_texts_v4(cfg.address@, a, len);
    route_laws::lemma_texts_v6(cfg.address@, b, len);
}

/// The mark of the program's own packets: the one that the settings give, else
/// the one of redirection where that is on.
pub proof fn law_own_mark(cfg: &TunInboundConfig)
    ensures
        cfg.so_mark is Some ==> linux::own_mark(cfg) == cfg.so_mark,
        cfg.so_mark is None && cfg.auto_redirect ==> linux::own_mark(cfg) == Some(
            cfg.auto_redirect_output_mark,
        ),
        cfg.so_mark is None && !cfg.auto_redirect ==> linux::own_mark(cfg) is None,
{
}

/// Where the settings go in the rules.
pub proof fn law_rules_follow_settings(cfg: &TunInboundConfig, if_name: Seq<char>)
    ensures
        ({
            let i = linux::rule_input(cfg, if_name);
            &&& i.if_name == if_name
            &&& i.table == cfg.iproute2_table_index
            &&& i.nop == cfg.iproute2_rule_index + 100
            &&& i.mark == linux::own_mark(cfg)
            &&& i.uids == uid::excluded_uids(cfg)
            &&& i.strict == cfg.strict_route
            &&& i.included.len() == cfg.include_interface@.len()
            &&& forall|k: int|
                0 <= k < i.included.len() ==> #[trigger] i.included[k] == cfg.include_interface@[k]@
            &&& i.excluded.len() == cfg.exclude_interface@.len()
            &&& forall|k: int|
                0 <= k < i.excluded.len() ==> #[trigger] i.excluded[k] == cfg.exclude_interface@[k]@
            &&& i.inet4 == linux::inet4(cfg)
            &&& i.inet6 == linux::inet6(cfg)
            &&& linux::device_rules(cfg, if_name) == linux_rules::all_rules(
                i,
                cfg.iproute2_rule_index as int,
            )
        }),
{
}

/// The lines that give the device its addresses.
pub open spec fn given_v4(a: Seq<(Ipv4Addr, u8)>, if_name: Seq<char>) -> Seq<Seq<Seq<char>>> {
    a.map_values(
        |x: (Ipv4Addr, u8)|
            seq![
                "ip"@,
                "addr"@,
                "add"@,
                render::prefix_text(IpAddr::V4(x.0), x.1 as int),
                "dev"@,
                if_name,
            ],
    )
}

pub open spec fn given_v6(a: Seq<(Ipv6Addr, u8)>, if_name: Seq<char>) -> Seq<Seq<Seq<char>>> {
    a.map_values(
        |x: (Ipv6Addr, u8)|
            seq![
                "ip"@,
                "-6"@,
                "addr"@,
                "add"@,
                render::prefix_text(IpAddr::V6(x.0), x.1 as int),
                "dev"@,
                if_name,
            ],
    )
}

/// The lines that lead prefixes to the device.
pub open spec fn led_v4(r: Seq<(Ipv4Addr, u8)>, if_name: Seq<char>, table: int) -> Seq<
    Seq<Seq<char>>,
> {
    r.map_values(
        |x: (Ipv4Addr, u8)|
            seq![
                "ip"@,
                "route"@,
                "add"@,
                render::prefix_text(IpAddr::V4(x.0), x.1 as int),
                "dev"@,
                if_name,
                "table"@,
                render::dec_text(table),
            ],
    )
}

pub open spec fn led_v6(r: Seq<(Ipv6Addr, u8)>, if_name: Seq<char>, table: int) -> Seq<
    Seq<Seq<char>>,
> {
    r.map_values(
        |x: (Ipv6Addr, u8)|
            seq![
                "ip"@,
                "-6"@,
                "route"@,
                "add"@,
                render::prefix_text(IpAddr::V6(x.0), x.1 as int),
                "dev"@,
                if_name,
                "table"@,
                render::dec_text(table),
            ],
    )
}

/// The texts of the routes, as far as the device has an address of their
/// version.
pub proof fn law_route_texts(
    cfg: &TunInboundConfig,
    r4: Seq<(Ipv4Addr, u8)>,
    r6: Seq<(Ipv6Addr, u8)>,
)
    requires
        routes::pairs_v4(r4) == routes::final_v4(cfg),
        routes::pairs_v6(r6) == routes::final_v6(cfg),
    ensures
        linux::route_texts_v4(cfg) == (if linux::inet4(cfg).len() > 0 {
            r4.map_values(|x: (Ipv4Addr, u8)| render::prefix_text(IpAddr::V4(x.0), x.1 as int))
        } else {
            Seq::empty()
        }),
        linux::route_texts_v6(cfg) == (if linux::inet6(cfg).len() > 0 {
            r6.map_values(|x: (Ipv6Addr, u8)| render::prefix_text(IpAddr::V6(x.0), x.1 as int))
        } else {
            Seq::empty()
        }),
{
    let p4 = routes::final_v4(cfg);
    let p6 = routes::final_v6(cfg);
    assert(forall|k: int|
        0 <= k < r4.len() ==> routes::pairs_v4(r4)[k] == (
        (#[trigger] r4[k]).0.bits as int,
        r4[k].1 as int,
    ));
    assert(forall|k: int|
        0 <= k < r6.len() ==> routes::pairs_v6(r6)[k] == (
        (#[trigger] r6[k]).0.bits as int,
        r6[k].1 as int,
    ));
    if linux::inet4(cfg).len() > 0 {
        assert(linux::route_texts_v4(cfg) =~= r4.map_values(
            |x: (Ipv4Addr, u8)| render::prefix_text(IpAddr::V4(x.0), x.1 as int),
        ));
    }
    if linux::inet6(cfg).len() > 0 {
        assert(linux::route_texts_v6(cfg) =~= r6.map_values(
            |x: (Ipv6Addr, u8)| render::prefix_text(IpAddr::V6(x.0), x.1 as int),
        ));
    }
}

/// Setting up runs these lines: the link comes up, then it gets its addresses,
/// then the table gets its routes, as far as the link has an address of their
/// version, and then the rules are added.
#[verifier::rlimit(60)]
pub proof fn law_setup_lines(
    cfg: &TunInboundConfig,
    if_name: Seq<char>,
    r4: Seq<(Ipv4Addr, u8)>,
    r6: Seq<(Ipv6Addr, u8)>,
)
    requires
        routes::pairs_v4(r4) == routes::final_v4(cfg),
        routes::pairs_v6(r6) == routes::final_v6(cfg),
    ensures
        ({
            let a4 = linux::inet4(cfg);
            let a6 = linux::inet6(cfg);
            let table = cfg.iproute2_table_index as int;
            let none = Seq::<Seq<Seq<char>>>::empty();
            linux::setup_lines(cfg, if_name) == seq![
                seq!["ip"@, "link"@, "set"@, if_name, "up"@],
            ] + given_v4(a4, if_name) + given_v6(a6, if_name) + (if a4.len() > 0 {
                led_v4(r4, if_name, table)
            } else {
                none
            }) + (if a6.len() > 0 {
                led_v6(r6, if_name, table)
            } else {
                none
            }) + linux::device_rules(cfg, if_name).commands
        }),
{
    let a4 = linux::inet4(cfg);
    let a6 = linux::inet6(cfg);
    let table = cfg.iproute2_table_index as int;
    let none = Seq::<Seq<Seq<char>>>::empty();
    law_route_texts(cfg, r4, r6);
    assert(linux::address_lines_v4(a4, if_name) =~= given_v4(a4, if_name));
    assert(linux::address_lines_v6(a6, if_name) =~= given_v6(a6, if_name));
    let t4 = linux::route_texts_v4(cfg);
    let t6 = linux::route_texts_v6(cfg);
    if a4.len() > 0 {
        assert(linux::route_lines_v4(t4, if_name, table) =~= led_v4(r4, if_name, table));
    } else {
        assert(linux::route_lines_v4(t4, if_name, table) =~= none);
    }
    if a6.len() > 0 {
        assert(linux::route_lines_v6(t6, if_name, table) =~= led_v6(r6, if_name, table));
    } else {
        assert(linux::route_lines_v6(t6, if_name, table) =~= none);
    }
}

/// After the setup the device gets its offloads, its resolver, and where
/// redirection is on a rule for marked packets of each version that it has an
/// address of.
#[verifier::rlimit(40)]
pub proof fn law_finish_lines(cfg: &TunInboundConfig, if_name: Seq<char>)
    ensures
        ({
            let lines = linux::finish_lines(cfg, if_name);
            let servers = linux::dns_servers(text::str_views(cfg.address@));
            let mark = "0x"@ + render::hex_text(cfg.auto_redirect_input_mark as int);
            let table = render::dec_text(cfg.iproute2_table_index as int);
            let n: int = if servers.len() > 0 {
                5
            } else {
                4
            };
            let has4 = cfg.auto_redirect && linux::inet4(cfg).len() > 0;
            let has6 = cfg.auto_redirect && linux::inet6(cfg).len() > 0;
            &&& lines.len() == n + (if has4 {
                1int
            } else {
                0int
            }) + (if has6 {
                1int
            } else {
                0int
            })
            &&& lines[0] == seq!["ethtool"@, "-K"@, if_name, "tx"@, "on"@]
            &&& lines[1] == seq!["ethtool"@, "-K"@, if_name, "rx"@, "on"@]
            &&& lines[2] == seq!["resolvectl"@, "domain"@, if_name, "~."@]
            &&& lines[3] == seq!["resolvectl"@, "default-route"@, if_name, "true"@]
            &&& servers.len() > 0 ==> {
                &&& lines[4].len() == 3 + servers.len()
                &&& lines[4].subrange(0, 3) == seq!["resolvectl"@, "dns"@, if_name]
                &&& forall|k: int|
                    0 <= k < servers.len() ==> #[trigger] servers[k] == servers[k] && lines[4][3
                        + k] == render::ip_text(servers[k])
            }
            &&& has4 ==> lines[n] == seq!["ip"@, "rule"@, "add"@, "fwmark"@, mark, "lookup"@, table]
            &&& has6 ==> lines[lines.len() - 1] == seq![
                "ip"@,
                "-6"@,
                "rule"@,
                "add"@,
                "fwmark"@,
                mark,
                "lookup"@,
                table,
            ]
        }),
{
    let servers = linux::dns_servers(text::str_views(cfg.address@));
    if servers.len() > 0 {
        let l = linux::finish_lines(cfg, if_name)[4];
        assert(l == seq!["resolvectl"@, "dns"@, if_name] + linux::ip_texts(servers));
        assert(l.subrange(0, 3) =~= seq!["resolvectl"@, "dns"@, if_name]);
    }
}

/// The address behind this one, of the same version; behind the last one comes
/// the first.
pub open spec fn is_next(a: IpAddr, next: IpAddr) -> bool {
    match (a, next) {
        (IpAddr::V4(x), IpAddr::V4(y)) => y.bits == (x.bits + 1) % 0x1_0000_0000,
        (IpAddr::V6(x), IpAddr::V6(y)) => y.bits == (x.bits + 1) % (u128::MAX + 1),
        _ => false,
    }
}

/// The text reads as a prefix, and no text before it as one of its version.
pub open spec fn first_of_version(s: Seq<Seq<char>>, k: int, ip: IpAddr) -> bool {
    &&& 0 <= k < s.len()
    &&& text::addr_prefix(s[k]) matches Some((x, _)) && x == ip
    &&& forall|j: int|
        0 <= j < k ==> (text::addr_prefix(#[trigger] s[j]) matches Some((x, _)) ==> (x is V4) != (
        ip is V4))
}

/// The first address of a version makes the address behind it a resolver.
#[verifier::rlimit(40)]
pub proof fn law_first_address_resolves(s: Seq<Seq<char>>, k: int, ip: IpAddr)
    requires
        first_of_version(s, k, ip),
    ensures
        exists|j: int|
            0 <= j < linux::dns_servers(s).len() && is_next(ip, #[trigger] linux::dns_servers(s)[j]),
    decreases s.len(),
{
    let front = s.drop_last();
    let before = linux::dns_servers(front);
    let servers = linux::dns_servers(s);
    if k < s.len() - 1 {
        assert(front[k] == s[k]);
        assert forall|j: int| 0 <= j < k implies (text::addr_prefix(#[trigger] front[j]) matches Some(
            (x, _),
        ) ==> (x is V4) != (ip is V4)) by {
            assert(front[j] == s[j]);
        }
        law_first_address_resolves(front, k, ip);
        let j = choose|j: int| 0 <= j < before.len() && is_next(ip, #[trigger] before[j]);
        assert(servers[j] == before[j]);
    } else {
        assert(s.last() == s[k]);
        assert forall|j: int| 0 <= j < front.len() implies (text::addr_prefix(#[trigger] front[j])
            matches Some((x, _)) ==> (x is V4) != (ip is V4)) by {
            assert(front[j] == s[j]);
        }
        law_no_address_no_resolver(front, ip is V4);
        assert forall|j: int| 0 <= j < before.len() implies (#[trigger] before[j] is V4) != (
        ip is V4) by {}
        assert(servers.len() == before.len() + 1);
        assert(is_next(ip, servers[before.len() as int]));
    }
}

/// A version without an address has no resolver.
pub proof fn law_no_address_no_resolver(s: Seq<Seq<char>>, v4: bool)
    requires
        forall|j: int|
            0 <= j < s.len() ==> (text::addr_prefix(#[trigger] s[j]) matches Some((x, _)) ==> (
            x is V4) != v4),
    ensures
        forall|j: int|
            0 <= j < linux::dns_servers(s).len() ==> (#[trigger] linux::dns_servers(s)[j] is V4)
                != v4,
    decreases s.len(),
{
    if s.len() > 0 {
        let front = s.drop_last();
        let before = linux::dns_servers(front);
        let servers = linux::dns_servers(s);
        assert forall|j: int| 0 <= j < front.len() implies (text::addr_prefix(#[trigger] front[j])
            matches Some((x, _)) ==> (x is V4) != v4) by {
            assert(front[j] == s[j]);
        }
        law_no_address_no_resolver(front, v4);
        assert(s[s.len() - 1] == s.last());
        assert forall|j: int| 0 <= j < servers.len() implies (#[trigger] servers[j] is V4)
            != v4 by {
            if j < before.len() {
                assert(servers[j] == before[j]);
            }
        }
    }
}

/// There is at most one resolver of each version.
pub proof fn law_one_resolver_each(s: Seq<Seq<char>>)
    ensures
        forall|i: int, j: int|
            0 <= i < j < linux::dns_servers(s).len() ==> (#[trigger] linux::dns_servers(s)[i] is V4)
                != (#[trigger] linux::dns_servers(s)[j] is V4),
    decreases s.len(),
{
    if s.len() > 0 {
        let before = linux::dns_servers(s.drop_last());
        let servers = linux::dns_servers(s);
        law_one_resolver_each(s.drop_last());
        assert forall|i: int, j: int| 0 <= i < j < servers.len() implies (
        #[trigger] servers[i] is V4) != (#[trigger] servers[j] is V4) by {
            assert(servers[i] == before[i]);
            if j < before.len() {
                assert(servers[j] == before[j]);
            }
        }
    }
}

/// What setting up remembers: the routes as they were added, the priorities of
/// the rules, and in the state file the priorities behind the last ones.
#[verifier::rlimit(60)]
pub proof fn law_setup_remembers(plan: &SetupPlan, cfg: &TunInboundConfig, if_name: Seq<char>)
    requires
        linux::sets_up(plan, cfg, if_name),
    ensures
        command::lines(plan.commands@) == linux::setup_lines(cfg, if_name),
        command::lines(plan.finish@) == linux::finish_lines(cfg, if_name),
        plan.state_file@ == "/tmp/reflex-tun-"@ + render::dec_text(
            cfg.iproute2_table_index as int,
        ) + ".state"@,
        plan.state_text@ == render::dec_text(linux::device_rules(cfg, if_name).p4) + " "@
            + render::dec_text(linux::device_rules(cfg, if_name).p6),
        text::str_views(plan.state.routes_v4@) == linux::route_texts_v4(cfg),
        text::str_views(plan.state.routes_v6@) == linux::route_texts_v6(cfg),
        linux_rules::numbers(plan.state.rule_priorities@) == linux::recorded(cfg, if_name),
        plan.state.exclude_routes_v4@.len() == 0,
        plan.state.exclude_routes_v6@.len() == 0,
{
}

/// Of the rules for marked packets the IPv4 one is remembered as priority zero.
#[verifier::rlimit(60)]
pub proof fn law_priorities_remembered(cfg: &TunInboundConfig, if_name: Seq<char>)
    ensures
        linux::recorded(cfg, if_name) == linux::device_rules(cfg, if_name).recorded + (
        if cfg.auto_redirect && linux::inet4(cfg).len() > 0 {
            seq![0int]
        } else {
            Seq::empty()
        }),
{
    let r = linux::device_rules(cfg, if_name).recorded;
    assert(r.push(0) =~= r + seq![0int]);
    assert(r =~= r + Seq::<int>::empty());
}

/// The numbers of a list in ascending order, each once.
pub proof fn law_ascending(s: Seq<u32>)
    ensures
        ({
            let t = linux_teardown::ascending(s);
            &&& forall|i: int, j: int| 0 <= i < j < t.len() ==> #[trigger] t[i] < #[trigger] t[j]
            &&& forall|x: u32| #[trigger] t.contains(x) <==> s.contains(x)
        }),
    decreases s.len(),
{
    if s.len() > 0 {
        let front = s.drop_last();
        law_ascending(front);
        lemma_inserted(linux_teardown::ascending(front), s.last());
        let t = linux_teardown::ascending(s);
        assert forall|x: u32| #[trigger] t.contains(x) <==> s.contains(x) by {
            if s.contains(x) {
                let k = choose|k: int| 0 <= k < s.len() && s[k] == x;
                if k < front.len() {
                    assert(front[k] == x);
                    assert(front.contains(x));
                }
            }
            if front.contains(x) {
                let k = choose|k: int| 0 <= k < front.len() && front[k] == x;
                assert(s[k] == x);
            }
            assert(s[s.len() - 1] == s.last());
        }
    }
}

#[verifier::rlimit(40)]
proof fn lemma_inserted(t: Seq<u32>, x: u32)
    requires
        forall|i: int, j: int| 0 <= i < j < t.len() ==> #[trigger] t[i] < #[trigger] t[j],
    ensures
        ({
            let u = linux_teardown::inserted(t, x);
            &&& forall|i: int, j: int| 0 <= i < j < u.len() ==> #[trigger] u[i] < #[trigger] u[j]
            &&& forall|y: u32| #[trigger] u.contains(y) <==> t.contains(y) || y == x
        }),
    decreases t.len(),
{
    let u = linux_teardown::inserted(t, x);
    if t.len() == 0 || x > t.last() {
        assert forall|y: u32| #[trigger] u.contains(y) <==> t.contains(y) || y == x by {
            assert(u[t.len() as int] == x);
            if t.contains(y) {
                let k = choose|k: int| 0 <= k < t.len() && t[k] == y;
                assert(u[k] == y);
            }
            if u.contains(y) {
                let k = choose|k: int| 0 <= k < u.len() && u[k] == y;
                if k < t.len() {
                    assert(t[k] == y);
                }
            }
        }
    } else if x == t.last() {
        assert(t[t.len() - 1] == x);
    } else {
        let front = t.drop_last();
        lemma_inserted(front, x);
        let v = linux_teardown::inserted(front, x);
        let top = t.last();
        assert(u == v.push(top));
        assert forall|i: int| 0 <= i < v.len() implies #[trigger] v[i] < top by {
            assert(v.contains(v[i]));
            if front.contains(v[i]) {
                let k = choose|k: int| 0 <= k < front.len() && front[k] == v[i];
                assert(t[k] < t[t.len() - 1]);
            }
        }
        assert forall|y: u32| #[trigger] u.contains(y) <==> t.contains(y) || y == x by {
            assert(u[v.len() as int] == top);
            assert(t[t.len() - 1] == top);
            if u.contains(y) {
                let k = choose|k: int| 0 <= k < u.len() && u[k] == y;
                if k < v.len() {
                    assert(v[k] == y);
                    assert(v.contains(y));
                    if front.contains(y) {
                        let m = choose|m: int| 0 <= m < front.len() && front[m] == y;
                        assert(t[m] == y);
                    }
                }
            }
            if t.contains(y) || y == x {
                if y != top {
                    if t.contains(y) {
                        let m = choose|m: int| 0 <= m < t.len() && t[m] == y;
                        assert(front[m] == y);
                        assert(front.contains(y));
                    }
                    assert(v.contains(y));
                    let k = choose|k: int| 0 <= k < v.len() && v[k] == y;
                    assert(u[k] == y);
                }
            }
        }
    }
}

/// Where priorities are known, exactly these are swept, for both versions, and
/// never priority zero.
#[verifier::rlimit(40)]
pub proof fn law_known_priorities_swept(base: int, known: Seq<u32>, content: Option<Seq<char>>, v6: bool, p: u32)
    requires
        known.len() > 0,
    ensures
        linux_teardown::swept(
            linux_teardown::teardown_sweeps(base, known, content),
            v6,
            p as int,
        ) <==> known.contains(p) && p != 0,
{
    law_ascending(known);
    lemma_sweeps(linux_teardown::ascending(known), v6, p);
}

#[verifier::rlimit(40)]
proof fn lemma_sweeps(t: Seq<u32>, v6: bool, p: u32)
    ensures
        linux_teardown::swept(linux_teardown::sweeps_of(t), v6, p as int) <==> t.contains(p) && p
            != 0,
    decreases t.len(),
{
    let w = linux_teardown::sweeps_of(t);
    if t.len() > 0 {
        let front = t.drop_last();
        let before = linux_teardown::sweeps_of(front);
        lemma_sweeps(front, v6, p);
        assert(t[t.len() - 1] == t.last());
        if linux_teardown::swept(w, v6, p as int) {
            let k = choose|k: int|
                0 <= k < w.len() && (#[trigger] w[k]).v6 == v6 && w[k].first <= p <= w[k].last;
            if k < before.len() {
                assert(before[k] == w[k]);
                assert(linux_teardown::swept(before, v6, p as int));
                let j = choose|j: int| 0 <= j < front.len() && front[j] == p;
                assert(t[j] == p);
            }
        }
        if t.contains(p) && p != 0 {
            let j = choose|j: int| 0 <= j < t.len() && t[j] == p;
            if j < front.len() {
                assert(front[j] == p);
                assert(front.contains(p));
                let k = choose|k: int|
                    0 <= k < before.len() && (#[trigger] before[k]).v6 == v6 && before[k].first <= p
                        <= before[k].last;
                assert(w[k] == before[k]);
            } else {
                let at: int = if v6 {
                    before.len() as int + 1
                } else {
                    before.len() as int
                };
                assert(w[at].v6 == v6 && w[at].first <= p <= w[at].last);
            }
        }
    }
}

/// Where no priorities are known, the priorities from the first one on are
/// swept, up to those of the state file, or 120 more where it has none; and
/// always up to the rule that the others jump to.
pub proof fn law_unknown_priorities_swept(
    base: int,
    content: Option<Seq<char>>,
    v6: bool,
    p: int,
)
    requires
        0 <= base,
        base + 120 <= u32::MAX,
    ensures
        ({
            let w = linux_teardown::teardown_sweeps(base, Seq::empty(), content);
            let n = match content {
                Some(s) => text::numbers_in(text::words_of(s)),
                None => Seq::empty(),
            };
            let end: int = if n.len() < 2 {
                base + 120
            } else if v6 {
                n[1]
            } else {
                n[0]
            };
            0 <= end <= u32::MAX ==> (linux_teardown::swept(w, v6, p) <==> base <= p && (p <= end
                || p <= base + 100))
        }),
{
    let w = linux_teardown::teardown_sweeps(base, Seq::empty(), content);
    assert(w[0].v6 == false && w[1].v6 == true);
    if linux_teardown::swept(w, v6, p) {
        let k = choose|k: int|
            0 <= k < w.len() && (#[trigger] w[k]).v6 == v6 && w[k].first <= p <= w[k].last;
        assert(k == 0 || k == 1);
    }
}

/// The lines of taking down: both route tables are flushed, the resolver is
/// reverted, and redirection is removed; the state file goes where it was read.
#[verifier::rlimit(40)]
pub proof fn law_teardown_lines(
    plan: &TeardownPlan,
    cfg: &TunInboundConfig,
    if_name: Seq<char>,
    known: Seq<u32>,
    content: Option<Seq<char>>,
)
    requires
        linux_teardown::tears_down(plan, cfg, if_name, known, content),
    ensures
        ({
            let table = render::dec_text(cfg.iproute2_table_index as int);
            let mark = "0x"@ + render::hex_text(cfg.auto_redirect_input_mark as int);
            let lines = command::lines(plan.commands@);
            let ends = command::lines(plan.finish@);
            &&& lines.len() == 2
            &&& lines[0] == seq!["ip"@, "route"@, "flush"@, "table"@, table]
            &&& lines[1] == seq!["ip"@, "-6"@, "route"@, "flush"@, "table"@, table]
            &&& ends.len() == 4
            &&& ends[0] == seq!["resolvectl"@, "revert"@, if_name]
            &&& ends[1] == seq!["nft"@, "delete"@, "table"@, "inet"@, nftables::table_text(if_name)]
            &&& ends[2] == seq!["ip"@, "rule"@, "del"@, "fwmark"@, mark, "lookup"@, table]
            &&& ends[3] == seq!["ip"@, "-6"@, "rule"@, "del"@, "fwmark"@, mark, "lookup"@, table]
            &&& plan.sweeps@ == linux_teardown::teardown_sweeps(
                cfg.iproute2_rule_index as int,
                known,
                content,
            )
            &&& plan.stale_file is Some <==> known.len() == 0
            &&& plan.stale_file matches Some(f) ==> f@ == "/tmp/reflex-tun-"@ + render::dec_text(
                cfg.iproute2_table_index as int,
            ) + ".state"@
        }),
{
}

/// The line that removes a rule is the line that added it, with `del` for `add`
/// and nothing behind the priority.
pub proof fn law_rules_removed_as_added(p: int, v6: bool)
    ensures
        linux_teardown::delete_line(v6, p) == (if v6 {
            linux_rules::add_words_v6(p).update(3, "del"@)
        } else {
            linux_rules::add_words_v4(p).update(2, "del"@)
        }),
{
    assert(linux_teardown::delete_line(true, p) =~= linux_rules::add_words_v6(p).update(
        3,
        "del"@,
    ));
    assert(linux_teardown::delete_line(false, p) =~= linux_rules::add_words_v4(p).update(
        2,
        "del"@,
    ));
}

/// The table of redirection bears the name of the device, with an underscore
/// for everything that is no letter or digit.
pub proof fn law_table_name(if_name: Seq<char>)
    ensures
        ({
            let t = nftables::table_text(if_name);
            let n = "reflex_tun_"@.len() as int;
            &&& t.len() == n + if_name.len()
            &&& t.subrange(0, n) == "reflex_tun_"@
            &&& forall|k: int|
                0 <= k < if_name.len() ==> #[trigger] if_name[k] == if_name[k] && t[n + k] == (
                if nftables::alphanumeric(if_name[k]) {
                    if_name[k]
                } else {
                    '_'
                })
        }),
{
    let t = nftables::table_text(if_name);
    assert(t.subrange(0, "reflex_tun_"@.len() as int) =~= "reflex_tun_"@);
}

/// The rule set of redirection: packets from the device, the program's own, and
/// those marked already are passed over, all other TCP and UDP packets are
/// marked.
pub proof fn law_redirect_rules(cfg: &TunInboundConfig, if_name: Seq<char>)
    ensures
        ({
            let m = render::dec_text(cfg.auto_redirect_input_mark as int);
            let o = render::dec_text(cfg.auto_redirect_output_mark as int);
            let t = nftables::table_text(if_name);
            let inward =
                "    chain prerouting {\n        type filter hook prerouting priority -150; policy accept;\n        meta iifname \""@
                + if_name + "\" return comment \"skip TUN ingress\"\n        meta mark "@ + o
                + " return comment \"skip reflex own reply\"\n        meta mark "@ + m
                + " return comment \"skip already marked\"\n        meta l4proto 6 meta mark set "@
                + m
                + " accept comment \"mark TCP for TUN\"\n        meta l4proto 17 meta mark set "@ + m
                + " accept comment \"mark UDP for TUN\"\n    }\n"@;
            let outward =
                "    chain output {\n        type route hook output priority -150; policy accept;\n        meta oifname \""@
                + if_name + "\" return comment \"skip TUN egress\"\n        meta mark "@ + o
                + " return comment \"skip reflex own output\"\n        meta l4proto 6 meta mark set "@
                + m
                + " comment \"mark local TCP for TUN\"\n        meta l4proto 17 meta mark set "@ + m
                + " comment \"mark local UDP for TUN\"\n    }\n"@;
            nftables::ruleset_text(cfg, if_name) == "\nflush table inet "@ + t + "\ntable inet "@
                + t + " {\n"@ + inward + outward + "}\n"@
        }),
{
}

} // verus!
