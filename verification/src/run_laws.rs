//! The run of an inbound: what its settings decide, and which phase follows
//! which.
use vstd::prelude::*;
use vstd::string::*;

use crate::addr::{IpAddr, Ipv4Addr, Ipv6Addr};
use crate::config::TunInboundConfig;
use crate::inbound;
use crate::options;
use crate::options::{Duration, Options, StackKind};
use crate::plain;
use crate::render;
use crate::run;
use crate::run::{InboundPlan, RunEvent, RunPhase, RunSettings, RunState};
use crate::start_laws;
use crate::tcp;
use crate::text;

verus! {

/// The phases between the offload and the end of the start, in their order, and
/// whether the settings ask for them.
pub open spec fn asked(s: RunSettings, k: int) -> bool {
    let system = s.stack == StackKind::System;
    let listens = s.stack != StackKind::Gvisor;
    if k == 0 {
        system && s.slow_address && s.auto_route && s.has_v4
    } else if k == 1 {
        listens && s.has_v4
    } else if k == 2 {
        listens && s.has_v6
    } else if k == 3 {
        system && s.dns_hijack && s.has_v4
    } else if k == 4 {
        system && s.dns_hijack && s.has_v6
    } else {
        true
    }
}

pub open spec fn phase(k: int) -> RunPhase {
    if k == 0 {
        RunPhase::Address { attempt: 0 }
    } else if k == 1 {
        RunPhase::ListenV4 { attempt: 0 }
    } else if k == 2 {
        RunPhase::ListenV6 { attempt: 0 }
    } else if k == 3 {
        RunPhase::QueriesV4
    } else if k == 4 {
        RunPhase::QueriesV6
    } else {
        RunPhase::Serve
    }
}

/// The phase is the first one from `k` on that the settings ask for.
pub open spec fn next_asked(s: RunSettings, k: int, p: RunPhase) -> bool {
    exists|j: int|
        k <= j <= 5 && p == #[trigger] phase(j) && asked(s, j) && forall|i: int|
            k <= i < j ==> !#[trigger] asked(s, i)
}

proof fn lemma_next(s: RunSettings, k: int) -> (j: int)
    requires
        0 <= k <= 5,
    ensures
        k <= j <= 5,
        asked(s, j),
        forall|i: int| k <= i < j ==> !#[trigger] asked(s, i),
        phase(j) == (if k == 0 {
            run::from_address(s)
        } else if k == 1 {
            run::from_listen_v4(s)
        } else if k == 2 && s.stack != StackKind::Gvisor {
            run::from_listen_v6(s)
        } else if k == 3 {
            run::from_queries_v4(s)
        } else if k == 4 {
            run::from_queries_v6(s)
        } else {
            phase(j)
        }),
    decreases 5 - k,
{
    if asked(s, k) {
        k
    } else {
        lemma_next(s, k + 1)
    }
}

/// Only the phase changes.
pub open spec fn else_same(a: RunState, b: RunState) -> bool {
    &&& a.vnet_hdr == b.vnet_hdr
    &&& a.merge == b.merge
    &&& a.port_v4 == b.port_v4
    &&& a.port_v6 == b.port_v6
    &&& a.dns_v4 == b.dns_v4
    &&& a.dns_v6 == b.dns_v6
}

/// The start: the device is looked for at most forty times; then routes are set
/// up where that is asked for; then the offload is tried, and where packets may
/// be merged, merging.
pub proof fn law_run_starts(s: RunSettings, st: RunState, event: RunEvent)
    ensures
        ({
            let n = run::run_next(s, st, event);
            match (st.phase, event) {
                (RunPhase::Look { attempt }, RunEvent::Looked(seen)) => {
                    &&& else_same(n, st)
                    &&& !seen && attempt < 39 ==> n.phase == (RunPhase::Look {
                        attempt: (attempt + 1) as u32,
                    })
                    &&& (seen || attempt >= 39) && s.auto_route ==> n.phase == RunPhase::Setup
                    &&& (seen || attempt >= 39) && !s.auto_route ==> n.phase == RunPhase::Offload
                },
                (RunPhase::Setup, RunEvent::SetUp) => else_same(n, st) && n.phase
                    == RunPhase::Offload,
                (RunPhase::Offload, RunEvent::Offered(o)) => {
                    &&& n.vnet_hdr == o.vnet_hdr
                    &&& n.merge.tcp_off == !o.tcp_gso
                    &&& n.merge.udp_off == !o.udp_gso
                    &&& n.port_v4 == st.port_v4 && n.port_v6 == st.port_v6
                    &&& n.dns_v4 == st.dns_v4 && n.dns_v6 == st.dns_v6
                    &&& if o.vnet_hdr && o.tcp_gso {
                        n.phase == RunPhase::Probe
                    } else {
                        next_asked(s, 0, n.phase)
                    }
                },
                (RunPhase::Probe, RunEvent::Probed(written)) => {
                    &&& next_asked(s, 0, n.phase)
                    &&& written ==> else_same(n, st)
                    &&& !written ==> n.merge.tcp_off && n.merge.udp_off && n.vnet_hdr == st.vnet_hdr
                },
                _ => true,
            }
        }),
{
    let j = lemma_next(s, 0);
    assert(run::from_address(s) == phase(j));
    assert(next_asked(s, 0, phase(j)));
}

/// Listening: the address is waited for at most thirty times, each listener is
/// tried at most three times, and its port is remembered; where none comes up,
/// the mixed stack fails for IPv4 and all else goes on.
pub proof fn law_run_listens(s: RunSettings, st: RunState, event: RunEvent)
    requires
        s.stack != StackKind::Gvisor,
    ensures
        ({
            let n = run::run_next(s, st, event);
            match (st.phase, event) {
                (RunPhase::Address { attempt }, RunEvent::Tried(usable)) => {
                    &&& else_same(n, st)
                    &&& usable || attempt >= 29 ==> next_asked(s, 1, n.phase)
                    &&& !usable && attempt < 29 ==> n.phase == (RunPhase::Address {
                        attempt: (attempt + 1) as u32,
                    })
                },
                (RunPhase::ListenV4 { attempt }, RunEvent::Listening(port)) => match port {
                    Some(p) => {
                        &&& next_asked(s, 2, n.phase)
                        &&& n.port_v4 == p
                        &&& else_same((RunState { port_v4: st.port_v4, ..n }), st)
                    },
                    None => {
                        &&& else_same(n, st)
                        &&& attempt < 2 ==> n.phase == (RunPhase::ListenV4 {
                            attempt: (attempt + 1) as u32,
                        })
                        &&& attempt >= 2 && s.stack == StackKind::Mixed ==> n.phase
                            == RunPhase::Failed
                        &&& attempt >= 2 && s.stack != StackKind::Mixed ==> next_asked(
                            s,
                            2,
                            n.phase,
                        )
                    },
                },
                (RunPhase::ListenV6 { attempt }, RunEvent::Listening(port)) => match port {
                    Some(p) => {
                        &&& next_asked(s, 3, n.phase)
                        &&& n.port_v6 == p
                        &&& else_same((RunState { port_v6: st.port_v6, ..n }), st)
                    },
                    None => {
                        &&& else_same(n, st)
                        &&& attempt < 2 ==> n.phase == (RunPhase::ListenV6 {
                            attempt: (attempt + 1) as u32,
                        })
                        &&& attempt >= 2 ==> next_asked(s, 3, n.phase)
                    },
                },
                (RunPhase::QueriesV4, RunEvent::Listening(port)) => {
                    &&& next_asked(s, 4, n.phase)
                    &&& n.dns_v4 == port
                    &&& else_same((RunState { dns_v4: st.dns_v4, ..n }), st)
                },
                (RunPhase::QueriesV6, RunEvent::Listening(port)) => {
                    &&& n.phase == RunPhase::Serve
                    &&& n.dns_v6 == port
                    &&& else_same((RunState { dns_v6: st.dns_v6, ..n }), st)
                },
                _ => true,
            }
        }),
{
    let j1 = lemma_next(s, 1);
    let j2 = lemma_next(s, 2);
    let j3 = lemma_next(s, 3);
    let j4 = lemma_next(s, 4);
    assert(next_asked(s, 1, phase(j1)));
    assert(next_asked(s, 2, phase(j2)));
    assert(next_asked(s, 3, phase(j3)));
    assert(next_asked(s, 4, phase(j4)));
}

/// The end: routes that the system stack set up are taken down first; and what
/// does not belong to a phase changes nothing.
pub proof fn law_run_ends(s: RunSettings, st: RunState, event: RunEvent)
    ensures
        ({
            let n = run::run_next(s, st, event);
            &&& st.phase == RunPhase::Serve && event == RunEvent::Closed ==> {
                &&& else_same(n, st)
                &&& s.stack == StackKind::System && s.auto_route ==> n.phase == RunPhase::Teardown
                &&& !(s.stack == StackKind::System && s.auto_route) ==> n.phase
                    == RunPhase::Finished
            }
            &&& st.phase == RunPhase::Teardown && event == RunEvent::TornDown ==> else_same(n, st)
                && n.phase == RunPhase::Finished
            &&& st.phase == RunPhase::Finished || st.phase == RunPhase::Failed ==> n == st
        }),
{
}

/// The segment size: as the settings say, else what the tunnel leaves beside 60
/// bytes of headers, or beside 40 where it takes no more than 60.
pub proof fn law_segment_size(given: Option<u16>, mtu: u32)
    ensures
        given is Some ==> tcp::effective_mss(given, mtu) == given,
        given is None && 60 < mtu < 65596 ==> (tcp::effective_mss(given, mtu) matches Some(n) && n
            + 60 == mtu),
        given is None && 40 < mtu <= 60 ==> (tcp::effective_mss(given, mtu) matches Some(n) && n
            + 40 == mtu),
        given is None && mtu <= 40 ==> tcp::effective_mss(given, mtu) is None,
{
}

/// What the settings decide of a run.
pub proof fn law_plan(
    plan: InboundPlan,
    cfg: TunInboundConfig,
    a: Seq<(Ipv4Addr, u8)>,
    b: Seq<(Ipv6Addr, u8)>,
)
    requires
        plan.follows(cfg, a, b),
    ensures
        plan.addresses.go_with(a, b),
        plan.loopback_v4@ == inbound::loopbacks_v4(text::str_views(cfg.loopback_address@)),
        plan.loopback_v6@ == inbound::loopbacks_v6(text::str_views(cfg.loopback_address@)),
        plan.broadcast is Some <==> a.len() > 0,
        plan.broadcast matches Some(x) ==> plain::lies_in_v4(x, a[0].0, a[0].1) && forall|
            y: Ipv4Addr,
        | #[trigger]
            plain::lies_in_v4(y, a[0].0, a[0].1) ==> y.bits <= x.bits,
        plan.tcp_mss == tcp::effective_mss(cfg.tcp_mss, cfg.mtu),
        cfg.udp_timeout > 0 ==> plan.udp_timeout == cfg.udp_timeout,
        cfg.udp_timeout == 0 ==> plan.udp_timeout == 300,
        cfg.mtu < 65536 ==> plan.device_mtu == cfg.mtu,
        plan.device_address matches Some((x, _)) ==> a.len() > 0 && x == a[0].0,
        plan.auto_route == cfg.auto_route,
        cfg.stack@ == "gvisor"@ ==> plan.stack == StackKind::Gvisor,
        plan.stack == StackKind::Gvisor ==> cfg.stack@ == "gvisor"@,
        plan.stack == StackKind::Mixed ==> cfg.stack@ == "mixed"@,
        cfg.stack@ == "mixed"@ ==> plan.stack == StackKind::Mixed,
{
    if a.len() > 0 {
        start_laws::law_last_address(a[0].0, a[0].1, plan.broadcast->0);
    }
    reveal_strlit("gvisor");
    reveal_strlit("mixed");
    assert("gvisor"@.len() != "mixed"@.len());
}

/// A prefix is among the options exactly where a text of the settings reads as
/// it, each in the list of its version.
pub proof fn law_prefixes_in(s: Seq<Seq<char>>, p: (IpAddr, u8), v4: bool)
    ensures
        options::prefixes_in(s, v4).contains(p) <==> (p.0 is V4) == v4 && exists|k: int|
            0 <= k < s.len() && text::addr_prefix(#[trigger] s[k]) == Some(p),
    decreases s.len(),
{
    if s.len() > 0 {
        let front = s.drop_last();
        law_prefixes_in(front, p, v4);
        lemma_one_more(s, p);
        if text::addr_prefix(s.last()) is Some {
            lemma_pushed(options::prefixes_in(front, v4), text::addr_prefix(s.last())->0, p);
        }
    }
}

proof fn lemma_pushed(list: Seq<(IpAddr, u8)>, last: (IpAddr, u8), p: (IpAddr, u8))
    ensures
        list.push(last).contains(p) <==> list.contains(p) || p == last,
{
    let longer = list.push(last);
    if list.contains(p) {
        let k = choose|k: int| 0 <= k < list.len() && list[k] == p;
        assert(longer[k] == p);
    }
    if p == last {
        assert(longer[list.len() as int] == p);
    }
    if longer.contains(p) && p != last {
        let k = choose|k: int| 0 <= k < longer.len() && longer[k] == p;
        assert(list[k] == p);
    }
}

proof fn lemma_one_more(s: Seq<Seq<char>>, p: (IpAddr, u8))
    requires
        s.len() > 0,
    ensures
        (exists|k: int| 0 <= k < s.len() && text::addr_prefix(#[trigger] s[k]) == Some(p)) <==> (
        exists|k: int|
            0 <= k < s.len() - 1 && text::addr_prefix(#[trigger] s.drop_last()[k]) == Some(p))
            || text::addr_prefix(s.last()) == Some(p),
{
    let front = s.drop_last();
    assert(s[s.len() - 1] == s.last());
    if exists|k: int| 0 <= k < s.len() && text::addr_prefix(#[trigger] s[k]) == Some(p) {
        let k = choose|k: int| 0 <= k < s.len() && text::addr_prefix(#[trigger] s[k]) == Some(p);
        if k < s.len() - 1 {
            assert(front[k] == s[k]);
        }
    }
    if exists|k: int| 0 <= k < s.len() - 1 && text::addr_prefix(#[trigger] front[k]) == Some(p) {
        let k = choose|k: int|
            0 <= k < s.len() - 1 && text::addr_prefix(#[trigger] front[k]) == Some(p);
        assert(s[k] == front[k]);
    }
}

/// A user range is a number, or two with a colon between them; one number
/// stands for itself alone.
pub proof fn law_user_texts(a: u32, b: u32)
    ensures
        options::loose_uid_range(render::dec_text(a as int)) == Some((a, a)),
        options::loose_uid_range(options::uid_text((a, b))) == Some((a, b)),
{
    let x = render::dec_text(a as int);
    let y = render::dec_text(b as int);
    let s = options::uid_text((a, b));
    reveal_strlit(":");
    assert(s =~= x.push(':') + y);
    render::lemma_number_lacks(a as int, ':');
    render::lemma_split_at(x, ':', y);
    assert(s.subrange(0, x.len() as int) =~= x);
    assert(s.subrange(x.len() as int + 1, s.len() as int) =~= y);
    render::law_number_read_back(a as int, u32::MAX as int);
    render::law_number_read_back(b as int, u32::MAX as int);
    crate::uid_laws::lemma_absent(x, ':', 0);
}

/// Settings become options one by one: texts become what they read as, and what
/// has no setting has its usual value.
#[verifier::rlimit(40)]
pub proof fn law_options_follow_settings(cfg: &TunInboundConfig, o: &Options, p: (IpAddr, u8), k: int)
    requires
        options::options_match(cfg, o),
    ensures
        o.inet4_address@.contains(p) <==> p.0 is V4 && named(cfg.address@, p),
        o.inet6_address@.contains(p) <==> p.0 is V6 && named(cfg.address@, p),
        o.inet4_route_address@.contains(p) <==> p.0 is V4 && named(cfg.route_address@, p),
        o.inet6_route_address@.contains(p) <==> p.0 is V6 && named(cfg.route_address@, p),
        o.inet4_route_exclude_address@.contains(p) <==> p.0 is V4 && named(
            cfg.route_exclude_address@,
            p,
        ),
        o.inet6_route_exclude_address@.contains(p) <==> p.0 is V6 && named(
            cfg.route_exclude_address@,
            p,
        ),
        o.mtu == cfg.mtu,
        o.gso,
        o.auto_route == cfg.auto_route,
        o.strict_route == cfg.strict_route,
        o.inet4_gateway is None && o.inet6_gateway is None && o.dns_servers@.len() == 0,
        o.iproute2_table_index == cfg.iproute2_table_index,
        o.iproute2_rule_index == cfg.iproute2_rule_index,
        0 <= k < cfg.include_uid@.len() ==> o.include_uid@[k] == (
            cfg.include_uid@[k],
            cfg.include_uid@[k],
        ),
        0 <= k < cfg.exclude_uid@.len() ==> o.exclude_uid@[k] == (
            cfg.exclude_uid@[k],
            cfg.exclude_uid@[k],
        ),
        o.tcp_mss == cfg.tcp_mss,
        cfg.udp_timeout > 0 ==> o.udp_timeout == (Duration { secs: cfg.udp_timeout, nanos: 0 }),
        cfg.udp_timeout == 0 ==> o.udp_timeout == (Duration { secs: 300, nanos: 0 }),
        cfg.stack@ == "gvisor"@ <==> o.stack == StackKind::Gvisor,
        cfg.stack@ == "mixed"@ <==> o.stack == StackKind::Mixed,
        o.auto_redirect == cfg.auto_redirect,
        o.auto_redirect_input_mark == cfg.auto_redirect_input_mark,
        o.auto_redirect_output_mark == cfg.auto_redirect_output_mark,
        o.include_android_user@ == cfg.include_android_user@,
        text::str_views(o.include_interface@) == text::str_views(cfg.include_interface@),
        text::str_views(o.exclude_interface@) == text::str_views(cfg.exclude_interface@),
        text::str_views(o.include_package@) == text::str_views(cfg.include_package@),
        text::str_views(o.exclude_package@) == text::str_views(cfg.exclude_package@),
{
    lemma_named(cfg.address@, p);
    lemma_named(cfg.route_address@, p);
    lemma_named(cfg.route_exclude_address@, p);
    reveal_strlit("");
    reveal_strlit("system");
    reveal_strlit("gvisor");
    reveal_strlit("mixed");
    if cfg.stack@ == "gvisor"@ || cfg.stack@ == "mixed"@ {
        assert("gvisor"@[0] != "system"@[0]);
        assert("gvisor"@.len() != "mixed"@.len());
        assert("system"@.len() != "mixed"@.len());
    }
}

/// One of the texts reads as the prefix.
pub open spec fn named(texts: Seq<String>, p: (IpAddr, u8)) -> bool {
    exists|k: int| 0 <= k < texts.len() && text::addr_prefix((#[trigger] texts[k])@) == Some(p)
}

proof fn lemma_named(texts: Seq<String>, p: (IpAddr, u8))
    ensures
        options::prefixes_in(text::str_views(texts), true).contains(p) <==> p.0 is V4 && named(
            texts,
            p,
        ),
        options::prefixes_in(text::str_views(texts), false).contains(p) <==> p.0 is V6 && named(
            texts,
            p,
        ),
{
    let s = text::str_views(texts);
    law_prefixes_in(s, p, true);
    law_prefixes_in(s, p, false);
    if named(texts, p) {
        let k = choose|k: int|
            0 <= k < texts.len() && text::addr_prefix((#[trigger] texts[k])@) == Some(p);
        assert(text::addr_prefix(s[k]) == Some(p));
    }
    if exists|k: int| 0 <= k < s.len() && text::addr_prefix(#[trigger] s[k]) == Some(p) {
        let k = choose|k: int| 0 <= k < s.len() && text::addr_prefix(#[trigger] s[k]) == Some(p);
        assert(text::addr_prefix(texts[k]@) == Some(p));
    }
}

/// Options become settings one by one: what they hold is written out, IPv4
/// before IPv6.
#[verifier::rlimit(40)]
pub proof fn law_settings_follow_options(o: &Options, tag: Seq<char>, cfg: &TunInboundConfig, k: int)
    requires
        options::config_matches(o, tag, cfg),
    ensures
        cfg.tag@ == tag,
        cfg.mtu == o.mtu,
        cfg.auto_route == o.auto_route,
        cfg.strict_route == o.strict_route,
        cfg.iproute2_table_index == o.iproute2_table_index,
        cfg.iproute2_rule_index == o.iproute2_rule_index,
        cfg.so_mark is None,
        !cfg.override_android_vpn,
        cfg.udp_timeout == o.udp_timeout.secs,
        cfg.tcp_mss == o.tcp_mss,
        cfg.auto_redirect == o.auto_redirect,
        cfg.auto_redirect_input_mark == o.auto_redirect_input_mark,
        cfg.auto_redirect_output_mark == o.auto_redirect_output_mark,
        cfg.include_uid@.len() == 0 && cfg.exclude_uid@.len() == 0,
        cfg.include_android_user@ == o.include_android_user@,
        o.stack == StackKind::System ==> cfg.stack@ == "system"@,
        o.stack == StackKind::Gvisor ==> cfg.stack@ == "gvisor"@,
        o.stack == StackKind::Mixed ==> cfg.stack@ == "mixed"@,
        writes(text::str_views(cfg.address@), o.inet4_address@, o.inet6_address@, k),
        writes(text::str_views(cfg.route_address@), o.inet4_route_address@, o.inet6_route_address@, k),
        writes(
            text::str_views(cfg.route_exclude_address@),
            o.inet4_route_exclude_address@,
            o.inet6_route_exclude_address@,
            k,
        ),
        0 <= k < o.include_uid@.len() ==> text::str_views(cfg.include_uid_range@)[k]
            == options::uid_text(o.include_uid@[k]),
        0 <= k < o.exclude_uid@.len() ==> text::str_views(cfg.exclude_uid_range@)[k]
            == options::uid_text(o.exclude_uid@[k]),
        text::str_views(cfg.include_interface@) == text::str_views(o.include_interface@),
        text::str_views(cfg.exclude_interface@) == text::str_views(o.exclude_interface@),
        text::str_views(cfg.include_package@) == text::str_views(o.include_package@),
        text::str_views(cfg.exclude_package@) == text::str_views(o.exclude_package@),
{
}

/// The texts are those of the two lists, one after the other.
pub open spec fn writes(
    texts: Seq<Seq<char>>,
    a: Seq<(IpAddr, u8)>,
    b: Seq<(IpAddr, u8)>,
    k: int,
) -> bool {
    &&& texts.len() == a.len() + b.len()
    &&& 0 <= k < a.len() ==> texts[k] == render::prefix_text(a[k].0, a[k].1 as int)
    &&& 0 <= k < b.len() ==> texts[a.len() + k] == render::prefix_text(b[k].0, b[k].1 as int)
}

} // verus!
