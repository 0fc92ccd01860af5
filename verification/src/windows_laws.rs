//! Windows, step by step: which routes and addresses are set for which setting,
//! what the filters leave open, and how this process's own route is found.
use vstd::prelude::*;
use vstd::string::*;

use crate::addr::{IpAddr, Ipv4Addr, Ipv6Addr};
use crate::config::TunInboundConfig;
use crate::macos;
use crate::macos_laws;
use crate::render;
use crate::start_laws;
use crate::text;
use crate::text_laws;
use crate::windows;
use crate::windows::RouteProperty;
use crate::windows_bypass;
use crate::windows_bypass::StageView;
use crate::windows_filter;
use crate::windows_filter::{Connection, FilterView};

verus! {

/// A connection of another program, of a version that the device has, past the
/// device and not to port 53, is neither permitted nor blocked.
pub proof fn law_other_connections_open(
    program: bool,
    index: Option<u32>,
    has_v4: bool,
    has_v6: bool,
    c: Connection,
    permit: bool,
)
    requires
        !c.this_process,
        c.remote_port != 53,
        index is Some ==> c.interface != index->0,
        if c.v6 {
            has_v6
        } else {
            has_v4
        },
    ensures
        !windows_filter::decided(
            windows_filter::strict_groups(program, index, has_v4, has_v6),
            c,
            permit,
        ),
{
    let g = windows_filter::strict_groups(program, index, has_v4, has_v6);
    assert forall|f: FilterView| #[trigger]
        windows_filter::in_groups(g, f) implies !windows_filter::matches_filter(f, c) by {
        windows_filter::lemma_strict(program, index, has_v4, has_v6, f);
    }
}

/// A query of another program past the device is blocked.
pub proof fn law_queries_blocked(
    program: bool,
    index: Option<u32>,
    has_v4: bool,
    has_v6: bool,
    c: Connection,
)
    requires
        !c.this_process,
        c.remote_port == 53,
        index is Some ==> c.interface != index->0,
    ensures
        windows_filter::decided(
            windows_filter::strict_groups(program, index, has_v4, has_v6),
            c,
            false,
        ),
{
    windows_filter::law_dns_past_tun_blocked(program, index, has_v4, has_v6, c);
}

/// Only what protects this process cannot be overruled, and there is no such
/// filter without its program being known.
pub proof fn law_final_filters(
    program: bool,
    index: Option<u32>,
    has_v4: bool,
    has_v6: bool,
    f: FilterView,
)
    requires
        windows_filter::in_groups(
            windows_filter::strict_groups(program, index, has_v4, has_v6),
            f,
        ),
    ensures
        f.clear_action_right <==> f.condition is ThisProcess,
        f.condition is ThisProcess ==> program && f.permit,
        f.condition is Interface ==> f.permit && f.condition->Interface_0 == index->0 && index
            is Some,
        f.condition is Anything || f.condition is RemotePort ==> !f.permit,
{
    windows_filter::lemma_strict(program, index, has_v4, has_v6, f);
}

/// The routes into the device: the texts of the settings, or where there are
/// none everything.
pub proof fn law_tun_routes(cfg: &TunInboundConfig, v4: bool, t: Seq<char>)
    ensures
        cfg.route_address@.len() > 0 ==> (windows::tun_routes(cfg, v4).contains(t)
            <==> text::str_views(cfg.route_address@).contains(t) && start_laws::reads_as(t, v4)),
        cfg.route_address@.len() == 0 && v4 ==> windows::tun_routes(cfg, v4) == seq!["0.0.0.0/0"@],
        cfg.route_address@.len() == 0 && !v4 ==> windows::tun_routes(cfg, v4) == seq!["::/0"@],
{
    macos_laws::law_texts_of_version(text::str_views(cfg.route_address@), v4, t);
}

/// Routes are wanted only of a version that the device has an address of; what
/// is kept out, only where there is a gateway too.
pub proof fn law_wanted(cfg: &TunInboundConfig, v4: bool, gateway: bool)
    ensures
        ({
            let has = exists|k: int|
                0 <= k < text::str_views(cfg.address@).len() && start_laws::reads_as(
                    #[trigger] text::str_views(cfg.address@)[k],
                    v4,
                );
            &&& windows::wanted_routes(cfg, v4) == (if has {
                windows::tun_routes(cfg, v4)
            } else {
                Seq::empty()
            })
            &&& windows::wanted_excludes(cfg, v4, gateway) == (if has && gateway {
                macos::exclude_routes(cfg, v4)
            } else {
                Seq::empty()
            })
        }),
{
    macos_laws::law_version_among(text::str_views(cfg.address@), v4);
}

/// The IPv4 server is behind the first address that has one behind it.
pub proof fn law_server_v4(s: Seq<Seq<char>>, i: int, k: int, ip: Ipv4Addr, len: u8)
    requires
        0 <= i <= k < s.len(),
        text::addr_prefix(s[k]) == Some((IpAddr::V4(ip), len)),
        ip.bits < u32::MAX,
        forall|j: int|
            i <= j < k ==> (text::addr_prefix(#[trigger] s[j]) matches Some((IpAddr::V4(x), _))
                ==> x.bits == u32::MAX),
    ensures
        windows::server_v4(s, i) matches Some(x) && x.bits == ip.bits + 1,
    decreases k - i,
{
    if i < k {
        law_server_v4(s, i + 1, k, ip, len);
    }
}

/// The IPv6 server is behind the first address; behind the last one comes the
/// first.
pub proof fn law_server_v6(s: Seq<Seq<char>>, i: int, k: int, ip: Ipv6Addr, len: u8)
    requires
        0 <= i <= k < s.len(),
        text::addr_prefix(s[k]) == Some((IpAddr::V6(ip), len)),
        forall|j: int| i <= j < k ==> !start_laws::reads_as(#[trigger] s[j], false),
    ensures
        windows::server_v6(s, i) matches Some(x) && x.bits == (ip.bits + 1) % (u128::MAX + 1),
    decreases k - i,
{
    if i < k {
        assert(!start_laws::reads_as(s[i], false));
        law_server_v6(s, i + 1, k, ip, len);
    }
}

/// Without such an address there is no server.
pub proof fn law_no_server(s: Seq<Seq<char>>, i: int)
    requires
        0 <= i,
    ensures
        (forall|j: int| i <= j < s.len() ==> !start_laws::reads_as(#[trigger] s[j], true))
            ==> windows::server_v4(s, i) is None,
        (forall|j: int| i <= j < s.len() ==> !start_laws::reads_as(#[trigger] s[j], false))
            ==> windows::server_v6(s, i) is None,
    decreases s.len() - i,
{
    if i < s.len() {
        law_no_server(s, i + 1);
    }
}

/// What goes into the device goes to the server of its version, and to no
/// address where there is none; the servers resolve names too, IPv4 first.
pub proof fn law_servers(cfg: &TunInboundConfig)
    ensures
        ({
            let s = text::str_views(cfg.address@);
            let a = windows::server_v4(s, 0);
            let b = windows::server_v6(s, 0);
            &&& windows::gateway_of(cfg, true) == IpAddr::V4(
                match a {
                    Some(ip) => ip,
                    None => Ipv4Addr { bits: 0 },
                },
            )
            &&& windows::gateway_of(cfg, false) == IpAddr::V6(
                match b {
                    Some(ip) => ip,
                    None => Ipv6Addr { bits: 0 },
                },
            )
            &&& (match (a, b) {
                (Some(x), Some(y)) => windows::servers_of(cfg) == seq![
                    IpAddr::V4(x),
                    IpAddr::V6(y),
                ],
                (Some(x), None) => windows::servers_of(cfg) == seq![IpAddr::V4(x)],
                (None, Some(y)) => windows::servers_of(cfg) == seq![IpAddr::V6(y)],
                (None, None) => windows::servers_of(cfg).len() == 0,
            })
        }),
{
    let s = text::str_views(cfg.address@);
    let servers = windows::servers_of(cfg);
    match (windows::server_v4(s, 0), windows::server_v6(s, 0)) {
        (Some(x), Some(y)) => {
            assert(servers =~= seq![IpAddr::V4(x), IpAddr::V6(y)]);
        },
        (Some(x), None) => {
            assert(servers =~= seq![IpAddr::V4(x)]);
        },
        (None, Some(y)) => {
            assert(servers =~= seq![IpAddr::V6(y)]);
        },
        (None, None) => {},
    }
}

/// A route is added by a call, where its text reads as a prefix of the version
/// and the interface is known, and else by a command line; it is deleted the
/// same way.
pub proof fn law_route_steps(
    r: Seq<Seq<char>>,
    if_name: Seq<char>,
    gw: IpAddr,
    v4: bool,
    resolved: bool,
    k: int,
)
    requires
        0 <= k < r.len(),
    ensures
        ({
            let word = if v4 {
                "ipv4"@
            } else {
                "ipv6"@
            };
            let call = if resolved && start_laws::reads_as(r[k], v4) {
                let p = text::addr_prefix(r[k])->0;
                Some((p.0, p.1, gw))
            } else {
                None
            };
            let direct = windows::add_steps(r, if_name, gw, None, v4, resolved);
            let through = windows::add_steps(r, if_name, gw, Some(gw), v4, resolved);
            let gone = windows::delete_steps(r, if_name, Some(gw), v4, resolved);
            &&& direct.len() == r.len() && through.len() == r.len() && gone.len() == r.len()
            &&& direct[k].native == call
            &&& through[k].native == call
            &&& gone[k].native == call
            &&& windows::delete_steps(r, if_name, None, v4, resolved)[k].native is None
            &&& direct[k].fallback == seq![
                "netsh"@,
                "interface"@,
                word,
                "add"@,
                "route"@,
                r[k],
                if_name,
                "metric=0"@,
            ]
            &&& through[k].fallback == seq![
                "netsh"@,
                "interface"@,
                word,
                "add"@,
                "route"@,
                r[k],
                if_name,
                render::ip_text(gw),
                "metric=0"@,
            ]
            &&& gone[k].fallback == seq![
                "netsh"@,
                "interface"@,
                word,
                "delete"@,
                "route"@,
                r[k],
                if_name,
            ]
        }),
{
    let word = if v4 {
        "ipv4"@
    } else {
        "ipv6"@
    };
    let direct = windows::add_steps(r, if_name, gw, None, v4, resolved);
    let through = windows::add_steps(r, if_name, gw, Some(gw), v4, resolved);
    assert(direct[k].fallback =~= seq![
        "netsh"@,
        "interface"@,
        word,
        "add"@,
        "route"@,
        r[k],
        if_name,
        "metric=0"@,
    ]);
    assert(through[k].fallback =~= seq![
        "netsh"@,
        "interface"@,
        word,
        "add"@,
        "route"@,
        r[k],
        if_name,
        render::ip_text(gw),
        "metric=0"@,
    ]);
}

/// What is kept out of the device goes through the gateway of its version, and
/// nowhere without one.
pub proof fn law_excluded_steps(
    cfg: &TunInboundConfig,
    if_name: Seq<char>,
    gw: Ipv4Addr,
    gw6: Ipv6Addr,
    resolved: bool,
)
    ensures
        windows::exclude_steps(
            cfg,
            if_name,
            windows::ip_v4(Some(gw)),
            true,
            resolved,
        ) == windows::add_steps(
            windows::wanted_excludes(cfg, true, true),
            if_name,
            IpAddr::V4(gw),
            Some(IpAddr::V4(gw)),
            true,
            resolved,
        ),
        windows::exclude_steps(
            cfg,
            if_name,
            windows::ip_v6(Some(gw6)),
            false,
            resolved,
        ) == windows::add_steps(
            windows::wanted_excludes(cfg, false, true),
            if_name,
            IpAddr::V6(gw6),
            Some(IpAddr::V6(gw6)),
            false,
            resolved,
        ),
        windows::exclude_steps(cfg, if_name, windows::ip_v4(None), true, resolved).len() == 0,
        windows::exclude_steps(cfg, if_name, windows::ip_v6(None), false, resolved).len() == 0,
{
}

/// The device gets each address that a text reads as.
#[verifier::rlimit(40)]
pub proof fn law_addresses_given(s: Seq<Seq<char>>, v4: bool, if_name: Seq<char>, p: (IpAddr, u8))
    ensures
        (exists|j: int|
            0 <= j < windows::addresses_of(s, v4, if_name).len() && (#[trigger] windows::addresses_of(
                s,
                v4,
                if_name,
            )[j]).ip == p.0 && windows::addresses_of(s, v4, if_name)[j].prefix_len == p.1) <==> (
        p.0 is V4) == v4 && exists|k: int|
            0 <= k < s.len() && text::addr_prefix(#[trigger] s[k]) == Some(p),
    decreases s.len(),
{
    let all = windows::addresses_of(s, v4, if_name);
    if s.len() > 0 {
        let front = s.drop_last();
        let before = windows::addresses_of(front, v4, if_name);
        law_addresses_given(front, v4, if_name, p);
        let n = s.len() - 1;
        assert(s[n] == s.last());
        if exists|j: int|
            0 <= j < all.len() && (#[trigger] all[j]).ip == p.0 && all[j].prefix_len == p.1 {
            let j = choose|j: int|
                0 <= j < all.len() && (#[trigger] all[j]).ip == p.0 && all[j].prefix_len == p.1;
            if j < before.len() {
                assert(before[j] == all[j]);
                let k = choose|k: int|
                    0 <= k < front.len() && text::addr_prefix(#[trigger] front[k]) == Some(p);
                assert(s[k] == front[k]);
            } else {
                assert(text::addr_prefix(s[n]) == Some(p));
            }
        }
        if (p.0 is V4) == v4 && exists|k: int|
            0 <= k < s.len() && text::addr_prefix(#[trigger] s[k]) == Some(p) {
            let k = choose|k: int| 0 <= k < s.len() && text::addr_prefix(#[trigger] s[k]) == Some(p);
            if k < n {
                assert(front[k] == s[k]);
                let j = choose|j: int|
                    0 <= j < before.len() && (#[trigger] before[j]).ip == p.0
                        && before[j].prefix_len == p.1;
                assert(all[j] == before[j]);
            } else {
                assert(all[all.len() - 1].ip == p.0);
            }
        }
    }
}

/// The command lines that give an address where the call fails.
pub proof fn law_address_lines(a: Ipv4Addr, b: Ipv6Addr, len: u8, if_name: Seq<char>, mask: Ipv4Addr)
    requires
        len <= 32,
        mask.bits == 0x1_0000_0000 - vstd::arithmetic::power2::pow2((32 - len) as nat),
    ensures
        windows::address_step(IpAddr::V4(a), len, if_name).fallback == seq![
            "netsh"@,
            "interface"@,
            "ipv4"@,
            "set"@,
            "address"@,
            "name"@,
            if_name,
            "static"@,
            render::ip_text(IpAddr::V4(a)),
            render::ip_text(IpAddr::V4(mask)),
        ],
        windows::address_step(IpAddr::V6(b), len, if_name).fallback == seq![
            "netsh"@,
            "interface"@,
            "ipv6"@,
            "add"@,
            "address"@,
            if_name,
            render::prefix_text(IpAddr::V6(b), len as int),
        ],
        windows::address_step(IpAddr::V4(a), len, if_name).ip == IpAddr::V4(a),
        windows::address_step(IpAddr::V6(b), len, if_name).ip == IpAddr::V6(b),
        windows::address_step(IpAddr::V4(a), len, if_name).prefix_len == len,
        windows::address_step(IpAddr::V6(b), len, if_name).prefix_len == len,
{
}

/// The questions that the system is asked.
pub proof fn law_questions(index: u32, name: Seq<char>, script: Seq<char>)
    ensures
        windows::default_route_script(true, RouteProperty::InterfaceIndex)
            == "(Get-NetRoute -DestinationPrefix '"@ + "0.0.0.0/0"@
            + "' -ErrorAction SilentlyContinue | Sort-Object RouteMetric | Select-Object -First 1)."@
            + "InterfaceIndex"@,
        windows::default_route_script(true, RouteProperty::NextHop)
            == "(Get-NetRoute -DestinationPrefix '"@ + "0.0.0.0/0"@
            + "' -ErrorAction SilentlyContinue | Sort-Object RouteMetric | Select-Object -First 1)."@
            + "NextHop"@,
        windows::default_route_script(false, RouteProperty::InterfaceIndex)
            == "(Get-NetRoute -DestinationPrefix '"@ + "::/0"@
            + "' -ErrorAction SilentlyContinue | Sort-Object RouteMetric | Select-Object -First 1)."@
            + "InterfaceIndex"@,
        windows::interface_address_script(index) == "(Get-NetIPAddress -InterfaceIndex "@
            + render::dec_text(index as int)
            + " -AddressFamily IPv4 -ErrorAction SilentlyContinue | Select-Object -First 1).IPAddress"@,
        windows::adapter_script(name, true) == "(Get-NetAdapter -Name '"@ + name
            + "' -ErrorAction SilentlyContinue)."@ + "ifIndex"@,
        windows::adapter_script(name, false) == "(Get-NetAdapter -Name '"@ + name
            + "' -ErrorAction SilentlyContinue)."@ + "Name"@,
        windows::script_line(script) == seq![
            "powershell"@,
            "-NoProfile"@,
            "-NonInteractive"@,
            "-Command"@,
            script,
        ],
{
}

/// A list of addresses has a comma between each two.
pub proof fn law_comma_list(ips: Seq<IpAddr>, ip: IpAddr)
    ensures
        windows::comma_list(Seq::empty()).len() == 0,
        windows::comma_list(seq![ip]) == render::ip_text(ip),
        ips.len() > 0 ==> windows::comma_list(ips.push(ip)) == windows::comma_list(ips) + ","@
            + render::ip_text(ip),
{
    assert(ips.push(ip).drop_last() =~= ips);
}

/// What the search for this process's own route asks, and where an answer
/// leads: to the next question, or to the end where it is none.
pub proof fn law_bypass_steps(
    index: u32,
    gw: Ipv4Addr,
    address: Seq<char>,
    answer: Option<&str>,
    success: bool,
)
    ensures
        windows_bypass::next_stage(StageView::IndexV6, answer, success) == (StageView::Index {
            adding: true,
        }),
        match windows_bypass::answered_index(answer) {
            Some(n) => windows_bypass::next_stage(
                StageView::Index { adding: true },
                answer,
                success,
            ) == (StageView::Gateway { index: n as u32 }) && windows_bypass::next_stage(
                StageView::Index { adding: false },
                answer,
                success,
            ) == (StageView::Address { index: n as u32, gateway: None }),
            None => windows_bypass::next_stage(
                StageView::Index { adding: success },
                answer,
                success,
            ) == (StageView::Done { route: None }),
        },
        match windows_bypass::answered_v4(answer) {
            Some(bits) => windows_bypass::next_stage(
                StageView::Gateway { index },
                answer,
                success,
            ) == (StageView::Address {
                index,
                gateway: Some(Ipv4Addr { bits: bits as u32 }),
            }) && windows_bypass::registered_v4(StageView::Gateway { index }, answer, 0) == index,
            None => windows_bypass::next_stage(
                StageView::Gateway { index },
                answer,
                success,
            ) == (StageView::Done { route: None }),
        },
        windows_bypass::next_stage(
            StageView::Delete { index, gateway: Some(gw), address },
            answer,
            success,
        ) == (StageView::Add { index, next_hop: gw, address }),
        windows_bypass::next_stage(
            StageView::Delete { index, gateway: None, address },
            answer,
            success,
        ) == (StageView::Done { route: None }),
        windows_bypass::next_stage(
            StageView::Add { index, next_hop: gw, address },
            answer,
            false,
        ) == (StageView::Done { route: None }),
        windows_bypass::next_stage(
            StageView::Add { index, next_hop: gw, address },
            answer,
            true,
        ) == (StageView::Done {
            route: Some(
                render::dec_text(index as int) + "/"@ + render::ip_text(IpAddr::V4(gw)) + "/"@
                    + address,
            ),
        }),
{
}

/// The answer to a question, without the spaces round it.
pub proof fn law_bypass_answers(index: u32, gateway: Option<Ipv4Addr>, out: &str, success: bool)
    ensures
        windows_bypass::answered_index(Some(out)) == text::number(
            text::trim(out@),
            u32::MAX as int,
        ),
        windows_bypass::answered_v4(Some(out)) == text::ipv4_of(text::trim(out@)),
        windows_bypass::answered_index(None) is None,
        windows_bypass::answered_v4(None) is None,
        text::trim(out@).len() > 0 ==> windows_bypass::next_stage(
            StageView::Address { index, gateway },
            Some(out),
            success,
        ) == (StageView::Delete { index, gateway, address: text::trim(out@) }),
        text::trim(out@).len() == 0 ==> windows_bypass::next_stage(
            StageView::Address { index, gateway },
            Some(out),
            success,
        ) == (StageView::Done { route: None }),
{
}

/// The lines of the search: an old route is deleted before the new one is added
/// to the same address on the same interface.
pub proof fn law_bypass_lines(index: u32, gw: Ipv4Addr, address: Seq<char>)
    ensures
        windows_bypass::stage_line(
            StageView::Delete { index, gateway: Some(gw), address },
        ) == Some(
            seq![
                "netsh"@,
                "interface"@,
                "ipv4"@,
                "delete"@,
                "route"@,
                address + "/32"@,
                render::dec_text(index as int),
            ],
        ),
        windows_bypass::stage_line(StageView::Add { index, next_hop: gw, address }) == Some(
            seq![
                "netsh"@,
                "interface"@,
                "ipv4"@,
                "add"@,
                "route"@,
                address + "/32"@,
                render::dec_text(index as int),
                render::ip_text(IpAddr::V4(gw)),
                "metric=0"@,
            ],
        ),
        windows_bypass::stage_line(StageView::Gateway { index }) == Some(
            windows::script_line(windows::default_route_script(true, RouteProperty::NextHop)),
        ),
        windows_bypass::stage_line(StageView::Index { adding: true }) == Some(
            windows::script_line(
                windows::default_route_script(true, RouteProperty::InterfaceIndex),
            ),
        ),
        windows_bypass::stage_line(StageView::IndexV6) == Some(
            windows::script_line(
                windows::default_route_script(false, RouteProperty::InterfaceIndex),
            ),
        ),
        windows_bypass::stage_line(StageView::Address { index, gateway: Some(gw) }) == Some(
            windows::script_line(windows::interface_address_script(index)),
        ),
{
}

/// The name in an answer is the adapter's name, whatever was expected and
/// however often it was asked. With no name in the answer it is asked ten times,
/// and then the name that was expected stands.
pub proof fn law_adapter_named(expected: Seq<char>, attempt: int, name: Seq<char>, out: &str)
    requires
        out@.len() >= name.len(),
        out@.take(name.len() as int) == name,
        text_laws::blank(out@.skip(name.len() as int)),
        name.len() > 0 ==> !text::is_space(name[0]) && !text::is_space(name.last()),
    ensures
        name.len() > 0 ==> windows::named_adapter(expected, attempt, Some(out)) == Some(name),
        name.len() == 0 && attempt < 9 ==> windows::named_adapter(expected, attempt, Some(out)) is None,
        name.len() == 0 && attempt >= 9 ==> windows::named_adapter(expected, attempt, Some(out))
            == Some(expected),
        attempt < 9 ==> windows::named_adapter(expected, attempt, None) is None,
        attempt >= 9 ==> windows::named_adapter(expected, attempt, None) == Some(expected),
{
    text_laws::law_white_space_around(name, out@.skip(name.len() as int));
    assert(name + out@.skip(name.len() as int) =~= out@);
}

/// An answer with the interface's index ends the wait for it; without one it is
/// looked for thirty times.
pub proof fn law_interface_awaited(attempt: int, index: u32, out: &str, other: &str)
    requires
        out@.len() >= render::dec_text(index as int).len(),
        out@.take(render::dec_text(index as int).len() as int) == render::dec_text(index as int),
        text_laws::blank(out@.skip(render::dec_text(index as int).len() as int)),
        text_laws::blank(other@),
    ensures
        !windows::looked_for(attempt, Some(out)),
        windows::looked_for(attempt, Some(other)) <==> attempt < 29,
        windows::looked_for(attempt, None) <==> attempt < 29,
{
    let t = render::dec_text(index as int);
    render::lemma_dec_text(index as int);
    assert(text::is_digit(t[0]));
    assert(text::is_digit(t[t.len() - 1]));
    text_laws::law_white_space_around(t, out@.skip(t.len() as int));
    assert(t + out@.skip(t.len() as int) =~= out@);
    text_laws::law_white_space_around(Seq::empty(), other@);
    assert(Seq::<char>::empty() + other@ =~= other@);
}

} // verus!
