//! Routes on macOS, line by line: which are added for which setting, and that
//! taking down removes what was added.
use vstd::prelude::*;
use vstd::string::*;

use crate::addr::IpAddr;
use crate::config::TunInboundConfig;
use crate::macos;
use crate::render;
use crate::routes;
use crate::start_laws;
use crate::text;

verus! {

/// Of a list of texts those are kept that read as a prefix of the version.
pub proof fn law_texts_of_version(s: Seq<Seq<char>>, v4: bool, t: Seq<char>)
    ensures
        routes::texts_of_version(s, v4).contains(t) <==> s.contains(t) && start_laws::reads_as(
            t,
            v4,
        ),
    decreases s.len(),
{
    if s.len() > 0 {
        let front = s.drop_last();
        law_texts_of_version(front, v4, t);
        lemma_pushed(front, s.last(), t);
        assert(s =~= front.push(s.last()));
        lemma_pushed(routes::texts_of_version(front, v4), s.last(), t);
    }
}

proof fn lemma_pushed(s: Seq<Seq<char>>, last: Seq<char>, t: Seq<char>)
    ensures
        s.push(last).contains(t) <==> s.contains(t) || t == last,
{
    let u = s.push(last);
    if s.contains(t) {
        let k = choose|k: int| 0 <= k < s.len() && s[k] == t;
        assert(u[k] == t);
    }
    if t == last {
        assert(u[s.len() as int] == t);
    }
    if u.contains(t) && t != last {
        let k = choose|k: int| 0 <= k < u.len() && u[k] == t;
        assert(s[k] == t);
    }
}

/// A version is among the texts where one of them reads as a prefix of it.
pub proof fn law_version_among(s: Seq<Seq<char>>, v4: bool)
    ensures
        routes::has_version(s, v4) <==> exists|k: int|
            0 <= k < s.len() && start_laws::reads_as(#[trigger] s[k], v4),
{
    let kept = routes::texts_of_version(s, v4);
    if kept.len() > 0 {
        let t = kept[0];
        law_texts_of_version(s, v4, t);
        assert(kept.contains(t));
        let k = choose|k: int| 0 <= k < s.len() && s[k] == t;
        assert(start_laws::reads_as(s[k], v4));
    }
    if exists|k: int| 0 <= k < s.len() && start_laws::reads_as(#[trigger] s[k], v4) {
        let k = choose|k: int| 0 <= k < s.len() && start_laws::reads_as(#[trigger] s[k], v4);
        law_texts_of_version(s, v4, s[k]);
        assert(kept.contains(s[k]));
    }
}

/// The routes into the device: the texts of the settings, or where there are
/// none eight prefixes of growing size.
pub proof fn law_tun_routes(cfg: &TunInboundConfig, v4: bool, t: Seq<char>)
    ensures
        cfg.route_address@.len() > 0 ==> (macos::tun_routes(cfg, v4).contains(t)
            <==> text::str_views(cfg.route_address@).contains(t) && start_laws::reads_as(t, v4)),
        cfg.route_address@.len() == 0 ==> macos::tun_routes(cfg, v4) == macos::sub_range_texts(v4),
        macos::exclude_routes(cfg, v4).contains(t) <==> text::str_views(
            cfg.route_exclude_address@,
        ).contains(t) && start_laws::reads_as(t, v4),
{
    law_texts_of_version(text::str_views(cfg.route_address@), v4, t);
    law_texts_of_version(text::str_views(cfg.route_exclude_address@), v4, t);
}

/// A version is set up where one of the addresses is of it.
pub proof fn law_versions_set_up(cfg: &TunInboundConfig)
    ensures
        macos::has_v4(cfg) <==> exists|k: int|
            0 <= k < cfg.address@.len() && start_laws::reads_as((#[trigger] cfg.address@[k])@, true),
        macos::has_v6(cfg) <==> exists|k: int|
            0 <= k < cfg.address@.len() && start_laws::reads_as(
                (#[trigger] cfg.address@[k])@,
                false,
            ),
{
    lemma_has(cfg.address@, true);
    lemma_has(cfg.address@, false);
}

proof fn lemma_has(texts: Seq<String>, v4: bool)
    ensures
        routes::has_version(text::str_views(texts), v4) <==> exists|k: int|
            0 <= k < texts.len() && start_laws::reads_as((#[trigger] texts[k])@, v4),
{
    let s = text::str_views(texts);
    law_version_among(s, v4);
    if exists|k: int| 0 <= k < s.len() && start_laws::reads_as(#[trigger] s[k], v4) {
        let k = choose|k: int| 0 <= k < s.len() && start_laws::reads_as(#[trigger] s[k], v4);
        assert(start_laws::reads_as(texts[k]@, v4));
    }
    if exists|k: int| 0 <= k < texts.len() && start_laws::reads_as((#[trigger] texts[k])@, v4) {
        let k = choose|k: int|
            0 <= k < texts.len() && start_laws::reads_as((#[trigger] texts[k])@, v4);
        assert(start_laws::reads_as(s[k], v4));
    }
}

/// The destination is an IPv6 one: its text holds a colon.
pub open spec fn colon_in(s: Seq<char>) -> bool {
    exists|k: int| 0 <= k < s.len() && #[trigger] s[k] == ':'
}

proof fn lemma_colon(s: Seq<char>, i: int)
    requires
        0 <= i,
    ensures
        text::first_at(s, ':', i) is Some <==> exists|k: int| i <= k < s.len() && #[trigger] s[k] == ':',
    decreases s.len() - i,
{
    if i < s.len() && s[i] != ':' {
        lemma_colon(s, i + 1);
    }
}

/// A route goes through a gateway or to an interface, and says so where its
/// destination is an IPv6 one.
#[verifier::rlimit(40)]
pub proof fn law_route_lines(dst: Seq<char>, gw: IpAddr, name: Seq<char>)
    ensures
        !colon_in(dst) ==> {
            &&& macos::add_route_line(dst, Some(gw), None) == seq![
                "route"@,
                "-n"@,
                "add"@,
                "-net"@,
                dst,
                render::ip_text(gw),
            ]
            &&& macos::add_route_line(dst, None, Some(name)) == seq![
                "route"@,
                "-n"@,
                "add"@,
                "-net"@,
                dst,
                "-interface"@,
                name,
            ]
            &&& macos::delete_route_line(dst) == seq!["route"@, "-n"@, "delete"@, "-net"@, dst]
        },
        colon_in(dst) ==> {
            &&& macos::add_route_line(dst, Some(gw), None) == seq![
                "route"@,
                "-n"@,
                "add"@,
                "-inet6"@,
                "-net"@,
                dst,
                render::ip_text(gw),
            ]
            &&& macos::add_route_line(dst, None, Some(name)) == seq![
                "route"@,
                "-n"@,
                "add"@,
                "-inet6"@,
                "-net"@,
                dst,
                "-interface"@,
                name,
            ]
            &&& macos::delete_route_line(dst) == seq![
                "route"@,
                "-n"@,
                "delete"@,
                "-inet6"@,
                "-net"@,
                dst,
            ]
        },
{
    lemma_colon(dst, 0);
    if colon_in(dst) {
        assert(macos::add_route_line(dst, Some(gw), None) =~= seq![
            "route"@,
            "-n"@,
            "add"@,
            "-inet6"@,
            "-net"@,
            dst,
            render::ip_text(gw),
        ]);
        assert(macos::add_route_line(dst, None, Some(name)) =~= seq![
            "route"@,
            "-n"@,
            "add"@,
            "-inet6"@,
            "-net"@,
            dst,
            "-interface"@,
            name,
        ]);
        assert(macos::delete_route_line(dst) =~= seq![
            "route"@,
            "-n"@,
            "delete"@,
            "-inet6"@,
            "-net"@,
            dst,
        ]);
    } else {
        assert(macos::add_route_line(dst, Some(gw), None) =~= seq![
            "route"@,
            "-n"@,
            "add"@,
            "-net"@,
            dst,
            render::ip_text(gw),
        ]);
        assert(macos::add_route_line(dst, None, Some(name)) =~= seq![
            "route"@,
            "-n"@,
            "add"@,
            "-net"@,
            dst,
            "-interface"@,
            name,
        ]);
        assert(macos::delete_route_line(dst) =~= seq![
            "route"@,
            "-n"@,
            "delete"@,
            "-net"@,
            dst,
        ]);
    }
}

/// One line for each route into the device, and one to take it out again, which
/// is the other with `delete` for `add` and no interface.
pub proof fn law_routes_removed_as_added(r: Seq<Seq<char>>, if_name: Seq<char>, v4: bool, k: int)
    requires
        0 <= k < r.len(),
    ensures
        ({
            let added = macos::tun_route_lines(r, if_name, v4, false);
            let removed = macos::delete_lines(r, v4);
            let family = if v4 {
                "-net"@
            } else {
                "-inet6"@
            };
            &&& added.len() == r.len()
            &&& removed.len() == r.len()
            &&& added[k] == seq![
                "route"@,
                "-n"@,
                "add"@,
                family,
                r[k],
                "-interface"@,
                if_name,
            ]
            &&& removed[k] == seq!["route"@, "-n"@, "delete"@, family, r[k]]
            &&& macos::tun_route_lines(r, if_name, v4, true)[k] == macos::add_route_line(
                r[k],
                None,
                Some(if_name),
            )
        }),
{
}

/// What is kept out of the device goes to the gateway, where there is one.
pub proof fn law_excluded_lines(r: Seq<Seq<char>>, gw: IpAddr, v4: bool, k: int)
    requires
        0 <= k < r.len(),
    ensures
        macos::gateway_lines(r, None, v4).len() == 0,
        macos::gateway_lines(r, Some(gw), v4).len() == r.len(),
        macos::gateway_lines(r, Some(gw), v4)[k] == seq![
            "route"@,
            "-n"@,
            "add"@,
            if v4 {
                "-net"@
            } else {
                "-inet6"@
            },
            r[k],
            render::ip_text(gw),
        ],
        macos::flush_line() == seq!["dscacheutil"@, "-flushcache"@],
        macos::wanted(r, true) == r,
        macos::wanted(r, false).len() == 0,
{
}

/// A value is what stands behind the colon of the first line that begins with
/// the key, without the spaces round it.
pub proof fn law_value_of(lines: Seq<Seq<char>>, key: Seq<char>, i: int, k: int)
    requires
        0 <= i <= k < lines.len(),
        macos::starts_with(text::trim(lines[k]), key),
        forall|j: int| i <= j < k ==> !macos::starts_with(text::trim(#[trigger] lines[j]), key),
    ensures
        ({
            let parts = text::split(lines[k], ':');
            macos::value_of(lines, key, i) == (if parts.len() > 1 {
                Some(text::trim(parts[1]))
            } else {
                None
            })
        }),
    decreases k - i,
{
    if i < k {
        law_value_of(lines, key, i + 1, k);
    }
}

/// Without a line that begins with the key there is no value.
pub proof fn law_no_value(lines: Seq<Seq<char>>, key: Seq<char>, i: int)
    requires
        0 <= i,
        forall|j: int|
            i <= j < lines.len() ==> !macos::starts_with(text::trim(#[trigger] lines[j]), key),
    ensures
        macos::value_of(lines, key, i) is None,
    decreases lines.len() - i,
{
    if i < lines.len() {
        law_no_value(lines, key, i + 1);
    }
}

/// The gateway is the value of `gateway:`, where that reads as an address; the
/// question for it names the version.
pub proof fn law_gateway(output: Seq<char>)
    ensures
        macos::gateway_in(output) == (match macos::value_of(
            text::split(output, '\n'),
            "gateway:"@,
            0,
        ) {
            Some(v) => text::ip_of(v),
            None => None,
        }),
        macos::default_route_line(false) == seq!["route"@, "-n"@, "get"@, "default"@],
        macos::default_route_line(true) == seq!["route"@, "-n"@, "get"@, "-inet6"@, "default"@],
{
    assert(macos::default_route_line(false) =~= seq!["route"@, "-n"@, "get"@, "default"@]);
    assert(macos::default_route_line(true) =~= seq!["route"@, "-n"@, "get"@, "-inet6"@, "default"@]);
}

} // verus!
