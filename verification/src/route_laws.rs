//! Routes, told from the texts of the settings: every address that one of the
//! texts names is led into the device or kept out of it, as the text says.
use vstd::arithmetic::div_mod;
use vstd::arithmetic::power2;
use vstd::prelude::*;

use crate::addr;
use crate::addr::{IpAddr, Ipv4Addr, Ipv6Addr};
use crate::config::TunInboundConfig;
use crate::plain;
use crate::routes;
use crate::text;

verus! {

/// All bits of the address behind the first `len` are zero.
pub open spec fn is_network(a: int, len: int, bits: int) -> bool {
    forall|k: int| 0 <= k < bits - len ==> #[trigger] plain::bit(a, k) == 0
}

proof fn lemma_low_bits(a: int, n: int)
    requires
        0 <= n,
        0 <= a,
        forall|k: int| 0 <= k < n ==> #[trigger] plain::bit(a, k) == 0,
    ensures
        a % (power2::pow2(n as nat) as int) == 0,
    decreases n,
{
    if n == 0 {
        power2::lemma2_to64();
    } else {
        lemma_low_bits(a, n - 1);
        let h = power2::pow2((n - 1) as nat) as int;
        power2::lemma_pow2_pos((n - 1) as nat);
        power2::lemma_pow2_unfold(n as nat);
        assert(plain::bit(a, n - 1) == 0);
        div_mod::lemma_fundamental_div_mod(a, h);
        let q = a / h;
        assert(a == h * q);
        div_mod::lemma_fundamental_div_mod(q, 2);
        assert(q == 2 * (q / 2));
        assert(a == (q / 2) * (2 * h)) by (nonlinear_arith)
            requires
                a == h * q,
                q == 2 * (q / 2),
        ;
        div_mod::lemma_mod_multiples_basic(q / 2, 2 * h);
    }
}

pub proof fn lemma_network(a: int, len: int, bits: int)
    requires
        0 <= len <= bits,
        0 <= a,
        is_network(a, len, bits),
    ensures
        addr::block_start(a, len, bits) == a,
{
    lemma_low_bits(a, bits - len);
}

proof fn lemma_upper_half(net: int, pl: int, bits: int)
    requires
        0 <= pl < bits,
        net >= 0,
    ensures
        addr::same_block(routes::right_half(net, pl, bits), net, pl, bits),
        routes::right_half(net, pl, bits) >= 0,
{
    routes::lemma_halves(pl, bits);
    let half = addr::block_size(pl + 1, bits);
    let q = net / (2 * half);
    div_mod::lemma_fundamental_div_mod(net, 2 * half);
    div_mod::lemma_mod_bound(net, 2 * half);
    div_mod::lemma_div_pos_is_pos(net, 2 * half);
    let right = routes::right_half(net, pl, bits);
    assert(right == q * (2 * half) + half) by {
        assert(2 * half * q == q * (2 * half)) by (nonlinear_arith);
    }
    div_mod::lemma_fundamental_div_mod_converse(right, 2 * half, q, half);
    assert(q * (2 * half) >= 0) by (nonlinear_arith)
        requires
            q >= 0,
            half > 0,
    ;
}

/// What is left of a prefix lies in the prefix, and in none of the excluded
/// ones.
proof fn lemma_left_over(net: int, pl: int, e: Seq<(int, int)>, bits: int, x: int)
    requires
        0 <= pl <= bits,
        net >= 0,
        x >= 0,
        forall|k: int|
            0 <= k < e.len() ==> 0 <= (#[trigger] e[k]).1 <= bits && e[k].0 >= 0,
        routes::in_prefixes(routes::subtracted(net, pl, e, bits), x, bits),
    ensures
        addr::same_block(x, net, pl, bits),
        !routes::in_prefixes(e, x, bits),
    decreases bits - pl,
{
    if routes::held_by_one(net, pl, e, bits) {
    } else if pl >= bits || !routes::meets_one(net, pl, e, bits) {
        assert(routes::halves_cleanly(net, pl, e, bits));
        routes::law_subtracted_covers(net, pl, e, bits, x);
    } else {
        let right = routes::right_half(net, pl, bits);
        let a = routes::subtracted(net, pl + 1, e, bits);
        let b = routes::subtracted(right, pl + 1, e, bits);
        routes::lemma_in_prefixes_concat(a, b, x, bits);
        lemma_upper_half(net, pl, bits);
        if routes::in_prefixes(a, x, bits) {
            lemma_left_over(net, pl + 1, e, bits, x);
            routes::lemma_coarser(x, net, pl + 1, pl, bits);
        } else {
            lemma_left_over(right, pl + 1, e, bits, x);
            routes::lemma_coarser(x, right, pl + 1, pl, bits);
        }
    }
}

proof fn lemma_all_left_over(r: Seq<(int, int)>, e: Seq<(int, int)>, bits: int, x: int)
    requires
        x >= 0,
        forall|k: int|
            0 <= k < e.len() ==> 0 <= (#[trigger] e[k]).1 <= bits && e[k].0 >= 0,
        forall|k: int|
            0 <= k < r.len() ==> 0 <= (#[trigger] r[k]).1 <= bits && r[k].0 >= 0,
        routes::in_prefixes(routes::all_subtracted(r, e, bits), x, bits),
    ensures
        routes::in_prefixes(r, x, bits),
        !routes::in_prefixes(e, x, bits),
    decreases r.len(),
{
    if r.len() > 0 {
        let t = r.drop_last();
        let last = r.last();
        assert(last == r[r.len() - 1]);
        let a = routes::all_subtracted(t, e, bits);
        let b = routes::subtracted(last.0, last.1, e, bits);
        routes::lemma_in_prefixes_concat(a, b, x, bits);
        if routes::in_prefixes(a, x, bits) {
            assert forall|k: int| 0 <= k < t.len() implies 0 <= (#[trigger] t[k]).1 <= bits
                && t[k].0 >= 0 by {
                assert(t[k] == r[k]);
            }
            lemma_all_left_over(t, e, bits, x);
            let k = choose|k: int|
                0 <= k < t.len() && addr::same_block(x, (#[trigger] t[k]).0, t[k].1, bits);
            assert(r[k] == t[k]);
        } else {
            lemma_left_over(last.0, last.1, e, bits, x);
            assert(addr::same_block(x, r[r.len() - 1].0, r[r.len() - 1].1, bits));
        }
    }
}

/// One clean target is enough.
proof fn lemma_one_target(r: Seq<(int, int)>, e: Seq<(int, int)>, bits: int, x: int, k: int)
    requires
        x >= 0,
        0 <= k < r.len(),
        forall|j: int|
            0 <= j < e.len() ==> 0 <= (#[trigger] e[j]).1 <= bits && e[j].0 >= 0,
        0 <= r[k].1 <= bits,
        r[k].0 >= 0,
        addr::block_start(r[k].0, r[k].1, bits) == r[k].0,
        addr::same_block(x, r[k].0, r[k].1, bits),
        !routes::in_prefixes(e, x, bits),
    ensures
        routes::in_prefixes(routes::all_subtracted(r, e, bits), x, bits),
    decreases r.len(),
{
    let t = r.drop_last();
    let last = r.last();
    let a = routes::all_subtracted(t, e, bits);
    let b = routes::subtracted(last.0, last.1, e, bits);
    routes::lemma_in_prefixes_concat(a, b, x, bits);
    if k == r.len() - 1 {
        routes::law_network_halves_cleanly(last.0, last.1, e, bits);
        routes::law_subtracted_covers(last.0, last.1, e, bits, x);
    } else {
        assert(t[k] == r[k]);
        lemma_one_target(t, e, bits, x, k);
    }
}

/// The text reads as a prefix that holds the address.
pub open spec fn names_v4(s: Seq<char>, x: Ipv4Addr) -> bool {
    text::addr_prefix(s) matches Some((IpAddr::V4(net), len)) && plain::lies_in_v4(x, net, len)
}

/// The text reads as a prefix that holds the address, and gives the prefix by
/// its network address.
pub open spec fn names_network_v4(s: Seq<char>, x: Ipv4Addr) -> bool {
    text::addr_prefix(s) matches Some((IpAddr::V4(net), len)) && plain::lies_in_v4(x, net, len)
        && is_network(net.bits as int, len as int, 32)
}

/// One of the texts reads as a prefix that holds the address.
pub open spec fn one_names_v4(texts: Seq<String>, x: Ipv4Addr) -> bool {
    exists|k: int| 0 <= k < texts.len() && names_v4((#[trigger] texts[k])@, x)
}

pub open spec fn one_names_network_v4(texts: Seq<String>, x: Ipv4Addr) -> bool {
    exists|k: int| 0 <= k < texts.len() && names_network_v4((#[trigger] texts[k])@, x)
}

/// Every prefix that was read comes from a text, and from every text that
/// reads as a prefix one was read.
#[verifier::rlimit(40)]
pub proof fn law_prefixes_are_those_of_texts_v4(s: Seq<Seq<char>>, net: Ipv4Addr, len: u8)
    ensures
        routes::prefixes_v4(s).contains((net, len)) <==> exists|k: int|
            0 <= k < s.len() && text::addr_prefix(#[trigger] s[k]) == Some((IpAddr::V4(net), len)),
    decreases s.len(),
{
    let all = routes::prefixes_v4(s);
    if s.len() > 0 {
        let front = s.drop_last();
        let before = routes::prefixes_v4(front);
        law_prefixes_are_those_of_texts_v4(front, net, len);
        let at_end = text::addr_prefix(s.last()) == Some((IpAddr::V4(net), len));
        if all.contains((net, len)) {
            let j = choose|j: int| 0 <= j < all.len() && all[j] == (net, len);
            if j < before.len() {
                assert(before[j] == (net, len));
                let k = choose|k: int|
                    0 <= k < front.len() && text::addr_prefix(#[trigger] front[k]) == Some(
                        (IpAddr::V4(net), len),
                    );
                assert(s[k] == front[k]);
            } else {
                assert(text::addr_prefix(s[s.len() - 1]) == Some((IpAddr::V4(net), len)));
            }
        }
        if exists|k: int|
            0 <= k < s.len() && text::addr_prefix(#[trigger] s[k]) == Some(
                (IpAddr::V4(net), len),
            ) {
            let k = choose|k: int|
                0 <= k < s.len() && text::addr_prefix(#[trigger] s[k]) == Some(
                    (IpAddr::V4(net), len),
                );
            if k < front.len() {
                assert(front[k] == s[k]);
                assert(before.contains((net, len)));
                let j = choose|j: int| 0 <= j < before.len() && before[j] == (net, len);
                assert(all[j] == (net, len));
            } else {
                assert(all[all.len() - 1] == (net, len));
            }
        }
    }
}

proof fn lemma_named_v4(texts: Seq<String>, x: Ipv4Addr)
    ensures
        one_names_v4(texts, x) <==> plain::among_v4(
            x,
            routes::prefixes_v4(text::str_views(texts)),
        ),
{
    let s = text::str_views(texts);
    let p = routes::prefixes_v4(s);
    if one_names_v4(texts, x) {
        let k = choose|k: int| 0 <= k < texts.len() && names_v4((#[trigger] texts[k])@, x);
        assert(s[k] == texts[k]@);
        let (ip, len) = text::addr_prefix(s[k])->0;
        let net = ip->V4_0;
        law_prefixes_are_those_of_texts_v4(s, net, len);
        assert(p.contains((net, len)));
        let j = choose|j: int| 0 <= j < p.len() && p[j] == (net, len);
        assert(plain::lies_in_v4(x, p[j].0, p[j].1));
    }
    if plain::among_v4(x, p) {
        let j = choose|j: int|
            0 <= j < p.len() && plain::lies_in_v4(x, (#[trigger] p[j]).0, p[j].1);
        law_prefixes_are_those_of_texts_v4(s, p[j].0, p[j].1);
        assert(p.contains((p[j].0, p[j].1)));
        let k = choose|k: int|
            0 <= k < s.len() && text::addr_prefix(#[trigger] s[k]) == Some(
                (IpAddr::V4(p[j].0), p[j].1),
            );
        assert(names_v4(texts[k]@, x));
    }
}

proof fn lemma_pairs_v4(s: Seq<Seq<char>>)
    ensures
        ({
            let p = routes::pairs_v4(routes::prefixes_v4(s));
            forall|k: int| 0 <= k < p.len() ==> 0 <= (#[trigger] p[k]).1 <= 32 && p[k].0 >= 0
        }),
{
    let q = routes::prefixes_v4(s);
    let p = routes::pairs_v4(q);
    routes::lemma_prefix_lengths_v4(s);
    assert forall|k: int| 0 <= k < p.len() implies 0 <= (#[trigger] p[k]).1 <= 32 && p[k].0
        >= 0 by {
        assert(p[k] == (q[k].0.bits as int, q[k].1 as int));
    }
}

/// An address of a prefix that one of the texts excludes is held by no route.
pub proof fn law_excluded_texts_v4(
    cfg: &TunInboundConfig,
    led: Seq<(Ipv4Addr, u8)>,
    x: Ipv4Addr,
)
    requires
        routes::pairs_v4(led) == routes::final_v4(cfg),
        one_names_v4(cfg.route_exclude_address@, x),
    ensures
        !plain::among_v4(x, led),
{
    law_routes_stay_in_texts_v4(cfg, led, x);
}

/// A route holds only addresses that a text of the targets names, or any where
/// there are no such texts, and none that a text excludes.
pub proof fn law_routes_stay_in_texts_v4(
    cfg: &TunInboundConfig,
    led: Seq<(Ipv4Addr, u8)>,
    x: Ipv4Addr,
)
    requires
        routes::pairs_v4(led) == routes::final_v4(cfg),
    ensures
        plain::among_v4(x, led) ==> (cfg.route_address@.len() == 0 || one_names_v4(
            cfg.route_address@,
            x,
        )) && !one_names_v4(cfg.route_exclude_address@, x),
{
    if plain::among_v4(x, led) {
        let named = text::str_views(cfg.route_address@);
        let kept_out = text::str_views(cfg.route_exclude_address@);
        let t = routes::targets_v4(cfg);
        let e = routes::prefixes_v4(kept_out);
        lemma_named_v4(cfg.route_address@, x);
        lemma_named_v4(cfg.route_exclude_address@, x);
        lemma_pairs_v4(named);
        lemma_pairs_v4(kept_out);
        plain::law_among_networks_v4(x, led);
        plain::law_among_networks_v4(x, e);
        plain::law_among_networks_v4(x, t);
        routes::lemma_subnets_v4(x, led);
        routes::lemma_subnets_v4(x, e);
        routes::lemma_subnets_v4(x, t);
        let r = routes::pairs_v4(t);
        assert forall|k: int| 0 <= k < r.len() implies 0 <= (#[trigger] r[k]).1 <= 32 && r[k].0
            >= 0 by {
            assert(r[k] == (t[k].0.bits as int, t[k].1 as int));
            routes::lemma_prefix_lengths_v4(named);
        }
        assert(routes::excluded_v4(cfg) == e);
        if e.len() > 0 {
            lemma_all_left_over(r, routes::pairs_v4(e), 32, x.bits as int);
        }
    }
}

/// An address that no text excludes is held by a route, where a text of the
/// targets names it by its network address, or where there are no such texts.
/// Where nothing is excluded, any text that names it will do.
#[verifier::rlimit(40)]
pub proof fn law_named_texts_are_led_v4(
    cfg: &TunInboundConfig,
    led: Seq<(Ipv4Addr, u8)>,
    x: Ipv4Addr,
)
    requires
        routes::pairs_v4(led) == routes::final_v4(cfg),
        !one_names_v4(cfg.route_exclude_address@, x),
        ({
            ||| cfg.route_address@.len() == 0
            ||| one_names_network_v4(cfg.route_address@, x)
            ||| one_names_v4(cfg.route_address@, x) && forall|y: Ipv4Addr|
                !#[trigger] one_names_v4(cfg.route_exclude_address@, y)
        }),
    ensures
        plain::among_v4(x, led),
{
    let named = text::str_views(cfg.route_address@);
    let kept_out = text::str_views(cfg.route_exclude_address@);
    let t = routes::targets_v4(cfg);
    let e = routes::prefixes_v4(kept_out);
    let r = routes::pairs_v4(t);
    let p = routes::pairs_v4(e);
    lemma_named_v4(cfg.route_address@, x);
    lemma_named_v4(cfg.route_exclude_address@, x);
    lemma_pairs_v4(kept_out);
    plain::law_among_networks_v4(x, led);
    plain::law_among_networks_v4(x, e);
    plain::law_among_networks_v4(x, t);
    routes::lemma_subnets_v4(x, led);
    routes::lemma_subnets_v4(x, e);
    routes::lemma_subnets_v4(x, t);
    assert(routes::excluded_v4(cfg) == e);
    if cfg.route_address@.len() == 0 {
        assert(r[0] == (0int, 0int));
        lemma_whole_v4(x);
        if e.len() > 0 {
            lemma_one_target(r, p, 32, x.bits as int, 0);
        } else {
            assert(plain::lies_in_v4(x, t[0].0, t[0].1));
        }
    } else if one_names_network_v4(cfg.route_address@, x) {
        let k = choose|k: int|
            0 <= k < cfg.route_address@.len() && names_network_v4(
                (#[trigger] cfg.route_address@[k])@,
                x,
            );
        assert(named[k] == cfg.route_address@[k]@);
        let (ip, len) = text::addr_prefix(named[k])->0;
        let net = ip->V4_0;
        law_prefixes_are_those_of_texts_v4(named, net, len);
        text::lemma_addr_prefix_len(named[k]);
        assert(t.contains((net, len)));
        let j = choose|j: int| 0 <= j < t.len() && t[j] == (net, len);
        plain::law_networks_v4(x, net, len);
        assert(r[j] == (net.bits as int, len as int));
        lemma_network(net.bits as int, len as int, 32);
        if e.len() > 0 {
            lemma_one_target(r, p, 32, x.bits as int, j);
        } else {
            assert(plain::lies_in_v4(x, t[j].0, t[j].1));
        }
    } else {
        if e.len() > 0 {
            let y = e[0].0;
            lemma_named_v4(cfg.route_exclude_address@, y);
            assert(plain::lies_in_v4(y, e[0].0, e[0].1));
            assert(plain::among_v4(y, e));
            assert(false);
        }
    }
}

/// Every address lies in the prefix of length zero.
proof fn lemma_whole_v4(x: Ipv4Addr)
    ensures
        addr::same_block(x.bits as int, 0, 0, 32),
        addr::block_start(0, 0, 32) == 0,
{
    power2::lemma2_to64();
    power2::lemma_pow2_pos(32);
    div_mod::lemma_basic_div(x.bits as int, power2::pow2(32) as int);
    div_mod::lemma_basic_div(0, power2::pow2(32) as int);
    div_mod::lemma_small_mod(0, power2::pow2(32));
}

/// The text reads as a prefix that holds the address.
pub open spec fn names_v6(s: Seq<char>, x: Ipv6Addr) -> bool {
    text::addr_prefix(s) matches Some((IpAddr::V6(net), len)) && plain::lies_in_v6(x, net, len)
}

/// The text reads as a prefix that holds the address, and gives the prefix by
/// its network address.
pub open spec fn names_network_v6(s: Seq<char>, x: Ipv6Addr) -> bool {
    text::addr_prefix(s) matches Some((IpAddr::V6(net), len)) && plain::lies_in_v6(x, net, len)
        && is_network(net.bits as int, len as int, 128)
}

/// One of the texts reads as a prefix that holds the address.
pub open spec fn one_names_v6(texts: Seq<String>, x: Ipv6Addr) -> bool {
    exists|k: int| 0 <= k < texts.len() && names_v6((#[trigger] texts[k])@, x)
}

pub open spec fn one_names_network_v6(texts: Seq<String>, x: Ipv6Addr) -> bool {
    exists|k: int| 0 <= k < texts.len() && names_network_v6((#[trigger] texts[k])@, x)
}

/// Every prefix that was read comes from a text, and from every text that
/// reads as a prefix one was read.
#[verifier::rlimit(40)]
pub proof fn law_prefixes_are_those_of_texts_v6(s: Seq<Seq<char>>, net: Ipv6Addr, len: u8)
    ensures
        routes::prefixes_v6(s).contains((net, len)) <==> exists|k: int|
            0 <= k < s.len() && text::addr_prefix(#[trigger] s[k]) == Some((IpAddr::V6(net), len)),
    decreases s.len(),
{
    let all = routes::prefixes_v6(s);
    if s.len() > 0 {
        let front = s.drop_last();
        let before = routes::prefixes_v6(front);
        law_prefixes_are_those_of_texts_v6(front, net, len);
        let at_end = text::addr_prefix(s.last()) == Some((IpAddr::V6(net), len));
        if all.contains((net, len)) {
            let j = choose|j: int| 0 <= j < all.len() && all[j] == (net, len);
            if j < before.len() {
                assert(before[j] == (net, len));
                let k = choose|k: int|
                    0 <= k < front.len() && text::addr_prefix(#[trigger] front[k]) == Some(
                        (IpAddr::V6(net), len),
                    );
                assert(s[k] == front[k]);
            } else {
                assert(text::addr_prefix(s[s.len() - 1]) == Some((IpAddr::V6(net), len)));
            }
        }
        if exists|k: int|
            0 <= k < s.len() && text::addr_prefix(#[trigger] s[k]) == Some(
                (IpAddr::V6(net), len),
            ) {
            let k = choose|k: int|
                0 <= k < s.len() && text::addr_prefix(#[trigger] s[k]) == Some(
                    (IpAddr::V6(net), len),
                );
            if k < front.len() {
                assert(front[k] == s[k]);
                assert(before.contains((net, len)));
                let j = choose|j: int| 0 <= j < before.len() && before[j] == (net, len);
                assert(all[j] == (net, len));
            } else {
                assert(all[all.len() - 1] == (net, len));
            }
        }
    }
}

proof fn lemma_named_v6(texts: Seq<String>, x: Ipv6Addr)
    ensures
        one_names_v6(texts, x) <==> plain::among_v6(
            x,
            routes::prefixes_v6(text::str_views(texts)),
        ),
{
    let s = text::str_views(texts);
    let p = routes::prefixes_v6(s);
    if one_names_v6(texts, x) {
        let k = choose|k: int| 0 <= k < texts.len() && names_v6((#[trigger] texts[k])@, x);
        assert(s[k] == texts[k]@);
        let (ip, len) = text::addr_prefix(s[k])->0;
        let net = ip->V6_0;
        law_prefixes_are_those_of_texts_v6(s, net, len);
        assert(p.contains((net, len)));
        let j = choose|j: int| 0 <= j < p.len() && p[j] == (net, len);
        assert(plain::lies_in_v6(x, p[j].0, p[j].1));
    }
    if plain::among_v6(x, p) {
        let j = choose|j: int|
            0 <= j < p.len() && plain::lies_in_v6(x, (#[trigger] p[j]).0, p[j].1);
        law_prefixes_are_those_of_texts_v6(s, p[j].0, p[j].1);
        assert(p.contains((p[j].0, p[j].1)));
        let k = choose|k: int|
            0 <= k < s.len() && text::addr_prefix(#[trigger] s[k]) == Some(
                (IpAddr::V6(p[j].0), p[j].1),
            );
        assert(names_v6(texts[k]@, x));
    }
}

proof fn lemma_pairs_v6(s: Seq<Seq<char>>)
    ensures
        ({
            let p = routes::pairs_v6(routes::prefixes_v6(s));
            forall|k: int| 0 <= k < p.len() ==> 0 <= (#[trigger] p[k]).1 <= 128 && p[k].0 >= 0
        }),
{
    let q = routes::prefixes_v6(s);
    let p = routes::pairs_v6(q);
    routes::lemma_prefix_lengths_v6(s);
    assert forall|k: int| 0 <= k < p.len() implies 0 <= (#[trigger] p[k]).1 <= 128 && p[k].0
        >= 0 by {
        assert(p[k] == (q[k].0.bits as int, q[k].1 as int));
    }
}

/// An address of a prefix that one of the texts excludes is held by no route.
pub proof fn law_excluded_texts_v6(
    cfg: &TunInboundConfig,
    led: Seq<(Ipv6Addr, u8)>,
    x: Ipv6Addr,
)
    requires
        routes::pairs_v6(led) == routes::final_v6(cfg),
        one_names_v6(cfg.route_exclude_address@, x),
    ensures
        !plain::among_v6(x, led),
{
    law_routes_stay_in_texts_v6(cfg, led, x);
}

/// A route holds only addresses that a text of the targets names, or any where
/// there are no such texts, and none that a text excludes.
pub proof fn law_routes_stay_in_texts_v6(
    cfg: &TunInboundConfig,
    led: Seq<(Ipv6Addr, u8)>,
    x: Ipv6Addr,
)
    requires
        routes::pairs_v6(led) == routes::final_v6(cfg),
    ensures
        plain::among_v6(x, led) ==> (cfg.route_address@.len() == 0 || one_names_v6(
            cfg.route_address@,
            x,
        )) && !one_names_v6(cfg.route_exclude_address@, x),
{
    if plain::among_v6(x, led) {
        let named = text::str_views(cfg.route_address@);
        let kept_out = text::str_views(cfg.route_exclude_address@);
        let t = routes::targets_v6(cfg);
        let e = routes::prefixes_v6(kept_out);
        lemma_named_v6(cfg.route_address@, x);
        lemma_named_v6(cfg.route_exclude_address@, x);
        lemma_pairs_v6(named);
        lemma_pairs_v6(kept_out);
        plain::law_among_networks_v6(x, led);
        plain::law_among_networks_v6(x, e);
        plain::law_among_networks_v6(x, t);
        routes::lemma_subnets_v6(x, led);
        routes::lemma_subnets_v6(x, e);
        routes::lemma_subnets_v6(x, t);
        let r = routes::pairs_v6(t);
        assert forall|k: int| 0 <= k < r.len() implies 0 <= (#[trigger] r[k]).1 <= 128 && r[k].0
            >= 0 by {
            assert(r[k] == (t[k].0.bits as int, t[k].1 as int));
            routes::lemma_prefix_lengths_v6(named);
        }
        assert(routes::excluded_v6(cfg) == e);
        if e.len() > 0 {
            lemma_all_left_over(r, routes::pairs_v6(e), 128, x.bits as int);
        }
    }
}

/// An address that no text excludes is held by a route, where a text of the
/// targets names it by its network address, or where there are no such texts.
/// Where nothing is excluded, any text that names it will do.
#[verifier::rlimit(40)]
pub proof fn law_named_texts_are_led_v6(
    cfg: &TunInboundConfig,
    led: Seq<(Ipv6Addr, u8)>,
    x: Ipv6Addr,
)
    requires
        routes::pairs_v6(led) == routes::final_v6(cfg),
        !one_names_v6(cfg.route_exclude_address@, x),
        ({
            ||| cfg.route_address@.len() == 0
            ||| one_names_network_v6(cfg.route_address@, x)
            ||| one_names_v6(cfg.route_address@, x) && forall|y: Ipv6Addr|
                !#[trigger] one_names_v6(cfg.route_exclude_address@, y)
        }),
    ensures
        plain::among_v6(x, led),
{
    let named = text::str_views(cfg.route_address@);
    let kept_out = text::str_views(cfg.route_exclude_address@);
    let t = routes::targets_v6(cfg);
    let e = routes::prefixes_v6(kept_out);
    let r = routes::pairs_v6(t);
    let p = routes::pairs_v6(e);
    lemma_named_v6(cfg.route_address@, x);
    lemma_named_v6(cfg.route_exclude_address@, x);
    lemma_pairs_v6(kept_out);
    plain::law_among_networks_v6(x, led);
    plain::law_among_networks_v6(x, e);
    plain::law_among_networks_v6(x, t);
    routes::lemma_subnets_v6(x, led);
    routes::lemma_subnets_v6(x, e);
    routes::lemma_subnets_v6(x, t);
    assert(routes::excluded_v6(cfg) == e);
    if cfg.route_address@.len() == 0 {
        assert(r[0] == (0int, 0int));
        lemma_whole_v6(x);
        if e.len() > 0 {
            lemma_one_target(r, p, 128, x.bits as int, 0);
        } else {
            assert(plain::lies_in_v6(x, t[0].0, t[0].1));
        }
    } else if one_names_network_v6(cfg.route_address@, x) {
        let k = choose|k: int|
            0 <= k < cfg.route_address@.len() && names_network_v6(
                (#[trigger] cfg.route_address@[k])@,
                x,
            );
        assert(named[k] == cfg.route_address@[k]@);
        let (ip, len) = text::addr_prefix(named[k])->0;
        let net = ip->V6_0;
        law_prefixes_are_those_of_texts_v6(named, net, len);
        text::lemma_addr_prefix_len(named[k]);
        assert(t.contains((net, len)));
        let j = choose|j: int| 0 <= j < t.len() && t[j] == (net, len);
        plain::law_networks_v6(x, net, len);
        assert(r[j] == (net.bits as int, len as int));
        lemma_network(net.bits as int, len as int, 128);
        if e.len() > 0 {
            lemma_one_target(r, p, 128, x.bits as int, j);
        } else {
            assert(plain::lies_in_v6(x, t[j].0, t[j].1));
        }
    } else {
        if e.len() > 0 {
            let y = e[0].0;
            lemma_named_v6(cfg.route_exclude_address@, y);
            assert(plain::lies_in_v6(y, e[0].0, e[0].1));
            assert(plain::among_v6(y, e));
            assert(false);
        }
    }
}

/// Every address lies in the prefix of length zero.
proof fn lemma_whole_v6(x: Ipv6Addr)
    ensures
        addr::same_block(x.bits as int, 0, 0, 128),
        addr::block_start(0, 0, 128) == 0,
{
    addr::lemma_pow2_127();
    power2::lemma_pow2_pos(128);
    div_mod::lemma_basic_div(x.bits as int, power2::pow2(128) as int);
    div_mod::lemma_basic_div(0, power2::pow2(128) as int);
    div_mod::lemma_small_mod(0, power2::pow2(128));
}

/// Texts are read one by one and in order: what is read of two lists of texts,
/// one after the other, is what is read of the one, then of the other.
pub proof fn law_texts_are_read_in_order_v4(a: Seq<Seq<char>>, b: Seq<Seq<char>>)
    ensures
        routes::prefixes_v4(a + b) == routes::prefixes_v4(a) + routes::prefixes_v4(b),
    decreases b.len(),
{
    if b.len() == 0 {
        assert(a + b =~= a);
        assert(routes::prefixes_v4(b) =~= Seq::empty());
    } else {
        assert((a + b).drop_last() =~= a + b.drop_last());
        law_texts_are_read_in_order_v4(a, b.drop_last());
        assert((a + b).last() == b.last());
        assert(routes::prefixes_v4(a + b) =~= routes::prefixes_v4(a) + routes::prefixes_v4(b));
    }
}

/// Of one text that reads as a prefix of this version, that prefix is read, and
/// of another text nothing.
pub proof fn law_one_text_is_read_v4(s: Seq<char>)
    ensures
        match text::addr_prefix(s) {
            Some((IpAddr::V4(net), len)) => routes::prefixes_v4(seq![s]) == seq![(net, len)],
            _ => routes::prefixes_v4(seq![s]).len() == 0,
        },
{
    reveal_with_fuel(routes::prefixes_v4, 2);
    assert(seq![s].drop_last() =~= Seq::<Seq<char>>::empty());
    assert(seq![s].last() == s);
}

/// What the settings exclude, and what they name as targets, is read from all
/// of their texts; without target texts everything is a target.
pub proof fn law_settings_are_read_whole_v4(cfg: &TunInboundConfig, net: Ipv4Addr, len: u8)
    ensures
        routes::excluded_v4(cfg).contains((net, len)) <==> exists|k: int|
            0 <= k < cfg.route_exclude_address@.len() && text::addr_prefix(
                (#[trigger] cfg.route_exclude_address@[k])@,
            ) == Some((IpAddr::V4(net), len)),
        cfg.route_address@.len() > 0 ==> (routes::targets_v4(cfg).contains((net, len))
            <==> exists|k: int|
            0 <= k < cfg.route_address@.len() && text::addr_prefix(
                (#[trigger] cfg.route_address@[k])@,
            ) == Some((IpAddr::V4(net), len))),
        cfg.route_address@.len() == 0 ==> (routes::targets_v4(cfg).contains((net, len)) <==> len
            == 0 && net.bits == 0),
{
    lemma_texts_v4(cfg.route_exclude_address@, net, len);
    lemma_texts_v4(cfg.route_address@, net, len);
    if cfg.route_address@.len() == 0 {
        assert(routes::targets_v4(cfg)[0] == (Ipv4Addr { bits: 0 }, 0u8));
    }
}

pub proof fn lemma_texts_v4(texts: Seq<String>, net: Ipv4Addr, len: u8)
    ensures
        routes::prefixes_v4(text::str_views(texts)).contains((net, len)) <==> exists|k: int|
            0 <= k < texts.len() && text::addr_prefix((#[trigger] texts[k])@) == Some(
                (IpAddr::V4(net), len),
            ),
{
    let s = text::str_views(texts);
    law_prefixes_are_those_of_texts_v4(s, net, len);
    if exists|k: int|
        0 <= k < texts.len() && text::addr_prefix((#[trigger] texts[k])@) == Some(
            (IpAddr::V4(net), len),
        ) {
        let k = choose|k: int|
            0 <= k < texts.len() && text::addr_prefix((#[trigger] texts[k])@) == Some(
                (IpAddr::V4(net), len),
            );
        assert(s[k] == texts[k]@);
    }
    if exists|k: int|
        0 <= k < s.len() && text::addr_prefix(#[trigger] s[k]) == Some((IpAddr::V4(net), len)) {
        let k = choose|k: int|
            0 <= k < s.len() && text::addr_prefix(#[trigger] s[k]) == Some(
                (IpAddr::V4(net), len),
            );
        assert(s[k] == texts[k]@);
    }
}

/// Texts are read one by one and in order: what is read of two lists of texts,
/// one after the other, is what is read of the one, then of the other.
pub proof fn law_texts_are_read_in_order_v6(a: Seq<Seq<char>>, b: Seq<Seq<char>>)
    ensures
        routes::prefixes_v6(a + b) == routes::prefixes_v6(a) + routes::prefixes_v6(b),
    decreases b.len(),
{
    if b.len() == 0 {
        assert(a + b =~= a);
        assert(routes::prefixes_v6(b) =~= Seq::empty());
    } else {
        assert((a + b).drop_last() =~= a + b.drop_last());
        law_texts_are_read_in_order_v6(a, b.drop_last());
        assert((a + b).last() == b.last());
        assert(routes::prefixes_v6(a + b) =~= routes::prefixes_v6(a) + routes::prefixes_v6(b));
    }
}

/// Of one text that reads as a prefix of this version, that prefix is read, and
/// of another text nothing.
pub proof fn law_one_text_is_read_v6(s: Seq<char>)
    ensures
        match text::addr_prefix(s) {
            Some((IpAddr::V6(net), len)) => routes::prefixes_v6(seq![s]) == seq![(net, len)],
            _ => routes::prefixes_v6(seq![s]).len() == 0,
        },
{
    reveal_with_fuel(routes::prefixes_v6, 2);
    assert(seq![s].drop_last() =~= Seq::<Seq<char>>::empty());
    assert(seq![s].last() == s);
}

/// What the settings exclude, and what they name as targets, is read from all
/// of their texts; without target texts everything is a target.
pub proof fn law_settings_are_read_whole_v6(cfg: &TunInboundConfig, net: Ipv6Addr, len: u8)
    ensures
        routes::excluded_v6(cfg).contains((net, len)) <==> exists|k: int|
            0 <= k < cfg.route_exclude_address@.len() && text::addr_prefix(
                (#[trigger] cfg.route_exclude_address@[k])@,
            ) == Some((IpAddr::V6(net), len)),
        cfg.route_address@.len() > 0 ==> (routes::targets_v6(cfg).contains((net, len))
            <==> exists|k: int|
            0 <= k < cfg.route_address@.len() && text::addr_prefix(
                (#[trigger] cfg.route_address@[k])@,
            ) == Some((IpAddr::V6(net), len))),
        cfg.route_address@.len() == 0 ==> (routes::targets_v6(cfg).contains((net, len)) <==> len
            == 0 && net.bits == 0),
{
    lemma_texts_v6(cfg.route_exclude_address@, net, len);
    lemma_texts_v6(cfg.route_address@, net, len);
    if cfg.route_address@.len() == 0 {
        assert(routes::targets_v6(cfg)[0] == (Ipv6Addr { bits: 0 }, 0u8));
    }
}

pub proof fn lemma_texts_v6(texts: Seq<String>, net: Ipv6Addr, len: u8)
    ensures
        routes::prefixes_v6(text::str_views(texts)).contains((net, len)) <==> exists|k: int|
            0 <= k < texts.len() && text::addr_prefix((#[trigger] texts[k])@) == Some(
                (IpAddr::V6(net), len),
            ),
{
    let s = text::str_views(texts);
    law_prefixes_are_those_of_texts_v6(s, net, len);
    if exists|k: int|
        0 <= k < texts.len() && text::addr_prefix((#[trigger] texts[k])@) == Some(
            (IpAddr::V6(net), len),
        ) {
        let k = choose|k: int|
            0 <= k < texts.len() && text::addr_prefix((#[trigger] texts[k])@) == Some(
                (IpAddr::V6(net), len),
            );
        assert(s[k] == texts[k]@);
    }
    if exists|k: int|
        0 <= k < s.len() && text::addr_prefix(#[trigger] s[k]) == Some((IpAddr::V6(net), len)) {
        let k = choose|k: int|
            0 <= k < s.len() && text::addr_prefix(#[trigger] s[k]) == Some(
                (IpAddr::V6(net), len),
            );
        assert(s[k] == texts[k]@);
    }
}

} // verus!
