//! Which addresses are led into the device: prefixes, and prefixes without
//! other prefixes.
use vstd::arithmetic::div_mod;
use vstd::arithmetic::power2;
use vstd::prelude::*;

use crate::addr;
use crate::addr::{
    addr_in_prefix_v4, addr_in_prefix_v6, block_v4, block_v6, network_v4, network_v6, IpAddr,
    Ipv4Addr, Ipv6Addr,
};
use crate::config::TunInboundConfig;
use crate::text;
use crate::text::parse_addr_prefix;

verus! {

/// The first prefix holds the second.
pub open spec fn holds(net: int, pl: int, inner: int, inner_pl: int, bits: int) -> bool {
    pl <= inner_pl && addr::same_block(inner, net, pl, bits)
}

/// Two prefixes have an address in common: one of them holds the other.
pub open spec fn meets(a: int, a_pl: int, b: int, b_pl: int, bits: int) -> bool {
    holds(a, a_pl, b, b_pl, bits) || holds(b, b_pl, a, a_pl, bits)
}

/// One of the prefixes holds this one.
pub open spec fn held_by_one(net: int, pl: int, e: Seq<(int, int)>, bits: int) -> bool {
    exists|k: int| 0 <= k < e.len() && holds((#[trigger] e[k]).0, e[k].1, net, pl, bits)
}

/// One of the prefixes meets this one.
pub open spec fn meets_one(net: int, pl: int, e: Seq<(int, int)>, bits: int) -> bool {
    exists|k: int| 0 <= k < e.len() && meets((#[trigger] e[k]).0, e[k].1, net, pl, bits)
}

/// The first address of the upper half of a prefix.
pub open spec fn right_half(net: int, pl: int, bits: int) -> int {
    addr::block_start(net, pl, bits) + addr::block_size(pl + 1, bits)
}

/// A prefix without the prefixes of a list, as prefixes: none where one of the
/// list holds it, itself where it meets none of them, and else what is left of
/// its two halves.
pub open spec fn subtracted(net: int, pl: int, e: Seq<(int, int)>, bits: int) -> Seq<(int, int)>
    decreases bits - pl,
{
    if held_by_one(net, pl, e, bits) {
        Seq::empty()
    } else if pl >= bits || !meets_one(net, pl, e, bits) {
        seq![(net, pl)]
    } else {
        subtracted(net, pl + 1, e, bits) + subtracted(right_half(net, pl, bits), pl + 1, e, bits)
    }
}

/// Prefixes without the prefixes of a list.
pub open spec fn all_subtracted(r: Seq<(int, int)>, e: Seq<(int, int)>, bits: int) -> Seq<
    (int, int),
>
    decreases r.len(),
{
    if r.len() == 0 {
        Seq::empty()
    } else {
        all_subtracted(r.drop_last(), e, bits) + subtracted(r.last().0, r.last().1, e, bits)
    }
}

pub proof fn lemma_halves(pl: int, bits: int)
    requires
        0 <= pl < bits,
    ensures
        addr::block_size(pl, bits) == 2 * addr::block_size(pl + 1, bits),
        addr::block_size(pl + 1, bits) > 0,
{
    power2::lemma_pow2_unfold((bits - pl) as nat);
    power2::lemma_pow2_pos((bits - pl - 1) as nat);
}

/// The address lies in one of the prefixes.
pub open spec fn in_prefixes(s: Seq<(int, int)>, x: int, bits: int) -> bool {
    exists|k: int| 0 <= k < s.len() && addr::same_block(x, (#[trigger] s[k]).0, s[k].1, bits)
}

/// Wherever the prefix is halved on the way to leaving out the list, its
/// address lies in the lower half. A network address always does.
pub open spec fn halves_cleanly(net: int, pl: int, e: Seq<(int, int)>, bits: int) -> bool
    decreases bits - pl,
{
    if held_by_one(net, pl, e, bits) || pl >= bits || !meets_one(net, pl, e, bits) {
        true
    } else {
        addr::block_start(net, pl + 1, bits) == addr::block_start(net, pl, bits) && halves_cleanly(
            net,
            pl + 1,
            e,
            bits,
        )
    }
}

/// A network address is halved cleanly.
pub proof fn law_network_halves_cleanly(net: int, pl: int, e: Seq<(int, int)>, bits: int)
    requires
        0 <= pl,
        addr::block_start(net, pl, bits) == net,
    ensures
        halves_cleanly(net, pl, e, bits),
    decreases bits - pl,
{
    if pl < bits {
        lemma_halves(pl, bits);
        let half = addr::block_size(pl + 1, bits);
        div_mod::lemma_mod_mod(net, half, 2);
        assert(half * 2 == addr::block_size(pl, bits));
        assert(net % half == 0) by {
            assert(net % (half * 2) == 0);
            div_mod::lemma_small_mod(0, half as nat);
        }
        law_network_halves_cleanly(net, pl + 1, e, bits);
    }
}

/// Addresses in one block of a prefix length share the larger blocks too.
pub proof fn lemma_coarser(x: int, y: int, fine: int, coarse: int, bits: int)
    requires
        0 <= coarse <= fine <= bits,
        x >= 0,
        y >= 0,
        addr::same_block(x, y, fine, bits),
    ensures
        addr::same_block(x, y, coarse, bits),
    decreases fine - coarse,
{
    if coarse < fine {
        lemma_coarser(x, y, fine, coarse + 1, bits);
        lemma_halves(coarse, bits);
        let half = addr::block_size(coarse + 1, bits);
        div_mod::lemma_div_denominator(x, half, 2);
        div_mod::lemma_div_denominator(y, half, 2);
    }
}

/// A block is its two halves.
proof fn lemma_two_halves(x: int, net: int, pl: int, bits: int)
    requires
        0 <= pl < bits,
        x >= 0,
        net >= 0,
        addr::block_start(net, pl + 1, bits) == addr::block_start(net, pl, bits),
    ensures
        addr::same_block(x, net, pl, bits) <==> addr::same_block(x, net, pl + 1, bits)
            || addr::same_block(x, right_half(net, pl, bits), pl + 1, bits),
        right_half(net, pl, bits) >= 0,
        addr::block_start(right_half(net, pl, bits), pl + 1, bits) == right_half(net, pl, bits),
{
    lemma_halves(pl, bits);
    let half = addr::block_size(pl + 1, bits);
    let right = right_half(net, pl, bits);
    let q = net / (2 * half);
    let p = x / half;
    div_mod::lemma_fundamental_div_mod(net, 2 * half);
    div_mod::lemma_fundamental_div_mod(net, half);
    div_mod::lemma_div_denominator(net, half, 2);
    div_mod::lemma_div_denominator(x, half, 2);
    div_mod::lemma_mod_bound(net, 2 * half);
    let start = addr::block_start(net, pl, bits);
    assert(start == 2 * half * q);
    assert(start == half * (net / half));
    assert(net / half == 2 * q) by (nonlinear_arith)
        requires
            2 * half * q == half * (net / half),
            half > 0,
    ;
    assert(right == half * (2 * q + 1)) by (nonlinear_arith)
        requires
            right == 2 * half * q + half,
    ;
    div_mod::lemma_div_multiples_vanish(2 * q + 1, half);
    assert(right / half == 2 * q + 1);
    assert(half * 2 == 2 * half);
    assert(x / (2 * half) == p / 2);
    assert(q == (net / half) / 2);
    div_mod::lemma_mod_multiples_basic(2 * q + 1, half);
    assert((2 * q + 1) * half == right) by (nonlinear_arith)
        requires
            right == half * (2 * q + 1),
    ;
    assert(right % half == 0);
    assert(q >= 0) by {
        div_mod::lemma_div_pos_is_pos(net, 2 * half);
    }
    assert(right >= 0) by (nonlinear_arith)
        requires
            right == half * (2 * q + 1),
            half > 0,
            q >= 0,
    ;
}

/// What is left of a prefix covers exactly the addresses of the prefix that lie
/// in none of the excluded prefixes.
pub proof fn law_subtracted_covers(net: int, pl: int, e: Seq<(int, int)>, bits: int, x: int)
    requires
        0 <= pl <= bits,
        net >= 0,
        x >= 0,
        forall|k: int|
            0 <= k < e.len() ==> 0 <= (#[trigger] e[k]).1 <= bits && e[k].0 >= 0,
        halves_cleanly(net, pl, e, bits),
    ensures
        in_prefixes(subtracted(net, pl, e, bits), x, bits) <==> addr::same_block(
            x,
            net,
            pl,
            bits,
        ) && !in_prefixes(e, x, bits),
    decreases bits - pl,
{
    let s = subtracted(net, pl, e, bits);
    if held_by_one(net, pl, e, bits) {
        let k = choose|k: int|
            0 <= k < e.len() && holds((#[trigger] e[k]).0, e[k].1, net, pl, bits);
        if addr::same_block(x, net, pl, bits) {
            lemma_coarser(x, net, pl, e[k].1, bits);
            assert(addr::same_block(x, e[k].0, e[k].1, bits));
        }
    } else if pl >= bits || !meets_one(net, pl, e, bits) {
        assert(s[0] == (net, pl));
        if in_prefixes(s, x, bits) {
            assert(addr::same_block(x, net, pl, bits));
        }
        if addr::same_block(x, net, pl, bits) {
            assert(addr::same_block(x, s[0].0, s[0].1, bits));
            if in_prefixes(e, x, bits) {
                let k = choose|k: int|
                    0 <= k < e.len() && addr::same_block(x, (#[trigger] e[k]).0, e[k].1, bits);
                if e[k].1 <= pl {
                    lemma_coarser(x, net, pl, e[k].1, bits);
                    assert(holds(e[k].0, e[k].1, net, pl, bits));
                    assert(meets(e[k].0, e[k].1, net, pl, bits));
                } else {
                    lemma_coarser(x, e[k].0, e[k].1, pl, bits);
                    assert(holds(net, pl, e[k].0, e[k].1, bits));
                    assert(meets(e[k].0, e[k].1, net, pl, bits));
                }
                assert(false);
            }
        }
    } else {
        let right = right_half(net, pl, bits);
        lemma_two_halves(x, net, pl, bits);
        law_network_halves_cleanly(right, pl + 1, e, bits);
        law_subtracted_covers(net, pl + 1, e, bits, x);
        law_subtracted_covers(right, pl + 1, e, bits, x);
        lemma_in_prefixes_concat(
            subtracted(net, pl + 1, e, bits),
            subtracted(right, pl + 1, e, bits),
            x,
            bits,
        );
    }
}

pub proof fn lemma_in_prefixes_concat(a: Seq<(int, int)>, b: Seq<(int, int)>, x: int, bits: int)
    ensures
        in_prefixes(a + b, x, bits) <==> in_prefixes(a, x, bits) || in_prefixes(b, x, bits),
{
    let s = a + b;
    if in_prefixes(s, x, bits) {
        let k = choose|k: int|
            0 <= k < s.len() && addr::same_block(x, (#[trigger] s[k]).0, s[k].1, bits);
        if k < a.len() {
            assert(a[k] == s[k]);
        } else {
            assert(b[k - a.len()] == s[k]);
        }
    }
    if in_prefixes(a, x, bits) {
        let k = choose|k: int|
            0 <= k < a.len() && addr::same_block(x, (#[trigger] a[k]).0, a[k].1, bits);
        assert(s[k] == a[k]);
    }
    if in_prefixes(b, x, bits) {
        let k = choose|k: int|
            0 <= k < b.len() && addr::same_block(x, (#[trigger] b[k]).0, b[k].1, bits);
        assert(s[a.len() + k] == b[k]);
    }
}

/// What is left of several prefixes covers exactly their addresses that lie in
/// none of the excluded ones.
pub proof fn law_routes_without_excluded(
    r: Seq<(int, int)>,
    e: Seq<(int, int)>,
    bits: int,
    x: int,
)
    requires
        x >= 0,
        forall|k: int|
            0 <= k < e.len() ==> 0 <= (#[trigger] e[k]).1 <= bits && e[k].0 >= 0,
        forall|k: int|
            0 <= k < r.len() ==> 0 <= (#[trigger] r[k]).1 <= bits && r[k].0 >= 0
                && halves_cleanly(r[k].0, r[k].1, e, bits),
    ensures
        in_prefixes(all_subtracted(r, e, bits), x, bits) <==> in_prefixes(r, x, bits)
            && !in_prefixes(e, x, bits),
    decreases r.len(),
{
    if r.len() > 0 {
        let t = r.drop_last();
        let last = r.last();
        assert forall|k: int| 0 <= k < t.len() implies 0 <= (#[trigger] t[k]).1 <= bits && t[k].0
            >= 0 && halves_cleanly(t[k].0, t[k].1, e, bits) by {
            assert(t[k] == r[k]);
        }
        law_routes_without_excluded(t, e, bits, x);
        assert(last == r[r.len() - 1]);
        law_subtracted_covers(last.0, last.1, e, bits, x);
        lemma_in_prefixes_concat(
            all_subtracted(t, e, bits),
            subtracted(last.0, last.1, e, bits),
            x,
            bits,
        );
        let one = seq![last];
        lemma_in_prefixes_concat(t, one, x, bits);
        assert(t + one =~= r);
        assert(in_prefixes(one, x, bits) <==> addr::same_block(x, last.0, last.1, bits)) by {
            assert(one[0] == last);
        }
    }
}

/// The prefixes of this IP version among texts; the other texts are passed over.
pub open spec fn prefixes_v4(s: Seq<Seq<char>>) -> Seq<(Ipv4Addr, u8)>
    decreases s.len(),
{
    if s.len() == 0 {
        Seq::empty()
    } else {
        let before = prefixes_v4(s.drop_last());
        match text::addr_prefix(s.last()) {
            Some((IpAddr::V4(ip), len)) => before.push((ip, len)),
            _ => before,
        }
    }
}

/// Reads the prefixes of this IP version.
pub fn parse_prefixes_v4(s: &[String]) -> (v: Vec<(Ipv4Addr, u8)>)
    ensures
        v@ == prefixes_v4(text::str_views(s@)),
        forall|k: int| 0 <= k < v@.len() ==> (#[trigger] v@[k]).1 <= 32,
        v@.len() <= s@.len(),
{
    let ghost texts = text::str_views(s@);
    let mut v: Vec<(Ipv4Addr, u8)> = Vec::new();
    let mut k: usize = 0;
    assert(texts.take(0) =~= Seq::<Seq<char>>::empty());
    while k < s.len()
        invariant
            k <= s.len(),
            texts == text::str_views(s@),
            v@ == prefixes_v4(texts.take(k as int)),
            v@.len() <= k,
            forall|j: int| 0 <= j < v@.len() ==> (#[trigger] v@[j]).1 <= 32,
        decreases s.len() - k,
    {
        assert(texts.take(k + 1).drop_last() =~= texts.take(k as int));
        assert(texts.take(k + 1).last() == s@[k as int]@);
        proof {
            text::lemma_addr_prefix_len(s@[k as int]@);
        }
        if let Some((IpAddr::V4(ip), len)) = parse_addr_prefix(s[k].as_str()) {
            v.push((ip, len));
        }
        k += 1;
    }
    assert(texts.take(texts.len() as int) =~= texts);
    v
}

/// The prefixes as numbers.
pub open spec fn pairs_v4(s: Seq<(Ipv4Addr, u8)>) -> Seq<(int, int)> {
    Seq::new(s.len(), |k: int| (s[k].0.bits as int, s[k].1 as int))
}

/// Whether two prefixes have an address in common.
pub fn v4_intersects(e_net: Ipv4Addr, e_pl: u8, net: Ipv4Addr, pl: u8) -> (r: bool)
    ensures
        r == meets(e_net.bits as int, e_pl as int, net.bits as int, pl as int, 32),
{
    if e_pl <= pl {
        addr_in_prefix_v4(net, e_net, e_pl)
    } else {
        addr_in_prefix_v4(e_net, net, pl)
    }
}

/// Whether the first prefix holds the second.
pub fn prefix_contains_v4(outer: (Ipv4Addr, u8), inner: (Ipv4Addr, u8)) -> (r: bool)
    ensures
        r == holds(
            outer.0.bits as int,
            outer.1 as int,
            inner.0.bits as int,
            inner.1 as int,
            32,
        ),
{
    if outer.1 > inner.1 {
        return false;
    }
    addr_in_prefix_v4(inner.0, outer.0, outer.1)
}

/// Whether one of the excluded prefixes holds the prefix.
pub fn fully_excluded_v4(net: Ipv4Addr, pl: u8, excludes: &[(Ipv4Addr, u8)]) -> (r: bool)
    ensures
        r == held_by_one(net.bits as int, pl as int, pairs_v4(excludes@), 32),
{
    let ghost e = pairs_v4(excludes@);
    let mut k: usize = 0;
    while k < excludes.len()
        invariant
            k <= excludes.len(),
            e == pairs_v4(excludes@),
            forall|j: int|
                0 <= j < k ==> !holds(
                    (#[trigger] e[j]).0,
                    e[j].1,
                    net.bits as int,
                    pl as int,
                    32,
                ),
        decreases excludes.len() - k,
    {
        assert(e[k as int] == (excludes@[k as int].0.bits as int, excludes@[k as int].1 as int));
        if prefix_contains_v4(excludes[k], (net, pl)) {
            return true;
        }
        k += 1;
    }
    false
}

fn meets_any_v4(net: Ipv4Addr, pl: u8, excludes: &[(Ipv4Addr, u8)]) -> (r: bool)
    ensures
        r == meets_one(net.bits as int, pl as int, pairs_v4(excludes@), 32),
{
    let ghost e = pairs_v4(excludes@);
    let mut k: usize = 0;
    while k < excludes.len()
        invariant
            k <= excludes.len(),
            e == pairs_v4(excludes@),
            forall|j: int|
                0 <= j < k ==> !meets(
                    (#[trigger] e[j]).0,
                    e[j].1,
                    net.bits as int,
                    pl as int,
                    32,
                ),
        decreases excludes.len() - k,
    {
        assert(e[k as int] == (excludes@[k as int].0.bits as int, excludes@[k as int].1 as int));
        let (e_net, e_pl) = excludes[k];
        if v4_intersects(e_net, e_pl, net, pl) {
            return true;
        }
        k += 1;
    }
    false
}

/// No prefix is of length zero.
pub open spec fn no_zero_v4(s: Seq<(Ipv4Addr, u8)>) -> bool {
    forall|k: int| 0 <= k < s.len() ==> (#[trigger] s[k]).1 > 0
}

fn right_half_v4(net: Ipv4Addr, pl: u8) -> (r: Ipv4Addr)
    requires
        pl < 32,
    ensures
        r.bits == right_half(net.bits as int, pl as int, 32),
{
    let start: Ipv4Addr = network_v4(net, pl);
    let size: u64 = block_v4(pl + 1);
    proof {
        lemma_halves(pl as int, 32);
        addr::lemma_block_end_fits_v4(net.bits as int, pl as int);
    }
    Ipv4Addr { bits: (start.bits as u64 + size) as u32 }
}

/// Adds what is left of a prefix without the excluded ones: it is kept whole
/// where it meets none of them, dropped where one of them holds it, and else
/// halved.
pub fn split_subtract_v4(
    net: Ipv4Addr,
    pl: u8,
    excludes: &[(Ipv4Addr, u8)],
    out: &mut Vec<(Ipv4Addr, u8)>,
)
    ensures
        pairs_v4(final(out)@) == pairs_v4(old(out)@) + subtracted(
            net.bits as int,
            pl as int,
            pairs_v4(excludes@),
            32,
        ),
        final(out)@.len() >= old(out)@.len(),
        final(out)@.take(old(out)@.len() as int) == old(out)@,
    decreases (if pl < 32 {
        32 - pl
    } else {
        0
    }),
{
    let ghost before = out@;
    if fully_excluded_v4(net, pl, excludes) {
        assert(pairs_v4(out@) + Seq::<(int, int)>::empty() =~= pairs_v4(out@));
        assert(out@.take(before.len() as int) =~= before);
        return;
    }
    if pl >= 32 || !meets_any_v4(net, pl, excludes) {
        out.push((net, pl));
        assert(pairs_v4(out@) =~= pairs_v4(before) + seq![(net.bits as int, pl as int)]);
        assert(out@.take(before.len() as int) =~= before);
        return;
    }
    let right: Ipv4Addr = right_half_v4(net, pl);
    split_subtract_v4(net, pl + 1, excludes, out);
    let ghost mid = out@;
    split_subtract_v4(right, pl + 1, excludes, out);
    proof {
        assert(out@.take(before.len() as int) =~= before) by {
            assert forall|k: int| 0 <= k < before.len() implies out@[k] == before[k] by {
                assert(mid.take(before.len() as int)[k] == before[k]);
                assert(out@.take(mid.len() as int)[k] == mid[k]);
            }
        }
        let e = pairs_v4(excludes@);
        let a = subtracted(net.bits as int, pl as int + 1, e, 32);
        let b = subtracted(right.bits as int, pl as int + 1, e, 32);
        assert((pairs_v4(before) + a) + b =~= pairs_v4(before) + (a + b));
    }
}

/// The prefixes that are led into the device before any is excluded: those of
/// the settings, or all addresses where the settings name none.
pub open spec fn targets_v4(cfg: &TunInboundConfig) -> Seq<(Ipv4Addr, u8)> {
    if cfg.route_address@.len() > 0 {
        prefixes_v4(text::str_views(cfg.route_address@))
    } else {
        seq![(Ipv4Addr { bits: 0 }, 0u8)]
    }
}

pub fn build_route_targets_v4(cfg: &TunInboundConfig) -> (v: Vec<(Ipv4Addr, u8)>)
    ensures
        v@ == targets_v4(cfg),
{
    if cfg.route_address.len() > 0 {
        parse_prefixes_v4(cfg.route_address.as_slice())
    } else {
        let v: Vec<(Ipv4Addr, u8)> = vec![(Ipv4Addr { bits: 0 }, 0u8)];
        assert(v@ =~= targets_v4(cfg));
        v
    }
}

/// The prefixes that the settings exclude.
pub open spec fn excluded_v4(cfg: &TunInboundConfig) -> Seq<(Ipv4Addr, u8)> {
    prefixes_v4(text::str_views(cfg.route_exclude_address@))
}

pub fn parse_excluded_v4(cfg: &TunInboundConfig) -> (v: Vec<(Ipv4Addr, u8)>)
    ensures
        v@ == excluded_v4(cfg),
{
    parse_prefixes_v4(cfg.route_exclude_address.as_slice())
}

/// The routes of the settings: the targets without the excluded prefixes.
pub open spec fn final_v4(cfg: &TunInboundConfig) -> Seq<(int, int)> {
    if excluded_v4(cfg).len() == 0 {
        pairs_v4(targets_v4(cfg))
    } else {
        all_subtracted(pairs_v4(targets_v4(cfg)), pairs_v4(excluded_v4(cfg)), 32)
    }
}

/// The routes of the settings.
pub fn final_route_v4(cfg: &TunInboundConfig) -> (routes: Vec<(Ipv4Addr, u8)>)
    ensures
        pairs_v4(routes@) == final_v4(cfg),
{
    let routes: Vec<(Ipv4Addr, u8)> = build_route_targets_v4(cfg);
    let excludes: Vec<(Ipv4Addr, u8)> = parse_excluded_v4(cfg);
    if excludes.len() == 0 {
        return routes;
    }
    let ghost r = pairs_v4(routes@);
    let ghost e = pairs_v4(excludes@);
    let mut out: Vec<(Ipv4Addr, u8)> = Vec::new();
    let mut k: usize = 0;
    assert(r.take(0) =~= Seq::<(int, int)>::empty());
    assert(pairs_v4(out@) =~= Seq::<(int, int)>::empty());
    while k < routes.len()
        invariant
            k <= routes.len(),
            r == pairs_v4(routes@),
            e == pairs_v4(excludes@),
            pairs_v4(out@) == all_subtracted(r.take(k as int), e, 32),
        decreases routes.len() - k,
    {
        let (net, pl) = routes[k];
        assert(r.take(k + 1).drop_last() =~= r.take(k as int));
        assert(r.take(k + 1).last() == (net.bits as int, pl as int));
        split_subtract_v4(net, pl, excludes.as_slice(), &mut out);
        k += 1;
    }
    assert(r.take(r.len() as int) =~= r);
    out
}

/// The prefixes of this IP version among texts; the other texts are passed over.
pub open spec fn prefixes_v6(s: Seq<Seq<char>>) -> Seq<(Ipv6Addr, u8)>
    decreases s.len(),
{
    if s.len() == 0 {
        Seq::empty()
    } else {
        let before = prefixes_v6(s.drop_last());
        match text::addr_prefix(s.last()) {
            Some((IpAddr::V6(ip), len)) => before.push((ip, len)),
            _ => before,
        }
    }
}

/// Reads the prefixes of this IP version.
pub fn parse_prefixes_v6(s: &[String]) -> (v: Vec<(Ipv6Addr, u8)>)
    ensures
        v@ == prefixes_v6(text::str_views(s@)),
        forall|k: int| 0 <= k < v@.len() ==> (#[trigger] v@[k]).1 <= 128,
        v@.len() <= s@.len(),
{
    let ghost texts = text::str_views(s@);
    let mut v: Vec<(Ipv6Addr, u8)> = Vec::new();
    let mut k: usize = 0;
    assert(texts.take(0) =~= Seq::<Seq<char>>::empty());
    while k < s.len()
        invariant
            k <= s.len(),
            texts == text::str_views(s@),
            v@ == prefixes_v6(texts.take(k as int)),
            v@.len() <= k,
            forall|j: int| 0 <= j < v@.len() ==> (#[trigger] v@[j]).1 <= 128,
        decreases s.len() - k,
    {
        assert(texts.take(k + 1).drop_last() =~= texts.take(k as int));
        assert(texts.take(k + 1).last() == s@[k as int]@);
        proof {
            text::lemma_addr_prefix_len(s@[k as int]@);
        }
        if let Some((IpAddr::V6(ip), len)) = parse_addr_prefix(s[k].as_str()) {
            v.push((ip, len));
        }
        k += 1;
    }
    assert(texts.take(texts.len() as int) =~= texts);
    v
}

/// The prefixes as numbers.
pub open spec fn pairs_v6(s: Seq<(Ipv6Addr, u8)>) -> Seq<(int, int)> {
    Seq::new(s.len(), |k: int| (s[k].0.bits as int, s[k].1 as int))
}

/// Whether two prefixes have an address in common.
pub fn v6_intersects(e_net: Ipv6Addr, e_pl: u8, net: Ipv6Addr, pl: u8) -> (r: bool)
    ensures
        r == meets(e_net.bits as int, e_pl as int, net.bits as int, pl as int, 128),
{
    if e_pl <= pl {
        addr_in_prefix_v6(net, e_net, e_pl)
    } else {
        addr_in_prefix_v6(e_net, net, pl)
    }
}

/// Whether the first prefix holds the second.
pub fn prefix_contains_v6(outer: (Ipv6Addr, u8), inner: (Ipv6Addr, u8)) -> (r: bool)
    ensures
        r == holds(
            outer.0.bits as int,
            outer.1 as int,
            inner.0.bits as int,
            inner.1 as int,
            128,
        ),
{
    if outer.1 > inner.1 {
        return false;
    }
    addr_in_prefix_v6(inner.0, outer.0, outer.1)
}

/// Whether one of the excluded prefixes holds the prefix.
pub fn fully_excluded_v6(net: Ipv6Addr, pl: u8, excludes: &[(Ipv6Addr, u8)]) -> (r: bool)
    ensures
        r == held_by_one(net.bits as int, pl as int, pairs_v6(excludes@), 128),
{
    let ghost e = pairs_v6(excludes@);
    let mut k: usize = 0;
    while k < excludes.len()
        invariant
            k <= excludes.len(),
            e == pairs_v6(excludes@),
            forall|j: int|
                0 <= j < k ==> !holds(
                    (#[trigger] e[j]).0,
                    e[j].1,
                    net.bits as int,
                    pl as int,
                    128,
                ),
        decreases excludes.len() - k,
    {
        assert(e[k as int] == (excludes@[k as int].0.bits as int, excludes@[k as int].1 as int));
        if prefix_contains_v6(excludes[k], (net, pl)) {
            return true;
        }
        k += 1;
    }
    false
}

fn meets_any_v6(net: Ipv6Addr, pl: u8, excludes: &[(Ipv6Addr, u8)]) -> (r: bool)
    ensures
        r == meets_one(net.bits as int, pl as int, pairs_v6(excludes@), 128),
{
    let ghost e = pairs_v6(excludes@);
    let mut k: usize = 0;
    while k < excludes.len()
        invariant
            k <= excludes.len(),
            e == pairs_v6(excludes@),
            forall|j: int|
                0 <= j < k ==> !meets(
                    (#[trigger] e[j]).0,
                    e[j].1,
                    net.bits as int,
                    pl as int,
                    128,
                ),
        decreases excludes.len() - k,
    {
        assert(e[k as int] == (excludes@[k as int].0.bits as int, excludes@[k as int].1 as int));
        let (e_net, e_pl) = excludes[k];
        if v6_intersects(e_net, e_pl, net, pl) {
            return true;
        }
        k += 1;
    }
    false
}

/// No prefix is of length zero.
pub open spec fn no_zero_v6(s: Seq<(Ipv6Addr, u8)>) -> bool {
    forall|k: int| 0 <= k < s.len() ==> (#[trigger] s[k]).1 > 0
}

fn right_half_v6(net: Ipv6Addr, pl: u8) -> (r: Ipv6Addr)
    requires
        pl < 128,
    ensures
        r.bits == right_half(net.bits as int, pl as int, 128),
{
    let start: Ipv6Addr = network_v6(net, pl);
    let size: u128 = block_v6(pl + 1);
    proof {
        lemma_halves(pl as int, 128);
        addr::lemma_block_end_fits_v6(net.bits as int, pl as int);
    }
    Ipv6Addr { bits: start.bits + size }
}

/// Adds what is left of a prefix without the excluded ones: it is kept whole
/// where it meets none of them, dropped where one of them holds it, and else
/// halved.
pub fn split_subtract_v6(
    net: Ipv6Addr,
    pl: u8,
    excludes: &[(Ipv6Addr, u8)],
    out: &mut Vec<(Ipv6Addr, u8)>,
)
    ensures
        pairs_v6(final(out)@) == pairs_v6(old(out)@) + subtracted(
            net.bits as int,
            pl as int,
            pairs_v6(excludes@),
            128,
        ),
        final(out)@.len() >= old(out)@.len(),
        final(out)@.take(old(out)@.len() as int) == old(out)@,
    decreases (if pl < 128 {
        128 - pl
    } else {
        0
    }),
{
    let ghost before = out@;
    if fully_excluded_v6(net, pl, excludes) {
        assert(pairs_v6(out@) + Seq::<(int, int)>::empty() =~= pairs_v6(out@));
        assert(out@.take(before.len() as int) =~= before);
        return;
    }
    if pl >= 128 || !meets_any_v6(net, pl, excludes) {
        out.push((net, pl));
        assert(pairs_v6(out@) =~= pairs_v6(before) + seq![(net.bits as int, pl as int)]);
        assert(out@.take(before.len() as int) =~= before);
        return;
    }
    let right: Ipv6Addr = right_half_v6(net, pl);
    split_subtract_v6(net, pl + 1, excludes, out);
    let ghost mid = out@;
    split_subtract_v6(right, pl + 1, excludes, out);
    proof {
        assert(out@.take(before.len() as int) =~= before) by {
            assert forall|k: int| 0 <= k < before.len() implies out@[k] == before[k] by {
                assert(mid.take(before.len() as int)[k] == before[k]);
                assert(out@.take(mid.len() as int)[k] == mid[k]);
            }
        }
        let e = pairs_v6(excludes@);
        let a = subtracted(net.bits as int, pl as int + 1, e, 128);
        let b = subtracted(right.bits as int, pl as int + 1, e, 128);
        assert((pairs_v6(before) + a) + b =~= pairs_v6(before) + (a + b));
    }
}

/// The prefixes that are led into the device before any is excluded: those of
/// the settings, or all addresses where the settings name none.
pub open spec fn targets_v6(cfg: &TunInboundConfig) -> Seq<(Ipv6Addr, u8)> {
    if cfg.route_address@.len() > 0 {
        prefixes_v6(text::str_views(cfg.route_address@))
    } else {
        seq![(Ipv6Addr { bits: 0 }, 0u8)]
    }
}

pub fn build_route_targets_v6(cfg: &TunInboundConfig) -> (v: Vec<(Ipv6Addr, u8)>)
    ensures
        v@ == targets_v6(cfg),
{
    if cfg.route_address.len() > 0 {
        parse_prefixes_v6(cfg.route_address.as_slice())
    } else {
        let v: Vec<(Ipv6Addr, u8)> = vec![(Ipv6Addr { bits: 0 }, 0u8)];
        assert(v@ =~= targets_v6(cfg));
        v
    }
}

/// The prefixes that the settings exclude.
pub open spec fn excluded_v6(cfg: &TunInboundConfig) -> Seq<(Ipv6Addr, u8)> {
    prefixes_v6(text::str_views(cfg.route_exclude_address@))
}

pub fn parse_excluded_v6(cfg: &TunInboundConfig) -> (v: Vec<(Ipv6Addr, u8)>)
    ensures
        v@ == excluded_v6(cfg),
{
    parse_prefixes_v6(cfg.route_exclude_address.as_slice())
}

/// The routes of the settings: the targets without the excluded prefixes.
pub open spec fn final_v6(cfg: &TunInboundConfig) -> Seq<(int, int)> {
    if excluded_v6(cfg).len() == 0 {
        pairs_v6(targets_v6(cfg))
    } else {
        all_subtracted(pairs_v6(targets_v6(cfg)), pairs_v6(excluded_v6(cfg)), 128)
    }
}

/// The routes of the settings.
pub fn final_route_v6(cfg: &TunInboundConfig) -> (routes: Vec<(Ipv6Addr, u8)>)
    ensures
        pairs_v6(routes@) == final_v6(cfg),
{
    let routes: Vec<(Ipv6Addr, u8)> = build_route_targets_v6(cfg);
    let excludes: Vec<(Ipv6Addr, u8)> = parse_excluded_v6(cfg);
    if excludes.len() == 0 {
        return routes;
    }
    let ghost r = pairs_v6(routes@);
    let ghost e = pairs_v6(excludes@);
    let mut out: Vec<(Ipv6Addr, u8)> = Vec::new();
    let mut k: usize = 0;
    assert(r.take(0) =~= Seq::<(int, int)>::empty());
    assert(pairs_v6(out@) =~= Seq::<(int, int)>::empty());
    while k < routes.len()
        invariant
            k <= routes.len(),
            r == pairs_v6(routes@),
            e == pairs_v6(excludes@),
            pairs_v6(out@) == all_subtracted(r.take(k as int), e, 128),
        decreases routes.len() - k,
    {
        let (net, pl) = routes[k];
        assert(r.take(k + 1).drop_last() =~= r.take(k as int));
        assert(r.take(k + 1).last() == (net.bits as int, pl as int));
        split_subtract_v6(net, pl, excludes.as_slice(), &mut out);
        k += 1;
    }
    assert(r.take(r.len() as int) =~= r);
    out
}

pub proof fn lemma_prefix_lengths_v4(s: Seq<Seq<char>>)
    ensures
        forall|k: int|
            0 <= k < prefixes_v4(s).len() ==> (#[trigger] prefixes_v4(s)[k]).1 <= 32,
    decreases s.len(),
{
    if s.len() > 0 {
        let before = prefixes_v4(s.drop_last());
        lemma_prefix_lengths_v4(s.drop_last());
        text::lemma_addr_prefix_len(s.last());
        assert forall|k: int| 0 <= k < prefixes_v4(s).len() implies (
        #[trigger] prefixes_v4(s)[k]).1 <= 32 by {
            if k < before.len() {
                assert(prefixes_v4(s)[k] == before[k]);
                assert(before[k].1 <= 32);
            }
        }
    }
}

/// An address is routed into the device exactly where one of the targets holds
/// it and no excluded prefix does, as far as the targets are halved cleanly.
pub proof fn law_final_routes_v4(cfg: &TunInboundConfig, x: Ipv4Addr)
    requires
        forall|k: int|
            0 <= k < targets_v4(cfg).len() ==> halves_cleanly(
                (#[trigger] targets_v4(cfg)[k]).0.bits as int,
                targets_v4(cfg)[k].1 as int,
                pairs_v4(excluded_v4(cfg)),
                32,
            ),
    ensures
        in_prefixes(final_v4(cfg), x.bits as int, 32) <==> addr::in_subnets_v4(
            x,
            targets_v4(cfg),
        ) && !addr::in_subnets_v4(x, excluded_v4(cfg)),
{
    let t = targets_v4(cfg);
    let e = excluded_v4(cfg);
    let r = pairs_v4(t);
    let p = pairs_v4(e);
    lemma_prefix_lengths_v4(text::str_views(cfg.route_address@));
    lemma_prefix_lengths_v4(text::str_views(cfg.route_exclude_address@));
    assert forall|k: int| 0 <= k < p.len() implies 0 <= (#[trigger] p[k]).1 <= 32 && p[k].0
        >= 0 by {
        assert(p[k] == (e[k].0.bits as int, e[k].1 as int));
    }
    assert forall|k: int| 0 <= k < r.len() implies 0 <= (#[trigger] r[k]).1 <= 32 && r[k].0
        >= 0 && halves_cleanly(r[k].0, r[k].1, p, 32) by {
        assert(r[k] == (t[k].0.bits as int, t[k].1 as int));
    }
    law_routes_without_excluded(r, p, 32, x.bits as int);
    lemma_subnets_v4(x, t);
    lemma_subnets_v4(x, e);
}

pub proof fn lemma_subnets_v4(x: Ipv4Addr, s: Seq<(Ipv4Addr, u8)>)
    ensures
        addr::in_subnets_v4(x, s) <==> in_prefixes(pairs_v4(s), x.bits as int, 32),
{
    let p = pairs_v4(s);
    if addr::in_subnets_v4(x, s) {
        let k = choose|k: int|
            0 <= k < s.len() && addr::in_prefix_v4(x, (#[trigger] s[k]).0, s[k].1 as int);
        assert(addr::same_block(x.bits as int, p[k].0, p[k].1, 32));
    }
    if in_prefixes(p, x.bits as int, 32) {
        let k = choose|k: int|
            0 <= k < p.len() && addr::same_block(x.bits as int, (#[trigger] p[k]).0, p[k].1, 32);
        assert(addr::in_prefix_v4(x, s[k].0, s[k].1 as int));
    }
}

pub proof fn lemma_prefix_lengths_v6(s: Seq<Seq<char>>)
    ensures
        forall|k: int|
            0 <= k < prefixes_v6(s).len() ==> (#[trigger] prefixes_v6(s)[k]).1 <= 128,
    decreases s.len(),
{
    if s.len() > 0 {
        let before = prefixes_v6(s.drop_last());
        lemma_prefix_lengths_v6(s.drop_last());
        text::lemma_addr_prefix_len(s.last());
        assert forall|k: int| 0 <= k < prefixes_v6(s).len() implies (
        #[trigger] prefixes_v6(s)[k]).1 <= 128 by {
            if k < before.len() {
                assert(prefixes_v6(s)[k] == before[k]);
                assert(before[k].1 <= 128);
            }
        }
    }
}

/// An address is routed into the device exactly where one of the targets holds
/// it and no excluded prefix does, as far as the targets are halved cleanly.
pub proof fn law_final_routes_v6(cfg: &TunInboundConfig, x: Ipv6Addr)
    requires
        forall|k: int|
            0 <= k < targets_v6(cfg).len() ==> halves_cleanly(
                (#[trigger] targets_v6(cfg)[k]).0.bits as int,
                targets_v6(cfg)[k].1 as int,
                pairs_v6(excluded_v6(cfg)),
                128,
            ),
    ensures
        in_prefixes(final_v6(cfg), x.bits as int, 128) <==> addr::in_subnets_v6(
            x,
            targets_v6(cfg),
        ) && !addr::in_subnets_v6(x, excluded_v6(cfg)),
{
    let t = targets_v6(cfg);
    let e = excluded_v6(cfg);
    let r = pairs_v6(t);
    let p = pairs_v6(e);
    lemma_prefix_lengths_v6(text::str_views(cfg.route_address@));
    lemma_prefix_lengths_v6(text::str_views(cfg.route_exclude_address@));
    assert forall|k: int| 0 <= k < p.len() implies 0 <= (#[trigger] p[k]).1 <= 128 && p[k].0
        >= 0 by {
        assert(p[k] == (e[k].0.bits as int, e[k].1 as int));
    }
    assert forall|k: int| 0 <= k < r.len() implies 0 <= (#[trigger] r[k]).1 <= 128 && r[k].0
        >= 0 && halves_cleanly(r[k].0, r[k].1, p, 128) by {
        assert(r[k] == (t[k].0.bits as int, t[k].1 as int));
    }
    law_routes_without_excluded(r, p, 128, x.bits as int);
    lemma_subnets_v6(x, t);
    lemma_subnets_v6(x, e);
}

pub proof fn lemma_subnets_v6(x: Ipv6Addr, s: Seq<(Ipv6Addr, u8)>)
    ensures
        addr::in_subnets_v6(x, s) <==> in_prefixes(pairs_v6(s), x.bits as int, 128),
{
    let p = pairs_v6(s);
    if addr::in_subnets_v6(x, s) {
        let k = choose|k: int|
            0 <= k < s.len() && addr::in_prefix_v6(x, (#[trigger] s[k]).0, s[k].1 as int);
        assert(addr::same_block(x.bits as int, p[k].0, p[k].1, 128));
    }
    if in_prefixes(p, x.bits as int, 128) {
        let k = choose|k: int|
            0 <= k < p.len() && addr::same_block(x.bits as int, (#[trigger] p[k]).0, p[k].1, 128);
        assert(addr::in_prefix_v6(x, s[k].0, s[k].1 as int));
    }
}

/// The texts that are prefixes of one IP version.
pub open spec fn texts_of_version(s: Seq<Seq<char>>, v4: bool) -> Seq<Seq<char>>
    decreases s.len(),
{
    if s.len() == 0 {
        Seq::empty()
    } else {
        let before = texts_of_version(s.drop_last(), v4);
        match text::addr_prefix(s.last()) {
            Some(p) => if (p.0 is V4) == v4 {
                before.push(s.last())
            } else {
                before
            },
            None => before,
        }
    }
}

/// Keeps the texts that are prefixes of one IP version.
pub fn keep_version(s: &Vec<String>, v4: bool) -> (v: Vec<String>)
    ensures
        text::str_views(v@) == texts_of_version(text::str_views(s@), v4),
{
    let ghost texts = text::str_views(s@);
    let mut v: Vec<String> = Vec::new();
    let mut k: usize = 0;
    assert(texts.take(0) =~= Seq::<Seq<char>>::empty());
    assert(text::str_views(v@) =~= Seq::<Seq<char>>::empty());
    while k < s.len()
        invariant
            k <= s.len(),
            texts == text::str_views(s@),
            text::str_views(v@) == texts_of_version(texts.take(k as int), v4),
        decreases s.len() - k,
    {
        let ghost before = text::str_views(v@);
        assert(texts.take(k + 1).drop_last() =~= texts.take(k as int));
        assert(texts.take(k + 1).last() == s@[k as int]@);
        if let Some(p) = parse_addr_prefix(s[k].as_str()) {
            if p.0.is_ipv4() == v4 {
                v.push(s[k].as_str().to_owned());
                assert(text::str_views(v@) =~= before.push(s@[k as int]@));
            }
        }
        k += 1;
    }
    assert(texts.take(texts.len() as int) =~= texts);
    v
}

/// One of the texts is a prefix of this IP version.
pub open spec fn has_version(s: Seq<Seq<char>>, v4: bool) -> bool {
    texts_of_version(s, v4).len() > 0
}

/// Whether one of the texts is a prefix of this IP version.
pub fn any_version(s: &Vec<String>, v4: bool) -> (r: bool)
    ensures
        r == has_version(text::str_views(s@), v4),
{
    let v: Vec<String> = keep_version(s, v4);
    assert(text::str_views(v@).len() == v@.len());
    v.len() > 0
}

} // verus!
