//! The interfaces of the host, told from what the system lists: who has which
//! address, who leads where, and what changed between two looks.
use vstd::arithmetic::div_mod;
use vstd::arithmetic::power2;
use vstd::prelude::*;

use crate::addr::IpAddr;
use crate::device_laws;
use crate::interface_finder;
use crate::interface_finder::{IfEntry, InterfaceAddr, InterfaceView, RouteLine};
use crate::interface_monitor;
use crate::interface_monitor::{AddrEntry, Debounce, EventView, SysInterface};
use crate::plain;
use crate::render;
use crate::text;
use crate::text_laws;

verus! {

/// How many of the lowest `n` bits are ones.
pub open spec fn ones_below(m: int, n: int) -> int
    decreases n,
{
    if n <= 0 {
        0
    } else {
        ones_below(m, n - 1) + plain::bit(m, n - 1)
    }
}

proof fn lemma_half_bit(m: int, k: int)
    requires
        0 <= k,
        0 <= m,
    ensures
        plain::bit(m, k + 1) == plain::bit(m / 2, k),
{
    let h = power2::pow2(k as nat) as int;
    power2::lemma_pow2_pos(k as nat);
    power2::lemma_pow2_unfold((k + 1) as nat);
    div_mod::lemma_div_denominator(m, 2, h);
}

proof fn lemma_ones_below(m: int, n: int)
    requires
        0 <= m,
        0 < n,
    ensures
        ones_below(m, n) == m % 2 + ones_below(m / 2, n - 1),
    decreases n,
{
    if n == 1 {
        power2::lemma2_to64();
        let one = power2::pow2(0) as int;
        assert(one == 1);
        div_mod::lemma_div_basics(m);
        assert(plain::bit(m, 0) == m % 2);
        assert(ones_below(m, 0) == 0);
        assert(ones_below(m / 2, 0) == 0);
    } else {
        lemma_ones_below(m, n - 1);
        lemma_half_bit(m, n - 2);
    }
}

/// The length of a mask is the number of its ones.
pub proof fn law_mask_length(m: int, n: int)
    requires
        0 <= n,
        0 <= m < power2::pow2(n as nat),
    ensures
        interface_finder::ones(m) == ones_below(m, n),
    decreases n,
{
    if n == 0 {
        power2::lemma2_to64();
    } else {
        power2::lemma_pow2_unfold(n as nat);
        law_mask_length(m / 2, n - 1);
        lemma_ones_below(m, n);
        if m == 0 {
            assert(interface_finder::ones(m / 2) == 0);
        }
    }
}

/// The address and prefix length of an entry that counts: it is up, and not a
/// loopback. Without a mask the prefix is the address alone.
pub open spec fn entry_has(e: IfEntry, a: (IpAddr, u8)) -> bool {
    &&& e.up
    &&& !e.loopback
    &&& match e.addr {
        InterfaceAddr::V4(ip, None) => a == (IpAddr::V4(ip), 32u8),
        InterfaceAddr::V6(ip, None) => a == (IpAddr::V6(ip), 128u8),
        InterfaceAddr::V4(ip, Some(m)) => a.0 == IpAddr::V4(ip) && a.1 == ones_below(m as int, 32),
        InterfaceAddr::V6(ip, Some(m)) => a.0 == IpAddr::V6(ip) && a.1 == ones_below(
            m as int,
            128,
        ),
        InterfaceAddr::Other => false,
    }
}

proof fn lemma_ones_bound(m: int, n: int)
    requires
        0 <= n,
    ensures
        0 <= ones_below(m, n) <= n,
    decreases n,
{
    if n > 0 {
        lemma_ones_bound(m, n - 1);
    }
}

proof fn lemma_counted(e: IfEntry, a: (IpAddr, u8))
    ensures
        entry_has(e, a) <==> interface_finder::counted(e) == Some(a),
{
    match e.addr {
        InterfaceAddr::V4(ip, Some(m)) => {
            power2::lemma2_to64();
            law_mask_length(m as int, 32);
            lemma_ones_bound(m as int, 32);
        },
        InterfaceAddr::V6(ip, Some(m)) => {
            crate::addr::lemma_pow2_127();
            law_mask_length(m as int, 128);
            lemma_ones_bound(m as int, 128);
        },
        _ => {},
    }
}

/// The interface of this name is listed with this address.
pub open spec fn lists(v: Seq<InterfaceView>, name: Seq<char>, a: (IpAddr, u8)) -> bool {
    exists|k: int|
        0 <= k < v.len() && (#[trigger] v[k]).name == name && v[k].addrs.contains(a)
}

proof fn lemma_named_at(v: Seq<InterfaceView>, name: Seq<char>, i: int)
    requires
        0 <= i,
    ensures
        match interface_finder::named_at(v, name, i) {
            Some(k) => i <= k < v.len() && v[k].name == name && forall|j: int|
                i <= j < k ==> (#[trigger] v[j]).name != name,
            None => forall|j: int| i <= j < v.len() ==> (#[trigger] v[j]).name != name,
        },
    decreases v.len() - i,
{
    if i < v.len() && v[i].name != name {
        lemma_named_at(v, name, i + 1);
    }
}

pub open spec fn names_differ(v: Seq<InterfaceView>) -> bool {
    forall|i: int, j: int|
        0 <= i < j < v.len() ==> (#[trigger] v[i]).name != (#[trigger] v[j]).name
}

/// An interface is listed once, with the addresses of all entries that bear its
/// name and count.
#[verifier::rlimit(40)]
pub proof fn law_interfaces_listed(e: Seq<IfEntry>, name: Seq<char>, a: (IpAddr, u8))
    ensures
        names_differ(interface_finder::grouped(e)),
        lists(interface_finder::grouped(e), name, a) <==> exists|k: int|
            0 <= k < e.len() && (#[trigger] e[k]).name@ == name && entry_has(e[k], a),
    decreases e.len(),
{
    let all = interface_finder::grouped(e);
    if e.len() > 0 {
        let front = e.drop_last();
        let before = interface_finder::grouped(front);
        law_interfaces_listed(front, name, a);
        let last = e.last();
        let n = e.len() - 1;
        assert(e[n] == last);
        lemma_counted(last, a);
        if interface_finder::counted(last) is Some {
            let b = interface_finder::counted(last)->0;
            lemma_counted(last, b);
            lemma_named_at(before, last.name@, 0);
            let at = interface_finder::named_at(before, last.name@, 0);
            assert(lists(all, name, a) <==> lists(before, name, a) || (name == last.name@ && a == b))
                by {
                match at {
                    Some(i) => {
                        let longer = before[i].addrs.push(b);
                        assert(all[i].addrs == longer);
                        assert(all[i].name == before[i].name);
                        assert(longer[longer.len() - 1] == b);
                        if lists(before, name, a) {
                            let k = choose|k: int|
                                0 <= k < before.len() && (#[trigger] before[k]).name == name
                                    && before[k].addrs.contains(a);
                            let j = choose|j: int|
                                0 <= j < before[k].addrs.len() && before[k].addrs[j] == a;
                            if k == i {
                                assert(longer[j] == a);
                            } else {
                                assert(all[k] == before[k]);
                            }
                            assert(all[k].name == name && all[k].addrs.contains(a));
                        }
                        if name == last.name@ && a == b {
                            assert(all[i].name == name && all[i].addrs.contains(a));
                        }
                        if lists(all, name, a) {
                            let k = choose|k: int|
                                0 <= k < all.len() && (#[trigger] all[k]).name == name
                                    && all[k].addrs.contains(a);
                            if k == i {
                                let j = choose|j: int| 0 <= j < longer.len() && longer[j] == a;
                                if j < before[i].addrs.len() {
                                    assert(before[i].addrs[j] == a);
                                    assert(before[i].name == name && before[i].addrs.contains(a));
                                }
                            } else {
                                assert(before[k] == all[k]);
                            }
                        }
                    },
                    None => {
                        let fresh = all[before.len() as int];
                        assert(fresh.addrs == seq![b]);
                        assert(fresh.addrs[0] == b);
                        if lists(before, name, a) {
                            let k = choose|k: int|
                                0 <= k < before.len() && (#[trigger] before[k]).name == name
                                    && before[k].addrs.contains(a);
                            assert(all[k] == before[k]);
                        }
                        if name == last.name@ && a == b {
                            assert(fresh.name == name && fresh.addrs.contains(a));
                        }
                        if lists(all, name, a) {
                            let k = choose|k: int|
                                0 <= k < all.len() && (#[trigger] all[k]).name == name
                                    && all[k].addrs.contains(a);
                            if k < before.len() {
                                assert(before[k] == all[k]);
                            }
                        }
                    },
                }
            }
        }
        if exists|k: int| 0 <= k < front.len() && (#[trigger] front[k]).name@ == name && entry_has(
            front[k],
            a,
        ) {
            let k = choose|k: int|
                0 <= k < front.len() && (#[trigger] front[k]).name@ == name && entry_has(
                    front[k],
                    a,
                );
            assert(e[k] == front[k]);
        }
        if exists|k: int| 0 <= k < e.len() && (#[trigger] e[k]).name@ == name && entry_has(e[k], a)
        {
            let k = choose|k: int|
                0 <= k < e.len() && (#[trigger] e[k]).name@ == name && entry_has(e[k], a);
            if k < n {
                assert(front[k] == e[k]);
            }
        }
    }
}

/// The address lies in the network of the interface's address.
pub open spec fn in_network(a: (IpAddr, u8), target: IpAddr) -> bool {
    match (a.0, target) {
        (IpAddr::V4(b), IpAddr::V4(t)) => plain::lies_in_v4(t, b, a.1),
        (IpAddr::V6(b), IpAddr::V6(t)) => plain::lies_in_v6(t, b, a.1),
        _ => false,
    }
}

/// A host lies behind an interface where it lies in a network of one of the
/// interface's addresses, and is none of them.
pub proof fn law_hosts_behind(i: InterfaceView, target: IpAddr)
    ensures
        interface_finder::reaches(i, target) <==> (forall|k: int|
            0 <= k < i.addrs.len() ==> (#[trigger] i.addrs[k]).0 != target) && (exists|k: int|
            0 <= k < i.addrs.len() && in_network(#[trigger] i.addrs[k], target)),
{
    assert forall|k: int| 0 <= k < i.addrs.len() implies interface_finder::in_subnet(
        (#[trigger] i.addrs[k]).0,
        i.addrs[k].1 as int,
        target,
    ) == in_network(i.addrs[k], target) by {
        let a = i.addrs[k];
        match (a.0, target) {
            (IpAddr::V4(b), IpAddr::V4(t)) => plain::law_networks_v4(t, b, a.1),
            (IpAddr::V6(b), IpAddr::V6(t)) => plain::law_networks_v6(t, b, a.1),
            _ => {},
        }
    }
    if interface_finder::behind(i, target) {
        let k = choose|k: int|
            0 <= k < i.addrs.len() && interface_finder::in_subnet(
                (#[trigger] i.addrs[k]).0,
                i.addrs[k].1 as int,
                target,
            );
        assert(in_network(i.addrs[k], target));
    }
    if exists|k: int| 0 <= k < i.addrs.len() && in_network(#[trigger] i.addrs[k], target) {
        let k = choose|k: int| 0 <= k < i.addrs.len() && in_network(#[trigger] i.addrs[k], target);
        assert(interface_finder::in_subnet(i.addrs[k].0, i.addrs[k].1 as int, target));
    }
}

/// The line of a route table is that of a default route: of its words, the
/// second and the eighth read as zero; the first is the interface.
pub open spec fn leads_everywhere(line: Seq<char>, name: Seq<char>) -> bool {
    let f = text::words_of(line);
    &&& f.len() >= 8
    &&& f[0] == name
    &&& text::hex_number(f[1], u32::MAX as int) == Some(0int)
    &&& text::hex_number(f[7], u32::MAX as int) == Some(0int)
}

/// The line is one that ends the search: it has enough words, but one of the
/// numbers does not read.
pub open spec fn unreadable(line: Seq<char>) -> bool {
    let f = text::words_of(line);
    &&& f.len() >= 8
    &&& text::hex_number(f[1], u32::MAX as int) is None || text::hex_number(
        f[7],
        u32::MAX as int,
    ) is None
}

/// The interface of the default route is that of the first line, the heading
/// left out, that leads everywhere, unless an unreadable line comes before.
#[verifier::rlimit(40)]
pub proof fn law_default_interface(lines: Seq<Seq<char>>, i: int, name: Seq<char>)
    requires
        0 <= i,
    ensures
        interface_finder::default_interface(lines, i) == Some(name) <==> exists|k: int|
            i <= k < lines.len() && leads_everywhere(#[trigger] lines[k], name) && forall|j: int|
                i <= j < k ==> !unreadable(#[trigger] lines[j]) && forall|other: Seq<char>|
                    !#[trigger] leads_everywhere(lines[j], other),
    decreases lines.len() - i,
{
    if i < lines.len() {
        law_default_interface(lines, i + 1, name);
        let l = lines[i];
        let f = text::words_of(l);
        if let RouteLine::Default(n) = interface_finder::route_line(l) {
            assert(leads_everywhere(l, n));
            if n == name {
                assert(leads_everywhere(lines[i], name));
            }
        } else if interface_finder::route_line(l) is Broken {
            assert(unreadable(l));
            assert(!leads_everywhere(l, name));
        } else {
            assert(!unreadable(l));
            assert forall|other: Seq<char>| !#[trigger] leads_everywhere(l, other) by {}
            if exists|k: int|
                i + 1 <= k < lines.len() && leads_everywhere(#[trigger] lines[k], name) && forall|
                    j: int,
                |
                    i + 1 <= j < k ==> !unreadable(#[trigger] lines[j]) && forall|other: Seq<char>|
                        !#[trigger] leads_everywhere(lines[j], other) {
                let k = choose|k: int|
                    i + 1 <= k < lines.len() && leads_everywhere(#[trigger] lines[k], name)
                        && forall|j: int|
                        i + 1 <= j < k ==> !unreadable(#[trigger] lines[j]) && forall|
                            other: Seq<char>,
                        |
                            !#[trigger] leads_everywhere(lines[j], other);
                assert forall|j: int| i <= j < k implies !unreadable(#[trigger] lines[j])
                    && forall|other: Seq<char>| !#[trigger] leads_everywhere(lines[j], other) by {}
                assert(leads_everywhere(lines[k], name));
            }
        }
    }
}

/// The number in four bytes, the lowest first, or last.
pub open spec fn number32(b: Seq<u8>, i: int, little: bool) -> int {
    if little {
        b[i] + 256 * (b[i + 1] + 256 * (b[i + 2] + 256 * b[i + 3]))
    } else {
        plain::n32(b, i)
    }
}

/// Messages are read one by one: each starts with its length and its kind. What
/// is not whole ends the reading. News of links, addresses and routes, and the
/// loss of them, matter; behind any other message the reading goes on.
pub proof fn law_messages_read(s: Seq<u8>, i: int, little: bool)
    requires
        0 <= i <= s.len(),
    ensures
        ({
            let len = number32(s, i, little);
            let kind = device_laws::field(s, i + 4, little);
            let r = interface_monitor::has_relevant(s, i, little);
            &&& s.len() - i < 16 ==> !r
            &&& s.len() - i >= 16 && (len < 16 || i + len > s.len()) ==> !r
            &&& s.len() - i >= 16 && len >= 16 && i + len <= s.len() ==> {
                if kind == 16 || kind == 17 || kind == 20 || kind == 21 || kind == 24 || kind == 25
                {
                    r
                } else {
                    r == interface_monitor::has_relevant(s, i + len, little)
                }
            }
        }),
{
    plain::lemma_n32(s, i);
}

proof fn lemma_event_named(v: Seq<EventView>, name: Seq<char>, i: int)
    requires
        0 <= i,
    ensures
        match interface_monitor::event_named(v, name, i) {
            Some(k) => i <= k < v.len() && v[k].name == name && forall|j: int|
                i <= j < k ==> (#[trigger] v[j]).name != name,
            None => forall|j: int| i <= j < v.len() ==> (#[trigger] v[j]).name != name,
        },
    decreases v.len() - i,
{
    if i < v.len() && v[i].name != name {
        lemma_event_named(v, name, i + 1);
    }
}

/// An interface is new, or came up or went down, has another size, other
/// addresses, or another word on the VPN than before.
pub open spec fn differs(old_events: Seq<EventView>, e: EventView) -> bool {
    forall|k: int|
        0 <= k < old_events.len() && (#[trigger] old_events[k]).name == e.name ==> {
            ||| old_events[k].up != e.up
            ||| old_events[k].mtu != e.mtu
            ||| old_events[k].addresses != e.addresses
            ||| old_events[k].android_vpn_enabled != e.android_vpn_enabled
        }
}

/// Exactly what differs is reported of the interfaces that are there.
#[verifier::rlimit(40)]
pub proof fn law_changes_reported(
    old_events: Seq<EventView>,
    new_events: Seq<EventView>,
    e: EventView,
)
    requires
        interface_monitor::distinct_names(old_events),
    ensures
        interface_monitor::changed_events(old_events, new_events).contains(e)
            <==> new_events.contains(e) && differs(old_events, e),
    decreases new_events.len(),
{
    let all = interface_monitor::changed_events(old_events, new_events);
    if new_events.len() > 0 {
        let front = new_events.drop_last();
        let before = interface_monitor::changed_events(old_events, front);
        let last = new_events.last();
        law_changes_reported(old_events, front, e);
        lemma_differs(old_events, last);
        assert(new_events[new_events.len() - 1] == last);
        if front.contains(e) {
            let k = choose|k: int| 0 <= k < front.len() && front[k] == e;
            assert(new_events[k] == e);
        }
        if new_events.contains(e) && e != last {
            let k = choose|k: int| 0 <= k < new_events.len() && new_events[k] == e;
            assert(front[k] == e);
        }
        if before.contains(e) {
            let k = choose|k: int| 0 <= k < before.len() && before[k] == e;
            assert(all[k] == e);
        }
        if e == last && differs(old_events, last) {
            assert(all[all.len() - 1] == last);
        }
        if all.contains(e) && !before.contains(e) {
            let k = choose|k: int| 0 <= k < all.len() && all[k] == e;
            if k < before.len() {
                assert(before[k] == e);
            }
        }
    }
}

proof fn lemma_differs(old_events: Seq<EventView>, e: EventView)
    requires
        interface_monitor::distinct_names(old_events),
    ensures
        differs(old_events, e) <==> interface_monitor::changed(old_events, e)
            || interface_monitor::vpn_turned(old_events, e),
{
    lemma_event_named(old_events, e.name, 0);
    match interface_monitor::event_named(old_events, e.name, 0) {
        Some(i) => {
            assert forall|k: int|
                0 <= k < old_events.len() && (#[trigger] old_events[k]).name == e.name implies k
                == i by {
                if k < i {
                    assert(old_events[k].name != old_events[i].name);
                } else if k > i {
                    assert(old_events[i].name != old_events[k].name);
                }
            }
            if interface_monitor::changed(old_events, e) || interface_monitor::vpn_turned(
                old_events,
                e,
            ) {
                assert(differs(old_events, e));
            }
        },
        None => {},
    }
}

/// What is gone is reported as down.
#[verifier::rlimit(40)]
pub proof fn law_losses_reported(
    old_events: Seq<EventView>,
    new_events: Seq<EventView>,
    e: EventView,
)
    ensures
        interface_monitor::removed_events(old_events, new_events).contains(e) <==> exists|k: int|
            0 <= k < old_events.len() && e == (EventView { up: false, ..#[trigger] old_events[k] })
                && forall|j: int|
                0 <= j < new_events.len() ==> (#[trigger] new_events[j]).name != old_events[k].name,
    decreases old_events.len(),
{
    let all = interface_monitor::removed_events(old_events, new_events);
    if old_events.len() > 0 {
        let front = old_events.drop_last();
        let before = interface_monitor::removed_events(front, new_events);
        let last = old_events.last();
        law_losses_reported(front, new_events, e);
        lemma_event_named(new_events, last.name, 0);
        let n = old_events.len() - 1;
        assert(old_events[n] == last);
        let gone = EventView { up: false, ..last };
        let here = interface_monitor::event_named(new_events, last.name, 0) is None;
        if before.contains(e) {
            let k = choose|k: int| 0 <= k < before.len() && before[k] == e;
            assert(all[k] == e);
            let m = choose|m: int|
                0 <= m < front.len() && e == (EventView { up: false, ..#[trigger] front[m] })
                    && forall|j: int|
                    0 <= j < new_events.len() ==> (#[trigger] new_events[j]).name != front[m].name;
            assert(old_events[m] == front[m]);
        }
        if here && e == gone {
            assert(all[all.len() - 1] == e);
        }
        if all.contains(e) && !before.contains(e) {
            let k = choose|k: int| 0 <= k < all.len() && all[k] == e;
            if k < before.len() {
                assert(before[k] == e);
            }
            assert(here && e == gone);
        }
        if exists|k: int|
            0 <= k < old_events.len() && e == (EventView { up: false, ..#[trigger] old_events[k] })
                && forall|j: int|
                0 <= j < new_events.len() ==> (#[trigger] new_events[j]).name != old_events[k].name {
            let k = choose|k: int|
                0 <= k < old_events.len() && e == (EventView {
                    up: false,
                    ..#[trigger] old_events[k]
                }) && forall|j: int|
                    0 <= j < new_events.len() ==> (#[trigger] new_events[j]).name
                        != old_events[k].name;
            if k < n {
                assert(front[k] == old_events[k]);
            } else {
                assert(here);
            }
        }
    }
}

/// A difference is what changed, followed by what is gone.
pub proof fn law_difference(old_events: Seq<EventView>, new_events: Seq<EventView>, e: EventView)
    ensures
        interface_monitor::difference(old_events, new_events).contains(e)
            <==> interface_monitor::changed_events(old_events, new_events).contains(e)
            || interface_monitor::removed_events(old_events, new_events).contains(e),
{
    let a = interface_monitor::changed_events(old_events, new_events);
    let b = interface_monitor::removed_events(old_events, new_events);
    let s = interface_monitor::difference(old_events, new_events);
    if s.contains(e) {
        let k = choose|k: int| 0 <= k < s.len() && s[k] == e;
        if k < a.len() {
            assert(a[k] == e);
        } else {
            assert(b[k - a.len()] == e);
        }
    }
    if a.contains(e) {
        let k = choose|k: int| 0 <= k < a.len() && a[k] == e;
        assert(s[k] == e);
    }
    if b.contains(e) {
        let k = choose|k: int| 0 <= k < b.len() && b[k] == e;
        assert(s[a.len() + k] == e);
    }
}

/// The last entry of a name says whether it is up, where there is one.
pub proof fn law_last_word(e: Seq<AddrEntry>, name: Seq<char>)
    ensures
        match interface_monitor::last_up(e, name) {
            Some(up) => exists|k: int|
                0 <= k < e.len() && (#[trigger] e[k]).name@ == name && e[k].up == up && forall|j: int|
                    k < j < e.len() ==> (#[trigger] e[j]).name@ != name,
            None => forall|k: int| 0 <= k < e.len() ==> (#[trigger] e[k]).name@ != name,
        },
    decreases e.len(),
{
    if e.len() > 0 {
        let front = e.drop_last();
        let n = e.len() - 1;
        assert(e[n] == e.last());
        if e.last().name@ != name {
            law_last_word(front, name);
            match interface_monitor::last_up(front, name) {
                Some(up) => {
                    let k = choose|k: int|
                        0 <= k < front.len() && (#[trigger] front[k]).name@ == name && front[k].up
                            == up && forall|j: int|
                            k < j < front.len() ==> (#[trigger] front[j]).name@ != name;
                    assert(e[k] == front[k]);
                    assert forall|j: int| k < j < e.len() implies (#[trigger] e[j]).name@
                        != name by {
                        if j < n {
                            assert(front[j] == e[j]);
                        }
                    }
                },
                None => {
                    assert forall|j: int| 0 <= j < e.len() implies (#[trigger] e[j]).name@
                        != name by {
                        if j < n {
                            assert(front[j] == e[j]);
                        }
                    }
                },
            }
        } else {
            assert(e[n].name@ == name && e[n].up == e.last().up);
        }
    }
}

/// The addresses of a name are those of its entries.
#[verifier::rlimit(40)]
pub proof fn law_addresses_gathered(e: Seq<AddrEntry>, name: Seq<char>, ip: IpAddr)
    ensures
        interface_monitor::addresses_named(e, name).contains(ip) <==> exists|k: int|
            0 <= k < e.len() && (#[trigger] e[k]).name@ == name && e[k].addr == Some(ip),
    decreases e.len(),
{
    let all = interface_monitor::addresses_named(e, name);
    if e.len() > 0 {
        let front = e.drop_last();
        let before = interface_monitor::addresses_named(front, name);
        law_addresses_gathered(front, name, ip);
        let n = e.len() - 1;
        assert(e[n] == e.last());
        if before.contains(ip) {
            let j = choose|j: int| 0 <= j < before.len() && before[j] == ip;
            assert(all[j] == ip);
            let k = choose|k: int|
                0 <= k < front.len() && (#[trigger] front[k]).name@ == name && front[k].addr
                    == Some(ip);
            assert(e[k] == front[k]);
        }
        if exists|k: int|
            0 <= k < e.len() && (#[trigger] e[k]).name@ == name && e[k].addr == Some(ip) {
            let k = choose|k: int|
                0 <= k < e.len() && (#[trigger] e[k]).name@ == name && e[k].addr == Some(ip);
            if k < n {
                assert(front[k] == e[k]);
                assert(before.contains(ip));
            } else {
                assert(all[all.len() - 1] == ip);
            }
        }
        if all.contains(ip) && !before.contains(ip) {
            let j = choose|j: int| 0 <= j < all.len() && all[j] == ip;
            if j < before.len() {
                assert(before[j] == ip);
            }
        }
    }
}

/// One event for each interface of the system, completed from the address list;
/// and one more for the VPN, where its state is known and no interface bears
/// its name.
pub proof fn law_look(s: Seq<SysInterface>, e: Seq<AddrEntry>, vpn: Option<bool>, k: int)
    requires
        0 <= k < s.len(),
        forall|i: int, j: int| 0 <= i < j < s.len() ==> (#[trigger] s[i]).name@ != (
        #[trigger] s[j]).name@,
    ensures
        ({
            let v = interface_monitor::scanned(s, e, vpn);
            &&& v.len() == s.len() || v.len() == s.len() + 1
            &&& vpn is None ==> v.len() == s.len()
            &&& v[k].name == s[k].name@
            &&& v[k].index == s[k].index
            &&& v[k].mtu == s[k].mtu
            &&& v[k].addresses == interface_monitor::addresses_named(e, s[k].name@)
            &&& v[k].android_vpn_enabled <==> vpn == Some(true)
            &&& interface_monitor::last_up(e, s[k].name@) is None ==> v[k].up == s[k].up
            &&& interface_monitor::last_up(e, s[k].name@) matches Some(up) ==> v[k].up == up
        }),
{
    assert(!interface_monitor::named_before(s, k));
}

/// A monitor that was taken off is no longer registered, and all others are.
pub proof fn law_taken_off(s: Seq<usize>, id: usize, other: usize)
    ensures
        interface_monitor::without(s, id).contains(other) <==> s.contains(other) && other != id,
    decreases s.len(),
{
    let all = interface_monitor::without(s, id);
    if s.len() > 0 {
        let front = s.drop_last();
        let before = interface_monitor::without(front, id);
        law_taken_off(front, id, other);
        assert(s[s.len() - 1] == s.last());
        if s.contains(other) && other != s.last() {
            let k = choose|k: int| 0 <= k < s.len() && s[k] == other;
            assert(front[k] == other);
        }
        if front.contains(other) {
            let k = choose|k: int| 0 <= k < front.len() && front[k] == other;
            assert(s[k] == other);
        }
        if before.contains(other) {
            let k = choose|k: int| 0 <= k < before.len() && before[k] == other;
            assert(all[k] == other);
        }
        if s.last() != id && other == s.last() {
            assert(all[all.len() - 1] == other);
        }
        if all.contains(other) && !before.contains(other) {
            let k = choose|k: int| 0 <= k < all.len() && all[k] == other;
            if k < before.len() {
                assert(before[k] == other);
            }
        }
    }
}

/// What is remembered after these events, one after the other.
pub open spec fn after_events(d: Debounce, t: Seq<u64>) -> Debounce
    decreases t.len(),
{
    if t.len() == 0 {
        d
    } else {
        interface_monitor::after_event(after_events(d, t.drop_last()), t.last()).1
    }
}

/// After a look nothing waits. However many events come within the second after
/// it, none of them is looked at when it comes; they are looked at together, at
/// the end of that second. An event after it is looked at as it comes, and is a
/// look like the first.
pub proof fn law_looks_are_apart(t: u64, events: Seq<u64>, now: u64)
    requires
        t + 1000 <= u64::MAX,
        now + 1000 <= u64::MAX,
        forall|i: int| 0 <= i < events.len() ==> t <= #[trigger] events[i] < t + 1000,
    ensures
        interface_monitor::due(interface_monitor::after_look(t)) is None,
        ({
            let d = after_events(interface_monitor::after_look(t), events);
            &&& events.len() > 0 <==> interface_monitor::due(d) is Some
            &&& events.len() > 0 ==> interface_monitor::due(d)->0 == t + 1000
            &&& interface_monitor::after_event(d, now).0 <==> now >= t + 1000
            &&& now >= t + 1000 ==> interface_monitor::after_event(d, now).1
                == interface_monitor::after_look(now)
        }),
    decreases events.len(),
{
    let d = after_events(interface_monitor::after_look(t), events);
    if events.len() > 0 {
        let e = events.drop_last();
        assert forall|i: int| 0 <= i < e.len() implies t <= #[trigger] e[i] < t + 1000 by {
            assert(e[i] == events[i]);
        }
        law_looks_are_apart(t, e, now);
        let c = after_events(interface_monitor::after_look(t), e);
        let last = events.last();
        assert(t <= events[events.len() - 1] < t + 1000);
        lemma_next_look(c, t, now);
        assert(d == interface_monitor::after_event(c, last).1);
    }
}

proof fn lemma_next_look(c: Debounce, t: u64, now: u64)
    requires
        t + 1000 <= u64::MAX,
        now + 1000 <= u64::MAX,
        c == interface_monitor::after_look(t) || c.next_emit == t + 1000,
    ensures
        c.next_emit == t + 1000,
        interface_monitor::after_event(c, now).0 <==> now >= t + 1000,
{
}

/// A look without an event forgets what waited, and moves no later look.
pub proof fn law_polls_forget(d: Debounce, now: u64)
    ensures
        interface_monitor::due(interface_monitor::after_poll(d)) is None,
        interface_monitor::after_event(interface_monitor::after_poll(d), now)
            == interface_monitor::after_event(d, now),
{
}

/// A number written in a file is the number that is shown, with white space
/// behind it or not, and without a number the other one is. Of the states only
/// the word `up` tells that an interface is up.
pub proof fn law_files_are_read(n: u32, other: int, number: &str, state: &str, word: Seq<char>)
    requires
        number@.len() >= render::dec_text(n as int).len(),
        number@.take(render::dec_text(n as int).len() as int) == render::dec_text(n as int),
        text_laws::blank(number@.skip(render::dec_text(n as int).len() as int)),
        state@.len() >= word.len(),
        state@.take(word.len() as int) == word,
        text_laws::blank(state@.skip(word.len() as int)),
        word.len() > 0 ==> !text::is_space(word[0]) && !text::is_space(word.last()),
    ensures
        interface_monitor::shown_number(Some(number), other) == n,
        interface_monitor::shown_number(None, other) == other,
        word.len() == 0 ==> interface_monitor::shown_number(Some(state), other) == other,
        interface_monitor::shown_up(Some(state)) <==> word == seq!['u', 'p'],
        !interface_monitor::shown_up(None),
{
    let t = render::dec_text(n as int);
    render::lemma_dec_text(n as int);
    assert(text::is_digit(t[0]));
    assert(text::is_digit(t[t.len() - 1]));
    text_laws::law_white_space_around(t, number@.skip(t.len() as int));
    assert(t + number@.skip(t.len() as int) =~= number@);
    text_laws::law_white_space_around(word, state@.skip(word.len() as int));
    assert(word + state@.skip(word.len() as int) =~= state@);
    reveal_strlit("up");
    assert("up"@ =~= seq!['u', 'p']);
}

} // verus!
