//! Watching the interfaces of this host: what the kernel's messages say, what
//! changed between two looks, and when to look again.
use vstd::prelude::*;

use crate::addr::IpAddr;
use crate::text;
use crate::text::{chars_of, find_text, parse_u64, same_text, split_on, trimmed};
use crate::wire;
use crate::wire::{get_native16, native_one};

verus! {

pub const RTM_NEWLINK: u16 = 16;

pub const RTM_DELLINK: u16 = 17;

pub const RTM_NEWADDR: u16 = 20;

pub const RTM_DELADDR: u16 = 21;

pub const RTM_NEWROUTE: u16 = 24;

pub const RTM_DELROUTE: u16 = 25;

/// How long event-driven looks stay apart, in milliseconds.
pub const DEBOUNCE_MS: u64 = 1000;

/// How often it is looked without an event, in milliseconds.
pub const POLL_INTERVAL_MS: u64 = 5000;

/// The number of four bytes in the byte order of the machine.
pub open spec fn native32(s: Seq<u8>, i: int, little: bool) -> int {
    if little {
        s[i] + s[i + 1] * 0x100 + s[i + 2] * 0x1_0000 + s[i + 3] * 0x100_0000
    } else {
        s[i] * 0x100_0000 + s[i + 1] * 0x1_0000 + s[i + 2] * 0x100 + s[i + 3]
    }
}

/// The message is about an interface, an address or a route.
pub open spec fn is_relevant(kind: int) -> bool {
    kind == RTM_NEWLINK || kind == RTM_DELLINK || kind == RTM_NEWADDR || kind == RTM_DELADDR
        || kind == RTM_NEWROUTE || kind == RTM_DELROUTE
}

/// One of the messages from `i` on is about an interface, an address or a
/// route. Each message starts with its length and its kind; a length that
/// cannot be ends the walk.
pub open spec fn has_relevant(s: Seq<u8>, i: int, little: bool) -> bool
    decreases s.len() - i,
{
    if i < 0 || s.len() - i < 16 {
        false
    } else {
        let len = native32(s, i, little);
        if len < 16 || len > s.len() - i {
            false
        } else {
            is_relevant(wire::native16(s, i + 4, little)) || has_relevant(s, i + len, little)
        }
    }
}

/// Whether messages of the given byte order are about an interface, an address
/// or a route.
pub fn parse_messages_in(data: &[u8], little: bool) -> (r: bool)
    ensures
        r == has_relevant(data@, 0, little),
{
    let mut i: usize = 0;
    while data.len() - i >= 16
        invariant
            i <= data.len(),
            has_relevant(data@, 0, little) == has_relevant(data@, i as int, little),
        decreases data.len() - i,
    {
        let len: u32 = if little {
            data[i] as u32 + data[i + 1] as u32 * 0x100 + data[i + 2] as u32 * 0x1_0000
                + data[i + 3] as u32 * 0x100_0000
        } else {
            data[i] as u32 * 0x100_0000 + data[i + 1] as u32 * 0x1_0000 + data[i + 2] as u32
                * 0x100 + data[i + 3] as u32
        };
        let len: usize = len as usize;
        if len < 16 || len > data.len() - i {
            return false;
        }
        let kind: u16 = get_native16(data, i + 4, little);
        if kind == RTM_NEWLINK || kind == RTM_DELLINK || kind == RTM_NEWADDR || kind
            == RTM_DELADDR || kind == RTM_NEWROUTE || kind == RTM_DELROUTE {
            return true;
        }
        i += len;
    }
    false
}

/// Whether messages of this machine's kernel are about an interface, an
/// address or a route.
pub fn parse_messages(data: &[u8]) -> (r: bool)
    ensures
        r == has_relevant(data@, 0, true) || r == has_relevant(data@, 0, false),
{
    parse_messages_in(data, native_one() == 1)
}

/// An interface as it is found, or as it changed.
#[derive(Clone, Debug)]
pub struct InterfaceEvent {
    pub name: String,
    pub index: u32,
    pub up: bool,
    pub mtu: u32,
    pub addresses: Vec<IpAddr>,
    /// The system's VPN is on; on systems that have none this is never set.
    pub android_vpn_enabled: bool,
}

/// An interface by what it holds.
pub struct EventView {
    pub name: Seq<char>,
    pub index: u32,
    pub up: bool,
    pub mtu: u32,
    pub addresses: Seq<IpAddr>,
    pub android_vpn_enabled: bool,
}

impl InterfaceEvent {
    pub open spec fn view(&self) -> EventView {
        EventView {
            name: self.name@,
            index: self.index,
            up: self.up,
            mtu: self.mtu,
            addresses: self.addresses@,
            android_vpn_enabled: self.android_vpn_enabled,
        }
    }
}

pub open spec fn event_views(v: Seq<InterfaceEvent>) -> Seq<EventView> {
    Seq::new(v.len(), |k: int| v[k]@)
}

/// Where an interface of this name first stands, from `i` on.
pub open spec fn event_named(v: Seq<EventView>, name: Seq<char>, i: int) -> Option<int>
    decreases v.len() - i,
{
    if i < 0 || i >= v.len() {
        None
    } else if v[i].name == name {
        Some(i)
    } else {
        event_named(v, name, i + 1)
    }
}

/// The interface is new, or it went up or down, or its MTU or its addresses
/// are others.
pub open spec fn changed(old_events: Seq<EventView>, e: EventView) -> bool {
    match event_named(old_events, e.name, 0) {
        None => true,
        Some(i) => old_events[i].up != e.up || old_events[i].mtu != e.mtu
            || old_events[i].addresses != e.addresses,
    }
}

/// The system's VPN was turned on or off since the interface was last seen.
pub open spec fn vpn_turned(old_events: Seq<EventView>, e: EventView) -> bool {
    match event_named(old_events, e.name, 0) {
        None => false,
        Some(i) => old_events[i].android_vpn_enabled != e.android_vpn_enabled,
    }
}

/// The interfaces that are new or changed. One that the VPN was turned for
/// stands there for that as well.
pub open spec fn changed_events(old_events: Seq<EventView>, new_events: Seq<EventView>) -> Seq<
    EventView,
>
    decreases new_events.len(),
{
    if new_events.len() == 0 {
        Seq::empty()
    } else {
        let e = new_events.last();
        let before = changed_events(old_events, new_events.drop_last());
        let with_change = if changed(old_events, e) {
            before.push(e)
        } else {
            before
        };
        if vpn_turned(old_events, e) {
            with_change.push(e)
        } else {
            with_change
        }
    }
}

/// The interfaces that are gone, as interfaces that are down.
pub open spec fn removed_events(old_events: Seq<EventView>, new_events: Seq<EventView>) -> Seq<
    EventView,
>
    decreases old_events.len(),
{
    if old_events.len() == 0 {
        Seq::empty()
    } else {
        let before = removed_events(old_events.drop_last(), new_events);
        if event_named(new_events, old_events.last().name, 0) is None {
            before.push(EventView { up: false, ..old_events.last() })
        } else {
            before
        }
    }
}

/// What changed between two looks.
pub open spec fn difference(old_events: Seq<EventView>, new_events: Seq<EventView>) -> Seq<
    EventView,
> {
    changed_events(old_events, new_events) + removed_events(old_events, new_events)
}

fn find_event(v: &[InterfaceEvent], name: &str) -> (r: Option<usize>)
    ensures
        match r {
            Some(i) => event_named(event_views(v@), name@, 0) == Some(i as int) && i < v.len(),
            None => event_named(event_views(v@), name@, 0) is None,
        },
{
    let mut i: usize = 0;
    while i < v.len()
        invariant
            i <= v.len(),
            event_named(event_views(v@), name@, 0) == event_named(
                event_views(v@),
                name@,
                i as int,
            ),
        decreases v.len() - i,
    {
        assert(event_views(v@)[i as int] == v@[i as int]@);
        if same_text(v[i].name.as_str(), name) {
            return Some(i);
        }
        i += 1;
    }
    None
}

fn same_addresses(a: &Vec<IpAddr>, b: &Vec<IpAddr>) -> (r: bool)
    ensures
        r == (a@ == b@),
{
    if a.len() != b.len() {
        return false;
    }
    let mut k: usize = 0;
    while k < a.len()
        invariant
            k <= a.len(),
            a@.len() == b@.len(),
            forall|j: int| 0 <= j < k ==> a@[j] == b@[j],
        decreases a.len() - k,
    {
        if a[k] != b[k] {
            return false;
        }
        k += 1;
    }
    assert(a@ =~= b@);
    true
}

fn copy_addresses(v: &Vec<IpAddr>) -> (c: Vec<IpAddr>)
    ensures
        c@ == v@,
{
    let mut c: Vec<IpAddr> = Vec::new();
    let mut k: usize = 0;
    while k < v.len()
        invariant
            k <= v.len(),
            c@ == v@.take(k as int),
        decreases v.len() - k,
    {
        c.push(v[k]);
        assert(v@.take(k + 1) =~= v@.take(k as int).push(v@[k as int]));
        k += 1;
    }
    assert(v@.take(v@.len() as int) =~= v@);
    c
}

fn copy_event(e: &InterfaceEvent, up: bool) -> (c: InterfaceEvent)
    ensures
        c@ == (EventView { up, ..e@ }),
{
    InterfaceEvent {
        name: e.name.as_str().to_owned(),
        index: e.index,
        up,
        mtu: e.mtu,
        addresses: copy_addresses(&e.addresses),
        android_vpn_enabled: e.android_vpn_enabled,
    }
}

fn is_changed(old_events: &[InterfaceEvent], e: &InterfaceEvent) -> (r: bool)
    ensures
        r == changed(event_views(old_events@), e@),
{
    match find_event(old_events, e.name.as_str()) {
        None => true,
        Some(i) => {
            let o: &InterfaceEvent = &old_events[i];
            assert(event_views(old_events@)[i as int] == old_events@[i as int]@);
            o.up != e.up || o.mtu != e.mtu || !same_addresses(&o.addresses, &e.addresses)
        },
    }
}

fn is_vpn_turned(old_events: &[InterfaceEvent], e: &InterfaceEvent) -> (r: bool)
    ensures
        r == vpn_turned(event_views(old_events@), e@),
{
    match find_event(old_events, e.name.as_str()) {
        None => false,
        Some(i) => {
            assert(event_views(old_events@)[i as int] == old_events@[i as int]@);
            old_events[i].android_vpn_enabled != e.android_vpn_enabled
        },
    }
}

/// What changed between two looks: interfaces that are new or changed, and
/// then those that are gone.
pub fn diff_events(old_events: &[InterfaceEvent], new_events: &[InterfaceEvent]) -> (changes: Vec<
    InterfaceEvent,
>)
    ensures
        event_views(changes@) == difference(event_views(old_events@), event_views(new_events@)),
{
    let ghost a = event_views(old_events@);
    let ghost b = event_views(new_events@);
    let mut changes: Vec<InterfaceEvent> = Vec::new();
    let mut k: usize = 0;
    assert(b.take(0) =~= Seq::<EventView>::empty());
    assert(event_views(changes@) =~= changed_events(a, b.take(0)));
    while k < new_events.len()
        invariant
            k <= new_events.len(),
            a == event_views(old_events@),
            b == event_views(new_events@),
            event_views(changes@) == changed_events(a, b.take(k as int)),
        decreases new_events.len() - k,
    {
        let ghost before = event_views(changes@);
        assert(b.take(k + 1).drop_last() =~= b.take(k as int));
        assert(b.take(k + 1).last() == new_events@[k as int]@);
        if is_changed(old_events, &new_events[k]) {
            let e: InterfaceEvent = copy_event(&new_events[k], new_events[k].up);
            assert(e@ == new_events@[k as int]@);
            changes.push(e);
            assert(event_views(changes@) =~= before.push(new_events@[k as int]@));
        }
        if is_vpn_turned(old_events, &new_events[k]) {
            let ghost with_change = event_views(changes@);
            let e: InterfaceEvent = copy_event(&new_events[k], new_events[k].up);
            assert(e@ == new_events@[k as int]@);
            changes.push(e);
            assert(event_views(changes@) =~= with_change.push(new_events@[k as int]@));
        }
        k += 1;
    }
    assert(b.take(b.len() as int) =~= b);
    let ghost first = changed_events(a, b);
    let mut i: usize = 0;
    assert(a.take(0) =~= Seq::<EventView>::empty());
    assert(event_views(changes@) =~= first + removed_events(a.take(0), b));
    while i < old_events.len()
        invariant
            i <= old_events.len(),
            a == event_views(old_events@),
            b == event_views(new_events@),
            event_views(changes@) == first + removed_events(a.take(i as int), b),
        decreases old_events.len() - i,
    {
        let ghost before = event_views(changes@);
        assert(a.take(i + 1).drop_last() =~= a.take(i as int));
        assert(a.take(i + 1).last() == old_events@[i as int]@);
        if find_event(new_events, old_events[i].name.as_str()).is_none() {
            let e: InterfaceEvent = copy_event(&old_events[i], false);
            changes.push(e);
            assert(event_views(changes@) =~= before.push(e@));
            assert(event_views(changes@) =~= first + removed_events(a.take(i + 1), b));
        }
        i += 1;
    }
    assert(a.take(a.len() as int) =~= a);
    changes
}

/// No two interfaces have the same name.
pub open spec fn distinct_names(v: Seq<EventView>) -> bool {
    forall|i: int, j: int|
        0 <= i < j < v.len() ==> (#[trigger] v[i]).name != (#[trigger] v[j]).name
}

proof fn lemma_named(v: Seq<EventView>, i: int, k: int)
    requires
        0 <= i <= k < v.len(),
        forall|j: int| i <= j < k ==> (#[trigger] v[j]).name != v[k].name,
    ensures
        event_named(v, v[k].name, i) == Some(k),
    decreases k - i,
{
    if i < k {
        lemma_named(v, i + 1, k);
    }
}

/// Two looks that find the same interfaces differ in nothing.
pub proof fn law_same_look_no_difference(v: Seq<EventView>)
    requires
        distinct_names(v),
    ensures
        difference(v, v) == Seq::<EventView>::empty(),
{
    lemma_nothing_changed(v, v.len() as int);
    lemma_nothing_removed(v, v.len() as int);
    assert(v.take(v.len() as int) =~= v);
    assert(difference(v, v) =~= Seq::<EventView>::empty());
}

proof fn lemma_nothing_changed(v: Seq<EventView>, n: int)
    requires
        distinct_names(v),
        0 <= n <= v.len(),
    ensures
        changed_events(v, v.take(n)).len() == 0,
    decreases n,
{
    if n > 0 {
        lemma_nothing_changed(v, n - 1);
        assert(v.take(n).drop_last() =~= v.take(n - 1));
        lemma_named(v, 0, n - 1);
    }
}

proof fn lemma_nothing_removed(v: Seq<EventView>, n: int)
    requires
        distinct_names(v),
        0 <= n <= v.len(),
    ensures
        removed_events(v.take(n), v).len() == 0,
    decreases n,
{
    if n > 0 {
        lemma_nothing_removed(v, n - 1);
        assert(v.take(n).drop_last() =~= v.take(n - 1));
        lemma_named(v, 0, n - 1);
    }
}

/// What a look leaves: where something changed, the changes and what was
/// found; else nothing, and what was known before.
pub fn rescan(last: Vec<InterfaceEvent>, current: Vec<InterfaceEvent>) -> (r: (
    Vec<InterfaceEvent>,
    Vec<InterfaceEvent>,
))
    ensures
        event_views(r.0@) == difference(event_views(last@), event_views(current@)),
        r.1 == (if r.0@.len() == 0 {
            last
        } else {
            current
        }),
{
    let changes: Vec<InterfaceEvent> = diff_events(last.as_slice(), current.as_slice());
    if changes.len() == 0 {
        (changes, last)
    } else {
        (changes, current)
    }
}

/// An interface as the kernel's file tree shows it.
pub struct SysInterface {
    pub name: String,
    pub index: u32,
    pub mtu: u32,
    pub up: bool,
}

/// The number in a file's text, with white space around it or not.
pub open spec fn file_number(content: Option<Seq<char>>) -> Option<int> {
    match content {
        Some(s) => text::number(text::trim(s), u64::MAX as int),
        None => None,
    }
}

pub open spec fn content_view(content: Option<&str>) -> Option<Seq<char>> {
    match content {
        Some(s) => Some(s@),
        None => None,
    }
}

/// The number in a file's text, as far as 32 bits hold it, or another one
/// without a number.
pub open spec fn shown_number(content: Option<&str>, otherwise: int) -> int {
    match file_number(content_view(content)) {
        Some(n) => n % 0x1_0000_0000,
        None => otherwise,
    }
}

/// Whether a file's text tells that an interface is up.
pub open spec fn shown_up(content: Option<&str>) -> bool {
    content is Some && text::trim(content->0@) == "up"@
}

/// Reads the number in a file's text.
pub fn read_uint(content: Option<&str>) -> (n: Option<u64>)
    ensures
        match n {
            Some(n) => file_number(content_view(content)) == Some(n as int),
            None => file_number(content_view(content)) is None,
        },
{
    match content {
        Some(s) => {
            let c: Vec<char> = chars_of(s);
            parse_u64(trimmed(c.as_slice()))
        },
        None => None,
    }
}

/// The interface that the kernel's files show: its index, or zero without a
/// number, its MTU, or 1500 without one, and whether it is up.
pub fn sys_interface(
    name: String,
    ifindex: Option<&str>,
    operstate: Option<&str>,
    mtu: Option<&str>,
) -> (i: SysInterface)
    ensures
        i.name == name,
        i.index == (match file_number(content_view(ifindex)) {
            Some(n) => n % 0x1_0000_0000,
            None => 0,
        }),
        i.mtu == (match file_number(content_view(mtu)) {
            Some(n) => n % 0x1_0000_0000,
            None => 1500,
        }),
        i.up == (match operstate {
            Some(s) => text::trim(s@) == "up"@,
            None => false,
        }),
        i.index == shown_number(ifindex, 0),
        i.mtu == shown_number(mtu, 1500),
        i.up == shown_up(operstate),
{
    let index: u32 = match read_uint(ifindex) {
        Some(n) => (n % 0x1_0000_0000) as u32,
        None => 0,
    };
    let mtu: u32 = match read_uint(mtu) {
        Some(n) => (n % 0x1_0000_0000) as u32,
        None => 1500,
    };
    let up: bool = match operstate {
        Some(s) => {
            let c: Vec<char> = chars_of(s);
            let state: String = text::string_of(trimmed(c.as_slice()));
            same_text(state.as_str(), "up")
        },
        None => false,
    };
    SysInterface { name, index, mtu, up }
}

/// One entry of the host's list of interface addresses.
pub struct AddrEntry {
    pub name: String,
    pub up: bool,
    pub addr: Option<IpAddr>,
}

/// Whether the last entry of this name is up.
pub open spec fn last_up(e: Seq<AddrEntry>, name: Seq<char>) -> Option<bool>
    decreases e.len(),
{
    if e.len() == 0 {
        None
    } else if e.last().name@ == name {
        Some(e.last().up)
    } else {
        last_up(e.drop_last(), name)
    }
}

/// The addresses of the entries of this name.
pub open spec fn addresses_named(e: Seq<AddrEntry>, name: Seq<char>) -> Seq<IpAddr>
    decreases e.len(),
{
    if e.len() == 0 {
        Seq::empty()
    } else {
        let before = addresses_named(e.drop_last(), name);
        match e.last().addr {
            Some(ip) => if e.last().name@ == name {
                before.push(ip)
            } else {
                before
            },
            None => before,
        }
    }
}

/// An earlier interface has the same name.
pub open spec fn named_before(s: Seq<SysInterface>, k: int) -> bool {
    exists|j: int| 0 <= j < k && (#[trigger] s[j]).name@ == s[k].name@
}

/// Interface `k` as the list of addresses completes it: whether it is up comes
/// from the list, where the list knows it, and its addresses too.
pub open spec fn completed(
    s: Seq<SysInterface>,
    e: Seq<AddrEntry>,
    vpn: Option<bool>,
    k: int,
) -> EventView {
    EventView {
        name: s[k].name@,
        index: s[k].index,
        up: match last_up(e, s[k].name@) {
            Some(up) => up,
            None => s[k].up,
        },
        mtu: s[k].mtu,
        addresses: if named_before(s, k) {
            Seq::empty()
        } else {
            addresses_named(e, s[k].name@)
        },
        android_vpn_enabled: vpn == Some(true),
    }
}

/// What stands for the system's VPN among the interfaces.
pub open spec fn vpn_event(vpn: bool) -> EventView {
    EventView {
        name: "__android_vpn__"@,
        index: 0,
        up: false,
        mtu: 0,
        addresses: Seq::empty(),
        android_vpn_enabled: vpn,
    }
}

/// The interfaces of the host. Where the system has a VPN of its own, something
/// that stands for it is among them.
pub open spec fn scanned(s: Seq<SysInterface>, e: Seq<AddrEntry>, vpn: Option<bool>) -> Seq<
    EventView,
> {
    let found = Seq::new(s.len(), |k: int| completed(s, e, vpn, k));
    match vpn {
        Some(on) => if event_named(found, "__android_vpn__"@, 0) is None {
            found.push(vpn_event(on))
        } else {
            found
        },
        None => found,
    }
}

fn find_up(e: &[AddrEntry], name: &str) -> (r: Option<bool>)
    ensures
        r == last_up(e@, name@),
{
    let mut k: usize = e.len();
    assert(e@.take(e@.len() as int) =~= e@);
    while k > 0
        invariant
            k <= e.len(),
            last_up(e@, name@) == last_up(e@.take(k as int), name@),
        decreases k,
    {
        assert(e@.take(k as int).drop_last() =~= e@.take(k - 1));
        assert(e@.take(k as int).last() == e@[k - 1]);
        if same_text(e[k - 1].name.as_str(), name) {
            return Some(e[k - 1].up);
        }
        k -= 1;
    }
    None
}

fn find_addresses(e: &[AddrEntry], name: &str) -> (v: Vec<IpAddr>)
    ensures
        v@ == addresses_named(e@, name@),
{
    let mut v: Vec<IpAddr> = Vec::new();
    let mut k: usize = 0;
    assert(e@.take(0) =~= Seq::<AddrEntry>::empty());
    while k < e.len()
        invariant
            k <= e.len(),
            v@ == addresses_named(e@.take(k as int), name@),
        decreases e.len() - k,
    {
        assert(e@.take(k + 1).drop_last() =~= e@.take(k as int));
        assert(e@.take(k + 1).last() == e@[k as int]);
        if let Some(ip) = e[k].addr {
            if same_text(e[k].name.as_str(), name) {
                v.push(ip);
            }
        }
        k += 1;
    }
    assert(e@.take(e@.len() as int) =~= e@);
    v
}

fn is_named_before(s: &[SysInterface], k: usize) -> (r: bool)
    requires
        k < s.len(),
    ensures
        r == named_before(s@, k as int),
{
    let mut j: usize = 0;
    while j < k
        invariant
            j <= k < s.len(),
            forall|i: int| 0 <= i < j ==> (#[trigger] s@[i]).name@ != s@[k as int].name@,
        decreases k - j,
    {
        if same_text(s[j].name.as_str(), s[k].name.as_str()) {
            assert(s@[j as int].name@ == s@[k as int].name@);
            return true;
        }
        j += 1;
    }
    false
}

/// The interfaces of the host, from its file tree and its list of addresses,
/// and whether the system's own VPN is on, where it has one.
pub fn scan_interfaces(sys: &[SysInterface], entries: &[AddrEntry], vpn: Option<bool>) -> (v: Vec<
    InterfaceEvent,
>)
    ensures
        event_views(v@) == scanned(sys@, entries@, vpn),
{
    let ghost found = Seq::new(sys@.len(), |k: int| completed(sys@, entries@, vpn, k));
    let vpn_on: bool = match vpn {
        Some(on) => on,
        None => false,
    };
    let mut v: Vec<InterfaceEvent> = Vec::new();
    let mut k: usize = 0;
    while k < sys.len()
        invariant
            k <= sys.len(),
            v@.len() == k,
            vpn_on == (vpn == Some(true)),
            forall|j: int| 0 <= j < k ==> (#[trigger] v@[j])@ == completed(sys@, entries@, vpn, j),
        decreases sys.len() - k,
    {
        let name: &str = sys[k].name.as_str();
        let up: bool = match find_up(entries, name) {
            Some(up) => up,
            None => sys[k].up,
        };
        let addresses: Vec<IpAddr> = if is_named_before(sys, k) {
            Vec::new()
        } else {
            find_addresses(entries, name)
        };
        let e = InterfaceEvent {
            name: name.to_owned(),
            index: sys[k].index,
            up,
            mtu: sys[k].mtu,
            addresses,
            android_vpn_enabled: vpn_on,
        };
        assert(e@.addresses =~= completed(sys@, entries@, vpn, k as int).addresses);
        v.push(e);
        k += 1;
    }
    assert(event_views(v@) =~= found);
    if let Some(on) = vpn {
        if find_event(v.as_slice(), "__android_vpn__").is_none() {
            let e = InterfaceEvent {
                name: "__android_vpn__".to_owned(),
                index: 0,
                up: false,
                mtu: 0,
                addresses: Vec::new(),
                android_vpn_enabled: on,
            };
            assert(e@.addresses =~= vpn_event(on).addresses);
            v.push(e);
            assert(event_views(v@) =~= found.push(vpn_event(on)));
        }
    }
    v
}

/// A line is about the mark that the system's VPN uses.
pub open spec fn marks_vpn(line: Seq<char>) -> bool {
    text::contains_text(line, "fwmark"@) && text::contains_text(line, "0x20000"@)
}

/// Whether the list of policy rules shows that the system's VPN is on.
pub fn android_vpn_active(rules: &str) -> (r: bool)
    ensures
        r == exists|k: int|
            0 <= k < text::split(rules@, '\n').len() && marks_vpn(
                #[trigger] text::split(rules@, '\n')[k],
            ),
{
    let c: Vec<char> = chars_of(rules);
    let lines: Vec<Vec<char>> = split_on(c.as_slice(), '\n');
    let ghost all = text::split(rules@, '\n');
    let fwmark: Vec<char> = chars_of("fwmark");
    let value: Vec<char> = chars_of("0x20000");
    let mut k: usize = 0;
    while k < lines.len()
        invariant
            k <= lines.len(),
            all == text::split(rules@, '\n'),
            text::char_views(lines@) == all,
            all.len() == lines@.len(),
            fwmark@ == "fwmark"@,
            value@ == "0x20000"@,
            forall|j: int| 0 <= j < k ==> !marks_vpn(#[trigger] all[j]),
        decreases lines.len() - k,
    {
        assert(all[k as int] == lines@[k as int]@);
        if find_text(lines[k].as_slice(), fwmark.as_slice()).is_some() && find_text(
            lines[k].as_slice(),
            value.as_slice(),
        ).is_some() {
            assert(marks_vpn(all[k as int]));
            return true;
        }
        k += 1;
    }
    false
}

/// Who is told of changes, by number.
pub struct MonitorRegistry {
    ids: Vec<usize>,
    next_id: usize,
    task_running: bool,
}

impl MonitorRegistry {
    /// The numbers of those that are told.
    pub closed spec fn registered(&self) -> Seq<usize> {
        self.ids@
    }

    /// The number that the next one gets.
    pub closed spec fn next(&self) -> usize {
        self.next_id
    }

    pub closed spec fn running(&self) -> bool {
        self.task_running
    }

    /// No number was given twice, and none that is still to be given.
    pub open spec fn wf(&self) -> bool {
        &&& forall|k: int| 0 <= k < self.registered().len() ==> #[trigger] self.registered()[k]
            < self.next()
        &&& forall|i: int, j: int|
            0 <= i < j < self.registered().len() ==> #[trigger] self.registered()[i]
                != #[trigger] self.registered()[j]
    }

    pub fn new() -> (m: Self)
        ensures
            m.wf(),
            m.registered().len() == 0,
            m.next() == 0,
            !m.running(),
    {
        MonitorRegistry { ids: Vec::new(), next_id: 0, task_running: false }
    }

    /// Gives a new number; the second result says whether watching is to be
    /// started, which happens once.
    pub fn register(&mut self) -> (r: (usize, bool))
        requires
            old(self).wf(),
            old(self).next() < usize::MAX,
        ensures
            final(self).wf(),
            r.0 == old(self).next(),
            !old(self).registered().contains(r.0),
            final(self).registered() == old(self).registered().push(r.0),
            final(self).next() == old(self).next() + 1,
            r.1 == !old(self).running(),
            final(self).running(),
    {
        let id: usize = self.next_id;
        self.next_id = id + 1;
        self.ids.push(id);
        let start: bool = !self.task_running;
        self.task_running = true;
        proof {
            let a = old(self).registered();
            let b = self.registered();
            assert(b == a.push(id));
            assert forall|k: int| 0 <= k < b.len() implies #[trigger] b[k] < self.next() by {
                if k < a.len() {
                    assert(a[k] < old(self).next());
                }
            }
            assert forall|i: int, j: int| 0 <= i < j < b.len() implies #[trigger] b[i]
                != #[trigger] b[j] by {
                assert(a[i] < old(self).next());
                if j < a.len() {
                    assert(a[i] != a[j]);
                }
            }
        }
        (id, start)
    }

    /// Takes a number back; the others keep their order.
    pub fn unregister(&mut self, id: usize)
        requires
            old(self).wf(),
        ensures
            final(self).wf(),
            final(self).registered() == without(old(self).registered(), id),
            final(self).next() == old(self).next(),
            final(self).running() == old(self).running(),
    {
        let ghost all = self.ids@;
        let mut kept: Vec<usize> = Vec::new();
        let mut k: usize = 0;
        assert(all.take(0) =~= Seq::<usize>::empty());
        while k < self.ids.len()
            invariant
                k <= self.ids.len(),
                self.ids@ == all,
                self.next_id == old(self).next_id,
                self.task_running == old(self).task_running,
                kept@ == without(all.take(k as int), id),
            decreases self.ids.len() - k,
        {
            assert(all.take(k + 1).drop_last() =~= all.take(k as int));
            assert(all.take(k + 1).last() == all[k as int]);
            let i: usize = self.ids[k];
            if i != id {
                kept.push(i);
            }
            k += 1;
        }
        assert(all.take(all.len() as int) =~= all);
        self.ids = kept;
        proof {
            assert(old(self).registered() == all);
            assert forall|i: int, j: int| 0 <= i < j < all.len() implies #[trigger] all[i]
                != #[trigger] all[j] by {
                assert(old(self).registered()[i] != old(self).registered()[j]);
            }
            lemma_without(all, id);
            let b = self.registered();
            assert forall|k: int| 0 <= k < b.len() implies #[trigger] b[k] < self.next() by {
                assert(all.contains(without(all, id)[k]));
                let m = choose|m: int| 0 <= m < all.len() && all[m] == b[k];
                assert(old(self).registered()[m] < old(self).next());
            }
            assert forall|i: int, j: int| 0 <= i < j < b.len() implies #[trigger] b[i]
                != #[trigger] b[j] by {
                assert(without(all, id)[i] != without(all, id)[j]);
            }
        }
    }
}

/// Numbers without one of them.
pub open spec fn without(s: Seq<usize>, id: usize) -> Seq<usize>
    decreases s.len(),
{
    if s.len() == 0 {
        Seq::empty()
    } else if s.last() == id {
        without(s.drop_last(), id)
    } else {
        without(s.drop_last(), id).push(s.last())
    }
}

proof fn lemma_without(s: Seq<usize>, id: usize)
    requires
        forall|i: int, j: int| 0 <= i < j < s.len() ==> #[trigger] s[i] != #[trigger] s[j],
    ensures
        forall|k: int|
            0 <= k < without(s, id).len() ==> s.contains(#[trigger] without(s, id)[k]),
        forall|i: int, j: int|
            0 <= i < j < without(s, id).len() ==> #[trigger] without(s, id)[i]
                != #[trigger] without(s, id)[j],
        !without(s, id).contains(id),
    decreases s.len(),
{
    if s.len() > 0 {
        let t = s.drop_last();
        let w = without(t, id);
        let r = without(s, id);
        assert forall|i: int, j: int| 0 <= i < j < t.len() implies #[trigger] t[i]
            != #[trigger] t[j] by {
            assert(s[i] != s[j]);
        }
        lemma_without(t, id);
        assert forall|k: int| 0 <= k < r.len() implies s.contains(#[trigger] r[k]) by {
            if k < w.len() {
                assert(r[k] == w[k]);
                let m = choose|m: int| 0 <= m < t.len() && t[m] == w[k];
                assert(s[m] == r[k]);
            } else {
                assert(s[s.len() - 1] == r[k]);
            }
        }
        assert forall|i: int, j: int| 0 <= i < j < r.len() implies #[trigger] r[i]
            != #[trigger] r[j] by {
            if j < w.len() {
                assert(w[i] != w[j]);
            } else {
                assert(r[i] == w[i]);
                let m = choose|m: int| 0 <= m < t.len() && t[m] == w[i];
                assert(s[m] != s[s.len() - 1]);
            }
        }
    }
}

/// When to look at the interfaces: at once after an event, but not twice within
/// a second; an event in between is remembered. Times are in milliseconds.
#[derive(Clone, Copy, Debug, PartialEq, Eq, Structural)]
pub struct Debounce {
    pub pending: bool,
    pub next_emit: u64,
}

/// What an event at `now` leads to: whether it is looked at once, and what is
/// remembered then.
pub open spec fn after_event(d: Debounce, now: u64) -> (bool, Debounce) {
    if now >= d.next_emit {
        (true, after_look(now))
    } else {
        (false, Debounce { pending: true, next_emit: d.next_emit })
    }
}

/// What is remembered after a look at `now`.
pub open spec fn after_look(now: u64) -> Debounce {
    Debounce { pending: false, next_emit: (now + DEBOUNCE_MS) as u64 }
}

/// What is remembered after a look without an event.
pub open spec fn after_poll(d: Debounce) -> Debounce {
    Debounce { pending: false, next_emit: d.next_emit }
}

/// When a remembered event is looked at.
pub open spec fn due(d: Debounce) -> Option<u64> {
    if d.pending {
        Some(d.next_emit)
    } else {
        None
    }
}

impl Debounce {
    pub fn new(now: u64) -> (d: Self)
        ensures
            d == (Debounce { pending: false, next_emit: now }),
    {
        Debounce { pending: false, next_emit: now }
    }

    /// An event came; tells whether to look now.
    pub fn on_event(&mut self, now: u64) -> (look: bool)
        requires
            now + DEBOUNCE_MS <= u64::MAX,
        ensures
            look == (now >= old(self).next_emit),
            *final(self) == (if look {
                Debounce { pending: false, next_emit: (now + DEBOUNCE_MS) as u64 }
            } else {
                Debounce { pending: true, next_emit: old(self).next_emit }
            }),
            (look, *final(self)) == after_event(*old(self), now),
    {
        if now >= self.next_emit {
            self.next_emit = now + DEBOUNCE_MS;
            self.pending = false;
            true
        } else {
            self.pending = true;
            false
        }
    }

    /// It was looked without an event.
    pub fn on_poll(&mut self)
        ensures
            *final(self) == (Debounce { pending: false, ..*old(self) }),
            *final(self) == after_poll(*old(self)),
    {
        self.pending = false;
    }

    /// The time for a remembered event came; it is looked now.
    pub fn on_deadline(&mut self, now: u64)
        requires
            now + DEBOUNCE_MS <= u64::MAX,
        ensures
            *final(self) == (Debounce { pending: false, next_emit: (now + DEBOUNCE_MS) as u64 }),
            *final(self) == after_look(now),
    {
        self.pending = false;
        self.next_emit = now + DEBOUNCE_MS;
    }

    /// When to look because of a remembered event.
    pub fn deadline(&self) -> (at: Option<u64>)
        ensures
            at == (if self.pending {
                Some(self.next_emit)
            } else {
                None::<u64>
            }),
            at == due(*self),
    {
        if self.pending {
            Some(self.next_emit)
        } else {
            None
        }
    }
}

} // verus!
