//! The interfaces of this host: which of them an address lies behind, and which
//! the default route leads to.
use vstd::prelude::*;

use crate::addr;
use crate::addr::{addr_in_prefix_v4, addr_in_prefix_v6, IpAddr, Ipv4Addr, Ipv6Addr};
use crate::text;
use crate::text::{chars_of, parse_hex, same_text, split_on, split_words, string_of};

verus! {

/// An interface with its addresses and their prefix lengths.
#[derive(Clone, Debug)]
pub struct Interface {
    pub name: String,
    pub addrs: Vec<(IpAddr, u8)>,
}

/// An interface by what it holds.
pub struct InterfaceView {
    pub name: Seq<char>,
    pub addrs: Seq<(IpAddr, u8)>,
}

impl Interface {
    pub open spec fn view(&self) -> InterfaceView {
        InterfaceView { name: self.name@, addrs: self.addrs@ }
    }
}

pub open spec fn interface_views(v: Seq<Interface>) -> Seq<InterfaceView> {
    Seq::new(v.len(), |k: int| v[k]@)
}

/// An address of an interface, with its netmask where it has one.
#[derive(Clone, Copy, Debug, PartialEq, Eq, Structural)]
pub enum InterfaceAddr {
    V4(Ipv4Addr, Option<u32>),
    V6(Ipv6Addr, Option<u128>),
    /// One that is no IP address.
    Other,
}

/// One entry of the host's list of interface addresses.
pub struct IfEntry {
    pub name: String,
    pub up: bool,
    pub loopback: bool,
    pub addr: InterfaceAddr,
}

/// The number of ones in a mask.
pub open spec fn ones(mask: int) -> int
    decreases mask,
{
    if mask <= 0 {
        0
    } else {
        ones(mask / 2) + mask % 2
    }
}

proof fn lemma_ones_bound(mask: int, bits: nat)
    requires
        0 <= mask < vstd::arithmetic::power2::pow2(bits),
    ensures
        0 <= ones(mask) <= bits,
    decreases bits,
{
    if mask > 0 {
        if bits == 0 {
            vstd::arithmetic::power2::lemma2_to64();
        } else {
            vstd::arithmetic::power2::lemma_pow2_unfold(bits);
            lemma_ones_bound(mask / 2, (bits - 1) as nat);
        }
    }
}

fn count_ones(mask: u128) -> (n: u8)
    ensures
        n == ones(mask as int),
{
    proof {
        addr::lemma_pow2_127();
        lemma_ones_bound(mask as int, 128);
    }
    let mut rest: u128 = mask;
    let mut n: u8 = 0;
    while rest > 0
        invariant
            n + ones(rest as int) == ones(mask as int),
            0 <= ones(mask as int) <= 128,
            ones(rest as int) >= 0,
        decreases rest,
    {
        let bit: u8 = (rest % 2) as u8;
        proof {
            lemma_ones_nonneg(rest as int / 2);
        }
        rest = rest / 2;
        n = n + bit;
    }
    n
}

proof fn lemma_ones_nonneg(mask: int)
    requires
        mask >= 0,
    ensures
        ones(mask) >= 0,
    decreases mask,
{
    if mask > 0 {
        lemma_ones_nonneg(mask / 2);
    }
}

/// The address and prefix length of an entry that counts: its interface is up
/// and is no loopback, and it holds an IP address. Without a netmask the prefix
/// is the address alone.
pub open spec fn counted(e: IfEntry) -> Option<(IpAddr, u8)> {
    if !e.up || e.loopback {
        None
    } else {
        match e.addr {
            InterfaceAddr::V4(ip, mask) => Some(
                (
                    IpAddr::V4(ip),
                    match mask {
                        Some(m) => ones(m as int) as u8,
                        None => 32,
                    },
                ),
            ),
            InterfaceAddr::V6(ip, mask) => Some(
                (
                    IpAddr::V6(ip),
                    match mask {
                        Some(m) => ones(m as int) as u8,
                        None => 128,
                    },
                ),
            ),
            InterfaceAddr::Other => None,
        }
    }
}

fn entry_address(e: &IfEntry) -> (r: Option<(IpAddr, u8)>)
    ensures
        r == counted(*e),
{
    if !e.up || e.loopback {
        return None;
    }
    match e.addr {
        InterfaceAddr::V4(ip, mask) => {
            let len: u8 = match mask {
                Some(m) => count_ones(m as u128),
                None => 32,
            };
            Some((IpAddr::V4(ip), len))
        },
        InterfaceAddr::V6(ip, mask) => {
            let len: u8 = match mask {
                Some(m) => count_ones(m),
                None => 128,
            };
            Some((IpAddr::V6(ip), len))
        },
        InterfaceAddr::Other => None,
    }
}

/// Where an interface of this name first stands, from `i` on.
pub open spec fn named_at(v: Seq<InterfaceView>, name: Seq<char>, i: int) -> Option<int>
    decreases v.len() - i,
{
    if i < 0 || i >= v.len() {
        None
    } else if v[i].name == name {
        Some(i)
    } else {
        named_at(v, name, i + 1)
    }
}

/// An address added to the interface of this name, which is added where it is
/// missing.
pub open spec fn with_address(v: Seq<InterfaceView>, name: Seq<char>, a: (IpAddr, u8)) -> Seq<
    InterfaceView,
> {
    match named_at(v, name, 0) {
        Some(i) => v.update(i, InterfaceView { name: v[i].name, addrs: v[i].addrs.push(a) }),
        None => v.push(InterfaceView { name, addrs: seq![a] }),
    }
}

/// The interfaces of the entries that count, each with its addresses in order.
pub open spec fn grouped(e: Seq<IfEntry>) -> Seq<InterfaceView>
    decreases e.len(),
{
    if e.len() == 0 {
        Seq::empty()
    } else {
        let before = grouped(e.drop_last());
        match counted(e.last()) {
            Some(a) => with_address(before, e.last().name@, a),
            None => before,
        }
    }
}

fn find_named(v: &Vec<Interface>, name: &str) -> (r: Option<usize>)
    ensures
        match r {
            Some(i) => named_at(interface_views(v@), name@, 0) == Some(i as int) && i < v.len(),
            None => named_at(interface_views(v@), name@, 0) is None,
        },
{
    let mut i: usize = 0;
    while i < v.len()
        invariant
            i <= v.len(),
            named_at(interface_views(v@), name@, 0) == named_at(
                interface_views(v@),
                name@,
                i as int,
            ),
        decreases v.len() - i,
    {
        assert(interface_views(v@)[i as int] == v@[i as int]@);
        if same_text(v[i].name.as_str(), name) {
            return Some(i);
        }
        i += 1;
    }
    None
}

/// Groups the entries of the host's list by interface.
pub fn list_interfaces(entries: &[IfEntry]) -> (v: Vec<Interface>)
    ensures
        interface_views(v@) == grouped(entries@),
{
    let mut v: Vec<Interface> = Vec::new();
    let mut k: usize = 0;
    assert(entries@.take(0) =~= Seq::<IfEntry>::empty());
    assert(interface_views(v@) =~= Seq::<InterfaceView>::empty());
    while k < entries.len()
        invariant
            k <= entries.len(),
            interface_views(v@) == grouped(entries@.take(k as int)),
        decreases entries.len() - k,
    {
        assert(entries@.take(k + 1).drop_last() =~= entries@.take(k as int));
        assert(entries@.take(k + 1).last() == entries@[k as int]);
        let ghost before = interface_views(v@);
        if let Some(a) = entry_address(&entries[k]) {
            match find_named(&v, entries[k].name.as_str()) {
                Some(i) => {
                    v[i].addrs.push(a);
                    assert(interface_views(v@) =~= before.update(
                        i as int,
                        InterfaceView {
                            name: before[i as int].name,
                            addrs: before[i as int].addrs.push(a),
                        },
                    ));
                },
                None => {
                    let mut addrs: Vec<(IpAddr, u8)> = Vec::new();
                    addrs.push(a);
                    let name: String = entries[k].name.as_str().to_owned();
                    v.push(Interface { name, addrs });
                    assert(addrs@ =~= seq![a]);
                    assert(interface_views(v@) =~= before.push(
                        InterfaceView { name: entries@[k as int].name@, addrs: seq![a] },
                    ));
                },
            }
        }
        k += 1;
    }
    assert(entries@.take(entries@.len() as int) =~= entries@);
    v
}

/// The address lies in the network of `base`; addresses of different versions
/// share none.
pub open spec fn in_subnet(base: IpAddr, prefix_len: int, target: IpAddr) -> bool {
    match (base, target) {
        (IpAddr::V4(b), IpAddr::V4(t)) => addr::in_prefix_v4(b, t, prefix_len),
        (IpAddr::V6(b), IpAddr::V6(t)) => addr::in_prefix_v6(b, t, prefix_len),
        _ => false,
    }
}

/// Whether an address lies in the network of another.
pub fn ip_in_subnet(base: IpAddr, prefix_len: u8, target: IpAddr) -> (r: bool)
    ensures
        r == in_subnet(base, prefix_len as int, target),
{
    match (base, target) {
        (IpAddr::V4(b), IpAddr::V4(t)) => addr_in_prefix_v4(b, t, prefix_len),
        (IpAddr::V6(b), IpAddr::V6(t)) => addr_in_prefix_v6(b, t, prefix_len),
        _ => false,
    }
}

/// The address lies in one of the interface's networks.
pub open spec fn behind(i: InterfaceView, target: IpAddr) -> bool {
    exists|k: int|
        0 <= k < i.addrs.len() && in_subnet((#[trigger] i.addrs[k]).0, i.addrs[k].1 as int, target)
}

/// The address is one of the interface's own.
pub open spec fn owns(i: InterfaceView, target: IpAddr) -> bool {
    exists|k: int| 0 <= k < i.addrs.len() && (#[trigger] i.addrs[k]).0 == target
}

/// Whether an address lies in one of the interface's networks.
pub fn addr_in_interface(iface: &Interface, target: IpAddr) -> (r: bool)
    ensures
        r == behind(iface@, target),
{
    let mut k: usize = 0;
    while k < iface.addrs.len()
        invariant
            k <= iface.addrs.len(),
            forall|j: int|
                0 <= j < k ==> !in_subnet(
                    (#[trigger] iface.addrs@[j]).0,
                    iface.addrs@[j].1 as int,
                    target,
                ),
        decreases iface.addrs.len() - k,
    {
        let (ip, len) = iface.addrs[k];
        if ip_in_subnet(ip, len, target) {
            assert(in_subnet(iface@.addrs[k as int].0, iface@.addrs[k as int].1 as int, target));
            return true;
        }
        k += 1;
    }
    false
}

fn is_own_address(iface: &Interface, target: IpAddr) -> (r: bool)
    ensures
        r == owns(iface@, target),
{
    let mut k: usize = 0;
    while k < iface.addrs.len()
        invariant
            k <= iface.addrs.len(),
            forall|j: int| 0 <= j < k ==> (#[trigger] iface.addrs@[j]).0 != target,
        decreases iface.addrs.len() - k,
    {
        if iface.addrs[k].0 == target {
            assert(iface@.addrs[k as int].0 == target);
            return true;
        }
        k += 1;
    }
    false
}

/// An address is reached through an interface in one of whose networks it
/// lies, unless it is the interface's own.
pub open spec fn reaches(i: InterfaceView, target: IpAddr) -> bool {
    !owns(i, target) && behind(i, target)
}

/// Finds the first interface through which an address is reached.
pub fn find_interface_by_addr(target: IpAddr, interfaces: &[Interface]) -> (r: Option<&Interface>)
    ensures
        match r {
            Some(i) => exists|k: int|
                0 <= k < interfaces@.len() && *i == #[trigger] interfaces@[k] && reaches(
                    interfaces@[k]@,
                    target,
                ) && forall|j: int| 0 <= j < k ==> !reaches((#[trigger] interfaces@[j])@, target),
            None => forall|k: int|
                0 <= k < interfaces@.len() ==> !reaches((#[trigger] interfaces@[k])@, target),
        },
{
    let mut k: usize = 0;
    while k < interfaces.len()
        invariant
            k <= interfaces.len(),
            forall|j: int| 0 <= j < k ==> !reaches((#[trigger] interfaces@[j])@, target),
        decreases interfaces.len() - k,
    {
        let i: &Interface = &interfaces[k];
        if !is_own_address(i, target) && addr_in_interface(i, target) {
            assert(reaches(interfaces@[k as int]@, target));
            return Some(i);
        }
        k += 1;
    }
    None
}

/// What a line of the routing table says.
pub enum RouteLine {
    /// It has too few fields.
    Short,
    /// Its destination or its mask is no number.
    Broken,
    /// It is the default route, through the interface of this name.
    Default(Seq<char>),
    /// It is another route.
    Other,
}

/// What a line of the routing table says: fields parted by white space, of
/// which the second is the destination and the eighth the mask, both in
/// hexadecimal.
pub open spec fn route_line(line: Seq<char>) -> RouteLine {
    let f = text::words_of(line);
    if f.len() < 8 {
        RouteLine::Short
    } else {
        match (
            text::hex_number(f[1], u32::MAX as int),
            text::hex_number(f[7], u32::MAX as int),
        ) {
            (Some(dest), Some(mask)) => if dest == 0 && mask == 0 {
                RouteLine::Default(f[0])
            } else {
                RouteLine::Other
            },
            _ => RouteLine::Broken,
        }
    }
}

/// The interface of the first default route from line `i` on; nothing is found
/// behind a broken line.
pub open spec fn default_interface(lines: Seq<Seq<char>>, i: int) -> Option<Seq<char>>
    decreases lines.len() - i,
{
    if i < 0 || i >= lines.len() {
        None
    } else {
        match route_line(lines[i]) {
            RouteLine::Default(name) => Some(name),
            RouteLine::Broken => None,
            _ => default_interface(lines, i + 1),
        }
    }
}

/// What one line says: whether to go on, and the interface where it is the
/// default route.
fn read_route_line(line: &Vec<char>) -> (r: (bool, Option<String>))
    ensures
        match route_line(line@) {
            RouteLine::Default(name) => !r.0 && r.1 is Some && r.1->0@ == name,
            RouteLine::Broken => !r.0 && r.1 is None,
            _ => r.0 && r.1 is None,
        },
{
    let f: Vec<Vec<char>> = split_words(line.as_slice());
    let ghost words = text::words_of(line@);
    assert(words.len() == f@.len());
    if f.len() < 8 {
        return (true, None);
    }
    assert(words[0] == f@[0]@ && words[1] == f@[1]@ && words[7] == f@[7]@);
    match (parse_hex(f[1].as_slice()), parse_hex(f[7].as_slice())) {
        (Some(dest), Some(mask)) => {
            if dest == 0 && mask == 0 {
                (false, Some(string_of(f[0].as_slice())))
            } else {
                (true, None)
            }
        },
        _ => (false, None),
    }
}

/// Finds the interface of the default route in the text of the routing table,
/// whose first line is a heading.
pub fn default_route_interface(content: &str) -> (r: Option<String>)
    ensures
        match r {
            Some(name) => default_interface(text::split(content@, '\n'), 1) == Some(name@),
            None => default_interface(text::split(content@, '\n'), 1) is None,
        },
{
    let c: Vec<char> = chars_of(content);
    let lines: Vec<Vec<char>> = split_on(c.as_slice(), '\n');
    let ghost all = text::split(content@, '\n');
    let mut i: usize = 1;
    while i < lines.len()
        invariant
            1 <= i,
            all == text::split(content@, '\n'),
            text::char_views(lines@) == all,
            all.len() == lines@.len(),
            default_interface(all, 1) == default_interface(all, i as int),
        decreases lines.len() - i,
    {
        assert(all[i as int] == lines@[i as int]@);
        let (go_on, name) = read_route_line(&lines[i]);
        if !go_on {
            return name;
        }
        i += 1;
    }
    None
}

/// The interface that a socket to an address is bound to: the one through
/// which the address is reached, or else that of the default route.
pub fn choose_interface(
    target: IpAddr,
    interfaces: &[Interface],
    default: Option<String>,
) -> (name: Option<String>)
    ensures
        (forall|k: int|
            0 <= k < interfaces@.len() ==> !reaches((#[trigger] interfaces@[k])@, target))
            ==> name == default,
        forall|k: int|
            0 <= k < interfaces@.len() && reaches((#[trigger] interfaces@[k])@, target) && (
            forall|j: int| 0 <= j < k ==> !reaches((#[trigger] interfaces@[j])@, target)) ==> name
                is Some && name->0@ == interfaces@[k].name@,
{
    match find_interface_by_addr(target, interfaces) {
        Some(i) => {
            let ghost k = choose|k: int|
                0 <= k < interfaces@.len() && *i == #[trigger] interfaces@[k] && reaches(
                    interfaces@[k]@,
                    target,
                ) && forall|j: int| 0 <= j < k ==> !reaches((#[trigger] interfaces@[j])@, target);
            proof {
                assert forall|m: int|
                    0 <= m < interfaces@.len() && reaches((#[trigger] interfaces@[m])@, target) && (
                    forall|j: int|
                        0 <= j < m ==> !reaches((#[trigger] interfaces@[j])@, target)) implies m
                    == k by {
                    if m < k {
                        assert(!reaches(interfaces@[m]@, target));
                    }
                    if k < m {
                        assert(!reaches(interfaces@[k]@, target));
                    }
                }
            }
            Some(i.name.as_str().to_owned())
        },
        None => default,
    }
}

/// The physical interfaces that traffic of the inbound itself is bound to; an
/// index of zero stands for none.
#[derive(Clone, Copy, Debug, PartialEq, Eq, Structural)]
pub struct PhysicalInterfaces {
    index_v4: u32,
    index_v6: u32,
}

impl PhysicalInterfaces {
    pub closed spec fn v4(&self) -> u32 {
        self.index_v4
    }

    pub closed spec fn v6(&self) -> u32 {
        self.index_v6
    }

    /// None is known.
    pub fn new() -> (p: Self)
        ensures
            p.v4() == 0,
            p.v6() == 0,
    {
        PhysicalInterfaces { index_v4: 0, index_v6: 0 }
    }

    pub fn set_physical_if_index_v4(&mut self, idx: u32)
        ensures
            final(self).v4() == idx,
            final(self).v6() == old(self).v6(),
    {
        self.index_v4 = idx;
    }

    pub fn set_physical_if_index_v6(&mut self, idx: u32)
        ensures
            final(self).v6() == idx,
            final(self).v4() == old(self).v4(),
    {
        self.index_v6 = idx;
    }

    pub fn physical_if_index_v4(&self) -> (r: Option<u32>)
        ensures
            r == (if self.v4() == 0 {
                None::<u32>
            } else {
                Some(self.v4())
            }),
    {
        if self.index_v4 == 0 {
            None
        } else {
            Some(self.index_v4)
        }
    }

    pub fn physical_if_index_v6(&self) -> (r: Option<u32>)
        ensures
            r == (if self.v6() == 0 {
                None::<u32>
            } else {
                Some(self.v6())
            }),
    {
        if self.index_v6 == 0 {
            None
        } else {
            Some(self.index_v6)
        }
    }

    /// The interface that a socket to this address is bound to.
    pub fn bound_index(&self, target: IpAddr) -> (r: Option<u32>)
        ensures
            r == (match target {
                IpAddr::V4(_) => if self.v4() == 0 {
                    None::<u32>
                } else {
                    Some(self.v4())
                },
                IpAddr::V6(_) => if self.v6() == 0 {
                    None::<u32>
                } else {
                    Some(self.v6())
                },
            }),
    {
        match target {
            IpAddr::V4(_) => self.physical_if_index_v4(),
            IpAddr::V6(_) => self.physical_if_index_v6(),
        }
    }
}

} // verus!
