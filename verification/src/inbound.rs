//! How an inbound starts: which addresses it serves and answers from, what it
//! is called, and which stack runs.
use vstd::prelude::*;
use vstd::string::*;

use crate::addr;
use crate::addr::{
    broadcast_addr_v4, has_next_addr_v4, has_next_addr_v6, network_v4, network_v6,
    prefix_len_to_mask_v4, IpAddr, Ipv4Addr, Ipv6Addr,
};
use crate::interface_finder::Interface;
use crate::options::StackKind;
use crate::render;
use crate::render::{dec_string, v4_string, v6_string};
use crate::routes;
use crate::text;
use crate::text::{parse_addr_prefix, parse_ip, same_text};

verus! {

/// The loopback address that is served where the settings name none.
pub const DEFAULT_INET4_LOOPBACK: u32 = 0x7f00_0001;

pub const DEFAULT_INET6_LOOPBACK: u128 = 1;

/// How often it is looked whether the device shows up.
pub const TUN_VISIBILITY_MAX_ATTEMPTS: u32 = 40;

pub const TUN_VISIBILITY_POLL_INTERVAL_MS: u64 = 50;

/// How often a listener is tried to be bound.
pub const BIND_ATTEMPTS: u32 = 3;

/// Why there are no addresses to serve.
#[derive(Clone, Copy, Debug, PartialEq, Eq, Structural)]
pub enum AddressError {
    /// No address follows the first IPv4 address in its prefix.
    NoNextV4(Ipv4Addr, u8),
    /// No address follows the first IPv6 address in its prefix.
    NoNextV6(Ipv6Addr, u8),
    NoAddress,
}

impl AddressError {
    pub open spec fn text(self) -> Seq<char> {
        match self {
            AddressError::NoNextV4(ip, len) =>
                "tun: need one more IPv4 address in first prefix for system stack (address "@
                    + render::v4_text(ip.bits as int) + " with prefix /"@ + render::dec_text(
                    len as int,
                ) + " has no valid next address in-prefix)"@,
            AddressError::NoNextV6(ip, len) =>
                "tun: need one more IPv6 address in first prefix for system stack (address "@
                    + render::v6_text(ip.bits as int) + " with prefix /"@ + render::dec_text(
                    len as int,
                ) + " has no valid next address in-prefix)"@,
            AddressError::NoAddress => "tun: at least one address must be configured"@,
        }
    }

    /// The error in words.
    pub fn message(&self) -> (s: String)
        ensures
            s@ == self.text(),
    {
        match self {
            AddressError::NoNextV4(ip, len) => {
                let mut s: String =
                    "tun: need one more IPv4 address in first prefix for system stack (address ".to_owned();
                s.append(v4_string(*ip).as_str());
                s.append(" with prefix /");
                s.append(dec_string(*len as u64).as_str());
                s.append(" has no valid next address in-prefix)");
                s
            },
            AddressError::NoNextV6(ip, len) => {
                let mut s: String =
                    "tun: need one more IPv6 address in first prefix for system stack (address ".to_owned();
                s.append(v6_string(*ip).as_str());
                s.append(" with prefix /");
                s.append(dec_string(*len as u64).as_str());
                s.append(" has no valid next address in-prefix)");
                s
            },
            AddressError::NoAddress => "tun: at least one address must be configured".to_owned(),
        }
    }
}

/// The prefixes of both IP versions among texts, or the first of the first
/// prefixes without a next address.
pub open spec fn scan(s: Seq<Seq<char>>) -> Result<
    (Seq<(Ipv4Addr, u8)>, Seq<(Ipv6Addr, u8)>),
    AddressError,
>
    decreases s.len(),
{
    if s.len() == 0 {
        Ok((Seq::empty(), Seq::empty()))
    } else {
        match scan(s.drop_last()) {
            Err(e) => Err(e),
            Ok((a, b)) => match text::addr_prefix(s.last()) {
                Some((IpAddr::V4(ip), len)) => if a.len() == 0 && !addr::has_next(
                    ip.bits as int,
                    len as int,
                    32,
                    u32::MAX as int,
                ) {
                    Err(AddressError::NoNextV4(ip, len))
                } else {
                    Ok((a.push((ip, len)), b))
                },
                Some((IpAddr::V6(ip), len)) => if b.len() == 0 && !addr::has_next(
                    ip.bits as int,
                    len as int,
                    128,
                    u128::MAX as int,
                ) {
                    Err(AddressError::NoNextV6(ip, len))
                } else {
                    Ok((a, b.push((ip, len))))
                },
                None => Ok((a, b)),
            },
        }
    }
}

/// The addresses of an inbound: the device's own, and the one after it, from
/// which redirected connections seem to come.
pub struct InboundAddresses {
    pub inet4_server: Option<Ipv4Addr>,
    pub inet4_client: Option<Ipv4Addr>,
    pub inet6_server: Option<Ipv6Addr>,
    pub inet6_client: Option<Ipv6Addr>,
    pub inet4_prefixes: Vec<(Ipv4Addr, u8)>,
    pub inet6_prefixes: Vec<(Ipv6Addr, u8)>,
}

/// The addresses that the settings give, or why they give none.
pub open spec fn resolved(s: Seq<Seq<char>>) -> Result<
    (Seq<(Ipv4Addr, u8)>, Seq<(Ipv6Addr, u8)>),
    AddressError,
> {
    match scan(s) {
        Ok((a, b)) => if a.len() == 0 && b.len() == 0 {
            Err(AddressError::NoAddress)
        } else {
            Ok((a, b))
        },
        Err(e) => Err(e),
    }
}

impl InboundAddresses {
    /// The addresses go with these prefixes: the first of each version is the
    /// server's, the one after it the client's.
    pub open spec fn go_with(&self, a: Seq<(Ipv4Addr, u8)>, b: Seq<(Ipv6Addr, u8)>) -> bool {
        &&& self.inet4_prefixes@ == a
        &&& self.inet6_prefixes@ == b
        &&& if a.len() > 0 {
            &&& self.inet4_server == Some(a[0].0)
            &&& self.inet4_client matches Some(c) && c.bits == a[0].0.bits + 1
        } else {
            self.inet4_server is None && self.inet4_client is None
        }
        &&& if b.len() > 0 {
            &&& self.inet6_server == Some(b[0].0)
            &&& self.inet6_client matches Some(c) && c.bits == b[0].0.bits + 1
        } else {
            self.inet6_server is None && self.inet6_client is None
        }
    }
}

/// Finds the addresses of an inbound; a text that is no prefix is passed over.
pub fn resolve_addresses(address: &[String]) -> (r: Result<InboundAddresses, AddressError>)
    ensures
        match resolved(text::str_views(address@)) {
            Ok((a, b)) => r is Ok && r->Ok_0.go_with(a, b),
            Err(e) => r is Err && r->Err_0 == e,
        },
{
    let ghost texts = text::str_views(address@);
    let mut out = InboundAddresses {
        inet4_server: None,
        inet4_client: None,
        inet6_server: None,
        inet6_client: None,
        inet4_prefixes: Vec::new(),
        inet6_prefixes: Vec::new(),
    };
    let mut k: usize = 0;
    assert(texts.take(0) =~= Seq::<Seq<char>>::empty());
    while k < address.len()
        invariant
            k <= address.len(),
            texts == text::str_views(address@),
            scan(texts.take(k as int)) is Ok,
            out.go_with(
                scan(texts.take(k as int))->Ok_0.0,
                scan(texts.take(k as int))->Ok_0.1,
            ),
        decreases address.len() - k,
    {
        assert(texts.take(k + 1).drop_last() =~= texts.take(k as int));
        assert(texts.take(k + 1).last() == address@[k as int]@);
        match parse_addr_prefix(address[k].as_str()) {
            Some((IpAddr::V4(ip), len)) => {
                if out.inet4_server.is_none() {
                    if !has_next_addr_v4(ip, len) {
                        proof {
                            lemma_scan_fails(texts, k + 1, texts.len() as int);
                        }
                        return Err(AddressError::NoNextV4(ip, len));
                    }
                    out.inet4_server = Some(ip);
                    out.inet4_client = Some(Ipv4Addr { bits: ip.bits + 1 });
                }
                out.inet4_prefixes.push((ip, len));
            },
            Some((IpAddr::V6(ip), len)) => {
                if out.inet6_server.is_none() {
                    if !has_next_addr_v6(ip, len) {
                        proof {
                            lemma_scan_fails(texts, k + 1, texts.len() as int);
                        }
                        return Err(AddressError::NoNextV6(ip, len));
                    }
                    out.inet6_server = Some(ip);
                    out.inet6_client = Some(Ipv6Addr { bits: ip.bits + 1 });
                }
                out.inet6_prefixes.push((ip, len));
            },
            None => {},
        }
        k += 1;
    }
    assert(texts.take(texts.len() as int) =~= texts);
    if out.inet4_server.is_none() && out.inet6_server.is_none() {
        return Err(AddressError::NoAddress);
    }
    Ok(out)
}

proof fn lemma_scan_fails(s: Seq<Seq<char>>, k: int, n: int)
    requires
        0 <= k <= n <= s.len(),
        scan(s.take(k)) is Err,
    ensures
        scan(s.take(n)) == scan(s.take(k)),
        n == s.len() ==> scan(s) == scan(s.take(k)),
    decreases n,
{
    if n > k {
        lemma_scan_fails(s, k, n - 1);
        assert(s.take(n).drop_last() =~= s.take(n - 1));
    }
    if n == s.len() {
        assert(s.take(n) =~= s);
    }
}

/// Where addresses are found, they are all the prefixes of the settings, and
/// the client's address lies in the first prefix of its version.
pub proof fn law_client_address_in_prefix(s: Seq<Seq<char>>)
    requires
        resolved(s) is Ok,
    ensures
        resolved(s)->Ok_0.0 == routes::prefixes_v4(s),
        resolved(s)->Ok_0.1 == routes::prefixes_v6(s),
        resolved(s)->Ok_0.0.len() > 0 ==> {
            let (ip, len) = resolved(s)->Ok_0.0[0];
            ip.bits < u32::MAX && addr::same_block(
                ip.bits as int,
                ip.bits + 1,
                len as int,
                32,
            )
        },
        resolved(s)->Ok_0.1.len() > 0 ==> {
            let (ip, len) = resolved(s)->Ok_0.1[0];
            ip.bits < u128::MAX && addr::same_block(
                ip.bits as int,
                ip.bits + 1,
                len as int,
                128,
            )
        },
{
    lemma_scan(s);
}

proof fn lemma_scan(s: Seq<Seq<char>>)
    requires
        scan(s) is Ok,
    ensures
        scan(s)->Ok_0.0 == routes::prefixes_v4(s),
        scan(s)->Ok_0.1 == routes::prefixes_v6(s),
        scan(s)->Ok_0.0.len() > 0 ==> addr::has_next(
            scan(s)->Ok_0.0[0].0.bits as int,
            scan(s)->Ok_0.0[0].1 as int,
            32,
            u32::MAX as int,
        ),
        scan(s)->Ok_0.1.len() > 0 ==> addr::has_next(
            scan(s)->Ok_0.1[0].0.bits as int,
            scan(s)->Ok_0.1[0].1 as int,
            128,
            u128::MAX as int,
        ),
    decreases s.len(),
{
    if s.len() > 0 {
        lemma_scan(s.drop_last());
    }
}

/// The addresses of this version among texts, each once and in order.
pub open spec fn distinct_v4(s: Seq<Seq<char>>) -> Seq<Ipv4Addr>
    decreases s.len(),
{
    if s.len() == 0 {
        Seq::empty()
    } else {
        let before = distinct_v4(s.drop_last());
        match text::ip_of(text::trim(s.last())) {
            Some(IpAddr::V4(ip)) => if before.contains(ip) {
                before
            } else {
                before.push(ip)
            },
            _ => before,
        }
    }
}

pub open spec fn distinct_v6(s: Seq<Seq<char>>) -> Seq<Ipv6Addr>
    decreases s.len(),
{
    if s.len() == 0 {
        Seq::empty()
    } else {
        let before = distinct_v6(s.drop_last());
        match text::ip_of(text::trim(s.last())) {
            Some(IpAddr::V6(ip)) => if before.contains(ip) {
                before
            } else {
                before.push(ip)
            },
            _ => before,
        }
    }
}

/// The loopback addresses of the settings, or the usual one.
pub open spec fn loopbacks_v4(s: Seq<Seq<char>>) -> Seq<Ipv4Addr> {
    if distinct_v4(s).len() > 0 {
        distinct_v4(s)
    } else {
        seq![Ipv4Addr { bits: DEFAULT_INET4_LOOPBACK }]
    }
}

pub open spec fn loopbacks_v6(s: Seq<Seq<char>>) -> Seq<Ipv6Addr> {
    if distinct_v6(s).len() > 0 {
        distinct_v6(s)
    } else {
        seq![Ipv6Addr { bits: DEFAULT_INET6_LOOPBACK }]
    }
}

fn holds_v4(v: &Vec<Ipv4Addr>, ip: Ipv4Addr) -> (r: bool)
    ensures
        r == v@.contains(ip),
{
    let mut k: usize = 0;
    while k < v.len()
        invariant
            k <= v.len(),
            forall|j: int| 0 <= j < k ==> v@[j] != ip,
        decreases v.len() - k,
    {
        if v[k].bits == ip.bits {
            assert(v@[k as int] == ip);
            return true;
        }
        k += 1;
    }
    false
}

fn holds_v6(v: &Vec<Ipv6Addr>, ip: Ipv6Addr) -> (r: bool)
    ensures
        r == v@.contains(ip),
{
    let mut k: usize = 0;
    while k < v.len()
        invariant
            k <= v.len(),
            forall|j: int| 0 <= j < k ==> v@[j] != ip,
        decreases v.len() - k,
    {
        if v[k].bits == ip.bits {
            assert(v@[k as int] == ip);
            return true;
        }
        k += 1;
    }
    false
}

/// The loopback addresses that are served.
pub fn loopback_addresses(s: &[String]) -> (r: (Vec<Ipv4Addr>, Vec<Ipv6Addr>))
    ensures
        r.0@ == loopbacks_v4(text::str_views(s@)),
        r.1@ == loopbacks_v6(text::str_views(s@)),
{
    let ghost texts = text::str_views(s@);
    let mut a: Vec<Ipv4Addr> = Vec::new();
    let mut b: Vec<Ipv6Addr> = Vec::new();
    let mut k: usize = 0;
    assert(texts.take(0) =~= Seq::<Seq<char>>::empty());
    while k < s.len()
        invariant
            k <= s.len(),
            texts == text::str_views(s@),
            a@ == distinct_v4(texts.take(k as int)),
            b@ == distinct_v6(texts.take(k as int)),
        decreases s.len() - k,
    {
        assert(texts.take(k + 1).drop_last() =~= texts.take(k as int));
        assert(texts.take(k + 1).last() == s@[k as int]@);
        match parse_ip(s[k].as_str()) {
            Some(IpAddr::V4(ip)) => {
                if !holds_v4(&a, ip) {
                    a.push(ip);
                }
            },
            Some(IpAddr::V6(ip)) => {
                if !holds_v6(&b, ip) {
                    b.push(ip);
                }
            },
            None => {},
        }
        k += 1;
    }
    assert(texts.take(texts.len() as int) =~= texts);
    if a.len() == 0 {
        a.push(Ipv4Addr { bits: DEFAULT_INET4_LOOPBACK });
        assert(a@ =~= loopbacks_v4(texts));
    }
    if b.len() == 0 {
        b.push(Ipv6Addr { bits: DEFAULT_INET6_LOOPBACK });
        assert(b@ =~= loopbacks_v6(texts));
    }
    (a, b)
}

/// The broadcast address of the first IPv4 prefix.
pub fn first_broadcast(prefixes: &Vec<(Ipv4Addr, u8)>) -> (r: Option<Ipv4Addr>)
    ensures
        match r {
            Some(a) => prefixes@.len() > 0 && a.bits == addr::block_end(
                prefixes@[0].0.bits as int,
                prefixes@[0].1 as int,
                32,
            ),
            None => prefixes@.len() == 0,
        },
{
    if prefixes.len() > 0 {
        let (net, len) = prefixes[0];
        Some(broadcast_addr_v4(net, len))
    } else {
        None
    }
}

/// The address and the mask that the device is made with.
pub fn device_address(prefixes: &Vec<(Ipv4Addr, u8)>) -> (r: Option<(Ipv4Addr, Ipv4Addr)>)
    ensures
        match r {
            Some((a, mask)) => prefixes@.len() > 0 && a == prefixes@[0].0 && mask.bits
                == 0x1_0000_0000 - addr::block_size(prefixes@[0].1 as int, 32),
            None => prefixes@.len() == 0,
        },
{
    if prefixes.len() > 0 {
        let (ip, len) = prefixes[0];
        proof {
            addr::lemma_block_v4(len as int);
        }
        Some((ip, prefix_len_to_mask_v4(len)))
    } else {
        None
    }
}

/// What the interface is called: what the device reports, or the name of the
/// settings, or `tun0`.
pub fn interface_name(reported: Option<&str>, configured: &Option<String>) -> (name: String)
    ensures
        name@ == (match (reported, configured) {
            (Some(r), _) if r@.len() > 0 => r@,
            (_, Some(c)) => c@,
            (_, None) => "tun0"@,
        }),
{
    if let Some(r) = reported {
        if r.unicode_len() > 0 {
            return r.to_owned();
        }
    }
    match configured {
        Some(c) => c.as_str().to_owned(),
        None => "tun0".to_owned(),
    }
}

/// The stack that runs: a name that is none of the two others stands for the
/// system's.
pub open spec fn stack_named(s: Seq<char>) -> StackKind {
    if s == "gvisor"@ {
        StackKind::Gvisor
    } else if s == "mixed"@ {
        StackKind::Mixed
    } else {
        StackKind::System
    }
}

/// The stack that runs.
pub fn choose_stack(s: &str) -> (kind: StackKind)
    ensures
        kind == stack_named(s@),
{
    if same_text(s, "gvisor") {
        StackKind::Gvisor
    } else if same_text(s, "mixed") {
        StackKind::Mixed
    } else {
        StackKind::System
    }
}

/// Whether binding is tried again after attempt `attempt`, counted from zero,
/// failed.
pub fn bind_again(attempt: u32) -> (again: bool)
    ensures
        again == (attempt + 1 < BIND_ATTEMPTS),
{
    attempt < BIND_ATTEMPTS - 1
}

/// An identifier made from the first `n` bytes of a name: each byte is mixed
/// into the next of sixteen places, and the whole is multiplied.
pub open spec fn guid_after(seed: Seq<u8>, n: int) -> u128
    decreases n,
{
    if n <= 0 {
        0xdeadbeef_cafebabe_12345678_9abcdef0
    } else {
        let mixed = guid_after(seed, n - 1) ^ ((seed[n - 1] as u128) << ((n - 1) % 16 * 8));
        (mixed * 0x6c62272e07bb0142 % (u128::MAX + 1)) as u128
    }
}

/// The identifier of a device with this name: the same name gives the same.
pub fn device_guid(seed: &[u8]) -> (guid: u128)
    ensures
        guid == guid_after(seed@, seed@.len() as int),
{
    let mut guid: u128 = 0xdeadbeef_cafebabe_12345678_9abcdef0;
    let mut i: usize = 0;
    while i < seed.len()
        invariant
            i <= seed.len(),
            guid == guid_after(seed@, i as int),
        decreases seed.len() - i,
    {
        let shift: usize = i % 16 * 8;
        guid = guid ^ ((seed[i] as u128) << shift);
        guid = guid.wrapping_mul(0x6c62272e07bb0142u128);
        i += 1;
    }
    guid
}

/// The smaller of a prefix length and the number of bits.
pub open spec fn capped(len: int, bits: int) -> int {
    if len < bits {
        len
    } else {
        bits
    }
}

/// The networks of the addresses of this version.
pub open spec fn networks_v4(a: Seq<(IpAddr, u8)>) -> Seq<(Ipv4Addr, u8)>
    decreases a.len(),
{
    if a.len() == 0 {
        Seq::empty()
    } else {
        let before = networks_v4(a.drop_last());
        let (ip, len) = a.last();
        match ip {
            IpAddr::V4(v4) => before.push(
                (
                    Ipv4Addr { bits: addr::block_start(v4.bits as int, len as int, 32) as u32 },
                    capped(len as int, 32) as u8,
                ),
            ),
            IpAddr::V6(_) => before,
        }
    }
}

pub open spec fn networks_v6(a: Seq<(IpAddr, u8)>) -> Seq<(Ipv6Addr, u8)>
    decreases a.len(),
{
    if a.len() == 0 {
        Seq::empty()
    } else {
        let before = networks_v6(a.drop_last());
        let (ip, len) = a.last();
        match ip {
            IpAddr::V6(v6) => before.push(
                (
                    Ipv6Addr {
                        bits: addr::block_start(v6.bits as int, len as int, 128) as u128,
                    },
                    capped(len as int, 128) as u8,
                ),
            ),
            IpAddr::V4(_) => before,
        }
    }
}

/// The networks of all interfaces but one.
pub open spec fn local_v4(s: Seq<Interface>, exclude_if: Option<Seq<char>>) -> Seq<
    (Ipv4Addr, u8),
>
    decreases s.len(),
{
    if s.len() == 0 {
        Seq::empty()
    } else if exclude_if == Some(s.last().name@) {
        local_v4(s.drop_last(), exclude_if)
    } else {
        local_v4(s.drop_last(), exclude_if) + networks_v4(s.last().addrs@)
    }
}

pub open spec fn local_v6(s: Seq<Interface>, exclude_if: Option<Seq<char>>) -> Seq<
    (Ipv6Addr, u8),
>
    decreases s.len(),
{
    if s.len() == 0 {
        Seq::empty()
    } else if exclude_if == Some(s.last().name@) {
        local_v6(s.drop_last(), exclude_if)
    } else {
        local_v6(s.drop_last(), exclude_if) + networks_v6(s.last().addrs@)
    }
}

pub open spec fn name_view(name: Option<&str>) -> Option<Seq<char>> {
    match name {
        Some(s) => Some(s@),
        None => None,
    }
}

fn is_excluded(name: &String, exclude_if: Option<&str>) -> (r: bool)
    ensures
        r == (name_view(exclude_if) == Some(name@)),
{
    match exclude_if {
        Some(s) => same_text(s, name.as_str()),
        None => false,
    }
}

fn push_networks_v4(a: &Vec<(IpAddr, u8)>, out: &mut Vec<(Ipv4Addr, u8)>)
    ensures
        final(out)@ == old(out)@ + networks_v4(a@),
{
    let ghost before = out@;
    let mut k: usize = 0;
    assert(a@.take(0) =~= Seq::<(IpAddr, u8)>::empty());
    assert(before + Seq::<(Ipv4Addr, u8)>::empty() =~= before);
    while k < a.len()
        invariant
            k <= a.len(),
            out@ == before + networks_v4(a@.take(k as int)),
        decreases a.len() - k,
    {
        assert(a@.take(k + 1).drop_last() =~= a@.take(k as int));
        assert(a@.take(k + 1).last() == a@[k as int]);
        let (ip, len) = a[k];
        if let IpAddr::V4(v4) = ip {
            let net: Ipv4Addr = network_v4(v4, len);
            let len: u8 = if len < 32 {
                len
            } else {
                32
            };
            out.push((net, len));
            assert(out@ =~= before + networks_v4(a@.take(k + 1)));
        }
        k += 1;
    }
    assert(a@.take(a@.len() as int) =~= a@);
}

fn push_networks_v6(a: &Vec<(IpAddr, u8)>, out: &mut Vec<(Ipv6Addr, u8)>)
    ensures
        final(out)@ == old(out)@ + networks_v6(a@),
{
    let ghost before = out@;
    let mut k: usize = 0;
    assert(a@.take(0) =~= Seq::<(IpAddr, u8)>::empty());
    assert(before + Seq::<(Ipv6Addr, u8)>::empty() =~= before);
    while k < a.len()
        invariant
            k <= a.len(),
            out@ == before + networks_v6(a@.take(k as int)),
        decreases a.len() - k,
    {
        assert(a@.take(k + 1).drop_last() =~= a@.take(k as int));
        assert(a@.take(k + 1).last() == a@[k as int]);
        let (ip, len) = a[k];
        if let IpAddr::V6(v6) = ip {
            let net: Ipv6Addr = network_v6(v6, len);
            let len: u8 = if len < 128 {
                len
            } else {
                128
            };
            out.push((net, len));
            assert(out@ =~= before + networks_v6(a@.take(k + 1)));
        }
        k += 1;
    }
    assert(a@.take(a@.len() as int) =~= a@);
}

/// The IPv4 networks of this host's interfaces but one, whose traffic is left
/// to the host.
pub fn collect_local_subnets_v4(interfaces: &[Interface], exclude_if: Option<&str>) -> (v: Vec<
    (Ipv4Addr, u8),
>)
    ensures
        v@ == local_v4(interfaces@, name_view(exclude_if)),
{
    let mut v: Vec<(Ipv4Addr, u8)> = Vec::new();
    let mut k: usize = 0;
    assert(interfaces@.take(0) =~= Seq::<Interface>::empty());
    while k < interfaces.len()
        invariant
            k <= interfaces.len(),
            v@ == local_v4(interfaces@.take(k as int), name_view(exclude_if)),
        decreases interfaces.len() - k,
    {
        assert(interfaces@.take(k + 1).drop_last() =~= interfaces@.take(k as int));
        assert(interfaces@.take(k + 1).last() == interfaces@[k as int]);
        if !is_excluded(&interfaces[k].name, exclude_if) {
            push_networks_v4(&interfaces[k].addrs, &mut v);
        }
        k += 1;
    }
    assert(interfaces@.take(interfaces@.len() as int) =~= interfaces@);
    v
}

/// The IPv6 networks of this host's interfaces but one.
pub fn collect_local_subnets_v6(interfaces: &[Interface], exclude_if: Option<&str>) -> (v: Vec<
    (Ipv6Addr, u8),
>)
    ensures
        v@ == local_v6(interfaces@, name_view(exclude_if)),
{
    let mut v: Vec<(Ipv6Addr, u8)> = Vec::new();
    let mut k: usize = 0;
    assert(interfaces@.take(0) =~= Seq::<Interface>::empty());
    while k < interfaces.len()
        invariant
            k <= interfaces.len(),
            v@ == local_v6(interfaces@.take(k as int), name_view(exclude_if)),
        decreases interfaces.len() - k,
    {
        assert(interfaces@.take(k + 1).drop_last() =~= interfaces@.take(k as int));
        assert(interfaces@.take(k + 1).last() == interfaces@[k as int]);
        if !is_excluded(&interfaces[k].name, exclude_if) {
            push_networks_v6(&interfaces[k].addrs, &mut v);
        }
        k += 1;
    }
    assert(interfaces@.take(interfaces@.len() as int) =~= interfaces@);
    v
}

} // verus!
