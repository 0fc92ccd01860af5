//! The settings of an inbound as values, and the way from texts to values and
//! back.
use vstd::prelude::*;
use vstd::string::*;

use crate::addr::IpAddr;
use crate::config::TunInboundConfig;
use crate::render;
use crate::render::{dec_string, ip_string, prefix_string};
use crate::text;
use crate::text::{
    chars_of, clone_strings, find_char, parse_addr_prefix, parse_ip_chars, parse_number, same_text,
};

verus! {

/// An address with a prefix length.
pub type Prefix = (IpAddr, u8);

/// User ids from the first to the second.
pub type UidRange = (u32, u32);

/// A length of time.
#[derive(Clone, Copy, Debug, PartialEq, Eq, Structural)]
pub struct Duration {
    pub secs: u64,
    pub nanos: u32,
}

impl Duration {
    pub fn from_secs(secs: u64) -> (d: Self)
        ensures
            d == (Duration { secs, nanos: 0 }),
    {
        Duration { secs, nanos: 0 }
    }

    /// The whole seconds.
    pub fn as_secs(&self) -> (secs: u64)
        ensures
            secs == self.secs,
    {
        self.secs
    }
}

/// Which network stack runs.
#[derive(Clone, Copy, Debug, PartialEq, Eq, Structural)]
pub enum StackKind {
    /// The kernel's.
    System,
    /// One in user space.
    Gvisor,
    /// The kernel's for TCP, the one in user space for UDP.
    Mixed,
}

impl Default for StackKind {
    fn default() -> (kind: Self)
        ensures
            kind == StackKind::System,
    {
        StackKind::System
    }
}

impl StackKind {
    pub open spec fn text(self) -> Seq<char> {
        match self {
            StackKind::System => "system"@,
            StackKind::Gvisor => "gvisor"@,
            StackKind::Mixed => "mixed"@,
        }
    }

    pub fn as_str(&self) -> (s: &'static str)
        ensures
            s@ == self.text(),
    {
        match self {
            StackKind::System => "system",
            StackKind::Gvisor => "gvisor",
            StackKind::Mixed => "mixed",
        }
    }

    /// Reads the name of a stack; no name stands for the system's.
    pub fn parse(s: &str) -> (r: Option<Self>)
        ensures
            r == stack_of(s@),
    {
        if same_text(s, "") || same_text(s, "system") {
            Some(StackKind::System)
        } else if same_text(s, "gvisor") {
            Some(StackKind::Gvisor)
        } else if same_text(s, "mixed") {
            Some(StackKind::Mixed)
        } else {
            None
        }
    }
}

/// The stack of this name.
pub open spec fn stack_of(s: Seq<char>) -> Option<StackKind> {
    if s == ""@ || s == "system"@ {
        Some(StackKind::System)
    } else if s == "gvisor"@ {
        Some(StackKind::Gvisor)
    } else if s == "mixed"@ {
        Some(StackKind::Mixed)
    } else {
        None
    }
}

/// The name of a stack reads back as the stack.
pub proof fn law_stack_name_read_back(kind: StackKind)
    ensures
        stack_of(kind.text()) == Some(kind),
{
    reveal_strlit("");
    reveal_strlit("system");
    reveal_strlit("gvisor");
    reveal_strlit("mixed");
    assert(""@.len() == 0);
    assert("gvisor"@.len() == 6);
    assert("mixed"@.len() == 5);
    assert("gvisor"@[0] == 'g');
    assert("system"@[0] == 's');
    assert("mixed"@[0] == 'm');
}

/// The settings of an inbound as values.
#[derive(Clone, Debug)]
pub struct Options {
    pub name: Option<String>,
    pub inet4_address: Vec<Prefix>,
    pub inet6_address: Vec<Prefix>,
    pub mtu: u32,
    /// Whether segmentation is left to the device; the device is asked
    /// whatever this says.
    pub gso: bool,
    pub auto_route: bool,
    pub inet4_gateway: Option<IpAddr>,
    pub inet6_gateway: Option<IpAddr>,
    pub dns_servers: Vec<IpAddr>,
    pub iproute2_table_index: u32,
    pub iproute2_rule_index: u32,
    pub inet4_loopback_address: Vec<IpAddr>,
    pub inet6_loopback_address: Vec<IpAddr>,
    pub strict_route: bool,
    pub inet4_route_address: Vec<Prefix>,
    pub inet6_route_address: Vec<Prefix>,
    pub inet4_route_exclude_address: Vec<Prefix>,
    pub inet6_route_exclude_address: Vec<Prefix>,
    pub include_interface: Vec<String>,
    pub exclude_interface: Vec<String>,
    pub include_uid: Vec<UidRange>,
    pub exclude_uid: Vec<UidRange>,
    pub include_android_user: Vec<i32>,
    pub include_package: Vec<String>,
    pub exclude_package: Vec<String>,
    pub tcp_mss: Option<u16>,
    pub udp_timeout: Duration,
    pub stack: StackKind,
    pub auto_redirect: bool,
    pub auto_redirect_input_mark: u32,
    pub auto_redirect_output_mark: u32,
}

impl Default for Options {
    fn default() -> (o: Self)
        ensures
            o.name is None,
            o.inet4_address@.len() == 0,
            o.inet6_address@.len() == 0,
            o.mtu == 9000,
            !o.gso,
            !o.auto_route,
            o.inet4_gateway is None,
            o.inet6_gateway is None,
            o.dns_servers@.len() == 0,
            o.iproute2_table_index == 2022,
            o.iproute2_rule_index == 9000,
            o.inet4_loopback_address@.len() == 0,
            o.inet6_loopback_address@.len() == 0,
            !o.strict_route,
            o.inet4_route_address@.len() == 0,
            o.inet6_route_address@.len() == 0,
            o.inet4_route_exclude_address@.len() == 0,
            o.inet6_route_exclude_address@.len() == 0,
            o.include_interface@.len() == 0,
            o.exclude_interface@.len() == 0,
            o.include_uid@.len() == 0,
            o.exclude_uid@.len() == 0,
            o.include_android_user@.len() == 0,
            o.include_package@.len() == 0,
            o.exclude_package@.len() == 0,
            o.tcp_mss is None,
            o.udp_timeout == (Duration { secs: 300, nanos: 0 }),
            o.stack == StackKind::System,
            !o.auto_redirect,
            o.auto_redirect_input_mark == 0x2022,
            o.auto_redirect_output_mark == 0x3022,
    {
        Options {
            name: None,
            inet4_address: Vec::new(),
            inet6_address: Vec::new(),
            mtu: 9000,
            gso: false,
            auto_route: false,
            inet4_gateway: None,
            inet6_gateway: None,
            dns_servers: Vec::new(),
            iproute2_table_index: 2022,
            iproute2_rule_index: 9000,
            inet4_loopback_address: Vec::new(),
            inet6_loopback_address: Vec::new(),
            strict_route: false,
            inet4_route_address: Vec::new(),
            inet6_route_address: Vec::new(),
            inet4_route_exclude_address: Vec::new(),
            inet6_route_exclude_address: Vec::new(),
            include_interface: Vec::new(),
            exclude_interface: Vec::new(),
            include_uid: Vec::new(),
            exclude_uid: Vec::new(),
            include_android_user: Vec::new(),
            include_package: Vec::new(),
            exclude_package: Vec::new(),
            tcp_mss: None,
            udp_timeout: Duration::from_secs(300),
            stack: StackKind::System,
            auto_redirect: false,
            auto_redirect_input_mark: 0x2022,
            auto_redirect_output_mark: 0x3022,
        }
    }
}

/// Reads a prefix: an address and a length within what its IP version allows.
pub fn parse_prefix(s: &str) -> (r: Option<Prefix>)
    ensures
        r == text::addr_prefix(s@),
{
    parse_addr_prefix(s)
}

/// User ids in text: two numbers with a colon between them, or one number for
/// itself alone.
pub open spec fn loose_uid_range(s: Seq<char>) -> Option<UidRange> {
    match text::first_at(s, ':', 0) {
        Some(i) => match (
            text::number(s.subrange(0, i), u32::MAX as int),
            text::number(s.subrange(i + 1, s.len() as int), u32::MAX as int),
        ) {
            (Some(a), Some(b)) => Some((a as u32, b as u32)),
            _ => None,
        },
        None => match text::number(s, u32::MAX as int) {
            Some(v) => Some((v as u32, v as u32)),
            None => None,
        },
    }
}

/// Reads user ids.
pub fn parse_uid_range(s: &str) -> (r: Option<UidRange>)
    ensures
        r == loose_uid_range(s@),
{
    let c: Vec<char> = chars_of(s);
    let chars: &[char] = c.as_slice();
    match find_char(chars, ':') {
        Some(i) => match (
            parse_number(&chars[0..i], u32::MAX),
            parse_number(&chars[i + 1..chars.len()], u32::MAX),
        ) {
            (Some(a), Some(b)) => Some((a, b)),
            _ => None,
        },
        None => match parse_number(chars, u32::MAX) {
            Some(v) => Some((v, v)),
            None => None,
        },
    }
}

/// The prefixes of one IP version among texts.
pub open spec fn prefixes_in(s: Seq<Seq<char>>, v4: bool) -> Seq<Prefix>
    decreases s.len(),
{
    if s.len() == 0 {
        Seq::empty()
    } else {
        let before = prefixes_in(s.drop_last(), v4);
        match text::addr_prefix(s.last()) {
            Some(p) => if (p.0 is V4) == v4 {
                before.push(p)
            } else {
                before
            },
            None => before,
        }
    }
}

/// Reads the prefixes of one IP version.
fn prefixes_of(s: &Vec<String>, v4: bool) -> (v: Vec<Prefix>)
    ensures
        v@ == prefixes_in(text::str_views(s@), v4),
{
    let ghost texts = text::str_views(s@);
    let mut v: Vec<Prefix> = Vec::new();
    let mut k: usize = 0;
    assert(texts.take(0) =~= Seq::<Seq<char>>::empty());
    while k < s.len()
        invariant
            k <= s.len(),
            texts == text::str_views(s@),
            v@ == prefixes_in(texts.take(k as int), v4),
        decreases s.len() - k,
    {
        assert(texts.take(k + 1).drop_last() =~= texts.take(k as int));
        assert(texts.take(k + 1).last() == s@[k as int]@);
        if let Some(p) = parse_prefix(s[k].as_str()) {
            if p.0.is_ipv4() == v4 {
                v.push(p);
            }
        }
        k += 1;
    }
    assert(texts.take(texts.len() as int) =~= texts);
    v
}

/// The addresses of one IP version among texts.
pub open spec fn addresses(s: Seq<Seq<char>>, v4: bool) -> Seq<IpAddr>
    decreases s.len(),
{
    if s.len() == 0 {
        Seq::empty()
    } else {
        let before = addresses(s.drop_last(), v4);
        match text::ip_of(s.last()) {
            Some(ip) => if (ip is V4) == v4 {
                before.push(ip)
            } else {
                before
            },
            None => before,
        }
    }
}

/// Reads the addresses of one IP version.
fn addresses_of(s: &Vec<String>, v4: bool) -> (v: Vec<IpAddr>)
    ensures
        v@ == addresses(text::str_views(s@), v4),
{
    let ghost texts = text::str_views(s@);
    let mut v: Vec<IpAddr> = Vec::new();
    let mut k: usize = 0;
    assert(texts.take(0) =~= Seq::<Seq<char>>::empty());
    while k < s.len()
        invariant
            k <= s.len(),
            texts == text::str_views(s@),
            v@ == addresses(texts.take(k as int), v4),
        decreases s.len() - k,
    {
        assert(texts.take(k + 1).drop_last() =~= texts.take(k as int));
        assert(texts.take(k + 1).last() == s@[k as int]@);
        let c: Vec<char> = chars_of(s[k].as_str());
        if let Some(ip) = parse_ip_chars(c.as_slice()) {
            if ip.is_ipv4() == v4 {
                v.push(ip);
            }
        }
        k += 1;
    }
    assert(texts.take(texts.len() as int) =~= texts);
    v
}

/// Each id as a range of its own.
pub open spec fn single_uids(u: Seq<u32>) -> Seq<UidRange> {
    Seq::new(u.len(), |k: int| (u[k], u[k]))
}

/// The ranges of user ids among texts.
pub open spec fn uid_ranges(s: Seq<Seq<char>>) -> Seq<UidRange>
    decreases s.len(),
{
    if s.len() == 0 {
        Seq::empty()
    } else {
        let before = uid_ranges(s.drop_last());
        match loose_uid_range(s.last()) {
            Some(r) => before.push(r),
            None => before,
        }
    }
}

/// The ids of a list and of texts, as ranges.
fn uids_of(u: &Vec<u32>, s: &Vec<String>) -> (v: Vec<UidRange>)
    ensures
        v@ == single_uids(u@) + uid_ranges(text::str_views(s@)),
{
    let ghost texts = text::str_views(s@);
    let mut v: Vec<UidRange> = Vec::new();
    let mut k: usize = 0;
    while k < u.len()
        invariant
            k <= u.len(),
            v@ == single_uids(u@).take(k as int),
        decreases u.len() - k,
    {
        v.push((u[k], u[k]));
        assert(single_uids(u@).take(k + 1) =~= single_uids(u@).take(k as int).push(
            single_uids(u@)[k as int],
        ));
        k += 1;
    }
    assert(single_uids(u@).take(u@.len() as int) =~= single_uids(u@));
    let mut i: usize = 0;
    assert(texts.take(0) =~= Seq::<Seq<char>>::empty());
    assert(v@ =~= single_uids(u@) + uid_ranges(texts.take(0)));
    while i < s.len()
        invariant
            i <= s.len(),
            texts == text::str_views(s@),
            v@ == single_uids(u@) + uid_ranges(texts.take(i as int)),
        decreases s.len() - i,
    {
        assert(texts.take(i + 1).drop_last() =~= texts.take(i as int));
        assert(texts.take(i + 1).last() == s@[i as int]@);
        if let Some(r) = parse_uid_range(s[i].as_str()) {
            v.push(r);
            assert(v@ =~= single_uids(u@) + uid_ranges(texts.take(i + 1)));
        }
        i += 1;
    }
    assert(texts.take(texts.len() as int) =~= texts);
    v
}

fn copy_ids(v: &Vec<i32>) -> (c: Vec<i32>)
    ensures
        c@ == v@,
{
    let mut c: Vec<i32> = Vec::new();
    let mut k: usize = 0;
    while k < v.len()
        invariant
            k <= v.len(),
            c@ == v@.take(k as int),
        decreases v.len() - k,
    {
        c.push(v[k]);
        assert(v@.take(k + 1) =~= v@.take(k as int).push(v@[k as int]));
        k += 1;
    }
    assert(v@.take(v@.len() as int) =~= v@);
    c
}

fn copy_name(name: &Option<String>) -> (c: Option<String>)
    ensures
        opt_view(c) == opt_view(*name),
{
    match name {
        Some(s) => Some(s.as_str().to_owned()),
        None => None,
    }
}

pub open spec fn opt_view(s: Option<String>) -> Option<Seq<char>> {
    match s {
        Some(s) => Some(s@),
        None => None,
    }
}

/// The options say what the settings say. What is no prefix, address or range
/// in the settings is passed over; a timeout of zero stands for the default,
/// and an unknown stack for the system's.
pub open spec fn options_match(cfg: &TunInboundConfig, o: &Options) -> bool {
    let address = text::str_views(cfg.address@);
    let loopback = text::str_views(cfg.loopback_address@);
    let route = text::str_views(cfg.route_address@);
    let exclude_route = text::str_views(cfg.route_exclude_address@);
    &&& opt_view(o.name) == opt_view(cfg.interface_name)
    &&& o.inet4_address@ == prefixes_in(address, true)
    &&& o.inet6_address@ == prefixes_in(address, false)
    &&& o.mtu == cfg.mtu
    &&& o.gso
    &&& o.auto_route == cfg.auto_route
    &&& o.inet4_gateway is None
    &&& o.inet6_gateway is None
    &&& o.dns_servers@.len() == 0
    &&& o.iproute2_table_index == cfg.iproute2_table_index
    &&& o.iproute2_rule_index == cfg.iproute2_rule_index
    &&& o.inet4_loopback_address@ == addresses(loopback, true)
    &&& o.inet6_loopback_address@ == addresses(loopback, false)
    &&& o.strict_route == cfg.strict_route
    &&& o.inet4_route_address@ == prefixes_in(route, true)
    &&& o.inet6_route_address@ == prefixes_in(route, false)
    &&& o.inet4_route_exclude_address@ == prefixes_in(exclude_route, true)
    &&& o.inet6_route_exclude_address@ == prefixes_in(exclude_route, false)
    &&& text::str_views(o.include_interface@) == text::str_views(cfg.include_interface@)
    &&& text::str_views(o.exclude_interface@) == text::str_views(cfg.exclude_interface@)
    &&& o.include_uid@ == single_uids(cfg.include_uid@) + uid_ranges(
        text::str_views(cfg.include_uid_range@),
    )
    &&& o.exclude_uid@ == single_uids(cfg.exclude_uid@) + uid_ranges(
        text::str_views(cfg.exclude_uid_range@),
    )
    &&& o.include_android_user@ == cfg.include_android_user@
    &&& text::str_views(o.include_package@) == text::str_views(cfg.include_package@)
    &&& text::str_views(o.exclude_package@) == text::str_views(cfg.exclude_package@)
    &&& o.tcp_mss == cfg.tcp_mss
    &&& o.udp_timeout == (Duration {
        secs: if cfg.udp_timeout == 0 {
            300
        } else {
            cfg.udp_timeout
        },
        nanos: 0,
    })
    &&& o.stack == (match stack_of(cfg.stack@) {
        Some(kind) => kind,
        None => StackKind::System,
    })
    &&& o.auto_redirect == cfg.auto_redirect
    &&& o.auto_redirect_input_mark == cfg.auto_redirect_input_mark
    &&& o.auto_redirect_output_mark == cfg.auto_redirect_output_mark
}

impl TunInboundConfig {
    /// The settings as values.
    pub fn to_options(&self) -> (o: Options)
        ensures
            options_match(self, &o),
    {
        Options {
            name: copy_name(&self.interface_name),
            inet4_address: prefixes_of(&self.address, true),
            inet6_address: prefixes_of(&self.address, false),
            mtu: self.mtu,
            gso: true,
            auto_route: self.auto_route,
            inet4_gateway: None,
            inet6_gateway: None,
            dns_servers: Vec::new(),
            iproute2_table_index: self.iproute2_table_index,
            iproute2_rule_index: self.iproute2_rule_index,
            inet4_loopback_address: addresses_of(&self.loopback_address, true),
            inet6_loopback_address: addresses_of(&self.loopback_address, false),
            strict_route: self.strict_route,
            inet4_route_address: prefixes_of(&self.route_address, true),
            inet6_route_address: prefixes_of(&self.route_address, false),
            inet4_route_exclude_address: prefixes_of(&self.route_exclude_address, true),
            inet6_route_exclude_address: prefixes_of(&self.route_exclude_address, false),
            include_interface: clone_strings(&self.include_interface),
            exclude_interface: clone_strings(&self.exclude_interface),
            include_uid: uids_of(&self.include_uid, &self.include_uid_range),
            exclude_uid: uids_of(&self.exclude_uid, &self.exclude_uid_range),
            include_android_user: copy_ids(&self.include_android_user),
            include_package: clone_strings(&self.include_package),
            exclude_package: clone_strings(&self.exclude_package),
            tcp_mss: self.tcp_mss,
            udp_timeout: Duration::from_secs(
                if self.udp_timeout == 0 {
                    300
                } else {
                    self.udp_timeout
                },
            ),
            stack: match StackKind::parse(self.stack.as_str()) {
                Some(kind) => kind,
                None => StackKind::System,
            },
            auto_redirect: self.auto_redirect,
            auto_redirect_input_mark: self.auto_redirect_input_mark,
            auto_redirect_output_mark: self.auto_redirect_output_mark,
        }
    }
}

/// Writes a prefix.
pub fn prefix_to_string(p: &Prefix) -> (s: String)
    ensures
        s@ == render::prefix_text(p.0, p.1 as int),
{
    prefix_string(p.0, p.1)
}

/// Prefixes as texts.
pub open spec fn prefix_texts(v: Seq<Prefix>) -> Seq<Seq<char>> {
    Seq::new(v.len(), |k: int| render::prefix_text(v[k].0, v[k].1 as int))
}

/// Addresses as texts.
pub open spec fn address_texts(v: Seq<IpAddr>) -> Seq<Seq<char>> {
    Seq::new(v.len(), |k: int| render::ip_text(v[k]))
}

/// A range of user ids as text.
pub open spec fn uid_text(r: UidRange) -> Seq<char> {
    render::dec_text(r.0 as int) + ":"@ + render::dec_text(r.1 as int)
}

/// Ranges of user ids as texts.
pub open spec fn uid_texts(v: Seq<UidRange>) -> Seq<Seq<char>> {
    Seq::new(v.len(), |k: int| uid_text(v[k]))
}

fn push_prefixes(v: &Vec<Prefix>, out: &mut Vec<String>)
    ensures
        text::str_views(final(out)@) == text::str_views(old(out)@) + prefix_texts(v@),
{
    let ghost before = text::str_views(out@);
    let ghost all = prefix_texts(v@);
    let mut k: usize = 0;
    assert(before + all.take(0) =~= before);
    while k < v.len()
        invariant
            k <= v.len(),
            all == prefix_texts(v@),
            text::str_views(out@) == before + all.take(k as int),
        decreases v.len() - k,
    {
        let ghost mid = text::str_views(out@);
        let s: String = prefix_to_string(&v[k]);
        out.push(s);
        assert(text::str_views(out@) =~= mid.push(all[k as int]));
        assert(all.take(k + 1) =~= all.take(k as int).push(all[k as int]));
        assert(text::str_views(out@) =~= before + all.take(k + 1));
        k += 1;
    }
    assert(all.take(all.len() as int) =~= all);
}

fn push_addresses(v: &Vec<IpAddr>, out: &mut Vec<String>)
    ensures
        text::str_views(final(out)@) == text::str_views(old(out)@) + address_texts(v@),
{
    let ghost before = text::str_views(out@);
    let ghost all = address_texts(v@);
    let mut k: usize = 0;
    assert(before + all.take(0) =~= before);
    while k < v.len()
        invariant
            k <= v.len(),
            all == address_texts(v@),
            text::str_views(out@) == before + all.take(k as int),
        decreases v.len() - k,
    {
        let ghost mid = text::str_views(out@);
        let s: String = ip_string(v[k]);
        out.push(s);
        assert(text::str_views(out@) =~= mid.push(all[k as int]));
        assert(all.take(k + 1) =~= all.take(k as int).push(all[k as int]));
        assert(text::str_views(out@) =~= before + all.take(k + 1));
        k += 1;
    }
    assert(all.take(all.len() as int) =~= all);
}

fn prefix_strings(a: &Vec<Prefix>, b: &Vec<Prefix>) -> (v: Vec<String>)
    ensures
        text::str_views(v@) == prefix_texts(a@) + prefix_texts(b@),
{
    let mut v: Vec<String> = Vec::new();
    assert(text::str_views(v@) =~= Seq::<Seq<char>>::empty());
    push_prefixes(a, &mut v);
    push_prefixes(b, &mut v);
    assert(text::str_views(v@) =~= prefix_texts(a@) + prefix_texts(b@));
    v
}

fn uid_strings(r: &Vec<UidRange>) -> (v: Vec<String>)
    ensures
        text::str_views(v@) == uid_texts(r@),
{
    let mut v: Vec<String> = Vec::new();
    let ghost all = uid_texts(r@);
    let mut k: usize = 0;
    assert(text::str_views(v@) =~= all.take(0));
    while k < r.len()
        invariant
            k <= r.len(),
            all == uid_texts(r@),
            text::str_views(v@) == all.take(k as int),
        decreases r.len() - k,
    {
        let ghost mid = text::str_views(v@);
        let mut s: String = dec_string(r[k].0 as u64);
        s.append(":");
        s.append(dec_string(r[k].1 as u64).as_str());
        v.push(s);
        assert(text::str_views(v@) =~= mid.push(all[k as int]));
        assert(all.take(k + 1) =~= all.take(k as int).push(all[k as int]));
        k += 1;
    }
    assert(all.take(all.len() as int) =~= all);
    v
}

/// The settings say what the options say.
pub open spec fn config_matches(o: &Options, tag: Seq<char>, cfg: &TunInboundConfig) -> bool {
    &&& cfg.tag@ == tag
    &&& opt_view(cfg.interface_name) == opt_view(o.name)
    &&& cfg.mtu == o.mtu
    &&& text::str_views(cfg.address@) == prefix_texts(o.inet4_address@) + prefix_texts(
        o.inet6_address@,
    )
    &&& cfg.auto_route == o.auto_route
    &&& cfg.iproute2_table_index == o.iproute2_table_index
    &&& cfg.iproute2_rule_index == o.iproute2_rule_index
    &&& cfg.so_mark is None
    &&& cfg.strict_route == o.strict_route
    &&& cfg.stack@ == o.stack.text()
    &&& text::str_views(cfg.include_interface@) == text::str_views(o.include_interface@)
    &&& text::str_views(cfg.exclude_interface@) == text::str_views(o.exclude_interface@)
    &&& cfg.include_uid@.len() == 0
    &&& cfg.exclude_uid@.len() == 0
    &&& text::str_views(cfg.include_uid_range@) == uid_texts(o.include_uid@)
    &&& text::str_views(cfg.exclude_uid_range@) == uid_texts(o.exclude_uid@)
    &&& text::str_views(cfg.route_address@) == prefix_texts(o.inet4_route_address@)
        + prefix_texts(o.inet6_route_address@)
    &&& text::str_views(cfg.route_exclude_address@) == prefix_texts(
        o.inet4_route_exclude_address@,
    ) + prefix_texts(o.inet6_route_exclude_address@)
    &&& text::str_views(cfg.loopback_address@) == address_texts(o.inet4_loopback_address@)
        + address_texts(o.inet6_loopback_address@)
    &&& cfg.udp_timeout == o.udp_timeout.secs
    &&& cfg.tcp_mss == o.tcp_mss
    &&& cfg.include_android_user@ == o.include_android_user@
    &&& text::str_views(cfg.include_package@) == text::str_views(o.include_package@)
    &&& text::str_views(cfg.exclude_package@) == text::str_views(o.exclude_package@)
    &&& !cfg.override_android_vpn
    &&& cfg.auto_redirect == o.auto_redirect
    &&& cfg.auto_redirect_input_mark == o.auto_redirect_input_mark
    &&& cfg.auto_redirect_output_mark == o.auto_redirect_output_mark
}

impl Options {
    /// The options as texts.
    pub fn to_config(&self, tag: String) -> (cfg: TunInboundConfig)
        ensures
            config_matches(self, tag@, &cfg),
    {
        let mut loopback_address: Vec<String> = Vec::new();
        assert(text::str_views(loopback_address@) =~= Seq::<Seq<char>>::empty());
        push_addresses(&self.inet4_loopback_address, &mut loopback_address);
        push_addresses(&self.inet6_loopback_address, &mut loopback_address);
        assert(text::str_views(loopback_address@) =~= address_texts(self.inet4_loopback_address@)
            + address_texts(self.inet6_loopback_address@));
        TunInboundConfig {
            tag,
            interface_name: copy_name(&self.name),
            mtu: self.mtu,
            address: prefix_strings(&self.inet4_address, &self.inet6_address),
            auto_route: self.auto_route,
            iproute2_table_index: self.iproute2_table_index,
            iproute2_rule_index: self.iproute2_rule_index,
            so_mark: None,
            strict_route: self.strict_route,
            stack: self.stack.as_str().to_owned(),
            include_interface: clone_strings(&self.include_interface),
            exclude_interface: clone_strings(&self.exclude_interface),
            include_uid: Vec::new(),
            exclude_uid: Vec::new(),
            include_uid_range: uid_strings(&self.include_uid),
            exclude_uid_range: uid_strings(&self.exclude_uid),
            route_address: prefix_strings(&self.inet4_route_address, &self.inet6_route_address),
            route_exclude_address: prefix_strings(
                &self.inet4_route_exclude_address,
                &self.inet6_route_exclude_address,
            ),
            loopback_address,
            udp_timeout: self.udp_timeout.as_secs(),
            tcp_mss: self.tcp_mss,
            include_android_user: copy_ids(&self.include_android_user),
            include_package: clone_strings(&self.include_package),
            exclude_package: clone_strings(&self.exclude_package),
            override_android_vpn: false,
            auto_redirect: self.auto_redirect,
            auto_redirect_input_mark: self.auto_redirect_input_mark,
            auto_redirect_output_mark: self.auto_redirect_output_mark,
        }
    }
}

proof fn lemma_loose_uid(r: UidRange)
    ensures
        loose_uid_range(uid_text(r)) == Some(r),
{
    reveal_strlit(":");
    let a = render::dec_text(r.0 as int);
    let b = render::dec_text(r.1 as int);
    let s = uid_text(r);
    render::law_number_read_back(r.0 as int, u32::MAX as int);
    render::law_number_read_back(r.1 as int, u32::MAX as int);
    assert(s =~= a.push(':') + b);
    render::lemma_number_lacks(r.0 as int, ':');
    render::lemma_split_at(a, ':', b);
    assert(s.subrange(0, a.len() as int) =~= a);
    assert(s.subrange(a.len() as int + 1, s.len() as int) =~= b);
}

/// The prefix is of an IP version, and its length within what that allows.
pub open spec fn prefix_of_version(p: Prefix, v4: bool) -> bool {
    &&& (p.0 is V4) == v4
    &&& p.1 <= (if v4 {
        32int
    } else {
        128int
    })
}

/// The prefixes are all of one IP version, their lengths within what it allows.
pub open spec fn of_version(v: Seq<Prefix>, v4: bool) -> bool {
    forall|k: int| 0 <= k < v.len() ==> prefix_of_version(#[trigger] v[k], v4)
}

/// The addresses are all of one IP version.
pub open spec fn addresses_of_version(v: Seq<IpAddr>, v4: bool) -> bool {
    forall|k: int| 0 <= k < v.len() ==> ((#[trigger] v[k]) is V4) == v4
}

proof fn lemma_prefix_step(s: Seq<Seq<char>>, t: Seq<char>, p: Prefix, v4: bool)
    requires
        text::addr_prefix(t) == Some(p),
    ensures
        prefixes_in(s.push(t), v4) == (if (p.0 is V4) == v4 {
            prefixes_in(s, v4).push(p)
        } else {
            prefixes_in(s, v4)
        }),
{
    assert(s.push(t).drop_last() =~= s);
    assert(s.push(t).last() == t);
}

proof fn lemma_prefix_texts_push(v: Seq<Prefix>, p: Prefix)
    ensures
        prefix_texts(v.push(p)) == prefix_texts(v).push(render::prefix_text(p.0, p.1 as int)),
{
    let a = prefix_texts(v.push(p));
    let b = prefix_texts(v).push(render::prefix_text(p.0, p.1 as int));
    assert forall|k: int| 0 <= k < a.len() implies a[k] == b[k] by {
        if k < v.len() {
            assert(v.push(p)[k] == v[k]);
        }
    }
    assert(a =~= b);
}

proof fn lemma_prefixes_more(s: Seq<Seq<char>>, v: Seq<Prefix>, v4: bool)
    requires
        of_version(v, v4),
    ensures
        prefixes_in(s + prefix_texts(v), v4) == prefixes_in(s, v4) + v,
        prefixes_in(s + prefix_texts(v), !v4) == prefixes_in(s, !v4),
    decreases v.len(),
{
    if v.len() > 0 {
        let c = v.drop_last();
        let p = v.last();
        let t = render::prefix_text(p.0, p.1 as int);
        assert(of_version(c, v4)) by {
            assert forall|k: int| 0 <= k < c.len() implies prefix_of_version(
                #[trigger] c[k],
                v4,
            ) by {
                assert(c[k] == v[k]);
            }
        }
        lemma_prefixes_more(s, c, v4);
        assert(v[v.len() - 1] == p);
        render::law_prefix_read_back(p.0, p.1);
        assert(c.push(p) =~= v);
        lemma_prefix_texts_push(c, p);
        assert(s + prefix_texts(c).push(t) =~= (s + prefix_texts(c)).push(t));
        lemma_prefix_step(s + prefix_texts(c), t, p, v4);
        lemma_prefix_step(s + prefix_texts(c), t, p, !v4);
        assert((prefixes_in(s, v4) + c).push(p) =~= prefixes_in(s, v4) + v);
    } else {
        assert(s + prefix_texts(v) =~= s);
        assert(prefixes_in(s, v4) + v =~= prefixes_in(s, v4));
    }
}

proof fn lemma_prefixes_back(a: Seq<Prefix>, b: Seq<Prefix>)
    requires
        of_version(a, true),
        of_version(b, false),
    ensures
        prefixes_in(prefix_texts(a) + prefix_texts(b), true) == a,
        prefixes_in(prefix_texts(a) + prefix_texts(b), false) == b,
{
    let none = Seq::<Seq<char>>::empty();
    lemma_prefixes_more(none, a, true);
    assert(none + prefix_texts(a) =~= prefix_texts(a));
    lemma_prefixes_more(prefix_texts(a), b, false);
    assert(Seq::<Prefix>::empty() + a =~= a);
    assert(Seq::<Prefix>::empty() + b =~= b);
}

proof fn lemma_addresses_back(a: Seq<IpAddr>, b: Seq<IpAddr>)
    requires
        addresses_of_version(a, true),
        addresses_of_version(b, false),
    ensures
        addresses(address_texts(a) + address_texts(b), true) == a,
        addresses(address_texts(a) + address_texts(b), false) == b,
    decreases a.len() + b.len(),
{
    let s = address_texts(a) + address_texts(b);
    if b.len() > 0 {
        let c = b.drop_last();
        assert(addresses_of_version(c, false)) by {
            assert forall|k: int| 0 <= k < c.len() implies ((#[trigger] c[k]) is V4) == false by {
                assert(c[k] == b[k]);
            }
        }
        lemma_addresses_back(a, c);
        render::law_address_read_back(b.last());
        assert(b[b.len() - 1] is V6);
        assert(s.drop_last() =~= address_texts(a) + address_texts(c));
        assert(s.last() == render::ip_text(b.last()));
        assert(c.push(b.last()) =~= b);
    } else if a.len() > 0 {
        let c = a.drop_last();
        assert(addresses_of_version(c, true)) by {
            assert forall|k: int| 0 <= k < c.len() implies ((#[trigger] c[k]) is V4) == true by {
                assert(c[k] == a[k]);
            }
        }
        lemma_addresses_back(c, b);
        render::law_address_read_back(a.last());
        assert(a[a.len() - 1] is V4);
        assert(s.drop_last() =~= address_texts(c) + address_texts(b));
        assert(s.last() == render::ip_text(a.last()));
        assert(c.push(a.last()) =~= a);
    } else {
        assert(addresses(s, true) =~= a);
        assert(addresses(s, false) =~= b);
    }
}

proof fn lemma_uids_back(v: Seq<UidRange>)
    ensures
        uid_ranges(uid_texts(v)) == v,
    decreases v.len(),
{
    if v.len() > 0 {
        let c = v.drop_last();
        lemma_uids_back(c);
        lemma_loose_uid(v.last());
        assert(uid_texts(v).drop_last() =~= uid_texts(c));
        assert(uid_texts(v).last() == uid_text(v.last()));
        assert(c.push(v.last()) =~= v);
    } else {
        assert(uid_ranges(uid_texts(v)) =~= v);
    }
}

/// Options that become texts and values again are what they were, as far as
/// texts say it: gateways and DNS servers are forgotten, segmentation is asked
/// for, and of the timeout the whole seconds are kept, if there are any. Each
/// list of addresses has to be of the IP version that it is named for, with
/// prefix lengths within what that allows.
pub proof fn law_options_survive_texts(
    o: &Options,
    tag: Seq<char>,
    cfg: &TunInboundConfig,
    back: &Options,
)
    requires
        config_matches(o, tag, cfg),
        options_match(cfg, back),
        of_version(o.inet4_address@, true),
        of_version(o.inet6_address@, false),
        of_version(o.inet4_route_address@, true),
        of_version(o.inet6_route_address@, false),
        of_version(o.inet4_route_exclude_address@, true),
        of_version(o.inet6_route_exclude_address@, false),
        addresses_of_version(o.inet4_loopback_address@, true),
        addresses_of_version(o.inet6_loopback_address@, false),
    ensures
        opt_view(back.name) == opt_view(o.name),
        back.inet4_address@ == o.inet4_address@,
        back.inet6_address@ == o.inet6_address@,
        back.mtu == o.mtu,
        back.auto_route == o.auto_route,
        back.iproute2_table_index == o.iproute2_table_index,
        back.iproute2_rule_index == o.iproute2_rule_index,
        back.inet4_loopback_address@ == o.inet4_loopback_address@,
        back.inet6_loopback_address@ == o.inet6_loopback_address@,
        back.strict_route == o.strict_route,
        back.inet4_route_address@ == o.inet4_route_address@,
        back.inet6_route_address@ == o.inet6_route_address@,
        back.inet4_route_exclude_address@ == o.inet4_route_exclude_address@,
        back.inet6_route_exclude_address@ == o.inet6_route_exclude_address@,
        text::str_views(back.include_interface@) == text::str_views(o.include_interface@),
        text::str_views(back.exclude_interface@) == text::str_views(o.exclude_interface@),
        back.include_uid@ == o.include_uid@,
        back.exclude_uid@ == o.exclude_uid@,
        back.include_android_user@ == o.include_android_user@,
        text::str_views(back.include_package@) == text::str_views(o.include_package@),
        text::str_views(back.exclude_package@) == text::str_views(o.exclude_package@),
        back.tcp_mss == o.tcp_mss,
        o.udp_timeout.secs > 0 ==> back.udp_timeout.secs == o.udp_timeout.secs,
        back.stack == o.stack,
        back.auto_redirect == o.auto_redirect,
        back.auto_redirect_input_mark == o.auto_redirect_input_mark,
        back.auto_redirect_output_mark == o.auto_redirect_output_mark,
{
    lemma_prefixes_back(o.inet4_address@, o.inet6_address@);
    lemma_prefixes_back(o.inet4_route_address@, o.inet6_route_address@);
    lemma_prefixes_back(o.inet4_route_exclude_address@, o.inet6_route_exclude_address@);
    lemma_addresses_back(o.inet4_loopback_address@, o.inet6_loopback_address@);
    lemma_uids_back(o.include_uid@);
    lemma_uids_back(o.exclude_uid@);
    law_stack_name_read_back(o.stack);
    assert(single_uids(cfg.include_uid@) + o.include_uid@ =~= o.include_uid@);
    assert(single_uids(cfg.exclude_uid@) + o.exclude_uid@ =~= o.exclude_uid@);
}

} // verus!
