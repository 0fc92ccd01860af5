//! IP and socket addresses, and the prefixes they lie in.
use vstd::arithmetic::div_mod;
use vstd::arithmetic::power2;
use vstd::prelude::*;

verus! {

/// An IPv4 address; the first octet is the most significant.
#[derive(Clone, Copy, Debug, PartialEq, Eq, PartialOrd, Ord, Hash, Structural)]
pub struct Ipv4Addr {
    pub bits: u32,
}

/// An IPv6 address; the first octet is the most significant.
#[derive(Clone, Copy, Debug, PartialEq, Eq, PartialOrd, Ord, Hash, Structural)]
pub struct Ipv6Addr {
    pub bits: u128,
}

#[derive(Clone, Copy, Debug, PartialEq, Eq, PartialOrd, Ord, Hash, Structural)]
pub enum IpAddr {
    V4(Ipv4Addr),
    V6(Ipv6Addr),
}

#[derive(Clone, Copy, Debug, PartialEq, Eq, PartialOrd, Ord, Hash, Structural)]
pub struct SocketAddrV4 {
    pub ip: Ipv4Addr,
    pub port: u16,
}

#[derive(Clone, Copy, Debug, PartialEq, Eq, PartialOrd, Ord, Hash, Structural)]
pub struct SocketAddrV6 {
    pub ip: Ipv6Addr,
    pub port: u16,
}

#[derive(Clone, Copy, Debug, PartialEq, Eq, PartialOrd, Ord, Hash, Structural)]
pub enum SocketAddr {
    V4(SocketAddrV4),
    V6(SocketAddrV6),
}

impl Ipv4Addr {
    pub fn new(a: u8, b: u8, c: u8, d: u8) -> (addr: Self)
        ensures
            addr.bits == a * 0x100_0000 + b * 0x1_0000 + c * 0x100 + d,
    {
        Ipv4Addr {
            bits: (a as u32) * 0x100_0000 + (b as u32) * 0x1_0000 + (c as u32) * 0x100 + d as u32,
        }
    }
}

impl Ipv6Addr {
    /// The address whose eight 16-bit groups are given.
    pub fn new(a: u16, b: u16, c: u16, d: u16, e: u16, f: u16, g: u16, h: u16) -> (addr: Self)
        ensures
            addr.bits == ((((((a * 0x1_0000 + b) * 0x1_0000 + c) * 0x1_0000 + d) * 0x1_0000 + e)
                * 0x1_0000 + f) * 0x1_0000 + g) * 0x1_0000 + h,
    {
        let hi: u128 = ((a as u128 * 0x1_0000 + b as u128) * 0x1_0000 + c as u128) * 0x1_0000
            + d as u128;
        let lo: u128 = ((e as u128 * 0x1_0000 + f as u128) * 0x1_0000 + g as u128) * 0x1_0000
            + h as u128;
        Ipv6Addr { bits: hi * 0x1_0000_0000_0000_0000 + lo }
    }
}

impl IpAddr {
    pub fn is_ipv4(&self) -> (r: bool)
        ensures
            r == (self is V4),
    {
        match self {
            IpAddr::V4(_) => true,
            IpAddr::V6(_) => false,
        }
    }

    pub fn is_ipv6(&self) -> (r: bool)
        ensures
            r == (self is V6),
    {
        !self.is_ipv4()
    }
}

impl SocketAddr {
    pub open spec fn port_of(self) -> u16 {
        match self {
            SocketAddr::V4(a) => a.port,
            SocketAddr::V6(a) => a.port,
        }
    }

    pub open spec fn ip_of(self) -> IpAddr {
        match self {
            SocketAddr::V4(a) => IpAddr::V4(a.ip),
            SocketAddr::V6(a) => IpAddr::V6(a.ip),
        }
    }

    pub fn new(ip: IpAddr, port: u16) -> (addr: Self)
        ensures
            addr.ip_of() == ip,
            addr.port_of() == port,
    {
        match ip {
            IpAddr::V4(ip) => SocketAddr::V4(SocketAddrV4 { ip, port }),
            IpAddr::V6(ip) => SocketAddr::V6(SocketAddrV6 { ip, port }),
        }
    }

    pub fn port(&self) -> (port: u16)
        ensures
            port == self.port_of(),
    {
        match self {
            SocketAddr::V4(a) => a.port,
            SocketAddr::V6(a) => a.port,
        }
    }

    pub fn ip(&self) -> (ip: IpAddr)
        ensures
            ip == self.ip_of(),
    {
        match self {
            SocketAddr::V4(a) => IpAddr::V4(a.ip),
            SocketAddr::V6(a) => IpAddr::V6(a.ip),
        }
    }
}

/// The smaller of a prefix length and the number of bits of an address.
pub open spec fn clip(prefix_len: int, bits: int) -> int {
    if prefix_len < bits {
        prefix_len
    } else {
        bits
    }
}

/// How many addresses a prefix of this length covers; a prefix length above
/// the number of bits counts as that number.
pub open spec fn block_size(prefix_len: int, bits: int) -> int {
    power2::pow2((bits - clip(prefix_len, bits)) as nat) as int
}

/// Two addresses lie in the same block of a prefix length.
pub open spec fn same_block(a: int, b: int, prefix_len: int, bits: int) -> bool {
    a / block_size(prefix_len, bits) == b / block_size(prefix_len, bits)
}

/// The first address of the block of a prefix length that `a` lies in.
pub open spec fn block_start(a: int, prefix_len: int, bits: int) -> int {
    a - a % block_size(prefix_len, bits)
}

/// The last address of that block.
pub open spec fn block_end(a: int, prefix_len: int, bits: int) -> int {
    block_start(a, prefix_len, bits) + block_size(prefix_len, bits) - 1
}

pub proof fn lemma_block_v4(prefix_len: int)
    requires
        prefix_len >= 0,
    ensures
        0 < block_size(prefix_len, 32) <= 0x1_0000_0000,
        prefix_len == 0 ==> block_size(prefix_len, 32) == 0x1_0000_0000,
        prefix_len > 0 ==> block_size(prefix_len, 32) <= 0x8000_0000,
        prefix_len >= 32 ==> block_size(prefix_len, 32) == 1,
{
    power2::lemma2_to64();
    power2::lemma_pow2_pos((32 - clip(prefix_len, 32)) as nat);
    let k = (32 - clip(prefix_len, 32)) as nat;
    if k < 32 {
        power2::lemma_pow2_strictly_increases(k, 32);
        if k < 31 {
            power2::lemma_pow2_strictly_increases(k, 31);
        }
    }
}

pub proof fn lemma_pow2_127()
    ensures
        power2::pow2(127) == 0x8000_0000_0000_0000_0000_0000_0000_0000,
        power2::pow2(128) == 0x1_0000_0000_0000_0000_0000_0000_0000_0000,
{
    power2::lemma2_to64();
    power2::lemma_pow2_adds(64, 64);
    power2::lemma_pow2_unfold(128);
    assert(0x1_0000_0000_0000_0000 * 0x1_0000_0000_0000_0000
        == 0x1_0000_0000_0000_0000_0000_0000_0000_0000) by (nonlinear_arith);
}

pub proof fn lemma_block_v6(prefix_len: int)
    requires
        prefix_len >= 0,
    ensures
        0 < block_size(prefix_len, 128),
        prefix_len == 0 ==> block_size(prefix_len, 128) == u128::MAX + 1,
        prefix_len > 0 ==> block_size(prefix_len, 128) <= 0x8000_0000_0000_0000_0000_0000_0000_0000,
        prefix_len >= 128 ==> block_size(prefix_len, 128) == 1,
{
    lemma_pow2_127();
    power2::lemma2_to64();
    let k = (128 - clip(prefix_len, 128)) as nat;
    power2::lemma_pow2_pos(k);
    if k < 127 {
        power2::lemma_pow2_strictly_increases(k, 127);
    }
}

/// The number of addresses of an IPv4 prefix.
pub fn block_v4(prefix_len: u8) -> (size: u64)
    ensures
        size == block_size(prefix_len as int, 32),
        0 < size <= 0x1_0000_0000,
{
    let mut size: u64 = 0x1_0000_0000;
    let mut k: u8 = 0;
    proof {
        power2::lemma2_to64();
    }
    while k < prefix_len && k < 32
        invariant
            k <= 32,
            k <= prefix_len,
            size == power2::pow2((32 - k) as nat),
            size <= 0x1_0000_0000,
        decreases 32 - k,
    {
        proof {
            power2::lemma_pow2_unfold((32 - k) as nat);
        }
        size = size / 2;
        k += 1;
    }
    proof {
        power2::lemma_pow2_pos((32 - k) as nat);
    }
    size
}

/// The number of addresses of an IPv6 prefix that is not empty.
pub fn block_v6(prefix_len: u8) -> (size: u128)
    requires
        prefix_len > 0,
    ensures
        size == block_size(prefix_len as int, 128),
        size > 0,
{
    let mut size: u128 = 0x8000_0000_0000_0000_0000_0000_0000_0000;
    let mut k: u8 = 1;
    proof {
        lemma_pow2_127();
    }
    while k < prefix_len && k < 128
        invariant
            1 <= k <= 128,
            k <= prefix_len,
            size == power2::pow2((128 - k) as nat),
        decreases 128 - k,
    {
        proof {
            power2::lemma_pow2_unfold((128 - k) as nat);
        }
        size = size / 2;
        k += 1;
    }
    proof {
        power2::lemma_pow2_pos((128 - k) as nat);
    }
    size
}

/// Whether an address of the IPv4 network with this prefix length.
pub open spec fn in_prefix_v4(addr: Ipv4Addr, network: Ipv4Addr, prefix_len: int) -> bool {
    same_block(addr.bits as int, network.bits as int, prefix_len, 32)
}

pub open spec fn in_prefix_v6(addr: Ipv6Addr, network: Ipv6Addr, prefix_len: int) -> bool {
    same_block(addr.bits as int, network.bits as int, prefix_len, 128)
}

/// Whether the address lies in the prefix.
pub fn addr_in_prefix_v4(addr: Ipv4Addr, network: Ipv4Addr, prefix_len: u8) -> (r: bool)
    ensures
        r == in_prefix_v4(addr, network, prefix_len as int),
{
    let size: u64 = block_v4(prefix_len);
    addr.bits as u64 / size == network.bits as u64 / size
}

/// Whether the address lies in the prefix.
pub fn addr_in_prefix_v6(addr: Ipv6Addr, network: Ipv6Addr, prefix_len: u8) -> (r: bool)
    ensures
        r == in_prefix_v6(addr, network, prefix_len as int),
{
    if prefix_len == 0 {
        proof {
            lemma_block_v6(0);
            let size = block_size(0, 128);
            div_mod::lemma_basic_div(addr.bits as int, size);
            div_mod::lemma_basic_div(network.bits as int, size);
        }
        return true;
    }
    let size: u128 = block_v6(prefix_len);
    addr.bits / size == network.bits / size
}

/// Whether the address lies in one of the subnets.
pub open spec fn in_subnets_v4(addr: Ipv4Addr, subnets: Seq<(Ipv4Addr, u8)>) -> bool {
    exists|k: int|
        0 <= k < subnets.len() && in_prefix_v4(addr, (#[trigger] subnets[k]).0, subnets[k].1 as int)
}

pub open spec fn in_subnets_v6(addr: Ipv6Addr, subnets: Seq<(Ipv6Addr, u8)>) -> bool {
    exists|k: int|
        0 <= k < subnets.len() && in_prefix_v6(addr, (#[trigger] subnets[k]).0, subnets[k].1 as int)
}

pub fn ip_in_local_subnets_v4(addr: Ipv4Addr, subnets: &[(Ipv4Addr, u8)]) -> (r: bool)
    ensures
        r == in_subnets_v4(addr, subnets@),
{
    let mut k: usize = 0;
    while k < subnets.len()
        invariant
            k <= subnets.len(),
            forall|j: int|
                0 <= j < k ==> !in_prefix_v4(
                    addr,
                    (#[trigger] subnets@[j]).0,
                    subnets@[j].1 as int,
                ),
        decreases subnets.len() - k,
    {
        let (net, len) = subnets[k];
        if addr_in_prefix_v4(addr, net, len) {
            assert(in_prefix_v4(addr, subnets@[k as int].0, subnets@[k as int].1 as int));
            return true;
        }
        k += 1;
    }
    false
}

pub fn ip_in_local_subnets_v6(addr: Ipv6Addr, subnets: &[(Ipv6Addr, u8)]) -> (r: bool)
    ensures
        r == in_subnets_v6(addr, subnets@),
{
    let mut k: usize = 0;
    while k < subnets.len()
        invariant
            k <= subnets.len(),
            forall|j: int|
                0 <= j < k ==> !in_prefix_v6(
                    addr,
                    (#[trigger] subnets@[j]).0,
                    subnets@[j].1 as int,
                ),
        decreases subnets.len() - k,
    {
        let (net, len) = subnets[k];
        if addr_in_prefix_v6(addr, net, len) {
            assert(in_prefix_v6(addr, subnets@[k as int].0, subnets@[k as int].1 as int));
            return true;
        }
        k += 1;
    }
    false
}

/// The network address: the first address of the block.
pub fn network_v4(addr: Ipv4Addr, prefix_len: u8) -> (net: Ipv4Addr)
    ensures
        net.bits == block_start(addr.bits as int, prefix_len as int, 32),
{
    let size: u64 = block_v4(prefix_len);
    proof {
        div_mod::lemma_mod_decreases(addr.bits as nat, size as nat);
    }
    Ipv4Addr { bits: (addr.bits as u64 - addr.bits as u64 % size) as u32 }
}

/// The network address: the first address of the block.
pub fn network_v6(addr: Ipv6Addr, prefix_len: u8) -> (net: Ipv6Addr)
    ensures
        net.bits == block_start(addr.bits as int, prefix_len as int, 128),
{
    if prefix_len == 0 {
        proof {
            lemma_block_v6(0);
            div_mod::lemma_small_mod(
                addr.bits as nat,
                block_size(0, 128) as nat,
            );
        }
        return Ipv6Addr { bits: 0 };
    }
    let size: u128 = block_v6(prefix_len);
    proof {
        div_mod::lemma_mod_decreases(addr.bits as nat, size as nat);
    }
    Ipv6Addr { bits: addr.bits - addr.bits % size }
}

/// The broadcast address of the network that `network` lies in: the last
/// address of the block.
pub fn broadcast_addr_v4(network: Ipv4Addr, prefix_len: u8) -> (addr: Ipv4Addr)
    ensures
        addr.bits == block_end(network.bits as int, prefix_len as int, 32),
{
    let size: u64 = block_v4(prefix_len);
    let start: Ipv4Addr = network_v4(network, prefix_len);
    proof {
        lemma_block_end_fits_v4(network.bits as int, prefix_len as int);
    }
    Ipv4Addr { bits: (start.bits as u64 + (size - 1)) as u32 }
}

pub proof fn lemma_block_end_fits_v4(a: int, prefix_len: int)
    requires
        0 <= a <= u32::MAX,
        prefix_len >= 0,
    ensures
        0 <= block_start(a, prefix_len, 32) <= a <= block_end(a, prefix_len, 32) <= u32::MAX,
{
    lemma_block_v4(prefix_len);
    let size = block_size(prefix_len, 32);
    let k = (32 - clip(prefix_len, 32)) as nat;
    power2::lemma2_to64();
    power2::lemma_pow2_adds(k, (32 - k) as nat);
    let count = power2::pow2((32 - k) as nat) as int;
    lemma_block_in_range(a, size, count, 0x1_0000_0000);
}

pub proof fn lemma_block_end_fits_v6(a: int, prefix_len: int)
    requires
        0 <= a <= u128::MAX,
        prefix_len >= 0,
    ensures
        0 <= block_start(a, prefix_len, 128) <= a <= block_end(a, prefix_len, 128) <= u128::MAX,
{
    lemma_block_v6(prefix_len);
    let size = block_size(prefix_len, 128);
    let k = (128 - clip(prefix_len, 128)) as nat;
    lemma_pow2_127();
    power2::lemma_pow2_adds(k, (128 - k) as nat);
    let count = power2::pow2((128 - k) as nat) as int;
    lemma_block_in_range(a, size, count, u128::MAX + 1);
}

/// A block of a range that is a whole number of blocks long does not cross the
/// end of the range.
proof fn lemma_block_in_range(a: int, size: int, count: int, total: int)
    requires
        0 <= a < total,
        size > 0,
        size * count == total,
    ensures
        0 <= a - a % size <= a < a - a % size + size <= total,
{
    div_mod::lemma_fundamental_div_mod(a, size);
    div_mod::lemma_mod_bound(a, size);
    let q = a / size;
    assert(q < count) by (nonlinear_arith)
        requires
            size * q + a % size == a,
            0 <= a % size,
            a < total,
            size * count == total,
            size > 0,
    ;
    assert(size * q + size <= size * count) by (nonlinear_arith)
        requires
            q + 1 <= count,
            size > 0,
    ;
    assert(q >= 0) by (nonlinear_arith)
        requires
            size * q + a % size == a,
            a % size < size,
            a >= 0,
            size > 0,
    ;
    assert(size * q >= 0) by (nonlinear_arith)
        requires
            q >= 0,
            size > 0,
    ;
}

/// There is a next address, and it lies in the same prefix.
pub open spec fn has_next(ip: int, prefix_len: int, bits: int, max: int) -> bool {
    ip < max && same_block(ip, ip + 1, prefix_len, bits)
}

/// Whether the address after `ip` exists and lies in the same prefix.
pub fn has_next_addr_v4(ip: Ipv4Addr, prefix_len: u8) -> (r: bool)
    ensures
        r == has_next(ip.bits as int, prefix_len as int, 32, u32::MAX as int),
{
    if ip.bits == u32::MAX {
        return false;
    }
    addr_in_prefix_v4(ip, Ipv4Addr { bits: ip.bits + 1 }, prefix_len)
}

/// Whether the address after `ip` exists and lies in the same prefix.
pub fn has_next_addr_v6(ip: Ipv6Addr, prefix_len: u8) -> (r: bool)
    ensures
        r == has_next(ip.bits as int, prefix_len as int, 128, u128::MAX as int),
{
    if ip.bits == u128::MAX {
        return false;
    }
    addr_in_prefix_v6(ip, Ipv6Addr { bits: ip.bits + 1 }, prefix_len)
}

/// The netmask of a prefix length: ones in front, zeros behind.
pub fn prefix_len_to_mask_v4(len: u8) -> (mask: Ipv4Addr)
    ensures
        mask.bits == (if len == 0 {
            0
        } else {
            0x1_0000_0000 - block_size(len as int, 32)
        }),
{
    proof {
        lemma_block_v4(len as int);
    }
    Ipv4Addr { bits: (0x1_0000_0000 - block_v4(len)) as u32 }
}

/// Not 0.0.0.0/8, not the broadcast address and not multicast.
pub open spec fn global_unicast_v4(addr: Ipv4Addr) -> bool {
    let first = addr.bits / 0x100_0000;
    first != 0 && addr.bits != u32::MAX && !(224 <= first < 240)
}

/// Not `::`, not `::1`, not link-local (`fe80::/10`) and not multicast
/// (`ff00::/8`).
pub open spec fn global_unicast_v6(addr: Ipv6Addr) -> bool {
    let first = addr.bits as int / 0x1_0000_0000_0000_0000_0000_0000_0000;
    addr.bits > 1 && first / 0x40 != 0x3fa && first / 0x100 != 0xff
}

/// Whether the address is one that traffic is forwarded to: not 0.0.0.0/8, not
/// the broadcast address 255.255.255.255 and not multicast (224.0.0.0/4).
pub fn is_global_unicast_v4(addr: Ipv4Addr) -> (r: bool)
    ensures
        r == global_unicast_v4(addr),
{
    let first: u32 = addr.bits / 0x100_0000;
    first != 0 && addr.bits != u32::MAX && !(first >= 224 && first < 240)
}

/// Whether the address is one that traffic is forwarded to: not `::`, not
/// `::1`, not link-local and not multicast.
pub fn is_global_unicast_v6(addr: Ipv6Addr) -> (r: bool)
    ensures
        r == global_unicast_v6(addr),
{
    let first: u128 = addr.bits / 0x1_0000_0000_0000_0000_0000_0000_0000;
    addr.bits > 1 && first / 0x40 != 0x3fa && first / 0x100 != 0xff
}

} // verus!
