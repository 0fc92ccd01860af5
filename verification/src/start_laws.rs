//! How an inbound starts, told from the texts of its settings: the addresses it
//! serves and answers from, and the networks it leaves alone.
use vstd::arithmetic::div_mod;
use vstd::arithmetic::power2;
use vstd::prelude::*;

use crate::addr;
use crate::addr::{IpAddr, Ipv4Addr, Ipv6Addr};
use crate::inbound;
use crate::inbound::{AddressError, InboundAddresses};
use crate::interface_finder::Interface;
use crate::plain;
use crate::routes;
use crate::text;

verus! {

/// The text reads as a prefix of this version.
pub open spec fn reads_as(s: Seq<char>, v4: bool) -> bool {
    text::addr_prefix(s) matches Some((ip, _)) && (ip is V4) == v4
}

/// No text before `k` reads as a prefix of this version, and that one does.
pub open spec fn first_reads(s: Seq<Seq<char>>, k: int, v4: bool) -> bool {
    &&& 0 <= k < s.len()
    &&& reads_as(s[k], v4)
    &&& forall|j: int| 0 <= j < k ==> !reads_as(#[trigger] s[j], v4)
}

/// The address behind this one exists and lies in the same prefix.
pub open spec fn has_neighbour_v4(ip: Ipv4Addr, len: u8) -> bool {
    exists|next: Ipv4Addr| next.bits == ip.bits + 1 && #[trigger] plain::lies_in_v4(next, ip, len)
}

pub open spec fn has_neighbour_v6(ip: Ipv6Addr, len: u8) -> bool {
    exists|next: Ipv6Addr| next.bits == ip.bits + 1 && #[trigger] plain::lies_in_v6(next, ip, len)
}

proof fn lemma_neighbour_v4(ip: Ipv4Addr, len: u8)
    ensures
        addr::has_next(ip.bits as int, len as int, 32, u32::MAX as int) <==> has_neighbour_v4(
            ip,
            len,
        ),
{
    if ip.bits < u32::MAX {
        let next = Ipv4Addr { bits: (ip.bits + 1) as u32 };
        plain::law_networks_v4(next, ip, len);
        if has_neighbour_v4(ip, len) {
            let other = choose|other: Ipv4Addr|
                other.bits == ip.bits + 1 && #[trigger] plain::lies_in_v4(other, ip, len);
            assert(other == next);
        }
    }
}

proof fn lemma_neighbour_v6(ip: Ipv6Addr, len: u8)
    ensures
        addr::has_next(ip.bits as int, len as int, 128, u128::MAX as int) <==> has_neighbour_v6(
            ip,
            len,
        ),
{
    if ip.bits < u128::MAX {
        let next = Ipv6Addr { bits: (ip.bits + 1) as u128 };
        plain::law_networks_v6(next, ip, len);
        if has_neighbour_v6(ip, len) {
            let other = choose|other: Ipv6Addr|
                other.bits == ip.bits + 1 && #[trigger] plain::lies_in_v6(other, ip, len);
            assert(other == next);
        }
    }
}

/// The first prefix of a version, where there is one, has room for a neighbour.
pub open spec fn roomy(s: Seq<Seq<char>>) -> bool {
    &&& forall|k: int| #[trigger]
        first_reads(s, k, true) ==> (text::addr_prefix(s[k]) matches Some((IpAddr::V4(ip), len))
            && has_neighbour_v4(ip, len))
    &&& forall|k: int| #[trigger]
        first_reads(s, k, false) ==> (text::addr_prefix(s[k]) matches Some((IpAddr::V6(ip), len))
            && has_neighbour_v6(ip, len))
}

#[verifier::rlimit(40)]
proof fn lemma_scan(s: Seq<Seq<char>>)
    ensures
        match inbound::scan(s) {
            Ok((a, b)) => {
                &&& a == routes::prefixes_v4(s)
                &&& b == routes::prefixes_v6(s)
                &&& roomy(s)
                &&& a.len() == 0 <==> forall|k: int| 0 <= k < s.len() ==> !reads_as(
                    #[trigger] s[k],
                    true,
                )
                &&& b.len() == 0 <==> forall|k: int| 0 <= k < s.len() ==> !reads_as(
                    #[trigger] s[k],
                    false,
                )
            },
            Err(AddressError::NoNextV4(ip, len)) => !has_neighbour_v4(ip, len) && exists|k: int|
                #[trigger] first_reads(s, k, true) && text::addr_prefix(s[k]) == Some(
                    (IpAddr::V4(ip), len),
                ),
            Err(AddressError::NoNextV6(ip, len)) => !has_neighbour_v6(ip, len) && exists|k: int|
                #[trigger] first_reads(s, k, false) && text::addr_prefix(s[k]) == Some(
                    (IpAddr::V6(ip), len),
                ),
            Err(AddressError::NoAddress) => false,
        },
    decreases s.len(),
{
    if s.len() > 0 {
        let front = s.drop_last();
        let last = s.len() - 1;
        lemma_scan(front);
        assert(s[last] == s.last());
        assert forall|k: int, v4: bool| k < last implies #[trigger] first_reads(front, k, v4)
            == first_reads(s, k, v4) by {
            lemma_first_same(s, k, v4);
        }
        match inbound::scan(front) {
            Err(AddressError::NoNextV4(ip, len)) => {
                let k = choose|k: int| #[trigger]
                    first_reads(front, k, true) && text::addr_prefix(front[k]) == Some(
                        (IpAddr::V4(ip), len),
                    );
                assert(first_reads(s, k, true) && s[k] == front[k]);
            },
            Err(AddressError::NoNextV6(ip, len)) => {
                let k = choose|k: int| #[trigger]
                    first_reads(front, k, false) && text::addr_prefix(front[k]) == Some(
                        (IpAddr::V6(ip), len),
                    );
                assert(first_reads(s, k, false) && s[k] == front[k]);
            },
            Err(_) => {},
            Ok((a, b)) => {
                lemma_none_longer(s, true);
                lemma_none_longer(s, false);
                match text::addr_prefix(s.last()) {
                    Some((IpAddr::V4(ip), len)) => {
                        lemma_neighbour_v4(ip, len);
                        if a.len() == 0 {
                            lemma_first_here(s, true);
                        }
                    },
                    Some((IpAddr::V6(ip), len)) => {
                        lemma_neighbour_v6(ip, len);
                        if b.len() == 0 {
                            lemma_first_here(s, false);
                        }
                    },
                    None => {},
                }
                if inbound::scan(s) is Ok {
                    assert forall|k: int| #[trigger] first_reads(s, k, true) implies (
                    text::addr_prefix(s[k]) matches Some((IpAddr::V4(ip), len))
                        && has_neighbour_v4(ip, len)) by {
                        if k < last {
                            assert(first_reads(front, k, true));
                            assert(front[k] == s[k]);
                        } else {
                            lemma_first_only(s, true);
                        }
                    }
                    assert forall|k: int| #[trigger] first_reads(s, k, false) implies (
                    text::addr_prefix(s[k]) matches Some((IpAddr::V6(ip), len))
                        && has_neighbour_v6(ip, len)) by {
                        if k < last {
                            assert(first_reads(front, k, false));
                            assert(front[k] == s[k]);
                        } else {
                            lemma_first_only(s, false);
                        }
                    }
                }
            },
        }
    }
}

proof fn lemma_first_same(s: Seq<Seq<char>>, k: int, v4: bool)
    requires
        s.len() > 0,
        k < s.len() - 1,
    ensures
        first_reads(s.drop_last(), k, v4) == first_reads(s, k, v4),
{
    let front = s.drop_last();
    assert(forall|j: int| 0 <= j < front.len() ==> #[trigger] front[j] == s[j]);
    if first_reads(front, k, v4) {
        assert forall|j: int| 0 <= j < k implies !reads_as(#[trigger] s[j], v4) by {
            assert(front[j] == s[j]);
        }
    }
}

proof fn lemma_none_longer(s: Seq<Seq<char>>, v4: bool)
    requires
        s.len() > 0,
    ensures
        (forall|k: int| 0 <= k < s.len() ==> !reads_as(#[trigger] s[k], v4)) <==> (forall|k: int|
            0 <= k < s.len() - 1 ==> !reads_as(#[trigger] s.drop_last()[k], v4)) && !reads_as(
            s.last(),
            v4,
        ),
{
    let front = s.drop_last();
    assert(s[s.len() - 1] == s.last());
    if forall|k: int| 0 <= k < s.len() ==> !reads_as(#[trigger] s[k], v4) {
        assert forall|k: int| 0 <= k < s.len() - 1 implies !reads_as(#[trigger] front[k], v4) by {
            assert(front[k] == s[k]);
        }
    }
    if (forall|k: int| 0 <= k < s.len() - 1 ==> !reads_as(#[trigger] front[k], v4)) && !reads_as(
        s.last(),
        v4,
    ) {
        assert forall|k: int| 0 <= k < s.len() implies !reads_as(#[trigger] s[k], v4) by {
            if k < s.len() - 1 {
                assert(front[k] == s[k]);
            }
        }
    }
}

proof fn lemma_first_here(s: Seq<Seq<char>>, v4: bool)
    requires
        s.len() > 0,
        reads_as(s.last(), v4),
        forall|k: int| 0 <= k < s.len() - 1 ==> !reads_as(#[trigger] s.drop_last()[k], v4),
    ensures
        first_reads(s, s.len() - 1, v4),
{
    let front = s.drop_last();
    assert forall|j: int| 0 <= j < s.len() - 1 implies !reads_as(#[trigger] s[j], v4) by {
        assert(front[j] == s[j]);
    }
}

proof fn lemma_first_only(s: Seq<Seq<char>>, v4: bool)
    requires
        s.len() > 0,
        first_reads(s, s.len() - 1, v4),
    ensures
        forall|k: int| 0 <= k < s.len() - 1 ==> !reads_as(#[trigger] s.drop_last()[k], v4),
{
    let front = s.drop_last();
    assert forall|k: int| 0 <= k < front.len() implies !reads_as(#[trigger] front[k], v4) by {
        assert(front[k] == s[k]);
    }
}

/// An inbound has addresses where one text reads as a prefix and the first
/// prefix of each version has room for a neighbour; else the error says what is
/// missing.
pub proof fn law_addresses_resolved(s: Seq<Seq<char>>)
    ensures
        match inbound::resolved(s) {
            Ok((a, b)) => {
                &&& a == routes::prefixes_v4(s)
                &&& b == routes::prefixes_v6(s)
                &&& roomy(s)
                &&& exists|k: int|
                    0 <= k < s.len() && text::addr_prefix(#[trigger] s[k]) is Some
            },
            Err(AddressError::NoNextV4(ip, len)) => !has_neighbour_v4(ip, len) && exists|k: int|
                #[trigger] first_reads(s, k, true) && text::addr_prefix(s[k]) == Some(
                    (IpAddr::V4(ip), len),
                ),
            Err(AddressError::NoNextV6(ip, len)) => !has_neighbour_v6(ip, len) && exists|k: int|
                #[trigger] first_reads(s, k, false) && text::addr_prefix(s[k]) == Some(
                    (IpAddr::V6(ip), len),
                ),
            Err(AddressError::NoAddress) => forall|k: int|
                0 <= k < s.len() ==> text::addr_prefix(#[trigger] s[k]) is None,
        },
{
    lemma_scan(s);
    match inbound::scan(s) {
        Ok((a, b)) => {
            if a.len() == 0 && b.len() == 0 {
                assert forall|k: int| 0 <= k < s.len() implies text::addr_prefix(
                    #[trigger] s[k],
                ) is None by {
                    assert(!reads_as(s[k], true) && !reads_as(s[k], false));
                }
            } else if a.len() > 0 {
                let k = choose|k: int| 0 <= k < s.len() && reads_as(#[trigger] s[k], true);
                assert(text::addr_prefix(s[k]) is Some);
            } else {
                let k = choose|k: int| 0 <= k < s.len() && reads_as(#[trigger] s[k], false);
                assert(text::addr_prefix(s[k]) is Some);
            }
        },
        Err(_) => {},
    }
}

/// The inbound serves on the first address of each version, and its clients
/// have the address behind it.
pub proof fn law_server_and_client(
    r: &InboundAddresses,
    a: Seq<(Ipv4Addr, u8)>,
    b: Seq<(Ipv6Addr, u8)>,
)
    requires
        r.go_with(a, b),
    ensures
        r.inet4_server is Some <==> a.len() > 0,
        r.inet4_client is Some <==> a.len() > 0,
        r.inet6_server is Some <==> b.len() > 0,
        r.inet6_client is Some <==> b.len() > 0,
        r.inet4_server matches Some(x) ==> x == a[0].0,
        r.inet4_client matches Some(x) ==> x.bits == a[0].0.bits + 1,
        r.inet6_server matches Some(x) ==> x == b[0].0,
        r.inet6_client matches Some(x) ==> x.bits == b[0].0.bits + 1,
        r.inet4_prefixes@ == a,
        r.inet6_prefixes@ == b,
{
}

/// The last address of a prefix: it begins like the prefix, and is all ones
/// behind that.
pub proof fn law_last_address(a: Ipv4Addr, len: u8, last: Ipv4Addr)
    requires
        last.bits == addr::block_end(a.bits as int, len as int, 32),
    ensures
        plain::lies_in_v4(last, a, len),
        forall|x: Ipv4Addr| #[trigger] plain::lies_in_v4(x, a, len) ==> x.bits <= last.bits,
{
    let size = addr::block_size(len as int, 32);
    addr::lemma_block_v4(len as int);
    div_mod::lemma_fundamental_div_mod(a.bits as int, size);
    div_mod::lemma_mod_bound(a.bits as int, size);
    let q = a.bits as int / size;
    assert(last.bits == size * q + (size - 1));
    assert(size * q == q * size) by (nonlinear_arith);
    div_mod::lemma_fundamental_div_mod_converse(last.bits as int, size, q, size - 1);
    plain::law_networks_v4(last, a, len);
    assert forall|x: Ipv4Addr| #[trigger] plain::lies_in_v4(x, a, len) implies x.bits
        <= last.bits by {
        plain::law_networks_v4(x, a, len);
        div_mod::lemma_fundamental_div_mod(x.bits as int, size);
        div_mod::lemma_mod_bound(x.bits as int, size);
    }
}

/// The loopback addresses are those that the texts name, each once, or the
/// usual one where they name none.
#[verifier::rlimit(40)]
pub proof fn law_loopbacks_v4(s: Seq<Seq<char>>, ip: Ipv4Addr)
    ensures
        inbound::distinct_v4(s).contains(ip) <==> exists|k: int|
            0 <= k < s.len() && text::ip_of(text::trim(#[trigger] s[k])) == Some(IpAddr::V4(ip)),
        inbound::distinct_v4(s).no_duplicates(),
        inbound::distinct_v4(s).len() > 0 ==> inbound::loopbacks_v4(s) == inbound::distinct_v4(s),
        inbound::distinct_v4(s).len() == 0 ==> inbound::loopbacks_v4(s) == seq![
            Ipv4Addr { bits: 0x7f00_0001 },
        ],
    decreases s.len(),
{
    let all = inbound::distinct_v4(s);
    if s.len() > 0 {
        let front = s.drop_last();
        let before = inbound::distinct_v4(front);
        law_loopbacks_v4(front, ip);
        assert(s[s.len() - 1] == s.last());
        if exists|k: int|
            0 <= k < s.len() && text::ip_of(text::trim(#[trigger] s[k])) == Some(IpAddr::V4(ip)) {
            let k = choose|k: int|
                0 <= k < s.len() && text::ip_of(text::trim(#[trigger] s[k])) == Some(
                    IpAddr::V4(ip),
                );
            if k < front.len() {
                assert(front[k] == s[k]);
                assert(before.contains(ip));
            }
        }
        if before.contains(ip) {
            let j = choose|j: int| 0 <= j < before.len() && before[j] == ip;
            assert(all[j] == ip);
            let k = choose|k: int|
                0 <= k < front.len() && text::ip_of(text::trim(#[trigger] front[k])) == Some(
                    IpAddr::V4(ip),
                );
            assert(s[k] == front[k]);
        }
        if text::ip_of(text::trim(s.last())) == Some(IpAddr::V4(ip)) && !before.contains(ip) {
            assert(all[all.len() - 1] == ip);
        }
        if all.contains(ip) && !before.contains(ip) {
            let j = choose|j: int| 0 <= j < all.len() && all[j] == ip;
            if j < before.len() {
                assert(before[j] == ip);
            }
        }
    }
}

#[verifier::rlimit(40)]
pub proof fn law_loopbacks_v6(s: Seq<Seq<char>>, ip: Ipv6Addr)
    ensures
        inbound::distinct_v6(s).contains(ip) <==> exists|k: int|
            0 <= k < s.len() && text::ip_of(text::trim(#[trigger] s[k])) == Some(IpAddr::V6(ip)),
        inbound::distinct_v6(s).no_duplicates(),
        inbound::distinct_v6(s).len() > 0 ==> inbound::loopbacks_v6(s) == inbound::distinct_v6(s),
        inbound::distinct_v6(s).len() == 0 ==> inbound::loopbacks_v6(s) == seq![
            Ipv6Addr { bits: 1 },
        ],
    decreases s.len(),
{
    let all = inbound::distinct_v6(s);
    if s.len() > 0 {
        let front = s.drop_last();
        let before = inbound::distinct_v6(front);
        law_loopbacks_v6(front, ip);
        assert(s[s.len() - 1] == s.last());
        if exists|k: int|
            0 <= k < s.len() && text::ip_of(text::trim(#[trigger] s[k])) == Some(IpAddr::V6(ip)) {
            let k = choose|k: int|
                0 <= k < s.len() && text::ip_of(text::trim(#[trigger] s[k])) == Some(
                    IpAddr::V6(ip),
                );
            if k < front.len() {
                assert(front[k] == s[k]);
                assert(before.contains(ip));
            }
        }
        if before.contains(ip) {
            let j = choose|j: int| 0 <= j < before.len() && before[j] == ip;
            assert(all[j] == ip);
            let k = choose|k: int|
                0 <= k < front.len() && text::ip_of(text::trim(#[trigger] front[k])) == Some(
                    IpAddr::V6(ip),
                );
            assert(s[k] == front[k]);
        }
        if text::ip_of(text::trim(s.last())) == Some(IpAddr::V6(ip)) && !before.contains(ip) {
            assert(all[all.len() - 1] == ip);
        }
        if all.contains(ip) && !before.contains(ip) {
            let j = choose|j: int| 0 <= j < all.len() && all[j] == ip;
            if j < before.len() {
                assert(before[j] == ip);
            }
        }
    }
}

/// An address of an interface, other than the one that is left out, puts its
/// network among the local ones.
pub open spec fn attached_v4(
    s: Seq<Interface>,
    left_out: Option<Seq<char>>,
    x: Ipv4Addr,
) -> bool {
    exists|k: int, j: int|
        #![trigger s[k], s[k].addrs@[j]]
        0 <= k < s.len() && left_out != Some(s[k].name@) && 0 <= j < s[k].addrs@.len()
            && near_v4(s[k].addrs@[j], x)
}

/// The address lies in the network of the other.
pub open spec fn near_v4(a: (IpAddr, u8), x: Ipv4Addr) -> bool {
    a.0 matches IpAddr::V4(ip) && plain::lies_in_v4(x, ip, a.1)
}

pub open spec fn attached_v6(
    s: Seq<Interface>,
    left_out: Option<Seq<char>>,
    x: Ipv6Addr,
) -> bool {
    exists|k: int, j: int|
        #![trigger s[k], s[k].addrs@[j]]
        0 <= k < s.len() && left_out != Some(s[k].name@) && 0 <= j < s[k].addrs@.len()
            && near_v6(s[k].addrs@[j], x)
}

pub open spec fn near_v6(a: (IpAddr, u8), x: Ipv6Addr) -> bool {
    a.0 matches IpAddr::V6(ip) && plain::lies_in_v6(x, ip, a.1)
}

proof fn lemma_same_start(a: int, x: int, len: int, bits: int)
    requires
        0 <= len,
        0 <= bits,
        0 <= a,
        0 <= x,
    ensures
        addr::same_block(x, addr::block_start(a, len, bits), len, bits) <==> addr::same_block(
            x,
            a,
            len,
            bits,
        ),
{
    let size = addr::block_size(len, bits);
    power2::lemma_pow2_pos((bits - addr::clip(len, bits)) as nat);
    div_mod::lemma_fundamental_div_mod(a, size);
    let q = a / size;
    assert(addr::block_start(a, len, bits) == size * q);
    assert(size * q == q * size) by (nonlinear_arith);
    div_mod::lemma_div_multiples_vanish(q, size);
}

#[verifier::rlimit(40)]
proof fn lemma_networks_v4(a: Seq<(IpAddr, u8)>, x: Ipv4Addr)
    ensures
        plain::among_v4(x, inbound::networks_v4(a)) <==> exists|j: int|
            0 <= j < a.len() && near_v4(#[trigger] a[j], x),
    decreases a.len(),
{
    let all = inbound::networks_v4(a);
    if a.len() > 0 {
        let front = a.drop_last();
        let before = inbound::networks_v4(front);
        lemma_networks_v4(front, x);
        let (ip, len) = a.last();
        assert(a[a.len() - 1] == a.last());
        if let IpAddr::V4(v4) = ip {
            let net = all.last();
            addr::lemma_block_end_fits_v4(v4.bits as int, len as int);
            lemma_same_start(v4.bits as int, x.bits as int, len as int, 32);
            plain::law_networks_v4(x, v4, len);
            plain::law_networks_v4(x, net.0, net.1);
            assert(addr::block_size(len as int, 32) == addr::block_size(net.1 as int, 32));
            assert(plain::lies_in_v4(x, net.0, net.1) <==> near_v4(a.last(), x));
        }
        if plain::among_v4(x, all) {
            let k = choose|k: int|
                0 <= k < all.len() && plain::lies_in_v4(x, (#[trigger] all[k]).0, all[k].1);
            if k < before.len() {
                assert(before[k] == all[k]);
                assert(plain::among_v4(x, before));
                let j = choose|j: int| 0 <= j < front.len() && near_v4(#[trigger] front[j], x);
                assert(a[j] == front[j]);
            } else {
                assert(near_v4(a[a.len() - 1], x));
            }
        }
        if exists|j: int| 0 <= j < a.len() && near_v4(#[trigger] a[j], x) {
            let j = choose|j: int| 0 <= j < a.len() && near_v4(#[trigger] a[j], x);
            if j < front.len() {
                assert(front[j] == a[j]);
                let k = choose|k: int|
                    0 <= k < before.len() && plain::lies_in_v4(
                        x,
                        (#[trigger] before[k]).0,
                        before[k].1,
                    );
                assert(all[k] == before[k]);
            } else {
                assert(all[all.len() - 1] == all.last());
                assert(plain::lies_in_v4(x, all[all.len() - 1].0, all[all.len() - 1].1));
            }
        }
    }
}

#[verifier::rlimit(40)]
proof fn lemma_networks_v6(a: Seq<(IpAddr, u8)>, x: Ipv6Addr)
    ensures
        plain::among_v6(x, inbound::networks_v6(a)) <==> exists|j: int|
            0 <= j < a.len() && near_v6(#[trigger] a[j], x),
    decreases a.len(),
{
    let all = inbound::networks_v6(a);
    if a.len() > 0 {
        let front = a.drop_last();
        let before = inbound::networks_v6(front);
        lemma_networks_v6(front, x);
        let (ip, len) = a.last();
        assert(a[a.len() - 1] == a.last());
        if let IpAddr::V6(v6) = ip {
            let net = all.last();
            addr::lemma_block_end_fits_v6(v6.bits as int, len as int);
            lemma_same_start(v6.bits as int, x.bits as int, len as int, 128);
            plain::law_networks_v6(x, v6, len);
            plain::law_networks_v6(x, net.0, net.1);
            assert(addr::block_size(len as int, 128) == addr::block_size(net.1 as int, 128));
            assert(plain::lies_in_v6(x, net.0, net.1) <==> near_v6(a.last(), x));
        }
        if plain::among_v6(x, all) {
            let k = choose|k: int|
                0 <= k < all.len() && plain::lies_in_v6(x, (#[trigger] all[k]).0, all[k].1);
            if k < before.len() {
                assert(before[k] == all[k]);
                assert(plain::among_v6(x, before));
                let j = choose|j: int| 0 <= j < front.len() && near_v6(#[trigger] front[j], x);
                assert(a[j] == front[j]);
            } else {
                assert(near_v6(a[a.len() - 1], x));
            }
        }
        if exists|j: int| 0 <= j < a.len() && near_v6(#[trigger] a[j], x) {
            let j = choose|j: int| 0 <= j < a.len() && near_v6(#[trigger] a[j], x);
            if j < front.len() {
                assert(front[j] == a[j]);
                let k = choose|k: int|
                    0 <= k < before.len() && plain::lies_in_v6(
                        x,
                        (#[trigger] before[k]).0,
                        before[k].1,
                    );
                assert(all[k] == before[k]);
            } else {
                assert(all[all.len() - 1] == all.last());
                assert(plain::lies_in_v6(x, all[all.len() - 1].0, all[all.len() - 1].1));
            }
        }
    }
}

/// The local networks are those of the addresses of all interfaces but the one
/// that is left out.
#[verifier::rlimit(40)]
pub proof fn law_local_networks_v4(s: Seq<Interface>, left_out: Option<Seq<char>>, x: Ipv4Addr)
    ensures
        plain::among_v4(x, inbound::local_v4(s, left_out)) <==> attached_v4(s, left_out, x),
    decreases s.len(),
{
    let all = inbound::local_v4(s, left_out);
    if s.len() > 0 {
        let front = s.drop_last();
        let before = inbound::local_v4(front, left_out);
        let here = inbound::networks_v4(s.last().addrs@);
        law_local_networks_v4(front, left_out, x);
        lemma_networks_v4(s.last().addrs@, x);
        let n = s.len() - 1;
        assert(s[n] == s.last());
        if plain::among_v4(x, all) {
            let k = choose|k: int|
                0 <= k < all.len() && plain::lies_in_v4(x, (#[trigger] all[k]).0, all[k].1);
            if k < before.len() {
                assert(before[k] == all[k]);
                assert(attached_v4(front, left_out, x));
                let (i, j) = choose|i: int, j: int|
                    #![trigger front[i], front[i].addrs@[j]]
                    0 <= i < front.len() && left_out != Some(front[i].name@) && 0 <= j
                        < front[i].addrs@.len() && near_v4(front[i].addrs@[j], x);
                assert(s[i] == front[i] && near_v4(s[i].addrs@[j], x));
            } else {
                assert(here[k - before.len()] == all[k]);
                assert(plain::among_v4(x, here));
                let j = choose|j: int|
                    0 <= j < s.last().addrs@.len() && near_v4(#[trigger] s.last().addrs@[j], x);
                assert(near_v4(s[n].addrs@[j], x));
            }
        }
        if attached_v4(s, left_out, x) {
            let (i, j) = choose|i: int, j: int|
                #![trigger s[i], s[i].addrs@[j]]
                0 <= i < s.len() && left_out != Some(s[i].name@) && 0 <= j < s[i].addrs@.len()
                    && near_v4(s[i].addrs@[j], x);
            if i < n {
                assert(front[i] == s[i] && near_v4(front[i].addrs@[j], x));
                assert(plain::among_v4(x, before));
                let k = choose|k: int|
                    0 <= k < before.len() && plain::lies_in_v4(
                        x,
                        (#[trigger] before[k]).0,
                        before[k].1,
                    );
                assert(all[k] == before[k]);
            } else {
                assert(near_v4(s.last().addrs@[j], x));
                let k = choose|k: int|
                    0 <= k < here.len() && plain::lies_in_v4(x, (#[trigger] here[k]).0, here[k].1);
                assert(all[before.len() + k] == here[k]);
            }
        }
    }
}

#[verifier::rlimit(40)]
pub proof fn law_local_networks_v6(s: Seq<Interface>, left_out: Option<Seq<char>>, x: Ipv6Addr)
    ensures
        plain::among_v6(x, inbound::local_v6(s, left_out)) <==> attached_v6(s, left_out, x),
    decreases s.len(),
{
    let all = inbound::local_v6(s, left_out);
    if s.len() > 0 {
        let front = s.drop_last();
        let before = inbound::local_v6(front, left_out);
        let here = inbound::networks_v6(s.last().addrs@);
        law_local_networks_v6(front, left_out, x);
        lemma_networks_v6(s.last().addrs@, x);
        let n = s.len() - 1;
        assert(s[n] == s.last());
        if plain::among_v6(x, all) {
            let k = choose|k: int|
                0 <= k < all.len() && plain::lies_in_v6(x, (#[trigger] all[k]).0, all[k].1);
            if k < before.len() {
                assert(before[k] == all[k]);
                assert(attached_v6(front, left_out, x));
                let (i, j) = choose|i: int, j: int|
                    #![trigger front[i], front[i].addrs@[j]]
                    0 <= i < front.len() && left_out != Some(front[i].name@) && 0 <= j
                        < front[i].addrs@.len() && near_v6(front[i].addrs@[j], x);
                assert(s[i] == front[i] && near_v6(s[i].addrs@[j], x));
            } else {
                assert(here[k - before.len()] == all[k]);
                assert(plain::among_v6(x, here));
                let j = choose|j: int|
                    0 <= j < s.last().addrs@.len() && near_v6(#[trigger] s.last().addrs@[j], x);
                assert(near_v6(s[n].addrs@[j], x));
            }
        }
        if attached_v6(s, left_out, x) {
            let (i, j) = choose|i: int, j: int|
                #![trigger s[i], s[i].addrs@[j]]
                0 <= i < s.len() && left_out != Some(s[i].name@) && 0 <= j < s[i].addrs@.len()
                    && near_v6(s[i].addrs@[j], x);
            if i < n {
                assert(front[i] == s[i] && near_v6(front[i].addrs@[j], x));
                assert(plain::among_v6(x, before));
                let k = choose|k: int|
                    0 <= k < before.len() && plain::lies_in_v6(
                        x,
                        (#[trigger] before[k]).0,
                        before[k].1,
                    );
                assert(all[k] == before[k]);
            } else {
                assert(near_v6(s.last().addrs@[j], x));
                let k = choose|k: int|
                    0 <= k < here.len() && plain::lies_in_v6(x, (#[trigger] here[k]).0, here[k].1);
                assert(all[before.len() + k] == here[k]);
            }
        }
    }
}

} // verus!
