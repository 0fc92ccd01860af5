//! Packets read byte by byte: the plain meaning of fields, sums and addresses,
//! which the laws of the packet path are stated in.
use vstd::arithmetic::div_mod;
use vstd::arithmetic::power2;
use vstd::prelude::*;

use crate::addr;
use crate::addr::{Ipv4Addr, Ipv6Addr};
use crate::checksum;
use crate::wire;

verus! {

/// The number in two bytes, the high one first.
pub open spec fn n16(b: Seq<u8>, i: int) -> int {
    256 * b[i] + b[i + 1]
}

/// The number in four bytes, the highest first.
pub open spec fn n32(b: Seq<u8>, i: int) -> int {
    65536 * n16(b, i) + n16(b, i + 2)
}

/// The number in eight bytes, the highest first.
pub open spec fn n64(b: Seq<u8>, i: int) -> int {
    0x1_0000_0000 * n32(b, i) + n32(b, i + 4)
}

/// The number in sixteen bytes, the highest first.
pub open spec fn n128(b: Seq<u8>, i: int) -> int {
    0x1_0000_0000_0000_0000 * n64(b, i) + n64(b, i + 8)
}

/// The four bytes are this address.
pub open spec fn is_v4(b: Seq<u8>, i: int, a: Ipv4Addr) -> bool {
    n32(b, i) == a.bits
}

/// The sixteen bytes are this address.
pub open spec fn is_v6(b: Seq<u8>, i: int, a: Ipv6Addr) -> bool {
    n128(b, i) == a.bits
}

/// The sum of the 16-bit numbers of the bytes, two by two from the front; an
/// odd last byte is followed by a zero.
pub open spec fn total(b: Seq<u8>) -> int
    decreases b.len(),
{
    if b.len() == 0 {
        0
    } else if b.len() == 1 {
        256 * b[0]
    } else {
        n16(b, 0) + total(b.subrange(2, b.len() as int))
    }
}

/// A receiver takes a sum of 16-bit numbers for valid: it is a multiple of
/// 65535, but not zero.
pub open spec fn balanced(n: int) -> bool {
    n > 0 && n % 65535 == 0
}

/// A receiver takes the checksum of a transport part for valid, given the
/// addresses and the protocol.
pub open spec fn sound(src: Seq<u8>, dst: Seq<u8>, proto: int, data: Seq<u8>) -> bool {
    balanced(total(src) + total(dst) + proto + data.len() + total(data))
}

/// The transport part of an IPv4 packet from `at` on has a valid checksum.
pub open spec fn sound_v4(pkt: Seq<u8>, at: int, proto: int) -> bool {
    sound(
        pkt.subrange(12, 16),
        pkt.subrange(16, 20),
        proto,
        pkt.subrange(at, pkt.len() as int),
    )
}

/// The transport part of an IPv6 packet from `at` on has a valid checksum.
pub open spec fn sound_v6(pkt: Seq<u8>, at: int, proto: int) -> bool {
    sound(
        pkt.subrange(8, 24),
        pkt.subrange(24, 40),
        proto,
        pkt.subrange(at, pkt.len() as int),
    )
}

/// How long the header of an IPv4 packet says it is, in bytes.
pub open spec fn head_len(pkt: Seq<u8>) -> int {
    4 * (pkt[0] % 16)
}

/// Traffic goes on to the IPv4 address in these bytes: the first octet is
/// neither 0 nor that of a multicast address, and they are not all ones.
pub open spec fn reachable_v4(b: Seq<u8>, i: int) -> bool {
    &&& b[i] != 0
    &&& b[i] < 224 || b[i] > 239
    &&& !(b[i] == 255 && b[i + 1] == 255 && b[i + 2] == 255 && b[i + 3] == 255)
}

/// Traffic goes on to the IPv6 address in these bytes: it is none of `::`,
/// `::1`, link-local (`fe80` to `febf`) and multicast (`ff..`).
pub open spec fn reachable_v6(b: Seq<u8>, i: int) -> bool {
    &&& n128(b, i) > 1
    &&& b[i] != 255
    &&& !(b[i] == 0xfe && 0x80 <= b[i + 1] <= 0xbf)
}

pub proof fn lemma_n16(b: Seq<u8>, i: int)
    ensures
        n16(b, i) == wire::be16(b, i),
        0 <= n16(b, i) <= 65535,
{
}

pub proof fn lemma_n32(b: Seq<u8>, i: int)
    ensures
        n32(b, i) == wire::be32(b, i),
        0 <= n32(b, i) <= u32::MAX,
{
}

pub proof fn lemma_n128(b: Seq<u8>, i: int)
    ensures
        n128(b, i) == wire::be128(b, i),
        0 <= n128(b, i) <= u128::MAX,
{
}

pub proof fn lemma_total(b: Seq<u8>)
    ensures
        total(b) == checksum::word_sum(b),
        total(b) >= 0,
    decreases b.len(),
{
    reveal_with_fuel(checksum::word_sum, 3);
    if b.len() == 1 {
        assert(b.drop_last() =~= Seq::<u8>::empty());
    } else if b.len() >= 2 {
        let head = b.subrange(0, 2);
        let rest = b.subrange(2, b.len() as int);
        lemma_total(rest);
        assert(b =~= head + rest);
        checksum::lemma_word_sum_concat(head, rest);
        assert(head.drop_last() =~= seq![b[0]]);
        assert(head.drop_last().drop_last() =~= Seq::<u8>::empty());
        assert(checksum::word_sum(head) == n16(b, 0));
    }
}

pub proof fn lemma_balanced(n: int)
    requires
        n >= 0,
    ensures
        balanced(n) <==> checksum::ones_fold(n) == 65535,
        balanced(n) <==> checksum::ones_not(checksum::ones_fold(n)) == 0,
{
}

pub proof fn lemma_header_sound(b: Seq<u8>)
    ensures
        balanced(total(b)) <==> checksum::internet_sum(b) == 0,
{
    lemma_total(b);
    lemma_balanced(total(b));
}

pub proof fn lemma_sound(src: Seq<u8>, dst: Seq<u8>, proto: int, data: Seq<u8>, limit: int)
    requires
        data.len() < limit,
        proto >= 0,
    ensures
        sound(src, dst, proto, data) <==> checksum::pseudo_checksum(src, dst, proto, data, limit)
            == 0,
{
    lemma_total(src);
    lemma_total(dst);
    lemma_total(data);
    vstd::arithmetic::div_mod::lemma_small_mod(data.len(), limit as nat);
    lemma_balanced(total(src) + total(dst) + proto + data.len() + total(data));
}

/// The addresses that traffic goes on to, told by their octets.
pub proof fn law_reachable_v4(b: Seq<u8>, i: int, a: Ipv4Addr)
    requires
        is_v4(b, i, a),
    ensures
        addr::global_unicast_v4(a) <==> reachable_v4(b, i),
{
    assert(a.bits / 0x100_0000 == b[i]);
}

/// The addresses that traffic goes on to, told by their octets.
pub proof fn law_reachable_v6(b: Seq<u8>, i: int, a: Ipv6Addr)
    requires
        is_v6(b, i, a),
    ensures
        addr::global_unicast_v6(a) <==> reachable_v6(b, i),
{
    let first = a.bits as int / 0x1_0000_0000_0000_0000_0000_0000_0000;
    assert(first == n16(b, i)) by {
        lemma_first_group(b, i);
    }
    assert(first / 0x100 == b[i]);
    assert(first / 0x40 == b[i] * 4 + b[i + 1] / 64);
}

proof fn lemma_first_group(b: Seq<u8>, i: int)
    ensures
        n128(b, i) / 0x1_0000_0000_0000_0000_0000_0000_0000 == n16(b, i),
{
    let low = 0x1_0000_0000_0000_0000_0000_0000 * n16(b, i + 2) + 0x1_0000_0000_0000_0000 * n32(
        b,
        i + 4,
    ) + n64(b, i + 8);
    assert(n128(b, i) == 0x1_0000_0000_0000_0000_0000_0000_0000 * n16(b, i) + low);
    assert(0 <= low < 0x1_0000_0000_0000_0000_0000_0000_0000);
}

/// The bit of `x` that counts `2^k`.
pub open spec fn bit(x: int, k: int) -> int {
    x / (power2::pow2(k as nat) as int) % 2
}

/// The first `len` of the `bits` bits of two addresses agree.
pub open spec fn begin_alike(a: int, b: int, len: int, bits: int) -> bool {
    forall|k: int| bits - len <= k < bits && 0 <= k ==> #[trigger] bit(a, k) == bit(b, k)
}

/// Two addresses lie in one prefix exactly where their first bits, as many as
/// the prefix length says, agree.
pub proof fn law_prefix_is_first_bits(a: int, b: int, len: int, bits: int)
    requires
        0 <= len,
        0 <= bits,
        0 <= a < power2::pow2(bits as nat),
        0 <= b < power2::pow2(bits as nat),
    ensures
        addr::same_block(a, b, len, bits) <==> begin_alike(a, b, len, bits),
    decreases len,
{
    if len == 0 {
        div_mod::lemma_basic_div(a, power2::pow2(bits as nat) as int);
        div_mod::lemma_basic_div(b, power2::pow2(bits as nat) as int);
    } else {
        law_prefix_is_first_bits(a, b, len - 1, bits);
        if len <= bits {
            let k = bits - len;
            let h = power2::pow2(k as nat) as int;
            power2::lemma_pow2_pos(k as nat);
            power2::lemma_pow2_unfold((k + 1) as nat);
            div_mod::lemma_div_denominator(a, h, 2);
            div_mod::lemma_div_denominator(b, h, 2);
            assert(addr::block_size(len, bits) == h);
            assert(addr::block_size(len - 1, bits) == h * 2);
            assert(addr::same_block(a, b, len, bits) <==> addr::same_block(a, b, len - 1, bits)
                && bit(a, k) == bit(b, k));
            if begin_alike(a, b, len - 1, bits) && bit(a, k) == bit(b, k) {
                assert forall|j: int| bits - len <= j < bits && 0 <= j implies #[trigger] bit(a, j)
                    == bit(b, j) by {
                    if j > k {
                        assert(bits - (len - 1) <= j);
                    }
                }
            }
        } else {
            assert(addr::block_size(len, bits) == addr::block_size(len - 1, bits));
            if begin_alike(a, b, len - 1, bits) {
                assert forall|j: int| bits - len <= j < bits && 0 <= j implies #[trigger] bit(a, j)
                    == bit(b, j) by {
                    assert(bits - (len - 1) <= j);
                }
            }
        }
    }
}

/// The IPv4 address lies in the network.
pub open spec fn lies_in_v4(a: Ipv4Addr, net: Ipv4Addr, len: u8) -> bool {
    begin_alike(a.bits as int, net.bits as int, len as int, 32)
}

/// The IPv6 address lies in the network.
pub open spec fn lies_in_v6(a: Ipv6Addr, net: Ipv6Addr, len: u8) -> bool {
    begin_alike(a.bits as int, net.bits as int, len as int, 128)
}

/// An address is found in a network exactly where it begins like it.
pub proof fn law_networks_v4(a: Ipv4Addr, net: Ipv4Addr, len: u8)
    ensures
        addr::in_prefix_v4(a, net, len as int) <==> lies_in_v4(a, net, len),
{
    power2::lemma2_to64();
    law_prefix_is_first_bits(a.bits as int, net.bits as int, len as int, 32);
}

pub proof fn law_networks_v6(a: Ipv6Addr, net: Ipv6Addr, len: u8)
    ensures
        addr::in_prefix_v6(a, net, len as int) <==> lies_in_v6(a, net, len),
{
    addr::lemma_pow2_127();
    law_prefix_is_first_bits(a.bits as int, net.bits as int, len as int, 128);
}

/// One of the networks holds the address.
pub open spec fn among_v4(a: Ipv4Addr, nets: Seq<(Ipv4Addr, u8)>) -> bool {
    exists|k: int| 0 <= k < nets.len() && lies_in_v4(a, (#[trigger] nets[k]).0, nets[k].1)
}

pub open spec fn among_v6(a: Ipv6Addr, nets: Seq<(Ipv6Addr, u8)>) -> bool {
    exists|k: int| 0 <= k < nets.len() && lies_in_v6(a, (#[trigger] nets[k]).0, nets[k].1)
}

pub proof fn law_among_networks_v4(a: Ipv4Addr, nets: Seq<(Ipv4Addr, u8)>)
    ensures
        addr::in_subnets_v4(a, nets) <==> among_v4(a, nets),
{
    assert forall|k: int| 0 <= k < nets.len() implies addr::in_prefix_v4(
        a,
        (#[trigger] nets[k]).0,
        nets[k].1 as int,
    ) == lies_in_v4(a, nets[k].0, nets[k].1) by {
        law_networks_v4(a, nets[k].0, nets[k].1);
    }
}

pub proof fn law_among_networks_v6(a: Ipv6Addr, nets: Seq<(Ipv6Addr, u8)>)
    ensures
        addr::in_subnets_v6(a, nets) <==> among_v6(a, nets),
{
    assert forall|k: int| 0 <= k < nets.len() implies addr::in_prefix_v6(
        a,
        (#[trigger] nets[k]).0,
        nets[k].1 as int,
    ) == lies_in_v6(a, nets[k].0, nets[k].1) by {
        law_networks_v6(a, nets[k].0, nets[k].1);
    }
}

} // verus!
