//! The Internet checksum: one's-complement sums of 16-bit big-endian words.
use vstd::prelude::*;

use crate::wire;
use crate::wire::set_be16;

verus! {

/// The sum of the big-endian 16-bit words of `s`; an odd last byte counts as
/// the high byte of a word.
pub open spec fn word_sum(s: Seq<u8>) -> int
    decreases s.len(),
{
    if s.len() == 0 {
        0
    } else {
        word_sum(s.drop_last()) + s.last() * (if s.len() % 2 == 1 {
            256int
        } else {
            1int
        })
    }
}

/// The one's-complement representative of `n` in 16 bits: `n` modulo 65535,
/// where a nonzero multiple of 65535 is represented by 65535.
pub open spec fn ones_fold(n: int) -> int {
    if n <= 0 {
        0
    } else {
        (n - 1) % 65535 + 1
    }
}

/// The bitwise complement of a 16-bit value.
pub open spec fn ones_not(v: int) -> int {
    65535 - v
}

/// `s` without its last byte where the length is odd.
pub open spec fn even_part(s: Seq<u8>) -> Seq<u8> {
    s.subrange(0, s.len() - s.len() % 2)
}

pub proof fn lemma_word_sum_nonneg(s: Seq<u8>)
    ensures
        word_sum(s) >= 0,
    decreases s.len(),
{
    if s.len() > 0 {
        lemma_word_sum_nonneg(s.drop_last());
    }
}

/// Folding may be done at any point of a sum.
pub proof fn lemma_fold_add(a: int, b: int)
    requires
        a >= 0,
        b >= 0,
    ensures
        ones_fold(ones_fold(a) + b) == ones_fold(a + b),
        0 <= ones_fold(a) <= 65535,
{
}

/// One more word at the end of an even prefix.
proof fn lemma_word_sum_step(s: Seq<u8>, i: int)
    requires
        0 <= i,
        i % 2 == 0,
        i + 1 < s.len(),
    ensures
        word_sum(s.subrange(0, i + 2)) == word_sum(s.subrange(0, i)) + wire::be16(s, i),
{
    let a = s.subrange(0, i + 2);
    let b = s.subrange(0, i + 1);
    assert(a.drop_last() =~= b);
    assert(b.drop_last() =~= s.subrange(0, i));
    reveal_with_fuel(word_sum, 3);
}

/// Sums `b` onto the folded sum `sum`, two bytes at a time, up to the last
/// whole word.
fn sum_words(b: &[u8], initial: u16) -> (sum: u16)
    ensures
        sum == ones_fold(initial + word_sum(even_part(b@))),
{
    let mut sum: u16 = initial;
    let mut i: usize = 0;
    assert(b@.subrange(0, 0) =~= Seq::<u8>::empty());
    while i + 1 < b.len()
        invariant
            i <= b.len(),
            i % 2 == 0,
            sum == ones_fold(initial + word_sum(b@.subrange(0, i as int))),
        decreases b.len() - i,
    {
        let word: u16 = crate::wire::get_be16(b, i);
        proof {
            lemma_word_sum_step(b@, i as int);
            lemma_word_sum_nonneg(b@.subrange(0, i as int));
            lemma_fold_add(initial + word_sum(b@.subrange(0, i as int)), word as int);
        }
        sum = checksum_combine(sum, word);
        i += 2;
    }
    sum
}

/// The folded, uncomplemented sum of `data` on top of `initial`; callers
/// complement it to get a checksum.
pub fn checksum(data: &[u8], initial: u16) -> (sum: u16)
    ensures
        sum == ones_fold(initial + word_sum(data@)),
{
    let mut sum: u16 = sum_words(data, initial);
    if data.len() % 2 == 1 {
        let last: u16 = (data[data.len() - 1] as u16) * 256;
        proof {
            assert(data@.drop_last() =~= even_part(data@));
            lemma_word_sum_nonneg(even_part(data@));
            lemma_fold_add(initial + word_sum(even_part(data@)), last as int);
        }
        sum = checksum_combine(sum, last);
    } else {
        assert(even_part(data@) =~= data@);
    }
    sum
}

/// The folded sum of two folded sums.
pub fn checksum_combine(a: u16, b: u16) -> (sum: u16)
    ensures
        sum == ones_fold(a + b),
{
    let mut sum: u32 = a as u32 + b as u32;
    while sum / 65536 != 0
        invariant
            ones_fold(sum as int) == ones_fold(a + b),
            sum <= 0x1fffe,
        decreases sum,
    {
        sum = (sum % 65536) + (sum / 65536);
    }
    sum as u16
}

/// The folded sum of the pseudo header that TCP, UDP and ICMPv6 add to their
/// checksums: both addresses, the protocol and the length of what follows.
pub fn pseudo_header_checksum(protocol: u8, src: &[u8], dst: &[u8], length: u16) -> (sum: u16)
    ensures
        sum == pseudo_sum(protocol as int, src@, dst@, length as int),
{
    let a: u16 = sum_words(src, 0);
    let b: u16 = sum_words(dst, a);
    let c: u16 = checksum_combine(b, protocol as u16);
    proof {
        lemma_word_sum_nonneg(even_part(src@));
        lemma_word_sum_nonneg(even_part(dst@));
        lemma_fold_add(word_sum(even_part(src@)), word_sum(even_part(dst@)));
        lemma_fold_add(
            word_sum(even_part(src@)) + word_sum(even_part(dst@)),
            protocol as int,
        );
        lemma_fold_add(
            word_sum(even_part(src@)) + word_sum(even_part(dst@)) + protocol,
            length as int,
        );
    }
    checksum_combine(c, length)
}

/// The folded sum of the pseudo header.
pub open spec fn pseudo_sum(protocol: int, src: Seq<u8>, dst: Seq<u8>, length: int) -> int {
    ones_fold(word_sum(even_part(src)) + word_sum(even_part(dst)) + protocol + length)
}

/// Complements a folded sum.
pub fn complement(sum: u16) -> (r: u16)
    ensures
        r == ones_not(sum as int),
{
    65535 - sum
}

/// The sum of two adjacent pieces, the first of even length.
pub proof fn lemma_word_sum_concat(a: Seq<u8>, b: Seq<u8>)
    requires
        a.len() % 2 == 0,
    ensures
        word_sum(a + b) == word_sum(a) + word_sum(b),
    decreases b.len(),
{
    if b.len() == 0 {
        assert(a + b =~= a);
    } else {
        assert((a + b).drop_last() =~= a + b.drop_last());
        lemma_word_sum_concat(a, b.drop_last());
    }
}

/// Writing a word at an even place changes the sum by the difference of the
/// words.
pub proof fn lemma_word_sum_put16(s: Seq<u8>, i: int, v: int)
    requires
        0 <= i,
        i + 1 < s.len(),
        i % 2 == 0,
        0 <= v < 65536,
    ensures
        word_sum(wire::put16(s, i, v)) == word_sum(s) - wire::be16(s, i) + v,
{
    let t = wire::put16(s, i, v);
    let head = s.subrange(0, i);
    let tail = s.subrange(i + 2, s.len() as int);
    assert(s =~= s.subrange(0, i + 2) + tail);
    assert(t =~= t.subrange(0, i + 2) + tail);
    lemma_word_sum_concat(s.subrange(0, i + 2), tail);
    lemma_word_sum_concat(t.subrange(0, i + 2), tail);
    lemma_word_sum_step(s, i);
    lemma_word_sum_step(t, i);
    assert(t.subrange(0, i) =~= head);
}

/// A field that holds the complement of the folded sum of everything else
/// makes the folded sum of the whole 65535, which is how a receiver tells a
/// valid checksum.
pub proof fn law_complement_makes_sum_valid(n: int)
    requires
        n >= 0,
    ensures
        ones_fold(n + ones_not(ones_fold(n))) == 65535,
        0 <= ones_not(ones_fold(n)) <= 65535,
{
}

/// The Internet checksum of `data`.
pub open spec fn internet_sum(data: Seq<u8>) -> int {
    ones_not(ones_fold(word_sum(data)))
}

pub fn internet_checksum(data: &[u8]) -> (r: u16)
    ensures
        r == internet_sum(data@),
{
    complement(checksum(data, 0))
}

/// The checksum of `data` together with the pseudo header of `src`, `dst`,
/// the protocol and the length, of which the header has room for a number
/// below `limit`.
pub open spec fn pseudo_checksum(
    src: Seq<u8>,
    dst: Seq<u8>,
    proto: int,
    data: Seq<u8>,
    limit: int,
) -> int {
    ones_not(
        ones_fold(
            word_sum(src) + word_sum(dst) + proto + data.len() as int % limit + word_sum(data),
        ),
    )
}

/// The length field of the IPv4 pseudo header has 16 bits.
pub open spec fn limit_v4() -> int {
    0x1_0000
}

/// The length field of the IPv6 pseudo header has 32 bits.
pub open spec fn limit_v6() -> int {
    0x1_0000_0000
}

/// The checksum of `data` with an IPv4 pseudo header.
pub fn pseudo_checksum_v4(src: &[u8], dst: &[u8], proto: u8, data: &[u8]) -> (r: u16)
    ensures
        r == pseudo_checksum(src@, dst@, proto as int, data@, limit_v4()),
{
    let a: u16 = checksum(src, 0);
    let b: u16 = checksum_combine(a, checksum(dst, 0));
    let c: u16 = checksum_combine(b, proto as u16);
    let d: u16 = checksum_combine(c, (data.len() % 0x1_0000) as u16);
    let e: u16 = checksum(data, d);
    proof {
        lemma_word_sum_nonneg(src@);
        lemma_word_sum_nonneg(dst@);
        lemma_word_sum_nonneg(data@);
        let s = word_sum(src@);
        let t = word_sum(dst@);
        let n = data@.len() as int % 0x1_0000;
        lemma_fold_add(t, ones_fold(s));
        lemma_fold_add(s, t);
        lemma_fold_add(s + t, proto as int);
        lemma_fold_add(s + t + proto, n);
        lemma_fold_add(s + t + proto + n, word_sum(data@));
    }
    complement(e)
}

/// The checksum of `data` with an IPv6 pseudo header.
pub fn pseudo_checksum_v6(src: &[u8], dst: &[u8], proto: u8, data: &[u8]) -> (r: u16)
    ensures
        r == pseudo_checksum(src@, dst@, proto as int, data@, limit_v6()),
{
    let len: u64 = data.len() as u64 % 0x1_0000_0000;
    let a: u16 = checksum(src, 0);
    let b: u16 = checksum_combine(a, checksum(dst, 0));
    let c: u16 = checksum_combine(b, proto as u16);
    let d: u16 = checksum_combine(c, (len / 0x1_0000) as u16);
    let e: u16 = checksum_combine(d, (len % 0x1_0000) as u16);
    let f: u16 = checksum(data, e);
    proof {
        lemma_word_sum_nonneg(src@);
        lemma_word_sum_nonneg(dst@);
        lemma_word_sum_nonneg(data@);
        let s = word_sum(src@);
        let t = word_sum(dst@);
        let hi = len as int / 0x1_0000;
        let lo = len as int % 0x1_0000;
        lemma_fold_add(t, ones_fold(s));
        lemma_fold_add(s, t);
        lemma_fold_add(s + t, proto as int);
        lemma_fold_add(s + t + proto, hi);
        lemma_fold_add(s + t + proto + hi, lo);
        lemma_fold_add(s + t + proto + hi + lo, word_sum(data@));
        lemma_fold_high_half(s + t + proto + word_sum(data@), hi, lo);
    }
    complement(f)
}

/// The upper half of a 32-bit number weighs as much as the lower one.
proof fn lemma_fold_high_half(n: int, hi: int, lo: int)
    requires
        n >= 0,
        hi >= 0,
        lo >= 0,
    ensures
        ones_fold(n + hi + lo) == ones_fold(n + hi * 0x1_0000 + lo),
{
}

/// The checksum with the IPv4 pseudo header of two addresses.
pub fn checksum_with_pseudo_v4(src: &[u8; 4], dst: &[u8; 4], proto: u8, data: &[u8]) -> (r: u16)
    ensures
        r == pseudo_checksum(src@, dst@, proto as int, data@, limit_v4()),
{
    pseudo_checksum_v4(src.as_slice(), dst.as_slice(), proto, data)
}

/// The checksum with the IPv6 pseudo header of two addresses.
pub fn checksum_with_pseudo_v6(src: &[u8; 16], dst: &[u8; 16], proto: u8, data: &[u8]) -> (r: u16)
    ensures
        r == pseudo_checksum(src@, dst@, proto as int, data@, limit_v6()),
{
    pseudo_checksum_v6(src.as_slice(), dst.as_slice(), proto, data)
}

pub fn udp_checksum_v4(src: &[u8; 4], dst: &[u8; 4], udp: &[u8]) -> (r: u16)
    ensures
        r == pseudo_checksum(src@, dst@, 17, udp@, limit_v4()),
{
    checksum_with_pseudo_v4(src, dst, 17, udp)
}

pub fn udp_checksum_v6(src: &[u8; 16], dst: &[u8; 16], udp: &[u8]) -> (r: u16)
    ensures
        r == pseudo_checksum(src@, dst@, 17, udp@, limit_v6()),
{
    checksum_with_pseudo_v6(src, dst, 17, udp)
}

/// The length of an IPv4 header, options and all.
pub open spec fn header_len(pkt: Seq<u8>) -> int {
    (pkt[0] % 16) * 4
}

/// An IPv4 packet with its header checksum filled in, over the whole header;
/// one with a header that cannot be is left alone.
pub open spec fn ipv4_rechecked(pkt: Seq<u8>) -> Seq<u8> {
    if pkt.len() < 20 || header_len(pkt) < 20 || pkt.len() < header_len(pkt) {
        pkt
    } else {
        let cleared = wire::put16(pkt, 10, 0);
        wire::put16(cleared, 10, internet_sum(cleared.subrange(0, header_len(pkt))))
    }
}

/// Fills in the header checksum of an IPv4 packet.
pub fn recompute_ipv4_checksum(pkt: &mut [u8])
    ensures
        final(pkt)@ == ipv4_rechecked(old(pkt)@),
{
    if pkt.len() < 20 {
        return;
    }
    let ihl: usize = (pkt[0] % 16) as usize * 4;
    if ihl < 20 || pkt.len() < ihl {
        return;
    }
    set_be16(pkt, 10, 0);
    let sum: u16 = internet_checksum(&pkt[0..ihl]);
    set_be16(pkt, 10, sum);
}

/// A packet with the checksum field `field` bytes into the transport header
/// at `at` filled in. The addresses lie at `src` and, `n` bytes each, behind.
pub open spec fn transport_rechecked(
    pkt: Seq<u8>,
    at: int,
    field: int,
    proto: int,
    src: int,
    n: int,
    limit: int,
) -> Seq<u8> {
    let cleared = wire::put16(pkt, at + field, 0);
    wire::put16(
        cleared,
        at + field,
        pseudo_checksum(
            pkt.subrange(src, src + n),
            pkt.subrange(src + n, src + 2 * n),
            proto,
            cleared.subrange(at, pkt.len() as int),
            limit,
        ),
    )
}

/// An IPv4 packet with its TCP checksum filled in, where it has one.
pub open spec fn tcp_rechecked_v4(pkt: Seq<u8>, ihl: int) -> Seq<u8> {
    if pkt.len() < ihl + 18 {
        pkt
    } else {
        transport_rechecked(pkt, ihl, 16, 6, 12, 4, limit_v4())
    }
}

/// An IPv6 packet with its TCP checksum filled in, where it has one.
pub open spec fn tcp_rechecked_v6(pkt: Seq<u8>, tcp_off: int) -> Seq<u8> {
    if pkt.len() < tcp_off + 18 || tcp_off < 40 {
        pkt
    } else {
        transport_rechecked(pkt, tcp_off, 16, 6, 8, 16, limit_v6())
    }
}

/// An IPv6 packet with its ICMPv6 checksum filled in, where it has one.
pub open spec fn message6_rechecked(pkt: Seq<u8>) -> Seq<u8> {
    if pkt.len() < 48 {
        pkt
    } else {
        transport_rechecked(pkt, 40, 2, 58, 8, 16, limit_v6())
    }
}

/// Fills in the TCP checksum of an IPv4 packet with a header of `ihl` bytes.
pub fn recompute_tcp_checksum_v4(pkt: &mut [u8], ihl: usize)
    requires
        ihl + 18 <= old(pkt).len() ==> old(pkt).len() >= 20,
    ensures
        final(pkt)@ == tcp_rechecked_v4(old(pkt)@, ihl as int),
{
    if pkt.len() < 18 || pkt.len() - 18 < ihl {
        return;
    }
    let len: usize = pkt.len();
    let src: Vec<u8> = crate::wire::sub_vec(pkt, 12, 16);
    let dst: Vec<u8> = crate::wire::sub_vec(pkt, 16, 20);
    set_be16(pkt, ihl + 16, 0);
    let sum: u16 = pseudo_checksum_v4(src.as_slice(), dst.as_slice(), 6, &pkt[ihl..len]);
    set_be16(pkt, ihl + 16, sum);
}

/// Fills in the TCP checksum of an IPv6 packet whose TCP header starts at
/// `tcp_off`, behind all extension headers.
pub fn recompute_tcp_checksum_v6(pkt: &mut [u8], tcp_off: usize)
    ensures
        final(pkt)@ == tcp_rechecked_v6(old(pkt)@, tcp_off as int),
{
    if pkt.len() < 18 || pkt.len() - 18 < tcp_off || tcp_off < 40 {
        return;
    }
    let len: usize = pkt.len();
    let src: Vec<u8> = crate::wire::sub_vec(pkt, 8, 24);
    let dst: Vec<u8> = crate::wire::sub_vec(pkt, 24, 40);
    set_be16(pkt, tcp_off + 16, 0);
    let sum: u16 = pseudo_checksum_v6(src.as_slice(), dst.as_slice(), 6, &pkt[tcp_off..len]);
    set_be16(pkt, tcp_off + 16, sum);
}

/// Fills in the checksum of an ICMPv6 message right behind the IPv6 header.
pub fn recompute_icmpv6_checksum(pkt: &mut [u8])
    ensures
        final(pkt)@ == message6_rechecked(old(pkt)@),
{
    if pkt.len() < 48 {
        return;
    }
    let len: usize = pkt.len();
    let src: Vec<u8> = crate::wire::sub_vec(pkt, 8, 24);
    let dst: Vec<u8> = crate::wire::sub_vec(pkt, 24, 40);
    set_be16(pkt, 42, 0);
    let sum: u16 = pseudo_checksum_v6(src.as_slice(), dst.as_slice(), 58, &pkt[40..len]);
    set_be16(pkt, 42, sum);
}

/// The checksum of an IPv4 header whose checksum was filled in is zero, which
/// is how a receiver tells that it is valid. It covers the options too.
pub proof fn law_rechecked_ipv4_header_valid(pkt: Seq<u8>)
    requires
        pkt.len() >= 20,
        20 <= header_len(pkt) <= pkt.len(),
    ensures
        internet_sum(ipv4_rechecked(pkt).subrange(0, header_len(pkt))) == 0,
        header_len(ipv4_rechecked(pkt)) == header_len(pkt),
        forall|k: int|
            0 <= k < pkt.len() && k != 10 && k != 11 ==> #[trigger] ipv4_rechecked(pkt)[k] == pkt[k],
{
    let n = header_len(pkt);
    let cleared = wire::put16(pkt, 10, 0);
    let head = cleared.subrange(0, n);
    lemma_word_sum_nonneg(head);
    law_complement_makes_sum_valid(word_sum(head));
    lemma_word_sum_put16(head, 10, internet_sum(head));
    assert(wire::be16(head, 10) == 0);
    assert(ipv4_rechecked(pkt).subrange(0, n) =~= wire::put16(head, 10, internet_sum(head)));
}

/// The checksum over the pseudo header and a transport part whose checksum was
/// filled in is zero, which is how a receiver tells that it is valid.
pub proof fn law_rechecked_transport_valid(
    pkt: Seq<u8>,
    at: int,
    field: int,
    proto: int,
    src: int,
    n: int,
    limit: int,
)
    requires
        0 <= src,
        0 <= n,
        src + 2 * n <= at,
        0 <= field,
        field % 2 == 0,
        at + field + 1 < pkt.len(),
        proto >= 0,
        limit > 0,
    ensures
        ({
            let done = transport_rechecked(pkt, at, field, proto, src, n, limit);
            &&& pseudo_checksum(
                done.subrange(src, src + n),
                done.subrange(src + n, src + 2 * n),
                proto,
                done.subrange(at, done.len() as int),
                limit,
            ) == 0
            &&& forall|k: int|
                0 <= k < pkt.len() && k != at + field && k != at + field + 1 ==> #[trigger] done[k]
                    == pkt[k]
        }),
{
    let done = transport_rechecked(pkt, at, field, proto, src, n, limit);
    let cleared = wire::put16(pkt, at + field, 0);
    let a = pkt.subrange(src, src + n);
    let b = pkt.subrange(src + n, src + 2 * n);
    let tail = cleared.subrange(at, pkt.len() as int);
    let v = pseudo_checksum(a, b, proto, tail, limit);
    assert(done.subrange(src, src + n) =~= a);
    assert(done.subrange(src + n, src + 2 * n) =~= b);
    assert(done.subrange(at, done.len() as int) =~= wire::put16(tail, field, v));
    assert(wire::be16(tail, field) == 0);
    lemma_word_sum_nonneg(a);
    lemma_word_sum_nonneg(b);
    lemma_word_sum_nonneg(tail);
    let rest = word_sum(a) + word_sum(b) + proto + tail.len() as int % limit;
    vstd::arithmetic::div_mod::lemma_mod_bound(tail.len() as int, limit);
    law_complement_makes_sum_valid(rest + word_sum(tail));
    lemma_word_sum_put16(tail, field, v);
    assert(rest + word_sum(wire::put16(tail, field, v)) == rest + word_sum(tail) + v);
}

} // verus!
