//! Fields inside byte buffers: big- and little-endian integers, and copies of
//! one buffer into another.
use vstd::prelude::*;

verus! {

/// The big-endian 16-bit field at `i`.
pub open spec fn be16(s: Seq<u8>, i: int) -> int {
    s[i] * 256 + s[i + 1]
}

/// The big-endian 32-bit field at `i`.
pub open spec fn be32(s: Seq<u8>, i: int) -> int {
    s[i] * 0x100_0000 + s[i + 1] * 0x1_0000 + s[i + 2] * 0x100 + s[i + 3]
}

/// The big-endian 128-bit field at `i`.
pub open spec fn be128(s: Seq<u8>, i: int) -> int {
    be32(s, i) * 0x1_0000_0000_0000_0000_0000_0000 + be32(s, i + 4) * 0x1_0000_0000_0000_0000
        + be32(s, i + 8) * 0x1_0000_0000 + be32(s, i + 12)
}

/// The 16-bit field at `i`: the low byte first, or last.
pub open spec fn native16(s: Seq<u8>, i: int, little: bool) -> int {
    if little {
        s[i] + s[i + 1] * 256
    } else {
        s[i] * 256 + s[i + 1]
    }
}

/// `s` with the 16-bit value `v` written big-endian at `i`.
pub open spec fn put16(s: Seq<u8>, i: int, v: int) -> Seq<u8> {
    s.update(i, (v / 256) as u8).update(i + 1, (v % 256) as u8)
}

/// `s` with the 32-bit value `v` written big-endian at `i`.
pub open spec fn put32(s: Seq<u8>, i: int, v: int) -> Seq<u8> {
    put16(put16(s, i, v / 0x1_0000), i + 2, v % 0x1_0000)
}

/// `s` with the 128-bit value `v` written big-endian at `i`.
#[verifier::opaque]
pub open spec fn put128(s: Seq<u8>, i: int, v: int) -> Seq<u8> {
    let hi = v / 0x1_0000_0000_0000_0000;
    let lo = v % 0x1_0000_0000_0000_0000;
    put32(
        put32(
            put32(put32(s, i, hi / 0x1_0000_0000), i + 4, hi % 0x1_0000_0000),
            i + 8,
            lo / 0x1_0000_0000,
        ),
        i + 12,
        lo % 0x1_0000_0000,
    )
}

/// `s` with the 16-bit value `v` written at `i`, the low byte first, or last.
pub open spec fn put_native16(s: Seq<u8>, i: int, v: int, little: bool) -> Seq<u8> {
    if little {
        s.update(i, (v % 256) as u8).update(i + 1, (v / 256) as u8)
    } else {
        put16(s, i, v)
    }
}

/// `s` with the bytes from `at` on replaced by those of `t`.
pub open spec fn splice(s: Seq<u8>, at: int, t: Seq<u8>) -> Seq<u8> {
    Seq::new(
        s.len(),
        |k: int|
            if at <= k < at + t.len() {
                t[k - at]
            } else {
                s[k]
            },
    )
}

/// `n` zero bytes.
pub open spec fn zeros(n: int) -> Seq<u8> {
    Seq::new(n as nat, |k: int| 0u8)
}

/// The contents of each buffer of a list.
pub open spec fn views(bufs: Seq<Vec<u8>>) -> Seq<Seq<u8>> {
    Seq::new(bufs.len(), |k: int| bufs[k]@)
}

/// A 16-bit field that was written is read back, and nothing else changes.
pub proof fn lemma_put16(s: Seq<u8>, i: int, v: int)
    requires
        0 <= i,
        i + 2 <= s.len(),
        0 <= v < 65536,
    ensures
        be16(put16(s, i, v), i) == v,
        put16(s, i, v).len() == s.len(),
        forall|k: int|
            0 <= k < s.len() && !(i <= k < i + 2) ==> #[trigger] put16(s, i, v)[k] == s[k],
{
}

/// A 32-bit field that was written is read back, and nothing else changes.
pub proof fn lemma_put32(s: Seq<u8>, i: int, v: int)
    requires
        0 <= i,
        i + 4 <= s.len(),
        0 <= v <= u32::MAX,
    ensures
        be32(put32(s, i, v), i) == v,
        put32(s, i, v).len() == s.len(),
        forall|k: int|
            0 <= k < s.len() && !(i <= k < i + 4) ==> #[trigger] put32(s, i, v)[k] == s[k],
{
}

/// A 128-bit field that was written is read back, and nothing else changes.
pub proof fn lemma_put128(s: Seq<u8>, i: int, v: int)
    requires
        0 <= i,
        i + 16 <= s.len(),
        0 <= v <= u128::MAX,
    ensures
        be128(put128(s, i, v), i) == v,
        put128(s, i, v).len() == s.len(),
        forall|k: int|
            0 <= k < s.len() && !(i <= k < i + 16) ==> #[trigger] put128(s, i, v)[k] == s[k],
{
    reveal(put128);
    let hi = v / 0x1_0000_0000_0000_0000;
    let lo = v % 0x1_0000_0000_0000_0000;
    let t = put128(s, i, v);
    assert(be32(t, i) == hi / 0x1_0000_0000);
    assert(be32(t, i + 4) == hi % 0x1_0000_0000);
    assert(be32(t, i + 8) == lo / 0x1_0000_0000);
    assert(be32(t, i + 12) == lo % 0x1_0000_0000);
}

/// A 128-bit field is a matter of its sixteen bytes.
pub proof fn lemma_be128_same(a: Seq<u8>, b: Seq<u8>, i: int)
    requires
        forall|k: int| i <= k < i + 16 ==> #[trigger] b[k] == a[k],
    ensures
        be128(b, i) == be128(a, i),
{
}

/// Reads the big-endian 16-bit field at `i`.
pub fn get_be16(b: &[u8], i: usize) -> (v: u16)
    requires
        i + 1 < b.len(),
    ensures
        v == be16(b@, i as int),
{
    (b[i] as u16) * 256 + (b[i + 1] as u16)
}

/// Reads the big-endian 32-bit field at `i`.
pub fn get_be32(b: &[u8], i: usize) -> (v: u32)
    requires
        i + 3 < b.len(),
    ensures
        v == be32(b@, i as int),
{
    (b[i] as u32) * 0x100_0000 + (b[i + 1] as u32) * 0x1_0000 + (b[i + 2] as u32) * 0x100 + (
    b[i + 3] as u32)
}

/// Reads the big-endian 128-bit field at `i`.
pub fn get_be128(b: &[u8], i: usize) -> (v: u128)
    requires
        i + 15 < b.len(),
    ensures
        v == be128(b@, i as int),
{
    (get_be32(b, i) as u128) * 0x1_0000_0000_0000_0000_0000_0000 + (get_be32(b, i + 4) as u128)
        * 0x1_0000_0000_0000_0000 + (get_be32(b, i + 8) as u128) * 0x1_0000_0000 + (get_be32(
        b,
        i + 12,
    ) as u128)
}

/// Reads the 16-bit field at `i`, the low byte first, or last.
pub fn get_native16(b: &[u8], i: usize, little: bool) -> (v: u16)
    requires
        i + 1 < b.len(),
    ensures
        v == native16(b@, i as int, little),
{
    if little {
        (b[i] as u16) + (b[i + 1] as u16) * 256
    } else {
        (b[i] as u16) * 256 + (b[i + 1] as u16)
    }
}

/// Calls `u16::from_ne_bytes` on the bytes 1 and 0. Claimed: the number is 1 on
/// a machine that puts the low byte first, and 256 on one that puts it last.
/// Which of the two this machine is, is left open.
#[verifier::external_body]
pub(crate) fn native_one() -> (n: u16)
    ensures
        n == 1 || n == 256,
{
    u16::from_ne_bytes([1, 0])
}

/// Writes `v` big-endian at `i`.
pub fn set_be16(b: &mut [u8], i: usize, v: u16)
    requires
        i + 1 < old(b).len(),
    ensures
        final(b)@ == put16(old(b)@, i as int, v as int),
{
    b[i] = (v / 256) as u8;
    b[i + 1] = (v % 256) as u8;
}

/// Writes `v` big-endian at `i`.
pub fn set_be32(b: &mut [u8], i: usize, v: u32)
    requires
        i + 3 < old(b).len(),
    ensures
        final(b)@ == put32(old(b)@, i as int, v as int),
{
    set_be16(b, i, (v / 0x1_0000) as u16);
    set_be16(b, i + 2, (v % 0x1_0000) as u16);
}

/// Writes `v` big-endian at `i`.
pub fn set_be128(b: &mut [u8], i: usize, v: u128)
    requires
        i + 15 < old(b).len(),
    ensures
        final(b)@ == put128(old(b)@, i as int, v as int),
        final(b)@.len() == old(b)@.len(),
{
    reveal(put128);
    let hi: u64 = (v / 0x1_0000_0000_0000_0000) as u64;
    let lo: u64 = (v % 0x1_0000_0000_0000_0000) as u64;
    set_be32(b, i, (hi / 0x1_0000_0000) as u32);
    set_be32(b, i + 4, (hi % 0x1_0000_0000) as u32);
    set_be32(b, i + 8, (lo / 0x1_0000_0000) as u32);
    set_be32(b, i + 12, (lo % 0x1_0000_0000) as u32);
}

/// Writes `v` at `i`, the low byte first, or last.
pub fn set_native16(b: &mut [u8], i: usize, v: u16, little: bool)
    requires
        i + 1 < old(b).len(),
    ensures
        final(b)@ == put_native16(old(b)@, i as int, v as int, little),
{
    if little {
        b[i] = (v % 256) as u8;
        b[i + 1] = (v / 256) as u8;
    } else {
        set_be16(b, i, v);
    }
}

/// Copies `src` over the bytes of `b` from `at` on.
pub fn copy_at(b: &mut [u8], at: usize, src: &[u8])
    requires
        at + src.len() <= old(b).len(),
    ensures
        final(b)@ == splice(old(b)@, at as int, src@),
{
    let mut k: usize = 0;
    while k < src.len()
        invariant
            k <= src.len(),
            at + src.len() <= b.len(),
            b@ == splice(old(b)@, at as int, src@.subrange(0, k as int)),
        decreases src.len() - k,
    {
        b[at + k] = src[k];
        assert(b@ =~= splice(old(b)@, at as int, src@.subrange(0, k as int + 1)));
        k += 1;
    }
    assert(src@.subrange(0, src@.len() as int) =~= src@);
}

/// The bytes of `b` between `from` and `to`, as a buffer of their own.
pub fn sub_vec(b: &[u8], from: usize, to: usize) -> (v: Vec<u8>)
    requires
        from <= to <= b.len(),
    ensures
        v@ == b@.subrange(from as int, to as int),
{
    let mut v: Vec<u8> = Vec::with_capacity(to - from);
    let mut k: usize = from;
    while k < to
        invariant
            from <= k <= to <= b.len(),
            v@ == b@.subrange(from as int, k as int),
        decreases to - k,
    {
        v.push(b[k]);
        assert(v@ =~= b@.subrange(from as int, k as int + 1));
        k += 1;
    }
    v
}

/// A buffer of `n` zero bytes.
pub fn zero_vec(n: usize) -> (v: Vec<u8>)
    ensures
        v@ == zeros(n as int),
{
    let v = vec![0u8; n];
    assert(v@ =~= zeros(n as int));
    v
}

/// Whether two byte strings are equal.
pub fn bytes_eq(a: &[u8], b: &[u8]) -> (r: bool)
    ensures
        r == (a@ == b@),
{
    if a.len() != b.len() {
        return false;
    }
    let mut k: usize = 0;
    while k < a.len()
        invariant
            k <= a.len(),
            a.len() == b.len(),
            forall|j: int| 0 <= j < k ==> a@[j] == b@[j],
        decreases a.len() - k,
    {
        if a[k] != b[k] {
            return false;
        }
        k += 1;
    }
    assert(a@ =~= b@);
    true
}

} // verus!
