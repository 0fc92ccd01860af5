//! Texts and what they read as: how reading goes on with one more character or
//! one more piece, and which texts read as nothing.
use vstd::prelude::*;
use vstd::string::*;

use crate::addr::{IpAddr, Ipv4Addr, SocketAddr, SocketAddrV4, SocketAddrV6};
use crate::packages;
use crate::render;
use crate::text;
use crate::types;

verus! {

/// A character is found at its first place.
pub proof fn law_first_at(s: Seq<char>, c: char, i: int)
    requires
        0 <= i,
    ensures
        match text::first_at(s, c, i) {
            Some(k) => i <= k < s.len() && s[k] == c && forall|j: int|
                i <= j < k ==> #[trigger] s[j] != c,
            None => forall|j: int| i <= j < s.len() ==> #[trigger] s[j] != c,
        },
    decreases s.len() - i,
{
    if i < s.len() && s[i] != c {
        law_first_at(s, c, i + 1);
    }
}

/// A text is found at its first place.
pub proof fn law_first_occurrence(s: Seq<char>, t: Seq<char>, i: int)
    requires
        0 <= i,
    ensures
        match text::first_occurrence(s, t, i) {
            Some(k) => i <= k && k + t.len() <= s.len() && s.subrange(k, k + t.len()) == t && forall|
                j: int,
            |
                i <= j < k ==> #[trigger] s.subrange(j, j + t.len()) != t,
            None => forall|j: int|
                i <= j && j + t.len() <= s.len() ==> #[trigger] s.subrange(j, j + t.len()) != t,
        },
    decreases s.len() + 1 - i,
{
    if i + t.len() <= s.len() && s.subrange(i, i + t.len()) != t {
        law_first_occurrence(s, t, i + 1);
    }
}

/// Splitting goes piece by piece: what stands before a separator and what
/// stands behind it are split on their own, and a text without one is one
/// piece.
pub proof fn law_split(a: Seq<char>, b: Seq<char>, sep: char)
    ensures
        text::split(a.push(sep) + b, sep) == text::split(a, sep) + text::split(b, sep),
    decreases b.len(),
{
    let s = a.push(sep) + b;
    text::lemma_split_nonempty(a, sep);
    text::lemma_split_nonempty(b, sep);
    if b.len() == 0 {
        assert(s =~= a.push(sep));
        assert(a.push(sep).drop_last() =~= a);
        assert(text::split(s, sep) =~= text::split(a, sep) + text::split(b, sep));
    } else {
        let front = b.drop_last();
        assert(s.drop_last() =~= a.push(sep) + front);
        assert(s.last() == b.last());
        law_split(a, front, sep);
        text::lemma_split_nonempty(front, sep);
        assert(text::split(s, sep) =~= text::split(a, sep) + text::split(b, sep));
    }
}

pub proof fn law_one_piece(s: Seq<char>, sep: char)
    requires
        forall|k: int| 0 <= k < s.len() ==> #[trigger] s[k] != sep,
    ensures
        text::split(s, sep) == seq![s],
    decreases s.len(),
{
    if s.len() > 0 {
        let front = s.drop_last();
        assert forall|k: int| 0 <= k < front.len() implies #[trigger] front[k] != sep by {
            assert(front[k] == s[k]);
        }
        law_one_piece(front, sep);
        assert(s[s.len() - 1] == s.last());
        assert(front.push(s.last()) =~= s);
        assert(text::split(s, sep) =~= seq![s]);
    } else {
        assert(s =~= Seq::empty());
    }
}

/// Pieces with a separator between each two.
pub open spec fn joined(p: Seq<Seq<char>>, sep: char) -> Seq<char>
    decreases p.len(),
{
    if p.len() == 0 {
        Seq::empty()
    } else if p.len() == 1 {
        p[0]
    } else {
        joined(p.drop_last(), sep).push(sep) + p.last()
    }
}

/// The pieces of a text, joined again, are the text.
pub proof fn law_split_joined(s: Seq<char>, sep: char)
    ensures
        joined(text::split(s, sep), sep) == s,
    decreases s.len(),
{
    let p = text::split(s, sep);
    if s.len() > 0 {
        let front = s.drop_last();
        let before = text::split(front, sep);
        law_split_joined(front, sep);
        text::lemma_split_nonempty(front, sep);
        assert(s =~= front.push(s.last()));
        if s.last() == sep {
            assert(p.drop_last() =~= before);
            assert(joined(p, sep) =~= s);
        } else {
            let n = before.len() - 1;
            if n == 0 {
                assert(p.len() == 1);
                assert(joined(p, sep) =~= s);
            } else {
                assert(p.drop_last() =~= before.drop_last());
                assert(joined(p, sep) =~= joined(before, sep).push(s.last()));
            }
        }
    }
}

/// Trimming takes the spaces off both ends and nothing else.
pub proof fn law_trim(s: Seq<char>)
    ensures
        exists|i: int, j: int|
            0 <= i <= j <= s.len() && text::trim(s) == #[trigger] s.subrange(i, j) && (forall|k: int|
                0 <= k < i ==> text::is_space(#[trigger] s[k])) && (forall|k: int|
                j <= k < s.len() ==> text::is_space(#[trigger] s[k])),
        text::trim(s).len() > 0 ==> !text::is_space(text::trim(s)[0]) && !text::is_space(
            text::trim(s).last(),
        ),
{
    let i = lemma_trim_start(s);
    let t = text::trim_start(s);
    let n = lemma_trim_end(t);
    let j = i + n;
    assert(text::trim(s) =~= s.subrange(i, j));
    assert forall|k: int| j <= k < s.len() implies text::is_space(#[trigger] s[k]) by {
        assert(t[k - i] == s[k]);
    }
    if n > 0 {
        assert(text::trim(s)[0] == t[0]);
    }
}

proof fn lemma_trim_start(s: Seq<char>) -> (i: int)
    ensures
        0 <= i <= s.len(),
        text::trim_start(s) == s.subrange(i, s.len() as int),
        forall|k: int| 0 <= k < i ==> text::is_space(#[trigger] s[k]),
        i < s.len() ==> !text::is_space(s[i]),
    decreases s.len(),
{
    if s.len() > 0 && text::is_space(s[0]) {
        let rest = s.subrange(1, s.len() as int);
        let i = lemma_trim_start(rest);
        assert(rest.subrange(i, rest.len() as int) =~= s.subrange(i + 1, s.len() as int));
        assert forall|k: int| 0 <= k < i + 1 implies text::is_space(#[trigger] s[k]) by {
            if k > 0 {
                assert(rest[k - 1] == s[k]);
            }
        }
        i + 1
    } else {
        assert(s.subrange(0, s.len() as int) =~= s);
        0
    }
}

proof fn lemma_trim_end(s: Seq<char>) -> (n: int)
    ensures
        0 <= n <= s.len(),
        text::trim_end(s) == s.subrange(0, n),
        forall|k: int| n <= k < s.len() ==> text::is_space(#[trigger] s[k]),
        n > 0 ==> !text::is_space(s[n - 1]),
    decreases s.len(),
{
    if s.len() > 0 && text::is_space(s.last()) {
        let front = s.drop_last();
        let n = lemma_trim_end(front);
        assert(front.subrange(0, n) =~= s.subrange(0, n));
        assert forall|k: int| n <= k < s.len() implies text::is_space(#[trigger] s[k]) by {
            if k < front.len() {
                assert(front[k] == s[k]);
            }
        }
        n
    } else {
        assert(s.subrange(0, s.len() as int) =~= s);
        s.len() as int
    }
}

/// Words are what stands between spaces: the words before a space and those
/// behind it are found on their own, and a text without spaces is one word.
pub proof fn law_words(a: Seq<char>, c: char, b: Seq<char>)
    requires
        text::is_space(c),
    ensures
        text::words_of(a.push(c) + b) == text::words_of(a) + text::words_of(b),
    decreases b.len(),
{
    let s = a.push(c) + b;
    if b.len() == 0 {
        assert(s =~= a.push(c));
        assert(a.push(c).drop_last() =~= a);
        assert(text::words_of(s) =~= text::words_of(a) + text::words_of(b));
    } else {
        let front = b.drop_last();
        assert(s.drop_last() =~= a.push(c) + front);
        assert(s.last() == b.last());
        law_words(a, c, front);
        if !text::is_space(b.last()) && b.len() > 1 && !text::is_space(b[b.len() - 2]) {
            assert(s[s.len() - 2] == b[b.len() - 2]);
            lemma_open_word(front);
            assert(text::words_of(s) =~= text::words_of(a) + text::words_of(b));
        } else if !text::is_space(b.last()) {
            if b.len() == 1 {
                assert(s[s.len() - 2] == c);
            } else {
                assert(s[s.len() - 2] == b[b.len() - 2]);
            }
            assert(text::words_of(s) =~= text::words_of(a) + text::words_of(b));
        }
    }
}

proof fn lemma_open_word(s: Seq<char>)
    requires
        s.len() > 0,
        !text::is_space(s.last()),
    ensures
        text::words_of(s).len() > 0,
    decreases s.len(),
{
    if s.len() > 1 && !text::is_space(s[s.len() - 2]) {
        assert(s.drop_last().last() == s[s.len() - 2]);
        lemma_open_word(s.drop_last());
    }
}

pub proof fn law_one_word(s: Seq<char>)
    requires
        s.len() > 0,
        forall|k: int| 0 <= k < s.len() ==> !text::is_space(#[trigger] s[k]),
    ensures
        text::words_of(s) == seq![s],
    decreases s.len(),
{
    let front = s.drop_last();
    assert(s[s.len() - 1] == s.last());
    if front.len() > 0 {
        assert forall|k: int| 0 <= k < front.len() implies !text::is_space(#[trigger] front[k]) by {
            assert(front[k] == s[k]);
        }
        law_one_word(front);
        assert(!text::is_space(s[s.len() - 2]));
        assert(front.push(s.last()) =~= s);
        assert(text::words_of(s) =~= seq![s]);
    } else {
        assert(front =~= Seq::empty());
        assert(text::words_of(front) =~= Seq::<Seq<char>>::empty());
        assert(seq![s.last()] =~= s);
        assert(text::words_of(s) =~= seq![s]);
    }
}

/// One more digit makes a number ten times as large, and adds its own value;
/// another character makes it no number, and so does a number that is too
/// large.
pub proof fn law_number_grows(s: Seq<char>, c: char, max: int)
    requires
        text::number(s, max) is Some,
    ensures
        match text::number(s.push(c), max) {
            Some(n) => '0' <= c && c <= '9' && n == 10 * text::number(s, max)->0 + (c as int - 48)
                && n <= max,
            None => !('0' <= c && c <= '9') || 10 * text::number(s, max)->0 + (c as int - 48) > max,
        },
{
    let t = s.push(c);
    let d = if s[0] == '+' {
        s.subrange(1, s.len() as int)
    } else {
        s
    };
    let e = if t[0] == '+' {
        t.subrange(1, t.len() as int)
    } else {
        t
    };
    assert(e =~= d.push(c));
    assert(e.drop_last() =~= d);
    assert(e[e.len() - 1] == c);
    if text::is_digit(c) {
        assert forall|k: int| 0 <= k < e.len() implies text::is_digit(#[trigger] e[k]) by {
            if k < d.len() {
                assert(e[k] == d[k]);
            }
        }
    } else {
        assert(!text::is_digit(e[e.len() - 1]));
    }
}

/// One digit is a number, no text is none, and a plus sign before digits
/// changes nothing.
pub proof fn law_number_starts(c: char, s: Seq<char>, max: int)
    requires
        max >= 9,
    ensures
        text::number(Seq::empty(), max) is None,
        '0' <= c && c <= '9' ==> text::number(seq![c], max) == Some(c as int - 48),
        !('0' <= c && c <= '9') ==> text::number(seq![c], max) is None,
        s.len() > 0 && s[0] != '+' ==> text::number(seq!['+'] + s, max) == text::number(s, max),
{
    let one = seq![c];
    assert(one.drop_last() =~= Seq::empty());
    assert(text::dec_value(Seq::empty()) == 0);
    assert(one.last() == c);
    assert(text::dec_value(one) == c as int - 48);
    assert((seq!['+'] + s).subrange(1, s.len() as int + 1) =~= s);
    if c == '+' {
        assert(one.subrange(1, 1).len() == 0);
    }
    if !('0' <= c && c <= '9') && c != '+' {
        assert(!text::is_digit(one[0]));
    }
}

/// Numbers are written digit by digit, without a zero in front.
pub proof fn law_digits(n: int, d: int)
    requires
        0 < n,
        0 <= d < 10,
    ensures
        render::dec_text(d) == seq![(48 + d) as char],
        render::dec_text(10 * n + d) == render::dec_text(n).push((48 + d) as char),
{
    assert((10 * n + d) / 10 == n);
    assert((10 * n + d) % 10 == d);
}

/// The same in hexadecimal, with small letters.
pub proof fn law_hex_digits(n: int, d: int)
    requires
        0 < n,
        0 <= d < 16,
    ensures
        ({
            let c = if d < 10 {
                (48 + d) as char
            } else {
                (97 + d - 10) as char
            };
            &&& render::hex_text(d) == seq![c]
            &&& render::hex_text(16 * n + d) == render::hex_text(n).push(c)
        }),
{
    assert((16 * n + d) / 16 == n);
    assert((16 * n + d) % 16 == d);
}

/// Hexadecimal digits are read in both cases, and count sixteen times as much
/// with each that follows.
pub proof fn law_hex_read(s: Seq<char>, c: char)
    ensures
        '0' <= c && c <= '9' ==> text::hex_digit(c) == Some(c as int - 48),
        'a' <= c && c <= 'f' ==> text::hex_digit(c) == Some(c as int - 87),
        'A' <= c && c <= 'F' ==> text::hex_digit(c) == Some(c as int - 55),
        text::hex_digit(c) is Some ==> ('0' <= c && c <= '9') || ('a' <= c && c <= 'f') || ('A' <= c
            && c <= 'F'),
        text::hex_digit(c) is Some ==> text::hex_value(s.push(c)) == 16 * text::hex_value(s)
            + text::hex_digit(c)->0,
        text::hex_value(Seq::empty()) == 0,
{
    assert(s.push(c).drop_last() =~= s);
}

proof fn lemma_canonical(s: Seq<char>)
    requires
        s.len() > 0,
        text::all_digits(s),
        s.len() == 1 || s[0] != '0',
    ensures
        render::dec_text(text::dec_value(s)) == s,
        text::dec_value(s) >= 0,
        s.len() > 1 ==> text::dec_value(s) >= 10,
    decreases s.len(),
{
    let front = s.drop_last();
    let c = s.last();
    assert(s[s.len() - 1] == c);
    assert(text::is_digit(c));
    let d = c as int - 48;
    assert((48 + d) as char == c);
    if front.len() == 0 {
        assert(front =~= Seq::empty());
        assert(text::dec_value(front) == 0);
        assert(text::dec_value(s) == d);
        assert(render::dec_text(d) =~= s);
    } else {
        assert(front[0] == s[0]);
        assert forall|k: int| 0 <= k < front.len() implies text::is_digit(#[trigger] front[k]) by {
            assert(front[k] == s[k]);
        }
        lemma_canonical(front);
        let n = text::dec_value(front);
        if front.len() == 1 {
            assert(front.drop_last() =~= Seq::empty());
            assert(text::dec_value(front.drop_last()) == 0);
            assert(front.last() == front[0]);
            assert(n == front[0] as int - 48);
        }
        law_digits(n, d);
        assert(render::dec_text(10 * n + d) =~= s);
    }
}

/// An octet is read in exactly one form: as it is written.
pub proof fn law_octets_read(s: Seq<char>, n: int)
    ensures
        text::octet(s) == Some(n) <==> 0 <= n <= 255 && s == render::dec_text(n),
{
    if text::octet(s) == Some(n) {
        lemma_canonical(s);
    }
    if 0 <= n <= 255 {
        render::lemma_dec_text(n);
    }
}

/// An IPv4 address is read in exactly one form: as it is written.
pub proof fn law_ipv4_read(s: Seq<char>, ip: Ipv4Addr)
    ensures
        text::ipv4_of(s) == Some(ip.bits as int) <==> s == render::v4_text(ip.bits as int),
{
    if s == render::v4_text(ip.bits as int) {
        render::law_address_read_back(IpAddr::V4(ip));
        lemma_v4_value(s);
    }
    if text::ipv4_of(s) == Some(ip.bits as int) {
        let p = text::split(s, '.');
        law_split_joined(s, '.');
        let a = text::octet(p[0])->0;
        let b = text::octet(p[1])->0;
        let c = text::octet(p[2])->0;
        let d = text::octet(p[3])->0;
        law_octets_read(p[0], a);
        law_octets_read(p[1], b);
        law_octets_read(p[2], c);
        law_octets_read(p[3], d);
        lemma_four(p);
        law_ipv4_written(a as u8, b as u8, c as u8, d as u8);
    }
}

proof fn lemma_four(p: Seq<Seq<char>>)
    requires
        p.len() == 4,
    ensures
        joined(p, '.') == p[0] + "."@ + p[1] + "."@ + p[2] + "."@ + p[3],
{
    reveal_strlit(".");
    let p3 = p.drop_last();
    let p2 = p3.drop_last();
    let p1 = p2.drop_last();
    assert(p1[0] == p[0] && p2.last() == p[1] && p3.last() == p[2] && p.last() == p[3]);
    assert(joined(p1, '.') == p[0]);
    assert(joined(p2, '.') =~= p[0] + "."@ + p[1]);
    assert(joined(p3, '.') =~= p[0] + "."@ + p[1] + "."@ + p[2]);
    assert(joined(p, '.') =~= p[0] + "."@ + p[1] + "."@ + p[2] + "."@ + p[3]);
}

proof fn lemma_v4_value(s: Seq<char>)
    ensures
        text::ipv4_of(s) matches Some(n) ==> 0 <= n <= u32::MAX,
{
    let p = text::split(s, '.');
    if text::ipv4_of(s) is Some {
        law_octets_read(p[0], text::octet(p[0])->0);
        law_octets_read(p[1], text::octet(p[1])->0);
        law_octets_read(p[2], text::octet(p[2])->0);
        law_octets_read(p[3], text::octet(p[3])->0);
    }
}

/// An IPv4 address is written octet by octet, the highest first.
pub proof fn law_ipv4_written(a: u8, b: u8, c: u8, d: u8)
    ensures
        render::v4_text(a * 0x100_0000 + b * 0x1_0000 + c * 0x100 + d) == render::dec_text(
            a as int,
        ) + "."@ + render::dec_text(b as int) + "."@ + render::dec_text(c as int) + "."@
            + render::dec_text(d as int),
{
    lemma_octets(a as int, b as int, c as int, d as int);
}

proof fn lemma_octets(a: int, b: int, c: int, d: int)
    requires
        0 <= a < 0x100,
        0 <= b < 0x100,
        0 <= c < 0x100,
        0 <= d < 0x100,
    ensures
        ({
            let n = a * 0x100_0000 + b * 0x1_0000 + c * 0x100 + d;
            &&& n / 0x100_0000 == a
            &&& n / 0x1_0000 % 0x100 == b
            &&& n / 0x100 % 0x100 == c
            &&& n % 0x100 == d
        }),
{
    let n = a * 0x100_0000 + b * 0x1_0000 + c * 0x100 + d;
    assert(n / 0x1_0000 == a * 0x100 + b);
    assert(n / 0x100 == a * 0x1_0000 + b * 0x100 + c);
}

/// A text that reads as an IPv4 address is one, and only other texts are read
/// as IPv6 addresses.
pub proof fn law_addresses_read(s: Seq<char>)
    ensures
        match text::ip_of(s) {
            Some(IpAddr::V4(ip)) => s == render::v4_text(ip.bits as int),
            Some(IpAddr::V6(ip)) => text::ipv4_of(s) is None && text::ipv6_of(s) is Some,
            None => text::ipv4_of(s) is None && text::ipv6_of(s) is None,
        },
{
    lemma_v4_value(s);
    if text::ipv4_of(s) is Some {
        let ip = Ipv4Addr { bits: text::ipv4_of(s)->0 as u32 };
        law_ipv4_read(s, ip);
    }
}

/// A prefix is an address, a slash and a length that the address has room for.
pub proof fn law_prefix_read(a: Seq<char>, b: Seq<char>)
    requires
        forall|k: int| 0 <= k < a.len() ==> #[trigger] a[k] != '/',
    ensures
        match text::addr_prefix(a.push('/') + b) {
            Some((ip, len)) => text::ip_of(a) == Some(ip) && text::number(b, 255) == Some(
                len as int,
            ) && (ip is V4 ==> len <= 32) && len <= 128,
            None => text::ip_of(a) is None || text::number(b, 255) is None || (text::ip_of(a)->0
                is V4 && text::number(b, 255)->0 > 32) || text::number(b, 255)->0 > 128,
        },
{
    let s = a.push('/') + b;
    assert(render::lacks(a, '/'));
    render::lemma_split_at(a, '/', b);
    assert(s.subrange(0, a.len() as int) =~= a);
    assert(s.subrange(a.len() as int + 1, s.len() as int) =~= b);
    lemma_number_range(b, 255);
}

proof fn lemma_number_range(s: Seq<char>, max: int)
    ensures
        text::number(s, max) matches Some(n) ==> 0 <= n <= max,
{
    let d = if s.len() > 0 && s[0] == '+' {
        s.subrange(1, s.len() as int)
    } else {
        s
    };
    if text::number(s, max) is Some {
        text::lemma_dec_value_grows(d, d.len() as int);
        assert(d.take(d.len() as int) =~= d);
    }
}

/// A text without a slash is no prefix.
pub proof fn law_no_prefix(s: Seq<char>)
    requires
        forall|k: int| 0 <= k < s.len() ==> #[trigger] s[k] != '/',
    ensures
        text::addr_prefix(s) is None,
{
    law_first_at(s, '/', 0);
}

/// A socket address is written as its address, a colon and its port, an IPv6
/// address in brackets.
pub proof fn law_sockets_written(a: SocketAddrV4, b: SocketAddrV6)
    ensures
        types::socket_text(SocketAddr::V4(a)) == render::ip_text(IpAddr::V4(a.ip)) + ":"@
            + render::dec_text(a.port as int),
        types::socket_text(SocketAddr::V6(b)) == "["@ + render::ip_text(IpAddr::V6(b.ip)) + "]:"@
            + render::dec_text(b.port as int),
{
}

/// Numbers among words are read in order, and other words passed over.
pub proof fn law_numbers_in(a: Seq<Seq<char>>, w: Seq<char>)
    ensures
        text::numbers_in(Seq::empty()).len() == 0,
        match text::number(w, u32::MAX as int) {
            Some(n) => text::numbers_in(a.push(w)) == text::numbers_in(a).push(n),
            None => text::numbers_in(a.push(w)) == text::numbers_in(a),
        },
{
    assert(a.push(w).drop_last() =~= a);
}

/// An attribute of a tag: what stands in quotes behind its first mention, on a
/// line that begins with `<` and mentions the tag.
pub proof fn law_attribute(
    line: Seq<char>,
    tag: Seq<char>,
    attr: Seq<char>,
    at: int,
    value: Seq<char>,
)
    requires
        text::trim_start(line).len() > 0,
        text::trim_start(line)[0] == '<',
        text::contains_text(line, tag),
        0 <= at,
        ({
            let needle = attr + "=\""@;
            let from = at + needle.len();
            &&& from + value.len() < line.len()
            &&& line.subrange(at, from) == needle
            &&& forall|j: int|
                0 <= j < at ==> #[trigger] line.subrange(j, j + needle.len()) != needle
            &&& line.subrange(from, from + value.len()) == value
            &&& line[from + value.len()] == '"'
            &&& forall|k: int| 0 <= k < value.len() ==> #[trigger] value[k] != '"'
        }),
    ensures
        packages::attr_text(line, tag, attr) == Some(value),
{
    let needle = attr + "=\""@;
    law_first_occurrence(line, needle, 0);
    let k = text::first_occurrence(line, needle, 0);
    assert(k == Some(at));
    let rest = line.subrange(at + needle.len(), line.len() as int);
    law_first_at(rest, '"', 0);
    let from = at + needle.len();
    assert forall|j: int| 0 <= j < value.len() implies #[trigger] rest[j] != '"' by {
        assert(value[j] == line.subrange(from, from + value.len())[j]);
    }
    assert(rest[value.len() as int] == '"');
    assert(rest.subrange(0, value.len() as int) =~= value);
}

/// A line without the tag, or that begins otherwise, has no attribute of it.
pub proof fn law_no_attribute(line: Seq<char>, tag: Seq<char>, attr: Seq<char>)
    requires
        text::trim_start(line).len() == 0 || text::trim_start(line)[0] != '<'
            || !text::contains_text(line, tag),
    ensures
        packages::attr_text(line, tag, attr) is None,
{
}

/// The line names a package with its user.
pub open spec fn entry(line: Seq<char>, tag: Seq<char>, name: Seq<char>, uid: u32) -> bool {
    let l = text::trim(line);
    &&& packages::attr_text(l, tag, "name"@) == Some(name)
    &&& packages::attr_text(l, tag, "userId"@) matches Some(t) && text::number(
        t,
        u32::MAX as int,
    ) == Some(uid as int)
}

proof fn lemma_entry(line: Seq<char>, tag: Seq<char>, name: Seq<char>, uid: u32)
    ensures
        entry(line, tag, name, uid) <==> packages::tag_entry(text::trim(line), tag) == Some(
            (name, uid),
        ),
{
    match packages::attr_text(text::trim(line), tag, "userId"@) {
        Some(t) => lemma_number_range(t, u32::MAX as int),
        None => {},
    }
}

/// The user of a package is that of its last line.
#[verifier::rlimit(40)]
pub proof fn law_package_users(
    lines: Seq<Seq<char>>,
    tag: Seq<char>,
    n: int,
    name: Seq<char>,
    uid: u32,
)
    requires
        0 <= n <= lines.len(),
    ensures
        packages::ids_of(lines, tag, n).contains_pair(name, uid) <==> exists|k: int|
            0 <= k < n && entry(#[trigger] lines[k], tag, name, uid) && forall|j: int, u: u32|
                k < j < n ==> !#[trigger] entry(lines[j], tag, name, u),
    decreases n,
{
    if n > 0 {
        let before = packages::ids_of(lines, tag, n - 1);
        let last = lines[n - 1];
        law_package_users(lines, tag, n - 1, name, uid);
        lemma_entry(last, tag, name, uid);
        match packages::tag_entry(text::trim(last), tag) {
            Some((x, u)) => {
                lemma_entry(last, tag, x, u);
                if x == name {
                    if u == uid {
                        assert(entry(lines[n - 1], tag, name, uid));
                    } else {
                        if exists|k: int|
                            0 <= k < n && entry(#[trigger] lines[k], tag, name, uid) && forall|
                                j: int,
                                v: u32,
                            |
                                k < j < n ==> !#[trigger] entry(lines[j], tag, name, v) {
                            let k = choose|k: int|
                                0 <= k < n && entry(#[trigger] lines[k], tag, name, uid) && forall|
                                    j: int,
                                    v: u32,
                                |
                                    k < j < n ==> !#[trigger] entry(lines[j], tag, name, v);
                            assert(entry(lines[n - 1], tag, name, u));
                            assert(k == n - 1);
                        }
                    }
                } else {
                    lemma_users_kept(lines, tag, n, name, uid);
                }
            },
            None => {
                lemma_users_kept(lines, tag, n, name, uid);
            },
        }
    }
}

proof fn lemma_users_kept(
    lines: Seq<Seq<char>>,
    tag: Seq<char>,
    n: int,
    name: Seq<char>,
    uid: u32,
)
    requires
        0 < n <= lines.len(),
        match packages::tag_entry(text::trim(lines[n - 1]), tag) {
            Some((x, _)) => x != name,
            None => true,
        },
    ensures
        (exists|k: int|
            0 <= k < n && entry(#[trigger] lines[k], tag, name, uid) && forall|j: int, u: u32|
                k < j < n ==> !#[trigger] entry(lines[j], tag, name, u)) <==> (exists|k: int|
            0 <= k < n - 1 && entry(#[trigger] lines[k], tag, name, uid) && forall|j: int, u: u32|
                k < j < n - 1 ==> !#[trigger] entry(lines[j], tag, name, u)),
{
    assert forall|u: u32| !#[trigger] entry(lines[n - 1], tag, name, u) by {
        lemma_entry(lines[n - 1], tag, name, u);
    }
    if exists|k: int|
        0 <= k < n - 1 && entry(#[trigger] lines[k], tag, name, uid) && forall|j: int, u: u32|
            k < j < n - 1 ==> !#[trigger] entry(lines[j], tag, name, u) {
        let k = choose|k: int|
            0 <= k < n - 1 && entry(#[trigger] lines[k], tag, name, uid) && forall|j: int, u: u32|
                k < j < n - 1 ==> !#[trigger] entry(lines[j], tag, name, u);
        assert forall|j: int, u: u32| k < j < n implies !#[trigger] entry(
            lines[j],
            tag,
            name,
            u,
        ) by {
            if j == n - 1 {
                assert(!entry(lines[n - 1], tag, name, u));
            }
        }
        assert(entry(lines[k], tag, name, uid));
    }
}

/// The package of a user is that of the user's first line.
#[verifier::rlimit(40)]
pub proof fn law_user_packages(
    lines: Seq<Seq<char>>,
    tag: Seq<char>,
    n: int,
    name: Seq<char>,
    uid: u32,
)
    requires
        0 <= n <= lines.len(),
    ensures
        packages::names_of(lines, tag, n).contains_pair(uid, name) <==> first_entry(
            lines,
            tag,
            n,
            name,
            uid,
        ),
        packages::names_of(lines, tag, n).contains_key(uid) <==> exists|k: int, x: Seq<char>|
            0 <= k < n && #[trigger] entry(lines[k], tag, x, uid),
    decreases n,
{
    if n > 0 {
        let before = packages::names_of(lines, tag, n - 1);
        let last = lines[n - 1];
        law_user_packages(lines, tag, n - 1, name, uid);
        lemma_entry(last, tag, name, uid);
        match packages::tag_entry(text::trim(last), tag) {
            Some((x, u)) => {
                lemma_entry(last, tag, x, u);
                if u == uid {
                    assert(entry(lines[n - 1], tag, x, uid));
                    if before.contains_key(uid) {
                        let (k, y) = choose|k: int, y: Seq<char>|
                            0 <= k < n - 1 && #[trigger] entry(lines[k], tag, y, uid);
                        lemma_first_kept(lines, tag, n, name, uid, k, y);
                    } else {
                        lemma_first_new(lines, tag, n, name, uid);
                    }
                } else {
                    assert forall|y: Seq<char>| !#[trigger] entry(lines[n - 1], tag, y, uid) by {
                        lemma_entry(last, tag, y, uid);
                    }
                    lemma_first_same(lines, tag, n, name, uid);
                }
            },
            None => {
                assert forall|y: Seq<char>| !#[trigger] entry(lines[n - 1], tag, y, uid) by {
                    lemma_entry(last, tag, y, uid);
                }
                lemma_first_same(lines, tag, n, name, uid);
            },
        }
    }
}

/// Among the first `n` lines the user's first one names this package.
pub open spec fn first_entry(
    lines: Seq<Seq<char>>,
    tag: Seq<char>,
    n: int,
    name: Seq<char>,
    uid: u32,
) -> bool {
    exists|k: int|
        0 <= k < n && entry(#[trigger] lines[k], tag, name, uid) && forall|j: int, x: Seq<char>|
            0 <= j < k ==> !#[trigger] entry(lines[j], tag, x, uid)
}

proof fn lemma_first_kept(
    lines: Seq<Seq<char>>,
    tag: Seq<char>,
    n: int,
    name: Seq<char>,
    uid: u32,
    k: int,
    y: Seq<char>,
)
    requires
        0 <= k < n - 1,
        n <= lines.len(),
        entry(lines[k], tag, y, uid),
    ensures
        first_entry(lines, tag, n, name, uid) <==> first_entry(lines, tag, n - 1, name, uid),
{
    if first_entry(lines, tag, n, name, uid) {
        let i = choose|i: int|
            0 <= i < n && entry(#[trigger] lines[i], tag, name, uid) && forall|j: int, x: Seq<char>|
                0 <= j < i ==> !#[trigger] entry(lines[j], tag, x, uid);
        assert(i <= k);
        assert(entry(lines[i], tag, name, uid));
    }
    if first_entry(lines, tag, n - 1, name, uid) {
        let i = choose|i: int|
            0 <= i < n - 1 && entry(#[trigger] lines[i], tag, name, uid) && forall|
                j: int,
                x: Seq<char>,
            |
                0 <= j < i ==> !#[trigger] entry(lines[j], tag, x, uid);
        assert(entry(lines[i], tag, name, uid));
    }
}

proof fn lemma_first_new(
    lines: Seq<Seq<char>>,
    tag: Seq<char>,
    n: int,
    name: Seq<char>,
    uid: u32,
)
    requires
        0 < n <= lines.len(),
        forall|k: int, x: Seq<char>|
            0 <= k < n - 1 ==> !#[trigger] entry(lines[k], tag, x, uid),
    ensures
        first_entry(lines, tag, n, name, uid) <==> entry(lines[n - 1], tag, name, uid),
{
    if entry(lines[n - 1], tag, name, uid) {
        assert forall|j: int, x: Seq<char>| 0 <= j < n - 1 implies !#[trigger] entry(
            lines[j],
            tag,
            x,
            uid,
        ) by {}
    }
    if first_entry(lines, tag, n, name, uid) {
        let i = choose|i: int|
            0 <= i < n && entry(#[trigger] lines[i], tag, name, uid) && forall|j: int, x: Seq<char>|
                0 <= j < i ==> !#[trigger] entry(lines[j], tag, x, uid);
        assert(i == n - 1);
    }
}

proof fn lemma_first_same(
    lines: Seq<Seq<char>>,
    tag: Seq<char>,
    n: int,
    name: Seq<char>,
    uid: u32,
)
    requires
        0 < n <= lines.len(),
        forall|x: Seq<char>| !#[trigger] entry(lines[n - 1], tag, x, uid),
    ensures
        first_entry(lines, tag, n, name, uid) <==> first_entry(lines, tag, n - 1, name, uid),
{
    if first_entry(lines, tag, n, name, uid) {
        let i = choose|i: int|
            0 <= i < n && entry(#[trigger] lines[i], tag, name, uid) && forall|j: int, x: Seq<char>|
                0 <= j < i ==> !#[trigger] entry(lines[j], tag, x, uid);
        assert(i != n - 1);
        assert(entry(lines[i], tag, name, uid));
    }
    if first_entry(lines, tag, n - 1, name, uid) {
        let i = choose|i: int|
            0 <= i < n - 1 && entry(#[trigger] lines[i], tag, name, uid) && forall|
                j: int,
                x: Seq<char>,
            |
                0 <= j < i ==> !#[trigger] entry(lines[j], tag, x, uid);
        assert(entry(lines[i], tag, name, uid));
    }
}

/// The users of a list of packages: of each that is known, in their order.
pub proof fn law_known_packages(ids: Map<Seq<char>, u32>, names: Seq<Seq<char>>, name: Seq<char>)
    ensures
        packages::known_ids(ids, Seq::empty()).len() == 0,
        ids.contains_key(name) ==> packages::known_ids(ids, names.push(name))
            == packages::known_ids(ids, names).push(ids[name]),
        !ids.contains_key(name) ==> packages::known_ids(ids, names.push(name))
            == packages::known_ids(ids, names),
{
    assert(names.push(name).drop_last() =~= names);
}

/// A run of zeros: these groups are zero.
pub open spec fn zeros_at(g: Seq<int>, i: int, n: int) -> bool {
    0 <= i && 0 <= n && i + n <= g.len() && forall|k: int| i <= k < i + n ==> #[trigger] g[k] == 0
}

proof fn lemma_run_at(g: Seq<int>, i: int)
    requires
        0 <= i <= g.len(),
    ensures
        zeros_at(g, i, render::run_at(g, i)),
        forall|n: int| #[trigger] zeros_at(g, i, n) ==> n <= render::run_at(g, i),
    decreases g.len() - i,
{
    if i < g.len() && g[i] == 0 {
        lemma_run_at(g, i + 1);
        let r = render::run_at(g, i + 1);
        assert forall|k: int| i <= k < i + 1 + r implies #[trigger] g[k] == 0 by {
            if k > i {
                assert(zeros_at(g, i + 1, r));
            }
        }
        assert forall|n: int| #[trigger] zeros_at(g, i, n) implies n <= 1 + r by {
            if n > 0 {
                assert(zeros_at(g, i + 1, n - 1));
            }
        }
    } else {
        assert forall|n: int| #[trigger] zeros_at(g, i, n) implies n <= 0 by {
            if n > 0 {
                assert(g[i] == 0);
            }
        }
    }
}

/// The run that an IPv6 address is shortened by is the longest, and the first
/// of those.
pub proof fn law_longest_run(g: Seq<int>, i: int)
    requires
        0 <= i <= g.len(),
    ensures
        ({
            let (at, n) = render::longest_run(g, i);
            &&& i <= at
            &&& zeros_at(g, at, n)
            &&& forall|j: int, m: int|
                i <= j && #[trigger] zeros_at(g, j, m) ==> m <= n && (m == n && n > 0 ==> at <= j)
        }),
    decreases g.len() - i,
{
    let (at, n) = render::longest_run(g, i);
    if i < g.len() {
        law_longest_run(g, i + 1);
        lemma_run_at(g, i);
        let (rest, most) = render::longest_run(g, i + 1);
        assert forall|j: int, m: int| i <= j && #[trigger] zeros_at(g, j, m) implies m <= n && (m
            == n && n > 0 ==> at <= j) by {
            if j == i {
                assert(zeros_at(g, i, m));
            } else {
                assert(m <= most);
            }
        }
    } else {
        assert(zeros_at(g, i, 0));
    }
}

/// An IPv6 address is written as its eight groups from the highest on, with
/// colons between them; two colons stand for the longest run of zeros where
/// that has two groups or more, and one that holds an IPv4 address ends in it.
pub proof fn law_ipv6_written(bits: int)
    requires
        0 <= bits <= u128::MAX,
    ensures
        ({
            let g = render::groups_of(bits);
            let (at, n) = render::longest_run(g, 0);
            let s = render::v6_text(bits);
            &&& g.len() == 8
            &&& forall|k: int| 0 <= k < 8 ==> 0 <= #[trigger] g[k] < 65536
            &&& text::group_number(g) == bits
            &&& bits / 0x1_0000_0000 == 0xffff ==> s == "::ffff:"@ + render::v4_text(
                bits % 0x1_0000_0000,
            )
            &&& bits / 0x1_0000_0000 != 0xffff && n > 1 ==> s == render::joined(g, 0, at) + "::"@
                + render::joined(g, at + n, 8)
            &&& bits / 0x1_0000_0000 != 0xffff && n <= 1 ==> s == render::joined(g, 0, 8)
        }),
{
    render::lemma_groups_of(bits);
}

/// Groups are written in hexadecimal with a colon between each two.
pub proof fn law_groups_written(g: Seq<int>, a: int, b: int)
    requires
        0 <= a < b < g.len(),
    ensures
        render::joined(g, a, a).len() == 0,
        render::joined(g, a, a + 1) == render::hex_text(g[a]),
        render::joined(g, a, b + 1) == render::joined(g, a, b) + ":"@ + render::hex_text(g[b]),
{
}

/// An IPv6 address has eight groups; two colons stand for at least one group of
/// zeros.
pub proof fn law_ipv6_read(s: Seq<char>)
    ensures
        match text::double_colon(s, 0) {
            None => match text::groups(s, true) {
                Some(g) => text::ipv6_of(s) == (if g.len() == 8 {
                    Some(text::group_number(g))
                } else {
                    None
                }),
                None => text::ipv6_of(s) is None,
            },
            Some(i) => {
                let a = text::groups(s.subrange(0, i), false);
                let b = text::groups(s.subrange(i + 2, s.len() as int), true);
                match text::ipv6_of(s) {
                    Some(n) => a is Some && b is Some && a->0.len() + b->0.len() < 8
                        && spread(a->0, b->0, n),
                    None => a is None || b is None || a->0.len() + b->0.len() >= 8,
                }
            },
        },
{
    if text::double_colon(s, 0) is Some {
        let i = text::double_colon(s, 0)->0;
        let a = text::groups(s.subrange(0, i), false);
        let b = text::groups(s.subrange(i + 2, s.len() as int), true);
        if a is Some && b is Some && a->0.len() + b->0.len() < 8 {
            let z = text::zero_groups(8 - a->0.len() - b->0.len());
            let g = a->0 + z + b->0;
            assert(text::group_number(g) == text::ipv6_of(s)->0);
            assert(spread(a->0, b->0, text::group_number(g)));
        }
    }
}

/// The number of eight groups: these in front, those at the end, and zeros
/// between.
pub open spec fn spread(a: Seq<int>, b: Seq<int>, n: int) -> bool {
    exists|g: Seq<int>|
        g.len() == 8 && n == #[trigger] text::group_number(g) && (forall|k: int|
            0 <= k < a.len() ==> #[trigger] g[k] == a[k]) && (forall|k: int|
            0 <= k < b.len() ==> g[8 - b.len() + k] == #[trigger] b[k]) && (forall|k: int|
            a.len() <= k < 8 - b.len() ==> #[trigger] g[k] == 0)
}

/// A group has one to four hexadecimal digits.
pub proof fn law_group_read(s: Seq<char>, c: char)
    ensures
        text::group16(Seq::empty()) is None,
        text::group16(s) is Some ==> 1 <= s.len() <= 4,
        s.len() >= 4 ==> text::group16(s.push(c)) is None,
        text::group16(s) is Some && s.len() < 4 ==> match text::group16(s.push(c)) {
            Some(n) => text::hex_digit(c) is Some && n == 16 * text::group16(s)->0 + text::hex_digit(
                c,
            )->0,
            None => text::hex_digit(c) is None,
        },
{
    let t = s.push(c);
    assert(t.drop_last() =~= s);
    assert(t[s.len() as int] == c);
    if text::group16(s) is Some && s.len() < 4 && text::hex_digit(c) is Some {
        assert forall|k: int| 0 <= k < t.len() implies text::hex_digit(#[trigger] t[k]) is Some by {
            if k < s.len() {
                assert(t[k] == s[k]);
            }
        }
    }
}

/// Two colons are found at their first place.
pub proof fn law_double_colon(s: Seq<char>, i: int)
    requires
        0 <= i,
    ensures
        match text::double_colon(s, i) {
            Some(k) => i <= k && k + 1 < s.len() && s[k] == ':' && s[k + 1] == ':' && forall|j: int|
                i <= j < k ==> !(#[trigger] s[j] == ':' && s[j + 1] == ':'),
            None => forall|j: int|
                i <= j && j + 1 < s.len() ==> !(#[trigger] s[j] == ':' && s[j + 1] == ':'),
        },
    decreases s.len() - i,
{
    if i + 1 < s.len() && !(s[i] == ':' && s[i + 1] == ':') {
        law_double_colon(s, i + 1);
    }
}

/// The groups of a text: its pieces between colons, of which the last may be an
/// IPv4 address where that is allowed, and then counts as two.
pub proof fn law_groups_read(p: Seq<Seq<char>>, n: int)
    requires
        0 <= n <= p.len(),
    ensures
        match text::plain_groups(p, n) {
            Some(g) => g.len() == n && forall|k: int|
                0 <= k < n ==> text::group16(#[trigger] p[k]) == Some(g[k]),
            None => exists|k: int| 0 <= k < n && text::group16(#[trigger] p[k]) is None,
        },
    decreases n,
{
    if n > 0 {
        law_groups_read(p, n - 1);
        if text::plain_groups(p, n - 1) is None {
            let k = choose|k: int| 0 <= k < n - 1 && text::group16(#[trigger] p[k]) is None;
            assert(text::group16(p[k]) is None);
        } else if text::group16(p[n - 1]) is None {
            assert(text::group16(p[n - 1]) is None);
        }
    }
}

/// Where an IPv4 address may end the text, it counts as its upper and its lower
/// half.
pub proof fn law_dotted_end(s: Seq<char>, dotted: bool)
    requires
        s.len() > 0,
    ensures
        ({
            let p = text::split(s, ':');
            let last = p[p.len() - 1];
            if dotted && text::ipv4_of(last) is Some {
                match (text::groups(s, dotted), text::plain_groups(p, p.len() - 1)) {
                    (Some(g), Some(h)) => {
                        let v = text::ipv4_of(last)->0;
                        &&& g.len() == h.len() + 2
                        &&& g.subrange(0, h.len() as int) == h
                        &&& g[h.len() as int] * 65536 + g[h.len() as int + 1] == v
                        &&& 0 <= g[h.len() as int + 1] < 65536
                    },
                    (None, None) => true,
                    _ => false,
                }
            } else {
                text::groups(s, dotted) == text::plain_groups(p, p.len() as int)
            }
        }),
{
    let p = text::split(s, ':');
    text::lemma_split_nonempty(s, ':');
    let last = p[p.len() - 1];
    if dotted && text::ipv4_of(last) is Some {
        lemma_v4_value(last);
        if text::plain_groups(p, p.len() - 1) is Some {
            let h = text::plain_groups(p, p.len() - 1)->0;
            let g = text::groups(s, dotted)->0;
            assert(g.subrange(0, h.len() as int) =~= h);
        }
    }
}

/// A text of nothing but white space.
pub open spec fn blank(s: Seq<char>) -> bool {
    forall|k: int| 0 <= k < s.len() ==> text::is_space(#[trigger] s[k])
}

/// What stands before white space is what trimming leaves of it.
pub proof fn law_white_space_around(s: Seq<char>, end: Seq<char>)
    requires
        blank(end),
        s.len() > 0 ==> !text::is_space(s[0]) && !text::is_space(s.last()),
    ensures
        text::trim(s + end) == s,
{
    let t = s + end;
    law_trim(t);
    let (i, j) = choose|i: int, j: int|
        0 <= i <= j <= t.len() && text::trim(t) == #[trigger] t.subrange(i, j) && (forall|k: int|
            0 <= k < i ==> text::is_space(#[trigger] t[k])) && (forall|k: int|
            j <= k < t.len() ==> text::is_space(#[trigger] t[k]));
    assert forall|k: int| s.len() <= k < t.len() implies text::is_space(#[trigger] t[k]) by {
        assert(t[k] == end[k - s.len()]);
    }
    if s.len() > 0 {
        assert(t[0] == s[0]);
        assert(t[s.len() - 1] == s.last());
        assert(i == 0);
        assert(j >= s.len());
        if j > s.len() {
            assert(text::trim(t).last() == t[j - 1]);
        }
        assert(t.subrange(i, j) =~= s);
    } else {
        if i < j {
            assert(text::trim(t)[0] == t[i]);
        }
        assert(t.subrange(i, j) =~= s);
    }
}

} // verus!
