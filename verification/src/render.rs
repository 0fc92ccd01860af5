//! Numbers and addresses as text: decimal and hexadecimal numbers, dotted IPv4
//! addresses, IPv6 addresses in their shortest form, and prefixes.
use vstd::arithmetic::div_mod;
use vstd::prelude::*;
use vstd::string::*;

use crate::addr::{IpAddr, Ipv4Addr, Ipv6Addr};
use crate::text;

verus! {

/// The digit of a value below 16, in lower case.
pub open spec fn digit_char(d: int) -> char {
    (if d < 10 {
        d + 48
    } else {
        d + 87
    }) as char
}

fn digit(d: u8) -> (s: &'static str)
    requires
        d < 16,
    ensures
        s@ == seq![digit_char(d as int)],
{
    proof {
        reveal_strlit("0");
        reveal_strlit("1");
        reveal_strlit("2");
        reveal_strlit("3");
        reveal_strlit("4");
        reveal_strlit("5");
        reveal_strlit("6");
        reveal_strlit("7");
        reveal_strlit("8");
        reveal_strlit("9");
        reveal_strlit("a");
        reveal_strlit("b");
        reveal_strlit("c");
        reveal_strlit("d");
        reveal_strlit("e");
        reveal_strlit("f");
    }
    let s: &'static str = match d {
        0 => "0",
        1 => "1",
        2 => "2",
        3 => "3",
        4 => "4",
        5 => "5",
        6 => "6",
        7 => "7",
        8 => "8",
        9 => "9",
        10 => "a",
        11 => "b",
        12 => "c",
        13 => "d",
        14 => "e",
        _ => "f",
    };
    assert(s@ =~= seq![digit_char(d as int)]);
    s
}

/// A number in decimal.
pub open spec fn dec_text(n: int) -> Seq<char>
    decreases n,
{
    if n < 10 {
        seq![digit_char(n)]
    } else {
        dec_text(n / 10).push(digit_char(n % 10))
    }
}

/// A number in hexadecimal, in lower case.
pub open spec fn hex_text(n: int) -> Seq<char>
    decreases n,
{
    if n < 16 {
        seq![digit_char(n)]
    } else {
        hex_text(n / 16).push(digit_char(n % 16))
    }
}

/// Writes a number in decimal.
pub fn dec_string(n: u64) -> (s: String)
    ensures
        s@ == dec_text(n as int),
    decreases n,
{
    if n < 10 {
        digit(n as u8).to_owned()
    } else {
        let mut s: String = dec_string(n / 10);
        s.append(digit((n % 10) as u8));
        assert(s@ =~= dec_text(n as int / 10).push(digit_char(n as int % 10)));
        s
    }
}

/// Writes a number in hexadecimal.
pub fn hex_string(n: u64) -> (s: String)
    ensures
        s@ == hex_text(n as int),
    decreases n,
{
    if n < 16 {
        digit(n as u8).to_owned()
    } else {
        let mut s: String = hex_string(n / 16);
        s.append(digit((n % 16) as u8));
        assert(s@ =~= hex_text(n as int / 16).push(digit_char(n as int % 16)));
        s
    }
}

/// An IPv4 address: its four octets in decimal with dots between them.
pub open spec fn v4_text(bits: int) -> Seq<char> {
    dec_text(bits / 0x100_0000) + "."@ + dec_text(bits / 0x1_0000 % 0x100) + "."@ + dec_text(
        bits / 0x100 % 0x100,
    ) + "."@ + dec_text(bits % 0x100)
}

/// Writes an IPv4 address.
pub fn v4_string(ip: Ipv4Addr) -> (s: String)
    ensures
        s@ == v4_text(ip.bits as int),
{
    let mut s: String = dec_string((ip.bits / 0x100_0000) as u64);
    s.append(".");
    s.append(dec_string((ip.bits / 0x1_0000 % 0x100) as u64).as_str());
    s.append(".");
    s.append(dec_string((ip.bits / 0x100 % 0x100) as u64).as_str());
    s.append(".");
    s.append(dec_string((ip.bits % 0x100) as u64).as_str());
    s
}

/// The eight 16-bit groups of an IPv6 address.
pub open spec fn groups_of(bits: int) -> Seq<int> {
    seq![
        bits / 0x1_0000_0000_0000_0000_0000_0000_0000,
        bits / 0x1_0000_0000_0000_0000_0000_0000 % 0x1_0000,
        bits / 0x1_0000_0000_0000_0000_0000 % 0x1_0000,
        bits / 0x1_0000_0000_0000_0000 % 0x1_0000,
        bits / 0x1_0000_0000_0000 % 0x1_0000,
        bits / 0x1_0000_0000 % 0x1_0000,
        bits / 0x1_0000 % 0x1_0000,
        bits % 0x1_0000,
    ]
}

fn groups_vec(ip: Ipv6Addr) -> (g: Vec<u16>)
    ensures
        text::ints(g@) == groups_of(ip.bits as int),
        g@.len() == 8,
{
    let bits: u128 = ip.bits;
    let g: Vec<u16> = vec![
        (bits / 0x1_0000_0000_0000_0000_0000_0000_0000) as u16,
        (bits / 0x1_0000_0000_0000_0000_0000_0000 % 0x1_0000) as u16,
        (bits / 0x1_0000_0000_0000_0000_0000 % 0x1_0000) as u16,
        (bits / 0x1_0000_0000_0000_0000 % 0x1_0000) as u16,
        (bits / 0x1_0000_0000_0000 % 0x1_0000) as u16,
        (bits / 0x1_0000_0000 % 0x1_0000) as u16,
        (bits / 0x1_0000 % 0x1_0000) as u16,
        (bits % 0x1_0000) as u16,
    ];
    assert(text::ints(g@) =~= groups_of(ip.bits as int));
    g
}

/// How many groups of zero follow each other from `i` on.
pub open spec fn run_at(g: Seq<int>, i: int) -> int
    decreases g.len() - i,
{
    if 0 <= i < g.len() && g[i] == 0 {
        1 + run_at(g, i + 1)
    } else {
        0
    }
}

/// Where the longest run of zero groups from `i` on starts, the first of
/// several, and how long it is.
pub open spec fn longest_run(g: Seq<int>, i: int) -> (int, int)
    decreases g.len() - i,
{
    if i < 0 || i >= g.len() {
        (i, 0)
    } else {
        let rest = longest_run(g, i + 1);
        if run_at(g, i) >= rest.1 {
            (i, run_at(g, i))
        } else {
            rest
        }
    }
}

/// The groups from `a` up to `b` in hexadecimal with colons between them.
pub open spec fn joined(g: Seq<int>, a: int, b: int) -> Seq<char>
    decreases b - a,
{
    if a >= b {
        Seq::empty()
    } else if a + 1 == b {
        hex_text(g[a])
    } else {
        joined(g, a, b - 1) + ":"@ + hex_text(g[b - 1])
    }
}

/// An IPv6 address: groups in hexadecimal, with `::` for the longest run of two
/// or more zero groups; one that stands for an IPv4 address ends in that
/// address.
pub open spec fn v6_text(bits: int) -> Seq<char> {
    let g = groups_of(bits);
    let run = longest_run(g, 0);
    if bits / 0x1_0000_0000 == 0xffff {
        "::ffff:"@ + v4_text(bits % 0x1_0000_0000)
    } else if run.1 > 1 {
        joined(g, 0, run.0) + "::"@ + joined(g, run.0 + run.1, 8)
    } else {
        joined(g, 0, 8)
    }
}

fn find_run(g: &Vec<u16>) -> (r: (usize, usize))
    requires
        g.len() == 8,
    ensures
        r.0 == longest_run(text::ints(g@), 0).0,
        r.1 == longest_run(text::ints(g@), 0).1,
        r.0 + r.1 <= 8,
{
    let ghost gs = text::ints(g@);
    let mut i: usize = 8;
    let mut best: (usize, usize) = (8, 0);
    let mut run: usize = 0;
    while i > 0
        invariant
            i <= 8,
            g.len() == 8,
            gs == text::ints(g@),
            run == run_at(gs, i as int),
            run <= 8 - i,
            best.0 == longest_run(gs, i as int).0,
            best.1 == longest_run(gs, i as int).1,
            best.0 + best.1 <= 8,
        decreases i,
    {
        i -= 1;
        run = if g[i] == 0 {
            run + 1
        } else {
            0
        };
        if run >= best.1 {
            best = (i, run);
        }
    }
    best
}

fn join_groups(g: &Vec<u16>, a: usize, b: usize) -> (s: String)
    requires
        b <= g.len(),
    ensures
        s@ == joined(text::ints(g@), a as int, b as int),
{
    if a >= b {
        return String::new();
    }
    let mut s: String = hex_string(g[a] as u64);
    let mut k: usize = a + 1;
    while k < b
        invariant
            a < k <= b <= g.len(),
            s@ == joined(text::ints(g@), a as int, k as int),
        decreases b - k,
    {
        s.append(":");
        s.append(hex_string(g[k] as u64).as_str());
        k += 1;
    }
    s
}

/// Writes an IPv6 address.
pub fn v6_string(ip: Ipv6Addr) -> (s: String)
    ensures
        s@ == v6_text(ip.bits as int),
{
    if ip.bits / 0x1_0000_0000 == 0xffff {
        let mut s: String = "::ffff:".to_owned();
        s.append(v4_string(Ipv4Addr { bits: (ip.bits % 0x1_0000_0000) as u32 }).as_str());
        return s;
    }
    let g: Vec<u16> = groups_vec(ip);
    let (start, len) = find_run(&g);
    if len > 1 {
        let mut s: String = join_groups(&g, 0, start);
        s.append("::");
        s.append(join_groups(&g, start + len, 8).as_str());
        s
    } else {
        join_groups(&g, 0, 8)
    }
}

/// An address of either version.
pub open spec fn ip_text(ip: IpAddr) -> Seq<char> {
    match ip {
        IpAddr::V4(a) => v4_text(a.bits as int),
        IpAddr::V6(a) => v6_text(a.bits as int),
    }
}

/// Writes an address of either version.
pub fn ip_string(ip: IpAddr) -> (s: String)
    ensures
        s@ == ip_text(ip),
{
    match ip {
        IpAddr::V4(a) => v4_string(a),
        IpAddr::V6(a) => v6_string(a),
    }
}

/// A prefix: an address, a slash and the prefix length.
pub open spec fn prefix_text(ip: IpAddr, prefix_len: int) -> Seq<char> {
    ip_text(ip) + "/"@ + dec_text(prefix_len)
}

/// Writes a prefix.
pub fn prefix_string(ip: IpAddr, prefix_len: u8) -> (s: String)
    ensures
        s@ == prefix_text(ip, prefix_len as int),
{
    let mut s: String = ip_string(ip);
    s.append("/");
    s.append(dec_string(prefix_len as u64).as_str());
    s
}

/// The character does not occur in the text.
pub open spec fn lacks(s: Seq<char>, c: char) -> bool {
    forall|k: int| 0 <= k < s.len() ==> #[trigger] s[k] != c
}

pub proof fn lemma_dec_text(n: int)
    requires
        n >= 0,
    ensures
        dec_text(n).len() > 0,
        text::all_digits(dec_text(n)),
        text::dec_value(dec_text(n)) == n,
        n < 10 ==> dec_text(n).len() == 1,
        n < 100 ==> dec_text(n).len() <= 2,
        n < 1000 ==> dec_text(n).len() <= 3,
        n > 0 ==> dec_text(n)[0] != '0',
    decreases n,
{
    let s = dec_text(n);
    if n < 10 {
        reveal_with_fuel(text::dec_value, 2);
        assert(s.drop_last() =~= Seq::<char>::empty());
    } else {
        let t = dec_text(n / 10);
        lemma_dec_text(n / 10);
        assert(s.drop_last() =~= t);
        assert forall|k: int| 0 <= k < s.len() implies text::is_digit(#[trigger] s[k]) by {
            if k < t.len() {
                assert(text::is_digit(t[k]));
            }
        }
    }
}

proof fn lemma_hex_text(n: int)
    requires
        n >= 0,
    ensures
        hex_text(n).len() > 0,
        text::all_hex(hex_text(n)),
        text::hex_value(hex_text(n)) == n,
        n < 0x10 ==> hex_text(n).len() == 1,
        n < 0x100 ==> hex_text(n).len() <= 2,
        n < 0x1000 ==> hex_text(n).len() <= 3,
        n < 0x1_0000 ==> hex_text(n).len() <= 4,
    decreases n,
{
    let s = hex_text(n);
    if n < 16 {
        reveal_with_fuel(text::hex_value, 2);
        assert(s.drop_last() =~= Seq::<char>::empty());
    } else {
        let t = hex_text(n / 16);
        lemma_hex_text(n / 16);
        assert(s.drop_last() =~= t);
        assert forall|k: int| 0 <= k < s.len() implies text::hex_digit(
            #[trigger] s[k],
        ) is Some by {
            if k < t.len() {
                assert(text::hex_digit(t[k]) is Some);
            }
        }
    }
}

proof fn lemma_digits_lack(s: Seq<char>, c: char)
    requires
        text::all_digits(s),
        !text::is_digit(c),
    ensures
        lacks(s, c),
{
    assert forall|k: int| 0 <= k < s.len() implies #[trigger] s[k] != c by {
        assert(text::is_digit(s[k]));
    }
}

proof fn lemma_hex_lacks(s: Seq<char>, c: char)
    requires
        text::all_hex(s),
        text::hex_digit(c) is None,
    ensures
        lacks(s, c),
{
    assert forall|k: int| 0 <= k < s.len() implies #[trigger] s[k] != c by {
        assert(text::hex_digit(s[k]) is Some);
    }
}

proof fn lemma_split_one(s: Seq<char>, sep: char)
    requires
        lacks(s, sep),
    ensures
        text::split(s, sep) == seq![s],
    decreases s.len(),
{
    if s.len() > 0 {
        let t = s.drop_last();
        assert(lacks(t, sep)) by {
            assert forall|k: int| 0 <= k < t.len() implies #[trigger] t[k] != sep by {
                assert(s[k] != sep);
            }
        }
        lemma_split_one(t, sep);
        assert(s[s.len() - 1] != sep);
        assert(t.push(s.last()) =~= s);
        assert(text::split(s, sep) =~= seq![s]);
    } else {
        assert(s =~= Seq::<char>::empty());
    }
}

proof fn lemma_split_append(a: Seq<char>, b: Seq<char>, sep: char)
    ensures
        text::split(a.push(sep) + b, sep) == text::split(a, sep) + text::split(b, sep),
    decreases b.len(),
{
    let s = a.push(sep) + b;
    text::lemma_split_nonempty(a, sep);
    text::lemma_split_nonempty(b, sep);
    if b.len() == 0 {
        assert(s.drop_last() =~= a);
        assert(text::split(s, sep) =~= text::split(a, sep) + text::split(b, sep));
    } else {
        let c = b.drop_last();
        lemma_split_append(a, c, sep);
        text::lemma_split_nonempty(c, sep);
        assert(s.drop_last() =~= a.push(sep) + c);
        assert(s.last() == b.last());
        let before = text::split(a, sep) + text::split(c, sep);
        assert(before.last() == text::split(c, sep).last());
        assert(text::split(s, sep) =~= text::split(a, sep) + text::split(b, sep));
    }
}

proof fn lemma_four_parts(a: Seq<char>, b: Seq<char>, c: Seq<char>, d: Seq<char>)
    requires
        text::all_digits(a),
        text::all_digits(b),
        text::all_digits(c),
        text::all_digits(d),
    ensures
        ({
            let s = a + "."@ + b + "."@ + c + "."@ + d;
            text::split(s, '.') == seq![a, b, c, d] && lacks(s, ':') && lacks(s, '/')
        }),
{
    reveal_strlit(".");
    lemma_digits_lack(a, '.');
    lemma_digits_lack(b, '.');
    lemma_digits_lack(c, '.');
    lemma_digits_lack(d, '.');
    lemma_split_one(a, '.');
    lemma_split_one(b, '.');
    lemma_split_one(c, '.');
    lemma_split_one(d, '.');
    let cd = c.push('.') + d;
    let bcd = b.push('.') + cd;
    let abcd = a.push('.') + bcd;
    lemma_split_append(c, d, '.');
    lemma_split_append(b, cd, '.');
    lemma_split_append(a, bcd, '.');
    let s = a + "."@ + b + "."@ + c + "."@ + d;
    assert(s =~= abcd);
    assert(text::split(s, '.') =~= seq![a, b, c, d]);
    assert forall|k: int| 0 <= k < s.len() implies #[trigger] s[k] != ':' && s[k] != '/' by {
        let i1 = a.len() as int;
        let i2 = i1 + 1 + b.len();
        let i3 = i2 + 1 + c.len();
        if k < i1 {
            assert(text::is_digit(a[k]));
        } else if i1 < k < i2 {
            assert(text::is_digit(b[k - i1 - 1]));
        } else if i2 < k < i3 {
            assert(text::is_digit(c[k - i2 - 1]));
        } else if k > i3 {
            assert(text::is_digit(d[k - i3 - 1]));
        }
    }
}

proof fn lemma_octet(n: int)
    requires
        0 <= n < 0x100,
    ensures
        text::octet(dec_text(n)) == Some(n),
        text::all_digits(dec_text(n)),
        dec_text(n).len() > 0,
{
    lemma_dec_text(n);
}

proof fn lemma_v4_text(bits: int)
    requires
        0 <= bits < 0x1_0000_0000,
    ensures
        text::ipv4_of(v4_text(bits)) == Some(bits),
        lacks(v4_text(bits), ':'),
        lacks(v4_text(bits), '/'),
        v4_text(bits).len() > 0,
{
    let a = bits / 0x100_0000;
    let b = bits / 0x1_0000 % 0x100;
    let c = bits / 0x100 % 0x100;
    let d = bits % 0x100;
    assert(0 <= a < 0x100 && 0 <= b < 0x100 && 0 <= c < 0x100 && 0 <= d < 0x100);
    assert(a * 0x100_0000 + b * 0x1_0000 + c * 0x100 + d == bits);
    lemma_octet(a);
    lemma_octet(b);
    lemma_octet(c);
    lemma_octet(d);
    lemma_four_parts(dec_text(a), dec_text(b), dec_text(c), dec_text(d));
}

/// No two colons stand side by side.
spec fn single_colons(s: Seq<char>) -> bool {
    forall|k: int| 0 <= k < s.len() - 1 ==> !(#[trigger] s[k] == ':' && s[k + 1] == ':')
}

proof fn lemma_no_double(s: Seq<char>, i: int)
    requires
        single_colons(s),
        i >= 0,
    ensures
        text::double_colon(s, i) is None,
    decreases s.len() - i,
{
    if i + 1 < s.len() {
        assert(!(s[i] == ':' && s[i + 1] == ':'));
        lemma_no_double(s, i + 1);
    }
}

proof fn lemma_double_at(s: Seq<char>, i: int, p: int)
    requires
        0 <= i <= p,
        p + 1 < s.len(),
        s[p] == ':',
        s[p + 1] == ':',
        forall|k: int| i <= k < p ==> !(#[trigger] s[k] == ':' && s[k + 1] == ':'),
    ensures
        text::double_colon(s, i) == Some(p),
    decreases p - i,
{
    if i < p {
        assert(!(s[i] == ':' && s[i + 1] == ':'));
        lemma_double_at(s, i + 1, p);
    }
}

pub open spec fn groups_fit(g: Seq<int>) -> bool {
    forall|k: int| 0 <= k < g.len() ==> 0 <= #[trigger] g[k] < 0x1_0000
}

proof fn lemma_joined(g: Seq<int>, a: int, b: int)
    requires
        0 <= a < b <= g.len(),
        groups_fit(g),
    ensures
        joined(g, a, b).len() > 0,
        joined(g, a, b)[0] != ':',
        joined(g, a, b).last() != ':',
        single_colons(joined(g, a, b)),
        lacks(joined(g, a, b), '.'),
        lacks(joined(g, a, b), '/'),
        text::split(joined(g, a, b), ':') == Seq::new((b - a) as nat, |k: int| hex_text(g[a + k])),
    decreases b - a,
{
    reveal_strlit(":");
    let h = hex_text(g[b - 1]);
    let s = joined(g, a, b);
    assert(0 <= g[b - 1] < 0x1_0000);
    lemma_hex_text(g[b - 1]);
    lemma_hex_lacks(h, ':');
    lemma_hex_lacks(h, '.');
    lemma_hex_lacks(h, '/');
    lemma_split_one(h, ':');
    assert(h[0] != ':');
    assert(h[h.len() - 1] != ':');
    let parts = Seq::new((b - a) as nat, |k: int| hex_text(g[a + k]));
    if a + 1 == b {
        assert forall|k: int| 0 <= k < s.len() - 1 implies !(#[trigger] s[k] == ':' && s[k + 1]
            == ':') by {
            assert(h[k] != ':');
        }
        assert(parts =~= seq![h]);
    } else {
        let t = joined(g, a, b - 1);
        lemma_joined(g, a, b - 1);
        lemma_split_append(t, h, ':');
        assert(s =~= t.push(':') + h);
        let before = Seq::new((b - 1 - a) as nat, |k: int| hex_text(g[a + k]));
        assert(parts =~= before + seq![h]);
        assert forall|k: int| 0 <= k < s.len() - 1 implies !(#[trigger] s[k] == ':' && s[k + 1]
            == ':') by {
            if k < t.len() - 1 {
                assert(s[k] == t[k] && s[k + 1] == t[k + 1]);
                assert(!(t[k] == ':' && t[k + 1] == ':'));
            } else if k == t.len() - 1 {
                assert(s[k] == t.last());
            } else if k == t.len() {
                assert(s[k + 1] == h[0]);
            } else {
                assert(s[k] == h[k - t.len() - 1]);
            }
        }
        assert forall|k: int| 0 <= k < s.len() implies #[trigger] s[k] != '.' && s[k] != '/' by {
            if k < t.len() {
                assert(s[k] == t[k]);
            } else if k > t.len() {
                assert(s[k] == h[k - t.len() - 1]);
            }
        }
        assert(s[0] == t[0]);
        assert(s.last() == h[h.len() - 1]);
    }
}

proof fn lemma_plain(p: Seq<Seq<char>>, g: Seq<int>, n: int)
    requires
        0 <= n <= p.len(),
        n <= g.len(),
        groups_fit(g),
        forall|k: int| 0 <= k < n ==> #[trigger] p[k] == hex_text(g[k]),
    ensures
        text::plain_groups(p, n) == Some(g.take(n)),
    decreases n,
{
    if n > 0 {
        lemma_plain(p, g, n - 1);
        assert(p[n - 1] == hex_text(g[n - 1]));
        assert(0 <= g[n - 1] < 0x1_0000);
        lemma_hex_text(g[n - 1]);
        assert(g.take(n) =~= g.take(n - 1).push(g[n - 1]));
    } else {
        assert(g.take(0) =~= Seq::<int>::empty());
    }
}

proof fn lemma_joined_groups(g: Seq<int>, a: int, b: int, dotted: bool)
    requires
        0 <= a <= b <= g.len(),
        groups_fit(g),
    ensures
        text::groups(joined(g, a, b), dotted) == Some(g.subrange(a, b)),
{
    let s = joined(g, a, b);
    if a == b {
        assert(g.subrange(a, b) =~= Seq::<int>::empty());
    } else {
        lemma_joined(g, a, b);
        let p = text::split(s, ':');
        let part = g.subrange(a, b);
        assert(groups_fit(part)) by {
            assert forall|k: int| 0 <= k < part.len() implies 0 <= #[trigger] part[k]
                < 0x1_0000 by {
                assert(part[k] == g[a + k]);
            }
        }
        assert forall|k: int| 0 <= k < p.len() implies #[trigger] p[k] == hex_text(part[k]) by {
            assert(part[k] == g[a + k]);
        }
        lemma_plain(p, part, p.len() as int);
        assert(part.take(p.len() as int) =~= part);
        let last = p[p.len() - 1];
        assert(0 <= part[p.len() - 1] < 0x1_0000);
        lemma_hex_text(part[p.len() - 1]);
        lemma_hex_lacks(last, '.');
        lemma_split_one(last, '.');
        assert(text::ipv4_of(last) is None);
    }
}

proof fn lemma_run(g: Seq<int>, i: int)
    requires
        0 <= i <= g.len(),
    ensures
        0 <= run_at(g, i) <= g.len() - i,
        forall|k: int| i <= k < i + run_at(g, i) ==> #[trigger] g[k] == 0,
    decreases g.len() - i,
{
    if i < g.len() && g[i] == 0 {
        lemma_run(g, i + 1);
    }
}

proof fn lemma_longest_run(g: Seq<int>, i: int)
    requires
        0 <= i <= g.len(),
    ensures
        i <= longest_run(g, i).0,
        0 <= longest_run(g, i).1,
        longest_run(g, i).0 + longest_run(g, i).1 <= g.len(),
        forall|k: int|
            longest_run(g, i).0 <= k < longest_run(g, i).0 + longest_run(g, i).1 ==> #[trigger] g[k]
                == 0,
    decreases g.len() - i,
{
    if i < g.len() {
        lemma_longest_run(g, i + 1);
        lemma_run(g, i);
    }
}

proof fn lemma_div_chain(bits: int, a: int, b: int)
    requires
        bits >= 0,
        a > 0,
        b > 0,
    ensures
        bits / (a * b) == bits / a / b,
{
    div_mod::lemma_div_denominator(bits, a, b);
}

pub proof fn lemma_groups_of(bits: int)
    requires
        0 <= bits <= u128::MAX,
    ensures
        groups_of(bits).len() == 8,
        groups_fit(groups_of(bits)),
        text::group_number(groups_of(bits)) == bits,
{
    let g = groups_of(bits);
    let q1 = bits / 0x1_0000;
    let q2 = q1 / 0x1_0000;
    let q3 = q2 / 0x1_0000;
    let q4 = q3 / 0x1_0000;
    let q5 = q4 / 0x1_0000;
    let q6 = q5 / 0x1_0000;
    let q7 = q6 / 0x1_0000;
    lemma_div_chain(bits, 0x1_0000, 0x1_0000);
    lemma_div_chain(bits, 0x1_0000_0000, 0x1_0000);
    lemma_div_chain(bits, 0x1_0000_0000_0000, 0x1_0000);
    lemma_div_chain(bits, 0x1_0000_0000_0000_0000, 0x1_0000);
    lemma_div_chain(bits, 0x1_0000_0000_0000_0000_0000, 0x1_0000);
    lemma_div_chain(bits, 0x1_0000_0000_0000_0000_0000_0000, 0x1_0000);
    assert(g[7] == bits % 0x1_0000);
    assert(g[6] == q1 % 0x1_0000);
    assert(g[5] == q2 % 0x1_0000);
    assert(g[4] == q3 % 0x1_0000);
    assert(g[3] == q4 % 0x1_0000);
    assert(g[2] == q5 % 0x1_0000);
    assert(g[1] == q6 % 0x1_0000);
    assert(g[0] == q7);
    assert(q7 < 0x1_0000) by {
        div_mod::lemma_div_is_ordered(bits, u128::MAX as int, 0x1_0000_0000_0000_0000_0000_0000_0000);
    }
    text::lemma_eight_groups(g);
}

proof fn lemma_mapped(bits: int)
    requires
        0 <= bits <= u128::MAX,
        bits / 0x1_0000_0000 == 0xffff,
    ensures
        text::ip_of(v6_text(bits)) == Some(IpAddr::V6(Ipv6Addr { bits: bits as u128 })),
        lacks(v6_text(bits), '/'),
{
    reveal_strlit("::ffff:");
    let low = bits % 0x1_0000_0000;
    let v4 = v4_text(low);
    let s = v6_text(bits);
    lemma_v4_text(low);
    assert(s =~= "::ffff:"@ + v4);
    lemma_double_at(s, 0, 0);
    let ffff = seq!['f', 'f', 'f', 'f'];
    assert("::ffff:"@ =~= seq![':', ':', 'f', 'f', 'f', 'f', ':']);
    let tail = ffff.push(':') + v4;
    assert(s.subrange(2, s.len() as int) =~= tail);
    assert(s.subrange(0, 0) =~= Seq::<char>::empty());
    lemma_split_append(ffff, v4, ':');
    lemma_split_one(ffff, ':');
    lemma_split_one(v4, ':');
    let p = text::split(tail, ':');
    assert(p =~= seq![ffff, v4]);
    assert(text::group16(ffff) == Some(0xffffint)) by {
        reveal_with_fuel(text::hex_value, 5);
        assert(ffff.drop_last().drop_last().drop_last().drop_last() =~= Seq::<char>::empty());
    }
    reveal_with_fuel(text::plain_groups, 2);
    let three = seq![0xffffint, low / 0x1_0000, low % 0x1_0000];
    assert(text::plain_groups(p, 1) == Some(Seq::<int>::empty().push(0xffffint)));
    assert(Seq::<int>::empty().push(0xffffint).push(low / 0x1_0000).push(low % 0x1_0000) =~= three);
    assert(text::groups(tail, true) == Some(three));
    let all = Seq::<int>::empty() + text::zero_groups(5) + three;
    text::lemma_eight_groups(all);
    assert(text::group_number(all) == bits);
    assert(text::ipv6_of(s) == Some(bits));
    // The first of its parts between dots is no number.
    let d = dec_text(low / 0x100_0000);
    lemma_octet(low / 0x100_0000);
    let rest = v4.subrange(d.len() as int + 1, v4.len() as int);
    reveal_strlit(".");
    assert(v4 =~= d.push('.') + rest);
    let head = "::ffff:"@ + d;
    assert(s =~= head.push('.') + rest);
    lemma_split_append(head, rest, '.');
    lemma_digits_lack(d, '.');
    assert(lacks(head, '.')) by {
        assert forall|k: int| 0 <= k < head.len() implies #[trigger] head[k] != '.' by {
            if k >= 7 {
                assert(head[k] == d[k - 7]);
            }
        }
    }
    lemma_split_one(head, '.');
    let q = text::split(s, '.');
    assert(q[0] == head);
    assert(!text::is_digit(head[0]));
    assert(text::octet(q[0]) is None);
    assert(text::ipv4_of(s) is None);
    assert forall|k: int| 0 <= k < s.len() implies #[trigger] s[k] != '/' by {
        if k >= 7 {
            assert(s[k] == v4[k - 7]);
        }
    }
}

/// Groups with their longest run of zeros left out.
spec fn shortened(g: Seq<int>) -> Seq<char> {
    let run = longest_run(g, 0);
    if run.1 > 1 {
        joined(g, 0, run.0) + "::"@ + joined(g, run.0 + run.1, 8)
    } else {
        joined(g, 0, 8)
    }
}

proof fn lemma_shortened(g: Seq<int>)
    requires
        g.len() == 8,
        groups_fit(g),
    ensures
        text::ipv6_of(shortened(g)) == Some(text::group_number(g)),
        text::ipv4_of(shortened(g)) is None,
        lacks(shortened(g), '/'),
{
    reveal_strlit("::");
    let s = shortened(g);
    lemma_longest_run(g, 0);
    let (start, len) = longest_run(g, 0);
    if len > 1 {
        let a = joined(g, 0, start);
        let b = joined(g, start + len, 8);
        assert(a.len() > 0 ==> a.last() != ':' && single_colons(a)) by {
            if start > 0 {
                lemma_joined(g, 0, start);
            }
        }
        assert(lacks(a, '.') && lacks(a, '/')) by {
            if start > 0 {
                lemma_joined(g, 0, start);
            }
        }
        assert(lacks(b, '.') && lacks(b, '/')) by {
            if start + len < 8 {
                lemma_joined(g, start + len, 8);
            }
        }
        assert(s =~= a + seq![':', ':'] + b);
        assert forall|k: int| 0 <= k < a.len() implies !(#[trigger] s[k] == ':' && s[k + 1]
            == ':') by {
            assert(s[k] == a[k]);
            if k + 1 < a.len() {
                assert(s[k + 1] == a[k + 1]);
                assert(!(a[k] == ':' && a[k + 1] == ':'));
            } else {
                assert(a[k] == a.last());
            }
        }
        lemma_double_at(s, 0, a.len() as int);
        assert(s.subrange(0, a.len() as int) =~= a);
        assert(s.subrange(a.len() as int + 2, s.len() as int) =~= b);
        lemma_joined_groups(g, 0, start, false);
        lemma_joined_groups(g, start + len, 8, true);
        let ga = g.subrange(0, start);
        let gb = g.subrange(start + len, 8);
        assert(ga + text::zero_groups(8 - ga.len() - gb.len()) + gb =~= g);
        assert forall|k: int| 0 <= k < s.len() implies #[trigger] s[k] != '.' && s[k] != '/' by {
            if k < a.len() {
                assert(s[k] == a[k]);
            } else if k >= a.len() + 2 {
                assert(s[k] == b[k - a.len() - 2]);
            }
        }
    } else {
        lemma_joined(g, 0, 8);
        lemma_no_double(s, 0);
        lemma_joined_groups(g, 0, 8, true);
        assert(g.subrange(0, 8) =~= g);
    }
    lemma_split_one(s, '.');
}

proof fn lemma_compressed(bits: int)
    requires
        0 <= bits <= u128::MAX,
        bits / 0x1_0000_0000 != 0xffff,
    ensures
        text::ip_of(v6_text(bits)) == Some(IpAddr::V6(Ipv6Addr { bits: bits as u128 })),
        lacks(v6_text(bits), '/'),
{
    lemma_groups_of(bits);
    lemma_shortened(groups_of(bits));
    assert(v6_text(bits) == shortened(groups_of(bits)));
}

/// An address that was written out reads back as itself.
pub proof fn law_address_read_back(ip: IpAddr)
    ensures
        text::ip_of(ip_text(ip)) == Some(ip),
        lacks(ip_text(ip), '/'),
{
    match ip {
        IpAddr::V4(a) => {
            lemma_v4_text(a.bits as int);
        },
        IpAddr::V6(a) => {
            if a.bits as int / 0x1_0000_0000 == 0xffff {
                lemma_mapped(a.bits as int);
            } else {
                lemma_compressed(a.bits as int);
            }
        },
    }
}

proof fn lemma_first_at(s: Seq<char>, c: char, i: int, p: int)
    requires
        0 <= i <= p < s.len(),
        s[p] == c,
        forall|k: int| i <= k < p ==> #[trigger] s[k] != c,
    ensures
        text::first_at(s, c, i) == Some(p),
    decreases p - i,
{
    if i < p {
        assert(s[i] != c);
        lemma_first_at(s, c, i + 1, p);
    }
}

/// A number that was written out reads back as itself.
pub proof fn law_number_read_back(n: int, max: int)
    requires
        0 <= n <= max,
    ensures
        text::number(dec_text(n), max) == Some(n),
{
    lemma_dec_text(n);
    assert(text::is_digit(dec_text(n)[0]));
}

/// A number in decimal holds no other character than digits.
pub proof fn lemma_number_lacks(n: int, c: char)
    requires
        n >= 0,
        !text::is_digit(c),
    ensures
        lacks(dec_text(n), c),
{
    lemma_dec_text(n);
    lemma_digits_lack(dec_text(n), c);
}

/// The first separator stands behind a text that lacks it.
pub proof fn lemma_split_at(a: Seq<char>, c: char, b: Seq<char>)
    requires
        lacks(a, c),
    ensures
        text::first_at(a.push(c) + b, c, 0) == Some(a.len() as int),
{
    let s = a.push(c) + b;
    assert forall|k: int| 0 <= k < a.len() implies #[trigger] s[k] != c by {
        assert(s[k] == a[k]);
    }
    lemma_first_at(s, c, 0, a.len() as int);
}

/// A prefix that was written out reads back as itself.
pub proof fn law_prefix_read_back(ip: IpAddr, prefix_len: u8)
    requires
        prefix_len <= (if ip is V4 {
            32u8
        } else {
            128u8
        }),
    ensures
        text::addr_prefix(prefix_text(ip, prefix_len as int)) == Some((ip, prefix_len)),
{
    reveal_strlit("/");
    let a = ip_text(ip);
    let d = dec_text(prefix_len as int);
    let s = prefix_text(ip, prefix_len as int);
    law_address_read_back(ip);
    lemma_dec_text(prefix_len as int);
    assert(s =~= a.push('/') + d);
    assert forall|k: int| 0 <= k < a.len() implies #[trigger] s[k] != '/' by {
        assert(s[k] == a[k]);
    }
    lemma_first_at(s, '/', 0, a.len() as int);
    assert(s.subrange(0, a.len() as int) =~= a);
    assert(s.subrange(a.len() as int + 1, s.len() as int) =~= d);
    assert(text::is_digit(d[0]));
}

} // verus!
