//! Numbers and addresses in text: decimal numbers, dotted IPv4 addresses,
//! IPv6 addresses with their `::`, and lists with separators.
use vstd::prelude::*;

use crate::addr::{IpAddr, Ipv4Addr, Ipv6Addr};

verus! {

/// The characters of a string.
pub fn chars_of(s: &str) -> (v: Vec<char>)
    ensures
        v@ == s@,
{
    let mut v: Vec<char> = Vec::new();
    for c in it: s.chars()
        invariant
            v@ == s@.take(it.index()),
            it.seq() == s@,
    {
        v.push(c);
        assert(s@.take(it.index() + 1) =~= s@.take(it.index()).push(c));
    }
    assert(s@.take(s@.len() as int) =~= s@);
    v
}

/// The texts that strings hold.
pub open spec fn str_views(v: Seq<String>) -> Seq<Seq<char>> {
    Seq::new(v.len(), |k: int| v[k]@)
}

/// Calls `String::push`. Claimed: the character is added at the end.
#[verifier::external_body]
fn push_char(s: &mut String, c: char)
    ensures
        final(s)@ == old(s)@.push(c),
{
    s.push(c)
}

/// The string of characters.
pub fn string_of(chars: &[char]) -> (s: String)
    ensures
        s@ == chars@,
{
    let mut s: String = String::new();
    let mut k: usize = 0;
    assert(s@ =~= chars@.take(0));
    while k < chars.len()
        invariant
            k <= chars.len(),
            s@ == chars@.take(k as int),
        decreases chars.len() - k,
    {
        push_char(&mut s, chars[k]);
        assert(chars@.take(k + 1) =~= chars@.take(k as int).push(chars@[k as int]));
        k += 1;
    }
    assert(chars@.take(chars@.len() as int) =~= chars@);
    s
}

/// Whether two texts are the same.
pub fn same_text(a: &str, b: &str) -> (r: bool)
    ensures
        r == (a@ == b@),
{
    a.to_owned() == b.to_owned()
}

/// Copies strings.
pub fn clone_strings(v: &Vec<String>) -> (c: Vec<String>)
    ensures
        str_views(c@) == str_views(v@),
{
    let mut c: Vec<String> = Vec::new();
    let mut k: usize = 0;
    while k < v.len()
        invariant
            k <= v.len(),
            c@.len() == k,
            forall|j: int| 0 <= j < k ==> (#[trigger] c@[j])@ == v@[j]@,
        decreases v.len() - k,
    {
        c.push(v[k].as_str().to_owned());
        k += 1;
    }
    assert(str_views(c@) =~= str_views(v@));
    c
}

/// A decimal digit.
pub open spec fn is_digit(c: char) -> bool {
    '0' <= c && c <= '9'
}

/// The characters are decimal digits.
pub open spec fn all_digits(s: Seq<char>) -> bool {
    forall|k: int| 0 <= k < s.len() ==> is_digit(#[trigger] s[k])
}

/// The number that decimal digits stand for.
pub open spec fn dec_value(s: Seq<char>) -> int
    decreases s.len(),
{
    if s.len() == 0 {
        0
    } else {
        dec_value(s.drop_last()) * 10 + (s.last() as int - '0' as int)
    }
}

/// A number in text: digits, of which there is at least one, with an optional
/// plus sign in front, up to `max`.
pub open spec fn number(s: Seq<char>, max: int) -> Option<int> {
    let digits = if s.len() > 0 && s[0] == '+' {
        s.subrange(1, s.len() as int)
    } else {
        s
    };
    if digits.len() > 0 && all_digits(digits) && dec_value(digits) <= max {
        Some(dec_value(digits))
    } else {
        None
    }
}

pub proof fn lemma_dec_value_grows(s: Seq<char>, n: int)
    requires
        all_digits(s),
        0 <= n <= s.len(),
    ensures
        0 <= dec_value(s.take(n)) <= dec_value(s),
    decreases s.len(),
{
    assert(s.take(s.len() as int) =~= s);
    if s.len() > 0 {
        let t = s.drop_last();
        assert(all_digits(t)) by {
            assert forall|k: int| 0 <= k < t.len() implies is_digit(#[trigger] t[k]) by {
                assert(is_digit(s[k]));
            }
        }
        assert(is_digit(s[s.len() - 1]));
        lemma_dec_value_grows(t, t.len() as int);
        assert(t.take(t.len() as int) =~= t);
        if n < s.len() {
            lemma_dec_value_grows(t, n);
            assert(t.take(n) =~= s.take(n));
        }
    } else {
        assert(s.take(n) =~= s);
    }
}

/// Reads a number of at most `max` from characters.
pub fn parse_number(s: &[char], max: u32) -> (r: Option<u32>)
    ensures
        match r {
            Some(n) => number(s@, max as int) == Some(n as int),
            None => number(s@, max as int) is None,
        },
{
    let start: usize = if s.len() > 0 && s[0] == '+' {
        1
    } else {
        0
    };
    if start == s.len() {
        return None;
    }
    let ghost digits = s@.subrange(start as int, s@.len() as int);
    assert(start == 0 ==> digits =~= s@);
    let mut n: u64 = 0;
    let mut k: usize = start;
    assert(digits.take(0) =~= Seq::<char>::empty());
    while k < s.len()
        invariant
            start <= k <= s.len(),
            start < s.len(),
            digits == s@.subrange(start as int, s@.len() as int),
            number(s@, max as int) == (if digits.len() > 0 && all_digits(digits) && dec_value(
                digits,
            ) <= max {
                Some(dec_value(digits))
            } else {
                None
            }),
            forall|j: int| 0 <= j < k - start ==> is_digit(#[trigger] digits[j]),
            n == dec_value(digits.take(k - start)),
            n <= max,
        decreases s.len() - k,
    {
        let c: char = s[k];
        assert(digits[k - start] == c);
        if c < '0' || c > '9' {
            return None;
        }
        assert(digits.take(k - start + 1).drop_last() =~= digits.take(k - start));
        assert(digits.take(k - start + 1).last() == c);
        n = n * 10 + (c as u32 - '0' as u32) as u64;
        if n > max as u64 {
            proof {
                if all_digits(digits) {
                    lemma_dec_value_grows(digits, k - start + 1);
                }
            }
            return None;
        }
        k += 1;
    }
    assert(digits.take(digits.len() as int) =~= digits);
    Some(n as u32)
}

/// The parts of a text between the separators; one more than there are
/// separators.
pub open spec fn split(s: Seq<char>, sep: char) -> Seq<Seq<char>>
    decreases s.len(),
{
    if s.len() == 0 {
        seq![Seq::<char>::empty()]
    } else {
        let before = split(s.drop_last(), sep);
        if s.last() == sep {
            before.push(Seq::empty())
        } else {
            before.update(before.len() - 1, before.last().push(s.last()))
        }
    }
}

pub open spec fn char_views(v: Seq<Vec<char>>) -> Seq<Seq<char>> {
    Seq::new(v.len(), |k: int| v[k]@)
}

pub proof fn lemma_split_nonempty(s: Seq<char>, sep: char)
    ensures
        split(s, sep).len() > 0,
    decreases s.len(),
{
    if s.len() > 0 {
        lemma_split_nonempty(s.drop_last(), sep);
    }
}

/// Splits a text at every separator.
pub fn split_on(s: &[char], sep: char) -> (v: Vec<Vec<char>>)
    ensures
        char_views(v@) == split(s@, sep),
        v@.len() > 0,
{
    let mut v: Vec<Vec<char>> = Vec::new();
    let mut part: Vec<char> = Vec::new();
    let mut k: usize = 0;
    assert(s@.take(0) =~= Seq::<char>::empty());
    assert(char_views(v@).push(part@) =~= split(s@.take(0), sep));
    while k < s.len()
        invariant
            k <= s.len(),
            char_views(v@).push(part@) == split(s@.take(k as int), sep),
        decreases s.len() - k,
    {
        let c: char = s[k];
        let ghost before = char_views(v@).push(part@);
        assert(s@.take(k + 1).drop_last() =~= s@.take(k as int));
        assert(s@.take(k + 1).last() == c);
        if c == sep {
            let mut done: Vec<char> = Vec::new();
            std::mem::swap(&mut done, &mut part);
            v.push(done);
            assert(char_views(v@) =~= before);
            assert(char_views(v@).push(part@) =~= before.push(Seq::<char>::empty()));
        } else {
            let ghost old_part = part@;
            part.push(c);
            assert(char_views(v@).push(part@) =~= before.update(
                before.len() - 1,
                before.last().push(c),
            ));
        }
        k += 1;
    }
    assert(s@.take(s@.len() as int) =~= s@);
    let ghost before = char_views(v@).push(part@);
    v.push(part);
    assert(char_views(v@) =~= before);
    v
}

/// Where a character first stands.
pub open spec fn first_at(s: Seq<char>, c: char, i: int) -> Option<int>
    decreases s.len() - i,
{
    if i < 0 || i >= s.len() {
        None
    } else if s[i] == c {
        Some(i)
    } else {
        first_at(s, c, i + 1)
    }
}

/// Finds where a character first stands.
pub fn find_char(s: &[char], c: char) -> (r: Option<usize>)
    ensures
        match r {
            Some(i) => first_at(s@, c, 0) == Some(i as int) && i < s.len(),
            None => first_at(s@, c, 0) is None,
        },
{
    let mut i: usize = 0;
    while i < s.len()
        invariant
            i <= s.len(),
            first_at(s@, c, 0) == first_at(s@, c, i as int),
        decreases s.len() - i,
    {
        if s[i] == c {
            return Some(i);
        }
        i += 1;
    }
    None
}

/// The characters that Unicode counts as white space.
pub open spec fn is_space(c: char) -> bool {
    let n = c as int;
    ||| 9 <= n <= 13
    ||| n == 0x20
    ||| n == 0x85
    ||| n == 0xa0
    ||| n == 0x1680
    ||| 0x2000 <= n <= 0x200a
    ||| n == 0x2028
    ||| n == 0x2029
    ||| n == 0x202f
    ||| n == 0x205f
    ||| n == 0x3000
}

pub fn space(c: char) -> (r: bool)
    ensures
        r == is_space(c),
{
    let n: u32 = c as u32;
    (n >= 9 && n <= 13) || n == 0x20 || n == 0x85 || n == 0xa0 || n == 0x1680 || (n >= 0x2000 && n
        <= 0x200a) || n == 0x2028 || n == 0x2029 || n == 0x202f || n == 0x205f || n == 0x3000
}

/// A text without the white space in front.
pub open spec fn trim_start(s: Seq<char>) -> Seq<char>
    decreases s.len(),
{
    if s.len() > 0 && is_space(s[0]) {
        trim_start(s.subrange(1, s.len() as int))
    } else {
        s
    }
}

/// A text without the white space behind.
pub open spec fn trim_end(s: Seq<char>) -> Seq<char>
    decreases s.len(),
{
    if s.len() > 0 && is_space(s.last()) {
        trim_end(s.drop_last())
    } else {
        s
    }
}

/// A text without the white space around it.
pub open spec fn trim(s: Seq<char>) -> Seq<char> {
    trim_end(trim_start(s))
}

/// Takes the white space off both ends.
pub fn trimmed(s: &[char]) -> (r: &[char])
    ensures
        r@ == trim(s@),
{
    let mut i: usize = 0;
    assert(s@.subrange(0, s@.len() as int) =~= s@);
    while i < s.len() && space(s[i])
        invariant
            i <= s.len(),
            trim_start(s@) == trim_start(s@.subrange(i as int, s@.len() as int)),
        decreases s.len() - i,
    {
        assert(s@.subrange(i as int, s@.len() as int).subrange(1, s@.len() - i) =~= s@.subrange(
            i + 1,
            s@.len() as int,
        ));
        i += 1;
    }
    let ghost front = s@.subrange(i as int, s@.len() as int);
    assert(trim_start(s@) == front);
    let mut j: usize = s.len();
    while j > i && space(s[j - 1])
        invariant
            i <= j <= s.len(),
            trim_end(front) == trim_end(s@.subrange(i as int, j as int)),
        decreases j - i,
    {
        assert(s@.subrange(i as int, j as int).drop_last() =~= s@.subrange(i as int, j - 1));
        j -= 1;
    }
    &s[i..j]
}

/// The runs of other characters between white space.
pub open spec fn words_of(s: Seq<char>) -> Seq<Seq<char>>
    decreases s.len(),
{
    if s.len() == 0 {
        Seq::empty()
    } else {
        let before = words_of(s.drop_last());
        if is_space(s.last()) {
            before
        } else if s.len() > 1 && !is_space(s[s.len() - 2]) {
            before.update(before.len() - 1, before.last().push(s.last()))
        } else {
            before.push(seq![s.last()])
        }
    }
}

/// Splits a text at its white space.
pub fn split_words(s: &[char]) -> (v: Vec<Vec<char>>)
    ensures
        char_views(v@) == words_of(s@),
{
    let mut v: Vec<Vec<char>> = Vec::new();
    let mut k: usize = 0;
    assert(s@.take(0) =~= Seq::<char>::empty());
    assert(char_views(v@) =~= words_of(s@.take(0)));
    while k < s.len()
        invariant
            k <= s.len(),
            char_views(v@) == words_of(s@.take(k as int)),
            k > 0 && !is_space(s@[k - 1]) ==> v@.len() > 0,
        decreases s.len() - k,
    {
        let c: char = s[k];
        let ghost before = char_views(v@);
        assert(s@.take(k + 1).drop_last() =~= s@.take(k as int));
        assert(s@.take(k + 1).last() == c);
        if !space(c) {
            if k > 0 && !space(s[k - 1]) {
                assert(s@.take(k + 1)[k - 1] == s@[k - 1]);
                let n: usize = v.len();
                v[n - 1].push(c);
                assert(char_views(v@) =~= before.update(
                    before.len() - 1,
                    before.last().push(c),
                ));
            } else {
                let mut word: Vec<char> = Vec::new();
                word.push(c);
                v.push(word);
                assert(char_views(v@) =~= before.push(seq![c]));
            }
        }
        k += 1;
    }
    assert(s@.take(s@.len() as int) =~= s@);
    v
}

/// The numbers among texts; the other texts are passed over.
pub open spec fn numbers_in(w: Seq<Seq<char>>) -> Seq<int>
    decreases w.len(),
{
    if w.len() == 0 {
        Seq::empty()
    } else {
        let before = numbers_in(w.drop_last());
        match number(w.last(), u32::MAX as int) {
            Some(n) => before.push(n),
            None => before,
        }
    }
}

/// Reads the numbers of a text, which white space parts.
pub fn parse_numbers(s: &str) -> (v: Vec<u32>)
    ensures
        v@.len() == numbers_in(words_of(s@)).len(),
        forall|k: int| 0 <= k < v@.len() ==> #[trigger] v@[k] == numbers_in(words_of(s@))[k],
{
    let c: Vec<char> = chars_of(s);
    let w: Vec<Vec<char>> = split_words(c.as_slice());
    let ghost words = words_of(s@);
    let mut v: Vec<u32> = Vec::new();
    let mut k: usize = 0;
    assert(words.take(0) =~= Seq::<Seq<char>>::empty());
    while k < w.len()
        invariant
            k <= w.len(),
            char_views(w@) == words,
            v@.len() == numbers_in(words.take(k as int)).len(),
            forall|j: int|
                0 <= j < v@.len() ==> #[trigger] v@[j] == numbers_in(words.take(k as int))[j],
        decreases w.len() - k,
    {
        assert(words.take(k + 1).drop_last() =~= words.take(k as int));
        assert(words.take(k + 1).last() == w@[k as int]@);
        let n: Option<u32> = parse_number(w[k].as_slice(), u32::MAX);
        if let Some(n) = n {
            v.push(n);
        }
        k += 1;
    }
    assert(words.take(words.len() as int) =~= words);
    v
}

/// One of the four numbers of a dotted IPv4 address: one to three digits, no
/// zero in front, at most 255.
pub open spec fn octet(s: Seq<char>) -> Option<int> {
    if 1 <= s.len() <= 3 && all_digits(s) && (s.len() == 1 || s[0] != '0') && dec_value(s) <= 255 {
        Some(dec_value(s))
    } else {
        None
    }
}

fn read_octet(s: &Vec<char>) -> (r: Option<u8>)
    ensures
        match r {
            Some(n) => octet(s@) == Some(n as int),
            None => octet(s@) is None,
        },
{
    if s.len() == 0 || s.len() > 3 {
        return None;
    }
    if s[0] == '+' {
        assert(!is_digit(s@[0]));
        return None;
    }
    if s.len() > 1 && s[0] == '0' {
        return None;
    }
    match parse_number(s.as_slice(), 255) {
        Some(n) => Some(n as u8),
        None => None,
    }
}

/// A dotted IPv4 address.
pub open spec fn ipv4_of(s: Seq<char>) -> Option<int> {
    let p = split(s, '.');
    if p.len() == 4 && octet(p[0]) is Some && octet(p[1]) is Some && octet(p[2]) is Some && octet(
        p[3],
    ) is Some {
        Some(
            octet(p[0])->0 * 0x100_0000 + octet(p[1])->0 * 0x1_0000 + octet(p[2])->0 * 0x100
                + octet(p[3])->0,
        )
    } else {
        None
    }
}

/// Reads a dotted IPv4 address.
pub fn parse_ipv4(s: &[char]) -> (r: Option<u32>)
    ensures
        match r {
            Some(n) => ipv4_of(s@) == Some(n as int),
            None => ipv4_of(s@) is None,
        },
{
    let p: Vec<Vec<char>> = split_on(s, '.');
    let ghost parts = split(s@, '.');
    assert(p@.len() == parts.len());
    if p.len() != 4 {
        return None;
    }
    assert(p@[0]@ == parts[0] && p@[1]@ == parts[1] && p@[2]@ == parts[2] && p@[3]@ == parts[3]);
    match (read_octet(&p[0]), read_octet(&p[1]), read_octet(&p[2]), read_octet(&p[3])) {
        (Some(a), Some(b), Some(c), Some(d)) => Some(
            (a as u32) * 0x100_0000 + (b as u32) * 0x1_0000 + (c as u32) * 0x100 + d as u32,
        ),
        _ => None,
    }
}

/// The value of a hexadecimal digit of either case.
pub open spec fn hex_digit(c: char) -> Option<int> {
    if '0' <= c && c <= '9' {
        Some(c as int - '0' as int)
    } else if 'a' <= c && c <= 'f' {
        Some(c as int - 'a' as int + 10)
    } else if 'A' <= c && c <= 'F' {
        Some(c as int - 'A' as int + 10)
    } else {
        None
    }
}

fn read_hex_digit(c: char) -> (r: Option<u16>)
    ensures
        match r {
            Some(n) => hex_digit(c) == Some(n as int) && n < 16,
            None => hex_digit(c) is None,
        },
{
    if c >= '0' && c <= '9' {
        Some((c as u32 - '0' as u32) as u16)
    } else if c >= 'a' && c <= 'f' {
        Some((c as u32 - 'a' as u32 + 10) as u16)
    } else if c >= 'A' && c <= 'F' {
        Some((c as u32 - 'A' as u32 + 10) as u16)
    } else {
        None
    }
}

pub open spec fn all_hex(s: Seq<char>) -> bool {
    forall|k: int| 0 <= k < s.len() ==> hex_digit(#[trigger] s[k]) is Some
}

pub open spec fn hex_value(s: Seq<char>) -> int
    decreases s.len(),
{
    if s.len() == 0 {
        0
    } else {
        hex_value(s.drop_last()) * 16 + hex_digit(s.last())->0
    }
}

/// One of the groups of an IPv6 address: one to four hexadecimal digits.
pub open spec fn group16(s: Seq<char>) -> Option<int> {
    if 1 <= s.len() <= 4 && all_hex(s) {
        Some(hex_value(s))
    } else {
        None
    }
}

proof fn lemma_hex_value_bound(s: Seq<char>)
    requires
        all_hex(s),
        s.len() <= 4,
    ensures
        s.len() == 0 ==> hex_value(s) == 0,
        s.len() == 1 ==> 0 <= hex_value(s) < 0x10,
        s.len() == 2 ==> 0 <= hex_value(s) < 0x100,
        s.len() == 3 ==> 0 <= hex_value(s) < 0x1000,
        s.len() == 4 ==> 0 <= hex_value(s) < 0x1_0000,
    decreases s.len(),
{
    if s.len() > 0 {
        let t = s.drop_last();
        assert forall|k: int| 0 <= k < t.len() implies hex_digit(#[trigger] t[k]) is Some by {
            assert(hex_digit(s[k]) is Some);
        }
        assert(hex_digit(s[s.len() - 1]) is Some);
        lemma_hex_value_bound(t);
    }
}

fn read_group(s: &Vec<char>) -> (r: Option<u16>)
    ensures
        match r {
            Some(n) => group16(s@) == Some(n as int),
            None => group16(s@) is None,
        },
{
    if s.len() == 0 || s.len() > 4 {
        return None;
    }
    let mut n: u32 = 0;
    let mut k: usize = 0;
    assert(s@.take(0) =~= Seq::<char>::empty());
    while k < s.len()
        invariant
            k <= s.len() <= 4,
            forall|j: int| 0 <= j < k ==> hex_digit(#[trigger] s@[j]) is Some,
            n == hex_value(s@.take(k as int)),
            k == 0 ==> n == 0,
            k == 1 ==> n < 0x10,
            k == 2 ==> n < 0x100,
            k == 3 ==> n < 0x1000,
            k == 4 ==> n < 0x1_0000,
        decreases s.len() - k,
    {
        assert(s@.take(k + 1).drop_last() =~= s@.take(k as int));
        assert(s@.take(k + 1).last() == s@[k as int]);
        match read_hex_digit(s[k]) {
            Some(d) => {
                n = n * 16 + d as u32;
            },
            None => {
                return None;
            },
        }
        k += 1;
    }
    assert(s@.take(s@.len() as int) =~= s@);
    Some(n as u16)
}

/// The groups of the parts before `n`, none of which may be a dotted address.
pub open spec fn plain_groups(p: Seq<Seq<char>>, n: int) -> Option<Seq<int>>
    decreases n,
{
    if n <= 0 {
        Some(Seq::empty())
    } else {
        match (plain_groups(p, n - 1), group16(p[n - 1])) {
            (Some(g), Some(v)) => Some(g.push(v)),
            _ => None,
        }
    }
}

/// The groups of a text between colons. The last part may be a dotted IPv4
/// address where that is allowed, and then stands for two groups.
pub open spec fn groups(s: Seq<char>, dotted: bool) -> Option<Seq<int>> {
    if s.len() == 0 {
        Some(Seq::empty())
    } else {
        let p = split(s, ':');
        let last = p[p.len() - 1];
        if dotted && ipv4_of(last) is Some {
            match plain_groups(p, p.len() - 1) {
                Some(g) => Some(
                    g.push(ipv4_of(last)->0 / 0x1_0000).push(ipv4_of(last)->0 % 0x1_0000),
                ),
                None => None,
            }
        } else {
            plain_groups(p, p.len() as int)
        }
    }
}

pub open spec fn ints(v: Seq<u16>) -> Seq<int> {
    Seq::new(v.len(), |k: int| v[k] as int)
}

fn read_groups(s: &[char], dotted: bool) -> (r: Option<Vec<u16>>)
    ensures
        match r {
            Some(v) => groups(s@, dotted) == Some(ints(v@)),
            None => groups(s@, dotted) is None,
        },
{
    let mut v: Vec<u16> = Vec::new();
    if s.len() == 0 {
        assert(ints(v@) =~= Seq::<int>::empty());
        return Some(v);
    }
    let p: Vec<Vec<char>> = split_on(s, ':');
    let ghost parts = split(s@, ':');
    assert(p@.len() == parts.len());
    assert(forall|k: int| 0 <= k < parts.len() ==> (#[trigger] p@[k])@ == parts[k]);
    let tail: Option<u32> = if dotted {
        parse_ipv4(p[p.len() - 1].as_slice())
    } else {
        None
    };
    let n: usize = match tail {
        Some(_) => p.len() - 1,
        None => p.len(),
    };
    let mut k: usize = 0;
    assert(ints(v@) =~= Seq::<int>::empty());
    while k < n
        invariant
            k <= n <= p@.len(),
            p@.len() == parts.len(),
            forall|j: int| 0 <= j < parts.len() ==> (#[trigger] p@[j])@ == parts[j],
            plain_groups(parts, k as int) == Some(ints(v@)),
            parts == split(s@, ':'),
            s@.len() > 0,
            n == (if dotted && ipv4_of(parts[parts.len() - 1]) is Some {
                parts.len() - 1
            } else {
                parts.len() as int
            }),
        decreases n - k,
    {
        let ghost before = ints(v@);
        match read_group(&p[k]) {
            Some(g) => {
                v.push(g);
                assert(ints(v@) =~= before.push(g as int));
            },
            None => {
                proof {
                    lemma_plain_groups_fails(parts, k + 1, n as int);
                }
                return None;
            },
        }
        k += 1;
    }
    if let Some(a) = tail {
        let ghost before = ints(v@);
        v.push((a / 0x1_0000) as u16);
        v.push((a % 0x1_0000) as u16);
        assert(ints(v@) =~= before.push(a as int / 0x1_0000).push(a as int % 0x1_0000));
    }
    Some(v)
}

proof fn lemma_plain_groups_fails(p: Seq<Seq<char>>, k: int, n: int)
    requires
        0 <= k <= n,
        plain_groups(p, k) is None,
    ensures
        plain_groups(p, n) is None,
    decreases n,
{
    if n > k {
        lemma_plain_groups_fails(p, k, n - 1);
    }
}

/// Where two colons first stand side by side.
pub open spec fn double_colon(s: Seq<char>, i: int) -> Option<int>
    decreases s.len() - i,
{
    if i < 0 || i + 1 >= s.len() {
        None
    } else if s[i] == ':' && s[i + 1] == ':' {
        Some(i)
    } else {
        double_colon(s, i + 1)
    }
}

fn find_double_colon(s: &[char]) -> (r: Option<usize>)
    ensures
        match r {
            Some(i) => double_colon(s@, 0) == Some(i as int) && i + 1 < s.len(),
            None => double_colon(s@, 0) is None,
        },
{
    if s.len() < 2 {
        return None;
    }
    let mut i: usize = 0;
    while i < s.len() - 1
        invariant
            s.len() >= 2,
            i <= s.len() - 1,
            double_colon(s@, 0) == double_colon(s@, i as int),
        decreases s.len() - i,
    {
        if s[i] == ':' && s[i + 1] == ':' {
            return Some(i);
        }
        i += 1;
    }
    None
}

/// The number whose 16-bit groups are given.
pub open spec fn group_number(g: Seq<int>) -> int
    decreases g.len(),
{
    if g.len() == 0 {
        0
    } else {
        group_number(g.drop_last()) * 0x1_0000 + g.last()
    }
}

/// `n` groups of zero.
pub open spec fn zero_groups(n: int) -> Seq<int> {
    Seq::new(n as nat, |k: int| 0int)
}

/// An IPv6 address: eight groups, or fewer around a `::` that stands for at
/// least one group of zeros.
pub open spec fn ipv6_of(s: Seq<char>) -> Option<int> {
    match double_colon(s, 0) {
        None => match groups(s, true) {
            Some(g) => if g.len() == 8 {
                Some(group_number(g))
            } else {
                None
            },
            None => None,
        },
        Some(i) => match (
            groups(s.subrange(0, i), false),
            groups(s.subrange(i + 2, s.len() as int), true),
        ) {
            (Some(a), Some(b)) => if a.len() + b.len() <= 7 {
                Some(group_number(a + zero_groups(8 - a.len() - b.len()) + b))
            } else {
                None
            },
            _ => None,
        },
    }
}

/// The number of eight groups.
fn number_of(v: &Vec<u16>) -> (n: u128)
    requires
        v.len() == 8,
    ensures
        n == group_number(ints(v@)),
{
    let g = v;
    let hi: u128 = ((g[0] as u128 * 0x1_0000 + g[1] as u128) * 0x1_0000 + g[2] as u128) * 0x1_0000
        + g[3] as u128;
    let lo: u128 = ((g[4] as u128 * 0x1_0000 + g[5] as u128) * 0x1_0000 + g[6] as u128) * 0x1_0000
        + g[7] as u128;
    proof {
        lemma_eight_groups(ints(v@));
    }
    hi * 0x1_0000_0000_0000_0000 + lo
}

pub proof fn lemma_eight_groups(g: Seq<int>)
    requires
        g.len() == 8,
    ensures
        group_number(g) == (((((((g[0] * 0x1_0000 + g[1]) * 0x1_0000 + g[2]) * 0x1_0000 + g[3])
            * 0x1_0000 + g[4]) * 0x1_0000 + g[5]) * 0x1_0000 + g[6]) * 0x1_0000 + g[7]),
{
    let g7 = g.drop_last();
    let g6 = g7.drop_last();
    let g5 = g6.drop_last();
    let g4 = g5.drop_last();
    let g3 = g4.drop_last();
    let g2 = g3.drop_last();
    let g1 = g2.drop_last();
    let g0 = g1.drop_last();
    reveal_with_fuel(group_number, 9);
    assert(g0.len() == 0);
}

/// Reads an IPv6 address.
pub fn parse_ipv6(s: &[char]) -> (r: Option<u128>)
    ensures
        match r {
            Some(n) => ipv6_of(s@) == Some(n as int),
            None => ipv6_of(s@) is None,
        },
{
    match find_double_colon(s) {
        None => match read_groups(s, true) {
            Some(g) => if g.len() == 8 {
                Some(number_of(&g))
            } else {
                None
            },
            None => None,
        },
        Some(i) => match (read_groups(&s[0..i], false), read_groups(&s[i + 2..s.len()], true)) {
            (Some(a), Some(b)) => {
                if a.len() > 7 || b.len() > 7 - a.len() {
                    return None;
                }
                let ghost ga = ints(a@);
                let ghost gb = ints(b@);
                let ghost zeros = zero_groups(8 - a@.len() - b@.len());
                let mut all: Vec<u16> = a;
                let mut rest: Vec<u16> = b;
                let target: usize = 8 - rest.len();
                while all.len() < target
                    invariant
                        ga.len() <= all@.len() <= target,
                        target == 8 - gb.len(),
                        gb.len() <= 7,
                        ints(all@) == ga + zero_groups(all@.len() - ga.len()),
                    decreases target - all@.len(),
                {
                    let ghost before = ints(all@);
                    all.push(0);
                    assert(ints(all@) =~= before.push(0int));
                    assert(ints(all@) =~= ga + zero_groups(all@.len() - ga.len()));
                }
                let ghost before = ints(all@);
                all.append(&mut rest);
                assert(ints(all@) =~= before + gb);
                Some(number_of(&all))
            },
            _ => None,
        },
    }
}

/// An IP address of either version.
pub open spec fn ip_of(s: Seq<char>) -> Option<IpAddr> {
    match ipv4_of(s) {
        Some(n) => Some(IpAddr::V4(Ipv4Addr { bits: n as u32 })),
        None => match ipv6_of(s) {
            Some(n) => Some(IpAddr::V6(Ipv6Addr { bits: n as u128 })),
            None => None,
        },
    }
}

/// Reads an IP address of either version.
pub fn parse_ip_chars(s: &[char]) -> (r: Option<IpAddr>)
    ensures
        r == ip_of(s@),
{
    match parse_ipv4(s) {
        Some(bits) => Some(IpAddr::V4(Ipv4Addr { bits })),
        None => match parse_ipv6(s) {
            Some(bits) => Some(IpAddr::V6(Ipv6Addr { bits })),
            None => None,
        },
    }
}

/// Reads an IP address, with white space around it or not.
pub fn parse_ip(s: &str) -> (r: Option<IpAddr>)
    ensures
        r == ip_of(trim(s@)),
{
    let c: Vec<char> = chars_of(s);
    parse_ip_chars(trimmed(c.as_slice()))
}

/// An address and a prefix length with a slash between them, the length within
/// what the IP version allows.
pub open spec fn addr_prefix(s: Seq<char>) -> Option<(IpAddr, u8)> {
    match first_at(s, '/', 0) {
        None => None,
        Some(i) => match (
            ip_of(s.subrange(0, i)),
            number(s.subrange(i + 1, s.len() as int), 255),
        ) {
            (Some(ip), Some(len)) => if len <= (if ip is V4 {
                32int
            } else {
                128int
            }) {
                Some((ip, len as u8))
            } else {
                None
            },
            _ => None,
        },
    }
}

/// The length of a prefix in text is within what the IP version allows.
pub proof fn lemma_addr_prefix_len(s: Seq<char>)
    ensures
        addr_prefix(s) matches Some((ip, len)) ==> len <= (if ip is V4 {
            32int
        } else {
            128int
        }),
{
    if let Some(i) = first_at(s, '/', 0) {
        let t = s.subrange(i + 1, s.len() as int);
        let digits = if t.len() > 0 && t[0] == '+' {
            t.subrange(1, t.len() as int)
        } else {
            t
        };
        if all_digits(digits) {
            lemma_dec_value_grows(digits, 0);
        }
    }
}

/// Reads an address with a prefix length.
pub fn parse_addr_prefix(s: &str) -> (r: Option<(IpAddr, u8)>)
    ensures
        r == addr_prefix(s@),
{
    let c: Vec<char> = chars_of(s);
    let chars: &[char] = c.as_slice();
    match find_char(chars, '/') {
        None => None,
        Some(i) => {
            let ip = match parse_ip_chars(&chars[0..i]) {
                Some(ip) => ip,
                None => {
                    return None;
                },
            };
            match parse_number(&chars[i + 1..chars.len()], 255) {
                None => None,
                Some(len) => {
                    let max: u32 = if ip.is_ipv4() {
                        32
                    } else {
                        128
                    };
                    if len > max {
                        None
                    } else {
                        Some((ip, len as u8))
                    }
                },
            }
        },
    }
}

/// The number that hexadecimal digits stand for, with an optional plus sign in
/// front, up to `max`.
pub open spec fn hex_number(s: Seq<char>, max: int) -> Option<int> {
    let digits = if s.len() > 0 && s[0] == '+' {
        s.subrange(1, s.len() as int)
    } else {
        s
    };
    if digits.len() > 0 && all_hex(digits) && hex_value(digits) <= max {
        Some(hex_value(digits))
    } else {
        None
    }
}

proof fn lemma_hex_value_grows(s: Seq<char>, n: int)
    requires
        all_hex(s),
        0 <= n <= s.len(),
    ensures
        0 <= hex_value(s.take(n)) <= hex_value(s),
    decreases s.len(),
{
    assert(s.take(s.len() as int) =~= s);
    if s.len() > 0 {
        let t = s.drop_last();
        assert(all_hex(t)) by {
            assert forall|k: int| 0 <= k < t.len() implies hex_digit(#[trigger] t[k]) is Some by {
                assert(hex_digit(s[k]) is Some);
            }
        }
        assert(hex_digit(s[s.len() - 1]) is Some);
        lemma_hex_value_grows(t, t.len() as int);
        assert(t.take(t.len() as int) =~= t);
        if n < s.len() {
            lemma_hex_value_grows(t, n);
            assert(t.take(n) =~= s.take(n));
        }
    } else {
        assert(s.take(n) =~= s);
    }
}

/// Reads a hexadecimal number of at most 32 bits.
pub fn parse_hex(s: &[char]) -> (r: Option<u32>)
    ensures
        match r {
            Some(n) => hex_number(s@, u32::MAX as int) == Some(n as int),
            None => hex_number(s@, u32::MAX as int) is None,
        },
{
    let start: usize = if s.len() > 0 && s[0] == '+' {
        1
    } else {
        0
    };
    if start == s.len() {
        return None;
    }
    let ghost digits = s@.subrange(start as int, s@.len() as int);
    assert(start == 0 ==> digits =~= s@);
    let mut n: u64 = 0;
    let mut k: usize = start;
    assert(digits.take(0) =~= Seq::<char>::empty());
    while k < s.len()
        invariant
            start <= k <= s.len(),
            start < s.len(),
            digits == s@.subrange(start as int, s@.len() as int),
            hex_number(s@, u32::MAX as int) == (if digits.len() > 0 && all_hex(digits)
                && hex_value(digits) <= u32::MAX {
                Some(hex_value(digits))
            } else {
                None
            }),
            forall|j: int| 0 <= j < k - start ==> hex_digit(#[trigger] digits[j]) is Some,
            n == hex_value(digits.take(k - start)),
            n <= u32::MAX,
        decreases s.len() - k,
    {
        assert(digits[k - start] == s@[k as int]);
        let d: u16 = match read_hex_digit(s[k]) {
            Some(d) => d,
            None => {
                return None;
            },
        };
        assert(digits.take(k - start + 1).drop_last() =~= digits.take(k - start));
        assert(digits.take(k - start + 1).last() == s@[k as int]);
        n = n * 16 + d as u64;
        if n > u32::MAX as u64 {
            proof {
                if all_hex(digits) {
                    lemma_hex_value_grows(digits, k - start + 1);
                }
            }
            return None;
        }
        k += 1;
    }
    assert(digits.take(digits.len() as int) =~= digits);
    Some(n as u32)
}

/// Reads a number of at most 64 bits.
pub fn parse_u64(s: &[char]) -> (r: Option<u64>)
    ensures
        match r {
            Some(n) => number(s@, u64::MAX as int) == Some(n as int),
            None => number(s@, u64::MAX as int) is None,
        },
{
    let start: usize = if s.len() > 0 && s[0] == '+' {
        1
    } else {
        0
    };
    if start == s.len() {
        return None;
    }
    let ghost digits = s@.subrange(start as int, s@.len() as int);
    assert(start == 0 ==> digits =~= s@);
    let mut n: u128 = 0;
    let mut k: usize = start;
    assert(digits.take(0) =~= Seq::<char>::empty());
    while k < s.len()
        invariant
            start <= k <= s.len(),
            start < s.len(),
            digits == s@.subrange(start as int, s@.len() as int),
            number(s@, u64::MAX as int) == (if digits.len() > 0 && all_digits(digits)
                && dec_value(digits) <= u64::MAX {
                Some(dec_value(digits))
            } else {
                None
            }),
            forall|j: int| 0 <= j < k - start ==> is_digit(#[trigger] digits[j]),
            n == dec_value(digits.take(k - start)),
            n <= u64::MAX,
        decreases s.len() - k,
    {
        let c: char = s[k];
        assert(digits[k - start] == c);
        if c < '0' || c > '9' {
            return None;
        }
        assert(digits.take(k - start + 1).drop_last() =~= digits.take(k - start));
        assert(digits.take(k - start + 1).last() == c);
        n = n * 10 + (c as u32 - '0' as u32) as u128;
        if n > u64::MAX as u128 {
            proof {
                if all_digits(digits) {
                    lemma_dec_value_grows(digits, k - start + 1);
                }
            }
            return None;
        }
        k += 1;
    }
    assert(digits.take(digits.len() as int) =~= digits);
    Some(n as u64)
}

/// The text occurs at this place.
pub open spec fn occurs_at(s: Seq<char>, t: Seq<char>, i: int) -> bool {
    0 <= i && i + t.len() <= s.len() && s.subrange(i, i + t.len()) == t
}

/// The text occurs somewhere.
pub open spec fn contains_text(s: Seq<char>, t: Seq<char>) -> bool {
    exists|i: int| #[trigger] occurs_at(s, t, i)
}

/// Where a text first occurs from `i` on.
pub open spec fn first_occurrence(s: Seq<char>, t: Seq<char>, i: int) -> Option<int>
    decreases s.len() + 1 - i,
{
    if i < 0 || i + t.len() > s.len() {
        None
    } else if s.subrange(i, i + t.len()) == t {
        Some(i)
    } else {
        first_occurrence(s, t, i + 1)
    }
}

fn occurs(s: &[char], t: &[char], i: usize) -> (r: bool)
    requires
        i + t.len() <= s.len(),
    ensures
        r == (s@.subrange(i as int, i + t@.len()) == t@),
{
    let ghost part = s@.subrange(i as int, i + t@.len());
    let mut k: usize = 0;
    while k < t.len()
        invariant
            k <= t.len(),
            i + t.len() <= s.len(),
            part == s@.subrange(i as int, i + t@.len()),
            forall|j: int| 0 <= j < k ==> part[j] == t@[j],
        decreases t.len() - k,
    {
        if s[i + k] != t[k] {
            assert(part[k as int] != t@[k as int]);
            return false;
        }
        k += 1;
    }
    assert(part =~= t@);
    true
}

/// Finds where a text first occurs.
pub fn find_text(s: &[char], t: &[char]) -> (r: Option<usize>)
    ensures
        match r {
            Some(i) => first_occurrence(s@, t@, 0) == Some(i as int) && i + t.len() <= s.len(),
            None => first_occurrence(s@, t@, 0) is None,
        },
        r is Some <==> contains_text(s@, t@),
{
    if t.len() > s.len() {
        assert(forall|i: int| !#[trigger] occurs_at(s@, t@, i));
        return None;
    }
    let last: usize = s.len() - t.len();
    let mut i: usize = 0;
    while i <= last
        invariant
            i <= last + 1,
            last == s.len() - t.len(),
            t.len() <= s.len(),
            first_occurrence(s@, t@, 0) == first_occurrence(s@, t@, i as int),
            forall|j: int| 0 <= j < i ==> !#[trigger] occurs_at(s@, t@, j),
        decreases last + 1 - i,
    {
        if occurs(s, t, i) {
            assert(occurs_at(s@, t@, i as int));
            return Some(i);
        }
        assert(!occurs_at(s@, t@, i as int));
        if i == last {
            assert(first_occurrence(s@, t@, i + 1) is None);
            assert(forall|j: int| !#[trigger] occurs_at(s@, t@, j));
            return None;
        }
        i += 1;
    }
    None
}

} // verus!
