//! Ranges of user ids: which users' traffic is left alone.
use vstd::prelude::*;
use vstd::relations;
use vstd::seq_lib;

use crate::config::TunInboundConfig;
use crate::text;
use crate::text::{chars_of, find_char, parse_number, trimmed};

verus! {

/// The last user id that a rule can name.
pub const UID_MAX: u32 = 0xffff_fffe;

/// The id lies in one of the ranges; a range holds both its ends.
pub open spec fn covered(s: Seq<(u32, u32)>, x: int) -> bool {
    exists|k: int| 0 <= k < s.len() && (#[trigger] s[k]).0 <= x <= s[k].1
}

/// No range ends before it starts.
pub open spec fn valid_ranges(s: Seq<(u32, u32)>) -> bool {
    forall|k: int| 0 <= k < s.len() ==> (#[trigger] s[k]).0 <= s[k].1
}

/// The ranges follow each other with at least one id between any two.
pub open spec fn canonical(s: Seq<(u32, u32)>) -> bool {
    &&& valid_ranges(s)
    &&& forall|i: int, j: int|
        0 <= i < j < s.len() ==> (#[trigger] s[i]).1 + 1 < (#[trigger] s[j]).0
}

/// Two lists of ranges with gaps between them that cover the same ids are the
/// same list.
pub proof fn law_canonical_ranges_unique(a: Seq<(u32, u32)>, b: Seq<(u32, u32)>)
    requires
        canonical(a),
        canonical(b),
        forall|x: int| covered(a, x) <==> covered(b, x),
    ensures
        a == b,
    decreases a.len(),
{
    if a.len() == 0 {
        if b.len() > 0 {
            assert(b[0].0 <= b[0].1);
            assert(covered(b, b[0].0 as int));
            assert(false);
        }
        assert(a =~= b);
    } else {
        assert(a[0].0 <= a[0].1);
        assert(covered(a, a[0].0 as int));
        assert(covered(b, a[0].0 as int));
        assert(b.len() > 0);
        assert(b[0].0 <= b[0].1);
        assert(covered(b, b[0].0 as int));
        assert(covered(a, b[0].0 as int));
        lemma_first_covers(a, b[0].0 as int);
        lemma_first_covers(b, a[0].0 as int);
        assert(a[0].0 == b[0].0);
        assert(covered(a, a[0].1 as int));
        assert(covered(b, b[0].1 as int));
        if a[0].1 < b[0].1 {
            let x = a[0].1 as int + 1;
            assert(b[0].0 <= x <= b[0].1);
            assert(covered(b, x));
            assert(covered(a, x));
            assert(false);
        }
        if b[0].1 < a[0].1 {
            let x = b[0].1 as int + 1;
            assert(a[0].0 <= x <= a[0].1);
            assert(covered(a, x));
            assert(covered(b, x));
            assert(false);
        }
        let ra = a.subrange(1, a.len() as int);
        let rb = b.subrange(1, b.len() as int);
        lemma_tail(a);
        lemma_tail(b);
        assert forall|x: int| covered(ra, x) <==> covered(rb, x) by {
            assert(covered(a, x) <==> covered(b, x));
        }
        law_canonical_ranges_unique(ra, rb);
        assert(a =~= seq![a[0]] + ra);
        assert(b =~= seq![b[0]] + rb);
    }
}

proof fn lemma_first_covers(a: Seq<(u32, u32)>, x: int)
    requires
        canonical(a),
        covered(a, x),
    ensures
        a.len() > 0,
        a[0].0 <= x,
{
    let k = choose|k: int| 0 <= k < a.len() && (#[trigger] a[k]).0 <= x <= a[k].1;
    if k > 0 {
        assert(a[0].1 + 1 < a[k].0);
        assert(a[0].0 <= a[0].1);
    }
}

proof fn lemma_tail(a: Seq<(u32, u32)>)
    requires
        canonical(a),
        a.len() > 0,
    ensures
        canonical(a.subrange(1, a.len() as int)),
        forall|x: int| #[trigger]
            covered(a.subrange(1, a.len() as int), x) <==> covered(a, x) && !(a[0].0 <= x
                <= a[0].1),
{
    let r = a.subrange(1, a.len() as int);
    assert forall|k: int| 0 <= k < r.len() implies (#[trigger] r[k]).0 <= r[k].1 by {
        assert(r[k] == a[k + 1]);
    }
    assert forall|i: int, j: int| 0 <= i < j < r.len() implies (#[trigger] r[i]).1 + 1
        < (#[trigger] r[j]).0 by {
        assert(r[i] == a[i + 1] && r[j] == a[j + 1]);
    }
    assert forall|x: int| #[trigger] covered(r, x) <==> covered(a, x) && !(a[0].0 <= x
        <= a[0].1) by {
        if covered(r, x) {
            let k = choose|k: int| 0 <= k < r.len() && (#[trigger] r[k]).0 <= x <= r[k].1;
            assert(a[k + 1] == r[k]);
            assert(a[0].1 + 1 < a[k + 1].0);
        }
        if covered(a, x) && !(a[0].0 <= x <= a[0].1) {
            let k = choose|k: int| 0 <= k < a.len() && (#[trigger] a[k]).0 <= x <= a[k].1;
            assert(r[k - 1] == a[k]);
        }
    }
}

/// A range of user ids in text: two numbers with a colon between them and
/// white space around each or not, the first not above the second.
pub open spec fn uid_range(s: Seq<char>) -> Option<(u32, u32)> {
    match text::first_at(s, ':', 0) {
        None => None,
        Some(i) => match (
            text::number(text::trim(s.subrange(0, i)), u32::MAX as int),
            text::number(text::trim(s.subrange(i + 1, s.len() as int)), u32::MAX as int),
        ) {
            (Some(start), Some(end)) => if start <= end {
                Some((start as u32, end as u32))
            } else {
                None
            },
            _ => None,
        },
    }
}

/// Reads a range of user ids.
pub fn parse_uid_range(s: &str) -> (r: Option<(u32, u32)>)
    ensures
        r == uid_range(s@),
        r matches Some(p) ==> p.0 <= p.1,
{
    let c: Vec<char> = chars_of(s);
    let chars: &[char] = c.as_slice();
    match find_char(chars, ':') {
        None => None,
        Some(i) => {
            let start: Option<u32> = parse_number(trimmed(&chars[0..i]), u32::MAX);
            let end: Option<u32> = parse_number(trimmed(&chars[i + 1..chars.len()]), u32::MAX);
            match (start, end) {
                (Some(start), Some(end)) => if start > end {
                    None
                } else {
                    Some((start, end))
                },
                _ => None,
            }
        },
    }
}

/// One range goes before another: by its start, then by its end.
pub open spec fn range_leq() -> spec_fn((u32, u32), (u32, u32)) -> bool {
    |a: (u32, u32), b: (u32, u32)| a.0 < b.0 || (a.0 == b.0 && a.1 <= b.1)
}

/// Ranges that follow each other, with those joined that meet or touch.
pub open spec fn joined(s: Seq<(u32, u32)>) -> Seq<(u32, u32)>
    decreases s.len(),
{
    if s.len() == 0 {
        Seq::empty()
    } else {
        let m = joined(s.drop_last());
        let r = s.last();
        if m.len() > 0 && r.0 <= m.last().1 + 1 {
            if r.1 > m.last().1 {
                m.update(m.len() - 1, (m.last().0, r.1))
            } else {
                m
            }
        } else {
            m.push(r)
        }
    }
}

/// Puts a range into its place in an ordered list.
fn insert_range(v: &mut Vec<(u32, u32)>, r: (u32, u32))
    requires
        relations::sorted_by(old(v)@, range_leq()),
    ensures
        relations::sorted_by(final(v)@, range_leq()),
        final(v)@.to_multiset() == old(v)@.to_multiset().insert(r),
{
    let ghost leq = range_leq();
    let mut i: usize = v.len();
    while i > 0 && (v[i - 1].0 > r.0 || (v[i - 1].0 == r.0 && v[i - 1].1 > r.1))
        invariant
            i <= v.len(),
            v@ == old(v)@,
            leq == range_leq(),
            relations::sorted_by(v@, leq),
            forall|k: int| i <= k < v@.len() ==> leq(r, #[trigger] v@[k]),
        decreases i,
    {
        i -= 1;
    }
    let ghost before = v@;
    v.insert(i, r);
    let ghost after = v@;
    assert(after =~= before.insert(i as int, r));
    assert forall|a: int, b: int| 0 <= a < b < after.len() implies #[trigger] leq(
        after[a],
        after[b],
    ) by {
        if i > 0 {
            assert(leq(before[i - 1], r));
        }
        if a < i && b == i {
            assert(a < i - 1 ==> leq(before[a], before[i - 1]));
        } else if a < i && b < i {
            assert(leq(before[a], before[b]));
        } else if a < i {
            assert(leq(before[a], before[b - 1]));
        } else if a == i {
            assert(leq(r, before[b - 1]));
        } else {
            assert(leq(before[a - 1], before[b - 1]));
        }
    }
    proof {
        seq_lib::to_multiset_insert(before, i as int, r);
    }
}

proof fn lemma_covered_push(s: Seq<(u32, u32)>, r: (u32, u32))
    ensures
        forall|x: int| #[trigger]
            covered(s.push(r), x) <==> covered(s, x) || r.0 <= x <= r.1,
{
    let t = s.push(r);
    assert forall|x: int| #[trigger] covered(t, x) <==> covered(s, x) || r.0 <= x <= r.1 by {
        if covered(t, x) {
            let k = choose|k: int| 0 <= k < t.len() && (#[trigger] t[k]).0 <= x <= t[k].1;
            if k < s.len() {
                assert(s[k] == t[k]);
            }
        }
        if covered(s, x) {
            let k = choose|k: int| 0 <= k < s.len() && (#[trigger] s[k]).0 <= x <= s[k].1;
            assert(t[k] == s[k]);
        }
        if r.0 <= x <= r.1 {
            assert(t[s.len() as int] == r);
        }
    }
}

/// Joining ranges in order keeps what they cover; those that end after they
/// start come out with gaps between them.
proof fn lemma_joined(s: Seq<(u32, u32)>)
    requires
        relations::sorted_by(s, range_leq()),
    ensures
        forall|x: int| #[trigger] covered(joined(s), x) <==> covered(s, x),
        joined(s).len() == 0 <==> s.len() == 0,
        s.len() > 0 ==> joined(s).last().0 <= s.last().0,
        valid_ranges(s) ==> canonical(joined(s)),
    decreases s.len(),
{
    if s.len() > 0 {
        let leq = range_leq();
        let c = s.drop_last();
        let r = s.last();
        let m = joined(c);
        let after = joined(s);
        assert forall|a: int, b: int| 0 <= a < b < c.len() implies #[trigger] leq(c[a], c[b]) by {
            assert(leq(s[a], s[b]));
        }
        lemma_joined(c);
        assert(c.push(r) =~= s);
        lemma_covered_push(c, r);
        if c.len() > 0 {
            assert(leq(s[c.len() - 1], s[s.len() - 1]));
        }
        if m.len() > 0 && r.0 <= m.last().1 + 1 {
            lemma_joined_last(m, after, r);
            assert forall|x: int| #[trigger] covered(after, x) <==> covered(s, x) by {
                assert(covered(m, x) <==> covered(c, x));
            }
        } else {
            lemma_covered_push(m, r);
            assert forall|x: int| #[trigger] covered(after, x) <==> covered(s, x) by {
                assert(covered(m, x) <==> covered(c, x));
            }
        }
        if valid_ranges(s) {
            assert(s[s.len() - 1].0 <= s[s.len() - 1].1);
            assert forall|k: int| 0 <= k < c.len() implies (#[trigger] c[k]).0 <= c[k].1 by {
                assert(s[k].0 <= s[k].1);
            }
            if !(m.len() > 0 && r.0 <= m.last().1 + 1) && m.len() > 0 {
                let n = m.len() as int;
                assert forall|a: int, b: int| 0 <= a < b < after.len() implies (
                #[trigger] after[a]).1 + 1 < (#[trigger] after[b]).0 by {
                    if b == n {
                        if a < n - 1 {
                            assert(m[a].1 + 1 < m[n - 1].0);
                            assert(m[n - 1].0 <= m[n - 1].1);
                        }
                    } else {
                        assert(m[a].1 + 1 < m[b].0);
                    }
                }
            }
        }
    }
}

/// Lists with the same ranges cover the same ids.
proof fn lemma_same_ranges(a: Seq<(u32, u32)>, b: Seq<(u32, u32)>)
    requires
        a.to_multiset() == b.to_multiset(),
    ensures
        a.len() == b.len(),
        forall|x: int| #[trigger] covered(a, x) ==> covered(b, x),
        valid_ranges(b) ==> valid_ranges(a),
{
    a.to_multiset_ensures();
    b.to_multiset_ensures();
    assert forall|x: int| #[trigger] covered(a, x) implies covered(b, x) by {
        let k = choose|k: int| 0 <= k < a.len() && (#[trigger] a[k]).0 <= x <= a[k].1;
        assert(a.contains(a[k]));
        assert(b.to_multiset().count(a[k]) > 0);
        let j = choose|j: int| 0 <= j < b.len() && b[j] == a[k];
        assert(b[j].0 <= x <= b[j].1);
    }
    if valid_ranges(b) {
        assert forall|k: int| 0 <= k < a.len() implies (#[trigger] a[k]).0 <= a[k].1 by {
            assert(a.contains(a[k]));
            assert(b.to_multiset().count(a[k]) > 0);
            let j = choose|j: int| 0 <= j < b.len() && b[j] == a[k];
            assert(b[j].0 <= b[j].1);
        }
    }
}

/// The ranges in order, with those joined that meet or touch. They cover the
/// same ids, and where no range ends before it starts there are gaps between
/// them.
pub fn merge_ranges(ranges: &[(u32, u32)]) -> (merged: Vec<(u32, u32)>)
    ensures
        merged@ == joined(ranges@.sort_by(range_leq())),
        forall|x: int| #[trigger] covered(merged@, x) <==> covered(ranges@, x),
        merged@.len() == 0 <==> ranges@.len() == 0,
        valid_ranges(ranges@) ==> canonical(merged@),
{
    let mut sorted: Vec<(u32, u32)> = Vec::new();
    let mut k: usize = 0;
    assert(ranges@.take(0) =~= sorted@);
    while k < ranges.len()
        invariant
            k <= ranges.len(),
            relations::sorted_by(sorted@, range_leq()),
            sorted@.to_multiset() == ranges@.take(k as int).to_multiset(),
        decreases ranges.len() - k,
    {
        insert_range(&mut sorted, ranges[k]);
        proof {
            ranges@.take(k as int).to_multiset_ensures();
            assert(ranges@.take(k + 1) =~= ranges@.take(k as int).push(ranges@[k as int]));
        }
        k += 1;
    }
    assert(ranges@.take(ranges@.len() as int) =~= ranges@);
    let mut merged: Vec<(u32, u32)> = Vec::new();
    let mut i: usize = 0;
    assert(sorted@.take(0) =~= Seq::<(u32, u32)>::empty());
    while i < sorted.len()
        invariant
            i <= sorted.len(),
            merged@ == joined(sorted@.take(i as int)),
        decreases sorted.len() - i,
    {
        let r: (u32, u32) = sorted[i];
        let n: usize = merged.len();
        assert(sorted@.take(i + 1).drop_last() =~= sorted@.take(i as int));
        assert(sorted@.take(i + 1).last() == r);
        if n > 0 && (merged[n - 1].1 == u32::MAX || r.0 <= merged[n - 1].1 + 1) {
            if r.1 > merged[n - 1].1 {
                let start: u32 = merged[n - 1].0;
                merged.set(n - 1, (start, r.1));
            }
        } else {
            merged.push(r);
        }
        i += 1;
    }
    assert(sorted@.take(sorted@.len() as int) =~= sorted@);
    proof {
        let leq = range_leq();
        assert(relations::total_ordering(leq));
        ranges@.lemma_sort_by_ensures(leq);
        seq_lib::lemma_sorted_unique(sorted@, ranges@.sort_by(leq), leq);
        lemma_joined(sorted@);
        lemma_same_ranges(sorted@, ranges@);
        lemma_same_ranges(ranges@, sorted@);
    }
    merged
}

/// Stretching the last range over one that starts in it or right behind it.
proof fn lemma_joined_last(before: Seq<(u32, u32)>, after: Seq<(u32, u32)>, r: (u32, u32))
    requires
        before.len() > 0,
        before.last().0 <= r.0 <= before.last().1 + 1,
        after == (if r.1 > before.last().1 {
            before.update(before.len() - 1, (before.last().0, r.1))
        } else {
            before
        }),
    ensures
        canonical(before) ==> canonical(after),
        forall|x: int| #[trigger]
            covered(after, x) <==> covered(before, x) || r.0 <= x <= r.1,
{
    let n = before.len() as int;
    if canonical(before) {
        assert forall|a: int, b: int| 0 <= a < b < after.len() implies (#[trigger] after[a]).1 + 1
            < (#[trigger] after[b]).0 by {
            assert(before[a].1 + 1 < before[b].0);
        }
        assert forall|k: int| 0 <= k < after.len() implies (#[trigger] after[k]).0
            <= after[k].1 by {
            assert(before[k].0 <= before[k].1);
        }
    }
    assert forall|x: int| #[trigger] covered(after, x) <==> covered(before, x) || r.0 <= x
        <= r.1 by {
        if covered(after, x) {
            let k = choose|k: int| 0 <= k < after.len() && (#[trigger] after[k]).0 <= x
                <= after[k].1;
            if k < n - 1 {
                assert(before[k] == after[k]);
            } else {
                assert(before[n - 1].0 <= x <= before[n - 1].1 || r.0 <= x <= r.1);
            }
        }
        if covered(before, x) {
            let k = choose|k: int| 0 <= k < before.len() && (#[trigger] before[k]).0 <= x
                <= before[k].1;
            assert(after[k].0 <= x <= after[k].1);
        }
        if r.0 <= x <= r.1 {
            assert(after[n - 1].0 <= x <= after[n - 1].1);
        }
    }
}

/// The ids of a list and of ranges in text.
pub open spec fn selected(uids: Seq<u32>, ranges: Seq<Seq<char>>, x: int) -> bool {
    ||| exists|k: int| 0 <= k < uids.len() && #[trigger] uids[k] == x
    ||| exists|k: int| 0 <= k < ranges.len() && in_text_range(#[trigger] ranges[k], x)
}

/// The id lies in a range that the text gives.
pub open spec fn in_text_range(s: Seq<char>, x: int) -> bool {
    match uid_range(s) {
        Some(r) => r.0 <= x <= r.1,
        None => false,
    }
}

/// The ranges that cover a list of ids and the ranges that texts give; a text
/// that gives no range counts for nothing.
pub fn merge_uid_list_and_ranges(uids: &[u32], ranges: &[String]) -> (merged: Vec<(u32, u32)>)
    ensures
        canonical(merged@),
        forall|x: int| #[trigger]
            covered(merged@, x) <==> selected(uids@, text::str_views(ranges@), x),
{
    let ghost texts = text::str_views(ranges@);
    let mut all: Vec<(u32, u32)> = Vec::new();
    let mut k: usize = 0;
    while k < uids.len()
        invariant
            k <= uids.len(),
            valid_ranges(all@),
            forall|x: int| #[trigger]
                covered(all@, x) <==> (exists|j: int| 0 <= j < k && #[trigger] uids@[j] == x),
        decreases uids.len() - k,
    {
        let u: u32 = uids[k];
        let ghost before = all@;
        all.push((u, u));
        proof {
            lemma_covered_push(before, (u, u));
            assert forall|x: int| #[trigger] covered(all@, x) <==> (exists|j: int|
                0 <= j < k + 1 && #[trigger] uids@[j] == x) by {
                assert(covered(before, x) <==> (exists|j: int|
                    0 <= j < k && #[trigger] uids@[j] == x));
                if u == x {
                    assert(uids@[k as int] == x);
                }
            }
        }
        k += 1;
    }
    let mut i: usize = 0;
    while i < ranges.len()
        invariant
            i <= ranges.len(),
            valid_ranges(all@),
            texts == text::str_views(ranges@),
            forall|x: int| #[trigger]
                covered(all@, x) <==> ((exists|j: int| 0 <= j < uids@.len() && #[trigger] uids@[j]
                    == x) || (exists|j: int|
                    0 <= j < i && in_text_range(#[trigger] texts[j], x))),
        decreases ranges.len() - i,
    {
        let ghost before = all@;
        let r: Option<(u32, u32)> = parse_uid_range(ranges[i].as_str());
        assert(texts[i as int] == ranges@[i as int]@);
        if let Some(r) = r {
            all.push(r);
            proof {
                lemma_covered_push(before, r);
            }
        }
        proof {
            assert forall|x: int| #[trigger] covered(all@, x) <==> ((exists|j: int|
                0 <= j < uids@.len() && #[trigger] uids@[j] == x) || (exists|j: int|
                0 <= j < i + 1 && in_text_range(#[trigger] texts[j], x))) by {
                assert(covered(before, x) <==> ((exists|j: int|
                    0 <= j < uids@.len() && #[trigger] uids@[j] == x) || (exists|j: int|
                    0 <= j < i && in_text_range(#[trigger] texts[j], x))));
                if in_text_range(texts[i as int], x) {
                    assert(covered(all@, x));
                }
            }
        }
        i += 1;
    }
    let merged: Vec<(u32, u32)> = merge_ranges(all.as_slice());
    assert forall|x: int| #[trigger] covered(merged@, x) <==> selected(uids@, texts, x) by {
        assert(covered(merged@, x) <==> covered(all@, x));
    }
    merged
}

/// What is left of a range without the ids from `lo` to `hi`: the range where
/// they do not meet, else its part in front of them and its part behind them.
pub open spec fn range_without(r: (u32, u32), lo: u32, hi: u32) -> Seq<(u32, u32)> {
    if hi < r.0 || lo > r.1 {
        seq![r]
    } else {
        let front = if r.0 < lo {
            seq![(r.0, (lo - 1) as u32)]
        } else {
            Seq::empty()
        };
        if r.1 > hi {
            front.push(((hi + 1) as u32, r.1))
        } else {
            front
        }
    }
}

/// What is left of each range, in order.
pub open spec fn ranges_without(s: Seq<(u32, u32)>, lo: u32, hi: u32) -> Seq<(u32, u32)>
    decreases s.len(),
{
    if s.len() == 0 {
        Seq::empty()
    } else {
        ranges_without(s.drop_last(), lo, hi) + range_without(s.last(), lo, hi)
    }
}

/// What is left of each range without all of others, in order.
pub open spec fn subtracted(base: Seq<(u32, u32)>, sub: Seq<(u32, u32)>) -> Seq<(u32, u32)>
    decreases sub.len(),
{
    if sub.len() == 0 {
        base
    } else {
        ranges_without(subtracted(base, sub.drop_last()), sub.last().0, sub.last().1)
    }
}

/// Each range ends before the next one starts.
pub open spec fn sorted_disjoint(s: Seq<(u32, u32)>) -> bool {
    &&& valid_ranges(s)
    &&& forall|i: int, j: int| 0 <= i < j < s.len() ==> (#[trigger] s[i]).1 < (#[trigger] s[j]).0
}

/// Each range lies within one of the others.
pub open spec fn ranges_within(s: Seq<(u32, u32)>, others: Seq<(u32, u32)>) -> bool {
    forall|k: int| 0 <= k < s.len() ==> range_within(#[trigger] s[k], others)
}

pub open spec fn range_within(r: (u32, u32), others: Seq<(u32, u32)>) -> bool {
    exists|j: int| 0 <= j < others.len() && (#[trigger] others[j]).0 <= r.0 && r.1 <= others[j].1
}

/// The last ids of `s` lie more than `gap` before `at`.
spec fn ends_before(s: Seq<(u32, u32)>, gap: int, at: int) -> bool {
    forall|k: int| 0 <= k < s.len() ==> (#[trigger] s[k]).1 + gap < at
}

proof fn lemma_append_spaced(s: Seq<(u32, u32)>, r: (u32, u32))
    ensures
        sorted_disjoint(s) && r.0 <= r.1 && ends_before(s, 0, r.0 as int) ==> sorted_disjoint(
            s.push(r),
        ),
        canonical(s) && r.0 <= r.1 && ends_before(s, 1, r.0 as int) ==> canonical(s.push(r)),
{
    let t = s.push(r);
    assert forall|k: int| 0 <= k < s.len() implies #[trigger] t[k] == s[k] by {}
    if sorted_disjoint(s) && r.0 <= r.1 && ends_before(s, 0, r.0 as int) {
        assert forall|a: int, b: int| 0 <= a < b < t.len() implies (#[trigger] t[a]).1 < (
        #[trigger] t[b]).0 by {
            assert(s[a].1 + 0 < r.0);
        }
    }
    if canonical(s) && r.0 <= r.1 && ends_before(s, 1, r.0 as int) {
        lemma_append_canonical(s, r);
    }
}

/// Taking ids out of ranges leaves the other ids, and keeps the ranges in order.
proof fn lemma_ranges_without(s: Seq<(u32, u32)>, lo: u32, hi: u32)
    ensures
        forall|x: int| #[trigger]
            covered(ranges_without(s, lo, hi), x) <==> covered(s, x) && !(lo <= x <= hi),
        ranges_within(ranges_without(s, lo, hi), s),
        valid_ranges(s) ==> valid_ranges(ranges_without(s, lo, hi)),
        lo <= hi && sorted_disjoint(s) ==> sorted_disjoint(ranges_without(s, lo, hi)),
        lo <= hi && canonical(s) ==> canonical(ranges_without(s, lo, hi)),
    decreases s.len(),
{
    let t = ranges_without(s, lo, hi);
    if s.len() > 0 {
        let c = s.drop_last();
        let r = s.last();
        let u = ranges_without(c, lo, hi);
        let piece = range_without(r, lo, hi);
        lemma_ranges_without(c, lo, hi);
        assert(c.push(r) =~= s);
        lemma_covered_push(c, r);
        let front = (r.0, (lo - 1) as u32);
        let behind = ((hi + 1) as u32, r.1);
        let mid = if r.0 < lo {
            u.push(front)
        } else {
            u
        };
        lemma_covered_push(u, r);
        lemma_covered_push(u, front);
        lemma_covered_push(mid, behind);
        if hi < r.0 || lo > r.1 {
            assert(t =~= u.push(r));
        } else if r.1 > hi {
            assert(t =~= mid.push(behind));
        } else {
            assert(t =~= mid);
        }
        assert forall|x: int| #[trigger] covered(t, x) <==> covered(s, x) && !(lo <= x <= hi) by {
            assert(covered(u, x) <==> covered(c, x) && !(lo <= x <= hi));
            assert(covered(s, x) <==> covered(c, x) || r.0 <= x <= r.1);
        }
        assert forall|k: int| 0 <= k < t.len() implies range_within(#[trigger] t[k], s) by {
            if k < u.len() {
                assert(range_within(u[k], c));
                let j = choose|j: int|
                    0 <= j < c.len() && (#[trigger] c[j]).0 <= u[k].0 && u[k].1 <= c[j].1;
                assert(s[j] == c[j]);
            } else {
                assert(s[s.len() - 1] == r);
            }
        }
        assert(s[s.len() - 1] == r);
        assert(forall|k: int| 0 <= k < c.len() ==> #[trigger] c[k] == s[k]);
        if valid_ranges(s) {
            assert(valid_ranges(c)) by {
                assert forall|k: int| 0 <= k < c.len() implies (#[trigger] c[k]).0 <= c[k].1 by {
                    assert(s[k].0 <= s[k].1);
                }
            }
        }
        if lo <= hi && sorted_disjoint(s) {
            assert(sorted_disjoint(c)) by {
                assert forall|a: int, b: int| 0 <= a < b < c.len() implies (#[trigger] c[a]).1 < (
                #[trigger] c[b]).0 by {
                    assert(s[a].1 < s[b].0);
                }
            }
            assert(ends_before(u, 0, r.0 as int)) by {
                assert forall|k: int| 0 <= k < u.len() implies (#[trigger] u[k]).1 + 0 < r.0 by {
                    assert(range_within(u[k], c));
                    let j = choose|j: int|
                        0 <= j < c.len() && (#[trigger] c[j]).0 <= u[k].0 && u[k].1 <= c[j].1;
                    assert(s[j].1 < s[s.len() - 1].0);
                }
            }
            lemma_append_spaced(u, r);
            lemma_append_spaced(u, front);
            if !(hi < r.0 || lo > r.1) && r.1 > hi {
                assert(ends_before(mid, 0, behind.0 as int));
            }
            lemma_append_spaced(mid, behind);
        }
        if lo <= hi && canonical(s) {
            assert(canonical(c)) by {
                assert forall|a: int, b: int| 0 <= a < b < c.len() implies (#[trigger] c[a]).1 + 1
                    < (#[trigger] c[b]).0 by {
                    assert(s[a].1 + 1 < s[b].0);
                }
            }
            assert(ends_before(u, 1, r.0 as int)) by {
                assert forall|k: int| 0 <= k < u.len() implies (#[trigger] u[k]).1 + 1 < r.0 by {
                    assert(range_within(u[k], c));
                    let j = choose|j: int|
                        0 <= j < c.len() && (#[trigger] c[j]).0 <= u[k].0 && u[k].1 <= c[j].1;
                    assert(s[j].1 + 1 < s[s.len() - 1].0);
                }
            }
            lemma_append_spaced(u, r);
            lemma_append_spaced(u, front);
            if !(hi < r.0 || lo > r.1) && r.1 > hi {
                assert(ends_before(mid, 1, behind.0 as int));
            }
            lemma_append_spaced(mid, behind);
        }
    }
}

/// A list without the ids from `lo` to `hi`.
fn cut_range(base: &[(u32, u32)], lo: u32, hi: u32) -> (rest: Vec<(u32, u32)>)
    ensures
        rest@ == ranges_without(base@, lo, hi),
{
    let mut rest: Vec<(u32, u32)> = Vec::new();
    let mut k: usize = 0;
    assert(base@.take(0) =~= Seq::<(u32, u32)>::empty());
    while k < base.len()
        invariant
            k <= base.len(),
            rest@ == ranges_without(base@.take(k as int), lo, hi),
        decreases base.len() - k,
    {
        let (a, b) = base[k];
        let ghost before = rest@;
        if hi < a || lo > b {
            rest.push((a, b));
        } else {
            if a < lo {
                rest.push((a, lo - 1));
            }
            if b > hi {
                rest.push((hi + 1, b));
            }
        }
        assert(base@.take(k + 1).drop_last() =~= base@.take(k as int));
        assert(base@.take(k + 1).last() == (a, b));
        assert(rest@ =~= before + range_without((a, b), lo, hi));
        k += 1;
    }
    assert(base@.take(base@.len() as int) =~= base@);
    rest
}

proof fn lemma_append_canonical(s: Seq<(u32, u32)>, r: (u32, u32))
    requires
        canonical(s),
        r.0 <= r.1,
        forall|j: int| 0 <= j < s.len() ==> (#[trigger] s[j]).1 + 1 < r.0,
    ensures
        canonical(s.push(r)),
{
    let t = s.push(r);
    assert forall|a: int, b: int| 0 <= a < b < t.len() implies (#[trigger] t[a]).1 + 1 < (
    #[trigger] t[b]).0 by {
        if b < s.len() {
            assert(s[a].1 + 1 < s[b].0);
        } else {
            assert(s[a].1 + 1 < r.0);
        }
    }
}

fn copy_ranges(s: &[(u32, u32)]) -> (v: Vec<(u32, u32)>)
    ensures
        v@ == s@,
{
    let mut v: Vec<(u32, u32)> = Vec::new();
    let mut k: usize = 0;
    while k < s.len()
        invariant
            k <= s.len(),
            v@ == s@.take(k as int),
        decreases s.len() - k,
    {
        v.push(s[k]);
        assert(s@.take(k + 1) =~= s@.take(k as int).push(s@[k as int]));
        k += 1;
    }
    assert(s@.take(s@.len() as int) =~= s@);
    v
}

/// Subtracting ranges leaves the ids that they do not cover, and keeps the
/// ranges in order.
proof fn lemma_subtracted(base: Seq<(u32, u32)>, sub: Seq<(u32, u32)>)
    ensures
        forall|x: int| #[trigger]
            covered(subtracted(base, sub), x) <==> covered(base, x) && !covered(sub, x),
        ranges_within(subtracted(base, sub), base),
        valid_ranges(base) ==> valid_ranges(subtracted(base, sub)),
        valid_ranges(sub) && sorted_disjoint(base) ==> sorted_disjoint(subtracted(base, sub)),
        valid_ranges(sub) && canonical(base) ==> canonical(subtracted(base, sub)),
    decreases sub.len(),
{
    if sub.len() > 0 {
        let c = sub.drop_last();
        let r = sub.last();
        let u = subtracted(base, c);
        let t = subtracted(base, sub);
        lemma_subtracted(base, c);
        lemma_ranges_without(u, r.0, r.1);
        assert(c.push(r) =~= sub);
        lemma_covered_push(c, r);
        assert forall|x: int| #[trigger] covered(t, x) <==> covered(base, x) && !covered(sub, x) by {
            assert(covered(u, x) <==> covered(base, x) && !covered(c, x));
        }
        assert forall|k: int| 0 <= k < t.len() implies range_within(#[trigger] t[k], base) by {
            assert(range_within(t[k], u));
            let j = choose|j: int|
                0 <= j < u.len() && (#[trigger] u[j]).0 <= t[k].0 && t[k].1 <= u[j].1;
            assert(range_within(u[j], base));
            let i = choose|i: int|
                0 <= i < base.len() && (#[trigger] base[i]).0 <= u[j].0 && u[j].1 <= base[i].1;
            assert(base[i].0 <= t[k].0 && t[k].1 <= base[i].1);
        }
        if valid_ranges(sub) {
            assert(sub[sub.len() - 1].0 <= sub[sub.len() - 1].1);
            assert(valid_ranges(c)) by {
                assert forall|k: int| 0 <= k < c.len() implies (#[trigger] c[k]).0 <= c[k].1 by {
                    assert(sub[k].0 <= sub[k].1);
                }
            }
        }
    } else {
        let t = subtracted(base, sub);
        assert forall|k: int| 0 <= k < t.len() implies range_within(#[trigger] t[k], base) by {
            assert(base[k].0 <= t[k].0);
        }
    }
}

/// The ids of the first list that the second does not cover. What is left of
/// each range stays in its place.
pub fn subtract_ranges(base: &[(u32, u32)], sub: &[(u32, u32)]) -> (rest: Vec<(u32, u32)>)
    ensures
        rest@ == subtracted(base@, sub@),
        forall|x: int| #[trigger]
            covered(rest@, x) <==> covered(base@, x) && !covered(sub@, x),
        ranges_within(rest@, base@),
        valid_ranges(base@) ==> valid_ranges(rest@),
        valid_ranges(sub@) && sorted_disjoint(base@) ==> sorted_disjoint(rest@),
        valid_ranges(sub@) && canonical(base@) ==> canonical(rest@),
{
    let mut rest: Vec<(u32, u32)> = copy_ranges(base);
    let mut k: usize = 0;
    assert(sub@.take(0) =~= Seq::<(u32, u32)>::empty());
    while k < sub.len()
        invariant
            k <= sub.len(),
            rest@ == subtracted(base@, sub@.take(k as int)),
        decreases sub.len() - k,
    {
        assert(sub@.take(k + 1).drop_last() =~= sub@.take(k as int));
        assert(sub@.take(k + 1).last() == sub@[k as int]);
        rest = cut_range(rest.as_slice(), sub[k].0, sub[k].1);
        k += 1;
    }
    assert(sub@.take(sub@.len() as int) =~= sub@);
    proof {
        lemma_subtracted(base@, sub@);
    }
    rest
}

/// The ids from `lo` to `hi`, as ranges.
pub open spec fn whole_range(lo: u32, hi: u32) -> Seq<(u32, u32)> {
    if lo <= hi {
        seq![(lo, hi)]
    } else {
        Seq::empty()
    }
}

/// The ids from `lo` to `hi` that the ranges do not cover, in whatever order
/// these come.
pub fn complement_ranges(ranges: &[(u32, u32)], lo: u32, hi: u32) -> (rest: Vec<(u32, u32)>)
    ensures
        rest@ == subtracted(whole_range(lo, hi), ranges@),
        forall|x: int| #[trigger]
            covered(rest@, x) <==> lo <= x <= hi && !covered(ranges@, x),
        valid_ranges(rest@),
        valid_ranges(ranges@) ==> canonical(rest@),
{
    let mut whole: Vec<(u32, u32)> = Vec::new();
    if lo <= hi {
        whole.push((lo, hi));
    }
    assert(whole@ =~= whole_range(lo, hi));
    let rest: Vec<(u32, u32)> = subtract_ranges(whole.as_slice(), ranges);
    assert forall|x: int| #[trigger] covered(rest@, x) <==> lo <= x <= hi && !covered(
        ranges@,
        x,
    ) by {
        if lo <= x <= hi {
            assert(whole@[0].0 <= x <= whole@[0].1);
            assert(covered(whole@, x));
        }
    }
    rest
}

/// Some id is selected.
pub open spec fn selects(uids: Seq<u32>, ranges: Seq<Seq<char>>) -> bool {
    exists|x: int| #[trigger] selected(uids, ranges, x)
}

/// The id's traffic is left alone: where ids are included, it is none of them
/// or is excluded too; else it is excluded.
pub open spec fn uid_excluded(cfg: &TunInboundConfig, x: int) -> bool {
    let included = text::str_views(cfg.include_uid_range@);
    let dropped = text::str_views(cfg.exclude_uid_range@);
    if selects(cfg.include_uid@, included) {
        0 <= x <= UID_MAX && !(selected(cfg.include_uid@, included, x) && !selected(
            cfg.exclude_uid@,
            dropped,
            x,
        ))
    } else {
        selected(cfg.exclude_uid@, dropped, x)
    }
}

proof fn lemma_empty_or_selects(v: Seq<(u32, u32)>, uids: Seq<u32>, ranges: Seq<Seq<char>>)
    requires
        canonical(v),
        forall|x: int| #[trigger] covered(v, x) <==> selected(uids, ranges, x),
    ensures
        v.len() > 0 <==> selects(uids, ranges),
{
    if v.len() > 0 {
        assert(v[0].0 <= v[0].1);
        assert(covered(v, v[0].0 as int));
        assert(selected(uids, ranges, v[0].0 as int));
    }
    if selects(uids, ranges) {
        let x = choose|x: int| #[trigger] selected(uids, ranges, x);
        assert(covered(v, x));
    }
}

/// The one list of ranges with gaps between them that covers the ids whose
/// traffic is left alone.
pub open spec fn excluded_uids(cfg: &TunInboundConfig) -> Seq<(u32, u32)> {
    choose|s: Seq<(u32, u32)>| #[trigger] lists_excluded(cfg, s)
}

/// The list covers the ids whose traffic is left alone.
pub open spec fn lists_excluded(cfg: &TunInboundConfig, s: Seq<(u32, u32)>) -> bool {
    canonical(s) && forall|x: int| #[trigger] covered(s, x) <==> uid_excluded(cfg, x)
}

proof fn lemma_excluded_uids(cfg: &TunInboundConfig, s: Seq<(u32, u32)>)
    requires
        lists_excluded(cfg, s),
    ensures
        s == excluded_uids(cfg),
{
    let t = excluded_uids(cfg);
    assert(lists_excluded(cfg, t));
    assert forall|x: int| covered(s, x) <==> covered(t, x) by {
        assert(covered(s, x) <==> uid_excluded(cfg, x));
        assert(covered(t, x) <==> uid_excluded(cfg, x));
    }
    law_canonical_ranges_unique(s, t);
}

/// The ranges of the user ids whose traffic is left alone.
pub fn build_excluded_uid_ranges(cfg: &TunInboundConfig) -> (ranges: Vec<(u32, u32)>)
    ensures
        lists_excluded(cfg, ranges@),
        ranges@ == excluded_uids(cfg),
{
    let included: Vec<(u32, u32)> = merge_uid_list_and_ranges(
        cfg.include_uid.as_slice(),
        cfg.include_uid_range.as_slice(),
    );
    let dropped: Vec<(u32, u32)> = merge_uid_list_and_ranges(
        cfg.exclude_uid.as_slice(),
        cfg.exclude_uid_range.as_slice(),
    );
    proof {
        lemma_empty_or_selects(
            included@,
            cfg.include_uid@,
            text::str_views(cfg.include_uid_range@),
        );
        lemma_empty_or_selects(
            dropped@,
            cfg.exclude_uid@,
            text::str_views(cfg.exclude_uid_range@),
        );
    }
    if included.len() > 0 {
        let kept: Vec<(u32, u32)> = subtract_ranges(included.as_slice(), dropped.as_slice());
        let ranges: Vec<(u32, u32)> = complement_ranges(kept.as_slice(), 0, UID_MAX);
        let merged: Vec<(u32, u32)> = merge_ranges(ranges.as_slice());
        assert forall|x: int| #[trigger] covered(merged@, x) <==> uid_excluded(cfg, x) by {
            assert(covered(merged@, x) <==> covered(ranges@, x));
            assert(covered(ranges@, x) <==> 0 <= x <= UID_MAX && !covered(kept@, x));
            assert(covered(kept@, x) <==> covered(included@, x) && !covered(dropped@, x));
        }
        proof {
            lemma_excluded_uids(cfg, merged@);
        }
        merged
    } else {
        let merged: Vec<(u32, u32)> = merge_ranges(dropped.as_slice());
        assert forall|x: int| #[trigger] covered(merged@, x) <==> uid_excluded(cfg, x) by {
            assert(covered(merged@, x) <==> covered(dropped@, x));
        }
        proof {
            lemma_excluded_uids(cfg, merged@);
        }
        merged
    }
}

} // verus!
