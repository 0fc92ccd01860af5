//! Users told from the settings: whose traffic is left alone.
use vstd::prelude::*;

use crate::config::TunInboundConfig;
use crate::render;
use crate::text;
use crate::uid;

verus! {

/// A range is written as two numbers with a colon between them, the lower one
/// first.
pub proof fn law_range_texts(start: int, end: int)
    requires
        0 <= start <= u32::MAX,
        0 <= end <= u32::MAX,
    ensures
        uid::uid_range(render::dec_text(start).push(':') + render::dec_text(end)) == (if start
            <= end {
            Some((start as u32, end as u32))
        } else {
            None
        }),
{
    let a = render::dec_text(start);
    let b = render::dec_text(end);
    let s = a.push(':') + b;
    render::lemma_number_lacks(start, ':');
    render::lemma_split_at(a, ':', b);
    assert(s.subrange(0, a.len() as int) =~= a);
    assert(s.subrange(a.len() as int + 1, s.len() as int) =~= b);
    lemma_untrimmed(start);
    lemma_untrimmed(end);
    render::law_number_read_back(start, u32::MAX as int);
    render::law_number_read_back(end, u32::MAX as int);
}

/// A text without a colon is no range.
pub proof fn law_other_texts(s: Seq<char>)
    requires
        forall|k: int| 0 <= k < s.len() ==> #[trigger] s[k] != ':',
    ensures
        uid::uid_range(s) is None,
{
    lemma_absent(s, ':', 0);
}

pub proof fn lemma_absent(s: Seq<char>, c: char, i: int)
    requires
        0 <= i,
        forall|k: int| 0 <= k < s.len() ==> #[trigger] s[k] != c,
    ensures
        text::first_at(s, c, i) is None,
    decreases s.len() - i,
{
    if i < s.len() {
        lemma_absent(s, c, i + 1);
    }
}

proof fn lemma_untrimmed(n: int)
    requires
        n >= 0,
    ensures
        text::trim(render::dec_text(n)) == render::dec_text(n),
{
    let t = render::dec_text(n);
    render::lemma_dec_text(n);
    assert(text::is_digit(t[0]));
    assert(text::is_digit(t[t.len() - 1]));
}

/// One of the users or of the texts names the user.
pub open spec fn named(uids: Seq<u32>, ranges: Seq<String>, x: int) -> bool {
    ||| exists|k: int| 0 <= k < uids.len() && #[trigger] uids[k] == x
    ||| exists|k: int|
        0 <= k < ranges.len() && (uid::uid_range((#[trigger] ranges[k])@) matches Some((lo, hi))
            && lo <= x <= hi)
}

proof fn lemma_named(uids: Seq<u32>, ranges: Seq<String>, x: int)
    ensures
        named(uids, ranges, x) <==> uid::selected(uids, text::str_views(ranges), x),
{
    let s = text::str_views(ranges);
    if exists|k: int|
        0 <= k < ranges.len() && (uid::uid_range((#[trigger] ranges[k])@) matches Some((lo, hi))
            && lo <= x <= hi) {
        let k = choose|k: int|
            0 <= k < ranges.len() && (uid::uid_range((#[trigger] ranges[k])@) matches Some(
                (lo, hi),
            ) && lo <= x <= hi);
        assert(uid::in_text_range(s[k], x));
    }
    if exists|k: int| 0 <= k < s.len() && uid::in_text_range(#[trigger] s[k], x) {
        let k = choose|k: int| 0 <= k < s.len() && uid::in_text_range(#[trigger] s[k], x);
        assert(s[k] == ranges[k]@);
    }
}

/// The users that are left alone: those that the settings exclude, and where
/// the settings name users to take in, all others too. The ranges that say so
/// are in order and apart.
pub proof fn law_users_left_alone(cfg: &TunInboundConfig, list: Seq<(u32, u32)>, x: int, y: int)
    requires
        uid::lists_excluded(cfg, list),
        0 <= x < 0xffff_ffff,
    ensures
        named(cfg.exclude_uid@, cfg.exclude_uid_range@, x) ==> uid::covered(list, x),
        named(cfg.include_uid@, cfg.include_uid_range@, y) && !named(
            cfg.include_uid@,
            cfg.include_uid_range@,
            x,
        ) ==> uid::covered(list, x),
        named(cfg.include_uid@, cfg.include_uid_range@, x) && !named(
            cfg.exclude_uid@,
            cfg.exclude_uid_range@,
            x,
        ) ==> !uid::covered(list, x),
        (forall|z: int| !#[trigger] named(cfg.include_uid@, cfg.include_uid_range@, z)) && !named(
            cfg.exclude_uid@,
            cfg.exclude_uid_range@,
            x,
        ) ==> !uid::covered(list, x),
        forall|i: int, j: int|
            0 <= i < j < list.len() ==> (#[trigger] list[i]).0 <= list[i].1 && list[i].1 + 1 < (
            #[trigger] list[j]).0,
{
    lemma_named(cfg.exclude_uid@, cfg.exclude_uid_range@, x);
    lemma_named(cfg.include_uid@, cfg.include_uid_range@, x);
    lemma_named(cfg.include_uid@, cfg.include_uid_range@, y);
    let ranges = text::str_views(cfg.include_uid_range@);
    if forall|z: int| !#[trigger] named(cfg.include_uid@, cfg.include_uid_range@, z) {
        assert forall|z: int| !#[trigger] uid::selected(cfg.include_uid@, ranges, z) by {
            lemma_named(cfg.include_uid@, cfg.include_uid_range@, z);
        }
    }
    assert(uid::covered(list, x) <==> uid::uid_excluded(cfg, x));
}

/// A user is covered by a list where one of its ranges goes from no more to no
/// less than it.
pub proof fn law_covered(list: Seq<(u32, u32)>, x: int, k: int)
    requires
        0 <= k < list.len(),
        list[k].0 <= x <= list[k].1,
    ensures
        uid::covered(list, x),
{
}

} // verus!
