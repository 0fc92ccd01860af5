//! Taking down what was set up on Linux: exactly the rules whose priorities
//! were remembered, or a whole range of priorities where none were.
use vstd::prelude::*;

use crate::command;
use crate::command::push_words;
use crate::config::TunInboundConfig;
use crate::linux;
use crate::linux::{cleanup_systemd_resolved, state_file};
use crate::linux_rules;
use crate::nftables;
use crate::nftables::cleanup_nftables_redirect;
use crate::platform::SetupState;
use crate::render;
use crate::render::dec_string;
use crate::text;
use crate::text::parse_numbers;

verus! {

/// How often the deletion of a priority is tried: several rules can share one.
pub const DELETE_ATTEMPTS: u32 = 3;

/// Priorities of one IP version whose rules are deleted, both ends included.
#[derive(Clone, Copy, Debug, PartialEq, Eq, Structural)]
pub struct RuleSweep {
    pub v6: bool,
    pub first: u32,
    pub last: u32,
}

/// The command line that deletes a rule by its priority.
pub open spec fn delete_line(v6: bool, priority: int) -> Seq<Seq<char>> {
    if v6 {
        seq!["ip"@, "-6"@, "rule"@, "del"@, "priority"@, render::dec_text(priority)]
    } else {
        seq!["ip"@, "rule"@, "del"@, "priority"@, render::dec_text(priority)]
    }
}

/// The command line that deletes a rule by its priority.
pub fn delete_rule(v6: bool, priority: u32) -> (c: Vec<String>)
    ensures
        text::str_views(c@) == delete_line(v6, priority as int),
{
    let p: String = dec_string(priority as u64);
    if v6 {
        let w: Vec<&str> = vec!["ip", "-6", "rule", "del", "priority", p.as_str()];
        assert(command::words(w@) =~= delete_line(true, priority as int));
        command::command(&w)
    } else {
        let w: Vec<&str> = vec!["ip", "rule", "del", "priority", p.as_str()];
        assert(command::words(w@) =~= delete_line(false, priority as int));
        command::command(&w)
    }
}

/// A number put into its place among ascending numbers, unless it is there.
pub open spec fn inserted(t: Seq<u32>, x: u32) -> Seq<u32>
    decreases t.len(),
{
    if t.len() == 0 || x > t.last() {
        t.push(x)
    } else if x == t.last() {
        t
    } else {
        inserted(t.drop_last(), x).push(t.last())
    }
}

/// Numbers in ascending order, each once.
pub open spec fn ascending(s: Seq<u32>) -> Seq<u32>
    decreases s.len(),
{
    if s.len() == 0 {
        Seq::empty()
    } else {
        inserted(ascending(s.drop_last()), s.last())
    }
}

fn insert_number(v: &mut Vec<u32>, x: u32)
    ensures
        final(v)@ == inserted(old(v)@, x),
{
    let ghost t = v@;
    let mut i: usize = v.len();
    assert(t.take(t.len() as int) =~= t);
    assert(t.skip(t.len() as int) =~= Seq::<u32>::empty());
    assert(inserted(t, x) + Seq::<u32>::empty() =~= inserted(t, x));
    while i > 0 && x < v[i - 1]
        invariant
            i <= v.len(),
            v@ == t,
            inserted(t, x) == inserted(t.take(i as int), x) + t.skip(i as int),
        decreases i,
    {
        proof {
            let a = t.take(i as int);
            assert(a.last() == t[i - 1]);
            assert(a.drop_last() =~= t.take(i - 1));
            assert(inserted(t.take(i - 1), x).push(t[i - 1]) + t.skip(i as int) =~= inserted(
                t.take(i - 1),
                x,
            ) + t.skip(i - 1));
        }
        i -= 1;
    }
    proof {
        let a = t.take(i as int);
        if i > 0 {
            assert(a.last() == t[i - 1]);
        }
        assert(a + t.skip(i as int) =~= t);
        assert(a.push(x) + t.skip(i as int) =~= t.insert(i as int, x));
    }
    if i > 0 && v[i - 1] == x {
        return;
    }
    v.insert(i, x);
}

/// Sorts numbers, and keeps each once.
pub fn sort_unique(s: &[u32]) -> (v: Vec<u32>)
    ensures
        v@ == ascending(s@),
{
    let mut v: Vec<u32> = Vec::new();
    let mut k: usize = 0;
    assert(s@.take(0) =~= Seq::<u32>::empty());
    while k < s.len()
        invariant
            k <= s.len(),
            v@ == ascending(s@.take(k as int)),
        decreases s.len() - k,
    {
        assert(s@.take(k + 1).drop_last() =~= s@.take(k as int));
        assert(s@.take(k + 1).last() == s@[k as int]);
        insert_number(&mut v, s[k]);
        k += 1;
    }
    assert(s@.take(s@.len() as int) =~= s@);
    v
}

/// Each priority but zero is deleted for both IP versions.
pub open spec fn sweeps_of(t: Seq<u32>) -> Seq<RuleSweep>
    decreases t.len(),
{
    if t.len() == 0 {
        Seq::empty()
    } else {
        let before = sweeps_of(t.drop_last());
        if t.last() == 0 {
            before
        } else {
            before.push(RuleSweep { v6: false, first: t.last(), last: t.last() }).push(
                RuleSweep { v6: true, first: t.last(), last: t.last() },
            )
        }
    }
}

fn write_sweeps(t: &Vec<u32>) -> (v: Vec<RuleSweep>)
    ensures
        v@ == sweeps_of(t@),
{
    let mut v: Vec<RuleSweep> = Vec::new();
    let mut k: usize = 0;
    assert(t@.take(0) =~= Seq::<u32>::empty());
    while k < t.len()
        invariant
            k <= t.len(),
            v@ == sweeps_of(t@.take(k as int)),
        decreases t.len() - k,
    {
        assert(t@.take(k + 1).drop_last() =~= t@.take(k as int));
        assert(t@.take(k + 1).last() == t@[k as int]);
        let p: u32 = t[k];
        if p != 0 {
            v.push(RuleSweep { v6: false, first: p, last: p });
            v.push(RuleSweep { v6: true, first: p, last: p });
        }
        k += 1;
    }
    assert(t@.take(t@.len() as int) =~= t@);
    v
}

/// The last priorities to sweep, from what the state file holds: its first two
/// numbers, or a fixed distance from the first priority.
pub open spec fn last_priorities(content: Option<Seq<char>>, base: int) -> (int, int) {
    match content {
        Some(s) => {
            let n = text::numbers_in(text::words_of(s));
            if n.len() >= 2 {
                (n[0], n[1])
            } else {
                (base + 120, base + 120)
            }
        },
        None => (base + 120, base + 120),
    }
}

pub open spec fn larger(a: int, b: int) -> int {
    if a >= b {
        a
    } else {
        b
    }
}

pub open spec fn content_view(content: Option<&str>) -> Option<Seq<char>> {
    match content {
        Some(s) => Some(s@),
        None => None,
    }
}

/// The priorities that are deleted: those that were remembered, or, where none
/// were, all from the first to the last or to the anchor.
pub open spec fn teardown_sweeps(
    base: int,
    priorities: Seq<u32>,
    content: Option<Seq<char>>,
) -> Seq<RuleSweep> {
    if priorities.len() > 0 {
        sweeps_of(ascending(priorities))
    } else {
        let last = last_priorities(content, base);
        seq![
            RuleSweep {
                v6: false,
                first: base as u32,
                last: larger(last.0, base + 100) as u32,
            },
            RuleSweep { v6: true, first: base as u32, last: larger(last.1, base + 100) as u32 },
        ]
    }
}

/// What taking down a device takes.
pub struct TeardownPlan {
    pub commands: Vec<Vec<String>>,
    pub sweeps: Vec<RuleSweep>,
    /// The state file to remove, where nothing was remembered.
    pub stale_file: Option<String>,
    pub finish: Vec<Vec<String>>,
}

/// The command lines that empty the device's table.
pub open spec fn flush_lines(table: int) -> Seq<Seq<Seq<char>>> {
    seq![
        seq!["ip"@, "route"@, "flush"@, "table"@, render::dec_text(table)],
        seq!["ip"@, "-6"@, "route"@, "flush"@, "table"@, render::dec_text(table)],
    ]
}

/// The priorities to sweep fit: those that were remembered do, and where none
/// were, the anchor and the last one must.
pub open spec fn can_tear_down(
    cfg: &TunInboundConfig,
    priorities: Seq<u32>,
    content: Option<Seq<char>>,
) -> bool {
    priorities.len() == 0 ==> cfg.iproute2_rule_index + 100 <= u32::MAX && last_priorities(
        content,
        cfg.iproute2_rule_index as int,
    ).0 <= u32::MAX
}

/// The plan takes the device down.
pub open spec fn tears_down(
    plan: &TeardownPlan,
    cfg: &TunInboundConfig,
    if_name: Seq<char>,
    priorities: Seq<u32>,
    content: Option<Seq<char>>,
) -> bool {
    &&& command::lines(plan.commands@) == flush_lines(cfg.iproute2_table_index as int)
    &&& plan.sweeps@ == teardown_sweeps(cfg.iproute2_rule_index as int, priorities, content)
    &&& plan.stale_file is Some <==> priorities.len() == 0
    &&& plan.stale_file matches Some(f) ==> f@ == linux::state_file_text(cfg)
    &&& command::lines(plan.finish@) == seq![seq!["resolvectl"@, "revert"@, if_name]]
        + nftables::cleanup_lines(cfg, if_name)
}

/// What taking down the device takes: its table is emptied, its rules are
/// deleted, and the resolver and redirection are set back. `content` is what
/// the state file holds, if it can be read.
pub fn teardown(
    cfg: &TunInboundConfig,
    if_name: &str,
    state: &SetupState,
    content: Option<&str>,
) -> (plan: TeardownPlan)
    requires
        can_tear_down(cfg, state.rule_priorities@, content_view(content)),
    ensures
        tears_down(&plan, cfg, if_name@, state.rule_priorities@, content_view(content)),
{
    let base: u32 = cfg.iproute2_rule_index;
    let table: String = dec_string(cfg.iproute2_table_index as u64);
    let v4: Vec<&str> = vec!["ip", "route", "flush", "table", table.as_str()];
    let v6: Vec<&str> = vec!["ip", "-6", "route", "flush", "table", table.as_str()];
    let ghost flush = flush_lines(cfg.iproute2_table_index as int);
    assert(command::words(v4@) =~= flush[0]);
    assert(command::words(v6@) =~= flush[1]);
    let mut commands: Vec<Vec<String>> = Vec::new();
    push_words(&mut commands, &v4);
    push_words(&mut commands, &v6);
    assert(command::lines(commands@) =~= flush);
    let mut finish: Vec<Vec<String>> = Vec::new();
    command::push_line(&mut finish, cleanup_systemd_resolved(if_name));
    let ghost revert = seq!["resolvectl"@, "revert"@, if_name@];
    assert(command::lines(finish@) =~= seq![revert]);
    let mut nft: Vec<Vec<String>> = cleanup_nftables_redirect(cfg, if_name);
    let ghost nft_lines = command::lines(nft@);
    finish.append(&mut nft);
    assert(command::lines(finish@) =~= seq![revert] + nft_lines);
    if state.rule_priorities.len() > 0 {
        let sweeps: Vec<RuleSweep> = write_sweeps(&sort_unique(state.rule_priorities.as_slice()));
        return TeardownPlan { commands, sweeps, stale_file: None, finish };
    }
    let n: Vec<u32> = match content {
        Some(s) => parse_numbers(s),
        None => Vec::new(),
    };
    let mut last_v4: u32;
    let mut last_v6: u32;
    if n.len() >= 2 {
        last_v4 = n[0];
        last_v6 = n[1];
    } else {
        last_v4 = base + 120;
        last_v6 = base + 120;
    }
    let nop: u32 = base + 100;
    if last_v4 < nop {
        last_v4 = nop;
    }
    if last_v6 < nop {
        last_v6 = nop;
    }
    let sweeps: Vec<RuleSweep> = vec![
        RuleSweep { v6: false, first: base, last: last_v4 },
        RuleSweep { v6: true, first: base, last: last_v6 },
    ];
    assert(sweeps@ =~= teardown_sweeps(
        base as int,
        state.rule_priorities@,
        content_view(content),
    ));
    TeardownPlan { commands, sweeps, stale_file: Some(state_file(cfg)), finish }
}

/// What taking down the device takes, where the priorities to sweep fit.
pub fn try_teardown(
    cfg: &TunInboundConfig,
    if_name: &str,
    state: &SetupState,
    content: Option<&str>,
) -> (r: Option<TeardownPlan>)
    ensures
        r is Some <==> can_tear_down(cfg, state.rule_priorities@, content_view(content)),
        r matches Some(plan) ==> tears_down(
            &plan,
            cfg,
            if_name@,
            state.rule_priorities@,
            content_view(content),
        ),
{
    if state.rule_priorities.len() == 0 {
        let n: Vec<u32> = match content {
            Some(s) => parse_numbers(s),
            None => Vec::new(),
        };
        let two: bool = n.len() >= 2;
        assert(two ==> last_priorities(
            content_view(content),
            cfg.iproute2_rule_index as int,
        ).0 == n@[0]);
        if cfg.iproute2_rule_index > u32::MAX - 100 || !two && cfg.iproute2_rule_index > u32::MAX
            - 120 {
            return None;
        }
    }
    Some(teardown(cfg, if_name, state, content))
}

/// A priority is deleted.
pub open spec fn swept(sweeps: Seq<RuleSweep>, v6: bool, p: int) -> bool {
    exists|k: int|
        0 <= k < sweeps.len() && (#[trigger] sweeps[k]).v6 == v6 && sweeps[k].first <= p
            <= sweeps[k].last
}

proof fn lemma_inserted_contains(t: Seq<u32>, x: u32)
    ensures
        inserted(t, x).contains(x),
        forall|y: u32| t.contains(y) ==> #[trigger] inserted(t, x).contains(y),
        forall|y: u32| #[trigger] inserted(t, x).contains(y) ==> t.contains(y) || y == x,
    decreases t.len(),
{
    let r = inserted(t, x);
    if t.len() == 0 || x > t.last() {
        assert(r[t.len() as int] == x);
        assert forall|y: u32| t.contains(y) implies #[trigger] r.contains(y) by {
            let k = choose|k: int| 0 <= k < t.len() && t[k] == y;
            assert(r[k] == y);
        }
        assert forall|y: u32| #[trigger] r.contains(y) implies t.contains(y) || y == x by {
            let k = choose|k: int| 0 <= k < r.len() && r[k] == y;
            if k < t.len() {
                assert(t[k] == y);
            }
        }
    } else if x == t.last() {
        assert(t[t.len() - 1] == x);
    } else {
        let s = t.drop_last();
        let q = inserted(s, x);
        lemma_inserted_contains(s, x);
        assert(r == q.push(t.last()));
        assert(q.contains(x));
        let i = choose|i: int| 0 <= i < q.len() && q[i] == x;
        assert(r[i] == x);
        assert forall|y: u32| t.contains(y) implies #[trigger] r.contains(y) by {
            let k = choose|k: int| 0 <= k < t.len() && t[k] == y;
            if k < s.len() {
                assert(s[k] == y);
                assert(s.contains(y));
                assert(q.contains(y));
                let j = choose|j: int| 0 <= j < q.len() && q[j] == y;
                assert(r[j] == y);
            } else {
                assert(r[q.len() as int] == y);
            }
        }
        assert forall|y: u32| #[trigger] r.contains(y) implies t.contains(y) || y == x by {
            let k = choose|k: int| 0 <= k < r.len() && r[k] == y;
            if k < q.len() {
                assert(q[k] == y);
                assert(q.contains(y));
                if s.contains(y) {
                    let j = choose|j: int| 0 <= j < s.len() && s[j] == y;
                    assert(t[j] == y);
                }
            } else {
                assert(t[t.len() - 1] == y);
            }
        }
    }
}

proof fn lemma_ascending_contains(s: Seq<u32>, x: u32)
    requires
        s.contains(x),
    ensures
        ascending(s).contains(x),
    decreases s.len(),
{
    let k = choose|k: int| 0 <= k < s.len() && s[k] == x;
    lemma_inserted_contains(ascending(s.drop_last()), s.last());
    if k < s.len() - 1 {
        assert(s.drop_last()[k] == x);
        assert(s.drop_last().contains(x));
        lemma_ascending_contains(s.drop_last(), x);
    }
}

proof fn lemma_sweeps(t: Seq<u32>, x: u32)
    requires
        t.contains(x),
        x != 0,
    ensures
        swept(sweeps_of(t), false, x as int),
        swept(sweeps_of(t), true, x as int),
    decreases t.len(),
{
    let k = choose|k: int| 0 <= k < t.len() && t[k] == x;
    let before = sweeps_of(t.drop_last());
    let r = sweeps_of(t);
    if k == t.len() - 1 {
        assert(r[before.len() as int] == (RuleSweep { v6: false, first: x, last: x }));
        assert(r[before.len() as int + 1] == (RuleSweep { v6: true, first: x, last: x }));
    } else {
        assert(t.drop_last()[k] == x);
        assert(t.drop_last().contains(x));
        lemma_sweeps(t.drop_last(), x);
        let i = choose|i: int|
            0 <= i < before.len() && (#[trigger] before[i]).v6 == false && before[i].first <= x
                <= before[i].last;
        let j = choose|j: int|
            0 <= j < before.len() && (#[trigger] before[j]).v6 == true && before[j].first <= x
                <= before[j].last;
        assert(r[i] == before[i]);
        assert(r[j] == before[j]);
    }
}

/// Taking down after setting up deletes every rule: each policy rule was added
/// with a priority that is deleted for both IP versions, unless it is zero,
/// where the system's own rule stands.
pub proof fn law_teardown_deletes_every_rule(
    cfg: &TunInboundConfig,
    if_name: Seq<char>,
    priorities: Seq<u32>,
    content: Option<Seq<char>>,
    k: int,
)
    requires
        linux_rules::numbers(priorities) == linux::recorded(cfg, if_name),
        0 <= k < linux::device_rules(cfg, if_name).commands.len(),
    ensures
        exists|p: u32| #[trigger]
            linux_rules::adds_priority(
                linux::device_rules(cfg, if_name).commands[k],
                p as int,
            ) && (p != 0 ==> swept(
                teardown_sweeps(cfg.iproute2_rule_index as int, priorities, content),
                false,
                p as int,
            ) && swept(
                teardown_sweeps(cfg.iproute2_rule_index as int, priorities, content),
                true,
                p as int,
            )),
{
    let rules = linux::device_rules(cfg, if_name);
    linux_rules::law_every_rule_recorded(
        linux::rule_input(cfg, if_name),
        cfg.iproute2_rule_index as int,
    );
    assert(linux_rules::priority_among(rules.commands[k], rules.recorded));
    let j = choose|j: int|
        0 <= j < rules.recorded.len() && linux_rules::adds_priority(
            rules.commands[k],
            #[trigger] rules.recorded[j],
        );
    let all = linux::recorded(cfg, if_name);
    assert(all[j] == rules.recorded[j]);
    assert(linux_rules::numbers(priorities).len() == priorities.len());
    assert(linux_rules::numbers(priorities)[j] == rules.recorded[j]);
    let p = priorities[j];
    assert(p == rules.recorded[j]);
    assert(priorities.contains(p));
    lemma_ascending_contains(priorities, p);
    if p != 0 {
        lemma_sweeps(ascending(priorities), p);
    }
    assert(linux_rules::adds_priority(rules.commands[k], p as int));
}

} // verus!
