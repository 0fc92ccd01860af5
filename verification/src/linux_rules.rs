//! The policy rules that lead traffic into the device's routing table on
//! Linux, as `ip rule` command lines with their priorities.
use vstd::prelude::*;
use vstd::string::*;

use crate::addr;
use crate::addr::{network_v4, network_v6, IpAddr, Ipv4Addr, Ipv6Addr};
use crate::command;
use crate::command::{command, extend, push_line};
use crate::render;
use crate::render::{dec_string, prefix_string};
use crate::text;

verus! {

/// Rules as they are added: the command lines, the next priority of each IP
/// version, and the priorities that were used.
pub struct Rules {
    pub commands: Seq<Seq<Seq<char>>>,
    pub p4: int,
    pub p6: int,
    pub recorded: Seq<int>,
}

/// The words of a command line that adds an IPv4 rule with a priority.
pub open spec fn add_words_v4(priority: int) -> Seq<Seq<char>> {
    seq!["ip"@, "rule"@, "add"@, "priority"@, render::dec_text(priority)]
}

/// The words of a command line that adds an IPv6 rule with a priority.
pub open spec fn add_words_v6(priority: int) -> Seq<Seq<char>> {
    seq!["ip"@, "-6"@, "rule"@, "add"@, "priority"@, render::dec_text(priority)]
}

/// One more IPv4 rule, with the next priority.
pub open spec fn rule4(s: Rules, tail: Seq<Seq<char>>) -> Rules {
    Rules {
        commands: s.commands.push(add_words_v4(s.p4) + tail),
        p4: s.p4 + 1,
        p6: s.p6,
        recorded: s.recorded.push(s.p4),
    }
}

/// One more IPv6 rule, with the next priority.
pub open spec fn rule6(s: Rules, tail: Seq<Seq<char>>) -> Rules {
    Rules {
        commands: s.commands.push(add_words_v6(s.p6) + tail),
        p4: s.p4,
        p6: s.p6 + 1,
        recorded: s.recorded.push(s.p6),
    }
}

/// The same rule for each IP version that the device has addresses of.
pub open spec fn both(s: Rules, has: (bool, bool), tail: Seq<Seq<char>>) -> Rules {
    let a = if has.0 {
        rule4(s, tail)
    } else {
        s
    };
    if has.1 {
        rule6(a, tail)
    } else {
        a
    }
}

/// What the rules are made from.
pub struct RuleInput {
    pub if_name: Seq<char>,
    pub table: int,
    pub nop: int,
    pub mark: Option<u32>,
    pub uids: Seq<(u32, u32)>,
    pub included: Seq<Seq<char>>,
    pub excluded: Seq<Seq<char>>,
    pub strict: bool,
    pub inet4: Seq<(Ipv4Addr, u8)>,
    pub inet6: Seq<(Ipv6Addr, u8)>,
}

impl RuleInput {
    /// The IP versions that the device has addresses of.
    pub open spec fn has(self) -> (bool, bool) {
        (self.inet4.len() > 0, self.inet6.len() > 0)
    }
}

/// Traffic without the mark goes to the table.
pub open spec fn mark_rules(s: Rules, i: RuleInput) -> Rules {
    match i.mark {
        Some(mark) => both(
            s,
            i.has(),
            seq![
                "not"@,
                "fwmark"@,
                render::dec_text(mark as int),
                "lookup"@,
                render::dec_text(i.table),
            ],
        ),
        None => s,
    }
}

/// Traffic of the first `n` ranges of users skips the other rules.
pub open spec fn uid_rules(s: Rules, i: RuleInput, n: int) -> Rules
    decreases n,
{
    if n <= 0 {
        s
    } else {
        both(
            uid_rules(s, i, n - 1),
            i.has(),
            seq![
                "uidrange"@,
                render::dec_text(i.uids[n - 1].0 as int) + "-"@ + render::dec_text(
                    i.uids[n - 1].1 as int,
                ),
                "goto"@,
                render::dec_text(i.nop),
            ],
        )
    }
}

/// Traffic from the first `n` interfaces goes to the table.
pub open spec fn included_rules(s: Rules, i: RuleInput, n: int) -> Rules
    decreases n,
{
    if n <= 0 {
        s
    } else {
        both(
            included_rules(s, i, n - 1),
            i.has(),
            seq!["iif"@, i.included[n - 1], "lookup"@, render::dec_text(i.table)],
        )
    }
}

/// Traffic from the first `n` interfaces skips the other rules.
pub open spec fn excluded_rules(s: Rules, i: RuleInput, n: int) -> Rules
    decreases n,
{
    if n <= 0 {
        s
    } else {
        both(
            excluded_rules(s, i, n - 1),
            i.has(),
            seq!["iif"@, i.excluded[n - 1], "goto"@, render::dec_text(i.nop)],
        )
    }
}

/// Only some interfaces, or all but some.
pub open spec fn interface_rules(s: Rules, i: RuleInput) -> Rules {
    if i.included.len() > 0 {
        both(
            included_rules(s, i, i.included.len() as int),
            i.has(),
            seq!["goto"@, render::dec_text(i.nop)],
        )
    } else {
        excluded_rules(s, i, i.excluded.len() as int)
    }
}

/// An IP version without addresses is unreachable.
pub open spec fn strict_rules(s: Rules, i: RuleInput) -> Rules {
    let tail = seq!["type"@, "unreachable"@];
    if i.strict {
        both(s, (!i.has().0, !i.has().1), tail)
    } else {
        s
    }
}

/// The network of an address with its prefix length, as text.
pub open spec fn network_text_v4(a: (Ipv4Addr, u8)) -> Seq<char> {
    render::prefix_text(
        IpAddr::V4(
            Ipv4Addr { bits: addr::block_start(a.0.bits as int, a.1 as int, 32) as u32 },
        ),
        a.1 as int,
    )
}

/// The network of an address with its prefix length, as text.
pub open spec fn network_text_v6(a: (Ipv6Addr, u8)) -> Seq<char> {
    render::prefix_text(
        IpAddr::V6(
            Ipv6Addr { bits: addr::block_start(a.0.bits as int, a.1 as int, 128) as u128 },
        ),
        a.1 as int,
    )
}

/// Traffic to the first `n` networks of the device goes to the table.
pub open spec fn subnet_rules_v4(s: Rules, i: RuleInput, n: int) -> Rules
    decreases n,
{
    if n <= 0 {
        s
    } else {
        rule4(
            subnet_rules_v4(s, i, n - 1),
            seq!["to"@, network_text_v4(i.inet4[n - 1]), "lookup"@, render::dec_text(i.table)],
        )
    }
}

pub open spec fn subnet_rules_v6(s: Rules, i: RuleInput, n: int) -> Rules
    decreases n,
{
    if n <= 0 {
        s
    } else {
        rule6(
            subnet_rules_v6(s, i, n - 1),
            seq!["to"@, network_text_v6(i.inet6[n - 1]), "lookup"@, render::dec_text(i.table)],
        )
    }
}

/// Routes other than default ones: first the table's, then, for all but DNS,
/// the main table's.
pub open spec fn suppress_rules(s: Rules, i: RuleInput) -> Rules {
    both(
        both(
            s,
            i.has(),
            seq!["lookup"@, render::dec_text(i.table), "suppress_prefixlength"@, "0"@],
        ),
        i.has(),
        seq!["not"@, "dport"@, "53"@, "lookup"@, "main"@, "suppress_prefixlength"@, "0"@],
    )
}

/// Traffic of this host from the first `n` networks of the device.
pub open spec fn source_rules_v4(s: Rules, i: RuleInput, n: int) -> Rules
    decreases n,
{
    if n <= 0 {
        s
    } else {
        rule4(
            source_rules_v4(s, i, n - 1),
            seq![
                "iif"@,
                "lo"@,
                "from"@,
                network_text_v4(i.inet4[n - 1]),
                "lookup"@,
                render::dec_text(i.table),
            ],
        )
    }
}

pub open spec fn source_rules_v6(s: Rules, i: RuleInput, n: int) -> Rules
    decreases n,
{
    if n <= 0 {
        s
    } else {
        rule6(
            source_rules_v6(s, i, n - 1),
            seq![
                "iif"@,
                "lo"@,
                "from"@,
                network_text_v6(i.inet6[n - 1]),
                "lookup"@,
                render::dec_text(i.table),
            ],
        )
    }
}

/// The last IPv4 rules: what the device sends out skips the rest; what comes
/// from elsewhere goes to the table, and so does what this host sends from no
/// address or from one of the device's networks.
pub open spec fn last_rules_v4(s: Rules, i: RuleInput) -> Rules {
    let table = render::dec_text(i.table);
    if i.has().0 {
        source_rules_v4(
            rule4(
                rule4(
                    rule4(s, seq!["iif"@, i.if_name, "goto"@, render::dec_text(i.nop)]),
                    seq!["not"@, "iif"@, "lo"@, "lookup"@, table],
                ),
                seq!["iif"@, "lo"@, "from"@, "0.0.0.0/32"@, "lookup"@, table],
            ),
            i,
            i.inet4.len() as int,
        )
    } else {
        s
    }
}

/// A rule with the next priority that leaves that priority for the next rule.
pub open spec fn shared6(s: Rules, tail: Seq<Seq<char>>) -> Rules {
    Rules { commands: s.commands.push(add_words_v6(s.p6) + tail), ..s }
}

/// The last IPv6 rules.
pub open spec fn last_rules_v6(s: Rules, i: RuleInput) -> Rules {
    let nop = render::dec_text(i.nop);
    if i.has().1 {
        rule6(
            source_rules_v6(
                rule6(
                    shared6(
                        rule6(s, seq!["iif"@, i.if_name, "goto"@, nop]),
                        seq!["iif"@, "lo"@, "from"@, "::/1"@, "goto"@, nop],
                    ),
                    seq!["iif"@, "lo"@, "from"@, "8000::/1"@, "goto"@, nop],
                ),
                i,
                i.inet6.len() as int,
            ),
            seq!["lookup"@, render::dec_text(i.table)],
        )
    } else {
        s
    }
}

/// The rule without effect that the others jump to.
pub open spec fn anchor_rules(s: Rules, i: RuleInput) -> Rules {
    let a = if i.has().0 {
        Rules {
            commands: s.commands.push(add_words_v4(i.nop)),
            recorded: s.recorded.push(i.nop),
            ..s
        }
    } else {
        s
    };
    if i.has().1 {
        Rules {
            commands: a.commands.push(add_words_v6(i.nop)),
            recorded: a.recorded.push(i.nop),
            ..a
        }
    } else {
        a
    }
}

/// The rules up to those of the device's networks.
pub open spec fn first_rules(s: Rules, i: RuleInput) -> Rules {
    strict_rules(
        interface_rules(uid_rules(mark_rules(s, i), i, i.uids.len() as int), i),
        i,
    )
}

/// The rules from those of the device's networks on.
pub open spec fn later_rules(s: Rules, i: RuleInput) -> Rules {
    anchor_rules(
        last_rules_v6(
            last_rules_v4(
                suppress_rules(
                    subnet_rules_v6(
                        subnet_rules_v4(s, i, i.inet4.len() as int),
                        i,
                        i.inet6.len() as int,
                    ),
                    i,
                ),
                i,
            ),
            i,
        ),
        i,
    )
}

/// No rules yet; the first gets this priority.
pub open spec fn no_rules(base: int) -> Rules {
    Rules { commands: Seq::empty(), p4: base, p6: base, recorded: Seq::empty() }
}

/// All the rules.
pub open spec fn all_rules(i: RuleInput, base: int) -> Rules {
    later_rules(first_rules(no_rules(base), i), i)
}

/// The command line adds a rule with this priority.
pub open spec fn adds_priority(c: Seq<Seq<char>>, p: int) -> bool {
    ||| exists|tail: Seq<Seq<char>>| c == #[trigger] (add_words_v4(p) + tail)
    ||| exists|tail: Seq<Seq<char>>| c == #[trigger] (add_words_v6(p) + tail)
}

/// The command line adds a rule with one of these priorities.
pub open spec fn priority_among(c: Seq<Seq<char>>, recorded: Seq<int>) -> bool {
    exists|j: int| 0 <= j < recorded.len() && adds_priority(c, #[trigger] recorded[j])
}

/// Every rule's priority was recorded.
pub open spec fn all_recorded(s: Rules) -> bool {
    forall|k: int|
        0 <= k < s.commands.len() ==> priority_among(#[trigger] s.commands[k], s.recorded)
}

/// `t` continues `s`: no priority is given back, and where every priority of
/// `s` was recorded, every one of `t` was.
spec fn continues(s: Rules, t: Rules) -> bool {
    &&& s.p4 <= t.p4
    &&& s.p6 <= t.p6
    &&& all_recorded(s) ==> all_recorded(t)
}

proof fn lemma_recorded_push(s: Rules, t: Rules, c: Seq<Seq<char>>, p: int)
    requires
        t.commands == s.commands.push(c),
        t.recorded == s.recorded.push(p),
        adds_priority(c, p),
        all_recorded(s),
    ensures
        all_recorded(t),
{
    assert forall|k: int| 0 <= k < t.commands.len() implies priority_among(
        #[trigger] t.commands[k],
        t.recorded,
    ) by {
        if k < s.commands.len() {
            assert(priority_among(s.commands[k], s.recorded));
            let j = choose|j: int|
                0 <= j < s.recorded.len() && adds_priority(
                    s.commands[k],
                    #[trigger] s.recorded[j],
                );
            assert(t.commands[k] == s.commands[k]);
            assert(t.recorded[j] == s.recorded[j]);
        } else {
            assert(t.recorded[s.recorded.len() as int] == p);
        }
    }
}

proof fn lemma_rule4(s: Rules, tail: Seq<Seq<char>>)
    ensures
        continues(s, rule4(s, tail)),
{
    let c = add_words_v4(s.p4) + tail;
    if all_recorded(s) {
        lemma_recorded_push(s, rule4(s, tail), c, s.p4);
    }
}

proof fn lemma_rule6(s: Rules, tail: Seq<Seq<char>>)
    ensures
        continues(s, rule6(s, tail)),
{
    let c = add_words_v6(s.p6) + tail;
    if all_recorded(s) {
        lemma_recorded_push(s, rule6(s, tail), c, s.p6);
    }
}

proof fn lemma_both(s: Rules, has: (bool, bool), tail: Seq<Seq<char>>)
    ensures
        continues(s, both(s, has, tail)),
        has.0 ==> rule4(s, tail).p4 <= both(s, has, tail).p4,
{
    lemma_rule4(s, tail);
    let a = if has.0 {
        rule4(s, tail)
    } else {
        s
    };
    lemma_rule6(a, tail);
}

proof fn lemma_uid_rules(s: Rules, i: RuleInput, n: int)
    ensures
        continues(s, uid_rules(s, i, n)),
    decreases n,
{
    if n > 0 {
        lemma_uid_rules(s, i, n - 1);
        lemma_both(
            uid_rules(s, i, n - 1),
            i.has(),
            seq![
                "uidrange"@,
                render::dec_text(i.uids[n - 1].0 as int) + "-"@ + render::dec_text(
                    i.uids[n - 1].1 as int,
                ),
                "goto"@,
                render::dec_text(i.nop),
            ],
        );
    }
}

proof fn lemma_included_rules(s: Rules, i: RuleInput, n: int)
    ensures
        continues(s, included_rules(s, i, n)),
    decreases n,
{
    if n > 0 {
        lemma_included_rules(s, i, n - 1);
        lemma_both(
            included_rules(s, i, n - 1),
            i.has(),
            seq!["iif"@, i.included[n - 1], "lookup"@, render::dec_text(i.table)],
        );
    }
}

proof fn lemma_excluded_rules(s: Rules, i: RuleInput, n: int)
    ensures
        continues(s, excluded_rules(s, i, n)),
    decreases n,
{
    if n > 0 {
        lemma_excluded_rules(s, i, n - 1);
        lemma_both(
            excluded_rules(s, i, n - 1),
            i.has(),
            seq!["iif"@, i.excluded[n - 1], "goto"@, render::dec_text(i.nop)],
        );
    }
}

proof fn lemma_interface_rules(s: Rules, i: RuleInput)
    ensures
        continues(s, interface_rules(s, i)),
{
    lemma_included_rules(s, i, i.included.len() as int);
    lemma_excluded_rules(s, i, i.excluded.len() as int);
    lemma_both(
        included_rules(s, i, i.included.len() as int),
        i.has(),
        seq!["goto"@, render::dec_text(i.nop)],
    );
}

proof fn lemma_subnet_rules_v4(s: Rules, i: RuleInput, n: int)
    ensures
        continues(s, subnet_rules_v4(s, i, n)),
    decreases n,
{
    if n > 0 {
        lemma_subnet_rules_v4(s, i, n - 1);
        lemma_rule4(
            subnet_rules_v4(s, i, n - 1),
            seq!["to"@, network_text_v4(i.inet4[n - 1]), "lookup"@, render::dec_text(i.table)],
        );
    }
}

proof fn lemma_subnet_rules_v6(s: Rules, i: RuleInput, n: int)
    ensures
        continues(s, subnet_rules_v6(s, i, n)),
    decreases n,
{
    if n > 0 {
        lemma_subnet_rules_v6(s, i, n - 1);
        lemma_rule6(
            subnet_rules_v6(s, i, n - 1),
            seq!["to"@, network_text_v6(i.inet6[n - 1]), "lookup"@, render::dec_text(i.table)],
        );
    }
}

proof fn lemma_source_rules_v4(s: Rules, i: RuleInput, n: int)
    ensures
        continues(s, source_rules_v4(s, i, n)),
    decreases n,
{
    if n > 0 {
        lemma_source_rules_v4(s, i, n - 1);
        lemma_rule4(
            source_rules_v4(s, i, n - 1),
            seq![
                "iif"@,
                "lo"@,
                "from"@,
                network_text_v4(i.inet4[n - 1]),
                "lookup"@,
                render::dec_text(i.table),
            ],
        );
    }
}

proof fn lemma_source_rules_v6(s: Rules, i: RuleInput, n: int)
    ensures
        continues(s, source_rules_v6(s, i, n)),
    decreases n,
{
    if n > 0 {
        lemma_source_rules_v6(s, i, n - 1);
        lemma_rule6(
            source_rules_v6(s, i, n - 1),
            seq![
                "iif"@,
                "lo"@,
                "from"@,
                network_text_v6(i.inet6[n - 1]),
                "lookup"@,
                render::dec_text(i.table),
            ],
        );
    }
}

proof fn lemma_suppress_rules(s: Rules, i: RuleInput)
    ensures
        continues(s, suppress_rules(s, i)),
{
    let tail = seq!["lookup"@, render::dec_text(i.table), "suppress_prefixlength"@, "0"@];
    lemma_both(s, i.has(), tail);
    lemma_both(
        both(s, i.has(), tail),
        i.has(),
        seq!["not"@, "dport"@, "53"@, "lookup"@, "main"@, "suppress_prefixlength"@, "0"@],
    );
}

proof fn lemma_last_rules_v4(s: Rules, i: RuleInput)
    ensures
        continues(s, last_rules_v4(s, i)),
        i.has().0 ==> s.p4 + 3 <= last_rules_v4(s, i).p4,
{
    let table = render::dec_text(i.table);
    let t1 = seq!["iif"@, i.if_name, "goto"@, render::dec_text(i.nop)];
    let t2 = seq!["not"@, "iif"@, "lo"@, "lookup"@, table];
    let t3 = seq!["iif"@, "lo"@, "from"@, "0.0.0.0/32"@, "lookup"@, table];
    lemma_rule4(s, t1);
    lemma_rule4(rule4(s, t1), t2);
    lemma_rule4(rule4(rule4(s, t1), t2), t3);
    lemma_source_rules_v4(rule4(rule4(rule4(s, t1), t2), t3), i, i.inet4.len() as int);
}

proof fn lemma_last_rules_v6(s: Rules, i: RuleInput)
    ensures
        continues(s, last_rules_v6(s, i)),
{
    if i.has().1 {
        let nop = render::dec_text(i.nop);
        let t1 = seq!["iif"@, i.if_name, "goto"@, nop];
        let t2 = seq!["iif"@, "lo"@, "from"@, "::/1"@, "goto"@, nop];
        let t3 = seq!["iif"@, "lo"@, "from"@, "8000::/1"@, "goto"@, nop];
        let t4 = seq!["lookup"@, render::dec_text(i.table)];
        let a = rule6(s, t1);
        let b = shared6(a, t2);
        let c = rule6(b, t3);
        lemma_rule6(s, t1);
        assert(all_recorded(a) ==> all_recorded(c)) by {
            if all_recorded(a) {
                lemma_shared(a, c, add_words_v6(a.p6) + t2, add_words_v6(a.p6) + t3);
            }
        }
        lemma_source_rules_v6(c, i, i.inet6.len() as int);
        lemma_rule6(source_rules_v6(c, i, i.inet6.len() as int), t4);
    }
}

proof fn lemma_shared(s: Rules, t: Rules, c: Seq<Seq<char>>, d: Seq<Seq<char>>)
    requires
        t.commands == s.commands.push(c).push(d),
        t.recorded == s.recorded.push(s.p6),
        adds_priority(c, s.p6),
        adds_priority(d, s.p6),
        all_recorded(s),
    ensures
        all_recorded(t),
{
    assert forall|k: int| 0 <= k < t.commands.len() implies priority_among(
        #[trigger] t.commands[k],
        t.recorded,
    ) by {
        if k < s.commands.len() {
            assert(priority_among(s.commands[k], s.recorded));
            let j = choose|j: int|
                0 <= j < s.recorded.len() && adds_priority(
                    s.commands[k],
                    #[trigger] s.recorded[j],
                );
            assert(t.commands[k] == s.commands[k]);
            assert(t.recorded[j] == s.recorded[j]);
        } else {
            assert(t.recorded[s.recorded.len() as int] == s.p6);
        }
    }
}

proof fn lemma_anchor_rules(s: Rules, i: RuleInput)
    ensures
        continues(s, anchor_rules(s, i)),
{
    if all_recorded(s) {
        let a = if i.has().0 {
            Rules {
                commands: s.commands.push(add_words_v4(i.nop)),
                recorded: s.recorded.push(i.nop),
                ..s
            }
        } else {
            s
        };
        let none = Seq::<Seq<char>>::empty();
        assert(add_words_v4(i.nop) =~= add_words_v4(i.nop) + none);
        assert(add_words_v6(i.nop) =~= add_words_v6(i.nop) + none);
        if i.has().0 {
            lemma_recorded_push(s, a, add_words_v4(i.nop), i.nop);
        }
        if i.has().1 {
            lemma_recorded_push(a, anchor_rules(s, i), add_words_v6(i.nop), i.nop);
        }
    }
}

proof fn lemma_first_rules(s: Rules, i: RuleInput)
    ensures
        continues(s, first_rules(s, i)),
        continues(s, mark_rules(s, i)),
        continues(
            uid_rules(mark_rules(s, i), i, i.uids.len() as int),
            interface_rules(uid_rules(mark_rules(s, i), i, i.uids.len() as int), i),
        ),
        continues(mark_rules(s, i), uid_rules(mark_rules(s, i), i, i.uids.len() as int)),
        continues(
            interface_rules(uid_rules(mark_rules(s, i), i, i.uids.len() as int), i),
            first_rules(s, i),
        ),
{
    if let Some(mark) = i.mark {
        lemma_both(
            s,
            i.has(),
            seq![
                "not"@,
                "fwmark"@,
                render::dec_text(mark as int),
                "lookup"@,
                render::dec_text(i.table),
            ],
        );
    }
    let a = mark_rules(s, i);
    let n = i.uids.len() as int;
    lemma_uid_rules(a, i, n);
    lemma_interface_rules(uid_rules(a, i, n), i);
    lemma_both(
        interface_rules(uid_rules(a, i, n), i),
        (!i.has().0, !i.has().1),
        seq!["type"@, "unreachable"@],
    );
}

proof fn lemma_later_rules(s: Rules, i: RuleInput)
    ensures
        continues(s, later_rules(s, i)),
        ({
            let a = subnet_rules_v4(s, i, i.inet4.len() as int);
            let b = subnet_rules_v6(a, i, i.inet6.len() as int);
            let c = suppress_rules(b, i);
            let d = last_rules_v4(c, i);
            let e = last_rules_v6(d, i);
            continues(s, a) && continues(a, b) && continues(b, c) && continues(c, d) && continues(
                d,
                e,
            ) && continues(e, later_rules(s, i))
        }),
{
    let a = subnet_rules_v4(s, i, i.inet4.len() as int);
    let b = subnet_rules_v6(a, i, i.inet6.len() as int);
    let c = suppress_rules(b, i);
    let d = last_rules_v4(c, i);
    let e = last_rules_v6(d, i);
    lemma_subnet_rules_v4(s, i, i.inet4.len() as int);
    lemma_subnet_rules_v6(a, i, i.inet6.len() as int);
    lemma_suppress_rules(b, i);
    lemma_last_rules_v4(c, i);
    lemma_last_rules_v6(d, i);
    lemma_anchor_rules(e, i);
}

/// Every rule that is added has its priority recorded.
pub proof fn law_every_rule_recorded(i: RuleInput, base: int)
    ensures
        all_recorded(all_rules(i, base)),
{
    lemma_first_rules(no_rules(base), i);
    lemma_later_rules(first_rules(no_rules(base), i), i);
}

proof fn lemma_uid_rules_grow(s: Rules, i: RuleInput, n: int, m: int)
    requires
        0 <= n <= m,
    ensures
        uid_rules(s, i, n).p4 <= uid_rules(s, i, m).p4,
        uid_rules(s, i, n).p6 <= uid_rules(s, i, m).p6,
    decreases m,
{
    if n < m {
        lemma_uid_rules_grow(s, i, n, m - 1);
    }
}

proof fn lemma_included_rules_grow(s: Rules, i: RuleInput, n: int, m: int)
    requires
        0 <= n <= m,
    ensures
        included_rules(s, i, n).p4 <= included_rules(s, i, m).p4,
        included_rules(s, i, n).p6 <= included_rules(s, i, m).p6,
    decreases m,
{
    if n < m {
        lemma_included_rules_grow(s, i, n, m - 1);
    }
}

proof fn lemma_excluded_rules_grow(s: Rules, i: RuleInput, n: int, m: int)
    requires
        0 <= n <= m,
    ensures
        excluded_rules(s, i, n).p4 <= excluded_rules(s, i, m).p4,
        excluded_rules(s, i, n).p6 <= excluded_rules(s, i, m).p6,
    decreases m,
{
    if n < m {
        lemma_excluded_rules_grow(s, i, n, m - 1);
    }
}

proof fn lemma_subnet_rules_v4_grow(s: Rules, i: RuleInput, n: int, m: int)
    requires
        0 <= n <= m,
    ensures
        subnet_rules_v4(s, i, n).p4 <= subnet_rules_v4(s, i, m).p4,
        subnet_rules_v4(s, i, n).p6 <= subnet_rules_v4(s, i, m).p6,
    decreases m,
{
    if n < m {
        lemma_subnet_rules_v4_grow(s, i, n, m - 1);
    }
}

proof fn lemma_subnet_rules_v6_grow(s: Rules, i: RuleInput, n: int, m: int)
    requires
        0 <= n <= m,
    ensures
        subnet_rules_v6(s, i, n).p4 <= subnet_rules_v6(s, i, m).p4,
        subnet_rules_v6(s, i, n).p6 <= subnet_rules_v6(s, i, m).p6,
    decreases m,
{
    if n < m {
        lemma_subnet_rules_v6_grow(s, i, n, m - 1);
    }
}

proof fn lemma_source_rules_v4_grow(s: Rules, i: RuleInput, n: int, m: int)
    requires
        0 <= n <= m,
    ensures
        source_rules_v4(s, i, n).p4 <= source_rules_v4(s, i, m).p4,
        source_rules_v4(s, i, n).p6 <= source_rules_v4(s, i, m).p6,
    decreases m,
{
    if n < m {
        lemma_source_rules_v4_grow(s, i, n, m - 1);
    }
}

proof fn lemma_source_rules_v6_grow(s: Rules, i: RuleInput, n: int, m: int)
    requires
        0 <= n <= m,
    ensures
        source_rules_v6(s, i, n).p4 <= source_rules_v6(s, i, m).p4,
        source_rules_v6(s, i, n).p6 <= source_rules_v6(s, i, m).p6,
    decreases m,
{
    if n < m {
        lemma_source_rules_v6_grow(s, i, n, m - 1);
    }
}

impl Rules {
    /// The next priorities are numbers that a rule can have.
    pub open spec fn fits(self) -> bool {
        self.p4 <= u32::MAX && self.p6 <= u32::MAX
    }
}

/// What the rules are made from.
pub struct RuleContext<'a> {
    pub if_name: &'a str,
    pub table: u32,
    pub nop: u32,
    pub mark: Option<u32>,
    pub uids: Vec<(u32, u32)>,
    pub included: &'a Vec<String>,
    pub excluded: &'a Vec<String>,
    pub strict: bool,
    pub inet4: Vec<(Ipv4Addr, u8)>,
    pub inet6: Vec<(Ipv6Addr, u8)>,
}

impl<'a> RuleContext<'a> {
    pub open spec fn input(&self) -> RuleInput {
        RuleInput {
            if_name: self.if_name@,
            table: self.table as int,
            nop: self.nop as int,
            mark: self.mark,
            uids: self.uids@,
            included: text::str_views(self.included@),
            excluded: text::str_views(self.excluded@),
            strict: self.strict,
            inet4: self.inet4@,
            inet6: self.inet6@,
        }
    }

    fn has(&self) -> (r: (bool, bool))
        ensures
            r == self.input().has(),
    {
        (self.inet4.len() > 0, self.inet6.len() > 0)
    }
}

/// Collects rules.
pub struct RuleWriter {
    pub commands: Vec<Vec<String>>,
    pub p4: u32,
    pub p6: u32,
    pub recorded: Vec<u32>,
}

/// Priorities as numbers.
pub open spec fn numbers(v: Seq<u32>) -> Seq<int> {
    Seq::new(v.len(), |k: int| v[k] as int)
}

impl RuleWriter {
    pub open spec fn rules(&self) -> Rules {
        Rules {
            commands: command::lines(self.commands@),
            p4: self.p4 as int,
            p6: self.p6 as int,
            recorded: numbers(self.recorded@),
        }
    }

    fn new(base: u32) -> (w: Self)
        ensures
            w.rules() == no_rules(base as int),
    {
        let w = RuleWriter { commands: Vec::new(), p4: base, p6: base, recorded: Vec::new() };
        assert(w.rules().commands =~= Seq::<Seq<Seq<char>>>::empty());
        assert(w.rules().recorded =~= Seq::<int>::empty());
        w
    }

    fn record(&mut self, priority: u32)
        ensures
            final(self).commands == old(self).commands,
            final(self).p4 == old(self).p4,
            final(self).p6 == old(self).p6,
            numbers(final(self).recorded@) == numbers(old(self).recorded@).push(priority as int),
    {
        let ghost before = numbers(self.recorded@);
        self.recorded.push(priority);
        assert(numbers(self.recorded@) =~= before.push(priority as int));
    }

    fn line4(&mut self, priority: u32, tail: &Vec<&str>)
        ensures
            command::lines(final(self).commands@) == command::lines(old(self).commands@).push(
                add_words_v4(priority as int) + command::words(tail@),
            ),
            final(self).p4 == old(self).p4,
            final(self).p6 == old(self).p6,
            final(self).recorded == old(self).recorded,
    {
        let p: String = dec_string(priority as u64);
        let head: Vec<&str> = vec!["ip", "rule", "add", "priority", p.as_str()];
        let mut c: Vec<String> = command(&head);
        assert(command::words(head@) =~= add_words_v4(priority as int));
        extend(&mut c, tail);
        push_line(&mut self.commands, c);
    }

    fn line6(&mut self, priority: u32, tail: &Vec<&str>)
        ensures
            command::lines(final(self).commands@) == command::lines(old(self).commands@).push(
                add_words_v6(priority as int) + command::words(tail@),
            ),
            final(self).p4 == old(self).p4,
            final(self).p6 == old(self).p6,
            final(self).recorded == old(self).recorded,
    {
        let p: String = dec_string(priority as u64);
        let head: Vec<&str> = vec!["ip", "-6", "rule", "add", "priority", p.as_str()];
        let mut c: Vec<String> = command(&head);
        assert(command::words(head@) =~= add_words_v6(priority as int));
        extend(&mut c, tail);
        push_line(&mut self.commands, c);
    }

    fn add4(&mut self, tail: &Vec<&str>)
        requires
            old(self).p4 < u32::MAX,
        ensures
            final(self).rules() == rule4(old(self).rules(), command::words(tail@)),
    {
        let p: u32 = self.p4;
        self.line4(p, tail);
        self.record(p);
        self.p4 = p + 1;
    }

    fn add6(&mut self, tail: &Vec<&str>)
        requires
            old(self).p6 < u32::MAX,
        ensures
            final(self).rules() == rule6(old(self).rules(), command::words(tail@)),
    {
        let p: u32 = self.p6;
        self.line6(p, tail);
        self.record(p);
        self.p6 = p + 1;
    }

    fn add_both(&mut self, has: (bool, bool), tail: &Vec<&str>)
        requires
            both(old(self).rules(), has, command::words(tail@)).fits(),
        ensures
            final(self).rules() == both(old(self).rules(), has, command::words(tail@)),
    {
        if has.0 {
            self.add4(tail);
        }
        if has.1 {
            self.add6(tail);
        }
    }

    fn add_mark(&mut self, c: &RuleContext)
        requires
            mark_rules(old(self).rules(), c.input()).fits(),
        ensures
            final(self).rules() == mark_rules(old(self).rules(), c.input()),
    {
        if let Some(mark) = c.mark {
            let mark_text: String = dec_string(mark as u64);
            let table: String = dec_string(c.table as u64);
            let tail: Vec<&str> = vec!["not", "fwmark", mark_text.as_str(), "lookup", table.as_str()];
            assert(command::words(tail@) =~= seq![
                "not"@,
                "fwmark"@,
                render::dec_text(mark as int),
                "lookup"@,
                render::dec_text(c.table as int),
            ]);
            self.add_both(c.has(), &tail);
        }
    }

    fn add_uids(&mut self, c: &RuleContext)
        requires
            uid_rules(old(self).rules(), c.input(), c.uids@.len() as int).fits(),
        ensures
            final(self).rules() == uid_rules(
                old(self).rules(),
                c.input(),
                c.uids@.len() as int,
            ),
    {
        let ghost s = self.rules();
        let ghost i = c.input();
        let nop: String = dec_string(c.nop as u64);
        let mut k: usize = 0;
        while k < c.uids.len()
            invariant
                k <= c.uids.len(),
                i == c.input(),
                nop@ == render::dec_text(c.nop as int),
                uid_rules(s, i, c.uids@.len() as int).fits(),
                self.rules() == uid_rules(s, i, k as int),
            decreases c.uids.len() - k,
        {
            let mut range: String = dec_string(c.uids[k].0 as u64);
            range.append("-");
            range.append(dec_string(c.uids[k].1 as u64).as_str());
            let tail: Vec<&str> = vec!["uidrange", range.as_str(), "goto", nop.as_str()];
            assert(command::words(tail@) =~= seq![
                "uidrange"@,
                render::dec_text(i.uids[k as int].0 as int) + "-"@ + render::dec_text(
                    i.uids[k as int].1 as int,
                ),
                "goto"@,
                render::dec_text(i.nop),
            ]);
            proof {
                lemma_uid_rules_grow(s, i, k + 1, c.uids@.len() as int);
            }
            self.add_both(c.has(), &tail);
            k += 1;
        }
    }

    fn add_interfaces(&mut self, c: &RuleContext)
        requires
            interface_rules(old(self).rules(), c.input()).fits(),
        ensures
            final(self).rules() == interface_rules(old(self).rules(), c.input()),
    {
        let ghost s = self.rules();
        let ghost i = c.input();
        let nop: String = dec_string(c.nop as u64);
        let table: String = dec_string(c.table as u64);
        let mut k: usize = 0;
        if c.included.len() > 0 {
            let last: Vec<&str> = vec!["goto", nop.as_str()];
            assert(command::words(last@) =~= seq!["goto"@, render::dec_text(i.nop)]);
            proof {
                lemma_both(
                    included_rules(s, i, i.included.len() as int),
                    i.has(),
                    seq!["goto"@, render::dec_text(i.nop)],
                );
            }
            while k < c.included.len()
                invariant
                    k <= c.included.len(),
                    i == c.input(),
                    table@ == render::dec_text(c.table as int),
                    included_rules(s, i, c.included@.len() as int).fits(),
                    self.rules() == included_rules(s, i, k as int),
                decreases c.included.len() - k,
            {
                let tail: Vec<&str> = vec![
                    "iif",
                    c.included[k].as_str(),
                    "lookup",
                    table.as_str(),
                ];
                assert(command::words(tail@) =~= seq![
                    "iif"@,
                    i.included[k as int],
                    "lookup"@,
                    render::dec_text(i.table),
                ]);
                proof {
                    lemma_included_rules_grow(s, i, k + 1, c.included@.len() as int);
                }
                self.add_both(c.has(), &tail);
                k += 1;
            }
            self.add_both(c.has(), &last);
        } else {
            while k < c.excluded.len()
                invariant
                    k <= c.excluded.len(),
                    i == c.input(),
                    nop@ == render::dec_text(c.nop as int),
                    excluded_rules(s, i, c.excluded@.len() as int).fits(),
                    self.rules() == excluded_rules(s, i, k as int),
                decreases c.excluded.len() - k,
            {
                let tail: Vec<&str> = vec!["iif", c.excluded[k].as_str(), "goto", nop.as_str()];
                assert(command::words(tail@) =~= seq![
                    "iif"@,
                    i.excluded[k as int],
                    "goto"@,
                    render::dec_text(i.nop),
                ]);
                proof {
                    lemma_excluded_rules_grow(s, i, k + 1, c.excluded@.len() as int);
                }
                self.add_both(c.has(), &tail);
                k += 1;
            }
        }
    }

    fn add_strict(&mut self, c: &RuleContext)
        requires
            strict_rules(old(self).rules(), c.input()).fits(),
        ensures
            final(self).rules() == strict_rules(old(self).rules(), c.input()),
    {
        if c.strict {
            let tail: Vec<&str> = vec!["type", "unreachable"];
            assert(command::words(tail@) =~= seq!["type"@, "unreachable"@]);
            let (v4, v6) = c.has();
            self.add_both((!v4, !v6), &tail);
        }
    }

    fn add_subnets_v4(&mut self, c: &RuleContext)
        requires
            subnet_rules_v4(old(self).rules(), c.input(), c.inet4@.len() as int).fits(),
        ensures
            final(self).rules() == subnet_rules_v4(
                old(self).rules(),
                c.input(),
                c.inet4@.len() as int,
            ),
    {
        let ghost s = self.rules();
        let ghost i = c.input();
        let table: String = dec_string(c.table as u64);
        let mut k: usize = 0;
        while k < c.inet4.len()
            invariant
                k <= c.inet4.len(),
                i == c.input(),
                table@ == render::dec_text(c.table as int),
                subnet_rules_v4(s, i, c.inet4@.len() as int).fits(),
                self.rules() == subnet_rules_v4(s, i, k as int),
            decreases c.inet4.len() - k,
        {
            let net: String = network_string_v4(c.inet4[k]);
            let tail: Vec<&str> = vec!["to", net.as_str(), "lookup", table.as_str()];
            assert(command::words(tail@) =~= seq![
                "to"@,
                network_text_v4(i.inet4[k as int]),
                "lookup"@,
                render::dec_text(i.table),
            ]);
            proof {
                lemma_subnet_rules_v4_grow(s, i, k + 1, c.inet4@.len() as int);
            }
            self.add4(&tail);
            k += 1;
        }
    }

    fn add_sources_v4(&mut self, c: &RuleContext)
        requires
            source_rules_v4(old(self).rules(), c.input(), c.inet4@.len() as int).fits(),
        ensures
            final(self).rules() == source_rules_v4(
                old(self).rules(),
                c.input(),
                c.inet4@.len() as int,
            ),
    {
        let ghost s = self.rules();
        let ghost i = c.input();
        let table: String = dec_string(c.table as u64);
        let mut k: usize = 0;
        while k < c.inet4.len()
            invariant
                k <= c.inet4.len(),
                i == c.input(),
                table@ == render::dec_text(c.table as int),
                source_rules_v4(s, i, c.inet4@.len() as int).fits(),
                self.rules() == source_rules_v4(s, i, k as int),
            decreases c.inet4.len() - k,
        {
            let net: String = network_string_v4(c.inet4[k]);
            let tail: Vec<&str> = vec![
                "iif",
                "lo",
                "from",
                net.as_str(),
                "lookup",
                table.as_str(),
            ];
            assert(command::words(tail@) =~= seq![
                "iif"@,
                "lo"@,
                "from"@,
                network_text_v4(i.inet4[k as int]),
                "lookup"@,
                render::dec_text(i.table),
            ]);
            proof {
                lemma_source_rules_v4_grow(s, i, k + 1, c.inet4@.len() as int);
            }
            self.add4(&tail);
            k += 1;
        }
    }

    fn add_subnets_v6(&mut self, c: &RuleContext)
        requires
            subnet_rules_v6(old(self).rules(), c.input(), c.inet6@.len() as int).fits(),
        ensures
            final(self).rules() == subnet_rules_v6(
                old(self).rules(),
                c.input(),
                c.inet6@.len() as int,
            ),
    {
        let ghost s = self.rules();
        let ghost i = c.input();
        let table: String = dec_string(c.table as u64);
        let mut k: usize = 0;
        while k < c.inet6.len()
            invariant
                k <= c.inet6.len(),
                i == c.input(),
                table@ == render::dec_text(c.table as int),
                subnet_rules_v6(s, i, c.inet6@.len() as int).fits(),
                self.rules() == subnet_rules_v6(s, i, k as int),
            decreases c.inet6.len() - k,
        {
            let net: String = network_string_v6(c.inet6[k]);
            let tail: Vec<&str> = vec!["to", net.as_str(), "lookup", table.as_str()];
            assert(command::words(tail@) =~= seq![
                "to"@,
                network_text_v6(i.inet6[k as int]),
                "lookup"@,
                render::dec_text(i.table),
            ]);
            proof {
                lemma_subnet_rules_v6_grow(s, i, k + 1, c.inet6@.len() as int);
            }
            self.add6(&tail);
            k += 1;
        }
    }

    fn add_sources_v6(&mut self, c: &RuleContext)
        requires
            source_rules_v6(old(self).rules(), c.input(), c.inet6@.len() as int).fits(),
        ensures
            final(self).rules() == source_rules_v6(
                old(self).rules(),
                c.input(),
                c.inet6@.len() as int,
            ),
    {
        let ghost s = self.rules();
        let ghost i = c.input();
        let table: String = dec_string(c.table as u64);
        let mut k: usize = 0;
        while k < c.inet6.len()
            invariant
                k <= c.inet6.len(),
                i == c.input(),
                table@ == render::dec_text(c.table as int),
                source_rules_v6(s, i, c.inet6@.len() as int).fits(),
                self.rules() == source_rules_v6(s, i, k as int),
            decreases c.inet6.len() - k,
        {
            let net: String = network_string_v6(c.inet6[k]);
            let tail: Vec<&str> = vec![
                "iif",
                "lo",
                "from",
                net.as_str(),
                "lookup",
                table.as_str(),
            ];
            assert(command::words(tail@) =~= seq![
                "iif"@,
                "lo"@,
                "from"@,
                network_text_v6(i.inet6[k as int]),
                "lookup"@,
                render::dec_text(i.table),
            ]);
            proof {
                lemma_source_rules_v6_grow(s, i, k + 1, c.inet6@.len() as int);
            }
            self.add6(&tail);
            k += 1;
        }
    }

    fn add_suppress(&mut self, c: &RuleContext)
        requires
            suppress_rules(old(self).rules(), c.input()).fits(),
        ensures
            final(self).rules() == suppress_rules(old(self).rules(), c.input()),
    {
        let ghost s = self.rules();
        let ghost i = c.input();
        let table: String = dec_string(c.table as u64);
        let tail: Vec<&str> = vec!["lookup", table.as_str(), "suppress_prefixlength", "0"];
        let dns: Vec<&str> = vec![
            "not",
            "dport",
            "53",
            "lookup",
            "main",
            "suppress_prefixlength",
            "0",
        ];
        let ghost t1 = seq![
            "lookup"@,
            render::dec_text(i.table),
            "suppress_prefixlength"@,
            "0"@,
        ];
        let ghost t2 = seq![
            "not"@,
            "dport"@,
            "53"@,
            "lookup"@,
            "main"@,
            "suppress_prefixlength"@,
            "0"@,
        ];
        assert(command::words(tail@) =~= t1);
        assert(command::words(dns@) =~= t2);
        proof {
            lemma_both(both(s, i.has(), t1), i.has(), t2);
        }
        self.add_both(c.has(), &tail);
        self.add_both(c.has(), &dns);
    }

    fn add_last_v4(&mut self, c: &RuleContext)
        requires
            last_rules_v4(old(self).rules(), c.input()).fits(),
        ensures
            final(self).rules() == last_rules_v4(old(self).rules(), c.input()),
    {
        if c.inet4.len() > 0 {
            let ghost s = self.rules();
            let ghost i = c.input();
            let nop: String = dec_string(c.nop as u64);
            let table: String = dec_string(c.table as u64);
            let out: Vec<&str> = vec!["iif", c.if_name, "goto", nop.as_str()];
            let other: Vec<&str> = vec!["not", "iif", "lo", "lookup", table.as_str()];
            let unbound: Vec<&str> = vec![
                "iif",
                "lo",
                "from",
                "0.0.0.0/32",
                "lookup",
                table.as_str(),
            ];
            let ghost t1 = seq!["iif"@, i.if_name, "goto"@, render::dec_text(i.nop)];
            let ghost t2 = seq!["not"@, "iif"@, "lo"@, "lookup"@, render::dec_text(i.table)];
            let ghost t3 = seq![
                "iif"@,
                "lo"@,
                "from"@,
                "0.0.0.0/32"@,
                "lookup"@,
                render::dec_text(i.table),
            ];
            assert(command::words(out@) =~= t1);
            assert(command::words(other@) =~= t2);
            assert(command::words(unbound@) =~= t3);
            proof {
                lemma_source_rules_v4(
                    rule4(rule4(rule4(s, t1), t2), t3),
                    i,
                    i.inet4.len() as int,
                );
            }
            self.add4(&out);
            self.add4(&other);
            self.add4(&unbound);
            self.add_sources_v4(c);
        }
    }

    fn add_last_v6(&mut self, c: &RuleContext)
        requires
            last_rules_v6(old(self).rules(), c.input()).fits(),
        ensures
            final(self).rules() == last_rules_v6(old(self).rules(), c.input()),
    {
        if c.inet6.len() > 0 {
            let ghost s = self.rules();
            let ghost i = c.input();
            let nop: String = dec_string(c.nop as u64);
            let table: String = dec_string(c.table as u64);
            let out: Vec<&str> = vec!["iif", c.if_name, "goto", nop.as_str()];
            let low: Vec<&str> = vec!["iif", "lo", "from", "::/1", "goto", nop.as_str()];
            let high: Vec<&str> = vec!["iif", "lo", "from", "8000::/1", "goto", nop.as_str()];
            let rest: Vec<&str> = vec!["lookup", table.as_str()];
            let ghost t1 = seq!["iif"@, i.if_name, "goto"@, render::dec_text(i.nop)];
            let ghost t2 = seq![
                "iif"@,
                "lo"@,
                "from"@,
                "::/1"@,
                "goto"@,
                render::dec_text(i.nop),
            ];
            let ghost t3 = seq![
                "iif"@,
                "lo"@,
                "from"@,
                "8000::/1"@,
                "goto"@,
                render::dec_text(i.nop),
            ];
            let ghost t4 = seq!["lookup"@, render::dec_text(i.table)];
            assert(command::words(out@) =~= t1);
            assert(command::words(low@) =~= t2);
            assert(command::words(high@) =~= t3);
            assert(command::words(rest@) =~= t4);
            proof {
                let a = rule6(shared6(rule6(s, t1), t2), t3);
                lemma_source_rules_v6(a, i, i.inet6.len() as int);
                lemma_rule6(source_rules_v6(a, i, i.inet6.len() as int), t4);
            }
            self.add6(&out);
            let p: u32 = self.p6;
            self.line6(p, &low);
            assert(self.rules() == shared6(rule6(s, t1), t2));
            self.add6(&high);
            self.add_sources_v6(c);
            self.add6(&rest);
        }
    }

    fn add_anchor(&mut self, c: &RuleContext)
        ensures
            final(self).rules() == anchor_rules(old(self).rules(), c.input()),
    {
        let nothing: Vec<&str> = Vec::new();
        proof {
            let none = Seq::<Seq<char>>::empty();
            assert(command::words(nothing@) =~= none);
            assert(add_words_v4(c.nop as int) + none =~= add_words_v4(c.nop as int));
            assert(add_words_v6(c.nop as int) + none =~= add_words_v6(c.nop as int));
        }
        if c.inet4.len() > 0 {
            self.line4(c.nop, &nothing);
            self.record(c.nop);
        }
        if c.inet6.len() > 0 {
            self.line6(c.nop, &nothing);
            self.record(c.nop);
        }
    }
}

/// All the rules for the device.
pub fn write_rules(c: &RuleContext, base: u32) -> (w: RuleWriter)
    requires
        all_rules(c.input(), base as int).fits(),
    ensures
        w.rules() == all_rules(c.input(), base as int),
{
    let ghost i = c.input();
    let mut w: RuleWriter = RuleWriter::new(base);
    proof {
        lemma_first_rules(no_rules(base as int), i);
        lemma_later_rules(first_rules(no_rules(base as int), i), i);
    }
    w.add_mark(c);
    w.add_uids(c);
    w.add_interfaces(c);
    w.add_strict(c);
    w.add_subnets_v4(c);
    w.add_subnets_v6(c);
    w.add_suppress(c);
    w.add_last_v4(c);
    w.add_last_v6(c);
    w.add_anchor(c);
    w
}

fn network_string_v4(a: (Ipv4Addr, u8)) -> (s: String)
    ensures
        s@ == network_text_v4(a),
{
    let net: Ipv4Addr = network_v4(a.0, a.1);
    prefix_string(IpAddr::V4(net), a.1)
}

fn network_string_v6(a: (Ipv6Addr, u8)) -> (s: String)
    ensures
        s@ == network_text_v6(a),
{
    let net: Ipv6Addr = network_v6(a.0, a.1);
    prefix_string(IpAddr::V6(net), a.1)
}

/// How many rules an IP version with `n` addresses gets, or one without any.
pub open spec fn rule_count(i: RuleInput, n: int) -> int {
    if n > 0 {
        (if i.mark is Some {
            1int
        } else {
            0int
        }) + i.uids.len() + (if i.included.len() > 0 {
            i.included.len() as int + 1
        } else {
            i.excluded.len() as int
        }) + 2 * n + 5
    } else if i.strict {
        1
    } else {
        0
    }
}

proof fn lemma_counts(s: Rules, i: RuleInput, n: int)
    requires
        n >= 0,
    ensures
        uid_rules(s, i, n).p4 == s.p4 + (if i.has().0 { n } else { 0 }),
        uid_rules(s, i, n).p6 == s.p6 + (if i.has().1 { n } else { 0 }),
        included_rules(s, i, n).p4 == s.p4 + (if i.has().0 { n } else { 0 }),
        included_rules(s, i, n).p6 == s.p6 + (if i.has().1 { n } else { 0 }),
        excluded_rules(s, i, n).p4 == s.p4 + (if i.has().0 { n } else { 0 }),
        excluded_rules(s, i, n).p6 == s.p6 + (if i.has().1 { n } else { 0 }),
        subnet_rules_v4(s, i, n).p4 == s.p4 + n,
        subnet_rules_v4(s, i, n).p6 == s.p6,
        subnet_rules_v6(s, i, n).p6 == s.p6 + n,
        subnet_rules_v6(s, i, n).p4 == s.p4,
        source_rules_v4(s, i, n).p4 == s.p4 + n,
        source_rules_v4(s, i, n).p6 == s.p6,
        source_rules_v6(s, i, n).p6 == s.p6 + n,
        source_rules_v6(s, i, n).p4 == s.p4,
    decreases n,
{
    if n > 0 {
        lemma_counts(s, i, n - 1);
    }
}

/// Each IP version uses as many priorities from the first on as it gets rules
/// before the anchor.
pub proof fn law_priorities_are_consecutive(i: RuleInput, base: int)
    ensures
        all_rules(i, base).p4 == base + rule_count(i, i.inet4.len() as int),
        all_rules(i, base).p6 == base + rule_count(i, i.inet6.len() as int),
{
    let s = mark_rules(no_rules(base), i);
    lemma_counts(s, i, i.uids.len() as int);
    let a = uid_rules(s, i, i.uids.len() as int);
    lemma_counts(a, i, i.included.len() as int);
    lemma_counts(a, i, i.excluded.len() as int);
    let b = first_rules(no_rules(base), i);
    lemma_counts(b, i, i.inet4.len() as int);
    let c = subnet_rules_v4(b, i, i.inet4.len() as int);
    lemma_counts(c, i, i.inet6.len() as int);
    let d = suppress_rules(subnet_rules_v6(c, i, i.inet6.len() as int), i);
    let table = render::dec_text(i.table);
    let nop = render::dec_text(i.nop);
    let e = rule4(
        rule4(
            rule4(d, seq!["iif"@, i.if_name, "goto"@, nop]),
            seq!["not"@, "iif"@, "lo"@, "lookup"@, table],
        ),
        seq!["iif"@, "lo"@, "from"@, "0.0.0.0/32"@, "lookup"@, table],
    );
    lemma_counts(e, i, i.inet4.len() as int);
    let f = last_rules_v4(d, i);
    let g = rule6(
        shared6(
            rule6(f, seq!["iif"@, i.if_name, "goto"@, nop]),
            seq!["iif"@, "lo"@, "from"@, "::/1"@, "goto"@, nop],
        ),
        seq!["iif"@, "lo"@, "from"@, "8000::/1"@, "goto"@, nop],
    );
    lemma_counts(g, i, i.inet6.len() as int);
}

fn count_rules(c: &RuleContext, n: usize) -> (r: u128)
    ensures
        r == rule_count(c.input(), n as int),
        r < 0x10_0000_0000_0000_0000,
{
    if n > 0 {
        let mark: u128 = if c.mark.is_some() {
            1
        } else {
            0
        };
        let interfaces: u128 = if c.included.len() > 0 {
            c.included.len() as u128 + 1
        } else {
            c.excluded.len() as u128
        };
        mark + c.uids.len() as u128 + interfaces + 2 * n as u128 + 5
    } else if c.strict {
        1
    } else {
        0
    }
}

/// Whether there are priorities enough from `base` on.
pub fn rules_fit(c: &RuleContext, base: u32) -> (r: bool)
    ensures
        r == all_rules(c.input(), base as int).fits(),
{
    proof {
        law_priorities_are_consecutive(c.input(), base as int);
    }
    base as u128 + count_rules(c, c.inet4.len()) <= u32::MAX as u128 && base as u128 + count_rules(
        c,
        c.inet6.len(),
    ) <= u32::MAX as u128
}

/// The rules of `s` are among those of `t`.
spec fn keeps(s: Rules, t: Rules) -> bool {
    &&& s.commands.len() <= t.commands.len()
    &&& forall|k: int| 0 <= k < s.commands.len() ==> #[trigger] t.commands[k] == s.commands[k]
}

proof fn lemma_keeps_subnets(s: Rules, i: RuleInput, n: int)
    ensures
        keeps(s, subnet_rules_v4(s, i, n)),
        keeps(s, subnet_rules_v6(s, i, n)),
        keeps(s, source_rules_v4(s, i, n)),
        keeps(s, source_rules_v6(s, i, n)),
    decreases n,
{
    if n > 0 {
        lemma_keeps_subnets(s, i, n - 1);
    }
}

proof fn lemma_keeps_later(s: Rules, i: RuleInput)
    ensures
        keeps(s, later_rules(s, i)),
{
    let n4 = i.inet4.len() as int;
    let n6 = i.inet6.len() as int;
    let a = subnet_rules_v4(s, i, n4);
    let b = subnet_rules_v6(a, i, n6);
    let c = suppress_rules(b, i);
    let d = last_rules_v4(c, i);
    let e = last_rules_v6(d, i);
    lemma_keeps_subnets(s, i, n4);
    lemma_keeps_subnets(a, i, n6);
    assert(keeps(b, c));
    let table = render::dec_text(i.table);
    let nop = render::dec_text(i.nop);
    let c3 = rule4(
        rule4(
            rule4(c, seq!["iif"@, i.if_name, "goto"@, nop]),
            seq!["not"@, "iif"@, "lo"@, "lookup"@, table],
        ),
        seq!["iif"@, "lo"@, "from"@, "0.0.0.0/32"@, "lookup"@, table],
    );
    lemma_keeps_subnets(c3, i, n4);
    assert(keeps(c, c3));
    assert(keeps(c, d));
    let d3 = rule6(
        shared6(
            rule6(d, seq!["iif"@, i.if_name, "goto"@, nop]),
            seq!["iif"@, "lo"@, "from"@, "::/1"@, "goto"@, nop],
        ),
        seq!["iif"@, "lo"@, "from"@, "8000::/1"@, "goto"@, nop],
    );
    lemma_keeps_subnets(d3, i, n6);
    assert(keeps(d, d3));
    assert(keeps(d, e));
    assert(keeps(e, anchor_rules(e, i)));
}

/// The command line that makes all of an IP version unreachable, with this
/// priority.
pub open spec fn shut_line(v6: bool, priority: int) -> Seq<Seq<char>> {
    (if v6 {
        add_words_v6(priority)
    } else {
        add_words_v4(priority)
    }) + seq!["type"@, "unreachable"@]
}

/// With strict routes an IP version that the device has no addresses of is shut:
/// a rule makes all of it unreachable.
pub proof fn law_strict_shuts_missing_versions(i: RuleInput, base: int)
    requires
        i.strict,
    ensures
        i.inet4.len() == 0 ==> exists|p: int|
            all_rules(i, base).commands.contains(#[trigger] shut_line(false, p)),
        i.inet6.len() == 0 ==> exists|p: int|
            all_rules(i, base).commands.contains(#[trigger] shut_line(true, p)),
{
    let s = interface_rules(uid_rules(mark_rules(no_rules(base), i), i, i.uids.len() as int), i);
    let t = first_rules(no_rules(base), i);
    let all = all_rules(i, base);
    lemma_keeps_later(t, i);
    if i.inet4.len() == 0 {
        let k = s.commands.len() as int;
        assert(t.commands[k] == shut_line(false, s.p4));
        assert(all.commands[k] == shut_line(false, s.p4));
    }
    if i.inet6.len() == 0 {
        let k = t.commands.len() - 1;
        assert(t.commands[k] == shut_line(true, s.p6));
        assert(all.commands[k] == shut_line(true, s.p6));
    }
}

} // verus!
