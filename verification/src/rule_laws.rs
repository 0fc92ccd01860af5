//! The policy rules of the device, as a list: which rules there are for each IP
//! version, in the order in which the kernel tries them.
use vstd::prelude::*;
use vstd::string::*;

use crate::addr;
use crate::addr::{IpAddr, Ipv4Addr, Ipv6Addr};
use crate::linux_rules;
use crate::linux_rules::{RuleInput, Rules};
use crate::plain;
use crate::render;
use crate::route_laws;

verus! {

/// A rule of one IP version: its priority and what it says.
pub type Rule = (Seq<char>, Seq<Seq<char>>);

/// The IPv4 rules among the command lines, in order.
pub open spec fn rules_v4(lines: Seq<Seq<Seq<char>>>) -> Seq<Rule>
    decreases lines.len(),
{
    if lines.len() == 0 {
        Seq::empty()
    } else {
        let before = rules_v4(lines.drop_last());
        let c = lines.last();
        if c.len() >= 5 && c.subrange(0, 4) == seq!["ip"@, "rule"@, "add"@, "priority"@] {
            before.push((c[4], c.subrange(5, c.len() as int)))
        } else {
            before
        }
    }
}

/// The IPv6 rules among the command lines, in order.
pub open spec fn rules_v6(lines: Seq<Seq<Seq<char>>>) -> Seq<Rule>
    decreases lines.len(),
{
    if lines.len() == 0 {
        Seq::empty()
    } else {
        let before = rules_v6(lines.drop_last());
        let c = lines.last();
        if c.len() >= 6 && c.subrange(0, 5) == seq!["ip"@, "-6"@, "rule"@, "add"@, "priority"@] {
            before.push((c[5], c.subrange(6, c.len() as int)))
        } else {
            before
        }
    }
}

/// Rules with priorities that count up from `base`.
pub open spec fn numbered(list: Seq<Seq<Seq<char>>>, base: int) -> Seq<Rule> {
    Seq::new(list.len(), |k: int| (render::dec_text(base + k), list[k]))
}

proof fn lemma_line_v4(lines: Seq<Seq<Seq<char>>>, p: int, tail: Seq<Seq<char>>)
    ensures
        ({
            let after = lines.push(linux_rules::add_words_v4(p) + tail);
            &&& rules_v4(after) == rules_v4(lines).push((render::dec_text(p), tail))
            &&& rules_v6(after) == rules_v6(lines)
        }),
{
    let c = linux_rules::add_words_v4(p) + tail;
    let after = lines.push(c);
    assert(after.drop_last() =~= lines);
    assert(c.subrange(0, 4) =~= seq!["ip"@, "rule"@, "add"@, "priority"@]);
    assert(c.subrange(5, c.len() as int) =~= tail);
    reveal_strlit("rule");
    reveal_strlit("-6");
    if c.len() >= 6 {
        assert(c.subrange(0, 5)[1] == "rule"@);
        assert(seq!["ip"@, "-6"@, "rule"@, "add"@, "priority"@][1] == "-6"@);
    }
}

proof fn lemma_line_v6(lines: Seq<Seq<Seq<char>>>, p: int, tail: Seq<Seq<char>>)
    ensures
        ({
            let after = lines.push(linux_rules::add_words_v6(p) + tail);
            &&& rules_v6(after) == rules_v6(lines).push((render::dec_text(p), tail))
            &&& rules_v4(after) == rules_v4(lines)
        }),
{
    let c = linux_rules::add_words_v6(p) + tail;
    let after = lines.push(c);
    assert(after.drop_last() =~= lines);
    assert(c.subrange(0, 5) =~= seq!["ip"@, "-6"@, "rule"@, "add"@, "priority"@]);
    assert(c.subrange(6, c.len() as int) =~= tail);
    reveal_strlit("rule");
    reveal_strlit("-6");
    assert(c.subrange(0, 4)[1] == "-6"@);
    assert(seq!["ip"@, "rule"@, "add"@, "priority"@][1] == "rule"@);
}

/// So far there are these rules.
spec fn so_far(
    s: Rules,
    a: Seq<Seq<Seq<char>>>,
    b: Seq<Seq<Seq<char>>>,
    base: int,
) -> bool {
    &&& rules_v4(s.commands) == numbered(a, base)
    &&& s.p4 == base + a.len()
    &&& rules_v6(s.commands) == numbered(b, base)
    &&& s.p6 == base + b.len()
}

proof fn lemma_rule4(
    s: Rules,
    a: Seq<Seq<Seq<char>>>,
    b: Seq<Seq<Seq<char>>>,
    base: int,
    tail: Seq<Seq<char>>,
)
    requires
        so_far(s, a, b, base),
    ensures
        so_far(linux_rules::rule4(s, tail), a.push(tail), b, base),
{
    lemma_line_v4(s.commands, s.p4, tail);
    assert(numbered(a.push(tail), base) =~= numbered(a, base).push((render::dec_text(s.p4), tail)));
}

proof fn lemma_rule6(
    s: Rules,
    a: Seq<Seq<Seq<char>>>,
    b: Seq<Seq<Seq<char>>>,
    base: int,
    tail: Seq<Seq<char>>,
)
    requires
        so_far(s, a, b, base),
    ensures
        so_far(linux_rules::rule6(s, tail), a, b.push(tail), base),
{
    lemma_line_v6(s.commands, s.p6, tail);
    assert(numbered(b.push(tail), base) =~= numbered(b, base).push((render::dec_text(s.p6), tail)));
}

spec fn more(list: Seq<Seq<Seq<char>>>, yes: bool, tail: Seq<Seq<char>>) -> Seq<Seq<Seq<char>>> {
    if yes {
        list.push(tail)
    } else {
        list
    }
}

proof fn lemma_both(
    s: Rules,
    a: Seq<Seq<Seq<char>>>,
    b: Seq<Seq<Seq<char>>>,
    base: int,
    has: (bool, bool),
    tail: Seq<Seq<char>>,
)
    requires
        so_far(s, a, b, base),
    ensures
        so_far(
            linux_rules::both(s, has, tail),
            more(a, has.0, tail),
            more(b, has.1, tail),
            base,
        ),
{
    let t = if has.0 {
        linux_rules::rule4(s, tail)
    } else {
        s
    };
    if has.0 {
        lemma_rule4(s, a, b, base, tail);
    }
    if has.1 {
        lemma_rule6(t, more(a, has.0, tail), b, base, tail);
    }
}

/// The rule for a mark: what does not carry it goes to the table.
pub open spec fn mark_part(i: RuleInput) -> Seq<Seq<Seq<char>>> {
    match i.mark {
        Some(m) => seq![
            seq![
                "not"@,
                "fwmark"@,
                render::dec_text(m as int),
                "lookup"@,
                render::dec_text(i.table),
            ],
        ],
        None => Seq::empty(),
    }
}

/// The rules for users whose traffic is left alone.
pub open spec fn uid_part(i: RuleInput) -> Seq<Seq<Seq<char>>> {
    Seq::new(
        i.uids.len(),
        |k: int|
            seq![
                "uidrange"@,
                render::dec_text(i.uids[k].0 as int) + "-"@ + render::dec_text(i.uids[k].1 as int),
                "goto"@,
                render::dec_text(i.nop),
            ],
    )
}

/// The rules for interfaces: where some are named to be taken in, these alone,
/// and else all but those named to be left alone.
pub open spec fn interface_part(i: RuleInput) -> Seq<Seq<Seq<char>>> {
    if i.included.len() > 0 {
        Seq::new(
            i.included.len(),
            |k: int| seq!["iif"@, i.included[k], "lookup"@, render::dec_text(i.table)],
        ).push(seq!["goto"@, render::dec_text(i.nop)])
    } else {
        Seq::new(
            i.excluded.len(),
            |k: int| seq!["iif"@, i.excluded[k], "goto"@, render::dec_text(i.nop)],
        )
    }
}

/// What is said about each of the texts of networks.
pub open spec fn each(
    nets: Seq<Seq<char>>,
    before: Seq<Seq<char>>,
    table: int,
) -> Seq<Seq<Seq<char>>> {
    Seq::new(nets.len(), |k: int| before + seq![nets[k], "lookup"@, render::dec_text(table)])
}

/// The rules by which routes of the table go first, and then the main table's
/// for everything but queries, default routes left out.
pub open spec fn suppress_part(i: RuleInput) -> Seq<Seq<Seq<char>>> {
    seq![
        seq!["lookup"@, render::dec_text(i.table), "suppress_prefixlength"@, "0"@],
        seq!["not"@, "dport"@, "53"@, "lookup"@, "main"@, "suppress_prefixlength"@, "0"@],
    ]
}

/// All IPv4 rules but the last, which is what the others jump to.
pub open spec fn list_v4(i: RuleInput, nets: Seq<Seq<char>>) -> Seq<Seq<Seq<char>>> {
    let table = render::dec_text(i.table);
    if i.inet4.len() > 0 {
        mark_part(i) + uid_part(i) + interface_part(i) + each(nets, seq!["to"@], i.table)
            + suppress_part(i) + seq![
            seq!["iif"@, i.if_name, "goto"@, render::dec_text(i.nop)],
            seq!["not"@, "iif"@, "lo"@, "lookup"@, table],
            seq!["iif"@, "lo"@, "from"@, "0.0.0.0/32"@, "lookup"@, table],
        ] + each(nets, seq!["iif"@, "lo"@, "from"@], i.table)
    } else if i.strict {
        seq![seq!["type"@, "unreachable"@]]
    } else {
        Seq::empty()
    }
}

/// The IPv6 rules up to the one for the lower half of the source addresses.
pub open spec fn first_list_v6(i: RuleInput, nets: Seq<Seq<char>>) -> Seq<Seq<Seq<char>>> {
    let nop = render::dec_text(i.nop);
    if i.inet6.len() > 0 {
        mark_part(i) + uid_part(i) + interface_part(i) + each(nets, seq!["to"@], i.table)
            + suppress_part(i) + seq![
            seq!["iif"@, i.if_name, "goto"@, nop],
            seq!["iif"@, "lo"@, "from"@, "::/1"@, "goto"@, nop],
        ]
    } else if i.strict {
        seq![seq!["type"@, "unreachable"@]]
    } else {
        Seq::empty()
    }
}

/// The IPv6 rules from the one for the upper half on, which has the priority
/// of the one for the lower half.
pub open spec fn second_list_v6(i: RuleInput, nets: Seq<Seq<char>>) -> Seq<Seq<Seq<char>>> {
    let nop = render::dec_text(i.nop);
    if i.inet6.len() > 0 {
        seq![seq!["iif"@, "lo"@, "from"@, "8000::/1"@, "goto"@, nop]] + each(
            nets,
            seq!["iif"@, "lo"@, "from"@],
            i.table,
        ) + seq![seq!["lookup"@, render::dec_text(i.table)]]
    } else {
        Seq::empty()
    }
}

/// The text is that of the network that the address lies in.
pub open spec fn network_text_v4(a: (Ipv4Addr, u8), t: Seq<char>) -> bool {
    exists|net: Ipv4Addr|
        plain::lies_in_v4(a.0, net, a.1) && route_laws::is_network(
            net.bits as int,
            a.1 as int,
            32,
        ) && t == #[trigger] render::prefix_text(IpAddr::V4(net), a.1 as int)
}

pub open spec fn network_text_v6(a: (Ipv6Addr, u8), t: Seq<char>) -> bool {
    exists|net: Ipv6Addr|
        plain::lies_in_v6(a.0, net, a.1) && route_laws::is_network(
            net.bits as int,
            a.1 as int,
            128,
        ) && t == #[trigger] render::prefix_text(IpAddr::V6(net), a.1 as int)
}

/// The texts are those of the networks.
pub open spec fn network_texts(i: RuleInput, n4: Seq<Seq<char>>, n6: Seq<Seq<char>>) -> bool {
    &&& n4.len() == i.inet4.len()
    &&& n6.len() == i.inet6.len()
    &&& forall|k: int| 0 <= k < n4.len() ==> i.inet4[k].1 <= 32 && network_text_v4(
        i.inet4[k],
        #[trigger] n4[k],
    )
    &&& forall|k: int| 0 <= k < n6.len() ==> i.inet6[k].1 <= 128 && network_text_v6(
        i.inet6[k],
        #[trigger] n6[k],
    )
}

proof fn lemma_network_text_v4(a: (Ipv4Addr, u8), t: Seq<char>)
    requires
        a.1 <= 32,
        network_text_v4(a, t),
    ensures
        t == linux_rules::network_text_v4(a),
{
    let net = choose|net: Ipv4Addr|
        plain::lies_in_v4(a.0, net, a.1) && route_laws::is_network(
            net.bits as int,
            a.1 as int,
            32,
        ) && t == #[trigger] render::prefix_text(IpAddr::V4(net), a.1 as int);
    route_laws::lemma_network(net.bits as int, a.1 as int, 32);
    plain::law_networks_v4(a.0, net, a.1);
    lemma_start(a.0.bits as int, net.bits as int, a.1 as int, 32);
}

proof fn lemma_network_text_v6(a: (Ipv6Addr, u8), t: Seq<char>)
    requires
        a.1 <= 128,
        network_text_v6(a, t),
    ensures
        t == linux_rules::network_text_v6(a),
{
    let net = choose|net: Ipv6Addr|
        plain::lies_in_v6(a.0, net, a.1) && route_laws::is_network(
            net.bits as int,
            a.1 as int,
            128,
        ) && t == #[trigger] render::prefix_text(IpAddr::V6(net), a.1 as int);
    route_laws::lemma_network(net.bits as int, a.1 as int, 128);
    plain::law_networks_v6(a.0, net, a.1);
    lemma_start(a.0.bits as int, net.bits as int, a.1 as int, 128);
}

proof fn lemma_start(a: int, net: int, len: int, bits: int)
    requires
        0 <= len <= bits,
        addr::same_block(a, net, len, bits),
        addr::block_start(net, len, bits) == net,
    ensures
        addr::block_start(a, len, bits) == net,
{
    let size = addr::block_size(len, bits);
    vstd::arithmetic::power2::lemma_pow2_pos((bits - len) as nat);
    vstd::arithmetic::div_mod::lemma_fundamental_div_mod(a, size);
    vstd::arithmetic::div_mod::lemma_fundamental_div_mod(net, size);
}

proof fn lemma_uids(
    s: Rules,
    a: Seq<Seq<Seq<char>>>,
    b: Seq<Seq<Seq<char>>>,
    base: int,
    i: RuleInput,
    n: int,
)
    requires
        so_far(s, a, b, base),
        0 <= n <= i.uids.len(),
    ensures
        so_far(
            linux_rules::uid_rules(s, i, n),
            if i.has().0 {
                a + uid_part(i).take(n)
            } else {
                a
            },
            if i.has().1 {
                b + uid_part(i).take(n)
            } else {
                b
            },
            base,
        ),
    decreases n,
{
    let p = uid_part(i);
    if n == 0 {
        assert(a + p.take(0) =~= a);
        assert(b + p.take(0) =~= b);
    } else {
        lemma_uids(s, a, b, base, i, n - 1);
        let a1 = if i.has().0 {
            a + p.take(n - 1)
        } else {
            a
        };
        let b1 = if i.has().1 {
            b + p.take(n - 1)
        } else {
            b
        };
        lemma_both(linux_rules::uid_rules(s, i, n - 1), a1, b1, base, i.has(), p[n - 1]);
        assert((a + p.take(n - 1)).push(p[n - 1]) =~= a + p.take(n));
        assert((b + p.take(n - 1)).push(p[n - 1]) =~= b + p.take(n));
    }
}

proof fn lemma_included(
    s: Rules,
    a: Seq<Seq<Seq<char>>>,
    b: Seq<Seq<Seq<char>>>,
    base: int,
    i: RuleInput,
    n: int,
)
    requires
        so_far(s, a, b, base),
        0 <= n <= i.included.len(),
        i.included.len() > 0,
    ensures
        so_far(
            linux_rules::included_rules(s, i, n),
            if i.has().0 {
                a + interface_part(i).take(n)
            } else {
                a
            },
            if i.has().1 {
                b + interface_part(i).take(n)
            } else {
                b
            },
            base,
        ),
    decreases n,
{
    let p = interface_part(i);
    if n == 0 {
        assert(a + p.take(0) =~= a);
        assert(b + p.take(0) =~= b);
    } else {
        lemma_included(s, a, b, base, i, n - 1);
        let a1 = if i.has().0 {
            a + p.take(n - 1)
        } else {
            a
        };
        let b1 = if i.has().1 {
            b + p.take(n - 1)
        } else {
            b
        };
        lemma_both(linux_rules::included_rules(s, i, n - 1), a1, b1, base, i.has(), p[n - 1]);
        assert((a + p.take(n - 1)).push(p[n - 1]) =~= a + p.take(n));
        assert((b + p.take(n - 1)).push(p[n - 1]) =~= b + p.take(n));
    }
}

proof fn lemma_excluded(
    s: Rules,
    a: Seq<Seq<Seq<char>>>,
    b: Seq<Seq<Seq<char>>>,
    base: int,
    i: RuleInput,
    n: int,
)
    requires
        so_far(s, a, b, base),
        0 <= n <= i.excluded.len(),
        i.included.len() == 0,
    ensures
        so_far(
            linux_rules::excluded_rules(s, i, n),
            if i.has().0 {
                a + interface_part(i).take(n)
            } else {
                a
            },
            if i.has().1 {
                b + interface_part(i).take(n)
            } else {
                b
            },
            base,
        ),
    decreases n,
{
    let p = interface_part(i);
    if n == 0 {
        assert(a + p.take(0) =~= a);
        assert(b + p.take(0) =~= b);
    } else {
        lemma_excluded(s, a, b, base, i, n - 1);
        let a1 = if i.has().0 {
            a + p.take(n - 1)
        } else {
            a
        };
        let b1 = if i.has().1 {
            b + p.take(n - 1)
        } else {
            b
        };
        lemma_both(linux_rules::excluded_rules(s, i, n - 1), a1, b1, base, i.has(), p[n - 1]);
        assert((a + p.take(n - 1)).push(p[n - 1]) =~= a + p.take(n));
        assert((b + p.take(n - 1)).push(p[n - 1]) =~= b + p.take(n));
    }
}

spec fn early(i: RuleInput, yes: bool) -> Seq<Seq<Seq<char>>> {
    if yes {
        mark_part(i) + uid_part(i) + interface_part(i)
    } else if i.strict {
        seq![seq!["type"@, "unreachable"@]]
    } else {
        Seq::empty()
    }
}

proof fn lemma_first(i: RuleInput, base: int)
    ensures
        so_far(
            linux_rules::first_rules(linux_rules::no_rules(base), i),
            early(i, i.has().0),
            early(i, i.has().1),
            base,
        ),
{
    let e = Seq::<Seq<Seq<char>>>::empty();
    let s0 = linux_rules::no_rules(base);
    assert(numbered(e, base) =~= Seq::<Rule>::empty());
    assert(so_far(s0, e, e, base));
    let m = mark_part(i);
    let a1 = if i.has().0 {
        m
    } else {
        e
    };
    let b1 = if i.has().1 {
        m
    } else {
        e
    };
    let s1 = linux_rules::mark_rules(s0, i);
    assert(so_far(s1, a1, b1, base)) by {
        if i.mark is Some {
            lemma_both(s0, e, e, base, i.has(), m[0]);
            assert(e.push(m[0]) =~= m);
        }
    }
    let u = i.uids.len() as int;
    lemma_uids(s1, a1, b1, base, i, u);
    assert(uid_part(i).take(u) =~= uid_part(i));
    let a2 = if i.has().0 {
        m + uid_part(i)
    } else {
        e
    };
    let b2 = if i.has().1 {
        m + uid_part(i)
    } else {
        e
    };
    let s2 = linux_rules::uid_rules(s1, i, u);
    assert(so_far(s2, a2, b2, base));
    let p = interface_part(i);
    let a3 = if i.has().0 {
        m + uid_part(i) + p
    } else {
        e
    };
    let b3 = if i.has().1 {
        m + uid_part(i) + p
    } else {
        e
    };
    let s3 = linux_rules::interface_rules(s2, i);
    assert(so_far(s3, a3, b3, base)) by {
        if i.included.len() > 0 {
            let n = i.included.len() as int;
            lemma_included(s2, a2, b2, base, i, n);
            let a = if i.has().0 {
                a2 + p.take(n)
            } else {
                a2
            };
            let b = if i.has().1 {
                b2 + p.take(n)
            } else {
                b2
            };
            lemma_both(linux_rules::included_rules(s2, i, n), a, b, base, i.has(), p[n]);
            assert((a2 + p.take(n)).push(p[n]) =~= a2 + p);
            assert((b2 + p.take(n)).push(p[n]) =~= b2 + p);
        } else {
            let n = i.excluded.len() as int;
            lemma_excluded(s2, a2, b2, base, i, n);
            assert(p.take(n) =~= p);
        }
    }
    let tail = seq!["type"@, "unreachable"@];
    if i.strict {
        lemma_both(s3, a3, b3, base, (!i.has().0, !i.has().1), tail);
        assert(e.push(tail) =~= seq![tail]);
    }
}

proof fn lemma_subnets_v4(
    s: Rules,
    a: Seq<Seq<Seq<char>>>,
    b: Seq<Seq<Seq<char>>>,
    base: int,
    i: RuleInput,
    nets: Seq<Seq<char>>,
    n: int,
)
    requires
        so_far(s, a, b, base),
        0 <= n <= i.inet4.len(),
        nets.len() == i.inet4.len(),
        forall|k: int|
            0 <= k < nets.len() ==> #[trigger] nets[k] == linux_rules::network_text_v4(i.inet4[k]),
    ensures
        so_far(
            linux_rules::subnet_rules_v4(s, i, n),
            a + each(nets, seq!["to"@], i.table).take(n),
            b,
            base,
        ),
        so_far(
            linux_rules::source_rules_v4(s, i, n),
            a + each(nets, seq!["iif"@, "lo"@, "from"@], i.table).take(n),
            b,
            base,
        ),
    decreases n,
{
    let p = each(nets, seq!["to"@], i.table);
    let q = each(nets, seq!["iif"@, "lo"@, "from"@], i.table);
    let table = render::dec_text(i.table);
    if n == 0 {
        assert(a + p.take(0) =~= a);
        assert(a + q.take(0) =~= a);
    } else {
        lemma_subnets_v4(s, a, b, base, i, nets, n - 1);
        let net = nets[n - 1];
        assert(p[n - 1] =~= seq!["to"@, net, "lookup"@, table]);
        assert(q[n - 1] =~= seq!["iif"@, "lo"@, "from"@, net, "lookup"@, table]);
        lemma_rule4(
            linux_rules::subnet_rules_v4(s, i, n - 1),
            a + p.take(n - 1),
            b,
            base,
            p[n - 1],
        );
        lemma_rule4(
            linux_rules::source_rules_v4(s, i, n - 1),
            a + q.take(n - 1),
            b,
            base,
            q[n - 1],
        );
        assert((a + p.take(n - 1)).push(p[n - 1]) =~= a + p.take(n));
        assert((a + q.take(n - 1)).push(q[n - 1]) =~= a + q.take(n));
    }
}

proof fn lemma_subnets_v6(
    s: Rules,
    a: Seq<Seq<Seq<char>>>,
    b: Seq<Seq<Seq<char>>>,
    base: int,
    i: RuleInput,
    nets: Seq<Seq<char>>,
    n: int,
)
    requires
        so_far(s, a, b, base),
        0 <= n <= i.inet6.len(),
        nets.len() == i.inet6.len(),
        forall|k: int|
            0 <= k < nets.len() ==> #[trigger] nets[k] == linux_rules::network_text_v6(i.inet6[k]),
    ensures
        so_far(
            linux_rules::subnet_rules_v6(s, i, n),
            a,
            b + each(nets, seq!["to"@], i.table).take(n),
            base,
        ),
    decreases n,
{
    let p = each(nets, seq!["to"@], i.table);
    let table = render::dec_text(i.table);
    if n == 0 {
        assert(b + p.take(0) =~= b);
    } else {
        lemma_subnets_v6(s, a, b, base, i, nets, n - 1);
        let net = nets[n - 1];
        assert(p[n - 1] =~= seq!["to"@, net, "lookup"@, table]);
        lemma_rule6(
            linux_rules::subnet_rules_v6(s, i, n - 1),
            a,
            b + p.take(n - 1),
            base,
            p[n - 1],
        );
        assert((b + p.take(n - 1)).push(p[n - 1]) =~= b + p.take(n));
    }
}

/// From the two rules of one priority on there are these IPv6 rules.
spec fn so_far_v6(
    s: Rules,
    first: Seq<Seq<Seq<char>>>,
    second: Seq<Seq<Seq<char>>>,
    base: int,
) -> bool {
    &&& rules_v6(s.commands) == numbered(first, base) + numbered(second, base + first.len() - 1)
    &&& s.p6 == base + first.len() - 1 + second.len()
}

proof fn lemma_rule6_later(
    s: Rules,
    first: Seq<Seq<Seq<char>>>,
    second: Seq<Seq<Seq<char>>>,
    base: int,
    tail: Seq<Seq<char>>,
)
    requires
        so_far_v6(s, first, second, base),
    ensures
        so_far_v6(linux_rules::rule6(s, tail), first, second.push(tail), base),
        rules_v4(linux_rules::rule6(s, tail).commands) == rules_v4(s.commands),
{
    lemma_line_v6(s.commands, s.p6, tail);
    let from = base + first.len() - 1;
    assert(numbered(second.push(tail), from) =~= numbered(second, from).push(
        (render::dec_text(s.p6), tail),
    ));
    assert((numbered(first, base) + numbered(second, from)).push((render::dec_text(s.p6), tail))
        =~= numbered(first, base) + numbered(second.push(tail), from));
}

proof fn lemma_sources_v6(
    s: Rules,
    first: Seq<Seq<Seq<char>>>,
    second: Seq<Seq<Seq<char>>>,
    base: int,
    i: RuleInput,
    nets: Seq<Seq<char>>,
    n: int,
)
    requires
        so_far_v6(s, first, second, base),
        0 <= n <= i.inet6.len(),
        nets.len() == i.inet6.len(),
        forall|k: int|
            0 <= k < nets.len() ==> #[trigger] nets[k] == linux_rules::network_text_v6(i.inet6[k]),
    ensures
        so_far_v6(
            linux_rules::source_rules_v6(s, i, n),
            first,
            second + each(nets, seq!["iif"@, "lo"@, "from"@], i.table).take(n),
            base,
        ),
        rules_v4(linux_rules::source_rules_v6(s, i, n).commands) == rules_v4(s.commands),
    decreases n,
{
    let q = each(nets, seq!["iif"@, "lo"@, "from"@], i.table);
    let table = render::dec_text(i.table);
    if n == 0 {
        assert(second + q.take(0) =~= second);
    } else {
        lemma_sources_v6(s, first, second, base, i, nets, n - 1);
        let net = nets[n - 1];
        assert(q[n - 1] =~= seq!["iif"@, "lo"@, "from"@, net, "lookup"@, table]);
        lemma_rule6_later(
            linux_rules::source_rules_v6(s, i, n - 1),
            first,
            second + q.take(n - 1),
            base,
            q[n - 1],
        );
        assert((second + q.take(n - 1)).push(q[n - 1]) =~= second + q.take(n));
    }
}

#[verifier::rlimit(40)]
proof fn lemma_middle(
    i: RuleInput,
    base: int,
    n4: Seq<Seq<char>>,
    n6: Seq<Seq<char>>,
) -> (s: Rules)
    requires
        network_texts(i, n4, n6),
    ensures
        s == linux_rules::suppress_rules(
            linux_rules::subnet_rules_v6(
                linux_rules::subnet_rules_v4(
                    linux_rules::first_rules(linux_rules::no_rules(base), i),
                    i,
                    i.inet4.len() as int,
                ),
                i,
                i.inet6.len() as int,
            ),
            i,
        ),
        so_far(s, middle(i, i.has().0, n4), middle(i, i.has().1, n6), base),
        forall|k: int|
            0 <= k < n4.len() ==> #[trigger] n4[k] == linux_rules::network_text_v4(i.inet4[k]),
        forall|k: int|
            0 <= k < n6.len() ==> #[trigger] n6[k] == linux_rules::network_text_v6(i.inet6[k]),
{
    assert forall|k: int| 0 <= k < n4.len() implies #[trigger] n4[k]
        == linux_rules::network_text_v4(i.inet4[k]) by {
        lemma_network_text_v4(i.inet4[k], n4[k]);
    }
    assert forall|k: int| 0 <= k < n6.len() implies #[trigger] n6[k]
        == linux_rules::network_text_v6(i.inet6[k]) by {
        lemma_network_text_v6(i.inet6[k], n6[k]);
    }
    lemma_first(i, base);
    let s0 = linux_rules::first_rules(linux_rules::no_rules(base), i);
    let a0 = early(i, i.has().0);
    let b0 = early(i, i.has().1);
    let l4 = i.inet4.len() as int;
    let l6 = i.inet6.len() as int;
    let e4 = each(n4, seq!["to"@], i.table);
    let e6 = each(n6, seq!["to"@], i.table);
    lemma_subnets_v4(s0, a0, b0, base, i, n4, l4);
    assert(e4.take(l4) =~= e4);
    let s1 = linux_rules::subnet_rules_v4(s0, i, l4);
    lemma_subnets_v6(s1, a0 + e4, b0, base, i, n6, l6);
    assert(e6.take(l6) =~= e6);
    let s2 = linux_rules::subnet_rules_v6(s1, i, l6);
    let p = suppress_part(i);
    let a2 = a0 + e4;
    let b2 = b0 + e6;
    lemma_both(s2, a2, b2, base, i.has(), p[0]);
    let s3 = linux_rules::both(s2, i.has(), p[0]);
    let a3 = more(a2, i.has().0, p[0]);
    let b3 = more(b2, i.has().1, p[0]);
    lemma_both(s3, a3, b3, base, i.has(), p[1]);
    assert(a2.push(p[0]).push(p[1]) =~= a2 + p);
    assert(b2.push(p[0]).push(p[1]) =~= b2 + p);
    assert(a2 + Seq::<Seq<Seq<char>>>::empty() =~= a2);
    assert(b2 + Seq::<Seq<Seq<char>>>::empty() =~= b2);
    linux_rules::suppress_rules(s2, i)
}

spec fn middle(i: RuleInput, yes: bool, nets: Seq<Seq<char>>) -> Seq<Seq<Seq<char>>> {
    early(i, yes) + each(nets, seq!["to"@], i.table) + (if yes {
        suppress_part(i)
    } else {
        Seq::empty()
    })
}

proof fn lemma_last_v4(
    s: Rules,
    b: Seq<Seq<Seq<char>>>,
    base: int,
    i: RuleInput,
    n4: Seq<Seq<char>>,
)
    requires
        so_far(s, middle(i, i.has().0, n4), b, base),
        n4.len() == i.inet4.len(),
        forall|k: int|
            0 <= k < n4.len() ==> #[trigger] n4[k] == linux_rules::network_text_v4(i.inet4[k]),
    ensures
        so_far(linux_rules::last_rules_v4(s, i), list_v4(i, n4), b, base),
{
    let none = Seq::<Seq<Seq<char>>>::empty();
    let table = render::dec_text(i.table);
    let nop = render::dec_text(i.nop);
    let a = middle(i, i.has().0, n4);
    if i.has().0 {
        let t1 = seq!["iif"@, i.if_name, "goto"@, nop];
        let t2 = seq!["not"@, "iif"@, "lo"@, "lookup"@, table];
        let t3 = seq!["iif"@, "lo"@, "from"@, "0.0.0.0/32"@, "lookup"@, table];
        lemma_rule4(s, a, b, base, t1);
        let s1 = linux_rules::rule4(s, t1);
        lemma_rule4(s1, a.push(t1), b, base, t2);
        let s2 = linux_rules::rule4(s1, t2);
        lemma_rule4(s2, a.push(t1).push(t2), b, base, t3);
        let s3 = linux_rules::rule4(s2, t3);
        let q = each(n4, seq!["iif"@, "lo"@, "from"@], i.table);
        let n = i.inet4.len() as int;
        let c = a.push(t1).push(t2).push(t3);
        lemma_subnets_v4(s3, c, b, base, i, n4, n);
        assert(q.take(n) =~= q);
        assert(c + q =~= list_v4(i, n4));
    } else {
        assert(each(n4, seq!["to"@], i.table) =~= none);
        assert(a =~= list_v4(i, n4));
    }
}

proof fn lemma_last_v6(
    s: Rules,
    a: Seq<Seq<Seq<char>>>,
    base: int,
    i: RuleInput,
    n6: Seq<Seq<char>>,
)
    requires
        so_far(s, a, middle(i, true, n6), base),
        i.has().1,
        n6.len() == i.inet6.len(),
        forall|k: int|
            0 <= k < n6.len() ==> #[trigger] n6[k] == linux_rules::network_text_v6(i.inet6[k]),
    ensures
        so_far_v6(
            linux_rules::last_rules_v6(s, i),
            first_list_v6(i, n6),
            second_list_v6(i, n6),
            base,
        ),
        rules_v4(linux_rules::last_rules_v6(s, i).commands) == numbered(a, base),
{
    let none = Seq::<Seq<Seq<char>>>::empty();
    let table = render::dec_text(i.table);
    let nop = render::dec_text(i.nop);
    let b = middle(i, true, n6);
    let t1 = seq!["iif"@, i.if_name, "goto"@, nop];
    let t2 = seq!["iif"@, "lo"@, "from"@, "::/1"@, "goto"@, nop];
    let t3 = seq!["iif"@, "lo"@, "from"@, "8000::/1"@, "goto"@, nop];
    let t4 = seq!["lookup"@, table];
    lemma_rule6(s, a, b, base, t1);
    let u1 = linux_rules::rule6(s, t1);
    let u2 = linux_rules::shared6(u1, t2);
    lemma_line_v6(u1.commands, u1.p6, t2);
    let first = b.push(t1).push(t2);
    assert(first =~= first_list_v6(i, n6));
    assert(numbered(first, base) =~= numbered(b.push(t1), base).push((render::dec_text(u1.p6), t2)));
    assert(numbered(first, base) + numbered(none, base + first.len() - 1) =~= numbered(first, base));
    assert(so_far_v6(u2, first, none, base));
    lemma_rule6_later(u2, first, none, base, t3);
    let u3 = linux_rules::rule6(u2, t3);
    let n = i.inet6.len() as int;
    lemma_sources_v6(u3, first, none.push(t3), base, i, n6, n);
    let q = each(n6, seq!["iif"@, "lo"@, "from"@], i.table);
    assert(q.take(n) =~= q);
    let u4 = linux_rules::source_rules_v6(u3, i, n);
    lemma_rule6_later(u4, first, none.push(t3) + q, base, t4);
    assert((none.push(t3) + q).push(t4) =~= second_list_v6(i, n6));
}

/// The rules of the device, in the order in which they are tried, with
/// priorities that count up from the first one. The last rule of each version
/// says nothing: others jump to it past the rest. A version without addresses
/// has no rules, or one that shuts it off where the settings are strict.
#[verifier::rlimit(40)]
pub proof fn law_rules(
    i: RuleInput,
    base: int,
    n4: Seq<Seq<char>>,
    n6: Seq<Seq<char>>,
)
    requires
        network_texts(i, n4, n6),
    ensures
        ({
            let lines = linux_rules::all_rules(i, base).commands;
            let last = (render::dec_text(i.nop), Seq::<Seq<char>>::empty());
            let first6 = first_list_v6(i, n6);
            &&& rules_v4(lines) == (if i.inet4.len() > 0 {
                numbered(list_v4(i, n4), base).push(last)
            } else {
                numbered(list_v4(i, n4), base)
            })
            &&& rules_v6(lines) == (if i.inet6.len() > 0 {
                (numbered(first6, base) + numbered(
                    second_list_v6(i, n6),
                    base + first6.len() - 1,
                )).push(last)
            } else {
                numbered(first6, base)
            })
        }),
{
    let s = lemma_middle(i, base, n4, n6);
    let h4 = i.has().0;
    let h6 = i.has().1;
    let s4 = linux_rules::last_rules_v4(s, i);
    lemma_last_v4(s, middle(i, h6, n6), base, i, n4);
    let s6 = linux_rules::last_rules_v6(s4, i);
    if h6 {
        lemma_last_v6(s4, list_v4(i, n4), base, i, n6);
    } else {
        assert(each(n6, seq!["to"@], i.table) =~= Seq::<Seq<Seq<char>>>::empty());
        assert(middle(i, false, n6) =~= first_list_v6(i, n6));
    }
    let w4 = linux_rules::add_words_v4(i.nop);
    let w6 = linux_rules::add_words_v6(i.nop);
    let nothing = Seq::<Seq<char>>::empty();
    assert(w4 + nothing =~= w4);
    assert(w6 + nothing =~= w6);
    lemma_line_v4(s6.commands, i.nop, nothing);
    let c = if h4 {
        s6.commands.push(w4)
    } else {
        s6.commands
    };
    lemma_line_v6(c, i.nop, nothing);
}

} // verus!
