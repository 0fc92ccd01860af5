//! Redirection by packet marks: the nftables rule set, and how it is removed.
use vstd::prelude::*;
use vstd::string::*;

use crate::command;
use crate::command::push_words;
use crate::config::TunInboundConfig;
use crate::linux;
use crate::render;
use crate::render::{dec_string, hex_string};

verus! {

/// Whether Unicode counts the character as a letter or a number: what
/// `char::is_alphanumeric` answers.
pub uninterp spec fn alphanumeric(c: char) -> bool;

/// Calls `char::is_alphanumeric`. Claimed: the answer depends on the character
/// alone, and for ASCII it is yes for letters and digits and no for the rest.
#[verifier::external_body]
fn is_alphanumeric(c: char) -> (r: bool)
    ensures
        r == alphanumeric(c),
        (c as int) < 128 ==> r == ('0' <= c && c <= '9' || 'a' <= c && c <= 'z' || 'A' <= c && c
            <= 'Z'),
{
    c.is_alphanumeric()
}

/// A text with an underscore for each character that is no letter or number.
pub open spec fn plain_name(s: Seq<char>) -> Seq<char> {
    Seq::new(
        s.len(),
        |k: int|
            if alphanumeric(s[k]) {
                s[k]
            } else {
                '_'
            },
    )
}

/// The name of the table for a device.
pub open spec fn table_text(if_name: Seq<char>) -> Seq<char> {
    "reflex_tun_"@ + plain_name(if_name)
}

/// The name of the table for a device.
pub fn nft_table_name(if_name: &str) -> (s: String)
    ensures
        s@ == table_text(if_name@),
{
    let mut s: String = "reflex_tun_".to_owned();
    let n: usize = if_name.unicode_len();
    let ghost plain = plain_name(if_name@);
    let mut k: usize = 0;
    assert("reflex_tun_"@ + plain.take(0) =~= "reflex_tun_"@);
    while k < n
        invariant
            k <= n,
            n == if_name@.len(),
            plain == plain_name(if_name@),
            s@ == "reflex_tun_"@ + plain.take(k as int),
        decreases n - k,
    {
        let c: char = if_name.get_char(k);
        if is_alphanumeric(c) {
            s.append(if_name.substring_char(k, k + 1));
        } else {
            proof {
                reveal_strlit("_");
            }
            s.append("_");
        }
        assert(plain.take(k + 1) =~= plain.take(k as int).push(plain[k as int]));
        assert(s@ =~= "reflex_tun_"@ + plain.take(k + 1));
        k += 1;
    }
    assert(plain.take(plain.len() as int) =~= plain);
    s
}

/// The rules on packets that come in.
pub open spec fn prerouting_text(if_name: Seq<char>, marked: Seq<char>, own: Seq<char>) -> Seq<
    char,
> {
    "    chain prerouting {\n        type filter hook prerouting priority -150; policy accept;\n        meta iifname \""@
        + if_name + "\" return comment \"skip TUN ingress\"\n        meta mark "@ + own
        + " return comment \"skip reflex own reply\"\n        meta mark "@ + marked
        + " return comment \"skip already marked\"\n        meta l4proto 6 meta mark set "@
        + marked
        + " accept comment \"mark TCP for TUN\"\n        meta l4proto 17 meta mark set "@ + marked
        + " accept comment \"mark UDP for TUN\"\n    }\n"@
}

/// The rules on packets of this host.
pub open spec fn output_text(if_name: Seq<char>, marked: Seq<char>, own: Seq<char>) -> Seq<char> {
    "    chain output {\n        type route hook output priority -150; policy accept;\n        meta oifname \""@
        + if_name + "\" return comment \"skip TUN egress\"\n        meta mark "@ + own
        + " return comment \"skip reflex own output\"\n        meta l4proto 6 meta mark set "@
        + marked
        + " comment \"mark local TCP for TUN\"\n        meta l4proto 17 meta mark set "@ + marked
        + " comment \"mark local UDP for TUN\"\n    }\n"@
}

/// The rule set: packets get the mark that leads them to the device, except
/// those of the device, those marked already and those of the inbound itself.
pub open spec fn ruleset_text(cfg: &TunInboundConfig, if_name: Seq<char>) -> Seq<char> {
    let marked = render::dec_text(cfg.auto_redirect_input_mark as int);
    let own = render::dec_text(cfg.auto_redirect_output_mark as int);
    "\nflush table inet "@ + table_text(if_name) + "\ntable inet "@ + table_text(if_name) + " {\n"@
        + prerouting_text(if_name, marked, own) + output_text(if_name, marked, own) + "}\n"@
}

fn push_prerouting(s: &mut String, if_name: &str, marked: &str, own: &str)
    ensures
        final(s)@ == old(s)@ + prerouting_text(if_name@, marked@, own@),
{
    let ghost before = s@;
    s.append(
        "    chain prerouting {\n        type filter hook prerouting priority -150; policy accept;\n        meta iifname \"",
    );
    s.append(if_name);
    s.append("\" return comment \"skip TUN ingress\"\n        meta mark ");
    s.append(own);
    s.append(" return comment \"skip reflex own reply\"\n        meta mark ");
    s.append(marked);
    s.append(" return comment \"skip already marked\"\n        meta l4proto 6 meta mark set ");
    s.append(marked);
    s.append(" accept comment \"mark TCP for TUN\"\n        meta l4proto 17 meta mark set ");
    s.append(marked);
    s.append(" accept comment \"mark UDP for TUN\"\n    }\n");
    assert(s@ =~= before + prerouting_text(if_name@, marked@, own@));
}

fn push_output(s: &mut String, if_name: &str, marked: &str, own: &str)
    ensures
        final(s)@ == old(s)@ + output_text(if_name@, marked@, own@),
{
    let ghost before = s@;
    s.append(
        "    chain output {\n        type route hook output priority -150; policy accept;\n        meta oifname \"",
    );
    s.append(if_name);
    s.append("\" return comment \"skip TUN egress\"\n        meta mark ");
    s.append(own);
    s.append(" return comment \"skip reflex own output\"\n        meta l4proto 6 meta mark set ");
    s.append(marked);
    s.append(" comment \"mark local TCP for TUN\"\n        meta l4proto 17 meta mark set ");
    s.append(marked);
    s.append(" comment \"mark local UDP for TUN\"\n    }\n");
    assert(s@ =~= before + output_text(if_name@, marked@, own@));
}

/// The rule set that redirects traffic to the device.
pub fn setup_nftables_redirect(cfg: &TunInboundConfig, if_name: &str) -> (s: String)
    ensures
        s@ == ruleset_text(cfg, if_name@),
{
    let table: String = nft_table_name(if_name);
    let marked: String = dec_string(cfg.auto_redirect_input_mark as u64);
    let own: String = dec_string(cfg.auto_redirect_output_mark as u64);
    let mut s: String = "\nflush table inet ".to_owned();
    s.append(table.as_str());
    s.append("\ntable inet ");
    s.append(table.as_str());
    s.append(" {\n");
    push_prerouting(&mut s, if_name, marked.as_str(), own.as_str());
    push_output(&mut s, if_name, marked.as_str(), own.as_str());
    s.append("}\n");
    s
}

/// The command lines that remove the table and the rules for marked traffic.
pub open spec fn cleanup_lines(cfg: &TunInboundConfig, if_name: Seq<char>) -> Seq<Seq<Seq<char>>> {
    let mark = linux::mark_text(cfg.auto_redirect_input_mark as int);
    let table = render::dec_text(cfg.iproute2_table_index as int);
    seq![
        seq!["nft"@, "delete"@, "table"@, "inet"@, table_text(if_name)],
        seq!["ip"@, "rule"@, "del"@, "fwmark"@, mark, "lookup"@, table],
        seq!["ip"@, "-6"@, "rule"@, "del"@, "fwmark"@, mark, "lookup"@, table],
    ]
}

/// The command lines that remove the table and the rules for marked traffic.
pub fn cleanup_nftables_redirect(cfg: &TunInboundConfig, if_name: &str) -> (v: Vec<Vec<String>>)
    ensures
        command::lines(v@) == cleanup_lines(cfg, if_name@),
{
    let name: String = nft_table_name(if_name);
    let mut mark: String = "0x".to_owned();
    mark.append(hex_string(cfg.auto_redirect_input_mark as u64).as_str());
    let table: String = dec_string(cfg.iproute2_table_index as u64);
    let nft: Vec<&str> = vec!["nft", "delete", "table", "inet", name.as_str()];
    let v4: Vec<&str> = vec!["ip", "rule", "del", "fwmark", mark.as_str(), "lookup", table.as_str()];
    let v6: Vec<&str> = vec![
        "ip",
        "-6",
        "rule",
        "del",
        "fwmark",
        mark.as_str(),
        "lookup",
        table.as_str(),
    ];
    let ghost all = cleanup_lines(cfg, if_name@);
    assert(command::words(nft@) =~= all[0]);
    assert(command::words(v4@) =~= all[1]);
    assert(command::words(v6@) =~= all[2]);
    let mut v: Vec<Vec<String>> = Vec::new();
    push_words(&mut v, &nft);
    push_words(&mut v, &v4);
    push_words(&mut v, &v6);
    assert(command::lines(v@) =~= all);
    v
}

} // verus!
