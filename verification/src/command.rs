//! Command lines: a program and its arguments.
use vstd::prelude::*;

use crate::text;

verus! {

/// The texts that string slices hold.
pub open spec fn words(v: Seq<&str>) -> Seq<Seq<char>> {
    Seq::new(v.len(), |k: int| v[k]@)
}

/// The texts of command lines.
pub open spec fn lines(v: Seq<Vec<String>>) -> Seq<Seq<Seq<char>>> {
    Seq::new(v.len(), |k: int| text::str_views(v[k]@))
}

/// The command line of these words.
pub fn command(w: &Vec<&str>) -> (c: Vec<String>)
    ensures
        text::str_views(c@) == words(w@),
{
    let mut c: Vec<String> = Vec::new();
    let mut k: usize = 0;
    while k < w.len()
        invariant
            k <= w.len(),
            text::str_views(c@) == words(w@).take(k as int),
        decreases w.len() - k,
    {
        let ghost before = text::str_views(c@);
        let s: String = w[k].to_owned();
        c.push(s);
        assert(text::str_views(c@) =~= before.push(w@[k as int]@));
        assert(words(w@).take(k + 1) =~= words(w@).take(k as int).push(w@[k as int]@));
        k += 1;
    }
    assert(words(w@).take(w@.len() as int) =~= words(w@));
    c
}

/// Puts words behind a command line.
pub fn extend(c: &mut Vec<String>, w: &Vec<&str>)
    ensures
        text::str_views(final(c)@) == text::str_views(old(c)@) + words(w@),
{
    let ghost before = text::str_views(c@);
    let mut more: Vec<String> = command(w);
    let ghost added = text::str_views(more@);
    c.append(&mut more);
    assert(text::str_views(c@) =~= before + added);
}

/// Adds a command line to a list.
pub fn push_line(v: &mut Vec<Vec<String>>, c: Vec<String>)
    ensures
        lines(final(v)@) == lines(old(v)@).push(text::str_views(c@)),
{
    let ghost before = lines(v@);
    let ghost line = text::str_views(c@);
    v.push(c);
    assert(lines(v@) =~= before.push(line));
}

/// Adds the command line of these words to a list.
pub fn push_words(v: &mut Vec<Vec<String>>, w: &Vec<&str>)
    ensures
        lines(final(v)@) == lines(old(v)@).push(words(w@)),
{
    let c: Vec<String> = command(w);
    push_line(v, c);
}

} // verus!
