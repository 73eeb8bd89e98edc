//! Removing lines that match any of a list of patterns.
use vstd::prelude::*;
use crate::pattern::{any_match, compile_all, matches_any};
use crate::text::views;

verus! {

/// The lines that no pattern of `patterns` matches, in order. A pattern that
/// does not compile matches nothing.
pub open spec fn keep_unmatched(lines: Seq<Seq<char>>, patterns: Seq<Seq<char>>) -> Seq<Seq<char>>
    decreases lines.len(),
{
    if lines.len() == 0 {
        Seq::empty()
    } else {
        let r = keep_unmatched(lines.drop_last(), patterns);
        if matches_any(patterns, lines.last()) {
            r
        } else {
            r.push(lines.last())
        }
    }
}

/// The lines whose flag equals `want`, in order (`flags[i]` belongs to
/// `lines[i]`).
pub open spec fn keep_flagged(lines: Seq<Seq<char>>, flags: Seq<bool>, want: bool) -> Seq<Seq<char>>
    decreases lines.len(),
{
    if lines.len() == 0 || flags.len() == 0 {
        Seq::empty()
    } else {
        let r = keep_flagged(lines.drop_last(), flags.drop_last(), want);
        if flags.last() == want {
            r.push(lines.last())
        } else {
            r
        }
    }
}

/// Which lines some pattern matches.
pub open spec fn match_flags(lines: Seq<Seq<char>>, patterns: Seq<Seq<char>>) -> Seq<bool> {
    lines.map_values(|l: Seq<char>| matches_any(patterns, l))
}

proof fn lemma_keep_unmatched_flags(lines: Seq<Seq<char>>, patterns: Seq<Seq<char>>)
    ensures
        keep_unmatched(lines, patterns) == keep_flagged(lines, match_flags(lines, patterns), false),
    decreases lines.len(),
{
    if lines.len() > 0 {
        lemma_keep_unmatched_flags(lines.drop_last(), patterns);
        assert(match_flags(lines, patterns).drop_last() == match_flags(lines.drop_last(), patterns));
    }
}

/// Keeps the lines whose flag equals `want`; `flags[i]` belongs to
/// `lines[i]`.
pub fn keep_lines_flagged(lines: &Vec<String>, flags: &Vec<bool>, want: bool) -> (r: Vec<String>)
    requires
        flags@.len() == lines@.len(),
    ensures
        views(r@) == keep_flagged(views(lines@), flags@, want),
{
    let ghost ls = views(lines@);
    let mut result: Vec<String> = Vec::new();
    let mut i: usize = 0;
    while i < lines.len()
        invariant
            i <= lines.len(),
            flags@.len() == lines@.len(),
            ls == views(lines@),
            views(result@) == keep_flagged(ls.take(i as int), flags@.take(i as int), want),
        decreases lines.len() - i,
    {
        assert(ls.take(i + 1).drop_last() == ls.take(i as int));
        assert(flags@.take(i + 1).drop_last() == flags@.take(i as int));
        assert(ls.take(i + 1).last() == lines@[i as int]@);
        if flags[i] == want {
            let ghost before = views(result@);
            result.push(lines[i].clone());
            assert(views(result@) == before.push(lines@[i as int]@));
        }
        i += 1;
    }
    assert(ls.take(lines.len() as int) == ls);
    assert(flags@.take(lines.len() as int) == flags@);
    result
}

/// Removes lines matching any of the given regex patterns; patterns that do
/// not compile are skipped.
pub fn filter_lines(lines: Vec<String>, patterns: &[String]) -> (r: Vec<String>)
    ensures
        views(r@) == keep_unmatched(views(lines@), views(patterns@)),
{
    let ghost ls = views(lines@);
    let ghost ps = views(patterns@);
    let compiled = compile_all(patterns);
    let mut hits: Vec<bool> = Vec::new();
    let mut i: usize = 0;
    while i < lines.len()
        invariant
            i <= lines.len(),
            ls == views(lines@),
            crate::pattern::compiled_from(compiled@, ps),
            hits@ == match_flags(ls, ps).take(i as int),
        decreases lines.len() - i,
    {
        let hit = any_match(&compiled, Ghost(ps), lines[i].as_str());
        hits.push(hit);
        assert(match_flags(ls, ps).take(i + 1) == match_flags(ls, ps).take(i as int).push(hit));
        i += 1;
    }
    assert(match_flags(ls, ps).take(lines.len() as int) == match_flags(ls, ps));
    proof {
        lemma_keep_unmatched_flags(ls, ps);
    }
    keep_lines_flagged(&lines, &hits, false)
}

/// Filtering keeps exactly the lines no pattern matches, in their order:
/// no kept line matches, and filtering again changes nothing.
pub proof fn law_filter_idempotent(lines: Seq<Seq<char>>, patterns: Seq<Seq<char>>)
    ensures
        forall|i: int|
            0 <= i < keep_unmatched(lines, patterns).len() ==> !matches_any(
                patterns,
                #[trigger] keep_unmatched(lines, patterns)[i],
            ),
        keep_unmatched(keep_unmatched(lines, patterns), patterns) == keep_unmatched(lines, patterns),
        keep_unmatched(lines, patterns).len() <= lines.len(),
    decreases lines.len(),
{
    if lines.len() > 0 {
        law_filter_idempotent(lines.drop_last(), patterns);
        let r = keep_unmatched(lines.drop_last(), patterns);
        if !matches_any(patterns, lines.last()) {
            assert(r.push(lines.last()).drop_last() == r);
        }
    }
}

/// With no patterns every line is kept.
pub proof fn law_filter_no_patterns(lines: Seq<Seq<char>>)
    ensures
        keep_unmatched(lines, Seq::empty()) == lines,
    decreases lines.len(),
{
    if lines.len() > 0 {
        law_filter_no_patterns(lines.drop_last());
        assert(lines.drop_last().push(lines.last()) == lines);
    }
}

} // verus!
