//! Collapsing runs of consecutive near-identical lines.
use vstd::prelude::*;
use crate::pattern::{compile, digit_runs_as_n, digits_to_n, is_decimal_digit, replace_all, Pattern};
use crate::text::{lemma_trim_idempotent, char_views, chars_equal, decimal, from_chars, push_decimal, push_str, to_chars, trim, trim_str, views};

verus! {

/// A line with surrounding whitespace removed and each run of digits
/// replaced by `N` (what `\\d+` replaced by `N` gives): lines with the same
/// normal form differ only in numbers.
pub open spec fn normal_form(l: Seq<char>) -> Seq<char> {
    digits_to_n(trim(l))
}

proof fn lemma_digit_runs_push(s: Seq<char>, b: bool, x: char)
    ensures
        digit_runs_as_n(s.push(x), b) == if !is_decimal_digit(x) {
            digit_runs_as_n(s, b).push(x)
        } else if (if s.len() > 0 { is_decimal_digit(s.last()) } else { b }) {
            digit_runs_as_n(s, b)
        } else {
            digit_runs_as_n(s, b).push('N')
        },
    decreases s.len(),
{
    if s.len() == 0 {
        assert(s.push(x).drop_first() == Seq::<char>::empty());
        assert(digit_runs_as_n(Seq::<char>::empty(), true) == Seq::<char>::empty());
        assert(digit_runs_as_n(Seq::<char>::empty(), false) == Seq::<char>::empty());
    } else {
        let t = s.drop_first();
        assert(s.push(x).drop_first() == t.push(x));
        assert(s.push(x)[0] == s[0]);
        let nb = is_decimal_digit(s[0]);
        lemma_digit_runs_push(t, nb, x);
        if t.len() > 0 {
            assert(t.last() == s.last());
        }
        let head = if nb {
            if b {
                Seq::<char>::empty()
            } else {
                seq!['N']
            }
        } else {
            seq![s[0]]
        };
        assert(digit_runs_as_n(s.push(x), b) == head + digit_runs_as_n(t.push(x), nb));
        assert(digit_runs_as_n(s, b) == head + digit_runs_as_n(t, nb));
        assert((head + digit_runs_as_n(t, nb)).push(x) == head + digit_runs_as_n(t, nb).push(x));
        assert((head + digit_runs_as_n(t, nb)).push('N') == head + digit_runs_as_n(t, nb).push('N'));
    }
}

/// How a line's normal form is built: from its trimmed text, character by
/// character, an empty text gives nothing; a character that is not a
/// decimal digit is kept as it is; a digit that starts a run of digits
/// becomes `N`, and the further digits of the run add nothing. Surrounding
/// whitespace does not count: a line and its trimmed text have the same
/// form.
pub proof fn law_normal_form(line: Seq<char>, s: Seq<char>, c: char)
    ensures
        normal_form(line) == digits_to_n(trim(line)),
        normal_form(trim(line)) == normal_form(line),
        digits_to_n(Seq::empty()) == Seq::<char>::empty(),
        !is_decimal_digit(c) ==> digits_to_n(s.push(c)) == digits_to_n(s).push(c),
        is_decimal_digit(c) && s.len() > 0 && is_decimal_digit(s.last()) ==> digits_to_n(s.push(c))
            == digits_to_n(s),
        is_decimal_digit(c) && !(s.len() > 0 && is_decimal_digit(s.last())) ==> digits_to_n(
            s.push(c),
        ) == digits_to_n(s).push('N'),
{
    lemma_trim_idempotent(line);
    lemma_digit_runs_push(s, false, c);
}

/// The maximal runs of consecutive lines with equal forms (`forms[i]`
/// belongs to `lines[i]`), each given by its first line and its length.
pub open spec fn runs_by(lines: Seq<Seq<char>>, forms: Seq<Seq<char>>) -> Seq<(Seq<char>, nat)>
    decreases lines.len(),
{
    if lines.len() == 0 {
        Seq::empty()
    } else {
        let r = runs_by(lines.drop_last(), forms.drop_last());
        let n = lines.len() as int;
        if r.len() > 0 && n >= 2 && forms[n - 1] == forms[n - 2] {
            r.update(r.len() - 1, (r.last().0, r.last().1 + 1))
        } else {
            r.push((lines.last(), 1nat))
        }
    }
}

/// The normal form of each line.
pub open spec fn forms_of(lines: Seq<Seq<char>>) -> Seq<Seq<char>> {
    lines.map_values(|l: Seq<char>| normal_form(l))
}

/// The line that reports a run of `n` lines.
pub open spec fn repeat_marker(n: nat) -> Seq<char> {
    "  [repeated "@ + decimal(n) + " times]\n"@
}

/// A run as it is shown: its first line, and a repeat marker where it holds
/// more than one line.
pub open spec fn show_run(run: (Seq<char>, nat)) -> Seq<Seq<char>> {
    if run.1 > 1 {
        seq![run.0, repeat_marker(run.1)]
    } else {
        seq![run.0]
    }
}

/// The runs shown one after the other.
pub open spec fn show_runs(rs: Seq<(Seq<char>, nat)>) -> Seq<Seq<char>>
    decreases rs.len(),
{
    if rs.len() == 0 {
        Seq::empty()
    } else {
        show_runs(rs.drop_last()) + show_run(rs.last())
    }
}

/// What `dedup` returns: the runs of lines with the same normal form.
pub open spec fn dedup_lines(lines: Seq<Seq<char>>) -> Seq<Seq<char>> {
    show_runs(runs_by(lines, forms_of(lines)))
}

fn normalize(digits: &Option<Pattern>, line: &String) -> (r: Vec<char>)
    requires
        digits matches Some(p) && p.source() == "\\d+"@,
    ensures
        r@ == normal_form(line@),
{
    let trimmed = trim_str(line.as_str());
    match digits {
        Some(p) => {
            let t = from_chars(trimmed.as_slice());
            let replaced = replace_all(p, t.as_str(), "N");
            to_chars(replaced.as_str())
        },
        None => trimmed,
    }
}

fn repeat_line(n: usize) -> (r: String)
    ensures
        r@ == repeat_marker(n as nat),
{
    let mut m: Vec<char> = Vec::new();
    push_str(&mut m, "  [repeated ");
    push_decimal(&mut m, n);
    push_str(&mut m, " times]\n");
    from_chars(m.as_slice())
}

fn push_run(result: &mut Vec<String>, first: String, count: usize)
    requires
        count >= 1,
    ensures
        views(final(result)@) == views(old(result)@) + show_run((first@, count as nat)),
{
    let ghost before = views(result@);
    let ghost f = first@;
    result.push(first);
    if count > 1 {
        let m = repeat_line(count);
        result.push(m);
        assert(views(result@) == before + seq![f, repeat_marker(count as nat)]);
    } else {
        assert(views(result@) == before + seq![f]);
    }
}

/// Shows each run of consecutive lines with equal forms as its first line,
/// followed by `  [repeated N times]` where it holds `N > 1` lines;
/// `forms[i]` belongs to `lines[i]`.
pub fn collapse_runs(lines: Vec<String>, forms: &Vec<Vec<char>>) -> (r: Vec<String>)
    requires
        forms@.len() == lines@.len(),
    ensures
        views(r@) == show_runs(runs_by(views(lines@), char_views(forms@))),
{
    let ghost ls = views(lines@);
    let ghost fs = char_views(forms@);
    if lines.len() == 0 {
        return lines;
    }
    let mut result: Vec<String> = Vec::new();
    let mut prev_line = String::new();
    let mut count: usize = 0;
    let mut i: usize = 0;
    while i < lines.len()
        invariant
            i <= lines.len(),
            forms@.len() == lines@.len(),
            ls == views(lines@),
            fs == char_views(forms@),
            count <= i,
            (i == 0) == (count == 0),
            i == 0 ==> result@.len() == 0,
            i > 0 ==> runs_by(ls.take(i as int), fs.take(i as int)).len() > 0 && runs_by(
                ls.take(i as int),
                fs.take(i as int),
            ).last() == (prev_line@, count as nat) && views(result@) == show_runs(
                runs_by(ls.take(i as int), fs.take(i as int)).drop_last(),
            ),
        decreases lines.len() - i,
    {
        let line = &lines[i];
        assert(ls.take(i + 1).drop_last() == ls.take(i as int));
        assert(fs.take(i + 1).drop_last() == fs.take(i as int));
        assert(ls.take(i + 1).last() == line@);
        let ghost rs = runs_by(ls.take(i as int), fs.take(i as int));
        if i > 0 && chars_equal(&forms[i], &forms[i - 1]) {
            assert(fs.take(i + 1)[i as int] == fs[i as int]);
            assert(fs.take(i + 1)[i - 1] == fs[i - 1]);
            assert(runs_by(ls.take(i + 1), fs.take(i + 1)) == rs.update(
                rs.len() - 1,
                (rs.last().0, rs.last().1 + 1),
            ));
            count += 1;
            assert(runs_by(ls.take(i + 1), fs.take(i + 1)).drop_last() == rs.drop_last());
        } else {
            if i > 0 {
                assert(fs.take(i + 1)[i as int] == fs[i as int]);
                assert(fs.take(i + 1)[i - 1] == fs[i - 1]);
                let ghost r0 = views(result@);
                push_run(&mut result, prev_line, count);
                assert(rs.drop_last().push(rs.last()) == rs);
                assert(views(result@) == r0 + show_run(rs.last()));
                assert(views(result@) == show_runs(rs));
            } else {
                assert(rs.len() == 0);
                assert(views(result@) == Seq::<Seq<char>>::empty());
            }
            prev_line = line.clone();
            count = 1;
            assert(runs_by(ls.take(i + 1), fs.take(i + 1)) == rs.push((line@, 1nat)));
            assert(runs_by(ls.take(i + 1), fs.take(i + 1)).drop_last() == rs);
        }
        i += 1;
    }
    assert(ls.take(lines.len() as int) == ls);
    assert(fs.take(lines.len() as int) == fs);
    push_run(&mut result, prev_line, count);
    proof {
        let rs = runs_by(ls, fs);
        assert(rs.drop_last().push(rs.last()) == rs);
    }
    result
}

/// Collapses consecutive identical or near-identical lines (lines that differ
/// only in numbers): a run of more than one such line is shown as its first
/// line followed by `  [repeated N times]`.
pub fn dedup(lines: Vec<String>) -> (r: Vec<String>)
    ensures
        views(r@) == dedup_lines(views(lines@)),
{
    let ghost ls = views(lines@);
    let digits = compile("\\d+");
    let mut forms: Vec<Vec<char>> = Vec::new();
    let mut i: usize = 0;
    while i < lines.len()
        invariant
            i <= lines.len(),
            ls == views(lines@),
            digits matches Some(p) && p.source() == "\\d+"@,
            char_views(forms@) == forms_of(ls).take(i as int),
        decreases lines.len() - i,
    {
        let f = normalize(&digits, &lines[i]);
        let ghost before = char_views(forms@);
        forms.push(f);
        assert(char_views(forms@) == before.push(normal_form(ls[i as int])));
        assert(forms_of(ls).take(i + 1) == forms_of(ls).take(i as int).push(normal_form(ls[i as int])));
        i += 1;
    }
    assert(forms_of(ls).take(lines.len() as int) == forms_of(ls));
    collapse_runs(lines, &forms)
}

/// The total number of lines in a list of runs.
pub open spec fn run_total(rs: Seq<(Seq<char>, nat)>) -> nat
    decreases rs.len(),
{
    if rs.len() == 0 {
        0
    } else {
        run_total(rs.drop_last()) + rs.last().1
    }
}

/// Where run `j` begins among the lines.
pub open spec fn run_start(rs: Seq<(Seq<char>, nat)>, j: int) -> int {
    run_total(rs.take(j)) as int
}

/// Line `t` of run `j`.
pub open spec fn run_line(lines: Seq<Seq<char>>, rs: Seq<(Seq<char>, nat)>, j: int, t: int) -> Seq<char> {
    lines[run_start(rs, j) + t]
}

/// The form of line `t` of run `j`.
spec fn form_at(forms: Seq<Seq<char>>, rs: Seq<(Seq<char>, nat)>, j: int, t: int) -> Seq<char> {
    forms[run_start(rs, j) + t]
}

spec fn runs_shape(lines: Seq<Seq<char>>, forms: Seq<Seq<char>>, rs: Seq<(Seq<char>, nat)>) -> bool {
    &&& run_total(rs) == lines.len()
    &&& forall|j: int| 0 <= j < rs.len() ==> (#[trigger] rs[j]).1 >= 1
    &&& forall|j: int| 0 <= j < rs.len() ==> (#[trigger] rs[j]).0 == lines[run_start(rs, j)]
    &&& forall|j: int, t: int|
        0 <= j < rs.len() && 0 <= t < rs[j].1 ==> #[trigger] form_at(forms, rs, j, t) == forms[run_start(
            rs,
            j,
        )]
    &&& forall|j: int| 0 < j < rs.len() ==> forms[#[trigger] run_start(rs, j)] != forms[run_start(rs, j) - 1]
}

#[verifier::rlimit(50)]
#[verifier::spinoff_prover]
proof fn lemma_shape_extend(lines: Seq<Seq<char>>, forms: Seq<Seq<char>>, r: Seq<(Seq<char>, nat)>)
    requires
        lines.len() >= 2,
        forms.len() == lines.len(),
        runs_shape(lines.drop_last(), forms.drop_last(), r),
        r.len() > 0,
        forms[lines.len() - 1] == forms[lines.len() - 2],
    ensures
        runs_shape(lines, forms, r.update(r.len() - 1, (r.last().0, r.last().1 + 1))),
{
    let dl = lines.drop_last();
    let df = forms.drop_last();
    let n = lines.len() as int;
    let last = r.len() - 1;
    let rs = r.update(last, (r.last().0, r.last().1 + 1));
    assert(rs.drop_last() == r.drop_last());
    assert(r.take(last) == r.drop_last());
    assert forall|j: int| 0 <= j <= last implies #[trigger] run_start(rs, j) == run_start(r, j) by {
        assert(rs.take(j) == r.take(j));
    }
    assert forall|j: int| 0 <= j < rs.len() implies (#[trigger] rs[j]).1 >= 1 by {
        assert(r[j].1 >= 1);
    }
    assert forall|j: int| 0 <= j < rs.len() implies (#[trigger] rs[j]).0 == lines[run_start(rs, j)] by {
        lemma_run_bounds(r, j);
        assert(r[j].0 == dl[run_start(r, j)]);
    }
    assert forall|j: int, t: int|
        0 <= j < rs.len() && 0 <= t < rs[j].1 implies #[trigger] form_at(forms, rs, j, t) == forms[run_start(
        rs,
        j,
    )] by {
        lemma_run_bounds(r, j);
        if j < last || t < r[j].1 {
            assert(form_at(df, r, j, t) == df[run_start(r, j)]);
        } else {
            assert(form_at(df, r, j, t - 1) == df[run_start(r, j)]);
        }
    }
    assert forall|j: int| 0 < j < rs.len() implies forms[#[trigger] run_start(rs, j)] != forms[run_start(
        rs,
        j,
    ) - 1] by {
        lemma_run_bounds(r, j);
        assert(df[run_start(r, j)] != df[run_start(r, j) - 1]);
    }
}

#[verifier::rlimit(50)]
#[verifier::spinoff_prover]
proof fn lemma_shape_push(lines: Seq<Seq<char>>, forms: Seq<Seq<char>>, r: Seq<(Seq<char>, nat)>)
    requires
        lines.len() >= 1,
        forms.len() == lines.len(),
        runs_shape(lines.drop_last(), forms.drop_last(), r),
        r.len() > 0 ==> forms[lines.len() - 1] != forms[lines.len() - 2],
    ensures
        runs_shape(lines, forms, r.push((lines.last(), 1nat))),
{
    let dl = lines.drop_last();
    let df = forms.drop_last();
    let rs = r.push((lines.last(), 1nat));
    assert(rs.drop_last() == r);
    assert forall|j: int| 0 <= j <= r.len() implies #[trigger] run_start(rs, j) == run_start(r, j) by {
        assert(rs.take(j) == r.take(j));
    }
    assert(r.take(r.len() as int) == r);
    assert forall|j: int| 0 <= j < rs.len() implies (#[trigger] rs[j]).1 >= 1 by {
        if j < r.len() {
            assert(r[j].1 >= 1);
        }
    }
    assert forall|j: int| 0 <= j < rs.len() implies (#[trigger] rs[j]).0 == lines[run_start(rs, j)] by {
        if j < r.len() {
            lemma_run_bounds(r, j);
            assert(r[j].0 == dl[run_start(r, j)]);
        }
    }
    assert forall|j: int, t: int|
        0 <= j < rs.len() && 0 <= t < rs[j].1 implies #[trigger] form_at(forms, rs, j, t) == forms[run_start(
        rs,
        j,
    )] by {
        if j < r.len() {
            lemma_run_bounds(r, j);
            assert(form_at(df, r, j, t) == df[run_start(r, j)]);
        }
    }
    assert forall|j: int| 0 < j < rs.len() implies forms[#[trigger] run_start(rs, j)] != forms[run_start(
        rs,
        j,
    ) - 1] by {
        if j < r.len() {
            lemma_run_bounds(r, j);
            assert(df[run_start(r, j)] != df[run_start(r, j) - 1]);
        } else {
            lemma_run_bounds(r, 0);
        }
    }
}

proof fn lemma_runs_shape(lines: Seq<Seq<char>>, forms: Seq<Seq<char>>)
    requires
        forms.len() == lines.len(),
    ensures
        runs_shape(lines, forms, runs_by(lines, forms)),
    decreases lines.len(),
{
    if lines.len() > 0 {
        lemma_runs_shape(lines.drop_last(), forms.drop_last());
        let r = runs_by(lines.drop_last(), forms.drop_last());
        let n = lines.len() as int;
        if r.len() > 0 && n >= 2 && forms[n - 1] == forms[n - 2] {
            lemma_shape_extend(lines, forms, r);
        } else {
            if r.len() > 0 {
                lemma_run_bounds(r, 0);
            }
            lemma_shape_push(lines, forms, r);
        }
    }
}

proof fn lemma_run_bounds(rs: Seq<(Seq<char>, nat)>, j: int)
    requires
        0 <= j < rs.len(),
    ensures
        0 <= run_start(rs, j),
        run_start(rs, j) + rs[j].1 <= run_total(rs),
    decreases rs.len(),
{
    let d = rs.drop_last();
    if j == rs.len() - 1 {
        assert(rs.take(j) == d);
    } else {
        assert(d.take(j) == rs.take(j));
        assert(d[j] == rs[j]);
        lemma_run_bounds(d, j);
    }
}

proof fn lemma_show_runs_concat(rs: Seq<(Seq<char>, nat)>)
    ensures
        show_runs(rs) == crate::text::concat(rs.map_values(|r: (Seq<char>, nat)| show_run(r))),
    decreases rs.len(),
{
    if rs.len() > 0 {
        lemma_show_runs_concat(rs.drop_last());
        let f = |r: (Seq<char>, nat)| show_run(r);
        assert(rs.map_values(f).drop_last() == rs.drop_last().map_values(f));
    }
}

/// Deduplication goes by maximal runs: the lines fall, in order, into runs of
/// consecutive lines with the same normal form, each at least one line long,
/// where neighbouring runs differ in form at their border; each run is shown
/// as its first line, followed by `  [repeated N times]` where it holds
/// `N > 1` lines.
pub proof fn law_dedup_runs(lines: Seq<Seq<char>>)
    ensures
        ({
            let rs = runs_by(lines, forms_of(lines));
            &&& run_total(rs) == lines.len()
            &&& forall|j: int| 0 <= j < rs.len() ==> (#[trigger] rs[j]).1 >= 1
            &&& forall|j: int| 0 <= j < rs.len() ==> (#[trigger] rs[j]).0 == lines[run_start(rs, j)]
            &&& forall|j: int, t: int|
                0 <= j < rs.len() && 0 <= t < rs[j].1 ==> normal_form(
                    #[trigger] run_line(lines, rs, j, t),
                ) == normal_form(rs[j].0)
            &&& forall|j: int|
                0 < j < rs.len() ==> normal_form(lines[#[trigger] run_start(rs, j)]) != normal_form(
                    lines[run_start(rs, j) - 1],
                )
            &&& dedup_lines(lines) == crate::text::concat(
                rs.map_values(|r: (Seq<char>, nat)| show_run(r)),
            )
        }),
{
    let fs = forms_of(lines);
    let rs = runs_by(lines, fs);
    lemma_runs_shape(lines, fs);
    assert forall|j: int, t: int|
        0 <= j < rs.len() && 0 <= t < rs[j].1 implies normal_form(#[trigger] run_line(lines, rs, j, t))
        == normal_form(rs[j].0) by {
        lemma_run_bounds(rs, j);
        assert(form_at(fs, rs, j, t) == fs[run_start(rs, j)]);
    }
    assert forall|j: int|
        0 < j < rs.len() implies normal_form(lines[#[trigger] run_start(rs, j)]) != normal_form(
        lines[run_start(rs, j) - 1],
    ) by {
        lemma_run_bounds(rs, j);
        assert(fs[run_start(rs, j)] != fs[run_start(rs, j) - 1]);
    }
    lemma_show_runs_concat(rs);
}

proof fn lemma_runs_total(lines: Seq<Seq<char>>, forms: Seq<Seq<char>>)
    ensures
        run_total(runs_by(lines, forms)) == lines.len(),
        forall|i: int|
            0 <= i < runs_by(lines, forms).len() ==> (#[trigger] runs_by(lines, forms)[i]).1 >= 1,
    decreases lines.len(),
{
    if lines.len() > 0 {
        lemma_runs_total(lines.drop_last(), forms.drop_last());
        let r = runs_by(lines.drop_last(), forms.drop_last());
        let n = lines.len() as int;
        if r.len() > 0 && n >= 2 && forms[n - 1] == forms[n - 2] {
            let u = r.update(r.len() - 1, (r.last().0, r.last().1 + 1));
            assert(u.drop_last() == r.drop_last());
        } else {
            assert(r.push((lines.last(), 1nat)).drop_last() == r);
        }
    }
}

proof fn lemma_show_runs_len(rs: Seq<(Seq<char>, nat)>)
    requires
        forall|i: int| 0 <= i < rs.len() ==> (#[trigger] rs[i]).1 >= 1,
    ensures
        show_runs(rs).len() <= run_total(rs),
    decreases rs.len(),
{
    if rs.len() > 0 {
        assert forall|i: int| 0 <= i < rs.drop_last().len() implies (#[trigger] rs.drop_last()[i]).1
            >= 1 by {
            assert(rs.drop_last()[i] == rs[i]);
        }
        lemma_show_runs_len(rs.drop_last());
    }
}

/// Deduplication never lengthens the output.
pub proof fn law_dedup_never_grows(lines: Seq<Seq<char>>)
    ensures
        dedup_lines(lines).len() <= lines.len(),
{
    lemma_runs_total(lines, forms_of(lines));
    lemma_show_runs_len(runs_by(lines, forms_of(lines)));
}

/// No two consecutive lines alike.
pub open spec fn no_adjacent_alike(lines: Seq<Seq<char>>) -> bool {
    forall|i: int| 0 <= i < lines.len() - 1 ==> normal_form(#[trigger] lines[i]) != normal_form(lines[i + 1])
}

proof fn lemma_runs_singletons(lines: Seq<Seq<char>>, forms: Seq<Seq<char>>)
    requires
        forms.len() == lines.len(),
        forall|i: int| 0 <= i < lines.len() - 1 ==> #[trigger] forms[i] != forms[i + 1],
    ensures
        runs_by(lines, forms) == lines.map_values(|l: Seq<char>| (l, 1nat)),
    decreases lines.len(),
{
    if lines.len() > 0 {
        let p = lines.drop_last();
        let f = forms.drop_last();
        assert forall|i: int| 0 <= i < p.len() - 1 implies #[trigger] f[i] != f[i + 1] by {
            assert(f[i] == forms[i] && f[i + 1] == forms[i + 1]);
        }
        lemma_runs_singletons(p, f);
        assert(p.map_values(|l: Seq<char>| (l, 1nat)).push((lines.last(), 1nat)) == lines.map_values(
            |l: Seq<char>| (l, 1nat),
        ));
    }
}

proof fn lemma_show_singletons(lines: Seq<Seq<char>>)
    ensures
        show_runs(lines.map_values(|l: Seq<char>| (l, 1nat))) == lines,
    decreases lines.len(),
{
    if lines.len() > 0 {
        lemma_show_singletons(lines.drop_last());
        assert(lines.map_values(|l: Seq<char>| (l, 1nat)).drop_last() == lines.drop_last().map_values(
            |l: Seq<char>| (l, 1nat),
        ));
        assert(lines.drop_last().push(lines.last()) == lines);
    }
}

/// Lines of which no two consecutive ones are identical or differ only in
/// numbers come back unchanged; in particular identical lines that are not
/// consecutive are not collapsed.
pub proof fn law_dedup_keeps_distinct_neighbours(lines: Seq<Seq<char>>)
    requires
        no_adjacent_alike(lines),
    ensures
        dedup_lines(lines) == lines,
{
    let fs = forms_of(lines);
    assert forall|i: int| 0 <= i < lines.len() - 1 implies #[trigger] fs[i] != fs[i + 1] by {
        assert(normal_form(lines[i]) != normal_form(lines[i + 1]));
    }
    lemma_runs_singletons(lines, fs);
    lemma_show_singletons(lines);
}

proof fn lemma_runs_all_alike(lines: Seq<Seq<char>>, forms: Seq<Seq<char>>)
    requires
        lines.len() > 0,
        forms.len() == lines.len(),
        forall|i: int| 0 <= i < forms.len() ==> #[trigger] forms[i] == forms[0],
    ensures
        runs_by(lines, forms) == seq![(lines[0], lines.len())],
    decreases lines.len(),
{
    if lines.len() > 1 {
        let p = lines.drop_last();
        let f = forms.drop_last();
        assert forall|i: int| 0 <= i < f.len() implies #[trigger] f[i] == f[0] by {
            assert(f[i] == forms[i]);
        }
        lemma_runs_all_alike(p, f);
        let r = runs_by(p, f);
        assert(r.last() == (lines[0], p.len()));
        assert(forms[lines.len() - 1] == forms[lines.len() - 2]);
        assert(r.update(0, (lines[0], p.len() + 1)) =~= seq![(lines[0], lines.len())]);
    } else {
        assert(runs_by(lines.drop_last(), forms.drop_last()) == Seq::<(Seq<char>, nat)>::empty());
        assert(Seq::<(Seq<char>, nat)>::empty().push((lines.last(), 1nat)) =~= seq![
            (lines[0], lines.len()),
        ]);
    }
}

/// A block of two or more consecutive lines that differ only in numbers
/// collapses to its first line and one `[repeated N times]` marker.
pub proof fn law_dedup_collapses_run(lines: Seq<Seq<char>>)
    requires
        lines.len() >= 2,
        forall|i: int| 0 <= i < lines.len() ==> normal_form(#[trigger] lines[i]) == normal_form(lines[0]),
    ensures
        dedup_lines(lines) == seq![lines[0], repeat_marker(lines.len())],
{
    let fs = forms_of(lines);
    assert forall|i: int| 0 <= i < fs.len() implies #[trigger] fs[i] == fs[0] by {
        assert(normal_form(lines[i]) == normal_form(lines[0]));
    }
    lemma_runs_all_alike(lines, fs);
    let rs = runs_by(lines, fs);
    assert(rs.drop_last() =~= Seq::<(Seq<char>, nat)>::empty());
    assert(show_runs(rs.drop_last()) == Seq::<Seq<char>>::empty());
    assert(show_run(rs.last()) == seq![lines[0], repeat_marker(lines.len())]);
    assert(Seq::<Seq<char>>::empty() + seq![lines[0], repeat_marker(lines.len())] =~= seq![
        lines[0],
        repeat_marker(lines.len()),
    ]);
}

} // verus!
