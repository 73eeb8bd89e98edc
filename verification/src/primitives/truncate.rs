//! Head-and-tail truncation, whole or per section.
use vstd::prelude::*;
use crate::pattern::{compile, is_match, regex_compiles, regex_is_match};
use crate::text::{decimal, extend_range, from_chars, push_decimal, push_str, views};

verus! {

/// The line that stands for `n` lines left out of the middle.
pub open spec fn omission_marker(n: nat) -> Seq<char> {
    "\n[... "@ + decimal(n) + " lines omitted ...]\n"@
}

/// The line that stands for `n` lines left out of a section.
pub open spec fn section_marker(n: nat) -> Seq<char> {
    "  [... "@ + decimal(n) + " lines omitted in section ...]\n"@
}

/// The first `head` and last `tail` lines around one omission marker, or
/// all lines where there are no more than `head + tail`.
pub open spec fn head_tail(lines: Seq<Seq<char>>, head: nat, tail: nat) -> Seq<Seq<char>> {
    if lines.len() <= head + tail {
        lines
    } else {
        lines.take(head as int) + seq![omission_marker((lines.len() - head - tail) as nat)]
            + lines.skip(lines.len() - tail)
    }
}

/// Left-to-right scan that cuts `lines` into sections: a line flagged in
/// `starts` (`starts[i]` belongs to `lines[i]`) opens a new section unless
/// the current one is empty.
pub open spec fn scan_sections(lines: Seq<Seq<char>>, starts: Seq<bool>) -> (
    Seq<Seq<Seq<char>>>,
    Seq<Seq<char>>,
)
    decreases lines.len(),
{
    if lines.len() == 0 {
        (Seq::empty(), Seq::empty())
    } else {
        let (done, cur) = scan_sections(lines.drop_last(), starts.drop_last());
        let l = lines.last();
        if starts.last() && cur.len() > 0 {
            (done.push(cur), seq![l])
        } else {
            (done, cur.push(l))
        }
    }
}

/// The sections of `lines`, each opened by a flagged line (but the first).
pub open spec fn sections(lines: Seq<Seq<char>>, starts: Seq<bool>) -> Seq<Seq<Seq<char>>> {
    let (done, cur) = scan_sections(lines, starts);
    if cur.len() > 0 {
        done.push(cur)
    } else {
        done
    }
}

/// Which lines the regex of `marker` matches.
pub open spec fn marker_flags(lines: Seq<Seq<char>>, marker: Seq<char>) -> Seq<bool> {
    lines.map_values(|l: Seq<char>| regex_is_match(marker, l))
}

/// A section cut to its first `ceil(max / 2)` and last `floor(max / 2)` lines
/// around a marker, where it is longer than `max`.
pub open spec fn shorten_section(sec: Seq<Seq<char>>, max: nat) -> Seq<Seq<char>> {
    if sec.len() > max {
        let top = (max + 1) / 2;
        let bottom = max - top;
        sec.take(top as int) + seq![section_marker((sec.len() - max) as nat)] + sec.skip(
            sec.len() - bottom,
        )
    } else {
        sec
    }
}

/// The shortened sections of a sequence of sections, concatenated.
pub open spec fn shorten_all(secs: Seq<Seq<Seq<char>>>, max: nat) -> Seq<Seq<char>>
    decreases secs.len(),
{
    if secs.len() == 0 {
        Seq::empty()
    } else {
        shorten_all(secs.drop_last(), max) + shorten_section(secs.last(), max)
    }
}

/// Per-section truncation: unchanged where `marker` does not compile.
pub open spec fn per_section(lines: Seq<Seq<char>>, max: nat, marker: Seq<char>) -> Seq<
    Seq<char>,
> {
    if regex_compiles(marker) {
        shorten_all(sections(lines, marker_flags(lines, marker)), max)
    } else {
        lines
    }
}

/// What `truncate` returns.
pub open spec fn truncate_lines(
    lines: Seq<Seq<char>>,
    head: nat,
    tail: nat,
    per_file_lines: nat,
    file_marker: Seq<char>,
) -> Seq<Seq<char>> {
    if per_file_lines > 0 && file_marker.len() > 0 {
        per_section(lines, per_file_lines, file_marker)
    } else {
        head_tail(lines, head, tail)
    }
}

fn omission_line(n: usize) -> (r: String)
    ensures
        r@ == omission_marker(n as nat),
{
    let mut m: Vec<char> = Vec::new();
    push_str(&mut m, "\n[... ");
    push_decimal(&mut m, n);
    push_str(&mut m, " lines omitted ...]\n");
    from_chars(m.as_slice())
}

fn section_line(n: usize) -> (r: String)
    ensures
        r@ == section_marker(n as nat),
{
    let mut m: Vec<char> = Vec::new();
    push_str(&mut m, "  [... ");
    push_decimal(&mut m, n);
    push_str(&mut m, " lines omitted in section ...]\n");
    from_chars(m.as_slice())
}

/// Keeps the first `head` and last `tail` lines and replaces the middle with
/// an omission marker. Where `per_file_lines > 0` and `file_marker` is not
/// empty, each section that starts at a line matching `file_marker` is cut to
/// `per_file_lines` lines instead.
pub fn truncate(
    lines: Vec<String>,
    head: usize,
    tail: usize,
    per_file_lines: usize,
    file_marker: &str,
) -> (r: Vec<String>)
    ensures
        views(r@) == truncate_lines(
            views(lines@),
            head as nat,
            tail as nat,
            per_file_lines as nat,
            file_marker@,
        ),
{
    if per_file_lines > 0 && !file_marker.is_empty() {
        return truncate_per_section(lines, per_file_lines, file_marker);
    }
    let total = lines.len();
    if total <= head || total - head <= tail {
        return lines;
    }
    let omitted = total - head - tail;
    let mut result: Vec<String> = Vec::new();
    extend_range(&mut result, &lines, 0, head);
    result.push(omission_line(omitted));
    extend_range(&mut result, &lines, total - tail, total);
    assert(views(lines@).take(head as int) == views(lines@).subrange(0, head as int));
    assert(views(lines@).skip(total - tail) == views(lines@).subrange(
        total - tail,
        total as int,
    ));
    result
}

fn truncate_per_section(lines: Vec<String>, max_lines: usize, marker_pattern: &str) -> (r: Vec<
    String,
>)
    ensures
        views(r@) == per_section(views(lines@), max_lines as nat, marker_pattern@),
{
    let marker = match compile(marker_pattern) {
        Some(p) => p,
        None => {
            return lines;
        },
    };
    let ghost ls = views(lines@);
    let ghost pat = marker_pattern@;
    let mut starts: Vec<bool> = Vec::new();
    let mut i: usize = 0;
    while i < lines.len()
        invariant
            i <= lines.len(),
            ls == views(lines@),
            marker.source() == pat,
            starts@ == marker_flags(ls, pat).take(i as int),
        decreases lines.len() - i,
    {
        let hit = is_match(&marker, lines[i].as_str());
        starts.push(hit);
        assert(marker_flags(ls, pat).take(i + 1) == marker_flags(ls, pat).take(i as int).push(hit));
        i += 1;
    }
    assert(marker_flags(ls, pat).take(lines.len() as int) == marker_flags(ls, pat));
    shorten_sections(lines, &starts, max_lines)
}

/// Cuts `lines` into sections, each opened by a line flagged in `starts`
/// (`starts[i]` belongs to `lines[i]`), and shortens every section longer
/// than `max_lines` to its first `ceil(max_lines / 2)` and last
/// `floor(max_lines / 2)` lines around a marker.
pub fn shorten_sections(lines: Vec<String>, starts: &Vec<bool>, max_lines: usize) -> (r: Vec<String>)
    requires
        starts@.len() == lines@.len(),
    ensures
        views(r@) == shorten_all(sections(views(lines@), starts@), max_lines as nat),
{
    let ghost ls = views(lines@);
    let ghost fs = starts@;
    let mut done: Vec<Vec<String>> = Vec::new();
    let mut cur: Vec<String> = Vec::new();
    let mut i: usize = 0;
    assert(done@.map_values(|s: Vec<String>| views(s@)) == Seq::<Seq<Seq<char>>>::empty());
    while i < lines.len()
        invariant
            i <= lines.len(),
            starts@.len() == lines@.len(),
            ls == views(lines@),
            fs == starts@,
            (done@.map_values(|s: Vec<String>| views(s@)), views(cur@)) == scan_sections(
                ls.take(i as int),
                fs.take(i as int),
            ),
        decreases lines.len() - i,
    {
        let line = lines[i].clone();
        assert(ls.take(i + 1).drop_last() == ls.take(i as int));
        assert(fs.take(i + 1).drop_last() == fs.take(i as int));
        assert(ls.take(i + 1).last() == line@);
        assert(fs.take(i + 1).last() == starts@[i as int]);
        let ghost before = done@.map_values(|s: Vec<String>| views(s@));
        let ghost cur_before = views(cur@);
        if starts[i] && cur.len() > 0 {
            done.push(cur);
            cur = Vec::new();
            cur.push(line);
            assert(done@.map_values(|s: Vec<String>| views(s@)) == before.push(cur_before));
            assert(views(cur@) == seq![line@]);
        } else {
            cur.push(line);
            assert(done@.map_values(|s: Vec<String>| views(s@)) == before);
            assert(views(cur@) == cur_before.push(line@));
        }
        i += 1;
    }
    assert(ls.take(lines.len() as int) == ls);
    assert(fs.take(lines.len() as int) == fs);
    if cur.len() > 0 {
        let ghost before = done@.map_values(|s: Vec<String>| views(s@));
        done.push(cur);
        assert(done@.map_values(|s: Vec<String>| views(s@)) == before.push(views(cur@)));
    }
    let ghost secs = done@.map_values(|s: Vec<String>| views(s@));
    assert(secs == sections(ls, fs));
    let mut result: Vec<String> = Vec::new();
    let mut k: usize = 0;
    while k < done.len()
        invariant
            k <= done.len(),
            secs == done@.map_values(|s: Vec<String>| views(s@)),
            views(result@) == shorten_all(secs.take(k as int), max_lines as nat),
        decreases done.len() - k,
    {
        let section = &done[k];
        let n = section.len();
        assert(secs[k as int] == views(section@));
        assert(secs.take(k + 1).drop_last() == secs.take(k as int));
        let ghost before = views(result@);
        if n > max_lines {
            let top = max_lines / 2 + max_lines % 2;
            let bottom = max_lines - top;
            assert(top == (max_lines + 1) / 2);
            let ghost sv = views(section@);
            extend_range(&mut result, section, 0, top);
            let ghost r1 = views(result@);
            let marker_line = section_line(n - max_lines);
            result.push(marker_line);
            assert(views(result@) == r1.push(section_marker((n - max_lines) as nat)));
            let ghost r2 = views(result@);
            extend_range(&mut result, section, n - bottom, n);
            assert(views(result@) == r2 + sv.subrange(n - bottom, n as int));
            assert(sv.take(top as int) == sv.subrange(0, top as int));
            assert(sv.skip(n - bottom) == sv.subrange(n - bottom, n as int));
            assert(views(result@) == before + (sv.take(top as int) + seq![
                section_marker((n - max_lines) as nat),
            ] + sv.skip(n - bottom)));
            assert(views(result@) == before + shorten_section(sv, max_lines as nat));
        } else {
            extend_range(&mut result, section, 0, n);
            assert(views(section@).subrange(0, n as int) == views(section@));
        }
        k += 1;
    }
    assert(secs.take(done.len() as int) == secs);
    result
}

/// Head-and-tail truncation leaves input of at most `head + tail` lines as it
/// is; longer input becomes exactly `head + 1 + tail` lines: its first `head`
/// lines, one omission marker counting the rest, and its last `tail` lines.
pub proof fn law_head_tail_shape(lines: Seq<Seq<char>>, head: nat, tail: nat)
    ensures
        lines.len() <= head + tail ==> head_tail(lines, head, tail) == lines,
        lines.len() > head + tail ==> {
            let r = head_tail(lines, head, tail);
            &&& r.len() == head + 1 + tail
            &&& forall|i: int| 0 <= i < head ==> r[i] == lines[i]
            &&& r[head as int] == omission_marker((lines.len() - head - tail) as nat)
            &&& forall|i: int|
                lines.len() - tail <= i < lines.len() ==> r[i - (lines.len() - tail) + head + 1]
                    == #[trigger] lines[i]
        },
{
}

proof fn lemma_shorten_all_len(secs: Seq<Seq<Seq<char>>>, max: nat)
    ensures
        shorten_all(secs, max).len() <= crate::text::concat(secs).len(),
    decreases secs.len(),
{
    if secs.len() > 0 {
        lemma_shorten_all_len(secs.drop_last(), max);
    }
}

/// Truncation never lengthens its input, and gives nothing for no lines.
pub proof fn law_truncate_never_grows(
    lines: Seq<Seq<char>>,
    head: nat,
    tail: nat,
    per_file_lines: nat,
    file_marker: Seq<char>,
)
    ensures
        truncate_lines(lines, head, tail, per_file_lines, file_marker).len() <= lines.len(),
        lines.len() == 0 ==> truncate_lines(lines, head, tail, per_file_lines, file_marker).len()
            == 0,
{
    if per_file_lines > 0 && file_marker.len() > 0 && regex_compiles(file_marker) {
        let secs = sections(lines, marker_flags(lines, file_marker));
        law_sections_partition(lines, marker_flags(lines, file_marker));
        lemma_shorten_all_len(secs, per_file_lines);
    }
}

/// Where section `j` begins among the lines.
pub open spec fn section_start(secs: Seq<Seq<Seq<char>>>, j: int) -> int {
    crate::text::concat(secs.take(j)).len() as int
}

/// Whether line `t` of section `j` is flagged in `starts`.
pub open spec fn flagged_in(starts: Seq<bool>, secs: Seq<Seq<Seq<char>>>, j: int, t: int) -> bool {
    starts[section_start(secs, j) + t]
}

spec fn scan_shape(done: Seq<Seq<Seq<char>>>, cur: Seq<Seq<char>>, starts: Seq<bool>) -> bool {
    &&& crate::text::concat(done).len() + cur.len() <= starts.len()
    &&& forall|j: int| 0 <= j < done.len() ==> (#[trigger] done[j]).len() > 0
    &&& forall|j: int, t: int|
        0 <= j < done.len() && 0 < t < done[j].len() ==> !#[trigger] flagged_in(starts, done, j, t)
    &&& forall|j: int| 0 < j < done.len() ==> starts[#[trigger] section_start(done, j)]
    &&& forall|t: int| 0 < t < cur.len() ==> !#[trigger] starts[crate::text::concat(done).len() + t]
    &&& done.len() > 0 ==> cur.len() > 0 && starts[crate::text::concat(done).len() as int]
}

proof fn lemma_section_bounds(secs: Seq<Seq<Seq<char>>>, j: int)
    requires
        0 <= j < secs.len(),
    ensures
        section_start(secs, j) + secs[j].len() <= crate::text::concat(secs).len(),
    decreases secs.len(),
{
    let d = secs.drop_last();
    if j == secs.len() - 1 {
        assert(secs.take(j) == d);
    } else {
        assert(d.take(j) == secs.take(j));
        assert(d[j] == secs[j]);
        lemma_section_bounds(d, j);
    }
}

proof fn lemma_concat_push(done: Seq<Seq<Seq<char>>>, cur: Seq<Seq<char>>)
    ensures
        crate::text::concat(done.push(cur)) == crate::text::concat(done) + cur,
        forall|j: int| 0 <= j <= done.len() ==> #[trigger] section_start(done.push(cur), j) == section_start(done, j),
{
    assert(done.push(cur).drop_last() == done);
    assert forall|j: int| 0 <= j <= done.len() implies #[trigger] section_start(done.push(cur), j)
        == section_start(done, j) by {
        assert(done.push(cur).take(j) == done.take(j));
    }
    assert(done.take(done.len() as int) == done);
}

proof fn lemma_scan_shape(lines: Seq<Seq<char>>, starts: Seq<bool>)
    requires
        starts.len() == lines.len(),
    ensures
        scan_shape(scan_sections(lines, starts).0, scan_sections(lines, starts).1, starts),
        crate::text::concat(scan_sections(lines, starts).0).len() + scan_sections(lines, starts).1.len()
            == lines.len(),
    decreases lines.len(),
{
    if lines.len() > 0 {
        let d = starts.drop_last();
        lemma_scan_shape(lines.drop_last(), d);
        let (done, cur) = scan_sections(lines.drop_last(), d);
        let l = lines.last();
        let n = lines.len() - 1;
        let base = crate::text::concat(done).len() as int;
        assert(forall|i: int| 0 <= i < n ==> d[i] == starts[i]);
        if starts.last() && cur.len() > 0 {
            let nd = done.push(cur);
            lemma_concat_push(done, cur);
            assert(section_start(nd, done.len() as int) == base);
            assert forall|j: int| 0 <= j < nd.len() implies (#[trigger] nd[j]).len() > 0 by {
                if j < done.len() {
                    assert(nd[j] == done[j]);
                }
            }
            assert forall|j: int, t: int|
                0 <= j < nd.len() && 0 < t < nd[j].len() implies !#[trigger] flagged_in(starts, nd, j, t) by {
                if j < done.len() {
                    assert(nd[j] == done[j]);
                    lemma_section_bounds(done, j);
                    assert(!flagged_in(d, done, j, t));
                } else {
                    assert(!d[base + t]);
                }
            }
            assert forall|j: int| 0 < j < nd.len() implies starts[#[trigger] section_start(nd, j)] by {
                if j < done.len() {
                    lemma_section_bounds(done, j);
                    assert(d[section_start(done, j)]);
                } else {
                    assert(d[base]);
                }
            }
            assert(seq![l].len() == 1);
        } else {
            let nc = cur.push(l);
            assert forall|j: int, t: int|
                0 <= j < done.len() && 0 < t < done[j].len() implies !#[trigger] flagged_in(starts, done, j, t) by {
                lemma_section_bounds(done, j);
                assert(!flagged_in(d, done, j, t));
            }
            assert forall|j: int| 0 < j < done.len() implies starts[#[trigger] section_start(done, j)] by {
                lemma_section_bounds(done, j);
                assert(d[section_start(done, j)]);
            }
            assert forall|t: int| 0 < t < nc.len() implies !#[trigger] starts[base + t] by {
                if t < cur.len() {
                    assert(!d[base + t]);
                }
            }
            if done.len() > 0 {
                assert(d[base]);
            }
        }
    }
}

/// Per-section truncation cuts the lines into sections that, put back
/// together, are the lines: each section is non-empty, a section after the
/// first begins at a line flagged in `starts`, and no other line of a section
/// is flagged. The result is each section shortened in turn.
pub proof fn law_sections_shape(lines: Seq<Seq<char>>, starts: Seq<bool>, max: nat)
    requires
        starts.len() == lines.len(),
    ensures
        ({
            let secs = sections(lines, starts);
            &&& crate::text::concat(secs) == lines
            &&& forall|j: int| 0 <= j < secs.len() ==> (#[trigger] secs[j]).len() > 0
            &&& forall|j: int, t: int|
                0 <= j < secs.len() && 0 < t < secs[j].len() ==> !#[trigger] flagged_in(starts, secs, j, t)
            &&& forall|j: int| 0 < j < secs.len() ==> starts[#[trigger] section_start(secs, j)]
            &&& shorten_all(secs, max) == crate::text::concat(
                secs.map_values(|sec: Seq<Seq<char>>| shorten_section(sec, max)),
            )
        }),
{
    law_sections_partition(lines, starts);
    lemma_scan_shape(lines, starts);
    let (done, cur) = scan_sections(lines, starts);
    let secs = sections(lines, starts);
    if cur.len() > 0 {
        lemma_concat_push(done, cur);
        let base = crate::text::concat(done).len() as int;
        assert(section_start(secs, done.len() as int) == base);
        assert forall|j: int| 0 <= j < secs.len() implies (#[trigger] secs[j]).len() > 0 by {
            if j < done.len() {
                assert(secs[j] == done[j]);
            }
        }
        assert forall|j: int, t: int|
            0 <= j < secs.len() && 0 < t < secs[j].len() implies !#[trigger] flagged_in(starts, secs, j, t) by {
            if j < done.len() {
                assert(secs[j] == done[j]);
                assert(section_start(secs, j) == section_start(done, j));
                assert(!flagged_in(starts, done, j, t));
            } else {
                assert(!starts[base + t]);
            }
        }
        assert forall|j: int| 0 < j < secs.len() implies starts[#[trigger] section_start(secs, j)] by {
            if j < done.len() {
                assert(section_start(secs, j) == section_start(done, j));
            }
        }
    }
    lemma_shorten_all_concat(secs, max);
}

proof fn lemma_shorten_all_concat(secs: Seq<Seq<Seq<char>>>, max: nat)
    ensures
        shorten_all(secs, max) == crate::text::concat(
            secs.map_values(|sec: Seq<Seq<char>>| shorten_section(sec, max)),
        ),
    decreases secs.len(),
{
    if secs.len() > 0 {
        lemma_shorten_all_concat(secs.drop_last(), max);
        let f = |sec: Seq<Seq<char>>| shorten_section(sec, max);
        assert(secs.map_values(f).drop_last() == secs.drop_last().map_values(f));
    }
}

/// A section longer than `max` keeps its first `ceil(max / 2)` lines and its
/// last `floor(max / 2)` lines around one marker counting the lines left
/// out; a shorter one is kept whole.
pub proof fn law_section_shape(sec: Seq<Seq<char>>, max: nat)
    ensures
        sec.len() <= max ==> shorten_section(sec, max) == sec,
        sec.len() > max ==> {
            let r = shorten_section(sec, max);
            let top = ((max + 1) / 2) as int;
            &&& r.len() == max + 1
            &&& forall|i: int| 0 <= i < top ==> r[i] == sec[i]
            &&& r[top] == section_marker((sec.len() - max) as nat)
            &&& forall|i: int| 0 <= i < max - top ==> #[trigger] r[top + 1 + i] == sec[sec.len() - (max - top) + i]
        },
{
}

proof fn lemma_scan_sections_concat(lines: Seq<Seq<char>>, starts: Seq<bool>)
    ensures
        crate::text::concat(scan_sections(lines, starts).0) + scan_sections(lines, starts).1
            == lines,
    decreases lines.len(),
{
    if lines.len() > 0 {
        lemma_scan_sections_concat(lines.drop_last(), starts.drop_last());
        let (done, cur) = scan_sections(lines.drop_last(), starts.drop_last());
        let l = lines.last();
        assert(lines == lines.drop_last().push(l));
        if starts.last() && cur.len() > 0 {
            assert(done.push(cur).drop_last() == done);
            assert(crate::text::concat(done.push(cur)) == crate::text::concat(done) + cur);
            assert(crate::text::concat(done) + cur + seq![l] == (crate::text::concat(done) + cur).push(l));
        } else {
            assert(crate::text::concat(done) + cur.push(l) == (crate::text::concat(done) + cur).push(l));
        }
    } else {
        assert(crate::text::concat(Seq::<Seq<Seq<char>>>::empty()) + Seq::<Seq<char>>::empty() =~= lines);
    }
}

/// Cutting into sections loses and adds nothing: the sections, put back
/// together, are the input.
pub proof fn law_sections_partition(lines: Seq<Seq<char>>, starts: Seq<bool>)
    ensures
        crate::text::concat(sections(lines, starts)) == lines,
{
    lemma_scan_sections_concat(lines, starts);
    let (done, cur) = scan_sections(lines, starts);
    if cur.len() > 0 {
        assert(done.push(cur).drop_last() == done);
        assert(crate::text::concat(done.push(cur)) == crate::text::concat(done) + cur);
    } else {
        assert(crate::text::concat(done) + cur == crate::text::concat(done));
    }
}

/// A shortened section never has more than `max + 1` lines (the kept lines
/// and one marker), and is unchanged where it has at most `max`.
pub proof fn law_section_bound(sec: Seq<Seq<char>>, max: nat)
    requires
        max > 0,
    ensures
        shorten_section(sec, max).len() <= max + 1,
        sec.len() <= max ==> shorten_section(sec, max) == sec,
{
}

} // verus!
