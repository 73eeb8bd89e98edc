//! Aggregating lines by mode.
use vstd::prelude::*;
use crate::pattern::{
    accepts, any_match, captures, compile, compile_all, compiled_from, is_match, matches_any,
    regex_captures, regex_compiles, Pattern,
};
use crate::primitives::filter::{keep_flagged, keep_lines_flagged};
use crate::primitives::keyed::{group_pairs, group_views, groups_of, pair_views, rank_sort, sort_by_rank};
use crate::text::{
    char_views, chars_equal, decimal, find_first, find_last, find_last_space, first_index_of,
    from_chars, last_index_of, last_ws_index, push_chars, push_decimal, push_str, same_text,
    slice_chars,
    to_chars, trim, trim_chars, trim_str, views, lemma_last_index_of, lemma_trim_idempotent,
    lemma_last_ws_index, lemma_first_index_of, is_ws,
};

verus! {

/// The grouping modes that gather lines under keys.
#[derive(Clone, Copy, PartialEq, Eq, Structural)]
pub enum Layout {
    GitStatus,
    LintByRule,
    ByExtension,
    ByDirectory,
    ByFile,
}

/// How one line is taken in by a mode: skipped, put under a key with an
/// item, or kept aside as another line.
pub enum Class {
    Skip,
    Keyed(Seq<char>, Seq<char>),
    Other,
}

/// The regex of a `git status --short` line: status code and file name.
pub open spec fn git_status_pattern() -> Seq<char> {
    "^[\\t ]*([MADRCU?! ]{1,2})\\s+(.+)$"@
}

/// The regex of a linter line that names its rule.
pub open spec fn lint_rule_pattern() -> Seq<char> {
    "(?::\\s*([A-Z]\\d{3,4})\\s|\\[([a-z-]+)\\]\\s*$|\\s{2,}(\\S+)\\s*$)"@
}

/// The regex of a `file:line:` grep line.
pub open spec fn grep_file_pattern() -> Seq<char> {
    "^([^:]+:\\d+):"@
}

/// The regex a mode matches lines with.
pub open spec fn layout_pattern(m: Layout) -> Seq<char> {
    match m {
        Layout::GitStatus => git_status_pattern(),
        Layout::LintByRule => lint_rule_pattern(),
        _ => grep_file_pattern(),
    }
}

/// Group `i` of a capture list, where it took part in the match.
pub open spec fn group_text(caps: Seq<Option<Seq<char>>>, i: int) -> Option<Seq<char>> {
    if 0 <= i < caps.len() {
        caps[i]
    } else {
        None
    }
}

/// The text of an optional group, empty where it is absent.
pub open spec fn text_or_empty(t: Option<Seq<char>>) -> Seq<char> {
    match t {
        Some(x) => x,
        None => Seq::empty(),
    }
}

/// The rule a linter line names: the first of groups 1 to 3 that matched.
pub open spec fn rule_of(caps: Seq<Option<Seq<char>>>) -> Seq<char> {
    match group_text(caps, 1) {
        Some(t) => t,
        None => match group_text(caps, 2) {
            Some(t) => t,
            None => match group_text(caps, 3) {
                Some(t) => t,
                None => "unknown"@,
            },
        },
    }
}

/// The extension of a trimmed line: its last word from the last `.` on, or
/// `(no ext)`.
pub open spec fn extension_of(s: Seq<char>) -> Seq<char> {
    let w = s.skip(last_ws_index(s) + 1);
    if last_index_of(w, '.') >= 0 {
        w.skip(last_index_of(w, '.'))
    } else {
        "(no ext)"@
    }
}

/// The directory of a trimmed path: what stands before its last `/`, or `.`.
pub open spec fn directory_of(s: Seq<char>) -> Seq<char> {
    if last_index_of(s, '/') >= 0 {
        s.take(last_index_of(s, '/'))
    } else {
        "."@
    }
}

/// How mode `m` takes in `line`.
pub open spec fn classify(m: Layout, line: Seq<char>) -> Class {
    match m {
        Layout::GitStatus => {
            let s = trim(line);
            if s.len() == 0 {
                Class::Skip
            } else if regex_compiles(git_status_pattern()) && regex_captures(
                git_status_pattern(),
                s,
            ) is Some {
                let c = regex_captures(git_status_pattern(), s)->0;
                Class::Keyed(trim(text_or_empty(group_text(c, 1))), trim(text_or_empty(group_text(c, 2))))
            } else {
                Class::Other
            }
        },
        Layout::LintByRule => {
            if regex_compiles(lint_rule_pattern()) && regex_captures(lint_rule_pattern(), line) is Some {
                Class::Keyed(rule_of(regex_captures(lint_rule_pattern(), line)->0), line)
            } else {
                Class::Other
            }
        },
        Layout::ByFile => {
            if accepts(grep_file_pattern(), line) {
                Class::Keyed(line.take(first_index_of(line, ':')), line)
            } else {
                Class::Other
            }
        },
        Layout::ByExtension => {
            let s = trim(line);
            if s.len() == 0 {
                Class::Skip
            } else {
                Class::Keyed(extension_of(s), s)
            }
        },
        Layout::ByDirectory => {
            let s = trim(line);
            if s.len() == 0 {
                Class::Skip
            } else {
                Class::Keyed(directory_of(s), s)
            }
        },
    }
}

/// Left-to-right scan of `lines` under mode `m`: the (key, item) pairs and
/// the other lines, each in order.
pub open spec fn scan(m: Layout, lines: Seq<Seq<char>>) -> (Seq<(Seq<char>, Seq<char>)>, Seq<Seq<char>>)
    decreases lines.len(),
{
    if lines.len() == 0 {
        (Seq::empty(), Seq::empty())
    } else {
        let (ps, os) = scan(m, lines.drop_last());
        match classify(m, lines.last()) {
            Class::Skip => (ps, os),
            Class::Keyed(k, v) => (ps.push((k, v)), os),
            Class::Other => (ps, os.push(lines.last())),
        }
    }
}

/// The label of a git status code.
pub open spec fn status_label(k: Seq<char>) -> Seq<char> {
    if k == "M"@ {
        "Modified"@
    } else if k == "A"@ {
        "Added"@
    } else if k == "D"@ {
        "Deleted"@
    } else if k == "R"@ {
        "Renamed"@
    } else if k == "C"@ {
        "Copied"@
    } else if k == "??"@ {
        "Untracked"@
    } else if k == "U"@ {
        "Unmerged"@
    } else {
        k
    }
}

/// The head line of a group of `n` items under key `k`.
pub open spec fn header(m: Layout, k: Seq<char>, n: nat) -> Seq<char> {
    match m {
        Layout::GitStatus => status_label(k) + " ("@ + decimal(n) + "):\n"@,
        Layout::LintByRule => "["@ + k + "] ("@ + decimal(n) + " occurrences):\n"@,
        Layout::ByFile => k + " ("@ + decimal(n) + (if n == 1 {
            " match"@
        } else {
            " matches"@
        }) + "):\n"@,
        Layout::ByExtension => k + " ("@ + decimal(n) + (if n == 1 {
            " file"@
        } else {
            " files"@
        }) + "):\n"@,
        Layout::ByDirectory => k + "/ ("@ + decimal(n) + (if n == 1 {
            " item"@
        } else {
            " items"@
        }) + "):\n"@,
    }
}

/// How many items of a group are shown.
pub open spec fn shown(m: Layout) -> nat {
    match m {
        Layout::GitStatus => 20,
        Layout::LintByRule => 5,
        Layout::ByFile => 5,
        Layout::ByExtension => 10,
        Layout::ByDirectory => 10,
    }
}

/// Whether items are trimmed when shown.
pub open spec fn trims_items(m: Layout) -> bool {
    m == Layout::LintByRule || m == Layout::ByFile
}

/// How an item is shown.
pub open spec fn item_line(m: Layout, x: Seq<char>) -> Seq<char> {
    "  "@ + (if trims_items(m) {
        trim(x)
    } else {
        x
    }) + "\n"@
}

/// The line that stands for `n` items not shown.
pub open spec fn more_line(n: nat) -> Seq<char> {
    "  [... and "@ + decimal(n) + " more]\n"@
}

/// The first items of a group, shown.
pub open spec fn listed(m: Layout, items: Seq<Seq<char>>) -> Seq<Seq<char>>
    decreases items.len(),
{
    if items.len() == 0 {
        Seq::empty()
    } else if items.len() > shown(m) {
        listed(m, items.take(shown(m) as int))
    } else {
        listed(m, items.drop_last()).push(item_line(m, items.last()))
    }
}

/// A group as it is shown: its head line, its first items, and how many
/// more there are.
pub open spec fn block(m: Layout, g: (Seq<char>, Seq<Seq<char>>)) -> Seq<Seq<char>> {
    seq![header(m, g.0, g.1.len())] + listed(m, g.1) + if g.1.len() > shown(m) {
        seq![more_line((g.1.len() - shown(m)) as nat)]
    } else {
        Seq::empty()
    }
}

/// The groups shown one after the other.
pub open spec fn blocks(m: Layout, gs: Seq<(Seq<char>, Seq<Seq<char>>)>) -> Seq<Seq<char>>
    decreases gs.len(),
{
    if gs.len() == 0 {
        Seq::empty()
    } else {
        blocks(m, gs.drop_last()) + block(m, gs.last())
    }
}

/// What a keyed mode returns.
pub open spec fn keyed_output(m: Layout, lines: Seq<Seq<char>>) -> Seq<Seq<char>> {
    let (ps, os) = scan(m, lines);
    assemble(m, lines, ps, os)
}

/// The output of a keyed mode from its (key, item) pairs `ps` and other
/// lines `os`: the groups in order of first appearance (or by size for
/// extensions and directories) followed by the other lines; the input
/// `lines` where there are no pairs (but for git status).
pub open spec fn assemble(
    m: Layout,
    lines: Seq<Seq<char>>,
    ps: Seq<(Seq<char>, Seq<char>)>,
    os: Seq<Seq<char>>,
) -> Seq<Seq<char>> {
    match m {
        Layout::GitStatus => blocks(m, groups_of(ps)) + os,
        Layout::LintByRule | Layout::ByFile => if ps.len() == 0 {
            lines
        } else {
            blocks(m, groups_of(ps)) + os
        },
        Layout::ByExtension | Layout::ByDirectory => if ps.len() == 0 {
            lines
        } else {
            blocks(m, rank_sort(groups_of(ps)))
        },
    }
}

/// The exec form of `Class`.
enum Classified {
    Skip,
    Keyed(Vec<char>, Vec<char>),
    Other,
}

spec fn class_view(c: Classified) -> Class {
    match c {
        Classified::Skip => Class::Skip,
        Classified::Keyed(k, v) => Class::Keyed(k@, v@),
        Classified::Other => Class::Other,
    }
}

fn text_of(t: &Option<String>) -> (r: Vec<char>)
    ensures
        r@ == text_or_empty(
            match t {
                Some(s) => Some(s@),
                None => None,
            },
        ),
{
    match t {
        Some(s) => to_chars(s.as_str()),
        None => Vec::new(),
    }
}

fn classify_line(m: Layout, re: &Option<Pattern>, line: &String) -> (r: Classified)
    requires
        re is Some <==> regex_compiles(layout_pattern(m)),
        re matches Some(p) ==> p.source() == layout_pattern(m),
    ensures
        class_view(r) == classify(m, line@),
{
    match m {
        Layout::GitStatus => {
            let s = trim_str(line.as_str());
            if s.len() == 0 {
                return Classified::Skip;
            }
            match re {
                Some(p) => {
                    let st = from_chars(s.as_slice());
                    match captures(p, st.as_str()) {
                        Some(groups) => {
                            let ghost c = regex_captures(git_status_pattern(), s@)->0;
                            let g1 = if groups.len() > 1 {
                                text_of(&groups[1])
                            } else {
                                Vec::new()
                            };
                            let g2 = if groups.len() > 2 {
                                text_of(&groups[2])
                            } else {
                                Vec::new()
                            };
                            assert(g1@ == text_or_empty(group_text(c, 1)));
                            assert(g2@ == text_or_empty(group_text(c, 2)));
                            Classified::Keyed(trim_chars(&g1), trim_chars(&g2))
                        },
                        None => Classified::Other,
                    }
                },
                None => Classified::Other,
            }
        },
        Layout::LintByRule => {
            match re {
                Some(p) => match captures(p, line.as_str()) {
                    Some(groups) => {
                        let ghost c = regex_captures(lint_rule_pattern(), line@)->0;
                        let mut k: usize = 1;
                        let mut rule: Option<Vec<char>> = None;
                        while k <= 3 && rule.is_none()
                            invariant
                                1 <= k <= 4,
                                groups@.len() == c.len(),
                                forall|i: int|
                                    0 <= i < groups@.len() ==> match #[trigger] groups@[i] {
                                        Some(g) => c[i] == Some(g@),
                                        None => c[i] is None,
                                    },
                                rule is None ==> forall|i: int| 1 <= i < k ==> group_text(c, i) is None,
                                rule matches Some(t) ==> k >= 2 && group_text(c, k - 1) == Some(
                                    t@,
                                ) && forall|i: int| 1 <= i < k - 1 ==> group_text(c, i) is None,
                            decreases 4 - k,
                        {
                            if k < groups.len() {
                                match &groups[k] {
                                    Some(g) => {
                                        rule = Some(to_chars(g.as_str()));
                                    },
                                    None => {},
                                }
                            }
                            k += 1;
                        }
                        let r = match rule {
                            Some(t) => t,
                            None => to_chars("unknown"),
                        };
                        assert(r@ == rule_of(c));
                        let v = to_chars(line.as_str());
                        Classified::Keyed(r, v)
                    },
                    None => Classified::Other,
                },
                None => Classified::Other,
            }
        },
        Layout::ByFile => {
            match re {
                Some(p) => {
                    if is_match(p, line.as_str()) {
                        let v = to_chars(line.as_str());
                        let e = find_first(&v, ':');
                        let k = slice_chars(&v, 0, e);
                        assert(k@ == v@.take(e as int));
                        Classified::Keyed(k, v)
                    } else {
                        Classified::Other
                    }
                },
                None => Classified::Other,
            }
        },
        Layout::ByExtension => {
            let s = trim_str(line.as_str());
            if s.len() == 0 {
                return Classified::Skip;
            }
            let start = match find_last_space(&s) {
                Some(i) => i + 1,
                None => 0,
            };
            let w = slice_chars(&s, start, s.len());
            assert(w@ == s@.skip(last_ws_index(s@) + 1));
            let ext = match find_last(&w, '.') {
                Some(d) => slice_chars(&w, d, w.len()),
                None => to_chars("(no ext)"),
            };
            Classified::Keyed(ext, s)
        },
        Layout::ByDirectory => {
            let s = trim_str(line.as_str());
            if s.len() == 0 {
                return Classified::Skip;
            }
            let dir = match find_last(&s, '/') {
                Some(d) => slice_chars(&s, 0, d),
                None => to_chars("."),
            };
            Classified::Keyed(dir, s)
        },
    }
}

fn pattern_for(m: Layout) -> (r: Option<Pattern>)
    ensures
        r is Some <==> regex_compiles(layout_pattern(m)),
        r matches Some(p) ==> p.source() == layout_pattern(m),
{
    match m {
        Layout::GitStatus => compile("^[\\t ]*([MADRCU?! ]{1,2})\\s+(.+)$"),
        Layout::LintByRule => compile("(?::\\s*([A-Z]\\d{3,4})\\s|\\[([a-z-]+)\\]\\s*$|\\s{2,}(\\S+)\\s*$)"),
        _ => compile("^([^:]+:\\d+):"),
    }
}

/// Splits `lines` into (key, item) pairs and other lines under mode `m`.
fn collect(m: Layout, lines: &Vec<String>) -> (r: (Vec<(Vec<char>, Vec<char>)>, Vec<String>))
    ensures
        (pair_views(r.0@), views(r.1@)) == scan(m, views(lines@)),
{
    let ghost ls = views(lines@);
    let re = pattern_for(m);
    let mut pairs: Vec<(Vec<char>, Vec<char>)> = Vec::new();
    let mut others: Vec<String> = Vec::new();
    let mut i: usize = 0;
    assert(pair_views(pairs@) == Seq::<(Seq<char>, Seq<char>)>::empty());
    while i < lines.len()
        invariant
            i <= lines.len(),
            ls == views(lines@),
            re is Some <==> regex_compiles(layout_pattern(m)),
            re matches Some(p) ==> p.source() == layout_pattern(m),
            (pair_views(pairs@), views(others@)) == scan(m, ls.take(i as int)),
        decreases lines.len() - i,
    {
        assert(ls.take(i + 1).drop_last() == ls.take(i as int));
        assert(ls.take(i + 1).last() == lines@[i as int]@);
        let ghost pb = pair_views(pairs@);
        let ghost ob = views(others@);
        match classify_line(m, &re, &lines[i]) {
            Classified::Skip => {},
            Classified::Keyed(k, v) => {
                let ghost kv = (k@, v@);
                pairs.push((k, v));
                assert(pair_views(pairs@) == pb.push(kv));
            },
            Classified::Other => {
                others.push(lines[i].clone());
                assert(views(others@) == ob.push(lines@[i as int]@));
            },
        }
        i += 1;
    }
    assert(ls.take(lines.len() as int) == ls);
    (pairs, others)
}

fn status_label_chars(k: &Vec<char>) -> (r: Vec<char>)
    ensures
        r@ == status_label(k@),
{
    if chars_equal(k, &to_chars("M")) {
        to_chars("Modified")
    } else if chars_equal(k, &to_chars("A")) {
        to_chars("Added")
    } else if chars_equal(k, &to_chars("D")) {
        to_chars("Deleted")
    } else if chars_equal(k, &to_chars("R")) {
        to_chars("Renamed")
    } else if chars_equal(k, &to_chars("C")) {
        to_chars("Copied")
    } else if chars_equal(k, &to_chars("??")) {
        to_chars("Untracked")
    } else if chars_equal(k, &to_chars("U")) {
        to_chars("Unmerged")
    } else {
        k.clone()
    }
}

fn header_line(m: Layout, k: &Vec<char>, n: usize) -> (r: String)
    ensures
        r@ == header(m, k@, n as nat),
{
    let mut h: Vec<char> = Vec::new();
    match m {
        Layout::GitStatus => {
            let label = status_label_chars(k);
            push_chars(&mut h, &label);
            push_str(&mut h, " (");
            push_decimal(&mut h, n);
            push_str(&mut h, "):\n");
        },
        Layout::LintByRule => {
            push_str(&mut h, "[");
            push_chars(&mut h, k);
            push_str(&mut h, "] (");
            push_decimal(&mut h, n);
            push_str(&mut h, " occurrences):\n");
        },
        Layout::ByFile => {
            push_chars(&mut h, k);
            push_str(&mut h, " (");
            push_decimal(&mut h, n);
            if n == 1 {
                push_str(&mut h, " match");
            } else {
                push_str(&mut h, " matches");
            }
            push_str(&mut h, "):\n");
        },
        Layout::ByExtension => {
            push_chars(&mut h, k);
            push_str(&mut h, " (");
            push_decimal(&mut h, n);
            if n == 1 {
                push_str(&mut h, " file");
            } else {
                push_str(&mut h, " files");
            }
            push_str(&mut h, "):\n");
        },
        Layout::ByDirectory => {
            push_chars(&mut h, k);
            push_str(&mut h, "/ (");
            push_decimal(&mut h, n);
            if n == 1 {
                push_str(&mut h, " item");
            } else {
                push_str(&mut h, " items");
            }
            push_str(&mut h, "):\n");
        },
    }
    from_chars(h.as_slice())
}

fn shown_count(m: Layout) -> (r: usize)
    ensures
        r == shown(m),
{
    match m {
        Layout::GitStatus => 20,
        Layout::LintByRule => 5,
        Layout::ByFile => 5,
        Layout::ByExtension => 10,
        Layout::ByDirectory => 10,
    }
}

fn item_text(m: Layout, x: &Vec<char>) -> (r: String)
    ensures
        r@ == item_line(m, x@),
{
    let mut t: Vec<char> = Vec::new();
    push_str(&mut t, "  ");
    if m == Layout::LintByRule || m == Layout::ByFile {
        let y = trim_chars(x);
        push_chars(&mut t, &y);
    } else {
        push_chars(&mut t, x);
    }
    push_str(&mut t, "\n");
    from_chars(t.as_slice())
}

proof fn lemma_listed_take(m: Layout, items: Seq<Seq<char>>, j: int)
    requires
        0 <= j <= items.len(),
        j <= shown(m),
    ensures
        listed(m, items.take(j)) == items.take(j).map_values(|x: Seq<char>| item_line(m, x)),
    decreases j,
{
    if j > 0 {
        lemma_listed_take(m, items, j - 1);
        assert(items.take(j).drop_last() == items.take(j - 1));
    }
    assert(items.take(j).map_values(|x: Seq<char>| item_line(m, x)) =~= if j == 0 {
        Seq::empty()
    } else {
        items.take(j - 1).map_values(|x: Seq<char>| item_line(m, x)).push(
            item_line(m, items[j - 1]),
        )
    });
}

fn push_block(m: Layout, out: &mut Vec<String>, k: &Vec<char>, items: &Vec<Vec<char>>)
    ensures
        views(final(out)@) == views(old(out)@) + block(m, (k@, char_views(items@))),
{
    let ghost iv = char_views(items@);
    let n = items.len();
    let limit = shown_count(m);
    let ghost start = views(out@);
    out.push(header_line(m, k, n));
    let top = if n > limit {
        limit
    } else {
        n
    };
    let mut j: usize = 0;
    while j < top
        invariant
            j <= top <= n,
            top <= limit,
            n == items@.len(),
            limit == shown(m),
            iv == char_views(items@),
            views(out@) == start + seq![header(m, k@, n as nat)] + iv.take(j as int).map_values(
                |x: Seq<char>| item_line(m, x),
            ),
        decreases top - j,
    {
        let ghost before = views(out@);
        out.push(item_text(m, &items[j]));
        assert(views(out@) == before.push(item_line(m, iv[j as int])));
        assert(iv.take(j + 1).map_values(|x: Seq<char>| item_line(m, x)) == iv.take(
            j as int,
        ).map_values(|x: Seq<char>| item_line(m, x)).push(item_line(m, iv[j as int])));
        j += 1;
    }
    proof {
        lemma_listed_take(m, iv, top as int);
        if n > limit {
            assert(listed(m, iv) == listed(m, iv.take(limit as int)));
        } else {
            assert(iv.take(n as int) == iv);
        }
    }
    if n > limit {
        let mut t: Vec<char> = Vec::new();
        push_str(&mut t, "  [... and ");
        push_decimal(&mut t, n - limit);
        push_str(&mut t, " more]\n");
        let ghost before = views(out@);
        out.push(from_chars(t.as_slice()));
        assert(views(out@) == before.push(more_line((n - limit) as nat)));
    }
}

fn push_blocks(m: Layout, out: &mut Vec<String>, gs: &Vec<(Vec<char>, Vec<Vec<char>>)>)
    ensures
        views(final(out)@) == views(old(out)@) + blocks(m, group_views(gs@)),
{
    let ghost gv = group_views(gs@);
    let ghost start = views(out@);
    let mut i: usize = 0;
    while i < gs.len()
        invariant
            i <= gs.len(),
            gv == group_views(gs@),
            views(out@) == start + blocks(m, gv.take(i as int)),
        decreases gs.len() - i,
    {
        assert(gv.take(i + 1).drop_last() == gv.take(i as int));
        assert(gv.take(i + 1).last() == (gs@[i as int].0@, char_views(gs@[i as int].1@)));
        push_block(m, out, &gs[i].0, &gs[i].1);
        i += 1;
    }
    assert(gv.take(gs.len() as int) == gv);
}

fn group_keyed(m: Layout, lines: Vec<String>) -> (r: Vec<String>)
    ensures
        views(r@) == keyed_output(m, views(lines@)),
{
    let (pairs, others) = collect(m, &lines);
    assemble_keyed(m, lines, &pairs, &others)
}

/// Builds a keyed mode's output from its (key, item) pairs and other lines:
/// each group shown under a counted head line with its first items, then the
/// other lines; `lines` itself where there are no pairs (but for git status).
pub fn assemble_keyed(
    m: Layout,
    lines: Vec<String>,
    pairs: &Vec<(Vec<char>, Vec<char>)>,
    others: &Vec<String>,
) -> (r: Vec<String>)
    ensures
        views(r@) == assemble(m, views(lines@), pair_views(pairs@), views(others@)),
{
    if pairs.len() == 0 && m != Layout::GitStatus {
        return lines;
    }
    let gs = group_pairs(pairs);
    let mut result: Vec<String> = Vec::new();
    if m == Layout::ByExtension || m == Layout::ByDirectory {
        let sorted = sort_by_rank(gs);
        push_blocks(m, &mut result, &sorted);
    } else {
        push_blocks(m, &mut result, &gs);
        extend_all(&mut result, others);
    }
    result
}

fn extend_all(out: &mut Vec<String>, src: &Vec<String>)
    ensures
        views(final(out)@) == views(old(out)@) + views(src@),
{
    crate::text::extend_range(out, src, 0, src.len());
    assert(views(src@).subrange(0, src@.len() as int) == views(src@));
}

/// The lines of `lines` that satisfy `p`, in order.
pub open spec fn select(lines: Seq<Seq<char>>, p: spec_fn(Seq<char>) -> bool) -> Seq<Seq<char>>
    decreases lines.len(),
{
    if lines.len() == 0 {
        Seq::empty()
    } else if p(lines.last()) {
        select(lines.drop_last(), p).push(lines.last())
    } else {
        select(lines.drop_last(), p)
    }
}

/// The regex of an error line.
pub open spec fn error_pattern() -> Seq<char> {
    "(?i)\\berror\\b"@
}

/// The regex of a warning line.
pub open spec fn warning_pattern() -> Seq<char> {
    "(?i)\\bwarn(?:ing)?\\b"@
}

/// A line that mentions an error.
pub open spec fn is_error_line(l: Seq<char>) -> bool {
    accepts(error_pattern(), l)
}

/// A line that mentions a warning and no error.
pub open spec fn is_warning_line(l: Seq<char>) -> bool {
    !accepts(error_pattern(), l) && accepts(warning_pattern(), l)
}

/// A line that mentions neither.
pub open spec fn is_plain_line(l: Seq<char>) -> bool {
    !accepts(error_pattern(), l) && !accepts(warning_pattern(), l)
}

/// At most the first `n` lines.
pub open spec fn at_most(lines: Seq<Seq<char>>, n: nat) -> Seq<Seq<char>> {
    if lines.len() > n {
        lines.take(n as int)
    } else {
        lines
    }
}

/// At most the last `n` lines.
pub open spec fn last_at_most(lines: Seq<Seq<char>>, n: nat) -> Seq<Seq<char>> {
    if lines.len() > n {
        lines.skip(lines.len() - n)
    } else {
        lines
    }
}

/// What `errors_warnings` returns: up to 20 error lines and up to 10 warning
/// lines, each under a count, then the last 3 other lines; the input where
/// there is neither.
pub open spec fn errors_warnings_output(lines: Seq<Seq<char>>) -> Seq<Seq<char>> {
    errors_warnings_from(
        lines,
        select(lines, |l: Seq<char>| is_error_line(l)),
        select(lines, |l: Seq<char>| is_warning_line(l)),
        select(lines, |l: Seq<char>| is_plain_line(l)),
    )
}

/// The errors/warnings summary of `lines` from its error lines `e`, warning
/// lines `w` and other lines `o`.
pub open spec fn errors_warnings_from(
    lines: Seq<Seq<char>>,
    e: Seq<Seq<char>>,
    w: Seq<Seq<char>>,
    o: Seq<Seq<char>>,
) -> Seq<Seq<char>> {
    if e.len() == 0 && w.len() == 0 {
        lines
    } else {
        (if e.len() > 0 {
            seq!["Errors ("@ + decimal(e.len()) + "):\n"@] + at_most(e, 20) + if e.len() > 20 {
                seq!["  [... and "@ + decimal((e.len() - 20) as nat) + " more errors]\n"@]
            } else {
                Seq::empty()
            }
        } else {
            Seq::empty()
        }) + (if w.len() > 0 {
            seq!["\nWarnings ("@ + decimal(w.len()) + "):\n"@] + at_most(w, 10) + if w.len() > 10 {
                seq!["  [... and "@ + decimal((w.len() - 10) as nat) + " more warnings]\n"@]
            } else {
                Seq::empty()
            }
        } else {
            Seq::empty()
        }) + last_at_most(o, 3)
    }
}

fn counted_line(prefix: &str, n: usize, suffix: &str) -> (r: String)
    ensures
        r@ == prefix@ + decimal(n as nat) + suffix@,
{
    let mut t: Vec<char> = Vec::new();
    push_str(&mut t, prefix);
    push_decimal(&mut t, n);
    push_str(&mut t, suffix);
    from_chars(t.as_slice())
}

fn push_at_most(out: &mut Vec<String>, src: &Vec<String>, n: usize)
    ensures
        views(final(out)@) == views(old(out)@) + at_most(views(src@), n as nat),
{
    let k = if src.len() > n {
        n
    } else {
        src.len()
    };
    crate::text::extend_range(out, src, 0, k);
    assert(views(src@).take(k as int) == views(src@).subrange(0, k as int));
}

/// Separates error lines (up to 20 shown) from warning lines (up to 10
/// shown) and keeps the last 3 other lines; lines with neither come back
/// unchanged.
pub fn group_errors_warnings(lines: Vec<String>) -> (r: Vec<String>)
    ensures
        views(r@) == errors_warnings_output(views(lines@)),
{
    let ghost ls = views(lines@);
    let err = compile("(?i)\\berror\\b");
    let warn = compile("(?i)\\bwarn(?:ing)?\\b");
    let mut errors: Vec<String> = Vec::new();
    let mut warnings: Vec<String> = Vec::new();
    let mut other: Vec<String> = Vec::new();
    let mut i: usize = 0;
    while i < lines.len()
        invariant
            i <= lines.len(),
            ls == views(lines@),
            err is Some <==> regex_compiles(error_pattern()),
            err matches Some(p) ==> p.source() == error_pattern(),
            warn is Some <==> regex_compiles(warning_pattern()),
            warn matches Some(p) ==> p.source() == warning_pattern(),
            views(errors@) == select(ls.take(i as int), |l: Seq<char>| is_error_line(l)),
            views(warnings@) == select(ls.take(i as int), |l: Seq<char>| is_warning_line(l)),
            views(other@) == select(ls.take(i as int), |l: Seq<char>| is_plain_line(l)),
        decreases lines.len() - i,
    {
        let line = &lines[i];
        assert(ls.take(i + 1).drop_last() == ls.take(i as int));
        assert(ls.take(i + 1).last() == line@);
        let is_err = match &err {
            Some(p) => is_match(p, line.as_str()),
            None => false,
        };
        let is_warn = match &warn {
            Some(p) => is_match(p, line.as_str()),
            None => false,
        };
        let ghost eb = views(errors@);
        let ghost wb = views(warnings@);
        let ghost ob = views(other@);
        if is_err {
            errors.push(line.clone());
            assert(views(errors@) == eb.push(line@));
        } else if is_warn {
            warnings.push(line.clone());
            assert(views(warnings@) == wb.push(line@));
        } else {
            other.push(line.clone());
            assert(views(other@) == ob.push(line@));
        }
        i += 1;
    }
    assert(ls.take(lines.len() as int) == ls);
    assemble_errors_warnings(lines, &errors, &warnings, &other)
}

/// Builds the errors/warnings summary of `lines` from its error, warning and
/// other lines: `Errors (N):` and up to 20 errors, `Warnings (N):` and up to
/// 10 warnings, then the last 3 other lines; `lines` itself where there are
/// neither errors nor warnings.
pub fn assemble_errors_warnings(
    lines: Vec<String>,
    errors: &Vec<String>,
    warnings: &Vec<String>,
    other: &Vec<String>,
) -> (r: Vec<String>)
    ensures
        views(r@) == errors_warnings_from(views(lines@), views(errors@), views(warnings@), views(other@)),
{
    if errors.len() == 0 && warnings.len() == 0 {
        return lines;
    }
    let mut result: Vec<String> = Vec::new();
    let ghost ev = views(errors@);
    let ghost wv = views(warnings@);
    let ghost ov = views(other@);
    let ghost part1 = if ev.len() > 0 {
        seq!["Errors ("@ + decimal(ev.len()) + "):\n"@] + at_most(ev, 20) + if ev.len() > 20 {
            seq!["  [... and "@ + decimal((ev.len() - 20) as nat) + " more errors]\n"@]
        } else {
            Seq::empty()
        }
    } else {
        Seq::empty()
    };
    let ghost part2 = if wv.len() > 0 {
        seq!["\nWarnings ("@ + decimal(wv.len()) + "):\n"@] + at_most(wv, 10) + if wv.len() > 10 {
            seq!["  [... and "@ + decimal((wv.len() - 10) as nat) + " more warnings]\n"@]
        } else {
            Seq::empty()
        }
    } else {
        Seq::empty()
    };
    if errors.len() > 0 {
        result.push(counted_line("Errors (", errors.len(), "):\n"));
        push_at_most(&mut result, errors, 20);
        if errors.len() > 20 {
            let ghost before = views(result@);
            result.push(counted_line("  [... and ", errors.len() - 20, " more errors]\n"));
            assert(views(result@) == before.push(
                "  [... and "@ + decimal((ev.len() - 20) as nat) + " more errors]\n"@,
            ));
        }
    }
    assert(views(result@) == part1);
    if warnings.len() > 0 {
        let ghost before = views(result@);
        result.push(counted_line("\nWarnings (", warnings.len(), "):\n"));
        push_at_most(&mut result, warnings, 10);
        if warnings.len() > 10 {
            let ghost b2 = views(result@);
            result.push(counted_line("  [... and ", warnings.len() - 10, " more warnings]\n"));
            assert(views(result@) == b2.push(
                "  [... and "@ + decimal((wv.len() - 10) as nat) + " more warnings]\n"@,
            ));
        }
        assert(views(result@) == before + part2);
    }
    assert(views(result@) == part1 + part2);
    let start = if other.len() > 3 {
        other.len() - 3
    } else {
        0
    };
    crate::text::extend_range(&mut result, other, start, other.len());
    assert(last_at_most(ov, 3) == ov.subrange(start as int, ov.len() as int));
    result
}

/// The regexes that open a failure report: failure markers and end markers.
pub open spec fn failure_start_patterns() -> Seq<Seq<char>> {
    seq![
        "^FAIL"@,
        "^FAILED"@,
        "^ERROR"@,
        "^E\\s+"@,
        "^---\\s*FAIL"@,
        "(?i)failures?:"@,
        "^=+ ?short test summary"@,
        "^=+\\s*\\d+ (?:passed|failed)"@,
        "^FAIL\\s*$"@,
    ]
}

/// The regex of a test count summary.
pub open spec fn test_summary_pattern() -> Seq<char> {
    "(?i)\\d+\\s+(?:passed|failed|error)"@
}

/// A line whose trimmed text opens a failure report.
pub open spec fn opens_failure(l: Seq<char>) -> bool {
    matches_any(failure_start_patterns(), trim(l))
}

/// The index of the first set flag, or the number of flags.
pub open spec fn first_set(flags: Seq<bool>) -> int
    decreases flags.len(),
{
    if flags.len() == 0 {
        0
    } else if flags[0] {
        0
    } else {
        1 + first_set(flags.drop_first())
    }
}

/// A line whose trimmed text is a test count summary.
pub open spec fn is_test_summary(l: Seq<char>) -> bool {
    accepts(test_summary_pattern(), trim(l))
}

/// What `test_failures` returns: everything from the first line that opens a
/// failure report; where there is none, the summary lines; where there are
/// none, `All tests passed.`.
pub open spec fn test_failures_output(lines: Seq<Seq<char>>) -> Seq<Seq<char>> {
    failures_from(
        lines,
        lines.map_values(|l: Seq<char>| opens_failure(l)),
        lines.map_values(|l: Seq<char>| is_test_summary(l)),
    )
}

/// The failure report of `lines` given which lines open a failure report
/// (`opens`) and which are count summaries (`sums`).
pub open spec fn failures_from(lines: Seq<Seq<char>>, opens: Seq<bool>, sums: Seq<bool>) -> Seq<
    Seq<char>,
> {
    let from = lines.skip(first_set(opens));
    if from.len() > 0 {
        from
    } else {
        let found = keep_flagged(lines, sums, true);
        if found.len() > 0 {
            found
        } else {
            seq!["All tests passed.\n"@]
        }
    }
}

fn strings_of(a: &[&str]) -> (r: Vec<String>)
    ensures
        views(r@) == a@.map_values(|s: &str| s@),
{
    let mut r: Vec<String> = Vec::new();
    let mut i: usize = 0;
    while i < a.len()
        invariant
            i <= a.len(),
            views(r@) == a@.take(i as int).map_values(|s: &str| s@),
        decreases a.len() - i,
    {
        let ghost before = views(r@);
        r.push(String::from_str(a[i]));
        assert(views(r@) == before.push(a@[i as int]@));
        assert(a@.take(i + 1).map_values(|s: &str| s@) == a@.take(i as int).map_values(
            |s: &str| s@,
        ).push(a@[i as int]@));
        i += 1;
    }
    assert(a@.take(a.len() as int) == a@);
    r
}

fn failure_start_texts() -> (r: Vec<String>)
    ensures
        views(r@) == failure_start_patterns(),
{
    let a: [&str; 9] = [
        "^FAIL",
        "^FAILED",
        "^ERROR",
        "^E\\s+",
        "^---\\s*FAIL",
        "(?i)failures?:",
        "^=+ ?short test summary",
        "^=+\\s*\\d+ (?:passed|failed)",
        "^FAIL\\s*$",
    ];
    let r = strings_of(&a);
    assert(views(r@) =~= failure_start_patterns());
    r
}

/// Keeps everything from the first failure line on; without failures, the
/// count summary lines, or `All tests passed.`.
pub fn group_test_failures(lines: Vec<String>) -> (r: Vec<String>)
    ensures
        views(r@) == test_failures_output(views(lines@)),
{
    let ghost ls = views(lines@);
    let ghost os = ls.map_values(|l: Seq<char>| opens_failure(l));
    let ghost ss = ls.map_values(|l: Seq<char>| is_test_summary(l));
    let texts = failure_start_texts();
    let markers = compile_all(texts.as_slice());
    let summary = compile("(?i)\\d+\\s+(?:passed|failed|error)");
    let mut opens: Vec<bool> = Vec::new();
    let mut sums: Vec<bool> = Vec::new();
    let mut i: usize = 0;
    while i < lines.len()
        invariant
            i <= lines.len(),
            ls == views(lines@),
            os == ls.map_values(|l: Seq<char>| opens_failure(l)),
            ss == ls.map_values(|l: Seq<char>| is_test_summary(l)),
            compiled_from(markers@, failure_start_patterns()),
            summary is Some <==> regex_compiles(test_summary_pattern()),
            summary matches Some(p) ==> p.source() == test_summary_pattern(),
            opens@ == os.take(i as int),
            sums@ == ss.take(i as int),
        decreases lines.len() - i,
    {
        let stripped = trim_str(lines[i].as_str());
        let st = from_chars(stripped.as_slice());
        let o = any_match(&markers, Ghost(failure_start_patterns()), st.as_str());
        let m = matches_opt(&summary, Ghost(test_summary_pattern()), st.as_str());
        opens.push(o);
        sums.push(m);
        assert(os.take(i + 1) == os.take(i as int).push(o));
        assert(ss.take(i + 1) == ss.take(i as int).push(m));
        i += 1;
    }
    assert(os.take(lines.len() as int) == os);
    assert(ss.take(lines.len() as int) == ss);
    select_failures(lines, &opens, &sums)
}

/// The failure report of `lines`: everything from the first line flagged in
/// `opens`; where none is, the lines flagged in `sums`; where none is,
/// `All tests passed.`.
pub fn select_failures(lines: Vec<String>, opens: &Vec<bool>, sums: &Vec<bool>) -> (r: Vec<String>)
    requires
        opens@.len() == lines@.len(),
        sums@.len() == lines@.len(),
    ensures
        views(r@) == failures_from(views(lines@), opens@, sums@),
{
    let ghost ls = views(lines@);
    let mut k: usize = 0;
    assert(opens@.skip(0) == opens@);
    while k < opens.len() && !opens[k]
        invariant
            k <= opens@.len(),
            first_set(opens@) == k + first_set(opens@.skip(k as int)),
        decreases opens@.len() - k,
    {
        assert(opens@.skip(k as int).drop_first() == opens@.skip(k + 1));
        k += 1;
    }
    proof {
        if k < opens@.len() {
            assert(opens@.skip(k as int)[0]);
        }
    }
    if k < lines.len() {
        let mut result: Vec<String> = Vec::new();
        crate::text::extend_range(&mut result, &lines, k, lines.len());
        assert(ls.skip(k as int) == ls.subrange(k as int, ls.len() as int));
        return result;
    }
    assert(ls.skip(k as int).len() == 0);
    let mut found = keep_lines_flagged(&lines, sums, true);
    if found.len() == 0 {
        found.push(String::from_str("All tests passed.\n"));
        assert(views(found@) == seq!["All tests passed.\n"@]);
    }
    found
}

/// The regex of a pytest failures or errors section header.
pub open spec fn pytest_failures_header() -> Seq<char> {
    "^=+ (?:FAILURES|ERRORS) =+"@
}

/// The regex of the pytest short summary header.
pub open spec fn pytest_summary_header() -> Seq<char> {
    "^=+ short test summary"@
}

/// The regex of a pytest section boundary.
pub open spec fn pytest_boundary() -> Seq<char> {
    "^=+"@
}

/// The regex of the pytest final count line.
pub open spec fn pytest_final_summary() -> Seq<char> {
    "^=+.*(?:passed|failed|error|warning)"@
}

/// What the pytest reader sees in a line: whether its trimmed text is a
/// failures/errors header, the short summary header, a section boundary, or
/// the final count line.
#[derive(Clone, Copy)]
pub struct PytestMarks {
    pub failures_header: bool,
    pub summary_header: bool,
    pub boundary: bool,
    pub final_summary: bool,
}

/// The marks of a line.
pub open spec fn pytest_marks(line: Seq<char>) -> PytestMarks {
    let s = trim(line);
    PytestMarks {
        failures_header: accepts(pytest_failures_header(), s),
        summary_header: accepts(pytest_summary_header(), s),
        boundary: accepts(pytest_boundary(), s),
        final_summary: accepts(pytest_final_summary(), s),
    }
}

/// One step of the pytest reader: the lines kept so far, whether it is in a
/// failures section, whether it is in the short summary.
pub open spec fn pytest_step(st: (Seq<Seq<char>>, bool, bool), line: Seq<char>, k: PytestMarks) -> (
    Seq<Seq<char>>,
    bool,
    bool,
) {
    let (r, in_failures, in_summary) = st;
    if k.failures_header {
        (r.push(line), true, in_summary)
    } else if k.summary_header {
        (r.push(line), false, true)
    } else if in_summary && k.boundary {
        (r.push(line), in_failures, false)
    } else if in_failures || in_summary {
        (r.push(line), in_failures, in_summary)
    } else if k.final_summary {
        (r.push(line), in_failures, in_summary)
    } else {
        (r, in_failures, in_summary)
    }
}

/// The pytest reader run over `lines` with their marks.
pub open spec fn pytest_scan(lines: Seq<Seq<char>>, marks: Seq<PytestMarks>) -> (Seq<Seq<char>>, bool, bool)
    decreases lines.len(),
{
    if lines.len() == 0 || marks.len() == 0 {
        (Seq::empty(), false, false)
    } else {
        pytest_step(pytest_scan(lines.drop_last(), marks.drop_last()), lines.last(), marks.last())
    }
}

/// What `pytest_failures` returns: the failures and errors sections, the
/// short summary and the final count line; where there are none, what
/// `test_failures` returns.
pub open spec fn pytest_output(lines: Seq<Seq<char>>) -> Seq<Seq<char>> {
    let r = pytest_scan(lines, lines.map_values(|l: Seq<char>| pytest_marks(l))).0;
    if r.len() > 0 {
        r
    } else {
        test_failures_output(lines)
    }
}

fn matches_opt(p: &Option<Pattern>, Ghost(text): Ghost<Seq<char>>, s: &str) -> (r: bool)
    requires
        p is Some <==> regex_compiles(text),
        p matches Some(q) ==> q.source() == text,
    ensures
        r == accepts(text, s@),
{
    match p {
        Some(q) => is_match(q, s),
        None => false,
    }
}

/// Extracts the pytest FAILURES/ERRORS sections, the short summary and the
/// final count line; without any, falls back to `group_test_failures`.
pub fn group_pytest_failures(lines: Vec<String>) -> (r: Vec<String>)
    ensures
        views(r@) == pytest_output(views(lines@)),
{
    let ghost ls = views(lines@);
    let ghost ks = ls.map_values(|l: Seq<char>| pytest_marks(l));
    let fh = compile("^=+ (?:FAILURES|ERRORS) =+");
    let sh = compile("^=+ short test summary");
    let sb = compile("^=+");
    let fs = compile("^=+.*(?:passed|failed|error|warning)");
    let mut marks: Vec<PytestMarks> = Vec::new();
    let mut i: usize = 0;
    while i < lines.len()
        invariant
            i <= lines.len(),
            ls == views(lines@),
            ks == ls.map_values(|l: Seq<char>| pytest_marks(l)),
            fh is Some <==> regex_compiles(pytest_failures_header()),
            fh matches Some(q) ==> q.source() == pytest_failures_header(),
            sh is Some <==> regex_compiles(pytest_summary_header()),
            sh matches Some(q) ==> q.source() == pytest_summary_header(),
            sb is Some <==> regex_compiles(pytest_boundary()),
            sb matches Some(q) ==> q.source() == pytest_boundary(),
            fs is Some <==> regex_compiles(pytest_final_summary()),
            fs matches Some(q) ==> q.source() == pytest_final_summary(),
            marks@ == ks.take(i as int),
        decreases lines.len() - i,
    {
        let stripped = trim_str(lines[i].as_str());
        let st = from_chars(stripped.as_slice());
        let k = PytestMarks {
            failures_header: matches_opt(&fh, Ghost(pytest_failures_header()), st.as_str()),
            summary_header: matches_opt(&sh, Ghost(pytest_summary_header()), st.as_str()),
            boundary: matches_opt(&sb, Ghost(pytest_boundary()), st.as_str()),
            final_summary: matches_opt(&fs, Ghost(pytest_final_summary()), st.as_str()),
        };
        marks.push(k);
        assert(ks.take(i + 1) == ks.take(i as int).push(k));
        i += 1;
    }
    assert(ks.take(lines.len() as int) == ks);
    let result = pytest_sections(&lines, &marks);
    if result.len() == 0 {
        return group_test_failures(lines);
    }
    result
}

/// The lines the pytest reader keeps, given each line's marks: the
/// failures/errors sections, the short summary up to the next boundary, and
/// final count lines.
pub fn pytest_sections(lines: &Vec<String>, marks: &Vec<PytestMarks>) -> (r: Vec<String>)
    requires
        marks@.len() == lines@.len(),
    ensures
        views(r@) == pytest_scan(views(lines@), marks@).0,
{
    let ghost ls = views(lines@);
    let mut result: Vec<String> = Vec::new();
    let mut in_failures = false;
    let mut in_summary = false;
    let mut i: usize = 0;
    while i < lines.len()
        invariant
            i <= lines.len(),
            marks@.len() == lines@.len(),
            ls == views(lines@),
            (views(result@), in_failures, in_summary) == pytest_scan(
                ls.take(i as int),
                marks@.take(i as int),
            ),
        decreases lines.len() - i,
    {
        let line = &lines[i];
        let k = marks[i];
        assert(ls.take(i + 1).drop_last() == ls.take(i as int));
        assert(marks@.take(i + 1).drop_last() == marks@.take(i as int));
        assert(ls.take(i + 1).last() == line@);
        assert(marks@.take(i + 1).last() == k);
        let ghost before = views(result@);
        let keep;
        if k.failures_header {
            in_failures = true;
            keep = true;
        } else if k.summary_header {
            in_failures = false;
            in_summary = true;
            keep = true;
        } else if in_summary && k.boundary {
            in_summary = false;
            keep = true;
        } else if in_failures || in_summary {
            keep = true;
        } else {
            keep = k.final_summary;
        }
        if keep {
            result.push(line.clone());
            assert(views(result@) == before.push(line@));
        }
        i += 1;
    }
    assert(ls.take(lines.len() as int) == ls);
    assert(marks@.take(lines.len() as int) == marks@);
    result
}

/// What `group_lines` returns for `mode`; lines are returned unchanged for
/// an unknown mode.
pub open spec fn grouped(lines: Seq<Seq<char>>, mode: Seq<char>) -> Seq<Seq<char>> {
    if mode == "git_status"@ {
        keyed_output(Layout::GitStatus, lines)
    } else if mode == "pytest_failures"@ {
        pytest_output(lines)
    } else if mode == "test_failures"@ {
        test_failures_output(lines)
    } else if mode == "lint_by_rule"@ {
        keyed_output(Layout::LintByRule, lines)
    } else if mode == "by_extension"@ {
        keyed_output(Layout::ByExtension, lines)
    } else if mode == "by_directory"@ {
        keyed_output(Layout::ByDirectory, lines)
    } else if mode == "by_file"@ {
        keyed_output(Layout::ByFile, lines)
    } else if mode == "errors_warnings"@ {
        errors_warnings_output(lines)
    } else {
        lines
    }
}

/// Groups/aggregates lines by mode: `git_status`, `pytest_failures`,
/// `test_failures`, `lint_by_rule`, `by_extension`, `by_directory`,
/// `by_file` or `errors_warnings`; any other mode leaves the lines as they
/// are.
pub fn group_lines(lines: Vec<String>, mode: &str) -> (r: Vec<String>)
    ensures
        views(r@) == grouped(views(lines@), mode@),
{
    if same_text(mode, "git_status") {
        group_git_status(lines)
    } else if same_text(mode, "pytest_failures") {
        group_pytest_failures(lines)
    } else if same_text(mode, "test_failures") {
        group_test_failures(lines)
    } else if same_text(mode, "lint_by_rule") {
        group_lint_by_rule(lines)
    } else if same_text(mode, "by_extension") {
        group_by_extension(lines)
    } else if same_text(mode, "by_directory") {
        group_by_directory(lines)
    } else if same_text(mode, "by_file") {
        group_by_file(lines)
    } else if same_text(mode, "errors_warnings") {
        group_errors_warnings(lines)
    } else {
        lines
    }
}

/// Groups `git status` lines by status code (M, A, D, R, C, ??, U) with
/// counts, showing up to 20 files per group; other lines follow.
pub fn group_git_status(lines: Vec<String>) -> (r: Vec<String>)
    ensures
        views(r@) == keyed_output(Layout::GitStatus, views(lines@)),
{
    group_keyed(Layout::GitStatus, lines)
}

/// Groups linter diagnostics by rule code, showing up to 5 per rule; other
/// lines follow. Lines without a rule come back unchanged.
pub fn group_lint_by_rule(lines: Vec<String>) -> (r: Vec<String>)
    ensures
        views(r@) == keyed_output(Layout::LintByRule, views(lines@)),
{
    group_keyed(Layout::LintByRule, lines)
}

/// Groups paths by extension, largest group first, showing up to 10 each.
pub fn group_by_extension(lines: Vec<String>) -> (r: Vec<String>)
    ensures
        views(r@) == keyed_output(Layout::ByExtension, views(lines@)),
{
    group_keyed(Layout::ByExtension, lines)
}

/// Groups paths by parent directory, largest group first, showing up to 10
/// each.
pub fn group_by_directory(lines: Vec<String>) -> (r: Vec<String>)
    ensures
        views(r@) == keyed_output(Layout::ByDirectory, views(lines@)),
{
    group_keyed(Layout::ByDirectory, lines)
}

/// Groups `file:line:match` lines by file, showing up to 5 matches each;
/// other lines follow.
pub fn group_by_file(lines: Vec<String>) -> (r: Vec<String>)
    ensures
        views(r@) == keyed_output(Layout::ByFile, views(lines@)),
{
    group_keyed(Layout::ByFile, lines)
}


proof fn lemma_listed(m: Layout, items: Seq<Seq<char>>)
    ensures
        listed(m, items) == items.take(
            if items.len() > shown(m) { shown(m) as int } else { items.len() as int },
        ).map_values(|x: Seq<char>| item_line(m, x)),
    decreases items.len(),
{
    let f = |x: Seq<char>| item_line(m, x);
    if items.len() > shown(m) {
        lemma_listed(m, items.take(shown(m) as int));
        assert(items.take(shown(m) as int).take(shown(m) as int) == items.take(shown(m) as int));
    } else if items.len() > 0 {
        lemma_listed(m, items.drop_last());
        assert(items.take(items.len() as int) == items);
        assert(items.drop_last().take(items.drop_last().len() as int) == items.drop_last());
        assert(items.map_values(f) == items.drop_last().map_values(f).push(f(items.last())));
    } else {
        assert(items.take(0).map_values(f) == Seq::<Seq<char>>::empty());
    }
}

proof fn lemma_blocks_concat(m: Layout, gs: Seq<(Seq<char>, Seq<Seq<char>>)>)
    ensures
        blocks(m, gs) == crate::text::concat(
            gs.map_values(|g: (Seq<char>, Seq<Seq<char>>)| block(m, g)),
        ),
    decreases gs.len(),
{
    if gs.len() > 0 {
        lemma_blocks_concat(m, gs.drop_last());
        let f = |g: (Seq<char>, Seq<Seq<char>>)| block(m, g);
        assert(gs.map_values(f).drop_last() == gs.drop_last().map_values(f));
    }
}

/// How a group is shown: its head line (key, or label, and count), its first
/// items up to the mode's limit, each as an item line, and, where there are
/// more, one line counting the rest.
pub proof fn law_block_layout(m: Layout, g: (Seq<char>, Seq<Seq<char>>))
    ensures
        block(m, g) == seq![header(m, g.0, g.1.len())] + g.1.take(
            if g.1.len() > shown(m) { shown(m) as int } else { g.1.len() as int },
        ).map_values(|x: Seq<char>| item_line(m, x)) + if g.1.len() > shown(m) {
            seq![more_line((g.1.len() - shown(m)) as nat)]
        } else {
            Seq::empty()
        },
{
    lemma_listed(m, g.1);
}

/// A line scan takes the (key, item) pairs from the lines a mode classifies
/// as keyed and keeps aside, unchanged, the lines it classifies as other, each
/// in input order; skipped lines go nowhere.
pub proof fn law_scan(m: Layout, lines: Seq<Seq<char>>)
    ensures
        scan(m, lines).1 == lines.filter(|l: Seq<char>| classify(m, l) is Other),
        scan(m, lines).0 == lines.filter(|l: Seq<char>| classify(m, l) is Keyed).map_values(
            |l: Seq<char>| (classify(m, l)->0, classify(m, l)->1),
        ),
    decreases lines.len(),
{
    reveal(Seq::filter);
    if lines.len() > 0 {
        law_scan(m, lines.drop_last());
        let f = |l: Seq<char>| (classify(m, l)->0, classify(m, l)->1);
        let sub = lines.drop_last().filter(|l: Seq<char>| classify(m, l) is Keyed);
        if classify(m, lines.last()) is Keyed {
            assert(sub.push(lines.last()).map_values(f) == sub.map_values(f).push(f(lines.last())));
        }
    }
}

/// The layout of a keyed mode, given the (key, item) pairs and other lines
/// of its scan: for git status, the groups in order of first appearance and
/// then the other lines; for lint rules and grep files the same, or the input
/// unchanged where no line is keyed; for extensions and directories, the
/// groups ranked by size (then key), or the input unchanged where no line is
/// keyed.
pub proof fn law_keyed_layout(m: Layout, lines: Seq<Seq<char>>)
    ensures
        ({
            let ps = scan(m, lines).0;
            let os = scan(m, lines).1;
            let shown_groups = |gs: Seq<(Seq<char>, Seq<Seq<char>>)>| crate::text::concat(
                gs.map_values(|g: (Seq<char>, Seq<Seq<char>>)| block(m, g)),
            );
            keyed_output(m, lines) == match m {
                Layout::GitStatus => shown_groups(groups_of(ps)) + os,
                Layout::LintByRule | Layout::ByFile => if ps.len() == 0 {
                    lines
                } else {
                    shown_groups(groups_of(ps)) + os
                },
                Layout::ByExtension | Layout::ByDirectory => if ps.len() == 0 {
                    lines
                } else {
                    shown_groups(rank_sort(groups_of(ps)))
                },
            }
        }),
{
    let ps = scan(m, lines).0;
    lemma_blocks_concat(m, groups_of(ps));
    lemma_blocks_concat(m, rank_sort(groups_of(ps)));
}

/// A `git status` line is keyed by its status code and file name with no
/// surrounding whitespace, so a staged `M  f` and an unstaged ` M f` share
/// the key `M`; a blank line is skipped.
pub proof fn law_git_status_keys_trimmed(line: Seq<char>)
    ensures
        classify(Layout::GitStatus, line) is Skip <==> trim(line).len() == 0,
        classify(Layout::GitStatus, line) matches Class::Keyed(k, f) ==> trim(k) == k && trim(f) == f,
{
    if classify(Layout::GitStatus, line) is Keyed {
        let c = regex_captures(git_status_pattern(), trim(line))->0;
        lemma_trim_idempotent(text_or_empty(group_text(c, 1)));
        lemma_trim_idempotent(text_or_empty(group_text(c, 2)));
    }
}

/// A path is grouped under its parent directory: the text before its last
/// `/`, so that the key, a `/` and a rest holding no `/` make up the trimmed
/// path; a path with no `/` goes under `.`, and a blank line is skipped.
pub proof fn law_directory_key(line: Seq<char>)
    ensures
        trim(line).len() == 0 ==> classify(Layout::ByDirectory, line) is Skip,
        trim(line).len() > 0 ==> (classify(Layout::ByDirectory, line) matches Class::Keyed(k, s) && s
            == trim(line) && (if s.contains('/') {
            exists|rest: Seq<char>| k + seq!['/'] + rest == s && !rest.contains('/')
        } else {
            k == "."@
        })),
{
    let s = trim(line);
    if s.len() > 0 {
        lemma_last_index_of(s, '/');
        let i = last_index_of(s, '/');
        if i >= 0 {
            let rest = s.skip(i + 1);
            assert(s.take(i) + seq!['/'] + rest == s);
            assert(!rest.contains('/')) by {
                assert forall|j: int| 0 <= j < rest.len() implies rest[j] != '/' by {
                    assert(rest[j] == s[i + 1 + j]);
                }
            }
        } else {
            assert(!s.contains('/'));
        }
    }
}

/// Whether a line opens a failure report or is a count summary, and what the
/// pytest reader sees in it, depend only on its trimmed text: lines that
/// differ only in surrounding whitespace are taken alike, and a line is
/// taken as its trimmed text is.
pub proof fn law_failure_marks_ignore_surrounding_whitespace(a: Seq<char>, b: Seq<char>)
    ensures
        opens_failure(trim(a)) == opens_failure(a),
        is_test_summary(trim(a)) == is_test_summary(a),
        pytest_marks(trim(a)) == pytest_marks(a),
        trim(a) == trim(b) ==> opens_failure(a) == opens_failure(b) && is_test_summary(a)
            == is_test_summary(b) && pytest_marks(a) == pytest_marks(b),
{
    lemma_trim_idempotent(a);
}

/// A file is grouped under its extension: the text from the last `.` of the
/// line's last word (what follows its last whitespace) on, which starts with
/// `.`, ends the trimmed line and holds no other `.` and no whitespace; where
/// the last word has no `.`, the key is `(no ext)`. A blank line is skipped.
pub proof fn law_extension_key(line: Seq<char>)
    ensures
        trim(line).len() == 0 ==> classify(Layout::ByExtension, line) is Skip,
        trim(line).len() > 0 ==> (classify(Layout::ByExtension, line) matches Class::Keyed(k, s) && s
            == trim(line) && (if exists|i: int|
            0 <= i < s.len() && s[i] == '.' && forall|j: int| i < j < s.len() ==> !is_ws(#[trigger] s[j]) {
            &&& k.len() > 0
            &&& k[0] == '.'
            &&& s == s.take(s.len() - k.len()) + k
            &&& forall|j: int| 0 < j < k.len() ==> #[trigger] k[j] != '.' && !is_ws(k[j])
        } else {
            k == "(no ext)"@
        })),
{
    let s = trim(line);
    if s.len() > 0 {
        lemma_last_ws_index(s);
        let a = last_ws_index(s) + 1;
        let w = s.skip(a);
        lemma_last_index_of(w, '.');
        let d = last_index_of(w, '.');
        let k = extension_of(s);
        if d >= 0 {
            assert(k == w.skip(d));
            assert(s.take(s.len() - k.len()) + k == s);
            assert(k[0] == w[d]);
            assert forall|j: int| 0 < j < k.len() implies #[trigger] k[j] != '.' && !is_ws(k[j]) by {
                assert(k[j] == w[d + j]);
                assert(w[d + j] == s[a + d + j]);
            }
            assert(s[a + d] == '.' && forall|j: int| a + d < j < s.len() ==> !is_ws(#[trigger] s[j]));
        } else {
            assert forall|i: int| 0 <= i < s.len() && s[i] == '.' implies exists|j: int|
                i < j < s.len() && is_ws(#[trigger] s[j]) by {
                if i >= a {
                    assert(w[i - a] == s[i]);
                } else {
                    assert(is_ws(s[a - 1]));
                }
            }
        }
    }
}

/// A grep hit is grouped under its file: the text before the line's first
/// `:`, which holds no `:`, begins the line, and is followed by `:` where the
/// line has one.
pub proof fn law_file_key(line: Seq<char>)
    ensures
        classify(Layout::ByFile, line) matches Class::Keyed(k, l) ==> l == line && line.take(k.len() as int)
            == k && k.len() <= line.len() && !k.contains(':') && (k.len() < line.len() ==> line[k.len() as int]
            == ':'),
{
    lemma_first_index_of(line, ':');
    if classify(Layout::ByFile, line) is Keyed {
        let k = line.take(first_index_of(line, ':'));
        assert forall|j: int| 0 <= j < k.len() implies k[j] != ':' by {
            assert(k[j] == line[j]);
        }
    }
}

/// The number of items shown per group: 20 files per git status code, 5
/// lines per lint rule, 5 matches per grep file, 10 files per extension and
/// 10 paths per directory; lint and grep lines are shown trimmed.
pub proof fn law_group_limits()
    ensures
        shown(Layout::GitStatus) == 20,
        shown(Layout::LintByRule) == 5,
        shown(Layout::ByFile) == 5,
        shown(Layout::ByExtension) == 10,
        shown(Layout::ByDirectory) == 10,
        trims_items(Layout::LintByRule) && trims_items(Layout::ByFile),
        !trims_items(Layout::GitStatus) && !trims_items(Layout::ByExtension) && !trims_items(
            Layout::ByDirectory,
        ),
{
}

proof fn lemma_keep_summaries(lines: Seq<Seq<char>>)
    ensures
        keep_flagged(lines, lines.map_values(|l: Seq<char>| is_test_summary(l)), true) == lines.filter(
            |l: Seq<char>| is_test_summary(l),
        ),
    decreases lines.len(),
{
    reveal(Seq::filter);
    if lines.len() > 0 {
        lemma_keep_summaries(lines.drop_last());
        let f = |l: Seq<char>| is_test_summary(l);
        assert(lines.map_values(f).drop_last() == lines.drop_last().map_values(f));
    }
}

proof fn lemma_first_set_at(flags: Seq<bool>, k: int)
    requires
        0 <= k <= flags.len(),
        k < flags.len() ==> flags[k],
        forall|j: int| 0 <= j < k ==> !#[trigger] flags[j],
    ensures
        first_set(flags) == k,
    decreases flags.len(),
{
    if flags.len() > 0 && k > 0 {
        let t = flags.drop_first();
        assert forall|j: int| 0 <= j < k - 1 implies !#[trigger] t[j] by {
            assert(t[j] == flags[j + 1]);
        }
        assert(!flags[0]);
        if k < flags.len() {
            assert(t[k - 1] == flags[k]);
        }
        lemma_first_set_at(t, k - 1);
    }
}

/// The test-failure report: where line `k` is the first whose trimmed text
/// opens a failure report, it is every line from `k` on; where no line does,
/// it is the lines whose trimmed text is a count summary, or, where there
/// are none, the single line `All tests passed.`. It is never empty.
pub proof fn law_test_failures_layout(lines: Seq<Seq<char>>, k: int)
    requires
        0 <= k <= lines.len(),
        k < lines.len() ==> opens_failure(lines[k]),
        forall|j: int| 0 <= j < k ==> !opens_failure(#[trigger] lines[j]),
    ensures
        ({
            let out = test_failures_output(lines);
            let summaries = lines.filter(|l: Seq<char>| is_test_summary(l));
            &&& k < lines.len() ==> out == lines.skip(k)
            &&& k == lines.len() ==> out == if summaries.len() > 0 {
                summaries
            } else {
                seq!["All tests passed.\n"@]
            }
            &&& out.len() > 0
        }),
{
    let opens = lines.map_values(|l: Seq<char>| opens_failure(l));
    assert forall|j: int| 0 <= j < k implies !#[trigger] opens[j] by {
        assert(!opens_failure(lines[j]));
    }
    lemma_first_set_at(opens, k);
    lemma_keep_summaries(lines);
}

/// The errors/warnings layout: where some line mentions an error or a
/// warning, the lines mentioning an error (counted, at most 20 shown, the
/// rest counted), then the other lines mentioning a warning (counted, at
/// most 10 shown, the rest counted), then the last 3 of the remaining lines;
/// each group in input order. Every line falls in exactly one group.
pub proof fn law_errors_warnings_layout(lines: Seq<Seq<char>>)
    ensures
        ({
            let e = lines.filter(|l: Seq<char>| is_error_line(l));
            let w = lines.filter(|l: Seq<char>| is_warning_line(l));
            let o = lines.filter(|l: Seq<char>| is_plain_line(l));
            &&& e.len() + w.len() + o.len() == lines.len()
            &&& e.len() == 0 && w.len() == 0 ==> errors_warnings_output(lines) == lines
            &&& e.len() > 0 || w.len() > 0 ==> errors_warnings_output(lines) == (if e.len() > 0 {
                seq!["Errors ("@ + decimal(e.len()) + "):\n"@] + e.take(
                    if e.len() > 20 { 20int } else { e.len() as int },
                ) + if e.len() > 20 {
                    seq!["  [... and "@ + decimal((e.len() - 20) as nat) + " more errors]\n"@]
                } else {
                    Seq::empty()
                }
            } else {
                Seq::empty()
            }) + (if w.len() > 0 {
                seq!["\nWarnings ("@ + decimal(w.len()) + "):\n"@] + w.take(
                    if w.len() > 10 { 10int } else { w.len() as int },
                ) + if w.len() > 10 {
                    seq!["  [... and "@ + decimal((w.len() - 10) as nat) + " more warnings]\n"@]
                } else {
                    Seq::empty()
                }
            } else {
                Seq::empty()
            }) + o.skip(if o.len() > 3 { o.len() - 3 } else { 0 })
        }),
{
    lemma_select_filter(lines, |l: Seq<char>| is_error_line(l));
    lemma_select_filter(lines, |l: Seq<char>| is_warning_line(l));
    lemma_select_filter(lines, |l: Seq<char>| is_plain_line(l));
    lemma_three_way(lines);
    let e = lines.filter(|l: Seq<char>| is_error_line(l));
    let w = lines.filter(|l: Seq<char>| is_warning_line(l));
    let o = lines.filter(|l: Seq<char>| is_plain_line(l));
    if e.len() <= 20 {
        assert(e.take(e.len() as int) == e);
    }
    if w.len() <= 10 {
        assert(w.take(w.len() as int) == w);
    }
    if o.len() <= 3 {
        assert(o.skip(0) == o);
    }
}

proof fn lemma_select_filter(lines: Seq<Seq<char>>, p: spec_fn(Seq<char>) -> bool)
    ensures
        select(lines, p) == lines.filter(p),
    decreases lines.len(),
{
    reveal(Seq::filter);
    if lines.len() > 0 {
        lemma_select_filter(lines.drop_last(), p);
    }
}

proof fn lemma_three_way(lines: Seq<Seq<char>>)
    ensures
        lines.filter(|l: Seq<char>| is_error_line(l)).len() + lines.filter(
            |l: Seq<char>| is_warning_line(l),
        ).len() + lines.filter(|l: Seq<char>| is_plain_line(l)).len() == lines.len(),
    decreases lines.len(),
{
    reveal(Seq::filter);
    if lines.len() > 0 {
        lemma_three_way(lines.drop_last());
    }
}

/// A mode that is none of the known ones leaves the lines as they are.
pub proof fn law_unknown_mode_is_identity(lines: Seq<Seq<char>>, mode: Seq<char>)
    requires
        mode != "git_status"@,
        mode != "pytest_failures"@,
        mode != "test_failures"@,
        mode != "lint_by_rule"@,
        mode != "by_extension"@,
        mode != "by_directory"@,
        mode != "by_file"@,
        mode != "errors_warnings"@,
    ensures
        grouped(lines, mode) == lines,
{
}

proof fn lemma_listed_len(m: Layout, items: Seq<Seq<char>>)
    ensures
        listed(m, items).len() == if items.len() > shown(m) {
            shown(m) as int
        } else {
            items.len() as int
        },
    decreases items.len(),
{
    if items.len() > shown(m) {
        lemma_listed_len(m, items.take(shown(m) as int));
    } else if items.len() > 0 {
        lemma_listed_len(m, items.drop_last());
    }
}

/// A group is shown in at most its head line, the mode's number of items
/// (20 for git status, 5 for lint rules and grep files, 10 for extensions
/// and directories) and one line counting the rest.
pub proof fn law_block_size(m: Layout, g: (Seq<char>, Seq<Seq<char>>))
    ensures
        block(m, g).len() <= shown(m) + 2,
        g.1.len() <= shown(m) ==> block(m, g).len() == g.1.len() + 1,
{
    lemma_listed_len(m, g.1);
}

} // verus!
