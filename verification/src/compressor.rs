//! Pipeline matching, step orchestration and the compression thresholds.
use vstd::prelude::*;
use crate::config::{copy_steps, sorted_names, step_views, Config, Entries, Step, StepSpec};
use crate::pattern::{accepts, compile, is_match, regex_compiles, regex_is_match, Pattern};
use crate::primitives::dedup::{dedup, dedup_lines};
use crate::primitives::filter::{filter_lines, keep_unmatched};
use crate::primitives::group::{group_lines, grouped};
use crate::primitives::truncate::{head_tail, omission_marker, truncate, truncate_lines};
use crate::text::{
    char_views, concat, from_chars, lemma_lex_lt_asym, lex_lt, lines_of, push_chars, push_str, trim,
    trim_str, views,
};

verus! {

/// The outcome of compressing a command's output.
pub struct CompressionResult {
    pub compressed: String,
    pub original_chars: usize,
    pub compressed_chars: usize,
    pub strategy_name: String,
}

/// What one step does to the lines.
pub open spec fn apply_step(lines: Seq<Seq<char>>, step: StepSpec) -> Seq<Seq<char>> {
    match step {
        StepSpec::FilterLines(patterns) => keep_unmatched(lines, patterns),
        StepSpec::GroupLines(mode) => grouped(lines, mode),
        StepSpec::Truncate(head, tail, per_file_lines, file_marker) => truncate_lines(
            lines,
            head,
            tail,
            per_file_lines,
            file_marker,
        ),
        StepSpec::Dedup => dedup_lines(lines),
    }
}

/// The steps applied in order.
pub open spec fn apply_all(lines: Seq<Seq<char>>, steps: Seq<StepSpec>) -> Seq<Seq<char>>
    decreases steps.len(),
{
    if steps.len() == 0 {
        lines
    } else {
        apply_step(apply_all(lines, steps.drop_last()), steps.last())
    }
}

/// Applies the steps in order, each to what the previous one returned.
pub fn apply_steps(lines: Vec<String>, steps: &[Step]) -> (r: Vec<String>)
    ensures
        views(r@) == apply_all(views(lines@), step_views(steps@)),
{
    let ghost start = views(lines@);
    let ghost sv = step_views(steps@);
    let mut lines = lines;
    let mut i: usize = 0;
    while i < steps.len()
        invariant
            i <= steps.len(),
            sv == step_views(steps@),
            views(lines@) == apply_all(start, sv.take(i as int)),
        decreases steps.len() - i,
    {
        assert(sv.take(i + 1).drop_last() == sv.take(i as int));
        assert(sv.take(i + 1).last() == steps@[i as int]@);
        lines = match &steps[i] {
            Step::FilterLines(args) => filter_lines(lines, args.patterns.as_slice()),
            Step::GroupLines(args) => group_lines(lines, args.mode.as_str()),
            Step::Truncate(args) => truncate(
                lines,
                args.head,
                args.tail,
                args.per_file_lines,
                args.file_marker.as_str(),
            ),
            Step::Dedup(_) => dedup(lines),
        };
        i += 1;
    }
    assert(sv.take(steps.len() as int) == sv);
    lines
}

/// A compressor as a value: its pipelines (name, command pattern, steps) in
/// the order they are tried, the fallback steps, the excluded command
/// patterns, and the two thresholds.
pub struct CompressorSpec {
    pub pipelines: Seq<(Seq<char>, Seq<char>, Seq<StepSpec>)>,
    pub fallback: Seq<StepSpec>,
    pub excluded: Seq<Seq<char>>,
    pub min_length: nat,
    pub max_lines: nat,
}

struct CompiledPipeline {
    name: String,
    regex: Pattern,
    steps: Vec<Step>,
}

/// Compresses command output with the pipelines of a configuration.
pub struct Compressor {
    pipelines: Vec<CompiledPipeline>,
    fallback_steps: Vec<Step>,
    excluded: Vec<Pattern>,
    min_length: usize,
    max_lines: usize,
}

impl View for Compressor {
    type V = CompressorSpec;

    closed spec fn view(&self) -> CompressorSpec {
        CompressorSpec {
            pipelines: self.pipelines@.map_values(
                |p: CompiledPipeline| (p.name@, p.regex.source(), step_views(p.steps@)),
            ),
            fallback: step_views(self.fallback_steps@),
            excluded: self.excluded@.map_values(|p: Pattern| p.source()),
            min_length: self.min_length as nat,
            max_lines: self.max_lines as nat,
        }
    }
}

/// The pipelines of a configuration whose command pattern compiles, in name
/// order.
pub open spec fn compiling_pipelines(es: Entries) -> Seq<(Seq<char>, Seq<char>, Seq<StepSpec>)>
    decreases es.len(),
{
    if es.len() == 0 {
        Seq::empty()
    } else {
        let r = compiling_pipelines(es.drop_last());
        let e = es.last();
        if regex_compiles(e.1.match_pattern) {
            r.push((e.0, e.1.match_pattern, e.1.steps))
        } else {
            r
        }
    }
}

/// The patterns that compile, in order.
pub open spec fn compiling(ps: Seq<Seq<char>>) -> Seq<Seq<char>>
    decreases ps.len(),
{
    if ps.len() == 0 {
        Seq::empty()
    } else if regex_compiles(ps.last()) {
        compiling(ps.drop_last()).push(ps.last())
    } else {
        compiling(ps.drop_last())
    }
}

/// The compressor a configuration gives.
pub open spec fn compressor_of(config: Config) -> CompressorSpec {
    CompressorSpec {
        pipelines: compiling_pipelines(config.pipelines@),
        fallback: step_views(config.fallback.steps@),
        excluded: compiling(views(config.excluded_commands@)),
        min_length: config.settings.min_output_length as nat,
        max_lines: config.settings.max_compressed_lines as nat,
    }
}

/// The index of the first pipeline whose pattern matches `command`, or the
/// number of pipelines.
pub open spec fn first_match(ps: Seq<(Seq<char>, Seq<char>, Seq<StepSpec>)>, command: Seq<char>) -> int
    decreases ps.len(),
{
    if ps.len() == 0 {
        0
    } else if regex_is_match(ps[0].1, command) {
        0
    } else {
        1 + first_match(ps.drop_first(), command)
    }
}

/// Whether an excluded pattern matches `command`.
pub open spec fn is_excluded(c: CompressorSpec, command: Seq<char>) -> bool {
    exists|k: int| 0 <= k < c.excluded.len() && regex_is_match(#[trigger] c.excluded[k], command)
}

/// Each line with its newline put back.
pub open spec fn with_newlines(ls: Seq<Seq<char>>) -> Seq<Seq<char>> {
    ls.map_values(|l: Seq<char>| l + "\n"@)
}

/// The strategy that handles `command`: the first matching pipeline's name,
/// or `fallback`.
pub open spec fn strategy_of(c: CompressorSpec, command: Seq<char>) -> Seq<char> {
    let i = first_match(c.pipelines, command);
    if i < c.pipelines.len() {
        c.pipelines[i].0
    } else {
        "fallback"@
    }
}

/// The lines after the matching pipeline, or the fallback steps where no
/// pipeline matches.
pub open spec fn stepped_lines(c: CompressorSpec, command: Seq<char>, output: Seq<char>) -> Seq<Seq<char>> {
    let lines = with_newlines(lines_of(output));
    let i = first_match(c.pipelines, command);
    if i < c.pipelines.len() {
        apply_all(lines, c.pipelines[i].2)
    } else {
        apply_all(lines, c.fallback)
    }
}

/// The line cap: more than `max_lines` lines (where `max_lines` is positive)
/// are cut to the first 3/5 of `max_lines` and the rest at the end, around an
/// omission marker.
pub open spec fn capped(lines: Seq<Seq<char>>, max_lines: nat) -> Seq<Seq<char>> {
    if max_lines > 0 && lines.len() > max_lines {
        let cap_head = max_lines * 3 / 5;
        head_tail(lines, cap_head, (max_lines - cap_head) as nat)
    } else {
        lines
    }
}

/// The lines after the matching pipeline (or the fallback) and the line cap.
pub open spec fn processed_lines(c: CompressorSpec, command: Seq<char>, output: Seq<char>) -> Seq<Seq<char>> {
    capped(stepped_lines(c, command, output), c.max_lines)
}

/// The size of a text in UTF-8 bytes as `str::len` reports it (a text held
/// in memory never has more than `usize::MAX` bytes).
pub open spec fn byte_len(s: Seq<char>) -> nat {
    (vstd::utf8::encode_utf8(s).len() as usize) as nat
}

/// The outcome once the steps have run over `output` and given `stepped`
/// under the strategy `strategy`: the lines are capped at `max_lines` and
/// joined; the original is kept when that leaves nothing but whitespace or
/// does not save at least 5% of its bytes (more than 95% of them remain).
pub open spec fn settle_outcome(output: Seq<char>, stepped: Seq<Seq<char>>, strategy: Seq<char>, max_lines: nat) -> (
    Seq<char>,
    nat,
    nat,
    Seq<char>,
) {
    let original = byte_len(output);
    let compressed = concat(capped(stepped, max_lines));
    if trim(compressed).len() == 0 {
        (output, original, original, "passthrough"@)
    } else if 100 * byte_len(compressed) > 95 * original {
        (output, original, original, "passthrough"@)
    } else {
        (compressed, original, byte_len(compressed), strategy)
    }
}

/// The outcome of compressing `output` of `command`: the text, the original
/// and compressed sizes in bytes, and the strategy name. The output is passed
/// through unchanged when it has fewer than `min_length` characters, when the
/// command is excluded, when compression leaves nothing but whitespace, or
/// when it does not save at least 5% of the bytes.
pub open spec fn compress_outcome(c: CompressorSpec, command: Seq<char>, output: Seq<char>) -> (
    Seq<char>,
    nat,
    nat,
    Seq<char>,
) {
    let original = byte_len(output);
    if output.len() < c.min_length {
        (output, original, original, "passthrough"@)
    } else if is_excluded(c, command) {
        (output, original, original, "excluded"@)
    } else {
        settle_outcome(output, stepped_lines(c, command, output), strategy_of(c, command), c.max_lines)
    }
}

proof fn lemma_scaled(o: nat, num: nat, den: nat)
    requires
        den > 0,
        num < den,
    ensures
        (o / den) * num + (o % den) * num / den == o * num / den,
{
    let q = o / den;
    let r = o % den;
    assert(o == den * q + r) by (nonlinear_arith)
        requires
            den > 0,
            q == o / den,
            r == o % den,
    ;
    assert(o * num == den * (q * num) + r * num) by (nonlinear_arith)
        requires
            o == den * q + r,
    ;
    assert(r * num < den * den) by (nonlinear_arith)
        requires
            r < den,
            num < den,
    ;
    assert((den * (q * num) + r * num) / den == q * num + (r * num) / den) by (nonlinear_arith)
        requires
            den > 0,
    ;
}

fn pass_through(output: &str, strategy: &str) -> (r: CompressionResult)
    ensures
        r.compressed@ == output@,
        r.original_chars == byte_len(output@),
        r.compressed_chars == byte_len(output@),
        r.strategy_name@ == strategy@,
{
    CompressionResult {
        compressed: String::from_str(output),
        original_chars: output.len(),
        compressed_chars: output.len(),
        strategy_name: String::from_str(strategy),
    }
}

fn join_lines(lines: &Vec<String>) -> (r: String)
    ensures
        r@ == concat(views(lines@)),
{
    let ghost ls = views(lines@);
    let mut out: Vec<char> = Vec::new();
    let mut i: usize = 0;
    while i < lines.len()
        invariant
            i <= lines.len(),
            ls == views(lines@),
            out@ == concat(ls.take(i as int)),
        decreases lines.len() - i,
    {
        assert(ls.take(i + 1).drop_last() == ls.take(i as int));
        assert(ls.take(i + 1).last() == lines@[i as int]@);
        push_str(&mut out, lines[i].as_str());
        i += 1;
    }
    assert(ls.take(lines.len() as int) == ls);
    from_chars(out.as_slice())
}

fn lines_with_newlines(output: &str) -> (r: Vec<String>)
    ensures
        views(r@) == with_newlines(lines_of(output@)),
{
    let raw = crate::text::split_lines(output);
    let ghost rv = char_views(raw@);
    let mut r: Vec<String> = Vec::new();
    let mut i: usize = 0;
    while i < raw.len()
        invariant
            i <= raw.len(),
            rv == char_views(raw@),
            views(r@) == with_newlines(rv.take(i as int)),
        decreases raw.len() - i,
    {
        let mut l: Vec<char> = Vec::new();
        push_chars(&mut l, &raw[i]);
        push_str(&mut l, "\n");
        let ghost before = views(r@);
        r.push(from_chars(l.as_slice()));
        assert(views(r@) == before.push(rv[i as int] + "\n"@));
        assert(with_newlines(rv.take(i + 1)) == with_newlines(rv.take(i as int)).push(
            rv[i as int] + "\n"@,
        ));
        i += 1;
    }
    assert(rv.take(raw.len() as int) == rv);
    r
}

/// Finishes a compression once the steps have run over `output`: caps
/// `stepped` at `max_lines` lines, joins them, and keeps the original where
/// the result is blank or does not save at least 5% of its bytes.
pub fn finish_compression(output: &str, stepped: Vec<String>, strategy_name: String, max_lines: usize) -> (r: CompressionResult)
    ensures
        (r.compressed@, r.original_chars as nat, r.compressed_chars as nat, r.strategy_name@)
            == settle_outcome(output@, views(stepped@), strategy_name@, max_lines as nat),
{
    let original_chars = output.len();
    let mut lines = stepped;
    if max_lines > 0 && lines.len() > max_lines {
        let m = max_lines;
        let cap_head = (m / 5) * 3 + (m % 5) * 3 / 5;
        proof {
            lemma_scaled(m as nat, 3, 5);
        }
        let cap_tail = m - cap_head;
        lines = truncate(lines, cap_head, cap_tail, 0, "");
    }
    let compressed = join_lines(&lines);
    let compressed_chars = compressed.as_str().len();
    let trimmed = trim_str(compressed.as_str());
    if trimmed.len() == 0 {
        return pass_through(output, "passthrough");
    }
    if (compressed_chars as u128) * 100 > (original_chars as u128) * 95 {
        return pass_through(output, "passthrough");
    }
    CompressionResult { compressed, original_chars, compressed_chars, strategy_name }
}

impl Compressor {
    /// Compiles the pipelines and excluded commands of `config`; those whose
    /// pattern does not compile are left out.
    pub fn new(config: &Config) -> (r: Self)
        ensures
            r@ == compressor_of(*config),
    {
        let ghost es = config.pipelines@;
        let mut pipelines: Vec<CompiledPipeline> = Vec::new();
        let mut i: usize = 0;
        while i < config.pipelines.len()
            invariant
                i <= es.len(),
                es == config.pipelines@,
                pipelines@.map_values(
                    |p: CompiledPipeline| (p.name@, p.regex.source(), step_views(p.steps@)),
                ) == compiling_pipelines(es.take(i as int)),
            decreases es.len() - i,
        {
            assert(es.take(i + 1).drop_last() == es.take(i as int));
            assert(es.take(i + 1).last() == es[i as int]);
            let name = config.pipelines.name_at(i);
            let p = config.pipelines.pipeline_at(i);
            let ghost before = pipelines@.map_values(
                |p: CompiledPipeline| (p.name@, p.regex.source(), step_views(p.steps@)),
            );
            match compile(p.match_pattern.as_str()) {
                Some(regex) => {
                    let cp = CompiledPipeline { name: name.clone(), regex, steps: copy_steps(&p.steps) };
                    pipelines.push(cp);
                    assert(pipelines@.map_values(
                        |p: CompiledPipeline| (p.name@, p.regex.source(), step_views(p.steps@)),
                    ) == before.push((es[i as int].0, es[i as int].1.match_pattern, es[i as int].1.steps)));
                },
                None => {
                    assert(pipelines@.map_values(
                        |p: CompiledPipeline| (p.name@, p.regex.source(), step_views(p.steps@)),
                    ) == before);
                },
            }
            i += 1;
        }
        assert(es.take(es.len() as int) == es);
        let ghost xs = views(config.excluded_commands@);
        let mut excluded: Vec<Pattern> = Vec::new();
        let mut k: usize = 0;
        while k < config.excluded_commands.len()
            invariant
                k <= xs.len(),
                xs == views(config.excluded_commands@),
                excluded@.map_values(|p: Pattern| p.source()) == compiling(xs.take(k as int)),
            decreases xs.len() - k,
        {
            assert(xs.take(k + 1).drop_last() == xs.take(k as int));
            assert(xs.take(k + 1).last() == xs[k as int]);
            let ghost before = excluded@.map_values(|p: Pattern| p.source());
            match compile(config.excluded_commands[k].as_str()) {
                Some(p) => {
                    excluded.push(p);
                    assert(excluded@.map_values(|p: Pattern| p.source()) == before.push(xs[k as int]));
                },
                None => {
                    assert(excluded@.map_values(|p: Pattern| p.source()) == before);
                },
            }
            k += 1;
        }
        assert(xs.take(xs.len() as int) == xs);
        Compressor {
            pipelines,
            fallback_steps: copy_steps(&config.fallback.steps),
            excluded,
            min_length: config.settings.min_output_length,
            max_lines: config.settings.max_compressed_lines,
        }
    }

    fn is_excluded_command(&self, command: &str) -> (r: bool)
        ensures
            r == is_excluded(self@, command@),
    {
        let ghost xs = self@.excluded;
        let mut k: usize = 0;
        while k < self.excluded.len()
            invariant
                k <= self.excluded@.len(),
                xs == self@.excluded,
                xs.len() == self.excluded@.len(),
                forall|j: int| 0 <= j < k ==> !regex_is_match(#[trigger] xs[j], command@),
            decreases self.excluded@.len() - k,
        {
            assert(xs[k as int] == self.excluded@[k as int].source());
            if is_match(&self.excluded[k], command) {
                return true;
            }
            k += 1;
        }
        false
    }

    fn matching_pipeline(&self, command: &str) -> (r: usize)
        ensures
            r == first_match(self@.pipelines, command@),
            r <= self@.pipelines.len(),
    {
        let ghost ps = self@.pipelines;
        let mut i: usize = 0;
        assert(ps.skip(0) == ps);
        while i < self.pipelines.len()
            invariant
                i <= self.pipelines@.len(),
                ps == self@.pipelines,
                ps.len() == self.pipelines@.len(),
                first_match(ps, command@) == i + first_match(ps.skip(i as int), command@),
            decreases self.pipelines@.len() - i,
        {
            assert(ps[i as int].1 == self.pipelines@[i as int].regex.source());
            assert(ps.skip(i as int)[0] == ps[i as int]);
            if is_match(&self.pipelines[i].regex, command) {
                return i;
            }
            assert(ps.skip(i as int).drop_first() == ps.skip(i + 1));
            i += 1;
        }
        i
    }

    /// Compresses `output` of `command`: the first pipeline whose pattern
    /// matches the command (else the fallback steps) runs over the lines, the
    /// result is capped at `max_compressed_lines`, and the original is kept
    /// where the output has fewer than `min_output_length` characters, the
    /// command is excluded, the result is blank, or the saving is under 5%.
    pub fn compress(&self, command: &str, output: &str) -> (r: CompressionResult)
        ensures
            (r.compressed@, r.original_chars as nat, r.compressed_chars as nat, r.strategy_name@)
                == compress_outcome(self@, command@, output@),
    {
        if output.unicode_len() < self.min_length {
            return pass_through(output, "passthrough");
        }
        if self.is_excluded_command(command) {
            return pass_through(output, "excluded");
        }
        let ghost c = self@;
        let lines = lines_with_newlines(output);
        let i = self.matching_pipeline(command);
        let (lines, strategy_name) = if i < self.pipelines.len() {
            assert(c.pipelines[i as int].2 == step_views(self.pipelines@[i as int].steps@));
            (apply_steps(lines, self.pipelines[i].steps.as_slice()), self.pipelines[i].name.clone())
        } else {
            (apply_steps(lines, self.fallback_steps.as_slice()), String::from_str("fallback"))
        };
        assert(strategy_name@ == strategy_of(c, command@));
        assert(views(lines@) == stepped_lines(c, command@, output@));
        finish_compression(output, lines, strategy_name, self.max_lines)
    }
}

/// Steps run in sequence: running `first` and then `then` is running their
/// concatenation.
pub proof fn law_steps_compose(lines: Seq<Seq<char>>, first: Seq<StepSpec>, then: Seq<StepSpec>)
    ensures
        apply_all(lines, first + then) == apply_all(apply_all(lines, first), then),
    decreases then.len(),
{
    if then.len() == 0 {
        assert(first + then == first);
    } else {
        law_steps_compose(lines, first, then.drop_last());
        assert((first + then).drop_last() == first + then.drop_last());
        assert((first + then).last() == then.last());
    }
}

/// The first pipeline whose pattern matches the command wins: where pipeline
/// `i` matches and none before it does, `i` is the one chosen; where none
/// matches, the fallback is.
pub proof fn law_first_match_wins(ps: Seq<(Seq<char>, Seq<char>, Seq<StepSpec>)>, command: Seq<char>, i: int)
    requires
        0 <= i <= ps.len(),
        i < ps.len() ==> regex_is_match(ps[i].1, command),
        forall|j: int| 0 <= j < i ==> !regex_is_match(#[trigger] ps[j].1, command),
    ensures
        first_match(ps, command) == i,
    decreases ps.len(),
{
    if ps.len() > 0 && i > 0 {
        let t = ps.drop_first();
        assert forall|j: int| 0 <= j < i - 1 implies !regex_is_match(#[trigger] t[j].1, command) by {
            assert(t[j] == ps[j + 1]);
        }
        assert(!regex_is_match(ps[0].1, command));
        if i < ps.len() {
            assert(t[i - 1] == ps[i]);
        }
        law_first_match_wins(t, command, i - 1);
    }
}

proof fn lemma_first_match_range(ps: Seq<(Seq<char>, Seq<char>, Seq<StepSpec>)>, command: Seq<char>)
    ensures
        0 <= first_match(ps, command) <= ps.len(),
    decreases ps.len(),
{
    if ps.len() > 0 {
        lemma_first_match_range(ps.drop_first(), command);
    }
}

proof fn lemma_encoded_nonempty(s: Seq<char>)
    requires
        s.len() > 0,
    ensures
        vstd::utf8::encode_utf8(s).len() > 0,
{
    let e = vstd::utf8::encode_scalar(s[0] as u32);
    assert(e.len() > 0);
    assert(vstd::utf8::encode_utf8(s) == e + vstd::utf8::encode_utf8(s.drop_first()));
}

/// The sizes are byte counts of the texts reported, and the output comes back
/// unchanged exactly when the strategy reported is `passthrough` or
/// `excluded` (where no pipeline bears one of those names, and the output's
/// UTF-8 size fits in a `usize`).
pub proof fn law_unchanged_iff_passed_through(c: CompressorSpec, command: Seq<char>, output: Seq<char>)
    requires
        vstd::utf8::encode_utf8(output).len() <= usize::MAX,
        forall|k: int|
            0 <= k < c.pipelines.len() ==> (#[trigger] c.pipelines[k]).0 != "passthrough"@
                && c.pipelines[k].0 != "excluded"@,
    ensures
        ({
            let o = compress_outcome(c, command, output);
            &&& o.1 == byte_len(output)
            &&& o.2 == byte_len(o.0)
            &&& (o.0 == output <==> (o.3 == "passthrough"@ || o.3 == "excluded"@))
        }),
{
    reveal_strlit("passthrough");
    reveal_strlit("excluded");
    reveal_strlit("fallback");
    assert("fallback"@[0] != "passthrough"@[0]);
    assert("fallback"@[0] != "excluded"@[0]);
    let o = compress_outcome(c, command, output);
    if !(output.len() < c.min_length) && !is_excluded(c, command) {
        let compressed = concat(processed_lines(c, command, output));
        let i = first_match(c.pipelines, command);
        lemma_first_match_range(c.pipelines, command);
        if i < c.pipelines.len() {
            assert(c.pipelines[i].0 != "passthrough"@ && c.pipelines[i].0 != "excluded"@);
        }
        if trim(compressed).len() != 0 && !(100 * byte_len(compressed) > 95 * byte_len(output)) {
            if compressed == output {
                assert(compressed.len() > 0);
                lemma_encoded_nonempty(output);
                assert(byte_len(output) > 0);
            }
        }
    }
}

/// An entry as the compressor holds it: name, command pattern, steps.
pub open spec fn entry_triple(e: (Seq<char>, crate::config::PipelineSpec)) -> (Seq<char>, Seq<char>, Seq<StepSpec>) {
    (e.0, e.1.match_pattern, e.1.steps)
}

proof fn lemma_compiling_prefix(es: Entries, k: int)
    requires
        0 <= k <= es.len(),
    ensures
        compiling_pipelines(es.take(k)).len() <= compiling_pipelines(es).len(),
        compiling_pipelines(es).take(compiling_pipelines(es.take(k)).len() as int)
            == compiling_pipelines(es.take(k)),
    decreases es.len(),
{
    if k == es.len() {
        assert(es.take(k) == es);
    } else {
        let d = es.drop_last();
        assert(d.take(k) == es.take(k));
        lemma_compiling_prefix(d, k);
        let m = compiling_pipelines(es.take(k)).len() as int;
        let r = compiling_pipelines(d);
        if regex_compiles(es.last().1.match_pattern) {
            assert(r.push(entry_triple(es.last())).take(m) == r.take(m));
        }
    }
}

proof fn lemma_compiling_from(es: Entries)
    ensures
        forall|t: int|
            0 <= t < compiling_pipelines(es).len() ==> exists|j: int|
                0 <= j < es.len() && #[trigger] compiling_pipelines(es)[t] == entry_triple(es[j])
                    && regex_compiles(es[j].1.match_pattern),
    decreases es.len(),
{
    if es.len() > 0 {
        let d = es.drop_last();
        lemma_compiling_from(d);
        let r = compiling_pipelines(d);
        assert forall|t: int| 0 <= t < compiling_pipelines(es).len() implies exists|j: int|
            0 <= j < es.len() && #[trigger] compiling_pipelines(es)[t] == entry_triple(es[j])
                && regex_compiles(es[j].1.match_pattern) by {
            if t < r.len() {
                let j = choose|j: int|
                    0 <= j < d.len() && r[t] == entry_triple(d[j]) && regex_compiles(d[j].1.match_pattern);
                assert(d[j] == es[j]);
            } else {
                assert(compiling_pipelines(es)[t] == entry_triple(es[es.len() - 1]));
            }
        }
    }
}

/// With the pipelines in name order, the pipeline chosen for a command is the
/// one of least name among those whose pattern compiles and matches; where
/// none does, the fallback is chosen.
pub proof fn law_least_matching_name(es: Entries, command: Seq<char>, k: int)
    requires
        sorted_names(es),
        0 <= k <= es.len(),
        k < es.len() ==> accepts(es[k].1.match_pattern, command),
        forall|j: int| 0 <= j < k ==> !accepts(#[trigger] es[j].1.match_pattern, command),
    ensures
        ({
            let ps = compiling_pipelines(es);
            let i = first_match(ps, command);
            &&& k == es.len() ==> i == ps.len()
            &&& k < es.len() ==> {
                &&& i < ps.len()
                &&& ps[i] == entry_triple(es[k])
                &&& forall|j: int|
                    0 <= j < es.len() && accepts(#[trigger] es[j].1.match_pattern, command)
                        ==> !lex_lt(es[j].0, es[k].0)
            }
        }),
{
    let ps = compiling_pipelines(es);
    let pre = compiling_pipelines(es.take(k));
    let m = pre.len() as int;
    lemma_compiling_prefix(es, k);
    lemma_compiling_from(es.take(k));
    assert forall|t: int| 0 <= t < m implies !regex_is_match(#[trigger] ps[t].1, command) by {
        assert(ps[t] == ps.take(m)[t]);
        let j = choose|j: int|
            0 <= j < es.take(k).len() && pre[t] == entry_triple(es.take(k)[j]) && regex_compiles(
                es.take(k)[j].1.match_pattern,
            );
        assert(es.take(k)[j] == es[j]);
        assert(!accepts(es[j].1.match_pattern, command));
    }
    if k == es.len() {
        assert(es.take(k) == es);
        law_first_match_wins(ps, command, m);
    } else {
        lemma_compiling_prefix(es, k + 1);
        assert(es.take(k + 1).drop_last() == es.take(k));
        assert(es.take(k + 1).last() == es[k]);
        let pre1 = compiling_pipelines(es.take(k + 1));
        assert(pre1 == pre.push(entry_triple(es[k])));
        assert(ps[m] == ps.take(m + 1)[m]);
        law_first_match_wins(ps, command, m);
        assert forall|j: int|
            0 <= j < es.len() && accepts(#[trigger] es[j].1.match_pattern, command) implies !lex_lt(
            es[j].0,
            es[k].0,
        ) by {
            lemma_lex_lt_asym(es[k].0, es[j].0);
        }
    }
}

proof fn lemma_compiling_filter(ps: Seq<Seq<char>>)
    ensures
        compiling(ps) == ps.filter(|p: Seq<char>| regex_compiles(p)),
    decreases ps.len(),
{
    reveal(Seq::filter);
    if ps.len() > 0 {
        lemma_compiling_filter(ps.drop_last());
    }
}

/// A compressor excludes every configured excluded command whose pattern
/// compiles, all of them in order: its excluded patterns are those, and a
/// command is excluded exactly when one of the configured patterns compiles
/// and matches it.
pub proof fn law_excluded_exactly(config: Config, command: Seq<char>)
    ensures
        compressor_of(config).excluded == views(config.excluded_commands@).filter(
            |p: Seq<char>| regex_compiles(p),
        ),
        is_excluded(compressor_of(config), command) <==> exists|k: int|
            0 <= k < config.excluded_commands@.len() && accepts(
                #[trigger] views(config.excluded_commands@)[k],
                command,
            ),
{
    let xs = views(config.excluded_commands@);
    let f = |p: Seq<char>| regex_compiles(p);
    lemma_compiling_filter(xs);
    let c = compressor_of(config);
    broadcast use vstd::seq_lib::group_filter_ensures;
    if is_excluded(c, command) {
        let k = choose|k: int| 0 <= k < c.excluded.len() && regex_is_match(#[trigger] c.excluded[k], command);
        assert(xs.filter(f)[k] == c.excluded[k]);
        assert(xs.filter(f).contains(c.excluded[k]));
        xs.lemma_filter_contains_rev(f, c.excluded[k]);
        assert(f(xs.filter(f)[k]));
        let j = choose|j: int| 0 <= j < xs.len() && xs[j] == c.excluded[k];
        assert(accepts(xs[j], command));
    }
    if exists|k: int| 0 <= k < xs.len() && accepts(#[trigger] xs[k], command) {
        let k = choose|k: int| 0 <= k < xs.len() && accepts(#[trigger] xs[k], command);
        assert(xs.filter(f).contains(xs[k]));
        let t = choose|t: int| 0 <= t < c.excluded.len() && c.excluded[t] == xs[k];
        assert(regex_is_match(c.excluded[t], command));
    }
}

/// Output of fewer than `min_output_length` characters is never compressed.
pub proof fn law_short_output_passes_through(c: CompressorSpec, command: Seq<char>, output: Seq<char>)
    requires
        output.len() < c.min_length,
    ensures
        compress_outcome(c, command, output) == (
            output,
            byte_len(output),
            byte_len(output),
            "passthrough"@,
        ),
{
}

/// The output of an excluded command is never compressed: it comes back
/// unchanged, under `excluded` once it is not too short to be considered,
/// whatever pipelines match.
pub proof fn law_excluded_passes_through(c: CompressorSpec, command: Seq<char>, output: Seq<char>)
    requires
        is_excluded(c, command),
    ensures
        compress_outcome(c, command, output).0 == output,
        compress_outcome(c, command, output).2 == byte_len(output),
        output.len() >= c.min_length ==> compress_outcome(c, command, output) == (
            output,
            byte_len(output),
            byte_len(output),
            "excluded"@,
        ),
{
}

/// Compression either returns the original output unchanged, or saves at
/// least 5% of its bytes (at most 95% of them remain); it never makes the
/// output longer.
pub proof fn law_saves_five_percent_or_passes(c: CompressorSpec, command: Seq<char>, output: Seq<char>)
    ensures
        ({
            let o = compress_outcome(c, command, output);
            &&& o.1 == byte_len(output)
            &&& o.2 == byte_len(o.0)
            &&& o.2 <= o.1
            &&& (o.0 == output || 100 * o.2 <= 95 * o.1)
        }),
{
}

/// With a positive `max_compressed_lines`, the compressed lines never number
/// more than that cap and one omission marker.
pub proof fn law_line_cap(c: CompressorSpec, command: Seq<char>, output: Seq<char>)
    requires
        c.max_lines > 0,
    ensures
        processed_lines(c, command, output).len() <= c.max_lines + 1,
        stepped_lines(c, command, output).len() > c.max_lines ==> {
            let s = stepped_lines(c, command, output);
            let head = c.max_lines * 3 / 5;
            let tail = (c.max_lines - head) as nat;
            processed_lines(c, command, output) == s.take(head as int) + seq![
                omission_marker((s.len() - c.max_lines) as nat),
            ] + s.skip(s.len() - tail)
        },
{
    let m = c.max_lines;
    assert(m * 3 / 5 <= m) by (nonlinear_arith);
}

} // verus!
