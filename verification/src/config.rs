//! Configuration: settings, pipelines of steps, the fallback steps and the
//! excluded commands, with the layered merge and the textual dump.
use vstd::prelude::*;
use crate::text::{
    chars_equal, chars_lt, decimal, from_chars, lemma_lex_lt_asym, lemma_lex_lt_total,
    lemma_lex_lt_trans, lex_lt, push_chars, push_decimal, push_str, to_chars, views,
};

verus! {

/// What a step does, as a value.
pub enum StepSpec {
    FilterLines(Seq<Seq<char>>),
    GroupLines(Seq<char>),
    Truncate(nat, nat, nat, Seq<char>),
    Dedup,
}

/// Arguments of `filter_lines`.
#[derive(Debug)]
pub struct FilterLinesArgs {
    pub patterns: Vec<String>,
}

/// Arguments of `group_lines`.
#[derive(Debug)]
pub struct GroupLinesArgs {
    pub mode: String,
}

/// Arguments of `truncate`.
#[derive(Debug)]
pub struct TruncateArgs {
    pub head: usize,
    pub tail: usize,
    pub per_file_lines: usize,
    pub file_marker: String,
}

/// Arguments of `dedup` (there are none).
#[derive(Debug)]
pub struct DedupArgs {}

/// One step of a pipeline.
#[derive(Debug)]
pub enum Step {
    FilterLines(FilterLinesArgs),
    GroupLines(GroupLinesArgs),
    Truncate(TruncateArgs),
    Dedup(DedupArgs),
}

impl View for Step {
    type V = StepSpec;

    open spec fn view(&self) -> StepSpec {
        match self {
            Step::FilterLines(a) => StepSpec::FilterLines(views(a.patterns@)),
            Step::GroupLines(a) => StepSpec::GroupLines(a.mode@),
            Step::Truncate(a) => StepSpec::Truncate(
                a.head as nat,
                a.tail as nat,
                a.per_file_lines as nat,
                a.file_marker@,
            ),
            Step::Dedup(_) => StepSpec::Dedup,
        }
    }
}

/// The views of a sequence of steps.
pub open spec fn step_views(s: Seq<Step>) -> Seq<StepSpec> {
    s.map_values(|x: Step| x@)
}

fn copy_strings(v: &Vec<String>) -> (r: Vec<String>)
    ensures
        views(r@) == views(v@),
{
    let mut r: Vec<String> = Vec::new();
    crate::text::extend_range(&mut r, v, 0, v.len());
    assert(views(v@).subrange(0, v@.len() as int) == views(v@));
    r
}

impl Step {
    /// A copy of this step.
    pub fn duplicate(&self) -> (r: Step)
        ensures
            r@ == self@,
    {
        match self {
            Step::FilterLines(a) => Step::FilterLines(
                FilterLinesArgs { patterns: copy_strings(&a.patterns) },
            ),
            Step::GroupLines(a) => Step::GroupLines(GroupLinesArgs { mode: a.mode.clone() }),
            Step::Truncate(a) => Step::Truncate(
                TruncateArgs {
                    head: a.head,
                    tail: a.tail,
                    per_file_lines: a.per_file_lines,
                    file_marker: a.file_marker.clone(),
                },
            ),
            Step::Dedup(_) => Step::Dedup(DedupArgs {  }),
        }
    }
}

/// A copy of a list of steps.
pub fn copy_steps(v: &Vec<Step>) -> (r: Vec<Step>)
    ensures
        step_views(r@) == step_views(v@),
{
    let mut r: Vec<Step> = Vec::new();
    let mut i: usize = 0;
    while i < v.len()
        invariant
            i <= v.len(),
            step_views(r@) == step_views(v@).take(i as int),
        decreases v.len() - i,
    {
        let ghost before = step_views(r@);
        r.push(v[i].duplicate());
        assert(step_views(r@) == before.push(v@[i as int]@));
        assert(step_views(v@).take(i + 1) == step_views(v@).take(i as int).push(v@[i as int]@));
        i += 1;
    }
    assert(step_views(v@).take(v.len() as int) == step_views(v@));
    r
}

/// A pipeline as a value: its command pattern and its steps.
pub struct PipelineSpec {
    pub match_pattern: Seq<char>,
    pub steps: Seq<StepSpec>,
}

/// A pipeline: the regex its command is matched against, and its steps.
#[derive(Debug)]
pub struct Pipeline {
    pub match_pattern: String,
    pub steps: Vec<Step>,
}

impl View for Pipeline {
    type V = PipelineSpec;

    open spec fn view(&self) -> PipelineSpec {
        PipelineSpec { match_pattern: self.match_pattern@, steps: step_views(self.steps@) }
    }
}

/// Global settings.
#[derive(Debug)]
pub struct Settings {
    pub min_output_length: usize,
    pub max_compressed_lines: usize,
    pub daemon_url: Option<String>,
}

/// The default `min_output_length`.
pub fn default_min_output_length() -> (r: usize)
    ensures
        r == 1000,
{
    1000
}

/// The default `max_compressed_lines`.
pub fn default_max_compressed_lines() -> (r: usize)
    ensures
        r == 100,
{
    100
}

/// The default `head` of a `truncate` step.
pub fn default_head() -> (r: usize)
    ensures
        r == 20,
{
    20
}

/// The default `tail` of a `truncate` step.
pub fn default_tail() -> (r: usize)
    ensures
        r == 10,
{
    10
}

impl Default for Settings {
    fn default() -> (r: Self)
        ensures
            r.min_output_length == 1000,
            r.max_compressed_lines == 100,
            r.daemon_url is None,
    {
        Settings {
            min_output_length: default_min_output_length(),
            max_compressed_lines: default_max_compressed_lines(),
            daemon_url: None,
        }
    }
}

/// The steps applied when no pipeline matches.
#[derive(Debug)]
pub struct Fallback {
    pub steps: Vec<Step>,
}

/// The default fallback: keep the first and last 20 lines.
pub open spec fn default_fallback_spec() -> Seq<StepSpec> {
    seq![StepSpec::Truncate(20, 20, 0, Seq::empty())]
}

/// The default fallback steps.
pub fn default_fallback_steps() -> (r: Vec<Step>)
    ensures
        step_views(r@) == default_fallback_spec(),
{
    let mut v: Vec<Step> = Vec::new();
    v.push(
        Step::Truncate(TruncateArgs { head: 20, tail: 20, per_file_lines: 0, file_marker: String::new() }),
    );
    assert(step_views(v@) =~= default_fallback_spec());
    v
}

impl Default for Fallback {
    fn default() -> (r: Self)
        ensures
            step_views(r.steps@) == default_fallback_spec(),
    {
        Fallback { steps: default_fallback_steps() }
    }
}

/// Named pipelines as an association list sorted by name.
pub type Entries = Seq<(Seq<char>, PipelineSpec)>;

/// Names strictly increase along the list.
pub open spec fn sorted_names(s: Entries) -> bool {
    forall|i: int, j: int| 0 <= i < j < s.len() ==> lex_lt(s[i].0, s[j].0)
}

/// The pipeline named `k`, if any.
pub open spec fn lookup(s: Entries, k: Seq<char>) -> Option<PipelineSpec>
    decreases s.len(),
{
    if s.len() == 0 {
        None
    } else if s[0].0 == k {
        Some(s[0].1)
    } else {
        lookup(s.drop_first(), k)
    }
}

/// `s` with `k` bound to `v`: the entry named `k` replaced, or a new entry
/// put in its place in name order.
pub open spec fn put(s: Entries, k: Seq<char>, v: PipelineSpec) -> Entries
    decreases s.len(),
{
    if s.len() == 0 {
        seq![(k, v)]
    } else if s[0].0 == k {
        seq![(k, v)] + s.drop_first()
    } else if lex_lt(k, s[0].0) {
        seq![(k, v)] + s
    } else {
        seq![s[0]] + put(s.drop_first(), k, v)
    }
}

/// `s` with each entry of `es` put in turn.
pub open spec fn put_all(s: Entries, es: Entries) -> Entries
    decreases es.len(),
{
    if es.len() == 0 {
        s
    } else {
        let t = put_all(s, es.drop_last());
        put(t, es.last().0, es.last().1)
    }
}

/// Pipelines by name, kept sorted by name with each name once.
#[derive(Debug)]
pub struct PipelineMap {
    entries: Vec<(String, Pipeline)>,
}

impl View for PipelineMap {
    type V = Entries;

    closed spec fn view(&self) -> Entries {
        self.entries@.map_values(|e: (String, Pipeline)| (e.0@, e.1@))
    }
}

proof fn lemma_put_at(s: Entries, k: Seq<char>, v: PipelineSpec, p: int)
    requires
        0 <= p <= s.len(),
        forall|j: int| 0 <= j < p ==> lex_lt(#[trigger] s[j].0, k),
        p < s.len() ==> !lex_lt(s[p].0, k),
    ensures
        put(s, k, v) == if p < s.len() && s[p].0 == k {
            s.update(p, (k, v))
        } else {
            s.insert(p, (k, v))
        },
    decreases p,
{
    if p == 0 {
        if s.len() > 0 {
            if s[0].0 != k {
                lemma_lex_lt_total(s[0].0, k);
                assert(s.insert(0, (k, v)) == seq![(k, v)] + s);
            } else {
                assert(s.update(0, (k, v)) == seq![(k, v)] + s.drop_first());
            }
        } else {
            assert(s.insert(0, (k, v)) == seq![(k, v)]);
        }
    } else {
        lemma_lex_lt_asym(s[0].0, k);
        assert(s[0].0 != k) by {
            lemma_lex_lt_asym(k, k);
        }
        let t = s.drop_first();
        assert forall|j: int| 0 <= j < p - 1 implies lex_lt(#[trigger] t[j].0, k) by {
            assert(t[j] == s[j + 1]);
        }
        lemma_put_at(t, k, v, p - 1);
        if p < s.len() && s[p].0 == k {
            assert(seq![s[0]] + t.update(p - 1, (k, v)) == s.update(p, (k, v)));
        } else {
            assert(seq![s[0]] + t.insert(p - 1, (k, v)) == s.insert(p, (k, v)));
        }
    }
}

proof fn lemma_lookup_sorted(s: Entries, k: Seq<char>, i: int)
    requires
        sorted_names(s),
        0 <= i < s.len(),
        s[i].0 == k,
    ensures
        lookup(s, k) == Some(s[i].1),
    decreases i,
{
    if i > 0 {
        let t = s.drop_first();
        assert(s[0].0 != k) by {
            lemma_lex_lt_asym(s[0].0, k);
        }
        assert(sorted_names(t)) by {
            assert forall|a: int, b: int| 0 <= a < b < t.len() implies lex_lt(t[a].0, t[b].0) by {
                assert(t[a] == s[a + 1] && t[b] == s[b + 1]);
            }
        }
        lemma_lookup_sorted(t, k, i - 1);
    }
}

proof fn lemma_lookup_absent(s: Entries, k: Seq<char>)
    requires
        forall|i: int| 0 <= i < s.len() ==> (#[trigger] s[i]).0 != k,
    ensures
        lookup(s, k) is None,
    decreases s.len(),
{
    if s.len() > 0 {
        let t = s.drop_first();
        assert forall|i: int| 0 <= i < t.len() implies (#[trigger] t[i]).0 != k by {
            assert(t[i] == s[i + 1]);
        }
        lemma_lookup_absent(t, k);
    }
}

impl PipelineMap {
    #[verifier::type_invariant]
    spec fn names_sorted(&self) -> bool {
        sorted_names(self@)
    }

    /// An empty map.
    pub fn new() -> (r: Self)
        ensures
            r@ == Seq::<(Seq<char>, PipelineSpec)>::empty(),
            sorted_names(r@),
    {
        let r = PipelineMap { entries: Vec::new() };
        assert(r@ =~= Seq::<(Seq<char>, PipelineSpec)>::empty());
        r
    }

    /// The number of pipelines. It also makes known that the names stand in
    /// strictly increasing order, as every map keeps them.
    pub fn len(&self) -> (r: usize)
        ensures
            r == self@.len(),
            sorted_names(self@),
    {
        proof {
            use_type_invariant(self);
        }
        self.entries.len()
    }

    /// Whether there are no pipelines.
    pub fn is_empty(&self) -> (r: bool)
        ensures
            r == (self@.len() == 0),
    {
        self.entries.len() == 0
    }

    /// The name of the `i`-th pipeline in name order.
    pub fn name_at(&self, i: usize) -> (r: &String)
        requires
            i < self@.len(),
        ensures
            r@ == self@[i as int].0,
    {
        &self.entries[i].0
    }

    /// The `i`-th pipeline in name order.
    pub fn pipeline_at(&self, i: usize) -> (r: &Pipeline)
        requires
            i < self@.len(),
        ensures
            r@ == self@[i as int].1,
    {
        &self.entries[i].1
    }

    /// Where `name` stands or would stand: the first index whose name is not
    /// below it.
    fn position(&self, name: &Vec<char>) -> (p: usize)
        ensures
            p <= self@.len(),
            forall|j: int| 0 <= j < p ==> lex_lt(#[trigger] self@[j].0, name@),
            p < self@.len() ==> !lex_lt(self@[p as int].0, name@),
    {
        let mut p: usize = 0;
        while p < self.entries.len() && chars_lt(&to_chars(self.entries[p].0.as_str()), name)
            invariant
                p <= self@.len(),
                self@.len() == self.entries@.len(),
                forall|j: int| 0 <= j < p ==> lex_lt(#[trigger] self@[j].0, name@),
            decreases self.entries@.len() - p,
        {
            assert(self@[p as int].0 == self.entries@[p as int].0@);
            p += 1;
        }
        proof {
            if p < self@.len() {
                assert(self@[p as int].0 == self.entries@[p as int].0@);
            }
        }
        p
    }

    /// The pipeline named `name`, if any.
    pub fn get(&self, name: &str) -> (r: Option<&Pipeline>)
        ensures
            match r {
                Some(q) => lookup(self@, name@) == Some(q@),
                None => lookup(self@, name@) is None,
            },
    {
        proof {
            use_type_invariant(self);
        }
        let key = to_chars(name);
        let p = self.position(&key);
        if p < self.entries.len() && chars_equal(&to_chars(self.entries[p].0.as_str()), &key) {
            proof {
                lemma_lookup_sorted(self@, name@, p as int);
            }
            Some(&self.entries[p].1)
        } else {
            proof {
                assert forall|i: int| 0 <= i < self@.len() implies (#[trigger] self@[i]).0
                    != name@ by {
                    if i < p {
                        lemma_lex_lt_asym(name@, name@);
                    } else if i > p {
                        lemma_lex_lt_total(self@[p as int].0, name@);
                        if self@[i].0 == name@ {
                            lemma_lex_lt_asym(self@[p as int].0, name@);
                        }
                    }
                }
                lemma_lookup_absent(self@, name@);
            }
            None
        }
    }

    /// Whether a pipeline is named `name`.
    pub fn contains_key(&self, name: &str) -> (r: bool)
        ensures
            r == lookup(self@, name@) is Some,
    {
        self.get(name).is_some()
    }

    /// Binds `name` to `pipeline`, replacing a pipeline of that name.
    pub fn insert(&mut self, name: String, pipeline: Pipeline)
        ensures
            final(self)@ == put(old(self)@, name@, pipeline@),
            sorted_names(final(self)@),
    {
        proof {
            use_type_invariant(&*self);
        }
        let ghost s = self@;
        let key = to_chars(name.as_str());
        let p = self.position(&key);
        let replace = p < self.entries.len() && chars_equal(
            &to_chars(self.entries[p].0.as_str()),
            &key,
        );
        let ghost kv = (name@, pipeline@);
        proof {
            lemma_put_at(s, name@, pipeline@, p as int);
        }
        let mut entries: Vec<(String, Pipeline)> = Vec::new();
        std::mem::swap(&mut entries, &mut self.entries);
        assert(entries@.map_values(|e: (String, Pipeline)| (e.0@, e.1@)) == s);
        if replace {
            entries.set(p, (name, pipeline));
        } else {
            entries.insert(p, (name, pipeline));
        }
        let ghost t = entries@.map_values(|e: (String, Pipeline)| (e.0@, e.1@));
        proof {
            if replace {
                assert(t =~= s.update(p as int, kv));
            } else {
                assert(t =~= s.insert(p as int, kv));
            }
            assert forall|i: int, j: int| 0 <= i < j < t.len() implies lex_lt(t[i].0, t[j].0) by {
                if replace {
                    if i == p {
                        assert(lex_lt(s[i].0, s[j].0));
                    }
                } else {
                    if j < p {
                        assert(t[i] == s[i] && t[j] == s[j]);
                    } else if j == p {
                        assert(t[i] == s[i]);
                    } else if i == p {
                        assert(t[j] == s[j - 1]);
                        if j - 1 > p {
                            lemma_lex_lt_total(s[p as int].0, name@);
                            lemma_lex_lt_trans(name@, s[p as int].0, s[j - 1].0);
                        } else {
                            lemma_lex_lt_total(s[p as int].0, name@);
                        }
                    } else if i < p {
                        assert(t[i] == s[i] && t[j] == s[j - 1]);
                    } else {
                        assert(t[i] == s[i - 1] && t[j] == s[j - 1]);
                    }
                }
            }
        }
        self.entries = entries;
        assert(self@ == t);
    }

    /// The entries in name order, taken out of the map.
    pub fn into_entries(self) -> (r: Vec<(String, Pipeline)>)
        ensures
            r@.map_values(|e: (String, Pipeline)| (e.0@, e.1@)) == self@,
    {
        self.entries
    }
}

/// The whole configuration.
#[derive(Debug)]
pub struct Config {
    pub settings: Settings,
    pub pipelines: PipelineMap,
    pub fallback: Fallback,
    pub excluded_commands: Vec<String>,
}

/// Merges `overlay` into `base` as a later configuration layer: overlay
/// pipelines replace or join those of `base` by name, a setting of the
/// overlay wins where it is not the default, and excluded commands add up.
pub fn merge_overlay(base: &mut Config, overlay: Config)
    ensures
        final(base).pipelines@ == put_all(old(base).pipelines@, overlay.pipelines@),
        final(base).settings.min_output_length == if overlay.settings.min_output_length != 1000 {
            overlay.settings.min_output_length
        } else {
            old(base).settings.min_output_length
        },
        final(base).settings.max_compressed_lines == if overlay.settings.max_compressed_lines
            != 100 {
            overlay.settings.max_compressed_lines
        } else {
            old(base).settings.max_compressed_lines
        },
        final(base).settings.daemon_url == if overlay.settings.daemon_url is Some {
            overlay.settings.daemon_url
        } else {
            old(base).settings.daemon_url
        },
        views(final(base).excluded_commands@) == views(old(base).excluded_commands@) + views(
            overlay.excluded_commands@,
        ),
        final(base).fallback == old(base).fallback,
{
    let Config { settings, pipelines, fallback: _, excluded_commands } = overlay;
    let ghost ov = pipelines@;
    let mut rest = pipelines.into_entries();
    let ghost start = base.pipelines@;
    let mut i: usize = 0;
    let ghost n = rest.len();
    assert(ov.skip(0) == ov);
    while rest.len() > 0
        invariant
            i + rest@.len() == n,
            ov.len() == n,
            rest@.map_values(|e: (String, Pipeline)| (e.0@, e.1@)) == ov.skip(i as int),
            base.pipelines@ == put_all(start, ov.take(i as int)),
            base.settings == old(base).settings,
            base.excluded_commands == old(base).excluded_commands,
            base.fallback == old(base).fallback,
            start == old(base).pipelines@,
        decreases rest.len(),
    {
        let ghost rv = rest@.map_values(|e: (String, Pipeline)| (e.0@, e.1@));
        let ghost old_rest = rest@;
        let e = rest.remove(0);
        assert(e == old_rest[0]);
        assert(rv[0] == (e.0@, e.1@));
        assert(rest@.map_values(|e: (String, Pipeline)| (e.0@, e.1@)) == rv.drop_first());
        let (name, pipeline) = e;
        assert(ov.skip(i as int).drop_first() == ov.skip(i + 1));
        assert((name@, pipeline@) == ov[i as int]);
        assert(ov.take(i + 1).drop_last() == ov.take(i as int));
        base.pipelines.insert(name, pipeline);
        i += 1;
    }
    assert(ov.take(n as int) == ov);
    if settings.min_output_length != default_min_output_length() {
        base.settings.min_output_length = settings.min_output_length;
    }
    if settings.max_compressed_lines != default_max_compressed_lines() {
        base.settings.max_compressed_lines = settings.max_compressed_lines;
    }
    if settings.daemon_url.is_some() {
        base.settings.daemon_url = settings.daemon_url;
    }
    let ghost eb = views(base.excluded_commands@);
    let mut k: usize = 0;
    while k < excluded_commands.len()
        invariant
            k <= excluded_commands.len(),
            views(base.excluded_commands@) == eb + views(excluded_commands@).take(k as int),
            eb == views(old(base).excluded_commands@),
            base.pipelines@ == put_all(old(base).pipelines@, overlay.pipelines@),
            base.fallback == old(base).fallback,
            base.settings.min_output_length == if overlay.settings.min_output_length != 1000 {
                overlay.settings.min_output_length
            } else {
                old(base).settings.min_output_length
            },
            base.settings.max_compressed_lines == if overlay.settings.max_compressed_lines
                != 100 {
                overlay.settings.max_compressed_lines
            } else {
                old(base).settings.max_compressed_lines
            },
            base.settings.daemon_url == if overlay.settings.daemon_url is Some {
                overlay.settings.daemon_url
            } else {
                old(base).settings.daemon_url
            },
        decreases excluded_commands.len() - k,
    {
        let ghost before = views(base.excluded_commands@);
        base.excluded_commands.push(excluded_commands[k].clone());
        assert(views(base.excluded_commands@) == before.push(excluded_commands@[k as int]@));
        assert(views(excluded_commands@).take(k + 1) == views(excluded_commands@).take(
            k as int,
        ).push(excluded_commands@[k as int]@));
        k += 1;
    }
    assert(views(excluded_commands@).take(excluded_commands.len() as int) == views(
        excluded_commands@,
    ));
}

/// What `format!("{:?}", v)` gives for a list of strings `v` (std's `Debug`
/// rendering: quoted, escaped, comma-separated, in brackets).
pub uninterp spec fn debug_list(items: Seq<Seq<char>>) -> Seq<char>;

/// `format!("{:?}", v)` on a list of strings. The contract claims the result
/// is `debug_list` of the strings' texts.
#[verifier::external_body]
fn debug_strings(v: &Vec<String>) -> (r: String)
    ensures
        r@ == debug_list(views(v@)),
{
    format!("{:?}", v)
}

/// The dump line of one pipeline.
pub open spec fn pipeline_summary(e: (Seq<char>, PipelineSpec)) -> Seq<char> {
    "  "@ + e.0 + ": match='"@ + e.1.match_pattern + "', "@ + decimal(e.1.steps.len()) + " steps\n"@
}

/// The dump lines of the pipelines, in name order.
pub open spec fn pipeline_summaries(es: Entries) -> Seq<char>
    decreases es.len(),
{
    if es.len() == 0 {
        Seq::empty()
    } else {
        pipeline_summaries(es.drop_last()) + pipeline_summary(es.last())
    }
}

/// The text of `Config::dump`.
pub open spec fn dump_text(c: Config) -> Seq<char> {
    "settings:\n"@ + "  min_output_length: "@ + decimal(c.settings.min_output_length as nat)
        + "\n"@ + "  max_compressed_lines: "@ + decimal(c.settings.max_compressed_lines as nat)
        + "\n"@ + (match c.settings.daemon_url {
        Some(u) => "  daemon_url: \""@ + u@ + "\"\n"@,
        None => Seq::empty(),
    }) + "\npipelines: "@ + decimal(c.pipelines@.len()) + " total\n"@ + pipeline_summaries(
        c.pipelines@,
    ) + (if c.excluded_commands@.len() > 0 {
        "\nexcluded_commands: "@ + debug_list(views(c.excluded_commands@)) + "\n"@
    } else {
        Seq::empty()
    })
}

impl Config {
    /// The resolved configuration as YAML-like text: settings, the number of
    /// pipelines and a line for each, and the excluded commands.
    pub fn dump(&self) -> (r: String)
        ensures
            r@ == dump_text(*self),
    {
        let mut out: Vec<char> = Vec::new();
        push_str(&mut out, "settings:\n");
        push_str(&mut out, "  min_output_length: ");
        push_decimal(&mut out, self.settings.min_output_length);
        push_str(&mut out, "\n");
        push_str(&mut out, "  max_compressed_lines: ");
        push_decimal(&mut out, self.settings.max_compressed_lines);
        push_str(&mut out, "\n");
        match &self.settings.daemon_url {
            Some(url) => {
                push_str(&mut out, "  daemon_url: \"");
                push_str(&mut out, url.as_str());
                push_str(&mut out, "\"\n");
            },
            None => {},
        }
        push_str(&mut out, "\npipelines: ");
        push_decimal(&mut out, self.pipelines.len());
        push_str(&mut out, " total\n");
        let ghost es = self.pipelines@;
        let ghost head = out@;
        let mut i: usize = 0;
        while i < self.pipelines.len()
            invariant
                i <= es.len(),
                es == self.pipelines@,
                out@ == head + pipeline_summaries(es.take(i as int)),
            decreases es.len() - i,
        {
            assert(es.take(i + 1).drop_last() == es.take(i as int));
            let name = self.pipelines.name_at(i);
            let p = self.pipelines.pipeline_at(i);
            push_str(&mut out, "  ");
            push_str(&mut out, name.as_str());
            push_str(&mut out, ": match='");
            push_str(&mut out, p.match_pattern.as_str());
            push_str(&mut out, "', ");
            push_decimal(&mut out, p.steps.len());
            push_str(&mut out, " steps\n");
            assert(es.take(i + 1).last() == es[i as int]);
            i += 1;
        }
        assert(es.take(es.len() as int) == es);
        if self.excluded_commands.len() > 0 {
            push_str(&mut out, "\nexcluded_commands: ");
            let d = debug_strings(&self.excluded_commands);
            push_str(&mut out, d.as_str());
            push_str(&mut out, "\n");
        }
        from_chars(out.as_slice())
    }
}

proof fn lemma_summaries_concat(es: Entries)
    ensures
        pipeline_summaries(es) == crate::text::concat(
            es.map_values(|e: (Seq<char>, PipelineSpec)| pipeline_summary(e)),
        ),
    decreases es.len(),
{
    if es.len() > 0 {
        lemma_summaries_concat(es.drop_last());
        let f = |e: (Seq<char>, PipelineSpec)| pipeline_summary(e);
        assert(es.map_values(f).drop_last() == es.drop_last().map_values(f));
    }
}

/// The dump lays out, in order: the settings block (with the daemon URL only
/// where one is set), the pipeline count, one line per pipeline in name order
/// giving its name, pattern and number of steps, and the excluded commands
/// only where there are any.
pub proof fn law_dump_layout(c: Config)
    ensures
        dump_text(c) == "settings:\n"@ + "  min_output_length: "@ + decimal(
            c.settings.min_output_length as nat,
        ) + "\n"@ + "  max_compressed_lines: "@ + decimal(c.settings.max_compressed_lines as nat)
            + "\n"@ + (match c.settings.daemon_url {
            Some(u) => "  daemon_url: \""@ + u@ + "\"\n"@,
            None => Seq::empty(),
        }) + "\npipelines: "@ + decimal(c.pipelines@.len()) + " total\n"@ + crate::text::concat(
            c.pipelines@.map_values(
                |e: (Seq<char>, PipelineSpec)|
                    "  "@ + e.0 + ": match='"@ + e.1.match_pattern + "', "@ + decimal(e.1.steps.len())
                        + " steps\n"@,
            ),
        ) + (if c.excluded_commands@.len() > 0 {
            "\nexcluded_commands: "@ + debug_list(views(c.excluded_commands@)) + "\n"@
        } else {
            Seq::empty()
        }),
{
    lemma_summaries_concat(c.pipelines@);
    assert(c.pipelines@.map_values(|e: (Seq<char>, PipelineSpec)| pipeline_summary(e))
        == c.pipelines@.map_values(
        |e: (Seq<char>, PipelineSpec)|
            "  "@ + e.0 + ": match='"@ + e.1.match_pattern + "', "@ + decimal(e.1.steps.len())
                + " steps\n"@,
    ));
}

/// Read after write: once `k` is bound to `v`, looking up `k` gives `v`,
/// and every other name gives what it gave before.
pub proof fn law_put_lookup(s: Entries, k: Seq<char>, v: PipelineSpec, other: Seq<char>)
    ensures
        lookup(put(s, k, v), k) == Some(v),
        other != k ==> lookup(put(s, k, v), other) == lookup(s, other),
    decreases s.len(),
{
    if s.len() > 0 && s[0].0 != k && !lex_lt(k, s[0].0) {
        law_put_lookup(s.drop_first(), k, v, other);
        let t = seq![s[0]] + put(s.drop_first(), k, v);
        assert(put(s, k, v) == t);
        assert(t.drop_first() == put(s.drop_first(), k, v));
        assert(t[0] == s[0]);
        assert(lookup(t, k) == lookup(t.drop_first(), k));
        if other != k {
            if s[0].0 == other {
                assert(lookup(t, other) == Some(s[0].1));
            } else {
                assert(lookup(t, other) == lookup(t.drop_first(), other));
            }
        }
    } else {
        let t = put(s, k, v);
        let rest = if s.len() > 0 && s[0].0 == k {
            s.drop_first()
        } else {
            s
        };
        assert(t == seq![(k, v)] + rest);
        assert(t.drop_first() == rest);
        assert(t[0] == (k, v));
        if other != k {
            assert(lookup(t, other) == lookup(rest, other));
            if s.len() > 0 && s[0].0 == k {
                assert(lookup(s, other) == lookup(s.drop_first(), other));
            }
        }
    }
}

proof fn lemma_lookup_push(s: Entries, e: (Seq<char>, PipelineSpec), k: Seq<char>)
    ensures
        lookup(s.push(e), k) == if lookup(s, k) is Some {
            lookup(s, k)
        } else if e.0 == k {
            Some(e.1)
        } else {
            None
        },
    decreases s.len(),
{
    if s.len() > 0 {
        lemma_lookup_push(s.drop_first(), e, k);
        let t = s.push(e);
        assert(t.drop_first() == s.drop_first().push(e));
        assert(t[0] == s[0]);
        if s[0].0 == k {
            assert(lookup(t, k) == Some(s[0].1));
            assert(lookup(s, k) == Some(s[0].1));
        } else {
            assert(lookup(t, k) == lookup(t.drop_first(), k));
            assert(lookup(s, k) == lookup(s.drop_first(), k));
        }
    } else {
        let t = s.push(e);
        assert(t.drop_first().len() == 0);
        assert(t[0] == e);
        assert(lookup(t.drop_first(), k) is None);
        assert(lookup(s, k) is None);
        if e.0 == k {
            assert(lookup(t, k) == Some(e.1));
        } else {
            assert(lookup(t, k) is None);
        }
    }
}

/// Merging a layer: a name the overlay defines gets the overlay's pipeline,
/// any other name keeps the pipeline it had.
pub proof fn law_put_all_lookup(s: Entries, es: Entries, k: Seq<char>)
    requires
        sorted_names(es),
    ensures
        lookup(put_all(s, es), k) == match lookup(es, k) {
            Some(v) => Some(v),
            None => lookup(s, k),
        },
    decreases es.len(),
{
    if es.len() > 0 {
        let d = es.drop_last();
        assert(sorted_names(d)) by {
            assert forall|a: int, b: int| 0 <= a < b < d.len() implies lex_lt(d[a].0, d[b].0) by {
                assert(d[a] == es[a] && d[b] == es[b]);
            }
        }
        law_put_all_lookup(s, d, k);
        law_put_lookup(put_all(s, d), es.last().0, es.last().1, k);
        lemma_lookup_push(d, es.last(), k);
        assert(d.push(es.last()) == es);
        if es.last().0 == k {
            assert(lookup(d, k) is None) by {
                assert forall|i: int| 0 <= i < d.len() implies (#[trigger] d[i]).0 != k by {
                    assert(lex_lt(es[i].0, es[es.len() - 1].0));
                    lemma_lex_lt_asym(k, k);
                }
                lemma_lookup_absent(d, k);
            }
        }
    }
}

} // verus!
