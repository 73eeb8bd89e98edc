//! Regular expressions, through the `regex` crate.
//!
//! What a regular expression accepts takes pages to state, so the results of
//! the `regex` calls are named (`regex_compiles`, `regex_is_match`,
//! `regex_captures`, `regex_replace_all`): each is a function of the pattern
//! text and the haystack alone. A `Pattern` holds a compiled regex together
//! with the text it was compiled from; it is only built by `compile`.
use vstd::prelude::*;
use crate::text::views;

verus! {

#[verifier::external_type_specification]
#[verifier::external_body]
pub struct ExRegex(regex::Regex);

/// Whether `regex::Regex::new` accepts `pattern`.
pub uninterp spec fn regex_compiles(pattern: Seq<char>) -> bool;

/// What `regex::Regex::is_match` answers for the regex compiled from
/// `pattern` on `haystack`.
pub uninterp spec fn regex_is_match(pattern: Seq<char>, haystack: Seq<char>) -> bool;

/// What `regex::Regex::captures` gives for the regex compiled from `pattern`
/// on `haystack`: `None` when there is no match, else the text of each group
/// (group 0 first), `None` for a group that did not take part in the match.
pub uninterp spec fn regex_captures(pattern: Seq<char>, haystack: Seq<char>) -> Option<
    Seq<Option<Seq<char>>>,
>;

/// What `regex::Regex::replace_all` gives for the regex compiled from
/// `pattern` on `haystack` with the replacement text `rep`.
pub uninterp spec fn regex_replace_all(pattern: Seq<char>, haystack: Seq<char>, rep: Seq<char>) -> Seq<char>;

/// A Unicode decimal digit (general category `Nd`, Unicode 16.0): the class
/// that `\\d` stands for in a `regex` pattern, as the `regex-syntax` tables
/// the crate builds with list it.
pub open spec fn is_decimal_digit(c: char) -> bool {
    let u = c as u32;
    ||| 0x30 <= u <= 0x39
    ||| 0x660 <= u <= 0x669
    ||| 0x6f0 <= u <= 0x6f9
    ||| 0x7c0 <= u <= 0x7c9
    ||| 0x966 <= u <= 0x96f
    ||| 0x9e6 <= u <= 0x9ef
    ||| 0xa66 <= u <= 0xa6f
    ||| 0xae6 <= u <= 0xaef
    ||| 0xb66 <= u <= 0xb6f
    ||| 0xbe6 <= u <= 0xbef
    ||| 0xc66 <= u <= 0xc6f
    ||| 0xce6 <= u <= 0xcef
    ||| 0xd66 <= u <= 0xd6f
    ||| 0xde6 <= u <= 0xdef
    ||| 0xe50 <= u <= 0xe59
    ||| 0xed0 <= u <= 0xed9
    ||| 0xf20 <= u <= 0xf29
    ||| 0x1040 <= u <= 0x1049
    ||| 0x1090 <= u <= 0x1099
    ||| 0x17e0 <= u <= 0x17e9
    ||| 0x1810 <= u <= 0x1819
    ||| 0x1946 <= u <= 0x194f
    ||| 0x19d0 <= u <= 0x19d9
    ||| 0x1a80 <= u <= 0x1a89
    ||| 0x1a90 <= u <= 0x1a99
    ||| 0x1b50 <= u <= 0x1b59
    ||| 0x1bb0 <= u <= 0x1bb9
    ||| 0x1c40 <= u <= 0x1c49
    ||| 0x1c50 <= u <= 0x1c59
    ||| 0xa620 <= u <= 0xa629
    ||| 0xa8d0 <= u <= 0xa8d9
    ||| 0xa900 <= u <= 0xa909
    ||| 0xa9d0 <= u <= 0xa9d9
    ||| 0xa9f0 <= u <= 0xa9f9
    ||| 0xaa50 <= u <= 0xaa59
    ||| 0xabf0 <= u <= 0xabf9
    ||| 0xff10 <= u <= 0xff19
    ||| 0x104a0 <= u <= 0x104a9
    ||| 0x10d30 <= u <= 0x10d39
    ||| 0x10d40 <= u <= 0x10d49
    ||| 0x11066 <= u <= 0x1106f
    ||| 0x110f0 <= u <= 0x110f9
    ||| 0x11136 <= u <= 0x1113f
    ||| 0x111d0 <= u <= 0x111d9
    ||| 0x112f0 <= u <= 0x112f9
    ||| 0x11450 <= u <= 0x11459
    ||| 0x114d0 <= u <= 0x114d9
    ||| 0x11650 <= u <= 0x11659
    ||| 0x116c0 <= u <= 0x116c9
    ||| 0x116d0 <= u <= 0x116e3
    ||| 0x11730 <= u <= 0x11739
    ||| 0x118e0 <= u <= 0x118e9
    ||| 0x11950 <= u <= 0x11959
    ||| 0x11bf0 <= u <= 0x11bf9
    ||| 0x11c50 <= u <= 0x11c59
    ||| 0x11d50 <= u <= 0x11d59
    ||| 0x11da0 <= u <= 0x11da9
    ||| 0x11f50 <= u <= 0x11f59
    ||| 0x16130 <= u <= 0x16139
    ||| 0x16a60 <= u <= 0x16a69
    ||| 0x16ac0 <= u <= 0x16ac9
    ||| 0x16b50 <= u <= 0x16b59
    ||| 0x16d70 <= u <= 0x16d79
    ||| 0x1ccf0 <= u <= 0x1ccf9
    ||| 0x1d7ce <= u <= 0x1d7ff
    ||| 0x1e140 <= u <= 0x1e149
    ||| 0x1e2f0 <= u <= 0x1e2f9
    ||| 0x1e4f0 <= u <= 0x1e4f9
    ||| 0x1e5f1 <= u <= 0x1e5fa
    ||| 0x1e950 <= u <= 0x1e959
    ||| 0x1fbf0 <= u <= 0x1fbf9
}

/// `s` with each maximal run of decimal digits replaced by `N`; `in_run`
/// tells whether a run of digits has just been replaced.
pub open spec fn digit_runs_as_n(s: Seq<char>, in_run: bool) -> Seq<char>
    decreases s.len(),
{
    if s.len() == 0 {
        Seq::empty()
    } else if is_decimal_digit(s[0]) {
        (if in_run {
            Seq::empty()
        } else {
            seq!['N']
        }) + digit_runs_as_n(s.drop_first(), true)
    } else {
        seq![s[0]] + digit_runs_as_n(s.drop_first(), false)
    }
}

/// `s` with each maximal run of decimal digits replaced by `N`.
pub open spec fn digits_to_n(s: Seq<char>) -> Seq<char> {
    digit_runs_as_n(s, false)
}

/// Whether `pattern` compiles and its regex matches `haystack`.
pub open spec fn accepts(pattern: Seq<char>, haystack: Seq<char>) -> bool {
    regex_compiles(pattern) && regex_is_match(pattern, haystack)
}

/// A compiled regular expression and the text it was compiled from.
pub struct Pattern {
    source: String,
    re: regex::Regex,
}

impl Pattern {
    /// The text this pattern was compiled from.
    pub closed spec fn source(&self) -> Seq<char> {
        self.source@
    }
}

/// Compiles `pattern` with `regex::Regex::new`; `None` where it reports an
/// error. The contract claims that success is exactly `regex_compiles` of
/// the text, that the result remembers that text, and that the well-formed
/// pattern `\d+` compiles.
#[verifier::external_body]
pub(crate) fn compile(pattern: &str) -> (r: Option<Pattern>)
    ensures
        r is Some <==> regex_compiles(pattern@),
        r matches Some(p) ==> p.source() == pattern@,
        pattern@ == "\\d+"@ ==> r is Some,
{
    match regex::Regex::new(pattern) {
        Ok(re) => Some(Pattern { source: pattern.to_string(), re }),
        Err(_) => None,
    }
}

/// `regex::Regex::is_match`. The contract claims the answer is
/// `regex_is_match` of the pattern's text and the haystack.
#[verifier::external_body]
pub(crate) fn is_match(p: &Pattern, haystack: &str) -> (r: bool)
    ensures
        r == regex_is_match(p.source(), haystack@),
{
    p.re.is_match(haystack)
}

/// `regex::Regex::captures`, each group's match turned into its text. The
/// contract claims the result is `regex_captures` of the pattern's text and
/// the haystack.
#[verifier::external_body]
pub(crate) fn captures(p: &Pattern, haystack: &str) -> (r: Option<Vec<Option<String>>>)
    ensures
        r is Some <==> regex_captures(p.source(), haystack@) is Some,
        r matches Some(groups) ==> (regex_captures(p.source(), haystack@)->0).len() == groups@.len()
            && forall|i: int|
            0 <= i < groups@.len() ==> match #[trigger] groups@[i] {
                Some(g) => (regex_captures(p.source(), haystack@)->0)[i] == Some(g@),
                None => (regex_captures(p.source(), haystack@)->0)[i] is None,
            },
{
    match p.re.captures(haystack) {
        None => None,
        Some(caps) => Some(caps.iter().map(|m| m.map(|m| m.as_str().to_string())).collect()),
    }
}

/// `regex::Regex::replace_all` with replacement text `rep`. The contract
/// claims the result is `regex_replace_all` of the pattern's text, the
/// haystack and `rep`; and that with the pattern `\d+` and the plain
/// replacement `N` (no `$` to expand), every match, which for `\d+` is a
/// maximal run of decimal digits, becomes `N`.
#[verifier::external_body]
pub(crate) fn replace_all(p: &Pattern, haystack: &str, rep: &str) -> (r: String)
    ensures
        r@ == regex_replace_all(p.source(), haystack@, rep@),
        p.source() == "\\d+"@ && rep@ == "N"@ ==> r@ == digits_to_n(haystack@),
{
    p.re.replace_all(haystack, rep).to_string()
}

/// Whether some pattern of `patterns` compiles and matches `haystack`.
pub open spec fn matches_any(patterns: Seq<Seq<char>>, haystack: Seq<char>) -> bool {
    exists|k: int| 0 <= k < patterns.len() && accepts(#[trigger] patterns[k], haystack)
}

/// `compiled[k]` is what `compile` gave for `patterns[k]`.
pub open spec fn compiled_from(compiled: Seq<Option<Pattern>>, patterns: Seq<Seq<char>>) -> bool {
    &&& compiled.len() == patterns.len()
    &&& forall|k: int|
        0 <= k < patterns.len() ==> (#[trigger] compiled[k] is Some <==> regex_compiles(
            patterns[k],
        ))
    &&& forall|k: int|
        0 <= k < patterns.len() ==> (#[trigger] compiled[k] matches Some(p) ==> p.source()
            == patterns[k])
}

/// Compiles each pattern.
pub fn compile_all(patterns: &[String]) -> (r: Vec<Option<Pattern>>)
    ensures
        compiled_from(r@, views(patterns@)),
{
    let mut r: Vec<Option<Pattern>> = Vec::new();
    let mut i: usize = 0;
    while i < patterns.len()
        invariant
            i <= patterns.len(),
            compiled_from(r@, views(patterns@).take(i as int)),
        decreases patterns.len() - i,
    {
        let c = compile(patterns[i].as_str());
        r.push(c);
        i += 1;
    }
    assert(views(patterns@).take(patterns.len() as int) == views(patterns@));
    r
}

/// Whether some compiled pattern matches `haystack`.
pub fn any_match(compiled: &Vec<Option<Pattern>>, Ghost(patterns): Ghost<Seq<Seq<char>>>, haystack: &str) -> (r: bool)
    requires
        compiled_from(compiled@, patterns),
    ensures
        r == matches_any(patterns, haystack@),
{
    let mut k: usize = 0;
    while k < compiled.len()
        invariant
            k <= compiled.len(),
            compiled_from(compiled@, patterns),
            forall|j: int| 0 <= j < k ==> !accepts(#[trigger] patterns[j], haystack@),
        decreases compiled.len() - k,
    {
        match &compiled[k] {
            Some(p) => {
                if is_match(p, haystack) {
                    assert(accepts(patterns[k as int], haystack@));
                    return true;
                }
            },
            None => {},
        }
        k += 1;
    }
    false
}

} // verus!
