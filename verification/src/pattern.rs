//! Regular expressions, through the `regex` crate.
//!
//! Matching itself is the `regex` crate's work: this module names its results
//! (`regex_valid`, `regex_groups`) and states `regex::escape` exactly.

use vstd::prelude::*;

verus! {

/// Whether `regex::Regex::new(pattern)` succeeds.
pub uninterp spec fn regex_valid(pattern: Seq<char>) -> bool;

/// What `regex::Regex::captures(text)` gives for a regex compiled from `pattern`:
/// `None` when the regex does not match `text`; otherwise each group's text in order,
/// group 0 (the whole match) first, `None` for a group that did not participate.
pub uninterp spec fn regex_groups(pattern: Seq<char>, text: Seq<char>) -> Option<Seq<Option<Seq<char>>>>;

/// A group's text, `""` for a group that did not participate.
pub open spec fn group_text(g: Option<Seq<char>>) -> Seq<char> {
    match g {
        Some(t) => t,
        None => Seq::empty(),
    }
}

/// The capture groups after group 0, with `""` for a group that did not participate.
pub closed spec fn regex_captures(pattern: Seq<char>, text: Seq<char>) -> Option<Seq<Seq<char>>> {
    match regex_groups(pattern, text) {
        None => None,
        Some(gs) => Some(
            Seq::new(
                if gs.len() == 0 {
                    0
                } else {
                    (gs.len() - 1) as nat
                },
                |j: int| group_text(gs[j + 1]),
            ),
        ),
    }
}

#[verifier::external_type_specification]
#[verifier::external_body]
pub struct ExRegex(regex::Regex);

/// A compiled regex together with the pattern text it was compiled from.
///
/// `compile` is the only constructor, so `re` is always the compilation of `source`.
pub struct Pattern {
    re: regex::Regex,
    source: String,
}

impl Pattern {
    /// The pattern text this regex was compiled from.
    pub closed spec fn source(&self) -> Seq<char> {
        self.source@
    }
}

/// Compiles `pattern` with `regex::Regex::new`; `None` exactly when it is not a valid regex.
#[verifier::external_body]
pub(crate) fn compile(pattern: &str) -> (r: Option<Pattern>)
    ensures
        r is Some <==> regex_valid(pattern@),
        r matches Some(p) ==> p.source() == pattern@,
{
    match regex::Regex::new(pattern) {
        Ok(re) => Some(Pattern { re, source: pattern.to_string() }),
        Err(_) => None,
    }
}

/// `regex::Regex::captures` on `text`: every group (group 0 first) as an owned
/// string, `None` for a group that did not participate.  The result is the named
/// `regex_groups` of the pattern's source and the text.
#[verifier::external_body]
fn raw_groups(p: &Pattern, text: &str) -> (r: Option<Vec<Option<String>>>)
    ensures
        r.deep_view() == regex_groups(p.source(), text@),
{
    p.re.captures(text).map(|c| c.iter().map(|m| m.map(|x| x.as_str().to_string())).collect())
}

/// Whether the regex matches somewhere in `text`.
pub(crate) fn matches_text(p: &Pattern, text: &str) -> (r: bool)
    ensures
        r == (regex_groups(p.source(), text@) is Some),
{
    match raw_groups(p, text) {
        Some(_) => true,
        None => false,
    }
}

/// The texts of the capture groups after group 0 where the regex matches `text`.
pub(crate) fn captures(p: &Pattern, text: &str) -> (r: Option<Vec<String>>)
    ensures
        r.deep_view() == regex_captures(p.source(), text@),
{
    let groups = match raw_groups(p, text) {
        None => {
            return None;
        },
        Some(g) => g,
    };
    let ghost gv = groups.deep_view();
    let mut out: Vec<String> = Vec::new();
    if groups.len() == 0 {
        assert(out.deep_view() =~= Seq::new(0, |j: int| group_text(gv[j + 1])));
        return Some(out);
    }
    let mut k: usize = 1;
    while k < groups.len()
        invariant
            1 <= k <= groups.len(),
            gv == groups.deep_view(),
            out@.len() == k - 1,
            forall|j: int| 0 <= j < k - 1 ==> #[trigger] out@[j]@ == group_text(gv[j + 1]),
        decreases groups.len() - k,
    {
        let text_k = match &groups[k] {
            Some(t) => t.clone(),
            None => String::new(),
        };
        assert(text_k@ == group_text(gv[k as int]));
        out.push(text_k);
        k += 1;
    }
    assert(out.deep_view() =~= Seq::new((gv.len() - 1) as nat, |j: int| group_text(gv[j + 1])));
    Some(out)
}

/// Characters that `regex::escape` prefixes with a backslash (`regex_syntax::is_meta_character`).
pub open spec fn is_meta(c: char) -> bool {
    c == '\\' || c == '.' || c == '+' || c == '*' || c == '?' || c == '(' || c == ')' || c == '|'
        || c == '[' || c == ']' || c == '{' || c == '}' || c == '^' || c == '$' || c == '#' || c
        == '&' || c == '-' || c == '~'
}

/// `regex::escape`: every meta character gets a backslash in front of it.
pub open spec fn escape_spec(s: Seq<char>) -> Seq<char>
    decreases s.len(),
{
    if s.len() == 0 {
        Seq::empty()
    } else {
        escape_spec(s.drop_last()) + if is_meta(s.last()) {
            seq!['\\', s.last()]
        } else {
            seq![s.last()]
        }
    }
}

/// `regex::escape`, which prefixes each meta character with `\`.
#[verifier::external_body]
pub(crate) fn escape(s: &str) -> (r: String)
    ensures
        r@ == escape_spec(s@),
{
    regex::escape(s)
}

} // verus!
