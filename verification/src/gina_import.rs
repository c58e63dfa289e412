//! Import of GINA trigger packages (`.gtp` archives holding `ShareData.xml`).
//!
//! The archive is read by `zip`, and the XML parsed by `roxmltree` into a flat list of
//! nodes in document order; the choice of the archive entry, the walk over groups and
//! triggers, the GINA token grammar and the pattern rewriting are this module's own
//! logic.

use vstd::prelude::*;
use crate::model::{GroupView, Trigger, TriggerGroup, TriggerLibrary, TriggerView, group_views, trigger_views};
use crate::pattern::{compile, escape, escape_spec, matches_text, regex_groups, regex_valid, Pattern};
use crate::text::{
    chars_of, chars_eq, contains, contains_chars, push_all, replace_all,
    replace_chars, starts_with, string_of, sub_chars, trim, trim_chars,
};
use crate::tokens::{decimal, decimal_string};

verus! {

// ---------------------------------------------------------------------------
// The GINA token grammar.

/// `[><=]`.
pub open spec fn is_cmp_char(c: char) -> bool {
    c == '>' || c == '<' || c == '='
}

/// The regex a character must match alone to count as a digit in a GINA token: `\d`,
/// which the `regex` crate reads as any Unicode decimal digit.
pub open spec fn token_digit_pattern() -> Seq<char> {
    r"\A\d\z"@
}

/// A character that counts as a digit in a GINA token.
pub open spec fn token_digit(c: char) -> bool {
    regex_valid(token_digit_pattern()) && regex_groups(token_digit_pattern(), seq![c]) is Some
}

/// Length of the run of characters from `i` on that are token digits (when `digit`) or
/// comparison characters (otherwise).
pub open spec fn run_len(s: Seq<char>, i: int, digit: bool) -> nat
    decreases s.len() - i,
{
    if i < 0 || i >= s.len() {
        0
    } else if (digit && token_digit(s[i])) || (!digit && is_cmp_char(s[i])) {
        1 + run_len(s, i + 1, digit)
    } else {
        0
    }
}

/// The GINA token starting at `i`, as its length and the regex it stands for:
/// `{C}` and `{S…}` any text (lazy), `{N…}` and `{COUNTER}` digits, `{L}` the rest.
pub open spec fn token_at(s: Seq<char>, i: int) -> Option<(nat, Seq<char>)> {
    if !(0 <= i && i + 2 < s.len() && s[i] == '{') {
        None
    } else if s[i + 1] == 'C' && s[i + 2] == '}' {
        Some((3, ".+?"@))
    } else if s[i + 1] == 'L' && s[i + 2] == '}' {
        Some((3, ".+"@))
    } else if starts_with(s.skip(i), "{COUNTER}"@) {
        Some((9, r"\d+"@))
    } else if s[i + 1] == 'S' {
        let d = run_len(s, i + 2, true);
        if i + 2 + d < s.len() && s[i + 2 + d] == '}' {
            Some((d + 3, ".+?"@))
        } else {
            None
        }
    } else if s[i + 1] == 'N' {
        if s[i + 2] == '}' {
            Some((3, r"\d+"@))
        } else {
            let c = run_len(s, i + 2, false);
            let d = run_len(s, i + 2 + c, true);
            if c > 0 && d > 0 && i + 2 + c + d < s.len() && s[i + 2 + c + d] == '}' {
                Some((c + d + 3, r"\d+"@))
            } else {
                None
            }
        }
    } else {
        None
    }
}

/// Every GINA token from `i` on replaced by the regex it stands for.
pub open spec fn expand_from(s: Seq<char>, i: int) -> Seq<char>
    decreases s.len() - i,
{
    if i < 0 || i >= s.len() {
        Seq::empty()
    } else {
        match token_at(s, i) {
            Some((n, r)) => {
                proof {
                    lemma_token_len(s, i);
                }
                r + expand_from(s, i + n)
            },
            None => seq![s[i]] + expand_from(s, i + 1),
        }
    }
}

/// GINA tokens replaced by regex fragments (`{C}`, `{S…}` → `.+?`, `{N…}`,
/// `{COUNTER}` → `\d+`, `{L}` → `.+`).
pub open spec fn expand_gina(s: Seq<char>) -> Seq<char> {
    expand_from(s, 0)
}

/// The GINA tokens of a plain search marked: the `k`-th token becomes
/// U+E000, `k` in decimal, U+E001; and the token regexes in order.
pub open spec fn mark_from(s: Seq<char>, i: int, k: nat) -> (Seq<char>, Seq<Seq<char>>)
    decreases s.len() - i,
{
    if i < 0 || i >= s.len() {
        (Seq::empty(), Seq::empty())
    } else {
        match token_at(s, i) {
            Some((n, r)) => {
                proof {
                    lemma_token_len(s, i);
                }
                let (rest, reps) = mark_from(s, i + n, k + 1);
                (placeholder(k) + rest, seq![r] + reps)
            },
            None => {
                let (rest, reps) = mark_from(s, i + 1, k);
                (seq![s[i]] + rest, reps)
            },
        }
    }
}

/// The marker of the `k`-th token.
pub open spec fn placeholder(k: nat) -> Seq<char> {
    seq!['\u{E000}'] + decimal(k) + seq!['\u{E001}']
}

/// Markers `k` and on replaced by their regexes, in order.
pub open spec fn restore(s: Seq<char>, reps: Seq<Seq<char>>, k: nat) -> Seq<char>
    decreases reps.len() - k,
{
    if k >= reps.len() {
        s
    } else {
        restore(replace_all(s, escape_spec(placeholder(k)), reps[k as int]), reps, k + 1)
    }
}

/// A plain GINA search with tokens as an anchored regex: the text escaped, each token
/// replaced by its regex (through markers, as the tokens are marked before escaping).
pub open spec fn plain_to_regex(s: Seq<char>) -> Seq<char> {
    let (marked, reps) = mark_from(s, 0, 0);
    seq!['^'] + restore(escape_spec(marked), reps, 0) + seq!['$']
}

/// Whether the text holds something that starts a GINA token (`{C`, `{S`, `{N`, `{L`).
pub open spec fn has_gina_tokens(s: Seq<char>) -> bool {
    contains(s, "{C"@) || contains(s, "{S"@) || contains(s, "{N"@) || contains(s, "{L"@)
}

/// `dp` is the compiled token-digit regex, `None` where it does not compile.
pub open spec fn digit_regex(dp: Option<Pattern>) -> bool {
    &&& (dp is Some <==> regex_valid(token_digit_pattern()))
    &&& (dp matches Some(p) ==> p.source() == token_digit_pattern())
}

fn compile_digit_regex() -> (r: Option<Pattern>)
    ensures
        digit_regex(r),
{
    compile(r"\A\d\z")
}

fn token_digit_exec(dp: &Option<Pattern>, c: char) -> (r: bool)
    requires
        digit_regex(*dp),
    ensures
        r == token_digit(c),
{
    match dp {
        None => false,
        Some(p) => {
            let one = vec![c];
            assert(one@ =~= seq![c]);
            let text = string_of(one.as_slice());
            matches_text(p, text.as_str())
        },
    }
}

fn run_len_exec(s: &[char], i: usize, digit: bool, dp: &Option<Pattern>) -> (r: usize)
    requires
        i <= s.len(),
        digit_regex(*dp),
    ensures
        r as nat == run_len(s@, i as int, digit),
        i + r <= s.len(),
{
    let mut j: usize = i;
    while j < s.len() && ((digit && token_digit_exec(dp, s[j])) || (!digit && (s[j] == '>' || s[j]
        == '<' || s[j] == '=')))
        invariant
            i <= j <= s.len(),
            digit_regex(*dp),
            run_len(s@, i as int, digit) == (j - i) + run_len(s@, j as int, digit),
        decreases s.len() - j,
    {
        j += 1;
    }
    j - i
}

fn lit(s: &str) -> (r: Vec<char>)
    ensures
        r@ == s@,
{
    chars_of(s)
}

/// The GINA token at `i`, if any: its length and its regex.
fn token_at_exec(s: &[char], i: usize, dp: &Option<Pattern>) -> (r: Option<(usize, Vec<char>)>)
    requires
        i <= s.len(),
        digit_regex(*dp),
    ensures
        match r {
            Some((n, rx)) => token_at(s@, i as int) == Some((n as nat, rx@)),
            None => token_at(s@, i as int) is None,
        },
{
    if !(i < s.len() && s.len() - i > 2 && s[i] == '{') {
        return None;
    }
    if s[i + 1] == 'C' && s[i + 2] == '}' {
        return Some((3, lit(".+?")));
    }
    if s[i + 1] == 'L' && s[i + 2] == '}' {
        return Some((3, lit(".+")));
    }
    let rest = sub_chars(s, i, s.len());
    assert(rest@ == s@.skip(i as int));
    if crate::text::starts_with_chars(rest.as_slice(), lit("{COUNTER}").as_slice()) {
        return Some((9, lit(r"\d+")));
    }
    if s[i + 1] == 'S' {
        let d = run_len_exec(s, i + 2, true, dp);
        if i + 2 + d < s.len() && s[i + 2 + d] == '}' {
            return Some((d + 3, lit(".+?")));
        }
        return None;
    }
    if s[i + 1] == 'N' {
        if s[i + 2] == '}' {
            return Some((3, lit(r"\d+")));
        }
        let c = run_len_exec(s, i + 2, false, dp);
        let d = run_len_exec(s, i + 2 + c, true, dp);
        if c > 0 && d > 0 && i + 2 + c + d < s.len() && s[i + 2 + c + d] == '}' {
            return Some((c + d + 3, lit(r"\d+")));
        }
        return None;
    }
    None
}

/// A token found at `i` is non-empty and lies within the text.
pub proof fn lemma_token_len(s: Seq<char>, i: int)
    ensures
        token_at(s, i) matches Some((n, r)) ==> n >= 1 && i + n <= s.len(),
{
    reveal_strlit("{COUNTER}");
}

/// GINA tokens replaced by regex fragments (`{C}`, `{S…}` → `.+?`, `{N…}`,
/// `{COUNTER}` → `\d+`, `{L}` → `.+`).
pub fn expand_gina_tokens(text: &str) -> (r: String)
    ensures
        r@ == expand_gina(text@),
{
    let dp = compile_digit_regex();
    let s = chars_of(text);
    let mut out: Vec<char> = Vec::new();
    let mut i: usize = 0;
    while i < s.len()
        invariant
            i <= s.len(),
            s@ == text@,
            digit_regex(dp),
            out@ + expand_from(s@, i as int) == expand_from(s@, 0),
        decreases s.len() - i,
    {
        proof {
            lemma_token_len(s@, i as int);
        }
        match token_at_exec(s.as_slice(), i, &dp) {
            Some((n, rx)) => {
                let ghost before = out@;
                push_all(&mut out, rx.as_slice());
                assert(out@ + expand_from(s@, i + n) =~= before + (rx@ + expand_from(s@, i + n)));
                i = i + n;
            },
            None => {
                let ghost before = out@;
                out.push(s[i]);
                assert(out@ + expand_from(s@, i + 1) =~= before + (seq![s@[i as int]] + expand_from(s@, i + 1)));
                i = i + 1;
            },
        }
    }
    assert(out@ =~= out@ + expand_from(s@, i as int));
    string_of(out.as_slice())
}

fn placeholder_exec(k: usize) -> (r: Vec<char>)
    ensures
        r@ == placeholder(k as nat),
{
    let mut v: Vec<char> = Vec::new();
    v.push('\u{E000}');
    push_all(&mut v, decimal_string(k as u64).as_slice());
    v.push('\u{E001}');
    assert(v@ =~= placeholder(k as nat));
    v
}

/// A plain GINA search with tokens as an anchored regex.
pub fn gina_plain_to_regex(text: &str) -> (r: String)
    ensures
        r@ == plain_to_regex(text@),
{
    let dp = compile_digit_regex();
    let s = chars_of(text);
    let mut marked: Vec<char> = Vec::new();
    let mut reps: Vec<Vec<char>> = Vec::new();
    let mut i: usize = 0;
    while i < s.len()
        invariant
            i <= s.len(),
            s@ == text@,
            digit_regex(dp),
            reps@.len() <= i,
            ({
                let (rest, rr) = mark_from(s@, i as int, reps@.len() as nat);
                mark_from(s@, 0, 0) == (marked@ + rest, reps@.map_values(|v: Vec<char>| v@) + rr)
            }),
        decreases s.len() - i,
    {
        proof {
            lemma_token_len(s@, i as int);
        }
        match token_at_exec(s.as_slice(), i, &dp) {
            Some((n, rx)) => {
                let k = reps.len();
                let ph = placeholder_exec(k);
                let ghost mb = marked@;
                let ghost rb = reps@.map_values(|v: Vec<char>| v@);
                push_all(&mut marked, ph.as_slice());
                reps.push(rx);
                let ghost (rest, rr) = mark_from(s@, i + n, (k + 1) as nat);
                assert(reps@.map_values(|v: Vec<char>| v@) =~= rb.push(rx@));
                assert(marked@ + rest =~= mb + (placeholder(k as nat) + rest));
                assert(rb.push(rx@) + rr =~= rb + (seq![rx@] + rr));
                i = i + n;
            },
            None => {
                let ghost mb = marked@;
                marked.push(s[i]);
                let ghost (rest, rr) = mark_from(s@, i + 1, reps@.len() as nat);
                assert(marked@ + rest =~= mb + (seq![s@[i as int]] + rest));
                i = i + 1;
            },
        }
    }
    let ghost (m0, r0) = mark_from(s@, 0, 0);
    assert(marked@ =~= m0);
    assert(reps@.map_values(|v: Vec<char>| v@) =~= r0);
    let escaped = escape(string_of(marked.as_slice()).as_str());
    let mut cur = chars_of(escaped.as_str());
    let mut k: usize = 0;
    while k < reps.len()
        invariant
            k <= reps.len(),
            r0 == reps@.map_values(|v: Vec<char>| v@),
            restore(cur@, r0, k as nat) == restore(escape_spec(m0), r0, 0),
        decreases reps.len() - k,
    {
        let ph = placeholder_exec(k);
        let key = escape(string_of(ph.as_slice()).as_str());
        let kv = chars_of(key.as_str());
        proof {
            lemma_escape_nonempty(placeholder(k as nat));
        }
        cur = replace_chars(cur.as_slice(), kv.as_slice(), reps[k].as_slice());
        k += 1;
    }
    let mut out: Vec<char> = Vec::new();
    out.push('^');
    push_all(&mut out, cur.as_slice());
    out.push('$');
    assert(out@ =~= seq!['^'] + restore(escape_spec(m0), r0, 0) + seq!['$']);
    string_of(out.as_slice())
}

proof fn lemma_escape_nonempty(s: Seq<char>)
    requires
        s.len() > 0,
    ensures
        escape_spec(s).len() > 0,
    decreases s.len(),
{
    if s.len() > 1 {
        lemma_escape_nonempty(s.drop_last());
    }
}

// ---------------------------------------------------------------------------
// Atomic groups, which the `regex` crate does not support.

/// Index of the `)` closing a group whose body starts at `j`, at nesting `depth`,
/// skipping backslash escapes.
pub open spec fn close_of(s: Seq<char>, j: int, depth: nat) -> Option<int>
    decreases s.len() - j,
{
    if j < 0 || j >= s.len() {
        None
    } else if s[j] == '\\' && j + 1 < s.len() {
        close_of(s, j + 2, depth)
    } else if s[j] == '(' {
        close_of(s, j + 1, depth + 1)
    } else if s[j] == ')' {
        if depth == 0 {
            Some(j)
        } else {
            close_of(s, j + 1, (depth - 1) as nat)
        }
    } else {
        close_of(s, j + 1, depth)
    }
}

/// The closing parenthesis found from `j` lies within the text.
pub proof fn lemma_close_of(s: Seq<char>, j: int, depth: nat)
    requires
        0 <= j,
    ensures
        close_of(s, j, depth) matches Some(k) ==> j <= k < s.len(),
    decreases s.len() - j,
{
    if j < s.len() {
        if s[j] == '\\' && j + 1 < s.len() {
            lemma_close_of(s, j + 2, depth);
        } else if s[j] == '(' {
            lemma_close_of(s, j + 1, depth + 1);
        } else if s[j] == ')' {
            if depth != 0 {
                lemma_close_of(s, j + 1, (depth - 1) as nat);
            }
        } else {
            lemma_close_of(s, j + 1, depth);
        }
    }
}

/// Atomic groups `(?>…)` rewritten as non-capturing groups `(?:…)`, nested ones too; an
/// unclosed `(?>` is left as it is.
pub open spec fn fix_atomic(s: Seq<char>) -> Seq<char>
    decreases s.len(), 1int, 0int,
{
    if !contains(s, "(?>"@) {
        s
    } else {
        fix_from(s, 0)
    }
}

pub open spec fn fix_from(s: Seq<char>, i: int) -> Seq<char>
    decreases s.len(), 0int, s.len() - i,
{
    if i < 0 || i >= s.len() {
        Seq::empty()
    } else if i + 2 < s.len() && s[i] == '(' && s[i + 1] == '?' && s[i + 2] == '>' {
        match close_of(s, i + 3, 0) {
            Some(j) => {
                proof {
                    lemma_close_of(s, i + 3, 0);
                }
                "(?:"@ + fix_atomic(s.subrange(i + 3, j)) + seq![')'] + fix_from(s, j + 1)
            },
            None => seq![s[i]] + fix_from(s, i + 1),
        }
    } else {
        seq![s[i]] + fix_from(s, i + 1)
    }
}

fn fix_atomic_chars(s: &[char]) -> (r: Vec<char>)
    ensures
        r@ == fix_atomic(s@),
    decreases s.len(),
{
    if !contains_chars(s, lit("(?>").as_slice()) {
        return sub_chars(s, 0, s.len());
    }
    let mut out: Vec<char> = Vec::new();
    let mut i: usize = 0;
    while i < s.len()
        invariant
            i <= s.len(),
            contains(s@, "(?>"@),
            out@ + fix_from(s@, i as int) == fix_from(s@, 0),
        decreases s.len() - i,
    {
        if s.len() - i > 2 && s[i] == '(' && s[i + 1] == '?' && s[i + 2] == '>' {
            let mut depth: usize = 0;
            let mut j: usize = i + 3;
            let mut close: Option<usize> = None;
            while j < s.len()
                invariant_except_break
                    close is None,
                    close_of(s@, i + 3, 0) == close_of(s@, j as int, depth as nat),
                invariant
                    i + 3 <= j,
                    depth <= j,
                ensures
                    match close {
                        Some(k) => close_of(s@, i + 3, 0) == Some(k as int),
                        None => close_of(s@, i + 3, 0) is None,
                    },
                decreases s.len() - j,
            {
                if s[j] == '\\' && j + 1 < s.len() {
                    j += 2;
                } else if s[j] == '(' {
                    depth += 1;
                    j += 1;
                } else if s[j] == ')' {
                    if depth == 0 {
                        close = Some(j);
                        break;
                    }
                    depth -= 1;
                    j += 1;
                } else {
                    j += 1;
                }
            }
            match close {
                Some(k) => {
                    proof {
                        lemma_close_of(s@, i + 3, 0);
                    }
                    let inner = sub_chars(s, i + 3, k);
                    let fixed = fix_atomic_chars(inner.as_slice());
                    let ghost before = out@;
                    push_all(&mut out, lit("(?:").as_slice());
                    push_all(&mut out, fixed.as_slice());
                    out.push(')');
                    assert(out@ + fix_from(s@, k + 1) =~= before + ("(?:"@ + fixed@ + seq![')'] + fix_from(s@, k + 1)));
                    i = k + 1;
                },
                None => {
                    let ghost before = out@;
                    out.push(s[i]);
                    assert(out@ + fix_from(s@, i + 1) =~= before + (seq![s@[i as int]] + fix_from(s@, i + 1)));
                    i += 1;
                },
            }
        } else {
            let ghost before = out@;
            out.push(s[i]);
            assert(out@ + fix_from(s@, i + 1) =~= before + (seq![s@[i as int]] + fix_from(s@, i + 1)));
            i += 1;
        }
    }
    assert(out@ =~= out@ + fix_from(s@, i as int));
    out
}

/// Rewrites atomic groups `(?>…)`, which the `regex` crate cannot compile, as
/// non-capturing groups `(?:…)`.
pub fn fix_atomic_groups(s: &str) -> (r: String)
    ensures
        r@ == fix_atomic(s@),
{
    let v = chars_of(s);
    string_of(fix_atomic_chars(v.as_slice()).as_slice())
}

/// A search or early-end prepared for the engine: trimmed; `None` when empty; a regex
/// gets its tokens expanded and atomic groups fixed; a plain text with tokens becomes
/// an anchored regex; any other text stays plain.
pub open spec fn prepare(text: Seq<char>, enable_regex: bool) -> Option<(Seq<char>, bool)> {
    let t = trim(text);
    if t.len() == 0 {
        None
    } else if enable_regex {
        Some((fix_atomic(expand_gina(t)), true))
    } else if has_gina_tokens(t) {
        Some((plain_to_regex(t), true))
    } else {
        Some((t, false))
    }
}

fn prepare_pattern(text: &str, enable_regex: bool) -> (r: Option<(String, bool)>)
    ensures
        match r {
            Some((p, b)) => prepare(text@, enable_regex) == Some((p@, b)),
            None => prepare(text@, enable_regex) is None,
        },
{
    let tv = trim_chars(chars_of(text).as_slice());
    if tv.len() == 0 {
        return None;
    }
    let t = string_of(tv.as_slice());
    if enable_regex {
        let expanded = expand_gina_tokens(t.as_str());
        return Some((fix_atomic_groups(expanded.as_str()), true));
    }
    let has = contains_chars(tv.as_slice(), lit("{C").as_slice()) || contains_chars(tv.as_slice(), lit("{S").as_slice())
        || contains_chars(tv.as_slice(), lit("{N").as_slice()) || contains_chars(tv.as_slice(), lit("{L").as_slice());
    if has {
        return Some((gina_plain_to_regex(t.as_str()), true));
    }
    Some((t, false))
}

// ---------------------------------------------------------------------------
// The XML document, as `roxmltree` parses it.

/// One node of a parsed document: its id, its parent's id, whether it is an element,
/// its tag's local name (empty for other nodes) and its text (`roxmltree::Node::text`).
pub struct XmlNode {
    pub id: usize,
    pub parent: Option<usize>,
    pub element: bool,
    pub tag: String,
    pub text: Option<String>,
}

pub struct XmlNodeView {
    pub id: usize,
    pub parent: Option<usize>,
    pub element: bool,
    pub tag: Seq<char>,
    pub text: Option<Seq<char>>,
}

impl View for XmlNode {
    type V = XmlNodeView;

    open spec fn view(&self) -> XmlNodeView {
        XmlNodeView {
            id: self.id,
            parent: self.parent,
            element: self.element,
            tag: self.tag@,
            text: self.text.deep_view(),
        }
    }
}

pub open spec fn node_views(v: Seq<XmlNode>) -> Seq<XmlNodeView> {
    v.map_values(|n: XmlNode| n@)
}

/// What `roxmltree::Document::parse` gives for a text: the document's nodes in
/// document order (`Document::descendants`), or the error's message.
pub uninterp spec fn xml_parse(text: Seq<char>) -> Result<Seq<XmlNodeView>, Seq<char>>;

/// Every node's parent was created before it, so has a smaller id.
pub open spec fn parents_first(ns: Seq<XmlNodeView>) -> bool {
    forall|k: int| 0 <= k < ns.len() ==> ((#[trigger] ns[k]).parent matches Some(p) ==> p < ns[k].id)
}

/// `roxmltree::Document::parse`, its nodes listed in document order.  Ids and parents
/// are `NodeId`s; the parser appends each node after its parent, so parents come first.
#[verifier::external_body]
fn parse_xml(xml: &str) -> (r: Result<Vec<XmlNode>, String>)
    ensures
        match r {
            Ok(v) => xml_parse(xml@) == Ok::<Seq<XmlNodeView>, Seq<char>>(node_views(v@))
                && parents_first(node_views(v@)),
            Err(e) => xml_parse(xml@) == Err::<Seq<XmlNodeView>, Seq<char>>(e@),
        },
{
    match roxmltree::Document::parse(xml) {
        Ok(doc) => Ok(doc.descendants().map(|n| XmlNode {
            id: n.id().get_usize(),
            parent: n.parent().map(|p| p.id().get_usize()),
            element: n.is_element(),
            tag: n.tag_name().name().to_string(),
            text: n.text().map(|t| t.to_string()),
        }).collect()),
        Err(e) => Err(e.to_string()),
    }
}

/// The MD5 digest (`md5::compute`) of the UTF-8 bytes of a text.
pub uninterp spec fn md5_digest(text: Seq<char>) -> Seq<u8>;

/// `md5::compute` over the text's UTF-8 bytes: the 16 digest bytes.
#[verifier::external_body]
fn md5_of(text: &str) -> (r: Vec<u8>)
    ensures
        r@ == md5_digest(text@),
        r@.len() == 16,
{
    md5::compute(text.as_bytes()).0.to_vec()
}

/// A lowercase hex digit.
pub open spec fn hex_digit(n: u8) -> char
    recommends
        n < 16,
{
    if n < 10 {
        ((n + 48) as u32) as char
    } else {
        ((n + 87) as u32) as char
    }
}

/// Bytes as lowercase hex, two digits each (`{:x}` of an `md5::Digest`).
pub open spec fn hex(bytes: Seq<u8>) -> Seq<char>
    decreases bytes.len(),
{
    if bytes.len() == 0 {
        Seq::empty()
    } else {
        hex(bytes.drop_last()) + seq![hex_digit(bytes.last() / 16), hex_digit(bytes.last() % 16)]
    }
}

/// A group's id: the first 12 hex digits of the MD5 of its path label.
pub open spec fn path_id(label: Seq<char>) -> Seq<char> {
    hex(md5_digest(label)).take(12)
}

fn hex_digit_exec(n: u8) -> (r: char)
    requires
        n < 16,
    ensures
        r == hex_digit(n),
{
    if n < 10 {
        ((n + 48) as u32) as u8 as char
    } else {
        ((n + 87) as u32) as u8 as char
    }
}

proof fn lemma_hex_len(bytes: Seq<u8>)
    ensures
        hex(bytes).len() == 2 * bytes.len(),
    decreases bytes.len(),
{
    if bytes.len() > 0 {
        lemma_hex_len(bytes.drop_last());
    }
}

fn path_id_exec(label: &str) -> (r: String)
    ensures
        r@ == path_id(label@),
{
    let d = md5_of(label);
    let mut out: Vec<char> = Vec::new();
    let mut i: usize = 0;
    while i < d.len()
        invariant
            i <= d.len(),
            d@.len() == 16,
            out@ == hex(d@.take(i as int)),
        decreases d.len() - i,
    {
        let b = d[i];
        assert(d@.take(i + 1).drop_last() =~= d@.take(i as int));
        out.push(hex_digit_exec(b / 16));
        out.push(hex_digit_exec(b % 16));
        assert(out@ =~= hex(d@.take(i + 1)));
        i += 1;
    }
    assert(d@.take(16) =~= d@);
    proof {
        lemma_hex_len(d@);
    }
    string_of(sub_chars(out.as_slice(), 0, 12).as_slice())
}

// ---------------------------------------------------------------------------
// Walking the document.

/// Index of the first child of node `pid` from index `from` on with the tag.
pub open spec fn child_from(ns: Seq<XmlNodeView>, pid: usize, tag: Seq<char>, from: int) -> Option<int>
    decreases ns.len() - from,
{
    if from < 0 || from >= ns.len() {
        None
    } else if ns[from].parent == Some(pid) && ns[from].tag == tag {
        Some(from)
    } else {
        child_from(ns, pid, tag, from + 1)
    }
}

/// The first child element of node `pid` with the tag.
pub open spec fn child_of(ns: Seq<XmlNodeView>, pid: usize, tag: Seq<char>) -> Option<int> {
    child_from(ns, pid, tag, 0)
}

/// The text of the first child of node `pid` with the tag.
pub open spec fn child_text(ns: Seq<XmlNodeView>, pid: usize, tag: Seq<char>) -> Option<Seq<char>> {
    match child_of(ns, pid, tag) {
        Some(k) => ns[k].text,
        None => None,
    }
}

/// Indices of the children of node `pid` with the tag, from index `from` on, in order.
pub open spec fn tagged_kids(ns: Seq<XmlNodeView>, pid: usize, tag: Seq<char>, from: int) -> Seq<int>
    decreases ns.len() - from,
{
    if from < 0 || from >= ns.len() {
        Seq::empty()
    } else if ns[from].parent == Some(pid) && ns[from].tag == tag {
        seq![from] + tagged_kids(ns, pid, tag, from + 1)
    } else {
        tagged_kids(ns, pid, tag, from + 1)
    }
}

/// `Some("True")` as GINA writes a set flag.
pub open spec fn is_true(t: Option<Seq<char>>) -> bool {
    t == Some("True"@)
}

/// A text that is set and not empty.
pub open spec fn non_empty(t: Option<Seq<char>>) -> Option<Seq<char>> {
    match t {
        Some(s) => if s.len() > 0 {
            Some(s)
        } else {
            None
        },
        None => None,
    }
}

/// The early-end texts of the first `n` `EarlyEnder` nodes: prepared, skipping empty
/// ones and regexes that do not compile.
pub open spec fn early_ends(ns: Seq<XmlNodeView>, kids: Seq<int>, use_regex: bool, n: int) -> Seq<Seq<char>>
    decreases n,
{
    if n <= 0 {
        Seq::empty()
    } else {
        let prev = early_ends(ns, kids, use_regex, n - 1);
        let e = ns[kids[n - 1]];
        let raw = match child_text(ns, e.id, "EarlyEndText"@) {
            Some(t) => t,
            None => Seq::empty(),
        };
        if raw.len() == 0 {
            prev
        } else {
            let ee_regex = is_true(child_text(ns, e.id, "EnableRegex"@));
            match prepare(raw, ee_regex || use_regex) {
                Some((et, et_regex)) => if et_regex && !regex_valid(et) {
                    prev
                } else {
                    prev.push(et)
                },
                None => prev,
            }
        }
    }
}

/// The `idx`-th trigger node converted, or `None` when its search is empty or an
/// unsupported regex, or it would neither show, speak nor time anything.
pub open spec fn trigger_of(ns: Seq<XmlNodeView>, k: int, pid: Seq<char>, idx: nat) -> Option<TriggerView> {
    let id = ns[k].id;
    let name = match child_text(ns, id, "Name"@) {
        Some(n) => n,
        None => "Trigger"@ + seq![' '] + decimal(idx),
    };
    let raw = match child_text(ns, id, "TriggerText"@) {
        Some(t) => t,
        None => Seq::empty(),
    };
    let comments = non_empty(child_text(ns, id, "Comments"@));
    match prepare(raw, is_true(child_text(ns, id, "EnableRegex"@))) {
        None => None,
        Some((search, use_regex)) => if use_regex && !regex_valid(search) {
            None
        } else {
            let display0 = if is_true(child_text(ns, id, "UseText"@)) {
                match non_empty(child_text(ns, id, "DisplayText"@)) {
                    Some(d) => Some(d),
                    None => Some(name),
                }
            } else {
                None
            };
            let speak = if is_true(child_text(ns, id, "UseTextToVoice"@)) {
                non_empty(child_text(ns, id, "TextToVoiceText"@))
            } else {
                None
            };
            let display = if display0 is None {
                speak
            } else {
                display0
            };
            let ttype = match child_text(ns, id, "TimerType"@) {
                Some(t) => t,
                None => "NoTimer"@,
            };
            let ms = match child_text(ns, id, "TimerMillisecondDuration"@) {
                Some(t) => match crate::timers::parse_u64(t) {
                    Some(v) => v,
                    None => 0,
                },
                None => 0,
            };
            let timed = (ttype == "Timer"@ || ttype == "RepeatingTimer"@) && ms > 0;
            let secs: u64 = if ms / 1000 > 1 {
                (ms / 1000) as u64
            } else {
                1
            };
            let early = match child_of(ns, id, "TimerEarlyEnders"@) {
                Some(e) => {
                    let kids = tagged_kids(ns, ns[e].id, "EarlyEnder"@, 0);
                    early_ends(ns, kids, use_regex, kids.len() as int)
                },
                None => Seq::empty(),
            };
            if display is None && speak is None && !timed {
                None
            } else {
                Some(
                    TriggerView {
                        id: pid + seq!['-'] + decimal(idx),
                        name,
                        enabled: true,
                        search,
                        use_regex,
                        display_text: display,
                        timer_seconds: if timed {
                            Some(secs)
                        } else {
                            None
                        },
                        timer_name: if timed {
                            match non_empty(child_text(ns, id, "TimerName"@)) {
                                Some(n) => Some(n),
                                None => Some(name),
                            }
                        } else {
                            None
                        },
                        early_end: early,
                        sound: None,
                        speak,
                        tts_enabled: true,
                        comments,
                    },
                )
            }
        },
    }
}

/// The duration in milliseconds a trigger node gives: its `TimerMillisecondDuration`
/// read as a number, 0 when missing or not a number.
pub open spec fn node_timer_ms(ns: Seq<XmlNodeView>, id: usize) -> u64 {
    match child_text(ns, id, "TimerMillisecondDuration"@) {
        Some(t) => match crate::timers::parse_u64(t) {
            Some(v) => v,
            None => 0,
        },
        None => 0,
    }
}

/// A GINA trigger node times exactly when its `TimerType` is `Timer` or `RepeatingTimer`
/// and its duration is positive.  Such a node converts (wherever its search does) to a
/// trigger timed for the whole seconds of the duration, at least one, under a timer name;
/// any other node converts to a trigger without a timer.
pub proof fn law_gina_timers(ns: Seq<XmlNodeView>, k: int, pid: Seq<char>, idx: nat)
    ensures
        ({
            let id = ns[k].id;
            let ttype = child_text(ns, id, "TimerType"@);
            let ms = node_timer_ms(ns, id);
            let timed = (ttype == Some("Timer"@) || ttype == Some("RepeatingTimer"@)) && ms > 0;
            let raw = match child_text(ns, id, "TriggerText"@) {
                Some(t) => t,
                None => Seq::empty(),
            };
            &&& (timed ==> (trigger_of(ns, k, pid, idx) matches Some(t) ==> t.timer_seconds == Some(
                if ms / 1000 > 1 {
                    (ms / 1000) as u64
                } else {
                    1u64
                },
            ) && t.timer_name is Some))
            &&& (timed ==> (prepare(raw, is_true(child_text(ns, id, "EnableRegex"@))) matches Some((search, r))
                && !(r && !regex_valid(search)) ==> trigger_of(ns, k, pid, idx) is Some))
            &&& (!timed ==> (trigger_of(ns, k, pid, idx) matches Some(t) ==> t.timer_seconds is None
                && t.timer_name is None))
        }),
{
    let id = ns[k].id;
    let ttype = child_text(ns, id, "TimerType"@);
    if ttype == Some("Timer"@) || ttype == Some("RepeatingTimer"@) {
        assert(match ttype {
            Some(t) => t,
            None => "NoTimer"@,
        } == "Timer"@ || match ttype {
            Some(t) => t,
            None => "NoTimer"@,
        } == "RepeatingTimer"@);
    } else {
        if ttype is None {
            reveal_strlit("NoTimer");
            reveal_strlit("Timer");
            reveal_strlit("RepeatingTimer");
            assert("NoTimer"@.len() != "Timer"@.len());
            assert("NoTimer"@.len() != "RepeatingTimer"@.len());
        }
    }
}

/// The first `n` trigger nodes converted; a node's index counts every trigger node.
pub open spec fn convert_all(ns: Seq<XmlNodeView>, kids: Seq<int>, pid: Seq<char>, n: int) -> Seq<TriggerView>
    decreases n,
{
    if n <= 0 {
        Seq::empty()
    } else {
        let prev = convert_all(ns, kids, pid, n - 1);
        match trigger_of(ns, kids[n - 1], pid, (n - 1) as nat) {
            Some(t) => prev.push(t),
            None => prev,
        }
    }
}

/// Names joined with a separator.
pub open spec fn join(parts: Seq<Seq<char>>, sep: Seq<char>) -> Seq<char>
    decreases parts.len(),
{
    if parts.len() == 0 {
        Seq::empty()
    } else if parts.len() == 1 {
        parts[0]
    } else {
        join(parts.drop_last(), sep) + sep + parts.last()
    }
}

/// The groups of a `TriggerGroup` node and its nested groups, in document order: one
/// disabled group per node with converted triggers, named by its path.
pub open spec fn walk_group(ns: Seq<XmlNodeView>, k: int, path: Seq<Seq<char>>) -> Seq<GroupView>
    decreases usize::MAX - ns[k].id, 1int, 0int,
{
    let id = ns[k].id;
    let name = match child_text(ns, id, "Name"@) {
        Some(n) => n,
        None => "Unnamed"@,
    };
    let full = path.push(name);
    let here = match child_of(ns, id, "Triggers"@) {
        Some(t) => {
            let label = join(full, " / "@);
            let pid = path_id(label);
            let kids = tagged_kids(ns, ns[t].id, "Trigger"@, 0);
            let conv = convert_all(ns, kids, pid, kids.len() as int);
            if conv.len() > 0 {
                seq![GroupView { id: pid, name: label, enabled: false, triggers: conv }]
            } else {
                Seq::empty()
            }
        },
        None => Seq::empty(),
    };
    let nested = match child_of(ns, id, "TriggerGroups"@) {
        Some(g) => walk_list(ns, id, tagged_kids(ns, ns[g].id, "TriggerGroup"@, 0), 0, full),
        None => Seq::empty(),
    };
    here + nested
}

/// The groups of the listed `TriggerGroup` nodes from `j` on (each below `anchor`).
pub open spec fn walk_list(ns: Seq<XmlNodeView>, anchor: usize, list: Seq<int>, j: int, path: Seq<Seq<char>>) -> Seq<GroupView>
    decreases usize::MAX - anchor, 0int, list.len() - j,
{
    if j < 0 || j >= list.len() {
        Seq::empty()
    } else {
        let c = list[j];
        let mine = if 0 <= c < ns.len() && ns[c].id > anchor {
            walk_group(ns, c, path)
        } else {
            Seq::empty()
        };
        mine + walk_list(ns, anchor, list, j + 1, path)
    }
}

proof fn lemma_child_from(ns: Seq<XmlNodeView>, pid: usize, tag: Seq<char>, from: int)
    requires
        0 <= from,
    ensures
        child_from(ns, pid, tag, from) matches Some(k) ==> from <= k < ns.len() && ns[k].parent == Some(pid)
            && ns[k].tag == tag,
    decreases ns.len() - from,
{
    if from < ns.len() && !(ns[from].parent == Some(pid) && ns[from].tag == tag) {
        lemma_child_from(ns, pid, tag, from + 1);
    }
}

proof fn lemma_tagged_kids(ns: Seq<XmlNodeView>, pid: usize, tag: Seq<char>, from: int)
    requires
        0 <= from,
    ensures
        forall|j: int|
            0 <= j < tagged_kids(ns, pid, tag, from).len() ==> from <= #[trigger] tagged_kids(ns, pid, tag, from)[j]
                < ns.len() && ns[tagged_kids(ns, pid, tag, from)[j]].parent == Some(pid),
    decreases ns.len() - from,
{
    if from < ns.len() {
        lemma_tagged_kids(ns, pid, tag, from + 1);
        let rest = tagged_kids(ns, pid, tag, from + 1);
        if ns[from].parent == Some(pid) && ns[from].tag == tag {
            assert forall|j: int| 0 <= j < tagged_kids(ns, pid, tag, from).len() implies from <= #[trigger] tagged_kids(ns, pid, tag, from)[j]
                < ns.len() && ns[tagged_kids(ns, pid, tag, from)[j]].parent == Some(pid) by {
                if j > 0 {
                    assert(tagged_kids(ns, pid, tag, from)[j] == rest[j - 1]);
                }
            }
        }
    }
}

fn text_is(s: &String, lit: &str) -> (r: bool)
    ensures
        r == (s@ == lit@),
{
    chars_eq(chars_of(s.as_str()).as_slice(), chars_of(lit).as_slice())
}

fn child_of_exec(ns: &Vec<XmlNode>, pid: usize, tag: &str) -> (r: Option<usize>)
    ensures
        match r {
            Some(k) => child_of(node_views(ns@), pid, tag@) == Some(k as int),
            None => child_of(node_views(ns@), pid, tag@) is None,
        },
{
    let ghost nv = node_views(ns@);
    let mut i: usize = 0;
    while i < ns.len()
        invariant
            i <= ns.len(),
            nv == node_views(ns@),
            child_from(nv, pid, tag@, 0) == child_from(nv, pid, tag@, i as int),
        decreases ns.len() - i,
    {
        assert(nv[i as int] == ns@[i as int]@);
        if ns[i].parent == Some(pid) && text_is(&ns[i].tag, tag) {
            return Some(i);
        }
        i += 1;
    }
    None
}

fn child_text_exec(ns: &Vec<XmlNode>, pid: usize, tag: &str) -> (r: Option<String>)
    ensures
        r.deep_view() == child_text(node_views(ns@), pid, tag@),
{
    match child_of_exec(ns, pid, tag) {
        Some(k) => {
            proof {
                lemma_child_from(node_views(ns@), pid, tag@, 0);
            }
            assert(node_views(ns@)[k as int] == ns@[k as int]@);
            match &ns[k].text {
                Some(t) => Some(t.clone()),
                None => None,
            }
        },
        None => None,
    }
}

fn child_is_true(ns: &Vec<XmlNode>, pid: usize, tag: &str) -> (r: bool)
    ensures
        r == is_true(child_text(node_views(ns@), pid, tag@)),
{
    match child_text_exec(ns, pid, tag) {
        Some(t) => text_is(&t, "True"),
        None => false,
    }
}

fn non_empty_exec(t: Option<String>) -> (r: Option<String>)
    ensures
        r.deep_view() == non_empty(t.deep_view()),
{
    match t {
        Some(s) => if s.as_str().is_empty() {
            None
        } else {
            Some(s)
        },
        None => None,
    }
}

fn tagged_kids_exec(ns: &Vec<XmlNode>, pid: usize, tag: &str) -> (r: Vec<usize>)
    ensures
        r@.map_values(|x: usize| x as int) == tagged_kids(node_views(ns@), pid, tag@, 0),
{
    let ghost nv = node_views(ns@);
    let mut out: Vec<usize> = Vec::new();
    let mut i: usize = 0;
    while i < ns.len()
        invariant
            i <= ns.len(),
            nv == node_views(ns@),
            out@.map_values(|x: usize| x as int) + tagged_kids(nv, pid, tag@, i as int) == tagged_kids(nv, pid, tag@, 0),
        decreases ns.len() - i,
    {
        assert(nv[i as int] == ns@[i as int]@);
        if ns[i].parent == Some(pid) && text_is(&ns[i].tag, tag) {
            let ghost before = out@.map_values(|x: usize| x as int);
            out.push(i);
            assert(out@.map_values(|x: usize| x as int) =~= before.push(i as int));
            assert(before.push(i as int) + tagged_kids(nv, pid, tag@, i + 1) =~= before + (seq![i as int] + tagged_kids(nv, pid, tag@, i + 1)));
        }
        i += 1;
    }
    assert(out@.map_values(|x: usize| x as int) =~= out@.map_values(|x: usize| x as int) + tagged_kids(nv, pid, tag@, i as int));
    out
}

fn early_ends_exec(ns: &Vec<XmlNode>, kids: &Vec<usize>, use_regex: bool) -> (r: Vec<String>)
    requires
        forall|j: int| 0 <= j < kids@.len() ==> #[trigger] kids@[j] < ns@.len(),
    ensures
        r.deep_view() == early_ends(node_views(ns@), kids@.map_values(|x: usize| x as int), use_regex, kids@.len() as int),
{
    let ghost nv = node_views(ns@);
    let ghost kv = kids@.map_values(|x: usize| x as int);
    let mut out: Vec<String> = Vec::new();
    let mut j: usize = 0;
    while j < kids.len()
        invariant
            j <= kids.len(),
            nv == node_views(ns@),
            kv == kids@.map_values(|x: usize| x as int),
            forall|q: int| 0 <= q < kids@.len() ==> #[trigger] kids@[q] < ns@.len(),
            out.deep_view() == early_ends(nv, kv, use_regex, j as int),
        decreases kids.len() - j,
    {
        let e = &ns[kids[j]];
        assert(nv[kv[j as int]] == e@);
        let raw = match child_text_exec(ns, e.id, "EarlyEndText") {
            Some(t) => t,
            None => String::new(),
        };
        if !raw.as_str().is_empty() {
            let ee_regex = child_is_true(ns, e.id, "EnableRegex");
            match prepare_pattern(raw.as_str(), ee_regex || use_regex) {
                Some((et, et_regex)) => {
                    let ok = if et_regex {
                        compile(et.as_str()).is_some()
                    } else {
                        true
                    };
                    if ok {
                        let ghost before = out.deep_view();
                        out.push(et);
                        assert(out.deep_view() =~= before.push(et@));
                    }
                },
                None => {},
            }
        }
        j += 1;
    }
    out
}

fn numbered(prefix: &str, sep: char, idx: usize) -> (r: String)
    ensures
        r@ == prefix@ + seq![sep] + decimal(idx as nat),
{
    let mut v = chars_of(prefix);
    v.push(sep);
    push_all(&mut v, decimal_string(idx as u64).as_slice());
    string_of(v.as_slice())
}

fn convert_trigger(ns: &Vec<XmlNode>, k: usize, pid: &String, idx: usize) -> (r: Option<Trigger>)
    requires
        k < ns@.len(),
    ensures
        match r {
            Some(t) => trigger_of(node_views(ns@), k as int, pid@, idx as nat) == Some(t@),
            None => trigger_of(node_views(ns@), k as int, pid@, idx as nat) is None,
        },
{
    let ghost nv = node_views(ns@);
    let id = ns[k].id;
    assert(nv[k as int].id == id);
    let name = match child_text_exec(ns, id, "Name") {
        Some(n) => n,
        None => numbered("Trigger", ' ', idx),
    };
    let raw = match child_text_exec(ns, id, "TriggerText") {
        Some(t) => t,
        None => String::new(),
    };
    let comments = non_empty_exec(child_text_exec(ns, id, "Comments"));
    let (search, use_regex) = match prepare_pattern(raw.as_str(), child_is_true(ns, id, "EnableRegex")) {
        Some(p) => p,
        None => {
            return None;
        },
    };
    if use_regex && compile(search.as_str()).is_none() {
        return None;
    }
    let display0 = if child_is_true(ns, id, "UseText") {
        match non_empty_exec(child_text_exec(ns, id, "DisplayText")) {
            Some(d) => Some(d),
            None => Some(name.clone()),
        }
    } else {
        None
    };
    let speak = if child_is_true(ns, id, "UseTextToVoice") {
        non_empty_exec(child_text_exec(ns, id, "TextToVoiceText"))
    } else {
        None
    };
    let display = if display0.is_none() {
        match &speak {
            Some(x) => Some(x.clone()),
            None => None,
        }
    } else {
        display0
    };
    let ttype = match child_text_exec(ns, id, "TimerType") {
        Some(t) => t,
        None => String::from_str("NoTimer"),
    };
    let ms = match child_text_exec(ns, id, "TimerMillisecondDuration") {
        Some(t) => match crate::timers::parse_u64_exec(t.as_str()) {
            Some(v) => v,
            None => 0,
        },
        None => 0,
    };
    let timed = (text_is(&ttype, "Timer") || text_is(&ttype, "RepeatingTimer")) && ms > 0;
    let secs: u64 = if ms / 1000 > 1 {
        ms / 1000
    } else {
        1
    };
    let early = match child_of_exec(ns, id, "TimerEarlyEnders") {
        Some(e) => {
            proof {
                lemma_child_from(nv, id, "TimerEarlyEnders"@, 0);
            }
            assert(nv[e as int].id == ns@[e as int].id);
            let kids = tagged_kids_exec(ns, ns[e].id, "EarlyEnder");
            proof {
                lemma_tagged_kids(nv, ns@[e as int].id, "EarlyEnder"@, 0);
                assert forall|j: int| 0 <= j < kids@.len() implies #[trigger] kids@[j] < ns@.len() by {
                    assert(kids@.map_values(|x: usize| x as int)[j] == kids@[j] as int);
                }
            }
            early_ends_exec(ns, &kids, use_regex)
        },
        None => Vec::new(),
    };
    if display.is_none() && speak.is_none() && !timed {
        return None;
    }
    let timer_name = if timed {
        match non_empty_exec(child_text_exec(ns, id, "TimerName")) {
            Some(n) => Some(n),
            None => Some(name.clone()),
        }
    } else {
        None
    };
    let t = Trigger {
        id: numbered(pid.as_str(), '-', idx),
        name,
        enabled: true,
        search,
        use_regex,
        display_text: display,
        timer_seconds: if timed {
            Some(secs)
        } else {
            None
        },
        timer_name,
        early_end: early,
        sound: None,
        speak,
        tts_enabled: true,
        comments,
    };
    Some(t)
}

fn convert_all_exec(ns: &Vec<XmlNode>, kids: &Vec<usize>, pid: &String) -> (r: Vec<Trigger>)
    requires
        forall|j: int| 0 <= j < kids@.len() ==> #[trigger] kids@[j] < ns@.len(),
    ensures
        trigger_views(r@) == convert_all(node_views(ns@), kids@.map_values(|x: usize| x as int), pid@, kids@.len() as int),
{
    let ghost kv = kids@.map_values(|x: usize| x as int);
    let mut out: Vec<Trigger> = Vec::new();
    let mut j: usize = 0;
    while j < kids.len()
        invariant
            j <= kids.len(),
            kv == kids@.map_values(|x: usize| x as int),
            forall|q: int| 0 <= q < kids@.len() ==> #[trigger] kids@[q] < ns@.len(),
            trigger_views(out@) == convert_all(node_views(ns@), kv, pid@, j as int),
        decreases kids.len() - j,
    {
        match convert_trigger(ns, kids[j], pid, j) {
            Some(t) => {
                let ghost before = trigger_views(out@);
                out.push(t);
                assert(trigger_views(out@) =~= before.push(out@.last()@));
            },
            None => {},
        }
        j += 1;
    }
    out
}

fn join_exec(parts: &Vec<String>, sep: &str) -> (r: String)
    ensures
        r@ == join(parts.deep_view(), sep@),
{
    let ghost pv = parts.deep_view();
    let mut out: Vec<char> = Vec::new();
    let mut i: usize = 0;
    while i < parts.len()
        invariant
            i <= parts.len(),
            pv == parts.deep_view(),
            out@ == join(pv.take(i as int), sep@),
        decreases parts.len() - i,
    {
        assert(pv.take(i + 1).drop_last() =~= pv.take(i as int));
        assert(pv.take(i + 1).last() == parts@[i as int]@);
        if i > 0 {
            push_all(&mut out, chars_of(sep).as_slice());
        } else {
            assert(pv.take(1) =~= seq![pv[0]]);
        }
        push_all(&mut out, chars_of(parts[i].as_str()).as_slice());
        i += 1;
    }
    assert(pv.take(parts.len() as int) =~= pv);
    string_of(out.as_slice())
}

/// Walks a `TriggerGroup` node, appending its group and its nested groups.
fn walk_group_exec(ns: &Vec<XmlNode>, k: usize, path: &Vec<String>, out: &mut Vec<TriggerGroup>)
    requires
        k < ns@.len(),
        parents_first(node_views(ns@)),
    ensures
        group_views(final(out)@) == group_views(old(out)@) + walk_group(node_views(ns@), k as int, path.deep_view()),
    decreases usize::MAX - ns@[k as int].id, 1int, 0int,
{
    let ghost nv = node_views(ns@);
    let id = ns[k].id;
    assert(nv[k as int].id == id);
    let name = match child_text_exec(ns, id, "Name") {
        Some(n) => n,
        None => String::from_str("Unnamed"),
    };
    let mut full: Vec<String> = crate::model::copy_strings(path);
    full.push(name);
    let ghost fv = full.deep_view();
    assert(fv =~= path.deep_view().push(name@));
    let ghost before = group_views(out@);
    match child_of_exec(ns, id, "Triggers") {
        Some(t) => {
            proof {
                lemma_child_from(nv, id, "Triggers"@, 0);
            }
            assert(nv[t as int].id == ns@[t as int].id);
            let label = join_exec(&full, " / ");
            let pid = path_id_exec(label.as_str());
            let kids = tagged_kids_exec(ns, ns[t].id, "Trigger");
            proof {
                lemma_tagged_kids(nv, ns@[t as int].id, "Trigger"@, 0);
                assert forall|j: int| 0 <= j < kids@.len() implies #[trigger] kids@[j] < ns@.len() by {
                    assert(kids@.map_values(|x: usize| x as int)[j] == kids@[j] as int);
                }
            }
            let conv = convert_all_exec(ns, &kids, &pid);
            if conv.len() > 0 {
                let g = TriggerGroup { id: pid, name: label, enabled: false, triggers: conv };
                out.push(g);
                assert(group_views(out@) =~= before.push(g@));
            }
        },
        None => {},
    }
    let ghost mid = group_views(out@);
    match child_of_exec(ns, id, "TriggerGroups") {
        Some(g) => {
            proof {
                lemma_child_from(nv, id, "TriggerGroups"@, 0);
            }
            assert(nv[g as int].id == ns@[g as int].id);
            assert(nv[g as int].parent == Some(id));
            assert(ns@[g as int].id > id) by {
                assert(nv[g as int] == ns@[g as int]@);
            }
            let kids = tagged_kids_exec(ns, ns[g].id, "TriggerGroup");
            proof {
                lemma_tagged_kids(nv, ns@[g as int].id, "TriggerGroup"@, 0);
                assert forall|j: int| 0 <= j < kids@.len() implies #[trigger] kids@[j] < ns@.len() && ns@[kids@[j] as int].id > id by {
                    assert(kids@.map_values(|x: usize| x as int)[j] == kids@[j] as int);
                    assert(nv[kids@[j] as int] == ns@[kids@[j] as int]@);
                }
            }
            walk_list_exec(ns, id, &kids, 0, &full, out);
        },
        None => {},
    }
    assert(group_views(out@) =~= before + walk_group(nv, k as int, path.deep_view()));
}

/// Walks the listed `TriggerGroup` nodes from `j` on.
fn walk_list_exec(ns: &Vec<XmlNode>, anchor: usize, list: &Vec<usize>, j: usize, path: &Vec<String>, out: &mut Vec<TriggerGroup>)
    requires
        parents_first(node_views(ns@)),
        j <= list@.len(),
        forall|q: int| 0 <= q < list@.len() ==> #[trigger] list@[q] < ns@.len() && ns@[list@[q] as int].id > anchor,
    ensures
        group_views(final(out)@) == group_views(old(out)@) + walk_list(
            node_views(ns@),
            anchor,
            list@.map_values(|x: usize| x as int),
            j as int,
            path.deep_view(),
        ),
    decreases usize::MAX - anchor, 0int, list@.len() - j,
{
    let ghost nv = node_views(ns@);
    let ghost lv = list@.map_values(|x: usize| x as int);
    let ghost before = group_views(out@);
    if j >= list.len() {
        assert(group_views(out@) =~= before + Seq::<GroupView>::empty());
        return;
    }
    let c = list[j];
    assert(lv[j as int] == c as int);
    assert(nv[c as int].id == ns@[c as int].id);
    walk_group_exec(ns, c, path, out);
    let ghost mid = group_views(out@);
    walk_list_exec(ns, anchor, list, j + 1, path, out);
    assert(group_views(out@) =~= before + walk_list(nv, anchor, lv, j as int, path.deep_view()));
}

/// Index of the first element child of node `pid` from index `from` on.
pub open spec fn first_element_from(ns: Seq<XmlNodeView>, pid: usize, from: int) -> Option<int>
    decreases ns.len() - from,
{
    if from < 0 || from >= ns.len() {
        None
    } else if ns[from].parent == Some(pid) && ns[from].element {
        Some(from)
    } else {
        first_element_from(ns, pid, from + 1)
    }
}

/// The groups under the first `n` `TriggerGroups` sections of the root element.
pub open spec fn sections(ns: Seq<XmlNodeView>, rid: usize, secs: Seq<int>, n: int) -> Seq<GroupView>
    decreases n,
{
    if n <= 0 {
        Seq::empty()
    } else {
        sections(ns, rid, secs, n - 1) + walk_list(
            ns,
            rid,
            tagged_kids(ns, ns[secs[n - 1]].id, "TriggerGroup"@, 0),
            0,
            Seq::empty(),
        )
    }
}

/// The groups of a parsed `ShareData.xml`: every `TriggerGroup` under the root
/// element's `TriggerGroups`, walked in document order.
pub open spec fn share_groups(ns: Seq<XmlNodeView>) -> Seq<GroupView> {
    if ns.len() == 0 {
        Seq::empty()
    } else {
        match first_element_from(ns, ns[0].id, 0) {
            None => Seq::empty(),
            Some(r) => {
                let secs = tagged_kids(ns, ns[r].id, "TriggerGroups"@, 0);
                sections(ns, ns[r].id, secs, secs.len() as int)
            },
        }
    }
}

/// `ShareData.xml` parsed into groups, or `xml parse: ` and the parser's message.
pub open spec fn share_data(xml: Seq<char>) -> Result<Seq<GroupView>, Seq<char>> {
    match xml_parse(xml) {
        Ok(ns) => Ok(share_groups(ns)),
        Err(m) => Err("xml parse: "@ + m),
    }
}

proof fn lemma_first_element(ns: Seq<XmlNodeView>, pid: usize, from: int)
    requires
        0 <= from,
    ensures
        first_element_from(ns, pid, from) matches Some(k) ==> from <= k < ns.len() && ns[k].parent == Some(pid),
    decreases ns.len() - from,
{
    if from < ns.len() && !(ns[from].parent == Some(pid) && ns[from].element) {
        lemma_first_element(ns, pid, from + 1);
    }
}

fn first_element_exec(ns: &Vec<XmlNode>, pid: usize) -> (r: Option<usize>)
    ensures
        match r {
            Some(k) => first_element_from(node_views(ns@), pid, 0) == Some(k as int),
            None => first_element_from(node_views(ns@), pid, 0) is None,
        },
{
    let ghost nv = node_views(ns@);
    let mut i: usize = 0;
    while i < ns.len()
        invariant
            i <= ns.len(),
            nv == node_views(ns@),
            first_element_from(nv, pid, 0) == first_element_from(nv, pid, i as int),
        decreases ns.len() - i,
    {
        assert(nv[i as int] == ns@[i as int]@);
        if ns[i].parent == Some(pid) && ns[i].element {
            return Some(i);
        }
        i += 1;
    }
    None
}

fn parse_share_data(xml: &str) -> (r: Result<TriggerLibrary, String>)
    ensures
        match r {
            Ok(lib) => share_data(xml@) == Ok::<Seq<GroupView>, Seq<char>>(lib@),
            Err(e) => share_data(xml@) == Err::<Seq<GroupView>, Seq<char>>(e@),
        },
{
    let ns = match parse_xml(xml) {
        Ok(v) => v,
        Err(e) => {
            let mut m = chars_of("xml parse: ");
            push_all(&mut m, chars_of(e.as_str()).as_slice());
            return Err(string_of(m.as_slice()));
        },
    };
    let ghost nv = node_views(ns@);
    let mut groups: Vec<TriggerGroup> = Vec::new();
    if ns.len() == 0 {
        assert(group_views(groups@) =~= Seq::<GroupView>::empty());
        return Ok(TriggerLibrary { groups });
    }
    assert(nv[0] == ns@[0]@);
    let root_id = ns[0].id;
    let r = match first_element_exec(&ns, root_id) {
        Some(r) => r,
        None => {
            assert(group_views(groups@) =~= Seq::<GroupView>::empty());
            return Ok(TriggerLibrary { groups });
        },
    };
    proof {
        lemma_first_element(nv, root_id, 0);
    }
    let rid = ns[r].id;
    assert(nv[r as int].id == rid);
    let secs = tagged_kids_exec(&ns, rid, "TriggerGroups");
    proof {
        lemma_tagged_kids(nv, rid, "TriggerGroups"@, 0);
    }
    let ghost sv = secs@.map_values(|x: usize| x as int);
    let empty: Vec<String> = Vec::new();
    assert(empty.deep_view() =~= Seq::<Seq<char>>::empty());
    let mut i: usize = 0;
    while i < secs.len()
        invariant
            i <= secs.len(),
            nv == node_views(ns@),
            parents_first(nv),
            sv == secs@.map_values(|x: usize| x as int),
            forall|j: int| 0 <= j < sv.len() ==> 0 <= #[trigger] sv[j] < nv.len() && nv[sv[j]].parent == Some(rid),
            empty.deep_view() == Seq::<Seq<char>>::empty(),
            group_views(groups@) == sections(nv, rid, sv, i as int),
        decreases secs.len() - i,
    {
        let sec = secs[i];
        assert(sv[i as int] == sec as int);
        assert(nv[sec as int] == ns@[sec as int]@);
        let kids = tagged_kids_exec(&ns, ns[sec].id, "TriggerGroup");
        proof {
            lemma_tagged_kids(nv, ns@[sec as int].id, "TriggerGroup"@, 0);
            assert forall|q: int| 0 <= q < kids@.len() implies #[trigger] kids@[q] < ns@.len() && ns@[kids@[q] as int].id > rid by {
                assert(kids@.map_values(|x: usize| x as int)[q] == kids@[q] as int);
                assert(nv[kids@[q] as int] == ns@[kids@[q] as int]@);
            }
        }
        walk_list_exec(&ns, rid, &kids, 0, &empty, &mut groups);
        i += 1;
    }
    Ok(TriggerLibrary { groups })
}


/// The library an imported `ShareData.xml` gives: its groups, with the permanent buffs
/// among `spells` stripped and the mez timers aligned; `Err` when the XML does not
/// parse, or the library is too large to count its changes.
pub open spec fn import_spec(xml: Seq<char>, spells: Seq<Seq<char>>) -> Result<Seq<GroupView>, Seq<char>> {
    match share_data(xml) {
        Err(e) => Err(e),
        Ok(gs) => if !crate::starter::countable(gs) {
            Err("library too large"@)
        } else {
            Ok(crate::starter::mez_spec(crate::eql_compat::stripped_groups(gs, crate::eql_compat::permanent_set(spells))).0)
        },
    }
}

/// Imports GINA `ShareData.xml` text (as found in a `.gtp` package).
pub fn import_gina_package(xml: &str, permanent_spells: &Vec<String>) -> (r: Result<TriggerLibrary, String>)
    ensures
        match r {
            Ok(lib) => import_spec(xml@, permanent_spells.deep_view()) == Ok::<Seq<GroupView>, Seq<char>>(lib@),
            Err(e) => import_spec(xml@, permanent_spells.deep_view()) == Err::<Seq<GroupView>, Seq<char>>(e@),
        },
{
    let mut library = match parse_share_data(xml) {
        Ok(l) => l,
        Err(e) => {
            return Err(e);
        },
    };
    if !crate::starter::library_is_countable(&library) {
        return Err(String::from_str("library too large"));
    }
    let ghost gs = library@;
    proof {
        crate::starter::lemma_upto_grows(gs, gs.len() as int, gs.len() as int);
    }
    let _ = crate::eql_compat::strip_permanent_buff_timers(&mut library, permanent_spells);
    proof {
        crate::eql_compat::lemma_stripped_sizes(gs, crate::eql_compat::permanent_set(permanent_spells.deep_view()), gs.len() as int);
    }
    let _ = crate::starter::ensure_eql_mez_timers(&mut library);
    Ok(library)
}

/// The first `n` imported groups merged in: a group replaces the first with its id,
/// or is appended.
pub open spec fn merge_spec(gs: Seq<GroupView>, incoming: Seq<GroupView>, n: int) -> Seq<GroupView>
    decreases n,
{
    if n <= 0 {
        gs
    } else {
        let prev = merge_spec(gs, incoming, n - 1);
        let g = incoming[n - 1];
        match crate::starter::find_group(prev, crate::starter::same_id_fn(g.id), 0) {
            Some(i) => prev.update(i, g),
            None => prev.push(g),
        }
    }
}

/// `q` is the first index of a group with id `d`.
pub open spec fn first_at(gs: Seq<GroupView>, d: Seq<char>, q: int) -> bool {
    &&& 0 <= q < gs.len()
    &&& gs[q].id == d
    &&& forall|r: int| 0 <= r < q ==> (#[trigger] gs[r]).id != d
}

/// The last of the first `k` imported groups with id `d`.
pub open spec fn last_import(inc: Seq<GroupView>, d: Seq<char>, k: int) -> Option<int>
    decreases k,
{
    if k <= 0 {
        None
    } else if inc[k - 1].id == d {
        Some(k - 1)
    } else {
        last_import(inc, d, k - 1)
    }
}

/// What merging the first `k` imported groups leaves at index `q` of `m`: the last
/// imported group with that id where `q` is the first index with it, else the base's.
pub open spec fn merged_at(base: Seq<GroupView>, inc: Seq<GroupView>, k: int, m: Seq<GroupView>, q: int) -> GroupView {
    match last_import(inc, m[q].id, k) {
        Some(j) => if first_at(m, m[q].id, q) {
            inc[j]
        } else {
            base[q]
        },
        None => base[q],
    }
}

proof fn lemma_find_first(gs: Seq<GroupView>, d: Seq<char>, from: int)
    requires
        0 <= from <= gs.len(),
        forall|r: int| 0 <= r < from ==> (#[trigger] gs[r]).id != d,
    ensures
        match crate::starter::find_group(gs, crate::starter::same_id_fn(d), from) {
            Some(p) => first_at(gs, d, p),
            None => forall|r: int| 0 <= r < gs.len() ==> (#[trigger] gs[r]).id != d,
        },
    decreases gs.len() - from,
{
    if from < gs.len() && gs[from].id != d {
        lemma_find_first(gs, d, from + 1);
    }
}

proof fn lemma_last_import_range(inc: Seq<GroupView>, d: Seq<char>, k: int)
    ensures
        last_import(inc, d, k) matches Some(j) ==> 0 <= j < k && inc[j].id == d,
    decreases k,
{
    if k > 0 && inc[k - 1].id != d {
        lemma_last_import_range(inc, d, k - 1);
    }
}

/// Some group has id `d`.
pub open spec fn has_id(gs: Seq<GroupView>, d: Seq<char>) -> bool {
    exists|q: int| first_at(gs, d, q)
}

/// The shape of `m`, the merge of the first `k` imported groups into `base`: the base's
/// groups keep their places and ids; the first index with an imported id holds the last
/// imported group with it, every other base index its base group; the appended groups
/// are imported ids new to the base; and every imported id is present.
pub open spec fn merge_shape(base: Seq<GroupView>, inc: Seq<GroupView>, k: int, m: Seq<GroupView>) -> bool {
    &&& m.len() >= base.len()
    &&& forall|q: int| 0 <= q < base.len() ==> (#[trigger] m[q]).id == base[q].id
    &&& forall|q: int| 0 <= q < m.len() ==> #[trigger] m[q] == merged_at(base, inc, k, m, q)
    &&& forall|q: int|
        base.len() <= q < m.len() ==> first_at(m, (#[trigger] m[q]).id, q) && last_import(inc, m[q].id, k) is Some
    &&& forall|j: int| 0 <= j < k ==> has_id(m, (#[trigger] inc[j]).id)
}

proof fn lemma_merge_shape(base: Seq<GroupView>, inc: Seq<GroupView>, k: int)
    requires
        0 <= k <= inc.len(),
    ensures
        merge_shape(base, inc, k, merge_spec(base, inc, k)),
    decreases k,
{
    if k == 0 {
        let m = merge_spec(base, inc, 0);
        assert forall|q: int| 0 <= q < m.len() implies #[trigger] m[q] == merged_at(base, inc, 0, m, q) by {}
    } else {
        lemma_merge_shape(base, inc, k - 1);
        let prev = merge_spec(base, inc, k - 1);
        let g = inc[k - 1];
        let d = g.id;
        let m = merge_spec(base, inc, k);
        lemma_find_first(prev, d, 0);
        match crate::starter::find_group(prev, crate::starter::same_id_fn(d), 0) {
            Some(p) => {
                assert(m == prev.update(p, g));
                assert forall|q: int| 0 <= q < m.len() implies #[trigger] m[q].id == prev[q].id by {}
                assert forall|q: int, e: Seq<char>| 0 <= q < m.len() implies first_at(m, e, q) == first_at(prev, e, q) by {
                    if first_at(prev, e, q) {
                        assert forall|r: int| 0 <= r < q implies (#[trigger] m[r]).id != e by {
                            assert(m[r].id == prev[r].id);
                        }
                    }
                    if first_at(m, e, q) {
                        assert forall|r: int| 0 <= r < q implies (#[trigger] prev[r]).id != e by {
                            assert(m[r].id == prev[r].id);
                        }
                    }
                }
                assert forall|q: int| 0 <= q < m.len() implies #[trigger] m[q] == merged_at(base, inc, k, m, q) by {
                    assert(first_at(m, m[q].id, q) == first_at(prev, prev[q].id, q));
                    if q == p {
                        assert(last_import(inc, d, k) == Some(k - 1));
                    } else {
                        assert(m[q] == prev[q]);
                        assert(prev[q] == merged_at(base, inc, k - 1, prev, q));
                        if prev[q].id == d {
                            assert(!first_at(prev, d, q));
                            lemma_last_import_range(inc, d, k - 1);
                        } else {
                            assert(last_import(inc, prev[q].id, k) == last_import(inc, prev[q].id, k - 1));
                        }
                    }
                }
                assert forall|q: int| base.len() <= q < m.len() implies first_at(m, (#[trigger] m[q]).id, q)
                    && last_import(inc, m[q].id, k) is Some by {
                    assert(first_at(m, m[q].id, q) == first_at(prev, prev[q].id, q));
                    if prev[q].id != d {
                        assert(last_import(inc, prev[q].id, k) == last_import(inc, prev[q].id, k - 1));
                    }
                }
                assert forall|j: int| 0 <= j < k implies has_id(m, (#[trigger] inc[j]).id) by {
                    if j == k - 1 {
                        assert(first_at(m, d, p));
                    } else {
                        assert(has_id(prev, inc[j].id));
                        let q = choose|q: int| first_at(prev, inc[j].id, q);
                        assert(first_at(m, inc[j].id, q));
                    }
                }
            },
            None => {
                assert(m == prev.push(g));
                assert forall|q: int, e: Seq<char>| 0 <= q < prev.len() implies first_at(m, e, q) == first_at(prev, e, q) by {
                    if first_at(prev, e, q) {
                        assert forall|r: int| 0 <= r < q implies (#[trigger] m[r]).id != e by {
                            assert(m[r] == prev[r]);
                        }
                    }
                    if first_at(m, e, q) {
                        assert forall|r: int| 0 <= r < q implies (#[trigger] prev[r]).id != e by {
                            assert(m[r] == prev[r]);
                        }
                    }
                }
                assert(first_at(m, d, prev.len() as int)) by {
                    assert forall|r: int| 0 <= r < prev.len() implies (#[trigger] m[r]).id != d by {
                        assert(m[r] == prev[r]);
                    }
                }
                assert forall|q: int| 0 <= q < m.len() implies #[trigger] m[q] == merged_at(base, inc, k, m, q) by {
                    if q == prev.len() {
                        assert(last_import(inc, d, k) == Some(k - 1));
                    } else {
                        assert(m[q] == prev[q]);
                        assert(prev[q].id != d);
                        assert(last_import(inc, prev[q].id, k) == last_import(inc, prev[q].id, k - 1));
                        assert(first_at(m, m[q].id, q) == first_at(prev, prev[q].id, q));
                    }
                }
                assert forall|q: int| base.len() <= q < m.len() implies first_at(m, (#[trigger] m[q]).id, q)
                    && last_import(inc, m[q].id, k) is Some by {
                    if q < prev.len() {
                        assert(m[q] == prev[q]);
                        assert(prev[q].id != d);
                        assert(last_import(inc, prev[q].id, k) == last_import(inc, prev[q].id, k - 1));
                        assert(first_at(m, m[q].id, q) == first_at(prev, prev[q].id, q));
                    }
                }
                assert forall|j: int| 0 <= j < k implies has_id(m, (#[trigger] inc[j]).id) by {
                    if j == k - 1 {
                        assert(first_at(m, d, prev.len() as int));
                    } else {
                        assert(has_id(prev, inc[j].id));
                        let q = choose|q: int| first_at(prev, inc[j].id, q);
                        assert(first_at(m, inc[j].id, q));
                    }
                }
                assert forall|q: int| 0 <= q < base.len() implies (#[trigger] m[q]).id == base[q].id by {
                    assert(m[q] == prev[q]);
                }
            },
        }
    }
}

proof fn lemma_first_unique(gs: Seq<GroupView>, d: Seq<char>, p: int, q: int)
    requires
        first_at(gs, d, p),
        first_at(gs, d, q),
    ensures
        p == q,
{
    if p < q {
        assert(gs[p].id != d);
    } else if q < p {
        assert(gs[q].id != d);
    }
}

/// What merging the first `k` imported groups again into a merged library `m` leaves.
spec fn remerge_shape(m: Seq<GroupView>, inc: Seq<GroupView>, k: int, s: Seq<GroupView>) -> bool {
    &&& s.len() == m.len()
    &&& forall|q: int| 0 <= q < m.len() ==> (#[trigger] s[q]).id == m[q].id
    &&& forall|q: int|
        0 <= q < m.len() ==> #[trigger] s[q] == match last_import(inc, m[q].id, k) {
            Some(j) => if first_at(m, m[q].id, q) {
                inc[j]
            } else {
                m[q]
            },
            None => m[q],
        }
}

proof fn lemma_remerge(m: Seq<GroupView>, inc: Seq<GroupView>, n: int, k: int)
    requires
        0 <= k <= n <= inc.len(),
        forall|j: int| 0 <= j < n ==> has_id(m, (#[trigger] inc[j]).id),
    ensures
        remerge_shape(m, inc, k, merge_spec(m, inc, k)),
    decreases k,
{
    if k == 0 {
        let s0 = merge_spec(m, inc, 0);
        assert forall|q: int| 0 <= q < m.len() implies #[trigger] s0[q] == match last_import(inc, m[q].id, 0) {
            Some(j) => if first_at(m, m[q].id, q) {
                inc[j]
            } else {
                m[q]
            },
            None => m[q],
        } by {}
    } else {
        lemma_remerge(m, inc, n, k - 1);
        let prev = merge_spec(m, inc, k - 1);
        let g = inc[k - 1];
        let d = g.id;
        assert(has_id(m, inc[k - 1].id));
        let p0 = choose|q: int| first_at(m, d, q);
        assert(first_at(prev, d, p0)) by {
            assert forall|r: int| 0 <= r < p0 implies (#[trigger] prev[r]).id != d by {
                assert(prev[r].id == m[r].id);
            }
        }
        lemma_find_first(prev, d, 0);
        let p = crate::starter::find_group(prev, crate::starter::same_id_fn(d), 0)->0;
        lemma_first_unique(prev, d, p, p0);
        let s1 = merge_spec(m, inc, k);
        assert(s1 == prev.update(p, g));
        assert forall|q: int| 0 <= q < m.len() implies #[trigger] s1[q] == match last_import(inc, m[q].id, k) {
            Some(j) => if first_at(m, m[q].id, q) {
                inc[j]
            } else {
                m[q]
            },
            None => m[q],
        } by {
            if q == p {
                assert(last_import(inc, d, k) == Some(k - 1));
            } else if m[q].id == d {
                if first_at(m, d, q) {
                    lemma_first_unique(m, d, p0, q);
                }
                lemma_last_import_range(inc, d, k - 1);
            } else {
                assert(last_import(inc, m[q].id, k) == last_import(inc, m[q].id, k - 1));
            }
        }
    }
}

/// Merging is by group id: each base group keeps its place unless an imported group
/// with its id replaces it (the last such, at the first index with that id); imported
/// ids new to the base are appended; every imported id ends up present; and merging
/// the same import again changes nothing.
pub proof fn law_merge_by_id(base: Seq<GroupView>, inc: Seq<GroupView>)
    ensures
        merge_shape(base, inc, inc.len() as int, merge_spec(base, inc, inc.len() as int)),
        merge_spec(merge_spec(base, inc, inc.len() as int), inc, inc.len() as int) == merge_spec(
            base,
            inc,
            inc.len() as int,
        ),
{
    let n = inc.len() as int;
    let m = merge_spec(base, inc, n);
    lemma_merge_shape(base, inc, n);
    lemma_remerge(m, inc, n, n);
    let s2 = merge_spec(m, inc, n);
    assert forall|q: int| 0 <= q < m.len() implies #[trigger] s2[q] == m[q] by {
        assert(m[q] == merged_at(base, inc, n, m, q));
    }
    assert(s2 =~= m);
}

/// No two groups share an id.
pub open spec fn distinct_group_ids(gs: Seq<GroupView>) -> bool {
    forall|i: int, j: int| 0 <= i < j < gs.len() ==> (#[trigger] gs[i]).id != (#[trigger] gs[j]).id
}

/// Merging the first `n` groups of a library with distinct ids into nothing, or into the
/// library itself, gives those groups, and the library itself.
proof fn lemma_merge_distinct(x: Seq<GroupView>, n: int)
    requires
        distinct_group_ids(x),
        0 <= n <= x.len(),
    ensures
        merge_spec(Seq::empty(), x, n) == x.take(n),
        merge_spec(x, x, n) == x,
    decreases n,
{
    if n > 0 {
        lemma_merge_distinct(x, n - 1);
        let g = x[n - 1];
        let prev = x.take(n - 1);
        assert forall|r: int| 0 <= r < prev.len() implies (#[trigger] prev[r]).id != g.id by {
            assert(prev[r] == x[r]);
        }
        lemma_find_first(prev, g.id, 0);
        assert(prev.push(g) =~= x.take(n));
        assert forall|r: int| 0 <= r < n - 1 implies (#[trigger] x[r]).id != g.id by {}
        lemma_find_first(x, g.id, 0);
        match crate::starter::find_group(x, crate::starter::same_id_fn(g.id), 0) {
            Some(p) => {
                assert(p == n - 1);
                assert(x.update(p, g) =~= x);
            },
            None => {
                assert(x[n - 1].id == g.id);
            },
        }
    } else {
        assert(x.take(0) =~= Seq::<GroupView>::empty());
    }
}

/// Merging nothing in changes nothing; a library whose group ids are distinct, merged
/// into an empty library or into itself, gives that library back.
pub proof fn law_merge_identities(x: Seq<GroupView>)
    ensures
        merge_spec(x, Seq::empty(), 0) == x,
        distinct_group_ids(x) ==> merge_spec(Seq::empty(), x, x.len() as int) == x,
        distinct_group_ids(x) ==> merge_spec(x, x, x.len() as int) == x,
{
    if distinct_group_ids(x) {
        lemma_merge_distinct(x, x.len() as int);
        assert(x.take(x.len() as int) =~= x);
    }
}

/// Merges imported groups into an existing library (by group id).
pub fn merge_libraries(base: &TriggerLibrary, imported: TriggerLibrary) -> (r: TriggerLibrary)
    ensures
        r@ == merge_spec(base@, imported@, imported@.len() as int),
{
    let mut groups = crate::model::copy_groups(&base.groups);
    let mut k: usize = 0;
    while k < imported.groups.len()
        invariant
            k <= imported.groups.len(),
            group_views(groups@) == merge_spec(base@, imported@, k as int),
        decreases imported.groups.len() - k,
    {
        let incoming = imported.groups[k].duplicate();
        assert(incoming@ == imported@[k as int]);
        let iid = &incoming.id;
        let same = |g: &TriggerGroup| -> (r: bool)
            ensures
                r == crate::starter::same_id_fn(incoming@.id)(g@),
            { crate::model::same_string(&g.id, iid) };
        let ghost before = group_views(groups@);
        match crate::starter::position_group(&groups, &same, Ghost(crate::starter::same_id_fn(incoming@.id))) {
            Some(i) => {
                proof {
                    crate::starter::lemma_find_group(before, crate::starter::same_id_fn(incoming@.id), 0);
                }
                groups.set(i, incoming);
                assert(group_views(groups@) =~= before.update(i as int, imported@[k as int]));
            },
            None => {
                groups.push(incoming);
                assert(group_views(groups@) =~= before.push(imported@[k as int]));
            },
        }
        k += 1;
    }
    TriggerLibrary { groups }
}

/// An archive entry that is the GINA share file itself.
pub open spec fn is_share_file(name: Seq<char>) -> bool {
    crate::text::ends_with(name, "ShareData.xml"@)
}

/// An archive entry that is some XML file (any case).
pub open spec fn is_xml_file(name: Seq<char>) -> bool {
    crate::text::ends_with(crate::text::to_lower(name), ".xml"@)
}

/// Which entry of a `.gtp` archive holds the triggers: the first `…ShareData.xml`,
/// else the first `.xml` (any case); `None` when there is no XML at all.
pub fn share_data_entry(names: &Vec<String>) -> (r: Option<usize>)
    ensures
        match r {
            Some(i) => i < names.len() && ((is_share_file(names@[i as int]@) && forall|j: int|
                0 <= j < i ==> !is_share_file(#[trigger] names@[j]@)) || ((forall|j: int|
                0 <= j < names.len() ==> !is_share_file(#[trigger] names@[j]@)) && is_xml_file(names@[i as int]@)
                && forall|j: int| 0 <= j < i ==> !is_xml_file(#[trigger] names@[j]@))),
            None => forall|j: int|
                0 <= j < names.len() ==> !is_share_file(#[trigger] names@[j]@) && !is_xml_file(names@[j]@),
        },
{
    let share = crate::text::chars_of("ShareData.xml");
    let xml = crate::text::chars_of(".xml");
    let mut fallback: Option<usize> = None;
    let mut i: usize = 0;
    while i < names.len()
        invariant
            i <= names.len(),
            share@ == "ShareData.xml"@,
            xml@ == ".xml"@,
            forall|j: int| 0 <= j < i ==> !is_share_file(#[trigger] names@[j]@),
            match fallback {
                Some(k) => k < i && is_xml_file(names@[k as int]@) && forall|j: int|
                    0 <= j < k ==> !is_xml_file(#[trigger] names@[j]@),
                None => forall|j: int| 0 <= j < i ==> !is_xml_file(#[trigger] names@[j]@),
            },
        decreases names.len() - i,
    {
        let name = crate::text::chars_of(names[i].as_str());
        if crate::text::ends_with_chars(name.as_slice(), share.as_slice()) {
            return Some(i);
        }
        if fallback.is_none() {
            let lower = crate::text::to_lower_chars(name.as_slice());
            if crate::text::ends_with_chars(lower.as_slice(), xml.as_slice()) {
                fallback = Some(i);
            }
        }
        i += 1;
    }
    fallback
}

/// The first index from `k` on whose name is the share file (`xml` false) or some XML
/// file (`xml` true).
pub open spec fn first_entry_from(names: Seq<Seq<char>>, xml: bool, k: int) -> Option<int>
    decreases names.len() - k,
{
    if k < 0 || k >= names.len() {
        None
    } else if (if xml {
        is_xml_file(names[k])
    } else {
        is_share_file(names[k])
    }) {
        Some(k)
    } else {
        first_entry_from(names, xml, k + 1)
    }
}

/// The entry of a `.gtp` archive that holds the triggers: the first `…ShareData.xml`,
/// else the first `.xml` (any case).
pub open spec fn share_entry(names: Seq<Seq<char>>) -> Option<int> {
    match first_entry_from(names, false, 0) {
        Some(i) => Some(i),
        None => first_entry_from(names, true, 0),
    }
}

proof fn lemma_first_entry_from(names: Seq<Seq<char>>, xml: bool, k: int)
    requires
        0 <= k <= names.len(),
    ensures
        match first_entry_from(names, xml, k) {
            Some(i) => k <= i < names.len() && (if xml {
                is_xml_file(names[i])
            } else {
                is_share_file(names[i])
            }) && forall|j: int|
                k <= j < i ==> !(if xml {
                    is_xml_file(#[trigger] names[j])
                } else {
                    is_share_file(names[j])
                }),
            None => forall|j: int|
                k <= j < names.len() ==> !(if xml {
                    is_xml_file(#[trigger] names[j])
                } else {
                    is_share_file(names[j])
                }),
        },
    decreases names.len() - k,
{
    if k < names.len() {
        lemma_first_entry_from(names, xml, k + 1);
    }
}

/// The names of a zip archive's entries (`""` for an entry whose name cannot be read),
/// or `zip: ` and the reader's message when the bytes are no zip archive.
pub uninterp spec fn zip_names(bytes: Seq<u8>) -> Result<Seq<Seq<char>>, Seq<char>>;

/// The text of entry `i` of a zip archive, or the reader's message when the archive,
/// the entry or its text cannot be read.
pub uninterp spec fn zip_text(bytes: Seq<u8>, i: int) -> Result<Seq<char>, Seq<char>>;

/// `zip::ZipArchive::new` over the bytes, then each entry's `by_index(i).name()`; an
/// entry whose name cannot be read is `""`.  The result is the named `zip_names`.
#[verifier::external_body]
fn zip_entry_names(bytes: &[u8]) -> (r: Result<Vec<String>, String>)
    ensures
        match r {
            Ok(v) => zip_names(bytes@) == Ok::<Seq<Seq<char>>, Seq<char>>(v.deep_view()),
            Err(e) => zip_names(bytes@) == Err::<Seq<Seq<char>>, Seq<char>>(e@),
        },
{
    let mut archive = zip::ZipArchive::new(std::io::Cursor::new(bytes)).map_err(|e| format!("zip: {e}"))?;
    Ok((0..archive.len()).map(
        |i| archive.by_index(i).ok().and_then(|f| f.name().ok().map(|n| n.to_string())).unwrap_or_default(),
    ).collect())
}

/// `zip::ZipArchive::new` over the bytes, `by_index(i)`, then `read_to_string` of that
/// entry; each failure becomes its message.  The result is the named `zip_text`.
#[verifier::external_body]
fn zip_entry_text(bytes: &[u8], i: usize) -> (r: Result<String, String>)
    ensures
        match r {
            Ok(t) => zip_text(bytes@, i as int) == Ok::<Seq<char>, Seq<char>>(t@),
            Err(e) => zip_text(bytes@, i as int) == Err::<Seq<char>, Seq<char>>(e@),
        },
{
    let mut archive = zip::ZipArchive::new(std::io::Cursor::new(bytes)).map_err(|e| format!("zip: {e}"))?;
    let mut entry = archive.by_index(i).map_err(|e| format!("zip entry: {e}"))?;
    let mut xml = String::new();
    std::io::Read::read_to_string(&mut entry, &mut xml).map_err(|e| format!("read ShareData.xml: {e}"))?;
    Ok(xml)
}

/// The `ShareData.xml` text of a `.gtp` archive: the reader's error when the bytes are
/// no zip archive, an error when no entry is XML, else the chosen entry's text (or the
/// error reading it).
pub open spec fn gtp_share_xml(bytes: Seq<u8>) -> Result<Seq<char>, Seq<char>> {
    match zip_names(bytes) {
        Err(e) => Err(e),
        Ok(names) => match share_entry(names) {
            None => Err("No XML found inside .gtp"@),
            Some(i) => zip_text(bytes, i),
        },
    }
}

/// Reads the `ShareData.xml` text out of the bytes of a `.gtp` archive.
pub fn share_xml_of_gtp(bytes: &[u8]) -> (r: Result<String, String>)
    ensures
        match r {
            Ok(t) => gtp_share_xml(bytes@) == Ok::<Seq<char>, Seq<char>>(t@),
            Err(e) => gtp_share_xml(bytes@) == Err::<Seq<char>, Seq<char>>(e@),
        },
{
    let names = match zip_entry_names(bytes) {
        Err(e) => {
            return Err(e);
        },
        Ok(n) => n,
    };
    let ghost nv = names.deep_view();
    proof {
        lemma_first_entry_from(nv, false, 0);
        lemma_first_entry_from(nv, true, 0);
        assert forall|j: int| 0 <= j < names.len() implies #[trigger] nv[j] == names@[j]@ by {}
    }
    match share_data_entry(&names) {
        None => {
            proof {
                if let Some(i) = first_entry_from(nv, false, 0) {
                    assert(!is_share_file(names@[i]@));
                }
                if let Some(i) = first_entry_from(nv, true, 0) {
                    assert(!is_xml_file(names@[i]@));
                }
            }
            Err(String::from_str("No XML found inside .gtp"))
        },
        Some(i) => {
            proof {
                if is_share_file(names@[i as int]@) {
                    match first_entry_from(nv, false, 0) {
                        Some(k) => {
                            if k < i {
                                assert(!is_share_file(names@[k]@));
                            } else if i < k {
                                assert(!is_share_file(nv[i as int]));
                            }
                        },
                        None => {
                            assert(!is_share_file(nv[i as int]));
                        },
                    }
                } else {
                    if let Some(k) = first_entry_from(nv, false, 0) {
                        assert(!is_share_file(names@[k]@));
                    }
                    match first_entry_from(nv, true, 0) {
                        Some(k) => {
                            if k < i {
                                assert(!is_xml_file(names@[k]@));
                            } else if i < k {
                                assert(!is_xml_file(nv[i as int]));
                            }
                        },
                        None => {
                            assert(!is_xml_file(nv[i as int]));
                        },
                    }
                }
                assert(share_entry(nv) == Some(i as int));
            }
            zip_entry_text(bytes, i)
        },
    }
}

/// Imports a GINA `.gtp` package from its bytes: its `ShareData.xml` read out of the
/// archive, then imported as `import_gina_package` does.
pub fn import_gina_gtp(bytes: &[u8], permanent_spells: &Vec<String>) -> (r: Result<TriggerLibrary, String>)
    ensures
        match gtp_share_xml(bytes@) {
            Err(e) => r matches Err(m) && m@ == e,
            Ok(xml) => match r {
                Ok(lib) => import_spec(xml, permanent_spells.deep_view()) == Ok::<Seq<GroupView>, Seq<char>>(lib@),
                Err(m) => import_spec(xml, permanent_spells.deep_view()) == Err::<Seq<GroupView>, Seq<char>>(m@),
            },
        },
{
    match share_xml_of_gtp(bytes) {
        Err(e) => Err(e),
        Ok(xml) => import_gina_package(xml.as_str(), permanent_spells),
    }
}

/// No group in the list is enabled.
pub open spec fn all_disabled(gs: Seq<GroupView>) -> bool {
    forall|i: int| 0 <= i < gs.len() ==> !(#[trigger] gs[i]).enabled
}

proof fn lemma_disabled_concat(a: Seq<GroupView>, b: Seq<GroupView>)
    requires
        all_disabled(a),
        all_disabled(b),
    ensures
        all_disabled(a + b),
{
    assert forall|i: int| 0 <= i < (a + b).len() implies !(#[trigger] (a + b)[i]).enabled by {
        if i < a.len() {
            assert((a + b)[i] == a[i]);
        } else {
            assert((a + b)[i] == b[i - a.len()]);
        }
    }
}

proof fn lemma_walk_group_disabled(ns: Seq<XmlNodeView>, k: int, path: Seq<Seq<char>>)
    ensures
        all_disabled(walk_group(ns, k, path)),
    decreases usize::MAX - ns[k].id, 1int, 0int,
{
    let id = ns[k].id;
    let name = match child_text(ns, id, "Name"@) {
        Some(n) => n,
        None => "Unnamed"@,
    };
    let full = path.push(name);
    let here = match child_of(ns, id, "Triggers"@) {
        Some(t) => {
            let label = join(full, " / "@);
            let pid = path_id(label);
            let kids = tagged_kids(ns, ns[t].id, "Trigger"@, 0);
            let conv = convert_all(ns, kids, pid, kids.len() as int);
            if conv.len() > 0 {
                seq![GroupView { id: pid, name: label, enabled: false, triggers: conv }]
            } else {
                Seq::empty()
            }
        },
        None => Seq::empty(),
    };
    assert(all_disabled(here));
    match child_of(ns, id, "TriggerGroups"@) {
        Some(g) => {
            lemma_walk_list_disabled(ns, id, tagged_kids(ns, ns[g].id, "TriggerGroup"@, 0), 0, full);
        },
        None => {
            assert(all_disabled(Seq::<GroupView>::empty()));
        },
    }
    let nested = match child_of(ns, id, "TriggerGroups"@) {
        Some(g) => walk_list(ns, id, tagged_kids(ns, ns[g].id, "TriggerGroup"@, 0), 0, full),
        None => Seq::empty(),
    };
    lemma_disabled_concat(here, nested);
}

proof fn lemma_walk_list_disabled(
    ns: Seq<XmlNodeView>,
    anchor: usize,
    list: Seq<int>,
    j: int,
    path: Seq<Seq<char>>,
)
    ensures
        all_disabled(walk_list(ns, anchor, list, j, path)),
    decreases usize::MAX - anchor, 0int, list.len() - j,
{
    if j < 0 || j >= list.len() {
        assert(all_disabled(Seq::<GroupView>::empty()));
    } else {
        let c = list[j];
        if 0 <= c < ns.len() && ns[c].id > anchor {
            lemma_walk_group_disabled(ns, c, path);
        } else {
            assert(all_disabled(Seq::<GroupView>::empty()));
        }
        let mine = if 0 <= c < ns.len() && ns[c].id > anchor {
            walk_group(ns, c, path)
        } else {
            Seq::empty()
        };
        lemma_walk_list_disabled(ns, anchor, list, j + 1, path);
        lemma_disabled_concat(mine, walk_list(ns, anchor, list, j + 1, path));
    }
}

proof fn lemma_sections_disabled(ns: Seq<XmlNodeView>, rid: usize, secs: Seq<int>, n: int)
    ensures
        all_disabled(sections(ns, rid, secs, n)),
    decreases n,
{
    if n <= 0 {
        assert(all_disabled(Seq::<GroupView>::empty()));
    } else {
        lemma_sections_disabled(ns, rid, secs, n - 1);
        let list = tagged_kids(ns, ns[secs[n - 1]].id, "TriggerGroup"@, 0);
        lemma_walk_list_disabled(ns, rid, list, 0, Seq::empty());
        lemma_disabled_concat(sections(ns, rid, secs, n - 1), walk_list(ns, rid, list, 0, Seq::empty()));
    }
}

/// Imported groups arrive disabled, to be opted into one by one.
pub proof fn law_import_groups_disabled(xml: Seq<char>, spells: Seq<Seq<char>>)
    ensures
        import_spec(xml, spells) matches Ok(gs) ==> all_disabled(gs),
{
    if let Ok(ns) = xml_parse(xml) {
        let gs = share_groups(ns);
        if ns.len() > 0 {
            if let Some(r) = first_element_from(ns, ns[0].id, 0) {
                let secs = tagged_kids(ns, ns[r].id, "TriggerGroups"@, 0);
                lemma_sections_disabled(ns, ns[r].id, secs, secs.len() as int);
            }
        }
        assert(all_disabled(gs));
        let st = crate::eql_compat::stripped_groups(gs, crate::eql_compat::permanent_set(spells));
        assert(all_disabled(st)) by {
            assert forall|i: int| 0 <= i < st.len() implies !(#[trigger] st[i]).enabled by {
                assert(st[i].enabled == gs[i].enabled);
            }
        }
        let patched = crate::starter::map_group_views(st, crate::starter::mez_group_fn());
        assert(all_disabled(patched)) by {
            assert forall|i: int| 0 <= i < patched.len() implies !(#[trigger] patched[i]).enabled by {
                assert(patched[i].enabled == st[i].enabled);
            }
        }
        let out = crate::starter::mez_spec(st).0;
        assert(all_disabled(out)) by {
            match crate::starter::find_group(st, crate::starter::is_cc_fn(), 0) {
                Some(ci) => {
                    crate::starter::lemma_find_group(st, crate::starter::is_cc_fn(), 0);
                    if crate::starter::find_trigger(patched[ci].triggers, crate::starter::is_dazzle_fn(), 0) is None {
                        let g = GroupView {
                            triggers: patched[ci].triggers.push(crate::starter::dazzle_mez()),
                            ..patched[ci]
                        };
                        assert(out == patched.update(ci, g));
                        assert forall|i: int| 0 <= i < out.len() implies !(#[trigger] out[i]).enabled by {
                            if i != ci {
                                assert(out[i] == patched[i]);
                            }
                        }
                    } else {
                        assert(out == patched);
                    }
                },
                None => {
                    assert(out == patched);
                },
            }
        }
    }
}

} // verus!
