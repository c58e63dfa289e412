//! Trigger text helpers: self-attribution, spell names, `{C}`/`${1}` tokens and
//! timer-name prefixes.

use vstd::prelude::*;
use crate::text::{
    chars_eq, ends_with, ends_with_chars, find_from, is_digit, is_digit_char, lemma_find_from,
    to_lower, to_lower_chars,
    chars_of, contains, contains_chars, find_chars, first_index, lemma_first_index, occurs_at,
    own, push_all, replace_all, replace_chars, starts_with, starts_with_chars, string_of, is_ws,
    trim_start, trim_end,
    sub_chars, trim, trim_chars,
};
use crate::pattern::{escape, escape_spec};

verus! {

/// Decimal digits of `n`.
pub open spec fn decimal(n: nat) -> Seq<char>
    decreases n,
{
    if n < 10 {
        seq![digit_char(n)]
    } else {
        decimal(n / 10).push(digit_char(n % 10))
    }
}

pub open spec fn digit_char(d: nat) -> char {
    ((d + 48) as u32) as char
}

/// `n.to_string()` for an unsigned integer.
pub fn decimal_string(n: u64) -> (r: Vec<char>)
    ensures
        r@ == decimal(n as nat),
    decreases n,
{
    let d = (n % 10) as u8;
    let c = (d + 48) as char;
    assert(c == digit_char((n % 10) as nat));
    if n < 10 {
        let mut v: Vec<char> = Vec::new();
        v.push(c);
        assert(v@ =~= seq![c]);
        v
    } else {
        let mut v = decimal_string(n / 10);
        v.push(c);
        v
    }
}

/// Strips every leading `^` (`str::trim_start_matches('^')`).
pub open spec fn strip_carets(s: Seq<char>) -> Seq<char>
    decreases s.len(),
{
    if s.len() > 0 && s[0] == '^' {
        strip_carets(s.drop_first())
    } else {
        s
    }
}

/// The search already attributes the event to you (cast, your hit, character token).
pub open spec fn self_attributed(search: Seq<char>) -> bool {
    let s = strip_carets(search);
    ||| starts_with(s, "You "@)
    ||| starts_with(s, "Your "@)
    ||| starts_with(s, "(You "@)
    ||| contains(search, "{C}"@)
    ||| contains(search, "from your "@)
}

/// Search already attributes the event to you (cast, your hit, character token).
pub fn is_self_attributed_search(search: &str) -> (r: bool)
    ensures
        r == self_attributed(search@),
{
    let v = chars_of(search);
    let mut i: usize = 0;
    assert(v@.skip(0) == v@);
    while i < v.len() && v[i] == '^'
        invariant
            i <= v.len(),
            strip_carets(v@) == strip_carets(v@.skip(i as int)),
        decreases v.len() - i,
    {
        assert(v@.skip(i as int).drop_first() == v@.skip(i + 1));
        i += 1;
    }
    let s = sub_chars(v.as_slice(), i, v.len());
    assert(s@ == v@.skip(i as int));
    starts_with_chars(s.as_slice(), chars_of("You ").as_slice()) || starts_with_chars(
        s.as_slice(),
        chars_of("Your ").as_slice(),
    ) || starts_with_chars(s.as_slice(), chars_of("(You ").as_slice()) || contains_chars(
        v.as_slice(),
        chars_of("{C}").as_slice(),
    ) || contains_chars(v.as_slice(), chars_of("from your ").as_slice())
}

/// The part of `s` before the first occurrence of `p` (all of `s` when `p` is absent).
pub open spec fn before_first(s: Seq<char>, p: Seq<char>) -> Seq<char> {
    match first_index(s, p) {
        Some(i) => s.take(i),
        None => s,
    }
}

/// Spell name used in combat logs: clicky notes (` (…`) and slash alternates removed;
/// `None` when nothing usable is left or the name holds `[` or `|`.
pub open spec fn spell_base(name: Seq<char>) -> Option<Seq<char>> {
    let base = trim(before_first(name, " ("@));
    let base = match first_index(base, "/"@) {
        Some(i) => trim(base.take(i)),
        None => base,
    };
    if base.len() == 0 || contains(base, "["@) || contains(base, "|"@) {
        None
    } else {
        Some(base)
    }
}

pub fn before_first_chars(s: &[char], p: &[char]) -> (r: Vec<char>)
    ensures
        r@ == before_first(s@, p@),
{
    match find_chars(s, p) {
        Some(i) => {
            proof {
                lemma_first_index(s@, p@);
            }
            sub_chars(s, 0, i)
        },
        None => sub_chars(s, 0, s.len()),
    }
}

/// Spell name used in combat logs: strip clicky notes and slash alternates.
pub fn spell_basename(name: &str) -> (r: Option<String>)
    ensures
        r.deep_view() == spell_base(name@),
{
    let v = chars_of(name);
    let head = before_first_chars(v.as_slice(), chars_of(" (").as_slice());
    let mut base = trim_chars(head.as_slice());
    let slash = chars_of("/");
    match find_chars(base.as_slice(), slash.as_slice()) {
        Some(i) => {
            proof {
                lemma_first_index(base@, slash@);
            }
            let before = sub_chars(base.as_slice(), 0, i);
            base = trim_chars(before.as_slice());
        },
        None => {},
    }
    if base.len() == 0 || contains_chars(base.as_slice(), chars_of("[").as_slice())
        || contains_chars(base.as_slice(), chars_of("|").as_slice()) {
        None
    } else {
        Some(string_of(base.as_slice()))
    }
}

/// Optional EQL upgrade rank after a spell name (`Plague IV`, `Odium II`).
pub open spec fn rank_suffix() -> Seq<char> {
    "(?: [IVX]+)?"@
}

/// The regex for your land-hit line of `spell`, matching any upgrade rank.
pub open spec fn you_hit_pattern(spell: Seq<char>) -> Seq<char> {
    r"^You hit ([\w -'`]+) for [\d,]+ points of \w+ damage by "@ + escape_spec(spell)
        + rank_suffix() + r"\.$"@
}

/// Your land-hit line for a DoT/spell, matching any upgrade rank.
pub fn you_hit_by_spell_pattern(spell: &str) -> (r: String)
    ensures
        r@ == you_hit_pattern(spell@),
{
    let escaped = escape(spell);
    let mut v = chars_of(r"^You hit ([\w -'`]+) for [\d,]+ points of \w+ damage by ");
    push_all(&mut v, chars_of(escaped.as_str()).as_slice());
    push_all(&mut v, chars_of("(?: [IVX]+)?").as_slice());
    push_all(&mut v, chars_of(r"\.$").as_slice());
    string_of(v.as_slice())
}

/// A land-hit pattern always attributes the event to you, whatever the spell.
pub proof fn law_you_hit_is_self_attributed(spell: Seq<char>)
    ensures
        self_attributed(you_hit_pattern(spell)),
{
    let head = r"^You hit ([\w -'`]+) for [\d,]+ points of \w+ damage by "@;
    reveal_strlit(r"^You hit ([\w -'`]+) for [\d,]+ points of \w+ damage by ");
    reveal_strlit("You ");
    let p = you_hit_pattern(spell);
    assert(p[0] == '^');
    assert(p.drop_first()[0] == 'Y');
    assert(strip_carets(p) == strip_carets(p.drop_first()));
    assert(strip_carets(p.drop_first()) == p.drop_first());
    assert(p.drop_first().take(4) =~= "You "@);
}


/// Replacing a pattern that does not occur leaves the text unchanged.
pub proof fn lemma_replace_absent(s: Seq<char>, from: Seq<char>, to: Seq<char>)
    requires
        !contains(s, from),
    ensures
        replace_all(s, from, to) == s,
    decreases s.len(),
{
    if s.len() == 0 || from.len() == 0 {
    } else {
        if starts_with(s, from) {
            assert(occurs_at(s, from, 0));
        }
        assert forall|i: int| !occurs_at(s.drop_first(), from, i) by {
            if occurs_at(s.drop_first(), from, i) {
                assert(s.subrange(i + 1, i + 1 + from.len()) =~= s.drop_first().subrange(
                    i,
                    i + from.len(),
                ));
                assert(occurs_at(s, from, i + 1));
            }
        }
        lemma_replace_absent(s.drop_first(), from, to);
        assert(seq![s[0]] + s.drop_first() =~= s);
    }
}

/// `{C}` in a search bound to the character name (regex-escaped for regex searches).
pub open spec fn bind_character(pattern: Seq<char>, character: Seq<char>, for_regex: bool) -> Seq<
    char,
> {
    replace_all(pattern, "{C}"@, if for_regex { escape_spec(character) } else { character })
}

pub fn bind_character_token(pattern: &str, character: &str, for_regex: bool) -> (r: String)
    ensures
        r@ == bind_character(pattern@, character@, for_regex),
{
    let p = chars_of(pattern);
    let token = chars_of("{C}");
    if !contains_chars(p.as_slice(), token.as_slice()) {
        proof {
            lemma_replace_absent(
                p@,
                token@,
                if for_regex {
                    escape_spec(character@)
                } else {
                    character@
                },
            );
        }
        return own(pattern);
    }
    let with = if for_regex {
        let e = escape(character);
        chars_of(e.as_str())
    } else {
        chars_of(character)
    };
    assert(token@.len() == 3) by {
        reveal_strlit("{C}");
    }
    let out = replace_chars(p.as_slice(), token.as_slice(), with.as_slice());
    string_of(out.as_slice())
}

pub open spec fn all_digits(s: Seq<char>) -> bool {
    forall|i: int| 0 <= i < s.len() ==> is_digit(s[i])
}

/// The first capture that is a non-empty run of ASCII digits.
pub open spec fn first_numeric(caps: Seq<Seq<char>>) -> Option<Seq<char>>
    decreases caps.len(),
{
    if caps.len() == 0 {
        None
    } else if caps[0].len() > 0 && all_digits(caps[0]) {
        Some(caps[0])
    } else {
        first_numeric(caps.drop_first())
    }
}

/// `${n}`, `$n` and `{n}` replaced by capture `n`, for `n` from 1 to `upto`.
pub open spec fn fill_captures(out: Seq<char>, caps: Seq<Seq<char>>, upto: nat) -> Seq<char>
    decreases upto,
{
    if upto == 0 {
        out
    } else {
        let o = fill_captures(out, caps, (upto - 1) as nat);
        let d = decimal(upto);
        let c = caps[upto - 1];
        let o = replace_all(o, seq!['$', '{'] + d + seq!['}'], c);
        let o = replace_all(o, seq!['$'] + d, c);
        replace_all(o, seq!['{'] + d + seq!['}'], c)
    }
}

/// GINA-style token expansion: `{C}` character, `{S}`/`{L}` the action line, `{N}` the
/// first numeric capture (else the first capture), `${n}`/`$n`/`{n}` capture `n`.
pub open spec fn expand(
    template: Seq<char>,
    character: Seq<char>,
    action: Seq<char>,
    captures: Option<Seq<Seq<char>>>,
) -> Seq<char> {
    let out = replace_all(
        replace_all(replace_all(template, "{C}"@, character), "{S}"@, action),
        "{L}"@,
        action,
    );
    match captures {
        None => out,
        Some(caps) => {
            let out = match first_numeric(caps) {
                Some(n) => replace_all(out, "{N}"@, n),
                None => if caps.len() > 0 {
                    replace_all(out, "{N}"@, caps[0])
                } else {
                    out
                },
            };
            fill_captures(out, caps, caps.len())
        },
    }
}

fn all_digits_exec(s: &[char]) -> (r: bool)
    ensures
        r == all_digits(s@),
{
    let mut i: usize = 0;
    while i < s.len()
        invariant
            i <= s.len(),
            forall|j: int| 0 <= j < i ==> is_digit(s@[j]),
        decreases s.len() - i,
    {
        if !is_digit_char(s[i]) {
            return false;
        }
        i += 1;
    }
    true
}

/// Replaces `token` (a non-empty literal) by `with`.
fn replace_token(out: &Vec<char>, token: &str, with: &[char]) -> (r: Vec<char>)
    requires
        token@.len() > 0,
    ensures
        r@ == replace_all(out@, token@, with@),
{
    let t = chars_of(token);
    replace_chars(out.as_slice(), t.as_slice(), with)
}

fn capture_tokens(idx: u64) -> (r: (Vec<char>, Vec<char>, Vec<char>))
    ensures
        r.0@ == seq!['$', '{'] + decimal(idx as nat) + seq!['}'],
        r.1@ == seq!['$'] + decimal(idx as nat),
        r.2@ == seq!['{'] + decimal(idx as nat) + seq!['}'],
{
    let d = decimal_string(idx);
    let mut a: Vec<char> = Vec::new();
    a.push('$');
    a.push('{');
    push_all(&mut a, d.as_slice());
    a.push('}');
    let mut b: Vec<char> = Vec::new();
    b.push('$');
    push_all(&mut b, d.as_slice());
    let mut c: Vec<char> = Vec::new();
    c.push('{');
    push_all(&mut c, d.as_slice());
    c.push('}');
    assert(a@ =~= seq!['$', '{'] + decimal(idx as nat) + seq!['}']);
    assert(b@ =~= seq!['$'] + decimal(idx as nat));
    assert(c@ =~= seq!['{'] + decimal(idx as nat) + seq!['}']);
    (a, b, c)
}

/// `expand` on character vectors.
pub fn expand_chars(
    template: &[char],
    character: &[char],
    action: &[char],
    captures: Option<&Vec<String>>,
) -> (r: Vec<char>)
    ensures
        r@ == expand(
            template@,
            character@,
            action@,
            match captures {
                Some(c) => Some(c.deep_view()),
                None => None,
            },
        ),
{
    proof {
        reveal_strlit("{C}");
        reveal_strlit("{S}");
        reveal_strlit("{L}");
        reveal_strlit("{N}");
    }
    let t0 = sub_chars(template, 0, template.len());
    assert(t0@ == template@);
    let out = replace_token(&t0, "{C}", character);
    let out = replace_token(&out, "{S}", action);
    let mut out = replace_token(&out, "{L}", action);
    match captures {
        None => out,
        Some(caps) => {
            let ghost cv = caps.deep_view();
            let mut number: Option<Vec<char>> = None;
            let mut i: usize = 0;
            assert(cv.skip(0) == cv);
            while i < caps.len()
                invariant
                    i <= caps.len(),
                    cv == caps.deep_view(),
                    number is None ==> first_numeric(cv) == first_numeric(cv.skip(i as int)),
                    number matches Some(n) ==> first_numeric(cv) == Some(n@),
                decreases caps.len() - i,
            {
                if number.is_none() {
                    let c = chars_of(caps[i].as_str());
                    assert(cv.skip(i as int)[0] == c@);
                    assert(cv.skip(i as int).drop_first() == cv.skip(i + 1));
                    if c.len() > 0 && all_digits_exec(c.as_slice()) {
                        number = Some(c);
                    }
                }
                i += 1;
            }
            proof {
                if number is None {
                    assert(cv.skip(caps.len() as int).len() == 0);
                }
            }
            match number {
                Some(n) => {
                    out = replace_token(&out, "{N}", n.as_slice());
                },
                None => {
                    if caps.len() > 0 {
                        let first = chars_of(caps[0].as_str());
                        out = replace_token(&out, "{N}", first.as_slice());
                    }
                },
            }
            let ghost base = out@;
            let mut k: usize = 0;
            while k < caps.len()
                invariant
                    k <= caps.len(),
                    cv == caps.deep_view(),
                    out@ == fill_captures(base, cv, k as nat),
                decreases caps.len() - k,
            {
                let cap = chars_of(caps[k].as_str());
                assert(cap@ == cv[k as int]);
                let (a, b, c) = capture_tokens((k + 1) as u64);
                out = replace_chars(out.as_slice(), a.as_slice(), cap.as_slice());
                out = replace_chars(out.as_slice(), b.as_slice(), cap.as_slice());
                out = replace_chars(out.as_slice(), c.as_slice(), cap.as_slice());
                k += 1;
            }
            out
        },
    }
}

/// `expand` on strings (`Option<&[String]>` captures as a vector).
pub fn expand_tokens(
    template: &str,
    character: &str,
    action: &str,
    captures: Option<&Vec<String>>,
) -> (r: String)
    ensures
        r@ == expand(
            template@,
            character@,
            action@,
            match captures {
                Some(c) => Some(c.deep_view()),
                None => None,
            },
        ),
{
    let t = chars_of(template);
    let c = chars_of(character);
    let a = chars_of(action);
    let out = expand_chars(t.as_slice(), c.as_slice(), a.as_slice(), captures);
    string_of(out.as_slice())
}

/// Scans for a GINA-style `{digits}` token from position `i` on; after a `{` with a
/// closing `}` the scan resumes behind that `}`.
pub open spec fn scan_numbered(s: Seq<char>, i: int) -> bool
    decreases s.len() - i,
{
    if i < 0 || i >= s.len() {
        false
    } else if s[i] == '{' {
        match find_from(s, seq!['}'], i + 1) {
            Some(j) => if i < j < s.len() {
                (j > i + 1 && all_digits(s.subrange(i + 1, j))) || scan_numbered(s, j + 1)
            } else {
                false
            },
            None => scan_numbered(s, i + 1),
        }
    } else {
        scan_numbered(s, i + 1)
    }
}

/// A capture token left unexpanded: `${…` or a `{digits}` group.
pub open spec fn unexpanded(name: Seq<char>) -> bool {
    contains(name, "${"@) || scan_numbered(name, 0)
}

/// Position of the first `c` at or after `start`.
fn find_char_from(s: &[char], c: char, start: usize) -> (r: Option<usize>)
    ensures
        r matches Some(j) ==> find_from(s@, seq![c], start as int) == Some(j as int),
        r is None ==> find_from(s@, seq![c], start as int) is None,
{
    let mut k = start;
    while k < s.len()
        invariant
            start <= k,
            find_from(s@, seq![c], start as int) == find_from(s@, seq![c], k as int),
        decreases s.len() - k,
    {
        if s[k] == c {
            assert(s@.subrange(k as int, k + 1) =~= seq![c]);
            return Some(k);
        }
        assert(!occurs_at(s@, seq![c], k as int)) by {
            if occurs_at(s@, seq![c], k as int) {
                assert(s@.subrange(k as int, k + 1)[0] == c);
            }
        }
        k += 1;
    }
    None
}

/// True when a capture token such as `${1}` or `{1}` has not been substituted.
pub fn has_unexpanded_capture(name: &str) -> (r: bool)
    ensures
        r == unexpanded(name@),
{
    let v = chars_of(name);
    if contains_chars(v.as_slice(), chars_of("${").as_slice()) {
        return true;
    }
    let mut i: usize = 0;
    while i < v.len()
        invariant
            i <= v.len(),
            v@ == name@,
            scan_numbered(v@, 0) == scan_numbered(v@, i as int),
        decreases v.len() - i,
    {
        if v[i] == '{' {
            match find_char_from(v.as_slice(), '}', i + 1) {
                Some(j) => {
                    proof {
                        lemma_find_from(v@, seq!['}'], i + 1);
                    }
                    if j > i + 1 {
                        let inner = sub_chars(v.as_slice(), i + 1, j);
                        if all_digits_exec(inner.as_slice()) {
                            assert(find_from(v@, seq!['}'], i + 1) == Some(j as int));
                            assert(scan_numbered(v@, i as int));
                            return true;
                        }
                    }
                    i = j + 1;
                },
                None => {
                    i += 1;
                },
            }
        } else {
            i += 1;
        }
    }
    false
}

pub open spec fn is_trim_set(c: char) -> bool {
    c == ' ' || c == '-' || c == ':'
}

/// `trim_end_matches([' ', '-', ':'])`.
pub open spec fn trim_end_set(s: Seq<char>) -> Seq<char>
    decreases s.len(),
{
    if s.len() > 0 && is_trim_set(s.last()) {
        trim_end_set(s.drop_last())
    } else {
        s
    }
}

pub open spec fn min_pos(e: int, p: Option<int>) -> int {
    match p {
        Some(i) => if i < e {
            i
        } else {
            e
        },
        None => e,
    }
}

/// Where the first capture token (`${`, `$1` or `{1}`) starts, else the length.
pub open spec fn prefix_end(t: Seq<char>) -> int {
    min_pos(
        min_pos(min_pos(t.len() as int, first_index(t, "${"@)), first_index(t, "$1"@)),
        first_index(t, "{1}"@),
    )
}

/// The timer-name prefix before any capture token, without trailing ` -:` and whitespace.
pub open spec fn clear_prefix(t: Seq<char>) -> Seq<char> {
    trim(trim_end_set(t.take(prefix_end(t))))
}

fn min_found(e: usize, p: Option<usize>) -> (r: usize)
    ensures
        r == min_pos(e as int, match p {
            Some(i) => Some(i as int),
            None => None,
        }),
{
    match p {
        Some(i) => if i < e {
            i
        } else {
            e
        },
        None => e,
    }
}

/// Prefix used when early-end text has no mob capture (e.g. worn-off).
pub fn timer_clear_prefix(template: &str) -> (r: String)
    ensures
        r@ == clear_prefix(template@),
{
    let v = chars_of(template);
    let e = min_found(v.len(), find_chars(v.as_slice(), chars_of("${").as_slice()));
    let e = min_found(e, find_chars(v.as_slice(), chars_of("$1").as_slice()));
    let e = min_found(e, find_chars(v.as_slice(), chars_of("{1}").as_slice()));
    let mut j = e;
    proof {
        assert(v@.take(e as int) == v@.subrange(0, e as int));
    }
    while j > 0 && (v[j - 1] == ' ' || v[j - 1] == '-' || v[j - 1] == ':')
        invariant
            j <= e <= v.len(),
            trim_end_set(v@.take(e as int)) == trim_end_set(v@.take(j as int)),
        decreases j,
    {
        assert(v@.take(j as int).drop_last() == v@.take(j - 1));
        j -= 1;
    }
    let head = sub_chars(v.as_slice(), 0, j);
    assert(head@ == v@.take(j as int));
    let out = trim_chars(head.as_slice());
    string_of(out.as_slice())
}

/// `name` is the prefix itself or `prefix - …`.
pub open spec fn matches_prefix(name: Seq<char>, prefix: Seq<char>) -> bool {
    prefix.len() > 0 && (name == prefix || starts_with(name, prefix + " - "@))
}

pub fn timer_matches_prefix(name: &str, prefix: &str) -> (r: bool)
    ensures
        r == matches_prefix(name@, prefix@),
{
    let n = chars_of(name);
    let p = chars_of(prefix);
    if p.len() == 0 {
        return false;
    }
    if chars_eq(n.as_slice(), p.as_slice()) {
        return true;
    }
    let mut sep = p;
    push_all(&mut sep, chars_of(" - ").as_slice());
    starts_with_chars(n.as_slice(), sep.as_slice())
}

/// `${1}` inferred from a timer display name such as `Immo - a goblin`.
pub open spec fn captures_from_name(template: Seq<char>, name: Seq<char>) -> Option<Seq<Seq<char>>> {
    let prefix = clear_prefix(template);
    let sep = prefix + " - "@;
    if prefix.len() == 0 || !starts_with(name, sep) || name.len() == sep.len() {
        None
    } else {
        Some(seq![name.skip(sep.len() as int)])
    }
}

/// Infer `${1}` from timer display names like "Immo - a goblin".
pub fn timer_captures_from_name(template: &str, name: &str) -> (r: Option<Vec<String>>)
    ensures
        r.deep_view() == captures_from_name(template@, name@),
{
    let prefix = timer_clear_prefix(template);
    let p = chars_of(prefix.as_str());
    if p.len() == 0 {
        return None;
    }
    let mut sep = p;
    push_all(&mut sep, chars_of(" - ").as_slice());
    let n = chars_of(name);
    if !starts_with_chars(n.as_slice(), sep.as_slice()) {
        return None;
    }
    if n.len() == sep.len() {
        return None;
    }
    let rest = sub_chars(n.as_slice(), sep.len(), n.len());
    let mut out: Vec<String> = Vec::new();
    out.push(string_of(rest.as_slice()));
    assert(out.deep_view() =~= seq![n@.skip(sep@.len() as int)]);
    Some(out)
}

/// Roman rank suffixes, longest first among those sharing an ending.
pub open spec fn romans() -> Seq<Seq<char>> {
    seq![
        " xviii"@, " xvii"@, " xvi"@, " xv"@, " xiv"@, " xiii"@, " xii"@, " xi"@, " x"@, " ix"@,
        " viii"@, " vii"@, " vi"@, " v"@, " iv"@, " iii"@, " ii"@, " i"@,
    ]
}

fn roman_at(i: usize) -> (r: &'static str)
    requires
        i < 18,
    ensures
        r@ == romans()[i as int],
{
    match i {
        0 => " xviii",
        1 => " xvii",
        2 => " xvi",
        3 => " xv",
        4 => " xiv",
        5 => " xiii",
        6 => " xii",
        7 => " xi",
        8 => " x",
        9 => " ix",
        10 => " viii",
        11 => " vii",
        12 => " vi",
        13 => " v",
        14 => " iv",
        15 => " iii",
        16 => " ii",
        _ => " i",
    }
}

/// `s` without the first suffix of `list` that it ends with.
pub open spec fn strip_first_suffix(s: Seq<char>, list: Seq<Seq<char>>) -> Seq<char>
    decreases list.len(),
{
    if list.len() == 0 {
        s
    } else if ends_with(s, list[0]) {
        s.take(s.len() - list[0].len())
    } else {
        strip_first_suffix(s, list.drop_first())
    }
}

/// Lower-cased, trimmed spell name without a roman rank suffix.
pub open spec fn normalized_spell(name: Seq<char>) -> Seq<char> {
    strip_first_suffix(to_lower(trim(name)), romans())
}

pub fn normalize_spell_name(name: &str) -> (r: Vec<char>)
    ensures
        r@ == normalized_spell(name@),
{
    let v = chars_of(name);
    let t = trim_chars(v.as_slice());
    let s = to_lower_chars(t.as_slice());
    let mut i: usize = 0;
    assert(romans().skip(0) == romans());
    while i < 18
        invariant
            i <= 18,
            romans().len() == 18,
            normalized_spell(name@) == strip_first_suffix(s@, romans().skip(i as int)),
        decreases 18 - i,
    {
        let suffix = chars_of(roman_at(i));
        assert(romans().skip(i as int)[0] == suffix@);
        assert(romans().skip(i as int).drop_first() == romans().skip(i + 1));
        if ends_with_chars(s.as_slice(), suffix.as_slice()) {
            return sub_chars(s.as_slice(), 0, s.len() - suffix.len());
        }
        i += 1;
    }
    s
}

/// None of the first `n` characters of `s` is `c`.
pub open spec fn lacks(s: Seq<char>, c: char, n: int) -> bool
    decreases n,
{
    n <= 0 || (s[n - 1] != c && lacks(s, c, n - 1))
}

proof fn lemma_lacks(s: Seq<char>, c: char, n: int)
    requires
        0 <= n <= s.len(),
        lacks(s, c, n),
    ensures
        forall|i: int| 0 <= i < n ==> s[i] != c,
    decreases n,
{
    if n > 0 {
        lemma_lacks(s, c, n - 1);
    }
}

proof fn lemma_lacks_not_contains(s: Seq<char>, p: Seq<char>, j: int)
    requires
        0 <= j < p.len(),
        lacks(s, p[j], s.len() as int),
    ensures
        !contains(s, p),
{
    lemma_lacks(s, p[j], s.len() as int);
    assert forall|i: int| !occurs_at(s, p, i) by {
        if occurs_at(s, p, i) {
            assert(s.subrange(i, i + p.len())[j] == s[i + j]);
        }
    }
}

/// A name with no clicky note, slash, `[` or `|` and no surrounding whitespace is
/// its own spell base name.
pub proof fn lemma_plain_spell_base(s: Seq<char>)
    requires
        s.len() > 0,
        !is_ws(s[0]),
        !is_ws(s.last()),
        lacks(s, '(', s.len() as int),
        lacks(s, '/', s.len() as int),
        lacks(s, '[', s.len() as int),
        lacks(s, '|', s.len() as int),
    ensures
        spell_base(s) == Some(s),
{
    reveal_strlit(" (");
    reveal_strlit("/");
    reveal_strlit("[");
    reveal_strlit("|");
    lemma_lacks_not_contains(s, " ("@, 1);
    lemma_lacks_not_contains(s, "/"@, 0);
    lemma_lacks_not_contains(s, "["@, 0);
    lemma_lacks_not_contains(s, "|"@, 0);
    lemma_first_index(s, " ("@);
    lemma_first_index(s, "/"@);
    assert(trim_start(s) == s);
    assert(trim_end(s) == s);
}


/// Every decimal has at least one digit, and two or more from ten on.
pub proof fn lemma_decimal_len(n: nat)
    ensures
        decimal(n).len() >= 1,
        n >= 10 ==> decimal(n).len() >= 2,
    decreases n,
{
    if n >= 10 {
        lemma_decimal_len(n / 10);
    }
}

/// Different numbers have different decimals.
pub proof fn lemma_decimal_injective(a: nat, b: nat)
    requires
        decimal(a) == decimal(b),
    ensures
        a == b,
    decreases a,
{
    lemma_decimal_len(a);
    lemma_decimal_len(b);
    if a < 10 && b < 10 {
        assert(decimal(a)[0] == decimal(b)[0]);
        assert(digit_char(a) as u32 == a + 48);
        assert(digit_char(b) as u32 == b + 48);
        assert(decimal(a) == seq![digit_char(a)]);
        assert(decimal(b) == seq![digit_char(b)]);
        assert(seq![digit_char(a)][0] == digit_char(a));
        assert(seq![digit_char(b)][0] == digit_char(b));
        assert(digit_char(a) == digit_char(b));
        assert(a == b);
    } else if a >= 10 && b >= 10 {
        let da = decimal(a);
        let db = decimal(b);
        assert(da == decimal(a / 10).push(digit_char(a % 10)));
        assert(db == decimal(b / 10).push(digit_char(b % 10)));
        assert(da.last() == db.last());
        assert(digit_char(a % 10) as u32 == a % 10 + 48);
        assert(digit_char(b % 10) as u32 == b % 10 + 48);
        assert(da.drop_last() =~= decimal(a / 10));
        assert(db.drop_last() =~= decimal(b / 10));
        lemma_decimal_injective(a / 10, b / 10);
        assert(a % 10 == b % 10);
        assert(a == 10 * (a / 10) + a % 10);
        assert(b == 10 * (b / 10) + b % 10);
        assert(a == b);
    } else if a < 10 {
        assert(decimal(a).len() == 1);
    } else {
        assert(decimal(b).len() == 1);
    }
}


/// A text holding no character that starts `from` is left alone by `replace_all`.
proof fn lemma_replace_no_start(s: Seq<char>, from: Seq<char>, to: Seq<char>)
    requires
        from.len() > 0,
        forall|i: int| 0 <= i < s.len() ==> s[i] != from[0],
    ensures
        replace_all(s, from, to) == s,
    decreases s.len(),
{
    if s.len() > 0 {
        if from.len() <= s.len() && s.take(from.len() as int) == from {
            assert(s.take(from.len() as int)[0] == s[0]);
            assert(false);
        }
        assert(!starts_with(s, from));
        lemma_replace_no_start(s.drop_first(), from, to);
        assert(seq![s[0]] + s.drop_first() =~= s);
    }
}

/// Text without `{` or `$` survives capture filling unchanged.
proof fn lemma_fill_absent(out: Seq<char>, caps: Seq<Seq<char>>, upto: nat)
    requires
        upto <= caps.len(),
        forall|i: int| 0 <= i < out.len() ==> out[i] != '{' && out[i] != '$',
    ensures
        fill_captures(out, caps, upto) == out,
    decreases upto,
{
    if upto > 0 {
        lemma_fill_absent(out, caps, (upto - 1) as nat);
        let d = decimal(upto);
        let c = caps[upto - 1];
        lemma_replace_no_start(out, seq!['$', '{'] + d + seq!['}'], c);
        lemma_replace_no_start(out, seq!['$'] + d, c);
        lemma_replace_no_start(out, seq!['{'] + d + seq!['}'], c);
    }
}

/// `{S}` in a template stands for the whole action line: expanding the bare token gives
/// the line back, whatever the character and the captures (for a line without `{` or
/// `$`, which capture filling would read as tokens of its own).
pub proof fn law_action_token(character: Seq<char>, action: Seq<char>, captures: Option<Seq<Seq<char>>>)
    requires
        forall|i: int| 0 <= i < action.len() ==> action[i] != '{' && action[i] != '$',
    ensures
        expand("{S}"@, character, action, captures) == action,
{
    reveal_strlit("{S}");
    reveal_strlit("{C}");
    reveal_strlit("{L}");
    reveal_strlit("{N}");
    let t = "{S}"@;
    assert(!starts_with(t, "{C}"@)) by {
        assert(t.take(3)[1] != "{C}"@[1]);
    }
    assert(t.drop_first() =~= seq!['S', '}']);
    lemma_replace_no_start(t.drop_first(), "{C}"@, character);
    assert(replace_all(t, "{C}"@, character) =~= t);
    assert(starts_with(t, "{S}"@)) by {
        assert(t.take(3) =~= t);
    }
    assert(t.skip(3) =~= Seq::<char>::empty());
    assert(replace_all(t.skip(3), "{S}"@, action) == Seq::<char>::empty());
    assert(replace_all(t, "{S}"@, action) == action + replace_all(t.skip(3), "{S}"@, action));
    assert(replace_all(t, "{S}"@, action) =~= action);
    lemma_replace_no_start(action, "{L}"@, action);
    lemma_replace_no_start(action, "{N}"@, action);
    match captures {
        None => {},
        Some(caps) => {
            match first_numeric(caps) {
                Some(n) => {
                    lemma_replace_no_start(action, "{N}"@, n);
                },
                None => {
                    if caps.len() > 0 {
                        lemma_replace_no_start(action, "{N}"@, caps[0]);
                    }
                },
            }
            lemma_fill_absent(action, caps, caps.len());
        },
    }
}

/// `{L}` stands for the action line as `{S}` does.
pub proof fn law_line_token(character: Seq<char>, action: Seq<char>, captures: Option<Seq<Seq<char>>>)
    requires
        forall|i: int| 0 <= i < action.len() ==> action[i] != '{' && action[i] != '$',
    ensures
        expand("{L}"@, character, action, captures) == action,
{
    reveal_strlit("{S}");
    reveal_strlit("{C}");
    reveal_strlit("{L}");
    reveal_strlit("{N}");
    let t = "{L}"@;
    assert(!starts_with(t, "{C}"@)) by {
        assert(t.take(3)[1] != "{C}"@[1]);
    }
    assert(t.drop_first() =~= seq!['L', '}']);
    lemma_replace_no_start(t.drop_first(), "{C}"@, character);
    assert(replace_all(t, "{C}"@, character) =~= t);
    assert(!starts_with(t, "{S}"@)) by {
        assert(t.take(3)[1] != "{S}"@[1]);
    }
    lemma_replace_no_start(t.drop_first(), "{S}"@, action);
    assert(replace_all(t, "{S}"@, action) =~= t);
    assert(starts_with(t, "{L}"@)) by {
        assert(t.take(3) =~= t);
    }
    assert(t.skip(3) =~= Seq::<char>::empty());
    assert(replace_all(t.skip(3), "{L}"@, action) == Seq::<char>::empty());
    assert(replace_all(t, "{L}"@, action) == action + replace_all(t.skip(3), "{L}"@, action));
    assert(replace_all(t, "{L}"@, action) =~= action);
    match captures {
        None => {},
        Some(caps) => {
            match first_numeric(caps) {
                Some(n) => {
                    lemma_replace_no_start(action, "{N}"@, n);
                },
                None => {
                    if caps.len() > 0 {
                        lemma_replace_no_start(action, "{N}"@, caps[0]);
                    }
                },
            }
            lemma_fill_absent(action, caps, caps.len());
        },
    }
}

/// `{C}` in a template stands for the character: expanding the bare token gives the
/// character's name back (for a name without `{` or `$`).
pub proof fn law_character_token(character: Seq<char>, action: Seq<char>, captures: Option<Seq<Seq<char>>>)
    requires
        forall|i: int| 0 <= i < character.len() ==> character[i] != '{' && character[i] != '$',
    ensures
        expand("{C}"@, character, action, captures) == character,
{
    reveal_strlit("{S}");
    reveal_strlit("{C}");
    reveal_strlit("{L}");
    reveal_strlit("{N}");
    let t = "{C}"@;
    assert(starts_with(t, "{C}"@)) by {
        assert(t.take(3) =~= t);
    }
    assert(t.skip(3) =~= Seq::<char>::empty());
    assert(replace_all(t.skip(3), "{C}"@, character) == Seq::<char>::empty());
    assert(replace_all(t, "{C}"@, character) == character + replace_all(t.skip(3), "{C}"@, character));
    assert(replace_all(t, "{C}"@, character) =~= character);
    lemma_replace_no_start(character, "{S}"@, action);
    lemma_replace_no_start(character, "{L}"@, action);
    match captures {
        None => {},
        Some(caps) => {
            match first_numeric(caps) {
                Some(n) => {
                    lemma_replace_no_start(character, "{N}"@, n);
                },
                None => {
                    if caps.len() > 0 {
                        lemma_replace_no_start(character, "{N}"@, caps[0]);
                    }
                },
            }
            lemma_fill_absent(character, caps, caps.len());
        },
    }
}

} // verus!
