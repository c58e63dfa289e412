//! Timer bookkeeping shared by the engine: which timers an early-end clears,
//! captures recovered from timer names, and small keyed lists.

use vstd::prelude::*;
use crate::model::{ActiveTimer, TimerView};
use crate::pattern::{captures, compile, escape, escape_spec, regex_captures, regex_valid};
use crate::text::{chars_eq, chars_of, contains, contains_chars};
use crate::tokens::{
    captures_from_name, clear_prefix, expand, expand_chars, expand_tokens, has_unexpanded_capture,
    matches_prefix, timer_captures_from_name, timer_clear_prefix, timer_matches_prefix, unexpanded,
};

verus! {

/// Index of the timer matching `prefix` with the earliest end among the first `n`
/// timers; the first such timer on ties (`Iterator::min_by_key`).
pub open spec fn soonest_upto(timers: Seq<TimerView>, prefix: Seq<char>, n: int) -> Option<int>
    decreases n,
{
    if n <= 0 {
        None
    } else {
        let best = soonest_upto(timers, prefix, n - 1);
        if matches_prefix(timers[n - 1].name, prefix) {
            match best {
                None => Some(n - 1),
                Some(k) => if timers[n - 1].ends_ms < timers[k].ends_ms {
                    Some(n - 1)
                } else {
                    Some(k)
                },
            }
        } else {
            best
        }
    }
}

/// Ids of the first `n` timers whose name is exactly `name`, in order.
pub open spec fn ids_named_upto(timers: Seq<TimerView>, name: Seq<char>, n: int) -> Seq<Seq<char>>
    decreases n,
{
    if n <= 0 {
        Seq::empty()
    } else {
        let prev = ids_named_upto(timers, name, n - 1);
        if timers[n - 1].name == name {
            prev.push(timers[n - 1].id)
        } else {
            prev
        }
    }
}

/// Exact name when captures expand the template; otherwise the soonest timer
/// matching the template prefix (a worn-off line names no mob).
pub open spec fn ids_to_clear(
    timers: Seq<TimerView>,
    template: Seq<char>,
    caps: Option<Seq<Seq<char>>>,
) -> Seq<Seq<char>> {
    let expanded = expand(template, Seq::empty(), Seq::empty(), caps);
    if unexpanded(expanded) {
        match soonest_upto(timers, clear_prefix(template), timers.len() as int) {
            Some(k) => seq![timers[k].id],
            None => Seq::empty(),
        }
    } else {
        ids_named_upto(timers, expanded, timers.len() as int)
    }
}

pub open spec fn timer_views(v: Seq<ActiveTimer>) -> Seq<TimerView> {
    Seq::new(v.len(), |i: int| v[i]@)
}

pub fn timer_ids_to_clear(
    timers: &Vec<ActiveTimer>,
    template: &str,
    caps: Option<&Vec<String>>,
) -> (r: Vec<String>)
    ensures
        r.deep_view() == ids_to_clear(
            timer_views(timers@),
            template@,
            match caps {
                Some(c) => Some(c.deep_view()),
                None => None,
            },
        ),
{
    let ghost tv = timer_views(timers@);
    let empty: [char; 0] = [];
    let t = chars_of(template);
    let expanded = expand_chars(t.as_slice(), &empty, &empty, caps);
    assert(empty@ == Seq::<char>::empty());
    let expanded_s = crate::text::string_of(expanded.as_slice());
    let mut out: Vec<String> = Vec::new();
    if has_unexpanded_capture(expanded_s.as_str()) {
        let prefix = timer_clear_prefix(template);
        let mut best: Option<usize> = None;
        let mut i: usize = 0;
        while i < timers.len()
            invariant
                i <= timers.len(),
                tv == timer_views(timers@),
                prefix@ == clear_prefix(template@),
                best matches Some(k) ==> k < i,
                soonest_upto(tv, prefix@, i as int) == match best {
                    Some(k) => Some(k as int),
                    None => None,
                },
            decreases timers.len() - i,
        {
            if timer_matches_prefix(timers[i].name.as_str(), prefix.as_str()) {
                match best {
                    None => {
                        best = Some(i);
                    },
                    Some(k) => {
                        if timers[i].ends_ms < timers[k].ends_ms {
                            best = Some(i);
                        }
                    },
                }
            }
            i += 1;
        }
        match best {
            Some(k) => {
                out.push(timers[k].id.clone());
                assert(out.deep_view() =~= seq![tv[k as int].id]);
            },
            None => {
                assert(out.deep_view() =~= Seq::<Seq<char>>::empty());
            },
        }
        out
    } else {
        let mut i: usize = 0;
        while i < timers.len()
            invariant
                i <= timers.len(),
                tv == timer_views(timers@),
                expanded_s@ == expand(template@, Seq::empty(), Seq::empty(), match caps {
                    Some(c) => Some(c.deep_view()),
                    None => None,
                }),
                out.deep_view() == ids_named_upto(tv, expanded_s@, i as int),
                expanded@ == expanded_s@,
            decreases timers.len() - i,
        {
            let n = chars_of(timers[i].name.as_str());
            assert(n@ == tv[i as int].name);
            if chars_eq(n.as_slice(), expanded.as_slice()) {
                let ghost before = out.deep_view();
                let id = timers[i].id.clone();
                out.push(id);
                assert(out.deep_view() =~= before.push(tv[i as int].id));
                assert(out.deep_view() =~= ids_named_upto(tv, expanded_s@, i + 1));
            } else {
                assert(out.deep_view() =~= ids_named_upto(tv, expanded_s@, i + 1));
            }
            i += 1;
        }
        out
    }
}

/// Captures for a `${1}` early-end: the timer's own, else recovered from its name.
pub open spec fn early_caps(timer: TimerView, template: Seq<char>) -> Seq<Seq<char>> {
    if timer.captures.len() > 0 {
        timer.captures
    } else {
        match captures_from_name(template, timer.name) {
            Some(c) => c,
            None => Seq::empty(),
        }
    }
}

pub fn early_end_captures(timer: &ActiveTimer, template: &str) -> (r: Vec<String>)
    ensures
        r.deep_view() == early_caps(timer@, template@),
{
    if timer.captures.len() > 0 {
        return crate::model::copy_strings(&timer.captures);
    }
    match timer_captures_from_name(template, timer.name.as_str()) {
        Some(c) => c,
        None => {
            let v: Vec<String> = Vec::new();
            assert(v.deep_view() =~= Seq::<Seq<char>>::empty());
            v
        },
    }
}

pub open spec fn escape_all(caps: Seq<Seq<char>>) -> Seq<Seq<char>> {
    Seq::new(caps.len(), |i: int| escape_spec(caps[i]))
}

/// Whether an early-end pattern with capture tokens matches `action` once the timer's
/// captures are substituted (regex-escaped for regex patterns).
pub open spec fn pattern_matches(
    pattern: Seq<char>,
    use_regex: bool,
    action: Seq<char>,
    character: Seq<char>,
    caps: Seq<Seq<char>>,
) -> bool {
    if use_regex {
        let x = expand(pattern, character, action, Some(escape_all(caps)));
        !unexpanded(x) && regex_valid(x) && regex_captures(x, action) is Some
    } else {
        let x = expand(pattern, character, action, Some(caps));
        x.len() > 0 && contains(action, x)
    }
}

pub fn early_end_pattern_matches(
    pattern: &str,
    use_regex: bool,
    action: &str,
    character: &str,
    caps: &Vec<String>,
) -> (r: bool)
    ensures
        r == pattern_matches(pattern@, use_regex, action@, character@, caps.deep_view()),
{
    if use_regex {
        let mut escaped: Vec<String> = Vec::new();
        let mut i: usize = 0;
        while i < caps.len()
            invariant
                i <= caps.len(),
                escaped@.len() == i,
                forall|k: int| 0 <= k < i ==> #[trigger] escaped@[k]@ == escape_spec(caps@[k]@),
            decreases caps.len() - i,
        {
            escaped.push(escape(caps[i].as_str()));
            i += 1;
        }
        assert(escaped.deep_view() =~= escape_all(caps.deep_view()));
        let x = expand_tokens(pattern, character, action, Some(&escaped));
        if has_unexpanded_capture(x.as_str()) {
            return false;
        }
        match compile(x.as_str()) {
            Some(p) => captures(&p, action).is_some(),
            None => false,
        }
    } else {
        let x = expand_tokens(pattern, character, action, Some(caps));
        let xv = chars_of(x.as_str());
        let av = chars_of(action);
        xv.len() > 0 && contains_chars(av.as_slice(), xv.as_slice())
    }
}

/// Overlay names of an ability's cooldown before it was named after the ability.
pub open spec fn legacy_names(ability: Seq<char>) -> Seq<Seq<char>> {
    if ability == "Lay on Hands"@ {
        seq!["Lay Hands Cooldown"@, "Lay Hands"@]
    } else {
        Seq::empty()
    }
}

pub fn legacy_cooldown_names(ability: &str) -> (r: Vec<String>)
    ensures
        r.deep_view() == legacy_names(ability@),
{
    let mut out: Vec<String> = Vec::new();
    let a = chars_of(ability);
    if chars_eq(a.as_slice(), chars_of("Lay on Hands").as_slice()) {
        out.push(String::from_str("Lay Hands Cooldown"));
        out.push(String::from_str("Lay Hands"));
        assert(out.deep_view() =~= seq!["Lay Hands Cooldown"@, "Lay Hands"@]);
    } else {
        assert(out.deep_view() =~= Seq::<Seq<char>>::empty());
    }
    out
}

pub open spec fn digits_value(s: Seq<char>) -> nat
    decreases s.len(),
{
    if s.len() == 0 {
        0
    } else {
        digits_value(s.drop_last()) * 10 + ((s.last() as nat) - 48) as nat
    }
}

/// `str::parse::<u64>`: an optional `+` and one or more ASCII digits whose value fits.
pub open spec fn parse_u64(s: Seq<char>) -> Option<u64> {
    let d = if s.len() > 0 && s[0] == '+' {
        s.drop_first()
    } else {
        s
    };
    if d.len() > 0 && crate::tokens::all_digits(d) && digits_value(d) <= u64::MAX {
        Some(digits_value(d) as u64)
    } else {
        None
    }
}

proof fn lemma_digits_mono(s: Seq<char>, i: int)
    requires
        0 <= i <= s.len(),
        crate::tokens::all_digits(s),
    ensures
        digits_value(s.take(i)) <= digits_value(s),
    decreases s.len() - i,
{
    if i < s.len() {
        lemma_digits_mono(s, i + 1);
        assert(s.take(i + 1).drop_last() == s.take(i));
    } else {
        assert(s.take(i) == s);
    }
}

pub fn parse_u64_exec(s: &str) -> (r: Option<u64>)
    ensures
        r == parse_u64(s@),
{
    let v = chars_of(s);
    let mut start: usize = 0;
    if v.len() > 0 && v[0] == '+' {
        start = 1;
    }
    let d = crate::text::sub_chars(v.as_slice(), start, v.len());
    assert(d@ == if s@.len() > 0 && s@[0] == '+' {
        s@.drop_first()
    } else {
        s@
    });
    if d.len() == 0 {
        return None;
    }
    let mut val: u64 = 0;
    let mut i: usize = 0;
    while i < d.len()
        invariant
            i <= d.len(),
            d@.len() > 0,
            d@ == if s@.len() > 0 && s@[0] == '+' {
                s@.drop_first()
            } else {
                s@
            },
            forall|j: int| 0 <= j < i ==> crate::text::is_digit(d@[j]),
            val == digits_value(d@.take(i as int)),
        decreases d.len() - i,
    {
        let c = d[i];
        if !crate::text::is_digit_char(c) {
            return None;
        }
        assert(d@.take(i + 1).drop_last() == d@.take(i as int));
        let dig = (c as u32 - 48) as u64;
        match val.checked_mul(10) {
            Some(m) => match m.checked_add(dig) {
                Some(n) => {
                    val = n;
                },
                None => {
                    proof {
                        assert(forall|j: int| 0 <= j < i + 1 ==> crate::text::is_digit(d@[j]));
                        if crate::tokens::all_digits(d@) {
                            lemma_digits_mono(d@, i + 1);
                        }
                    }
                    return None;
                },
            },
            None => {
                proof {
                    if crate::tokens::all_digits(d@) {
                        lemma_digits_mono(d@, i + 1);
                    }
                }
                return None;
            },
        }
        i += 1;
    }
    assert(d@.take(d.len() as int) == d@);
    Some(val)
}

/// `a.saturating_sub(b)`.
pub open spec fn sat_sub(a: u64, b: u64) -> u64 {
    if a >= b {
        (a - b) as u64
    } else {
        0
    }
}

/// `a.saturating_add(b)`.
pub open spec fn sat_add(a: u64, b: u64) -> u64 {
    if a + b <= u64::MAX {
        (a + b) as u64
    } else {
        u64::MAX
    }
}

/// `a.saturating_mul(b)`.
pub open spec fn sat_mul(a: u64, b: u64) -> u64 {
    if a * b <= u64::MAX {
        (a * b) as u64
    } else {
        u64::MAX
    }
}

/// `a.saturating_mul(b)`.
pub fn saturating_mul_u64(a: u64, b: u64) -> (r: u64)
    ensures
        r == sat_mul(a, b),
{
    match a.checked_mul(b) {
        Some(x) => x,
        None => u64::MAX,
    }
}

/// A keyed list of times (`HashMap<String, u64>` semantics through first-match lookup).
pub open spec fn keyed_views(v: Seq<(String, u64)>) -> Seq<(Seq<char>, u64)> {
    Seq::new(v.len(), |i: int| (v[i].0@, v[i].1))
}

pub open spec fn key_index(m: Seq<(Seq<char>, u64)>, k: Seq<char>, from: int) -> Option<int>
    decreases m.len() - from,
{
    if from < 0 || from >= m.len() {
        None
    } else if m[from].0 == k {
        Some(from)
    } else {
        key_index(m, k, from + 1)
    }
}

pub open spec fn key_get(m: Seq<(Seq<char>, u64)>, k: Seq<char>) -> Option<u64> {
    match key_index(m, k, 0) {
        Some(i) => Some(m[i].1),
        None => None,
    }
}

pub open spec fn key_set(m: Seq<(Seq<char>, u64)>, k: Seq<char>, v: u64) -> Seq<(Seq<char>, u64)> {
    match key_index(m, k, 0) {
        Some(i) => m.update(i, (k, v)),
        None => m.push((k, v)),
    }
}

proof fn lemma_key_index(m: Seq<(Seq<char>, u64)>, k: Seq<char>, from: int)
    requires
        0 <= from,
    ensures
        key_index(m, k, from) matches Some(i) ==> from <= i < m.len() && m[i].0 == k,
    decreases m.len() - from,
{
    if from < m.len() && m[from].0 != k {
        lemma_key_index(m, k, from + 1);
    }
}

fn find_key(m: &Vec<(String, u64)>, k: &str) -> (r: Option<usize>)
    ensures
        r matches Some(i) ==> key_index(keyed_views(m@), k@, 0) == Some(i as int),
        r is None ==> key_index(keyed_views(m@), k@, 0) is None,
{
    let kv = chars_of(k);
    let mut i: usize = 0;
    while i < m.len()
        invariant
            i <= m.len(),
            kv@ == k@,
            key_index(keyed_views(m@), k@, 0) == key_index(keyed_views(m@), k@, i as int),
        decreases m.len() - i,
    {
        let name = chars_of(m[i].0.as_str());
        if chars_eq(name.as_slice(), kv.as_slice()) {
            return Some(i);
        }
        i += 1;
    }
    None
}

pub fn key_lookup(m: &Vec<(String, u64)>, k: &str) -> (r: Option<u64>)
    ensures
        r == key_get(keyed_views(m@), k@),
{
    proof {
        lemma_key_index(keyed_views(m@), k@, 0);
    }
    match find_key(m, k) {
        Some(i) => Some(m[i].1),
        None => None,
    }
}

pub fn key_store(m: &mut Vec<(String, u64)>, k: &str, v: u64)
    ensures
        keyed_views(final(m)@) == key_set(keyed_views(old(m)@), k@, v),
{
    proof {
        lemma_key_index(keyed_views(m@), k@, 0);
    }
    match find_key(m, k) {
        Some(i) => {
            m.set(i, (crate::text::own(k), v));
            assert(keyed_views(m@) =~= keyed_views(old(m)@).update(i as int, (k@, v)));
        },
        None => {
            m.push((crate::text::own(k), v));
            assert(keyed_views(m@) =~= keyed_views(old(m)@).push((k@, v)));
        },
    }
}

/// Entries before the first `k` entry found from `from` have other keys.
proof fn lemma_key_index_first(m: Seq<(Seq<char>, u64)>, k: Seq<char>, from: int)
    requires
        0 <= from,
    ensures
        key_index(m, k, from) matches Some(i) ==> forall|j: int| from <= j < i ==> m[j].0 != k,
        key_index(m, k, from) is None ==> forall|j: int| from <= j < m.len() ==> m[j].0 != k,
    decreases m.len() - from,
{
    if from < m.len() && m[from].0 != k {
        lemma_key_index_first(m, k, from + 1);
    }
}

/// The first entry with key `k` at or after `from`, when `i` is one and none lies between.
proof fn lemma_key_index_at(m: Seq<(Seq<char>, u64)>, k: Seq<char>, from: int, i: int)
    requires
        0 <= from <= i < m.len(),
        m[i].0 == k,
        forall|j: int| from <= j < i ==> m[j].0 != k,
    ensures
        key_index(m, k, from) == Some(i),
    decreases i - from,
{
    if from < i {
        lemma_key_index_at(m, k, from + 1, i);
    }
}

/// Reading a key just stored gives the stored time.
pub proof fn lemma_key_get_set(m: Seq<(Seq<char>, u64)>, k: Seq<char>, v: u64)
    ensures
        key_get(key_set(m, k, v), k) == Some(v),
{
    lemma_key_index(m, k, 0);
    lemma_key_index_first(m, k, 0);
    let m2 = key_set(m, k, v);
    match key_index(m, k, 0) {
        Some(i) => {
            assert forall|j: int| 0 <= j < i implies m2[j].0 != k by {
                assert(m2[j] == m[j]);
            }
            lemma_key_index_at(m2, k, 0, i);
        },
        None => {
            assert forall|j: int| 0 <= j < m.len() implies m2[j].0 != k by {
                assert(m2[j] == m[j]);
            }
            lemma_key_index_at(m2, k, 0, m.len() as int);
        },
    }
}

} // verus!
