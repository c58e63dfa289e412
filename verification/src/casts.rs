//! Recent "You begin casting …" lines, used to scope shared land emotes to your casts.

use vstd::prelude::*;
use crate::text::{chars_eq, chars_of, ends_with, starts_with, starts_with_chars};
use crate::timers::{keyed_views, sat_sub};
use crate::tokens::{normalize_spell_name, normalized_spell};

verus! {

/// How long a "You begin casting" counts as yours for shared land-emote timers.
pub const PENDING_CAST_MS: u64 = 8000;

/// A remembered cast satisfies a wanted spell: same normalized name, or any
/// Mesmerize/Dazzle cast for a Mesmerize-family land.
pub open spec fn cast_matches(name: Seq<char>, want: Seq<char>) -> bool {
    ||| name == want
    ||| starts_with(want, "mesmerize"@) && (name == "dazzle"@ || starts_with(name, "mesmerize"@))
    ||| starts_with(name, "mesmerize"@) && starts_with(want, "mesmerize"@)
}

/// You began casting `spell` (normalized) within the pending-cast window.
pub open spec fn recent_cast(casts: Seq<(Seq<char>, u64)>, spell: Seq<char>, now: u64) -> bool {
    exists|i: int|
        0 <= i < casts.len() && sat_sub(now, #[trigger] casts[i].1) < PENDING_CAST_MS
            && cast_matches(casts[i].0, normalized_spell(spell))
}

/// Casts still inside the window, in order.
pub open spec fn keep_recent(casts: Seq<(Seq<char>, u64)>, now: u64) -> Seq<(Seq<char>, u64)>
    decreases casts.len(),
{
    if casts.len() == 0 {
        casts
    } else {
        let prev = keep_recent(casts.drop_last(), now);
        if sat_sub(now, casts.last().1) < PENDING_CAST_MS {
            prev.push(casts.last())
        } else {
            prev
        }
    }
}

/// Casts whose name is not `name`, in order.
pub open spec fn drop_cast(casts: Seq<(Seq<char>, u64)>, name: Seq<char>) -> Seq<(Seq<char>, u64)>
    decreases casts.len(),
{
    if casts.len() == 0 {
        casts
    } else {
        let prev = drop_cast(casts.drop_last(), name);
        if casts.last().0 != name {
            prev.push(casts.last())
        } else {
            prev
        }
    }
}

pub open spec fn cast_prefix() -> Seq<char> {
    "You begin casting "@
}

/// Remembers the spell of a "You begin casting <Spell>." line (dropping stale casts).
pub open spec fn note_cast(casts: Seq<(Seq<char>, u64)>, action: Seq<char>, now: u64) -> Seq<
    (Seq<char>, u64),
> {
    let n = cast_prefix().len();
    if starts_with(action, cast_prefix()) && ends_with(action.skip(n as int), "."@) {
        let name = action.subrange(n as int, action.len() - 1);
        keep_recent(casts, now).push((normalized_spell(name), now))
    } else {
        casts
    }
}

fn is_mesmerize(s: &[char]) -> (r: bool)
    ensures
        r == starts_with(s@, "mesmerize"@),
{
    starts_with_chars(s, chars_of("mesmerize").as_slice())
}

fn cast_matches_exec(name: &[char], want: &[char]) -> (r: bool)
    ensures
        r == cast_matches(name@, want@),
{
    if chars_eq(name, want) {
        return true;
    }
    let want_mez = is_mesmerize(want);
    let name_mez = is_mesmerize(name);
    (want_mez && (chars_eq(name, chars_of("dazzle").as_slice()) || name_mez)) || (name_mez
        && want_mez)
}

/// Whether `casts` holds a recent cast of `spell`.
pub fn has_recent_cast(casts: &Vec<(String, u64)>, spell: &str, now: u64) -> (r: bool)
    ensures
        r == recent_cast(keyed_views(casts@), spell@, now),
{
    let want = normalize_spell_name(spell);
    let ghost kv = keyed_views(casts@);
    let mut i: usize = 0;
    while i < casts.len()
        invariant
            i <= casts.len(),
            kv == keyed_views(casts@),
            want@ == normalized_spell(spell@),
            forall|j: int|
                0 <= j < i ==> !(sat_sub(now, #[trigger] kv[j].1) < PENDING_CAST_MS
                    && cast_matches(kv[j].0, want@)),
        decreases casts.len() - i,
    {
        let age = now.saturating_sub(casts[i].1);
        let name = chars_of(casts[i].0.as_str());
        assert(kv[i as int].0 == name@ && kv[i as int].1 == casts[i as int].1);
        if age < PENDING_CAST_MS && cast_matches_exec(name.as_slice(), want.as_slice()) {
            return true;
        }
        i += 1;
    }
    false
}

/// Keeps only casts inside the window.
pub fn keep_recent_exec(casts: &mut Vec<(String, u64)>, now: u64)
    ensures
        keyed_views(final(casts)@) == keep_recent(keyed_views(old(casts)@), now),
{
    let ghost kv = keyed_views(casts@);
    let mut out: Vec<(String, u64)> = Vec::new();
    let mut i: usize = 0;
    while i < casts.len()
        invariant
            i <= casts.len(),
            kv == keyed_views(casts@),
            keyed_views(out@) == keep_recent(kv.take(i as int), now),
        decreases casts.len() - i,
    {
        assert(kv.take(i + 1).drop_last() == kv.take(i as int));
        if now.saturating_sub(casts[i].1) < PENDING_CAST_MS {
            let ghost before = keyed_views(out@);
            out.push((casts[i].0.clone(), casts[i].1));
            assert(keyed_views(out@) =~= before.push(kv[i as int]));
        }
        i += 1;
    }
    assert(kv.take(casts.len() as int) == kv);
    *casts = out;
}

/// Forgets every cast named `name`.
pub fn drop_cast_exec(casts: &mut Vec<(String, u64)>, name: &str)
    ensures
        keyed_views(final(casts)@) == drop_cast(keyed_views(old(casts)@), name@),
{
    let ghost kv = keyed_views(casts@);
    let target = chars_of(name);
    let mut out: Vec<(String, u64)> = Vec::new();
    let mut i: usize = 0;
    while i < casts.len()
        invariant
            i <= casts.len(),
            kv == keyed_views(casts@),
            target@ == name@,
            keyed_views(out@) == drop_cast(kv.take(i as int), name@),
        decreases casts.len() - i,
    {
        assert(kv.take(i + 1).drop_last() == kv.take(i as int));
        let n = chars_of(casts[i].0.as_str());
        if !chars_eq(n.as_slice(), target.as_slice()) {
            let ghost before = keyed_views(out@);
            out.push((casts[i].0.clone(), casts[i].1));
            assert(keyed_views(out@) =~= before.push(kv[i as int]));
        }
        i += 1;
    }
    assert(kv.take(casts.len() as int) == kv);
    *casts = out;
}

/// Records the spell of a "You begin casting <Spell>." line.
pub fn note_begin_casting(casts: &mut Vec<(String, u64)>, action: &str, now: u64)
    ensures
        keyed_views(final(casts)@) == note_cast(keyed_views(old(casts)@), action@, now),
{
    let a = chars_of(action);
    let pre = chars_of("You begin casting ");
    if !starts_with_chars(a.as_slice(), pre.as_slice()) {
        return;
    }
    let rest = crate::text::sub_chars(a.as_slice(), pre.len(), a.len());
    assert(rest@ == action@.skip(pre@.len() as int));
    if !crate::text::ends_with_chars(rest.as_slice(), chars_of(".").as_slice()) {
        return;
    }
    proof {
        reveal_strlit(".");
    }
    let name = crate::text::sub_chars(a.as_slice(), pre.len(), a.len() - 1);
    let name_s = crate::text::string_of(name.as_slice());
    keep_recent_exec(casts, now);
    let norm = normalize_spell_name(name_s.as_str());
    casts.push((crate::text::string_of(norm.as_slice()), now));
    assert(keyed_views(casts@) =~= keep_recent(keyed_views(old(casts)@), now).push(
        (normalized_spell(name@), now),
    ));
}

} // verus!
