//! EverQuest Legends differences vs classic GINA packs.
//!
//! The list of buffs that are permanent on Legends is data (a JSON file the app
//! reads); the library takes its `spells` entries as they stand in that file.

use vstd::prelude::*;
use crate::model::{GroupView, Trigger, TriggerGroup, TriggerLibrary, TriggerView, copy_strings};
use crate::text::{
    chars_of, contains, contains_chars, is_blank, is_blank_chars, push_all, string_of, to_lower,
    to_lower_chars, trim, trim_chars,
};
use crate::starter::triggers_upto;
use crate::tokens::{before_first, before_first_chars};

verus! {

/// The permanent-buff names as compared: trimmed, ASCII-lowercased, blanks dropped.
pub open spec fn permanent_set(spells: Seq<Seq<char>>) -> Seq<Seq<char>>
    decreases spells.len(),
{
    if spells.len() == 0 {
        Seq::empty()
    } else {
        let prev = permanent_set(spells.drop_last());
        let n = to_lower(trim(spells.last()));
        if n.len() == 0 {
            prev
        } else {
            prev.push(n)
        }
    }
}

/// A trigger's name before any ` (…)` note, trimmed and ASCII-lowercased.
pub open spec fn base_name(name: Seq<char>) -> Seq<char> {
    to_lower(trim(before_first(name, seq!['('])))
}

/// A classic countdown for a buff that is permanent on Legends.
pub open spec fn is_permanent_timer(t: TriggerView, names: Seq<Seq<char>>) -> bool {
    t.timer_seconds is Some && names.contains(base_name(t.name))
}

/// The comment left on a trigger whose timer was removed.
pub open spec fn strip_note() -> Seq<char> {
    "EQL: permanent buff — classic timer removed"@
}

/// Comments with the note added once.
pub open spec fn noted(c: Option<Seq<char>>) -> Option<Seq<char>> {
    match c {
        Some(e) => if contains(e, strip_note()) {
            Some(e)
        } else if is_blank(e) {
            Some(strip_note())
        } else {
            Some(e + seq!['\n'] + strip_note())
        },
        None => Some(strip_note()),
    }
}

/// The trigger with its permanent-buff timer removed, or unchanged.
pub open spec fn strip_trigger(t: TriggerView, names: Seq<Seq<char>>) -> TriggerView {
    if is_permanent_timer(t, names) {
        TriggerView { timer_seconds: None, timer_name: None, comments: noted(t.comments), ..t }
    } else {
        t
    }
}

/// How many of the first `n` triggers have a permanent-buff timer.
pub open spec fn count_in(ts: Seq<TriggerView>, names: Seq<Seq<char>>, n: int) -> nat
    decreases n,
{
    if n <= 0 {
        0
    } else {
        count_in(ts, names, n - 1) + if is_permanent_timer(ts[n - 1], names) {
            1nat
        } else {
            0nat
        }
    }
}

/// How many triggers of the first `n` groups have a permanent-buff timer.
pub open spec fn count_groups(gs: Seq<GroupView>, names: Seq<Seq<char>>, n: int) -> nat
    decreases n,
{
    if n <= 0 {
        0
    } else {
        count_groups(gs, names, n - 1) + count_in(
            gs[n - 1].triggers,
            names,
            gs[n - 1].triggers.len() as int,
        )
    }
}

/// The library with every permanent-buff timer stripped.
pub open spec fn stripped_groups(gs: Seq<GroupView>, names: Seq<Seq<char>>) -> Seq<GroupView> {
    gs.map_values(
        |g: GroupView|
            GroupView { triggers: g.triggers.map_values(|t: TriggerView| strip_trigger(t, names)), ..g },
    )
}

proof fn lemma_count_in_le(ts: Seq<TriggerView>, names: Seq<Seq<char>>, n: int)
    requires
        0 <= n <= ts.len(),
    ensures
        count_in(ts, names, n) <= n,
    decreases n,
{
    if n > 0 {
        lemma_count_in_le(ts, names, n - 1);
    }
}

proof fn lemma_count_groups_le(gs: Seq<GroupView>, names: Seq<Seq<char>>, n: int)
    requires
        0 <= n <= gs.len(),
    ensures
        count_groups(gs, names, n) <= triggers_upto(gs, n),
    decreases n,
{
    if n > 0 {
        lemma_count_groups_le(gs, names, n - 1);
        lemma_count_in_le(gs[n - 1].triggers, names, gs[n - 1].triggers.len() as int);
    }
}

proof fn lemma_total_mono(gs: Seq<GroupView>, m: int, n: int)
    requires
        0 <= m <= n <= gs.len(),
    ensures
        triggers_upto(gs, m) <= triggers_upto(gs, n),
    decreases n - m,
{
    if m < n {
        lemma_total_mono(gs, m, n - 1);
    }
}

/// Normalized permanent-buff names: trimmed, ASCII-lowercased, blanks dropped.
pub fn permanent_names(spells: &Vec<String>) -> (r: Vec<String>)
    ensures
        r.deep_view() == permanent_set(spells.deep_view()),
{
    let ghost sv = spells.deep_view();
    let mut out: Vec<String> = Vec::new();
    let mut i: usize = 0;
    while i < spells.len()
        invariant
            i <= spells.len(),
            sv == spells.deep_view(),
            out.deep_view() == permanent_set(sv.take(i as int)),
        decreases spells.len() - i,
    {
        assert(sv.take(i + 1).drop_last() =~= sv.take(i as int));
        assert(sv.take(i + 1).last() == sv[i as int]);
        let v = chars_of(spells[i].as_str());
        let n = to_lower_chars(trim_chars(v.as_slice()).as_slice());
        if n.len() > 0 {
            let ghost before = out.deep_view();
            out.push(string_of(n.as_slice()));
            assert(out.deep_view() =~= before.push(n@));
        }
        i += 1;
    }
    assert(sv.take(spells.len() as int) =~= sv);
    out
}

/// The trigger's name before any `(`, trimmed and ASCII-lowercased.
pub fn trigger_base_name(name: &str) -> (r: String)
    ensures
        r@ == base_name(name@),
{
    let v = chars_of(name);
    let open = chars_of("(");
    proof {
        reveal_strlit("(");
    }
    assert(open@ =~= seq!['(']);
    let b = before_first_chars(v.as_slice(), open.as_slice());
    string_of(to_lower_chars(trim_chars(b.as_slice()).as_slice()).as_slice())
}

fn is_listed(names: &Vec<String>, base: &String) -> (r: bool)
    ensures
        r == names.deep_view().contains(base@),
{
    let bv = chars_of(base.as_str());
    let mut i: usize = 0;
    while i < names.len()
        invariant
            i <= names.len(),
            bv@ == base@,
            forall|j: int| 0 <= j < i ==> names.deep_view()[j] != base@,
        decreases names.len() - i,
    {
        let nv = chars_of(names[i].as_str());
        if crate::text::chars_eq(nv.as_slice(), bv.as_slice()) {
            assert(names.deep_view()[i as int] == base@);
            return true;
        }
        i += 1;
    }
    false
}

fn add_note(c: &Option<String>) -> (r: Option<String>)
    ensures
        r.deep_view() == noted(c.deep_view()),
{
    let note = chars_of("EQL: permanent buff — classic timer removed");
    match c {
        Some(e) => {
            let ev = chars_of(e.as_str());
            if contains_chars(ev.as_slice(), note.as_slice()) {
                Some(e.clone())
            } else if is_blank_chars(ev.as_slice()) {
                Some(string_of(note.as_slice()))
            } else {
                let mut out = ev;
                out.push('\n');
                push_all(&mut out, note.as_slice());
                Some(string_of(out.as_slice()))
            }
        },
        None => Some(string_of(note.as_slice())),
    }
}

fn strip_one(t: &Trigger, names: &Vec<String>) -> (r: (Trigger, bool))
    ensures
        r.0@ == strip_trigger(t@, names.deep_view()),
        r.1 == is_permanent_timer(t@, names.deep_view()),
{
    let mut out = t.duplicate();
    if t.timer_seconds.is_none() {
        return (out, false);
    }
    let base = trigger_base_name(t.name.as_str());
    if !is_listed(names, &base) {
        return (out, false);
    }
    out.timer_seconds = None;
    out.timer_name = None;
    out.comments = add_note(&t.comments);
    (out, true)
}

/// Clears classic countdown timers for buffs that are permanent on Legends.
///
/// `spells` is the list of permanent buffs; a trigger whose base name (before any `(`,
/// trimmed, case-insensitive) is on it loses its timer and gains a note.  Returns how
/// many triggers changed.
pub fn strip_permanent_buff_timers(library: &mut TriggerLibrary, spells: &Vec<String>) -> (r: usize)
    requires
        triggers_upto(old(library)@, old(library)@.len() as int) <= usize::MAX,
    ensures
        final(library)@ == stripped_groups(old(library)@, permanent_set(spells.deep_view())),
        r == count_groups(
            old(library)@,
            permanent_set(spells.deep_view()),
            old(library)@.len() as int,
        ),
{
    let names = permanent_names(spells);
    let ghost ns = names.deep_view();
    let ghost gs = library@;
    let mut groups: Vec<TriggerGroup> = Vec::new();
    std::mem::swap(&mut groups, &mut library.groups);
    assert(crate::model::group_views(groups@) == gs);
    let mut out: Vec<TriggerGroup> = Vec::new();
    let mut changed: usize = 0;
    let mut gi: usize = 0;
    while gi < groups.len()
        invariant
            gi <= groups.len(),
            gs == crate::model::group_views(groups@),
            ns == names.deep_view(),
            triggers_upto(gs, gs.len() as int) <= usize::MAX,
            crate::model::group_views(out@) == stripped_groups(gs, ns).take(gi as int),
            changed == count_groups(gs, ns, gi as int),
        decreases groups.len() - gi,
    {
        let g = &groups[gi];
        let ghost gv = gs[gi as int];
        assert(g@ == gv);
        let mut ts: Vec<Trigger> = Vec::new();
        let mut ti: usize = 0;
        proof {
            lemma_count_groups_le(gs, ns, gi as int);
            lemma_total_mono(gs, gi + 1, gs.len() as int);
        }
        while ti < g.triggers.len()
            invariant
                ti <= g.triggers.len(),
                gv == g@,
                gi < gs.len(),
                gv == gs[gi as int],
                ns == names.deep_view(),
                count_groups(gs, ns, gi as int) + gv.triggers.len() <= usize::MAX,
                crate::model::trigger_views(ts@) == gv.triggers.take(ti as int).map_values(
                    |t: TriggerView| strip_trigger(t, ns),
                ),
                changed == count_groups(gs, ns, gi as int) + count_in(gv.triggers, ns, ti as int),
            decreases g.triggers.len() - ti,
        {
            proof {
                lemma_count_in_le(gv.triggers, ns, ti as int);
            }
            let (nt, hit) = strip_one(&g.triggers[ti], &names);
            assert(g.triggers@[ti as int]@ == gv.triggers[ti as int]);
            let ghost before = crate::model::trigger_views(ts@);
            ts.push(nt);
            assert(crate::model::trigger_views(ts@) =~= before.push(strip_trigger(gv.triggers[ti as int], ns)));
            assert(gv.triggers.take(ti + 1).map_values(|t: TriggerView| strip_trigger(t, ns))
                =~= gv.triggers.take(ti as int).map_values(|t: TriggerView| strip_trigger(t, ns)).push(
                strip_trigger(gv.triggers[ti as int], ns),
            ));
            if hit {
                changed = changed + 1;
            }
            ti += 1;
        }
        assert(gv.triggers.take(g.triggers.len() as int) =~= gv.triggers);
        let ng = TriggerGroup {
            id: g.id.clone(),
            name: g.name.clone(),
            enabled: g.enabled,
            triggers: ts,
        };
        let ghost before = crate::model::group_views(out@);
        out.push(ng);
        assert(crate::model::group_views(out@) =~= before.push(ng@));
        assert(stripped_groups(gs, ns).take(gi + 1) =~= stripped_groups(gs, ns).take(gi as int).push(
            ng@,
        ));
        gi += 1;
    }
    assert(stripped_groups(gs, ns).take(gs.len() as int) =~= stripped_groups(gs, ns));
    library.groups = out;
    changed
}

proof fn lemma_count_in_zero(ts: Seq<TriggerView>, names: Seq<Seq<char>>, n: int)
    requires
        0 <= n <= ts.len(),
        forall|j: int| 0 <= j < ts.len() ==> !is_permanent_timer(#[trigger] ts[j], names),
    ensures
        count_in(ts, names, n) == 0,
    decreases n,
{
    if n > 0 {
        lemma_count_in_zero(ts, names, n - 1);
    }
}

proof fn lemma_count_groups_zero(gs: Seq<GroupView>, names: Seq<Seq<char>>, n: int)
    requires
        0 <= n <= gs.len(),
        forall|i: int, j: int|
            0 <= i < gs.len() && 0 <= j < gs[i].triggers.len() ==> !is_permanent_timer(
                #[trigger] gs[i].triggers[j],
                names,
            ),
    ensures
        count_groups(gs, names, n) == 0,
    decreases n,
{
    if n > 0 {
        lemma_count_groups_zero(gs, names, n - 1);
        let ts = gs[n - 1].triggers;
        assert forall|j: int| 0 <= j < ts.len() implies !is_permanent_timer(#[trigger] ts[j], names) by {
            assert(!is_permanent_timer(gs[n - 1].triggers[j], names));
        }
        lemma_count_in_zero(ts, names, ts.len() as int);
    }
}

/// Stripping changes exactly the triggers that count a permanent buff down: their timer
/// and timer name are cleared and their comments carry the note; every other trigger,
/// and every group's other fields, stay as they were.
pub proof fn law_strip_effect(gs: Seq<GroupView>, spells: Seq<Seq<char>>)
    ensures
        ({
            let names = permanent_set(spells);
            let out = stripped_groups(gs, names);
            &&& out.len() == gs.len()
            &&& forall|i: int|
                0 <= i < gs.len() ==> (#[trigger] out[i]).id == gs[i].id && out[i].name == gs[i].name
                    && out[i].enabled == gs[i].enabled && out[i].triggers.len() == gs[i].triggers.len()
            &&& forall|i: int, j: int|
                0 <= i < gs.len() && 0 <= j < gs[i].triggers.len() ==> {
                    let t = gs[i].triggers[j];
                    let u = #[trigger] out[i].triggers[j];
                    if is_permanent_timer(t, names) {
                        &&& u.timer_seconds is None
                        &&& u.timer_name is None
                        &&& u.comments matches Some(c) && contains(c, strip_note())
                        &&& u == TriggerView { timer_seconds: None, timer_name: None, comments: u.comments, ..t }
                    } else {
                        u == t
                    }
                }
        }),
{
    let names = permanent_set(spells);
    let out = stripped_groups(gs, names);
    let note = strip_note();
    assert forall|c: Option<Seq<char>>| #[trigger] noted(c) matches Some(x) && contains(x, note) by {
        match c {
            Some(e) => {
                if contains(e, note) {
                } else if is_blank(e) {
                    assert(crate::text::occurs_at(note, note, 0)) by {
                        assert(note.subrange(0, note.len() as int) =~= note);
                    }
                } else {
                    let x = e + seq!['\n'] + note;
                    let k: int = e.len() as int + 1;
                    assert(crate::text::occurs_at(x, note, k)) by {
                        assert(x.subrange(k, k + note.len()) =~= note);
                    }
                }
            },
            None => {
                assert(crate::text::occurs_at(note, note, 0)) by {
                    assert(note.subrange(0, note.len() as int) =~= note);
                }
            },
        }
    }
    assert forall|i: int, j: int| 0 <= i < gs.len() && 0 <= j < gs[i].triggers.len() implies {
        let t = gs[i].triggers[j];
        let u = #[trigger] out[i].triggers[j];
        if is_permanent_timer(t, names) {
            &&& u.timer_seconds is None
            &&& u.timer_name is None
            &&& u.comments matches Some(c) && contains(c, strip_note())
            &&& u == TriggerView { timer_seconds: None, timer_name: None, comments: u.comments, ..t }
        } else {
            u == t
        }
    } by {
        assert(out[i].triggers[j] == strip_trigger(gs[i].triggers[j], names));
        assert(noted(gs[i].triggers[j].comments) matches Some(x) && contains(x, note));
    }
}


/// After stripping, no trigger keeps a countdown for a permanent buff; stripping again
/// changes nothing and reports no changes.
pub proof fn law_strip_idempotent(gs: Seq<GroupView>, spells: Seq<Seq<char>>)
    ensures
        forall|i: int, j: int|
            0 <= i < gs.len() && 0 <= j < gs[i].triggers.len() ==> !is_permanent_timer(
                #[trigger] stripped_groups(gs, permanent_set(spells))[i].triggers[j],
                permanent_set(spells),
            ),
        stripped_groups(stripped_groups(gs, permanent_set(spells)), permanent_set(spells))
            == stripped_groups(gs, permanent_set(spells)),
        count_groups(
            stripped_groups(gs, permanent_set(spells)),
            permanent_set(spells),
            gs.len() as int,
        ) == 0,
{
    let names = permanent_set(spells);
    let s1 = stripped_groups(gs, names);
    assert forall|i: int, j: int| 0 <= i < s1.len() && 0 <= j < s1[i].triggers.len() implies !is_permanent_timer(
        #[trigger] s1[i].triggers[j],
        names,
    ) by {
        assert(s1[i].triggers[j] == strip_trigger(gs[i].triggers[j], names));
    }
    lemma_count_groups_zero(s1, names, gs.len() as int);
    assert forall|i: int| 0 <= i < s1.len() implies #[trigger] stripped_groups(s1, names)[i] == s1[i] by {
        let ts = s1[i].triggers;
        assert forall|j: int| 0 <= j < ts.len() implies #[trigger] strip_trigger(ts[j], names) == ts[j] by {
            assert(!is_permanent_timer(s1[i].triggers[j], names));
        }
        assert(ts.map_values(|t: TriggerView| strip_trigger(t, names)) =~= ts);
        assert(stripped_groups(s1, names)[i] =~~= s1[i]);
    }
    assert(stripped_groups(s1, names) =~= s1);
}

/// Stripping keeps every group's number of triggers, so the size bounds.
pub proof fn lemma_stripped_sizes(gs: Seq<GroupView>, names: Seq<Seq<char>>, n: int)
    requires
        0 <= n <= gs.len(),
    ensures
        triggers_upto(stripped_groups(gs, names), n) == triggers_upto(gs, n),
        stripped_groups(gs, names).len() == gs.len(),
    decreases n,
{
    if n > 0 {
        lemma_stripped_sizes(gs, names, n - 1);
    }
}


/// Whitespace at the end of a text does not survive trimming.
proof fn lemma_trim_push_ws(s: Seq<char>, c: char)
    requires
        crate::text::is_ws(c),
    ensures
        trim(s.push(c)) == trim(s),
{
    lemma_trim_start_push_ws(s, c);
    let y = crate::text::trim_start(s);
    if y.len() > 0 {
        assert(y.push(c).drop_last() =~= y);
    }
}

proof fn lemma_trim_start_push_ws(s: Seq<char>, c: char)
    requires
        crate::text::is_ws(c),
    ensures
        crate::text::trim_start(s.push(c)) == if crate::text::trim_start(s).len() == 0 {
            Seq::<char>::empty()
        } else {
            crate::text::trim_start(s).push(c)
        },
    decreases s.len(),
{
    if s.len() == 0 {
        assert(s.push(c) =~= seq![c]);
        assert(seq![c][0] == c);
        assert(seq![c].drop_first() =~= Seq::<char>::empty());
        assert(crate::text::trim_start(Seq::<char>::empty()) == Seq::<char>::empty());
        assert(crate::text::trim_start(seq![c]) == crate::text::trim_start(seq![c].drop_first()));
    } else if crate::text::is_ws(s[0]) {
        assert(s.push(c)[0] == s[0]);
        assert(s.push(c).drop_first() =~= s.drop_first().push(c));
        lemma_trim_start_push_ws(s.drop_first(), c);
    } else {
        assert(s.push(c)[0] == s[0]);
    }
}

/// The base name ignores a parenthesised note: for a name without `(`, adding ` (` and
/// anything after it leaves the base name as it was (and so does adding `(` directly).
/// So a timed trigger named after a permanent buff with a note such as `Yaulp (Self)` is
/// stripped exactly as `Yaulp` would be.
pub proof fn law_base_name_ignores_note(n: Seq<char>, x: Seq<char>, t: TriggerView, names: Seq<Seq<char>>)
    requires
        !n.contains('('),
    ensures
        base_name(n + seq!['('] + x) == base_name(n),
        base_name(n + seq![' ', '('] + x) == base_name(n),
        is_permanent_timer(TriggerView { name: n + seq![' ', '('] + x, ..t }, names) == is_permanent_timer(
            TriggerView { name: n, ..t },
            names,
        ),
{
    lemma_before_paren(n, x);
    if n.push(' ').contains('(') {
        let w = choose|w: int| 0 <= w < n.push(' ').len() && n.push(' ')[w] == '(';
        if w < n.len() {
            assert(n[w] == '(');
        }
    }
    lemma_before_paren(n.push(' '), x);
    assert(n.push(' ') + seq!['('] + x =~= n + seq![' ', '('] + x);
    assert(n + seq![' '] =~= n.push(' '));
    assert(crate::text::is_ws(' '));
    lemma_trim_push_ws(n, ' ');
    lemma_no_paren(n);
}

proof fn lemma_no_paren(n: Seq<char>)
    requires
        !n.contains('('),
    ensures
        before_first(n, seq!['(']) == n,
{
    crate::text::lemma_first_index(n, seq!['(']);
    if crate::text::first_index(n, seq!['(']) is Some {
        let k = crate::text::first_index(n, seq!['('])->0;
        assert(n.subrange(k, k + 1)[0] == n[k]);
        assert(n[k] == '(');
    }
}

/// Before the first `(` of `n` + `(` + `x` (with no `(` in `n`) stands `n`.
proof fn lemma_before_paren(n: Seq<char>, x: Seq<char>)
    requires
        !n.contains('('),
    ensures
        before_first(n + seq!['('] + x, seq!['(']) == n,
{
    {
        let s = n + seq!['('] + x;
        let p = seq!['('];
        crate::text::lemma_first_index(s, p);
        assert(s.subrange(n.len() as int, n.len() + 1int) =~= p);
        assert(crate::text::occurs_at(s, p, n.len() as int));
        assert(crate::text::contains(s, p));
        let k = crate::text::first_index(s, p)->0;
        if k < n.len() {
            assert(s.subrange(k, k + 1)[0] == s[k]);
            assert(s[k] == n[k]);
        }
        assert(s.take(n.len() as int) =~= n);
    }
}

} // verus!
