//! Built-in starter trigger library for EverQuest Legends, and the migrations that
//! keep a saved library in line with it.
//!
//! Every migration maps each group to a new group and a count of what changed; the
//! contracts state that per-group change as a spec function.

use vstd::prelude::*;
use crate::eql_compat::{permanent_set, strip_permanent_buff_timers, stripped_groups};
use crate::model::{GroupView, Trigger, TriggerGroup, TriggerLibrary, TriggerView, group_views, trigger_views};
use crate::text::{
    chars_of, contains, contains_chars, eq_ignore_case, is_blank, occurs_at, push_all, starts_with,
    string_of, to_lower, trim,
};
use crate::tokens::{
    is_self_attributed_search, self_attributed, spell_base, spell_basename, you_hit_by_spell_pattern,
    you_hit_pattern,
};

verus! {

/// Number of triggers in the first `n` groups.
pub open spec fn triggers_upto(gs: Seq<GroupView>, n: int) -> nat
    decreases n,
{
    if n <= 0 {
        0
    } else {
        triggers_upto(gs, n - 1) + gs[n - 1].triggers.len()
    }
}

/// A library small enough that counts of changes fit in `usize` (a machine limit:
/// four changes per trigger and per group at most).
pub open spec fn countable(gs: Seq<GroupView>) -> bool {
    4 * (triggers_upto(gs, gs.len() as int) + gs.len()) <= usize::MAX
}

/// Whether the library is small enough to count its changes (a machine limit).
pub fn library_is_countable(lib: &TriggerLibrary) -> (r: bool)
    ensures
        r == countable(lib@),
{
    let mut total: usize = 0;
    let mut i: usize = 0;
    while i < lib.groups.len()
        invariant
            i <= lib.groups.len(),
            total == triggers_upto(lib@, i as int) + i,
        decreases lib.groups.len() - i,
    {
        assert(lib@[i as int].triggers.len() == lib.groups@[i as int].triggers@.len());
        match total.checked_add(lib.groups[i].triggers.len()) {
            Some(t) => match t.checked_add(1) {
                Some(u) => {
                    total = u;
                },
                None => {
                    proof {
                        lemma_upto_grows(lib@, i + 1, lib@.len() as int);
                    }
                    return false;
                },
            },
            None => {
                proof {
                    lemma_upto_grows(lib@, i + 1, lib@.len() as int);
                }
                return false;
            },
        }
        i += 1;
    }
    total <= usize::MAX / 4
}

/// Each trigger mapped through `f`.
pub open spec fn map_trigger_views(ts: Seq<TriggerView>, f: spec_fn(TriggerView) -> (TriggerView, nat)) -> Seq<
    TriggerView,
> {
    ts.map_values(|t: TriggerView| f(t).0)
}

/// Sum of the change counts of `f` over the first `n` triggers.
pub open spec fn trigger_changes(ts: Seq<TriggerView>, f: spec_fn(TriggerView) -> (TriggerView, nat), n: int) -> nat
    decreases n,
{
    if n <= 0 {
        0
    } else {
        trigger_changes(ts, f, n - 1) + f(ts[n - 1]).1
    }
}

/// Each group mapped through `f`.
pub open spec fn map_group_views(gs: Seq<GroupView>, f: spec_fn(GroupView) -> (GroupView, nat)) -> Seq<GroupView> {
    gs.map_values(|g: GroupView| f(g).0)
}

/// Sum of the change counts of `f` over the first `n` groups.
pub open spec fn group_changes(gs: Seq<GroupView>, f: spec_fn(GroupView) -> (GroupView, nat), n: int) -> nat
    decreases n,
{
    if n <= 0 {
        0
    } else {
        group_changes(gs, f, n - 1) + f(gs[n - 1]).1
    }
}

proof fn lemma_trigger_changes_le(
    ts: Seq<TriggerView>,
    f: spec_fn(TriggerView) -> (TriggerView, nat),
    n: int,
)
    requires
        0 <= n <= ts.len(),
        forall|t: TriggerView| #[trigger] f(t).1 <= 4,
    ensures
        trigger_changes(ts, f, n) <= 4 * n,
    decreases n,
{
    if n > 0 {
        lemma_trigger_changes_le(ts, f, n - 1);
        assert(f(ts[n - 1]).1 <= 4);
    }
}

proof fn lemma_group_changes_le(gs: Seq<GroupView>, f: spec_fn(GroupView) -> (GroupView, nat), n: int)
    requires
        0 <= n <= gs.len(),
        forall|g: GroupView| #[trigger] f(g).1 <= 4 * (g.triggers.len() + 1),
    ensures
        group_changes(gs, f, n) <= 4 * (triggers_upto(gs, n) + n),
    decreases n,
{
    if n > 0 {
        lemma_group_changes_le(gs, f, n - 1);
        assert(f(gs[n - 1]).1 <= 4 * (gs[n - 1].triggers.len() + 1));
    }
}

proof fn lemma_triggers_upto_mono(gs: Seq<GroupView>, m: int, n: int)
    requires
        0 <= m <= n <= gs.len(),
    ensures
        triggers_upto(gs, m) + m <= triggers_upto(gs, n) + n,
    decreases n - m,
{
    if m < n {
        lemma_triggers_upto_mono(gs, m, n - 1);
    }
}

/// Maps each trigger through `f`, summing the change counts.
fn map_triggers<F: Fn(&Trigger) -> (Trigger, usize)>(
    ts: &Vec<Trigger>,
    f: &F,
    Ghost(fs): Ghost<spec_fn(TriggerView) -> (TriggerView, nat)>,
) -> (r: (Vec<Trigger>, usize))
    requires
        forall|t: &Trigger| #[trigger] f.requires((t,)),
        forall|t: &Trigger, out: (Trigger, usize)|
            #[trigger] f.ensures((t,), out) ==> out.0@ == fs(t@).0 && out.1 as nat == fs(t@).1,
        forall|t: TriggerView| #[trigger] fs(t).1 <= 4,
        4 * ts@.len() <= usize::MAX,
    ensures
        trigger_views(r.0@) == map_trigger_views(trigger_views(ts@), fs),
        r.1 as nat == trigger_changes(trigger_views(ts@), fs, ts@.len() as int),
{
    let ghost tv = trigger_views(ts@);
    let mut out: Vec<Trigger> = Vec::new();
    let mut changed: usize = 0;
    let mut i: usize = 0;
    while i < ts.len()
        invariant
            i <= ts.len(),
            tv == trigger_views(ts@),
            forall|t: &Trigger| #[trigger] f.requires((t,)),
            forall|t: &Trigger, out: (Trigger, usize)|
                #[trigger] f.ensures((t,), out) ==> out.0@ == fs(t@).0 && out.1 as nat == fs(t@).1,
            forall|t: TriggerView| #[trigger] fs(t).1 <= 4,
            4 * ts@.len() <= usize::MAX,
            trigger_views(out@) == map_trigger_views(tv, fs).take(i as int),
            changed as nat == trigger_changes(tv, fs, i as int),
        decreases ts.len() - i,
    {
        proof {
            lemma_trigger_changes_le(tv, fs, i as int);
        }
        let (nt, c) = f(&ts[i]);
        assert(ts@[i as int]@ == tv[i as int]);
        let ghost before = trigger_views(out@);
        out.push(nt);
        assert(trigger_views(out@) =~= before.push(fs(tv[i as int]).0));
        assert(map_trigger_views(tv, fs).take(i + 1) =~= map_trigger_views(tv, fs).take(i as int).push(
            fs(tv[i as int]).0,
        ));
        changed = changed + c;
        i += 1;
    }
    assert(map_trigger_views(tv, fs).take(ts.len() as int) =~= map_trigger_views(tv, fs));
    (out, changed)
}

/// Maps each group of the library through `f`, summing the change counts.
fn map_groups<F: Fn(&TriggerGroup) -> (TriggerGroup, usize)>(
    library: &mut TriggerLibrary,
    f: &F,
    Ghost(fs): Ghost<spec_fn(GroupView) -> (GroupView, nat)>,
) -> (r: usize)
    requires
        forall|g: &TriggerGroup| 4 * g@.triggers.len() <= usize::MAX ==> #[trigger] f.requires((g,)),
        forall|g: &TriggerGroup, out: (TriggerGroup, usize)|
            #[trigger] f.ensures((g,), out) ==> out.0@ == fs(g@).0 && out.1 as nat == fs(g@).1,
        forall|g: GroupView| #[trigger] fs(g).1 <= 4 * (g.triggers.len() + 1),
        countable(old(library)@),
    ensures
        final(library)@ == map_group_views(old(library)@, fs),
        r as nat == group_changes(old(library)@, fs, old(library)@.len() as int),
{
    let ghost gs = library@;
    let mut groups: Vec<TriggerGroup> = Vec::new();
    std::mem::swap(&mut groups, &mut library.groups);
    assert(group_views(groups@) == gs);
    let mut out: Vec<TriggerGroup> = Vec::new();
    let mut changed: usize = 0;
    let mut i: usize = 0;
    while i < groups.len()
        invariant
            i <= groups.len(),
            gs == group_views(groups@),
            forall|g: &TriggerGroup| 4 * g@.triggers.len() <= usize::MAX ==> #[trigger] f.requires((g,)),
            forall|g: &TriggerGroup, out: (TriggerGroup, usize)|
                #[trigger] f.ensures((g,), out) ==> out.0@ == fs(g@).0 && out.1 as nat == fs(g@).1,
            forall|g: GroupView| #[trigger] fs(g).1 <= 4 * (g.triggers.len() + 1),
            countable(gs),
            group_views(out@) == map_group_views(gs, fs).take(i as int),
            changed as nat == group_changes(gs, fs, i as int),
        decreases groups.len() - i,
    {
        proof {
            lemma_group_changes_le(gs, fs, i + 1);
            lemma_triggers_upto_mono(gs, i + 1, gs.len() as int);
            lemma_triggers_upto_le(gs, i + 1, gs.len() as int);
        }
        assert(groups@[i as int]@ == gs[i as int]);
        let (ng, c) = f(&groups[i]);
        assert(groups@[i as int]@ == gs[i as int]);
        let ghost before = group_views(out@);
        out.push(ng);
        assert(group_views(out@) =~= before.push(fs(gs[i as int]).0));
        assert(map_group_views(gs, fs).take(i + 1) =~= map_group_views(gs, fs).take(i as int).push(
            fs(gs[i as int]).0,
        ));
        changed = changed + c;
        i += 1;
    }
    assert(map_group_views(gs, fs).take(groups.len() as int) =~= map_group_views(gs, fs));
    library.groups = out;
    changed
}

/// The text of an optional string argument.
pub open spec fn opt_str(o: Option<&str>) -> Option<Seq<char>> {
    match o {
        Some(s) => Some(s@),
        None => None,
    }
}

/// A plain-text trigger, enabled, TTS on, no timer.
pub open spec fn plain(
    id: Seq<char>,
    name: Seq<char>,
    search: Seq<char>,
    display: Option<Seq<char>>,
    speak: Option<Seq<char>>,
    sound: Option<Seq<char>>,
    comments: Option<Seq<char>>,
) -> TriggerView {
    TriggerView {
        id,
        name,
        enabled: true,
        search,
        use_regex: false,
        display_text: display,
        timer_seconds: None,
        timer_name: None,
        early_end: Seq::empty(),
        sound,
        speak,
        tts_enabled: true,
        comments,
    }
}

/// `plain` with a regex search.
pub open spec fn plain_regex(
    id: Seq<char>,
    name: Seq<char>,
    search: Seq<char>,
    display: Option<Seq<char>>,
    speak: Option<Seq<char>>,
    sound: Option<Seq<char>>,
    comments: Option<Seq<char>>,
) -> TriggerView {
    TriggerView { use_regex: true, ..plain(id, name, search, display, speak, sound, comments) }
}

/// `plain` with a timer and early-ends.
pub open spec fn timed(
    id: Seq<char>,
    name: Seq<char>,
    search: Seq<char>,
    display: Option<Seq<char>>,
    speak: Option<Seq<char>>,
    sound: Option<Seq<char>>,
    secs: u64,
    timer_name: Seq<char>,
    early_end: Seq<Seq<char>>,
    comments: Option<Seq<char>>,
) -> TriggerView {
    TriggerView {
        timer_seconds: Some(secs),
        timer_name: Some(timer_name),
        early_end,
        ..plain(id, name, search, display, speak, sound, comments)
    }
}

/// `timed` with a regex search.
pub open spec fn timed_regex(
    id: Seq<char>,
    name: Seq<char>,
    search: Seq<char>,
    display: Option<Seq<char>>,
    speak: Option<Seq<char>>,
    sound: Option<Seq<char>>,
    secs: u64,
    timer_name: Seq<char>,
    early_end: Seq<Seq<char>>,
    comments: Option<Seq<char>>,
) -> TriggerView {
    TriggerView {
        use_regex: true,
        ..timed(id, name, search, display, speak, sound, secs, timer_name, early_end, comments)
    }
}

/// Opt-in within its category: disabled, with a note saying so.
pub open spec fn opt_in(t: TriggerView) -> TriggerView {
    TriggerView {
        enabled: false,
        comments: match t.comments {
            Some(n) => if contains(n, "opt-in"@) {
                Some(n)
            } else {
                Some(n + " · opt-in (off by default)"@)
            },
            None => Some("opt-in (off by default)"@),
        },
        ..t
    }
}

fn opt_string(o: Option<&str>) -> (r: Option<String>)
    ensures
        r.deep_view() == opt_str(o),
{
    match o {
        Some(s) => Some(String::from_str(s)),
        None => None,
    }
}

fn t(
    id: &str,
    name: &str,
    search: &str,
    display: Option<&str>,
    speak: Option<&str>,
    sound: Option<&str>,
    comments: Option<&str>,
) -> (r: Trigger)
    ensures
        r@ == plain(
            id@,
            name@,
            search@,
            opt_str(display),
            opt_str(speak),
            opt_str(sound),
            opt_str(comments),
        ),
{
    let r = Trigger {
        id: String::from_str(id),
        name: String::from_str(name),
        enabled: true,
        search: String::from_str(search),
        use_regex: false,
        display_text: opt_string(display),
        timer_seconds: None,
        timer_name: None,
        early_end: Vec::new(),
        sound: opt_string(sound),
        speak: opt_string(speak),
        tts_enabled: true,
        comments: opt_string(comments),
    };
    assert(r@.early_end =~= Seq::<Seq<char>>::empty());
    r
}

fn t_regex(
    id: &str,
    name: &str,
    search: &str,
    display: Option<&str>,
    speak: Option<&str>,
    sound: Option<&str>,
    comments: Option<&str>,
) -> (r: Trigger)
    ensures
        r@ == plain_regex(
            id@,
            name@,
            search@,
            opt_str(display),
            opt_str(speak),
            opt_str(sound),
            opt_str(comments),
        ),
{
    let mut trigger = t(id, name, search, display, speak, sound, comments);
    trigger.use_regex = true;
    trigger
}

/// The texts of a list of string arguments.
pub open spec fn strs(v: Seq<&str>) -> Seq<Seq<char>> {
    v.map_values(|s: &str| s@)
}

fn t_timer(
    id: &str,
    name: &str,
    search: &str,
    display: Option<&str>,
    speak: Option<&str>,
    sound: Option<&str>,
    timer_seconds: u64,
    timer_name: &str,
    early_end: Vec<&str>,
    comments: Option<&str>,
) -> (r: Trigger)
    ensures
        r@ == timed(
            id@,
            name@,
            search@,
            opt_str(display),
            opt_str(speak),
            opt_str(sound),
            timer_seconds,
            timer_name@,
            strs(early_end@),
            opt_str(comments),
        ),
{
    let mut trigger = t(id, name, search, display, speak, sound, comments);
    trigger.timer_seconds = Some(timer_seconds);
    trigger.timer_name = Some(String::from_str(timer_name));
    let mut ee: Vec<String> = Vec::new();
    let mut i: usize = 0;
    while i < early_end.len()
        invariant
            i <= early_end.len(),
            ee.deep_view() == strs(early_end@).take(i as int),
        decreases early_end.len() - i,
    {
        let ghost before = ee.deep_view();
        let e = String::from_str(early_end[i]);
        ee.push(e);
        assert(strs(early_end@)[i as int] == early_end@[i as int]@);
        assert(ee.deep_view() =~= before.push(early_end@[i as int]@));
        assert(ee.deep_view() =~= strs(early_end@).take(i + 1));
        i += 1;
    }
    assert(strs(early_end@).take(early_end.len() as int) =~= strs(early_end@));
    trigger.early_end = ee;
    trigger
}

fn t_timer_regex(
    id: &str,
    name: &str,
    search: &str,
    display: Option<&str>,
    speak: Option<&str>,
    sound: Option<&str>,
    timer_seconds: u64,
    timer_name: &str,
    early_end: Vec<&str>,
    comments: Option<&str>,
) -> (r: Trigger)
    ensures
        r@ == timed_regex(
            id@,
            name@,
            search@,
            opt_str(display),
            opt_str(speak),
            opt_str(sound),
            timer_seconds,
            timer_name@,
            strs(early_end@),
            opt_str(comments),
        ),
{
    let mut trigger = t_timer(
        id,
        name,
        search,
        display,
        speak,
        sound,
        timer_seconds,
        timer_name,
        early_end,
        comments,
    );
    trigger.use_regex = true;
    trigger
}

/// Opt-in within its category: the group may be armed, but this trigger stays off.
fn off(trigger: Trigger) -> (r: Trigger)
    ensures
        r@ == opt_in(trigger@),
{
    let mut trigger = trigger;
    trigger.enabled = false;
    let note = match &trigger.comments {
        Some(n) => {
            let nv = chars_of(n.as_str());
            if contains_chars(nv.as_slice(), chars_of("opt-in").as_slice()) {
                n.clone()
            } else {
                let mut out = nv;
                push_all(&mut out, chars_of(" · opt-in (off by default)").as_slice());
                string_of(out.as_slice())
            }
        },
        None => String::from_str("opt-in (off by default)"),
    };
    trigger.comments = Some(note);
    trigger
}

/// The `core` essentials group.
pub open spec fn essentials_core() -> GroupView {
    GroupView {
        id: "eql-essentials-core"@,
        name: "EQL Essentials / Core"@,
        enabled: true,
        triggers: seq![
            plain(
                "eql-essentials-zoning"@,
                "Zoning"@,
                "LOADING, PLEASE WAIT..."@,
                Some("Zoning…"@),
                None,
                None,
                Some("Core — always useful while learning"@),
            ),
            timed(
                "eql-essentials-slain"@,
                "You have been slain"@,
                "You have been slain by"@,
                Some("YOU DIED"@),
                Some("You died"@),
                Some("sosumi"@),
                6,
                "Death"@,
                seq![],
                None,
            ),
            plain_regex(
                "eql-essentials-fizzle"@,
                "Spell fizzle"@,
                r"^Your(?: .+)? spell fizzles!$"@,
                Some("Fizzle"@),
                Some("Fizzle"@),
                Some("tink"@),
                Some("Only your fizzles — classic Your spell fizzles! and EQL Your <Spell> spell fizzles!"@),
            ),
            plain_regex(
                "eql-essentials-oom"@,
                "Insufficient Mana"@,
                r"^Insufficient Mana to cast this spell!$"@,
                Some("Out of mana!"@),
                Some("Out of mana"@),
                Some("ping"@),
                Some("Anchored full-line match — casters / hybrids"@),
            ),
            timed(
                "eql-essentials-low-health"@,
                "Low health"@,
                "You are bleeding to death!"@,
                Some("LOW HEALTH"@),
                Some("Low health"@),
                Some("submarine"@),
                5,
                "Low Health"@,
                seq![],
                Some("Classic EQ low-HP warning"@),
            ),
            timed(
                "eql-essentials-low-pet-health"@,
                "Low pet health"@,
                "I have 50 percent of my hit points left"@,
                Some("PET LOW HEALTH"@),
                Some("Pet low health"@),
                Some("submarine"@),
                5,
                "Low Pet Health"@,
                seq![],
                Some("Pet HP report at 50% (classic /pet health line)"@),
            ),
            plain_regex(
                "eql-essentials-pet-died"@,
                "Your pet died"@,
                r"^{C}`s .+ has been slain by"@,
                Some("PET DIED"@),
                Some("Pet died"@),
                Some("bottle"@),
                Some("EQL pet ownership line (mage / necro / beastlord / …)"@),
            ),
            plain(
                "eql-essentials-pet-died-classic"@,
                "Your pet died (classic line)"@,
                "Your pet has been slain"@,
                Some("PET DIED"@),
                Some("Pet died"@),
                Some("bottle"@),
                Some("Fallback if the client emits Your pet has been slain"@),
            ),
        ],
    }
}

/// The `combat` essentials group.
pub open spec fn essentials_combat() -> GroupView {
    GroupView {
        id: "eql-essentials-combat"@,
        name: "EQL Essentials / Combat"@,
        enabled: true,
        triggers: seq![
            plain_regex(
                "eql-essentials-interrupted"@,
                "Spell interrupted"@,
                r"^Your(?: .+)? spell is interrupted\.$"@,
                Some("Interrupted"@),
                Some("Interrupted"@),
                None,
                Some("Only your interrupts — classic Your spell is interrupted. and EQL Your <Spell> spell is interrupted."@),
            ),
            plain(
                "eql-essentials-did-not-take"@,
                "Spell did not take hold"@,
                "Your spell did not take hold."@,
                Some("Didn't take"@),
                Some("Did not take hold"@),
                Some("tink"@),
                None,
            ),
            plain_regex(
                "eql-essentials-resisted"@,
                "Target resisted"@,
                r"^Your target resisted the .+ spell\.$"@,
                Some("Resisted"@),
                Some("Resisted"@),
                Some("tink"@),
                None,
            ),
            opt_in(plain(
                "eql-essentials-must-stand"@,
                "Must be standing"@,
                "You must be standing to cast a spell."@,
                Some("Stand up"@),
                Some("Stand up"@),
                Some("ping"@),
                Some("Off by default — turn on TTS or switch to sound in the editor"@),
            )),
            opt_in(plain_regex(
                "eql-essentials-los"@,
                "Can't see target"@,
                r"^You can't see your target from here\.$"@,
                Some("No LOS"@),
                Some("Can't see target"@),
                Some("ping"@),
                Some("Off by default (melee spam)"@),
            )),
            opt_in(plain_regex(
                "eql-essentials-out-of-range"@,
                "Target too far"@,
                r"^Your target is too far away, get closer!$"@,
                Some("Out of range"@),
                Some("Out of range"@),
                Some("ping"@),
                Some("Off by default (melee spam) — TTS if you arm it"@),
            )),
            plain_regex(
                "eql-essentials-enrage"@,
                "Enrage"@,
                r"^([\w -'`]+) has become ENRAGED\.$"@,
                Some("ENRAGED"@),
                Some("Enraged"@),
                Some("sosumi"@),
                Some("Raid / named target enrage"@),
            ),
            plain_regex(
                "eql-essentials-enrage-over"@,
                "Enrage over"@,
                r"^([\w -'`]+) is no longer enraged\.$"@,
                Some("Rage over"@),
                Some("Rage over"@),
                Some("glass"@),
                None,
            ),
        ],
    }
}

/// The `danger` essentials group.
pub open spec fn essentials_danger() -> GroupView {
    GroupView {
        id: "eql-essentials-danger"@,
        name: "EQL Essentials / Danger"@,
        enabled: true,
        triggers: seq![
            timed_regex(
                "eql-essentials-stunned"@,
                "Stunned"@,
                r"^You are stunned!$"@,
                Some("STUNNED"@),
                Some("Stunned"@),
                Some("sosumi"@),
                8,
                "Stunned"@,
                seq![
                    r"^You are unstunned\.$"@,
                    r"^You are no longer stunned\.$"@,
                ],
                Some("Exact line only — do not match “can't cast … while stunned”"@),
            ),
            plain(
                "eql-essentials-feared"@,
                "Feared"@,
                "You flee in terror."@,
                Some("FEARED"@),
                Some("Feared"@),
                Some("sosumi"@),
                Some("Dragon roar / fear lands"@),
            ),
            plain_regex(
                "eql-essentials-slowed"@,
                "Slowed"@,
                r"^You (slow down|feel drowsy)\.$"@,
                Some("SLOWED"@),
                Some("Slowed"@),
                Some("sosumi"@),
                Some("Attack slow on you — cure it"@),
            ),
            plain_regex(
                "eql-essentials-slow-broke"@,
                "Slow broke"@,
                r"^Your speed returns to normal\.$"@,
                Some("Slow free"@),
                Some("Slow broke"@),
                Some("glass"@),
                None,
            ),
            plain_regex(
                "eql-essentials-rooted"@,
                "Rooted"@,
                r"^Your feet (adhere to the ground|become entwined)\.$"@,
                Some("ROOTED"@),
                Some("Rooted"@),
                Some("ping"@),
                None,
            ),
            plain_regex(
                "eql-essentials-root-broke"@,
                "Root broke"@,
                r"^(The roots fall from your feet|Your feet come free)\.$"@,
                Some("Root free"@),
                Some("Root broke"@),
                Some("glass"@),
                None,
            ),
            plain(
                "eql-essentials-charmed"@,
                "Charmed"@,
                "You have been charmed."@,
                Some("CHARMED"@),
                Some("Charmed"@),
                Some("sosumi"@),
                None,
            ),
            plain(
                "eql-essentials-silenced"@,
                "Silenced"@,
                "You *CANNOT* cast spells, you have been silenced!"@,
                Some("SILENCED"@),
                Some("Silenced"@),
                Some("sosumi"@),
                None,
            ),
            opt_in(plain_regex(
                "eql-essentials-dispelled"@,
                "Dispelled"@,
                r"^You feel (((a bit|very) dispelled)|dispelled|annulled)\.$"@,
                Some("Dispelled"@),
                Some("Dispelled"@),
                Some("ping"@),
                None,
            )),
            plain(
                "eql-essentials-drowning"@,
                "Drowning"@,
                "You are drowning!"@,
                Some("DROWNING"@),
                Some("Drowning"@),
                Some("submarine"@),
                None,
            ),
            opt_in(plain(
                "eql-essentials-encumbered"@,
                "Encumbered"@,
                "You are encumbered!"@,
                Some("Encumbered"@),
                Some("Encumbered"@),
                Some("ping"@),
                None,
            )),
        ],
    }
}

/// The `fades` essentials group.
pub open spec fn essentials_fades() -> GroupView {
    GroupView {
        id: "eql-essentials-fades"@,
        name: "EQL Essentials / Fades"@,
        enabled: true,
        triggers: seq![
            plain(
                "eql-essentials-invis-fading"@,
                "Invis fading"@,
                "You feel yourself starting to appear."@,
                Some("Invis fading"@),
                Some("Invis fading"@),
                Some("ping"@),
                None,
            ),
            opt_in(plain_regex(
                "eql-essentials-invis-faded"@,
                "Invis faded"@,
                r"^(You appear|Your (shadows fade|skin stops tingling))\.$"@,
                Some("Invis faded"@),
                Some("Invis faded"@),
                Some("tink"@),
                None,
            )),
            plain(
                "eql-essentials-levitate-fading"@,
                "Levitate fading"@,
                "You feel as if you are about to fall."@,
                Some("Falling"@),
                Some("Levitate fading"@),
                Some("sosumi"@),
                None,
            ),
        ],
    }
}

/// The `social` essentials group.
pub open spec fn essentials_social() -> GroupView {
    GroupView {
        id: "eql-essentials-social"@,
        name: "EQL Essentials / Social"@,
        enabled: false,
        triggers: seq![
            plain_regex(
                "eql-essentials-group-invite"@,
                "Group invite"@,
                r"^([\w]+) invites you to join a group\.$"@,
                Some("Group invite"@),
                Some("Invited to group"@),
                Some("glass"@),
                None,
            ),
            plain_regex(
                "eql-essentials-raid-invite"@,
                "Raid invite"@,
                r"^([\w]+) invites you to join a raid\.$"@,
                Some("Raid invite"@),
                Some("Invited to raid"@),
                Some("glass"@),
                None,
            ),
            plain_regex(
                "eql-essentials-linkdead"@,
                "Group linkdead"@,
                r"^([\w]+) has gone Linkdead\.$"@,
                Some("Linkdead"@),
                Some("Linkdead"@),
                Some("ping"@),
                None,
            ),
            plain(
                "eql-essentials-out-of-charges"@,
                "Out of charges"@,
                "Item is out of charges."@,
                Some("Out of charges"@),
                Some("Out of charges"@),
                Some("tink"@),
                None,
            ),
            plain(
                "eql-essentials-out-of-ammo"@,
                "Out of ammo"@,
                "You have run out of ammo!"@,
                Some("OUT OF AMMO"@),
                Some("Out of ammo"@),
                Some("ping"@),
                None,
            ),
        ],
    }
}

fn essentials_core_group() -> (r: TriggerGroup)
    ensures
        r@ == essentials_core(),
{
    let r = TriggerGroup {
        id: String::from_str("eql-essentials-core"),
        name: String::from_str("EQL Essentials / Core"),
        enabled: true,
        triggers: vec![
            t(
                "eql-essentials-zoning",
                "Zoning",
                "LOADING, PLEASE WAIT...",
                Some("Zoning…"),
                None,
                None,
                Some("Core — always useful while learning"),
            ),
            t_timer(
                "eql-essentials-slain",
                "You have been slain",
                "You have been slain by",
                Some("YOU DIED"),
                Some("You died"),
                Some("sosumi"),
                6,
                "Death",
                vec![],
                None,
            ),
            t_regex(
                "eql-essentials-fizzle",
                "Spell fizzle",
                r"^Your(?: .+)? spell fizzles!$",
                Some("Fizzle"),
                Some("Fizzle"),
                Some("tink"),
                Some("Only your fizzles — classic Your spell fizzles! and EQL Your <Spell> spell fizzles!"),
            ),
            t_regex(
                "eql-essentials-oom",
                "Insufficient Mana",
                r"^Insufficient Mana to cast this spell!$",
                Some("Out of mana!"),
                Some("Out of mana"),
                Some("ping"),
                Some("Anchored full-line match — casters / hybrids"),
            ),
            t_timer(
                "eql-essentials-low-health",
                "Low health",
                "You are bleeding to death!",
                Some("LOW HEALTH"),
                Some("Low health"),
                Some("submarine"),
                5,
                "Low Health",
                vec![],
                Some("Classic EQ low-HP warning"),
            ),
            t_timer(
                "eql-essentials-low-pet-health",
                "Low pet health",
                "I have 50 percent of my hit points left",
                Some("PET LOW HEALTH"),
                Some("Pet low health"),
                Some("submarine"),
                5,
                "Low Pet Health",
                vec![],
                Some("Pet HP report at 50% (classic /pet health line)"),
            ),
            t_regex(
                "eql-essentials-pet-died",
                "Your pet died",
                r"^{C}`s .+ has been slain by",
                Some("PET DIED"),
                Some("Pet died"),
                Some("bottle"),
                Some("EQL pet ownership line (mage / necro / beastlord / …)"),
            ),
            t(
                "eql-essentials-pet-died-classic",
                "Your pet died (classic line)",
                "Your pet has been slain",
                Some("PET DIED"),
                Some("Pet died"),
                Some("bottle"),
                Some("Fallback if the client emits Your pet has been slain"),
            ),
        ],
    };
    assert(r@ =~~= essentials_core());
    r
}

fn essentials_combat_group() -> (r: TriggerGroup)
    ensures
        r@ == essentials_combat(),
{
    let r = TriggerGroup {
        id: String::from_str("eql-essentials-combat"),
        name: String::from_str("EQL Essentials / Combat"),
        enabled: true,
        triggers: vec![
            t_regex(
                "eql-essentials-interrupted",
                "Spell interrupted",
                r"^Your(?: .+)? spell is interrupted\.$",
                Some("Interrupted"),
                Some("Interrupted"),
                None,
                Some("Only your interrupts — classic Your spell is interrupted. and EQL Your <Spell> spell is interrupted."),
            ),
            t(
                "eql-essentials-did-not-take",
                "Spell did not take hold",
                "Your spell did not take hold.",
                Some("Didn't take"),
                Some("Did not take hold"),
                Some("tink"),
                None,
            ),
            t_regex(
                "eql-essentials-resisted",
                "Target resisted",
                r"^Your target resisted the .+ spell\.$",
                Some("Resisted"),
                Some("Resisted"),
                Some("tink"),
                None,
            ),
            off(t(
                "eql-essentials-must-stand",
                "Must be standing",
                "You must be standing to cast a spell.",
                Some("Stand up"),
                Some("Stand up"),
                Some("ping"),
                Some("Off by default — turn on TTS or switch to sound in the editor"),
            )),
            off(t_regex(
                "eql-essentials-los",
                "Can't see target",
                r"^You can't see your target from here\.$",
                Some("No LOS"),
                Some("Can't see target"),
                Some("ping"),
                Some("Off by default (melee spam)"),
            )),
            off(t_regex(
                "eql-essentials-out-of-range",
                "Target too far",
                r"^Your target is too far away, get closer!$",
                Some("Out of range"),
                Some("Out of range"),
                Some("ping"),
                Some("Off by default (melee spam) — TTS if you arm it"),
            )),
            t_regex(
                "eql-essentials-enrage",
                "Enrage",
                r"^([\w -'`]+) has become ENRAGED\.$",
                Some("ENRAGED"),
                Some("Enraged"),
                Some("sosumi"),
                Some("Raid / named target enrage"),
            ),
            t_regex(
                "eql-essentials-enrage-over",
                "Enrage over",
                r"^([\w -'`]+) is no longer enraged\.$",
                Some("Rage over"),
                Some("Rage over"),
                Some("glass"),
                None,
            ),
        ],
    };
    assert(r@ =~~= essentials_combat());
    r
}

fn essentials_danger_group() -> (r: TriggerGroup)
    ensures
        r@ == essentials_danger(),
{
    let r = TriggerGroup {
        id: String::from_str("eql-essentials-danger"),
        name: String::from_str("EQL Essentials / Danger"),
        enabled: true,
        triggers: vec![
            t_timer_regex(
                "eql-essentials-stunned",
                "Stunned",
                r"^You are stunned!$",
                Some("STUNNED"),
                Some("Stunned"),
                Some("sosumi"),
                8,
                "Stunned",
                vec![
                    r"^You are unstunned\.$",
                    r"^You are no longer stunned\.$",
                ],
                Some("Exact line only — do not match “can't cast … while stunned”"),
            ),
            t(
                "eql-essentials-feared",
                "Feared",
                "You flee in terror.",
                Some("FEARED"),
                Some("Feared"),
                Some("sosumi"),
                Some("Dragon roar / fear lands"),
            ),
            t_regex(
                "eql-essentials-slowed",
                "Slowed",
                r"^You (slow down|feel drowsy)\.$",
                Some("SLOWED"),
                Some("Slowed"),
                Some("sosumi"),
                Some("Attack slow on you — cure it"),
            ),
            t_regex(
                "eql-essentials-slow-broke",
                "Slow broke",
                r"^Your speed returns to normal\.$",
                Some("Slow free"),
                Some("Slow broke"),
                Some("glass"),
                None,
            ),
            t_regex(
                "eql-essentials-rooted",
                "Rooted",
                r"^Your feet (adhere to the ground|become entwined)\.$",
                Some("ROOTED"),
                Some("Rooted"),
                Some("ping"),
                None,
            ),
            t_regex(
                "eql-essentials-root-broke",
                "Root broke",
                r"^(The roots fall from your feet|Your feet come free)\.$",
                Some("Root free"),
                Some("Root broke"),
                Some("glass"),
                None,
            ),
            t(
                "eql-essentials-charmed",
                "Charmed",
                "You have been charmed.",
                Some("CHARMED"),
                Some("Charmed"),
                Some("sosumi"),
                None,
            ),
            t(
                "eql-essentials-silenced",
                "Silenced",
                "You *CANNOT* cast spells, you have been silenced!",
                Some("SILENCED"),
                Some("Silenced"),
                Some("sosumi"),
                None,
            ),
            off(t_regex(
                "eql-essentials-dispelled",
                "Dispelled",
                r"^You feel (((a bit|very) dispelled)|dispelled|annulled)\.$",
                Some("Dispelled"),
                Some("Dispelled"),
                Some("ping"),
                None,
            )),
            t(
                "eql-essentials-drowning",
                "Drowning",
                "You are drowning!",
                Some("DROWNING"),
                Some("Drowning"),
                Some("submarine"),
                None,
            ),
            off(t(
                "eql-essentials-encumbered",
                "Encumbered",
                "You are encumbered!",
                Some("Encumbered"),
                Some("Encumbered"),
                Some("ping"),
                None,
            )),
        ],
    };
    assert(r@ =~~= essentials_danger());
    r
}

fn essentials_fades_group() -> (r: TriggerGroup)
    ensures
        r@ == essentials_fades(),
{
    let r = TriggerGroup {
        id: String::from_str("eql-essentials-fades"),
        name: String::from_str("EQL Essentials / Fades"),
        enabled: true,
        triggers: vec![
            t(
                "eql-essentials-invis-fading",
                "Invis fading",
                "You feel yourself starting to appear.",
                Some("Invis fading"),
                Some("Invis fading"),
                Some("ping"),
                None,
            ),
            off(t_regex(
                "eql-essentials-invis-faded",
                "Invis faded",
                r"^(You appear|Your (shadows fade|skin stops tingling))\.$",
                Some("Invis faded"),
                Some("Invis faded"),
                Some("tink"),
                None,
            )),
            t(
                "eql-essentials-levitate-fading",
                "Levitate fading",
                "You feel as if you are about to fall.",
                Some("Falling"),
                Some("Levitate fading"),
                Some("sosumi"),
                None,
            ),
        ],
    };
    assert(r@ =~~= essentials_fades());
    r
}

fn essentials_social_group() -> (r: TriggerGroup)
    ensures
        r@ == essentials_social(),
{
    let r = TriggerGroup {
        id: String::from_str("eql-essentials-social"),
        name: String::from_str("EQL Essentials / Social"),
        enabled: false,
        triggers: vec![
            t_regex(
                "eql-essentials-group-invite",
                "Group invite",
                r"^([\w]+) invites you to join a group\.$",
                Some("Group invite"),
                Some("Invited to group"),
                Some("glass"),
                None,
            ),
            t_regex(
                "eql-essentials-raid-invite",
                "Raid invite",
                r"^([\w]+) invites you to join a raid\.$",
                Some("Raid invite"),
                Some("Invited to raid"),
                Some("glass"),
                None,
            ),
            t_regex(
                "eql-essentials-linkdead",
                "Group linkdead",
                r"^([\w]+) has gone Linkdead\.$",
                Some("Linkdead"),
                Some("Linkdead"),
                Some("ping"),
                None,
            ),
            t(
                "eql-essentials-out-of-charges",
                "Out of charges",
                "Item is out of charges.",
                Some("Out of charges"),
                Some("Out of charges"),
                Some("tink"),
                None,
            ),
            t(
                "eql-essentials-out-of-ammo",
                "Out of ammo",
                "You have run out of ammo!",
                Some("OUT OF AMMO"),
                Some("Out of ammo"),
                Some("ping"),
                None,
            ),
        ],
    };
    assert(r@ =~~= essentials_social());
    r
}

/// The built-in essentials categories, in order.
pub open spec fn essentials() -> Seq<GroupView> {
    seq![essentials_core(), essentials_combat(), essentials_danger(), essentials_fades(), essentials_social()]
}

/// Built-in always-on categories under `EQL Essentials / …`.
fn essentials_groups() -> (r: Vec<TriggerGroup>)
    ensures
        group_views(r@) == essentials(),
{
    let r = vec![
        essentials_core_group(),
        essentials_combat_group(),
        essentials_danger_group(),
        essentials_fades_group(),
        essentials_social_group(),
    ];
    assert(group_views(r@) =~= essentials());
    r
}

/// Whether a string holds exactly the text `lit`.
fn is_text(s: &String, lit: &str) -> (r: bool)
    ensures
        r == (s@ == lit@),
{
    let a = chars_of(s.as_str());
    let b = chars_of(lit);
    crate::text::chars_eq(a.as_slice(), b.as_slice())
}

/// Whether an optional string is `Some(lit)`.
fn opt_is(o: &Option<String>, lit: &str) -> (r: bool)
    ensures
        r == (o.deep_view() == Some(lit@)),
{
    match o {
        Some(s) => is_text(s, lit),
        None => false,
    }
}

fn text_starts(s: &String, lit: &str) -> (r: bool)
    ensures
        r == starts_with(s@, lit@),
{
    let a = chars_of(s.as_str());
    crate::text::starts_with_chars(a.as_slice(), chars_of(lit).as_slice())
}

fn text_contains(s: &String, lit: &str) -> (r: bool)
    ensures
        r == contains(s@, lit@),
{
    let a = chars_of(s.as_str());
    contains_chars(a.as_slice(), chars_of(lit).as_slice())
}

fn lower_contains(s: &String, lit: &str) -> (r: bool)
    ensures
        r == contains(to_lower(s@), lit@),
{
    let a = chars_of(s.as_str());
    let l = crate::text::to_lower_chars(a.as_slice());
    contains_chars(l.as_slice(), chars_of(lit).as_slice())
}

/// The old flat `EQL Essentials` group (migrated into Core).
pub open spec fn is_legacy_essentials(g: GroupView) -> bool {
    g.id == "eql-essentials"@ || g.name == "EQL Essentials"@
}

pub open spec fn is_essentials_group(g: GroupView) -> bool {
    starts_with(g.id, "eql-essentials"@) || starts_with(g.name, "EQL Essentials"@)
}

pub open spec fn is_core_essentials(g: GroupView) -> bool {
    g.id == "eql-essentials-core"@ || g.name == "EQL Essentials / Core"@
}

/// Categories that should stay armed for gameplay (Social is opt-in).
pub open spec fn is_gameplay_essentials(g: GroupView) -> bool {
    ||| g.id == "eql-essentials-core"@
    ||| g.id == "eql-essentials-combat"@
    ||| g.id == "eql-essentials-danger"@
    ||| g.id == "eql-essentials-fades"@
    ||| g.name == "EQL Essentials / Core"@
    ||| g.name == "EQL Essentials / Combat"@
    ||| g.name == "EQL Essentials / Danger"@
    ||| g.name == "EQL Essentials / Fades"@
}

fn legacy_essentials_exec(g: &TriggerGroup) -> (r: bool)
    ensures
        r == is_legacy_essentials(g@),
{
    is_text(&g.id, "eql-essentials") || is_text(&g.name, "EQL Essentials")
}

fn essentials_group_exec(g: &TriggerGroup) -> (r: bool)
    ensures
        r == is_essentials_group(g@),
{
    text_starts(&g.id, "eql-essentials") || text_starts(&g.name, "EQL Essentials")
}

fn core_essentials_exec(g: &TriggerGroup) -> (r: bool)
    ensures
        r == is_core_essentials(g@),
{
    is_text(&g.id, "eql-essentials-core") || is_text(&g.name, "EQL Essentials / Core")
}

fn gameplay_essentials_exec(g: &TriggerGroup) -> (r: bool)
    ensures
        r == is_gameplay_essentials(g@),
{
    is_text(&g.id, "eql-essentials-core") || is_text(&g.id, "eql-essentials-combat") || is_text(
        &g.id,
        "eql-essentials-danger",
    ) || is_text(&g.id, "eql-essentials-fades") || is_text(&g.name, "EQL Essentials / Core")
        || is_text(&g.name, "EQL Essentials / Combat") || is_text(&g.name, "EQL Essentials / Danger")
        || is_text(&g.name, "EQL Essentials / Fades")
}

/// Non-Core essentials categories are turned off.
pub open spec fn demote_group(g: GroupView) -> (GroupView, nat) {
    if is_essentials_group(g) && !is_legacy_essentials(g) && !is_core_essentials(g) && g.enabled {
        (GroupView { enabled: false, ..g }, 1)
    } else {
        (g, 0)
    }
}

pub open spec fn demote_fn() -> spec_fn(GroupView) -> (GroupView, nat) {
    |g: GroupView| demote_group(g)
}

fn demote_group_exec(g: &TriggerGroup) -> (r: (TriggerGroup, usize))
    ensures
        r.0@ == demote_group(g@).0,
        r.1 as nat == demote_group(g@).1,
{
    let mut out = g.duplicate();
    if essentials_group_exec(g) && !legacy_essentials_exec(g) && !core_essentials_exec(g) && g.enabled {
        out.enabled = false;
        (out, 1)
    } else {
        (out, 0)
    }
}

/// Turn off non-Core essentials categories (opt-in packs).  Returns how many changed.
pub fn demote_optional_essentials(library: &mut TriggerLibrary) -> (r: usize)
    requires
        countable(old(library)@),
    ensures
        final(library)@ == map_group_views(old(library)@, demote_fn()),
        r as nat == group_changes(old(library)@, demote_fn(), old(library)@.len() as int),
{
    map_groups(library, &demote_group_exec, Ghost(demote_fn()))
}

/// The tiny placeholder library from early builds.
pub open spec fn placeholder(gs: Seq<GroupView>) -> bool {
    gs.len() == 0 || (gs.len() == 1 && (gs[0].id == "general"@ || gs[0].name == "General"@))
}

/// Tiny placeholder from early builds — replace with the real starter pack.
pub fn is_placeholder_library(lib: &TriggerLibrary) -> (r: bool)
    ensures
        r == placeholder(lib@),
{
    if lib.groups.len() == 0 {
        return true;
    }
    if lib.groups.len() == 1 {
        let g = &lib.groups[0];
        if is_text(&g.id, "general") || is_text(&g.name, "General") {
            return true;
        }
    }
    false
}

/// Number of groups and of triggers.
pub fn starter_stats(lib: &TriggerLibrary) -> (r: (usize, usize))
    requires
        triggers_upto(lib@, lib@.len() as int) <= usize::MAX,
    ensures
        r.0 == lib@.len(),
        r.1 == triggers_upto(lib@, lib@.len() as int),
{
    let mut total: usize = 0;
    let mut i: usize = 0;
    while i < lib.groups.len()
        invariant
            i <= lib.groups.len(),
            triggers_upto(lib@, lib@.len() as int) <= usize::MAX,
            total == triggers_upto(lib@, i as int),
        decreases lib.groups.len() - i,
    {
        proof {
            lemma_triggers_upto_mono(lib@, i + 1, lib@.len() as int);
            lemma_triggers_upto_le(lib@, i + 1, lib@.len() as int);
        }
        assert(lib@[i as int].triggers.len() == lib.groups@[i as int].triggers@.len());
        total = total + lib.groups[i].triggers.len();
        i += 1;
    }
    (lib.groups.len(), total)
}

proof fn lemma_triggers_upto_le(gs: Seq<GroupView>, m: int, n: int)
    requires
        0 <= m <= n <= gs.len(),
    ensures
        triggers_upto(gs, m) <= triggers_upto(gs, n),
    decreases n - m,
{
    if m < n {
        lemma_triggers_upto_le(gs, m, n - 1);
    }
}

/// The note left on a damage-over-time timer rewritten to your land hit.
pub open spec fn land_note() -> Seq<char> {
    "EQL: match your land hit — shared emotes fire for any caster; ranks OK"@
}

/// A DoT timer whose search is a shared emote (or an old land line) is rewritten to
/// your own land-hit line for the spell, any rank; Odium is left alone.
pub open spec fn dot_patch(t: TriggerView) -> TriggerView {
    let secs = match t.timer_seconds {
        Some(s) => s,
        None => 0,
    };
    if secs == 0 {
        t
    } else {
        match spell_base(t.name) {
            None => t,
            Some(spell) => {
                let desired = you_hit_pattern(spell);
                let is_land = contains(t.search, "You hit"@) && contains(t.search, " by "@);
                if eq_ignore_case(spell, "Odium"@) || t.search == desired || (!is_land
                    && self_attributed(t.search)) {
                    t
                } else {
                    TriggerView {
                        search: desired,
                        use_regex: true,
                        comments: match t.comments {
                            Some(c) => Some(c),
                            None => Some(land_note()),
                        },
                        ..t
                    }
                }
            },
        }
    }
}

/// A patch and whether it changed the trigger.
pub open spec fn counted(t: TriggerView, n: TriggerView) -> (TriggerView, nat) {
    (n, if n != t { 1nat } else { 0nat })
}

pub open spec fn dot_step_fn() -> spec_fn(TriggerView) -> (TriggerView, nat) {
    |t: TriggerView| counted(t, dot_patch(t))
}

/// Damage-over-time groups get `dot_patch` on every trigger.
pub open spec fn dot_group(g: GroupView) -> (GroupView, nat) {
    if contains(to_lower(g.name), "damage over time"@) {
        (
            GroupView { triggers: map_trigger_views(g.triggers, dot_step_fn()), ..g },
            trigger_changes(g.triggers, dot_step_fn(), g.triggers.len() as int),
        )
    } else {
        (g, 0)
    }
}

pub open spec fn dot_group_fn() -> spec_fn(GroupView) -> (GroupView, nat) {
    |g: GroupView| dot_group(g)
}

fn count_change(before: &Trigger, after: Trigger) -> (r: (Trigger, usize))
    ensures
        r.0@ == after@,
        r.1 as nat == counted(before@, after@).1,
{
    let c: usize = if crate::model::same_trigger(before, &after) {
        0
    } else {
        1
    };
    (after, c)
}

fn dot_step_exec(t: &Trigger) -> (r: (Trigger, usize))
    ensures
        r.0@ == dot_step_fn()(t@).0,
        r.1 as nat == dot_step_fn()(t@).1,
{
    let out = t.duplicate();
    let secs = match t.timer_seconds {
        Some(s) => s,
        None => 0,
    };
    if secs == 0 {
        return count_change(t, out);
    }
    let spell = match spell_basename(t.name.as_str()) {
        Some(s) => s,
        None => {
            return count_change(t, out);
        },
    };
    let desired = you_hit_by_spell_pattern(spell.as_str());
    let is_land = text_contains(&t.search, "You hit") && text_contains(&t.search, " by ");
    let sv = chars_of(spell.as_str());
    if crate::text::eq_ignore_case_chars(sv.as_slice(), chars_of("Odium").as_slice())
        || crate::model::same_string(&t.search, &desired) || (!is_land
        && is_self_attributed_search(t.search.as_str())) {
        return count_change(t, out);
    }
    let mut out = out;
    out.search = desired;
    out.use_regex = true;
    if out.comments.is_none() {
        out.comments = Some(String::from_str("EQL: match your land hit — shared emotes fire for any caster; ranks OK"));
    }
    count_change(t, out)
}

proof fn lemma_trigger_changes_bound(ts: Seq<TriggerView>, f: spec_fn(TriggerView) -> (TriggerView, nat))
    requires
        forall|t: TriggerView| #[trigger] f(t).1 <= 4,
    ensures
        trigger_changes(ts, f, ts.len() as int) <= 4 * ts.len(),
{
    lemma_trigger_changes_le(ts, f, ts.len() as int);
}

fn dot_group_exec(g: &TriggerGroup) -> (r: (TriggerGroup, usize))
    requires
        4 * g@.triggers.len() <= usize::MAX,
    ensures
        r.0@ == dot_group(g@).0,
        r.1 as nat == dot_group(g@).1,
{
    if !lower_contains(&g.name, "damage over time") {
        return (g.duplicate(), 0);
    }
    let (ts, c) = map_triggers(&g.triggers, &dot_step_exec, Ghost(dot_step_fn()));
    let out = TriggerGroup { id: g.id.clone(), name: g.name.clone(), enabled: g.enabled, triggers: ts };
    (out, c)
}

/// Shared DoT emotes fire for any caster; rewrite Damage Over Time timers to your
/// land-hit line so clocks start only for you, tolerating upgrade ranks.  Odium is
/// excluded (cast-gated instead).  Returns how many triggers changed.
pub fn ensure_eql_disease_dot_timers(library: &mut TriggerLibrary) -> (r: usize)
    requires
        countable(old(library)@),
    ensures
        final(library)@ == map_group_views(old(library)@, dot_group_fn()),
        r as nat == group_changes(old(library)@, dot_group_fn(), old(library)@.len() as int),
{
    proof {
        assert forall|g: GroupView| #[trigger] dot_group_fn()(g).1 <= 4 * (g.triggers.len() + 1) by {
            lemma_trigger_changes_bound(g.triggers, dot_step_fn());
        }
    }
    map_groups(library, &dot_group_exec, Ghost(dot_group_fn()))
}

proof fn lemma_trigger_changes_zero(ts: Seq<TriggerView>, f: spec_fn(TriggerView) -> (TriggerView, nat), n: int)
    requires
        0 <= n <= ts.len(),
        forall|i: int| 0 <= i < ts.len() ==> (#[trigger] f(ts[i])).1 == 0,
    ensures
        trigger_changes(ts, f, n) == 0,
    decreases n,
{
    if n > 0 {
        lemma_trigger_changes_zero(ts, f, n - 1);
        assert(f(ts[n - 1]).1 == 0);
    }
}

/// A trigger step that changes nothing on its own output, applied to every trigger.
proof fn lemma_triggers_settled(ts: Seq<TriggerView>, f: spec_fn(TriggerView) -> (TriggerView, nat))
    requires
        forall|i: int| 0 <= i < ts.len() ==> #[trigger] f(f(ts[i]).0) == (f(ts[i]).0, 0nat),
    ensures
        map_trigger_views(map_trigger_views(ts, f), f) == map_trigger_views(ts, f),
        trigger_changes(map_trigger_views(ts, f), f, ts.len() as int) == 0,
{
    let m = map_trigger_views(ts, f);
    assert forall|i: int| 0 <= i < m.len() implies (#[trigger] f(m[i])).1 == 0 by {
        assert(f(f(ts[i]).0) == (f(ts[i]).0, 0nat));
    }
    lemma_trigger_changes_zero(m, f, ts.len() as int);
    assert forall|i: int| 0 <= i < m.len() implies #[trigger] map_trigger_views(m, f)[i] == m[i] by {
        assert(f(f(ts[i]).0) == (f(ts[i]).0, 0nat));
    }
    assert(map_trigger_views(m, f) =~= m);
}

proof fn lemma_group_changes_zero(gs: Seq<GroupView>, f: spec_fn(GroupView) -> (GroupView, nat), n: int)
    requires
        0 <= n <= gs.len(),
        forall|i: int| 0 <= i < gs.len() ==> (#[trigger] f(gs[i])).1 == 0,
    ensures
        group_changes(gs, f, n) == 0,
    decreases n,
{
    if n > 0 {
        lemma_group_changes_zero(gs, f, n - 1);
        assert(f(gs[n - 1]).1 == 0);
    }
}

/// A group step that changes nothing on its own output, applied to every group.
proof fn lemma_groups_settled(gs: Seq<GroupView>, f: spec_fn(GroupView) -> (GroupView, nat))
    requires
        forall|i: int| 0 <= i < gs.len() ==> #[trigger] f(f(gs[i]).0) == (f(gs[i]).0, 0nat),
    ensures
        map_group_views(map_group_views(gs, f), f) == map_group_views(gs, f),
        group_changes(map_group_views(gs, f), f, gs.len() as int) == 0,
{
    let m = map_group_views(gs, f);
    assert forall|i: int| 0 <= i < m.len() implies (#[trigger] f(m[i])).1 == 0 by {
        assert(f(f(gs[i]).0) == (f(gs[i]).0, 0nat));
    }
    lemma_group_changes_zero(m, f, gs.len() as int);
    assert forall|i: int| 0 <= i < m.len() implies #[trigger] map_group_views(m, f)[i] == m[i] by {
        assert(f(f(gs[i]).0) == (f(gs[i]).0, 0nat));
    }
    assert(map_group_views(m, f) =~= m);
}

proof fn lemma_dot_patch_settled(t: TriggerView)
    ensures
        dot_patch(dot_patch(t)) == dot_patch(t),
{
}

/// Rewriting damage-over-time timers is idempotent: a second run changes nothing and
/// reports no changes.
pub proof fn law_dot_timers_idempotent(gs: Seq<GroupView>)
    ensures
        map_group_views(map_group_views(gs, dot_group_fn()), dot_group_fn()) == map_group_views(
            gs,
            dot_group_fn(),
        ),
        group_changes(map_group_views(gs, dot_group_fn()), dot_group_fn(), gs.len() as int) == 0,
{
    assert forall|t: TriggerView| #[trigger] dot_step_fn()(dot_step_fn()(t).0) == (
        dot_step_fn()(t).0,
        0nat,
    ) by {
        lemma_dot_patch_settled(t);
    }
    assert forall|i: int| 0 <= i < gs.len() implies #[trigger] dot_group_fn()(dot_group_fn()(gs[i]).0) == (
        dot_group_fn()(gs[i]).0,
        0nat,
    ) by {
        let g = gs[i];
        lemma_triggers_settled(g.triggers, dot_step_fn());
        if contains(to_lower(g.name), "damage over time"@) {
            let g1 = dot_group(g).0;
            assert(dot_group(g1).0 =~~= g1);
        }
    }
    lemma_groups_settled(gs, dot_group_fn());
}

pub open spec fn interrupt_re() -> Seq<char> {
    r"^Your(?: .+)? spell is interrupted\.$"@
}

pub open spec fn interrupt_note() -> Seq<char> {
    "Only your interrupts — classic Your spell is interrupted. and EQL Your <Spell> spell is interrupted."@
}

pub open spec fn fizzle_re() -> Seq<char> {
    r"^Your(?: .+)? spell fizzles!$"@
}

pub open spec fn fizzle_note() -> Seq<char> {
    "Only your fizzles — classic Your spell fizzles! and EQL Your <Spell> spell fizzles!"@
}

pub open spec fn loh_note() -> Seq<char> {
    "EQL base is 15m at early ranks (not classic 72m). Overlay also syncs from “You can use the ability … again in …” when you press early."@
}

pub open spec fn mend_note() -> Seq<char> {
    "EQL base is 1m 30s (not classic 6m). Overlay also syncs from “You can use the ability … again in …” when you press early."@
}

/// The interrupt essential: only your interrupts, spoken and shown, no chime.
pub open spec fn interrupt_fix(t: TriggerView) -> TriggerView {
    if t.id == "eql-essentials-interrupted"@ {
        let t1 = if t.search == "spell is interrupted"@ {
            TriggerView { search: interrupt_re(), use_regex: true, comments: Some(interrupt_note()), ..t }
        } else {
            t
        };
        TriggerView {
            speak: Some("Interrupted"@),
            display_text: Some("Interrupted"@),
            sound: None,
            ..t1
        }
    } else {
        t
    }
}

/// The fizzle essential: only your fizzles.
pub open spec fn fizzle_fix(t: TriggerView) -> TriggerView {
    if t.id == "eql-essentials-fizzle"@ && t.search == "spell fizzles!"@ {
        TriggerView { search: fizzle_re(), use_regex: true, comments: Some(fizzle_note()), ..t }
    } else {
        t
    }
}

pub open spec fn is_loh(t: TriggerView) -> bool {
    t.id == "80a4144d8e7f-1"@ || t.name == "Lay Hands Cooldown"@ || t.timer_name == Some(
        "Lay Hands Cooldown"@,
    )
}

/// Lay on Hands: 15 minutes on Legends, started by your heal line.
pub open spec fn loh_fix(t: TriggerView) -> TriggerView {
    if is_loh(t) {
        TriggerView {
            search: "^You healed .+ by Lay on Hands"@,
            use_regex: true,
            display_text: Some("Lay on Hands"@),
            timer_seconds: Some(900),
            timer_name: Some("Lay on Hands"@),
            early_end: Seq::empty(),
            speak: match t.speak {
                Some(x) => if is_blank(x) {
                    Some("Lay on Hands"@)
                } else {
                    Some(x)
                },
                None => Some("Lay on Hands"@),
            },
            comments: Some(loh_note()),
            ..t
        }
    } else {
        t
    }
}

pub open spec fn is_mend(t: TriggerView) -> bool {
    t.id == "24fc739023d9-1"@ || t.name == "Mend Cooldown"@
}

/// Mend: 90 seconds on Legends.
pub open spec fn mend_fix(t: TriggerView) -> TriggerView {
    if is_mend(t) {
        TriggerView {
            timer_seconds: Some(90),
            timer_name: Some("Mend"@),
            comments: Some(mend_note()),
            ..t
        }
    } else {
        t
    }
}

/// The four ability fixes in turn, counting each one that changed something.
pub open spec fn ability_step(t: TriggerView) -> (TriggerView, nat) {
    let t1 = interrupt_fix(t);
    let t2 = fizzle_fix(t1);
    let t3 = loh_fix(t2);
    let t4 = mend_fix(t3);
    (t4, counted(t, t1).1 + counted(t1, t2).1 + counted(t2, t3).1 + counted(t3, t4).1)
}

pub open spec fn ability_step_fn() -> spec_fn(TriggerView) -> (TriggerView, nat) {
    |t: TriggerView| ability_step(t)
}

pub open spec fn ability_group_fn() -> spec_fn(GroupView) -> (GroupView, nat) {
    |g: GroupView|
        (
            GroupView { triggers: map_trigger_views(g.triggers, ability_step_fn()), ..g },
            trigger_changes(g.triggers, ability_step_fn(), g.triggers.len() as int),
        )
}

fn interrupt_fix_exec(t: Trigger) -> (r: Trigger)
    ensures
        r@ == interrupt_fix(t@),
{
    let mut t = t;
    if is_text(&t.id, "eql-essentials-interrupted") {
        if is_text(&t.search, "spell is interrupted") {
            t.search = String::from_str(r"^Your(?: .+)? spell is interrupted\.$");
            t.use_regex = true;
            t.comments = Some(String::from_str("Only your interrupts — classic Your spell is interrupted. and EQL Your <Spell> spell is interrupted."));
        }
        t.speak = Some(String::from_str("Interrupted"));
        t.display_text = Some(String::from_str("Interrupted"));
        t.sound = None;
    }
    t
}

fn fizzle_fix_exec(t: Trigger) -> (r: Trigger)
    ensures
        r@ == fizzle_fix(t@),
{
    let mut t = t;
    if is_text(&t.id, "eql-essentials-fizzle") && is_text(&t.search, "spell fizzles!") {
        t.search = String::from_str(r"^Your(?: .+)? spell fizzles!$");
        t.use_regex = true;
        t.comments = Some(String::from_str("Only your fizzles — classic Your spell fizzles! and EQL Your <Spell> spell fizzles!"));
    }
    t
}

fn loh_fix_exec(t: Trigger) -> (r: Trigger)
    ensures
        r@ == loh_fix(t@),
{
    let mut t = t;
    if is_text(&t.id, "80a4144d8e7f-1") || is_text(&t.name, "Lay Hands Cooldown") || opt_is(
        &t.timer_name,
        "Lay Hands Cooldown",
    ) {
        t.search = String::from_str("^You healed .+ by Lay on Hands");
        t.use_regex = true;
        t.display_text = Some(String::from_str("Lay on Hands"));
        t.timer_seconds = Some(900);
        t.timer_name = Some(String::from_str("Lay on Hands"));
        t.early_end = Vec::new();
        let blank = match &t.speak {
            Some(x) => crate::text::is_blank_chars(chars_of(x.as_str()).as_slice()),
            None => true,
        };
        if blank {
            t.speak = Some(String::from_str("Lay on Hands"));
        }
        t.comments = Some(String::from_str("EQL base is 15m at early ranks (not classic 72m). Overlay also syncs from “You can use the ability … again in …” when you press early."));
        assert(t@.early_end =~= Seq::<Seq<char>>::empty());
    }
    t
}

fn mend_fix_exec(t: Trigger) -> (r: Trigger)
    ensures
        r@ == mend_fix(t@),
{
    let mut t = t;
    if is_text(&t.id, "24fc739023d9-1") || is_text(&t.name, "Mend Cooldown") {
        t.timer_seconds = Some(90);
        t.timer_name = Some(String::from_str("Mend"));
        t.comments = Some(String::from_str("EQL base is 1m 30s (not classic 6m). Overlay also syncs from “You can use the ability … again in …” when you press early."));
    }
    t
}

fn ability_step_exec(t: &Trigger) -> (r: (Trigger, usize))
    ensures
        r.0@ == ability_step_fn()(t@).0,
        r.1 as nat == ability_step_fn()(t@).1,
{
    let (t1, c1) = count_change(t, interrupt_fix_exec(t.duplicate()));
    let (t2, c2) = count_change(&t1, fizzle_fix_exec(t1.duplicate()));
    let (t3, c3) = count_change(&t2, loh_fix_exec(t2.duplicate()));
    let (t4, c4) = count_change(&t3, mend_fix_exec(t3.duplicate()));
    (t4, c1 + c2 + c3 + c4)
}

fn ability_group_exec(g: &TriggerGroup) -> (r: (TriggerGroup, usize))
    requires
        4 * g@.triggers.len() <= usize::MAX,
    ensures
        r.0@ == ability_group_fn()(g@).0,
        r.1 as nat == ability_group_fn()(g@).1,
{
    let (ts, c) = map_triggers(&g.triggers, &ability_step_exec, Ghost(ability_step_fn()));
    (TriggerGroup { id: g.id.clone(), name: g.name.clone(), enabled: g.enabled, triggers: ts }, c)
}

/// Refresh EQL-specific ability timer defaults that classic GINA packs get wrong
/// (interrupt/fizzle essentials, Lay on Hands, Mend).  Returns how many fixes changed
/// something.
pub fn ensure_eql_ability_timers(library: &mut TriggerLibrary) -> (r: usize)
    requires
        countable(old(library)@),
    ensures
        final(library)@ == map_group_views(old(library)@, ability_group_fn()),
        r as nat == group_changes(old(library)@, ability_group_fn(), old(library)@.len() as int),
{
    proof {
        assert forall|g: GroupView| #[trigger] ability_group_fn()(g).1 <= 4 * (g.triggers.len() + 1) by {
            lemma_trigger_changes_bound(g.triggers, ability_step_fn());
        }
    }
    map_groups(library, &ability_group_exec, Ghost(ability_group_fn()))
}

/// How many of the four ability fixes select a trigger.
/// A trigger the ability fixes leave settled after one run: not the interrupt essential
/// that is also a Lay on Hands timer, and not a Mend timer that is Lay on Hands by id or
/// name (on those two fixes undo each other's fields).
pub open spec fn ability_settles(t: TriggerView) -> bool {
    &&& !(t.id == "eql-essentials-interrupted"@ && is_loh(t))
    &&& !((t.id == "80a4144d8e7f-1"@ || t.name == "Lay Hands Cooldown"@) && is_mend(t))
}

/// Every trigger of the library is one the ability fixes leave settled.
pub open spec fn single_ability_fix(gs: Seq<GroupView>) -> bool {
    forall|i: int, j: int|
        0 <= i < gs.len() && 0 <= j < gs[i].triggers.len() ==> #[trigger] ability_settles(gs[i].triggers[j])
}

proof fn lemma_ability_settled(t: TriggerView)
    requires
        ability_settles(t),
    ensures
        ability_step(ability_step(t).0) == (ability_step(t).0, 0nat),
{
    reveal_strlit("Lay on Hands");
    reveal_strlit("Lay Hands Cooldown");
    reveal_strlit("Mend");
    reveal_strlit("spell is interrupted");
    reveal_strlit("spell fizzles!");
    reveal_strlit(r"^Your(?: .+)? spell is interrupted\.$");
    reveal_strlit(r"^Your(?: .+)? spell fizzles!$");
    reveal_strlit("^You healed .+ by Lay on Hands");
    assert("Mend"@.len() == 4 && "Lay Hands Cooldown"@.len() == 18 && "Lay on Hands"@.len() == 12);
    assert("spell is interrupted"@.len() == 20 && interrupt_re().len() == 37);
    assert("spell fizzles!"@.len() == 14 && fizzle_re().len() == 29);
    assert("^You healed .+ by Lay on Hands"@.len() == 30 && "^You healed .+ by Lay on Hands"@[0] != "spell fizzles!"@[0]);
    crate::text::lemma_not_blank("Lay on Hands"@);
    let s1 = interrupt_fix(t);
    let s2 = fizzle_fix(s1);
    let s3 = loh_fix(s2);
    let t4 = mend_fix(s3);
    assert(t4 == ability_step(t).0);
    assert(s1.id == t.id && s1.name == t.name && s1.timer_name == t.timer_name);
    assert(s2.id == t.id && s2.name == t.name && s2.timer_name == t.timer_name);
    assert(s3.id == t.id && s3.name == t.name);
    assert(t4.id == t.id && t4.name == t.name);
    // The interrupt essential: its search no longer reads the classic line.
    assert(interrupt_fix(t4) == t4);
    // The fizzle essential: its search no longer reads the classic line.
    if t4.id == "eql-essentials-fizzle"@ {
        assert(s2.search != "spell fizzles!"@);
        assert(t4.search != "spell fizzles!"@);
    }
    assert(fizzle_fix(t4) == t4);
    if is_loh(t4) {
        assert(t4.id == "80a4144d8e7f-1"@ || t4.name == "Lay Hands Cooldown"@);
        assert(!is_mend(t));
        assert(t4 == s3);
        assert(loh_fix(t4) =~~= t4);
    }
    assert(loh_fix(t4) == t4);
    if is_mend(t4) {
        assert(mend_fix(t4) =~~= t4);
    }
    assert(mend_fix(t4) == t4);
}

/// The ability fixes are idempotent where every trigger settles (see `ability_settles`):
/// a second run changes nothing and reports no changes.
pub proof fn law_ability_timers_idempotent(gs: Seq<GroupView>)
    requires
        single_ability_fix(gs),
    ensures
        map_group_views(map_group_views(gs, ability_group_fn()), ability_group_fn())
            == map_group_views(gs, ability_group_fn()),
        group_changes(map_group_views(gs, ability_group_fn()), ability_group_fn(), gs.len() as int)
            == 0,
{
    assert forall|i: int| 0 <= i < gs.len() implies #[trigger] ability_group_fn()(
        ability_group_fn()(gs[i]).0,
    ) == (ability_group_fn()(gs[i]).0, 0nat) by {
        let g = gs[i];
        assert forall|j: int| 0 <= j < g.triggers.len() implies #[trigger] ability_step_fn()(
            ability_step_fn()(g.triggers[j]).0,
        ) == (ability_step_fn()(g.triggers[j]).0, 0nat) by {
            assert(ability_settles(gs[i].triggers[j]));
            lemma_ability_settled(g.triggers[j]);
        }
        lemma_triggers_settled(g.triggers, ability_step_fn());
        let g1 = ability_group_fn()(g).0;
        assert(ability_group_fn()(g1).0 =~~= g1);
    }
    lemma_groups_settled(gs, ability_group_fn());
}

/// Index of the first group from `from` on that satisfies `p`.
pub open spec fn find_group(gs: Seq<GroupView>, p: spec_fn(GroupView) -> bool, from: int) -> Option<int>
    decreases gs.len() - from,
{
    if from < 0 || from >= gs.len() {
        None
    } else if p(gs[from]) {
        Some(from)
    } else {
        find_group(gs, p, from + 1)
    }
}

/// Index of the first trigger from `from` on that satisfies `p`.
pub open spec fn find_trigger(ts: Seq<TriggerView>, p: spec_fn(TriggerView) -> bool, from: int) -> Option<int>
    decreases ts.len() - from,
{
    if from < 0 || from >= ts.len() {
        None
    } else if p(ts[from]) {
        Some(from)
    } else {
        find_trigger(ts, p, from + 1)
    }
}

/// The group found from `from` lies in range and satisfies `p`.
pub proof fn lemma_find_group(gs: Seq<GroupView>, p: spec_fn(GroupView) -> bool, from: int)
    requires
        0 <= from,
    ensures
        find_group(gs, p, from) matches Some(i) ==> from <= i < gs.len() && p(gs[i]),
    decreases gs.len() - from,
{
    if from < gs.len() && !p(gs[from]) {
        lemma_find_group(gs, p, from + 1);
    }
}

proof fn lemma_find_trigger(ts: Seq<TriggerView>, p: spec_fn(TriggerView) -> bool, from: int)
    requires
        0 <= from,
    ensures
        find_trigger(ts, p, from) matches Some(i) ==> from <= i < ts.len() && p(ts[i]),
        find_trigger(ts, p, from) is None ==> forall|k: int| from <= k < ts.len() ==> !p(#[trigger] ts[k]),
    decreases ts.len() - from,
{
    if from < ts.len() && !p(ts[from]) {
        lemma_find_trigger(ts, p, from + 1);
    }
}

/// The first group satisfying the exec predicate `f` (which decides `p`).
pub(crate) fn position_group<F: Fn(&TriggerGroup) -> bool>(
    groups: &Vec<TriggerGroup>,
    f: &F,
    Ghost(p): Ghost<spec_fn(GroupView) -> bool>,
) -> (r: Option<usize>)
    requires
        forall|g: &TriggerGroup| #[trigger] f.requires((g,)),
        forall|g: &TriggerGroup, b: bool| #[trigger] f.ensures((g,), b) ==> b == p(g@),
    ensures
        r matches Some(i) ==> find_group(group_views(groups@), p, 0) == Some(i as int),
        r is None ==> find_group(group_views(groups@), p, 0) is None,
{
    let ghost gs = group_views(groups@);
    let mut i: usize = 0;
    while i < groups.len()
        invariant
            i <= groups.len(),
            gs == group_views(groups@),
            forall|g: &TriggerGroup| #[trigger] f.requires((g,)),
            forall|g: &TriggerGroup, b: bool| #[trigger] f.ensures((g,), b) ==> b == p(g@),
            find_group(gs, p, 0) == find_group(gs, p, i as int),
        decreases groups.len() - i,
    {
        assert(groups@[i as int]@ == gs[i as int]);
        if f(&groups[i]) {
            return Some(i);
        }
        i += 1;
    }
    None
}

/// The first trigger satisfying the exec predicate `f` (which decides `p`).
fn position_trigger<F: Fn(&Trigger) -> bool>(
    ts: &Vec<Trigger>,
    f: &F,
    Ghost(p): Ghost<spec_fn(TriggerView) -> bool>,
) -> (r: Option<usize>)
    requires
        forall|t: &Trigger| #[trigger] f.requires((t,)),
        forall|t: &Trigger, b: bool| #[trigger] f.ensures((t,), b) ==> b == p(t@),
    ensures
        r matches Some(i) ==> find_trigger(trigger_views(ts@), p, 0) == Some(i as int),
        r is None ==> find_trigger(trigger_views(ts@), p, 0) is None,
{
    let ghost tv = trigger_views(ts@);
    let mut i: usize = 0;
    while i < ts.len()
        invariant
            i <= ts.len(),
            tv == trigger_views(ts@),
            forall|t: &Trigger| #[trigger] f.requires((t,)),
            forall|t: &Trigger, b: bool| #[trigger] f.ensures((t,), b) ==> b == p(t@),
            find_trigger(tv, p, 0) == find_trigger(tv, p, i as int),
        decreases ts.len() - i,
    {
        assert(ts@[i as int]@ == tv[i as int]);
        if f(&ts[i]) {
            return Some(i);
        }
        i += 1;
    }
    None
}

/// The shaman slow/malo/incapacitate land and resist alerts.
pub open spec fn shaman_warnings() -> Seq<TriggerView> {
    seq![
        plain_regex(
            "eql-shm-slow-landed"@,
            "Slowed"@,
            r"^([\w -'`]+)(?: yawns|'s motions slow as a plague of insects chews at their skin)\.$"@,
            Some("${1} Slowed"@),
            Some("${1} Slowed"@),
            None,
            Some("EQL: yawns is shared with others' Drowsy — engine only fires after your slow cast"@),
        ),
        plain_regex(
            "eql-shm-slow-resisted"@,
            "Slow Resisted"@,
            r"^Your target resisted the (Walking Sleep|.+? Insects) spell\.$"@,
            Some("Slow resisted"@),
            Some("Slow resisted"@),
            None,
            None,
        ),
        plain_regex(
            "eql-shm-malo-landed"@,
            "Maloed"@,
            r"^([\w -'`]+) looks very uncomfortable\.$"@,
            Some("${1} Maloed"@),
            Some("${1} Maloed"@),
            None,
            Some("Malo / Malosini / Malise land"@),
        ),
        plain_regex(
            "eql-shm-malo-resisted"@,
            "Malo Resisted"@,
            r"^Your target resisted the Mal(ise|aisement|osi|o|osini) spell\.$"@,
            Some("Malo resisted"@),
            Some("Malo resisted"@),
            None,
            None,
        ),
        plain_regex(
            "eql-shm-incap-landed"@,
            "Incapacitate"@,
            r"^([\w -'`]+) looks frail\.$"@,
            Some("${1} Incapacitated"@),
            Some("${1} Incapacitated"@),
            None,
            Some("EQL: looks frail is shared — engine only fires after your Incapacitate cast"@),
        ),
        plain_regex(
            "eql-shm-incap-resisted"@,
            "Incapacitate Resisted"@,
            r"^Your target resisted the Incapacitate spell\.$"@,
            Some("Incapacitate resisted"@),
            Some("Incapacitate resisted"@),
            None,
            None,
        ),
    ]
}

fn shaman_warning_triggers() -> (r: Vec<Trigger>)
    ensures
        trigger_views(r@) == shaman_warnings(),
{
    let r = vec![
        t_regex(
            "eql-shm-slow-landed",
            "Slowed",
            r"^([\w -'`]+)(?: yawns|'s motions slow as a plague of insects chews at their skin)\.$",
            Some("${1} Slowed"),
            Some("${1} Slowed"),
            None,
            Some("EQL: yawns is shared with others' Drowsy — engine only fires after your slow cast"),
        ),
        t_regex(
            "eql-shm-slow-resisted",
            "Slow Resisted",
            r"^Your target resisted the (Walking Sleep|.+? Insects) spell\.$",
            Some("Slow resisted"),
            Some("Slow resisted"),
            None,
            None,
        ),
        t_regex(
            "eql-shm-malo-landed",
            "Maloed",
            r"^([\w -'`]+) looks very uncomfortable\.$",
            Some("${1} Maloed"),
            Some("${1} Maloed"),
            None,
            Some("Malo / Malosini / Malise land"),
        ),
        t_regex(
            "eql-shm-malo-resisted",
            "Malo Resisted",
            r"^Your target resisted the Mal(ise|aisement|osi|o|osini) spell\.$",
            Some("Malo resisted"),
            Some("Malo resisted"),
            None,
            None,
        ),
        t_regex(
            "eql-shm-incap-landed",
            "Incapacitate",
            r"^([\w -'`]+) looks frail\.$",
            Some("${1} Incapacitated"),
            Some("${1} Incapacitated"),
            None,
            Some("EQL: looks frail is shared — engine only fires after your Incapacitate cast"),
        ),
        t_regex(
            "eql-shm-incap-resisted",
            "Incapacitate Resisted",
            r"^Your target resisted the Incapacitate spell\.$",
            Some("Incapacitate resisted"),
            Some("Incapacitate resisted"),
            None,
            None,
        ),
    ];
    assert(trigger_views(r@) =~~= shaman_warnings());
    r
}

pub open spec fn is_shaman_warnings(g: GroupView) -> bool {
    g.id == "class-b61ac75a50"@ || g.name == "Classes / Shaman / Warnings"@ || contains(
        g.name,
        "Shaman / Warnings"@,
    )
}

pub open spec fn is_shaman_warnings_fn() -> spec_fn(GroupView) -> bool {
    |g: GroupView| is_shaman_warnings(g)
}

fn shaman_warnings_exec(g: &TriggerGroup) -> (r: bool)
    ensures
        r == is_shaman_warnings_fn()(g@),
{
    is_text(&g.id, "class-b61ac75a50") || is_text(&g.name, "Classes / Shaman / Warnings")
        || text_contains(&g.name, "Shaman / Warnings")
}

pub open spec fn id_is(id: Seq<char>) -> spec_fn(TriggerView) -> bool {
    |t: TriggerView| t.id == id
}

/// Where a warning goes: before the matching wore-off alert, else at the end.
pub open spec fn warn_before(f: TriggerView) -> spec_fn(TriggerView) -> bool {
    |t: TriggerView|
        (contains(f.id, "slow"@) && t.id == "837cfbac69da-0"@) || (contains(f.id, "malo"@) && t.id
            == "837cfbac69da-1"@)
}

pub open spec fn warn_slot(ts: Seq<TriggerView>, f: TriggerView) -> int {
    match find_trigger(ts, warn_before(f), 0) {
        Some(k) => k,
        None => ts.len() as int,
    }
}

/// The first `n` warnings added to `ts` where their id is missing, and how many were.
pub open spec fn add_warnings(ts: Seq<TriggerView>, fresh: Seq<TriggerView>, n: int) -> (Seq<TriggerView>, nat)
    decreases n,
{
    if n <= 0 {
        (ts, 0)
    } else {
        let (prev, c) = add_warnings(ts, fresh, n - 1);
        let f = fresh[n - 1];
        if find_trigger(prev, id_is(f.id), 0) is Some {
            (prev, c)
        } else {
            (prev.insert(warn_slot(prev, f), f), c + 1)
        }
    }
}

/// The library with the shaman warnings filled in, and how many were added.
pub open spec fn shaman_warnings_spec(gs: Seq<GroupView>) -> (Seq<GroupView>, nat) {
    match find_group(gs, is_shaman_warnings_fn(), 0) {
        None => (gs, 0),
        Some(i) => {
            let (ts, c) = add_warnings(gs[i].triggers, shaman_warnings(), shaman_warnings().len() as int);
            (gs.update(i, GroupView { triggers: ts, ..gs[i] }), c)
        },
    }
}

fn has_id_exec(ts: &Vec<Trigger>, id: &String) -> (r: bool)
    ensures
        r == (find_trigger(trigger_views(ts@), id_is(id@), 0) is Some),
{
    let mut i: usize = 0;
    let ghost tv = trigger_views(ts@);
    while i < ts.len()
        invariant
            i <= ts.len(),
            tv == trigger_views(ts@),
            find_trigger(tv, id_is(id@), 0) == find_trigger(tv, id_is(id@), i as int),
        decreases ts.len() - i,
    {
        assert(ts@[i as int]@ == tv[i as int]);
        if crate::model::same_string(&ts[i].id, id) {
            return true;
        }
        i += 1;
    }
    false
}

fn warn_slot_exec(ts: &Vec<Trigger>, f: &Trigger) -> (r: usize)
    ensures
        r as int == warn_slot(trigger_views(ts@), f@),
{
    let slow = text_contains(&f.id, "slow");
    let malo = text_contains(&f.id, "malo");
    let mut i: usize = 0;
    let ghost tv = trigger_views(ts@);
    while i < ts.len()
        invariant
            i <= ts.len(),
            tv == trigger_views(ts@),
            slow == contains(f@.id, "slow"@),
            malo == contains(f@.id, "malo"@),
            find_trigger(tv, warn_before(f@), 0) == find_trigger(tv, warn_before(f@), i as int),
        decreases ts.len() - i,
    {
        assert(ts@[i as int]@ == tv[i as int]);
        if (slow && is_text(&ts[i].id, "837cfbac69da-0")) || (malo && is_text(&ts[i].id, "837cfbac69da-1")) {
            return i;
        }
        i += 1;
    }
    ts.len()
}

/// Adds the shaman slow/malo land and resist alerts to the Warnings group where their
/// ids are missing, each before its wore-off alert.  Returns how many were added.
pub fn ensure_shaman_warnings(library: &mut TriggerLibrary) -> (r: usize)
    ensures
        (final(library)@, r as nat) == shaman_warnings_spec(old(library)@),
{
    let ghost gs = library@;
    let fresh = shaman_warning_triggers();
    let idx = match position_group(&library.groups, &shaman_warnings_exec, Ghost(is_shaman_warnings_fn())) {
        Some(i) => i,
        None => {
            return 0;
        },
    };
    proof {
        lemma_find_group(gs, is_shaman_warnings_fn(), 0);
    }
    let mut groups: Vec<TriggerGroup> = Vec::new();
    std::mem::swap(&mut groups, &mut library.groups);
    let mut g = groups[idx].duplicate();
    let ghost g0 = g@;
    assert(g0 == gs[idx as int]);
    let mut changed: usize = 0;
    let mut k: usize = 0;
    while k < fresh.len()
        invariant
            k <= fresh.len(),
            trigger_views(fresh@) == shaman_warnings(),
            g@.id == g0.id && g@.name == g0.name && g@.enabled == g0.enabled,
            (g@.triggers, changed as nat) == add_warnings(g0.triggers, shaman_warnings(), k as int),
            changed <= k,
        decreases fresh.len() - k,
    {
        let f = &fresh[k];
        assert(f@ == shaman_warnings()[k as int]);
        if !has_id_exec(&g.triggers, &f.id) {
            let at = warn_slot_exec(&g.triggers, f);
            proof {
                lemma_find_trigger(g@.triggers, warn_before(f@), 0);
            }
            let ghost before = g@.triggers;
            g.triggers.insert(at, f.duplicate());
            assert(g@.triggers =~= before.insert(at as int, f@));
            changed = changed + 1;
        }
        k += 1;
    }
    assert(g@ =~~= GroupView { triggers: g@.triggers, ..gs[idx as int] });
    groups.set(idx, g);
    assert(group_views(groups@) =~= gs.update(idx as int, GroupView {
        triggers: add_warnings(g0.triggers, shaman_warnings(), shaman_warnings().len() as int).0,
        ..gs[idx as int]
    }));
    library.groups = groups;
    changed
}

/// The Spirit of the Puma self-buff timer.
pub open spec fn puma() -> TriggerView {
    timed_regex(
        "eql-shm-spirit-of-the-puma"@,
        "Spirit of the Puma"@,
        r"^You begin to snarl as your features become feline\.$"@,
        None,
        Some("Puma"@),
        None,
        85,
        "Spirit of the Puma"@,
        seq![
            r"^The spirit of the puma departs\.$"@,
            r"^You have been slain by (?:[^!]+)\!$"@,
            r"^clearbuffs? is not online at this time\.$"@,
        ],
        Some("EQL: ~85s self proc buff (not wiki 60s)"@),
    )
}

fn shaman_puma_trigger() -> (r: Trigger)
    ensures
        r@ == puma(),
{
    let r = t_timer_regex(
        "eql-shm-spirit-of-the-puma",
        "Spirit of the Puma",
        r"^You begin to snarl as your features become feline\.$",
        None,
        Some("Puma"),
        None,
        85,
        "Spirit of the Puma",
        vec![
            r"^The spirit of the puma departs\.$",
            r"^You have been slain by (?:[^!]+)\!$",
            r"^clearbuffs? is not online at this time\.$",
        ],
        Some("EQL: ~85s self proc buff (not wiki 60s)"),
    );
    assert(r@ =~~= puma());
    r
}

pub open spec fn is_shaman_buffs_fn() -> spec_fn(GroupView) -> bool {
    |g: GroupView|
        g.id == "class-68ef1f9bea"@ || g.name == "Classes / Shaman / Buffs / Self"@ || contains(
            g.name,
            "Shaman / Buffs / Self"@,
        )
}

fn shaman_buffs_exec(g: &TriggerGroup) -> (r: bool)
    ensures
        r == is_shaman_buffs_fn()(g@),
{
    is_text(&g.id, "class-68ef1f9bea") || is_text(&g.name, "Classes / Shaman / Buffs / Self")
        || text_contains(&g.name, "Shaman / Buffs / Self")
}

pub open spec fn is_puma_fn() -> spec_fn(TriggerView) -> bool {
    |t: TriggerView| t.id == puma().id || t.name == puma().name
}

pub open spec fn is_cheetah_fn() -> spec_fn(TriggerView) -> bool {
    |t: TriggerView| t.name == "Spirit of Cheetah"@
}

/// The library with Spirit of the Puma added after Spirit of Cheetah (or at the end)
/// of the shaman self-buff group, unless it is there; and whether it was added.
pub open spec fn shaman_buffs_spec(gs: Seq<GroupView>) -> (Seq<GroupView>, nat) {
    match find_group(gs, is_shaman_buffs_fn(), 0) {
        None => (gs, 0),
        Some(i) => {
            let ts = gs[i].triggers;
            if find_trigger(ts, is_puma_fn(), 0) is Some {
                (gs, 0)
            } else {
                let at = match find_trigger(ts, is_cheetah_fn(), 0) {
                    Some(k) => k + 1,
                    None => ts.len() as int,
                };
                (gs.update(i, GroupView { triggers: ts.insert(at, puma()), ..gs[i] }), 1)
            }
        },
    }
}

fn puma_exec(t: &Trigger) -> (r: bool)
    ensures
        r == is_puma_fn()(t@),
{
    is_text(&t.id, "eql-shm-spirit-of-the-puma") || is_text(&t.name, "Spirit of the Puma")
}

fn cheetah_exec(t: &Trigger) -> (r: bool)
    ensures
        r == is_cheetah_fn()(t@),
{
    is_text(&t.name, "Spirit of Cheetah")
}

/// Ensures the Spirit of the Puma self-buff timer exists in Shaman Buffs / Self.
/// Returns 1 when it was added, else 0.
pub fn ensure_shaman_buffs(library: &mut TriggerLibrary) -> (r: usize)
    ensures
        (final(library)@, r as nat) == shaman_buffs_spec(old(library)@),
{
    let ghost gs = library@;
    let idx = match position_group(&library.groups, &shaman_buffs_exec, Ghost(is_shaman_buffs_fn())) {
        Some(i) => i,
        None => {
            return 0;
        },
    };
    proof {
        lemma_find_group(gs, is_shaman_buffs_fn(), 0);
        lemma_find_trigger(gs[idx as int].triggers, is_cheetah_fn(), 0);
    }
    assert(library.groups@[idx as int]@ == gs[idx as int]);
    assert(trigger_views(library.groups@[idx as int].triggers@) == gs[idx as int].triggers);
    if position_trigger(&library.groups[idx].triggers, &puma_exec, Ghost(is_puma_fn())).is_some() {
        return 0;
    }
    let n = library.groups[idx].triggers.len();
    let at = match position_trigger(&library.groups[idx].triggers, &cheetah_exec, Ghost(is_cheetah_fn())) {
        Some(k) => {
            assert(k < n);
            k + 1
        },
        None => n,
    };
    let mut groups: Vec<TriggerGroup> = Vec::new();
    std::mem::swap(&mut groups, &mut library.groups);
    let mut g = groups[idx].duplicate();
    let ghost before = g@.triggers;
    g.triggers.insert(at, shaman_puma_trigger());
    assert(g@.triggers =~= before.insert(at as int, puma()));
    groups.set(idx, g);
    assert(group_views(groups@) =~= shaman_buffs_spec(gs).0);
    library.groups = groups;
    1
}

proof fn lemma_find_trigger_some(ts: Seq<TriggerView>, p: spec_fn(TriggerView) -> bool, k: int)
    requires
        0 <= k < ts.len(),
        p(ts[k]),
    ensures
        find_trigger(ts, p, 0) is Some,
{
    lemma_find_trigger(ts, p, 0);
}

proof fn lemma_find_group_update(
    gs: Seq<GroupView>,
    p: spec_fn(GroupView) -> bool,
    from: int,
    i: int,
    g: GroupView,
)
    requires
        0 <= from <= i < gs.len(),
        find_group(gs, p, from) == Some(i),
        p(g),
    ensures
        find_group(gs.update(i, g), p, from) == Some(i),
    decreases i - from,
{
    if from < i {
        lemma_find_group_update(gs, p, from + 1, i, g);
    }
}

/// Every warning id is present after `add_warnings`, and what was there stays.
proof fn lemma_add_warnings_has(ts: Seq<TriggerView>, fresh: Seq<TriggerView>, n: int)
    requires
        0 <= n <= fresh.len(),
    ensures
        forall|k: int| 0 <= k < n ==> (find_trigger(add_warnings(ts, fresh, n).0, id_is(#[trigger] fresh[k].id), 0) is Some),
        forall|q: spec_fn(TriggerView) -> bool| find_trigger(ts, q, 0) is Some ==> (#[trigger] find_trigger(add_warnings(ts, fresh, n).0, q, 0)) is Some,
    decreases n,
{
    if n > 0 {
        lemma_add_warnings_has(ts, fresh, n - 1);
        let prev = add_warnings(ts, fresh, n - 1).0;
        let f = fresh[n - 1];
        if find_trigger(prev, id_is(f.id), 0) is None {
            lemma_find_trigger(prev, warn_before(f), 0);
            let at = warn_slot(prev, f);
            let next = prev.insert(at, f);
            assert forall|q: spec_fn(TriggerView) -> bool| find_trigger(prev, q, 0) is Some implies (#[trigger] find_trigger(next, q, 0)) is Some by {
                lemma_find_trigger(prev, q, 0);
                let j = find_trigger(prev, q, 0)->0;
                if j < at {
                    assert(next[j] == prev[j]);
                    lemma_find_trigger_some(next, q, j);
                } else {
                    assert(next[j + 1] == prev[j]);
                    lemma_find_trigger_some(next, q, j + 1);
                }
            }
            assert(next[at] == f);
            lemma_find_trigger_some(next, id_is(f.id), at);
        }
    }
}

proof fn lemma_add_warnings_settled(ts: Seq<TriggerView>, fresh: Seq<TriggerView>, n: int)
    requires
        0 <= n <= fresh.len(),
        forall|k: int| 0 <= k < fresh.len() ==> (find_trigger(ts, id_is(#[trigger] fresh[k].id), 0) is Some),
    ensures
        add_warnings(ts, fresh, n) == (ts, 0nat),
    decreases n,
{
    if n > 0 {
        lemma_add_warnings_settled(ts, fresh, n - 1);
    }
}

/// Filling in the shaman warnings is idempotent: a second run adds nothing.
pub proof fn law_shaman_warnings_idempotent(gs: Seq<GroupView>)
    ensures
        shaman_warnings_spec(shaman_warnings_spec(gs).0) == (shaman_warnings_spec(gs).0, 0nat),
{
    match find_group(gs, is_shaman_warnings_fn(), 0) {
        None => {},
        Some(i) => {
            lemma_find_group(gs, is_shaman_warnings_fn(), 0);
            let fresh = shaman_warnings();
            let ts = add_warnings(gs[i].triggers, fresh, fresh.len() as int).0;
            let g1 = GroupView { triggers: ts, ..gs[i] };
            lemma_find_group_update(gs, is_shaman_warnings_fn(), 0, i, g1);
            lemma_add_warnings_has(gs[i].triggers, fresh, fresh.len() as int);
            lemma_add_warnings_settled(ts, fresh, fresh.len() as int);
            assert(gs.update(i, g1)[i] == g1);
            assert(gs.update(i, g1).update(i, GroupView { triggers: ts, ..g1 }) =~= gs.update(i, g1));
        },
    }
}

/// Adding Spirit of the Puma is idempotent: a second run adds nothing.
pub proof fn law_shaman_buffs_idempotent(gs: Seq<GroupView>)
    ensures
        shaman_buffs_spec(shaman_buffs_spec(gs).0) == (shaman_buffs_spec(gs).0, 0nat),
{
    match find_group(gs, is_shaman_buffs_fn(), 0) {
        None => {},
        Some(i) => {
            lemma_find_group(gs, is_shaman_buffs_fn(), 0);
            let ts = gs[i].triggers;
            if find_trigger(ts, is_puma_fn(), 0) is None {
                lemma_find_trigger(ts, is_cheetah_fn(), 0);
                let at = match find_trigger(ts, is_cheetah_fn(), 0) {
                    Some(k) => k + 1,
                    None => ts.len() as int,
                };
                let g1 = GroupView { triggers: ts.insert(at, puma()), ..gs[i] };
                lemma_find_group_update(gs, is_shaman_buffs_fn(), 0, i, g1);
                assert(g1.triggers[at] == puma());
                lemma_find_trigger_some(g1.triggers, is_puma_fn(), at);
                assert(gs.update(i, g1)[i] == g1);
            }
        },
    }
}

/// The shaman DoT category.
pub open spec fn shaman_dot_group_name() -> Seq<char> {
    "Classes / Shaman / Damage Over Time"@
}

pub open spec fn is_shaman_dots_fn() -> spec_fn(GroupView) -> bool {
    |g: GroupView| g.name == shaman_dot_group_name() || eq_ignore_case(g.name, shaman_dot_group_name())
}

fn shaman_dots_exec(g: &TriggerGroup) -> (r: bool)
    ensures
        r == is_shaman_dots_fn()(g@),
{
    let n = chars_of(g.name.as_str());
    let want = chars_of("Classes / Shaman / Damage Over Time");
    crate::text::chars_eq(n.as_slice(), want.as_slice()) || crate::text::eq_ignore_case_chars(
        n.as_slice(),
        want.as_slice(),
    )
}

/// The trigger's spell base name is `want`, ignoring ASCII case.
pub open spec fn basename_is(name: Seq<char>, want: Seq<char>) -> bool {
    spell_base(name) matches Some(b) && eq_ignore_case(b, want)
}

fn spell_basename_eq(trigger_name: &str, want: &str) -> (r: bool)
    ensures
        r == basename_is(trigger_name@, want@),
{
    match spell_basename(trigger_name) {
        Some(b) => crate::text::eq_ignore_case_chars(chars_of(b.as_str()).as_slice(), chars_of(want).as_slice()),
        None => false,
    }
}

/// The shared Odium land emote.
pub open spec fn odium_land() -> Seq<char> {
    r"^([\w -'`]+) staggers under a dark curse\.$"@
}

fn odium_land_pattern() -> (r: String)
    ensures
        r@ == odium_land(),
{
    String::from_str(r"^([\w -'`]+) staggers under a dark curse\.$")
}

pub open spec fn odium_note() -> Seq<char> {
    "EQL: dark curse emote is shared — engine only fires after your Odium cast"@
}

/// Odium: the shared curse emote (cast-gated), spoken; Plague: spoken as plagued.
pub open spec fn shaman_dot_patch(t: TriggerView) -> TriggerView {
    if t.id == "eql-shaman-odium"@ || basename_is(t.name, "Odium"@) {
        TriggerView {
            search: odium_land(),
            use_regex: true,
            display_text: Some("${1} Odium"@),
            speak: Some("${1} Odium"@),
            tts_enabled: true,
            timer_seconds: match t.timer_seconds {
                Some(x) => if x == 0 {
                    Some(30)
                } else {
                    Some(x)
                },
                None => Some(30),
            },
            timer_name: match t.timer_name {
                Some(n) => Some(n),
                None => Some("Odium - ${1}"@),
            },
            comments: Some(odium_note()),
            ..t
        }
    } else if t.id == "eql-shaman-plague"@ || basename_is(t.name, "Plague"@) {
        TriggerView {
            display_text: Some("${1} Plagued"@),
            speak: Some("${1} Plagued"@),
            tts_enabled: true,
            ..t
        }
    } else {
        t
    }
}

pub open spec fn shaman_dot_step_fn() -> spec_fn(TriggerView) -> (TriggerView, nat) {
    |t: TriggerView| counted(t, shaman_dot_patch(t))
}

/// Early-ends of the added shaman DoT timers.
pub open spec fn dot_early_end() -> Seq<Seq<char>> {
    seq![
        r"^(You have slain ${1}|${1} has been slain by (?:[^!]+))\!$"@,
        r"^cleardots? is not online at this time\.$"@,
    ]
}

/// A shaman DoT timer as added when missing.
pub open spec fn shaman_dot(
    id: Seq<char>,
    name: Seq<char>,
    secs: u64,
    timer_name: Seq<char>,
    display: Seq<char>,
    search: Seq<char>,
    comments: Seq<char>,
) -> TriggerView {
    TriggerView {
        id,
        name,
        enabled: true,
        search,
        use_regex: true,
        display_text: Some(display),
        timer_seconds: Some(secs),
        timer_name: Some(timer_name),
        early_end: dot_early_end(),
        sound: None,
        speak: Some(display),
        tts_enabled: true,
        comments: Some(comments),
    }
}

/// Odium, Envenomed Bolt and Plague, in the order they are added.
pub open spec fn shaman_dots() -> Seq<TriggerView> {
    seq![
        shaman_dot("eql-shaman-odium"@, "Odium"@, 30, "Odium - ${1}"@, "${1} Odium"@, odium_land(), odium_note()),
        shaman_dot(
            "eql-shaman-envenomed-bolt"@,
            "Envenomed Bolt"@,
            48,
            "Envenomed Bolt - ${1}"@,
            "${1} Envenom Bolted"@,
            you_hit_pattern("Envenomed Bolt"@),
            land_note(),
        ),
        shaman_dot(
            "eql-shaman-plague"@,
            "Plague"@,
            132,
            "Plague - ${1}"@,
            "${1} Plagued"@,
            you_hit_pattern("Plague"@),
            land_note(),
        ),
    ]
}

pub open spec fn same_spell_fn(name: Seq<char>) -> spec_fn(TriggerView) -> bool {
    |t: TriggerView| t.name == name || basename_is(t.name, name)
}

/// The first `n` shaman DoTs added where no trigger names that spell, and how many were.
pub open spec fn add_dots(ts: Seq<TriggerView>, n: int) -> (Seq<TriggerView>, nat)
    decreases n,
{
    if n <= 0 {
        (ts, 0)
    } else {
        let (prev, c) = add_dots(ts, n - 1);
        let d = shaman_dots()[n - 1];
        if find_trigger(prev, same_spell_fn(d.name), 0) is Some {
            (prev, c)
        } else {
            (prev.push(d), c + 1)
        }
    }
}

/// The library with the shaman DoT category patched and completed, and the count.
pub open spec fn shaman_dots_spec(gs: Seq<GroupView>) -> (Seq<GroupView>, nat) {
    match find_group(gs, is_shaman_dots_fn(), 0) {
        None => (gs, 0),
        Some(i) => {
            let ts = gs[i].triggers;
            let patched = map_trigger_views(ts, shaman_dot_step_fn());
            let c0 = trigger_changes(ts, shaman_dot_step_fn(), ts.len() as int);
            let (added, c1) = add_dots(patched, 3);
            (gs.update(i, GroupView { triggers: added, ..gs[i] }), c0 + c1)
        },
    }
}

fn shaman_dot_step_exec(t: &Trigger) -> (r: (Trigger, usize))
    ensures
        r.0@ == shaman_dot_step_fn()(t@).0,
        r.1 as nat == shaman_dot_step_fn()(t@).1,
{
    let mut out = t.duplicate();
    if is_text(&t.id, "eql-shaman-odium") || spell_basename_eq(t.name.as_str(), "Odium") {
        out.search = odium_land_pattern();
        out.use_regex = true;
        out.display_text = Some(String::from_str("${1} Odium"));
        out.speak = Some(String::from_str("${1} Odium"));
        out.tts_enabled = true;
        let secs = match t.timer_seconds {
            Some(x) => x,
            None => 0,
        };
        if secs == 0 {
            out.timer_seconds = Some(30);
        }
        if t.timer_name.is_none() {
            out.timer_name = Some(String::from_str("Odium - ${1}"));
        }
        out.comments = Some(String::from_str("EQL: dark curse emote is shared — engine only fires after your Odium cast"));
    } else if is_text(&t.id, "eql-shaman-plague") || spell_basename_eq(t.name.as_str(), "Plague") {
        out.display_text = Some(String::from_str("${1} Plagued"));
        out.speak = Some(String::from_str("${1} Plagued"));
        out.tts_enabled = true;
    }
    count_change(t, out)
}

fn new_shaman_dot(
    id: &str,
    name: &str,
    secs: u64,
    timer_name: &str,
    display: &str,
    search: String,
    comments: &str,
) -> (r: Trigger)
    ensures
        r@ == shaman_dot(id@, name@, secs, timer_name@, display@, search@, comments@),
{
    let r = Trigger {
        id: String::from_str(id),
        name: String::from_str(name),
        enabled: true,
        search,
        use_regex: true,
        display_text: Some(String::from_str(display)),
        timer_seconds: Some(secs),
        timer_name: Some(String::from_str(timer_name)),
        early_end: vec![
            String::from_str(r"^(You have slain ${1}|${1} has been slain by (?:[^!]+))\!$"),
            String::from_str(r"^cleardots? is not online at this time\.$"),
        ],
        sound: None,
        speak: Some(String::from_str(display)),
        tts_enabled: true,
        comments: Some(String::from_str(comments)),
    };
    assert(r@.early_end =~= dot_early_end());
    r
}

fn shaman_dot_triggers() -> (r: Vec<Trigger>)
    ensures
        trigger_views(r@) == shaman_dots(),
{
    let r = vec![
        new_shaman_dot(
            "eql-shaman-odium",
            "Odium",
            30,
            "Odium - ${1}",
            "${1} Odium",
            odium_land_pattern(),
            "EQL: dark curse emote is shared — engine only fires after your Odium cast",
        ),
        new_shaman_dot(
            "eql-shaman-envenomed-bolt",
            "Envenomed Bolt",
            48,
            "Envenomed Bolt - ${1}",
            "${1} Envenom Bolted",
            you_hit_by_spell_pattern("Envenomed Bolt"),
            "EQL: match your land hit — shared emotes fire for any caster; ranks OK",
        ),
        new_shaman_dot(
            "eql-shaman-plague",
            "Plague",
            132,
            "Plague - ${1}",
            "${1} Plagued",
            you_hit_by_spell_pattern("Plague"),
            "EQL: match your land hit — shared emotes fire for any caster; ranks OK",
        ),
    ];
    assert(trigger_views(r@) =~~= shaman_dots());
    r
}

fn has_spell_exec(ts: &Vec<Trigger>, name: &String) -> (r: bool)
    ensures
        r == (find_trigger(trigger_views(ts@), same_spell_fn(name@), 0) is Some),
{
    let mut i: usize = 0;
    let ghost tv = trigger_views(ts@);
    while i < ts.len()
        invariant
            i <= ts.len(),
            tv == trigger_views(ts@),
            find_trigger(tv, same_spell_fn(name@), 0) == find_trigger(tv, same_spell_fn(name@), i as int),
        decreases ts.len() - i,
    {
        assert(ts@[i as int]@ == tv[i as int]);
        if crate::model::same_string(&ts[i].name, name) || spell_basename_eq(ts[i].name.as_str(), name.as_str()) {
            return true;
        }
        i += 1;
    }
    false
}

/// Shaman DoTs that belong in the class pack: patches Odium (shared curse emote, spoken)
/// and Plague (spoken), then adds Odium, Envenomed Bolt and Plague where missing.
/// Returns how many triggers changed or were added.
pub fn ensure_shaman_dots(library: &mut TriggerLibrary) -> (r: usize)
    requires
        countable(old(library)@),
    ensures
        (final(library)@, r as nat) == shaman_dots_spec(old(library)@),
{
    let ghost gs = library@;
    let idx = match position_group(&library.groups, &shaman_dots_exec, Ghost(is_shaman_dots_fn())) {
        Some(i) => i,
        None => {
            return 0;
        },
    };
    proof {
        lemma_find_group(gs, is_shaman_dots_fn(), 0);
        lemma_triggers_upto_le(gs, idx + 1, gs.len() as int);
        lemma_trigger_changes_le(gs[idx as int].triggers, shaman_dot_step_fn(), gs[idx as int].triggers.len() as int);
    }
    let mut groups: Vec<TriggerGroup> = Vec::new();
    std::mem::swap(&mut groups, &mut library.groups);
    assert(groups@[idx as int]@ == gs[idx as int]);
    let (ts, c0) = map_triggers(&groups[idx].triggers, &shaman_dot_step_exec, Ghost(shaman_dot_step_fn()));
    let mut ts = ts;
    let fresh = shaman_dot_triggers();
    assert(fresh@.len() == trigger_views(fresh@).len());
    assert(fresh@.len() == 3);
    assert(gs[idx as int].triggers.len() <= triggers_upto(gs, idx + 1));
    let mut changed = c0;
    let ghost patched = trigger_views(ts@);
    let mut k: usize = 0;
    while k < fresh.len()
        invariant
            k <= fresh.len(),
            trigger_views(fresh@) == shaman_dots(),
            (trigger_views(ts@), (changed - c0) as nat) == add_dots(patched, k as int),
            c0 <= changed <= c0 + k,
            c0 as nat <= 4 * gs[idx as int].triggers.len(),
            countable(gs),
            idx < gs.len(),
            4 * (triggers_upto(gs, gs.len() as int) + gs.len()) <= usize::MAX,
            triggers_upto(gs, idx + 1) <= triggers_upto(gs, gs.len() as int),
            gs[idx as int].triggers.len() <= triggers_upto(gs, idx + 1),
            fresh@.len() == 3,
        decreases fresh.len() - k,
    {
        let d = &fresh[k];
        assert(d@ == shaman_dots()[k as int]);
        if !has_spell_exec(&ts, &d.name) {
            let ghost before = trigger_views(ts@);
            ts.push(d.duplicate());
            assert(trigger_views(ts@) =~= before.push(d@));
            changed = changed + 1;
        }
        k += 1;
    }
    let mut g = groups[idx].duplicate();
    g.triggers = ts;
    assert(g@ =~~= GroupView { triggers: add_dots(patched, 3).0, ..gs[idx as int] });
    groups.set(idx, g);
    assert(group_views(groups@) =~= shaman_dots_spec(gs).0);
    library.groups = groups;
    changed
}


/// The added shaman DoTs are left alone by the patch.
proof fn lemma_shaman_dots_fixed()
    ensures
        forall|k: int| 0 <= k < 3 ==> shaman_dot_patch(#[trigger] shaman_dots()[k]) == shaman_dots()[k],
{
    reveal_strlit("Plague");
    reveal_strlit("Envenomed Bolt");
    reveal_strlit("Odium");
    reveal_with_fuel(crate::tokens::lacks, 15);
    crate::tokens::lemma_plain_spell_base("Plague"@);
    crate::tokens::lemma_plain_spell_base("Envenomed Bolt"@);
    assert(to_lower("Plague"@).len() == 6 && to_lower("Odium"@).len() == 5);
    assert(to_lower("Envenomed Bolt"@).len() == 14);
    assert(!basename_is("Plague"@, "Odium"@));
    assert(!basename_is("Envenomed Bolt"@, "Odium"@));
    assert(!basename_is("Envenomed Bolt"@, "Plague"@));
    reveal_strlit("eql-shaman-odium");
    reveal_strlit("eql-shaman-plague");
    reveal_strlit("eql-shaman-envenomed-bolt");
    assert("eql-shaman-odium"@.len() == 16);
    assert("eql-shaman-plague"@.len() == 17);
    assert("eql-shaman-envenomed-bolt"@.len() == 25);
    assert(shaman_dot_patch(shaman_dots()[0]) =~~= shaman_dots()[0]);
    assert(shaman_dot_patch(shaman_dots()[1]) =~~= shaman_dots()[1]);
    assert(shaman_dot_patch(shaman_dots()[2]) =~~= shaman_dots()[2]);
}

/// What `add_dots` keeps, what it appends, and that each spell is then present.
proof fn lemma_add_dots(ts: Seq<TriggerView>, n: int)
    requires
        0 <= n <= 3,
    ensures
        add_dots(ts, n).0.len() >= ts.len(),
        add_dots(ts, n).0.take(ts.len() as int) == ts,
        forall|j: int|
            ts.len() <= j < add_dots(ts, n).0.len() ==> exists|k: int|
                0 <= k < 3 && #[trigger] add_dots(ts, n).0[j] == shaman_dots()[k],
        forall|k: int|
            0 <= k < n ==> (find_trigger(add_dots(ts, n).0, same_spell_fn(#[trigger] shaman_dots()[k].name), 0) is Some),
    decreases n,
{
    if n > 0 {
        lemma_add_dots(ts, n - 1);
        let prev = add_dots(ts, n - 1).0;
        let d = shaman_dots()[n - 1];
        if find_trigger(prev, same_spell_fn(d.name), 0) is None {
            let next = prev.push(d);
            assert(next.take(ts.len() as int) =~= prev.take(ts.len() as int));
            assert forall|k: int| 0 <= k < n - 1 implies (find_trigger(next, same_spell_fn(#[trigger] shaman_dots()[k].name), 0) is Some) by {
                let q = same_spell_fn(shaman_dots()[k].name);
                lemma_find_trigger(prev, q, 0);
                let j = find_trigger(prev, q, 0)->0;
                assert(next[j] == prev[j]);
                lemma_find_trigger_some(next, q, j);
            }
            assert(next[prev.len() as int] == d);
            assert(same_spell_fn(d.name)(d));
            lemma_find_trigger_some(next, same_spell_fn(d.name), prev.len() as int);
            assert forall|j: int| ts.len() <= j < next.len() implies exists|k: int|
                0 <= k < 3 && #[trigger] next[j] == shaman_dots()[k] by {
                if j == prev.len() {
                    assert(next[j] == shaman_dots()[n - 1]);
                } else {
                    assert(next[j] == prev[j]);
                }
            }
        }
    }
}

proof fn lemma_add_dots_settled(ts: Seq<TriggerView>, n: int)
    requires
        0 <= n <= 3,
        forall|k: int| 0 <= k < 3 ==> (find_trigger(ts, same_spell_fn(#[trigger] shaman_dots()[k].name), 0) is Some),
    ensures
        add_dots(ts, n) == (ts, 0nat),
    decreases n,
{
    if n > 0 {
        lemma_add_dots_settled(ts, n - 1);
    }
}

/// Completing the shaman DoT category is idempotent: a second run changes nothing and
/// reports no changes.
pub proof fn law_shaman_dots_idempotent(gs: Seq<GroupView>)
    ensures
        shaman_dots_spec(shaman_dots_spec(gs).0) == (shaman_dots_spec(gs).0, 0nat),
{
    match find_group(gs, is_shaman_dots_fn(), 0) {
        None => {},
        Some(i) => {
            lemma_find_group(gs, is_shaman_dots_fn(), 0);
            let f = shaman_dot_step_fn();
            let ts = gs[i].triggers;
            let patched = map_trigger_views(ts, f);
            let added = add_dots(patched, 3).0;
            lemma_add_dots(patched, 3);
            lemma_shaman_dots_fixed();
            let g1 = GroupView { triggers: added, ..gs[i] };
            lemma_find_group_update(gs, is_shaman_dots_fn(), 0, i, g1);
            assert forall|j: int| 0 <= j < added.len() implies #[trigger] f(added[j]) == (
                added[j],
                0nat,
            ) by {
                if j < patched.len() {
                    assert(added[j] == added.take(patched.len() as int)[j]);
                    assert(added[j] == patched[j]);
                    assert(shaman_dot_patch(shaman_dot_patch(ts[j])) =~~= shaman_dot_patch(ts[j]));
                } else {
                    let k = choose|k: int| 0 <= k < 3 && added[j] == shaman_dots()[k];
                    assert(shaman_dot_patch(shaman_dots()[k]) == shaman_dots()[k]);
                }
            }
            lemma_trigger_changes_zero(added, f, added.len() as int);
            assert(map_trigger_views(added, f) =~= added);
            lemma_add_dots_settled(added, 3);
            assert(gs.update(i, g1)[i] == g1);
            assert(gs.update(i, g1).update(i, GroupView { triggers: added, ..g1 }) =~= gs.update(i, g1));
        },
    }
}

/// `pattern` added in front of the early-ends unless it is already one of them.
pub open spec fn with_early_end(t: TriggerView, pattern: Seq<char>) -> TriggerView {
    if t.early_end.contains(pattern) {
        t
    } else {
        TriggerView { early_end: seq![pattern] + t.early_end, ..t }
    }
}

fn ensure_early_end(trigger: &mut Trigger, pattern: &str)
    ensures
        final(trigger)@ == with_early_end(old(trigger)@, pattern@),
{
    let ghost ee = trigger.early_end.deep_view();
    let mut i: usize = 0;
    let pv = chars_of(pattern);
    while i < trigger.early_end.len()
        invariant
            i <= trigger.early_end.len(),
            ee == trigger.early_end.deep_view(),
            pv@ == pattern@,
            forall|k: int| 0 <= k < i ==> ee[k] != pattern@,
        decreases trigger.early_end.len() - i,
    {
        let ev = chars_of(trigger.early_end[i].as_str());
        if crate::text::chars_eq(ev.as_slice(), pv.as_slice()) {
            assert(ee[i as int] == pattern@);
            return;
        }
        i += 1;
    }
    assert(!ee.contains(pattern@));
    trigger.early_end.insert(0, String::from_str(pattern));
    assert(trigger@.early_end =~= seq![pattern@] + ee);
}

/// The timer name holds the `${1}` capture token.
pub open spec fn names_capture(t: TriggerView) -> bool {
    contains(
        match t.timer_name {
            Some(n) => n,
            None => Seq::empty(),
        },
        "${1}"@,
    )
}

/// A per-target mez: a `${1}` timer name, and both worn-off lines as early-ends.
pub open spec fn per_target(
    t: TriggerView,
    timer_name: Seq<char>,
    off_of: Seq<char>,
    off: Seq<char>,
) -> TriggerView {
    let t1 = if names_capture(t) {
        t
    } else {
        TriggerView { timer_name: Some(timer_name), ..t }
    };
    with_early_end(with_early_end(t1, off_of), off)
}

/// A fixed duration with its worn-off line, and a note when there is no comment yet.
pub open spec fn fixed_mez(t: TriggerView, secs: u64, off: Seq<char>, note: Option<Seq<char>>) -> TriggerView {
    let t1 = with_early_end(TriggerView { timer_seconds: Some(secs), ..t }, off);
    match (t1.comments, note) {
        (None, Some(n)) => TriggerView { comments: Some(n), ..t1 },
        _ => t1,
    }
}

pub open spec fn fascination_note() -> Seq<char> {
    "EQL AE: land is often 'mesmerized' — engine remaps after Fascination cast"@
}

/// Enchanter mez durations and early-ends as on EverQuest Legends.
pub open spec fn mez_patch(t: TriggerView) -> TriggerView {
    let name = t.name;
    if name == "Glamour of Kintaz"@ || t.timer_name == Some("Kintaz - ${1}"@) {
        fixed_mez(t, 30, r"^Your Glamour of Kintaz spell has worn off\.$"@, Some("EQL: 30s (5 ticks), not classic 54s"@))
    } else if name == "Rapture"@ && t.timer_name == Some("Rapture - ${1}"@) {
        fixed_mez(t, 24, r"^Your Rapture spell has worn off\.$"@, Some("EQL: 24s (4 ticks), not classic 42s"@))
    } else if name == "Dictate"@ && t.timer_name == Some("Dictate"@) {
        fixed_mez(t, 48, r"^Your Dictate spell has worn off\.$"@, None)
    } else if name == "Entrance"@ {
        per_target(
            t,
            "Entrance - ${1}"@,
            r"^Your Entrance spell has worn off of ${1}\.$"@,
            r"^Your Entrance spell has worn off\.$"@,
        )
    } else if name == "Enthrall"@ {
        per_target(
            t,
            "Enthrall - ${1}"@,
            r"^Your Enthrall spell has worn off of ${1}\.$"@,
            r"^Your Enthrall spell has worn off\.$"@,
        )
    } else if name == "Fascination"@ {
        let t1 = per_target(
            t,
            "Fascination - ${1}"@,
            r"^Your Fascination spell has worn off of ${1}\.$"@,
            r"^Your Fascination spell has worn off\.$"@,
        );
        if t1.comments is None {
            TriggerView { comments: Some(fascination_note()), ..t1 }
        } else {
            t1
        }
    } else if starts_with(name, "Mesmerize"@) {
        per_target(
            t,
            "Mesmerize - ${1}"@,
            r"^Your (Mesmerize|Mesmerization) spell has worn off of ${1}\.$"@,
            r"^Your (Mesmerize|Mesmerization) spell has worn off\.$"@,
        )
    } else if name == "Dazzle"@ {
        per_target(
            t,
            "Dazzle - ${1}"@,
            r"^Your Dazzle spell has worn off of ${1}\.$"@,
            r"^Your Dazzle spell has worn off\.$"@,
        )
    } else if name == "Rapture Cooldown"@ {
        TriggerView { timer_seconds: Some(24), ..t }
    } else if name == "Dictate Cooldown"@ {
        TriggerView { timer_seconds: Some(300), ..t }
    } else {
        t
    }
}

pub open spec fn mez_step_fn() -> spec_fn(TriggerView) -> (TriggerView, nat) {
    |t: TriggerView| counted(t, mez_patch(t))
}

pub open spec fn mez_group_fn() -> spec_fn(GroupView) -> (GroupView, nat) {
    |g: GroupView|
        (
            GroupView { triggers: map_trigger_views(g.triggers, mez_step_fn()), ..g },
            trigger_changes(g.triggers, mez_step_fn(), g.triggers.len() as int),
        )
}

/// The silent Dazzle cast tracker that clears Dazzle timers on worn-off.
pub open spec fn dazzle_mez() -> TriggerView {
    TriggerView {
        id: "eql-dazzle-mez"@,
        name: "Dazzle"@,
        enabled: true,
        search: r"^You begin casting Dazzle\.$"@,
        use_regex: true,
        display_text: Some(""@),
        timer_seconds: None,
        timer_name: Some("Dazzle - ${1}"@),
        early_end: seq![r"^Your Dazzle spell has worn off of ${1}\.$"@, r"^Your Dazzle spell has worn off\.$"@],
        sound: Some("none"@),
        speak: None,
        tts_enabled: false,
        comments: Some("EQL: 96s via Mesmerize land line after this cast. Clears Dazzle timers on worn-off."@),
    }
}

pub open spec fn is_cc_fn() -> spec_fn(GroupView) -> bool {
    |g: GroupView| contains(to_lower(g.name), "enchanter"@) && contains(to_lower(g.name), "crowd control"@)
}

pub open spec fn is_dazzle_fn() -> spec_fn(TriggerView) -> bool {
    |t: TriggerView| t.id == "eql-dazzle-mez"@ || t.name == "Dazzle"@
}

/// Every mez trigger patched; the Dazzle tracker added to the first Enchanter crowd
/// control group when missing; and the count of changes.
pub open spec fn mez_spec(gs: Seq<GroupView>) -> (Seq<GroupView>, nat) {
    let patched = map_group_views(gs, mez_group_fn());
    let c = group_changes(gs, mez_group_fn(), gs.len() as int);
    match find_group(gs, is_cc_fn(), 0) {
        Some(i) => if find_trigger(patched[i].triggers, is_dazzle_fn(), 0) is None {
            (patched.update(i, GroupView { triggers: patched[i].triggers.push(dazzle_mez()), ..patched[i] }), c + 1)
        } else {
            (patched, c)
        },
        None => (patched, c),
    }
}

fn per_target_exec(t: &mut Trigger, timer_name: &str, off_of: &str, off: &str)
    ensures
        final(t)@ == per_target(old(t)@, timer_name@, off_of@, off@),
{
    let captured = match &t.timer_name {
        Some(n) => text_contains(n, "${1}"),
        None => {
            proof {
                reveal_strlit("${1}");
                assert(!contains(Seq::<char>::empty(), "${1}"@));
            }
            false
        },
    };
    if !captured {
        t.timer_name = Some(String::from_str(timer_name));
    }
    ensure_early_end(t, off_of);
    ensure_early_end(t, off);
}

fn fixed_mez_exec(t: &mut Trigger, secs: u64, off: &str, note: Option<&str>)
    ensures
        final(t)@ == fixed_mez(old(t)@, secs, off@, opt_str(note)),
{
    t.timer_seconds = Some(secs);
    ensure_early_end(t, off);
    if t.comments.is_none() {
        match note {
            Some(n) => {
                t.comments = Some(String::from_str(n));
            },
            None => {},
        }
    }
}

fn mez_step_exec(t: &Trigger) -> (r: (Trigger, usize))
    ensures
        r.0@ == mez_step_fn()(t@).0,
        r.1 as nat == mez_step_fn()(t@).1,
{
    let mut out = t.duplicate();
    if is_text(&t.name, "Glamour of Kintaz") || opt_is(&t.timer_name, "Kintaz - ${1}") {
        fixed_mez_exec(&mut out, 30, r"^Your Glamour of Kintaz spell has worn off\.$", Some("EQL: 30s (5 ticks), not classic 54s"));
    } else if is_text(&t.name, "Rapture") && opt_is(&t.timer_name, "Rapture - ${1}") {
        fixed_mez_exec(&mut out, 24, r"^Your Rapture spell has worn off\.$", Some("EQL: 24s (4 ticks), not classic 42s"));
    } else if is_text(&t.name, "Dictate") && opt_is(&t.timer_name, "Dictate") {
        fixed_mez_exec(&mut out, 48, r"^Your Dictate spell has worn off\.$", None);
    } else if is_text(&t.name, "Entrance") {
        per_target_exec(
            &mut out,
            "Entrance - ${1}",
            r"^Your Entrance spell has worn off of ${1}\.$",
            r"^Your Entrance spell has worn off\.$",
        );
    } else if is_text(&t.name, "Enthrall") {
        per_target_exec(
            &mut out,
            "Enthrall - ${1}",
            r"^Your Enthrall spell has worn off of ${1}\.$",
            r"^Your Enthrall spell has worn off\.$",
        );
    } else if is_text(&t.name, "Fascination") {
        per_target_exec(
            &mut out,
            "Fascination - ${1}",
            r"^Your Fascination spell has worn off of ${1}\.$",
            r"^Your Fascination spell has worn off\.$",
        );
        if out.comments.is_none() {
            out.comments = Some(String::from_str("EQL AE: land is often 'mesmerized' — engine remaps after Fascination cast"));
        }
    } else if text_starts(&t.name, "Mesmerize") {
        per_target_exec(
            &mut out,
            "Mesmerize - ${1}",
            r"^Your (Mesmerize|Mesmerization) spell has worn off of ${1}\.$",
            r"^Your (Mesmerize|Mesmerization) spell has worn off\.$",
        );
    } else if is_text(&t.name, "Dazzle") {
        per_target_exec(
            &mut out,
            "Dazzle - ${1}",
            r"^Your Dazzle spell has worn off of ${1}\.$",
            r"^Your Dazzle spell has worn off\.$",
        );
    } else if is_text(&t.name, "Rapture Cooldown") {
        out.timer_seconds = Some(24);
    } else if is_text(&t.name, "Dictate Cooldown") {
        out.timer_seconds = Some(300);
    }
    count_change(t, out)
}

fn mez_group_exec(g: &TriggerGroup) -> (r: (TriggerGroup, usize))
    requires
        4 * g@.triggers.len() <= usize::MAX,
    ensures
        r.0@ == mez_group_fn()(g@).0,
        r.1 as nat == mez_group_fn()(g@).1,
{
    let (ts, c) = map_triggers(&g.triggers, &mez_step_exec, Ghost(mez_step_fn()));
    (TriggerGroup { id: g.id.clone(), name: g.name.clone(), enabled: g.enabled, triggers: ts }, c)
}

fn cc_exec(g: &TriggerGroup) -> (r: bool)
    ensures
        r == is_cc_fn()(g@),
{
    lower_contains(&g.name, "enchanter") && lower_contains(&g.name, "crowd control")
}

fn dazzle_exec(t: &Trigger) -> (r: bool)
    ensures
        r == is_dazzle_fn()(t@),
{
    is_text(&t.id, "eql-dazzle-mez") || is_text(&t.name, "Dazzle")
}

fn dazzle_mez_trigger() -> (r: Trigger)
    ensures
        r@ == dazzle_mez(),
{
    let r = Trigger {
        id: String::from_str("eql-dazzle-mez"),
        name: String::from_str("Dazzle"),
        enabled: true,
        search: String::from_str(r"^You begin casting Dazzle\.$"),
        use_regex: true,
        display_text: Some(String::from_str("")),
        timer_seconds: None,
        timer_name: Some(String::from_str("Dazzle - ${1}")),
        early_end: vec![
            String::from_str(r"^Your Dazzle spell has worn off of ${1}\.$"),
            String::from_str(r"^Your Dazzle spell has worn off\.$"),
        ],
        sound: Some(String::from_str("none")),
        speak: None,
        tts_enabled: false,
        comments: Some(String::from_str("EQL: 96s via Mesmerize land line after this cast. Clears Dazzle timers on worn-off.")),
    };
    assert(r@ =~~= dazzle_mez());
    r
}

proof fn lemma_trigger_changes_le_one(ts: Seq<TriggerView>, f: spec_fn(TriggerView) -> (TriggerView, nat), n: int)
    requires
        0 <= n <= ts.len(),
        forall|t: TriggerView| #[trigger] f(t).1 <= 1,
    ensures
        trigger_changes(ts, f, n) <= n,
    decreases n,
{
    if n > 0 {
        lemma_trigger_changes_le_one(ts, f, n - 1);
        assert(f(ts[n - 1]).1 <= 1);
    }
}

proof fn lemma_group_changes_le_triggers(gs: Seq<GroupView>, f: spec_fn(GroupView) -> (GroupView, nat), n: int)
    requires
        0 <= n <= gs.len(),
        forall|g: GroupView| #[trigger] f(g).1 <= g.triggers.len(),
    ensures
        group_changes(gs, f, n) <= triggers_upto(gs, n),
    decreases n,
{
    if n > 0 {
        lemma_group_changes_le_triggers(gs, f, n - 1);
        assert(f(gs[n - 1]).1 <= gs[n - 1].triggers.len());
    }
}

/// Aligns Enchanter mez durations and early-ends with EverQuest Legends values, and
/// adds the silent Dazzle cast tracker to the crowd control group.  Returns how many
/// triggers changed or were added.
pub fn ensure_eql_mez_timers(library: &mut TriggerLibrary) -> (r: usize)
    requires
        countable(old(library)@),
    ensures
        (final(library)@, r as nat) == mez_spec(old(library)@),
{
    let ghost gs = library@;
    let cc = position_group(&library.groups, &cc_exec, Ghost(is_cc_fn()));
    proof {
        assert forall|g: GroupView| #[trigger] mez_group_fn()(g).1 <= g.triggers.len() by {
            lemma_trigger_changes_le_one(g.triggers, mez_step_fn(), g.triggers.len() as int);
        }
        lemma_group_changes_le_triggers(gs, mez_group_fn(), gs.len() as int);
        lemma_find_group(gs, is_cc_fn(), 0);
    }
    let changed = map_groups(library, &mez_group_exec, Ghost(mez_group_fn()));
    let ghost patched = library@;
    match cc {
        Some(idx) => {
            assert(idx < gs.len());
            assert(patched.len() == gs.len());
            assert(library.groups@.len() == patched.len());
            assert(library.groups@[idx as int]@ == patched[idx as int]);
            assert(trigger_views(library.groups@[idx as int].triggers@) == patched[idx as int].triggers);
            if position_trigger(&library.groups[idx].triggers, &dazzle_exec, Ghost(is_dazzle_fn())).is_none() {
                let mut groups: Vec<TriggerGroup> = Vec::new();
                std::mem::swap(&mut groups, &mut library.groups);
                let mut g = groups[idx].duplicate();
                let ghost before = g@.triggers;
                g.triggers.push(dazzle_mez_trigger());
                assert(g@.triggers =~= before.push(dazzle_mez()));
                groups.set(idx, g);
                assert(group_views(groups@) =~= mez_spec(gs).0);
                library.groups = groups;
                return changed + 1;
            }
            changed
        },
        None => changed,
    }
}

proof fn lemma_ends_with_token(s: Seq<char>, k: int)
    requires
        0 <= k,
        k + 4 == s.len(),
        s.subrange(k, k + 4) == "${1}"@,
    ensures
        contains(s, "${1}"@),
{
    reveal_strlit("${1}");
    assert(occurs_at(s, "${1}"@, k));
}

/// The per-target timer names hold the capture token.
proof fn lemma_capture_names()
    ensures
        contains("Entrance - ${1}"@, "${1}"@),
        contains("Enthrall - ${1}"@, "${1}"@),
        contains("Fascination - ${1}"@, "${1}"@),
        contains("Mesmerize - ${1}"@, "${1}"@),
        contains("Dazzle - ${1}"@, "${1}"@),
{
    reveal_strlit("${1}");
    reveal_strlit("Entrance - ${1}");
    reveal_strlit("Enthrall - ${1}");
    reveal_strlit("Fascination - ${1}");
    reveal_strlit("Mesmerize - ${1}");
    reveal_strlit("Dazzle - ${1}");
    assert("Entrance - ${1}"@.subrange(11, 15) =~= "${1}"@);
    lemma_ends_with_token("Entrance - ${1}"@, 11);
    assert("Enthrall - ${1}"@.subrange(11, 15) =~= "${1}"@);
    lemma_ends_with_token("Enthrall - ${1}"@, 11);
    assert("Fascination - ${1}"@.subrange(14, 18) =~= "${1}"@);
    lemma_ends_with_token("Fascination - ${1}"@, 14);
    assert("Mesmerize - ${1}"@.subrange(12, 16) =~= "${1}"@);
    lemma_ends_with_token("Mesmerize - ${1}"@, 12);
    assert("Dazzle - ${1}"@.subrange(9, 13) =~= "${1}"@);
    lemma_ends_with_token("Dazzle - ${1}"@, 9);
}

proof fn lemma_with_early_end_has(t: TriggerView, p: Seq<char>)
    ensures
        with_early_end(t, p).early_end.contains(p),
        forall|q: Seq<char>| t.early_end.contains(q) ==> with_early_end(t, p).early_end.contains(q),
{
    if !t.early_end.contains(p) {
        let e = seq![p] + t.early_end;
        assert(e[0] == p);
        assert forall|q: Seq<char>| t.early_end.contains(q) implies e.contains(q) by {
            let j = choose|j: int| 0 <= j < t.early_end.len() && t.early_end[j] == q;
            assert(e[j + 1] == q);
        }
    }
}

proof fn lemma_per_target_settled(t: TriggerView, timer_name: Seq<char>, off_of: Seq<char>, off: Seq<char>)
    requires
        contains(timer_name, "${1}"@),
    ensures
        per_target(per_target(t, timer_name, off_of, off), timer_name, off_of, off) == per_target(t, timer_name, off_of, off),
        per_target(t, timer_name, off_of, off).name == t.name,
        per_target(t, timer_name, off_of, off).comments == t.comments,
{
    let t1 = if names_capture(t) {
        t
    } else {
        TriggerView { timer_name: Some(timer_name), ..t }
    };
    lemma_with_early_end_has(t1, off_of);
    lemma_with_early_end_has(with_early_end(t1, off_of), off);
}

proof fn lemma_mez_patch_settled(t: TriggerView)
    ensures
        mez_patch(mez_patch(t)) == mez_patch(t),
{
    lemma_capture_names();
    reveal_strlit("Kintaz - ${1}");
    reveal_strlit("Rapture - ${1}");
    reveal_strlit("Dictate");
    reveal_strlit("Entrance - ${1}");
    reveal_strlit("Enthrall - ${1}");
    reveal_strlit("Fascination - ${1}");
    reveal_strlit("Mesmerize - ${1}");
    reveal_strlit("Dazzle - ${1}");
    assert("Kintaz - ${1}"@.len() == 13 && "Dazzle - ${1}"@.len() == 13);
    assert("Kintaz - ${1}"@[0] != "Dazzle - ${1}"@[0]);
    assert("Entrance - ${1}"@.len() == 15 && "Enthrall - ${1}"@.len() == 15);
    assert("Fascination - ${1}"@.len() == 18 && "Mesmerize - ${1}"@.len() == 16);
    if t.name == "Glamour of Kintaz"@ || t.timer_name == Some("Kintaz - ${1}"@) {
        lemma_with_early_end_has(TriggerView { timer_seconds: Some(30), ..t }, r"^Your Glamour of Kintaz spell has worn off\.$"@);
    } else if t.name == "Rapture"@ && t.timer_name == Some("Rapture - ${1}"@) {
        lemma_with_early_end_has(TriggerView { timer_seconds: Some(24), ..t }, r"^Your Rapture spell has worn off\.$"@);
    } else if t.name == "Dictate"@ && t.timer_name == Some("Dictate"@) {
        lemma_with_early_end_has(TriggerView { timer_seconds: Some(48), ..t }, r"^Your Dictate spell has worn off\.$"@);
    } else if t.name == "Entrance"@ {
        lemma_per_target_settled(t, "Entrance - ${1}"@, r"^Your Entrance spell has worn off of ${1}\.$"@, r"^Your Entrance spell has worn off\.$"@);
    } else if t.name == "Enthrall"@ {
        lemma_per_target_settled(t, "Enthrall - ${1}"@, r"^Your Enthrall spell has worn off of ${1}\.$"@, r"^Your Enthrall spell has worn off\.$"@);
    } else if t.name == "Fascination"@ {
        let f0 = per_target(t, "Fascination - ${1}"@, r"^Your Fascination spell has worn off of ${1}\.$"@, r"^Your Fascination spell has worn off\.$"@);
        lemma_per_target_settled(t, "Fascination - ${1}"@, r"^Your Fascination spell has worn off of ${1}\.$"@, r"^Your Fascination spell has worn off\.$"@);
        if f0.comments is None {
            let f1 = TriggerView { comments: Some(fascination_note()), ..f0 };
            lemma_per_target_settled(f1, "Fascination - ${1}"@, r"^Your Fascination spell has worn off of ${1}\.$"@, r"^Your Fascination spell has worn off\.$"@);
            assert(per_target(f1, "Fascination - ${1}"@, r"^Your Fascination spell has worn off of ${1}\.$"@, r"^Your Fascination spell has worn off\.$"@) =~~= f1);
        }
    } else if starts_with(t.name, "Mesmerize"@) {
        lemma_per_target_settled(t, "Mesmerize - ${1}"@, r"^Your (Mesmerize|Mesmerization) spell has worn off of ${1}\.$"@, r"^Your (Mesmerize|Mesmerization) spell has worn off\.$"@);
    } else if t.name == "Dazzle"@ {
        lemma_per_target_settled(t, "Dazzle - ${1}"@, r"^Your Dazzle spell has worn off of ${1}\.$"@, r"^Your Dazzle spell has worn off\.$"@);
    }
}

proof fn lemma_find_group_same(gs: Seq<GroupView>, hs: Seq<GroupView>, p: spec_fn(GroupView) -> bool, from: int)
    requires
        0 <= from,
        gs.len() == hs.len(),
        forall|j: int| 0 <= j < gs.len() ==> p(#[trigger] gs[j]) == p(hs[j]),
    ensures
        find_group(gs, p, from) == find_group(hs, p, from),
    decreases gs.len() - from,
{
    if from < gs.len() {
        lemma_find_group_same(gs, hs, p, from + 1);
    }
}

proof fn lemma_dazzle_mez_fixed()
    ensures
        mez_patch(dazzle_mez()) == dazzle_mez(),
{
    lemma_capture_names();
    reveal_strlit("Dazzle");
    reveal_strlit("Glamour of Kintaz");
    reveal_strlit("Kintaz - ${1}");
    reveal_strlit("Dazzle - ${1}");
    reveal_strlit("Rapture");
    reveal_strlit("Dictate");
    reveal_strlit("Entrance");
    reveal_strlit("Enthrall");
    reveal_strlit("Fascination");
    reveal_strlit("Mesmerize");
    assert("Kintaz - ${1}"@[0] != "Dazzle - ${1}"@[0]);
    assert("Dazzle"@.len() == 6 && "Glamour of Kintaz"@.len() == 17 && "Rapture"@.len() == 7);
    assert("Dictate"@.len() == 7 && "Entrance"@.len() == 8 && "Enthrall"@.len() == 8);
    assert("Fascination"@.len() == 11 && "Mesmerize"@.len() == 9);
    let d = dazzle_mez();
    assert(d.early_end[0] == r"^Your Dazzle spell has worn off of ${1}\.$"@);
    assert(d.early_end[1] == r"^Your Dazzle spell has worn off\.$"@);
}

/// Aligning mez timers is idempotent: a second run changes nothing and reports no changes.
pub proof fn law_mez_timers_idempotent(gs: Seq<GroupView>)
    ensures
        mez_spec(mez_spec(gs).0) == (mez_spec(gs).0, 0nat),
{
    let f = mez_group_fn();
    let patched = map_group_views(gs, f);
    assert forall|t: TriggerView| #[trigger] mez_step_fn()(mez_step_fn()(t).0) == (mez_step_fn()(t).0, 0nat) by {
        lemma_mez_patch_settled(t);
    }
    lemma_dazzle_mez_fixed();
    assert forall|g: GroupView| #[trigger] f(f(g).0) == (f(g).0, 0nat) by {
        assert forall|j: int| 0 <= j < g.triggers.len() implies #[trigger] mez_step_fn()(mez_step_fn()(g.triggers[j]).0) == (mez_step_fn()(g.triggers[j]).0, 0nat) by {
            lemma_mez_patch_settled(g.triggers[j]);
        }
        lemma_triggers_settled(g.triggers, mez_step_fn());
        assert(f(f(g).0).0 =~~= f(g).0);
    }
    assert forall|i: int| 0 <= i < gs.len() implies #[trigger] f(f(gs[i]).0) == (f(gs[i]).0, 0nat) by {
        assert(f(f(gs[i]).0) == (f(gs[i]).0, 0nat));
    }
    lemma_groups_settled(gs, f);
    assert forall|j: int| 0 <= j < gs.len() implies is_cc_fn()(#[trigger] gs[j]) == is_cc_fn()(patched[j]) by {}
    lemma_find_group_same(gs, patched, is_cc_fn(), 0);
    lemma_find_group(gs, is_cc_fn(), 0);
    match find_group(gs, is_cc_fn(), 0) {
        Some(i) => {
            if find_trigger(patched[i].triggers, is_dazzle_fn(), 0) is None {
                let g1 = GroupView { triggers: patched[i].triggers.push(dazzle_mez()), ..patched[i] };
                let r = patched.update(i, g1);
                assert forall|j: int| 0 <= j < g1.triggers.len() implies #[trigger] mez_step_fn()(g1.triggers[j]) == (g1.triggers[j], 0nat) by {
                    if j < patched[i].triggers.len() {
                        let t0 = gs[i].triggers[j];
                        assert(g1.triggers[j] == mez_patch(t0));
                        lemma_mez_patch_settled(t0);
                    }
                }
                lemma_trigger_changes_zero(g1.triggers, mez_step_fn(), g1.triggers.len() as int);
                assert(map_trigger_views(g1.triggers, mez_step_fn()) =~= g1.triggers);
                assert(f(g1) == (g1, 0nat)) by {
                    assert(f(g1).0 =~~= g1);
                }
                assert forall|j: int| 0 <= j < r.len() implies (#[trigger] f(r[j])) == (r[j], 0nat) by {
                    if j != i {
                        assert(r[j] == patched[j]);
                        assert(f(f(gs[j]).0) == (f(gs[j]).0, 0nat));
                    }
                }
                lemma_group_changes_zero(r, f, r.len() as int);
                assert(map_group_views(r, f) =~= r);
                assert forall|j: int| 0 <= j < gs.len() implies is_cc_fn()(#[trigger] gs[j]) == is_cc_fn()(r[j]) by {}
                lemma_find_group_same(gs, r, is_cc_fn(), 0);
                assert(r[i].triggers[patched[i].triggers.len() as int] == dazzle_mez());
                lemma_find_trigger_some(r[i].triggers, is_dazzle_fn(), patched[i].triggers.len() as int);
            }
        },
        None => {},
    }
}

/// Your death line, an early-end shared by several timers.
pub open spec fn slain_line() -> Seq<char> {
    r"^You have been slain by (?:[^!]+)\!$"@
}

pub open spec fn aura_cd_search() -> Seq<char> {
    r"^(The gods have rendered you invulnerable|You are surrounded by a divine aura|You have finished memorizing Divine Aura)\.$"@
}

pub open spec fn barrier_search() -> Seq<char> {
    r"^You are surrounded by a divine barrier\.$"@
}

pub open spec fn barrier_fades() -> Seq<char> {
    r"^The barrier fades\.$"@
}

pub open spec fn invuln_note() -> Seq<char> {
    "EQL: 18s duration; 900s CD is a separate trigger"@
}

/// The 18-second Divine Aura duration timer.
pub open spec fn aura_duration() -> TriggerView {
    TriggerView {
        id: "eql-divine-aura-duration"@,
        name: "Divine Aura"@,
        enabled: true,
        search: r"^(The gods have rendered you invulnerable|You are surrounded by a divine aura)\.$"@,
        use_regex: true,
        display_text: None,
        timer_seconds: Some(18),
        timer_name: Some("Divine Aura"@),
        early_end: seq![r"^Your (aura fades|invulnerability fades)\.$"@, slain_line()],
        sound: None,
        speak: Some("Divine Aura"@),
        tts_enabled: true,
        comments: Some(invuln_note()),
    }
}

/// The 18-second Divine Barrier duration timer.
pub open spec fn barrier_duration() -> TriggerView {
    TriggerView {
        id: "eql-divine-barrier-duration"@,
        name: "Divine Barrier"@,
        enabled: true,
        search: barrier_search(),
        use_regex: true,
        display_text: None,
        timer_seconds: Some(18),
        timer_name: Some("Divine Barrier"@),
        early_end: seq![barrier_fades(), slain_line()],
        sound: None,
        speak: Some("Divine Barrier"@),
        tts_enabled: true,
        comments: Some(invuln_note()),
    }
}

/// The cooldown's search covers the EQL land lines; the barrier timer gets its lines.
pub open spec fn invuln_patch(t: TriggerView) -> TriggerView {
    let t1 = if t.name == "Divine Aura Cooldown"@ {
        TriggerView { search: aura_cd_search(), ..t }
    } else {
        t
    };
    if t1.name == "Divine Barrier"@ && t1.timer_seconds == Some(18u64) {
        TriggerView { search: barrier_search(), ..with_early_end(with_early_end(t1, barrier_fades()), slain_line()) }
    } else {
        t1
    }
}

pub open spec fn invuln_step_fn() -> spec_fn(TriggerView) -> (TriggerView, nat) {
    |t: TriggerView| counted(t, invuln_patch(t))
}

pub open spec fn is_aura_fn() -> spec_fn(TriggerView) -> bool {
    |t: TriggerView| t.id == "eql-divine-aura-duration"@ || (t.name == "Divine Aura"@ && t.timer_seconds == Some(18u64))
}

pub open spec fn is_barrier_fn() -> spec_fn(TriggerView) -> bool {
    |t: TriggerView|
        t.id == "eql-divine-barrier-duration"@ || t.id == "073b8ff8f8e8-1"@ || (t.name == "Divine Barrier"@
            && t.timer_seconds == Some(18u64))
}

pub open spec fn is_invuln_group(g: GroupView) -> bool {
    let n = to_lower(g.name);
    contains(n, "invulnerability"@) && (contains(n, "cleric"@) || contains(n, "paladin"@))
}

/// Cleric/Paladin invulnerability groups: patched triggers, then the aura duration timer
/// (and for clerics the barrier one) added when missing; and the count.
pub open spec fn invuln_group(g: GroupView) -> (GroupView, nat) {
    if !is_invuln_group(g) {
        (g, 0)
    } else {
        let ts1 = map_trigger_views(g.triggers, invuln_step_fn());
        let c1 = trigger_changes(g.triggers, invuln_step_fn(), g.triggers.len() as int);
        let (ts2, c2) = if find_trigger(ts1, is_aura_fn(), 0) is None {
            (ts1.push(aura_duration()), 1nat)
        } else {
            (ts1, 0nat)
        };
        let (ts3, c3) = if contains(to_lower(g.name), "cleric"@) && find_trigger(ts2, is_barrier_fn(), 0) is None {
            (ts2.push(barrier_duration()), 1nat)
        } else {
            (ts2, 0nat)
        };
        (GroupView { triggers: ts3, ..g }, c1 + c2 + c3)
    }
}

pub open spec fn invuln_group_fn() -> spec_fn(GroupView) -> (GroupView, nat) {
    |g: GroupView| invuln_group(g)
}

fn aura_duration_trigger() -> (r: Trigger)
    ensures
        r@ == aura_duration(),
{
    let r = Trigger {
        id: String::from_str("eql-divine-aura-duration"),
        name: String::from_str("Divine Aura"),
        enabled: true,
        search: String::from_str(r"^(The gods have rendered you invulnerable|You are surrounded by a divine aura)\.$"),
        use_regex: true,
        display_text: None,
        timer_seconds: Some(18),
        timer_name: Some(String::from_str("Divine Aura")),
        early_end: vec![
            String::from_str(r"^Your (aura fades|invulnerability fades)\.$"),
            String::from_str(r"^You have been slain by (?:[^!]+)\!$"),
        ],
        sound: None,
        speak: Some(String::from_str("Divine Aura")),
        tts_enabled: true,
        comments: Some(String::from_str("EQL: 18s duration; 900s CD is a separate trigger")),
    };
    assert(r@ =~~= aura_duration());
    r
}

fn barrier_duration_trigger() -> (r: Trigger)
    ensures
        r@ == barrier_duration(),
{
    let r = Trigger {
        id: String::from_str("eql-divine-barrier-duration"),
        name: String::from_str("Divine Barrier"),
        enabled: true,
        search: String::from_str(r"^You are surrounded by a divine barrier\.$"),
        use_regex: true,
        display_text: None,
        timer_seconds: Some(18),
        timer_name: Some(String::from_str("Divine Barrier")),
        early_end: vec![
            String::from_str(r"^The barrier fades\.$"),
            String::from_str(r"^You have been slain by (?:[^!]+)\!$"),
        ],
        sound: None,
        speak: Some(String::from_str("Divine Barrier")),
        tts_enabled: true,
        comments: Some(String::from_str("EQL: 18s duration; 900s CD is a separate trigger")),
    };
    assert(r@ =~~= barrier_duration());
    r
}

fn invuln_step_exec(t: &Trigger) -> (r: (Trigger, usize))
    ensures
        r.0@ == invuln_step_fn()(t@).0,
        r.1 as nat == invuln_step_fn()(t@).1,
{
    let mut out = t.duplicate();
    if is_text(&out.name, "Divine Aura Cooldown") {
        out.search = String::from_str(r"^(The gods have rendered you invulnerable|You are surrounded by a divine aura|You have finished memorizing Divine Aura)\.$");
    }
    if is_text(&out.name, "Divine Barrier") && out.timer_seconds == Some(18u64) {
        ensure_early_end(&mut out, r"^The barrier fades\.$");
        ensure_early_end(&mut out, r"^You have been slain by (?:[^!]+)\!$");
        out.search = String::from_str(r"^You are surrounded by a divine barrier\.$");
    }
    count_change(t, out)
}

fn aura_exec(t: &Trigger) -> (r: bool)
    ensures
        r == is_aura_fn()(t@),
{
    is_text(&t.id, "eql-divine-aura-duration") || (is_text(&t.name, "Divine Aura") && t.timer_seconds == Some(18u64))
}

fn barrier_exec(t: &Trigger) -> (r: bool)
    ensures
        r == is_barrier_fn()(t@),
{
    is_text(&t.id, "eql-divine-barrier-duration") || is_text(&t.id, "073b8ff8f8e8-1") || (is_text(
        &t.name,
        "Divine Barrier",
    ) && t.timer_seconds == Some(18u64))
}

fn invuln_group_exec(g: &TriggerGroup) -> (r: (TriggerGroup, usize))
    requires
        4 * g@.triggers.len() <= usize::MAX,
    ensures
        r.0@ == invuln_group_fn()(g@).0,
        r.1 as nat == invuln_group_fn()(g@).1,
{
    let invuln = lower_contains(&g.name, "invulnerability") && (lower_contains(&g.name, "cleric")
        || lower_contains(&g.name, "paladin"));
    if !invuln {
        return (g.duplicate(), 0);
    }
    proof {
        lemma_trigger_changes_le_one(g@.triggers, invuln_step_fn(), g@.triggers.len() as int);
    }
    let (ts, c1) = map_triggers(&g.triggers, &invuln_step_exec, Ghost(invuln_step_fn()));
    let mut ts = ts;
    let mut changed = c1;
    let ghost ts1 = trigger_views(ts@);
    if position_trigger(&ts, &aura_exec, Ghost(is_aura_fn())).is_none() {
        ts.push(aura_duration_trigger());
        assert(trigger_views(ts@) =~= ts1.push(aura_duration()));
        changed = changed + 1;
    }
    let ghost ts2 = trigger_views(ts@);
    if lower_contains(&g.name, "cleric") && position_trigger(&ts, &barrier_exec, Ghost(is_barrier_fn())).is_none() {
        ts.push(barrier_duration_trigger());
        assert(trigger_views(ts@) =~= ts2.push(barrier_duration()));
        changed = changed + 1;
    }
    let out = TriggerGroup { id: g.id.clone(), name: g.name.clone(), enabled: g.enabled, triggers: ts };
    assert(out@ =~~= invuln_group(g@).0);
    (out, changed)
}

/// Cleric/Paladin Divine Aura & Barrier: 18-second duration timers and the EQL land
/// lines.  Returns how many triggers changed or were added.
pub fn ensure_divine_invulnerability(library: &mut TriggerLibrary) -> (r: usize)
    requires
        countable(old(library)@),
    ensures
        final(library)@ == map_group_views(old(library)@, invuln_group_fn()),
        r as nat == group_changes(old(library)@, invuln_group_fn(), old(library)@.len() as int),
{
    proof {
        assert forall|g: GroupView| #[trigger] invuln_group_fn()(g).1 <= 4 * (g.triggers.len() + 1) by {
            lemma_trigger_changes_le_one(g.triggers, invuln_step_fn(), g.triggers.len() as int);
        }
    }
    map_groups(library, &invuln_group_exec, Ghost(invuln_group_fn()))
}

proof fn lemma_invuln_patch_settled(t: TriggerView)
    ensures
        invuln_patch(invuln_patch(t)) == invuln_patch(t),
        invuln_patch(t).id == t.id && invuln_patch(t).name == t.name && invuln_patch(t).timer_seconds == t.timer_seconds,
{
    let t1 = if t.name == "Divine Aura Cooldown"@ {
        TriggerView { search: aura_cd_search(), ..t }
    } else {
        t
    };
    lemma_with_early_end_has(t1, barrier_fades());
    lemma_with_early_end_has(with_early_end(t1, barrier_fades()), slain_line());
}

proof fn lemma_invuln_added_fixed()
    ensures
        invuln_patch(aura_duration()) == aura_duration(),
        invuln_patch(barrier_duration()) == barrier_duration(),
{
    reveal_strlit("Divine Aura");
    reveal_strlit("Divine Aura Cooldown");
    reveal_strlit("Divine Barrier");
    assert("Divine Aura"@.len() == 11 && "Divine Aura Cooldown"@.len() == 20 && "Divine Barrier"@.len() == 14);
    let b = barrier_duration();
    assert(b.early_end[0] == barrier_fades());
    assert(b.early_end[1] == slain_line());
}

proof fn lemma_find_trigger_prefix(ts: Seq<TriggerView>, us: Seq<TriggerView>, p: spec_fn(TriggerView) -> bool)
    requires
        ts.len() <= us.len(),
        us.take(ts.len() as int) == ts,
        find_trigger(ts, p, 0) is Some,
    ensures
        find_trigger(us, p, 0) is Some,
{
    lemma_find_trigger(ts, p, 0);
    let j = find_trigger(ts, p, 0)->0;
    assert(us[j] == us.take(ts.len() as int)[j]);
    lemma_find_trigger_some(us, p, j);
}

proof fn lemma_invuln_group_settled(g: GroupView)
    ensures
        invuln_group(invuln_group(g).0) == (invuln_group(g).0, 0nat),
{
    if is_invuln_group(g) {
        let f = invuln_step_fn();
        let ts1 = map_trigger_views(g.triggers, f);
        let g1 = invuln_group(g).0;
        let ts3 = g1.triggers;
        lemma_invuln_added_fixed();
        let ts2 = if find_trigger(ts1, is_aura_fn(), 0) is None {
            ts1.push(aura_duration())
        } else {
            ts1
        };
        assert(ts2.take(ts1.len() as int) =~= ts1);
        assert(ts3.take(ts2.len() as int) =~= ts2);
        assert(ts3.take(ts1.len() as int) =~= ts1);
        assert forall|j: int| 0 <= j < ts3.len() implies #[trigger] f(ts3[j]) == (ts3[j], 0nat) by {
            if j < ts1.len() {
                assert(ts3[j] == ts3.take(ts1.len() as int)[j]);
                lemma_invuln_patch_settled(g.triggers[j]);
            } else if j < ts2.len() {
                assert(ts3[j] == ts3.take(ts2.len() as int)[j]);
            }
        }
        lemma_trigger_changes_zero(ts3, f, ts3.len() as int);
        assert(map_trigger_views(ts3, f) =~= ts3);
        if find_trigger(ts1, is_aura_fn(), 0) is None {
            assert(ts2[ts1.len() as int] == aura_duration());
            assert(is_aura_fn()(aura_duration()));
            lemma_find_trigger_some(ts2, is_aura_fn(), ts1.len() as int);
        }
        lemma_find_trigger_prefix(ts2, ts3, is_aura_fn());
        if contains(to_lower(g.name), "cleric"@) {
            if find_trigger(ts2, is_barrier_fn(), 0) is None {
                assert(ts3[ts2.len() as int] == barrier_duration());
                assert(is_barrier_fn()(barrier_duration()));
                lemma_find_trigger_some(ts3, is_barrier_fn(), ts2.len() as int);
            } else {
                lemma_find_trigger_prefix(ts2, ts3, is_barrier_fn());
            }
        }
        assert(invuln_group(g1).0 =~~= g1);
    }
}

/// Ensuring the invulnerability timers is idempotent: a second run changes nothing and
/// reports no changes.
pub proof fn law_divine_invulnerability_idempotent(gs: Seq<GroupView>)
    ensures
        map_group_views(map_group_views(gs, invuln_group_fn()), invuln_group_fn()) == map_group_views(
            gs,
            invuln_group_fn(),
        ),
        group_changes(map_group_views(gs, invuln_group_fn()), invuln_group_fn(), gs.len() as int) == 0,
{
    assert forall|i: int| 0 <= i < gs.len() implies #[trigger] invuln_group_fn()(invuln_group_fn()(gs[i]).0) == (
        invuln_group_fn()(gs[i]).0,
        0nat,
    ) by {
        lemma_invuln_group_settled(gs[i]);
    }
    lemma_groups_settled(gs, invuln_group_fn());
}

/// Every trigger of the groups, in order.
pub open spec fn all_triggers(gs: Seq<GroupView>) -> Seq<TriggerView>
    decreases gs.len(),
{
    if gs.len() == 0 {
        Seq::empty()
    } else {
        all_triggers(gs.drop_last()) + gs.last().triggers
    }
}

/// The speak line recorded for `id`: the last trigger with that id and a non-empty
/// speak line wins.
pub open spec fn known_speak(src: Seq<TriggerView>, id: Seq<char>) -> Option<Seq<char>>
    decreases src.len(),
{
    if src.len() == 0 {
        None
    } else {
        let t = src.last();
        if t.id == id && (t.speak matches Some(s) && s.len() > 0) {
            t.speak
        } else {
            known_speak(src.drop_last(), id)
        }
    }
}

/// Bytes of a character in UTF-8.
pub open spec fn utf8_width(c: char) -> nat {
    let u = c as u32;
    if u < 0x80 {
        1
    } else if u < 0x800 {
        2
    } else if u < 0x10000 {
        3
    } else {
        4
    }
}

/// Bytes of a text in UTF-8 (`str::len`).
pub open spec fn utf8_len(s: Seq<char>) -> nat
    decreases s.len(),
{
    if s.len() == 0 {
        0
    } else {
        utf8_len(s.drop_last()) + utf8_width(s.last())
    }
}

/// A display text worth speaking: trimmed, non-empty, at most 64 bytes, no `<` or `{`.
pub open spec fn speakable_display(t: TriggerView) -> Option<Seq<char>> {
    match t.display_text {
        Some(d) => {
            let d2 = trim(d);
            if d2.len() > 0 && utf8_len(d2) <= 64 && !d2.contains('<') && !d2.contains('{') {
                Some(d2)
            } else {
                None
            }
        },
        None => None,
    }
}

/// A trigger without a speak line gets the known one for its id, else its display text
/// (when speakable), else its name; counted each time one is filled in.
pub open spec fn tts_step(t: TriggerView, src: Seq<TriggerView>) -> (TriggerView, nat) {
    let needs = match t.speak {
        Some(s) => is_blank(s),
        None => true,
    };
    if !needs {
        (t, 0)
    } else {
        let line = match known_speak(src, t.id) {
            Some(s) => s,
            None => match speakable_display(t) {
                Some(d) => d,
                None => t.name,
            },
        };
        (TriggerView { speak: Some(line), ..t }, 1)
    }
}

pub open spec fn tts_step_fn(src: Seq<TriggerView>) -> spec_fn(TriggerView) -> (TriggerView, nat) {
    |t: TriggerView| tts_step(t, src)
}

pub open spec fn tts_group_fn(src: Seq<TriggerView>) -> spec_fn(GroupView) -> (GroupView, nat) {
    |g: GroupView|
        (
            GroupView { triggers: map_trigger_views(g.triggers, tts_step_fn(src)), ..g },
            trigger_changes(g.triggers, tts_step_fn(src), g.triggers.len() as int),
        )
}

/// The speak lines consulted: the starter pack's, then the essentials'.
pub open spec fn speak_sources(pack: Seq<GroupView>) -> Seq<TriggerView> {
    all_triggers(pack) + all_triggers(essentials())
}

fn collect_triggers(groups: &Vec<TriggerGroup>, out: &mut Vec<Trigger>)
    ensures
        trigger_views(final(out)@) == trigger_views(old(out)@) + all_triggers(group_views(groups@)),
{
    let ghost gs = group_views(groups@);
    let ghost base = trigger_views(out@);
    let mut i: usize = 0;
    assert(gs.take(0) =~= Seq::<GroupView>::empty());
    assert(trigger_views(out@) =~= base + all_triggers(gs.take(0)));
    while i < groups.len()
        invariant
            i <= groups.len(),
            gs == group_views(groups@),
            trigger_views(out@) == base + all_triggers(gs.take(i as int)),
        decreases groups.len() - i,
    {
        let g = &groups[i];
        assert(g@ == gs[i as int]);
        let ghost mid = trigger_views(out@);
        let mut j: usize = 0;
        while j < g.triggers.len()
            invariant
                j <= g.triggers.len(),
                g@ == gs[i as int],
                trigger_views(out@) == mid + g@.triggers.take(j as int),
            decreases g.triggers.len() - j,
        {
            let ghost before = trigger_views(out@);
            out.push(g.triggers[j].duplicate());
            assert(trigger_views(out@) =~= before.push(g@.triggers[j as int]));
            assert(g@.triggers.take(j + 1) =~= g@.triggers.take(j as int).push(g@.triggers[j as int]));
            j += 1;
        }
        assert(g@.triggers.take(g.triggers.len() as int) =~= g@.triggers);
        assert(gs.take(i + 1).drop_last() =~= gs.take(i as int));
        assert(trigger_views(out@) =~= base + all_triggers(gs.take(i + 1)));
        i += 1;
    }
    assert(gs.take(groups.len() as int) =~= gs);
}

fn known_speak_exec(src: &Vec<Trigger>, id: &String) -> (r: Option<String>)
    ensures
        r.deep_view() == known_speak(trigger_views(src@), id@),
{
    let ghost sv = trigger_views(src@);
    let mut i: usize = src.len();
    assert(sv.take(i as int) =~= sv);
    while i > 0
        invariant
            i <= src.len(),
            sv == trigger_views(src@),
            known_speak(sv, id@) == known_speak(sv.take(i as int), id@),
        decreases i,
    {
        let t = &src[i - 1];
        assert(t@ == sv[i - 1]);
        assert(sv.take(i as int).last() == sv[i - 1]);
        assert(sv.take(i as int).drop_last() =~= sv.take(i - 1));
        if crate::model::same_string(&t.id, id) {
            match &t.speak {
                Some(s) => {
                    if !s.as_str().is_empty() {
                        return Some(s.clone());
                    }
                },
                None => {},
            }
        }
        i -= 1;
    }
    None
}

fn fits_64_bytes(v: &[char]) -> (r: bool)
    ensures
        r == (utf8_len(v@) <= 64),
{
    let mut total: usize = 0;
    let mut i: usize = 0;
    while i < v.len()
        invariant
            i <= v.len(),
            total as nat == utf8_len(v@.take(i as int)),
            total <= 64,
        decreases v.len() - i,
    {
        let u = v[i] as u32;
        let w: usize = if u < 0x80 {
            1
        } else if u < 0x800 {
            2
        } else if u < 0x10000 {
            3
        } else {
            4
        };
        assert(v@.take(i + 1).drop_last() =~= v@.take(i as int));
        total = total + w;
        i += 1;
        if total > 64 {
            proof {
                lemma_utf8_len_mono(v@, i as int, v@.len() as int);
                assert(v@.take(v@.len() as int) =~= v@);
            }
            return false;
        }
    }
    assert(v@.take(v.len() as int) =~= v@);
    true
}

proof fn lemma_utf8_len_mono(s: Seq<char>, m: int, n: int)
    requires
        0 <= m <= n <= s.len(),
    ensures
        utf8_len(s.take(m)) <= utf8_len(s.take(n)),
    decreases n - m,
{
    if m < n {
        lemma_utf8_len_mono(s, m, n - 1);
        assert(s.take(n).drop_last() =~= s.take(n - 1));
    }
}

fn has_char(v: &[char], c: char) -> (r: bool)
    ensures
        r == v@.contains(c),
{
    let mut i: usize = 0;
    while i < v.len()
        invariant
            i <= v.len(),
            forall|k: int| 0 <= k < i ==> v@[k] != c,
        decreases v.len() - i,
    {
        if v[i] == c {
            assert(v@[i as int] == c);
            return true;
        }
        i += 1;
    }
    false
}

fn speakable_display_exec(t: &Trigger) -> (r: Option<String>)
    ensures
        r.deep_view() == speakable_display(t@),
{
    match &t.display_text {
        Some(d) => {
            let d2 = crate::text::trim_chars(chars_of(d.as_str()).as_slice());
            if d2.len() > 0 && fits_64_bytes(d2.as_slice()) && !has_char(d2.as_slice(), '<') && !has_char(
                d2.as_slice(),
                '{',
            ) {
                Some(string_of(d2.as_slice()))
            } else {
                None
            }
        },
        None => None,
    }
}

fn tts_step_exec(t: &Trigger, src: &Vec<Trigger>) -> (r: (Trigger, usize))
    ensures
        r.0@ == tts_step(t@, trigger_views(src@)).0,
        r.1 as nat == tts_step(t@, trigger_views(src@)).1,
{
    let needs = match &t.speak {
        Some(x) => crate::text::is_blank_chars(chars_of(x.as_str()).as_slice()),
        None => true,
    };
    let mut out = t.duplicate();
    if !needs {
        return (out, 0);
    }
    let line = match known_speak_exec(src, &t.id) {
        Some(x) => x,
        None => match speakable_display_exec(t) {
            Some(d) => d,
            None => t.name.clone(),
        },
    };
    out.speak = Some(line);
    (out, 1)
}

/// Fills missing speak lines so every trigger can announce via TTS by default: the
/// line recorded for the trigger's id in the starter `pack` or the essentials (the
/// essentials win), else a short display text, else the trigger's name.  Returns how
/// many triggers got a line.
pub fn ensure_default_tts(library: &mut TriggerLibrary, pack: &TriggerLibrary) -> (r: usize)
    requires
        countable(old(library)@),
    ensures
        final(library)@ == map_group_views(old(library)@, tts_group_fn(speak_sources(pack@))),
        r as nat == group_changes(
            old(library)@,
            tts_group_fn(speak_sources(pack@)),
            old(library)@.len() as int,
        ),
{
    let mut src: Vec<Trigger> = Vec::new();
    collect_triggers(&pack.groups, &mut src);
    let ess = essentials_groups();
    collect_triggers(&ess, &mut src);
    let ghost sv = trigger_views(src@);
    assert(sv =~= speak_sources(pack@));
    let src_ref = &src;
    let step = |t: &Trigger| -> (r: (Trigger, usize))
        ensures
            r.0@ == tts_step_fn(trigger_views(src_ref@))(t@).0,
            r.1 as nat == tts_step_fn(trigger_views(src_ref@))(t@).1,
        { tts_step_exec(t, src_ref) };
    let step_ref = &step;
    let group_step = |g: &TriggerGroup| -> (r: (TriggerGroup, usize))
        requires
            4 * g@.triggers.len() <= usize::MAX,
        ensures
            r.0@ == tts_group_fn(trigger_views(src_ref@))(g@).0,
            r.1 as nat == tts_group_fn(trigger_views(src_ref@))(g@).1,
        {
            proof {
                assert forall|t: TriggerView| #[trigger] tts_step_fn(trigger_views(src_ref@))(t).1 <= 4 by {}
            }
            let (ts, c) = map_triggers(&g.triggers, step_ref, Ghost(tts_step_fn(trigger_views(src_ref@))));
            (TriggerGroup { id: g.id.clone(), name: g.name.clone(), enabled: g.enabled, triggers: ts }, c)
        };
    proof {
        assert forall|g: GroupView| #[trigger] tts_group_fn(trigger_views(src_ref@))(g).1 <= 4 * (g.triggers.len() + 1) by {
            lemma_trigger_changes_le_one(g.triggers, tts_step_fn(trigger_views(src_ref@)), g.triggers.len() as int);
        }
    }
    map_groups(library, &group_step, Ghost(tts_group_fn(sv)))
}

/// Filling in speak lines twice gives the same library as once (a trigger whose filled
/// line is blank is filled again with the same line, and counted again).
pub proof fn law_default_tts_settled(gs: Seq<GroupView>, pack: Seq<GroupView>)
    ensures
        map_group_views(map_group_views(gs, tts_group_fn(speak_sources(pack))), tts_group_fn(speak_sources(pack)))
            == map_group_views(gs, tts_group_fn(speak_sources(pack))),
{
    let src = speak_sources(pack);
    let f = tts_step_fn(src);
    let gf = tts_group_fn(src);
    let m = map_group_views(gs, gf);
    assert forall|i: int| 0 <= i < m.len() implies #[trigger] map_group_views(m, gf)[i] == m[i] by {
        let ts = gs[i].triggers;
        let m1 = map_trigger_views(ts, f);
        assert forall|j: int| 0 <= j < m1.len() implies #[trigger] map_trigger_views(m1, f)[j] == m1[j] by {
            assert(f(f(ts[j]).0).0 =~~= f(ts[j]).0);
        }
        assert(map_trigger_views(m1, f) =~= m1);
        assert(map_group_views(m, gf)[i] =~~= m[i]);
    }
    assert(map_group_views(m, gf) =~= m);
}

/// Demoting turns off exactly the essentials categories other than the legacy group and
/// Core, and touches nothing else (ids, names, triggers, other groups); each change is
/// one that was enabled; demoting twice changes nothing the second time.
pub proof fn law_demote_idempotent(gs: Seq<GroupView>)
    ensures
        map_group_views(gs, demote_fn()).len() == gs.len(),
        forall|i: int|
            0 <= i < gs.len() ==> {
                let g = gs[i];
                let o = #[trigger] map_group_views(gs, demote_fn())[i];
                &&& o == GroupView { enabled: o.enabled, ..g }
                &&& o.enabled == (g.enabled && !(is_essentials_group(g) && !is_legacy_essentials(g)
                    && !is_core_essentials(g)))
                &&& demote_fn()(g).1 == (if g.enabled && o != g { 1nat } else { 0nat })
            },
        map_group_views(map_group_views(gs, demote_fn()), demote_fn()) == map_group_views(gs, demote_fn()),
        group_changes(map_group_views(gs, demote_fn()), demote_fn(), gs.len() as int) == 0,
{
    assert forall|i: int| 0 <= i < gs.len() implies #[trigger] demote_fn()(demote_fn()(gs[i]).0) == (
        demote_fn()(gs[i]).0,
        0nat,
    ) by {}
    lemma_groups_settled(gs, demote_fn());
}

// ---------------------------------------------------------------------------
// Essentials categories.

/// The groups that `p` keeps, in order.
pub open spec fn keep_groups(gs: Seq<GroupView>, p: spec_fn(GroupView) -> bool) -> Seq<GroupView>
    decreases gs.len(),
{
    if gs.len() == 0 {
        Seq::empty()
    } else {
        let prev = keep_groups(gs.drop_last(), p);
        if p(gs.last()) {
            prev.push(gs.last())
        } else {
            prev
        }
    }
}

pub open spec fn not_legacy_fn() -> spec_fn(GroupView) -> bool {
    |g: GroupView| !is_legacy_essentials(g)
}

/// The existing group a fresh category merges into: same id or same name.
pub open spec fn same_category_fn(f: GroupView) -> spec_fn(GroupView) -> bool {
    |g: GroupView| g.id == f.id || g.name == f.name
}

/// The first `n` fresh triggers appended where their id is missing, and how many were.
pub open spec fn add_missing(ts: Seq<TriggerView>, fresh: Seq<TriggerView>, n: int) -> (Seq<TriggerView>, nat)
    decreases n,
{
    if n <= 0 {
        (ts, 0)
    } else {
        let (prev, c) = add_missing(ts, fresh, n - 1);
        let f = fresh[n - 1];
        if find_trigger(prev, id_is(f.id), 0) is Some {
            (prev, c)
        } else {
            (prev.push(f), c + 1)
        }
    }
}

/// One fresh category merged in: the existing one takes its id and name, is armed for
/// gameplay categories and gains missing triggers; otherwise it is inserted in front.
pub open spec fn merge_category(gs: Seq<GroupView>, f: GroupView) -> (Seq<GroupView>, nat) {
    match find_group(gs, same_category_fn(f), 0) {
        Some(i) => {
            let e = gs[i];
            let (ts, c) = add_missing(e.triggers, f.triggers, f.triggers.len() as int);
            (
                gs.update(
                    i,
                    GroupView {
                        id: f.id,
                        name: f.name,
                        enabled: if is_gameplay_essentials(f) {
                            true
                        } else {
                            e.enabled
                        },
                        triggers: ts,
                    },
                ),
                c,
            )
        },
        None => (seq![f] + gs, f.triggers.len()),
    }
}

/// Fresh categories `n - 1` down to `0` merged in, that order.
pub open spec fn merge_categories(gs: Seq<GroupView>, fresh: Seq<GroupView>, n: int) -> (Seq<GroupView>, nat)
    decreases n,
{
    if n <= 0 {
        (gs, 0)
    } else {
        let (g1, c1) = merge_category(gs, fresh[n - 1]);
        let (g2, c2) = merge_categories(g1, fresh, n - 1);
        (g2, c1 + c2)
    }
}

/// An essentials category (not the legacy flat group).
pub open spec fn current_essentials_fn() -> spec_fn(GroupView) -> bool {
    |g: GroupView| is_essentials_group(g) && !is_legacy_essentials(g)
}

pub open spec fn other_groups_fn() -> spec_fn(GroupView) -> bool {
    |g: GroupView| !(is_essentials_group(g) && !is_legacy_essentials(g))
}

/// Position of the category's id among the built-in ones.
pub open spec fn category_rank(g: GroupView) -> Option<int> {
    find_group(essentials(), same_id_fn(g.id), 0)
}

pub open spec fn same_id_fn(id: Seq<char>) -> spec_fn(GroupView) -> bool {
    |f: GroupView| f.id == id
}

pub open spec fn rank_is(k: int) -> spec_fn(GroupView) -> bool {
    |g: GroupView| category_rank(g) == Some(k)
}

pub open spec fn unranked_fn() -> spec_fn(GroupView) -> bool {
    |g: GroupView| category_rank(g) is None
}

/// Stable sort by built-in position, unknown categories last: the groups of rank `k`,
/// then of the later ranks, then the unranked.
pub open spec fn sort_by_rank(gs: Seq<GroupView>, k: int) -> Seq<GroupView>
    decreases 5 - k,
{
    if k >= 5 || k < 0 {
        keep_groups(gs, unranked_fn())
    } else {
        keep_groups(gs, rank_is(k)) + sort_by_rank(gs, k + 1)
    }
}

/// Gameplay categories armed.
pub open spec fn arm_gameplay(g: GroupView) -> GroupView {
    if is_gameplay_essentials(g) {
        GroupView { enabled: true, ..g }
    } else {
        g
    }
}

/// Some trigger of `ts` has the id `id`.
pub open spec fn has_trigger_id(ts: Seq<TriggerView>, id: Seq<char>) -> bool {
    exists|m: int| 0 <= m < ts.len() && (#[trigger] ts[m]).id == id
}

/// `g` is the built-in category `f` (its id and name) and carries each of its triggers.
pub open spec fn category_complete(g: GroupView, f: GroupView) -> bool {
    &&& g.id == f.id
    &&& g.name == f.name
    &&& forall|j: int| 0 <= j < f.triggers.len() ==> has_trigger_id(g.triggers, (#[trigger] f.triggers[j]).id)
}

/// Some group of `gs` is the complete category `f`.
pub open spec fn has_category(gs: Seq<GroupView>, f: GroupView) -> bool {
    exists|q: int| 0 <= q < gs.len() && category_complete(#[trigger] gs[q], f)
}

proof fn lemma_add_missing_has(ts: Seq<TriggerView>, fresh: Seq<TriggerView>, n: int)
    requires
        0 <= n <= fresh.len(),
    ensures
        forall|j: int| 0 <= j < n ==> has_trigger_id(add_missing(ts, fresh, n).0, (#[trigger] fresh[j]).id),
        forall|m: int| 0 <= m < ts.len() ==> has_trigger_id(add_missing(ts, fresh, n).0, (#[trigger] ts[m]).id),
    decreases n,
{
    if n > 0 {
        lemma_add_missing_has(ts, fresh, n - 1);
        let prev = add_missing(ts, fresh, n - 1).0;
        let f = fresh[n - 1];
        let out = add_missing(ts, fresh, n).0;
        lemma_find_trigger(prev, id_is(f.id), 0);
        if find_trigger(prev, id_is(f.id), 0) is None {
            assert(out == prev.push(f));
            assert forall|id: Seq<char>| has_trigger_id(prev, id) implies has_trigger_id(out, id) by {
                let m = choose|m: int| 0 <= m < prev.len() && (#[trigger] prev[m]).id == id;
                assert(out[m] == prev[m]);
            }
            assert(out[prev.len() as int] == f);
        } else {
            let i = find_trigger(prev, id_is(f.id), 0)->0;
            assert(prev[i].id == f.id);
        }
    } else {
        assert forall|m: int| 0 <= m < ts.len() implies has_trigger_id(add_missing(ts, fresh, 0).0, (#[trigger] ts[m]).id) by {
            assert(add_missing(ts, fresh, 0).0[m] == ts[m]);
        }
    }
}

/// The built-in categories have distinct ids and names, none of them the legacy ones.
proof fn lemma_categories_distinct()
    ensures
        forall|j: int, k: int|
            0 <= j < 5 && 0 <= k < 5 && j != k ==> (#[trigger] essentials()[j]).id != (#[trigger] essentials()[k]).id
                && essentials()[j].name != essentials()[k].name,
        forall|k: int| 0 <= k < 5 ==> !is_legacy_essentials(#[trigger] essentials()[k]),
        forall|k: int| 0 <= k < 5 ==> is_essentials_group(#[trigger] essentials()[k]),
        essentials().len() == 5,
{
    reveal_strlit("eql-essentials-core");
    reveal_strlit("eql-essentials-combat");
    reveal_strlit("eql-essentials-danger");
    reveal_strlit("eql-essentials-fades");
    reveal_strlit("eql-essentials-social");
    reveal_strlit("EQL Essentials / Core");
    reveal_strlit("EQL Essentials / Combat");
    reveal_strlit("EQL Essentials / Danger");
    reveal_strlit("EQL Essentials / Fades");
    reveal_strlit("EQL Essentials / Social");
    reveal_strlit("eql-essentials");
    reveal_strlit("EQL Essentials");
    let e = essentials();
    assert(e[0] == essentials_core() && e[1] == essentials_combat() && e[2] == essentials_danger());
    assert(e[3] == essentials_fades() && e[4] == essentials_social());
    assert(e[0].id.len() == 19 && e[1].id.len() == 21 && e[2].id.len() == 21 && e[3].id.len() == 20
        && e[4].id.len() == 21);
    assert(e[0].name.len() == 21 && e[1].name.len() == 23 && e[2].name.len() == 23 && e[3].name.len() == 22
        && e[4].name.len() == 23);
    assert("eql-essentials"@.len() == 14 && "EQL Essentials"@.len() == 14);
    assert(e[1].id[15] != e[2].id[15] && e[1].id[15] != e[4].id[15] && e[2].id[15] != e[4].id[15]);
    assert(e[1].name[17] != e[2].name[17] && e[1].name[17] != e[4].name[17] && e[2].name[17] != e[4].name[17]);
    assert forall|j: int, k: int|
        0 <= j < 5 && 0 <= k < 5 && j != k implies (#[trigger] essentials()[j]).id != (#[trigger] essentials()[k]).id
            && essentials()[j].name != essentials()[k].name by {
        if e[j].id.len() == e[k].id.len() {
            assert(e[j].id[15] != e[k].id[15]);
        }
        if e[j].name.len() == e[k].name.len() {
            assert(e[j].name[17] != e[k].name[17]);
        }
    }
    assert forall|k: int| 0 <= k < 5 implies is_essentials_group(#[trigger] essentials()[k]) by {
        assert(essentials()[k].id.take(14) =~= "eql-essentials"@);
    }
}

proof fn lemma_merge_category_has(gs: Seq<GroupView>, f: GroupView, f2: GroupView)
    ensures
        has_category(merge_category(gs, f).0, f),
        f2.id != f.id && f2.name != f.name && has_category(gs, f2) ==> has_category(merge_category(gs, f).0, f2),
        (forall|i: int| 0 <= i < gs.len() ==> !is_legacy_essentials(#[trigger] gs[i])) && !is_legacy_essentials(f)
            ==> forall|i: int| 0 <= i < merge_category(gs, f).0.len() ==> !is_legacy_essentials(
            #[trigger] merge_category(gs, f).0[i],
        ),
{
    let out = merge_category(gs, f).0;
    lemma_find_group(gs, same_category_fn(f), 0);
    match find_group(gs, same_category_fn(f), 0) {
        Some(i) => {
            let e = gs[i];
            lemma_add_missing_has(e.triggers, f.triggers, f.triggers.len() as int);
            assert(category_complete(out[i], f));
            if f2.id != f.id && f2.name != f.name && has_category(gs, f2) {
                let q = choose|q: int| 0 <= q < gs.len() && category_complete(#[trigger] gs[q], f2);
                assert(q != i);
                assert(out[q] == gs[q]);
            }
            assert forall|k: int| 0 <= k < out.len() && k != i implies #[trigger] out[k] == gs[k] by {}
        },
        None => {
            assert(out == seq![f] + gs);
            assert(category_complete(out[0], f)) by {
                assert forall|j: int| 0 <= j < f.triggers.len() implies has_trigger_id(
                    out[0].triggers,
                    (#[trigger] f.triggers[j]).id,
                ) by {
                    assert(out[0].triggers[j] == f.triggers[j]);
                }
            }
            if f2.id != f.id && f2.name != f.name && has_category(gs, f2) {
                let q = choose|q: int| 0 <= q < gs.len() && category_complete(#[trigger] gs[q], f2);
                assert(out[q + 1] == gs[q]);
            }
            assert forall|k: int| 1 <= k < out.len() implies #[trigger] out[k] == gs[k - 1] by {}
        },
    }
}

proof fn lemma_merge_categories_keeps(gs: Seq<GroupView>, n: int, f2: GroupView)
    requires
        0 <= n <= 5,
        forall|k: int| 0 <= k < n ==> (#[trigger] essentials()[k]).id != f2.id && essentials()[k].name != f2.name,
    ensures
        has_category(gs, f2) ==> has_category(merge_categories(gs, essentials(), n).0, f2),
    decreases n,
{
    if n > 0 {
        let g1 = merge_category(gs, essentials()[n - 1]).0;
        lemma_merge_category_has(gs, essentials()[n - 1], f2);
        lemma_merge_categories_keeps(g1, n - 1, f2);
    }
}

proof fn lemma_merge_categories_has(gs: Seq<GroupView>, n: int)
    requires
        0 <= n <= 5,
    ensures
        forall|k: int| 0 <= k < n ==> has_category(merge_categories(gs, essentials(), n).0, #[trigger] essentials()[k]),
        (forall|i: int| 0 <= i < gs.len() ==> !is_legacy_essentials(#[trigger] gs[i])) ==> forall|i: int|
            0 <= i < merge_categories(gs, essentials(), n).0.len() ==> !is_legacy_essentials(
                #[trigger] merge_categories(gs, essentials(), n).0[i],
            ),
    decreases n,
{
    if n > 0 {
        lemma_categories_distinct();
        let f = essentials()[n - 1];
        let g1 = merge_category(gs, f).0;
        lemma_merge_category_has(gs, f, f);
        lemma_merge_categories_has(g1, n - 1);
        lemma_merge_categories_keeps(g1, n - 1, f);
    }
}

proof fn lemma_keep_groups_members(gs: Seq<GroupView>, p: spec_fn(GroupView) -> bool)
    ensures
        forall|i: int|
            0 <= i < keep_groups(gs, p).len() ==> p(#[trigger] keep_groups(gs, p)[i]) && gs.contains(
                keep_groups(gs, p)[i],
            ),
        forall|i: int| 0 <= i < gs.len() && p(#[trigger] gs[i]) ==> keep_groups(gs, p).contains(gs[i]),
    decreases gs.len(),
{
    if gs.len() > 0 {
        let init = gs.drop_last();
        lemma_keep_groups_members(init, p);
        let prev = keep_groups(init, p);
        let out = keep_groups(gs, p);
        assert forall|i: int| 0 <= i < out.len() implies p(#[trigger] out[i]) && gs.contains(out[i]) by {
            if i < prev.len() {
                assert(out[i] == prev[i]);
                let w = choose|w: int| 0 <= w < init.len() && init[w] == prev[i];
                assert(gs[w] == init[w]);
            } else {
                assert(out[i] == gs.last());
                assert(gs[gs.len() - 1] == gs.last());
            }
        }
        assert forall|i: int| 0 <= i < gs.len() && p(#[trigger] gs[i]) implies out.contains(gs[i]) by {
            if i < gs.len() - 1 {
                assert(gs[i] == init[i]);
                let w = choose|w: int| 0 <= w < prev.len() && prev[w] == init[i];
                assert(out[w] == prev[w]);
            } else {
                assert(out[out.len() - 1] == gs.last());
            }
        }
    }
}

proof fn lemma_sort_members(gs: Seq<GroupView>, k: int)
    requires
        0 <= k <= 5,
    ensures
        forall|i: int| 0 <= i < sort_by_rank(gs, k).len() ==> gs.contains(#[trigger] sort_by_rank(gs, k)[i]),
        forall|x: GroupView|
            gs.contains(x) && (category_rank(x) matches Some(r) ==> k <= r) ==> #[trigger] sort_by_rank(gs, k).contains(
                x,
            ),
    decreases 5 - k,
{
    if k >= 5 {
        lemma_keep_groups_members(gs, unranked_fn());
        assert forall|x: GroupView| gs.contains(x) && (category_rank(x) matches Some(r) ==> k <= r) implies #[trigger] sort_by_rank(
            gs,
            k,
        ).contains(x) by {
            lemma_find_group(essentials(), same_id_fn(x.id), 0);
            let w = choose|w: int| 0 <= w < gs.len() && gs[w] == x;
            assert(unranked_fn()(gs[w]));
        }
    } else {
        lemma_keep_groups_members(gs, rank_is(k));
        lemma_sort_members(gs, k + 1);
        let a = keep_groups(gs, rank_is(k));
        let b = sort_by_rank(gs, k + 1);
        let out = sort_by_rank(gs, k);
        assert(out == a + b);
        assert forall|i: int| 0 <= i < out.len() implies gs.contains(#[trigger] out[i]) by {
            if i < a.len() {
                assert(out[i] == a[i]);
            } else {
                assert(out[i] == b[i - a.len()]);
            }
        }
        assert forall|x: GroupView| gs.contains(x) && (category_rank(x) matches Some(r) ==> k <= r) implies #[trigger] out.contains(
            x,
        ) by {
            let w = choose|w: int| 0 <= w < gs.len() && gs[w] == x;
            if category_rank(x) == Some(k) {
                assert(rank_is(k)(gs[w]));
                let v = choose|v: int| 0 <= v < a.len() && a[v] == gs[w];
                assert(out[v] == a[v]);
            } else {
                assert(b.contains(x));
                let v = choose|v: int| 0 <= v < b.len() && b[v] == x;
                assert(out[a.len() + v] == b[v]);
            }
        }
    }
}

/// Some group of `gs` is the complete category `f`, armed if `f` is a gameplay category.
pub open spec fn has_armed_category(gs: Seq<GroupView>, f: GroupView) -> bool {
    exists|q: int|
        0 <= q < gs.len() && category_complete(#[trigger] gs[q], f) && (is_gameplay_essentials(f) ==> gs[q].enabled)
}

/// `ensure_essentials` leaves no legacy flat group, and every built-in category is
/// present (its id and name) with each of its built-in triggers; the gameplay
/// categories (Core, Combat, Danger, Fades) are armed.
pub proof fn law_essentials_complete(gs: Seq<GroupView>)
    ensures
        ({
            let r = essentials_spec(gs).0;
            &&& forall|i: int| 0 <= i < r.len() ==> !is_legacy_essentials(#[trigger] r[i])
            &&& forall|k: int| 0 <= k < 5 ==> has_armed_category(r, #[trigger] essentials()[k])
        }),
{
    lemma_categories_distinct();
    let s0 = keep_groups(gs, not_legacy_fn());
    lemma_keep_groups_members(gs, not_legacy_fn());
    assert forall|i: int| 0 <= i < s0.len() implies !is_legacy_essentials(#[trigger] s0[i]) by {
        assert(not_legacy_fn()(s0[i]));
    }
    let merged = merge_categories(s0, essentials(), 5).0;
    lemma_merge_categories_has(s0, 5);
    let cur = keep_groups(merged, current_essentials_fn());
    lemma_keep_groups_members(merged, current_essentials_fn());
    let ess = sort_by_rank(cur, 0);
    lemma_sort_members(cur, 0);
    let rest = keep_groups(merged, other_groups_fn());
    lemma_keep_groups_members(merged, other_groups_fn());
    let armed = ess.map_values(|g: GroupView| arm_gameplay(g));
    let r = essentials_spec(gs).0;
    assert(r == armed + rest);
    assert forall|i: int| 0 <= i < r.len() implies !is_legacy_essentials(#[trigger] r[i]) by {
        if i < armed.len() {
            assert(r[i] == arm_gameplay(ess[i]));
            assert(cur.contains(ess[i]));
            let w = choose|w: int| 0 <= w < cur.len() && cur[w] == ess[i];
            assert(current_essentials_fn()(cur[w]));
        } else {
            assert(r[i] == rest[i - armed.len()]);
            let w = choose|w: int| 0 <= w < merged.len() && merged[w] == rest[i - armed.len()];
            assert(!is_legacy_essentials(merged[w]));
        }
    }
    assert forall|k: int| 0 <= k < 5 implies has_armed_category(r, #[trigger] essentials()[k]) by {
        let f = essentials()[k];
        assert(has_category(merged, f));
        let w = choose|w: int| 0 <= w < merged.len() && category_complete(#[trigger] merged[w], f);
        let g = merged[w];
        assert(is_essentials_group(f));
        assert(current_essentials_fn()(g));
        assert(cur.contains(g));
        lemma_find_group(essentials(), same_id_fn(g.id), 0);
        assert(sort_by_rank(cur, 0).contains(g));
        let v = choose|v: int| 0 <= v < ess.len() && ess[v] == g;
        assert(r[v] == arm_gameplay(ess[v]));
        assert(category_complete(r[v], f));
    }
}

/// `ensure_essentials`: the legacy flat group dropped, the built-in categories merged
/// in, the essentials moved to the front in built-in order with gameplay categories
/// armed; and the count (one for the dropped legacy group, one per added trigger).
pub open spec fn essentials_spec(gs: Seq<GroupView>) -> (Seq<GroupView>, nat) {
    let s0 = keep_groups(gs, not_legacy_fn());
    let c0: nat = if s0.len() != gs.len() {
        1
    } else {
        0
    };
    let (merged, c1) = merge_categories(s0, essentials(), 5);
    let ess = sort_by_rank(keep_groups(merged, current_essentials_fn()), 0);
    let rest = keep_groups(merged, other_groups_fn());
    (ess.map_values(|g: GroupView| arm_gameplay(g)) + rest, c0 + c1)
}

/// The groups the exec predicate `f` (deciding `p`) keeps, copied in order.
fn keep_groups_exec<F: Fn(&TriggerGroup) -> bool>(
    groups: &Vec<TriggerGroup>,
    f: &F,
    Ghost(p): Ghost<spec_fn(GroupView) -> bool>,
) -> (r: Vec<TriggerGroup>)
    requires
        forall|g: &TriggerGroup| #[trigger] f.requires((g,)),
        forall|g: &TriggerGroup, b: bool| #[trigger] f.ensures((g,), b) ==> b == p(g@),
    ensures
        group_views(r@) == keep_groups(group_views(groups@), p),
{
    let ghost gs = group_views(groups@);
    let mut out: Vec<TriggerGroup> = Vec::new();
    let mut i: usize = 0;
    assert(gs.take(0) =~= Seq::<GroupView>::empty());
    assert(group_views(out@) =~= keep_groups(gs.take(0), p));
    while i < groups.len()
        invariant
            i <= groups.len(),
            gs == group_views(groups@),
            forall|g: &TriggerGroup| #[trigger] f.requires((g,)),
            forall|g: &TriggerGroup, b: bool| #[trigger] f.ensures((g,), b) ==> b == p(g@),
            group_views(out@) == keep_groups(gs.take(i as int), p),
        decreases groups.len() - i,
    {
        assert(gs.take(i + 1).drop_last() =~= gs.take(i as int));
        assert(groups@[i as int]@ == gs[i as int]);
        if f(&groups[i]) {
            let ghost before = group_views(out@);
            out.push(groups[i].duplicate());
            assert(group_views(out@) =~= before.push(gs[i as int]));
        }
        i += 1;
    }
    assert(gs.take(groups.len() as int) =~= gs);
    out
}

proof fn lemma_add_missing_le(ts: Seq<TriggerView>, fresh: Seq<TriggerView>, n: int)
    requires
        0 <= n,
    ensures
        add_missing(ts, fresh, n).1 <= n,
    decreases n,
{
    if n > 0 {
        lemma_add_missing_le(ts, fresh, n - 1);
    }
}

fn merge_category_exec(groups: &mut Vec<TriggerGroup>, f: &TriggerGroup) -> (r: usize)
    ensures
        (group_views(final(groups)@), r as nat) == merge_category(group_views(old(groups)@), f@),
{
    let ghost gs = group_views(groups@);
    let fid = &f.id;
    let fname = &f.name;
    let same = |g: &TriggerGroup| -> (r: bool)
        ensures
            r == same_category_fn(f@)(g@),
        { crate::model::same_string(&g.id, fid) || crate::model::same_string(&g.name, fname) };
    match position_group(groups, &same, Ghost(same_category_fn(f@))) {
        Some(i) => {
            proof {
                lemma_find_group(gs, same_category_fn(f@), 0);
            }
            let mut e = groups[i].duplicate();
            let ghost e0 = e@;
            assert(e0 == gs[i as int]);
            e.id = f.id.clone();
            e.name = f.name.clone();
            if gameplay_essentials_exec(f) {
                e.enabled = true;
            }
            let mut changed: usize = 0;
            let mut k: usize = 0;
            while k < f.triggers.len()
                invariant
                    k <= f.triggers.len(),
                    e@.id == f@.id && e@.name == f@.name,
                    e@.enabled == (if is_gameplay_essentials(f@) { true } else { e0.enabled }),
                    (e@.triggers, changed as nat) == add_missing(e0.triggers, f@.triggers, k as int),
                    changed <= k,
                decreases f.triggers.len() - k,
            {
                let ft = &f.triggers[k];
                assert(ft@ == f@.triggers[k as int]);
                if !has_id_exec(&e.triggers, &ft.id) {
                    let ghost before = e@.triggers;
                    e.triggers.push(ft.duplicate());
                    assert(e@.triggers =~= before.push(ft@));
                    changed = changed + 1;
                }
                k += 1;
            }
            groups.set(i, e);
            assert(group_views(groups@) =~= merge_category(gs, f@).0);
            changed
        },
        None => {
            groups.insert(0, f.duplicate());
            assert(group_views(groups@) =~= seq![f@] + gs);
            f.triggers.len()
        },
    }
}

fn rank_exec(g: &TriggerGroup, fresh: &Vec<TriggerGroup>) -> (r: Option<usize>)
    requires
        group_views(fresh@) == essentials(),
    ensures
        r matches Some(k) ==> category_rank(g@) == Some(k as int),
        r is None ==> category_rank(g@) is None,
{
    let gid = &g.id;
    let same = |f: &TriggerGroup| -> (r: bool)
        ensures
            r == same_id_fn(g@.id)(f@),
        { crate::model::same_string(&f.id, gid) };
    position_group(fresh, &same, Ghost(same_id_fn(g@.id)))
}

proof fn lemma_keep_groups_len(gs: Seq<GroupView>, p: spec_fn(GroupView) -> bool)
    ensures
        keep_groups(gs, p).len() <= gs.len(),
    decreases gs.len(),
{
    if gs.len() > 0 {
        lemma_keep_groups_len(gs.drop_last(), p);
    }
}

proof fn lemma_merge_categories_le(gs: Seq<GroupView>, fresh: Seq<GroupView>, n: int)
    requires
        0 <= n <= fresh.len(),
    ensures
        merge_categories(gs, fresh, n).1 <= triggers_upto(fresh, n),
    decreases n,
{
    if n > 0 {
        let f = fresh[n - 1];
        match find_group(gs, same_category_fn(f), 0) {
            Some(i) => {
                lemma_add_missing_le(gs[i].triggers, f.triggers, f.triggers.len() as int);
            },
            None => {},
        }
        lemma_merge_categories_le(merge_category(gs, f).0, fresh, n - 1);
    }
}

/// Inserts missing built-in essentials categories and triggers, keeping user edits;
/// drops the old flat `EQL Essentials` group; puts the essentials first in built-in
/// order with the gameplay categories armed.  Returns one for a dropped legacy group
/// plus the number of triggers added.
pub fn ensure_essentials(library: &mut TriggerLibrary) -> (r: usize)
    ensures
        (final(library)@, r as nat) == essentials_spec(old(library)@),
{
    let ghost gs = library@;
    let fresh = essentials_groups();
    let not_legacy = |g: &TriggerGroup| -> (r: bool)
        ensures
            r == not_legacy_fn()(g@),
        { !legacy_essentials_exec(g) };
    let mut groups = keep_groups_exec(&library.groups, &not_legacy, Ghost(not_legacy_fn()));
    let ghost s0 = group_views(groups@);
    let mut changed: usize = if groups.len() != library.groups.len() {
        1
    } else {
        0
    };
    proof {
        reveal_with_fuel(triggers_upto, 6);
        lemma_merge_categories_le(s0, essentials(), 5);
    }
    assert(essentials_core().triggers.len() == 8);
    assert(essentials_combat().triggers.len() == 8);
    assert(essentials_danger().triggers.len() == 11);
    assert(essentials_fades().triggers.len() == 3);
    assert(essentials_social().triggers.len() == 5);
    assert(triggers_upto(essentials(), 5) == 35);
    assert(fresh@.len() == group_views(fresh@).len());
    let mut k: usize = fresh.len();
    while k > 0
        invariant
            k <= 5,
            fresh@.len() == 5,
            group_views(fresh@) == essentials(),
            changed <= 1 + triggers_upto(essentials(), 5) - triggers_upto(essentials(), k as int),
            triggers_upto(essentials(), 5) == 35,
            merge_categories(s0, essentials(), 5).0 == merge_categories(group_views(groups@), essentials(), k as int).0,
            merge_categories(s0, essentials(), 5).1 + (if s0.len() != gs.len() { 1nat } else { 0nat })
                == changed + merge_categories(group_views(groups@), essentials(), k as int).1,
        decreases k,
    {
        proof {
            lemma_triggers_upto_le(essentials(), k - 1, k as int);
            lemma_add_missing_le(Seq::empty(), Seq::empty(), 0);
        }
        assert(fresh@[k - 1]@ == essentials()[k - 1]);
        let ghost before = group_views(groups@);
        let c = merge_category_exec(&mut groups, &fresh[k - 1]);
        proof {
            let f = essentials()[k - 1];
            match find_group(before, same_category_fn(f), 0) {
                Some(i) => {
                    lemma_find_group(before, same_category_fn(f), 0);
                    lemma_add_missing_le(before[i].triggers, f.triggers, f.triggers.len() as int);
                },
                None => {},
            }
            assert(triggers_upto(essentials(), k as int) == triggers_upto(essentials(), k - 1) + f.triggers.len());
        }
        changed = changed + c;
        k -= 1;
    }
    let ghost merged = group_views(groups@);
    let current = |g: &TriggerGroup| -> (r: bool)
        ensures
            r == current_essentials_fn()(g@),
        { essentials_group_exec(g) && !legacy_essentials_exec(g) };
    let others = |g: &TriggerGroup| -> (r: bool)
        ensures
            r == other_groups_fn()(g@),
        { !(essentials_group_exec(g) && !legacy_essentials_exec(g)) };
    let ess = keep_groups_exec(&groups, &current, Ghost(current_essentials_fn()));
    let rest = keep_groups_exec(&groups, &others, Ghost(other_groups_fn()));
    let ghost ev = group_views(ess@);
    let fresh_ref = &fresh;
    let mut sorted: Vec<TriggerGroup> = Vec::new();
    let mut rank: usize = 0;
    while rank < 5
        invariant
            rank <= 5,
            group_views(fresh_ref@) == essentials(),
            ev == group_views(ess@),
            sort_by_rank(ev, 0) == group_views(sorted@) + sort_by_rank(ev, rank as int),
        decreases 5 - rank,
    {
        let at_rank = |g: &TriggerGroup| -> (r: bool)
            ensures
                r == rank_is(rank as int)(g@),
            {
                match rank_exec(g, fresh_ref) {
                    Some(x) => x == rank,
                    None => false,
                }
            };
        let part = keep_groups_exec(&ess, &at_rank, Ghost(rank_is(rank as int)));
        let ghost before = group_views(sorted@);
        let mut part = part;
        sorted.append(&mut part);
        assert(group_views(sorted@) =~= before + keep_groups(ev, rank_is(rank as int)));
        rank += 1;
    }
    let unranked = |g: &TriggerGroup| -> (r: bool)
        ensures
            r == unranked_fn()(g@),
        { rank_exec(g, fresh_ref).is_none() };
    let mut tail = keep_groups_exec(&ess, &unranked, Ghost(unranked_fn()));
    let ghost before_tail = group_views(sorted@);
    sorted.append(&mut tail);
    assert(group_views(sorted@) =~= sort_by_rank(ev, 0));
    let ghost sv = group_views(sorted@);
    let mut out: Vec<TriggerGroup> = Vec::new();
    let mut i: usize = 0;
    while i < sorted.len()
        invariant
            i <= sorted.len(),
            sv == group_views(sorted@),
            group_views(out@) == sv.take(i as int).map_values(|g: GroupView| arm_gameplay(g)),
        decreases sorted.len() - i,
    {
        let mut g = sorted[i].duplicate();
        assert(g@ == sv[i as int]);
        if gameplay_essentials_exec(&g) {
            g.enabled = true;
        }
        let ghost before = group_views(out@);
        out.push(g);
        assert(group_views(out@) =~= before.push(arm_gameplay(sv[i as int])));
        assert(sv.take(i + 1).map_values(|g: GroupView| arm_gameplay(g)) =~= sv.take(i as int).map_values(
            |g: GroupView| arm_gameplay(g),
        ).push(arm_gameplay(sv[i as int])));
        i += 1;
    }
    assert(sv.take(sorted.len() as int) =~= sv);
    let ghost arm_view = group_views(out@);
    let mut rest = rest;
    out.append(&mut rest);
    assert(group_views(out@) =~= essentials_spec(gs).0);
    library.groups = out;
    changed
}

/// The first `n` fresh triggers' enabled flags applied to the triggers with their ids.
pub open spec fn apply_trigger_defaults(ts: Seq<TriggerView>, fts: Seq<TriggerView>, n: int) -> (Seq<TriggerView>, nat)
    decreases n,
{
    if n <= 0 {
        (ts, 0)
    } else {
        let (prev, c) = apply_trigger_defaults(ts, fts, n - 1);
        let ft = fts[n - 1];
        match find_trigger(prev, id_is(ft.id), 0) {
            Some(j) => if prev[j].enabled != ft.enabled {
                (prev.update(j, TriggerView { enabled: ft.enabled, ..prev[j] }), c + 1)
            } else {
                (prev, c)
            },
            None => (prev, c),
        }
    }
}

/// One built-in category's enabled flags (its own and its triggers') applied.
pub open spec fn apply_group_defaults(gs: Seq<GroupView>, f: GroupView) -> (Seq<GroupView>, nat) {
    match find_group(gs, same_category_fn(f), 0) {
        None => (gs, 0),
        Some(i) => {
            let g = gs[i];
            let c0: nat = if g.enabled != f.enabled {
                1
            } else {
                0
            };
            let (ts, c1) = apply_trigger_defaults(g.triggers, f.triggers, f.triggers.len() as int);
            (gs.update(i, GroupView { enabled: f.enabled, triggers: ts, ..g }), c0 + c1)
        },
    }
}

/// The first `n` built-in categories' defaults applied, in order.
pub open spec fn apply_defaults(gs: Seq<GroupView>, fresh: Seq<GroupView>, n: int) -> (Seq<GroupView>, nat)
    decreases n,
{
    if n <= 0 {
        (gs, 0)
    } else {
        let (g1, c1) = apply_defaults(gs, fresh, n - 1);
        let (g2, c2) = apply_group_defaults(g1, fresh[n - 1]);
        (g2, c1 + c2)
    }
}

/// `ensure_essentials`, then the built-in enabled flags of the categories and their
/// triggers; the count is of flags that changed.
pub open spec fn gameplay_defaults_spec(gs: Seq<GroupView>) -> (Seq<GroupView>, nat) {
    apply_defaults(essentials_spec(gs).0, essentials(), 5)
}

proof fn lemma_apply_trigger_defaults_le(ts: Seq<TriggerView>, fts: Seq<TriggerView>, n: int)
    requires
        0 <= n,
    ensures
        apply_trigger_defaults(ts, fts, n).1 <= n,
        apply_trigger_defaults(ts, fts, n).0.len() == ts.len(),
    decreases n,
{
    if n > 0 {
        lemma_apply_trigger_defaults_le(ts, fts, n - 1);
        let prev = apply_trigger_defaults(ts, fts, n - 1).0;
        lemma_find_trigger(prev, id_is(fts[n - 1].id), 0);
    }
}

fn find_id_exec(ts: &Vec<Trigger>, id: &String) -> (r: Option<usize>)
    ensures
        r matches Some(j) ==> find_trigger(trigger_views(ts@), id_is(id@), 0) == Some(j as int),
        r is None ==> find_trigger(trigger_views(ts@), id_is(id@), 0) is None,
{
    let mut i: usize = 0;
    let ghost tv = trigger_views(ts@);
    while i < ts.len()
        invariant
            i <= ts.len(),
            tv == trigger_views(ts@),
            find_trigger(tv, id_is(id@), 0) == find_trigger(tv, id_is(id@), i as int),
        decreases ts.len() - i,
    {
        assert(ts@[i as int]@ == tv[i as int]);
        if crate::model::same_string(&ts[i].id, id) {
            return Some(i);
        }
        i += 1;
    }
    None
}

/// One-shot: apply gameplay defaults (arm Core/Combat/Danger/Fades, quiet spammy
/// triggers) after `ensure_essentials`.  Returns how many enabled flags changed.
pub fn apply_gameplay_essentials_defaults(library: &mut TriggerLibrary) -> (r: usize)
    ensures
        (final(library)@, r as nat) == gameplay_defaults_spec(old(library)@),
{
    let ghost gs = library@;
    let fresh = essentials_groups();
    let _ = ensure_essentials(library);
    let ghost e = library@;
    assert(e == essentials_spec(gs).0);
    assert(fresh@.len() == group_views(fresh@).len());
    assert(essentials_core().triggers.len() == 8);
    assert(essentials_combat().triggers.len() == 8);
    assert(essentials_danger().triggers.len() == 11);
    assert(essentials_fades().triggers.len() == 3);
    assert(essentials_social().triggers.len() == 5);
    let mut groups: Vec<TriggerGroup> = Vec::new();
    std::mem::swap(&mut groups, &mut library.groups);
    let mut changed: usize = 0;
    let mut k: usize = 0;
    while k < fresh.len()
        invariant
            k <= fresh.len(),
            fresh@.len() == 5,
            group_views(fresh@) == essentials(),
            forall|j: int| 0 <= j < 5 ==> (#[trigger] essentials()[j]).triggers.len() <= 11,
            (group_views(groups@), changed as nat) == apply_defaults(e, essentials(), k as int),
            changed <= 12 * k,
        decreases fresh.len() - k,
    {
        let f = &fresh[k];
        assert(f@ == essentials()[k as int]);
        let ghost before = group_views(groups@);
        let fid = &f.id;
        let fname = &f.name;
        let same = |g: &TriggerGroup| -> (r: bool)
            ensures
                r == same_category_fn(f@)(g@),
            { crate::model::same_string(&g.id, fid) || crate::model::same_string(&g.name, fname) };
        match position_group(&groups, &same, Ghost(same_category_fn(f@))) {
            Some(i) => {
                proof {
                    lemma_find_group(before, same_category_fn(f@), 0);
                }
                let mut g = groups[i].duplicate();
                let ghost g0 = g@;
                assert(g0 == before[i as int]);
                if g.enabled != f.enabled {
                    g.enabled = f.enabled;
                    changed = changed + 1;
                }
                let ghost c_mid = changed;
                let mut j: usize = 0;
                while j < f.triggers.len()
                    invariant
                        j <= f.triggers.len(),
                        f.triggers@.len() <= 11,
                        g@.id == g0.id && g@.name == g0.name && g@.enabled == f@.enabled,
                        (g@.triggers, (changed - c_mid) as nat) == apply_trigger_defaults(g0.triggers, f@.triggers, j as int),
                        c_mid <= changed <= c_mid + j,
                        c_mid <= 12 * k + 1,
                        k < 5,
                    decreases f.triggers.len() - j,
                {
                    let ft = &f.triggers[j];
                    assert(ft@ == f@.triggers[j as int]);
                    match find_id_exec(&g.triggers, &ft.id) {
                        Some(x) => {
                            proof {
                                lemma_find_trigger(g@.triggers, id_is(ft@.id), 0);
                            }
                            if g.triggers[x].enabled != ft.enabled {
                                let mut t = g.triggers[x].duplicate();
                                t.enabled = ft.enabled;
                                let ghost tb = g@.triggers;
                                g.triggers.set(x, t);
                                assert(g@.triggers =~= tb.update(x as int, TriggerView { enabled: ft@.enabled, ..tb[x as int] }));
                                changed = changed + 1;
                            }
                        },
                        None => {},
                    }
                    j += 1;
                }
                groups.set(i, g);
                assert(group_views(groups@) =~= apply_group_defaults(before, f@).0);
            },
            None => {},
        }
        k += 1;
    }
    library.groups = groups;
    changed
}

/// The starter pack's stages: permanent buffs stripped, essentials, shaman warnings,
/// DoTs and buffs, mez timers, invulnerability timers, DoT land lines, TTS lines.
pub open spec fn starter_stages(base: Seq<GroupView>, spells: Seq<Seq<char>>) -> Seq<Seq<GroupView>> {
    let s1 = stripped_groups(base, permanent_set(spells));
    let s2 = essentials_spec(s1).0;
    let s3 = shaman_warnings_spec(s2).0;
    let s4 = shaman_dots_spec(s3).0;
    let s5 = shaman_buffs_spec(s4).0;
    let s6 = mez_spec(s5).0;
    let s7 = map_group_views(s6, invuln_group_fn());
    let s8 = map_group_views(s7, dot_group_fn());
    let s9 = map_group_views(s8, tts_group_fn(speak_sources(base)));
    seq![s1, s2, s3, s4, s5, s6, s7, s8, s9]
}

/// Every stage is small enough to count its changes (a machine limit).
pub open spec fn starter_fits(base: Seq<GroupView>, spells: Seq<Seq<char>>) -> bool {
    &&& triggers_upto(base, base.len() as int) <= usize::MAX
    &&& forall|k: int| 0 <= k < 9 ==> countable(#[trigger] starter_stages(base, spells)[k])
}

/// The starter library: the class packs and raids of `base` (the shipped trigger
/// file) with the permanent buffs among `permanent_spells` stripped, then the built-in
/// essentials and EQL fixes applied.
pub fn starter_pack(base: TriggerLibrary, permanent_spells: &Vec<String>) -> (r: TriggerLibrary)
    requires
        starter_fits(base@, permanent_spells.deep_view()),
    ensures
        r@ == starter_stages(base@, permanent_spells.deep_view())[8],
{
    let ghost st = starter_stages(base@, permanent_spells.deep_view());
    let source = base.duplicate();
    let mut pack = base;
    assert(countable(st[0]) && countable(st[1]) && countable(st[2]) && countable(st[3]));
    assert(countable(st[4]) && countable(st[5]) && countable(st[6]) && countable(st[7]));
    let _ = strip_permanent_buff_timers(&mut pack, permanent_spells);
    let _ = ensure_essentials(&mut pack);
    let _ = ensure_shaman_warnings(&mut pack);
    let _ = ensure_shaman_dots(&mut pack);
    let _ = ensure_shaman_buffs(&mut pack);
    let _ = ensure_eql_mez_timers(&mut pack);
    let _ = ensure_divine_invulnerability(&mut pack);
    let _ = ensure_eql_disease_dot_timers(&mut pack);
    let _ = ensure_default_tts(&mut pack, &source);
    pack
}

/// Triggers plus groups only grow along the library, and bound the triggers alone.
pub proof fn lemma_upto_grows(gs: Seq<GroupView>, m: int, n: int)
    requires
        0 <= m <= n <= gs.len(),
    ensures
        triggers_upto(gs, m) + m <= triggers_upto(gs, n) + n,
        triggers_upto(gs, m) <= triggers_upto(gs, n),
{
    lemma_triggers_upto_mono(gs, m, n);
    lemma_triggers_upto_le(gs, m, n);
}


/// Two libraries with the same group ids and names, in order, find a category's first
/// group at the same place.
proof fn lemma_find_group_same_keys(a: Seq<GroupView>, b: Seq<GroupView>, f: GroupView, from: int)
    requires
        a.len() == b.len(),
        forall|i: int| 0 <= i < a.len() ==> (#[trigger] a[i]).id == b[i].id && a[i].name == b[i].name,
    ensures
        find_group(a, same_category_fn(f), from) == find_group(b, same_category_fn(f), from),
    decreases a.len() - from,
{
    if 0 <= from < a.len() {
        assert(a[from].id == b[from].id && a[from].name == b[from].name);
        lemma_find_group_same_keys(a, b, f, from + 1);
    }
}

/// `g` has the group id, name and trigger ids of `h`, in order.
pub open spec fn same_keys(g: GroupView, h: GroupView) -> bool {
    &&& g.id == h.id
    &&& g.name == h.name
    &&& g.triggers.len() == h.triggers.len()
    &&& forall|j: int| 0 <= j < g.triggers.len() ==> (#[trigger] g.triggers[j]).id == h.triggers[j].id
}

/// `g` carries built-in category `f`'s enabled flags: its own, and that of each built-in
/// trigger on the first trigger with its id in `h` (where no later built-in trigger of the
/// category has the same id).
spec fn carries_flags(g: GroupView, h: GroupView, f: GroupView) -> bool {
    &&& g.enabled == f.enabled
    &&& forall|m: int|
        0 <= m < f.triggers.len() ==> (find_trigger(h.triggers, id_is((#[trigger] f.triggers[m]).id), 0) is Some
            && forall|m2: int| m < m2 < f.triggers.len() ==> (#[trigger] f.triggers[m2]).id != f.triggers[m].id)
            ==> g.triggers[find_trigger(h.triggers, id_is(f.triggers[m].id), 0)->0].enabled
            == f.triggers[m].enabled
}

/// Applying the categories' defaults keeps every group's place, id, name and trigger ids;
/// a category's first group takes that category's enabled flags unless a later category
/// finds the same group first.
proof fn lemma_apply_defaults_groups(gs: Seq<GroupView>, fresh: Seq<GroupView>, n: int)
    requires
        0 <= n <= fresh.len(),
    ensures
        ({
            let r = apply_defaults(gs, fresh, n).0;
            &&& r.len() == gs.len()
            &&& forall|i: int| 0 <= i < r.len() ==> same_keys(#[trigger] r[i], gs[i])
            &&& forall|k: int|
                0 <= k < n ==> (find_group(gs, same_category_fn(#[trigger] fresh[k]), 0) matches Some(i)
                    && forall|k2: int|
                    k < k2 < n ==> find_group(gs, same_category_fn(#[trigger] fresh[k2]), 0) != Some(i))
                    ==> carries_flags(
                    r[find_group(gs, same_category_fn(fresh[k]), 0)->0],
                    gs[find_group(gs, same_category_fn(fresh[k]), 0)->0],
                    fresh[k],
                )
        }),
    decreases n,
{
    if n > 0 {
        lemma_apply_defaults_groups(gs, fresh, n - 1);
        let g1 = apply_defaults(gs, fresh, n - 1).0;
        let f = fresh[n - 1];
        let r = apply_defaults(gs, fresh, n).0;
        assert forall|i: int| 0 <= i < g1.len() implies (#[trigger] g1[i]).id == gs[i].id
            && g1[i].name == gs[i].name by {
            assert(same_keys(g1[i], gs[i]));
        }
        lemma_find_group_same_keys(g1, gs, f, 0);
        lemma_find_group(g1, same_category_fn(f), 0);
        match find_group(g1, same_category_fn(f), 0) {
            None => {
                assert(r == g1);
            },
            Some(i) => {
                let g = g1[i];
                let nt = f.triggers.len() as int;
                lemma_apply_trigger_defaults_flags(g.triggers, f.triggers, nt);
                let ts = apply_trigger_defaults(g.triggers, f.triggers, nt).0;
                assert(r == g1.update(i, GroupView { enabled: f.enabled, triggers: ts, ..g }));
                assert(same_keys(g, gs[i]));
                assert(same_keys(r[i], gs[i])) by {
                    assert forall|j: int| 0 <= j < r[i].triggers.len() implies (
                    #[trigger] r[i].triggers[j]).id == gs[i].triggers[j].id by {
                        assert(ts[j].id == g.triggers[j].id);
                        assert(g.triggers[j].id == gs[i].triggers[j].id);
                    }
                }
                assert forall|j: int| 0 <= j < r.len() implies same_keys(#[trigger] r[j], gs[j]) by {
                    if j != i {
                        assert(r[j] == g1[j]);
                    }
                }
                assert(carries_flags(r[i], gs[i], f)) by {
                    assert forall|m: int|
                        0 <= m < f.triggers.len() && (find_trigger(
                            gs[i].triggers,
                            id_is((#[trigger] f.triggers[m]).id),
                            0,
                        ) is Some && forall|m2: int|
                            m < m2 < f.triggers.len() ==> (#[trigger] f.triggers[m2]).id
                                != f.triggers[m].id) implies r[i].triggers[find_trigger(
                        gs[i].triggers,
                        id_is(f.triggers[m].id),
                        0,
                    )->0].enabled == f.triggers[m].enabled by {
                        lemma_find_trigger_same_ids(g.triggers, gs[i].triggers, f.triggers[m].id, 0);
                    }
                }
                assert forall|k: int|
                    0 <= k < n && (find_group(gs, same_category_fn(#[trigger] fresh[k]), 0) matches Some(m)
                        && forall|k2: int|
                        k < k2 < n ==> find_group(gs, same_category_fn(#[trigger] fresh[k2]), 0) != Some(m))
                    implies carries_flags(
                    r[find_group(gs, same_category_fn(fresh[k]), 0)->0],
                    gs[find_group(gs, same_category_fn(fresh[k]), 0)->0],
                    fresh[k],
                ) by {
                    let m = find_group(gs, same_category_fn(fresh[k]), 0)->0;
                    lemma_find_group(gs, same_category_fn(fresh[k]), 0);
                    if k < n - 1 {
                        assert(find_group(gs, same_category_fn(fresh[n - 1]), 0) != Some(m));
                        assert(i != m);
                        assert(r[m] == g1[m]);
                    }
                }
            },
        }
    }
}

/// `g` carries built-in category `f`'s enabled flags: its own, and that of each built-in
/// trigger on the first trigger of `h` with the same id.
pub open spec fn carries_stock_flags(g: GroupView, h: GroupView, f: GroupView) -> bool {
    &&& g.enabled == f.enabled
    &&& forall|m: int|
        0 <= m < f.triggers.len() && find_trigger(h.triggers, id_is((#[trigger] f.triggers[m]).id), 0) is Some
            ==> g.triggers[find_trigger(h.triggers, id_is(f.triggers[m].id), 0)->0].enabled
            == f.triggers[m].enabled
}

/// After `apply_gameplay_essentials_defaults` every group keeps its place, id, name and
/// trigger ids, and the first group of each built-in category carries that category's
/// built-in enabled flags (Core, Combat, Danger and Fades armed, Social off, and each
/// built-in trigger's own flag on the first trigger with its id), unless a later category
/// finds the same group first.
pub proof fn law_gameplay_defaults_groups(gs: Seq<GroupView>)
    ensures
        ({
            let e = essentials_spec(gs).0;
            let r = gameplay_defaults_spec(gs).0;
            &&& r.len() == e.len()
            &&& forall|i: int| 0 <= i < r.len() ==> same_keys(#[trigger] r[i], e[i])
            &&& forall|k: int|
                0 <= k < 5 ==> (find_group(e, same_category_fn(#[trigger] essentials()[k]), 0) matches Some(i)
                    && forall|k2: int|
                    k < k2 < 5 ==> find_group(e, same_category_fn(#[trigger] essentials()[k2]), 0) != Some(i))
                    ==> carries_stock_flags(
                    r[find_group(e, same_category_fn(essentials()[k]), 0)->0],
                    e[find_group(e, same_category_fn(essentials()[k]), 0)->0],
                    essentials()[k],
                )
        }),
{
    let e = essentials_spec(gs).0;
    let r = gameplay_defaults_spec(gs).0;
    lemma_categories_distinct();
    lemma_apply_defaults_groups(e, essentials(), 5);
    lemma_core_ids_distinct();
    lemma_combat_ids_distinct();
    lemma_danger_ids_distinct();
    lemma_fades_ids_distinct();
    lemma_social_ids_distinct();
    assert forall|k: int|
        0 <= k < 5 && (find_group(e, same_category_fn(#[trigger] essentials()[k]), 0) matches Some(i)
            && forall|k2: int|
            k < k2 < 5 ==> find_group(e, same_category_fn(#[trigger] essentials()[k2]), 0) != Some(i))
        implies carries_stock_flags(
        r[find_group(e, same_category_fn(essentials()[k]), 0)->0],
        e[find_group(e, same_category_fn(essentials()[k]), 0)->0],
        essentials()[k],
    ) by {
        let f = essentials()[k];
        assert(distinct_trigger_ids(f.triggers)) by {
            assert(k == 0 || k == 1 || k == 2 || k == 3 || k == 4);
        }
        let i = find_group(e, same_category_fn(f), 0)->0;
        assert(carries_flags(r[i], e[i], f));
    }
}

/// Two trigger lists with the same ids, in order, find an id at the same place.
proof fn lemma_find_trigger_same_ids(a: Seq<TriggerView>, b: Seq<TriggerView>, id: Seq<char>, from: int)
    requires
        a.len() == b.len(),
        forall|i: int| 0 <= i < a.len() ==> (#[trigger] a[i]).id == b[i].id,
    ensures
        find_trigger(a, id_is(id), from) == find_trigger(b, id_is(id), from),
    decreases a.len() - from,
{
    if 0 <= from < a.len() {
        assert(a[from].id == b[from].id);
        lemma_find_trigger_same_ids(a, b, id, from + 1);
    }
}

/// Applying a category's trigger flags keeps every trigger's place and id; the first
/// trigger with a built-in trigger's id takes its enabled flag unless a later built-in
/// trigger has the same id.
proof fn lemma_apply_trigger_defaults_flags(ts: Seq<TriggerView>, fts: Seq<TriggerView>, n: int)
    requires
        0 <= n <= fts.len(),
    ensures
        ({
            let r = apply_trigger_defaults(ts, fts, n).0;
            &&& r.len() == ts.len()
            &&& forall|i: int| 0 <= i < r.len() ==> (#[trigger] r[i]).id == ts[i].id
            &&& forall|m: int|
                0 <= m < n ==> (find_trigger(ts, id_is((#[trigger] fts[m]).id), 0) is Some && forall|m2: int|
                    m < m2 < n ==> (#[trigger] fts[m2]).id != fts[m].id) ==> r[find_trigger(
                    ts,
                    id_is(fts[m].id),
                    0,
                )->0].enabled == fts[m].enabled
        }),
    decreases n,
{
    if n > 0 {
        lemma_apply_trigger_defaults_flags(ts, fts, n - 1);
        let prev = apply_trigger_defaults(ts, fts, n - 1).0;
        let ft = fts[n - 1];
        let r = apply_trigger_defaults(ts, fts, n).0;
        lemma_find_trigger_same_ids(prev, ts, ft.id, 0);
        lemma_find_trigger(prev, id_is(ft.id), 0);
        match find_trigger(prev, id_is(ft.id), 0) {
            None => {},
            Some(j) => {
                assert forall|i: int| 0 <= i < r.len() implies (#[trigger] r[i]).id == ts[i].id by {
                    assert(prev[i].id == ts[i].id);
                }
                assert forall|m: int|
                    0 <= m < n && (find_trigger(ts, id_is((#[trigger] fts[m]).id), 0) is Some
                        && forall|m2: int| m < m2 < n ==> (#[trigger] fts[m2]).id != fts[m].id)
                    implies r[find_trigger(ts, id_is(fts[m].id), 0)->0].enabled == fts[m].enabled by {
                    let q = find_trigger(ts, id_is(fts[m].id), 0)->0;
                    lemma_find_trigger(ts, id_is(fts[m].id), 0);
                    if m < n - 1 {
                        assert(fts[n - 1].id != fts[m].id);
                        assert(prev[j].id == ft.id);
                        assert(ts[q].id == fts[m].id);
                        assert(prev[q].id == ts[q].id);
                        assert(j != q);
                        if prev[j].enabled != ft.enabled {
                            assert(r == prev.update(j, r[j]));
                        }
                        assert(r[q] == prev[q]);
                    }
                }
            },
        }
    }
}


/// No two triggers in `ts` share an id.
spec fn distinct_trigger_ids(ts: Seq<TriggerView>) -> bool {
    forall|m: int, m2: int| 0 <= m < m2 < ts.len() ==> (#[trigger] ts[m]).id != (#[trigger] ts[m2]).id
}

/// The built-in triggers of the `core` category have distinct ids.
proof fn lemma_core_ids_distinct()
    ensures
        distinct_trigger_ids(essentials_core().triggers),
{
    reveal_strlit("eql-essentials-zoning");
    reveal_strlit("eql-essentials-slain");
    reveal_strlit("eql-essentials-fizzle");
    reveal_strlit("eql-essentials-oom");
    reveal_strlit("eql-essentials-low-health");
    reveal_strlit("eql-essentials-low-pet-health");
    reveal_strlit("eql-essentials-pet-died");
    reveal_strlit("eql-essentials-pet-died-classic");
    let ts = essentials_core().triggers;
    assert(ts.len() == 8);
    assert(ts[0].id == "eql-essentials-zoning"@);
    assert(ts[1].id == "eql-essentials-slain"@);
    assert(ts[2].id == "eql-essentials-fizzle"@);
    assert(ts[3].id == "eql-essentials-oom"@);
    assert(ts[4].id == "eql-essentials-low-health"@);
    assert(ts[5].id == "eql-essentials-low-pet-health"@);
    assert(ts[6].id == "eql-essentials-pet-died"@);
    assert(ts[7].id == "eql-essentials-pet-died-classic"@);
    assert(ts[0].id.len() != ts[1].id.len());
    assert(ts[0].id[15] != ts[2].id[15]);
    assert(ts[0].id.len() != ts[3].id.len());
    assert(ts[0].id.len() != ts[4].id.len());
    assert(ts[0].id.len() != ts[5].id.len());
    assert(ts[0].id.len() != ts[6].id.len());
    assert(ts[0].id.len() != ts[7].id.len());
    assert(ts[1].id.len() != ts[2].id.len());
    assert(ts[1].id.len() != ts[3].id.len());
    assert(ts[1].id.len() != ts[4].id.len());
    assert(ts[1].id.len() != ts[5].id.len());
    assert(ts[1].id.len() != ts[6].id.len());
    assert(ts[1].id.len() != ts[7].id.len());
    assert(ts[2].id.len() != ts[3].id.len());
    assert(ts[2].id.len() != ts[4].id.len());
    assert(ts[2].id.len() != ts[5].id.len());
    assert(ts[2].id.len() != ts[6].id.len());
    assert(ts[2].id.len() != ts[7].id.len());
    assert(ts[3].id.len() != ts[4].id.len());
    assert(ts[3].id.len() != ts[5].id.len());
    assert(ts[3].id.len() != ts[6].id.len());
    assert(ts[3].id.len() != ts[7].id.len());
    assert(ts[4].id.len() != ts[5].id.len());
    assert(ts[4].id.len() != ts[6].id.len());
    assert(ts[4].id.len() != ts[7].id.len());
    assert(ts[5].id.len() != ts[6].id.len());
    assert(ts[5].id.len() != ts[7].id.len());
    assert(ts[6].id.len() != ts[7].id.len());
    assert forall|m: int, m2: int| 0 <= m < m2 < ts.len() implies (#[trigger] ts[m]).id != (#[trigger] ts[m2]).id by {
        assert(m == 0 || m == 1 || m == 2 || m == 3 || m == 4 || m == 5 || m == 6 || m == 7);
        assert(m2 == 0 || m2 == 1 || m2 == 2 || m2 == 3 || m2 == 4 || m2 == 5 || m2 == 6 || m2 == 7);
    }
}

/// The built-in triggers of the `combat` category have distinct ids.
proof fn lemma_combat_ids_distinct()
    ensures
        distinct_trigger_ids(essentials_combat().triggers),
{
    reveal_strlit("eql-essentials-interrupted");
    reveal_strlit("eql-essentials-did-not-take");
    reveal_strlit("eql-essentials-resisted");
    reveal_strlit("eql-essentials-must-stand");
    reveal_strlit("eql-essentials-los");
    reveal_strlit("eql-essentials-out-of-range");
    reveal_strlit("eql-essentials-enrage");
    reveal_strlit("eql-essentials-enrage-over");
    let ts = essentials_combat().triggers;
    assert(ts.len() == 8);
    assert(ts[0].id == "eql-essentials-interrupted"@);
    assert(ts[1].id == "eql-essentials-did-not-take"@);
    assert(ts[2].id == "eql-essentials-resisted"@);
    assert(ts[3].id == "eql-essentials-must-stand"@);
    assert(ts[4].id == "eql-essentials-los"@);
    assert(ts[5].id == "eql-essentials-out-of-range"@);
    assert(ts[6].id == "eql-essentials-enrage"@);
    assert(ts[7].id == "eql-essentials-enrage-over"@);
    assert(ts[0].id.len() != ts[1].id.len());
    assert(ts[0].id.len() != ts[2].id.len());
    assert(ts[0].id.len() != ts[3].id.len());
    assert(ts[0].id.len() != ts[4].id.len());
    assert(ts[0].id.len() != ts[5].id.len());
    assert(ts[0].id.len() != ts[6].id.len());
    assert(ts[0].id[15] != ts[7].id[15]);
    assert(ts[1].id.len() != ts[2].id.len());
    assert(ts[1].id.len() != ts[3].id.len());
    assert(ts[1].id.len() != ts[4].id.len());
    assert(ts[1].id[15] != ts[5].id[15]);
    assert(ts[1].id.len() != ts[6].id.len());
    assert(ts[1].id.len() != ts[7].id.len());
    assert(ts[2].id.len() != ts[3].id.len());
    assert(ts[2].id.len() != ts[4].id.len());
    assert(ts[2].id.len() != ts[5].id.len());
    assert(ts[2].id.len() != ts[6].id.len());
    assert(ts[2].id.len() != ts[7].id.len());
    assert(ts[3].id.len() != ts[4].id.len());
    assert(ts[3].id.len() != ts[5].id.len());
    assert(ts[3].id.len() != ts[6].id.len());
    assert(ts[3].id.len() != ts[7].id.len());
    assert(ts[4].id.len() != ts[5].id.len());
    assert(ts[4].id.len() != ts[6].id.len());
    assert(ts[4].id.len() != ts[7].id.len());
    assert(ts[5].id.len() != ts[6].id.len());
    assert(ts[5].id.len() != ts[7].id.len());
    assert(ts[6].id.len() != ts[7].id.len());
    assert forall|m: int, m2: int| 0 <= m < m2 < ts.len() implies (#[trigger] ts[m]).id != (#[trigger] ts[m2]).id by {
        assert(m == 0 || m == 1 || m == 2 || m == 3 || m == 4 || m == 5 || m == 6 || m == 7);
        assert(m2 == 0 || m2 == 1 || m2 == 2 || m2 == 3 || m2 == 4 || m2 == 5 || m2 == 6 || m2 == 7);
    }
}

/// The built-in triggers of the `danger` category have distinct ids.
proof fn lemma_danger_ids_distinct()
    ensures
        distinct_trigger_ids(essentials_danger().triggers),
{
    reveal_strlit("eql-essentials-stunned");
    reveal_strlit("eql-essentials-feared");
    reveal_strlit("eql-essentials-slowed");
    reveal_strlit("eql-essentials-slow-broke");
    reveal_strlit("eql-essentials-rooted");
    reveal_strlit("eql-essentials-root-broke");
    reveal_strlit("eql-essentials-charmed");
    reveal_strlit("eql-essentials-silenced");
    reveal_strlit("eql-essentials-dispelled");
    reveal_strlit("eql-essentials-drowning");
    reveal_strlit("eql-essentials-encumbered");
    let ts = essentials_danger().triggers;
    assert(ts.len() == 11);
    assert(ts[0].id == "eql-essentials-stunned"@);
    assert(ts[1].id == "eql-essentials-feared"@);
    assert(ts[2].id == "eql-essentials-slowed"@);
    assert(ts[3].id == "eql-essentials-slow-broke"@);
    assert(ts[4].id == "eql-essentials-rooted"@);
    assert(ts[5].id == "eql-essentials-root-broke"@);
    assert(ts[6].id == "eql-essentials-charmed"@);
    assert(ts[7].id == "eql-essentials-silenced"@);
    assert(ts[8].id == "eql-essentials-dispelled"@);
    assert(ts[9].id == "eql-essentials-drowning"@);
    assert(ts[10].id == "eql-essentials-encumbered"@);
    assert(ts[0].id.len() != ts[1].id.len());
    assert(ts[0].id.len() != ts[2].id.len());
    assert(ts[0].id.len() != ts[3].id.len());
    assert(ts[0].id.len() != ts[4].id.len());
    assert(ts[0].id.len() != ts[5].id.len());
    assert(ts[0].id[15] != ts[6].id[15]);
    assert(ts[0].id.len() != ts[7].id.len());
    assert(ts[0].id.len() != ts[8].id.len());
    assert(ts[0].id.len() != ts[9].id.len());
    assert(ts[0].id.len() != ts[10].id.len());
    assert(ts[1].id[15] != ts[2].id[15]);
    assert(ts[1].id.len() != ts[3].id.len());
    assert(ts[1].id[15] != ts[4].id[15]);
    assert(ts[1].id.len() != ts[5].id.len());
    assert(ts[1].id.len() != ts[6].id.len());
    assert(ts[1].id.len() != ts[7].id.len());
    assert(ts[1].id.len() != ts[8].id.len());
    assert(ts[1].id.len() != ts[9].id.len());
    assert(ts[1].id.len() != ts[10].id.len());
    assert(ts[2].id.len() != ts[3].id.len());
    assert(ts[2].id[15] != ts[4].id[15]);
    assert(ts[2].id.len() != ts[5].id.len());
    assert(ts[2].id.len() != ts[6].id.len());
    assert(ts[2].id.len() != ts[7].id.len());
    assert(ts[2].id.len() != ts[8].id.len());
    assert(ts[2].id.len() != ts[9].id.len());
    assert(ts[2].id.len() != ts[10].id.len());
    assert(ts[3].id.len() != ts[4].id.len());
    assert(ts[3].id[15] != ts[5].id[15]);
    assert(ts[3].id.len() != ts[6].id.len());
    assert(ts[3].id.len() != ts[7].id.len());
    assert(ts[3].id.len() != ts[8].id.len());
    assert(ts[3].id.len() != ts[9].id.len());
    assert(ts[3].id[15] != ts[10].id[15]);
    assert(ts[4].id.len() != ts[5].id.len());
    assert(ts[4].id.len() != ts[6].id.len());
    assert(ts[4].id.len() != ts[7].id.len());
    assert(ts[4].id.len() != ts[8].id.len());
    assert(ts[4].id.len() != ts[9].id.len());
    assert(ts[4].id.len() != ts[10].id.len());
    assert(ts[5].id.len() != ts[6].id.len());
    assert(ts[5].id.len() != ts[7].id.len());
    assert(ts[5].id.len() != ts[8].id.len());
    assert(ts[5].id.len() != ts[9].id.len());
    assert(ts[5].id[15] != ts[10].id[15]);
    assert(ts[6].id.len() != ts[7].id.len());
    assert(ts[6].id.len() != ts[8].id.len());
    assert(ts[6].id.len() != ts[9].id.len());
    assert(ts[6].id.len() != ts[10].id.len());
    assert(ts[7].id.len() != ts[8].id.len());
    assert(ts[7].id[15] != ts[9].id[15]);
    assert(ts[7].id.len() != ts[10].id.len());
    assert(ts[8].id.len() != ts[9].id.len());
    assert(ts[8].id.len() != ts[10].id.len());
    assert(ts[9].id.len() != ts[10].id.len());
    assert forall|m: int, m2: int| 0 <= m < m2 < ts.len() implies (#[trigger] ts[m]).id != (#[trigger] ts[m2]).id by {
        assert(m == 0 || m == 1 || m == 2 || m == 3 || m == 4 || m == 5 || m == 6 || m == 7 || m == 8 || m == 9 || m == 10);
        assert(m2 == 0 || m2 == 1 || m2 == 2 || m2 == 3 || m2 == 4 || m2 == 5 || m2 == 6 || m2 == 7 || m2 == 8 || m2 == 9 || m2 == 10);
    }
}

/// The built-in triggers of the `fades` category have distinct ids.
proof fn lemma_fades_ids_distinct()
    ensures
        distinct_trigger_ids(essentials_fades().triggers),
{
    reveal_strlit("eql-essentials-invis-fading");
    reveal_strlit("eql-essentials-invis-faded");
    reveal_strlit("eql-essentials-levitate-fading");
    let ts = essentials_fades().triggers;
    assert(ts.len() == 3);
    assert(ts[0].id == "eql-essentials-invis-fading"@);
    assert(ts[1].id == "eql-essentials-invis-faded"@);
    assert(ts[2].id == "eql-essentials-levitate-fading"@);
    assert(ts[0].id.len() != ts[1].id.len());
    assert(ts[0].id.len() != ts[2].id.len());
    assert(ts[1].id.len() != ts[2].id.len());
    assert forall|m: int, m2: int| 0 <= m < m2 < ts.len() implies (#[trigger] ts[m]).id != (#[trigger] ts[m2]).id by {
        assert(m == 0 || m == 1 || m == 2);
        assert(m2 == 0 || m2 == 1 || m2 == 2);
    }
}

/// The built-in triggers of the `social` category have distinct ids.
proof fn lemma_social_ids_distinct()
    ensures
        distinct_trigger_ids(essentials_social().triggers),
{
    reveal_strlit("eql-essentials-group-invite");
    reveal_strlit("eql-essentials-raid-invite");
    reveal_strlit("eql-essentials-linkdead");
    reveal_strlit("eql-essentials-out-of-charges");
    reveal_strlit("eql-essentials-out-of-ammo");
    let ts = essentials_social().triggers;
    assert(ts.len() == 5);
    assert(ts[0].id == "eql-essentials-group-invite"@);
    assert(ts[1].id == "eql-essentials-raid-invite"@);
    assert(ts[2].id == "eql-essentials-linkdead"@);
    assert(ts[3].id == "eql-essentials-out-of-charges"@);
    assert(ts[4].id == "eql-essentials-out-of-ammo"@);
    assert(ts[0].id.len() != ts[1].id.len());
    assert(ts[0].id.len() != ts[2].id.len());
    assert(ts[0].id.len() != ts[3].id.len());
    assert(ts[0].id.len() != ts[4].id.len());
    assert(ts[1].id.len() != ts[2].id.len());
    assert(ts[1].id.len() != ts[3].id.len());
    assert(ts[1].id[15] != ts[4].id[15]);
    assert(ts[2].id.len() != ts[3].id.len());
    assert(ts[2].id.len() != ts[4].id.len());
    assert(ts[3].id.len() != ts[4].id.len());
    assert forall|m: int, m2: int| 0 <= m < m2 < ts.len() implies (#[trigger] ts[m]).id != (#[trigger] ts[m2]).id by {
        assert(m == 0 || m == 1 || m == 2 || m == 3 || m == 4);
        assert(m2 == 0 || m2 == 1 || m2 == 2 || m2 == 3 || m2 == 4);
    }
}


/// Where `ensure_essentials` puts a group: the built-in categories by their rank, then
/// other essentials groups, then every other group.
pub open spec fn essentials_order(g: GroupView) -> int {
    if is_essentials_group(g) && !is_legacy_essentials(g) {
        match category_rank(g) {
            Some(k) => k,
            None => 5,
        }
    } else {
        6
    }
}

/// Groups of rank `k` or later, sorted: each has an order of at least `k`, and the
/// orders never go down.
proof fn lemma_sort_by_rank_sorted(gs: Seq<GroupView>, k: int)
    requires
        0 <= k <= 5,
        forall|i: int| 0 <= i < gs.len() ==> current_essentials_fn()(#[trigger] gs[i]),
    ensures
        forall|i: int| 0 <= i < sort_by_rank(gs, k).len() ==> essentials_order(#[trigger] sort_by_rank(gs, k)[i]) >= k,
        forall|i: int, j: int|
            0 <= i < j < sort_by_rank(gs, k).len() ==> essentials_order(#[trigger] sort_by_rank(gs, k)[i])
                <= essentials_order(#[trigger] sort_by_rank(gs, k)[j]),
    decreases 5 - k,
{
    let out = sort_by_rank(gs, k);
    if k >= 5 {
        let u = keep_groups(gs, unranked_fn());
        lemma_keep_groups_members(gs, unranked_fn());
        assert forall|i: int| 0 <= i < u.len() implies essentials_order(#[trigger] u[i]) == 5 by {
            assert(unranked_fn()(u[i]));
            let w = choose|w: int| 0 <= w < gs.len() && gs[w] == u[i];
            assert(current_essentials_fn()(gs[w]));
        }
    } else {
        lemma_sort_by_rank_sorted(gs, k + 1);
        let head = keep_groups(gs, rank_is(k));
        let tail = sort_by_rank(gs, k + 1);
        lemma_keep_groups_members(gs, rank_is(k));
        assert(out == head + tail);
        assert forall|i: int| 0 <= i < head.len() implies essentials_order(#[trigger] head[i]) == k by {
            assert(rank_is(k)(head[i]));
            let w = choose|w: int| 0 <= w < gs.len() && gs[w] == head[i];
            assert(current_essentials_fn()(gs[w]));
        }
        assert forall|i: int| 0 <= i < out.len() implies essentials_order(#[trigger] out[i]) >= k by {
            if i < head.len() {
                assert(out[i] == head[i]);
            } else {
                assert(out[i] == tail[i - head.len()]);
            }
        }
        assert forall|i: int, j: int| 0 <= i < j < out.len() implies essentials_order(#[trigger] out[i])
            <= essentials_order(#[trigger] out[j]) by {
            if j < head.len() {
                assert(out[i] == head[i] && out[j] == head[j]);
            } else if i < head.len() {
                assert(out[i] == head[i] && out[j] == tail[j - head.len()]);
            } else {
                assert(out[i] == tail[i - head.len()] && out[j] == tail[j - head.len()]);
            }
        }
    }
}

/// `ensure_essentials` puts the current essentials groups first, the built-in categories
/// in their order (Core, Combat, Danger, Fades, Social) ahead of other essentials groups,
/// and every other group after them.
pub proof fn law_essentials_order(gs: Seq<GroupView>)
    ensures
        ({
            let r = essentials_spec(gs).0;
            forall|i: int, j: int|
                0 <= i < j < r.len() ==> essentials_order(#[trigger] r[i]) <= essentials_order(#[trigger] r[j])
        }),
{
    let s0 = keep_groups(gs, not_legacy_fn());
    let merged = merge_categories(s0, essentials(), 5).0;
    let cur = keep_groups(merged, current_essentials_fn());
    lemma_keep_groups_members(merged, current_essentials_fn());
    let ess = sort_by_rank(cur, 0);
    lemma_sort_by_rank_sorted(cur, 0);
    let rest = keep_groups(merged, other_groups_fn());
    lemma_keep_groups_members(merged, other_groups_fn());
    let armed = ess.map_values(|g: GroupView| arm_gameplay(g));
    let r = essentials_spec(gs).0;
    assert(r == armed + rest);
    assert forall|i: int| 0 <= i < armed.len() implies essentials_order(#[trigger] armed[i])
        == essentials_order(ess[i]) && essentials_order(ess[i]) <= 5 by {
        assert(armed[i] == arm_gameplay(ess[i]));
        lemma_sort_members(cur, 0);
        assert(cur.contains(ess[i]));
        let w = choose|w: int| 0 <= w < cur.len() && cur[w] == ess[i];
        assert(current_essentials_fn()(cur[w]));
        lemma_categories_distinct();
        lemma_find_group(essentials(), same_id_fn(ess[i].id), 0);
        assert(category_rank(armed[i]) == category_rank(ess[i]));
    }
    assert forall|i: int| 0 <= i < rest.len() implies essentials_order(#[trigger] rest[i]) == 6 by {
        assert(other_groups_fn()(rest[i]));
    }
    assert forall|i: int, j: int| 0 <= i < j < r.len() implies essentials_order(#[trigger] r[i])
        <= essentials_order(#[trigger] r[j]) by {
        if j < armed.len() {
            assert(r[i] == armed[i] && r[j] == armed[j]);
        } else if i < armed.len() {
            assert(r[i] == armed[i] && r[j] == rest[j - armed.len()]);
        } else {
            assert(r[i] == rest[i - armed.len()] && r[j] == rest[j - armed.len()]);
        }
    }
}


/// Groups that are not essentials groups by id or name.
pub open spec fn non_essentials_fn() -> spec_fn(GroupView) -> bool {
    |g: GroupView| !is_essentials_group(g)
}

/// Every built-in category is marked as essentials both by its id and by its name.
proof fn lemma_categories_marked()
    ensures
        forall|k: int|
            0 <= k < 5 ==> starts_with((#[trigger] essentials()[k]).id, "eql-essentials"@) && starts_with(
                essentials()[k].name,
                "EQL Essentials"@,
            ),
{
    reveal_strlit("eql-essentials-core");
    reveal_strlit("eql-essentials-combat");
    reveal_strlit("eql-essentials-danger");
    reveal_strlit("eql-essentials-fades");
    reveal_strlit("eql-essentials-social");
    reveal_strlit("EQL Essentials / Core");
    reveal_strlit("EQL Essentials / Combat");
    reveal_strlit("EQL Essentials / Danger");
    reveal_strlit("EQL Essentials / Fades");
    reveal_strlit("EQL Essentials / Social");
    reveal_strlit("eql-essentials");
    reveal_strlit("EQL Essentials");
    let e = essentials();
    assert(e[0] == essentials_core() && e[1] == essentials_combat() && e[2] == essentials_danger());
    assert(e[3] == essentials_fades() && e[4] == essentials_social());
    assert forall|k: int| 0 <= k < 5 implies starts_with((#[trigger] essentials()[k]).id, "eql-essentials"@)
        && starts_with(essentials()[k].name, "EQL Essentials"@) by {
        assert(k == 0 || k == 1 || k == 2 || k == 3 || k == 4);
        assert(essentials()[k].id.take(14) =~= "eql-essentials"@);
        assert(essentials()[k].name.take(14) =~= "EQL Essentials"@);
    }
}

/// Filtering a concatenation filters each part.
proof fn lemma_keep_concat(a: Seq<GroupView>, b: Seq<GroupView>, p: spec_fn(GroupView) -> bool)
    ensures
        keep_groups(a + b, p) == keep_groups(a, p) + keep_groups(b, p),
    decreases b.len(),
{
    if b.len() == 0 {
        assert(a + b =~= a);
        assert(keep_groups(a, p) + keep_groups(b, p) =~= keep_groups(a, p));
    } else {
        lemma_keep_concat(a, b.drop_last(), p);
        assert((a + b).drop_last() =~= a + b.drop_last());
        assert((a + b).last() == b.last());
        if p(b.last()) {
            assert(keep_groups(a, p) + keep_groups(b.drop_last(), p).push(b.last()) =~= (keep_groups(a, p)
                + keep_groups(b.drop_last(), p)).push(b.last()));
        }
    }
}

/// Filtering by `p` first changes nothing for a stricter filter `q`.
proof fn lemma_keep_keep(gs: Seq<GroupView>, p: spec_fn(GroupView) -> bool, q: spec_fn(GroupView) -> bool)
    requires
        forall|g: GroupView| #[trigger] q(g) ==> p(g),
    ensures
        keep_groups(keep_groups(gs, p), q) == keep_groups(gs, q),
    decreases gs.len(),
{
    if gs.len() > 0 {
        lemma_keep_keep(gs.drop_last(), p, q);
        let prev = keep_groups(gs.drop_last(), p);
        if p(gs.last()) {
            assert(keep_groups(prev.push(gs.last()), q) == (if q(gs.last()) {
                keep_groups(prev, q).push(gs.last())
            } else {
                keep_groups(prev, q)
            })) by {
                assert(prev.push(gs.last()).drop_last() =~= prev);
            }
        }
    }
}

/// Filtering away every group leaves nothing.
proof fn lemma_keep_none(gs: Seq<GroupView>, q: spec_fn(GroupView) -> bool)
    requires
        forall|i: int| 0 <= i < gs.len() ==> !q(#[trigger] gs[i]),
    ensures
        keep_groups(gs, q) == Seq::<GroupView>::empty(),
    decreases gs.len(),
{
    if gs.len() > 0 {
        assert(!q(gs[gs.len() - 1]));
        lemma_keep_none(gs.drop_last(), q);
    }
}

/// Replacing a group the filter drops by another it drops changes nothing filtered.
proof fn lemma_keep_update(gs: Seq<GroupView>, i: int, g: GroupView, q: spec_fn(GroupView) -> bool)
    requires
        0 <= i < gs.len(),
        !q(gs[i]),
        !q(g),
    ensures
        keep_groups(gs.update(i, g), q) == keep_groups(gs, q),
    decreases gs.len(),
{
    let u = gs.update(i, g);
    if i == gs.len() - 1 {
        assert(u.drop_last() =~= gs.drop_last());
    } else {
        lemma_keep_update(gs.drop_last(), i, g, q);
        assert(u.drop_last() =~= gs.drop_last().update(i, g));
        assert(u.last() == gs.last());
    }
}

/// Merging one built-in category in leaves the other groups as they were.
proof fn lemma_merge_category_others(gs: Seq<GroupView>, k: int)
    requires
        0 <= k < 5,
    ensures
        keep_groups(merge_category(gs, essentials()[k]).0, non_essentials_fn()) == keep_groups(
            gs,
            non_essentials_fn(),
        ),
{
    let f = essentials()[k];
    lemma_categories_marked();
    let ne = non_essentials_fn();
    lemma_find_group(gs, same_category_fn(f), 0);
    match find_group(gs, same_category_fn(f), 0) {
        Some(i) => {
            assert(is_essentials_group(gs[i]));
            let (ts, c) = add_missing(gs[i].triggers, f.triggers, f.triggers.len() as int);
            let g = GroupView {
                id: f.id,
                name: f.name,
                enabled: if is_gameplay_essentials(f) {
                    true
                } else {
                    gs[i].enabled
                },
                triggers: ts,
            };
            assert(merge_category(gs, f).0 == gs.update(i, g));
            lemma_keep_update(gs, i, g, ne);
        },
        None => {
            lemma_keep_concat(seq![f], gs, ne);
            lemma_keep_none(seq![f], ne);
            assert(Seq::<GroupView>::empty() + keep_groups(gs, ne) =~= keep_groups(gs, ne));
        },
    }
}

/// Merging the built-in categories in leaves the other groups as they were.
proof fn lemma_merge_categories_others(gs: Seq<GroupView>, n: int)
    requires
        0 <= n <= 5,
    ensures
        keep_groups(merge_categories(gs, essentials(), n).0, non_essentials_fn()) == keep_groups(
            gs,
            non_essentials_fn(),
        ),
    decreases n,
{
    if n > 0 {
        lemma_merge_category_others(gs, n - 1);
        let g1 = merge_category(gs, essentials()[n - 1]).0;
        lemma_merge_categories_others(g1, n - 1);
    }
}

/// `ensure_essentials` leaves every other group (one its id and name do not mark as an
/// essentials group) in the same order, with the same contents.
pub proof fn law_essentials_keeps_others(gs: Seq<GroupView>)
    ensures
        keep_groups(essentials_spec(gs).0, non_essentials_fn()) == keep_groups(gs, non_essentials_fn()),
{
    let ne = non_essentials_fn();
    reveal_strlit("eql-essentials");
    reveal_strlit("EQL Essentials");
    assert forall|g: GroupView| #[trigger] ne(g) implies not_legacy_fn()(g) by {
        if is_legacy_essentials(g) {
            if g.id == "eql-essentials"@ {
                assert(g.id.take(14) =~= g.id);
            } else {
                assert(g.name.take(14) =~= g.name);
            }
        }
    }
    let s0 = keep_groups(gs, not_legacy_fn());
    lemma_keep_keep(gs, not_legacy_fn(), ne);
    let merged = merge_categories(s0, essentials(), 5).0;
    lemma_merge_categories_others(s0, 5);
    let cur = keep_groups(merged, current_essentials_fn());
    lemma_keep_groups_members(merged, current_essentials_fn());
    let ess = sort_by_rank(cur, 0);
    lemma_sort_members(cur, 0);
    let rest = keep_groups(merged, other_groups_fn());
    assert forall|g: GroupView| #[trigger] ne(g) implies other_groups_fn()(g) by {}
    lemma_keep_keep(merged, other_groups_fn(), ne);
    let armed = ess.map_values(|g: GroupView| arm_gameplay(g));
    assert forall|i: int| 0 <= i < armed.len() implies !ne(#[trigger] armed[i]) by {
        assert(armed[i] == arm_gameplay(ess[i]));
        assert(cur.contains(ess[i]));
        let w = choose|w: int| 0 <= w < cur.len() && cur[w] == ess[i];
        assert(current_essentials_fn()(cur[w]));
    }
    lemma_keep_none(armed, ne);
    assert(essentials_spec(gs).0 == armed + rest);
    lemma_keep_concat(armed, rest, ne);
    assert(Seq::<GroupView>::empty() + keep_groups(rest, ne) =~= keep_groups(rest, ne));
}


/// Some group of `gs` holds trigger `t`, exactly as it is.
pub open spec fn holds_trigger(gs: Seq<GroupView>, t: TriggerView) -> bool {
    exists|k: int, m: int| 0 <= k < gs.len() && 0 <= m < gs[k].triggers.len() && (#[trigger] gs[k].triggers[m]) == t
}

/// Adding missing built-in triggers keeps the existing ones in front, unchanged.
proof fn lemma_add_missing_prefix(ts: Seq<TriggerView>, fresh: Seq<TriggerView>, n: int)
    ensures
        add_missing(ts, fresh, n).0.len() >= ts.len(),
        forall|j: int| 0 <= j < ts.len() ==> (#[trigger] add_missing(ts, fresh, n).0[j]) == ts[j],
    decreases n,
{
    if n > 0 {
        lemma_add_missing_prefix(ts, fresh, n - 1);
        let prev = add_missing(ts, fresh, n - 1).0;
        if find_trigger(prev, id_is(fresh[n - 1].id), 0) is None {
            assert forall|j: int| 0 <= j < ts.len() implies (#[trigger] prev.push(fresh[n - 1])[j]) == ts[j] by {
                assert(prev.push(fresh[n - 1])[j] == prev[j]);
            }
        }
    }
}

/// Merging one built-in category in keeps every trigger some group held.
proof fn lemma_merge_category_keeps(gs: Seq<GroupView>, f: GroupView, t: TriggerView)
    requires
        holds_trigger(gs, t),
    ensures
        holds_trigger(merge_category(gs, f).0, t),
{
    let (k, m) = choose|k: int, m: int|
        0 <= k < gs.len() && 0 <= m < gs[k].triggers.len() && (#[trigger] gs[k].triggers[m]) == t;
    let out = merge_category(gs, f).0;
    lemma_find_group(gs, same_category_fn(f), 0);
    match find_group(gs, same_category_fn(f), 0) {
        Some(i) => {
            lemma_add_missing_prefix(gs[i].triggers, f.triggers, f.triggers.len() as int);
            if k == i {
                assert(out[k].triggers[m] == t);
            } else {
                assert(out[k] == gs[k]);
                assert(out[k].triggers[m] == t);
            }
        },
        None => {
            assert(out[k + 1] == gs[k]);
            assert(out[k + 1].triggers[m] == t);
        },
    }
}

proof fn lemma_merge_categories_keep_trigger(gs: Seq<GroupView>, n: int, t: TriggerView)
    requires
        0 <= n <= 5,
        holds_trigger(gs, t),
    ensures
        holds_trigger(merge_categories(gs, essentials(), n).0, t),
    decreases n,
{
    if n > 0 {
        lemma_merge_category_keeps(gs, essentials()[n - 1], t);
        lemma_merge_categories_keep_trigger(merge_category(gs, essentials()[n - 1]).0, n - 1, t);
    }
}

/// `ensure_essentials` keeps every trigger of every group other than the legacy flat
/// group exactly as it was: it only adds the built-in triggers a category misses.
pub proof fn law_essentials_keeps_triggers(gs: Seq<GroupView>, i: int, j: int)
    requires
        0 <= i < gs.len(),
        0 <= j < gs[i].triggers.len(),
        !is_legacy_essentials(gs[i]),
    ensures
        holds_trigger(essentials_spec(gs).0, gs[i].triggers[j]),
{
    let t = gs[i].triggers[j];
    let s0 = keep_groups(gs, not_legacy_fn());
    lemma_keep_groups_members(gs, not_legacy_fn());
    assert(s0.contains(gs[i]));
    let w = choose|w: int| 0 <= w < s0.len() && s0[w] == gs[i];
    assert(s0[w].triggers[j] == t);
    let merged = merge_categories(s0, essentials(), 5).0;
    lemma_merge_categories_keep_trigger(s0, 5, t);
    let (k, m) = choose|k: int, m: int|
        0 <= k < merged.len() && 0 <= m < merged[k].triggers.len() && (#[trigger] merged[k].triggers[m]) == t;
    let g = merged[k];
    let cur = keep_groups(merged, current_essentials_fn());
    lemma_keep_groups_members(merged, current_essentials_fn());
    let ess = sort_by_rank(cur, 0);
    lemma_sort_members(cur, 0);
    let rest = keep_groups(merged, other_groups_fn());
    lemma_keep_groups_members(merged, other_groups_fn());
    let armed = ess.map_values(|g: GroupView| arm_gameplay(g));
    let r = essentials_spec(gs).0;
    assert(r == armed + rest);
    if current_essentials_fn()(g) {
        assert(cur.contains(g));
        lemma_find_group(essentials(), same_id_fn(g.id), 0);
        assert(ess.contains(g));
        let e = choose|e: int| 0 <= e < ess.len() && ess[e] == g;
        assert(r[e] == arm_gameplay(g));
        assert(r[e].triggers[m] == t);
    } else {
        assert(rest.contains(g));
        let e = choose|e: int| 0 <= e < rest.len() && rest[e] == g;
        assert(r[armed.len() + e] == g);
        assert(r[armed.len() + e].triggers[m] == t);
    }
}


/// `g` is matched by built-in category `k` (by its id or name).
pub open spec fn cat_match(g: GroupView, k: int) -> bool {
    same_category_fn(essentials()[k])(g)
}

/// No built-in category is matched by two groups.
pub open spec fn one_group_per_category(gs: Seq<GroupView>) -> bool {
    forall|i1: int, i2: int, k: int|
        0 <= i1 < gs.len() && 0 <= i2 < gs.len() && 0 <= k < 5 && #[trigger] cat_match(gs[i1], k)
            && #[trigger] cat_match(gs[i2], k) ==> i1 == i2
}

/// No group is matched by two built-in categories.
pub open spec fn one_category_per_group(gs: Seq<GroupView>) -> bool {
    forall|i: int, k1: int, k2: int|
        0 <= i < gs.len() && 0 <= k1 < 5 && 0 <= k2 < 5 && #[trigger] cat_match(gs[i], k1) && #[trigger] cat_match(
            gs[i],
            k2,
        ) ==> k1 == k2
}

/// Every group a category `k` (from `n` on) matches carries all of that category's
/// built-in trigger ids.
spec fn complete_from(gs: Seq<GroupView>, n: int) -> bool {
    forall|i: int, k: int|
        0 <= i < gs.len() && n <= k < 5 && #[trigger] cat_match(gs[i], k) ==> forall|m: int|
            0 <= m < essentials()[k].triggers.len() ==> has_trigger_id(
                gs[i].triggers,
                (#[trigger] essentials()[k].triggers[m]).id,
            )
}

/// A search that finds nothing means no group satisfies the predicate.
proof fn lemma_find_group_none(gs: Seq<GroupView>, p: spec_fn(GroupView) -> bool, from: int)
    requires
        0 <= from,
        find_group(gs, p, from) is None,
    ensures
        forall|i: int| from <= i < gs.len() ==> !p(#[trigger] gs[i]),
    decreases gs.len() - from,
{
    if from < gs.len() {
        lemma_find_group_none(gs, p, from + 1);
    }
}

/// A built-in category matches only itself.
proof fn lemma_category_matches_self(j: int, k: int)
    requires
        0 <= j < 5,
        0 <= k < 5,
        cat_match(essentials()[j], k),
    ensures
        j == k,
{
    lemma_categories_distinct();
}

/// Every trigger id of a list is in it.
proof fn lemma_has_own_ids(ts: Seq<TriggerView>)
    ensures
        forall|m: int| 0 <= m < ts.len() ==> has_trigger_id(ts, (#[trigger] ts[m]).id),
{
    assert forall|m: int| 0 <= m < ts.len() implies has_trigger_id(ts, (#[trigger] ts[m]).id) by {
        assert(ts[m].id == ts[m].id);
    }
}

/// Merging in categories `n - 1` down to `0`, where no category is matched by two groups
/// and no group by two categories, and the groups of categories from `n` on already
/// carry their trigger ids: afterwards every group a category matches carries that
/// category's trigger ids, and matches no other category.
proof fn lemma_merge_unique(gs: Seq<GroupView>, n: int)
    requires
        0 <= n <= 5,
        one_group_per_category(gs),
        one_category_per_group(gs),
        complete_from(gs, n),
    ensures
        one_group_per_category(merge_categories(gs, essentials(), n).0),
        one_category_per_group(merge_categories(gs, essentials(), n).0),
        complete_from(merge_categories(gs, essentials(), n).0, 0),
    decreases n,
{
    if n > 0 {
        let j = n - 1;
        let f = essentials()[j];
        lemma_categories_distinct();
        let out = merge_category(gs, f).0;
        lemma_find_group(gs, same_category_fn(f), 0);
        match find_group(gs, same_category_fn(f), 0) {
            Some(i) => {
                let (ts, c) = add_missing(gs[i].triggers, f.triggers, f.triggers.len() as int);
                lemma_add_missing_has(gs[i].triggers, f.triggers, f.triggers.len() as int);
                let g = GroupView {
                    id: f.id,
                    name: f.name,
                    enabled: if is_gameplay_essentials(f) {
                        true
                    } else {
                        gs[i].enabled
                    },
                    triggers: ts,
                };
                assert(out == gs.update(i, g));
                assert forall|k: int| 0 <= k < 5 && cat_match(g, k) implies k == j by {
                    assert(cat_match(f, k));
                    lemma_category_matches_self(j, k);
                }
                assert(cat_match(gs[i], j));
                assert forall|i1: int, i2: int, k: int|
                    0 <= i1 < out.len() && 0 <= i2 < out.len() && 0 <= k < 5 && #[trigger] cat_match(out[i1], k)
                        && #[trigger] cat_match(out[i2], k) implies i1 == i2 by {
                    if i1 == i {
                        assert(k == j);
                        if i2 != i {
                            assert(out[i2] == gs[i2]);
                        }
                    } else if i2 == i {
                        assert(k == j);
                        assert(out[i1] == gs[i1]);
                    } else {
                        assert(out[i1] == gs[i1] && out[i2] == gs[i2]);
                    }
                }
                assert forall|q: int, k1: int, k2: int|
                    0 <= q < out.len() && 0 <= k1 < 5 && 0 <= k2 < 5 && #[trigger] cat_match(out[q], k1)
                        && #[trigger] cat_match(out[q], k2) implies k1 == k2 by {
                    if q != i {
                        assert(out[q] == gs[q]);
                    }
                }
                assert forall|q: int, k: int|
                    0 <= q < out.len() && j <= k < 5 && #[trigger] cat_match(out[q], k) implies forall|m: int|
                        0 <= m < essentials()[k].triggers.len() ==> has_trigger_id(
                            out[q].triggers,
                            (#[trigger] essentials()[k].triggers[m]).id,
                        ) by {
                    if q == i {
                        assert(k == j);
                    } else {
                        assert(out[q] == gs[q]);
                        if k == j {
                            assert(cat_match(gs[i], j));
                        }
                    }
                }
                lemma_merge_unique(out, n - 1);
            },
            None => {
                lemma_find_group_none(gs, same_category_fn(f), 0);
                assert(out == seq![f] + gs);
                lemma_has_own_ids(f.triggers);
                assert forall|k: int| 0 <= k < 5 && cat_match(f, k) implies k == j by {
                    lemma_category_matches_self(j, k);
                }
                assert forall|i1: int, i2: int, k: int|
                    0 <= i1 < out.len() && 0 <= i2 < out.len() && 0 <= k < 5 && #[trigger] cat_match(out[i1], k)
                        && #[trigger] cat_match(out[i2], k) implies i1 == i2 by {
                    if i1 == 0 {
                        assert(k == j);
                        if i2 != 0 {
                            assert(out[i2] == gs[i2 - 1]);
                        }
                    } else if i2 == 0 {
                        assert(k == j);
                        assert(out[i1] == gs[i1 - 1]);
                    } else {
                        assert(out[i1] == gs[i1 - 1] && out[i2] == gs[i2 - 1]);
                    }
                }
                assert forall|q: int, k1: int, k2: int|
                    0 <= q < out.len() && 0 <= k1 < 5 && 0 <= k2 < 5 && #[trigger] cat_match(out[q], k1)
                        && #[trigger] cat_match(out[q], k2) implies k1 == k2 by {
                    if q != 0 {
                        assert(out[q] == gs[q - 1]);
                    }
                }
                assert forall|q: int, k: int|
                    0 <= q < out.len() && j <= k < 5 && #[trigger] cat_match(out[q], k) implies forall|m: int|
                        0 <= m < essentials()[k].triggers.len() ==> has_trigger_id(
                            out[q].triggers,
                            (#[trigger] essentials()[k].triggers[m]).id,
                        ) by {
                    if q == 0 {
                        assert(k == j);
                    } else {
                        assert(out[q] == gs[q - 1]);
                        if k == j {
                            assert(!same_category_fn(f)(gs[q - 1]));
                        }
                    }
                }
                lemma_merge_unique(out, n - 1);
            },
        }
    }
}


/// Some group is matched by built-in category `k`.
pub open spec fn category_present(gs: Seq<GroupView>, k: int) -> bool {
    exists|i: int| 0 <= i < gs.len() && #[trigger] cat_match(gs[i], k)
}

/// Adding built-in triggers whose ids are all present adds nothing.
proof fn lemma_add_missing_present(ts: Seq<TriggerView>, fresh: Seq<TriggerView>, n: int)
    requires
        0 <= n <= fresh.len(),
        forall|m: int| 0 <= m < n ==> has_trigger_id(ts, (#[trigger] fresh[m]).id),
    ensures
        add_missing(ts, fresh, n) == (ts, 0nat),
    decreases n,
{
    if n > 0 {
        lemma_add_missing_present(ts, fresh, n - 1);
        let f = fresh[n - 1];
        assert(has_trigger_id(ts, f.id));
        let w = choose|w: int| 0 <= w < ts.len() && (#[trigger] ts[w]).id == f.id;
        lemma_find_trigger(ts, id_is(f.id), 0);
        if find_trigger(ts, id_is(f.id), 0) is None {
            assert(!id_is(f.id)(ts[w]));
        }
    }
}

/// Filtering by a predicate every group satisfies keeps them all.
proof fn lemma_keep_all(gs: Seq<GroupView>, p: spec_fn(GroupView) -> bool)
    requires
        forall|i: int| 0 <= i < gs.len() ==> p(#[trigger] gs[i]),
    ensures
        keep_groups(gs, p) == gs,
    decreases gs.len(),
{
    if gs.len() > 0 {
        assert(p(gs[gs.len() - 1]));
        lemma_keep_all(gs.drop_last(), p);
        assert(gs.drop_last().push(gs.last()) =~= gs);
    }
}

/// Merging in categories where every category is present and every group a category
/// matches is complete for it and matches no other adds nothing.
proof fn lemma_merge_settled(gs: Seq<GroupView>, n: int)
    requires
        0 <= n <= 5,
        one_category_per_group(gs),
        complete_from(gs, 0),
        forall|k: int| 0 <= k < n ==> #[trigger] category_present(gs, k),
    ensures
        merge_categories(gs, essentials(), n).1 == 0,
        one_category_per_group(merge_categories(gs, essentials(), n).0),
        complete_from(merge_categories(gs, essentials(), n).0, 0),
        flags_set(gs) ==> flags_set(merge_categories(gs, essentials(), n).0),
    decreases n,
{
    if n > 0 {
        let j = n - 1;
        let f = essentials()[j];
        lemma_categories_distinct();
        let out = merge_category(gs, f).0;
        assert(category_present(gs, j));
        let w = choose|w: int| 0 <= w < gs.len() && #[trigger] cat_match(gs[w], j);
        lemma_find_group(gs, same_category_fn(f), 0);
        if find_group(gs, same_category_fn(f), 0) is None {
            lemma_find_group_none(gs, same_category_fn(f), 0);
            assert(!same_category_fn(f)(gs[w]));
        }
        let i = find_group(gs, same_category_fn(f), 0)->0;
        assert(cat_match(gs[i], j));
        lemma_add_missing_present(gs[i].triggers, f.triggers, f.triggers.len() as int);
        let g = GroupView {
            id: f.id,
            name: f.name,
            enabled: if is_gameplay_essentials(f) {
                true
            } else {
                gs[i].enabled
            },
            triggers: gs[i].triggers,
        };
        assert(out == gs.update(i, g));
        assert(merge_category(gs, f).1 == 0);
        assert forall|k: int| 0 <= k < 5 && cat_match(g, k) implies k == j by {
            assert(cat_match(f, k));
            lemma_category_matches_self(j, k);
        }
        assert forall|q: int, k1: int, k2: int|
            0 <= q < out.len() && 0 <= k1 < 5 && 0 <= k2 < 5 && #[trigger] cat_match(out[q], k1)
                && #[trigger] cat_match(out[q], k2) implies k1 == k2 by {
            if q != i {
                assert(out[q] == gs[q]);
            }
        }
        assert forall|q: int, k: int|
            0 <= q < out.len() && 0 <= k < 5 && #[trigger] cat_match(out[q], k) implies forall|m: int|
                0 <= m < essentials()[k].triggers.len() ==> has_trigger_id(
                    out[q].triggers,
                    (#[trigger] essentials()[k].triggers[m]).id,
                ) by {
            if q == i {
                assert(k == j);
            } else {
                assert(out[q] == gs[q]);
            }
        }
        assert forall|k: int| 0 <= k < n - 1 implies #[trigger] category_present(out, k) by {
            assert(category_present(gs, k));
            let wk = choose|q: int| 0 <= q < gs.len() && #[trigger] cat_match(gs[q], k);
            if wk == i {
                assert(k == j);
            }
            assert(out[wk] == gs[wk]);
        }
        if flags_set(gs) {
            lemma_gameplay_categories();
            assert(carries_category_flags(gs[i], j));
            assert forall|q: int, k: int|
                0 <= q < out.len() && 0 <= k < 5 && #[trigger] cat_match(out[q], k) implies carries_category_flags(
                    out[q],
                    k,
                ) by {
                if q == i {
                    assert(k == j);
                    if is_gameplay_essentials(f) {
                        assert(f.enabled);
                    }
                } else {
                    assert(out[q] == gs[q]);
                }
            }
        }
        lemma_merge_settled(out, n - 1);
    }
}

/// Where, apart from the legacy flat group, no built-in category is matched (by id or
/// name) by two groups and no group by two categories, `ensure_essentials` settles the
/// library: running it again adds nothing and returns 0.
pub proof fn law_essentials_settle(gs: Seq<GroupView>)
    requires
        one_group_per_category(keep_groups(gs, not_legacy_fn())),
        one_category_per_group(keep_groups(gs, not_legacy_fn())),
    ensures
        essentials_spec(essentials_spec(gs).0).1 == 0,
{
    lemma_essentials_shape(gs);
    let r = essentials_spec(gs).0;
    lemma_keep_all(r, not_legacy_fn());
    lemma_merge_settled(r, 5);
}


/// How many groups built-in category `k` matches.
spec fn cat_count(gs: Seq<GroupView>, k: int) -> nat
    decreases gs.len(),
{
    if gs.len() == 0 {
        0
    } else {
        cat_count(gs.drop_last(), k) + if cat_match(gs.last(), k) {
            1nat
        } else {
            0nat
        }
    }
}

proof fn lemma_count_concat(a: Seq<GroupView>, b: Seq<GroupView>, k: int)
    ensures
        cat_count(a + b, k) == cat_count(a, k) + cat_count(b, k),
    decreases b.len(),
{
    if b.len() == 0 {
        assert(a + b =~= a);
    } else {
        lemma_count_concat(a, b.drop_last(), k);
        assert((a + b).drop_last() =~= a + b.drop_last());
        assert((a + b).last() == b.last());
    }
}

/// Counting a group pushed on the end.
proof fn lemma_count_push(gs: Seq<GroupView>, g: GroupView, k: int)
    ensures
        cat_count(gs.push(g), k) == cat_count(gs, k) + if cat_match(g, k) {
            1nat
        } else {
            0nat
        },
{
    assert(gs.push(g).drop_last() =~= gs);
}

/// Groups (all accepted by `r`) split by two filters that are each other's opposite on
/// `r`'s groups count as many as all of them.
proof fn lemma_count_split(
    gs: Seq<GroupView>,
    p: spec_fn(GroupView) -> bool,
    q: spec_fn(GroupView) -> bool,
    r: spec_fn(GroupView) -> bool,
    k: int,
)
    requires
        forall|i: int| 0 <= i < gs.len() ==> r(#[trigger] gs[i]),
        forall|g: GroupView| r(g) ==> (#[trigger] p(g) == !q(g)),
    ensures
        cat_count(keep_groups(gs, p), k) + cat_count(keep_groups(gs, q), k) == cat_count(gs, k),
    decreases gs.len(),
{
    if gs.len() > 0 {
        let init = gs.drop_last();
        let x = gs.last();
        assert(r(gs[gs.len() - 1]));
        assert forall|i: int| 0 <= i < init.len() implies r(#[trigger] init[i]) by {
            assert(init[i] == gs[i]);
        }
        lemma_count_split(init, p, q, r, k);
        assert(p(x) == !q(x));
        lemma_count_push(keep_groups(init, p), x, k);
        lemma_count_push(keep_groups(init, q), x, k);
    }
}

/// Filters that agree on every group filter alike.
proof fn lemma_keep_ext(gs: Seq<GroupView>, p: spec_fn(GroupView) -> bool, q: spec_fn(GroupView) -> bool)
    requires
        forall|g: GroupView| #[trigger] p(g) == q(g),
    ensures
        keep_groups(gs, p) == keep_groups(gs, q),
    decreases gs.len(),
{
    if gs.len() > 0 {
        lemma_keep_ext(gs.drop_last(), p, q);
        assert(p(gs.last()) == q(gs.last()));
    }
}

/// Groups of rank `j` or later, or of no rank.
spec fn rank_from(j: int) -> spec_fn(GroupView) -> bool {
    |g: GroupView| category_rank(g) matches Some(r) ==> r >= j
}

/// Sorting by rank from `j` on counts the groups of rank `j` or later, or of no rank.
proof fn lemma_count_sort(gs: Seq<GroupView>, j: int, k: int)
    requires
        0 <= j <= 5,
    ensures
        cat_count(sort_by_rank(gs, j), k) == cat_count(keep_groups(gs, rank_from(j)), k),
    decreases 5 - j,
{
    lemma_categories_distinct();
    if j >= 5 {
        assert forall|g: GroupView| #[trigger] unranked_fn()(g) == rank_from(j)(g) by {
            lemma_find_group(essentials(), same_id_fn(g.id), 0);
        }
        lemma_keep_ext(gs, unranked_fn(), rank_from(j));
    } else {
        lemma_count_sort(gs, j + 1, k);
        lemma_count_concat(keep_groups(gs, rank_is(j)), sort_by_rank(gs, j + 1), k);
        let upper = keep_groups(gs, rank_from(j));
        assert forall|g: GroupView| #[trigger] rank_is(j)(g) implies rank_from(j)(g) by {}
        assert forall|g: GroupView| #[trigger] rank_from(j + 1)(g) implies rank_from(j)(g) by {}
        lemma_keep_keep(gs, rank_from(j), rank_is(j));
        lemma_keep_keep(gs, rank_from(j), rank_from(j + 1));
        lemma_keep_groups_members(gs, rank_from(j));
        lemma_count_split(upper, rank_is(j), rank_from(j + 1), rank_from(j), k);
    }
}

/// Filters that agree on every group `r` accepts filter `r`'s groups alike.
proof fn lemma_keep_ext_on(
    gs: Seq<GroupView>,
    p: spec_fn(GroupView) -> bool,
    q: spec_fn(GroupView) -> bool,
    r: spec_fn(GroupView) -> bool,
)
    requires
        forall|i: int| 0 <= i < gs.len() ==> r(#[trigger] gs[i]),
        forall|g: GroupView| r(g) ==> (#[trigger] p(g) == q(g)),
    ensures
        keep_groups(gs, p) == keep_groups(gs, q),
    decreases gs.len(),
{
    if gs.len() > 0 {
        assert(r(gs[gs.len() - 1]));
        assert forall|i: int| 0 <= i < gs.drop_last().len() implies r(#[trigger] gs.drop_last()[i]) by {
            assert(gs.drop_last()[i] == gs[i]);
        }
        lemma_keep_ext_on(gs.drop_last(), p, q, r);
        assert(p(gs.last()) == q(gs.last()));
    }
}


proof fn lemma_count_zero(gs: Seq<GroupView>, k: int)
    requires
        forall|i: int| 0 <= i < gs.len() ==> !cat_match(#[trigger] gs[i], k),
    ensures
        cat_count(gs, k) == 0,
    decreases gs.len(),
{
    if gs.len() > 0 {
        assert(!cat_match(gs[gs.len() - 1], k));
        assert forall|i: int| 0 <= i < gs.drop_last().len() implies !cat_match(#[trigger] gs.drop_last()[i], k) by {
            assert(gs.drop_last()[i] == gs[i]);
        }
        lemma_count_zero(gs.drop_last(), k);
    }
}

/// A category matched at position `i` counts at least one group; at `i1` and `i2`, two.
proof fn lemma_count_at_least(gs: Seq<GroupView>, k: int, i1: int, i2: int)
    requires
        0 <= i1 < gs.len(),
        cat_match(gs[i1], k),
        i1 < i2 < gs.len() ==> cat_match(gs[i2], k),
    ensures
        cat_count(gs, k) >= 1,
        i1 < i2 < gs.len() ==> cat_count(gs, k) >= 2,
    decreases gs.len(),
{
    let init = gs.drop_last();
    if i1 == gs.len() - 1 {
        assert(gs.last() == gs[i1]);
    } else if i1 < i2 < gs.len() && i2 == gs.len() - 1 {
        assert(init[i1] == gs[i1]);
        lemma_count_at_least(init, k, i1, i1);
        assert(gs.last() == gs[i2]);
    } else {
        assert(init[i1] == gs[i1]);
        if i1 < i2 < gs.len() {
            assert(init[i2] == gs[i2]);
        }
        lemma_count_at_least(init, k, i1, i2);
    }
}

/// Where no category is matched by two groups, each matches at most one.
proof fn lemma_unique_count(gs: Seq<GroupView>, k: int)
    requires
        one_group_per_category(gs),
        0 <= k < 5,
    ensures
        cat_count(gs, k) <= 1,
    decreases gs.len(),
{
    if gs.len() > 0 {
        let init = gs.drop_last();
        assert forall|i1: int, i2: int, k2: int|
            0 <= i1 < init.len() && 0 <= i2 < init.len() && 0 <= k2 < 5 && #[trigger] cat_match(init[i1], k2)
                && #[trigger] cat_match(init[i2], k2) implies i1 == i2 by {
            assert(init[i1] == gs[i1] && init[i2] == gs[i2]);
        }
        lemma_unique_count(init, k);
        if cat_match(gs.last(), k) {
            assert forall|i: int| 0 <= i < init.len() implies !cat_match(#[trigger] init[i], k) by {
                assert(init[i] == gs[i]);
                if cat_match(init[i], k) {
                    assert(cat_match(gs[gs.len() - 1], k));
                }
            }
            lemma_count_zero(init, k);
        }
    }
}

/// Where each category matches at most one group, no category is matched by two.
proof fn lemma_count_unique(gs: Seq<GroupView>)
    requires
        forall|k: int| 0 <= k < 5 ==> #[trigger] cat_count(gs, k) <= 1,
    ensures
        one_group_per_category(gs),
{
    assert forall|i1: int, i2: int, k: int|
        0 <= i1 < gs.len() && 0 <= i2 < gs.len() && 0 <= k < 5 && #[trigger] cat_match(gs[i1], k)
            && #[trigger] cat_match(gs[i2], k) implies i1 == i2 by {
        if i1 < i2 {
            lemma_count_at_least(gs, k, i1, i2);
        } else if i2 < i1 {
            lemma_count_at_least(gs, k, i2, i1);
        }
        assert(cat_count(gs, k) <= 1);
    }
}

/// Arming gameplay categories keeps the counts (ids and names stay).
proof fn lemma_count_arm(gs: Seq<GroupView>, k: int)
    ensures
        cat_count(gs.map_values(|g: GroupView| arm_gameplay(g)), k) == cat_count(gs, k),
    decreases gs.len(),
{
    if gs.len() > 0 {
        lemma_count_arm(gs.drop_last(), k);
        assert(gs.map_values(|g: GroupView| arm_gameplay(g)).drop_last() =~= gs.drop_last().map_values(
            |g: GroupView| arm_gameplay(g),
        ));
    }
}

/// Under the settling condition, `ensure_essentials` leaves no category matched by two
/// groups.
proof fn lemma_essentials_unique(gs: Seq<GroupView>)
    requires
        one_group_per_category(keep_groups(gs, not_legacy_fn())),
        one_category_per_group(keep_groups(gs, not_legacy_fn())),
    ensures
        one_group_per_category(essentials_spec(gs).0),
{
    lemma_categories_distinct();
    let s0 = keep_groups(gs, not_legacy_fn());
    lemma_merge_unique(s0, 5);
    let merged = merge_categories(s0, essentials(), 5).0;
    let cur = keep_groups(merged, current_essentials_fn());
    let ess = sort_by_rank(cur, 0);
    let rest = keep_groups(merged, other_groups_fn());
    let armed = ess.map_values(|g: GroupView| arm_gameplay(g));
    let r = essentials_spec(gs).0;
    assert(r == armed + rest);
    assert forall|i: int| 0 <= i < cur.len() implies rank_from(0)(#[trigger] cur[i]) by {
        lemma_find_group(essentials(), same_id_fn(cur[i].id), 0);
    }
    lemma_keep_all(cur, rank_from(0));
    let all = |g: GroupView| true;
    assert forall|k: int| 0 <= k < 5 implies #[trigger] cat_count(r, k) <= 1 by {
        lemma_unique_count(merged, k);
        lemma_count_concat(armed, rest, k);
        lemma_count_arm(ess, k);
        lemma_count_sort(cur, 0, k);
        assert forall|i: int| 0 <= i < merged.len() implies all(#[trigger] merged[i]) by {}
        lemma_count_split(merged, current_essentials_fn(), other_groups_fn(), all, k);
    }
    lemma_count_unique(r);
}


/// `g` carries built-in category `k`'s enabled flags: its own, and each built-in
/// trigger's on the first trigger with its id.
pub open spec fn carries_category_flags(g: GroupView, k: int) -> bool {
    &&& g.enabled == essentials()[k].enabled
    &&& forall|m: int|
        0 <= m < essentials()[k].triggers.len() ==> (find_trigger(
            g.triggers,
            id_is((#[trigger] essentials()[k].triggers[m]).id),
            0,
        ) matches Some(j) ==> g.triggers[j].enabled == essentials()[k].triggers[m].enabled)
}

/// Every group a built-in category matches carries that category's flags.
pub open spec fn flags_set(gs: Seq<GroupView>) -> bool {
    forall|i: int, k: int|
        0 <= i < gs.len() && 0 <= k < 5 && #[trigger] cat_match(gs[i], k) ==> carries_category_flags(gs[i], k)
}

/// The settled shape: each group matches at most one category and carries the trigger ids
/// of the one it matches; every category is present; no legacy flat group.
spec fn settled_shape(gs: Seq<GroupView>) -> bool {
    &&& one_category_per_group(gs)
    &&& complete_from(gs, 0)
    &&& forall|k: int| 0 <= k < 5 ==> #[trigger] category_present(gs, k)
    &&& forall|q: int| 0 <= q < gs.len() ==> not_legacy_fn()(#[trigger] gs[q])
}

/// The gameplay categories are the first four, armed by default; Social is not one.
proof fn lemma_gameplay_categories()
    ensures
        forall|k: int| 0 <= k < 5 && is_gameplay_essentials(#[trigger] essentials()[k]) ==> essentials()[k].enabled,
        forall|g: GroupView| #[trigger] is_gameplay_essentials(g) ==> exists|k: int|
            0 <= k < 4 && #[trigger] cat_match(g, k),
        forall|k: int| 0 <= k < 4 ==> (#[trigger] essentials()[k]).enabled,
{
    lemma_categories_distinct();
    let e = essentials();
    assert(e[0] == essentials_core() && e[1] == essentials_combat() && e[2] == essentials_danger());
    assert(e[3] == essentials_fades() && e[4] == essentials_social());
    assert forall|k: int| 0 <= k < 4 implies (#[trigger] essentials()[k]).enabled by {
        assert(k == 0 || k == 1 || k == 2 || k == 3);
    }
    assert forall|k: int| 0 <= k < 5 && is_gameplay_essentials(#[trigger] essentials()[k]) implies essentials()[k].enabled by {
        if k == 4 {
            assert(e[4].id != e[0].id && e[4].id != e[1].id && e[4].id != e[2].id && e[4].id != e[3].id);
            assert(e[4].name != e[0].name && e[4].name != e[1].name && e[4].name != e[2].name
                && e[4].name != e[3].name);
        }
    }
    assert forall|g: GroupView| #[trigger] is_gameplay_essentials(g) implies exists|k: int|
        0 <= k < 4 && #[trigger] cat_match(g, k) by {
        if g.id == e[0].id || g.name == e[0].name {
            assert(cat_match(g, 0));
        } else if g.id == e[1].id || g.name == e[1].name {
            assert(cat_match(g, 1));
        } else if g.id == e[2].id || g.name == e[2].name {
            assert(cat_match(g, 2));
        } else {
            assert(cat_match(g, 3));
        }
    }
}

/// What `ensure_essentials` leaves under the settling condition.
proof fn lemma_essentials_shape(gs: Seq<GroupView>)
    requires
        one_group_per_category(keep_groups(gs, not_legacy_fn())),
        one_category_per_group(keep_groups(gs, not_legacy_fn())),
    ensures
        settled_shape(essentials_spec(gs).0),
        one_group_per_category(essentials_spec(gs).0),
{
    lemma_categories_distinct();
    lemma_essentials_unique(gs);
    let s0 = keep_groups(gs, not_legacy_fn());
    lemma_merge_unique(s0, 5);
    let merged = merge_categories(s0, essentials(), 5).0;
    let cur = keep_groups(merged, current_essentials_fn());
    lemma_keep_groups_members(merged, current_essentials_fn());
    let ess = sort_by_rank(cur, 0);
    lemma_sort_members(cur, 0);
    let rest = keep_groups(merged, other_groups_fn());
    lemma_keep_groups_members(merged, other_groups_fn());
    let armed = ess.map_values(|g: GroupView| arm_gameplay(g));
    let r = essentials_spec(gs).0;
    assert(r == armed + rest);
    assert forall|q: int| 0 <= q < r.len() implies exists|w: int|
        0 <= w < merged.len() && (#[trigger] r[q]).id == merged[w].id && r[q].name == merged[w].name
            && r[q].triggers == merged[w].triggers by {
        if q < armed.len() {
            assert(r[q] == arm_gameplay(ess[q]));
            assert(cur.contains(ess[q]));
            let c = choose|c: int| 0 <= c < cur.len() && cur[c] == ess[q];
            assert(merged.contains(cur[c]));
            let w = choose|w: int| 0 <= w < merged.len() && merged[w] == cur[c];
        } else {
            assert(r[q] == rest[q - armed.len()]);
            assert(merged.contains(rest[q - armed.len()]));
            let w = choose|w: int| 0 <= w < merged.len() && merged[w] == rest[q - armed.len()];
        }
    }
    assert forall|q: int, k1: int, k2: int|
        0 <= q < r.len() && 0 <= k1 < 5 && 0 <= k2 < 5 && #[trigger] cat_match(r[q], k1)
            && #[trigger] cat_match(r[q], k2) implies k1 == k2 by {
        let w = choose|w: int|
            0 <= w < merged.len() && (#[trigger] r[q]).id == merged[w].id && r[q].name == merged[w].name
                && r[q].triggers == merged[w].triggers;
        assert(cat_match(merged[w], k1) && cat_match(merged[w], k2));
    }
    assert forall|q: int, k: int|
        0 <= q < r.len() && 0 <= k < 5 && #[trigger] cat_match(r[q], k) implies forall|m: int|
            0 <= m < essentials()[k].triggers.len() ==> has_trigger_id(
                r[q].triggers,
                (#[trigger] essentials()[k].triggers[m]).id,
            ) by {
        let w = choose|w: int|
            0 <= w < merged.len() && (#[trigger] r[q]).id == merged[w].id && r[q].name == merged[w].name
                && r[q].triggers == merged[w].triggers;
        assert(cat_match(merged[w], k));
    }
    law_essentials_complete(gs);
    assert forall|k: int| 0 <= k < 5 implies #[trigger] category_present(r, k) by {
        assert(has_armed_category(r, essentials()[k]));
        let q = choose|q: int|
            0 <= q < r.len() && category_complete(#[trigger] r[q], essentials()[k]) && (is_gameplay_essentials(
                essentials()[k],
            ) ==> r[q].enabled);
        assert(cat_match(r[q], k));
    }
    assert forall|q: int| 0 <= q < r.len() implies not_legacy_fn()(#[trigger] r[q]) by {}
}


/// Libraries alike in group ids, names and trigger ids share the settled shape.
proof fn lemma_same_keys_shape(a: Seq<GroupView>, b: Seq<GroupView>)
    requires
        a.len() == b.len(),
        forall|i: int| 0 <= i < a.len() ==> same_keys(#[trigger] a[i], b[i]),
        settled_shape(b),
    ensures
        settled_shape(a),
        one_group_per_category(b) ==> one_group_per_category(a),
{
    assert forall|i: int, k: int| 0 <= i < a.len() && 0 <= k < 5 implies #[trigger] cat_match(a[i], k) == cat_match(b[i], k) by {
        assert(same_keys(a[i], b[i]));
    }
    assert forall|q: int, k1: int, k2: int|
        0 <= q < a.len() && 0 <= k1 < 5 && 0 <= k2 < 5 && #[trigger] cat_match(a[q], k1)
            && #[trigger] cat_match(a[q], k2) implies k1 == k2 by {
        assert(cat_match(b[q], k1) && cat_match(b[q], k2));
    }
    assert forall|q: int, k: int|
        0 <= q < a.len() && 0 <= k < 5 && #[trigger] cat_match(a[q], k) implies forall|m: int|
            0 <= m < essentials()[k].triggers.len() ==> has_trigger_id(
                a[q].triggers,
                (#[trigger] essentials()[k].triggers[m]).id,
            ) by {
        assert(cat_match(b[q], k));
        assert(same_keys(a[q], b[q]));
        assert forall|m: int| 0 <= m < essentials()[k].triggers.len() implies has_trigger_id(
            a[q].triggers,
            (#[trigger] essentials()[k].triggers[m]).id,
        ) by {
            assert(has_trigger_id(b[q].triggers, essentials()[k].triggers[m].id));
            let x = choose|x: int| 0 <= x < b[q].triggers.len() && (#[trigger] b[q].triggers[x]).id
                == essentials()[k].triggers[m].id;
            assert(a[q].triggers[x].id == b[q].triggers[x].id);
        }
    }
    assert forall|k: int| 0 <= k < 5 implies #[trigger] category_present(a, k) by {
        assert(category_present(b, k));
        let q = choose|q: int| 0 <= q < b.len() && #[trigger] cat_match(b[q], k);
        assert(cat_match(a[q], k));
    }
    assert forall|q: int| 0 <= q < a.len() implies not_legacy_fn()(#[trigger] a[q]) by {
        assert(not_legacy_fn()(b[q]));
        assert(same_keys(a[q], b[q]));
    }
    if one_group_per_category(b) {
        assert forall|i1: int, i2: int, k: int|
            0 <= i1 < a.len() && 0 <= i2 < a.len() && 0 <= k < 5 && #[trigger] cat_match(a[i1], k)
                && #[trigger] cat_match(a[i2], k) implies i1 == i2 by {
            assert(cat_match(b[i1], k) && cat_match(b[i2], k));
        }
    }
}

/// `ensure_essentials` on a settled library whose categories carry their flags keeps
/// them carried.
proof fn lemma_essentials_flags(l: Seq<GroupView>)
    requires
        settled_shape(l),
        flags_set(l),
    ensures
        flags_set(essentials_spec(l).0),
        forall|k: int| 0 <= k < 5 ==> #[trigger] category_present(essentials_spec(l).0, k),
{
    lemma_categories_distinct();
    lemma_gameplay_categories();
    lemma_keep_all(l, not_legacy_fn());
    lemma_merge_settled(l, 5);
    let merged = merge_categories(l, essentials(), 5).0;
    let cur = keep_groups(merged, current_essentials_fn());
    lemma_keep_groups_members(merged, current_essentials_fn());
    let ess = sort_by_rank(cur, 0);
    lemma_sort_members(cur, 0);
    let rest = keep_groups(merged, other_groups_fn());
    lemma_keep_groups_members(merged, other_groups_fn());
    let armed = ess.map_values(|g: GroupView| arm_gameplay(g));
    let r = essentials_spec(l).0;
    assert(r == armed + rest);
    assert forall|q: int, k: int|
        0 <= q < r.len() && 0 <= k < 5 && #[trigger] cat_match(r[q], k) implies carries_category_flags(r[q], k) by {
        if q < armed.len() {
            assert(r[q] == arm_gameplay(ess[q]));
            assert(cur.contains(ess[q]));
            let c = choose|c: int| 0 <= c < cur.len() && cur[c] == ess[q];
            assert(merged.contains(cur[c]));
            let w = choose|w: int| 0 <= w < merged.len() && merged[w] == cur[c];
            assert(cat_match(merged[w], k));
            assert(carries_category_flags(merged[w], k));
            if is_gameplay_essentials(merged[w]) {
                let k2 = choose|k2: int| 0 <= k2 < 4 && #[trigger] cat_match(merged[w], k2);
                assert(k2 == k);
            }
        } else {
            assert(r[q] == rest[q - armed.len()]);
            assert(merged.contains(rest[q - armed.len()]));
            let w = choose|w: int| 0 <= w < merged.len() && merged[w] == rest[q - armed.len()];
            assert(cat_match(merged[w], k));
        }
    }
    law_essentials_complete(l);
    assert forall|k: int| 0 <= k < 5 implies #[trigger] category_present(r, k) by {
        assert(has_armed_category(r, essentials()[k]));
        let q = choose|q: int|
            0 <= q < r.len() && category_complete(#[trigger] r[q], essentials()[k]) && (is_gameplay_essentials(
                essentials()[k],
            ) ==> r[q].enabled);
        assert(cat_match(r[q], k));
    }
}

/// Applying built-in trigger flags that are already set changes nothing.
proof fn lemma_apply_trigger_zero(ts: Seq<TriggerView>, fts: Seq<TriggerView>, n: int)
    requires
        0 <= n <= fts.len(),
        forall|m: int|
            0 <= m < n ==> (find_trigger(ts, id_is((#[trigger] fts[m]).id), 0) matches Some(j) ==> ts[j].enabled
                == fts[m].enabled),
    ensures
        apply_trigger_defaults(ts, fts, n) == (ts, 0nat),
    decreases n,
{
    if n > 0 {
        lemma_apply_trigger_zero(ts, fts, n - 1);
        let ft = fts[n - 1];
        lemma_find_trigger(ts, id_is(ft.id), 0);
        match find_trigger(ts, id_is(ft.id), 0) {
            Some(j) => {
                assert(ts[j].enabled == ft.enabled);
            },
            None => {},
        }
    }
}

/// Applying the categories' flags where every category is present and carries them
/// changes nothing.
proof fn lemma_apply_defaults_zero(gs: Seq<GroupView>, n: int)
    requires
        0 <= n <= 5,
        flags_set(gs),
        forall|k: int| 0 <= k < n ==> #[trigger] category_present(gs, k),
    ensures
        apply_defaults(gs, essentials(), n) == (gs, 0nat),
    decreases n,
{
    lemma_categories_distinct();
    if n > 0 {
        lemma_apply_defaults_zero(gs, n - 1);
        let j = n - 1;
        let f = essentials()[j];
        assert(category_present(gs, j));
        let w = choose|w: int| 0 <= w < gs.len() && #[trigger] cat_match(gs[w], j);
        lemma_find_group(gs, same_category_fn(f), 0);
        if find_group(gs, same_category_fn(f), 0) is None {
            lemma_find_group_none(gs, same_category_fn(f), 0);
            assert(!same_category_fn(f)(gs[w]));
        }
        let i = find_group(gs, same_category_fn(f), 0)->0;
        assert(cat_match(gs[i], j));
        assert(carries_category_flags(gs[i], j));
        lemma_apply_trigger_zero(gs[i].triggers, f.triggers, f.triggers.len() as int);
        let g = gs[i];
        assert(GroupView { enabled: f.enabled, triggers: g.triggers, ..g } == g);
        assert(gs.update(i, g) =~= gs);
    }
}

/// Where, apart from the legacy flat group, no built-in category is matched (by id or
/// name) by two groups and no group by two categories, the gameplay defaults settle the
/// library: applying them again changes no flag and returns 0.
pub proof fn law_gameplay_defaults_settle(gs: Seq<GroupView>)
    requires
        one_group_per_category(keep_groups(gs, not_legacy_fn())),
        one_category_per_group(keep_groups(gs, not_legacy_fn())),
    ensures
        gameplay_defaults_spec(gameplay_defaults_spec(gs).0).1 == 0,
{
    lemma_categories_distinct();
    lemma_essentials_shape(gs);
    let r = essentials_spec(gs).0;
    let lib1 = gameplay_defaults_spec(gs).0;
    law_gameplay_defaults_groups(gs);
    lemma_same_keys_shape(lib1, r);
    assert forall|i: int, k: int| 0 <= i < lib1.len() && 0 <= k < 5 && #[trigger] cat_match(lib1[i], k) implies carries_category_flags(
        lib1[i],
        k,
    ) by {
        assert(same_keys(lib1[i], r[i]));
        assert(cat_match(r[i], k));
        let f = essentials()[k];
        lemma_find_group(r, same_category_fn(f), 0);
        if find_group(r, same_category_fn(f), 0) is None {
            lemma_find_group_none(r, same_category_fn(f), 0);
            assert(!same_category_fn(f)(r[i]));
        }
        let i0 = find_group(r, same_category_fn(f), 0)->0;
        assert(cat_match(r[i0], k));
        assert(i0 == i);
        assert forall|k2: int| k < k2 < 5 implies find_group(r, same_category_fn(#[trigger] essentials()[k2]), 0) != Some(i) by {
            lemma_find_group(r, same_category_fn(essentials()[k2]), 0);
            if find_group(r, same_category_fn(essentials()[k2]), 0) == Some(i) {
                assert(cat_match(r[i], k2));
            }
        }
        assert(carries_stock_flags(lib1[i], r[i], f));
        assert forall|m: int| 0 <= m < f.triggers.len() implies (find_trigger(
            lib1[i].triggers,
            id_is((#[trigger] f.triggers[m]).id),
            0,
        ) matches Some(j) ==> lib1[i].triggers[j].enabled == f.triggers[m].enabled) by {
            lemma_find_trigger_same_ids(lib1[i].triggers, r[i].triggers, f.triggers[m].id, 0);
        }
    }
    lemma_essentials_flags(lib1);
    lemma_apply_defaults_zero(essentials_spec(lib1).0, 5);
}


/// The Mesmerize worn-off line naming the target.
pub open spec fn mez_off_of() -> Seq<char> {
    r"^Your (Mesmerize|Mesmerization) spell has worn off of ${1}\.$"@
}

/// The Mesmerize worn-off line without a target.
pub open spec fn mez_off() -> Seq<char> {
    r"^Your (Mesmerize|Mesmerization) spell has worn off\.$"@
}

/// Adding an early-end keeps the timer name and every early-end, and holds the new one.
proof fn lemma_with_early_end(t: TriggerView, p: Seq<char>)
    ensures
        with_early_end(t, p).timer_name == t.timer_name,
        with_early_end(t, p).name == t.name,
        with_early_end(t, p).early_end.contains(p),
        forall|q: Seq<char>| t.early_end.contains(q) ==> #[trigger] with_early_end(t, p).early_end.contains(q),
{
    if !t.early_end.contains(p) {
        let e = seq![p] + t.early_end;
        assert(e[0] == p);
        assert forall|q: Seq<char>| t.early_end.contains(q) implies #[trigger] e.contains(q) by {
            let w = choose|w: int| 0 <= w < t.early_end.len() && t.early_end[w] == q;
            assert(e[w + 1] == q);
        }
    }
}

/// A Mesmerize trigger after the mez patch: a `${1}` timer name and both worn-off lines
/// (unless it was a Kintaz timer, which keeps its own name).
proof fn lemma_mez_patch_mesmerize(t: TriggerView)
    requires
        starts_with(t.name, "Mesmerize"@),
        mez_patch(t).timer_name != Some("Kintaz - ${1}"@),
    ensures
        mez_patch(t).timer_name matches Some(n) && contains(n, "${1}"@),
        mez_patch(t).early_end.contains(mez_off_of()),
        mez_patch(t).early_end.contains(mez_off()),
{
    reveal_strlit("Mesmerize");
    reveal_strlit("Glamour of Kintaz");
    reveal_strlit("Rapture");
    reveal_strlit("Dictate");
    reveal_strlit("Entrance");
    reveal_strlit("Enthrall");
    reveal_strlit("Fascination");
    reveal_strlit("${1}");
    reveal_strlit("Mesmerize - ${1}");
    let name = t.name;
    assert(name.take(9) =~= "Mesmerize"@);
    assert(name.take(9)[0] == name[0]);
    assert("Mesmerize"@[0] == 'M');
    assert(name[0] == 'M');
    assert(name != "Glamour of Kintaz"@) by {
        assert("Glamour of Kintaz"@[0] == 'G');
    }
    assert(name != "Rapture"@) by {
        assert("Rapture"@[0] == 'R');
    }
    assert(name != "Dictate"@) by {
        assert("Dictate"@[0] == 'D');
    }
    assert(name != "Entrance"@) by {
        assert("Entrance"@[0] == 'E');
    }
    assert(name != "Enthrall"@) by {
        assert("Enthrall"@[0] == 'E');
    }
    assert(name != "Fascination"@) by {
        assert("Fascination"@[0] == 'F');
    }
    if t.timer_name == Some("Kintaz - ${1}"@) {
        let f = fixed_mez(t, 30, r"^Your Glamour of Kintaz spell has worn off\.$"@, Some(
            "EQL: 30s (5 ticks), not classic 54s"@,
        ));
        lemma_with_early_end(TriggerView { timer_seconds: Some(30), ..t }, r"^Your Glamour of Kintaz spell has worn off\.$"@);
        assert(f.timer_name == t.timer_name);
    } else {
        let t1 = if names_capture(t) {
            t
        } else {
            TriggerView { timer_name: Some("Mesmerize - ${1}"@), ..t }
        };
        if !names_capture(t) {
            assert("Mesmerize - ${1}"@.subrange(12, 16) =~= "${1}"@);
            assert(occurs_at("Mesmerize - ${1}"@, "${1}"@, 12));
        }
        lemma_with_early_end(t1, mez_off_of());
        let t2 = with_early_end(t1, mez_off_of());
        lemma_with_early_end(t2, mez_off());
        assert(mez_patch(t) == with_early_end(t2, mez_off()));
    }
}

/// After `ensure_eql_mez_timers` every trigger whose name starts with `Mesmerize` (other
/// than a Kintaz timer) times per target: its timer name holds `${1}`, and both
/// Mesmerize worn-off lines, with and without the target, are among its early-ends.
pub proof fn law_mez_per_target(gs: Seq<GroupView>)
    ensures
        ({
            let r = mez_spec(gs).0;
            forall|i: int, j: int|
                0 <= i < r.len() && 0 <= j < r[i].triggers.len() && starts_with(
                    (#[trigger] r[i].triggers[j]).name,
                    "Mesmerize"@,
                ) && r[i].triggers[j].timer_name != Some("Kintaz - ${1}"@) ==> {
                    let t = r[i].triggers[j];
                    &&& t.timer_name matches Some(n) && contains(n, "${1}"@)
                    &&& t.early_end.contains(mez_off_of())
                    &&& t.early_end.contains(mez_off())
                }
        }),
{
    let r = mez_spec(gs).0;
    let patched = map_group_views(gs, mez_group_fn());
    assert(patched.len() == gs.len());
    lemma_find_group(gs, is_cc_fn(), 0);
    assert(r.len() == gs.len());
    assert forall|i: int, j: int|
        0 <= i < r.len() && 0 <= j < r[i].triggers.len() && starts_with(
            (#[trigger] r[i].triggers[j]).name,
            "Mesmerize"@,
        ) && r[i].triggers[j].timer_name != Some("Kintaz - ${1}"@) implies {
            let t = r[i].triggers[j];
            &&& t.timer_name matches Some(n) && contains(n, "${1}"@)
            &&& t.early_end.contains(mez_off_of())
            &&& t.early_end.contains(mez_off())
        } by {
        let pt = patched[i].triggers;
        assert(patched[i] == mez_group_fn()(gs[i]).0);
        assert(pt == map_trigger_views(gs[i].triggers, mez_step_fn()));
        assert(pt.len() == gs[i].triggers.len());
        let pushed = match find_group(gs, is_cc_fn(), 0) {
            Some(c) => c == i && find_trigger(patched[c].triggers, is_dazzle_fn(), 0) is None,
            None => false,
        };
        if pushed {
            assert(r[i].triggers == pt.push(dazzle_mez()));
        } else {
            assert(r[i] == patched[i]);
        }
        if j < pt.len() {
            assert(r[i].triggers[j] == pt[j]);
            assert(pt[j] == mez_patch(gs[i].triggers[j]));
            lemma_mez_patch_mesmerize(gs[i].triggers[j]);
        } else {
            // The only other trigger is the Dazzle tracker added at the end.
            reveal_strlit("Dazzle");
            reveal_strlit("Mesmerize");
            assert(r[i].triggers[j] == dazzle_mez());
            let nm = r[i].triggers[j].name;
            assert(nm.take(9)[0] == nm[0]);
            assert(nm[0] == 'D');
        }
    }
}


/// A per-target patch leaves a `${1}` timer name and both worn-off lines.
proof fn lemma_per_target_props(t: TriggerView, tn: Seq<char>, off_of: Seq<char>, off: Seq<char>)
    requires
        contains(tn, "${1}"@),
    ensures
        per_target(t, tn, off_of, off).timer_name matches Some(n) && contains(n, "${1}"@),
        per_target(t, tn, off_of, off).early_end.contains(off_of),
        per_target(t, tn, off_of, off).early_end.contains(off),
{
    reveal_strlit("${1}");
    if t.timer_name is None {
        assert(!contains(Seq::<char>::empty(), "${1}"@));
    }
    let t1 = if names_capture(t) {
        t
    } else {
        TriggerView { timer_name: Some(tn), ..t }
    };
    lemma_with_early_end(t1, off_of);
    lemma_with_early_end(with_early_end(t1, off_of), off);
}

/// The per-target timer name of a spell, with its `${1}` token.
proof fn lemma_names_capture_lit(tn: Seq<char>, k: int)
    requires
        0 <= k,
        k + 4 <= tn.len(),
        tn.subrange(k, k + 4) == "${1}"@,
    ensures
        contains(tn, "${1}"@),
{
    reveal_strlit("${1}");
    assert(occurs_at(tn, "${1}"@, k));
}

/// After `ensure_eql_mez_timers` every Entrance, Enthrall, Fascination and Dazzle trigger
/// (other than a Kintaz timer) times per target: a timer name holding `${1}`, and that
/// spell's worn-off lines, with and without the target, among its early-ends.
pub proof fn law_mez_spells_per_target(gs: Seq<GroupView>)
    ensures
        ({
            let r = mez_spec(gs).0;
            forall|i: int, j: int|
                0 <= i < r.len() && 0 <= j < r[i].triggers.len() && r[i].triggers[j].timer_name != Some(
                    "Kintaz - ${1}"@,
                ) ==> {
                    let t = #[trigger] r[i].triggers[j];
                    &&& t.name == "Entrance"@ ==> (t.timer_name matches Some(n) && contains(n, "${1}"@))
                        && t.early_end.contains(r"^Your Entrance spell has worn off of ${1}\.$"@)
                        && t.early_end.contains(r"^Your Entrance spell has worn off\.$"@)
                    &&& t.name == "Enthrall"@ ==> (t.timer_name matches Some(n) && contains(n, "${1}"@))
                        && t.early_end.contains(r"^Your Enthrall spell has worn off of ${1}\.$"@)
                        && t.early_end.contains(r"^Your Enthrall spell has worn off\.$"@)
                    &&& t.name == "Fascination"@ ==> (t.timer_name matches Some(n) && contains(n, "${1}"@))
                        && t.early_end.contains(r"^Your Fascination spell has worn off of ${1}\.$"@)
                        && t.early_end.contains(r"^Your Fascination spell has worn off\.$"@)
                    &&& t.name == "Dazzle"@ ==> (t.timer_name matches Some(n) && contains(n, "${1}"@))
                        && t.early_end.contains(r"^Your Dazzle spell has worn off of ${1}\.$"@)
                        && t.early_end.contains(r"^Your Dazzle spell has worn off\.$"@)
                }
        }),
{
    reveal_strlit("Glamour of Kintaz");
    reveal_strlit("Rapture");
    reveal_strlit("Dictate");
    reveal_strlit("Entrance");
    reveal_strlit("Enthrall");
    reveal_strlit("Fascination");
    reveal_strlit("Dazzle");
    reveal_strlit("Mesmerize");
    reveal_strlit("${1}");
    reveal_strlit("Entrance - ${1}");
    reveal_strlit("Enthrall - ${1}");
    reveal_strlit("Fascination - ${1}");
    reveal_strlit("Dazzle - ${1}");
    assert("Entrance - ${1}"@.subrange(11, 15) =~= "${1}"@);
    lemma_names_capture_lit("Entrance - ${1}"@, 11);
    assert("Enthrall - ${1}"@.subrange(11, 15) =~= "${1}"@);
    lemma_names_capture_lit("Enthrall - ${1}"@, 11);
    assert("Fascination - ${1}"@.subrange(14, 18) =~= "${1}"@);
    lemma_names_capture_lit("Fascination - ${1}"@, 14);
    assert("Dazzle - ${1}"@.subrange(9, 13) =~= "${1}"@);
    lemma_names_capture_lit("Dazzle - ${1}"@, 9);
    assert("Entrance"@.len() == 8 && "Enthrall"@.len() == 8 && "Fascination"@.len() == 11
        && "Dazzle"@.len() == 6);
    assert("Entrance"@[3] != "Enthrall"@[3]);
    assert("Entrance"@ != "Dazzle"@ && "Enthrall"@ != "Dazzle"@ && "Fascination"@ != "Dazzle"@);
    assert("Entrance"@ != "Enthrall"@ && "Entrance"@ != "Fascination"@ && "Enthrall"@ != "Fascination"@);
    let r = mez_spec(gs).0;
    let patched = map_group_views(gs, mez_group_fn());
    assert(patched.len() == gs.len());
    lemma_find_group(gs, is_cc_fn(), 0);
    assert(r.len() == gs.len());
    assert forall|i: int, j: int|
        0 <= i < r.len() && 0 <= j < r[i].triggers.len() && r[i].triggers[j].timer_name != Some(
            "Kintaz - ${1}"@,
        ) implies {
            let t = #[trigger] r[i].triggers[j];
            &&& t.name == "Entrance"@ ==> (t.timer_name matches Some(n) && contains(n, "${1}"@))
                && t.early_end.contains(r"^Your Entrance spell has worn off of ${1}\.$"@)
                && t.early_end.contains(r"^Your Entrance spell has worn off\.$"@)
            &&& t.name == "Enthrall"@ ==> (t.timer_name matches Some(n) && contains(n, "${1}"@))
                && t.early_end.contains(r"^Your Enthrall spell has worn off of ${1}\.$"@)
                && t.early_end.contains(r"^Your Enthrall spell has worn off\.$"@)
            &&& t.name == "Fascination"@ ==> (t.timer_name matches Some(n) && contains(n, "${1}"@))
                && t.early_end.contains(r"^Your Fascination spell has worn off of ${1}\.$"@)
                && t.early_end.contains(r"^Your Fascination spell has worn off\.$"@)
            &&& t.name == "Dazzle"@ ==> (t.timer_name matches Some(n) && contains(n, "${1}"@))
                && t.early_end.contains(r"^Your Dazzle spell has worn off of ${1}\.$"@)
                && t.early_end.contains(r"^Your Dazzle spell has worn off\.$"@)
        } by {
        let pt = patched[i].triggers;
        assert(patched[i] == mez_group_fn()(gs[i]).0);
        assert(pt == map_trigger_views(gs[i].triggers, mez_step_fn()));
        assert(pt.len() == gs[i].triggers.len());
        let pushed = match find_group(gs, is_cc_fn(), 0) {
            Some(c) => c == i && find_trigger(patched[c].triggers, is_dazzle_fn(), 0) is None,
            None => false,
        };
        if pushed {
            assert(r[i].triggers == pt.push(dazzle_mez()));
        } else {
            assert(r[i] == patched[i]);
        }
        if j < pt.len() {
            let t0 = gs[i].triggers[j];
            assert(r[i].triggers[j] == pt[j]);
            assert(pt[j] == mez_patch(t0));
            lemma_mez_patch_keeps_name(t0);
            if t0.timer_name == Some("Kintaz - ${1}"@) {
                lemma_with_early_end(TriggerView { timer_seconds: Some(30), ..t0 }, r"^Your Glamour of Kintaz spell has worn off\.$"@);
                assert(mez_patch(t0).timer_name == t0.timer_name);
                assert(false);
            } else {
                let nm = t0.name;
                if nm == "Entrance"@ {
                    lemma_per_target_props(t0, "Entrance - ${1}"@, r"^Your Entrance spell has worn off of ${1}\.$"@, r"^Your Entrance spell has worn off\.$"@);
                    assert("Dazzle"@.len() == 6 && nm.len() != 6);
                    assert(r[i].triggers[j].name != "Dazzle"@);
                } else if nm == "Enthrall"@ {
                    lemma_per_target_props(t0, "Enthrall - ${1}"@, r"^Your Enthrall spell has worn off of ${1}\.$"@, r"^Your Enthrall spell has worn off\.$"@);
                    assert("Dazzle"@.len() == 6 && nm.len() != 6);
                    assert(r[i].triggers[j].name != "Dazzle"@);
                } else if nm == "Fascination"@ {
                    lemma_per_target_props(t0, "Fascination - ${1}"@, r"^Your Fascination spell has worn off of ${1}\.$"@, r"^Your Fascination spell has worn off\.$"@);
                    assert("Dazzle"@.len() == 6 && nm.len() != 6);
                    assert(r[i].triggers[j].name != "Dazzle"@);
                } else if nm == "Dazzle"@ {
                    assert(!starts_with(nm, "Mesmerize"@));
                    lemma_per_target_props(t0, "Dazzle - ${1}"@, r"^Your Dazzle spell has worn off of ${1}\.$"@, r"^Your Dazzle spell has worn off\.$"@);
                    assert(mez_patch(t0) == per_target(t0, "Dazzle - ${1}"@, r"^Your Dazzle spell has worn off of ${1}\.$"@, r"^Your Dazzle spell has worn off\.$"@));
                    assert(r[i].triggers[j].early_end.contains(r"^Your Dazzle spell has worn off\.$"@));
                } else {
                    assert(r[i].triggers[j].name != "Dazzle"@);
                }
            }
        } else {
            assert(r[i].triggers[j] == dazzle_mez());
            assert(dazzle_mez().early_end[0] == r"^Your Dazzle spell has worn off of ${1}\.$"@);
            assert(dazzle_mez().early_end[1] == r"^Your Dazzle spell has worn off\.$"@);
            assert(dazzle_mez().early_end.contains(r"^Your Dazzle spell has worn off of ${1}\.$"@));
            assert(dazzle_mez().early_end.contains(r"^Your Dazzle spell has worn off\.$"@));
            assert(r[i].triggers[j].early_end.contains(r"^Your Dazzle spell has worn off\.$"@));
            assert(r[i].triggers[j].timer_name == Some("Dazzle - ${1}"@));
        }
    }
}


/// The mez patch keeps a trigger's name.
proof fn lemma_mez_patch_keeps_name(t: TriggerView)
    ensures
        mez_patch(t).name == t.name,
{
    lemma_with_early_end(TriggerView { timer_seconds: Some(30), ..t }, r"^Your Glamour of Kintaz spell has worn off\.$"@);
    lemma_with_early_end(TriggerView { timer_seconds: Some(24), ..t }, r"^Your Rapture spell has worn off\.$"@);
    lemma_with_early_end(TriggerView { timer_seconds: Some(48), ..t }, r"^Your Dictate spell has worn off\.$"@);
}

} // verus!
