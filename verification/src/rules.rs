//! What the engine does with one log action line, stated over `EngineView`.

use vstd::prelude::*;
use crate::casts::{drop_cast, note_cast, recent_cast};
use crate::engine::{
    early_regex_sources, ends_after, keep_timers, EngineView, EntryView, MAX_RECENT_ALERTS,
};
use crate::model::{ActionView, AlertView, TimerView, TriggerView};
use crate::pattern::{regex_captures, regex_valid};
use crate::text::{contains, eq_ignore_case, is_blank, starts_with, to_lower, trim};
use crate::timers::{
    early_caps, ids_to_clear, key_get, key_set, legacy_names, parse_u64, pattern_matches, sat_add,
    sat_mul, sat_sub,
};
use crate::tokens::{
    bind_character, decimal, expand, self_attributed, spell_base, unexpanded,
};

verus! {

/// Ignore a second fire of the same trigger within this window.
pub const ALERT_DEBOUNCE_MS: u64 = 2000;

/// Debounce window for melee range / line-of-sight spam.
pub const SPAM_DEBOUNCE_MS: u64 = 5000;

/// The line EQL logs when an ability is pressed while on cooldown.
pub open spec fn ability_pattern() -> Seq<char> {
    r"^You can use the ability (.+) again in (\d+) minute\(s\) (\d+) seconds?\.$"@
}

/// Timer id for the `n`-th id.
pub open spec fn timer_id(n: u64) -> Seq<char> {
    seq!['t'] + decimal(n as nat)
}

/// Alert id for the `n`-th id.
pub open spec fn alert_id(n: u64) -> Seq<char> {
    seq!['a'] + decimal(n as nat)
}

pub open spec fn names_ability(t: TimerView, ability: Seq<char>) -> bool {
    t.name == ability || legacy_names(ability).contains(t.name)
}

pub open spec fn not_ability(ability: Seq<char>) -> spec_fn(TimerView) -> bool {
    |t: TimerView| !names_ability(t, ability)
}

pub open spec fn id_not_in(ids: Seq<Seq<char>>) -> spec_fn(TimerView) -> bool {
    |t: TimerView| !ids.contains(t.id)
}

pub open spec fn name_differs(name: Seq<char>) -> spec_fn(TimerView) -> bool {
    |t: TimerView| t.name != name
}

/// Ids of the first `n` timers named after the ability (or a legacy name), in order.
pub open spec fn ability_ids_upto(ts: Seq<TimerView>, ability: Seq<char>, n: int) -> Seq<Seq<char>>
    decreases n,
{
    if n <= 0 {
        Seq::empty()
    } else {
        let prev = ability_ids_upto(ts, ability, n - 1);
        if names_ability(ts[n - 1], ability) {
            prev.push(ts[n - 1].id)
        } else {
            prev
        }
    }
}

/// Index of the first timer named after the ability among the first `n`.
pub open spec fn first_ability_upto(ts: Seq<TimerView>, ability: Seq<char>, n: int) -> Option<int>
    decreases n,
{
    if n <= 0 {
        None
    } else {
        match first_ability_upto(ts, ability, n - 1) {
            Some(k) => Some(k),
            None => if names_ability(ts[n - 1], ability) {
                Some(n - 1)
            } else {
                None
            },
        }
    }
}

pub open spec fn quiet_action(cleared: Seq<Seq<char>>, started: Option<TimerView>) -> ActionView {
    ActionView {
        alert: None,
        sound: None,
        speak: None,
        started_timer: started,
        cleared_timer_ids: cleared,
    }
}

/// Keeps overlay timers aligned with the game's stated ability remaining time: a
/// "You can use the ability X again in M minute(s) S seconds." line restarts the `X`
/// timer at the stated time, or clears it at zero; repeating the shown second is quiet.
pub open spec fn sync_spec(v: EngineView, action: Seq<char>, now: u64) -> (EngineView, Option<
    ActionView,
>) {
    if !regex_valid(ability_pattern()) {
        (v, None)
    } else {
        match regex_captures(ability_pattern(), action) {
            None => (v, None),
            Some(caps) => if caps.len() < 3 || trim(caps[0]).len() == 0 {
                (v, None)
            } else {
                let ability = trim(caps[0]);
                match (parse_u64(caps[1]), parse_u64(caps[2])) {
                    (Some(mins), Some(secs)) => {
                        let remaining = sat_add(sat_mul(mins, 60), secs);
                        let n = v.timers.len() as int;
                        if remaining == 0 {
                            let cleared = ability_ids_upto(v.timers, ability, n);
                            if cleared.len() == 0 {
                                (v, None)
                            } else {
                                (
                                    EngineView {
                                        timers: keep_timers(v.timers, id_not_in(cleared)),
                                        ..v
                                    },
                                    Some(quiet_action(cleared, None)),
                                )
                            }
                        } else {
                            let existing = first_ability_upto(v.timers, ability, n);
                            if existing matches Some(k) && sat_add(
                                sat_sub(v.timers[k].ends_ms, now),
                                999,
                            ) / 1000 == remaining {
                                (v, None)
                            } else {
                                let duration = match existing {
                                    Some(k) => if v.timers[k].duration_secs > remaining {
                                        v.timers[k].duration_secs
                                    } else {
                                        remaining
                                    },
                                    None => remaining,
                                };
                                let timer = TimerView {
                                    id: timer_id(v.next_id),
                                    trigger_id: "eql-ability-cooldown"@,
                                    name: ability,
                                    started_ms: now,
                                    ends_ms: sat_add(now, sat_mul(remaining, 1000)),
                                    duration_secs: duration,
                                    captures: Seq::empty(),
                                };
                                (
                                    EngineView {
                                        timers: keep_timers(v.timers, not_ability(ability)).push(
                                            timer,
                                        ),
                                        next_id: (v.next_id + 1) as u64,
                                        ..v
                                    },
                                    Some(quiet_action(Seq::empty(), Some(timer))),
                                )
                            }
                        }
                    },
                    _ => (v, None),
                }
            },
        }
    }
}

/// The timer name a trigger clears or starts: its `timer_name`, else its name.
pub open spec fn timer_name_of(t: TriggerView) -> Seq<char> {
    match t.timer_name {
        Some(n) => n,
        None => t.name,
    }
}

/// A plain early-end (no capture tokens) matches the action.
pub open spec fn plain_early_match(t: TriggerView, action: Seq<char>) -> bool {
    if t.use_regex {
        let srcs = early_regex_sources(t.early_end, true);
        exists|k: int| 0 <= k < srcs.len() && regex_captures(#[trigger] srcs[k], action) is Some
    } else {
        exists|k: int|
            0 <= k < t.early_end.len() && (#[trigger] t.early_end[k]).len() > 0 && !unexpanded(
                t.early_end[k],
            ) && contains(action, t.early_end[k])
    }
}

pub open spec fn add_unique(list: Seq<Seq<char>>, id: Seq<char>) -> Seq<Seq<char>> {
    if list.contains(id) {
        list
    } else {
        list.push(id)
    }
}

pub open spec fn add_all_unique(list: Seq<Seq<char>>, ids: Seq<Seq<char>>) -> Seq<Seq<char>>
    decreases ids.len(),
{
    if ids.len() == 0 {
        list
    } else {
        add_unique(add_all_unique(list, ids.drop_last()), ids.last())
    }
}

/// Timers (among the first `m`) started by `t` whose captures make early-end `e` match.
pub open spec fn capture_clears_for(
    list: Seq<Seq<char>>,
    t: TriggerView,
    e: Seq<char>,
    timers: Seq<TimerView>,
    character: Seq<char>,
    action: Seq<char>,
    m: int,
) -> Seq<Seq<char>>
    decreases m,
{
    if m <= 0 {
        list
    } else {
        let l = capture_clears_for(list, t, e, timers, character, action, m - 1);
        let tm = timers[m - 1];
        let caps = early_caps(tm, timer_name_of(t));
        if tm.trigger_id == t.id && caps.len() > 0 && pattern_matches(
            e,
            t.use_regex,
            action,
            character,
            caps,
        ) {
            add_unique(l, tm.id)
        } else {
            l
        }
    }
}

/// The `${1}` early-ends (the first `n` of them) of `t`.
pub open spec fn capture_clears(
    list: Seq<Seq<char>>,
    t: TriggerView,
    timers: Seq<TimerView>,
    character: Seq<char>,
    action: Seq<char>,
    n: int,
) -> Seq<Seq<char>>
    decreases n,
{
    if n <= 0 {
        list
    } else {
        let l = capture_clears(list, t, timers, character, action, n - 1);
        let e = t.early_end[n - 1];
        if e.len() > 0 && unexpanded(e) {
            capture_clears_for(l, t, e, timers, character, action, timers.len() as int)
        } else {
            l
        }
    }
}

/// Timer ids that one enabled trigger's early-ends clear.
pub open spec fn early_for_entry(
    list: Seq<Seq<char>>,
    e: EntryView,
    timers: Seq<TimerView>,
    character: Seq<char>,
    action: Seq<char>,
) -> Seq<Seq<char>> {
    let t = e.trigger;
    if !e.group_enabled || !t.enabled || t.early_end.len() == 0 {
        list
    } else {
        let l = if plain_early_match(t, action) {
            add_all_unique(list, ids_to_clear(timers, timer_name_of(t), None))
        } else {
            list
        };
        capture_clears(l, t, timers, character, action, t.early_end.len() as int)
    }
}

/// Timer ids cleared by the early-ends of the first `n` entries, without repeats.
pub open spec fn early_pass(
    entries: Seq<EntryView>,
    timers: Seq<TimerView>,
    character: Seq<char>,
    action: Seq<char>,
    n: int,
) -> Seq<Seq<char>>
    decreases n,
{
    if n <= 0 {
        Seq::empty()
    } else {
        early_for_entry(
            early_pass(entries, timers, character, action, n - 1),
            entries[n - 1],
            timers,
            character,
            action,
        )
    }
}

/// The captures of a trigger's search on the action: `Some(seq![])` for a plain match.
pub open spec fn match_caps(t: TriggerView, character: Seq<char>, action: Seq<char>) -> Option<
    Seq<Seq<char>>,
> {
    if t.use_regex {
        let pat = bind_character(t.search, character, true);
        if regex_valid(pat) {
            regex_captures(pat, action)
        } else {
            None
        }
    } else if contains(action, bind_character(t.search, character, false)) {
        Some(Seq::empty())
    } else {
        None
    }
}

/// Casts that must have been started recently for a shared land emote to count as yours.
pub open spec fn required_casts(e: EntryView) -> Option<Seq<Seq<char>>> {
    if e.trigger.name == "Slowed"@ {
        Some(
            seq![
                "drowsy"@,
                "walking sleep"@,
                "tagar's insects"@,
                "togor's insects"@,
                "turgur's insects"@,
            ],
        )
    } else if e.trigger.name == "Maloed"@ {
        Some(seq!["malo"@, "malosini"@, "malise"@, "malaisement"@, "malosi"@])
    } else if e.trigger.name == "Odium"@ {
        Some(seq!["odium"@])
    } else if !contains(to_lower(e.group_name), "crowd control"@) {
        None
    } else {
        match spell_base(e.trigger.name) {
            Some(n) => Some(seq![n]),
            None => None,
        }
    }
}

/// A shared land emote that does not count: none of its required casts is recent.
pub open spec fn cast_gated(e: EntryView, casts: Seq<(Seq<char>, u64)>, now: u64) -> bool {
    &&& !self_attributed(e.trigger.search)
    &&& required_casts(e) matches Some(spells)
    &&& !any_recent(casts, spells, now)
}

/// One of `spells` was cast recently.
pub open spec fn any_recent(casts: Seq<(Seq<char>, u64)>, spells: Seq<Seq<char>>, now: u64) -> bool {
    exists|i: int| 0 <= i < spells.len() && recent_cast(casts, #[trigger] spells[i], now)
}

pub open spec fn explicit_display(t: TriggerView) -> bool {
    t.display_text matches Some(d) && !is_blank(d)
}

pub open spec fn display_template(t: TriggerView) -> Seq<char> {
    match t.display_text {
        Some(d) => if !is_blank(d) {
            d
        } else {
            t.name
        },
        None => t.name,
    }
}

pub open spec fn speak_template(t: TriggerView) -> Seq<char> {
    match t.speak {
        Some(s) => if !is_blank(s) {
            s
        } else {
            display_template(t)
        },
        None => display_template(t),
    }
}

/// The chime of a trigger in sound mode (TTS off): set, not blank and not `none`.
pub open spec fn chime(t: TriggerView) -> Option<Seq<char>> {
    if t.tts_enabled {
        None
    } else {
        match t.sound {
            Some(s) => if !is_blank(s) && !eq_ignore_case(s, "none"@) {
                Some(s)
            } else {
                None
            },
            None => None,
        }
    }
}

pub open spec fn debounce_ms(t: TriggerView) -> u64 {
    if contains(t.id, "out-of-range"@) || contains(t.id, "los"@) {
        SPAM_DEBOUNCE_MS
    } else {
        ALERT_DEBOUNCE_MS
    }
}

pub open spec fn is_timer_trigger(t: TriggerView) -> bool {
    t.timer_seconds matches Some(s) && s > 0
}

/// The debounce key for a timer's notice.
pub open spec fn notice_key(t: TriggerView, name: Seq<char>) -> Seq<char> {
    "timer:"@ + t.id + ":"@ + name
}

/// The newest alert first, keeping at most 40.
pub open spec fn push_alert(alerts: Seq<AlertView>, a: AlertView) -> Seq<AlertView> {
    let all = seq![a] + alerts;
    if all.len() > MAX_RECENT_ALERTS {
        all.take(MAX_RECENT_ALERTS as int)
    } else {
        all
    }
}

/// The last part of a match: drop it when nothing would show, else add the toast.
pub open spec fn finish_spec(
    v: EngineView,
    t: TriggerView,
    started: Option<TimerView>,
    speak: Option<Seq<char>>,
    sound: Option<Seq<char>>,
    show: bool,
    display: Seq<char>,
    now: u64,
) -> (EngineView, Option<ActionView>) {
    let speak_useful = speak matches Some(s) && !is_blank(s);
    let sound_useful = sound matches Some(s) && !eq_ignore_case(s, "none"@);
    if started is None && !speak_useful && !show && !sound_useful {
        (v, None)
    } else {
        let a = AlertView {
            id: alert_id(v.next_id),
            trigger_id: t.id,
            trigger_name: t.name,
            kind: if started is Some {
                "timer"@
            } else {
                "text"@
            },
            text: display,
            at_ms: now,
        };
        let v2 = if show {
            EngineView {
                next_id: (v.next_id + 1) as u64,
                recent_alerts: push_alert(v.recent_alerts, a),
                ..v
            }
        } else {
            v
        };
        (
            v2,
            Some(
                ActionView {
                    alert: if show {
                        Some(a)
                    } else {
                        None
                    },
                    sound: if sound_useful {
                        sound
                    } else {
                        None
                    },
                    speak: if speak_useful {
                        speak
                    } else {
                        None
                    },
                    started_timer: started,
                    cleared_timer_ids: Seq::empty(),
                },
            ),
        )
    }
}

/// Whether a Dazzle cast turns this Mesmerize land into a Dazzle timer.
pub open spec fn dazzle_remap(v: EngineView, t: TriggerView, now: u64) -> bool {
    recent_cast(v.pending_casts, "dazzle"@, now) && starts_with(timer_name_of(t), "Mesmerize"@)
}

/// A matched, not cast-gated trigger: debounce, text/voice/chime, timer and toast.
pub open spec fn fire_spec(
    v: EngineView,
    t: TriggerView,
    caps: Seq<Seq<char>>,
    character: Seq<char>,
    action: Seq<char>,
    now: u64,
) -> (EngineView, Option<ActionView>) {
    if !is_timer_trigger(t) && (key_get(v.last_fire, t.id) matches Some(prev) && sat_sub(now, prev)
        < debounce_ms(t)) {
        (v, None)
    } else {
        let display = expand(display_template(t), character, action, Some(caps));
        let speak0 = if t.tts_enabled {
            Some(expand(speak_template(t), character, action, Some(caps)))
        } else {
            None
        };
        if is_timer_trigger(t) {
            let remap = dazzle_remap(v, t, now);
            let secs = if remap {
                96u64
            } else {
                t.timer_seconds->0
            };
            let tmpl = if remap {
                "Dazzle - ${1}"@
            } else {
                timer_name_of(t)
            };
            let casts = if remap {
                drop_cast(v.pending_casts, "dazzle"@)
            } else {
                v.pending_casts
            };
            let name = expand(tmpl, character, action, Some(caps));
            let key = notice_key(t, name);
            let suppress = key_get(v.last_fire, key) matches Some(p) && sat_sub(now, p)
                < ALERT_DEBOUNCE_MS;
            let timer = TimerView {
                id: timer_id(v.next_id),
                trigger_id: t.id,
                name,
                started_ms: now,
                ends_ms: sat_add(now, sat_mul(secs, 1000)),
                duration_secs: secs,
                captures: caps,
            };
            let v1 = EngineView {
                last_fire: key_set(v.last_fire, key, now),
                pending_casts: casts,
                timers: keep_timers(v.timers, name_differs(name)).push(timer),
                next_id: (v.next_id + 1) as u64,
                ..v
            };
            finish_spec(
                v1,
                t,
                Some(timer),
                if suppress {
                    None
                } else {
                    speak0
                },
                if suppress {
                    None
                } else {
                    chime(t)
                },
                explicit_display(t) && !suppress,
                display,
                now,
            )
        } else {
            let v1 = EngineView { last_fire: key_set(v.last_fire, t.id, now), ..v };
            finish_spec(v1, t, None, speak0, chime(t), !is_blank(display), display, now)
        }
    }
}

/// One trigger's reaction to the action, after the early-end pass.
pub open spec fn step_spec(
    v: EngineView,
    e: EntryView,
    character: Seq<char>,
    action: Seq<char>,
    now: u64,
) -> (EngineView, Option<ActionView>) {
    let t = e.trigger;
    if !e.group_enabled || !t.enabled || t.search.len() == 0 {
        (v, None)
    } else {
        match match_caps(t, character, action) {
            None => (v, None),
            Some(caps) => if cast_gated(e, v.pending_casts, now) {
                (v, None)
            } else {
                fire_spec(v, t, caps, character, action, now)
            },
        }
    }
}

/// The main pass over the first `n` entries: state after it and the actions, in order.
pub open spec fn main_pass(
    v: EngineView,
    entries: Seq<EntryView>,
    character: Seq<char>,
    action: Seq<char>,
    now: u64,
    n: int,
) -> (EngineView, Seq<ActionView>)
    decreases n,
{
    if n <= 0 {
        (v, Seq::empty())
    } else {
        let (v1, acts) = main_pass(v, entries, character, action, now, n - 1);
        let (v2, a) = step_spec(v1, entries[n - 1], character, action, now);
        match a {
            Some(x) => (v2, acts.push(x)),
            None => (v2, acts),
        }
    }
}

pub open spec fn opt_seq(a: Option<ActionView>) -> Seq<ActionView> {
    match a {
        Some(x) => seq![x],
        None => Seq::empty(),
    }
}

/// Processing one action line at time `now`: prune finished timers, sync ability
/// cooldowns, remember casts, clear early-ended timers, then fire matching triggers.
pub open spec fn process_spec(v: EngineView, entries: Seq<EntryView>, action: Seq<char>, now: u64) -> (
    EngineView,
    Seq<ActionView>,
) {
    let v0 = EngineView { timers: keep_timers(v.timers, ends_after(now)), ..v };
    let character = match v.character {
        Some(c) => c,
        None => Seq::empty(),
    };
    let (v1, synced) = sync_spec(v0, action, now);
    let v2 = EngineView { pending_casts: note_cast(v1.pending_casts, action, now), ..v1 };
    let cleared = early_pass(entries, v2.timers, character, action, entries.len() as int);
    let v3 = if cleared.len() > 0 {
        EngineView { timers: keep_timers(v2.timers, id_not_in(cleared)), ..v2 }
    } else {
        v2
    };
    let cleared_acts = if cleared.len() > 0 {
        seq![quiet_action(cleared, None)]
    } else {
        Seq::empty()
    };
    let (v4, fired) = main_pass(v3, entries, character, action, now, entries.len() as int);
    (v4, opt_seq(synced) + cleared_acts + fired)
}

/// Captures of a trigger's search on a preview sample: `None` without a sample or when
/// the regex does not compile or match; no captures for a plain search.
pub open spec fn sample_caps(t: TriggerView, character: Seq<char>, action: Seq<char>) -> Option<
    Seq<Seq<char>>,
> {
    if action.len() == 0 {
        None
    } else if t.use_regex && t.search.len() > 0 {
        let pat = bind_character(t.search, character, true);
        if regex_valid(pat) {
            regex_captures(pat, action)
        } else {
            None
        }
    } else {
        Some(Seq::empty())
    }
}

/// The timer name a preview uses: a non-blank `timer_name`, else the trigger's name.
pub open spec fn preview_timer_name(t: TriggerView) -> Seq<char> {
    match t.timer_name {
        Some(n) => if !is_blank(n) {
            n
        } else {
            t.name
        },
        None => t.name,
    }
}

/// A preview fire from the trigger editor: no matching, debounce or enabled checks.
/// Finished timers are pruned first; the character defaults to `Character`; the sample
/// is trimmed.  A timer trigger (re)starts its timer; the toast shows for a timer only
/// with an explicit display text, otherwise whenever the display is not blank.
pub open spec fn preview_spec(v: EngineView, t: TriggerView, sample: Seq<char>, now: u64) -> (
    EngineView,
    ActionView,
) {
    let v0 = EngineView { timers: keep_timers(v.timers, ends_after(now)), ..v };
    let character = match v.character {
        Some(c) => c,
        None => "Character"@,
    };
    let action = trim(sample);
    let caps = sample_caps(t, character, action);
    let display = expand(display_template(t), character, action, caps);
    let speak = if t.tts_enabled {
        Some(expand(speak_template(t), character, action, caps))
    } else {
        None
    };
    let sound = chime(t);
    let started = if is_timer_trigger(t) {
        let secs = t.timer_seconds->0;
        Some(
            TimerView {
                id: timer_id(v0.next_id),
                trigger_id: t.id,
                name: expand(preview_timer_name(t), character, action, caps),
                started_ms: now,
                ends_ms: sat_add(now, sat_mul(secs, 1000)),
                duration_secs: secs,
                captures: match caps {
                    Some(c) => c,
                    None => Seq::empty(),
                },
            },
        )
    } else {
        None
    };
    let v1 = match started {
        Some(timer) => EngineView {
            timers: keep_timers(v0.timers, name_differs(timer.name)).push(timer),
            next_id: (v0.next_id + 1) as u64,
            ..v0
        },
        None => v0,
    };
    let show = if started is Some {
        explicit_display(t)
    } else {
        !is_blank(display)
    };
    let a = AlertView {
        id: alert_id(v1.next_id),
        trigger_id: t.id,
        trigger_name: t.name,
        kind: if started is Some {
            "timer"@
        } else {
            "text"@
        },
        text: display,
        at_ms: now,
    };
    let v2 = if show {
        EngineView {
            next_id: (v1.next_id + 1) as u64,
            recent_alerts: push_alert(v1.recent_alerts, a),
            ..v1
        }
    } else {
        v1
    };
    (
        v2,
        ActionView {
            alert: if show {
                Some(a)
            } else {
                None
            },
            sound: if sound matches Some(s) && !eq_ignore_case(s, "none"@) {
                sound
            } else {
                None
            },
            speak: if speak matches Some(s) && !is_blank(s) {
                speak
            } else {
                None
            },
            started_timer: started,
            cleared_timer_ids: Seq::empty(),
        },
    )
}

/// Debounce: once a non-timer trigger has fired (it was outside its window), firing it
/// again before its debounce window has passed changes nothing and shows nothing.
pub proof fn law_debounce_repeat(
    v: EngineView,
    t: TriggerView,
    caps: Seq<Seq<char>>,
    caps2: Seq<Seq<char>>,
    character: Seq<char>,
    action: Seq<char>,
    action2: Seq<char>,
    now: u64,
    later: u64,
)
    requires
        !is_timer_trigger(t),
        !(key_get(v.last_fire, t.id) matches Some(prev) && sat_sub(now, prev) < debounce_ms(t)),
        now <= later,
        later - now < debounce_ms(t),
    ensures
        ({
            let v1 = fire_spec(v, t, caps, character, action, now).0;
            fire_spec(v1, t, caps2, character, action2, later) == (v1, None::<ActionView>)
        }),
{
    crate::timers::lemma_key_get_set(v.last_fire, t.id, now);
}

} // verus!
