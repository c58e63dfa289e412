//! The trigger engine: matches log action lines against the library, runs timers,
//! early-ends and debounce, and reports what the overlay should show or say.

use vstd::prelude::*;
use crate::model::{
    MatchAction, copy_opt_string, copy_strings, group_views, timer_views_of, ActionView, ActiveTimer, AlertView, EngineState,
    FiredAlert, GroupView, StateView, TimerView, Trigger, TriggerGroup, TriggerLibrary,
    TriggerView,
};
use crate::pattern::{captures, compile, regex_valid, Pattern};
use crate::text::{chars_of, contains, contains_chars, is_blank, trim};
use crate::timers::{keyed_views, sat_add, sat_mul, sat_sub};
use crate::tokens::{bind_character_token, expand_tokens, has_unexpanded_capture, unexpanded};

verus! {

/// One trigger together with the group it sits in.
pub struct EntryView {
    pub group_id: Seq<char>,
    pub group_name: Seq<char>,
    pub group_enabled: bool,
    pub trigger: TriggerView,
}

pub open spec fn entry_of(g: GroupView, i: int) -> EntryView {
    EntryView {
        group_id: g.id,
        group_name: g.name,
        group_enabled: g.enabled,
        trigger: g.triggers[i],
    }
}

pub open spec fn group_entries(g: GroupView) -> Seq<EntryView> {
    Seq::new(g.triggers.len(), |i: int| entry_of(g, i))
}

/// Every trigger of the library, group by group, in order.
pub open spec fn flatten(groups: Seq<GroupView>) -> Seq<EntryView>
    decreases groups.len(),
{
    if groups.len() == 0 {
        Seq::empty()
    } else {
        flatten(groups.drop_last()) + group_entries(groups.last())
    }
}

/// Early-end texts that are matched as plain regexes (no `{C}`, no capture tokens).
pub open spec fn plain_early_regex(e: Seq<char>) -> bool {
    !contains(e, "{C}"@) && !unexpanded(e)
}

/// The early-end regexes compiled for a trigger, in order.
pub open spec fn early_regex_sources(early: Seq<Seq<char>>, use_regex: bool) -> Seq<Seq<char>>
    decreases early.len(),
{
    if early.len() == 0 || !use_regex {
        Seq::empty()
    } else {
        let prev = early_regex_sources(early.drop_last(), use_regex);
        if plain_early_regex(early.last()) && regex_valid(early.last()) {
            prev.push(early.last())
        } else {
            prev
        }
    }
}

/// Whether the trigger's own search is compiled once up front.
pub open spec fn search_precompiled(t: TriggerView) -> bool {
    t.use_regex && t.search.len() > 0 && !contains(t.search, "{C}"@)
}

struct CompiledTrigger {
    group_id: String,
    group_name: String,
    trigger: Trigger,
    group_enabled: bool,
    regex: Option<Pattern>,
    early_regexes: Vec<Pattern>,
}

pub open spec fn pattern_sources(v: Seq<Pattern>) -> Seq<Seq<char>> {
    Seq::new(v.len(), |i: int| v[i].source())
}

impl CompiledTrigger {
    spec fn entry(&self) -> EntryView {
        EntryView {
            group_id: self.group_id@,
            group_name: self.group_name@,
            group_enabled: self.group_enabled,
            trigger: self.trigger@,
        }
    }

    spec fn regexes_ok(&self) -> bool {
        let t = self.trigger@;
        &&& (self.regex is Some <==> search_precompiled(t) && regex_valid(t.search))
        &&& (self.regex matches Some(p) ==> p.source() == t.search)
        &&& pattern_sources(self.early_regexes@) == early_regex_sources(t.early_end, t.use_regex)
    }
}

spec fn entries_of(v: Seq<CompiledTrigger>) -> Seq<EntryView> {
    Seq::new(v.len(), |i: int| v[i].entry())
}

/// The engine's state as the contracts see it.
pub struct EngineView {
    pub library: Seq<GroupView>,
    pub character: Option<Seq<char>>,
    pub log_path: Option<Seq<char>>,
    pub monitoring: bool,
    pub recent_alerts: Seq<AlertView>,
    pub timers: Seq<TimerView>,
    /// Number used in the next `t…` timer id or `a…` alert id.
    pub next_id: u64,
    /// Last fire time per debounce key.
    pub last_fire: Seq<(Seq<char>, u64)>,
    /// Recent casts (normalized spell name, time).
    pub pending_casts: Seq<(Seq<char>, u64)>,
}

/// Trigger engine: library, compiled matchers, overlay state.
pub struct TriggerEngine {
    library: TriggerLibrary,
    compiled: Vec<CompiledTrigger>,
    character: Option<String>,
    log_path: Option<String>,
    monitoring: bool,
    recent_alerts: Vec<FiredAlert>,
    timers: Vec<ActiveTimer>,
    next_alert_id: u64,
    /// Suppress duplicate alert spam for the same trigger (melee range spam, etc.).
    last_fire_ms: Vec<(String, u64)>,
    /// Recent "You begin casting …" names (normalized), for self-only land timers.
    pending_casts: Vec<(String, u64)>,
}

/// No two timers share a name.
pub open spec fn distinct_names(timers: Seq<TimerView>) -> bool {
    forall|i: int, j: int| 0 <= i < j < timers.len() ==> timers[i].name != timers[j].name
}

pub open spec fn alert_views(v: Seq<FiredAlert>) -> Seq<AlertView> {
    Seq::new(v.len(), |i: int| v[i]@)
}

/// Most recent alerts kept for the overlay.
pub const MAX_RECENT_ALERTS: usize = 40;

impl View for TriggerEngine {
    type V = EngineView;

    closed spec fn view(&self) -> EngineView {
        EngineView {
            library: self.library@,
            character: self.character.deep_view(),
            log_path: self.log_path.deep_view(),
            monitoring: self.monitoring,
            recent_alerts: alert_views(self.recent_alerts@),
            timers: timer_views_of(self.timers@),
            next_id: self.next_alert_id,
            last_fire: keyed_views(self.last_fire_ms@),
            pending_casts: keyed_views(self.pending_casts@),
        }
    }
}

impl TriggerEngine {
    /// Compiled matchers agree with the library, timers are numbered below the next id,
    /// one timer per name, at most 40 alerts.
    pub closed spec fn wf(&self) -> bool {
        &&& self.wf_core()
        &&& ids_fresh(self@)
    }

    /// The engine's shape while a line is being worked through: compiled matchers agree
    /// with the library; one timer per name; at most 40 alerts.
    pub closed spec fn wf_core(&self) -> bool {
        &&& entries_of(self.compiled@) == flatten(self.library@)
        &&& forall|i: int| 0 <= i < self.compiled@.len() ==> (#[trigger] self.compiled@[i]).regexes_ok()
        &&& distinct_names(timer_views_of(self.timers@))
        &&& self.recent_alerts@.len() <= MAX_RECENT_ALERTS
    }

    /// The entries the engine matches, in order.
    pub open spec fn entries(&self) -> Seq<EntryView> {
        flatten(self@.library)
    }
}

fn compile_entry(g: &TriggerGroup, t: &Trigger) -> (c: CompiledTrigger)
    ensures
        c.entry() == (EntryView {
            group_id: g.id@,
            group_name: g.name@,
            group_enabled: g.enabled,
            trigger: t@,
        }),
        c.regexes_ok(),
{
    let search = chars_of(t.search.as_str());
    let token = chars_of("{C}");
    let regex = if t.use_regex && search.len() > 0 && !contains_chars(search.as_slice(), token.as_slice()) {
        compile(t.search.as_str())
    } else {
        None
    };
    let mut early_regexes: Vec<Pattern> = Vec::new();
    let mut i: usize = 0;
    let ghost ee = t.early_end.deep_view();
    while i < t.early_end.len()
        invariant
            i <= t.early_end.len(),
            ee == t.early_end.deep_view(),
            token@ == "{C}"@,
            pattern_sources(early_regexes@) == early_regex_sources(ee.take(i as int), t.use_regex),
        decreases t.early_end.len() - i,
    {
        assert(ee.take(i + 1).drop_last() == ee.take(i as int));
        let e = &t.early_end[i];
        assert(e@ == ee[i as int]);
        if t.use_regex {
            let ev = chars_of(e.as_str());
            if !contains_chars(ev.as_slice(), token.as_slice()) && !has_unexpanded_capture(e.as_str()) {
                match compile(e.as_str()) {
                    Some(p) => {
                        let ghost before = pattern_sources(early_regexes@);
                        early_regexes.push(p);
                        assert(pattern_sources(early_regexes@) =~= before.push(ee[i as int]));
                    },
                    None => {},
                }
            }
        }
        i += 1;
    }
    assert(ee.take(t.early_end.len() as int) == ee);
    CompiledTrigger {
        group_id: g.id.clone(),
        group_name: g.name.clone(),
        trigger: t.duplicate(),
        group_enabled: g.enabled,
        regex,
        early_regexes,
    }
}

proof fn lemma_flatten_step(groups: Seq<GroupView>, gi: int)
    requires
        0 <= gi < groups.len(),
    ensures
        flatten(groups.take(gi + 1)) == flatten(groups.take(gi)) + group_entries(groups[gi]),
{
    assert(groups.take(gi + 1).drop_last() == groups.take(gi));
}

fn build_compiled(lib: &TriggerLibrary) -> (r: Vec<CompiledTrigger>)
    ensures
        entries_of(r@) == flatten(lib@),
        forall|i: int| 0 <= i < r@.len() ==> (#[trigger] r@[i]).regexes_ok(),
{
    let mut out: Vec<CompiledTrigger> = Vec::new();
    let mut gi: usize = 0;
    assert(lib@.take(0) =~= Seq::<GroupView>::empty());
    assert(entries_of(out@) =~= flatten(lib@.take(0)));
    while gi < lib.groups.len()
        invariant
            gi <= lib.groups.len(),
            lib@ == group_views(lib.groups@),
            entries_of(out@) == flatten(lib@.take(gi as int)),
            forall|i: int| 0 <= i < out@.len() ==> (#[trigger] out@[i]).regexes_ok(),
        decreases lib.groups.len() - gi,
    {
        let g = &lib.groups[gi];
        let ghost gv = g@;
        assert(lib@[gi as int] == gv);
        let ghost base = entries_of(out@);
        let mut ti: usize = 0;
        while ti < g.triggers.len()
            invariant
                ti <= g.triggers.len(),
                gv == g@,
                entries_of(out@) == base + group_entries(gv).take(ti as int),
                forall|i: int| 0 <= i < out@.len() ==> (#[trigger] out@[i]).regexes_ok(),
            decreases g.triggers.len() - ti,
        {
            let c = compile_entry(g, &g.triggers[ti]);
            assert(c.entry() == entry_of(gv, ti as int));
            let ghost before = out@;
            let ghost ce = c.entry();
            out.push(c);
            assert(entries_of(out@) =~= entries_of(before).push(ce));
            assert(group_entries(gv).take(ti + 1) =~= group_entries(gv).take(ti as int).push(
                entry_of(gv, ti as int),
            ));
            assert(entries_of(out@) =~= base + group_entries(gv).take(ti + 1));
            ti += 1;
        }
        assert(group_entries(gv).take(g.triggers.len() as int) == group_entries(gv));
        proof {
            lemma_flatten_step(lib@, gi as int);
        }
        gi += 1;
    }
    assert(lib@.take(lib.groups.len() as int) == lib@);
    out
}

impl TriggerEngine {
    /// A fresh engine over `library`: no character or log, not monitoring, no alerts or
    /// timers, ids starting at 1.
    pub fn new(library: TriggerLibrary) -> (r: Self)
        ensures
            r.wf(),
            r@ == (EngineView {
                library: library@,
                character: None,
                log_path: None,
                monitoring: false,
                recent_alerts: Seq::empty(),
                timers: Seq::empty(),
                next_id: 1,
                last_fire: Seq::empty(),
                pending_casts: Seq::empty(),
            }),
    {
        let compiled = build_compiled(&library);
        let r = TriggerEngine {
            library,
            compiled,
            character: None,
            log_path: None,
            monitoring: false,
            recent_alerts: Vec::new(),
            timers: Vec::new(),
            next_alert_id: 1,
            last_fire_ms: Vec::new(),
            pending_casts: Vec::new(),
        };
        assert(r@.recent_alerts =~= Seq::<AlertView>::empty());
        assert(r@.timers =~= Seq::<TimerView>::empty());
        assert(r@.last_fire =~= Seq::<(Seq<char>, u64)>::empty());
        assert(r@.pending_casts =~= Seq::<(Seq<char>, u64)>::empty());
        r
    }

    /// The current library.
    pub fn library(&self) -> (r: &TriggerLibrary)
        ensures
            r@ == self@.library,
    {
        &self.library
    }

    /// Replaces the library (recompiling its matchers); everything else is kept.
    pub fn set_library(&mut self, library: TriggerLibrary)
        requires
            old(self).wf(),
        ensures
            final(self).wf(),
            final(self)@ == (EngineView { library: library@, ..old(self)@ }),
    {
        self.compiled = build_compiled(&library);
        self.library = library;
    }

    pub fn set_character(&mut self, name: Option<String>)
        requires
            old(self).wf(),
        ensures
            final(self).wf(),
            final(self)@ == (EngineView { character: name.deep_view(), ..old(self)@ }),
    {
        self.character = name;
    }

    pub fn set_log_path(&mut self, path: Option<String>)
        requires
            old(self).wf(),
        ensures
            final(self).wf(),
            final(self)@ == (EngineView { log_path: path.deep_view(), ..old(self)@ }),
    {
        self.log_path = path;
    }

    pub fn set_monitoring(&mut self, monitoring: bool)
        requires
            old(self).wf(),
        ensures
            final(self).wf(),
            final(self)@ == (EngineView { monitoring, ..old(self)@ }),
    {
        self.monitoring = monitoring;
    }

    /// Drops every timer.
    pub fn clear_timers(&mut self)
        requires
            old(self).wf(),
        ensures
            final(self).wf(),
            final(self)@ == (EngineView { timers: Seq::empty(), ..old(self)@ }),
    {
        self.timers.clear();
        assert(timer_views_of(self.timers@) =~= Seq::<TimerView>::empty());
    }

    /// Drops every recent alert.
    pub fn clear_alerts(&mut self)
        requires
            old(self).wf(),
        ensures
            final(self).wf(),
            final(self)@ == (EngineView { recent_alerts: Seq::empty(), ..old(self)@ }),
    {
        self.recent_alerts.clear();
        assert(alert_views(self.recent_alerts@) =~= Seq::<AlertView>::empty());
    }
}

/// The timers of `ts` that `keep` accepts, in order.
pub open spec fn keep_timers(ts: Seq<TimerView>, keep: spec_fn(TimerView) -> bool) -> Seq<TimerView>
    decreases ts.len(),
{
    if ts.len() == 0 {
        ts
    } else {
        let prev = keep_timers(ts.drop_last(), keep);
        if keep(ts.last()) {
            prev.push(ts.last())
        } else {
            prev
        }
    }
}

/// A name absent from `ts` is absent from what `keep_timers` keeps of it.
proof fn lemma_keep_timers_absent(
    ts: Seq<TimerView>,
    keep: spec_fn(TimerView) -> bool,
    name: Seq<char>,
)
    requires
        forall|i: int| 0 <= i < ts.len() ==> (#[trigger] ts[i]).name != name,
    ensures
        forall|i: int|
            0 <= i < keep_timers(ts, keep).len() ==> (#[trigger] keep_timers(ts, keep)[i]).name
                != name,
    decreases ts.len(),
{
    if ts.len() > 0 {
        let init = ts.drop_last();
        assert(forall|i: int| 0 <= i < init.len() ==> (#[trigger] init[i]).name == ts[i].name);
        lemma_keep_timers_absent(init, keep, name);
        assert(ts[ts.len() - 1].name != name);
        let prev = keep_timers(init, keep);
        if keep(ts.last()) {
            assert(keep_timers(ts, keep) == prev.push(ts.last()));
            assert forall|i: int| 0 <= i < prev.push(ts.last()).len() implies (#[trigger] prev.push(ts.last())[i]).name != name by {
                if i < prev.len() {
                    assert(prev.push(ts.last())[i] == prev[i]);
                }
            }
        } else {
            assert(keep_timers(ts, keep) == prev);
        }
    } else {
        assert(keep_timers(ts, keep) == ts);
    }
}

/// Dropping timers keeps their names distinct.
proof fn lemma_keep_timers_distinct(ts: Seq<TimerView>, keep: spec_fn(TimerView) -> bool)
    requires
        distinct_names(ts),
    ensures
        distinct_names(keep_timers(ts, keep)),
    decreases ts.len(),
{
    if ts.len() > 0 {
        let init = ts.drop_last();
        assert(distinct_names(init));
        lemma_keep_timers_distinct(init, keep);
        let prev = keep_timers(init, keep);
        let last = ts.last();
        assert forall|i: int| 0 <= i < init.len() implies (#[trigger] init[i]).name != last.name by {
            assert(ts[i] == init[i]);
        }
        lemma_keep_timers_absent(init, keep, last.name);
        if keep(last) {
            assert forall|i: int, j: int|
                0 <= i < j < prev.push(last).len() implies prev.push(last)[i].name
                != prev.push(last)[j].name by {
                if j == prev.len() {
                    assert(prev[i].name != last.name);
                }
            }
        }
    }
}

/// Timers other than the one with this id.
pub open spec fn id_differs(id: Seq<char>) -> spec_fn(TimerView) -> bool {
    |t: TimerView| t.id != id
}

/// Timers still running after `now`.
pub open spec fn ends_after(now: u64) -> spec_fn(TimerView) -> bool {
    |t: TimerView| t.ends_ms > now
}

/// Keeps the timers whose flag is set; the flags are `keep` of each timer.
fn retain_by_flags(
    timers: &mut Vec<ActiveTimer>,
    flags: &Vec<bool>,
    Ghost(keep): Ghost<spec_fn(TimerView) -> bool>,
)
    requires
        flags@.len() == old(timers)@.len(),
        forall|i: int| 0 <= i < flags@.len() ==> #[trigger] flags@[i] == keep(old(timers)@[i]@),
    ensures
        timer_views_of(final(timers)@) == keep_timers(timer_views_of(old(timers)@), keep),
{
    let ghost tv = timer_views_of(timers@);
    let mut out: Vec<ActiveTimer> = Vec::new();
    let mut i: usize = 0;
    while i < timers.len()
        invariant
            i <= timers.len(),
            flags@.len() == timers@.len(),
            tv == timer_views_of(timers@),
            forall|k: int| 0 <= k < flags@.len() ==> #[trigger] flags@[k] == keep(tv[k]),
            timer_views_of(out@) == keep_timers(tv.take(i as int), keep),
        decreases timers.len() - i,
    {
        assert(tv.take(i + 1).drop_last() == tv.take(i as int));
        assert(tv[i as int] == timers@[i as int]@);
        if flags[i] {
            let ghost before = timer_views_of(out@);
            out.push(timers[i].duplicate());
            assert(timer_views_of(out@) =~= before.push(tv[i as int]));
        }
        i += 1;
    }
    assert(tv.take(timers.len() as int) == tv);
    *timers = out;
}

/// Groups whose id is listed get `enabled`; others are unchanged.
pub open spec fn with_groups_enabled(groups: Seq<GroupView>, ids: Seq<Seq<char>>, enabled: bool) -> Seq<
    GroupView,
> {
    Seq::new(
        groups.len(),
        |i: int|
            if ids.contains(groups[i].id) {
                GroupView { enabled, ..groups[i] }
            } else {
                groups[i]
            },
    )
}

pub open spec fn with_entries_enabled(es: Seq<EntryView>, ids: Seq<Seq<char>>, enabled: bool) -> Seq<
    EntryView,
> {
    Seq::new(
        es.len(),
        |i: int|
            if ids.contains(es[i].group_id) {
                EntryView { group_enabled: enabled, ..es[i] }
            } else {
                es[i]
            },
    )
}

proof fn lemma_flatten_enabled(groups: Seq<GroupView>, ids: Seq<Seq<char>>, enabled: bool)
    ensures
        flatten(with_groups_enabled(groups, ids, enabled)) == with_entries_enabled(
            flatten(groups),
            ids,
            enabled,
        ),
    decreases groups.len(),
{
    if groups.len() > 0 {
        let ng = with_groups_enabled(groups, ids, enabled);
        assert(ng.drop_last() =~= with_groups_enabled(groups.drop_last(), ids, enabled));
        lemma_flatten_enabled(groups.drop_last(), ids, enabled);
        let g = groups.last();
        assert(group_entries(ng.last()) =~= with_entries_enabled(group_entries(g), ids, enabled));
        assert(flatten(ng) =~= with_entries_enabled(flatten(groups), ids, enabled));
    }
}

fn contains_id(ids: &[String], id: &String) -> (r: bool)
    ensures
        r == ids.deep_view().contains(id@),
{
    let mut i: usize = 0;
    while i < ids.len()
        invariant
            i <= ids.len(),
            forall|k: int| 0 <= k < i ==> ids@[k]@ != id@,
        decreases ids.len() - i,
    {
        if ids[i] == *id {
            assert(ids.deep_view()[i as int] == id@);
            return true;
        }
        i += 1;
    }
    assert forall|k: int| 0 <= k < ids.deep_view().len() implies ids.deep_view()[k] != id@ by {
        assert(ids.deep_view()[k] == ids@[k]@);
    }
    false
}

impl TriggerEngine {
    /// Drops the timer with this id; true when one was there.
    pub fn clear_timer(&mut self, timer_id: &str) -> (r: bool)
        requires
            old(self).wf(),
        ensures
            final(self).wf(),
            final(self)@ == (EngineView {
                timers: keep_timers(old(self)@.timers, id_differs(timer_id@)),
                ..old(self)@
            }),
            r == exists|i: int| 0 <= i < old(self)@.timers.len() && old(self)@.timers[i].id == timer_id@,
    {
        let ghost keep = id_differs(timer_id@);
        let ghost tv = timer_views_of(self.timers@);
        let target = chars_of(timer_id);
        let mut flags: Vec<bool> = Vec::new();
        let mut any = false;
        let mut i: usize = 0;
        while i < self.timers.len()
            invariant
                i <= self.timers.len(),
                tv == timer_views_of(self.timers@),
                target@ == timer_id@,
                keep == id_differs(timer_id@),
                flags@.len() == i,
                forall|k: int| 0 <= k < i ==> #[trigger] flags@[k] == keep(self.timers@[k]@),
                any == exists|k: int| 0 <= k < i && tv[k].id == timer_id@,
            decreases self.timers.len() - i,
        {
            let idv = chars_of(self.timers[i].id.as_str());
            let same = crate::text::chars_eq(idv.as_slice(), target.as_slice());
            assert(tv[i as int] == self.timers@[i as int]@);
            flags.push(!same);
            if same {
                any = true;
            }
            i += 1;
        }
        proof {
            lemma_keep_timers_distinct(tv, keep);
            lemma_keep_fresh(self@, keep);
        }
        retain_by_flags(&mut self.timers, &flags, Ghost(keep));
        any
    }

    /// Drops timers that ended at or before `now`; true when any were removed.
    pub fn prune_at(&mut self, now: u64) -> (r: bool)
        requires
            old(self).wf(),
        ensures
            final(self).wf(),
            final(self)@ == (EngineView {
                timers: keep_timers(old(self)@.timers, ends_after(now)),
                ..old(self)@
            }),
            r == (final(self)@.timers.len() != old(self)@.timers.len()),
    {
        let ghost keep = ends_after(now);
        let ghost tv = timer_views_of(self.timers@);
        let mut flags: Vec<bool> = Vec::new();
        let mut i: usize = 0;
        while i < self.timers.len()
            invariant
                i <= self.timers.len(),
                tv == timer_views_of(self.timers@),
                keep == ends_after(now),
                flags@.len() == i,
                forall|k: int| 0 <= k < i ==> #[trigger] flags@[k] == keep(self.timers@[k]@),
            decreases self.timers.len() - i,
        {
            flags.push(self.timers[i].ends_ms > now);
            i += 1;
        }
        let before = self.timers.len();
        proof {
            lemma_keep_timers_distinct(tv, keep);
            lemma_keep_fresh(self@, keep);
        }
        retain_by_flags(&mut self.timers, &flags, Ghost(keep));
        self.timers.len() != before
    }

    /// Drop finished timers (against the wall clock). Returns true if any were removed.
    pub fn prune_expired_timers(&mut self) -> (r: bool)
        requires
            old(self).wf(),
        ensures
            final(self).wf(),
            exists|now: u64|
                final(self)@ == (EngineView {
                    timers: keep_timers(old(self)@.timers, #[trigger] ends_after(now)),
                    ..old(self)@
                }),
            r == (final(self)@.timers.len() != old(self)@.timers.len()),
    {
        let now = now_ms();
        self.prune_at(now)
    }

    /// The overlay state: character, log, monitoring flag, alerts, timers.
    pub fn snapshot(&self) -> (r: EngineState)
        ensures
            r@ == (StateView {
                character: self@.character,
                log_path: self@.log_path,
                monitoring: self@.monitoring,
                recent_alerts: self@.recent_alerts,
                timers: self@.timers,
            }),
    {
        let mut alerts: Vec<FiredAlert> = Vec::new();
        let mut i: usize = 0;
        while i < self.recent_alerts.len()
            invariant
                i <= self.recent_alerts.len(),
                alerts@.len() == i,
                forall|k: int| 0 <= k < i ==> #[trigger] alerts@[k]@ == self.recent_alerts@[k]@,
            decreases self.recent_alerts.len() - i,
        {
            alerts.push(self.recent_alerts[i].duplicate());
            i += 1;
        }
        let mut timers: Vec<ActiveTimer> = Vec::new();
        let mut j: usize = 0;
        while j < self.timers.len()
            invariant
                j <= self.timers.len(),
                timers@.len() == j,
                forall|k: int| 0 <= k < j ==> #[trigger] timers@[k]@ == self.timers@[k]@,
            decreases self.timers.len() - j,
        {
            timers.push(self.timers[j].duplicate());
            j += 1;
        }
        let r = EngineState {
            character: copy_opt_string(&self.character),
            log_path: copy_opt_string(&self.log_path),
            monitoring: self.monitoring,
            recent_alerts: alerts,
            timers,
        };
        assert(r@.recent_alerts =~= self@.recent_alerts);
        assert(r@.timers =~= self@.timers);
        r
    }

    /// Flip group enable flags without recompiling regexes (fast path for class chips).
    pub fn set_groups_enabled(&mut self, ids: &[String], enabled: bool)
        requires
            old(self).wf(),
        ensures
            final(self).wf(),
            final(self)@ == (EngineView {
                library: with_groups_enabled(old(self)@.library, ids.deep_view(), enabled),
                ..old(self)@
            }),
    {
        let ghost ids_v = ids.deep_view();
        let ghost old_lib = self.library@;
        let ghost old_entries = entries_of(self.compiled@);
        let mut groups: Vec<TriggerGroup> = Vec::new();
        std::mem::swap(&mut groups, &mut self.library.groups);
        assert(group_views(groups@) == old_lib);
        let mut i: usize = 0;
        while i < groups.len()
            invariant
                i <= groups.len(),
                ids_v == ids.deep_view(),
                old_lib.len() == groups@.len(),
                forall|k: int|
                    0 <= k < old_lib.len() ==> #[trigger] groups@[k]@ == if k < i {
                        with_groups_enabled(old_lib, ids_v, enabled)[k]
                    } else {
                        old_lib[k]
                    },
            decreases groups.len() - i,
        {
            let ghost before = groups@;
            assert(before[i as int]@ == old_lib[i as int]);
            let hit = contains_id(ids, &groups[i].id);
            if hit {
                groups[i].enabled = enabled;
            }
            assert(groups@[i as int]@ == with_groups_enabled(old_lib, ids_v, enabled)[i as int]);
            assert forall|k: int| 0 <= k < old_lib.len() && k != i implies groups@[k] == before[k] by {}
            i += 1;
        }
        std::mem::swap(&mut groups, &mut self.library.groups);
        assert(self.library@ =~= with_groups_enabled(old_lib, ids_v, enabled));
        let mut compiled: Vec<CompiledTrigger> = Vec::new();
        std::mem::swap(&mut compiled, &mut self.compiled);
        let mut j: usize = 0;
        while j < compiled.len()
            invariant
                j <= compiled.len(),
                ids_v == ids.deep_view(),
                old_entries.len() == compiled@.len(),
                forall|k: int|
                    0 <= k < old_entries.len() ==> #[trigger] compiled@[k].entry() == if k < j {
                        with_entries_enabled(old_entries, ids_v, enabled)[k]
                    } else {
                        old_entries[k]
                    },
                forall|k: int| 0 <= k < compiled@.len() ==> (#[trigger] compiled@[k]).regexes_ok(),
            decreases compiled.len() - j,
        {
            let ghost before = compiled@;
            assert(before[j as int].entry() == old_entries[j as int]);
            let hit = contains_id(ids, &compiled[j].group_id);
            if hit {
                compiled[j].group_enabled = enabled;
            }
            assert(compiled@[j as int].entry() == with_entries_enabled(old_entries, ids_v, enabled)[j as int]);
            assert(before[j as int].regexes_ok());
            assert forall|k: int| 0 <= k < old_entries.len() && k != j implies compiled@[k] == before[k] by {}
            j += 1;
        }
        std::mem::swap(&mut compiled, &mut self.compiled);
        proof {
            lemma_flatten_enabled(old_lib, ids_v, enabled);
        }
        assert(entries_of(self.compiled@) =~= flatten(self.library@));
    }
}

/// `prefix` followed by the decimal digits of `n`, as a `String`.
fn numbered_id(prefix: char, n: u64) -> (r: String)
    ensures
        r@ == seq![prefix] + crate::tokens::decimal(n as nat),
{
    let mut v: Vec<char> = Vec::new();
    v.push(prefix);
    let d = crate::tokens::decimal_string(n);
    crate::text::push_all(&mut v, d.as_slice());
    assert(v@ =~= seq![prefix] + crate::tokens::decimal(n as nat));
    crate::text::string_of(v.as_slice())
}

fn names_ability_exec(name: &String, ability: &[char], legacy: &Vec<String>) -> (r: bool)
    requires
        legacy.deep_view() == crate::timers::legacy_names(ability@),
    ensures
        r == (name@ == ability@ || crate::timers::legacy_names(ability@).contains(name@)),
{
    let n = chars_of(name.as_str());
    if crate::text::chars_eq(n.as_slice(), ability) {
        return true;
    }
    contains_id(legacy.as_slice(), name)
}

fn quiet(cleared: Vec<String>, started: Option<ActiveTimer>) -> (r: MatchAction)
    ensures
        r@ == crate::rules::quiet_action(
            cleared.deep_view(),
            match started {
                Some(t) => Some(t@),
                None => None,
            },
        ),
{
    MatchAction { alert: None, sound: None, speak: None, started_timer: started, cleared_timer_ids: cleared }
}

impl TriggerEngine {
    /// Keep overlay timers aligned with the game's stated ability remaining time.
    fn sync_ability_cooldown_from_log(&mut self, action: &str, now: u64) -> (r: Option<MatchAction>)
        requires
            old(self).wf_core(),
            old(self)@.next_id < u64::MAX,
        ensures
            final(self).wf_core(),
            final(self)@.next_id <= old(self)@.next_id + 1,
            (final(self)@, match r {
                Some(a) => Some(a@),
                None => None,
            }) == crate::rules::sync_spec(old(self)@, action@, now),
    {
        let ghost v = self@;
        let pat = match compile(r"^You can use the ability (.+) again in (\d+) minute\(s\) (\d+) seconds?\.$") {
            Some(p) => p,
            None => {
                return None;
            },
        };
        let caps = match crate::pattern::captures(&pat, action) {
            Some(c) => c,
            None => {
                return None;
            },
        };
        if caps.len() < 3 {
            return None;
        }
        let ghost cv = caps.deep_view();
        let first = chars_of(caps[0].as_str());
        let ability_v = crate::text::trim_chars(first.as_slice());
        if ability_v.len() == 0 {
            return None;
        }
        let mins = match crate::timers::parse_u64_exec(caps[1].as_str()) {
            Some(m) => m,
            None => {
                return None;
            },
        };
        let secs = match crate::timers::parse_u64_exec(caps[2].as_str()) {
            Some(m) => m,
            None => {
                return None;
            },
        };
        let remaining = crate::timers::saturating_mul_u64(mins, 60).saturating_add(secs);
        let ability = crate::text::string_of(ability_v.as_slice());
        let legacy = crate::timers::legacy_cooldown_names(ability.as_str());
        let ghost tv = v.timers;
        let ghost ab = ability_v@;
        if remaining == 0 {
            let mut cleared: Vec<String> = Vec::new();
            let mut i: usize = 0;
            while i < self.timers.len()
                invariant
                    i <= self.timers.len(),
                    self@ == v,
                    tv == timer_views_of(self.timers@),
                    ability@ == ab,
                    ability_v@ == ab,
                    legacy.deep_view() == crate::timers::legacy_names(ab),
                    cleared.deep_view() == crate::rules::ability_ids_upto(tv, ab, i as int),
                decreases self.timers.len() - i,
            {
                assert(tv[i as int] == self.timers@[i as int]@);
                if names_ability_exec(&self.timers[i].name, ability_v.as_slice(), &legacy) {
                    let ghost before = cleared.deep_view();
                    cleared.push(self.timers[i].id.clone());
                    assert(cleared.deep_view() =~= before.push(tv[i as int].id));
                }
                i += 1;
            }
            if cleared.len() == 0 {
                return None;
            }
            let ghost keep = crate::rules::id_not_in(cleared.deep_view());
            let mut flags: Vec<bool> = Vec::new();
            let mut j: usize = 0;
            while j < self.timers.len()
                invariant
                    j <= self.timers.len(),
                    self@ == v,
                    keep == crate::rules::id_not_in(cleared.deep_view()),
                    flags@.len() == j,
                    forall|k: int| 0 <= k < j ==> #[trigger] flags@[k] == keep(self.timers@[k]@),
                decreases self.timers.len() - j,
            {
                flags.push(!contains_id(cleared.as_slice(), &self.timers[j].id));
                j += 1;
            }
            proof {
                lemma_keep_timers_distinct(tv, keep);
            }
            retain_by_flags(&mut self.timers, &flags, Ghost(keep));
            return Some(quiet(cleared, None));
        }
        let mut existing: Option<usize> = None;
        let mut i: usize = 0;
        while i < self.timers.len()
            invariant
                i <= self.timers.len(),
                self@ == v,
                tv == timer_views_of(self.timers@),
                ability_v@ == ab,
                legacy.deep_view() == crate::timers::legacy_names(ab),
                existing matches Some(k) ==> k < i,
                crate::rules::first_ability_upto(tv, ab, i as int) == match existing {
                    Some(k) => Some(k as int),
                    None => None,
                },
            decreases self.timers.len() - i,
        {
            assert(tv[i as int] == self.timers@[i as int]@);
            if existing.is_none() && names_ability_exec(&self.timers[i].name, ability_v.as_slice(), &legacy) {
                existing = Some(i);
            }
            i += 1;
        }
        let mut duration = remaining;
        match existing {
            Some(k) => {
                let left = self.timers[k].ends_ms.saturating_sub(now).saturating_add(999) / 1000;
                if left == remaining {
                    return None;
                }
                if self.timers[k].duration_secs > remaining {
                    duration = self.timers[k].duration_secs;
                }
            },
            None => {},
        }
        let ghost keep = crate::rules::not_ability(ab);
        let mut flags: Vec<bool> = Vec::new();
        let mut j: usize = 0;
        while j < self.timers.len()
            invariant
                j <= self.timers.len(),
                self@ == v,
                ability_v@ == ab,
                legacy.deep_view() == crate::timers::legacy_names(ab),
                keep == crate::rules::not_ability(ab),
                flags@.len() == j,
                forall|k: int| 0 <= k < j ==> #[trigger] flags@[k] == keep(self.timers@[k]@),
            decreases self.timers.len() - j,
        {
            flags.push(!names_ability_exec(&self.timers[j].name, ability_v.as_slice(), &legacy));
            j += 1;
        }
        proof {
            lemma_keep_timers_distinct(tv, keep);
            lemma_keep_timers_all(tv, keep);
        }
        retain_by_flags(&mut self.timers, &flags, Ghost(keep));
        let timer = ActiveTimer {
            id: numbered_id('t', self.next_alert_id),
            trigger_id: String::from_str("eql-ability-cooldown"),
            name: ability,
            started_ms: now,
            ends_ms: now.saturating_add(crate::timers::saturating_mul_u64(remaining, 1000)),
            duration_secs: duration,
            captures: Vec::new(),
        };
        assert(timer@.captures =~= Seq::<Seq<char>>::empty());
        proof {
            let kept = keep_timers(tv, keep);
            assert forall|k: int| 0 <= k < kept.len() implies (#[trigger] kept[k]).name != ab by {
                assert(keep(kept[k]));
            }
            lemma_push_distinct(kept, timer@);
        }
        self.timers.push(timer.duplicate());
        self.next_alert_id = self.next_alert_id + 1;
        assert(timer_views_of(self.timers@) =~= keep_timers(tv, keep).push(timer@));
        Some(quiet(Vec::new(), Some(timer)))
    }
}

fn add_unique_exec(list: &mut Vec<String>, id: &String)
    ensures
        final(list).deep_view() == crate::rules::add_unique(old(list).deep_view(), id@),
{
    if !contains_id(list.as_slice(), id) {
        let ghost before = list.deep_view();
        list.push(id.clone());
        assert(list.deep_view() =~= before.push(id@));
    }
}

fn add_all_unique_exec(list: &mut Vec<String>, ids: &Vec<String>)
    ensures
        final(list).deep_view() == crate::rules::add_all_unique(old(list).deep_view(), ids.deep_view()),
{
    let ghost base = list.deep_view();
    let ghost iv = ids.deep_view();
    let mut i: usize = 0;
    while i < ids.len()
        invariant
            i <= ids.len(),
            iv == ids.deep_view(),
            list.deep_view() == crate::rules::add_all_unique(base, iv.take(i as int)),
        decreases ids.len() - i,
    {
        assert(iv.take(i + 1).drop_last() == iv.take(i as int));
        assert(iv.take(i + 1).last() == ids@[i as int]@);
        add_unique_exec(list, &ids[i]);
        i += 1;
    }
    assert(iv.take(ids.len() as int) == iv);
}

fn plain_early_match_exec(c: &CompiledTrigger, action: &str) -> (r: bool)
    requires
        c.regexes_ok(),
    ensures
        r == crate::rules::plain_early_match(c.trigger@, action@),
{
    let t = &c.trigger;
    if t.use_regex {
        let ghost srcs = early_regex_sources(t@.early_end, true);
        let mut i: usize = 0;
        while i < c.early_regexes.len()
            invariant
                i <= c.early_regexes.len(),
                srcs == early_regex_sources(t@.early_end, true),
                srcs == pattern_sources(c.early_regexes@),
                t@.use_regex,
                t@ == c.trigger@,
                forall|k: int| 0 <= k < i ==> crate::pattern::regex_captures(#[trigger] srcs[k], action@) is None,
            decreases c.early_regexes.len() - i,
        {
            if crate::pattern::captures(&c.early_regexes[i], action).is_some() {
                assert(crate::pattern::regex_captures(srcs[i as int], action@) is Some);
                assert(0 <= i < srcs.len());
                return true;
            }
            i += 1;
        }
        false
    } else {
        let a = chars_of(action);
        let mut i: usize = 0;
        while i < t.early_end.len()
            invariant
                i <= t.early_end.len(),
                a@ == action@,
                !t@.use_regex,
                t@ == c.trigger@,
                forall|k: int| 0 <= k < i ==> !((#[trigger] t@.early_end[k]).len() > 0 && !unexpanded(
                    t@.early_end[k],
                ) && contains(action@, t@.early_end[k])),
            decreases t.early_end.len() - i,
        {
            let e = &t.early_end[i];
            let ev = chars_of(e.as_str());
            assert(ev@ == t@.early_end[i as int]);
            if ev.len() > 0 && !has_unexpanded_capture(e.as_str()) && contains_chars(a.as_slice(), ev.as_slice()) {
                assert(t@.early_end[i as int].len() > 0 && !unexpanded(t@.early_end[i as int]) && contains(action@, t@.early_end[i as int]));
                return true;
            }
            i += 1;
        }
        false
    }
}

impl TriggerEngine {
    /// The `${1}` early-end `e` of entry `k` against every timer that entry started.
    fn capture_clears_for_exec(
        &self,
        k: usize,
        e: &String,
        list: &mut Vec<String>,
        character: &str,
        action: &str,
    )
        requires
            k < self.compiled@.len(),
        ensures
            final(list).deep_view() == crate::rules::capture_clears_for(
                old(list).deep_view(),
                self.compiled@[k as int].trigger@,
                e@,
                self@.timers,
                character@,
                action@,
                self@.timers.len() as int,
            ),
    {
        let t = &self.compiled[k].trigger;
        let ghost tv = self@.timers;
        let ghost base = list.deep_view();
        let template = match &t.timer_name {
            Some(n) => n.clone(),
            None => t.name.clone(),
        };
        assert(template@ == crate::rules::timer_name_of(t@));
        let tid = chars_of(t.id.as_str());
        let mut m: usize = 0;
        while m < self.timers.len()
            invariant
                m <= self.timers.len(),
                tv == timer_views_of(self.timers@),
                tid@ == t@.id,
                template@ == crate::rules::timer_name_of(t@),
                list.deep_view() == crate::rules::capture_clears_for(
                    base,
                    t@,
                    e@,
                    tv,
                    character@,
                    action@,
                    m as int,
                ),
            decreases self.timers.len() - m,
        {
            let tm = &self.timers[m];
            assert(tv[m as int] == tm@);
            let owner = chars_of(tm.trigger_id.as_str());
            if crate::text::chars_eq(owner.as_slice(), tid.as_slice()) {
                let caps = crate::timers::early_end_captures(tm, template.as_str());
                if caps.len() > 0 && crate::timers::early_end_pattern_matches(
                    e.as_str(),
                    t.use_regex,
                    action,
                    character,
                    &caps,
                ) {
                    add_unique_exec(list, &tm.id);
                }
            }
            m += 1;
        }
    }

    /// Timer ids that the early-ends of entry `k` clear, added to `list`.
    fn early_for_entry_exec(&self, k: usize, list: &mut Vec<String>, character: &str, action: &str)
        requires
            self.wf_core(),
            k < self.entries().len(),
        ensures
            final(list).deep_view() == crate::rules::early_for_entry(
                old(list).deep_view(),
                self.entries()[k as int],
                self@.timers,
                character@,
                action@,
            ),
    {
        let c = &self.compiled[k];
        assert(entries_of(self.compiled@)[k as int] == c.entry());
        assert(c.regexes_ok());
        let t = &c.trigger;
        if !c.group_enabled || !t.enabled || t.early_end.len() == 0 {
            return;
        }
        if plain_early_match_exec(c, action) {
            let template = match &t.timer_name {
                Some(n) => n.clone(),
                None => t.name.clone(),
            };
            let ids = crate::timers::timer_ids_to_clear(&self.timers, template.as_str(), None);
            assert(crate::timers::timer_views(self.timers@) == self@.timers);
            add_all_unique_exec(list, &ids);
        }
        let ghost base = list.deep_view();
        let mut i: usize = 0;
        while i < t.early_end.len()
            invariant
                i <= t.early_end.len(),
                k < self.compiled@.len(),
                t == &self.compiled@[k as int].trigger,
                list.deep_view() == crate::rules::capture_clears(
                    base,
                    t@,
                    self@.timers,
                    character@,
                    action@,
                    i as int,
                ),
            decreases t.early_end.len() - i,
        {
            let e = &t.early_end[i];
            assert(e@ == t@.early_end[i as int]);
            let ev = chars_of(e.as_str());
            if ev.len() > 0 && has_unexpanded_capture(e.as_str()) {
                self.capture_clears_for_exec(k, e, list, character, action);
            }
            i += 1;
        }
    }
}

pub open spec fn opt_timer(t: Option<ActiveTimer>) -> Option<TimerView> {
    match t {
        Some(x) => Some(x@),
        None => None,
    }
}

pub open spec fn opt_action(a: Option<MatchAction>) -> Option<crate::model::ActionView> {
    match a {
        Some(x) => Some(x@),
        None => None,
    }
}

fn blank_string(s: &String) -> (r: bool)
    ensures
        r == crate::text::is_blank(s@),
{
    let v = chars_of(s.as_str());
    crate::text::is_blank_chars(v.as_slice())
}

fn is_none_word(s: &String) -> (r: bool)
    ensures
        r == crate::text::eq_ignore_case(s@, "none"@),
{
    let v = chars_of(s.as_str());
    crate::text::eq_ignore_case_chars(v.as_slice(), chars_of("none").as_slice())
}

impl TriggerEngine {
    fn finish(
        &mut self,
        t: &Trigger,
        started: Option<ActiveTimer>,
        speak: Option<String>,
        sound: Option<String>,
        show: bool,
        display: String,
        now: u64,
    ) -> (r: Option<MatchAction>)
        requires
            old(self).wf_core(),
            old(self)@.next_id < u64::MAX,
        ensures
            final(self).wf_core(),
            final(self)@.next_id <= old(self)@.next_id + 1,
            (final(self)@, opt_action(r)) == crate::rules::finish_spec(
                old(self)@,
                t@,
                opt_timer(started),
                speak.deep_view(),
                sound.deep_view(),
                show,
                display@,
                now,
            ),
    {
        let speak_useful = match &speak {
            Some(x) => !blank_string(x),
            None => false,
        };
        let sound_useful = match &sound {
            Some(x) => !is_none_word(x),
            None => false,
        };
        if started.is_none() && !speak_useful && !show && !sound_useful {
            return None;
        }
        let alert = if show {
            let a = FiredAlert {
                id: numbered_id('a', self.next_alert_id),
                trigger_id: t.id.clone(),
                trigger_name: t.name.clone(),
                kind: if started.is_some() {
                    String::from_str("timer")
                } else {
                    String::from_str("text")
                },
                text: display,
                at_ms: now,
            };
            let ghost before = alert_views(self.recent_alerts@);
            self.next_alert_id = self.next_alert_id + 1;
            self.recent_alerts.insert(0, a.duplicate());
            assert(alert_views(self.recent_alerts@) =~= seq![a@] + before);
            if self.recent_alerts.len() > MAX_RECENT_ALERTS {
                self.recent_alerts.truncate(MAX_RECENT_ALERTS);
                assert(alert_views(self.recent_alerts@) =~= (seq![a@] + before).take(
                    MAX_RECENT_ALERTS as int,
                ));
            }
            Some(a)
        } else {
            None
        };
        let r = MatchAction {
            alert,
            sound: if sound_useful {
                sound
            } else {
                None
            },
            speak: if speak_useful {
                speak
            } else {
                None
            },
            started_timer: started,
            cleared_timer_ids: Vec::new(),
        };
        assert(r@.cleared_timer_ids =~= Seq::<Seq<char>>::empty());
        Some(r)
    }
}

fn display_template_exec(t: &Trigger) -> (r: String)
    ensures
        r@ == crate::rules::display_template(t@),
{
    match &t.display_text {
        Some(d) => if !blank_string(d) {
            d.clone()
        } else {
            t.name.clone()
        },
        None => t.name.clone(),
    }
}

fn speak_template_exec(t: &Trigger) -> (r: String)
    ensures
        r@ == crate::rules::speak_template(t@),
{
    match &t.speak {
        Some(x) => if !blank_string(x) {
            x.clone()
        } else {
            display_template_exec(t)
        },
        None => display_template_exec(t),
    }
}

fn chime_exec(t: &Trigger) -> (r: Option<String>)
    ensures
        r.deep_view() == crate::rules::chime(t@),
{
    if t.tts_enabled {
        return None;
    }
    match &t.sound {
        Some(x) => if !blank_string(x) && !is_none_word(x) {
            Some(x.clone())
        } else {
            None
        },
        None => None,
    }
}

fn debounce_exec(t: &Trigger) -> (r: u64)
    ensures
        r == crate::rules::debounce_ms(t@),
{
    let id = chars_of(t.id.as_str());
    if contains_chars(id.as_slice(), chars_of("out-of-range").as_slice()) || contains_chars(
        id.as_slice(),
        chars_of("los").as_slice(),
    ) {
        crate::rules::SPAM_DEBOUNCE_MS
    } else {
        crate::rules::ALERT_DEBOUNCE_MS
    }
}

fn notice_key_exec(t: &Trigger, name: &String) -> (r: String)
    ensures
        r@ == crate::rules::notice_key(t@, name@),
{
    let mut v = chars_of("timer:");
    crate::text::push_all(&mut v, chars_of(t.id.as_str()).as_slice());
    crate::text::push_all(&mut v, chars_of(":").as_slice());
    crate::text::push_all(&mut v, chars_of(name.as_str()).as_slice());
    crate::text::string_of(v.as_slice())
}

impl TriggerEngine {
    fn fire(
        &mut self,
        t: &Trigger,
        caps: Vec<String>,
        character: &String,
        action: &str,
        now: u64,
    ) -> (r: Option<MatchAction>)
        requires
            old(self).wf_core(),
            old(self)@.next_id as int + 2 <= u64::MAX,
        ensures
            final(self).wf_core(),
            final(self)@.library == old(self)@.library,
            final(self)@.next_id <= old(self)@.next_id + 2,
            (final(self)@, opt_action(r)) == crate::rules::fire_spec(
                old(self)@,
                t@,
                caps.deep_view(),
                character@,
                action@,
                now,
            ),
    {
        let ghost v = self@;
        let is_timer = match t.timer_seconds {
            Some(x) => x > 0,
            None => false,
        };
        if !is_timer {
            let d = debounce_exec(t);
            match crate::timers::key_lookup(&self.last_fire_ms, t.id.as_str()) {
                Some(prev) => {
                    if now.saturating_sub(prev) < d {
                        return None;
                    }
                },
                None => {},
            }
        }
        let display_t = display_template_exec(t);
        let display = crate::tokens::expand_tokens(display_t.as_str(), character.as_str(), action, Some(&caps));
        let speak0 = if t.tts_enabled {
            let st = speak_template_exec(t);
            Some(crate::tokens::expand_tokens(st.as_str(), character.as_str(), action, Some(&caps)))
        } else {
            None
        };
        if !is_timer {
            crate::timers::key_store(&mut self.last_fire_ms, t.id.as_str(), now);
            let show = !blank_string(&display);
            return self.finish(t, None, speak0, chime_exec(t), show, display, now);
        }
        let secs0 = match t.timer_seconds {
            Some(x) => x,
            None => 0,
        };
        let tmpl0 = match &t.timer_name {
            Some(n) => n.clone(),
            None => t.name.clone(),
        };
        let tv0 = chars_of(tmpl0.as_str());
        let remap = crate::casts::has_recent_cast(&self.pending_casts, "dazzle", now)
            && crate::text::starts_with_chars(tv0.as_slice(), chars_of("Mesmerize").as_slice());
        let secs = if remap {
            96u64
        } else {
            secs0
        };
        let tmpl = if remap {
            String::from_str("Dazzle - ${1}")
        } else {
            tmpl0
        };
        if remap {
            crate::casts::drop_cast_exec(&mut self.pending_casts, "dazzle");
        }
        let name = crate::tokens::expand_tokens(tmpl.as_str(), character.as_str(), action, Some(&caps));
        let key = notice_key_exec(t, &name);
        let suppress = match crate::timers::key_lookup(&self.last_fire_ms, key.as_str()) {
            Some(p) => now.saturating_sub(p) < crate::rules::ALERT_DEBOUNCE_MS,
            None => false,
        };
        crate::timers::key_store(&mut self.last_fire_ms, key.as_str(), now);
        let timer = ActiveTimer {
            id: numbered_id('t', self.next_alert_id),
            trigger_id: t.id.clone(),
            name,
            started_ms: now,
            ends_ms: now.saturating_add(crate::timers::saturating_mul_u64(secs, 1000)),
            duration_secs: secs,
            captures: caps,
        };
        self.restart_timer(timer.duplicate());
        self.next_alert_id = self.next_alert_id + 1;
        let speak = if suppress {
            None
        } else {
            speak0
        };
        let sound = if suppress {
            None
        } else {
            chime_exec(t)
        };
        let show = {
            let explicit = match &t.display_text {
                Some(dt) => !blank_string(dt),
                None => false,
            };
            explicit && !suppress
        };
        self.finish(t, Some(timer), speak, sound, show, display, now)
    }
}

impl TriggerEngine {
    /// Replaces the timer named like `timer` (if any) with `timer`, at the end.
    fn restart_timer(&mut self, timer: ActiveTimer)
        requires
            old(self).wf_core(),
        ensures
            final(self).wf_core(),
            final(self)@ == (EngineView {
                timers: keep_timers(old(self)@.timers, crate::rules::name_differs(timer@.name)).push(
                    timer@,
                ),
                ..old(self)@
            }),
    {
        let ghost v = self@;
        let ghost tv = timer_views_of(self.timers@);
        let ghost keep = crate::rules::name_differs(timer@.name);
        let nv = chars_of(timer.name.as_str());
        let mut flags: Vec<bool> = Vec::new();
        let mut j: usize = 0;
        while j < self.timers.len()
            invariant
                j <= self.timers.len(),
                tv == timer_views_of(self.timers@),
                nv@ == timer@.name,
                keep == crate::rules::name_differs(timer@.name),
                flags@.len() == j,
                forall|k: int| 0 <= k < j ==> #[trigger] flags@[k] == keep(self.timers@[k]@),
            decreases self.timers.len() - j,
        {
            let n = chars_of(self.timers[j].name.as_str());
            flags.push(!crate::text::chars_eq(n.as_slice(), nv.as_slice()));
            j += 1;
        }
        proof {
            lemma_keep_timers_distinct(tv, keep);
            lemma_keep_timers_all(tv, keep);
        }
        retain_by_flags(&mut self.timers, &flags, Ghost(keep));
        proof {
            let kept = keep_timers(tv, keep);
            assert forall|k: int| 0 <= k < kept.len() implies (#[trigger] kept[k]).name != timer@.name by {
                assert(keep(kept[k]));
            }
            lemma_push_distinct(kept, timer@);
        }
        self.timers.push(timer);
        assert(timer_views_of(self.timers@) =~= keep_timers(tv, keep).push(timer@));
    }
}

fn str_list(items: &[&str]) -> (r: Vec<String>)
    ensures
        r@.len() == items@.len(),
        forall|i: int| 0 <= i < items@.len() ==> #[trigger] r@[i]@ == items@[i]@,
{
    let mut out: Vec<String> = Vec::new();
    let mut i: usize = 0;
    while i < items.len()
        invariant
            i <= items.len(),
            out@.len() == i,
            forall|k: int| 0 <= k < i ==> #[trigger] out@[k]@ == items@[k]@,
        decreases items.len() - i,
    {
        out.push(crate::text::own(items[i]));
        i += 1;
    }
    out
}

fn required_casts_exec(c: &CompiledTrigger) -> (r: Option<Vec<String>>)
    ensures
        r.deep_view() == crate::rules::required_casts(c.entry()),
{
    let name = chars_of(c.trigger.name.as_str());
    if crate::text::chars_eq(name.as_slice(), chars_of("Slowed").as_slice()) {
        let v = str_list(&["drowsy", "walking sleep", "tagar's insects", "togor's insects", "turgur's insects"]);
        assert(v.deep_view() =~= seq![
            "drowsy"@,
            "walking sleep"@,
            "tagar's insects"@,
            "togor's insects"@,
            "turgur's insects"@,
        ]);
        return Some(v);
    }
    if crate::text::chars_eq(name.as_slice(), chars_of("Maloed").as_slice()) {
        let v = str_list(&["malo", "malosini", "malise", "malaisement", "malosi"]);
        assert(v.deep_view() =~= seq!["malo"@, "malosini"@, "malise"@, "malaisement"@, "malosi"@]);
        return Some(v);
    }
    if crate::text::chars_eq(name.as_slice(), chars_of("Odium").as_slice()) {
        let v = str_list(&["odium"]);
        assert(v.deep_view() =~= seq!["odium"@]);
        return Some(v);
    }
    let group = chars_of(c.group_name.as_str());
    let lower = crate::text::to_lower_chars(group.as_slice());
    if !contains_chars(lower.as_slice(), chars_of("crowd control").as_slice()) {
        return None;
    }
    match crate::tokens::spell_basename(c.trigger.name.as_str()) {
        Some(n) => {
            let mut v: Vec<String> = Vec::new();
            v.push(n);
            assert(v.deep_view() =~= seq![crate::tokens::spell_base(c.trigger@.name)->0]);
            Some(v)
        },
        None => None,
    }
}

impl TriggerEngine {
    fn entry_caps(&self, k: usize, character: &String, action: &str) -> (r: Option<Vec<String>>)
        requires
            self.wf_core(),
            k < self.entries().len(),
        ensures
            r.deep_view() == crate::rules::match_caps(self.entries()[k as int].trigger, character@, action@),
    {
        let c = &self.compiled[k];
        assert(entries_of(self.compiled@)[k as int] == c.entry());
        assert(c.regexes_ok());
        let t = &c.trigger;
        let search = chars_of(t.search.as_str());
        let token = chars_of("{C}");
        if t.use_regex {
            if contains_chars(search.as_slice(), token.as_slice()) {
                let bound = crate::tokens::bind_character_token(t.search.as_str(), character.as_str(), true);
                match compile(bound.as_str()) {
                    Some(p) => crate::pattern::captures(&p, action),
                    None => None,
                }
            } else {
                proof {
                    crate::tokens::lemma_replace_absent(
                        t@.search,
                        "{C}"@,
                        crate::pattern::escape_spec(character@),
                    );
                }
                if search.len() == 0 {
                    return match compile(t.search.as_str()) {
                        Some(p) => crate::pattern::captures(&p, action),
                        None => None,
                    };
                }
                match &c.regex {
                    Some(p) => crate::pattern::captures(p, action),
                    None => None,
                }
            }
        } else {
            let bound = crate::tokens::bind_character_token(t.search.as_str(), character.as_str(), false);
            let a = chars_of(action);
            let b = chars_of(bound.as_str());
            if contains_chars(a.as_slice(), b.as_slice()) {
                let v: Vec<String> = Vec::new();
                assert(v.deep_view() =~= Seq::<Seq<char>>::empty());
                Some(v)
            } else {
                None
            }
        }
    }

    fn cast_gated_exec(&self, k: usize, now: u64) -> (r: bool)
        requires
            self.wf_core(),
            k < self.entries().len(),
        ensures
            r == crate::rules::cast_gated(self.entries()[k as int], self@.pending_casts, now),
    {
        let c = &self.compiled[k];
        assert(entries_of(self.compiled@)[k as int] == c.entry());
        if crate::tokens::is_self_attributed_search(c.trigger.search.as_str()) {
            return false;
        }
        match required_casts_exec(c) {
            None => false,
            Some(spells) => {
                let ghost sv = spells.deep_view();
                let mut i: usize = 0;
                while i < spells.len()
                    invariant
                        i <= spells.len(),
                        sv == spells.deep_view(),
                        k < self.entries().len(),
                        crate::rules::required_casts(self.entries()[k as int]) == Some(sv),
                        forall|j: int| 0 <= j < i ==> !crate::casts::recent_cast(
                            self@.pending_casts,
                            #[trigger] sv[j],
                            now,
                        ),
                    decreases spells.len() - i,
                {
                    assert(sv[i as int] == spells@[i as int]@);
                    if crate::casts::has_recent_cast(&self.pending_casts, spells[i].as_str(), now) {
                        assert(crate::casts::recent_cast(self@.pending_casts, sv[i as int], now));
                        assert(exists|j: int|
                            0 <= j < sv.len() && crate::casts::recent_cast(self@.pending_casts, #[trigger] sv[j], now));
                        assert(crate::rules::any_recent(self@.pending_casts, sv, now));
                        return false;
                    }
                    i += 1;
                }
                true
            },
        }
    }

    fn step(&mut self, k: usize, character: &String, action: &str, now: u64) -> (r: Option<MatchAction>)
        requires
            old(self).wf_core(),
            k < old(self).entries().len(),
            old(self)@.next_id as int + 2 <= u64::MAX,
        ensures
            final(self).wf_core(),
            final(self)@.library == old(self)@.library,
            final(self)@.next_id <= old(self)@.next_id + 2,
            (final(self)@, opt_action(r)) == crate::rules::step_spec(
                old(self)@,
                old(self).entries()[k as int],
                character@,
                action@,
                now,
            ),
    {
        assert(entries_of(self.compiled@)[k as int] == self.compiled@[k as int].entry());
        {
            let c = &self.compiled[k];
            let search = chars_of(c.trigger.search.as_str());
            if !c.group_enabled || !c.trigger.enabled || search.len() == 0 {
                return None;
            }
        }
        let caps = match self.entry_caps(k, character, action) {
            Some(x) => x,
            None => {
                return None;
            },
        };
        if self.cast_gated_exec(k, now) {
            return None;
        }
        let t = self.compiled[k].trigger.duplicate();
        self.fire(&t, caps, character, action, now)
    }
}

pub open spec fn action_views(v: Seq<MatchAction>) -> Seq<crate::model::ActionView> {
    Seq::new(v.len(), |i: int| v[i]@)
}

impl TriggerEngine {
    /// Room for the ids one processed line may use (one per timer or toast).
    pub open spec fn has_id_room(&self) -> bool {
        self@.next_id as int + 2 * self.entries().len() + 1 <= u64::MAX
    }

    /// Whether the ids of the next processed line can still be numbered.
    pub fn has_room_for_line(&self) -> (r: bool)
        requires
            self.wf(),
        ensures
            r == self.has_id_room(),
    {
        let n = self.compiled.len() as u128;
        (self.next_alert_id as u128) + 2 * n + 1 <= u64::MAX as u128
    }

    /// Process one log action line (already stripped of timestamp) at time `now`.
    pub fn process_action_at(&mut self, action: &str, now: u64) -> (r: Vec<MatchAction>)
        requires
            old(self).wf(),
            old(self).has_id_room(),
        ensures
            final(self).wf(),
            (final(self)@, action_views(r@)) == crate::rules::process_spec(
                old(self)@,
                old(self).entries(),
                action@,
                now,
            ),
    {
        let ghost v = self@;
        let ghost entries = self.entries();
        self.prune_at(now);
        let character = match &self.character {
            Some(c) => c.clone(),
            None => String::new(),
        };
        assert(character@ == match v.character {
            Some(c) => c,
            None => Seq::<char>::empty(),
        });
        let mut actions: Vec<MatchAction> = Vec::new();
        let synced = self.sync_ability_cooldown_from_log(action, now);
        let ghost v1 = self@;
        match synced {
            Some(x) => {
                actions.push(x);
            },
            None => {},
        }
        crate::casts::note_begin_casting(&mut self.pending_casts, action, now);
        let ghost v2 = self@;
        assert(v2 == EngineView { pending_casts: crate::casts::note_cast(v1.pending_casts, action@, now), ..v1 });
        let mut cleared: Vec<String> = Vec::new();
        let mut k: usize = 0;
        while k < self.compiled.len()
            invariant
                k <= self.compiled.len(),
                self.wf_core(),
                self@ == v2,
                entries == self.entries(),
                self.compiled@.len() == entries.len(),
                cleared.deep_view() == crate::rules::early_pass(entries, v2.timers, character@, action@, k as int),
            decreases self.compiled.len() - k,
        {
            self.early_for_entry_exec(k, &mut cleared, character.as_str(), action);
            k += 1;
        }
        if cleared.len() > 0 {
            let ghost keep = crate::rules::id_not_in(cleared.deep_view());
            let ghost tv = timer_views_of(self.timers@);
            let mut flags: Vec<bool> = Vec::new();
            let mut j: usize = 0;
            while j < self.timers.len()
                invariant
                    j <= self.timers.len(),
                    self@ == v2,
                    keep == crate::rules::id_not_in(cleared.deep_view()),
                    flags@.len() == j,
                    forall|i: int| 0 <= i < j ==> #[trigger] flags@[i] == keep(self.timers@[i]@),
                decreases self.timers.len() - j,
            {
                flags.push(!contains_id(cleared.as_slice(), &self.timers[j].id));
                j += 1;
            }
            proof {
                lemma_keep_timers_distinct(tv, keep);
            }
            retain_by_flags(&mut self.timers, &flags, Ghost(keep));
            actions.push(quiet(cleared, None));
        }
        let ghost v3 = self@;
        let ghost before_main = action_views(actions@);
        assert(before_main =~= crate::rules::opt_seq(match synced {
            Some(a) => Some(a@),
            None => None,
        }) + if cleared.len() > 0 {
            seq![crate::rules::quiet_action(cleared.deep_view(), None)]
        } else {
            Seq::empty()
        });
        assert(crate::rules::main_pass(v3, entries, character@, action@, now, 0) == (v3, Seq::<crate::model::ActionView>::empty()));
        let mut m: usize = 0;
        while m < self.compiled.len()
            invariant
                m <= self.compiled.len(),
                self.wf_core(),
                entries == self.entries(),
                self.compiled@.len() == entries.len(),
                self@.next_id as int + 2 * (entries.len() - m) <= u64::MAX,
                ({
                    let (vm, fired) = crate::rules::main_pass(v3, entries, character@, action@, now, m as int);
                    self@ == vm && action_views(actions@) == before_main + fired
                }),
            decreases self.compiled.len() - m,
        {
            let ghost before = action_views(actions@);
            let r = self.step(m, &character, action, now);
            match r {
                Some(x) => {
                    actions.push(x);
                    assert(action_views(actions@) =~= before.push(actions@.last()@));
                },
                None => {},
            }
            m += 1;
        }
        proof {
            law_process_clears(v, entries, action@, now);
        }
        actions
    }

    /// Process one log action line (already stripped of timestamp) against the wall clock.
    pub fn process_action(&mut self, action: &str) -> (r: Vec<MatchAction>)
        requires
            old(self).wf(),
            old(self).has_id_room(),
        ensures
            final(self).wf(),
            exists|now: u64|
                (final(self)@, action_views(r@)) == #[trigger] crate::rules::process_spec(
                    old(self)@,
                    old(self).entries(),
                    action@,
                    now,
                ),
    {
        let now = now_ms();
        self.process_action_at(action, now)
    }
}

/// The text of an optional preview sample, `""` when there is none.
pub open spec fn sample_text(s: Option<&str>) -> Seq<char> {
    match s {
        Some(x) => x@,
        None => Seq::empty(),
    }
}

impl TriggerEngine {
    /// Synthetic fire for overlay preview from the trigger editor, at time `now`.
    /// Skips match/debounce/enabled checks; uses `sample_action` for `{S}` and captures.
    pub fn test_fire_at(&mut self, trigger: &Trigger, sample_action: Option<&str>, now: u64) -> (r:
        MatchAction)
        requires
            old(self).wf(),
            old(self)@.next_id as int + 2 <= u64::MAX,
        ensures
            final(self).wf(),
            (final(self)@, r@) == crate::rules::preview_spec(
                old(self)@,
                trigger@,
                sample_text(sample_action),
                now,
            ),
    {
        let ghost v = self@;
        self.prune_at(now);
        let ghost v0 = self@;
        let character = match &self.character {
            Some(c) => c.clone(),
            None => String::from_str("Character"),
        };
        proof {
            reveal_strlit("Character");
        }
        let raw = match sample_action {
            Some(x) => chars_of(x),
            None => Vec::new(),
        };
        assert(raw@ == sample_text(sample_action));
        let av = crate::text::trim_chars(raw.as_slice());
        let action = crate::text::string_of(av.as_slice());
        let search = chars_of(trigger.search.as_str());
        let caps: Option<Vec<String>> = if av.len() == 0 {
            None
        } else if trigger.use_regex && search.len() > 0 {
            let bound = bind_character_token(trigger.search.as_str(), character.as_str(), true);
            match compile(bound.as_str()) {
                Some(p) => captures(&p, action.as_str()),
                None => None,
            }
        } else {
            Some(Vec::new())
        };
        let ghost cv = crate::rules::sample_caps(trigger@, character@, action@);
        assert(caps.deep_view() == cv);
        let display_t = display_template_exec(trigger);
        let display = expand_tokens(display_t.as_str(), character.as_str(), action.as_str(), caps.as_ref());
        let speak = if trigger.tts_enabled {
            let st = speak_template_exec(trigger);
            Some(expand_tokens(st.as_str(), character.as_str(), action.as_str(), caps.as_ref()))
        } else {
            None
        };
        let sound = chime_exec(trigger);
        let secs = match trigger.timer_seconds {
            Some(x) => x,
            None => 0,
        };
        let started = if secs > 0 {
            let tmpl = match &trigger.timer_name {
                Some(n) => if !blank_string(n) {
                    n.clone()
                } else {
                    trigger.name.clone()
                },
                None => trigger.name.clone(),
            };
            let name = expand_tokens(tmpl.as_str(), character.as_str(), action.as_str(), caps.as_ref());
            let kept_caps = match &caps {
                Some(c) => copy_strings(c),
                None => Vec::new(),
            };
            assert(kept_caps.deep_view() =~= match cv {
                Some(c) => c,
                None => Seq::<Seq<char>>::empty(),
            });
            let timer = ActiveTimer {
                id: numbered_id('t', self.next_alert_id),
                trigger_id: trigger.id.clone(),
                name,
                started_ms: now,
                ends_ms: now.saturating_add(crate::timers::saturating_mul_u64(secs, 1000)),
                duration_secs: secs,
                captures: kept_caps,
            };
            self.restart_timer(timer.duplicate());
            self.next_alert_id = self.next_alert_id + 1;
            Some(timer)
        } else {
            None
        };
        let show = if started.is_some() {
            match &trigger.display_text {
                Some(dt) => !blank_string(dt),
                None => false,
            }
        } else {
            !blank_string(&display)
        };
        let speak_useful = match &speak {
            Some(x) => !blank_string(x),
            None => false,
        };
        let sound_useful = match &sound {
            Some(x) => !is_none_word(x),
            None => false,
        };
        let alert = if show {
            let a = FiredAlert {
                id: numbered_id('a', self.next_alert_id),
                trigger_id: trigger.id.clone(),
                trigger_name: trigger.name.clone(),
                kind: if started.is_some() {
                    String::from_str("timer")
                } else {
                    String::from_str("text")
                },
                text: display,
                at_ms: now,
            };
            let ghost before = alert_views(self.recent_alerts@);
            self.next_alert_id = self.next_alert_id + 1;
            self.recent_alerts.insert(0, a.duplicate());
            assert(alert_views(self.recent_alerts@) =~= seq![a@] + before);
            if self.recent_alerts.len() > MAX_RECENT_ALERTS {
                self.recent_alerts.truncate(MAX_RECENT_ALERTS);
                assert(alert_views(self.recent_alerts@) =~= (seq![a@] + before).take(
                    MAX_RECENT_ALERTS as int,
                ));
            }
            Some(a)
        } else {
            None
        };
        let r = MatchAction {
            alert,
            sound: if sound_useful {
                sound
            } else {
                None
            },
            speak: if speak_useful {
                speak
            } else {
                None
            },
            started_timer: started,
            cleared_timer_ids: Vec::new(),
        };
        assert(r@.cleared_timer_ids =~= Seq::<Seq<char>>::empty());
        proof {
            lemma_preview_fresh(v, trigger@, sample_text(sample_action), now);
        }
        r
    }

    /// Synthetic fire for overlay preview from the trigger editor, at the wall clock.
    pub fn test_fire(&mut self, trigger: &Trigger, sample_action: Option<&str>) -> (r: MatchAction)
        requires
            old(self).wf(),
            old(self)@.next_id as int + 2 <= u64::MAX,
        ensures
            final(self).wf(),
            exists|now: u64|
                (final(self)@, r@) == #[trigger] crate::rules::preview_spec(
                    old(self)@,
                    trigger@,
                    sample_text(sample_action),
                    now,
                ),
    {
        let now = now_ms();
        self.test_fire_at(trigger, sample_action, now)
    }
}

#[verifier::external_type_specification]
#[verifier::external_body]
pub struct ExSystemTime(std::time::SystemTime);

/// `SystemTime::now()`: the wall clock, of which nothing is known here.
#[verifier::external_body]
fn system_now() -> std::time::SystemTime {
    std::time::SystemTime::now()
}

/// `SystemTime::duration_since(UNIX_EPOCH)`: the time since the epoch, `None` for a
/// clock set before it.  Nothing is stated of the duration.
#[verifier::external_body]
fn since_epoch(t: &std::time::SystemTime) -> Option<std::time::Duration> {
    t.duration_since(std::time::UNIX_EPOCH).ok()
}

/// `Duration::as_millis`: whole milliseconds, of which nothing is stated here.
#[verifier::external_body]
fn whole_millis(d: &std::time::Duration) -> u128 {
    d.as_millis()
}

/// Milliseconds since the Unix epoch (cut to 64 bits), or 0 for a clock set before it.
fn now_ms() -> u64 {
    match since_epoch(&system_now()) {
        Some(d) => {
            let ms = whole_millis(&d);
            #[verifier::truncate]
            (ms as u64)
        },
        None => 0,
    }
}

/// Everything `keep_timers` keeps satisfies `keep`.
proof fn lemma_keep_timers_all(ts: Seq<TimerView>, keep: spec_fn(TimerView) -> bool)
    ensures
        forall|i: int|
            0 <= i < keep_timers(ts, keep).len() ==> keep(#[trigger] keep_timers(ts, keep)[i]),
    decreases ts.len(),
{
    if ts.len() > 0 {
        lemma_keep_timers_all(ts.drop_last(), keep);
        let prev = keep_timers(ts.drop_last(), keep);
        if keep(ts.last()) {
            assert(keep_timers(ts, keep) == prev.push(ts.last()));
            assert forall|i: int| 0 <= i < prev.push(ts.last()).len() implies keep(
                #[trigger] prev.push(ts.last())[i],
            ) by {
                if i < prev.len() {
                    assert(prev.push(ts.last())[i] == prev[i]);
                }
            }
        } else {
            assert(keep_timers(ts, keep) == prev);
        }
    } else {
        assert(keep_timers(ts, keep) == ts);
    }
}

/// Adding a timer whose name no other timer has keeps names distinct.
proof fn lemma_push_distinct(ts: Seq<TimerView>, t: TimerView)
    requires
        distinct_names(ts),
        forall|i: int| 0 <= i < ts.len() ==> (#[trigger] ts[i]).name != t.name,
    ensures
        distinct_names(ts.push(t)),
{
    assert forall|i: int, j: int| 0 <= i < j < ts.push(t).len() implies ts.push(t)[i].name
        != ts.push(t)[j].name by {
        if j == ts.len() {
            assert(ts.push(t)[i] == ts[i]);
        } else {
            assert(ts.push(t)[i] == ts[i] && ts.push(t)[j] == ts[j]);
        }
    }
}

/// What a well-formed engine always keeps: one timer per name, at most 40 recent alerts,
/// every timer numbered below the next id.
pub proof fn law_engine_invariants(e: &TriggerEngine)
    requires
        e.wf(),
    ensures
        distinct_names(e@.timers),
        e@.recent_alerts.len() <= MAX_RECENT_ALERTS,
        ids_fresh(e@),
{
}

/// A timer that `keep` accepts stays when `keep_timers` filters its sequence.
proof fn lemma_keep_timers_keeps(ts: Seq<TimerView>, keep: spec_fn(TimerView) -> bool, x: TimerView)
    requires
        ts.contains(x),
        keep(x),
    ensures
        keep_timers(ts, keep).contains(x),
    decreases ts.len(),
{
    let init = ts.drop_last();
    let prev = keep_timers(init, keep);
    if ts.last() == x {
        assert(keep_timers(ts, keep) == prev.push(x));
        assert(prev.push(x)[prev.len() as int] == x);
    } else {
        let i = choose|i: int| 0 <= i < ts.len() && ts[i] == x;
        assert(i < init.len() && init[i] == x);
        lemma_keep_timers_keeps(init, keep, x);
        let j = choose|j: int| 0 <= j < prev.len() && prev[j] == x;
        if keep(ts.last()) {
            assert(keep_timers(ts, keep) == prev.push(ts.last()));
            assert(prev.push(ts.last())[j] == x);
        } else {
            assert(keep_timers(ts, keep) == prev);
        }
    }
}

/// The character a preview speaks for: the engine's, else `Character`.
pub open spec fn preview_character(v: EngineView) -> Seq<char> {
    match v.character {
        Some(c) => c,
        None => "Character"@,
    }
}

/// Previewing a timer trigger starts one timer under the preview's name (its timer name,
/// or its name where that is blank, with the sample's tokens filled in), for the
/// trigger's duration from `now`, as the last timer and the only one of that name; every
/// other unfinished timer stays.  Whether the trigger is enabled makes no difference.
pub proof fn law_preview_timer(v: EngineView, t: TriggerView, sample: Seq<char>, now: u64)
    requires
        t.timer_seconds matches Some(secs) && secs > 0,
    ensures
        crate::rules::preview_spec(v, TriggerView { enabled: !t.enabled, ..t }, sample, now)
            == crate::rules::preview_spec(v, t, sample, now),
        ({
            let (v2, a) = crate::rules::preview_spec(v, t, sample, now);
            &&& a.started_timer matches Some(tm)
            &&& tm.name == crate::tokens::expand(
                crate::rules::preview_timer_name(t),
                preview_character(v),
                trim(sample),
                crate::rules::sample_caps(t, preview_character(v), trim(sample)),
            )
            &&& tm.duration_secs == t.timer_seconds->0
            &&& tm.started_ms == now
            &&& tm.ends_ms == sat_add(now, sat_mul(t.timer_seconds->0, 1000))
            &&& v2.timers.len() > 0
            &&& v2.timers.last() == tm
            &&& forall|i: int| 0 <= i < v2.timers.len() - 1 ==> (#[trigger] v2.timers[i]).name != tm.name
            &&& forall|x: TimerView|
                #[trigger] v.timers.contains(x) && x.ends_ms > now && x.name != tm.name
                    ==> v2.timers.contains(x)
        }),
{
    let (v2, a) = crate::rules::preview_spec(v, t, sample, now);
    let tm = a.started_timer->0;
    let live = keep_timers(v.timers, ends_after(now));
    let others = keep_timers(live, crate::rules::name_differs(tm.name));
    assert(v2.timers == others.push(tm));
    lemma_keep_timers_all(live, crate::rules::name_differs(tm.name));
    assert forall|i: int| 0 <= i < v2.timers.len() - 1 implies (#[trigger] v2.timers[i]).name != tm.name by {
        assert(v2.timers[i] == others[i]);
        assert(crate::rules::name_differs(tm.name)(others[i]));
    }
    assert forall|x: TimerView|
        #[trigger] v.timers.contains(x) && x.ends_ms > now && x.name != tm.name implies v2.timers.contains(x) by {
        lemma_keep_timers_keeps(v.timers, ends_after(now), x);
        lemma_keep_timers_keeps(live, crate::rules::name_differs(tm.name), x);
        let j = choose|j: int| 0 <= j < others.len() && others[j] == x;
        assert(others.push(tm)[j] == x);
    }
}


/// Every timer in `ts` ends after `now`.
pub open spec fn all_end_after(ts: Seq<TimerView>, now: u64) -> bool {
    forall|i: int| 0 <= i < ts.len() ==> (#[trigger] ts[i]).ends_ms > now
}

/// The action came from this entry: an enabled trigger in an enabled group, whose id its
/// toast and its timer carry; it clears nothing, and speaks only where the trigger has
/// voice turned on.
pub open spec fn fired_by(a: ActionView, e: EntryView) -> bool {
    &&& e.group_enabled
    &&& e.trigger.enabled
    &&& a.cleared_timer_ids.len() == 0
    &&& (a.alert matches Some(al) ==> al.trigger_id == e.trigger.id)
    &&& (a.started_timer matches Some(tm) ==> tm.trigger_id == e.trigger.id)
    &&& (!e.trigger.tts_enabled ==> a.speak is None)
}

/// Everything `keep_timers` keeps comes from the sequence it filters.
proof fn lemma_keep_timers_from(ts: Seq<TimerView>, keep: spec_fn(TimerView) -> bool)
    ensures
        forall|i: int|
            0 <= i < keep_timers(ts, keep).len() ==> ts.contains(#[trigger] keep_timers(ts, keep)[i]),
    decreases ts.len(),
{
    if ts.len() > 0 {
        let init = ts.drop_last();
        lemma_keep_timers_from(init, keep);
        let prev = keep_timers(init, keep);
        assert forall|i: int| 0 <= i < prev.len() implies ts.contains(#[trigger] prev[i]) by {
            let k = choose|k: int| 0 <= k < init.len() && init[k] == prev[i];
            assert(ts[k] == prev[i]);
        }
        if keep(ts.last()) {
            assert(keep_timers(ts, keep) == prev.push(ts.last()));
            assert forall|i: int| 0 <= i < prev.push(ts.last()).len() implies ts.contains(
                #[trigger] prev.push(ts.last())[i],
            ) by {
                if i < prev.len() {
                    assert(prev.push(ts.last())[i] == prev[i]);
                } else {
                    assert(ts[ts.len() - 1] == ts.last());
                }
            }
        } else {
            assert(keep_timers(ts, keep) == prev);
        }
    } else {
        assert(keep_timers(ts, keep) == ts);
    }
}

/// Filtering keeps "every timer ends after `now`".
proof fn lemma_keep_end_after(ts: Seq<TimerView>, keep: spec_fn(TimerView) -> bool, now: u64)
    requires
        all_end_after(ts, now),
    ensures
        all_end_after(keep_timers(ts, keep), now),
        forall|i: int|
            0 <= i < keep_timers(ts, keep).len() ==> ts.contains(#[trigger] keep_timers(ts, keep)[i])
                && keep(keep_timers(ts, keep)[i]),
{
    lemma_keep_timers_from(ts, keep);
    lemma_keep_timers_all(ts, keep);
    let kept = keep_timers(ts, keep);
    assert forall|i: int| 0 <= i < kept.len() implies (#[trigger] kept[i]).ends_ms > now by {
        assert(ts.contains(kept[i]));
        let k = choose|k: int| 0 <= k < ts.len() && ts[k] == kept[i];
        assert(ts[k].ends_ms > now);
    }
}

/// A timer started at `now` for a positive number of seconds ends after `now`.
proof fn lemma_positive_end(now: u64, secs: u64)
    requires
        now < u64::MAX,
        secs > 0,
    ensures
        sat_add(now, sat_mul(secs, 1000)) > now,
{
    assert(secs * 1000 >= 1000) by (nonlinear_arith)
        requires
            secs > 0,
    ;
}


/// One trigger's step keeps every timer ending after `now`; a timer it leaves is one that
/// was there or the one its action starts; an action it gives comes from that entry.
proof fn lemma_step_timers(
    v: EngineView,
    e: EntryView,
    character: Seq<char>,
    action: Seq<char>,
    now: u64,
)
    ensures
        ({
            let (v2, a) = crate::rules::step_spec(v, e, character, action, now);
            &&& (all_end_after(v.timers, now) && now < u64::MAX ==> all_end_after(v2.timers, now))
            &&& (v.next_id + 2 <= u64::MAX ==> v.next_id <= v2.next_id <= v.next_id + 2)
            &&& (v.next_id + 2 <= u64::MAX ==> (a matches Some(x) ==> (x.started_timer matches Some(tm)
                ==> tm.id == crate::rules::timer_id(v.next_id) && v.next_id < v2.next_id)))
            &&& forall|i: int|
                0 <= i < v2.timers.len() ==> v.timers.contains(#[trigger] v2.timers[i]) || (a matches Some(
                    x,
                ) && x.started_timer == Some(v2.timers[i]))
            &&& (a matches Some(x) ==> fired_by(x, e))
        }),
{
    let t = e.trigger;
    let (v2, a) = crate::rules::step_spec(v, e, character, action, now);
    if e.group_enabled && t.enabled && t.search.len() > 0 {
        match crate::rules::match_caps(t, character, action) {
            None => {},
            Some(caps) => {
                if !crate::rules::cast_gated(e, v.pending_casts, now) && crate::rules::is_timer_trigger(
                    t,
                ) {
                    let remap = crate::rules::dazzle_remap(v, t, now);
                    let secs = if remap {
                        96u64
                    } else {
                        t.timer_seconds->0
                    };
                    let tmpl = if remap {
                        "Dazzle - ${1}"@
                    } else {
                        crate::rules::timer_name_of(t)
                    };
                    let name = crate::tokens::expand(tmpl, character, action, Some(caps));
                    let kept = keep_timers(v.timers, crate::rules::name_differs(name));
                    lemma_keep_timers_from(v.timers, crate::rules::name_differs(name));
                    if all_end_after(v.timers, now) && now < u64::MAX {
                        lemma_keep_end_after(v.timers, crate::rules::name_differs(name), now);
                        lemma_positive_end(now, secs);
                    }
                    let tm = a->0.started_timer->0;
                    assert(v2.timers == kept.push(tm));
                    assert(tm.id == crate::rules::timer_id(v.next_id));
                    assert(v.next_id + 2 <= u64::MAX ==> v.next_id < v2.next_id <= v.next_id + 2);
                    assert forall|i: int| 0 <= i < v2.timers.len() implies v.timers.contains(
                        #[trigger] v2.timers[i],
                    ) || (a matches Some(x) && x.started_timer == Some(v2.timers[i])) by {
                        if i < kept.len() {
                            assert(v2.timers[i] == kept[i]);
                        }
                    }
                } else if !crate::rules::cast_gated(e, v.pending_casts, now) {
                    assert(v2.timers == v.timers);
                    assert(a matches Some(x) ==> x.started_timer is None);
                    assert(v.next_id + 2 <= u64::MAX ==> v.next_id <= v2.next_id <= v.next_id + 1);
                }
            },
        }
    }
}


/// `id` is the timer id of a number in `lo..hi`.
pub open spec fn id_in(id: Seq<char>, lo: int, hi: int) -> bool {
    exists|m: u64| lo <= m < hi && id == crate::rules::timer_id(m)
}

/// The main pass keeps every timer ending after `now`; each timer it leaves was there or
/// is started by one of its actions, and each action comes from an enabled entry.
proof fn lemma_main_pass_timers(
    v: EngineView,
    entries: Seq<EntryView>,
    character: Seq<char>,
    action: Seq<char>,
    now: u64,
    n: int,
)
    requires
        0 <= n <= entries.len(),
    ensures
        ({
            let (v2, acts) = crate::rules::main_pass(v, entries, character, action, now, n);
            &&& (all_end_after(v.timers, now) && now < u64::MAX ==> all_end_after(v2.timers, now))
            &&& (v.next_id + 2 * n <= u64::MAX ==> v.next_id <= v2.next_id <= v.next_id + 2 * n)
            &&& (v.next_id + 2 * n <= u64::MAX ==> forall|j: int|
                0 <= j < acts.len() ==> ((#[trigger] acts[j]).started_timer matches Some(tm) ==> id_in(
                    tm.id,
                    v.next_id as int,
                    v2.next_id as int,
                )))
            &&& forall|i: int|
                0 <= i < v2.timers.len() ==> v.timers.contains(#[trigger] v2.timers[i]) || exists|j: int|
                    0 <= j < acts.len() && (#[trigger] acts[j]).started_timer == Some(v2.timers[i])
            &&& forall|j: int|
                0 <= j < acts.len() ==> exists|k: int|
                    0 <= k < n && fired_by(#[trigger] acts[j], entries[k])
        }),
    decreases n,
{
    if n > 0 {
        lemma_main_pass_timers(v, entries, character, action, now, n - 1);
        let (v1, acts1) = crate::rules::main_pass(v, entries, character, action, now, n - 1);
        lemma_step_timers(v1, entries[n - 1], character, action, now);
        let (v2, a) = crate::rules::step_spec(v1, entries[n - 1], character, action, now);
        let (v3, acts) = crate::rules::main_pass(v, entries, character, action, now, n);
        assert(v3 == v2);
        if v.next_id + 2 * n <= u64::MAX {
            assert forall|j: int| 0 <= j < acts.len() implies ((#[trigger] acts[j]).started_timer matches Some(
                tm,
            ) ==> id_in(tm.id, v.next_id as int, v3.next_id as int)) by {
                if j < acts1.len() {
                    assert(acts[j] == acts1[j]);
                    if acts1[j].started_timer is Some {
                        let tm = acts1[j].started_timer->0;
                        let m = choose|m: u64| v.next_id <= m < v1.next_id && tm.id == crate::rules::timer_id(m);
                    }
                } else {
                    assert(acts[j] == a->0);
                    if a->0.started_timer is Some {
                        assert(a->0.started_timer->0.id == crate::rules::timer_id(v1.next_id));
                    }
                }
            }
        }
        assert forall|j: int| 0 <= j < acts.len() implies exists|k: int|
            0 <= k < n && fired_by(#[trigger] acts[j], entries[k]) by {
            if j < acts1.len() {
                assert(acts[j] == acts1[j]);
                let k = choose|k: int| 0 <= k < n - 1 && fired_by(#[trigger] acts1[j], entries[k]);
                assert(fired_by(acts[j], entries[k]));
            } else {
                assert(acts[j] == a->0);
                assert(fired_by(acts[j], entries[n - 1]));
            }
        }
        assert forall|i: int| 0 <= i < v3.timers.len() implies v.timers.contains(
            #[trigger] v3.timers[i],
        ) || exists|j: int| 0 <= j < acts.len() && (#[trigger] acts[j]).started_timer == Some(
            v3.timers[i],
        ) by {
            let x = v3.timers[i];
            if v1.timers.contains(x) {
                let m = choose|m: int| 0 <= m < v1.timers.len() && v1.timers[m] == x;
                if !v.timers.contains(x) {
                    let j = choose|j: int|
                        0 <= j < acts1.len() && (#[trigger] acts1[j]).started_timer == Some(
                            v1.timers[m],
                        );
                    assert(acts[j] == acts1[j]);
                }
            } else {
                assert(a matches Some(y) && y.started_timer == Some(x));
                assert(acts[acts1.len() as int] == a->0);
            }
        }
    }
}


/// Every id in `ids` is the id of a timer in `ts`.
pub open spec fn ids_from(ids: Seq<Seq<char>>, ts: Seq<TimerView>) -> bool {
    forall|j: int|
        #![trigger ids[j]]
        0 <= j < ids.len() ==> exists|i: int| #![trigger ts[i]] 0 <= i < ts.len() && ts[i].id == ids[j]
}

/// The ability's timer ids come from the timers.
proof fn lemma_ability_ids_from(ts: Seq<TimerView>, ability: Seq<char>, n: int)
    requires
        n <= ts.len(),
    ensures
        ids_from(crate::rules::ability_ids_upto(ts, ability, n), ts),
    decreases n,
{
    if n > 0 {
        lemma_ability_ids_from(ts, ability, n - 1);
        let prev = crate::rules::ability_ids_upto(ts, ability, n - 1);
        if crate::rules::names_ability(ts[n - 1], ability) {
            let out = prev.push(ts[n - 1].id);
            assert forall|j: int| #![trigger out[j]] 0 <= j < out.len() implies exists|i: int|
                #![trigger ts[i]]
                0 <= i < ts.len() && ts[i].id == out[j] by {
                if j < prev.len() {
                    assert(out[j] == prev[j]);
                } else {
                    assert(ts[n - 1].id == out[j]);
                }
            }
        }
    }
}

/// Adding the id of one of the timers keeps `ids_from`.
proof fn lemma_ids_push(list: Seq<Seq<char>>, ts: Seq<TimerView>, k: int)
    requires
        ids_from(list, ts),
        0 <= k < ts.len(),
    ensures
        ids_from(list.push(ts[k].id), ts),
        ids_from(crate::rules::add_unique(list, ts[k].id), ts),
{
    let out = list.push(ts[k].id);
    assert forall|j: int| #![trigger out[j]] 0 <= j < out.len() implies exists|i: int|
        #![trigger ts[i]]
        0 <= i < ts.len() && ts[i].id == out[j] by {
        if j < list.len() {
            assert(out[j] == list[j]);
        } else {
            assert(ts[k].id == out[j]);
        }
    }
}

/// Adding ids that come from the timers keeps `ids_from`.
proof fn lemma_ids_add_all(list: Seq<Seq<char>>, ids: Seq<Seq<char>>, ts: Seq<TimerView>)
    requires
        ids_from(list, ts),
        ids_from(ids, ts),
    ensures
        ids_from(crate::rules::add_all_unique(list, ids), ts),
    decreases ids.len(),
{
    if ids.len() > 0 {
        let init = ids.drop_last();
        assert forall|j: int| #![trigger init[j]] 0 <= j < init.len() implies exists|i: int|
            #![trigger ts[i]]
            0 <= i < ts.len() && ts[i].id == init[j] by {
            assert(init[j] == ids[j]);
        }
        lemma_ids_add_all(list, init, ts);
        let last = ids[ids.len() - 1];
        let k = choose|i: int| 0 <= i < ts.len() && ts[i].id == last;
        lemma_ids_push(crate::rules::add_all_unique(list, init), ts, k);
    }
}

/// The timers an early-end's template names come from the timers.
proof fn lemma_ids_to_clear_from(ts: Seq<TimerView>, template: Seq<char>, caps: Option<Seq<Seq<char>>>)
    ensures
        ids_from(crate::timers::ids_to_clear(ts, template, caps), ts),
{
    let expanded = crate::tokens::expand(template, Seq::empty(), Seq::empty(), caps);
    if crate::tokens::unexpanded(expanded) {
        lemma_soonest_range(ts, crate::tokens::clear_prefix(template), ts.len() as int);
        match crate::timers::soonest_upto(ts, crate::tokens::clear_prefix(template), ts.len() as int) {
            Some(k) => {
                lemma_ids_push(Seq::empty(), ts, k);
                assert(seq![ts[k].id] =~= Seq::<Seq<char>>::empty().push(ts[k].id));
            },
            None => {},
        }
    } else {
        lemma_ids_named_from(ts, expanded, ts.len() as int);
    }
}

proof fn lemma_soonest_range(ts: Seq<TimerView>, prefix: Seq<char>, n: int)
    requires
        n <= ts.len(),
    ensures
        crate::timers::soonest_upto(ts, prefix, n) matches Some(k) ==> 0 <= k < n,
    decreases n,
{
    if n > 0 {
        lemma_soonest_range(ts, prefix, n - 1);
    }
}

proof fn lemma_ids_named_from(ts: Seq<TimerView>, name: Seq<char>, n: int)
    requires
        n <= ts.len(),
    ensures
        ids_from(crate::timers::ids_named_upto(ts, name, n), ts),
    decreases n,
{
    if n > 0 {
        lemma_ids_named_from(ts, name, n - 1);
        if ts[n - 1].name == name {
            lemma_ids_push(crate::timers::ids_named_upto(ts, name, n - 1), ts, n - 1);
        }
    }
}

proof fn lemma_capture_clears_for_from(
    list: Seq<Seq<char>>,
    t: TriggerView,
    e: Seq<char>,
    ts: Seq<TimerView>,
    character: Seq<char>,
    action: Seq<char>,
    m: int,
)
    requires
        ids_from(list, ts),
        m <= ts.len(),
    ensures
        ids_from(crate::rules::capture_clears_for(list, t, e, ts, character, action, m), ts),
    decreases m,
{
    if m > 0 {
        lemma_capture_clears_for_from(list, t, e, ts, character, action, m - 1);
        lemma_ids_push(crate::rules::capture_clears_for(list, t, e, ts, character, action, m - 1), ts, m - 1);
    }
}

proof fn lemma_capture_clears_from(
    list: Seq<Seq<char>>,
    t: TriggerView,
    ts: Seq<TimerView>,
    character: Seq<char>,
    action: Seq<char>,
    n: int,
)
    requires
        ids_from(list, ts),
    ensures
        ids_from(crate::rules::capture_clears(list, t, ts, character, action, n), ts),
    decreases n,
{
    if n > 0 {
        lemma_capture_clears_from(list, t, ts, character, action, n - 1);
        let l = crate::rules::capture_clears(list, t, ts, character, action, n - 1);
        lemma_capture_clears_for_from(l, t, t.early_end[n - 1], ts, character, action, ts.len() as int);
    }
}

/// The early-end pass clears only ids of the timers it looked at.
proof fn lemma_early_pass_from(
    entries: Seq<EntryView>,
    ts: Seq<TimerView>,
    character: Seq<char>,
    action: Seq<char>,
    n: int,
)
    ensures
        ids_from(crate::rules::early_pass(entries, ts, character, action, n), ts),
    decreases n,
{
    if n > 0 {
        lemma_early_pass_from(entries, ts, character, action, n - 1);
        let l = crate::rules::early_pass(entries, ts, character, action, n - 1);
        let t = entries[n - 1].trigger;
        let l1 = if crate::rules::plain_early_match(t, action) {
            crate::rules::add_all_unique(l, crate::timers::ids_to_clear(ts, crate::rules::timer_name_of(t), None))
        } else {
            l
        };
        lemma_ids_to_clear_from(ts, crate::rules::timer_name_of(t), None);
        lemma_ids_add_all(l, crate::timers::ids_to_clear(ts, crate::rules::timer_name_of(t), None), ts);
        lemma_capture_clears_from(l1, t, ts, character, action, t.early_end.len() as int);
    } else {
        assert(ids_from(Seq::empty(), ts));
    }
}

/// The ability sync keeps every timer ending after `now`; a timer it leaves was there and
/// not cleared by it, or is the one it starts; its action shows nothing and any timer it
/// starts is an ability cooldown.
proof fn lemma_sync_timers(v: EngineView, action: Seq<char>, now: u64)
    ensures
        ({
            let (v1, s) = crate::rules::sync_spec(v, action, now);
            &&& (all_end_after(v.timers, now) && now < u64::MAX ==> all_end_after(v1.timers, now))
            &&& (v.next_id + 1 <= u64::MAX ==> v.next_id <= v1.next_id <= v.next_id + 1)
            &&& (s matches Some(a) ==> ids_from(a.cleared_timer_ids, v.timers))
            &&& (v.next_id + 1 <= u64::MAX ==> (s matches Some(a) ==> (a.started_timer matches Some(tm)
                ==> tm.id == crate::rules::timer_id(v.next_id) && v1.next_id == v.next_id + 1
                && a.cleared_timer_ids.len() == 0)))
            &&& (s matches Some(a) ==> a.alert is None && (a.started_timer matches Some(tm)
                ==> tm.trigger_id == "eql-ability-cooldown"@))
            &&& forall|i: int|
                0 <= i < v1.timers.len() ==> (v.timers.contains(#[trigger] v1.timers[i]) && (s matches Some(
                    a,
                ) ==> !a.cleared_timer_ids.contains(v1.timers[i].id))) || (s matches Some(a)
                    && a.started_timer == Some(v1.timers[i]))
        }),
{
    let (v1, s) = crate::rules::sync_spec(v, action, now);
    if crate::pattern::regex_valid(crate::rules::ability_pattern()) {
        match crate::pattern::regex_captures(crate::rules::ability_pattern(), action) {
            None => {},
            Some(caps) => {
                if caps.len() >= 3 && crate::text::trim(caps[0]).len() != 0 {
                    let ability = crate::text::trim(caps[0]);
                    match (crate::timers::parse_u64(caps[1]), crate::timers::parse_u64(caps[2])) {
                        (Some(mins), Some(secs)) => {
                            let remaining = sat_add(sat_mul(mins, 60), secs);
                            let n = v.timers.len() as int;
                            if remaining == 0 {
                                let cleared = crate::rules::ability_ids_upto(v.timers, ability, n);
                                lemma_ability_ids_from(v.timers, ability, n);
                                lemma_keep_timers_from(v.timers, crate::rules::id_not_in(cleared));
                                lemma_keep_timers_all(v.timers, crate::rules::id_not_in(cleared));
                                if all_end_after(v.timers, now) && now < u64::MAX {
                                    lemma_keep_end_after(v.timers, crate::rules::id_not_in(cleared), now);
                                }
                            } else {
                                let kept = keep_timers(v.timers, crate::rules::not_ability(ability));
                                lemma_keep_timers_from(v.timers, crate::rules::not_ability(ability));
                                if all_end_after(v.timers, now) && now < u64::MAX {
                                    lemma_keep_end_after(v.timers, crate::rules::not_ability(ability), now);
                                    lemma_positive_end(now, remaining);
                                }
                                if s is Some {
                                    let tm = s->0.started_timer->0;
                                    assert(v1.timers == kept.push(tm));
                                    assert forall|i: int| 0 <= i < v1.timers.len() implies (v.timers.contains(
                                        #[trigger] v1.timers[i],
                                    ) && !s->0.cleared_timer_ids.contains(v1.timers[i].id)) || s->0.started_timer
                                        == Some(v1.timers[i]) by {
                                        if i < kept.len() {
                                            assert(v1.timers[i] == kept[i]);
                                        }
                                    }
                                }
                            }
                        },
                        _ => {},
                    }
                }
            },
        }
    }
}


/// Processing an action line at `now` leaves only timers that end after `now` (short of
/// the clock's last millisecond, where an end time saturates at `now`).  Each remaining
/// timer was running before and no returned action clears its id, or one of the returned
/// actions starts it.  Every returned action either
/// shows no toast and starts at most an ability cooldown, or comes from an enabled
/// trigger in an enabled group, whose id its toast and its timer carry.
pub proof fn law_process_action(
    v: EngineView,
    entries: Seq<EntryView>,
    action: Seq<char>,
    now: u64,
)
    ensures
        ({
            let (v4, acts) = crate::rules::process_spec(v, entries, action, now);
            &&& (now < u64::MAX ==> all_end_after(v4.timers, now))
            &&& forall|i: int|
                0 <= i < v4.timers.len() ==> (v.timers.contains(#[trigger] v4.timers[i]) && forall|j: int|
                    0 <= j < acts.len() ==> !(#[trigger] acts[j]).cleared_timer_ids.contains(
                        v4.timers[i].id,
                    )) || exists|j: int|
                    0 <= j < acts.len() && (#[trigger] acts[j]).started_timer == Some(v4.timers[i])
            &&& forall|j: int|
                0 <= j < acts.len() ==> ((#[trigger] acts[j]).alert is None && (
                acts[j].started_timer matches Some(tm) ==> tm.trigger_id == "eql-ability-cooldown"@))
                    || exists|k: int| 0 <= k < entries.len() && fired_by(acts[j], entries[k])
        }),
{
    let (v4, acts) = crate::rules::process_spec(v, entries, action, now);
    let v0 = EngineView { timers: keep_timers(v.timers, ends_after(now)), ..v };
    lemma_keep_timers_all(v.timers, ends_after(now));
    lemma_keep_timers_from(v.timers, ends_after(now));
    assert(all_end_after(v0.timers, now));
    let character = match v.character {
        Some(c) => c,
        None => Seq::empty(),
    };
    lemma_sync_timers(v0, action, now);
    let (v1, synced) = crate::rules::sync_spec(v0, action, now);
    let v2 = EngineView { pending_casts: crate::casts::note_cast(v1.pending_casts, action, now), ..v1 };
    let cleared = crate::rules::early_pass(entries, v2.timers, character, action, entries.len() as int);
    let v3 = if cleared.len() > 0 {
        EngineView { timers: keep_timers(v2.timers, crate::rules::id_not_in(cleared)), ..v2 }
    } else {
        v2
    };
    let cleared_acts = if cleared.len() > 0 {
        seq![crate::rules::quiet_action(cleared, None)]
    } else {
        Seq::empty()
    };
    lemma_keep_timers_from(v2.timers, crate::rules::id_not_in(cleared));
    lemma_keep_timers_all(v2.timers, crate::rules::id_not_in(cleared));
    if now < u64::MAX {
        lemma_keep_end_after(v2.timers, crate::rules::id_not_in(cleared), now);
    }
    assert(forall|i: int| 0 <= i < v3.timers.len() ==> v2.timers.contains(#[trigger] v3.timers[i])
        && !cleared.contains(v3.timers[i].id));
    lemma_main_pass_timers(v3, entries, character, action, now, entries.len() as int);
    let (v5, fired) = crate::rules::main_pass(v3, entries, character, action, now, entries.len() as int);
    let head = crate::rules::opt_seq(synced);
    assert(v4 == v5);
    assert(acts == head + cleared_acts + fired);
    let p = head.len() + cleared_acts.len();
    assert forall|j: int| 0 <= j < fired.len() implies acts[p + j] == fired[j] by {}
    assert forall|j: int| 0 <= j < acts.len() implies ((#[trigger] acts[j]).alert is None && (
    acts[j].started_timer matches Some(tm) ==> tm.trigger_id == "eql-ability-cooldown"@)) || exists|
        k: int,
    | 0 <= k < entries.len() && fired_by(acts[j], entries[k]) by {
        if j < head.len() {
            assert(acts[j] == synced->0);
        } else if j < p {
            assert(acts[j] == crate::rules::quiet_action(cleared, None));
        } else {
            assert(acts[j] == fired[j - p]);
            let k = choose|k: int| 0 <= k < entries.len() && fired_by(#[trigger] fired[j - p], entries[k]);
        }
    }
    assert forall|i: int| 0 <= i < v4.timers.len() implies (v.timers.contains(#[trigger] v4.timers[i])
        && forall|j: int|
        0 <= j < acts.len() ==> !(#[trigger] acts[j]).cleared_timer_ids.contains(v4.timers[i].id))
        || exists|j: int| 0 <= j < acts.len() && (#[trigger] acts[j]).started_timer == Some(
        v4.timers[i],
    ) by {
        let x = v4.timers[i];
        if v3.timers.contains(x) {
            let m = choose|m: int| 0 <= m < v3.timers.len() && v3.timers[m] == x;
            assert(v2.timers.contains(x) && !cleared.contains(x.id));
            let m1 = choose|m1: int| 0 <= m1 < v1.timers.len() && v1.timers[m1] == x;
            if synced is Some && synced->0.started_timer == Some(x) {
                assert(acts[0] == synced->0);
            } else {
                assert(v0.timers.contains(x));
                let m0 = choose|m0: int| 0 <= m0 < v0.timers.len() && v0.timers[m0] == x;
                assert(v.timers.contains(x));
                assert forall|j: int| 0 <= j < acts.len() implies !(#[trigger] acts[j]).cleared_timer_ids.contains(
                    x.id,
                ) by {
                    if j < head.len() {
                        assert(acts[j] == synced->0);
                    } else if j < p {
                        assert(acts[j] == crate::rules::quiet_action(cleared, None));
                    } else {
                        assert(acts[j] == fired[j - p]);
                        let k = choose|k: int|
                            0 <= k < entries.len() && fired_by(#[trigger] fired[j - p], entries[k]);
                    }
                }
            }
        } else {
            let j = choose|j: int| 0 <= j < fired.len() && (#[trigger] fired[j]).started_timer == Some(x);
            assert(acts[p + j] == fired[j]);
        }
    }
}


/// Every timer's id is `t` and a number below the engine's next id, as the engine numbers
/// the timers it starts.
pub open spec fn ids_fresh(v: EngineView) -> bool {
    forall|i: int| 0 <= i < v.timers.len() ==> id_in((#[trigger] v.timers[i]).id, 0, v.next_id as int)
}

/// Timer ids of different numbers differ.
proof fn lemma_timer_id_injective(a: u64, b: u64)
    requires
        crate::rules::timer_id(a) == crate::rules::timer_id(b),
    ensures
        a == b,
{
    let ta = crate::rules::timer_id(a);
    let tb = crate::rules::timer_id(b);
    assert(ta.drop_first() =~= crate::tokens::decimal(a as nat));
    assert(tb.drop_first() =~= crate::tokens::decimal(b as nat));
    crate::tokens::lemma_decimal_injective(a as nat, b as nat);
}

/// Ids numbered in disjoint ranges differ.
proof fn lemma_id_in_disjoint(c: Seq<char>, x: Seq<char>, lo: int, mid: int, hi: int)
    requires
        id_in(c, lo, mid),
        id_in(x, mid, hi),
    ensures
        c != x,
{
    let k = choose|k: u64| lo <= k < mid && c == crate::rules::timer_id(k);
    let m = choose|m: u64| mid <= m < hi && x == crate::rules::timer_id(m);
    if c == x {
        lemma_timer_id_injective(k, m);
    }
}

/// A processed line clears no timer that remains: where every timer is numbered below the
/// engine's next id (as the engine numbers them) and the line's ids can be numbered, no
/// id any returned action clears belongs to a timer left afterwards, and the timers left
/// are still numbered below the next id.
pub proof fn law_process_clears(v: EngineView, entries: Seq<EntryView>, action: Seq<char>, now: u64)
    requires
        ids_fresh(v),
        v.next_id + 2 * entries.len() + 1 <= u64::MAX,
    ensures
        ({
            let (v4, acts) = crate::rules::process_spec(v, entries, action, now);
            &&& ids_fresh(v4)
            &&& forall|i: int, j: int|
                0 <= i < v4.timers.len() && 0 <= j < acts.len() ==> !(#[trigger] acts[j]).cleared_timer_ids.contains(
                    (#[trigger] v4.timers[i]).id,
                )
        }),
{
    let (v4, acts) = crate::rules::process_spec(v, entries, action, now);
    let n0 = v.next_id as int;
    let v0 = EngineView { timers: keep_timers(v.timers, ends_after(now)), ..v };
    lemma_keep_timers_from(v.timers, ends_after(now));
    assert forall|i: int| 0 <= i < v0.timers.len() implies id_in((#[trigger] v0.timers[i]).id, 0, n0) by {
        let w = choose|w: int| 0 <= w < v.timers.len() && v.timers[w] == v0.timers[i];
        assert(id_in(v.timers[w].id, 0, n0));
    }
    let character = match v.character {
        Some(c) => c,
        None => Seq::empty(),
    };
    lemma_sync_timers(v0, action, now);
    let (v1, synced) = crate::rules::sync_spec(v0, action, now);
    let n1 = v1.next_id as int;
    assert forall|i: int| 0 <= i < v1.timers.len() implies id_in((#[trigger] v1.timers[i]).id, 0, n1) by {
        let x = v1.timers[i];
        if v0.timers.contains(x) {
            let w = choose|w: int| 0 <= w < v0.timers.len() && v0.timers[w] == x;
            assert(id_in(v0.timers[w].id, 0, n0));
            let k = choose|k: u64| 0 <= k < n0 && x.id == crate::rules::timer_id(k);
        } else {
            assert(x.id == crate::rules::timer_id(v0.next_id));
        }
    }
    let v2 = EngineView { pending_casts: crate::casts::note_cast(v1.pending_casts, action, now), ..v1 };
    let cleared = crate::rules::early_pass(entries, v2.timers, character, action, entries.len() as int);
    lemma_early_pass_from(entries, v2.timers, character, action, entries.len() as int);
    assert forall|j: int| 0 <= j < cleared.len() implies id_in(#[trigger] cleared[j], 0, n1) by {
        let w = choose|w: int| 0 <= w < v2.timers.len() && v2.timers[w].id == cleared[j];
        assert(id_in(v1.timers[w].id, 0, n1));
    }
    let v3 = if cleared.len() > 0 {
        EngineView { timers: keep_timers(v2.timers, crate::rules::id_not_in(cleared)), ..v2 }
    } else {
        v2
    };
    lemma_keep_timers_from(v2.timers, crate::rules::id_not_in(cleared));
    lemma_keep_timers_all(v2.timers, crate::rules::id_not_in(cleared));
    assert forall|i: int| 0 <= i < v3.timers.len() implies v2.timers.contains(#[trigger] v3.timers[i])
        && !cleared.contains(v3.timers[i].id) by {}
    let cleared_acts = if cleared.len() > 0 {
        seq![crate::rules::quiet_action(cleared, None)]
    } else {
        Seq::empty()
    };
    lemma_main_pass_timers(v3, entries, character, action, now, entries.len() as int);
    let (v5, fired) = crate::rules::main_pass(v3, entries, character, action, now, entries.len() as int);
    let head = crate::rules::opt_seq(synced);
    assert(v4 == v5);
    assert(acts == head + cleared_acts + fired);
    let p = head.len() + cleared_acts.len();
    let n4 = v4.next_id as int;
    // Where each remaining timer comes from.
    assert forall|i: int| 0 <= i < v4.timers.len() implies v3.timers.contains(#[trigger] v4.timers[i])
        || id_in(v4.timers[i].id, n1, n4) by {
        let x = v4.timers[i];
        if !v3.timers.contains(x) {
            let j = choose|j: int| 0 <= j < fired.len() && (#[trigger] fired[j]).started_timer == Some(x);
        }
    }
    assert forall|i: int| 0 <= i < v4.timers.len() implies id_in((#[trigger] v4.timers[i]).id, 0, n4) by {
        let x = v4.timers[i];
        if v3.timers.contains(x) {
            let w = choose|w: int| 0 <= w < v3.timers.len() && v3.timers[w] == x;
            assert(v2.timers.contains(x));
            let w2 = choose|w2: int| 0 <= w2 < v2.timers.len() && v2.timers[w2] == x;
            assert(id_in(v1.timers[w2].id, 0, n1));
            let k = choose|k: u64| 0 <= k < n1 && x.id == crate::rules::timer_id(k);
        } else {
            let k = choose|k: u64| n1 <= k < n4 && x.id == crate::rules::timer_id(k);
        }
    }
    assert forall|i: int, j: int|
        0 <= i < v4.timers.len() && 0 <= j < acts.len() implies !(#[trigger] acts[j]).cleared_timer_ids.contains(
        (#[trigger] v4.timers[i]).id,
    ) by {
        let x = v4.timers[i];
        let in3 = v3.timers.contains(x);
        if j < head.len() {
            let a = synced->0;
            assert(acts[j] == a);
            if a.cleared_timer_ids.contains(x.id) {
                let q = choose|q: int| 0 <= q < a.cleared_timer_ids.len() && a.cleared_timer_ids[q] == x.id;
                let w = choose|w: int| 0 <= w < v0.timers.len() && v0.timers[w].id == a.cleared_timer_ids[q];
                assert(id_in(v0.timers[w].id, 0, n0));
                if in3 {
                    assert(v2.timers.contains(x));
                    let w2 = choose|w2: int| 0 <= w2 < v1.timers.len() && v1.timers[w2] == x;
                    assert(v0.timers.contains(x) && !a.cleared_timer_ids.contains(x.id)
                        || a.started_timer == Some(x));
                } else {
                    lemma_id_in_disjoint(x.id, x.id, 0, n1, n4);
                }
            }
        } else if j < p {
            assert(acts[j] == crate::rules::quiet_action(cleared, None));
            if cleared.contains(x.id) && !in3 {
                let q = choose|q: int| 0 <= q < cleared.len() && cleared[q] == x.id;
                assert(id_in(cleared[q], 0, n1));
                lemma_id_in_disjoint(x.id, x.id, 0, n1, n4);
            }
        } else {
            assert(acts[j] == fired[j - p]);
            let k = choose|k: int| 0 <= k < entries.len() && fired_by(#[trigger] fired[j - p], entries[k]);
        }
    }
}


/// Dropping timers keeps every remaining one numbered below the next id.
proof fn lemma_keep_fresh(v: EngineView, keep: spec_fn(TimerView) -> bool)
    requires
        ids_fresh(v),
    ensures
        ids_fresh(EngineView { timers: keep_timers(v.timers, keep), ..v }),
{
    lemma_keep_timers_from(v.timers, keep);
    let kept = keep_timers(v.timers, keep);
    assert forall|i: int| 0 <= i < kept.len() implies id_in((#[trigger] kept[i]).id, 0, v.next_id as int) by {
        let w = choose|w: int| 0 <= w < v.timers.len() && v.timers[w] == kept[i];
        assert(id_in(v.timers[w].id, 0, v.next_id as int));
    }
}

/// A preview keeps every timer numbered below the next id.
proof fn lemma_preview_fresh(v: EngineView, t: TriggerView, sample: Seq<char>, now: u64)
    requires
        ids_fresh(v),
        v.next_id + 2 <= u64::MAX,
    ensures
        ids_fresh(crate::rules::preview_spec(v, t, sample, now).0),
{
    let v0 = EngineView { timers: keep_timers(v.timers, ends_after(now)), ..v };
    lemma_keep_fresh(v, ends_after(now));
    let (v2, a) = crate::rules::preview_spec(v, t, sample, now);
    let n2 = v2.next_id as int;
    if a.started_timer is Some {
        let tm = a.started_timer->0;
        let kept = keep_timers(v0.timers, crate::rules::name_differs(tm.name));
        lemma_keep_fresh(v0, crate::rules::name_differs(tm.name));
        assert(v2.timers == kept.push(tm));
        assert forall|i: int| 0 <= i < v2.timers.len() implies id_in((#[trigger] v2.timers[i]).id, 0, n2) by {
            if i < kept.len() {
                assert(v2.timers[i] == kept[i]);
                let vk = EngineView { timers: kept, ..v0 };
                assert(vk.timers[i] == kept[i]);
                assert(id_in(vk.timers[i].id, 0, v.next_id as int));
                let k = choose|k: u64| 0 <= k < v.next_id && kept[i].id == crate::rules::timer_id(k);
            } else {
                assert(tm.id == crate::rules::timer_id(v.next_id));
            }
        }
    } else {
        assert forall|i: int| 0 <= i < v2.timers.len() implies id_in((#[trigger] v2.timers[i]).id, 0, n2) by {
            assert(v2.timers[i] == v0.timers[i]);
            let k = choose|k: u64| 0 <= k < v.next_id && v0.timers[i].id == crate::rules::timer_id(k);
        }
    }
}


/// A preview speaks only where the trigger has voice turned on: with `tts_enabled` off
/// it gives no speech (a chime-only trigger stays silent), whatever the sample.
pub proof fn law_preview_speech(v: EngineView, t: TriggerView, sample: Seq<char>, now: u64)
    ensures
        !t.tts_enabled ==> crate::rules::preview_spec(v, t, sample, now).1.speak is None,
        crate::rules::preview_spec(v, t, sample, now).1.speak matches Some(s) ==> t.tts_enabled && !is_blank(s),
{
}

} // verus!
