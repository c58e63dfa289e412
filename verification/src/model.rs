//! The trigger library data model and the engine's output records.

use vstd::prelude::*;

verus! {

/// A whole trigger library: ordered groups of triggers.
#[derive(Debug, Clone)]
pub struct TriggerLibrary {
    pub groups: Vec<TriggerGroup>,
}

/// A named, enable-able group of triggers.
#[derive(Debug, Clone)]
pub struct TriggerGroup {
    pub id: String,
    pub name: String,
    pub enabled: bool,
    pub triggers: Vec<Trigger>,
}

/// One log trigger.
#[derive(Debug, Clone)]
pub struct Trigger {
    pub id: String,
    pub name: String,
    pub enabled: bool,
    /// Plain substring or regex (matched against action text after timestamp).
    pub search: String,
    pub use_regex: bool,
    pub display_text: Option<String>,
    pub timer_seconds: Option<u64>,
    pub timer_name: Option<String>,
    /// Matching any of these strings clears timers with the same timer name.
    pub early_end: Vec<String>,
    /// Optional chime preset or file path.
    pub sound: Option<String>,
    /// Spoken aloud via TTS.
    pub speak: Option<String>,
    /// When true, fire TTS; when false, use the chime instead.
    pub tts_enabled: bool,
    pub comments: Option<String>,
}

/// A toast shown on the overlay.
#[derive(Debug, Clone)]
pub struct FiredAlert {
    pub id: String,
    pub trigger_id: String,
    pub trigger_name: String,
    pub kind: String,
    pub text: String,
    pub at_ms: u64,
}

/// A running countdown.
#[derive(Debug, Clone)]
pub struct ActiveTimer {
    pub id: String,
    pub trigger_id: String,
    pub name: String,
    pub started_ms: u64,
    pub ends_ms: u64,
    pub duration_secs: u64,
    /// Captures from the log line that started this timer.
    pub captures: Vec<String>,
}

/// What the overlay shows.
#[derive(Debug, Clone)]
pub struct EngineState {
    pub character: Option<String>,
    pub log_path: Option<String>,
    pub monitoring: bool,
    pub recent_alerts: Vec<FiredAlert>,
    pub timers: Vec<ActiveTimer>,
}

/// One outcome of processing a log line.
#[derive(Debug, Clone)]
pub struct MatchAction {
    pub alert: Option<FiredAlert>,
    pub sound: Option<String>,
    pub speak: Option<String>,
    pub started_timer: Option<ActiveTimer>,
    pub cleared_timer_ids: Vec<String>,
}

#[verifier::ext_equal]
pub struct TriggerView {
    pub id: Seq<char>,
    pub name: Seq<char>,
    pub enabled: bool,
    pub search: Seq<char>,
    pub use_regex: bool,
    pub display_text: Option<Seq<char>>,
    pub timer_seconds: Option<u64>,
    pub timer_name: Option<Seq<char>>,
    pub early_end: Seq<Seq<char>>,
    pub sound: Option<Seq<char>>,
    pub speak: Option<Seq<char>>,
    pub tts_enabled: bool,
    pub comments: Option<Seq<char>>,
}

#[verifier::ext_equal]
pub struct GroupView {
    pub id: Seq<char>,
    pub name: Seq<char>,
    pub enabled: bool,
    pub triggers: Seq<TriggerView>,
}

pub struct AlertView {
    pub id: Seq<char>,
    pub trigger_id: Seq<char>,
    pub trigger_name: Seq<char>,
    pub kind: Seq<char>,
    pub text: Seq<char>,
    pub at_ms: u64,
}

pub struct TimerView {
    pub id: Seq<char>,
    pub trigger_id: Seq<char>,
    pub name: Seq<char>,
    pub started_ms: u64,
    pub ends_ms: u64,
    pub duration_secs: u64,
    pub captures: Seq<Seq<char>>,
}

pub struct ActionView {
    pub alert: Option<AlertView>,
    pub sound: Option<Seq<char>>,
    pub speak: Option<Seq<char>>,
    pub started_timer: Option<TimerView>,
    pub cleared_timer_ids: Seq<Seq<char>>,
}

pub struct StateView {
    pub character: Option<Seq<char>>,
    pub log_path: Option<Seq<char>>,
    pub monitoring: bool,
    pub recent_alerts: Seq<AlertView>,
    pub timers: Seq<TimerView>,
}

impl View for Trigger {
    type V = TriggerView;

    open spec fn view(&self) -> TriggerView {
        TriggerView {
            id: self.id@,
            name: self.name@,
            enabled: self.enabled,
            search: self.search@,
            use_regex: self.use_regex,
            display_text: self.display_text.deep_view(),
            timer_seconds: self.timer_seconds,
            timer_name: self.timer_name.deep_view(),
            early_end: self.early_end.deep_view(),
            sound: self.sound.deep_view(),
            speak: self.speak.deep_view(),
            tts_enabled: self.tts_enabled,
            comments: self.comments.deep_view(),
        }
    }
}

impl View for TriggerGroup {
    type V = GroupView;

    open spec fn view(&self) -> GroupView {
        GroupView {
            id: self.id@,
            name: self.name@,
            enabled: self.enabled,
            triggers: trigger_views(self.triggers@),
        }
    }
}

impl View for TriggerLibrary {
    type V = Seq<GroupView>;

    open spec fn view(&self) -> Seq<GroupView> {
        group_views(self.groups@)
    }
}

impl View for FiredAlert {
    type V = AlertView;

    open spec fn view(&self) -> AlertView {
        AlertView {
            id: self.id@,
            trigger_id: self.trigger_id@,
            trigger_name: self.trigger_name@,
            kind: self.kind@,
            text: self.text@,
            at_ms: self.at_ms,
        }
    }
}

impl View for ActiveTimer {
    type V = TimerView;

    open spec fn view(&self) -> TimerView {
        TimerView {
            id: self.id@,
            trigger_id: self.trigger_id@,
            name: self.name@,
            started_ms: self.started_ms,
            ends_ms: self.ends_ms,
            duration_secs: self.duration_secs,
            captures: self.captures.deep_view(),
        }
    }
}

pub open spec fn opt_alert_view(a: Option<FiredAlert>) -> Option<AlertView> {
    match a {
        Some(x) => Some(x@),
        None => None,
    }
}

pub open spec fn opt_timer_view(t: Option<ActiveTimer>) -> Option<TimerView> {
    match t {
        Some(x) => Some(x@),
        None => None,
    }
}

/// The views of a sequence of timers.
pub open spec fn timer_views_of(v: Seq<ActiveTimer>) -> Seq<TimerView> {
    Seq::new(v.len(), |i: int| v[i]@)
}

impl View for MatchAction {
    type V = ActionView;

    open spec fn view(&self) -> ActionView {
        ActionView {
            alert: opt_alert_view(self.alert),
            sound: self.sound.deep_view(),
            speak: self.speak.deep_view(),
            started_timer: opt_timer_view(self.started_timer),
            cleared_timer_ids: self.cleared_timer_ids.deep_view(),
        }
    }
}

impl View for EngineState {
    type V = StateView;

    open spec fn view(&self) -> StateView {
        StateView {
            character: self.character.deep_view(),
            log_path: self.log_path.deep_view(),
            monitoring: self.monitoring,
            recent_alerts: self.recent_alerts@.map_values(|a: FiredAlert| a@),
            timers: self.timers@.map_values(|t: ActiveTimer| t@),
        }
    }
}

/// A fresh random identifier (`uuid::Uuid::new_v4().to_string()`).
#[verifier::external_body]
fn new_uuid() -> (r: String)
    ensures
        r@.len() == 36,
{
    uuid::Uuid::new_v4().to_string()
}

/// A copy of an optional string.
pub fn copy_opt_string(o: &Option<String>) -> (r: Option<String>)
    ensures
        r.deep_view() == o.deep_view(),
{
    match o {
        Some(s) => Some(s.clone()),
        None => None,
    }
}

/// A copy of a list of strings.
pub fn copy_strings(v: &Vec<String>) -> (r: Vec<String>)
    ensures
        r.deep_view() == v.deep_view(),
{
    let mut out: Vec<String> = Vec::new();
    let mut i: usize = 0;
    while i < v.len()
        invariant
            i <= v.len(),
            out@.len() == i,
            forall|k: int| 0 <= k < i ==> #[trigger] out@[k]@ == v@[k]@,
        decreases v.len() - i,
    {
        out.push(v[i].clone());
        i += 1;
    }
    assert(out.deep_view() =~= v.deep_view());
    out
}

/// The views of a sequence of triggers.
pub open spec fn trigger_views(v: Seq<Trigger>) -> Seq<TriggerView> {
    Seq::new(v.len(), |i: int| v[i]@)
}

/// The views of a sequence of groups.
pub open spec fn group_views(v: Seq<TriggerGroup>) -> Seq<GroupView> {
    Seq::new(v.len(), |i: int| v[i]@)
}

impl Trigger {
    /// A field-by-field copy.
    pub fn duplicate(&self) -> (r: Trigger)
        ensures
            r@ == self@,
    {
        Trigger {
            id: self.id.clone(),
            name: self.name.clone(),
            enabled: self.enabled,
            search: self.search.clone(),
            use_regex: self.use_regex,
            display_text: copy_opt_string(&self.display_text),
            timer_seconds: self.timer_seconds,
            timer_name: copy_opt_string(&self.timer_name),
            early_end: copy_strings(&self.early_end),
            sound: copy_opt_string(&self.sound),
            speak: copy_opt_string(&self.speak),
            tts_enabled: self.tts_enabled,
            comments: copy_opt_string(&self.comments),
        }
    }
}

/// A field-by-field copy of a list of triggers.
pub fn copy_triggers(v: &Vec<Trigger>) -> (r: Vec<Trigger>)
    ensures
        trigger_views(r@) == trigger_views(v@),
{
    let mut out: Vec<Trigger> = Vec::new();
    let mut i: usize = 0;
    while i < v.len()
        invariant
            i <= v.len(),
            out@.len() == i,
            forall|k: int| 0 <= k < i ==> #[trigger] out@[k]@ == v@[k]@,
        decreases v.len() - i,
    {
        out.push(v[i].duplicate());
        i += 1;
    }
    assert(trigger_views(out@) =~= trigger_views(v@));
    out
}

impl TriggerGroup {
    pub fn duplicate(&self) -> (r: TriggerGroup)
        ensures
            r@ == self@,
    {
        TriggerGroup {
            id: self.id.clone(),
            name: self.name.clone(),
            enabled: self.enabled,
            triggers: copy_triggers(&self.triggers),
        }
    }
}

/// A field-by-field copy of a list of groups.
pub fn copy_groups(v: &Vec<TriggerGroup>) -> (r: Vec<TriggerGroup>)
    ensures
        group_views(r@) == group_views(v@),
{
    let mut out: Vec<TriggerGroup> = Vec::new();
    let mut i: usize = 0;
    while i < v.len()
        invariant
            i <= v.len(),
            out@.len() == i,
            forall|k: int| 0 <= k < i ==> #[trigger] out@[k]@ == v@[k]@,
        decreases v.len() - i,
    {
        out.push(v[i].duplicate());
        i += 1;
    }
    assert(group_views(out@) =~= group_views(v@));
    out
}

impl TriggerLibrary {
    pub fn duplicate(&self) -> (r: TriggerLibrary)
        ensures
            r@ == self@,
    {
        TriggerLibrary { groups: copy_groups(&self.groups) }
    }
}

impl FiredAlert {
    pub fn duplicate(&self) -> (r: FiredAlert)
        ensures
            r@ == self@,
    {
        FiredAlert {
            id: self.id.clone(),
            trigger_id: self.trigger_id.clone(),
            trigger_name: self.trigger_name.clone(),
            kind: self.kind.clone(),
            text: self.text.clone(),
            at_ms: self.at_ms,
        }
    }
}

impl ActiveTimer {
    pub fn duplicate(&self) -> (r: ActiveTimer)
        ensures
            r@ == self@,
    {
        ActiveTimer {
            id: self.id.clone(),
            trigger_id: self.trigger_id.clone(),
            name: self.name.clone(),
            started_ms: self.started_ms,
            ends_ms: self.ends_ms,
            duration_secs: self.duration_secs,
            captures: copy_strings(&self.captures),
        }
    }
}

impl Default for TriggerLibrary {
    fn default() -> (r: Self)
        ensures
            r@ == Seq::<GroupView>::empty(),
    {
        TriggerLibrary { groups: Vec::new() }
    }
}

impl Default for TriggerGroup {
    /// A new enabled, empty group with a random id.
    fn default() -> (r: Self)
        ensures
            r@.id.len() == 36,
            r@.name == "New group"@,
            r@.enabled,
            r@.triggers.len() == 0,
    {
        TriggerGroup {
            id: new_uuid(),
            name: String::from_str("New group"),
            enabled: true,
            triggers: Vec::new(),
        }
    }
}

impl Default for Trigger {
    /// A new enabled plain-text trigger with an empty search and a random id.
    fn default() -> (r: Self)
        ensures
            r@.id.len() == 36,
            r@.name == "New trigger"@,
            r@.enabled,
            r@.search.len() == 0,
            !r@.use_regex,
            r@.display_text is None,
            r@.timer_seconds is None,
            r@.timer_name is None,
            r@.early_end.len() == 0,
            r@.sound is None,
            r@.speak is None,
            r@.tts_enabled,
            r@.comments is None,
    {
        Trigger {
            id: new_uuid(),
            name: String::from_str("New trigger"),
            enabled: true,
            search: String::new(),
            use_regex: false,
            display_text: None,
            timer_seconds: None,
            timer_name: None,
            early_end: Vec::new(),
            sound: None,
            speak: None,
            tts_enabled: true,
            comments: None,
        }
    }
}

/// Whether two strings hold the same text.
pub fn same_string(a: &String, b: &String) -> (r: bool)
    ensures
        r == (a@ == b@),
{
    let av = crate::text::chars_of(a.as_str());
    let bv = crate::text::chars_of(b.as_str());
    crate::text::chars_eq(av.as_slice(), bv.as_slice())
}

/// Whether two optional strings hold the same text (or are both absent).
pub fn same_opt_string(a: &Option<String>, b: &Option<String>) -> (r: bool)
    ensures
        r == (a.deep_view() == b.deep_view()),
{
    match (a, b) {
        (Some(x), Some(y)) => same_string(x, y),
        (None, None) => true,
        _ => false,
    }
}

/// Whether two lists of strings hold the same texts in the same order.
pub fn same_strings(a: &Vec<String>, b: &Vec<String>) -> (r: bool)
    ensures
        r == (a.deep_view() == b.deep_view()),
{
    if a.len() != b.len() {
        assert(a.deep_view().len() != b.deep_view().len());
        return false;
    }
    let mut i: usize = 0;
    while i < a.len()
        invariant
            i <= a.len(),
            a.len() == b.len(),
            forall|k: int| 0 <= k < i ==> a.deep_view()[k] == b.deep_view()[k],
        decreases a.len() - i,
    {
        if !same_string(&a[i], &b[i]) {
            assert(a.deep_view()[i as int] != b.deep_view()[i as int]);
            return false;
        }
        i += 1;
    }
    assert(a.deep_view() =~= b.deep_view());
    true
}

/// Whether two triggers agree in every field.
pub fn same_trigger(a: &Trigger, b: &Trigger) -> (r: bool)
    ensures
        r == (a@ == b@),
{
    same_string(&a.id, &b.id) && same_string(&a.name, &b.name) && a.enabled == b.enabled
        && same_string(&a.search, &b.search) && a.use_regex == b.use_regex && same_opt_string(
        &a.display_text,
        &b.display_text,
    ) && a.timer_seconds == b.timer_seconds && same_opt_string(&a.timer_name, &b.timer_name)
        && same_strings(&a.early_end, &b.early_end) && same_opt_string(&a.sound, &b.sound)
        && same_opt_string(&a.speak, &b.speak) && a.tts_enabled == b.tts_enabled
        && same_opt_string(&a.comments, &b.comments)
}

} // verus!
