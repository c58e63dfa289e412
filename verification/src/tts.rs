//! Speech and chime settings: voice genders, voice slots, output device choice and
//! the chime presets.
//!
//! Playing audio and speaking are the app's work.

use vstd::prelude::*;
use crate::text::{
    chars_eq, chars_of, contains, contains_chars, eq_ignore_case, eq_ignore_case_chars, is_blank,
    is_blank_chars, push_all, starts_with, starts_with_chars, string_of, to_lower, to_lower_chars,
    trim, trim_chars,
};

verus! {

/// The gender of a TTS voice.
#[derive(Debug, Clone, Copy, PartialEq, Eq, Structural)]
pub enum VoiceGender {
    Female,
    Male,
}

impl VoiceGender {
    /// `male`, `m` or `man` (trimmed, any case) is male; anything else female.
    pub open spec fn parse_spec(raw: Seq<char>) -> VoiceGender {
        let k = to_lower(trim(raw));
        if k == "male"@ || k == "m"@ || k == "man"@ {
            VoiceGender::Male
        } else {
            VoiceGender::Female
        }
    }

    pub open spec fn name_of(self) -> Seq<char> {
        match self {
            VoiceGender::Female => "female"@,
            VoiceGender::Male => "male"@,
        }
    }

    /// Reads a gender setting: `male`, `m` or `man` (any case) is male, else female.
    pub fn parse(raw: &str) -> (r: Self)
        ensures
            r == Self::parse_spec(raw@),
    {
        let k = to_lower_chars(trim_chars(chars_of(raw).as_slice()).as_slice());
        if chars_eq(k.as_slice(), chars_of("male").as_slice()) || chars_eq(k.as_slice(), chars_of("m").as_slice())
            || chars_eq(k.as_slice(), chars_of("man").as_slice()) {
            VoiceGender::Male
        } else {
            VoiceGender::Female
        }
    }

    /// The setting's text: `female` or `male`.
    pub fn as_str(self) -> (r: &'static str)
        ensures
            r@ == self.name_of(),
    {
        match self {
            VoiceGender::Female => "female",
            VoiceGender::Male => "male",
        }
    }
}

/// Reading back a gender's text gives the same gender.
pub proof fn law_gender_roundtrip(g: VoiceGender)
    ensures
        VoiceGender::parse_spec(g.name_of()) == g,
{
    reveal_strlit("female");
    reveal_strlit("male");
    reveal_strlit("m");
    reveal_strlit("man");
    let f = "female"@;
    let m = "male"@;
    assert(crate::text::trim_start(f) == f);
    assert(crate::text::trim_end(f) == f);
    assert(crate::text::trim_start(m) == m);
    assert(crate::text::trim_end(m) == m);
    assert(to_lower(f) =~= f);
    assert(to_lower(m) =~= m);
    assert(f.len() == 6 && m.len() == 4 && "m"@.len() == 1 && "man"@.len() == 3);
    assert(f != m);
    assert(m[2] != "man"@[2]);
}

/// The gender of a voice id: Kokoro's `am_`/`bm_` ids or an id mentioning `male`.
pub open spec fn gender_of_id(voice_id: Seq<char>) -> VoiceGender {
    let id = to_lower(trim(voice_id));
    if starts_with(id, "am_"@) || starts_with(id, "bm_"@) || contains(id, "male"@) {
        VoiceGender::Male
    } else {
        VoiceGender::Female
    }
}

/// The gender of a voice id (`am_…`, `bm_…` or containing `male` is male).
pub fn voice_gender_from_id(voice_id: &str) -> (r: VoiceGender)
    ensures
        r == gender_of_id(voice_id@),
{
    let id = to_lower_chars(trim_chars(chars_of(voice_id).as_slice()).as_slice());
    if starts_with_chars(id.as_slice(), chars_of("am_").as_slice()) || starts_with_chars(
        id.as_slice(),
        chars_of("bm_").as_slice(),
    ) || contains_chars(id.as_slice(), chars_of("male").as_slice()) {
        VoiceGender::Male
    } else {
        VoiceGender::Female
    }
}

pub fn tts_voice_female() -> (r: VoiceGender)
    ensures
        r == VoiceGender::Female,
{
    VoiceGender::Female
}

pub fn tts_voice_male() -> (r: VoiceGender)
    ensures
        r == VoiceGender::Male,
{
    VoiceGender::Male
}

/// The Kokoro voice an immediate announcement uses for a gender.
pub fn voice_for_gender(gender: VoiceGender) -> (r: &'static str)
    ensures
        r@ == match gender {
            VoiceGender::Male => "am_michael"@,
            VoiceGender::Female => "bf_isabella"@,
        },
{
    match gender {
        VoiceGender::Male => "am_michael",
        VoiceGender::Female => "bf_isabella",
    }
}

/// The voice settings: the chosen voice id, and the last voice per gender.
#[derive(Debug, Clone)]
pub struct VoiceSlots {
    pub voice_id: String,
    pub voice_gender: String,
    pub voice_male: String,
    pub voice_female: String,
}

pub struct VoiceSlotsView {
    pub voice_id: Seq<char>,
    pub voice_gender: Seq<char>,
    pub voice_male: Seq<char>,
    pub voice_female: Seq<char>,
}

impl View for VoiceSlots {
    type V = VoiceSlotsView;

    open spec fn view(&self) -> VoiceSlotsView {
        VoiceSlotsView {
            voice_id: self.voice_id@,
            voice_gender: self.voice_gender@,
            voice_male: self.voice_male@,
            voice_female: self.voice_female@,
        }
    }
}

/// The voice in use: the chosen id (trimmed); for settings without one, the slot of
/// the chosen gender or its default.
pub open spec fn active_voice(v: VoiceSlotsView) -> Seq<char> {
    if !is_blank(v.voice_id) {
        trim(v.voice_id)
    } else if eq_ignore_case(v.voice_gender, "male"@) {
        if is_blank(v.voice_male) {
            "am_michael"@
        } else {
            v.voice_male
        }
    } else if is_blank(v.voice_female) {
        "bf_isabella"@
    } else {
        v.voice_female
    }
}

/// The slots after choosing the active voice: it becomes the chosen id, its gender
/// (`am_`/`bm_` ids are male) and that gender's slot.
pub open spec fn synced(v: VoiceSlotsView) -> VoiceSlotsView {
    let id = active_voice(v);
    if starts_with(id, "am_"@) || starts_with(id, "bm_"@) {
        VoiceSlotsView { voice_id: id, voice_gender: "male"@, voice_male: id, ..v }
    } else {
        VoiceSlotsView { voice_id: id, voice_gender: "female"@, voice_female: id, ..v }
    }
}

impl VoiceSlots {
    /// The voice in use.
    pub fn active_voice_id(&self) -> (r: String)
        ensures
            r@ == active_voice(self@),
    {
        let id = chars_of(self.voice_id.as_str());
        if !is_blank_chars(id.as_slice()) {
            return string_of(trim_chars(id.as_slice()).as_slice());
        }
        let gender = chars_of(self.voice_gender.as_str());
        if eq_ignore_case_chars(gender.as_slice(), chars_of("male").as_slice()) {
            if is_blank_chars(chars_of(self.voice_male.as_str()).as_slice()) {
                String::from_str("am_michael")
            } else {
                self.voice_male.clone()
            }
        } else if is_blank_chars(chars_of(self.voice_female.as_str()).as_slice()) {
            String::from_str("bf_isabella")
        } else {
            self.voice_female.clone()
        }
    }

    /// Makes the active voice the chosen one and records it in its gender's slot.
    pub fn sync_voice_slots(&mut self)
        ensures
            final(self)@ == synced(old(self)@),
    {
        let id = self.active_voice_id();
        let iv = chars_of(id.as_str());
        let male = starts_with_chars(iv.as_slice(), chars_of("am_").as_slice()) || starts_with_chars(
            iv.as_slice(),
            chars_of("bm_").as_slice(),
        );
        self.voice_id = id.clone();
        if male {
            self.voice_gender = String::from_str("male");
            self.voice_male = id;
        } else {
            self.voice_gender = String::from_str("female");
            self.voice_female = id;
        }
    }
}

/// An audio output device.
#[derive(Debug, Clone)]
pub struct AudioOutputDevice {
    pub name: String,
    pub channels: u16,
    pub is_default: bool,
}

/// The preferred output device (`None` for the system default).
#[derive(Debug, Clone)]
pub struct OutputPrefs {
    pub preferred: Option<String>,
}

/// A device name as stored: trimmed; `None` when absent or blank.
pub open spec fn cleaned_device(name: Option<Seq<char>>) -> Option<Seq<char>> {
    match name {
        Some(n) => if trim(n).len() > 0 {
            Some(trim(n))
        } else {
            None
        },
        None => None,
    }
}

impl OutputPrefs {
    /// Sets the preferred output device by name; `None` or blank for the system default.
    pub fn set_preferred_output_device(&mut self, name: Option<&str>)
        ensures
            final(self).preferred.deep_view() == cleaned_device(
                match name {
                    Some(n) => Some(n@),
                    None => None,
                },
            ),
    {
        self.preferred = match name {
            Some(n) => {
                let t = trim_chars(chars_of(n).as_slice());
                if t.len() > 0 {
                    Some(string_of(t.as_slice()))
                } else {
                    None
                }
            },
            None => None,
        };
    }

    /// The preferred output device, if one is set.
    pub fn preferred_output_device(&self) -> (r: Option<String>)
        ensures
            r.deep_view() == self.preferred.deep_view(),
    {
        crate::model::copy_opt_string(&self.preferred)
    }
}

/// Setting a preferred device and reading it back gives the cleaned name; cleaning is
/// idempotent, so setting what was read back keeps it.
pub proof fn law_device_roundtrip(name: Option<Seq<char>>)
    ensures
        cleaned_device(cleaned_device(name)) == cleaned_device(name),
{
    match name {
        Some(n) => {
            if trim(n).len() > 0 {
                crate::text::lemma_trim_idempotent(n);
            }
        },
        None => {},
    }
}

/// A chime choice shown in the sound menu.
#[derive(Debug, Clone)]
pub struct AlertSoundInfo {
    pub id: String,
    pub label: String,
}

pub struct SoundInfoView {
    pub id: Seq<char>,
    pub label: Seq<char>,
}

impl View for AlertSoundInfo {
    type V = SoundInfoView;

    open spec fn view(&self) -> SoundInfoView {
        SoundInfoView { id: self.id@, label: self.label@ }
    }
}

pub open spec fn sound_views(v: Seq<AlertSoundInfo>) -> Seq<SoundInfoView> {
    v.map_values(|x: AlertSoundInfo| x@)
}

fn is_lit(key: &[char], lit: &str) -> (r: bool)
    ensures
        r == (key@ == lit@),
{
    chars_eq(key, chars_of(lit).as_slice())
}

/// The chime presets, in menu order.
pub open spec fn presets() -> Seq<(Seq<char>, Seq<char>)> {
    seq![
        ("glass"@, "Glass"@),
        ("ping"@, "Ping"@),
        ("sosumi"@, "Sosumi"@),
        ("submarine"@, "Submarine"@),
        ("hero"@, "Hero"@),
        ("funk"@, "Funk"@),
        ("purr"@, "Purr"@),
        ("tink"@, "Tink"@),
        ("bottle"@, "Bottle"@),
        ("blow"@, "Blow"@),
        ("pop"@, "Pop"@),
        ("morse"@, "Morse"@),
        ("frog"@, "Frog"@),
        ("basso"@, "Basso"@),
    ]
}

fn preset_list() -> (r: Vec<(&'static str, &'static str)>)
    ensures
        r@.map_values(|p: (&str, &str)| (p.0@, p.1@)) == presets(),
{
    let r = vec![
        ("glass", "Glass"),
        ("ping", "Ping"),
        ("sosumi", "Sosumi"),
        ("submarine", "Submarine"),
        ("hero", "Hero"),
        ("funk", "Funk"),
        ("purr", "Purr"),
        ("tink", "Tink"),
        ("bottle", "Bottle"),
        ("blow", "Blow"),
        ("pop", "Pop"),
        ("morse", "Morse"),
        ("frog", "Frog"),
        ("basso", "Basso"),
    ];
    assert(r@.map_values(|p: (&str, &str)| (p.0@, p.1@)) =~= presets());
    r
}

/// The macOS system sound file of a preset.
pub open spec fn mac_sound_file(key: Seq<char>) -> Option<Seq<char>> {
    if key == "glass"@ {
        Some("Glass.aiff"@)
    } else if key == "ping"@ {
        Some("Ping.aiff"@)
    } else if key == "sosumi"@ {
        Some("Sosumi.aiff"@)
    } else if key == "submarine"@ {
        Some("Submarine.aiff"@)
    } else if key == "hero"@ {
        Some("Hero.aiff"@)
    } else if key == "funk"@ {
        Some("Funk.aiff"@)
    } else if key == "purr"@ {
        Some("Purr.aiff"@)
    } else if key == "tink"@ {
        Some("Tink.aiff"@)
    } else if key == "bottle"@ {
        Some("Bottle.aiff"@)
    } else if key == "blow"@ {
        Some("Blow.aiff"@)
    } else if key == "pop"@ {
        Some("Pop.aiff"@)
    } else if key == "morse"@ {
        Some("Morse.aiff"@)
    } else if key == "frog"@ {
        Some("Frog.aiff"@)
    } else if key == "basso"@ {
        Some("Basso.aiff"@)
    } else {
        None
    }
}

/// The Windows media file of a preset.
pub open spec fn windows_sound_file(key: Seq<char>) -> Option<Seq<char>> {
    if key == "glass"@ {
        Some("Windows Notify System Generic.wav"@)
    } else if key == "ping"@ {
        Some("Windows Notify System Generic.wav"@)
    } else if key == "sosumi"@ {
        Some("Windows Notify Email.wav"@)
    } else if key == "submarine"@ {
        Some("Windows Notify.wav"@)
    } else if key == "hero"@ {
        Some("Windows Notify Email.wav"@)
    } else if key == "funk"@ {
        Some("Windows Notify Email.wav"@)
    } else if key == "purr"@ {
        Some("Windows Proximity Notification.wav"@)
    } else if key == "tink"@ {
        Some("Windows Notify System Generic.wav"@)
    } else if key == "bottle"@ {
        Some("Windows Proximity Notification.wav"@)
    } else if key == "blow"@ {
        Some("Windows Notify.wav"@)
    } else if key == "pop"@ {
        Some("Windows Notify System Generic.wav"@)
    } else if key == "morse"@ {
        Some("Windows Proximity Notification.wav"@)
    } else if key == "frog"@ {
        Some("Windows Proximity Notification.wav"@)
    } else if key == "basso"@ {
        Some("Windows Notify.wav"@)
    } else {
        None
    }
}

fn mac_sound_file_exec(key: &[char]) -> (r: Option<&'static str>)
    ensures
        match r {
            Some(f) => mac_sound_file(key@) == Some(f@),
            None => mac_sound_file(key@) is None,
        },
{
    if is_lit(key, "glass") {
        Some("Glass.aiff")
    } else if is_lit(key, "ping") {
        Some("Ping.aiff")
    } else if is_lit(key, "sosumi") {
        Some("Sosumi.aiff")
    } else if is_lit(key, "submarine") {
        Some("Submarine.aiff")
    } else if is_lit(key, "hero") {
        Some("Hero.aiff")
    } else if is_lit(key, "funk") {
        Some("Funk.aiff")
    } else if is_lit(key, "purr") {
        Some("Purr.aiff")
    } else if is_lit(key, "tink") {
        Some("Tink.aiff")
    } else if is_lit(key, "bottle") {
        Some("Bottle.aiff")
    } else if is_lit(key, "blow") {
        Some("Blow.aiff")
    } else if is_lit(key, "pop") {
        Some("Pop.aiff")
    } else if is_lit(key, "morse") {
        Some("Morse.aiff")
    } else if is_lit(key, "frog") {
        Some("Frog.aiff")
    } else if is_lit(key, "basso") {
        Some("Basso.aiff")
    } else {
        None
    }
}

fn windows_sound_file_exec(key: &[char]) -> (r: Option<&'static str>)
    ensures
        match r {
            Some(f) => windows_sound_file(key@) == Some(f@),
            None => windows_sound_file(key@) is None,
        },
{
    if is_lit(key, "glass") {
        Some("Windows Notify System Generic.wav")
    } else if is_lit(key, "ping") {
        Some("Windows Notify System Generic.wav")
    } else if is_lit(key, "sosumi") {
        Some("Windows Notify Email.wav")
    } else if is_lit(key, "submarine") {
        Some("Windows Notify.wav")
    } else if is_lit(key, "hero") {
        Some("Windows Notify Email.wav")
    } else if is_lit(key, "funk") {
        Some("Windows Notify Email.wav")
    } else if is_lit(key, "purr") {
        Some("Windows Proximity Notification.wav")
    } else if is_lit(key, "tink") {
        Some("Windows Notify System Generic.wav")
    } else if is_lit(key, "bottle") {
        Some("Windows Proximity Notification.wav")
    } else if is_lit(key, "blow") {
        Some("Windows Notify.wav")
    } else if is_lit(key, "pop") {
        Some("Windows Notify System Generic.wav")
    } else if is_lit(key, "morse") {
        Some("Windows Proximity Notification.wav")
    } else if is_lit(key, "frog") {
        Some("Windows Proximity Notification.wav")
    } else if is_lit(key, "basso") {
        Some("Windows Notify.wav")
    } else {
        None
    }
}

/// The first `n` presets whose sound is available.
pub open spec fn available_presets(available: Seq<Seq<char>>, n: int) -> Seq<SoundInfoView>
    decreases n,
{
    if n <= 0 {
        Seq::empty()
    } else {
        let prev = available_presets(available, n - 1);
        let p = presets()[n - 1];
        if available.contains(p.0) {
            prev.push(SoundInfoView { id: p.0, label: p.1 })
        } else {
            prev
        }
    }
}

/// The sound menu: `None` first, then the presets whose sound is `available`.
pub open spec fn sound_menu(available: Seq<Seq<char>>) -> Seq<SoundInfoView> {
    seq![SoundInfoView { id: "none"@, label: "None"@ }] + available_presets(available, presets().len() as int)
}

fn listed(v: &Vec<String>, id: &str) -> (r: bool)
    ensures
        r == v.deep_view().contains(id@),
{
    let iv = chars_of(id);
    let mut i: usize = 0;
    while i < v.len()
        invariant
            i <= v.len(),
            iv@ == id@,
            forall|k: int| 0 <= k < i ==> v.deep_view()[k] != id@,
        decreases v.len() - i,
    {
        if chars_eq(chars_of(v[i].as_str()).as_slice(), iv.as_slice()) {
            assert(v.deep_view()[i as int] == id@);
            return true;
        }
        i += 1;
    }
    false
}

/// The chime presets as menu entries, in menu order.
pub fn alert_sound_presets() -> (r: Vec<AlertSoundInfo>)
    ensures
        sound_views(r@) == presets().map_values(
            |p: (Seq<char>, Seq<char>)| SoundInfoView { id: p.0, label: p.1 },
        ),
{
    let list = preset_list();
    let ghost pv = list@.map_values(|p: (&str, &str)| (p.0@, p.1@));
    let mut out: Vec<AlertSoundInfo> = Vec::new();
    let mut k: usize = 0;
    while k < list.len()
        invariant
            k <= list.len(),
            pv == list@.map_values(|p: (&str, &str)| (p.0@, p.1@)),
            pv == presets(),
            sound_views(out@) == presets().take(k as int).map_values(
                |p: (Seq<char>, Seq<char>)| SoundInfoView { id: p.0, label: p.1 },
            ),
        decreases list.len() - k,
    {
        let (id, label) = list[k];
        assert(pv[k as int] == (id@, label@));
        let ghost before = sound_views(out@);
        out.push(AlertSoundInfo { id: String::from_str(id), label: String::from_str(label) });
        assert(presets().take(k + 1) =~= presets().take(k as int).push(presets()[k as int]));
        assert(sound_views(out@) =~= before.push(SoundInfoView { id: id@, label: label@ }));
        k += 1;
    }
    assert(presets().take(list.len() as int) =~= presets());
    out
}

/// The chime menu: `None`, then the presets whose sound file exists (`available`
/// holds the ids the app found a file for).
pub fn alert_sounds(available: &Vec<String>) -> (r: Vec<AlertSoundInfo>)
    ensures
        sound_views(r@) == sound_menu(available.deep_view()),
{
    let mut out = vec![AlertSoundInfo { id: String::from_str("none"), label: String::from_str("None") }];
    let list = preset_list();
    let ghost pv = list@.map_values(|p: (&str, &str)| (p.0@, p.1@));
    let mut k: usize = 0;
    while k < list.len()
        invariant
            k <= list.len(),
            pv == list@.map_values(|p: (&str, &str)| (p.0@, p.1@)),
            pv == presets(),
            sound_views(out@) == seq![SoundInfoView { id: "none"@, label: "None"@ }] + available_presets(
                available.deep_view(),
                k as int,
            ),
        decreases list.len() - k,
    {
        let (id, label) = list[k];
        assert(pv[k as int] == (id@, label@));
        if listed(available, id) {
            let ghost before = sound_views(out@);
            out.push(AlertSoundInfo { id: String::from_str(id), label: String::from_str(label) });
            assert(sound_views(out@) =~= before.push(SoundInfoView { id: id@, label: label@ }));
        }
        k += 1;
    }
    out
}

/// A chime setting's key: trimmed; `None` when blank or `none` (any case).
pub open spec fn sound_key_of(sound: Seq<char>) -> Option<Seq<char>> {
    let k = trim(sound);
    if k.len() == 0 || eq_ignore_case(k, "none"@) {
        None
    } else {
        Some(k)
    }
}

/// The chime setting's key, or `None` when it asks for no chime.
pub fn sound_key(sound: &str) -> (r: Option<String>)
    ensures
        r.deep_view() == sound_key_of(sound@),
{
    let k = trim_chars(chars_of(sound).as_slice());
    if k.len() == 0 || eq_ignore_case_chars(k.as_slice(), chars_of("none").as_slice()) {
        None
    } else {
        Some(string_of(k.as_slice()))
    }
}

/// The operating systems with built-in chime files.
#[derive(Debug, Clone, Copy, PartialEq, Eq, Structural)]
pub enum Platform {
    MacOs,
    Windows,
    Other,
}

/// Where a preset's system sound lives on a platform.
pub open spec fn preset_sound_path(key: Seq<char>, platform: Platform) -> Option<Seq<char>> {
    let preset = to_lower(key);
    match platform {
        Platform::MacOs => match mac_sound_file(preset) {
            Some(f) => Some("/System/Library/Sounds/"@ + f),
            None => None,
        },
        Platform::Windows => match windows_sound_file(preset) {
            Some(f) => Some(r"C:\Windows\Media\"@ + f),
            None => None,
        },
        Platform::Other => None,
    }
}

/// The system sound file a chime preset (any case) maps to on the platform.
pub fn preset_sound_file(key: &str, platform: Platform) -> (r: Option<String>)
    ensures
        r.deep_view() == preset_sound_path(key@, platform),
{
    let preset = to_lower_chars(chars_of(key).as_slice());
    let (dir, file) = match platform {
        Platform::MacOs => ("/System/Library/Sounds/", mac_sound_file_exec(preset.as_slice())),
        Platform::Windows => (r"C:\Windows\Media\", windows_sound_file_exec(preset.as_slice())),
        Platform::Other => {
            return None;
        },
    };
    match file {
        Some(f) => {
            let mut v = chars_of(dir);
            push_all(&mut v, chars_of(f).as_slice());
            Some(string_of(v.as_slice()))
        },
        None => None,
    }
}

/// The files a chime setting may name, in the order to try them: the setting itself
/// when it is an absolute path, then its preset's system sound; none for no chime.
pub open spec fn sound_candidates(sound: Seq<char>, platform: Platform, key_absolute: bool) -> Seq<Seq<char>> {
    match sound_key_of(sound) {
        None => Seq::empty(),
        Some(k) => {
            let own: Seq<Seq<char>> = if key_absolute {
                seq![k]
            } else {
                Seq::empty()
            };
            match preset_sound_path(k, platform) {
                Some(p) => own.push(p),
                None => own,
            }
        },
    }
}

/// The files to look for when playing a chime setting (`key_absolute`: the trimmed
/// setting is an absolute path on this system); the first that exists is played.
pub fn sound_path_candidates(sound: &str, platform: Platform, key_absolute: bool) -> (r: Vec<String>)
    ensures
        r.deep_view() == sound_candidates(sound@, platform, key_absolute),
{
    let mut out: Vec<String> = Vec::new();
    match sound_key(sound) {
        None => {},
        Some(k) => {
            if key_absolute {
                out.push(k.clone());
            }
            match preset_sound_file(k.as_str(), platform) {
                Some(p) => {
                    out.push(p);
                },
                None => {},
            }
        },
    }
    assert(out.deep_view() =~= sound_candidates(sound@, platform, key_absolute));
    out
}

/// What an alert plays: its chime setting when that names a chime (not blank, not
/// `none`), and its speak text, trimmed, when there is any.
pub open spec fn alert_plan(sound: Option<Seq<char>>, speak: Option<Seq<char>>) -> (
    Option<Seq<char>>,
    Option<Seq<char>>,
) {
    (
        match sound {
            Some(s) => if trim(s).len() > 0 && !eq_ignore_case(s, "none"@) {
                Some(s)
            } else {
                None
            },
            None => None,
        },
        match speak {
            Some(t) => if trim(t).len() > 0 {
                Some(trim(t))
            } else {
                None
            },
            None => None,
        },
    )
}

/// The chime to play and the text to speak for an alert.
pub fn plan_alert(sound: Option<&str>, speak_text: Option<&str>) -> (r: (Option<String>, Option<String>))
    ensures
        (r.0.deep_view(), r.1.deep_view()) == alert_plan(
            match sound {
                Some(s) => Some(s@),
                None => None,
            },
            match speak_text {
                Some(t) => Some(t@),
                None => None,
            },
        ),
{
    let chime = match sound {
        Some(s) => {
            let v = chars_of(s);
            if trim_chars(v.as_slice()).len() > 0 && !eq_ignore_case_chars(v.as_slice(), chars_of("none").as_slice()) {
                Some(String::from_str(s))
            } else {
                None
            }
        },
        None => None,
    };
    let say = match speak_text {
        Some(t) => {
            let v = trim_chars(chars_of(t).as_slice());
            if v.len() > 0 {
                Some(string_of(v.as_slice()))
            } else {
                None
            }
        },
        None => None,
    };
    (chime, say)
}

/// The voice slots stored when settings are saved: the chosen id trimmed (or, when
/// blank, the voice the incoming slots make active), blank gender slots filled with
/// their defaults, then synced to the chosen voice.
pub open spec fn saved_slots(v: VoiceSlotsView) -> VoiceSlotsView {
    synced(
        VoiceSlotsView {
            voice_id: if is_blank(v.voice_id) {
                active_voice(v)
            } else {
                trim(v.voice_id)
            },
            voice_gender: v.voice_gender,
            voice_female: if is_blank(v.voice_female) {
                "bf_isabella"@
            } else {
                v.voice_female
            },
            voice_male: if is_blank(v.voice_male) {
                "am_michael"@
            } else {
                v.voice_male
            },
        },
    )
}

impl VoiceSlots {
    /// The slots to store for incoming settings (see `saved_slots`).
    pub fn saved_voice_slots(&self) -> (r: VoiceSlots)
        ensures
            r@ == saved_slots(self@),
    {
        let chosen = if is_blank_chars(chars_of(self.voice_id.as_str()).as_slice()) {
            self.active_voice_id()
        } else {
            string_of(trim_chars(chars_of(self.voice_id.as_str()).as_slice()).as_slice())
        };
        let female = if is_blank_chars(chars_of(self.voice_female.as_str()).as_slice()) {
            String::from_str("bf_isabella")
        } else {
            self.voice_female.clone()
        };
        let male = if is_blank_chars(chars_of(self.voice_male.as_str()).as_slice()) {
            String::from_str("am_michael")
        } else {
            self.voice_male.clone()
        };
        let mut out = VoiceSlots {
            voice_id: chosen,
            voice_gender: self.voice_gender.clone(),
            voice_male: male,
            voice_female: female,
        };
        out.sync_voice_slots();
        out
    }
}

} // verus!
