use eql_alerts::gina_import::{import_gina_gtp, share_xml_of_gtp};
use std::io::Write;
use eql_alerts::starter::ensure_essentials;
use eql_alerts::tts::plan_alert;
use eql_alerts::kokoro::urlencoding_decode;
use eql_alerts::tts::sound_path_candidates;
use eql_alerts::migrate::{migrate_library, MigrationFlags};
use eql_alerts::migrate::try_starter_pack;
use eql_alerts::kokoro::http_reply_body;
use eql_alerts::gina_import::share_data_entry;
use eql_alerts::tts::alert_sound_presets;
use eql_alerts::engine::TriggerEngine;
use eql_alerts::eql_compat::strip_permanent_buff_timers;
use eql_alerts::gina_import::{
    expand_gina_tokens, fix_atomic_groups, gina_plain_to_regex, import_gina_package, merge_libraries,
};
use eql_alerts::kokoro::{fallback_voice_catalog, urlencoding_encode, voices_body_ok};
use eql_alerts::log_find::{best_log, character_from_path, is_eq_log_file, rank_logs, split_log_line, FoundLog};
use eql_alerts::model::{Trigger, TriggerGroup, TriggerLibrary};
use eql_alerts::starter::{
    demote_optional_essentials, ensure_divine_invulnerability, ensure_eql_mez_timers, ensure_shaman_buffs,
    ensure_shaman_dots, ensure_shaman_warnings, starter_pack,
};
use eql_alerts::tokens::you_hit_by_spell_pattern;
use eql_alerts::tts::{
    alert_sounds, preset_sound_file, sound_key, voice_for_gender, voice_gender_from_id, OutputPrefs, Platform,
    VoiceGender, VoiceSlots,
};

fn plain(id: &str, search: &str, display: &str) -> Trigger {
    Trigger {
        id: id.into(),
        name: id.into(),
        enabled: true,
        search: search.into(),
        use_regex: false,
        display_text: Some(display.into()),
        timer_seconds: None,
        timer_name: None,
        early_end: vec![],
        sound: None,
        speak: None,
        tts_enabled: true,
        comments: None,
    }
}

fn one_group(name: &str, triggers: Vec<Trigger>) -> TriggerLibrary {
    TriggerLibrary {
        groups: vec![TriggerGroup { id: "g".into(), name: name.into(), enabled: true, triggers }],
    }
}

fn shown(lib: &TriggerLibrary) -> String {
    format!("{:?}", lib)
}

fn found(path: &str, source: &str, modified_secs: u64, size_bytes: u64) -> FoundLog {
    FoundLog {
        path: path.into(),
        character: character_from_path(path),
        modified_secs,
        size_bytes,
        source: source.into(),
    }
}

#[test]
fn gender_text_reads_back_as_the_same_gender() {
    for g in [VoiceGender::Female, VoiceGender::Male] {
        assert!(VoiceGender::parse(g.as_str()) == g);
    }
    assert!(VoiceGender::parse("  MAN ") == VoiceGender::Male);
    assert!(VoiceGender::parse("M") == VoiceGender::Male);
    assert!(VoiceGender::parse("woman") == VoiceGender::Female);
    assert!(VoiceGender::parse("") == VoiceGender::Female);
}

#[test]
fn voice_genders_and_defaults() {
    assert!(voice_gender_from_id("am_adam") == VoiceGender::Male);
    assert!(voice_gender_from_id(" BM_George") == VoiceGender::Male);
    assert!(voice_gender_from_id("custom-male-voice") == VoiceGender::Male);
    assert!(voice_gender_from_id("bf_emma") == VoiceGender::Female);
    assert_eq!(voice_for_gender(VoiceGender::Male), "am_michael");
    assert_eq!(voice_for_gender(VoiceGender::Female), "bf_isabella");
}

#[test]
fn voice_slots_fall_back_and_sync() {
    let mut slots = VoiceSlots {
        voice_id: "  ".into(),
        voice_gender: "Male".into(),
        voice_male: "".into(),
        voice_female: "af_nova".into(),
    };
    assert_eq!(slots.active_voice_id(), "am_michael");
    slots.sync_voice_slots();
    assert_eq!(slots.voice_id, "am_michael");
    assert_eq!(slots.voice_gender, "male");
    assert_eq!(slots.voice_male, "am_michael");
    assert_eq!(slots.voice_female, "af_nova");

    let mut chosen = VoiceSlots {
        voice_id: " af_heart ".into(),
        voice_gender: "male".into(),
        voice_male: "am_puck".into(),
        voice_female: "".into(),
    };
    chosen.sync_voice_slots();
    assert_eq!(chosen.voice_id, "af_heart");
    assert_eq!(chosen.voice_gender, "female");
    assert_eq!(chosen.voice_female, "af_heart");
    assert_eq!(chosen.voice_male, "am_puck");
}

#[test]
fn preferred_device_reads_back_cleaned() {
    let mut prefs = OutputPrefs { preferred: None };
    prefs.set_preferred_output_device(Some("  MacBook Speakers "));
    assert_eq!(prefs.preferred_output_device().as_deref(), Some("MacBook Speakers"));
    let again = prefs.preferred_output_device();
    prefs.set_preferred_output_device(again.as_deref());
    assert_eq!(prefs.preferred_output_device().as_deref(), Some("MacBook Speakers"));
    prefs.set_preferred_output_device(Some("   "));
    assert_eq!(prefs.preferred_output_device(), None);
    prefs.set_preferred_output_device(Some("USB"));
    prefs.set_preferred_output_device(None);
    assert_eq!(prefs.preferred_output_device(), None);
}

#[test]
fn sound_menu_lists_available_presets_in_order() {
    let menu = alert_sounds(&vec!["ping".to_string(), "glass".to_string(), "bogus".to_string()]);
    let ids: Vec<&str> = menu.iter().map(|s| s.id.as_str()).collect();
    let labels: Vec<&str> = menu.iter().map(|s| s.label.as_str()).collect();
    assert_eq!(ids, vec!["none", "glass", "ping"]);
    assert_eq!(labels, vec!["None", "Glass", "Ping"]);
    assert_eq!(alert_sounds(&vec![]).len(), 1);
}

#[test]
fn sound_keys_and_preset_files() {
    assert_eq!(sound_key("  Glass ").as_deref(), Some("Glass"));
    assert_eq!(sound_key("NONE"), None);
    assert_eq!(sound_key("   "), None);
    assert_eq!(
        preset_sound_file("Glass", Platform::MacOs).as_deref(),
        Some("/System/Library/Sounds/Glass.aiff")
    );
    assert_eq!(
        preset_sound_file("glass", Platform::Windows).as_deref(),
        Some(r"C:\Windows\Media\Windows Notify System Generic.wav")
    );
    assert_eq!(preset_sound_file("glass", Platform::Other), None);
    assert_eq!(preset_sound_file("bogus", Platform::MacOs), None);
}

#[test]
fn url_encoding_of_query_values() {
    assert_eq!(urlencoding_encode("a b&c/é~"), "a+b%26c%2F%C3%A9~");
    assert_eq!(urlencoding_encode("Hello-World_1.0"), "Hello-World_1.0");
    assert_eq!(urlencoding_encode(""), "");
}

#[test]
fn voices_reply_health() {
    assert!(voices_body_ok("  [{\"id\": \"af_heart\"}]"));
    assert!(voices_body_ok("{\"id\": \"x\"}"));
    assert!(!voices_body_ok("Internal Server Error"));
    let catalog = fallback_voice_catalog();
    assert_eq!(catalog.len(), 16);
    assert_eq!(catalog[0].id, "af_heart");
    assert_eq!(catalog[15].id, "bm_fable");
    assert_eq!(catalog[15].locale, "en-GB");
}

#[test]
fn log_file_names_and_characters() {
    assert!(is_eq_log_file("eqlog_Kabektik_eql.txt"));
    assert!(is_eq_log_file("EQLOG_Bob_p1999.TXT"));
    assert!(!is_eq_log_file("notes.txt"));
    assert_eq!(
        character_from_path("/Users/me/Logs/eqlog_Kabektik_eql.txt").as_deref(),
        Some("Kabektik")
    );
    assert_eq!(character_from_path(r"C:\EQ\Logs\eqlog_Bob_p1999.txt").as_deref(), Some("Bob"));
    assert_eq!(character_from_path("eqlog__eql.txt"), None);
    assert_eq!(character_from_path("eqlog_Bob.txt"), None);
    assert_eq!(character_from_path("/logs/chat_Bob_eql.txt"), None);
}

#[test]
fn log_lines_split_into_timestamp_and_action() {
    assert_eq!(
        split_log_line("  [Mon Jan 01 00:00:00 2024]  You say, 'hi'  "),
        Some(("Mon Jan 01 00:00:00 2024".to_string(), "You say, 'hi'".to_string()))
    );
    assert_eq!(split_log_line("no bracket"), None);
    assert_eq!(split_log_line("[ts]   "), None);
    assert_eq!(split_log_line("[unterminated"), None);
}

#[test]
fn logs_rank_installs_first_then_newest_then_largest() {
    let ranked = rank_logs(vec![
        found("/a/eqlog_A_x.txt", "other", 900, 1),
        found("/b/eqlog_B_x.txt", "local", 100, 1),
        found("/c/eqlog_C_x.txt", "osxeql", 50, 10),
        found("/c/eqlog_C_x.txt", "osxeql", 50, 10),
        found("/d/eqlog_D_x.txt", "windows", 50, 20),
        found("/e/eqlog_E_x.txt", "parallels", 60, 1),
    ]);
    let paths: Vec<&str> = ranked.iter().map(|l| l.path.as_str()).collect();
    assert_eq!(
        paths,
        vec!["/e/eqlog_E_x.txt", "/d/eqlog_D_x.txt", "/c/eqlog_C_x.txt", "/b/eqlog_B_x.txt", "/a/eqlog_A_x.txt"]
    );
    let best = best_log(vec![found("/b/eqlog_B_x.txt", "local", 100, 1), found("/a/eqlog_A_x.txt", "other", 900, 1)]);
    assert_eq!(best.map(|l| l.character), Some(Some("B".to_string())));
    assert!(best_log(vec![]).is_none());
}

#[test]
fn gina_tokens_expand_to_regex_fragments() {
    assert_eq!(
        expand_gina_tokens("{C} hits {S1} for {N>=100} and {L} {COUNTER}"),
        r".+? hits .+? for \d+ and .+ \d+"
    );
    assert_eq!(expand_gina_tokens("{X} stays"), "{X} stays");
    assert_eq!(gina_plain_to_regex("{C} hits you for {N} points."), r"^.+? hits you for \d+ points\.$");
    assert_eq!(gina_plain_to_regex("a (b)"), r"^a \(b\)$");
}

#[test]
fn atomic_groups_become_plain_groups() {
    assert_eq!(fix_atomic_groups("a(?>b(c)d)e"), "a(?:b(c)d)e");
    assert_eq!(fix_atomic_groups("(?>x(?>y))"), "(?:x(?:y))");
    assert_eq!(fix_atomic_groups(r"(?>a\)b)"), r"(?:a\)b)");
    assert_eq!(fix_atomic_groups("(?>open"), "(?>open");
    assert_eq!(fix_atomic_groups("plain"), "plain");
}

const SHARE_XML: &str = r#"<?xml version="1.0" encoding="utf-8"?>
<SharedData>
  <TriggerGroups>
    <TriggerGroup>
      <Name>Raid</Name>
      <Triggers>
        <Trigger>
          <Name>Enrage</Name>
          <TriggerText>{S} has become ENRAGED.</TriggerText>
          <EnableRegex>False</EnableRegex>
          <UseText>True</UseText>
          <DisplayText>Enrage!</DisplayText>
          <TimerType>Timer</TimerType>
          <TimerMillisecondDuration>12500</TimerMillisecondDuration>
          <TimerName>Enrage</TimerName>
        </Trigger>
        <Trigger>
          <Name>Lookbehind</Name>
          <TriggerText>(?&lt;=x)y</TriggerText>
          <EnableRegex>True</EnableRegex>
          <UseText>True</UseText>
        </Trigger>
      </Triggers>
      <TriggerGroups>
        <TriggerGroup>
          <Name>Adds</Name>
          <Triggers>
            <Trigger>
              <Name>Add up</Name>
              <TriggerText>An add appears</TriggerText>
              <UseTextToVoice>True</UseTextToVoice>
              <TextToVoiceText>add up</TextToVoiceText>
            </Trigger>
          </Triggers>
        </TriggerGroup>
      </TriggerGroups>
    </TriggerGroup>
  </TriggerGroups>
</SharedData>"#;

#[test]
fn imports_share_data_groups_and_triggers() {
    let lib = import_gina_package(SHARE_XML, &vec![]).expect("import");
    assert_eq!(lib.groups.len(), 2);

    let raid = &lib.groups[0];
    assert_eq!(raid.id, "c8a23798f757");
    assert_eq!(raid.name, "Raid");
    assert!(!raid.enabled);
    assert_eq!(raid.triggers.len(), 1);
    let enrage = &raid.triggers[0];
    assert_eq!(enrage.id, "c8a23798f757-0");
    assert_eq!(enrage.search, r"^.+? has become ENRAGED\.$");
    assert!(enrage.use_regex);
    assert_eq!(enrage.display_text.as_deref(), Some("Enrage!"));
    assert_eq!(enrage.timer_seconds, Some(12));
    assert_eq!(enrage.timer_name.as_deref(), Some("Enrage"));
    assert_eq!(enrage.speak, None);

    let adds = &lib.groups[1];
    assert_eq!(adds.id, "0ea6f5a4553d");
    assert_eq!(adds.name, "Raid / Adds");
    let add = &adds.triggers[0];
    assert_eq!(add.search, "An add appears");
    assert!(!add.use_regex);
    assert_eq!(add.speak.as_deref(), Some("add up"));
    assert_eq!(add.display_text.as_deref(), Some("add up"));
    assert_eq!(add.timer_seconds, None);
}

#[test]
fn import_reports_unparsable_xml() {
    match import_gina_package("<SharedData><TriggerGroups>", &vec![]) {
        Err(e) => assert!(e.starts_with("xml parse: ")),
        Ok(_) => panic!("broken XML imported"),
    }
}

#[test]
fn merge_replaces_by_id_and_appends_new_groups() {
    let group = |id: &str, name: &str| TriggerGroup { id: id.into(), name: name.into(), enabled: true, triggers: vec![] };
    let base = TriggerLibrary { groups: vec![group("a", "A"), group("b", "B")] };
    let imported = TriggerLibrary { groups: vec![group("b", "B2"), group("c", "C")] };
    let merged = merge_libraries(&base, imported);
    let names: Vec<&str> = merged.groups.iter().map(|g| g.name.as_str()).collect();
    assert_eq!(names, vec!["A", "B2", "C"]);
}

#[test]
fn spell_pattern_escapes_the_spell_name() {
    assert_eq!(
        you_hit_by_spell_pattern("Dr. Odium"),
        r"^You hit ([\w -'`]+) for [\d,]+ points of \w+ damage by Dr\. Odium(?: [IVX]+)?\.$"
    );
}

#[test]
fn repeats_inside_the_debounce_window_are_silent() {
    let mut engine = TriggerEngine::new(one_group("Warnings", vec![plain("pain", "sharp pain", "Ouch")]));
    assert_eq!(engine.process_action_at("You feel a sharp pain.", 10_000).len(), 1);
    assert!(engine.process_action_at("You feel a sharp pain.", 11_999).is_empty());
    assert_eq!(engine.process_action_at("You feel a sharp pain.", 12_000).len(), 1);
}

#[test]
fn odium_land_counts_only_within_the_cast_window() {
    let dots = || {
        let mut lib = one_group("Classes / Shaman / Damage Over Time", vec![]);
        assert_eq!(ensure_shaman_dots(&mut lib), 3);
        lib
    };
    let mut engine = TriggerEngine::new(dots());
    engine.process_action_at("You begin casting Odium II.", 1_000);
    assert_eq!(engine.process_action_at("a bat staggers under a dark curse.", 8_999).len(), 1);

    let mut late = TriggerEngine::new(dots());
    late.process_action_at("You begin casting Odium II.", 1_000);
    assert!(late.process_action_at("a bat staggers under a dark curse.", 9_000).is_empty());
}

#[test]
fn invalid_regex_triggers_never_fire() {
    let mut bad = plain("bad", "([unclosed", "Never");
    bad.use_regex = true;
    let mut engine = TriggerEngine::new(one_group("G", vec![bad]));
    assert!(engine.process_action("([unclosed").is_empty());
}

#[test]
fn timer_names_take_regex_captures() {
    let mut t = plain("slow", r"^(.+) yawns\.$", "${1} slowed");
    t.use_regex = true;
    t.timer_seconds = Some(30);
    t.timer_name = Some("Slow - ${1}".into());
    let mut engine = TriggerEngine::new(one_group("G", vec![t]));
    let out = engine.process_action_at("a gnoll yawns.", 5_000);
    assert_eq!(out.len(), 1);
    let timer = out[0].started_timer.as_ref().expect("timer");
    assert_eq!(timer.name, "Slow - a gnoll");
    assert_eq!(timer.ends_ms, 35_000);
    assert_eq!(timer.captures, vec!["a gnoll".to_string()]);
}

#[test]
fn new_triggers_and_groups_get_fresh_ids() {
    let a = Trigger::default();
    let b = Trigger::default();
    assert_eq!(a.id.len(), 36);
    assert_ne!(a.id, b.id);
    assert_eq!(a.name, "New trigger");
    assert_eq!(TriggerGroup::default().id.len(), 36);
}

#[test]
fn class_pack_fixes_are_idempotent() {
    let mut lib = TriggerLibrary {
        groups: vec![
            TriggerGroup { id: "d".into(), name: "Classes / Shaman / Damage Over Time".into(), enabled: true, triggers: vec![] },
            TriggerGroup { id: "w".into(), name: "Classes / Shaman / Warnings".into(), enabled: true, triggers: vec![] },
            TriggerGroup { id: "b".into(), name: "Classes / Shaman / Buffs / Self".into(), enabled: true, triggers: vec![] },
            TriggerGroup { id: "m".into(), name: "Classes / Enchanter / Crowd Control".into(), enabled: true, triggers: vec![] },
        ],
    };
    ensure_shaman_dots(&mut lib);
    ensure_shaman_warnings(&mut lib);
    ensure_shaman_buffs(&mut lib);
    ensure_eql_mez_timers(&mut lib);
    ensure_divine_invulnerability(&mut lib);
    let once = shown(&lib);
    assert_eq!(ensure_shaman_dots(&mut lib), 0);
    assert_eq!(ensure_shaman_warnings(&mut lib), 0);
    assert_eq!(ensure_shaman_buffs(&mut lib), 0);
    assert_eq!(ensure_eql_mez_timers(&mut lib), 0);
    assert_eq!(ensure_divine_invulnerability(&mut lib), 0);
    assert_eq!(shown(&lib), once);
}

#[test]
fn demoting_twice_changes_nothing_more() {
    let mut pack = starter_pack(TriggerLibrary { groups: vec![] }, &vec![]);
    demote_optional_essentials(&mut pack);
    let once = shown(&pack);
    assert_eq!(demote_optional_essentials(&mut pack), 0);
    assert_eq!(shown(&pack), once);
}

#[test]
fn stripping_permanent_buffs_twice_strips_nothing_more() {
    let mut timed = plain("1", "You feel righteous.", "Yaulp");
    timed.name = "Yaulp II".into();
    timed.timer_seconds = Some(24);
    timed.timer_name = Some("Yaulp".into());
    let mut lib = one_group("Paladin", vec![timed]);
    let spells = vec!["Yaulp II".to_string()];
    assert_eq!(strip_permanent_buff_timers(&mut lib, &spells), 1);
    assert_eq!(lib.groups[0].triggers[0].timer_seconds, None);
    let once = shown(&lib);
    assert_eq!(strip_permanent_buff_timers(&mut lib, &spells), 0);
    assert_eq!(shown(&lib), once);
}

#[test]
fn loading_applies_one_shot_upgrades_once() {
    let mut timed = plain("1", "You feel righteous.", "Yaulp");
    timed.name = "Yaulp".into();
    timed.timer_seconds = Some(24);
    let saved = one_group("Paladin", vec![timed]);
    let mut flags = MigrationFlags {
        eql_compat_permanent_v1: false,
        eql_tts_v1: false,
        eql_essentials_opt_in_v1: false,
        eql_essentials_gameplay_v2: false,
    };
    let (lib, dirty) = migrate_library(&saved, &mut flags, &vec!["Yaulp".to_string()], &TriggerLibrary { groups: vec![] })
        .expect("small library");
    assert!(dirty);
    assert!(flags.eql_compat_permanent_v1 && flags.eql_tts_v1);
    assert!(flags.eql_essentials_opt_in_v1 && flags.eql_essentials_gameplay_v2);
    let paladin = lib.groups.iter().find(|g| g.name == "Paladin").expect("kept");
    assert_eq!(paladin.triggers[0].timer_seconds, None);
    assert!(lib.groups.iter().any(|g| g.name == "EQL Essentials / Core" && g.enabled));

    // With the one-shot upgrades recorded, a permanent buff timer added later stays.
    let mut later = plain("2", "You feel blessed.", "Blessing");
    later.name = "Yaulp".into();
    later.timer_seconds = Some(24);
    let mut again = lib.clone();
    again.groups.push(TriggerGroup { id: "x".into(), name: "Extra".into(), enabled: true, triggers: vec![later] });
    let (lib2, _) = migrate_library(&again, &mut flags, &vec!["Yaulp".to_string()], &TriggerLibrary { groups: vec![] })
        .expect("small library");
    let extra = lib2.groups.iter().find(|g| g.name == "Extra").expect("kept");
    assert_eq!(extra.triggers[0].timer_seconds, Some(24));
}

#[test]
fn checked_starter_pack_matches_the_starter_pack() {
    let checked = try_starter_pack(TriggerLibrary { groups: vec![] }, &vec![]).expect("fits");
    let plain_pack = starter_pack(TriggerLibrary { groups: vec![] }, &vec![]);
    assert_eq!(shown(&checked), shown(&plain_pack));
    assert!(checked.groups.len() >= 5);
}

#[test]
fn daemon_replies_give_their_body_or_why_not() {
    assert_eq!(http_reply_body("HTTP/1.1 200 OK\r\nContent-Type: json\r\n\r\n  [1]  "), Ok("[1]".to_string()));
    assert_eq!(http_reply_body("HTTP/1.0 200 OK\r\n\r\n{}"), Ok("{}".to_string()));
    assert_eq!(
        http_reply_body("HTTP/1.1 404 Not Found\r\nX: y\r\n\r\nnope"),
        Err("kokoro http failed: HTTP/1.1 404 Not Found".to_string())
    );
    assert_eq!(http_reply_body("HTTP/1.1 200 OK\r\n\r\n   "), Err("kokoro http empty reply".to_string()));
    assert_eq!(http_reply_body("garbage"), Err("kokoro http bad reply".to_string()));
}

#[test]
fn gtp_archives_pick_the_share_file() {
    let names = |v: &[&str]| v.iter().map(|s| s.to_string()).collect::<Vec<String>>();
    assert_eq!(share_data_entry(&names(&["readme.txt", "other.XML", "pack/ShareData.xml"])), Some(2));
    assert_eq!(share_data_entry(&names(&["readme.txt", "other.XML", "more.xml"])), Some(1));
    assert_eq!(share_data_entry(&names(&["readme.txt"])), None);
}

#[test]
fn chime_presets_in_menu_order() {
    let presets = alert_sound_presets();
    assert_eq!(presets.len(), 14);
    assert_eq!(presets[0].id, "glass");
    assert_eq!(presets[13].label, "Basso");
}

#[test]
fn chime_settings_name_their_files() {
    let none: Vec<String> = vec![];
    assert_eq!(sound_path_candidates(" /tmp/x.wav ", Platform::MacOs, true), vec!["/tmp/x.wav".to_string()]);
    assert_eq!(
        sound_path_candidates("Glass", Platform::MacOs, false),
        vec!["/System/Library/Sounds/Glass.aiff".to_string()]
    );
    assert_eq!(sound_path_candidates("none", Platform::Windows, true), none);
    assert_eq!(sound_path_candidates("ping", Platform::Other, false), none);
}

#[test]
fn query_values_decode_and_round_trip() {
    assert_eq!(urlencoding_decode("a+b%26c%2F%C3%A9~"), "a b&c/é~");
    assert_eq!(urlencoding_decode("%zz"), "%zz");
    assert_eq!(urlencoding_decode("50%"), "50%");
    assert_eq!(urlencoding_decode("%+5"), "\u{5}");
    assert_eq!(urlencoding_decode("%4a%4A"), "JJ");
    for text in ["Out of mana", "Grüße & 100% / ok?", "", "+%+"] {
        assert_eq!(urlencoding_decode(&urlencoding_encode(text)), text);
    }
}

#[test]
fn alerts_play_named_chimes_and_speak_trimmed_text() {
    assert_eq!(plan_alert(Some("ping"), Some("  Out of mana ")), (Some("ping".to_string()), Some("Out of mana".to_string())));
    assert_eq!(plan_alert(Some("NONE"), Some("   ")), (None, None));
    assert_eq!(plan_alert(None, None), (None, None));
    assert_eq!(plan_alert(Some(" "), Some("x")), (None, Some("x".to_string())));
}

#[test]
fn merging_the_same_import_twice_changes_nothing() {
    let group = |id: &str, name: &str| TriggerGroup { id: id.into(), name: name.into(), enabled: true, triggers: vec![] };
    let base = TriggerLibrary { groups: vec![group("a", "A"), group("b", "B")] };
    let imported = TriggerLibrary { groups: vec![group("b", "B2"), group("c", "C"), group("b", "B3")] };
    let once = merge_libraries(&base, imported.clone());
    let names: Vec<&str> = once.groups.iter().map(|g| g.name.as_str()).collect();
    assert_eq!(names, vec!["A", "B3", "C"]);
    let twice = merge_libraries(&once, imported);
    assert_eq!(shown(&twice), shown(&once));
}

#[test]
fn essentials_are_completed_and_the_legacy_group_dropped() {
    let mut zoning = plain("eql-essentials-zoning", "LOADING, PLEASE WAIT...", "Zoning");
    zoning.comments = Some("kept".into());
    let mut lib = TriggerLibrary {
        groups: vec![
            TriggerGroup { id: "eql-essentials".into(), name: "EQL Essentials".into(), enabled: true, triggers: vec![] },
            TriggerGroup { id: "eql-essentials-core".into(), name: "Old core".into(), enabled: false, triggers: vec![zoning] },
            TriggerGroup { id: "mine".into(), name: "Mine".into(), enabled: true, triggers: vec![] },
        ],
    };
    assert!(ensure_essentials(&mut lib) > 0);
    assert!(!lib.groups.iter().any(|g| g.id == "eql-essentials" || g.name == "EQL Essentials"));
    let names: Vec<&str> = lib.groups.iter().map(|g| g.name.as_str()).collect();
    assert_eq!(
        names,
        vec![
            "EQL Essentials / Core",
            "EQL Essentials / Combat",
            "EQL Essentials / Danger",
            "EQL Essentials / Fades",
            "EQL Essentials / Social",
            "Mine"
        ]
    );
    let core = &lib.groups[0];
    assert!(core.enabled);
    assert_eq!(core.triggers.len(), 8);
    assert_eq!(core.triggers[0].comments.as_deref(), Some("kept"));
    assert!(lib.groups[1].enabled && lib.groups[2].enabled && lib.groups[3].enabled);
    assert!(!lib.groups[4].enabled);
}

#[test]
fn saved_voice_settings_fill_defaults_and_sync() {
    let blank = VoiceSlots { voice_id: "".into(), voice_gender: "male".into(), voice_male: " ".into(), voice_female: "".into() };
    let saved = blank.saved_voice_slots();
    assert_eq!(saved.voice_id, "am_michael");
    assert_eq!(saved.voice_gender, "male");
    assert_eq!(saved.voice_male, "am_michael");
    assert_eq!(saved.voice_female, "bf_isabella");

    let chosen = VoiceSlots { voice_id: " bf_emma ".into(), voice_gender: "male".into(), voice_male: "am_puck".into(), voice_female: "".into() };
    let saved = chosen.saved_voice_slots();
    assert_eq!(saved.voice_id, "bf_emma");
    assert_eq!(saved.voice_gender, "female");
    assert_eq!(saved.voice_female, "bf_emma");
    assert_eq!(saved.voice_male, "am_puck");
}

fn zip_of(entries: &[(&str, &str)]) -> Vec<u8> {
    let mut writer = zip::ZipWriter::new(std::io::Cursor::new(Vec::new()));
    for (name, text) in entries {
        writer.start_file(*name, zip::write::SimpleFileOptions::default()).expect("entry");
        writer.write_all(text.as_bytes()).expect("write");
    }
    writer.finish().expect("finish").into_inner()
}

#[test]
fn gtp_packs_import_their_share_file() {
    let bytes = zip_of(&[("readme.txt", "hi"), ("other.XML", "<x/>"), ("pack/ShareData.xml", SHARE_XML)]);
    assert_eq!(share_xml_of_gtp(&bytes).as_deref(), Ok(SHARE_XML));
    let lib = import_gina_gtp(&bytes, &vec![]).expect("import");
    assert_eq!(lib.groups.len(), 2);
    assert_eq!(lib.groups[0].id, "c8a23798f757");
    assert!(lib.groups.iter().all(|g| !g.enabled));

    let fallback = zip_of(&[("readme.txt", "hi"), ("Triggers.XML", "<SharedData/>")]);
    assert_eq!(share_xml_of_gtp(&fallback).as_deref(), Ok("<SharedData/>"));
    assert_eq!(import_gina_gtp(&fallback, &vec![]).map(|l| l.groups.len()), Ok(0));
}

#[test]
fn gtp_packs_report_why_they_cannot_be_read() {
    let no_xml = zip_of(&[("readme.txt", "hi")]);
    assert_eq!(share_xml_of_gtp(&no_xml), Err("No XML found inside .gtp".to_string()));
    match import_gina_gtp(b"not a zip archive", &vec![]) {
        Err(e) => assert!(e.starts_with("zip: ")),
        Ok(_) => panic!("garbage imported"),
    }
    let broken = zip_of(&[("ShareData.xml", "<SharedData><TriggerGroups>")]);
    match import_gina_gtp(&broken, &vec![]) {
        Err(e) => assert!(e.starts_with("xml parse: ")),
        Ok(_) => panic!("broken XML imported"),
    }
}

#[test]
fn starter_pack_on_a_small_base_leads_with_armed_essentials() {
    let cleric = TriggerGroup {
        id: "c".into(),
        name: "Classes / Cleric".into(),
        enabled: false,
        triggers: vec![plain("heal", "You feel better.", "Healed")],
    };
    let pack = starter_pack(TriggerLibrary { groups: vec![cleric] }, &vec![]);
    assert!(pack.groups[0].name.starts_with("EQL Essentials /"));
    assert!(pack.groups[0].enabled);
    for (name, on) in [
        ("EQL Essentials / Core", true),
        ("EQL Essentials / Combat", true),
        ("EQL Essentials / Danger", true),
        ("EQL Essentials / Fades", true),
        ("EQL Essentials / Social", false),
    ] {
        assert!(pack.groups.iter().any(|g| g.name == name && g.enabled == on), "{name}");
    }
    assert!(pack.groups.iter().any(|g| g.name == "Classes / Cleric" && !g.enabled));
}

#[test]
fn gina_token_digits_follow_unicode_digits() {
    assert_eq!(expand_gina_tokens("{S\u{0663}} and {N>=\u{0663}\u{0664}}"), r".+? and \d+");
    assert_eq!(gina_plain_to_regex("{S\u{0663}} hits"), r"^.+? hits$");
    assert_eq!(expand_gina_tokens("{Sx}"), "{Sx}");
}

#[test]
fn fallback_voices_agree_with_gender_from_id() {
    for v in fallback_voice_catalog() {
        assert_eq!(voice_gender_from_id(&v.id).as_str(), v.gender, "{}", v.id);
    }
}

fn ids_of(lib: &TriggerLibrary) -> Vec<String> {
    lib.groups.iter().map(|g| g.id.clone()).collect()
}

#[test]
fn merging_empty_or_self_gives_the_library_back() {
    let lib = TriggerLibrary {
        groups: vec![
            TriggerGroup { id: "a".into(), name: "A".into(), enabled: true, triggers: vec![] },
            TriggerGroup { id: "b".into(), name: "B".into(), enabled: false, triggers: vec![] },
        ],
    };
    let empty = TriggerLibrary { groups: vec![] };
    assert_eq!(ids_of(&merge_libraries(&lib, empty.clone())), vec!["a", "b"]);
    let into_empty = merge_libraries(&empty, lib.clone());
    assert_eq!(ids_of(&into_empty), vec!["a", "b"]);
    assert!(into_empty.groups[0].enabled && !into_empty.groups[1].enabled);
    let with_self = merge_libraries(&lib, lib.clone());
    assert_eq!(ids_of(&with_self), vec!["a", "b"]);
    assert_eq!(with_self.groups[1].name, "B");
}

#[test]
fn ensure_essentials_keeps_other_groups_and_existing_triggers() {
    let custom = Trigger {
        id: "my-core-trigger".into(),
        name: "Mine".into(),
        enabled: false,
        search: "my line".into(),
        use_regex: false,
        display_text: None,
        timer_seconds: None,
        timer_name: None,
        early_end: vec![],
        sound: None,
        speak: None,
        tts_enabled: false,
        comments: None,
    };
    let mut lib = TriggerLibrary {
        groups: vec![
            TriggerGroup { id: "mine".into(), name: "Mine".into(), enabled: true, triggers: vec![custom.clone()] },
            TriggerGroup {
                id: "eql-essentials-core".into(),
                name: "EQL Essentials / Core".into(),
                enabled: false,
                triggers: vec![custom.clone()],
            },
            TriggerGroup { id: "other".into(), name: "Other".into(), enabled: false, triggers: vec![] },
        ],
    };
    ensure_essentials(&mut lib);
    let others: Vec<String> = lib
        .groups
        .iter()
        .filter(|g| !g.id.starts_with("eql-essentials") && !g.name.starts_with("EQL Essentials"))
        .map(|g| g.id.clone())
        .collect();
    assert_eq!(others, vec!["mine", "other"]);
    let core = lib.groups.iter().find(|g| g.id == "eql-essentials-core").expect("core");
    assert_eq!(core.triggers[0].id, "my-core-trigger");
    assert!(!core.triggers[0].enabled);
    assert!(core.triggers.len() > 1);
}
