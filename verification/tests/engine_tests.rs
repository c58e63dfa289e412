use eql_alerts::engine::TriggerEngine;
use eql_alerts::model::{Trigger, TriggerGroup, TriggerLibrary};
use eql_alerts::starter::starter_pack;

fn now_ms() -> u64 {
    std::time::SystemTime::now()
        .duration_since(std::time::UNIX_EPOCH)
        .map(|d| d.as_millis() as u64)
        .unwrap_or(0)
}

fn flying_kick_trigger() -> Trigger {
    Trigger {
        id: "24fc739023d9-2".into(),
        name: "Flying Kick Cooldown".into(),
        enabled: true,
        search: "(You kick .+? for \\d+ poin(t|ts) of damage.|You try to kick .+?, but (miss|(.+? (ripostes|dodges|parries)|.+?'s magical skin absorbs the blow))!)".into(),
        use_regex: true,
        display_text: None,
        timer_seconds: Some(4),
        timer_name: Some("Flying Kick!".into()),
        early_end: vec![],
        sound: None,
        speak: Some("Flying Kick Cooldown".into()),
        tts_enabled: true,
        comments: None,
    }
}

#[test]
fn plain_search_fires_text() {
    let lib = TriggerLibrary {
        groups: vec![TriggerGroup {
            id: "g".into(),
            name: "G".into(),
            enabled: true,
            triggers: vec![Trigger {
                id: "zoning".into(),
                name: "Zoning".into(),
                enabled: true,
                search: "LOADING, PLEASE WAIT...".into(),
                use_regex: false,
                display_text: Some("Zoning…".into()),
                timer_seconds: None,
                timer_name: None,
                early_end: vec![],
                sound: None,
                speak: None,
                tts_enabled: true,
                comments: None,
            }],
        }],
    };
    let mut engine = TriggerEngine::new(lib);
    let actions = engine.process_action("LOADING, PLEASE WAIT...");
    assert!(actions.iter().any(|a| {
        a.alert
            .as_ref()
            .map(|al| al.text.contains("Zoning"))
            .unwrap_or(false)
    }));
}

#[test]
fn test_fire_shows_toast_and_timer() {
    let mut engine = TriggerEngine::new(TriggerLibrary::default());
    engine.set_character(Some("Francis".into()));
    let trigger = Trigger {
        id: "mez".into(),
        name: "Mesmerize".into(),
        enabled: false,
        search: r"^(.+) has been mesmerized\.$".into(),
        use_regex: true,
        display_text: Some("Mezzed ${1}".into()),
        timer_seconds: Some(24),
        timer_name: Some("Mesmerize - ${1}".into()),
        early_end: vec![],
        sound: None,
        speak: Some("Mesmerize on ${1}".into()),
        tts_enabled: true,
        comments: None,
    };
    let action = engine.test_fire(
        &trigger,
        Some("a froglok tuk rider has been mesmerized."),
    );
    let alert = action.alert.expect("alert");
    assert_eq!(alert.text, "Mezzed a froglok tuk rider");
    assert_eq!(
        action.speak.as_deref(),
        Some("Mesmerize on a froglok tuk rider")
    );
    let timer = action.started_timer.expect("timer");
    assert_eq!(timer.name, "Mesmerize - a froglok tuk rider");
    assert_eq!(timer.duration_secs, 24);
    assert_eq!(engine.snapshot().recent_alerts.len(), 1);
    assert_eq!(engine.snapshot().timers.len(), 1);
}

#[test]
fn early_end_clears_timer() {
    let lib = TriggerLibrary {
        groups: vec![TriggerGroup {
            id: "g".into(),
            name: "G".into(),
            enabled: true,
            triggers: vec![Trigger {
                id: "fear".into(),
                name: "Fear".into(),
                enabled: true,
                search: "begins to cast".into(),
                use_regex: false,
                display_text: Some("FEAR".into()),
                timer_seconds: Some(30),
                timer_name: Some("Fear".into()),
                early_end: vec!["fear has worn off".into()],
                sound: None,
                speak: None,
                tts_enabled: true,
                comments: None,
            }],
        }],
    };
    let mut engine = TriggerEngine::new(lib);
    engine.process_action("A mob begins to cast");
    assert_eq!(engine.snapshot().timers.len(), 1);
    engine.process_action("Your fear has worn off");
    assert!(engine.snapshot().timers.is_empty());
}

#[test]
fn timer_name_expands_capture() {
    let lib = TriggerLibrary {
        groups: vec![TriggerGroup {
            id: "g".into(),
            name: "G".into(),
            enabled: true,
            triggers: vec![Trigger {
                id: "mez".into(),
                name: "Mesmerize".into(),
                enabled: true,
                search: r"^([\w -'`]+) has been mesmerized\.$".into(),
                use_regex: true,
                display_text: Some("".into()),
                timer_seconds: Some(24),
                timer_name: Some("Mesmerize - ${1}".into()),
                early_end: vec![r"^Your Mesmerize spell has worn off\.$".into()],
                sound: Some("none".into()),
                speak: None,
                tts_enabled: false,
                comments: None,
            }],
        }],
    };
    let mut engine = TriggerEngine::new(lib);
    engine.process_action("a goblin has been mesmerized.");
    let timers = engine.snapshot().timers;
    assert_eq!(timers.len(), 1);
    assert_eq!(timers[0].name, "Mesmerize - a goblin");
    assert_eq!(timers[0].duration_secs, 24);
}

#[test]
fn mez_worn_off_clears_soonest_mob_timer() {
    let lib = TriggerLibrary {
        groups: vec![TriggerGroup {
            id: "g".into(),
            name: "G".into(),
            enabled: true,
            triggers: vec![Trigger {
                id: "mez".into(),
                name: "Mesmerize".into(),
                enabled: true,
                search: r"^([\w -'`]+) has been mesmerized\.$".into(),
                use_regex: true,
                display_text: Some("".into()),
                timer_seconds: Some(24),
                timer_name: Some("Mesmerize - ${1}".into()),
                early_end: vec![r"^Your Mesmerize spell has worn off\.$".into()],
                sound: Some("none".into()),
                speak: None,
                tts_enabled: false,
                comments: None,
            }],
        }],
    };
    let mut engine = TriggerEngine::new(lib);
    engine.process_action("a goblin has been mesmerized.");
    engine.process_action("a beetle has been mesmerized.");
    assert_eq!(engine.snapshot().timers.len(), 2);
    // Goblin's timer started first → soonest to expire.
    engine.process_action("Your Mesmerize spell has worn off.");
    let left = engine.snapshot().timers;
    assert_eq!(left.len(), 1);
    assert_eq!(left[0].name, "Mesmerize - a beetle");
}

#[test]
fn slain_early_end_clears_matching_mob_timer() {
    let lib = TriggerLibrary {
        groups: vec![TriggerGroup {
            id: "g".into(),
            name: "G".into(),
            enabled: true,
            triggers: vec![Trigger {
                id: "immo".into(),
                name: "Immolate".into(),
                enabled: true,
                search: r"^([\w -'`]+) is immolated by flame\.$".into(),
                use_regex: true,
                display_text: Some("".into()),
                timer_seconds: Some(60),
                timer_name: Some("Immo - ${1}".into()),
                early_end: vec![
                    r"^(You have slain ${1}|${1} has been slain by (?:[^!]+))\!$".into(),
                ],
                sound: Some("none".into()),
                speak: None,
                tts_enabled: false,
                comments: None,
            }],
        }],
    };
    let mut engine = TriggerEngine::new(lib);
    engine.process_action("a goblin is immolated by flame.");
    engine.process_action("a beetle is immolated by flame.");
    assert_eq!(engine.snapshot().timers.len(), 2);

    engine.process_action("a goblin has been slain by Labn!");
    let left = engine.snapshot().timers;
    assert_eq!(left.len(), 1);
    assert_eq!(left[0].name, "Immo - a beetle");

    engine.process_action("You have slain a beetle!");
    assert!(engine.snapshot().timers.is_empty());
}

#[test]
fn dazzle_cast_overrides_mesmerize_land_duration() {
    let lib = TriggerLibrary {
        groups: vec![TriggerGroup {
            id: "g".into(),
            name: "Classes / Enchanter / Crowd Control".into(),
            enabled: true,
            triggers: vec![
                Trigger {
                    id: "mez".into(),
                    name: "Mesmerize".into(),
                    enabled: true,
                    search: r"^([\w -'`]+) has been mesmerized\.$".into(),
                    use_regex: true,
                    display_text: Some("".into()),
                    timer_seconds: Some(24),
                    timer_name: Some("Mesmerize - ${1}".into()),
                    early_end: vec![r"^Your Mesmerize spell has worn off\.$".into()],
                    sound: Some("none".into()),
                    speak: None,
                    tts_enabled: false,
                    comments: None,
                },
                Trigger {
                    id: "dazzle".into(),
                    name: "Dazzle".into(),
                    enabled: true,
                    search: r"^You begin casting Dazzle\.$".into(),
                    use_regex: true,
                    display_text: Some("".into()),
                    timer_seconds: None,
                    timer_name: Some("Dazzle - ${1}".into()),
                    early_end: vec![r"^Your Dazzle spell has worn off\.$".into()],
                    sound: Some("none".into()),
                    speak: None,
                    tts_enabled: false,
                    comments: None,
                },
            ],
        }],
    };
    let mut engine = TriggerEngine::new(lib);
    engine.process_action("You begin casting Dazzle.");
    engine.process_action("a goblin has been mesmerized.");
    let timers = engine.snapshot().timers;
    assert_eq!(timers.len(), 1);
    assert_eq!(timers[0].name, "Dazzle - a goblin");
    assert_eq!(timers[0].duration_secs, 96);

    engine.process_action("Your Dazzle spell has worn off.");
    assert!(engine.snapshot().timers.is_empty());
}

#[test]
fn slowed_ignores_other_players_drowsy_yawns() {
    let lib = TriggerLibrary {
        groups: vec![TriggerGroup {
            id: "warn".into(),
            name: "Classes / Shaman / Warnings".into(),
            enabled: true,
            triggers: vec![Trigger {
                id: "eql-shm-slow-landed".into(),
                name: "Slowed".into(),
                enabled: true,
                search: r"^([\w -'`]+)(?: yawns|'s motions slow as a plague of insects chews at their skin)\.$"
                    .into(),
                use_regex: true,
                display_text: Some("${1} Slowed".into()),
                timer_seconds: None,
                timer_name: None,
                early_end: vec![],
                sound: None,
                speak: Some("${1} Slowed".into()),
                tts_enabled: true,
                comments: None,
            }],
        }],
    };
    let mut engine = TriggerEngine::new(lib);

    // Party Drowsy — shared yawns line must not alert.
    assert!(engine
        .process_action("a shin ghoul knight yawns.")
        .is_empty());

    engine.process_action("You begin casting Togor's Insects IV.");
    let yours = engine.process_action("a vampire bat yawns.");
    assert_eq!(yours.len(), 1);
    assert_eq!(yours[0].alert.as_ref().map(|a| a.text.as_str()), Some("a vampire bat Slowed"));
}

#[test]
fn crowd_control_ignores_other_players_mez() {
    let lib = TriggerLibrary {
        groups: vec![TriggerGroup {
            id: "cc".into(),
            name: "Classes / Enchanter / Crowd Control".into(),
            enabled: true,
            triggers: vec![Trigger {
                id: "mez".into(),
                name: "Mesmerize/Mesmerization".into(),
                enabled: true,
                search: r"^([\w -'`]+) has been mesmerized\.$".into(),
                use_regex: true,
                display_text: None,
                timer_seconds: Some(24),
                timer_name: Some("Mesmerize - ${1}".into()),
                early_end: vec![],
                sound: Some("none".into()),
                speak: None,
                tts_enabled: false,
                comments: None,
            }],
        }],
    };
    let mut engine = TriggerEngine::new(lib);

    assert!(engine
        .process_action("a shin ghoul knight has been mesmerized.")
        .is_empty());
    assert!(engine.snapshot().timers.is_empty());

    engine.process_action("You begin casting Mesmerize IV.");
    let yours = engine.process_action("a shin ghoul knight has been mesmerized.");
    assert_eq!(yours.len(), 1);
    assert_eq!(
        yours[0].started_timer.as_ref().map(|t| t.name.as_str()),
        Some("Mesmerize - a shin ghoul knight")
    );
}

#[test]
fn speak_expands_numeric_capture() {
    let lib = TriggerLibrary {
        groups: vec![TriggerGroup {
            id: "g".into(),
            name: "G".into(),
            enabled: true,
            triggers: vec![Trigger {
                id: "kick".into(),
                name: "Kick".into(),
                enabled: true,
                search: r"You kick .+? for (\d+) points of damage\.".into(),
                use_regex: true,
                display_text: Some("Kick".into()),
                timer_seconds: None,
                timer_name: None,
                early_end: vec![],
                sound: None,
                speak: Some("{N}".into()),
                tts_enabled: true,
                comments: None,
            }],
        }],
    };
    let mut engine = TriggerEngine::new(lib);
    let actions = engine.process_action("You kick a gnoll for 42 points of damage.");
    assert_eq!(actions[0].speak.as_deref(), Some("42"));
}

#[test]
fn character_bound_pet_death() {
    let lib = TriggerLibrary {
        groups: vec![TriggerGroup {
            id: "g".into(),
            name: "G".into(),
            enabled: true,
            triggers: vec![Trigger {
                id: "pet".into(),
                name: "Pet".into(),
                enabled: true,
                search: r"^{C}`s .+ has been slain by".into(),
                use_regex: true,
                display_text: Some("PET DIED".into()),
                timer_seconds: None,
                timer_name: None,
                early_end: vec![],
                sound: None,
                speak: Some("Pet died".into()),
                tts_enabled: true,
                comments: None,
            }],
        }],
    };
    let mut engine = TriggerEngine::new(lib);
    engine.set_character(Some("Kenkyo".into()));
    let hit = engine.process_action("Kenkyo`s warder has been slain by a wan ghoul knight!");
    assert_eq!(hit[0].speak.as_deref(), Some("Pet died"));
    let miss = engine.process_action("Fright pet has been slain by Labn!");
    assert!(miss.is_empty());
}

#[test]
fn stun_does_not_match_cant_cast_while_stunned() {
    let mut lib = starter_pack(TriggerLibrary { groups: vec![] }, &vec![]);
    for g in &mut lib.groups {
        g.enabled = g.id == "eql-essentials-danger";
        for t in &mut g.triggers {
            t.enabled = t.id == "eql-essentials-stunned";
        }
    }
    let mut engine = TriggerEngine::new(lib);
    let false_pos = engine.process_action("You can't cast spells while stunned!");
    assert!(
        !false_pos.iter().any(|a| a.alert.is_some()),
        "substring stun must not match cast-blocked line"
    );
    let hit = engine.process_action("You are stunned!");
    assert!(hit.iter().any(|a| {
        a.speak.as_deref() == Some("Stunned")
            || a.alert
                .as_ref()
                .map(|x| x.text.contains("STUNNED"))
                .unwrap_or(false)
    }));
}

#[test]
fn debounce_suppresses_rapid_repeats() {
    let lib = TriggerLibrary {
        groups: vec![TriggerGroup {
            id: "g".into(),
            name: "G".into(),
            enabled: true,
            triggers: vec![Trigger {
                id: "range".into(),
                name: "Range".into(),
                enabled: true,
                search: "too far away".into(),
                use_regex: false,
                display_text: Some("Out of range".into()),
                timer_seconds: None,
                timer_name: None,
                early_end: vec![],
                sound: None,
                speak: Some("Out of range".into()),
                tts_enabled: true,
                comments: None,
            }],
        }],
    };
    let mut engine = TriggerEngine::new(lib);
    let first = engine.process_action("Your target is too far away, get closer!");
    let second = engine.process_action("Your target is too far away, get closer!");
    assert_eq!(first.iter().filter(|a| a.alert.is_some()).count(), 1);
    assert_eq!(second.iter().filter(|a| a.alert.is_some()).count(), 0);
}

#[test]
fn syncs_ability_cooldown_from_eql_log() {
    let mut engine = TriggerEngine::new(TriggerLibrary { groups: vec![] });
    let actions = engine.process_action(
        "You can use the ability Lay on Hands again in 15 minute(s) 0 seconds.",
    );
    assert_eq!(actions.len(), 1);
    let timer = actions[0].started_timer.as_ref().unwrap();
    assert_eq!(timer.name, "Lay on Hands");
    assert_eq!(timer.duration_secs, 900);
    assert!(actions[0].alert.is_none());
    assert!(actions[0].speak.is_none());

    // Same remaining second → no re-emit noise.
    let again = engine.process_action(
        "You can use the ability Lay on Hands again in 15 minute(s) 0 seconds.",
    );
    assert!(again.is_empty());

    // Tick down → update timer quietly.
    let updated = engine.process_action(
        "You can use the ability Lay on Hands again in 14 minute(s) 59 seconds.",
    );
    assert_eq!(updated.len(), 1);
    assert_eq!(
        updated[0].started_timer.as_ref().unwrap().duration_secs,
        900
    );
    let left = (updated[0].started_timer.as_ref().unwrap().ends_ms
        .saturating_sub(now_ms())
        + 999)
        / 1000;
    assert_eq!(left, 14 * 60 + 59);
}

#[test]
fn clears_ability_timer_when_cooldown_reports_ready() {
    let mut engine = TriggerEngine::new(TriggerLibrary { groups: vec![] });
    engine.process_action(
        "You can use the ability Mend again in 1 minute(s) 8 seconds.",
    );
    assert_eq!(engine.snapshot().timers.len(), 1);
    assert_eq!(engine.snapshot().timers[0].name, "Mend");

    let cleared = engine.process_action(
        "You can use the ability Mend again in 0 minute(s) 0 seconds.",
    );
    assert_eq!(cleared.len(), 1);
    assert!(cleared[0].started_timer.is_none());
    assert_eq!(cleared[0].cleared_timer_ids.len(), 1);
    assert!(engine.snapshot().timers.is_empty());
}

#[test]
fn kick_miss_then_hit_speaks_once_and_no_toast() {
    // EQL logs miss + hit for one Flying Kick; only one callout / timer.
    let lib = TriggerLibrary {
        groups: vec![TriggerGroup {
            id: "monk".into(),
            name: "Monk".into(),
            enabled: true,
            triggers: vec![flying_kick_trigger()],
        }],
    };
    let mut engine = TriggerEngine::new(lib);

    let miss = engine
        .process_action("You try to kick a vis ghoul knight, but miss!");
    assert_eq!(miss.len(), 1);
    assert!(miss[0].alert.is_none(), "cooldown clocks use the timer bar");
    assert_eq!(miss[0].speak.as_deref(), Some("Flying Kick Cooldown"));
    assert_eq!(
        miss[0].started_timer.as_ref().map(|t| t.name.as_str()),
        Some("Flying Kick!")
    );

    let hit = engine.process_action(
        "You kick a vis ghoul knight for 161 points of damage. (Critical)",
    );
    assert_eq!(hit.len(), 1);
    assert!(hit[0].alert.is_none());
    assert!(hit[0].speak.is_none(), "second line must not TTS again");
    assert_eq!(
        hit[0].started_timer.as_ref().map(|t| t.name.as_str()),
        Some("Flying Kick!")
    );
    assert_eq!(engine.snapshot().timers.len(), 1);
    assert!(engine.snapshot().recent_alerts.is_empty());
}

#[test]
fn different_timer_names_still_announce() {
    // Multi-mob mez: each target is a different timer name → each speaks.
    let lib = TriggerLibrary {
        groups: vec![TriggerGroup {
            id: "g".into(),
            name: "G".into(),
            enabled: true,
            triggers: vec![Trigger {
                id: "mez".into(),
                name: "Mesmerize".into(),
                enabled: true,
                search: r"^(.+) has been mesmerized\.$".into(),
                use_regex: true,
                display_text: Some("Mezzed ${1}".into()),
                timer_seconds: Some(24),
                timer_name: Some("Mesmerize - ${1}".into()),
                early_end: vec![],
                sound: None,
                speak: Some("Mesmerize on ${1}".into()),
                tts_enabled: true,
                comments: None,
            }],
        }],
    };
    let mut engine = TriggerEngine::new(lib);
    let a = engine.process_action("a beetle has been mesmerized.");
    let b = engine.process_action("a rat has been mesmerized.");
    assert_eq!(a[0].speak.as_deref(), Some("Mesmerize on a beetle"));
    assert_eq!(b[0].speak.as_deref(), Some("Mesmerize on a rat"));
    assert_eq!(a[0].alert.as_ref().map(|x| x.text.as_str()), Some("Mezzed a beetle"));
    assert_eq!(b[0].alert.as_ref().map(|x| x.text.as_str()), Some("Mezzed a rat"));
    assert_eq!(engine.snapshot().timers.len(), 2);
}

#[test]
fn preview_replaces_its_timer_and_keeps_others() {
    let mut engine = TriggerEngine::new(TriggerLibrary::default());
    let mut kick = flying_kick_trigger();
    let mut other = flying_kick_trigger();
    other.id = "other".into();
    other.timer_name = Some("Other".into());
    other.timer_seconds = Some(60);
    engine.test_fire_at(&other, None, 1_000);
    kick.enabled = false;
    let first = engine.test_fire_at(&kick, None, 1_000);
    kick.enabled = true;
    let second = engine.test_fire_at(&kick, None, 2_000);
    let t1 = first.started_timer.expect("first timer");
    let t2 = second.started_timer.expect("second timer");
    assert_eq!(t1.name, "Flying Kick!");
    assert_eq!(t2.name, "Flying Kick!");
    assert_eq!(t2.started_ms, 2_000);
    assert_eq!(t2.ends_ms, 6_000);
    assert_eq!(t2.duration_secs, 4);
    let timers = engine.snapshot().timers;
    assert_eq!(timers.len(), 2);
    assert_eq!(timers.iter().filter(|t| t.name == "Flying Kick!").count(), 1);
    assert_eq!(timers[1].started_ms, 2_000);
    assert!(timers.iter().any(|t| t.name == "Other"));
}

#[test]
fn processing_drops_finished_timers_and_ignores_disabled_triggers() {
    let mut kick = flying_kick_trigger();
    let mut sleeping = flying_kick_trigger();
    sleeping.id = "sleeping".into();
    sleeping.enabled = false;
    sleeping.timer_name = Some("Sleeping".into());
    let lib = TriggerLibrary {
        groups: vec![
            TriggerGroup {
                id: "on".into(),
                name: "On".into(),
                enabled: true,
                triggers: vec![kick.clone(), sleeping],
            },
            TriggerGroup {
                id: "off".into(),
                name: "Off".into(),
                enabled: false,
                triggers: vec![{
                    kick.id = "off-kick".into();
                    kick.timer_name = Some("Off Kick".into());
                    kick
                }],
            },
        ],
    };
    let mut engine = TriggerEngine::new(lib);
    let first = engine.process_action_at("You kick a gnoll for 12 points of damage.", 10_000);
    assert_eq!(first.len(), 1);
    let timer = first[0].started_timer.as_ref().expect("timer");
    assert_eq!(timer.trigger_id, "24fc739023d9-2");
    assert_eq!(timer.ends_ms, 14_000);
    let later = engine.process_action_at("You say, 'hello'", 14_000);
    assert!(later.is_empty());
    assert!(engine.snapshot().timers.is_empty());
}
