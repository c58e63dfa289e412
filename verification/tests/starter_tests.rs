use eql_alerts::engine::TriggerEngine;
use eql_alerts::model::{Trigger, TriggerGroup, TriggerLibrary};
use eql_alerts::starter::{
    apply_gameplay_essentials_defaults, demote_optional_essentials, ensure_divine_invulnerability, ensure_essentials,
    ensure_eql_ability_timers, ensure_eql_disease_dot_timers, ensure_eql_mez_timers,
    ensure_shaman_buffs, ensure_shaman_dots, ensure_shaman_warnings, starter_pack,
};

fn t_regex(
    id: &str,
    name: &str,
    search: &str,
    display: Option<&str>,
    speak: Option<&str>,
    sound: Option<&str>,
    comments: Option<&str>,
) -> Trigger {
    Trigger {
        id: id.to_string(),
        name: name.to_string(),
        enabled: true,
        search: search.to_string(),
        use_regex: true,
        display_text: display.map(|s| s.to_string()),
        timer_seconds: None,
        timer_name: None,
        early_end: vec![],
        sound: sound.map(|s| s.to_string()),
        speak: speak.map(|s| s.to_string()),
        tts_enabled: true,
        comments: comments.map(|s| s.to_string()),
    }
}

fn t_timer_regex(
    id: &str,
    name: &str,
    search: &str,
    display: Option<&str>,
    speak: Option<&str>,
    sound: Option<&str>,
    timer_seconds: u64,
    timer_name: &str,
    early_end: Vec<&str>,
    comments: Option<&str>,
) -> Trigger {
    let mut trigger = t_regex(id, name, search, display, speak, sound, comments);
    trigger.timer_seconds = Some(timer_seconds);
    trigger.timer_name = Some(timer_name.to_string());
    trigger.early_end = early_end.into_iter().map(|s| s.to_string()).collect();
    trigger
}

#[test]
fn ensure_shaman_warnings_fills_missing() {
    let mut lib = TriggerLibrary {
        groups: vec![TriggerGroup {
            id: "class-b61ac75a50".into(),
            name: "Classes / Shaman / Warnings".into(),
            enabled: false,
            triggers: vec![
                t_regex(
                    "837cfbac69da-0",
                    "Slow Wore Off",
                    r"^Your (Walking Sleep|.+? Insects) spell has worn off\.$",
                    Some("Slow off"),
                    Some("Slow off"),
                    None,
                    None,
                ),
                t_regex(
                    "837cfbac69da-1",
                    "Malo Wore Off",
                    r"^Your Mal(ise|aisement|osi|o|osini) spell has worn off\.$",
                    Some("Malo off"),
                    Some("Malo off"),
                    None,
                    None,
                ),
            ],
        }],
    };
    assert_eq!(ensure_shaman_warnings(&mut lib), 6);
    assert_eq!(ensure_shaman_warnings(&mut lib), 0);
    let names: Vec<_> = lib.groups[0]
        .triggers
        .iter()
        .map(|t| t.name.as_str())
        .collect();
    assert_eq!(
        names,
        vec![
            "Slowed",
            "Slow Resisted",
            "Slow Wore Off",
            "Maloed",
            "Malo Resisted",
            "Malo Wore Off",
            "Incapacitate",
            "Incapacitate Resisted",
        ]
    );
}

#[test]
fn ensure_eql_ability_timers_patches_mend_and_loh() {
    let mut lib = TriggerLibrary {
        groups: vec![TriggerGroup {
            id: "cds".into(),
            name: "Classes / Monk / Cooldowns".into(),
            enabled: false,
            triggers: vec![
                Trigger {
                    id: "24fc739023d9-1".into(),
                    name: "Mend Cooldown".into(),
                    enabled: true,
                    search: "mend".into(),
                    use_regex: true,
                    display_text: None,
                    timer_seconds: Some(361),
                    timer_name: Some("Mend".into()),
                    early_end: vec![],
                    sound: None,
                    speak: None,
                    tts_enabled: true,
                    comments: None,
                },
                Trigger {
                    id: "80a4144d8e7f-1".into(),
                    name: "Lay Hands Cooldown".into(),
                    enabled: true,
                    search: "old".into(),
                    use_regex: true,
                    display_text: None,
                    timer_seconds: Some(4320),
                    timer_name: Some("Lay Hands Cooldown".into()),
                    early_end: vec!["^You have been slain".into()],
                    sound: None,
                    speak: None,
                    tts_enabled: true,
                    comments: None,
                },
            ],
        }],
    };
    assert!(ensure_eql_ability_timers(&mut lib) >= 2);
    assert_eq!(lib.groups[0].triggers[0].timer_seconds, Some(90));
    assert_eq!(lib.groups[0].triggers[1].timer_seconds, Some(900));
    assert_eq!(
        lib.groups[0].triggers[1].timer_name.as_deref(),
        Some("Lay on Hands")
    );
    assert_eq!(ensure_eql_ability_timers(&mut lib), 0);
}

#[test]
fn ensure_eql_mez_patches_classic_durations() {
    let mut lib = TriggerLibrary {
        groups: vec![TriggerGroup {
            id: "cc".into(),
            name: "Classes / Enchanter / Crowd Control".into(),
            enabled: false,
            triggers: vec![Trigger {
                id: "k".into(),
                name: "Glamour of Kintaz".into(),
                enabled: true,
                search: "x".into(),
                use_regex: true,
                display_text: None,
                timer_seconds: Some(54),
                timer_name: Some("Kintaz - ${1}".into()),
                early_end: vec![],
                sound: None,
                speak: None,
                tts_enabled: true,
                comments: None,
            }],
        }],
    };
    assert!(ensure_eql_mez_timers(&mut lib) >= 2);
    assert_eq!(lib.groups[0].triggers[0].timer_seconds, Some(30));
    assert!(lib.groups[0].triggers.iter().any(|t| t.id == "eql-dazzle-mez"));
}

#[test]
fn ensure_eql_mez_adds_eql_worn_off_of_target() {
    let mut lib = TriggerLibrary {
        groups: vec![TriggerGroup {
            id: "cc".into(),
            name: "Classes / Enchanter / Crowd Control".into(),
            enabled: false,
            triggers: vec![
                Trigger {
                    id: "e".into(),
                    name: "Entrance".into(),
                    enabled: true,
                    search: "x".into(),
                    use_regex: true,
                    display_text: None,
                    timer_seconds: Some(72),
                    timer_name: Some("Entrance".into()),
                    early_end: vec![],
                    sound: None,
                    speak: None,
                    tts_enabled: true,
                    comments: None,
                },
                Trigger {
                    id: "f".into(),
                    name: "Fascination".into(),
                    enabled: true,
                    search: r"^([\w -'`]+) has been fascinated\.$".into(),
                    use_regex: true,
                    display_text: None,
                    timer_seconds: Some(36),
                    timer_name: Some("Fascination".into()),
                    early_end: vec![],
                    sound: None,
                    speak: None,
                    tts_enabled: true,
                    comments: None,
                },
            ],
        }],
    };
    assert!(ensure_eql_mez_timers(&mut lib) > 0);
    let entrance = lib.groups[0]
        .triggers
        .iter()
        .find(|t| t.name == "Entrance")
        .unwrap();
    assert_eq!(entrance.timer_name.as_deref(), Some("Entrance - ${1}"));
    assert!(entrance
        .early_end
        .iter()
        .any(|e| e.contains("worn off of ${1}")));
    let fasc = lib.groups[0]
        .triggers
        .iter()
        .find(|t| t.name == "Fascination")
        .unwrap();
    assert_eq!(fasc.timer_name.as_deref(), Some("Fascination - ${1}"));
    assert!(fasc
        .early_end
        .iter()
        .any(|e| e.contains("worn off of ${1}")));
}

#[test]
fn ensure_divine_invulnerability_adds_aura_duration() {
    let mut lib = TriggerLibrary {
        groups: vec![
            TriggerGroup {
                id: "c".into(),
                name: "Classes / Cleric / Invulnerability".into(),
                enabled: false,
                triggers: vec![Trigger {
                    id: "cd".into(),
                    name: "Divine Aura Cooldown".into(),
                    enabled: true,
                    search: r"^(The gods have rendered you invulnerable|You have finished memorizing Divine Aura)\.$".into(),
                    use_regex: true,
                    display_text: None,
                    timer_seconds: Some(900),
                    timer_name: Some("Divine Aura Cooldown".into()),
                    early_end: vec![],
                    sound: None,
                    speak: None,
                    tts_enabled: true,
                    comments: None,
                }],
            },
            TriggerGroup {
                id: "p".into(),
                name: "Classes / Paladin / Invulnerability".into(),
                enabled: false,
                triggers: vec![Trigger {
                    id: "pcd".into(),
                    name: "Divine Aura Cooldown".into(),
                    enabled: true,
                    search: "old".into(),
                    use_regex: true,
                    display_text: None,
                    timer_seconds: Some(900),
                    timer_name: Some("Divine Aura Cooldown".into()),
                    early_end: vec![],
                    sound: None,
                    speak: None,
                    tts_enabled: true,
                    comments: None,
                }],
            },
        ],
    };
    assert!(ensure_divine_invulnerability(&mut lib) >= 2);
    for g in &lib.groups {
        assert!(g.triggers.iter().any(|t| {
            t.name == "Divine Aura" && t.timer_seconds == Some(18)
        }));
        let cd = g
            .triggers
            .iter()
            .find(|t| t.name == "Divine Aura Cooldown")
            .unwrap();
        assert!(cd.search.contains("You are surrounded by a divine aura"));
    }
    assert!(lib.groups[0].triggers.iter().any(|t| {
        t.name == "Divine Barrier" && t.timer_seconds == Some(18)
    }));
}

#[test]
fn apply_gameplay_defaults_arms_fight_helpers() {
    let mut lib = starter_pack(TriggerLibrary { groups: vec![] }, &vec![]);
    for g in &mut lib.groups {
        if !g.name.starts_with("EQL Essentials /") {
            continue;
        }
        g.enabled = false;
        for t in &mut g.triggers {
            t.enabled = true;
        }
    }
    let _changed = apply_gameplay_essentials_defaults(&mut lib);
    assert!(lib
        .groups
        .iter()
        .find(|g| g.name == "EQL Essentials / Combat")
        .unwrap()
        .enabled);
    assert!(!lib
        .groups
        .iter()
        .find(|g| g.name == "EQL Essentials / Social")
        .unwrap()
        .enabled);
    let los = lib
        .groups
        .iter()
        .flat_map(|g| g.triggers.iter())
        .find(|t| t.id == "eql-essentials-los")
        .unwrap();
    assert!(!los.enabled);
    assert!(los.tts_enabled);
    assert!(los.speak.is_some());
    let range = lib
        .groups
        .iter()
        .flat_map(|g| g.triggers.iter())
        .find(|t| t.id == "eql-essentials-out-of-range")
        .unwrap();
    assert!(!range.enabled);
    assert!(range.tts_enabled);
    assert!(range.speak.is_some());
}

#[test]
fn demote_optional_essentials_turns_off_non_core() {
    let mut lib = starter_pack(TriggerLibrary { groups: vec![] }, &vec![]);
    for g in &mut lib.groups {
        if g.name.starts_with("EQL Essentials /") {
            g.enabled = true;
        }
    }
    assert!(demote_optional_essentials(&mut lib) >= 1);
    assert!(lib
        .groups
        .iter()
        .find(|g| g.name == "EQL Essentials / Core")
        .unwrap()
        .enabled);
    // demote still treats anything non-Core as optional (legacy one-shot).
    assert!(!lib
        .groups
        .iter()
        .find(|g| g.name == "EQL Essentials / Combat")
        .unwrap()
        .enabled);
}

#[test]
fn ensure_eql_disease_dot_timers_rewrites_shared_fever_line() {
    let mut lib = TriggerLibrary {
        groups: vec![TriggerGroup {
            id: "dots".into(),
            name: "Classes / Shaman / Damage Over Time".into(),
            enabled: true,
            triggers: vec![Trigger {
                id: "dc9fed12dd5a-3".into(),
                name: "Scourge".into(),
                enabled: true,
                search: r"^([\w -'`]+) sweats and shivers, looking feverish\.$".into(),
                use_regex: true,
                display_text: None,
                timer_seconds: Some(126),
                timer_name: Some("Scourge - ${1}".into()),
                early_end: vec![],
                sound: None,
                speak: None,
                tts_enabled: true,
                comments: None,
            }],
        }],
    };
    assert_eq!(ensure_eql_disease_dot_timers(&mut lib), 1);
    assert_eq!(ensure_eql_disease_dot_timers(&mut lib), 0);
    let scourge = &lib.groups[0].triggers[0];
    assert!(scourge.search.contains("by Scourge"));
    assert!(scourge.search.contains(r"(?: [IVX]+)?"));
    assert!(!scourge.search.contains("feverish"));
}

#[test]
fn ensure_eql_disease_dot_timers_rewrites_shared_poison_line() {
    let mut lib = TriggerLibrary {
        groups: vec![TriggerGroup {
            id: "dots".into(),
            name: "Classes / Shaman / Damage Over Time".into(),
            enabled: true,
            triggers: vec![
                Trigger {
                    id: "venom".into(),
                    name: "Venom of the Snake".into(),
                    enabled: true,
                    search: r"^([\w -'`]+) has been poisoned\.$".into(),
                    use_regex: true,
                    display_text: None,
                    timer_seconds: Some(42),
                    timer_name: Some("Venom of the Snake - ${1}".into()),
                    early_end: vec![],
                    sound: None,
                    speak: None,
                    tts_enabled: true,
                    comments: None,
                },
                Trigger {
                    id: "bolt".into(),
                    name: "Envenomed Bolt".into(),
                    enabled: true,
                    search: r"^([\w -'`]+) has been poisoned\.$".into(),
                    use_regex: true,
                    display_text: None,
                    timer_seconds: Some(42),
                    timer_name: Some("Envenomed Bolt - ${1}".into()),
                    early_end: vec![],
                    sound: None,
                    speak: None,
                    tts_enabled: true,
                    comments: None,
                },
            ],
        }],
    };
    assert_eq!(ensure_eql_disease_dot_timers(&mut lib), 2);
    assert_eq!(ensure_eql_disease_dot_timers(&mut lib), 0);
    assert!(lib.groups[0].triggers[0]
        .search
        .contains("by Venom of the Snake"));
    assert!(lib.groups[0].triggers[1]
        .search
        .contains("by Envenomed Bolt"));
    assert!(!lib.groups[0].triggers[0]
        .search
        .contains("has been poisoned"));
    assert!(lib.groups[0].triggers[0]
        .search
        .contains(r"(?: [IVX]+)?"));
}

#[test]
fn ensure_eql_disease_dot_timers_upgrades_rank_suffix() {
    let mut lib = TriggerLibrary {
        groups: vec![TriggerGroup {
            id: "dots".into(),
            name: "Classes / Shaman / Damage Over Time".into(),
            enabled: true,
            triggers: vec![Trigger {
                id: "plague".into(),
                name: "Plague".into(),
                enabled: true,
                search: r"^You hit ([\w -'`]+) for \d+ points of disease damage by Plague\.$"
                    .into(),
                use_regex: true,
                display_text: None,
                timer_seconds: Some(132),
                timer_name: Some("Plague - ${1}".into()),
                early_end: vec![],
                sound: None,
                speak: None,
                tts_enabled: false,
                comments: None,
            }],
        }],
    };
    assert_eq!(ensure_eql_disease_dot_timers(&mut lib), 1);
    assert_eq!(ensure_eql_disease_dot_timers(&mut lib), 0);
    assert!(lib.groups[0].triggers[0]
        .search
        .contains(r"(?: [IVX]+)?"));
}

#[test]
fn ensure_shaman_dots_adds_odium_plague_bolt() {
    let mut lib = TriggerLibrary {
        groups: vec![TriggerGroup {
            id: "dots".into(),
            name: "Classes / Shaman / Damage Over Time".into(),
            enabled: true,
            triggers: vec![Trigger {
                id: "bane".into(),
                name: "Bane of Nife".into(),
                enabled: true,
                search: eql_alerts::tokens::you_hit_by_spell_pattern("Bane of Nife"),
                use_regex: true,
                display_text: None,
                timer_seconds: Some(45),
                timer_name: Some("Bane - ${1}".into()),
                early_end: vec![],
                sound: None,
                speak: None,
                tts_enabled: false,
                comments: None,
            }],
        }],
    };
    assert_eq!(ensure_shaman_dots(&mut lib), 3);
    assert_eq!(ensure_shaman_dots(&mut lib), 0);
    let names: Vec<_> = lib.groups[0]
        .triggers
        .iter()
        .map(|t| t.name.as_str())
        .collect();
    assert!(names.contains(&"Odium"));
    assert!(names.contains(&"Envenomed Bolt"));
    assert!(names.contains(&"Plague"));
}

#[test]
fn starter_scourge_ignores_other_casters_sicken() {
    let scourge = Trigger {
        id: "dc9fed12dd5a-3".into(),
        name: "Scourge".into(),
        enabled: true,
        search: eql_alerts::tokens::you_hit_by_spell_pattern("Scourge"),
        use_regex: true,
        display_text: None,
        timer_seconds: Some(126),
        timer_name: Some("Scourge - ${1}".into()),
        early_end: vec![],
        sound: None,
        speak: None,
        tts_enabled: false,
        comments: None,
    };
    let mut engine = TriggerEngine::new(TriggerLibrary {
        groups: vec![TriggerGroup {
            id: "dots".into(),
            name: "Shaman DoTs".into(),
            enabled: true,
            triggers: vec![scourge],
        }],
    });

    // Other player's Sicken land text used to start Scourge.
    let false_pos = engine.process_action(
        "A zol ghoul knight sweats and shivers, looking feverish.",
    );
    assert!(false_pos.is_empty());
    assert!(engine.snapshot().timers.is_empty());

    let yours = engine.process_action(
        "You hit a zol ghoul knight for 69 points of disease damage by Scourge.",
    );
    assert_eq!(yours.len(), 1);
    assert_eq!(
        yours[0].started_timer.as_ref().map(|t| t.name.as_str()),
        Some("Scourge - a zol ghoul knight")
    );

    let ranked = engine.process_action(
        "You hit a lava guardian for 80 points of disease damage by Scourge IV.",
    );
    assert_eq!(ranked.len(), 1);
    assert_eq!(
        ranked[0].started_timer.as_ref().map(|t| t.name.as_str()),
        Some("Scourge - a lava guardian")
    );
}

#[test]
fn starter_venom_ignores_mob_and_other_player_poison() {
    let venom = Trigger {
        id: "venom".into(),
        name: "Venom of the Snake".into(),
        enabled: true,
        search: eql_alerts::tokens::you_hit_by_spell_pattern("Venom of the Snake"),
        use_regex: true,
        display_text: None,
        timer_seconds: Some(42),
        timer_name: Some("Venom of the Snake - ${1}".into()),
        early_end: vec![],
        sound: None,
        speak: None,
        tts_enabled: false,
        comments: None,
    };
    let mut engine = TriggerEngine::new(TriggerLibrary {
        groups: vec![TriggerGroup {
            id: "dots".into(),
            name: "Shaman DoTs".into(),
            enabled: true,
            triggers: vec![venom],
        }],
    });

    // Mob land on a player, or other player's Envenomed Breath.
    assert!(engine
        .process_action("Kabektik has been poisoned.")
        .is_empty());
    assert!(engine
        .process_action(
            "a zol ghoul knight hit Kabektik for 39 points of poison damage by Venom of the Snake.",
        )
        .is_empty());
    assert!(engine
        .process_action(
            "Jasab hit a vis ghoul knight for 21 points of poison damage by Envenomed Breath.",
        )
        .is_empty());
    assert!(engine.snapshot().timers.is_empty());

    let yours = engine.process_action(
        "You hit a vampire bat for 39 points of poison damage by Venom of the Snake.",
    );
    assert_eq!(yours.len(), 1);
    assert_eq!(
        yours[0].started_timer.as_ref().map(|t| t.name.as_str()),
        Some("Venom of the Snake - a vampire bat")
    );
}

#[test]
fn shaman_odium_plague_bolt_match_ranked_lands() {
    let mut lib = TriggerLibrary {
        groups: vec![TriggerGroup {
            id: "dots".into(),
            name: "Classes / Shaman / Damage Over Time".into(),
            enabled: true,
            triggers: vec![],
        }],
    };
    assert_eq!(ensure_shaman_dots(&mut lib), 3);
    let _ = ensure_eql_disease_dot_timers(&mut lib);
    let mut engine = TriggerEngine::new(lib);

    // Shared land emote — only after your Odium cast.
    assert!(engine
        .process_action("a lava guardian staggers under a dark curse.")
        .is_empty());
    engine.process_action("You begin casting Odium III.");
    let odium = engine
        .process_action("a lava guardian staggers under a dark curse.");
    assert_eq!(odium.len(), 1);
    assert_eq!(
        odium[0].started_timer.as_ref().map(|t| t.name.as_str()),
        Some("Odium - a lava guardian")
    );
    assert_eq!(
        odium[0].speak.as_deref(),
        Some("a lava guardian Odium")
    );

    let bolt = engine.process_action(
        "You hit a lava guardian for 55 points of poison damage by Envenomed Bolt II.",
    );
    assert_eq!(bolt.len(), 1);
    assert_eq!(
        bolt[0].started_timer.as_ref().map(|t| t.name.as_str()),
        Some("Envenomed Bolt - a lava guardian")
    );

    let plague = engine.process_action(
        "You hit a lava guardian for 1,234 points of disease damage by Plague IV.",
    );
    assert_eq!(plague.len(), 1);
    assert_eq!(
        plague[0].started_timer.as_ref().map(|t| t.name.as_str()),
        Some("Plague - a lava guardian")
    );
    assert_eq!(
        plague[0].speak.as_deref(),
        Some("a lava guardian Plagued")
    );
}

#[test]
fn ensure_shaman_dots_enables_plague_tts_and_odium_land() {
    let mut lib = TriggerLibrary {
        groups: vec![TriggerGroup {
            id: "dots".into(),
            name: "Classes / Shaman / Damage Over Time".into(),
            enabled: true,
            triggers: vec![
                Trigger {
                    id: "eql-shaman-odium".into(),
                    name: "Odium".into(),
                    enabled: true,
                    search: eql_alerts::tokens::you_hit_by_spell_pattern("Odium"),
                    use_regex: true,
                    display_text: Some("${1} Odium".into()),
                    timer_seconds: Some(30),
                    timer_name: Some("Odium - ${1}".into()),
                    early_end: vec![],
                    sound: None,
                    speak: Some("${1} Odium".into()),
                    tts_enabled: true,
                    comments: None,
                },
                Trigger {
                    id: "eql-shaman-plague".into(),
                    name: "Plague".into(),
                    enabled: true,
                    search: eql_alerts::tokens::you_hit_by_spell_pattern("Plague"),
                    use_regex: true,
                    display_text: None,
                    timer_seconds: Some(132),
                    timer_name: Some("Plague - ${1}".into()),
                    early_end: vec![],
                    sound: None,
                    speak: None,
                    tts_enabled: false,
                    comments: None,
                },
            ],
        }],
    };
    assert_eq!(ensure_shaman_dots(&mut lib), 3);
    assert_eq!(ensure_shaman_dots(&mut lib), 0);

    let odium = lib.groups[0]
        .triggers
        .iter()
        .find(|t| t.name == "Odium")
        .unwrap();
    assert!(odium.search.contains("staggers under a dark curse"));
    assert!(odium.tts_enabled);

    let plague = lib.groups[0]
        .triggers
        .iter()
        .find(|t| t.name == "Plague")
        .unwrap();
    assert_eq!(plague.speak.as_deref(), Some("${1} Plagued"));
    assert!(plague.tts_enabled);
}

#[test]
fn ensure_shaman_buffs_adds_puma_once() {
    let mut lib = TriggerLibrary {
        groups: vec![TriggerGroup {
            id: "class-68ef1f9bea".into(),
            name: "Classes / Shaman / Buffs / Self".into(),
            enabled: false,
            triggers: vec![t_timer_regex(
                "f0a20f45cc96-4",
                "Spirit of Cheetah",
                r"^You feel the spirit of cheetah enter you\.$",
                None,
                None,
                None,
                48,
                "Spirit of Cheetah",
                vec![r"^The spirit of cheetah fades\.$"],
                None,
            )],
        }],
    };
    assert_eq!(ensure_shaman_buffs(&mut lib), 1);
    assert_eq!(ensure_shaman_buffs(&mut lib), 0);
    let names: Vec<_> = lib.groups[0]
        .triggers
        .iter()
        .map(|t| t.name.as_str())
        .collect();
    assert_eq!(names, vec!["Spirit of Cheetah", "Spirit of the Puma"]);
    let puma = &lib.groups[0].triggers[1];
    assert_eq!(puma.id, "eql-shm-spirit-of-the-puma");
    assert_eq!(puma.timer_seconds, Some(85));
    assert_eq!(puma.speak.as_deref(), Some("Puma"));
    assert!(puma.tts_enabled);
}

#[test]
fn essentials_and_gameplay_defaults_settle_on_a_second_run() {
    let mut lib = TriggerLibrary {
        groups: vec![
            TriggerGroup { id: "mine".into(), name: "Mine".into(), enabled: true, triggers: vec![] },
            TriggerGroup {
                id: "eql-essentials-combat".into(),
                name: "Old combat".into(),
                enabled: false,
                triggers: vec![],
            },
        ],
    };
    assert!(ensure_essentials(&mut lib) > 0);
    assert_eq!(ensure_essentials(&mut lib), 0);
    let _ = apply_gameplay_essentials_defaults(&mut lib);
    assert_eq!(apply_gameplay_essentials_defaults(&mut lib), 0);
}
