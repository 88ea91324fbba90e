use aw_work_sync::config::{
    apply_cli_to_config, backup_path, cache_dir, cache_path, config_dir, config_path,
    config_validation_error, has_conflict, is_placeholder, load_file_config, rotate_backups, BackupStep, CliOutcome, FileConfig, LoadOutcome,
    SheetConfig,
};
use aw_work_sync::provider::{infer_provider, ProviderType};
use serde_yaml::Value;

fn field(v: &Value, name: &str) -> Option<String> {
    v.get(name).and_then(|s| s.as_str()).map(|s| s.to_string())
}

fn read_config(yaml: &str) -> FileConfig {
    let v: Value = serde_yaml::from_str(yaml).unwrap();
    let sheets = match v.get("sheets").and_then(|s| s.as_sequence()) {
        Some(list) => list
            .iter()
            .map(|s| SheetConfig {
                sheet_key: field(s, "sheet_key").unwrap(),
                regex: field(s, "regex").unwrap(),
            })
            .collect(),
        None => vec![],
    };
    FileConfig { sheet_key: field(&v, "sheet_key"), regex: field(&v, "regex"), sheets }
}

fn sheet(key: &str, regex: &str) -> SheetConfig {
    SheetConfig { sheet_key: key.to_string(), regex: regex.to_string() }
}

#[test]
fn test_deserialize_legacy_config() {
    let yaml = r#"
sheet_key: "my-legacy-key"
regex: "my-legacy-regex"
"#;
    let cfg = read_config(yaml);
    assert_eq!(cfg.sheet_key, Some("my-legacy-key".to_string()));
    assert_eq!(cfg.regex, Some("my-legacy-regex".to_string()));
    assert!(cfg.sheets.is_empty());

    let cfg = cfg.normalize();
    assert_eq!(cfg.sheets.len(), 1);
    assert_eq!(cfg.sheets[0].sheet_key, "my-legacy-key");
    assert_eq!(cfg.sheets[0].regex, "my-legacy-regex");
    assert_eq!(cfg.sheet_key, Some("my-legacy-key".to_string()));
    assert_eq!(cfg.regex, Some("my-legacy-regex".to_string()));
}

#[test]
fn test_deserialize_multi_config() {
    let yaml = r#"
sheets:
  - sheet_key: "key-1"
    regex: "regex-1"
  - sheet_key: "key-2"
    regex: "regex-2"
"#;
    let cfg = read_config(yaml);
    assert!(cfg.sheet_key.is_none());
    assert!(cfg.regex.is_none());
    assert_eq!(cfg.sheets.len(), 2);

    let cfg = cfg.normalize();
    assert_eq!(cfg.sheets.len(), 2);
    assert_eq!(cfg.sheets[0].sheet_key, "key-1");
    assert_eq!(cfg.sheets[0].regex, "regex-1");
    assert_eq!(cfg.sheets[1].sheet_key, "key-2");
    assert_eq!(cfg.sheets[1].regex, "regex-2");
    assert_eq!(cfg.sheet_key, Some("key-1".to_string()));
    assert_eq!(cfg.regex, Some("regex-1".to_string()));
}

#[test]
fn test_config_infers_mixed_providers() {
    let yaml = r#"
sheets:
  - sheet_key: your-google-spreadsheet-id
    regex: "work"
  - sheet_key: ~/work-hours.xlsx
    regex: "work"
  - sheet_key: b!driveId/01ABCITEMID
    regex: "work"
"#;
    let cfg = read_config(yaml).normalize();
    assert_eq!(cfg.sheets.len(), 3);

    assert!(matches!(infer_provider(&cfg.sheets[0].sheet_key), ProviderType::Google));
    assert!(matches!(infer_provider(&cfg.sheets[1].sheet_key), ProviderType::ExcelLocal));
    assert!(matches!(infer_provider(&cfg.sheets[2].sheet_key), ProviderType::ExcelOnline));
}

#[test]
fn test_is_placeholder() {
    let cfg_placeholder_legacy = FileConfig {
        sheet_key: Some("your-sheet-key".to_string()),
        regex: Some("your-work-regex".to_string()),
        sheets: vec![],
    };
    assert!(is_placeholder(&cfg_placeholder_legacy));

    let cfg_placeholder_multi = FileConfig {
        sheet_key: None,
        regex: None,
        sheets: vec![
            SheetConfig { sheet_key: "some-key".to_string(), regex: "some-regex".to_string() },
            SheetConfig { sheet_key: "your-sheet-key".to_string(), regex: "some-regex".to_string() },
        ],
    };
    assert!(is_placeholder(&cfg_placeholder_multi));

    let cfg_valid = FileConfig {
        sheet_key: None,
        regex: None,
        sheets: vec![
            SheetConfig { sheet_key: "key-1".to_string(), regex: "regex-1".to_string() },
            SheetConfig { sheet_key: "key-2".to_string(), regex: "regex-2".to_string() },
        ],
    };
    assert!(!is_placeholder(&cfg_valid));
}

#[test]
fn missing_fields_are_no_placeholder() {
    let cfg = FileConfig { sheet_key: None, regex: None, sheets: vec![] };
    assert!(!is_placeholder(&cfg));
    assert_eq!(config_validation_error(&cfg), Some("no sheets configured".to_string()));
    assert!(!has_conflict(&cfg));
    let half = FileConfig { sheet_key: Some("k".to_string()), regex: None, sheets: vec![] };
    let half = half.normalize();
    assert_eq!((half.sheet_key, half.regex, half.sheets.len()), (None, None, 0));
}

#[test]
fn the_list_wins_over_the_single_fields() {
    let cfg = FileConfig {
        sheet_key: Some("old".to_string()),
        regex: Some("old".to_string()),
        sheets: vec![sheet("a", "b"), sheet("c", "d")],
    };
    assert!(has_conflict(&cfg));
    let once = cfg.normalize();
    assert!(!has_conflict(&once));
    assert_eq!(once.sheet_key.as_deref(), Some("a"));
    assert_eq!(once.regex.as_deref(), Some("b"));
    let twice = once.clone().normalize();
    assert_eq!(twice.sheets, once.sheets);
    assert_eq!(twice.sheet_key, once.sheet_key);
    assert_eq!(config_validation_error(&twice), None);
}

#[test]
fn loading_a_config() {
    match load_file_config(None) {
        LoadOutcome::CreateDefault(cfg) => {
            assert!(is_placeholder(&cfg));
            assert_eq!(cfg.sheets, vec![sheet("your-sheet-key", "your-work-regex")]);
        }
        _ => panic!("a default must be written"),
    }
    let fresh = FileConfig::single("your-sheet-key", "r");
    assert!(matches!(load_file_config(Some(fresh)), LoadOutcome::Placeholder));
    let empty = FileConfig { sheet_key: None, regex: None, sheets: vec![] };
    match load_file_config(Some(empty)) {
        LoadOutcome::Invalid(reason) => assert_eq!(reason, "no sheets configured"),
        _ => panic!("must be invalid"),
    }
    match load_file_config(Some(FileConfig::single("k", "r"))) {
        LoadOutcome::Ready(cfg) => assert_eq!(cfg.sheets, vec![sheet("k", "r")]),
        _ => panic!("must be usable"),
    }
}

#[test]
fn applying_the_command_line() {
    assert!(matches!(apply_cli_to_config(None, "k", "r"), CliOutcome::Write(_)));
    let fresh = FileConfig::single("your-sheet-key", "your-work-regex");
    assert!(matches!(apply_cli_to_config(Some(fresh), "k", "r"), CliOutcome::BackUpAndWrite(_)));
    let same_but_unfilled = FileConfig::single("your-sheet-key", "x");
    match apply_cli_to_config(Some(same_but_unfilled), "your-sheet-key", "x") {
        CliOutcome::Write(cfg) => assert_eq!(cfg.sheets, vec![sheet("your-sheet-key", "x")]),
        _ => panic!("must be written"),
    }
    let part = FileConfig {
        sheet_key: None,
        regex: None,
        sheets: vec![sheet("real", "r"), sheet("your-sheet-key", "x")],
    };
    match apply_cli_to_config(Some(part), "k", "r2") {
        CliOutcome::BackUpAndWrite(cfg) => assert_eq!(cfg.sheets, vec![sheet("k", "r2")]),
        _ => panic!("must be backed up"),
    }
    let empty = FileConfig { sheet_key: None, regex: None, sheets: vec![] };
    assert!(matches!(apply_cli_to_config(Some(empty), "k", "r"), CliOutcome::BackUpAndWrite(_)));
    let same = FileConfig { sheet_key: Some("k".into()), regex: Some("r".into()), sheets: vec![] };
    assert!(matches!(apply_cli_to_config(Some(same), "k", "r"), CliOutcome::Keep));
    match apply_cli_to_config(Some(FileConfig::single("k", "r")), "k", "other") {
        CliOutcome::BackUpAndWrite(cfg) => assert_eq!(cfg.sheets, vec![sheet("k", "other")]),
        _ => panic!("must be backed up"),
    }
    let many =
        FileConfig { sheet_key: None, regex: None, sheets: vec![sheet("k", "r"), sheet("l", "s")] };
    assert!(matches!(apply_cli_to_config(Some(many), "k", "r"), CliOutcome::MultipleSheets));
}

#[test]
fn where_files_live() {
    assert_eq!(config_dir("/home/me/.config"), "/home/me/.config/activitywatch/aw-work-sync");
    assert_eq!(
        config_path("/home/me/.config"),
        "/home/me/.config/activitywatch/aw-work-sync/config.yaml"
    );
    assert_eq!(
        cache_path("/c", "host", "a-B_1/é", "a|b"),
        "/c/cache/617c62/query_cache_host_a-B_1_612d425f312fc3a9.json"
    );
    assert_eq!(cache_path("/c", "host", "//", ""), "/c/cache//query_cache_host_hex_2f2f.json");
    assert_ne!(cache_path("/c", "h", "a/b", "r"), cache_path("/c", "h", "ab", "r"));
    assert_ne!(cache_path("/c", "h", "a", "r1"), cache_path("/c", "h", "a", "r2"));
    let long = cache_dir("/c", &"a".repeat(120));
    assert_eq!(
        long,
        format!("/c/cache/{}/{}/{}", "61".repeat(50), "61".repeat(50), "61".repeat(20))
    );
    assert_eq!(cache_dir("/c", &"a".repeat(50)), format!("/c/cache/{}", "61".repeat(50)));
    assert_eq!(backup_path("/c/config.yaml", 3), "/c/config.yaml.3");
}

#[test]
fn backups_move_on() {
    assert_eq!(rotate_backups(false, false, false, false), vec![BackupStep::Rename(0, 1)]);
    assert_eq!(
        rotate_backups(true, true, true, true),
        vec![
            BackupStep::Remove(4),
            BackupStep::Rename(3, 4),
            BackupStep::Rename(2, 3),
            BackupStep::Rename(1, 2),
            BackupStep::Rename(0, 1),
        ]
    );
    assert_eq!(
        rotate_backups(false, true, false, false),
        vec![BackupStep::Rename(2, 3), BackupStep::Rename(0, 1)]
    );
}
