use signal_timeline::settings::{conversion_command, dotted_extension, is_dataset_path,
    matching_scripts, parse_extensions, plan_conversion, plan_import, read_extension,
    script_handles, text_ends_with, ConversionScriptSetting, ImportPlan, UserSettings};

fn script(name: &str, extensions: &[&str]) -> ConversionScriptSetting {
    ConversionScriptSetting {
        name: name.to_string(),
        script_path: format!("scripts/{}.py", name),
        extensions: extensions.iter().map(|e| e.to_string()).collect(),
    }
}

fn settings(scripts: Vec<ConversionScriptSetting>) -> UserSettings {
    UserSettings { python_path: "python3".to_string(), conversion_scripts: scripts }
}

#[test]
fn default_settings() {
    let s = UserSettings::default();
    assert_eq!(s.python_path, "python3");
    assert_eq!(
        s.conversion_scripts,
        vec![ConversionScriptSetting {
            name: "Default Conversion".to_string(),
            script_path: "scripts/convert.py".to_string(),
            extensions: vec![".log".to_string(), ".txt".to_string()],
        }]
    );
}

#[test]
fn dataset_paths_end_in_json() {
    assert!(is_dataset_path("run.json"));
    assert!(is_dataset_path("/tmp/RUN.JSON"));
    assert!(is_dataset_path(".json"));
    assert!(!is_dataset_path("run.jsonl"));
    assert!(!is_dataset_path("json"));
    assert!(!is_dataset_path("run.log"));
    assert!(!is_dataset_path(""));
}

#[test]
fn ends_with_compares_tails() {
    assert!(text_ends_with("abc", "bc"));
    assert!(text_ends_with("abc", "abc"));
    assert!(text_ends_with("abc", ""));
    assert!(text_ends_with("", ""));
    assert!(!text_ends_with("abc", "ab"));
    assert!(!text_ends_with("bc", "abc"));
    assert!(text_ends_with("naïve é", "ve é"));
}

#[test]
fn extensions_get_their_dot() {
    assert_eq!(dotted_extension("LOG"), ".log");
    assert_eq!(dotted_extension("txt"), ".txt");
    assert_eq!(dotted_extension(""), "");
}

#[test]
fn fields_become_extensions() {
    assert_eq!(read_extension("  LOG "), Some(".log".to_string()));
    assert_eq!(read_extension(".Txt"), Some(".txt".to_string()));
    assert_eq!(read_extension("   "), None);
    assert_eq!(read_extension(""), None);
    assert_eq!(read_extension("."), Some(".".to_string()));
}

#[test]
fn extension_lists_are_read_field_by_field() {
    assert_eq!(parse_extensions(".log, TXT ,,  , .Csv"), vec![".log", ".txt", ".csv"]);
    assert_eq!(parse_extensions(""), Vec::<String>::new());
    assert_eq!(parse_extensions(",,,"), Vec::<String>::new());
    assert_eq!(parse_extensions("log"), vec![".log"]);
    assert_eq!(parse_extensions("log,"), vec![".log"]);
    assert_eq!(parse_extensions(",log"), vec![".log"]);
    assert_eq!(parse_extensions("a b, c"), vec![".a b", ".c"]);
}

#[test]
fn scripts_match_by_lowercase_extension() {
    let s = script("a", &[".LOG", ".txt"]);
    assert!(script_handles(&s, ".log"));
    assert!(script_handles(&s, ".txt"));
    assert!(!script_handles(&s, ".LOG"));
    assert!(!script_handles(&s, "log"));
    assert!(!script_handles(&script("b", &[]), ".log"));
    assert!(script_handles(&script("c", &[""]), ""));
}

#[test]
fn candidates_keep_their_places() {
    let scripts = vec![
        script("a", &[".log"]),
        script("b", &[".csv"]),
        script("c", &[".txt", ".Log"]),
        script("d", &[]),
    ];
    assert_eq!(matching_scripts(&scripts, ".log"), vec![0, 2]);
    assert_eq!(matching_scripts(&scripts, ".csv"), vec![1]);
    assert_eq!(matching_scripts(&scripts, ".bin"), Vec::<usize>::new());
    assert_eq!(matching_scripts(&Vec::new(), ".log"), Vec::<usize>::new());
}

#[test]
fn plans_for_candidates() {
    assert_eq!(plan_conversion(vec![], ".bin".to_string()), ImportPlan::NoScript(".bin".to_string()));
    assert_eq!(plan_conversion(vec![4], ".log".to_string()), ImportPlan::Run(4));
    assert_eq!(plan_conversion(vec![0, 2], ".log".to_string()), ImportPlan::Ask(vec![0, 2]));
}

#[test]
fn import_plans() {
    let s = settings(vec![script("a", &[".log"]), script("b", &[".csv", ".log"])]);
    assert_eq!(plan_import(&s, "/data/run.JSON", "JSON"), ImportPlan::Load);
    assert_eq!(plan_import(&s, "/data/run.csv", "csv"), ImportPlan::Run(1));
    assert_eq!(plan_import(&s, "/data/run.LOG", "LOG"), ImportPlan::Ask(vec![0, 1]));
    assert_eq!(plan_import(&s, "/data/run.bin", "bin"), ImportPlan::NoScript(".bin".to_string()));
    assert_eq!(plan_import(&s, "/data/run", ""), ImportPlan::NoScript("".to_string()));
    assert_eq!(
        plan_import(&UserSettings::default(), "notes.TXT", "TXT"),
        ImportPlan::Run(0)
    );
}

#[test]
fn command_line_is_joined_by_spaces() {
    assert_eq!(
        conversion_command("python3", "scripts/convert.py", "/tmp/run.log"),
        "python3 scripts/convert.py /tmp/run.log"
    );
    assert_eq!(conversion_command("", "", ""), "  ");
}
