use dedent_paste::karabiner::{
    backup_file_name, build_asset, build_rule, build_shell_command, install_rule, parse_config,
    rule_from_template,
    rule_targets_dedent_paste, shell_quote, stable_binary_path, to_karabiner_json,
    uninstall_rule, InstallOutcome, KarabinerError, UninstallOutcome, ASSET_FILE_NAME,
    BINARY_KEYWORD, RULE_TEMPLATE,
};
use dedent_paste::json::clone_json;
use dedent_paste::JsonValue;

/// The library's JSON value for a serde_json document.
fn convert(v: serde_json::Value) -> JsonValue {
    match v {
        serde_json::Value::Null => JsonValue::Null,
        serde_json::Value::Bool(b) => JsonValue::Bool(b),
        serde_json::Value::Number(n) => JsonValue::Number(n.to_string()),
        serde_json::Value::String(s) => JsonValue::String(s),
        serde_json::Value::Array(a) => JsonValue::Array(a.into_iter().map(convert).collect()),
        serde_json::Value::Object(m) => {
            JsonValue::Object(m.into_iter().map(|(k, x)| (k, convert(x))).collect())
        }
    }
}

/// Builds the library's JSON value from JSON text.
fn js(text: &str) -> JsonValue {
    convert(serde_json::from_str(text).unwrap())
}

fn field<'a>(v: &'a JsonValue, key: &str) -> &'a JsonValue {
    match v {
        JsonValue::Object(fields) => &fields.iter().find(|(k, _)| k == key).unwrap().1,
        _ => panic!("not an object"),
    }
}

fn item(v: &JsonValue, i: usize) -> &JsonValue {
    match v {
        JsonValue::Array(items) => &items[i],
        _ => panic!("not an array"),
    }
}

fn items(v: &JsonValue) -> &Vec<JsonValue> {
    match v {
        JsonValue::Array(items) => items,
        _ => panic!("not an array"),
    }
}

fn text(v: &JsonValue) -> &str {
    match v {
        JsonValue::String(s) => s,
        _ => "",
    }
}

fn config_with_rules(selected_rules: &str, other_rules: &str) -> JsonValue {
    js(&format!(
        r#"{{
            "profiles": [
                {{
                    "name": "Work",
                    "selected": false,
                    "complex_modifications": {{ "rules": [{other_rules}] }}
                }},
                {{
                    "name": "Default profile",
                    "selected": true,
                    "complex_modifications": {{ "rules": [{selected_rules}] }}
                }}
            ]
        }}"#
    ))
}

fn shell_rule_text(description: &str, command: &str) -> String {
    format!(
        r#"{{
            "description": "{description}",
            "manipulators": [{{
                "type": "basic",
                "from": {{ "key_code": "v", "modifiers": {{ "mandatory": ["option"] }} }},
                "to": [{{ "shell_command": "{command}" }}]
            }}]
        }}"#
    )
}

fn shell_rule(description: &str, command: &str) -> JsonValue {
    js(&shell_rule_text(description, command))
}

fn rule_commands(config: &JsonValue, profile_index: usize) -> Vec<String> {
    let profile = item(field(config, "profiles"), profile_index);
    let rules = field(field(profile, "complex_modifications"), "rules");
    items(rules)
        .iter()
        .map(|rule| {
            let m = item(field(rule, "manipulators"), 0);
            text(field(item(field(m, "to"), 0), "shell_command")).to_string()
        })
        .collect()
}

fn rule_for(path: &str) -> JsonValue {
    build_rule(path).unwrap().1
}

#[test]
fn template_parses_and_points_at_install_path() {
    let (title, rule) = build_rule("/opt/homebrew/bin/dedent-paste").unwrap();

    assert_eq!(title, "Dedent paste");
    let m = item(field(&rule, "manipulators"), 0);
    assert_eq!(
        text(field(item(field(m, "to"), 0), "shell_command")),
        ". \"$HOME/.config/dedent-paste/env\" 2>/dev/null; exec /opt/homebrew/bin/dedent-paste"
    );
    assert_eq!(text(field(field(m, "from"), "key_code")), "v");
    assert_eq!(
        field(field(field(m, "from"), "modifiers"), "mandatory"),
        &js(r#"["left_option"]"#)
    );
    assert!(rule_targets_dedent_paste(&rule));
}

#[test]
fn asset_wraps_rule_with_title() {
    let (title, rule) = build_rule("/usr/local/bin/dedent-paste").unwrap();
    let asset = build_asset(&title, &rule);

    assert_eq!(text(field(&asset, "title")), "Dedent paste");
    assert_eq!(items(field(&asset, "rules")).len(), 1);
    assert_eq!(item(field(&asset, "rules"), 0), &rule);
}

#[test]
fn shell_command_quotes_paths_with_spaces() {
    let command = build_shell_command("/Users/Some One/bin/dedent-paste").unwrap();
    assert!(command.ends_with("exec '/Users/Some One/bin/dedent-paste'"));

    let command = build_shell_command("/it's/dedent-paste").unwrap();
    assert!(command.ends_with(r"exec '/it'\''s/dedent-paste'"));
}

#[test]
fn shell_quote_leaves_safe_paths_alone() {
    assert_eq!(
        shell_quote("/opt/homebrew/bin/dedent-paste"),
        "/opt/homebrew/bin/dedent-paste"
    );
    assert_eq!(shell_quote("a b"), "'a b'");
    assert_eq!(shell_quote("$HOME/x"), "'$HOME/x'");
    assert_eq!(shell_quote(""), "''");
}

#[test]
fn cellar_paths_become_opt_paths() {
    assert_eq!(
        stable_binary_path("/opt/homebrew/Cellar/dedent-paste/0.3.2/bin/dedent-paste"),
        "/opt/homebrew/opt/dedent-paste/bin/dedent-paste"
    );
    assert_eq!(
        stable_binary_path("/usr/local/Cellar/dedent-paste/0.3.2_1/bin/dedent-paste"),
        "/usr/local/opt/dedent-paste/bin/dedent-paste"
    );
    assert_eq!(
        stable_binary_path("/opt/homebrew/bin/dedent-paste"),
        "/opt/homebrew/bin/dedent-paste"
    );
    assert_eq!(
        stable_binary_path("/Users/me/.local/bin/dedent-paste"),
        "/Users/me/.local/bin/dedent-paste"
    );
    // Too short to be a Cellar layout: leave untouched.
    assert_eq!(
        stable_binary_path("/x/Cellar/dedent-paste"),
        "/x/Cellar/dedent-paste"
    );
}

#[test]
fn detection_uses_shell_command_not_description() {
    let renamed = shell_rule("My paste hotkey", "exec /somewhere/dedent-paste");
    assert!(rule_targets_dedent_paste(&renamed));

    let impostor = shell_rule("Option+V：執行 dedent-paste", "open -a Finder");
    assert!(!rule_targets_dedent_paste(&impostor));

    let no_shell = js(r#"{
        "description": "Caps to Esc",
        "manipulators": [{
            "type": "basic",
            "from": { "key_code": "caps_lock" },
            "to": [{ "key_code": "escape" }]
        }]
    }"#);
    assert!(!rule_targets_dedent_paste(&no_shell));
}

#[test]
fn detection_accepts_single_object_to() {
    let rule = js(r#"{
        "description": "x",
        "manipulators": [{
            "type": "basic",
            "from": { "key_code": "v" },
            "to": { "shell_command": "$HOME/.local/bin/dedent-paste" }
        }]
    }"#);
    assert!(rule_targets_dedent_paste(&rule));
}

#[test]
fn install_appends_when_no_rule_exists() {
    let mut config = config_with_rules(&shell_rule_text("Other", "open -a Finder"), "");
    let rule = rule_for("/opt/homebrew/bin/dedent-paste");

    let outcome = install_rule(&mut config, rule).unwrap();

    assert_eq!(outcome.profile_name, "Default profile");
    assert_eq!(outcome.replaced, 0);
    let commands = rule_commands(&config, 1);
    assert_eq!(commands.len(), 2);
    assert_eq!(commands[0], "open -a Finder");
    assert!(commands[1].ends_with("exec /opt/homebrew/bin/dedent-paste"));
    // Non-selected profile untouched.
    assert!(rule_commands(&config, 0).is_empty());
}

#[test]
fn install_replaces_existing_rule_in_place_and_drops_duplicates() {
    let selected = [
        shell_rule_text(
            "Old",
            "exec /Users/me/projects/dedent-paste/target/release/dedent-paste",
        ),
        shell_rule_text("Other", "open -a Finder"),
        shell_rule_text("Stale duplicate", "$HOME/.local/bin/dedent-paste"),
    ]
    .join(",");
    let mut config = config_with_rules(&selected, "");
    let rule = rule_for("/opt/homebrew/bin/dedent-paste");

    let outcome = install_rule(&mut config, rule).unwrap();

    assert_eq!(outcome.replaced, 2);
    let commands = rule_commands(&config, 1);
    assert_eq!(commands.len(), 2);
    assert!(commands[0].ends_with("exec /opt/homebrew/bin/dedent-paste"));
    assert_eq!(commands[1], "open -a Finder");
}

#[test]
fn install_creates_missing_complex_modifications() {
    let mut config = js(r#"{ "profiles": [{ "name": "Fresh", "selected": true }] }"#);
    let rule = rule_for("/opt/homebrew/bin/dedent-paste");

    let outcome = install_rule(&mut config, rule).unwrap();

    assert_eq!(outcome.profile_name, "Fresh");
    assert_eq!(rule_commands(&config, 0).len(), 1);
}

#[test]
fn install_falls_back_to_first_profile_when_none_selected() {
    let mut config = js(r#"{ "profiles": [{ "name": "A" }, { "name": "B" }] }"#);
    let rule = rule_for("/opt/homebrew/bin/dedent-paste");

    let outcome = install_rule(&mut config, rule).unwrap();

    assert_eq!(outcome.profile_name, "A");
}

#[test]
fn install_rejects_configs_without_profiles() {
    let rule = rule_for("/opt/homebrew/bin/dedent-paste");

    assert_eq!(
        install_rule(&mut js(r#"{ "profiles": [] }"#), rule_for("/opt/homebrew/bin/dedent-paste")),
        Err(KarabinerError::NoProfiles)
    );
    assert!(matches!(
        install_rule(&mut js(r#"{ "global": {} }"#), rule),
        Err(KarabinerError::InvalidConfig(_))
    ));
}

#[test]
fn install_reports_malformed_rule_containers() {
    let mut config =
        js(r#"{ "profiles": [{ "name": "P", "complex_modifications": { "rules": 3 } }] }"#);
    let before = clone_json(&config);
    assert_eq!(
        install_rule(&mut config, rule_for("/bin/dedent-paste")),
        Err(KarabinerError::InvalidConfig(
            "complex_modifications.rules is not an array".to_string()
        ))
    );
    assert_eq!(config, before);

    let mut config = js(r#"{ "profiles": [{ "name": "P", "complex_modifications": [] }] }"#);
    assert_eq!(
        install_rule(&mut config, rule_for("/bin/dedent-paste")),
        Err(KarabinerError::InvalidConfig(
            "complex_modifications is not an object".to_string()
        ))
    );
    let mut config = js(r#"{ "profiles": [7] }"#);
    assert_eq!(
        install_rule(&mut config, rule_for("/bin/dedent-paste")),
        Err(KarabinerError::InvalidConfig("profile is not an object".to_string()))
    );
}

#[test]
fn install_names_unnamed_profiles() {
    let mut config = js(r#"{ "profiles": [{ "selected": true }] }"#);
    let outcome = install_rule(&mut config, rule_for("/bin/dedent-paste")).unwrap();
    assert_eq!(
        outcome,
        InstallOutcome {
            profile_name: "(unnamed)".to_string(),
            replaced: 0
        }
    );
}

#[test]
fn uninstall_removes_from_every_profile() {
    let selected = [
        shell_rule_text("Other", "open -a Finder"),
        shell_rule_text("Renamed", "exec /opt/homebrew/bin/dedent-paste"),
    ]
    .join(",");
    let mut config = config_with_rules(
        &selected,
        &shell_rule_text("Old", "$HOME/.local/bin/dedent-paste"),
    );

    let outcome = uninstall_rule(&mut config).unwrap();

    assert_eq!(outcome.total_removed(), 2);
    assert_eq!(
        outcome.profiles,
        vec![("Work".to_string(), 1), ("Default profile".to_string(), 1)]
    );
    assert_eq!(rule_commands(&config, 0), Vec::<String>::new());
    assert_eq!(
        rule_commands(&config, 1),
        vec!["open -a Finder".to_string()]
    );
}

#[test]
fn uninstall_is_a_no_op_without_matching_rules() {
    let mut config = config_with_rules(&shell_rule_text("Other", "open -a Finder"), "");
    let before = clone_json(&config);

    let outcome = uninstall_rule(&mut config).unwrap();

    assert_eq!(outcome.total_removed(), 0);
    assert!(outcome.profiles.is_empty());
    assert_eq!(config, before);
}

#[test]
fn uninstall_rejects_configs_without_profiles() {
    let mut config = js(r#"{ "global": {} }"#);
    assert_eq!(
        uninstall_rule(&mut config),
        Err(KarabinerError::InvalidConfig("profiles is not an array".to_string()))
    );
    let outcome = uninstall_rule(&mut js(r#"{ "profiles": [] }"#)).unwrap();
    assert_eq!(outcome, UninstallOutcome { profiles: vec![] });
}

#[test]
fn karabiner_json_uses_four_space_indent() {
    let value = js(r#"{ "a": { "b": [1, "  keep leading spaces"] } }"#);
    let text = to_karabiner_json(&value);

    assert_eq!(
        text,
        "{\n    \"a\": {\n        \"b\": [\n            1,\n            \"  keep leading spaces\"\n        ]\n    }\n}\n"
    );
    assert_eq!(js(&text), value);
}

#[test]
fn template_errors_are_reported() {
    assert_eq!(
        rule_from_template(js(r#"{ "title": "T", "rules": [] }"#), "/bin/dedent-paste"),
        Err(KarabinerError::InvalidTemplate("missing rules[0]".to_string()))
    );
    assert_eq!(
        rule_from_template(js(r#"{ "rules": [{ "x": 1 }] }"#), "/bin/dedent-paste"),
        Err(KarabinerError::InvalidTemplate("missing manipulators".to_string()))
    );
    assert_eq!(
        rule_from_template(
            js(r#"{ "rules": [{ "manipulators": [{ "to": [{ "key_code": "a" }] }] }] }"#),
            "/bin/dedent-paste"
        ),
        Err(KarabinerError::InvalidTemplate(
            "no shell_command found in template".to_string()
        ))
    );
    let (title, rule) = rule_from_template(
        js(r#"{ "rules": [{ "manipulators": [{ "to": { "shell_command": "old" } }] }] }"#),
        "/bin/dedent-paste",
    )
    .unwrap();
    assert_eq!(title, "Dedent paste");
    assert_eq!(
        rule,
        js(r#"{ "manipulators": [{ "to": { "shell_command": ". \"$HOME/.config/dedent-paste/env\" 2>/dev/null; exec /bin/dedent-paste" } }] }"#)
    );
}

#[test]
fn constants_name_the_rule_and_its_asset() {
    assert_eq!(BINARY_KEYWORD, "dedent-paste");
    assert_eq!(ASSET_FILE_NAME, "paste-dedent-plain-text.json");
    assert!(RULE_TEMPLATE.contains("left_option"));
}

#[test]
fn install_twice_equals_install_once() {
    let mut once = config_with_rules(&shell_rule_text("Other", "open -a Finder"), "");
    install_rule(&mut once, rule_for("/opt/homebrew/bin/dedent-paste")).unwrap();
    let mut twice = clone_json(&once);
    let outcome = install_rule(&mut twice, rule_for("/opt/homebrew/bin/dedent-paste")).unwrap();
    assert_eq!(outcome.replaced, 1);
    assert_eq!(twice, once);
}

#[test]
fn uninstall_after_install_keeps_other_rules() {
    let mut config = config_with_rules(&shell_rule_text("Other", "open -a Finder"), "");
    let before = rule_commands(&config, 1);
    install_rule(&mut config, rule_for("/opt/homebrew/bin/dedent-paste")).unwrap();
    uninstall_rule(&mut config).unwrap();
    assert_eq!(rule_commands(&config, 1), before);
    let again = uninstall_rule(&mut config).unwrap();
    assert_eq!(again.total_removed(), 0);
}

#[test]
fn backup_names_use_the_timestamp_digits() {
    assert_eq!(
        backup_file_name("2025-08-25T01:02:03Z", 0),
        "karabiner.json.bak-20250825010203"
    );
    assert_eq!(
        backup_file_name("2025-08-25T01:02:03Z", 2),
        "karabiner.json.bak-20250825010203-2"
    );
    assert_eq!(backup_file_name("", 0), "karabiner.json.bak-");
}

#[test]
fn shell_quote_escapes_single_quotes() {
    assert_eq!(shell_quote("it's"), r"'it'\''s'");
    assert_eq!(shell_quote("'"), r"''\'''");
    assert_eq!(shell_quote("/a/b's c"), r"'/a/b'\''s c'");
}

#[test]
fn karabiner_errors_have_readable_messages() {
    assert_eq!(
        KarabinerError::InvalidTemplate("missing rules[0]".to_string()).message(),
        "built-in Karabiner rule template is invalid: missing rules[0]"
    );
    assert_eq!(
        KarabinerError::InvalidConfig("profiles is not an array".to_string()).message(),
        "karabiner.json has an unexpected structure: profiles is not an array"
    );
    assert_eq!(
        KarabinerError::NoProfiles.message(),
        "karabiner.json does not contain any profiles"
    );
    assert_eq!(
        KarabinerError::NonUtf8Path("/x".to_string()).message(),
        "executable path is not valid UTF-8: /x"
    );
}

#[test]
fn stable_path_is_the_same_for_every_version() {
    let old = stable_binary_path("/opt/homebrew/Cellar/dedent-paste/0.3.2/bin/dedent-paste");
    let new = stable_binary_path("/opt/homebrew/Cellar/dedent-paste/0.5.2_1/bin/dedent-paste");
    assert_eq!(old, new);
    assert_eq!(
        stable_binary_path("relative/Cellar/f/1.0/bin/x"),
        stable_binary_path("relative/Cellar/f/2.0/bin/x")
    );
    assert_eq!(
        stable_binary_path("./Cellar/f/1.0/bin/x"),
        "./opt/f/bin/x"
    );
}

#[test]
fn configs_are_parsed_into_documents() {
    let text = r#"{ "profiles": [{ "name": "Default", "selected": true }], "n": 1.5 }"#;
    assert_eq!(parse_config(text).unwrap(), js(text));
    assert!(parse_config("{ not json").is_err());
    assert!(parse_config("").is_err());
}

#[test]
fn uninstall_reports_whether_anything_was_removed() {
    let none = UninstallOutcome { profiles: vec![] };
    assert!(!none.removed_any());
    let zero = UninstallOutcome { profiles: vec![("Default".to_string(), 0)] };
    assert!(!zero.removed_any());
    let some = UninstallOutcome {
        profiles: vec![("A".to_string(), 0), ("B".to_string(), 2)],
    };
    assert!(some.removed_any());
    let huge = UninstallOutcome {
        profiles: vec![("A".to_string(), usize::MAX), ("B".to_string(), usize::MAX)],
    };
    assert!(huge.removed_any());
}

#[test]
fn karabiner_json_reads_back_as_the_document() {
    let value = js(
        r#"{ "a": [1, -9223372036854775808, 18446744073709551615, true, null],
             "b": { "s": "line\nbreak \"quoted\" \\ tab\t é" }, "z": {} }"#,
    );
    let text = to_karabiner_json(&value);
    assert_eq!(parse_config(&text).unwrap(), value);
    // Members out of serde_json's order come back sorted.
    let unsorted = JsonValue::Object(vec![
        ("b".to_string(), JsonValue::Null),
        ("a".to_string(), JsonValue::Null),
    ]);
    assert_eq!(
        parse_config(&to_karabiner_json(&unsorted)).unwrap(),
        JsonValue::Object(vec![
            ("a".to_string(), JsonValue::Null),
            ("b".to_string(), JsonValue::Null),
        ])
    );
}

#[test]
fn installed_containers_keep_keys_in_order() {
    let mut config = js(r#"{ "profiles": [{ "name": "P", "selected": true, "virtual_hid_keyboard": {} }] }"#);
    install_rule(&mut config, rule_for("/opt/homebrew/bin/dedent-paste")).unwrap();
    let keys: Vec<&str> = match item(field(&config, "profiles"), 0) {
        JsonValue::Object(members) => members.iter().map(|(k, _)| k.as_str()).collect(),
        _ => panic!("profile is not an object"),
    };
    assert_eq!(keys, vec!["complex_modifications", "name", "selected", "virtual_hid_keyboard"]);
    assert_eq!(parse_config(&to_karabiner_json(&config)).unwrap(), config);
}

#[test]
fn documents_nested_too_deep_do_not_read_back() {
    let mut deep = JsonValue::Null;
    for _ in 0..127 {
        deep = JsonValue::Array(vec![deep]);
    }
    let text = to_karabiner_json(&deep);
    assert_eq!(parse_config(&text).unwrap(), deep);
    let deeper = JsonValue::Array(vec![deep]);
    assert!(parse_config(&to_karabiner_json(&deeper)).is_err());
}
