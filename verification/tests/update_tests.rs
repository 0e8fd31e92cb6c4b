use dedent_paste::update::{
    detect_install_method_str, extract_latest_version, github_token, install_method_for_normalized,
    installer_script_url, is_newer_version, is_success_status, latest_version_in, managed_refusal,
    plan_update, update_instruction, version_from_api_reply, version_from_manifest_reply,
    InstallMethod, SemVer, UpdateAction, UpdateOptions,
};
use dedent_paste::JsonValue;

#[test]
fn semver_parses_valid_strings() {
    assert_eq!(
        SemVer::parse("0.5.0"),
        Some(SemVer {
            major: 0,
            minor: 5,
            patch: 0,
            prerelease: None,
        })
    );
    assert_eq!(
        SemVer::parse("v1.2.3"),
        Some(SemVer {
            major: 1,
            minor: 2,
            patch: 3,
            prerelease: None,
        })
    );
    assert_eq!(
        SemVer::parse(" 0.6.0-rc.1 "),
        Some(SemVer {
            major: 0,
            minor: 6,
            patch: 0,
            prerelease: Some("rc.1".to_string()),
        })
    );
}

#[test]
fn semver_rejects_invalid_strings() {
    assert_eq!(SemVer::parse(""), None);
    assert_eq!(SemVer::parse("abc"), None);
    assert_eq!(SemVer::parse("1.2"), None);
    assert_eq!(SemVer::parse("1.2.3.4"), None);
}

#[test]
fn semver_edge_cases() {
    assert_eq!(SemVer::parse("1..3"), None);
    assert_eq!(SemVer::parse("1.2.-3"), None);
    assert_eq!(
        SemVer::parse("1.2.3-"),
        Some(SemVer {
            major: 1,
            minor: 2,
            patch: 3,
            prerelease: Some(String::new()),
        })
    );
    assert_eq!(
        SemVer::parse("1.2.3-a-b"),
        Some(SemVer {
            major: 1,
            minor: 2,
            patch: 3,
            prerelease: Some("a-b".to_string()),
        })
    );
    assert_eq!(SemVer::parse("1.2.18446744073709551616"), None);
}

#[test]
fn version_comparison_logic() {
    assert!(is_newer_version("0.5.0", "0.5.1"));
    assert!(is_newer_version("0.5.0", "v0.5.1"));
    assert!(is_newer_version("0.5.0", "0.6.0"));
    assert!(is_newer_version("0.5.0", "1.0.0"));
    assert!(!is_newer_version("0.5.0", "0.5.0"));
    assert!(!is_newer_version("0.5.1", "0.5.0"));
    assert!(!is_newer_version("1.0.0", "0.9.9"));
    assert!(is_newer_version("0.5.0-alpha", "0.5.0"));
    assert!(!is_newer_version("0.5.0", "0.5.0-alpha"));
}

#[test]
fn prereleases_compare_by_text_and_garbage_is_never_newer() {
    assert!(is_newer_version("0.5.0-alpha", "0.5.0-beta"));
    assert!(!is_newer_version("0.5.0-beta", "0.5.0-alpha"));
    assert!(is_newer_version("0.5.0-rc", "0.5.0-rc.1"));
    assert!(!is_newer_version("junk", "1.0.0"));
    assert!(!is_newer_version("1.0.0", "junk"));
}

#[test]
fn install_method_detection() {
    assert_eq!(
        detect_install_method_str("/opt/homebrew/Cellar/dedent-paste/0.5.0/bin/dedent-paste"),
        InstallMethod::Homebrew
    );
    assert_eq!(
        detect_install_method_str("/opt/homebrew/bin/dedent-paste"),
        InstallMethod::Homebrew
    );
    assert_eq!(
        detect_install_method_str("/usr/local/Cellar/dedent-paste/0.5.0/bin/dedent-paste"),
        InstallMethod::Homebrew
    );
    assert_eq!(
        detect_install_method_str("/home/linuxbrew/.linuxbrew/bin/dedent-paste"),
        InstallMethod::Homebrew
    );
    assert_eq!(
        detect_install_method_str(
            "C:\\Users\\user\\AppData\\Roaming\\npm\\node_modules\\dedent-paste\\bin\\dedent-paste.exe"
        ),
        InstallMethod::Npm
    );
    assert_eq!(
        detect_install_method_str("/home/user/.nvm/versions/node/v20.0.0/bin/dedent-paste"),
        InstallMethod::Npm
    );
    assert_eq!(
        detect_install_method_str("/usr/local/lib/node_modules/dedent-paste/dedent-paste"),
        InstallMethod::Npm
    );
    assert_eq!(
        detect_install_method_str("/Users/will/.cargo/bin/dedent-paste"),
        InstallMethod::Cargo
    );
    assert_eq!(
        detect_install_method_str("C:\\Users\\will\\.cargo\\bin\\dedent-paste.exe"),
        InstallMethod::Cargo
    );
    assert_eq!(
        detect_install_method_str(
            "/Users/will/projects/dedent-paste/target/release/dedent-paste"
        ),
        InstallMethod::LocalBuild
    );
    assert_eq!(
        detect_install_method_str(
            "/Users/will/projects/dedent-paste/target/debug/dedent-paste"
        ),
        InstallMethod::LocalBuild
    );
    assert_eq!(
        detect_install_method_str("/Users/will/.local/bin/dedent-paste"),
        InstallMethod::Standalone
    );
    assert_eq!(
        detect_install_method_str("C:\\Users\\will\\.local\\bin\\dedent-paste.exe"),
        InstallMethod::Standalone
    );
}

#[test]
fn install_method_on_normalized_paths() {
    // Without lowercasing, an upper-case Cellar is not recognised.
    assert_eq!(
        install_method_for_normalized("/usr/local/Cellar/x"),
        InstallMethod::Standalone
    );
    assert_eq!(
        install_method_for_normalized("/usr/local/cellar/x"),
        InstallMethod::Homebrew
    );
    // A local build wins over every other hint.
    assert_eq!(
        install_method_for_normalized("/opt/homebrew/src/target/debug/x"),
        InstallMethod::LocalBuild
    );
}

#[test]
fn extracts_version_from_manifest_json() {
    let manifest = r#"{
        "dist_version": "0.32.0",
        "announcement_tag": "v0.5.0",
        "releases": [
            {
                "app_name": "dedent-paste",
                "app_version": "0.5.0"
            }
        ]
    }"#;
    assert_eq!(extract_latest_version(manifest), Some("0.5.0".to_string()));

    let manifest_no_tag = r#"{
        "releases": [
            {
                "app_name": "dedent-paste",
                "app_version": "0.6.1"
            }
        ]
    }"#;
    assert_eq!(
        extract_latest_version(manifest_no_tag),
        Some("0.6.1".to_string())
    );
}

#[test]
fn extracts_version_from_github_api_json() {
    let api_response = r#"{
        "tag_name": "v0.5.2",
        "name": "0.5.2"
    }"#;
    assert_eq!(
        extract_latest_version(api_response),
        Some("0.5.2".to_string())
    );

    let api_response_no_tag = r#"{
        "name": "v0.7.0"
    }"#;
    assert_eq!(
        extract_latest_version(api_response_no_tag),
        Some("0.7.0".to_string())
    );
}

#[test]
fn extracts_version_handles_malformed_json() {
    assert_eq!(extract_latest_version("invalid json"), None);
    assert_eq!(extract_latest_version("{}"), None);
    assert_eq!(
        extract_latest_version(r#"{"announcement_tag": "not-a-version"}"#),
        None
    );
}

#[test]
fn later_sources_are_used_when_earlier_ones_are_not_versions() {
    assert_eq!(
        extract_latest_version(
            r#"{"announcement_tag": "nightly", "releases": [], "tag_name": 5, "name": "v1.0.0"}"#
        ),
        Some("1.0.0".to_string())
    );
    let value = JsonValue::Object(vec![(
        "tag_name".to_string(),
        JsonValue::String("v2.0.0-rc.1".to_string()),
    )]);
    assert_eq!(latest_version_in(&value), Some("2.0.0-rc.1".to_string()));
    assert_eq!(latest_version_in(&JsonValue::Null), None);
}

#[test]
fn update_plans() {
    let check = UpdateOptions {
        check: true,
        force: false,
    };
    let plain = UpdateOptions::default();
    let force = UpdateOptions {
        check: false,
        force: true,
    };
    assert_eq!(
        plan_update(&check, InstallMethod::Homebrew, true),
        UpdateAction::ReportAvailable
    );
    assert_eq!(
        plan_update(&check, InstallMethod::Standalone, false),
        UpdateAction::ReportUpToDate
    );
    assert_eq!(
        plan_update(&plain, InstallMethod::Standalone, false),
        UpdateAction::AlreadyUpToDate
    );
    assert_eq!(
        plan_update(&force, InstallMethod::Standalone, false),
        UpdateAction::SelfUpdate
    );
    assert_eq!(
        plan_update(&plain, InstallMethod::Npm, true),
        UpdateAction::RefuseManaged
    );
    assert_eq!(
        plan_update(&plain, InstallMethod::Standalone, true),
        UpdateAction::SelfUpdate
    );
    assert!(is_success_status(200));
    assert!(is_success_status(299));
    assert!(!is_success_status(300));
    assert!(!is_success_status(199));
}

#[test]
fn github_token_prefers_the_tool_variable_even_when_blank() {
    let env = |vars: &'static [(&'static str, &'static str)]| {
        move |name: &str| {
            vars.iter()
                .find(|(key, _)| *key == name)
                .map(|(_, value)| value.to_string())
        }
    };
    assert_eq!(
        github_token(env(&[("DEDENT_PASTE_GITHUB_TOKEN", " abc "), ("GITHUB_TOKEN", "x")])),
        Some("abc".to_string())
    );
    assert_eq!(
        github_token(env(&[("GITHUB_TOKEN", "shared")])),
        Some("shared".to_string())
    );
    assert_eq!(
        github_token(env(&[("DEDENT_PASTE_GITHUB_TOKEN", "  "), ("GITHUB_TOKEN", "x")])),
        None
    );
    assert_eq!(github_token(env(&[])), None);
}

#[test]
fn update_instructions_name_the_package_manager() {
    assert_eq!(
        update_instruction(InstallMethod::Homebrew, "/x"),
        "To update, run: brew upgrade dedent-paste"
    );
    assert_eq!(
        update_instruction(InstallMethod::Npm, "/x"),
        "To update, run: npm install -g dedent-paste"
    );
    assert_eq!(
        update_instruction(InstallMethod::Cargo, "/x"),
        "To update, run: cargo install --locked dedent-paste"
    );
    assert_eq!(
        update_instruction(InstallMethod::LocalBuild, "/src/target/release/dedent-paste"),
        "dedent-paste is running from a local build (/src/target/release/dedent-paste)"
    );
    assert_eq!(
        update_instruction(InstallMethod::Standalone, "/x"),
        "To update, run: dedent-paste update"
    );
}

#[test]
fn managed_installations_are_refused_with_a_hint() {
    assert_eq!(
        managed_refusal(InstallMethod::Homebrew, "/x").as_deref(),
        Some("dedent-paste was installed via Homebrew. Please run: brew upgrade dedent-paste")
    );
    assert_eq!(
        managed_refusal(InstallMethod::Npm, "/x").as_deref(),
        Some("dedent-paste was installed via npm. Please run: npm install -g dedent-paste")
    );
    assert_eq!(
        managed_refusal(InstallMethod::Cargo, "/x").as_deref(),
        Some("dedent-paste was installed via Cargo. Please run: cargo install --locked dedent-paste")
    );
    assert_eq!(
        managed_refusal(InstallMethod::LocalBuild, "/b/dp").as_deref(),
        Some("dedent-paste is running from a local build (/b/dp). Skipping self-update.")
    );
    assert_eq!(managed_refusal(InstallMethod::Standalone, "/x"), None);
}

#[test]
fn manifest_replies_fall_back_unless_they_name_a_version() {
    let body = r#"{"announcement_tag":"v1.2.3"}"#;
    assert_eq!(
        version_from_manifest_reply(Some((200, body))).as_deref(),
        Some("1.2.3")
    );
    assert_eq!(version_from_manifest_reply(Some((404, body))), None);
    assert_eq!(version_from_manifest_reply(Some((200, "not json"))), None);
    assert_eq!(version_from_manifest_reply(Some((200, "{}"))), None);
    assert_eq!(version_from_manifest_reply(None), None);
}

#[test]
fn api_replies_give_a_version_or_the_error_to_report() {
    let url = "https://api.example/latest";
    assert_eq!(
        version_from_api_reply(url, Ok((200, r#"{"tag_name":"v0.6.0"}"#))),
        Ok("0.6.0".to_string())
    );
    assert_eq!(
        version_from_api_reply(url, Ok((403, "{}"))),
        Err("failed to check for updates from https://api.example/latest (HTTP 403)".to_string())
    );
    assert_eq!(
        version_from_api_reply(url, Ok((200, r#"{"tag_name":"latest"}"#))),
        Err("could not determine latest version from release metadata".to_string())
    );
    assert_eq!(
        version_from_api_reply(url, Err("connection refused")),
        Err("failed to check for updates: connection refused".to_string())
    );
}

#[test]
fn installer_scripts_come_from_the_latest_release() {
    assert_eq!(
        installer_script_url("https://github.com", false),
        "https://github.com/doggy8088/dedent-paste/releases/latest/download/dedent-paste-installer.sh"
    );
    assert_eq!(
        installer_script_url("http://localhost:8080", true),
        "http://localhost:8080/doggy8088/dedent-paste/releases/latest/download/dedent-paste-installer.ps1"
    );
}
