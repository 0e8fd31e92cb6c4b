use dedent_paste::update::UpdateOptions;
use dedent_paste::{
    parse_args, parse_delay_ms, resolve_paste_settings, Command, PasteCliOverrides, PasteSettings,
};

fn parse(args: &[&str]) -> Result<Command, String> {
    let owned: Vec<String> = args.iter().map(|arg| arg.to_string()).collect();
    parse_args(&owned)
}

fn env<'a>(vars: &'a [(&'a str, &'a str)]) -> impl Fn(&str) -> Option<String> + 'a {
    move |name| {
        vars.iter()
            .find(|(key, _)| *key == name)
            .map(|(_, value)| value.to_string())
    }
}

#[test]
fn no_args_means_default_paste() {
    assert_eq!(parse(&[]), Ok(Command::Paste(PasteCliOverrides::default())));
}

#[test]
fn exclusive_flags_parse_alone() {
    assert_eq!(parse(&["-h"]), Ok(Command::Help));
    assert_eq!(parse(&["--help"]), Ok(Command::Help));
    assert_eq!(parse(&["-v"]), Ok(Command::Version));
    assert_eq!(parse(&["--version"]), Ok(Command::Version));
    assert_eq!(parse(&["-i"]), Ok(Command::Install));
    assert_eq!(parse(&["--install"]), Ok(Command::Install));
    assert_eq!(parse(&["-u"]), Ok(Command::Uninstall));
    assert_eq!(parse(&["--uninstall"]), Ok(Command::Uninstall));
}

#[test]
fn paste_options_combine() {
    assert_eq!(
        parse(&["--no-paste"]),
        Ok(Command::Paste(PasteCliOverrides {
            no_paste: true,
            delay_ms: None,
        }))
    );
    assert_eq!(
        parse(&["-n", "--paste-delay-ms", "250"]),
        Ok(Command::Paste(PasteCliOverrides {
            no_paste: true,
            delay_ms: Some(250),
        }))
    );
    assert_eq!(
        parse(&["--paste-delay-ms=120"]),
        Ok(Command::Paste(PasteCliOverrides {
            no_paste: false,
            delay_ms: Some(120),
        }))
    );
}

#[test]
fn invalid_arguments_are_rejected() {
    assert!(parse(&["--bogus"]).unwrap_err().contains("--bogus"));
    assert!(parse(&["--paste-delay-ms"])
        .unwrap_err()
        .contains("requires a value"));
    assert!(parse(&["--paste-delay-ms", "abc"])
        .unwrap_err()
        .contains("abc"));
    assert!(parse(&["--paste-delay-ms=-1"]).is_err());
    assert!(parse(&["-i", "--no-paste"])
        .unwrap_err()
        .contains("cannot be combined"));
    assert!(parse(&["--no-paste", "-h"])
        .unwrap_err()
        .contains("cannot be combined"));
    assert!(parse(&["-i", "-u"])
        .unwrap_err()
        .contains("cannot be combined"));
    assert!(parse(&["--no-paste", "update"])
        .unwrap_err()
        .contains("cannot be combined"));
    assert!(parse(&["-i", "update"])
        .unwrap_err()
        .contains("cannot be combined"));
}

#[test]
fn update_subcommand_parses() {
    assert_eq!(
        parse(&["update"]),
        Ok(Command::Update(UpdateOptions {
            check: false,
            force: false,
        }))
    );
    assert_eq!(
        parse(&["update", "--check"]),
        Ok(Command::Update(UpdateOptions {
            check: true,
            force: false,
        }))
    );
    assert_eq!(
        parse(&["update", "-c"]),
        Ok(Command::Update(UpdateOptions {
            check: true,
            force: false,
        }))
    );
    assert_eq!(
        parse(&["update", "--force"]),
        Ok(Command::Update(UpdateOptions {
            check: false,
            force: true,
        }))
    );
    assert_eq!(
        parse(&["update", "-f"]),
        Ok(Command::Update(UpdateOptions {
            check: false,
            force: true,
        }))
    );
    assert_eq!(
        parse(&["update", "-c", "-f"]),
        Ok(Command::Update(UpdateOptions {
            check: true,
            force: true,
        }))
    );
    assert_eq!(parse(&["update", "-h"]), Ok(Command::UpdateHelp));
    assert_eq!(parse(&["update", "--help"]), Ok(Command::UpdateHelp));
    assert_eq!(
        parse(&["--update"]),
        Ok(Command::Update(UpdateOptions {
            check: false,
            force: false,
        }))
    );
    assert!(parse(&["update", "--unknown"]).is_err());
    assert!(parse(&["update", "-i"]).is_err());
}

#[test]
fn exact_error_messages() {
    assert_eq!(parse(&["--bogus"]), Err("unknown option '--bogus'".to_string()));
    assert_eq!(
        parse(&["-n", "-v"]),
        Err("'-v' cannot be combined with other options".to_string())
    );
    assert_eq!(
        parse(&["update", "-x"]),
        Err("unknown option '-x' for 'update'".to_string())
    );
    assert_eq!(
        parse_delay_ms("x1"),
        Err("--paste-delay-ms must be a non-negative integer, got 'x1'".to_string())
    );
    assert_eq!(parse_delay_ms(" 7 "), Ok(7));
    // The last delay given wins.
    assert_eq!(
        parse(&["--paste-delay-ms=1", "--paste-delay-ms", "2"]),
        Ok(Command::Paste(PasteCliOverrides {
            no_paste: false,
            delay_ms: Some(2),
        }))
    );
}

#[test]
fn paste_settings_flags_win_over_environment() {
    let vars = [
        ("DEDENT_PASTE_NO_PASTE", "0"),
        ("DEDENT_PASTE_PASTE_DELAY_MS", "40"),
    ];
    assert_eq!(
        resolve_paste_settings(
            env(&vars),
            PasteCliOverrides {
                no_paste: true,
                delay_ms: Some(5)
            }
        ),
        Ok(PasteSettings {
            no_paste: true,
            delay_ms: 5
        })
    );
    assert_eq!(
        resolve_paste_settings(env(&vars), PasteCliOverrides::default()),
        Ok(PasteSettings {
            no_paste: false,
            delay_ms: 40
        })
    );
}

#[test]
fn paste_settings_from_environment() {
    for on in ["1", "true", "yes", "on", " on "] {
        assert_eq!(
            resolve_paste_settings(
                env(&[("DEDENT_PASTE_NO_PASTE", on)]),
                PasteCliOverrides::default()
            ),
            Ok(PasteSettings {
                no_paste: true,
                delay_ms: 0
            })
        );
    }
    assert_eq!(
        resolve_paste_settings(env(&[]), PasteCliOverrides::default()),
        Ok(PasteSettings {
            no_paste: false,
            delay_ms: 0
        })
    );
    assert_eq!(
        resolve_paste_settings(
            env(&[("DEDENT_PASTE_PASTE_DELAY_MS", "soon")]),
            PasteCliOverrides::default()
        ),
        Err("--paste-delay-ms must be a non-negative integer, got 'soon'".to_string())
    );
}
