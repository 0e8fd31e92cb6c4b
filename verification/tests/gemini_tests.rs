use dedent_paste::gemini::request_size_fits;
use base64::Engine as _;
use dedent_paste::{
    applescript_string_literal, bmp_to_png, build_generate_content_request, check_image_size,
    extract_text_from_response, format_log_line, format_timestamp, is_silent_error,
    language_tag_from_posix_locale, parse_osascript_image_data, render_prompt, resolve_api_key,
    resolve_gemini_settings, resolve_log_path, resolve_model, resolve_output_language,
    resolve_system_prompt_source, resolve_timeout, ClipboardImage, GeminiError,
    SystemPromptSource, ENV_GEMINI_API_KEY, ENV_GEMINI_API_KEY_FALLBACK, ENV_GEMINI_MODEL,
    ENV_LOG_FILE, ENV_OUTPUT_LANGUAGE, ENV_POSIX_LANG, ENV_SYSTEM_PROMPT, ENV_SYSTEM_PROMPT_FILE,
    ENV_TIMEOUT_SECS, GEMINI_MAX_REQUEST_BYTES,
};

fn env<'a>(vars: &'a [(&'a str, &'a str)]) -> impl Fn(&str) -> Option<String> + 'a {
    move |name| {
        vars.iter()
            .find(|(key, _)| *key == name)
            .map(|(_, value)| value.to_string())
    }
}

#[test]
fn derives_language_tag_from_posix_locale() {
    assert_eq!(
        language_tag_from_posix_locale("en_US.UTF-8"),
        Some("en-US".to_string())
    );
    assert_eq!(
        language_tag_from_posix_locale("zh_TW.UTF-8"),
        Some("zh-TW".to_string())
    );
    assert_eq!(
        language_tag_from_posix_locale("ja_JP"),
        Some("ja-JP".to_string())
    );
    assert_eq!(language_tag_from_posix_locale("en"), Some("en".to_string()));
    assert_eq!(
        language_tag_from_posix_locale("de_DE@euro"),
        Some("de-DE".to_string())
    );
    assert_eq!(language_tag_from_posix_locale("C"), None);
    assert_eq!(language_tag_from_posix_locale("C.UTF-8"), None);
    assert_eq!(language_tag_from_posix_locale("POSIX"), None);
    assert_eq!(language_tag_from_posix_locale(""), None);
}

#[test]
fn language_tag_edge_cases() {
    assert_eq!(language_tag_from_posix_locale("_US"), None);
    assert_eq!(language_tag_from_posix_locale("en_"), Some("en".to_string()));
    assert_eq!(
        language_tag_from_posix_locale("sr_RS_latin"),
        Some("sr-RS".to_string())
    );
    assert_eq!(language_tag_from_posix_locale(".UTF-8"), None);
}

#[test]
fn output_language_prefers_tool_env_over_posix_lang() {
    assert_eq!(
        resolve_output_language(env(&[
            (ENV_OUTPUT_LANGUAGE, "ja"),
            (ENV_POSIX_LANG, "en_US.UTF-8"),
        ])),
        "ja"
    );
    assert_eq!(
        resolve_output_language(env(&[(ENV_POSIX_LANG, "en_US.UTF-8")])),
        "en-US"
    );
    assert_eq!(resolve_output_language(env(&[])), "zh-TW");
    assert_eq!(
        resolve_output_language(env(&[(ENV_OUTPUT_LANGUAGE, ""), (ENV_POSIX_LANG, "C")])),
        "zh-TW"
    );
}

#[test]
fn api_key_prefers_tool_env_and_reports_both_names_when_missing() {
    assert_eq!(
        resolve_api_key(env(&[
            (ENV_GEMINI_API_KEY, "tool-key"),
            (ENV_GEMINI_API_KEY_FALLBACK, "shared-key"),
        ])),
        Ok("tool-key".to_string())
    );
    assert_eq!(
        resolve_api_key(env(&[(ENV_GEMINI_API_KEY_FALLBACK, "shared-key")])),
        Ok("shared-key".to_string())
    );

    let error = resolve_api_key(env(&[])).unwrap_err();
    assert_eq!(error, GeminiError::MissingApiKey);
    let message = error.message();
    assert!(message.contains(ENV_GEMINI_API_KEY));
    assert!(message.contains(ENV_GEMINI_API_KEY_FALLBACK));
}

#[test]
fn whitespace_only_api_key_counts_as_unset() {
    assert_eq!(
        resolve_api_key(env(&[
            (ENV_GEMINI_API_KEY, "   "),
            (ENV_GEMINI_API_KEY_FALLBACK, "shared-key"),
        ])),
        Ok("shared-key".to_string())
    );
}

#[test]
fn model_defaults_and_overrides() {
    assert_eq!(resolve_model(env(&[])), "gemini-3.7-flash");
    assert_eq!(
        resolve_model(env(&[(ENV_GEMINI_MODEL, "gemini-4-pro")])),
        "gemini-4-pro"
    );
}

#[test]
fn system_prompt_source_prefers_inline_over_file() {
    assert_eq!(
        resolve_system_prompt_source(env(&[
            (ENV_SYSTEM_PROMPT, "inline"),
            (ENV_SYSTEM_PROMPT_FILE, "/tmp/prompt.txt"),
        ])),
        SystemPromptSource::Inline("inline".to_string())
    );
    assert_eq!(
        resolve_system_prompt_source(env(&[(ENV_SYSTEM_PROMPT_FILE, "/tmp/prompt.txt")])),
        SystemPromptSource::File("/tmp/prompt.txt".to_string())
    );
    assert_eq!(
        resolve_system_prompt_source(env(&[])),
        SystemPromptSource::BuiltIn
    );
}

#[test]
fn renders_language_placeholder() {
    assert_eq!(
        render_prompt("Describe in {language}. Reply in {language}.", "zh-TW"),
        "Describe in zh-TW. Reply in zh-TW."
    );
    assert_eq!(render_prompt("no placeholder", "zh-TW"), "no placeholder");
}

#[test]
fn timeout_defaults_and_overrides() {
    assert_eq!(resolve_timeout(env(&[])), 60);
    assert_eq!(resolve_timeout(env(&[(ENV_TIMEOUT_SECS, "120")])), 120);
    assert_eq!(
        resolve_timeout(env(&[(ENV_TIMEOUT_SECS, "not-a-number")])),
        60
    );
    assert_eq!(resolve_timeout(env(&[(ENV_TIMEOUT_SECS, "0")])), 60);
}

#[test]
fn timeout_accepts_surrounding_whitespace_and_plus_sign() {
    assert_eq!(resolve_timeout(env(&[(ENV_TIMEOUT_SECS, " 30 ")])), 30);
    assert_eq!(resolve_timeout(env(&[(ENV_TIMEOUT_SECS, "+45")])), 45);
    assert_eq!(resolve_timeout(env(&[(ENV_TIMEOUT_SECS, "-5")])), 60);
    assert_eq!(
        resolve_timeout(env(&[(ENV_TIMEOUT_SECS, "18446744073709551616")])),
        60
    );
    assert_eq!(
        resolve_timeout(env(&[(ENV_TIMEOUT_SECS, "18446744073709551615")])),
        u64::MAX
    );
}

#[test]
fn settings_read_prompt_file_and_surface_read_errors() {
    let settings = resolve_gemini_settings(
        env(&[
            (ENV_GEMINI_API_KEY, "key"),
            (ENV_SYSTEM_PROMPT_FILE, "/tmp/prompt.txt"),
        ]),
        |path| {
            assert_eq!(path, "/tmp/prompt.txt");
            Ok("from file in {language}".to_string())
        },
    )
    .unwrap();
    assert_eq!(settings.system_prompt, "from file in zh-TW");
    assert!(settings.user_instruction.contains("zh-TW"));

    let error = resolve_gemini_settings(
        env(&[
            (ENV_GEMINI_API_KEY, "key"),
            (ENV_SYSTEM_PROMPT_FILE, "/tmp/prompt.txt"),
        ]),
        |_| Err("permission denied".to_string()),
    )
    .unwrap_err();
    assert_eq!(
        error,
        GeminiError::PromptFileUnreadable {
            path: "/tmp/prompt.txt".to_string(),
            reason: "permission denied".to_string(),
        }
    );
}

#[test]
fn settings_use_every_resolver() {
    let settings = resolve_gemini_settings(
        env(&[
            (ENV_GEMINI_API_KEY_FALLBACK, "shared"),
            (ENV_GEMINI_MODEL, "m"),
            (ENV_POSIX_LANG, "ja_JP.UTF-8"),
            (ENV_SYSTEM_PROMPT, "say it in {language}"),
            (ENV_TIMEOUT_SECS, "9"),
        ]),
        |_| Err("unused".to_string()),
    )
    .unwrap();
    assert_eq!(settings.api_key, "shared");
    assert_eq!(settings.model, "m");
    assert_eq!(settings.system_prompt, "say it in ja-JP");
    assert_eq!(
        settings.user_instruction,
        "Convert this image to text per the system instructions. Preferred output language: ja-JP."
    );
    assert_eq!(settings.timeout, 9);

    assert_eq!(
        resolve_gemini_settings(env(&[]), |_| Ok(String::new())).unwrap_err(),
        GeminiError::MissingApiKey
    );
}

#[test]
fn builds_generate_content_request_with_escaped_prompts() {
    let image = ClipboardImage {
        mime_type: "image/png",
        data: vec![0x89, b'P', b'N', b'G'],
    };
    let body = build_generate_content_request(
        "系統 \"prompt\"\nwith newline",
        "instruction 中文",
        &image,
    );

    let value: serde_json::Value = serde_json::from_str(&body).unwrap();
    assert_eq!(
        value["system_instruction"]["parts"][0]["text"],
        "系統 \"prompt\"\nwith newline"
    );
    let parts = &value["contents"][0]["parts"];
    assert_eq!(parts[0]["inline_data"]["mime_type"], "image/png");
    let encoded = parts[0]["inline_data"]["data"].as_str().unwrap();
    assert_eq!(
        base64::engine::general_purpose::STANDARD
            .decode(encoded)
            .unwrap(),
        image.data
    );
    assert_eq!(parts[1]["text"], "instruction 中文");
}

#[test]
fn request_carries_padded_base64() {
    let image = ClipboardImage {
        mime_type: "image/png",
        data: vec![0x89, b'P', b'N', b'G'],
    };
    let body = build_generate_content_request("s", "u", &image);
    assert!(body.contains("\"data\":\"iVBORw==\""));
    assert_eq!(
        body,
        "{\"contents\":[{\"parts\":[{\"inline_data\":{\"data\":\"iVBORw==\",\"mime_type\":\"image/png\"}},{\"text\":\"u\"}]}],\"system_instruction\":{\"parts\":[{\"text\":\"s\"}]}}"
    );
}

#[test]
fn extracts_text_from_response_variants() {
    assert_eq!(
        extract_text_from_response(
            r#"{"candidates":[{"content":{"parts":[{"text":"hello"}]}}]}"#
        ),
        Ok("hello".to_string())
    );
    assert_eq!(
        extract_text_from_response(
            r#"{"candidates":[{"content":{"parts":[{"text":"a"},{"text":"b"}]}}]}"#
        ),
        Ok("ab".to_string())
    );
    assert_eq!(
        extract_text_from_response(r#"{"error":{"code":429,"message":"quota exceeded"}}"#),
        Err(GeminiError::Api {
            status: 429,
            message: "quota exceeded".to_string(),
        })
    );
    assert_eq!(
        extract_text_from_response(r#"{"candidates":[]}"#),
        Err(GeminiError::EmptyResponse { block_reason: None })
    );
    assert_eq!(
        extract_text_from_response(r#"{"promptFeedback":{"blockReason":"SAFETY"}}"#),
        Err(GeminiError::EmptyResponse {
            block_reason: Some("SAFETY".to_string()),
        })
    );
    assert_eq!(
        extract_text_from_response("not json"),
        Err(GeminiError::InvalidResponse)
    );
}

#[test]
fn response_error_edge_cases() {
    assert_eq!(
        extract_text_from_response(r#"{"error":{}}"#),
        Err(GeminiError::Api {
            status: 0,
            message: "unknown error".to_string(),
        })
    );
    assert_eq!(
        extract_text_from_response(r#"{"error":{"code":65537,"message":"x"}}"#),
        Err(GeminiError::Api {
            status: 1,
            message: "x".to_string(),
        })
    );
    assert_eq!(
        extract_text_from_response(r#"{"error":{"code":-3,"message":"x"}}"#),
        Err(GeminiError::Api {
            status: 0,
            message: "x".to_string(),
        })
    );
    assert_eq!(
        extract_text_from_response(
            r#"{"candidates":[{"content":{"parts":[{"text":"  "},{"inline":1}]}}]}"#
        ),
        Err(GeminiError::EmptyResponse { block_reason: None })
    );
    assert_eq!(
        extract_text_from_response(
            r#"{"candidates":[{"content":{"parts":[{"text":" a "},{"text":7}]}}]}"#
        ),
        Ok(" a ".to_string())
    );
}

#[test]
fn error_messages() {
    assert_eq!(
        GeminiError::Api {
            status: 429,
            message: "quota".to_string()
        }
        .message(),
        "Gemini API error (HTTP 429): quota"
    );
    assert_eq!(
        GeminiError::ImageTooLarge {
            request_bytes: 21_000_000
        }
        .message(),
        "clipboard image is too large for the Gemini API (request would be 21000000 bytes; the limit is 20971520)"
    );
    assert_eq!(
        GeminiError::EmptyResponse {
            block_reason: Some("SAFETY".to_string())
        }
        .message(),
        "Gemini returned no text (block reason: SAFETY)"
    );
    assert_eq!(
        GeminiError::PromptFileUnreadable {
            path: "/p".to_string(),
            reason: "gone".to_string()
        }
        .message(),
        "cannot read system prompt file /p: gone"
    );
    assert_eq!(GeminiError::NoImage.message(), "clipboard has no text or image");
}

#[test]
fn checks_image_size_against_request_limit() {
    assert_eq!(check_image_size(1024, 1024), Ok(()));
    let error = check_image_size(GEMINI_MAX_REQUEST_BYTES, 0).unwrap_err();
    assert!(matches!(error, GeminiError::ImageTooLarge { .. }));
    assert!(error.message().contains("too large"));
}

#[test]
fn image_size_boundary() {
    // 3 * 5_242_624 bytes encode to exactly the limit minus the envelope.
    let image = 3 * ((GEMINI_MAX_REQUEST_BYTES - 1024) / 4);
    assert_eq!(check_image_size(image, 0), Ok(()));
    assert_eq!(
        check_image_size(image + 1, 0),
        Err(GeminiError::ImageTooLarge {
            request_bytes: GEMINI_MAX_REQUEST_BYTES + 4
        })
    );
}

#[test]
fn parses_osascript_image_data() {
    assert_eq!(
        parse_osascript_image_data("«data PNGf89504E47»\n"),
        Some(vec![0x89, 0x50, 0x4E, 0x47])
    );
    assert_eq!(
        parse_osascript_image_data("«data PNGf89504e47»"),
        Some(vec![0x89, 0x50, 0x4E, 0x47])
    );
    assert_eq!(parse_osascript_image_data("«data TIFF89504E47»"), None);
    assert_eq!(parse_osascript_image_data("«data PNGf895»"), None);
    assert_eq!(parse_osascript_image_data("«data PNGfZZ»"), None);
    assert_eq!(parse_osascript_image_data("«data PNGf»"), None);
    assert_eq!(parse_osascript_image_data("plain text"), None);
}

#[test]
fn escapes_applescript_string_literals() {
    assert_eq!(
        applescript_string_literal(r#"say "hi" \ bye"#),
        r#""say \"hi\" \\ bye""#
    );
    assert_eq!(
        applescript_string_literal("line1\nline2"),
        "\"line1 line2\""
    );
    assert_eq!(applescript_string_literal("中文訊息"), "\"中文訊息\"");
}

#[test]
fn formats_log_lines_on_a_single_line() {
    assert_eq!(
        format_log_line("2026-08-25T01:02:03Z", "error", "boom\nsecond"),
        "2026-08-25T01:02:03Z [error] boom second\n"
    );
}

#[test]
fn formats_unix_timestamps_as_utc() {
    assert_eq!(format_timestamp(0), "1970-01-01T00:00:00Z");
    assert_eq!(format_timestamp(1_756_080_000), "2025-08-25T00:00:00Z");
    assert_eq!(format_timestamp(951_827_696), "2000-02-29T12:34:56Z");
}

#[test]
fn formats_timestamps_at_year_and_century_edges() {
    assert_eq!(format_timestamp(86_399), "1970-01-01T23:59:59Z");
    assert_eq!(format_timestamp(946_684_800), "2000-01-01T00:00:00Z");
    assert_eq!(format_timestamp(4_107_542_400), "2100-03-01T00:00:00Z");
    assert_eq!(format_timestamp(253_402_300_799), "9999-12-31T23:59:59Z");
    assert_eq!(format_timestamp(253_402_300_800), "10000-01-01T00:00:00Z");
}

#[test]
fn log_path_env_override_wins() {
    assert_eq!(
        resolve_log_path(
            env(&[(ENV_LOG_FILE, "/tmp/custom.log")]),
            Some("/default.log".to_string()),
        ),
        Some("/tmp/custom.log".to_string())
    );
    assert_eq!(
        resolve_log_path(env(&[]), Some("/default.log".to_string())),
        Some("/default.log".to_string())
    );
    assert_eq!(resolve_log_path(env(&[]), None), None);
}

#[test]
fn only_missing_key_and_missing_image_are_silent() {
    assert!(is_silent_error(&GeminiError::MissingApiKey));
    assert!(is_silent_error(&GeminiError::NoImage));
    assert!(!is_silent_error(&GeminiError::InvalidResponse));
    assert!(!is_silent_error(&GeminiError::Api {
        status: 500,
        message: "boom".to_string(),
    }));
}

#[test]
fn converts_bmp_to_png() {
    let mut bmp = Vec::new();
    image::DynamicImage::ImageRgb8(image::RgbImage::from_fn(2, 2, |x, y| {
        image::Rgb([(x * 255) as u8, (y * 255) as u8, 128])
    }))
    .write_to(&mut std::io::Cursor::new(&mut bmp), image::ImageFormat::Bmp)
    .unwrap();

    let png = bmp_to_png(&bmp).unwrap();
    assert_eq!(&png[..8], &[0x89, 0x50, 0x4E, 0x47, 0x0D, 0x0A, 0x1A, 0x0A]);
    let decoded = image::load_from_memory_with_format(&png, image::ImageFormat::Png).unwrap();
    assert_eq!(
        decoded.to_rgb8().get_pixel(1, 1),
        &image::Rgb([255, 255, 128])
    );

    assert!(bmp_to_png(b"not a bmp").is_err());
}

#[test]
fn request_sizes_that_overflow_are_detected() {
    assert!(request_size_fits(1024, 1024));
    assert!(request_size_fits(0, usize::MAX - 1024));
    assert!(!request_size_fits(0, usize::MAX - 1023));
    assert!(!request_size_fits(usize::MAX, 0));
}

#[test]
fn timestamps_sort_in_time_order() {
    let instants = [
        0u64,
        59,
        60,
        3_599,
        3_600,
        86_399,
        86_400,
        951_782_400,
        1_700_000_000,
        253_402_300_799,
    ];
    for pair in instants.windows(2) {
        assert!(format_timestamp(pair[0]) < format_timestamp(pair[1]));
    }
    assert_eq!(format_timestamp(253_402_300_799), "9999-12-31T23:59:59Z");
}
