//! Paste clipboard text with its common indentation removed; turn clipboard
//! images into text through Gemini; manage the Karabiner-Elements hotkey rule
//! and self-updates.
pub mod calendar;
pub mod cli;
pub mod clipboard;
pub mod dedent;
pub mod flow;
pub mod gemini;
pub mod json;
pub mod json_text;
pub mod karabiner;
pub mod logfmt;
pub mod settings;
pub mod text;
pub mod update;

pub use cli::{
    parse_args, parse_delay_ms, parse_update_args, resolve_paste_settings, Command,
    PasteCliOverrides, PasteSettings,
};
pub use clipboard::{applescript_string_literal, parse_osascript_image_data};
pub use dedent::{dedent_text, text_from_bytes, DedentError};
pub use gemini::{
    bmp_to_png, build_generate_content_request, check_image_size, extract_text_from_response,
    is_silent_error, ClipboardImage, GeminiError, GEMINI_MAX_REQUEST_BYTES,
};
pub use json::JsonValue;
pub use logfmt::{format_log_line, format_timestamp};
pub use settings::{
    language_tag_from_posix_locale, render_prompt, resolve_api_key, resolve_gemini_settings,
    resolve_log_path, resolve_model, resolve_output_language, resolve_system_prompt_source,
    resolve_timeout, GeminiSettings, SystemPromptSource, DEFAULT_GEMINI_MODEL,
    DEFAULT_OUTPUT_LANGUAGE, DEFAULT_SYSTEM_PROMPT, DEFAULT_TIMEOUT, ENV_GEMINI_API_KEY,
    ENV_GEMINI_API_KEY_FALLBACK, ENV_GEMINI_MODEL, ENV_LOG_FILE, ENV_OUTPUT_LANGUAGE,
    ENV_POSIX_LANG, ENV_SYSTEM_PROMPT, ENV_SYSTEM_PROMPT_FILE, ENV_TIMEOUT_SECS,
};
