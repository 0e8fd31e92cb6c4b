//! Settings of the image-to-text path, read from environment variables.
//! Every resolver takes the lookup as a function, so the environment itself
//! stays with the caller; what a resolver returns is stated for whatever the
//! lookup hands back.
use vstd::prelude::*;

use crate::dedent::append_chars;
use crate::gemini::GeminiError;
use crate::text::{
    all_whitespace, chars_eq, chars_of, lemma_trim_ws_empty, push_str, replace_all, replace_chars,
    split_chars, split_on, string_of, trim_chars, trim_ws,
};

verus! {

pub const ENV_GEMINI_API_KEY: &'static str = "DEDENT_PASTE_GEMINI_API_KEY";
pub const ENV_GEMINI_API_KEY_FALLBACK: &'static str = "GEMINI_API_KEY";
pub const ENV_GEMINI_MODEL: &'static str = "DEDENT_PASTE_GEMINI_MODEL";
pub const ENV_OUTPUT_LANGUAGE: &'static str = "DEDENT_PASTE_LANG";
pub const ENV_POSIX_LANG: &'static str = "LANG";
pub const ENV_SYSTEM_PROMPT: &'static str = "DEDENT_PASTE_GEMINI_SYSTEM_PROMPT";
pub const ENV_SYSTEM_PROMPT_FILE: &'static str = "DEDENT_PASTE_GEMINI_SYSTEM_PROMPT_FILE";
pub const ENV_TIMEOUT_SECS: &'static str = "DEDENT_PASTE_GEMINI_TIMEOUT_SECS";
pub const ENV_LOG_FILE: &'static str = "DEDENT_PASTE_LOG_FILE";

pub const DEFAULT_GEMINI_MODEL: &'static str = "gemini-3.7-flash";
pub const DEFAULT_OUTPUT_LANGUAGE: &'static str = "zh-TW";
/// Request timeout when none is configured, in seconds.
pub const DEFAULT_TIMEOUT: u64 = 60;

pub const DEFAULT_SYSTEM_PROMPT: &'static str = "\
You convert one image from the user's clipboard into text.

If the image contains readable text: transcribe it faithfully and completely in its \
original language. Preserve the structure using Markdown: headings, bullet and numbered \
lists, tables for tabular content, and fenced code blocks for code or terminal output. \
Join line breaks that exist only because of visual wrapping. Never add, translate, or \
invent content.

If the image contains no readable text: describe the image concisely in {language}.

Any explanation or description you write yourself must be in {language}.

Output only the final text: no preamble, no commentary, and do not wrap the entire \
answer in a code fence.";

/// Where the system prompt comes from.
#[derive(Debug, Clone, PartialEq, Eq)]
pub enum SystemPromptSource {
    Inline(String),
    File(String),
    BuiltIn,
}

/// Everything a Gemini request needs besides the image.
#[derive(Debug)]
pub struct GeminiSettings {
    pub api_key: String,
    pub model: String,
    pub system_prompt: String,
    pub user_instruction: String,
    /// Request timeout in seconds.
    pub timeout: u64,
}

/// A looked-up value that is set and not only whitespace.
pub open spec fn non_empty(v: Option<String>) -> Option<Seq<char>> {
    match v {
        Some(s) => if all_whitespace(s@) {
            None
        } else {
            Some(s@)
        },
        None => None,
    }
}

pub(crate) fn env_non_empty<F: Fn(&str) -> Option<String>>(get: &F, name: &str) -> (r: Option<String>)
    requires
        get.requires((name,)),
    ensures
        exists|v: Option<String>|
            #[trigger] get.ensures((name,), v) && match non_empty(v) {
                Some(s) => r matches Some(x) && x@ == s,
                None => r is None,
            },
{
    let v = get(name);
    match v {
        Some(s) => {
            let cs = chars_of(s.as_str());
            let t = trim_chars(&cs);
            proof {
                lemma_trim_ws_empty(s@);
            }
            if t.len() == 0 {
                None
            } else {
                Some(s)
            }
        },
        None => None,
    }
}

// ---------------------------------------------------------------------------
// API key and model
// ---------------------------------------------------------------------------

/// `r` is what `resolve_api_key` may return for `get`: the tool's own
/// variable, else the generic one, else `MissingApiKey`.
pub open spec fn api_key_outcome<F: Fn(&str) -> Option<String>>(
    get: F,
    r: Result<String, GeminiError>,
) -> bool {
    exists|a: Option<String>|
        #[trigger] get.ensures((ENV_GEMINI_API_KEY,), a) && match non_empty(a) {
            Some(k) => r matches Ok(s) && s@ == k,
            None => exists|b: Option<String>|
                #[trigger] get.ensures((ENV_GEMINI_API_KEY_FALLBACK,), b) && match non_empty(b) {
                    Some(k) => r matches Ok(s) && s@ == k,
                    None => r == Err::<String, GeminiError>(GeminiError::MissingApiKey),
                },
        }
}

/// The API key: the tool's own variable, else `GEMINI_API_KEY`.
pub fn resolve_api_key<F: Fn(&str) -> Option<String>>(get: F) -> (r: Result<String, GeminiError>)
    requires
        forall|k: &str| get.requires((k,)),
    ensures
        api_key_outcome(get, r),
{
    api_key_of(&get)
}

fn api_key_of<F: Fn(&str) -> Option<String>>(get: &F) -> (r: Result<String, GeminiError>)
    requires
        forall|k: &str| get.requires((k,)),
    ensures
        api_key_outcome(*get, r),
{
    match env_non_empty(get, ENV_GEMINI_API_KEY) {
        Some(k) => Ok(k),
        None => match env_non_empty(get, ENV_GEMINI_API_KEY_FALLBACK) {
            Some(k) => Ok(k),
            None => Err(GeminiError::MissingApiKey),
        },
    }
}

pub open spec fn model_outcome<F: Fn(&str) -> Option<String>>(get: F, r: String) -> bool {
    exists|a: Option<String>|
        #[trigger] get.ensures((ENV_GEMINI_MODEL,), a) && r@ == match non_empty(a) {
            Some(m) => m,
            None => DEFAULT_GEMINI_MODEL@,
        }
}

fn owned(s: &str) -> (r: String)
    ensures
        r@ == s@,
{
    let cs = chars_of(s);
    string_of(cs.as_slice())
}

/// The model: the tool's variable, else the default model.
pub fn resolve_model<F: Fn(&str) -> Option<String>>(get: F) -> (r: String)
    requires
        forall|k: &str| get.requires((k,)),
    ensures
        model_outcome(get, r),
{
    model_of(&get)
}

fn model_of<F: Fn(&str) -> Option<String>>(get: &F) -> (r: String)
    requires
        forall|k: &str| get.requires((k,)),
    ensures
        model_outcome(*get, r),
{
    match env_non_empty(get, ENV_GEMINI_MODEL) {
        Some(m) => m,
        None => owned(DEFAULT_GEMINI_MODEL),
    }
}

// ---------------------------------------------------------------------------
// Output language
// ---------------------------------------------------------------------------

/// The part of a POSIX locale before any `.codeset` or `@modifier`.
pub open spec fn locale_base(locale: Seq<char>) -> Seq<char> {
    split_on(split_on(locale, '.')[0], '@')[0]
}

/// A BCP 47 style tag (`zh-TW`) for a POSIX locale (`zh_TW.UTF-8`); none for
/// the `C` and `POSIX` locales and for locales without a language.
pub open spec fn language_tag_spec(locale: Seq<char>) -> Option<Seq<char>> {
    let base = locale_base(locale);
    if base.len() == 0 || base == "C"@ || base == "POSIX"@ {
        None
    } else {
        let parts = split_on(base, '_');
        let language = parts[0];
        if language.len() == 0 {
            None
        } else if parts.len() > 1 && parts[1].len() > 0 {
            Some(language + "-"@ + parts[1])
        } else {
            Some(language)
        }
    }
}

pub fn language_tag_from_posix_locale(locale: &str) -> (r: Option<String>)
    ensures
        match language_tag_spec(locale@) {
            Some(t) => r matches Some(s) && s@ == t,
            None => r is None,
        },
{
    let cs = chars_of(locale);
    let by_dot = split_chars(&cs, '.');
    let by_at = split_chars(&by_dot[0], '@');
    let base = &by_at[0];
    let ghost b = locale_base(locale@);
    proof {
        assert(by_dot@[0]@ == split_on(locale@, '.')[0]);
        assert(base@ == b);
        reveal_strlit("C");
        reveal_strlit("POSIX");
    }
    let c = chars_of("C");
    let posix = chars_of("POSIX");
    if base.len() == 0 || chars_eq(base, &c) || chars_eq(base, &posix) {
        return None;
    }
    let parts = split_chars(base, '_');
    let ghost ps = split_on(b, '_');
    proof {
        assert(parts@[0]@ == ps[0]);
        assert(parts@.len() == ps.len());
    }
    if parts[0].len() == 0 {
        return None;
    }
    let mut out: Vec<char> = Vec::new();
    append_chars(&mut out, &parts[0]);
    if parts.len() > 1 && parts[1].len() > 0 {
        proof {
            assert(parts@[1]@ == ps[1]);
        }
        out.push('-');
        append_chars(&mut out, &parts[1]);
        proof {
            reveal_strlit("-");
            assert(out@ == ps[0] + "-"@ + ps[1]);
        }
    }
    Some(string_of(out.as_slice()))
}

pub open spec fn language_outcome<F: Fn(&str) -> Option<String>>(get: F, r: String) -> bool {
    exists|a: Option<String>|
        #[trigger] get.ensures((ENV_OUTPUT_LANGUAGE,), a) && match non_empty(a) {
            Some(l) => r@ == l,
            None => exists|b: Option<String>|
                #[trigger] get.ensures((ENV_POSIX_LANG,), b) && r@ == match non_empty(b) {
                    Some(locale) => match language_tag_spec(locale) {
                        Some(t) => t,
                        None => DEFAULT_OUTPUT_LANGUAGE@,
                    },
                    None => DEFAULT_OUTPUT_LANGUAGE@,
                },
        }
}

/// The language for descriptions: the tool's variable, else the one derived
/// from `LANG`, else Traditional Chinese.
pub fn resolve_output_language<F: Fn(&str) -> Option<String>>(get: F) -> (r: String)
    requires
        forall|k: &str| get.requires((k,)),
    ensures
        language_outcome(get, r),
{
    language_of(&get)
}

fn language_of<F: Fn(&str) -> Option<String>>(get: &F) -> (r: String)
    requires
        forall|k: &str| get.requires((k,)),
    ensures
        language_outcome(*get, r),
{
    match env_non_empty(get, ENV_OUTPUT_LANGUAGE) {
        Some(l) => l,
        None => match env_non_empty(get, ENV_POSIX_LANG) {
            Some(locale) => match language_tag_from_posix_locale(locale.as_str()) {
                Some(t) => t,
                None => owned(DEFAULT_OUTPUT_LANGUAGE),
            },
            None => owned(DEFAULT_OUTPUT_LANGUAGE),
        },
    }
}

// ---------------------------------------------------------------------------
// System prompt
// ---------------------------------------------------------------------------

pub open spec fn prompt_source_outcome<F: Fn(&str) -> Option<String>>(
    get: F,
    r: SystemPromptSource,
) -> bool {
    exists|a: Option<String>|
        #[trigger] get.ensures((ENV_SYSTEM_PROMPT,), a) && match non_empty(a) {
            Some(p) => r matches SystemPromptSource::Inline(s) && s@ == p,
            None => exists|b: Option<String>|
                #[trigger] get.ensures((ENV_SYSTEM_PROMPT_FILE,), b) && match non_empty(b) {
                    Some(path) => r matches SystemPromptSource::File(s) && s@ == path,
                    None => r is BuiltIn,
                },
        }
}

/// An inline prompt wins over a prompt file, which wins over the built-in one.
pub fn resolve_system_prompt_source<F: Fn(&str) -> Option<String>>(get: F) -> (r:
    SystemPromptSource)
    requires
        forall|k: &str| get.requires((k,)),
    ensures
        prompt_source_outcome(get, r),
{
    prompt_source_of(&get)
}

fn prompt_source_of<F: Fn(&str) -> Option<String>>(get: &F) -> (r: SystemPromptSource)
    requires
        forall|k: &str| get.requires((k,)),
    ensures
        prompt_source_outcome(*get, r),
{
    match env_non_empty(get, ENV_SYSTEM_PROMPT) {
        Some(p) => SystemPromptSource::Inline(p),
        None => match env_non_empty(get, ENV_SYSTEM_PROMPT_FILE) {
            Some(path) => SystemPromptSource::File(path),
            None => SystemPromptSource::BuiltIn,
        },
    }
}

/// Every `{language}` in `template` replaced by `language`.
pub fn render_prompt(template: &str, language: &str) -> (r: String)
    ensures
        r@ == replace_all(template@, "{language}"@, language@),
{
    let t = chars_of(template);
    let pat = chars_of("{language}");
    let rep = chars_of(language);
    proof {
        reveal_strlit("{language}");
    }
    let out = replace_chars(&t, &pat, &rep);
    string_of(out.as_slice())
}

// ---------------------------------------------------------------------------
// Timeout
// ---------------------------------------------------------------------------

pub open spec fn is_ascii_digit(c: char) -> bool {
    '0' <= c && c <= '9'
}

/// The number written by a run of ASCII digits.
pub open spec fn digits_value(d: Seq<char>) -> nat
    decreases d.len(),
{
    if d.len() == 0 {
        0
    } else {
        digits_value(d.drop_last()) * 10 + ((d.last() as u32) - 48) as nat
    }
}

/// The text after an optional leading `+`.
pub open spec fn unsigned_digits(s: Seq<char>) -> Seq<char> {
    if s.len() > 0 && s[0] == '+' {
        s.drop_first()
    } else {
        s
    }
}

/// `str::parse::<u64>`: an optional `+`, then one or more ASCII digits whose
/// value fits in a `u64`.
pub open spec fn parse_u64_spec(s: Seq<char>) -> Option<u64> {
    let d = unsigned_digits(s);
    if d.len() > 0 && (forall|i: int| 0 <= i < d.len() ==> is_ascii_digit(#[trigger] d[i]))
        && digits_value(d) <= u64::MAX {
        Some(digits_value(d) as u64)
    } else {
        None
    }
}

proof fn lemma_digits_value_monotone(d: Seq<char>, n: int)
    requires
        0 <= n <= d.len(),
        forall|i: int| 0 <= i < d.len() ==> is_ascii_digit(#[trigger] d[i]),
    ensures
        digits_value(d.take(n)) <= digits_value(d),
    decreases d.len() - n,
{
    if n < d.len() {
        lemma_digits_value_monotone(d, n + 1);
        assert(d.take(n + 1).drop_last() == d.take(n));
        assert(is_ascii_digit(d[n]));
    } else {
        assert(d.take(n) == d);
    }
}

/// `s.parse::<u64>()`.
#[verifier::spinoff_prover]
pub(crate) fn parse_u64(s: &Vec<char>) -> (r: Option<u64>)
    ensures
        r == parse_u64_spec(s@),
{
    let start: usize = if s.len() > 0 && s[0] == '+' {
        1
    } else {
        0
    };
    let ghost d = unsigned_digits(s@);
    assert(d == s@.skip(start as int));
    if start == s.len() {
        return None;
    }
    let mut value: u64 = 0;
    let mut i = start;
    while i < s.len()
        invariant
            start <= i <= s@.len(),
            d == s@.skip(start as int),
            d == unsigned_digits(s@),
            forall|k: int| start <= k < i ==> is_ascii_digit(#[trigger] s@[k]),
            value == digits_value(d.take(i - start)),
        decreases s@.len() - i,
    {
        let c = s[i];
        if !('0' <= c && c <= '9') {
            assert(d[i - start] == c);
            assert(!is_ascii_digit(d[i - start]));
            return None;
        }
        let digit = (c as u32 - 48) as u64;
        proof {
            assert(d.take(i - start + 1).drop_last() == d.take(i - start));
            assert(d.take(i - start + 1).last() == c);
        }
        let ghost prefix = d.take(i - start + 1);
        assert(digits_value(prefix) == value * 10 + digit);
        match value.checked_mul(10) {
            Some(tens) => match tens.checked_add(digit) {
                Some(next) => {
                    value = next;
                },
                None => {
                    proof {
                        if forall|k: int| 0 <= k < d.len() ==> is_ascii_digit(#[trigger] d[k]) {
                            lemma_digits_value_monotone(d, i - start + 1);
                        }
                    }
                    return None;
                },
            },
            None => {
                proof {
                    if forall|k: int| 0 <= k < d.len() ==> is_ascii_digit(#[trigger] d[k]) {
                        lemma_digits_value_monotone(d, i - start + 1);
                    }
                }
                return None;
            },
        }
        i += 1;
    }
    assert(d.take(i - start) == d);
    Some(value)
}

/// The timeout a looked-up value asks for: a positive whole number of
/// seconds, surrounding whitespace allowed; anything else gives the default.
pub open spec fn timeout_from(v: Option<String>) -> u64 {
    match non_empty(v) {
        Some(t) => match parse_u64_spec(trim_ws(t)) {
            Some(n) => if n > 0 {
                n
            } else {
                DEFAULT_TIMEOUT
            },
            None => DEFAULT_TIMEOUT,
        },
        None => DEFAULT_TIMEOUT,
    }
}

pub open spec fn timeout_outcome<F: Fn(&str) -> Option<String>>(get: F, r: u64) -> bool {
    exists|a: Option<String>| #[trigger] get.ensures((ENV_TIMEOUT_SECS,), a) && r == timeout_from(a)
}

/// The request timeout in seconds.
pub fn resolve_timeout<F: Fn(&str) -> Option<String>>(get: F) -> (r: u64)
    requires
        forall|k: &str| get.requires((k,)),
    ensures
        timeout_outcome(get, r),
{
    timeout_of(&get)
}

fn timeout_of<F: Fn(&str) -> Option<String>>(get: &F) -> (r: u64)
    requires
        forall|k: &str| get.requires((k,)),
    ensures
        timeout_outcome(*get, r),
{
    match env_non_empty(get, ENV_TIMEOUT_SECS) {
        Some(v) => {
            let cs = chars_of(v.as_str());
            let t = trim_chars(&cs);
            match parse_u64(&t) {
                Some(n) => if n > 0 {
                    n
                } else {
                    DEFAULT_TIMEOUT
                },
                None => DEFAULT_TIMEOUT,
            }
        },
        None => DEFAULT_TIMEOUT,
    }
}

// ---------------------------------------------------------------------------
// All settings together
// ---------------------------------------------------------------------------

/// `r` is what reading the prompt template from `src` may give.
pub open spec fn template_outcome<R: Fn(&str) -> Result<String, String>>(
    read_file: R,
    src: SystemPromptSource,
    r: Result<String, GeminiError>,
) -> bool {
    match src {
        SystemPromptSource::Inline(p) => r matches Ok(t) && t@ == p@,
        SystemPromptSource::File(path) => exists|x: &str, res: Result<String, String>|
            x@ == path@ && #[trigger] read_file.ensures((x,), res) && match res {
                Ok(text) => r matches Ok(t) && t@ == text@,
                Err(reason) => r matches Err(GeminiError::PromptFileUnreadable { path: p, reason: q })
                    && p@ == path@ && q@ == reason@,
            },
        SystemPromptSource::BuiltIn => r matches Ok(t) && t@ == DEFAULT_SYSTEM_PROMPT@,
    }
}

pub open spec fn user_instruction_spec(language: Seq<char>) -> Seq<char> {
    "Convert this image to text per the system instructions. Preferred output language: "@
        + language + "."@
}

/// `r` is what `resolve_gemini_settings` may return for `get` and
/// `read_file`: each setting is what its own resolver may return, and the
/// system prompt is the template with the output language filled in.
pub open spec fn settings_outcome<
    F: Fn(&str) -> Option<String>,
    R: Fn(&str) -> Result<String, String>,
>(get: F, read_file: R, r: Result<GeminiSettings, GeminiError>) -> bool {
    match r {
        Err(e) => api_key_outcome(get, Err(e)) || exists|key: String, src: SystemPromptSource|
            #[trigger] api_key_outcome(get, Ok(key)) && #[trigger] prompt_source_outcome(get, src)
                && template_outcome(read_file, src, Err(e)),
        Ok(s) => api_key_outcome(get, Ok(s.api_key)) && model_outcome(get, s.model) && exists|
            language: String,
            src: SystemPromptSource,
            t: String,
        |
            #![trigger language_outcome(get, language), prompt_source_outcome(get, src), template_outcome(read_file, src, Ok(t))]
            language_outcome(get, language) && prompt_source_outcome(get, src)
                && template_outcome(read_file, src, Ok(t)) && s.system_prompt@ == replace_all(
                t@,
                "{language}"@,
                language@,
            ) && s.user_instruction@ == user_instruction_spec(language@) && timeout_outcome(
                get,
                s.timeout,
            ),
    }
}

/// Everything the image-to-text request needs, from the environment and,
/// when the prompt lives in a file, from `read_file`.
pub fn resolve_gemini_settings<
    F: Fn(&str) -> Option<String>,
    R: Fn(&str) -> Result<String, String>,
>(get: F, read_file: R) -> (r: Result<GeminiSettings, GeminiError>)
    requires
        forall|k: &str| get.requires((k,)),
        forall|k: &str| read_file.requires((k,)),
    ensures
        settings_outcome(get, read_file, r),
{
    let api_key = match api_key_of(&get) {
        Ok(k) => k,
        Err(e) => return Err(e),
    };
    let model = model_of(&get);
    let language = language_of(&get);
    let src = prompt_source_of(&get);
    let ghost src0 = src;
    let template = match src {
        SystemPromptSource::Inline(prompt) => prompt,
        SystemPromptSource::File(path) => match read_file(path.as_str()) {
            Ok(text) => text,
            Err(reason) => {
                let e = GeminiError::PromptFileUnreadable { path, reason };
                assert(template_outcome(read_file, src0, Err(e)));
                return Err(e);
            },
        },
        SystemPromptSource::BuiltIn => owned(DEFAULT_SYSTEM_PROMPT),
    };
    assert(template_outcome(read_file, src0, Ok(template)));
    let system_prompt = render_prompt(template.as_str(), language.as_str());
    let mut instruction: Vec<char> = Vec::new();
    push_str(
        &mut instruction,
        "Convert this image to text per the system instructions. Preferred output language: ",
    );
    push_str(&mut instruction, language.as_str());
    push_str(&mut instruction, ".");
    let timeout = timeout_of(&get);
    let s = GeminiSettings {
        api_key,
        model,
        system_prompt,
        user_instruction: string_of(instruction.as_slice()),
        timeout,
    };
    assert(language_outcome(get, language) && prompt_source_outcome(get, src0) && template_outcome(read_file, src0, Ok(template)));
    Ok(s)
}

/// The log file: the tool's variable when it is set, else `default`.
pub fn resolve_log_path<F: Fn(&str) -> Option<String>>(get: F, default: Option<String>) -> (r:
    Option<String>)
    requires
        forall|k: &str| get.requires((k,)),
    ensures
        exists|a: Option<String>|
            #[trigger] get.ensures((ENV_LOG_FILE,), a) && match non_empty(a) {
                Some(p) => r matches Some(x) && x@ == p,
                None => r == default,
            },
{
    match env_non_empty(&get, ENV_LOG_FILE) {
        Some(p) => Some(p),
        None => default,
    }
}

} // verus!
