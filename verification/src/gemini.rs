//! Image-to-text through the Gemini API: the request body, what a response
//! means, and the errors of that path. Sending the request is the caller's.
use vstd::prelude::*;

use crate::json::{as_str, get, get_field, Json, JsonValue};
use crate::json_text::{compact_json, json_text_compact, json_text_parse, parse_json};
use crate::settings::{parse_u64, parse_u64_spec};
use crate::text::{
    all_whitespace, chars_of, decimal, lemma_trim_ws_empty, push_decimal, push_str, string_of,
    trim_chars,
};

verus! {

/// Largest request the Gemini API accepts for inline image data.
pub const GEMINI_MAX_REQUEST_BYTES: usize = 20 * 1024 * 1024;

#[derive(Debug, Clone, PartialEq, Eq)]
pub enum GeminiError {
    MissingApiKey,
    NoImage,
    ImageTooLarge { request_bytes: usize },
    ImageConversion { reason: String },
    Api { status: u16, message: String },
    EmptyResponse { block_reason: Option<String> },
    InvalidResponse,
    PromptFileUnreadable { path: String, reason: String },
}

/// Mathematical form of a `GeminiError`.
pub enum GeminiFailure {
    MissingApiKey,
    NoImage,
    ImageTooLarge { request_bytes: nat },
    ImageConversion { reason: Seq<char> },
    Api { status: u16, message: Seq<char> },
    EmptyResponse { block_reason: Option<Seq<char>> },
    InvalidResponse,
    PromptFileUnreadable { path: Seq<char>, reason: Seq<char> },
}

pub open spec fn gemini_failure(e: GeminiError) -> GeminiFailure {
    match e {
        GeminiError::MissingApiKey => GeminiFailure::MissingApiKey,
        GeminiError::NoImage => GeminiFailure::NoImage,
        GeminiError::ImageTooLarge { request_bytes } => GeminiFailure::ImageTooLarge {
            request_bytes: request_bytes as nat,
        },
        GeminiError::ImageConversion { reason } => GeminiFailure::ImageConversion {
            reason: reason@,
        },
        GeminiError::Api { status, message } => GeminiFailure::Api { status, message: message@ },
        GeminiError::EmptyResponse { block_reason } => GeminiFailure::EmptyResponse {
            block_reason: match block_reason {
                Some(s) => Some(s@),
                None => None,
            },
        },
        GeminiError::InvalidResponse => GeminiFailure::InvalidResponse,
        GeminiError::PromptFileUnreadable { path, reason } => GeminiFailure::PromptFileUnreadable {
            path: path@,
            reason: reason@,
        },
    }
}

/// The text shown to the user for an error.
pub open spec fn gemini_message(f: GeminiFailure) -> Seq<char> {
    match f {
        GeminiFailure::MissingApiKey => "Gemini API key not set; set "@
            + crate::settings::ENV_GEMINI_API_KEY@ + " or "@
            + crate::settings::ENV_GEMINI_API_KEY_FALLBACK@ + " to enable image-to-text"@,
        GeminiFailure::NoImage => "clipboard has no text or image"@,
        GeminiFailure::ImageTooLarge { request_bytes } =>
            "clipboard image is too large for the Gemini API (request would be "@ + decimal(
            request_bytes,
        ) + " bytes; the limit is "@ + decimal(GEMINI_MAX_REQUEST_BYTES as nat) + ")"@,
        GeminiFailure::ImageConversion { reason } => "failed to convert clipboard image to PNG: "@
            + reason,
        GeminiFailure::Api { status, message } => "Gemini API error (HTTP "@ + decimal(
            status as nat,
        ) + "): "@ + message,
        GeminiFailure::EmptyResponse { block_reason } => match block_reason {
            Some(reason) => "Gemini returned no text (block reason: "@ + reason + ")"@,
            None => "Gemini returned no text"@,
        },
        GeminiFailure::InvalidResponse => "Gemini returned an unexpected response format"@,
        GeminiFailure::PromptFileUnreadable { path, reason } => "cannot read system prompt file "@
            + path + ": "@ + reason,
    }
}

impl GeminiError {
    /// The text shown to the user for this error.
    pub fn message(&self) -> (r: String)
        ensures
            r@ == gemini_message(gemini_failure(*self)),
    {
        let mut out: Vec<char> = Vec::new();
        match self {
            GeminiError::MissingApiKey => {
                push_str(&mut out, "Gemini API key not set; set ");
                push_str(&mut out, crate::settings::ENV_GEMINI_API_KEY);
                push_str(&mut out, " or ");
                push_str(&mut out, crate::settings::ENV_GEMINI_API_KEY_FALLBACK);
                push_str(&mut out, " to enable image-to-text");
            },
            GeminiError::NoImage => {
                push_str(&mut out, "clipboard has no text or image");
            },
            GeminiError::ImageTooLarge { request_bytes } => {
                push_str(
                    &mut out,
                    "clipboard image is too large for the Gemini API (request would be ",
                );
                push_decimal(&mut out, *request_bytes as u64);
                push_str(&mut out, " bytes; the limit is ");
                push_decimal(&mut out, GEMINI_MAX_REQUEST_BYTES as u64);
                push_str(&mut out, ")");
            },
            GeminiError::ImageConversion { reason } => {
                push_str(&mut out, "failed to convert clipboard image to PNG: ");
                push_str(&mut out, reason.as_str());
            },
            GeminiError::Api { status, message } => {
                push_str(&mut out, "Gemini API error (HTTP ");
                push_decimal(&mut out, *status as u64);
                push_str(&mut out, "): ");
                push_str(&mut out, message.as_str());
            },
            GeminiError::EmptyResponse { block_reason } => {
                match block_reason {
                    Some(reason) => {
                        push_str(&mut out, "Gemini returned no text (block reason: ");
                        push_str(&mut out, reason.as_str());
                        push_str(&mut out, ")");
                    },
                    None => {
                        push_str(&mut out, "Gemini returned no text");
                    },
                }
            },
            GeminiError::InvalidResponse => {
                push_str(&mut out, "Gemini returned an unexpected response format");
            },
            GeminiError::PromptFileUnreadable { path, reason } => {
                push_str(&mut out, "cannot read system prompt file ");
                push_str(&mut out, path.as_str());
                push_str(&mut out, ": ");
                push_str(&mut out, reason.as_str());
            },
        }
        string_of(out.as_slice())
    }
}

/// Errors that are expected in normal use (no key configured, nothing on the
/// clipboard) and are not reported to the user.
pub fn is_silent_error(error: &GeminiError) -> (r: bool)
    ensures
        r == (error is MissingApiKey || error is NoImage),
{
    match error {
        GeminiError::MissingApiKey | GeminiError::NoImage => true,
        _ => false,
    }
}

// ---------------------------------------------------------------------------
// Request size
// ---------------------------------------------------------------------------

/// Allowance for the JSON around the prompt and the image data.
pub const ENVELOPE_BYTES: usize = 1024;

/// Bytes of a request carrying `image_bytes` of image (as base64) and
/// `prompt_bytes` of prompt text.
pub open spec fn request_bytes_spec(image_bytes: nat, prompt_bytes: nat) -> nat {
    ((image_bytes + 2) / 3) * 4 + prompt_bytes + ENVELOPE_BYTES as nat
}

/// Whether the size of such a request can be computed in a `usize`, which
/// `check_image_size` needs.
pub fn request_size_fits(image_bytes: usize, prompt_bytes: usize) -> (r: bool)
    ensures
        r == (request_bytes_spec(image_bytes as nat, prompt_bytes as nat) <= usize::MAX),
{
    let groups = image_bytes / 3 + if image_bytes % 3 != 0 {
        1
    } else {
        0
    };
    assert(groups == (image_bytes + 2) / 3);
    match groups.checked_mul(4) {
        Some(encoded) => match encoded.checked_add(prompt_bytes) {
            Some(with_prompt) => with_prompt.checked_add(ENVELOPE_BYTES).is_some(),
            None => false,
        },
        None => false,
    }
}

/// Refuse images whose request would exceed what the API accepts.
pub fn check_image_size(image_bytes: usize, prompt_bytes: usize) -> (r: Result<(), GeminiError>)
    requires
        request_bytes_spec(image_bytes as nat, prompt_bytes as nat) <= usize::MAX,
    ensures
        if request_bytes_spec(image_bytes as nat, prompt_bytes as nat) <= GEMINI_MAX_REQUEST_BYTES {
            r is Ok
        } else {
            r matches Err(GeminiError::ImageTooLarge { request_bytes }) && request_bytes
                == request_bytes_spec(image_bytes as nat, prompt_bytes as nat)
        },
{
    let groups = image_bytes / 3 + if image_bytes % 3 != 0 {
        1
    } else {
        0
    };
    assert(groups == (image_bytes + 2) / 3);
    let request_bytes = groups * 4 + prompt_bytes + ENVELOPE_BYTES;
    if request_bytes > GEMINI_MAX_REQUEST_BYTES {
        Err(GeminiError::ImageTooLarge { request_bytes })
    } else {
        Ok(())
    }
}

// ---------------------------------------------------------------------------
// Request body
// ---------------------------------------------------------------------------

/// An image taken from the clipboard.
pub struct ClipboardImage {
    pub mime_type: &'static str,
    pub data: Vec<u8>,
}

/// The character for a 6-bit value in the standard base64 alphabet.
pub open spec fn base64_char(v: nat) -> char {
    if v < 26 {
        (65 + v) as char
    } else if v < 52 {
        (97 + (v - 26)) as char
    } else if v < 62 {
        (48 + (v - 52)) as char
    } else if v == 62 {
        '+'
    } else {
        '/'
    }
}

/// Standard base64 with `=` padding (RFC 4648, section 4).
pub open spec fn base64_spec(b: Seq<u8>) -> Seq<char>
    decreases b.len(),
{
    if b.len() == 0 {
        seq![]
    } else if b.len() == 1 {
        seq![base64_char(b[0] as nat / 4), base64_char((b[0] as nat % 4) * 16), '=', '=']
    } else if b.len() == 2 {
        seq![
            base64_char(b[0] as nat / 4),
            base64_char((b[0] as nat % 4) * 16 + b[1] as nat / 16),
            base64_char((b[1] as nat % 16) * 4),
            '=',
        ]
    } else {
        seq![
            base64_char(b[0] as nat / 4),
            base64_char((b[0] as nat % 4) * 16 + b[1] as nat / 16),
            base64_char((b[1] as nat % 16) * 4 + b[2] as nat / 64),
            base64_char(b[2] as nat % 64),
        ] + base64_spec(b.skip(3))
    }
}

/// `base64::engine::general_purpose::STANDARD.encode`: standard alphabet,
/// with padding.
#[verifier::external_body]
fn base64_encode(data: &[u8]) -> (r: String)
    ensures
        r@ == base64_spec(data@),
{
    base64::Engine::encode(&base64::engine::general_purpose::STANDARD, data)
}

fn string_value(s: &str) -> (r: JsonValue)
    ensures
        r@ == Json::Str(s@),
{
    let cs = chars_of(s);
    JsonValue::String(string_of(cs.as_slice()))
}

fn object1(k: &str, v: JsonValue) -> (r: JsonValue)
    ensures
        r@ == Json::Object(seq![(k@, v@)]),
{
    let mut f: Vec<(String, JsonValue)> = Vec::new();
    let cs = chars_of(k);
    f.push((string_of(cs.as_slice()), v));
    proof {
        crate::json::lemma_model_object(f);
        assert(crate::json::model_fields(f@) =~= seq![(k@, v@)]);
    }
    JsonValue::Object(f)
}

fn object2(k1: &str, v1: JsonValue, k2: &str, v2: JsonValue) -> (r: JsonValue)
    ensures
        r@ == Json::Object(seq![(k1@, v1@), (k2@, v2@)]),
{
    let mut f: Vec<(String, JsonValue)> = Vec::new();
    let c1 = chars_of(k1);
    f.push((string_of(c1.as_slice()), v1));
    let c2 = chars_of(k2);
    f.push((string_of(c2.as_slice()), v2));
    proof {
        crate::json::lemma_model_object(f);
        assert(crate::json::model_fields(f@) =~= seq![(k1@, v1@), (k2@, v2@)]);
    }
    JsonValue::Object(f)
}

fn array1(v: JsonValue) -> (r: JsonValue)
    ensures
        r@ == Json::Array(seq![v@]),
{
    let mut a: Vec<JsonValue> = Vec::new();
    a.push(v);
    proof {
        crate::json::lemma_model_array(a);
        assert(crate::json::model_items(a@) =~= seq![v@]);
    }
    JsonValue::Array(a)
}

fn array2(v1: JsonValue, v2: JsonValue) -> (r: JsonValue)
    ensures
        r@ == Json::Array(seq![v1@, v2@]),
{
    let mut a: Vec<JsonValue> = Vec::new();
    a.push(v1);
    a.push(v2);
    proof {
        crate::json::lemma_model_array(a);
        assert(crate::json::model_items(a@) =~= seq![v1@, v2@]);
    }
    JsonValue::Array(a)
}

/// The `generateContent` request: the system prompt as system instruction,
/// then one user turn holding the image (base64 `data`) and the instruction.
pub open spec fn request_document(
    system_prompt: Seq<char>,
    user_instruction: Seq<char>,
    mime_type: Seq<char>,
    data: Seq<char>,
) -> Json {
    Json::Object(
        seq![
            (
                "system_instruction"@,
                Json::Object(
                    seq![
                        (
                            "parts"@,
                            Json::Array(seq![Json::Object(seq![("text"@, Json::Str(system_prompt))])]),
                        ),
                    ],
                ),
            ),
            (
                "contents"@,
                Json::Array(
                    seq![
                        Json::Object(
                            seq![
                                (
                                    "parts"@,
                                    Json::Array(
                                        seq![
                                            Json::Object(
                                                seq![
                                                    (
                                                        "inline_data"@,
                                                        Json::Object(
                                                            seq![
                                                                ("mime_type"@, Json::Str(mime_type)),
                                                                ("data"@, Json::Str(data)),
                                                            ],
                                                        ),
                                                    ),
                                                ],
                                            ),
                                            Json::Object(seq![("text"@, Json::Str(user_instruction))]),
                                        ],
                                    ),
                                ),
                            ],
                        ),
                    ],
                ),
            ),
        ],
    )
}

/// The JSON body of a `generateContent` request for `image`.
pub fn build_generate_content_request(
    system_prompt: &str,
    user_instruction: &str,
    image: &ClipboardImage,
) -> (r: String)
    ensures
        r@ == json_text_compact(
            request_document(
                system_prompt@,
                user_instruction@,
                image.mime_type@,
                base64_spec(image.data@),
            ),
        ),
{
    let encoded = base64_encode(image.data.as_slice());
    let inline = object1(
        "inline_data",
        object2(
            "mime_type",
            string_value(image.mime_type),
            "data",
            string_value(encoded.as_str()),
        ),
    );
    let parts = array2(inline, object1("text", string_value(user_instruction)));
    let contents = array1(object1("parts", parts));
    let system_instruction = object1("parts", array1(object1("text", string_value(system_prompt))));
    let doc = object2("system_instruction", system_instruction, "contents", contents);
    compact_json(&doc)
}

// ---------------------------------------------------------------------------
// Response
// ---------------------------------------------------------------------------

/// The `parts` of the first candidate's content.
pub open spec fn first_candidate_parts(v: Json) -> Option<Seq<Json>> {
    match get(v, "candidates"@) {
        Some(Json::Array(cs)) => if cs.len() > 0 {
            match get(cs[0], "content"@) {
                Some(c) => match get(c, "parts"@) {
                    Some(Json::Array(ps)) => Some(ps),
                    _ => None,
                },
                None => None,
            }
        } else {
            None
        },
        _ => None,
    }
}

/// The `text` members of `ps` that are strings, concatenated.
pub open spec fn part_texts(ps: Seq<Json>) -> Seq<char>
    decreases ps.len(),
{
    if ps.len() == 0 {
        seq![]
    } else {
        part_texts(ps.drop_last()) + match as_str(get(ps.last(), "text"@)) {
            Some(t) => t,
            None => seq![],
        }
    }
}

/// The HTTP status in an error object's `code`: its value when it is a
/// whole number (JSON text of digits only), truncated to 16 bits; else 0.
pub open spec fn error_status(err: Json) -> u16 {
    match get(err, "code"@) {
        Some(Json::Number(t)) => match parse_u64_spec(t) {
            Some(n) => (n % 65536) as u16,
            None => 0,
        },
        _ => 0,
    }
}

/// What a parsed `generateContent` response means: the API's error, the
/// text of the first candidate, or no text (with the block reason if any).
pub open spec fn response_spec(v: Json) -> Result<Seq<char>, GeminiFailure> {
    match get(v, "error"@) {
        Some(err) => Err(
            GeminiFailure::Api {
                status: error_status(err),
                message: match as_str(get(err, "message"@)) {
                    Some(m) => m,
                    None => "unknown error"@,
                },
            },
        ),
        None => {
            let text = match first_candidate_parts(v) {
                Some(ps) => part_texts(ps),
                None => seq![],
            };
            if all_whitespace(text) {
                Err(
                    GeminiFailure::EmptyResponse {
                        block_reason: match get(v, "promptFeedback"@) {
                            Some(f) => as_str(get(f, "blockReason"@)),
                            None => None,
                        },
                    },
                )
            } else {
                Ok(text)
            }
        },
    }
}

fn u16_of(n: u64) -> (r: u16)
    ensures
        r == (n % 65536) as u16,
{
    (n % 65536) as u16
}

fn error_status_of(err: &JsonValue) -> (r: u16)
    ensures
        r == error_status(err@),
{
    match get_field(err, "code") {
        Some(JsonValue::Number(t)) => {
            let cs = chars_of(t.as_str());
            match parse_u64(&cs) {
                Some(n) => u16_of(n),
                None => 0,
            }
        },
        _ => 0,
    }
}

fn copy_string(s: &String) -> (r: String)
    ensures
        r@ == s@,
{
    let cs = chars_of(s.as_str());
    string_of(cs.as_slice())
}

fn collect_part_texts(ps: &Vec<JsonValue>) -> (r: Vec<char>)
    ensures
        r@ == part_texts(crate::json::model_items(ps@)),
{
    let ghost ms = crate::json::model_items(ps@);
    let mut out: Vec<char> = Vec::new();
    let mut i: usize = 0;
    while i < ps.len()
        invariant
            i <= ps@.len(),
            ms == crate::json::model_items(ps@),
            out@ == part_texts(ms.take(i as int)),
        decreases ps@.len() - i,
    {
        assert(ms.take(i + 1).drop_last() =~= ms.take(i as int));
        assert(ms[i as int] == ps@[i as int]@);
        match get_field(&ps[i], "text") {
            Some(JsonValue::String(t)) => {
                push_str(&mut out, t.as_str());
            },
            Some(other) => {
                proof {
                    crate::json::lemma_model_kind(*other);
                }
            },
            None => {},
        }
        assert(out@ =~= part_texts(ms.take(i + 1)));
        i += 1;
    }
    assert(ms.take(ps@.len() as int) =~= ms);
    out
}

fn candidate_text(v: &JsonValue) -> (r: Vec<char>)
    ensures
        r@ == match first_candidate_parts(v@) {
            Some(ps) => part_texts(ps),
            None => seq![],
        },
{
    match get_field(v, "candidates") {
        Some(JsonValue::Array(cs)) => {
            proof {
                crate::json::lemma_model_array(*cs);
            }
            if cs.len() == 0 {
                return Vec::new();
            }
            assert(crate::json::model_items(cs@)[0] == cs@[0]@);
            match get_field(&cs[0], "content") {
                Some(c) => match get_field(c, "parts") {
                    Some(JsonValue::Array(ps)) => {
                        proof {
                            crate::json::lemma_model_array(*ps);
                        }
                        collect_part_texts(ps)
                    },
                    Some(other) => {
                        proof {
                            crate::json::lemma_model_kind(*other);
                        }
                        Vec::new()
                    },
                    None => Vec::new(),
                },
                None => Vec::new(),
            }
        },
        Some(other) => {
            proof {
                crate::json::lemma_model_kind(*other);
            }
            Vec::new()
        },
        None => Vec::new(),
    }
}

/// What a parsed `generateContent` response holds (see `response_spec`).
pub fn text_from_response_value(v: &JsonValue) -> (r: Result<String, GeminiError>)
    ensures
        match response_spec(v@) {
            Ok(t) => r matches Ok(s) && s@ == t,
            Err(f) => r matches Err(e) && gemini_failure(e) == f,
        },
{
    match get_field(v, "error") {
        Some(err) => {
            let status = error_status_of(err);
            let message = match get_field(err, "message") {
                Some(JsonValue::String(m)) => copy_string(m),
                Some(other) => {
                    proof {
                        crate::json::lemma_model_kind(*other);
                    }
                    string_of(chars_of("unknown error").as_slice())
                },
                None => string_of(chars_of("unknown error").as_slice()),
            };
            return Err(GeminiError::Api { status, message });
        },
        None => {},
    }
    let text = candidate_text(v);
    let trimmed = trim_chars(&text);
    proof {
        lemma_trim_ws_empty(text@);
    }
    if trimmed.len() == 0 {
        let block_reason = match get_field(v, "promptFeedback") {
            Some(f) => match get_field(f, "blockReason") {
                Some(JsonValue::String(b)) => Some(copy_string(b)),
                Some(other) => {
                    proof {
                        crate::json::lemma_model_kind(*other);
                    }
                    None
                },
                None => None,
            },
            None => None,
        };
        return Err(GeminiError::EmptyResponse { block_reason });
    }
    Ok(string_of(text.as_slice()))
}

/// Parse a `generateContent` response body: its text, or the error it
/// reports, or `InvalidResponse` when the body is not JSON.
pub fn extract_text_from_response(body: &str) -> (r: Result<String, GeminiError>)
    ensures
        match json_text_parse(body@) {
            None => r == Err::<String, GeminiError>(GeminiError::InvalidResponse),
            Some(v) => match response_spec(v) {
                Ok(t) => r matches Ok(s) && s@ == t,
                Err(f) => r matches Err(e) && gemini_failure(e) == f,
            },
        },
{
    match parse_json(body) {
        Ok(v) => text_from_response_value(&v),
        Err(_) => Err(GeminiError::InvalidResponse),
    }
}

/// The endpoint of `generateContent` for a model.
pub open spec fn generate_content_url_spec(model: Seq<char>) -> Seq<char> {
    "https://generativelanguage.googleapis.com/v1beta/models/"@ + model + ":generateContent"@
}

pub fn generate_content_url(model: &str) -> (r: String)
    ensures
        r@ == generate_content_url_spec(model@),
{
    let mut out: Vec<char> = Vec::new();
    push_str(&mut out, "https://generativelanguage.googleapis.com/v1beta/models/");
    push_str(&mut out, model);
    push_str(&mut out, ":generateContent");
    string_of(out.as_slice())
}

/// What an HTTP reply to `generateContent` means: as for
/// `extract_text_from_response`, except that a body that is not JSON with a
/// status outside 2xx is an API error of that status.
pub fn interpret_response(status: u16, body: &str) -> (r: Result<String, GeminiError>)
    ensures
        match json_text_parse(body@) {
            None => if 200 <= status < 300 {
                r == Err::<String, GeminiError>(GeminiError::InvalidResponse)
            } else {
                r matches Err(GeminiError::Api { status: s, message }) && s == status && message@
                    == "unexpected non-JSON response"@
            },
            Some(v) => match response_spec(v) {
                Ok(t) => r matches Ok(s) && s@ == t,
                Err(f) => r matches Err(e) && gemini_failure(e) == f,
            },
        },
{
    match parse_json(body) {
        Ok(v) => text_from_response_value(&v),
        Err(_) => {
            if 200 <= status && status < 300 {
                Err(GeminiError::InvalidResponse)
            } else {
                Err(
                    GeminiError::Api {
                        status,
                        message: string_of(chars_of("unexpected non-JSON response").as_slice()),
                    },
                )
            }
        },
    }
}

// ---------------------------------------------------------------------------
// Clipboard bitmaps
// ---------------------------------------------------------------------------

/// The eight bytes every PNG file starts with.
pub open spec fn png_signature() -> Seq<u8> {
    seq![137u8, 80u8, 78u8, 71u8, 13u8, 10u8, 26u8, 10u8]
}

/// The PNG file the image crate makes of the BMP file `bytes`: nothing when
/// it does not decode them as a BMP, or cannot encode the decoded image.
pub uninterp spec fn png_of_bmp(bytes: Seq<u8>) -> Option<Seq<u8>>;

/// `image::load_from_memory_with_format(.., ImageFormat::Bmp)` followed by
/// `DynamicImage::write_to(.., ImageFormat::Png)` into an empty buffer. Both
/// depend on the bytes alone, so the PNG file is named by `png_of_bmp`; the
/// png encoder writes the signature before anything else. The error carries
/// the crate's message, of which nothing is stated.
#[verifier::external_body]
fn bmp_bytes_to_png(bmp: &[u8]) -> (r: Result<Vec<u8>, String>)
    ensures
        match r {
            Ok(png) => png_of_bmp(bmp@) == Some(png@),
            Err(_) => png_of_bmp(bmp@) is None,
        },
        r matches Ok(png) ==> png@.len() >= 8 && png@.take(8) == png_signature(),
{
    let decoded = image::load_from_memory_with_format(bmp, image::ImageFormat::Bmp)
        .map_err(|e| e.to_string())?;
    let mut png = Vec::new();
    match decoded.write_to(&mut std::io::Cursor::new(&mut png), image::ImageFormat::Png) {
        Ok(()) => Ok(png),
        Err(e) => Err(e.to_string()),
    }
}

/// Convert a clipboard bitmap (BMP) to PNG for the API: the image crate's
/// PNG file for it, or `ImageConversion` when there is none.
pub fn bmp_to_png(bmp: &[u8]) -> (r: Result<Vec<u8>, GeminiError>)
    ensures
        match png_of_bmp(bmp@) {
            Some(p) => r matches Ok(png) && png@ == p,
            None => r matches Err(GeminiError::ImageConversion { .. }),
        },
        r matches Ok(png) ==> png@.len() >= 8 && png@.take(8) == png_signature(),
{
    match bmp_bytes_to_png(bmp) {
        Ok(png) => Ok(png),
        Err(reason) => Err(GeminiError::ImageConversion { reason }),
    }
}

} // verus!
