//! Reading and writing JSON text. The grammar and the printer are serde_json's;
//! this module carries values between serde_json's document type and the
//! library's `JsonValue`.
use vstd::prelude::*;

use crate::dedent::{body_of, pieces, prefix_len};
use crate::json::{Json, JsonValue};
use crate::karabiner::space_pred;
use crate::text::{decimal, text_less};

verus! {

#[verifier::external_type_specification]
#[verifier::external_body]
pub struct ExSerdeJsonValue(serde_json::Value);

/// What serde_json makes of `text`: `None` when it is not one JSON document.
pub uninterp spec fn json_text_parse(text: Seq<char>) -> Option<Json>;

/// `serde_json::to_string_pretty` of a document (two-space indentation).
pub uninterp spec fn json_text_pretty(v: Json) -> Seq<char>;

/// `serde_json::to_string` of a document (no whitespace).
pub uninterp spec fn json_text_compact(v: Json) -> Seq<char>;

/// A number as serde_json prints an integer it holds exactly: the decimal
/// digits of a `u64`, or a minus sign and those of an `i64` below zero.
pub open spec fn canonical_number(t: Seq<char>) -> bool {
    (exists|n: nat| n <= u64::MAX && t == #[trigger] decimal(n)) || (exists|n: nat|
        1 <= n <= 9223372036854775808 && t == seq!['-'] + #[trigger] decimal(n))
}

/// A document that serde_json gives back unchanged after printing it:
/// object keys strictly ascending (the order of serde_json's maps) and
/// numbers that are integers in serde_json's form.
pub open spec fn canonical_json(j: Json) -> bool
    decreases j,
{
    match j {
        Json::Number(t) => canonical_number(t),
        Json::Array(a) => forall|i: int| 0 <= i < a.len() ==> canonical_json(#[trigger] a[i]),
        Json::Object(f) => (forall|i: int|
            0 <= i < f.len() - 1 ==> text_less(#[trigger] f[i].0, f[i + 1].0)) && (forall|i: int|
            0 <= i < f.len() ==> canonical_json(#[trigger] f[i].1)),
        _ => true,
    }
}

/// What `canonical_json` says of an object and of an array.
pub proof fn lemma_canonical_parts(j: Json)
    ensures
        j matches Json::Object(f) ==> (canonical_json(j) <==> ((forall|i: int|
            0 <= i < f.len() - 1 ==> text_less(#[trigger] f[i].0, f[i + 1].0)) && (forall|i: int|
            0 <= i < f.len() ==> canonical_json(#[trigger] f[i].1)))),
        j matches Json::Array(a) ==> (canonical_json(j) <==> (forall|i: int|
            0 <= i < a.len() ==> canonical_json(#[trigger] a[i]))),
{
}

/// At most `levels` arrays and objects nest in `j`, one inside another.
/// serde_json's reader refuses a document with 128 (its recursion limit).
pub open spec fn nests_within(j: Json, levels: nat) -> bool
    decreases j,
{
    match j {
        Json::Array(a) => levels > 0 && forall|i: int|
            0 <= i < a.len() ==> nests_within(#[trigger] a[i], (levels - 1) as nat),
        Json::Object(f) => levels > 0 && forall|i: int|
            0 <= i < f.len() ==> nests_within(#[trigger] f[i].1, (levels - 1) as nat),
        _ => true,
    }
}

/// The lines of `ps`, each with its leading spaces replaced by `k[i]` spaces
/// and ended by a line feed.
pub open spec fn lines_with(ps: Seq<Seq<char>>, k: Seq<nat>) -> Seq<char>
    decreases ps.len(),
{
    if ps.len() == 0 || k.len() != ps.len() {
        seq![]
    } else {
        let b = body_of(ps.last());
        lines_with(ps.drop_last(), k.drop_last()) + Seq::new(k.last(), |i: int| ' ') + b.skip(
            prefix_len(b, space_pred()) as int,
        ) + seq!['\n']
    }
}

/// `y` is `x` with only the spaces that start its lines changed, its line
/// endings written as `"\n"`, and a line feed after its last line.
pub open spec fn relined(x: Seq<char>, y: Seq<char>) -> bool {
    exists|k: Seq<nat>| k.len() == pieces(x).len() && y == #[trigger] lines_with(pieces(x), k)
}

/// Moves a serde_json document into a `JsonValue`, variant for variant;
/// numbers keep the text serde_json prints for them.
#[verifier::external_body]
fn from_serde(v: serde_json::Value) -> JsonValue {
    match v {
        serde_json::Value::Null => JsonValue::Null,
        serde_json::Value::Bool(b) => JsonValue::Bool(b),
        serde_json::Value::Number(n) => JsonValue::Number(n.to_string()),
        serde_json::Value::String(s) => JsonValue::String(s),
        serde_json::Value::Array(a) => JsonValue::Array(a.into_iter().map(from_serde).collect()),
        serde_json::Value::Object(m) => JsonValue::Object(
            m.into_iter().map(|(k, x)| (k, from_serde(x))).collect(),
        ),
    }
}

/// Copies a `JsonValue` into a serde_json document, variant for variant; a
/// number whose text serde_json does not accept becomes `null`.
#[verifier::external_body]
fn to_serde(v: &JsonValue) -> serde_json::Value {
    match v {
        JsonValue::Null => serde_json::Value::Null,
        JsonValue::Bool(b) => serde_json::Value::Bool(*b),
        JsonValue::Number(t) => t.parse().map_or(serde_json::Value::Null, serde_json::Value::Number),
        JsonValue::String(s) => serde_json::Value::String(s.clone()),
        JsonValue::Array(a) => serde_json::Value::Array(a.iter().map(to_serde).collect()),
        JsonValue::Object(f) => serde_json::Value::Object(
            f.iter().map(|(k, x)| (k.clone(), to_serde(x))).collect(),
        ),
    }
}

/// `serde_json::from_str::<serde_json::Value>`: the document is a function of
/// the text alone, and the call fails exactly when the text is not JSON; the
/// error carries serde_json's message, of which nothing is stated.
#[verifier::external_body]
pub(crate) fn parse_json(text: &str) -> (r: Result<JsonValue, String>)
    ensures
        match r {
            Ok(v) => json_text_parse(text@) == Some(v@),
            Err(_) => json_text_parse(text@) is None,
        },
{
    match serde_json::from_str::<serde_json::Value>(text) {
        Ok(v) => Ok(from_serde(v)),
        Err(error) => Err(error.to_string()),
    }
}

/// `serde_json::to_string_pretty`: the text is a function of the document
/// alone (printing a `serde_json::Value` cannot fail). Two facts of
/// serde_json's reader are stated of the text: reading it gives a canonical
/// document back when at most 127 arrays and objects nest in it (the reader
/// refuses deeper documents), and changing the spaces that start its lines, `"\r\n"`
/// into `"\n"`, or a final line feed changes nothing read, since the reader
/// skips spaces, tabs, carriage returns and line feeds between tokens and
/// refuses them raw inside strings.
#[verifier::external_body]
pub(crate) fn pretty_json(v: &JsonValue) -> (r: String)
    ensures
        r@ == json_text_pretty(v@),
        canonical_json(v@) && nests_within(v@, 127) ==> json_text_parse(r@) == Some(v@),
        forall|y: Seq<char>| #[trigger] relined(r@, y) ==> json_text_parse(y) == json_text_parse(r@),
{
    serde_json::to_string_pretty(&to_serde(v)).unwrap_or_default()
}

/// `serde_json::to_string`: the text is a function of the document alone.
#[verifier::external_body]
pub(crate) fn compact_json(v: &JsonValue) -> (r: String)
    ensures
        r@ == json_text_compact(v@),
{
    serde_json::to_string(&to_serde(v)).unwrap_or_default()
}

} // verus!
