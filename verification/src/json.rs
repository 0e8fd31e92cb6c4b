//! A JSON document model for the parts of configuration and API responses
//! that the library reads and rewrites.
use vstd::prelude::*;

use crate::text::text_less;

verus! {

/// A JSON value. Object members keep their order; lookups find the first
/// member with a given key, and new members go in key order.
#[derive(Debug, PartialEq, Eq)]
pub enum JsonValue {
    Null,
    Bool(bool),
    /// A number, in its JSON text form.
    Number(String),
    String(String),
    Array(Vec<JsonValue>),
    Object(Vec<(String, JsonValue)>),
}

/// Mathematical form of a JSON value.
pub enum Json {
    Null,
    Bool(bool),
    Number(Seq<char>),
    Str(Seq<char>),
    Array(Seq<Json>),
    Object(Seq<(Seq<char>, Json)>),
}

pub open spec fn model(v: JsonValue) -> Json
    decreases v,
{
    match v {
        JsonValue::Null => Json::Null,
        JsonValue::Bool(b) => Json::Bool(b),
        JsonValue::Number(n) => Json::Number(n@),
        JsonValue::String(s) => Json::Str(s@),
        JsonValue::Array(items) => Json::Array(
            Seq::new(
                items@.len(),
                |i: int|
                    if 0 <= i < items@.len() {
                        proof {
                            assert(decreases_to!(items => items@[i]));
                        }
                        model(items@[i])
                    } else {
                        Json::Null
                    },
            ),
        ),
        JsonValue::Object(fields) => Json::Object(
            Seq::new(
                fields@.len(),
                |i: int|
                    if 0 <= i < fields@.len() {
                        proof {
                            assert(decreases_to!(fields => fields@[i]));
                            assert(decreases_to!(fields@[i] => fields@[i].1));
                        }
                        (fields@[i].0@, model(fields@[i].1))
                    } else {
                        (Seq::empty(), Json::Null)
                    },
            ),
        ),
    }
}

impl View for JsonValue {
    type V = Json;

    open spec fn view(&self) -> Json {
        model(*self)
    }
}

pub open spec fn model_fields(f: Seq<(String, JsonValue)>) -> Seq<(Seq<char>, Json)> {
    Seq::new(f.len(), |i: int| (f[i].0@, model(f[i].1)))
}

pub open spec fn model_items(a: Seq<JsonValue>) -> Seq<Json> {
    Seq::new(a.len(), |i: int| model(a[i]))
}

pub proof fn lemma_model_object(f: Vec<(String, JsonValue)>)
    ensures
        model(JsonValue::Object(f)) == Json::Object(model_fields(f@)),
{
    assert(model_fields(f@) =~= match model(JsonValue::Object(f)) {
        Json::Object(g) => g,
        _ => Seq::empty(),
    });
}

pub proof fn lemma_model_array(a: Vec<JsonValue>)
    ensures
        model(JsonValue::Array(a)) == Json::Array(model_items(a@)),
{
    assert(model_items(a@) =~= match model(JsonValue::Array(a)) {
        Json::Array(g) => g,
        _ => Seq::empty(),
    });
}

/// Index of the first member with key `key`.
pub open spec fn first_key(f: Seq<(Seq<char>, Json)>, key: Seq<char>) -> Option<int>
    decreases f.len(),
{
    if f.len() == 0 {
        None
    } else if f[0].0 == key {
        Some(0)
    } else {
        match first_key(f.drop_first(), key) {
            Some(i) => Some(i + 1),
            None => None,
        }
    }
}

pub proof fn lemma_first_key(f: Seq<(Seq<char>, Json)>, key: Seq<char>)
    ensures
        match first_key(f, key) {
            Some(i) => 0 <= i < f.len() && f[i].0 == key && forall|j: int|
                0 <= j < i ==> #[trigger] f[j].0 != key,
            None => forall|j: int| 0 <= j < f.len() ==> #[trigger] f[j].0 != key,
        },
    decreases f.len(),
{
    if f.len() > 0 && f[0].0 != key {
        lemma_first_key(f.drop_first(), key);
        match first_key(f.drop_first(), key) {
            Some(i) => {
                assert forall|j: int| 0 <= j < i + 1 implies #[trigger] f[j].0 != key by {
                    if j > 0 {
                        assert(f[j] == f.drop_first()[j - 1]);
                    }
                }
            },
            None => {
                assert forall|j: int| 0 <= j < f.len() implies #[trigger] f[j].0 != key by {
                    if j > 0 {
                        assert(f[j] == f.drop_first()[j - 1]);
                    }
                }
            },
        }
    }
}

pub proof fn lemma_first_key_at(f: Seq<(Seq<char>, Json)>, key: Seq<char>, i: int)
    requires
        0 <= i <= f.len(),
        forall|j: int| 0 <= j < i ==> #[trigger] f[j].0 != key,
        i == f.len() || f[i].0 == key,
    ensures
        first_key(f, key) == if i == f.len() { None } else { Some(i) },
{
    lemma_first_key(f, key);
    match first_key(f, key) {
        Some(k) => {
            if k < i {
                assert(f[k].0 != key);
            }
            if k > i {
                assert(f[i].0 != key);
            }
        },
        None => {
            if i < f.len() {
                assert(f[i].0 != key);
            }
        },
    }
}

/// The value of the first member with key `key`.
pub open spec fn field(f: Seq<(Seq<char>, Json)>, key: Seq<char>) -> Option<Json> {
    match first_key(f, key) {
        Some(i) => Some(f[i].1),
        None => None,
    }
}

/// `value.get(key)` for a JSON object; nothing for other values.
pub open spec fn get(v: Json, key: Seq<char>) -> Option<Json> {
    match v {
        Json::Object(f) => field(f, key),
        _ => None,
    }
}

/// Where a member with key `key` goes among members in key order: before
/// the first member whose key comes after it.
pub open spec fn insert_pos(f: Seq<(Seq<char>, Json)>, key: Seq<char>) -> int
    decreases f.len(),
{
    if f.len() == 0 || text_less(key, f[0].0) {
        0
    } else {
        1 + insert_pos(f.drop_first(), key)
    }
}

pub proof fn lemma_insert_pos(f: Seq<(Seq<char>, Json)>, key: Seq<char>)
    ensures
        0 <= insert_pos(f, key) <= f.len(),
        forall|j: int| 0 <= j < insert_pos(f, key) ==> !text_less(key, #[trigger] f[j].0),
        insert_pos(f, key) < f.len() ==> text_less(key, f[insert_pos(f, key)].0),
    decreases f.len(),
{
    if f.len() > 0 && !text_less(key, f[0].0) {
        lemma_insert_pos(f.drop_first(), key);
        assert forall|j: int| 0 <= j < insert_pos(f, key) implies !text_less(key, #[trigger] f[j].0) by {
            if j > 0 {
                assert(f[j] == f.drop_first()[j - 1]);
            }
        }
    }
}

pub proof fn lemma_insert_pos_at(f: Seq<(Seq<char>, Json)>, key: Seq<char>, p: int)
    requires
        0 <= p <= f.len(),
        forall|j: int| 0 <= j < p ==> !text_less(key, #[trigger] f[j].0),
        p < f.len() ==> text_less(key, f[p].0),
    ensures
        insert_pos(f, key) == p,
    decreases p,
{
    if p > 0 {
        assert forall|j: int| 0 <= j < p - 1 implies !text_less(key, #[trigger] f.drop_first()[j].0) by {
            assert(f.drop_first()[j] == f[j + 1]);
        }
        lemma_insert_pos_at(f.drop_first(), key, p - 1);
    }
}

/// The members with the first `key` member's value replaced, or the member
/// inserted in key order when there is none (as serde_json's maps keep
/// their keys).
pub open spec fn set_field(f: Seq<(Seq<char>, Json)>, key: Seq<char>, val: Json) -> Seq<
    (Seq<char>, Json),
> {
    match first_key(f, key) {
        Some(i) => f.update(i, (f[i].0, val)),
        None => f.insert(insert_pos(f, key), (key, val)),
    }
}

fn chars_before(a: &Vec<char>, b: &Vec<char>) -> (r: bool)
    ensures
        r == text_less(a@, b@),
{
    let mut i: usize = 0;
    assert(a@.skip(0) =~= a@);
    assert(b@.skip(0) =~= b@);
    while i < a.len() && i < b.len() && a[i] == b[i]
        invariant
            i <= a@.len(),
            i <= b@.len(),
            text_less(a@, b@) == text_less(a@.skip(i as int), b@.skip(i as int)),
        decreases a@.len() - i,
    {
        proof {
            let x = a@.skip(i as int);
            let y = b@.skip(i as int);
            assert(x.drop_first() =~= a@.skip(i + 1));
            assert(y.drop_first() =~= b@.skip(i + 1));
        }
        i += 1;
    }
    proof {
        let x = a@.skip(i as int);
        let y = b@.skip(i as int);
        if i < a@.len() {
            assert(x[0] == a@[i as int]);
        }
        if i < b@.len() {
            assert(y[0] == b@[i as int]);
        }
    }
    if i == a.len() {
        i < b.len()
    } else if i == b.len() {
        false
    } else {
        a[i] < b[i]
    }
}

/// Where a member with key `key` goes among `fields` (see `insert_pos`).
pub fn key_position(fields: &Vec<(String, JsonValue)>, key: &str) -> (r: usize)
    ensures
        r == insert_pos(model_fields(fields@), key@),
{
    let k = crate::text::chars_of(key);
    let ghost mf = model_fields(fields@);
    let mut i: usize = 0;
    while i < fields.len()
        invariant
            i <= fields@.len(),
            k@ == key@,
            mf == model_fields(fields@),
            forall|j: int| 0 <= j < i ==> !text_less(key@, #[trigger] mf[j].0),
        decreases fields@.len() - i,
    {
        let name = crate::text::chars_of(fields[i].0.as_str());
        assert(mf[i as int].0 == fields@[i as int].0@);
        if chars_before(&k, &name) {
            proof {
                lemma_insert_pos_at(mf, key@, i as int);
            }
            return i;
        }
        i += 1;
    }
    proof {
        lemma_insert_pos_at(mf, key@, i as int);
    }
    i
}

/// The string held by `v`, if it is a string.
pub open spec fn as_str(v: Option<Json>) -> Option<Seq<char>> {
    match v {
        Some(Json::Str(s)) => Some(s),
        _ => None,
    }
}

/// Position of the first member of `fields` with key `key`.
pub fn find_key(fields: &Vec<(String, JsonValue)>, key: &str) -> (r: Option<usize>)
    ensures
        match r {
            Some(i) => first_key(model_fields(fields@), key@) == Some(i as int),
            None => first_key(model_fields(fields@), key@) is None,
        },
{
    let k = crate::text::chars_of(key);
    let mut i: usize = 0;
    while i < fields.len()
        invariant
            i <= fields@.len(),
            k@ == key@,
            forall|j: int| 0 <= j < i ==> #[trigger] fields@[j].0@ != key@,
        decreases fields@.len() - i,
    {
        let name = crate::text::chars_of(fields[i].0.as_str());
        if crate::text::chars_eq(&name, &k) {
            proof {
                let mf = model_fields(fields@);
                assert forall|j: int| 0 <= j < i implies #[trigger] mf[j].0 != key@ by {
                    assert(fields@[j].0@ != key@);
                }
                lemma_first_key_at(mf, key@, i as int);
            }
            return Some(i);
        }
        i += 1;
    }
    proof {
        let mf = model_fields(fields@);
        assert forall|j: int| 0 <= j < mf.len() implies #[trigger] mf[j].0 != key@ by {
            assert(fields@[j].0@ != key@);
        }
        lemma_first_key_at(mf, key@, mf.len() as int);
    }
    None
}

/// `value.get(key)`.
pub fn get_field<'a>(v: &'a JsonValue, key: &str) -> (r: Option<&'a JsonValue>)
    ensures
        match r {
            Some(x) => get(model(*v), key@) == Some(model(*x)),
            None => get(model(*v), key@) is None,
        },
{
    match v {
        JsonValue::Object(fields) => {
            proof {
                lemma_model_object(*fields);
                lemma_first_key(model_fields(fields@), key@);
            }
            match find_key(fields, key) {
                Some(i) => {
                    proof {
                        let mf = model_fields(fields@);
                        assert(mf[i as int].1 == model(fields@[i as int].1));
                        assert(field(mf, key@) == Some(mf[i as int].1));
                    }
                    Some(&fields[i].1)
                },
                None => None,
            }
        },
        _ => None,
    }
}

/// A copy of `v` with the same model.
#[verifier::loop_isolation(false)]
pub fn clone_json(v: &JsonValue) -> (r: JsonValue)
    ensures
        model(r) == model(*v),
    decreases v,
{
    match v {
        JsonValue::Null => JsonValue::Null,
        JsonValue::Bool(b) => JsonValue::Bool(*b),
        JsonValue::Number(n) => JsonValue::Number(n.clone()),
        JsonValue::String(s) => JsonValue::String(s.clone()),
        JsonValue::Array(items) => {
            let mut out: Vec<JsonValue> = Vec::new();
            let mut i: usize = 0;
            while i < items.len()
                invariant
                    i <= items@.len(),
                    out@.len() == i,
                    forall|j: int| 0 <= j < i ==> model(#[trigger] out@[j]) == model(items@[j]),
                decreases items@.len() - i,
            {
                proof {
                    assert(decreases_to!(items => items@[i as int]));
                }
                let c = clone_json(&items[i]);
                out.push(c);
                i += 1;
            }
            proof {
                lemma_model_array(*items);
                lemma_model_array(out);
                assert(model_items(out@) =~= model_items(items@));
            }
            JsonValue::Array(out)
        },
        JsonValue::Object(fields) => {
            let mut out: Vec<(String, JsonValue)> = Vec::new();
            let mut i: usize = 0;
            while i < fields.len()
                invariant
                    i <= fields@.len(),
                    out@.len() == i,
                    forall|j: int|
                        0 <= j < i ==> (#[trigger] out@[j]).0@ == fields@[j].0@ && model(
                            out@[j].1,
                        ) == model(fields@[j].1),
                decreases fields@.len() - i,
            {
                proof {
                    assert(decreases_to!(fields => fields@[i as int]));
                    assert(decreases_to!(fields@[i as int] => fields@[i as int].1));
                }
                let c = clone_json(&fields[i].1);
                out.push((fields[i].0.clone(), c));
                i += 1;
            }
            proof {
                lemma_model_object(*fields);
                lemma_model_object(out);
                assert(model_fields(out@) =~= model_fields(fields@));
            }
            JsonValue::Object(out)
        },
    }
}

/// The model has the same kind of value as `v`.
pub proof fn lemma_model_kind(v: JsonValue)
    ensures
        (model(v) is Null) == (v is Null),
        (model(v) is Bool) == (v is Bool),
        (model(v) is Number) == (v is Number),
        (model(v) is Str) == (v is String),
        (model(v) is Array) == (v is Array),
        (model(v) is Object) == (v is Object),
        v matches JsonValue::Bool(b) ==> model(v) == Json::Bool(b),
        v matches JsonValue::String(s) ==> model(v) == Json::Str(s@),
        v matches JsonValue::Number(s) ==> model(v) == Json::Number(s@),
{
}

} // verus!
