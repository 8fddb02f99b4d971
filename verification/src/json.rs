//! JSON values as the library holds them: plain values that the logic can
//! read and the contracts can speak of. Parsing and serialization are done
//! by `serde_json`.

use vstd::prelude::*;

verus! {

broadcast use vstd::std_specs::vec::group_vec_axioms;

/// A JSON value as a mathematical object.
pub enum JsonModel {
    Null,
    Bool(bool),
    /// A number, by the text `serde_json` writes for it.
    Number(Seq<char>),
    Str(Seq<char>),
    Array(Seq<JsonModel>),
    /// The members in order; when serialized, a later member replaces an
    /// earlier one with the same key.
    Object(Seq<(Seq<char>, JsonModel)>),
}

/// A JSON value.
#[derive(Debug, PartialEq)]
pub enum JsonValue {
    Null,
    Bool(bool),
    /// A number, by the text `serde_json` writes for it.
    Number(String),
    String(String),
    Array(Vec<JsonValue>),
    /// The members in order; when serialized, a later member replaces an
    /// earlier one with the same key.
    Object(Vec<(String, JsonValue)>),
}

impl JsonValue {
    /// The value as a mathematical object.
    pub open spec fn model(&self) -> JsonModel
        decreases self,
    {
        match self {
            JsonValue::Null => JsonModel::Null,
            JsonValue::Bool(b) => JsonModel::Bool(*b),
            JsonValue::Number(n) => JsonModel::Number(n@),
            JsonValue::String(s) => JsonModel::Str(s@),
            JsonValue::Array(a) => JsonModel::Array(models(a@)),
            JsonValue::Object(ms) => JsonModel::Object(member_models(ms@)),
        }
    }

    /// A copy of the value.
    pub fn copy(&self) -> (r: JsonValue)
        ensures
            r.model() == self.model(),
        decreases self,
    {
        match self {
            JsonValue::Null => JsonValue::Null,
            JsonValue::Bool(b) => JsonValue::Bool(*b),
            JsonValue::Number(n) => JsonValue::Number(n.clone()),
            JsonValue::String(s) => JsonValue::String(s.clone()),
            JsonValue::Array(a) => {
                let mut out: Vec<JsonValue> = Vec::new();
                let mut i: usize = 0;
                while i < a.len()
                    invariant
                        i <= a@.len(),
                        *self == JsonValue::Array(*a),
                        models(out@) == models(a@.subrange(0, i as int)),
                    decreases a.len() - i,
                {
                    proof {
                        vstd::std_specs::vec::axiom_vec_index_decreases(*a, i as int);
                        assert(decreases_to!(*self => self->Array_0));
                        assert(decreases_to!(*a => a[i as int]));
                        assert(decreases_to!(*self => a[i as int]));
                    }
                    let x = a[i].copy();
                    let ghost before = out@;
                    out.push(x);
                    proof {
                        assert(out@.drop_last() == before);
                        assert(a@.subrange(0, i + 1).drop_last() =~= a@.subrange(0, i as int));
                    }
                    i += 1;
                }
                assert(a@.subrange(0, i as int) =~= a@);
                JsonValue::Array(out)
            },
            JsonValue::Object(ms) => {
                let mut out: Vec<(String, JsonValue)> = Vec::new();
                let mut i: usize = 0;
                while i < ms.len()
                    invariant
                        i <= ms@.len(),
                        *self == JsonValue::Object(*ms),
                        member_models(out@) == member_models(ms@.subrange(0, i as int)),
                    decreases ms.len() - i,
                {
                    let k = ms[i].0.clone();
                    proof {
                        vstd::std_specs::vec::axiom_vec_index_decreases(*ms, i as int);
                        assert(decreases_to!(*self => self->Object_0));
                        assert(decreases_to!(*ms => ms[i as int]));
                        assert(decreases_to!(ms[i as int] => ms[i as int].1));
                        assert(decreases_to!(*self => ms[i as int].1));
                    }
                    let x = ms[i].1.copy();
                    let ghost before = out@;
                    out.push((k, x));
                    proof {
                        assert(out@.drop_last() == before);
                        assert(ms@.subrange(0, i + 1).drop_last() =~= ms@.subrange(0, i as int));
                    }
                    i += 1;
                }
                assert(ms@.subrange(0, i as int) =~= ms@);
                JsonValue::Object(out)
            },
        }
    }
}

/// The models of a sequence of values.
pub open spec fn models(s: Seq<JsonValue>) -> Seq<JsonModel>
    decreases s,
{
    if s.len() == 0 {
        Seq::empty()
    } else {
        models(s.drop_last()).push(s.last().model())
    }
}

/// The models of a sequence of object members.
pub open spec fn member_models(s: Seq<(String, JsonValue)>) -> Seq<(Seq<char>, JsonModel)>
    decreases s,
{
    if s.len() == 0 {
        Seq::empty()
    } else {
        member_models(s.drop_last()).push((s.last().0@, s.last().1.model()))
    }
}


/// `serde_json::Value`.
#[verifier::external_type_specification]
#[verifier::external_body]
pub struct ExJsonValue(serde_json::Value);

/// `serde_json::Error`.
#[verifier::external_type_specification]
#[verifier::external_body]
pub struct ExJsonError(serde_json::Error);

/// Whether `serde_json::from_str::<Value>` accepts the text.
pub uninterp spec fn json_parses(text: Seq<char>) -> bool;

/// The JSON value that `serde_json::from_str::<Value>` makes of the text.
pub uninterp spec fn json_parse(text: Seq<char>) -> JsonModel;

/// The text that `serde_json::to_string` writes for the value.
pub uninterp spec fn json_text(v: JsonModel) -> Seq<char>;

/// Whether `serde_json::Number::from_str` accepts the text as a number.
pub uninterp spec fn json_number_text_ok(text: Seq<char>) -> bool;

/// Whether every number in the value, at any depth, is text that
/// `serde_json` reads back as a number.
pub open spec fn json_numbers_ok(m: JsonModel) -> bool
    decreases m,
{
    match m {
        JsonModel::Number(t) => json_number_text_ok(t),
        JsonModel::Array(items) => forall|i: int| 0 <= i < items.len() ==> json_numbers_ok(#[trigger] items[i]),
        JsonModel::Object(ms) => forall|i: int| 0 <= i < ms.len() ==> json_numbers_ok(#[trigger] ms[i].1),
        _ => true,
    }
}

/// The library's form of a `serde_json::Value`, variant for variant (a
/// number kept as the text `serde_json` writes for it); the conversion step
/// of `parse_json`.
#[verifier::external_body]
fn json_from_serde(v: serde_json::Value) -> (j: JsonValue) {
    match v {
        serde_json::Value::Null => JsonValue::Null,
        serde_json::Value::Bool(b) => JsonValue::Bool(b),
        serde_json::Value::Number(n) => JsonValue::Number(n.to_string()),
        serde_json::Value::String(s) => JsonValue::String(s),
        serde_json::Value::Array(a) => JsonValue::Array(a.into_iter().map(json_from_serde).collect()),
        serde_json::Value::Object(m) => JsonValue::Object(
            m.into_iter().map(|(k, x)| (k, json_from_serde(x))).collect(),
        ),
    }
}

/// The `serde_json::Value` of a library JSON value, variant for variant (a
/// number read back from its text); the conversion step of `json_to_string`.
#[verifier::external_body]
fn json_to_serde(j: &JsonValue) -> (r: Result<serde_json::Value, serde_json::Error>) {
    Ok(match j {
        JsonValue::Null => serde_json::Value::Null,
        JsonValue::Bool(b) => serde_json::Value::Bool(*b),
        JsonValue::Number(n) => serde_json::Value::Number(n.parse()?),
        JsonValue::String(s) => serde_json::Value::String(s.clone()),
        JsonValue::Array(a) => serde_json::Value::Array(a.iter().map(json_to_serde).collect::<Result<_, _>>()?),
        JsonValue::Object(ms) => serde_json::Value::Object(
            ms.iter().map(|(k, x)| json_to_serde(x).map(|v| (k.clone(), v))).collect::<Result<_, _>>()?,
        ),
    })
}

/// Parse `text` as JSON with `serde_json::from_str::<Value>`.
///
/// Trusted: whether the parser accepts the text, and the value it makes of
/// it, depend on the text alone; both are named. Every number of the value
/// is kept as the text `Number`'s `Display` writes for it (`itoa` for
/// integers, the shortest round-trip form for finite floats), which
/// `Number::from_str` reads back.
#[verifier::external_body]
pub(crate) fn parse_json(text: &str) -> (r: Option<JsonValue>)
    ensures
        r is Some <==> json_parses(text@),
        r matches Some(j) ==> j.model() == json_parse(text@),
        r matches Some(j) ==> json_numbers_ok(j.model()),
{
    serde_json::from_str::<serde_json::Value>(text).ok().map(json_from_serde)
}

/// Serialize `v` with `serde_json::to_string` (object members collected into
/// a `serde_json::Map`, so a later member replaces an earlier one).
///
/// Trusted: the text depends on the value alone and is named. The only
/// step that can fail is reading a number back from its text
/// (`Number::from_str`); serializing a `serde_json::Value` into a string
/// does not fail, so the call succeeds when every number text is accepted.
#[verifier::external_body]
pub(crate) fn json_to_string(v: &JsonValue) -> (r: Result<String, serde_json::Error>)
    ensures
        r matches Ok(s) ==> s@ == json_text(v.model()),
        json_numbers_ok(v.model()) ==> r is Ok,
        v matches JsonValue::Number(n) ==> (r is Ok <==> json_number_text_ok(n@)),
{
    serde_json::to_string(&json_to_serde(v)?)
}

impl JsonValue {
    /// The compact JSON text of the value, as `serde_json::to_string` writes
    /// it (object members sorted by key, a later member replacing an earlier
    /// one with the same key).
    ///
    /// It fails only on a number whose text `serde_json` does not read back
    /// as a number; values that come from parsing never hold one.
    pub fn to_json_string(&self) -> (r: Result<String, serde_json::Error>)
        ensures
            r matches Ok(s) ==> s@ == json_text(self.model()),
            json_numbers_ok(self.model()) ==> r is Ok,
            self matches JsonValue::Number(n) ==> (r is Ok <==> json_number_text_ok(n@)),
    {
        json_to_string(self)
    }
}

} // verus!
