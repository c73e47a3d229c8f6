//! JSON documents as plain values.
use serde_json::Value;
use vstd::prelude::*;

use crate::text::same_text;

verus! {

/// A number in a JSON document.
#[derive(Debug, Clone, Copy, PartialEq, Eq, Structural)]
pub enum JsonNumber {
    /// A whole number in the range of `i64`.
    Whole(i64),
    /// A whole number beyond the range of `i64`.
    Natural(u64),
    /// The bits of a double-precision number.
    Double(Option<u64>),
}

/// A JSON document.
#[derive(Debug)]
pub enum Json {
    Null,
    Bool(bool),
    Number(JsonNumber),
    Text(String),
    List(Vec<Json>),
    /// Names and values. No name occurs twice.
    Object(Vec<(String, Json)>),
}

/// What a JSON document says.
#[verifier::ext_equal]
pub enum JsonModel {
    Null,
    Bool(bool),
    Number(JsonNumber),
    Text(Seq<char>),
    List(Seq<JsonModel>),
    Object(Seq<(Seq<char>, JsonModel)>),
}

impl View for Json {
    type V = JsonModel;

    open spec fn view(&self) -> JsonModel {
        model_of(*self)
    }
}

/// What a JSON document says.
pub open spec fn model_of(j: Json) -> JsonModel
    decreases j,
{
    match j {
        Json::Null => JsonModel::Null,
        Json::Bool(b) => JsonModel::Bool(b),
        Json::Number(n) => JsonModel::Number(n),
        Json::Text(s) => JsonModel::Text(s@),
        Json::List(v) => JsonModel::List(
            Seq::new(
                v@.len(),
                |i: int|
                    if 0 <= i < v@.len() {
                        model_of(v@[i])
                    } else {
                        JsonModel::Null
                    },
            ),
        ),
        Json::Object(v) => JsonModel::Object(
            Seq::new(
                v@.len(),
                |i: int|
                    if 0 <= i < v@.len() {
                        (v@[i].0@, model_of(v@[i].1))
                    } else {
                        (Seq::empty(), JsonModel::Null)
                    },
            ),
        ),
    }
}

/// Declares `serde_json::Value`, of which nothing is known here.
#[verifier::external_type_specification]
#[verifier::external_body]
pub struct ExValue(serde_json::Value);

/// The document that `serde_json` makes of a text, or nothing where it refuses the
/// text.
pub uninterp spec fn json_of(text: Seq<char>) -> Option<JsonModel>;

/// Turns a `serde_json::Value` into a `Json`, variant by variant. A number is what the
/// first of `Number::as_i64`, `Number::as_u64` and `Number::as_f64` to return one says.
/// Nothing is claimed of the result here; `read_json` names it.
#[verifier::external_body]
fn json_from(v: Value) -> Json {
    match v {
        Value::Null => Json::Null,
        Value::Bool(b) => Json::Bool(b),
        Value::Number(n) => Json::Number(match (n.as_i64(), n.as_u64()) {
            (Some(i), _) => JsonNumber::Whole(i),
            (None, Some(u)) => JsonNumber::Natural(u),
            (None, None) => JsonNumber::Double(n.as_f64().map(|x| x.to_bits())),
        }),
        Value::String(s) => Json::Text(s),
        Value::Array(a) => Json::List(a.into_iter().map(json_from).collect()),
        Value::Object(o) => Json::Object(
            o.into_iter().map(|(k, v)| (k, json_from(v))).collect(),
        ),
    }
}

/// Calls `serde_json::from_str`.
///
/// Claimed of it: whether a text is accepted, and the document that comes of it,
/// depend on the text alone; `json_of` names that document. What it is for a given
/// text is not stated.
#[verifier::external_body]
pub(crate) fn read_json(text: &str) -> (r: Option<Json>)
    ensures
        (match r {
            Some(j) => json_of(text@) == Some(j@),
            None => json_of(text@) is None,
        }),
{
    serde_json::from_str::<serde_json::Value>(text).ok().map(json_from)
}

/// The value under `name` among the first `n` members.
pub open spec fn member_among(
    v: Seq<(Seq<char>, JsonModel)>,
    name: Seq<char>,
    n: int,
) -> Option<JsonModel>
    decreases n,
{
    if n <= 0 {
        None
    } else {
        match member_among(v, name, n - 1) {
            Some(j) => Some(j),
            None => if v[n - 1].0 == name {
                Some(v[n - 1].1)
            } else {
                None
            },
        }
    }
}

/// The value under `name` of an object.
pub open spec fn member(j: JsonModel, name: Seq<char>) -> Option<JsonModel> {
    match j {
        JsonModel::Object(v) => member_among(v, name, v.len() as int),
        _ => None,
    }
}

proof fn lemma_found_stays(v: Seq<(Seq<char>, JsonModel)>, name: Seq<char>, k: int, n: int)
    requires
        k <= n,
        member_among(v, name, k) is Some,
    ensures
        member_among(v, name, n) == member_among(v, name, k),
    decreases n - k,
{
    if k < n {
        lemma_found_stays(v, name, k, n - 1);
        if n <= 0 {
            assert(member_among(v, name, k) is None);
        }
    }
}

/// The whole number under `name` of an object.
pub open spec fn int_member(j: JsonModel, name: Seq<char>) -> Option<i64> {
    match member(j, name) {
        Some(JsonModel::Number(JsonNumber::Whole(i))) => Some(i),
        _ => None,
    }
}

impl Json {
    /// The value under `name` of an object.
    pub fn get(&self, name: &str) -> (r: Option<&Json>)
        ensures
            (match r {
                Some(j) => member(self@, name@) == Some(j@),
                None => member(self@, name@) is None,
            }),
    {
        match self {
            Json::Object(v) => {
                let ghost all = self@->Object_0;
                let mut i: usize = 0;
                while i < v.len()
                    invariant
                        i <= v@.len(),
                        *self == Json::Object(*v),
                        self@ == JsonModel::Object(all),
                        all.len() == v@.len(),
                        member_among(all, name@, i as int) is None,
                    decreases v@.len() - i,
                {
                    assert(all[i as int] == (v@[i as int].0@, v@[i as int].1@));
                    if same_text(v[i].0.as_str(), name) {
                        proof {
                            lemma_found_stays(all, name@, i + 1, v@.len() as int);
                        }
                        return Some(&v[i].1);
                    }
                    i += 1;
                }
                None
            },
            _ => None,
        }
    }

    /// The whole number under `name` of an object.
    pub fn get_int(&self, name: &str) -> (r: Option<i64>)
        ensures
            r == int_member(self@, name@),
    {
        match self.get(name) {
            Some(Json::Number(JsonNumber::Whole(i))) => Some(*i),
            _ => None,
        }
    }
}

} // verus!
