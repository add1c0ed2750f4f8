//! A plain-value picture of JSON documents, as `serde_json` parses them.
use vstd::prelude::*;
use crate::text::str_eq;

verus! {

/// A JSON value. Numbers keep their text and, when they are non-negative
/// integers that fit, their value; objects keep their compact serialisation.
#[derive(Debug)]
pub enum Json {
    Null,
    Bool(bool),
    Number { text: String, whole: Option<u64> },
    Str(String),
    Array(Vec<Json>),
    Object { entries: Vec<(String, Json)>, text: String },
}

/// `serde_json::Value`, carried opaquely through the conversion below.
#[verifier::external_type_specification]
#[verifier::external_body]
pub struct ExValue(serde_json::Value);

/// What `serde_json::from_str::<serde_json::Value>` makes of `raw`: the value,
/// or the parser's error message.
pub uninterp spec fn spec_parse_json(raw: Seq<char>) -> Result<Json, Seq<char>>;

/// Parses `raw` with `serde_json` and converts the value into a [`Json`].
#[verifier::external_body]
pub(crate) fn parse_json(raw: &str) -> (r: Result<Json, String>)
    ensures
        match r {
            Ok(j) => spec_parse_json(raw@) == Ok::<Json, Seq<char>>(j),
            Err(e) => spec_parse_json(raw@) == Err::<Json, Seq<char>>(e@),
        },
{
    serde_json::from_str::<serde_json::Value>(raw).map(|v| json_of(&v)).map_err(|e| e.to_string())
}

/// The conversion `parse_json` applies to each parsed `serde_json::Value`, variant by variant.
#[verifier::external_body]
fn json_of(v: &serde_json::Value) -> Json {
    match v {
        serde_json::Value::Null => Json::Null,
        serde_json::Value::Bool(b) => Json::Bool(*b),
        serde_json::Value::Number(n) => Json::Number { text: n.to_string(), whole: n.as_u64() },
        serde_json::Value::String(s) => Json::Str(s.clone()),
        serde_json::Value::Array(a) => Json::Array(a.iter().map(json_of).collect()),
        serde_json::Value::Object(o) => Json::Object {
            entries: o.iter().map(|(k, x)| (k.clone(), json_of(x))).collect(),
            text: v.to_string(),
        },
    }
}

/// The value stored under `key`, if `j` is an object holding it (the first such entry).
pub open spec fn field_spec(j: Json, key: Seq<char>) -> Option<Json> {
    match j {
        Json::Object { entries, .. } => entries_field(entries@, key),
        _ => None,
    }
}

/// The first entry of `entries` named `key`.
pub open spec fn entries_field(entries: Seq<(String, Json)>, key: Seq<char>) -> Option<Json>
    decreases entries.len(),
{
    if entries.len() == 0 {
        None
    } else if entries[0].0@ == key {
        Some(entries[0].1)
    } else {
        entries_field(entries.drop_first(), key)
    }
}

/// Looks `key` up in an object.
pub fn field<'a>(j: &'a Json, key: &str) -> (r: Option<&'a Json>)
    ensures
        match r {
            Some(v) => field_spec(*j, key@) == Some(*v),
            None => field_spec(*j, key@) is None,
        },
{
    match j {
        Json::Object { entries, text } => {
            proof {
                assert(*j == Json::Object { entries: *entries, text: *text });
            }
            let mut i: usize = 0;
            proof {
                assert(entries@.skip(0) =~= entries@);
            }
            while i < entries.len()
                invariant
                    i <= entries@.len(),
                    *j == (Json::Object { entries: *entries, text: *text }),
                    entries_field(entries@, key@) == entries_field(entries@.skip(i as int), key@),
                decreases entries.len() - i,
            {
                proof {
                    assert(entries@.skip(i as int).drop_first() =~= entries@.skip(i + 1));
                }
                proof {
                    assert(entries@.skip(i as int)[0] == entries@[i as int]);
                }
                if str_eq(entries[i].0.as_str(), key) {
                    proof {
                        assert(entries_field(entries@.skip(i as int), key@) == Some(entries@[i as int].1));
                    }
                    return Some(&entries[i].1);
                }
                i += 1;
            }
            proof {
                assert(entries@.skip(i as int) =~= Seq::<(String, Json)>::empty());
            }
            None
        },
        _ => None,
    }
}

/// Whether `j` is the string `s`.
pub open spec fn is_str_spec(j: Option<Json>, s: Seq<char>) -> bool {
    match j {
        Some(Json::Str(t)) => t@ == s,
        _ => false,
    }
}

/// Whether `j` is the JSON string `s`.
pub fn is_str(j: Option<&Json>, s: &str) -> (r: bool)
    ensures
        r == is_str_spec(match j { Some(v) => Some(*v), None => None }, s@),
{
    match j {
        Some(Json::Str(t)) => str_eq(t.as_str(), s),
        _ => false,
    }
}

} // verus!
