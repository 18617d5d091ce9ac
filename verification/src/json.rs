//! JSON documents as the bookmark import reads them: a plain value tree,
//! the parse that builds it, and the lookups the import makes.

use vstd::prelude::*;
use vstd::string::StrSliceExecFns;

verus! {

/// A JSON value: numbers are kept as their text, objects as their entries
/// in the order the parser hands them out.
pub enum JsonValue {
    Null,
    Bool(bool),
    Number(String),
    Text(String),
    Array(Vec<JsonValue>),
    Object(Vec<(String, JsonValue)>),
}

#[verifier::external_type_specification]
#[verifier::external_body]
pub struct ExSerdeJsonValue(serde_json::Value);

/// What `serde_json::from_str::<serde_json::Value>` gives for a text, as a
/// [`JsonValue`]; `None` where the text is no JSON document.
pub uninterp spec fn json_parse(text: Seq<char>) -> Option<JsonValue>;

/// `serde_json::Value` turned into a [`JsonValue`], variant for variant
/// (numbers by their `Display` text, objects by their entries in the map's
/// order).
#[verifier::external_body]
fn json_value_of(v: serde_json::Value) -> JsonValue {
    match v {
        serde_json::Value::Null => JsonValue::Null,
        serde_json::Value::Bool(b) => JsonValue::Bool(b),
        serde_json::Value::Number(n) => JsonValue::Number(n.to_string()),
        serde_json::Value::String(s) => JsonValue::Text(s),
        serde_json::Value::Array(a) => JsonValue::Array(a.into_iter().map(json_value_of).collect()),
        serde_json::Value::Object(m) => JsonValue::Object(m.into_iter().map(|(k, x)| (k, json_value_of(x))).collect()),
    }
}

/// `serde_json::from_str::<serde_json::Value>`: the parsed document, named
/// by [`json_parse`]; `None` where serde_json reports an error.
#[verifier::external_body]
pub fn parse_json(text: &str) -> (r: Option<JsonValue>)
    ensures
        r == json_parse(text@),
{
    match serde_json::from_str::<serde_json::Value>(text) {
        Ok(v) => Some(json_value_of(v)),
        Err(_) => None,
    }
}

/// The value of `key` among an object's entries: the first entry with it.
pub open spec fn entry_value(es: Seq<(String, JsonValue)>, key: Seq<char>) -> Option<JsonValue>
    decreases es.len(),
{
    if es.len() == 0 {
        None
    } else if es[0].0@ == key {
        Some(es[0].1)
    } else {
        entry_value(es.drop_first(), key)
    }
}

/// `j[key]`: the value of `key` where `j` is an object that has it.
pub open spec fn field(j: JsonValue, key: Seq<char>) -> Option<JsonValue> {
    match j {
        JsonValue::Object(es) => entry_value(es@, key),
        _ => None,
    }
}

/// `j[key].as_str()`.
pub open spec fn text_field(j: JsonValue, key: Seq<char>) -> Option<Seq<char>> {
    match field(j, key) {
        Some(JsonValue::Text(s)) => Some(s@),
        _ => None,
    }
}

/// `j[key].as_array()`.
pub open spec fn array_field(j: JsonValue, key: Seq<char>) -> Option<Seq<JsonValue>> {
    match field(j, key) {
        Some(JsonValue::Array(a)) => Some(a@),
        _ => None,
    }
}

/// `j[key].as_object()`, as its values in order.
pub open spec fn object_values(j: JsonValue, key: Seq<char>) -> Seq<JsonValue> {
    match field(j, key) {
        Some(JsonValue::Object(es)) => es@.map_values(|e: (String, JsonValue)| e.1),
        _ => Seq::empty(),
    }
}

proof fn lemma_entry_smaller(j: JsonValue, es: Vec<(String, JsonValue)>, key: Seq<char>, k: int)
    requires
        j == JsonValue::Object(es),
        0 <= k <= es@.len(),
    ensures
        entry_value(es@.subrange(k, es@.len() as int), key) matches Some(v) ==> decreases_to!(j => v),
    decreases es@.len() - k,
{
    let s = es@.subrange(k, es@.len() as int);
    if k < es@.len() {
        assert(s[0] == es@[k]);
        assert(s.drop_first() =~= es@.subrange(k + 1, es@.len() as int));
        lemma_entry_smaller(j, es, key, k + 1);
        assert(decreases_to!(j => j->Object_0));
        assert(j->Object_0 == es);
        assert(decreases_to!(es => es@));
        assert(decreases_to!(es@ => es@[k]));
        assert(decreases_to!(es@[k] => es@[k].1));
        assert(decreases_to!(j => es@[k].1));
    }
}

/// A field's value is part of the value it was read from.
pub proof fn lemma_field_smaller(j: JsonValue, key: Seq<char>)
    ensures
        field(j, key) matches Some(v) ==> decreases_to!(j => v),
        array_field(j, key) matches Some(a) ==> forall|i: int| 0 <= i < a.len() ==> decreases_to!(j => #[trigger] a[i]),
{
    match j {
        JsonValue::Object(es) => {
            assert(es@.subrange(0, es@.len() as int) =~= es@);
            lemma_entry_smaller(j, es, key, 0);
            match field(j, key) {
                Some(JsonValue::Array(a)) => {
                    assert(decreases_to!(j => JsonValue::Array(a)));
                    assert(decreases_to!(JsonValue::Array(a) => a));
                    assert(decreases_to!(a => a@));
                    assert forall|i: int| 0 <= i < a@.len() implies decreases_to!(j => #[trigger] a@[i]) by {
                        assert(decreases_to!(a@ => a@[i]));
                    }
                },
                _ => {},
            }
        },
        _ => {},
    }
}

fn entry_of<'a>(es: &'a Vec<(String, JsonValue)>, key: &str) -> (r: Option<&'a JsonValue>)
    ensures
        match entry_value(es@, key@) {
            Some(v) => r == Some(&v),
            None => r is None,
        },
{
    let mut i: usize = 0;
    assert(es@.subrange(0, es@.len() as int) =~= es@);
    while i < es.len()
        invariant
            i <= es@.len(),
            entry_value(es@, key@) == entry_value(es@.subrange(i as int, es@.len() as int), key@),
        decreases es@.len() - i,
    {
        let ghost s = es@.subrange(i as int, es@.len() as int);
        assert(s[0] == es@[i as int]);
        if crate::text::str_eq(es[i].0.as_str(), key) {
            return Some(&es[i].1);
        }
        assert(s.drop_first() =~= es@.subrange(i + 1, es@.len() as int));
        i += 1;
    }
    None
}

/// `j[key]`, where `j` is an object that has `key`.
pub fn get_field<'a>(j: &'a JsonValue, key: &str) -> (r: Option<&'a JsonValue>)
    ensures
        match field(*j, key@) {
            Some(v) => r == Some(&v),
            None => r is None,
        },
{
    match j {
        JsonValue::Object(es) => entry_of(es, key),
        _ => None,
    }
}

/// `j[key].as_str()`.
pub fn get_text<'a>(j: &'a JsonValue, key: &str) -> (r: Option<&'a str>)
    ensures
        match text_field(*j, key@) {
            Some(s) => r matches Some(t) && t@ == s,
            None => r is None,
        },
{
    match get_field(j, key) {
        Some(JsonValue::Text(s)) => Some(s.as_str()),
        _ => None,
    }
}

} // verus!
