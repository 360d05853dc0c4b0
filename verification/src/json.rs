//! The bridge to JSON text. The match and transform arguments arrive as
//! JSON objects whose values are strings or arrays of strings; parsing the
//! text is the JSON library's work, and everything after the parse is
//! verified against the shape it returns.

use serde_json::Value;
use vstd::prelude::*;

verus! {

/// One value of a parsed JSON object, reduced to what the pipeline reads:
/// a single string, an array whose elements are strings where `Some` and
/// something else where `None`, or some other kind of value.
pub enum JsonLeaf {
    One(String),
    Many(Vec<Option<String>>),
    Other,
}

/// The outcome of parsing a JSON argument: not JSON at all, JSON but not
/// an object, or an object's entries in the parser's order.
pub enum JsonTop {
    NotJson,
    NotObject,
    Object(Vec<(String, JsonLeaf)>),
}

/// What parsing the text as JSON yields, reduced to the shapes above: a
/// function of the text alone.
pub uninterp spec fn json_top_of(s: Seq<char>) -> JsonTop;

/// Relies on `serde_json::from_str::<Value>`: parses the text as JSON,
/// deterministically (malformed or too deeply nested text is an error,
/// never a panic). Each object value is carried over by kind; the result
/// is a function of the text, named `json_top_of`, and the verified
/// consumers state exactly what they do with every possible shape.
#[verifier::external_body]
pub fn parse_json_object(s: &str) -> (r: JsonTop)
    ensures
        r == json_top_of(s@),
{
    let leaf = |v: Value| match v {
        Value::String(x) => JsonLeaf::One(x),
        Value::Array(a) => JsonLeaf::Many(
            a.into_iter().map(|e| if let Value::String(x) = e { Some(x) } else { None }).collect(),
        ),
        _ => JsonLeaf::Other,
    };
    match serde_json::from_str::<Value>(s) {
        Err(_) => JsonTop::NotJson,
        Ok(Value::Object(m)) => JsonTop::Object(m.into_iter().map(|(k, v)| (k, leaf(v))).collect()),
        Ok(_) => JsonTop::NotObject,
    }
}

/// The entries of a parsed object, empty for the other shapes.
pub open spec fn obj_entries(t: JsonTop) -> Seq<(String, JsonLeaf)> {
    match t {
        JsonTop::Object(es) => es@,
        _ => Seq::empty(),
    }
}

/// Whether a leaf has an acceptable shape: a string, or an array of
/// strings throughout.
pub open spec fn leaf_ok(l: JsonLeaf) -> bool {
    match l {
        JsonLeaf::One(_) => true,
        JsonLeaf::Many(v) => forall|i: int| 0 <= i < v@.len() ==> v@[i] is Some,
        JsonLeaf::Other => false,
    }
}

/// The strings an acceptable leaf carries, in order.
pub open spec fn leaf_vals(l: JsonLeaf) -> Seq<Seq<char>> {
    match l {
        JsonLeaf::One(s) => seq![s@],
        JsonLeaf::Many(v) => v.deep_view().map_values(
            |o: Option<Seq<char>>|
                if o is Some {
                    o->0
                } else {
                    Seq::<char>::empty()
                },
        ),
        JsonLeaf::Other => Seq::empty(),
    }
}

} // verus!
