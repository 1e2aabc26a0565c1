//! The read-only accessors that other in-process extensions use on document
//! nodes: type tags, lengths, elements and scalars.

use vstd::prelude::*;
use crate::value::{JsonValue, Json, JSONType, type_of, lemma_container_models, byte_len};
use crate::error::JsonError;

verus! {

/// The length of a string (in bytes of its UTF-8 encoding), an array or an
/// object.
pub open spec fn length_of(v: Json) -> Option<nat> {
    match v {
        Json::Str(s) => Some(byte_len(s) as nat),
        Json::Arr(a) => Some(a.len()),
        Json::Obj(o) => Some(o.len()),
        _ => None,
    }
}

/// The length of a string, an array or an object; `None` for other nodes.
pub fn json_api_get_len(v: &JsonValue) -> (r: Option<usize>)
    ensures
        match r {
            Some(n) => length_of(v@) == Some(n as nat),
            None => length_of(v@) is None,
        },
{
    proof {
        lemma_container_models();
    }
    match v {
        JsonValue::Str(s) => Some(s.as_str().len()),
        JsonValue::Array(a) => Some(a.len()),
        JsonValue::Object(o) => Some(o.len()),
        _ => None,
    }
}

/// The type tag of a node and its length (0 for a node without one).
pub fn get_type_and_size(v: &JsonValue) -> (r: (JSONType, usize))
    ensures
        r.0 == type_of(v@),
        r.1 as nat == match length_of(v@) {
            Some(n) => n,
            None => 0,
        },
{
    let t = v.json_type();
    match json_api_get_len(v) {
        Some(n) => (t, n),
        None => (t, 0),
    }
}

/// The element of an array at `index`; `None` for another node or an index
/// past the end.
pub fn json_api_get_at(v: &JsonValue, index: usize) -> (r: Option<&JsonValue>)
    ensures
        match r {
            Some(e) => v@ is Arr && index < v@->Arr_0.len() && e@ == v@->Arr_0[index as int],
            None => !(v@ is Arr && index < v@->Arr_0.len()),
        },
{
    proof {
        lemma_container_models();
    }
    match v {
        JsonValue::Array(a) => {
            if index < a.len() {
                Some(&a[index])
            } else {
                None
            }
        },
        _ => None,
    }
}

/// The element of an array, or the value of the member of an object, at
/// position `index`.
pub fn value_from_index(v: &JsonValue, index: usize) -> (r: Result<&JsonValue, JsonError>)
    ensures
        match v@ {
            Json::Arr(a) => if index < a.len() {
                r is Ok && r->Ok_0@ == a[index as int]
            } else {
                r == Err::<&JsonValue, JsonError>(JsonError::OutOfRange)
            },
            Json::Obj(o) => if index < o.len() {
                r is Ok && r->Ok_0@ == o[index as int].1
            } else {
                r == Err::<&JsonValue, JsonError>(JsonError::OutOfRange)
            },
            _ => r == Err::<&JsonValue, JsonError>(JsonError::TypeMismatch),
        },
{
    proof {
        lemma_container_models();
    }
    match v {
        JsonValue::Array(a) => {
            if index < a.len() {
                Ok(&a[index])
            } else {
                Err(JsonError::OutOfRange)
            }
        },
        JsonValue::Object(o) => {
            if index < o.len() {
                Ok(&o[index].1)
            } else {
                Err(JsonError::OutOfRange)
            }
        },
        _ => Err(JsonError::TypeMismatch),
    }
}

/// The value of an integer node.
pub fn json_api_get_int(v: &JsonValue) -> (r: Option<i64>)
    ensures
        match r {
            Some(i) => v@ == Json::Int(i as int),
            None => !(v@ is Int),
        },
{
    match v {
        JsonValue::Integer(i) => Some(*i),
        _ => None,
    }
}

/// The decimal text of a double node.
pub fn json_api_get_double(v: &JsonValue) -> (r: Option<&str>)
    ensures
        match r {
            Some(d) => v@ == Json::Double(d@),
            None => !(v@ is Double),
        },
{
    match v {
        JsonValue::Double(d) => Some(d.as_str()),
        _ => None,
    }
}

/// The value of a boolean node.
pub fn json_api_get_boolean(v: &JsonValue) -> (r: Option<bool>)
    ensures
        match r {
            Some(b) => v@ == Json::Bool(b),
            None => !(v@ is Bool),
        },
{
    match v {
        JsonValue::Bool(b) => Some(*b),
        _ => None,
    }
}

/// The text of a string node.
pub fn json_api_get_string(v: &JsonValue) -> (r: Option<&str>)
    ensures
        match r {
            Some(s) => v@ == Json::Str(s@),
            None => !(v@ is Str),
        },
{
    match v {
        JsonValue::Str(s) => Some(s.as_str()),
        _ => None,
    }
}

} // verus!
