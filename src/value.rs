//! The document model and the operations that only read a value.

use vstd::prelude::*;

verus! {

/// A document node, as stored.
///
/// A double is held by its shortest decimal text, as a JSON encoder writes it;
/// an object keeps its entries in insertion order.
#[derive(Debug)]
pub enum JsonValue {
    Null,
    Bool(bool),
    Integer(i64),
    Double(String),
    Str(String),
    Array(Vec<JsonValue>),
    Object(Vec<(String, JsonValue)>),
}

/// The mathematical model of a document node.
pub enum Json {
    Null,
    Bool(bool),
    Int(int),
    Double(Seq<char>),
    Str(Seq<char>),
    Arr(Seq<Json>),
    Obj(Seq<(Seq<char>, Json)>),
}

impl JsonValue {
    pub open spec fn model(&self) -> Json
        decreases self,
    {
        match self {
            JsonValue::Null => Json::Null,
            JsonValue::Bool(b) => Json::Bool(*b),
            JsonValue::Integer(i) => Json::Int(*i as int),
            JsonValue::Double(d) => Json::Double(d@),
            JsonValue::Str(s) => Json::Str(s@),
            JsonValue::Array(a) => Json::Arr(
                Seq::new(a@.len(), |i: int| if 0 <= i < a@.len() { a@[i].model() } else { Json::Null }),
            ),
            JsonValue::Object(o) => Json::Obj(
                Seq::new(
                    o@.len(),
                    |i: int|
                        if 0 <= i < o@.len() {
                            (o@[i].0@, o@[i].1.model())
                        } else {
                            (Seq::empty(), Json::Null)
                        },
                ),
            ),
        }
    }
}

impl View for JsonValue {
    type V = Json;

    open spec fn view(&self) -> Json {
        self.model()
    }
}

/// The index of the first entry of `entries` under key `k`, or -1.
pub open spec fn key_index(entries: Seq<(Seq<char>, Json)>, k: Seq<char>) -> int
    decreases entries.len(),
{
    if entries.len() == 0 {
        -1
    } else if entries.last().0 == k && key_index(entries.drop_last(), k) == -1 {
        entries.len() - 1
    } else {
        key_index(entries.drop_last(), k)
    }
}

/// The value under key `k` of an object's entries.
pub open spec fn obj_get(entries: Seq<(Seq<char>, Json)>, k: Seq<char>) -> Option<Json> {
    let i = key_index(entries, k);
    if i == -1 {
        None
    } else {
        Some(entries[i].1)
    }
}

/// The length of a string in bytes of its UTF-8 encoding, as a machine word.
pub open spec fn byte_len(s: Seq<char>) -> usize {
    vstd::utf8::encode_utf8(s).len() as usize
}

/// The text of a zero double, of either sign.
pub open spec fn zero_text(d: Seq<char>) -> bool {
    d == "0.0"@ || d == "-0.0"@
}

/// Two doubles held by their shortest decimal texts are equal in value when
/// the texts are equal, or when both are zero (`0.0` and `-0.0`).
pub open spec fn same_double(x: Seq<char>, y: Seq<char>) -> bool {
    x == y || (zero_text(x) && zero_text(y))
}

/// Structural equality: scalars by value, arrays element by element in order,
/// objects by their sets of keys and the values under them, in any order.
pub open spec fn json_eq(a: Json, b: Json) -> bool
    decreases a,
{
    match (a, b) {
        (Json::Null, Json::Null) => true,
        (Json::Bool(x), Json::Bool(y)) => x == y,
        (Json::Int(x), Json::Int(y)) => x == y,
        (Json::Double(x), Json::Double(y)) => same_double(x, y),
        (Json::Str(x), Json::Str(y)) => x == y,
        (Json::Arr(x), Json::Arr(y)) => x.len() == y.len() && forall|i: int|
            0 <= i < x.len() ==> json_eq(#[trigger] x[i], y[i]),
        (Json::Obj(x), Json::Obj(y)) => x.len() == y.len() && forall|i: int|
            0 <= i < x.len() ==> {
                let k = (#[trigger] x[i]).0;
                obj_get(y, k) is Some && json_eq(x[i].1, obj_get(y, k)->0)
            },
        _ => false,
    }
}

/// No object in the tree holds one key twice.
pub open spec fn json_wf(j: Json) -> bool
    decreases j,
{
    match j {
        Json::Arr(x) => forall|i: int| 0 <= i < x.len() ==> json_wf(#[trigger] x[i]),
        Json::Obj(x) => (forall|i: int, k: int|
            0 <= i < k < x.len() ==> (#[trigger] x[i]).0 != (#[trigger] x[k]).0) && forall|i: int|
            0 <= i < x.len() ==> json_wf((#[trigger] x[i]).1),
        _ => true,
    }
}

pub proof fn lemma_key_index_bounds(entries: Seq<(Seq<char>, Json)>, k: Seq<char>)
    ensures
        -1 <= key_index(entries, k) < entries.len(),
        key_index(entries, k) != -1 ==> entries[key_index(entries, k)].0 == k,
        key_index(entries, k) == -1 <==> forall|j: int|
            0 <= j < entries.len() ==> (#[trigger] entries[j]).0 != k,
        key_index(entries, k) != -1 ==> forall|j: int|
            0 <= j < key_index(entries, k) ==> (#[trigger] entries[j]).0 != k,
    decreases entries.len(),
{
    if entries.len() > 0 {
        lemma_key_index_bounds(entries.drop_last(), k);
        assert forall|j: int| 0 <= j < entries.len() - 1 implies #[trigger] entries[j]
            == entries.drop_last()[j] by {}
    }
}

/// The models of a sequence of nodes.
pub open spec fn models(v: Seq<JsonValue>) -> Seq<Json> {
    Seq::new(v.len(), |i: int| v[i]@)
}

/// The models of the entries of an object.
pub open spec fn entry_models(v: Seq<(String, JsonValue)>) -> Seq<(Seq<char>, Json)> {
    Seq::new(v.len(), |i: int| (v[i].0@, v[i].1@))
}

/// The model of an array or object node is the models of its items.
pub proof fn lemma_container_models()
    ensures
        forall|a: Vec<JsonValue>| #[trigger] JsonValue::Array(a)@ == Json::Arr(models(a@)),
        forall|o: Vec<(String, JsonValue)>| #[trigger] JsonValue::Object(o)@ == Json::Obj(entry_models(o@)),
{
    assert forall|a: Vec<JsonValue>| #[trigger] JsonValue::Array(a)@ == Json::Arr(models(a@)) by {
        assert(JsonValue::Array(a)@->Arr_0 =~= models(a@));
    }
    assert forall|o: Vec<(String, JsonValue)>| #[trigger] JsonValue::Object(o)@ == Json::Obj(entry_models(o@)) by {
        assert(JsonValue::Object(o)@->Obj_0 =~= entry_models(o@));
    }
}

/// Replacing one element of an array's vector replaces that element of its model.
pub proof fn lemma_array_model_update()
    ensures
        forall|a: Vec<JsonValue>, b: Vec<JsonValue>, j: int, x: JsonValue|
            #![trigger JsonValue::Array(b)@, a@.update(j, x)]
            0 <= j < a@.len() && b@ == a@.update(j, x) ==> JsonValue::Array(b)@ == Json::Arr(
                JsonValue::Array(a)@->Arr_0.update(j, x@),
            ) && (x@ == a@[j]@ ==> JsonValue::Array(b)@ == JsonValue::Array(a)@),
{
    assert forall|a: Vec<JsonValue>, b: Vec<JsonValue>, j: int, x: JsonValue|
        #![trigger JsonValue::Array(b)@, a@.update(j, x)]
        0 <= j < a@.len() && b@ == a@.update(j, x) implies JsonValue::Array(b)@ == Json::Arr(
            JsonValue::Array(a)@->Arr_0.update(j, x@),
        ) && (x@ == a@[j]@ ==> JsonValue::Array(b)@ == JsonValue::Array(a)@) by {
        assert(JsonValue::Array(b)@->Arr_0 =~= JsonValue::Array(a)@->Arr_0.update(j, x@));
        if x@ == a@[j]@ {
            assert(JsonValue::Array(b)@->Arr_0 =~= JsonValue::Array(a)@->Arr_0);
        }
    }
}

/// Replacing the value of one entry of an object's vector replaces it in its model.
pub proof fn lemma_object_model_update()
    ensures
        forall|a: Vec<(String, JsonValue)>, b: Vec<(String, JsonValue)>, j: int, x: (String, JsonValue)|
            #![trigger JsonValue::Object(b)@, a@.update(j, x)]
            0 <= j < a@.len() && b@ == a@.update(j, x) ==> JsonValue::Object(b)@ == Json::Obj(
                JsonValue::Object(a)@->Obj_0.update(j, (x.0@, x.1@)),
            ) && (x.0@ == a@[j].0@ && x.1@ == a@[j].1@ ==> JsonValue::Object(b)@ == JsonValue::Object(a)@),
{
    assert forall|a: Vec<(String, JsonValue)>, b: Vec<(String, JsonValue)>, j: int, x: (String, JsonValue)|
        #![trigger JsonValue::Object(b)@, a@.update(j, x)]
        0 <= j < a@.len() && b@ == a@.update(j, x) implies JsonValue::Object(b)@ == Json::Obj(
            JsonValue::Object(a)@->Obj_0.update(j, (x.0@, x.1@)),
        ) && (x.0@ == a@[j].0@ && x.1@ == a@[j].1@ ==> JsonValue::Object(b)@ == JsonValue::Object(a)@) by {
        assert(JsonValue::Object(b)@->Obj_0 =~= JsonValue::Object(a)@->Obj_0.update(j, (x.0@, x.1@)));
        if x.0@ == a@[j].0@ && x.1@ == a@[j].1@ {
            assert(JsonValue::Object(b)@->Obj_0 =~= JsonValue::Object(a)@->Obj_0);
        }
    }
}

/// Finds the first entry under key `k`.
pub fn find_key(entries: &Vec<(String, JsonValue)>, k: &String) -> (r: Option<usize>)
    ensures
        match r {
            Some(i) => key_index(JsonValue::Object(*entries)@->Obj_0, k@) == i as int,
            None => key_index(JsonValue::Object(*entries)@->Obj_0, k@) == -1,
        },
{
    let ghost m = JsonValue::Object(*entries)@->Obj_0;
    let mut i: usize = 0;
    while i < entries.len()
        invariant
            i <= entries@.len(),
            m == JsonValue::Object(*entries)@->Obj_0,
            forall|j: int| 0 <= j < i ==> (#[trigger] m[j]).0 != k@,
        decreases entries@.len() - i,
    {
        assert(m[i as int].0 == entries@[i as int].0@);
        if entries[i].0.eq(k) {
            proof {
                lemma_key_index_bounds(m, k@);
                let ki = key_index(m, k@);
                if ki == -1 {
                } else if ki < i {
                } else if ki > i {
                }
            }
            return Some(i);
        }
        i = i + 1;
    }
    proof {
        lemma_key_index_bounds(m, k@);
    }
    None
}

/// A deep copy of a node.
pub fn copy_value(v: &JsonValue) -> (r: JsonValue)
    ensures
        r@ == v@,
    decreases v,
{
    match v {
        JsonValue::Null => JsonValue::Null,
        JsonValue::Bool(b) => JsonValue::Bool(*b),
        JsonValue::Integer(i) => JsonValue::Integer(*i),
        JsonValue::Double(d) => JsonValue::Double(d.clone()),
        JsonValue::Str(s) => JsonValue::Str(s.clone()),
        JsonValue::Array(x) => {
            assert(decreases_to!(*v => *x));
            let mut out: Vec<JsonValue> = Vec::new();
            let mut i: usize = 0;
            while i < x.len()
                invariant
                    i <= x@.len(),
                    out@.len() == i,
                    *v == JsonValue::Array(*x),
                    decreases_to!(*v => *x),
                    forall|j: int| 0 <= j < i ==> (#[trigger] out@[j])@ == x@[j]@,
                decreases x@.len() - i,
            {
                proof {
                    assert(decreases_to!(*x => x[i as int]));
                }
                let c = copy_value(&x[i]);
                out.push(c);
                i = i + 1;
            }
            let r = JsonValue::Array(out);
            assert(r@->Arr_0 =~= v@->Arr_0);
            r
        },
        JsonValue::Object(x) => {
            assert(decreases_to!(*v => *x));
            let mut out: Vec<(String, JsonValue)> = Vec::new();
            let mut i: usize = 0;
            while i < x.len()
                invariant
                    i <= x@.len(),
                    out@.len() == i,
                    *v == JsonValue::Object(*x),
                    decreases_to!(*v => *x),
                    forall|j: int|
                        0 <= j < i ==> (#[trigger] out@[j]).0@ == x@[j].0@ && out@[j].1@
                            == x@[j].1@,
                decreases x@.len() - i,
            {
                proof {
                    assert(decreases_to!(*x => x[i as int]));
                }
                let c = copy_value(&x[i].1);
                out.push((x[i].0.clone(), c));
                i = i + 1;
            }
            let r = JsonValue::Object(out);
            assert(r@->Obj_0 =~= v@->Obj_0);
            r
        },
    }
}

/// The type tag of a node, as the foreign read surface reports it.
pub enum JSONType {
    String,
    Int,
    Double,
    Bool,
    Object,
    Array,
    Null,
}

/// The type tag of a model.
pub open spec fn type_of(j: Json) -> JSONType {
    match j {
        Json::Null => JSONType::Null,
        Json::Bool(_) => JSONType::Bool,
        Json::Int(_) => JSONType::Int,
        Json::Double(_) => JSONType::Double,
        Json::Str(_) => JSONType::String,
        Json::Arr(_) => JSONType::Array,
        Json::Obj(_) => JSONType::Object,
    }
}

/// The name of a model's type, as the type command reports it.
pub open spec fn kind_name(j: Json) -> Seq<char> {
    match j {
        Json::Null => "null"@,
        Json::Bool(_) => "boolean"@,
        Json::Int(_) => "integer"@,
        Json::Double(_) => "number"@,
        Json::Str(_) => "string"@,
        Json::Arr(_) => "array"@,
        Json::Obj(_) => "object"@,
    }
}

impl JsonValue {
    /// The type tag of this node.
    pub fn json_type(&self) -> (r: JSONType)
        ensures
            r == type_of(self@),
    {
        match self {
            JsonValue::Null => JSONType::Null,
            JsonValue::Bool(_) => JSONType::Bool,
            JsonValue::Integer(_) => JSONType::Int,
            JsonValue::Double(_) => JSONType::Double,
            JsonValue::Str(_) => JSONType::String,
            JsonValue::Array(_) => JSONType::Array,
            JsonValue::Object(_) => JSONType::Object,
        }
    }
}

} // verus!
