//! Document operations: edits applied at a navigation path.

use vstd::prelude::*;
use crate::value::{JsonValue, Json, byte_len, json_wf, models, lemma_container_models, obj_get, key_index, find_key, lemma_key_index_bounds};
use crate::path::{PathStep, Step, steps_of, node_at, update_at, node_mut, lemma_update_same, lemma_update_wf};
use crate::error::JsonError;

verus! {

/// A signed position resolved against a length: a negative one counts from the end.
pub open spec fn resolve_index(i: int, len: int) -> int {
    if i < 0 {
        len + i
    } else {
        i
    }
}

/// A signed position clamped into `[0, len - 1]`.
pub open spec fn clamp_index(i: int, len: int) -> int {
    if i < 0 {
        if len + i > 0 {
            len + i
        } else {
            0
        }
    } else if i < len - 1 {
        i
    } else {
        len - 1
    }
}

/// The range `[start, end)` of the elements that trimming to `start..=stop` keeps.
pub open spec fn trim_range(start: int, stop: int, len: int) -> (int, int) {
    if len == 0 || start >= len {
        (0, 0)
    } else {
        let s = clamp_index(start, len);
        let t = clamp_index(stop, len);
        if s > t {
            (0, 0)
        } else {
            (s, t + 1)
        }
    }
}

/// A node reset to empty: arrays and objects lose their items, numbers become
/// zero; other nodes are kept.
pub open spec fn cleared(t: Json) -> Json {
    match t {
        Json::Arr(_) => Json::Arr(Seq::empty()),
        Json::Obj(_) => Json::Obj(Seq::empty()),
        Json::Int(_) => Json::Int(0),
        Json::Double(_) => Json::Double(seq!['0', '.', '0']),
        _ => t,
    }
}

/// Whether a write at `p` that failed with `e` is reported as such and left
/// the document as it was.
pub open spec fn failed_with<R>(old: Json, new: Json, r: Result<R, JsonError>, e: JsonError) -> bool {
    r == Err::<R, JsonError>(e) && new == old
}

/// The elements of `vals` inserted into `a` at position `i`.
pub open spec fn inserted(a: Seq<Json>, i: int, vals: Seq<Json>) -> Seq<Json> {
    a.subrange(0, i) + vals + a.subrange(i, a.len() as int)
}

/// The nodes of a document without repeated keys have none either.
proof fn lemma_node_wf(n: Json, p: Seq<Step>)
    requires
        json_wf(n),
        node_at(n, p) is Some,
    ensures
        json_wf(node_at(n, p)->0),
    decreases p.len(),
{
    if p.len() > 0 {
        let c = crate::path::child_at(n, p[0])->0;
        match (n, p[0]) {
            (Json::Obj(o), Step::Key(k)) => {
                lemma_key_index_bounds(o, k);
            },
            _ => {},
        }
        lemma_node_wf(c, p.drop_first());
    }
}

proof fn lemma_write_back(n: Json, p: Seq<Step>, t: Json, t2: Json)
    requires
        node_at(n, p) == Some(t),
        t2 == t,
    ensures
        update_at(n, p, t2) == n,
{
    lemma_update_same(n, p);
}

/// Replaces the node at `path`; `Ok(false)` when the path leads nowhere.
pub fn set_value(root: &mut JsonValue, path: &Vec<PathStep>, v: JsonValue) -> (r: Result<bool, JsonError>)
    ensures
        match node_at(old(root)@, steps_of(path@)) {
            None => r == Ok::<bool, JsonError>(false) && final(root)@ == old(root)@,
            Some(_) => r == Ok::<bool, JsonError>(true) && final(root)@ == update_at(
                old(root)@,
                steps_of(path@),
                v@,
            ),
        },
        json_wf(old(root)@) && json_wf(v@) ==> json_wf(final(root)@),
{
    proof {
        if json_wf(root@) && json_wf(v@) {
            lemma_update_wf(root@, steps_of(path@), v@);
        }
    }
    match node_mut(root, path) {
        Some(c) => {
            *c = v;
            Ok(true)
        },
        None => Ok(false),
    }
}

/// Adds `key` with value `v` to the object at `path`: `Ok(true)` when it was
/// added at the end of the object, `Ok(false)` when the key is already there.
pub fn dict_add(root: &mut JsonValue, path: &Vec<PathStep>, key: &String, v: JsonValue) -> (r: Result<bool, JsonError>)
    ensures
        match node_at(old(root)@, steps_of(path@)) {
            None => failed_with(old(root)@, final(root)@, r, JsonError::NotFound),
            Some(Json::Obj(o)) => if obj_get(o, key@) is Some {
                r == Ok::<bool, JsonError>(false) && final(root)@ == old(root)@
            } else {
                r == Ok::<bool, JsonError>(true) && final(root)@ == update_at(
                    old(root)@,
                    steps_of(path@),
                    Json::Obj(o.push((key@, v@))),
                )
            },
            Some(_) => failed_with(old(root)@, final(root)@, r, JsonError::TypeMismatch),
        },
        json_wf(old(root)@) && json_wf(v@) ==> json_wf(final(root)@),
{
    let ghost p = steps_of(path@);
    let ghost n0 = root@;
    proof {
        if json_wf(n0) && json_wf(v@) {
            match node_at(n0, p) {
                Some(Json::Obj(o)) => {
                    lemma_node_wf(n0, p);
                    if obj_get(o, key@) is None {
                        lemma_key_index_bounds(o, key@);
                        let b = o.push((key@, v@));
                        assert forall|x: int, y: int| 0 <= x < y < b.len() implies (#[trigger] b[x]).0 != (#[trigger] b[y]).0 by {
                            if y == o.len() {
                                assert(o[x].0 != key@);
                            }
                        }
                        assert forall|x: int| 0 <= x < b.len() implies json_wf((#[trigger] b[x]).1) by {
                            if x < o.len() {
                                assert(b[x] == o[x]);
                            }
                        }
                        lemma_update_wf(n0, p, Json::Obj(b));
                    }
                },
                _ => {},
            }
        }
    }
    match node_mut(root, path) {
        Some(c) => {
            let ghost t = c@;
            proof {
                lemma_container_models();
            }
            match c {
                JsonValue::Object(o) => {
                    match find_key(o, key) {
                        Some(_) => {
                            proof {
                                lemma_write_back(n0, p, t, t);
                            }
                            Ok(false)
                        },
                        None => {
                            o.push((key.clone(), v));
                            proof {
                                assert(crate::value::entry_models(o@) =~= t->Obj_0.push((key@, v@)));
                            }
                            Ok(true)
                        },
                    }
                },
                _ => {
                    proof {
                        lemma_write_back(n0, p, t, t);
                    }
                    Err(JsonError::TypeMismatch)
                },
            }
        },
        None => Err(JsonError::NotFound),
    }
}

/// Appends `vals`, in order, to the array at `path`; the new length.
pub fn arr_append(root: &mut JsonValue, path: &Vec<PathStep>, vals: Vec<JsonValue>) -> (r: Result<usize, JsonError>)
    ensures
        match node_at(old(root)@, steps_of(path@)) {
            None => failed_with(old(root)@, final(root)@, r, JsonError::NotFound),
            Some(Json::Arr(a)) => r is Ok && r->Ok_0 as int == a.len() + vals@.len() && final(root)@
                == update_at(old(root)@, steps_of(path@), Json::Arr(a + models(vals@))),
            Some(_) => failed_with(old(root)@, final(root)@, r, JsonError::TypeMismatch),
        },
        json_wf(old(root)@) && (forall|i: int| 0 <= i < vals@.len() ==> json_wf(#[trigger] vals@[i]@)) ==> json_wf(final(root)@),
{
    proof {
        let p = steps_of(path@);
        if json_wf(root@) && (forall|i: int| 0 <= i < vals@.len() ==> json_wf(#[trigger] vals@[i]@)) {
            match node_at(root@, p) {
                Some(Json::Arr(a)) => {
                    lemma_node_wf(root@, p);
                    let b = a + models(vals@);
                    assert forall|j: int| 0 <= j < b.len() implies json_wf(#[trigger] b[j]) by {
                        if j < a.len() {
                            assert(b[j] == a[j]);
                        } else {
                            assert(b[j] == vals@[j - a.len()]@);
                        }
                    }
                    lemma_update_wf(root@, p, Json::Arr(b));
                },
                _ => {},
            }
        }
    }
    let ghost p = steps_of(path@);
    let ghost n0 = root@;
    match node_mut(root, path) {
        Some(c) => {
            let ghost t = c@;
            proof {
                lemma_container_models();
            }
            match c {
                JsonValue::Array(a) => {
                    let mut vals = vals;
                    let ghost vm = models(vals@);
                    let ghost a0 = a@;
                    a.append(&mut vals);
                    proof {
                        assert(models(a@) =~= models(a0) + vm);
                    }
                    Ok(a.len())
                },
                _ => {
                    proof {
                        lemma_write_back(n0, p, t, t);
                    }
                    Err(JsonError::TypeMismatch)
                },
            }
        },
        None => Err(JsonError::NotFound),
    }
}

/// Inserts `vals`, in order, into the array at `path` before position `index`
/// (a negative one counts from the end); the new length. A position outside
/// `[0, len]` is an error.
pub fn arr_insert(root: &mut JsonValue, path: &Vec<PathStep>, vals: Vec<JsonValue>, index: i64) -> (r: Result<usize, JsonError>)
    ensures
        match node_at(old(root)@, steps_of(path@)) {
            None => failed_with(old(root)@, final(root)@, r, JsonError::NotFound),
            Some(Json::Arr(a)) => {
                let i = resolve_index(index as int, a.len() as int);
                if 0 <= i <= a.len() {
                    r is Ok && r->Ok_0 as int == a.len() + vals@.len() && final(root)@ == update_at(
                        old(root)@,
                        steps_of(path@),
                        Json::Arr(inserted(a, i, models(vals@))),
                    )
                } else {
                    failed_with(old(root)@, final(root)@, r, JsonError::OutOfRange)
                }
            },
            Some(_) => failed_with(old(root)@, final(root)@, r, JsonError::TypeMismatch),
        },
        json_wf(old(root)@) && (forall|i: int| 0 <= i < vals@.len() ==> json_wf(#[trigger] vals@[i]@)) ==> json_wf(final(root)@),
{
    proof {
        let p = steps_of(path@);
        if json_wf(root@) && (forall|i: int| 0 <= i < vals@.len() ==> json_wf(#[trigger] vals@[i]@)) {
            match node_at(root@, p) {
                Some(Json::Arr(a)) => {
                    lemma_node_wf(root@, p);
                    if 0 <= resolve_index(index as int, a.len() as int) <= a.len() {
                        let b = inserted(a, resolve_index(index as int, a.len() as int), models(vals@));
                        assert forall|j: int| 0 <= j < b.len() implies json_wf(#[trigger] b[j]) by {
                            let i = resolve_index(index as int, a.len() as int);
                            if j < i {
                                assert(b[j] == a[j]);
                            } else if j < i + vals@.len() {
                                assert(b[j] == vals@[j - i]@);
                            } else {
                                assert(b[j] == a[j - vals@.len()]);
                            }
                        }
                        lemma_update_wf(root@, p, Json::Arr(b));
                    }
                },
                _ => {},
            }
        }
    }
    let ghost p = steps_of(path@);
    let ghost n0 = root@;
    match node_mut(root, path) {
        Some(c) => {
            let ghost t = c@;
            proof {
                lemma_container_models();
            }
            match c {
                JsonValue::Array(a) => {
                    let len = a.len();
                    let mut at: usize = 0;
                    let mut ok = false;
                    if index < 0 {
                        let m: u64 = ((-(index + 1)) as u64) + 1;
                        if m <= len as u64 {
                            at = len - (m as usize);
                            ok = true;
                        }
                    } else if (index as u64) <= len as u64 {
                        at = index as usize;
                        ok = true;
                    }
                    if !ok {
                        proof {
                            lemma_write_back(n0, p, t, t);
                        }
                        return Err(JsonError::OutOfRange);
                    }
                    let ghost a0 = a@;
                    let ghost vm = models(vals@);
                    let mut vals = vals;
                    let mut rest = a.split_off(at);
                    assert(models(a@) =~= models(a0).subrange(0, at as int));
                    assert(models(rest@) =~= models(a0).subrange(at as int, a0.len() as int));
                    a.append(&mut vals);
                    a.append(&mut rest);
                    proof {
                        assert(models(a@) =~= inserted(models(a0), at as int, vm));
                    }
                    Ok(a.len())
                },
                _ => {
                    proof {
                        lemma_write_back(n0, p, t, t);
                    }
                    Err(JsonError::TypeMismatch)
                },
            }
        },
        None => Err(JsonError::NotFound),
    }
}

/// Removes and returns the element of the array at `path` at position `index`,
/// clamped into the array (a negative one counts from the end); `None` for an
/// empty array.
pub fn arr_pop(root: &mut JsonValue, path: &Vec<PathStep>, index: i64) -> (r: Result<Option<JsonValue>, JsonError>)
    ensures
        match node_at(old(root)@, steps_of(path@)) {
            None => failed_with(old(root)@, final(root)@, r, JsonError::NotFound),
            Some(Json::Arr(a)) => if a.len() == 0 {
                r is Ok && r->Ok_0 is None && final(root)@ == old(root)@
            } else {
                let i = clamp_index(index as int, a.len() as int);
                r is Ok && r->Ok_0 is Some && r->Ok_0->0@ == a[i] && final(root)@ == update_at(
                    old(root)@,
                    steps_of(path@),
                    Json::Arr(a.remove(i)),
                )
            },
            Some(_) => failed_with(old(root)@, final(root)@, r, JsonError::TypeMismatch),
        },
        json_wf(old(root)@) ==> json_wf(final(root)@),
{
    proof {
        let p = steps_of(path@);
        if json_wf(root@) {
            match node_at(root@, p) {
                Some(Json::Arr(a)) => {
                    lemma_node_wf(root@, p);
                    if a.len() > 0 {
                        let b = a.remove(clamp_index(index as int, a.len() as int));
                        assert forall|j: int| 0 <= j < b.len() implies json_wf(#[trigger] b[j]) by {
                            let i = clamp_index(index as int, a.len() as int);
                            if j < i {
                                assert(b[j] == a[j]);
                            } else {
                                assert(b[j] == a[j + 1]);
                            }
                        }
                        lemma_update_wf(root@, p, Json::Arr(b));
                    }
                },
                _ => {},
            }
        }
    }
    let ghost p = steps_of(path@);
    let ghost n0 = root@;
    match node_mut(root, path) {
        Some(c) => {
            let ghost t = c@;
            proof {
                lemma_container_models();
            }
            match c {
                JsonValue::Array(a) => {
                    let len = a.len();
                    if len == 0 {
                        proof {
                            lemma_write_back(n0, p, t, t);
                        }
                        return Ok(None);
                    }
                    let at: usize = if index < 0 {
                        let m: u64 = ((-(index + 1)) as u64) + 1;
                        if m < len as u64 {
                            len - (m as usize)
                        } else {
                            0
                        }
                    } else if (index as u64) < (len - 1) as u64 {
                        index as usize
                    } else {
                        len - 1
                    };
                    let ghost a0 = a@;
                    let v = a.remove(at);
                    proof {
                        assert(models(a@) =~= models(a0).remove(at as int));
                    }
                    Ok(Some(v))
                },
                _ => {
                    proof {
                        lemma_write_back(n0, p, t, t);
                    }
                    Err(JsonError::TypeMismatch)
                },
            }
        },
        None => Err(JsonError::NotFound),
    }
}

/// Keeps only the elements of the array at `path` from `start` to `stop`, both
/// included and clamped into the array (negative ones count from the end); the
/// new length.
pub fn arr_trim(root: &mut JsonValue, path: &Vec<PathStep>, start: i64, stop: i64) -> (r: Result<usize, JsonError>)
    ensures
        match node_at(old(root)@, steps_of(path@)) {
            None => failed_with(old(root)@, final(root)@, r, JsonError::NotFound),
            Some(Json::Arr(a)) => {
                let (s, e) = trim_range(start as int, stop as int, a.len() as int);
                r is Ok && r->Ok_0 as int == e - s && final(root)@ == update_at(
                    old(root)@,
                    steps_of(path@),
                    Json::Arr(a.subrange(s, e)),
                )
            },
            Some(_) => failed_with(old(root)@, final(root)@, r, JsonError::TypeMismatch),
        },
        json_wf(old(root)@) ==> json_wf(final(root)@),
{
    proof {
        let p = steps_of(path@);
        if json_wf(root@) {
            match node_at(root@, p) {
                Some(Json::Arr(a)) => {
                    lemma_node_wf(root@, p);
                    let b = a.subrange(trim_range(start as int, stop as int, a.len() as int).0, trim_range(start as int, stop as int, a.len() as int).1);
                    assert forall|j: int| 0 <= j < b.len() implies json_wf(#[trigger] b[j]) by {
                        let se = trim_range(start as int, stop as int, a.len() as int);
                        assert(b[j] == a[j + se.0]);
                    }
                    lemma_update_wf(root@, p, Json::Arr(b));
                },
                _ => {},
            }
        }
    }
    let ghost p = steps_of(path@);
    let ghost n0 = root@;
    match node_mut(root, path) {
        Some(c) => {
            let ghost t = c@;
            proof {
                lemma_container_models();
            }
            match c {
                JsonValue::Array(a) => {
                    let len = a.len();
                    let ghost a0 = a@;
                    let mut s: usize = 0;
                    let mut e: usize = 0;
                    if len > 0 && (start < 0 || (start as u64) < len as u64) {
                        let cs: usize = if start < 0 {
                            let m: u64 = ((-(start + 1)) as u64) + 1;
                            if m < len as u64 {
                                len - (m as usize)
                            } else {
                                0
                            }
                        } else {
                            start as usize
                        };
                        let ct: usize = if stop < 0 {
                            let m: u64 = ((-(stop + 1)) as u64) + 1;
                            if m < len as u64 {
                                len - (m as usize)
                            } else {
                                0
                            }
                        } else if (stop as u64) < (len - 1) as u64 {
                            stop as usize
                        } else {
                            len - 1
                        };
                        if cs <= ct {
                            s = cs;
                            e = ct + 1;
                        }
                    }
                    assert((s as int, e as int) == trim_range(start as int, stop as int, len as int));
                    let mut kept = a.split_off(s);
                    kept.truncate(e - s);
                    *a = kept;
                    proof {
                        assert(models(a@) =~= models(a0).subrange(s as int, e as int));
                    }
                    Ok(e - s)
                },
                _ => {
                    proof {
                        lemma_write_back(n0, p, t, t);
                    }
                    Err(JsonError::TypeMismatch)
                },
            }
        },
        None => Err(JsonError::NotFound),
    }
}

/// Appends `text` to the string at `path`; the new length in bytes of its
/// UTF-8 encoding.
pub fn str_append(root: &mut JsonValue, path: &Vec<PathStep>, text: &str) -> (r: Result<usize, JsonError>)
    ensures
        match node_at(old(root)@, steps_of(path@)) {
            None => failed_with(old(root)@, final(root)@, r, JsonError::NotFound),
            Some(Json::Str(s)) => r is Ok && r->Ok_0 == byte_len(s + text@) && final(root)@
                == update_at(old(root)@, steps_of(path@), Json::Str(s + text@)),
            Some(_) => failed_with(old(root)@, final(root)@, r, JsonError::TypeMismatch),
        },
        json_wf(old(root)@) ==> json_wf(final(root)@),
{
    proof {
        let p = steps_of(path@);
        if json_wf(root@) {
            match node_at(root@, p) { Some(Json::Str(t)) => lemma_update_wf(root@, p, Json::Str(t + text@)), _ => {} }
        }
    }
    let ghost p = steps_of(path@);
    let ghost n0 = root@;
    match node_mut(root, path) {
        Some(c) => {
            let ghost t = c@;
            match c {
                JsonValue::Str(s) => {
                    s.append(text);
                    Ok(s.as_str().len())
                },
                _ => {
                    proof {
                        lemma_write_back(n0, p, t, t);
                    }
                    Err(JsonError::TypeMismatch)
                },
            }
        },
        None => Err(JsonError::NotFound),
    }
}

/// Flips the boolean at `path`; its new value.
pub fn bool_toggle(root: &mut JsonValue, path: &Vec<PathStep>) -> (r: Result<bool, JsonError>)
    ensures
        match node_at(old(root)@, steps_of(path@)) {
            None => failed_with(old(root)@, final(root)@, r, JsonError::NotFound),
            Some(Json::Bool(b)) => r == Ok::<bool, JsonError>(!b) && final(root)@ == update_at(
                old(root)@,
                steps_of(path@),
                Json::Bool(!b),
            ),
            Some(_) => failed_with(old(root)@, final(root)@, r, JsonError::TypeMismatch),
        },
        json_wf(old(root)@) ==> json_wf(final(root)@),
{
    proof {
        let p = steps_of(path@);
        if json_wf(root@) {
            match node_at(root@, p) { Some(Json::Bool(b)) => lemma_update_wf(root@, p, Json::Bool(!b)), _ => {} }
        }
    }
    let ghost p = steps_of(path@);
    let ghost n0 = root@;
    match node_mut(root, path) {
        Some(c) => {
            let ghost t = c@;
            match c {
                JsonValue::Bool(b) => {
                    *b = !*b;
                    Ok(*b)
                },
                _ => {
                    proof {
                        lemma_write_back(n0, p, t, t);
                    }
                    Err(JsonError::TypeMismatch)
                },
            }
        },
        None => Err(JsonError::NotFound),
    }
}

/// An arithmetic operation on a number node.
#[derive(PartialEq, Eq, Structural, Clone, Copy, Debug)]
pub enum NumOp {
    Incr,
    Mult,
    Pow,
}

/// `b` to the power `e`.
pub open spec fn pow(b: int, e: nat) -> int
    decreases e,
{
    if e == 0 {
        1
    } else {
        b * pow(b, (e - 1) as nat)
    }
}

/// What an arithmetic operation on an integer node and an integer operand
/// gives (a power with a negative exponent has no integer value).
pub open spec fn num_result(op: NumOp, x: int, y: int) -> int {
    match op {
        NumOp::Incr => x + y,
        NumOp::Mult => x * y,
        NumOp::Pow => if y >= 0 {
            pow(x, y as nat)
        } else {
            0
        },
    }
}

pub open spec fn fits_i64(v: int) -> bool {
    i64::MIN <= v <= i64::MAX
}

/// The operation has an integer result of 64 bits.
pub open spec fn has_int_result(op: NumOp, x: int, y: int) -> bool {
    (op != NumOp::Pow || y >= 0) && fits_i64(num_result(op, x, y))
}

proof fn lemma_pow_minus_one(e: nat)
    ensures
        pow(-1, e) == if e % 2 == 0 {
            1int
        } else {
            -1int
        },
    decreases e,
{
    if e > 0 {
        lemma_pow_minus_one((e - 1) as nat);
        assert(pow(-1, e) == -1 * pow(-1, (e - 1) as nat));
    }
}

proof fn lemma_pow_one(e: nat)
    ensures
        pow(1, e) == 1,
    decreases e,
{
    if e > 0 {
        lemma_pow_one((e - 1) as nat);
    }
}

proof fn lemma_pow_zero(e: nat)
    requires
        e > 0,
    ensures
        pow(0, e) == 0,
{
}

pub open spec fn iabs(v: int) -> int {
    if v >= 0 {
        v
    } else {
        -v
    }
}

proof fn lemma_abs_mul(x: int, p: int)
    ensures
        iabs(x * p) == iabs(x) * iabs(p),
{
    if x >= 0 && p >= 0 {
        assert(x * p >= 0) by (nonlinear_arith)
            requires
                x >= 0,
                p >= 0,
        ;
    } else if x >= 0 && p < 0 {
        assert(x * p <= 0 && -(x * p) == x * (-p)) by (nonlinear_arith)
            requires
                x >= 0,
                p < 0,
        ;
    } else if x < 0 && p >= 0 {
        assert(x * p <= 0 && -(x * p) == (-x) * p) by (nonlinear_arith)
            requires
                x < 0,
                p >= 0,
        ;
    } else {
        assert(x * p > 0 && x * p == (-x) * (-p)) by (nonlinear_arith)
            requires
                x < 0,
                p < 0,
        ;
    }
}

/// Powers of a base of magnitude at least 2 at least double at each step.
proof fn lemma_pow_grows(x: int, k: nat, e: nat)
    requires
        iabs(x) >= 2,
        k < e,
    ensures
        iabs(pow(x, e)) >= 2 * iabs(pow(x, k)),
    decreases e - k,
{
    let p = pow(x, (e - 1) as nat);
    lemma_abs_mul(x, p);
    assert(iabs(x) * iabs(p) >= 2 * iabs(p)) by (nonlinear_arith)
        requires
            iabs(x) >= 2,
            iabs(p) >= 0,
    ;
    if k + 1 < e {
        lemma_pow_grows(x, k, (e - 1) as nat);
    }
}

/// `x` to the power `e`, when that is an integer of 64 bits.
fn int_pow(x: i64, e: i64) -> (r: Option<i64>)
    ensures
        match r {
            Some(v) => e >= 0 && v as int == pow(x as int, e as nat),
            None => e < 0 || !fits_i64(pow(x as int, e as nat)),
        },
{
    if e < 0 {
        return None;
    }
    if x == 0 {
        if e == 0 {
            return Some(1);
        }
        proof {
            lemma_pow_zero(e as nat);
        }
        return Some(0);
    }
    if x == 1 {
        proof {
            lemma_pow_one(e as nat);
        }
        return Some(1);
    }
    if x == -1 {
        proof {
            lemma_pow_minus_one(e as nat);
        }
        return Some(if e % 2 == 0 {
            1
        } else {
            -1
        });
    }
    let mut acc: i64 = 1;
    let mut k: i64 = 0;
    while k < e
        invariant
            0 <= k <= e,
            acc as int == pow(x as int, k as nat),
            x >= 2 || x <= -2,
        decreases e - k,
    {
        proof {
            assert(pow(x as int, (k + 1) as nat) == x * pow(x as int, k as nat));
            assert(acc as int * x as int == x as int * acc as int) by (nonlinear_arith);
        }
        match acc.checked_mul(x) {
            Some(v) => {
                acc = v;
            },
            None => {
                proof {
                    let n = (k + 1) as nat;
                    if n < e as nat {
                        lemma_pow_grows(x as int, n, e as nat);
                    }
                }
                return None;
            },
        }
        k = k + 1;
    }
    Some(acc)
}

/// The outcome of an arithmetic operation.
#[derive(PartialEq, Eq, Structural, Clone, Copy, Debug)]
pub enum NumOutcome {
    /// The node now holds this integer.
    Int(i64),
    /// The result is not an integer of 64 bits (the node is a double, or the
    /// result overflows): it is to be computed in floating point, and the
    /// node is unchanged.
    Promote,
}

/// Applies `op` with operand `by` to the number at `path`.
pub fn num_op(root: &mut JsonValue, path: &Vec<PathStep>, op: NumOp, by: i64) -> (r: Result<NumOutcome, JsonError>)
    ensures
        match node_at(old(root)@, steps_of(path@)) {
            None => failed_with(old(root)@, final(root)@, r, JsonError::NotFound),
            Some(Json::Int(x)) => if has_int_result(op, x, by as int) {
                r is Ok && r->Ok_0 == NumOutcome::Int(num_result(op, x, by as int) as i64) && final(root)@
                    == update_at(old(root)@, steps_of(path@), Json::Int(num_result(op, x, by as int)))
            } else {
                r == Ok::<NumOutcome, JsonError>(NumOutcome::Promote) && final(root)@ == old(root)@
            },
            Some(Json::Double(_)) => r == Ok::<NumOutcome, JsonError>(NumOutcome::Promote) && final(root)@
                == old(root)@,
            Some(_) => failed_with(old(root)@, final(root)@, r, JsonError::TypeMismatch),
        },
        json_wf(old(root)@) ==> json_wf(final(root)@),
{
    proof {
        let p = steps_of(path@);
        if json_wf(root@) {
            match node_at(root@, p) { Some(Json::Int(x)) => lemma_update_wf(root@, p, Json::Int(num_result(op, x, by as int))), _ => {} }
        }
    }
    let ghost p = steps_of(path@);
    let ghost n0 = root@;
    match node_mut(root, path) {
        Some(c) => {
            let ghost t = c@;
            match c {
                JsonValue::Integer(x) => {
                    let res = match op {
                        NumOp::Incr => x.checked_add(by),
                        NumOp::Mult => x.checked_mul(by),
                        NumOp::Pow => int_pow(*x, by),
                    };
                    match res {
                        Some(v) => {
                            *x = v;
                            Ok(NumOutcome::Int(v))
                        },
                        None => {
                            proof {
                                lemma_write_back(n0, p, t, t);
                            }
                            Ok(NumOutcome::Promote)
                        },
                    }
                },
                JsonValue::Double(_) => {
                    proof {
                        lemma_write_back(n0, p, t, t);
                    }
                    Ok(NumOutcome::Promote)
                },
                _ => {
                    proof {
                        lemma_write_back(n0, p, t, t);
                    }
                    Err(JsonError::TypeMismatch)
                },
            }
        },
        None => Err(JsonError::NotFound),
    }
}

/// Resets the node at `path` (see `cleared`); 1 when it was an array, an
/// object or a number, else 0.
pub fn clear(root: &mut JsonValue, path: &Vec<PathStep>) -> (r: Result<usize, JsonError>)
    ensures
        match node_at(old(root)@, steps_of(path@)) {
            None => failed_with(old(root)@, final(root)@, r, JsonError::NotFound),
            Some(t) => r == Ok::<usize, JsonError>(
                if t is Arr || t is Obj || t is Int || t is Double {
                    1
                } else {
                    0
                },
            ) && final(root)@ == update_at(old(root)@, steps_of(path@), cleared(t)),
        },
        json_wf(old(root)@) ==> json_wf(final(root)@),
{
    proof {
        let p = steps_of(path@);
        if json_wf(root@) {
            match node_at(root@, p) { Some(t) => { lemma_node_wf(root@, p); lemma_update_wf(root@, p, cleared(t)); }, _ => {} }
        }
    }
    let ghost p = steps_of(path@);
    let ghost n0 = root@;
    match node_mut(root, path) {
        Some(c) => {
            let ghost t = c@;
            proof {
                lemma_container_models();
            }
            match c {
                JsonValue::Array(_) => {
                    *c = JsonValue::Array(Vec::new());
                    assert(models(Seq::<JsonValue>::empty()) =~= Seq::<Json>::empty());
                    Ok(1)
                },
                JsonValue::Object(_) => {
                    *c = JsonValue::Object(Vec::new());
                    assert(crate::value::entry_models(Seq::<(String, JsonValue)>::empty()) =~= Seq::<(Seq<char>, Json)>::empty());
                    Ok(1)
                },
                JsonValue::Integer(_) => {
                    *c = JsonValue::Integer(0);
                    Ok(1)
                },
                JsonValue::Double(_) => {
                    let z = String::from_str("0.0");
                    proof {
                        reveal_strlit("0.0");
                        assert(z@ =~= seq!['0', '.', '0']);
                    }
                    *c = JsonValue::Double(z);
                    Ok(1)
                },
                _ => {
                    proof {
                        lemma_write_back(n0, p, t, t);
                    }
                    Ok(0)
                },
            }
        },
        None => Err(JsonError::NotFound),
    }
}

/// `n` without the node that `p` leads to, when `p` leads to an element of
/// an array or a member of an object.
pub open spec fn removed_at(n: Json, p: Seq<Step>) -> Option<Json> {
    if p.len() == 0 {
        None
    } else {
        let q = p.drop_last();
        match (node_at(n, q), p.last()) {
            (Some(Json::Arr(a)), Step::Index(i)) => if 0 <= i < a.len() {
                Some(update_at(n, q, Json::Arr(a.remove(i))))
            } else {
                None
            },
            (Some(Json::Obj(o)), Step::Key(k)) => if key_index(o, k) >= 0 {
                Some(update_at(n, q, Json::Obj(o.remove(key_index(o, k)))))
            } else {
                None
            },
            _ => None,
        }
    }
}

/// Removes the node at `path` from its parent; whether there was one to remove.
pub fn delete_path(root: &mut JsonValue, path: &Vec<PathStep>) -> (r: bool)
    ensures
        match removed_at(old(root)@, steps_of(path@)) {
            Some(m) => r && final(root)@ == m,
            None => !r && final(root)@ == old(root)@,
        },
        json_wf(old(root)@) ==> json_wf(final(root)@),
{
    proof {
        let p = steps_of(path@);
        if json_wf(root@) && p.len() > 0 {
            let q = p.drop_last();
            match (node_at(root@, q), p.last()) {
                (Some(Json::Arr(a)), Step::Index(i)) => {
                    if 0 <= i < a.len() {
                        lemma_node_wf(root@, q);
                        let b = a.remove(i);
                        assert forall|j: int| 0 <= j < b.len() implies json_wf(#[trigger] b[j]) by {
                            if j < i {
                                assert(b[j] == a[j]);
                            } else {
                                assert(b[j] == a[j + 1]);
                            }
                        }
                        lemma_update_wf(root@, q, Json::Arr(b));
                    }
                },
                (Some(Json::Obj(o)), Step::Key(k)) => {
                    let i = key_index(o, k);
                    if i >= 0 {
                        lemma_key_index_bounds(o, k);
                        lemma_node_wf(root@, q);
                        let b = o.remove(i);
                        assert forall|x: int, y: int| 0 <= x < y < b.len() implies (#[trigger] b[x]).0 != (#[trigger] b[y]).0 by {
                            let ox = if x < i { x } else { x + 1 };
                            let oy = if y < i { y } else { y + 1 };
                            assert(b[x] == o[ox] && b[y] == o[oy]);
                        }
                        assert forall|x: int| 0 <= x < b.len() implies json_wf((#[trigger] b[x]).1) by {
                            if x < i {
                                assert(b[x] == o[x]);
                            } else {
                                assert(b[x] == o[x + 1]);
                            }
                        }
                        lemma_update_wf(root@, q, Json::Obj(b));
                    }
                },
                _ => {},
            }
        }
    }
    let ghost pm = steps_of(path@);
    let ghost n0 = root@;
    let len = path.len();
    if len == 0 {
        return false;
    }
    let mut parent: Vec<PathStep> = Vec::new();
    let mut i: usize = 0;
    while i < len - 1
        invariant
            len == path@.len(),
            i <= len - 1,
            parent@ == path@.subrange(0, i as int),
        decreases len - 1 - i,
    {
        let st = match &path[i] {
            PathStep::Key(k) => PathStep::Key(k.clone()),
            PathStep::Index(j) => PathStep::Index(*j),
        };
        parent.push(st);
        i = i + 1;
        assert(parent@ =~= path@.subrange(0, i as int));
    }
    assert(steps_of(parent@) =~= pm.drop_last());
    assert(pm.last() == path@[len - 1]@);
    match node_mut(root, &parent) {
        Some(c) => {
            let ghost t = c@;
            proof {
                lemma_container_models();
            }
            match (c, &path[len - 1]) {
                (JsonValue::Array(a), PathStep::Index(j)) => {
                    if *j < a.len() {
                        let ghost a0 = a@;
                        a.remove(*j);
                        proof {
                            assert(models(a@) =~= models(a0).remove(*j as int));
                        }
                        true
                    } else {
                        proof {
                            lemma_write_back(n0, pm.drop_last(), t, t);
                        }
                        false
                    }
                },
                (JsonValue::Object(o), PathStep::Key(k)) => {
                    match find_key(o, k) {
                        Some(j) => {
                            proof {
                                lemma_key_index_bounds(t->Obj_0, k@);
                            }
                            let ghost o0 = o@;
                            o.remove(j);
                            proof {
                                assert(crate::value::entry_models(o@) =~= crate::value::entry_models(o0).remove(j as int));
                            }
                            true
                        },
                        None => {
                            proof {
                                lemma_write_back(n0, pm.drop_last(), t, t);
                            }
                            false
                        },
                    }
                },
                _ => {
                    proof {
                        lemma_write_back(n0, pm.drop_last(), t, t);
                    }
                    false
                },
            }
        },
        None => false,
    }
}

} // verus!
