//! The logic of the document commands: each takes the document of a key (or
//! its absence) and the command's operands, edits or reads it, and returns
//! what the command replies.

use vstd::prelude::*;
use crate::value::{JsonValue, Json, byte_len, copy_value, models, json_wf};
use crate::path::{Path, PathStep, Step, steps_of, node_at, update_at, get_node, legacy_rewrite, backwards_compat_path};
use crate::query::{segs_of, path_matches, selected, select_paths, paths_of, lemma_matches_node, Seg, no_repeats, has_path_in};
use crate::syntax::{parse_query, query_of};
use crate::error::JsonError;
use crate::planner::{SetOptions, UpdateInfo, plan_paths, is_static, Target, targets_of};
use crate::value::obj_get;
use crate::commands::{planned, any_match, Format, read_error, first_node_is, index_of, opt_text, nodes_of, multi_ok, entry_ok, has_key, first_or_null};
use crate::query::all_matches;
use crate::serialize::render;
use crate::value::kind_name;
use crate::serialize::{Reply, resp_of, compact};
use crate::text::{eq_ignore_case, same_ignoring_ascii_case};
use crate::commands::KeyValue;
use crate::ops;
use crate::text::str_eq;

verus! {

/// The kinds of node that a command acts on.
#[derive(PartialEq, Eq, Structural, Clone, Copy, Debug)]
pub enum Want {
    Numbers,
    Bools,
    Strings,
    Arrays,
    Anything,
}

pub open spec fn wanted(w: Want, v: Json) -> bool {
    match w {
        Want::Numbers => v is Int || v is Double,
        Want::Bools => v is Bool,
        Want::Strings => v is Str,
        Want::Arrays => v is Arr,
        Want::Anything => true,
    }
}

/// A navigation path that `q` matches from `root` and that leads to a node of
/// a wanted kind.
pub open spec fn target(root: Json, q: Seq<Seg>, w: Want, p: Seq<Step>) -> bool {
    path_matches(root, q, 0, p) && node_at(root, p) is Some && wanted(w, node_at(root, p)->0)
}

/// `ps` lists exactly the targets.
pub open spec fn targets(root: Json, q: Seq<Seg>, w: Want, ps: Seq<Seq<Step>>) -> bool {
    &&& forall|j: int| 0 <= j < ps.len() ==> #[trigger] target(root, q, w, ps[j])
    &&& forall|p: Seq<Step>| #[trigger] target(root, q, w, p) ==> ps.contains(p)
}

fn is_wanted(w: Want, v: &JsonValue) -> (r: bool)
    ensures
        r == wanted(w, v@),
{
    match w {
        Want::Numbers => match v {
            JsonValue::Integer(_) => true,
            JsonValue::Double(_) => true,
            _ => false,
        },
        Want::Bools => match v {
            JsonValue::Bool(_) => true,
            _ => false,
        },
        Want::Strings => match v {
            JsonValue::Str(_) => true,
            _ => false,
        },
        Want::Arrays => match v {
            JsonValue::Array(_) => true,
            _ => false,
        },
        Want::Anything => true,
    }
}

/// The first `i` paths of `ps` that lead to nodes of a wanted kind, each once.
pub open spec fn typed_from(root: Json, ps: Seq<Seq<Step>>, w: Want, i: nat) -> Seq<Seq<Step>>
    decreases i,
{
    if i == 0 {
        Seq::empty()
    } else {
        let r = typed_from(root, ps, w, (i - 1) as nat);
        let p = ps[i - 1];
        if node_at(root, p) is Some && wanted(w, node_at(root, p)->0) && !r.contains(p) {
            r.push(p)
        } else {
            r
        }
    }
}

/// The targets, in document order, of a command on nodes of wanted kinds.
pub open spec fn typed(root: Json, q: Seq<Seg>, w: Want) -> Seq<Seq<Step>> {
    let l = all_matches(root, q);
    typed_from(root, l, w, l.len())
}

/// The navigation paths of the nodes of wanted kinds that a path text selects.
pub fn find_paths(path: &str, doc: &JsonValue, w: Want) -> (r: Result<Vec<Vec<PathStep>>, JsonError>)
    ensures
        match r {
            Ok(ps) => query_of(path@) is Some && targets(doc@, query_of(path@)->0, w, paths_of(ps@)) && no_repeats(
                paths_of(ps@),
            ) && paths_of(ps@) == typed(doc@, query_of(path@)->0, w),
            Err(e) => e == JsonError::Syntax && query_of(path@) is None,
        },
{
    let q = match parse_query(path) {
        Some(q) => q,
        None => {
            return Err(JsonError::Syntax);
        },
    };
    let ghost qm = segs_of(q@);
    let all = select_paths(doc, &q);
    let ghost am = paths_of(all@);
    let mut out: Vec<Vec<PathStep>> = Vec::new();
    let mut i: usize = 0;
    while i < all.len()
        invariant
            i <= all@.len(),
            am == paths_of(all@),
            selected(doc@, qm, am),
            forall|j: int| 0 <= j < paths_of(out@).len() ==> #[trigger] target(doc@, qm, w, paths_of(out@)[j]),
            no_repeats(paths_of(out@)),
            forall|k: int| 0 <= k < i && #[trigger] target(doc@, qm, w, am[k]) ==> paths_of(out@).contains(am[k]),
            am == all_matches(doc@, qm),
            paths_of(out@) == typed_from(doc@, am, w, i as nat),
        decreases all@.len() - i,
    {
        proof {
            lemma_matches_node(doc@, qm, 0, am[i as int]);
        }
        let n = get_node(doc, &all[i]);
        let ghost o0 = paths_of(out@);
        assert(steps_of(all@[i as int]@) == am[i as int]);
        match n {
            Some(v) => {
                if is_wanted(w, v) && !has_path_in(&out, &all[i]) {
                    let c = crate::query::copy_path(&all[i]);
                    out.push(c);
                    proof {
                        assert(paths_of(out@) =~= o0.push(am[i as int]));
                        assert forall|k: int| 0 <= k < i + 1 && #[trigger] target(doc@, qm, w, am[k]) implies paths_of(out@).contains(am[k]) by {
                            if k < i {
                                let x = choose|x: int| 0 <= x < o0.len() && o0[x] == am[k];
                                assert(paths_of(out@)[x] == am[k]);
                            } else {
                                assert(paths_of(out@)[o0.len() as int] == am[k]);
                            }
                        }
                    }
                } else {
                    proof {
                        assert forall|k: int| 0 <= k < i + 1 && #[trigger] target(doc@, qm, w, am[k]) implies paths_of(out@).contains(am[k]) by {
                            if k == i {
                                assert(steps_of(all@[i as int]@) == am[k]);
                            }
                        }
                    }
                }
            },
            None => {},
        }
        i = i + 1;
    }
    proof {
        assert forall|p: Seq<Step>| #[trigger] target(doc@, qm, w, p) implies paths_of(out@).contains(p) by {
            assert(am.contains(p));
            let k = choose|k: int| 0 <= k < am.len() && am[k] == p;
            assert(target(doc@, qm, w, am[k]));
        }
    }
    Ok(out)
}

/// No node of a wanted kind is selected.
pub open spec fn no_target(root: Json, q: Seq<Seg>, w: Want) -> bool {
    forall|p: Seq<Step>| !#[trigger] target(root, q, w, p)
}

/// `p` leads to the one node of a wanted kind that is selected.
pub open spec fn unique_target(root: Json, q: Seq<Seg>, w: Want, p: Seq<Step>) -> bool {
    target(root, q, w, p) && forall|p2: Seq<Step>| #[trigger] target(root, q, w, p2) ==> p2 == p
}

proof fn lemma_targets_count(root: Json, q: Seq<Seg>, w: Want, ps: Seq<Seq<Step>>)
    requires
        targets(root, q, w, ps),
        no_repeats(ps),
    ensures
        ps.len() == 0 <==> no_target(root, q, w),
        forall|p: Seq<Step>| #[trigger] unique_target(root, q, w, p) ==> ps.len() == 1 && ps[0] == p,
{
    if ps.len() > 0 {
        assert(target(root, q, w, ps[0]));
    } else {
        assert forall|p: Seq<Step>| !#[trigger] target(root, q, w, p) by {
            if target(root, q, w, p) {
                assert(ps.contains(p));
            }
        }
    }
    assert forall|p: Seq<Step>| #[trigger] unique_target(root, q, w, p) implies ps.len() == 1 && ps[0] == p by {
        assert(ps.contains(p));
        assert(target(root, q, w, ps[0]));
        if ps.len() > 1 {
            assert(target(root, q, w, ps[1]));
            assert(ps[0] == ps[1]);
        }
    }
}

/// What a command that edits every selected node of a wanted kind reports
/// when there is no such node: a syntax error for a malformed path,
/// not-found when the path selects nothing, a type mismatch when it selects
/// only nodes of other kinds; the document is unchanged.
pub open spec fn edit_failed<R>(old: Json, new: Json, path: Seq<char>, w: Want, r: Result<R, JsonError>) -> bool {
    match query_of(path) {
        None => r == Err::<R, JsonError>(JsonError::Syntax) && new == old,
        Some(q) => no_target(old, q, w) ==> new == old && r == Err::<R, JsonError>(
            if any_match(old, q) {
                JsonError::TypeMismatch
            } else {
                JsonError::NotFound
            },
        ),
    }
}

/// The error for a path that selects no node of the wanted kind.
pub fn missing_error(path: &str, doc: &JsonValue) -> (r: JsonError)
    requires
        query_of(path@) is Some,
    ensures
        r == (if any_match(doc@, query_of(path@)->0) {
            JsonError::TypeMismatch
        } else {
            JsonError::NotFound
        }),
{
    match find_paths(path, doc, Want::Anything) {
        Ok(ps) => {
            let ghost q = query_of(path@)->0;
            proof {
                lemma_targets_count(doc@, q, Want::Anything, paths_of(ps@));
                if any_match(doc@, q) {
                    let p = choose|p: Seq<Step>| #[trigger] path_matches(doc@, q, 0, p);
                    lemma_matches_node(doc@, q, 0, p);
                    assert(target(doc@, q, Want::Anything, p));
                } else {
                    assert forall|p: Seq<Step>| !#[trigger] target(doc@, q, Want::Anything, p) by {}
                }
            }
            if ps.len() == 0 {
                JsonError::NotFound
            } else {
                JsonError::TypeMismatch
            }
        },
        Err(_) => JsonError::Syntax,
    }
}

/// The one node of a wanted kind that `path` selects in `root`, if there is
/// exactly one.
pub open spec fn single(root: Json, path: Seq<char>, w: Want, p: Seq<Step>) -> bool {
    query_of(path) is Some && unique_target(root, query_of(path)->0, w, p)
}

/// An edit that a command applies to each node it selects.
pub enum Edit {
    Toggle,
    StrAppend(Seq<char>),
    Append(Seq<Json>),
    Insert(Seq<Json>, int),
    Pop(int),
    Trim(int, int),
    Arith(ops::NumOp, int),
    Clear,
}

/// What one edit reports.
pub enum Out {
    Flag(bool),
    Len(int),
    Popped(Option<Json>),
    Num(ops::NumOutcome),
}

pub open spec fn popped_model(x: Option<JsonValue>) -> Option<Json> {
    match x {
        Some(v) => Some(v@),
        None => None,
    }
}

/// What an edit makes of one node, and what it reports (see `ops`).
pub open spec fn edit_node(t: Json, e: Edit) -> Result<(Json, Out), JsonError> {
    match (e, t) {
        (Edit::Toggle, Json::Bool(b)) => Ok((Json::Bool(!b), Out::Flag(!b))),
        (Edit::StrAppend(x), Json::Str(s)) => Ok((Json::Str(s + x), Out::Len(byte_len(s + x) as int))),
        (Edit::Append(vs), Json::Arr(a)) => Ok((Json::Arr(a + vs), Out::Len((a.len() + vs.len()) as int))),
        (Edit::Insert(vs, i), Json::Arr(a)) => {
            let j = ops::resolve_index(i, a.len() as int);
            if 0 <= j <= a.len() {
                Ok((Json::Arr(ops::inserted(a, j, vs)), Out::Len((a.len() + vs.len()) as int)))
            } else {
                Err(JsonError::OutOfRange)
            }
        },
        (Edit::Pop(i), Json::Arr(a)) => if a.len() == 0 {
            Ok((t, Out::Popped(None)))
        } else {
            let j = ops::clamp_index(i, a.len() as int);
            Ok((Json::Arr(a.remove(j)), Out::Popped(Some(a[j]))))
        },
        (Edit::Trim(x, y), Json::Arr(a)) => {
            let (s, e) = ops::trim_range(x, y, a.len() as int);
            Ok((Json::Arr(a.subrange(s, e)), Out::Len(e - s)))
        },
        (Edit::Arith(op, y), Json::Int(x)) => if ops::has_int_result(op, x, y) {
            Ok((Json::Int(ops::num_result(op, x, y)), Out::Num(ops::NumOutcome::Int(ops::num_result(op, x, y) as i64))))
        } else {
            Ok((t, Out::Num(ops::NumOutcome::Promote)))
        },
        (Edit::Arith(_, _), Json::Double(_)) => Ok((t, Out::Num(ops::NumOutcome::Promote))),
        (Edit::Clear, _) => Ok((
            ops::cleared(t),
            Out::Len(
                if t is Arr || t is Obj || t is Int || t is Double {
                    1
                } else {
                    0
                },
            ),
        )),
        _ => Err(JsonError::TypeMismatch),
    }
}

/// An edit at the node that `p` leads to in `d`.
pub open spec fn edit_at(d: Json, p: Seq<Step>, e: Edit) -> Result<(Json, Out), JsonError> {
    match node_at(d, p) {
        None => Err(JsonError::NotFound),
        Some(t) => match edit_node(t, e) {
            Ok((t2, o)) => Ok((update_at(d, p, t2), o)),
            Err(x) => Err(x),
        },
    }
}

/// The edit applied at each path of `ps` in turn, each on the document the
/// ones before left; the document after the last and what the last
/// reported, or the first failure.
pub open spec fn edit_all(d: Json, ps: Seq<Seq<Step>>, e: Edit) -> Result<(Json, Out), JsonError>
    decreases ps.len(),
{
    if ps.len() <= 1 {
        if ps.len() == 0 {
            Err(JsonError::NotFound)
        } else {
            edit_at(d, ps[0], e)
        }
    } else {
        match edit_all(d, ps.drop_last(), e) {
            Ok((d1, _)) => edit_at(d1, ps.last(), e),
            Err(x) => Err(x),
        }
    }
}

proof fn lemma_edit_all_err(d: Json, ps: Seq<Seq<Step>>, i: int, e: Edit)
    requires
        1 <= i <= ps.len(),
        edit_all(d, ps.subrange(0, i), e) is Err,
    ensures
        edit_all(d, ps, e) == edit_all(d, ps.subrange(0, i), e),
    decreases ps.len() - i,
{
    if i == ps.len() {
        assert(ps.subrange(0, i) =~= ps);
    } else {
        assert(ps.subrange(0, i + 1).drop_last() =~= ps.subrange(0, i));
        lemma_edit_all_err(d, ps, i + 1, e);
    }
}

/// Copies of the values of `vals`.
pub fn copy_values(vals: &Vec<JsonValue>) -> (r: Vec<JsonValue>)
    ensures
        models(r@) == models(vals@),
{
    let mut out: Vec<JsonValue> = Vec::new();
    let mut i: usize = 0;
    while i < vals.len()
        invariant
            i <= vals@.len(),
            models(out@) == models(vals@).subrange(0, i as int),
        decreases vals@.len() - i,
    {
        let c = copy_value(&vals[i]);
        let ghost before = out@;
        out.push(c);
        assert(models(out@) =~= models(before).push(c@));
        i = i + 1;
        assert(models(out@) =~= models(vals@).subrange(0, i as int));
    }
    assert(models(vals@).subrange(0, i as int) =~= models(vals@));
    out
}

/// Flips each boolean that a path selects; the new value of the last one.
pub fn command_json_bool_toggle(doc: &mut JsonValue, path: String) -> (r: Result<bool, JsonError>)
    ensures
        edit_failed(old(doc)@, final(doc)@, fixed_of(path@), Want::Bools, r),
        forall|p: Seq<Step>| #[trigger] single(old(doc)@, fixed_of(path@), Want::Bools, p) ==> r == Ok::<bool, JsonError>(
            !node_at(old(doc)@, p)->0->Bool_0,
        ) && final(doc)@ == update_at(old(doc)@, p, Json::Bool(!node_at(old(doc)@, p)->0->Bool_0)),
        match query_of(fixed_of(path@)) {
            Some(q) => !no_target(old(doc)@, q, Want::Bools) ==> match edit_all(
                old(doc)@,
                typed(old(doc)@, q, Want::Bools),
                Edit::Toggle,
            ) {
                Ok((d2, o)) => final(doc)@ == d2 && (r matches Ok(x) && o == Out::Flag(x)),
                Err(x) => r == Err::<bool, JsonError>(x) && final(doc)@ == old(doc)@,
            },
            None => true,
        },
        json_wf(old(doc)@) ==> json_wf(final(doc)@),
{
    let ghost d0 = doc@;
    let fixed = backwards_compat_path(path);
    let ps = find_paths(fixed.as_str(), doc, Want::Bools)?;
    let ghost q = query_of(fixed@)->0;
    let ghost pm = paths_of(ps@);
    let ghost e = Edit::Toggle;
    proof {
        lemma_targets_count(doc@, q, Want::Bools, pm);
    }
    if ps.len() == 0 {
        return Err(missing_error(fixed.as_str(), doc));
    }
    if ps.len() == 1 {
        proof {
            if node_at(d0, pm[0]) is Some {
                crate::path::lemma_update_same(d0, pm[0]);
            }
        }
        return ops::bool_toggle(doc, &ps[0]);
    }
    let mut work = copy_value(doc);
    let mut res = false;
    let mut i: usize = 0;
    while i < ps.len()
        invariant
            i <= ps@.len(),
            ps@.len() > 1,
            pm == paths_of(ps@),
            d0 == old(doc)@,
            doc@ == d0,
            e == Edit::Toggle,
            fixed@ == fixed_of(path@),
            query_of(fixed@) == Some(q),
            pm == typed(d0, q, Want::Bools),
            !no_target(d0, q, Want::Bools),
            forall|p: Seq<Step>| !#[trigger] single(d0, fixed@, Want::Bools, p),
            i == 0 ==> work@ == d0,
            i > 0 ==> edit_all(d0, pm.subrange(0, i as int), e) == Ok::<(Json, Out), JsonError>((work@, Out::Flag(res))),
            json_wf(d0) ==> json_wf(work@),
        decreases ps@.len() - i,
    {
        proof {
            if node_at(work@, pm[i as int]) is Some {
                crate::path::lemma_update_same(work@, pm[i as int]);
            }
            assert(pm.subrange(0, i + 1).drop_last() =~= pm.subrange(0, i as int));
            assert(pm.subrange(0, i + 1).last() == pm[i as int]);
            assert(pm.subrange(0, i + 1).len() == i + 1);
        }
        match ops::bool_toggle(&mut work, &ps[i]) {
            Ok(x) => {
                res = x;
            },
            Err(x) => {
                proof {
                    lemma_edit_all_err(d0, pm, i + 1, e);
                }
                return Err(x);
            },
        }
        i = i + 1;
    }
    proof {
        assert(pm.subrange(0, pm.len() as int) =~= pm);
    }
    *doc = work;
    Ok(res)
}

/// Appends `text` to each string that a path (the root by default) selects;
/// the new length, in bytes of its UTF-8 encoding, of the last one.
pub fn command_json_str_append(doc: &mut JsonValue, path: Option<String>, text: &str) -> (r: Result<usize, JsonError>)
    ensures
        edit_failed(old(doc)@, final(doc)@, path_or_root(path), Want::Strings, r),
        forall|p: Seq<Step>| #[trigger] single(old(doc)@, path_or_root(path), Want::Strings, p) ==> {
            let t = node_at(old(doc)@, p)->0;
            r is Ok && r->Ok_0 == byte_len(t->Str_0 + text@) && final(doc)@ == update_at(old(doc)@, p, Json::Str(t->Str_0 + text@))
        },
        match query_of(path_or_root(path)) {
            Some(q) => !no_target(old(doc)@, q, Want::Strings) ==> match edit_all(
                old(doc)@,
                typed(old(doc)@, q, Want::Strings),
                Edit::StrAppend(text@),
            ) {
                Ok((d2, o)) => final(doc)@ == d2 && (r matches Ok(x) && o == Out::Len(x as int)),
                Err(x) => r == Err::<usize, JsonError>(x) && final(doc)@ == old(doc)@,
            },
            None => true,
        },
        json_wf(old(doc)@) ==> json_wf(final(doc)@),
{
    let ghost d0 = doc@;
    let fixed = match path {
        Some(p) => backwards_compat_path(p),
        None => String::from_str("$"),
    };
    proof {
        reveal_strlit("$");
    }
    let ps = find_paths(fixed.as_str(), doc, Want::Strings)?;
    let ghost q = query_of(fixed@)->0;
    let ghost pm = paths_of(ps@);
    let ghost e = Edit::StrAppend(text@);
    proof {
        lemma_targets_count(doc@, q, Want::Strings, pm);
    }
    if ps.len() == 0 {
        return Err(missing_error(fixed.as_str(), doc));
    }
    if ps.len() == 1 {
        proof {
            if node_at(d0, pm[0]) is Some {
                crate::path::lemma_update_same(d0, pm[0]);
            }
        }
        return ops::str_append(doc, &ps[0], text);
    }
    let mut work = copy_value(doc);
    let mut res: usize = 0;
    let mut i: usize = 0;
    while i < ps.len()
        invariant
            i <= ps@.len(),
            ps@.len() > 1,
            pm == paths_of(ps@),
            d0 == old(doc)@,
            doc@ == d0,
            e == Edit::StrAppend(text@),
            fixed@ == path_or_root(path),
            query_of(fixed@) == Some(q),
            pm == typed(d0, q, Want::Strings),
            !no_target(d0, q, Want::Strings),
            forall|p: Seq<Step>| !#[trigger] single(d0, fixed@, Want::Strings, p),
            i == 0 ==> work@ == d0,
            i > 0 ==> edit_all(d0, pm.subrange(0, i as int), e) == Ok::<(Json, Out), JsonError>((work@, Out::Len(res as int))),
            json_wf(d0) ==> json_wf(work@),
        decreases ps@.len() - i,
    {
        proof {
            if node_at(work@, pm[i as int]) is Some {
                crate::path::lemma_update_same(work@, pm[i as int]);
            }
            assert(pm.subrange(0, i + 1).drop_last() =~= pm.subrange(0, i as int));
            assert(pm.subrange(0, i + 1).last() == pm[i as int]);
            assert(pm.subrange(0, i + 1).len() == i + 1);
        }
        match ops::str_append(&mut work, &ps[i], text) {
            Ok(x) => {
                res = x;
            },
            Err(x) => {
                proof {
                    lemma_edit_all_err(d0, pm, i + 1, e);
                }
                return Err(x);
            },
        }
        i = i + 1;
    }
    proof {
        assert(pm.subrange(0, pm.len() as int) =~= pm);
    }
    *doc = work;
    Ok(res)
}

/// Appends `vals`, in order, to each array that a path selects; the new
/// length of the last one. At least one value is needed.
pub fn command_json_arr_append(doc: &mut JsonValue, path: String, vals: Vec<JsonValue>) -> (r: Result<usize, JsonError>)
    ensures
        vals@.len() > 0 ==> edit_failed(old(doc)@, final(doc)@, fixed_of(path@), Want::Arrays, r),
        vals@.len() > 0 ==> (forall|p: Seq<Step>| #[trigger] single(old(doc)@, fixed_of(path@), Want::Arrays, p) ==> {
            let t = node_at(old(doc)@, p)->0;
            r is Ok && r->Ok_0 as int == t->Arr_0.len() + vals@.len() && final(doc)@ == update_at(old(doc)@, p, Json::Arr(t->Arr_0 + models(vals@)))
        }),
        vals@.len() > 0 ==> match query_of(fixed_of(path@)) {
            Some(q) => !no_target(old(doc)@, q, Want::Arrays) ==> match edit_all(
                old(doc)@,
                typed(old(doc)@, q, Want::Arrays),
                Edit::Append(models(vals@)),
            ) {
                Ok((d2, o)) => final(doc)@ == d2 && (r matches Ok(x) && o == Out::Len(x as int)),
                Err(x) => r == Err::<usize, JsonError>(x) && final(doc)@ == old(doc)@,
            },
            None => true,
        },
        vals@.len() == 0 ==> r == Err::<usize, JsonError>(JsonError::WrongArity) && final(doc)@ == old(doc)@,
        json_wf(old(doc)@) && (forall|i: int| 0 <= i < vals@.len() ==> json_wf(#[trigger] vals@[i]@)) ==> json_wf(final(doc)@),
{
    let ghost d0 = doc@;
    if vals.len() == 0 {
        return Err(JsonError::WrongArity);
    }
    let fixed = backwards_compat_path(path);
    let ps = find_paths(fixed.as_str(), doc, Want::Arrays)?;
    let ghost q = query_of(fixed@)->0;
    let ghost pm = paths_of(ps@);
    let ghost e = Edit::Append(models(vals@));
    proof {
        lemma_targets_count(doc@, q, Want::Arrays, pm);
    }
    if ps.len() == 0 {
        return Err(missing_error(fixed.as_str(), doc));
    }
    if ps.len() == 1 {
        proof {
            if node_at(d0, pm[0]) is Some {
                crate::path::lemma_update_same(d0, pm[0]);
            }
        }
        return ops::arr_append(doc, &ps[0], vals);
    }
    let mut work = copy_value(doc);
    let mut res: usize = 0;
    let mut i: usize = 0;
    while i < ps.len()
        invariant
            i <= ps@.len(),
            ps@.len() > 1,
            vals@.len() > 0,
            pm == paths_of(ps@),
            d0 == old(doc)@,
            doc@ == d0,
            e == Edit::Append(models(vals@)),
            fixed@ == fixed_of(path@),
            query_of(fixed@) == Some(q),
            pm == typed(d0, q, Want::Arrays),
            !no_target(d0, q, Want::Arrays),
            forall|p: Seq<Step>| !#[trigger] single(d0, fixed@, Want::Arrays, p),
            i == 0 ==> work@ == d0,
            i > 0 ==> edit_all(d0, pm.subrange(0, i as int), e) == Ok::<(Json, Out), JsonError>((work@, Out::Len(res as int))),
            json_wf(d0) && (forall|i: int| 0 <= i < vals@.len() ==> json_wf(#[trigger] vals@[i]@)) ==> json_wf(work@),
        decreases ps@.len() - i,
    {
        proof {
            if node_at(work@, pm[i as int]) is Some {
                crate::path::lemma_update_same(work@, pm[i as int]);
            }
            assert(pm.subrange(0, i + 1).drop_last() =~= pm.subrange(0, i as int));
            assert(pm.subrange(0, i + 1).last() == pm[i as int]);
            assert(pm.subrange(0, i + 1).len() == i + 1);
        }
        let copies = copy_values(&vals);
        proof {
            assert forall|k: int| 0 <= k < copies@.len() implies copies@[k]@ == vals@[k]@ by {
                assert(models(copies@)[k] == models(vals@)[k]);
            }
        }
        match ops::arr_append(&mut work, &ps[i], copies) {
            Ok(x) => {
                res = x;
            },
            Err(x) => {
                proof {
                    lemma_edit_all_err(d0, pm, i + 1, e);
                }
                return Err(x);
            },
        }
        i = i + 1;
    }
    proof {
        assert(pm.subrange(0, pm.len() as int) =~= pm);
    }
    *doc = work;
    Ok(res)
}

/// Inserts `vals`, in order, into each array that a path selects before
/// position `index` (negative counts from the end); the new length of the
/// last one. At least one value is needed.
pub fn command_json_arr_insert(doc: &mut JsonValue, path: String, vals: Vec<JsonValue>, index: i64) -> (r: Result<usize, JsonError>)
    ensures
        vals@.len() > 0 ==> edit_failed(old(doc)@, final(doc)@, fixed_of(path@), Want::Arrays, r),
        vals@.len() > 0 ==> (forall|p: Seq<Step>| #[trigger] single(old(doc)@, fixed_of(path@), Want::Arrays, p) ==> {
            let t = node_at(old(doc)@, p)->0;
            {
                let i = ops::resolve_index(index as int, t->Arr_0.len() as int);
                if 0 <= i <= t->Arr_0.len() {
                    r is Ok && r->Ok_0 as int == t->Arr_0.len() + vals@.len() && final(doc)@ == update_at(old(doc)@, p, Json::Arr(ops::inserted(t->Arr_0, i, models(vals@))))
                } else {
                    r == Err::<usize, JsonError>(JsonError::OutOfRange) && final(doc)@ == old(doc)@
                }
            }
        }),
        vals@.len() > 0 ==> match query_of(fixed_of(path@)) {
            Some(q) => !no_target(old(doc)@, q, Want::Arrays) ==> match edit_all(
                old(doc)@,
                typed(old(doc)@, q, Want::Arrays),
                Edit::Insert(models(vals@), index as int),
            ) {
                Ok((d2, o)) => final(doc)@ == d2 && (r matches Ok(x) && o == Out::Len(x as int)),
                Err(x) => r == Err::<usize, JsonError>(x) && final(doc)@ == old(doc)@,
            },
            None => true,
        },
        vals@.len() == 0 ==> r == Err::<usize, JsonError>(JsonError::WrongArity) && final(doc)@ == old(doc)@,
        json_wf(old(doc)@) && (forall|i: int| 0 <= i < vals@.len() ==> json_wf(#[trigger] vals@[i]@)) ==> json_wf(final(doc)@),
{
    let ghost d0 = doc@;
    if vals.len() == 0 {
        return Err(JsonError::WrongArity);
    }
    let fixed = backwards_compat_path(path);
    let ps = find_paths(fixed.as_str(), doc, Want::Arrays)?;
    let ghost q = query_of(fixed@)->0;
    let ghost pm = paths_of(ps@);
    let ghost e = Edit::Insert(models(vals@), index as int);
    proof {
        lemma_targets_count(doc@, q, Want::Arrays, pm);
    }
    if ps.len() == 0 {
        return Err(missing_error(fixed.as_str(), doc));
    }
    if ps.len() == 1 {
        proof {
            if node_at(d0, pm[0]) is Some {
                crate::path::lemma_update_same(d0, pm[0]);
            }
        }
        return ops::arr_insert(doc, &ps[0], vals, index);
    }
    let mut work = copy_value(doc);
    let mut res: usize = 0;
    let mut i: usize = 0;
    while i < ps.len()
        invariant
            i <= ps@.len(),
            ps@.len() > 1,
            vals@.len() > 0,
            pm == paths_of(ps@),
            d0 == old(doc)@,
            doc@ == d0,
            e == Edit::Insert(models(vals@), index as int),
            fixed@ == fixed_of(path@),
            query_of(fixed@) == Some(q),
            pm == typed(d0, q, Want::Arrays),
            !no_target(d0, q, Want::Arrays),
            forall|p: Seq<Step>| !#[trigger] single(d0, fixed@, Want::Arrays, p),
            i == 0 ==> work@ == d0,
            i > 0 ==> edit_all(d0, pm.subrange(0, i as int), e) == Ok::<(Json, Out), JsonError>((work@, Out::Len(res as int))),
            json_wf(d0) && (forall|i: int| 0 <= i < vals@.len() ==> json_wf(#[trigger] vals@[i]@)) ==> json_wf(work@),
        decreases ps@.len() - i,
    {
        proof {
            if node_at(work@, pm[i as int]) is Some {
                crate::path::lemma_update_same(work@, pm[i as int]);
            }
            assert(pm.subrange(0, i + 1).drop_last() =~= pm.subrange(0, i as int));
            assert(pm.subrange(0, i + 1).last() == pm[i as int]);
            assert(pm.subrange(0, i + 1).len() == i + 1);
        }
        let copies = copy_values(&vals);
        proof {
            assert forall|k: int| 0 <= k < copies@.len() implies copies@[k]@ == vals@[k]@ by {
                assert(models(copies@)[k] == models(vals@)[k]);
            }
        }
        match ops::arr_insert(&mut work, &ps[i], copies, index) {
            Ok(x) => {
                res = x;
            },
            Err(x) => {
                proof {
                    lemma_edit_all_err(d0, pm, i + 1, e);
                }
                return Err(x);
            },
        }
        i = i + 1;
    }
    proof {
        assert(pm.subrange(0, pm.len() as int) =~= pm);
    }
    *doc = work;
    Ok(res)
}

/// Trims each array that a path selects to the elements from `start` to
/// `stop` (see `ops::arr_trim`); the new length of the last one.
pub fn command_json_arr_trim(doc: &mut JsonValue, path: String, start: i64, stop: i64) -> (r: Result<usize, JsonError>)
    ensures
        edit_failed(old(doc)@, final(doc)@, fixed_of(path@), Want::Arrays, r),
        forall|p: Seq<Step>| #[trigger] single(old(doc)@, fixed_of(path@), Want::Arrays, p) ==> {
            let t = node_at(old(doc)@, p)->0;
            {
                let (s, e) = ops::trim_range(start as int, stop as int, t->Arr_0.len() as int);
                r is Ok && r->Ok_0 as int == e - s && final(doc)@ == update_at(old(doc)@, p, Json::Arr(t->Arr_0.subrange(s, e)))
            }
        },
        match query_of(fixed_of(path@)) {
            Some(q) => !no_target(old(doc)@, q, Want::Arrays) ==> match edit_all(
                old(doc)@,
                typed(old(doc)@, q, Want::Arrays),
                Edit::Trim(start as int, stop as int),
            ) {
                Ok((d2, o)) => final(doc)@ == d2 && (r matches Ok(x) && o == Out::Len(x as int)),
                Err(x) => r == Err::<usize, JsonError>(x) && final(doc)@ == old(doc)@,
            },
            None => true,
        },
        json_wf(old(doc)@) ==> json_wf(final(doc)@),
{
    let ghost d0 = doc@;
    let fixed = backwards_compat_path(path);
    let ps = find_paths(fixed.as_str(), doc, Want::Arrays)?;
    let ghost q = query_of(fixed@)->0;
    let ghost pm = paths_of(ps@);
    let ghost e = Edit::Trim(start as int, stop as int);
    proof {
        lemma_targets_count(doc@, q, Want::Arrays, pm);
    }
    if ps.len() == 0 {
        return Err(missing_error(fixed.as_str(), doc));
    }
    if ps.len() == 1 {
        proof {
            if node_at(d0, pm[0]) is Some {
                crate::path::lemma_update_same(d0, pm[0]);
            }
        }
        return ops::arr_trim(doc, &ps[0], start, stop);
    }
    let mut work = copy_value(doc);
    let mut res: usize = 0;
    let mut i: usize = 0;
    while i < ps.len()
        invariant
            i <= ps@.len(),
            ps@.len() > 1,
            pm == paths_of(ps@),
            d0 == old(doc)@,
            doc@ == d0,
            e == Edit::Trim(start as int, stop as int),
            fixed@ == fixed_of(path@),
            query_of(fixed@) == Some(q),
            pm == typed(d0, q, Want::Arrays),
            !no_target(d0, q, Want::Arrays),
            forall|p: Seq<Step>| !#[trigger] single(d0, fixed@, Want::Arrays, p),
            i == 0 ==> work@ == d0,
            i > 0 ==> edit_all(d0, pm.subrange(0, i as int), e) == Ok::<(Json, Out), JsonError>((work@, Out::Len(res as int))),
            json_wf(d0) ==> json_wf(work@),
        decreases ps@.len() - i,
    {
        proof {
            if node_at(work@, pm[i as int]) is Some {
                crate::path::lemma_update_same(work@, pm[i as int]);
            }
            assert(pm.subrange(0, i + 1).drop_last() =~= pm.subrange(0, i as int));
            assert(pm.subrange(0, i + 1).last() == pm[i as int]);
            assert(pm.subrange(0, i + 1).len() == i + 1);
        }
        match ops::arr_trim(&mut work, &ps[i], start, stop) {
            Ok(x) => {
                res = x;
            },
            Err(x) => {
                proof {
                    lemma_edit_all_err(d0, pm, i + 1, e);
                }
                return Err(x);
            },
        }
        i = i + 1;
    }
    proof {
        assert(pm.subrange(0, pm.len() as int) =~= pm);
    }
    *doc = work;
    Ok(res)
}

/// Applies `op` with operand `by` to each number that a path selects; the
/// outcome for the last one.
pub fn command_json_num_op(doc: &mut JsonValue, path: String, op: ops::NumOp, by: i64) -> (r: Result<ops::NumOutcome, JsonError>)
    ensures
        edit_failed(old(doc)@, final(doc)@, fixed_of(path@), Want::Numbers, r),
        forall|p: Seq<Step>| #[trigger] single(old(doc)@, fixed_of(path@), Want::Numbers, p) ==> {
            let t = node_at(old(doc)@, p)->0;
            match t {
                Json::Int(x) => if ops::has_int_result(op, x, by as int) {
                    r == Ok::<ops::NumOutcome, JsonError>(ops::NumOutcome::Int(ops::num_result(op, x, by as int) as i64)) && final(doc)@ == update_at(old(doc)@, p, Json::Int(ops::num_result(op, x, by as int)))
                } else {
                    r == Ok::<ops::NumOutcome, JsonError>(ops::NumOutcome::Promote) && final(doc)@ == old(doc)@
                },
                _ => r == Ok::<ops::NumOutcome, JsonError>(ops::NumOutcome::Promote) && final(doc)@ == old(doc)@,
            }
        },
        match query_of(fixed_of(path@)) {
            Some(q) => !no_target(old(doc)@, q, Want::Numbers) ==> match edit_all(
                old(doc)@,
                typed(old(doc)@, q, Want::Numbers),
                Edit::Arith(op, by as int),
            ) {
                Ok((d2, o)) => final(doc)@ == d2 && (r matches Ok(x) && o == Out::Num(x)),
                Err(x) => r == Err::<ops::NumOutcome, JsonError>(x) && final(doc)@ == old(doc)@,
            },
            None => true,
        },
        json_wf(old(doc)@) ==> json_wf(final(doc)@),
{
    let ghost d0 = doc@;
    let fixed = backwards_compat_path(path);
    let ps = find_paths(fixed.as_str(), doc, Want::Numbers)?;
    let ghost q = query_of(fixed@)->0;
    let ghost pm = paths_of(ps@);
    let ghost e = Edit::Arith(op, by as int);
    proof {
        lemma_targets_count(doc@, q, Want::Numbers, pm);
    }
    if ps.len() == 0 {
        return Err(missing_error(fixed.as_str(), doc));
    }
    if ps.len() == 1 {
        proof {
            if node_at(d0, pm[0]) is Some {
                crate::path::lemma_update_same(d0, pm[0]);
            }
        }
        return ops::num_op(doc, &ps[0], op, by);
    }
    let mut work = copy_value(doc);
    let mut res = ops::NumOutcome::Promote;
    let mut i: usize = 0;
    while i < ps.len()
        invariant
            i <= ps@.len(),
            ps@.len() > 1,
            pm == paths_of(ps@),
            d0 == old(doc)@,
            doc@ == d0,
            e == Edit::Arith(op, by as int),
            fixed@ == fixed_of(path@),
            query_of(fixed@) == Some(q),
            pm == typed(d0, q, Want::Numbers),
            !no_target(d0, q, Want::Numbers),
            forall|p: Seq<Step>| !#[trigger] single(d0, fixed@, Want::Numbers, p),
            i == 0 ==> work@ == d0,
            i > 0 ==> edit_all(d0, pm.subrange(0, i as int), e) == Ok::<(Json, Out), JsonError>((work@, Out::Num(res))),
            json_wf(d0) ==> json_wf(work@),
        decreases ps@.len() - i,
    {
        proof {
            if node_at(work@, pm[i as int]) is Some {
                crate::path::lemma_update_same(work@, pm[i as int]);
            }
            assert(pm.subrange(0, i + 1).drop_last() =~= pm.subrange(0, i as int));
            assert(pm.subrange(0, i + 1).last() == pm[i as int]);
            assert(pm.subrange(0, i + 1).len() == i + 1);
        }
        match ops::num_op(&mut work, &ps[i], op, by) {
            Ok(x) => {
                res = x;
            },
            Err(x) => {
                proof {
                    lemma_edit_all_err(d0, pm, i + 1, e);
                }
                return Err(x);
            },
        }
        i = i + 1;
    }
    proof {
        assert(pm.subrange(0, pm.len() as int) =~= pm);
    }
    *doc = work;
    Ok(res)
}

/// Resets each node that a path (the root by default) selects (see `ops::cleared`); what the last
/// reset reported (see `ops::clear`).
pub fn command_json_clear(doc: &mut JsonValue, path: Option<String>) -> (r: Result<usize, JsonError>)
    ensures
        edit_failed(old(doc)@, final(doc)@, path_or_root(path), Want::Anything, r),
        forall|p: Seq<Step>| #[trigger] single(old(doc)@, path_or_root(path), Want::Anything, p) ==> {
            let t = node_at(old(doc)@, p)->0;
            r == Ok::<usize, JsonError>(if t is Arr || t is Obj || t is Int || t is Double { 1 } else { 0 }) && final(doc)@ == update_at(old(doc)@, p, ops::cleared(t))
        },
        match query_of(path_or_root(path)) {
            Some(q) => !no_target(old(doc)@, q, Want::Anything) ==> match edit_all(
                old(doc)@,
                typed(old(doc)@, q, Want::Anything),
                Edit::Clear,
            ) {
                Ok((d2, o)) => final(doc)@ == d2 && (r matches Ok(x) && o == Out::Len(x as int)),
                Err(x) => r == Err::<usize, JsonError>(x) && final(doc)@ == old(doc)@,
            },
            None => true,
        },
        json_wf(old(doc)@) ==> json_wf(final(doc)@),
{
    let ghost d0 = doc@;
    let fixed = match path {
        Some(p) => backwards_compat_path(p),
        None => String::from_str("$"),
    };
    proof {
        reveal_strlit("$");
    }
    let ps = find_paths(fixed.as_str(), doc, Want::Anything)?;
    let ghost q = query_of(fixed@)->0;
    let ghost pm = paths_of(ps@);
    let ghost e = Edit::Clear;
    proof {
        lemma_targets_count(doc@, q, Want::Anything, pm);
    }
    if ps.len() == 0 {
        return Err(missing_error(fixed.as_str(), doc));
    }
    if ps.len() == 1 {
        proof {
            if node_at(d0, pm[0]) is Some {
                crate::path::lemma_update_same(d0, pm[0]);
            }
        }
        return ops::clear(doc, &ps[0]);
    }
    let mut work = copy_value(doc);
    let mut res: usize = 0;
    let mut i: usize = 0;
    while i < ps.len()
        invariant
            i <= ps@.len(),
            ps@.len() > 1,
            pm == paths_of(ps@),
            d0 == old(doc)@,
            doc@ == d0,
            e == Edit::Clear,
            fixed@ == path_or_root(path),
            query_of(fixed@) == Some(q),
            pm == typed(d0, q, Want::Anything),
            !no_target(d0, q, Want::Anything),
            forall|p: Seq<Step>| !#[trigger] single(d0, fixed@, Want::Anything, p),
            i == 0 ==> work@ == d0,
            i > 0 ==> edit_all(d0, pm.subrange(0, i as int), e) == Ok::<(Json, Out), JsonError>((work@, Out::Len(res as int))),
            json_wf(d0) ==> json_wf(work@),
        decreases ps@.len() - i,
    {
        proof {
            if node_at(work@, pm[i as int]) is Some {
                crate::path::lemma_update_same(work@, pm[i as int]);
            }
            assert(pm.subrange(0, i + 1).drop_last() =~= pm.subrange(0, i as int));
            assert(pm.subrange(0, i + 1).last() == pm[i as int]);
            assert(pm.subrange(0, i + 1).len() == i + 1);
        }
        match ops::clear(&mut work, &ps[i]) {
            Ok(x) => {
                res = x;
            },
            Err(x) => {
                proof {
                    lemma_edit_all_err(d0, pm, i + 1, e);
                }
                return Err(x);
            },
        }
        i = i + 1;
    }
    proof {
        assert(pm.subrange(0, pm.len() as int) =~= pm);
    }
    *doc = work;
    Ok(res)
}

/// Removes and returns from each array that a path selects the element at
/// `index`, clamped into the array (see `ops::arr_pop`); what the last one
/// gave. The path is the root and the index the last element by default.
#[verifier::rlimit(100)]
pub fn command_json_arr_pop(doc: &mut JsonValue, path: Option<String>, index: Option<i64>) -> (r: Result<Option<JsonValue>, JsonError>)
    ensures
        edit_failed(old(doc)@, final(doc)@, path_or_root(path), Want::Arrays, r),
        forall|p: Seq<Step>| #[trigger] single(old(doc)@, path_or_root(path), Want::Arrays, p) ==> {
            let t = node_at(old(doc)@, p)->0;
            if t->Arr_0.len() == 0 {
                r is Ok && r->Ok_0 is None && final(doc)@ == old(doc)@
            } else {
                let i = ops::clamp_index(pop_index(path, index) as int, t->Arr_0.len() as int);
                r is Ok && r->Ok_0 is Some && r->Ok_0->0@ == t->Arr_0[i] && final(doc)@ == update_at(old(doc)@, p, Json::Arr(t->Arr_0.remove(i)))
            }
        },
        match query_of(path_or_root(path)) {
            Some(q) => !no_target(old(doc)@, q, Want::Arrays) ==> match edit_all(
                old(doc)@,
                typed(old(doc)@, q, Want::Arrays),
                Edit::Pop(pop_index(path, index) as int),
            ) {
                Ok((d2, o)) => final(doc)@ == d2 && (r matches Ok(x) && o == Out::Popped(popped_model(x))),
                Err(x) => r == Err::<Option<JsonValue>, JsonError>(x) && final(doc)@ == old(doc)@,
            },
            None => true,
        },
        json_wf(old(doc)@) ==> json_wf(final(doc)@),
{
    let ghost d0 = doc@;
    let has_path = path.is_some();
    let fixed = match path {
        Some(p) => backwards_compat_path(p),
        None => String::from_str("$"),
    };
    proof {
        reveal_strlit("$");
    }
    let at = match index {
        Some(i) if has_path => i,
        _ => if has_path {
            -1
        } else {
            i64::MAX
        },
    };
    let ps = find_paths(fixed.as_str(), doc, Want::Arrays)?;
    let ghost q = query_of(fixed@)->0;
    let ghost pm = paths_of(ps@);
    let ghost e = Edit::Pop(pop_index(path, index) as int);
    proof {
        lemma_targets_count(doc@, q, Want::Arrays, pm);
    }
    if ps.len() == 0 {
        return Err(missing_error(fixed.as_str(), doc));
    }
    if ps.len() == 1 {
        proof {
            if node_at(d0, pm[0]) is Some {
                crate::path::lemma_update_same(d0, pm[0]);
            }
        }
        return ops::arr_pop(doc, &ps[0], at);
    }
    let mut work = copy_value(doc);
    let mut res = None;
    let mut i: usize = 0;
    while i < ps.len()
        invariant
            i <= ps@.len(),
            ps@.len() > 1,
            pm == paths_of(ps@),
            d0 == old(doc)@,
            doc@ == d0,
            e == Edit::Pop(pop_index(path, index) as int),
            fixed@ == path_or_root(path),
            at == pop_index(path, index),
            query_of(fixed@) == Some(q),
            pm == typed(d0, q, Want::Arrays),
            !no_target(d0, q, Want::Arrays),
            forall|p: Seq<Step>| !#[trigger] single(d0, fixed@, Want::Arrays, p),
            i == 0 ==> work@ == d0,
            i > 0 ==> edit_all(d0, pm.subrange(0, i as int), e) == Ok::<(Json, Out), JsonError>((work@, Out::Popped(popped_model(res)))),
            json_wf(d0) ==> json_wf(work@),
        decreases ps@.len() - i,
    {
        proof {
            if node_at(work@, pm[i as int]) is Some {
                crate::path::lemma_update_same(work@, pm[i as int]);
            }
            assert(pm.subrange(0, i + 1).drop_last() =~= pm.subrange(0, i as int));
            assert(pm.subrange(0, i + 1).last() == pm[i as int]);
            assert(pm.subrange(0, i + 1).len() == i + 1);
        }
        match ops::arr_pop(&mut work, &ps[i], at) {
            Ok(x) => {
                res = x;
            },
            Err(x) => {
                proof {
                    assert(edit_all(d0, pm.subrange(0, i + 1), e) == Err::<(Json, Out), JsonError>(x));
                    lemma_edit_all_err(d0, pm, i + 1, e);
                }
                return Err(x);
            },
        }
        i = i + 1;
    }
    proof {
        assert(pm.subrange(0, pm.len() as int) =~= pm);
    }
    *doc = work;
    Ok(res)
}


/// `p` is the one navigation path that `q` matches from `root`.
pub open spec fn unique_match(root: Json, q: Seq<Seg>, p: Seq<Step>) -> bool {
    path_matches(root, q, 0, p) && forall|p2: Seq<Step>| #[trigger] path_matches(root, q, 0, p2) ==> p2 == p
}

proof fn lemma_unique_selected(root: Json, q: Seq<Seg>, ps: Seq<Seq<Step>>, p: Seq<Step>)
    requires
        selected(root, q, ps),
        no_repeats(ps),
        unique_match(root, q, p),
    ensures
        ps.len() == 1,
        ps[0] == p,
{
    assert(ps.contains(p));
    assert(path_matches(root, q, 0, ps[0]));
    if ps.len() > 1 {
        assert(path_matches(root, q, 0, ps[1]));
    }
}

/// The effect of adding the last member name of the static query `q` under
/// the one node `pp` that the rest of `q` selects, an object without that
/// member.
pub open spec fn unique_addition(root: Json, q: Seq<Seg>, pp: Seq<Step>) -> bool {
    &&& is_static(q)
    &&& q.len() > 0
    &&& q.last() is Child
    &&& q.last()->Child_0 is Name
    &&& unique_match(root, q.drop_last(), pp)
    &&& node_at(root, pp) matches Some(Json::Obj(o)) && obj_get(o, q.last()->Child_0->Name_0) is None
}

/// One target of a write applied to `d` (see `ops::set_value` and
/// `ops::dict_add`): whether it wrote, or its failure.
pub open spec fn target_step(d: Json, t: Target, v: Json) -> Result<(Json, bool), JsonError> {
    match t {
        Target::Replace(p) => if node_at(d, p) is Some {
            Ok((update_at(d, p, v), true))
        } else {
            Ok((d, false))
        },
        Target::Add(p, k) => match node_at(d, p) {
            None => Err(JsonError::NotFound),
            Some(Json::Obj(o)) => if obj_get(o, k) is Some {
                Ok((d, false))
            } else {
                Ok((update_at(d, p, Json::Obj(o.push((k, v)))), true))
            },
            Some(_) => Err(JsonError::TypeMismatch),
        },
    }
}

/// The targets applied in turn, each to the document the ones before left:
/// the document after the last and whether the last wrote, or the first
/// failure.
pub open spec fn apply_targets(d: Json, ts: Seq<Target>, v: Json) -> Result<(Json, bool), JsonError>
    decreases ts.len(),
{
    if ts.len() == 0 {
        Ok((d, false))
    } else if ts.len() == 1 {
        target_step(d, ts[0], v)
    } else {
        match apply_targets(d, ts.drop_last(), v) {
            Ok((d1, _)) => target_step(d1, ts.last(), v),
            Err(x) => Err(x),
        }
    }
}

proof fn lemma_apply_targets_err(d: Json, ts: Seq<Target>, i: int, v: Json)
    requires
        1 <= i <= ts.len(),
        apply_targets(d, ts.subrange(0, i), v) is Err,
    ensures
        apply_targets(d, ts, v) == apply_targets(d, ts.subrange(0, i), v),
    decreases ts.len() - i,
{
    if i == ts.len() {
        assert(ts.subrange(0, i) =~= ts);
    } else {
        assert(ts.subrange(0, i + 1).drop_last() =~= ts.subrange(0, i));
        lemma_apply_targets_err(d, ts, i + 1, v);
    }
}

/// What a write at a path other than the root does: the planned targets
/// applied in turn, or the planner's failure; a failure leaves the document
/// as it was.
pub open spec fn write_result(old: Json, new: Json, fixed: Seq<char>, option: SetOptions, v: Json, r: Result<bool, JsonError>) -> bool {
    match planned(old, fixed, option) {
        Err(e) => r == Err::<bool, JsonError>(e) && new == old,
        Ok(ts) => match apply_targets(old, ts, v) {
            Ok((d2, b)) => r == Ok::<bool, JsonError>(b) && new == d2,
            Err(e) => r == Err::<bool, JsonError>(e) && new == old,
        },
    }
}

/// Writes `value` where the planner puts it for a path other than the root
/// (see `command_json_set`).
fn set_in(d: &mut JsonValue, fixed: &str, value: JsonValue, option: SetOptions) -> (r: Result<bool, JsonError>)
    ensures
        match query_of(fixed@) {
            None => r == Err::<bool, JsonError>(JsonError::Syntax),
            Some(q) => {
                &&& (option != SetOptions::NotExists ==> forall|p: Seq<Step>| #[trigger] unique_match(old(d)@, q, p) ==> r
                    == Ok::<bool, JsonError>(true) && final(d)@ == update_at(old(d)@, p, value@))
                &&& (option == SetOptions::AlreadyExists && !any_match(old(d)@, q) ==> r == Ok::<bool, JsonError>(false)
                    && final(d)@ == old(d)@)
                &&& (option != SetOptions::AlreadyExists && !any_match(old(d)@, q) ==> forall|pp: Seq<Step>|
                    #[trigger] unique_addition(old(d)@, q, pp) ==> r == Ok::<bool, JsonError>(true) && final(d)@ == update_at(
                        old(d)@,
                        pp,
                        Json::Obj(node_at(old(d)@, pp)->0->Obj_0.push((q.last()->Child_0->Name_0, value@))),
                    ))
            },
        },
        write_result(old(d)@, final(d)@, fixed@, option, value@, r),
        json_wf(old(d)@) && json_wf(value@) ==> json_wf(final(d)@),
{
    let ghost d0 = d@;
    let plan = KeyValue::new(d).find_paths(fixed, &option)?;
    proof {
        match query_of(fixed@) {
            Some(q) => {
                if option != SetOptions::NotExists && any_match(d0, q) {
                    assert forall|p: Seq<Step>| #[trigger] unique_match(d0, q, p) implies plan@.len() == 1 && plan_paths(plan@)[0] == p by {
                        lemma_unique_selected(d0, q, plan_paths(plan@), p);
                    }
                } else if option != SetOptions::AlreadyExists {
                    assert forall|pp: Seq<Step>| #[trigger] unique_addition(d0, q, pp) implies plan@.len() == 1 && plan_paths(plan@)[0] == pp by {
                        lemma_unique_selected(d0, q.drop_last(), plan_paths(plan@), pp);
                    }
                }
                assert forall|p: Seq<Step>| #[trigger] unique_match(d0, q, p) implies any_match(d0, q) by {
                    assert(path_matches(d0, q, 0, p));
                }
            },
            None => {},
        }
    }
    if plan.len() == 0 {
        return Ok(false);
    }
    if plan.len() == 1 {
        proof {
            match query_of(fixed@) {
                Some(q) => {
                    if option != SetOptions::NotExists && any_match(d0, q) {
                        assert forall|p: Seq<Step>| #[trigger] unique_match(d0, q, p) implies node_at(d0, p) is Some by {
                            lemma_matches_node(d0, q, 0, p);
                        }
                    }
                },
                None => {},
            }
        }
        return match &plan[0] {
            UpdateInfo::SUI(sui) => ops::set_value(d, &sui.path, value),
            UpdateInfo::AUI(aui) => ops::dict_add(d, &aui.path, &aui.key, value),
        };
    }
    let ghost q0 = query_of(fixed@)->0;
    let ghost ts = targets_of(plan@);
    let mut work = copy_value(d);
    let mut res = false;
    let mut i: usize = 0;
    while i < plan.len()
        invariant
            i <= plan@.len(),
            plan@.len() > 1,
            query_of(fixed@) == Some(q0),
            d0 == old(d)@,
            d@ == d0,
            ts == targets_of(plan@),
            planned(d0, fixed@, option) == Ok::<Seq<Target>, JsonError>(ts),
            option != SetOptions::NotExists ==> forall|p: Seq<Step>| !#[trigger] unique_match(d0, q0, p),
            option != SetOptions::AlreadyExists && !any_match(d0, q0) ==> forall|pp: Seq<Step>| !#[trigger] unique_addition(d0, q0, pp),
            !(option == SetOptions::AlreadyExists && !any_match(d0, q0)),
            i == 0 ==> work@ == d0,
            i > 0 ==> apply_targets(d0, ts.subrange(0, i as int), value@) == Ok::<(Json, bool), JsonError>((work@, res)),
            json_wf(d0) && json_wf(value@) ==> json_wf(work@),
        decreases plan@.len() - i,
    {
        proof {
            assert(ts.subrange(0, i + 1).drop_last() =~= ts.subrange(0, i as int));
            assert(ts.subrange(0, i + 1).last() == ts[i as int]);
            assert(ts.subrange(0, i + 1).len() == i + 1);
            assert(ts.subrange(0, i + 1)[0] == ts[0]);
        }
        let v = copy_value(&value);
        let step = match &plan[i] {
            UpdateInfo::SUI(sui) => ops::set_value(&mut work, &sui.path, v),
            UpdateInfo::AUI(aui) => ops::dict_add(&mut work, &aui.path, &aui.key, v),
        };
        match step {
            Ok(b) => {
                res = b;
            },
            Err(x) => {
                proof {
                    assert(apply_targets(d0, ts.subrange(0, i + 1), value@) == Err::<(Json, bool), JsonError>(x));
                    lemma_apply_targets_err(d0, ts, i + 1, value@);
                }
                return Err(x);
            },
        }
        i = i + 1;
    }
    proof {
        assert(ts.subrange(0, ts.len() as int) =~= ts);
    }
    *d = work;
    Ok(res)
}

/// Writes `value` at a path: at the root it replaces the document (or
/// creates it); elsewhere it replaces the nodes the path matches or adds a
/// member to existing objects, as the planner decides under `option`.
/// `Ok(true)` when something was written, `Ok(false)` when the condition
/// left nothing to do.
pub fn command_json_set(doc: &mut Option<JsonValue>, path: String, value: JsonValue, option: SetOptions) -> (r: Result<bool, JsonError>)
    ensures
        ({
            let fixed = legacy_rewrite(path@);
            match *old(doc) {
                None => if option == SetOptions::AlreadyExists {
                    r == Ok::<bool, JsonError>(false) && *final(doc) is None
                } else if fixed == "$"@ {
                    r == Ok::<bool, JsonError>(true) && *final(doc) is Some && final(doc)->0@ == value@
                } else {
                    r == Err::<bool, JsonError>(JsonError::NotFound) && *final(doc) is None
                },
                Some(d) => *final(doc) is Some && if fixed == "$"@ {
                    if option == SetOptions::NotExists {
                        r == Ok::<bool, JsonError>(false) && final(doc)->0@ == d@
                    } else {
                        r == Ok::<bool, JsonError>(true) && final(doc)->0@ == value@
                    }
                } else {
                    write_result(d@, final(doc)->0@, fixed, option, value@, r) && match query_of(fixed) {
                        None => r == Err::<bool, JsonError>(JsonError::Syntax),
                        Some(q) => {
                            &&& (option != SetOptions::NotExists ==> forall|p: Seq<Step>| #[trigger] unique_match(d@, q, p) ==> r == Ok::<bool, JsonError>(true)
                                && final(doc)->0@ == update_at(d@, p, value@))
                            &&& (option == SetOptions::AlreadyExists && !any_match(d@, q) ==> r == Ok::<bool, JsonError>(false)
                                && final(doc)->0@ == d@)
                            &&& (option != SetOptions::AlreadyExists && !any_match(d@, q) ==> forall|pp: Seq<Step>| #[trigger] unique_addition(d@, q, pp)
                                ==> r == Ok::<bool, JsonError>(true) && final(doc)->0@ == update_at(d@, pp, Json::Obj(node_at(d@, pp)->0->Obj_0.push((q.last()->Child_0->Name_0, value@)))))
                        },
                    }
                },
            }
        }),
        (match *old(doc) {
            Some(d) => json_wf(d@),
            None => true,
        }) && json_wf(value@) ==> match *final(doc) {
            Some(d) => json_wf(d@),
            None => true,
        },
{
    let fixed = backwards_compat_path(path);
    let is_root = str_eq(fixed.as_str(), "$");
    match doc {
        Some(d) => {
            if is_root {
                if option != SetOptions::NotExists {
                    *d = value;
                    return Ok(true);
                }
                return Ok(false);
            }
            set_in(d, fixed.as_str(), value, option)
        },
        None => {
            if option == SetOptions::AlreadyExists {
                return Ok(false);
            }
            if is_root {
                *doc = Some(value);
                return Ok(true);
            }
            Err(JsonError::NotFound)
        },
    }
}

/// Deletes the nodes that a path selects (the whole document for the root,
/// the default); how many were deleted. Nodes are removed last first, so
/// that removing one does not move another.
pub fn command_json_del(doc: &mut Option<JsonValue>, path: Option<String>) -> (r: Result<i64, JsonError>)
    ensures
        ({
            let fixed = match path {
                Some(p) => legacy_rewrite(p@),
                None => "$"@,
            };
            match *old(doc) {
                None => r == Ok::<i64, JsonError>(0) && *final(doc) is None,
                Some(d) => if fixed == "$"@ {
                    r == Ok::<i64, JsonError>(1) && *final(doc) is None
                } else {
                    *final(doc) is Some && match query_of(fixed) {
                        None => r == Err::<i64, JsonError>(JsonError::Syntax) && final(doc)->0@ == d@,
                        Some(q) => (!any_match(d@, q) ==> r == Ok::<i64, JsonError>(0) && final(doc)->0@ == d@)
                            && (forall|p: Seq<Step>| #[trigger] unique_match(d@, q, p) ==> match ops::removed_at(d@, p) {
                                Some(m) => r == Ok::<i64, JsonError>(1) && final(doc)->0@ == m,
                                None => r == Ok::<i64, JsonError>(0) && final(doc)->0@ == d@,
                            }) && ({
                                let ps = typed(d@, q, Want::Anything);
                                let (m, c) = delete_from(d@, ps, ps.len());
                                r matches Ok(n) && n as int == capped(c) && final(doc)->0@ == m
                            }),
                    }
                },
            }
        }),
        (match *old(doc) {
            Some(d) => json_wf(d@),
            None => true,
        }) ==> match *final(doc) {
            Some(d) => json_wf(d@),
            None => true,
        },
{
    let fixed = match path {
        Some(p) => backwards_compat_path(p),
        None => String::from_str("$"),
    };
    proof {
        reveal_strlit("$");
    }
    let is_root = str_eq(fixed.as_str(), "$");
    match doc {
        None => Ok(0),
        Some(d) => {
            if is_root {
                *doc = None;
                return Ok(1);
            }
            del_in(d, fixed.as_str())
        },
    }
}

/// The paths `ps[..i]` removed last first from `d`: the document left and
/// how many of them led to a node that could be removed.
pub open spec fn delete_from(d: Json, ps: Seq<Seq<Step>>, i: nat) -> (Json, int)
    decreases i,
{
    if i == 0 {
        (d, 0)
    } else {
        let (d1, c1) = match ops::removed_at(d, ps[i - 1]) {
            Some(m) => (m, 1int),
            None => (d, 0int),
        };
        let (d2, c2) = delete_from(d1, ps, (i - 1) as nat);
        (d2, c1 + c2)
    }
}

/// `c`, or the largest `i64` when it is larger.
pub open spec fn capped(c: int) -> int {
    if c > i64::MAX {
        i64::MAX as int
    } else {
        c
    }
}

fn del_in(d: &mut JsonValue, fixed: &str) -> (r: Result<i64, JsonError>)
    ensures
        match query_of(fixed@) {
            None => r == Err::<i64, JsonError>(JsonError::Syntax) && final(d)@ == old(d)@,
            Some(q) => (!any_match(old(d)@, q) ==> r == Ok::<i64, JsonError>(0) && final(d)@ == old(d)@) && forall|p: Seq<Step>|
                #[trigger] unique_match(old(d)@, q, p) ==> match ops::removed_at(old(d)@, p) {
                    Some(m) => r == Ok::<i64, JsonError>(1) && final(d)@ == m,
                    None => r == Ok::<i64, JsonError>(0) && final(d)@ == old(d)@,
                },
        },
        match query_of(fixed@) {
            Some(q) => {
                let ps = typed(old(d)@, q, Want::Anything);
                let (m, c) = delete_from(old(d)@, ps, ps.len());
                r matches Ok(n) && n as int == capped(c) && final(d)@ == m
            },
            None => true,
        },
        json_wf(old(d)@) ==> json_wf(final(d)@),
{
    let ghost d0 = d@;
    let ps = find_paths(fixed, d, Want::Anything)?;
    let ghost q = query_of(fixed@)->0;
    proof {
        lemma_targets_count(d0, q, Want::Anything, paths_of(ps@));
        assert forall|p: Seq<Step>| #[trigger] unique_match(d0, q, p) implies unique_target(d0, q, Want::Anything, p) by {
            lemma_matches_node(d0, q, 0, p);
            assert forall|p2: Seq<Step>| #[trigger] target(d0, q, Want::Anything, p2) implies p2 == p by {}
        }
        if !any_match(d0, q) {
            assert forall|p: Seq<Step>| !#[trigger] target(d0, q, Want::Anything, p) by {}
        } else {
            let p = choose|p: Seq<Step>| #[trigger] path_matches(d0, q, 0, p);
            lemma_matches_node(d0, q, 0, p);
            assert(target(d0, q, Want::Anything, p));
        }
    }
    let ghost pm = paths_of(ps@);
    let mut count: i64 = 0;
    let ghost mut cnt: int = 0;
    let mut i: usize = ps.len();
    if i == 1 {
        proof {
            match ops::removed_at(d0, pm[0]) {
                Some(m) => {
                    assert(delete_from(m, pm, 0) == (m, 0int));
                    assert(delete_from(d0, pm, 1) == (m, 1int));
                },
                None => {
                    assert(delete_from(d0, pm, 0) == (d0, 0int));
                    assert(delete_from(d0, pm, 1) == (d0, 0int));
                },
            }
        }
        if ops::delete_path(d, &ps[0]) {
            return Ok(1);
        }
        return Ok(0);
    }
    while i > 0
        invariant
            i <= ps@.len(),
            0 <= count <= ps@.len() - i,
            pm == paths_of(ps@),
            pm == typed(d0, q, Want::Anything),
            cnt >= 0,
            count as int == capped(cnt),
            delete_from(d0, pm, pm.len()) == (delete_from(d@, pm, i as nat).0, cnt + delete_from(d@, pm, i as nat).1),
            ps@.len() != 1,
            ps@.len() == 0 ==> d@ == d0,
            d0 == old(d)@,
            query_of(fixed@) == Some(q),
            forall|p: Seq<Step>| !#[trigger] unique_match(d0, q, p),
            ps@.len() == 0 <==> !any_match(d0, q),
            json_wf(d0) ==> json_wf(d@),
        decreases i,
    {
        i = i - 1;
        let ghost before = d@;
        if ops::delete_path(d, &ps[i]) {
            proof {
                cnt = cnt + 1;
            }
            if count < 0x7fff_ffff_ffff_ffff {
                count = count + 1;
            }
        }
        proof {
            assert(delete_from(before, pm, (i + 1) as nat) == (delete_from(d@, pm, i as nat).0, (if ops::removed_at(before, pm[i as int]) is Some { 1int } else { 0int }) + delete_from(d@, pm, i as nat).1));
        }
    }
    Ok(count)
}

/// The options of a read: the paths to read and the layout and format of
/// the reply.
pub struct GetArgs {
    pub paths: Vec<String>,
    pub indent: Option<String>,
    pub newline: Option<String>,
    pub space: Option<String>,
    pub format: Format,
}

/// The model of read options.
pub struct GetSpec {
    pub paths: Seq<Seq<char>>,
    pub indent: Option<Seq<char>>,
    pub newline: Option<Seq<char>>,
    pub space: Option<Seq<char>>,
    pub format: Format,
}

pub open spec fn opt_view(o: Option<String>) -> Option<Seq<char>> {
    match o {
        Some(s) => Some(s@),
        None => None,
    }
}

impl GetArgs {
    pub open spec fn view_args(&self) -> GetSpec {
        GetSpec {
            paths: Seq::new(self.paths@.len(), |i: int| self.paths@[i]@),
            indent: opt_view(self.indent),
            newline: opt_view(self.newline),
            space: opt_view(self.space),
            format: self.format,
        }
    }
}

pub open spec fn format_named(s: Seq<char>) -> Result<Format, JsonError> {
    if s == "JSON"@ {
        Ok(Format::JSON)
    } else if s == "BSON"@ {
        Ok(Format::BSON)
    } else {
        Err(JsonError::Syntax)
    }
}

/// Reads the options of a read from `args[i..]`, on top of `st`: `INDENT`,
/// `NEWLINE` and `SPACE` each take the next argument as that part of the
/// layout, `FORMAT` takes a format name, `NOESCAPE` is accepted and ignored
/// (names in any case); every other argument is a path.
pub open spec fn get_args_from(args: Seq<Seq<char>>, i: int, st: GetSpec) -> Result<GetSpec, JsonError>
    decreases args.len() - i,
{
    if i >= args.len() || i < 0 {
        Ok(st)
    } else {
        let a = args[i];
        if same_ignoring_ascii_case(a, "INDENT"@) || same_ignoring_ascii_case(a, "NEWLINE"@)
            || same_ignoring_ascii_case(a, "SPACE"@) || same_ignoring_ascii_case(a, "FORMAT"@) {
            if i + 1 >= args.len() {
                Err(JsonError::WrongArity)
            } else {
                let v = args[i + 1];
                if same_ignoring_ascii_case(a, "INDENT"@) {
                    get_args_from(args, i + 2, GetSpec { indent: Some(v), ..st })
                } else if same_ignoring_ascii_case(a, "NEWLINE"@) {
                    get_args_from(args, i + 2, GetSpec { newline: Some(v), ..st })
                } else if same_ignoring_ascii_case(a, "SPACE"@) {
                    get_args_from(args, i + 2, GetSpec { space: Some(v), ..st })
                } else {
                    match format_named(v) {
                        Ok(f) => get_args_from(args, i + 2, GetSpec { format: f, ..st }),
                        Err(e) => Err(e),
                    }
                }
            }
        } else if same_ignoring_ascii_case(a, "NOESCAPE"@) {
            get_args_from(args, i + 1, st)
        } else {
            get_args_from(args, i + 1, GetSpec { paths: st.paths.push(a), ..st })
        }
    }
}

/// An entry of a several-path reply for path arguments as written (see
/// `commands::entry_ok`).
pub open spec fn text_entry_ok(root: Json, ws: Seq<Seq<char>>, e: (Seq<char>, Json)) -> bool {
    exists|j: int|
        0 <= j < ws.len() && #[trigger] ws[j] == e.0 && query_of(legacy_rewrite(ws[j])) is Some && first_or_null(
            root,
            query_of(legacy_rewrite(ws[j]))->0,
            e.1,
        )
}

/// The entries of a several-path reply for path arguments as written (see
/// `commands::multi_ok`).
pub open spec fn multi_text_ok(root: Json, ws: Seq<Seq<char>>, m: Seq<(Seq<char>, Json)>) -> bool {
    &&& forall|i: int| 0 <= i < m.len() ==> #[trigger] text_entry_ok(root, ws, m[i])
    &&& forall|k: int| 0 <= k < ws.len() && query_of(legacy_rewrite(ws[k])) is Some ==> has_key(m, #[trigger] ws[k])
}

pub open spec fn opt_seq(o: Option<Seq<char>>) -> Seq<char> {
    match o {
        Some(s) => s,
        None => Seq::empty(),
    }
}

pub open spec fn args_view(args: Seq<String>) -> Seq<Seq<char>> {
    Seq::new(args.len(), |i: int| args[i]@)
}

pub open spec fn no_get_args() -> GetSpec {
    GetSpec { paths: Seq::empty(), indent: None, newline: None, space: None, format: Format::JSON }
}

/// Reads the options of a read (see `get_args_from`).
pub fn parse_get_args(args: &Vec<String>) -> (r: Result<GetArgs, JsonError>)
    ensures
        match r {
            Ok(g) => get_args_from(args_view(args@), 0, no_get_args()) == Ok::<GetSpec, JsonError>(g.view_args()),
            Err(e) => get_args_from(args_view(args@), 0, no_get_args()) == Err::<GetSpec, JsonError>(e),
        },
{
    let ghost av = args_view(args@);
    let mut g = GetArgs { paths: Vec::new(), indent: None, newline: None, space: None, format: Format::JSON };
    assert(g.view_args().paths =~= Seq::<Seq<char>>::empty());
    let mut i: usize = 0;
    proof {
        reveal_strlit("INDENT");
        reveal_strlit("NEWLINE");
        reveal_strlit("SPACE");
        reveal_strlit("FORMAT");
        reveal_strlit("NOESCAPE");
    }
    while i < args.len()
        invariant
            i <= args@.len(),
            av == args_view(args@),
            get_args_from(av, 0, no_get_args()) == get_args_from(av, i as int, g.view_args()),
        decreases args@.len() - i,
    {
        let a = args[i].as_str();
        assert(av[i as int] == a@);
        let is_indent = eq_ignore_case(a, "INDENT");
        let is_newline = eq_ignore_case(a, "NEWLINE");
        let is_space = eq_ignore_case(a, "SPACE");
        let is_format = eq_ignore_case(a, "FORMAT");
        if is_indent || is_newline || is_space || is_format {
            if i + 1 >= args.len() {
                return Err(JsonError::WrongArity);
            }
            let v = args[i + 1].clone();
            assert(av[i + 1] == v@);
            if is_indent {
                g.indent = Some(v);
            } else if is_newline {
                g.newline = Some(v);
            } else if is_space {
                g.space = Some(v);
            } else {
                match Format::from_name(v.as_str()) {
                    Ok(f) => {
                        g.format = f;
                    },
                    Err(e) => {
                        return Err(e);
                    },
                }
            }
            i = i + 2;
        } else {
            if !eq_ignore_case(a, "NOESCAPE") {
                let ghost before = g.view_args();
                g.paths.push(args[i].clone());
                assert(g.view_args().paths =~= before.paths.push(a@));
            }
            i = i + 1;
        }
    }
    Ok(g)
}

/// Reads the options of a write from `args[i..]`, on top of `option` and
/// `format`: `NX` and `XX` (in any case) set the existence condition, once
/// and only one of them; `FORMAT` takes a format name; anything else is a
/// syntax error.
pub open spec fn set_args_from(args: Seq<Seq<char>>, i: int, option: SetOptions, format: Format) -> Result<(SetOptions, Format), JsonError>
    decreases args.len() - i,
{
    if i >= args.len() || i < 0 {
        Ok((option, format))
    } else {
        let a = args[i];
        if same_ignoring_ascii_case(a, "NX"@) && option == SetOptions::Any {
            set_args_from(args, i + 1, SetOptions::NotExists, format)
        } else if same_ignoring_ascii_case(a, "XX"@) && option == SetOptions::Any {
            set_args_from(args, i + 1, SetOptions::AlreadyExists, format)
        } else if same_ignoring_ascii_case(a, "FORMAT"@) {
            if i + 1 >= args.len() {
                Err(JsonError::WrongArity)
            } else {
                match format_named(args[i + 1]) {
                    Ok(f) => set_args_from(args, i + 2, option, f),
                    Err(e) => Err(e),
                }
            }
        } else {
            Err(JsonError::Syntax)
        }
    }
}

/// Reads the options of a write (see `set_args_from`).
pub fn parse_set_args(args: &Vec<String>) -> (r: Result<(SetOptions, Format), JsonError>)
    ensures
        r == set_args_from(args_view(args@), 0, SetOptions::Any, Format::JSON),
{
    let ghost av = args_view(args@);
    let mut option = SetOptions::Any;
    let mut format = Format::JSON;
    let mut i: usize = 0;
    while i < args.len()
        invariant
            i <= args@.len(),
            av == args_view(args@),
            set_args_from(av, 0, SetOptions::Any, Format::JSON) == set_args_from(av, i as int, option, format),
        decreases args@.len() - i,
    {
        let a = args[i].as_str();
        assert(av[i as int] == a@);
        if eq_ignore_case(a, "NX") && option == SetOptions::Any {
            option = SetOptions::NotExists;
            i = i + 1;
        } else if eq_ignore_case(a, "XX") && option == SetOptions::Any {
            option = SetOptions::AlreadyExists;
            i = i + 1;
        } else if eq_ignore_case(a, "FORMAT") {
            if i + 1 >= args.len() {
                return Err(JsonError::WrongArity);
            }
            assert(av[i + 1] == args@[i + 1]@);
            format = Format::from_name(args[i + 1].as_str())?;
            i = i + 2;
        } else {
            return Err(JsonError::Syntax);
        }
    }
    Ok((option, format))
}

/// Reads a document: the reply text of what the paths of `args` select (the
/// root when there is none), in the layout and format that `args` give;
/// `None` when the key holds no document.
pub fn command_json_get(doc: Option<&JsonValue>, args: &Vec<String>) -> (r: Result<Option<String>, JsonError>)
    ensures
        get_args_from(args_view(args@), 0, no_get_args()) matches Err(e) ==> r == Err::<Option<String>, JsonError>(e),
        get_args_from(args_view(args@), 0, no_get_args()) is Ok && doc is None ==> r == Ok::<Option<String>, JsonError>(None),
        match (get_args_from(args_view(args@), 0, no_get_args()), doc) {
            (Ok(g), Some(d)) => {
                let ind = opt_seq(g.indent);
                let sp = opt_seq(g.space);
                let nl = opt_seq(g.newline);
                if g.format == Format::BSON {
                    r == Err::<Option<String>, JsonError>(JsonError::UnsupportedFormat)
                } else if g.paths.len() == 0 {
                    r matches Ok(Some(t)) && first_node_is(d@, "$"@, |v: Json| t@ == render(v, ind, sp, nl, 0))
                } else if g.paths.len() == 1 && !(g.paths[0].len() > 0 && g.paths[0][0] == '$') {
                    match r {
                        Ok(Some(t)) => first_node_is(d@, legacy_rewrite(g.paths[0]), |v: Json| t@ == render(v, ind, sp, nl, 0)),
                        Ok(None) => false,
                        Err(e) => read_error(d@, legacy_rewrite(g.paths[0]), e),
                    }
                } else if g.paths.len() == 1 {
                    match r {
                        Ok(Some(t)) => query_of(g.paths[0]) is Some && t@ == render(
                            Json::Arr(nodes_of(d@, all_matches(d@, query_of(g.paths[0])->0))),
                            ind,
                            sp,
                            nl,
                            0,
                        ),
                        Ok(None) => false,
                        Err(e) => e == JsonError::Syntax && query_of(g.paths[0]) is None,
                    }
                } else {
                    r matches Ok(Some(t)) && exists|m: Seq<(Seq<char>, Json)>|
                        #[trigger] multi_text_ok(d@, g.paths, m) && t@ == render(Json::Obj(m), ind, sp, nl, 0)
                }
            },
            _ => true,
        },
{
    let g = parse_get_args(args)?;
    let v = match doc {
        Some(v) => v,
        None => {
            return Ok(None);
        },
    };
    let mut paths: Vec<Path> = Vec::new();
    let mut i: usize = 0;
    while i < g.paths.len()
        invariant
            i <= g.paths@.len(),
            paths@.len() == i,
            forall|j: int| 0 <= j < i ==> (#[trigger] paths@[j]).written_view() == g.paths@[j]@ && paths@[j].fixed_view()
                == legacy_rewrite(g.paths@[j]@) && paths@[j].legacy_view() == !(g.paths@[j]@.len() > 0
                && g.paths@[j]@[0] == '$'),
        decreases g.paths@.len() - i,
    {
        paths.push(Path::new(g.paths[i].clone()));
        i = i + 1;
    }
    if paths.len() == 0 {
        let root = String::from_str(".");
        proof {
            reveal_strlit(".");
            assert(root@ =~= seq!['.']);
            assert(legacy_rewrite(root@) =~= "$"@) by {
                reveal_strlit("$");
            }
        }
        paths.push(Path::new(root));
    }
    proof {
        let gs = g.view_args();
        assert(opt_text(g.indent) == opt_seq(gs.indent));
        assert(opt_text(g.space) == opt_seq(gs.space));
        assert(opt_text(g.newline) == opt_seq(gs.newline));
        assert(gs.paths.len() == g.paths@.len());
        if g.paths@.len() > 0 {
            assert(gs.paths[0] == g.paths@[0]@);
        } else {
            reveal_strlit("$");
            let root = "$"@;
            assert(root.len() == 1 && root[0] == '$');
            assert(query_of(root) == Some(Seq::<Seg>::empty()));
            assert(path_matches(v@, Seq::<Seg>::empty(), 0, Seq::<Step>::empty()));
            assert(any_match(v@, Seq::<Seg>::empty()));
        }
    }
    let ghost pv = paths@;
    let text = KeyValue::new(v).to_json(&paths, g.indent, g.newline, g.space, g.format)?;
    proof {
        let gs = g.view_args();
        if g.format == Format::JSON && gs.paths.len() > 1 {
            let m = choose|m: Seq<(Seq<char>, Json)>| #[trigger] multi_ok(v@, pv, m) && text@ == render(Json::Obj(m), opt_text(g.indent), opt_text(g.space), opt_text(g.newline), 0);
            assert forall|i: int| 0 <= i < m.len() implies #[trigger] text_entry_ok(v@, gs.paths, m[i]) by {
                assert(entry_ok(v@, pv, m[i]));
                let j = choose|j: int| 0 <= j < pv.len() && #[trigger] pv[j].written_view() == m[i].0 && query_of(pv[j].fixed_view()) is Some
                    && first_or_null(v@, query_of(pv[j].fixed_view())->0, m[i].1);
                assert(gs.paths[j] == g.paths@[j]@);
                assert(gs.paths[j] == m[i].0);
            }
            assert forall|k: int| 0 <= k < gs.paths.len() && query_of(legacy_rewrite(gs.paths[k])) is Some implies has_key(m, #[trigger] gs.paths[k]) by {
                assert(gs.paths[k] == g.paths@[k]@);
                assert(pv[k].written_view() == gs.paths[k]);
                assert(has_key(m, pv[k].written_view()));
            }
            assert(multi_text_ok(v@, gs.paths, m));
        }
    }
    Ok(Some(text))
}

/// The path that a command acts on when its path argument is optional: the
/// root by default.
pub open spec fn path_or_root(path: Option<String>) -> Seq<char> {
    match path {
        Some(p) => legacy_rewrite(p@),
        None => "$"@,
    }
}

/// The position that an array pop removes: the last element by default.
pub open spec fn pop_index(path: Option<String>, index: Option<i64>) -> i64 {
    match (path, index) {
        (Some(_), Some(i)) => i,
        (Some(_), None) => -1i64,
        (None, _) => i64::MAX,
    }
}

/// The path of a read command, anchored at the root.
pub open spec fn fixed_of(path: Seq<char>) -> Seq<char> {
    legacy_rewrite(path)
}

/// The type name of the first node that a path selects; `None` when there
/// is no document or no such node.
pub fn command_json_type(doc: Option<&JsonValue>, path: String) -> (r: Option<String>)
    ensures
        match doc {
            None => r is None,
            Some(d) => match r {
                Some(t) => first_node_is(d@, fixed_of(path@), |v: Json| kind_name(v) == t@),
                None => read_error(d@, fixed_of(path@), JsonError::Syntax) || read_error(
                    d@,
                    fixed_of(path@),
                    JsonError::NotFound,
                ),
            },
        },
{
    let fixed = backwards_compat_path(path);
    match doc {
        Some(d) => match KeyValue::new(d).get_type(fixed.as_str()) {
            Ok(t) => Some(t),
            Err(_) => None,
        },
        None => None,
    }
}

/// The length, in bytes of its UTF-8 encoding, of the first string that a
/// path selects; `None` when there is no document.
pub fn command_json_str_len(doc: Option<&JsonValue>, path: String) -> (r: Result<Option<usize>, JsonError>)
    ensures
        doc is None ==> r == Ok::<Option<usize>, JsonError>(None),
        doc matches Some(d) ==> match r {
            Ok(Some(n)) => first_node_is(d@, fixed_of(path@), |v: Json| v is Str && byte_len(v->Str_0) == n),
            Ok(None) => false,
            Err(e) => read_error(d@, fixed_of(path@), e) || (e == JsonError::TypeMismatch && first_node_is(
                d@,
                fixed_of(path@),
                |v: Json| !(v is Str),
            )),
        },
{
    let fixed = backwards_compat_path(path);
    match doc {
        Some(d) => Ok(Some(KeyValue::new(d).str_len(fixed.as_str())?)),
        None => Ok(None),
    }
}

/// The length of the first array that a path selects; `None` when there is
/// no document.
pub fn command_json_arr_len(doc: Option<&JsonValue>, path: String) -> (r: Result<Option<usize>, JsonError>)
    ensures
        doc is None ==> r == Ok::<Option<usize>, JsonError>(None),
        doc matches Some(d) ==> match r {
            Ok(Some(n)) => first_node_is(d@, fixed_of(path@), |v: Json| v is Arr && v->Arr_0.len() == n),
            Ok(None) => false,
            Err(e) => read_error(d@, fixed_of(path@), e) || (e == JsonError::TypeMismatch && first_node_is(
                d@,
                fixed_of(path@),
                |v: Json| !(v is Arr),
            )),
        },
{
    let fixed = backwards_compat_path(path);
    match doc {
        Some(d) => Ok(Some(KeyValue::new(d).arr_len(fixed.as_str())?)),
        None => Ok(None),
    }
}

/// The number of members of the first object that a path selects; `None`
/// when there is no document.
pub fn command_json_obj_len(doc: Option<&JsonValue>, path: String) -> (r: Result<Option<usize>, JsonError>)
    ensures
        doc is None ==> r == Ok::<Option<usize>, JsonError>(None),
        doc matches Some(d) ==> match r {
            Ok(Some(n)) => first_node_is(d@, fixed_of(path@), |v: Json| v is Obj && v->Obj_0.len() == n),
            Ok(None) => false,
            Err(e) => read_error(d@, fixed_of(path@), e) || (e == JsonError::TypeMismatch && first_node_is(
                d@,
                fixed_of(path@),
                |v: Json| !(v is Obj),
            )),
        },
{
    let fixed = backwards_compat_path(path);
    match doc {
        Some(d) => Ok(Some(KeyValue::new(d).obj_len(fixed.as_str())?)),
        None => Ok(None),
    }
}

/// The keys of the first object that a path selects; `None` when there is no
/// document.
pub fn command_json_obj_keys(doc: Option<&JsonValue>, path: String) -> (r: Result<Option<Vec<String>>, JsonError>)
    ensures
        doc is None ==> r matches Ok(None),
        doc matches Some(d) ==> match r {
            Ok(Some(ks)) => first_node_is(
                d@,
                fixed_of(path@),
                |v: Json|
                    v is Obj && ks@.len() == v->Obj_0.len() && forall|i: int|
                        0 <= i < ks@.len() ==> (#[trigger] ks@[i])@ == v->Obj_0[i].0,
            ),
            Ok(None) => false,
            Err(e) => read_error(d@, fixed_of(path@), e) || (e == JsonError::TypeMismatch && first_node_is(
                d@,
                fixed_of(path@),
                |v: Json| !(v is Obj),
            )),
        },
{
    let fixed = backwards_compat_path(path);
    match doc {
        Some(d) => Ok(Some(KeyValue::new(d).obj_keys(fixed.as_str())?)),
        None => Ok(None),
    }
}

/// The position of `scalar` in the first array that a path selects (see
/// `index_of`); -1 when there is no document.
pub fn command_json_arr_index(doc: Option<&JsonValue>, path: String, scalar: &JsonValue, start: i64, end: i64) -> (r: Result<i64, JsonError>)
    ensures
        doc is None ==> r == Ok::<i64, JsonError>(-1i64),
        doc matches Some(d) ==> match r {
            Ok(i) => first_node_is(
                d@,
                fixed_of(path@),
                |v: Json|
                    if v is Arr {
                        i as int == index_of(v->Arr_0, scalar@, start as int, end as int)
                    } else {
                        i == -1
                    },
            ),
            Err(e) => read_error(d@, fixed_of(path@), e) || (e == JsonError::OutOfRange && first_node_is(
                d@,
                fixed_of(path@),
                |v: Json| v is Arr && v->Arr_0.len() > i64::MAX,
            )),
        },
{
    let fixed = backwards_compat_path(path);
    match doc {
        Some(d) => KeyValue::new(d).arr_index(fixed.as_str(), scalar, start, end),
        None => Ok(-1),
    }
}

/// The protocol reply of the first node that a path selects (the root by
/// default); `Reply::Null` when there is no document.
pub fn command_json_resp(doc: Option<&JsonValue>, path: Option<String>) -> (r: Result<Reply, JsonError>)
    ensures
        doc is None ==> r matches Ok(Reply::Null),
        doc matches Some(d) ==> {
            let fixed = match path {
                Some(p) => legacy_rewrite(p@),
                None => "$"@,
            };
            match r {
                Ok(x) => first_node_is(d@, fixed, |v: Json| x@ == resp_of(v)),
                Err(e) => read_error(d@, fixed, e),
            }
        },
{
    let fixed = match path {
        Some(p) => backwards_compat_path(p),
        None => String::from_str("$"),
    };
    proof {
        reveal_strlit("$");
    }
    match doc {
        Some(d) => KeyValue::new(d).resp_serialize(fixed.as_str()),
        None => Ok(Reply::Null),
    }
}

/// The compact JSON text of the first node that one path selects in each
/// document; `None` for a missing document or a failed read.
pub fn command_json_mget(docs: &Vec<Option<&JsonValue>>, path: String) -> (r: Vec<Option<String>>)
    ensures
        r@.len() == docs@.len(),
        forall|i: int|
            0 <= i < r@.len() ==> match (docs@[i], #[trigger] r@[i]) {
                (None, x) => x is None,
                (Some(d), Some(t)) => first_node_is(d@, fixed_of(path@), |v: Json| t@ == compact(v)),
                (Some(d), None) => read_error(d@, fixed_of(path@), JsonError::Syntax) || read_error(
                    d@,
                    fixed_of(path@),
                    JsonError::NotFound,
                ),
            },
{
    let fixed = backwards_compat_path(path);
    let mut out: Vec<Option<String>> = Vec::new();
    let mut i: usize = 0;
    while i < docs.len()
        invariant
            i <= docs@.len(),
            out@.len() == i,
            fixed@ == fixed_of(path@),
            forall|j: int|
                0 <= j < i ==> match (docs@[j], #[trigger] out@[j]) {
                    (None, x) => x is None,
                    (Some(d), Some(t)) => first_node_is(d@, fixed_of(path@), |v: Json| t@ == compact(v)),
                    (Some(d), None) => read_error(d@, fixed_of(path@), JsonError::Syntax) || read_error(
                        d@,
                        fixed_of(path@),
                        JsonError::NotFound,
                    ),
                },
        decreases docs@.len() - i,
    {
        let x = match docs[i] {
            Some(d) => match KeyValue::new(d).to_string(fixed.as_str(), Format::JSON) {
                Ok(t) => Some(t),
                Err(_) => None,
            },
            None => None,
        };
        out.push(x);
        i = i + 1;
    }
    out
}

} // verus!
