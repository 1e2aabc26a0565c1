//! Path-addressed reads and write planning over one document.

use vstd::prelude::*;
use crate::value::{JsonValue, Json, byte_len, json_eq, models, entry_models, lemma_container_models, obj_get, find_key, lemma_key_index_bounds, kind_name, copy_value};
use crate::path::{Step, node_at, get_node};
use crate::query::{Segment, Selector, Seg, Sel, segs_of, copy_path, no_repeats, match_list, first_match, all_matches, path_matches, selected, select_paths, paths_of, lemma_matches_node};
use crate::syntax::{parse_query, query_of};
use crate::error::JsonError;
use crate::serialize::{Layout, Reply, render, compact, resp_of, to_json_text, resp_serialize_inner};
use crate::text::str_eq;
use crate::path::Path;
use crate::planner::{
    SetOptions, SetUpdateInfo, AddUpdateInfo, UpdateInfo, Target, targets_of, StaticPathElement, is_static, plan_paths, all_set,
    all_add, add_plan, static_path,
};

verus! {

/// Each of `vs` is the node of a path that `q` matches from `root`, and the
/// node of each such path is among `vs`.
pub open spec fn selected_values(root: Json, q: Seq<Seg>, vs: Seq<Json>) -> bool {
    &&& forall|i: int| 0 <= i < vs.len() ==> #[trigger] reached(root, q, vs[i])
    &&& forall|p: Seq<Step>| #[trigger] path_matches(root, q, 0, p) ==> vs.contains(node_at(root, p)->0)
}

/// The nodes that the paths `ps` lead to from `root`.
pub open spec fn nodes_of(root: Json, ps: Seq<Seq<Step>>) -> Seq<Json> {
    Seq::new(ps.len(), |j: int| node_at(root, ps[j])->0)
}

pub open spec fn values_of<'a>(vs: Seq<&'a JsonValue>) -> Seq<Json> {
    Seq::new(vs.len(), |i: int| vs[i]@)
}

/// Whether some path from `root` is matched by `q`.
pub open spec fn any_match(root: Json, q: Seq<Seg>) -> bool {
    exists|p: Seq<Step>| #[trigger] path_matches(root, q, 0, p)
}

/// `v` is the node of some path that `q` matches from `root`.
pub open spec fn reached(root: Json, q: Seq<Seg>, v: Json) -> bool {
    exists|p: Seq<Step>| #[trigger] path_matches(root, q, 0, p) && node_at(root, p) == Some(v)
}

/// A document text format.
#[derive(PartialEq, Eq, Structural, Clone, Copy, Debug)]
pub enum Format {
    JSON,
    BSON,
}

impl Format {
    /// The format that a name gives: `JSON` or `BSON`.
    pub fn from_name(s: &str) -> (r: Result<Format, JsonError>)
        ensures
            r == (if s@ == "JSON"@ {
                Ok::<Format, JsonError>(Format::JSON)
            } else if s@ == "BSON"@ {
                Ok(Format::BSON)
            } else {
                Err(JsonError::Syntax)
            }),
    {
        if str_eq(s, "JSON") {
            Ok(Format::JSON)
        } else if str_eq(s, "BSON") {
            Ok(Format::BSON)
        } else {
            Err(JsonError::Syntax)
        }
    }
}

/// The empty layout when a part is not given.
pub fn layout_of(indent: Option<String>, newline: Option<String>, space: Option<String>) -> (r: Layout)
    ensures
        r.indent@ == (match indent {
            Some(s) => s@,
            None => Seq::empty(),
        }),
        r.newline@ == (match newline {
            Some(s) => s@,
            None => Seq::empty(),
        }),
        r.space@ == (match space {
            Some(s) => s@,
            None => Seq::empty(),
        }),
{
    let indent = match indent {
        Some(s) => s,
        None => String::new(),
    };
    let newline = match newline {
        Some(s) => s,
        None => String::new(),
    };
    let space = match space {
        Some(s) => s,
        None => String::new(),
    };
    Layout { indent, space, newline }
}

/// A read and write view of one document.
pub struct KeyValue<'a> {
    pub val: &'a JsonValue,
}

impl<'a> KeyValue<'a> {
    pub fn new(v: &'a JsonValue) -> (r: KeyValue<'a>)
        ensures
            r.val == v,
    {
        KeyValue { val: v }
    }

    /// The nodes that a path text selects.
    pub fn get_values(&self, path: &str) -> (r: Result<Vec<&'a JsonValue>, JsonError>)
        ensures
            match r {
                Ok(vs) => query_of(path@) is Some && selected_values(self.val@, query_of(path@)->0, values_of(vs@)) && (vs@.len()
                    > 0 <==> match_list(self.val@, query_of(path@)->0, 0).len() > 0) && (vs@.len() > 0 ==> node_at(
                    self.val@,
                    first_match(self.val@, query_of(path@)->0),
                ) == Some(vs@[0]@)) && values_of(vs@) == nodes_of(self.val@, all_matches(self.val@, query_of(path@)->0)),
                Err(e) => e == JsonError::Syntax && query_of(path@) is None,
            },
    {
        let q = match parse_query(path) {
            Some(q) => q,
            None => {
                return Err(JsonError::Syntax);
            },
        };
        let ghost qm = segs_of(q@);
        let ps = select_paths(self.val, &q);
        let ghost pm = paths_of(ps@);
        let mut out: Vec<&'a JsonValue> = Vec::new();
        let mut i: usize = 0;
        while i < ps.len()
            invariant
                i <= ps@.len(),
                pm == paths_of(ps@),
                selected(self.val@, qm, pm),
                out@.len() == i,
                forall|j: int| 0 <= j < i ==> node_at(self.val@, pm[j]) == Some(#[trigger] out@[j]@),
            decreases ps@.len() - i,
        {
            assert(path_matches(self.val@, qm, 0, pm[i as int]));
            proof {
                lemma_matches_node(self.val@, qm, 0, pm[i as int]);
            }
            match get_node(self.val, &ps[i]) {
                Some(v) => {
                    out.push(v);
                },
                None => {
                    return Err(JsonError::Syntax);
                },
            }
            i = i + 1;
        }
        proof {
            let vs = values_of(out@);
            assert forall|j: int| 0 <= j < vs.len() implies #[trigger] reached(self.val@, qm, vs[j]) by {
                assert(path_matches(self.val@, qm, 0, pm[j]));
                assert(vs[j] == out@[j]@);
                assert(node_at(self.val@, pm[j]) == Some(vs[j]));
            }
            assert forall|p: Seq<Step>| #[trigger] path_matches(self.val@, qm, 0, p) implies vs.contains(node_at(self.val@, p)->0) by {
                assert(pm.contains(p));
                let j = choose|j: int| 0 <= j < pm.len() && pm[j] == p;
                assert(vs[j] == out@[j]@);
                assert(vs[j] == node_at(self.val@, p)->0);
            }
            assert(query_of(path@) == Some(qm));
            assert(selected_values(self.val@, qm, vs));
            if out@.len() > 0 {
                assert(node_at(self.val@, pm[0]) == Some(out@[0]@));
            }
            assert(values_of(out@) =~= nodes_of(self.val@, pm));
        }
        Ok(out)
    }

    /// Structural equality of two nodes (see `json_eq`).
    pub fn is_eqaul(&self, a: &JsonValue, b: &JsonValue) -> (r: bool)
        ensures
            r == json_eq(a@, b@),
        decreases a,
    {
        match (a, b) {
            (JsonValue::Null, JsonValue::Null) => true,
            (JsonValue::Bool(x), JsonValue::Bool(y)) => *x == *y,
            (JsonValue::Integer(x), JsonValue::Integer(y)) => *x == *y,
            (JsonValue::Double(x), JsonValue::Double(y)) => {
                let zx = str_eq(x.as_str(), "0.0") || str_eq(x.as_str(), "-0.0");
                let zy = str_eq(y.as_str(), "0.0") || str_eq(y.as_str(), "-0.0");
                x.eq(y) || (zx && zy)
            },
            (JsonValue::Str(x), JsonValue::Str(y)) => x.eq(y),
            (JsonValue::Array(x), JsonValue::Array(y)) => {
                if x.len() != y.len() {
                    return false;
                }
                let ghost xm = a@->Arr_0;
                let ghost ym = b@->Arr_0;
                let mut i: usize = 0;
                while i < x.len()
                    invariant
                        i <= x@.len(),
                        x@.len() == y@.len(),
                        xm == a@->Arr_0,
                        ym == b@->Arr_0,
                        *a == JsonValue::Array(*x),
                        *b == JsonValue::Array(*y),
                        forall|j: int| 0 <= j < i ==> json_eq(#[trigger] xm[j], ym[j]),
                    decreases x@.len() - i,
                {
                    proof {
                        assert(decreases_to!(*x => x[i as int]));
                    }
                    if !self.is_eqaul(&x[i], &y[i]) {
                        assert(!json_eq(xm[i as int], ym[i as int]));
                        return false;
                    }
                    i = i + 1;
                }
                true
            },
            (JsonValue::Object(x), JsonValue::Object(y)) => {
                if x.len() != y.len() {
                    return false;
                }
                let ghost xm = a@->Obj_0;
                let ghost ym = b@->Obj_0;
                let mut i: usize = 0;
                while i < x.len()
                    invariant
                        i <= x@.len(),
                        x@.len() == y@.len(),
                        xm == a@->Obj_0,
                        ym == b@->Obj_0,
                        *a == JsonValue::Object(*x),
                        *b == JsonValue::Object(*y),
                        forall|j: int|
                            0 <= j < i ==> {
                                let k = (#[trigger] xm[j]).0;
                                obj_get(ym, k) is Some && json_eq(xm[j].1, obj_get(ym, k)->0)
                            },
                    decreases x@.len() - i,
                {
                    match find_key(y, &x[i].0) {
                        Some(j) => {
                            proof {
                                lemma_key_index_bounds(ym, xm[i as int].0);
                                assert(decreases_to!(*x => x[i as int]));
                            }
                            if !self.is_eqaul(&x[i].1, &y[j].1) {
                                assert(!json_eq(xm[i as int].1, obj_get(ym, xm[i as int].0)->0));
                                return false;
                            }
                        },
                        None => {
                            assert(obj_get(ym, xm[i as int].0) is None);
                            return false;
                        },
                    }
                    i = i + 1;
                }
                true
            },
            _ => false,
        }
    }

    /// A deep copy of a node.
    pub fn to_value(&self, v: &JsonValue) -> (r: JsonValue)
        ensures
            r@ == v@,
    {
        copy_value(v)
    }

    /// The name of a node's type: `null`, `boolean`, `integer`, `number`,
    /// `string`, `array` or `object`.
    pub fn value_name(v: &JsonValue) -> (r: &'static str)
        ensures
            r@ == kind_name(v@),
    {
        match v {
            JsonValue::Null => "null",
            JsonValue::Bool(_) => "boolean",
            JsonValue::Integer(_) => "integer",
            JsonValue::Double(_) => "number",
            JsonValue::Str(_) => "string",
            JsonValue::Array(_) => "array",
            JsonValue::Object(_) => "object",
        }
    }

    /// The name of the type of the first node that a path selects.
    pub fn get_type(&self, path: &str) -> (r: Result<String, JsonError>)
        ensures
            match r {
                Ok(t) => first_node_is(self.val@, path@, |v: Json| kind_name(v) == t@),
                Err(e) => read_error(self.val@, path@, e),
            },
    {
        let v = self.get_first(path)?;
        let s = KeyValue::value_name(v);
        Ok(String::from_str(s))
    }

    /// The length in bytes of the UTF-8 encoding of the first node that a
    /// path selects, a string.
    pub fn str_len(&self, path: &str) -> (r: Result<usize, JsonError>)
        ensures
            match r {
                Ok(n) => first_node_is(self.val@, path@, |v: Json| v is Str && byte_len(v->Str_0) == n),
                Err(e) => read_error(self.val@, path@, e) || (e == JsonError::TypeMismatch && first_node_is(
                    self.val@,
                    path@,
                    |v: Json| !(v is Str),
                )),
            },
    {
        let v = self.get_first(path)?;
        match v {
            JsonValue::Str(s) => Ok(s.as_str().len()),
            _ => Err(JsonError::TypeMismatch),
        }
    }

    /// The length of the first node that a path selects, an array.
    pub fn arr_len(&self, path: &str) -> (r: Result<usize, JsonError>)
        ensures
            match r {
                Ok(n) => first_node_is(self.val@, path@, |v: Json| v is Arr && v->Arr_0.len() == n),
                Err(e) => read_error(self.val@, path@, e) || (e == JsonError::TypeMismatch && first_node_is(
                    self.val@,
                    path@,
                    |v: Json| !(v is Arr),
                )),
            },
    {
        let v = self.get_first(path)?;
        match v {
            JsonValue::Array(a) => Ok(a.len()),
            _ => Err(JsonError::TypeMismatch),
        }
    }

    /// The number of members of the first node that a path selects, an object.
    pub fn obj_len(&self, path: &str) -> (r: Result<usize, JsonError>)
        ensures
            match r {
                Ok(n) => first_node_is(self.val@, path@, |v: Json| v is Obj && v->Obj_0.len() == n),
                Err(e) => read_error(self.val@, path@, e) || (e == JsonError::TypeMismatch && first_node_is(
                    self.val@,
                    path@,
                    |v: Json| !(v is Obj),
                )),
            },
    {
        let v = self.get_first(path)?;
        match v {
            JsonValue::Object(o) => Ok(o.len()),
            _ => Err(JsonError::TypeMismatch),
        }
    }

    /// The keys, in order, of the first node that a path selects, an object.
    pub fn obj_keys(&self, path: &str) -> (r: Result<Vec<String>, JsonError>)
        ensures
            match r {
                Ok(ks) => first_node_is(
                    self.val@,
                    path@,
                    |v: Json|
                        v is Obj && ks@.len() == v->Obj_0.len() && forall|i: int|
                            0 <= i < ks@.len() ==> (#[trigger] ks@[i])@ == v->Obj_0[i].0,
                ),
                Err(e) => read_error(self.val@, path@, e) || (e == JsonError::TypeMismatch && first_node_is(
                    self.val@,
                    path@,
                    |v: Json| !(v is Obj),
                )),
            },
    {
        let v = self.get_first(path)?;
        match v {
            JsonValue::Object(o) => {
                let mut ks: Vec<String> = Vec::new();
                let mut i: usize = 0;
                while i < o.len()
                    invariant
                        i <= o@.len(),
                        *v == JsonValue::Object(*o),
                        ks@.len() == i,
                        forall|j: int| 0 <= j < i ==> (#[trigger] ks@[j])@ == v@->Obj_0[j].0,
                    decreases o@.len() - i,
                {
                    ks.push(o[i].0.clone());
                    i = i + 1;
                }
                Ok(ks)
            },
            _ => Err(JsonError::TypeMismatch),
        }
    }

    /// The position of `scalar` in the first node that a path selects, an
    /// array (see `index_of`); -1 when that node is no array.
    pub fn arr_index(&self, path: &str, scalar: &JsonValue, start: i64, end: i64) -> (r: Result<i64, JsonError>)
        ensures
            match r {
                Ok(i) => first_node_is(
                    self.val@,
                    path@,
                    |v: Json|
                        if v is Arr {
                            i as int == index_of(v->Arr_0, scalar@, start as int, end as int)
                        } else {
                            i == -1
                        },
                ),
                Err(e) => read_error(self.val@, path@, e) || (e == JsonError::OutOfRange && first_node_is(
                    self.val@,
                    path@,
                    |v: Json| v is Arr && v->Arr_0.len() > i64::MAX,
                )),
            },
    {
        let res = self.get_first(path)?;
        match res {
            JsonValue::Array(a) => {
                let ghost am = res@->Arr_0;
                let len = a.len();
                if len as u64 > 0x7fff_ffff_ffff_ffff {
                    return Err(JsonError::OutOfRange);
                }
                if len == 0 || end < -1 {
                    return Ok(-1);
                }
                let n = len as i64;
                let s: i64 = if start < 0 {
                    if n + start > 0 {
                        n + start
                    } else {
                        0
                    }
                } else if start < n - 1 {
                    start
                } else {
                    n - 1
                };
                let e: i64 = if end == 0 {
                    n
                } else if end < 0 {
                    n + end
                } else if end < n {
                    end
                } else {
                    n
                };
                assert((s as int, e as int) == search_range(len as int, start as int, end as int));
                if e < s {
                    return Ok(-1);
                }
                proof {
                    lemma_container_models();
                }
                let mut j: i64 = s;
                while j < e
                    invariant
                        0 <= s <= j <= e <= n,
                        n == a@.len(),
                        *res == JsonValue::Array(*a),
                        am == res@->Arr_0,
                        first_equal_from(am, scalar@, s as int, e as int) == first_equal_from(am, scalar@, j as int, e as int),
                        (s as int, e as int) == search_range(len as int, start as int, end as int),
                        len == a@.len(),
                        len > 0,
                        end >= -1,
                        am == models(a@),
                        query_of(path@) is Some,
                        reached(self.val@, query_of(path@)->0, res@),
                        match_list(self.val@, query_of(path@)->0, 0).len() > 0,
                        node_at(self.val@, first_match(self.val@, query_of(path@)->0)) == Some(res@),
                    decreases e - j,
                {
                    assert(j < a@.len());
                    let ju = j as usize;
                    assert(am[j as int] == a@[ju as int]@);
                    if self.is_eqaul(&a[ju], scalar) {
                        assert(first_equal_from(am, scalar@, j as int, e as int) == j as int);
                        assert(index_of(am, scalar@, start as int, end as int) == j as int);
                        return Ok(j);
                    }
                    j = j + 1;
                }
                Ok(-1)
            },
            _ => Ok(-1),
        }
    }

    /// The compact JSON text of a node; BSON is not supported.
    pub fn serialize(results: &JsonValue, format: Format) -> (r: Result<String, JsonError>)
        ensures
            match format {
                Format::JSON => r is Ok && r->Ok_0@ == compact(results@),
                Format::BSON => r == Err::<String, JsonError>(JsonError::UnsupportedFormat),
            },
    {
        match format {
            Format::JSON => {
                let layout = Layout { indent: String::new(), space: String::new(), newline: String::new() };
                Ok(to_json_text(results, &layout))
            },
            Format::BSON => Err(JsonError::UnsupportedFormat),
        }
    }

    /// The compact JSON text of the first node that a path selects.
    pub fn to_string(&self, path: &str, format: Format) -> (r: Result<String, JsonError>)
        ensures
            match r {
                Ok(t) => format == Format::JSON && first_node_is(self.val@, path@, |v: Json| t@ == compact(v)),
                Err(e) => read_error(self.val@, path@, e) || (e == JsonError::UnsupportedFormat && format
                    == Format::BSON),
            },
    {
        let v = self.get_first(path)?;
        KeyValue::serialize(v, format)
    }

    /// The protocol reply of the first node that a path selects.
    pub fn resp_serialize(&self, path: &str) -> (r: Result<Reply, JsonError>)
        ensures
            match r {
                Ok(x) => first_node_is(self.val@, path@, |v: Json| x@ == resp_of(v)),
                Err(e) => read_error(self.val@, path@, e),
            },
    {
        let v = self.get_first(path)?;
        Ok(resp_serialize_inner(v))
    }

    /// The JSON text of what paths select. For one legacy path, the first
    /// node it selects; for one other path, the array of all nodes it selects;
    /// for several paths, an object from each path as written (those that
    /// parse, each once) to the first node it selects, or null. No path at all
    /// reads the whole document.
    pub fn to_json(
        &self,
        paths: &Vec<Path>,
        indent: Option<String>,
        newline: Option<String>,
        space: Option<String>,
        format: Format,
    ) -> (r: Result<String, JsonError>)
        ensures
            format == Format::BSON ==> r == Err::<String, JsonError>(JsonError::UnsupportedFormat),
            format == Format::JSON && paths@.len() == 0 ==> r is Ok && r->Ok_0@ == render(
                self.val@,
                opt_text(indent),
                opt_text(space),
                opt_text(newline),
                0,
            ),
            format == Format::JSON && paths@.len() == 1 && paths@[0].legacy_view() ==> match r {
                Ok(t) => first_node_is(
                    self.val@,
                    paths@[0].fixed_view(),
                    |v: Json| t@ == render(v, opt_text(indent), opt_text(space), opt_text(newline), 0),
                ),
                Err(e) => read_error(self.val@, paths@[0].fixed_view(), e),
            },
            format == Format::JSON && paths@.len() == 1 && !paths@[0].legacy_view() ==> match r {
                Ok(t) => query_of(paths@[0].fixed_view()) is Some && t@ == render(
                    Json::Arr(nodes_of(self.val@, all_matches(self.val@, query_of(paths@[0].fixed_view())->0))),
                    opt_text(indent),
                    opt_text(space),
                    opt_text(newline),
                    0,
                ),
                Err(e) => e == JsonError::Syntax && query_of(paths@[0].fixed_view()) is None,
            },
            format == Format::JSON && paths@.len() > 1 ==> r is Ok && exists|m: Seq<(Seq<char>, Json)>|
                #[trigger] multi_ok(self.val@, paths@, m) && r->Ok_0@ == render(
                    Json::Obj(m),
                    opt_text(indent),
                    opt_text(space),
                    opt_text(newline),
                    0,
                ),
    {
        if format == Format::BSON {
            return Err(JsonError::UnsupportedFormat);
        }
        let layout = layout_of(indent, newline, space);
        if paths.len() == 0 {
            return Ok(to_json_text(self.val, &layout));
        }
        if paths.len() > 1 {
            let mut entries: Vec<(String, JsonValue)> = Vec::new();
            let mut j: usize = 0;
            while j < paths.len()
                invariant
                    j <= paths@.len(),
                    forall|i: int| 0 <= i < entries@.len() ==> #[trigger] entry_ok(self.val@, paths@, entry_models(entries@)[i]),
                    forall|k: int| 0 <= k < j && query_of(paths@[k].fixed_view()) is Some ==> has_key(
                        entry_models(entries@),
                        #[trigger] paths@[k].written_view(),
                    ),
                decreases paths@.len() - j,
            {
                let ghost e0 = entry_models(entries@);
                match parse_query(paths[j].get_path()) {
                    Some(q) => {
                        let key = String::from_str(paths[j].written());
                        match find_key(&entries, &key) {
                            Some(idx) => {
                                proof {
                                    lemma_container_models();
                                    lemma_key_index_bounds(e0, key@);
                                    assert(e0[idx as int].0 == paths@[j as int].written_view());
                                    assert(has_key(e0, paths@[j as int].written_view()));
                                    assert forall|k: int| 0 <= k < j + 1 && query_of(paths@[k].fixed_view()) is Some implies has_key(
                                        e0,
                                        #[trigger] paths@[k].written_view(),
                                    ) by {
                                        if k < j {
                                        }
                                    }
                                }
                            },
                            None => {
                                let ps = select_paths(self.val, &q);
                                let value = if ps.len() > 0 {
                                    proof {
                                        assert(path_matches(self.val@, segs_of(q@), 0, paths_of(ps@)[0]));
                                        lemma_matches_node(self.val@, segs_of(q@), 0, paths_of(ps@)[0]);
                                    }
                                    match get_node(self.val, &ps[0]) {
                                        Some(v) => copy_value(v),
                                        None => JsonValue::Null,
                                    }
                                } else {
                                    proof {
                                        let qm = segs_of(q@);
                                        if any_match(self.val@, qm) {
                                            let p = choose|p: Seq<Step>| #[trigger] path_matches(self.val@, qm, 0, p);
                                            assert(paths_of(ps@).contains(p));
                                        }
                                    }
                                    JsonValue::Null
                                };
                                proof {
                                    let qm = segs_of(q@);
                                    if ps@.len() > 0 {
                                        assert(node_at(self.val@, paths_of(ps@)[0]) == Some(value@));
                                    }
                                    assert(first_or_null(self.val@, qm, value@));
                                    assert(entry_ok(self.val@, paths@, (key@, value@)));
                                }
                                entries.push((key, value));
                                proof {
                                    assert(entry_models(entries@) =~= e0.push((key@, value@)));
                                    assert forall|k: int| 0 <= k < j && query_of(paths@[k].fixed_view()) is Some implies has_key(
                                        entry_models(entries@),
                                        #[trigger] paths@[k].written_view(),
                                    ) by {
                                        assert(has_key(e0, paths@[k].written_view()));
                                        let i = choose|i: int| 0 <= i < e0.len() && #[trigger] e0[i].0 == paths@[k].written_view();
                                        assert(entry_models(entries@)[i] == e0[i]);
                                    }
                                    assert(entry_models(entries@)[e0.len() as int].0 == key@);
                                    assert(has_key(entry_models(entries@), paths@[j as int].written_view()));
                                }
                            },
                        }
                    },
                    None => {},
                }
                j = j + 1;
            }
            let doc = JsonValue::Object(entries);
            proof {
                lemma_container_models();
                assert(multi_ok(self.val@, paths@, entry_models(entries@)));
                assert(layout.indent@ == opt_text(indent));
                assert(layout.space@ == opt_text(space));
                assert(layout.newline@ == opt_text(newline));
            }
            return Ok(to_json_text(&doc, &layout));
        }
        if paths[0].is_legacy() {
            let v = self.get_first(paths[0].get_path())?;
            Ok(to_json_text(v, &layout))
        } else {
            let vs = self.get_values(paths[0].get_path())?;
            let mut items: Vec<JsonValue> = Vec::new();
            let mut i: usize = 0;
            while i < vs.len()
                invariant
                    i <= vs@.len(),
                    models(items@) == values_of(vs@).subrange(0, i as int),
                decreases vs@.len() - i,
            {
                let c = copy_value(vs[i]);
                let ghost before = items@;
                items.push(c);
                assert(models(items@) =~= models(before).push(c@));
                assert(values_of(vs@)[i as int] == vs@[i as int]@);
                i = i + 1;
                assert(models(items@) =~= values_of(vs@).subrange(0, i as int));
            }
            assert(values_of(vs@).subrange(0, i as int) =~= values_of(vs@));
            let doc = JsonValue::Array(items);
            proof {
                lemma_container_models();
            }
            Ok(to_json_text(&doc, &layout))
        }
    }

    /// The first node that a path text selects.
    pub fn get_first(&self, path: &str) -> (r: Result<&'a JsonValue, JsonError>)
        ensures
            match r {
                Ok(v) => query_of(path@) is Some && reached(self.val@, query_of(path@)->0, v@) && first_node_is(
                    self.val@,
                    path@,
                    |x: Json| x == v@,
                ),
                Err(e) => (e == JsonError::Syntax && query_of(path@) is None) || (e == JsonError::NotFound
                    && query_of(path@) is Some && !any_match(self.val@, query_of(path@)->0)),
            },
    {
        let vs = self.get_values(path)?;
        if vs.len() == 0 {
            proof {
                let qm = query_of(path@)->0;
                if any_match(self.val@, qm) {
                    let p = choose|p: Seq<Step>| #[trigger] path_matches(self.val@, qm, 0, p);
                    assert(values_of(vs@).contains(node_at(self.val@, p)->0));
                }
            }
            return Err(JsonError::NotFound);
        }
        assert(values_of(vs@)[0] == vs@[0]@);
        Ok(vs[0])
    }

    /// The targets of adding a new key: one addition of the last member name
    /// of a static path to each node that the rest of the path selects (see
    /// `add_plan`).
    pub fn find_add_paths(&self, path: &str) -> (r: Result<Vec<UpdateInfo>, JsonError>)
        ensures
            add_plan(self.val@, path@, r),
    {
        let elems = static_path(path)?;
        let ghost qm = query_of(path@)->0;
        if elems.len() < 2 {
            return Err(JsonError::Syntax);
        }
        let last = elems.len() - 1;
        let key = match &elems[last] {
            StaticPathElement::ObjectKey(k) => k.clone(),
            _ => {
                return Err(JsonError::OutOfRange);
            },
        };
        let mut parent: Vec<Segment> = Vec::new();
        let mut i: usize = 1;
        while i < last
            invariant
                1 <= i <= last,
                last == elems@.len() - 1,
                elems@.len() == qm.len() + 1,
                is_static(qm),
                forall|j: int|
                    1 <= j < elems@.len() ==> match (#[trigger] elems@[j], qm[j - 1]) {
                        (StaticPathElement::ObjectKey(k), Seg::Child(Sel::Name(n))) => k@ == n,
                        (StaticPathElement::ArrayIndex(x), Seg::Child(Sel::Index(y))) => x as int == y,
                        _ => false,
                    },
                segs_of(parent@) == qm.subrange(0, i - 1),
            decreases last - i,
        {
            let g = match &elems[i] {
                StaticPathElement::ObjectKey(k) => Segment::Child(Selector::Name(k.clone())),
                StaticPathElement::ArrayIndex(x) => Segment::Child(Selector::Index(*x)),
                StaticPathElement::Root => Segment::Child(Selector::All),
            };
            assert(g@ == qm[i - 1]);
            let ghost before = parent@;
            parent.push(g);
            assert(parent@ == before.push(g));
            assert(segs_of(parent@) =~= segs_of(before).push(g@));
            i = i + 1;
            assert(segs_of(parent@) =~= qm.subrange(0, i - 1));
        }
        assert(qm.subrange(0, last - 1) =~= qm.drop_last());
        let ps = select_paths(self.val, &parent);
        let mut out: Vec<UpdateInfo> = Vec::new();
        let mut j: usize = 0;
        while j < ps.len()
            invariant
                j <= ps@.len(),
                out@.len() == j,
                all_add(out@, key@),
                plan_paths(out@) == paths_of(ps@).subrange(0, j as int),
            decreases ps@.len() - j,
        {
            let info = AddUpdateInfo { path: copy_path(&ps[j]), key: key.clone() };
            out.push(UpdateInfo::AUI(info));
            j = j + 1;
            assert(plan_paths(out@) =~= paths_of(ps@).subrange(0, j as int));
        }
        assert(paths_of(ps@).subrange(0, j as int) =~= paths_of(ps@));
        Ok(out)
    }

    /// The targets of a write at a path under an existence condition: the
    /// nodes the path matches, when updates are allowed and there are any;
    /// else, when creation is allowed, the additions that `find_add_paths`
    /// plans; else none.
    pub fn find_paths(&self, path: &str, option: &SetOptions) -> (r: Result<Vec<UpdateInfo>, JsonError>)
        ensures
            match r {
                Ok(pl) => planned(self.val@, path@, *option) == Ok::<Seq<Target>, JsonError>(targets_of(pl@)),
                Err(e) => planned(self.val@, path@, *option) == Err::<Seq<Target>, JsonError>(e),
            },
            match query_of(path@) {
                None => r == Err::<Vec<UpdateInfo>, JsonError>(JsonError::Syntax),
                Some(q) => if *option != SetOptions::NotExists && any_match(self.val@, q) {
                    r is Ok && all_set(r->Ok_0@) && selected(self.val@, q, plan_paths(r->Ok_0@)) && no_repeats(
                        plan_paths(r->Ok_0@),
                    ) && plan_paths(r->Ok_0@) == all_matches(self.val@, q)
                } else if *option != SetOptions::AlreadyExists {
                    add_plan(self.val@, path@, r)
                } else {
                    r is Ok && r->Ok_0@.len() == 0
                },
            },
    {
        if *option != SetOptions::NotExists {
            let q = match parse_query(path) {
                Some(q) => q,
                None => {
                    return Err(JsonError::Syntax);
                },
            };
            let ps = select_paths(self.val, &q);
            if ps.len() > 0 {
                let mut out: Vec<UpdateInfo> = Vec::new();
                let mut j: usize = 0;
                while j < ps.len()
                    invariant
                        j <= ps@.len(),
                        out@.len() == j,
                        all_set(out@),
                        plan_paths(out@) == paths_of(ps@).subrange(0, j as int),
                    decreases ps@.len() - j,
                {
                    let info = SetUpdateInfo { path: copy_path(&ps[j]) };
                    out.push(UpdateInfo::SUI(info));
                    j = j + 1;
                    assert(plan_paths(out@) =~= paths_of(ps@).subrange(0, j as int));
                }
                assert(paths_of(ps@).subrange(0, j as int) =~= paths_of(ps@));
                assert(path_matches(self.val@, segs_of(q@), 0, paths_of(ps@)[0]));
                proof {
                    let am = all_matches(self.val@, segs_of(q@));
                    assert forall|i: int| 0 <= i < out@.len() implies targets_of(out@)[i] == Target::Replace(am[i]) by {
                        assert(out@[i] is SUI);
                        assert(plan_paths(out@)[i] == am[i]);
                    }
                    assert(targets_of(out@) =~= replace_targets(am));
                }
                return Ok(out);
            }
            proof {
                let qm = segs_of(q@);
                if any_match(self.val@, qm) {
                    let p = choose|p: Seq<Step>| #[trigger] path_matches(self.val@, qm, 0, p);
                    assert(paths_of(ps@).contains(p));
                }
            }
        }
        if *option != SetOptions::AlreadyExists {
            let r = self.find_add_paths(path);
            proof {
                if r is Ok && query_of(path@) is Some {
                    let pl = r->Ok_0;
                    let q = query_of(path@)->0;
                    let am = all_matches(self.val@, q.drop_last());
                    match q.last() {
                        Seg::Child(Sel::Name(key)) => {
                            assert forall|i: int| 0 <= i < pl@.len() implies targets_of(pl@)[i] == Target::Add(am[i], key) by {
                                assert(pl@[i] is AUI && pl@[i]->AUI_0.key@ == key);
                                assert(plan_paths(pl@)[i] == am[i]);
                            }
                            assert(targets_of(pl@) =~= add_targets(am, key));
                        },
                        _ => {},
                    }
                }
            }
            r
        } else {
            let r: Vec<UpdateInfo> = Vec::new();
            assert(targets_of(r@) =~= Seq::<Target>::empty());
            Ok(r)
        }
    }
}

/// The first position in `[s, e)` of an element of `a` equal to `v`, or -1.
pub open spec fn first_equal_from(a: Seq<Json>, v: Json, s: int, e: int) -> int
    decreases e - s,
{
    if s >= e {
        -1
    } else if json_eq(a[s], v) {
        s
    } else {
        first_equal_from(a, v, s + 1, e)
    }
}

/// The search range of an index search: a negative start counts from the
/// end and stops at 0, a start past the end is the last position; an end of 0
/// is the length, a negative end counts from the end, a positive one stops at
/// the length.
pub open spec fn search_range(len: int, start: int, end: int) -> (int, int) {
    let s = if start < 0 {
        if len + start > 0 {
            len + start
        } else {
            0
        }
    } else if start < len - 1 {
        start
    } else {
        len - 1
    };
    let e = if end == 0 {
        len
    } else if end < 0 {
        len + end
    } else if end < len {
        end
    } else {
        len
    };
    (s, e)
}

/// The position of the first element of `a` equal to `v` in the search range
/// of `start` and `end`, or -1; -1 at once for an empty array or an end below -1.
pub open spec fn index_of(a: Seq<Json>, v: Json, start: int, end: int) -> int {
    if a.len() == 0 || end < -1 {
        -1
    } else {
        let (s, e) = search_range(a.len() as int, start, end);
        if e < s {
            -1
        } else {
            first_equal_from(a, v, s, e)
        }
    }
}

/// The text of an optional layout part.
pub open spec fn opt_text(o: Option<String>) -> Seq<char> {
    match o {
        Some(s) => s@,
        None => Seq::empty(),
    }
}

/// `v` is the first node in document order that `q` selects, or null when
/// it selects none.
pub open spec fn first_or_null(root: Json, q: Seq<Seg>, v: Json) -> bool {
    if any_match(root, q) {
        node_at(root, first_match(root, q)) == Some(v)
    } else {
        v == Json::Null
    }
}

/// An entry of a several-path reply: a path as written that parses, and
/// what it selects first.
pub open spec fn entry_ok(root: Json, paths: Seq<Path>, e: (Seq<char>, Json)) -> bool {
    exists|j: int|
        0 <= j < paths.len() && #[trigger] paths[j].written_view() == e.0 && query_of(paths[j].fixed_view()) is Some
            && first_or_null(root, query_of(paths[j].fixed_view())->0, e.1)
}

pub open spec fn has_key(m: Seq<(Seq<char>, Json)>, k: Seq<char>) -> bool {
    exists|i: int| 0 <= i < m.len() && #[trigger] m[i].0 == k
}

/// The entries of a several-path reply: each one is an entry of a path, and
/// each path that parses has one.
pub open spec fn multi_ok(root: Json, paths: Seq<Path>, m: Seq<(Seq<char>, Json)>) -> bool {
    &&& forall|i: int| 0 <= i < m.len() ==> #[trigger] entry_ok(root, paths, m[i])
    &&& forall|k: int| 0 <= k < paths.len() && query_of(paths[k].fixed_view()) is Some ==> has_key(m, #[trigger] paths[k].written_view())
}

/// One replacement for each path.
pub open spec fn replace_targets(ps: Seq<Seq<Step>>) -> Seq<Target> {
    Seq::new(ps.len(), |i: int| Target::Replace(ps[i]))
}

/// One addition of `key` under each path.
pub open spec fn add_targets(ps: Seq<Seq<Step>>, key: Seq<char>) -> Seq<Target> {
    Seq::new(ps.len(), |i: int| Target::Add(ps[i], key))
}

/// The targets, in order, of a write at `path` under `option` (see
/// `KeyValue::find_paths`).
pub open spec fn planned(root: Json, path: Seq<char>, option: SetOptions) -> Result<Seq<Target>, JsonError> {
    match query_of(path) {
        None => Err(JsonError::Syntax),
        Some(q) => if option != SetOptions::NotExists && any_match(root, q) {
            Ok(replace_targets(all_matches(root, q)))
        } else if option != SetOptions::AlreadyExists {
            if !is_static(q) || q.len() == 0 {
                Err(JsonError::Syntax)
            } else {
                match q.last() {
                    Seg::Child(Sel::Name(key)) => Ok(add_targets(all_matches(root, q.drop_last()), key)),
                    _ => Err(JsonError::OutOfRange),
                }
            }
        } else {
            Ok(Seq::empty())
        },
    }
}

/// `e` is what a read of one node at `path` reports when there is none: a
/// syntax error for a malformed path, else not-found when nothing matches.
pub open spec fn read_error(root: Json, path: Seq<char>, e: JsonError) -> bool {
    match query_of(path) {
        None => e == JsonError::Syntax,
        Some(q) => e == JsonError::NotFound && !any_match(root, q),
    }
}

/// `path` selects a node, and the first one in document order satisfies `f`.
pub open spec fn first_node_is(root: Json, path: Seq<char>, f: spec_fn(Json) -> bool) -> bool {
    &&& query_of(path) is Some
    &&& match_list(root, query_of(path)->0, 0).len() > 0
    &&& node_at(root, first_match(root, query_of(path)->0)) is Some
    &&& f(node_at(root, first_match(root, query_of(path)->0))->0)
}

} // verus!
