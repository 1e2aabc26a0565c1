//! Navigation paths: routes from the root of a document to one of its nodes.

use vstd::prelude::*;
use crate::value::{
    JsonValue, Json, json_wf, obj_get, key_index, find_key, lemma_key_index_bounds, lemma_array_model_update,
    lemma_object_model_update,
};

verus! {

/// One step of a navigation path.
pub enum PathStep {
    Key(String),
    Index(usize),
}

/// The model of a navigation step.
pub enum Step {
    Key(Seq<char>),
    Index(int),
}

impl View for PathStep {
    type V = Step;

    open spec fn view(&self) -> Step {
        match self {
            PathStep::Key(k) => Step::Key(k@),
            PathStep::Index(i) => Step::Index(*i as int),
        }
    }
}

/// The model of a navigation path.
pub open spec fn steps_of(p: Seq<PathStep>) -> Seq<Step> {
    Seq::new(p.len(), |i: int| p[i]@)
}

/// The child of `n` that one step leads to.
pub open spec fn child_at(n: Json, s: Step) -> Option<Json> {
    match (n, s) {
        (Json::Arr(a), Step::Index(i)) => if 0 <= i < a.len() {
            Some(a[i])
        } else {
            None
        },
        (Json::Obj(o), Step::Key(k)) => obj_get(o, k),
        _ => None,
    }
}

/// The node that a navigation path leads to from `n`, if any.
pub open spec fn node_at(n: Json, p: Seq<Step>) -> Option<Json>
    decreases p.len(),
{
    if p.len() == 0 {
        Some(n)
    } else {
        match child_at(n, p[0]) {
            Some(c) => node_at(c, p.drop_first()),
            None => None,
        }
    }
}

/// `n` with the node that `p` leads to replaced by `v`; `n` itself when `p`
/// leads nowhere.
pub open spec fn update_at(n: Json, p: Seq<Step>, v: Json) -> Json
    decreases p.len(),
{
    if p.len() == 0 {
        v
    } else {
        match (n, p[0]) {
            (Json::Arr(a), Step::Index(i)) => if 0 <= i < a.len() {
                Json::Arr(a.update(i, update_at(a[i], p.drop_first(), v)))
            } else {
                n
            },
            (Json::Obj(o), Step::Key(k)) => {
                let j = key_index(o, k);
                if j >= 0 {
                    Json::Obj(o.update(j, (o[j].0, update_at(o[j].1, p.drop_first(), v))))
                } else {
                    n
                }
            },
            _ => n,
        }
    }
}

/// Writing back what a path leads to changes nothing.
pub proof fn lemma_update_same(n: Json, p: Seq<Step>)
    requires
        node_at(n, p) is Some,
    ensures
        update_at(n, p, node_at(n, p)->0) == n,
    decreases p.len(),
{
    if p.len() > 0 {
        let c = child_at(n, p[0])->0;
        lemma_update_same(c, p.drop_first());
        match (n, p[0]) {
            (Json::Arr(a), Step::Index(i)) => {
                assert(a.update(i, c) =~= a);
            },
            (Json::Obj(o), Step::Key(k)) => {
                lemma_key_index_bounds(o, k);
                let j = key_index(o, k);
                assert(o.update(j, (o[j].0, c)) =~= o);
            },
            _ => {},
        }
    }
}

/// Writing a node without repeated keys into a document without repeated
/// keys leaves none.
pub proof fn lemma_update_wf(n: Json, p: Seq<Step>, v: Json)
    requires
        json_wf(n),
        json_wf(v),
    ensures
        json_wf(update_at(n, p, v)),
    decreases p.len(),
{
    if p.len() > 0 {
        match (n, p[0]) {
            (Json::Arr(a), Step::Index(i)) => {
                if 0 <= i < a.len() {
                    lemma_update_wf(a[i], p.drop_first(), v);
                    let b = a.update(i, update_at(a[i], p.drop_first(), v));
                    assert forall|j: int| 0 <= j < b.len() implies json_wf(#[trigger] b[j]) by {
                        if j != i {
                            assert(b[j] == a[j]);
                        }
                    }
                }
            },
            (Json::Obj(o), Step::Key(k)) => {
                let j = key_index(o, k);
                if j >= 0 {
                    lemma_key_index_bounds(o, k);
                    lemma_update_wf(o[j].1, p.drop_first(), v);
                    let b = o.update(j, (o[j].0, update_at(o[j].1, p.drop_first(), v)));
                    assert forall|x: int, y: int| 0 <= x < y < b.len() implies (#[trigger] b[x]).0 != (#[trigger] b[y]).0 by {
                        assert(b[x].0 == o[x].0 && b[y].0 == o[y].0);
                    }
                    assert forall|x: int| 0 <= x < b.len() implies json_wf((#[trigger] b[x]).1) by {
                        if x != j {
                            assert(b[x] == o[x]);
                        }
                    }
                }
            },
            _ => {},
        }
    }
}

/// Follows one step from `n`.
pub fn child<'a>(n: &'a JsonValue, s: &PathStep) -> (r: Option<&'a JsonValue>)
    ensures
        match r {
            Some(c) => child_at(n@, s@) == Some(c@),
            None => child_at(n@, s@) is None,
        },
{
    match (n, s) {
        (JsonValue::Array(a), PathStep::Index(i)) => {
            if *i < a.len() {
                Some(&a[*i])
            } else {
                None
            }
        },
        (JsonValue::Object(o), PathStep::Key(k)) => {
            match find_key(o, k) {
                Some(j) => {
                    proof {
                        lemma_key_index_bounds(n@->Obj_0, k@);
                    }
                    Some(&o[j].1)
                },
                None => None,
            }
        },
        _ => None,
    }
}

/// Follows a navigation path from `n`.
pub fn get_node<'a>(n: &'a JsonValue, p: &Vec<PathStep>) -> (r: Option<&'a JsonValue>)
    ensures
        match r {
            Some(c) => node_at(n@, steps_of(p@)) == Some(c@),
            None => node_at(n@, steps_of(p@)) is None,
        },
{
    let mut cur = n;
    let mut i: usize = 0;
    assert(steps_of(p@).subrange(0, p@.len() as int) =~= steps_of(p@));
    while i < p.len()
        invariant
            i <= p@.len(),
            node_at(n@, steps_of(p@)) == node_at(cur@, steps_of(p@).subrange(i as int, p@.len() as int)),
        decreases p@.len() - i,
    {
        let ghost rest = steps_of(p@).subrange(i as int, p@.len() as int);
        assert(rest.drop_first() =~= steps_of(p@).subrange(i + 1, p@.len() as int));
        match child(cur, &p[i]) {
            Some(c) => {
                cur = c;
            },
            None => {
                return None;
            },
        }
        i = i + 1;
    }
    assert(steps_of(p@).subrange(i as int, p@.len() as int).len() == 0);
    Some(cur)
}

/// The rewrite of a path written in the legacy dot form into one anchored at `$`.
pub open spec fn legacy_rewrite(p: Seq<char>) -> Seq<char> {
    if p.len() > 0 && p[0] == '$' {
        p
    } else if p == seq!['.'] {
        seq!['$']
    } else if p.len() > 0 && p[0] == '.' {
        seq!['$'] + p
    } else {
        seq!['$', '.'] + p
    }
}

/// Rewrites a legacy dot path into one anchored at the root: `.` becomes `$`,
/// `.a` becomes `$.a`, `a` becomes `$.a`; a path that starts with `$` is kept.
pub fn backwards_compat_path(path: String) -> (r: String)
    ensures
        r@ == legacy_rewrite(path@),
{
    let n = path.as_str().unicode_len();
    if n > 0 && path.as_str().get_char(0) == '$' {
        return path;
    }
    if n == 1 && path.as_str().get_char(0) == '.' {
        let r = String::from_str("$");
        proof {
            reveal_strlit("$");
            assert(path@ =~= seq!['.']);
        }
        return r;
    }
    if n > 0 && path.as_str().get_char(0) == '.' {
        let mut r = String::from_str("$");
        r.append(path.as_str());
        proof {
            reveal_strlit("$");
            assert(path@ != seq!['.']);
        }
        return r;
    }
    let mut r = String::from_str("$.");
    r.append(path.as_str());
    proof {
        reveal_strlit("$.");
        assert(path@ != seq!['.']);
    }
    r
}

/// A path argument as a client wrote it, with its form anchored at the root.
pub struct Path {
    written: String,
    fixed: String,
    legacy: bool,
}

impl Path {
    pub closed spec fn written_view(&self) -> Seq<char> {
        self.written@
    }

    pub closed spec fn fixed_view(&self) -> Seq<char> {
        self.fixed@
    }

    pub closed spec fn legacy_view(&self) -> bool {
        self.legacy
    }

    /// A path argument; one that does not start with `$` is a legacy path.
    pub fn new(path: String) -> (r: Path)
        ensures
            r.written_view() == path@,
            r.fixed_view() == legacy_rewrite(path@),
            r.legacy_view() == !(path@.len() > 0 && path@[0] == '$'),
    {
        let n = path.as_str().unicode_len();
        let legacy = !(n > 0 && path.as_str().get_char(0) == '$');
        let fixed = backwards_compat_path(path.clone());
        Path { written: path, fixed, legacy }
    }

    /// The path anchored at the root.
    pub fn get_path(&self) -> (r: &str)
        ensures
            r@ == self.fixed_view(),
    {
        self.fixed.as_str()
    }

    /// Whether the path was written in the legacy form.
    pub fn is_legacy(&self) -> (r: bool)
        ensures
            r == self.legacy_view(),
    {
        self.legacy
    }

    /// The path as the client wrote it.
    pub fn take_original(self) -> (r: String)
        ensures
            r@ == self.written_view(),
    {
        self.written
    }

    /// The path as the client wrote it.
    pub fn written(&self) -> (r: &str)
        ensures
            r@ == self.written_view(),
    {
        self.written.as_str()
    }
}

/// The byte length of the longest string of `arr`, or 0 when it is empty.
pub fn max_strlen(arr: &[&str]) -> (r: usize)
    ensures
        forall|i: int| 0 <= i < arr@.len() ==> (#[trigger] arr@[i]).len() <= r,
        arr@.len() == 0 ==> r == 0,
        arr@.len() > 0 ==> exists|i: int|
            0 <= i < arr@.len() && (#[trigger] arr@[i]).len() == r,
{
    let mut best: usize = 0;
    let mut pos: usize = 0;
    while pos < arr.len()
        invariant
            pos <= arr@.len(),
            forall|i: int| 0 <= i < pos ==> (#[trigger] arr@[i]).len() <= best,
            pos == 0 ==> best == 0,
            pos > 0 ==> exists|i: int| 0 <= i < pos && (#[trigger] arr@[i]).len() == best,
        decreases arr@.len() - pos,
    {
        let cur = arr[pos].len();
        assert(cur == arr@[pos as int].len());
        if best < cur || pos == 0 {
            best = cur;
        }
        assert(arr@[pos as int].len() <= best);
        pos = pos + 1;
    }
    best
}

/// Follows the steps of `p` from index `i` on, for writing.
fn node_mut_from<'a>(n: &'a mut JsonValue, p: &Vec<PathStep>, i: usize) -> (r: Option<&'a mut JsonValue>)
    requires
        i <= p@.len(),
    ensures
        match r {
            Some(c) => node_at(old(n)@, steps_of(p@).subrange(i as int, p@.len() as int)) == Some(c@)
                && final(n)@ == update_at(old(n)@, steps_of(p@).subrange(i as int, p@.len() as int), final(c)@),
            None => node_at(old(n)@, steps_of(p@).subrange(i as int, p@.len() as int)) is None
                && final(n)@ == old(n)@,
        },
    decreases p@.len() - i,
{
    let ghost rest = steps_of(p@).subrange(i as int, p@.len() as int);
    if i == p.len() {
        assert(rest.len() == 0);
        return Some(n);
    }
    assert(rest[0] == p@[i as int]@);
    assert(rest.drop_first() =~= steps_of(p@).subrange(i + 1, p@.len() as int));
    proof {
        lemma_array_model_update();
        lemma_object_model_update();
    }
    match n {
        JsonValue::Array(a) => {
            match &p[i] {
                PathStep::Index(j) => {
                    if *j < a.len() {
                        node_mut_from(&mut a[*j], p, i + 1)
                    } else {
                        None
                    }
                },
                PathStep::Key(_) => None,
            }
        },
        JsonValue::Object(o) => {
            match &p[i] {
                PathStep::Key(k) => {
                    match find_key(o, k) {
                        Some(j) => {
                            proof {
                                lemma_key_index_bounds(old(n)@->Obj_0, k@);
                            }
                            node_mut_from(&mut o[j].1, p, i + 1)
                        },
                        None => None,
                    }
                },
                PathStep::Index(_) => None,
            }
        },
        _ => None,
    }
}

/// The node that a navigation path leads to, for writing: what is written to
/// it is written at that path in `n`.
pub fn node_mut<'a>(n: &'a mut JsonValue, p: &Vec<PathStep>) -> (r: Option<&'a mut JsonValue>)
    ensures
        match r {
            Some(c) => node_at(old(n)@, steps_of(p@)) == Some(c@)
                && final(n)@ == update_at(old(n)@, steps_of(p@), final(c)@),
            None => node_at(old(n)@, steps_of(p@)) is None && final(n)@ == old(n)@,
        },
{
    assert(steps_of(p@).subrange(0, p@.len() as int) =~= steps_of(p@));
    node_mut_from(n, p, 0)
}

} // verus!
