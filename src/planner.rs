//! The vocabulary of the mutation planner (existence conditions and the
//! targets of a write: existing nodes to replace, or a new key to add to
//! existing objects), what a plan must be, and the static path classifier.
//! The planner itself is `KeyValue::find_paths`.

use vstd::prelude::*;
use crate::path::{PathStep, Step, steps_of};
use crate::query::{Segment, Selector, Seg, Sel, segs_of, selected, no_repeats, all_matches};
use crate::syntax::{parse_query, query_of};
use crate::error::JsonError;

verus! {

/// The existence condition of a write.
#[derive(PartialEq, Eq, Structural, Clone, Copy, Debug)]
pub enum SetOptions {
    /// Write only where the path matches nothing yet (create only).
    NotExists,
    /// Write only where the path matches existing nodes (update only).
    AlreadyExists,
    /// Update what exists, else create.
    Any,
}

/// Replace the node at a navigation path.
pub struct SetUpdateInfo {
    pub path: Vec<PathStep>,
}

/// Add `key` to the object at a navigation path.
pub struct AddUpdateInfo {
    pub path: Vec<PathStep>,
    pub key: String,
}

/// One target of a write.
pub enum UpdateInfo {
    SUI(SetUpdateInfo),
    AUI(AddUpdateInfo),
}

/// An element of a static path: one with no wildcard and no recursive step.
pub enum StaticPathElement {
    Root,
    ObjectKey(String),
    ArrayIndex(i64),
}

/// A query is static when each of its segments picks one member or one index.
pub open spec fn is_static(q: Seq<Seg>) -> bool {
    forall|i: int| 0 <= i < q.len() ==> match #[trigger] q[i] {
        Seg::Child(Sel::Name(_)) => true,
        Seg::Child(Sel::Index(_)) => true,
        _ => false,
    }
}

/// The model of one target of a write.
pub enum Target {
    Replace(Seq<Step>),
    Add(Seq<Step>, Seq<char>),
}

/// The models of the targets of a plan.
pub open spec fn targets_of(r: Seq<UpdateInfo>) -> Seq<Target> {
    Seq::new(
        r.len(),
        |i: int|
            match r[i] {
                UpdateInfo::SUI(s) => Target::Replace(steps_of(s.path@)),
                UpdateInfo::AUI(a) => Target::Add(steps_of(a.path@), a.key@),
            },
    )
}

/// The navigation paths that a plan targets.
pub open spec fn plan_paths(r: Seq<UpdateInfo>) -> Seq<Seq<Step>> {
    Seq::new(
        r.len(),
        |i: int|
            match r[i] {
                UpdateInfo::SUI(s) => steps_of(s.path@),
                UpdateInfo::AUI(a) => steps_of(a.path@),
            },
    )
}

pub open spec fn all_set(r: Seq<UpdateInfo>) -> bool {
    forall|i: int| 0 <= i < r.len() ==> (#[trigger] r[i]) is SUI
}

pub open spec fn all_add(r: Seq<UpdateInfo>, key: Seq<char>) -> bool {
    forall|i: int| 0 <= i < r.len() ==> (#[trigger] r[i]) is AUI && r[i]->AUI_0.key@ == key
}

/// What planning an addition at `path` in `root` yields: a syntax error unless
/// the path is a static query of at least one segment; an out-of-range error
/// when its last segment is an array index; else one addition of the last
/// member name to each node that the query without its last segment matches.
pub open spec fn add_plan(root: crate::value::Json, path: Seq<char>, r: Result<Vec<UpdateInfo>, JsonError>) -> bool {
    match query_of(path) {
        None => r == Err::<Vec<UpdateInfo>, JsonError>(JsonError::Syntax),
        Some(q) => if !is_static(q) || q.len() == 0 {
            r == Err::<Vec<UpdateInfo>, JsonError>(JsonError::Syntax)
        } else {
            match q.last() {
                Seg::Child(Sel::Name(key)) => r is Ok && all_add(r->Ok_0@, key) && selected(
                    root,
                    q.drop_last(),
                    plan_paths(r->Ok_0@),
                ) && no_repeats(plan_paths(r->Ok_0@)) && plan_paths(r->Ok_0@) == all_matches(root, q.drop_last()),
                _ => r == Err::<Vec<UpdateInfo>, JsonError>(JsonError::OutOfRange),
            }
        },
    }
}

/// The elements of a static path text: the root, then one member name or
/// index per segment. A syntax error when the text is no query or not a
/// static one.
pub fn static_path(path: &str) -> (r: Result<Vec<StaticPathElement>, JsonError>)
    ensures
        match r {
            Ok(e) => query_of(path@) is Some && is_static(query_of(path@)->0) && e@.len() == query_of(
                path@,
            )->0.len() + 1 && e@[0] is Root && forall|i: int|
                1 <= i < e@.len() ==> match (#[trigger] e@[i], query_of(path@)->0[i - 1]) {
                    (StaticPathElement::ObjectKey(k), Seg::Child(Sel::Name(n))) => k@ == n,
                    (StaticPathElement::ArrayIndex(x), Seg::Child(Sel::Index(y))) => x as int == y,
                    _ => false,
                },
            Err(e) => e == JsonError::Syntax && (query_of(path@) is None || !is_static(
                query_of(path@)->0,
            )),
        },
{
    let q = match parse_query(path) {
        Some(q) => q,
        None => {
            return Err(JsonError::Syntax);
        },
    };
    let ghost qm = segs_of(q@);
    let mut out: Vec<StaticPathElement> = Vec::new();
    out.push(StaticPathElement::Root);
    let mut i: usize = 0;
    while i < q.len()
        invariant
            i <= q@.len(),
            qm == segs_of(q@),
            query_of(path@) == Some(qm),
            out@.len() == i + 1,
            out@[0] is Root,
            forall|j: int| 0 <= j < i ==> match #[trigger] qm[j] {
                Seg::Child(Sel::Name(_)) => true,
                Seg::Child(Sel::Index(_)) => true,
                _ => false,
            },
            forall|j: int|
                1 <= j < out@.len() ==> match (#[trigger] out@[j], qm[j - 1]) {
                    (StaticPathElement::ObjectKey(k), Seg::Child(Sel::Name(n))) => k@ == n,
                    (StaticPathElement::ArrayIndex(x), Seg::Child(Sel::Index(y))) => x as int == y,
                    _ => false,
                },
        decreases q@.len() - i,
    {
        assert(qm[i as int] == q@[i as int]@);
        let e = match &q[i] {
            Segment::Child(Selector::Name(k)) => StaticPathElement::ObjectKey(k.clone()),
            Segment::Child(Selector::Index(x)) => StaticPathElement::ArrayIndex(*x),
            _ => {
                assert(!is_static(qm));
                return Err(JsonError::Syntax);
            },
        };
        out.push(e);
        i = i + 1;
    }
    Ok(out)
}

} // verus!
