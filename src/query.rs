//! The path query language: selectors, their matching semantics, and the
//! evaluation of a query into the navigation paths of the nodes it matches.

use vstd::prelude::*;
use crate::value::{JsonValue, Json, key_index, find_key, lemma_key_index_bounds};
use crate::path::{PathStep, Step, steps_of, child_at, node_at};

verus! {

/// What one segment of a query picks among the children of a node.
pub enum Selector {
    /// The member under a key.
    Name(String),
    /// The array element at an index; a negative index counts from the end.
    Index(i64),
    /// Every child, in document order.
    All,
}

/// One segment of a query.
pub enum Segment {
    /// Picks among the children of the current node.
    Child(Selector),
    /// Picks among the children of the current node and of all its descendants.
    Descendant(Selector),
}

pub enum Sel {
    Name(Seq<char>),
    Index(int),
    All,
}

pub enum Seg {
    Child(Sel),
    Desc(Sel),
}

impl View for Selector {
    type V = Sel;

    open spec fn view(&self) -> Sel {
        match self {
            Selector::Name(k) => Sel::Name(k@),
            Selector::Index(i) => Sel::Index(*i as int),
            Selector::All => Sel::All,
        }
    }
}

impl View for Segment {
    type V = Seg;

    open spec fn view(&self) -> Seg {
        match self {
            Segment::Child(s) => Seg::Child(s@),
            Segment::Descendant(s) => Seg::Desc(s@),
        }
    }
}

/// The model of a query.
pub open spec fn segs_of(q: Seq<Segment>) -> Seq<Seg> {
    Seq::new(q.len(), |i: int| q[i]@)
}

/// Whether `sel` picks the child of `n` that step `s` leads to.
pub open spec fn picks(n: Json, sel: Sel, s: Step) -> bool {
    &&& child_at(n, s) is Some
    &&& match (sel, s, n) {
        (Sel::All, _, _) => true,
        (Sel::Name(k), Step::Key(k2), _) => k == k2,
        (Sel::Index(i), Step::Index(j), Json::Arr(a)) => j == (if i < 0 {
            a.len() + i
        } else {
            i
        }),
        _ => false,
    }
}

/// Whether the navigation path `p` from `n` is matched by the segments of
/// `segs` from index `k` on.
pub open spec fn path_matches(n: Json, segs: Seq<Seg>, k: int, p: Seq<Step>) -> bool
    decreases segs.len() - k + p.len(),
{
    if k >= segs.len() {
        p.len() == 0
    } else if k < 0 || p.len() == 0 {
        false
    } else {
        match child_at(n, p[0]) {
            None => false,
            Some(c) => match segs[k] {
                Seg::Child(sel) => picks(n, sel, p[0]) && path_matches(c, segs, k + 1, p.drop_first()),
                Seg::Desc(sel) => (picks(n, sel, p[0]) && path_matches(c, segs, k + 1, p.drop_first()))
                    || path_matches(c, segs, k, p.drop_first()),
            },
        }
    }
}

/// Whether `p` starts with a step that `sel` picks at `n`, and the rest of it
/// is matched from that child by the segments from `k` on.
pub open spec fn picked(n: Json, sel: Sel, segs: Seq<Seg>, k: int, p: Seq<Step>) -> bool {
    &&& p.len() > 0
    &&& picks(n, sel, p[0])
    &&& path_matches(child_at(n, p[0])->0, segs, k, p.drop_first())
}

/// The models of a list of navigation paths.
pub open spec fn paths_of(out: Seq<Vec<PathStep>>) -> Seq<Seq<Step>> {
    Seq::new(out.len(), |j: int| steps_of(out[j]@))
}

/// Whether `q` is `pre` followed by more steps.
pub open spec fn extends(pre: Seq<Step>, q: Seq<Step>) -> bool {
    q.len() >= pre.len() && q.subrange(0, pre.len() as int) == pre
}

pub open spec fn rest_of(pre: Seq<Step>, q: Seq<Step>) -> Seq<Step> {
    q.subrange(pre.len() as int, q.len() as int)
}

proof fn lemma_steps_push(p: Seq<PathStep>, s: PathStep)
    ensures
        steps_of(p.push(s)) == steps_of(p).push(s@),
{
    assert(steps_of(p.push(s)) =~= steps_of(p).push(s@));
}

proof fn lemma_paths_push(out: Seq<Vec<PathStep>>, v: Vec<PathStep>)
    ensures
        paths_of(out.push(v)) == paths_of(out).push(steps_of(v@)),
{
    assert(paths_of(out.push(v)) =~= paths_of(out).push(steps_of(v@)));
}

/// A copy of a navigation path.
pub fn copy_path(p: &Vec<PathStep>) -> (r: Vec<PathStep>)
    ensures
        r@ == p@,
{
    let mut r: Vec<PathStep> = Vec::new();
    let mut i: usize = 0;
    while i < p.len()
        invariant
            i <= p@.len(),
            r@ == p@.subrange(0, i as int),
        decreases p@.len() - i,
    {
        let s = match &p[i] {
            PathStep::Key(k) => PathStep::Key(k.clone()),
            PathStep::Index(j) => PathStep::Index(*j),
        };
        r.push(s);
        i = i + 1;
        assert(r@ =~= p@.subrange(0, i as int));
    }
    assert(r@ =~= p@);
    r
}

/// A set of continuations of a path, described by what accepts them.
pub enum Goal {
    /// Matched from a node by the segments from an index on.
    Matches(Json, Seq<Seg>, int),
    /// Picked at a node by a selector, the rest matched from an index on.
    Picked(Json, Sel, Seq<Seg>, int),
    /// One step to a child, the rest matched from the child.
    Under(Step, Json, Seq<Seg>, int),
    /// Picked at a node by `All` through one of its first children.
    PickedBelow(Json, Seq<Seg>, int, int),
}

/// The position among the children of `n` of the child that `s` leads to.
pub open spec fn step_pos(n: Json, s: Step) -> int {
    match (n, s) {
        (Json::Arr(_), Step::Index(j)) => j,
        (Json::Obj(o), Step::Key(k)) => key_index(o, k),
        _ => -1,
    }
}

pub open spec fn hits(g: Goal, p: Seq<Step>) -> bool {
    match g {
        Goal::Matches(n, segs, k) => path_matches(n, segs, k, p),
        Goal::Picked(n, sel, segs, k) => picked(n, sel, segs, k, p),
        Goal::Under(s, c, segs, k) => p.len() > 0 && p[0] == s && path_matches(c, segs, k, p.drop_first()),
        Goal::PickedBelow(n, segs, k, i) => picked(n, Sel::All, segs, k, p) && step_pos(n, p[0]) < i,
    }
}

/// Every path of `ps` from index `from` on is `pre` followed by steps that `g` accepts.
pub open spec fn all_hits(ps: Seq<Seq<Step>>, from: int, pre: Seq<Step>, g: Goal) -> bool {
    forall|j: int| from <= j < ps.len() ==> extends(pre, #[trigger] ps[j]) && hits(g, rest_of(pre, ps[j]))
}

/// `ps` holds `q` at an index from `from` on.
pub open spec fn has_path(ps: Seq<Seq<Step>>, from: int, q: Seq<Step>) -> bool {
    exists|j: int| from <= j < ps.len() && #[trigger] ps[j] == q
}

/// What a collecting call promises: the paths it appended after `old` are,
/// as a set, exactly `pre` followed by each continuation that `g` accepts.
pub open spec fn collected(old: Seq<Vec<PathStep>>, new: Seq<Vec<PathStep>>, pre: Seq<Step>, g: Goal) -> bool {
    &&& new.len() >= old.len()
    &&& new.subrange(0, old.len() as int) == old
    &&& all_hits(paths_of(new), old.len() as int, pre, g)
    &&& forall|p: Seq<Step>| #[trigger] hits(g, p) ==> has_path(paths_of(new), old.len() as int, pre + p)
}

proof fn lemma_has_path_grows(a: Seq<Vec<PathStep>>, b: Seq<Vec<PathStep>>, from: int, q: Seq<Step>)
    requires
        b.len() >= a.len(),
        b.subrange(0, a.len() as int) == a,
        has_path(paths_of(a), from, q),
        0 <= from,
    ensures
        has_path(paths_of(b), from, q),
{
    let j = choose|j: int| from <= j < paths_of(a).len() && #[trigger] paths_of(a)[j] == q;
    assert(b[j] == b.subrange(0, a.len() as int)[j]);
    assert(paths_of(b)[j] == q);
}

proof fn lemma_lift_step(pre: Seq<Step>, s: Step, q: Seq<Step>)
    requires
        extends(pre.push(s), q),
    ensures
        extends(pre, q),
        rest_of(pre, q).len() > 0,
        rest_of(pre, q)[0] == s,
        rest_of(pre, q).drop_first() == rest_of(pre.push(s), q),
{
    assert(pre.push(s).subrange(0, pre.len() as int) =~= pre);
    assert(q.subrange(0, pre.len() as int) =~= q.subrange(0, pre.len() + 1 as int).subrange(0, pre.len() as int));
    assert(q[pre.len() as int] == q.subrange(0, pre.len() + 1 as int)[pre.len() as int]);
    assert(rest_of(pre, q).drop_first() =~= rest_of(pre.push(s), q));
}

proof fn lemma_push_concat(pre: Seq<Step>, s: Step, p: Seq<Step>)
    requires
        p.len() > 0,
        p[0] == s,
    ensures
        pre.push(s) + p.drop_first() == pre + p,
{
    assert(pre.push(s) + p.drop_first() =~= pre + p);
}

proof fn lemma_collected_empty(o: Seq<Vec<PathStep>>, pre: Seq<Step>, g: Goal)
    requires
        forall|p: Seq<Step>| !#[trigger] hits(g, p),
    ensures
        collected(o, o, pre, g),
{
    assert(o.subrange(0, o.len() as int) =~= o);
}

proof fn lemma_collected_union(
    o0: Seq<Vec<PathStep>>,
    o1: Seq<Vec<PathStep>>,
    o2: Seq<Vec<PathStep>>,
    pre: Seq<Step>,
    g1: Goal,
    g2: Goal,
    g: Goal,
)
    requires
        collected(o0, o1, pre, g1),
        collected(o1, o2, pre, g2),
        forall|p: Seq<Step>| #[trigger] hits(g, p) == (hits(g1, p) || hits(g2, p)),
    ensures
        collected(o0, o2, pre, g),
{
    assert(o2.subrange(0, o0.len() as int) =~= o2.subrange(0, o1.len() as int).subrange(0, o0.len() as int));
    assert forall|j: int| o0.len() <= j < paths_of(o2).len() implies extends(pre, #[trigger] paths_of(o2)[j]) && hits(g, rest_of(pre, paths_of(o2)[j])) by {
        if j < o1.len() {
            assert(o2[j] == o2.subrange(0, o1.len() as int)[j]);
            assert(paths_of(o2)[j] == paths_of(o1)[j]);
            assert(hits(g1, rest_of(pre, paths_of(o1)[j])));
        } else {
            assert(hits(g2, rest_of(pre, paths_of(o2)[j])));
        }
    }
    assert forall|p: Seq<Step>| #[trigger] hits(g, p) implies has_path(paths_of(o2), o0.len() as int, pre + p) by {
        if hits(g1, p) {
            lemma_has_path_grows(o1, o2, o0.len() as int, pre + p);
        } else {
            assert(hits(g2, p));
            let j = choose|j: int| o1.len() <= j < paths_of(o2).len() && #[trigger] paths_of(o2)[j] == pre + p;
        }
    }
}

proof fn lemma_collected_same(o0: Seq<Vec<PathStep>>, o1: Seq<Vec<PathStep>>, pre: Seq<Step>, g1: Goal, g: Goal)
    requires
        collected(o0, o1, pre, g1),
        forall|p: Seq<Step>| #[trigger] hits(g, p) == hits(g1, p),
    ensures
        collected(o0, o1, pre, g),
{
    assert forall|j: int| o0.len() <= j < paths_of(o1).len() implies extends(pre, #[trigger] paths_of(o1)[j]) && hits(g, rest_of(pre, paths_of(o1)[j])) by {
        assert(hits(g1, rest_of(pre, paths_of(o1)[j])));
    }
    assert forall|p: Seq<Step>| #[trigger] hits(g, p) implies has_path(paths_of(o1), o0.len() as int, pre + p) by {
        assert(hits(g1, p));
    }
}

/// `l` with the step `s` put in front of each of its paths.
pub open spec fn under(s: Step, l: Seq<Seq<Step>>) -> Seq<Seq<Step>> {
    Seq::new(l.len(), |j: int| seq![s] + l[j])
}

/// `l` with `pre` put in front of each of its paths.
pub open spec fn prefixed(pre: Seq<Step>, l: Seq<Seq<Step>>) -> Seq<Seq<Step>> {
    Seq::new(l.len(), |j: int| pre + l[j])
}

/// The continuations, in document order, that the segments of `segs` from
/// `k` on match from `n`: the children that a segment picks in the order of
/// the document, and for a recursive segment the node's own picks before
/// those below each of its children.
pub open spec fn match_list(n: Json, segs: Seq<Seg>, k: int) -> Seq<Seq<Step>>
    decreases n, 2nat, 0nat,
{
    if k < 0 || k >= segs.len() {
        seq![Seq::empty()]
    } else {
        match segs[k] {
            Seg::Child(sel) => pick_list(n, sel, segs, k + 1),
            Seg::Desc(sel) => pick_list(n, sel, segs, k + 1) + pick_list(n, Sel::All, segs, k),
        }
    }
}

/// The continuations, in document order, through the children of `n` that
/// `sel` picks.
pub open spec fn pick_list(n: Json, sel: Sel, segs: Seq<Seg>, k: int) -> Seq<Seq<Step>>
    decreases n, 1nat, 0nat,
{
    match (n, sel) {
        (Json::Arr(a), Sel::Index(i)) => {
            let j = if i < 0 {
                a.len() + i
            } else {
                i
            };
            if 0 <= j < a.len() {
                under(Step::Index(j), match_list(a[j], segs, k))
            } else {
                Seq::empty()
            }
        },
        (Json::Arr(a), Sel::All) => child_lists(n, a.len(), segs, k),
        (Json::Obj(o), Sel::Name(key)) => {
            let j = key_index(o, key);
            if 0 <= j < o.len() {
                under(Step::Key(key), match_list(o[j].1, segs, k))
            } else {
                Seq::empty()
            }
        },
        (Json::Obj(o), Sel::All) => child_lists(n, o.len(), segs, k),
        _ => Seq::empty(),
    }
}

/// The continuations through the first `m` children of `n` (an object's
/// repeated keys once, at their first entry).
pub open spec fn child_lists(n: Json, m: nat, segs: Seq<Seg>, k: int) -> Seq<Seq<Step>>
    decreases n, 0nat, m,
{
    if m == 0 {
        Seq::empty()
    } else {
        let i = m - 1;
        let more = match n {
            Json::Arr(a) => if i < a.len() {
                under(Step::Index(i), match_list(a[i], segs, k))
            } else {
                Seq::empty()
            },
            Json::Obj(o) => if i < o.len() && key_index(o, o[i].0) == i {
                under(Step::Key(o[i].0), match_list(o[i].1, segs, k))
            } else {
                Seq::empty()
            },
            _ => Seq::empty(),
        };
        child_lists(n, (m - 1) as nat, segs, k) + more
    }
}

proof fn lemma_prefixed_concat(pre: Seq<Step>, a: Seq<Seq<Step>>, b: Seq<Seq<Step>>)
    ensures
        prefixed(pre, a + b) == prefixed(pre, a) + prefixed(pre, b),
{
    assert(prefixed(pre, a + b) =~= prefixed(pre, a) + prefixed(pre, b));
}

proof fn lemma_prefixed_under(pre: Seq<Step>, s: Step, l: Seq<Seq<Step>>)
    ensures
        prefixed(pre.push(s), l) == prefixed(pre, under(s, l)),
{
    assert forall|j: int| 0 <= j < l.len() implies pre.push(s) + l[j] == pre + (seq![s] + l[j]) by {
        assert(pre.push(s) + l[j] =~= pre + (seq![s] + l[j]));
    }
    assert(prefixed(pre.push(s), l) =~= prefixed(pre, under(s, l)));
}

/// A copy of a navigation step.
fn copy_step(s: &PathStep) -> (r: PathStep)
    ensures
        r == *s,
{
    match s {
        PathStep::Key(k) => PathStep::Key(k.clone()),
        PathStep::Index(i) => PathStep::Index(*i),
    }
}

/// Appends the paths, after `prefix` and the step `s`, that the segments from
/// `k` on match from `c`, the child that `s` leads to.
fn collect_child(
    c: &JsonValue,
    s: &PathStep,
    segs: &Vec<Segment>,
    k: usize,
    prefix: &mut Vec<PathStep>,
    out: &mut Vec<Vec<PathStep>>,
)
    requires
        k <= segs@.len(),
    ensures
        final(prefix)@ == old(prefix)@,
        collected(old(out)@, final(out)@, steps_of(old(prefix)@), Goal::Under(s@, c@, segs_of(segs@), k as int)),
        paths_of(final(out)@) == paths_of(old(out)@) + prefixed(
            steps_of(old(prefix)@),
            under(s@, match_list(c@, segs_of(segs@), k as int)),
        ),
    decreases c, 3nat,
{
    let ghost pre = steps_of(prefix@);
    let ghost sv = s@;
    let ghost o0 = out@;
    let st = copy_step(s);
    proof {
        lemma_steps_push(prefix@, st);
    }
    prefix.push(st);
    let ghost pre1 = steps_of(prefix@);
    assert(pre1 == pre.push(sv));
    collect(c, segs, k, prefix, out);
    prefix.pop();
    proof {
        let g = Goal::Under(sv, c@, segs_of(segs@), k as int);
        let gc = Goal::Matches(c@, segs_of(segs@), k as int);
        assert(prefix@ =~= old(prefix)@);
        assert forall|j: int| o0.len() <= j < paths_of(out@).len() implies extends(pre, #[trigger] paths_of(out@)[j]) && hits(g, rest_of(pre, paths_of(out@)[j])) by {
            assert(extends(pre1, paths_of(out@)[j]) && hits(gc, rest_of(pre1, paths_of(out@)[j])));
            lemma_lift_step(pre, sv, paths_of(out@)[j]);
        }
        assert forall|p: Seq<Step>| #[trigger] hits(g, p) implies has_path(paths_of(out@), o0.len() as int, pre + p) by {
            lemma_push_concat(pre, sv, p);
            assert(hits(gc, p.drop_first()));
        }
        lemma_prefixed_under(pre, sv, match_list(c@, segs_of(segs@), k as int));
    }
}

/// Appends the paths, after `prefix`, that start with a step that `sel` picks at
/// `n` and that the segments from `k` on match from there.
#[verifier::rlimit(60)]
fn collect_picked(
    n: &JsonValue,
    sel: &Selector,
    segs: &Vec<Segment>,
    k: usize,
    prefix: &mut Vec<PathStep>,
    out: &mut Vec<Vec<PathStep>>,
)
    requires
        k <= segs@.len(),
    ensures
        final(prefix)@ == old(prefix)@,
        collected(old(out)@, final(out)@, steps_of(old(prefix)@), Goal::Picked(n@, sel@, segs_of(segs@), k as int)),
        paths_of(final(out)@) == paths_of(old(out)@) + prefixed(steps_of(old(prefix)@), pick_list(n@, sel@, segs_of(segs@), k as int)),
    decreases n, 1nat,
{
    let ghost pre = steps_of(prefix@);
    let ghost sm = segs_of(segs@);
    let ghost g = Goal::Picked(n@, sel@, sm, k as int);
    let ghost o0 = out@;
    match (n, sel) {
        (JsonValue::Array(a), Selector::Index(i)) => {
            let len = a.len();
            let mut found = false;
            let mut idx: usize = 0;
            if *i < 0 {
                let m: u64 = ((-(*i + 1)) as u64) + 1;
                if m <= len as u64 {
                    idx = len - (m as usize);
                    found = true;
                }
            } else if (*i as u64) < len as u64 {
                idx = *i as usize;
                found = true;
            }
            if found {
                proof {
                    assert(decreases_to!(*a => a[idx as int]));
                    assert(decreases_to!(*n => *a));
                }
                let st = PathStep::Index(idx);
                collect_child(&a[idx], &st, segs, k, prefix, out);
                proof {
                    lemma_collected_same(o0, out@, pre, Goal::Under(st@, a@[idx as int]@, sm, k as int), g);
                    assert(n@->Arr_0[idx as int] == a@[idx as int]@);
                    assert(pick_list(n@, sel@, sm, k as int) == under(Step::Index(idx as int), match_list(a@[idx as int]@, sm, k as int)));
                }
            } else {
                proof {
                    assert forall|p: Seq<Step>| !#[trigger] hits(g, p) by {
                        if p.len() > 0 && picks(n@, sel@, p[0]) {
                        }
                    }
                    lemma_collected_empty(o0, pre, g);
                    assert(paths_of(out@) =~= paths_of(o0) + prefixed(pre, pick_list(n@, sel@, sm, k as int)));
                }
            }
        },
        (JsonValue::Array(a), Selector::All) => {
            let mut i: usize = 0;
            proof {
                lemma_collected_empty(o0, pre, Goal::PickedBelow(n@, sm, k as int, 0));
                assert(paths_of(out@) =~= paths_of(o0) + prefixed(pre, child_lists(n@, 0, sm, k as int)));
            }
            while i < a.len()
                invariant
                    i <= a@.len(),
                    *n == JsonValue::Array(*a),
                    decreases_to!(*n => *a),
                                *sel == Selector::All,
                    k <= segs@.len(),
                    sm == segs_of(segs@),
                    pre == steps_of(prefix@),
                    prefix@ == old(prefix)@,
                    o0 == old(out)@,
                    collected(o0, out@, pre, Goal::PickedBelow(n@, sm, k as int, i as int)),
                    paths_of(out@) == paths_of(o0) + prefixed(pre, child_lists(n@, i as nat, sm, k as int)),
                decreases a@.len() - i,
            {
                proof {
                    assert(decreases_to!(*a => a[i as int]));
                }
                let ghost o1 = out@;
                let st = PathStep::Index(i);
                collect_child(&a[i], &st, segs, k, prefix, out);
                proof {
                    let g1 = Goal::PickedBelow(n@, sm, k as int, i as int);
                    let g2 = Goal::Under(st@, a@[i as int]@, sm, k as int);
                    let gn = Goal::PickedBelow(n@, sm, k as int, i + 1);
                    lemma_collected_union(o0, o1, out@, pre, g1, g2, gn);
                    let prev = child_lists(n@, i as nat, sm, k as int);
                    let more = under(Step::Index(i as int), match_list(a@[i as int]@, sm, k as int));
                    assert(n@->Arr_0[i as int] == a@[i as int]@);
                    assert(child_lists(n@, (i + 1) as nat, sm, k as int) == prev + more);
                    lemma_prefixed_concat(pre, prev, more);
                    assert(paths_of(out@) =~= paths_of(o0) + prefixed(pre, prev + more));
                }
                i = i + 1;
            }
            proof {
                lemma_collected_same(o0, out@, pre, Goal::PickedBelow(n@, sm, k as int, i as int), g);
            }
        },
        (JsonValue::Object(o), Selector::All) => {
            let ghost om = n@->Obj_0;
            let mut i: usize = 0;
            proof {
                let g0 = Goal::PickedBelow(n@, sm, k as int, 0);
                assert forall|p: Seq<Step>| !#[trigger] hits(g0, p) by {
                    if p.len() > 0 && p[0] is Key {
                        lemma_key_index_bounds(om, p[0]->Key_0);
                    }
                }
                lemma_collected_empty(o0, pre, g0);
                assert(paths_of(out@) =~= paths_of(o0) + prefixed(pre, child_lists(n@, 0, sm, k as int)));
            }
            while i < o.len()
                invariant
                    i <= o@.len(),
                    *n == JsonValue::Object(*o),
                    om == n@->Obj_0,
                    decreases_to!(*n => *o),
                                *sel == Selector::All,
                    k <= segs@.len(),
                    sm == segs_of(segs@),
                    pre == steps_of(prefix@),
                    prefix@ == old(prefix)@,
                    o0 == old(out)@,
                    collected(o0, out@, pre, Goal::PickedBelow(n@, sm, k as int, i as int)),
                    paths_of(out@) == paths_of(o0) + prefixed(pre, child_lists(n@, i as nat, sm, k as int)),
                decreases o@.len() - i,
            {
                proof {
                    assert(decreases_to!(*o => o[i as int]));
                    lemma_key_index_bounds(om, om[i as int].0);
                }
                let ghost o1 = out@;
                let first = find_key(o, &o[i].0);
                if first == Some(i) {
                    let st = PathStep::Key(o[i].0.clone());
                    collect_child(&o[i].1, &st, segs, k, prefix, out);
                    proof {
                        let g1 = Goal::PickedBelow(n@, sm, k as int, i as int);
                        let g2 = Goal::Under(st@, o@[i as int].1@, sm, k as int);
                        let gn = Goal::PickedBelow(n@, sm, k as int, i + 1);
                        assert forall|p: Seq<Step>| #[trigger] hits(gn, p) == (hits(g1, p) || hits(g2, p)) by {
                            if p.len() > 0 && p[0] is Key {
                                lemma_key_index_bounds(om, p[0]->Key_0);
                            }
                        }
                        lemma_collected_union(o0, o1, out@, pre, g1, g2, gn);
                        let prev = child_lists(n@, i as nat, sm, k as int);
                        let more = under(Step::Key(om[i as int].0), match_list(o@[i as int].1@, sm, k as int));
                        assert(om[i as int] == (o@[i as int].0@, o@[i as int].1@));
                        assert(child_lists(n@, (i + 1) as nat, sm, k as int) == prev + more);
                        lemma_prefixed_concat(pre, prev, more);
                        assert(paths_of(out@) =~= paths_of(o0) + prefixed(pre, prev + more));
                    }
                } else {
                    proof {
                        let g1 = Goal::PickedBelow(n@, sm, k as int, i as int);
                        let gn = Goal::PickedBelow(n@, sm, k as int, i + 1);
                        assert forall|p: Seq<Step>| #[trigger] hits(gn, p) == hits(g1, p) by {
                            if p.len() > 0 && p[0] is Key {
                                lemma_key_index_bounds(om, p[0]->Key_0);
                            }
                        }
                        lemma_collected_same(o0, out@, pre, g1, gn);
                        let prev = child_lists(n@, i as nat, sm, k as int);
                        assert(child_lists(n@, (i + 1) as nat, sm, k as int) =~= prev);
                    }
                }
                i = i + 1;
            }
            proof {
                let gl = Goal::PickedBelow(n@, sm, k as int, i as int);
                assert forall|p: Seq<Step>| #[trigger] hits(g, p) == hits(gl, p) by {
                    if p.len() > 0 && p[0] is Key {
                        lemma_key_index_bounds(om, p[0]->Key_0);
                    }
                }
                lemma_collected_same(o0, out@, pre, gl, g);
            }
        },
        (JsonValue::Object(o), Selector::Name(key)) => {
            match find_key(o, key) {
                Some(j) => {
                    proof {
                        lemma_key_index_bounds(n@->Obj_0, key@);
                        assert(decreases_to!(*o => o[j as int]));
                        assert(decreases_to!(*n => *o));
                    }
                    let st = PathStep::Key(key.clone());
                    collect_child(&o[j].1, &st, segs, k, prefix, out);
                    proof {
                        lemma_collected_same(o0, out@, pre, Goal::Under(st@, o@[j as int].1@, sm, k as int), g);
                        assert(n@->Obj_0[j as int] == (o@[j as int].0@, o@[j as int].1@));
                        assert(pick_list(n@, sel@, sm, k as int) == under(Step::Key(key@), match_list(o@[j as int].1@, sm, k as int)));
                    }
                },
                None => {
                    proof {
                        lemma_collected_empty(o0, pre, g);
                    }
                },
            }
        },
        _ => {
            proof {
                lemma_collected_empty(o0, pre, g);
                assert(paths_of(out@) =~= paths_of(o0) + prefixed(pre, pick_list(n@, sel@, sm, k as int)));
            }
        },
    }
}

/// Appends the paths, after `prefix`, that the segments from `k` on match from `n`.
fn collect(
    n: &JsonValue,
    segs: &Vec<Segment>,
    k: usize,
    prefix: &mut Vec<PathStep>,
    out: &mut Vec<Vec<PathStep>>,
)
    requires
        k <= segs@.len(),
    ensures
        final(prefix)@ == old(prefix)@,
        collected(old(out)@, final(out)@, steps_of(old(prefix)@), Goal::Matches(n@, segs_of(segs@), k as int)),
        paths_of(final(out)@) == paths_of(old(out)@) + prefixed(steps_of(old(prefix)@), match_list(n@, segs_of(segs@), k as int)),
    decreases n, 2nat,
{
    let ghost pre = steps_of(prefix@);
    let ghost sm = segs_of(segs@);
    let ghost g = Goal::Matches(n@, sm, k as int);
    let ghost o0 = out@;
    if k == segs.len() {
        let c = copy_path(prefix);
        out.push(c);
        proof {
            lemma_paths_push(o0, c);
            assert(out@.subrange(0, o0.len() as int) =~= o0);
            assert(pre.subrange(0, pre.len() as int) =~= pre);
            assert forall|p: Seq<Step>| #[trigger] hits(g, p) implies has_path(paths_of(out@), o0.len() as int, pre + p) by {
                assert(pre + p =~= pre);
                assert(paths_of(out@)[o0.len() as int] == pre);
            }
            assert(rest_of(pre, pre) =~= Seq::<Step>::empty());
            assert(pre + Seq::<Step>::empty() =~= pre);
            assert(prefixed(pre, seq![Seq::<Step>::empty()]) =~= seq![pre]);
            assert(paths_of(out@) =~= paths_of(o0) + seq![pre]);
        }
        return;
    }
    match &segs[k] {
        Segment::Child(sel) => {
            collect_picked(n, sel, segs, k + 1, prefix, out);
            proof {
                assert(sm[k as int] == Seg::Child(sel@));
                lemma_collected_same(o0, out@, pre, Goal::Picked(n@, sel@, sm, k + 1), g);
            }
        },
        Segment::Descendant(sel) => {
            collect_picked(n, sel, segs, k + 1, prefix, out);
            let ghost o1 = out@;
            let all = Selector::All;
            collect_picked(n, &all, segs, k, prefix, out);
            proof {
                assert(sm[k as int] == Seg::Desc(sel@));
                lemma_collected_union(o0, o1, out@, pre, Goal::Picked(n@, sel@, sm, k + 1), Goal::Picked(n@, Sel::All, sm, k as int), g);
                let l1 = pick_list(n@, sel@, sm, k + 1);
                let l2 = pick_list(n@, Sel::All, sm, k as int);
                lemma_prefixed_concat(pre, l1, l2);
                assert(paths_of(out@) =~= paths_of(o0) + prefixed(pre, l1 + l2));
            }
        },
    }
}

fn same_step(a: &PathStep, b: &PathStep) -> (r: bool)
    ensures
        r == (a@ == b@),
{
    match (a, b) {
        (PathStep::Key(x), PathStep::Key(y)) => x.eq(y),
        (PathStep::Index(x), PathStep::Index(y)) => *x == *y,
        _ => false,
    }
}

pub fn same_path(a: &Vec<PathStep>, b: &Vec<PathStep>) -> (r: bool)
    ensures
        r == (steps_of(a@) == steps_of(b@)),
{
    if a.len() != b.len() {
        assert(steps_of(a@).len() != steps_of(b@).len());
        return false;
    }
    let mut i: usize = 0;
    while i < a.len()
        invariant
            i <= a@.len(),
            a@.len() == b@.len(),
            forall|j: int| 0 <= j < i ==> (#[trigger] a@[j])@ == b@[j]@,
        decreases a@.len() - i,
    {
        if !same_step(&a[i], &b[i]) {
            assert(steps_of(a@)[i as int] != steps_of(b@)[i as int]);
            return false;
        }
        i = i + 1;
    }
    assert(steps_of(a@) =~= steps_of(b@));
    true
}

pub fn has_path_in(ps: &Vec<Vec<PathStep>>, p: &Vec<PathStep>) -> (r: bool)
    ensures
        r == paths_of(ps@).contains(steps_of(p@)),
{
    let mut i: usize = 0;
    while i < ps.len()
        invariant
            i <= ps@.len(),
            forall|j: int| 0 <= j < i ==> paths_of(ps@)[j] != steps_of(p@),
        decreases ps@.len() - i,
    {
        if same_path(&ps[i], p) {
            assert(paths_of(ps@)[i as int] == steps_of(p@));
            return true;
        }
        i = i + 1;
    }
    false
}

/// No path is listed twice.
pub open spec fn no_repeats(ps: Seq<Seq<Step>>) -> bool {
    forall|i: int, j: int| 0 <= i < j < ps.len() ==> ps[i] != ps[j]
}

/// `ps` lists, in some order, exactly the navigation paths from `root` that
/// the query `q` matches.
pub open spec fn selected(root: Json, q: Seq<Seg>, ps: Seq<Seq<Step>>) -> bool {
    &&& forall|j: int| 0 <= j < ps.len() ==> path_matches(root, q, 0, #[trigger] ps[j])
    &&& forall|p: Seq<Step>| #[trigger] path_matches(root, q, 0, p) ==> ps.contains(p)
}

/// A matched path leads to a node.
pub proof fn lemma_matches_node(n: Json, segs: Seq<Seg>, k: int, p: Seq<Step>)
    requires
        path_matches(n, segs, k, p),
    ensures
        node_at(n, p) is Some,
    decreases segs.len() - k + p.len(),
{
    if k < segs.len() && p.len() > 0 {
        let c = child_at(n, p[0])->0;
        match segs[k] {
            Seg::Child(sel) => lemma_matches_node(c, segs, k + 1, p.drop_first()),
            Seg::Desc(sel) => {
                if picks(n, sel, p[0]) && path_matches(c, segs, k + 1, p.drop_first()) {
                    lemma_matches_node(c, segs, k + 1, p.drop_first());
                } else {
                    lemma_matches_node(c, segs, k, p.drop_first());
                }
            },
        }
    }
}

/// The first `i` paths of `l`, each kept at its first occurrence only.
pub open spec fn dedup(l: Seq<Seq<Step>>, i: nat) -> Seq<Seq<Step>>
    decreases i,
{
    if i == 0 {
        Seq::empty()
    } else {
        let d = dedup(l, (i - 1) as nat);
        if d.contains(l[i - 1]) {
            d
        } else {
            d.push(l[i - 1])
        }
    }
}

/// The navigation paths, in document order and each once, that `q` matches
/// from `root`.
pub open spec fn all_matches(root: Json, q: Seq<Seg>) -> Seq<Seq<Step>> {
    let l = match_list(root, q, 0);
    dedup(l, l.len())
}

/// The first navigation path, in document order, that `q` matches from `root`.
pub open spec fn first_match(root: Json, q: Seq<Seg>) -> Seq<Step> {
    match_list(root, q, 0)[0]
}

/// The paths of `found`, each kept at its first occurrence only.
fn dedup_paths(found: &Vec<Vec<PathStep>>) -> (r: Vec<Vec<PathStep>>)
    ensures
        paths_of(r@) == dedup(paths_of(found@), found@.len()),
        no_repeats(paths_of(r@)),
        forall|k: int| 0 <= k < found@.len() ==> paths_of(r@).contains(#[trigger] paths_of(found@)[k]),
        forall|j: int| 0 <= j < r@.len() ==> paths_of(found@).contains(#[trigger] paths_of(r@)[j]),
        found@.len() == 0 <==> r@.len() == 0,
        found@.len() > 0 ==> paths_of(r@)[0] == paths_of(found@)[0],
{
    let ghost fs = paths_of(found@);
    let mut out: Vec<Vec<PathStep>> = Vec::new();
    let mut i: usize = 0;
    while i < found.len()
        invariant
            i <= found@.len(),
            fs == paths_of(found@),
            forall|k: int| 0 <= k < i ==> paths_of(out@).contains(#[trigger] fs[k]),
            forall|j: int| 0 <= j < out@.len() ==> fs.contains(#[trigger] paths_of(out@)[j]),
            no_repeats(paths_of(out@)),
            i == 0 ==> out@.len() == 0,
            i > 0 ==> out@.len() > 0 && paths_of(out@)[0] == fs[0],
            paths_of(out@) == dedup(fs, i as nat),
        decreases found@.len() - i,
    {
        let ghost o0 = paths_of(out@);
        assert(steps_of(found@[i as int]@) == fs[i as int]);
        let dup = has_path_in(&out, &found[i]);
        if !dup {
            let c = copy_path(&found[i]);
            out.push(c);
            proof {
                assert(paths_of(out@) =~= o0.push(fs[i as int]));
                if i == 0 {
                    assert(paths_of(out@)[0] == fs[0]);
                } else {
                    assert(paths_of(out@)[0] == o0[0]);
                }
                assert forall|k: int| 0 <= k < i + 1 implies paths_of(out@).contains(#[trigger] fs[k]) by {
                    if k < i {
                        let x = choose|x: int| 0 <= x < o0.len() && o0[x] == fs[k];
                        assert(paths_of(out@)[x] == fs[k]);
                    } else {
                        assert(paths_of(out@)[o0.len() as int] == fs[k]);
                    }
                }
                assert forall|j: int| 0 <= j < out@.len() implies fs.contains(#[trigger] paths_of(out@)[j]) by {
                    if j < o0.len() {
                        assert(paths_of(out@)[j] == o0[j]);
                    } else {
                        assert(paths_of(out@)[j] == fs[i as int]);
                    }
                }
            }
        }
        i = i + 1;
    }
    out
}

/// The navigation paths of the nodes of `root` that the query matches, in
/// document order, each once.
pub fn select_paths(root: &JsonValue, query: &Vec<Segment>) -> (r: Vec<Vec<PathStep>>)
    ensures
        selected(root@, segs_of(query@), paths_of(r@)),
        no_repeats(paths_of(r@)),
        paths_of(r@).len() == 0 <==> match_list(root@, segs_of(query@), 0).len() == 0,
        paths_of(r@).len() > 0 ==> paths_of(r@)[0] == first_match(root@, segs_of(query@)),
        paths_of(r@) == all_matches(root@, segs_of(query@)),
{
    let mut prefix: Vec<PathStep> = Vec::new();
    let mut found: Vec<Vec<PathStep>> = Vec::new();
    collect(root, query, 0, &mut prefix, &mut found);
    let ghost fs = paths_of(found@);
    let ghost qm = segs_of(query@);
    proof {
        let l = match_list(root@, qm, 0);
        assert(steps_of(Seq::<PathStep>::empty()) =~= Seq::<Step>::empty());
        assert forall|j: int| 0 <= j < l.len() implies Seq::<Step>::empty() + l[j] == l[j] by {
            assert(Seq::<Step>::empty() + l[j] =~= l[j]);
        }
        assert(fs =~= l);
        let g = Goal::Matches(root@, qm, 0);
        let e = Seq::<Step>::empty();
        assert forall|j: int| 0 <= j < fs.len() implies path_matches(root@, qm, 0, #[trigger] fs[j]) by {
            assert(extends(e, fs[j]) && hits(g, rest_of(e, fs[j])));
            assert(rest_of(e, fs[j]) =~= fs[j]);
        }
        assert forall|p: Seq<Step>| #[trigger] path_matches(root@, qm, 0, p) implies fs.contains(p) by {
            assert(hits(g, p));
            assert(e + p =~= p);
            let j = choose|j: int| 0 <= j < fs.len() && #[trigger] fs[j] == e + p;
        }
    }
    let out = dedup_paths(&found);
    proof {
        let os = paths_of(out@);
        assert forall|j: int| 0 <= j < os.len() implies path_matches(root@, qm, 0, #[trigger] os[j]) by {
            assert(fs.contains(os[j]));
        }
        assert forall|p: Seq<Step>| #[trigger] path_matches(root@, qm, 0, p) implies os.contains(p) by {
            assert(fs.contains(p));
            let k = choose|k: int| 0 <= k < fs.len() && fs[k] == p;
            assert(os.contains(fs[k]));
        }
    }
    out
}

} // verus!
