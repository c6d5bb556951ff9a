//! Levels of a history and the value that folding them yields.
//!
//! Two observations belong to one level when a chain of pairwise unordered
//! observations leads from one to the other. A level starts at the earliest
//! first tick of its members. The inferred value is what remains after the
//! levels are composed one by one, in the order of their starts.

use vstd::prelude::*;
use crate::observations::{ObservationView, clash, unordered};
use crate::value::Value;
use crate::inference::definition::{composite, step, lemma_composite_permutation};

verus! {

/// Every observation of `s` has a well-formed interval.
pub open spec fn well_formed(s: Seq<ObservationView>) -> bool {
    forall|i: int| 0 <= i < s.len() ==> (#[trigger] s[i]).wf()
}

/// No two observations of `s` are polls of one poller that overlap and start
/// together.
pub open spec fn clash_free(s: Seq<ObservationView>) -> bool {
    forall|i: int, j: int|
        0 <= i < s.len() && 0 <= j < s.len() && i != j ==> !clash(#[trigger] s[i], #[trigger] s[j])
}

/// The observations of `s` meet what is asked of producers: intervals are
/// well formed, and the order of any two observations is defined.
pub open spec fn orderable(s: Seq<ObservationView>) -> bool {
    well_formed(s) && clash_free(s)
}

/// `p` is a chain in `s`: a non-empty list of observations of `s`, each
/// unordered with the next.
pub open spec fn is_chain(s: Seq<ObservationView>, p: Seq<ObservationView>) -> bool {
    &&& p.len() > 0
    &&& forall|k: int| 0 <= k < p.len() ==> s.contains(#[trigger] p[k])
    &&& forall|k: int| 0 <= k < p.len() - 1 ==> unordered(#[trigger] p[k], p[k + 1])
}

/// `a` and `b` belong to the same level of `s`: a chain leads from one to the
/// other.
pub open spec fn linked(s: Seq<ObservationView>, a: ObservationView, b: ObservationView) -> bool {
    exists|p: Seq<ObservationView>| #[trigger] is_chain(s, p) && p.first() == a && p.last() == b
}

/// The earliest first tick among `a` and the first `n` observations of `s`
/// that are linked to `a`.
pub open spec fn start_among(s: Seq<ObservationView>, a: ObservationView, n: int) -> int
    decreases n,
{
    if n <= 0 {
        a.lo()
    } else {
        let rest = start_among(s, a, n - 1);
        if linked(s, a, s[n - 1]) && s[n - 1].lo() < rest {
            s[n - 1].lo()
        } else {
            rest
        }
    }
}

/// The tick at which the level of `a` in `s` starts: the earliest first tick
/// of the observations linked to `a`.
pub open spec fn level_start(s: Seq<ObservationView>, a: ObservationView) -> int {
    start_among(s, a, s.len() as int)
}

/// `k` is the earliest first tick of the observations linked to `a`.
pub open spec fn is_level_start(s: Seq<ObservationView>, a: ObservationView, k: int) -> bool {
    &&& exists|x: ObservationView| #[trigger] linked(s, a, x) && x.lo() == k
    &&& forall|x: ObservationView| #[trigger] linked(s, a, x) ==> k <= x.lo()
}

/// The test for membership in the level of `s` that starts at tick `t`.
pub open spec fn starts_at(s: Seq<ObservationView>, t: int) -> spec_fn(ObservationView) -> bool {
    |x: ObservationView| level_start(s, x) == t
}

/// The level of `s` that starts at tick `t`, its members in the order in which
/// they arrived. It is empty when no level starts at `t`.
pub open spec fn level_at(s: Seq<ObservationView>, t: int) -> Seq<ObservationView> {
    s.filter(starts_at(s, t))
}

/// One more than the last tick of the time axis.
pub open spec fn horizon() -> int {
    0x1_0000_0000_0000_0000
}

/// The value that remains when the levels of `s` that start at tick `t` or
/// later are composed, earliest first, onto the cumulative value `acc`.
pub open spec fn fold_from(s: Seq<ObservationView>, acc: Option<Value>, t: int) -> Option<Value>
    decreases horizon() - t,
{
    if t >= horizon() {
        acc
    } else {
        let level = level_at(s, t);
        let next = if level.len() == 0 {
            acc
        } else {
            step(acc, composite(level))
        };
        fold_from(s, next, t + 1)
    }
}

/// The value inferred from the observations `s`, starting from `init`.
pub open spec fn inferred(s: Seq<ObservationView>, init: Option<Value>) -> Option<Value> {
    fold_from(s, init, 0)
}

/// An observation of `s` is linked to itself.
pub proof fn lemma_linked_reflexive(s: Seq<ObservationView>, a: ObservationView)
    requires
        s.contains(a),
    ensures
        linked(s, a, a),
{
    let p = seq![a];
    assert(is_chain(s, p));
}

/// Two unordered observations of `s` are linked.
pub proof fn lemma_unordered_linked(s: Seq<ObservationView>, a: ObservationView, b: ObservationView)
    requires
        s.contains(a),
        s.contains(b),
        unordered(a, b),
    ensures
        linked(s, a, b),
{
    let p = seq![a, b];
    assert(is_chain(s, p));
}

/// Linked observations are observations of `s`.
pub proof fn lemma_linked_members(s: Seq<ObservationView>, a: ObservationView, b: ObservationView)
    requires
        linked(s, a, b),
    ensures
        s.contains(a),
        s.contains(b),
{
    let p = choose|p: Seq<ObservationView>| #[trigger]
        is_chain(s, p) && p.first() == a && p.last() == b;
    assert(s.contains(p[0]));
    assert(s.contains(p[p.len() - 1]));
}

/// To be linked is symmetric.
pub proof fn lemma_linked_symmetric(s: Seq<ObservationView>, a: ObservationView, b: ObservationView)
    requires
        linked(s, a, b),
    ensures
        linked(s, b, a),
{
    let p = choose|p: Seq<ObservationView>| #[trigger]
        is_chain(s, p) && p.first() == a && p.last() == b;
    let q = Seq::new(p.len(), |k: int| p[p.len() - 1 - k]);
    assert forall|k: int| 0 <= k < q.len() implies s.contains(#[trigger] q[k]) by {
        assert(s.contains(p[p.len() - 1 - k]));
    }
    assert forall|k: int| 0 <= k < q.len() - 1 implies unordered(#[trigger] q[k], q[k + 1]) by {
        let j = p.len() - 2 - k;
        assert(unordered(p[j], p[j + 1]));
    }
    assert(is_chain(s, q));
}

/// To be linked is transitive.
pub proof fn lemma_linked_transitive(
    s: Seq<ObservationView>,
    a: ObservationView,
    b: ObservationView,
    c: ObservationView,
)
    requires
        linked(s, a, b),
        linked(s, b, c),
    ensures
        linked(s, a, c),
{
    let p = choose|p: Seq<ObservationView>| #[trigger]
        is_chain(s, p) && p.first() == a && p.last() == b;
    let q = choose|q: Seq<ObservationView>| #[trigger]
        is_chain(s, q) && q.first() == b && q.last() == c;
    let r = p + q.drop_first();
    assert forall|k: int| 0 <= k < r.len() implies s.contains(#[trigger] r[k]) by {
        if k < p.len() {
            assert(s.contains(p[k]));
        } else {
            assert(r[k] == q[k - p.len() + 1]);
            assert(s.contains(q[k - p.len() + 1]));
        }
    }
    assert forall|k: int| 0 <= k < r.len() - 1 implies unordered(#[trigger] r[k], r[k + 1]) by {
        if k < p.len() - 1 {
            assert(unordered(p[k], p[k + 1]));
        } else {
            let j = k - p.len() + 1;
            assert(r[k] == q[j]);
            assert(r[k + 1] == q[j + 1]);
            assert(unordered(q[j], q[j + 1]));
        }
    }
    assert(is_chain(s, r));
    assert(r.first() == a);
    if q.len() == 1 {
        assert(r =~= p);
    } else {
        assert(r.last() == q.last());
    }
}

/// What `start_among` computes: a lower bound of the first ticks it has seen,
/// and one of them.
pub proof fn lemma_start_among(s: Seq<ObservationView>, a: ObservationView, n: int)
    requires
        0 <= n <= s.len(),
    ensures
        start_among(s, a, n) <= a.lo(),
        forall|i: int|
            0 <= i < n && linked(s, a, #[trigger] s[i]) ==> start_among(s, a, n) <= s[i].lo(),
        start_among(s, a, n) == a.lo() || exists|i: int|
            0 <= i < n && linked(s, a, #[trigger] s[i]) && s[i].lo() == start_among(s, a, n),
    decreases n,
{
    if n > 0 {
        lemma_start_among(s, a, n - 1);
        let rest = start_among(s, a, n - 1);
        if linked(s, a, s[n - 1]) && s[n - 1].lo() < rest {
        } else if rest != a.lo() {
            let i = choose|i: int|
                0 <= i < n - 1 && linked(s, a, #[trigger] s[i]) && s[i].lo() == rest;
            assert(linked(s, a, s[i]) && s[i].lo() == start_among(s, a, n));
        }
    }
}

/// The level of an observation of `s` starts at the earliest first tick of the
/// observations linked to it.
pub proof fn lemma_level_start(s: Seq<ObservationView>, a: ObservationView)
    requires
        s.contains(a),
    ensures
        is_level_start(s, a, level_start(s, a)),
        level_start(s, a) <= a.lo(),
{
    let k = level_start(s, a);
    lemma_start_among(s, a, s.len() as int);
    lemma_linked_reflexive(s, a);
    if k == a.lo() {
        assert(linked(s, a, a) && a.lo() == k);
    } else {
        let i = choose|i: int|
            0 <= i < s.len() && linked(s, a, #[trigger] s[i]) && s[i].lo() == k;
        assert(linked(s, a, s[i]) && s[i].lo() == k);
    }
    assert forall|x: ObservationView| #[trigger] linked(s, a, x) implies k <= x.lo() by {
        lemma_linked_members(s, a, x);
        let i = choose|i: int| 0 <= i < s.len() && s[i] == x;
        assert(linked(s, a, s[i]));
    }
}

/// The earliest first tick of the observations linked to `a` is unique.
pub proof fn lemma_level_start_unique(s: Seq<ObservationView>, a: ObservationView, k: int)
    requires
        s.contains(a),
        is_level_start(s, a, k),
    ensures
        k == level_start(s, a),
{
    lemma_level_start(s, a);
    let j = level_start(s, a);
    let x = choose|x: ObservationView| #[trigger] linked(s, a, x) && x.lo() == k;
    let y = choose|y: ObservationView| #[trigger] linked(s, a, y) && y.lo() == j;
    assert(linked(s, a, x));
    assert(linked(s, a, y));
}

/// Linked observations are in levels with the same start.
pub proof fn lemma_linked_same_start(s: Seq<ObservationView>, a: ObservationView, b: ObservationView)
    requires
        linked(s, a, b),
    ensures
        level_start(s, a) == level_start(s, b),
{
    lemma_linked_members(s, a, b);
    lemma_level_start(s, a);
    let k = level_start(s, a);
    lemma_linked_symmetric(s, a, b);
    let x = choose|x: ObservationView| #[trigger] linked(s, a, x) && x.lo() == k;
    lemma_linked_transitive(s, b, a, x);
    assert(linked(s, b, x) && x.lo() == k);
    assert forall|y: ObservationView| #[trigger] linked(s, b, y) implies k <= y.lo() by {
        lemma_linked_transitive(s, a, b, y);
    }
    lemma_level_start_unique(s, b, k);
}

/// Among well-formed observations, two levels with the same start are one
/// level: observations that start together cannot be ordered.
pub proof fn lemma_same_start_linked(s: Seq<ObservationView>, a: ObservationView, b: ObservationView)
    requires
        well_formed(s),
        s.contains(a),
        s.contains(b),
        level_start(s, a) == level_start(s, b),
    ensures
        linked(s, a, b),
{
    lemma_level_start(s, a);
    lemma_level_start(s, b);
    let k = level_start(s, a);
    let x = choose|x: ObservationView| #[trigger] linked(s, a, x) && x.lo() == k;
    let y = choose|y: ObservationView| #[trigger] linked(s, b, y) && y.lo() == k;
    lemma_linked_members(s, a, x);
    lemma_linked_members(s, b, y);
    assert(x.wf() && y.wf());
    assert(unordered(x, y));
    lemma_unordered_linked(s, x, y);
    lemma_linked_transitive(s, a, x, y);
    lemma_linked_symmetric(s, b, y);
    lemma_linked_transitive(s, a, y, b);
}

/// The members of the level that starts at `t` are the observations of `s`
/// whose level starts at `t`.
pub proof fn lemma_level_at_members(s: Seq<ObservationView>, t: int)
    ensures
        forall|x: ObservationView| #[trigger]
            level_at(s, t).contains(x) <==> s.contains(x) && level_start(s, x) == t,
{
    let pred = starts_at(s, t);
    let level = s.filter(pred);
    assert forall|x: ObservationView| #[trigger] level.contains(x) implies s.contains(x)
        && level_start(s, x) == t by {
        s.lemma_filter_contains_rev(pred, x);
        let i = choose|i: int| 0 <= i < level.len() && level[i] == x;
        s.lemma_filter_pred(pred, i);
    }
    assert forall|x: ObservationView| s.contains(x) && level_start(s, x) == t implies #[trigger]
        level.contains(x) by {
        let i = choose|i: int| 0 <= i < s.len() && s[i] == x;
        assert(pred(s[i]));
        s.lemma_filter_contains(pred, i);
    }
}

/// Ticks at which no level starts leave the cumulative value as it is.
pub proof fn lemma_fold_skip(s: Seq<ObservationView>, acc: Option<Value>, t: int, u: int)
    requires
        t <= u <= horizon(),
        forall|i: int| 0 <= i < s.len() ==> !(t <= #[trigger] level_start(s, s[i]) < u),
    ensures
        fold_from(s, acc, t) == fold_from(s, acc, u),
    decreases u - t,
{
    if t < u {
        lemma_level_at_members(s, t);
        let level = level_at(s, t);
        if level.len() > 0 {
            assert(level.contains(level[0]));
            let i = choose|i: int| 0 <= i < s.len() && s[i] == level[0];
            assert(level_start(s, s[i]) == t);
        }
        lemma_fold_skip(s, acc, t + 1, u);
    }
}

/// The fold from tick `t` passes through some cumulative value at tick `u`.
pub proof fn lemma_fold_prefix(s: Seq<ObservationView>, acc: Option<Value>, t: int, u: int) -> (mid:
    Option<Value>)
    requires
        t <= u <= horizon(),
    ensures
        fold_from(s, acc, t) == fold_from(s, mid, u),
    decreases u - t,
{
    if t < u {
        let level = level_at(s, t);
        let next = if level.len() == 0 {
            acc
        } else {
            step(acc, composite(level))
        };
        lemma_fold_prefix(s, next, t + 1, u)
    } else {
        acc
    }
}

/// Lists with the same members have the same links.
pub proof fn lemma_linked_same_members(
    left: Seq<ObservationView>,
    right: Seq<ObservationView>,
    a: ObservationView,
    b: ObservationView,
)
    requires
        forall|x: ObservationView| left.contains(x) == right.contains(x),
        linked(left, a, b),
    ensures
        linked(right, a, b),
{
    let p = choose|p: Seq<ObservationView>| #[trigger]
        is_chain(left, p) && p.first() == a && p.last() == b;
    assert forall|k: int| 0 <= k < p.len() implies right.contains(#[trigger] p[k]) by {
        assert(left.contains(p[k]));
    }
    assert(is_chain(right, p));
}

/// Lists with the same members give each member the same level start.
pub proof fn lemma_level_start_same_members(
    left: Seq<ObservationView>,
    right: Seq<ObservationView>,
    a: ObservationView,
)
    requires
        forall|x: ObservationView| left.contains(x) == right.contains(x),
        left.contains(a),
    ensures
        level_start(left, a) == level_start(right, a),
{
    lemma_level_start(left, a);
    let k = level_start(left, a);
    let x = choose|x: ObservationView| #[trigger] linked(left, a, x) && x.lo() == k;
    lemma_linked_same_members(left, right, a, x);
    assert(linked(right, a, x) && x.lo() == k);
    assert forall|y: ObservationView| #[trigger] linked(right, a, y) implies k <= y.lo() by {
        lemma_linked_same_members(right, left, a, y);
    }
    lemma_level_start_unique(right, a, k);
}

/// A selection holds each selected observation as often as the list does, and
/// no other.
pub proof fn lemma_filter_count(
    s: Seq<ObservationView>,
    pred: spec_fn(ObservationView) -> bool,
    x: ObservationView,
)
    ensures
        s.filter(pred).to_multiset().count(x) == (if pred(x) {
            s.to_multiset().count(x)
        } else {
            0
        }),
    decreases s.len(),
{
    broadcast use vstd::seq_lib::group_to_multiset_ensures;

    if s.len() == 0 {
        reveal(Seq::filter);
        assert(s.filter(pred) =~= s);
        assert(s.to_multiset().len() == 0);
        assert(s.to_multiset().count(x) == 0);
    } else {
        let rest = s.drop_last();
        let last = s.last();
        lemma_filter_count(rest, pred, x);
        assert(s =~= rest.push(last));
        rest.lemma_filter_push(last, pred);
        assert(rest.push(last).to_multiset() =~= rest.to_multiset().insert(last));
        if pred(last) {
            assert(rest.filter(pred).push(last).to_multiset() =~= rest.filter(
                pred,
            ).to_multiset().insert(last));
        }
    }
}

/// The level that starts at a tick holds the same observations, each as often,
/// in whatever order the history received them.
pub proof fn lemma_level_at_permutation(left: Seq<ObservationView>, right: Seq<ObservationView>, t: int)
    requires
        left.to_multiset() == right.to_multiset(),
    ensures
        level_at(left, t).to_multiset() == level_at(right, t).to_multiset(),
{
    broadcast use vstd::seq_lib::group_to_multiset_ensures;

    assert forall|x: ObservationView| left.contains(x) == right.contains(x) by {
        assert(left.contains(x) <==> left.to_multiset().count(x) > 0);
        assert(right.contains(x) <==> right.to_multiset().count(x) > 0);
    }
    let m1 = level_at(left, t).to_multiset();
    let m2 = level_at(right, t).to_multiset();
    assert forall|x: ObservationView| m1.count(x) == m2.count(x) by {
        lemma_filter_count(left, starts_at(left, t), x);
        lemma_filter_count(right, starts_at(right, t), x);
        if left.contains(x) {
            lemma_level_start_same_members(left, right, x);
        } else {
            assert(left.to_multiset().count(x) == 0);
            assert(right.to_multiset().count(x) == 0);
        }
    }
    assert(m1 =~= m2);
}

/// The fold from any tick on does not depend on the order of arrival.
pub proof fn lemma_fold_permutation(
    left: Seq<ObservationView>,
    right: Seq<ObservationView>,
    acc: Option<Value>,
    t: int,
)
    requires
        left.to_multiset() == right.to_multiset(),
    ensures
        fold_from(left, acc, t) == fold_from(right, acc, t),
    decreases horizon() - t,
{
    if t < horizon() {
        lemma_level_at_permutation(left, right, t);
        let l1 = level_at(left, t);
        let l2 = level_at(right, t);
        lemma_composite_permutation(l1, l2);
        assert(l1.len() == l1.to_multiset().len() && l2.len() == l2.to_multiset().len()) by {
            l1.to_multiset_ensures();
            l2.to_multiset_ensures();
        }
        let next = if l1.len() == 0 {
            acc
        } else {
            step(acc, composite(l1))
        };
        lemma_fold_permutation(left, right, next, t + 1);
    }
}

/// Arrival order is immaterial: two histories that hold the same observations,
/// each as often, infer the same value from the same start.
pub proof fn lemma_arrival_order_immaterial(
    left: Seq<ObservationView>,
    right: Seq<ObservationView>,
    init: Option<Value>,
)
    requires
        left.to_multiset() == right.to_multiset(),
    ensures
        inferred(left, init) == inferred(right, init),
{
    lemma_fold_permutation(left, right, init, 0);
}

/// An empty history infers the value it starts from.
pub proof fn lemma_empty_history(init: Option<Value>)
    ensures
        inferred(Seq::<ObservationView>::empty(), init) == init,
{
    lemma_fold_skip(Seq::<ObservationView>::empty(), init, 0, horizon());
}

/// The tick at which the level `k` of a plan starts.
pub open spec fn plan_start(s: Seq<ObservationView>, plan: Seq<Seq<ObservationView>>, k: int) -> int {
    level_start(s, plan[k][0])
}

/// Some level of the plan starts at tick `t`.
pub open spec fn is_planned(s: Seq<ObservationView>, plan: Seq<Seq<ObservationView>>, t: int) -> bool {
    exists|k: int| 0 <= k < plan.len() && #[trigger] plan_start(s, plan, k) == t
}

/// `plan` is the execution of `s`: its levels are the levels of `s`, each
/// whole and with its members in the order in which they arrived, and a level
/// that starts earlier stands earlier.
pub open spec fn is_execution(s: Seq<ObservationView>, plan: Seq<Seq<ObservationView>>) -> bool {
    &&& forall|k: int|
        0 <= k < plan.len() ==> {
            &&& (#[trigger] plan[k]).len() > 0
            &&& s.contains(plan[k][0])
            &&& plan[k] == level_at(s, plan_start(s, plan, k))
        }
    &&& forall|j: int, k: int|
        0 <= j < k < plan.len() ==> #[trigger] plan_start(s, plan, j) < #[trigger] plan_start(
            s,
            plan,
            k,
        )
    &&& forall|i: int| 0 <= i < s.len() ==> is_planned(s, plan, level_start(s, #[trigger] s[i]))
}

/// The value that remains when the levels of `plan` are composed, first to
/// last, onto the cumulative value `acc`.
pub open spec fn fold_plan(plan: Seq<Seq<ObservationView>>, acc: Option<Value>) -> Option<Value>
    decreases plan.len(),
{
    if plan.len() == 0 {
        acc
    } else {
        step(fold_plan(plan.drop_last(), acc), composite(plan.last()))
    }
}

/// A level starts at a tick of the time axis.
pub proof fn lemma_level_start_on_axis(s: Seq<ObservationView>, a: ObservationView)
    requires
        s.contains(a),
    ensures
        0 <= level_start(s, a) < horizon(),
{
    lemma_level_start(s, a);
    let k = level_start(s, a);
    let x = choose|x: ObservationView| #[trigger] linked(s, a, x) && x.lo() == k;
    assert(linked(s, a, x) && x.lo() == k);
}

/// The tick behind the first `k` levels of a plan.
pub open spec fn plan_frontier(
    s: Seq<ObservationView>,
    plan: Seq<Seq<ObservationView>>,
    k: int,
) -> int {
    if k <= 0 {
        0
    } else {
        plan_start(s, plan, k - 1) + 1
    }
}

/// Folding the first `k` levels of the execution brings the fold over the time
/// axis to the tick behind them.
pub proof fn lemma_execution_prefix(
    s: Seq<ObservationView>,
    plan: Seq<Seq<ObservationView>>,
    init: Option<Value>,
    k: int,
)
    requires
        is_execution(s, plan),
        0 <= k <= plan.len(),
    ensures
        0 <= plan_frontier(s, plan, k) <= horizon(),
        inferred(s, init) == fold_from(
            s,
            fold_plan(plan.take(k), init),
            plan_frontier(s, plan, k),
        ),
    decreases k,
{
    if k == 0 {
        assert(plan.take(0) =~= Seq::<Seq<ObservationView>>::empty());
    } else {
        lemma_execution_prefix(s, plan, init, k - 1);
        let acc = fold_plan(plan.take(k - 1), init);
        let from = plan_frontier(s, plan, k - 1);
        let t = plan_start(s, plan, k - 1);
        assert(plan[k - 1].len() > 0 && s.contains(plan[k - 1][0]));
        lemma_level_start_on_axis(s, plan[k - 1][0]);
        if k - 1 > 0 {
            assert(plan_start(s, plan, k - 2) < plan_start(s, plan, k - 1));
        }
        assert forall|i: int| 0 <= i < s.len() implies !(from <= #[trigger] level_start(s, s[i])
            < t) by {
            assert(is_planned(s, plan, level_start(s, s[i])));
            let j = choose|j: int|
                0 <= j < plan.len() && #[trigger] plan_start(s, plan, j) == level_start(s, s[i]);
            if j < k - 1 {
                if j < k - 2 {
                    assert(plan_start(s, plan, j) < plan_start(s, plan, k - 2));
                }
            } else if j > k - 1 {
                assert(plan_start(s, plan, k - 1) < plan_start(s, plan, j));
            }
        }
        lemma_fold_skip(s, acc, from, t);
        assert(level_at(s, t) == plan[k - 1]);
        assert(plan.take(k).drop_last() =~= plan.take(k - 1));
        assert(plan.take(k).last() == plan[k - 1]);
    }
}

/// The inferred value is what folding the levels of the execution yields.
pub proof fn lemma_execution_infers(
    s: Seq<ObservationView>,
    plan: Seq<Seq<ObservationView>>,
    init: Option<Value>,
)
    requires
        is_execution(s, plan),
    ensures
        inferred(s, init) == fold_plan(plan, init),
{
    let n = plan.len() as int;
    lemma_execution_prefix(s, plan, init, n);
    assert(plan.take(n) =~= plan);
    let from = plan_frontier(s, plan, n);
    assert forall|i: int| 0 <= i < s.len() implies !(from <= #[trigger] level_start(s, s[i])
        < horizon()) by {
        assert(is_planned(s, plan, level_start(s, s[i])));
        let j = choose|j: int|
            0 <= j < plan.len() && #[trigger] plan_start(s, plan, j) == level_start(s, s[i]);
        if j < n - 1 {
            assert(plan_start(s, plan, j) < plan_start(s, plan, n - 1));
        }
    }
    lemma_fold_skip(s, fold_plan(plan, init), from, horizon());
}

} // verus!
