//! What holds of levels and of the inferred value, whatever the history.

use vstd::prelude::*;
use crate::inference::definition::{composite, step};
use crate::inference::interval::{after, before};
use crate::inference::levels::{
    fold_from, horizon, inferred, is_chain, is_execution, level_at, level_start, linked,
    orderable, plan_start, starts_at, well_formed, lemma_fold_prefix, lemma_fold_skip,
    lemma_level_at_members, lemma_level_start, lemma_level_start_unique, lemma_linked_members,
    lemma_linked_reflexive, lemma_linked_same_start, lemma_linked_symmetric,
    lemma_linked_transitive, lemma_same_start_linked, lemma_unordered_linked,
};
use crate::observations::{
    ObservationView, clash, precedes, same_poller, unordered, lemma_precedes_starts_earlier,
};
use crate::value::Value;

verus! {

/// The order is transitive on the observations of `s`.
pub open spec fn transitive(s: Seq<ObservationView>) -> bool {
    forall|x: ObservationView, y: ObservationView, z: ObservationView|
        s.contains(x) && s.contains(y) && s.contains(z) && #[trigger] precedes(x, y)
            && #[trigger] precedes(y, z) ==> precedes(x, z)
}

/// No two different polls of one poller overlap.
pub open spec fn polls_disjoint(s: Seq<ObservationView>) -> bool {
    forall|x: ObservationView, y: ObservationView|
        s.contains(x) && s.contains(y) && x != y && #[trigger] same_poller(x, y) ==> before(
            x.interval,
            y.interval,
        ) || after(x.interval, y.interval)
}

/// Where the polls of each poller do not overlap, observations are ordered by
/// their intervals alone, and the order is transitive.
pub proof fn lemma_disjoint_polls_transitive(s: Seq<ObservationView>)
    requires
        well_formed(s),
        polls_disjoint(s),
    ensures
        transitive(s),
{
    assert forall|x: ObservationView, y: ObservationView, z: ObservationView|
        s.contains(x) && s.contains(y) && s.contains(z) && #[trigger] precedes(x, y)
            && #[trigger] precedes(y, z) implies precedes(x, z) by {
        assert(x.wf() && y.wf() && z.wf());
        if !before(x.interval, y.interval) {
            assert(same_poller(x, y));
        }
        if !before(y.interval, z.interval) {
            assert(same_poller(y, z));
        }
    }
}

/// Every observation of a chain is linked to the first.
pub proof fn lemma_chain_prefix_linked(s: Seq<ObservationView>, p: Seq<ObservationView>, k: int)
    requires
        is_chain(s, p),
        0 <= k < p.len(),
    ensures
        linked(s, p[0], p[k]),
{
    let q = p.take(k + 1);
    assert forall|j: int| 0 <= j < q.len() implies s.contains(#[trigger] q[j]) by {
        assert(s.contains(p[j]));
    }
    assert forall|j: int| 0 <= j < q.len() - 1 implies unordered(#[trigger] q[j], q[j + 1]) by {
        assert(unordered(p[j], p[j + 1]));
    }
    assert(is_chain(s, q));
    assert(q.first() == p[0] && q.last() == p[k]);
}

/// The levels part the history: two observations are in one level exactly when
/// a chain of unordered observations links them, and two observations of
/// different levels are ordered.
pub proof fn lemma_levels_partition(s: Seq<ObservationView>, a: ObservationView, b: ObservationView)
    requires
        well_formed(s),
        s.contains(a),
        s.contains(b),
    ensures
        level_start(s, a) == level_start(s, b) <==> linked(s, a, b),
        !linked(s, a, b) ==> precedes(a, b) || precedes(b, a),
{
    if linked(s, a, b) {
        lemma_linked_same_start(s, a, b);
    }
    if level_start(s, a) == level_start(s, b) {
        lemma_same_start_linked(s, a, b);
    }
    if unordered(a, b) {
        lemma_unordered_linked(s, a, b);
    }
}

/// Along a chain in a level that starts before the level of `b`, every
/// observation precedes `b`, once the first one does.
proof fn lemma_chain_precedes(
    s: Seq<ObservationView>,
    p: Seq<ObservationView>,
    b: ObservationView,
    k: int,
)
    requires
        well_formed(s),
        transitive(s),
        is_chain(s, p),
        s.contains(b),
        !linked(s, p[0], b),
        precedes(p[0], b),
        0 <= k < p.len(),
    ensures
        precedes(p[k], b),
    decreases k,
{
    if k > 0 {
        lemma_chain_precedes(s, p, b, k - 1);
        lemma_chain_prefix_linked(s, p, k);
        assert(unordered(p[k - 1], p[k - 1 + 1]));
        assert(s.contains(p[k - 1]) && s.contains(p[k]));
        if unordered(p[k], b) {
            lemma_unordered_linked(s, p[k], b);
            lemma_linked_transitive(s, p[0], p[k], b);
        }
        if precedes(b, p[k]) {
            assert(precedes(p[k - 1], b) && precedes(b, p[k]));
            assert(precedes(p[k - 1], p[k]));
        }
    }
}

/// Where the order is transitive, the levels are ordered as wholes: every
/// member of a level that starts earlier precedes every member of a level
/// that starts later.
pub proof fn lemma_levels_ordered(s: Seq<ObservationView>, a: ObservationView, b: ObservationView)
    requires
        well_formed(s),
        transitive(s),
        s.contains(a),
        s.contains(b),
        level_start(s, a) < level_start(s, b),
    ensures
        precedes(a, b),
{
    lemma_level_start(s, a);
    lemma_level_start(s, b);
    let ka = level_start(s, a);
    let first = choose|x: ObservationView| #[trigger] linked(s, a, x) && x.lo() == ka;
    lemma_linked_members(s, a, first);
    lemma_linked_symmetric(s, a, first);
    if linked(s, first, b) {
        lemma_linked_transitive(s, a, first, b);
        lemma_linked_same_start(s, a, b);
    }
    if unordered(first, b) {
        lemma_unordered_linked(s, first, b);
    }
    lemma_linked_reflexive(s, b);
    assert(b.wf() && first.wf());
    if precedes(b, first) {
        lemma_precedes_starts_earlier(b, first);
    }
    let p = choose|p: Seq<ObservationView>| #[trigger]
        is_chain(s, p) && p.first() == first && p.last() == a;
    lemma_chain_precedes(s, p, b, p.len() - 1);
}

/// Where the order is transitive, every member of an earlier level of the
/// execution precedes every member of a later one.
pub proof fn lemma_execution_ordered(
    s: Seq<ObservationView>,
    plan: Seq<Seq<ObservationView>>,
    j: int,
    k: int,
    x: int,
    y: int,
)
    requires
        well_formed(s),
        transitive(s),
        is_execution(s, plan),
        0 <= j < k < plan.len(),
        0 <= x < plan[j].len(),
        0 <= y < plan[k].len(),
    ensures
        precedes(plan[j][x], plan[k][y]),
{
    lemma_level_at_members(s, plan_start(s, plan, j));
    lemma_level_at_members(s, plan_start(s, plan, k));
    assert(plan[j] == level_at(s, plan_start(s, plan, j)));
    assert(plan[k] == level_at(s, plan_start(s, plan, k)));
    assert(plan[j].contains(plan[j][x]));
    assert(plan[k].contains(plan[k][y]));
    assert(plan_start(s, plan, j) < plan_start(s, plan, k));
    lemma_levels_ordered(s, plan[j][x], plan[k][y]);
}

/// Two members of one level of the execution are linked by a chain of
/// unordered observations, and members of different levels are ordered.
pub proof fn lemma_execution_partition(
    s: Seq<ObservationView>,
    plan: Seq<Seq<ObservationView>>,
    j: int,
    k: int,
    x: int,
    y: int,
)
    requires
        well_formed(s),
        is_execution(s, plan),
        0 <= j < plan.len(),
        0 <= k < plan.len(),
        0 <= x < plan[j].len(),
        0 <= y < plan[k].len(),
    ensures
        j == k ==> linked(s, plan[j][x], plan[k][y]),
        j != k ==> precedes(plan[j][x], plan[k][y]) || precedes(plan[k][y], plan[j][x]),
{
    lemma_level_at_members(s, plan_start(s, plan, j));
    lemma_level_at_members(s, plan_start(s, plan, k));
    assert(plan[j] == level_at(s, plan_start(s, plan, j)));
    assert(plan[k] == level_at(s, plan_start(s, plan, k)));
    assert(plan[j].contains(plan[j][x]));
    assert(plan[k].contains(plan[k][y]));
    if j < k {
        assert(plan_start(s, plan, j) < plan_start(s, plan, k));
    }
    if k < j {
        assert(plan_start(s, plan, k) < plan_start(s, plan, j));
    }
    lemma_levels_partition(s, plan[j][x], plan[k][y]);
}

/// From an observation that follows all others, a chain leads nowhere.
proof fn lemma_chain_stays(
    s: Seq<ObservationView>,
    o: ObservationView,
    p: Seq<ObservationView>,
    k: int,
)
    requires
        o.wf(),
        forall|x: ObservationView| s.contains(x) ==> x == o || #[trigger] precedes(x, o),
        is_chain(s, p),
        p[0] == o,
        0 <= k < p.len(),
    ensures
        p[k] == o,
    decreases k,
{
    if k > 0 {
        lemma_chain_stays(s, o, p, k - 1);
        assert(unordered(p[k - 1], p[k - 1 + 1]));
        assert(s.contains(p[k]));
    }
}

/// An assignment that lies strictly later than every observation of a history
/// sets the inferred value, whatever the history inferred before: a conflict
/// does not outlast it.
pub proof fn lemma_assignment_rehydrates(
    s: Seq<ObservationView>,
    o: ObservationView,
    init: Option<Value>,
)
    requires
        well_formed(s),
        o.wf(),
        o.definition is Assignment,
        forall|i: int| 0 <= i < s.len() ==> before((#[trigger] s[i]).interval, o.interval),
    ensures
        inferred(s.push(o), init) == Some(o.definition->v_new),
        orderable(s) ==> orderable(s.push(o)),
{
    let grown = s.push(o);
    assert forall|i: int| 0 <= i < grown.len() implies (#[trigger] grown[i]).wf() by {
        if i < s.len() {
            assert(grown[i] == s[i]);
        }
    }
    if orderable(s) {
        assert forall|i: int, j: int|
            0 <= i < grown.len() && 0 <= j < grown.len() && i != j implies !clash(
            #[trigger] grown[i],
            #[trigger] grown[j],
        ) by {
            if i < s.len() {
                assert(grown[i] == s[i]);
            }
            if j < s.len() {
                assert(grown[j] == s[j]);
            }
        }
    }
    let t = o.lo();
    assert(grown[s.len() as int] == o);
    assert(grown.contains(o));
    assert forall|x: ObservationView| grown.contains(x) implies x == o || #[trigger] precedes(
        x,
        o,
    ) by {
        let i = choose|i: int| 0 <= i < grown.len() && grown[i] == x;
        if i < s.len() {
            assert(grown[i] == s[i]);
        }
    }
    lemma_linked_reflexive(grown, o);
    assert forall|x: ObservationView| #[trigger] linked(grown, o, x) implies t <= x.lo() by {
        let p = choose|p: Seq<ObservationView>| #[trigger]
            is_chain(grown, p) && p.first() == o && p.last() == x;
        lemma_chain_stays(grown, o, p, p.len() - 1);
    }
    assert(linked(grown, o, o) && o.lo() == t);
    lemma_level_start_unique(grown, o, t);
    let pred = starts_at(grown, t);
    assert forall|i: int| 0 <= i < s.len() implies level_start(grown, #[trigger] s[i]) < t by {
        assert(grown[i] == s[i]);
        assert(grown.contains(s[i]));
        lemma_level_start(grown, s[i]);
        assert(s[i].wf());
    }
    let rest = s.filter(pred);
    if rest.len() > 0 {
        s.lemma_filter_pred(pred, 0);
        assert(rest.contains(rest[0]));
        s.lemma_filter_contains_rev(pred, rest[0]);
        let i = choose|i: int| 0 <= i < s.len() && s[i] == rest[0];
        assert(level_start(grown, s[i]) < t);
    }
    s.lemma_filter_push(o, pred);
    assert(pred(o));
    assert(level_at(grown, t) =~= seq![o]);
    let mid = lemma_fold_prefix(grown, init, 0, t);
    assert(composite(seq![o]) == Some(o.definition));
    assert forall|i: int| 0 <= i < grown.len() implies !(t + 1 <= #[trigger] level_start(grown, grown[i])
        < horizon()) by {
        if i < s.len() {
            assert(grown[i] == s[i]);
        }
    }
    lemma_fold_skip(grown, step(mid, composite(seq![o])), t + 1, horizon());
}

/// A history that holds all observations of another holds all its links.
pub proof fn lemma_linked_monotone(
    small: Seq<ObservationView>,
    large: Seq<ObservationView>,
    a: ObservationView,
    b: ObservationView,
)
    requires
        forall|x: ObservationView| small.contains(x) ==> large.contains(x),
        linked(small, a, b),
    ensures
        linked(large, a, b),
{
    let p = choose|p: Seq<ObservationView>| #[trigger]
        is_chain(small, p) && p.first() == a && p.last() == b;
    assert forall|k: int| 0 <= k < p.len() implies large.contains(#[trigger] p[k]) by {
        assert(small.contains(p[k]));
    }
    assert(is_chain(large, p));
}

/// Every observation of `early` lies wholly before every observation of
/// `late`.
pub open spec fn all_before(early: Seq<ObservationView>, late: Seq<ObservationView>) -> bool {
    forall|i: int, j: int|
        0 <= i < early.len() && 0 <= j < late.len() ==> before(
            (#[trigger] early[i]).interval,
            (#[trigger] late[j]).interval,
        )
}

/// A chain that begins in one of two parts of a history, of which one lies
/// wholly before the other, stays in that part.
proof fn lemma_chain_stays_in_part(
    part: Seq<ObservationView>,
    other: Seq<ObservationView>,
    whole: Seq<ObservationView>,
    p: Seq<ObservationView>,
    k: int,
)
    requires
        well_formed(part),
        well_formed(other),
        all_before(part, other) || all_before(other, part),
        forall|x: ObservationView| whole.contains(x) ==> part.contains(x) || other.contains(x),
        is_chain(whole, p),
        part.contains(p[0]),
        0 <= k < p.len(),
    ensures
        part.contains(p[k]),
    decreases k,
{
    if k > 0 {
        lemma_chain_stays_in_part(part, other, whole, p, k - 1);
        assert(unordered(p[k - 1], p[k - 1 + 1]));
        assert(whole.contains(p[k]));
        if other.contains(p[k]) {
            let i = choose|i: int| 0 <= i < part.len() && part[i] == p[k - 1];
            let j = choose|j: int| 0 <= j < other.len() && other[j] == p[k];
            assert(part[i].wf() && other[j].wf());
        }
    }
}

/// In a history of two parts, of which one lies wholly before the other, an
/// observation has the links that it has in its part.
proof fn lemma_linked_in_part(
    part: Seq<ObservationView>,
    other: Seq<ObservationView>,
    whole: Seq<ObservationView>,
    a: ObservationView,
    b: ObservationView,
)
    requires
        well_formed(part),
        well_formed(other),
        all_before(part, other) || all_before(other, part),
        forall|x: ObservationView| whole.contains(x) <==> part.contains(x) || other.contains(x),
        part.contains(a),
    ensures
        linked(whole, a, b) <==> linked(part, a, b),
{
    if linked(part, a, b) {
        lemma_linked_monotone(part, whole, a, b);
    }
    if linked(whole, a, b) {
        let p = choose|p: Seq<ObservationView>| #[trigger]
            is_chain(whole, p) && p.first() == a && p.last() == b;
        assert forall|k: int| 0 <= k < p.len() implies part.contains(#[trigger] p[k]) by {
            lemma_chain_stays_in_part(part, other, whole, p, k);
        }
        assert(is_chain(part, p));
    }
}

/// In a history of two parts, of which one lies wholly before the other, the
/// level of an observation starts where it starts in its part.
proof fn lemma_level_start_in_part(
    part: Seq<ObservationView>,
    other: Seq<ObservationView>,
    whole: Seq<ObservationView>,
    a: ObservationView,
)
    requires
        well_formed(part),
        well_formed(other),
        all_before(part, other) || all_before(other, part),
        forall|x: ObservationView| whole.contains(x) <==> part.contains(x) || other.contains(x),
        part.contains(a),
    ensures
        level_start(whole, a) == level_start(part, a),
{
    lemma_level_start(part, a);
    let k = level_start(part, a);
    let x = choose|x: ObservationView| #[trigger] linked(part, a, x) && x.lo() == k;
    lemma_linked_in_part(part, other, whole, a, x);
    assert(linked(whole, a, x) && x.lo() == k);
    assert forall|y: ObservationView| #[trigger] linked(whole, a, y) implies k <= y.lo() by {
        lemma_linked_in_part(part, other, whole, a, y);
    }
    lemma_level_start_unique(whole, a, k);
}

/// Two tests that agree on every member select the same members.
pub proof fn lemma_filter_agree(
    s: Seq<ObservationView>,
    p: spec_fn(ObservationView) -> bool,
    q: spec_fn(ObservationView) -> bool,
)
    requires
        forall|i: int| 0 <= i < s.len() ==> p(#[trigger] s[i]) == q(s[i]),
    ensures
        s.filter(p) == s.filter(q),
    decreases s.len(),
{
    reveal(Seq::filter);
    if s.len() > 0 {
        assert forall|i: int| 0 <= i < s.drop_last().len() implies p(
            #[trigger] s.drop_last()[i],
        ) == q(s.drop_last()[i]) by {
            assert(s.drop_last()[i] == s[i]);
        }
        lemma_filter_agree(s.drop_last(), p, q);
        assert(p(s[s.len() - 1]) == q(s[s.len() - 1]));
    }
}

/// In a history of an early part followed by a late part, the level that
/// starts at a tick is the level of the early part followed by the level of
/// the late part, and one of the two is empty.
proof fn lemma_level_at_parts(early: Seq<ObservationView>, late: Seq<ObservationView>, t: int)
    requires
        well_formed(early),
        well_formed(late),
        all_before(early, late),
    ensures
        level_at(early + late, t) == level_at(early, t) + level_at(late, t),
        level_at(early, t).len() == 0 || level_at(late, t).len() == 0,
        level_at(late, t).len() > 0 ==> forall|i: int|
            0 <= i < early.len() ==> #[trigger] level_start(early, early[i]) < t,
{
    let whole = early + late;
    assert forall|x: ObservationView| whole.contains(x) <==> early.contains(x) || late.contains(
        x,
    ) by {
        if whole.contains(x) {
            let i = choose|i: int| 0 <= i < whole.len() && whole[i] == x;
            if i < early.len() {
                assert(early[i] == x);
            } else {
                assert(late[i - early.len()] == x);
            }
        }
        if early.contains(x) {
            let i = choose|i: int| 0 <= i < early.len() && early[i] == x;
            assert(whole[i] == x);
        }
        if late.contains(x) {
            let i = choose|i: int| 0 <= i < late.len() && late[i] == x;
            assert(whole[i + early.len()] == x);
        }
    }
    assert forall|i: int| 0 <= i < early.len() implies starts_at(whole, t)(#[trigger] early[i])
        == starts_at(early, t)(early[i]) by {
        assert(early.contains(early[i]));
        lemma_level_start_in_part(early, late, whole, early[i]);
    }
    assert forall|j: int| 0 <= j < late.len() implies starts_at(whole, t)(#[trigger] late[j])
        == starts_at(late, t)(late[j]) by {
        assert(late.contains(late[j]));
        lemma_level_start_in_part(late, early, whole, late[j]);
    }
    lemma_filter_agree(early, starts_at(whole, t), starts_at(early, t));
    lemma_filter_agree(late, starts_at(whole, t), starts_at(late, t));
    Seq::filter_distributes_over_add(early, late, starts_at(whole, t));
    lemma_level_at_members(late, t);
    lemma_level_at_members(early, t);
    if level_at(late, t).len() > 0 {
        let y = level_at(late, t)[0];
        assert(level_at(late, t).contains(y));
        lemma_level_start(late, y);
        let w = choose|w: ObservationView| #[trigger] linked(late, y, w) && w.lo() == t;
        lemma_linked_members(late, y, w);
        let j = choose|j: int| 0 <= j < late.len() && late[j] == w;
        assert forall|i: int| 0 <= i < early.len() implies #[trigger] level_start(
            early,
            early[i],
        ) < t by {
            assert(early.contains(early[i]));
            lemma_level_start(early, early[i]);
            assert(before(early[i].interval, late[j].interval));
            assert(early[i].wf());
        }
        if level_at(early, t).len() > 0 {
            let x = level_at(early, t)[0];
            assert(level_at(early, t).contains(x));
            let i = choose|i: int| 0 <= i < early.len() && early[i] == x;
            assert(level_start(early, early[i]) < t);
        }
    }
}

/// The fold over an early part followed by a late part is the fold over the
/// early part, followed by the fold over the late part.
proof fn lemma_fold_parts(
    early: Seq<ObservationView>,
    late: Seq<ObservationView>,
    acc: Option<Value>,
    t: int,
)
    requires
        well_formed(early),
        well_formed(late),
        all_before(early, late),
    ensures
        fold_from(early + late, acc, t) == fold_from(late, fold_from(early, acc, t), t),
    decreases horizon() - t,
{
    if t < horizon() {
        lemma_level_at_parts(early, late, t);
        let first = level_at(early, t);
        let second = level_at(late, t);
        if second.len() > 0 {
            assert(first + second =~= second);
            let next = step(acc, composite(second));
            lemma_fold_parts(early, late, next, t + 1);
            lemma_fold_skip(early, acc, t, horizon());
            lemma_fold_skip(early, next, t + 1, horizon());
        } else {
            assert(first + second =~= first);
            let next = if first.len() == 0 {
                acc
            } else {
                step(acc, composite(first))
            };
            lemma_fold_parts(early, late, next, t + 1);
        }
    }
}

/// Histories compose in time: what is inferred from a part that lies wholly
/// before another is where the inference from the other starts.
pub proof fn lemma_sequential(
    early: Seq<ObservationView>,
    late: Seq<ObservationView>,
    init: Option<Value>,
)
    requires
        well_formed(early),
        well_formed(late),
        all_before(early, late),
    ensures
        inferred(early + late, init) == inferred(late, inferred(early, init)),
{
    lemma_fold_parts(early, late, init, 0);
}

} // verus!
