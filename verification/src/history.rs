//! A history that keeps its observations merged into stretches of time that do
//! not overlap, and infers its value stretch by stretch.

use vstd::prelude::*;
use vstd::multiset::Multiset;
use crate::inference::definition::{
    all_mutations, composite, definition, delta_sum, has_conflicting_assignments, has_transition,
};
use crate::inference::history::{infer, is_orderable};
use crate::inference::interval::{Interval, Moment, after, before, hull, merge};
use crate::inference::laws::{all_before, lemma_sequential};
use crate::inference::levels::{inferred, orderable, well_formed};
use crate::observations::{DefinitionPredicate, Observation, ObservationView, clash, views};
use crate::spans::{
    Entry, SpanMap, clear_of, ends_before, entries, entries_of, insert_strict, new_map,
    remove_overlapping, starts_after, touches, touching,
};
use crate::value::{Value, wrap};

verus! {

/// The smallest interval that covers the intervals of all `members`.
pub open spec fn hull_of(members: Seq<ObservationView>) -> Interval
    decreases members.len(),
{
    if members.len() <= 1 {
        members[0].interval
    } else {
        hull(hull_of(members.drop_last()), members.last().interval)
    }
}

/// To cover three intervals is the same however they are grouped.
pub proof fn lemma_hull_associates(a: Interval, b: Interval, c: Interval)
    ensures
        hull(hull(a, b), c) == hull(a, hull(b, c)),
{
}

/// The interval that covers two lists of members covers each of them.
pub proof fn lemma_hull_of_concat(a: Seq<ObservationView>, b: Seq<ObservationView>)
    requires
        a.len() > 0,
        b.len() > 0,
    ensures
        hull_of(a + b) == hull(hull_of(a), hull_of(b)),
    decreases b.len(),
{
    let ab = a + b;
    assert(ab.last() == b.last());
    if b.len() == 1 {
        assert(ab.drop_last() =~= a);
    } else {
        assert(ab.drop_last() =~= a + b.drop_last());
        lemma_hull_of_concat(a, b.drop_last());
        lemma_hull_associates(hull_of(a), hull_of(b.drop_last()), b.last().interval);
    }
}

/// The interval that covers well-formed members is well formed, and each
/// member lies within it.
pub proof fn lemma_hull_covers(members: Seq<ObservationView>, i: int)
    requires
        well_formed(members),
        0 <= i < members.len(),
    ensures
        hull_of(members).lo() <= members[i].lo(),
        members[i].hi() <= hull_of(members).hi(),
        hull_of(members).wf(),
    decreases members.len(),
{
    assert(members[i].wf());
    assert(members[0].wf());
    if members.len() > 1 {
        assert(members.last().wf());
        assert forall|j: int| 0 <= j < members.drop_last().len() implies (
        #[trigger] members.drop_last()[j]).wf() by {
            assert(members.drop_last()[j] == members[j]);
        }
        if i < members.len() - 1 {
            lemma_hull_covers(members.drop_last(), i);
        } else {
            lemma_hull_covers(members.drop_last(), 0);
        }
    }
}

/// Observations whose intervals hang together, and the interval that covers
/// them.
#[derive(Debug)]
pub struct Level {
    interval: Interval,
    observations: Vec<Observation>,
}

impl Level {
    /// The members of the level, in the order in which they were added.
    pub closed spec fn members(&self) -> Seq<ObservationView> {
        views(self.observations@)
    }

    /// The interval of the level.
    pub closed spec fn span(&self) -> Interval {
        self.interval
    }

    /// A level has a member, and its interval covers its members and no more.
    pub open spec fn wf(&self) -> bool {
        &&& self.members().len() > 0
        &&& self.span() == hull_of(self.members())
    }

    /// The level of one observation.
    pub fn new(first: Observation) -> (r: Self)
        ensures
            r.members() == seq![first@],
            r.span() == first.interval,
            r.wf(),
    {
        let interval = first.interval;
        let mut observations: Vec<Observation> = Vec::new();
        observations.push(first);
        let r = Level { interval, observations };
        assert(r.members() =~= seq![first@]);
        r
    }

    /// Adds one observation to the level. The interval grows to cover it.
    pub fn add_new(&mut self, observation: Observation)
        requires
            old(self).wf(),
        ensures
            final(self).members() == old(self).members().push(observation@),
            final(self).span() == hull(old(self).span(), observation.interval),
            final(self).wf(),
    {
        self.interval = merge(self.interval, observation.interval);
        self.observations.push(observation);
        proof {
            let m = self.members();
            assert(m =~= old(self).members().push(observation@));
            assert(m.drop_last() =~= old(self).members());
        }
    }

    /// Takes all members of `other` into this level. The interval grows to
    /// cover both.
    pub fn merge(&mut self, other: Level)
        requires
            old(self).wf(),
            other.wf(),
        ensures
            final(self).members() == old(self).members() + other.members(),
            final(self).span() == hull(old(self).span(), other.span()),
            final(self).wf(),
    {
        let mut other = other;
        let ghost theirs = other.members();
        self.interval = merge(self.interval, other.interval);
        self.observations.append(&mut other.observations);
        proof {
            assert(self.members() =~= old(self).members() + theirs);
            lemma_hull_of_concat(old(self).members(), theirs);
        }
    }

    /// The interval of the level.
    pub fn interval(&self) -> (r: Interval)
        ensures
            r == self.span(),
    {
        self.interval
    }

    /// The members of the level, in the order in which they were added.
    pub fn observations(&self) -> (r: &Vec<Observation>)
        ensures
            views(r@) == self.members(),
    {
        &self.observations
    }

    /// Infers the single predicate of the level, if its members commute to
    /// one.
    pub fn definition(&self) -> (r: Option<DefinitionPredicate>)
        requires
            self.wf(),
        ensures
            r == composite(self.members()),
            all_mutations(self.members()) ==> r == Some(
                DefinitionPredicate::Mutation { delta: wrap(delta_sum(self.members())) },
            ),
            has_conflicting_assignments(self.members()) ==> r is None,
            self.members().len() >= 2 && has_transition(self.members()) ==> r is None,
    {
        definition(&self.observations)
    }
}

/// The stretches are well formed and lie one wholly before the next.
pub open spec fn apart(es: Seq<Entry>) -> bool {
    &&& forall|i: int| 0 <= i < es.len() ==> (#[trigger] es[i]).0 <= es[i].1
    &&& forall|i: int, j: int| 0 <= i < j < es.len() ==> (#[trigger] es[i]).1 < (#[trigger] es[j]).0
}

/// The level kept under the number of `e` covers the stretch of `e` and holds
/// well-formed observations.
pub open spec fn keeps(levels: Seq<Option<Level>>, e: Entry) -> bool {
    &&& e.2 < levels.len()
    &&& levels[e.2 as int] is Some
    &&& levels[e.2 as int]->Some_0.wf()
    &&& well_formed(levels[e.2 as int]->Some_0.members())
    &&& levels[e.2 as int]->Some_0.span() == Interval(Moment(e.0), Moment(e.1))
}

/// The interval of an entry.
pub open spec fn stretch_of(e: Entry) -> Interval {
    Interval(Moment(e.0), Moment(e.1))
}

/// The test for intervals that have a tick in common with `i`.
pub open spec fn meets(i: Interval) -> spec_fn(Interval) -> bool {
    |x: Interval| !before(x, i) && !after(x, i)
}

/// The test for intervals that lie wholly before `i`.
pub open spec fn lies_before(i: Interval) -> spec_fn(Interval) -> bool {
    |x: Interval| before(x, i)
}

/// The test for intervals that lie wholly after `i`.
pub open spec fn lies_after(i: Interval) -> spec_fn(Interval) -> bool {
    |x: Interval| after(x, i)
}

/// The smallest interval that covers `i` and all of `met`.
pub open spec fn cover(i: Interval, met: Seq<Interval>) -> Interval
    decreases met.len(),
{
    if met.len() == 0 {
        i
    } else {
        hull(cover(i, met.drop_last()), met.last())
    }
}

/// The intervals of the levels after an observation over `i` came in: those
/// that `i` meets have become one with it, between those before it and those
/// after it.
pub open spec fn absorbed(stretches: Seq<Interval>, i: Interval) -> Seq<Interval> {
    stretches.filter(lies_before(i)).push(cover(i, stretches.filter(meets(i)))) + stretches.filter(
        lies_after(i),
    )
}

/// To select entries and take their intervals is to take the intervals and
/// select among them, where the two tests agree.
proof fn lemma_filter_stretches(
    es: Seq<Entry>,
    p: spec_fn(Entry) -> bool,
    q: spec_fn(Interval) -> bool,
)
    requires
        forall|i: int| 0 <= i < es.len() ==> p(#[trigger] es[i]) == q(stretch_of(es[i])),
    ensures
        es.filter(p).map_values(|e: Entry| stretch_of(e)) == es.map_values(
            |e: Entry| stretch_of(e),
        ).filter(q),
    decreases es.len(),
{
    reveal(Seq::filter);
    let f = |e: Entry| stretch_of(e);
    if es.len() == 0 {
        assert(es.filter(p).map_values(f) =~= es.map_values(f).filter(q));
    } else {
        let rest = es.drop_last();
        assert forall|i: int| 0 <= i < rest.len() implies p(#[trigger] rest[i]) == q(
            stretch_of(rest[i]),
        ) by {
            assert(rest[i] == es[i]);
        }
        lemma_filter_stretches(rest, p, q);
        assert(es.map_values(f).drop_last() =~= rest.map_values(f));
        assert(es.map_values(f).last() == stretch_of(es.last()));
        assert(p(es[es.len() - 1]) == q(stretch_of(es[es.len() - 1])));
        if p(es.last()) {
            assert(rest.filter(p).push(es.last()).map_values(f) =~= rest.filter(p).map_values(
                f,
            ).push(stretch_of(es.last())));
        }
    }
}

/// To select twice is to select by both tests at once.
proof fn lemma_filter_twice(
    es: Seq<Entry>,
    p: spec_fn(Entry) -> bool,
    q: spec_fn(Entry) -> bool,
    both: spec_fn(Entry) -> bool,
)
    requires
        forall|i: int| 0 <= i < es.len() ==> both(#[trigger] es[i]) == (p(es[i]) && q(es[i])),
    ensures
        es.filter(p).filter(q) == es.filter(both),
    decreases es.len(),
{
    reveal(Seq::filter);
    if es.len() > 0 {
        let rest = es.drop_last();
        assert forall|i: int| 0 <= i < rest.len() implies both(#[trigger] rest[i]) == (p(rest[i])
            && q(rest[i])) by {
            assert(rest[i] == es[i]);
        }
        lemma_filter_twice(rest, p, q, both);
        assert(both(es[es.len() - 1]) == (p(es[es.len() - 1]) && q(es[es.len() - 1])));
        if p(es.last()) {
            rest.filter(p).lemma_filter_push(es.last(), q);
        }
    }
}

/// The stretches lie apart, and each has a level of its own that covers it.
pub open spec fn sound(es: Seq<Entry>, levels: Seq<Option<Level>>) -> bool {
    &&& apart(es)
    &&& forall|i: int| 0 <= i < es.len() ==> keeps(levels, #[trigger] es[i])
    &&& forall|i: int, j: int|
        0 <= i < es.len() && 0 <= j < es.len() && i != j ==> (#[trigger] es[i]).2 != (
        #[trigger] es[j]).2
}

/// The levels `emptied` are the levels `before` but for those kept under
/// `taken`.
pub open spec fn emptied_of(
    emptied: Seq<Option<Level>>,
    before: Seq<Option<Level>>,
    taken: Seq<Entry>,
) -> bool {
    &&& emptied.len() == before.len()
    &&& forall|id: int|
        0 <= id < before.len() && (forall|j: int|
            0 <= j < taken.len() ==> (#[trigger] taken[j]).2 != id) ==> #[trigger] emptied[id]
            == before[id]
}

/// The members of the levels kept under `es`, one level after the other.
pub open spec fn flat(es: Seq<Entry>, levels: Seq<Option<Level>>) -> Seq<ObservationView>
    decreases es.len(),
{
    if es.len() == 0 {
        Seq::empty()
    } else {
        flat(es.drop_last(), levels) + levels[es.last().2 as int]->Some_0.members()
    }
}

/// What a selection holds: the members that pass the test.
proof fn lemma_filter_members(es: Seq<Entry>, p: spec_fn(Entry) -> bool)
    ensures
        forall|e: Entry| #[trigger] es.filter(p).contains(e) <==> es.contains(e) && p(e),
{
    let sel = es.filter(p);
    assert forall|e: Entry| #[trigger] sel.contains(e) implies es.contains(e) && p(e) by {
        es.lemma_filter_contains_rev(p, e);
        let i = choose|i: int| 0 <= i < sel.len() && sel[i] == e;
        es.lemma_filter_pred(p, i);
    }
    assert forall|e: Entry| es.contains(e) && p(e) implies #[trigger] sel.contains(e) by {
        let i = choose|i: int| 0 <= i < es.len() && es[i] == e;
        es.lemma_filter_contains(p, i);
    }
}

/// Two tests that agree on every member select the same members.
proof fn lemma_filter_same(es: Seq<Entry>, p: spec_fn(Entry) -> bool, q: spec_fn(Entry) -> bool)
    requires
        forall|i: int| 0 <= i < es.len() ==> p(#[trigger] es[i]) == q(es[i]),
    ensures
        es.filter(p) == es.filter(q),
    decreases es.len(),
{
    reveal(Seq::filter);
    if es.len() > 0 {
        assert forall|i: int| 0 <= i < es.drop_last().len() implies p(
            #[trigger] es.drop_last()[i],
        ) == q(es.drop_last()[i]) by {
            assert(es.drop_last()[i] == es[i]);
        }
        lemma_filter_same(es.drop_last(), p, q);
        assert(p(es[es.len() - 1]) == q(es[es.len() - 1]));
    }
}

/// A selection of stretches that lie apart lies apart.
proof fn lemma_filter_apart(es: Seq<Entry>, p: spec_fn(Entry) -> bool)
    requires
        apart(es),
    ensures
        apart(es.filter(p)),
    decreases es.len(),
{
    reveal(Seq::filter);
    if es.len() > 0 {
        let rest = es.drop_last();
        assert forall|i: int| 0 <= i < rest.len() implies #[trigger] rest[i] == es[i] by {}
        assert(apart(rest));
        lemma_filter_apart(rest, p);
        lemma_filter_members(rest, p);
        let sel = rest.filter(p);
        if p(es.last()) {
            let all = sel.push(es.last());
            assert forall|i: int, j: int| 0 <= i < j < all.len() implies (#[trigger] all[i]).1 < (
            #[trigger] all[j]).0 by {
                if j == sel.len() {
                    assert(sel.contains(sel[i]));
                    let k = choose|k: int| 0 <= k < rest.len() && rest[k] == sel[i];
                    assert(es[k].1 < es[es.len() - 1].0);
                } else {
                    assert(sel[i].1 < sel[j].0);
                }
            }
            assert forall|i: int| 0 <= i < all.len() implies (#[trigger] all[i]).0 <= all[i].1 by {
                if i < sel.len() {
                    assert(sel[i].0 <= sel[i].1);
                } else {
                    assert(es[es.len() - 1].0 <= es[es.len() - 1].1);
                }
            }
        }
    }
}

/// The members of two lists of levels, one after the other.
proof fn lemma_flat_concat(x: Seq<Entry>, y: Seq<Entry>, levels: Seq<Option<Level>>)
    ensures
        flat(x + y, levels) == flat(x, levels) + flat(y, levels),
    decreases y.len(),
{
    if y.len() == 0 {
        assert(x + y =~= x);
        assert(flat(x, levels) + flat(y, levels) =~= flat(x, levels));
    } else {
        assert((x + y).drop_last() =~= x + y.drop_last());
        assert((x + y).last() == y.last());
        lemma_flat_concat(x, y.drop_last(), levels);
        let m = levels[y.last().2 as int]->Some_0.members();
        assert((flat(x, levels) + flat(y.drop_last(), levels)) + m =~= flat(x, levels) + (flat(
            y.drop_last(),
            levels,
        ) + m));
    }
}

/// The members depend on the levels kept under the entries only.
proof fn lemma_flat_same(es: Seq<Entry>, first: Seq<Option<Level>>, second: Seq<Option<Level>>)
    requires
        forall|i: int|
            0 <= i < es.len() ==> first[(#[trigger] es[i]).2 as int] == second[es[i].2 as int],
    ensures
        flat(es, first) == flat(es, second),
    decreases es.len(),
{
    if es.len() > 0 {
        assert forall|i: int| 0 <= i < es.drop_last().len() implies first[(
        #[trigger] es.drop_last()[i]).2 as int] == second[es.drop_last()[i].2 as int] by {
            assert(es.drop_last()[i] == es[i]);
        }
        lemma_flat_same(es.drop_last(), first, second);
        assert(es.last() == es[es.len() - 1]);
    }
}

/// A test and its opposite part the members between them.
proof fn lemma_flat_partition(
    es: Seq<Entry>,
    levels: Seq<Option<Level>>,
    p: spec_fn(Entry) -> bool,
    q: spec_fn(Entry) -> bool,
)
    requires
        forall|i: int| 0 <= i < es.len() ==> p(#[trigger] es[i]) == !q(es[i]),
    ensures
        flat(es, levels).to_multiset() == flat(es.filter(p), levels).to_multiset().add(
            flat(es.filter(q), levels).to_multiset(),
        ),
    decreases es.len(),
{
    reveal(Seq::filter);
    if es.len() == 0 {
        let none = flat(es, levels);
        assert(es.filter(p) =~= es && es.filter(q) =~= es);
        assert(none + none =~= none);
        vstd::seq_lib::lemma_multiset_commutative(none, none);
    } else {
        let rest = es.drop_last();
        let last = es.last();
        let m = levels[last.2 as int]->Some_0.members();
        assert forall|i: int| 0 <= i < rest.len() implies p(#[trigger] rest[i]) == !q(rest[i]) by {
            assert(rest[i] == es[i]);
        }
        lemma_flat_partition(rest, levels, p, q);
        assert(p(es[es.len() - 1]) == !q(es[es.len() - 1]));
        vstd::seq_lib::lemma_multiset_commutative(flat(rest, levels), m);
        if p(last) {
            assert(es.filter(p) == rest.filter(p).push(last));
            assert(es.filter(p).drop_last() =~= rest.filter(p));
            vstd::seq_lib::lemma_multiset_commutative(flat(rest.filter(p), levels), m);
        } else {
            assert(es.filter(q) == rest.filter(q).push(last));
            assert(es.filter(q).drop_last() =~= rest.filter(q));
            vstd::seq_lib::lemma_multiset_commutative(flat(rest.filter(q), levels), m);
        }
        assert(flat(es, levels).to_multiset() =~= flat(es.filter(p), levels).to_multiset().add(
            flat(es.filter(q), levels).to_multiset(),
        ));
    }
}

/// Every observation received since startup, merged into levels whose
/// intervals do not overlap. A new observation takes the levels that it
/// overlaps into one level with itself.
pub struct History {
    history: SpanMap,
    levels: Vec<Option<Level>>,
}

impl View for History {
    type V = Seq<ObservationView>;

    /// The observations of the history, level by level in the order of time.
    closed spec fn view(&self) -> Seq<ObservationView> {
        flat(entries(self.history), self.levels@)
    }
}

impl History {
    /// The levels lie apart in time, and each is kept under a number of its
    /// own.
    pub closed spec fn wf(&self) -> bool {
        sound(entries(self.history), self.levels@)
    }

    /// A history without observations.
    pub fn new() -> (r: History)
        ensures
            r.wf(),
            r@ == Seq::<ObservationView>::empty(),
    {
        History { history: new_map(), levels: Vec::new() }
    }

    /// Adds one observation. The levels whose intervals it overlaps become one
    /// level with it, the observation first and the levels after it in the
    /// order of time. The other levels stay as they are.
    pub fn add_new(&mut self, observation: Observation)
        requires
            old(self).wf(),
            observation.wf(),
        ensures
            final(self).wf(),
            final(self)@.to_multiset() == old(self)@.to_multiset().insert(observation@),
            final(self).stretches() == absorbed(old(self).stretches(), observation.interval),
    {
        let ghost interval = observation.interval;
        let lo = observation.interval.0.0;
        let hi = observation.interval.1.0;
        let ghost o = observation@;
        let ghost old_es = entries(self.history);
        let ghost old_levels = self.levels@;
        let removed = remove_overlapping(&mut self.history, lo, hi);
        let ghost rest = entries(self.history);
        proof {
            lemma_filter_members(old_es, touching(lo, hi));
            lemma_filter_members(old_es, clear_of(lo, hi));
            lemma_filter_apart(old_es, touching(lo, hi));
            lemma_filter_apart(old_es, clear_of(lo, hi));
        }
        let mut new_level = Level::new(observation);
        let mut k: usize = 0;
        proof {
            assert(removed@.take(0) =~= Seq::<Entry>::empty());
            assert(removed@.take(0).map_values(|e: Entry| stretch_of(e)) =~= Seq::<
                Interval,
            >::empty());
            assert(seq![o] + flat(removed@.take(0), old_levels) =~= seq![o]);
            assert forall|i: int| 0 <= i < rest.len() implies !touches(
                #[trigger] rest[i],
                new_level.span().0.0,
                new_level.span().1.0,
            ) by {
                assert(rest.contains(rest[i]));
            }
            assert(well_formed(new_level.members())) by {
                assert(new_level.members()[0] == o);
            }
        }
        while k < removed.len()
            invariant
                0 <= k <= removed.len(),
                sound(old_es, old_levels),
                removed@ == old_es.filter(touching(lo, hi)),
                rest == old_es.filter(clear_of(lo, hi)),
                entries(self.history) == rest,
                apart(removed@),
                forall|e: Entry| #[trigger]
                    removed@.contains(e) <==> old_es.contains(e) && touches(e, lo, hi),
                forall|e: Entry| #[trigger] rest.contains(e) <==> old_es.contains(e) && !touches(
                    e,
                    lo,
                    hi,
                ),
                emptied_of(self.levels@, old_levels, removed@.take(k as int)),
                new_level.wf(),
                well_formed(new_level.members()),
                new_level.members() == seq![o] + flat(removed@.take(k as int), old_levels),
                new_level.span().0.0 <= lo,
                hi <= new_level.span().1.0,
                interval == Interval(Moment(lo), Moment(hi)),
                new_level.span() == cover(
                    interval,
                    removed@.take(k as int).map_values(|e: Entry| stretch_of(e)),
                ),
                forall|i: int|
                    0 <= i < rest.len() ==> !touches(
                        #[trigger] rest[i],
                        new_level.span().0.0,
                        new_level.span().1.0,
                    ),
            decreases removed.len() - k,
        {
            let id = removed[k].2;
            let ghost e = removed@[k as int];
            proof {
                assert(removed@.contains(e));
                let at = choose|at: int| 0 <= at < old_es.len() && old_es[at] == e;
                assert(keeps(old_levels, old_es[at]));
                assert forall|j: int| 0 <= j < k implies (#[trigger] removed@[j]).2 != id by {
                    assert(removed@.contains(removed@[j]));
                    let other = choose|other: int|
                        0 <= other < old_es.len() && old_es[other] == removed@[j];
                    assert(removed@[j].1 < removed@[k as int].0);
                    assert(other != at);
                    assert(old_es[other].2 != old_es[at].2);
                }
                assert(self.levels@[id as int] == old_levels[id as int]);
            }
            let mut slot: Option<Level> = None;
            std::mem::swap(&mut slot, &mut self.levels[id]);
            let ghost before_merge = new_level;
            match slot {
                Some(level) => {
                    proof {
                        assert forall|i: int| 0 <= i < rest.len() implies !touches(
                            #[trigger] rest[i],
                            hull(new_level.span(), level.span()).0.0,
                            hull(new_level.span(), level.span()).1.0,
                        ) by {
                            assert(rest.contains(rest[i]));
                            let r = choose|r: int| 0 <= r < old_es.len() && old_es[r] == rest[i];
                            let at = choose|at: int| 0 <= at < old_es.len() && old_es[at] == e;
                            assert(r != at);
                            if r < at {
                                assert(old_es[r].1 < old_es[at].0);
                            } else {
                                assert(old_es[at].1 < old_es[r].0);
                            }
                        }
                    }
                    new_level.merge(level);
                },
                None => {},
            }
            proof {
                let taken = old_levels[id as int]->Some_0.members();
                let f = |e: Entry| stretch_of(e);
                assert(removed@.take(k + 1).drop_last() =~= removed@.take(k as int));
                assert(removed@.take(k + 1).last() == e);
                assert(removed@.take(k + 1).map_values(f).drop_last() =~= removed@.take(
                    k as int,
                ).map_values(f));
                assert(removed@.take(k + 1).map_values(f).last() == stretch_of(e));
                assert(seq![o] + (flat(removed@.take(k as int), old_levels) + taken) =~= (seq![o]
                    + flat(removed@.take(k as int), old_levels)) + taken);
                assert forall|i: int| 0 <= i < new_level.members().len() implies (
                #[trigger] new_level.members()[i]).wf() by {
                    if i < before_merge.members().len() {
                        assert(new_level.members()[i] == before_merge.members()[i]);
                    } else {
                        assert(new_level.members()[i] == taken[i - before_merge.members().len()]);
                    }
                }
            }
            k += 1;
        }
        let id = self.levels.len();
        let span = new_level.interval();
        let ghost emptied = self.levels@;
        self.levels.push(Some(new_level));
        proof {
            assert(removed@.take(removed@.len() as int) =~= removed@);
            assert(emptied_of(emptied, old_levels, removed@));
            lemma_filter_members(rest, touching(span.0.0, span.1.0));
            let hit = rest.filter(touching(span.0.0, span.1.0));
            if hit.len() > 0 {
                assert(hit.contains(hit[0]));
                let i = choose|i: int| 0 <= i < rest.len() && rest[i] == hit[0];
                assert(!touches(rest[i], span.0.0, span.1.0));
            }
        }
        let inserted = insert_strict(&mut self.history, span.0.0, span.1.0, id);
        assert(inserted is Ok);
        proof {
            lemma_level_added_sound(
                old_es,
                old_levels,
                lo,
                hi,
                emptied,
                new_level,
                entries(self.history),
                self.levels@,
            );
            lemma_level_added_members(
                old_es,
                old_levels,
                lo,
                hi,
                o,
                emptied,
                new_level,
                entries(self.history),
                self.levels@,
            );
            lemma_level_added_stretches(
                old_es,
                old_levels,
                lo,
                hi,
                emptied,
                new_level,
                entries(self.history),
                self.levels@,
            );
        }
    }

    /// The intervals of the levels of the history, in the order of time.
    pub closed spec fn stretches(&self) -> Seq<Interval> {
        entries(self.history).map_values(|e: Entry| stretch_of(e))
    }

    /// The intervals of the levels of the history, in the order of time. No
    /// two of them overlap.
    pub fn spans(&self) -> (r: Vec<Interval>)
        requires
            self.wf(),
        ensures
            r@ == self.stretches(),
            forall|i: int, j: int|
                0 <= i < j < r@.len() ==> before(#[trigger] r@[i], #[trigger] r@[j]),
    {
        let es = entries_of(&self.history);
        let ghost stretch = |e: Entry| stretch_of(e);
        let mut r: Vec<Interval> = Vec::new();
        let mut k: usize = 0;
        while k < es.len()
            invariant
                0 <= k <= es.len(),
                stretch == (|e: Entry| stretch_of(e)),
                r@ == es@.take(k as int).map_values(stretch),
            decreases es.len() - k,
        {
            let (first, last, _) = es[k];
            r.push(Interval(Moment(first), Moment(last)));
            assert(es@.take(k + 1).map_values(stretch) =~= es@.take(k as int).map_values(
                stretch,
            ).push(stretch(es@[k as int])));
            k += 1;
        }
        assert(es@.take(es@.len() as int) =~= es@);
        r
    }

    /// Whether the history meets what is asked of producers: no two polls of
    /// one poller overlap and start together.
    pub fn is_orderable(&self) -> (r: bool)
        requires
            self.wf(),
        ensures
            r == orderable(self@),
    {
        let es = entries_of(&self.history);
        let ghost levels = self.levels@;
        let mut k: usize = 0;
        assert(es@.take(0) =~= Seq::<Entry>::empty());
        while k < es.len()
            invariant
                0 <= k <= es.len(),
                es@ == entries(self.history),
                levels == self.levels@,
                sound(es@, levels),
                orderable(flat(es@.take(k as int), levels)),
            decreases es.len() - k,
        {
            let id = es[k].2;
            proof {
                assert(keeps(levels, es@[k as int]));
                lemma_span_step(es@, levels, k as int);
            }
            match &self.levels[id] {
                Some(level) => {
                    if !is_orderable(level.observations()) {
                        proof {
                            if orderable(flat(es@, levels)) {
                                lemma_span_orderable(es@, levels, k as int);
                            }
                        }
                        return false;
                    }
                    proof {
                        lemma_orderable_concat(
                            flat(es@.take(k as int), levels),
                            level.members(),
                        );
                    }
                },
                None => {},
            }
            k += 1;
        }
        assert(es@.take(es@.len() as int) =~= es@);
        true
    }

    /// The value inferred from the history, starting from `init`. `None` is a
    /// conflict. An empty history infers `init` itself.
    ///
    /// The levels are taken in the order of time. Within each, the
    /// observations are composed as the order of observations asks.
    pub fn apply(&mut self, init: Option<Value>) -> (r: Option<Value>)
        requires
            old(self).wf(),
            orderable(old(self)@),
        ensures
            r == inferred(old(self)@, init),
            old(self)@.len() == 0 ==> r == init,
            final(self)@ == old(self)@,
            final(self).wf(),
    {
        let es = entries_of(&self.history);
        let ghost levels = self.levels@;
        let mut cumulative = init;
        let mut k: usize = 0;
        proof {
            assert(es@.take(0) =~= Seq::<Entry>::empty());
            crate::inference::levels::lemma_empty_history(init);
        }
        while k < es.len()
            invariant
                0 <= k <= es.len(),
                es@ == entries(self.history),
                levels == self.levels@,
                *self == *old(self),
                sound(es@, levels),
                orderable(flat(es@, levels)),
                cumulative == inferred(flat(es@.take(k as int), levels), init),
            decreases es.len() - k,
        {
            let id = es[k].2;
            proof {
                assert(keeps(levels, es@[k as int]));
                lemma_span_step(es@, levels, k as int);
                lemma_span_orderable(es@, levels, k as int);
                lemma_sequential(
                    flat(es@.take(k as int), levels),
                    levels[id as int]->Some_0.members(),
                    init,
                );
            }
            match &self.levels[id] {
                Some(level) => {
                    cumulative = infer(level.observations(), cumulative);
                },
                None => {},
            }
            k += 1;
        }
        proof {
            assert(es@.take(es@.len() as int) =~= es@);
            if self@.len() == 0 {
                assert(self@ =~= Seq::<ObservationView>::empty());
            }
        }
        cumulative
    }
}

/// Every observation of the first `n` levels is well formed and lies within
/// the stretch of its level.
proof fn lemma_flat_within(es: Seq<Entry>, levels: Seq<Option<Level>>, n: int, i: int)
    requires
        sound(es, levels),
        0 <= n <= es.len(),
        0 <= i < flat(es.take(n), levels).len(),
    ensures
        flat(es.take(n), levels)[i].wf(),
        exists|j: int|
            0 <= j < n && (#[trigger] es[j]).0 <= flat(es.take(n), levels)[i].lo() && flat(
                es.take(n),
                levels,
            )[i].hi() <= es[j].1,
    decreases n,
{
    if n > 0 {
        let front = flat(es.take(n - 1), levels);
        let e = es[n - 1];
        let m = levels[e.2 as int]->Some_0.members();
        assert(es.take(n).drop_last() =~= es.take(n - 1));
        assert(es.take(n).last() == e);
        assert(keeps(levels, es[n - 1]));
        if i < front.len() {
            lemma_flat_within(es, levels, n - 1, i);
            let j = choose|j: int|
                0 <= j < n - 1 && (#[trigger] es[j]).0 <= front[i].lo() && front[i].hi() <= es[j].1;
            assert(es[j].0 <= front[i].lo() && front[i].hi() <= es[j].1);
        } else {
            lemma_hull_covers(m, i - front.len());
            assert(es[n - 1].0 <= m[i - front.len()].lo() && m[i - front.len()].hi() <= es[n
                - 1].1);
        }
    }
}

/// The observations of the first `k` levels are well formed and lie wholly
/// before those of the level `k`, which follow them in the history.
proof fn lemma_span_step(es: Seq<Entry>, levels: Seq<Option<Level>>, k: int)
    requires
        sound(es, levels),
        0 <= k < es.len(),
    ensures
        well_formed(flat(es.take(k), levels)),
        well_formed(levels[es[k].2 as int]->Some_0.members()),
        all_before(flat(es.take(k), levels), levels[es[k].2 as int]->Some_0.members()),
        flat(es.take(k + 1), levels) == flat(es.take(k), levels) + levels[es[k].2 as int]->Some_0.members(),
{
    let front = flat(es.take(k), levels);
    let m = levels[es[k].2 as int]->Some_0.members();
    assert(keeps(levels, es[k]));
    assert(es.take(k + 1).drop_last() =~= es.take(k));
    assert(es.take(k + 1).last() == es[k]);
    assert forall|i: int| 0 <= i < front.len() implies (#[trigger] front[i]).wf() by {
        lemma_flat_within(es, levels, k, i);
    }
    assert forall|i: int, j: int| 0 <= i < front.len() && 0 <= j < m.len() implies before(
        (#[trigger] front[i]).interval,
        (#[trigger] m[j]).interval,
    ) by {
        lemma_flat_within(es, levels, k, i);
        let at = choose|at: int|
            0 <= at < k && (#[trigger] es[at]).0 <= front[i].lo() && front[i].hi() <= es[at].1;
        assert(es[at].1 < es[k].0);
        lemma_hull_covers(m, j);
    }
}

/// A history that is orderable is orderable level by level.
proof fn lemma_span_orderable(es: Seq<Entry>, levels: Seq<Option<Level>>, k: int)
    requires
        sound(es, levels),
        0 <= k < es.len(),
        orderable(flat(es, levels)),
    ensures
        orderable(levels[es[k].2 as int]->Some_0.members()),
{
    lemma_span_step(es, levels, k);
    assert(es =~= es.take(k + 1) + es.skip(k + 1));
    lemma_flat_concat(es.take(k + 1), es.skip(k + 1), levels);
    lemma_orderable_parts(flat(es.take(k + 1), levels), flat(es.skip(k + 1), levels));
    lemma_orderable_parts(flat(es.take(k), levels), levels[es[k].2 as int]->Some_0.members());
}

/// The parts of an orderable history are orderable.
pub proof fn lemma_orderable_parts(a: Seq<ObservationView>, b: Seq<ObservationView>)
    requires
        orderable(a + b),
    ensures
        orderable(a),
        orderable(b),
{
    let s = a + b;
    assert forall|i: int| 0 <= i < a.len() implies (#[trigger] a[i]).wf() by {
        assert(s[i] == a[i]);
    }
    assert forall|i: int| 0 <= i < b.len() implies (#[trigger] b[i]).wf() by {
        assert(s[i + a.len()] == b[i]);
    }
    assert forall|i: int, j: int| 0 <= i < a.len() && 0 <= j < a.len() && i != j implies !clash(
        #[trigger] a[i],
        #[trigger] a[j],
    ) by {
        assert(!clash(s[i], s[j]));
    }
    assert forall|i: int, j: int| 0 <= i < b.len() && 0 <= j < b.len() && i != j implies !clash(
        #[trigger] b[i],
        #[trigger] b[j],
    ) by {
        assert(!clash(s[i + a.len()], s[j + a.len()]));
    }
}

/// An orderable history that lies wholly before another makes an orderable
/// history with it.
pub proof fn lemma_orderable_concat(a: Seq<ObservationView>, b: Seq<ObservationView>)
    requires
        orderable(a),
        orderable(b),
        all_before(a, b),
    ensures
        orderable(a + b),
{
    let s = a + b;
    assert forall|i: int| 0 <= i < s.len() implies (#[trigger] s[i]).wf() by {
        if i < a.len() {
            assert(s[i] == a[i]);
        } else {
            assert(s[i] == b[i - a.len()]);
        }
    }
    assert forall|i: int, j: int| 0 <= i < s.len() && 0 <= j < s.len() && i != j implies !clash(
        #[trigger] s[i],
        #[trigger] s[j],
    ) by {
        if i < a.len() && j < a.len() {
            assert(!clash(a[i], a[j]));
        } else if i >= a.len() && j >= a.len() {
            assert(!clash(b[i - a.len()], b[j - a.len()]));
        } else if i < a.len() {
            assert(before(a[i].interval, b[j - a.len()].interval));
        } else {
            assert(before(a[j].interval, b[i - a.len()].interval));
        }
    }
}

/// The entries after a level grew out of the levels that touch the stretch
/// from `lo` to `hi`: those that stay, and the grown level between them.
spec fn entries_after(old_es: Seq<Entry>, lo: u64, hi: u64, grown: Level, id: usize) -> Seq<Entry> {
    let rest = old_es.filter(clear_of(lo, hi));
    let first = grown.span().0.0;
    let last = grown.span().1.0;
    rest.filter(ends_before(first)).push((first, last, id)) + rest.filter(starts_after(last))
}

/// What is known when a grown level goes into the map.
spec fn level_added(
    old_es: Seq<Entry>,
    old_levels: Seq<Option<Level>>,
    lo: u64,
    hi: u64,
    emptied: Seq<Option<Level>>,
    grown: Level,
    es: Seq<Entry>,
    now: Seq<Option<Level>>,
) -> bool {
    let rest = old_es.filter(clear_of(lo, hi));
    &&& sound(old_es, old_levels)
    &&& emptied_of(emptied, old_levels, old_es.filter(touching(lo, hi)))
    &&& grown.wf()
    &&& well_formed(grown.members())
    &&& forall|i: int|
        0 <= i < rest.len() ==> !touches(#[trigger] rest[i], grown.span().0.0, grown.span().1.0)
    &&& now == emptied.push(Some(grown))
    &&& es == entries_after(old_es, lo, hi, grown, old_levels.len() as usize)
    &&& old_levels.len() <= usize::MAX
}

/// After a grown level went into the map, the history is sound.
proof fn lemma_level_added_sound(
    old_es: Seq<Entry>,
    old_levels: Seq<Option<Level>>,
    lo: u64,
    hi: u64,
    emptied: Seq<Option<Level>>,
    grown: Level,
    es: Seq<Entry>,
    now: Seq<Option<Level>>,
)
    requires
        level_added(old_es, old_levels, lo, hi, emptied, grown, es, now),
    ensures
        sound(es, now),
{
    let removed = old_es.filter(touching(lo, hi));
    let rest = old_es.filter(clear_of(lo, hi));
    let first = grown.span().0.0;
    let last = grown.span().1.0;
    let id = old_levels.len() as usize;
    let fresh: Entry = (first, last, id);
    let left = rest.filter(ends_before(first));
    let right = rest.filter(starts_after(last));
    lemma_filter_members(old_es, touching(lo, hi));
    lemma_filter_members(old_es, clear_of(lo, hi));
    lemma_filter_apart(old_es, clear_of(lo, hi));
    lemma_filter_members(rest, ends_before(first));
    lemma_filter_members(rest, starts_after(last));
    lemma_filter_apart(rest, ends_before(first));
    lemma_filter_apart(rest, starts_after(last));
    assert(grown.span().wf()) by {
        lemma_hull_covers(grown.members(), 0);
    }
    assert forall|i: int| 0 <= i < es.len() && i != left.len() implies rest.contains(
        #[trigger] es[i],
    ) by {
        if i < left.len() {
            assert(left.contains(left[i]));
        } else {
            assert(right.contains(right[i - left.len() - 1]));
        }
    }
    assert(es[left.len() as int] == fresh);
    assert forall|i: int| 0 <= i < es.len() && i != left.len() implies keeps(now, #[trigger] es[i])
        && es[i].2 < id by {
        assert(rest.contains(es[i]));
        lemma_kept_level(old_es, old_levels, removed, emptied, es[i]);
        let at = choose|at: int| 0 <= at < old_es.len() && old_es[at] == es[i];
        assert(keeps(old_levels, old_es[at]));
        assert(now[es[i].2 as int] == emptied[es[i].2 as int]);
    }
    assert(keeps(now, fresh)) by {
        assert(now[id as int] == Some(grown));
    }
    assert forall|i: int, j: int| 0 <= i < j < es.len() implies (#[trigger] es[i]).1 < (
    #[trigger] es[j]).0 by {
        if j < left.len() {
            assert(left[i].1 < left[j].0);
        } else if j == left.len() {
            assert(left.contains(left[i]));
        } else if i < left.len() {
            assert(left.contains(left[i]));
            assert(right.contains(right[j - left.len() - 1]));
        } else if i == left.len() {
            assert(right.contains(right[j - left.len() - 1]));
        } else {
            assert(right[i - left.len() - 1].1 < right[j - left.len() - 1].0);
        }
    }
    assert forall|i: int| 0 <= i < es.len() implies (#[trigger] es[i]).0 <= es[i].1 by {
        if i < left.len() {
            assert(left[i].0 <= left[i].1);
        } else if i > left.len() {
            assert(right[i - left.len() - 1].0 <= right[i - left.len() - 1].1);
        }
    }
    assert forall|i: int, j: int|
        0 <= i < es.len() && 0 <= j < es.len() && i != j implies (#[trigger] es[i]).2 != (
    #[trigger] es[j]).2 by {
        if i != left.len() && j != left.len() {
            assert(rest.contains(es[i]) && rest.contains(es[j]));
            let a = choose|a: int| 0 <= a < old_es.len() && old_es[a] == es[i];
            let b = choose|b: int| 0 <= b < old_es.len() && old_es[b] == es[j];
            if i < j {
                assert(es[i].1 < es[j].0);
            } else {
                assert(es[j].1 < es[i].0);
            }
            assert(a != b);
            assert(old_es[a].2 != old_es[b].2);
        }
    }
}

/// After a grown level went into the map, the history holds what it held and
/// what the level took in besides.
proof fn lemma_level_added_members(
    old_es: Seq<Entry>,
    old_levels: Seq<Option<Level>>,
    lo: u64,
    hi: u64,
    o: ObservationView,
    emptied: Seq<Option<Level>>,
    grown: Level,
    es: Seq<Entry>,
    now: Seq<Option<Level>>,
)
    requires
        level_added(old_es, old_levels, lo, hi, emptied, grown, es, now),
        grown.members() == seq![o] + flat(old_es.filter(touching(lo, hi)), old_levels),
    ensures
        flat(es, now).to_multiset() == flat(old_es, old_levels).to_multiset().insert(o),
{
    let removed = old_es.filter(touching(lo, hi));
    let rest = old_es.filter(clear_of(lo, hi));
    let first = grown.span().0.0;
    let last = grown.span().1.0;
    let id = old_levels.len() as usize;
    let fresh: Entry = (first, last, id);
    let left = rest.filter(ends_before(first));
    let right = rest.filter(starts_after(last));
    lemma_filter_members(old_es, touching(lo, hi));
    lemma_filter_members(old_es, clear_of(lo, hi));
    lemma_filter_members(rest, ends_before(first));
    lemma_filter_members(rest, starts_after(last));
    lemma_flat_concat(left.push(fresh), right, now);
    assert(left.push(fresh).drop_last() =~= left);
    assert(now[id as int] == Some(grown));
    assert(flat(left.push(fresh), now) == flat(left, now) + grown.members());
    assert forall|i: int| 0 <= i < left.len() implies now[(#[trigger] left[i]).2 as int]
        == old_levels[left[i].2 as int] by {
        assert(left.contains(left[i]));
        lemma_kept_level(old_es, old_levels, removed, emptied, left[i]);
    }
    assert forall|i: int| 0 <= i < right.len() implies now[(#[trigger] right[i]).2 as int]
        == old_levels[right[i].2 as int] by {
        assert(right.contains(right[i]));
        lemma_kept_level(old_es, old_levels, removed, emptied, right[i]);
    }
    lemma_flat_same(left, now, old_levels);
    lemma_flat_same(right, now, old_levels);
    assert(grown.span().wf()) by {
        lemma_hull_covers(grown.members(), 0);
    }
    assert forall|i: int| 0 <= i < rest.len() implies ends_before(first)(#[trigger] rest[i])
        == !starts_after(last)(rest[i]) by {
        assert(rest.contains(rest[i]));
        assert(!touches(rest[i], first, last));
        let at = choose|at: int| 0 <= at < old_es.len() && old_es[at] == rest[i];
        assert(old_es[at].0 <= old_es[at].1);
    }
    lemma_flat_partition(rest, old_levels, ends_before(first), starts_after(last));
    assert forall|i: int| 0 <= i < old_es.len() implies touching(lo, hi)(#[trigger] old_es[i])
        == !clear_of(lo, hi)(old_es[i]) by {}
    lemma_flat_partition(old_es, old_levels, touching(lo, hi), clear_of(lo, hi));
    let kept_left = flat(left, old_levels);
    let kept_right = flat(right, old_levels);
    let taken = flat(removed, old_levels);
    vstd::seq_lib::lemma_multiset_commutative(kept_left + grown.members(), kept_right);
    vstd::seq_lib::lemma_multiset_commutative(kept_left, grown.members());
    vstd::seq_lib::lemma_multiset_commutative(seq![o], taken);
    assert(seq![o].to_multiset() =~= Multiset::<ObservationView>::empty().insert(o)) by {
        broadcast use vstd::seq_lib::group_to_multiset_ensures;

        assert(seq![o] =~= Seq::<ObservationView>::empty().push(o));
        assert(Seq::<ObservationView>::empty().to_multiset().len() == 0);
        assert(Seq::<ObservationView>::empty().to_multiset() =~= Multiset::<
            ObservationView,
        >::empty());
    }
    assert(flat(es, now).to_multiset() =~= flat(old_es, old_levels).to_multiset().insert(o));
}

/// After a grown level went into the map, the levels have the intervals that
/// remain when the new interval has taken in those that it meets.
proof fn lemma_level_added_stretches(
    old_es: Seq<Entry>,
    old_levels: Seq<Option<Level>>,
    lo: u64,
    hi: u64,
    emptied: Seq<Option<Level>>,
    grown: Level,
    es: Seq<Entry>,
    now: Seq<Option<Level>>,
)
    requires
        level_added(old_es, old_levels, lo, hi, emptied, grown, es, now),
        lo <= hi,
        grown.span().0.0 <= lo,
        hi <= grown.span().1.0,
        grown.span() == cover(
            Interval(Moment(lo), Moment(hi)),
            old_es.filter(touching(lo, hi)).map_values(|e: Entry| stretch_of(e)),
        ),
    ensures
        es.map_values(|e: Entry| stretch_of(e)) == absorbed(
            old_es.map_values(|e: Entry| stretch_of(e)),
            Interval(Moment(lo), Moment(hi)),
        ),
{
    let f = |e: Entry| stretch_of(e);
    let i = Interval(Moment(lo), Moment(hi));
    let rest = old_es.filter(clear_of(lo, hi));
    let first = grown.span().0.0;
    let last = grown.span().1.0;
    let fresh: Entry = (first, last, old_levels.len() as usize);
    let left = rest.filter(ends_before(first));
    let right = rest.filter(starts_after(last));
    lemma_filter_members(old_es, clear_of(lo, hi));
    assert forall|k: int| 0 <= k < old_es.len() implies ends_before(lo)(#[trigger] old_es[k]) == (
    clear_of(lo, hi)(old_es[k]) && ends_before(first)(old_es[k])) by {
        assert(old_es[k].0 <= old_es[k].1);
        if clear_of(lo, hi)(old_es[k]) {
            assert(old_es.contains(old_es[k]));
            assert(rest.contains(old_es[k]));
            let at = choose|at: int| 0 <= at < rest.len() && rest[at] == old_es[k];
            assert(!touches(rest[at], first, last));
        }
    }
    lemma_filter_twice(old_es, clear_of(lo, hi), ends_before(first), ends_before(lo));
    assert forall|k: int| 0 <= k < old_es.len() implies starts_after(hi)(#[trigger] old_es[k]) == (
    clear_of(lo, hi)(old_es[k]) && starts_after(last)(old_es[k])) by {
        assert(old_es[k].0 <= old_es[k].1);
        if clear_of(lo, hi)(old_es[k]) {
            assert(old_es.contains(old_es[k]));
            assert(rest.contains(old_es[k]));
            let at = choose|at: int| 0 <= at < rest.len() && rest[at] == old_es[k];
            assert(!touches(rest[at], first, last));
        }
    }
    lemma_filter_twice(old_es, clear_of(lo, hi), starts_after(last), starts_after(hi));
    assert forall|k: int| 0 <= k < old_es.len() implies ends_before(lo)(#[trigger] old_es[k])
        == lies_before(i)(stretch_of(old_es[k])) by {}
    assert forall|k: int| 0 <= k < old_es.len() implies starts_after(hi)(#[trigger] old_es[k])
        == lies_after(i)(stretch_of(old_es[k])) by {}
    assert forall|k: int| 0 <= k < old_es.len() implies touching(lo, hi)(#[trigger] old_es[k])
        == meets(i)(stretch_of(old_es[k])) by {}
    lemma_filter_stretches(old_es, ends_before(lo), lies_before(i));
    lemma_filter_stretches(old_es, starts_after(hi), lies_after(i));
    lemma_filter_stretches(old_es, touching(lo, hi), meets(i));
    assert(stretch_of(fresh) == grown.span());
    assert((left.push(fresh) + right).map_values(f) =~= left.map_values(f).push(stretch_of(fresh))
        + right.map_values(f));
}

/// A level whose entry stays in the map stays in its place.
proof fn lemma_kept_level(
    old_es: Seq<Entry>,
    old_levels: Seq<Option<Level>>,
    removed: Seq<Entry>,
    emptied: Seq<Option<Level>>,
    e: Entry,
)
    requires
        sound(old_es, old_levels),
        old_es.contains(e),
        forall|x: Entry| #[trigger] removed.contains(x) ==> old_es.contains(x) && x != e,
        emptied_of(emptied, old_levels, removed),
    ensures
        emptied[e.2 as int] == old_levels[e.2 as int],
        e.2 < old_levels.len(),
{
    let at = choose|at: int| 0 <= at < old_es.len() && old_es[at] == e;
    assert(keeps(old_levels, old_es[at]));
    assert forall|j: int| 0 <= j < removed.len() implies (#[trigger] removed[j]).2 != e.2 by {
        assert(removed.contains(removed[j]));
        let other = choose|other: int| 0 <= other < old_es.len() && old_es[other] == removed[j];
        assert(other != at);
        assert(old_es[other].2 != old_es[at].2);
    }
}

} // verus!
