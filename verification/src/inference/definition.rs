//! The single predicate that a level of unorderable observations amounts to.

use vstd::prelude::*;
use crate::observations::{DefinitionPredicate, Observation, ObservationView, views};
use crate::value::{Value, wrap, plus, add_values, lemma_wrap_add, lemma_wrap_in_range};

verus! {

/// The delta that an observation contributes to a sum of mutations.
pub open spec fn delta_of(o: ObservationView) -> int {
    match o.definition {
        DefinitionPredicate::Mutation { delta } => delta as int,
        _ => 0,
    }
}

/// The sum of the deltas of the mutations in `level`, as an integer.
pub open spec fn delta_sum(level: Seq<ObservationView>) -> int
    decreases level.len(),
{
    if level.len() == 0 {
        0
    } else {
        delta_sum(level.drop_last()) + delta_of(level.last())
    }
}

/// Some member of `level` is a transition.
pub open spec fn has_transition(level: Seq<ObservationView>) -> bool {
    exists|i: int| 0 <= i < level.len() && (#[trigger] level[i]).definition is Transition
}

/// Every member of `level` is a mutation.
pub open spec fn all_mutations(level: Seq<ObservationView>) -> bool {
    forall|i: int| 0 <= i < level.len() ==> (#[trigger] level[i]).definition is Mutation
}

/// Every member of `level` is an assignment.
pub open spec fn all_assignments(level: Seq<ObservationView>) -> bool {
    forall|i: int| 0 <= i < level.len() ==> (#[trigger] level[i]).definition is Assignment
}

/// Every member of `level` has the predicate of the first.
pub open spec fn all_agree(level: Seq<ObservationView>) -> bool {
    forall|i: int| 0 <= i < level.len() ==> (#[trigger] level[i]).definition == level[0].definition
}

/// Two members of `level` assign different values.
pub open spec fn has_conflicting_assignments(level: Seq<ObservationView>) -> bool {
    exists|i: int, j: int|
        0 <= i < level.len() && 0 <= j < level.len() && (#[trigger] level[i]).definition
            is Assignment && (#[trigger] level[j]).definition is Assignment
            && level[i].definition != level[j].definition
}

/// The predicate that the members of a level commute to, if there is one.
///
/// A single member stands for itself. A transition beside anything else
/// defines nothing. Mutations add up. Assignments must all assign the same
/// value. Mutations mixed with assignments define nothing.
pub open spec fn composite(level: Seq<ObservationView>) -> Option<DefinitionPredicate> {
    if level.len() == 1 {
        Some(level[0].definition)
    } else if has_transition(level) {
        None
    } else if all_mutations(level) {
        Some(DefinitionPredicate::Mutation { delta: wrap(delta_sum(level)) })
    } else if all_assignments(level) {
        if all_agree(level) {
            Some(level[0].definition)
        } else {
            None
        }
    } else {
        None
    }
}

/// The value after a level with the inferred predicate `definition`, coming
/// from the cumulative value `acc`. `None` is a conflict: it lasts until an
/// assignment sets a value again.
pub open spec fn step(acc: Option<Value>, definition: Option<DefinitionPredicate>) -> Option<
    Value,
> {
    match definition {
        None => None,
        Some(DefinitionPredicate::Transition { v_0, v_1 }) => if acc == Some(v_0) {
            Some(v_1)
        } else {
            None
        },
        Some(DefinitionPredicate::Mutation { delta }) => match acc {
            Some(v) => Some(plus(v, delta)),
            None => None,
        },
        Some(DefinitionPredicate::Assignment { v_new }) => Some(v_new),
    }
}

/// Composes one level's inferred predicate into the cumulative value.
pub fn advance(acc: Option<Value>, definition: Option<DefinitionPredicate>) -> (r: Option<Value>)
    ensures
        r == step(acc, definition),
{
    match definition {
        None => None,
        Some(DefinitionPredicate::Transition { v_0, v_1 }) => match acc {
            Some(v) => if v == v_0 {
                Some(v_1)
            } else {
                None
            },
            None => None,
        },
        Some(DefinitionPredicate::Mutation { delta }) => match acc {
            Some(v) => Some(add_values(v, delta)),
            None => None,
        },
        Some(DefinitionPredicate::Assignment { v_new }) => Some(v_new),
    }
}

/// Infers the single predicate of a level, if its members commute to one.
/// Mutations alone amount to one mutation by the sum of their deltas. Two
/// assignments of different values, or a transition beside anything else,
/// leave the level without a predicate.
pub fn definition(level: &Vec<Observation>) -> (r: Option<DefinitionPredicate>)
    requires
        level.len() > 0,
    ensures
        r == composite(views(level@)),
        all_mutations(views(level@)) ==> r == Some(
            DefinitionPredicate::Mutation { delta: wrap(delta_sum(views(level@))) },
        ),
        has_conflicting_assignments(views(level@)) ==> r is None,
        level.len() >= 2 && has_transition(views(level@)) ==> r is None,
{
    let ghost l = views(level@);
    proof {
        lemma_composite_cases(l);
    }
    if level.len() == 1 {
        return Some(level[0].definition);
    }
    let mut all_mut = true;
    let mut cumulative_mut: Value = 0;
    let mut all_last_assn = true;
    let mut value: Option<Value> = None;
    let mut i: usize = 0;
    proof {
        lemma_wrap_in_range(0);
        assert(l.take(0) =~= Seq::<ObservationView>::empty());
    }
    while i < level.len()
        invariant
            0 <= i <= level.len(),
            l == views(level@),
            l.len() == level.len(),
            l.len() > 1,
            forall|j: int| 0 <= j < i ==> !((#[trigger] l[j]).definition is Transition),
            all_mut == (forall|j: int| 0 <= j < i ==> (#[trigger] l[j]).definition is Mutation),
            all_last_assn == (forall|j: int|
                0 <= j < i ==> (#[trigger] l[j]).definition is Assignment),
            cumulative_mut == wrap(delta_sum(l.take(i as int))),
            value is None ==> forall|j: int|
                0 <= j < i ==> !((#[trigger] l[j]).definition is Assignment),
            value is Some ==> forall|j: int|
                0 <= j < i && (#[trigger] l[j]).definition is Assignment ==> l[j].definition
                    == (DefinitionPredicate::Assignment { v_new: value->Some_0 }),
            value is Some ==> exists|j: int|
                0 <= j < i && (#[trigger] l[j]).definition is Assignment,
        decreases level.len() - i,
    {
        let observation = &level[i];
        assert(l[i as int] == observation@);
        proof {
            assert(l.take(i + 1).drop_last() =~= l.take(i as int));
            assert(l.take(i + 1).last() == l[i as int]);
            lemma_wrap_add(delta_sum(l.take(i as int)), delta_of(l[i as int]));
        }
        match observation.definition {
            DefinitionPredicate::Transition { .. } => {
                assert(has_transition(l));
                return None;
            },
            DefinitionPredicate::Assignment { v_new } => {
                all_mut = false;
                match value {
                    Some(v) => {
                        if v != v_new {
                            proof {
                                let j = choose|j: int|
                                    0 <= j < i && (#[trigger] l[j]).definition is Assignment;
                                assert(l[j].definition != l[i as int].definition);
                                assert(!all_agree(l));
                                assert(!all_mutations(l));
                            }
                            return None;
                        }
                    },
                    None => {
                        value = Some(v_new);
                    },
                }
                proof {
                    lemma_wrap_in_range(cumulative_mut);
                }
            },
            DefinitionPredicate::Mutation { delta } => {
                all_last_assn = false;
                cumulative_mut = add_values(cumulative_mut, delta);
            },
        }
        i += 1;
    }
    proof {
        assert(l.take(l.len() as int) =~= l);
        assert(!has_transition(l));
    }
    if all_mut {
        return Some(DefinitionPredicate::Mutation { delta: cumulative_mut });
    }
    if let Some(v) = value {
        if all_last_assn {
            assert(l[0].definition is Assignment);
            assert(all_agree(l));
            return Some(DefinitionPredicate::Assignment { v_new: v });
        }
    }
    None
}

/// A level of mutations, however many, amounts to one mutation by the sum of
/// their deltas.
pub proof fn lemma_mutations_add_up(level: Seq<ObservationView>)
    requires
        level.len() > 0,
        all_mutations(level),
    ensures
        composite(level) == Some(DefinitionPredicate::Mutation { delta: wrap(delta_sum(level)) }),
{
    if level.len() == 1 {
        assert(level.drop_last() =~= Seq::<ObservationView>::empty());
        assert(delta_sum(level.drop_last()) == 0);
        assert(level[0].definition is Mutation);
        lemma_wrap_in_range(level[0].definition->delta);
    } else {
        assert(!has_transition(level));
    }
}

/// A level that holds two assignments of different values defines nothing.
pub proof fn lemma_conflicting_assignments(level: Seq<ObservationView>, i: int, j: int)
    requires
        0 <= i < level.len(),
        0 <= j < level.len(),
        level[i].definition is Assignment,
        level[j].definition is Assignment,
        level[i].definition->v_new != level[j].definition->v_new,
    ensures
        composite(level) is None,
{
    assert(!all_mutations(level));
    if all_agree(level) {
        assert(level[i].definition == level[0].definition);
        assert(level[j].definition == level[0].definition);
    }
}

/// A level that holds a transition beside another observation defines nothing.
pub proof fn lemma_transition_poisons(level: Seq<ObservationView>, i: int)
    requires
        level.len() >= 2,
        0 <= i < level.len(),
        level[i].definition is Transition,
    ensures
        composite(level) is None,
{
    assert(has_transition(level));
}

/// The three cases in which the predicate of a level is known at once.
pub proof fn lemma_composite_cases(level: Seq<ObservationView>)
    requires
        level.len() > 0,
    ensures
        all_mutations(level) ==> composite(level) == Some(
            DefinitionPredicate::Mutation { delta: wrap(delta_sum(level)) },
        ),
        has_conflicting_assignments(level) ==> composite(level) is None,
        level.len() >= 2 && has_transition(level) ==> composite(level) is None,
{
    if all_mutations(level) {
        lemma_mutations_add_up(level);
    }
    if has_conflicting_assignments(level) {
        let (i, j) = choose|i: int, j: int|
            0 <= i < level.len() && 0 <= j < level.len() && (#[trigger] level[i]).definition
                is Assignment && (#[trigger] level[j]).definition is Assignment
                && level[i].definition != level[j].definition;
        lemma_conflicting_assignments(level, i, j);
    }
    if level.len() >= 2 && has_transition(level) {
        let i = choose|i: int|
            0 <= i < level.len() && (#[trigger] level[i]).definition is Transition;
        lemma_transition_poisons(level, i);
    }
}

/// Taking one member out of a level takes its delta out of the sum.
pub proof fn lemma_delta_sum_remove(level: Seq<ObservationView>, k: int)
    requires
        0 <= k < level.len(),
    ensures
        delta_sum(level) == delta_sum(level.remove(k)) + delta_of(level[k]),
    decreases level.len(),
{
    if k == level.len() - 1 {
        assert(level.remove(k) =~= level.drop_last());
    } else {
        lemma_delta_sum_remove(level.drop_last(), k);
        assert(level.remove(k).drop_last() =~= level.drop_last().remove(k));
        assert(level.remove(k).last() == level.last());
    }
}

/// The sum of the deltas does not depend on the order of the members.
pub proof fn lemma_delta_sum_permutation(a: Seq<ObservationView>, b: Seq<ObservationView>)
    requires
        a.to_multiset() == b.to_multiset(),
    ensures
        delta_sum(a) == delta_sum(b),
    decreases a.len(),
{
    broadcast use vstd::seq_lib::group_to_multiset_ensures;

    assert(a.len() == a.to_multiset().len() && b.len() == b.to_multiset().len());
    if a.len() > 0 {
        let x = a.last();
        assert(a.contains(x));
        assert(b.to_multiset().count(x) > 0);
        assert(b.contains(x));
        let k = choose|k: int| 0 <= k < b.len() && b[k] == x;
        assert(a.drop_last() =~= a.remove(a.len() - 1));
        assert(a.drop_last().to_multiset() =~= b.remove(k).to_multiset());
        lemma_delta_sum_permutation(a.drop_last(), b.remove(k));
        lemma_delta_sum_remove(b, k);
    }
}

/// What a level amounts to does not depend on the order of its members.
pub proof fn lemma_composite_permutation(a: Seq<ObservationView>, b: Seq<ObservationView>)
    requires
        a.to_multiset() == b.to_multiset(),
    ensures
        composite(a) == composite(b),
{
    broadcast use vstd::seq_lib::group_to_multiset_ensures;

    assert(a.len() == a.to_multiset().len() && b.len() == b.to_multiset().len());
    assert forall|x: ObservationView| a.contains(x) == b.contains(x) by {
        assert(a.contains(x) <==> a.to_multiset().count(x) > 0);
        assert(b.contains(x) <==> b.to_multiset().count(x) > 0);
    }
    lemma_delta_sum_permutation(a, b);
    lemma_composite_members(a, b);
    lemma_composite_members(b, a);
    if a.len() >= 1 {
        assert(b.contains(a[0]));
        assert(a.contains(b[0]));
    }
    if a.len() == 1 {
        let k = choose|k: int| 0 <= k < b.len() && b[k] == a[0];
        assert(k == 0);
    } else if all_assignments(a) && all_agree(a) && !has_transition(a) && !all_mutations(a) {
        let k = choose|k: int| 0 <= k < a.len() && a[k] == b[0];
        assert(a[k].definition == a[0].definition);
    } else if all_assignments(b) && all_agree(b) && !has_transition(b) && !all_mutations(b) {
        let k = choose|k: int| 0 <= k < b.len() && b[k] == a[0];
        assert(b[k].definition == b[0].definition);
    }
}

/// What holds of every member of one list holds of every member of a list
/// with the same members.
proof fn lemma_composite_members(a: Seq<ObservationView>, b: Seq<ObservationView>)
    requires
        forall|x: ObservationView| a.contains(x) == b.contains(x),
    ensures
        has_transition(a) ==> has_transition(b),
        all_mutations(a) ==> all_mutations(b),
        all_assignments(a) ==> all_assignments(b),
        all_assignments(a) && all_agree(a) ==> all_agree(b),
{
    if has_transition(a) {
        let i = choose|i: int| 0 <= i < a.len() && (#[trigger] a[i]).definition is Transition;
        assert(a.contains(a[i]));
        let k = choose|k: int| 0 <= k < b.len() && b[k] == a[i];
        assert(b[k].definition is Transition);
    }
    assert forall|j: int| 0 <= j < b.len() implies a.contains(#[trigger] b[j]) by {
        assert(b.contains(b[j]));
    }
    if all_mutations(a) {
        assert forall|j: int| 0 <= j < b.len() implies (#[trigger] b[j]).definition is Mutation by {
            let k = choose|k: int| 0 <= k < a.len() && a[k] == b[j];
            assert(a[k].definition is Mutation);
        }
    }
    if all_assignments(a) {
        assert forall|j: int| 0 <= j < b.len() implies (#[trigger] b[j]).definition is Assignment by {
            let k = choose|k: int| 0 <= k < a.len() && a[k] == b[j];
            assert(a[k].definition is Assignment);
        }
        if all_agree(a) {
            assert forall|j: int| 0 <= j < b.len() implies (#[trigger] b[j]).definition
                == b[0].definition by {
                let k = choose|k: int| 0 <= k < a.len() && a[k] == b[j];
                let k0 = choose|k: int| 0 <= k < a.len() && a[k] == b[0];
                assert(a[k].definition == a[0].definition);
                assert(a[k0].definition == a[0].definition);
            }
        }
    }
}

} // verus!
