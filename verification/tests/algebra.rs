use std::cmp::Ordering;

use reconciler::inference::definition::{advance, definition};
use reconciler::inference::interval::{gt, lt, merge, overlap, Interval, Moment};
use reconciler::observations::{DefinitionPredicate, Observation, SourceKind};
use reconciler::value::{add_values, sub_values};

fn span(lo: u64, hi: u64) -> Interval {
    Interval(Moment(lo), Moment(hi))
}

fn poll(name: &str, definition: DefinitionPredicate, lo: u64, hi: u64) -> Observation {
    Observation { definition, interval: span(lo, hi), source: SourceKind::Polling(name.to_string()) }
}

fn record(name: &str, definition: DefinitionPredicate, lo: u64, hi: u64) -> Observation {
    Observation { definition, interval: span(lo, hi), source: SourceKind::Record(name.to_string()) }
}

fn mutation(delta: i64) -> DefinitionPredicate {
    DefinitionPredicate::Mutation { delta }
}

fn assignment(v_new: i64) -> DefinitionPredicate {
    DefinitionPredicate::Assignment { v_new }
}

fn transition(v_0: i64, v_1: i64) -> DefinitionPredicate {
    DefinitionPredicate::Transition { v_0, v_1 }
}

#[test]
fn values_add_in_range() {
    assert_eq!(add_values(10, -1), 9);
    assert_eq!(sub_values(7, 10), -3);
}

#[test]
fn values_wrap_around() {
    assert_eq!(add_values(i64::MAX, 1), i64::MIN);
    assert_eq!(add_values(i64::MIN, -1), i64::MAX);
    assert_eq!(sub_values(i64::MIN, 1), i64::MAX);
}

#[test]
fn moments_step_up_and_down() {
    assert_eq!(Moment(5).up(), Some(Moment(6)));
    assert_eq!(Moment(5).down(), Some(Moment(4)));
    assert_eq!(Moment(0).down(), None);
    assert_eq!(Moment(u64::MAX).up(), None);
    assert_eq!(Moment::earliest(), Moment(0));
    assert_eq!(Moment::latest(), Moment(u64::MAX));
}

#[test]
fn interval_ends() {
    let i = span(3, 9);
    assert_eq!(i.start(), Moment(3));
    assert_eq!(i.end(), Moment(9));
}

#[test]
fn merge_covers_both() {
    assert_eq!(merge(span(2, 5), span(4, 9)), span(2, 9));
    assert_eq!(merge(span(4, 9), span(2, 5)), span(2, 9));
    assert_eq!(merge(span(0, 10), span(3, 4)), span(0, 10));
    assert_eq!(merge(span(0, 1), span(5, 6)), span(0, 6));
}

#[test]
fn intervals_compare_without_overlap() {
    assert!(lt(span(0, 1), span(2, 3)));
    assert!(!lt(span(0, 2), span(2, 3)));
    assert!(gt(span(4, 5), span(2, 3)));
    assert!(!gt(span(3, 5), span(2, 3)));
}

#[test]
fn intervals_overlap_when_they_share_a_tick() {
    assert!(overlap(span(0, 2), span(2, 3)));
    assert!(overlap(span(2, 3), span(0, 2)));
    assert!(overlap(span(0, 10), span(3, 4)));
    assert!(!overlap(span(0, 1), span(2, 3)));
    assert!(!overlap(span(2, 3), span(0, 1)));
}

#[test]
fn transition_applies_to_its_first_value_only() {
    assert_eq!(transition(10, 8).apply(&10), Some(8));
    assert_eq!(transition(10, 8).apply(&9), None);
}

#[test]
fn mutation_adds_its_delta() {
    assert_eq!(mutation(-3).apply(&10), Some(7));
    assert_eq!(mutation(1).apply(&i64::MAX), Some(i64::MIN));
}

#[test]
fn assignment_replaces_the_value() {
    assert_eq!(assignment(4).apply(&10), Some(4));
}

#[test]
fn disjoint_intervals_order_observations() {
    let a = poll("A", mutation(-1), 0, 1);
    let b = record("B", mutation(-1), 2, 3);
    assert_eq!(a.partial_cmp(&b), Some(Ordering::Less));
    assert_eq!(b.partial_cmp(&a), Some(Ordering::Greater));
    assert!(a.happened_before(&b));
    assert!(!b.happened_before(&a));
}

#[test]
fn overlapping_observations_of_different_sources_are_unordered() {
    let a = poll("A", mutation(-1), 0, 5);
    let b = poll("B", mutation(-1), 2, 7);
    let c = record("A", mutation(-1), 2, 7);
    assert_eq!(a.partial_cmp(&b), None);
    assert_eq!(b.partial_cmp(&a), None);
    assert_eq!(a.partial_cmp(&c), None);
    assert!(!a.happened_before(&b));
}

#[test]
fn overlapping_polls_of_one_poller_are_ordered_by_their_start() {
    let a = poll("A", mutation(-1), 0, 5);
    let b = poll("A", mutation(-1), 2, 7);
    assert!(a.from_same_poller(&b));
    assert_eq!(a.partial_cmp(&b), Some(Ordering::Less));
    assert_eq!(b.partial_cmp(&a), Some(Ordering::Greater));
}

#[test]
fn overlapping_records_of_one_source_are_unordered() {
    let a = record("R", mutation(-1), 0, 5);
    let b = record("R", mutation(-1), 2, 7);
    assert!(!a.from_same_poller(&b));
    assert_eq!(a.partial_cmp(&b), None);
}

#[test]
fn polls_that_start_together_clash() {
    let a = poll("A", mutation(-1), 2, 5);
    let b = poll("A", mutation(-2), 2, 7);
    let c = poll("B", mutation(-2), 2, 7);
    let d = poll("A", mutation(-2), 6, 7);
    assert!(a.clashes(&b));
    assert!(b.clashes(&a));
    assert!(!a.clashes(&c));
    assert!(!a.clashes(&d));
}

#[test]
fn clone_keeps_the_observation() {
    let a = poll("A", transition(1, 2), 3, 4);
    let b = a.clone();
    assert_eq!(b.definition, transition(1, 2));
    assert_eq!(b.interval, span(3, 4));
    assert!(matches!(b.source, SourceKind::Polling(ref name) if name == "A"));
}

#[test]
fn no_two_observations_are_equal() {
    let a = poll("A", transition(1, 2), 3, 4);
    let b = a.clone();
    assert!(a != b);
    assert!(!(a == a));
}

#[test]
fn single_member_stands_for_itself() {
    assert_eq!(definition(&vec![poll("A", transition(10, 8), 0, 1)]), Some(transition(10, 8)));
    assert_eq!(definition(&vec![poll("A", mutation(-4), 0, 1)]), Some(mutation(-4)));
    assert_eq!(definition(&vec![poll("A", assignment(3), 0, 1)]), Some(assignment(3)));
}

#[test]
fn mutations_sum() {
    let level = vec![
        poll("A", mutation(-1), 0, 5),
        poll("B", mutation(-2), 2, 7),
        record("C", mutation(10), 1, 3),
    ];
    assert_eq!(definition(&level), Some(mutation(7)));
}

#[test]
fn mutations_sum_in_the_value_group() {
    let level = vec![poll("A", mutation(i64::MAX), 0, 5), poll("B", mutation(1), 2, 7)];
    assert_eq!(definition(&level), Some(mutation(i64::MIN)));
}

#[test]
fn agreeing_assignments_yield_the_assignment() {
    let level = vec![poll("A", assignment(5), 0, 5), poll("B", assignment(5), 2, 7)];
    assert_eq!(definition(&level), Some(assignment(5)));
}

#[test]
fn conflicting_assignments_yield_none() {
    let level = vec![
        poll("A", assignment(5), 0, 5),
        poll("B", assignment(5), 2, 7),
        poll("C", assignment(7), 1, 3),
    ];
    assert_eq!(definition(&level), None);
}

#[test]
fn transition_poisons_the_level() {
    let level = vec![poll("A", mutation(-1), 0, 5), poll("B", transition(10, 8), 2, 7)];
    assert_eq!(definition(&level), None);
    let level = vec![poll("A", transition(10, 8), 0, 5), poll("B", transition(10, 8), 2, 7)];
    assert_eq!(definition(&level), None);
}

#[test]
fn mutation_mixed_with_assignment_yields_none() {
    let level = vec![poll("A", mutation(-1), 0, 5), poll("B", assignment(8), 2, 7)];
    assert_eq!(definition(&level), None);
    let level = vec![poll("A", assignment(8), 0, 5), poll("B", mutation(-1), 2, 7)];
    assert_eq!(definition(&level), None);
}

#[test]
fn fold_step_follows_the_table() {
    assert_eq!(advance(Some(10), Some(transition(10, 8))), Some(8));
    assert_eq!(advance(Some(9), Some(transition(10, 8))), None);
    assert_eq!(advance(None, Some(transition(10, 8))), None);
    assert_eq!(advance(Some(10), Some(mutation(-3))), Some(7));
    assert_eq!(advance(None, Some(mutation(-3))), None);
    assert_eq!(advance(Some(10), Some(assignment(4))), Some(4));
    assert_eq!(advance(None, Some(assignment(4))), Some(4));
    assert_eq!(advance(Some(10), None), None);
    assert_eq!(advance(None, None), None);
}
