use reconciler::coordinator::{coordinator, Verdict, PROCESS_BUFFER_LIMIT};
use reconciler::history::{History, Level};
use reconciler::inference::history::{infer as infer_list, is_orderable};
use reconciler::inference::history::NewHistory;
use reconciler::inference::interval::{Interval, Moment};
use reconciler::observations::{DefinitionPredicate, Observation, SourceKind};

fn span(lo: u64, hi: u64) -> Interval {
    Interval(Moment(lo), Moment(hi))
}

fn poll(name: &str, definition: DefinitionPredicate, lo: u64, hi: u64) -> Observation {
    Observation { definition, interval: span(lo, hi), source: SourceKind::Polling(name.to_string()) }
}

fn record(name: &str, definition: DefinitionPredicate, lo: u64, hi: u64) -> Observation {
    Observation { definition, interval: span(lo, hi), source: SourceKind::Record(name.to_string()) }
}

fn mutation(delta: i64) -> DefinitionPredicate {
    DefinitionPredicate::Mutation { delta }
}

fn assignment(v_new: i64) -> DefinitionPredicate {
    DefinitionPredicate::Assignment { v_new }
}

fn transition(v_0: i64, v_1: i64) -> DefinitionPredicate {
    DefinitionPredicate::Transition { v_0, v_1 }
}

fn history_of(observations: &[Observation]) -> NewHistory {
    let mut history = NewHistory::new();
    for o in observations {
        history.add_new(o.clone());
    }
    history
}

fn infer(observations: &[Observation], init: Option<i64>) -> Option<i64> {
    let history = history_of(observations);
    assert!(history.is_orderable());
    history.apply(init)
}

fn starts(plan: &Vec<Vec<Observation>>) -> Vec<Vec<u64>> {
    plan.iter().map(|level| level.iter().map(|o| o.interval.0 .0).collect()).collect()
}

#[test]
fn lists_are_inferred_without_a_history() {
    let list = vec![poll("A", mutation(-1), 0, 5), poll("B", mutation(-1), 2, 7)];
    assert!(is_orderable(&list));
    assert_eq!(infer_list(&list, Some(10)), Some(8));
    assert_eq!(infer_list(&Vec::new(), Some(10)), Some(10));
    let list = vec![poll("A", mutation(-1), 2, 5), poll("A", mutation(-1), 2, 7)];
    assert!(!is_orderable(&list));
}

#[test]
fn empty_history_is_the_identity() {
    assert_eq!(infer(&[], Some(10)), Some(10));
    assert_eq!(infer(&[], None), None);
    assert_eq!(infer(&[], Some(-3)), Some(-3));
    assert!(NewHistory::new().get_execution().is_empty());
}

#[test]
fn history_keeps_every_observation_in_arrival_order() {
    let mut history = NewHistory::new();
    assert!(history.observations().is_empty());
    history.add_new(poll("A", mutation(-1), 7, 9));
    history.add_new(record("R", mutation(-1), 3, 4));
    history.add_new(record("R", mutation(-1), 3, 4));
    let kept = history.observations();
    assert_eq!(kept.len(), 3);
    assert_eq!(kept[0].interval, span(7, 9));
    assert_eq!(kept[1].interval, span(3, 4));
    assert_eq!(kept[2].interval, span(3, 4));
}

#[test]
fn single_observation_is_one_level() {
    let history = history_of(&[poll("A", transition(10, 8), 0, 1)]);
    let plan = history.get_execution();
    assert_eq!(plan.len(), 1);
    assert_eq!(plan[0].len(), 1);
    assert_eq!(NewHistory::definition(&plan[0]), Some(transition(10, 8)));
    assert_eq!(history.apply(Some(10)), Some(8));
    assert_eq!(history.apply(Some(9)), None);
}

#[test]
fn ordered_observations_fold_one_by_one() {
    let observations = [
        poll("A", mutation(-1), 0, 1),
        record("R", mutation(5), 2, 3),
        poll("B", transition(14, 20), 4, 5),
        record("R", mutation(-2), 6, 9),
    ];
    let plan = history_of(&observations).get_execution();
    assert_eq!(starts(&plan), vec![vec![0], vec![2], vec![4], vec![6]]);
    assert_eq!(infer(&observations, Some(10)), Some(18));
}

#[test]
fn arrival_order_does_not_change_the_value() {
    let a = poll("A", mutation(-1), 0, 1);
    let b = poll("A", transition(9, 4), 2, 3);
    let c = poll("B", mutation(3), 4, 8);
    let d = record("R", mutation(2), 6, 9);
    let orders = [
        [a.clone(), b.clone(), c.clone(), d.clone()],
        [d.clone(), c.clone(), b.clone(), a.clone()],
        [b.clone(), d.clone(), a.clone(), c.clone()],
        [c.clone(), a.clone(), d.clone(), b.clone()],
    ];
    for order in orders.iter() {
        assert_eq!(infer(order, Some(10)), Some(9));
        let plan = history_of(order).get_execution();
        assert_eq!(plan.len(), 3);
        assert_eq!(plan[0].len(), 1);
        assert_eq!(plan[1].len(), 1);
        assert_eq!(plan[2].len(), 2);
        assert_eq!(plan[0][0].interval, span(0, 1));
        assert_eq!(plan[1][0].interval, span(2, 3));
    }
}

#[test]
fn arrival_order_does_not_change_levels_that_a_poller_splits() {
    let a = poll("A", assignment(10), 0, 100);
    let b = poll("A", mutation(1), 5, 6);
    let c = poll("C", assignment(10), 7, 8);
    let orders = [
        [a.clone(), b.clone(), c.clone()],
        [a.clone(), c.clone(), b.clone()],
        [b.clone(), a.clone(), c.clone()],
        [b.clone(), c.clone(), a.clone()],
        [c.clone(), a.clone(), b.clone()],
        [c.clone(), b.clone(), a.clone()],
    ];
    for order in orders.iter() {
        let plan = history_of(order).get_execution();
        assert_eq!(plan.len(), 2);
        assert_eq!(plan[0].len(), 2);
        assert_eq!(plan[1].len(), 1);
        assert_eq!(plan[1][0].interval, span(5, 6));
        assert_eq!(infer(order, Some(3)), Some(11));
        assert_eq!(infer(order, None), Some(11));
    }
}

#[test]
fn levels_stand_in_the_order_of_their_starts() {
    let observations = [
        record("R", mutation(1), 20, 30),
        record("S", mutation(1), 25, 40),
        record("R", mutation(1), 0, 5),
        record("S", mutation(1), 10, 12),
        record("T", mutation(1), 5, 7),
    ];
    let plan = history_of(&observations).get_execution();
    assert_eq!(starts(&plan), vec![vec![0, 5], vec![10], vec![20, 25]]);
}

#[test]
fn a_chain_of_overlaps_is_one_level() {
    let observations = [
        record("R", mutation(1), 0, 1),
        record("S", mutation(1), 1, 5),
        record("T", mutation(1), 5, 6),
    ];
    let history = history_of(&observations);
    let plan = history.get_execution();
    assert_eq!(plan.len(), 1);
    assert_eq!(plan[0].len(), 3);
    assert_eq!(history.apply(Some(0)), Some(3));
}

#[test]
fn overlapping_polls_of_one_poller_are_two_levels() {
    let observations = [poll("A", transition(8, 5), 2, 7), poll("A", transition(10, 8), 0, 5)];
    let history = history_of(&observations);
    let plan = history.get_execution();
    assert_eq!(starts(&plan), vec![vec![0], vec![2]]);
    assert_eq!(history.apply(Some(10)), Some(5));
}

#[test]
fn equal_records_are_both_counted() {
    let observations = [record("R", mutation(-1), 3, 4), record("R", mutation(-1), 3, 4)];
    assert_eq!(infer(&observations, Some(10)), Some(8));
}

#[test]
fn late_assignment_rehydrates() {
    let mut observations = vec![
        poll("A", transition(1, 2), 0, 5),
        record("R", mutation(-1), 3, 6),
        poll("B", assignment(5), 8, 9),
        poll("C", assignment(7), 9, 12),
    ];
    assert_eq!(infer(&observations, Some(10)), None);
    observations.push(record("R", assignment(42), 13, 13));
    assert_eq!(infer(&observations, Some(10)), Some(42));
    assert_eq!(infer(&observations, None), Some(42));
}

#[test]
fn unknown_start_stays_unknown_under_mutations() {
    let observations = [poll("A", mutation(-1), 0, 1), poll("A", mutation(-1), 2, 3)];
    assert_eq!(infer(&observations, None), None);
    let observations = [poll("A", assignment(3), 0, 1), poll("A", mutation(-1), 2, 3)];
    assert_eq!(infer(&observations, None), Some(2));
}

#[test]
fn clashing_polls_are_not_orderable() {
    let history = history_of(&[poll("A", mutation(-1), 2, 5), poll("A", mutation(-1), 2, 7)]);
    assert!(!history.is_orderable());
    let history = history_of(&[poll("A", mutation(-1), 2, 5), poll("B", mutation(-1), 2, 7)]);
    assert!(history.is_orderable());
}

#[test]
fn malformed_interval_is_not_orderable() {
    let history = history_of(&[poll("A", mutation(-1), 5, 2)]);
    assert!(!history.is_orderable());
}

#[test]
fn level_grows_with_its_members() {
    let mut level = Level::new(poll("A", mutation(-1), 4, 6));
    assert_eq!(level.interval(), span(4, 6));
    assert_eq!(level.observations().len(), 1);
    assert_eq!(level.definition(), Some(mutation(-1)));
    level.add_new(record("R", mutation(-2), 1, 5));
    assert_eq!(level.interval(), span(1, 6));
    assert_eq!(level.definition(), Some(mutation(-3)));
    let mut other = Level::new(poll("B", mutation(10), 6, 9));
    other.add_new(poll("C", mutation(10), 8, 12));
    level.merge(other);
    assert_eq!(level.interval(), span(1, 12));
    assert_eq!(level.observations().len(), 4);
    assert_eq!(level.observations()[2].interval, span(6, 9));
    assert_eq!(level.definition(), Some(mutation(17)));
}

#[test]
fn history_merges_what_overlaps() {
    let mut history = History::new();
    assert!(history.is_orderable());
    assert!(history.spans().is_empty());
    assert_eq!(history.apply(Some(10)), Some(10));
    history.add_new(poll("B", assignment(7), 12, 17));
    history.add_new(poll("A", mutation(-1), 0, 5));
    assert_eq!(history.spans(), vec![span(0, 5), span(12, 17)]);
    history.add_new(poll("B", mutation(-1), 2, 7));
    assert_eq!(history.spans(), vec![span(0, 7), span(12, 17)]);
    assert_eq!(history.apply(Some(10)), Some(7));
    assert_eq!(history.apply(Some(10)), Some(7));
    history.add_new(record("R", mutation(4), 20, 21));
    assert_eq!(history.spans(), vec![span(0, 7), span(12, 17), span(20, 21)]);
    assert_eq!(history.apply(Some(10)), Some(11));
    history.add_new(record("R", mutation(1), 6, 20));
    assert_eq!(history.spans(), vec![span(0, 21)]);
    assert!(history.is_orderable());
    assert_eq!(history.apply(Some(10)), None);
    history.add_new(record("R", assignment(3), 22, 22));
    assert_eq!(history.spans(), vec![span(0, 21), span(22, 22)]);
    assert_eq!(history.apply(Some(10)), Some(3));
}

#[test]
fn history_keeps_touching_levels_together() {
    let mut history = History::new();
    history.add_new(record("R", mutation(1), 0, 1));
    history.add_new(record("S", mutation(1), 5, 6));
    history.add_new(record("T", mutation(1), 2, 4));
    assert_eq!(history.spans(), vec![span(0, 1), span(2, 4), span(5, 6)]);
    history.add_new(record("U", mutation(1), 1, 5));
    assert_eq!(history.spans(), vec![span(0, 6)]);
    assert_eq!(history.apply(Some(0)), Some(4));
}

#[test]
fn history_orders_the_polls_of_one_poller_within_a_level() {
    let mut history = History::new();
    history.add_new(poll("A", transition(8, 5), 2, 7));
    history.add_new(poll("A", transition(10, 8), 0, 5));
    assert_eq!(history.spans(), vec![span(0, 7)]);
    assert!(history.is_orderable());
    assert_eq!(history.apply(Some(10)), Some(5));
    history.add_new(poll("A", transition(5, 1), 2, 9));
    assert!(!history.is_orderable());
}

#[test]
fn history_agrees_with_the_levels_derived_on_demand() {
    let observations = [
        poll("A", assignment(10), 0, 100),
        poll("A", mutation(1), 5, 6),
        poll("C", assignment(10), 7, 8),
        record("R", mutation(-4), 120, 130),
        poll("A", transition(7, 9), 101, 110),
        record("S", mutation(-2), 125, 140),
        poll("C", transition(9, 20), 111, 119),
    ];
    let mut history = History::new();
    for o in observations.iter() {
        history.add_new(o.clone());
    }
    assert!(history.is_orderable());
    assert_eq!(history.spans(), vec![span(0, 100), span(101, 110), span(111, 119), span(120, 140)]);
    for init in [Some(3), Some(-8), None] {
        assert_eq!(history.apply(init), infer(&observations, init));
    }
    assert_eq!(history.apply(None), None);
    assert_eq!(infer(&observations[..3], None), Some(11));
}

#[test]
fn coordinator_publishes_the_inferred_value() {
    assert_eq!(PROCESS_BUFFER_LIMIT, 100);
    let mut history = History::new();
    let mut batch = vec![poll("A", mutation(-1), 0, 1), poll("A", mutation(-1), 2, 3)];
    assert_eq!(coordinator(&mut history, Some(10), &mut batch), Verdict::Publish(8));
    assert!(batch.is_empty());
    let mut batch = vec![poll("B", assignment(8), 4, 5)];
    assert_eq!(coordinator(&mut history, Some(10), &mut batch), Verdict::Publish(8));
    assert_eq!(history.spans().len(), 3);
    assert_eq!(coordinator(&mut history, Some(10), &mut batch), Verdict::Publish(8));
}

#[test]
fn coordinator_starts_from_the_initial_value() {
    let mut history = History::new();
    let mut batch = Vec::new();
    assert_eq!(coordinator(&mut history, Some(10), &mut batch), Verdict::Publish(10));
    assert_eq!(coordinator(&mut history, None, &mut batch), Verdict::Conflict);
}

#[test]
fn coordinator_keeps_the_history_through_a_conflict() {
    let mut history = History::new();
    let mut batch = vec![poll("A", assignment(5), 0, 5), poll("B", assignment(7), 2, 7)];
    assert_eq!(coordinator(&mut history, Some(10), &mut batch), Verdict::Conflict);
    let mut batch = vec![poll("A", assignment(9), 10, 11)];
    assert_eq!(coordinator(&mut history, Some(10), &mut batch), Verdict::Publish(9));
    assert_eq!(history.spans(), vec![span(0, 7), span(10, 11)]);
}

#[test]
fn coordinator_reports_a_broken_producer() {
    let mut history = History::new();
    let mut batch = vec![poll("A", mutation(-1), 2, 5), poll("A", mutation(-1), 2, 7)];
    assert_eq!(coordinator(&mut history, Some(10), &mut batch), Verdict::Malformed);
    assert_eq!(history.spans(), vec![span(2, 7)]);
}

#[test]
fn coordinator_stops_at_a_malformed_interval() {
    let mut history = History::new();
    let mut batch = vec![
        poll("A", mutation(-1), 0, 1),
        poll("B", mutation(-1), 9, 4),
        poll("C", mutation(-1), 20, 30),
    ];
    assert_eq!(coordinator(&mut history, Some(10), &mut batch), Verdict::Malformed);
    assert!(batch.is_empty());
    assert_eq!(history.spans(), vec![span(0, 1)]);
    assert_eq!(history.apply(Some(10)), Some(9));
}

#[test]
fn many_observations_in_reverse_order() {
    let mut observations = Vec::new();
    for k in (0..40u64).rev() {
        observations.push(poll("A", mutation(1), 10 * k, 10 * k + 3));
        observations.push(record("R", mutation(1), 10 * k + 2, 10 * k + 5));
    }
    let history = history_of(&observations);
    let plan = history.get_execution();
    assert_eq!(plan.len(), 40);
    for (k, level) in plan.iter().enumerate() {
        assert_eq!(level.len(), 2);
        assert_eq!(level[0].interval.0 .0, 10 * k as u64);
    }
    assert_eq!(history.apply(Some(0)), Some(80));
}
