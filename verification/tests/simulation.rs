use reconciler::observations::DefinitionPredicate;
use reconciler::observers::square::{stock_total, StockCount};
use reconciler::simulation::{true_value, ConvergenceTracker};

fn sale() -> DefinitionPredicate {
    DefinitionPredicate::Mutation { delta: -1 }
}

#[test]
fn true_value_follows_the_events() {
    assert_eq!(true_value(10000, &vec![]), Some(10000));
    assert_eq!(true_value(10000, &vec![(sale(), 3), (sale(), 9), (sale(), 9)]), Some(9997));
    let events = vec![
        (sale(), 3),
        (DefinitionPredicate::Transition { v_0: 9, v_1: 20 }, 4),
        (DefinitionPredicate::Assignment { v_new: 5 }, 6),
        (sale(), 7),
    ];
    assert_eq!(true_value(10, &events), Some(4));
}

#[test]
fn true_value_is_lost_when_an_event_cannot_happen() {
    let events = vec![
        (sale(), 3),
        (DefinitionPredicate::Transition { v_0: 10, v_1: 20 }, 4),
        (DefinitionPredicate::Assignment { v_new: 5 }, 6),
    ];
    assert_eq!(true_value(10, &events), None);
}

#[test]
fn tracker_records_how_long_a_disagreement_lasts() {
    let mut tracker = ConvergenceTracker::new();
    assert!(tracker.consistent);
    assert_eq!(tracker.average(), None);
    tracker.observe(10, 10);
    assert!(tracker.consistent);
    assert_eq!(tracker.time_to_convergence, 0);
    tracker.observe(10, 9);
    tracker.observe(10, 9);
    tracker.observe(10, 8);
    assert!(!tracker.consistent);
    assert_eq!(tracker.time_to_convergence, 3);
    assert!(tracker.convergence_times.is_empty());
    tracker.observe(8, 8);
    assert!(tracker.consistent);
    assert_eq!(tracker.time_to_convergence, 0);
    assert_eq!(tracker.convergence_times, vec![3]);
    tracker.observe(8, 8);
    assert_eq!(tracker.convergence_times, vec![3]);
    tracker.observe(8, 7);
    tracker.observe(7, 7);
    assert_eq!(tracker.convergence_times, vec![3, 1]);
    assert_eq!(tracker.average(), Some(2));
    tracker.observe(7, 6);
    tracker.observe(7, 6);
    tracker.observe(6, 6);
    assert_eq!(tracker.convergence_times, vec![3, 1, 2]);
    assert_eq!(tracker.average(), Some(2));
}

#[test]
fn average_rounds_down_and_does_not_overflow() {
    let mut tracker = ConvergenceTracker::new();
    tracker.convergence_times = vec![1, 2];
    assert_eq!(tracker.average(), Some(1));
    tracker.convergence_times = vec![u64::MAX, u64::MAX, u64::MAX - 3];
    assert_eq!(tracker.average(), Some(u64::MAX - 1));
}

#[test]
fn stock_total_counts_units_in_stock() {
    assert_eq!(stock_total(&vec![]), 0);
    let counts = vec![
        StockCount { in_stock: true, quantity: 5 },
        StockCount { in_stock: false, quantity: 100 },
        StockCount { in_stock: true, quantity: 7 },
    ];
    assert_eq!(stock_total(&counts), 12);
    let counts = vec![
        StockCount { in_stock: true, quantity: i64::MAX },
        StockCount { in_stock: true, quantity: 1 },
    ];
    assert_eq!(stock_total(&counts), i64::MIN);
}
