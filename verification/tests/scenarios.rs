use reconciler::inference::history::NewHistory;
use reconciler::inference::interval::{Interval, Moment};
use reconciler::observations::{DefinitionPredicate, Observation, SourceKind};

fn poll(name: &str, definition: DefinitionPredicate, lo: u64, hi: u64) -> Observation {
    Observation {
        definition,
        interval: Interval(Moment(lo), Moment(hi)),
        source: SourceKind::Polling(name.to_string()),
    }
}

fn mutation(delta: i64) -> DefinitionPredicate {
    DefinitionPredicate::Mutation { delta }
}

fn assignment(v_new: i64) -> DefinitionPredicate {
    DefinitionPredicate::Assignment { v_new }
}

fn transition(v_0: i64, v_1: i64) -> DefinitionPredicate {
    DefinitionPredicate::Transition { v_0, v_1 }
}

fn infer(observations: Vec<Observation>, init: Option<i64>) -> Option<i64> {
    let mut history = NewHistory::new();
    for o in observations {
        history.add_new(o);
    }
    assert!(history.is_orderable());
    history.apply(init)
}

#[test]
fn simple_deterministic_chain() {
    let observations = vec![
        poll("A", mutation(-1), 0, 1),
        poll("A", mutation(-1), 2, 3),
        poll("B", assignment(8), 4, 5),
    ];
    assert_eq!(infer(observations, Some(10)), Some(8));
}

#[test]
fn simple_chain_without_assignment() {
    let observations = vec![poll("A", mutation(-1), 0, 1), poll("A", mutation(-1), 2, 3)];
    assert_eq!(infer(observations, Some(10)), Some(8));
}

#[test]
fn commuting_mutations_in_one_level() {
    let observations = vec![poll("A", mutation(-1), 0, 5), poll("B", mutation(-1), 2, 7)];
    assert_eq!(infer(observations, Some(10)), Some(8));
}

#[test]
fn commuting_mutations_form_one_level() {
    let mut history = NewHistory::new();
    history.add_new(poll("A", mutation(-1), 0, 5));
    history.add_new(poll("B", mutation(-1), 2, 7));
    let plan = history.get_execution();
    assert_eq!(plan.len(), 1);
    assert_eq!(plan[0].len(), 2);
    assert_eq!(NewHistory::definition(&plan[0]), Some(mutation(-2)));
}

#[test]
fn conflicting_assignments() {
    let observations = vec![poll("A", assignment(5), 0, 5), poll("B", assignment(7), 2, 7)];
    assert_eq!(infer(observations, Some(10)), None);
}

#[test]
fn conflict_then_recovery() {
    let observations = vec![
        poll("A", assignment(5), 0, 5),
        poll("B", assignment(7), 2, 7),
        poll("A", assignment(9), 10, 11),
    ];
    assert_eq!(infer(observations, Some(10)), Some(9));
}

#[test]
fn poisoning_transition() {
    let observations = vec![poll("A", transition(10, 8), 0, 5), poll("B", mutation(-1), 3, 6)];
    assert_eq!(infer(observations, Some(10)), None);
}

#[test]
fn transition_applied_alone() {
    let observations = vec![poll("A", transition(10, 8), 0, 1), poll("B", mutation(-1), 2, 3)];
    assert_eq!(infer(observations, Some(10)), Some(7));
}
