use std::sync::mpsc;

use reconciler::inference::interval::{Interval, Moment};
use reconciler::observations::{DefinitionPredicate, PollingInterpretation, SourceKind};
use reconciler::observers::mocked::mock_writer::{instant_write, InstantWriter, LossyWriter};
use reconciler::observers::mocked::poll_platform::{MockPlatform, MockPlatformConfig};
use reconciler::observers::mocked::polling::{
    interpret, ActivePollState, HistoricPollState, MockObservation, MockPoller,
};
use reconciler::observers::mocked::record::{
    DeviationState, MockObservation as RecordObservation, MockRecordPoller,
};
use reconciler::observers::mocked::record_platform::{MockRecordPlatform, MockRecordPlatformConfig};
use reconciler::vendor::Observer;

fn platform(value: i64, first_sale: u64) -> MockPlatform {
    MockPlatform::new(MockPlatformConfig { name: "PollPlatform".to_string() }, value, first_sale)
}

fn record_platform(value: i64, first_sale: u64, precision: u64) -> MockRecordPlatform {
    MockRecordPlatform::new(
        MockRecordPlatformConfig { name: "RecordPlatform".to_string(), clock_precision: precision },
        value,
        first_sale,
    )
}

fn sale() -> DefinitionPredicate {
    DefinitionPredicate::Mutation { delta: -1 }
}

#[test]
fn observer_is_made_from_its_configuration() {
    let observer = Observer::new("config".to_string());
    let (tx, _rx) = mpsc::channel::<()>();
    observer.poll_worker(tx);
}

#[test]
fn platform_sells_when_due() {
    let mut p = platform(100, 3);
    assert_eq!(p.do_tick(&2, 10), None);
    assert_eq!(p.value, 100);
    assert_eq!(p.next_sale, 3);
    assert_eq!(p.do_tick(&3, 10), Some((sale(), 3)));
    assert_eq!(p.value, 99);
    assert_eq!(p.next_sale, 13);
    assert_eq!(p.do_tick(&20, 0), Some((sale(), 20)));
    assert_eq!(p.value, 98);
    assert_eq!(p.next_sale, 20);
    assert_eq!(p.make_sale(&7), (sale(), 7));
    assert_eq!(p.config.name, "PollPlatform");
}

#[test]
fn changes_are_read_by_interpretation() {
    assert_eq!(
        interpret(&PollingInterpretation::Mutation, 10, 7),
        DefinitionPredicate::Mutation { delta: -3 }
    );
    assert_eq!(
        interpret(&PollingInterpretation::Assignment, 10, 7),
        DefinitionPredicate::Assignment { v_new: 7 }
    );
    assert_eq!(
        interpret(&PollingInterpretation::Transition, 10, 7),
        DefinitionPredicate::Transition { v_0: 10, v_1: 7 }
    );
}

#[test]
fn poller_starts_with_its_first_poll() {
    let poller = MockPoller::new(1000, PollingInterpretation::Mutation, 20, 21);
    assert_eq!(
        poller.current,
        ActivePollState { send_at: 0, process_at: 20, value: None, reply_at: 41 }
    );
    assert_eq!(poller.last, None);
    assert_eq!(poller.backoff, 1000);
    assert_eq!(poller.interpretation, PollingInterpretation::Mutation);
}

#[test]
fn poller_reports_a_change_between_polls() {
    let mut p = platform(100, 0);
    let mut poller = MockPoller::new(10, PollingInterpretation::Mutation, 2, 3);
    assert!(poller.do_tick(&0, &p, 1, 1).is_none());
    assert!(poller.do_tick(&2, &p, 1, 1).is_none());
    assert_eq!(poller.current.value, Some(100));
    assert!(poller.do_tick(&5, &p, 4, 6).is_none());
    assert_eq!(
        poller.last,
        Some(HistoricPollState { sent: 0, process: 2, value: 100, replied: 5 })
    );
    assert_eq!(
        poller.current,
        ActivePollState { send_at: 15, process_at: 19, value: None, reply_at: 25 }
    );
    p.value = 97;
    assert!(poller.do_tick(&19, &p, 1, 1).is_none());
    let seen = poller.do_tick(&25, &p, 1, 2).unwrap();
    assert_eq!(seen.definition, DefinitionPredicate::Mutation { delta: -3 });
    assert_eq!(seen.interval, Interval(Moment(0), Moment(25)));
    assert!(matches!(seen.source, SourceKind::Polling(ref name) if name == "PollPlatform"));
    assert_eq!(
        poller.last,
        Some(HistoricPollState { sent: 15, process: 19, value: 97, replied: 25 })
    );
    assert_eq!(
        poller.current,
        ActivePollState { send_at: 35, process_at: 36, value: None, reply_at: 38 }
    );
}

#[test]
fn poller_reports_nothing_without_a_change() {
    let p = platform(100, 0);
    let mut poller = MockPoller::new(10, PollingInterpretation::Transition, 0, 0);
    assert!(poller.do_tick(&0, &p, 0, 0).is_none());
    assert!(poller.do_tick(&10, &p, 0, 0).is_none());
    assert_eq!(
        poller.last,
        Some(HistoricPollState { sent: 10, process: 10, value: 100, replied: 10 })
    );
}

#[test]
fn poller_reads_transitions_and_assignments() {
    let mut p = platform(100, 0);
    let mut poller = MockPoller::new(10, PollingInterpretation::Transition, 0, 0);
    assert!(poller.do_tick(&0, &p, 0, 0).is_none());
    p.value = 90;
    let seen = poller.do_tick(&10, &p, 0, 0).unwrap();
    assert_eq!(seen.definition, DefinitionPredicate::Transition { v_0: 100, v_1: 90 });
    assert_eq!(seen.interval, Interval(Moment(0), Moment(10)));
    let mut poller = MockPoller::new(10, PollingInterpretation::Assignment, 0, 0);
    assert!(poller.do_tick(&0, &p, 0, 0).is_none());
    p.value = 80;
    let seen = poller.do_tick(&10, &p, 0, 0).unwrap();
    assert_eq!(seen.definition, DefinitionPredicate::Assignment { v_new: 80 });
}

#[test]
fn mock_observations_hold_plain_values() {
    let a = MockObservation { interval: (1, 2), definition: sale() };
    let b = RecordObservation { interval: (3, 4), definition: sale() };
    assert_eq!(a.interval, (1, 2));
    assert_eq!(b.definition, sale());
}

#[test]
fn instant_writer_writes_when_the_poll_replies() {
    let mut p = platform(100, 1000);
    let mut poller = MockPoller::new(10, PollingInterpretation::Mutation, 2, 3);
    let mut writer = InstantWriter::new();
    writer.do_tick(&mut p, &mut poller, &0);
    assert_eq!(p.value, 100);
    writer.do_write(42, &mut poller, &1);
    writer.do_tick(&mut p, &mut poller, &1);
    assert_eq!(p.value, 100);
    writer.do_tick(&mut p, &mut poller, &5);
    assert_eq!(p.value, 42);
    assert_eq!(poller.last, Some(HistoricPollState { sent: 5, process: 5, value: 42, replied: 5 }));
    p.value = 7;
    writer.do_tick(&mut p, &mut poller, &5);
    assert_eq!(p.value, 7);
}

#[test]
fn instant_writer_writes_now_before_the_poll_is_sent() {
    let mut p = platform(100, 1000);
    let mut poller = MockPoller::new(10, PollingInterpretation::Mutation, 0, 0);
    assert!(poller.do_tick(&0, &p, 1, 1).is_none());
    assert_eq!(poller.current.send_at, 10);
    let mut writer = InstantWriter::new();
    writer.do_write(42, &mut poller, &4);
    writer.do_tick(&mut p, &mut poller, &4);
    assert_eq!(p.value, 42);
    assert_eq!(poller.last, Some(HistoricPollState { sent: 4, process: 4, value: 42, replied: 4 }));
    instant_write(&mut poller, 3, &4);
    assert_eq!(poller.last, Some(HistoricPollState { sent: 4, process: 4, value: 42, replied: 4 }));
}

#[test]
fn lossy_writer_waits_for_the_poll_under_way() {
    let mut p = platform(100, 1000);
    let mut poller = MockPoller::new(10, PollingInterpretation::Mutation, 2, 3);
    let mut writer = LossyWriter::new();
    writer.do_write(42, &mut poller, &1, (4, 6), (1, 1));
    assert_eq!(writer.to_write, Some(42));
    assert_eq!(writer.send_at, Some(5));
    assert_eq!(writer.process_at, Some(9));
    assert_eq!(writer.reply_at, Some(15));
    assert_eq!(
        poller.current,
        ActivePollState { send_at: 0, process_at: 2, value: None, reply_at: 5 }
    );
    writer.do_tick(&mut p, &8);
    assert_eq!(p.value, 100);
    writer.do_tick(&mut p, &9);
    assert_eq!(p.value, 42);
    assert_eq!(writer.to_write, None);
    assert_eq!(writer.send_at, None);
    assert_eq!(writer.process_at, None);
    assert_eq!(writer.reply_at, None);
}

#[test]
fn lossy_writer_puts_the_next_poll_off() {
    let p = platform(100, 1000);
    let mut poller = MockPoller::new(10, PollingInterpretation::Mutation, 0, 0);
    assert!(poller.do_tick(&0, &p, 1, 1).is_none());
    let mut writer = LossyWriter::new();
    writer.do_write(42, &mut poller, &4, (2, 3), (5, 7));
    assert_eq!(writer.send_at, None);
    assert_eq!(writer.process_at, Some(6));
    assert_eq!(writer.reply_at, Some(9));
    assert_eq!(
        poller.current,
        ActivePollState { send_at: 10, process_at: 15, value: None, reply_at: 22 }
    );
    assert_eq!(poller.last, Some(HistoricPollState { sent: 4, process: 0, value: 42, replied: 9 }));
}

#[test]
fn record_platform_stamps_sales_with_its_own_clock() {
    let mut p = record_platform(100, 3, 10);
    assert_eq!(p.get_deviating_clock(&7, 500), 500);
    assert_eq!(p.get_deviating_clock(&17, 500), 510);
    assert_eq!(p.do_tick(&2, 500, 4), None);
    assert!(p.events.is_empty());
    assert_eq!(p.do_tick(&3, 519, 4), Some((sale(), 3)));
    assert_eq!(p.value, 99);
    assert_eq!(p.events, vec![(sale(), 520)]);
    assert_eq!(p.next_sale, 7);
    assert_eq!(p.make_sale(&9), (sale(), 9));
}

#[test]
fn record_poller_starts_knowing_nothing() {
    let poller = MockRecordPoller::new(1000, 1, (20, 21), (18, 19));
    assert_eq!(poller.backoff, 1000);
    assert_eq!(poller.clock_precision, 1);
    assert_eq!(poller.max_deviation, i64::MIN);
    assert_eq!(poller.min_deviation, i64::MAX);
    assert_eq!(
        poller.deviation_state,
        DeviationState { send_at: 0, process_at: 18, returned: None, reply_at: 37 }
    );
    assert_eq!(poller.poll_state.send_at, 0);
    assert_eq!(poller.poll_state.process_at, 20);
    assert!(poller.poll_state.returned.is_none());
    assert_eq!(poller.poll_state.reply_at, 41);
}

#[test]
fn record_poller_bounds_the_deviation() {
    let p = record_platform(100, 1000, 1);
    let mut poller = MockRecordPoller::new(100, 1, (50, 50), (2, 3));
    poller.calibrate(&2, &p, 500, 1, 1);
    assert_eq!(poller.deviation_state.returned, Some(502));
    assert_eq!(poller.max_deviation, i64::MIN);
    poller.calibrate(&5, &p, 500, 4, 6);
    assert_eq!(poller.max_deviation, 503);
    assert_eq!(poller.min_deviation, 497);
    assert_eq!(
        poller.deviation_state,
        DeviationState { send_at: 105, process_at: 109, returned: None, reply_at: 115 }
    );
    poller.calibrate(&109, &p, 498, 0, 0);
    poller.calibrate(&115, &p, 498, 1, 1);
    assert_eq!(poller.max_deviation, 503);
    assert_eq!(poller.min_deviation, 492);
}

#[test]
fn record_poller_turns_records_into_observations() {
    let mut p = record_platform(100, 4, 1);
    let mut poller = MockRecordPoller::new(100, 1, (10, 10), (2, 3));
    assert!(poller.do_tick(&2, &mut p, 500, (1, 1), (1, 1)).is_none());
    assert_eq!(p.do_tick(&4, 500, 2), Some((sale(), 4)));
    assert!(poller.do_tick(&5, &mut p, 500, (4, 6), (1, 1)).is_none());
    assert_eq!(p.do_tick(&6, 501, 100), Some((sale(), 6)));
    assert_eq!(p.events, vec![(sale(), 504), (sale(), 507)]);
    assert!(poller.do_tick(&10, &mut p, 500, (1, 1), (1, 1)).is_none());
    assert!(p.events.is_empty());
    assert_eq!(poller.poll_state.returned, Some(vec![(sale(), 504), (sale(), 507)]));
    let seen = poller.do_tick(&20, &mut p, 500, (1, 1), (7, 8)).unwrap();
    assert_eq!(seen.len(), 2);
    assert_eq!(seen[0].definition, sale());
    assert_eq!(seen[0].interval, Interval(Moment(1), Moment(7)));
    assert_eq!(seen[1].interval, Interval(Moment(4), Moment(10)));
    assert!(matches!(seen[1].source, SourceKind::Record(ref name) if name == "RecordPlatform"));
    assert_eq!(poller.poll_state.send_at, 120);
    assert_eq!(poller.poll_state.process_at, 127);
    assert_eq!(poller.poll_state.reply_at, 135);
    assert!(poller.poll_state.returned.is_none());
}

#[test]
fn record_poller_reports_nothing_without_records() {
    let mut p = record_platform(100, 1000, 1);
    let mut poller = MockRecordPoller::new(100, 1, (1, 1), (50, 50));
    poller.collect(&1, &mut p);
    assert_eq!(poller.poll_state.returned, Some(vec![]));
    let name = "RecordPlatform".to_string();
    assert!(poller.report(&2, &name, 3, 4).is_none());
    assert_eq!(poller.poll_state.send_at, 102);
    assert_eq!(poller.poll_state.process_at, 105);
    assert_eq!(poller.poll_state.reply_at, 109);
}
