//! A simulated reader of a platform's records. It learns how far the
//! platform's clock may deviate from its own, and turns each record's time
//! stamp into the interval in which the recorded event may have happened.

use vstd::prelude::*;
use crate::inference::interval::{Interval, Moment, Tick};
use crate::observations::{
    DefinitionPredicate, Observation, ObservationView, SourceKind, SourceView, views,
};
use crate::observers::mocked::poll_platform::Event;
use crate::observers::mocked::record_platform::{MockRecordPlatform, clock_reading};

verus! {

/// The clock request that is under way: when it is sent, when the platform
/// reads its clock, the time read, and when the reply arrives.
#[derive(Debug, Clone, Copy, PartialEq, Eq, Structural)]
pub struct DeviationState {
    pub send_at: Tick,
    pub process_at: Tick,
    pub returned: Option<Tick>,
    pub reply_at: Tick,
}

/// The record request that is under way: when it is sent, when the platform
/// hands out its records, the records, and when the reply arrives.
pub struct RecordPollState {
    pub send_at: Tick,
    pub process_at: Tick,
    pub returned: Option<Vec<Event>>,
    pub reply_at: Tick,
}

/// A simulated reader of records.
pub struct MockRecordPoller {
    pub backoff: Tick,
    pub clock_precision: Tick,
    /// The most that the platform's clock was seen to be ahead.
    pub max_deviation: i64,
    /// The least that the platform's clock was seen to be ahead.
    pub min_deviation: i64,
    pub deviation_state: DeviationState,
    pub poll_state: RecordPollState,
}

/// What a simulated reader saw, without its source.
#[derive(Debug)]
pub struct MockObservation {
    pub interval: (Tick, Tick),
    pub definition: DefinitionPredicate,
}

/// The request that follows one answered at tick `now`.
pub open spec fn next_request(now: Tick, backoff: Tick, process_delay: Tick, reply_delay: Tick) -> (
    Tick,
    Tick,
    Tick,
) {
    (
        (now + backoff) as Tick,
        (now + backoff + process_delay) as Tick,
        (now + backoff + process_delay + reply_delay) as Tick,
    )
}

/// The record `event`, read by a reader that knows the platform's clock to be
/// between `min_deviation` and `max_deviation` ticks ahead.
pub open spec fn stamped(event: Event, min_deviation: i64, max_deviation: i64, name: Seq<char>) -> ObservationView {
    ObservationView {
        definition: event.0,
        interval: Interval(
            Moment((event.1 - max_deviation) as Tick),
            Moment((event.1 - min_deviation) as Tick),
        ),
        source: SourceView::Record(name),
    }
}

/// The time stamp of `event` can be turned into an interval of ticks.
pub open spec fn can_stamp(event: Event, min_deviation: i64, max_deviation: i64) -> bool {
    &&& event.1 <= i64::MAX
    &&& 0 <= event.1 - max_deviation <= i64::MAX
    &&& 0 <= event.1 - min_deviation <= i64::MAX
}

impl MockRecordPoller {
    /// The time that the clock request holds after the tick `now`.
    pub open spec fn clock_read(self, now: Tick, clock_deviation: Tick, precision: Tick) -> Option<
        Tick,
    > {
        if self.deviation_state.process_at == now {
            Some(clock_reading(now, clock_deviation, precision) as Tick)
        } else {
            self.deviation_state.returned
        }
    }

    /// The clock request can take the tick `now`.
    pub open spec fn can_calibrate(
        self,
        now: Tick,
        clock_deviation: Tick,
        precision: Tick,
        process_delay: Tick,
        reply_delay: Tick,
    ) -> bool {
        &&& precision > 0
        &&& now + clock_deviation <= u64::MAX
        &&& self.deviation_state.reply_at == now ==> {
            &&& self.clock_read(now, clock_deviation, precision) is Some
            &&& self.clock_read(now, clock_deviation, precision)->Some_0 + self.clock_precision
                <= i64::MAX
            &&& self.deviation_state.send_at <= i64::MAX
            &&& now <= i64::MAX
            &&& now + self.backoff + process_delay + reply_delay <= u64::MAX
        }
    }

    /// The most that the platform's clock is known to be ahead after the tick
    /// `now`.
    pub open spec fn max_after(self, now: Tick, clock_deviation: Tick, precision: Tick) -> int {
        if self.deviation_state.reply_at == now {
            vstd::math::max(
                self.max_deviation as int,
                self.clock_read(now, clock_deviation, precision)->Some_0 + self.clock_precision
                    - self.deviation_state.send_at,
            )
        } else {
            self.max_deviation as int
        }
    }

    /// The least that the platform's clock is known to be ahead after the tick
    /// `now`.
    pub open spec fn min_after(self, now: Tick, clock_deviation: Tick, precision: Tick) -> int {
        if self.deviation_state.reply_at == now {
            vstd::math::min(
                self.min_deviation as int,
                self.clock_read(now, clock_deviation, precision)->Some_0 - now,
            )
        } else {
            self.min_deviation as int
        }
    }

    /// The clock request after the tick `now`.
    pub open spec fn request_after(
        self,
        now: Tick,
        clock_deviation: Tick,
        precision: Tick,
        process_delay: Tick,
        reply_delay: Tick,
    ) -> DeviationState {
        if self.deviation_state.reply_at == now {
            let next = next_request(now, self.backoff, process_delay, reply_delay);
            DeviationState { send_at: next.0, process_at: next.1, returned: None, reply_at: next.2 }
        } else {
            DeviationState {
                send_at: self.deviation_state.send_at,
                process_at: self.deviation_state.process_at,
                returned: self.clock_read(now, clock_deviation, precision),
                reply_at: self.deviation_state.reply_at,
            }
        }
    }

    /// A reader that sends its first requests at tick 0, each with its own
    /// delays, and knows nothing of the platform's clock yet.
    pub fn new(
        backoff: Tick,
        clock_precision: Tick,
        poll_delays: (Tick, Tick),
        deviation_delays: (Tick, Tick),
    ) -> (r: Self)
        requires
            poll_delays.0 + poll_delays.1 <= u64::MAX,
            deviation_delays.0 + deviation_delays.1 <= u64::MAX,
        ensures
            r.backoff == backoff,
            r.clock_precision == clock_precision,
            r.max_deviation == i64::MIN,
            r.min_deviation == i64::MAX,
            r.deviation_state == (DeviationState {
                send_at: 0,
                process_at: deviation_delays.0,
                returned: None,
                reply_at: (deviation_delays.0 + deviation_delays.1) as Tick,
            }),
            r.poll_state.send_at == 0,
            r.poll_state.process_at == poll_delays.0,
            r.poll_state.returned is None,
            r.poll_state.reply_at == poll_delays.0 + poll_delays.1,
    {
        MockRecordPoller {
            backoff,
            clock_precision,
            max_deviation: i64::MIN,
            min_deviation: i64::MAX,
            deviation_state: DeviationState {
                send_at: 0,
                process_at: deviation_delays.0,
                reply_at: deviation_delays.0 + deviation_delays.1,
                returned: None,
            },
            poll_state: RecordPollState {
                send_at: 0,
                process_at: poll_delays.0,
                returned: None,
                reply_at: poll_delays.0 + poll_delays.1,
            },
        }
    }

    /// One tick of the clock request. At the tick of processing the
    /// platform's clock is read. At the tick of the reply the time read bounds
    /// the deviation of the platform's clock: it was read no earlier than the
    /// request was sent and no later than now. The next request is set
    /// `backoff` ticks ahead.
    pub fn calibrate(
        &mut self,
        now: &Tick,
        platform: &MockRecordPlatform,
        clock_deviation: Tick,
        process_delay: Tick,
        reply_delay: Tick,
    )
        requires
            old(self).can_calibrate(
                *now,
                clock_deviation,
                platform.config.clock_precision,
                process_delay,
                reply_delay,
            ),
        ensures
            final(self).deviation_state == old(self).request_after(
                *now,
                clock_deviation,
                platform.config.clock_precision,
                process_delay,
                reply_delay,
            ),
            final(self).max_deviation == old(self).max_after(
                *now,
                clock_deviation,
                platform.config.clock_precision,
            ),
            final(self).min_deviation == old(self).min_after(
                *now,
                clock_deviation,
                platform.config.clock_precision,
            ),
            final(self).poll_state == old(self).poll_state,
            final(self).backoff == old(self).backoff,
            final(self).clock_precision == old(self).clock_precision,
    {
        if *now == self.deviation_state.process_at {
            self.deviation_state.returned = Some(platform.get_deviating_clock(now, clock_deviation));
        }
        if *now == self.deviation_state.reply_at {
            let observed_timestamp = match self.deviation_state.returned {
                Some(t) => t,
                None => 0,
            };
            let p_max = (observed_timestamp + self.clock_precision) as i64;
            let p_min = observed_timestamp as i64;
            let observed_max_deviation = p_max - (self.deviation_state.send_at as i64);
            let observed_min_deviation = p_min - (self.deviation_state.reply_at as i64);
            if observed_max_deviation > self.max_deviation {
                self.max_deviation = observed_max_deviation;
            }
            if observed_min_deviation < self.min_deviation {
                self.min_deviation = observed_min_deviation;
            }
            let new_send_at = *now + self.backoff;
            let new_process_at = new_send_at + process_delay;
            let new_reply_at = new_process_at + reply_delay;
            self.deviation_state = DeviationState {
                send_at: new_send_at,
                process_at: new_process_at,
                returned: None,
                reply_at: new_reply_at,
            };
        }
    }

    /// One tick of the record request on the platform's side. At the tick of
    /// processing the platform hands out the records it holds and keeps none.
    pub fn collect(&mut self, now: &Tick, platform: &mut MockRecordPlatform)
        ensures
            final(self).deviation_state == old(self).deviation_state,
            final(self).max_deviation == old(self).max_deviation,
            final(self).min_deviation == old(self).min_deviation,
            final(self).backoff == old(self).backoff,
            final(self).clock_precision == old(self).clock_precision,
            final(self).poll_state.send_at == old(self).poll_state.send_at,
            final(self).poll_state.process_at == old(self).poll_state.process_at,
            final(self).poll_state.reply_at == old(self).poll_state.reply_at,
            final(platform).value == old(platform).value,
            final(platform).config == old(platform).config,
            final(platform).next_sale == old(platform).next_sale,
            old(self).poll_state.process_at == *now ==> {
                &&& final(self).poll_state.returned is Some
                &&& final(self).poll_state.returned->Some_0@ == old(platform).events@
                &&& final(platform).events@ == Seq::<Event>::empty()
            },
            old(self).poll_state.process_at != *now ==> {
                &&& final(self).poll_state.returned == old(self).poll_state.returned
                &&& final(platform).events == old(platform).events
            },
    {
        if self.poll_state.process_at == *now {
            let mut taken: Vec<Event> = Vec::new();
            std::mem::swap(&mut taken, &mut platform.events);
            self.poll_state.returned = Some(taken);
        }
    }

    /// The records that the reply of tick `now` brings, if it brings any.
    pub open spec fn records_due(self, now: Tick) -> Option<Seq<Event>> {
        if self.poll_state.reply_at == now && self.poll_state.returned is Some
            && self.poll_state.returned->Some_0@.len() > 0 {
            Some(self.poll_state.returned->Some_0@)
        } else {
            None
        }
    }

    /// The record request can take its reply at the tick `now`.
    pub open spec fn can_report(self, now: Tick, process_delay: Tick, reply_delay: Tick) -> bool {
        self.poll_state.reply_at == now ==> {
            &&& now + self.backoff + process_delay + reply_delay <= u64::MAX
            &&& self.records_due(now) is Some ==> forall|i: int|
                0 <= i < self.records_due(now)->Some_0.len() ==> can_stamp(
                    #[trigger] self.records_due(now)->Some_0[i],
                    self.min_deviation,
                    self.max_deviation,
                )
        }
    }

    /// One tick of the record request on the reader's side. At the tick of
    /// the reply each record becomes an observation over the interval that
    /// the known deviation leaves open, and the next request is set `backoff`
    /// ticks ahead.
    pub fn report(&mut self, now: &Tick, name: &String, process_delay: Tick, reply_delay: Tick) -> (r:
        Option<Vec<Observation>>)
        requires
            old(self).can_report(*now, process_delay, reply_delay),
        ensures
            final(self).deviation_state == old(self).deviation_state,
            final(self).max_deviation == old(self).max_deviation,
            final(self).min_deviation == old(self).min_deviation,
            final(self).backoff == old(self).backoff,
            final(self).clock_precision == old(self).clock_precision,
            old(self).poll_state.reply_at != *now ==> final(self).poll_state == old(
                self,
            ).poll_state,
            old(self).poll_state.reply_at == *now ==> {
                &&& final(self).poll_state.returned is None
                &&& (
                    final(self).poll_state.send_at,
                    final(self).poll_state.process_at,
                    final(self).poll_state.reply_at,
                ) == next_request(*now, old(self).backoff, process_delay, reply_delay)
            },
            r is Some == old(self).records_due(*now) is Some,
            r is Some ==> views(r->Some_0@) == old(self).records_due(*now)->Some_0.map_values(
                |e: Event| stamped(e, old(self).min_deviation, old(self).max_deviation, name@),
            ),
    {
        let mut ret: Option<Vec<Observation>> = None;
        if self.poll_state.reply_at == *now {
            match &self.poll_state.returned {
                Some(records) => {
                    if records.len() > 0 {
                        let ghost due = records@;
                        let ghost stamp = |e: Event|
                            stamped(e, self.min_deviation, self.max_deviation, name@);
                        let mut build: Vec<Observation> = Vec::new();
                        let mut i: usize = 0;
                        proof {
                            assert(old(self).records_due(*now) == Some(due));
                            assert forall|j: int| 0 <= j < due.len() implies can_stamp(
                                #[trigger] due[j],
                                self.min_deviation,
                                self.max_deviation,
                            ) by {
                                assert(due[j] == old(self).records_due(*now)->Some_0[j]);
                            }
                            assert(views(build@) =~= due.take(0).map_values(stamp));
                        }
                        while i < records.len()
                            invariant
                                0 <= i <= records.len(),
                                due == records@,
                                stamp == (|e: Event|
                                    stamped(e, self.min_deviation, self.max_deviation, name@)),
                                forall|j: int|
                                    0 <= j < due.len() ==> can_stamp(
                                        #[trigger] due[j],
                                        self.min_deviation,
                                        self.max_deviation,
                                    ),
                                views(build@) == due.take(i as int).map_values(stamp),
                            decreases records.len() - i,
                        {
                            let (definition, timestamp) = records[i];
                            assert(can_stamp(due[i as int], self.min_deviation, self.max_deviation));
                            let max_timestamp = ((timestamp as i64) - self.min_deviation) as Tick;
                            let min_timestamp = ((timestamp as i64) - self.max_deviation) as Tick;
                            let ghost before = build@;
                            build.push(
                                Observation {
                                    definition,
                                    interval: Interval(Moment(min_timestamp), Moment(max_timestamp)),
                                    source: SourceKind::Record(name.clone()),
                                },
                            );
                            assert(views(build@) =~= views(before).push(stamp(due[i as int])));
                            assert(due.take(i + 1).map_values(stamp) =~= due.take(
                                i as int,
                            ).map_values(stamp).push(stamp(due[i as int])));
                            i += 1;
                        }
                        assert(due.take(due.len() as int) =~= due);
                        ret = Some(build);
                    }
                },
                None => {},
            }
            let new_send_at = *now + self.backoff;
            let new_process_at = new_send_at + process_delay;
            let new_reply_at = new_process_at + reply_delay;
            self.poll_state = RecordPollState {
                send_at: new_send_at,
                process_at: new_process_at,
                returned: None,
                reply_at: new_reply_at,
            };
        }
        ret
    }

    /// The records that a reply at the tick `now` brings, if it brings any,
    /// when the platform holds `platform_events` at that tick.
    pub open spec fn records_read(self, now: Tick, platform_events: Seq<Event>) -> Option<
        Seq<Event>,
    > {
        let held = if self.poll_state.process_at == now {
            Some(platform_events)
        } else if self.poll_state.returned is Some {
            Some(self.poll_state.returned->Some_0@)
        } else {
            None
        };
        if self.poll_state.reply_at == now && held is Some && held->Some_0.len() > 0 {
            held
        } else {
            None
        }
    }

    /// The tick `now` can be taken.
    pub open spec fn can_tick(
        self,
        now: Tick,
        platform: MockRecordPlatform,
        clock_deviation: Tick,
        deviation_delays: (Tick, Tick),
        poll_delays: (Tick, Tick),
    ) -> bool {
        let precision = platform.config.clock_precision;
        let records = self.records_read(now, platform.events@);
        &&& self.can_calibrate(now, clock_deviation, precision, deviation_delays.0, deviation_delays.1)
        &&& self.poll_state.reply_at == now ==> {
            &&& now + self.backoff + poll_delays.0 + poll_delays.1 <= u64::MAX
            &&& records is Some ==> forall|i: int|
                0 <= i < records->Some_0.len() ==> can_stamp(
                    #[trigger] records->Some_0[i],
                    self.min_after(now, clock_deviation, precision) as i64,
                    self.max_after(now, clock_deviation, precision) as i64,
                )
        }
    }

    /// One tick of the reader: the clock request first, then the record
    /// request on the platform's side, then on the reader's side. The
    /// observations that a reply brings are returned.
    pub fn do_tick(
        &mut self,
        now: &Tick,
        platform: &mut MockRecordPlatform,
        clock_deviation: Tick,
        deviation_delays: (Tick, Tick),
        poll_delays: (Tick, Tick),
    ) -> (r: Option<Vec<Observation>>)
        requires
            old(self).can_tick(*now, *old(platform), clock_deviation, deviation_delays, poll_delays),
        ensures
            final(self).deviation_state == old(self).request_after(
                *now,
                clock_deviation,
                old(platform).config.clock_precision,
                deviation_delays.0,
                deviation_delays.1,
            ),
            final(self).max_deviation == old(self).max_after(
                *now,
                clock_deviation,
                old(platform).config.clock_precision,
            ),
            final(self).min_deviation == old(self).min_after(
                *now,
                clock_deviation,
                old(platform).config.clock_precision,
            ),
            final(self).backoff == old(self).backoff,
            final(self).clock_precision == old(self).clock_precision,
            final(platform).value == old(platform).value,
            final(platform).config == old(platform).config,
            final(platform).next_sale == old(platform).next_sale,
            final(platform).events@ == (if old(self).poll_state.process_at == *now {
                Seq::<Event>::empty()
            } else {
                old(platform).events@
            }),
            old(self).poll_state.reply_at == *now ==> {
                &&& final(self).poll_state.returned is None
                &&& (
                    final(self).poll_state.send_at,
                    final(self).poll_state.process_at,
                    final(self).poll_state.reply_at,
                ) == next_request(*now, old(self).backoff, poll_delays.0, poll_delays.1)
            },
            old(self).poll_state.reply_at != *now ==> {
                &&& final(self).poll_state.send_at == old(self).poll_state.send_at
                &&& final(self).poll_state.process_at == old(self).poll_state.process_at
                &&& final(self).poll_state.reply_at == old(self).poll_state.reply_at
                &&& old(self).poll_state.process_at == *now ==> final(self).poll_state.returned
                    is Some && final(self).poll_state.returned->Some_0@ == old(platform).events@
                &&& old(self).poll_state.process_at != *now ==> final(self).poll_state.returned
                    == old(self).poll_state.returned
            },
            r is Some == old(self).records_read(*now, old(platform).events@) is Some,
            r is Some ==> views(r->Some_0@) == old(self).records_read(
                *now,
                old(platform).events@,
            )->Some_0.map_values(
                |e: Event|
                    stamped(
                        e,
                        final(self).min_deviation,
                        final(self).max_deviation,
                        old(platform).config.name@,
                    ),
            ),
    {
        self.calibrate(now, platform, clock_deviation, deviation_delays.0, deviation_delays.1);
        self.collect(now, platform);
        proof {
            let records = old(self).records_read(*now, old(platform).events@);
            assert(self.records_due(*now) == records);
            if self.poll_state.reply_at == *now && records is Some {
                assert forall|i: int| 0 <= i < records->Some_0.len() implies can_stamp(
                    #[trigger] self.records_due(*now)->Some_0[i],
                    self.min_deviation,
                    self.max_deviation,
                ) by {
                    assert(can_stamp(
                        records->Some_0[i],
                        old(self).min_after(
                            *now,
                            clock_deviation,
                            old(platform).config.clock_precision,
                        ) as i64,
                        old(self).max_after(
                            *now,
                            clock_deviation,
                            old(platform).config.clock_precision,
                        ) as i64,
                    ));
                }
            }
        }
        let name = platform.config.name.clone();
        self.report(now, &name, poll_delays.0, poll_delays.1)
    }
}

} // verus!
