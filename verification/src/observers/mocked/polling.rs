//! A simulated poller: it reads a platform's value again and again and reports
//! each change it sees as one observation.

use vstd::prelude::*;
use crate::inference::interval::{Interval, Moment, Tick};
use crate::observations::{
    DefinitionPredicate, Observation, ObservationView, PollingInterpretation, SourceKind,
    SourceView,
};
use crate::observers::mocked::poll_platform::MockPlatform;
use crate::value::{Value, wrap, sub_values};

verus! {

/// The poll that is under way: when it is sent, when the platform reads its
/// value, the value read, and when the reply arrives.
#[derive(Debug, Clone, Copy, PartialEq, Eq, Structural)]
pub struct ActivePollState {
    pub send_at: Tick,
    pub process_at: Tick,
    pub value: Option<Value>,
    pub reply_at: Tick,
}

/// The poll that was answered last.
#[derive(Debug, Clone, Copy, PartialEq, Eq, Structural)]
pub struct HistoricPollState {
    pub sent: Tick,
    pub process: Tick,
    pub value: Value,
    pub replied: Tick,
}

/// A simulated poller.
pub struct MockPoller {
    pub current: ActivePollState,
    pub last: Option<HistoricPollState>,
    pub backoff: Tick,
    pub interpretation: PollingInterpretation,
}

/// What a simulated poller saw, without its source.
#[derive(Debug)]
pub struct MockObservation {
    pub interval: (Tick, Tick),
    pub definition: DefinitionPredicate,
}

/// How a change from `before` to `after` is read.
pub open spec fn interpreted(
    interpretation: PollingInterpretation,
    before: Value,
    after: Value,
) -> DefinitionPredicate {
    match interpretation {
        PollingInterpretation::Mutation => DefinitionPredicate::Mutation {
            delta: wrap(after - before),
        },
        PollingInterpretation::Assignment => DefinitionPredicate::Assignment { v_new: after },
        PollingInterpretation::Transition => DefinitionPredicate::Transition {
            v_0: before,
            v_1: after,
        },
    }
}

/// Reads a change from `before` to `after` as a predicate.
pub fn interpret(interpretation: &PollingInterpretation, before: Value, after: Value) -> (r:
    DefinitionPredicate)
    ensures
        r == interpreted(*interpretation, before, after),
{
    match interpretation {
        PollingInterpretation::Mutation => DefinitionPredicate::Mutation {
            delta: sub_values(after, before),
        },
        PollingInterpretation::Assignment => DefinitionPredicate::Assignment { v_new: after },
        PollingInterpretation::Transition => DefinitionPredicate::Transition {
            v_0: before,
            v_1: after,
        },
    }
}

impl MockPoller {
    /// The value that the poll under way holds after the tick `now`.
    pub open spec fn value_read(self, now: Tick, platform_value: Value) -> Option<Value> {
        if self.current.process_at == now {
            Some(platform_value)
        } else {
            self.current.value
        }
    }

    /// The tick `now` can be taken: a reply that arrives now has a value to
    /// bring, and the next poll can be set.
    pub open spec fn can_tick(self, now: Tick, process_delay: Tick, reply_delay: Tick) -> bool {
        self.current.reply_at == now ==> {
            &&& (self.current.value is Some || self.current.process_at == now)
            &&& now + self.backoff + process_delay + reply_delay <= u64::MAX
        }
    }

    /// The poller after the tick `now`.
    pub open spec fn after_tick(
        self,
        now: Tick,
        platform_value: Value,
        process_delay: Tick,
        reply_delay: Tick,
    ) -> MockPoller {
        let read = self.value_read(now, platform_value);
        if self.current.reply_at == now {
            MockPoller {
                current: ActivePollState {
                    send_at: (now + self.backoff) as Tick,
                    process_at: (now + self.backoff + process_delay) as Tick,
                    value: None,
                    reply_at: (now + self.backoff + process_delay + reply_delay) as Tick,
                },
                last: Some(
                    HistoricPollState {
                        sent: self.current.send_at,
                        process: self.current.process_at,
                        value: read->Some_0,
                        replied: self.current.reply_at,
                    },
                ),
                backoff: self.backoff,
                interpretation: self.interpretation,
            }
        } else {
            MockPoller {
                current: ActivePollState {
                    send_at: self.current.send_at,
                    process_at: self.current.process_at,
                    value: read,
                    reply_at: self.current.reply_at,
                },
                last: self.last,
                backoff: self.backoff,
                interpretation: self.interpretation,
            }
        }
    }

    /// What the poller reports at the tick `now`: the change since the poll
    /// before, if the reply arrives now and the value differs.
    pub open spec fn sighting(self, now: Tick, platform_value: Value, name: Seq<char>) -> Option<
        ObservationView,
    > {
        let read = self.value_read(now, platform_value);
        if self.current.reply_at == now && self.last is Some && self.last->Some_0.value
            != read->Some_0 {
            Some(
                ObservationView {
                    definition: interpreted(
                        self.interpretation,
                        self.last->Some_0.value,
                        read->Some_0,
                    ),
                    interval: Interval(
                        Moment(self.last->Some_0.sent),
                        Moment(self.current.reply_at),
                    ),
                    source: SourceView::Polling(name),
                },
            )
        } else {
            None
        }
    }

    /// A poller that sends its first poll at tick 0. The platform reads the
    /// value `process_delay` ticks later, and the reply takes `reply_delay`
    /// ticks more.
    pub fn new(
        backoff: Tick,
        interpretation: PollingInterpretation,
        process_delay: Tick,
        reply_delay: Tick,
    ) -> (r: Self)
        requires
            process_delay + reply_delay <= u64::MAX,
        ensures
            r.current == (ActivePollState {
                send_at: 0,
                process_at: process_delay,
                value: None,
                reply_at: (process_delay + reply_delay) as Tick,
            }),
            r.last is None,
            r.backoff == backoff,
            r.interpretation == interpretation,
    {
        MockPoller {
            current: ActivePollState {
                send_at: 0,
                process_at: process_delay,
                value: None,
                reply_at: process_delay + reply_delay,
            },
            last: None,
            backoff,
            interpretation,
        }
    }

    /// One tick of the poller. At the tick of processing the platform's value
    /// is read. At the tick of the reply a change since the last poll is
    /// reported, the poll becomes the last one, and the next poll is set
    /// `backoff` ticks ahead, with the delays given.
    pub fn do_tick(
        &mut self,
        now: &Tick,
        platform: &MockPlatform,
        process_delay: Tick,
        reply_delay: Tick,
    ) -> (r: Option<Observation>)
        requires
            old(self).can_tick(*now, process_delay, reply_delay),
        ensures
            *final(self) == old(self).after_tick(*now, platform.value, process_delay, reply_delay),
            r is Some == old(self).sighting(*now, platform.value, platform.config.name@) is Some,
            r is Some ==> r->Some_0@ == old(self).sighting(
                *now,
                platform.value,
                platform.config.name@,
            )->Some_0,
    {
        let mut ret: Option<Observation> = None;
        if self.current.process_at == *now {
            self.current.value = Some(platform.value);
        }
        if self.current.reply_at == *now {
            let value = match self.current.value {
                Some(v) => v,
                None => platform.value,
            };
            match self.last {
                Some(last) => {
                    if last.value != value {
                        ret = Some(
                            Observation {
                                interval: Interval(
                                    Moment(last.sent),
                                    Moment(self.current.reply_at),
                                ),
                                definition: interpret(&self.interpretation, last.value, value),
                                source: SourceKind::Polling(platform.config.name.clone()),
                            },
                        );
                    }
                },
                None => {},
            }
            self.last = Some(
                HistoricPollState {
                    sent: self.current.send_at,
                    process: self.current.process_at,
                    replied: self.current.reply_at,
                    value,
                },
            );
            let next_send_at = *now + self.backoff;
            let next_process_at = next_send_at + process_delay;
            let next_reply_at = next_process_at + reply_delay;
            self.current = ActivePollState {
                send_at: next_send_at,
                process_at: next_process_at,
                value: None,
                reply_at: next_reply_at,
            };
        }
        ret
    }
}

} // verus!
