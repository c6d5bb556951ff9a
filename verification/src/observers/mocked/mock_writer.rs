//! Simulated writers: they bring a value back onto a simulated platform.

use vstd::prelude::*;
use crate::inference::interval::Tick;
use crate::observers::mocked::poll_platform::MockPlatform;
use crate::observers::mocked::polling::{HistoricPollState, MockPoller};
use crate::value::Value;

verus! {

/// A writer whose write takes no time.
pub struct InstantWriter {
    do_at: Option<Tick>,
    to_write: Option<Value>,
}

impl InstantWriter {
    /// The tick at which the pending write is due.
    pub closed spec fn due(&self) -> Option<Tick> {
        self.do_at
    }

    /// The value of the pending write.
    pub closed spec fn pending(&self) -> Option<Value> {
        self.to_write
    }

    /// A write that is due has a value.
    pub open spec fn wf(&self) -> bool {
        self.due() is Some ==> self.pending() is Some
    }

    /// A writer with nothing to write.
    pub fn new() -> (r: Self)
        ensures
            r.due() is None,
            r.pending() is None,
            r.wf(),
    {
        InstantWriter { do_at: None, to_write: None }
    }

    /// Schedules the write of `value`: now, if the poll under way is not sent
    /// yet, else in the instant in which its reply arrives.
    pub fn do_write(&mut self, value: Value, poller: &mut MockPoller, now: &Tick)
        ensures
            final(self).pending() == Some(value),
            final(self).due() == Some(
                if *now >= old(poller).current.send_at {
                    old(poller).current.reply_at
                } else {
                    *now
                },
            ),
            final(self).wf(),
            *final(poller) == *old(poller),
    {
        if *now >= poller.current.send_at {
            self.do_at = Some(poller.current.reply_at);
        } else {
            self.do_at = Some(*now);
        }
        self.to_write = Some(value);
    }

    /// One tick of the writer. A write that is due now sets the platform's
    /// value, becomes the poller's last poll, and is done.
    pub fn do_tick(&mut self, platform: &mut MockPlatform, observer: &mut MockPoller, now: &Tick)
        requires
            old(self).wf(),
        ensures
            final(self).wf(),
            old(self).due() == Some(*now) ==> {
                &&& final(self).due() is None
                &&& final(self).pending() is None
                &&& final(platform).value == old(self).pending()->Some_0
                &&& final(platform).config == old(platform).config
                &&& final(platform).next_sale == old(platform).next_sale
                &&& final(observer).last == Some(
                    HistoricPollState {
                        sent: *now,
                        process: *now,
                        value: old(self).pending()->Some_0,
                        replied: *now,
                    },
                )
                &&& final(observer).current == old(observer).current
                &&& final(observer).backoff == old(observer).backoff
                &&& final(observer).interpretation == old(observer).interpretation
            },
            old(self).due() != Some(*now) ==> {
                &&& final(self).due() == old(self).due()
                &&& final(self).pending() == old(self).pending()
                &&& *final(platform) == *old(platform)
                &&& *final(observer) == *old(observer)
            },
    {
        match (self.do_at, self.to_write) {
            (Some(at), Some(value)) => {
                if at == *now {
                    platform.value = value;
                    observer.last = Some(
                        HistoricPollState { sent: *now, process: *now, value, replied: *now },
                    );
                    self.do_at = None;
                    self.to_write = None;
                }
            },
            _ => {},
        }
    }
}

/// Writes `value` through `observer` in no time. Nothing is written yet.
pub fn instant_write(observer: &mut MockPoller, value: Value, now: &Tick)
    ensures
        *final(observer) == *old(observer),
{
}

/// A writer whose write takes time to reach the platform and to be answered.
pub struct LossyWriter {
    pub to_write: Option<Value>,
    pub send_at: Option<Tick>,
    pub process_at: Option<Tick>,
    pub reply_at: Option<Tick>,
}

impl LossyWriter {
    /// A write that is on its way has a value.
    pub open spec fn wf(&self) -> bool {
        self.process_at is Some ==> self.to_write is Some
    }

    /// The write of `value` can be scheduled at the tick `now`.
    pub open spec fn can_write(
        poller: MockPoller,
        now: Tick,
        write_delays: (Tick, Tick),
        poll_delays: (Tick, Tick),
    ) -> bool {
        if now >= poller.current.send_at {
            poller.current.reply_at + write_delays.0 + write_delays.1 <= u64::MAX
        } else {
            now + write_delays.0 + write_delays.1 + 1 + poll_delays.0 + poll_delays.1 <= u64::MAX
        }
    }

    /// A writer with nothing to write.
    pub fn new() -> (r: Self)
        ensures
            r.to_write is None,
            r.send_at is None,
            r.process_at is None,
            r.reply_at is None,
            r.wf(),
    {
        LossyWriter { send_at: None, to_write: None, process_at: None, reply_at: None }
    }

    /// Schedules the write of `value`. If the poll under way is sent already,
    /// the write is sent when its reply arrives. If not, the write is sent
    /// now, the poll is put off until the write is answered, and the poller
    /// takes the written value for the last it saw.
    pub fn do_write(
        &mut self,
        value: Value,
        poller: &mut MockPoller,
        now: &Tick,
        write_delays: (Tick, Tick),
        poll_delays: (Tick, Tick),
    )
        requires
            Self::can_write(*old(poller), *now, write_delays, poll_delays),
        ensures
            final(self).wf(),
            final(self).to_write == Some(value),
            final(poller).backoff == old(poller).backoff,
            final(poller).interpretation == old(poller).interpretation,
            *now >= old(poller).current.send_at ==> {
                &&& final(self).send_at == Some(old(poller).current.reply_at)
                &&& final(self).process_at == Some(
                    (old(poller).current.reply_at + write_delays.0) as Tick,
                )
                &&& final(self).reply_at == Some(
                    (old(poller).current.reply_at + write_delays.0 + write_delays.1) as Tick,
                )
                &&& *final(poller) == *old(poller)
            },
            *now < old(poller).current.send_at ==> {
                &&& final(self).send_at == old(self).send_at
                &&& final(self).process_at == Some((*now + write_delays.0) as Tick)
                &&& final(self).reply_at == Some((*now + write_delays.0 + write_delays.1) as Tick)
                &&& final(poller).current.send_at == *now + write_delays.0 + write_delays.1 + 1
                &&& final(poller).current.process_at == final(poller).current.send_at
                    + poll_delays.0
                &&& final(poller).current.reply_at == final(poller).current.process_at
                    + poll_delays.1
                &&& final(poller).current.value == old(poller).current.value
                &&& final(poller).last == Some(
                    HistoricPollState {
                        sent: *now,
                        process: 0,
                        value,
                        replied: (*now + write_delays.0 + write_delays.1) as Tick,
                    },
                )
            },
    {
        self.to_write = Some(value);
        if *now >= poller.current.send_at {
            let send_at = poller.current.reply_at;
            let process_at = send_at + write_delays.0;
            let reply_at = process_at + write_delays.1;
            self.send_at = Some(send_at);
            self.process_at = Some(process_at);
            self.reply_at = Some(reply_at);
        } else {
            let send_at = *now;
            let process_at = send_at + write_delays.0;
            let reply_at = process_at + write_delays.1;
            self.process_at = Some(process_at);
            self.reply_at = Some(reply_at);
            poller.current.send_at = reply_at + 1;
            poller.current.process_at = poller.current.send_at + poll_delays.0;
            poller.current.reply_at = poller.current.process_at + poll_delays.1;
            poller.last = Some(
                HistoricPollState { sent: send_at, process: 0, value, replied: reply_at },
            );
        }
    }

    /// One tick of the writer. A write that reaches the platform now sets its
    /// value and is done.
    pub fn do_tick(&mut self, platform: &mut MockPlatform, now: &Tick)
        requires
            old(self).wf(),
        ensures
            final(self).wf(),
            final(platform).config == old(platform).config,
            final(platform).next_sale == old(platform).next_sale,
            old(self).process_at == Some(*now) ==> {
                &&& final(platform).value == old(self).to_write->Some_0
                &&& final(self).to_write is None
                &&& final(self).send_at is None
                &&& final(self).process_at is None
                &&& final(self).reply_at is None
            },
            old(self).process_at != Some(*now) ==> {
                &&& final(platform).value == old(platform).value
                &&& *final(self) == *old(self)
            },
    {
        match (self.process_at, self.to_write) {
            (Some(at), Some(value)) => {
                if at == *now {
                    platform.value = value;
                    self.process_at = None;
                    self.to_write = None;
                    self.send_at = None;
                    self.reply_at = None;
                }
            },
            _ => {},
        }
    }
}

} // verus!
