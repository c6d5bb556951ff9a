//! A simulated platform that keeps a record of its sales, stamped by a clock
//! of its own.

use vstd::prelude::*;
use crate::inference::interval::Tick;
use crate::observations::DefinitionPredicate;
use crate::observers::mocked::poll_platform::Event;
use crate::value::{Value, plus};

verus! {

/// The configuration of a simulated record platform.
pub struct MockRecordPlatformConfig {
    pub name: String,
    /// The step of the platform's clock, in ticks.
    pub clock_precision: Tick,
}

/// A simulated record platform: the value it holds, the sales it has recorded
/// since they were last read, and the tick of its next sale.
pub struct MockRecordPlatform {
    pub value: Value,
    pub events: Vec<Event>,
    pub config: MockRecordPlatformConfig,
    pub next_sale: Tick,
}

/// What a clock with the step `precision` shows when it is `deviation` ticks
/// ahead of the tick `now`.
pub open spec fn clock_reading(now: Tick, deviation: Tick, precision: Tick) -> int {
    ((now + deviation) / (precision as int)) * precision
}

impl MockRecordPlatform {
    /// A platform that holds `initial_value`, has recorded nothing, and sells
    /// first at `first_sale`.
    pub fn new(config: MockRecordPlatformConfig, initial_value: Value, first_sale: Tick) -> (r:
        Self)
        ensures
            r.value == initial_value,
            r.events@ == Seq::<Event>::empty(),
            r.config == config,
            r.next_sale == first_sale,
    {
        MockRecordPlatform { value: initial_value, events: Vec::new(), config, next_sale: first_sale }
    }

    /// The time that the platform's clock shows at tick `now`, when it is
    /// `deviation` ticks ahead: rounded down to the step of the clock.
    pub fn get_deviating_clock(&self, now: &Tick, deviation: Tick) -> (r: Tick)
        requires
            self.config.clock_precision > 0,
            *now + deviation <= u64::MAX,
        ensures
            r == clock_reading(*now, deviation, self.config.clock_precision),
            r <= *now + deviation,
    {
        let shown = *now + deviation;
        let precision = self.config.clock_precision;
        proof {
            vstd::arithmetic::div_mod::lemma_fundamental_div_mod(shown as int, precision as int);
            vstd::arithmetic::div_mod::lemma_mod_bound(shown as int, precision as int);
            vstd::arithmetic::div_mod::lemma_div_pos_is_pos(shown as int, precision as int);
            assert(precision * (shown as int / precision as int) == (shown as int
                / precision as int) * precision) by (nonlinear_arith);
        }
        (shown / precision) * precision
    }

    /// The sale of one unit at tick `now`.
    pub fn make_sale(&self, now: &Tick) -> (r: Event)
        ensures
            r == (DefinitionPredicate::Mutation { delta: -1i64 }, *now),
    {
        (DefinitionPredicate::Mutation { delta: -1 }, *now)
    }

    /// One tick of the platform. When the next sale is due, one unit is sold,
    /// the sale is recorded under the time that the platform's clock shows,
    /// and returned under the true tick. The sale after it is set `delay`
    /// ticks ahead.
    pub fn do_tick(&mut self, now: &Tick, deviation: Tick, delay: Tick) -> (r: Option<Event>)
        requires
            old(self).config.clock_precision > 0,
            *now + deviation <= u64::MAX,
            *now + delay <= u64::MAX,
        ensures
            final(self).config == old(self).config,
            *now >= old(self).next_sale ==> {
                &&& r == Some((DefinitionPredicate::Mutation { delta: -1i64 }, *now))
                &&& final(self).value == plus(old(self).value, -1i64)
                &&& final(self).next_sale == *now + delay
                &&& final(self).events@ == old(self).events@.push(
                    (
                        DefinitionPredicate::Mutation { delta: -1i64 },
                        clock_reading(*now, deviation, old(self).config.clock_precision) as Tick,
                    ),
                )
            },
            *now < old(self).next_sale ==> {
                &&& r is None
                &&& final(self).value == old(self).value
                &&& final(self).next_sale == old(self).next_sale
                &&& final(self).events@ == old(self).events@
            },
    {
        if *now >= self.next_sale {
            let event = self.make_sale(now);
            match event.0.apply(&self.value) {
                Some(v) => {
                    self.value = v;
                },
                None => {},
            }
            let deviating_clock = self.get_deviating_clock(now, deviation);
            self.events.push((event.0, deviating_clock));
            self.next_sale = *now + delay;
            return Some(event);
        }
        None
    }
}

} // verus!
