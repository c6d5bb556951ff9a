//! A simulated platform that sells one unit from time to time.

use vstd::prelude::*;
use crate::inference::interval::Tick;
use crate::observations::DefinitionPredicate;
use crate::value::{Value, plus};

verus! {

/// What happened on a platform, and the tick at which it happened.
pub type Event = (DefinitionPredicate, Tick);

/// The configuration of a simulated platform.
pub struct MockPlatformConfig {
    pub name: String,
}

/// A simulated platform: the value it holds and the tick of its next sale.
pub struct MockPlatform {
    pub value: Value,
    pub config: MockPlatformConfig,
    pub next_sale: Tick,
}

impl MockPlatform {
    /// A platform that holds `initial_value` and sells first at `first_sale`.
    pub fn new(config: MockPlatformConfig, initial_value: Value, first_sale: Tick) -> (r: Self)
        ensures
            r.value == initial_value,
            r.config == config,
            r.next_sale == first_sale,
    {
        MockPlatform { value: initial_value, config, next_sale: first_sale }
    }

    /// The sale of one unit at tick `now`.
    pub fn make_sale(&self, now: &Tick) -> (r: Event)
        ensures
            r == (DefinitionPredicate::Mutation { delta: -1i64 }, *now),
    {
        (DefinitionPredicate::Mutation { delta: -1i64 }, *now)
    }

    /// One tick of the platform. When the next sale is due, one unit is sold,
    /// the sale is returned, and the sale after it is set `delay` ticks ahead.
    pub fn do_tick(&mut self, now: &Tick, delay: Tick) -> (r: Option<Event>)
        requires
            *now + delay <= u64::MAX,
        ensures
            final(self).config == old(self).config,
            *now >= old(self).next_sale ==> {
                &&& r == Some((DefinitionPredicate::Mutation { delta: -1i64 }, *now))
                &&& final(self).value == plus(old(self).value, -1i64)
                &&& final(self).next_sale == *now + delay
            },
            *now < old(self).next_sale ==> {
                &&& r is None
                &&& final(self).value == old(self).value
                &&& final(self).next_sale == old(self).next_sale
            },
    {
        if *now >= self.next_sale {
            let event = self.make_sale(now);
            match event.0.apply(&self.value) {
                Some(v) => {
                    self.value = v;
                },
                None => {},
            }
            self.next_sale = *now + delay;
            return Some(event);
        }
        None
    }
}

} // verus!
