//! What a simulation run decides: the true value behind the platforms, and
//! how long the inferred value takes to agree with it.

use vstd::prelude::*;
use crate::inference::interval::Tick;
use crate::observers::mocked::poll_platform::Event;
use crate::value::Value;

verus! {

/// The value after the first `n` of `events` happened to `initial`, one after
/// the other, or `None` if one of them could not happen.
pub open spec fn value_after(initial: Value, events: Seq<Event>, n: int) -> Option<Value>
    decreases n,
{
    if n <= 0 {
        Some(initial)
    } else {
        match value_after(initial, events, n - 1) {
            Some(v) => events[n - 1].0.applied(v),
            None => None,
        }
    }
}

/// The true value: what `initial` becomes when all `events` happen to it in
/// turn. `None` if one of them cannot happen to the value it meets.
pub fn true_value(initial: Value, events: &Vec<Event>) -> (r: Option<Value>)
    ensures
        r == value_after(initial, events@, events.len() as int),
{
    let mut value = initial;
    let mut i: usize = 0;
    while i < events.len()
        invariant
            0 <= i <= events.len(),
            value_after(initial, events@, i as int) == Some(value),
        decreases events.len() - i,
    {
        match events[i].0.apply(&value) {
            Some(v) => {
                value = v;
            },
            None => {
                proof {
                    lemma_failure_lasts(initial, events@, i + 1, events.len() as int);
                }
                return None;
            },
        }
        i += 1;
    }
    Some(value)
}

/// Once an event could not happen, no value comes back.
proof fn lemma_failure_lasts(initial: Value, events: Seq<Event>, n: int, m: int)
    requires
        0 <= n <= m,
        value_after(initial, events, n) is None,
    ensures
        value_after(initial, events, m) is None,
    decreases m - n,
{
    if n < m {
        lemma_failure_lasts(initial, events, n, m - 1);
    }
}

/// The sum of `times`.
pub open spec fn total(times: Seq<Tick>) -> int
    decreases times.len(),
{
    if times.len() == 0 {
        0
    } else {
        total(times.drop_last()) + times.last()
    }
}

/// Whether the inferred value agrees with the true one, for how many ticks it
/// has not, and how long each disagreement before took.
pub struct ConvergenceTracker {
    pub consistent: bool,
    pub time_to_convergence: Tick,
    pub convergence_times: Vec<Tick>,
}

impl ConvergenceTracker {
    /// A tracker at the start of a run: the values agree.
    pub fn new() -> (r: Self)
        ensures
            r.consistent,
            r.time_to_convergence == 0,
            r.convergence_times@ == Seq::<Tick>::empty(),
    {
        ConvergenceTracker { consistent: true, time_to_convergence: 0, convergence_times: Vec::new() }
    }

    /// Takes the values of one tick. A disagreement lasts one tick longer. An
    /// agreement after a disagreement ends it: its length is recorded.
    pub fn observe(&mut self, observed: Value, truth: Value)
        requires
            old(self).time_to_convergence < u64::MAX,
        ensures
            final(self).consistent == (observed == truth),
            observed != truth ==> {
                &&& final(self).time_to_convergence == old(self).time_to_convergence + 1
                &&& final(self).convergence_times@ == old(self).convergence_times@
            },
            observed == truth && !old(self).consistent ==> {
                &&& final(self).time_to_convergence == 0
                &&& final(self).convergence_times@ == old(self).convergence_times@.push(
                    old(self).time_to_convergence,
                )
            },
            observed == truth && old(self).consistent ==> {
                &&& final(self).time_to_convergence == old(self).time_to_convergence
                &&& final(self).convergence_times@ == old(self).convergence_times@
            },
    {
        if observed != truth {
            self.consistent = false;
        }
        if !self.consistent {
            if observed == truth {
                self.consistent = true;
                self.convergence_times.push(self.time_to_convergence);
                self.time_to_convergence = 0;
            } else {
                self.time_to_convergence += 1;
            }
        }
    }

    /// The mean length of the disagreements that have ended, rounded down, if
    /// there was one.
    pub fn average(&self) -> (r: Option<Tick>)
        ensures
            self.convergence_times@.len() == 0 ==> r is None,
            self.convergence_times@.len() > 0 ==> r == Some(
                (total(self.convergence_times@) / (self.convergence_times@.len() as int)) as Tick,
            ),
    {
        let n = self.convergence_times.len();
        if n == 0 {
            return None;
        }
        let ghost times = self.convergence_times@;
        let mut sum: u128 = 0;
        let mut i: usize = 0;
        assert(times.take(0) =~= Seq::<Tick>::empty());
        while i < n
            invariant
                0 <= i <= n,
                n == self.convergence_times.len(),
                times == self.convergence_times@,
                sum == total(times.take(i as int)),
                sum <= i * u64::MAX,
            decreases n - i,
        {
            proof {
                assert(times.take(i + 1).drop_last() =~= times.take(i as int));
                assert(times.take(i + 1).last() == times[i as int]);
                assert((i + 1) * u64::MAX == i * u64::MAX + u64::MAX) by (nonlinear_arith);
                assert(i * u64::MAX <= usize::MAX * u64::MAX) by (nonlinear_arith)
                    requires
                        i <= usize::MAX,
                ;
            }
            sum = sum + self.convergence_times[i] as u128;
            i += 1;
        }
        proof {
            assert(times.take(n as int) =~= times);
            assert(sum / (n as u128) <= u64::MAX) by (nonlinear_arith)
                requires
                    sum <= n * u64::MAX,
                    n > 0,
            ;
        }
        Some((sum / (n as u128)) as Tick)
    }
}

} // verus!
