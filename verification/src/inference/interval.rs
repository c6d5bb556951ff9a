//! Closed intervals on the shared time axis.

use vstd::prelude::*;

verus! {

/// A point on the time axis.
pub type Tick = u64;

/// A moment on the time axis, ordered by its tick.
#[derive(Debug, Clone, Copy, PartialEq, Eq, Structural)]
pub struct Moment(pub Tick);

/// The closed interval from its first moment to its second.
#[derive(Debug, Clone, Copy, PartialEq, Eq, Structural)]
pub struct Interval(pub Moment, pub Moment);

impl Moment {
    /// The earliest moment.
    pub fn earliest() -> (r: Moment)
        ensures
            r.tick() == 0,
    {
        Moment(0)
    }

    /// The latest moment.
    pub fn latest() -> (r: Moment)
        ensures
            r.tick() == u64::MAX,
    {
        Moment(u64::MAX)
    }

    /// The tick of this moment.
    pub open spec fn tick(self) -> int {
        self.0 as int
    }

    /// The next moment, if there is one.
    pub fn up(self) -> (r: Option<Moment>)
        ensures
            r == (if self.0 < u64::MAX {
                Some(Moment((self.0 + 1) as u64))
            } else {
                None
            }),
    {
        if self.0 < u64::MAX {
            Some(Moment(self.0 + 1))
        } else {
            None
        }
    }

    /// The previous moment, if there is one.
    pub fn down(self) -> (r: Option<Moment>)
        ensures
            r == (if self.0 > 0 {
                Some(Moment((self.0 - 1) as u64))
            } else {
                None
            }),
    {
        if self.0 > 0 {
            Some(Moment(self.0 - 1))
        } else {
            None
        }
    }
}

impl Interval {
    /// The first tick of the interval.
    pub open spec fn lo(self) -> int {
        self.0.0 as int
    }

    /// The last tick of the interval.
    pub open spec fn hi(self) -> int {
        self.1.0 as int
    }

    /// An interval does not end before it starts.
    pub open spec fn wf(self) -> bool {
        self.lo() <= self.hi()
    }

    /// The first moment of the interval.
    pub fn start(&self) -> (r: Moment)
        ensures
            r == self.0,
    {
        self.0
    }

    /// The last moment of the interval.
    pub fn end(&self) -> (r: Moment)
        ensures
            r == self.1,
    {
        self.1
    }
}

/// `a` lies wholly before `b`.
pub open spec fn before(a: Interval, b: Interval) -> bool {
    a.hi() < b.lo()
}

/// `a` lies wholly after `b`.
pub open spec fn after(a: Interval, b: Interval) -> bool {
    a.lo() > b.hi()
}

/// The smallest interval that covers both `a` and `b`.
pub open spec fn hull(a: Interval, b: Interval) -> Interval {
    Interval(
        if a.lo() <= b.lo() { a.0 } else { b.0 },
        if a.hi() >= b.hi() { a.1 } else { b.1 },
    )
}

/// The smallest interval that covers both `a` and `b`.
pub fn merge(a: Interval, b: Interval) -> (r: Interval)
    ensures
        r == hull(a, b),
        r.lo() == vstd::math::min(a.lo(), b.lo()),
        r.hi() == vstd::math::max(a.hi(), b.hi()),
        a.wf() && b.wf() ==> r.wf(),
{
    let lo = if a.0.0 <= b.0.0 { a.0 } else { b.0 };
    let hi = if a.1.0 >= b.1.0 { a.1 } else { b.1 };
    Interval(lo, hi)
}

/// Whether `a` lies wholly before `b`, with no tick in common.
pub fn lt(a: Interval, b: Interval) -> (r: bool)
    ensures
        r == before(a, b),
{
    a.1.0 < b.0.0
}

/// Whether `a` lies wholly after `b`, with no tick in common.
pub fn gt(a: Interval, b: Interval) -> (r: bool)
    ensures
        r == after(a, b),
{
    a.0.0 > b.1.0
}

/// Whether `a` and `b` cannot be told apart in time.
pub fn overlap(a: Interval, b: Interval) -> (r: bool)
    ensures
        r == (!before(a, b) && !after(a, b)),
{
    !lt(a, b) && !gt(a, b)
}

} // verus!
