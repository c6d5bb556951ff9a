//! Observations: what a producer claims to have happened, when, and who says so.

use vstd::prelude::*;
use std::cmp::Ordering;
use crate::inference::interval::{Interval, before, after, lt, gt};
use crate::value::{Value, plus, add_values};

verus! {

/// How an observation transforms the value it is applied to.
#[derive(Debug, Clone, Copy, PartialEq, Eq, Structural)]
pub enum DefinitionPredicate {
    /// The value was seen as `v_0` and then as `v_1`.
    Transition { v_0: Value, v_1: Value },
    /// The value changed by `delta`.
    Mutation { delta: Value },
    /// The value was set to `v_new`.
    Assignment { v_new: Value },
}

impl DefinitionPredicate {
    /// The value that the predicate yields on `input`, if it is defined there.
    pub open spec fn applied(self, input: Value) -> Option<Value> {
        match self {
            DefinitionPredicate::Transition { v_0, v_1 } => if input == v_0 {
                Some(v_1)
            } else {
                None
            },
            DefinitionPredicate::Mutation { delta } => Some(plus(input, delta)),
            DefinitionPredicate::Assignment { v_new } => Some(v_new),
        }
    }

    /// Applies the predicate to `input`: a transition demands its first value,
    /// a mutation adds its delta, an assignment replaces the input.
    pub fn apply(&self, input: &Value) -> (r: Option<Value>)
        ensures
            r == self.applied(*input),
    {
        match self {
            DefinitionPredicate::Transition { v_0, v_1 } => if *input == *v_0 {
                Some(*v_1)
            } else {
                None
            },
            DefinitionPredicate::Mutation { delta } => Some(add_values(*input, *delta)),
            DefinitionPredicate::Assignment { v_new } => Some(*v_new),
        }
    }
}

/// Who produced an observation.
#[derive(Debug)]
pub enum SourceKind {
    /// A poller, known by its name. Its polls are ordered among themselves.
    Polling(String),
    /// A reader of time-stamped records, known by its name.
    Record(String),
}

/// The mathematical content of a [`SourceKind`].
pub enum SourceView {
    Polling(Seq<char>),
    Record(Seq<char>),
}

impl View for SourceKind {
    type V = SourceView;

    open spec fn view(&self) -> SourceView {
        match self {
            SourceKind::Polling(name) => SourceView::Polling(name@),
            SourceKind::Record(name) => SourceView::Record(name@),
        }
    }
}

impl Clone for SourceKind {
    fn clone(&self) -> (r: Self)
        ensures
            r == *self,
    {
        match self {
            SourceKind::Polling(name) => SourceKind::Polling(name.clone()),
            SourceKind::Record(name) => SourceKind::Record(name.clone()),
        }
    }
}

/// A claim that `definition` happened at some point of `interval`.
#[derive(Debug)]
pub struct Observation {
    pub definition: DefinitionPredicate,
    pub interval: Interval,
    pub source: SourceKind,
}

/// The mathematical content of an [`Observation`].
pub struct ObservationView {
    pub definition: DefinitionPredicate,
    pub interval: Interval,
    pub source: SourceView,
}

impl View for Observation {
    type V = ObservationView;

    open spec fn view(&self) -> ObservationView {
        ObservationView {
            definition: self.definition,
            interval: self.interval,
            source: self.source@,
        }
    }
}

impl Clone for Observation {
    fn clone(&self) -> (r: Self)
        ensures
            r == *self,
    {
        Observation {
            definition: self.definition,
            interval: self.interval,
            source: self.source.clone(),
        }
    }
}

impl PartialEq for Observation {
    /// No two observations are equal: each stands for an event of its own.
    fn eq(&self, other: &Self) -> (r: bool) {
        false
    }
}

impl vstd::std_specs::cmp::PartialEqSpecImpl for Observation {
    open spec fn obeys_eq_spec() -> bool {
        true
    }

    open spec fn eq_spec(&self, other: &Self) -> bool {
        false
    }
}

/// The contents of a list of observations.
pub open spec fn views(list: Seq<Observation>) -> Seq<ObservationView> {
    list.map_values(|o: Observation| o@)
}

impl ObservationView {
    /// The first tick at which the observation may have happened.
    pub open spec fn lo(self) -> int {
        self.interval.lo()
    }

    /// The last tick at which the observation may have happened.
    pub open spec fn hi(self) -> int {
        self.interval.hi()
    }

    /// The interval of the observation is well formed.
    pub open spec fn wf(self) -> bool {
        self.interval.wf()
    }
}

/// Both observations come from one and the same poller.
pub open spec fn same_poller(a: ObservationView, b: ObservationView) -> bool {
    a.source is Polling && b.source is Polling && a.source->Polling_0 == b.source->Polling_0
}

/// Two polls of one poller that overlap and start together: their order is
/// undefined, and a producer must never emit such a pair.
pub open spec fn clash(a: ObservationView, b: ObservationView) -> bool {
    &&& !before(a.interval, b.interval)
    &&& !after(a.interval, b.interval)
    &&& same_poller(a, b)
    &&& a.lo() == b.lo()
}

/// `a` happened strictly before `b`: its interval lies wholly before that of
/// `b`, or both are overlapping polls of one poller and `a` started first.
pub open spec fn precedes(a: ObservationView, b: ObservationView) -> bool {
    ||| before(a.interval, b.interval)
    ||| (!after(a.interval, b.interval) && same_poller(a, b) && a.lo() < b.lo())
}

/// `a` happened strictly after `b`, by the same rules read the other way.
pub open spec fn follows(a: ObservationView, b: ObservationView) -> bool {
    &&& !before(a.interval, b.interval)
    &&& (after(a.interval, b.interval) || (same_poller(a, b) && a.lo() > b.lo()))
}

/// Neither observation happened strictly before the other.
pub open spec fn unordered(a: ObservationView, b: ObservationView) -> bool {
    !precedes(a, b) && !precedes(b, a)
}

/// An observation that precedes another starts earlier.
pub proof fn lemma_precedes_starts_earlier(a: ObservationView, b: ObservationView)
    requires
        a.wf(),
        precedes(a, b),
    ensures
        a.lo() < b.lo(),
{
}

/// Among well-formed observations, to follow is to be preceded.
pub proof fn lemma_follows_is_preceded(a: ObservationView, b: ObservationView)
    requires
        a.wf(),
        b.wf(),
    ensures
        follows(a, b) == precedes(b, a),
        !(precedes(a, b) && precedes(b, a)),
        !precedes(a, a),
{
}

impl Observation {
    /// The interval of the observation is well formed.
    pub open spec fn wf(&self) -> bool {
        self.interval.wf()
    }

    /// Whether both observations come from one and the same poller.
    pub fn from_same_poller(&self, other: &Observation) -> (r: bool)
        ensures
            r == same_poller(self@, other@),
    {
        match (&self.source, &other.source) {
            (SourceKind::Polling(name_1), SourceKind::Polling(name_2)) => *name_1 == *name_2,
            _ => false,
        }
    }

    /// Whether the order of the two observations is undefined.
    pub fn clashes(&self, other: &Observation) -> (r: bool)
        ensures
            r == clash(self@, other@),
    {
        !lt(self.interval, other.interval) && !gt(self.interval, other.interval)
            && self.from_same_poller(other) && self.interval.0.0 == other.interval.0.0
    }

    /// The strict partial order of observations. `Less` and `Greater` say that
    /// one happened before the other; `None` says that they cannot be ordered.
    /// No two observations are equal.
    pub fn partial_cmp(&self, other: &Observation) -> (r: Option<Ordering>)
        requires
            !clash(self@, other@),
        ensures
            r == Some(Ordering::Less) <==> precedes(self@, other@),
            r == Some(Ordering::Greater) <==> follows(self@, other@),
            r is None <==> !precedes(self@, other@) && !follows(self@, other@),
            r != Some(Ordering::Equal),
    {
        if lt(self.interval, other.interval) {
            return Some(Ordering::Less);
        }
        if gt(self.interval, other.interval) {
            return Some(Ordering::Greater);
        }
        if self.from_same_poller(other) {
            if self.interval.0.0 < other.interval.0.0 {
                return Some(Ordering::Less);
            }
            return Some(Ordering::Greater);
        }
        None
    }

    /// Whether this observation happened strictly before `other`.
    pub fn happened_before(&self, other: &Observation) -> (r: bool)
        requires
            !clash(self@, other@),
        ensures
            r == precedes(self@, other@),
    {
        match self.partial_cmp(other) {
            Some(Ordering::Less) => true,
            _ => false,
        }
    }
}

/// How a poller reads a change between two of its polls.
#[derive(Debug, Clone, Copy, PartialEq, Eq, Structural)]
pub enum PollingInterpretation {
    Transition,
    Assignment,
    Mutation,
}

} // verus!
