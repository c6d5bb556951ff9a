//! Reconciliation of one shared integer value that several independent
//! platforms report through time-uncertain observations.
//!
//! Observations are collected in a history, grouped into levels of mutually
//! unorderable observations, and folded in time order into one inferred value,
//! or into a conflict verdict.
//!
//! - [`value`]: the reconciled scalar and its group addition.
//! - [`observations`]: predicates, sources, observations and their order.
//! - [`inference`]: intervals, the predicate of a level, the levels of a
//!   history, the inferred value, and what holds of them.
//! - [`history`]: a history that merges overlapping observations as they come.
//! - [`spans`]: the interval map behind that history.
//! - [`coordinator`]: the step that takes a batch in and decides what to
//!   publish.
//! - [`observers`], [`simulation`], [`vendor`]: simulated platforms and what a
//!   simulated run decides.

pub mod value;
pub mod inference;
pub mod observations;
pub mod observers;
pub mod vendor;
pub mod history;
pub mod coordinator;
pub mod simulation;
pub mod spans;
