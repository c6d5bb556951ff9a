//! The observation algebra: intervals, levels and the fold over a history.

pub mod interval;
pub mod definition;
pub mod levels;
pub mod graph;
pub mod history;
pub mod laws;
