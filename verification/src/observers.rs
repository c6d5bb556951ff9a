//! Producers of observations.

pub mod mocked;
pub mod square;
