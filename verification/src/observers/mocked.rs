//! Simulated platforms, pollers and writers. Whatever they draw at random is
//! handed to them: each step is a function of the state, the tick and the
//! delays drawn for it.

pub mod poll_platform;
pub mod polling;
pub mod mock_writer;
pub mod record_platform;
pub mod record;
