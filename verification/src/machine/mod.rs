//! The state machine: token turns in, commits out.

pub mod snapshot;
pub mod source;
pub mod state;
pub mod token;
pub mod transcript;
pub mod turn;
