//! The extended cache: canonical batches of rows, their manifest, and the
//! directory that holds them.

pub mod directory;
pub mod ipc;
pub mod manifest;
pub mod reading;
pub mod rows;
pub mod schema;
