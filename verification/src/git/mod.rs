//! A content-addressed store of lattice states with commits, views and pruning.

pub mod intake;
pub mod loose;
pub mod object;
pub mod registry;
pub mod repo;
pub mod sentence;
pub mod store;
pub mod view;
