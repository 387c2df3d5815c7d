//! Programs over sets: expressions, operator graphs, their dispatch, and boot
//! scripts.

pub mod boot;
pub mod commit;
pub mod dispatch;
pub mod dsl;
pub mod expr;
pub mod graph;
pub mod vocab;
