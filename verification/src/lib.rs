//! A verified lattice state machine: sketches on a fixed bit plane, the Boolean
//! ring over them, and the stores, graphs and caches built on top.

pub mod boolring;
pub mod cache;
pub mod context_tree;
pub mod digest;
pub mod explore;
pub mod flux;
pub mod git;
pub mod hashing;
pub mod hllset;
pub mod json;
pub mod lut;
pub mod machine;
pub mod morphisms;
pub mod ops;
pub mod order;
pub mod random;
pub mod scene;
pub mod search;
pub mod sorted;
pub mod table;
pub mod text;
pub mod tf;
