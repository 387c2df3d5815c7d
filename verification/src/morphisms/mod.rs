//! The morphisms between token collections and HLLSets.

pub mod api;
pub mod conv;
pub mod grid;
pub mod hllset_lut;
pub mod ingest;
pub mod materialize;
pub mod scheme;
pub mod tensor;
