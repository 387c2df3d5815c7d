//! Scenes: frames of tokens over time, and what changes between them.

pub mod dimension;
pub mod frames;
pub mod novelty;
pub mod pyramid;
pub mod records;
pub mod restore;
pub mod ring_series;
pub mod share;
