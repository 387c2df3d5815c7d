//! Looking into a repository and a cache: pages of text and plain summaries.

pub mod codebook;
pub mod inspect;
pub mod page;
pub mod summary;
pub mod user;
