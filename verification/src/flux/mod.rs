//! The side car of a host that runs in steps: what each step changes, and how the
//! ring of the steps before it reads it.

pub mod basis_frames;
pub mod report;
pub mod sidecar;
pub mod transition;
