//! A hierarchical secret store: nested groups of password entries, each
//! addressable by a stable identifier, with a recycle-bin state machine and
//! a crash-safe save pipeline.

pub mod model;
pub mod navigator;
pub mod mutation;
pub mod convert;
pub mod vault;
pub mod navigation;
pub mod persist;
pub mod laws;
