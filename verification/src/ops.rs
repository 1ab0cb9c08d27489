//! Operations that combine the core types.

pub mod packages;
