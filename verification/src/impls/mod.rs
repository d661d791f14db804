//! Implementations for the standard library's types.

pub mod std_container;
pub mod std_primary;
pub mod trivial;
pub mod tuple;
