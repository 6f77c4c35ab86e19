//! General-purpose data structures.
pub mod chain;
