//! Front end of a circuit-description compiler: typed syntax trees, include
//! resolution and per-module symbol tables, with structured diagnostics.
use vstd::prelude::*;

pub mod acyclic;
pub mod ast;
pub mod cycles;
pub mod common;
pub mod compile;
pub mod errors;
pub mod matchers;
pub mod paths;
pub mod program;
pub mod text;

verus! {

} // verus!
