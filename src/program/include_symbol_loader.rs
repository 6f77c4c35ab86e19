//! Merging of included modules' symbols into the current scope.
use vstd::prelude::*;

use crate::ast::File;
use crate::program::symbol::SymbolContext;

verus! {

/// Flattening of included modules. How their symbols become visible in the
/// including module is not settled yet, so this phase hands its inputs back
/// unchanged.
pub fn load_includes(ctx: SymbolContext, file: File, collision: Vec<String>) -> (r: (SymbolContext, File, Vec<String>))
    ensures
        r.0 == ctx,
        r.1 == file,
        r.2 == collision,
{
    (ctx, file, collision)
}

} // verus!
