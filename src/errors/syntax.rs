//! Standalone report of a syntax error.
use vstd::prelude::*;

use crate::errors::common_displayer::{common_displayer, common_text};
use crate::errors::SYNTAX_ERROR;
use crate::paths::path_debug;

verus! {

/// A syntax error in `file_error`, around the excerpt `source_error`.
#[derive(Debug)]
pub struct SyntaxError {
    pub file_error: String,
    pub source_error: String,
    pub span_error: (usize, usize),
}

impl SyntaxError {
    /// The report as text.
    pub fn render(&self) -> (r: String)
        ensures
            r@ == common_text("SyntaxError"@, SYNTAX_ERROR as nat, self.source_error@, path_debug(self.file_error@)),
    {
        common_displayer("SyntaxError", &SYNTAX_ERROR, &self.source_error, &self.span_error, &self.file_error)
    }
}

} // verus!
