//! Standalone report of an inclusion that names a file that cannot be read.
use vstd::prelude::*;

use crate::errors::common_displayer::{common_displayer, common_text};
use crate::errors::IO_ERROR;
use crate::paths::path_debug;
use crate::text::{chars_of, push_path, push_str, string_of};

verus! {

/// An inclusion in `file_error`, around `source_error`, that names
/// `invalid_file`, which cannot be read.
#[derive(Debug)]
pub struct UnknownFileIncludeError {
    pub file_error: String,
    pub source_error: String,
    pub span_error: (usize, usize),
    pub invalid_file: String,
}

impl UnknownFileIncludeError {
    /// The report as text.
    pub fn render(&self) -> (r: String)
        ensures
            r@ == common_text("UnknownFileInclude"@, IO_ERROR as nat, self.source_error@, path_debug(self.file_error@))
                + "\tUnknown File: "@ + path_debug(self.invalid_file@) + "\n"@,
    {
        let head = common_displayer("UnknownFileInclude", &IO_ERROR, &self.source_error, &self.span_error, &self.file_error);
        let mut v = chars_of(head.as_str());
        push_str(&mut v, "\tUnknown File: ");
        push_path(&mut v, self.invalid_file.as_str());
        push_str(&mut v, "\n");
        proof {
            assert(v@ =~= common_text("UnknownFileInclude"@, IO_ERROR as nat, self.source_error@, path_debug(self.file_error@))
                + "\tUnknown File: "@ + path_debug(self.invalid_file@) + "\n"@);
        }
        string_of(&v)
    }
}

} // verus!
