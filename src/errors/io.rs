//! E201 diagnostics: a file that could not be read.
use vstd::prelude::*;

use crate::errors::{CompileError, ErrorInfos};
use crate::paths::path_debug;
use crate::text::{push_path, push_str, string_of};

verus! {

/// A file that could not be read, and the cause that the system gave.
#[derive(Debug)]
pub struct IOError {
    pub file: String,
    pub error: String,
}

/// Text of an I/O failure: the path as `Debug` shows it, then the cause.
pub open spec fn io_text(e: IOError) -> Seq<char> {
    path_debug(e.file@) + ": "@ + e.error@
}

impl IOError {
    /// An I/O diagnostic for `file`, failed with the cause `io`.
    pub fn build(msg: String, code: usize, io: String, file: &String) -> (r: CompileError)
        ensures
            r.code == code,
            r.msg == msg,
            r.infos == ErrorInfos::IOError(IOError { file: *file, error: io }),
    {
        CompileError { code, msg, infos: ErrorInfos::IOError(IOError { file: file.clone(), error: io }) }
    }

    /// The failure as text.
    pub fn render(&self) -> (r: String)
        ensures
            r@ == io_text(*self),
    {
        let mut v: Vec<char> = Vec::new();
        push_path(&mut v, self.file.as_str());
        push_str(&mut v, ": ");
        push_str(&mut v, self.error.as_str());
        string_of(&v)
    }
}

} // verus!
