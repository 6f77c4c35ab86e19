//! E3xx diagnostics: structural errors found while building a symbol table.
use vstd::prelude::*;

use crate::errors::utils::{content_at_span, get_content_at_span};
use crate::errors::{CompileError, ErrorInfos};
use crate::paths::path_debug;
use crate::text::{push_path, push_str, string_of};

verus! {

/// The file where a structural error lies and, when known, the numbered
/// source lines that it covers.
#[derive(Debug)]
pub struct LogicError {
    pub file: String,
    pub buff: Option<String>,
}

/// Text of a structural error: the path as `Debug` shows it, then the
/// excerpt if any.
pub open spec fn logic_text(e: LogicError) -> Seq<char> {
    match e.buff {
        Some(b) => "In "@ + path_debug(e.file@) + ":\n\n"@ + b@,
        None => "In "@ + path_debug(e.file@) + ":"@,
    }
}

impl LogicError {
    /// A structural diagnostic for `file`, without an excerpt.
    pub fn build(msg: String, code: usize, file: String) -> (r: CompileError)
        ensures
            r.code == code,
            r.msg == msg,
            r.infos == ErrorInfos::LogicError(LogicError { file, buff: None }),
    {
        CompileError { code, msg, infos: ErrorInfos::LogicError(LogicError { file, buff: None }) }
    }

    /// A structural diagnostic for `file` with the numbered lines of `data`
    /// that `span` covers.
    pub fn build_with_span(msg: String, code: usize, file: String, data: &String, span: (usize, usize)) -> (r: CompileError)
        ensures
            r.code == code,
            r.msg == msg,
            r.infos is LogicError,
            r.infos->LogicError_0.file == file,
            r.infos->LogicError_0.buff is Some,
            r.infos->LogicError_0.buff->Some_0@ == content_at_span(data@, span),
    {
        CompileError {
            code,
            msg,
            infos: ErrorInfos::LogicError(LogicError { file, buff: Some(get_content_at_span(data, span)) }),
        }
    }

    /// The error as text.
    pub fn render(&self) -> (r: String)
        ensures
            r@ == logic_text(*self),
    {
        let mut v: Vec<char> = Vec::new();
        push_str(&mut v, "In ");
        push_path(&mut v, self.file.as_str());
        match &self.buff {
            Some(b) => {
                push_str(&mut v, ":\n\n");
                push_str(&mut v, b.as_str());
            },
            None => {
                push_str(&mut v, ":");
            },
        }
        proof {
            assert(v@ =~= logic_text(*self));
        }
        string_of(&v)
    }
}

} // verus!
