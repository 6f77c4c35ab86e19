//! Diagnostics: typed compile errors and source-excerpt rendering.
use vstd::prelude::*;

pub mod common_displayer;
pub mod unknown_file;
pub mod io;
pub mod logic;
pub mod parse;
pub mod syntax;
pub mod utils;

use crate::ast;
use crate::errors::io::{io_text, IOError};
use crate::errors::logic::{logic_text, LogicError};
use crate::errors::parse::{failure_excerpt, ParseError};
use crate::text::{append_chars, decimal, decimal_chars, push_str, string_of};

verus! {

/// Syntax: the grammar engine rejected the input.
pub const SYNTAX_ERROR: usize = 101;

/// I/O: a file could not be read.
pub const IO_ERROR: usize = 201;

/// Logic: a module has no `component main = ...` declaration.
pub const NO_MAIN_ERROR: usize = 301;

/// Logic: a top-level declaration that is neither main, a template, a
/// function nor a variable.
pub const INVALID_GLOBAL_ERROR: usize = 302;

/// Logic: a name declared twice in one module (`main` included).
pub const DUPLICATE_SYMBOL_ERROR: usize = 303;

/// A diagnostic: its stable code, a message, and the details of its kind.
#[derive(Debug)]
pub struct CompileError {
    pub msg: String,
    pub code: usize,
    pub infos: ErrorInfos,
}

/// The details that come with each kind of diagnostic.
#[derive(Debug)]
pub enum ErrorInfos {
    ParseError(ParseError),
    IOError(IOError),
    LogicError(LogicError),
}

/// Text of a diagnostic: code and kind, the details, then the message.
pub open spec fn compile_error_text(e: CompileError) -> Seq<char> {
    let (kind, inner) = match e.infos {
        ErrorInfos::ParseError(p) => ("ParseError"@, p.buff@),
        ErrorInfos::IOError(i) => ("IOError"@, io_text(i)),
        ErrorInfos::LogicError(l) => ("LogicError"@, logic_text(l)),
    };
    "E["@ + decimal(e.code as nat) + "]: "@ + kind + "\n\n"@ + inner + "\n\n\t"@ + e.msg@ + "\n"@
}

/// `e` is the diagnostic for a file at `file` that could not be loaded
/// because of `error`: E201 with the cause, or E101 with the excerpt.
pub open spec fn load_error(e: CompileError, file: String, error: ast::ParseError) -> bool {
    match error {
        ast::ParseError::IOError(cause) => {
            &&& e.code == IO_ERROR
            &&& e.msg@ == "IO Error occured !"@
            &&& e.infos == ErrorInfos::IOError(IOError { file, error: cause })
        },
        ast::ParseError::PestError(position, source) => {
            &&& e.code == SYNTAX_ERROR
            &&& e.msg@ == "Syntax error detected near"@
            &&& e.infos is ParseError
            &&& e.infos->ParseError_0.span == (position.offset, position.offset)
            &&& e.infos->ParseError_0.buff@ == failure_excerpt(source@, position)
        },
    }
}

/// The diagnostic for a file at `file` that could not be loaded.
pub fn from_pest_parsing(file: &String, error: ast::ParseError) -> (r: CompileError)
    ensures
        load_error(r, *file, error),
{
    match error {
        ast::ParseError::IOError(cause) => IOError::build("IO Error occured !".to_owned(), IO_ERROR, cause, file),
        ast::ParseError::PestError(position, source) => ParseError::build(
            "Syntax error detected near".to_owned(),
            SYNTAX_ERROR,
            position,
            &source,
        ),
    }
}

impl CompileError {
    /// The diagnostic as text.
    pub fn render(&self) -> (r: String)
        ensures
            r@ == compile_error_text(*self),
    {
        let mut v: Vec<char> = Vec::new();
        push_str(&mut v, "E[");
        let digits = decimal_chars(self.code);
        append_chars(&mut v, &digits);
        push_str(&mut v, "]: ");
        match &self.infos {
            ErrorInfos::ParseError(p) => {
                push_str(&mut v, "ParseError");
                push_str(&mut v, "\n\n");
                push_str(&mut v, p.buff.as_str());
            },
            ErrorInfos::IOError(i) => {
                push_str(&mut v, "IOError");
                push_str(&mut v, "\n\n");
                let t = i.render();
                push_str(&mut v, t.as_str());
            },
            ErrorInfos::LogicError(l) => {
                push_str(&mut v, "LogicError");
                push_str(&mut v, "\n\n");
                let t = l.render();
                push_str(&mut v, t.as_str());
            },
        }
        push_str(&mut v, "\n\n\t");
        push_str(&mut v, self.msg.as_str());
        push_str(&mut v, "\n");
        proof {
            assert(v@ =~= compile_error_text(*self));
        }
        string_of(&v)
    }
}

} // verus!
