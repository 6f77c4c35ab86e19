//! Symbols, per-module symbol nodes, and the state threaded through the
//! symbol-table phases.
use vstd::prelude::*;

use crate::ast::Token;
use crate::errors::utils::content_at_span;
use crate::errors::CompileError;

verus! {

/// The `component main = <expression>` declaration of a module.
#[derive(Debug)]
pub struct MainSymbol {
    pub name: String,
    pub expr_ast: Token,
}

/// A template: its name, parameter list and body, as parsed.
#[derive(Debug)]
pub struct TemplateSymbol {
    pub name: String,
    pub template_params_ast: Token,
    pub template_body_ast: Token,
}

/// A global variable and its initializer, if it has one.
#[derive(Debug)]
pub struct GlobalVarSymbol {
    pub name: String,
    pub expr_ast: Option<Token>,
}

/// A function: its name, parameter list and body, as parsed.
#[derive(Debug)]
pub struct FunctionSymbol {
    pub name: String,
    pub function_params_ast: Token,
    pub function_body_ast: Token,
}

/// A symbol exported by a module.
#[derive(Debug)]
pub enum Symbol {
    Main(MainSymbol),
    Template(TemplateSymbol),
    Function(FunctionSymbol),
    GlobalVariable(GlobalVarSymbol),
}

/// One module's namespace: its symbols, and the arena indices of the modules
/// merged into it.
#[derive(Debug)]
pub struct SymbolNode {
    pub symbols: Vec<Symbol>,
    pub modules: Vec<usize>,
}

/// The registry entry of a module: its path and its node in the arena.
#[derive(Debug)]
pub struct ModuleEntry {
    pub path: String,
    pub node: usize,
}

/// State of a symbol-table build: the arena of symbol nodes and the index of
/// the current module's node, the diagnostics so far, the module registry,
/// and the current module's source text and path.
#[derive(Debug)]
pub struct SymbolContext {
    pub nodes: Vec<SymbolNode>,
    pub node: usize,
    pub errors: Vec<CompileError>,
    pub module_store: Vec<ModuleEntry>,
    pub source: String,
    pub file: String,
}

impl SymbolContext {
    /// The current node lies in the arena.
    pub open spec fn wf(self) -> bool {
        self.node < self.nodes@.len()
    }

    /// Symbols of the current module.
    pub open spec fn symbols(self) -> Seq<Symbol> {
        self.nodes@[self.node as int].symbols@
    }

    /// `self` and `other` agree on everything but the current module's symbols
    /// and the diagnostics.
    pub open spec fn same_frame(self, other: SymbolContext) -> bool {
        &&& self.node == other.node
        &&& self.file == other.file
        &&& self.source == other.source
        &&& self.module_store == other.module_store
        &&& self.nodes@.len() == other.nodes@.len()
        &&& self.nodes@[self.node as int].modules == other.nodes@[other.node as int].modules
        &&& forall|j: int|
            0 <= j < self.nodes@.len() && j != self.node ==> #[trigger] self.nodes@[j] == other.nodes@[j]
    }

    /// Appends `sym` to the current module's symbols.
    pub fn push_symbol(&mut self, sym: Symbol)
        requires
            old(self).wf(),
        ensures
            final(self).wf(),
            final(self).same_frame(*old(self)),
            final(self).errors == old(self).errors,
            final(self).symbols() == old(self).symbols().push(sym),
    {
        let i = self.node;
        self.nodes[i].symbols.push(sym);
    }
}

/// The message that comes with a structural diagnostic `code`.
pub open spec fn logic_message(code: usize) -> Seq<char> {
    if code == 301 {
        "Could not find a main component definition"@
    } else if code == 302 {
        "Invalid global declaration: only main component and vars allowed"@
    } else {
        "Duplicate symbol detected: the following symbol already exists."@
    }
}

/// `e` is the structural diagnostic `code` for `span` of `source` in `file`,
/// carrying the numbered lines the span covers.
pub open spec fn logic_error_at(e: CompileError, code: usize, file: String, source: String, span: (usize, usize)) -> bool {
    &&& e.code == code
    &&& e.msg@ == logic_message(code)
    &&& e.infos is LogicError
    &&& e.infos->LogicError_0.file == file
    &&& e.infos->LogicError_0.buff is Some
    &&& e.infos->LogicError_0.buff->Some_0@ == content_at_span(source@, span)
}

/// The diagnostics `errs` are, in order, those for the `(code, span)` pairs of
/// `issues`, in `file` with text `source`.
pub open spec fn errors_for(errs: Seq<CompileError>, issues: Seq<(usize, (usize, usize))>, file: String, source: String) -> bool {
    &&& errs.len() == issues.len()
    &&& forall|i: int|
        0 <= i < issues.len() ==> logic_error_at(#[trigger] errs[i], issues[i].0, file, source, issues[i].1)
}

} // verus!
