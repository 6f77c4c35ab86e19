//! Shapes of the syntax tree that the later phases rely on, and extraction of
//! the path named by an inclusion statement.
use vstd::prelude::*;

use crate::ast::{File, Rule, Token};

verus! {

/// `t` is a terminal tagged with `r`.
pub open spec fn is_terminal_of(t: Token, r: Rule) -> bool {
    t is Terminal && t->Terminal_0.rule == r
}

/// The children of an `IncludePathString` node: one `FilesystemPath` terminal.
pub open spec fn path_string_shaped(s: Seq<Token>) -> bool {
    s.len() == 1 && is_terminal_of(s[0], Rule::FilesystemPath)
}

/// An inclusion statement: keyword, path string, end of statement.
pub open spec fn include_statement_shaped(t: Token) -> bool {
    &&& t is NonTerminal
    &&& t->NonTerminal_0.subrules@.len() == 3
    &&& t->NonTerminal_0.subrules@[0].spec_rule() == Rule::IncludeKW
    &&& t->NonTerminal_0.subrules@[1] is NonTerminal
    &&& t->NonTerminal_0.subrules@[1]->NonTerminal_0.rule == Rule::IncludePathString
    &&& path_string_shaped(t->NonTerminal_0.subrules@[1]->NonTerminal_0.subrules@)
    &&& t->NonTerminal_0.subrules@[2].spec_rule() == Rule::END_OF_LINE
}

/// The path text that an inclusion statement names.
pub open spec fn include_path(t: Token) -> Seq<char> {
    t->NonTerminal_0.subrules@[1]->NonTerminal_0.subrules@[0]->Terminal_0.content@
}

/// `t` is an inclusion statement node.
pub open spec fn is_include_node(t: Token) -> bool {
    t is NonTerminal && t->NonTerminal_0.rule == Rule::IncludeStatement
}

/// A template or function block: keyword, name terminal, parameters, body.
pub open spec fn block_shaped(t: Token, kw: Rule, name: Rule) -> bool {
    &&& t is NonTerminal
    &&& t->NonTerminal_0.subrules@.len() == 4
    &&& t->NonTerminal_0.subrules@[0].spec_rule() == kw
    &&& is_terminal_of(t->NonTerminal_0.subrules@[1], name)
    &&& t->NonTerminal_0.subrules@[2].spec_rule() == Rule::Parameters
    &&& t->NonTerminal_0.subrules@[3].spec_rule() == Rule::Body
}

/// A top-level child of the circuit, as the grammar produces it: a template
/// or function block, a declaration statement, an inclusion statement, or an
/// end of statement.
pub open spec fn top_level_shaped(t: Token) -> bool {
    match t.spec_rule() {
        Rule::TemplateBlock => block_shaped(t, Rule::TemplateKW, Rule::TemplateName),
        Rule::FunctionBlock => block_shaped(t, Rule::FunctionKW, Rule::FunctionName),
        Rule::DeclarationStatement => t is NonTerminal,
        Rule::IncludeStatement => t is NonTerminal ==> include_statement_shaped(t),
        Rule::END_OF_LINE => true,
        _ => false,
    }
}

/// The top-level children of a file's circuit.
pub open spec fn circuit_children(f: File) -> Seq<Token> {
    f.root.ast@[0]->NonTerminal_0.subrules@
}

/// A file whose syntax tree has the shape the whole-circuit rule produces: a
/// single `Circuit` node whose children are all `top_level_shaped`.
pub open spec fn file_shaped(f: File) -> bool {
    &&& f.root.ast@.len() == 1
    &&& f.root.ast@[0] is NonTerminal
    &&& f.root.ast@[0]->NonTerminal_0.rule == Rule::Circuit
    &&& forall|i: int|
        0 <= i < circuit_children(f).len() ==> top_level_shaped(#[trigger] circuit_children(f)[i])
}

/// The path named by the children of an `IncludePathString` node.
pub fn process_include_path_string(include_rules: &Vec<Token>) -> (r: &str)
    requires
        path_string_shaped(include_rules@),
    ensures
        r@ == include_rules@[0]->Terminal_0.content@,
{
    match &include_rules[0] {
        Token::Terminal(t) => t.content.as_str(),
        Token::NonTerminal(_) => {
            proof {
                assert(false);
            }
            ""
        },
    }
}

/// The path named by an inclusion statement.
pub fn process_include_statement(include_statement: &Token) -> (r: &str)
    requires
        include_statement_shaped(*include_statement),
    ensures
        r@ == include_path(*include_statement),
{
    match include_statement {
        Token::NonTerminal(is_infos) => {
            match &is_infos.subrules[1] {
                Token::NonTerminal(ips) => process_include_path_string(&ips.subrules),
                Token::Terminal(_) => {
                    proof {
                        assert(false);
                    }
                    ""
                },
            }
        },
        Token::Terminal(_) => {
            proof {
                assert(false);
            }
            ""
        },
    }
}

/// Whether `t` is `top_level_shaped`.
fn check_top_level(t: &Token) -> (r: bool)
    ensures
        r == top_level_shaped(*t),
{
    match t {
        Token::Terminal(term) => {
            match term.rule {
                Rule::IncludeStatement => true,
                Rule::END_OF_LINE => true,
                _ => false,
            }
        },
        Token::NonTerminal(nt) => {
            let s = &nt.subrules;
            match nt.rule {
                Rule::TemplateBlock => check_block(s, Rule::TemplateKW, Rule::TemplateName),
                Rule::FunctionBlock => check_block(s, Rule::FunctionKW, Rule::FunctionName),
                Rule::DeclarationStatement => true,
                Rule::END_OF_LINE => true,
                Rule::IncludeStatement => {
                    if s.len() != 3 || s[0].rule() != Rule::IncludeKW || s[2].rule() != Rule::END_OF_LINE {
                        false
                    } else {
                        match &s[1] {
                            Token::NonTerminal(ips) => {
                                ips.rule == Rule::IncludePathString && ips.subrules.len() == 1 && match &ips.subrules[0] {
                                    Token::Terminal(p) => p.rule == Rule::FilesystemPath,
                                    Token::NonTerminal(_) => false,
                                }
                            },
                            Token::Terminal(_) => false,
                        }
                    }
                },
                _ => false,
            }
        },
    }
}

/// Whether `s` are the children of a block with keyword `kw` and a name
/// terminal tagged `name`.
fn check_block(s: &Vec<Token>, kw: Rule, name: Rule) -> (r: bool)
    ensures
        s@.len() == 4 && s@[0].spec_rule() == kw && is_terminal_of(s@[1], name) && s@[2].spec_rule() == Rule::Parameters
            && s@[3].spec_rule() == Rule::Body ==> r,
        r ==> s@.len() == 4 && s@[0].spec_rule() == kw && is_terminal_of(s@[1], name) && s@[2].spec_rule()
            == Rule::Parameters && s@[3].spec_rule() == Rule::Body,
{
    if s.len() != 4 {
        return false;
    }
    let named = match &s[1] {
        Token::Terminal(t) => t.rule == name,
        Token::NonTerminal(_) => false,
    };
    s[0].rule() == kw && named && s[2].rule() == Rule::Parameters && s[3].rule() == Rule::Body
}

impl File {
    /// Whether this file's syntax tree is `file_shaped`: what the grammar
    /// engine and the materializer promise of a parsed circuit.
    pub fn is_well_shaped(&self) -> (r: bool)
        ensures
            r == file_shaped(*self),
    {
        if self.root.ast.len() != 1 {
            return false;
        }
        match &self.root.ast[0] {
            Token::Terminal(_) => false,
            Token::NonTerminal(circuit) => {
                if circuit.rule != Rule::Circuit {
                    return false;
                }
                let mut k: usize = 0;
                while k < circuit.subrules.len()
                    invariant
                        k <= circuit.subrules@.len(),
                        circuit.subrules@ == circuit_children(*self),
                        forall|i: int| 0 <= i < k ==> top_level_shaped(#[trigger] circuit_children(*self)[i]),
                    decreases circuit.subrules@.len() - k,
                {
                    if !check_top_level(&circuit.subrules[k]) {
                        return false;
                    }
                    k = k + 1;
                }
                true
            },
        }
    }
}

} // verus!
