//! Extraction of a module's `component main = <expression>` declaration.
use vstd::prelude::*;

use crate::ast::{File, NonTerminalToken, RootToken, Rule, Token};
use crate::errors::logic::LogicError;
use crate::errors::{CompileError, ErrorInfos, NO_MAIN_ERROR};
use crate::matchers::{circuit_children, file_shaped, is_terminal_of, top_level_shaped};
use crate::program::symbol::{logic_message, MainSymbol, Symbol, SymbolContext};
use crate::text::chars_of;

verus! {

/// Children of a declaration statement that declares the main component:
/// `component main = <expression>`.
pub open spec fn main_decl_rules(rules: Seq<Token>) -> bool {
    &&& rules.len() == 3
    &&& rules[0].spec_rule() == Rule::ComponentDeclarationKW
    &&& is_terminal_of(rules[1], Rule::E_VariableName)
    &&& rules[1]->Terminal_0.content@ == "main"@
    &&& rules[2].spec_rule() == Rule::Expression
}

/// Position `i` of `s` holds a main declaration followed by an end of
/// statement.
pub open spec fn main_at(s: Seq<Token>, i: int) -> bool {
    &&& 0 <= i
    &&& i + 1 < s.len()
    &&& s[i] is NonTerminal
    &&& s[i]->NonTerminal_0.rule == Rule::DeclarationStatement
    &&& main_decl_rules(s[i]->NonTerminal_0.subrules@)
    &&& s[i + 1].spec_rule() == Rule::END_OF_LINE
}

/// Some position of `s` holds a main declaration.
pub open spec fn has_main(s: Seq<Token>) -> bool {
    exists|i: int| main_at(s, i)
}

/// `i` is the first position of `s` that holds a main declaration.
pub open spec fn first_main(s: Seq<Token>, i: int) -> bool {
    main_at(s, i) && forall|j: int| 0 <= j < i ==> !main_at(s, j)
}

/// The main symbol that the declaration with children `rules` makes.
pub open spec fn main_symbol_of(rules: Seq<Token>) -> Symbol {
    Symbol::Main(MainSymbol { name: rules[1]->Terminal_0.content, expr_ast: rules[2] })
}

/// `e` is the "no main component" diagnostic (E301) for `file`.
pub open spec fn no_main_error(e: CompileError, file: String) -> bool {
    &&& e.code == NO_MAIN_ERROR
    &&& e.msg@ == logic_message(NO_MAIN_ERROR)
    &&& e.infos == ErrorInfos::LogicError(crate::errors::logic::LogicError { file, buff: None })
}

/// Whether `s` is the text `main`.
fn is_main_name(s: &String) -> (r: bool)
    ensures
        r == (s@ == "main"@),
{
    let cs = chars_of(s.as_str());
    proof {
        reveal_strlit("main");
    }
    let r = cs.len() == 4 && cs[0] == 'm' && cs[1] == 'a' && cs[2] == 'i' && cs[3] == 'n';
    proof {
        if r {
            assert(cs@ =~= "main"@);
        }
    }
    r
}

/// Whether `rules` are the children of a main declaration.
fn is_main_rules(rules: &Vec<Token>) -> (r: bool)
    ensures
        r == main_decl_rules(rules@),
{
    if rules.len() != 3 {
        return false;
    }
    let named = match &rules[1] {
        Token::Terminal(name) => name.rule == Rule::E_VariableName && is_main_name(&name.content),
        Token::NonTerminal(_) => false,
    };
    rules[0].rule() == Rule::ComponentDeclarationKW && named && rules[2].rule() == Rule::Expression
}

/// Whether `t` is a declaration statement whose children declare the main
/// component.
fn is_main_declaration(t: &Token) -> (r: bool)
    ensures
        r == (t is NonTerminal && t->NonTerminal_0.rule == Rule::DeclarationStatement && main_decl_rules(
            t->NonTerminal_0.subrules@,
        )),
{
    match t {
        Token::Terminal(_) => false,
        Token::NonTerminal(nt) => nt.rule == Rule::DeclarationStatement && is_main_rules(&nt.subrules),
    }
}

/// The main symbol that the children `rules` of a declaration statement make
/// when they declare the main component (`component main = <expression>`);
/// none for any other declaration.
fn load_main_symbol_from_declaration_tokens(rules: Vec<Token>) -> (r: Option<Symbol>)
    ensures
        r is Some <==> main_decl_rules(rules@),
        r is Some ==> r->Some_0 == main_symbol_of(rules@),
{
    if !is_main_rules(&rules) {
        return None;
    }
    let mut rules = rules;
    let ghost orig = rules@;
    let exp = rules.pop().unwrap();
    let name_tok = rules.pop().unwrap();
    assert(name_tok == orig[1]);
    match name_tok {
        Token::Terminal(name) => Some(Symbol::Main(MainSymbol { name: name.content, expr_ast: exp })),
        Token::NonTerminal(_) => {
            proof {
                assert(false);
            }
            None
        },
    }
}

/// Finds the first main declaration among the circuit's children `rules`,
/// removes it and the end of statement after it, and returns its symbol; when
/// there is none, leaves `rules` as it is and records E301 for `main_file`.
fn load_main_symbol_from_circuit_tokens(main_file: String, rules: &mut Vec<Token>, errors: Vec<CompileError>) -> (r: (
    Option<Symbol>,
    Vec<CompileError>,
))
    ensures
        has_main(old(rules)@) ==> exists|i: int|
            {
                &&& first_main(old(rules)@, i)
                &&& r.0 == Some(main_symbol_of(old(rules)@[i]->NonTerminal_0.subrules@))
                &&& final(rules)@ == old(rules)@.remove(i).remove(i)
                &&& r.1@ == errors@
            },
        !has_main(old(rules)@) ==> {
            &&& r.0 is None
            &&& final(rules)@ == old(rules)@
            &&& r.1@.len() == errors@.len() + 1
            &&& r.1@.drop_last() == errors@
            &&& no_main_error(r.1@.last(), main_file)
        },
{
    let mut mut_errors = errors;
    let ghost orig = rules@;
    let n = rules.len();
    let mut idx: usize = 0;
    while n > 0 && idx < n - 1
        invariant
            n == rules@.len(),
            rules@ == orig,
            orig == old(rules)@,
            forall|j: int| 0 <= j < idx ==> !main_at(orig, j),
            mut_errors@ == errors@,
        decreases n - idx,
    {
        if rules[idx].rule() == Rule::DeclarationStatement && rules[idx + 1].rule() == Rule::END_OF_LINE
            && is_main_declaration(&rules[idx]) {
            let decl = rules.remove(idx);
            rules.remove(idx);
            proof {
                assert(decl == orig[idx as int]);
                assert(first_main(orig, idx as int));
                assert(main_at(orig, idx as int));
            }
            match decl {
                Token::NonTerminal(nt) => {
                    let symbol = match load_main_symbol_from_declaration_tokens(nt.subrules) {
                        Some(symbol) => symbol,
                        None => {
                            proof {
                                assert(false);
                            }
                            return (None, mut_errors);
                        },
                    };
                    proof {
                        assert(rules@ == orig.remove(idx as int).remove(idx as int));
                        assert(Some(symbol) == Some(main_symbol_of(orig[idx as int]->NonTerminal_0.subrules@)));
                        assert(has_main(orig));
                    }
                    return (Some(symbol), mut_errors);
                },
                Token::Terminal(_) => {
                    proof {
                        assert(false);
                    }
                    return (None, mut_errors);
                },
            }
        }
        idx = idx + 1;
    }
    proof {
        assert forall|j: int| !main_at(orig, j) by {
            if 0 <= j && j + 1 < orig.len() {
                assert(j < idx);
            }
        }
    }
    let ghost before = mut_errors@;
    mut_errors.push(LogicError::build("Could not find a main component definition".to_owned(), NO_MAIN_ERROR, main_file));
    proof {
        assert(mut_errors@.drop_last() =~= before);
    }
    (None, mut_errors)
}

/// `f` is `old` with its circuit's children replaced by `children`.
pub open spec fn with_children(f: File, old: File, children: Seq<Token>) -> bool {
    &&& f.path == old.path
    &&& f.includes == old.includes
    &&& f.root.source == old.root.source
    &&& f.root.ast@.len() == 1
    &&& f.root.ast@[0] is NonTerminal
    &&& f.root.ast@[0]->NonTerminal_0.rule == old.root.ast@[0]->NonTerminal_0.rule
    &&& f.root.ast@[0]->NonTerminal_0.span == old.root.ast@[0]->NonTerminal_0.span
    &&& circuit_children(f) == children
}

/// The circuit's children with the first main declaration and the end of
/// statement after it taken out; all of them when there is none.
pub open spec fn without_main(s: Seq<Token>) -> Seq<Token> {
    if has_main(s) {
        let i = choose|i: int| first_main(s, i);
        s.remove(i).remove(i)
    } else {
        s
    }
}

/// The main symbol of `s`, when it has one.
pub open spec fn main_of(s: Seq<Token>) -> Option<Symbol> {
    if has_main(s) {
        let i = choose|i: int| first_main(s, i);
        Some(main_symbol_of(s[i]->NonTerminal_0.subrules@))
    } else {
        None
    }
}

/// A text with a main declaration has a first one.
pub proof fn lemma_first_main_exists(s: Seq<Token>, i: int)
    requires
        main_at(s, i),
    ensures
        exists|j: int| first_main(s, j),
    decreases i,
{
    if exists|j: int| 0 <= j < i && main_at(s, j) {
        let j = choose|j: int| 0 <= j < i && main_at(s, j);
        lemma_first_main_exists(s, j);
    } else {
        assert(first_main(s, i));
    }
}

/// Taking the main declaration out keeps every remaining child shaped.
pub proof fn lemma_without_main_shaped(s: Seq<Token>)
    requires
        forall|k: int| 0 <= k < s.len() ==> top_level_shaped(#[trigger] s[k]),
    ensures
        forall|k: int| 0 <= k < without_main(s).len() ==> top_level_shaped(#[trigger] without_main(s)[k]),
{
    if has_main(s) {
        let i0 = choose|i: int| main_at(s, i);
        lemma_first_main_exists(s, i0);
        let i = choose|i: int| first_main(s, i);
        let w = s.remove(i).remove(i);
        assert forall|k: int| 0 <= k < w.len() implies top_level_shaped(#[trigger] w[k]) by {
            if k < i {
                assert(w[k] == s[k]);
            } else {
                assert(w[k] == s[k + 2]);
            }
        }
    }
}

proof fn lemma_first_main_unique(s: Seq<Token>, i: int, j: int)
    requires
        first_main(s, i),
        first_main(s, j),
    ensures
        i == j,
{
}

/// Main extraction over a whole file: see `load_main_symbol_from_circuit_tokens`.
fn load_main_symbol_from_ast(file: File, errors: Vec<CompileError>) -> (r: (File, Option<Symbol>, Vec<CompileError>))
    requires
        file_shaped(file),
    ensures
        with_children(r.0, file, without_main(circuit_children(file))),
        r.1 == main_of(circuit_children(file)),
        has_main(circuit_children(file)) ==> r.2@ == errors@,
        !has_main(circuit_children(file)) ==> {
            &&& r.2@.len() == errors@.len() + 1
            &&& r.2@.drop_last() == errors@
            &&& no_main_error(r.2@.last(), file.path)
        },
{
    let ghost children = circuit_children(file);
    let File { path, root, includes } = file;
    let RootToken { source, ast } = root;
    let mut ast = ast;
    let tok = ast.pop().unwrap();
    proof {
        assert(tok == file.root.ast@[0]);
    }
    match tok {
        Token::NonTerminal(circuit) => {
            let NonTerminalToken { span, rule, subrules } = circuit;
            let mut subrules = subrules;
            let (symbol, errors) = load_main_symbol_from_circuit_tokens(path.clone(), &mut subrules, errors);
            proof {
                if has_main(children) {
                    let i = choose|i: int|
                        {
                            &&& first_main(children, i)
                            &&& symbol == Some(main_symbol_of(children[i]->NonTerminal_0.subrules@))
                            &&& subrules@ == children.remove(i).remove(i)
                        };
                    let k = choose|k: int| first_main(children, k);
                    lemma_first_main_unique(children, i, k);
                }
            }
            let mut new_ast: Vec<Token> = Vec::new();
            new_ast.push(Token::NonTerminal(NonTerminalToken { span, rule, subrules }));
            let file = File { path, root: RootToken { source, ast: new_ast }, includes };
            (file, symbol, errors)
        },
        Token::Terminal(_) => {
            proof {
                assert(false);
            }
            (File { path, root: RootToken { source, ast }, includes }, None, errors)
        },
    }
}

/// Main extraction: takes the first `component main = <expression>`
/// declaration out of the file and registers it as the module's `Main`
/// symbol; records E301 for the file when there is none.
pub fn load_main_symbol(ctx: SymbolContext, file: File) -> (r: (SymbolContext, File))
    requires
        ctx.wf(),
        file_shaped(file),
    ensures
        r.0.wf(),
        r.0.same_frame(ctx),
        with_children(r.1, file, without_main(circuit_children(file))),
        has_main(circuit_children(file)) ==> {
            &&& r.0.symbols() == ctx.symbols().push(main_of(circuit_children(file))->Some_0)
            &&& r.0.errors@ == ctx.errors@
        },
        !has_main(circuit_children(file)) ==> {
            &&& r.0.symbols() == ctx.symbols()
            &&& r.0.errors@.len() == ctx.errors@.len() + 1
            &&& r.0.errors@.drop_last() == ctx.errors@
            &&& no_main_error(r.0.errors@.last(), file.path)
        },
{
    let SymbolContext { nodes, node, errors, module_store, source, file: path } = ctx;
    let (file, main, errors) = load_main_symbol_from_ast(file, errors);
    let mut ctx = SymbolContext { nodes, node, errors, module_store, source, file: path };
    match main {
        Some(expr) => {
            ctx.push_symbol(expr);
        },
        None => {},
    }
    (ctx, file)
}

} // verus!
