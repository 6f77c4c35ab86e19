//! Collection of the templates, functions and global variables declared at
//! the top level of a module, with detection of duplicate names.
use vstd::prelude::*;

use crate::ast::{File, NonTerminalToken, Rule, Token};
use crate::errors::logic::LogicError;
use crate::errors::{DUPLICATE_SYMBOL_ERROR, INVALID_GLOBAL_ERROR};
use crate::matchers::{block_shaped, circuit_children, file_shaped, is_terminal_of, top_level_shaped};
use crate::program::symbol::{
    errors_for, logic_error_at, FunctionSymbol, GlobalVarSymbol, Symbol, SymbolContext, TemplateSymbol,
};

verus! {

/// What collection has produced so far: the module's symbols, the
/// `(code, span)` of each diagnostic, and the names claimed.
pub struct Collected {
    pub symbols: Seq<Symbol>,
    pub issues: Seq<(usize, (usize, usize))>,
    pub names: Seq<Seq<char>>,
}

/// The texts of a list of names.
pub open spec fn names_of(coll: Seq<String>) -> Seq<Seq<char>> {
    coll.map_values(|s: String| s@)
}

/// Registers `sym` under `name`, or records a duplicate (E303) at `span`
/// when the name is already claimed.
pub open spec fn named_step(c: Collected, span: (usize, usize), name: String, sym: Symbol) -> Collected {
    if c.names.contains(name@) {
        Collected { issues: c.issues.push((DUPLICATE_SYMBOL_ERROR, span)), ..c }
    } else {
        Collected { symbols: c.symbols.push(sym), names: c.names.push(name@), ..c }
    }
}

/// `var <name>;`
pub open spec fn var_without_init(rules: Seq<Token>) -> bool {
    &&& rules.len() == 2
    &&& rules[0].spec_rule() == Rule::VariableDeclarationKW
    &&& is_terminal_of(rules[1], Rule::E_VariableName)
}

/// `var <name> = <expression>;`
pub open spec fn var_with_init(rules: Seq<Token>) -> bool {
    &&& rules.len() == 3
    &&& rules[0].spec_rule() == Rule::VariableDeclarationKW
    &&& is_terminal_of(rules[1], Rule::E_VariableName)
    &&& rules[2].spec_rule() == Rule::Expression
}

/// A top-level declaration statement: a global variable, or else an invalid
/// global declaration (E302) at `span`.
pub open spec fn var_step(c: Collected, span: (usize, usize), rules: Seq<Token>) -> Collected {
    let name = rules[1]->Terminal_0.content;
    if var_without_init(rules) {
        named_step(c, span, name, Symbol::GlobalVariable(GlobalVarSymbol { name, expr_ast: None }))
    } else if var_with_init(rules) {
        named_step(c, span, name, Symbol::GlobalVariable(GlobalVarSymbol { name, expr_ast: Some(rules[2]) }))
    } else {
        Collected { issues: c.issues.push((INVALID_GLOBAL_ERROR, span)), ..c }
    }
}

/// The effect of one top-level non-terminal with `rule`, `span` and children
/// `rules`.
pub open spec fn decl_step(c: Collected, rule: Rule, span: (usize, usize), rules: Seq<Token>) -> Collected {
    let name = rules[1]->Terminal_0.content;
    if rule == Rule::TemplateBlock {
        named_step(
            c,
            span,
            name,
            Symbol::Template(TemplateSymbol { name, template_params_ast: rules[2], template_body_ast: rules[3] }),
        )
    } else if rule == Rule::FunctionBlock {
        named_step(
            c,
            span,
            name,
            Symbol::Function(FunctionSymbol { name, function_params_ast: rules[2], function_body_ast: rules[3] }),
        )
    } else if rule == Rule::DeclarationStatement {
        var_step(c, span, rules)
    } else {
        c
    }
}

/// The effect of one top-level token; terminals, inclusion statements and
/// ends of statement change nothing.
pub open spec fn step(c: Collected, t: Token) -> Collected {
    match t {
        Token::NonTerminal(nt) => decl_step(c, nt.rule, nt.span, nt.subrules@),
        Token::Terminal(_) => c,
    }
}

/// Collection over the tokens `ts`, in order, starting from `c`.
pub open spec fn collect_from(c: Collected, ts: Seq<Token>) -> Collected
    decreases ts.len(),
{
    if ts.len() == 0 {
        c
    } else {
        step(collect_from(c, ts.drop_last()), ts.last())
    }
}

/// Collection over `a` then `b` is collection over `a + b`.
pub proof fn lemma_collect_append(c: Collected, a: Seq<Token>, b: Seq<Token>)
    ensures
        collect_from(c, a + b) == collect_from(collect_from(c, a), b),
    decreases b.len(),
{
    if b.len() == 0 {
        assert(a + b =~= a);
    } else {
        lemma_collect_append(c, a, b.drop_last());
        assert((a + b).drop_last() =~= a + b.drop_last());
        assert((a + b).last() == b.last());
    }
}

/// A top-level declaration statement that is not a global variable, after
/// any declarations `pre`, records exactly one invalid-declaration diagnostic
/// (E302) at its span, claims no name, adds no symbol, and collection goes on
/// with the declarations after it as if it were absent.
pub proof fn lemma_invalid_global_continues(c: Collected, pre: Seq<Token>, bad: Token, rest: Seq<Token>)
    requires
        bad is NonTerminal,
        bad->NonTerminal_0.rule == Rule::DeclarationStatement,
        !var_without_init(bad->NonTerminal_0.subrules@),
        !var_with_init(bad->NonTerminal_0.subrules@),
    ensures
        ({
            let c1 = collect_from(c, pre);
            collect_from(c, pre + seq![bad] + rest) == collect_from(
                Collected { issues: c1.issues.push((INVALID_GLOBAL_ERROR, bad.spec_span())), ..c1 },
                rest,
            )
        }),
{
    let c1 = collect_from(c, pre);
    lemma_collect_append(c, pre + seq![bad], rest);
    lemma_collect_append(c, pre, seq![bad]);
    assert(seq![bad].drop_last() =~= Seq::<Token>::empty());
    assert(collect_from(c1, Seq::<Token>::empty()) == c1);
    assert(collect_from(c1, seq![bad]) == step(c1, bad));
}

/// The name that a symbol declares.
pub open spec fn symbol_name(s: Symbol) -> Seq<char> {
    match s {
        Symbol::Main(m) => m.name@,
        Symbol::Template(t) => t.name@,
        Symbol::Function(f) => f.name@,
        Symbol::GlobalVariable(g) => g.name@,
    }
}

/// `a` is `b` followed by something.
pub open spec fn extends<A>(a: Seq<A>, b: Seq<A>) -> bool {
    b.len() <= a.len() && a.subrange(0, b.len() as int) == b
}

/// One step adds nothing, or one diagnostic, or one symbol under a name not
/// claimed before, which it claims.
proof fn lemma_step_shape(c: Collected, t: Token)
    ensures
        ({
            let r = step(c, t);
            ||| r == c
            ||| r == (Collected { issues: r.issues, ..c }) && r.issues.len() == c.issues.len() + 1
                && r.issues.drop_last() == c.issues
            ||| r.issues == c.issues && r.symbols.len() == c.symbols.len() + 1 && r.symbols.drop_last() == c.symbols
                && r.names == c.names.push(symbol_name(r.symbols.last())) && !c.names.contains(
                symbol_name(r.symbols.last()),
            )
        }),
{
    let r = step(c, t);
    assert(c.issues.push((DUPLICATE_SYMBOL_ERROR, t.spec_span())).drop_last() =~= c.issues);
    assert(c.issues.push((INVALID_GLOBAL_ERROR, t.spec_span())).drop_last() =~= c.issues);
    if r.symbols.len() == c.symbols.len() + 1 {
        assert(r.symbols.drop_last() =~= c.symbols);
    }
}

/// Collection only appends to the symbols, the diagnostics and the claimed
/// names, and every symbol it adds bears a name that was not claimed before.
pub proof fn lemma_collect_grows(c: Collected, ts: Seq<Token>)
    ensures
        extends(collect_from(c, ts).symbols, c.symbols),
        extends(collect_from(c, ts).issues, c.issues),
        extends(collect_from(c, ts).names, c.names),
        forall|k: int|
            c.symbols.len() <= k < collect_from(c, ts).symbols.len() ==> !c.names.contains(
                symbol_name(#[trigger] collect_from(c, ts).symbols[k]),
            ),
    decreases ts.len(),
{
    if ts.len() == 0 {
        assert(c.symbols.subrange(0, c.symbols.len() as int) =~= c.symbols);
        assert(c.issues.subrange(0, c.issues.len() as int) =~= c.issues);
        assert(c.names.subrange(0, c.names.len() as int) =~= c.names);
    } else {
        let m = collect_from(c, ts.drop_last());
        lemma_collect_grows(c, ts.drop_last());
        lemma_step_shape(m, ts.last());
        let r = collect_from(c, ts);
        assert(r == step(m, ts.last()));
        assert(r.symbols.subrange(0, c.symbols.len() as int) =~= m.symbols.subrange(0, c.symbols.len() as int));
        assert(r.issues.subrange(0, c.issues.len() as int) =~= m.issues.subrange(0, c.issues.len() as int));
        assert(r.names.subrange(0, c.names.len() as int) =~= m.names.subrange(0, c.names.len() as int));
        assert forall|k: int| c.symbols.len() <= k < r.symbols.len() implies !c.names.contains(
            symbol_name(#[trigger] r.symbols[k]),
        ) by {
            if k < m.symbols.len() {
                assert(r.symbols[k] == m.symbols[k]);
            } else {
                let x = symbol_name(r.symbols[k]);
                assert(r.symbols[k] == r.symbols.last());
                if c.names.contains(x) {
                    let i = choose|i: int| 0 <= i < c.names.len() && c.names[i] == x;
                    assert(m.names[i] == c.names[i]);
                }
            }
        }
    }
}

/// `ctx` and the claimed names `coll` stand for `c`, counted from `base`:
/// same frame, the symbols and names of `c`, and the diagnostics of `base`
/// followed by those of `c`'s issues.
pub open spec fn models(base: SymbolContext, ctx: SymbolContext, coll: Seq<String>, c: Collected) -> bool {
    &&& ctx.wf()
    &&& ctx.same_frame(base)
    &&& ctx.symbols() == c.symbols
    &&& names_of(coll) == c.names
    &&& ctx.errors@.len() == base.errors@.len() + c.issues.len()
    &&& ctx.errors@.subrange(0, base.errors@.len() as int) == base.errors@
    &&& errors_for(
        ctx.errors@.subrange(base.errors@.len() as int, ctx.errors@.len() as int),
        c.issues,
        base.file,
        base.source,
    )
}

/// The state in which collection starts from `ctx` and the names `coll`.
pub open spec fn start_of(ctx: SymbolContext, coll: Seq<String>) -> Collected {
    Collected { symbols: ctx.symbols(), issues: Seq::empty(), names: names_of(coll) }
}

proof fn lemma_models_start(ctx: SymbolContext, coll: Seq<String>)
    requires
        ctx.wf(),
    ensures
        models(ctx, ctx, coll, start_of(ctx, coll)),
{
    assert(ctx.errors@.subrange(0, ctx.errors@.len() as int) =~= ctx.errors@);
    assert(ctx.errors@.subrange(ctx.errors@.len() as int, ctx.errors@.len() as int) =~= Seq::<crate::errors::CompileError>::empty());
}

/// Whether `name` is among `coll`.
fn contains_name(coll: &Vec<String>, name: &String) -> (r: bool)
    ensures
        r == names_of(coll@).contains(name@),
{
    let mut k: usize = 0;
    while k < coll.len()
        invariant
            k <= coll@.len(),
            forall|i: int| 0 <= i < k ==> coll@[i]@ != name@,
        decreases coll@.len() - k,
    {
        if coll[k] == *name {
            proof {
                assert(names_of(coll@)[k as int] == name@);
            }
            return true;
        }
        k = k + 1;
    }
    proof {
        if names_of(coll@).contains(name@) {
            let j = choose|j: int| 0 <= j < names_of(coll@).len() && names_of(coll@)[j] == name@;
            assert(coll@[j]@ == name@);
        }
    }
    false
}

/// Records the structural diagnostic `code` at `span` of the current module.
fn push_logic_error(
    ctx: SymbolContext,
    coll: &Vec<String>,
    code: usize,
    msg: &str,
    span: (usize, usize),
    Ghost(base): Ghost<SymbolContext>,
    Ghost(c): Ghost<Collected>,
) -> (r: SymbolContext)
    requires
        models(base, ctx, coll@, c),
        msg@ == crate::program::symbol::logic_message(code),
    ensures
        models(base, r, coll@, Collected { issues: c.issues.push((code, span)), ..c }),
{
    let mut ctx = ctx;
    let e = LogicError::build_with_span(msg.to_owned(), code, ctx.file.clone(), &ctx.source, span);
    let ghost before = ctx.errors@;
    ctx.errors.push(e);
    proof {
        let bl = base.errors@.len() as int;
        assert(ctx.errors@.subrange(0, bl) =~= before.subrange(0, bl));
        assert(ctx.errors@.subrange(bl, ctx.errors@.len() as int) =~= before.subrange(bl, before.len() as int).push(e));
        assert(logic_error_at(e, code, base.file, base.source, span));
        let c2 = Collected { issues: c.issues.push((code, span)), ..c };
        let errs = ctx.errors@.subrange(bl, ctx.errors@.len() as int);
        assert forall|i: int| 0 <= i < c2.issues.len() implies logic_error_at(
            #[trigger] errs[i],
            c2.issues[i].0,
            base.file,
            base.source,
            c2.issues[i].1,
        ) by {
            if i < c.issues.len() {
                assert(errs[i] == before.subrange(bl, before.len() as int)[i]);
            }
        }
    }
    ctx
}

/// Registers `sym` under `name`, or records a duplicate at `span`.
fn register(
    span: (usize, usize),
    ctx: SymbolContext,
    collision: Vec<String>,
    name: String,
    sym: Symbol,
    Ghost(base): Ghost<SymbolContext>,
    Ghost(c): Ghost<Collected>,
) -> (r: (SymbolContext, Vec<String>))
    requires
        models(base, ctx, collision@, c),
    ensures
        models(base, r.0, r.1@, named_step(c, span, name, sym)),
{
    let mut collision = collision;
    if contains_name(&collision, &name) {
        let ctx = push_logic_error(
            ctx,
            &collision,
            DUPLICATE_SYMBOL_ERROR,
            "Duplicate symbol detected: the following symbol already exists.",
            span,
            Ghost(base),
            Ghost(c),
        );
        return (ctx, collision);
    }
    let ghost names_before = collision@;
    collision.push(name);
    proof {
        assert(names_of(collision@) =~= names_of(names_before).push(name@));
    }
    let mut ctx = ctx;
    ctx.push_symbol(sym);
    (ctx, collision)
}

/// A global variable with an optional initializer.
fn token_to_var_symbol(
    span: &(usize, usize),
    ctx: SymbolContext,
    collision: Vec<String>,
    name: String,
    expr: Option<Token>,
    Ghost(base): Ghost<SymbolContext>,
    Ghost(c): Ghost<Collected>,
) -> (r: (SymbolContext, Vec<String>))
    requires
        models(base, ctx, collision@, c),
    ensures
        models(
            base,
            r.0,
            r.1@,
            named_step(c, *span, name, Symbol::GlobalVariable(GlobalVarSymbol { name, expr_ast: expr })),
        ),
{
    let sym = Symbol::GlobalVariable(GlobalVarSymbol { name: name.clone(), expr_ast: expr });
    register(*span, ctx, collision, name, sym, Ghost(base), Ghost(c))
}

/// A top-level declaration statement with children `rules`.
fn load_global_var_from_tokens(
    span: &(usize, usize),
    rules: Vec<Token>,
    ctx: SymbolContext,
    collision: Vec<String>,
    Ghost(base): Ghost<SymbolContext>,
    Ghost(c): Ghost<Collected>,
) -> (r: (SymbolContext, Vec<String>))
    requires
        models(base, ctx, collision@, c),
    ensures
        models(base, r.0, r.1@, var_step(c, *span, rules@)),
{
    let mut rules = rules;
    let ghost orig = rules@;
    let n = rules.len();
    if (n == 2 || n == 3) && rules[0].rule() == Rule::VariableDeclarationKW && rules[1].rule() == Rule::E_VariableName
        && matches!(rules[1], Token::Terminal(_)) && (n == 2 || rules[2].rule() == Rule::Expression) {
        let expr = if n == 3 {
            rules.pop()
        } else {
            None
        };
        let name_tok = rules.pop();
        match name_tok {
            Some(Token::Terminal(name)) => {
                proof {
                    assert(name == orig[1]->Terminal_0);
                }
                token_to_var_symbol(span, ctx, collision, name.content, expr, Ghost(base), Ghost(c))
            },
            _ => {
                proof {
                    assert(false);
                }
                (ctx, collision)
            },
        }
    } else {
        let ctx = push_logic_error(
            ctx,
            &collision,
            INVALID_GLOBAL_ERROR,
            "Invalid global declaration: only main component and vars allowed",
            *span,
            Ghost(base),
            Ghost(c),
        );
        (ctx, collision)
    }
}

/// The name terminal, parameters and body of a template or function block.
fn split_block(rules: Vec<Token>) -> (r: (String, Token, Token))
    requires
        rules@.len() == 4,
        rules@[1] is Terminal,
    ensures
        r.0 == rules@[1]->Terminal_0.content,
        r.1 == rules@[2],
        r.2 == rules@[3],
{
    let mut rules = rules;
    let ghost orig = rules@;
    let body = rules.pop().unwrap();
    let params = rules.pop().unwrap();
    let name_tok = rules.pop().unwrap();
    assert(name_tok == orig[1]);
    match name_tok {
        Token::Terminal(t) => (t.content, params, body),
        Token::NonTerminal(_) => {
            proof {
                assert(false);
            }
            (String::new(), params, body)
        },
    }
}

/// A function block with children `rules`.
fn load_function_from_tokens(
    span: &(usize, usize),
    rules: Vec<Token>,
    ctx: SymbolContext,
    collision: Vec<String>,
    Ghost(base): Ghost<SymbolContext>,
    Ghost(c): Ghost<Collected>,
) -> (r: (SymbolContext, Vec<String>))
    requires
        models(base, ctx, collision@, c),
        block_shaped(
            Token::NonTerminal(NonTerminalToken { span: *span, rule: Rule::FunctionBlock, subrules: rules }),
            Rule::FunctionKW,
            Rule::FunctionName,
        ),
    ensures
        models(base, r.0, r.1@, decl_step(c, Rule::FunctionBlock, *span, rules@)),
{
    let (name, params, body) = split_block(rules);
    let sym = Symbol::Function(
        FunctionSymbol { name: name.clone(), function_params_ast: params, function_body_ast: body },
    );
    register(*span, ctx, collision, name, sym, Ghost(base), Ghost(c))
}

/// A template block with children `rules`.
fn load_template_from_tokens(
    span: &(usize, usize),
    rules: Vec<Token>,
    ctx: SymbolContext,
    collision: Vec<String>,
    Ghost(base): Ghost<SymbolContext>,
    Ghost(c): Ghost<Collected>,
) -> (r: (SymbolContext, Vec<String>))
    requires
        models(base, ctx, collision@, c),
        block_shaped(
            Token::NonTerminal(NonTerminalToken { span: *span, rule: Rule::TemplateBlock, subrules: rules }),
            Rule::TemplateKW,
            Rule::TemplateName,
        ),
    ensures
        models(base, r.0, r.1@, decl_step(c, Rule::TemplateBlock, *span, rules@)),
{
    let (name, params, body) = split_block(rules);
    let sym = Symbol::Template(
        TemplateSymbol { name: name.clone(), template_params_ast: params, template_body_ast: body },
    );
    register(*span, ctx, collision, name, sym, Ghost(base), Ghost(c))
}

/// Collects the declarations among the children of `circuit`, in order.
fn load_symbols_from_circuit(circuit: NonTerminalToken, ctx: SymbolContext, collision: Vec<String>) -> (r: (
    SymbolContext,
    Vec<String>,
))
    requires
        ctx.wf(),
        forall|i: int| 0 <= i < circuit.subrules@.len() ==> top_level_shaped(#[trigger] circuit.subrules@[i]),
    ensures
        models(ctx, r.0, r.1@, collect_from(start_of(ctx, collision@), circuit.subrules@)),
{
    let ghost base = ctx;
    let ghost c0 = start_of(ctx, collision@);
    let ghost all = circuit.subrules@;
    proof {
        lemma_models_start(ctx, collision@);
    }
    let mut mut_ctx = ctx;
    let mut mut_collision = collision;
    for token in it: circuit.subrules.into_iter()
        invariant
            it.seq() == all,
            forall|i: int| 0 <= i < all.len() ==> top_level_shaped(#[trigger] all[i]),
            models(base, mut_ctx, mut_collision@, collect_from(c0, all.subrange(0, it.index() as int))),
    {
        let ghost k = it.index() as int;
        let ghost c = collect_from(c0, all.subrange(0, k));
        proof {
            assert(all.subrange(0, k + 1).drop_last() =~= all.subrange(0, k));
            assert(token == all[k]);
            assert(top_level_shaped(all[k]));
        }
        let (ret_ctx, ret_collision) = match token {
            Token::NonTerminal(nt) => {
                let span = nt.span;
                if nt.rule == Rule::TemplateBlock {
                    load_template_from_tokens(&span, nt.subrules, mut_ctx, mut_collision, Ghost(base), Ghost(c))
                } else if nt.rule == Rule::FunctionBlock {
                    load_function_from_tokens(&span, nt.subrules, mut_ctx, mut_collision, Ghost(base), Ghost(c))
                } else if nt.rule == Rule::DeclarationStatement {
                    load_global_var_from_tokens(&span, nt.subrules, mut_ctx, mut_collision, Ghost(base), Ghost(c))
                } else {
                    (mut_ctx, mut_collision)
                }
            },
            Token::Terminal(_) => (mut_ctx, mut_collision),
        };
        mut_ctx = ret_ctx;
        mut_collision = ret_collision;
    }
    proof {
        assert(all.subrange(0, all.len() as int) =~= all);
    }
    (mut_ctx, mut_collision)
}

/// Declaration collection over a module: registers each template, function
/// and global variable among the circuit's top-level children in order,
/// records a duplicate name (E303) or an invalid global declaration (E302)
/// and goes on with the next declaration.
pub fn load_symbols(ctx: SymbolContext, file: File, collision: Vec<String>) -> (r: (SymbolContext, Vec<String>))
    requires
        ctx.wf(),
        file_shaped(file),
    ensures
        models(ctx, r.0, r.1@, collect_from(start_of(ctx, collision@), circuit_children(file))),
{
    let ghost children = circuit_children(file);
    let mut ast = file.root.ast;
    let root = ast.pop().unwrap();
    proof {
        assert(root == file.root.ast@[0]);
        assert(root->NonTerminal_0.subrules@ == children);
    }
    match root {
        Token::NonTerminal(circuit) => load_symbols_from_circuit(circuit, ctx, collision),
        Token::Terminal(_) => {
            proof {
                assert(false);
            }
            (ctx, collision)
        },
    }
}

} // verus!
