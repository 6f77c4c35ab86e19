//! The symbol-table pipeline for a main file: main extraction, flattening of
//! included modules, then declaration collection.
use vstd::prelude::*;

use crate::ast::{self, File, Rule, Token};
use crate::errors::DUPLICATE_SYMBOL_ERROR;
use crate::matchers::block_shaped;
use crate::errors::{from_pest_parsing, load_error};
use crate::matchers::{circuit_children, file_shaped};
use crate::program::include_symbol_loader::load_includes;
use crate::program::main_symbol_loader::{
    has_main, lemma_without_main_shaped, load_main_symbol, main_of, no_main_error, without_main,
};
use crate::program::symbol::{errors_for, ModuleEntry, Symbol, SymbolContext, SymbolNode, TemplateSymbol};
use crate::program::symbol_loader::{
    collect_from, lemma_collect_append, lemma_collect_grows, load_symbols, names_of, step, symbol_name, Collected,
};

verus! {

/// What declaration collection yields for a module whose circuit children
/// (main declaration included) are `children`: it starts from the main
/// symbol, with `main` as the only claimed name.
pub open spec fn module_collected(children: Seq<Token>) -> Collected {
    collect_from(
        Collected { symbols: seq![main_of(children)->Some_0], issues: Seq::empty(), names: seq!["main"@] },
        without_main(children),
    )
}

/// The template symbol that a template block makes.
pub open spec fn template_symbol_of(t: Token) -> Symbol {
    let rules = t->NonTerminal_0.subrules@;
    Symbol::Template(
        TemplateSymbol {
            name: rules[1]->Terminal_0.content,
            template_params_ast: rules[2],
            template_body_ast: rules[3],
        },
    )
}

/// In a module whose declarations besides main are two templates with the
/// same name, collection records exactly one duplicate-symbol diagnostic
/// (E303), at the second template, and keeps only the first template under
/// that name, after the main symbol.
pub proof fn lemma_duplicate_template(children: Seq<Token>, t1: Token, t2: Token)
    requires
        has_main(children),
        without_main(children) == seq![t1, t2],
        t1.spec_rule() == Rule::TemplateBlock,
        t2.spec_rule() == Rule::TemplateBlock,
        block_shaped(t1, Rule::TemplateKW, Rule::TemplateName),
        block_shaped(t2, Rule::TemplateKW, Rule::TemplateName),
        t1->NonTerminal_0.subrules@[1]->Terminal_0.content@ == t2->NonTerminal_0.subrules@[1]->Terminal_0.content@,
        t1->NonTerminal_0.subrules@[1]->Terminal_0.content@ != "main"@,
    ensures
        module_collected(children).issues == seq![(DUPLICATE_SYMBOL_ERROR, t2.spec_span())],
        module_collected(children).symbols == seq![main_of(children)->Some_0, template_symbol_of(t1)],
{
    let c0 = Collected { symbols: seq![main_of(children)->Some_0], issues: Seq::empty(), names: seq!["main"@] };
    let ts = seq![t1, t2];
    assert(ts.drop_last() =~= seq![t1]);
    assert(seq![t1].drop_last() =~= Seq::<Token>::empty());
    let name = t1->NonTerminal_0.subrules@[1]->Terminal_0.content@;
    assert(collect_from(c0, Seq::<Token>::empty()) == c0);
    assert(collect_from(c0, seq![t1]) == step(c0, t1));
    let c1 = collect_from(c0, seq![t1]);
    assert(collect_from(c0, ts) == step(c1, t2));
    assert(!c0.names.contains(name)) by {
        if c0.names.contains(name) {
            let j = choose|j: int| 0 <= j < c0.names.len() && c0.names[j] == name;
            assert(j == 0);
        }
    }
    assert(c1.names =~= seq!["main"@, name]);
    assert(c1.names.contains(name)) by {
        assert(c1.names[1] == name);
    }
    assert(seq![(DUPLICATE_SYMBOL_ERROR, t2.spec_span())] =~= Seq::<(usize, (usize, usize))>::empty().push(
        (DUPLICATE_SYMBOL_ERROR, t2.spec_span()),
    ));
    assert(seq![main_of(children)->Some_0, template_symbol_of(t1)] =~= seq![main_of(children)->Some_0].push(
        template_symbol_of(t1),
    ));
}

proof fn lemma_collect_one(c: Collected, t: Token)
    ensures
        collect_from(c, seq![t]) == step(c, t),
{
    assert(seq![t].drop_last() =~= Seq::<Token>::empty());
    assert(collect_from(c, Seq::<Token>::empty()) == c);
}

/// Two templates with the same name, wherever they stand among a module's
/// declarations: the first is registered (when its name was free), the
/// second yields a duplicate-symbol diagnostic (E303) at its span and adds
/// nothing, and no symbol registered after the first bears that name.
pub proof fn lemma_first_duplicate_kept(
    c: Collected,
    pre: Seq<Token>,
    t1: Token,
    mid: Seq<Token>,
    t2: Token,
    post: Seq<Token>,
)
    requires
        t1.spec_rule() == Rule::TemplateBlock,
        t2.spec_rule() == Rule::TemplateBlock,
        block_shaped(t1, Rule::TemplateKW, Rule::TemplateName),
        block_shaped(t2, Rule::TemplateKW, Rule::TemplateName),
        t1->NonTerminal_0.subrules@[1]->Terminal_0.content@ == t2->NonTerminal_0.subrules@[1]->Terminal_0.content@,
        !collect_from(c, pre).names.contains(t1->NonTerminal_0.subrules@[1]->Terminal_0.content@),
    ensures
        ({
            let n = t1->NonTerminal_0.subrules@[1]->Terminal_0.content@;
            let c1 = collect_from(c, pre);
            let c3 = collect_from(step(c1, t1), mid);
            let r = collect_from(c, pre + seq![t1] + mid + seq![t2] + post);
            &&& r.symbols[c1.symbols.len() as int] == template_symbol_of(t1)
            &&& step(c3, t2) == (Collected {
                issues: c3.issues.push((DUPLICATE_SYMBOL_ERROR, t2.spec_span())),
                ..c3
            })
            &&& r.issues[c3.issues.len() as int] == (DUPLICATE_SYMBOL_ERROR, t2.spec_span())
            &&& forall|k: int|
                c1.symbols.len() < k < r.symbols.len() ==> symbol_name(#[trigger] r.symbols[k]) != n
        }),
{
    let n = t1->NonTerminal_0.subrules@[1]->Terminal_0.content@;
    let c1 = collect_from(c, pre);
    let c2 = step(c1, t1);
    let c3 = collect_from(c2, mid);
    let c4 = step(c3, t2);
    let r5 = collect_from(c4, post);
    lemma_collect_append(c, pre, seq![t1]);
    lemma_collect_one(c1, t1);
    lemma_collect_append(c, pre + seq![t1], mid);
    lemma_collect_append(c, pre + seq![t1] + mid, seq![t2]);
    lemma_collect_one(c3, t2);
    lemma_collect_append(c, pre + seq![t1] + mid + seq![t2], post);
    let r = collect_from(c, pre + seq![t1] + mid + seq![t2] + post);
    assert(r == r5);
    assert(c2.symbols == c1.symbols.push(template_symbol_of(t1)));
    assert(c2.names == c1.names.push(n));
    lemma_collect_grows(c2, mid);
    assert(c3.names[c1.names.len() as int] == c2.names[c1.names.len() as int]);
    assert(c3.names.contains(n));
    assert(c4 == (Collected { issues: c3.issues.push((DUPLICATE_SYMBOL_ERROR, t2.spec_span())), ..c3 }));
    lemma_collect_grows(c4, post);
    assert(r.symbols[c1.symbols.len() as int] == c4.symbols[c1.symbols.len() as int]);
    assert(c3.symbols[c1.symbols.len() as int] == c2.symbols[c1.symbols.len() as int]);
    assert(r.issues[c3.issues.len() as int] == c4.issues[c3.issues.len() as int]);
    assert forall|k: int| c1.symbols.len() < k < r.symbols.len() implies symbol_name(#[trigger] r.symbols[k]) != n by {
        if k < c4.symbols.len() {
            assert(r.symbols[k] == c4.symbols[k]);
            assert(c3.symbols[k] == c4.symbols[k]);
            assert(c2.names.contains(n)) by {
                assert(c2.names[c1.names.len() as int] == n);
            }
        } else {
            assert(c4.names.contains(n));
        }
    }
}

/// Builds the symbol table of the main file at `main`, given the outcome of
/// loading it. A file that could not be loaded yields its load diagnostic; a
/// file without a main declaration yields E301 and no symbol; otherwise the
/// main symbol, then the collected declarations and their diagnostics.
pub fn build(main: String, loaded: Result<File, ast::ParseError>) -> (r: SymbolContext)
    requires
        loaded is Ok ==> file_shaped(loaded->Ok_0),
    ensures
        r.wf(),
        r.node == 0,
        r.nodes@.len() == 1,
        r.nodes@[0].modules@.len() == 0,
        r.file == main,
        loaded is Err ==> {
            &&& r.errors@.len() == 1
            &&& load_error(r.errors@[0], main, loaded->Err_0)
            &&& r.symbols().len() == 0
        },
        loaded is Ok ==> {
            let f = loaded->Ok_0;
            let children = circuit_children(f);
            &&& r.source == f.root.source
            &&& r.module_store@.len() == 1
            &&& r.module_store@[0].path == main
            &&& r.module_store@[0].node == 0
            &&& !has_main(children) ==> {
                &&& r.errors@.len() == 1
                &&& no_main_error(r.errors@[0], f.path)
                &&& r.symbols().len() == 0
            }
            &&& has_main(children) ==> {
                &&& r.symbols() == module_collected(children).symbols
                &&& errors_for(r.errors@, module_collected(children).issues, main, f.root.source)
            }
        },
{
    let mut nodes: Vec<SymbolNode> = Vec::new();
    nodes.push(SymbolNode { symbols: Vec::new(), modules: Vec::new() });
    let mut ctx = SymbolContext {
        nodes,
        node: 0,
        errors: Vec::new(),
        module_store: Vec::new(),
        source: String::new(),
        file: main.clone(),
    };
    let file = match loaded {
        Ok(file) => file,
        Err(error) => {
            let e = from_pest_parsing(&main, error);
            ctx.errors.push(e);
            return ctx;
        },
    };
    let ghost children = circuit_children(file);
    ctx.source = file.root.source.clone();
    ctx.module_store.push(ModuleEntry { path: main, node: 0 });
    let (ctx, file) = load_main_symbol(ctx, file);
    if ctx.errors.len() != 0 {
        return ctx;
    }
    let mut collision: Vec<String> = Vec::new();
    collision.push("main".to_owned());
    proof {
        assert(names_of(collision@) =~= seq!["main"@]);
    }
    let (ctx, file, collision) = load_includes(ctx, file, collision);
    if ctx.errors.len() != 0 {
        return ctx;
    }
    let ghost before = ctx;
    proof {
        lemma_without_main_shaped(children);
    }
    let (ctx, _collision) = load_symbols(ctx, file, collision);
    proof {
        assert(before.errors@.len() == 0);
        assert(ctx.errors@.subrange(0, ctx.errors@.len() as int) =~= ctx.errors@);
    }
    ctx
}

} // verus!
