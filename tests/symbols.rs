use libsnarkrs::ast::{self, pest_to_tokens, File, ParseNode, Rule, Token};
use libsnarkrs::compile::{build_context, Action, LoadAttempt};
use libsnarkrs::errors::parse::FailurePosition;
use libsnarkrs::errors::ErrorInfos;
use libsnarkrs::matchers::process_include_statement;
use libsnarkrs::program::pipeline::build;
use libsnarkrs::program::symbol::Symbol;

fn at(src: &str, from: usize, pat: &str) -> (usize, usize) {
    let i = from + src[from..].find(pat).expect("pattern in source");
    (i, i + pat.len())
}

fn leaf(rule: Rule, span: (usize, usize)) -> ParseNode {
    ParseNode { rule, span, children: Vec::new() }
}

fn inner(rule: Rule, span: (usize, usize), children: Vec<ParseNode>) -> ParseNode {
    ParseNode { rule, span, children }
}

fn include_node(src: &str, from: usize, path: &str) -> ParseNode {
    let kw = at(src, from, "include");
    let quoted = at(src, kw.1, &format!("\"{}\"", path));
    let p = at(src, quoted.0, path);
    let semi = at(src, quoted.1, ";");
    inner(
        Rule::IncludeStatement,
        (kw.0, semi.1),
        vec![
            leaf(Rule::IncludeKW, kw),
            inner(Rule::IncludePathString, quoted, vec![leaf(Rule::FilesystemPath, p)]),
            leaf(Rule::END_OF_LINE, semi),
        ],
    )
}

/// `template <name>(...) {...}` starting at the text `template` after `from`.
fn block_node(src: &str, from: usize, kw: &str, name: &str) -> (ParseNode, usize) {
    let (rule, kw_rule, name_rule) = if kw == "template" {
        (Rule::TemplateBlock, Rule::TemplateKW, Rule::TemplateName)
    } else {
        (Rule::FunctionBlock, Rule::FunctionKW, Rule::FunctionName)
    };
    let k = at(src, from, kw);
    let n = at(src, k.1, name);
    let params = at(src, n.1, "()");
    let open = at(src, params.1, "{");
    let close = at(src, open.1, "}");
    let body = (open.0, close.1);
    let node = inner(
        rule,
        (k.0, close.1),
        vec![
            leaf(kw_rule, k),
            leaf(name_rule, n),
            leaf(Rule::Parameters, params),
            inner(Rule::Body, body, vec![leaf(Rule::Other, (open.0 + 1, close.0))]),
        ],
    );
    (node, close.1)
}

/// `component <name> = <expr>` then `;`.
fn component_node(src: &str, from: usize, name: &str, expr: &str) -> (ParseNode, ParseNode, usize) {
    let k = at(src, from, "component");
    let n = at(src, k.1, name);
    let e = at(src, n.1, expr);
    let semi = at(src, e.1, ";");
    let decl = inner(
        Rule::DeclarationStatement,
        (k.0, e.1),
        vec![
            leaf(Rule::ComponentDeclarationKW, k),
            leaf(Rule::E_VariableName, n),
            inner(Rule::Expression, e, vec![leaf(Rule::E_VariableName, (e.0, e.0 + 1))]),
        ],
    );
    (decl, leaf(Rule::END_OF_LINE, semi), semi.1)
}

/// `var <name>` (with `= <expr>` when given) then `;`.
fn var_node(src: &str, from: usize, name: &str, expr: Option<&str>) -> (ParseNode, ParseNode, usize) {
    let k = at(src, from, "var");
    let n = at(src, k.1, name);
    let mut children = vec![leaf(Rule::VariableDeclarationKW, k), leaf(Rule::E_VariableName, n)];
    let mut end = n.1;
    if let Some(x) = expr {
        let e = at(src, n.1, x);
        children.push(inner(Rule::Expression, e, vec![leaf(Rule::E_Decimal, e)]));
        end = e.1;
    }
    let semi = at(src, end, ";");
    (inner(Rule::DeclarationStatement, (k.0, end), children), leaf(Rule::END_OF_LINE, semi), semi.1)
}

fn file_of(path: &str, src: &str, children: Vec<ParseNode>) -> File {
    let circuit = inner(Rule::Circuit, (0, src.chars().count()), children);
    let nodes = vec![circuit];
    for n in &nodes {
        assert!(n.is_in_bounds(src.chars().count()));
    }
    File { path: path.to_string(), root: pest_to_tokens(src, &nodes), includes: Vec::new() }
}

const EXAMPLE: &str = "include \"a.circom\"; template T(){signal x; x === 1;} component main = T();";

fn example_file() -> File {
    let inc = include_node(EXAMPLE, 0, "a.circom");
    let (tpl, end) = block_node(EXAMPLE, inc.span.1, "template", "T");
    let (main, eol, _) = component_node(EXAMPLE, end, "main", "T()");
    file_of("/w/main.circom", EXAMPLE, vec![inc, tpl, main, eol])
}

fn names(ctx: &libsnarkrs::program::symbol::SymbolContext) -> Vec<(String, String)> {
    ctx.nodes[ctx.node]
        .symbols
        .iter()
        .map(|s| match s {
            Symbol::Main(m) => ("main".to_string(), m.name.clone()),
            Symbol::Template(t) => ("template".to_string(), t.name.clone()),
            Symbol::Function(f) => ("function".to_string(), f.name.clone()),
            Symbol::GlobalVariable(g) => ("var".to_string(), g.name.clone()),
        })
        .collect()
}

fn codes(ctx: &libsnarkrs::program::symbol::SymbolContext) -> Vec<usize> {
    ctx.errors.iter().map(|e| e.code).collect()
}

#[test]
fn terminal_content_is_source_slice() {
    let f = example_file();
    fn check(t: &Token, src: &Vec<char>) {
        match t {
            Token::Terminal(term) => {
                let slice: String = src[term.span.0..term.span.1].iter().collect();
                assert_eq!(term.content, slice);
            },
            Token::NonTerminal(nt) => {
                let mut last = nt.span.0;
                for c in &nt.subrules {
                    let (s, e) = c.span();
                    assert!(nt.span.0 <= s && e <= nt.span.1);
                    assert!(last <= s);
                    last = s;
                    check(c, src);
                }
            },
        }
    }
    let src: Vec<char> = f.root.source.chars().collect();
    assert_eq!(f.root.ast.len(), 1);
    check(&f.root.ast[0], &src);
    match &f.root.ast[0] {
        Token::NonTerminal(c) => assert_eq!(c.subrules.len(), 4),
        Token::Terminal(_) => panic!("circuit must be a non-terminal"),
    }
}

#[test]
fn out_of_bounds_tree_is_detected() {
    let n = inner(Rule::Circuit, (0, 3), vec![leaf(Rule::Other, (2, 9))]);
    assert!(!n.is_in_bounds(5));
    assert!(n.is_in_bounds(9));
}

#[test]
fn example_module_symbols() {
    let f = example_file();
    assert!(f.is_well_shaped());
    let ctx = build("/w/main.circom".to_string(), Ok(f));
    assert_eq!(ctx.errors.len(), 0);
    assert_eq!(names(&ctx), vec![("main".to_string(), "main".to_string()), ("template".to_string(), "T".to_string())]);
    match &ctx.nodes[ctx.node].symbols[1] {
        Symbol::Template(t) => {
            assert_eq!(t.template_params_ast.span(), at(EXAMPLE, 0, "()"));
            assert_eq!(t.template_body_ast.span(), at(EXAMPLE, 0, "{signal x; x === 1;}"));
        },
        _ => panic!("expected the template"),
    }
    match &ctx.nodes[ctx.node].symbols[0] {
        Symbol::Main(m) => assert_eq!(m.expr_ast.span(), at(EXAMPLE, 60, "T()")),
        _ => panic!("expected the main symbol"),
    }
    assert_eq!(ctx.module_store.len(), 1);
    assert_eq!(ctx.module_store[0].path, "/w/main.circom");
}

#[test]
fn example_include_target_resolved_to_directory() {
    let f = example_file();
    match &f.root.ast[0] {
        Token::NonTerminal(c) => assert_eq!(process_include_statement(&c.subrules[0]), "a.circom"),
        Token::Terminal(_) => panic!("circuit must be a non-terminal"),
    }
    let (mut ctx, action) = build_context(&"/w/main.circom".to_string());
    assert!(matches!(action, Action::Load(_)));
    let next = ctx.try_resume(Ok(f)).expect("a well-shaped file");
    match next {
        Action::Load(p) => assert_eq!(p, "/w/a.circom"),
        Action::Done => panic!("the include must be asked for"),
    }
    let next = ctx.try_resume(Err(ast::ParseError::IOError("absent".to_string()))).expect("failures are handed over");
    assert!(matches!(next, Action::Done));
    match &ctx.files()[0].attempt {
        LoadAttempt::Loaded(main) => assert_eq!(main.includes, vec!["/w/a.circom".to_string()]),
        _ => panic!("the main file must be loaded"),
    }
}

#[test]
fn duplicate_template_reported_once() {
    let src = "template A(){} template A(){} component main = A();";
    let (t1, e1) = block_node(src, 0, "template", "A");
    let (t2, e2) = block_node(src, e1, "template", "A");
    let (m, eol, _) = component_node(src, e2, "main", "A()");
    let ctx = build("/w/m.circom".to_string(), Ok(file_of("/w/m.circom", src, vec![t1, t2, m, eol])));
    assert_eq!(codes(&ctx), vec![303]);
    assert_eq!(names(&ctx), vec![("main".to_string(), "main".to_string()), ("template".to_string(), "A".to_string())]);
    match &ctx.nodes[ctx.node].symbols[1] {
        Symbol::Template(t) => assert_eq!(t.template_body_ast.span(), (12, 14)),
        _ => panic!("expected the first template"),
    }
    match &ctx.errors[0].infos {
        ErrorInfos::LogicError(l) => assert_eq!(l.render(), "In \"/w/m.circom\":\n\n1 | template A(){} template A(){} component main = A();"),
        _ => panic!("expected a logic error"),
    }
}

#[test]
fn missing_main_reported_once() {
    let src = "template A(){} function f(){}";
    let (t1, e1) = block_node(src, 0, "template", "A");
    let (f1, _) = block_node(src, e1, "function", "f");
    let ctx = build("/w/m.circom".to_string(), Ok(file_of("/w/m.circom", src, vec![t1, f1])));
    assert_eq!(codes(&ctx), vec![301]);
    assert_eq!(ctx.errors[0].msg, "Could not find a main component definition");
    assert!(names(&ctx).is_empty());
}

#[test]
fn invalid_global_reported_and_collection_continues() {
    let src = "component c = X(); var a = 3; component main = X();";
    let (bad, eol0, e0) = component_node(src, 0, "c", "X()");
    let (v, eol1, e1) = var_node(src, e0, "a", Some("3"));
    let (m, eol2, _) = component_node(src, e1, "main", "X()");
    let ctx = build("/w/m.circom".to_string(), Ok(file_of("/w/m.circom", src, vec![bad, eol0, v, eol1, m, eol2])));
    assert_eq!(codes(&ctx), vec![302]);
    assert_eq!(ctx.errors[0].msg, "Invalid global declaration: only main component and vars allowed");
    assert_eq!(names(&ctx), vec![("main".to_string(), "main".to_string()), ("var".to_string(), "a".to_string())]);
    match &ctx.nodes[ctx.node].symbols[1] {
        Symbol::GlobalVariable(g) => assert!(g.expr_ast.is_some()),
        _ => panic!("expected the variable"),
    }
}

#[test]
fn names_collide_across_kinds_and_with_main() {
    let src = "var main; var b; function b(){} template b(){} var c; component main = X();";
    let (v0, q0, e0) = var_node(src, 0, "main", None);
    let (v1, q1, e1) = var_node(src, e0, "b", None);
    let (f1, e2) = block_node(src, e1, "function", "b");
    let (t1, e3) = block_node(src, e2, "template", "b");
    let (v2, q2, e4) = var_node(src, e3, "c", None);
    let (m, q3, _) = component_node(src, e4, "main", "X()");
    let ctx = build("/w/m.circom".to_string(), Ok(file_of("/w/m.circom", src, vec![v0, q0, v1, q1, f1, t1, v2, q2, m, q3])));
    assert_eq!(codes(&ctx), vec![303, 303, 303]);
    assert_eq!(
        names(&ctx),
        vec![
            ("main".to_string(), "main".to_string()),
            ("var".to_string(), "b".to_string()),
            ("var".to_string(), "c".to_string()),
        ]
    );
}

#[test]
fn first_main_declaration_is_taken() {
    let src = "component main = A(); component main = B();";
    let (m1, q1, e1) = component_node(src, 0, "main", "A()");
    let (m2, q2, _) = component_node(src, e1, "main", "B()");
    let ctx = build("/w/m.circom".to_string(), Ok(file_of("/w/m.circom", src, vec![m1, q1, m2, q2])));
    assert_eq!(codes(&ctx), vec![302]);
    match &ctx.nodes[ctx.node].symbols[0] {
        Symbol::Main(m) => assert_eq!(m.expr_ast.span(), (17, 20)),
        _ => panic!("expected the main symbol"),
    }
}

#[test]
fn unreadable_main_file() {
    let ctx = build("/w/none.circom".to_string(), Err(ast::ParseError::IOError("No such file".to_string())));
    assert_eq!(codes(&ctx), vec![201]);
    assert!(names(&ctx).is_empty());
}

#[test]
fn rejected_main_file() {
    let failure = ast::ParseError::PestError(FailurePosition { line: 1, column: 5, offset: 4 }, "abc de".to_string());
    let ctx = build("/w/bad.circom".to_string(), Err(failure));
    assert_eq!(codes(&ctx), vec![101]);
    match &ctx.errors[0].infos {
        ErrorInfos::ParseError(p) => assert_eq!(p.buff, "  |\n1 | abc de\n  |     ^     "),
        _ => panic!("expected a parse error"),
    }
}

#[test]
fn succesful_program_build() {
    let src = "template Num2Bits(){} function nbits(){} var k = 1; component main = Num2Bits();";
    let (t, e0) = block_node(src, 0, "template", "Num2Bits");
    let (f, e1) = block_node(src, e0, "function", "nbits");
    let (v, q0, e2) = var_node(src, e1, "k", Some("1"));
    let (m, q1, _) = component_node(src, e2, "main", "Num2Bits()");
    let ctx = build("/w/main_bitify.circom".to_string(), Ok(file_of("/w/main_bitify.circom", src, vec![t, f, v, q0, m, q1])));
    assert_eq!(ctx.errors.len(), 0);
    assert_eq!(names(&ctx).len(), 4);
}
