use libsnarkrs::ast::{self, pest_to_tokens, File, ParseNode, Rule};
use libsnarkrs::common::chain::{Element, Link};
use libsnarkrs::compile::{build_context, Action, Context, LoadAttempt};
use libsnarkrs::errors::parse::FailurePosition;

fn leaf(rule: Rule, span: (usize, usize)) -> ParseNode {
    ParseNode { rule, span, children: Vec::new() }
}

/// A file made only of inclusion statements, one per name.
fn includer(path: &str, targets: &[&str]) -> File {
    let mut src = String::new();
    let mut children = Vec::new();
    for t in targets {
        let start = src.chars().count();
        src.push_str("include \"");
        let p0 = src.chars().count();
        src.push_str(t);
        let p1 = src.chars().count();
        src.push_str("\";");
        let end = src.chars().count();
        children.push(ParseNode {
            rule: Rule::IncludeStatement,
            span: (start, end),
            children: vec![
                leaf(Rule::IncludeKW, (start, start + 7)),
                ParseNode {
                    rule: Rule::IncludePathString,
                    span: (p0 - 1, p1 + 1),
                    children: vec![leaf(Rule::FilesystemPath, (p0, p1))],
                },
                leaf(Rule::END_OF_LINE, (end - 1, end)),
            ],
        });
        src.push(' ');
    }
    let semi = src.chars().count();
    src.push(';');
    children.push(leaf(Rule::END_OF_LINE, (semi, semi + 1)));
    let circuit = ParseNode { rule: Rule::Circuit, span: (0, src.chars().count()), children };
    File { path: path.to_string(), root: pest_to_tokens(&src, &vec![circuit]), includes: Vec::new() }
}

/// Runs resolution against a set of files, each given by its path and the
/// names it includes; any other path cannot be read. Returns the context and
/// the number of loads.
fn resolve(main: &str, disk: &[(&str, &[&str])]) -> (Context, usize) {
    let (mut ctx, mut action) = build_context(&main.to_string());
    let mut loads = 0;
    while let Action::Load(path) = action {
        loads += 1;
        assert!(loads < 100, "resolution does not end");
        let outcome = match disk.iter().find(|(p, _)| *p == path) {
            Some((p, targets)) => Ok(includer(p, targets)),
            None => Err(ast::ParseError::IOError("No such file or directory".to_string())),
        };
        action = ctx.try_resume(outcome).expect("a well-shaped file");
    }
    (ctx, loads)
}

fn entry<'a>(ctx: &'a Context, path: &str) -> Vec<&'a LoadAttempt> {
    ctx.files().iter().filter(|e| e.path == path).map(|e| &e.attempt).collect()
}

fn includes_of(ctx: &Context, path: &str) -> Vec<String> {
    match entry(ctx, path).as_slice() {
        [LoadAttempt::Loaded(f)] => f.includes.clone(),
        _ => panic!("{} is not loaded exactly once", path),
    }
}

#[test]
fn test_build_context() {
    let (ctx, loads) = resolve(
        "/w/bitify.circom",
        &[
            ("/w/bitify.circom", &["comparators.circom", "aliascheck.circom"]),
            ("/w/comparators.circom", &["binsum.circom"]),
            ("/w/aliascheck.circom", &["compconstant.circom"]),
            ("/w/binsum.circom", &[]),
            ("/w/compconstant.circom", &[]),
        ],
    );
    assert_eq!(ctx.errors().len(), 0);
    assert_eq!(ctx.files().len(), 5);
    assert_eq!(loads, 5);
    assert_eq!(includes_of(&ctx, "/w/bitify.circom"), vec!["/w/comparators.circom", "/w/aliascheck.circom"]);
    assert_eq!(includes_of(&ctx, "/w/comparators.circom"), vec!["/w/binsum.circom"]);
}

#[test]
fn test_build_context_from_invalid_file() {
    let (mut ctx, action) = build_context(&"/w/Cargo.toml".to_string());
    match action {
        Action::Load(p) => assert_eq!(p, "/w/Cargo.toml"),
        Action::Done => panic!("the main file must be asked for"),
    }
    let failure = ast::ParseError::PestError(FailurePosition { line: 1, column: 1, offset: 0 }, "[package]".to_string());
    let next = ctx.try_resume(Err(failure)).expect("failures are always handed over");
    assert!(matches!(next, Action::Done));
    assert_eq!(ctx.errors().len(), 1);
    assert_eq!(ctx.errors()[0].code, 101);
    assert_eq!(ctx.files().len(), 1);
    assert!(matches!(entry(&ctx, "/w/Cargo.toml").as_slice(), [LoadAttempt::Error]));
}

#[test]
fn mutual_inclusion_ends_with_one_entry_each() {
    let (ctx, loads) = resolve("/w/a.circom", &[("/w/a.circom", &["b.circom"]), ("/w/b.circom", &["a.circom"])]);
    assert_eq!(loads, 2);
    assert_eq!(ctx.errors().len(), 0);
    assert_eq!(ctx.files().len(), 2);
    assert_eq!(entry(&ctx, "/w/a.circom").len(), 1);
    assert_eq!(entry(&ctx, "/w/b.circom").len(), 1);
}

#[test]
fn self_inclusion_is_skipped() {
    let (ctx, loads) = resolve("/w/a.circom", &[("/w/a.circom", &["a.circom"])]);
    assert_eq!(loads, 1);
    assert_eq!(ctx.files().len(), 1);
    assert_eq!(ctx.errors().len(), 0);
}

#[test]
fn acyclic_includes_register_every_file() {
    let (ctx, _) = resolve(
        "/w/m.circom",
        &[("/w/m.circom", &["a.circom", "b.circom"]), ("/w/a.circom", &["c.circom"]), ("/w/b.circom", &[]), ("/w/c.circom", &[])],
    );
    assert_eq!(ctx.files().len(), 4);
    assert_eq!(ctx.errors().len(), 0);
    assert_eq!(ctx.main(), "/w/m.circom");
}

#[test]
fn missing_include_is_reported_and_skipped() {
    let (ctx, loads) = resolve("/w/m.circom", &[("/w/m.circom", &["gone.circom", "b.circom"]), ("/w/b.circom", &[])]);
    assert_eq!(loads, 3);
    assert_eq!(ctx.errors().len(), 1);
    assert_eq!(ctx.errors()[0].code, 201);
    assert_eq!(ctx.errors()[0].render(), "E[201]: IOError\n\n\"/w/gone.circom\": No such file or directory\n\n\tIO Error occured !\n");
    assert_eq!(ctx.files().len(), 2);
    assert!(entry(&ctx, "/w/gone.circom").is_empty());
}

#[test]
fn nested_directory_targets() {
    let (ctx, _) = resolve("/w/m.circom", &[("/w/m.circom", &["lib/x.circom"]), ("/w/lib/x.circom", &["y.circom"]), ("/w/lib/y.circom", &[])]);
    assert_eq!(ctx.files().len(), 3);
    assert_eq!(includes_of(&ctx, "/w/lib/x.circom"), vec!["/w/lib/y.circom"]);
}

#[test]
fn misshapen_file_is_refused() {
    let (mut ctx, _) = build_context(&"/w/m.circom".to_string());
    let src = "x";
    let nodes = vec![leaf(Rule::Other, (0, 1))];
    let f = File { path: "/w/m.circom".to_string(), root: pest_to_tokens(src, &nodes), includes: Vec::new() };
    assert!(!ctx.accepts(&f));
    assert!(ctx.try_resume(Ok(f)).is_none());
    assert_eq!(ctx.files().len(), 1);
    assert_eq!(ctx.errors().len(), 0);
}

#[test]
fn chain_membership() {
    let chain = Element::Data("Hello".to_string());
    let chain = Element::Link(Link { prev: Box::new(chain), current: " World".to_string() });
    let chain = Element::Link(Link { prev: Box::new(chain), current: " !".to_string() });
    assert!(!chain.contains(&"Wrold".to_string()));
    assert!(chain.contains(&" World".to_string()));
    assert!(chain.contains(&"Hello".to_string()));
    assert!(chain.contains(&" !".to_string()));
}
