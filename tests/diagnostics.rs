use libsnarkrs::ast;
use libsnarkrs::errors::common_displayer::{common_displayer, common_layout};
use libsnarkrs::errors::io::IOError;
use libsnarkrs::errors::logic::LogicError;
use libsnarkrs::errors::parse::{
    add_line_num, extract_line_containing_idx, gen_preline, gen_underline, get_buff_from_perror, FailurePosition,
    ParseError,
};
use libsnarkrs::errors::syntax::SyntaxError;
use libsnarkrs::errors::unknown_file::UnknownFileIncludeError;
use libsnarkrs::errors::utils::{get_content_at_span, get_line, get_line_num};
use libsnarkrs::errors::{from_pest_parsing, ErrorInfos};
use libsnarkrs::text::{chars_of, decimal_chars};

fn text(s: &str) -> String {
    s.to_string()
}

#[test]
fn line_number_counts_breaks_before_offset() {
    let data = text("ab\ncd\nef");
    assert_eq!(get_line_num(0, &data), 0);
    assert_eq!(get_line_num(3, &data), 1);
    assert_eq!(get_line_num(6, &data), 2);
    assert_eq!(get_line_num(100, &data), 2);
}

#[test]
fn line_by_index() {
    let data = text("first\nsecond\n\nlast");
    assert_eq!(get_line(0, &data), "first");
    assert_eq!(get_line(1, &data), "second");
    assert_eq!(get_line(2, &data), "");
    assert_eq!(get_line(3, &data), "last");
}

#[test]
fn content_at_span_single_line() {
    let data = text("var a;\nvar a;\n");
    assert_eq!(get_content_at_span(&data, (7, 13)), "2 | var a;");
}

#[test]
fn content_at_span_several_lines() {
    let data = text("template A() {\n  signal x;\n}\n");
    assert_eq!(get_content_at_span(&data, (0, 28)), "1 | template A() {\n2 |   signal x;\n3 | }");
}

#[test]
fn content_at_span_past_the_end() {
    let data = text("x");
    assert_eq!(get_content_at_span(&data, (50, 60)), "1 | x");
}

#[test]
fn content_at_span_reversed_is_empty() {
    let data = text("a\nb\nc");
    assert_eq!(get_content_at_span(&data, (4, 0)), "");
}

#[test]
fn extract_line_around_offset() {
    let data = text("include \"a\";\ntemplate T() {}\n");
    assert_eq!(extract_line_containing_idx(&data, 0), "include \"a\";");
    assert_eq!(extract_line_containing_idx(&data, 15), "template T() {}");
    assert_eq!(extract_line_containing_idx(&data, 12), "include \"a\";");
    assert_eq!(extract_line_containing_idx(&data, 1000), "");
}

#[test]
fn gutter_and_caret_lines() {
    assert_eq!(gen_preline(1), "  |");
    assert_eq!(gen_preline(3), "    |");
    assert_eq!(gen_underline(6, 2, 1), "  |   ^   ");
    assert_eq!(gen_underline(2, 4, 1), "  |     ^");
    assert_eq!(add_line_num(text("abc"), 12), "12 | abc");
}

#[test]
fn syntax_excerpt_points_at_column() {
    let source = text("include \"a.circom\"\ntemplate");
    let position = FailurePosition { line: 1, column: 19, offset: 18 };
    let buff = get_buff_from_perror(&source, position);
    assert_eq!(buff, "  |\n1 | include \"a.circom\"\n  |                   ^   ");
}

#[test]
fn decimal_digits() {
    let d: String = decimal_chars(0).into_iter().collect();
    assert_eq!(d, "0");
    let d: String = decimal_chars(4096).into_iter().collect();
    assert_eq!(d, "4096");
    assert_eq!(chars_of("héllo").len(), 5);
}

#[test]
fn common_header_layout() {
    let r = common_displayer("SyntaxError", &101, &text("1 | x"), &(0, 1), &text("/w/a.circom"));
    assert_eq!(r, "SyntaxError[E101]:\nin \"/w/a.circom\"\n\n\t1 | x\n\n");
}

#[test]
fn standalone_reports() {
    let s = SyntaxError { file_error: text("f"), source_error: text("src"), span_error: (0, 0) };
    assert_eq!(s.render(), "SyntaxError[E101]:\nin \"f\"\n\n\tsrc\n\n");
    let u = UnknownFileIncludeError {
        file_error: text("f"),
        source_error: text("src"),
        span_error: (0, 0),
        invalid_file: text("g"),
    };
    assert_eq!(u.render(), "UnknownFileInclude[E201]:\nin \"f\"\n\n\tsrc\n\n\tUnknown File: \"g\"\n");
}

#[test]
fn io_error_build_and_render() {
    let e = IOError::build(text("IO Error occured !"), 201, text("not found"), &text("/w/x.circom"));
    assert_eq!(e.code, 201);
    match &e.infos {
        ErrorInfos::IOError(i) => assert_eq!(i.render(), "\"/w/x.circom\": not found"),
        _ => panic!("expected an I/O error"),
    }
    assert_eq!(e.render(), "E[201]: IOError\n\n\"/w/x.circom\": not found\n\n\tIO Error occured !\n");
}

#[test]
fn logic_error_with_and_without_excerpt() {
    let e = LogicError::build(text("Could not find a main component definition"), 301, text("m"));
    assert_eq!(e.render(), "E[301]: LogicError\n\nIn \"m\":\n\n\tCould not find a main component definition\n");
    let e = LogicError::build_with_span(text("dup"), 303, text("m"), &text("var a;\nvar a;"), (7, 13));
    assert_eq!(e.render(), "E[303]: LogicError\n\nIn \"m\":\n\n2 | var a;\n\n\tdup\n");
}

#[test]
fn parse_error_build() {
    let e = ParseError::build(text("Syntax error detected near"), 101, FailurePosition { line: 2, column: 1, offset: 2 }, &text("a\nb"));
    assert_eq!(e.code, 101);
    match &e.infos {
        ErrorInfos::ParseError(p) => {
            assert_eq!(p.span, (2, 2));
            assert_eq!(p.render(), "  |\n2 | b\n  | ^    ");
        },
        _ => panic!("expected a parse error"),
    }
}

#[test]
fn load_failures_map_to_codes() {
    let io = from_pest_parsing(&text("/w/x"), ast::ParseError::IOError(text("denied")));
    assert_eq!(io.code, 201);
    assert_eq!(io.msg, "IO Error occured !");
    let syn = from_pest_parsing(
        &text("/w/x"),
        ast::ParseError::PestError(FailurePosition { line: 1, column: 3, offset: 2 }, text("abc")),
    );
    assert_eq!(syn.code, 101);
    assert_eq!(syn.msg, "Syntax error detected near");
}

#[test]
fn paths_are_shown_escaped() {
    let e = LogicError::build(text("m"), 301, text("a\\b\"c"));
    match &e.infos {
        ErrorInfos::LogicError(l) => assert_eq!(l.render(), "In \"a\\\\b\\\"c\":"),
        _ => panic!("expected a logic error"),
    }
    let r = common_displayer("SyntaxError", &101, &text("1 | x"), &(0, 1), &text("x\ny"));
    assert_eq!(r, "SyntaxError[E101]:\nin \"x\\ny\"\n\n\t1 | x\n\n");
    let io = IOError::build(text("IO Error occured !"), 201, text("denied"), &text("C:\\w"));
    match &io.infos {
        ErrorInfos::IOError(i) => assert_eq!(i.render(), "\"C:\\\\w\": denied"),
        _ => panic!("expected an I/O error"),
    }
}

#[test]
fn layout_with_shown_file() {
    let r = common_layout("UnknownFileInclude", 201, &text("src"), &text("<f>"));
    assert_eq!(r, "UnknownFileInclude[E201]:\nin <f>\n\n\tsrc\n\n");
}
