use openscad_rs::error::{Location, ParseError, ParseErrorKind};
use openscad_rs::parser::parse;

fn expected(msg: &str, line: usize, col: usize, snippet: &str) -> String {
    format!(
        "{} at line {}, column {}\n  | {}\n  | {:>width$}^",
        msg,
        line,
        col,
        snippet.trim_end(),
        "",
        width = col.saturating_sub(1)
    )
}

#[test]
fn a_located_error_renders_line_column_source_and_caret() {
    let e = parse("a = 1;\nb = ;").unwrap_err();
    let text = e.render("unexpected Some(';')");
    assert_eq!(text, "unexpected Some(';') at line 2, column 5\n  | b = ;\n  |     ^");
    assert_eq!(text, expected("unexpected Some(';')", 2, 5, "b = ;"));
}

#[test]
fn trailing_whitespace_of_the_source_line_is_dropped() {
    let loc = Location { line: 123, column: 1, snippet: "x = (;  \t\u{3000}\u{a0}".to_string() };
    let e = ParseError {
        kind: ParseErrorKind::Unexpected { found: Some(b';') },
        pos: 0,
        location: Some(loc),
    };
    let text = e.render("m");
    assert_eq!(text, "m at line 123, column 1\n  | x = (;\n  | ^");
    assert_eq!(text, expected("m", 123, 1, "x = (;  \t\u{3000}\u{a0}"));
}

#[test]
fn column_zero_puts_the_caret_first() {
    let loc = Location { line: 10, column: 0, snippet: "  ".to_string() };
    let e = ParseError { kind: ParseErrorKind::ExpectedIdentifier, pos: 0, location: Some(loc) };
    assert_eq!(e.render("expected identifier"), expected("expected identifier", 10, 0, "  "));
}

#[test]
fn an_error_without_location_renders_its_message_alone() {
    let e = ParseError {
        kind: ParseErrorKind::ExpectedKeyword("module".to_string()),
        pos: 4,
        location: None,
    };
    assert_eq!(e.render("expected keyword 'module' at 4"), "expected keyword 'module' at 4");
}
