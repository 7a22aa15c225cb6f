use openscad_rs::ast::{Arg, BinaryOp, Expr, Statement, UnaryOp};
use openscad_rs::error::ParseErrorKind;
use openscad_rs::parser::{parse, Parser};

fn first_statement(src: &str) -> Statement {
    let program = parse(src).unwrap();
    program.statements.into_iter().next().unwrap()
}

fn expr_of(src: &str) -> Expr {
    match first_statement(src) {
        Statement::ExprStmt(e) => e,
        Statement::Assign { value, .. } => value,
        other => panic!("not an expression statement: {:?}", other),
    }
}

fn is_num(e: &Expr, text: &str) -> bool {
    matches!(e, Expr::Number(t) if t == text)
}

fn is_ident(e: &Expr, name: &str) -> bool {
    matches!(e, Expr::Ident(n) if n == name)
}

#[test]
fn multiplication_binds_tighter_than_addition() {
    match expr_of("x = 1 + 2 * 3;") {
        Expr::Binary { op: BinaryOp::Add, left, right } => {
            assert!(is_num(&left, "1"));
            match *right {
                Expr::Binary { op: BinaryOp::Mul, left, right } => {
                    assert!(is_num(&left, "2"));
                    assert!(is_num(&right, "3"));
                }
                other => panic!("{:?}", other),
            }
        }
        other => panic!("{:?}", other),
    }
}

#[test]
fn subtraction_groups_to_the_left() {
    match expr_of("8 - 4 - 2;") {
        Expr::Binary { op: BinaryOp::Sub, left, right } => {
            assert!(is_num(&right, "2"));
            assert!(matches!(*left, Expr::Binary { op: BinaryOp::Sub, .. }));
        }
        other => panic!("{:?}", other),
    }
}

#[test]
fn power_groups_to_the_right() {
    match expr_of("2^3^2;") {
        Expr::Binary { op: BinaryOp::Pow, left, right } => {
            assert!(is_num(&left, "2"));
            match *right {
                Expr::Binary { op: BinaryOp::Pow, left, right } => {
                    assert!(is_num(&left, "3"));
                    assert!(is_num(&right, "2"));
                }
                other => panic!("{:?}", other),
            }
        }
        other => panic!("{:?}", other),
    }
}

#[test]
fn unary_minus_binds_tighter_than_power() {
    match expr_of("-x^2;") {
        Expr::Binary { op: BinaryOp::Pow, left, right } => {
            assert!(is_num(&right, "2"));
            match *left {
                Expr::Unary { op: UnaryOp::Neg, expr } => assert!(is_ident(&expr, "x")),
                other => panic!("{:?}", other),
            }
        }
        other => panic!("{:?}", other),
    }
}

#[test]
fn logic_and_comparison_precedence() {
    // a < b && c || !d  is  ((a < b) && c) || (!d)
    match expr_of("x = a < b && c || !d;") {
        Expr::Binary { op: BinaryOp::Or, left, right } => {
            assert!(matches!(*right, Expr::Unary { op: UnaryOp::Not, .. }));
            match *left {
                Expr::Binary { op: BinaryOp::And, left, right } => {
                    assert!(is_ident(&right, "c"));
                    assert!(matches!(*left, Expr::Binary { op: BinaryOp::Lt, .. }));
                }
                other => panic!("{:?}", other),
            }
        }
        other => panic!("{:?}", other),
    }
}

#[test]
fn two_byte_comparisons_win_over_one_byte_ones() {
    assert!(matches!(expr_of("x = a < b;"), Expr::Binary { op: BinaryOp::Lt, .. }));
    assert!(matches!(expr_of("x = a <= b;"), Expr::Binary { op: BinaryOp::Le, .. }));
    assert!(matches!(expr_of("x = a >= b;"), Expr::Binary { op: BinaryOp::Ge, .. }));
    assert!(matches!(expr_of("x = a == b;"), Expr::Binary { op: BinaryOp::Eq, .. }));
    assert!(matches!(expr_of("x = a != b;"), Expr::Binary { op: BinaryOp::Ne, .. }));
    assert!(matches!(expr_of("x = a > b;"), Expr::Binary { op: BinaryOp::Gt, .. }));
}

#[test]
fn a_statement_that_starts_with_a_name_is_a_call_or_an_assignment() {
    let e = parse("a <= b;").unwrap_err();
    assert!(matches!(e.kind, ParseErrorKind::ExpectedByte { expected: 0x28, found: Some(0x3c) }));
    assert_eq!(e.pos, 2);
    assert!(matches!(expr_of("(a) <= b;"), Expr::Binary { op: BinaryOp::Le, .. }));
}

#[test]
fn ternary_expression() {
    match expr_of("x = a ? 1 : 2;") {
        Expr::Ternary { cond, then_expr, else_expr } => {
            assert!(is_ident(&cond, "a"));
            assert!(is_num(&then_expr, "1"));
            assert!(is_num(&else_expr, "2"));
        }
        other => panic!("{:?}", other),
    }
}

#[test]
fn numerals_keep_their_text() {
    assert!(is_num(&expr_of("x = 1.5e3;"), "1.5e3"));
    assert!(is_num(&expr_of("x = .5;"), ".5"));
    assert!(is_num(&expr_of("x = 5.;"), "5."));
    assert!(is_num(&expr_of("x = 2E-2;"), "2E-2"));
}

#[test]
fn invalid_numerals_are_refused() {
    let e = parse("x = 1.2.3;").unwrap_err();
    assert!(matches!(&e.kind, ParseErrorKind::InvalidNumber(t) if t == "1.2.3"));
    assert_eq!(e.pos, 9);
    assert!(e.location.is_none());
    let e = parse("x = 1e;").unwrap_err();
    assert!(matches!(&e.kind, ParseErrorKind::InvalidNumber(t) if t == "1e"));
}

#[test]
fn vectors_ranges_and_comprehensions() {
    match expr_of("v = [1, 2, 3,];") {
        Expr::Vector(items) => {
            assert_eq!(items.len(), 3);
            assert!(is_num(&items[2], "3"));
        }
        other => panic!("{:?}", other),
    }
    assert!(matches!(expr_of("v = [];"), Expr::Vector(items) if items.is_empty()));
    match expr_of("r = [0 : 2 : 10];") {
        Expr::Range { start, step: Some(step), end } => {
            assert!(is_num(&start, "0"));
            assert!(is_num(&step, "2"));
            assert!(is_num(&end, "10"));
        }
        other => panic!("{:?}", other),
    }
    assert!(matches!(expr_of("r = [0 : 5];"), Expr::Range { step: None, .. }));
    match expr_of("c = [for (i = [0:3]) i * 2];") {
        Expr::ListComp { name, range, body } => {
            assert_eq!(name, "i");
            assert!(matches!(*range, Expr::Range { .. }));
            assert!(matches!(*body, Expr::Binary { op: BinaryOp::Mul, .. }));
        }
        other => panic!("{:?}", other),
    }
}

#[test]
fn index_and_component_access() {
    match expr_of("y = p[1].z;") {
        Expr::Index { base, index } => {
            assert!(is_num(&index, "2"));
            match *base {
                Expr::Index { base, index } => {
                    assert!(is_ident(&base, "p"));
                    assert!(is_num(&index, "1"));
                }
                other => panic!("{:?}", other),
            }
        }
        other => panic!("{:?}", other),
    }
    match expr_of("y = c.alpha;") {
        Expr::Index { index, .. } => assert!(is_num(&index, "3")),
        other => panic!("{:?}", other),
    }
    match expr_of("y = c.g;") {
        Expr::Index { index, .. } => assert!(is_num(&index, "1")),
        other => panic!("{:?}", other),
    }
}

#[test]
fn unknown_component_is_an_error() {
    let e = parse("y = p.q;").unwrap_err();
    assert!(matches!(&e.kind, ParseErrorKind::UnknownField(f) if f == "q"));
    assert_eq!(e.pos, 7);
    let loc = e.location.unwrap();
    assert_eq!((loc.line, loc.column), (1, 8));
    assert_eq!(loc.snippet, "y = p.q;");
}

#[test]
fn calls_with_named_and_positional_arguments() {
    match expr_of("x = f(1, b = 2);") {
        Expr::Call { name, args } => {
            assert_eq!(name, "f");
            assert_eq!(args.len(), 2);
            assert!(matches!(&args[0], Arg::Positional(e) if is_num(e, "1")));
            assert!(matches!(&args[1], Arg::Named(n, e) if n == "b" && is_num(e, "2")));
        }
        other => panic!("{:?}", other),
    }
    assert!(matches!(expr_of("x = g();"), Expr::Call { args, .. } if args.is_empty()));
}

#[test]
fn booleans_and_strings() {
    assert!(matches!(expr_of("x = true;"), Expr::Bool(true)));
    assert!(matches!(expr_of("x = false;"), Expr::Bool(false)));
    assert!(matches!(expr_of("x = \"a\\\"b\";"), Expr::String(s) if s == "a\\\"b"));
    assert!(is_ident(&expr_of("x = trueish;"), "trueish"));
}

#[test]
fn module_definition_with_defaults() {
    match first_statement("module box(size, center = false) { cube(size); }") {
        Statement::ModuleDef { name, params, body } => {
            assert_eq!(name, "box");
            assert_eq!(params.len(), 2);
            assert_eq!(params[0].name, "size");
            assert!(params[0].default.is_none());
            assert_eq!(params[1].name, "center");
            assert!(matches!(params[1].default, Some(Expr::Bool(false))));
            assert_eq!(body.len(), 1);
            assert!(matches!(&body[0], Statement::ModuleCall { name, .. } if name == "cube"));
        }
        other => panic!("{:?}", other),
    }
}

#[test]
fn module_body_without_braces() {
    match first_statement("module m() sphere(1);") {
        Statement::ModuleDef { body, .. } => assert_eq!(body.len(), 1),
        other => panic!("{:?}", other),
    }
}

#[test]
fn function_definition() {
    match first_statement("function sq(x) = x * x;") {
        Statement::FunctionDef { name, params, body } => {
            assert_eq!(name, "sq");
            assert_eq!(params.len(), 1);
            assert!(matches!(body, Expr::Binary { op: BinaryOp::Mul, .. }));
        }
        other => panic!("{:?}", other),
    }
}

#[test]
fn module_call_children() {
    match first_statement("translate([1, 2, 3]) cube(1);") {
        Statement::ModuleCall { name, args, children } => {
            assert_eq!(name, "translate");
            assert_eq!(args.len(), 1);
            assert_eq!(children.len(), 1);
        }
        other => panic!("{:?}", other),
    }
    match first_statement("union() { cube(1); sphere(2); }") {
        Statement::ModuleCall { children, .. } => assert_eq!(children.len(), 2),
        other => panic!("{:?}", other),
    }
    match first_statement("cube(1);") {
        Statement::ModuleCall { children, .. } => assert!(children.is_empty()),
        other => panic!("{:?}", other),
    }
}

#[test]
fn if_else_and_for() {
    match first_statement("if (a > 1) cube(1); else sphere(1);") {
        Statement::If { else_branch, .. } => assert!(else_branch.is_some()),
        other => panic!("{:?}", other),
    }
    match first_statement("if (a) { }") {
        Statement::If { else_branch, .. } => assert!(else_branch.is_none()),
        other => panic!("{:?}", other),
    }
    for src in ["for (i = [0:3]) cube(i);", "intersection_for (i = [0:3]) cube(i);", "union_for (i = v) cube(i);"] {
        assert!(matches!(first_statement(src), Statement::For { name, .. } if name == "i"));
    }
}

#[test]
fn let_and_assign_become_blocks() {
    for src in ["let (a = 1, b = 2) cube(a);", "assign (a = 1, b = 2) cube(a);"] {
        match first_statement(src) {
            Statement::Block(stmts) => {
                assert_eq!(stmts.len(), 3);
                assert!(matches!(&stmts[0], Statement::Assign { name, .. } if name == "a"));
                assert!(matches!(&stmts[1], Statement::Assign { name, .. } if name == "b"));
                assert!(matches!(&stmts[2], Statement::ModuleCall { .. }));
            }
            other => panic!("{:?}", other),
        }
    }
}

#[test]
fn include_use_and_assert_stand_for_nothing() {
    for src in ["include <lib/parts.scad>", "use <x.scad>;", "include \"y.scad\";", "assert(x > 0, \"msg\");"] {
        assert!(matches!(first_statement(src), Statement::Block(v) if v.is_empty()));
    }
}

#[test]
fn include_without_path_is_an_error() {
    let e = parse("include x;").unwrap_err();
    assert!(matches!(e.kind, ParseErrorKind::ExpectedIncludePath));
    assert_eq!(e.pos, 8);
}

#[test]
fn modifiers_leave_the_statement_unchanged() {
    for src in ["% cube(1);", "*cube(1);", "!cube(1);", "#cube(1);"] {
        assert!(matches!(first_statement(src), Statement::ModuleCall { name, .. } if name == "cube"));
    }
}

#[test]
fn comments_and_empty_statements() {
    let program = parse("// line comment\n/* block\n comment */ x = 1; ;").unwrap();
    assert_eq!(program.statements.len(), 2);
    assert!(matches!(&program.statements[0], Statement::Assign { name, .. } if name == "x"));
    assert!(matches!(&program.statements[1], Statement::Block(v) if v.is_empty()));
    assert!(parse("").unwrap().statements.is_empty());
    assert!(parse("  // only a comment").unwrap().statements.is_empty());
}

#[test]
fn missing_parenthesis_reports_the_end_of_input() {
    let e = parse("cube(1").unwrap_err();
    assert!(matches!(e.kind, ParseErrorKind::ExpectedByte { expected: 0x29, found: None }));
    assert_eq!(e.pos, 6);
    let loc = e.location.unwrap();
    assert_eq!((loc.line, loc.column), (1, 7));
}

#[test]
fn unexpected_token_location_on_second_line() {
    let e = parse("a = 1;\nb = ;").unwrap_err();
    assert!(matches!(e.kind, ParseErrorKind::Unexpected { found: Some(0x3b) }));
    assert_eq!(e.pos, 11);
    let loc = e.location.unwrap();
    assert_eq!((loc.line, loc.column), (2, 5));
    assert_eq!(loc.snippet, "b = ;");
}

#[test]
fn missing_keyword_is_reported_without_location() {
    let mut p = Parser::new("x");
    let e = p.expect_keyword("module").unwrap_err();
    assert!(matches!(&e.kind, ParseErrorKind::ExpectedKeyword(k) if k == "module"));
    assert_eq!(e.pos, 0);
    assert!(e.location.is_none());
}

#[test]
fn cursor_operations() {
    let mut p = Parser::new("ab\ncd");
    assert_eq!(p.peek(), Some(b'a'));
    assert_eq!(p.peek_at(3), Some(b'c'));
    assert_eq!(p.peek_at(5), None);
    for _ in 0..4 {
        p.bump();
    }
    let loc = p.loc();
    assert_eq!((loc.line, loc.column), (2, 2));
    assert_eq!(loc.snippet, "cd");
    p.bump();
    assert!(p.eof());
    p.bump();
    assert!(p.eof());
}

#[test]
fn skipping_twice_is_skipping_once() {
    let mut p = Parser::new("  /* c */ // d\n  x");
    p.skip();
    assert_eq!(p.peek(), Some(b'x'));
    p.skip();
    assert_eq!(p.peek(), Some(b'x'));
}

#[test]
fn keywords_need_a_word_boundary() {
    let p = Parser::new("format");
    assert!(p.peek_op("for"));
    assert!(!p.peek_keyword("for"));
    let p = Parser::new("for(");
    assert!(p.peek_keyword("for"));
}

#[test]
fn identifiers_are_read_as_far_as_they_go() {
    let mut p = Parser::new("abc1_$ x");
    assert!(p.peek_is_ident());
    assert_eq!(p.parse_ident().unwrap(), "abc1_$");
    assert_eq!(p.peek(), Some(b' '));
    let mut q = Parser::new("1abc");
    assert!(!q.peek_is_ident());
    assert!(matches!(q.parse_ident().unwrap_err().kind, ParseErrorKind::ExpectedIdentifier));
}

#[test]
fn string_literal_bodies() {
    let mut p = Parser::new("  \"a\\\\b\" rest");
    assert_eq!(p.parse_string().unwrap(), "a\\\\b");
    let mut q = Parser::new("\"open");
    let e = q.parse_string().unwrap_err();
    assert!(matches!(e.kind, ParseErrorKind::ExpectedByte { expected: 0x22, found: None }));
}

#[test]
fn expect_skips_layout_first() {
    let mut p = Parser::new("  ;x");
    assert!(p.expect(b';').is_ok());
    assert_eq!(p.peek(), Some(b'x'));
    let e = p.expect(b';').unwrap_err();
    assert!(matches!(e.kind, ParseErrorKind::ExpectedByte { expected: 0x3b, found: Some(0x78) }));
    assert_eq!(e.pos, 3);
}

#[test]
fn non_ascii_text_in_strings_and_snippets() {
    let program = parse("s = \"héllo\";").unwrap();
    assert!(matches!(&program.statements[0], Statement::Assign { value: Expr::String(t), .. } if t == "héllo"));
    let e = parse("é = 1;").unwrap_err();
    assert_eq!(e.location.unwrap().snippet, "é = 1;");
}

fn all_numbers(e: &Expr, out: &mut Vec<String>) {
    match e {
        Expr::Number(t) => out.push(t.clone()),
        Expr::Vector(v) => v.iter().for_each(|x| all_numbers(x, out)),
        Expr::Range { start, step, end } => {
            all_numbers(start, out);
            if let Some(s) = step {
                all_numbers(s, out);
            }
            all_numbers(end, out);
        }
        Expr::Call { args, .. } => {
            for a in args {
                match a {
                    Arg::Named(_, x) | Arg::Positional(x) => all_numbers(x, out),
                }
            }
        }
        Expr::Index { base, index } => {
            all_numbers(base, out);
            all_numbers(index, out);
        }
        Expr::Unary { expr, .. } => all_numbers(expr, out),
        Expr::Binary { left, right, .. } => {
            all_numbers(left, out);
            all_numbers(right, out);
        }
        Expr::Ternary { cond, then_expr, else_expr } => {
            all_numbers(cond, out);
            all_numbers(then_expr, out);
            all_numbers(else_expr, out);
        }
        Expr::ListComp { range, body, .. } => {
            all_numbers(range, out);
            all_numbers(body, out);
        }
        Expr::Bool(_) | Expr::String(_) | Expr::Ident(_) => {}
    }
}

#[test]
fn every_numeral_of_a_parsed_program_reads_as_a_float() {
    let e = expr_of("x = [1.5, .5e-3, 2E+1, f(7., r = 0.25)[1].y, [for (i = [0:0.5:3]) i]];");
    let mut nums = Vec::new();
    all_numbers(&e, &mut nums);
    assert_eq!(nums, vec!["1.5", ".5e-3", "2E+1", "7.", "0.25", "1", "1", "0", "0.5", "3"]);
    assert!(nums.iter().all(|t| t.parse::<f64>().is_ok()));
}

#[test]
fn layout_before_a_statement_changes_nothing() {
    let a = parse("x = -2 ^ 3;").unwrap();
    let b = parse("  /* c */\n\tx = -2 ^ 3;").unwrap();
    assert_eq!(format!("{:?}", a), format!("{:?}", b));
}

#[test]
fn modifier_and_layout_before_a_statement_are_dropped() {
    let plain = parse("translate([1, 2, 3]) { cube(1); sphere(r = 2); }").unwrap();
    let marked = parse("#/* debug */\n  translate([1, 2, 3]) { cube(1); sphere(r = 2); }").unwrap();
    assert_eq!(format!("{:?}", plain), format!("{:?}", marked));
}

#[test]
fn modifier_moves_an_error_by_its_own_length() {
    let plain = parse("foo(1 + );").unwrap_err();
    let marked = parse("%// note\nfoo(1 + );").unwrap_err();
    assert_eq!(format!("{:?}", plain.kind), format!("{:?}", marked.kind));
    assert_eq!(marked.pos, plain.pos + 9);
}

#[test]
fn a_copy_of_a_program_is_the_same_program() {
    let program = parse(
        "module m(a, b = [1 : 2 : 9]) { if (a > 1) cube(a); else for (i = [0 : 3]) sphere(i); }\n\
         function f(x) = x < 0 ? -x : [for (j = [1 : x]) j * 2][0];\n\
         m(1, b = f(3)) { let (c = 2) translate([c, 0, 0]) cube(c); }",
    )
    .unwrap();
    let copy = program.clone();
    assert_eq!(format!("{:?}", program), format!("{:?}", copy));
    let first = program.statements[0].clone();
    assert_eq!(format!("{:?}", first), format!("{:?}", program.statements[0]));
}

#[test]
fn a_statement_reads_alike_after_other_text() {
    let alone = parse("y = (2 * ;").unwrap_err();
    let after = parse("x = 1; y = (2 * ;").unwrap_err();
    assert_eq!(format!("{:?}", alone.kind), format!("{:?}", after.kind));
    assert_eq!(after.pos, alone.pos + 7);
}
