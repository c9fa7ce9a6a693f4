use meerkat::runtime::ast::debug::expr_debug;
use meerkat::runtime::ast::printer::AstPrinter;
use meerkat::runtime::ast::{ActionStmt, BinOp, Decl, Expr, Stmt, Value};
use meerkat::runtime::interner::Interner;
use meerkat::runtime::limits::{MAX_IDENTIFIER_LENGTH, MAX_STRING_LITERAL_LENGTH};
use meerkat::runtime::parser::parse::{parse_program, ParseFail};
use meerkat::runtime::parser::{
    explain, parse_repl, parse_string, read_source, ReplParseResult,
};

/// Verify that parsing an identifier exceeding the limit
/// returns an error
#[test]
fn test_parse_oversized_identifier() {
    let mut interner = Interner::new();
    let long_ident = "a".repeat(MAX_IDENTIFIER_LENGTH + 1);
    let input = format!("let {} = 42;", long_ident);
    let res = parse_string(&input, &mut interner);
    assert!(res.is_err());
    assert!(res
        .unwrap_err()
        .contains("identifier exceeds maximum length"));
}

/// Verify that parsing a string literal exceeding the limit
/// returns an error
#[test]
fn test_parse_oversized_string_literal() {
    let mut interner = Interner::new();
    let long_str = "a".repeat(MAX_STRING_LITERAL_LENGTH + 1);
    let input = format!("let x = \"{}\";", long_str);
    let res = parse_string(&input, &mut interner);
    assert!(res.is_err());
    assert!(res
        .unwrap_err()
        .contains("string literal exceeds maximum length"));
}

/// Verify that parsing an assertion captures the correct
/// raw string
#[test]
fn test_parse_assert_captures_string() {
    let mut interner = Interner::new();
    let input = "assert (x == 5);";
    let res = parse_string(input, &mut interner);
    assert!(res.is_ok());
    let ast = res.unwrap();
    assert_eq!(ast.len(), 1);
    match &ast[0] {
        Stmt::ActionStmt(ActionStmt::Assert(_, text)) => {
            assert_eq!(text, "x == 5");
        }
        _ => panic!("Expected ActionStmt::Assert"),
    }
}

/// Verify that parsing an assertion exceeding length
/// limit fails
#[test]
fn test_parse_oversized_assert() {
    let mut interner = Interner::new();
    let limit = MAX_STRING_LITERAL_LENGTH;
    let long_expr = "1+".repeat((limit / 2) + 1) + "1";
    let input = format!("assert ({});", long_expr);
    let res = parse_string(&input, &mut interner);
    assert!(res.is_err());
    assert!(res
        .unwrap_err()
        .contains("Assertion text exceeds maximum length"));
}

/// Verify that parsing an `assert` exceeding the length limit
/// fails for its length, and not for its form
#[test]
fn test_parse_oversized_assert_error_type() {
    let mut interner = Interner::new();
    let limit = MAX_STRING_LITERAL_LENGTH;
    let half_limit = limit / 2;
    let repeat_count = half_limit + 1;
    let repeated = "1+".repeat(repeat_count);
    let long_expr = format!("{}1", repeated);
    let input = format!("assert ({});", long_expr);
    let source = read_source(&input);
    let res = parse_program(&source, &mut interner);
    assert!(matches!(res, Err(ParseFail::TooLong)));
    assert!(explain(&ParseFail::TooLong, &source.toks)
        .contains("Assertion text exceeds maximum length"));
}

fn parse(input: &str) -> (Result<Vec<Stmt>, String>, Interner) {
    let mut interner = Interner::new();
    let r = parse_string(input, &mut interner);
    (r, interner)
}

fn shown(input: &str) -> String {
    let (r, interner) = parse(input);
    AstPrinter::new(&interner).print_program(&r.unwrap())
}

fn expression(input: &str) -> (Expr, Interner) {
    let (r, interner) = parse(&format!("{};", input));
    let mut stmts = r.unwrap();
    assert_eq!(stmts.len(), 1);
    match stmts.remove(0) {
        Stmt::ActionStmt(ActionStmt::Expr(e)) => (e, interner),
        other => panic!("unexpected {:?}", other),
    }
}

fn number(val: i32) -> Expr {
    Expr::Literal {
        val: Value::Int { val },
    }
}

fn binop(op: BinOp, expr1: Expr, expr2: Expr) -> Expr {
    Expr::Binop {
        op,
        expr1: Box::new(expr1),
        expr2: Box::new(expr2),
    }
}

/// Operators bind as they should, and group to the left
#[test]
fn operators_bind() {
    assert_eq!(
        expression("1 + 2 * 3").0,
        binop(BinOp::Add, number(1), binop(BinOp::Mul, number(2), number(3)))
    );
    assert_eq!(
        expression("1 - 2 - 3").0,
        binop(BinOp::Sub, binop(BinOp::Sub, number(1), number(2)), number(3))
    );
    assert_eq!(
        expression("(1 - (2 - 3))").0,
        binop(BinOp::Sub, number(1), binop(BinOp::Sub, number(2), number(3)))
    );
    assert_eq!(
        expression("1 == 2 || 3 < 4 && 5 > 6").0,
        binop(
            BinOp::Or,
            binop(BinOp::Eq, number(1), number(2)),
            binop(
                BinOp::And,
                binop(BinOp::Lt, number(3), number(4)),
                binop(BinOp::Gt, number(5), number(6))
            )
        )
    );
}

/// Names, members, calls, functions and conditionals
#[test]
fn expressions_of_each_kind() {
    let (e, interner) = expression("f(a, 1)(s.m)");
    match e {
        Expr::Call { func, args } => {
            assert!(matches!(*func, Expr::Call { .. }));
            match &args[0] {
                Expr::MemberAccess {
                    service_name,
                    member_name,
                } => {
                    assert_eq!(interner.get(*service_name), "s");
                    assert_eq!(interner.get(*member_name), "m");
                }
                other => panic!("unexpected {:?}", other),
            }
        }
        other => panic!("unexpected {:?}", other),
    }
    assert!(matches!(
        expression("if true then 1 else 2").0,
        Expr::If { .. }
    ));
    match expression("fn(x, y: number) => x + y").0 {
        Expr::Func { params, .. } => assert_eq!(params.len(), 2),
        other => panic!("unexpected {:?}", other),
    }
    assert!(matches!(expression("action { x = 1; }").0, Expr::Action(_)));
    assert!(matches!(expression("-x").0, Expr::Unop { .. }));
    assert!(matches!(expression("!true").0, Expr::Unop { .. }));
    assert_eq!(
        expression("\"a b\"").0,
        Expr::Literal {
            val: Value::String {
                val: "a b".to_string()
            }
        }
    );
}

/// A program with a service and a test, as a tree
#[test]
fn program_as_tree() {
    let (r, interner) = parse("service s { var x = 1; pub def y = x; }\n@test(s) { assert (y == 1); }");
    let stmts = r.unwrap();
    assert_eq!(stmts.len(), 2);
    match &stmts[0] {
        Stmt::Service { name, decls } => {
            assert_eq!(interner.get(*name), "s");
            assert_eq!(decls.len(), 2);
            assert!(matches!(&decls[1], Decl::DefDecl { is_pub: true, .. }));
        }
        other => panic!("unexpected {:?}", other),
    }
    match &stmts[1] {
        Stmt::Test { stmts, .. } => {
            assert!(matches!(&stmts[0], ActionStmt::Assert(_, text) if text == "y == 1"))
        }
        other => panic!("unexpected {:?}", other),
    }
    let tree = shown("x;");
    assert!(tree.contains("(\"x\")"));
}

/// Comments and white space make no difference
#[test]
fn comments_are_skipped() {
    let (plain, _) = parse("let x = 1; x;");
    let (commented, _) = parse("// first\nlet x = /* one /* nested */ */ 1;\n\tx; // last");
    assert_eq!(plain, commented);
}

/// White space outside of ASCII is skipped in a run, and an error alone
#[test]
fn foreign_white_space() {
    let (plain, _) = parse("let x = 1; x;");
    for gap in [" \u{a0}", "\u{a0} ", "\u{2003}\u{3000}", "\n\u{85}\t"] {
        let (spaced, _) = parse(&format!("let{}x = 1;{}x;", gap, gap));
        assert_eq!(plain, spaced);
    }
    for gap in ["\u{a0}", "\u{3000}", " \u{200b}"] {
        assert!(parse(&format!("let{}x = 1; x;", gap)).0.is_err());
    }
}

/// A string that is not closed goes on to the end
#[test]
fn open_string_is_one_error() {
    let long = "a".repeat(MAX_IDENTIFIER_LENGTH + 1);
    let error = parse(&format!("let x = \"{};", long)).0.unwrap_err();
    assert!(!error.contains("identifier exceeds maximum length"));
    let src = read_source("x \"y z");
    assert_eq!(src.toks.len(), 2);
}

/// Numbers up to the largest; what does not fit is no number
#[test]
fn numbers() {
    assert_eq!(expression("0").0, number(0));
    assert_eq!(expression("2147483647").0, number(2147483647));
    assert!(parse("99999999999;").0.is_err());
}

#[test]
fn errors_are_told() {
    assert_eq!(
        parse("let x = ;").0,
        Err("Parse error: unexpected token at 8".to_string())
    );
    assert_eq!(
        parse("let x = 1").0,
        Err("Parse error: unexpected end of input".to_string())
    );
    assert_eq!(parse("").0, Ok(vec![]));
}

/// Input that may go on is told from input that cannot
#[test]
fn repl_input() {
    let mut interner = Interner::new();
    assert!(matches!(
        parse_repl("", &mut interner),
        ReplParseResult::Incomplete
    ));
    assert!(matches!(
        parse_repl("service s {\n", &mut interner),
        ReplParseResult::Incomplete
    ));
    assert!(matches!(
        parse_repl("// nothing\n", &mut interner),
        ReplParseResult::Incomplete
    ));
    match parse_repl("let = 1;", &mut interner) {
        ReplParseResult::Error(e) => assert_eq!(e, "unexpected token at 4"),
        other => panic!("unexpected {:?}", other),
    }
    match parse_repl("let x = 1; x;", &mut interner) {
        ReplParseResult::Complete(stmts) => assert_eq!(stmts.len(), 2),
        other => panic!("unexpected {:?}", other),
    }
}

/// The structure that is described is the structure that is there
#[test]
fn structure_is_described() {
    for input in [
        "1",
        "\"a \\ b\n\"",
        "f(a, 1)",
        "fn(x: number): bool => x == 1",
        "action { let y = 1; do y; assert (true); t = 2; }",
        "if a then b.c else [1, 2]",
        "select a, b from t where true",
        "fold(t.c, f, 0)",
    ] {
        let (e, _) = expression(input);
        assert_eq!(expr_debug(&e), format!("{:?}", e));
    }
}
