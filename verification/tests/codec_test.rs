use meerkat::error::Error;
use meerkat::net::ast::{NetExpr, NetParam, NetValue};
use meerkat::net::codec::{
    decode_action_stmt, decode_expr, decode_value, encode_action_stmt, encode_expr, encode_value,
    validate_identifier, validate_string_literal,
};
use meerkat::net::types::ServiceNetId;
use meerkat::runtime::ast::{ActionStmt, BinOp, Expr, Field, TableType, UnOp, Value};
use meerkat::runtime::interner::Interner;
use meerkat::runtime::limits::{MAX_IDENTIFIER_LENGTH, MAX_STRING_LITERAL_LENGTH};
use meerkat::runtime::tt::Param;

fn number(val: i32) -> Expr {
    Expr::Literal {
        val: Value::Int { val },
    }
}

fn boolean(val: bool) -> Expr {
    Expr::Literal {
        val: Value::Bool { val },
    }
}

fn string(val: &str) -> Expr {
    Expr::Literal {
        val: Value::String {
            val: val.to_string(),
        },
    }
}

fn run_expr_test(expr: &Expr, interner_orig: &Interner) {
    let encoded = encode_expr(expr, interner_orig).unwrap();
    let mut interner_new = Interner::new();
    let decoded = decode_expr(encoded, &mut interner_new).unwrap();
    assert_eq!(expr.to_text(), decoded.to_text());
}

fn run_stmt_test(stmt: &ActionStmt, interner_orig: &Interner) {
    let encoded = encode_action_stmt(stmt, interner_orig).unwrap();
    let mut interner_new = Interner::new();
    let decoded = decode_action_stmt(encoded, &mut interner_new).unwrap();
    assert_eq!(stmt.to_text(), decoded.to_text());
}

/// A value with an action and its bindings comes back as it was
#[test]
fn test_value_codec_roundtrip() {
    let mut interner_orig = Interner::new();
    let service_net_id = ServiceNetId::new("test_service");

    let var_x = interner_orig.insert("x");
    let tbl_t = interner_orig.insert("t");

    let stmt1 = ActionStmt::Let {
        name: var_x,
        ty: None,
        expr: number(42),
    };
    let stmt2 = ActionStmt::Insert {
        row: Expr::Variable { name: var_x },
        table_name: tbl_t,
    };

    let env_var = interner_orig.insert("y");
    let env = vec![(env_var, Value::Bool { val: true })];

    let original_value = Value::ActionClosure {
        stmts: vec![stmt1, stmt2],
        env,
        service_net_id,
    };

    let orig_str = original_value.to_text();
    let encoded = encode_value(&original_value, &interner_orig).unwrap();
    let mut interner_new = Interner::new();
    let decoded_value = decode_value(encoded, &mut interner_new).unwrap();
    let new_str = decoded_value.to_text();

    assert_eq!(orig_str, new_str);
    assert_eq!(original_value, decoded_value);
}

/// Verify round-trip encoding and decoding for
/// Value::String and Value::Closure
#[test]
fn test_value_codec_exhaustive() {
    let mut interner_orig = Interner::new();
    let param_name = interner_orig.insert("x");
    let body = string("hello");
    let env_key = interner_orig.insert("y");
    let env_val = Value::Int { val: 123 };
    let service = interner_orig.insert("my_service");

    let original_value = Value::Closure {
        params: vec![Param {
            name: param_name,
            ty: None,
        }],
        body: Box::new(body),
        env: vec![(env_key, env_val)],
        service_name: service,
        return_ty: None,
    };

    let encoded = encode_value(&original_value, &interner_orig).unwrap();
    let mut interner_new = Interner::new();
    let decoded = decode_value(encoded, &mut interner_new).unwrap();

    assert_eq!(original_value.to_text(), decoded.to_text());
}

/// Verify round-trip encoding and decoding for Tuple,
/// KeyVal, Unop, Binop, and If expressions
#[test]
fn test_expr_codec_exhaustive_1() {
    // 1. Tuple
    let interner = Interner::new();
    let tuple_expr = Expr::Tuple {
        val: vec![number(1), number(2)],
    };
    run_expr_test(&tuple_expr, &interner);

    // 2. KeyVal
    let mut interner = Interner::new();
    let name_kv = interner.insert("kv_name");
    let key_val_expr = Expr::KeyVal {
        name: name_kv,
        value: Box::new(number(3)),
    };
    run_expr_test(&key_val_expr, &interner);

    // 3. Unop (Neg, Not)
    for op in &[UnOp::Neg, UnOp::Not] {
        let interner = Interner::new();
        let unop_expr = Expr::Unop {
            op: *op,
            expr: Box::new(boolean(true)),
        };
        run_expr_test(&unop_expr, &interner);
    }

    // 4. Binop
    let binops = &[
        BinOp::Add,
        BinOp::Sub,
        BinOp::Mul,
        BinOp::Div,
        BinOp::Eq,
        BinOp::Lt,
        BinOp::Gt,
        BinOp::And,
        BinOp::Or,
    ];
    for op in binops {
        let interner = Interner::new();
        let binop_expr = Expr::Binop {
            op: *op,
            expr1: Box::new(number(5)),
            expr2: Box::new(number(6)),
        };
        run_expr_test(&binop_expr, &interner);
    }

    // 5. If
    let interner = Interner::new();
    let if_expr = Expr::If {
        cond: Box::new(boolean(true)),
        expr1: Box::new(number(7)),
        expr2: Box::new(number(8)),
    };
    run_expr_test(&if_expr, &interner);
}

/// Verify round-trip encoding and decoding for Func,
/// Call, Action, and MemberAccess expressions
#[test]
fn test_expr_codec_exhaustive_2() {
    // 1. Func
    let mut interner = Interner::new();
    let param_name = interner.insert("p");
    let func_expr = Expr::Func {
        params: vec![Param {
            name: param_name,
            ty: None,
        }],
        body: Box::new(number(9)),
        return_ty: None,
    };
    run_expr_test(&func_expr, &interner);

    // 2. Call
    let mut interner = Interner::new();
    let param_name = interner.insert("p");
    let func_expr = Expr::Func {
        params: vec![Param {
            name: param_name,
            ty: None,
        }],
        body: Box::new(number(9)),
        return_ty: None,
    };
    let call_expr = Expr::Call {
        func: Box::new(func_expr),
        args: vec![number(10)],
    };
    run_expr_test(&call_expr, &interner);

    // 3. MemberAccess
    let mut interner = Interner::new();
    let service_name = interner.insert("srv");
    let member_name = interner.insert("mem");
    let member_expr = Expr::MemberAccess {
        service_name,
        member_name,
    };
    run_expr_test(&member_expr, &interner);

    // 4. Action
    let interner = Interner::new();
    let action_expr = Expr::Action(vec![ActionStmt::Do(number(11))]);
    run_expr_test(&action_expr, &interner);
}

/// Verify round-trip encoding and decoding for Select,
/// Table, and Fold expressions
#[test]
fn test_expr_codec_exhaustive_3() {
    // 1. Select
    let mut interner = Interner::new();
    let table_name = interner.insert("tbl");
    let col1 = interner.insert("col1");
    let col2 = interner.insert("col2");
    let select_expr = Expr::Select {
        table_name,
        column_names: vec![col1, col2],
        where_clause: Box::new(boolean(true)),
    };
    run_expr_test(&select_expr, &interner);

    // 2. Table
    let mut interner = Interner::new();
    let col1 = interner.insert("col1");
    let col2 = interner.insert("col2");
    let f1 = Field {
        name: col1,
        ty: TableType::String,
    };
    let f2 = Field {
        name: col2,
        ty: TableType::Int,
    };
    let f3 = Field {
        name: col2,
        ty: TableType::Bool,
    };
    let table_expr = Expr::Table {
        schema: vec![f1, f2, f3],
        records: vec![string("abc")],
    };
    run_expr_test(&table_expr, &interner);

    // 3. Fold
    let mut interner = Interner::new();
    let table_name = interner.insert("tbl");
    let col1 = interner.insert("col1");
    let fold_expr = Expr::Fold {
        table_name,
        column_name: col1,
        operation: Box::new(number(42)),
        identity: Box::new(number(0)),
    };
    run_expr_test(&fold_expr, &interner);
}

/// Verify round-trip encoding and decoding for Expr,
/// Do, Assert, and Assign ActionStmts
#[test]
fn test_action_stmt_codec_exhaustive() {
    // 1. Expr
    let interner = Interner::new();
    let stmt_expr = ActionStmt::Expr(number(100));
    run_stmt_test(&stmt_expr, &interner);

    // 2. Do
    let interner = Interner::new();
    let stmt_do = ActionStmt::Do(number(200));
    run_stmt_test(&stmt_do, &interner);

    // 3. Assert
    let interner = Interner::new();
    let stmt_assert = ActionStmt::Assert(boolean(true), "true".to_string());
    run_stmt_test(&stmt_assert, &interner);

    // 4. Assign
    let mut interner = Interner::new();
    let name_var = interner.insert("v");
    let stmt_assign = ActionStmt::Assign {
        name: name_var,
        expr: number(300),
    };
    run_stmt_test(&stmt_assign, &interner);
}

/// Verify that deeply nested AST structures do not crash the
/// encoder or decoder
#[test]
fn test_codec_deeply_nested_structure() {
    let mut expr = number(0);
    let mut interner = Interner::new();
    for _ in 0..20 {
        expr = Expr::Binop {
            op: BinOp::Add,
            expr1: Box::new(expr),
            expr2: Box::new(number(1)),
        };
    }

    let encoded = encode_expr(&expr, &interner).unwrap();
    let decoded = decode_expr(encoded, &mut interner).unwrap();

    assert_eq!(expr.to_text(), decoded.to_text());
}

/// Verify that decoding a value with an oversized string
/// literal fails
#[test]
fn test_codec_decode_oversized_string_literal() {
    let long_str = "a".repeat(MAX_STRING_LITERAL_LENGTH + 1);
    let net_val = NetValue::String { val: long_str };
    let mut interner = Interner::new();
    let res = decode_value(net_val, &mut interner);
    assert!(res.is_err());
    assert!(matches!(res.unwrap_err(), Error::LimitExceeded(_)));
}

/// Verify that decoding a value with an oversized identifier
/// fails
#[test]
fn test_codec_decode_oversized_identifier() {
    let long_ident = "a".repeat(MAX_IDENTIFIER_LENGTH + 1);
    let net_val = NetValue::Closure {
        params: vec![NetParam {
            name: long_ident,
            ty: None,
        }],
        body: Box::new(NetExpr::Literal {
            val: NetValue::Int { val: 0 },
        }),
        env: vec![],
        service_name: "test".to_string(),
        return_ty: None,
    };
    let mut interner = Interner::new();
    let res = decode_value(net_val, &mut interner);
    assert!(res.is_err());
    assert!(matches!(res.unwrap_err(), Error::LimitExceeded(_)));
}

/// Verify that encoding a value with an oversized string
/// literal fails
#[test]
fn test_codec_encode_oversized_string_literal() {
    let long_str = "a".repeat(MAX_STRING_LITERAL_LENGTH + 1);
    let val = Value::String { val: long_str };
    let interner = Interner::new();
    let res = encode_value(&val, &interner);
    assert!(res.is_err());
    assert!(matches!(res.unwrap_err(), Error::LimitExceeded(_)));
}

/// The longest text that is allowed is allowed, counted in bytes
#[test]
fn limits_are_inclusive_and_in_bytes() {
    let name = "a".repeat(MAX_IDENTIFIER_LENGTH);
    assert!(validate_identifier(&name).is_ok());
    let name = format!("{}b", name);
    assert!(matches!(
        validate_identifier(&name),
        Err(Error::LimitExceeded(_))
    ));
    let text = "é".repeat(MAX_STRING_LITERAL_LENGTH / 2);
    assert!(validate_string_literal(&text).is_ok());
    let text = format!("{}é", text);
    assert!(matches!(
        validate_string_literal(&text),
        Err(Error::LimitExceeded(_))
    ));
}

/// Names travel as text: another node may number them otherwise
#[test]
fn names_travel_as_text() {
    let mut here = Interner::new();
    let x = here.insert("x");
    let mut there = Interner::new();
    there.insert("taken");
    let encoded = encode_expr(&Expr::Variable { name: x }, &here).unwrap();
    assert_eq!(
        encoded,
        NetExpr::Variable {
            name: "x".to_string()
        }
    );
    match decode_expr(encoded, &mut there).unwrap() {
        Expr::Variable { name } => {
            assert_ne!(name, x);
            assert_eq!(there.get(name), "x");
        }
        other => panic!("unexpected expression {:?}", other),
    }
}
