use meerkat::runtime::ast::{ActionStmt, BinOp, Expr, UnOp, Value};
use meerkat::runtime::interner::{Interner, Symbol};
use meerkat::runtime::interpreter::evaluator::{eval, EvalContext, EvalError};
use meerkat::runtime::interpreter::executor::{execute, ExecuteEffect};
use meerkat::runtime::manager::Manager;
use meerkat::runtime::tt::Param;

fn number(val: i32) -> Expr {
    Expr::Literal {
        val: Value::Int { val },
    }
}

fn boolean(val: bool) -> Expr {
    Expr::Literal {
        val: Value::Bool { val },
    }
}

fn binop(op: BinOp, expr1: Expr, expr2: Expr) -> Expr {
    Expr::Binop {
        op,
        expr1: Box::new(expr1),
        expr2: Box::new(expr2),
    }
}

fn run(
    expr: &Expr,
    env: &Vec<(Symbol, Value)>,
    manager: &mut Manager,
) -> Result<Value, EvalError> {
    let mut ctx = EvalContext {
        manager,
        service_name: Symbol::empty(),
        txn: &mut None,
    };
    eval(expr, env, &mut ctx)
}

/// Verify that evaluating a literal expression returns the expected runtime `Value`
#[test]
fn test_literal() {
    let mut manager = Manager::new(Interner::new());
    let result = run(&number(42), &vec![], &mut manager).unwrap();
    assert_eq!(result, Value::Int { val: 42 });
}

/// Verify that evaluating a binary add operation returns the sum of the numbers
#[test]
fn test_binop_add() {
    let mut manager = Manager::new(Interner::new());
    let expr = binop(BinOp::Add, number(2), number(3));
    let result = run(&expr, &vec![], &mut manager).unwrap();
    assert_eq!(result, Value::Int { val: 5 });
}

/// Verify that defining a function and calling it yields the expected computed `Value`
#[test]
fn test_func_and_call() {
    let mut manager = Manager::new(Interner::new());
    let x = manager.interner.insert("x");
    let func_expr = Expr::Func {
        params: vec![Param { name: x, ty: None }],
        body: Box::new(binop(BinOp::Add, Expr::Variable { name: x }, number(10))),
        return_ty: None,
    };
    let call_expr = Expr::Call {
        func: Box::new(func_expr),
        args: vec![number(5)],
    };
    let result = run(&call_expr, &vec![], &mut manager).unwrap();
    assert_eq!(result, Value::Int { val: 15 });
}

/// Verify that evaluating an action statement block produces an action `Value::ActionClosure`
#[test]
fn test_action_creation() {
    let mut manager = Manager::new(Interner::new());
    let var_name = manager.interner.insert("var_name");
    let action_expr = Expr::Action(vec![ActionStmt::Assign {
        name: var_name,
        expr: number(5),
    }]);
    let result = run(&action_expr, &vec![], &mut manager).unwrap();
    match result {
        Value::ActionClosure { stmts, .. } => assert_eq!(stmts.len(), 1),
        _ => panic!("Expected ActionClosure"),
    }
}

/// Verify that created `Value::Closure`s capture only their referenced free variables from the environment
#[test]
fn test_closure_captures_only_free_vars() {
    let mut manager = Manager::new(Interner::new());
    let v1 = manager.interner.insert("v1");
    let v2 = manager.interner.insert("v2");
    let v3 = manager.interner.insert("v3");
    let v4 = manager.interner.insert("v4");
    let env = vec![
        (v1, Value::Int { val: 1 }),
        (v2, Value::Int { val: 2 }),
        (v3, Value::Int { val: 3 }),
    ];
    let func_expr = Expr::Func {
        params: vec![Param { name: v4, ty: None }],
        body: Box::new(binop(
            BinOp::Add,
            Expr::Variable { name: v4 },
            Expr::Variable { name: v1 },
        )),
        return_ty: None,
    };
    let result = run(&func_expr, &env, &mut manager).unwrap();
    match result {
        Value::Closure {
            params,
            body: _,
            env: captured_env,
            ..
        } => {
            assert_eq!(params.len(), 1);
            assert_eq!(captured_env.len(), 1);
            assert_eq!(captured_env[0].0, v1);
            assert_eq!(captured_env[0].1, Value::Int { val: 1 });
        }
        _ => panic!("Expected Closure"),
    }
}

#[test]
fn test_division_by_zero_returns_runtime_error() {
    let mut manager = Manager::new(Interner::new());
    let expr = binop(BinOp::Div, number(42), number(0));
    let result = run(&expr, &vec![], &mut manager);
    match result {
        Err(EvalError::RuntimeError(ref s)) => assert_eq!(s, "Division by zero"),
        other => panic!("Expected Err(EvalError::RuntimeError), got {:?}", other),
    }
}

#[test]
fn test_division_overflow_returns_runtime_error() {
    let mut manager = Manager::new(Interner::new());
    let expr = binop(BinOp::Div, number(i32::MIN), number(-1));
    let result = run(&expr, &vec![], &mut manager);
    match result {
        Err(EvalError::RuntimeError(ref s)) => assert_eq!(s, "Integer overflow"),
        other => panic!("Expected Err(EvalError::RuntimeError), got {:?}", other),
    }
}

/// Verify that `EvalError::AssertionError` formats
/// correctly and is returned upon assertion failure
#[test]
fn test_assertion_error_execution_and_formatting() {
    let err = EvalError::AssertionError("x == 5".to_string());
    assert_eq!(err.to_text(), "Assertion failed: x == 5");

    let mut manager = Manager::new(Interner::new());
    let stmt = ActionStmt::Assert(boolean(false), "x == 5".to_string());

    let res = execute(&stmt, &vec![], &mut manager, Symbol::empty(), &mut None);

    match res {
        Ok(_) => panic!("Expected assertion to fail"),
        Err(err) => match err {
            EvalError::AssertionError(text) => {
                assert_eq!(text, "x == 5");
            }
            _ => panic!("Expected EvalError::AssertionError"),
        },
    }
}

/// Each operator on operands that it takes, and on others
#[test]
fn operators() {
    let mut m = Manager::new(Interner::new());
    let whole = |val: i32| Ok(Value::Int { val });
    let truth = |val: bool| Ok(Value::Bool { val });
    let none = vec![];
    let cases = vec![
        (binop(BinOp::Sub, number(2), number(5)), whole(-3)),
        (binop(BinOp::Mul, number(-4), number(3)), whole(-12)),
        (binop(BinOp::Div, number(-7), number(2)), whole(-3)),
        (binop(BinOp::Eq, number(3), number(3)), truth(true)),
        (binop(BinOp::Lt, number(3), number(3)), truth(false)),
        (binop(BinOp::Gt, number(4), number(3)), truth(true)),
        (binop(BinOp::And, boolean(true), boolean(false)), truth(false)),
        (binop(BinOp::Or, boolean(true), boolean(false)), truth(true)),
    ];
    for (expr, want) in cases {
        assert_eq!(run(&expr, &none, &mut m), want);
    }
    let neg = Expr::Unop {
        op: UnOp::Neg,
        expr: Box::new(number(8)),
    };
    assert_eq!(run(&neg, &none, &mut m), whole(-8));
    let not = Expr::Unop {
        op: UnOp::Not,
        expr: Box::new(boolean(false)),
    };
    assert_eq!(run(&not, &none, &mut m), truth(true));
    assert!(matches!(
        run(&binop(BinOp::Add, boolean(true), number(1)), &none, &mut m),
        Err(EvalError::TypeError(_))
    ));
}

/// A name that nothing binds is reported
#[test]
fn unbound_name() {
    let mut m = Manager::new(Interner::new());
    let x = m.interner.insert("x");
    assert!(matches!(
        run(&Expr::Variable { name: x }, &vec![], &mut m),
        Err(EvalError::VarNotFound(_)) | Err(EvalError::ServiceNotFound(_))
    ));
}

/// What is not built in yet says so
#[test]
fn not_implemented() {
    let mut m = Manager::new(Interner::new());
    let t = m.interner.insert("t");
    let stmt = ActionStmt::Insert {
        row: number(1),
        table_name: t,
    };
    let r = execute(&stmt, &vec![], &mut m, Symbol::empty(), &mut None);
    assert!(matches!(r, Err(EvalError::NotImplemented)));
}

/// A `let` binds its name, an expression gives its value
#[test]
fn effects() {
    let mut m = Manager::new(Interner::new());
    let x = m.interner.insert("x");
    let bind = ActionStmt::Let {
        name: x,
        ty: None,
        expr: number(3),
    };
    match execute(&bind, &vec![], &mut m, Symbol::empty(), &mut None) {
        Ok(ExecuteEffect::Binding(n, v)) => {
            assert_eq!(n, x);
            assert_eq!(v, Value::Int { val: 3 });
        }
        other => panic!("unexpected {:?}", other),
    }
    match execute(
        &ActionStmt::Expr(number(4)),
        &vec![],
        &mut m,
        Symbol::empty(),
        &mut None,
    ) {
        Ok(ExecuteEffect::ExprValue(v)) => assert_eq!(v, Value::Int { val: 4 }),
        other => panic!("unexpected {:?}", other),
    }
}

/// Recursion without end reaches the limit on nested steps
#[test]
fn depth_is_limited() {
    let mut m = Manager::new(Interner::new());
    m.depth_limit = 50;
    let mut expr = number(0);
    for _ in 0..100 {
        expr = binop(BinOp::Add, expr, number(1));
    }
    assert_eq!(
        run(&expr, &vec![], &mut m),
        Err(EvalError::DepthExceeded)
    );
    m.depth_limit = 1000;
    assert_eq!(run(&expr, &vec![], &mut m), Ok(Value::Int { val: 100 }));
}
