//! Evaluation of expressions.

use crate::error::Error;
use crate::runtime::ast::model::ValueM;
use crate::runtime::ast::{BinOp, Expr, UnOp, Value};
use crate::runtime::interner::Symbol;
use crate::runtime::manager;
use crate::runtime::manager::model;
use crate::runtime::manager::semantics;
use crate::runtime::manager::Manager;
use crate::runtime::semantic_analysis::var_analysis::symbols::SymbolSet;
use crate::runtime::table::Plain;
use crate::runtime::text;
use crate::runtime::tt::Param;
use crate::runtime::txn::Transaction;
use vstd::prelude::*;

verus! {

/// Why evaluation or execution failed.
#[derive(Debug, Clone, PartialEq)]
pub enum EvalError {
    TypeError(String),
    VarNotFound(String),
    ServiceNotFound(String),
    LocalDispatchFailed(String),
    RemoteDispatchFailed(String),
    NotImplemented,
    /// The transaction gave way to an older one.
    WaitDieAbort(String),
    /// The transaction is to wait for this member's lock.
    WaitOn(Symbol, Symbol),
    AssertionError(String),
    RuntimeError(String),
    /// A reply has not arrived yet: run again once the inbox holds more.
    Suspended,
    /// The limit on nested steps was reached.
    DepthExceeded,
}

/// The model of an [`EvalError`].
pub enum ErrM {
    TypeError(Seq<char>),
    VarNotFound(Seq<char>),
    ServiceNotFound(Seq<char>),
    LocalDispatchFailed(Seq<char>),
    RemoteDispatchFailed(Seq<char>),
    NotImplemented,
    WaitDieAbort(Seq<char>),
    WaitOn(Symbol, Symbol),
    AssertionError(Seq<char>),
    RuntimeError(Seq<char>),
    Suspended,
    DepthExceeded,
}

impl DeepView for EvalError {
    type V = ErrM;

    open spec fn deep_view(&self) -> ErrM {
        match *self {
            EvalError::TypeError(s) => ErrM::TypeError(s@),
            EvalError::VarNotFound(s) => ErrM::VarNotFound(s@),
            EvalError::ServiceNotFound(s) => ErrM::ServiceNotFound(s@),
            EvalError::LocalDispatchFailed(s) => ErrM::LocalDispatchFailed(s@),
            EvalError::RemoteDispatchFailed(s) => ErrM::RemoteDispatchFailed(s@),
            EvalError::NotImplemented => ErrM::NotImplemented,
            EvalError::WaitDieAbort(s) => ErrM::WaitDieAbort(s@),
            EvalError::WaitOn(a, b) => ErrM::WaitOn(a, b),
            EvalError::AssertionError(s) => ErrM::AssertionError(s@),
            EvalError::RuntimeError(s) => ErrM::RuntimeError(s@),
            EvalError::Suspended => ErrM::Suspended,
            EvalError::DepthExceeded => ErrM::DepthExceeded,
        }
    }
}

/// The model of an outcome.
pub open spec fn res<T: DeepView>(r: Result<T, EvalError>) -> Result<T::V, ErrM> {
    match r {
        Ok(x) => Ok(x.deep_view()),
        Err(e) => Err(e.deep_view()),
    }
}

/// The model of an outcome without a value.
pub open spec fn done(r: Result<(), EvalError>) -> Result<(), ErrM> {
    match r {
        Ok(_) => Ok(()),
        Err(e) => Err(e.deep_view()),
    }
}

/// How an error is described to a user.
pub open spec fn error_text(e: ErrM) -> Seq<char> {
    match e {
        ErrM::TypeError(s) => "Type error: "@ + s,
        ErrM::VarNotFound(s) => "Variable not found: "@ + s,
        ErrM::ServiceNotFound(s) => "Service not found: "@ + s,
        ErrM::LocalDispatchFailed(s) => "Local dispatch failed: "@ + s,
        ErrM::RemoteDispatchFailed(s) => "Remote dispatch failed: "@ + s,
        ErrM::NotImplemented => "Not implemented"@,
        ErrM::WaitDieAbort(s) => "Wait-die abort: "@ + s,
        ErrM::WaitOn(a, b) => "Wait-die wait on Symbol("@ + text::decimal(a.id as nat)
            + ")::Symbol("@ + text::decimal(b.id as nat) + ")"@,
        ErrM::AssertionError(s) => "Assertion failed: "@ + s,
        ErrM::RuntimeError(s) => "Runtime error: "@ + s,
        ErrM::Suspended => "Suspended"@,
        ErrM::DepthExceeded => "Depth exceeded"@,
    }
}

impl EvalError {
    /// A description for a user.
    pub fn to_text(&self) -> (r: String)
        ensures
            r@ == error_text(self.deep_view()),
    {
        match self {
            EvalError::TypeError(s) => text::cat2("Type error: ", s.as_str()),
            EvalError::VarNotFound(s) => text::cat2("Variable not found: ", s.as_str()),
            EvalError::ServiceNotFound(s) => text::cat2("Service not found: ", s.as_str()),
            EvalError::LocalDispatchFailed(s) => text::cat2("Local dispatch failed: ", s.as_str()),
            EvalError::RemoteDispatchFailed(s) => text::cat2(
                "Remote dispatch failed: ",
                s.as_str(),
            ),
            EvalError::NotImplemented => "Not implemented".to_owned(),
            EvalError::WaitDieAbort(s) => text::cat2("Wait-die abort: ", s.as_str()),
            EvalError::WaitOn(a, b) => text::cat5(
                "Wait-die wait on Symbol(",
                text::usize_text(a.id).as_str(),
                ")::Symbol(",
                text::usize_text(b.id).as_str(),
                ")",
            ),
            EvalError::AssertionError(s) => text::cat2("Assertion failed: ", s.as_str()),
            EvalError::RuntimeError(s) => text::cat2("Runtime error: ", s.as_str()),
            EvalError::Suspended => "Suspended".to_owned(),
            EvalError::DepthExceeded => "Depth exceeded".to_owned(),
        }
    }

    /// A failure of the codec, as a failure to dispatch.
    pub fn from_codec(e: &Error) -> (r: EvalError)
        ensures
            r.deep_view() == ErrM::LocalDispatchFailed(e.text()),
    {
        EvalError::LocalDispatchFailed(e.to_text())
    }
}

/// What an evaluation works on: the node, the service whose members bare names
/// stand for, and the transaction under way, if any. The bindings are kept
/// apart from it, since they change with every call.
pub struct EvalContext<'a> {
    pub manager: &'a mut Manager,
    pub service_name: Symbol,
    pub txn: &'a mut Option<Transaction>,
}

/// Evaluates an expression, with as many nested steps as the node allows.
pub fn eval(expr: &Expr, env: &Vec<(Symbol, Value)>, ctx: &mut EvalContext<'_>) -> (r: Result<
    Value,
    EvalError,
>)
    ensures
        (
            res(r),
            manager::world(*final(ctx).manager, *final(ctx).txn),
        ) == semantics::eval(
            old(ctx).manager.deep_view().depth_limit as nat,
            expr.deep_view(),
            env.deep_view(),
            old(ctx).service_name,
            manager::world(*old(ctx).manager, *old(ctx).txn),
        ),
        final(ctx).service_name == old(ctx).service_name,
{
    let fuel = ctx.manager.depth_limit;
    eval_at(fuel, expr, env, ctx.manager, ctx.service_name, ctx.txn)
}

/// The latest binding of `name`.
fn env_find(env: &Vec<(Symbol, Value)>, name: Symbol) -> (r: Option<Value>)
    ensures
        r.deep_view() == model::env_get(env.deep_view(), name),
{
    let ghost e = env.deep_view();
    let mut i: usize = env.len();
    assert(e.take(i as int) =~= e);
    while i > 0
        invariant
            i <= env@.len(),
            e == env.deep_view(),
            model::env_get(e.take(i as int), name) == model::env_get(e, name),
        decreases i,
    {
        assert(e.take(i as int).drop_last() =~= e.take(i - 1));
        assert(e.take(i as int).last() == env@[i - 1].deep_view());
        if env[i - 1].0 == name {
            return Some(env[i - 1].1.dup());
        }
        i = i - 1;
    }
    None
}

/// The bindings of `env` with the parameters bound to the arguments.
fn bind(env: &Vec<(Symbol, Value)>, params: &Vec<Param>, args: &Vec<Value>) -> (r: Vec<
    (Symbol, Value),
>)
    ensures
        r.deep_view() == model::bind_args(
            env.deep_view(),
            params.deep_view(),
            args.deep_view(),
        ),
{
    let mut out = env.dup();
    let n: usize = if params.len() < args.len() {
        params.len()
    } else {
        args.len()
    };
    let ghost e = env.deep_view();
    let ghost p = params.deep_view();
    let ghost a = args.deep_view();
    for i in 0..n
        invariant
            n <= params@.len(),
            n <= args@.len(),
            p == params.deep_view(),
            a == args.deep_view(),
            out.deep_view() == e + Seq::new(i as nat, |j: int| (p[j].name, a[j])),
    {
        let ghost before = out.deep_view();
        out.push((params[i].name, args[i].dup()));
        assert(out.deep_view() =~= before.push((p[i as int].name, a[i as int])));
        assert(out.deep_view() =~= e + Seq::new((i + 1) as nat, |j: int| (p[j].name, a[j])));
    }
    assert(out.deep_view() =~= model::bind_args(e, p, a));
    out
}

/// The bindings that a closure with the free variables `free` takes along.
fn capture(
    env: &Vec<(Symbol, Value)>,
    free: &SymbolSet,
    manager: &Manager,
    service_name: Symbol,
) -> (r: Vec<(Symbol, Value)>)
    ensures
        r.deep_view() == model::captured(
            manager.deep_view(),
            service_name,
            env.deep_view(),
            free@,
            env.deep_view().len(),
        ),
{
    let ghost e = env.deep_view();
    let mut out: Vec<(Symbol, Value)> = Vec::new();
    assert(out.deep_view() =~= Seq::<(Symbol, ValueM<Symbol>)>::empty());
    for i in 0..env.len()
        invariant
            e == env.deep_view(),
            out.deep_view() == model::captured(
                manager.deep_view(),
                service_name,
                e,
                free@,
                i as nat,
            ),
    {
        assert(e[i as int] == env@[i as int].deep_view());
        let own = match manager.services.get(&service_name) {
            None => false,
            Some(s) => s.vars.contains_key(&env[i].0) || s.defs.contains_key(&env[i].0),
        };
        if free.contains(&env[i].0) && !own {
            let ghost before = out.deep_view();
            out.push(env[i].dup());
            assert(out.deep_view() =~= before.push(e[i as int]));
        }
    }
    out
}

/// A binary operation on values.
pub fn apply_binop(op: BinOp, a: &Value, b: &Value) -> (r: Result<Value, EvalError>)
    ensures
        res(r) == model::binop(op.deep_view(), a.deep_view(), b.deep_view()),
{
    proof {
        crate::runtime::ast::lemma_value_model(*a);
        crate::runtime::ast::lemma_value_model(*b);
    }
    let out = match (op, a, b) {
        (BinOp::Add, Value::Int { val: x }, Value::Int { val: y }) => Value::Int {
            val: x.wrapping_add(*y),
        },
        (BinOp::Sub, Value::Int { val: x }, Value::Int { val: y }) => Value::Int {
            val: x.wrapping_sub(*y),
        },
        (BinOp::Mul, Value::Int { val: x }, Value::Int { val: y }) => Value::Int {
            val: x.wrapping_mul(*y),
        },
        (BinOp::Div, Value::Int { val: x }, Value::Int { val: y }) => match x.checked_div(*y) {
            Some(q) => Value::Int { val: q },
            None => {
                return Err(
                    EvalError::RuntimeError(
                        if *y == 0 {
                            "Division by zero".to_owned()
                        } else {
                            "Integer overflow".to_owned()
                        },
                    ),
                );
            },
        },
        (BinOp::Eq, Value::Int { val: x }, Value::Int { val: y }) => Value::Bool { val: *x == *y },
        (BinOp::Lt, Value::Int { val: x }, Value::Int { val: y }) => Value::Bool { val: *x < *y },
        (BinOp::Gt, Value::Int { val: x }, Value::Int { val: y }) => Value::Bool { val: *x > *y },
        (BinOp::And, Value::Bool { val: x }, Value::Bool { val: y }) => Value::Bool {
            val: *x && *y,
        },
        (BinOp::Or, Value::Bool { val: x }, Value::Bool { val: y }) => Value::Bool {
            val: *x || *y,
        },
        _ => {
            return Err(EvalError::TypeError("Type error in binary operation".to_owned()));
        },
    };
    proof {
        crate::runtime::ast::lemma_value_model(out);
    }
    Ok(out)
}

/// A unary operation on a value.
pub fn apply_unop(op: UnOp, a: &Value) -> (r: Result<Value, EvalError>)
    ensures
        res(r) == model::unop(op.deep_view(), a.deep_view()),
{
    proof {
        crate::runtime::ast::lemma_value_model(*a);
    }
    let out = match (op, a) {
        (UnOp::Neg, Value::Int { val: x }) => Value::Int { val: 0i32.wrapping_sub(*x) },
        (UnOp::Not, Value::Bool { val: x }) => Value::Bool { val: !*x },
        _ => {
            return Err(EvalError::TypeError("Type error in unary operation".to_owned()));
        },
    };
    proof {
        crate::runtime::ast::lemma_value_model(out);
    }
    Ok(out)
}

/// Evaluates an expression with `fuel` nested steps left.
pub fn eval_at(
    fuel: u64,
    expr: &Expr,
    env: &Vec<(Symbol, Value)>,
    manager: &mut Manager,
    service_name: Symbol,
    txn: &mut Option<Transaction>,
) -> (r: Result<Value, EvalError>)
    ensures
        (res(r), manager::world(*final(manager), *final(txn))) == semantics::eval(
            fuel as nat,
            expr.deep_view(),
            env.deep_view(),
            service_name,
            manager::world(*old(manager), *old(txn)),
        ),
    decreases fuel, 0nat,
{
    proof {
        crate::runtime::ast::lemma_expr_model(*expr);
        reveal(semantics::eval);
        reveal(semantics::eval_step);
        reveal(semantics::eval_args);
        reveal(semantics::lookup);
    }
    if fuel == 0 {
        return Err(EvalError::DepthExceeded);
    }
    let n: u64 = fuel - 1;
    match expr {
        Expr::Literal { val } => Ok(val.dup()),
        Expr::Variable { name } => {
            match env_find(env, *name) {
                Some(v) => Ok(v),
                None => manager.lookup_at(n, *name, service_name, txn),
            }
        },
        Expr::Call { func, args } => {
            let f = match eval_at(n, func, env, manager, service_name, txn) {
                Ok(f) => f,
                Err(e) => {
                    return Err(e);
                },
            };
            let vals = match eval_args_at(n, args, env, manager, service_name, txn) {
                Ok(v) => v,
                Err(e) => {
                    return Err(e);
                },
            };
            proof {
                crate::runtime::ast::lemma_value_model(f);
            }
            match f {
                Value::Closure { params, body, env: own, service_name: svc, return_ty } => {
                    let new_env = bind(&own, &params, &vals);
                    eval_at(n, &body, &new_env, manager, svc, txn)
                },
                _ => Err(
                    EvalError::TypeError("Attempting to call a non-function value".to_owned()),
                ),
            }
        },
        Expr::Binop { op, expr1, expr2 } => {
            let a = match eval_at(n, expr1, env, manager, service_name, txn) {
                Ok(v) => v,
                Err(e) => {
                    return Err(e);
                },
            };
            let b = match eval_at(n, expr2, env, manager, service_name, txn) {
                Ok(v) => v,
                Err(e) => {
                    return Err(e);
                },
            };
            apply_binop(*op, &a, &b)
        },
        Expr::Unop { op, expr } => {
            match eval_at(n, expr, env, manager, service_name, txn) {
                Ok(v) => apply_unop(*op, &v),
                Err(e) => Err(e),
            }
        },
        Expr::If { cond, expr1, expr2 } => {
            let c = match eval_at(n, cond, env, manager, service_name, txn) {
                Ok(v) => v,
                Err(e) => {
                    return Err(e);
                },
            };
            proof {
                crate::runtime::ast::lemma_value_model(c);
            }
            match c {
                Value::Bool { val } => {
                    if val {
                        eval_at(n, expr1, env, manager, service_name, txn)
                    } else {
                        eval_at(n, expr2, env, manager, service_name, txn)
                    }
                },
                _ => Err(EvalError::TypeError("Condition must be boolean".to_owned())),
            }
        },
        Expr::Func { params, body, return_ty } => {
            let none = SymbolSet::new();
            let bound = crate::runtime::semantic_analysis::var_analysis::read_write::bind_params(
                &none,
                params,
            );
            let free = body.free_var(&none, &bound);
            let out = Value::Closure {
                params: params.dup(),
                body: Box::new(body.dup()),
                env: capture(env, &free, manager, service_name),
                service_name,
                return_ty: return_ty.dup(),
            };
            proof {
                crate::runtime::ast::lemma_value_model(out);
            }
            Ok(out)
        },
        Expr::Action(stmts) => {
            let none = SymbolSet::new();
            let free = expr.free_var(&none, &none);
            let out = Value::ActionClosure {
                stmts: stmts.dup(),
                env: capture(env, &free, manager, service_name),
                service_net_id: manager.service_net_id_for_name(service_name),
            };
            proof {
                crate::runtime::ast::lemma_value_model(out);
            }
            Ok(out)
        },
        Expr::MemberAccess { service_name: svc, member_name } => {
            match &manager.reactive_cache {
                Some(c) => {
                    match c.get(&(*svc, *member_name)) {
                        Some(v) => {
                            return Ok(v.dup());
                        },
                        None => {},
                    }
                },
                None => {},
            }
            manager.lookup_at(n, *member_name, *svc, txn)
        },
        Expr::Tuple { .. } => Err(EvalError::NotImplemented),
        Expr::KeyVal { .. } => Err(EvalError::NotImplemented),
        Expr::Select { .. } => Err(EvalError::NotImplemented),
        Expr::Table { .. } => Err(EvalError::NotImplemented),
        Expr::Fold { .. } => Err(EvalError::NotImplemented),
    }
}

/// Evaluates arguments in order.
fn eval_args_at(
    fuel: u64,
    args: &Vec<Expr>,
    env: &Vec<(Symbol, Value)>,
    manager: &mut Manager,
    service_name: Symbol,
    txn: &mut Option<Transaction>,
) -> (r: Result<Vec<Value>, EvalError>)
    ensures
        (res(r), manager::world(*final(manager), *final(txn))) == semantics::eval_args(
            fuel as nat,
            args.deep_view(),
            0,
            seq![],
            env.deep_view(),
            service_name,
            manager::world(*old(manager), *old(txn)),
        ),
    decreases fuel, 1nat,
{
    let ghost t = args.deep_view();
    let ghost w0 = manager::world(*manager, *txn);
    let ghost whole = semantics::eval_args(
        fuel as nat,
        t,
        0,
        seq![],
        env.deep_view(),
        service_name,
        w0,
    );
    let mut out: Vec<Value> = Vec::new();
    assert(out.deep_view() =~= Seq::<ValueM<Symbol>>::empty());
    for i in 0..args.len()
        invariant
            t == args.deep_view(),
            whole == semantics::eval_args(
                fuel as nat,
                t,
                i as nat,
                out.deep_view(),
                env.deep_view(),
                service_name,
                manager::world(*manager, *txn),
            ),
            whole == semantics::eval_args(
                fuel as nat,
                t,
                0,
                seq![],
                env.deep_view(),
                service_name,
                manager::world(*old(manager), *old(txn)),
            ),
    {
        proof {
            reveal(semantics::eval_args);
            reveal(semantics::eval);
        }
        match eval_at(fuel, &args[i], env, manager, service_name, txn) {
            Err(e) => {
                return Err(e);
            },
            Ok(v) => {
                let ghost before = out.deep_view();
                out.push(v);
                assert(out.deep_view() =~= before.push(v.deep_view()));
            },
        }
    }
    proof {
        reveal(semantics::eval_args);
    }
    Ok(out)
}

} // verus!
