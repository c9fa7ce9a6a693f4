//! Renaming: terms with each name replaced by another.

use crate::runtime::ast::model::{ActionStmtM, ExprM, FieldM, ValueM};
use crate::runtime::tt::ParamM;
use vstd::prelude::*;

verus! {

/// A list of names, each replaced by `f`.
pub open spec fn map_names<N, M>(f: spec_fn(N) -> M, s: Seq<N>) -> Seq<M> {
    Seq::new(s.len(), |i: int| f(s[i]))
}

/// A list of parameters, each name replaced by `f`.
pub open spec fn map_params<N, M>(f: spec_fn(N) -> M, s: Seq<ParamM<N>>) -> Seq<ParamM<M>> {
    Seq::new(s.len(), |i: int| ParamM { name: f(s[i].name), ty: s[i].ty })
}

/// A list of columns, each name replaced by `f`.
pub open spec fn map_fields<N, M>(f: spec_fn(N) -> M, s: Seq<FieldM<N>>) -> Seq<FieldM<M>> {
    Seq::new(s.len(), |i: int| FieldM { name: f(s[i].name), ty: s[i].ty })
}

/// Expressions, each name replaced by `f`.
pub open spec fn map_exprs<N, M>(f: spec_fn(N) -> M, s: Seq<ExprM<N>>) -> Seq<ExprM<M>> {
    Seq::new(s.len(), |i: int| map_expr(f, s[i]))
}

/// Statements, each name replaced by `f`.
pub open spec fn map_stmts<N, M>(f: spec_fn(N) -> M, s: Seq<ActionStmtM<N>>) -> Seq<
    ActionStmtM<M>,
> {
    Seq::new(s.len(), |i: int| map_stmt(f, s[i]))
}

/// Bindings, each name replaced by `f`.
pub open spec fn map_env<N, M>(f: spec_fn(N) -> M, s: Seq<(N, ValueM<N>)>) -> Seq<
    (M, ValueM<M>),
> {
    Seq::new(s.len(), |i: int| (f(s[i].0), map_value(f, s[i].1)))
}

/// A value with each name `n` replaced by `f(n)`.
#[verifier::opaque]
pub open spec fn map_value<N, M>(f: spec_fn(N) -> M, x: ValueM<N>) -> ValueM<M>
    decreases x,
{
    match x {
        ValueM::Int { val } => ValueM::Int { val: val },
        ValueM::Bool { val } => ValueM::Bool { val: val },
        ValueM::String { val } => ValueM::String { val: val },
        ValueM::Closure { params, body, env, service_name, return_ty } => ValueM::Closure {
            params: map_params(f, params),
            body: Box::new(map_expr(f, *body)),
            env: Seq::new(
                env.len(),
                |i: int|
                    if 0 <= i < env.len() {
                        (f(env[i].0), map_value(f, env[i].1))
                    } else {
                        arbitrary()
                    },
            ),
            service_name: f(service_name),
            return_ty: return_ty,
        },
        ValueM::ActionClosure { stmts, env, service_net_id } => ValueM::ActionClosure { stmts: Seq::new(
                stmts.len(),
                |i: int|
                    if 0 <= i < stmts.len() {
                        map_stmt(f, stmts[i])
                    } else {
                        arbitrary()
                    },
            ), env: Seq::new(
                env.len(),
                |i: int|
                    if 0 <= i < env.len() {
                        (f(env[i].0), map_value(f, env[i].1))
                    } else {
                        arbitrary()
                    },
            ), service_net_id: service_net_id },
    }
}

/// An expression with each name `n` replaced by `f(n)`.
#[verifier::opaque]
pub open spec fn map_expr<N, M>(f: spec_fn(N) -> M, x: ExprM<N>) -> ExprM<M>
    decreases x,
{
    match x {
        ExprM::Literal { val } => ExprM::Literal { val: map_value(f, val) },
        ExprM::Variable { name } => ExprM::Variable { name: f(name) },
        ExprM::Tuple { val } => ExprM::Tuple { val: Seq::new(
                val.len(),
                |i: int|
                    if 0 <= i < val.len() {
                        map_expr(f, val[i])
                    } else {
                        arbitrary()
                    },
            ) },
        ExprM::KeyVal { name, value } => ExprM::KeyVal {
            name: f(name),
            value: Box::new(map_expr(f, *value)),
        },
        ExprM::Unop { op, expr } => ExprM::Unop { op: op, expr: Box::new(map_expr(f, *expr)) },
        ExprM::Binop { op, expr1, expr2 } => ExprM::Binop {
            op: op,
            expr1: Box::new(map_expr(f, *expr1)),
            expr2: Box::new(map_expr(f, *expr2)),
        },
        ExprM::If { cond, expr1, expr2 } => ExprM::If {
            cond: Box::new(map_expr(f, *cond)),
            expr1: Box::new(map_expr(f, *expr1)),
            expr2: Box::new(map_expr(f, *expr2)),
        },
        ExprM::Func { params, body, return_ty } => ExprM::Func {
            params: map_params(f, params),
            body: Box::new(map_expr(f, *body)),
            return_ty: return_ty,
        },
        ExprM::Call { func, args } => ExprM::Call { func: Box::new(map_expr(f, *func)), args: Seq::new(
                args.len(),
                |i: int|
                    if 0 <= i < args.len() {
                        map_expr(f, args[i])
                    } else {
                        arbitrary()
                    },
            ) },
        ExprM::Action(stmts) => ExprM::Action(Seq::new(
                stmts.len(),
                |i: int|
                    if 0 <= i < stmts.len() {
                        map_stmt(f, stmts[i])
                    } else {
                        arbitrary()
                    },
            )),
        ExprM::MemberAccess { service_name, member_name } => ExprM::MemberAccess {
            service_name: f(service_name),
            member_name: f(member_name),
        },
        ExprM::Select { table_name, column_names, where_clause } => ExprM::Select {
            table_name: f(table_name),
            column_names: map_names(f, column_names),
            where_clause: Box::new(map_expr(f, *where_clause)),
        },
        ExprM::Table { schema, records } => ExprM::Table { schema: map_fields(f, schema), records: Seq::new(
                records.len(),
                |i: int|
                    if 0 <= i < records.len() {
                        map_expr(f, records[i])
                    } else {
                        arbitrary()
                    },
            ) },
        ExprM::Fold { table_name, column_name, operation, identity } => ExprM::Fold {
            table_name: f(table_name),
            column_name: f(column_name),
            operation: Box::new(map_expr(f, *operation)),
            identity: Box::new(map_expr(f, *identity)),
        },
    }
}

/// A statement with each name `n` replaced by `f(n)`.
#[verifier::opaque]
pub open spec fn map_stmt<N, M>(f: spec_fn(N) -> M, x: ActionStmtM<N>) -> ActionStmtM<M>
    decreases x,
{
    match x {
        ActionStmtM::Let { name, ty, expr } => ActionStmtM::Let {
            name: f(name),
            ty: ty,
            expr: map_expr(f, expr),
        },
        ActionStmtM::Expr(e) => ActionStmtM::Expr(map_expr(f, e)),
        ActionStmtM::Do(e) => ActionStmtM::Do(map_expr(f, e)),
        ActionStmtM::Assert(e, text) => ActionStmtM::Assert(map_expr(f, e), text),
        ActionStmtM::Assign { name, expr } => ActionStmtM::Assign {
            name: f(name),
            expr: map_expr(f, expr),
        },
        ActionStmtM::Insert { row, table_name } => ActionStmtM::Insert {
            row: map_expr(f, row),
            table_name: f(table_name),
        },
    }
}

/// Whether every name in a value passes `ok`.
#[verifier::opaque]
pub open spec fn value_all<N>(ok: spec_fn(N) -> bool, x: ValueM<N>) -> bool
    decreases x,
{
    match x {
        ValueM::Int { val } => true,
        ValueM::Bool { val } => true,
        ValueM::String { val } => true,
        ValueM::Closure { params, body, env, service_name, return_ty } => (
            forall|i: int| 0 <= i < params.len() ==> ok((#[trigger] params[i]).name)
        )
            && expr_all(ok, *body)
            && (
                forall|i: int| 0 <= i < env.len() ==> ok((#[trigger] env[i]).0) && value_all(
                    ok,
                    env[i].1,
                )
            )
            && ok(service_name),
        ValueM::ActionClosure { stmts, env, service_net_id } => (
            forall|i: int| 0 <= i < stmts.len() ==> stmt_all(ok, #[trigger] stmts[i])
        )
            && (
                forall|i: int| 0 <= i < env.len() ==> ok((#[trigger] env[i]).0) && value_all(
                    ok,
                    env[i].1,
                )
            ),
    }
}

/// Whether every name in an expression passes `ok`.
#[verifier::opaque]
pub open spec fn expr_all<N>(ok: spec_fn(N) -> bool, x: ExprM<N>) -> bool
    decreases x,
{
    match x {
        ExprM::Literal { val } => value_all(ok, val),
        ExprM::Variable { name } => ok(name),
        ExprM::Tuple { val } => (
            forall|i: int| 0 <= i < val.len() ==> expr_all(ok, #[trigger] val[i])
        ),
        ExprM::KeyVal { name, value } => ok(name) && expr_all(ok, *value),
        ExprM::Unop { op, expr } => expr_all(ok, *expr),
        ExprM::Binop { op, expr1, expr2 } => expr_all(ok, *expr1) && expr_all(ok, *expr2),
        ExprM::If { cond, expr1, expr2 } => expr_all(ok, *cond)
            && expr_all(ok, *expr1)
            && expr_all(ok, *expr2),
        ExprM::Func { params, body, return_ty } => (
            forall|i: int| 0 <= i < params.len() ==> ok((#[trigger] params[i]).name)
        )
            && expr_all(ok, *body),
        ExprM::Call { func, args } => expr_all(ok, *func)
            && (forall|i: int| 0 <= i < args.len() ==> expr_all(ok, #[trigger] args[i])),
        ExprM::Action(stmts) => (
            forall|i: int| 0 <= i < stmts.len() ==> stmt_all(ok, #[trigger] stmts[i])
        ),
        ExprM::MemberAccess { service_name, member_name } => ok(service_name) && ok(member_name),
        ExprM::Select { table_name, column_names, where_clause } => ok(table_name)
            && (forall|i: int| 0 <= i < column_names.len() ==> ok(#[trigger] column_names[i]))
            && expr_all(ok, *where_clause),
        ExprM::Table { schema, records } => (
            forall|i: int| 0 <= i < schema.len() ==> ok((#[trigger] schema[i]).name)
        )
            && (forall|i: int| 0 <= i < records.len() ==> expr_all(ok, #[trigger] records[i])),
        ExprM::Fold { table_name, column_name, operation, identity } => ok(table_name)
            && ok(column_name)
            && expr_all(ok, *operation)
            && expr_all(ok, *identity),
    }
}

/// Whether every name in a statement passes `ok`.
#[verifier::opaque]
pub open spec fn stmt_all<N>(ok: spec_fn(N) -> bool, x: ActionStmtM<N>) -> bool
    decreases x,
{
    match x {
        ActionStmtM::Let { name, ty, expr } => ok(name) && expr_all(ok, expr),
        ActionStmtM::Expr(e) => expr_all(ok, e),
        ActionStmtM::Do(e) => expr_all(ok, e),
        ActionStmtM::Assert(e, text) => expr_all(ok, e),
        ActionStmtM::Assign { name, expr } => ok(name) && expr_all(ok, expr),
        ActionStmtM::Insert { row, table_name } => expr_all(ok, row) && ok(table_name),
    }
}

/// Renaming a value renames its parts.
pub proof fn lemma_value_map<N, M>(f: spec_fn(N) -> M, x: ValueM<N>)
    ensures
        map_value(f, x) == (match x {
            ValueM::Int { val } => ValueM::Int { val: val },
            ValueM::Bool { val } => ValueM::Bool { val: val },
            ValueM::String { val } => ValueM::String { val: val },
            ValueM::Closure { params, body, env, service_name, return_ty } => ValueM::Closure {
                params: map_params(f, params),
                body: Box::new(map_expr(f, *body)),
                env: map_env(f, env),
                service_name: f(service_name),
                return_ty: return_ty,
            },
            ValueM::ActionClosure { stmts, env, service_net_id } => ValueM::ActionClosure {
                stmts: map_stmts(f, stmts),
                env: map_env(f, env),
                service_net_id: service_net_id,
            },
        }),
{
    reveal(map_value);
    reveal(map_expr);
    reveal(map_stmt);
    match x {
        ValueM::Closure { params, body, env, service_name, return_ty } => {
            assert(map_value(f, x)->Closure_env =~= map_env(f, env));
        },
        ValueM::ActionClosure { stmts, env, service_net_id } => {
            assert(map_value(f, x)->ActionClosure_stmts =~= map_stmts(f, stmts));
            assert(map_value(f, x)->ActionClosure_env =~= map_env(f, env));
        },
        _ => {},
    }
}

/// Renaming an expression renames its parts.
pub proof fn lemma_expr_map<N, M>(f: spec_fn(N) -> M, x: ExprM<N>)
    ensures
        map_expr(f, x) == (match x {
            ExprM::Literal { val } => ExprM::Literal { val: map_value(f, val) },
            ExprM::Variable { name } => ExprM::Variable { name: f(name) },
            ExprM::Tuple { val } => ExprM::Tuple { val: map_exprs(f, val) },
            ExprM::KeyVal { name, value } => ExprM::KeyVal {
                name: f(name),
                value: Box::new(map_expr(f, *value)),
            },
            ExprM::Unop { op, expr } => ExprM::Unop { op: op, expr: Box::new(map_expr(f, *expr)) },
            ExprM::Binop { op, expr1, expr2 } => ExprM::Binop {
                op: op,
                expr1: Box::new(map_expr(f, *expr1)),
                expr2: Box::new(map_expr(f, *expr2)),
            },
            ExprM::If { cond, expr1, expr2 } => ExprM::If {
                cond: Box::new(map_expr(f, *cond)),
                expr1: Box::new(map_expr(f, *expr1)),
                expr2: Box::new(map_expr(f, *expr2)),
            },
            ExprM::Func { params, body, return_ty } => ExprM::Func {
                params: map_params(f, params),
                body: Box::new(map_expr(f, *body)),
                return_ty: return_ty,
            },
            ExprM::Call { func, args } => ExprM::Call {
                func: Box::new(map_expr(f, *func)),
                args: map_exprs(f, args),
            },
            ExprM::Action(stmts) => ExprM::Action(map_stmts(f, stmts)),
            ExprM::MemberAccess { service_name, member_name } => ExprM::MemberAccess {
                service_name: f(service_name),
                member_name: f(member_name),
            },
            ExprM::Select { table_name, column_names, where_clause } => ExprM::Select {
                table_name: f(table_name),
                column_names: map_names(f, column_names),
                where_clause: Box::new(map_expr(f, *where_clause)),
            },
            ExprM::Table { schema, records } => ExprM::Table {
                schema: map_fields(f, schema),
                records: map_exprs(f, records),
            },
            ExprM::Fold { table_name, column_name, operation, identity } => ExprM::Fold {
                table_name: f(table_name),
                column_name: f(column_name),
                operation: Box::new(map_expr(f, *operation)),
                identity: Box::new(map_expr(f, *identity)),
            },
        }),
{
    reveal(map_value);
    reveal(map_expr);
    reveal(map_stmt);
    match x {
        ExprM::Tuple { val } => {
            assert(map_expr(f, x)->Tuple_val =~= map_exprs(f, val));
        },
        ExprM::Call { func, args } => {
            assert(map_expr(f, x)->Call_args =~= map_exprs(f, args));
        },
        ExprM::Action(stmts) => {
            assert(map_expr(f, x)->Action_0 =~= map_stmts(f, stmts));
        },
        ExprM::Table { schema, records } => {
            assert(map_expr(f, x)->Table_records =~= map_exprs(f, records));
        },
        _ => {},
    }
}

/// Renaming a statement renames its parts.
pub proof fn lemma_stmt_map<N, M>(f: spec_fn(N) -> M, x: ActionStmtM<N>)
    ensures
        map_stmt(f, x) == (match x {
            ActionStmtM::Let { name, ty, expr } => ActionStmtM::Let {
                name: f(name),
                ty: ty,
                expr: map_expr(f, expr),
            },
            ActionStmtM::Expr(e) => ActionStmtM::Expr(map_expr(f, e)),
            ActionStmtM::Do(e) => ActionStmtM::Do(map_expr(f, e)),
            ActionStmtM::Assert(e, text) => ActionStmtM::Assert(map_expr(f, e), text),
            ActionStmtM::Assign { name, expr } => ActionStmtM::Assign {
                name: f(name),
                expr: map_expr(f, expr),
            },
            ActionStmtM::Insert { row, table_name } => ActionStmtM::Insert {
                row: map_expr(f, row),
                table_name: f(table_name),
            },
        }),
{
    reveal(map_value);
    reveal(map_expr);
    reveal(map_stmt);
    match x {
        _ => {},
    }
}

/// All names of a value pass where those of its parts do.
pub proof fn lemma_value_all<N>(ok: spec_fn(N) -> bool, x: ValueM<N>)
    ensures
        value_all(ok, x) == (match x {
            ValueM::Int { val } => true,
            ValueM::Bool { val } => true,
            ValueM::String { val } => true,
            ValueM::Closure { params, body, env, service_name, return_ty } => (
                forall|i: int| 0 <= i < params.len() ==> ok((#[trigger] params[i]).name)
            )
                && expr_all(ok, *body)
                && (
                    forall|i: int| 0 <= i < env.len() ==> ok((#[trigger] env[i]).0) && value_all(
                        ok,
                        env[i].1,
                    )
                )
                && ok(service_name),
            ValueM::ActionClosure { stmts, env, service_net_id } => (
                forall|i: int| 0 <= i < stmts.len() ==> stmt_all(ok, #[trigger] stmts[i])
            )
                && (
                    forall|i: int| 0 <= i < env.len() ==> ok((#[trigger] env[i]).0) && value_all(
                        ok,
                        env[i].1,
                    )
                ),
        }),
{
    reveal(value_all);
    reveal(expr_all);
    reveal(stmt_all);
}

/// All names of an expression pass where those of its parts do.
pub proof fn lemma_expr_all<N>(ok: spec_fn(N) -> bool, x: ExprM<N>)
    ensures
        expr_all(ok, x) == (match x {
            ExprM::Literal { val } => value_all(ok, val),
            ExprM::Variable { name } => ok(name),
            ExprM::Tuple { val } => (
                forall|i: int| 0 <= i < val.len() ==> expr_all(ok, #[trigger] val[i])
            ),
            ExprM::KeyVal { name, value } => ok(name) && expr_all(ok, *value),
            ExprM::Unop { op, expr } => expr_all(ok, *expr),
            ExprM::Binop { op, expr1, expr2 } => expr_all(ok, *expr1) && expr_all(ok, *expr2),
            ExprM::If { cond, expr1, expr2 } => expr_all(ok, *cond)
                && expr_all(ok, *expr1)
                && expr_all(ok, *expr2),
            ExprM::Func { params, body, return_ty } => (
                forall|i: int| 0 <= i < params.len() ==> ok((#[trigger] params[i]).name)
            )
                && expr_all(ok, *body),
            ExprM::Call { func, args } => expr_all(ok, *func)
                && (forall|i: int| 0 <= i < args.len() ==> expr_all(ok, #[trigger] args[i])),
            ExprM::Action(stmts) => (
                forall|i: int| 0 <= i < stmts.len() ==> stmt_all(ok, #[trigger] stmts[i])
            ),
            ExprM::MemberAccess { service_name, member_name } => ok(service_name)
                && ok(member_name),
            ExprM::Select { table_name, column_names, where_clause } => ok(table_name)
                && (forall|i: int| 0 <= i < column_names.len() ==> ok(#[trigger] column_names[i]))
                && expr_all(ok, *where_clause),
            ExprM::Table { schema, records } => (
                forall|i: int| 0 <= i < schema.len() ==> ok((#[trigger] schema[i]).name)
            )
                && (forall|i: int| 0 <= i < records.len() ==> expr_all(ok, #[trigger] records[i])),
            ExprM::Fold { table_name, column_name, operation, identity } => ok(table_name)
                && ok(column_name)
                && expr_all(ok, *operation)
                && expr_all(ok, *identity),
        }),
{
    reveal(value_all);
    reveal(expr_all);
    reveal(stmt_all);
}

/// All names of a statement pass where those of its parts do.
pub proof fn lemma_stmt_all<N>(ok: spec_fn(N) -> bool, x: ActionStmtM<N>)
    ensures
        stmt_all(ok, x) == (match x {
            ActionStmtM::Let { name, ty, expr } => ok(name) && expr_all(ok, expr),
            ActionStmtM::Expr(e) => expr_all(ok, e),
            ActionStmtM::Do(e) => expr_all(ok, e),
            ActionStmtM::Assert(e, text) => expr_all(ok, e),
            ActionStmtM::Assign { name, expr } => ok(name) && expr_all(ok, expr),
            ActionStmtM::Insert { row, table_name } => expr_all(ok, row) && ok(table_name),
        }),
{
    reveal(value_all);
    reveal(expr_all);
    reveal(stmt_all);
}

/// Renaming by `f` and then by `g` gives a value back, where `g` undoes `f` on its
/// names.
pub proof fn lemma_value_inverse<N, M>(
    f: spec_fn(N) -> M,
    g: spec_fn(M) -> N,
    ok: spec_fn(N) -> bool,
    x: ValueM<N>,
)
    requires
        value_all(ok, x),
        forall|n: N| #[trigger] ok(n) ==> g(f(n)) == n,
    ensures
        map_value(g, map_value(f, x)) == x,
    decreases x,
{
    lemma_value_all(ok, x);
    lemma_value_map(f, x);
    lemma_value_map(g, map_value(f, x));
    match x {
        ValueM::Closure { params, body, env, service_name, return_ty } => {
            assert(map_value(g, map_value(f, x))->Closure_params =~= params);
            lemma_expr_inverse(f, g, ok, *body);
            assert forall|i: int| 0 <= i < env.len()
                implies map_value(g, map_value(f, (#[trigger] env[i]).1)) == env[i].1 by {
                lemma_value_inverse(f, g, ok, env[i].1);
            }
            assert(map_value(g, map_value(f, x))->Closure_env =~= env);
        },
        ValueM::ActionClosure { stmts, env, service_net_id } => {
            assert forall|i: int| 0 <= i < stmts.len()
                implies map_stmt(g, map_stmt(f, #[trigger] stmts[i])) == stmts[i] by {
                lemma_stmt_inverse(f, g, ok, stmts[i]);
            }
            assert(map_value(g, map_value(f, x))->ActionClosure_stmts =~= stmts);
            assert forall|i: int| 0 <= i < env.len()
                implies map_value(g, map_value(f, (#[trigger] env[i]).1)) == env[i].1 by {
                lemma_value_inverse(f, g, ok, env[i].1);
            }
            assert(map_value(g, map_value(f, x))->ActionClosure_env =~= env);
        },
        _ => {},
    }
}

/// Renaming by `f` and then by `g` gives an expression back, where `g` undoes `f` on its
/// names.
pub proof fn lemma_expr_inverse<N, M>(
    f: spec_fn(N) -> M,
    g: spec_fn(M) -> N,
    ok: spec_fn(N) -> bool,
    x: ExprM<N>,
)
    requires
        expr_all(ok, x),
        forall|n: N| #[trigger] ok(n) ==> g(f(n)) == n,
    ensures
        map_expr(g, map_expr(f, x)) == x,
    decreases x,
{
    lemma_expr_all(ok, x);
    lemma_expr_map(f, x);
    lemma_expr_map(g, map_expr(f, x));
    match x {
        ExprM::Literal { val } => {
            lemma_value_inverse(f, g, ok, val);
        },
        ExprM::Tuple { val } => {
            assert forall|i: int| 0 <= i < val.len()
                implies map_expr(g, map_expr(f, #[trigger] val[i])) == val[i] by {
                lemma_expr_inverse(f, g, ok, val[i]);
            }
            assert(map_expr(g, map_expr(f, x))->Tuple_val =~= val);
        },
        ExprM::KeyVal { name, value } => {
            lemma_expr_inverse(f, g, ok, *value);
        },
        ExprM::Unop { op, expr } => {
            lemma_expr_inverse(f, g, ok, *expr);
        },
        ExprM::Binop { op, expr1, expr2 } => {
            lemma_expr_inverse(f, g, ok, *expr1);
            lemma_expr_inverse(f, g, ok, *expr2);
        },
        ExprM::If { cond, expr1, expr2 } => {
            lemma_expr_inverse(f, g, ok, *cond);
            lemma_expr_inverse(f, g, ok, *expr1);
            lemma_expr_inverse(f, g, ok, *expr2);
        },
        ExprM::Func { params, body, return_ty } => {
            assert(map_expr(g, map_expr(f, x))->Func_params =~= params);
            lemma_expr_inverse(f, g, ok, *body);
        },
        ExprM::Call { func, args } => {
            lemma_expr_inverse(f, g, ok, *func);
            assert forall|i: int| 0 <= i < args.len()
                implies map_expr(g, map_expr(f, #[trigger] args[i])) == args[i] by {
                lemma_expr_inverse(f, g, ok, args[i]);
            }
            assert(map_expr(g, map_expr(f, x))->Call_args =~= args);
        },
        ExprM::Action(stmts) => {
            assert forall|i: int| 0 <= i < stmts.len()
                implies map_stmt(g, map_stmt(f, #[trigger] stmts[i])) == stmts[i] by {
                lemma_stmt_inverse(f, g, ok, stmts[i]);
            }
            assert(map_expr(g, map_expr(f, x))->Action_0 =~= stmts);
        },
        ExprM::Select { table_name, column_names, where_clause } => {
            assert(map_expr(g, map_expr(f, x))->Select_column_names =~= column_names);
            lemma_expr_inverse(f, g, ok, *where_clause);
        },
        ExprM::Table { schema, records } => {
            assert(map_expr(g, map_expr(f, x))->Table_schema =~= schema);
            assert forall|i: int| 0 <= i < records.len()
                implies map_expr(g, map_expr(f, #[trigger] records[i])) == records[i] by {
                lemma_expr_inverse(f, g, ok, records[i]);
            }
            assert(map_expr(g, map_expr(f, x))->Table_records =~= records);
        },
        ExprM::Fold { table_name, column_name, operation, identity } => {
            lemma_expr_inverse(f, g, ok, *operation);
            lemma_expr_inverse(f, g, ok, *identity);
        },
        _ => {},
    }
}

/// Renaming by `f` and then by `g` gives a statement back, where `g` undoes `f` on its
/// names.
pub proof fn lemma_stmt_inverse<N, M>(
    f: spec_fn(N) -> M,
    g: spec_fn(M) -> N,
    ok: spec_fn(N) -> bool,
    x: ActionStmtM<N>,
)
    requires
        stmt_all(ok, x),
        forall|n: N| #[trigger] ok(n) ==> g(f(n)) == n,
    ensures
        map_stmt(g, map_stmt(f, x)) == x,
    decreases x,
{
    lemma_stmt_all(ok, x);
    lemma_stmt_map(f, x);
    lemma_stmt_map(g, map_stmt(f, x));
    match x {
        ActionStmtM::Let { name, ty, expr } => {
            lemma_expr_inverse(f, g, ok, expr);
        },
        ActionStmtM::Expr(e) => {
            lemma_expr_inverse(f, g, ok, e);
        },
        ActionStmtM::Do(e) => {
            lemma_expr_inverse(f, g, ok, e);
        },
        ActionStmtM::Assert(e, text) => {
            lemma_expr_inverse(f, g, ok, e);
        },
        ActionStmtM::Assign { name, expr } => {
            lemma_expr_inverse(f, g, ok, expr);
        },
        ActionStmtM::Insert { row, table_name } => {
            lemma_expr_inverse(f, g, ok, row);
        },
    }
}

/// Two renamings that agree on the names of a value agree on it.
pub proof fn lemma_value_agree<N, M>(
    f: spec_fn(N) -> M,
    h: spec_fn(N) -> M,
    ok: spec_fn(N) -> bool,
    x: ValueM<N>,
)
    requires
        value_all(ok, x),
        forall|n: N| #[trigger] ok(n) ==> f(n) == h(n),
    ensures
        map_value(f, x) == map_value(h, x),
    decreases x,
{
    lemma_value_all(ok, x);
    lemma_value_map(f, x);
    lemma_value_map(h, x);
    match x {
        ValueM::Closure { params, body, env, service_name, return_ty } => {
            assert(map_value(f, x)->Closure_params =~= map_value(h, x)->Closure_params);
            lemma_expr_agree(f, h, ok, *body);
            assert forall|i: int| 0 <= i < env.len()
                implies map_value(f, (#[trigger] env[i]).1) == map_value(h, env[i].1) by {
                lemma_value_agree(f, h, ok, env[i].1);
            }
            assert(map_value(f, x)->Closure_env =~= map_value(h, x)->Closure_env);
        },
        ValueM::ActionClosure { stmts, env, service_net_id } => {
            assert forall|i: int| 0 <= i < stmts.len()
                implies map_stmt(f, #[trigger] stmts[i]) == map_stmt(h, stmts[i]) by {
                lemma_stmt_agree(f, h, ok, stmts[i]);
            }
            assert(map_value(f, x)->ActionClosure_stmts =~= map_value(h, x)->ActionClosure_stmts);
            assert forall|i: int| 0 <= i < env.len()
                implies map_value(f, (#[trigger] env[i]).1) == map_value(h, env[i].1) by {
                lemma_value_agree(f, h, ok, env[i].1);
            }
            assert(map_value(f, x)->ActionClosure_env =~= map_value(h, x)->ActionClosure_env);
        },
        _ => {},
    }
}

/// Two renamings that agree on the names of an expression agree on it.
pub proof fn lemma_expr_agree<N, M>(
    f: spec_fn(N) -> M,
    h: spec_fn(N) -> M,
    ok: spec_fn(N) -> bool,
    x: ExprM<N>,
)
    requires
        expr_all(ok, x),
        forall|n: N| #[trigger] ok(n) ==> f(n) == h(n),
    ensures
        map_expr(f, x) == map_expr(h, x),
    decreases x,
{
    lemma_expr_all(ok, x);
    lemma_expr_map(f, x);
    lemma_expr_map(h, x);
    match x {
        ExprM::Literal { val } => {
            lemma_value_agree(f, h, ok, val);
        },
        ExprM::Tuple { val } => {
            assert forall|i: int| 0 <= i < val.len()
                implies map_expr(f, #[trigger] val[i]) == map_expr(h, val[i]) by {
                lemma_expr_agree(f, h, ok, val[i]);
            }
            assert(map_expr(f, x)->Tuple_val =~= map_expr(h, x)->Tuple_val);
        },
        ExprM::KeyVal { name, value } => {
            lemma_expr_agree(f, h, ok, *value);
        },
        ExprM::Unop { op, expr } => {
            lemma_expr_agree(f, h, ok, *expr);
        },
        ExprM::Binop { op, expr1, expr2 } => {
            lemma_expr_agree(f, h, ok, *expr1);
            lemma_expr_agree(f, h, ok, *expr2);
        },
        ExprM::If { cond, expr1, expr2 } => {
            lemma_expr_agree(f, h, ok, *cond);
            lemma_expr_agree(f, h, ok, *expr1);
            lemma_expr_agree(f, h, ok, *expr2);
        },
        ExprM::Func { params, body, return_ty } => {
            assert(map_expr(f, x)->Func_params =~= map_expr(h, x)->Func_params);
            lemma_expr_agree(f, h, ok, *body);
        },
        ExprM::Call { func, args } => {
            lemma_expr_agree(f, h, ok, *func);
            assert forall|i: int| 0 <= i < args.len()
                implies map_expr(f, #[trigger] args[i]) == map_expr(h, args[i]) by {
                lemma_expr_agree(f, h, ok, args[i]);
            }
            assert(map_expr(f, x)->Call_args =~= map_expr(h, x)->Call_args);
        },
        ExprM::Action(stmts) => {
            assert forall|i: int| 0 <= i < stmts.len()
                implies map_stmt(f, #[trigger] stmts[i]) == map_stmt(h, stmts[i]) by {
                lemma_stmt_agree(f, h, ok, stmts[i]);
            }
            assert(map_expr(f, x)->Action_0 =~= map_expr(h, x)->Action_0);
        },
        ExprM::Select { table_name, column_names, where_clause } => {
            assert(map_expr(f, x)->Select_column_names =~= map_expr(h, x)->Select_column_names);
            lemma_expr_agree(f, h, ok, *where_clause);
        },
        ExprM::Table { schema, records } => {
            assert(map_expr(f, x)->Table_schema =~= map_expr(h, x)->Table_schema);
            assert forall|i: int| 0 <= i < records.len()
                implies map_expr(f, #[trigger] records[i]) == map_expr(h, records[i]) by {
                lemma_expr_agree(f, h, ok, records[i]);
            }
            assert(map_expr(f, x)->Table_records =~= map_expr(h, x)->Table_records);
        },
        ExprM::Fold { table_name, column_name, operation, identity } => {
            lemma_expr_agree(f, h, ok, *operation);
            lemma_expr_agree(f, h, ok, *identity);
        },
        _ => {},
    }
}

/// Two renamings that agree on the names of a statement agree on it.
pub proof fn lemma_stmt_agree<N, M>(
    f: spec_fn(N) -> M,
    h: spec_fn(N) -> M,
    ok: spec_fn(N) -> bool,
    x: ActionStmtM<N>,
)
    requires
        stmt_all(ok, x),
        forall|n: N| #[trigger] ok(n) ==> f(n) == h(n),
    ensures
        map_stmt(f, x) == map_stmt(h, x),
    decreases x,
{
    lemma_stmt_all(ok, x);
    lemma_stmt_map(f, x);
    lemma_stmt_map(h, x);
    match x {
        ActionStmtM::Let { name, ty, expr } => {
            lemma_expr_agree(f, h, ok, expr);
        },
        ActionStmtM::Expr(e) => {
            lemma_expr_agree(f, h, ok, e);
        },
        ActionStmtM::Do(e) => {
            lemma_expr_agree(f, h, ok, e);
        },
        ActionStmtM::Assert(e, text) => {
            lemma_expr_agree(f, h, ok, e);
        },
        ActionStmtM::Assign { name, expr } => {
            lemma_expr_agree(f, h, ok, expr);
        },
        ActionStmtM::Insert { row, table_name } => {
            lemma_expr_agree(f, h, ok, row);
        },
    }
}

} // verus!
