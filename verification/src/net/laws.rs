//! Laws of the wire codec.

use crate::net::wire;
use crate::runtime::ast::model::{ActionStmtM, ExprM, ValueM};
use crate::runtime::ast::renaming;
use crate::runtime::interner;
use crate::runtime::interner::Symbol;
use vstd::prelude::*;

verus! {

/// Two steps that do not fail intern what each of them interns.
broadcast proof fn lemma_and(a: wire::Log, b: wire::Log)
    ensures
        #![trigger a.and(b)]
        a.and(b).err is None ==> a.err is None && b.err is None,
        a.and(b).err is None ==> forall|m: Seq<char>|
            #![trigger a.names.contains(m)]
            #![trigger b.names.contains(m)]
            a.names.contains(m) || b.names.contains(m) ==> a.and(b).names.contains(m),
{
    if a.and(b).err is None {
        assert forall|m: Seq<char>|
            #![trigger a.names.contains(m)]
            #![trigger b.names.contains(m)]
            a.names.contains(m) || b.names.contains(m) implies a.and(b).names.contains(m) by {
            if a.names.contains(m) {
                let k = choose|k: int| 0 <= k < a.names.len() && a.names[k] == m;
                assert(a.and(b).names[k] == m);
            } else {
                let k = choose|k: int| 0 <= k < b.names.len() && b.names[k] == m;
                assert(a.and(b).names[a.names.len() + k] == m);
            }
        }
    }
}

/// One name is interned by itself.
broadcast proof fn lemma_one(n: Seq<char>)
    ensures
        (#[trigger] wire::Log::one(n)).names.contains(n),
{
    assert(wire::Log::one(n).names[0] == n);
}

/// Reading a value interns all of its names.
pub proof fn lemma_value_interns(ok: spec_fn(Seq<char>) -> bool, x: ValueM<Seq<char>>)
    requires
        wire::value_log(x).err is None,
        forall|n: Seq<char>| #[trigger] wire::value_log(x).names.contains(n) ==> ok(n),
    ensures
        renaming::value_all(ok, x),
    decreases x,
{
    broadcast use {lemma_and, lemma_one, wire::group_lists};

    renaming::lemma_value_all(ok, x);
    wire::lemma_value_log(x);
    match x {
        ValueM::Closure { params, body, env, service_name, return_ty } => {
            assert forall|i: int| 0 <= i < params.len() implies ok((#[trigger] params[i]).name) by {
                assert(wire::param_names(params)[i] == params[i].name);
                assert(wire::Log::all(wire::param_names(params)).names.contains(params[i].name));
            }
            lemma_expr_interns(ok, *body);
            assert forall|i: int| 0 <= i < env.len()
                implies ok((#[trigger] env[i]).0) && renaming::value_all(ok, env[i].1) by {
                let logs = wire::env_logs(env);
                wire::lemma_concat_parts(logs, logs.len(), i);
                lemma_value_interns(ok, env[i].1);
            }
        },
        ValueM::ActionClosure { stmts, env, service_net_id } => {
            assert forall|i: int| 0 <= i < stmts.len()
                implies renaming::stmt_all(ok, #[trigger] stmts[i]) by {
                let logs = wire::stmt_logs(stmts);
                wire::lemma_concat_parts(logs, logs.len(), i);
                lemma_stmt_interns(ok, stmts[i]);
            }
            assert forall|i: int| 0 <= i < env.len()
                implies ok((#[trigger] env[i]).0) && renaming::value_all(ok, env[i].1) by {
                let logs = wire::env_logs(env);
                wire::lemma_concat_parts(logs, logs.len(), i);
                lemma_value_interns(ok, env[i].1);
            }
        },
        _ => {},
    }
}

/// Reading an expression interns all of its names.
pub proof fn lemma_expr_interns(ok: spec_fn(Seq<char>) -> bool, x: ExprM<Seq<char>>)
    requires
        wire::expr_log(x).err is None,
        forall|n: Seq<char>| #[trigger] wire::expr_log(x).names.contains(n) ==> ok(n),
    ensures
        renaming::expr_all(ok, x),
    decreases x,
{
    broadcast use {lemma_and, lemma_one, wire::group_lists};

    renaming::lemma_expr_all(ok, x);
    wire::lemma_expr_log(x);
    match x {
        ExprM::Literal { val } => {
            lemma_value_interns(ok, val);
        },
        ExprM::Tuple { val } => {
            assert forall|i: int| 0 <= i < val.len()
                implies renaming::expr_all(ok, #[trigger] val[i]) by {
                let logs = wire::expr_logs(val);
                wire::lemma_concat_parts(logs, logs.len(), i);
                lemma_expr_interns(ok, val[i]);
            }
        },
        ExprM::KeyVal { name, value } => {
            lemma_expr_interns(ok, *value);
        },
        ExprM::Unop { op, expr } => {
            lemma_expr_interns(ok, *expr);
        },
        ExprM::Binop { op, expr1, expr2 } => {
            lemma_expr_interns(ok, *expr1);
            lemma_expr_interns(ok, *expr2);
        },
        ExprM::If { cond, expr1, expr2 } => {
            lemma_expr_interns(ok, *cond);
            lemma_expr_interns(ok, *expr1);
            lemma_expr_interns(ok, *expr2);
        },
        ExprM::Func { params, body, return_ty } => {
            assert forall|i: int| 0 <= i < params.len() implies ok((#[trigger] params[i]).name) by {
                assert(wire::param_names(params)[i] == params[i].name);
                assert(wire::Log::all(wire::param_names(params)).names.contains(params[i].name));
            }
            lemma_expr_interns(ok, *body);
        },
        ExprM::Call { func, args } => {
            lemma_expr_interns(ok, *func);
            assert forall|i: int| 0 <= i < args.len()
                implies renaming::expr_all(ok, #[trigger] args[i]) by {
                let logs = wire::expr_logs(args);
                wire::lemma_concat_parts(logs, logs.len(), i);
                lemma_expr_interns(ok, args[i]);
            }
        },
        ExprM::Action(stmts) => {
            assert forall|i: int| 0 <= i < stmts.len()
                implies renaming::stmt_all(ok, #[trigger] stmts[i]) by {
                let logs = wire::stmt_logs(stmts);
                wire::lemma_concat_parts(logs, logs.len(), i);
                lemma_stmt_interns(ok, stmts[i]);
            }
        },
        ExprM::Select { table_name, column_names, where_clause } => {
            assert forall|i: int| 0 <= i < column_names.len()
                implies ok(#[trigger] column_names[i]) by {
                assert(wire::Log::all(column_names).names.contains(column_names[i]));
            }
            lemma_expr_interns(ok, *where_clause);
        },
        ExprM::Table { schema, records } => {
            assert forall|i: int| 0 <= i < schema.len() implies ok((#[trigger] schema[i]).name) by {
                let logs = Seq::new(schema.len(), |i: int| wire::field_log(schema[i]));
                wire::lemma_concat_parts(logs, logs.len(), i);
                assert(logs[i].names.contains(schema[i].name));
            }
            assert forall|i: int| 0 <= i < records.len()
                implies renaming::expr_all(ok, #[trigger] records[i]) by {
                let logs = wire::expr_logs(records);
                wire::lemma_concat_parts(logs, logs.len(), i);
                lemma_expr_interns(ok, records[i]);
            }
        },
        ExprM::Fold { table_name, column_name, operation, identity } => {
            lemma_expr_interns(ok, *operation);
            lemma_expr_interns(ok, *identity);
        },
        _ => {},
    }
}

/// Reading a statement interns all of its names.
pub proof fn lemma_stmt_interns(ok: spec_fn(Seq<char>) -> bool, x: ActionStmtM<Seq<char>>)
    requires
        wire::stmt_log(x).err is None,
        forall|n: Seq<char>| #[trigger] wire::stmt_log(x).names.contains(n) ==> ok(n),
    ensures
        renaming::stmt_all(ok, x),
    decreases x,
{
    broadcast use {lemma_and, lemma_one, wire::group_lists};

    renaming::lemma_stmt_all(ok, x);
    wire::lemma_stmt_log(x);
    match x {
        ActionStmtM::Let { name, ty, expr } => {
            lemma_expr_interns(ok, expr);
        },
        ActionStmtM::Expr(e) => {
            lemma_expr_interns(ok, e);
        },
        ActionStmtM::Do(e) => {
            lemma_expr_interns(ok, e);
        },
        ActionStmtM::Assert(e, text) => {
            lemma_expr_interns(ok, e);
        },
        ActionStmtM::Assign { name, expr } => {
            lemma_expr_interns(ok, expr);
        },
        ActionStmtM::Insert { row, table_name } => {
            lemma_expr_interns(ok, row);
        },
    }
}

/// What two steps intern, one of them interns.
broadcast proof fn lemma_and_from(a: wire::Log, b: wire::Log, m: Seq<char>)
    requires
        #[trigger] a.and(b).names.contains(m),
    ensures
        a.names.contains(m) || b.names.contains(m),
{
    if a.err is None {
        let k = choose|k: int| 0 <= k < a.and(b).names.len() && a.and(b).names[k] == m;
        if k < a.names.len() {
            assert(a.names[k] == m);
        } else {
            assert(b.names[k - a.names.len()] == m);
        }
    }
}

/// What a course interns, one of its steps interns.
proof fn lemma_concat_from(logs: Seq<wire::Log>, n: nat, m: Seq<char>) -> (j: int)
    requires
        n <= logs.len(),
        wire::concat(logs, n).names.contains(m),
    ensures
        0 <= j < n,
        logs[j].names.contains(m),
    decreases n,
{
    broadcast use lemma_and_from;

    if wire::concat(logs, (n - 1) as nat).names.contains(m) {
        lemma_concat_from(logs, (n - 1) as nat, m)
    } else {
        n - 1
    }
}

/// One name is all that is interned for it, and a test interns none.
broadcast proof fn lemma_one_from(n: Seq<char>, m: Seq<char>)
    ensures
        #[trigger] wire::Log::one(n).names.contains(m) ==> m == n,
{
}

/// Reading a value interns names of its own alone.
pub proof fn lemma_value_interns_own(
    ok: spec_fn(Seq<char>) -> bool,
    x: ValueM<Seq<char>>,
    m: Seq<char>,
)
    requires
        renaming::value_all(ok, x),
        wire::value_log(x).names.contains(m),
    ensures
        ok(m),
    decreases x,
{
    broadcast use {lemma_and_from, lemma_one_from, wire::group_lists};

    renaming::lemma_value_all(ok, x);
    wire::lemma_value_log(x);
    match x {
        ValueM::Closure { params, body, env, service_name, return_ty } => {
            wire::lemma_checks_intern_nothing(wire::param_names(params));
            if wire::param_names(params).contains(m) {
                let j = choose|j: int| 0 <= j < params.len() && wire::param_names(params)[j] == m;
                assert(params[j].name == m);
            }
            if wire::expr_log(*body).names.contains(m) {
                lemma_expr_interns_own(ok, *body, m);
            }
            let logs = wire::env_logs(env);
            if wire::concat_all(logs).names.contains(m) {
                let j = lemma_concat_from(logs, logs.len(), m);
                if wire::value_log(env[j].1).names.contains(m) {
                    lemma_value_interns_own(ok, env[j].1, m);
                } else {
                    assert(m == env[j].0);
                }
            }
        },
        ValueM::ActionClosure { stmts, env, service_net_id } => {
            let logs = wire::stmt_logs(stmts);
            if wire::concat_all(logs).names.contains(m) {
                let j = lemma_concat_from(logs, logs.len(), m);
                lemma_stmt_interns_own(ok, stmts[j], m);
            }
            let logs = wire::env_logs(env);
            if wire::concat_all(logs).names.contains(m) {
                let j = lemma_concat_from(logs, logs.len(), m);
                if wire::value_log(env[j].1).names.contains(m) {
                    lemma_value_interns_own(ok, env[j].1, m);
                } else {
                    assert(m == env[j].0);
                }
            }
        },
        _ => {},
    }
}

/// Reading an expression interns names of its own alone.
pub proof fn lemma_expr_interns_own(
    ok: spec_fn(Seq<char>) -> bool,
    x: ExprM<Seq<char>>,
    m: Seq<char>,
)
    requires
        renaming::expr_all(ok, x),
        wire::expr_log(x).names.contains(m),
    ensures
        ok(m),
    decreases x,
{
    broadcast use {lemma_and_from, lemma_one_from, wire::group_lists};

    renaming::lemma_expr_all(ok, x);
    wire::lemma_expr_log(x);
    match x {
        ExprM::Literal { val } => {
            if wire::value_log(val).names.contains(m) {
                lemma_value_interns_own(ok, val, m);
            }
        },
        ExprM::Tuple { val } => {
            let logs = wire::expr_logs(val);
            if wire::concat_all(logs).names.contains(m) {
                let j = lemma_concat_from(logs, logs.len(), m);
                lemma_expr_interns_own(ok, val[j], m);
            }
        },
        ExprM::KeyVal { name, value } => {
            if wire::expr_log(*value).names.contains(m) {
                lemma_expr_interns_own(ok, *value, m);
            }
        },
        ExprM::Unop { op, expr } => {
            if wire::expr_log(*expr).names.contains(m) {
                lemma_expr_interns_own(ok, *expr, m);
            }
        },
        ExprM::Binop { op, expr1, expr2 } => {
            if wire::expr_log(*expr1).names.contains(m) {
                lemma_expr_interns_own(ok, *expr1, m);
            }
            if wire::expr_log(*expr2).names.contains(m) {
                lemma_expr_interns_own(ok, *expr2, m);
            }
        },
        ExprM::If { cond, expr1, expr2 } => {
            if wire::expr_log(*cond).names.contains(m) {
                lemma_expr_interns_own(ok, *cond, m);
            }
            if wire::expr_log(*expr1).names.contains(m) {
                lemma_expr_interns_own(ok, *expr1, m);
            }
            if wire::expr_log(*expr2).names.contains(m) {
                lemma_expr_interns_own(ok, *expr2, m);
            }
        },
        ExprM::Func { params, body, return_ty } => {
            wire::lemma_checks_intern_nothing(wire::param_names(params));
            if wire::param_names(params).contains(m) {
                let j = choose|j: int| 0 <= j < params.len() && wire::param_names(params)[j] == m;
                assert(params[j].name == m);
            }
            if wire::expr_log(*body).names.contains(m) {
                lemma_expr_interns_own(ok, *body, m);
            }
        },
        ExprM::Call { func, args } => {
            if wire::expr_log(*func).names.contains(m) {
                lemma_expr_interns_own(ok, *func, m);
            }
            let logs = wire::expr_logs(args);
            if wire::concat_all(logs).names.contains(m) {
                let j = lemma_concat_from(logs, logs.len(), m);
                lemma_expr_interns_own(ok, args[j], m);
            }
        },
        ExprM::Action(stmts) => {
            let logs = wire::stmt_logs(stmts);
            if wire::concat_all(logs).names.contains(m) {
                let j = lemma_concat_from(logs, logs.len(), m);
                lemma_stmt_interns_own(ok, stmts[j], m);
            }
        },
        ExprM::Select { table_name, column_names, where_clause } => {
            wire::lemma_checks_intern_nothing(column_names);
            if column_names.contains(m) {
                let j = choose|j: int| 0 <= j < column_names.len() && column_names[j] == m;
                assert(ok(column_names[j]));
            }
            if wire::expr_log(*where_clause).names.contains(m) {
                lemma_expr_interns_own(ok, *where_clause, m);
            }
        },
        ExprM::Table { schema, records } => {
            let cols = Seq::new(schema.len(), |i: int| wire::field_log(schema[i]));
            if wire::fields_log(schema).names.contains(m) {
                let j = lemma_concat_from(cols, cols.len(), m);
                assert(schema[j].name == m);
            }
            let logs = wire::expr_logs(records);
            if wire::concat_all(logs).names.contains(m) {
                let j = lemma_concat_from(logs, logs.len(), m);
                lemma_expr_interns_own(ok, records[j], m);
            }
        },
        ExprM::Fold { table_name, column_name, operation, identity } => {
            if wire::expr_log(*operation).names.contains(m) {
                lemma_expr_interns_own(ok, *operation, m);
            }
            if wire::expr_log(*identity).names.contains(m) {
                lemma_expr_interns_own(ok, *identity, m);
            }
        },
        _ => {},
    }
}

/// Reading a statement interns names of its own alone.
pub proof fn lemma_stmt_interns_own(
    ok: spec_fn(Seq<char>) -> bool,
    x: ActionStmtM<Seq<char>>,
    m: Seq<char>,
)
    requires
        renaming::stmt_all(ok, x),
        wire::stmt_log(x).names.contains(m),
    ensures
        ok(m),
    decreases x,
{
    broadcast use {lemma_and_from, lemma_one_from, wire::group_lists};

    renaming::lemma_stmt_all(ok, x);
    wire::lemma_stmt_log(x);
    match x {
        ActionStmtM::Let { name, ty, expr } => {
            if wire::expr_log(expr).names.contains(m) {
                lemma_expr_interns_own(ok, expr, m);
            }
        },
        ActionStmtM::Expr(e) => {
            if wire::expr_log(e).names.contains(m) {
                lemma_expr_interns_own(ok, e, m);
            }
        },
        ActionStmtM::Do(e) => {
            if wire::expr_log(e).names.contains(m) {
                lemma_expr_interns_own(ok, e, m);
            }
        },
        ActionStmtM::Assert(e, text) => {
            if wire::expr_log(e).names.contains(m) {
                lemma_expr_interns_own(ok, e, m);
            }
        },
        ActionStmtM::Assign { name, expr } => {
            if wire::expr_log(expr).names.contains(m) {
                lemma_expr_interns_own(ok, expr, m);
            }
        },
        ActionStmtM::Insert { row, table_name } => {
            if wire::expr_log(row).names.contains(m) {
                lemma_expr_interns_own(ok, row, m);
            }
        },
    }
}

/// Renaming carries a test of names over.
pub proof fn lemma_value_all_map<N, M>(
    f: spec_fn(N) -> M,
    ok: spec_fn(N) -> bool,
    good: spec_fn(M) -> bool,
    x: ValueM<N>,
)
    requires
        renaming::value_all(ok, x),
        forall|n: N| #[trigger] ok(n) ==> good(f(n)),
    ensures
        renaming::value_all(good, renaming::map_value(f, x)),
    decreases x,
{
    renaming::lemma_value_all(ok, x);
    renaming::lemma_value_map(f, x);
    let y = renaming::map_value(f, x);
    renaming::lemma_value_all(good, y);
    match x {
        ValueM::Closure { params, body, env, service_name, return_ty } => {
            assert forall|i: int| 0 <= i < y->Closure_params.len()
                implies good((#[trigger] y->Closure_params[i]).name) by {
                assert(ok(params[i].name));
            }
            lemma_expr_all_map(f, ok, good, *body);
            assert forall|i: int| 0 <= i < y->Closure_env.len()
                implies good((#[trigger] y->Closure_env[i]).0) && renaming::value_all(
                good,
                y->Closure_env[i].1,
            ) by {
                assert(ok(env[i].0));
                lemma_value_all_map(f, ok, good, env[i].1);
            }
        },
        ValueM::ActionClosure { stmts, env, service_net_id } => {
            assert forall|i: int| 0 <= i < y->ActionClosure_stmts.len()
                implies renaming::stmt_all(good, #[trigger] y->ActionClosure_stmts[i]) by {
                lemma_stmt_all_map(f, ok, good, stmts[i]);
            }
            assert forall|i: int| 0 <= i < y->ActionClosure_env.len()
                implies good((#[trigger] y->ActionClosure_env[i]).0) && renaming::value_all(
                good,
                y->ActionClosure_env[i].1,
            ) by {
                assert(ok(env[i].0));
                lemma_value_all_map(f, ok, good, env[i].1);
            }
        },
        _ => {},
    }
}

/// Renaming carries a test of names over.
pub proof fn lemma_expr_all_map<N, M>(
    f: spec_fn(N) -> M,
    ok: spec_fn(N) -> bool,
    good: spec_fn(M) -> bool,
    x: ExprM<N>,
)
    requires
        renaming::expr_all(ok, x),
        forall|n: N| #[trigger] ok(n) ==> good(f(n)),
    ensures
        renaming::expr_all(good, renaming::map_expr(f, x)),
    decreases x,
{
    renaming::lemma_expr_all(ok, x);
    renaming::lemma_expr_map(f, x);
    let y = renaming::map_expr(f, x);
    renaming::lemma_expr_all(good, y);
    match x {
        ExprM::Literal { val } => {
            lemma_value_all_map(f, ok, good, val);
        },
        ExprM::Tuple { val } => {
            assert forall|i: int| 0 <= i < y->Tuple_val.len()
                implies renaming::expr_all(good, #[trigger] y->Tuple_val[i]) by {
                lemma_expr_all_map(f, ok, good, val[i]);
            }
        },
        ExprM::KeyVal { name, value } => {
            lemma_expr_all_map(f, ok, good, *value);
        },
        ExprM::Unop { op, expr } => {
            lemma_expr_all_map(f, ok, good, *expr);
        },
        ExprM::Binop { op, expr1, expr2 } => {
            lemma_expr_all_map(f, ok, good, *expr1);
            lemma_expr_all_map(f, ok, good, *expr2);
        },
        ExprM::If { cond, expr1, expr2 } => {
            lemma_expr_all_map(f, ok, good, *cond);
            lemma_expr_all_map(f, ok, good, *expr1);
            lemma_expr_all_map(f, ok, good, *expr2);
        },
        ExprM::Func { params, body, return_ty } => {
            assert forall|i: int| 0 <= i < y->Func_params.len()
                implies good((#[trigger] y->Func_params[i]).name) by {
                assert(ok(params[i].name));
            }
            lemma_expr_all_map(f, ok, good, *body);
        },
        ExprM::Call { func, args } => {
            lemma_expr_all_map(f, ok, good, *func);
            assert forall|i: int| 0 <= i < y->Call_args.len()
                implies renaming::expr_all(good, #[trigger] y->Call_args[i]) by {
                lemma_expr_all_map(f, ok, good, args[i]);
            }
        },
        ExprM::Action(stmts) => {
            assert forall|i: int| 0 <= i < y->Action_0.len()
                implies renaming::stmt_all(good, #[trigger] y->Action_0[i]) by {
                lemma_stmt_all_map(f, ok, good, stmts[i]);
            }
        },
        ExprM::Select { table_name, column_names, where_clause } => {
            assert forall|i: int| 0 <= i < y->Select_column_names.len()
                implies good(#[trigger] y->Select_column_names[i]) by {
                assert(ok(column_names[i]));
            }
            lemma_expr_all_map(f, ok, good, *where_clause);
        },
        ExprM::Table { schema, records } => {
            assert forall|i: int| 0 <= i < y->Table_schema.len()
                implies good((#[trigger] y->Table_schema[i]).name) by {
                assert(ok(schema[i].name));
            }
            assert forall|i: int| 0 <= i < y->Table_records.len()
                implies renaming::expr_all(good, #[trigger] y->Table_records[i]) by {
                lemma_expr_all_map(f, ok, good, records[i]);
            }
        },
        ExprM::Fold { table_name, column_name, operation, identity } => {
            lemma_expr_all_map(f, ok, good, *operation);
            lemma_expr_all_map(f, ok, good, *identity);
        },
        _ => {},
    }
}

/// Renaming carries a test of names over.
pub proof fn lemma_stmt_all_map<N, M>(
    f: spec_fn(N) -> M,
    ok: spec_fn(N) -> bool,
    good: spec_fn(M) -> bool,
    x: ActionStmtM<N>,
)
    requires
        renaming::stmt_all(ok, x),
        forall|n: N| #[trigger] ok(n) ==> good(f(n)),
    ensures
        renaming::stmt_all(good, renaming::map_stmt(f, x)),
    decreases x,
{
    renaming::lemma_stmt_all(ok, x);
    renaming::lemma_stmt_map(f, x);
    let y = renaming::map_stmt(f, x);
    renaming::lemma_stmt_all(good, y);
    match x {
        ActionStmtM::Let { name, ty, expr } => {
            lemma_expr_all_map(f, ok, good, expr);
        },
        ActionStmtM::Expr(e) => {
            lemma_expr_all_map(f, ok, good, e);
        },
        ActionStmtM::Do(e) => {
            lemma_expr_all_map(f, ok, good, e);
        },
        ActionStmtM::Assert(e, text) => {
            lemma_expr_all_map(f, ok, good, e);
        },
        ActionStmtM::Assign { name, expr } => {
            lemma_expr_all_map(f, ok, good, expr);
        },
        ActionStmtM::Insert { row, table_name } => {
            lemma_expr_all_map(f, ok, good, row);
        },
    }
}

/// Names that are there are not added again.
proof fn lemma_nothing_new(names: Seq<Seq<char>>, more: Seq<Seq<char>>)
    requires
        forall|i: int| 0 <= i < more.len() ==> names.contains(#[trigger] more[i]),
    ensures
        interner::interned_all(names, more) == names,
    decreases more.len(),
{
    if more.len() > 0 {
        assert(names.contains(more[0]));
        assert forall|i: int| 0 <= i < more.drop_first().len() implies names.contains(
            #[trigger] more.drop_first()[i],
        ) by {
            assert(names.contains(more[i + 1]));
        }
        lemma_nothing_new(names, more.drop_first());
    }
}

/// A value that was encoded decodes, in any process, to a value with the same names: what a
/// receiver reads is what the sender wrote.
pub proof fn law_value_arrives(names: Seq<Seq<char>>, theirs: Seq<Seq<char>>, x: ValueM<Symbol>)
    requires
        wire::value_log(renaming::map_value(wire::naming(names), x)).err is None,
        interner::interned_all(
            theirs,
            wire::value_log(renaming::map_value(wire::naming(names), x)).names,
        ).len() <= usize::MAX,
    ensures
        ({
            let sent = renaming::map_value(wire::naming(names), x);
            let after = interner::interned_all(theirs, wire::value_log(sent).names);
            renaming::map_value(
                wire::naming(after),
                renaming::map_value(wire::symbolizing(after), sent),
            ) == sent
        }),
{
    let sent = renaming::map_value(wire::naming(names), x);
    let log = wire::value_log(sent);
    let after = interner::interned_all(theirs, log.names);
    let ok = wire::known(after);
    interner::lemma_interned_all(theirs, log.names, seq![]);
    assert forall|n: Seq<char>| #[trigger] log.names.contains(n) implies ok(n) by {
        let k = choose|k: int| 0 <= k < log.names.len() && log.names[k] == n;
        assert(after.contains(log.names[k]));
    }
    lemma_value_interns(ok, sent);
    assert forall|n: Seq<char>| #[trigger] ok(n) implies wire::naming(after)(
        wire::symbolizing(after)(n),
    ) == n by {
        interner::lemma_place(after, n);
    }
    renaming::lemma_value_inverse(wire::symbolizing(after), wire::naming(after), ok, sent);
}

/// In the process that encoded it, a value decodes to itself, and no name is added.
pub proof fn law_value_round_trip(names: Seq<Seq<char>>, x: ValueM<Symbol>)
    requires
        names.no_duplicates(),
        names.len() <= usize::MAX,
        renaming::value_all(wire::valid(names), x),
        wire::value_log(renaming::map_value(wire::naming(names), x)).err is None,
    ensures
        ({
            let sent = renaming::map_value(wire::naming(names), x);
            let after = interner::interned_all(names, wire::value_log(sent).names);
            after == names && renaming::map_value(wire::symbolizing(after), sent) == x
        }),
{
    let f = wire::naming(names);
    let g = wire::symbolizing(names);
    let ok = wire::valid(names);
    let sent = renaming::map_value(f, x);
    assert forall|s: Symbol| #[trigger] ok(s) implies g(f(s)) == s by {
        interner::lemma_place(names, names[s.id as int]);
    }
    renaming::lemma_value_inverse(f, g, ok, x);
    let good = wire::known(names);
    lemma_value_all_map(f, ok, good, x);
    let log = wire::value_log(sent);
    assert forall|i: int| 0 <= i < log.names.len()
        implies names.contains(#[trigger] log.names[i]) by {
        lemma_value_interns_own(good, sent, log.names[i]);
    }
    lemma_nothing_new(names, log.names);
}

/// An expression that was encoded decodes, in any process, to one with the same names: what a
/// receiver reads is what the sender wrote.
pub proof fn law_expr_arrives(names: Seq<Seq<char>>, theirs: Seq<Seq<char>>, x: ExprM<Symbol>)
    requires
        wire::expr_log(renaming::map_expr(wire::naming(names), x)).err is None,
        interner::interned_all(
            theirs,
            wire::expr_log(renaming::map_expr(wire::naming(names), x)).names,
        ).len() <= usize::MAX,
    ensures
        ({
            let sent = renaming::map_expr(wire::naming(names), x);
            let after = interner::interned_all(theirs, wire::expr_log(sent).names);
            renaming::map_expr(
                wire::naming(after),
                renaming::map_expr(wire::symbolizing(after), sent),
            ) == sent
        }),
{
    let sent = renaming::map_expr(wire::naming(names), x);
    let log = wire::expr_log(sent);
    let after = interner::interned_all(theirs, log.names);
    let ok = wire::known(after);
    interner::lemma_interned_all(theirs, log.names, seq![]);
    assert forall|n: Seq<char>| #[trigger] log.names.contains(n) implies ok(n) by {
        let k = choose|k: int| 0 <= k < log.names.len() && log.names[k] == n;
        assert(after.contains(log.names[k]));
    }
    lemma_expr_interns(ok, sent);
    assert forall|n: Seq<char>| #[trigger] ok(n) implies wire::naming(after)(
        wire::symbolizing(after)(n),
    ) == n by {
        interner::lemma_place(after, n);
    }
    renaming::lemma_expr_inverse(wire::symbolizing(after), wire::naming(after), ok, sent);
}

/// In the process that encoded it, an expression decodes to itself, and no name is added.
pub proof fn law_expr_round_trip(names: Seq<Seq<char>>, x: ExprM<Symbol>)
    requires
        names.no_duplicates(),
        names.len() <= usize::MAX,
        renaming::expr_all(wire::valid(names), x),
        wire::expr_log(renaming::map_expr(wire::naming(names), x)).err is None,
    ensures
        ({
            let sent = renaming::map_expr(wire::naming(names), x);
            let after = interner::interned_all(names, wire::expr_log(sent).names);
            after == names && renaming::map_expr(wire::symbolizing(after), sent) == x
        }),
{
    let f = wire::naming(names);
    let g = wire::symbolizing(names);
    let ok = wire::valid(names);
    let sent = renaming::map_expr(f, x);
    assert forall|s: Symbol| #[trigger] ok(s) implies g(f(s)) == s by {
        interner::lemma_place(names, names[s.id as int]);
    }
    renaming::lemma_expr_inverse(f, g, ok, x);
    let good = wire::known(names);
    lemma_expr_all_map(f, ok, good, x);
    let log = wire::expr_log(sent);
    assert forall|i: int| 0 <= i < log.names.len()
        implies names.contains(#[trigger] log.names[i]) by {
        lemma_expr_interns_own(good, sent, log.names[i]);
    }
    lemma_nothing_new(names, log.names);
}

/// A statement that was encoded decodes, in any process, to a statement with the same names: what a
/// receiver reads is what the sender wrote.
pub proof fn law_stmt_arrives(names: Seq<Seq<char>>, theirs: Seq<Seq<char>>, x: ActionStmtM<Symbol>)
    requires
        wire::stmt_log(renaming::map_stmt(wire::naming(names), x)).err is None,
        interner::interned_all(
            theirs,
            wire::stmt_log(renaming::map_stmt(wire::naming(names), x)).names,
        ).len() <= usize::MAX,
    ensures
        ({
            let sent = renaming::map_stmt(wire::naming(names), x);
            let after = interner::interned_all(theirs, wire::stmt_log(sent).names);
            renaming::map_stmt(
                wire::naming(after),
                renaming::map_stmt(wire::symbolizing(after), sent),
            ) == sent
        }),
{
    let sent = renaming::map_stmt(wire::naming(names), x);
    let log = wire::stmt_log(sent);
    let after = interner::interned_all(theirs, log.names);
    let ok = wire::known(after);
    interner::lemma_interned_all(theirs, log.names, seq![]);
    assert forall|n: Seq<char>| #[trigger] log.names.contains(n) implies ok(n) by {
        let k = choose|k: int| 0 <= k < log.names.len() && log.names[k] == n;
        assert(after.contains(log.names[k]));
    }
    lemma_stmt_interns(ok, sent);
    assert forall|n: Seq<char>| #[trigger] ok(n) implies wire::naming(after)(
        wire::symbolizing(after)(n),
    ) == n by {
        interner::lemma_place(after, n);
    }
    renaming::lemma_stmt_inverse(wire::symbolizing(after), wire::naming(after), ok, sent);
}

/// In the process that encoded it, a statement decodes to itself, and no name is added.
pub proof fn law_stmt_round_trip(names: Seq<Seq<char>>, x: ActionStmtM<Symbol>)
    requires
        names.no_duplicates(),
        names.len() <= usize::MAX,
        renaming::stmt_all(wire::valid(names), x),
        wire::stmt_log(renaming::map_stmt(wire::naming(names), x)).err is None,
    ensures
        ({
            let sent = renaming::map_stmt(wire::naming(names), x);
            let after = interner::interned_all(names, wire::stmt_log(sent).names);
            after == names && renaming::map_stmt(wire::symbolizing(after), sent) == x
        }),
{
    let f = wire::naming(names);
    let g = wire::symbolizing(names);
    let ok = wire::valid(names);
    let sent = renaming::map_stmt(f, x);
    assert forall|s: Symbol| #[trigger] ok(s) implies g(f(s)) == s by {
        interner::lemma_place(names, names[s.id as int]);
    }
    renaming::lemma_stmt_inverse(f, g, ok, x);
    let good = wire::known(names);
    lemma_stmt_all_map(f, ok, good, x);
    let log = wire::stmt_log(sent);
    assert forall|i: int| 0 <= i < log.names.len()
        implies names.contains(#[trigger] log.names[i]) by {
        lemma_stmt_interns_own(good, sent, log.names[i]);
    }
    lemma_nothing_new(names, log.names);
}

} // verus!
