//! The inner structure of syntax trees, as text.

use crate::net::types::ServiceNetId;
use crate::runtime::ast::model::{
    ActionStmtM, BinOpM, ExprM, FieldM, TableTypeM, UnOpM, ValueM,
};
use crate::runtime::ast::{ActionStmt, BinOp, Expr, Field, TableType, UnOp, Value};
use crate::runtime::interner::Symbol;
use crate::runtime::text;
use crate::runtime::tt;
use crate::runtime::tt::{Param, ParamM, Type, TypeM};
use vstd::prelude::*;
use vstd::string::*;

verus! {

/// What [`quote`] makes of a text.
pub uninterp spec fn quoted(s: Seq<char>) -> Seq<char>;

/// Writes a text in quotes, with what cannot stand in them escaped.
///
/// This is the `Debug` form of `str`. The result depends on the text alone; how
/// each character is escaped is not stated.
#[verifier::external_body]
pub(crate) fn quote(s: &str) -> (r: String)
    ensures
        r@ == quoted(s@),
{
    format!("{:?}", s)
}

/// The inner structure of a symbol.
pub open spec fn debug_symbol(x: Symbol) -> Seq<char> {
    "Symbol { id: "@ + text::decimal(x.id as nat) + " }"@
}

/// The inner structure of a unary operator.
pub open spec fn debug_unop(x: UnOpM) -> Seq<char> {
    match x {
        UnOpM::Neg => "Neg"@,
        UnOpM::Not => "Not"@,
    }
}

/// The inner structure of a binary operator.
pub open spec fn debug_binop(x: BinOpM) -> Seq<char> {
    match x {
        BinOpM::Add => "Add"@,
        BinOpM::Sub => "Sub"@,
        BinOpM::Mul => "Mul"@,
        BinOpM::Div => "Div"@,
        BinOpM::Eq => "Eq"@,
        BinOpM::Lt => "Lt"@,
        BinOpM::Gt => "Gt"@,
        BinOpM::And => "And"@,
        BinOpM::Or => "Or"@,
    }
}

/// The inner structure of a column's type.
pub open spec fn debug_table_type(x: TableTypeM) -> Seq<char> {
    match x {
        TableTypeM::String => "String"@,
        TableTypeM::Int => "Int"@,
        TableTypeM::Bool => "Bool"@,
    }
}

/// The inner structure of a type.
#[verifier::opaque]
pub open spec fn debug_type(x: TypeM) -> Seq<char>
    decreases x, 0nat,
{
    match x {
        TypeM::Int => "Int"@,
        TypeM::String => "String"@,
        TypeM::Bool => "Bool"@,
        TypeM::Unit => "Unit"@,
        TypeM::Tuple(v) => "Tuple(["@ + debug_types(v, v.len()) + "])"@,
        TypeM::Func(a, b) => "Func("@ + debug_type(*a) + ", "@ + debug_type(*b) + ")"@,
    }
}

/// The inner structure of the first `n` types.
#[verifier::opaque]
pub open spec fn debug_types(v: Seq<TypeM>, n: nat) -> Seq<char>
    decreases v, n,
{
    if n == 0 || n > v.len() {
        seq![]
    } else if n == 1 {
        debug_type(v[n - 1])
    } else {
        debug_types(v, (n - 1) as nat) + ", "@ + debug_type(v[n - 1])
    }
}

/// The inner structure of a type that may be missing.
pub open spec fn debug_type_opt(x: Option<TypeM>) -> Seq<char> {
    match x {
        Some(t) => "Some("@ + debug_type(t) + ")"@,
        None => "None"@,
    }
}

/// The inner structure of a parameter.
pub open spec fn debug_param(x: ParamM<Symbol>) -> Seq<char> {
    "Param { name: "@ + debug_symbol(x.name) + ", ty: "@ + debug_type_opt(x.ty) + " }"@
}

/// The inner structure of the first `n` parameters.
pub open spec fn debug_params(v: Seq<ParamM<Symbol>>, n: nat) -> Seq<char>
    decreases n,
{
    if n == 0 || n > v.len() {
        seq![]
    } else if n == 1 {
        debug_param(v[n - 1])
    } else {
        debug_params(v, (n - 1) as nat) + ", "@ + debug_param(v[n - 1])
    }
}

/// The inner structure of a column.
pub open spec fn debug_field(x: FieldM<Symbol>) -> Seq<char> {
    "Field { name: "@ + debug_symbol(x.name) + ", ty: "@ + debug_table_type(x.ty) + " }"@
}

/// The inner structure of the first `n` columns.
pub open spec fn debug_fields(v: Seq<FieldM<Symbol>>, n: nat) -> Seq<char>
    decreases n,
{
    if n == 0 || n > v.len() {
        seq![]
    } else if n == 1 {
        debug_field(v[n - 1])
    } else {
        debug_fields(v, (n - 1) as nat) + ", "@ + debug_field(v[n - 1])
    }
}

/// The inner structure of the first `n` symbols.
pub open spec fn debug_symbols(v: Seq<Symbol>, n: nat) -> Seq<char>
    decreases n,
{
    if n == 0 || n > v.len() {
        seq![]
    } else if n == 1 {
        debug_symbol(v[n - 1])
    } else {
        debug_symbols(v, (n - 1) as nat) + ", "@ + debug_symbol(v[n - 1])
    }
}

fn symbol_debug(x: &Symbol) -> (r: String)
    ensures
        r@ == debug_symbol(*x),
{
    text::cat3("Symbol { id: ", text::usize_text(x.id).as_str(), " }")
}

fn net_id_debug(x: &ServiceNetId) -> (r: String)
    ensures
        r@ == "ServiceNetId("@ + quoted(x.deep_view()) + ")"@,
{
    text::cat3("ServiceNetId(", quote(x.0.as_str()).as_str(), ")")
}

/// Writes the name of a unary operator.
pub fn unop_debug(x: UnOp) -> (r: String)
    ensures
        r@ == debug_unop(x.deep_view()),
{
    match x {
        UnOp::Neg => "Neg".to_owned(),
        UnOp::Not => "Not".to_owned(),
    }
}

/// Writes the name of a binary operator.
pub fn binop_debug(x: BinOp) -> (r: String)
    ensures
        r@ == debug_binop(x.deep_view()),
{
    match x {
        BinOp::Add => "Add".to_owned(),
        BinOp::Sub => "Sub".to_owned(),
        BinOp::Mul => "Mul".to_owned(),
        BinOp::Div => "Div".to_owned(),
        BinOp::Eq => "Eq".to_owned(),
        BinOp::Lt => "Lt".to_owned(),
        BinOp::Gt => "Gt".to_owned(),
        BinOp::And => "And".to_owned(),
        BinOp::Or => "Or".to_owned(),
    }
}

/// Writes the name of a column's type.
pub fn table_type_debug(x: TableType) -> (r: String)
    ensures
        r@ == debug_table_type(x.deep_view()),
{
    match x {
        TableType::String => "String".to_owned(),
        TableType::Int => "Int".to_owned(),
        TableType::Bool => "Bool".to_owned(),
    }
}

fn type_debug(x: &Type) -> (r: String)
    ensures
        r@ == debug_type(x.deep_view()),
    decreases x, 0nat,
{
    proof {
        tt::lemma_type_model(*x);
        reveal(debug_type);
        reveal(debug_types);
    }
    match x {
        Type::Int => "Int".to_owned(),
        Type::String => "String".to_owned(),
        Type::Bool => "Bool".to_owned(),
        Type::Unit => "Unit".to_owned(),
        Type::Tuple(v) => text::cat3("Tuple([", types_debug(v).as_str(), "])"),
        Type::Func(a, b) => text::cat5(
            "Func(",
            type_debug(a).as_str(),
            ", ",
            type_debug(b).as_str(),
            ")",
        ),
    }
}

fn types_debug(v: &Vec<Type>) -> (r: String)
    ensures
        r@ == debug_types(v.deep_view(), v.deep_view().len()),
    decreases v, 0nat,
{
    let ghost t = v.deep_view();
    let mut out = String::new();
    proof {
        reveal(debug_types);
    }
    assert(out@ =~= Seq::<char>::empty());
    for i in 0..v.len()
        invariant
            t == v.deep_view(),
            out@ == debug_types(t, i as nat),
    {
        assert(decreases_to!(v => v@[i as int]));
        assert(t[i as int] == v@[i as int].deep_view());
        proof {
            reveal(debug_types);
            reveal(debug_type);
        }
        let one = type_debug(&v[i]);
        if i == 0 {
            out = one;
        } else {
            out.append(", ");
            out.append(one.as_str());
        }
    }
    out
}

fn type_opt_debug(x: &Option<Type>) -> (r: String)
    ensures
        r@ == debug_type_opt(x.deep_view()),
{
    match x {
        Some(t) => text::cat3("Some(", type_debug(t).as_str(), ")"),
        None => "None".to_owned(),
    }
}

fn params_debug(v: &Vec<Param>) -> (r: String)
    ensures
        r@ == debug_params(v.deep_view(), v.deep_view().len()),
{
    let ghost t = v.deep_view();
    let mut out = String::new();
    assert(out@ =~= Seq::<char>::empty());
    for i in 0..v.len()
        invariant
            t == v.deep_view(),
            out@ == debug_params(t, i as nat),
    {
        assert(t[i as int] == v@[i as int].deep_view());
        let one = text::cat5(
            "Param { name: ",
            symbol_debug(&v[i].name).as_str(),
            ", ty: ",
            type_opt_debug(&v[i].ty).as_str(),
            " }",
        );
        if i == 0 {
            out = one;
        } else {
            out.append(", ");
            out.append(one.as_str());
        }
    }
    out
}

fn fields_debug(v: &Vec<Field>) -> (r: String)
    ensures
        r@ == debug_fields(v.deep_view(), v.deep_view().len()),
{
    let ghost t = v.deep_view();
    let mut out = String::new();
    assert(out@ =~= Seq::<char>::empty());
    for i in 0..v.len()
        invariant
            t == v.deep_view(),
            out@ == debug_fields(t, i as nat),
    {
        assert(t[i as int] == v@[i as int].deep_view());
        let one = text::cat5(
            "Field { name: ",
            symbol_debug(&v[i].name).as_str(),
            ", ty: ",
            table_type_debug(v[i].ty).as_str(),
            " }",
        );
        if i == 0 {
            out = one;
        } else {
            out.append(", ");
            out.append(one.as_str());
        }
    }
    out
}

fn symbols_debug(v: &Vec<Symbol>) -> (r: String)
    ensures
        r@ == debug_symbols(v.deep_view(), v.deep_view().len()),
{
    let ghost t = v.deep_view();
    let mut out = String::new();
    assert(out@ =~= Seq::<char>::empty());
    for i in 0..v.len()
        invariant
            t == v.deep_view(),
            out@ == debug_symbols(t, i as nat),
    {
        assert(t[i as int] == v@[i as int]);
        let one = symbol_debug(&v[i]);
        if i == 0 {
            out = one;
        } else {
            out.append(", ");
            out.append(one.as_str());
        }
    }
    out
}

/// The inner structure of a value.
#[verifier::opaque]
pub open spec fn debug_value(x: ValueM<Symbol>) -> Seq<char>
    decreases x, 0nat,
{
    match x {
        ValueM::Int { val } => "Int { val: "@ + text::decimal_int(val as int) + " }"@,
        ValueM::Bool { val } => "Bool { val: "@ + text::bool_numeral(val) + " }"@,
        ValueM::String { val } => "String { val: "@ + quoted(val) + " }"@,
        ValueM::Closure { params, body, env, service_name, return_ty } => "Closure { params: ["@
            + debug_params(params, params.len()) + "], body: "@ + debug_expr(*body) + ", env: ["@
            + debug_env(env, env.len()) + "], service_name: "@ + debug_symbol(service_name)
            + ", return_ty: "@ + debug_type_opt(return_ty) + " }"@,
        ValueM::ActionClosure { stmts, env, service_net_id } => "ActionClosure { stmts: ["@
            + debug_stmts(stmts, stmts.len()) + "], env: ["@ + debug_env(env, env.len())
            + "], service_net_id: "@ + ("ServiceNetId("@ + quoted(service_net_id) + ")"@) + " }"@,
    }
}

/// The inner structure of an expression.
#[verifier::opaque]
pub open spec fn debug_expr(x: ExprM<Symbol>) -> Seq<char>
    decreases x, 0nat,
{
    match x {
        ExprM::Literal { val } => "Literal { val: "@ + debug_value(val) + " }"@,
        ExprM::Variable { name } => "Variable { name: "@ + debug_symbol(name) + " }"@,
        ExprM::Tuple { val } => "Tuple { val: ["@ + debug_exprs(val, val.len()) + "] }"@,
        ExprM::KeyVal { name, value } => "KeyVal { name: "@
            + debug_symbol(name) + ", value: "@ + debug_expr(*value) + " }"@,
        ExprM::Unop { op, expr } => "Unop { op: "@
            + debug_unop(op) + ", expr: "@ + debug_expr(*expr) + " }"@,
        ExprM::Binop { op, expr1, expr2 } => "Binop { op: "@
            + debug_binop(op) + ", expr1: "@ + debug_expr(*expr1) + ", expr2: "@
            + debug_expr(*expr2) + " }"@,
        ExprM::If { cond, expr1, expr2 } => "If { cond: "@
            + debug_expr(*cond) + ", expr1: "@ + debug_expr(*expr1) + ", expr2: "@
            + debug_expr(*expr2) + " }"@,
        ExprM::Func { params, body, return_ty } => "Func { params: ["@
            + debug_params(params, params.len()) + "], body: "@ + debug_expr(*body)
            + ", return_ty: "@ + debug_type_opt(return_ty) + " }"@,
        ExprM::Call { func, args } => "Call { func: "@
            + debug_expr(*func) + ", args: ["@ + debug_exprs(args, args.len()) + "] }"@,
        ExprM::Action(e) => "Action(["@ + debug_stmts(e, e.len()) + "])"@,
        ExprM::MemberAccess { service_name, member_name } => "MemberAccess { service_name: "@
            + debug_symbol(service_name) + ", member_name: "@ + debug_symbol(member_name) + " }"@,
        ExprM::Select { table_name, column_names, where_clause } => "Select { table_name: "@
            + debug_symbol(table_name) + ", column_names: ["@
            + debug_symbols(column_names, column_names.len()) + "], where_clause: "@
            + debug_expr(*where_clause) + " }"@,
        ExprM::Table { schema, records } => "Table { schema: ["@
            + debug_fields(schema, schema.len()) + "], records: ["@
            + debug_exprs(records, records.len()) + "] }"@,
        ExprM::Fold { table_name, column_name, operation, identity } => "Fold { table_name: "@
            + debug_symbol(table_name) + ", column_name: "@ + debug_symbol(column_name)
            + ", operation: "@ + debug_expr(*operation) + ", identity: "@ + debug_expr(*identity)
            + " }"@,
    }
}

/// The inner structure of a statement.
#[verifier::opaque]
pub open spec fn debug_stmt(x: ActionStmtM<Symbol>) -> Seq<char>
    decreases x, 0nat,
{
    match x {
        ActionStmtM::Let { name, ty, expr } => "Let { name: "@
            + debug_symbol(name) + ", ty: "@ + debug_type_opt(ty) + ", expr: "@ + debug_expr(expr)
            + " }"@,
        ActionStmtM::Expr(e) => "Expr("@ + debug_expr(e) + ")"@,
        ActionStmtM::Do(e) => "Do("@ + debug_expr(e) + ")"@,
        ActionStmtM::Assert(e0, e1) => "Assert("@ + debug_expr(e0) + ", "@ + quoted(e1) + ")"@,
        ActionStmtM::Assign { name, expr } => "Assign { name: "@
            + debug_symbol(name) + ", expr: "@ + debug_expr(expr) + " }"@,
        ActionStmtM::Insert { row, table_name } => "Insert { row: "@
            + debug_expr(row) + ", table_name: "@ + debug_symbol(table_name) + " }"@,
    }
}

/// The inner structure of the first `n` expressions.
#[verifier::opaque]
pub open spec fn debug_exprs(v: Seq<ExprM<Symbol>>, n: nat) -> Seq<char>
    decreases v, n,
{
    if n == 0 || n > v.len() {
        seq![]
    } else if n == 1 {
        debug_expr(v[n - 1])
    } else {
        debug_exprs(v, (n - 1) as nat) + ", "@ + debug_expr(v[n - 1])
    }
}

/// The inner structure of the first `n` statements.
#[verifier::opaque]
pub open spec fn debug_stmts(v: Seq<ActionStmtM<Symbol>>, n: nat) -> Seq<char>
    decreases v, n,
{
    if n == 0 || n > v.len() {
        seq![]
    } else if n == 1 {
        debug_stmt(v[n - 1])
    } else {
        debug_stmts(v, (n - 1) as nat) + ", "@ + debug_stmt(v[n - 1])
    }
}

/// The inner structure of the first `n` bindings.
#[verifier::opaque]
pub open spec fn debug_env(v: Seq<(Symbol, ValueM<Symbol>)>, n: nat) -> Seq<char>
    decreases v, n,
{
    if n == 0 || n > v.len() {
        seq![]
    } else if n == 1 {
        ("("@ + debug_symbol(v[n - 1].0) + ", "@ + debug_value(v[n - 1].1) + ")"@)
    } else {
        debug_env(v, (n - 1) as nat)
            + ", "@ + ("("@ + debug_symbol(v[n - 1].0) + ", "@ + debug_value(v[n - 1].1) + ")"@)
    }
}

/// Writes the inner structure of a value.
pub fn value_debug(x: &Value) -> (r: String)
    ensures
        r@ == debug_value(x.deep_view()),
    decreases x, 0nat,
{
    proof {
        crate::runtime::ast::lemma_value_model(*x);
        reveal(debug_value);
        reveal(debug_expr);
        reveal(debug_stmt);
        reveal(debug_exprs);
        reveal(debug_stmts);
        reveal(debug_env);
    }
    let mut out = String::new();
    match x {
        Value::Int { val } => {
            out = "Int { val: ".to_owned();
            out.append(text::i32_text(*val).as_str());
            out.append(" }");
        },
        Value::Bool { val } => {
            out = "Bool { val: ".to_owned();
            out.append(text::bool_text(*val).as_str());
            out.append(" }");
        },
        Value::String { val } => {
            out = "String { val: ".to_owned();
            out.append(quote(val.as_str()).as_str());
            out.append(" }");
        },
        Value::Closure { params, body, env, service_name, return_ty } => {
            out = "Closure { params: [".to_owned();
            out.append(params_debug(params).as_str());
            out.append("], body: ");
            out.append(expr_debug(body).as_str());
            out.append(", env: [");
            out.append(env_debug(env).as_str());
            out.append("], service_name: ");
            out.append(symbol_debug(service_name).as_str());
            out.append(", return_ty: ");
            out.append(type_opt_debug(return_ty).as_str());
            out.append(" }");
        },
        Value::ActionClosure { stmts, env, service_net_id } => {
            out = "ActionClosure { stmts: [".to_owned();
            out.append(stmts_debug(stmts).as_str());
            out.append("], env: [");
            out.append(env_debug(env).as_str());
            out.append("], service_net_id: ");
            out.append(net_id_debug(service_net_id).as_str());
            out.append(" }");
        },
    }
    out
}

/// Writes the inner structure of an expression.
pub fn expr_debug(x: &Expr) -> (r: String)
    ensures
        r@ == debug_expr(x.deep_view()),
    decreases x, 0nat,
{
    proof {
        crate::runtime::ast::lemma_expr_model(*x);
        reveal(debug_value);
        reveal(debug_expr);
        reveal(debug_stmt);
        reveal(debug_exprs);
        reveal(debug_stmts);
        reveal(debug_env);
    }
    let mut out = String::new();
    match x {
        Expr::Literal { val } => {
            out = "Literal { val: ".to_owned();
            out.append(value_debug(val).as_str());
            out.append(" }");
        },
        Expr::Variable { name } => {
            out = "Variable { name: ".to_owned();
            out.append(symbol_debug(name).as_str());
            out.append(" }");
        },
        Expr::Tuple { val } => {
            out = "Tuple { val: [".to_owned();
            out.append(exprs_debug(val).as_str());
            out.append("] }");
        },
        Expr::KeyVal { name, value } => {
            out = "KeyVal { name: ".to_owned();
            out.append(symbol_debug(name).as_str());
            out.append(", value: ");
            out.append(expr_debug(value).as_str());
            out.append(" }");
        },
        Expr::Unop { op, expr } => {
            out = "Unop { op: ".to_owned();
            out.append(unop_debug(*op).as_str());
            out.append(", expr: ");
            out.append(expr_debug(expr).as_str());
            out.append(" }");
        },
        Expr::Binop { op, expr1, expr2 } => {
            out = "Binop { op: ".to_owned();
            out.append(binop_debug(*op).as_str());
            out.append(", expr1: ");
            out.append(expr_debug(expr1).as_str());
            out.append(", expr2: ");
            out.append(expr_debug(expr2).as_str());
            out.append(" }");
        },
        Expr::If { cond, expr1, expr2 } => {
            out = "If { cond: ".to_owned();
            out.append(expr_debug(cond).as_str());
            out.append(", expr1: ");
            out.append(expr_debug(expr1).as_str());
            out.append(", expr2: ");
            out.append(expr_debug(expr2).as_str());
            out.append(" }");
        },
        Expr::Func { params, body, return_ty } => {
            out = "Func { params: [".to_owned();
            out.append(params_debug(params).as_str());
            out.append("], body: ");
            out.append(expr_debug(body).as_str());
            out.append(", return_ty: ");
            out.append(type_opt_debug(return_ty).as_str());
            out.append(" }");
        },
        Expr::Call { func, args } => {
            out = "Call { func: ".to_owned();
            out.append(expr_debug(func).as_str());
            out.append(", args: [");
            out.append(exprs_debug(args).as_str());
            out.append("] }");
        },
        Expr::Action(e) => {
            out = "Action([".to_owned();
            out.append(stmts_debug(e).as_str());
            out.append("])");
        },
        Expr::MemberAccess { service_name, member_name } => {
            out = "MemberAccess { service_name: ".to_owned();
            out.append(symbol_debug(service_name).as_str());
            out.append(", member_name: ");
            out.append(symbol_debug(member_name).as_str());
            out.append(" }");
        },
        Expr::Select { table_name, column_names, where_clause } => {
            out = "Select { table_name: ".to_owned();
            out.append(symbol_debug(table_name).as_str());
            out.append(", column_names: [");
            out.append(symbols_debug(column_names).as_str());
            out.append("], where_clause: ");
            out.append(expr_debug(where_clause).as_str());
            out.append(" }");
        },
        Expr::Table { schema, records } => {
            out = "Table { schema: [".to_owned();
            out.append(fields_debug(schema).as_str());
            out.append("], records: [");
            out.append(exprs_debug(records).as_str());
            out.append("] }");
        },
        Expr::Fold { table_name, column_name, operation, identity } => {
            out = "Fold { table_name: ".to_owned();
            out.append(symbol_debug(table_name).as_str());
            out.append(", column_name: ");
            out.append(symbol_debug(column_name).as_str());
            out.append(", operation: ");
            out.append(expr_debug(operation).as_str());
            out.append(", identity: ");
            out.append(expr_debug(identity).as_str());
            out.append(" }");
        },
    }
    out
}

/// Writes the inner structure of a statement.
pub fn stmt_debug(x: &ActionStmt) -> (r: String)
    ensures
        r@ == debug_stmt(x.deep_view()),
    decreases x, 0nat,
{
    proof {
        crate::runtime::ast::lemma_stmt_model(*x);
        reveal(debug_value);
        reveal(debug_expr);
        reveal(debug_stmt);
        reveal(debug_exprs);
        reveal(debug_stmts);
        reveal(debug_env);
    }
    let mut out = String::new();
    match x {
        ActionStmt::Let { name, ty, expr } => {
            out = "Let { name: ".to_owned();
            out.append(symbol_debug(name).as_str());
            out.append(", ty: ");
            out.append(type_opt_debug(ty).as_str());
            out.append(", expr: ");
            out.append(expr_debug(expr).as_str());
            out.append(" }");
        },
        ActionStmt::Expr(e) => {
            out = "Expr(".to_owned();
            out.append(expr_debug(e).as_str());
            out.append(")");
        },
        ActionStmt::Do(e) => {
            out = "Do(".to_owned();
            out.append(expr_debug(e).as_str());
            out.append(")");
        },
        ActionStmt::Assert(e0, e1) => {
            out = "Assert(".to_owned();
            out.append(expr_debug(e0).as_str());
            out.append(", ");
            out.append(quote(e1.as_str()).as_str());
            out.append(")");
        },
        ActionStmt::Assign { name, expr } => {
            out = "Assign { name: ".to_owned();
            out.append(symbol_debug(name).as_str());
            out.append(", expr: ");
            out.append(expr_debug(expr).as_str());
            out.append(" }");
        },
        ActionStmt::Insert { row, table_name } => {
            out = "Insert { row: ".to_owned();
            out.append(expr_debug(row).as_str());
            out.append(", table_name: ");
            out.append(symbol_debug(table_name).as_str());
            out.append(" }");
        },
    }
    out
}

fn exprs_debug(v: &Vec<Expr>) -> (r: String)
    ensures
        r@ == debug_exprs(v.deep_view(), v.deep_view().len()),
    decreases v, 0nat,
{
    let ghost t = v.deep_view();
    let mut out = String::new();
    proof {
        reveal(debug_value);
        reveal(debug_expr);
        reveal(debug_stmt);
        reveal(debug_exprs);
        reveal(debug_stmts);
        reveal(debug_env);
    }
    assert(out@ =~= Seq::<char>::empty());
    for i in 0..v.len()
        invariant
            t == v.deep_view(),
            out@ == debug_exprs(t, i as nat),
    {
        assert(decreases_to!(v => v@[i as int]));
        assert(t[i as int] == v@[i as int].deep_view());
        proof {
            reveal(debug_value);
            reveal(debug_expr);
            reveal(debug_stmt);
            reveal(debug_exprs);
            reveal(debug_stmts);
            reveal(debug_env);
        }
        let one = expr_debug(&v[i]);
        if i == 0 {
            out = one;
        } else {
            out.append(", ");
            out.append(one.as_str());
        }
    }
    out
}

/// Writes the inner structure of statements.
pub fn stmts_debug(v: &Vec<ActionStmt>) -> (r: String)
    ensures
        r@ == debug_stmts(v.deep_view(), v.deep_view().len()),
    decreases v, 0nat,
{
    let ghost t = v.deep_view();
    let mut out = String::new();
    proof {
        reveal(debug_value);
        reveal(debug_expr);
        reveal(debug_stmt);
        reveal(debug_exprs);
        reveal(debug_stmts);
        reveal(debug_env);
    }
    assert(out@ =~= Seq::<char>::empty());
    for i in 0..v.len()
        invariant
            t == v.deep_view(),
            out@ == debug_stmts(t, i as nat),
    {
        assert(decreases_to!(v => v@[i as int]));
        assert(t[i as int] == v@[i as int].deep_view());
        proof {
            reveal(debug_value);
            reveal(debug_expr);
            reveal(debug_stmt);
            reveal(debug_exprs);
            reveal(debug_stmts);
            reveal(debug_env);
        }
        let one = stmt_debug(&v[i]);
        if i == 0 {
            out = one;
        } else {
            out.append(", ");
            out.append(one.as_str());
        }
    }
    out
}

fn env_debug(v: &Vec<(Symbol, Value)>) -> (r: String)
    ensures
        r@ == debug_env(v.deep_view(), v.deep_view().len()),
    decreases v, 0nat,
{
    let ghost t = v.deep_view();
    let mut out = String::new();
    proof {
        reveal(debug_value);
        reveal(debug_expr);
        reveal(debug_stmt);
        reveal(debug_exprs);
        reveal(debug_stmts);
        reveal(debug_env);
    }
    assert(out@ =~= Seq::<char>::empty());
    for i in 0..v.len()
        invariant
            t == v.deep_view(),
            out@ == debug_env(t, i as nat),
    {
        assert(decreases_to!(v => v@[i as int]));
        assert(t[i as int] == v@[i as int].deep_view());
        proof {
            reveal(debug_value);
            reveal(debug_expr);
            reveal(debug_stmt);
            reveal(debug_exprs);
            reveal(debug_stmts);
            reveal(debug_env);
        }
        let one = pair_debug(&v[i]);
        if i == 0 {
            out = one;
        } else {
            out.append(", ");
            out.append(one.as_str());
        }
    }
    out
}

fn pair_debug(x: &(Symbol, Value)) -> (r: String)
    ensures
        r@ == "("@ + debug_symbol(x.0) + ", "@ + debug_value(x.1.deep_view()) + ")"@,
    decreases x, 0nat,
{
    let mut out = "(".to_owned();
    out.append(symbol_debug(&x.0).as_str());
    out.append(", ");
    out.append(value_debug(&x.1).as_str());
    out.append(")");
    out
}

} // verus!
