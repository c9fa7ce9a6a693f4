//! Syntax trees and values as they are shown to people.

use crate::runtime::ast::debug;
use crate::runtime::ast::debug::{quote, stmts_debug};
use crate::runtime::ast::model::{ActionStmtM, BinOpM, DeclM, ExprM, UnOpM, ValueM};
use crate::runtime::ast::{ActionStmt, BinOp, Decl, Expr, UnOp, Value};
use crate::runtime::interner::Symbol;
use crate::runtime::text;
use crate::runtime::tt;
use crate::runtime::tt::{Param, ParamM, Type, TypeM};
use vstd::prelude::*;
use vstd::string::*;

verus! {

/// A symbol is shown as its number.
pub open spec fn show_symbol(x: Symbol) -> Seq<char> {
    text::decimal(x.id as nat)
}

/// How a unary operator is written.
pub open spec fn show_unop(x: UnOpM) -> Seq<char> {
    match x {
        UnOpM::Neg => "-"@,
        UnOpM::Not => "!"@,
    }
}

/// How a binary operator is written.
pub open spec fn show_binop(x: BinOpM) -> Seq<char> {
    match x {
        BinOpM::Add => "+"@,
        BinOpM::Sub => "-"@,
        BinOpM::Mul => "*"@,
        BinOpM::Div => "/"@,
        BinOpM::Eq => "=="@,
        BinOpM::Lt => "<"@,
        BinOpM::Gt => ">"@,
        BinOpM::And => "&&"@,
        BinOpM::Or => "||"@,
    }
}

/// How a type is written.
#[verifier::opaque]
pub open spec fn show_type(x: TypeM) -> Seq<char>
    decreases x, 0nat,
{
    match x {
        TypeM::Int => "number"@,
        TypeM::String => "string"@,
        TypeM::Bool => "bool"@,
        TypeM::Unit => "unit"@,
        TypeM::Tuple(v) => "("@ + show_types(v, v.len()) + ")"@,
        TypeM::Func(a, b) => show_type(*a) + " -> "@ + show_type(*b),
    }
}

/// How the first `n` types are written.
#[verifier::opaque]
pub open spec fn show_types(v: Seq<TypeM>, n: nat) -> Seq<char>
    decreases v, n,
{
    if n == 0 || n > v.len() {
        seq![]
    } else if n == 1 {
        show_type(v[n - 1])
    } else {
        show_types(v, (n - 1) as nat) + ", "@ + show_type(v[n - 1])
    }
}

/// A parameter is shown as its number, and its type where it has one.
pub open spec fn show_param(x: ParamM<Symbol>) -> Seq<char> {
    match x.ty {
        Some(t) => show_symbol(x.name) + ": "@ + show_type(t),
        None => show_symbol(x.name),
    }
}

/// The first `n` parameters.
pub open spec fn show_params(v: Seq<ParamM<Symbol>>, n: nat) -> Seq<char>
    decreases n,
{
    if n == 0 || n > v.len() {
        seq![]
    } else if n == 1 {
        show_param(v[n - 1])
    } else {
        show_params(v, (n - 1) as nat) + ","@ + show_param(v[n - 1])
    }
}

/// How a value is shown.
#[verifier::opaque]
pub open spec fn show_value(x: ValueM<Symbol>) -> Seq<char>
    decreases x, 0nat,
{
    match x {
        ValueM::Int { val } => text::decimal_int(val as int),
        ValueM::Bool { val } => text::bool_numeral(val),
        ValueM::String { val } => "\""@ + val + "\""@,
        ValueM::Closure { params, body, env, service_name, return_ty } => match return_ty {
            Some(ty) => "fn("@ + show_params(params, params.len()) + ") -> "@ + show_type(ty)
                + "[["@ + show_env(env, env.len()) + "]]{"@ + show_expr(*body) + "}"@,
            None => "fn("@ + show_params(params, params.len()) + ")[["@ + show_env(env, env.len())
                + "]]{"@ + show_expr(*body) + "}"@,
        },
        ValueM::ActionClosure { stmts, env, service_net_id } => "action[["@ + show_env(
            env,
            env.len(),
        ) + "]]["@ + service_net_id + "]{["@ + debug::debug_stmts(stmts, stmts.len()) + "]}"@,
    }
}

/// The first `n` bindings, each in quotes.
#[verifier::opaque]
pub open spec fn show_env(v: Seq<(Symbol, ValueM<Symbol>)>, n: nat) -> Seq<char>
    decreases v, n,
{
    if n == 0 || n > v.len() {
        seq![]
    } else if n == 1 {
        debug::quoted(show_symbol(v[n - 1].0) + ": "@ + show_value(v[n - 1].1))
    } else {
        show_env(v, (n - 1) as nat)
            + ", "@ + debug::quoted(show_symbol(v[n - 1].0) + ": "@ + show_value(v[n - 1].1))
    }
}

/// How an expression is shown.
#[verifier::opaque]
pub open spec fn show_expr(x: ExprM<Symbol>) -> Seq<char>
    decreases x, 0nat,
{
    match x {
        ExprM::Literal { val } => show_value(val),
        ExprM::Tuple { .. } => "vector"@,
        ExprM::KeyVal { name, value } => "keyval: "@ + show_symbol(name) + ", "@ + show_expr(
            *value,
        ),
        ExprM::Variable { name } => show_symbol(name),
        ExprM::Unop { op, expr } => show_unop(op) + show_expr(*expr),
        ExprM::Binop { op, expr1, expr2 } => show_expr(*expr1) + " "@ + show_binop(op) + " "@
            + show_expr(*expr2),
        ExprM::If { cond, expr1, expr2 } => "if "@ + show_expr(*cond) + " then "@ + show_expr(
            *expr1,
        ) + " else "@ + show_expr(*expr2),
        ExprM::Func { params, body, return_ty } => match return_ty {
            Some(ty) => "fn("@ + show_params(params, params.len()) + ") -> "@ + show_type(ty)
                + "["@ + show_expr(*body) + "]"@,
            None => "fn("@ + show_params(params, params.len()) + ")["@ + show_expr(*body) + "]"@,
        },
        ExprM::Call { func, args } => show_expr(*func) + "("@ + show_exprs(args, args.len())
            + ")"@,
        ExprM::Action(stmts) => "Action("@ + debug::quoted(show_stmts(stmts, stmts.len())) + ")"@,
        ExprM::MemberAccess { service_name, member_name } => show_symbol(service_name) + "."@
            + show_symbol(member_name),
        ExprM::Select { table_name, column_names, where_clause } => show_expr(*where_clause),
        ExprM::Table { schema, records } => "["@ + show_rows(records, records.len()) + "]"@,
        ExprM::Fold { .. } => "fold"@,
    }
}

/// The first `n` expressions.
#[verifier::opaque]
pub open spec fn show_exprs(v: Seq<ExprM<Symbol>>, n: nat) -> Seq<char>
    decreases v, n,
{
    if n == 0 || n > v.len() {
        seq![]
    } else if n == 1 {
        show_expr(v[n - 1])
    } else {
        show_exprs(v, (n - 1) as nat) + ", "@ + show_expr(v[n - 1])
    }
}

/// The first `n` rows of a table.
#[verifier::opaque]
pub open spec fn show_rows(v: Seq<ExprM<Symbol>>, n: nat) -> Seq<char>
    decreases v, n,
{
    if n == 0 || n > v.len() {
        seq![]
    } else if n == 1 {
        ("{"@ + show_row(v[n - 1]) + "}"@)
    } else {
        show_rows(v, (n - 1) as nat) + ", "@ + ("{"@ + show_row(v[n - 1]) + "}"@)
    }
}

/// What stands in a row: the entries of a record.
#[verifier::opaque]
pub open spec fn show_row(x: ExprM<Symbol>) -> Seq<char>
    decreases x, 1nat,
{
    match x {
        ExprM::Tuple { val } => show_exprs(val, val.len()),
        _ => show_expr(x),
    }
}

/// How a statement is shown.
#[verifier::opaque]
pub open spec fn show_stmt(x: ActionStmtM<Symbol>) -> Seq<char>
    decreases x, 0nat,
{
    match x {
        ActionStmtM::Let { name, ty, expr } => match ty {
            Some(t) => "let "@ + show_symbol(name) + ": "@ + show_type(t) + " = "@ + show_expr(
                expr,
            ),
            None => "let "@ + show_symbol(name) + " = "@ + show_expr(expr),
        },
        ActionStmtM::Expr(expr) => show_expr(expr),
        ActionStmtM::Do(expr) => "do "@ + show_expr(expr),
        ActionStmtM::Assert(expr, written) => "assert "@ + show_expr(expr),
        ActionStmtM::Assign { name, expr } => show_symbol(name) + " = "@ + show_expr(expr),
        ActionStmtM::Insert { row, table_name } => "insert into "@ + show_symbol(table_name)
            + " "@ + show_expr(row),
    }
}

/// The first `n` statements.
#[verifier::opaque]
pub open spec fn show_stmts(v: Seq<ActionStmtM<Symbol>>, n: nat) -> Seq<char>
    decreases v, n,
{
    if n == 0 || n > v.len() {
        seq![]
    } else if n == 1 {
        show_stmt(v[n - 1])
    } else {
        show_stmts(v, (n - 1) as nat) + ", "@ + show_stmt(v[n - 1])
    }
}

/// How a declaration is shown.
pub open spec fn show_decl(x: DeclM<Symbol>) -> Seq<char> {
    match x {
        DeclM::VarDecl { name, ty, val } => match ty {
            Some(t) => "var "@ + show_symbol(name) + ": "@ + show_type(t) + " = "@ + show_expr(
                val,
            ),
            None => "var "@ + show_symbol(name) + " = "@ + show_expr(val),
        },
        DeclM::DefDecl { name, ty, val, is_pub } => {
            let prefix = if is_pub {
                "pub "@
            } else {
                ""@
            };
            match ty {
                Some(t) => prefix + "def "@ + show_symbol(name) + ": "@ + show_type(t) + " = "@
                    + show_expr(val),
                None => prefix + "def "@ + show_symbol(name) + " = "@ + show_expr(val),
            }
        },
        DeclM::TableDecl { name, fields } => "table "@ + show_symbol(name) + " created"@,
    }
}

/// Writes the number of a symbol.
pub fn symbol_text(x: Symbol) -> (r: String)
    ensures
        r@ == show_symbol(x),
{
    text::usize_text(x.id)
}

/// Writes a type.
pub fn type_text(x: &Type) -> (r: String)
    ensures
        r@ == show_type(x.deep_view()),
    decreases x, 0nat,
{
    proof {
        tt::lemma_type_model(*x);
        reveal(show_type);
        reveal(show_types);
    }
    match x {
        Type::Int => "number".to_owned(),
        Type::String => "string".to_owned(),
        Type::Bool => "bool".to_owned(),
        Type::Unit => "unit".to_owned(),
        Type::Tuple(v) => text::cat3("(", types_text(v).as_str(), ")"),
        Type::Func(a, b) => text::cat3(type_text(a).as_str(), " -> ", type_text(b).as_str()),
    }
}

fn types_text(v: &Vec<Type>) -> (r: String)
    ensures
        r@ == show_types(v.deep_view(), v.deep_view().len()),
    decreases v, 0nat,
{
    let ghost t = v.deep_view();
    let mut out = String::new();
    proof {
        reveal(show_types);
    }
    assert(out@ =~= Seq::<char>::empty());
    for i in 0..v.len()
        invariant
            t == v.deep_view(),
            out@ == show_types(t, i as nat),
    {
        assert(decreases_to!(v => v@[i as int]));
        assert(t[i as int] == v@[i as int].deep_view());
        proof {
            reveal(show_types);
            reveal(show_type);
        }
        let one = type_text(&v[i]);
        if i == 0 {
            out = one;
        } else {
            out.append(", ");
            out.append(one.as_str());
        }
    }
    out
}

fn param_text(x: &Param) -> (r: String)
    ensures
        r@ == show_param(x.deep_view()),
{
    match &x.ty {
        Some(t) => text::cat3(symbol_text(x.name).as_str(), ": ", type_text(t).as_str()),
        None => symbol_text(x.name),
    }
}

fn params_text(v: &Vec<Param>) -> (r: String)
    ensures
        r@ == show_params(v.deep_view(), v.deep_view().len()),
{
    let ghost t = v.deep_view();
    let mut out = String::new();
    assert(out@ =~= Seq::<char>::empty());
    for i in 0..v.len()
        invariant
            t == v.deep_view(),
            out@ == show_params(t, i as nat),
    {
        assert(t[i as int] == v@[i as int].deep_view());
        let one = param_text(&v[i]);
        if i == 0 {
            out = one;
        } else {
            out.append(",");
            out.append(one.as_str());
        }
    }
    out
}

fn exprs_text(v: &Vec<Expr>) -> (r: String)
    ensures
        r@ == show_exprs(v.deep_view(), v.deep_view().len()),
    decreases v, 0nat,
{
    let ghost t = v.deep_view();
    let mut out = String::new();
    proof {
        reveal(show_value);
        reveal(show_expr);
        reveal(show_stmt);
        reveal(show_exprs);
        reveal(show_stmts);
        reveal(show_env);
        reveal(show_rows);
        reveal(show_row);
    }
    assert(out@ =~= Seq::<char>::empty());
    for i in 0..v.len()
        invariant
            t == v.deep_view(),
            out@ == show_exprs(t, i as nat),
    {
        assert(decreases_to!(v => v@[i as int]));
        assert(t[i as int] == v@[i as int].deep_view());
        proof {
            reveal(show_value);
            reveal(show_expr);
            reveal(show_stmt);
            reveal(show_exprs);
            reveal(show_stmts);
            reveal(show_env);
            reveal(show_rows);
            reveal(show_row);
        }
        let one = v[i].to_text();
        if i == 0 {
            out = one;
        } else {
            out.append(", ");
            out.append(one.as_str());
        }
    }
    out
}

fn stmts_text(v: &Vec<ActionStmt>) -> (r: String)
    ensures
        r@ == show_stmts(v.deep_view(), v.deep_view().len()),
    decreases v, 0nat,
{
    let ghost t = v.deep_view();
    let mut out = String::new();
    proof {
        reveal(show_value);
        reveal(show_expr);
        reveal(show_stmt);
        reveal(show_exprs);
        reveal(show_stmts);
        reveal(show_env);
        reveal(show_rows);
        reveal(show_row);
    }
    assert(out@ =~= Seq::<char>::empty());
    for i in 0..v.len()
        invariant
            t == v.deep_view(),
            out@ == show_stmts(t, i as nat),
    {
        assert(decreases_to!(v => v@[i as int]));
        assert(t[i as int] == v@[i as int].deep_view());
        proof {
            reveal(show_value);
            reveal(show_expr);
            reveal(show_stmt);
            reveal(show_exprs);
            reveal(show_stmts);
            reveal(show_env);
            reveal(show_rows);
            reveal(show_row);
        }
        let one = v[i].to_text();
        if i == 0 {
            out = one;
        } else {
            out.append(", ");
            out.append(one.as_str());
        }
    }
    out
}

fn env_text(v: &Vec<(Symbol, Value)>) -> (r: String)
    ensures
        r@ == show_env(v.deep_view(), v.deep_view().len()),
    decreases v, 0nat,
{
    let ghost t = v.deep_view();
    let mut out = String::new();
    proof {
        reveal(show_value);
        reveal(show_expr);
        reveal(show_stmt);
        reveal(show_exprs);
        reveal(show_stmts);
        reveal(show_env);
        reveal(show_rows);
        reveal(show_row);
    }
    assert(out@ =~= Seq::<char>::empty());
    for i in 0..v.len()
        invariant
            t == v.deep_view(),
            out@ == show_env(t, i as nat),
    {
        assert(decreases_to!(v => v@[i as int]));
        assert(t[i as int] == v@[i as int].deep_view());
        proof {
            reveal(show_value);
            reveal(show_expr);
            reveal(show_stmt);
            reveal(show_exprs);
            reveal(show_stmts);
            reveal(show_env);
            reveal(show_rows);
            reveal(show_row);
        }
        let one = quote(binding_text(&v[i]).as_str());
        if i == 0 {
            out = one;
        } else {
            out.append(", ");
            out.append(one.as_str());
        }
    }
    out
}

fn rows_text(v: &Vec<Expr>) -> (r: String)
    ensures
        r@ == show_rows(v.deep_view(), v.deep_view().len()),
    decreases v, 0nat,
{
    let ghost t = v.deep_view();
    let mut out = String::new();
    proof {
        reveal(show_value);
        reveal(show_expr);
        reveal(show_stmt);
        reveal(show_exprs);
        reveal(show_stmts);
        reveal(show_env);
        reveal(show_rows);
        reveal(show_row);
    }
    assert(out@ =~= Seq::<char>::empty());
    for i in 0..v.len()
        invariant
            t == v.deep_view(),
            out@ == show_rows(t, i as nat),
    {
        assert(decreases_to!(v => v@[i as int]));
        assert(t[i as int] == v@[i as int].deep_view());
        proof {
            reveal(show_value);
            reveal(show_expr);
            reveal(show_stmt);
            reveal(show_exprs);
            reveal(show_stmts);
            reveal(show_env);
            reveal(show_rows);
            reveal(show_row);
        }
        let one = text::cat3("{", row_text(&v[i]).as_str(), "}");
        if i == 0 {
            out = one;
        } else {
            out.append(", ");
            out.append(one.as_str());
        }
    }
    out
}

fn binding_text(x: &(Symbol, Value)) -> (r: String)
    ensures
        r@ == show_symbol(x.0) + ": "@ + show_value(x.1.deep_view()),
    decreases x, 0nat,
{
    text::cat3(symbol_text(x.0).as_str(), ": ", x.1.to_text().as_str())
}

fn row_text(x: &Expr) -> (r: String)
    ensures
        r@ == show_row(x.deep_view()),
    decreases x, 1nat,
{
    proof {
        crate::runtime::ast::lemma_expr_model(*x);
        reveal(show_value);
        reveal(show_expr);
        reveal(show_stmt);
        reveal(show_exprs);
        reveal(show_stmts);
        reveal(show_env);
        reveal(show_rows);
        reveal(show_row);
    }
    match x {
        Expr::Tuple { val } => exprs_text(val),
        _ => x.to_text(),
    }
}

impl UnOp {
    /// How the operator is written.
    pub fn to_text(&self) -> (r: String)
        ensures
            r@ == show_unop(self.deep_view()),
    {
        match self {
            UnOp::Neg => "-".to_owned(),
            UnOp::Not => "!".to_owned(),
        }
    }
}

impl BinOp {
    /// How the operator is written.
    pub fn to_text(&self) -> (r: String)
        ensures
            r@ == show_binop(self.deep_view()),
    {
        match self {
            BinOp::Add => "+".to_owned(),
            BinOp::Sub => "-".to_owned(),
            BinOp::Mul => "*".to_owned(),
            BinOp::Div => "/".to_owned(),
            BinOp::Eq => "==".to_owned(),
            BinOp::Lt => "<".to_owned(),
            BinOp::Gt => ">".to_owned(),
            BinOp::And => "&&".to_owned(),
            BinOp::Or => "||".to_owned(),
        }
    }
}

impl Value {
    /// How the value is shown.
    pub fn to_text(&self) -> (r: String)
        ensures
            r@ == show_value(self.deep_view()),
        decreases self, 0nat,
    {
        proof {
            crate::runtime::ast::lemma_value_model(*self);
            reveal(show_value);
            reveal(show_expr);
            reveal(show_stmt);
            reveal(show_exprs);
            reveal(show_stmts);
            reveal(show_env);
            reveal(show_rows);
            reveal(show_row);
        }
        let mut out = String::new();
        match self {
            Value::Int { val } => {
                out = text::i32_text(*val);
            },
            Value::Bool { val } => {
                out = text::bool_text(*val);
            },
            Value::String { val } => {
                out = "\"".to_owned();
                out.append(val.as_str());
                out.append("\"");
            },
            Value::Closure { params, body, env, service_name, return_ty } => match return_ty {
                Some(ty) => {
                    out = "fn(".to_owned();
                    out.append(params_text(params).as_str());
                    out.append(") -> ");
                    out.append(type_text(ty).as_str());
                    out.append("[[");
                    out.append(env_text(env).as_str());
                    out.append("]]{");
                    out.append(body.to_text().as_str());
                    out.append("}");
                },
                None => {
                    out = "fn(".to_owned();
                    out.append(params_text(params).as_str());
                    out.append(")[[");
                    out.append(env_text(env).as_str());
                    out.append("]]{");
                    out.append(body.to_text().as_str());
                    out.append("}");
                },
            },
            Value::ActionClosure { stmts, env, service_net_id } => {
                out = "action[[".to_owned();
                out.append(env_text(env).as_str());
                out.append("]][");
                out.append(service_net_id.0.as_str());
                out.append("]{[");
                out.append(stmts_debug(stmts).as_str());
                out.append("]}");
            },
        }
        out
    }
}

impl Expr {
    /// How the expression is shown.
    pub fn to_text(&self) -> (r: String)
        ensures
            r@ == show_expr(self.deep_view()),
        decreases self, 0nat,
    {
        proof {
            crate::runtime::ast::lemma_expr_model(*self);
            reveal(show_value);
            reveal(show_expr);
            reveal(show_stmt);
            reveal(show_exprs);
            reveal(show_stmts);
            reveal(show_env);
            reveal(show_rows);
            reveal(show_row);
        }
        let mut out = String::new();
        match self {
            Expr::Literal { val } => {
                out = val.to_text();
            },
            Expr::Tuple { .. } => {
                out = "vector".to_owned();
            },
            Expr::KeyVal { name, value } => {
                out = "keyval: ".to_owned();
                out.append(symbol_text(*name).as_str());
                out.append(", ");
                out.append(value.to_text().as_str());
            },
            Expr::Variable { name } => {
                out = symbol_text(*name);
            },
            Expr::Unop { op, expr } => {
                out = op.to_text();
                out.append(expr.to_text().as_str());
            },
            Expr::Binop { op, expr1, expr2 } => {
                out = expr1.to_text();
                out.append(" ");
                out.append(op.to_text().as_str());
                out.append(" ");
                out.append(expr2.to_text().as_str());
            },
            Expr::If { cond, expr1, expr2 } => {
                out = "if ".to_owned();
                out.append(cond.to_text().as_str());
                out.append(" then ");
                out.append(expr1.to_text().as_str());
                out.append(" else ");
                out.append(expr2.to_text().as_str());
            },
            Expr::Func { params, body, return_ty } => match return_ty {
                Some(ty) => {
                    out = "fn(".to_owned();
                    out.append(params_text(params).as_str());
                    out.append(") -> ");
                    out.append(type_text(ty).as_str());
                    out.append("[");
                    out.append(body.to_text().as_str());
                    out.append("]");
                },
                None => {
                    out = "fn(".to_owned();
                    out.append(params_text(params).as_str());
                    out.append(")[");
                    out.append(body.to_text().as_str());
                    out.append("]");
                },
            },
            Expr::Call { func, args } => {
                out = func.to_text();
                out.append("(");
                out.append(exprs_text(args).as_str());
                out.append(")");
            },
            Expr::Action(stmts) => {
                out = "Action(".to_owned();
                out.append(quote(stmts_text(stmts).as_str()).as_str());
                out.append(")");
            },
            Expr::MemberAccess { service_name, member_name } => {
                out = symbol_text(*service_name);
                out.append(".");
                out.append(symbol_text(*member_name).as_str());
            },
            Expr::Select { table_name, column_names, where_clause } => {
                out = where_clause.to_text();
            },
            Expr::Table { schema, records } => {
                out = "[".to_owned();
                out.append(rows_text(records).as_str());
                out.append("]");
            },
            Expr::Fold { .. } => {
                out = "fold".to_owned();
            },
        }
        out
    }
}

impl ActionStmt {
    /// How the statement is shown.
    pub fn to_text(&self) -> (r: String)
        ensures
            r@ == show_stmt(self.deep_view()),
        decreases self, 0nat,
    {
        proof {
            crate::runtime::ast::lemma_stmt_model(*self);
            reveal(show_value);
            reveal(show_expr);
            reveal(show_stmt);
            reveal(show_exprs);
            reveal(show_stmts);
            reveal(show_env);
            reveal(show_rows);
            reveal(show_row);
        }
        let mut out = String::new();
        match self {
            ActionStmt::Let { name, ty, expr } => match ty {
                Some(t) => {
                    out = "let ".to_owned();
                    out.append(symbol_text(*name).as_str());
                    out.append(": ");
                    out.append(type_text(t).as_str());
                    out.append(" = ");
                    out.append(expr.to_text().as_str());
                },
                None => {
                    out = "let ".to_owned();
                    out.append(symbol_text(*name).as_str());
                    out.append(" = ");
                    out.append(expr.to_text().as_str());
                },
            },
            ActionStmt::Expr(expr) => {
                out = expr.to_text();
            },
            ActionStmt::Do(expr) => {
                out = "do ".to_owned();
                out.append(expr.to_text().as_str());
            },
            ActionStmt::Assert(expr, written) => {
                out = "assert ".to_owned();
                out.append(expr.to_text().as_str());
            },
            ActionStmt::Assign { name, expr } => {
                out = symbol_text(*name);
                out.append(" = ");
                out.append(expr.to_text().as_str());
            },
            ActionStmt::Insert { row, table_name } => {
                out = "insert into ".to_owned();
                out.append(symbol_text(*table_name).as_str());
                out.append(" ");
                out.append(row.to_text().as_str());
            },
        }
        out
    }
}

impl Decl {
    /// How the declaration is shown.
    pub fn to_text(&self) -> (r: String)
        ensures
            r@ == show_decl(self.deep_view()),
    {
        let mut out = String::new();
        match self {
            Decl::VarDecl { name, ty, val } => match ty {
                Some(t) => {
                    out = "var ".to_owned();
                    out.append(symbol_text(*name).as_str());
                    out.append(": ");
                    out.append(type_text(t).as_str());
                    out.append(" = ");
                    out.append(val.to_text().as_str());
                },
                None => {
                    out = "var ".to_owned();
                    out.append(symbol_text(*name).as_str());
                    out.append(" = ");
                    out.append(val.to_text().as_str());
                },
            },
            Decl::DefDecl { name, ty, val, is_pub } => {
                out = if *is_pub {
                    "pub ".to_owned()
                } else {
                    "".to_owned()
                };
                out.append("def ");
                out.append(symbol_text(*name).as_str());
                match ty {
                    Some(t) => {
                        out.append(": ");
                        out.append(type_text(t).as_str());
                        out.append(" = ");
                        out.append(val.to_text().as_str());
                    },
                    None => {
                        out.append(" = ");
                        out.append(val.to_text().as_str());
                    },
                }
            },
            Decl::TableDecl { name, fields } => {
                out = "table ".to_owned();
                out.append(symbol_text(*name).as_str());
                out.append(" created");
            },
        }
        out
    }
}

} // verus!
