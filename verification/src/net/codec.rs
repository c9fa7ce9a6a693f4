//! The wire codec: terms with symbols to terms with texts, and back.

use crate::error::Error;
use crate::net::ast::{
    NetActionStmt, NetBinOp, NetExpr, NetField, NetParam, NetTableType, NetType, NetUnOp, NetValue,
};
use crate::net::wire;
use crate::runtime::ast::model::FieldM;
use crate::runtime::ast::renaming;
use crate::runtime::ast::{ActionStmt, BinOp, Expr, Field, TableType, UnOp, Value};
use crate::runtime::interner;
use crate::runtime::interner::{Interner, Symbol};
use crate::runtime::limits::{MAX_IDENTIFIER_LENGTH, MAX_STRING_LITERAL_LENGTH};
use crate::runtime::table::Plain;
use crate::runtime::text;
use crate::runtime::tt::{Param, Type};
use vstd::prelude::*;

verus! {

/// Tests the length of an identifier.
pub fn validate_identifier(s: &str) -> (r: Result<(), Error>)
    ensures
        match r {
            Ok(_) => wire::check(s@).err is None,
            Err(e) => wire::check(s@).err is Some && wire::reports(e, wire::check(s@).err->Some_0),
        },
{
    if text::text_bytes(s) > MAX_IDENTIFIER_LENGTH {
        return Err(
            Error::LimitExceeded(
                text::cat3(
                    "identifier exceeds maximum length of ",
                    text::usize_text(MAX_IDENTIFIER_LENGTH).as_str(),
                    " characters",
                ),
            ),
        );
    }
    Ok(())
}

/// Tests the length of a string literal.
pub fn validate_string_literal(s: &str) -> (r: Result<(), Error>)
    ensures
        match r {
            Ok(_) => wire::check_literal(s@).err is None,
            Err(e) => wire::check_literal(s@).err is Some && wire::reports(
                e,
                wire::check_literal(s@).err->Some_0,
            ),
        },
{
    if text::text_bytes(s) > MAX_STRING_LITERAL_LENGTH {
        return Err(
            Error::LimitExceeded(
                text::cat3(
                    "string literal exceeds maximum length of ",
                    text::usize_text(MAX_STRING_LITERAL_LENGTH).as_str(),
                    " characters",
                ),
            ),
        );
    }
    Ok(())
}

/// The wire form of an `UnOp`.
pub fn encode_unop(x: UnOp) -> (r: NetUnOp)
    ensures
        r.deep_view() == x.deep_view(),
{
    match x {
        UnOp::Neg => NetUnOp::Neg,
        UnOp::Not => NetUnOp::Not,
    }
}

/// The `UnOp` that a wire form stands for.
pub fn decode_unop(x: NetUnOp) -> (r: UnOp)
    ensures
        r.deep_view() == x.deep_view(),
{
    match x {
        NetUnOp::Neg => UnOp::Neg,
        NetUnOp::Not => UnOp::Not,
    }
}

/// The wire form of a `BinOp`.
pub fn encode_binop(x: BinOp) -> (r: NetBinOp)
    ensures
        r.deep_view() == x.deep_view(),
{
    match x {
        BinOp::Add => NetBinOp::Add,
        BinOp::Sub => NetBinOp::Sub,
        BinOp::Mul => NetBinOp::Mul,
        BinOp::Div => NetBinOp::Div,
        BinOp::Eq => NetBinOp::Eq,
        BinOp::Lt => NetBinOp::Lt,
        BinOp::Gt => NetBinOp::Gt,
        BinOp::And => NetBinOp::And,
        BinOp::Or => NetBinOp::Or,
    }
}

/// The `BinOp` that a wire form stands for.
pub fn decode_binop(x: NetBinOp) -> (r: BinOp)
    ensures
        r.deep_view() == x.deep_view(),
{
    match x {
        NetBinOp::Add => BinOp::Add,
        NetBinOp::Sub => BinOp::Sub,
        NetBinOp::Mul => BinOp::Mul,
        NetBinOp::Div => BinOp::Div,
        NetBinOp::Eq => BinOp::Eq,
        NetBinOp::Lt => BinOp::Lt,
        NetBinOp::Gt => BinOp::Gt,
        NetBinOp::And => BinOp::And,
        NetBinOp::Or => BinOp::Or,
    }
}

/// The wire form of a `TableType`.
pub fn encode_datatype(x: &TableType) -> (r: NetTableType)
    ensures
        r.deep_view() == x.deep_view(),
{
    match x {
        TableType::String => NetTableType::String,
        TableType::Int => NetTableType::Int,
        TableType::Bool => NetTableType::Bool,
    }
}

/// The `TableType` that a wire form stands for.
pub fn decode_datatype(x: NetTableType) -> (r: TableType)
    ensures
        r.deep_view() == x.deep_view(),
{
    match x {
        NetTableType::String => TableType::String,
        NetTableType::Int => TableType::Int,
        NetTableType::Bool => TableType::Bool,
    }
}

/// The wire form of a type.
pub fn encode_type(t: &Type) -> (r: NetType)
    ensures
        r.deep_view() == t.deep_view(),
    decreases t,
{
    let r = match t {
        Type::Int => NetType::Int,
        Type::String => NetType::String,
        Type::Bool => NetType::Bool,
        Type::Unit => NetType::Unit,
        Type::Tuple(v) => NetType::Tuple(encode_types(v)),
        Type::Func(a, b) => NetType::Func(Box::new(encode_type(a)), Box::new(encode_type(b))),
    };
    proof {
        crate::runtime::tt::lemma_type_model(*t);
        crate::net::ast::lemma_net_type_model(r);
    }
    r
}

fn encode_types(v: &Vec<Type>) -> (r: Vec<NetType>)
    ensures
        r.deep_view() == v.deep_view(),
    decreases v,
{
    let mut out: Vec<NetType> = Vec::new();
    for i in 0..v.len()
        invariant
            out@.len() == i,
            forall|j: int| 0 <= j < i ==> (#[trigger] out@[j]).deep_view() == v@[j].deep_view(),
    {
        assert(decreases_to!(v => v@[i as int]));
        out.push(encode_type(&v[i]));
    }
    assert(out.deep_view() =~= v.deep_view());
    out
}

fn encode_type_opt(t: &Option<Type>) -> (r: Option<NetType>)
    ensures
        r.deep_view() == t.deep_view(),
{
    match t {
        Some(x) => Some(encode_type(x)),
        None => None,
    }
}

/// The type that a wire form stands for.
pub fn decode_type(t: &NetType) -> (r: Type)
    ensures
        r.deep_view() == t.deep_view(),
    decreases t,
{
    let r = match t {
        NetType::Int => Type::Int,
        NetType::String => Type::String,
        NetType::Bool => Type::Bool,
        NetType::Unit => Type::Unit,
        NetType::Tuple(v) => Type::Tuple(decode_types(v)),
        NetType::Func(a, b) => Type::Func(Box::new(decode_type(a)), Box::new(decode_type(b))),
    };
    proof {
        crate::net::ast::lemma_net_type_model(*t);
        crate::runtime::tt::lemma_type_model(r);
    }
    r
}

fn decode_types(v: &Vec<NetType>) -> (r: Vec<Type>)
    ensures
        r.deep_view() == v.deep_view(),
    decreases v,
{
    let mut out: Vec<Type> = Vec::new();
    for i in 0..v.len()
        invariant
            out@.len() == i,
            forall|j: int| 0 <= j < i ==> (#[trigger] out@[j]).deep_view() == v@[j].deep_view(),
    {
        assert(decreases_to!(v => v@[i as int]));
        out.push(decode_type(&v[i]));
    }
    assert(out.deep_view() =~= v.deep_view());
    out
}

fn decode_type_opt(t: &Option<NetType>) -> (r: Option<Type>)
    ensures
        r.deep_view() == t.deep_view(),
{
    match t {
        Some(x) => Some(decode_type(x)),
        None => None,
    }
}

/// The text of a symbol, where it is within the limit.
fn encode_name(sym: Symbol, interner: &Interner) -> (r: Result<String, Error>)
    ensures
        wire::outcome(
            r,
            wire::check(interner::name_of(interner@, sym)),
            interner::name_of(interner@, sym),
        ),
{
    let s = interner.get(sym);
    match validate_identifier(s.as_str()) {
        Ok(_) => Ok(s),
        Err(e) => Err(e),
    }
}

/// The texts of symbols.
fn encode_names(v: &Vec<Symbol>, interner: &Interner) -> (r: Result<Vec<String>, Error>)
    ensures
        wire::outcome(
            r,
            wire::check_all(renaming::map_names(wire::naming(interner@), v.deep_view())),
            renaming::map_names(wire::naming(interner@), v.deep_view()),
        ),
{
    let ghost t = renaming::map_names(wire::naming(interner@), v.deep_view());
    let ghost logs = Seq::new(t.len(), |i: int| wire::check(t[i]));
    let mut out: Vec<String> = Vec::new();
    for i in 0..v.len()
        invariant
            t == renaming::map_names(wire::naming(interner@), v.deep_view()),
            logs == Seq::new(t.len(), |i: int| wire::check(t[i])),
            wire::concat(logs, i as nat).err is None,
            out@.len() == i,
            forall|j: int| 0 <= j < i ==> (#[trigger] out@[j])@ == t[j],
    {
        match encode_name(v[i], interner) {
            Ok(s) => {
                out.push(s);
            },
            Err(e) => {
                proof {
                    wire::lemma_concat_stops(logs, (i + 1) as nat, logs.len());
                }
                return Err(e);
            },
        }
    }
    assert(out.deep_view() =~= t);
    Ok(out)
}

/// The wire forms of parameters.
fn encode_params(v: &Vec<Param>, interner: &Interner) -> (r: Result<Vec<NetParam>, Error>)
    ensures
        wire::outcome(
            r,
            wire::params_log(renaming::map_params(wire::naming(interner@), v.deep_view())),
            renaming::map_params(wire::naming(interner@), v.deep_view()),
        ),
{
    let ghost t = renaming::map_params(wire::naming(interner@), v.deep_view());
    let ghost ns = wire::param_names(t);
    let ghost logs = Seq::new(ns.len(), |i: int| wire::check(ns[i]));
    let mut out: Vec<NetParam> = Vec::new();
    for i in 0..v.len()
        invariant
            t == renaming::map_params(wire::naming(interner@), v.deep_view()),
            ns == wire::param_names(t),
            logs == Seq::new(ns.len(), |i: int| wire::check(ns[i])),
            wire::concat(logs, i as nat).err is None,
            out@.len() == i,
            forall|j: int| 0 <= j < i ==> (#[trigger] out@[j]).deep_view() == t[j],
    {
        match encode_name(v[i].name, interner) {
            Ok(s) => {
                out.push(NetParam { name: s, ty: encode_type_opt(&v[i].ty) });
            },
            Err(e) => {
                proof {
                    wire::lemma_concat_stops(logs, (i + 1) as nat, logs.len());
                }
                return Err(e);
            },
        }
    }
    assert(out.deep_view() =~= t);
    Ok(out)
}

/// The wire form of a column.
pub fn encode_field(field: &Field, interner: &Interner) -> (r: Result<NetField, Error>)
    ensures
        wire::outcome(
            r,
            wire::field_log(
                FieldM {
                    name: interner::name_of(interner@, field.name),
                    ty: field.ty.deep_view(),
                },
            ),
            FieldM { name: interner::name_of(interner@, field.name), ty: field.ty.deep_view() },
        ),
{
    match encode_name(field.name, interner) {
        Ok(name) => Ok(NetField { name, ty: encode_datatype(&field.ty) }),
        Err(e) => Err(e),
    }
}

/// The wire forms of columns.
fn encode_fields(v: &Vec<Field>, interner: &Interner) -> (r: Result<Vec<NetField>, Error>)
    ensures
        wire::outcome(
            r,
            wire::fields_log(renaming::map_fields(wire::naming(interner@), v.deep_view())),
            renaming::map_fields(wire::naming(interner@), v.deep_view()),
        ),
{
    let ghost t = renaming::map_fields(wire::naming(interner@), v.deep_view());
    let ghost logs = Seq::new(t.len(), |i: int| wire::field_log(t[i]));
    let mut out: Vec<NetField> = Vec::new();
    for i in 0..v.len()
        invariant
            t == renaming::map_fields(wire::naming(interner@), v.deep_view()),
            logs == Seq::new(t.len(), |i: int| wire::field_log(t[i])),
            wire::concat(logs, i as nat).err is None,
            out@.len() == i,
            forall|j: int| 0 <= j < i ==> (#[trigger] out@[j]).deep_view() == t[j],
    {
        match encode_field(&v[i], interner) {
            Ok(s) => {
                out.push(s);
            },
            Err(e) => {
                proof {
                    wire::lemma_concat_stops(logs, (i + 1) as nat, logs.len());
                }
                return Err(e);
            },
        }
    }
    assert(out.deep_view() =~= t);
    Ok(out)
}

/// The wire form of a value; fails at the first limit that it breaks.
pub fn encode_value(x: &Value, interner: &Interner) -> (r: Result<NetValue, Error>)
    ensures
        wire::outcome(
            r,
            wire::value_log(renaming::map_value(wire::naming(interner@), x.deep_view())),
            renaming::map_value(wire::naming(interner@), x.deep_view()),
        ),
    decreases x,
{
    let ghost f = wire::naming(interner@);
    proof {
        crate::runtime::ast::lemma_value_model(*x);
        renaming::lemma_value_map(f, x.deep_view());
        wire::lemma_value_log(renaming::map_value(f, x.deep_view()));
    }
    match x {
        Value::Int { val } => {
            let out = NetValue::Int { val: *val };
            proof {
                crate::net::ast::lemma_net_value_model(out);
            }
            Ok(out)
        },
        Value::Bool { val } => {
            let out = NetValue::Bool { val: *val };
            proof {
                crate::net::ast::lemma_net_value_model(out);
            }
            Ok(out)
        },
        Value::String { val } => {
            match validate_string_literal(val.as_str()) {
                Ok(_) => {},
                Err(e) => {
                    return Err(e);
                },
            }
            let out = NetValue::String { val: val.clone() };
            proof {
                crate::net::ast::lemma_net_value_model(out);
            }
            Ok(out)
        },
        Value::Closure { params, body, env, service_name, return_ty } => {
            let params = match encode_params(params, interner) {
                Ok(y) => y,
                Err(e) => {
                    return Err(e);
                },
            };
            let body = match encode_expr(body, interner) {
                Ok(y) => y,
                Err(e) => {
                    return Err(e);
                },
            };
            let env = match encode_env(env, interner) {
                Ok(y) => y,
                Err(e) => {
                    return Err(e);
                },
            };
            let service_name = match encode_name(*service_name, interner) {
                Ok(y) => y,
                Err(e) => {
                    return Err(e);
                },
            };
            let out = NetValue::Closure {
                params,
                body: Box::new(body),
                env,
                service_name,
                return_ty: encode_type_opt(return_ty),
            };
            proof {
                crate::net::ast::lemma_net_value_model(out);
            }
            Ok(out)
        },
        Value::ActionClosure { stmts, env, service_net_id } => {
            let stmts = match encode_stmts(stmts, interner) {
                Ok(y) => y,
                Err(e) => {
                    return Err(e);
                },
            };
            let env = match encode_env(env, interner) {
                Ok(y) => y,
                Err(e) => {
                    return Err(e);
                },
            };
            let out = NetValue::ActionClosure { stmts, env, service_net_id: service_net_id.dup() };
            proof {
                crate::net::ast::lemma_net_value_model(out);
            }
            Ok(out)
        },
    }
}

/// The wire form of an expression; fails at the first limit that it breaks.
pub fn encode_expr(x: &Expr, interner: &Interner) -> (r: Result<NetExpr, Error>)
    ensures
        wire::outcome(
            r,
            wire::expr_log(renaming::map_expr(wire::naming(interner@), x.deep_view())),
            renaming::map_expr(wire::naming(interner@), x.deep_view()),
        ),
    decreases x,
{
    let ghost f = wire::naming(interner@);
    proof {
        crate::runtime::ast::lemma_expr_model(*x);
        renaming::lemma_expr_map(f, x.deep_view());
        wire::lemma_expr_log(renaming::map_expr(f, x.deep_view()));
    }
    match x {
        Expr::Literal { val } => {
            let val = match encode_value(val, interner) {
                Ok(y) => y,
                Err(e) => {
                    return Err(e);
                },
            };
            let out = NetExpr::Literal { val };
            proof {
                crate::net::ast::lemma_net_expr_model(out);
            }
            Ok(out)
        },
        Expr::Variable { name } => {
            let name = match encode_name(*name, interner) {
                Ok(y) => y,
                Err(e) => {
                    return Err(e);
                },
            };
            let out = NetExpr::Variable { name };
            proof {
                crate::net::ast::lemma_net_expr_model(out);
            }
            Ok(out)
        },
        Expr::Tuple { val } => {
            let val = match encode_exprs(val, interner) {
                Ok(y) => y,
                Err(e) => {
                    return Err(e);
                },
            };
            let out = NetExpr::Tuple { val };
            proof {
                crate::net::ast::lemma_net_expr_model(out);
            }
            Ok(out)
        },
        Expr::KeyVal { name, value } => {
            let name = match encode_name(*name, interner) {
                Ok(y) => y,
                Err(e) => {
                    return Err(e);
                },
            };
            let value = match encode_expr(value, interner) {
                Ok(y) => y,
                Err(e) => {
                    return Err(e);
                },
            };
            let out = NetExpr::KeyVal { name, value: Box::new(value) };
            proof {
                crate::net::ast::lemma_net_expr_model(out);
            }
            Ok(out)
        },
        Expr::Unop { op, expr } => {
            let expr = match encode_expr(expr, interner) {
                Ok(y) => y,
                Err(e) => {
                    return Err(e);
                },
            };
            let out = NetExpr::Unop { op: encode_unop(*op), expr: Box::new(expr) };
            proof {
                crate::net::ast::lemma_net_expr_model(out);
            }
            Ok(out)
        },
        Expr::Binop { op, expr1, expr2 } => {
            let expr1 = match encode_expr(expr1, interner) {
                Ok(y) => y,
                Err(e) => {
                    return Err(e);
                },
            };
            let expr2 = match encode_expr(expr2, interner) {
                Ok(y) => y,
                Err(e) => {
                    return Err(e);
                },
            };
            let out = NetExpr::Binop {
                op: encode_binop(*op),
                expr1: Box::new(expr1),
                expr2: Box::new(expr2),
            };
            proof {
                crate::net::ast::lemma_net_expr_model(out);
            }
            Ok(out)
        },
        Expr::If { cond, expr1, expr2 } => {
            let cond = match encode_expr(cond, interner) {
                Ok(y) => y,
                Err(e) => {
                    return Err(e);
                },
            };
            let expr1 = match encode_expr(expr1, interner) {
                Ok(y) => y,
                Err(e) => {
                    return Err(e);
                },
            };
            let expr2 = match encode_expr(expr2, interner) {
                Ok(y) => y,
                Err(e) => {
                    return Err(e);
                },
            };
            let out = NetExpr::If {
                cond: Box::new(cond),
                expr1: Box::new(expr1),
                expr2: Box::new(expr2),
            };
            proof {
                crate::net::ast::lemma_net_expr_model(out);
            }
            Ok(out)
        },
        Expr::Func { params, body, return_ty } => {
            let params = match encode_params(params, interner) {
                Ok(y) => y,
                Err(e) => {
                    return Err(e);
                },
            };
            let body = match encode_expr(body, interner) {
                Ok(y) => y,
                Err(e) => {
                    return Err(e);
                },
            };
            let out = NetExpr::Func {
                params,
                body: Box::new(body),
                return_ty: encode_type_opt(return_ty),
            };
            proof {
                crate::net::ast::lemma_net_expr_model(out);
            }
            Ok(out)
        },
        Expr::Call { func, args } => {
            let func = match encode_expr(func, interner) {
                Ok(y) => y,
                Err(e) => {
                    return Err(e);
                },
            };
            let args = match encode_exprs(args, interner) {
                Ok(y) => y,
                Err(e) => {
                    return Err(e);
                },
            };
            let out = NetExpr::Call { func: Box::new(func), args };
            proof {
                crate::net::ast::lemma_net_expr_model(out);
            }
            Ok(out)
        },
        Expr::Action(stmts) => {
            let stmts = match encode_stmts(stmts, interner) {
                Ok(y) => y,
                Err(e) => {
                    return Err(e);
                },
            };
            let out = NetExpr::Action(stmts);
            proof {
                crate::net::ast::lemma_net_expr_model(out);
            }
            Ok(out)
        },
        Expr::MemberAccess { service_name, member_name } => {
            let service_name = match encode_name(*service_name, interner) {
                Ok(y) => y,
                Err(e) => {
                    return Err(e);
                },
            };
            let member_name = match encode_name(*member_name, interner) {
                Ok(y) => y,
                Err(e) => {
                    return Err(e);
                },
            };
            let out = NetExpr::MemberAccess { service_name, member_name };
            proof {
                crate::net::ast::lemma_net_expr_model(out);
            }
            Ok(out)
        },
        Expr::Select { table_name, column_names, where_clause } => {
            let table_name = match encode_name(*table_name, interner) {
                Ok(y) => y,
                Err(e) => {
                    return Err(e);
                },
            };
            let column_names = match encode_names(column_names, interner) {
                Ok(y) => y,
                Err(e) => {
                    return Err(e);
                },
            };
            let where_clause = match encode_expr(where_clause, interner) {
                Ok(y) => y,
                Err(e) => {
                    return Err(e);
                },
            };
            let out = NetExpr::Select {
                table_name,
                column_names,
                where_clause: Box::new(where_clause),
            };
            proof {
                crate::net::ast::lemma_net_expr_model(out);
            }
            Ok(out)
        },
        Expr::Table { schema, records } => {
            let schema = match encode_fields(schema, interner) {
                Ok(y) => y,
                Err(e) => {
                    return Err(e);
                },
            };
            let records = match encode_exprs(records, interner) {
                Ok(y) => y,
                Err(e) => {
                    return Err(e);
                },
            };
            let out = NetExpr::Table { schema, records };
            proof {
                crate::net::ast::lemma_net_expr_model(out);
            }
            Ok(out)
        },
        Expr::Fold { table_name, column_name, operation, identity } => {
            let table_name = match encode_name(*table_name, interner) {
                Ok(y) => y,
                Err(e) => {
                    return Err(e);
                },
            };
            let column_name = match encode_name(*column_name, interner) {
                Ok(y) => y,
                Err(e) => {
                    return Err(e);
                },
            };
            let operation = match encode_expr(operation, interner) {
                Ok(y) => y,
                Err(e) => {
                    return Err(e);
                },
            };
            let identity = match encode_expr(identity, interner) {
                Ok(y) => y,
                Err(e) => {
                    return Err(e);
                },
            };
            let out = NetExpr::Fold {
                table_name,
                column_name,
                operation: Box::new(operation),
                identity: Box::new(identity),
            };
            proof {
                crate::net::ast::lemma_net_expr_model(out);
            }
            Ok(out)
        },
    }
}

/// The wire form of a statement; fails at the first limit that it breaks.
pub fn encode_action_stmt(x: &ActionStmt, interner: &Interner) -> (r: Result<NetActionStmt, Error>)
    ensures
        wire::outcome(
            r,
            wire::stmt_log(renaming::map_stmt(wire::naming(interner@), x.deep_view())),
            renaming::map_stmt(wire::naming(interner@), x.deep_view()),
        ),
    decreases x,
{
    let ghost f = wire::naming(interner@);
    proof {
        crate::runtime::ast::lemma_stmt_model(*x);
        renaming::lemma_stmt_map(f, x.deep_view());
        wire::lemma_stmt_log(renaming::map_stmt(f, x.deep_view()));
    }
    match x {
        ActionStmt::Let { name, ty, expr } => {
            let name = match encode_name(*name, interner) {
                Ok(y) => y,
                Err(e) => {
                    return Err(e);
                },
            };
            let expr = match encode_expr(expr, interner) {
                Ok(y) => y,
                Err(e) => {
                    return Err(e);
                },
            };
            let out = NetActionStmt::Let { name, ty: encode_type_opt(ty), expr };
            proof {
                crate::net::ast::lemma_net_stmt_model(out);
            }
            Ok(out)
        },
        ActionStmt::Expr(e) => {
            let e = match encode_expr(e, interner) {
                Ok(y) => y,
                Err(e) => {
                    return Err(e);
                },
            };
            let out = NetActionStmt::Expr(e);
            proof {
                crate::net::ast::lemma_net_stmt_model(out);
            }
            Ok(out)
        },
        ActionStmt::Do(e) => {
            let e = match encode_expr(e, interner) {
                Ok(y) => y,
                Err(e) => {
                    return Err(e);
                },
            };
            let out = NetActionStmt::Do(e);
            proof {
                crate::net::ast::lemma_net_stmt_model(out);
            }
            Ok(out)
        },
        ActionStmt::Assert(e, text) => {
            let e = match encode_expr(e, interner) {
                Ok(y) => y,
                Err(e) => {
                    return Err(e);
                },
            };
            let out = NetActionStmt::Assert(e, text.clone());
            proof {
                crate::net::ast::lemma_net_stmt_model(out);
            }
            Ok(out)
        },
        ActionStmt::Assign { name, expr } => {
            let name = match encode_name(*name, interner) {
                Ok(y) => y,
                Err(e) => {
                    return Err(e);
                },
            };
            let expr = match encode_expr(expr, interner) {
                Ok(y) => y,
                Err(e) => {
                    return Err(e);
                },
            };
            let out = NetActionStmt::Assign { name, expr };
            proof {
                crate::net::ast::lemma_net_stmt_model(out);
            }
            Ok(out)
        },
        ActionStmt::Insert { row, table_name } => {
            let table_name = match encode_name(*table_name, interner) {
                Ok(y) => y,
                Err(e) => {
                    return Err(e);
                },
            };
            let row = match encode_expr(row, interner) {
                Ok(y) => y,
                Err(e) => {
                    return Err(e);
                },
            };
            let out = NetActionStmt::Insert { row, table_name };
            proof {
                crate::net::ast::lemma_net_stmt_model(out);
            }
            Ok(out)
        },
    }
}

fn encode_exprs(v: &Vec<Expr>, interner: &Interner) -> (r: Result<Vec<NetExpr>, Error>)
    ensures
        wire::outcome(
            r,
            wire::concat_all(
                wire::expr_logs(renaming::map_exprs(wire::naming(interner@), v.deep_view())),
            ),
            renaming::map_exprs(wire::naming(interner@), v.deep_view()),
        ),
    decreases v,
{
    broadcast use wire::group_lists;

    let ghost t = renaming::map_exprs(wire::naming(interner@), v.deep_view());
    let ghost logs = wire::expr_logs(t);
    let mut out: Vec<NetExpr> = Vec::new();
    for i in 0..v.len()
        invariant
            t == renaming::map_exprs(wire::naming(interner@), v.deep_view()),
            logs == wire::expr_logs(t),
            wire::concat(logs, i as nat).err is None,
            out@.len() == i,
            forall|j: int| 0 <= j < i ==> (#[trigger] out@[j]).deep_view() == t[j],
    {
        broadcast use wire::group_lists;

        assert(decreases_to!(v => v@[i as int]));
        assert(
            t[i as int] == renaming::map_expr(wire::naming(interner@), v@[i as int].deep_view())
        );
        match encode_expr(&v[i], interner) {
            Ok(x) => {
                out.push(x);
            },
            Err(e) => {
                proof {
                    wire::lemma_concat_stops(logs, (i + 1) as nat, logs.len());
                }
                return Err(e);
            },
        }
    }
    assert(out.deep_view() =~= t);
    Ok(out)
}

/// The wire forms of statements.
pub fn encode_stmts(
    v: &Vec<ActionStmt>,
    interner: &Interner,
) -> (r: Result<Vec<NetActionStmt>, Error>)
    ensures
        wire::outcome(
            r,
            wire::concat_all(
                wire::stmt_logs(renaming::map_stmts(wire::naming(interner@), v.deep_view())),
            ),
            renaming::map_stmts(wire::naming(interner@), v.deep_view()),
        ),
    decreases v,
{
    broadcast use wire::group_lists;

    let ghost t = renaming::map_stmts(wire::naming(interner@), v.deep_view());
    let ghost logs = wire::stmt_logs(t);
    let mut out: Vec<NetActionStmt> = Vec::new();
    for i in 0..v.len()
        invariant
            t == renaming::map_stmts(wire::naming(interner@), v.deep_view()),
            logs == wire::stmt_logs(t),
            wire::concat(logs, i as nat).err is None,
            out@.len() == i,
            forall|j: int| 0 <= j < i ==> (#[trigger] out@[j]).deep_view() == t[j],
    {
        broadcast use wire::group_lists;

        assert(decreases_to!(v => v@[i as int]));
        assert(
            t[i as int] == renaming::map_stmt(wire::naming(interner@), v@[i as int].deep_view())
        );
        match encode_action_stmt(&v[i], interner) {
            Ok(x) => {
                out.push(x);
            },
            Err(e) => {
                proof {
                    wire::lemma_concat_stops(logs, (i + 1) as nat, logs.len());
                }
                return Err(e);
            },
        }
    }
    assert(out.deep_view() =~= t);
    Ok(out)
}

fn encode_env(
    v: &Vec<(Symbol, Value)>,
    interner: &Interner,
) -> (r: Result<Vec<(String, NetValue)>, Error>)
    ensures
        wire::outcome(
            r,
            wire::concat_all(
                wire::env_logs(renaming::map_env(wire::naming(interner@), v.deep_view())),
            ),
            renaming::map_env(wire::naming(interner@), v.deep_view()),
        ),
    decreases v,
{
    broadcast use wire::group_lists;

    let ghost t = renaming::map_env(wire::naming(interner@), v.deep_view());
    let ghost logs = wire::env_logs(t);
    let mut out: Vec<(String, NetValue)> = Vec::new();
    for i in 0..v.len()
        invariant
            t == renaming::map_env(wire::naming(interner@), v.deep_view()),
            logs == wire::env_logs(t),
            wire::concat(logs, i as nat).err is None,
            out@.len() == i,
            forall|j: int| 0 <= j < i ==> (#[trigger] out@[j]).deep_view() == t[j],
    {
        broadcast use wire::group_lists;

        assert(decreases_to!(v => v@[i as int]));
        assert(decreases_to!(v@[i as int] => v@[i as int].1));
        assert(
            t[i as int] == (
                interner::name_of(interner@, v@[i as int].0),
                renaming::map_value(wire::naming(interner@), v@[i as int].1.deep_view()),
            )
        );
        let k = match encode_name(v[i].0, interner) {
            Ok(k) => k,
            Err(e) => {
                proof {
                    wire::lemma_concat_stops(logs, (i + 1) as nat, logs.len());
                }
                return Err(e);
            },
        };
        match encode_value(&v[i].1, interner) {
            Ok(x) => {
                out.push((k, x));
            },
            Err(e) => {
                proof {
                    wire::lemma_concat_stops(logs, (i + 1) as nat, logs.len());
                }
                return Err(e);
            },
        }
    }
    assert(out.deep_view() =~= t);
    Ok(out)
}

/// The symbol of a name, which is interned.
fn read_name(name: &String, interner: &mut Interner) -> (r: Symbol)
    ensures
        final(interner)@ == interner::interned_all(old(interner)@, wire::Log::one(name@).names),
        forall|f: Seq<Seq<char>>| #[trigger]
            wire::extends(f, final(interner)@) ==> r == interner::symbol_of(f, name@),
{
    let r = interner.insert(name.as_str());
    assert forall|f: Seq<Seq<char>>| #[trigger] wire::extends(f, interner@) implies r
        == interner::symbol_of(f, name@) by {
        wire::lemma_symbol_stable(interner@, f, name@);
    }
    r
}

/// The symbols of names, which are interned in order.
fn read_names(v: &Vec<String>, interner: &mut Interner) -> (r: Vec<Symbol>)
    ensures
        final(interner)@ == interner::interned_all(old(interner)@, v.deep_view()),
        forall|f: Seq<Seq<char>>| #[trigger]
            wire::extends(f, final(interner)@) ==> r.deep_view() == renaming::map_names(
                wire::symbolizing(f),
                v.deep_view(),
            ),
{
    broadcast use wire::lemma_extends_trans;

    let ghost n0 = interner@;
    let ghost t = v.deep_view();
    let mut out: Vec<Symbol> = Vec::new();
    for i in 0..v.len()
        invariant
            t == v.deep_view(),
            interner@ == interner::interned_all(n0, t.take(i as int)),
            out@.len() == i,
            forall|f: Seq<Seq<char>>, j: int|
                #![trigger wire::extends(f, interner@), out@[j]]
                0 <= j < i && wire::extends(f, interner@) ==> out@[j] == interner::symbol_of(
                    f,
                    t[j],
                ),
    {
        broadcast use wire::lemma_extends_trans;

        let ghost n1 = interner@;
        let s = read_name(&v[i], interner);
        proof {
            wire::lemma_step(n0, wire::Log::all(t.take(i as int)), wire::Log::one(t[i as int]));
            assert(t.take(i + 1) =~= t.take(i as int) + seq![t[i as int]]);
            assert(wire::extends(interner@, n1));
        }
        out.push(s);
    }
    proof {
        assert(t.take(t.len() as int) =~= t);
        assert forall|f: Seq<Seq<char>>| #[trigger] wire::extends(f, interner@) implies out.deep_view()
            == renaming::map_names(wire::symbolizing(f), t) by {
            assert forall|j: int| 0 <= j < t.len() implies out.deep_view()[j]
                == renaming::map_names(wire::symbolizing(f), t)[j] by {
                assert(out@[j] == interner::symbol_of(f, t[j]));
            }
            assert(out.deep_view() =~= renaming::map_names(wire::symbolizing(f), t));
        }
    }
    out
}

/// Tests the length of each name in turn.
fn check_names(v: &Vec<String>) -> (r: Result<(), Error>)
    ensures
        wire::stopped(r, wire::check_all(v.deep_view())),
{
    let ghost t = v.deep_view();
    let ghost logs = Seq::new(t.len(), |i: int| wire::check(t[i]));
    for i in 0..v.len()
        invariant
            t == v.deep_view(),
            logs == Seq::new(t.len(), |i: int| wire::check(t[i])),
            wire::concat(logs, i as nat) == wire::Log::nil(),
    {
        match validate_identifier(v[i].as_str()) {
            Ok(_) => {
                assert(wire::Log::nil().names + wire::Log::nil().names =~= wire::Log::nil().names);
            },
            Err(e) => {
                proof {
                    wire::lemma_concat_stops(logs, (i + 1) as nat, logs.len());
                }
                return Err(e);
            },
        }
    }
    Ok(())
}

/// The names of parameters.
fn names_of_params(v: &Vec<NetParam>) -> (r: Vec<String>)
    ensures
        r.deep_view() == wire::param_names(v.deep_view()),
{
    let mut out: Vec<String> = Vec::new();
    for i in 0..v.len()
        invariant
            out@.len() == i,
            forall|j: int| 0 <= j < i ==> (#[trigger] out@[j])@ == v@[j].name@,
    {
        out.push(v[i].name.clone());
    }
    assert(out.deep_view() =~= wire::param_names(v.deep_view()));
    out
}

/// The parameters that wire forms stand for.
fn read_params(v: &Vec<NetParam>, interner: &mut Interner) -> (r: Result<Vec<Param>, Error>)
    ensures
        final(interner)@ == interner::interned_all(
            old(interner)@,
            wire::params_log(v.deep_view()).names,
        ),
        wire::stopped(r, wire::params_log(v.deep_view())),
        r matches Ok(y) ==> forall|f: Seq<Seq<char>>| #[trigger]
            wire::extends(f, final(interner)@) ==> y.deep_view() == renaming::map_params(
                wire::symbolizing(f),
                v.deep_view(),
            ),
{
    let ghost n0 = interner@;
    let ghost t = v.deep_view();
    let names = names_of_params(v);
    match check_names(&names) {
        Ok(_) => {},
        Err(e) => {
            proof {
                wire::lemma_checks_intern_nothing(names.deep_view());
            }
            return Err(e);
        },
    }
    proof {
        wire::lemma_checks_intern_nothing(names.deep_view());
        assert(wire::params_log(t).names =~= names.deep_view());
    }
    let syms = read_names(&names, interner);
    let ghost n1 = interner@;
    proof {
        wire::lemma_extends_self(n1);
        assert(syms.deep_view().len() == names.deep_view().len());
    }
    let mut out: Vec<Param> = Vec::new();
    for i in 0..v.len()
        invariant
            syms@.len() == v@.len(),
            out@.len() == i,
            forall|j: int| 0 <= j < i ==> (#[trigger] out@[j]).name == syms@[j],
            forall|j: int| 0 <= j < i ==> (#[trigger] out@[j]).ty.deep_view() == v@[j].ty.deep_view(),
    {
        out.push(Param { name: syms[i], ty: decode_type_opt(&v[i].ty) });
    }
    proof {
        assert forall|f: Seq<Seq<char>>| #[trigger] wire::extends(f, interner@) implies out.deep_view()
            == renaming::map_params(wire::symbolizing(f), t) by {
            let m = renaming::map_names(wire::symbolizing(f), names.deep_view());
            assert(syms.deep_view() == m);
            assert forall|j: int| 0 <= j < t.len() implies out.deep_view()[j]
                == renaming::map_params(wire::symbolizing(f), t)[j] by {
                assert(syms.deep_view()[j] == m[j]);
                assert(names.deep_view()[j] == wire::param_names(t)[j]);
                assert(out@[j].name == syms@[j]);
            }
            assert(out.deep_view() =~= renaming::map_params(wire::symbolizing(f), t));
        }
    }
    Ok(out)
}

/// The column that a wire form stands for.
fn read_field(field: &NetField, interner: &mut Interner) -> (r: Result<Field, Error>)
    ensures
        final(interner)@ == interner::interned_all(
            old(interner)@,
            wire::field_log(field.deep_view()).names,
        ),
        wire::stopped(r, wire::field_log(field.deep_view())),
        r matches Ok(y) ==> forall|f: Seq<Seq<char>>| #[trigger]
            wire::extends(f, final(interner)@) ==> y.deep_view() == (FieldM {
                name: interner::symbol_of(f, field.name@),
                ty: field.ty.deep_view(),
            }),
{
    match validate_identifier(field.name.as_str()) {
        Ok(_) => {},
        Err(e) => {
            return Err(e);
        },
    }
    proof {
        assert(wire::field_log(field.deep_view()).names =~= wire::Log::one(field.name@).names);
    }
    let name = read_name(&field.name, interner);
    Ok(Field { name, ty: decode_datatype(field.ty) })
}

/// The column that a wire form stands for; its name is interned.
pub fn decode_field(field: NetField, interner: &mut Interner) -> (r: Result<Field, Error>)
    ensures
        final(interner)@ == interner::interned_all(
            old(interner)@,
            wire::field_log(field.deep_view()).names,
        ),
        wire::outcome(
            r,
            wire::field_log(field.deep_view()),
            FieldM {
                name: interner::symbol_of(final(interner)@, field.name@),
                ty: field.ty.deep_view(),
            },
        ),
{
    let r = read_field(&field, interner);
    proof {
        wire::lemma_extends_self(interner@);
    }
    r
}

fn read_fields(v: &Vec<NetField>, interner: &mut Interner) -> (r: Result<Vec<Field>, Error>)
    ensures
        final(interner)@ == interner::interned_all(
            old(interner)@,
            wire::fields_log(v.deep_view()).names,
        ),
        wire::stopped(r, wire::fields_log(v.deep_view())),
        r matches Ok(y) ==> forall|f: Seq<Seq<char>>| #[trigger]
            wire::extends(f, final(interner)@) ==> y.deep_view() == renaming::map_fields(
                wire::symbolizing(f),
                v.deep_view(),
            ),
{
    broadcast use {wire::lemma_extends_trans, wire::group_lists};

    let ghost n0 = interner@;
    let ghost t = v.deep_view();
    let ghost logs = Seq::new(t.len(), |i: int| wire::field_log(t[i]));
    let mut out: Vec<Field> = Vec::new();
    for i in 0..v.len()
        invariant
            t == v.deep_view(),
            n0 == old(interner)@,
            logs == Seq::new(t.len(), |i: int| wire::field_log(t[i])),
            interner@ == interner::interned_all(n0, wire::concat(logs, i as nat).names),
            wire::concat(logs, i as nat).err is None,
            out@.len() == i,
            forall|f: Seq<Seq<char>>, j: int|
                #![trigger wire::extends(f, interner@), out@[j]]
                0 <= j < i && wire::extends(f, interner@) ==> out@[j].deep_view() == (FieldM {
                        name: interner::symbol_of(f, t[j].name),
                        ty: t[j].ty,
                    }),
    {
        broadcast use {wire::lemma_extends_trans, wire::group_lists};

        let ghost n1 = interner@;
        let ghost done = wire::concat(logs, i as nat);
        match read_field(&v[i], interner) {
            Ok(x) => {
                out.push(x);
            },
            Err(e) => {
                proof {
                    wire::lemma_step(n0, done, logs[i as int]);
                    wire::lemma_concat_stops(logs, (i + 1) as nat, logs.len());
                }
                return Err(e);
            },
        }
        proof {
            wire::lemma_step(n0, done, logs[i as int]);
            assert(wire::extends(interner@, n1));
        }
    }
    proof {
        assert forall|f: Seq<Seq<char>>| #[trigger] wire::extends(f, interner@) implies out.deep_view()
            == renaming::map_fields(wire::symbolizing(f), t) by {
            assert forall|j: int| 0 <= j < t.len() implies out.deep_view()[j]
                == renaming::map_fields(wire::symbolizing(f), t)[j] by {
                assert(out@[j].deep_view() == (FieldM {
                        name: interner::symbol_of(f, t[j].name),
                        ty: t[j].ty,
                    }));
            }
            assert(out.deep_view() =~= renaming::map_fields(wire::symbolizing(f), t));
        }
    }
    Ok(out)
}

/// The value that a wire form stands for, as it is with any names added after.
pub fn read_value(x: &NetValue, interner: &mut Interner) -> (r: Result<Value, Error>)
    ensures
        final(interner)@ == interner::interned_all(
            old(interner)@,
            wire::value_log(x.deep_view()).names,
        ),
        wire::stopped(r, wire::value_log(x.deep_view())),
        r matches Ok(y) ==> forall|f: Seq<Seq<char>>| #[trigger]
            wire::extends(f, final(interner)@) ==> y.deep_view() == renaming::map_value(
                wire::symbolizing(f),
                x.deep_view(),
            ),
    decreases x,
{
    broadcast use wire::lemma_extends_trans;

    let ghost n0 = interner@;
    let ghost mut done = wire::Log::nil();
    proof {
        crate::net::ast::lemma_net_value_model(*x);
        wire::lemma_value_log(x.deep_view());
    }
    let out = match x {
        NetValue::Int { val } => {
            Value::Int { val: *val }
        },
        NetValue::Bool { val } => {
            Value::Bool { val: *val }
        },
        NetValue::String { val } => {
            proof {
                wire::lemma_step(n0, done, wire::check_literal(val@));
                done = done.and(wire::check_literal(val@));
            }
            match validate_string_literal(val.as_str()) {
                Ok(_) => {},
                Err(e) => {
                    return Err(e);
                },
            }
            Value::String { val: val.clone() }
        },
        NetValue::Closure { params, body, env, service_name, return_ty } => {
            proof {
                wire::lemma_step(n0, done, wire::params_log(params.deep_view()));
                done = done.and(wire::params_log(params.deep_view()));
            }
            let params = match read_params(params, interner) {
                Ok(y) => y,
                Err(e) => {
                    return Err(e);
                },
            };
            proof {
                wire::lemma_step(n0, done, wire::expr_log(body.deep_view()));
                done = done.and(wire::expr_log(body.deep_view()));
            }
            let body = match read_expr(body, interner) {
                Ok(y) => y,
                Err(e) => {
                    return Err(e);
                },
            };
            proof {
                wire::lemma_step(n0, done, wire::concat_all(wire::env_logs(env.deep_view())));
                done = done.and(wire::concat_all(wire::env_logs(env.deep_view())));
            }
            let env = match read_env(env, interner) {
                Ok(y) => y,
                Err(e) => {
                    return Err(e);
                },
            };
            proof {
                wire::lemma_step(n0, done, wire::check(service_name@));
                done = done.and(wire::check(service_name@));
            }
            match validate_identifier(service_name.as_str()) {
                Ok(_) => {},
                Err(e) => {
                    return Err(e);
                },
            }
            proof {
                wire::lemma_step(n0, done, wire::Log::one(service_name@));
                done = done.and(wire::Log::one(service_name@));
            }
            let service_name = read_name(service_name, interner);
            Value::Closure {
                params,
                body: Box::new(body),
                env,
                service_name,
                return_ty: decode_type_opt(return_ty),
            }
        },
        NetValue::ActionClosure { stmts, env, service_net_id } => {
            proof {
                wire::lemma_step(n0, done, wire::concat_all(wire::stmt_logs(stmts.deep_view())));
                done = done.and(wire::concat_all(wire::stmt_logs(stmts.deep_view())));
            }
            let stmts = match read_stmts(stmts, interner) {
                Ok(y) => y,
                Err(e) => {
                    return Err(e);
                },
            };
            proof {
                wire::lemma_step(n0, done, wire::concat_all(wire::env_logs(env.deep_view())));
                done = done.and(wire::concat_all(wire::env_logs(env.deep_view())));
            }
            let env = match read_env(env, interner) {
                Ok(y) => y,
                Err(e) => {
                    return Err(e);
                },
            };
            Value::ActionClosure { stmts, env, service_net_id: service_net_id.dup() }
        },
    };
    proof {
        crate::runtime::ast::lemma_value_model(out);
        assert forall|f: Seq<Seq<char>>| #[trigger] wire::extends(f, interner@) implies out.deep_view()
            == renaming::map_value(wire::symbolizing(f), x.deep_view()) by {
            renaming::lemma_value_map(wire::symbolizing(f), x.deep_view());
        }
    }
    Ok(out)
}

fn read_expr(x: &NetExpr, interner: &mut Interner) -> (r: Result<Expr, Error>)
    ensures
        final(interner)@ == interner::interned_all(
            old(interner)@,
            wire::expr_log(x.deep_view()).names,
        ),
        wire::stopped(r, wire::expr_log(x.deep_view())),
        r matches Ok(y) ==> forall|f: Seq<Seq<char>>| #[trigger]
            wire::extends(f, final(interner)@) ==> y.deep_view() == renaming::map_expr(
                wire::symbolizing(f),
                x.deep_view(),
            ),
    decreases x,
{
    broadcast use wire::lemma_extends_trans;

    let ghost n0 = interner@;
    let ghost mut done = wire::Log::nil();
    proof {
        crate::net::ast::lemma_net_expr_model(*x);
        wire::lemma_expr_log(x.deep_view());
    }
    let out = match x {
        NetExpr::Literal { val } => {
            proof {
                wire::lemma_step(n0, done, wire::value_log(val.deep_view()));
                done = done.and(wire::value_log(val.deep_view()));
            }
            let val = match read_value(val, interner) {
                Ok(y) => y,
                Err(e) => {
                    return Err(e);
                },
            };
            Expr::Literal { val }
        },
        NetExpr::Variable { name } => {
            proof {
                wire::lemma_step(n0, done, wire::check(name@));
                done = done.and(wire::check(name@));
            }
            match validate_identifier(name.as_str()) {
                Ok(_) => {},
                Err(e) => {
                    return Err(e);
                },
            }
            proof {
                wire::lemma_step(n0, done, wire::Log::one(name@));
                done = done.and(wire::Log::one(name@));
            }
            let name = read_name(name, interner);
            Expr::Variable { name }
        },
        NetExpr::Tuple { val } => {
            proof {
                wire::lemma_step(n0, done, wire::concat_all(wire::expr_logs(val.deep_view())));
                done = done.and(wire::concat_all(wire::expr_logs(val.deep_view())));
            }
            let val = match read_exprs(val, interner) {
                Ok(y) => y,
                Err(e) => {
                    return Err(e);
                },
            };
            Expr::Tuple { val }
        },
        NetExpr::KeyVal { name, value } => {
            proof {
                wire::lemma_step(n0, done, wire::check(name@));
                done = done.and(wire::check(name@));
            }
            match validate_identifier(name.as_str()) {
                Ok(_) => {},
                Err(e) => {
                    return Err(e);
                },
            }
            proof {
                wire::lemma_step(n0, done, wire::Log::one(name@));
                done = done.and(wire::Log::one(name@));
            }
            let name = read_name(name, interner);
            proof {
                wire::lemma_step(n0, done, wire::expr_log(value.deep_view()));
                done = done.and(wire::expr_log(value.deep_view()));
            }
            let value = match read_expr(value, interner) {
                Ok(y) => y,
                Err(e) => {
                    return Err(e);
                },
            };
            Expr::KeyVal { name, value: Box::new(value) }
        },
        NetExpr::Unop { op, expr } => {
            proof {
                wire::lemma_step(n0, done, wire::expr_log(expr.deep_view()));
                done = done.and(wire::expr_log(expr.deep_view()));
            }
            let expr = match read_expr(expr, interner) {
                Ok(y) => y,
                Err(e) => {
                    return Err(e);
                },
            };
            Expr::Unop { op: decode_unop(*op), expr: Box::new(expr) }
        },
        NetExpr::Binop { op, expr1, expr2 } => {
            proof {
                wire::lemma_step(n0, done, wire::expr_log(expr1.deep_view()));
                done = done.and(wire::expr_log(expr1.deep_view()));
            }
            let expr1 = match read_expr(expr1, interner) {
                Ok(y) => y,
                Err(e) => {
                    return Err(e);
                },
            };
            proof {
                wire::lemma_step(n0, done, wire::expr_log(expr2.deep_view()));
                done = done.and(wire::expr_log(expr2.deep_view()));
            }
            let expr2 = match read_expr(expr2, interner) {
                Ok(y) => y,
                Err(e) => {
                    return Err(e);
                },
            };
            Expr::Binop { op: decode_binop(*op), expr1: Box::new(expr1), expr2: Box::new(expr2) }
        },
        NetExpr::If { cond, expr1, expr2 } => {
            proof {
                wire::lemma_step(n0, done, wire::expr_log(cond.deep_view()));
                done = done.and(wire::expr_log(cond.deep_view()));
            }
            let cond = match read_expr(cond, interner) {
                Ok(y) => y,
                Err(e) => {
                    return Err(e);
                },
            };
            proof {
                wire::lemma_step(n0, done, wire::expr_log(expr1.deep_view()));
                done = done.and(wire::expr_log(expr1.deep_view()));
            }
            let expr1 = match read_expr(expr1, interner) {
                Ok(y) => y,
                Err(e) => {
                    return Err(e);
                },
            };
            proof {
                wire::lemma_step(n0, done, wire::expr_log(expr2.deep_view()));
                done = done.and(wire::expr_log(expr2.deep_view()));
            }
            let expr2 = match read_expr(expr2, interner) {
                Ok(y) => y,
                Err(e) => {
                    return Err(e);
                },
            };
            Expr::If { cond: Box::new(cond), expr1: Box::new(expr1), expr2: Box::new(expr2) }
        },
        NetExpr::Func { params, body, return_ty } => {
            proof {
                wire::lemma_step(n0, done, wire::params_log(params.deep_view()));
                done = done.and(wire::params_log(params.deep_view()));
            }
            let params = match read_params(params, interner) {
                Ok(y) => y,
                Err(e) => {
                    return Err(e);
                },
            };
            proof {
                wire::lemma_step(n0, done, wire::expr_log(body.deep_view()));
                done = done.and(wire::expr_log(body.deep_view()));
            }
            let body = match read_expr(body, interner) {
                Ok(y) => y,
                Err(e) => {
                    return Err(e);
                },
            };
            Expr::Func { params, body: Box::new(body), return_ty: decode_type_opt(return_ty) }
        },
        NetExpr::Call { func, args } => {
            proof {
                wire::lemma_step(n0, done, wire::expr_log(func.deep_view()));
                done = done.and(wire::expr_log(func.deep_view()));
            }
            let func = match read_expr(func, interner) {
                Ok(y) => y,
                Err(e) => {
                    return Err(e);
                },
            };
            proof {
                wire::lemma_step(n0, done, wire::concat_all(wire::expr_logs(args.deep_view())));
                done = done.and(wire::concat_all(wire::expr_logs(args.deep_view())));
            }
            let args = match read_exprs(args, interner) {
                Ok(y) => y,
                Err(e) => {
                    return Err(e);
                },
            };
            Expr::Call { func: Box::new(func), args }
        },
        NetExpr::Action(stmts) => {
            proof {
                wire::lemma_step(n0, done, wire::concat_all(wire::stmt_logs(stmts.deep_view())));
                done = done.and(wire::concat_all(wire::stmt_logs(stmts.deep_view())));
            }
            let stmts = match read_stmts(stmts, interner) {
                Ok(y) => y,
                Err(e) => {
                    return Err(e);
                },
            };
            Expr::Action(stmts)
        },
        NetExpr::MemberAccess { service_name, member_name } => {
            proof {
                wire::lemma_step(n0, done, wire::check(service_name@));
                done = done.and(wire::check(service_name@));
            }
            match validate_identifier(service_name.as_str()) {
                Ok(_) => {},
                Err(e) => {
                    return Err(e);
                },
            }
            proof {
                wire::lemma_step(n0, done, wire::check(member_name@));
                done = done.and(wire::check(member_name@));
            }
            match validate_identifier(member_name.as_str()) {
                Ok(_) => {},
                Err(e) => {
                    return Err(e);
                },
            }
            proof {
                wire::lemma_step(n0, done, wire::Log::one(service_name@));
                done = done.and(wire::Log::one(service_name@));
            }
            let service_name = read_name(service_name, interner);
            proof {
                wire::lemma_step(n0, done, wire::Log::one(member_name@));
                done = done.and(wire::Log::one(member_name@));
            }
            let member_name = read_name(member_name, interner);
            Expr::MemberAccess { service_name, member_name }
        },
        NetExpr::Select { table_name, column_names, where_clause } => {
            proof {
                wire::lemma_step(n0, done, wire::check(table_name@));
                done = done.and(wire::check(table_name@));
            }
            match validate_identifier(table_name.as_str()) {
                Ok(_) => {},
                Err(e) => {
                    return Err(e);
                },
            }
            proof {
                wire::lemma_checks_intern_nothing(column_names.deep_view());
                wire::lemma_step(n0, done, wire::check_all(column_names.deep_view()));
                done = done.and(wire::check_all(column_names.deep_view()));
            }
            match check_names(column_names) {
                Ok(_) => {},
                Err(e) => {
                    return Err(e);
                },
            }
            proof {
                wire::lemma_step(n0, done, wire::Log::all(column_names.deep_view()));
                done = done.and(wire::Log::all(column_names.deep_view()));
            }
            let column_names = read_names(column_names, interner);
            proof {
                wire::lemma_step(n0, done, wire::Log::one(table_name@));
                done = done.and(wire::Log::one(table_name@));
            }
            let table_name = read_name(table_name, interner);
            proof {
                wire::lemma_step(n0, done, wire::expr_log(where_clause.deep_view()));
                done = done.and(wire::expr_log(where_clause.deep_view()));
            }
            let where_clause = match read_expr(where_clause, interner) {
                Ok(y) => y,
                Err(e) => {
                    return Err(e);
                },
            };
            Expr::Select { table_name, column_names, where_clause: Box::new(where_clause) }
        },
        NetExpr::Table { schema, records } => {
            proof {
                wire::lemma_step(n0, done, wire::fields_log(schema.deep_view()));
                done = done.and(wire::fields_log(schema.deep_view()));
            }
            let schema = match read_fields(schema, interner) {
                Ok(y) => y,
                Err(e) => {
                    return Err(e);
                },
            };
            proof {
                wire::lemma_step(n0, done, wire::concat_all(wire::expr_logs(records.deep_view())));
                done = done.and(wire::concat_all(wire::expr_logs(records.deep_view())));
            }
            let records = match read_exprs(records, interner) {
                Ok(y) => y,
                Err(e) => {
                    return Err(e);
                },
            };
            Expr::Table { schema, records }
        },
        NetExpr::Fold { table_name, column_name, operation, identity } => {
            proof {
                wire::lemma_step(n0, done, wire::check(table_name@));
                done = done.and(wire::check(table_name@));
            }
            match validate_identifier(table_name.as_str()) {
                Ok(_) => {},
                Err(e) => {
                    return Err(e);
                },
            }
            proof {
                wire::lemma_step(n0, done, wire::check(column_name@));
                done = done.and(wire::check(column_name@));
            }
            match validate_identifier(column_name.as_str()) {
                Ok(_) => {},
                Err(e) => {
                    return Err(e);
                },
            }
            proof {
                wire::lemma_step(n0, done, wire::Log::one(table_name@));
                done = done.and(wire::Log::one(table_name@));
            }
            let table_name = read_name(table_name, interner);
            proof {
                wire::lemma_step(n0, done, wire::Log::one(column_name@));
                done = done.and(wire::Log::one(column_name@));
            }
            let column_name = read_name(column_name, interner);
            proof {
                wire::lemma_step(n0, done, wire::expr_log(operation.deep_view()));
                done = done.and(wire::expr_log(operation.deep_view()));
            }
            let operation = match read_expr(operation, interner) {
                Ok(y) => y,
                Err(e) => {
                    return Err(e);
                },
            };
            proof {
                wire::lemma_step(n0, done, wire::expr_log(identity.deep_view()));
                done = done.and(wire::expr_log(identity.deep_view()));
            }
            let identity = match read_expr(identity, interner) {
                Ok(y) => y,
                Err(e) => {
                    return Err(e);
                },
            };
            Expr::Fold {
                table_name,
                column_name,
                operation: Box::new(operation),
                identity: Box::new(identity),
            }
        },
    };
    proof {
        crate::runtime::ast::lemma_expr_model(out);
        assert forall|f: Seq<Seq<char>>| #[trigger] wire::extends(f, interner@) implies out.deep_view()
            == renaming::map_expr(wire::symbolizing(f), x.deep_view()) by {
            renaming::lemma_expr_map(wire::symbolizing(f), x.deep_view());
        }
    }
    Ok(out)
}

fn read_stmt(x: &NetActionStmt, interner: &mut Interner) -> (r: Result<ActionStmt, Error>)
    ensures
        final(interner)@ == interner::interned_all(
            old(interner)@,
            wire::stmt_log(x.deep_view()).names,
        ),
        wire::stopped(r, wire::stmt_log(x.deep_view())),
        r matches Ok(y) ==> forall|f: Seq<Seq<char>>| #[trigger]
            wire::extends(f, final(interner)@) ==> y.deep_view() == renaming::map_stmt(
                wire::symbolizing(f),
                x.deep_view(),
            ),
    decreases x,
{
    broadcast use wire::lemma_extends_trans;

    let ghost n0 = interner@;
    let ghost mut done = wire::Log::nil();
    proof {
        crate::net::ast::lemma_net_stmt_model(*x);
        wire::lemma_stmt_log(x.deep_view());
    }
    let out = match x {
        NetActionStmt::Let { name, ty, expr } => {
            proof {
                wire::lemma_step(n0, done, wire::check(name@));
                done = done.and(wire::check(name@));
            }
            match validate_identifier(name.as_str()) {
                Ok(_) => {},
                Err(e) => {
                    return Err(e);
                },
            }
            proof {
                wire::lemma_step(n0, done, wire::Log::one(name@));
                done = done.and(wire::Log::one(name@));
            }
            let name = read_name(name, interner);
            proof {
                wire::lemma_step(n0, done, wire::expr_log(expr.deep_view()));
                done = done.and(wire::expr_log(expr.deep_view()));
            }
            let expr = match read_expr(expr, interner) {
                Ok(y) => y,
                Err(e) => {
                    return Err(e);
                },
            };
            ActionStmt::Let { name, ty: decode_type_opt(ty), expr }
        },
        NetActionStmt::Expr(e) => {
            proof {
                wire::lemma_step(n0, done, wire::expr_log(e.deep_view()));
                done = done.and(wire::expr_log(e.deep_view()));
            }
            let e = match read_expr(e, interner) {
                Ok(y) => y,
                Err(e) => {
                    return Err(e);
                },
            };
            ActionStmt::Expr(e)
        },
        NetActionStmt::Do(e) => {
            proof {
                wire::lemma_step(n0, done, wire::expr_log(e.deep_view()));
                done = done.and(wire::expr_log(e.deep_view()));
            }
            let e = match read_expr(e, interner) {
                Ok(y) => y,
                Err(e) => {
                    return Err(e);
                },
            };
            ActionStmt::Do(e)
        },
        NetActionStmt::Assert(e, text) => {
            proof {
                wire::lemma_step(n0, done, wire::expr_log(e.deep_view()));
                done = done.and(wire::expr_log(e.deep_view()));
            }
            let e = match read_expr(e, interner) {
                Ok(y) => y,
                Err(e) => {
                    return Err(e);
                },
            };
            ActionStmt::Assert(e, text.clone())
        },
        NetActionStmt::Assign { name, expr } => {
            proof {
                wire::lemma_step(n0, done, wire::check(name@));
                done = done.and(wire::check(name@));
            }
            match validate_identifier(name.as_str()) {
                Ok(_) => {},
                Err(e) => {
                    return Err(e);
                },
            }
            proof {
                wire::lemma_step(n0, done, wire::Log::one(name@));
                done = done.and(wire::Log::one(name@));
            }
            let name = read_name(name, interner);
            proof {
                wire::lemma_step(n0, done, wire::expr_log(expr.deep_view()));
                done = done.and(wire::expr_log(expr.deep_view()));
            }
            let expr = match read_expr(expr, interner) {
                Ok(y) => y,
                Err(e) => {
                    return Err(e);
                },
            };
            ActionStmt::Assign { name, expr }
        },
        NetActionStmt::Insert { row, table_name } => {
            proof {
                wire::lemma_step(n0, done, wire::check(table_name@));
                done = done.and(wire::check(table_name@));
            }
            match validate_identifier(table_name.as_str()) {
                Ok(_) => {},
                Err(e) => {
                    return Err(e);
                },
            }
            proof {
                wire::lemma_step(n0, done, wire::expr_log(row.deep_view()));
                done = done.and(wire::expr_log(row.deep_view()));
            }
            let row = match read_expr(row, interner) {
                Ok(y) => y,
                Err(e) => {
                    return Err(e);
                },
            };
            proof {
                wire::lemma_step(n0, done, wire::Log::one(table_name@));
                done = done.and(wire::Log::one(table_name@));
            }
            let table_name = read_name(table_name, interner);
            ActionStmt::Insert { row, table_name }
        },
    };
    proof {
        crate::runtime::ast::lemma_stmt_model(out);
        assert forall|f: Seq<Seq<char>>| #[trigger] wire::extends(f, interner@) implies out.deep_view()
            == renaming::map_stmt(wire::symbolizing(f), x.deep_view()) by {
            renaming::lemma_stmt_map(wire::symbolizing(f), x.deep_view());
        }
    }
    Ok(out)
}

fn read_exprs(v: &Vec<NetExpr>, interner: &mut Interner) -> (r: Result<Vec<Expr>, Error>)
    ensures
        final(interner)@ == interner::interned_all(
            old(interner)@,
            wire::concat_all(wire::expr_logs(v.deep_view())).names,
        ),
        wire::stopped(r, wire::concat_all(wire::expr_logs(v.deep_view()))),
        r matches Ok(y) ==> forall|f: Seq<Seq<char>>| #[trigger]
            wire::extends(f, final(interner)@) ==> y.deep_view() == renaming::map_exprs(
                wire::symbolizing(f),
                v.deep_view(),
            ),
    decreases v,
{
    broadcast use {wire::lemma_extends_trans, wire::group_lists};

    let ghost n0 = interner@;
    let ghost t = v.deep_view();
    let ghost logs = wire::expr_logs(t);
    let mut out: Vec<Expr> = Vec::new();
    for i in 0..v.len()
        invariant
            t == v.deep_view(),
            n0 == old(interner)@,
            logs == wire::expr_logs(t),
            interner@ == interner::interned_all(n0, wire::concat(logs, i as nat).names),
            wire::concat(logs, i as nat).err is None,
            out@.len() == i,
            forall|f: Seq<Seq<char>>, j: int|
                #![trigger wire::extends(f, interner@), out@[j]]
                0 <= j < i && wire::extends(f, interner@) ==> out@[j].deep_view() == renaming::map_expr(
                    wire::symbolizing(f),
                    t[j],
                ),
    {
        broadcast use {wire::lemma_extends_trans, wire::group_lists};

        assert(decreases_to!(v => v@[i as int]));
        let ghost n1 = interner@;
        let ghost done = wire::concat(logs, i as nat);
        match read_expr(&v[i], interner) {
            Ok(x) => {
                out.push(x);
            },
            Err(e) => {
                proof {
                    wire::lemma_step(n0, done, logs[i as int]);
                    wire::lemma_concat_stops(logs, (i + 1) as nat, logs.len());
                }
                return Err(e);
            },
        }
        proof {
            wire::lemma_step(n0, done, logs[i as int]);
            assert(wire::extends(interner@, n1));
        }
    }
    proof {
        assert forall|f: Seq<Seq<char>>| #[trigger] wire::extends(f, interner@) implies out.deep_view()
            == renaming::map_exprs(wire::symbolizing(f), t) by {
            assert forall|j: int| 0 <= j < t.len() implies out.deep_view()[j]
                == renaming::map_exprs(wire::symbolizing(f), t)[j] by {
                assert(out@[j].deep_view() == renaming::map_expr(
                    wire::symbolizing(f),
                    t[j],
                ));
            }
            assert(out.deep_view() =~= renaming::map_exprs(wire::symbolizing(f), t));
        }
    }
    Ok(out)
}

fn read_stmts(
    v: &Vec<NetActionStmt>,
    interner: &mut Interner,
) -> (r: Result<Vec<ActionStmt>, Error>)
    ensures
        final(interner)@ == interner::interned_all(
            old(interner)@,
            wire::concat_all(wire::stmt_logs(v.deep_view())).names,
        ),
        wire::stopped(r, wire::concat_all(wire::stmt_logs(v.deep_view()))),
        r matches Ok(y) ==> forall|f: Seq<Seq<char>>| #[trigger]
            wire::extends(f, final(interner)@) ==> y.deep_view() == renaming::map_stmts(
                wire::symbolizing(f),
                v.deep_view(),
            ),
    decreases v,
{
    broadcast use {wire::lemma_extends_trans, wire::group_lists};

    let ghost n0 = interner@;
    let ghost t = v.deep_view();
    let ghost logs = wire::stmt_logs(t);
    let mut out: Vec<ActionStmt> = Vec::new();
    for i in 0..v.len()
        invariant
            t == v.deep_view(),
            n0 == old(interner)@,
            logs == wire::stmt_logs(t),
            interner@ == interner::interned_all(n0, wire::concat(logs, i as nat).names),
            wire::concat(logs, i as nat).err is None,
            out@.len() == i,
            forall|f: Seq<Seq<char>>, j: int|
                #![trigger wire::extends(f, interner@), out@[j]]
                0 <= j < i && wire::extends(f, interner@) ==> out@[j].deep_view() == renaming::map_stmt(
                    wire::symbolizing(f),
                    t[j],
                ),
    {
        broadcast use {wire::lemma_extends_trans, wire::group_lists};

        assert(decreases_to!(v => v@[i as int]));
        let ghost n1 = interner@;
        let ghost done = wire::concat(logs, i as nat);
        match read_stmt(&v[i], interner) {
            Ok(x) => {
                out.push(x);
            },
            Err(e) => {
                proof {
                    wire::lemma_step(n0, done, logs[i as int]);
                    wire::lemma_concat_stops(logs, (i + 1) as nat, logs.len());
                }
                return Err(e);
            },
        }
        proof {
            wire::lemma_step(n0, done, logs[i as int]);
            assert(wire::extends(interner@, n1));
        }
    }
    proof {
        assert forall|f: Seq<Seq<char>>| #[trigger] wire::extends(f, interner@) implies out.deep_view()
            == renaming::map_stmts(wire::symbolizing(f), t) by {
            assert forall|j: int| 0 <= j < t.len() implies out.deep_view()[j]
                == renaming::map_stmts(wire::symbolizing(f), t)[j] by {
                assert(out@[j].deep_view() == renaming::map_stmt(
                    wire::symbolizing(f),
                    t[j],
                ));
            }
            assert(out.deep_view() =~= renaming::map_stmts(wire::symbolizing(f), t));
        }
    }
    Ok(out)
}

fn read_env(
    v: &Vec<(String, NetValue)>,
    interner: &mut Interner,
) -> (r: Result<Vec<(Symbol, Value)>, Error>)
    ensures
        final(interner)@ == interner::interned_all(
            old(interner)@,
            wire::concat_all(wire::env_logs(v.deep_view())).names,
        ),
        wire::stopped(r, wire::concat_all(wire::env_logs(v.deep_view()))),
        r matches Ok(y) ==> forall|f: Seq<Seq<char>>| #[trigger]
            wire::extends(f, final(interner)@) ==> y.deep_view() == renaming::map_env(
                wire::symbolizing(f),
                v.deep_view(),
            ),
    decreases v,
{
    broadcast use {wire::lemma_extends_trans, wire::group_lists};

    let ghost n0 = interner@;
    let ghost t = v.deep_view();
    let ghost logs = wire::env_logs(t);
    let mut out: Vec<(Symbol, Value)> = Vec::new();
    for i in 0..v.len()
        invariant
            t == v.deep_view(),
            n0 == old(interner)@,
            logs == wire::env_logs(t),
            interner@ == interner::interned_all(n0, wire::concat(logs, i as nat).names),
            wire::concat(logs, i as nat).err is None,
            out@.len() == i,
            forall|f: Seq<Seq<char>>, j: int|
                #![trigger wire::extends(f, interner@), out@[j]]
                0 <= j < i && wire::extends(f, interner@) ==> out@[j].deep_view() == (
                    interner::symbol_of(f, t[j].0),
                    renaming::map_value(wire::symbolizing(f), t[j].1),
                ),
    {
        broadcast use {wire::lemma_extends_trans, wire::group_lists};

        assert(decreases_to!(v => v@[i as int]));
        assert(decreases_to!(v@[i as int] => v@[i as int].1));
        let ghost n1 = interner@;
        let ghost done = wire::concat(logs, i as nat);
        let ghost key = t[i as int].0;
        let ghost part = wire::check(key).and(wire::Log::one(key));
        match validate_identifier(v[i].0.as_str()) {
            Ok(_) => {},
            Err(e) => {
                proof {
                    wire::lemma_step(n0, done, logs[i as int]);
                    wire::lemma_concat_stops(logs, (i + 1) as nat, logs.len());
                }
                return Err(e);
            },
        }
        proof {
            assert(part.names =~= wire::Log::one(key).names);
        }
        let k = read_name(&v[i].0, interner);
        let ghost n2 = interner@;
        proof {
            wire::lemma_step(n1, part, wire::value_log(t[i as int].1));
        }
        match read_value(&v[i].1, interner) {
            Ok(x) => {
                out.push((k, x));
            },
            Err(e) => {
                proof {
                    wire::lemma_step(n0, done, logs[i as int]);
                    wire::lemma_concat_stops(logs, (i + 1) as nat, logs.len());
                }
                return Err(e);
            },
        }
        proof {
            assert(wire::extends(interner@, n2));
        }
        proof {
            wire::lemma_step(n0, done, logs[i as int]);
            assert(wire::extends(interner@, n1));
        }
    }
    proof {
        assert forall|f: Seq<Seq<char>>| #[trigger] wire::extends(f, interner@) implies out.deep_view()
            == renaming::map_env(wire::symbolizing(f), t) by {
            assert forall|j: int| 0 <= j < t.len() implies out.deep_view()[j]
                == renaming::map_env(wire::symbolizing(f), t)[j] by {
                assert(out@[j].deep_view() == (
                    interner::symbol_of(f, t[j].0),
                    renaming::map_value(wire::symbolizing(f), t[j].1),
                ));
            }
            assert(out.deep_view() =~= renaming::map_env(wire::symbolizing(f), t));
        }
    }
    Ok(out)
}

/// The value that a wire form stands for; its names are interned. Fails at the first
/// limit that it breaks, and then the names before that place have been interned.
pub fn decode_value(x: NetValue, interner: &mut Interner) -> (r: Result<Value, Error>)
    ensures
        final(interner)@ == interner::interned_all(
            old(interner)@,
            wire::value_log(x.deep_view()).names,
        ),
        wire::outcome(
            r,
            wire::value_log(x.deep_view()),
            renaming::map_value(wire::symbolizing(final(interner)@), x.deep_view()),
        ),
{
    let r = read_value(&x, interner);
    proof {
        wire::lemma_extends_self(interner@);
    }
    r
}

/// The expression that a wire form stands for; its names are interned. Fails at the first
/// limit that it breaks, and then the names before that place have been interned.
pub fn decode_expr(x: NetExpr, interner: &mut Interner) -> (r: Result<Expr, Error>)
    ensures
        final(interner)@ == interner::interned_all(
            old(interner)@,
            wire::expr_log(x.deep_view()).names,
        ),
        wire::outcome(
            r,
            wire::expr_log(x.deep_view()),
            renaming::map_expr(wire::symbolizing(final(interner)@), x.deep_view()),
        ),
{
    let r = read_expr(&x, interner);
    proof {
        wire::lemma_extends_self(interner@);
    }
    r
}

/// The statement that a wire form stands for; its names are interned. Fails at the first
/// limit that it breaks, and then the names before that place have been interned.
pub fn decode_action_stmt(
    x: NetActionStmt,
    interner: &mut Interner,
) -> (r: Result<ActionStmt, Error>)
    ensures
        final(interner)@ == interner::interned_all(
            old(interner)@,
            wire::stmt_log(x.deep_view()).names,
        ),
        wire::outcome(
            r,
            wire::stmt_log(x.deep_view()),
            renaming::map_stmt(wire::symbolizing(final(interner)@), x.deep_view()),
        ),
{
    let r = read_stmt(&x, interner);
    proof {
        wire::lemma_extends_self(interner@);
    }
    r
}

/// Reads the bindings of an action: each value, and then its name.
fn read_bound(v: &Vec<(String, NetValue)>, interner: &mut Interner) -> (r: Result<
    Vec<(Symbol, Value)>,
    Error,
>)
    ensures
        final(interner)@ == interner::interned_all(
            old(interner)@,
            wire::concat_all(wire::bound_logs(v.deep_view())).names,
        ),
        wire::stopped(r, wire::concat_all(wire::bound_logs(v.deep_view()))),
        r matches Ok(y) ==> forall|f: Seq<Seq<char>>| #[trigger]
            wire::extends(f, final(interner)@) ==> y.deep_view() == renaming::map_env(
                wire::symbolizing(f),
                v.deep_view(),
            ),
{
    broadcast use {wire::lemma_extends_trans, wire::group_lists};

    let ghost n0 = interner@;
    let ghost t = v.deep_view();
    let ghost logs = wire::bound_logs(t);
    let mut out: Vec<(Symbol, Value)> = Vec::new();
    for i in 0..v.len()
        invariant
            t == v.deep_view(),
            n0 == old(interner)@,
            logs == wire::bound_logs(t),
            interner@ == interner::interned_all(n0, wire::concat(logs, i as nat).names),
            wire::concat(logs, i as nat).err is None,
            out@.len() == i,
            forall|f: Seq<Seq<char>>, j: int|
                #![trigger wire::extends(f, interner@), out@[j]]
                0 <= j < i && wire::extends(f, interner@) ==> out@[j].deep_view() == (
                    interner::symbol_of(f, t[j].0),
                    renaming::map_value(wire::symbolizing(f), t[j].1),
                ),
    {
        broadcast use {wire::lemma_extends_trans, wire::group_lists};

        let ghost n1 = interner@;
        let ghost done = wire::concat(logs, i as nat);
        let ghost part = wire::value_log(t[i as int].1);
        let ghost key = t[i as int].0;
        assert(logs[i as int] == part.and(wire::Log::one(key)));
        let x = match read_value(&v[i].1, interner) {
            Ok(x) => x,
            Err(e) => {
                proof {
                    wire::lemma_step(n0, done, logs[i as int]);
                    wire::lemma_concat_stops(logs, (i + 1) as nat, logs.len());
                }
                return Err(e);
            },
        };
        let ghost n2 = interner@;
        let k = read_name(&v[i].0, interner);
        out.push((k, x));
        proof {
            wire::lemma_step(n1, part, wire::Log::one(key));
            wire::lemma_step(n0, done, logs[i as int]);
            assert(wire::extends(interner@, n2));
            assert(wire::extends(interner@, n1));
        }
    }
    proof {
        assert forall|f: Seq<Seq<char>>| #[trigger] wire::extends(f, interner@) implies out.deep_view()
            == renaming::map_env(wire::symbolizing(f), t) by {
            assert forall|j: int| 0 <= j < t.len() implies out.deep_view()[j]
                == renaming::map_env(wire::symbolizing(f), t)[j] by {
                assert(out@[j].deep_view() == (
                    interner::symbol_of(f, t[j].0),
                    renaming::map_value(wire::symbolizing(f), t[j].1),
                ));
            }
            assert(out.deep_view() =~= renaming::map_env(wire::symbolizing(f), t));
        }
    }
    Ok(out)
}

/// The statements and the bindings of an action that comes off the wire; their
/// names are interned.
pub fn decode_action(
    stmts: &Vec<NetActionStmt>,
    env: &Vec<(String, NetValue)>,
    interner: &mut Interner,
) -> (r: Result<(Vec<ActionStmt>, Vec<(Symbol, Value)>), Error>)
    ensures
        final(interner)@ == interner::interned_all(
            old(interner)@,
            wire::request_log(stmts.deep_view(), env.deep_view()).names,
        ),
        wire::stopped(r, wire::request_log(stmts.deep_view(), env.deep_view())),
        r matches Ok((s, e)) ==> s.deep_view() == renaming::map_stmts(
            wire::symbolizing(final(interner)@),
            stmts.deep_view(),
        ) && e.deep_view() == renaming::map_env(
            wire::symbolizing(final(interner)@),
            env.deep_view(),
        ),
{
    let ghost n0 = interner@;
    let ghost first = wire::concat_all(wire::stmt_logs(stmts.deep_view()));
    let ghost next = wire::concat_all(wire::bound_logs(env.deep_view()));
    let s = match read_stmts(stmts, interner) {
        Ok(s) => s,
        Err(e) => {
            return Err(e);
        },
    };
    proof {
        wire::lemma_step(n0, first, next);
    }
    match read_bound(env, interner) {
        Ok(e) => {
            proof {
                wire::lemma_extends_self(interner@);
            }
            Ok((s, e))
        },
        Err(e) => Err(e),
    }
}

/// Three names that come off the wire are tested and then interned.
fn decode_three(a: &String, b: &String, c: &String, interner: &mut Interner) -> (r: Result<
    (Symbol, Symbol, Symbol),
    Error,
>)
    ensures
        final(interner)@ == interner::interned_all(
            old(interner)@,
            wire::three_log(a@, b@, c@).names,
        ),
        wire::stopped(r, wire::three_log(a@, b@, c@)),
        r matches Ok((x, y, z)) ==> x == interner::symbol_of(final(interner)@, a@) && y
            == interner::symbol_of(final(interner)@, b@) && z == interner::symbol_of(
            final(interner)@,
            c@,
        ),
{
    match validate_identifier(a.as_str()) {
        Ok(_) => {},
        Err(e) => {
            return Err(e);
        },
    }
    match validate_identifier(b.as_str()) {
        Ok(_) => {},
        Err(e) => {
            return Err(e);
        },
    }
    match validate_identifier(c.as_str()) {
        Ok(_) => {},
        Err(e) => {
            return Err(e);
        },
    }
    let ghost n0 = interner@;
    let mut names: Vec<String> = Vec::new();
    names.push(a.clone());
    names.push(b.clone());
    names.push(c.clone());
    proof {
        assert(names.deep_view() =~= seq![a@, b@, c@]);
        assert(wire::three_log(a@, b@, c@).names =~= seq![a@, b@, c@]);
    }
    let syms = read_names(&names, interner);
    proof {
        wire::lemma_extends_self(interner@);
        let m = renaming::map_names(wire::symbolizing(interner@), names.deep_view());
        assert(syms.deep_view() == m);
        assert(syms.deep_view().len() == 3);
        assert(
            syms.deep_view()[0] == m[0]
                && syms.deep_view()[1] == m[1]
                && syms.deep_view()[2] == m[2]
        );
    }
    Ok((syms[0], syms[1], syms[2]))
}

/// The service, the member and the listening definition of a subscription.
pub fn decode_request_updates(
    service: &String,
    member: &String,
    listener_def: &String,
    interner: &mut Interner,
) -> (r: Result<(Symbol, Symbol, Symbol), Error>)
    ensures
        final(interner)@ == interner::interned_all(
            old(interner)@,
            wire::three_log(service@, member@, listener_def@).names,
        ),
        wire::stopped(r, wire::three_log(service@, member@, listener_def@)),
        r matches Ok((x, y, z)) ==> x == interner::symbol_of(final(interner)@, service@) && y
            == interner::symbol_of(final(interner)@, member@) && z == interner::symbol_of(
            final(interner)@,
            listener_def@,
        ),
{
    decode_three(service, member, listener_def, interner)
}

/// The listening definition, the source service and the member of an update.
pub fn decode_update(
    listener_def: &String,
    source_service: &String,
    member: &String,
    interner: &mut Interner,
) -> (r: Result<(Symbol, Symbol, Symbol), Error>)
    ensures
        final(interner)@ == interner::interned_all(
            old(interner)@,
            wire::three_log(listener_def@, source_service@, member@).names,
        ),
        wire::stopped(r, wire::three_log(listener_def@, source_service@, member@)),
        r matches Ok((x, y, z)) ==> x == interner::symbol_of(final(interner)@, listener_def@) && y
            == interner::symbol_of(final(interner)@, source_service@) && z == interner::symbol_of(
            final(interner)@,
            member@,
        ),
{
    decode_three(listener_def, source_service, member, interner)
}

} // verus!
