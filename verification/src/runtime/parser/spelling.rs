//! How syntax trees are written as tokens.
//!
//! What is said here does not follow the way the parser goes: it says of every
//! tree which tokens spell it. Brackets are written just where the parts of an
//! expression would not hold together without them.

use crate::runtime::ast::model::{
    ActionStmtM, BinOpM, DeclM, ExprM, FieldM, StmtM, TableTypeM, UnOpM, ValueM,
};
use crate::runtime::interner;
use crate::runtime::interner::Symbol;
use crate::runtime::parser::grammar::{tok, Names, SourceM};
use crate::runtime::parser::token::TokenM;
use crate::runtime::tt::{ParamM, TypeM};
use vstd::prelude::*;

verus! {

/// How tightly a binary operator holds its operands together: `||` the least,
/// `*` and `/` the most.
pub open spec fn strength(op: BinOpM) -> nat {
    match op {
        BinOpM::Or => 1,
        BinOpM::And => 2,
        BinOpM::Eq => 3,
        BinOpM::Lt => 4,
        BinOpM::Gt => 4,
        BinOpM::Add => 5,
        BinOpM::Sub => 5,
        BinOpM::Mul => 6,
        BinOpM::Div => 6,
    }
}

/// The sign of a binary operator.
pub open spec fn sign(op: BinOpM) -> TokenM {
    match op {
        BinOpM::Or => TokenM::OR_OR,
        BinOpM::And => TokenM::AND_AND,
        BinOpM::Eq => TokenM::EQ_EQ,
        BinOpM::Lt => TokenM::LT,
        BinOpM::Gt => TokenM::GT,
        BinOpM::Add => TokenM::Plus,
        BinOpM::Sub => TokenM::Minus,
        BinOpM::Mul => TokenM::Asterisk,
        BinOpM::Div => TokenM::Div,
    }
}

/// The sign of a unary operator.
pub open spec fn prefix(op: UnOpM) -> TokenM {
    match op {
        UnOpM::Neg => TokenM::Minus,
        UnOpM::Not => TokenM::NOT_NOT,
    }
}

/// How tightly the parts of an expression hold together. Conditionals, functions
/// and selections go on as far as they can.
pub open spec fn grip(e: ExprM<Symbol>) -> nat {
    match e {
        ExprM::If { .. } => 0,
        ExprM::Func { .. } => 0,
        ExprM::Select { .. } => 0,
        ExprM::Binop { op, .. } => strength(op),
        ExprM::Unop { .. } => 7,
        ExprM::Call { .. } => 8,
        _ => 9,
    }
}

/// Whether a name is known, and its symbol is the one that it is found under.
pub open spec fn known(names: Names, s: Symbol) -> bool {
    s.id < names.len() && interner::symbol_of(names, names[s.id as int]) == s
}

/// A name stands at a place.
pub open spec fn spells_name(src: SourceM, names: Names, i: nat, s: Symbol) -> bool {
    known(names, s) && tok(src, i) == Some(TokenM::Ident(names[s.id as int]))
}

/// A type stands at a place.
pub open spec fn spells_type(src: SourceM, i: nat, t: TypeM) -> bool {
    match t {
        TypeM::Int => tok(src, i) == Some(TokenM::NUMBER_KW),
        TypeM::String => tok(src, i) == Some(TokenM::STRING_KW),
        TypeM::Bool => tok(src, i) == Some(TokenM::BOOL_KW),
        _ => false,
    }
}

/// How many tokens a type takes with its colon, where there is one.
pub open spec fn type_width(t: Option<TypeM>) -> nat {
    match t {
        Some(_) => 2,
        None => 0,
    }
}

/// A colon and a type stand at a place, where there is a type. Without one there
/// is no colon.
pub open spec fn spells_type_opt(src: SourceM, i: nat, t: Option<TypeM>) -> bool {
    match t {
        Some(t) => tok(src, i) == Some(TokenM::Colon) && spells_type(src, i + 1, t),
        None => tok(src, i) != Some(TokenM::Colon),
    }
}

/// How many tokens the first `n` parameters take, each with what comes behind it.
pub open spec fn params_width(v: Seq<ParamM<Symbol>>, n: nat) -> nat
    decreases n,
{
    if n == 0 || n > v.len() {
        0
    } else {
        params_width(v, (n - 1) as nat) + 2 + type_width(v[n - 1].ty)
    }
}

/// The first `n` parameters stand at a place, with commas between them and a
/// closing bracket behind the last of all.
pub open spec fn spells_params(
    src: SourceM,
    names: Names,
    i: nat,
    v: Seq<ParamM<Symbol>>,
    n: nat,
) -> bool
    decreases n,
{
    if n == 0 || n > v.len() {
        true
    } else {
        let at = i + params_width(v, (n - 1) as nat);
        &&& spells_params(src, names, i, v, (n - 1) as nat)
        &&& spells_name(src, names, at, v[n - 1].name)
        &&& spells_type_opt(src, at + 1, v[n - 1].ty)
        &&& tok(src, at + 1 + type_width(v[n - 1].ty)) == Some(
            if n == v.len() {
                TokenM::RParen
            } else {
                TokenM::Comma
            },
        )
    }
}

/// How many tokens the parameters of a function take with the closing bracket.
pub open spec fn signature_width(v: Seq<ParamM<Symbol>>) -> nat {
    if v.len() == 0 {
        1
    } else {
        params_width(v, v.len())
    }
}

/// The parameters of a function stand at a place, with the closing bracket.
pub open spec fn spells_signature(
    src: SourceM,
    names: Names,
    i: nat,
    v: Seq<ParamM<Symbol>>,
) -> bool {
    if v.len() == 0 {
        tok(src, i) == Some(TokenM::RParen)
    } else {
        spells_params(src, names, i, v, v.len())
    }
}

/// Names stand at a place, with commas between them and `from` behind the last.
pub open spec fn spells_columns(src: SourceM, names: Names, i: nat, v: Seq<Symbol>) -> bool {
    v.len() > 0 && forall|m: int|
        0 <= m < v.len() ==> {
            &&& spells_name(src, names, (i + 2 * m) as nat, #[trigger] v[m])
            &&& tok(src, (i + 2 * m + 1) as nat) == Some(
                if m == v.len() - 1 {
                    TokenM::FROM_KW
                } else {
                    TokenM::Comma
                },
            )
        }
}

/// How many tokens an expression takes, outer brackets aside.
pub open spec fn bare_width(e: ExprM<Symbol>) -> nat
    decreases e, 0nat, 0nat,
{
    match e {
        ExprM::MemberAccess { .. } => 3,
        ExprM::Unop { op, expr } => 1 + width(*expr, 7),
        ExprM::Binop { op, expr1, expr2 } => width(*expr1, strength(op)) + 1 + width(
            *expr2,
            strength(op) + 1,
        ),
        ExprM::If { cond, expr1, expr2 } => 3 + width(*cond, 0) + width(*expr1, 0) + width(
            *expr2,
            0,
        ),
        ExprM::Func { params, body, return_ty } => 3 + signature_width(params) + type_width(
            return_ty,
        ) + width(*body, 0),
        ExprM::Call { func, args } => width(*func, 8) + 1 + items_width(args),
        ExprM::Tuple { val } => if val.len() > 0 && val[0] is KeyVal {
            1 + entries_width(val, val.len())
        } else {
            1 + items_width(val)
        },
        ExprM::Action(stmts) => 3 + block_width(stmts, stmts.len()),
        ExprM::Select { table_name, column_names, where_clause } => 3 + 2 * column_names.len()
            + width(*where_clause, 0),
        ExprM::Fold { table_name, column_name, operation, identity } => 8 + width(*operation, 0)
            + width(*identity, 0),
        _ => 1,
    }
}

/// How many tokens an expression takes where its parts are to hold together at
/// least as tightly as `k`.
pub open spec fn width(e: ExprM<Symbol>, k: nat) -> nat
    decreases e, 1nat, 0nat,
{
    if grip(e) >= k {
        bare_width(e)
    } else {
        bare_width(e) + 2
    }
}

/// How many tokens the first `n` expressions take, each with what comes behind
/// it.
pub open spec fn list_width(v: Seq<ExprM<Symbol>>, n: nat) -> nat
    decreases v, n, 0nat,
{
    if n == 0 || n > v.len() {
        0
    } else {
        list_width(v, (n - 1) as nat) + width(v[n - 1], 0) + 1
    }
}

/// How many tokens expressions take with what closes the list.
pub open spec fn items_width(v: Seq<ExprM<Symbol>>) -> nat
    decreases v, v.len() + 1, 0nat,
{
    if v.len() == 0 {
        1
    } else {
        list_width(v, v.len())
    }
}

/// How many tokens the first `n` named entries take, each with what comes behind
/// it.
pub open spec fn entries_width(v: Seq<ExprM<Symbol>>, n: nat) -> nat
    decreases v, n, 0nat,
{
    if n == 0 || n > v.len() {
        0
    } else {
        entries_width(v, (n - 1) as nat) + (match v[n - 1] {
            ExprM::KeyVal { name, value } => width(*value, 0) + 3,
            _ => 0,
        })
    }
}

/// How many tokens a statement takes.
pub open spec fn stmt_width(s: ActionStmtM<Symbol>) -> nat
    decreases s, 0nat, 0nat,
{
    match s {
        ActionStmtM::Let { name, ty, expr } => 4 + type_width(ty) + width(expr, 0),
        ActionStmtM::Expr(e) => width(e, 0) + 1,
        ActionStmtM::Do(e) => width(e, 0) + 2,
        ActionStmtM::Assert(e, text) => width(e, 0) + 4,
        ActionStmtM::Assign { name, expr } => width(expr, 0) + 3,
        ActionStmtM::Insert { row, table_name } => width(row, 0) + 4,
    }
}

/// How many tokens the first `n` statements take.
pub open spec fn block_width(v: Seq<ActionStmtM<Symbol>>, n: nat) -> nat
    decreases v, n, 0nat,
{
    if n == 0 || n > v.len() {
        0
    } else {
        block_width(v, (n - 1) as nat) + stmt_width(v[n - 1])
    }
}

/// An expression stands at a place, outer brackets aside.
pub open spec fn spells_bare(src: SourceM, names: Names, i: nat, e: ExprM<Symbol>) -> bool
    decreases e, 0nat, 0nat,
{
    match e {
        ExprM::Literal { val } => match val {
            ValueM::Int { val } => tok(src, i) == Some(TokenM::Number(val)),
            ValueM::Bool { val } => tok(src, i) == Some(
                if val {
                    TokenM::TRUE
                } else {
                    TokenM::FALSE
                },
            ),
            ValueM::String { val } => tok(src, i) == Some(TokenM::StrLit(val)),
            _ => false,
        },
        ExprM::Variable { name } => spells_name(src, names, i, name),
        ExprM::MemberAccess { service_name, member_name } => {
            &&& spells_name(src, names, i, service_name)
            &&& tok(src, i + 1) == Some(TokenM::Dot)
            &&& spells_name(src, names, i + 2, member_name)
        },
        ExprM::Unop { op, expr } => {
            &&& tok(src, i) == Some(prefix(op))
            &&& spells(src, names, i + 1, *expr, 7)
        },
        ExprM::Binop { op, expr1, expr2 } => {
            let j = i + width(*expr1, strength(op));
            &&& spells(src, names, i, *expr1, strength(op))
            &&& tok(src, j) == Some(sign(op))
            &&& spells(src, names, j + 1, *expr2, strength(op) + 1)
        },
        ExprM::If { cond, expr1, expr2 } => {
            let j = i + 1 + width(*cond, 0);
            let k = j + 1 + width(*expr1, 0);
            &&& tok(src, i) == Some(TokenM::IF_KW)
            &&& spells(src, names, i + 1, *cond, 0)
            &&& tok(src, j) == Some(TokenM::THEN_KW)
            &&& spells(src, names, j + 1, *expr1, 0)
            &&& tok(src, k) == Some(TokenM::ELSE_KW)
            &&& spells(src, names, k + 1, *expr2, 0)
        },
        ExprM::Func { params, body, return_ty } => {
            let j = i + 2 + signature_width(params);
            let k = j + type_width(return_ty);
            &&& tok(src, i) == Some(TokenM::FN_KW)
            &&& tok(src, i + 1) == Some(TokenM::LParen)
            &&& spells_signature(src, names, i + 2, params)
            &&& spells_type_opt(src, j, return_ty)
            &&& tok(src, k) == Some(TokenM::Fn_Assgn)
            &&& spells(src, names, k + 1, *body, 0)
        },
        ExprM::Call { func, args } => {
            let j = i + width(*func, 8);
            &&& spells(src, names, i, *func, 8)
            &&& tok(src, j) == Some(TokenM::LParen)
            &&& spells_items(src, names, j + 1, args, TokenM::RParen)
        },
        ExprM::Tuple { val } => if val.len() > 0 && val[0] is KeyVal {
            &&& tok(src, i) == Some(TokenM::LBrace)
            &&& spells_entries(src, names, i + 1, val, val.len())
        } else {
            &&& tok(src, i) == Some(TokenM::LSquare)
            &&& spells_items(src, names, i + 1, val, TokenM::RSquare)
        },
        ExprM::Action(stmts) => {
            &&& tok(src, i) == Some(TokenM::ACTION_KW)
            &&& tok(src, i + 1) == Some(TokenM::LBrace)
            &&& spells_block(src, names, i + 2, stmts, stmts.len())
            &&& tok(src, i + 2 + block_width(stmts, stmts.len())) == Some(TokenM::RBrace)
        },
        ExprM::Select { table_name, column_names, where_clause } => {
            let j = i + 1 + 2 * column_names.len();
            &&& tok(src, i) == Some(TokenM::SELECT_KW)
            &&& spells_columns(src, names, i + 1, column_names)
            &&& spells_name(src, names, j, table_name)
            &&& tok(src, j + 1) == Some(TokenM::WHERE_KW)
            &&& spells(src, names, j + 2, *where_clause, 0)
        },
        ExprM::Fold { table_name, column_name, operation, identity } => {
            let j = i + 6 + width(*operation, 0);
            &&& tok(src, i) == Some(TokenM::FOLD_KW)
            &&& tok(src, i + 1) == Some(TokenM::LParen)
            &&& spells_name(src, names, i + 2, table_name)
            &&& tok(src, i + 3) == Some(TokenM::Dot)
            &&& spells_name(src, names, i + 4, column_name)
            &&& tok(src, i + 5) == Some(TokenM::Comma)
            &&& spells(src, names, i + 6, *operation, 0)
            &&& tok(src, j) == Some(TokenM::Comma)
            &&& spells(src, names, j + 1, *identity, 0)
            &&& tok(src, j + 1 + width(*identity, 0)) == Some(TokenM::RParen)
        },
        _ => false,
    }
}

/// An expression stands at a place where its parts are to hold together at least
/// as tightly as `k`; it is in brackets where they do not.
pub open spec fn spells(src: SourceM, names: Names, i: nat, e: ExprM<Symbol>, k: nat) -> bool
    decreases e, 1nat, 0nat,
{
    if grip(e) >= k {
        spells_bare(src, names, i, e)
    } else {
        &&& tok(src, i) == Some(TokenM::LParen)
        &&& spells_bare(src, names, i + 1, e)
        &&& tok(src, i + 1 + bare_width(e)) == Some(TokenM::RParen)
    }
}

/// The first `n` expressions stand at a place, with commas between them and the
/// token `close` behind the last of all.
pub open spec fn spells_list(
    src: SourceM,
    names: Names,
    i: nat,
    v: Seq<ExprM<Symbol>>,
    close: TokenM,
    n: nat,
) -> bool
    decreases v, n, 0nat,
{
    if n == 0 || n > v.len() {
        true
    } else {
        let at = i + list_width(v, (n - 1) as nat);
        &&& spells_list(src, names, i, v, close, (n - 1) as nat)
        &&& spells(src, names, at, v[n - 1], 0)
        &&& tok(src, at + width(v[n - 1], 0)) == Some(
            if n == v.len() {
                close
            } else {
                TokenM::Comma
            },
        )
    }
}

/// Expressions stand at a place, with what closes the list.
pub open spec fn spells_items(
    src: SourceM,
    names: Names,
    i: nat,
    v: Seq<ExprM<Symbol>>,
    close: TokenM,
) -> bool
    decreases v, v.len() + 1, 0nat,
{
    if v.len() == 0 {
        tok(src, i) == Some(close)
    } else {
        spells_list(src, names, i, v, close, v.len())
    }
}

/// The first `n` named entries stand at a place, with commas between them and a
/// closing brace behind the last of all.
pub open spec fn spells_entries(
    src: SourceM,
    names: Names,
    i: nat,
    v: Seq<ExprM<Symbol>>,
    n: nat,
) -> bool
    decreases v, n, 0nat,
{
    if n == 0 || n > v.len() {
        true
    } else {
        let at = i + entries_width(v, (n - 1) as nat);
        &&& spells_entries(src, names, i, v, (n - 1) as nat)
        &&& match v[n - 1] {
            ExprM::KeyVal { name, value } => {
                &&& spells_name(src, names, at, name)
                &&& tok(src, at + 1) == Some(TokenM::Colon)
                &&& spells(src, names, at + 2, *value, 0)
                &&& tok(src, at + 2 + width(*value, 0)) == Some(
                    if n == v.len() {
                        TokenM::RBrace
                    } else {
                        TokenM::Comma
                    },
                )
            },
            _ => false,
        }
    }
}

/// A statement stands at a place. The text of an assertion is what stands
/// between its brackets.
pub open spec fn spells_stmt(
    src: SourceM,
    names: Names,
    i: nat,
    s: ActionStmtM<Symbol>,
) -> bool
    decreases s, 0nat, 0nat,
{
    match s {
        ActionStmtM::Let { name, ty, expr } => {
            let j = i + 2 + type_width(ty);
            &&& tok(src, i) == Some(TokenM::LET_KW)
            &&& spells_name(src, names, i + 1, name)
            &&& spells_type_opt(src, i + 2, ty)
            &&& tok(src, j) == Some(TokenM::Assgn)
            &&& spells(src, names, j + 1, expr, 0)
            &&& tok(src, j + 1 + width(expr, 0)) == Some(TokenM::Semicolon)
        },
        ActionStmtM::Expr(e) => {
            &&& spells(src, names, i, e, 0)
            &&& tok(src, i + width(e, 0)) == Some(TokenM::Semicolon)
        },
        ActionStmtM::Do(e) => {
            &&& tok(src, i) == Some(TokenM::DO_KW)
            &&& spells(src, names, i + 1, e, 0)
            &&& tok(src, i + 1 + width(e, 0)) == Some(TokenM::Semicolon)
        },
        ActionStmtM::Assert(e, text) => {
            let j = i + 2 + width(e, 0);
            &&& tok(src, i) == Some(TokenM::ASSERT_KW)
            &&& tok(src, i + 1) == Some(TokenM::LParen)
            &&& spells(src, names, i + 2, e, 0)
            &&& tok(src, j) == Some(TokenM::RParen)
            &&& tok(src, j + 1) == Some(TokenM::Semicolon)
            &&& text == src.chars.subrange(
                src.toks[i + 2int].start as int,
                src.toks[j - 1].end as int,
            )
            &&& crate::runtime::text::byte_len(text)
                <= crate::runtime::limits::MAX_STRING_LITERAL_LENGTH
        },
        ActionStmtM::Assign { name, expr } => {
            &&& spells_name(src, names, i, name)
            &&& tok(src, i + 1) == Some(TokenM::Assgn)
            &&& spells(src, names, i + 2, expr, 0)
            &&& tok(src, i + 2 + width(expr, 0)) == Some(TokenM::Semicolon)
        },
        ActionStmtM::Insert { row, table_name } => {
            let j = i + 1 + width(row, 0);
            &&& tok(src, i) == Some(TokenM::INSERT_KW)
            &&& spells(src, names, i + 1, row, 0)
            &&& tok(src, j) == Some(TokenM::INTO_KW)
            &&& spells_name(src, names, j + 1, table_name)
            &&& tok(src, j + 2) == Some(TokenM::Semicolon)
        },
    }
}

/// The first `n` statements stand at a place, one after the other.
pub open spec fn spells_block(
    src: SourceM,
    names: Names,
    i: nat,
    v: Seq<ActionStmtM<Symbol>>,
    n: nat,
) -> bool
    decreases v, n, 0nat,
{
    if n == 0 || n > v.len() {
        true
    } else {
        &&& spells_block(src, names, i, v, (n - 1) as nat)
        &&& spells_stmt(src, names, i + block_width(v, (n - 1) as nat), v[n - 1])
    }
}

/// The type of a column stands at a place.
pub open spec fn spells_column_type(src: SourceM, i: nat, t: TableTypeM) -> bool {
    match t {
        TableTypeM::Int => tok(src, i) == Some(TokenM::NUMBER_KW),
        TableTypeM::String => tok(src, i) == Some(TokenM::STRING_KW),
        TableTypeM::Bool => tok(src, i) == Some(TokenM::BOOL_KW),
    }
}

/// The columns of a table stand at a place, with commas between them and a
/// closing brace behind the last.
pub open spec fn spells_fields(
    src: SourceM,
    names: Names,
    i: nat,
    v: Seq<FieldM<Symbol>>,
) -> bool {
    if v.len() == 0 {
        tok(src, i) == Some(TokenM::RBrace)
    } else {
        forall|m: int|
            0 <= m < v.len() ==> {
                &&& spells_name(src, names, (i + 4 * m) as nat, (#[trigger] v[m]).name)
                &&& tok(src, (i + 4 * m + 1) as nat) == Some(TokenM::Colon)
                &&& spells_column_type(src, (i + 4 * m + 2) as nat, v[m].ty)
                &&& tok(src, (i + 4 * m + 3) as nat) == Some(
                    if m == v.len() - 1 {
                        TokenM::RBrace
                    } else {
                        TokenM::Comma
                    },
                )
            }
    }
}

/// How many tokens a declaration takes.
pub open spec fn decl_width(d: DeclM<Symbol>) -> nat {
    match d {
        DeclM::VarDecl { name, ty, val } => 4 + type_width(ty) + width(val, 0),
        DeclM::DefDecl { name, ty, val, is_pub } => 4 + type_width(ty) + width(val, 0) + (
        if is_pub {
            1nat
        } else {
            0
        }),
        DeclM::TableDecl { name, fields } => if fields.len() == 0 {
            4
        } else {
            3 + 4 * fields.len()
        },
    }
}

/// A name, perhaps a type, a value and the end stand at a place.
pub open spec fn spells_member(
    src: SourceM,
    names: Names,
    i: nat,
    name: Symbol,
    ty: Option<TypeM>,
    val: ExprM<Symbol>,
) -> bool {
    let j = i + 1 + type_width(ty);
    &&& spells_name(src, names, i, name)
    &&& spells_type_opt(src, i + 1, ty)
    &&& tok(src, j) == Some(TokenM::Assgn)
    &&& spells(src, names, j + 1, val, 0)
    &&& tok(src, j + 1 + width(val, 0)) == Some(TokenM::Semicolon)
}

/// A declaration stands at a place.
pub open spec fn spells_decl(src: SourceM, names: Names, i: nat, d: DeclM<Symbol>) -> bool {
    match d {
        DeclM::VarDecl { name, ty, val } => {
            &&& tok(src, i) == Some(TokenM::VAR_KW)
            &&& spells_member(src, names, i + 1, name, ty, val)
        },
        DeclM::DefDecl { name, ty, val, is_pub } => if is_pub {
            &&& tok(src, i) == Some(TokenM::PUB_KW)
            &&& tok(src, i + 1) == Some(TokenM::DEF_KW)
            &&& spells_member(src, names, i + 2, name, ty, val)
        } else {
            &&& tok(src, i) == Some(TokenM::DEF_KW)
            &&& spells_member(src, names, i + 1, name, ty, val)
        },
        DeclM::TableDecl { name, fields } => {
            &&& tok(src, i) == Some(TokenM::TABLE_KW)
            &&& spells_name(src, names, i + 1, name)
            &&& tok(src, i + 2) == Some(TokenM::LBrace)
            &&& spells_fields(src, names, i + 3, fields)
        },
    }
}

/// How many tokens the first `n` declarations take.
pub open spec fn decls_width(v: Seq<DeclM<Symbol>>, n: nat) -> nat
    decreases n,
{
    if n == 0 || n > v.len() {
        0
    } else {
        decls_width(v, (n - 1) as nat) + decl_width(v[n - 1])
    }
}

/// The first `n` declarations stand at a place, one after the other.
pub open spec fn spells_decls(
    src: SourceM,
    names: Names,
    i: nat,
    v: Seq<DeclM<Symbol>>,
    n: nat,
) -> bool
    decreases n,
{
    if n == 0 || n > v.len() {
        true
    } else {
        &&& spells_decls(src, names, i, v, (n - 1) as nat)
        &&& spells_decl(src, names, i + decls_width(v, (n - 1) as nat), v[n - 1])
    }
}

/// How many tokens a statement of a program takes.
pub open spec fn top_width(s: StmtM<Symbol>) -> nat {
    match s {
        StmtM::ActionStmt(x) => stmt_width(x),
        StmtM::Import { path, service_name, explicit_path } => if explicit_path {
            5
        } else {
            3
        },
        StmtM::Service { name, decls } => 4 + decls_width(decls, decls.len()),
        StmtM::Test { service_name, stmts } => 6 + block_width(stmts, stmts.len()),
        StmtM::Watch { expr } => width(expr, 0) + 2,
        _ => 0,
    }
}

/// A statement of a program stands at a place. A service that is imported without
/// a path is in the file that is named after it.
pub open spec fn spells_top(src: SourceM, names: Names, i: nat, s: StmtM<Symbol>) -> bool {
    match s {
        StmtM::ActionStmt(x) => spells_stmt(src, names, i, x),
        StmtM::Import { path, service_name, explicit_path } => {
            &&& tok(src, i) == Some(TokenM::IMPORT_KW)
            &&& spells_name(src, names, i + 1, service_name)
            &&& if explicit_path {
                &&& tok(src, i + 2) == Some(TokenM::FROM_KW)
                &&& tok(src, i + 3) == Some(TokenM::StrLit(path))
                &&& tok(src, i + 4) == Some(TokenM::Semicolon)
            } else {
                &&& path == names[service_name.id as int] + ".mkt"@
                &&& tok(src, i + 2) == Some(TokenM::Semicolon)
            }
        },
        StmtM::Service { name, decls } => {
            &&& tok(src, i) == Some(TokenM::SERVICE)
            &&& spells_name(src, names, i + 1, name)
            &&& tok(src, i + 2) == Some(TokenM::LBrace)
            &&& spells_decls(src, names, i + 3, decls, decls.len())
            &&& tok(src, i + 3 + decls_width(decls, decls.len())) == Some(TokenM::RBrace)
        },
        StmtM::Test { service_name, stmts } => {
            &&& tok(src, i) == Some(TokenM::TEST_KW)
            &&& tok(src, i + 1) == Some(TokenM::LParen)
            &&& spells_name(src, names, i + 2, service_name)
            &&& tok(src, i + 3) == Some(TokenM::RParen)
            &&& tok(src, i + 4) == Some(TokenM::LBrace)
            &&& spells_block(src, names, i + 5, stmts, stmts.len())
            &&& tok(src, i + 5 + block_width(stmts, stmts.len())) == Some(TokenM::RBrace)
        },
        StmtM::Watch { expr } => {
            &&& tok(src, i) == Some(TokenM::WATCH_KW)
            &&& spells(src, names, i + 1, expr, 0)
            &&& tok(src, i + 1 + width(expr, 0)) == Some(TokenM::Semicolon)
        },
        _ => false,
    }
}

/// How many tokens the first `n` statements of a program take.
pub open spec fn program_width(v: Seq<StmtM<Symbol>>, n: nat) -> nat
    decreases n,
{
    if n == 0 || n > v.len() {
        0
    } else {
        program_width(v, (n - 1) as nat) + top_width(v[n - 1])
    }
}

/// The first `n` statements of a program stand at the beginning, one after the
/// other.
pub open spec fn spells_program(
    src: SourceM,
    names: Names,
    v: Seq<StmtM<Symbol>>,
    n: nat,
) -> bool
    decreases n,
{
    if n == 0 || n > v.len() {
        true
    } else {
        &&& spells_program(src, names, v, (n - 1) as nat)
        &&& spells_top(src, names, program_width(v, (n - 1) as nat), v[n - 1])
    }
}

} // verus!
