//! The grammar of programs.
//!
//! Every function reads from the token at place `i` and gives what it read, the
//! place behind it, and the names that are interned by then, or why it failed.

use crate::runtime::ast::model::{
    ActionStmtM, BinOpM, DeclM, ExprM, FieldM, StmtM, TableTypeM, UnOpM, ValueM,
};
use crate::runtime::interner;
use crate::runtime::interner::Symbol;
use crate::runtime::limits::MAX_STRING_LITERAL_LENGTH;
use crate::runtime::parser::lex::SpannedM;
use crate::runtime::parser::token::TokenM;
use crate::runtime::text;
use crate::runtime::tt::{ParamM, TypeM};
use vstd::prelude::*;

verus! {

/// Interned names.
pub type Names = Seq<Seq<char>>;

/// A program: its tokens and its text.
pub struct SourceM {
    pub toks: Seq<SpannedM>,
    pub chars: Seq<char>,
}

/// Why a text is no program: it ends too early, it has a token in the wrong
/// place, or the text of an assertion is too long.
pub enum FailM {
    Eof,
    At(nat),
    TooLong,
}

/// What was read and the place behind it, or why not; and the names then.
pub type Parsed<T> = (Result<(T, nat), FailM>, Names);

/// The token at a place.
pub open spec fn tok(src: SourceM, i: nat) -> Option<TokenM> {
    if i < src.toks.len() {
        Some(src.toks[i as int].token)
    } else {
        None
    }
}

/// Nothing can stand here.
pub open spec fn failed(src: SourceM, i: nat) -> FailM {
    if i < src.toks.len() {
        FailM::At(i)
    } else {
        FailM::Eof
    }
}

/// A fixed token.
pub open spec fn expect(src: SourceM, i: nat, t: TokenM) -> Result<nat, FailM> {
    if tok(src, i) == Some(t) {
        Ok(i + 1)
    } else {
        Err(failed(src, i))
    }
}

/// How many tokens are left.
pub open spec fn left(src: SourceM, i: nat) -> nat {
    if i < src.toks.len() {
        (src.toks.len() - i) as nat
    } else {
        0
    }
}

/// Whether reading got from `i` to `j`.
pub open spec fn moved_on(src: SourceM, i: nat, j: nat) -> bool {
    i < j <= src.toks.len()
}

/// An identifier.
pub open spec fn ident(src: SourceM, i: nat, names: Names) -> Parsed<Symbol> {
    match tok(src, i) {
        Some(TokenM::Ident(s)) => (
            Ok((interner::symbol_of(interner::interned(names, s), s), i + 1)),
            interner::interned(names, s),
        ),
        _ => (Err(failed(src, i)), names),
    }
}

/// A type.
pub open spec fn ty(src: SourceM, i: nat) -> Result<(TypeM, nat), FailM> {
    match tok(src, i) {
        Some(TokenM::NUMBER_KW) => Ok((TypeM::Int, i + 1)),
        Some(TokenM::STRING_KW) => Ok((TypeM::String, i + 1)),
        Some(TokenM::BOOL_KW) => Ok((TypeM::Bool, i + 1)),
        _ => Err(failed(src, i)),
    }
}

/// A type behind a colon, or nothing.
pub open spec fn ty_opt(src: SourceM, i: nat) -> Result<(Option<TypeM>, nat), FailM> {
    if tok(src, i) == Some(TokenM::Colon) {
        match ty(src, i + 1) {
            Ok((t, j)) => Ok((Some(t), j)),
            Err(f) => Err(f),
        }
    } else {
        Ok((None, i))
    }
}

/// Parameters up to the closing bracket.
pub open spec fn params(src: SourceM, i: nat, names: Names) -> Parsed<Seq<ParamM<Symbol>>> {
    if tok(src, i) == Some(TokenM::RParen) {
        (Ok((seq![], i + 1)), names)
    } else {
        more_params(src, i, seq![], names)
    }
}

/// At least one parameter more, up to the closing bracket.
pub open spec fn more_params(
    src: SourceM,
    i: nat,
    acc: Seq<ParamM<Symbol>>,
    names: Names,
) -> Parsed<Seq<ParamM<Symbol>>>
    decreases left(src, i),
{
    match ident(src, i, names) {
        (Err(f), n1) => (Err(f), n1),
        (Ok((name, j)), n1) => match ty_opt(src, j) {
            Err(f) => (Err(f), n1),
            Ok((t, k)) => {
                let all = acc.push(ParamM { name, ty: t });
                if tok(src, k) == Some(TokenM::Comma) && moved_on(src, i, k) {
                    more_params(src, k + 1, all, n1)
                } else if tok(src, k) == Some(TokenM::RParen) {
                    (Ok((all, k + 1)), n1)
                } else {
                    (Err(failed(src, k)), n1)
                }
            },
        },
    }
}

/// The names of columns, up to `from`.
pub open spec fn columns(src: SourceM, i: nat, acc: Seq<Symbol>, names: Names) -> Parsed<
    Seq<Symbol>,
>
    decreases left(src, i),
{
    match ident(src, i, names) {
        (Err(f), n1) => (Err(f), n1),
        (Ok((name, k)), n1) => {
            let all = acc.push(name);
            if tok(src, k) == Some(TokenM::Comma) && moved_on(src, i, k) {
                columns(src, k + 1, all, n1)
            } else if tok(src, k) == Some(TokenM::FROM_KW) {
                (Ok((all, k + 1)), n1)
            } else {
                (Err(failed(src, k)), n1)
            }
        },
    }
}

/// The type of a column.
pub open spec fn column_ty(src: SourceM, i: nat) -> Result<(TableTypeM, nat), FailM> {
    match tok(src, i) {
        Some(TokenM::NUMBER_KW) => Ok((TableTypeM::Int, i + 1)),
        Some(TokenM::STRING_KW) => Ok((TableTypeM::String, i + 1)),
        Some(TokenM::BOOL_KW) => Ok((TableTypeM::Bool, i + 1)),
        _ => Err(failed(src, i)),
    }
}

/// The columns of a table, up to the closing brace.
pub open spec fn fields(
    src: SourceM,
    i: nat,
    acc: Seq<FieldM<Symbol>>,
    names: Names,
) -> Parsed<Seq<FieldM<Symbol>>>
    decreases left(src, i),
{
    match ident(src, i, names) {
        (Err(f), n1) => (Err(f), n1),
        (Ok((name, j)), n1) => match expect(src, j, TokenM::Colon) {
            Err(f) => (Err(f), n1),
            Ok(j1) => match column_ty(src, j1) {
                Err(f) => (Err(f), n1),
                Ok((t, k)) => {
                    let all = acc.push(FieldM { name, ty: t });
                    if tok(src, k) == Some(TokenM::Comma) && moved_on(src, i, k) {
                        fields(src, k + 1, all, n1)
                    } else if tok(src, k) == Some(TokenM::RBrace) {
                        (Ok((all, k + 1)), n1)
                    } else {
                        (Err(failed(src, k)), n1)
                    }
                },
            },
        },
    }
}

/// The binary operator that a token is, on one of the levels of binding from
/// the loosest to the tightest.
pub open spec fn level_op(k: nat, t: Option<TokenM>) -> Option<BinOpM> {
    match t {
        Some(TokenM::OR_OR) => if k == 0 {
            Some(BinOpM::Or)
        } else {
            None
        },
        Some(TokenM::AND_AND) => if k == 1 {
            Some(BinOpM::And)
        } else {
            None
        },
        Some(TokenM::EQ_EQ) => if k == 2 {
            Some(BinOpM::Eq)
        } else {
            None
        },
        Some(TokenM::LT) => if k == 3 {
            Some(BinOpM::Lt)
        } else {
            None
        },
        Some(TokenM::GT) => if k == 3 {
            Some(BinOpM::Gt)
        } else {
            None
        },
        Some(TokenM::Plus) => if k == 4 {
            Some(BinOpM::Add)
        } else {
            None
        },
        Some(TokenM::Minus) => if k == 4 {
            Some(BinOpM::Sub)
        } else {
            None
        },
        Some(TokenM::Asterisk) => if k == 5 {
            Some(BinOpM::Mul)
        } else {
            None
        },
        Some(TokenM::Div) => if k == 5 {
            Some(BinOpM::Div)
        } else {
            None
        },
        _ => None,
    }
}

/// How many levels of binding the binary operators have.
pub const LEVELS: usize = 6;

/// An expression.
pub open spec fn expr(src: SourceM, i: nat, names: Names) -> Parsed<ExprM<Symbol>> {
    level(src, 0, i, names)
}

/// An expression whose operators bind at least as tightly as level `k`.
#[verifier::opaque]
pub open spec fn level(src: SourceM, k: nat, i: nat, names: Names) -> Parsed<ExprM<Symbol>>
    decreases
        left(src, i),
        if k < LEVELS {
            10 - k
        } else {
            4
        },
{
    if k >= LEVELS {
        unary(src, i, names)
    } else {
        match level(src, k + 1, i, names) {
            (Err(f), n1) => (Err(f), n1),
            (Ok((e, j)), n1) => if moved_on(src, i, j) {
                rest(src, k, e, j, n1)
            } else {
                (Err(failed(src, i)), n1)
            },
        }
    }
}

/// Operators of level `k` behind the operand `e`; they group to the left.
#[verifier::opaque]
pub open spec fn rest(
    src: SourceM,
    k: nat,
    e: ExprM<Symbol>,
    i: nat,
    names: Names,
) -> Parsed<ExprM<Symbol>>
    decreases left(src, i), 11int,
{
    match level_op(k, tok(src, i)) {
        None => (Ok((e, i)), names),
        Some(op) => match level(src, k + 1, i + 1, names) {
            (Err(f), n1) => (Err(f), n1),
            (Ok((e2, j)), n1) => if moved_on(src, i, j) {
                rest(
                    src,
                    k,
                    ExprM::Binop { op, expr1: Box::new(e), expr2: Box::new(e2) },
                    j,
                    n1,
                )
            } else {
                (Err(failed(src, i)), n1)
            },
        },
    }
}

/// An operand, with unary operators in front.
#[verifier::opaque]
pub open spec fn unary(src: SourceM, i: nat, names: Names) -> Parsed<ExprM<Symbol>>
    decreases left(src, i), 3int,
{
    match tok(src, i) {
        Some(TokenM::Minus) => match unary(src, i + 1, names) {
            (Err(f), n1) => (Err(f), n1),
            (Ok((e, j)), n1) => (
                Ok((ExprM::Unop { op: UnOpM::Neg, expr: Box::new(e) }, j)),
                n1,
            ),
        },
        Some(TokenM::NOT_NOT) => match unary(src, i + 1, names) {
            (Err(f), n1) => (Err(f), n1),
            (Ok((e, j)), n1) => (
                Ok((ExprM::Unop { op: UnOpM::Not, expr: Box::new(e) }, j)),
                n1,
            ),
        },
        _ => match primary(src, i, names) {
            (Err(f), n1) => (Err(f), n1),
            (Ok((e, j)), n1) => if moved_on(src, i, j) {
                calls(src, e, j, n1)
            } else {
                (Err(failed(src, i)), n1)
            },
        },
    }
}

/// Arguments behind the function `e`, as often as there are some.
#[verifier::opaque]
pub open spec fn calls(src: SourceM, e: ExprM<Symbol>, i: nat, names: Names) -> Parsed<
    ExprM<Symbol>,
>
    decreases left(src, i), 11int,
{
    if tok(src, i) == Some(TokenM::LParen) {
        match list(src, i + 1, TokenM::RParen, names) {
            (Err(f), n1) => (Err(f), n1),
            (Ok((args, j)), n1) => if moved_on(src, i, j) {
                calls(src, ExprM::Call { func: Box::new(e), args }, j, n1)
            } else {
                (Err(failed(src, i)), n1)
            },
        }
    } else {
        (Ok((e, i)), names)
    }
}

/// Expressions up to the token `close`.
#[verifier::opaque]
pub open spec fn list(src: SourceM, i: nat, close: TokenM, names: Names) -> Parsed<
    Seq<ExprM<Symbol>>,
>
    decreases left(src, i), 13int,
{
    if tok(src, i) == Some(close) {
        (Ok((seq![], i + 1)), names)
    } else {
        more(src, i, close, seq![], names)
    }
}

/// At least one expression more, up to the token `close`.
#[verifier::opaque]
pub open spec fn more(
    src: SourceM,
    i: nat,
    close: TokenM,
    acc: Seq<ExprM<Symbol>>,
    names: Names,
) -> Parsed<Seq<ExprM<Symbol>>>
    decreases left(src, i), 12int,
{
    match level(src, 0, i, names) {
        (Err(f), n1) => (Err(f), n1),
        (Ok((e, j)), n1) => if tok(src, j) == Some(TokenM::Comma) && moved_on(src, i, j) {
            more(src, j + 1, close, acc.push(e), n1)
        } else if tok(src, j) == Some(close) {
            (Ok((acc.push(e), j + 1)), n1)
        } else {
            (Err(failed(src, j)), n1)
        },
    }
}

/// Named entries up to the closing brace.
#[verifier::opaque]
pub open spec fn entries(src: SourceM, i: nat, acc: Seq<ExprM<Symbol>>, names: Names) -> Parsed<
    Seq<ExprM<Symbol>>,
>
    decreases left(src, i), 12int,
{
    match ident(src, i, names) {
        (Err(f), n1) => (Err(f), n1),
        (Ok((name, j)), n1) => match expect(src, j, TokenM::Colon) {
            Err(f) => (Err(f), n1),
            Ok(j1) => match level(src, 0, j1, n1) {
                (Err(f), n2) => (Err(f), n2),
                (Ok((e, k)), n2) => {
                    let all = acc.push(ExprM::KeyVal { name, value: Box::new(e) });
                    if tok(src, k) == Some(TokenM::Comma) && moved_on(src, i, k) {
                        entries(src, k + 1, all, n2)
                    } else if tok(src, k) == Some(TokenM::RBrace) {
                        (Ok((all, k + 1)), n2)
                    } else {
                        (Err(failed(src, k)), n2)
                    }
                },
            },
        },
    }
}

/// An expression that no operator is part of, outside of brackets.
#[verifier::opaque]
pub open spec fn primary(src: SourceM, i: nat, names: Names) -> Parsed<ExprM<Symbol>>
    decreases left(src, i), 2int,
{
    match tok(src, i) {
        Some(TokenM::StrLit(s)) => (
            Ok((ExprM::Literal { val: ValueM::String { val: s } }, i + 1)),
            names,
        ),
        Some(TokenM::Number(n)) => (
            Ok((ExprM::Literal { val: ValueM::Int { val: n } }, i + 1)),
            names,
        ),
        Some(TokenM::TRUE) => (
            Ok((ExprM::Literal { val: ValueM::Bool { val: true } }, i + 1)),
            names,
        ),
        Some(TokenM::FALSE) => (
            Ok((ExprM::Literal { val: ValueM::Bool { val: false } }, i + 1)),
            names,
        ),
        Some(TokenM::Ident(_)) => name_or_member(src, i, names),
        Some(TokenM::LParen) => match level(src, 0, i + 1, names) {
            (Err(f), n1) => (Err(f), n1),
            (Ok((e, j)), n1) => match expect(src, j, TokenM::RParen) {
                Err(f) => (Err(f), n1),
                Ok(k) => (Ok((e, k)), n1),
            },
        },
        Some(TokenM::LSquare) => match list(src, i + 1, TokenM::RSquare, names) {
            (Err(f), n1) => (Err(f), n1),
            (Ok((v, j)), n1) => (Ok((ExprM::Tuple { val: v }, j)), n1),
        },
        Some(TokenM::LBrace) => if tok(src, i + 1) == Some(TokenM::RBrace) {
            (Ok((ExprM::Tuple { val: seq![] }, i + 2)), names)
        } else {
            match entries(src, i + 1, seq![], names) {
                (Err(f), n1) => (Err(f), n1),
                (Ok((v, j)), n1) => (Ok((ExprM::Tuple { val: v }, j)), n1),
            }
        },
        Some(TokenM::IF_KW) => conditional(src, i + 1, names),
        Some(TokenM::FN_KW) => function(src, i + 1, names),
        Some(TokenM::ACTION_KW) => match expect(src, i + 1, TokenM::LBrace) {
            Err(f) => (Err(f), names),
            Ok(j) => match stmts(src, j, seq![], names) {
                (Err(f), n1) => (Err(f), n1),
                (Ok((v, k)), n1) => (Ok((ExprM::Action(v), k)), n1),
            },
        },
        Some(TokenM::SELECT_KW) => selection(src, i + 1, names),
        Some(TokenM::FOLD_KW) => folding(src, i + 1, names),
        _ => (Err(failed(src, i)), names),
    }
}

/// A variable, or a member of a service.
pub open spec fn name_or_member(src: SourceM, i: nat, names: Names) -> Parsed<ExprM<Symbol>> {
    match ident(src, i, names) {
        (Err(f), n1) => (Err(f), n1),
        (Ok((name, j)), n1) => if tok(src, j) == Some(TokenM::Dot) {
            match ident(src, j + 1, n1) {
                (Err(f), n2) => (Err(f), n2),
                (Ok((member, k)), n2) => (
                    Ok((ExprM::MemberAccess { service_name: name, member_name: member }, k)),
                    n2,
                ),
            }
        } else {
            (Ok((ExprM::Variable { name }, j)), n1)
        },
    }
}

/// A conditional, behind `if`.
#[verifier::opaque]
pub open spec fn conditional(src: SourceM, i: nat, names: Names) -> Parsed<ExprM<Symbol>>
    decreases left(src, i), 14int,
{
    match level(src, 0, i, names) {
        (Err(f), n1) => (Err(f), n1),
        (Ok((c, j)), n1) => match expect(src, j, TokenM::THEN_KW) {
            Err(f) => (Err(f), n1),
            Ok(j1) => if !moved_on(src, i, j1) {
                (Err(failed(src, i)), n1)
            } else {
                match level(src, 0, j1, n1) {
                    (Err(f), n2) => (Err(f), n2),
                    (Ok((a, k)), n2) => match expect(src, k, TokenM::ELSE_KW) {
                        Err(f) => (Err(f), n2),
                        Ok(k1) => if !moved_on(src, i, k1) {
                            (Err(failed(src, i)), n2)
                        } else {
                            match level(src, 0, k1, n2) {
                                (Err(f), n3) => (Err(f), n3),
                                (Ok((b, l)), n3) => (
                                    Ok(
                                        (
                                            ExprM::If {
                                                cond: Box::new(c),
                                                expr1: Box::new(a),
                                                expr2: Box::new(b),
                                            },
                                            l,
                                        ),
                                    ),
                                    n3,
                                ),
                            }
                        },
                    },
                }
            },
        },
    }
}

/// A function, behind `fn`.
#[verifier::opaque]
pub open spec fn function(src: SourceM, i: nat, names: Names) -> Parsed<ExprM<Symbol>>
    decreases left(src, i), 14int,
{
    match expect(src, i, TokenM::LParen) {
        Err(f) => (Err(f), names),
        Ok(i1) => match params(src, i1, names) {
            (Err(f), n1) => (Err(f), n1),
            (Ok((ps, j)), n1) => match ty_opt(src, j) {
                Err(f) => (Err(f), n1),
                Ok((t, j1)) => match expect(src, j1, TokenM::Fn_Assgn) {
                    Err(f) => (Err(f), n1),
                    Ok(k) => if !moved_on(src, i, k) {
                        (Err(failed(src, i)), n1)
                    } else {
                        match level(src, 0, k, n1) {
                            (Err(f), n2) => (Err(f), n2),
                            (Ok((e, l)), n2) => (
                                Ok(
                                    (
                                        ExprM::Func {
                                            params: ps,
                                            body: Box::new(e),
                                            return_ty: t,
                                        },
                                        l,
                                    ),
                                ),
                                n2,
                            ),
                        }
                    },
                },
            },
        },
    }
}

/// A selection from a table, behind `select`.
#[verifier::opaque]
pub open spec fn selection(src: SourceM, i: nat, names: Names) -> Parsed<ExprM<Symbol>>
    decreases left(src, i), 14int,
{
    match columns(src, i, seq![], names) {
        (Err(f), n1) => (Err(f), n1),
        (Ok((cols, j)), n1) => match ident(src, j, n1) {
            (Err(f), n2) => (Err(f), n2),
            (Ok((name, j1)), n2) => match expect(src, j1, TokenM::WHERE_KW) {
                Err(f) => (Err(f), n2),
                Ok(k) => if !moved_on(src, i, k) {
                    (Err(failed(src, i)), n2)
                } else {
                    match level(src, 0, k, n2) {
                        (Err(f), n3) => (Err(f), n3),
                        (Ok((e, l)), n3) => (
                            Ok(
                                (
                                    ExprM::Select {
                                        table_name: name,
                                        column_names: cols,
                                        where_clause: Box::new(e),
                                    },
                                    l,
                                ),
                            ),
                            n3,
                        ),
                    }
                },
            },
        },
    }
}

/// What a folding is over: a table and a column, up to the comma.
pub open spec fn folded_column(src: SourceM, i: nat, names: Names) -> Parsed<(Symbol, Symbol)> {
    match expect(src, i, TokenM::LParen) {
        Err(f) => (Err(f), names),
        Ok(i1) => match ident(src, i1, names) {
            (Err(f), n1) => (Err(f), n1),
            (Ok((name, j)), n1) => match expect(src, j, TokenM::Dot) {
                Err(f) => (Err(f), n1),
                Ok(j1) => match ident(src, j1, n1) {
                    (Err(f), n2) => (Err(f), n2),
                    (Ok((column, k)), n2) => match expect(src, k, TokenM::Comma) {
                        Err(f) => (Err(f), n2),
                        Ok(k1) => (Ok(((name, column), k1)), n2),
                    },
                },
            },
        },
    }
}

/// A folding of a column, behind `fold`.
#[verifier::opaque]
pub open spec fn folding(src: SourceM, i: nat, names: Names) -> Parsed<ExprM<Symbol>>
    decreases left(src, i), 14int,
{
    match folded_column(src, i, names) {
        (Err(f), n1) => (Err(f), n1),
        (Ok(((name, column), j)), n1) => if !moved_on(src, i, j) {
            (Err(failed(src, i)), n1)
        } else {
            match level(src, 0, j, n1) {
                (Err(f), n2) => (Err(f), n2),
                (Ok((op, k)), n2) => match expect(src, k, TokenM::Comma) {
                    Err(f) => (Err(f), n2),
                    Ok(k1) => if !moved_on(src, i, k1) {
                        (Err(failed(src, i)), n2)
                    } else {
                        match level(src, 0, k1, n2) {
                            (Err(f), n3) => (Err(f), n3),
                            (Ok((id, l)), n3) => match expect(src, l, TokenM::RParen) {
                                Err(f) => (Err(f), n3),
                                Ok(l1) => (
                                    Ok(
                                        (
                                            ExprM::Fold {
                                                table_name: name,
                                                column_name: column,
                                                operation: Box::new(op),
                                                identity: Box::new(id),
                                            },
                                            l1,
                                        ),
                                    ),
                                    n3,
                                ),
                            },
                        }
                    },
                },
            }
        },
    }
}

/// The end of a statement.
pub open spec fn ended<T>(src: SourceM, x: T, i: nat, names: Names) -> Parsed<T> {
    match expect(src, i, TokenM::Semicolon) {
        Err(f) => (Err(f), names),
        Ok(j) => (Ok((x, j)), names),
    }
}

/// A name, perhaps a type, and `=`.
pub open spec fn binding(src: SourceM, i: nat, names: Names) -> Parsed<(Symbol, Option<TypeM>)> {
    match ident(src, i, names) {
        (Err(f), n1) => (Err(f), n1),
        (Ok((name, j)), n1) => match ty_opt(src, j) {
            Err(f) => (Err(f), n1),
            Ok((t, j1)) => match expect(src, j1, TokenM::Assgn) {
                Err(f) => (Err(f), n1),
                Ok(k) => (Ok(((name, t), k)), n1),
            },
        },
    }
}

/// The text of the tokens from `i` to before `j`.
pub open spec fn written(src: SourceM, i: nat, j: nat) -> Seq<char> {
    src.chars.subrange(src.toks[i as int].start as int, src.toks[j - 1].end as int)
}

/// A statement of an action.
#[verifier::opaque]
pub open spec fn stmt(src: SourceM, i: nat, names: Names) -> Parsed<ActionStmtM<Symbol>>
    decreases left(src, i), 15int,
{
    match tok(src, i) {
        Some(TokenM::LET_KW) => match binding(src, i + 1, names) {
            (Err(f), n1) => (Err(f), n1),
            (Ok(((name, t), j)), n1) => if !moved_on(src, i, j) {
                (Err(failed(src, i)), n1)
            } else {
                match level(src, 0, j, n1) {
                    (Err(f), n2) => (Err(f), n2),
                    (Ok((e, k)), n2) => ended(
                        src,
                        ActionStmtM::Let { name, ty: t, expr: e },
                        k,
                        n2,
                    ),
                }
            },
        },
        Some(TokenM::DO_KW) => match level(src, 0, i + 1, names) {
            (Err(f), n1) => (Err(f), n1),
            (Ok((e, j)), n1) => ended(src, ActionStmtM::Do(e), j, n1),
        },
        Some(TokenM::ASSERT_KW) => assertion(src, i + 1, names),
        Some(TokenM::INSERT_KW) => match level(src, 0, i + 1, names) {
            (Err(f), n1) => (Err(f), n1),
            (Ok((e, j)), n1) => match expect(src, j, TokenM::INTO_KW) {
                Err(f) => (Err(f), n1),
                Ok(j1) => match ident(src, j1, n1) {
                    (Err(f), n2) => (Err(f), n2),
                    (Ok((name, k)), n2) => ended(
                        src,
                        ActionStmtM::Insert { row: e, table_name: name },
                        k,
                        n2,
                    ),
                },
            },
        },
        _ => if tok(src, i) is Some && tok(src, i)->Some_0 is Ident && tok(src, i + 1) == Some(
            TokenM::Assgn,
        ) {
            match ident(src, i, names) {
                (Err(f), n1) => (Err(f), n1),
                (Ok((name, _)), n1) => match level(src, 0, i + 2, n1) {
                    (Err(f), n2) => (Err(f), n2),
                    (Ok((e, k)), n2) => ended(src, ActionStmtM::Assign { name, expr: e }, k, n2),
                },
            }
        } else {
            match level(src, 0, i, names) {
                (Err(f), n1) => (Err(f), n1),
                (Ok((e, k)), n1) => ended(src, ActionStmtM::Expr(e), k, n1),
            }
        },
    }
}

/// An assertion, behind `assert`: a condition in brackets, whose text is kept.
#[verifier::opaque]
pub open spec fn assertion(src: SourceM, i: nat, names: Names) -> Parsed<ActionStmtM<Symbol>>
    decreases left(src, i), 14int,
{
    match expect(src, i, TokenM::LParen) {
        Err(f) => (Err(f), names),
        Ok(i1) => match level(src, 0, i1, names) {
            (Err(f), n1) => (Err(f), n1),
            (Ok((e, j)), n1) => match expect(src, j, TokenM::RParen) {
                Err(f) => (Err(f), n1),
                Ok(j1) => match expect(src, j1, TokenM::Semicolon) {
                    Err(f) => (Err(f), n1),
                    Ok(k) => if text::byte_len(written(src, i1, j)) > MAX_STRING_LITERAL_LENGTH {
                        (Err(FailM::TooLong), n1)
                    } else {
                        (Ok((ActionStmtM::Assert(e, written(src, i1, j)), k)), n1)
                    },
                },
            },
        },
    }
}

/// Statements up to the closing brace, after those in `acc`.
#[verifier::opaque]
pub open spec fn stmts(
    src: SourceM,
    i: nat,
    acc: Seq<ActionStmtM<Symbol>>,
    names: Names,
) -> Parsed<Seq<ActionStmtM<Symbol>>>
    decreases left(src, i), 16int,
{
    if tok(src, i) == Some(TokenM::RBrace) {
        (Ok((acc, i + 1)), names)
    } else {
        match stmt(src, i, names) {
            (Err(f), n1) => (Err(f), n1),
            (Ok((s, j)), n1) => if moved_on(src, i, j) {
                stmts(src, j, acc.push(s), n1)
            } else {
                (Err(failed(src, i)), n1)
            },
        }
    }
}

/// A definition or a variable: a binding, an expression and the end.
pub open spec fn member(src: SourceM, i: nat, names: Names) -> Parsed<
    ((Symbol, Option<TypeM>), ExprM<Symbol>),
> {
    match binding(src, i, names) {
        (Err(f), n1) => (Err(f), n1),
        (Ok((b, j)), n1) => match expr(src, j, n1) {
            (Err(f), n2) => (Err(f), n2),
            (Ok((e, k)), n2) => ended(src, (b, e), k, n2),
        },
    }
}

/// A definition, behind `def`.
pub open spec fn definition(src: SourceM, i: nat, is_pub: bool, names: Names) -> Parsed<
    DeclM<Symbol>,
> {
    match member(src, i, names) {
        (Err(f), n1) => (Err(f), n1),
        (Ok((((name, t), e), j)), n1) => (
            Ok((DeclM::DefDecl { name, ty: t, val: e, is_pub }, j)),
            n1,
        ),
    }
}

/// A declaration of a service.
pub open spec fn decl(src: SourceM, i: nat, names: Names) -> Parsed<DeclM<Symbol>> {
    match tok(src, i) {
        Some(TokenM::VAR_KW) => match member(src, i + 1, names) {
            (Err(f), n1) => (Err(f), n1),
            (Ok((((name, t), e), j)), n1) => (Ok((DeclM::VarDecl { name, ty: t, val: e }, j)), n1),
        },
        Some(TokenM::DEF_KW) => definition(src, i + 1, false, names),
        Some(TokenM::PUB_KW) => match expect(src, i + 1, TokenM::DEF_KW) {
            Err(f) => (Err(f), names),
            Ok(j) => definition(src, j, true, names),
        },
        Some(TokenM::TABLE_KW) => match ident(src, i + 1, names) {
            (Err(f), n1) => (Err(f), n1),
            (Ok((name, j)), n1) => match expect(src, j, TokenM::LBrace) {
                Err(f) => (Err(f), n1),
                Ok(k) => if tok(src, k) == Some(TokenM::RBrace) {
                    (Ok((DeclM::TableDecl { name, fields: seq![] }, k + 1)), n1)
                } else {
                    match fields(src, k, seq![], n1) {
                        (Err(f), n2) => (Err(f), n2),
                        (Ok((v, l)), n2) => (Ok((DeclM::TableDecl { name, fields: v }, l)), n2),
                    }
                },
            },
        },
        _ => (Err(failed(src, i)), names),
    }
}

/// Declarations up to the closing brace, after those in `acc`.
pub open spec fn decls(src: SourceM, i: nat, acc: Seq<DeclM<Symbol>>, names: Names) -> Parsed<
    Seq<DeclM<Symbol>>,
>
    decreases left(src, i),
{
    if tok(src, i) == Some(TokenM::RBrace) {
        (Ok((acc, i + 1)), names)
    } else {
        match decl(src, i, names) {
            (Err(f), n1) => (Err(f), n1),
            (Ok((d, j)), n1) => if moved_on(src, i, j) {
                decls(src, j, acc.push(d), n1)
            } else {
                (Err(failed(src, i)), n1)
            },
        }
    }
}

/// An import, behind `import`. Without a path the service is looked for in the
/// file that is named after it.
pub open spec fn import(src: SourceM, i: nat, names: Names) -> Parsed<StmtM<Symbol>> {
    match ident(src, i, names) {
        (Err(f), n1) => (Err(f), n1),
        (Ok((name, j)), n1) => if tok(src, j) == Some(TokenM::FROM_KW) {
            match tok(src, j + 1) {
                Some(TokenM::StrLit(path)) => ended(
                    src,
                    StmtM::Import { path, service_name: name, explicit_path: true },
                    j + 2,
                    n1,
                ),
                _ => (Err(failed(src, j + 1)), n1),
            }
        } else {
            ended(
                src,
                StmtM::Import {
                    path: interner::name_of(n1, name) + ".mkt"@,
                    service_name: name,
                    explicit_path: false,
                },
                j,
                n1,
            )
        },
    }
}

/// A service, behind `service`.
pub open spec fn service(src: SourceM, i: nat, names: Names) -> Parsed<StmtM<Symbol>> {
    match ident(src, i, names) {
        (Err(f), n1) => (Err(f), n1),
        (Ok((name, j)), n1) => match expect(src, j, TokenM::LBrace) {
            Err(f) => (Err(f), n1),
            Ok(k) => match decls(src, k, seq![], n1) {
                (Err(f), n2) => (Err(f), n2),
                (Ok((v, l)), n2) => (Ok((StmtM::Service { name, decls: v }, l)), n2),
            },
        },
    }
}

/// A test of a service, behind `@test`.
pub open spec fn test(src: SourceM, i: nat, names: Names) -> Parsed<StmtM<Symbol>> {
    match expect(src, i, TokenM::LParen) {
        Err(f) => (Err(f), names),
        Ok(i1) => match ident(src, i1, names) {
            (Err(f), n1) => (Err(f), n1),
            (Ok((name, j)), n1) => match expect(src, j, TokenM::RParen) {
                Err(f) => (Err(f), n1),
                Ok(j1) => match expect(src, j1, TokenM::LBrace) {
                    Err(f) => (Err(f), n1),
                    Ok(k) => match stmts(src, k, seq![], n1) {
                        (Err(f), n2) => (Err(f), n2),
                        (Ok((v, l)), n2) => (
                            Ok((StmtM::Test { service_name: name, stmts: v }, l)),
                            n2,
                        ),
                    },
                },
            },
        },
    }
}

/// A statement of a program.
pub open spec fn top(src: SourceM, i: nat, names: Names) -> Parsed<StmtM<Symbol>> {
    match tok(src, i) {
        Some(TokenM::SERVICE) => service(src, i + 1, names),
        Some(TokenM::TEST_KW) => test(src, i + 1, names),
        Some(TokenM::IMPORT_KW) => import(src, i + 1, names),
        Some(TokenM::WATCH_KW) => match expr(src, i + 1, names) {
            (Err(f), n1) => (Err(f), n1),
            (Ok((e, j)), n1) => ended(src, StmtM::Watch { expr: e }, j, n1),
        },
        _ => match stmt(src, i, names) {
            (Err(f), n1) => (Err(f), n1),
            (Ok((s, j)), n1) => (Ok((StmtM::ActionStmt(s), j)), n1),
        },
    }
}

/// The statements of a program from place `i` on, after those in `acc`.
pub open spec fn program(src: SourceM, i: nat, acc: Seq<StmtM<Symbol>>, names: Names) -> (
    Result<Seq<StmtM<Symbol>>, FailM>,
    Names,
)
    decreases left(src, i),
{
    if i >= src.toks.len() {
        (Ok(acc), names)
    } else {
        match top(src, i, names) {
            (Err(f), n1) => (Err(f), n1),
            (Ok((s, j)), n1) => if moved_on(src, i, j) {
                program(src, j, acc.push(s), n1)
            } else {
                (Err(failed(src, i)), n1)
            },
        }
    }
}

} // verus!
