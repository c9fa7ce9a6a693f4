//! Reading programs by the grammar.

use crate::runtime::ast::model::{ActionStmtM, DeclM, ExprM, FieldM, StmtM};
use crate::runtime::ast::{ActionStmt, BinOp, Decl, Expr, Field, Stmt, TableType, UnOp, Value};
use crate::runtime::interner::{Interner, Symbol};
use crate::runtime::limits::MAX_STRING_LITERAL_LENGTH;
use crate::runtime::parser::grammar;
use crate::runtime::parser::grammar::{FailM, Names, Parsed, SourceM, LEVELS};
use crate::runtime::parser::lex;
use crate::runtime::parser::lex::{Spanned, SpannedM};
use crate::runtime::parser::token;
use crate::runtime::parser::token::Token;
use crate::runtime::text;
use crate::runtime::tt::{Param, ParamM, Type};
use vstd::prelude::*;
use vstd::string::*;

verus! {

/// A program: its tokens and its text.
#[derive(Debug)]
pub struct Source {
    pub toks: Vec<Spanned>,
    pub chars: Vec<char>,
}

impl DeepView for Source {
    type V = SourceM;

    open spec fn deep_view(&self) -> SourceM {
        SourceM { toks: self.toks.deep_view(), chars: self.chars@ }
    }
}

impl Source {
    /// Whether the tokens stand in the text one after the other.
    pub open spec fn ordered(&self) -> bool {
        ordered(self.toks.deep_view(), self.chars@.len())
    }
}

/// Whether the tokens stand one after the other, before `n`.
pub open spec fn ordered(toks: Seq<SpannedM>, n: nat) -> bool {
    forall|a: int, b: int|
        0 <= a <= b < toks.len() ==> (#[trigger] toks[a]).start <= (#[trigger] toks[b]).end <= n
}

/// The tokens of a text stand one after the other.
pub proof fn lemma_lexed_ordered(s: Seq<char>, i: nat)
    ensures
        ordered(lex::lexed(s, i), s.len()),
        forall|a: int|
            0 <= a < lex::lexed(s, i).len() ==> (#[trigger] lex::lexed(s, i)[a]).start >= i,
    decreases s.len() - i,
{
    if i < s.len() {
        lex::lemma_advances(s, i);
        let (t, j) = lex::token_at(s, i);
        lemma_lexed_ordered(s, j);
        let v = lex::lexed(s, i);
        let w = lex::lexed(s, j);
        if let Some(t) = t {
            let one = SpannedM { start: i, token: t, end: j };
            assert(v == seq![one] + w);
            assert forall|a: int, b: int| 0 <= a <= b < v.len() implies (#[trigger] v[a]).start <= (
            #[trigger] v[b]).end <= s.len() by {
                if b > 0 {
                    assert(v[b] == w[b - 1]);
                    assert(w[b - 1].start <= w[b - 1].end);
                    if a > 0 {
                        assert(v[a] == w[a - 1]);
                    }
                }
            }
            assert forall|a: int| 0 <= a < v.len() implies (#[trigger] v[a]).start >= i by {
                if a > 0 {
                    assert(v[a] == w[a - 1]);
                }
            }
        }
    }
}

/// Why a text is no program.
#[derive(Debug, Clone)]
pub enum ParseFail {
    Eof,
    At(usize),
    TooLong,
}

impl DeepView for ParseFail {
    type V = FailM;

    open spec fn deep_view(&self) -> FailM {
        match *self {
            ParseFail::Eof => FailM::Eof,
            ParseFail::At(i) => FailM::At(i as nat),
            ParseFail::TooLong => FailM::TooLong,
        }
    }
}

/// Whether the outcome is the one that the grammar gives.
pub open spec fn fits<T: DeepView>(
    r: Result<(T, usize), ParseFail>,
    names: Names,
    p: Parsed<T::V>,
) -> bool {
    names == p.1 && fits_plain(r, p.0)
}

/// Whether the outcome is the one that the grammar gives, where no names are
/// read.
pub open spec fn fits_plain<T: DeepView>(
    r: Result<(T, usize), ParseFail>,
    p: Result<(T::V, nat), FailM>,
) -> bool {
    match (r, p) {
        (Ok((x, j)), Ok((y, k))) => x.deep_view() == y && j == k,
        (Err(f), Err(g)) => f.deep_view() == g,
        _ => false,
    }
}

/// Whether an outcome lies behind `i`.
pub open spec fn behind<T>(r: Result<(T, usize), ParseFail>, src: SourceM, i: nat) -> bool {
    r matches Ok((_, j)) ==> grammar::moved_on(src, i, j as nat)
}

fn fail(src: &Source, i: usize) -> (r: ParseFail)
    ensures
        r.deep_view() == grammar::failed(src.deep_view(), i as nat),
{
    if i < src.toks.len() {
        ParseFail::At(i)
    } else {
        ParseFail::Eof
    }
}

fn tok_is(src: &Source, i: usize, t: &Token) -> (r: bool)
    requires
        token::is_fixed(t.deep_view()),
    ensures
        r == (grammar::tok(src.deep_view(), i as nat) == Some(t.deep_view())),
        r ==> i < src.toks@.len(),
        src.toks@.len() <= usize::MAX,
{
    i < src.toks.len() && src.toks[i].token.is(t)
}

fn tok_at(src: &Source, i: usize) -> (r: Option<&Token>)
    ensures
        r is Some <==> i < src.toks@.len(),
        r matches Some(t) ==> grammar::tok(src.deep_view(), i as nat) == Some(t.deep_view()),
        r is None ==> grammar::tok(src.deep_view(), i as nat) is None,
        src.toks@.len() <= usize::MAX,
{
    if i < src.toks.len() {
        Some(&src.toks[i].token)
    } else {
        None
    }
}

fn expect(src: &Source, i: usize, t: &Token) -> (r: Result<usize, ParseFail>)
    requires
        token::is_fixed(t.deep_view()),
    ensures
        match (r, grammar::expect(src.deep_view(), i as nat, t.deep_view())) {
            (Ok(j), Ok(k)) => j == k && j == i + 1 && j <= src.toks@.len(),
            (Err(f), Err(g)) => f.deep_view() == g,
            _ => false,
        },
{
    if tok_is(src, i, t) {
        Ok(i + 1)
    } else {
        Err(fail(src, i))
    }
}

fn parse_ident(src: &Source, i: usize, names: &mut Interner) -> (r: Result<
    (Symbol, usize),
    ParseFail,
>)
    ensures
        fits(r, final(names)@, grammar::ident(src.deep_view(), i as nat, old(names)@)),
        r matches Ok((_, j)) ==> j == i + 1 && j <= src.toks@.len(),
{
    match tok_at(src, i) {
        Some(Token::Ident(s)) => {
            let sym = names.insert(s.as_str());
            Ok((sym, i + 1))
        },
        _ => Err(fail(src, i)),
    }
}

fn parse_ty(src: &Source, i: usize) -> (r: Result<(Type, usize), ParseFail>)
    ensures
        fits_plain(r, grammar::ty(src.deep_view(), i as nat)),
        behind(r, src.deep_view(), i as nat),
{
    match tok_at(src, i) {
        Some(Token::NUMBER_KW) => Ok((Type::Int, i + 1)),
        Some(Token::STRING_KW) => Ok((Type::String, i + 1)),
        Some(Token::BOOL_KW) => Ok((Type::Bool, i + 1)),
        _ => Err(fail(src, i)),
    }
}

fn parse_ty_opt(src: &Source, i: usize) -> (r: Result<(Option<Type>, usize), ParseFail>)
    requires
        i <= src.toks@.len(),
    ensures
        fits_plain(r, grammar::ty_opt(src.deep_view(), i as nat)),
        r matches Ok((_, j)) ==> i <= j <= src.toks@.len(),
{
    if tok_is(src, i, &Token::Colon) {
        let (t, j) = match parse_ty(src, i + 1) {
            Ok(x) => x,
            Err(f) => {
                return Err(f);
            },
        };
        Ok((Some(t), j))
    } else {
        Ok((None, i))
    }
}

fn parse_column_ty(src: &Source, i: usize) -> (r: Result<(TableType, usize), ParseFail>)
    ensures
        fits_plain(r, grammar::column_ty(src.deep_view(), i as nat)),
        behind(r, src.deep_view(), i as nat),
{
    match tok_at(src, i) {
        Some(Token::NUMBER_KW) => Ok((TableType::Int, i + 1)),
        Some(Token::STRING_KW) => Ok((TableType::String, i + 1)),
        Some(Token::BOOL_KW) => Ok((TableType::Bool, i + 1)),
        _ => Err(fail(src, i)),
    }
}

fn parse_params(src: &Source, i: usize, names: &mut Interner) -> (r: Result<
    (Vec<Param>, usize),
    ParseFail,
>)
    requires
        i <= src.toks@.len(),
    ensures
        fits(r, final(names)@, grammar::params(src.deep_view(), i as nat, old(names)@)),
        behind(r, src.deep_view(), i as nat),
{
    let mut acc: Vec<Param> = Vec::new();
    assert(acc.deep_view() =~= Seq::<ParamM<Symbol>>::empty());
    if tok_is(src, i, &Token::RParen) {
        return Ok((acc, i + 1));
    }
    let ghost s = src.deep_view();
    let ghost whole = grammar::more_params(s, i as nat, seq![], names@);
    let mut p: usize = i;
    loop
        invariant
            s == src.deep_view(),
            i <= p <= src.toks@.len(),
            whole == grammar::params(s, i as nat, old(names)@),
            whole == grammar::more_params(s, p as nat, acc.deep_view(), names@),
        decreases src.toks@.len() - p,
    {
        let ghost before = acc.deep_view();
        let (name, j) = match parse_ident(src, p, names) {
            Ok(x) => x,
            Err(f) => {
                return Err(f);
            },
        };
        let (t, k) = match parse_ty_opt(src, j) {
            Ok(x) => x,
            Err(f) => {
                return Err(f);
            },
        };
        let one = Param { name, ty: t };
        let ghost one1 = one.deep_view();
        acc.push(one);
        assert(acc.deep_view() =~= before.push(one1));
        if tok_is(src, k, &Token::Comma) {
            p = k + 1;
        } else if tok_is(src, k, &Token::RParen) {
            return Ok((acc, k + 1));
        } else {
            return Err(fail(src, k));
        }
    }
}

fn parse_columns(src: &Source, i: usize, names: &mut Interner) -> (r: Result<
    (Vec<Symbol>, usize),
    ParseFail,
>)
    requires
        i <= src.toks@.len(),
    ensures
        fits(r, final(names)@, grammar::columns(src.deep_view(), i as nat, seq![], old(names)@)),
        behind(r, src.deep_view(), i as nat),
{
    let mut acc: Vec<Symbol> = Vec::new();
    assert(acc.deep_view() =~= Seq::<Symbol>::empty());
    let ghost s = src.deep_view();
    let ghost whole = grammar::columns(s, i as nat, seq![], names@);
    let mut p: usize = i;
    loop
        invariant
            s == src.deep_view(),
            i <= p <= src.toks@.len(),
            whole == grammar::columns(s, i as nat, seq![], old(names)@),
            whole == grammar::columns(s, p as nat, acc.deep_view(), names@),
        decreases src.toks@.len() - p,
    {
        let ghost before = acc.deep_view();
        let (name, k) = match parse_ident(src, p, names) {
            Ok(x) => x,
            Err(f) => {
                return Err(f);
            },
        };
        acc.push(name);
        assert(acc.deep_view() =~= before.push(name));
        if tok_is(src, k, &Token::Comma) {
            p = k + 1;
        } else if tok_is(src, k, &Token::FROM_KW) {
            return Ok((acc, k + 1));
        } else {
            return Err(fail(src, k));
        }
    }
}

fn parse_fields(src: &Source, i: usize, names: &mut Interner) -> (r: Result<
    (Vec<Field>, usize),
    ParseFail,
>)
    requires
        i <= src.toks@.len(),
    ensures
        fits(r, final(names)@, grammar::fields(src.deep_view(), i as nat, seq![], old(names)@)),
        behind(r, src.deep_view(), i as nat),
{
    let mut acc: Vec<Field> = Vec::new();
    assert(acc.deep_view() =~= Seq::<FieldM<Symbol>>::empty());
    let ghost s = src.deep_view();
    let ghost whole = grammar::fields(s, i as nat, seq![], names@);
    let mut p: usize = i;
    loop
        invariant
            s == src.deep_view(),
            i <= p <= src.toks@.len(),
            whole == grammar::fields(s, i as nat, seq![], old(names)@),
            whole == grammar::fields(s, p as nat, acc.deep_view(), names@),
        decreases src.toks@.len() - p,
    {
        let ghost before = acc.deep_view();
        let (name, j) = match parse_ident(src, p, names) {
            Ok(x) => x,
            Err(f) => {
                return Err(f);
            },
        };
        let j1 = match expect(src, j, &Token::Colon) {
            Ok(x) => x,
            Err(f) => {
                return Err(f);
            },
        };
        let (t, k) = match parse_column_ty(src, j1) {
            Ok(x) => x,
            Err(f) => {
                return Err(f);
            },
        };
        let one = Field { name, ty: t };
        let ghost one1 = one.deep_view();
        acc.push(one);
        assert(acc.deep_view() =~= before.push(one1));
        if tok_is(src, k, &Token::Comma) {
            p = k + 1;
        } else if tok_is(src, k, &Token::RBrace) {
            return Ok((acc, k + 1));
        } else {
            return Err(fail(src, k));
        }
    }
}

fn op_at(src: &Source, k: usize, i: usize) -> (r: Option<BinOp>)
    ensures
        r.deep_view() == grammar::level_op(
            k as nat,
            grammar::tok(src.deep_view(), i as nat),
        ),
        r is Some ==> i < src.toks@.len(),
        src.toks@.len() <= usize::MAX,
{
    match tok_at(src, i) {
        Some(Token::OR_OR) => if k == 0 {
            Some(BinOp::Or)
        } else {
            None
        },
        Some(Token::AND_AND) => if k == 1 {
            Some(BinOp::And)
        } else {
            None
        },
        Some(Token::EQ_EQ) => if k == 2 {
            Some(BinOp::Eq)
        } else {
            None
        },
        Some(Token::LT) => if k == 3 {
            Some(BinOp::Lt)
        } else {
            None
        },
        Some(Token::GT) => if k == 3 {
            Some(BinOp::Gt)
        } else {
            None
        },
        Some(Token::Plus) => if k == 4 {
            Some(BinOp::Add)
        } else {
            None
        },
        Some(Token::Minus) => if k == 4 {
            Some(BinOp::Sub)
        } else {
            None
        },
        Some(Token::Asterisk) => if k == 5 {
            Some(BinOp::Mul)
        } else {
            None
        },
        Some(Token::Div) => if k == 5 {
            Some(BinOp::Div)
        } else {
            None
        },
        _ => None,
    }
}

/// An expression whose operators bind at least as tightly as level `k`.
fn parse_level(src: &Source, k: usize, i: usize, names: &mut Interner) -> (r: Result<
    (Expr, usize),
    ParseFail,
>)
    requires
        src.ordered(),
        i <= src.toks@.len(),
        k <= LEVELS,
    ensures
        fits(r, final(names)@, grammar::level(src.deep_view(), k as nat, i as nat, old(names)@)),
        behind(r, src.deep_view(), i as nat),
    decreases
        src.toks@.len() - i,
        if k < LEVELS { 10 - k } else { 4 },
{
    proof {
        reveal(grammar::level);
        reveal(grammar::rest);
        reveal(grammar::unary);
        reveal(grammar::calls);
        reveal(grammar::list);
        reveal(grammar::more);
        reveal(grammar::entries);
        reveal(grammar::primary);
        reveal(grammar::conditional);
        reveal(grammar::function);
        reveal(grammar::selection);
        reveal(grammar::folding);
        reveal(grammar::stmt);
        reveal(grammar::assertion);
        reveal(grammar::stmts);
    }
    if k >= LEVELS {
        return parse_unary(src, i, names);
    }
    let ghost s = src.deep_view();
    let ghost whole = grammar::level(s, k as nat, i as nat, names@);
    let (first, j) = match parse_level(src, k + 1, i, names) {
        Ok(x) => x,
        Err(f) => {
            return Err(f);
        },
    };
    let mut e = first;
    let mut p: usize = j;
    loop
        invariant
            s == src.deep_view(),
            src.ordered(),
            k < LEVELS,
            i < p <= src.toks@.len(),
            whole == grammar::level(s, k as nat, i as nat, old(names)@),
            whole == grammar::rest(s, k as nat, e.deep_view(), p as nat, names@),
        decreases src.toks@.len() - p,
    {
        proof {
            reveal(grammar::rest);
            reveal(grammar::level);
        }
        match op_at(src, k, p) {
            None => {
                return Ok((e, p));
            },
            Some(op) => {
                let (e2, j2) = match parse_level(src, k + 1, p + 1, names) {
                    Ok(x) => x,
                    Err(f) => {
                        return Err(f);
                    },
                };
                e = Expr::Binop { op, expr1: Box::new(e), expr2: Box::new(e2) };
                proof {
                    crate::runtime::ast::lemma_expr_model(e);
                }
                p = j2;
            },
        }
    }
}

/// An operand, with unary operators in front.
fn parse_unary(src: &Source, i: usize, names: &mut Interner) -> (r: Result<
    (Expr, usize),
    ParseFail,
>)
    requires
        src.ordered(),
        i <= src.toks@.len(),
    ensures
        fits(r, final(names)@, grammar::unary(src.deep_view(), i as nat, old(names)@)),
        behind(r, src.deep_view(), i as nat),
    decreases
        src.toks@.len() - i,
        3int,
{
    proof {
        reveal(grammar::level);
        reveal(grammar::rest);
        reveal(grammar::unary);
        reveal(grammar::calls);
        reveal(grammar::list);
        reveal(grammar::more);
        reveal(grammar::entries);
        reveal(grammar::primary);
        reveal(grammar::conditional);
        reveal(grammar::function);
        reveal(grammar::selection);
        reveal(grammar::folding);
        reveal(grammar::stmt);
        reveal(grammar::assertion);
        reveal(grammar::stmts);
    }
    if tok_is(src, i, &Token::Minus) {
        let (e, j) = match parse_unary(src, i + 1, names) {
            Ok(x) => x,
            Err(f) => {
                return Err(f);
            },
        };
        let r = Expr::Unop { op: UnOp::Neg, expr: Box::new(e) };
        proof {
            crate::runtime::ast::lemma_expr_model(r);
        }
        return Ok((r, j));
    }
    if tok_is(src, i, &Token::NOT_NOT) {
        let (e, j) = match parse_unary(src, i + 1, names) {
            Ok(x) => x,
            Err(f) => {
                return Err(f);
            },
        };
        let r = Expr::Unop { op: UnOp::Not, expr: Box::new(e) };
        proof {
            crate::runtime::ast::lemma_expr_model(r);
        }
        return Ok((r, j));
    }
    let ghost s = src.deep_view();
    let ghost whole = grammar::unary(s, i as nat, names@);
    let (first, j) = match parse_primary(src, i, names) {
        Ok(x) => x,
        Err(f) => {
            return Err(f);
        },
    };
    let mut e = first;
    let mut p: usize = j;
    while tok_is(src, p, &Token::LParen)
        invariant
            s == src.deep_view(),
            src.ordered(),
            i < p <= src.toks@.len(),
            whole == grammar::unary(s, i as nat, old(names)@),
            whole == grammar::calls(s, e.deep_view(), p as nat, names@),
        decreases src.toks@.len() - p,
    {
        proof {
            reveal(grammar::calls);
            reveal(grammar::list);
        }
        let (args, j2) = match parse_list(src, p + 1, &Token::RParen, names) {
            Ok(x) => x,
            Err(f) => {
                return Err(f);
            },
        };
        e = Expr::Call { func: Box::new(e), args };
        proof {
            crate::runtime::ast::lemma_expr_model(e);
        }
        p = j2;
    }
    proof {
        reveal(grammar::calls);
    }
    Ok((e, p))
}

/// Expressions up to the token `close`.
fn parse_list(src: &Source, i: usize, close: &Token, names: &mut Interner) -> (r: Result<
    (Vec<Expr>, usize),
    ParseFail,
>)
    requires
        src.ordered(),
        i <= src.toks@.len(),
        token::is_fixed(close.deep_view()),
        close.deep_view() != Token::Comma.deep_view(),
    ensures
        fits(r, final(names)@, grammar::list(src.deep_view(), i as nat, close.deep_view(), old(names)@)),
        behind(r, src.deep_view(), i as nat),
    decreases
        src.toks@.len() - i,
        13int,
{
    proof {
        reveal(grammar::level);
        reveal(grammar::rest);
        reveal(grammar::unary);
        reveal(grammar::calls);
        reveal(grammar::list);
        reveal(grammar::more);
        reveal(grammar::entries);
        reveal(grammar::primary);
        reveal(grammar::conditional);
        reveal(grammar::function);
        reveal(grammar::selection);
        reveal(grammar::folding);
        reveal(grammar::stmt);
        reveal(grammar::assertion);
        reveal(grammar::stmts);
    }
    let mut acc: Vec<Expr> = Vec::new();
    assert(acc.deep_view() =~= Seq::<ExprM<Symbol>>::empty());
    if tok_is(src, i, close) {
        return Ok((acc, i + 1));
    }
    let ghost s = src.deep_view();
    let ghost c = close.deep_view();
    let ghost whole = grammar::list(s, i as nat, c, names@);
    let mut p: usize = i;
    loop
        invariant
            s == src.deep_view(),
            src.ordered(),
            c == close.deep_view(),
            token::is_fixed(close.deep_view()),
            close.deep_view() != Token::Comma.deep_view(),
            i <= p <= src.toks@.len(),
            whole == grammar::list(s, i as nat, c, old(names)@),
            whole == grammar::more(s, p as nat, c, acc.deep_view(), names@),
        decreases src.toks@.len() - p,
    {
        proof {
            reveal(grammar::more);
            reveal(grammar::level);
        }
        let ghost before = acc.deep_view();
        let (e, j) = match parse_level(src, 0, p, names) {
            Ok(x) => x,
            Err(f) => {
                return Err(f);
            },
        };
        let ghost e1 = e.deep_view();
        acc.push(e);
        assert(acc.deep_view() =~= before.push(e1));
        if tok_is(src, j, &Token::Comma) {
            p = j + 1;
        } else if tok_is(src, j, close) {
            return Ok((acc, j + 1));
        } else {
            return Err(fail(src, j));
        }
    }
}

/// Named entries up to the closing brace.
fn parse_entries(src: &Source, i: usize, names: &mut Interner) -> (r: Result<
    (Vec<Expr>, usize),
    ParseFail,
>)
    requires
        src.ordered(),
        i <= src.toks@.len(),
    ensures
        fits(r, final(names)@, grammar::entries(src.deep_view(), i as nat, seq![], old(names)@)),
        behind(r, src.deep_view(), i as nat),
    decreases
        src.toks@.len() - i,
        12int,
{
    proof {
        reveal(grammar::level);
        reveal(grammar::rest);
        reveal(grammar::unary);
        reveal(grammar::calls);
        reveal(grammar::list);
        reveal(grammar::more);
        reveal(grammar::entries);
        reveal(grammar::primary);
        reveal(grammar::conditional);
        reveal(grammar::function);
        reveal(grammar::selection);
        reveal(grammar::folding);
        reveal(grammar::stmt);
        reveal(grammar::assertion);
        reveal(grammar::stmts);
    }
    let mut acc: Vec<Expr> = Vec::new();
    assert(acc.deep_view() =~= Seq::<ExprM<Symbol>>::empty());
    let ghost s = src.deep_view();
    let ghost whole = grammar::entries(s, i as nat, seq![], names@);
    let mut p: usize = i;
    loop
        invariant
            s == src.deep_view(),
            src.ordered(),
            i <= p <= src.toks@.len(),
            whole == grammar::entries(s, i as nat, seq![], old(names)@),
            whole == grammar::entries(s, p as nat, acc.deep_view(), names@),
        decreases src.toks@.len() - p,
    {
        proof {
            reveal(grammar::entries);
            reveal(grammar::level);
        }
        let ghost before = acc.deep_view();
        let (name, j) = match parse_ident(src, p, names) {
            Ok(x) => x,
            Err(f) => {
                return Err(f);
            },
        };
        let j1 = match expect(src, j, &Token::Colon) {
            Ok(x) => x,
            Err(f) => {
                return Err(f);
            },
        };
        let (e, k) = match parse_level(src, 0, j1, names) {
            Ok(x) => x,
            Err(f) => {
                return Err(f);
            },
        };
        let one = Expr::KeyVal { name, value: Box::new(e) };
        proof {
            crate::runtime::ast::lemma_expr_model(one);
        }
        let ghost one1 = one.deep_view();
        acc.push(one);
        assert(acc.deep_view() =~= before.push(one1));
        if tok_is(src, k, &Token::Comma) {
            p = k + 1;
        } else if tok_is(src, k, &Token::RBrace) {
            return Ok((acc, k + 1));
        } else {
            return Err(fail(src, k));
        }
    }
}

/// A variable, or a member of a service.
fn parse_name(src: &Source, i: usize, names: &mut Interner) -> (r: Result<
    (Expr, usize),
    ParseFail,
>)
    ensures
        fits(r, final(names)@, grammar::name_or_member(src.deep_view(), i as nat, old(names)@)),
        behind(r, src.deep_view(), i as nat),
{
    let (name, j) = match parse_ident(src, i, names) {
        Ok(x) => x,
        Err(f) => {
            return Err(f);
        },
    };
    if tok_is(src, j, &Token::Dot) {
        let (member, k) = match parse_ident(src, j + 1, names) {
            Ok(x) => x,
            Err(f) => {
                return Err(f);
            },
        };
        let r = Expr::MemberAccess { service_name: name, member_name: member };
        proof {
            crate::runtime::ast::lemma_expr_model(r);
        }
        Ok((r, k))
    } else {
        let r = Expr::Variable { name };
        proof {
            crate::runtime::ast::lemma_expr_model(r);
        }
        Ok((r, j))
    }
}

/// A literal.
fn literal(val: Value) -> (r: Expr)
    ensures
        r.deep_view() == (ExprM::Literal { val: val.deep_view() }),
{
    let r = Expr::Literal { val };
    proof {
        crate::runtime::ast::lemma_expr_model(r);
    }
    r
}

/// An expression that no operator is part of, outside of brackets.
fn parse_primary(src: &Source, i: usize, names: &mut Interner) -> (r: Result<
    (Expr, usize),
    ParseFail,
>)
    requires
        src.ordered(),
        i <= src.toks@.len(),
    ensures
        fits(r, final(names)@, grammar::primary(src.deep_view(), i as nat, old(names)@)),
        behind(r, src.deep_view(), i as nat),
    decreases
        src.toks@.len() - i,
        2int,
{
    proof {
        reveal(grammar::level);
        reveal(grammar::rest);
        reveal(grammar::unary);
        reveal(grammar::calls);
        reveal(grammar::list);
        reveal(grammar::more);
        reveal(grammar::entries);
        reveal(grammar::primary);
        reveal(grammar::conditional);
        reveal(grammar::function);
        reveal(grammar::selection);
        reveal(grammar::folding);
        reveal(grammar::stmt);
        reveal(grammar::assertion);
        reveal(grammar::stmts);
    }
    match tok_at(src, i) {
        Some(Token::StrLit(t)) => {
            let v = Value::String { val: t.clone() };
            proof {
                crate::runtime::ast::lemma_value_model(v);
            }
            Ok((literal(v), i + 1))
        },
        Some(Token::Number(n)) => {
            let v = Value::Int { val: *n };
            proof {
                crate::runtime::ast::lemma_value_model(v);
            }
            Ok((literal(v), i + 1))
        },
        Some(Token::TRUE) => {
            let v = Value::Bool { val: true };
            proof {
                crate::runtime::ast::lemma_value_model(v);
            }
            Ok((literal(v), i + 1))
        },
        Some(Token::FALSE) => {
            let v = Value::Bool { val: false };
            proof {
                crate::runtime::ast::lemma_value_model(v);
            }
            Ok((literal(v), i + 1))
        },
        Some(Token::Ident(_)) => parse_name(src, i, names),
        Some(Token::LParen) => {
            let (e, j) = match parse_level(src, 0, i + 1, names) {
                Ok(x) => x,
                Err(f) => {
                    return Err(f);
                },
            };
            let k = match expect(src, j, &Token::RParen) {
                Ok(x) => x,
                Err(f) => {
                    return Err(f);
                },
            };
            Ok((e, k))
        },
        Some(Token::LSquare) => {
            let (v, j) = match parse_list(src, i + 1, &Token::RSquare, names) {
                Ok(x) => x,
                Err(f) => {
                    return Err(f);
                },
            };
            let r = Expr::Tuple { val: v };
            proof {
                crate::runtime::ast::lemma_expr_model(r);
            }
            Ok((r, j))
        },
        Some(Token::LBrace) => {
            if tok_is(src, i + 1, &Token::RBrace) {
                let r = Expr::Tuple { val: Vec::new() };
                proof {
                    crate::runtime::ast::lemma_expr_model(r);
                }
                assert(r->Tuple_val.deep_view() =~= Seq::<ExprM<Symbol>>::empty());
                return Ok((r, i + 2));
            }
            let (v, j) = match parse_entries(src, i + 1, names) {
                Ok(x) => x,
                Err(f) => {
                    return Err(f);
                },
            };
            let r = Expr::Tuple { val: v };
            proof {
                crate::runtime::ast::lemma_expr_model(r);
            }
            Ok((r, j))
        },
        Some(Token::IF_KW) => parse_conditional(src, i + 1, names),
        Some(Token::FN_KW) => parse_function(src, i + 1, names),
        Some(Token::ACTION_KW) => {
            let j = match expect(src, i + 1, &Token::LBrace) {
                Ok(x) => x,
                Err(f) => {
                    return Err(f);
                },
            };
            let (v, k) = match parse_stmts(src, j, names) {
                Ok(x) => x,
                Err(f) => {
                    return Err(f);
                },
            };
            let r = Expr::Action(v);
            proof {
                crate::runtime::ast::lemma_expr_model(r);
            }
            Ok((r, k))
        },
        Some(Token::SELECT_KW) => parse_selection(src, i + 1, names),
        Some(Token::FOLD_KW) => parse_folding(src, i + 1, names),
        _ => Err(fail(src, i)),
    }
}

/// A conditional, behind `if`.
fn parse_conditional(src: &Source, i: usize, names: &mut Interner) -> (r: Result<
    (Expr, usize),
    ParseFail,
>)
    requires
        src.ordered(),
        i <= src.toks@.len(),
    ensures
        fits(r, final(names)@, grammar::conditional(src.deep_view(), i as nat, old(names)@)),
        behind(r, src.deep_view(), i as nat),
    decreases
        src.toks@.len() - i,
        14int,
{
    proof {
        reveal(grammar::level);
        reveal(grammar::rest);
        reveal(grammar::unary);
        reveal(grammar::calls);
        reveal(grammar::list);
        reveal(grammar::more);
        reveal(grammar::entries);
        reveal(grammar::primary);
        reveal(grammar::conditional);
        reveal(grammar::function);
        reveal(grammar::selection);
        reveal(grammar::folding);
        reveal(grammar::stmt);
        reveal(grammar::assertion);
        reveal(grammar::stmts);
    }
    let (c, j) = match parse_level(src, 0, i, names) {
        Ok(x) => x,
        Err(f) => {
            return Err(f);
        },
    };
    let j1 = match expect(src, j, &Token::THEN_KW) {
        Ok(x) => x,
        Err(f) => {
            return Err(f);
        },
    };
    let (a, k) = match parse_level(src, 0, j1, names) {
        Ok(x) => x,
        Err(f) => {
            return Err(f);
        },
    };
    let k1 = match expect(src, k, &Token::ELSE_KW) {
        Ok(x) => x,
        Err(f) => {
            return Err(f);
        },
    };
    let (b, l) = match parse_level(src, 0, k1, names) {
        Ok(x) => x,
        Err(f) => {
            return Err(f);
        },
    };
    let r = Expr::If { cond: Box::new(c), expr1: Box::new(a), expr2: Box::new(b) };
    proof {
        crate::runtime::ast::lemma_expr_model(r);
    }
    Ok((r, l))
}

/// A function, behind `fn`.
fn parse_function(src: &Source, i: usize, names: &mut Interner) -> (r: Result<
    (Expr, usize),
    ParseFail,
>)
    requires
        src.ordered(),
        i <= src.toks@.len(),
    ensures
        fits(r, final(names)@, grammar::function(src.deep_view(), i as nat, old(names)@)),
        behind(r, src.deep_view(), i as nat),
    decreases
        src.toks@.len() - i,
        14int,
{
    proof {
        reveal(grammar::level);
        reveal(grammar::rest);
        reveal(grammar::unary);
        reveal(grammar::calls);
        reveal(grammar::list);
        reveal(grammar::more);
        reveal(grammar::entries);
        reveal(grammar::primary);
        reveal(grammar::conditional);
        reveal(grammar::function);
        reveal(grammar::selection);
        reveal(grammar::folding);
        reveal(grammar::stmt);
        reveal(grammar::assertion);
        reveal(grammar::stmts);
    }
    let i1 = match expect(src, i, &Token::LParen) {
        Ok(x) => x,
        Err(f) => {
            return Err(f);
        },
    };
    let (ps, j) = match parse_params(src, i1, names) {
        Ok(x) => x,
        Err(f) => {
            return Err(f);
        },
    };
    let (t, j1) = match parse_ty_opt(src, j) {
        Ok(x) => x,
        Err(f) => {
            return Err(f);
        },
    };
    let k = match expect(src, j1, &Token::Fn_Assgn) {
        Ok(x) => x,
        Err(f) => {
            return Err(f);
        },
    };
    let (e, l) = match parse_level(src, 0, k, names) {
        Ok(x) => x,
        Err(f) => {
            return Err(f);
        },
    };
    let r = Expr::Func { params: ps, body: Box::new(e), return_ty: t };
    proof {
        crate::runtime::ast::lemma_expr_model(r);
    }
    Ok((r, l))
}

/// A selection from a table, behind `select`.
fn parse_selection(src: &Source, i: usize, names: &mut Interner) -> (r: Result<
    (Expr, usize),
    ParseFail,
>)
    requires
        src.ordered(),
        i <= src.toks@.len(),
    ensures
        fits(r, final(names)@, grammar::selection(src.deep_view(), i as nat, old(names)@)),
        behind(r, src.deep_view(), i as nat),
    decreases
        src.toks@.len() - i,
        14int,
{
    proof {
        reveal(grammar::level);
        reveal(grammar::rest);
        reveal(grammar::unary);
        reveal(grammar::calls);
        reveal(grammar::list);
        reveal(grammar::more);
        reveal(grammar::entries);
        reveal(grammar::primary);
        reveal(grammar::conditional);
        reveal(grammar::function);
        reveal(grammar::selection);
        reveal(grammar::folding);
        reveal(grammar::stmt);
        reveal(grammar::assertion);
        reveal(grammar::stmts);
    }
    let (cols, j) = match parse_columns(src, i, names) {
        Ok(x) => x,
        Err(f) => {
            return Err(f);
        },
    };
    let (name, j1) = match parse_ident(src, j, names) {
        Ok(x) => x,
        Err(f) => {
            return Err(f);
        },
    };
    let k = match expect(src, j1, &Token::WHERE_KW) {
        Ok(x) => x,
        Err(f) => {
            return Err(f);
        },
    };
    let (e, l) = match parse_level(src, 0, k, names) {
        Ok(x) => x,
        Err(f) => {
            return Err(f);
        },
    };
    let r = Expr::Select {
        table_name: name,
        column_names: cols,
        where_clause: Box::new(e),
    };
    proof {
        crate::runtime::ast::lemma_expr_model(r);
    }
    Ok((r, l))
}

fn parse_folded_column(src: &Source, i: usize, names: &mut Interner) -> (r: Result<
    ((Symbol, Symbol), usize),
    ParseFail,
>)
    ensures
        fits(r, final(names)@, grammar::folded_column(src.deep_view(), i as nat, old(names)@)),
        behind(r, src.deep_view(), i as nat),
{
    let i1 = match expect(src, i, &Token::LParen) {
        Ok(x) => x,
        Err(f) => {
            return Err(f);
        },
    };
    let (name, j) = match parse_ident(src, i1, names) {
        Ok(x) => x,
        Err(f) => {
            return Err(f);
        },
    };
    let j1 = match expect(src, j, &Token::Dot) {
        Ok(x) => x,
        Err(f) => {
            return Err(f);
        },
    };
    let (column, k) = match parse_ident(src, j1, names) {
        Ok(x) => x,
        Err(f) => {
            return Err(f);
        },
    };
    let k1 = match expect(src, k, &Token::Comma) {
        Ok(x) => x,
        Err(f) => {
            return Err(f);
        },
    };
    Ok(((name, column), k1))
}

/// A folding of a column, behind `fold`.
fn parse_folding(src: &Source, i: usize, names: &mut Interner) -> (r: Result<
    (Expr, usize),
    ParseFail,
>)
    requires
        src.ordered(),
        i <= src.toks@.len(),
    ensures
        fits(r, final(names)@, grammar::folding(src.deep_view(), i as nat, old(names)@)),
        behind(r, src.deep_view(), i as nat),
    decreases
        src.toks@.len() - i,
        14int,
{
    proof {
        reveal(grammar::level);
        reveal(grammar::rest);
        reveal(grammar::unary);
        reveal(grammar::calls);
        reveal(grammar::list);
        reveal(grammar::more);
        reveal(grammar::entries);
        reveal(grammar::primary);
        reveal(grammar::conditional);
        reveal(grammar::function);
        reveal(grammar::selection);
        reveal(grammar::folding);
        reveal(grammar::stmt);
        reveal(grammar::assertion);
        reveal(grammar::stmts);
    }
    let (nc, j) = match parse_folded_column(src, i, names) {
        Ok(x) => x,
        Err(f) => {
            return Err(f);
        },
    };
    let (op, k) = match parse_level(src, 0, j, names) {
        Ok(x) => x,
        Err(f) => {
            return Err(f);
        },
    };
    let k1 = match expect(src, k, &Token::Comma) {
        Ok(x) => x,
        Err(f) => {
            return Err(f);
        },
    };
    let (id, l) = match parse_level(src, 0, k1, names) {
        Ok(x) => x,
        Err(f) => {
            return Err(f);
        },
    };
    let l1 = match expect(src, l, &Token::RParen) {
        Ok(x) => x,
        Err(f) => {
            return Err(f);
        },
    };
    let r = Expr::Fold {
        table_name: nc.0,
        column_name: nc.1,
        operation: Box::new(op),
        identity: Box::new(id),
    };
    proof {
        crate::runtime::ast::lemma_expr_model(r);
    }
    Ok((r, l1))
}

fn parse_binding(src: &Source, i: usize, names: &mut Interner) -> (r: Result<
    ((Symbol, Option<Type>), usize),
    ParseFail,
>)
    ensures
        fits(r, final(names)@, grammar::binding(src.deep_view(), i as nat, old(names)@)),
        behind(r, src.deep_view(), i as nat),
{
    let (name, j) = match parse_ident(src, i, names) {
        Ok(x) => x,
        Err(f) => {
            return Err(f);
        },
    };
    let (t, j1) = match parse_ty_opt(src, j) {
        Ok(x) => x,
        Err(f) => {
            return Err(f);
        },
    };
    let k = match expect(src, j1, &Token::Assgn) {
        Ok(x) => x,
        Err(f) => {
            return Err(f);
        },
    };
    Ok(((name, t), k))
}

/// A statement of an action.
fn parse_stmt(src: &Source, i: usize, names: &mut Interner) -> (r: Result<
    (ActionStmt, usize),
    ParseFail,
>)
    requires
        src.ordered(),
        i <= src.toks@.len(),
    ensures
        fits(r, final(names)@, grammar::stmt(src.deep_view(), i as nat, old(names)@)),
        behind(r, src.deep_view(), i as nat),
    decreases
        src.toks@.len() - i,
        15int,
{
    proof {
        reveal(grammar::level);
        reveal(grammar::rest);
        reveal(grammar::unary);
        reveal(grammar::calls);
        reveal(grammar::list);
        reveal(grammar::more);
        reveal(grammar::entries);
        reveal(grammar::primary);
        reveal(grammar::conditional);
        reveal(grammar::function);
        reveal(grammar::selection);
        reveal(grammar::folding);
        reveal(grammar::stmt);
        reveal(grammar::assertion);
        reveal(grammar::stmts);
    }
    match tok_at(src, i) {
        Some(Token::LET_KW) => {
            let (nt, j) = match parse_binding(src, i + 1, names) {
                Ok(x) => x,
                Err(f) => {
                    return Err(f);
                },
            };
            let (e, k) = match parse_level(src, 0, j, names) {
                Ok(x) => x,
                Err(f) => {
                    return Err(f);
                },
            };
            let l = match expect(src, k, &Token::Semicolon) {
                Ok(x) => x,
                Err(f) => {
                    return Err(f);
                },
            };
            let r = ActionStmt::Let { name: nt.0, ty: nt.1, expr: e };
            proof {
                crate::runtime::ast::lemma_stmt_model(r);
            }
            Ok((r, l))
        },
        Some(Token::DO_KW) => {
            let (e, j) = match parse_level(src, 0, i + 1, names) {
                Ok(x) => x,
                Err(f) => {
                    return Err(f);
                },
            };
            let l = match expect(src, j, &Token::Semicolon) {
                Ok(x) => x,
                Err(f) => {
                    return Err(f);
                },
            };
            let r = ActionStmt::Do(e);
            proof {
                crate::runtime::ast::lemma_stmt_model(r);
            }
            Ok((r, l))
        },
        Some(Token::ASSERT_KW) => parse_assertion(src, i + 1, names),
        Some(Token::INSERT_KW) => {
            let (e, j) = match parse_level(src, 0, i + 1, names) {
                Ok(x) => x,
                Err(f) => {
                    return Err(f);
                },
            };
            let j1 = match expect(src, j, &Token::INTO_KW) {
                Ok(x) => x,
                Err(f) => {
                    return Err(f);
                },
            };
            let (name, k) = match parse_ident(src, j1, names) {
                Ok(x) => x,
                Err(f) => {
                    return Err(f);
                },
            };
            let l = match expect(src, k, &Token::Semicolon) {
                Ok(x) => x,
                Err(f) => {
                    return Err(f);
                },
            };
            let r = ActionStmt::Insert { row: e, table_name: name };
            proof {
                crate::runtime::ast::lemma_stmt_model(r);
            }
            Ok((r, l))
        },
        Some(Token::Ident(_)) => {
            if tok_is(src, i + 1, &Token::Assgn) {
                let (name, j) = match parse_ident(src, i, names) {
                    Ok(x) => x,
                    Err(f) => {
                        return Err(f);
                    },
                };
                let (e, k) = match parse_level(src, 0, i + 2, names) {
                    Ok(x) => x,
                    Err(f) => {
                        return Err(f);
                    },
                };
                let l = match expect(src, k, &Token::Semicolon) {
                    Ok(x) => x,
                    Err(f) => {
                        return Err(f);
                    },
                };
                let r = ActionStmt::Assign { name, expr: e };
                proof {
                    crate::runtime::ast::lemma_stmt_model(r);
                }
                return Ok((r, l));
            }
            let (e, k) = match parse_level(src, 0, i, names) {
                Ok(x) => x,
                Err(f) => {
                    return Err(f);
                },
            };
            let l = match expect(src, k, &Token::Semicolon) {
                Ok(x) => x,
                Err(f) => {
                    return Err(f);
                },
            };
            let r = ActionStmt::Expr(e);
            proof {
                crate::runtime::ast::lemma_stmt_model(r);
            }
            Ok((r, l))
        },
        _ => {
            let (e, k) = match parse_level(src, 0, i, names) {
                Ok(x) => x,
                Err(f) => {
                    return Err(f);
                },
            };
            let l = match expect(src, k, &Token::Semicolon) {
                Ok(x) => x,
                Err(f) => {
                    return Err(f);
                },
            };
            let r = ActionStmt::Expr(e);
            proof {
                crate::runtime::ast::lemma_stmt_model(r);
            }
            Ok((r, l))
        },
    }
}

/// An assertion, behind `assert`.
fn parse_assertion(src: &Source, i: usize, names: &mut Interner) -> (r: Result<
    (ActionStmt, usize),
    ParseFail,
>)
    requires
        src.ordered(),
        i <= src.toks@.len(),
    ensures
        fits(r, final(names)@, grammar::assertion(src.deep_view(), i as nat, old(names)@)),
        behind(r, src.deep_view(), i as nat),
    decreases
        src.toks@.len() - i,
        14int,
{
    proof {
        reveal(grammar::level);
        reveal(grammar::rest);
        reveal(grammar::unary);
        reveal(grammar::calls);
        reveal(grammar::list);
        reveal(grammar::more);
        reveal(grammar::entries);
        reveal(grammar::primary);
        reveal(grammar::conditional);
        reveal(grammar::function);
        reveal(grammar::selection);
        reveal(grammar::folding);
        reveal(grammar::stmt);
        reveal(grammar::assertion);
        reveal(grammar::stmts);
    }
    let i1 = match expect(src, i, &Token::LParen) {
        Ok(x) => x,
        Err(f) => {
            return Err(f);
        },
    };
    let (e, j) = match parse_level(src, 0, i1, names) {
        Ok(x) => x,
        Err(f) => {
            return Err(f);
        },
    };
    let j1 = match expect(src, j, &Token::RParen) {
        Ok(x) => x,
        Err(f) => {
            return Err(f);
        },
    };
    let k = match expect(src, j1, &Token::Semicolon) {
        Ok(x) => x,
        Err(f) => {
            return Err(f);
        },
    };
    proof {
        let t = src.toks.deep_view();
        assert(t[i1 as int].start <= t[j - 1].end);
        assert(t[i1 as int] == src.toks@[i1 as int].deep_view());
        assert(t[j - 1] == src.toks@[j - 1].deep_view());
    }
    let written = text::string_of(&src.chars, src.toks[i1].start, src.toks[j - 1].end);
    if text::text_bytes(written.as_str()) > MAX_STRING_LITERAL_LENGTH {
        return Err(ParseFail::TooLong);
    }
    let r = ActionStmt::Assert(e, written);
    proof {
        crate::runtime::ast::lemma_stmt_model(r);
    }
    Ok((r, k))
}

/// Statements up to the closing brace.
fn parse_stmts(src: &Source, i: usize, names: &mut Interner) -> (r: Result<
    (Vec<ActionStmt>, usize),
    ParseFail,
>)
    requires
        src.ordered(),
        i <= src.toks@.len(),
    ensures
        fits(r, final(names)@, grammar::stmts(src.deep_view(), i as nat, seq![], old(names)@)),
        behind(r, src.deep_view(), i as nat),
    decreases
        src.toks@.len() - i,
        16int,
{
    proof {
        reveal(grammar::level);
        reveal(grammar::rest);
        reveal(grammar::unary);
        reveal(grammar::calls);
        reveal(grammar::list);
        reveal(grammar::more);
        reveal(grammar::entries);
        reveal(grammar::primary);
        reveal(grammar::conditional);
        reveal(grammar::function);
        reveal(grammar::selection);
        reveal(grammar::folding);
        reveal(grammar::stmt);
        reveal(grammar::assertion);
        reveal(grammar::stmts);
    }
    let mut acc: Vec<ActionStmt> = Vec::new();
    assert(acc.deep_view() =~= Seq::<ActionStmtM<Symbol>>::empty());
    let ghost s = src.deep_view();
    let ghost whole = grammar::stmts(s, i as nat, seq![], names@);
    let mut p: usize = i;
    while !tok_is(src, p, &Token::RBrace)
        invariant
            s == src.deep_view(),
            src.ordered(),
            i <= p <= src.toks@.len(),
            whole == grammar::stmts(s, i as nat, seq![], old(names)@),
            whole == grammar::stmts(s, p as nat, acc.deep_view(), names@),
        decreases src.toks@.len() - p,
    {
        proof {
            reveal(grammar::stmts);
            reveal(grammar::stmt);
        }
        let ghost before = acc.deep_view();
        let (one, j) = match parse_stmt(src, p, names) {
            Ok(x) => x,
            Err(f) => {
                return Err(f);
            },
        };
        let ghost one1 = one.deep_view();
        acc.push(one);
        assert(acc.deep_view() =~= before.push(one1));
        p = j;
    }
    proof {
        reveal(grammar::stmts);
    }
    Ok((acc, p + 1))
}

fn parse_member(src: &Source, i: usize, names: &mut Interner) -> (r: Result<
    (((Symbol, Option<Type>), Expr), usize),
    ParseFail,
>)
    requires
        src.ordered(),
    ensures
        fits(r, final(names)@, grammar::member(src.deep_view(), i as nat, old(names)@)),
        behind(r, src.deep_view(), i as nat),
{
    let (b, j) = match parse_binding(src, i, names) {
        Ok(x) => x,
        Err(f) => {
            return Err(f);
        },
    };
    let (e, k) = match parse_level(src, 0, j, names) {
        Ok(x) => x,
        Err(f) => {
            return Err(f);
        },
    };
    let l = match expect(src, k, &Token::Semicolon) {
        Ok(x) => x,
        Err(f) => {
            return Err(f);
        },
    };
    Ok(((b, e), l))
}

fn parse_definition(src: &Source, i: usize, is_pub: bool, names: &mut Interner) -> (r: Result<
    (Decl, usize),
    ParseFail,
>)
    requires
        src.ordered(),
    ensures
        fits(r, final(names)@, grammar::definition(src.deep_view(), i as nat, is_pub, old(names)@)),
        behind(r, src.deep_view(), i as nat),
{
    let (m, j) = match parse_member(src, i, names) {
        Ok(x) => x,
        Err(f) => {
            return Err(f);
        },
    };
    let ((name, t), e) = m;
    Ok((Decl::DefDecl { name, ty: t, val: e, is_pub }, j))
}

/// A declaration of a service.
fn parse_decl(src: &Source, i: usize, names: &mut Interner) -> (r: Result<
    (Decl, usize),
    ParseFail,
>)
    requires
        src.ordered(),
        i <= src.toks@.len(),
    ensures
        fits(r, final(names)@, grammar::decl(src.deep_view(), i as nat, old(names)@)),
        behind(r, src.deep_view(), i as nat),
{
    match tok_at(src, i) {
        Some(Token::VAR_KW) => {
            let (m, j) = match parse_member(src, i + 1, names) {
                Ok(x) => x,
                Err(f) => {
                    return Err(f);
                },
            };
            let ((name, t), e) = m;
            Ok((Decl::VarDecl { name, ty: t, val: e }, j))
        },
        Some(Token::DEF_KW) => parse_definition(src, i + 1, false, names),
        Some(Token::PUB_KW) => {
            let j = match expect(src, i + 1, &Token::DEF_KW) {
                Ok(x) => x,
                Err(f) => {
                    return Err(f);
                },
            };
            parse_definition(src, j, true, names)
        },
        Some(Token::TABLE_KW) => {
            let (name, j) = match parse_ident(src, i + 1, names) {
                Ok(x) => x,
                Err(f) => {
                    return Err(f);
                },
            };
            let k = match expect(src, j, &Token::LBrace) {
                Ok(x) => x,
                Err(f) => {
                    return Err(f);
                },
            };
            if tok_is(src, k, &Token::RBrace) {
                let r = Decl::TableDecl { name, fields: Vec::new() };
                assert(r->TableDecl_fields.deep_view() =~= Seq::<FieldM<Symbol>>::empty());
                return Ok((r, k + 1));
            }
            let (v, l) = match parse_fields(src, k, names) {
                Ok(x) => x,
                Err(f) => {
                    return Err(f);
                },
            };
            Ok((Decl::TableDecl { name, fields: v }, l))
        },
        _ => Err(fail(src, i)),
    }
}

/// Declarations up to the closing brace.
fn parse_decls(src: &Source, i: usize, names: &mut Interner) -> (r: Result<
    (Vec<Decl>, usize),
    ParseFail,
>)
    requires
        src.ordered(),
        i <= src.toks@.len(),
    ensures
        fits(r, final(names)@, grammar::decls(src.deep_view(), i as nat, seq![], old(names)@)),
        behind(r, src.deep_view(), i as nat),
{
    let mut acc: Vec<Decl> = Vec::new();
    assert(acc.deep_view() =~= Seq::<DeclM<Symbol>>::empty());
    let ghost s = src.deep_view();
    let ghost whole = grammar::decls(s, i as nat, seq![], names@);
    let mut p: usize = i;
    while !tok_is(src, p, &Token::RBrace)
        invariant
            s == src.deep_view(),
            src.ordered(),
            i <= p <= src.toks@.len(),
            whole == grammar::decls(s, i as nat, seq![], old(names)@),
            whole == grammar::decls(s, p as nat, acc.deep_view(), names@),
        decreases src.toks@.len() - p,
    {
        let ghost before = acc.deep_view();
        let (one, j) = match parse_decl(src, p, names) {
            Ok(x) => x,
            Err(f) => {
                return Err(f);
            },
        };
        let ghost one1 = one.deep_view();
        acc.push(one);
        assert(acc.deep_view() =~= before.push(one1));
        p = j;
    }
    Ok((acc, p + 1))
}

/// An import, behind `import`.
fn parse_import(src: &Source, i: usize, names: &mut Interner) -> (r: Result<
    (Stmt, usize),
    ParseFail,
>)
    ensures
        fits(r, final(names)@, grammar::import(src.deep_view(), i as nat, old(names)@)),
        behind(r, src.deep_view(), i as nat),
{
    let (name, j) = match parse_ident(src, i, names) {
        Ok(x) => x,
        Err(f) => {
            return Err(f);
        },
    };
    if tok_is(src, j, &Token::FROM_KW) {
        match tok_at(src, j + 1) {
            Some(Token::StrLit(path)) => {
                let r = Stmt::Import {
                    path: path.clone(),
                    service_name: name,
                    explicit_path: true,
                };
                let l = match expect(src, j + 2, &Token::Semicolon) {
                    Ok(x) => x,
                    Err(f) => {
                        return Err(f);
                    },
                };
                Ok((r, l))
            },
            _ => Err(fail(src, j + 1)),
        }
    } else {
        let path = text::cat2(names.get(name).as_str(), ".mkt");
        let l = match expect(src, j, &Token::Semicolon) {
            Ok(x) => x,
            Err(f) => {
                return Err(f);
            },
        };
        Ok((Stmt::Import { path, service_name: name, explicit_path: false }, l))
    }
}

/// A service, behind `service`.
fn parse_service(src: &Source, i: usize, names: &mut Interner) -> (r: Result<
    (Stmt, usize),
    ParseFail,
>)
    requires
        src.ordered(),
    ensures
        fits(r, final(names)@, grammar::service(src.deep_view(), i as nat, old(names)@)),
        behind(r, src.deep_view(), i as nat),
{
    let (name, j) = match parse_ident(src, i, names) {
        Ok(x) => x,
        Err(f) => {
            return Err(f);
        },
    };
    let k = match expect(src, j, &Token::LBrace) {
        Ok(x) => x,
        Err(f) => {
            return Err(f);
        },
    };
    let (v, l) = match parse_decls(src, k, names) {
        Ok(x) => x,
        Err(f) => {
            return Err(f);
        },
    };
    Ok((Stmt::Service { name, decls: v }, l))
}

/// A test of a service, behind `@test`.
fn parse_test(src: &Source, i: usize, names: &mut Interner) -> (r: Result<
    (Stmt, usize),
    ParseFail,
>)
    requires
        src.ordered(),
    ensures
        fits(r, final(names)@, grammar::test(src.deep_view(), i as nat, old(names)@)),
        behind(r, src.deep_view(), i as nat),
{
    let i1 = match expect(src, i, &Token::LParen) {
        Ok(x) => x,
        Err(f) => {
            return Err(f);
        },
    };
    let (name, j) = match parse_ident(src, i1, names) {
        Ok(x) => x,
        Err(f) => {
            return Err(f);
        },
    };
    let j1 = match expect(src, j, &Token::RParen) {
        Ok(x) => x,
        Err(f) => {
            return Err(f);
        },
    };
    let k = match expect(src, j1, &Token::LBrace) {
        Ok(x) => x,
        Err(f) => {
            return Err(f);
        },
    };
    let (v, l) = match parse_stmts(src, k, names) {
        Ok(x) => x,
        Err(f) => {
            return Err(f);
        },
    };
    Ok((Stmt::Test { service_name: name, stmts: v }, l))
}

/// A statement of a program.
fn parse_top(src: &Source, i: usize, names: &mut Interner) -> (r: Result<
    (Stmt, usize),
    ParseFail,
>)
    requires
        src.ordered(),
        i <= src.toks@.len(),
    ensures
        fits(r, final(names)@, grammar::top(src.deep_view(), i as nat, old(names)@)),
        behind(r, src.deep_view(), i as nat),
{
    match tok_at(src, i) {
        Some(Token::SERVICE) => parse_service(src, i + 1, names),
        Some(Token::TEST_KW) => parse_test(src, i + 1, names),
        Some(Token::IMPORT_KW) => parse_import(src, i + 1, names),
        Some(Token::WATCH_KW) => {
            let (e, j) = match parse_level(src, 0, i + 1, names) {
                Ok(x) => x,
                Err(f) => {
                    return Err(f);
                },
            };
            let l = match expect(src, j, &Token::Semicolon) {
                Ok(x) => x,
                Err(f) => {
                    return Err(f);
                },
            };
            Ok((Stmt::Watch { expr: e }, l))
        },
        _ => {
            let (s, j) = match parse_stmt(src, i, names) {
                Ok(x) => x,
                Err(f) => {
                    return Err(f);
                },
            };
            Ok((Stmt::ActionStmt(s), j))
        },
    }
}

/// The statements of a program.
pub fn parse_program(src: &Source, names: &mut Interner) -> (r: Result<Vec<Stmt>, ParseFail>)
    requires
        src.ordered(),
    ensures
        final(names)@ == grammar::program(src.deep_view(), 0, seq![], old(names)@).1,
        match (r, grammar::program(src.deep_view(), 0, seq![], old(names)@).0) {
            (Ok(v), Ok(w)) => v.deep_view() == w,
            (Err(f), Err(g)) => f.deep_view() == g,
            _ => false,
        },
{
    let mut acc: Vec<Stmt> = Vec::new();
    assert(acc.deep_view() =~= Seq::<StmtM<Symbol>>::empty());
    let ghost s = src.deep_view();
    let ghost whole = grammar::program(s, 0, seq![], names@);
    let mut p: usize = 0;
    while p < src.toks.len()
        invariant
            s == src.deep_view(),
            src.ordered(),
            p <= src.toks@.len(),
            whole == grammar::program(s, 0, seq![], old(names)@),
            whole == grammar::program(s, p as nat, acc.deep_view(), names@),
        decreases src.toks@.len() - p,
    {
        let ghost before = acc.deep_view();
        let (one, j) = match parse_top(src, p, names) {
            Ok(x) => x,
            Err(f) => {
                return Err(f);
            },
        };
        let ghost one1 = one.deep_view();
        acc.push(one);
        assert(acc.deep_view() =~= before.push(one1));
        p = j;
    }
    Ok(acc)
}

} // verus!
