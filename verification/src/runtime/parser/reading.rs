//! What is written is read: the parser gives back the syntax tree that tokens
//! spell.

use crate::runtime::ast::model::{ActionStmtM, BinOpM, DeclM, ExprM, FieldM, StmtM, UnOpM};
use crate::runtime::interner::Symbol;
use crate::runtime::parser::grammar;
use crate::runtime::parser::grammar::{moved_on, tok, FailM, Names, Parsed, SourceM};
use crate::runtime::parser::spelling;
use crate::runtime::parser::spelling::{
    bare_width, block_width, entries_width, grip, items_width, list_width, params_width, prefix, sign, signature_width, spells, spells_bare, spells_block, spells_columns, spells_entries, spells_items, spells_list, spells_name, spells_params, spells_signature, spells_stmt, spells_type_opt, stmt_width, strength, type_width, width,
};
use crate::runtime::parser::token::TokenM;
use crate::runtime::tt::{ParamM, TypeM};
use vstd::prelude::*;

verus! {

/// Whether an expression whose parts hold together at least as tightly as `k`
/// ends before a token: it is no operator that holds as tightly, and begins no
/// arguments and no member.
pub open spec fn stops(k: nat, t: Option<TokenM>) -> bool {
    &&& t != Some(TokenM::LParen)
    &&& t != Some(TokenM::Dot)
    &&& forall|op: BinOpM| #[trigger] strength(op) >= k ==> t != Some(sign(op))
}

/// Whether something was read without a change of the names.
pub open spec fn got<T>(r: Parsed<T>, x: T, j: nat, names: Names) -> bool {
    r == (Ok::<(T, nat), FailM>((x, j)), names)
}

proof fn lemma_name(src: SourceM, names: Names, i: nat, s: Symbol)
    requires
        spells_name(src, names, i, s),
    ensures
        got(grammar::ident(src, i, names), s, i + 1, names),
        moved_on(src, i, i + 1),
{
    assert(names.contains(names[s.id as int]));
}

proof fn lemma_type(src: SourceM, i: nat, t: Option<TypeM>)
    requires
        spells_type_opt(src, i, t),
    ensures
        grammar::ty_opt(src, i) == Ok::<(Option<TypeM>, nat), FailM>((t, i + type_width(t))),
{
}

/// The operators of a level.
proof fn lemma_level_op(k: nat, op: BinOpM)
    ensures
        grammar::level_op(k, Some(sign(op))) == (if strength(op) == k + 1 {
            Some(op)
        } else {
            None
        }),
{
}

/// Nothing goes on before a token that stops.
proof fn lemma_no_op(k: nat, t: Option<TokenM>)
    requires
        stops(k + 1, t),
    ensures
        grammar::level_op(k, t) is None,
{
    if let Some(op) = grammar::level_op(k, t) {
        assert(t == Some(sign(op)) && strength(op) == k + 1);
    }
}

/// What stops early stops late.
proof fn lemma_stops_more(a: nat, b: nat, t: Option<TokenM>)
    requires
        stops(a, t),
        a <= b,
    ensures
        stops(b, t),
{
}

/// The sign of an operator stops what holds together more tightly.
proof fn lemma_sign_stops(op: BinOpM)
    ensures
        stops(strength(op) + 1, Some(sign(op))),
{
    assert forall|q: BinOpM| #[trigger] strength(q) >= strength(op) + 1 implies sign(q) != sign(
        op,
    ) by {}
}

/// The tightest level is that of unary operators.
proof fn step_tightest(src: SourceM, names: Names, i: nat)
    ensures
        grammar::level(src, 6, i, names) == grammar::unary(src, i, names),
{
    reveal(grammar::level);
    reveal(grammar::unary);
    reveal(grammar::rest);
}

/// An operand is read, and then what comes behind it.
proof fn step_level(src: SourceM, names: Names, k: nat, i: nat, e: ExprM<Symbol>, j: nat)
    requires
        k < 6,
        got(grammar::level(src, k + 1, i, names), e, j, names),
        moved_on(src, i, j),
    ensures
        grammar::level(src, k, i, names) == grammar::rest(src, k, e, j, names),
{
    reveal(grammar::level);
    reveal(grammar::unary);
    reveal(grammar::rest);
}

/// No operator comes.
proof fn step_end(src: SourceM, names: Names, k: nat, e: ExprM<Symbol>, i: nat)
    requires
        grammar::level_op(k, tok(src, i)) is None,
    ensures
        got(grammar::rest(src, k, e, i, names), e, i, names),
{
    reveal(grammar::rest);
    reveal(grammar::level);
}

/// An operator comes, and an operand.
proof fn step_op(
    src: SourceM,
    names: Names,
    k: nat,
    op: BinOpM,
    e1: ExprM<Symbol>,
    i: nat,
    e2: ExprM<Symbol>,
    j: nat,
)
    requires
        grammar::level_op(k, tok(src, i)) == Some(op),
        got(grammar::level(src, k + 1, i + 1, names), e2, j, names),
        moved_on(src, i, j),
    ensures
        grammar::rest(src, k, e1, i, names) == grammar::rest(
            src,
            k,
            ExprM::Binop { op, expr1: Box::new(e1), expr2: Box::new(e2) },
            j,
            names,
        ),
{
    reveal(grammar::rest);
    reveal(grammar::level);
}

/// A unary operator and its operand.
proof fn step_prefix(
    src: SourceM,
    names: Names,
    i: nat,
    op: UnOpM,
    e: ExprM<Symbol>,
    j: nat,
)
    requires
        tok(src, i) == Some(prefix(op)),
        got(grammar::unary(src, i + 1, names), e, j, names),
    ensures
        got(
            grammar::unary(src, i, names),
            ExprM::Unop { op, expr: Box::new(e) },
            j,
            names,
        ),
{
    reveal(grammar::unary);
    reveal(grammar::primary);
    reveal(grammar::calls);
}

/// What is no operation, and then arguments.
proof fn step_head(src: SourceM, names: Names, i: nat, e: ExprM<Symbol>, j: nat)
    requires
        tok(src, i) != Some(TokenM::Minus),
        tok(src, i) != Some(TokenM::NOT_NOT),
        got(grammar::primary(src, i, names), e, j, names),
        moved_on(src, i, j),
    ensures
        grammar::unary(src, i, names) == grammar::calls(src, e, j, names),
{
    reveal(grammar::unary);
    reveal(grammar::primary);
    reveal(grammar::calls);
}

/// No arguments come.
proof fn step_uncalled(src: SourceM, names: Names, e: ExprM<Symbol>, i: nat)
    requires
        tok(src, i) != Some(TokenM::LParen),
    ensures
        got(grammar::calls(src, e, i, names), e, i, names),
{
    reveal(grammar::calls);
    reveal(grammar::list);
}

/// Arguments come.
proof fn step_called(
    src: SourceM,
    names: Names,
    f: ExprM<Symbol>,
    i: nat,
    args: Seq<ExprM<Symbol>>,
    j: nat,
)
    requires
        tok(src, i) == Some(TokenM::LParen),
        got(grammar::list(src, i + 1, TokenM::RParen, names), args, j, names),
        moved_on(src, i, j),
    ensures
        grammar::calls(src, f, i, names) == grammar::calls(
            src,
            ExprM::Call { func: Box::new(f), args },
            j,
            names,
        ),
{
    reveal(grammar::calls);
    reveal(grammar::list);
}

/// A conditional.
proof fn step_if(
    src: SourceM,
    names: Names,
    i: nat,
    c: ExprM<Symbol>,
    j: nat,
    a: ExprM<Symbol>,
    k: nat,
    b: ExprM<Symbol>,
    l: nat,
)
    requires
        tok(src, i) == Some(TokenM::IF_KW),
        got(grammar::level(src, 0, i + 1, names), c, j, names),
        tok(src, j) == Some(TokenM::THEN_KW),
        moved_on(src, i + 1, j),
        got(grammar::level(src, 0, j + 1, names), a, k, names),
        tok(src, k) == Some(TokenM::ELSE_KW),
        moved_on(src, j + 1, k),
        got(grammar::level(src, 0, k + 1, names), b, l, names),
    ensures
        got(
            grammar::primary(src, i, names),
            ExprM::If { cond: Box::new(c), expr1: Box::new(a), expr2: Box::new(b) },
            l,
            names,
        ),
{
    reveal(grammar::conditional);
    reveal(grammar::primary);
    reveal(grammar::level);
}

/// A function.
proof fn step_func(
    src: SourceM,
    names: Names,
    i: nat,
    ps: Seq<ParamM<Symbol>>,
    j: nat,
    t: Option<TypeM>,
    e: ExprM<Symbol>,
    l: nat,
)
    requires
        tok(src, i) == Some(TokenM::FN_KW),
        tok(src, i + 1) == Some(TokenM::LParen),
        got(grammar::params(src, i + 2, names), ps, j, names),
        moved_on(src, i + 2, j),
        spells_type_opt(src, j, t),
        tok(src, j + type_width(t)) == Some(TokenM::Fn_Assgn),
        got(grammar::level(src, 0, j + type_width(t) + 1, names), e, l, names),
    ensures
        got(
            grammar::primary(src, i, names),
            ExprM::Func { params: ps, body: Box::new(e), return_ty: t },
            l,
            names,
        ),
{
    reveal(grammar::function);
    reveal(grammar::primary);
    reveal(grammar::level);
    lemma_type(src, j, t);
}

/// A list in square brackets.
proof fn step_tuple(src: SourceM, names: Names, i: nat, v: Seq<ExprM<Symbol>>, j: nat)
    requires
        tok(src, i) == Some(TokenM::LSquare),
        got(grammar::list(src, i + 1, TokenM::RSquare, names), v, j, names),
    ensures
        got(grammar::primary(src, i, names), ExprM::Tuple { val: v }, j, names),
{
    reveal(grammar::list);
    reveal(grammar::primary);
}

/// Named entries in braces.
proof fn step_record(src: SourceM, names: Names, i: nat, v: Seq<ExprM<Symbol>>, j: nat)
    requires
        tok(src, i) == Some(TokenM::LBrace),
        tok(src, i + 1) != Some(TokenM::RBrace),
        got(grammar::entries(src, i + 1, seq![], names), v, j, names),
    ensures
        got(grammar::primary(src, i, names), ExprM::Tuple { val: v }, j, names),
{
    reveal(grammar::entries);
    reveal(grammar::primary);
}

/// An action.
proof fn step_action(src: SourceM, names: Names, i: nat, v: Seq<ActionStmtM<Symbol>>, j: nat)
    requires
        tok(src, i) == Some(TokenM::ACTION_KW),
        tok(src, i + 1) == Some(TokenM::LBrace),
        got(grammar::stmts(src, i + 2, seq![], names), v, j, names),
    ensures
        got(grammar::primary(src, i, names), ExprM::Action(v), j, names),
{
    reveal(grammar::stmts);
    reveal(grammar::primary);
}

/// A selection.
proof fn step_select(
    src: SourceM,
    names: Names,
    i: nat,
    cols: Seq<Symbol>,
    j: nat,
    table: Symbol,
    e: ExprM<Symbol>,
    l: nat,
)
    requires
        tok(src, i) == Some(TokenM::SELECT_KW),
        got(grammar::columns(src, i + 1, seq![], names), cols, j, names),
        moved_on(src, i + 1, j),
        spells_name(src, names, j, table),
        tok(src, j + 1) == Some(TokenM::WHERE_KW),
        got(grammar::level(src, 0, j + 2, names), e, l, names),
    ensures
        got(
            grammar::primary(src, i, names),
            ExprM::Select { table_name: table, column_names: cols, where_clause: Box::new(e) },
            l,
            names,
        ),
{
    reveal(grammar::selection);
    reveal(grammar::primary);
    reveal(grammar::level);
    lemma_name(src, names, j, table);
}

/// A folding.
proof fn step_fold(
    src: SourceM,
    names: Names,
    i: nat,
    table: Symbol,
    column: Symbol,
    op: ExprM<Symbol>,
    j: nat,
    id: ExprM<Symbol>,
    l: nat,
)
    requires
        tok(src, i) == Some(TokenM::FOLD_KW),
        tok(src, i + 1) == Some(TokenM::LParen),
        spells_name(src, names, i + 2, table),
        tok(src, i + 3) == Some(TokenM::Dot),
        spells_name(src, names, i + 4, column),
        tok(src, i + 5) == Some(TokenM::Comma),
        got(grammar::level(src, 0, i + 6, names), op, j, names),
        moved_on(src, i + 6, j),
        tok(src, j) == Some(TokenM::Comma),
        got(grammar::level(src, 0, j + 1, names), id, l, names),
        tok(src, l) == Some(TokenM::RParen),
    ensures
        got(
            grammar::primary(src, i, names),
            ExprM::Fold {
                table_name: table,
                column_name: column,
                operation: Box::new(op),
                identity: Box::new(id),
            },
            l + 1,
            names,
        ),
{
    reveal(grammar::folding);
    reveal(grammar::primary);
    reveal(grammar::level);
    lemma_name(src, names, i + 2, table);
    lemma_name(src, names, i + 4, column);
}

/// What is in brackets.
proof fn step_group(src: SourceM, names: Names, i: nat, e: ExprM<Symbol>, j: nat)
    requires
        tok(src, i) == Some(TokenM::LParen),
        got(grammar::level(src, 0, i + 1, names), e, j, names),
        tok(src, j) == Some(TokenM::RParen),
    ensures
        got(grammar::primary(src, i, names), e, j + 1, names),
{
    reveal(grammar::primary);
    reveal(grammar::level);
}

/// One more expression of a list.
proof fn step_more(
    src: SourceM,
    names: Names,
    i: nat,
    close: TokenM,
    acc: Seq<ExprM<Symbol>>,
    e: ExprM<Symbol>,
    j: nat,
)
    requires
        got(grammar::level(src, 0, i, names), e, j, names),
        moved_on(src, i, j),
        close != TokenM::Comma,
    ensures
        tok(src, j) == Some(TokenM::Comma) ==> grammar::more(src, i, close, acc, names)
            == grammar::more(src, j + 1, close, acc.push(e), names),
        tok(src, j) == Some(close) ==> got(
            grammar::more(src, i, close, acc, names),
            acc.push(e),
            j + 1,
            names,
        ),
{
    reveal(grammar::more);
    reveal(grammar::level);
}

/// One more named entry.
proof fn step_entry(
    src: SourceM,
    names: Names,
    i: nat,
    acc: Seq<ExprM<Symbol>>,
    name: Symbol,
    e: ExprM<Symbol>,
    j: nat,
)
    requires
        spells_name(src, names, i, name),
        tok(src, i + 1) == Some(TokenM::Colon),
        got(grammar::level(src, 0, i + 2, names), e, j, names),
        moved_on(src, i + 2, j),
    ensures
        ({
            let all = acc.push(ExprM::KeyVal { name, value: Box::new(e) });
            &&& tok(src, j) == Some(TokenM::Comma) ==> grammar::entries(src, i, acc, names)
                == grammar::entries(src, j + 1, all, names)
            &&& tok(src, j) == Some(TokenM::RBrace) ==> got(
                grammar::entries(src, i, acc, names),
                all,
                j + 1,
                names,
            )
        }),
{
    reveal(grammar::entries);
    reveal(grammar::level);
    lemma_name(src, names, i, name);
}

/// One more statement of a block.
proof fn step_stmt(
    src: SourceM,
    names: Names,
    i: nat,
    acc: Seq<ActionStmtM<Symbol>>,
    s: ActionStmtM<Symbol>,
    j: nat,
)
    requires
        tok(src, i) != Some(TokenM::RBrace),
        got(grammar::stmt(src, i, names), s, j, names),
        moved_on(src, i, j),
    ensures
        grammar::stmts(src, i, acc, names) == grammar::stmts(src, j, acc.push(s), names),
{
    reveal(grammar::stmts);
    reveal(grammar::stmt);
}

/// A statement that binds a name.
proof fn step_let(
    src: SourceM,
    names: Names,
    i: nat,
    name: Symbol,
    t: Option<TypeM>,
    e: ExprM<Symbol>,
    j: nat,
)
    requires
        tok(src, i) == Some(TokenM::LET_KW),
        spells_name(src, names, i + 1, name),
        spells_type_opt(src, i + 2, t),
        tok(src, i + 2 + type_width(t)) == Some(TokenM::Assgn),
        got(grammar::level(src, 0, i + 3 + type_width(t), names), e, j, names),
        tok(src, j) == Some(TokenM::Semicolon),
    ensures
        got(
            grammar::stmt(src, i, names),
            ActionStmtM::Let { name, ty: t, expr: e },
            j + 1,
            names,
        ),
{
    reveal(grammar::stmt);
    reveal(grammar::level);
    lemma_name(src, names, i + 1, name);
    lemma_type(src, i + 2, t);
}

/// A statement that is an expression.
proof fn step_expr(src: SourceM, names: Names, i: nat, e: ExprM<Symbol>, j: nat)
    requires
        can_begin(tok(src, i)),
        tok(src, i)->Some_0 is Ident ==> tok(src, i + 1) != Some(TokenM::Assgn),
        got(grammar::level(src, 0, i, names), e, j, names),
        tok(src, j) == Some(TokenM::Semicolon),
    ensures
        got(grammar::stmt(src, i, names), ActionStmtM::Expr(e), j + 1, names),
{
    reveal(grammar::stmt);
    reveal(grammar::level);
}

/// A statement that does an action.
proof fn step_do(src: SourceM, names: Names, i: nat, e: ExprM<Symbol>, j: nat)
    requires
        tok(src, i) == Some(TokenM::DO_KW),
        got(grammar::level(src, 0, i + 1, names), e, j, names),
        tok(src, j) == Some(TokenM::Semicolon),
    ensures
        got(grammar::stmt(src, i, names), ActionStmtM::Do(e), j + 1, names),
{
    reveal(grammar::stmt);
    reveal(grammar::level);
}

/// A statement that asserts something.
proof fn step_assert(
    src: SourceM,
    names: Names,
    i: nat,
    e: ExprM<Symbol>,
    text: Seq<char>,
    j: nat,
)
    requires
        tok(src, i) == Some(TokenM::ASSERT_KW),
        tok(src, i + 1) == Some(TokenM::LParen),
        got(grammar::level(src, 0, i + 2, names), e, j, names),
        tok(src, j) == Some(TokenM::RParen),
        tok(src, j + 1) == Some(TokenM::Semicolon),
        text == src.chars.subrange(src.toks[i + 2int].start as int, src.toks[j - 1].end as int),
        crate::runtime::text::byte_len(text) <= crate::runtime::limits::MAX_STRING_LITERAL_LENGTH,
    ensures
        got(grammar::stmt(src, i, names), ActionStmtM::Assert(e, text), j + 2, names),
{
    reveal(grammar::stmt);
    reveal(grammar::assertion);
    reveal(grammar::level);
}

/// A statement that assigns to a name.
proof fn step_assign(
    src: SourceM,
    names: Names,
    i: nat,
    name: Symbol,
    e: ExprM<Symbol>,
    j: nat,
)
    requires
        spells_name(src, names, i, name),
        tok(src, i + 1) == Some(TokenM::Assgn),
        got(grammar::level(src, 0, i + 2, names), e, j, names),
        tok(src, j) == Some(TokenM::Semicolon),
    ensures
        got(
            grammar::stmt(src, i, names),
            ActionStmtM::Assign { name, expr: e },
            j + 1,
            names,
        ),
{
    reveal(grammar::stmt);
    reveal(grammar::level);
    lemma_name(src, names, i, name);
}

/// A statement that inserts a row.
proof fn step_insert(
    src: SourceM,
    names: Names,
    i: nat,
    e: ExprM<Symbol>,
    j: nat,
    table: Symbol,
)
    requires
        tok(src, i) == Some(TokenM::INSERT_KW),
        got(grammar::level(src, 0, i + 1, names), e, j, names),
        tok(src, j) == Some(TokenM::INTO_KW),
        spells_name(src, names, j + 1, table),
        tok(src, j + 2) == Some(TokenM::Semicolon),
    ensures
        got(
            grammar::stmt(src, i, names),
            ActionStmtM::Insert { row: e, table_name: table },
            j + 3,
            names,
        ),
{
    reveal(grammar::stmt);
    reveal(grammar::level);
    lemma_name(src, names, j + 1, table);
}

/// What is read on a tight level is read on a loose one, where it stops.
proof fn lemma_lift(
    src: SourceM,
    names: Names,
    from: nat,
    to: nat,
    i: nat,
    e: ExprM<Symbol>,
    j: nat,
)
    requires
        to <= from <= 6,
        got(grammar::level(src, from, i, names), e, j, names),
        moved_on(src, i, j),
        stops(to + 1, tok(src, j)),
    ensures
        got(grammar::level(src, to, i, names), e, j, names),
    decreases from - to,
{
    if to < from {
        lemma_stops_more(to + 1, to + 2, tok(src, j));
        lemma_lift(src, names, from, to + 1, i, e, j);
        lemma_no_op(to, tok(src, j));
        step_level(src, names, to, i, e, j);
        step_end(src, names, to, e, j);
    }
}

/// The level of the grammar on which what holds together as tightly as `k` is
/// read.
pub open spec fn level_for(k: nat) -> nat {
    if k == 0 {
        0
    } else {
        (k - 1) as nat
    }
}

/// An expression that is spelled is read, as far as it goes.
pub proof fn lemma_read(src: SourceM, names: Names, i: nat, e: ExprM<Symbol>, k: nat)
    requires
        k <= 7,
        spells(src, names, i, e, k),
        stops(k, tok(src, i + width(e, k))),
    ensures
        moved_on(src, i, i + width(e, k)),
        got(grammar::level(src, level_for(k), i, names), e, i + width(e, k), names),
    decreases
        e,
        if grip(e) < k {
            1nat
        } else {
            0nat
        },
        4nat,
{
    let j = i + width(e, k);
    if grip(e) < k || grip(e) >= 8 {
        assert(spells(src, names, i, e, 8));
        assert(width(e, 8) == width(e, k));
        lemma_post(src, names, i, e);
        step_uncalled(src, names, e, j);
        step_tightest(src, names, i);
        lemma_lift(src, names, 6, level_for(k), i, e, j);
    } else if grip(e) == 0 {
        assert(spells_bare(src, names, i, e));
        assert(width(e, k) == bare_width(e));
        lemma_primary(src, names, i, e);
        step_head(src, names, i, e, j);
        step_uncalled(src, names, e, j);
        step_tightest(src, names, i);
        lemma_lift(src, names, 6, 0, i, e, j);
    } else if grip(e) == 7 {
        assert(spells_bare(src, names, i, e));
        assert(width(e, k) == bare_width(e));
        if let ExprM::Unop { op, expr } = e {
            lemma_stops_more(k, 7, tok(src, j));
            lemma_read(src, names, i + 1, *expr, 7);
            step_tightest(src, names, i + 1);
            step_prefix(src, names, i, op, *expr, j);
            step_tightest(src, names, i);
            lemma_lift(src, names, 6, level_for(k), i, e, j);
        }
    } else {
        assert(spells_bare(src, names, i, e));
        assert(width(e, k) == bare_width(e));
        let s = grip(e);
        assert(spells(src, names, i, e, s));
        assert(width(e, s) == bare_width(e));
        lemma_stops_more(k, s + 1, tok(src, j));
        lemma_spine(src, names, i, e, s);
        lemma_stops_more(k, s, tok(src, j));
        lemma_no_op((s - 1) as nat, tok(src, j));
        step_end(src, names, (s - 1) as nat, e, j);
        lemma_lift(src, names, (s - 1) as nat, level_for(k), i, e, j);
    }
}

/// An operand of operators of one strength is read, and then what comes behind
/// it: these operators group to the left.
proof fn lemma_spine(src: SourceM, names: Names, i: nat, e: ExprM<Symbol>, s: nat)
    requires
        1 <= s <= 6,
        spells(src, names, i, e, s),
        stops(s + 1, tok(src, i + width(e, s))),
    ensures
        moved_on(src, i, i + width(e, s)),
        grammar::level(src, (s - 1) as nat, i, names) == grammar::rest(
            src,
            (s - 1) as nat,
            e,
            i + width(e, s),
            names,
        ),
    decreases
        e,
        if grip(e) < s {
            1nat
        } else {
            0nat
        },
        if grip(e) == s {
            2nat
        } else {
            5nat
        },
{
    let k = (s - 1) as nat;
    if grip(e) == s {
        assert(spells_bare(src, names, i, e));
        assert(width(e, s) == bare_width(e));
        if let ExprM::Binop { op, expr1, expr2 } = e {
            let j = i + width(*expr1, s);
            lemma_sign_stops(op);
            lemma_spine(src, names, i, *expr1, s);
            lemma_read(src, names, j + 1, *expr2, s + 1);
            lemma_level_op(k, op);
            step_op(src, names, k, op, *expr1, j, *expr2, i + width(e, s));
        }
    } else {
        assert(spells(src, names, i, e, s + 1));
        assert(width(e, s + 1) == width(e, s));
        lemma_read(src, names, i, e, s + 1);
        assert(level_for(s + 1) == k + 1);
        step_level(src, names, k, i, e, i + width(e, s));
    }
}

/// A function that may be called is read, and then what comes behind it.
proof fn lemma_post(src: SourceM, names: Names, i: nat, e: ExprM<Symbol>)
    requires
        spells(src, names, i, e, 8),
        tok(src, i + width(e, 8)) != Some(TokenM::Dot),
    ensures
        moved_on(src, i, i + width(e, 8)),
        grammar::unary(src, i, names) == grammar::calls(src, e, i + width(e, 8), names),
    decreases
        e,
        if grip(e) < 8 {
            1nat
        } else {
            0nat
        },
        3nat,
{
    let j = i + width(e, 8);
    if grip(e) == 8 {
        assert(spells_bare(src, names, i, e));
        if let ExprM::Call { func, args } = e {
            let f = i + width(*func, 8);
            lemma_post(src, names, i, *func);
            lemma_items(src, names, f + 1, args, TokenM::RParen);
            step_called(src, names, *func, f, args, j);
        }
    } else if grip(e) == 9 {
        assert(spells_bare(src, names, i, e));
        lemma_primary(src, names, i, e);
        step_head(src, names, i, e, j);
    } else {
        lemma_group(src, names, i, e);
        step_head(src, names, i, e, j);
    }
}

/// An expression in brackets is read.
proof fn lemma_group(src: SourceM, names: Names, i: nat, e: ExprM<Symbol>)
    requires
        tok(src, i) == Some(TokenM::LParen),
        spells_bare(src, names, i + 1, e),
        tok(src, i + 1 + bare_width(e)) == Some(TokenM::RParen),
    ensures
        moved_on(src, i, i + 2 + bare_width(e)),
        got(grammar::primary(src, i, names), e, i + 2 + bare_width(e), names),
    decreases e, 1nat, 2nat,
{
    assert(spells(src, names, i + 1, e, 0));
    assert(width(e, 0) == bare_width(e));
    lemma_read(src, names, i + 1, e, 0);
    step_group(src, names, i, e, i + 1 + bare_width(e));
}

/// An expression that is no operation is read.
proof fn lemma_primary(src: SourceM, names: Names, i: nat, e: ExprM<Symbol>)
    requires
        grip(e) == 0 || grip(e) == 9,
        spells_bare(src, names, i, e),
        tok(src, i + bare_width(e)) != Some(TokenM::Dot),
        grip(e) == 0 ==> stops(0, tok(src, i + bare_width(e))),
    ensures
        moved_on(src, i, i + bare_width(e)),
        got(grammar::primary(src, i, names), e, i + bare_width(e), names),
        tok(src, i) != Some(TokenM::Minus),
        tok(src, i) != Some(TokenM::NOT_NOT),
    decreases e, 0nat, 1nat,
{
    let j = i + bare_width(e);
    match e {
        ExprM::Literal { val } => {
            lemma_atom(src, names, i, e);
        },
        ExprM::Variable { name } => {
            lemma_atom(src, names, i, e);
        },
        ExprM::MemberAccess { service_name, member_name } => {
            lemma_atom(src, names, i, e);
        },
        ExprM::If { cond, expr1, expr2 } => {
            let a = i + 1 + width(*cond, 0);
            let b = a + 1 + width(*expr1, 0);
            lemma_closer_stops(tok(src, a));
            lemma_closer_stops(tok(src, b));
            lemma_read(src, names, i + 1, *cond, 0);
            lemma_read(src, names, a + 1, *expr1, 0);
            lemma_read(src, names, b + 1, *expr2, 0);
            step_if(src, names, i, *cond, a, *expr1, b, *expr2, j);
        },
        ExprM::Func { params, body, return_ty } => {
            let a = i + 2 + signature_width(params);
            lemma_signature(src, names, i + 2, params);
            lemma_read(src, names, a + type_width(return_ty) + 1, *body, 0);
            step_func(src, names, i, params, a, return_ty, *body, j);
        },
        ExprM::Tuple { val } => {
            if val.len() > 0 && val[0] is KeyVal {
                lemma_entries(src, names, i + 1, val, 0);
                assert(val.take(0) =~= seq![]);
                assert(entries_width(val, 0) == 0);
                step_record(src, names, i, val, j);
            } else {
                lemma_items(src, names, i + 1, val, TokenM::RSquare);
                step_tuple(src, names, i, val, j);
            }
        },
        ExprM::Action(stmts) => {
            lemma_block(src, names, i + 2, stmts, 0);
            assert(stmts.take(0) =~= seq![]);
            assert(block_width(stmts, 0) == 0);
            step_action(src, names, i, stmts, j);
        },
        ExprM::Select { table_name, column_names, where_clause } => {
            let a = i + 1 + 2 * column_names.len();
            lemma_columns(src, names, i + 1, column_names, 0);
            assert(column_names.take(0) =~= seq![]);
            lemma_read(src, names, a + 2, *where_clause, 0);
            step_select(src, names, i, column_names, a, table_name, *where_clause, j);
        },
        ExprM::Fold { table_name, column_name, operation, identity } => {
            let a = i + 6 + width(*operation, 0);
            let b = a + 1 + width(*identity, 0);
            lemma_closer_stops(tok(src, a));
            lemma_closer_stops(tok(src, b));
            lemma_read(src, names, i + 6, *operation, 0);
            lemma_read(src, names, a + 1, *identity, 0);
            step_fold(src, names, i, table_name, column_name, *operation, a, *identity, b);
        },
        _ => {},
    }
}

/// A literal or a name is read.
proof fn lemma_atom(src: SourceM, names: Names, i: nat, e: ExprM<Symbol>)
    requires
        e is Literal || e is Variable || e is MemberAccess,
        spells_bare(src, names, i, e),
        tok(src, i + bare_width(e)) != Some(TokenM::Dot),
    ensures
        moved_on(src, i, i + bare_width(e)),
        got(grammar::primary(src, i, names), e, i + bare_width(e), names),
        tok(src, i) != Some(TokenM::Minus),
        tok(src, i) != Some(TokenM::NOT_NOT),
{
    reveal(grammar::primary);
    match e {
        ExprM::Variable { name } => {
            lemma_name(src, names, i, name);
        },
        ExprM::MemberAccess { service_name, member_name } => {
            lemma_name(src, names, i, service_name);
            lemma_name(src, names, i + 2, member_name);
        },
        _ => {},
    }
}

/// Expressions are read, with what closes the list.
proof fn lemma_items(
    src: SourceM,
    names: Names,
    i: nat,
    v: Seq<ExprM<Symbol>>,
    close: TokenM,
)
    requires
        close is RParen || close is RSquare,
        spells_items(src, names, i, v, close),
    ensures
        moved_on(src, i, i + items_width(v)),
        got(grammar::list(src, i, close, names), v, i + items_width(v), names),
    decreases v, 1nat, v.len(),
{
    reveal(grammar::list);
    reveal(grammar::more);
    if v.len() > 0 {
        lemma_list(src, names, i, v, close, 0);
        assert(list_width(v, 0) == 0);
        assert(v.take(0) =~= seq![]);
        lemma_list_first(src, names, i, v, close);
    } else {
        assert(v =~= seq![]);
    }
}

/// A list that is not empty does not begin with what closes it.
proof fn lemma_list_first(
    src: SourceM,
    names: Names,
    i: nat,
    v: Seq<ExprM<Symbol>>,
    close: TokenM,
)
    requires
        v.len() > 0,
        close is RParen || close is RSquare,
        spells_list(src, names, i, v, close, v.len()),
    ensures
        tok(src, i) != Some(close),
{
    lemma_list_at(src, names, i, v, close, v.len(), 1);
    assert(list_width(v, 0) == 0);
    lemma_begins(src, names, i, v[0], 0);
}

/// The expression at a place of a list.
proof fn lemma_list_at(
    src: SourceM,
    names: Names,
    i: nat,
    v: Seq<ExprM<Symbol>>,
    close: TokenM,
    n: nat,
    m: nat,
)
    requires
        1 <= m <= n <= v.len(),
        spells_list(src, names, i, v, close, n),
    ensures
        spells(src, names, i + list_width(v, (m - 1) as nat), v[m - 1], 0),
        list_width(v, m) == list_width(v, (m - 1) as nat) + width(v[m - 1], 0) + 1,
        tok(src, i + list_width(v, (m - 1) as nat) + width(v[m - 1], 0)) == Some(
            if m == v.len() {
                close
            } else {
                TokenM::Comma
            },
        ),
    decreases n,
{
    if m < n {
        lemma_list_at(src, names, i, v, close, (n - 1) as nat, m);
    }
}

/// The expressions from place `m` on are read.
proof fn lemma_list(
    src: SourceM,
    names: Names,
    i: nat,
    v: Seq<ExprM<Symbol>>,
    close: TokenM,
    m: nat,
)
    requires
        m < v.len(),
        close is RParen || close is RSquare,
        spells_list(src, names, i, v, close, v.len()),
    ensures
        moved_on(src, i + list_width(v, m), i + list_width(v, v.len())),
        got(
            grammar::more(src, i + list_width(v, m), close, v.take(m as int), names),
            v,
            i + list_width(v, v.len()),
            names,
        ),
    decreases v, 0nat, v.len() - m,
{
    let at = i + list_width(v, m);
    lemma_list_at(src, names, i, v, close, v.len(), m + 1);
    assert(decreases_to!(v => v[m as int]));
    lemma_closer_stops(tok(src, at + width(v[m as int], 0)));
    lemma_read(src, names, at, v[m as int], 0);
    assert(v.take(m as int).push(v[m as int]) =~= v.take(m + 1int));
    if m + 1 < v.len() {
        lemma_list(src, names, i, v, close, m + 1);
    } else {
        assert(v.take(m + 1int) =~= v);
    }
    step_more(
        src,
        names,
        at,
        close,
        v.take(m as int),
        v[m as int],
        at + width(v[m as int], 0),
    );
}

/// What closes or separates stops every expression.
proof fn lemma_closer_stops(t: Option<TokenM>)
    requires
        t == Some(TokenM::RParen) || t == Some(TokenM::RSquare) || t == Some(TokenM::RBrace) || t
            == Some(TokenM::Comma) || t == Some(TokenM::Semicolon) || t == Some(TokenM::THEN_KW)
            || t == Some(TokenM::ELSE_KW) || t == Some(TokenM::INTO_KW),
    ensures
        stops(0, t),
{
}

/// The named entry at a place.
proof fn lemma_entry_at(
    src: SourceM,
    names: Names,
    i: nat,
    v: Seq<ExprM<Symbol>>,
    n: nat,
    m: nat,
)
    requires
        1 <= m <= n <= v.len(),
        spells_entries(src, names, i, v, n),
    ensures
        v[m - 1] matches ExprM::KeyVal { name, value } && ({
            let at = i + entries_width(v, (m - 1) as nat);
            &&& spells_name(src, names, at, name)
            &&& tok(src, at + 1) == Some(TokenM::Colon)
            &&& spells(src, names, at + 2, *value, 0)
            &&& tok(src, at + 2 + width(*value, 0)) == Some(
                if m == v.len() {
                    TokenM::RBrace
                } else {
                    TokenM::Comma
                },
            )
            &&& i + entries_width(v, m) == at + 3 + width(*value, 0)
        }),
    decreases n,
{
    if m < n {
        lemma_entry_at(src, names, i, v, (n - 1) as nat, m);
    }
}

/// The named entries from place `m` on are read.
proof fn lemma_entries(src: SourceM, names: Names, i: nat, v: Seq<ExprM<Symbol>>, m: nat)
    requires
        m < v.len(),
        spells_entries(src, names, i, v, v.len()),
    ensures
        moved_on(src, i + entries_width(v, m), i + entries_width(v, v.len())),
        got(
            grammar::entries(src, i + entries_width(v, m), v.take(m as int), names),
            v,
            i + entries_width(v, v.len()),
            names,
        ),
        tok(src, i + entries_width(v, m)) != Some(TokenM::RBrace),
    decreases v, 0nat, v.len() - m,
{
    let at = i + entries_width(v, m);
    lemma_entry_at(src, names, i, v, v.len(), m + 1);
    assert(decreases_to!(v => v[m as int]));
    if let ExprM::KeyVal { name, value } = v[m as int] {
        lemma_name(src, names, at, name);
        lemma_closer_stops(tok(src, at + 2 + width(*value, 0)));
        lemma_read(src, names, at + 2, *value, 0);
        assert(v.take(m as int).push(v[m as int]) =~= v.take(m + 1int));
        if m + 1 < v.len() {
            lemma_entries(src, names, i, v, m + 1);
        } else {
            assert(v.take(m + 1int) =~= v);
        }
        step_entry(
            src,
            names,
            at,
            v.take(m as int),
            name,
            *value,
            at + 2 + width(*value, 0),
        );
    }
}

/// The parameter at a place.
proof fn lemma_param_at(
    src: SourceM,
    names: Names,
    i: nat,
    v: Seq<ParamM<Symbol>>,
    n: nat,
    m: nat,
)
    requires
        1 <= m <= n <= v.len(),
        spells_params(src, names, i, v, n),
    ensures
        ({
            let at = i + params_width(v, (m - 1) as nat);
            &&& spells_name(src, names, at, v[m - 1].name)
            &&& spells_type_opt(src, at + 1, v[m - 1].ty)
            &&& tok(src, at + 1 + type_width(v[m - 1].ty)) == Some(
                if m == v.len() {
                    TokenM::RParen
                } else {
                    TokenM::Comma
                },
            )
            &&& i + params_width(v, m) == at + 2 + type_width(v[m - 1].ty)
        }),
    decreases n,
{
    if m < n {
        lemma_param_at(src, names, i, v, (n - 1) as nat, m);
    }
}

/// The parameters from place `m` on are read.
proof fn lemma_params(src: SourceM, names: Names, i: nat, v: Seq<ParamM<Symbol>>, m: nat)
    requires
        m < v.len(),
        spells_params(src, names, i, v, v.len()),
    ensures
        moved_on(src, i + params_width(v, m), i + params_width(v, v.len())),
        got(
            grammar::more_params(src, i + params_width(v, m), v.take(m as int), names),
            v,
            i + params_width(v, v.len()),
            names,
        ),
        tok(src, i + params_width(v, m)) != Some(TokenM::RParen),
    decreases v.len() - m,
{
    let at = i + params_width(v, m);
    let p = v[m as int];
    lemma_param_at(src, names, i, v, v.len(), m + 1);
    lemma_name(src, names, at, p.name);
    lemma_type(src, at + 1, p.ty);
    assert(v.take(m as int).push(ParamM { name: p.name, ty: p.ty }) =~= v.take(m + 1int));
    if m + 1 < v.len() {
        lemma_params(src, names, i, v, m + 1);
    } else {
        assert(v.take(m + 1int) =~= v);
    }
}

/// The parameters of a function are read.
proof fn lemma_signature(src: SourceM, names: Names, i: nat, v: Seq<ParamM<Symbol>>)
    requires
        spells_signature(src, names, i, v),
    ensures
        moved_on(src, i, i + signature_width(v)),
        got(grammar::params(src, i, names), v, i + signature_width(v), names),
{
    if v.len() > 0 {
        lemma_params(src, names, i, v, 0);
        assert(v.take(0) =~= seq![]);
    } else {
        assert(v =~= seq![]);
    }
}

/// The columns from place `m` on are read.
proof fn lemma_columns(src: SourceM, names: Names, i: nat, v: Seq<Symbol>, m: nat)
    requires
        m < v.len(),
        spells_columns(src, names, i, v),
    ensures
        moved_on(src, i + 2 * m, i + 2 * v.len()),
        got(
            grammar::columns(src, i + 2 * m, v.take(m as int), names),
            v,
            i + 2 * v.len(),
            names,
        ),
    decreases v.len() - m,
{
    let at = i + 2 * m;
    let s = v[m as int];
    assert(spells_name(src, names, at, s));
    lemma_name(src, names, at, s);
    assert(v.take(m as int).push(s) =~= v.take(m + 1int));
    if m + 1 < v.len() {
        lemma_columns(src, names, i, v, m + 1);
    } else {
        assert(v.take(m + 1int) =~= v);
    }
}

/// Whether a token can begin an expression.
pub open spec fn can_begin(t: Option<TokenM>) -> bool {
    match t {
        Some(t) => t is StrLit || t is Ident || t is Number || t is TRUE || t is FALSE || t
            is Minus || t is NOT_NOT || t is LParen || t is LSquare || t is LBrace || t is IF_KW
            || t is FN_KW || t is ACTION_KW || t is SELECT_KW || t is FOLD_KW,
        None => false,
    }
}

/// What an expression begins with; behind a name comes no `=`.
proof fn lemma_begins(src: SourceM, names: Names, i: nat, e: ExprM<Symbol>, k: nat)
    requires
        spells(src, names, i, e, k),
    ensures
        can_begin(tok(src, i)),
        tok(src, i)->Some_0 is Ident && tok(src, i + width(e, k)) != Some(TokenM::Assgn) ==> tok(
            src,
            i + 1,
        ) != Some(TokenM::Assgn),
        width(e, k) >= 1,
    decreases e,
{
    if grip(e) >= k {
        assert(spells_bare(src, names, i, e));
        match e {
            ExprM::Binop { op, expr1, expr2 } => {
                lemma_begins(src, names, i, *expr1, strength(op));
            },
            ExprM::Call { func, args } => {
                lemma_begins(src, names, i, *func, 8);
            },
            _ => {},
        }
    }
}

/// The statement at a place of a block.
proof fn lemma_stmt_at(
    src: SourceM,
    names: Names,
    i: nat,
    v: Seq<ActionStmtM<Symbol>>,
    n: nat,
    m: nat,
)
    requires
        1 <= m <= n <= v.len(),
        spells_block(src, names, i, v, n),
    ensures
        spells_stmt(src, names, i + block_width(v, (m - 1) as nat), v[m - 1]),
        block_width(v, m) == block_width(v, (m - 1) as nat) + stmt_width(v[m - 1]),
    decreases n,
{
    if m < n {
        lemma_stmt_at(src, names, i, v, (n - 1) as nat, m);
    }
}

/// The statements from place `m` on are read, up to the closing brace.
proof fn lemma_block(src: SourceM, names: Names, i: nat, v: Seq<ActionStmtM<Symbol>>, m: nat)
    requires
        m <= v.len(),
        spells_block(src, names, i, v, v.len()),
        tok(src, i + block_width(v, v.len())) == Some(TokenM::RBrace),
    ensures
        moved_on(src, i + block_width(v, m), i + block_width(v, v.len()) + 1),
        got(
            grammar::stmts(src, i + block_width(v, m), v.take(m as int), names),
            v,
            i + block_width(v, v.len()) + 1,
            names,
        ),
    decreases v, 0nat, v.len() - m,
{
    if m < v.len() {
        let at = i + block_width(v, m);
        lemma_stmt_at(src, names, i, v, v.len(), m + 1);
        assert(decreases_to!(v => v[m as int]));
        lemma_stmt(src, names, at, v[m as int]);
        assert(v.take(m as int).push(v[m as int]) =~= v.take(m + 1int));
        step_stmt(src, names, at, v.take(m as int), v[m as int], at + stmt_width(v[m as int]));
        lemma_block(src, names, i, v, m + 1);
    } else {
        assert(v.take(m as int) =~= v);
        reveal(grammar::stmts);
        reveal(grammar::stmt);
    }
}

/// A statement that is spelled is read.
proof fn lemma_stmt(src: SourceM, names: Names, i: nat, s: ActionStmtM<Symbol>)
    requires
        spells_stmt(src, names, i, s),
    ensures
        moved_on(src, i, i + stmt_width(s)),
        got(grammar::stmt(src, i, names), s, i + stmt_width(s), names),
        tok(src, i) != Some(TokenM::RBrace),
        tok(src, i) != Some(TokenM::SERVICE),
        tok(src, i) != Some(TokenM::TEST_KW),
        tok(src, i) != Some(TokenM::IMPORT_KW),
        tok(src, i) != Some(TokenM::WATCH_KW),
    decreases s, 0nat, 0nat,
{
    match s {
        ActionStmtM::Let { name, ty, expr } => {
            let j = i + 3 + type_width(ty);
            lemma_closer_stops(tok(src, j + width(expr, 0)));
            lemma_read(src, names, j, expr, 0);
            step_let(src, names, i, name, ty, expr, j + width(expr, 0));
        },
        ActionStmtM::Expr(e) => {
            lemma_begins(src, names, i, e, 0);
            lemma_closer_stops(tok(src, i + width(e, 0)));
            lemma_read(src, names, i, e, 0);
            step_expr(src, names, i, e, i + width(e, 0));
        },
        ActionStmtM::Do(e) => {
            lemma_closer_stops(tok(src, i + 1 + width(e, 0)));
            lemma_read(src, names, i + 1, e, 0);
            step_do(src, names, i, e, i + 1 + width(e, 0));
        },
        ActionStmtM::Assert(e, text) => {
            lemma_closer_stops(tok(src, i + 2 + width(e, 0)));
            lemma_read(src, names, i + 2, e, 0);
            step_assert(src, names, i, e, text, i + 2 + width(e, 0));
        },
        ActionStmtM::Assign { name, expr } => {
            lemma_closer_stops(tok(src, i + 2 + width(expr, 0)));
            lemma_read(src, names, i + 2, expr, 0);
            step_assign(src, names, i, name, expr, i + 2 + width(expr, 0));
        },
        ActionStmtM::Insert { row, table_name } => {
            let j = i + 1 + width(row, 0);
            lemma_closer_stops(tok(src, j));
            lemma_read(src, names, i + 1, row, 0);
            step_insert(src, names, i, row, j, table_name);
        },
    }
}

/// An expression that tokens spell is what the parser reads there, up to where
/// it ends. So brackets group, operators bind as tightly as they should and
/// group to the left, and every part of an expression is where it belongs.
pub proof fn law_spelled_expression_is_read(
    src: SourceM,
    names: Names,
    i: nat,
    e: ExprM<Symbol>,
)
    requires
        spells(src, names, i, e, 0),
        stops(0, tok(src, i + width(e, 0))),
    ensures
        got(grammar::expr(src, i, names), e, i + width(e, 0), names),
{
    lemma_read(src, names, i, e, 0);
}

/// A statement that tokens spell is what the parser reads there.
pub proof fn law_spelled_statement_is_read(
    src: SourceM,
    names: Names,
    i: nat,
    s: ActionStmtM<Symbol>,
)
    requires
        spells_stmt(src, names, i, s),
    ensures
        got(grammar::stmt(src, i, names), s, i + stmt_width(s), names),
{
    lemma_stmt(src, names, i, s);
}

/// A name, perhaps a type, a value and the end are read.
proof fn lemma_member(
    src: SourceM,
    names: Names,
    i: nat,
    name: Symbol,
    ty: Option<TypeM>,
    val: ExprM<Symbol>,
)
    requires
        spelling::spells_member(src, names, i, name, ty, val),
    ensures
        got(
            grammar::member(src, i, names),
            ((name, ty), val),
            i + 3 + type_width(ty) + width(val, 0),
            names,
        ),
        moved_on(src, i, i + 3 + type_width(ty) + width(val, 0)),
{
    let j = i + 2 + type_width(ty);
    lemma_name(src, names, i, name);
    lemma_type(src, i + 1, ty);
    lemma_closer_stops(tok(src, j + width(val, 0)));
    lemma_read(src, names, j, val, 0);
}

/// The columns of a table from place `m` on are read.
proof fn lemma_fields(src: SourceM, names: Names, i: nat, v: Seq<FieldM<Symbol>>, m: nat)
    requires
        m < v.len(),
        spelling::spells_fields(src, names, i, v),
    ensures
        moved_on(src, i + 4 * m, i + 4 * v.len()),
        got(
            grammar::fields(src, i + 4 * m, v.take(m as int), names),
            v,
            i + 4 * v.len(),
            names,
        ),
        tok(src, i + 4 * m) != Some(TokenM::RBrace),
    decreases v.len() - m,
{
    let at = i + 4 * m;
    let f = v[m as int];
    assert(spells_name(src, names, at, f.name));
    lemma_name(src, names, at, f.name);
    assert(v.take(m as int).push(FieldM { name: f.name, ty: f.ty }) =~= v.take(m + 1int));
    if m + 1 < v.len() {
        lemma_fields(src, names, i, v, m + 1);
    } else {
        assert(v.take(m + 1int) =~= v);
    }
}

/// A declaration that tokens spell is what the parser reads there.
pub proof fn law_spelled_declaration_is_read(
    src: SourceM,
    names: Names,
    i: nat,
    d: DeclM<Symbol>,
)
    requires
        spelling::spells_decl(src, names, i, d),
    ensures
        got(grammar::decl(src, i, names), d, i + spelling::decl_width(d), names),
        moved_on(src, i, i + spelling::decl_width(d)),
        tok(src, i) != Some(TokenM::RBrace),
{
    match d {
        DeclM::VarDecl { name, ty, val } => {
            lemma_member(src, names, i + 1, name, ty, val);
        },
        DeclM::DefDecl { name, ty, val, is_pub } => {
            if is_pub {
                lemma_member(src, names, i + 2, name, ty, val);
            } else {
                lemma_member(src, names, i + 1, name, ty, val);
            }
        },
        DeclM::TableDecl { name, fields } => {
            lemma_name(src, names, i + 1, name);
            if fields.len() > 0 {
                lemma_fields(src, names, i + 3, fields, 0);
                assert(fields.take(0) =~= seq![]);
            } else {
                assert(fields =~= seq![]);
            }
        },
    }
}

/// The declaration at a place of a service.
proof fn lemma_decl_at(
    src: SourceM,
    names: Names,
    i: nat,
    v: Seq<DeclM<Symbol>>,
    n: nat,
    m: nat,
)
    requires
        1 <= m <= n <= v.len(),
        spelling::spells_decls(src, names, i, v, n),
    ensures
        spelling::spells_decl(
            src,
            names,
            i + spelling::decls_width(v, (m - 1) as nat),
            v[m - 1],
        ),
        spelling::decls_width(v, m) == spelling::decls_width(v, (m - 1) as nat)
            + spelling::decl_width(v[m - 1]),
    decreases n,
{
    if m < n {
        lemma_decl_at(src, names, i, v, (n - 1) as nat, m);
    }
}

/// The declarations from place `m` on are read, up to the closing brace.
proof fn lemma_decls(src: SourceM, names: Names, i: nat, v: Seq<DeclM<Symbol>>, m: nat)
    requires
        m <= v.len(),
        spelling::spells_decls(src, names, i, v, v.len()),
        tok(src, i + spelling::decls_width(v, v.len())) == Some(TokenM::RBrace),
    ensures
        moved_on(
            src,
            i + spelling::decls_width(v, m),
            i + spelling::decls_width(v, v.len()) + 1,
        ),
        got(
            grammar::decls(src, i + spelling::decls_width(v, m), v.take(m as int), names),
            v,
            i + spelling::decls_width(v, v.len()) + 1,
            names,
        ),
    decreases v.len() - m,
{
    if m < v.len() {
        let at = i + spelling::decls_width(v, m);
        lemma_decl_at(src, names, i, v, v.len(), m + 1);
        law_spelled_declaration_is_read(src, names, at, v[m as int]);
        assert(v.take(m as int).push(v[m as int]) =~= v.take(m + 1int));
        lemma_decls(src, names, i, v, m + 1);
    } else {
        assert(v.take(m as int) =~= v);
    }
}

/// A statement of a program is read.
proof fn lemma_top(src: SourceM, names: Names, i: nat, s: StmtM<Symbol>)
    requires
        spelling::spells_top(src, names, i, s),
    ensures
        got(grammar::top(src, i, names), s, i + spelling::top_width(s), names),
        moved_on(src, i, i + spelling::top_width(s)),
{
    match s {
        StmtM::ActionStmt(x) => {
            lemma_stmt(src, names, i, x);
        },
        StmtM::Import { path, service_name, explicit_path } => {
            lemma_name(src, names, i + 1, service_name);
        },
        StmtM::Service { name, decls } => {
            lemma_name(src, names, i + 1, name);
            lemma_decls(src, names, i + 3, decls, 0);
            assert(decls.take(0) =~= seq![]);
        },
        StmtM::Test { service_name, stmts } => {
            lemma_name(src, names, i + 2, service_name);
            lemma_block(src, names, i + 5, stmts, 0);
            assert(block_width(stmts, 0) == 0);
            assert(stmts.take(0) =~= seq![]);
        },
        StmtM::Watch { expr } => {
            lemma_closer_stops(tok(src, i + 1 + width(expr, 0)));
            lemma_read(src, names, i + 1, expr, 0);
        },
        _ => {},
    }
}

/// The statement at a place of a program.
proof fn lemma_top_at(src: SourceM, names: Names, v: Seq<StmtM<Symbol>>, n: nat, m: nat)
    requires
        1 <= m <= n <= v.len(),
        spelling::spells_program(src, names, v, n),
    ensures
        spelling::spells_top(
            src,
            names,
            spelling::program_width(v, (m - 1) as nat),
            v[m - 1],
        ),
        spelling::program_width(v, m) == spelling::program_width(v, (m - 1) as nat)
            + spelling::top_width(v[m - 1]),
    decreases n,
{
    if m < n {
        lemma_top_at(src, names, v, (n - 1) as nat, m);
    }
}

/// The statements of a program from place `m` on are read.
proof fn lemma_program(src: SourceM, names: Names, v: Seq<StmtM<Symbol>>, m: nat)
    requires
        m <= v.len(),
        spelling::spells_program(src, names, v, v.len()),
        src.toks.len() == spelling::program_width(v, v.len()),
    ensures
        grammar::program(src, spelling::program_width(v, m), v.take(m as int), names) == (
            Ok::<Seq<StmtM<Symbol>>, FailM>(v),
            names,
        ),
    decreases v.len() - m,
{
    if m < v.len() {
        lemma_top_at(src, names, v, v.len(), m + 1);
        lemma_top(src, names, spelling::program_width(v, m), v[m as int]);
        assert(v.take(m as int).push(v[m as int]) =~= v.take(m + 1int));
        lemma_program(src, names, v, m + 1);
    } else {
        assert(v.take(m as int) =~= v);
    }
}

/// A program that tokens spell is what the parser reads.
pub proof fn law_spelled_program_is_read(src: SourceM, names: Names, v: Seq<StmtM<Symbol>>)
    requires
        spelling::spells_program(src, names, v, v.len()),
        src.toks.len() == spelling::program_width(v, v.len()),
    ensures
        grammar::program(src, 0, seq![], names) == (
            Ok::<Seq<StmtM<Symbol>>, FailM>(v),
            names,
        ),
{
    lemma_program(src, names, v, 0);
    assert(v.take(0) =~= seq![]);
}

} // verus!
