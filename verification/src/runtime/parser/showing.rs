//! What is shown of expressions and types is what a program says of them.

use crate::runtime::ast::display;
use crate::runtime::ast::model::{ExprM, ValueM};
use crate::runtime::interner::Symbol;
use crate::runtime::parser;
use crate::runtime::parser::grammar;
use crate::runtime::parser::grammar::{Names, SourceM};
use crate::runtime::parser::reading;
use crate::runtime::parser::spelling;
use crate::runtime::parser::spelling::{grip, sign, strength};
use crate::runtime::parser::texts;
use crate::runtime::parser::texts::{joined, text_of, tokens, writable};
use crate::runtime::parser::token::TokenM;
use crate::runtime::tt::TypeM;
use vstd::prelude::*;

verus! {

/// Whether an expression of literals, operators and conditionals can be written
/// without brackets where its parts are to hold together at least as tightly as
/// `k`.
pub open spec fn unbracketed(e: ExprM<Symbol>, k: nat) -> bool
    decreases e,
{
    &&& grip(e) >= k
    &&& match e {
        ExprM::Literal { val } => match val {
            ValueM::Int { val } => val >= 0,
            ValueM::Bool { .. } => true,
            ValueM::String { val } => !val.contains('"'),
            _ => false,
        },
        ExprM::Binop { op, expr1, expr2 } => unbracketed(*expr1, strength(op)) && unbracketed(
            *expr2,
            strength(op) + 1,
        ),
        ExprM::If { cond, expr1, expr2 } => unbracketed(*cond, 0) && unbracketed(*expr1, 0)
            && unbracketed(*expr2, 0),
        _ => false,
    }
}

/// The tokens that spell such an expression.
pub open spec fn spelled(e: ExprM<Symbol>) -> Seq<TokenM>
    decreases e,
{
    match e {
        ExprM::Literal { val } => match val {
            ValueM::Int { val } => seq![TokenM::Number(val)],
            ValueM::Bool { val } => if val {
                seq![TokenM::TRUE]
            } else {
                seq![TokenM::FALSE]
            },
            ValueM::String { val } => seq![TokenM::StrLit(val)],
            _ => seq![],
        },
        ExprM::Binop { op, expr1, expr2 } => spelled(*expr1) + seq![sign(op)] + spelled(*expr2),
        ExprM::If { cond, expr1, expr2 } => seq![TokenM::IF_KW] + spelled(*cond)
            + seq![TokenM::THEN_KW] + spelled(*expr1) + seq![TokenM::ELSE_KW] + spelled(*expr2),
        _ => seq![],
    }
}

proof fn lemma_joined_parts(a: Seq<TokenM>, b: Seq<TokenM>)
    ensures
        joined(a + b) == joined(a) + joined(b),
    decreases b.len(),
{
    if b.len() == 0 {
        assert(a + b =~= a);
        assert(joined(b) =~= seq![]);
        assert(joined(a) + joined(b) =~= joined(a));
    } else {
        assert((a + b).drop_last() =~= a + b.drop_last());
        lemma_joined_parts(a, b.drop_last());
        assert(joined(a + b) =~= joined(a) + joined(b));
    }
}

proof fn lemma_joined_one(t: TokenM)
    ensures
        joined(seq![t]) == text_of(t) + seq![' '],
{
    let ts = seq![t];
    assert(ts.drop_last() =~= seq![]);
    assert(joined(ts.drop_last()) =~= seq![]);
    assert(joined(ts) =~= text_of(t) + seq![' ']);
}

proof fn reveal_spaced()
    ensures
        " "@ == seq![' '],
        "if "@ == "if"@ + seq![' '],
        " then "@ == seq![' '] + "then"@ + seq![' '],
        " else "@ == seq![' '] + "else"@ + seq![' '],
        "\""@ == seq!['"'],
{
    reveal_strlit(" ");
    reveal_strlit("if");
    reveal_strlit("if ");
    reveal_strlit("then");
    reveal_strlit(" then ");
    reveal_strlit("else");
    reveal_strlit(" else ");
    reveal_strlit("\"");
    assert(" "@ =~= seq![' ']);
    assert("if "@ =~= "if"@ + seq![' ']);
    assert(" then "@ =~= seq![' '] + "then"@ + seq![' ']);
    assert(" else "@ =~= seq![' '] + "else"@ + seq![' ']);
    assert("\""@ =~= seq!['"']);
}

proof fn lemma_show_literal(e: ExprM<Symbol>)
    requires
        e is Literal,
        unbracketed(e, 0),
    ensures
        spelled(e).len() == 1,
        display::show_expr(e) == text_of(spelled(e)[0]),
        writable(spelled(e)[0]),
{
    reveal(display::show_expr);
    reveal(display::show_value);
    reveal(display::show_env);
    reveal_spaced();
    let val = e->Literal_val;
    assert(display::show_expr(e) == display::show_value(val));
    assert(display::show_value(val) =~= text_of(spelled(e)[0]));
}

proof fn lemma_show_binop(e: ExprM<Symbol>)
    requires
        e is Binop,
    ensures
        display::show_expr(e) == display::show_expr(*e->Binop_expr1) + seq![' '] + text_of(
            sign(e->Binop_op),
        ) + seq![' '] + display::show_expr(*e->Binop_expr2),
{
    reveal(display::show_expr);
    reveal_spaced();
    assert(display::show_binop(e->Binop_op) == text_of(sign(e->Binop_op)));
}

proof fn lemma_show_if(e: ExprM<Symbol>)
    requires
        e is If,
    ensures
        display::show_expr(e) + seq![' '] == (text_of(TokenM::IF_KW) + seq![' ']) + (
        display::show_expr(*e->cond) + seq![' ']) + (text_of(TokenM::THEN_KW) + seq![' ']) + (
        display::show_expr(*e->If_expr1) + seq![' ']) + (text_of(TokenM::ELSE_KW) + seq![' ']) + (
        display::show_expr(*e->If_expr2) + seq![' ']),
{
    reveal(display::show_expr);
    reveal_spaced();
    let (x, y, z) = (
        display::show_expr(*e->cond),
        display::show_expr(*e->If_expr1),
        display::show_expr(*e->If_expr2),
    );
    assert(display::show_expr(e) == "if "@ + x + " then "@ + y + " else "@ + z);
    assert(display::show_expr(e) + seq![' '] =~= (text_of(TokenM::IF_KW) + seq![' ']) + (x + seq![
        ' ',
    ]) + (text_of(TokenM::THEN_KW) + seq![' ']) + (y + seq![' ']) + (text_of(TokenM::ELSE_KW)
        + seq![' ']) + (z + seq![' ']));
}

/// Whether all tokens can be written.
spec fn all_writable(ts: Seq<TokenM>) -> bool {
    forall|i: int| 0 <= i < ts.len() ==> writable(#[trigger] ts[i])
}

proof fn lemma_writable_parts(a: Seq<TokenM>, b: Seq<TokenM>)
    requires
        all_writable(a),
        all_writable(b),
    ensures
        all_writable(a + b),
{
    assert forall|i: int| 0 <= i < (a + b).len() implies writable(#[trigger] (a + b)[i]) by {
        if i < a.len() {
            assert((a + b)[i] == a[i]);
        } else {
            assert((a + b)[i] == b[i - a.len()]);
        }
    }
}

/// What is shown, with a space behind it, is the text of the tokens.
proof fn lemma_shown(e: ExprM<Symbol>, k: nat)
    requires
        unbracketed(e, k),
    ensures
        joined(spelled(e)) == display::show_expr(e) + seq![' '],
        spelled(e).len() == spelling::bare_width(e),
        spelled(e).len() == spelling::width(e, k),
        all_writable(spelled(e)),
    decreases e,
{
    match e {
        ExprM::Literal { val } => {
            let t = spelled(e)[0];
            lemma_show_literal(e);
            assert(spelled(e) =~= seq![t]);
            lemma_joined_one(t);
            assert(spelling::bare_width(e) == 1);
        },
        ExprM::Binop { op, expr1, expr2 } => {
            lemma_shown(*expr1, strength(op));
            lemma_shown(*expr2, strength(op) + 1);
            let a = spelled(*expr1);
            let m = seq![sign(op)];
            let b = spelled(*expr2);
            lemma_joined_parts(a + m, b);
            lemma_joined_parts(a, m);
            lemma_joined_one(sign(op));
            lemma_writable_parts(a, m);
            lemma_writable_parts(a + m, b);
            lemma_show_binop(e);
            assert(joined(spelled(e)) =~= display::show_expr(e) + seq![' ']);
            assert(spelling::width(*expr1, strength(op)) == a.len());
            assert(spelling::width(*expr2, strength(op) + 1) == b.len());
            assert(spelled(e).len() == a.len() + 1 + b.len());
        },
        ExprM::If { cond, expr1, expr2 } => {
            lemma_shown(*cond, 0);
            lemma_shown(*expr1, 0);
            lemma_shown(*expr2, 0);
            let (a, b, d) = (spelled(*cond), spelled(*expr1), spelled(*expr2));
            let (p, q, r) = (seq![TokenM::IF_KW], seq![TokenM::THEN_KW], seq![TokenM::ELSE_KW]);
            lemma_joined_parts(p + a + q + b + r, d);
            lemma_joined_parts(p + a + q + b, r);
            lemma_joined_parts(p + a + q, b);
            lemma_joined_parts(p + a, q);
            lemma_joined_parts(p, a);
            lemma_joined_one(TokenM::IF_KW);
            lemma_joined_one(TokenM::THEN_KW);
            lemma_joined_one(TokenM::ELSE_KW);
            lemma_writable_parts(p, a);
            lemma_writable_parts(p + a, q);
            lemma_writable_parts(p + a + q, b);
            lemma_writable_parts(p + a + q + b, r);
            lemma_writable_parts(p + a + q + b + r, d);
            lemma_show_if(e);
            assert(spelling::width(*cond, 0) == a.len());
            assert(spelling::width(*expr1, 0) == b.len());
            assert(spelling::width(*expr2, 0) == d.len());
            assert(spelled(e).len() == 3 + a.len() + b.len() + d.len());
        },
        _ => {},
    }
}

/// Tokens stand at a place.
spec fn stand(src: SourceM, i: nat, ts: Seq<TokenM>) -> bool {
    &&& i + ts.len() <= src.toks.len()
    &&& forall|j: int| 0 <= j < ts.len() ==> (#[trigger] src.toks[i + j]).token == ts[j]
}

proof fn lemma_stand(src: SourceM, i: nat, a: Seq<TokenM>, b: Seq<TokenM>)
    requires
        stand(src, i, a + b),
    ensures
        stand(src, i, a),
        stand(src, i + a.len(), b),
{
    assert forall|j: int| 0 <= j < a.len() implies (#[trigger] src.toks[i + j]).token == a[j] by {
        assert((a + b)[j] == a[j]);
    }
    let k = i + a.len();
    assert forall|j: int| 0 <= j < b.len() implies (#[trigger] src.toks[k + j]).token == b[j] by {
        assert((a + b)[a.len() + j] == b[j]);
        assert(src.toks[i + (a.len() + j)].token == (a + b)[a.len() + j]);
    }
}

proof fn lemma_stand_one(src: SourceM, i: nat, t: TokenM)
    requires
        stand(src, i, seq![t]),
    ensures
        grammar::tok(src, i) == Some(t),
{
    assert(src.toks[i + 0int].token == seq![t][0]);
}

/// Where the tokens stand, they spell the expression.
proof fn lemma_spelled(src: SourceM, names: Names, i: nat, e: ExprM<Symbol>, k: nat)
    requires
        unbracketed(e, k),
        stand(src, i, spelled(e)),
    ensures
        spelling::spells(src, names, i, e, k),
        spelling::width(e, k) == spelled(e).len(),
    decreases e,
{
    lemma_shown(e, k);
    match e {
        ExprM::Literal { val } => {
            let t = spelled(e)[0];
            assert(spelling::bare_width(e) == 1);
            assert(spelled(e) =~= seq![t]);
            lemma_stand_one(src, i, t);
            assert(spelling::spells_bare(src, names, i, e));
        },
        ExprM::Binop { op, expr1, expr2 } => {
            lemma_spelled_binop(src, i, e);
            lemma_spelled(src, names, i, *expr1, strength(op));
            let n = i + spelled(*expr1).len() + 1;
            lemma_spelled(src, names, n, *expr2, strength(op) + 1);
            assert(spelling::spells_bare(src, names, i, e));
        },
        ExprM::If { cond, expr1, expr2 } => {
            lemma_spelled_if(src, i, e);
            let i1 = i + 1;
            let i2 = i1 + spelled(*cond).len() + 1;
            let i3 = i2 + spelled(*expr1).len() + 1;
            lemma_spelled(src, names, i1, *cond, 0);
            lemma_spelled(src, names, i2, *expr1, 0);
            lemma_spelled(src, names, i3, *expr2, 0);
            assert(spelling::spells_bare(src, names, i, e));
        },
        _ => {},
    }
}

proof fn lemma_spelled_binop(src: SourceM, i: nat, e: ExprM<Symbol>)
    requires
        e is Binop,
        stand(src, i, spelled(e)),
    ensures
        ({
            let a = spelled(*e->Binop_expr1);
            &&& stand(src, i, a)
            &&& grammar::tok(src, i + a.len()) == Some(sign(e->Binop_op))
            &&& stand(src, i + a.len() + 1, spelled(*e->Binop_expr2))
        }),
{
    let a = spelled(*e->Binop_expr1);
    let m = seq![sign(e->Binop_op)];
    let b = spelled(*e->Binop_expr2);
    lemma_stand(src, i, a + m, b);
    lemma_stand(src, i, a, m);
    lemma_stand_one(src, i + a.len(), sign(e->Binop_op));
    assert((a + m).len() == a.len() + 1);
}

proof fn lemma_spelled_if(src: SourceM, i: nat, e: ExprM<Symbol>)
    requires
        e is If,
        stand(src, i, spelled(e)),
    ensures
        ({
            let (a, b, d) = (spelled(*e->cond), spelled(*e->If_expr1), spelled(*e->If_expr2));
            let j = i + 1 + a.len();
            let k = j + 1 + b.len();
            &&& grammar::tok(src, i) == Some(TokenM::IF_KW)
            &&& stand(src, i + 1, a)
            &&& grammar::tok(src, j) == Some(TokenM::THEN_KW)
            &&& stand(src, j + 1, b)
            &&& grammar::tok(src, k) == Some(TokenM::ELSE_KW)
            &&& stand(src, k + 1, d)
        }),
{
    let (a, b, d) = (spelled(*e->cond), spelled(*e->If_expr1), spelled(*e->If_expr2));
    let (p, q, r) = (seq![TokenM::IF_KW], seq![TokenM::THEN_KW], seq![TokenM::ELSE_KW]);
    let j = i + 1 + a.len();
    let k = j + 1 + b.len();
    lemma_stand(src, i, p + a + q + b + r, d);
    lemma_stand(src, i, p + a + q + b, r);
    lemma_stand(src, i, p + a + q, b);
    lemma_stand(src, i, p + a, q);
    lemma_stand(src, i, p, a);
    assert((p + a).len() == 1 + a.len());
    assert((p + a + q).len() == 2 + a.len());
    assert((p + a + q + b).len() == 2 + a.len() + b.len());
    assert((p + a + q + b + r).len() == 3 + a.len() + b.len());
    lemma_stand_one(src, i, TokenM::IF_KW);
    lemma_stand_one(src, j, TokenM::THEN_KW);
    lemma_stand_one(src, k, TokenM::ELSE_KW);
}

/// An expression of literals, operators and conditionals that needs no brackets
/// is shown as it is written: what is shown of it is read as the expression.
pub proof fn law_shown_expression_is_read(e: ExprM<Symbol>, names: Names)
    requires
        unbracketed(e, 0),
    ensures
        ({
            let src = parser::source(display::show_expr(e) + seq![' ']);
            reading::got(grammar::expr(src, 0, names), e, src.toks.len(), names)
        }),
{
    let ts = spelled(e);
    let src = parser::source(display::show_expr(e) + seq![' ']);
    lemma_shown(e, 0);
    texts::law_written_tokens_are_lexed(ts);
    assert(tokens(src.toks) == ts);
    assert(stand(src, 0, ts)) by {
        assert forall|j: int| 0 <= j < ts.len() implies (#[trigger] src.toks[0nat + j]).token
            == ts[j] by {
            assert(tokens(src.toks)[j] == ts[j]);
        }
    }
    lemma_spelled(src, names, 0, e, 0);
    reading::law_spelled_expression_is_read(src, names, 0, e);
}

/// A type that can be written is shown as it is written.
pub proof fn law_shown_type_is_read(t: TypeM)
    requires
        t is Int || t is String || t is Bool,
    ensures
        ({
            let src = parser::source(display::show_type(t) + seq![' ']);
            spelling::spells_type(src, 0, t) && src.toks.len() == 1
        }),
{
    reveal(display::show_type);
    reveal(display::show_types);
    let k = match t {
        TypeM::Int => TokenM::NUMBER_KW,
        TypeM::String => TokenM::STRING_KW,
        _ => TokenM::BOOL_KW,
    };
    let src = parser::source(display::show_type(t) + seq![' ']);
    lemma_joined_one(k);
    texts::law_written_tokens_are_lexed(seq![k]);
    assert(tokens(src.toks) == seq![k]);
    assert(tokens(src.toks)[0] == src.toks[0].token);
}

} // verus!
