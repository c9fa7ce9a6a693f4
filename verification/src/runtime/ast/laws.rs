//! What holds of printed trees.

use crate::runtime::ast::debug;
use crate::runtime::ast::model::ExprM;
use crate::runtime::ast::printer;
use crate::runtime::ast::printer::Printing;
use crate::runtime::interner::Symbol;
use vstd::prelude::*;

verus! {

/// The parts of an expression that are expressions, in the order in which they
/// are written.
pub open spec fn parts(e: ExprM<Symbol>) -> Seq<ExprM<Symbol>> {
    match e {
        ExprM::Tuple { val } => val,
        ExprM::KeyVal { name, value } => seq![*value],
        ExprM::Unop { op, expr } => seq![*expr],
        ExprM::Binop { op, expr1, expr2 } => seq![*expr1, *expr2],
        ExprM::If { cond, expr1, expr2 } => seq![*cond, *expr1, *expr2],
        ExprM::Func { params, body, return_ty } => seq![*body],
        ExprM::Call { func, args } => seq![*func] + args,
        ExprM::Select { table_name, column_names, where_clause } => seq![*where_clause],
        ExprM::Table { schema, records } => records,
        ExprM::Fold { table_name, column_name, operation, identity } => seq![
            *operation,
            *identity,
        ],
        _ => seq![],
    }
}

/// Whether a text is another one and the trees of expressions, one after the
/// other.
pub open spec fn followed_by(
    c: Printing,
    t: Seq<char>,
    head: Seq<char>,
    v: Seq<ExprM<Symbol>>,
    pad: Seq<char>,
) -> bool {
    t == head + printer::tree_exprs(c, v, v.len(), pad)
}

/// Trees are printed one after the other.
pub proof fn law_trees_in_order(
    c: Printing,
    a: Seq<ExprM<Symbol>>,
    b: Seq<ExprM<Symbol>>,
    pad: Seq<char>,
)
    ensures
        printer::tree_exprs(c, a + b, (a + b).len(), pad) == printer::tree_exprs(
            c,
            a,
            a.len(),
            pad,
        ) + printer::tree_exprs(c, b, b.len(), pad),
        a.len() == 1 ==> printer::tree_exprs(c, a, a.len(), pad) == printer::tree_expr(
            c,
            a[0],
            pad,
        ),
{
    lemma_first(c, a, a + b, a.len(), pad);
    lemma_rest(c, a, b, b.len(), pad);
    if a.len() == 1 {
        reveal(printer::tree_exprs);
        reveal(printer::tree_expr);
        assert(printer::tree_exprs(c, a, 0, pad) =~= Seq::<char>::empty());
        assert(printer::tree_exprs(c, a, 1, pad) =~= printer::tree_expr(c, a[0], pad));
    }
}

/// The first trees do not depend on what comes behind them.
proof fn lemma_first(
    c: Printing,
    a: Seq<ExprM<Symbol>>,
    v: Seq<ExprM<Symbol>>,
    n: nat,
    pad: Seq<char>,
)
    requires
        n <= a.len() <= v.len(),
        forall|i: int| 0 <= i < a.len() ==> a[i] == #[trigger] v[i],
    ensures
        printer::tree_exprs(c, a, n, pad) == printer::tree_exprs(c, v, n, pad),
    decreases n,
{
    reveal(printer::tree_exprs);
    reveal(printer::tree_expr);
    if n > 0 {
        lemma_first(c, a, v, (n - 1) as nat, pad);
        assert(a[n - 1] == v[n - 1]);
    }
}

proof fn lemma_rest(
    c: Printing,
    a: Seq<ExprM<Symbol>>,
    b: Seq<ExprM<Symbol>>,
    n: nat,
    pad: Seq<char>,
)
    requires
        n <= b.len(),
    ensures
        printer::tree_exprs(c, a + b, a.len() + n, pad) == printer::tree_exprs(
            c,
            a + b,
            a.len(),
            pad,
        ) + printer::tree_exprs(c, b, n, pad),
    decreases n,
{
    reveal(printer::tree_exprs);
    reveal(printer::tree_expr);
    let t = printer::tree_exprs(c, a + b, a.len(), pad);
    if n == 0 {
        assert(printer::tree_exprs(c, b, n, pad) =~= Seq::<char>::empty());
        assert(t + printer::tree_exprs(c, b, n, pad) =~= t);
    } else {
        lemma_rest(c, a, b, (n - 1) as nat, pad);
        assert((a + b)[a.len() + n - 1] == b[n - 1]);
        assert(printer::tree_exprs(c, a + b, a.len() + n, pad) =~= t + printer::tree_exprs(
            c,
            b,
            n,
            pad,
        ));
    }
}

/// A line and the trees below it: the text begins with the indentation and goes
/// on with the trees of the parts, one level deeper, in the order in which they
/// are written.
pub proof fn law_parts_are_printed_below(c: Printing, e: ExprM<Symbol>, pad: Seq<char>)
    requires
        !(e is Literal),
        !(e is Action),
    ensures
        exists|head: Seq<char>|
            pad.is_prefix_of(head) && #[trigger] followed_by(
                c,
                printer::tree_expr(c, e, pad),
                head,
                parts(e),
                printer::deeper(c, pad),
            ),
        printer::deeper(c, pad).len() == pad.len() + c.spaces,
{
    let deep = printer::deeper(c, pad);
    let t = printer::tree_expr(c, e, pad);
    let v = parts(e);
    lemma_few(c, e, deep);
    let rest = match e {
        ExprM::Binop { .. } => lemma_binop_below(c, e, pad),
        ExprM::If { .. } => lemma_if_below(c, e, pad),
        ExprM::Call { .. } => lemma_call_below(c, e, pad),
        ExprM::Fold { .. } => lemma_fold_below(c, e, pad),
        ExprM::Tuple { .. } => lemma_many_below(c, e, pad),
        ExprM::Table { .. } => lemma_many_below(c, e, pad),
        ExprM::Variable { .. } => lemma_none_below(c, e, pad),
        ExprM::MemberAccess { .. } => lemma_none_below(c, e, pad),
        _ => lemma_one_below(c, e, pad),
    };
    let head = pad + rest;
    let below = printer::tree_exprs(c, v, v.len(), deep);
    assert(pad =~= head.subrange(0, pad.len() as int));
    assert(t =~= head + below);
    assert(followed_by(c, t, head, v, deep));
}

proof fn lemma_binop_below(c: Printing, e: ExprM<Symbol>, pad: Seq<char>) -> (rest: Seq<char>)
    requires
        e is Binop,
    ensures
        printer::tree_expr(c, e, pad) == pad + rest + printer::tree_expr(
            c,
            *e->Binop_expr1,
            printer::deeper(c, pad),
        ) + printer::tree_expr(c, *e->Binop_expr2, printer::deeper(c, pad)),
{
    reveal(printer::tree_expr);
    let rest = "Binop: { op: "@ + debug::debug_binop(e->Binop_op) + " }"@ + "\n"@;
    assert(pad + rest =~= pad + "Binop: { op: "@ + debug::debug_binop(e->Binop_op) + " }"@
        + "\n"@);
    rest
}

proof fn lemma_if_below(c: Printing, e: ExprM<Symbol>, pad: Seq<char>) -> (rest: Seq<char>)
    requires
        e is If,
    ensures
        printer::tree_expr(c, e, pad) == pad + rest + printer::tree_expr(
            c,
            *e->cond,
            printer::deeper(c, pad),
        ) + printer::tree_expr(c, *e->If_expr1, printer::deeper(c, pad)) + printer::tree_expr(
            c,
            *e->If_expr2,
            printer::deeper(c, pad),
        ),
{
    reveal(printer::tree_expr);
    let rest = "If:"@ + "\n"@;
    assert(pad + rest =~= pad + "If:"@ + "\n"@);
    rest
}

proof fn lemma_call_below(c: Printing, e: ExprM<Symbol>, pad: Seq<char>) -> (rest: Seq<char>)
    requires
        e is Call,
    ensures
        printer::tree_expr(c, e, pad) == pad + rest + printer::tree_expr(
            c,
            *e->func,
            printer::deeper(c, pad),
        ) + printer::tree_exprs(c, e->args, e->args.len(), printer::deeper(c, pad)),
{
    reveal(printer::tree_expr);
    reveal(printer::tree_exprs);
    let rest = "Call:"@ + "\n"@;
    assert(pad + rest =~= pad + "Call:"@ + "\n"@);
    rest
}

proof fn lemma_fold_below(c: Printing, e: ExprM<Symbol>, pad: Seq<char>) -> (rest: Seq<char>)
    requires
        e is Fold,
    ensures
        printer::tree_expr(c, e, pad) == pad + rest + printer::tree_expr(
            c,
            *e->operation,
            printer::deeper(c, pad),
        ) + printer::tree_expr(c, *e->identity, printer::deeper(c, pad)),
{
    reveal(printer::tree_expr);
    let t = printer::symbol_with_name(c, e->Fold_table_name);
    let n = printer::symbol_with_name(c, e->column_name);
    let rest = "Fold: { table_name: "@ + t + ", column_name: "@ + n + " }"@ + "\n"@;
    assert(pad + rest =~= pad + "Fold: { table_name: "@ + t + ", column_name: "@ + n + " }"@
        + "\n"@);
    rest
}

proof fn lemma_many_below(c: Printing, e: ExprM<Symbol>, pad: Seq<char>) -> (rest: Seq<char>)
    requires
        e is Tuple || e is Table,
    ensures
        printer::tree_expr(c, e, pad) == pad + rest + printer::tree_exprs(
            c,
            parts(e),
            parts(e).len(),
            printer::deeper(c, pad),
        ),
{
    reveal(printer::tree_expr);
    reveal(printer::tree_exprs);
    match e {
        ExprM::Table { schema, records } => {
            let f = printer::tree_fields(c, schema, schema.len(), printer::deeper(c, pad));
            let rest = "Table:"@ + "\n"@ + f;
            assert(pad + rest =~= pad + "Table:"@ + "\n"@ + f);
            rest
        },
        _ => {
            let rest = "Tuple:"@ + "\n"@;
            assert(pad + rest =~= pad + "Tuple:"@ + "\n"@);
            rest
        },
    }
}

proof fn lemma_none_below(c: Printing, e: ExprM<Symbol>, pad: Seq<char>) -> (rest: Seq<char>)
    requires
        e is Variable || e is MemberAccess,
    ensures
        printer::tree_expr(c, e, pad) == pad + rest,
{
    reveal(printer::tree_expr);
    let t = printer::tree_expr(c, e, pad);
    let rest = t.skip(pad.len() as int);
    assert(t =~= pad + rest);
    rest
}

proof fn lemma_one_below(c: Printing, e: ExprM<Symbol>, pad: Seq<char>) -> (rest: Seq<char>)
    requires
        e is KeyVal || e is Unop || e is Func || e is Select,
    ensures
        printer::tree_expr(c, e, pad) == pad + rest + printer::tree_expr(
            c,
            parts(e)[0],
            printer::deeper(c, pad),
        ),
{
    reveal(printer::tree_expr);
    let t = printer::tree_expr(c, e, pad);
    let below = printer::tree_expr(c, parts(e)[0], printer::deeper(c, pad));
    let rest = t.subrange(pad.len() as int, t.len() - below.len());
    assert(t =~= pad + rest + below);
    rest
}

/// The trees of the parts, each by itself.
proof fn lemma_few(c: Printing, e: ExprM<Symbol>, deep: Seq<char>)
    ensures
        ({
            let v = parts(e);
            let below = printer::tree_exprs(c, v, v.len(), deep);
            match e {
                ExprM::Tuple { val } => true,
                ExprM::Table { schema, records } => true,
                ExprM::Call { func, args } => below == printer::tree_expr(c, *func, deep)
                    + printer::tree_exprs(c, args, args.len(), deep),
                ExprM::If { cond, expr1, expr2 } => below == printer::tree_expr(c, *cond, deep)
                    + printer::tree_expr(c, *expr1, deep) + printer::tree_expr(c, *expr2, deep),
                _ => if v.len() == 0 {
                    below == Seq::<char>::empty()
                } else if v.len() == 1 {
                    below == printer::tree_expr(c, v[0], deep)
                } else {
                    below == printer::tree_expr(c, v[0], deep) + printer::tree_expr(c, v[1], deep)
                },
            }
        }),
{
    let v = parts(e);
    match e {
        ExprM::Tuple { val } => {},
        ExprM::Table { schema, records } => {},
        ExprM::Call { func, args } => {
            law_trees_in_order(c, seq![*func], args, deep);
        },
        ExprM::If { cond, expr1, expr2 } => {
            law_trees_in_order(c, seq![*cond, *expr1], seq![*expr2], deep);
            law_trees_in_order(c, seq![*cond], seq![*expr1], deep);
            law_trees_in_order(c, seq![*expr1], seq![], deep);
            law_trees_in_order(c, seq![*expr2], seq![], deep);
            assert(seq![*cond, *expr1] + seq![*expr2] =~= v);
            assert(seq![*cond] + seq![*expr1] =~= seq![*cond, *expr1]);
        },
        _ => {
            if v.len() == 0 {
                reveal(printer::tree_exprs);
                reveal(printer::tree_expr);
                assert(printer::tree_exprs(c, v, 0, deep) =~= Seq::<char>::empty());
            } else if v.len() == 1 {
                law_trees_in_order(c, v, seq![], deep);
            } else {
                law_trees_in_order(c, seq![v[0]], seq![v[1]], deep);
                law_trees_in_order(c, seq![v[1]], seq![], deep);
                assert(seq![v[0]] + seq![v[1]] =~= v);
            }
        },
    }
}

} // verus!
