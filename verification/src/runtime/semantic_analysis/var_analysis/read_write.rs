//! The free variables of a term, and the members of other services it reads.

use crate::runtime::ast::model::{ActionStmtM, ExprM};
use crate::runtime::ast::{ActionStmt, Expr};
use crate::runtime::interner::Symbol;
use crate::runtime::semantic_analysis::var_analysis::symbols;
use crate::runtime::semantic_analysis::var_analysis::symbols::SymbolSet;
use crate::runtime::table;
use crate::runtime::tt::{Param, ParamM};
use vstd::prelude::*;

verus! {

/// The expression that a statement is about.
pub open spec fn stmt_expr(s: ActionStmtM<Symbol>) -> ExprM<Symbol> {
    match s {
        ActionStmtM::Let { name, ty, expr } => expr,
        ActionStmtM::Expr(expr) => expr,
        ActionStmtM::Do(expr) => expr,
        ActionStmtM::Assert(expr, written) => expr,
        ActionStmtM::Assign { name, expr } => expr,
        ActionStmtM::Insert { row, table_name } => row,
    }
}

/// The names that parameters bind.
pub open spec fn param_set(params: Seq<ParamM<Symbol>>) -> Set<Symbol> {
    Set::new(|s: Symbol| exists|i: int| 0 <= i < params.len() && (#[trigger] params[i]).name == s)
}

/// The free variables of an expression under the bound names `bound`.
///
/// An action leaves the names in `reactive` out, which are looked up when it
/// runs. A table has none, and a member of another service is none.
#[verifier::opaque]
pub open spec fn free_vars(
    e: ExprM<Symbol>,
    reactive: Set<Symbol>,
    bound: Set<Symbol>,
) -> Set<Symbol>
    decreases e,
{
    match e {
        ExprM::Literal { .. } => Set::empty(),
        ExprM::Table { .. } => Set::empty(),
        ExprM::MemberAccess { .. } => Set::empty(),
        ExprM::Variable { name } => if bound.contains(name) {
            Set::empty()
        } else {
            set![name]
        },
        ExprM::KeyVal { name, value } => free_vars(*value, reactive, bound),
        ExprM::Tuple { val } => free_in_any(val, reactive, bound),
        ExprM::Unop { op, expr } => free_vars(*expr, reactive, bound),
        ExprM::Binop { op, expr1, expr2 } => free_vars(*expr1, reactive, bound).union(
            free_vars(*expr2, reactive, bound),
        ),
        ExprM::If { cond, expr1, expr2 } => free_vars(*cond, reactive, bound).union(
            free_vars(*expr1, reactive, bound),
        ).union(free_vars(*expr2, reactive, bound)),
        ExprM::Func { params, body, return_ty } => free_vars(
            *body,
            reactive,
            bound.union(param_set(params)),
        ),
        ExprM::Call { func, args } => free_vars(*func, reactive, bound).union(
            free_in_any(args, reactive, bound),
        ),
        ExprM::Action(stmts) => free_in_stmts(stmts, reactive, bound).difference(reactive),
        ExprM::Select { table_name, column_names, where_clause } => free_vars(
            *where_clause,
            reactive,
            bound,
        ).insert(table_name),
        ExprM::Fold { table_name, column_name, operation, identity } => free_vars(
            *operation,
            reactive,
            bound,
        ).union(free_vars(*identity, reactive, bound)),
    }
}

/// The names that are free in at least one of the expressions.
#[verifier::opaque]
pub open spec fn free_in_any(
    v: Seq<ExprM<Symbol>>,
    reactive: Set<Symbol>,
    bound: Set<Symbol>,
) -> Set<Symbol>
    decreases v,
{
    Set::new(
        |s: Symbol|
            exists|i: int|
                0 <= i < v.len() && free_vars(#[trigger] v[i], reactive, bound).contains(s),
    )
}

/// The names that are free in at least one of the statements.
#[verifier::opaque]
pub open spec fn free_in_stmts(
    v: Seq<ActionStmtM<Symbol>>,
    reactive: Set<Symbol>,
    bound: Set<Symbol>,
) -> Set<Symbol>
    decreases v,
{
    Set::new(
        |s: Symbol|
            exists|i: int|
                0 <= i < v.len() && free_vars(
                    stmt_expr(#[trigger] v[i]),
                    reactive,
                    bound,
                ).contains(s),
    )
}

/// The expression that a statement is about.
pub fn expr_of_stmt(s: &ActionStmt) -> (r: &Expr)
    ensures
        r.deep_view() == stmt_expr(s.deep_view()),
        decreases_to!(s => r),
{
    proof {
        crate::runtime::ast::lemma_stmt_model(*s);
    }
    match s {
        ActionStmt::Let { name, ty, expr } => expr,
        ActionStmt::Expr(expr) => expr,
        ActionStmt::Do(expr) => expr,
        ActionStmt::Assert(expr, written) => expr,
        ActionStmt::Assign { name, expr } => expr,
        ActionStmt::Insert { row, table_name } => row,
    }
}

/// The names that parameters bind, added to `bound`.
pub fn bind_params(bound: &SymbolSet, params: &Vec<Param>) -> (r: SymbolSet)
    ensures
        r@ == bound@.union(param_set(params.deep_view())),
{
    let ghost p = params.deep_view();
    let mut out = bound.dup();
    for i in 0..params.len()
        invariant
            p == params.deep_view(),
            forall|s: Symbol|
                out@.contains(s) <==> bound@.contains(s) || exists|j: int|
                    0 <= j < i && (#[trigger] p[j]).name == s,
    {
        let ghost before = out@;
        out.insert(params[i].name);
        assert forall|s: Symbol|
            out@.contains(s) <==> bound@.contains(s) || exists|j: int|
                0 <= j < i + 1 && (#[trigger] p[j]).name == s by {
            if s == params@[i as int].name {
                assert(p[i as int].name == s);
            }
        }
    }
    assert(out@ =~= bound@.union(param_set(p)));
    out
}

impl Expr {
    /// The free variables of the expression under the bound names `var_binded`.
    pub fn free_var(&self, reactive_names: &SymbolSet, var_binded: &SymbolSet) -> (r: SymbolSet)
        ensures
            r@ == free_vars(self.deep_view(), reactive_names@, var_binded@),
        decreases self,
    {
        proof {
            crate::runtime::ast::lemma_expr_model(*self);
            reveal(free_vars);
            reveal(free_in_any);
            reveal(free_in_stmts);
        }
        match self {
            Expr::Literal { .. } => SymbolSet::new(),
            Expr::Table { .. } => SymbolSet::new(),
            Expr::MemberAccess { .. } => SymbolSet::new(),
            Expr::Variable { name } => {
                if var_binded.contains(name) {
                    SymbolSet::new()
                } else {
                    SymbolSet::of(*name)
                }
            },
            Expr::KeyVal { name, value } => value.free_var(reactive_names, var_binded),
            Expr::Tuple { val } => free_var_any(val, reactive_names, var_binded),
            Expr::Unop { op, expr } => expr.free_var(reactive_names, var_binded),
            Expr::Binop { op, expr1, expr2 } => {
                let mut r = expr1.free_var(reactive_names, var_binded);
                r.extend(&expr2.free_var(reactive_names, var_binded));
                r
            },
            Expr::If { cond, expr1, expr2 } => {
                let mut r = cond.free_var(reactive_names, var_binded);
                r.extend(&expr1.free_var(reactive_names, var_binded));
                r.extend(&expr2.free_var(reactive_names, var_binded));
                r
            },
            Expr::Func { params, body, return_ty } => {
                let new_binds = bind_params(var_binded, params);
                body.free_var(reactive_names, &new_binds)
            },
            Expr::Call { func, args } => {
                let mut r = func.free_var(reactive_names, var_binded);
                r.extend(&free_var_any(args, reactive_names, var_binded));
                r
            },
            Expr::Action(stmts) => {
                free_var_stmts(stmts, reactive_names, var_binded).difference(reactive_names)
            },
            Expr::Select { table_name, column_names, where_clause } => {
                let mut r = where_clause.free_var(reactive_names, var_binded);
                r.insert(*table_name);
                r
            },
            Expr::Fold { table_name, column_name, operation, identity } => {
                let mut r = operation.free_var(reactive_names, var_binded);
                r.extend(&identity.free_var(reactive_names, var_binded));
                r
            },
        }
    }

    /// The members of other services that the expression refers to, each once,
    /// in the order in which they first occur.
    pub fn cross_service_deps(&self) -> (r: Vec<(Symbol, Symbol)>)
        ensures
            r.deep_view() == added_all(seq![], member_refs(self.deep_view())),
    {
        let mut out: Vec<(Symbol, Symbol)> = Vec::new();
        assert(out.deep_view() =~= Seq::<(Symbol, Symbol)>::empty());
        collect_refs(self, &mut out);
        out
    }
}

fn free_var_any(v: &Vec<Expr>, reactive: &SymbolSet, bound: &SymbolSet) -> (r: SymbolSet)
    ensures
        r@ == free_in_any(v.deep_view(), reactive@, bound@),
    decreases v,
{
    let ghost t = v.deep_view();
    let mut out = SymbolSet::new();
    for i in 0..v.len()
        invariant
            t == v.deep_view(),
            forall|s: Symbol|
                out@.contains(s) <==> exists|j: int|
                    0 <= j < i && free_vars(#[trigger] t[j], reactive@, bound@).contains(s),
    {
        assert(decreases_to!(v => v@[i as int]));
        let one = v[i].free_var(reactive, bound);
        out.extend(&one);
        assert forall|s: Symbol|
            out@.contains(s) <==> exists|j: int|
                0 <= j < i + 1 && free_vars(#[trigger] t[j], reactive@, bound@).contains(s) by {
            if one@.contains(s) {
                assert(free_vars(t[i as int], reactive@, bound@).contains(s));
            }
        }
    }
    proof {
        reveal(free_in_any);
        reveal(free_vars);
        assert(out@ =~= free_in_any(t, reactive@, bound@));
    }
    out
}

fn free_var_stmts(v: &Vec<ActionStmt>, reactive: &SymbolSet, bound: &SymbolSet) -> (r: SymbolSet)
    ensures
        r@ == free_in_stmts(v.deep_view(), reactive@, bound@),
    decreases v,
{
    let ghost t = v.deep_view();
    let mut out = SymbolSet::new();
    for i in 0..v.len()
        invariant
            t == v.deep_view(),
            forall|s: Symbol|
                out@.contains(s) <==> exists|j: int|
                    0 <= j < i && free_vars(
                        stmt_expr(#[trigger] t[j]),
                        reactive@,
                        bound@,
                    ).contains(s),
    {
        assert(decreases_to!(v => v@[i as int]));
        let e = expr_of_stmt(&v[i]);
        let one = e.free_var(reactive, bound);
        out.extend(&one);
        assert forall|s: Symbol|
            out@.contains(s) <==> exists|j: int|
                0 <= j < i + 1 && free_vars(
                    stmt_expr(#[trigger] t[j]),
                    reactive@,
                    bound@,
                ).contains(s) by {
            if one@.contains(s) {
                assert(free_vars(stmt_expr(t[i as int]), reactive@, bound@).contains(s));
            }
        }
    }
    proof {
        reveal(free_in_stmts);
        reveal(free_vars);
        assert(out@ =~= free_in_stmts(t, reactive@, bound@));
    }
    out
}

/// The references to members of other services, in the order in which they occur.
#[verifier::opaque]
pub open spec fn member_refs(e: ExprM<Symbol>) -> Seq<(Symbol, Symbol)>
    decreases e, 0nat,
{
    match e {
        ExprM::Literal { .. } => seq![],
        ExprM::Variable { .. } => seq![],
        ExprM::MemberAccess { service_name, member_name } => seq![(service_name, member_name)],
        ExprM::KeyVal { name, value } => member_refs(*value),
        ExprM::Tuple { val } => refs_of_all(val, val.len()),
        ExprM::Unop { op, expr } => member_refs(*expr),
        ExprM::Binop { op, expr1, expr2 } => member_refs(*expr1) + member_refs(*expr2),
        ExprM::If { cond, expr1, expr2 } => member_refs(*cond) + member_refs(*expr1) + member_refs(
            *expr2,
        ),
        ExprM::Func { params, body, return_ty } => member_refs(*body),
        ExprM::Call { func, args } => member_refs(*func) + refs_of_all(args, args.len()),
        ExprM::Action(stmts) => refs_of_stmts(stmts, stmts.len()),
        ExprM::Select { table_name, column_names, where_clause } => member_refs(*where_clause),
        ExprM::Table { schema, records } => refs_of_all(records, records.len()),
        ExprM::Fold { table_name, column_name, operation, identity } => member_refs(*operation)
            + member_refs(*identity),
    }
}

/// The references in the first `n` expressions.
#[verifier::opaque]
pub open spec fn refs_of_all(v: Seq<ExprM<Symbol>>, n: nat) -> Seq<(Symbol, Symbol)>
    decreases v, n,
{
    if n == 0 || n > v.len() {
        seq![]
    } else {
        refs_of_all(v, (n - 1) as nat) + member_refs(v[n - 1])
    }
}

/// The references in the first `n` statements.
#[verifier::opaque]
pub open spec fn refs_of_stmts(v: Seq<ActionStmtM<Symbol>>, n: nat) -> Seq<(Symbol, Symbol)>
    decreases v, n,
{
    if n == 0 || n > v.len() {
        seq![]
    } else {
        refs_of_stmts(v, (n - 1) as nat) + member_refs(stmt_expr(v[n - 1]))
    }
}

/// `s` with each of `more` added in turn, unless it is there.
pub open spec fn added_all<T>(s: Seq<T>, more: Seq<T>) -> Seq<T>
    decreases more.len(),
{
    if more.len() == 0 {
        s
    } else {
        table::added(added_all(s, more.drop_last()), more.last())
    }
}

/// Adding in two parts.
pub proof fn lemma_added_all<T>(s: Seq<T>, a: Seq<T>, b: Seq<T>)
    ensures
        added_all(s, a + b) == added_all(added_all(s, a), b),
    decreases b.len(),
{
    if b.len() == 0 {
        assert(a + b =~= a);
    } else {
        assert((a + b).drop_last() =~= a + b.drop_last());
        assert((a + b).last() == b.last());
        lemma_added_all(s, a, b.drop_last());
    }
}

/// What is in a sequence after adding: what was in it and what was added.
pub proof fn lemma_added_all_contains<T>(s: Seq<T>, more: Seq<T>, x: T)
    ensures
        added_all(s, more).contains(x) <==> s.contains(x) || more.contains(x),
        s.no_duplicates() ==> added_all(s, more).no_duplicates(),
    decreases more.len(),
{
    if more.len() > 0 {
        let m = more.drop_last();
        lemma_added_all_contains(s, m, x);
        lemma_added_all_contains(s, m, more.last());
        let t = added_all(s, m);
        assert(more.contains(x) <==> m.contains(x) || x == more.last()) by {
            symbols::lemma_take_contains(more, more.len() - 1, x);
            assert(more.take(more.len() as int) =~= more);
            assert(more.take(more.len() - 1) =~= m);
        }
        let u = t.push(more.last());
        assert(u.contains(x) <==> t.contains(x) || x == more.last()) by {
            symbols::lemma_take_contains(u, t.len() as int, x);
            assert(u.take(u.len() as int) =~= u);
            assert(u.take(t.len() as int) =~= t);
        }
    }
}

/// The members that an expression depends on are exactly those that it refers
/// to, and each is listed once.
pub proof fn law_cross_service_deps(e: ExprM<Symbol>, m: (Symbol, Symbol))
    ensures
        added_all(seq![], member_refs(e)).contains(m) <==> member_refs(e).contains(m),
        added_all(Seq::<(Symbol, Symbol)>::empty(), member_refs(e)).no_duplicates(),
{
    lemma_added_all_contains(seq![], member_refs(e), m);
}

fn collect_refs(e: &Expr, out: &mut Vec<(Symbol, Symbol)>)
    ensures
        final(out).deep_view() == added_all(old(out).deep_view(), member_refs(e.deep_view())),
    decreases e, 0nat,
{
    proof {
        crate::runtime::ast::lemma_expr_model(*e);
        reveal(member_refs);
        reveal(refs_of_all);
        reveal(refs_of_stmts);
    }
    let ghost s = out.deep_view();
    match e {
        Expr::Literal { .. } => {},
        Expr::Variable { .. } => {},
        Expr::MemberAccess { service_name, member_name } => {
            table::include_item(out, (*service_name, *member_name));
            proof {
                let one = seq![(*service_name, *member_name)];
                assert(one.drop_last() =~= seq![]);
                assert(added_all(s, one.drop_last()) == s);
            }
        },
        Expr::KeyVal { name, value } => {
            collect_refs(value, out);
        },
        Expr::Tuple { val } => {
            collect_all(val, out);
        },
        Expr::Unop { op, expr } => {
            collect_refs(expr, out);
        },
        Expr::Binop { op, expr1, expr2 } => {
            collect_refs(expr1, out);
            collect_refs(expr2, out);
            proof {
                lemma_added_all(
                    s,
                    member_refs(expr1.deep_view()),
                    member_refs(expr2.deep_view()),
                );
            }
        },
        Expr::If { cond, expr1, expr2 } => {
            collect_refs(cond, out);
            collect_refs(expr1, out);
            collect_refs(expr2, out);
            proof {
                let a = member_refs(cond.deep_view());
                let b = member_refs(expr1.deep_view());
                lemma_added_all(s, a, b);
                lemma_added_all(s, a + b, member_refs(expr2.deep_view()));
            }
        },
        Expr::Func { params, body, return_ty } => {
            collect_refs(body, out);
        },
        Expr::Call { func, args } => {
            collect_refs(func, out);
            collect_all(args, out);
            proof {
                lemma_added_all(
                    s,
                    member_refs(func.deep_view()),
                    refs_of_all(args.deep_view(), args.deep_view().len()),
                );
            }
        },
        Expr::Action(stmts) => {
            collect_stmts(stmts, out);
        },
        Expr::Select { table_name, column_names, where_clause } => {
            collect_refs(where_clause, out);
        },
        Expr::Table { schema, records } => {
            collect_all(records, out);
        },
        Expr::Fold { table_name, column_name, operation, identity } => {
            collect_refs(operation, out);
            collect_refs(identity, out);
            proof {
                lemma_added_all(
                    s,
                    member_refs(operation.deep_view()),
                    member_refs(identity.deep_view()),
                );
            }
        },
    }
}

fn collect_all(v: &Vec<Expr>, out: &mut Vec<(Symbol, Symbol)>)
    ensures
        final(out).deep_view() == added_all(
            old(out).deep_view(),
            refs_of_all(v.deep_view(), v.deep_view().len()),
        ),
    decreases v, 0nat,
{
    let ghost s = out.deep_view();
    let ghost t = v.deep_view();
    proof {
        reveal(refs_of_all);
    }
    for i in 0..v.len()
        invariant
            t == v.deep_view(),
            out.deep_view() == added_all(s, refs_of_all(t, i as nat)),
    {
        assert(decreases_to!(v => v@[i as int]));
        collect_refs(&v[i], out);
        proof {
            reveal(refs_of_all);
            reveal(member_refs);
            lemma_added_all(s, refs_of_all(t, i as nat), member_refs(t[i as int]));
        }
    }
}

fn collect_stmts(v: &Vec<ActionStmt>, out: &mut Vec<(Symbol, Symbol)>)
    ensures
        final(out).deep_view() == added_all(
            old(out).deep_view(),
            refs_of_stmts(v.deep_view(), v.deep_view().len()),
        ),
    decreases v, 0nat,
{
    let ghost s = out.deep_view();
    let ghost t = v.deep_view();
    proof {
        reveal(refs_of_stmts);
    }
    for i in 0..v.len()
        invariant
            t == v.deep_view(),
            out.deep_view() == added_all(s, refs_of_stmts(t, i as nat)),
    {
        assert(decreases_to!(v => v@[i as int]));
        let e = expr_of_stmt(&v[i]);
        collect_refs(e, out);
        proof {
            reveal(refs_of_stmts);
            reveal(member_refs);
            lemma_added_all(s, refs_of_stmts(t, i as nat), member_refs(stmt_expr(t[i as int])));
        }
    }
}

} // verus!
