//! Renaming the free variables of an expression.

use crate::runtime::ast::model::ExprM;
use crate::runtime::ast::Expr;
use crate::runtime::interner::Symbol;
use crate::runtime::semantic_analysis::var_analysis::read_write;
use crate::runtime::semantic_analysis::var_analysis::read_write::bind_params;
use crate::runtime::semantic_analysis::var_analysis::symbols::SymbolSet;
use crate::runtime::table;
use crate::runtime::table::{Plain, Table};
use vstd::prelude::*;

verus! {

/// The new name of a variable: a bound one keeps its name.
pub open spec fn new_name(
    name: Symbol,
    bound: Set<Symbol>,
    renames: Seq<(Symbol, Symbol)>,
) -> Symbol {
    if bound.contains(name) {
        name
    } else {
        match table::get(renames, name) {
            Some(x) => x,
            None => name,
        }
    }
}

/// The expression with its free variables renamed.
#[verifier::opaque]
pub open spec fn renamed(
    e: ExprM<Symbol>,
    bound: Set<Symbol>,
    renames: Seq<(Symbol, Symbol)>,
) -> ExprM<Symbol>
    decreases e, 0nat,
{
    match e {
        ExprM::Literal { .. } => e,
        ExprM::Variable { name } => ExprM::Variable { name: new_name(name, bound, renames) },
        ExprM::KeyVal { name, value } => ExprM::KeyVal {
            name,
            value: Box::new(renamed(*value, bound, renames)),
        },
        ExprM::Tuple { val } => ExprM::Tuple { val: renamed_all(val, bound, renames, val.len()) },
        ExprM::Unop { op, expr } => ExprM::Unop {
            op,
            expr: Box::new(renamed(*expr, bound, renames)),
        },
        ExprM::Binop { op, expr1, expr2 } => ExprM::Binop {
            op,
            expr1: Box::new(renamed(*expr1, bound, renames)),
            expr2: Box::new(renamed(*expr2, bound, renames)),
        },
        ExprM::If { cond, expr1, expr2 } => ExprM::If {
            cond: Box::new(renamed(*cond, bound, renames)),
            expr1: Box::new(renamed(*expr1, bound, renames)),
            expr2: Box::new(renamed(*expr2, bound, renames)),
        },
        ExprM::Func { params, body, return_ty } => ExprM::Func {
            params,
            body: Box::new(renamed(*body, bound.union(read_write::param_set(params)), renames)),
            return_ty,
        },
        ExprM::Call { func, args } => ExprM::Call {
            func: Box::new(renamed(*func, bound, renames)),
            args: renamed_all(args, bound, renames, args.len()),
        },
        ExprM::Action(_) => e,
        ExprM::MemberAccess { .. } => e,
        ExprM::Select { table_name, column_names, where_clause } => ExprM::Select {
            table_name,
            column_names,
            where_clause: Box::new(renamed(*where_clause, bound, renames)),
        },
        ExprM::Table { schema, records } => ExprM::Table {
            schema,
            records: renamed_all(records, bound, renames, records.len()),
        },
        ExprM::Fold { table_name, column_name, operation, identity } => ExprM::Fold {
            table_name,
            column_name,
            operation: Box::new(renamed(*operation, bound, renames)),
            identity: Box::new(renamed(*identity, bound, renames)),
        },
    }
}

/// The first `n` expressions with their free variables renamed.
#[verifier::opaque]
pub open spec fn renamed_all(
    v: Seq<ExprM<Symbol>>,
    bound: Set<Symbol>,
    renames: Seq<(Symbol, Symbol)>,
    n: nat,
) -> Seq<ExprM<Symbol>>
    decreases v, n,
{
    if n == 0 || n > v.len() {
        seq![]
    } else {
        renamed_all(v, bound, renames, (n - 1) as nat).push(renamed(v[n - 1], bound, renames))
    }
}

/// Whether an expression holds no action, outside of literals. The variables of
/// an action cannot be renamed.
#[verifier::opaque]
pub open spec fn action_free(e: ExprM<Symbol>) -> bool
    decreases e,
{
    match e {
        ExprM::KeyVal { name, value } => action_free(*value),
        ExprM::Tuple { val } => all_action_free(val),
        ExprM::Unop { op, expr } => action_free(*expr),
        ExprM::Binop { op, expr1, expr2 } => action_free(*expr1) && action_free(*expr2),
        ExprM::If { cond, expr1, expr2 } => action_free(*cond) && action_free(*expr1)
            && action_free(*expr2),
        ExprM::Func { params, body, return_ty } => action_free(*body),
        ExprM::Call { func, args } => action_free(*func) && all_action_free(args),
        ExprM::Action(stmts) => stmts.len() == 0,
        ExprM::Select { table_name, column_names, where_clause } => action_free(*where_clause),
        ExprM::Table { schema, records } => all_action_free(records),
        ExprM::Fold { table_name, column_name, operation, identity } => action_free(*operation)
            && action_free(*identity),
        _ => true,
    }
}

/// Whether none of the expressions holds an action.
#[verifier::opaque]
pub open spec fn all_action_free(v: Seq<ExprM<Symbol>>) -> bool
    decreases v,
{
    forall|i: int| 0 <= i < v.len() ==> action_free(#[trigger] v[i])
}

impl Expr {
    /// Renames the free variables of the expression. Those in `var_binded` are
    /// bound outside of it and keep their names.
    pub fn alpha_rename(&mut self, var_binded: &SymbolSet, renames: &Table<Symbol, Symbol>)
        requires
            action_free(old(self).deep_view()),
        ensures
            final(self).deep_view() == renamed(
                old(self).deep_view(),
                var_binded@,
                renames.deep_view(),
            ),
    {
        *self = rename(self, var_binded, renames);
    }
}

fn rename(e: &Expr, bound: &SymbolSet, renames: &Table<Symbol, Symbol>) -> (r: Expr)
    requires
        action_free(e.deep_view()),
    ensures
        r.deep_view() == renamed(e.deep_view(), bound@, renames.deep_view()),
    decreases e, 0nat,
{
    proof {
        crate::runtime::ast::lemma_expr_model(*e);
        reveal(renamed);
        reveal(renamed_all);
        reveal(action_free);
        reveal(all_action_free);
    }
    let r = match e {
        Expr::Literal { .. } => e.dup(),
        Expr::Variable { name } => {
            if bound.contains(name) {
                Expr::Variable { name: *name }
            } else {
                match renames.get(name) {
                    Some(x) => Expr::Variable { name: *x },
                    None => Expr::Variable { name: *name },
                }
            }
        },
        Expr::KeyVal { name, value } => Expr::KeyVal {
            name: *name,
            value: Box::new(rename(value, bound, renames)),
        },
        Expr::Tuple { val } => Expr::Tuple { val: rename_all(val, bound, renames) },
        Expr::Unop { op, expr } => Expr::Unop {
            op: *op,
            expr: Box::new(rename(expr, bound, renames)),
        },
        Expr::Binop { op, expr1, expr2 } => Expr::Binop {
            op: *op,
            expr1: Box::new(rename(expr1, bound, renames)),
            expr2: Box::new(rename(expr2, bound, renames)),
        },
        Expr::If { cond, expr1, expr2 } => Expr::If {
            cond: Box::new(rename(cond, bound, renames)),
            expr1: Box::new(rename(expr1, bound, renames)),
            expr2: Box::new(rename(expr2, bound, renames)),
        },
        Expr::Func { params, body, return_ty } => {
            let new_binds = bind_params(bound, params);
            Expr::Func {
                params: params.dup(),
                body: Box::new(rename(body, &new_binds, renames)),
                return_ty: return_ty.dup(),
            }
        },
        Expr::Call { func, args } => Expr::Call {
            func: Box::new(rename(func, bound, renames)),
            args: rename_all(args, bound, renames),
        },
        Expr::Action(_) => e.dup(),
        Expr::MemberAccess { .. } => e.dup(),
        Expr::Select { table_name, column_names, where_clause } => Expr::Select {
            table_name: *table_name,
            column_names: column_names.dup(),
            where_clause: Box::new(rename(where_clause, bound, renames)),
        },
        Expr::Table { schema, records } => Expr::Table {
            schema: schema.dup(),
            records: rename_all(records, bound, renames),
        },
        Expr::Fold { table_name, column_name, operation, identity } => Expr::Fold {
            table_name: *table_name,
            column_name: *column_name,
            operation: Box::new(rename(operation, bound, renames)),
            identity: Box::new(rename(identity, bound, renames)),
        },
    };
    proof {
        crate::runtime::ast::lemma_expr_model(r);
    }
    r
}

fn rename_all(v: &Vec<Expr>, bound: &SymbolSet, renames: &Table<Symbol, Symbol>) -> (r: Vec<Expr>)
    requires
        all_action_free(v.deep_view()),
    ensures
        r.deep_view() == renamed_all(
            v.deep_view(),
            bound@,
            renames.deep_view(),
            v.deep_view().len(),
        ),
    decreases v, 0nat,
{
    let ghost t = v.deep_view();
    let mut out: Vec<Expr> = Vec::new();
    proof {
        reveal(renamed_all);
        assert(out.deep_view() =~= Seq::<ExprM<Symbol>>::empty());
    }
    for i in 0..v.len()
        invariant
            t == v.deep_view(),
            all_action_free(t),
            out.deep_view() == renamed_all(t, bound@, renames.deep_view(), i as nat),
    {
        assert(decreases_to!(v => v@[i as int]));
        proof {
            reveal(all_action_free);
            reveal(action_free);
            assert(action_free(t[i as int]));
        }
        let ghost before = out.deep_view();
        let e = rename(&v[i], bound, renames);
        out.push(e);
        proof {
            reveal(renamed_all);
            reveal(renamed);
            assert(out.deep_view() =~= before.push(e.deep_view()));
        }
    }
    out
}

/// Where every name that has a new one is bound, nothing is renamed.
pub proof fn law_bound_names_stay(
    e: ExprM<Symbol>,
    bound: Set<Symbol>,
    renames: Seq<(Symbol, Symbol)>,
)
    requires
        forall|s: Symbol| table::bound(renames, s) ==> bound.contains(s),
    ensures
        renamed(e, bound, renames) == e,
    decreases e, 0nat,
{
    reveal(renamed);
    reveal(renamed_all);
    match e {
        ExprM::KeyVal { name, value } => {
            law_bound_names_stay(*value, bound, renames);
        },
        ExprM::Tuple { val } => {
            lemma_all_stay(val, bound, renames, val.len());
        },
        ExprM::Unop { op, expr } => {
            law_bound_names_stay(*expr, bound, renames);
        },
        ExprM::Binop { op, expr1, expr2 } => {
            law_bound_names_stay(*expr1, bound, renames);
            law_bound_names_stay(*expr2, bound, renames);
        },
        ExprM::If { cond, expr1, expr2 } => {
            law_bound_names_stay(*cond, bound, renames);
            law_bound_names_stay(*expr1, bound, renames);
            law_bound_names_stay(*expr2, bound, renames);
        },
        ExprM::Func { params, body, return_ty } => {
            law_bound_names_stay(*body, bound.union(read_write::param_set(params)), renames);
        },
        ExprM::Call { func, args } => {
            law_bound_names_stay(*func, bound, renames);
            lemma_all_stay(args, bound, renames, args.len());
        },
        ExprM::Select { table_name, column_names, where_clause } => {
            law_bound_names_stay(*where_clause, bound, renames);
        },
        ExprM::Table { schema, records } => {
            lemma_all_stay(records, bound, renames, records.len());
        },
        ExprM::Fold { table_name, column_name, operation, identity } => {
            law_bound_names_stay(*operation, bound, renames);
            law_bound_names_stay(*identity, bound, renames);
        },
        _ => {},
    }
}

proof fn lemma_all_stay(
    v: Seq<ExprM<Symbol>>,
    bound: Set<Symbol>,
    renames: Seq<(Symbol, Symbol)>,
    n: nat,
)
    requires
        n <= v.len(),
        forall|s: Symbol| table::bound(renames, s) ==> bound.contains(s),
    ensures
        renamed_all(v, bound, renames, n) == v.take(n as int),
        n == v.len() ==> renamed_all(v, bound, renames, n) == v,
    decreases v, n,
{
    reveal(renamed_all);
    reveal(renamed);
    if n > 0 {
        lemma_all_stay(v, bound, renames, (n - 1) as nat);
        law_bound_names_stay(v[n - 1], bound, renames);
        assert(v.take(n as int) =~= v.take(n - 1).push(v[n - 1]));
    } else {
        assert(v.take(0) =~= seq![]);
    }
    assert(v.take(v.len() as int) =~= v);
}

/// Whether a name comes from the free variables `free`: it is one of them, or
/// the new name of one.
pub open spec fn comes_from(
    s: Symbol,
    free: Set<Symbol>,
    renames: Seq<(Symbol, Symbol)>,
) -> bool {
    free.contains(s) || exists|x: Symbol|
        free.contains(x) && #[trigger] table::get(renames, x) == Some(s)
}

/// A renamed expression has no free variables but those that the expression
/// had, and their new names.
pub proof fn law_free_after_renaming(
    e: ExprM<Symbol>,
    bound: Set<Symbol>,
    renames: Seq<(Symbol, Symbol)>,
    reactive: Set<Symbol>,
    s: Symbol,
)
    requires
        read_write::free_vars(renamed(e, bound, renames), reactive, bound).contains(s),
    ensures
        comes_from(s, read_write::free_vars(e, reactive, bound), renames),
    decreases e, 0nat,
{
    reveal(renamed);
    reveal(renamed_all);
    reveal(read_write::free_vars);
    reveal(read_write::free_in_any);
    reveal(read_write::free_in_stmts);
    let z = renamed(e, bound, renames);
    match e {
        ExprM::Variable { name } => {
            assert(read_write::free_vars(e, reactive, bound).contains(name));
        },
        ExprM::KeyVal { name, value } => {
            law_free_after_renaming(*value, bound, renames, reactive, s);
        },
        ExprM::Tuple { val } => {
            lemma_free_any(val, bound, renames, reactive, s);
        },
        ExprM::Unop { op, expr } => {
            law_free_after_renaming(*expr, bound, renames, reactive, s);
        },
        ExprM::Binop { op, expr1, expr2 } => {
            if read_write::free_vars(renamed(*expr1, bound, renames), reactive, bound).contains(s) {
                law_free_after_renaming(*expr1, bound, renames, reactive, s);
            } else {
                law_free_after_renaming(*expr2, bound, renames, reactive, s);
            }
        },
        ExprM::If { cond, expr1, expr2 } => {
            if read_write::free_vars(renamed(*cond, bound, renames), reactive, bound).contains(s) {
                law_free_after_renaming(*cond, bound, renames, reactive, s);
            } else if read_write::free_vars(renamed(
                *expr1,
                bound,
                renames,
            ), reactive, bound).contains(
                s,
            ) {
                law_free_after_renaming(*expr1, bound, renames, reactive, s);
            } else {
                law_free_after_renaming(*expr2, bound, renames, reactive, s);
            }
        },
        ExprM::Func { params, body, return_ty } => {
            law_free_after_renaming(
                *body,
                bound.union(read_write::param_set(params)),
                renames,
                reactive,
                s,
            );
        },
        ExprM::Call { func, args } => {
            if read_write::free_vars(renamed(*func, bound, renames), reactive, bound).contains(s) {
                law_free_after_renaming(*func, bound, renames, reactive, s);
            } else {
                lemma_free_any(args, bound, renames, reactive, s);
            }
        },
        ExprM::Select { table_name, column_names, where_clause } => {
            if s != table_name {
                law_free_after_renaming(*where_clause, bound, renames, reactive, s);
            }
        },
        ExprM::Fold { table_name, column_name, operation, identity } => {
            if read_write::free_vars(renamed(*operation, bound, renames), reactive, bound).contains(s) {
                law_free_after_renaming(*operation, bound, renames, reactive, s);
            } else {
                law_free_after_renaming(*identity, bound, renames, reactive, s);
            }
        },
        _ => {},
    }
}

/// What the place of a renamed expression holds.
proof fn lemma_renamed_at(
    v: Seq<ExprM<Symbol>>,
    bound: Set<Symbol>,
    renames: Seq<(Symbol, Symbol)>,
    n: nat,
)
    requires
        n <= v.len(),
    ensures
        renamed_all(v, bound, renames, n).len() == n,
        forall|i: int|
            0 <= i < n ==> #[trigger] renamed_all(v, bound, renames, n)[i] == renamed(
                v[i],
                bound,
                renames,
            ),
    decreases n,
{
    reveal(renamed_all);
    reveal(renamed);
    if n > 0 {
        lemma_renamed_at(v, bound, renames, (n - 1) as nat);
    }
}

proof fn lemma_free_any(
    v: Seq<ExprM<Symbol>>,
    bound: Set<Symbol>,
    renames: Seq<(Symbol, Symbol)>,
    reactive: Set<Symbol>,
    s: Symbol,
)
    requires
        read_write::free_in_any(
            renamed_all(v, bound, renames, v.len()),
            reactive,
            bound,
        ).contains(s),
    ensures
        comes_from(s, read_write::free_in_any(v, reactive, bound), renames),
    decreases v, 0nat,
{
    let z = renamed_all(v, bound, renames, v.len());
    reveal(read_write::free_vars);
    reveal(read_write::free_in_any);
    lemma_renamed_at(v, bound, renames, v.len());
    let i = choose|i: int|
        0 <= i < z.len() && read_write::free_vars(#[trigger] z[i], reactive, bound).contains(s);
    assert(z[i] == renamed(v[i], bound, renames));
    law_free_after_renaming(v[i], bound, renames, reactive, s);
    let f = read_write::free_vars(v[i], reactive, bound);
    assert forall|x: Symbol| f.contains(x) implies read_write::free_in_any(v, reactive, bound).contains(
        x,
    ) by {
        assert(read_write::free_vars(v[i], reactive, bound).contains(x));
    }
}

/// The new names.
pub open spec fn new_names(renames: Seq<(Symbol, Symbol)>) -> Set<Symbol> {
    Set::new(|s: Symbol| exists|x: Symbol| #[trigger] table::get(renames, x) == Some(s))
}

/// Whether renaming reaches all free variables of an expression, and no function
/// in it has one of the `names` for a parameter.
///
/// A table that is selected from keeps its name, and so do the variables of a
/// statement. In the rows of a table no variable is free.
#[verifier::opaque]
pub open spec fn uncaptured(e: ExprM<Symbol>, names: Set<Symbol>) -> bool
    decreases e,
{
    match e {
        ExprM::KeyVal { name, value } => uncaptured(*value, names),
        ExprM::Tuple { val } => all_uncaptured(val, names),
        ExprM::Unop { op, expr } => uncaptured(*expr, names),
        ExprM::Binop { op, expr1, expr2 } => uncaptured(*expr1, names) && uncaptured(
            *expr2,
            names,
        ),
        ExprM::If { cond, expr1, expr2 } => uncaptured(*cond, names) && uncaptured(*expr1, names)
            && uncaptured(*expr2, names),
        ExprM::Func { params, body, return_ty } => read_write::param_set(params).disjoint(names)
            && uncaptured(*body, names),
        ExprM::Call { func, args } => uncaptured(*func, names) && all_uncaptured(args, names),
        ExprM::Action(stmts) => stmts.len() == 0,
        ExprM::Select { .. } => false,
        ExprM::Fold { table_name, column_name, operation, identity } => uncaptured(
            *operation,
            names,
        ) && uncaptured(*identity, names),
        _ => true,
    }
}

/// Whether that holds of all the expressions.
#[verifier::opaque]
pub open spec fn all_uncaptured(v: Seq<ExprM<Symbol>>, names: Set<Symbol>) -> bool
    decreases v,
{
    forall|i: int| 0 <= i < v.len() ==> uncaptured(#[trigger] v[i], names)
}

/// The names with the new ones in place of those that have one.
pub open spec fn renamed_set(names: Set<Symbol>, renames: Seq<(Symbol, Symbol)>) -> Set<Symbol> {
    Set::new(
        |s: Symbol|
            exists|x: Symbol|
                names.contains(x) && s == #[trigger] new_name(x, Set::empty(), renames),
    )
}

proof fn lemma_renamed_union(a: Set<Symbol>, b: Set<Symbol>, renames: Seq<(Symbol, Symbol)>)
    ensures
        renamed_set(a.union(b), renames) == renamed_set(a, renames).union(renamed_set(b, renames)),
{
    let u = renamed_set(a.union(b), renames);
    let v = renamed_set(a, renames).union(renamed_set(b, renames));
    assert forall|s: Symbol| u.contains(s) <==> v.contains(s) by {
        if renamed_set(a, renames).contains(s) {
            let x = choose|x: Symbol|
                a.contains(x) && s == #[trigger] new_name(x, Set::empty(), renames);
            assert(a.union(b).contains(x) && s == new_name(x, Set::empty(), renames));
        }
        if renamed_set(b, renames).contains(s) {
            let x = choose|x: Symbol|
                b.contains(x) && s == #[trigger] new_name(x, Set::empty(), renames);
            assert(a.union(b).contains(x) && s == new_name(x, Set::empty(), renames));
        }
    }
    assert(u =~= v);
}

/// Where no new name is bound, neither outside of an expression nor by a function
/// in it, its free variables are the renamed ones that it had: no more and no
/// fewer, whatever names are reactive.
pub proof fn law_renaming_renames_the_free(
    e: ExprM<Symbol>,
    bound: Set<Symbol>,
    renames: Seq<(Symbol, Symbol)>,
    reactive: Set<Symbol>,
)
    requires
        bound.disjoint(new_names(renames)),
        uncaptured(e, new_names(renames)),
    ensures
        read_write::free_vars(renamed(e, bound, renames), reactive, bound) == renamed_set(
            read_write::free_vars(e, reactive, bound),
            renames,
        ),
    decreases e, 0nat,
{
    reveal(uncaptured);
    reveal(all_uncaptured);
    reveal(renamed);
    reveal(renamed_all);
    reveal(read_write::free_vars);
    reveal(read_write::free_in_any);
    reveal(read_write::free_in_stmts);
    let z = read_write::free_vars(renamed(e, bound, renames), reactive, bound);
    let f = read_write::free_vars(e, reactive, bound);
    assert(renamed_set(Set::empty(), renames) =~= Set::empty());
    match e {
        ExprM::Variable { name } => {
            let y = new_name(name, Set::empty(), renames);
            if !bound.contains(name) {
                if table::get(renames, name) == Some(y) {
                    assert(new_names(renames).contains(y));
                }
                assert(!bound.contains(y));
                assert forall|s: Symbol| renamed_set(f, renames).contains(s) <==> s == y by {
                    assert(f.contains(name));
                }
                assert(z =~= renamed_set(f, renames));
            }
        },
        ExprM::KeyVal { name, value } => {
            law_renaming_renames_the_free(*value, bound, renames, reactive);
        },
        ExprM::Tuple { val } => {
            lemma_all_renamed(val, bound, renames, reactive);
        },
        ExprM::Unop { op, expr } => {
            law_renaming_renames_the_free(*expr, bound, renames, reactive);
        },
        ExprM::Binop { op, expr1, expr2 } => {
            law_renaming_renames_the_free(*expr1, bound, renames, reactive);
            law_renaming_renames_the_free(*expr2, bound, renames, reactive);
            let a = read_write::free_vars(*expr1, reactive, bound);
            let b = read_write::free_vars(*expr2, reactive, bound);
            lemma_renamed_union(a, b, renames);
        },
        ExprM::If { cond, expr1, expr2 } => {
            law_renaming_renames_the_free(*cond, bound, renames, reactive);
            law_renaming_renames_the_free(*expr1, bound, renames, reactive);
            law_renaming_renames_the_free(*expr2, bound, renames, reactive);
            let a = read_write::free_vars(*cond, reactive, bound);
            let b = read_write::free_vars(*expr1, reactive, bound);
            let c = read_write::free_vars(*expr2, reactive, bound);
            lemma_renamed_union(a, b, renames);
            lemma_renamed_union(a.union(b), c, renames);
        },
        ExprM::Func { params, body, return_ty } => {
            let inner = bound.union(read_write::param_set(params));
            law_renaming_renames_the_free(*body, inner, renames, reactive);
        },
        ExprM::Call { func, args } => {
            law_renaming_renames_the_free(*func, bound, renames, reactive);
            lemma_all_renamed(args, bound, renames, reactive);
            let a = read_write::free_vars(*func, reactive, bound);
            let b = read_write::free_in_any(args, reactive, bound);
            lemma_renamed_union(a, b, renames);
        },
        ExprM::Action(stmts) => {
            let g = read_write::free_in_stmts(stmts, reactive, bound);
            assert forall|s: Symbol| !g.contains(s) by {}
            assert(g =~= Set::empty());
            assert(f == g.difference(reactive));
            assert(f =~= Set::empty());
        },
        ExprM::Fold { table_name, column_name, operation, identity } => {
            law_renaming_renames_the_free(*operation, bound, renames, reactive);
            law_renaming_renames_the_free(*identity, bound, renames, reactive);
            let a = read_write::free_vars(*operation, reactive, bound);
            let b = read_write::free_vars(*identity, reactive, bound);
            lemma_renamed_union(a, b, renames);
        },
        _ => {},
    }
}

proof fn lemma_all_renamed(
    v: Seq<ExprM<Symbol>>,
    bound: Set<Symbol>,
    renames: Seq<(Symbol, Symbol)>,
    reactive: Set<Symbol>,
)
    requires
        bound.disjoint(new_names(renames)),
        all_uncaptured(v, new_names(renames)),
    ensures
        read_write::free_in_any(renamed_all(v, bound, renames, v.len()), reactive, bound)
            == renamed_set(read_write::free_in_any(v, reactive, bound), renames),
    decreases v, 0nat,
{
    reveal(all_uncaptured);
    reveal(uncaptured);
    reveal(read_write::free_vars);
    reveal(read_write::free_in_any);
    let w = renamed_all(v, bound, renames, v.len());
    let f = read_write::free_in_any(v, reactive, bound);
    let z = read_write::free_in_any(w, reactive, bound);
    lemma_renamed_at(v, bound, renames, v.len());
    assert forall|s: Symbol| z.contains(s) <==> renamed_set(f, renames).contains(s) by {
        if z.contains(s) {
            let i = choose|i: int|
                0 <= i < w.len() && read_write::free_vars(
                    #[trigger] w[i],
                    reactive,
                    bound,
                ).contains(s);
            assert(w[i] == renamed(v[i], bound, renames));
            law_renaming_renames_the_free(v[i], bound, renames, reactive);
            let x = choose|x: Symbol|
                read_write::free_vars(v[i], reactive, bound).contains(x) && s
                    == #[trigger] new_name(x, Set::empty(), renames);
            assert(f.contains(x));
        }
        if renamed_set(f, renames).contains(s) {
            let x = choose|x: Symbol|
                f.contains(x) && s == #[trigger] new_name(x, Set::empty(), renames);
            let i = choose|i: int|
                0 <= i < v.len() && read_write::free_vars(
                    #[trigger] v[i],
                    reactive,
                    bound,
                ).contains(x);
            law_renaming_renames_the_free(v[i], bound, renames, reactive);
            assert(w[i] == renamed(v[i], bound, renames));
            assert(read_write::free_vars(w[i], reactive, bound).contains(s));
        }
    }
    assert(z =~= renamed_set(f, renames));
}

/// The expression with one name in place of every variable: what is left is its
/// shape, with operators, literals, member accesses and parameters.
#[verifier::opaque]
pub open spec fn outlined(e: ExprM<Symbol>, x: Symbol) -> ExprM<Symbol>
    decreases e, 0nat,
{
    match e {
        ExprM::Variable { name } => ExprM::Variable { name: x },
        ExprM::KeyVal { name, value } => ExprM::KeyVal {
            name,
            value: Box::new(outlined(*value, x)),
        },
        ExprM::Tuple { val } => ExprM::Tuple { val: outlined_all(val, x, val.len()) },
        ExprM::Unop { op, expr } => ExprM::Unop { op, expr: Box::new(outlined(*expr, x)) },
        ExprM::Binop { op, expr1, expr2 } => ExprM::Binop {
            op,
            expr1: Box::new(outlined(*expr1, x)),
            expr2: Box::new(outlined(*expr2, x)),
        },
        ExprM::If { cond, expr1, expr2 } => ExprM::If {
            cond: Box::new(outlined(*cond, x)),
            expr1: Box::new(outlined(*expr1, x)),
            expr2: Box::new(outlined(*expr2, x)),
        },
        ExprM::Func { params, body, return_ty } => ExprM::Func {
            params,
            body: Box::new(outlined(*body, x)),
            return_ty,
        },
        ExprM::Call { func, args } => ExprM::Call {
            func: Box::new(outlined(*func, x)),
            args: outlined_all(args, x, args.len()),
        },
        ExprM::Select { table_name, column_names, where_clause } => ExprM::Select {
            table_name,
            column_names,
            where_clause: Box::new(outlined(*where_clause, x)),
        },
        ExprM::Table { schema, records } => ExprM::Table {
            schema,
            records: outlined_all(records, x, records.len()),
        },
        ExprM::Fold { table_name, column_name, operation, identity } => ExprM::Fold {
            table_name,
            column_name,
            operation: Box::new(outlined(*operation, x)),
            identity: Box::new(outlined(*identity, x)),
        },
        _ => e,
    }
}

/// The first `n` expressions with one name in place of every variable.
#[verifier::opaque]
pub open spec fn outlined_all(v: Seq<ExprM<Symbol>>, x: Symbol, n: nat) -> Seq<ExprM<Symbol>>
    decreases v, n,
{
    if n == 0 || n > v.len() {
        seq![]
    } else {
        outlined_all(v, x, (n - 1) as nat).push(outlined(v[n - 1], x))
    }
}

/// Renaming changes names of variables and nothing else: shape, operators,
/// literals, member accesses and parameters stay.
pub proof fn law_renaming_keeps_the_shape(
    e: ExprM<Symbol>,
    bound: Set<Symbol>,
    renames: Seq<(Symbol, Symbol)>,
    x: Symbol,
)
    ensures
        outlined(renamed(e, bound, renames), x) == outlined(e, x),
    decreases e, 0nat,
{
    reveal(outlined);
    reveal(outlined_all);
    reveal(renamed);
    reveal(renamed_all);
    match e {
        ExprM::KeyVal { name, value } => {
            law_renaming_keeps_the_shape(*value, bound, renames, x);
        },
        ExprM::Tuple { val } => {
            lemma_all_shapes(val, bound, renames, x);
        },
        ExprM::Unop { op, expr } => {
            law_renaming_keeps_the_shape(*expr, bound, renames, x);
        },
        ExprM::Binop { op, expr1, expr2 } => {
            law_renaming_keeps_the_shape(*expr1, bound, renames, x);
            law_renaming_keeps_the_shape(*expr2, bound, renames, x);
        },
        ExprM::If { cond, expr1, expr2 } => {
            law_renaming_keeps_the_shape(*cond, bound, renames, x);
            law_renaming_keeps_the_shape(*expr1, bound, renames, x);
            law_renaming_keeps_the_shape(*expr2, bound, renames, x);
        },
        ExprM::Func { params, body, return_ty } => {
            let inner = bound.union(read_write::param_set(params));
            law_renaming_keeps_the_shape(*body, inner, renames, x);
        },
        ExprM::Call { func, args } => {
            law_renaming_keeps_the_shape(*func, bound, renames, x);
            lemma_all_shapes(args, bound, renames, x);
        },
        ExprM::Select { table_name, column_names, where_clause } => {
            law_renaming_keeps_the_shape(*where_clause, bound, renames, x);
        },
        ExprM::Table { schema, records } => {
            lemma_all_shapes(records, bound, renames, x);
        },
        ExprM::Fold { table_name, column_name, operation, identity } => {
            law_renaming_keeps_the_shape(*operation, bound, renames, x);
            law_renaming_keeps_the_shape(*identity, bound, renames, x);
        },
        _ => {},
    }
}

/// What the place of an outlined expression holds.
proof fn lemma_outlined_at(v: Seq<ExprM<Symbol>>, x: Symbol, n: nat)
    requires
        n <= v.len(),
    ensures
        outlined_all(v, x, n).len() == n,
        forall|i: int| 0 <= i < n ==> #[trigger] outlined_all(v, x, n)[i] == outlined(v[i], x),
    decreases n,
{
    reveal(outlined_all);
    reveal(outlined);
    if n > 0 {
        lemma_outlined_at(v, x, (n - 1) as nat);
    }
}

proof fn lemma_all_shapes(
    v: Seq<ExprM<Symbol>>,
    bound: Set<Symbol>,
    renames: Seq<(Symbol, Symbol)>,
    x: Symbol,
)
    ensures
        renamed_all(v, bound, renames, v.len()).len() == v.len(),
        outlined_all(renamed_all(v, bound, renames, v.len()), x, v.len()) == outlined_all(
            v,
            x,
            v.len(),
        ),
    decreases v, 0nat,
{
    let w = renamed_all(v, bound, renames, v.len());
    lemma_renamed_at(v, bound, renames, v.len());
    lemma_outlined_at(v, x, v.len());
    lemma_outlined_at(w, x, v.len());
    assert forall|i: int| 0 <= i < v.len() implies #[trigger] outlined_all(w, x, v.len())[i]
        == outlined_all(v, x, v.len())[i] by {
        assert(w[i] == renamed(v[i], bound, renames));
        law_renaming_keeps_the_shape(v[i], bound, renames, x);
    }
    assert(outlined_all(w, x, v.len()) =~= outlined_all(v, x, v.len()));
}

} // verus!
