//! Laws of inferring types.

use crate::runtime::ast::model::{ExprM, FieldM};
use crate::runtime::interner::Symbol;
use crate::runtime::semantic_analysis::typecheck;
use crate::runtime::semantic_analysis::typecheck::laws;
use crate::runtime::semantic_analysis::typecheck::tc_expr;
use crate::runtime::semantic_analysis::typecheck::types::TyM;
use crate::runtime::semantic_analysis::typecheck::unify;
use crate::runtime::semantic_analysis::typecheck::TypeEnvM;
use crate::runtime::table;
use crate::runtime::tt::ParamM;
use vstd::prelude::*;

verus! {

/// Whether every type in a context has only the first `n` variables.
pub open spec fn context_within(n: u64, c: Seq<(Symbol, TyM)>) -> bool {
    forall|i: int| 0 <= i < c.len() ==> laws::within(n, (#[trigger] c[i]).1)
}

/// Whether all types have only variables that were given out, and what is known
/// of them is in solved form.
pub open spec fn good(env: TypeEnvM) -> bool {
    &&& laws::solved_form(env.next, env.subst)
    &&& context_within(env.next, env.vars)
    &&& context_within(env.next, env.names)
}

/// Whether more is known afterwards, and the contexts are good for it.
pub open spec fn good_step(a: TypeEnvM, b: TypeEnvM) -> bool {
    good(b) && a.next <= b.next
}

proof fn lemma_within_more(a: u64, b: u64, t: TyM)
    requires
        a <= b,
        laws::within(a, t),
    ensures
        laws::within(b, t),
{
}

proof fn lemma_good_context(a: u64, b: u64, c: Seq<(Symbol, TyM)>)
    requires
        a <= b,
        context_within(a, c),
    ensures
        context_within(b, c),
{
    assert forall|i: int| 0 <= i < c.len() implies laws::within(b, (#[trigger] c[i]).1) by {
        lemma_within_more(a, b, c[i].1);
    }
}

proof fn lemma_in_context(n: u64, c: Seq<(Symbol, TyM)>, x: Symbol)
    requires
        context_within(n, c),
    ensures
        table::get(c, x) matches Some(t) ==> laws::within(n, t),
{
    table::lemma_slot(c, x);
}

proof fn lemma_put_context(n: u64, c: Seq<(Symbol, TyM)>, x: Symbol, t: TyM)
    requires
        context_within(n, c),
        laws::within(n, t),
    ensures
        context_within(n, table::put(c, x, t)),
{
    table::lemma_slot(c, x);
    let z = table::put(c, x, t);
    let k = table::slot(c, x) as int;
    assert forall|i: int| 0 <= i < z.len() implies laws::within(n, (#[trigger] z[i]).1) by {
        if i != k {
            assert(z[i] == c[i]);
        }
    }
}

/// One more variable is given out.
proof fn lemma_fresh_good(env: TypeEnvM)
    requires
        good(env),
    ensures
        typecheck::fresh(env) matches Some((t, env1)) ==> good_step(env, env1) && laws::within(
            env1.next,
            t,
        ) && env1.vars == env.vars && env1.subst == env.subst,
{
    if let Some((t, env1)) = typecheck::fresh(env) {
        lemma_good_context(env.next, env1.next, env.vars);
        lemma_good_context(env.next, env1.next, env.names);
        reveal(unify::occurs);
        assert(laws::solved_form(env1.next, env.subst)) by {
            reveal(laws::open_in);
            assert forall|x: u64| #[trigger] table::bound(env.subst, x) implies x < env1.next
                && laws::open_in(env1.next, env.subst, table::get(env.subst, x)->Some_0) by {
                assert(laws::open_in(env.next, env.subst, table::get(env.subst, x)->Some_0));
            }
        }
    }
}

/// Two types are made equal.
proof fn lemma_equated_good(env: TypeEnvM, a: TyM, b: TyM)
    requires
        good(env),
        laws::within(env.next, a),
        laws::within(env.next, b),
    ensures
        typecheck::equated(env, a, b) matches Some(env1) ==> good_step(env, env1) && env1.next
            == env.next && typecheck::seen(env1, a) == typecheck::seen(env1, b),
{
    laws::law_unify_is_most_general(env.next, env.subst, a, b, |x: u64| TyM::Int);
    laws::law_unified_are_equal(env.next, env.subst, a, b);
}

/// What is found of a type has only variables that were given out.
proof fn lemma_seen_good(env: TypeEnvM, t: TyM)
    requires
        good(env),
        laws::within(env.next, t),
    ensures
        laws::within(env.next, typecheck::seen(env, t)),
{
    laws::lemma_found_is_open(env.next, env.subst, t);
    reveal(laws::open_in);
}

proof fn lemma_plain_within(n: u64, t: TyM)
    requires
        !(t is TypeVar),
        !(t is Fun),
        !(t is Vector),
    ensures
        laws::within(n, t),
{
    reveal(unify::occurs);
}

proof fn lemma_vector_within(n: u64, v: Seq<TyM>)
    requires
        forall|i: int| 0 <= i < v.len() ==> laws::within(n, #[trigger] v[i]),
    ensures
        laws::within(n, TyM::Vector(v)),
{
    reveal(unify::occurs);
    reveal(unify::occurs_in_any);
    let t = TyM::Vector(v);
    assert forall|x: u64| #[trigger] unify::occurs(x, t) implies x < n by {
        assert(unify::occurs_in_any(x, v));
        let i = choose|i: int| 0 <= i < v.len() && unify::occurs(x, #[trigger] v[i]);
        assert(laws::within(n, v[i]));
    }
}

proof fn lemma_fun_within(n: u64, v: Seq<TyM>, r: TyM)
    requires
        laws::within(n, r),
        forall|i: int| 0 <= i < v.len() ==> laws::within(n, #[trigger] v[i]),
    ensures
        laws::within(n, TyM::Fun(v, Box::new(r))),
{
    reveal(unify::occurs);
    reveal(unify::occurs_in_any);
    let t = TyM::Fun(v, Box::new(r));
    assert forall|x: u64| #[trigger] unify::occurs(x, t) implies x < n by {
        if !unify::occurs(x, r) {
            assert(unify::occurs_in_any(x, v));
            let i = choose|i: int| 0 <= i < v.len() && unify::occurs(x, #[trigger] v[i]);
            assert(laws::within(n, v[i]));
        }
    }
}

proof fn lemma_fun_parts(n: u64, v: Seq<TyM>, r: TyM)
    requires
        laws::within(n, TyM::Fun(v, Box::new(r))),
    ensures
        laws::within(n, r),
        forall|i: int| 0 <= i < v.len() ==> laws::within(n, #[trigger] v[i]),
{
    reveal(unify::occurs);
    reveal(unify::occurs_in_any);
    let t = TyM::Fun(v, Box::new(r));
    assert forall|x: u64| #[trigger] unify::occurs(x, r) implies x < n by {
        assert(unify::occurs(x, t));
    }
    assert forall|i: int| 0 <= i < v.len() implies laws::within(n, #[trigger] v[i]) by {
        assert forall|x: u64| #[trigger] unify::occurs(x, v[i]) implies x < n by {
            assert(unify::occurs_in_any(x, v));
            assert(unify::occurs(x, t));
        }
    }
}

proof fn lemma_params_good(params: Seq<ParamM<Symbol>>, n: nat, env: TypeEnvM)
    requires
        good(env),
        n <= params.len(),
    ensures
        tc_expr::with_params(params, n, env) matches Some((tys, env1)) ==> good_step(env, env1)
            && forall|i: int| 0 <= i < tys.len() ==> laws::within(env1.next, #[trigger] tys[i]),
    decreases n,
{
    if n > 0 {
        lemma_params_good(params, (n - 1) as nat, env);
        if let Some((tys, env1)) = tc_expr::with_params(params, (n - 1) as nat, env) {
            lemma_fresh_good(env1);
            if let Some((t, env2)) = typecheck::fresh(env1) {
                lemma_put_context(env2.next, env2.vars, params[n - 1].name, t);
                let all = tys.push(t);
                assert forall|i: int| 0 <= i < all.len() implies laws::within(
                    env2.next,
                    #[trigger] all[i],
                ) by {
                    if i < tys.len() {
                        assert(laws::within(env1.next, tys[i]));
                        lemma_within_more(env1.next, env2.next, tys[i]);
                    }
                }
            }
        }
    }
}

/// An inferred type has only variables that were given out, and so has all that
/// is known then.
pub proof fn law_inference_is_sound(e: ExprM<Symbol>, env: TypeEnvM)
    requires
        good(env),
    ensures
        tc_expr::infer(e, env) matches Some((t, env1)) ==> good_step(env, env1) && laws::within(
            env1.next,
            t,
        ),
    decreases e, 0nat,
{
    reveal(tc_expr::infer);
    reveal(tc_expr::infer_all);
    reveal(tc_expr::infer_args);
    if let Some((t, z)) = tc_expr::infer(e, env) {
        match e {
            ExprM::Literal { val } => {
                lemma_plain_within(z.next, t);
            },
            ExprM::KeyVal { name, value } => {
                law_inference_is_sound(*value, env);
            },
            ExprM::Tuple { val } => {
                lemma_all_sound(val, 0, seq![], env);
                lemma_vector_within(z.next, t->Vector_0);
            },
            ExprM::Variable { name } => {
                lemma_in_context(env.next, env.vars, name);
                lemma_in_context(env.next, env.names, name);
            },
            ExprM::Unop { op, expr } => {
                law_inference_is_sound(*expr, env);
                let (a, env1) = tc_expr::infer(*expr, env)->Some_0;
                lemma_plain_within(env1.next, t);
                lemma_equated_good(env1, a, t);
            },
            ExprM::Binop { op, expr1, expr2 } => {
                law_inference_is_sound(*expr1, env);
                let (a, env1) = tc_expr::infer(*expr1, env)->Some_0;
                law_inference_is_sound(*expr2, env1);
                let (b, env2) = tc_expr::infer(*expr2, env1)->Some_0;
                lemma_within_more(env1.next, env2.next, a);
                lemma_plain_within(env2.next, t);
                match tc_expr::operand_type(op) {
                    None => {
                        lemma_equated_good(env2, a, b);
                    },
                    Some(w) => {
                        lemma_plain_within(env2.next, w);
                        lemma_equated_good(env2, a, w);
                        let env3 = typecheck::equated(env2, a, w)->Some_0;
                        lemma_equated_good(env3, b, w);
                    },
                }
            },
            ExprM::If { cond, expr1, expr2 } => {
                law_inference_is_sound(*cond, env);
                let (c, env1) = tc_expr::infer(*cond, env)->Some_0;
                lemma_plain_within(env1.next, TyM::Bool);
                lemma_equated_good(env1, c, TyM::Bool);
                let env2 = typecheck::equated(env1, c, TyM::Bool)->Some_0;
                law_inference_is_sound(*expr1, env2);
                let (a, env3) = tc_expr::infer(*expr1, env2)->Some_0;
                law_inference_is_sound(*expr2, env3);
                let (b, env4) = tc_expr::infer(*expr2, env3)->Some_0;
                lemma_within_more(env3.next, env4.next, a);
                lemma_equated_good(env4, a, b);
                lemma_seen_good(z, a);
            },
            ExprM::Func { params, body, return_ty } => {
                lemma_params_good(params, params.len(), env);
                let (tys, env1) = tc_expr::with_params(params, params.len(), env)->Some_0;
                law_inference_is_sound(*body, env1);
                let (r, env2) = tc_expr::infer(*body, env1)->Some_0;
                lemma_good_context(env.next, env2.next, env.vars);
                lemma_seen_good(env2, r);
                let seen = tc_expr::seen_all(env2, tys);
                assert forall|i: int| 0 <= i < seen.len() implies laws::within(
                    env2.next,
                    #[trigger] seen[i],
                ) by {
                    assert(laws::within(env1.next, tys[i]));
                    lemma_within_more(env1.next, env2.next, tys[i]);
                    lemma_seen_good(env2, tys[i]);
                }
                lemma_fun_within(env2.next, seen, typecheck::seen(env2, r));
            },
            ExprM::Call { func, args } => {
                law_inference_is_sound(*func, env);
                let (f, env1) = tc_expr::infer(*func, env)->Some_0;
                match f {
                    TyM::Fun(tys, r) => {
                        lemma_fun_parts(env1.next, tys, *r);
                        lemma_args_sound(args, 0, tys, env1);
                        lemma_within_more(env1.next, z.next, *r);
                        lemma_seen_good(z, *r);
                    },
                    _ => {
                        lemma_fresh_good(env1);
                        let (r, env2) = typecheck::fresh(env1)->Some_0;
                        lemma_all_sound(args, 0, seq![], env2);
                        let (tys, env3) = tc_expr::infer_all(args, 0, seq![], env2)->Some_0;
                        lemma_within_more(env2.next, env3.next, r);
                        lemma_within_more(env1.next, env3.next, f);
                        lemma_fun_within(env3.next, tys, r);
                        lemma_equated_good(env3, f, TyM::Fun(tys, Box::new(r)));
                        lemma_seen_good(z, r);
                    },
                }
            },
            ExprM::Action(stmts) => {
                lemma_plain_within(z.next, t);
            },
            ExprM::MemberAccess { .. } => {
                lemma_fresh_good(env);
            },
            ExprM::Select { table_name, column_names, where_clause } => {
                law_inference_is_sound(*where_clause, env);
                lemma_plain_within(z.next, t);
            },
            ExprM::Table { schema, records } => {
                lemma_plain_within(z.next, t);
            },
            ExprM::Fold { table_name, column_name, operation, identity } => {
                let fields = tc_expr::schema_of(env, table_name)->Some_0;
                let column = tc_expr::column_of(fields, 0, column_name)->Some_0;
                law_inference_is_sound(*operation, env);
                let (f, env1) = tc_expr::infer(*operation, env)->Some_0;
                law_inference_is_sound(*identity, env1);
                let (a, env2) = tc_expr::infer(*identity, env1)->Some_0;
                lemma_within_more(env1.next, env2.next, f);
                let tys = f->Fun_0;
                let r = *f->Fun_1;
                lemma_fun_parts(env2.next, tys, r);
                lemma_equated_good(env2, a, r);
                let env3 = typecheck::equated(env2, a, r)->Some_0;
                lemma_column_plain(fields, 0, column_name);
                lemma_plain_within(env3.next, column);
                lemma_each_sound(tys, 0, column, env3);
                lemma_seen_good(z, a);
            },
        }
    }
}

proof fn lemma_column_plain(fields: Seq<FieldM<Symbol>>, i: nat, name: Symbol)
    ensures
        tc_expr::column_of(fields, i, name) matches Some(t) ==> !(t is TypeVar) && !(t is Fun)
            && !(t is Vector),
    decreases fields.len() - i,
{
    if i < fields.len() {
        lemma_column_plain(fields, i + 1, name);
    }
}

proof fn lemma_each_sound(tys: Seq<TyM>, i: nat, t: TyM, env: TypeEnvM)
    requires
        good(env),
        laws::within(env.next, t),
        forall|k: int| 0 <= k < tys.len() ==> laws::within(env.next, #[trigger] tys[k]),
    ensures
        tc_expr::equate_each(tys, i, t, env) matches Some(env1) ==> good_step(env, env1)
            && env1.next == env.next,
    decreases tys.len() - i,
{
    if i < tys.len() {
        lemma_equated_good(env, tys[i as int], t);
        if let Some(env1) = typecheck::equated(env, tys[i as int], t) {
            lemma_each_sound(tys, i + 1, t, env1);
        }
    }
}

proof fn lemma_all_sound(v: Seq<ExprM<Symbol>>, i: nat, acc: Seq<TyM>, env: TypeEnvM)
    requires
        good(env),
        forall|k: int| 0 <= k < acc.len() ==> laws::within(env.next, #[trigger] acc[k]),
    ensures
        tc_expr::infer_all(v, i, acc, env) matches Some((tys, env1)) ==> good_step(env, env1)
            && forall|k: int| 0 <= k < tys.len() ==> laws::within(env1.next, #[trigger] tys[k]),
    decreases v, v.len() - i,
{
    reveal(tc_expr::infer_all);
    reveal(tc_expr::infer);
    if i < v.len() {
        law_inference_is_sound(v[i as int], env);
        if let Some((t, env1)) = tc_expr::infer(v[i as int], env) {
            let more = acc.push(t);
            assert forall|k: int| 0 <= k < more.len() implies laws::within(
                env1.next,
                #[trigger] more[k],
            ) by {
                if k < acc.len() {
                    assert(laws::within(env.next, acc[k]));
                    lemma_within_more(env.next, env1.next, acc[k]);
                }
            }
            lemma_all_sound(v, i + 1, more, env1);
        }
    }
}

proof fn lemma_args_sound(v: Seq<ExprM<Symbol>>, i: nat, tys: Seq<TyM>, env: TypeEnvM)
    requires
        good(env),
        tys.len() == v.len(),
        forall|k: int| 0 <= k < tys.len() ==> laws::within(env.next, #[trigger] tys[k]),
    ensures
        tc_expr::infer_args(v, i, tys, env) matches Some(env1) ==> good_step(env, env1),
    decreases v, v.len() - i,
{
    reveal(tc_expr::infer_args);
    reveal(tc_expr::infer);
    if i < v.len() {
        law_inference_is_sound(v[i as int], env);
        if let Some((t, env1)) = tc_expr::infer(v[i as int], env) {
            assert forall|k: int| 0 <= k < tys.len() implies laws::within(
                env1.next,
                #[trigger] tys[k],
            ) by {
                assert(laws::within(env.next, tys[k]));
                lemma_within_more(env.next, env1.next, tys[k]);
            }
            lemma_equated_good(env1, tys[i as int], t);
            if let Some(env2) = typecheck::equated(env1, tys[i as int], t) {
                lemma_args_sound(v, i + 1, tys, env2);
            }
        }
    }
}

/// The two branches of a conditional get the same type.
pub proof fn law_branches_agree(
    cond: ExprM<Symbol>,
    expr1: ExprM<Symbol>,
    expr2: ExprM<Symbol>,
    env: TypeEnvM,
)
    requires
        good(env),
    ensures
        ({
            let e = ExprM::If {
                cond: Box::new(cond),
                expr1: Box::new(expr1),
                expr2: Box::new(expr2),
            };
            tc_expr::infer(e, env) matches Some((t, z)) ==> exists|a: TyM, b: TyM|
                #![trigger typecheck::seen(z, a), typecheck::seen(z, b)]
                {
                    &&& t == typecheck::seen(z, a)
                    &&& t == typecheck::seen(z, b)
                    &&& exists|env1: TypeEnvM, env2: TypeEnvM|
                        #![trigger tc_expr::infer(expr1, env1), tc_expr::infer(expr2, env2)]
                        tc_expr::infer(expr1, env1) == Some((a, env2)) && (
                        tc_expr::infer(expr2, env2) matches Some((x, y)) && x == b)
                }
        }),
{
    let e = ExprM::If { cond: Box::new(cond), expr1: Box::new(expr1), expr2: Box::new(expr2) };
    reveal(tc_expr::infer);
    if let Some((t, z)) = tc_expr::infer(e, env) {
        law_inference_is_sound(cond, env);
        let (c, env1) = tc_expr::infer(cond, env)->Some_0;
        lemma_plain_within(env1.next, TyM::Bool);
        lemma_equated_good(env1, c, TyM::Bool);
        let env2 = typecheck::equated(env1, c, TyM::Bool)->Some_0;
        law_inference_is_sound(expr1, env2);
        let (a, env3) = tc_expr::infer(expr1, env2)->Some_0;
        law_inference_is_sound(expr2, env3);
        let (b, env4) = tc_expr::infer(expr2, env3)->Some_0;
        lemma_within_more(env3.next, env4.next, a);
        lemma_equated_good(env4, a, b);
        assert(t == typecheck::seen(z, a) && t == typecheck::seen(z, b));
        assert(tc_expr::infer(expr1, env2) == Some((a, env3)) && tc_expr::infer(expr2, env3)
            == Some((b, env4)));
    }
}

} // verus!
