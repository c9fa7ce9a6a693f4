//! Types and values agree: what has a type is evaluated without a type error,
//! and gives a value of that type.

use crate::runtime::ast::model::{
    ActionStmtM, BinOpM, ExprM, FieldM, TableTypeM, UnOpM, ValueM,
};
use crate::runtime::interner::Symbol;
use crate::runtime::interpreter::laws::type_error;
use crate::runtime::manager::model;
use crate::runtime::manager::model::{EnvM, World};
use crate::runtime::manager::reactive;
use crate::runtime::manager::semantics;
use crate::runtime::parser::grammar::SourceM;
use crate::runtime::parser::spelling;
use crate::runtime::semantic_analysis::typecheck;
use crate::runtime::semantic_analysis::typecheck::laws;
use crate::runtime::semantic_analysis::typecheck::sound;
use crate::runtime::semantic_analysis::typecheck::tc_expr;
use crate::runtime::semantic_analysis::typecheck::tc_stmt;
use crate::runtime::semantic_analysis::typecheck::types::TyM;
use crate::runtime::semantic_analysis::typecheck::unify;
use crate::runtime::semantic_analysis::typecheck::TypeEnvM;
use crate::runtime::table;
use crate::runtime::tt::{ParamM, TypeM};
use vstd::prelude::*;

verus! {

/// Whether a value is one of the type.
pub open spec fn belongs(v: ValueM<Symbol>, t: TyM) -> bool {
    match t {
        TyM::Int => v is Int,
        TyM::Bool => v is Bool,
        TyM::String => v is String,
        _ => false,
    }
}

/// Whether an expression is made of literals, variables, operators and
/// conditionals alone. Equality is left out: it has a type on any two operands
/// of one type, but is computed on numbers alone.
pub open spec fn plain(e: ExprM<Symbol>) -> bool
    decreases e,
{
    match e {
        ExprM::Literal { val } => true,
        ExprM::Variable { name } => true,
        ExprM::Unop { op, expr } => plain(*expr),
        ExprM::Binop { op, expr1, expr2 } => !(op is Eq) && plain(*expr1) && plain(*expr2),
        ExprM::If { cond, expr1, expr2 } => plain(*cond) && plain(*expr1) && plain(*expr2),
        _ => false,
    }
}

/// The type that a name has.
pub open spec fn named(env: TypeEnvM, x: Symbol) -> Option<TyM> {
    match table::get(env.vars, x) {
        Some(t) => Some(t),
        None => table::get(env.names, x),
    }
}

/// Whether the values of names have their types, with the types `u` for the
/// variables.
pub open spec fn well_bound(env: EnvM, known: TypeEnvM, u: spec_fn(u64) -> TyM) -> bool {
    forall|x: Symbol|
        #![trigger named(known, x)]
        named(known, x) matches Some(t) ==> {
            &&& model::env_get(env, x) is Some
            &&& belongs(model::env_get(env, x)->Some_0, unify::subst(u, t))
        }
}

/// An expression that has a type is evaluated without a type error and gives a
/// value of that type, whatever types are chosen for what is left open, if only
/// the values of the names have their types.
pub proof fn law_typed_is_evaluated(
    n: nat,
    e: ExprM<Symbol>,
    env: EnvM,
    svc: Symbol,
    w: World,
    known: TypeEnvM,
    u: spec_fn(u64) -> TyM,
)
    requires
        sound::good(known),
        plain(e),
        tc_expr::infer(e, known) matches Some((t, z)) && laws::satisfies(u, z.subst),
        well_bound(env, known, u),
    ensures
        !type_error(semantics::eval(n, e, env, svc, w).0),
        semantics::eval(n, e, env, svc, w).0 matches Ok(v) ==> belongs(
            v,
            unify::subst(u, tc_expr::infer(e, known)->Some_0.0),
        ),
        semantics::eval(n, e, env, svc, w).1 == w,
        laws::satisfies(u, known.subst),
        tc_expr::infer(e, known)->Some_0.1.vars == known.vars,
        tc_expr::infer(e, known)->Some_0.1.names == known.names,
    decreases e,
{
    reveal(tc_expr::infer);
    reveal(unify::subst);
    let (t, z) = tc_expr::infer(e, known)->Some_0;
    reactive::lemma_no_steps(e, env, svc, svc, w);
    if n > 0 {
        reactive::lemma_eval_steps(n, e, env, svc, w);
    }
    let k = (if n > 0 {
        n - 1
    } else {
        0
    }) as nat;
    sound::law_inference_is_sound(e, known);
    match e {
        ExprM::Literal { val } => {},
        ExprM::Variable { name } => {
            assert(named(known, name) == Some(t));
        },
        ExprM::Unop { op, expr } => {
            let (a, k1) = tc_expr::infer(*expr, known)->Some_0;
            sound::law_inference_is_sound(*expr, known);
            let want = tc_expr::unop_type(op);
            lemma_equated(k1, a, want, u);
            law_typed_is_evaluated(k, *expr, env, svc, w, known, u);
        },
        ExprM::Binop { op, expr1, expr2 } => {
            let (a, k1) = tc_expr::infer(*expr1, known)->Some_0;
            let (b, k2) = tc_expr::infer(*expr2, k1)->Some_0;
            sound::law_inference_is_sound(*expr1, known);
            sound::law_inference_is_sound(*expr2, k1);
            assert(laws::within(k2.next, a));
            let want = tc_expr::operand_type(op)->Some_0;
            let k3 = typecheck::equated(k2, a, want)->Some_0;
            lemma_equated_good(k2, a, want);
            lemma_equated(k3, b, want, u);
            lemma_equated(k2, a, want, u);
            lemma_names_stay(*expr1, known);
            lemma_same_names(env, known, k1, u);
            law_typed_is_evaluated(k, *expr2, env, svc, w, k1, u);
            law_typed_is_evaluated(k, *expr1, env, svc, w, known, u);
        },
        ExprM::If { cond, expr1, expr2 } => {
            let (c, k1) = tc_expr::infer(*cond, known)->Some_0;
            sound::law_inference_is_sound(*cond, known);
            let k2 = typecheck::equated(k1, c, TyM::Bool)->Some_0;
            lemma_equated_good(k1, c, TyM::Bool);
            let (a, k3) = tc_expr::infer(*expr1, k2)->Some_0;
            let (b, k4) = tc_expr::infer(*expr2, k3)->Some_0;
            sound::law_inference_is_sound(*expr1, k2);
            sound::law_inference_is_sound(*expr2, k3);
            assert(laws::within(k4.next, a));
            lemma_pair(k4, a, b, u);
            assert(t == typecheck::seen(z, a));
            laws::lemma_through_found(u, z.subst, a);
            lemma_names_stay(*expr1, k2);
            lemma_names_stay(*cond, known);
            assert(well_bound(env, k3, u)) by {
                lemma_same_names(env, known, k3, u);
            }
            law_typed_is_evaluated(k, *expr2, env, svc, w, k3, u);
            assert(well_bound(env, k2, u)) by {
                lemma_same_names(env, known, k2, u);
            }
            law_typed_is_evaluated(k, *expr1, env, svc, w, k2, u);
            lemma_equated(k1, c, TyM::Bool, u);
            law_typed_is_evaluated(k, *cond, env, svc, w, known, u);
        },
        _ => {},
    }
}

proof fn lemma_same_names(env: EnvM, a: TypeEnvM, b: TypeEnvM, u: spec_fn(u64) -> TyM)
    requires
        well_bound(env, a, u),
        b.vars == a.vars,
        b.names == a.names,
    ensures
        well_bound(env, b, u),
{
    assert forall|x: Symbol| #![trigger named(b, x)] named(b, x) is Some implies model::env_get(
        env,
        x,
    ) is Some && belongs(
        model::env_get(env, x)->Some_0,
        unify::subst(u, named(b, x)->Some_0),
    ) by {
        assert(named(a, x) == named(b, x));
    }
}

/// Inferring the type of a plain expression declares nothing.
proof fn lemma_names_stay(e: ExprM<Symbol>, known: TypeEnvM)
    requires
        plain(e),
        tc_expr::infer(e, known) is Some,
    ensures
        tc_expr::infer(e, known)->Some_0.1.vars == known.vars,
        tc_expr::infer(e, known)->Some_0.1.names == known.names,
    decreases e,
{
    reveal(tc_expr::infer);
    match e {
        ExprM::Unop { op, expr } => {
            lemma_names_stay(*expr, known);
        },
        ExprM::Binop { op, expr1, expr2 } => {
            lemma_names_stay(*expr1, known);
            lemma_names_stay(*expr2, tc_expr::infer(*expr1, known)->Some_0.1);
        },
        ExprM::If { cond, expr1, expr2 } => {
            lemma_names_stay(*cond, known);
            let (c, k1) = tc_expr::infer(*cond, known)->Some_0;
            let k2 = typecheck::equated(k1, c, TyM::Bool)->Some_0;
            lemma_names_stay(*expr1, k2);
            lemma_names_stay(*expr2, tc_expr::infer(*expr1, k2)->Some_0.1);
        },
        _ => {},
    }
}

proof fn lemma_equated_good(known: TypeEnvM, a: TyM, t: TyM)
    requires
        sound::good(known),
        laws::within(known.next, a),
        t is Int || t is Bool || t is String,
        typecheck::equated(known, a, t) is Some,
    ensures
        sound::good(typecheck::equated(known, a, t)->Some_0),
{
    reveal(unify::occurs);
    laws::law_unify_is_most_general(known.next, known.subst, a, t, |x: u64| TyM::Int);
}

/// A choice of types that agrees with what is known once a type is one of those
/// of values agrees with what was known before, and makes it that type.
proof fn lemma_equated(known: TypeEnvM, a: TyM, t: TyM, u: spec_fn(u64) -> TyM)
    requires
        sound::good(known),
        laws::within(known.next, a),
        t is Int || t is Bool || t is String,
        typecheck::equated(known, a, t) matches Some(z) && laws::satisfies(u, z.subst),
    ensures
        laws::satisfies(u, known.subst),
        unify::subst(u, a) == t,
{
    reveal(unify::occurs);
    reveal(unify::subst);
    laws::law_unify_is_most_general(known.next, known.subst, a, t, u);
}

proof fn lemma_pair(known: TypeEnvM, a: TyM, b: TyM, u: spec_fn(u64) -> TyM)
    requires
        sound::good(known),
        laws::within(known.next, a),
        laws::within(known.next, b),
        typecheck::equated(known, a, b) matches Some(z) && laws::satisfies(u, z.subst),
    ensures
        laws::satisfies(u, known.subst),
        unify::subst(u, a) == unify::subst(u, b),
{
    laws::law_unify_is_most_general(known.next, known.subst, a, b, u);
}

/// An assertion that is checked asserts a truth value: executing it is no type
/// error.
pub proof fn law_checked_assertion(
    n: nat,
    e: ExprM<Symbol>,
    written: Seq<char>,
    env: EnvM,
    svc: Symbol,
    w: World,
    known: TypeEnvM,
    u: spec_fn(u64) -> TyM,
)
    requires
        sound::good(known),
        plain(e),
        tc_stmt::checked_command(ActionStmtM::Assert(e, written), known) matches Some(z)
            && laws::satisfies(u, z.subst),
        well_bound(env, known, u),
    ensures
        semantics::execute(n, ActionStmtM::Assert(e, written), env, svc, w).0 matches Err(x)
            ==> !(x is TypeError),
{
    reveal(semantics::execute);
    reveal(semantics::execute_step);
    let (t, z) = tc_expr::infer(e, known)->Some_0;
    sound::law_inference_is_sound(e, known);
    lemma_equated(z, t, TyM::Bool, u);
    if n > 0 {
        law_typed_is_evaluated((n - 1) as nat, e, env, svc, w, known, u);
    }
}

/// Two types of values can be made equal where they are the same, and nothing
/// more is known then.
proof fn lemma_ground(known: TypeEnvM, a: TyM, b: TyM)
    requires
        a is Int || a is Bool || a is String || a is Action,
        b is Int || b is Bool || b is String || b is Action,
    ensures
        typecheck::equated(known, a, b) == (if a == b {
            Some(known)
        } else {
            None
        }),
        typecheck::seen(known, a) == a,
{
    reveal(unify::subst);
    let eqs = seq![(unify::found(known.subst, a), unify::found(known.subst, b))];
    assert(eqs.last() == (a, b));
    assert(eqs.drop_last() =~= seq![]);
    assert(unify::solve(known.next, known.subst, Seq::<(TyM, TyM)>::empty()) == Some(known.subst));
}

/// An operator on literals has a type just where the operation on them is no
/// type error, and that is the type of what the operation gives.
pub proof fn law_operators_have_types(
    op: BinOpM,
    a: ValueM<Symbol>,
    b: ValueM<Symbol>,
    known: TypeEnvM,
)
    requires
        a is Int || a is Bool || a is String,
        b is Int || b is Bool || b is String,
        !(op is Eq),
    ensures
        ({
            let e = ExprM::Binop {
                op,
                expr1: Box::new(ExprM::Literal { val: a }),
                expr2: Box::new(ExprM::Literal { val: b }),
            };
            &&& tc_expr::infer(e, known) is Some <==> !type_error(model::binop(op, a, b))
            &&& tc_expr::infer(e, known) matches Some((t, z)) ==> z == known && (model::binop(
                op,
                a,
                b,
            ) matches Ok(v) ==> belongs(v, t))
        }),
{
    lemma_literals(a, b, known);
    reveal(tc_expr::infer);
}

/// Equality has a type on two literals of the same type, and gives a truth
/// value where it is computed.
pub proof fn law_equality_has_a_type(a: ValueM<Symbol>, b: ValueM<Symbol>, known: TypeEnvM)
    requires
        a is Int || a is Bool || a is String,
        b is Int || b is Bool || b is String,
    ensures
        ({
            let e = ExprM::Binop {
                op: BinOpM::Eq,
                expr1: Box::new(ExprM::Literal { val: a }),
                expr2: Box::new(ExprM::Literal { val: b }),
            };
            &&& tc_expr::infer(e, known) is Some <==> (a is Int) == (b is Int) && (a is Bool) == (
            b is Bool)
            &&& tc_expr::infer(e, known) matches Some((t, z)) ==> z == known && t == TyM::Bool
            &&& model::binop(BinOpM::Eq, a, b) matches Ok(v) ==> belongs(v, TyM::Bool)
        }),
{
    lemma_literals(a, b, known);
    reveal(tc_expr::infer);
}

/// A unary operator on a literal has a type just where the operation is no type
/// error, and that is the type of what it gives.
pub proof fn law_negations_have_types(op: UnOpM, a: ValueM<Symbol>, known: TypeEnvM)
    requires
        a is Int || a is Bool || a is String,
    ensures
        ({
            let e = ExprM::Unop { op, expr: Box::new(ExprM::Literal { val: a }) };
            &&& tc_expr::infer(e, known) is Some <==> !type_error(model::unop(op, a))
            &&& tc_expr::infer(e, known) matches Some((t, z)) ==> z == known && (model::unop(
                op,
                a,
            ) matches Ok(v) ==> belongs(v, t))
        }),
{
    lemma_literals(a, a, known);
    reveal(tc_expr::infer);
}

/// A conditional on literals has a type where its condition is a truth value and
/// its branches are of one type, which is its own.
pub proof fn law_conditionals_have_types(
    c: ValueM<Symbol>,
    a: ValueM<Symbol>,
    b: ValueM<Symbol>,
    known: TypeEnvM,
)
    requires
        c is Int || c is Bool || c is String,
        a is Int || a is Bool || a is String,
        b is Int || b is Bool || b is String,
    ensures
        ({
            let e = ExprM::If {
                cond: Box::new(ExprM::Literal { val: c }),
                expr1: Box::new(ExprM::Literal { val: a }),
                expr2: Box::new(ExprM::Literal { val: b }),
            };
            &&& tc_expr::infer(e, known) is Some <==> c is Bool && (a is Int) == (b is Int) && (
            a is Bool) == (b is Bool)
            &&& tc_expr::infer(e, known) matches Some((t, z)) ==> z == known && belongs(a, t)
                && belongs(b, t)
        }),
{
    lemma_literals(a, b, known);
    lemma_literals(c, c, known);
    reveal(tc_expr::infer);
}

/// The type of a literal is that of its value.
pub proof fn law_literals_have_types(v: ValueM<Symbol>, known: TypeEnvM)
    ensures
        tc_expr::infer(ExprM::Literal { val: v }, known) matches Some((t, z)) ==> z == known
            && belongs(v, t),
        tc_expr::infer(ExprM::Literal { val: v }, known) is Some <==> v is Int || v is Bool
            || v is String,
{
    reveal(tc_expr::infer);
}

proof fn lemma_literals(a: ValueM<Symbol>, b: ValueM<Symbol>, known: TypeEnvM)
    requires
        a is Int || a is Bool || a is String,
        b is Int || b is Bool || b is String,
    ensures
        tc_expr::infer(ExprM::Literal { val: a }, known) == Some(
            (tc_expr::literal_type(a)->Some_0, known),
        ),
        tc_expr::infer(ExprM::Literal { val: b }, known) == Some(
            (tc_expr::literal_type(b)->Some_0, known),
        ),
        forall|x: TyM, y: TyM|
            (x is Int || x is Bool || x is String) && (y is Int || y is Bool || y is String)
                ==> #[trigger] typecheck::equated(known, x, y) == (if x == y {
                Some(known)
            } else {
                None
            }),
        forall|x: TyM|
            x is Int || x is Bool || x is String ==> #[trigger] typecheck::seen(known, x) == x,
{
    reveal(tc_expr::infer);
    assert forall|x: TyM, y: TyM|
        (x is Int || x is Bool || x is String) && (y is Int || y is Bool
            || y is String) implies #[trigger] typecheck::equated(known, x, y) == (if x == y {
        Some(known)
    } else {
        None
    }) by {
        lemma_ground(known, x, y);
    }
    assert forall|x: TyM| x is Int || x is Bool || x is String implies #[trigger] typecheck::seen(
        known,
        x,
    ) == x by {
        lemma_ground(known, x, x);
    }
}

/// Whether a type is one of numbers, truth values or strings.
pub open spec fn simple(t: TyM) -> bool {
    t is Int || t is Bool || t is String
}

/// A function that takes numbers, truth values and strings can be called with
/// literals where there are as many of them as it takes, and each is of the type
/// that is expected in its place. The call has the type that the function gives.
pub proof fn law_calls_have_types(
    f: Symbol,
    tys: Seq<TyM>,
    r: TyM,
    args: Seq<ExprM<Symbol>>,
    known: TypeEnvM,
)
    requires
        named(known, f) == Some(TyM::Fun(tys, Box::new(r))),
        simple(r),
        forall|i: int| 0 <= i < tys.len() ==> simple(#[trigger] tys[i]),
        forall|i: int|
            0 <= i < args.len() ==> (#[trigger] args[i] matches ExprM::Literal { val } && (
            val is Int || val is Bool || val is String)),
    ensures
        ({
            let call = ExprM::Call {
                func: Box::new(ExprM::Variable { name: f }),
                args,
            };
            &&& tc_expr::infer(call, known) is Some <==> args.len() == tys.len() && forall|i: int|
                0 <= i < args.len() ==> belongs((#[trigger] args[i])->Literal_val, tys[i])
            &&& tc_expr::infer(call, known) matches Some((t, z)) ==> t == r && z == known
        }),
{
    let call = ExprM::Call { func: Box::new(ExprM::Variable { name: f }), args };
    let v = ExprM::Variable { name: f };
    assert(tc_expr::infer(v, known) == Some((TyM::Fun(tys, Box::new(r)), known))) by {
        reveal(tc_expr::infer);
    }
    if args.len() == tys.len() {
        lemma_args_typed(args, 0, tys, known);
    }
    lemma_literals(ValueM::Bool { val: true }, ValueM::Bool { val: true }, known);
    reveal(tc_expr::infer);
    reveal(tc_expr::infer_args);
    reveal(tc_expr::infer_all);
}

proof fn lemma_args_typed(args: Seq<ExprM<Symbol>>, i: nat, tys: Seq<TyM>, known: TypeEnvM)
    requires
        i <= args.len() == tys.len(),
        forall|i: int| 0 <= i < tys.len() ==> simple(#[trigger] tys[i]),
        forall|i: int|
            0 <= i < args.len() ==> (#[trigger] args[i] matches ExprM::Literal { val } && (
            val is Int || val is Bool || val is String)),
    ensures
        tc_expr::infer_args(args, i, tys, known) is Some <==> forall|j: int|
            i <= j < args.len() ==> belongs((#[trigger] args[j])->Literal_val, tys[j]),
        tc_expr::infer_args(args, i, tys, known) matches Some(z) ==> z == known,
    decreases args.len() - i,
{
    reveal(tc_expr::infer_args);
    reveal(tc_expr::infer);
    if i < args.len() {
        let v = args[i as int]->Literal_val;
        assert(args[i as int] == ExprM::Literal { val: v });
        lemma_literals(v, v, known);
        lemma_args_typed(args, i + 1, tys, known);
        assert(simple(tys[i as int]));
        let t = tc_expr::literal_type(v)->Some_0;
        assert(belongs(v, tys[i as int]) <==> tys[i as int] == t);
        assert(tc_expr::infer(args[i as int], known) == Some((t, known)));
        assert(typecheck::equated(known, tys[i as int], t) == (if tys[i as int] == t {
            Some(known)
        } else {
            None
        }));
    }
}

/// An assertion of a literal is checked where it is a truth value. No literal can
/// be done, but what is written as an action can.
pub proof fn law_commands_take_types(
    v: ValueM<Symbol>,
    written: Seq<char>,
    stmts: Seq<ActionStmtM<Symbol>>,
    known: TypeEnvM,
)
    requires
        v is Int || v is Bool || v is String,
    ensures
        tc_stmt::checked_command(
            ActionStmtM::Assert(ExprM::Literal { val: v }, written),
            known,
        ) is Some <==> v is Bool,
        tc_stmt::checked_command(
            ActionStmtM::Do(ExprM::Literal { val: v }),
            known,
        ) is None,
        tc_stmt::checked_command(ActionStmtM::Do(ExprM::Action(stmts)), known) is Some,
{
    lemma_literals(v, v, known);
    let t = tc_expr::literal_type(v)->Some_0;
    lemma_ground(known, t, TyM::Action);
    lemma_ground(known, TyM::Action, TyM::Action);
    reveal(tc_expr::infer);
}

/// A column has the type that stands in its declaration.
pub proof fn law_columns_have_types(src: SourceM, i: nat, column: TableTypeM)
    requires
        spelling::spells_column_type(src, i, column),
    ensures
        match tc_expr::column_type(column) {
            TyM::Int => spelling::spells_type(src, i, TypeM::Int),
            TyM::Bool => spelling::spells_type(src, i, TypeM::Bool),
            TyM::String => spelling::spells_type(src, i, TypeM::String),
            _ => false,
        },
{
}

/// Whether a table has a column of that name.
pub open spec fn has_column(fields: Seq<FieldM<Symbol>>, name: Symbol) -> bool {
    exists|i: int| 0 <= i < fields.len() && (#[trigger] fields[i]).name == name
}

proof fn lemma_column(fields: Seq<FieldM<Symbol>>, i: nat, name: Symbol)
    requires
        i <= fields.len(),
    ensures
        tc_expr::column_of(fields, i, name) is Some <==> exists|j: int|
            i <= j < fields.len() && (#[trigger] fields[j]).name == name,
    decreases fields.len() - i,
{
    if i < fields.len() {
        lemma_column(fields, i + 1, name);
        if fields[i as int].name == name {
            assert(fields[i as int].name == name);
        }
    }
}

/// Columns of a table are selected by a condition, which is checked where the
/// table has all the columns and the condition is a truth value. What is selected
/// is a table.
pub proof fn law_selections_have_types(
    name: Symbol,
    columns: Seq<Symbol>,
    v: ValueM<Symbol>,
    fields: Seq<FieldM<Symbol>>,
    known: TypeEnvM,
)
    requires
        table::get(known.vars, name) == Some(TyM::Table(fields)),
        v is Int || v is Bool || v is String,
    ensures
        ({
            let e = ExprM::Select {
                table_name: name,
                column_names: columns,
                where_clause: Box::new(ExprM::Literal { val: v }),
            };
            &&& tc_expr::infer(e, known) is Some <==> v is Bool && forall|i: int|
                0 <= i < columns.len() ==> has_column(fields, #[trigger] columns[i])
            &&& tc_expr::infer(e, known) matches Some((t, z)) ==> t == TyM::Table(fields) && z
                == known
        }),
{
    let c = ExprM::Literal { val: v };
    assert forall|i: int| 0 <= i < columns.len() implies (tc_expr::column_of(
        fields,
        0,
        #[trigger] columns[i],
    ) is Some <==> has_column(fields, columns[i])) by {
        lemma_column(fields, 0, columns[i]);
    }
    if forall|i: int| 0 <= i < columns.len() ==> has_column(fields, #[trigger] columns[i]) {
        assert(tc_expr::columns_there(fields, columns));
    } else {
        let i = choose|i: int|
            0 <= i < columns.len() && !has_column(fields, #[trigger] columns[i]);
        assert(!tc_expr::columns_there(fields, columns));
    }
    lemma_literals(v, v, known);
    assert(tc_expr::infer(c, known) == Some((tc_expr::literal_type(v)->Some_0, known)));
    reveal(tc_expr::infer);
}

proof fn lemma_params(params: Seq<ParamM<Symbol>>, n: nat, known: TypeEnvM)
    requires
        n <= params.len(),
        tc_expr::params_differ(params),
        tc_expr::with_params(params, n, known) is Some,
    ensures
        ({
            let (tys, z) = tc_expr::with_params(params, n, known)->Some_0;
            &&& tys.len() == n
            &&& forall|j: int|
                0 <= j < n ==> table::get(z.vars, (#[trigger] params[j]).name) == Some(tys[j])
        }),
    decreases n,
{
    if n > 0 {
        lemma_params(params, (n - 1) as nat, known);
        let (tys, z) = tc_expr::with_params(params, n, known)->Some_0;
        let (before, y) = tc_expr::with_params(params, (n - 1) as nat, known)->Some_0;
        let (t, x) = typecheck::fresh(y)->Some_0;
        assert(x.vars == y.vars);
        assert forall|j: int| 0 <= j < n implies table::get(
            z.vars,
            (#[trigger] params[j]).name,
        ) == Some(tys[j]) by {
            table::lemma_put(x.vars, params[n - 1].name, t, params[j].name);
            if j < n - 1 {
                assert(params[j].name != params[n - 1].name);
            }
        }
    }
}

/// A function takes as many arguments as it has parameters, and what its
/// parameters are called counts in its body alone. A function that gives one of
/// its arguments gives what that argument is.
pub proof fn law_functions_have_types(
    params: Seq<ParamM<Symbol>>,
    body: ExprM<Symbol>,
    return_ty: Option<TypeM>,
    known: TypeEnvM,
)
    ensures
        ({
            let e = ExprM::Func { params, body: Box::new(body), return_ty };
            tc_expr::infer(e, known) matches Some((t, z)) ==> {
                &&& tc_expr::params_differ(params)
                &&& t is Fun
                &&& t->Fun_0.len() == params.len()
                &&& z.vars == known.vars
                &&& forall|j: int|
                    0 <= j < params.len() && body == (ExprM::Variable {
                        name: (#[trigger] params[j]).name,
                    }) ==> *t->Fun_1 == t->Fun_0[j]
            }
        }),
{
    reveal(tc_expr::infer);
    let e = ExprM::Func { params, body: Box::new(body), return_ty };
    if tc_expr::infer(e, known) is Some {
        lemma_params(params, params.len(), known);
        let (tys, y) = tc_expr::with_params(params, params.len(), known)->Some_0;
        assert forall|j: int|
            0 <= j < params.len() && body == (ExprM::Variable {
                name: (#[trigger] params[j]).name,
            }) implies tc_expr::infer(body, y) == Some((tys[j], y)) by {}
    }
}

proof fn lemma_each(tys: Seq<TyM>, i: nat, c: TyM, known: TypeEnvM)
    requires
        i <= tys.len(),
        simple(c),
        forall|j: int| 0 <= j < tys.len() ==> simple(#[trigger] tys[j]),
    ensures
        tc_expr::equate_each(tys, i, c, known) is Some <==> forall|j: int|
            i <= j < tys.len() ==> #[trigger] tys[j] == c,
        tc_expr::equate_each(tys, i, c, known) matches Some(z) ==> z == known,
    decreases tys.len() - i,
{
    if i < tys.len() {
        assert(simple(tys[i as int]));
        lemma_ground(known, tys[i as int], c);
        lemma_each(tys, i + 1, c, known);
        if tys[i as int] != c {
            assert(tys[i as int] != c);
        }
    }
}

/// A column is folded with a function that takes entries of the column and gives
/// what the folding starts from; that is what the folding gives.
pub proof fn law_folds_have_types(
    name: Symbol,
    fields: Seq<FieldM<Symbol>>,
    i: int,
    f: Symbol,
    tys: Seq<TyM>,
    r: TyM,
    v: ValueM<Symbol>,
    known: TypeEnvM,
)
    requires
        table::get(known.vars, name) == Some(TyM::Table(fields)),
        0 <= i < fields.len(),
        tc_stmt::fields_differ(fields),
        named(known, f) == Some(TyM::Fun(tys, Box::new(r))),
        simple(r),
        forall|j: int| 0 <= j < tys.len() ==> simple(#[trigger] tys[j]),
        v is Int || v is Bool || v is String,
    ensures
        ({
            let e = ExprM::Fold {
                table_name: name,
                column_name: fields[i].name,
                operation: Box::new(ExprM::Variable { name: f }),
                identity: Box::new(ExprM::Literal { val: v }),
            };
            &&& tc_expr::infer(e, known) is Some <==> belongs(v, r) && forall|j: int|
                0 <= j < tys.len() ==> #[trigger] tys[j] == tc_expr::column_type(fields[i].ty)
            &&& tc_expr::infer(e, known) matches Some((t, z)) ==> t == r && z == known
        }),
{
    let c = tc_expr::column_type(fields[i].ty);
    let x = ExprM::Variable { name: f };
    let y = ExprM::Literal { val: v };
    assert(tc_expr::infer(x, known) == Some((TyM::Fun(tys, Box::new(r)), known))) by {
        reveal(tc_expr::infer);
    }
    lemma_literals(v, v, known);
    lemma_first_column(fields, 0, i);
    lemma_each(tys, 0, c, known);
    lemma_ground(known, tc_expr::literal_type(v)->Some_0, r);
    assert(tc_expr::infer(y, known) == Some((tc_expr::literal_type(v)->Some_0, known)));
    assert(belongs(v, r) <==> tc_expr::literal_type(v)->Some_0 == r);
    reveal(tc_expr::infer);
}

proof fn lemma_first_column(fields: Seq<FieldM<Symbol>>, j: nat, i: int)
    requires
        j <= i < fields.len(),
        tc_stmt::fields_differ(fields),
    ensures
        tc_expr::column_of(fields, j, fields[i].name) == Some(tc_expr::column_type(fields[i].ty)),
    decreases i - j,
{
    if j < i {
        assert(fields[j as int].name != fields[i].name);
        lemma_first_column(fields, j + 1, i);
    }
}

} // verus!
