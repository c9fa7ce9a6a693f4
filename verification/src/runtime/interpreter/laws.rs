//! Laws of operators and of evaluating them.

use crate::runtime::ast::model::{ActionStmtM, BinOpM, ExprM, UnOpM, ValueM};
use crate::runtime::interner::Symbol;
use crate::runtime::interpreter::evaluator;
use crate::runtime::interpreter::evaluator::ErrM;
use crate::runtime::manager::calls;
use crate::runtime::manager::laws as manager_laws;
use crate::runtime::manager::model;
use crate::runtime::manager::model::{EnvM, ManagerM, ServiceM, World};
use crate::runtime::manager::reactive;
use crate::runtime::manager::semantics;
use crate::runtime::manager::semantics::EffectM;
use crate::runtime::semantic_analysis::var_analysis::read_write;
use crate::runtime::table;
use crate::runtime::tt::{ParamM, TypeM};
use crate::runtime::txn::VarStateM;
use vstd::prelude::*;

verus! {

/// A number as a value.
pub open spec fn number(x: i32) -> ValueM<Symbol> {
    ValueM::Int { val: x }
}

/// A truth value as a value.
pub open spec fn truth(b: bool) -> ValueM<Symbol> {
    ValueM::Bool { val: b }
}

/// The number that an operation on numbers gives.
pub open spec fn computed(op: BinOpM, x: i32, y: i32) -> Option<int> {
    match model::binop(op, number(x), number(y)) {
        Ok(ValueM::Int { val }) => Some(val as int),
        _ => None,
    }
}

/// The truth value that an operation gives.
pub open spec fn holds(op: BinOpM, a: ValueM<Symbol>, b: ValueM<Symbol>) -> Option<bool> {
    match model::binop(op, a, b) {
        Ok(ValueM::Bool { val }) => Some(val),
        _ => None,
    }
}

/// Whether two integers are the same but for multiples of the number of values
/// that a number can have.
pub open spec fn congruent(x: int, y: int) -> bool {
    exists|k: int| x == #[trigger] wrapped(y, k)
}

/// An integer and `k` times the number of values that a number can have.
pub open spec fn wrapped(y: int, k: int) -> int {
    y + k * 0x1_0000_0000
}

/// Whether an integer is a number of the language.
pub open spec fn fits(x: int) -> bool {
    i32::MIN <= x <= i32::MAX
}

/// Numbers are added, subtracted and multiplied as integers are, and what does
/// not fit wraps around.
pub proof fn law_sums_and_products(x: i32, y: i32)
    ensures
        computed(BinOpM::Add, x, y) matches Some(s) && fits(s) && congruent(s, x + y) && (fits(
            x + y,
        ) ==> s == x + y),
        computed(BinOpM::Sub, x, y) matches Some(s) && fits(s) && congruent(s, x - y) && (fits(
            x - y,
        ) ==> s == x - y),
        computed(BinOpM::Mul, x, y) matches Some(s) && fits(s) && congruent(s, x * y) && (fits(
            x * y,
        ) ==> s == x * y),
{
    let s = x.wrapping_add(y) as int;
    assert(s == wrapped(x + y, 0) || s == wrapped(x + y, 1) || s == wrapped(x + y, -1));
    let d = x.wrapping_sub(y) as int;
    assert(d == wrapped(x - y, 0) || d == wrapped(x - y, 1) || d == wrapped(x - y, -1));
    lemma_crop(x * y);
    let p = x.wrapping_mul(y) as int;
    let k = choose|k: int| p == #[trigger] wrapped(x * y, k);
    if fits(x * y) {
        assert(k == 0);
    }
}

/// A product is cut down to what fits.
proof fn lemma_crop(p: int)
    ensures
        congruent(vstd::wrapping::i32_specs::signed_crop(p) as int, p),
{
    let m = p % 0x1_0000_0000;
    let q = p / 0x1_0000_0000;
    assert(p == 0x1_0000_0000 * q + m);
    let c = vstd::wrapping::i32_specs::signed_crop(p) as int;
    assert(c == wrapped(p, -q) || c == wrapped(p, -q - 1));
}

/// What is added can be subtracted again, and the other way round.
pub proof fn law_subtracting_undoes_adding(x: i32, y: i32)
    ensures
        model::binop(BinOpM::Add, number(x), number(y)) matches Ok(s) && model::binop(
            BinOpM::Sub,
            s,
            number(y),
        ) == Ok::<ValueM<Symbol>, ErrM>(number(x)),
        model::binop(BinOpM::Sub, number(x), number(y)) matches Ok(s) && model::binop(
            BinOpM::Add,
            s,
            number(y),
        ) == Ok::<ValueM<Symbol>, ErrM>(number(x)),
{
}

/// A quotient is rounded toward zero: what is left over is smaller than the
/// divisor and has the sign of the dividend. There is no quotient by zero, nor
/// where it does not fit.
pub proof fn law_quotients(x: i32, y: i32)
    ensures
        match model::binop(BinOpM::Div, number(x), number(y)) {
            Ok(ValueM::Int { val: q }) => {
                let left = x - y * q;
                &&& y != 0
                &&& -left < (if y < 0 {
                    -y
                } else {
                    y as int
                })
                &&& left < (if y < 0 {
                    -y
                } else {
                    y as int
                })
                &&& x >= 0 ==> left >= 0
                &&& x <= 0 ==> left <= 0
            },
            Ok(_) => false,
            Err(e) => e is RuntimeError && (y == 0 || (x == i32::MIN && y == -1)) && e
                == ErrM::RuntimeError(
                if y == 0 {
                    "Division by zero"@
                } else {
                    "Integer overflow"@
                },
            ),
        },
{
    if y != 0 {
        let a = if x < 0 {
            -x
        } else {
            x as int
        };
        let b = if y < 0 {
            -y
        } else {
            y as int
        };
        let q = a / b;
        vstd::arithmetic::div_mod::lemma_fundamental_div_mod(a, b);
        vstd::arithmetic::div_mod::lemma_mod_bound(a, b);
        assert(0 <= q <= a) by (nonlinear_arith)
            requires
                a == b * q + a % b,
                0 <= a % b < b,
                a >= 0,
        ;
        assert(b >= 2 ==> 2 * q <= a) by (nonlinear_arith)
            requires
                a == b * q + a % b,
                0 <= a % b < b,
                q >= 0,
        ;
        assert(b * q == a - a % b);
        let z = if (x < 0) == (y < 0) {
            q
        } else {
            -q
        };
        assert(y * z == (if x < 0 {
            -(b * q)
        } else {
            b * q
        })) by (nonlinear_arith)
            requires
                b == (if y < 0 {
                    -y
                } else {
                    y as int
                }),
                z == (if (x < 0) == (y < 0) {
                    q
                } else {
                    -q
                }),
        ;
        if !(x == i32::MIN && y == -1) {
            assert(fits(z)) by {
                if b == 1 {
                    assert(q == a) by (nonlinear_arith)
                        requires
                            a == b * q + a % b,
                            0 <= a % b < b,
                            b == 1,
                    ;
                }
            }
        }
    }
}

/// The order of numbers: one is smaller than another where the difference is
/// positive. Exactly one of smaller, equal and greater holds, and what is
/// smaller than another is what the other is greater than.
pub proof fn law_order(x: i32, y: i32)
    ensures
        holds(BinOpM::Lt, number(x), number(y)) == Some(y - x > 0),
        holds(BinOpM::Gt, number(x), number(y)) == Some(x - y > 0),
        holds(BinOpM::Eq, number(x), number(y)) == Some(x - y == 0),
        holds(BinOpM::Lt, number(x), number(y)) == holds(BinOpM::Gt, number(y), number(x)),
        x < i32::MAX ==> holds(BinOpM::Lt, number(x), number((x + 1) as i32)) == Some(true),
{
}

/// Smaller than smaller is smaller, and adding the same to both sides leaves the
/// order as it is where the sums fit.
pub proof fn law_order_is_kept(x: i32, y: i32, z: i32)
    requires
        holds(BinOpM::Lt, number(x), number(y)) == Some(true),
    ensures
        holds(BinOpM::Lt, number(y), number(z)) == Some(true) ==> holds(
            BinOpM::Lt,
            number(x),
            number(z),
        ) == Some(true),
        fits(x + z) && fits(y + z) ==> holds(
            BinOpM::Lt,
            number((x + z) as i32),
            number((y + z) as i32),
        ) == Some(true),
{
}

/// Two truth values: both hold, or one of them does.
pub proof fn law_connectives(a: bool, b: bool)
    ensures
        holds(BinOpM::And, truth(a), truth(b)) == Some(true) <==> a && b,
        holds(BinOpM::And, truth(a), truth(b)) == Some(false) <==> !a || !b,
        holds(BinOpM::Or, truth(a), truth(b)) == Some(true) <==> a || b,
        holds(BinOpM::Or, truth(a), truth(b)) == Some(false) <==> !a && !b,
{
}

/// Negating twice gives back what was there, and a number and its negation add
/// up to nothing. A truth value is never its own negation.
pub proof fn law_negations(x: i32, b: bool)
    ensures
        model::unop(UnOpM::Neg, number(x)) matches Ok(n) && model::binop(
            BinOpM::Add,
            number(x),
            n,
        ) == Ok::<ValueM<Symbol>, ErrM>(number(0)) && model::unop(UnOpM::Neg, n) == Ok::<
            ValueM<Symbol>,
            ErrM,
        >(number(x)),
        model::unop(UnOpM::Not, truth(b)) == Ok::<ValueM<Symbol>, ErrM>(truth(!b)),
{
}

/// Whether an outcome is a type error.
pub open spec fn type_error(r: Result<ValueM<Symbol>, ErrM>) -> bool {
    r is Err && r->Err_0 is TypeError
}

/// An operator works on two numbers or on two truth values, and never on both;
/// on all else it is a type error.
pub proof fn law_operators_are_typed(op: BinOpM, a: ValueM<Symbol>, b: ValueM<Symbol>)
    ensures
        match op {
            BinOpM::And => type_error(model::binop(op, a, b)) <==> !(
            a is Bool && b is Bool),
            BinOpM::Or => type_error(model::binop(op, a, b)) <==> !(
            a is Bool && b is Bool),
            _ => type_error(model::binop(op, a, b)) <==> !(a is Int
                && b is Int),
        },
        type_error(model::unop(UnOpM::Neg, a)) <==> !(a is Int),
        type_error(model::unop(UnOpM::Not, a)) <==> !(a is Bool),
{
}

/// The operands of an operator are evaluated from left to right, and what it
/// gives is the operation on their values, in that order. An operand that fails
/// ends it.
pub proof fn law_operands_in_order(
    n: nat,
    op: BinOpM,
    e1: ExprM<Symbol>,
    e2: ExprM<Symbol>,
    env: EnvM,
    svc: Symbol,
    w: World,
)
    ensures
        ({
            let e = ExprM::Binop { op, expr1: Box::new(e1), expr2: Box::new(e2) };
            let (r1, w1) = semantics::eval(n, e1, env, svc, w);
            let (r2, w2) = semantics::eval(n, e2, env, svc, w1);
            let (r, z) = semantics::eval(n + 1, e, env, svc, w);
            &&& r1 is Err ==> r == r1 && z == w1
            &&& r1 is Ok && r2 is Err ==> r == r2 && z == w2
            &&& r1 is Ok && r2 is Ok ==> r == model::binop(op, r1->Ok_0, r2->Ok_0) && z == w2
        }),
{
    let e = ExprM::Binop { op, expr1: Box::new(e1), expr2: Box::new(e2) };
    reactive::lemma_eval_steps(n + 1, e, env, svc, w);
}

/// Literals have the values that are written: evaluating an operation on them is
/// the operation.
pub proof fn law_literals_are_operated_on(
    n: nat,
    op: BinOpM,
    uop: UnOpM,
    a: ValueM<Symbol>,
    b: ValueM<Symbol>,
    env: EnvM,
    svc: Symbol,
    w: World,
)
    requires
        n >= 2,
    ensures
        ({
            let x = ExprM::Literal { val: a };
            let y = ExprM::Literal { val: b };
            let both = ExprM::Binop { op, expr1: Box::new(x), expr2: Box::new(y) };
            let one = ExprM::Unop { op: uop, expr: Box::new(x) };
            &&& semantics::eval(n, x, env, svc, w) == (Ok::<ValueM<Symbol>, ErrM>(a), w)
            &&& semantics::eval(n, both, env, svc, w) == (model::binop(op, a, b), w)
            &&& semantics::eval(n, one, env, svc, w) == (model::unop(uop, a), w)
        }),
{
    lemma_literal(n, a, env, svc, w);
    lemma_literal((n - 1) as nat, a, env, svc, w);
    lemma_literal((n - 1) as nat, b, env, svc, w);
    reveal(semantics::eval);
    reveal(semantics::eval_step);
}

proof fn lemma_literal(n: nat, a: ValueM<Symbol>, env: EnvM, svc: Symbol, w: World)
    requires
        n >= 1,
    ensures
        semantics::eval(n, ExprM::Literal { val: a }, env, svc, w) == (
            Ok::<ValueM<Symbol>, ErrM>(a),
            w,
        ),
{
    reveal(semantics::eval);
    reveal(semantics::eval_step);
}

/// A conditional is its first branch where the condition holds and its second
/// where it does not; the other is not evaluated. What is no truth value is no
/// condition.
pub proof fn law_conditional_chooses(
    n: nat,
    c: ExprM<Symbol>,
    e1: ExprM<Symbol>,
    e2: ExprM<Symbol>,
    env: EnvM,
    svc: Symbol,
    w: World,
)
    ensures
        ({
            let e = ExprM::If { cond: Box::new(c), expr1: Box::new(e1), expr2: Box::new(e2) };
            let (r, w1) = semantics::eval(n, c, env, svc, w);
            let out = semantics::eval(n + 1, e, env, svc, w);
            &&& r == Ok::<ValueM<Symbol>, ErrM>(truth(true)) ==> out == semantics::eval(
                n,
                e1,
                env,
                svc,
                w1,
            )
            &&& r == Ok::<ValueM<Symbol>, ErrM>(truth(false)) ==> out == semantics::eval(
                n,
                e2,
                env,
                svc,
                w1,
            )
            &&& r is Ok && !(r->Ok_0 is Bool) ==> type_error(out.0)
            &&& r is Err ==> out == (r, w1)
        }),
{
    reveal(semantics::eval);
    reveal(semantics::eval_step);
}

/// The innermost binding of a name counts, and the others are as they were.
pub proof fn law_innermost_binding_counts(env: EnvM, x: Symbol, v: ValueM<Symbol>, y: Symbol)
    ensures
        model::env_get(env.push((x, v)), x) == Some(v),
        y != x ==> model::env_get(env.push((x, v)), y) == model::env_get(env, y),
        model::env_get(Seq::empty(), y) is None,
{
    assert(env.push((x, v)).drop_last() =~= env);
}

/// A name that is bound has the value that it is bound to; else it is a member
/// of the service.
pub proof fn law_names_are_looked_up(n: nat, x: Symbol, env: EnvM, svc: Symbol, w: World)
    ensures
        ({
            let out = semantics::eval(n + 1, ExprM::Variable { name: x }, env, svc, w);
            match model::env_get(env, x) {
                Some(v) => out == (Ok::<ValueM<Symbol>, ErrM>(v), w),
                None => out == semantics::lookup(n, x, svc, w),
            }
        }),
{
    reactive::lemma_eval_steps(n + 1, ExprM::Variable { name: x }, env, svc, w);
}

/// Whether the bindings in a function that is applied are right: its parameters
/// have the values of the arguments in their places, and every other name what it
/// had where the function was made.
pub open spec fn bound_right(
    inner: EnvM,
    own: EnvM,
    params: Seq<ParamM<Symbol>>,
    vs: Seq<ValueM<Symbol>>,
) -> bool {
    &&& forall|i: int|
        0 <= i < params.len() ==> model::env_get(inner, (#[trigger] params[i]).name) == Some(vs[i])
    &&& forall|s: Symbol|
        (forall|i: int| 0 <= i < params.len() ==> (#[trigger] params[i]).name != s)
            ==> #[trigger] model::env_get(inner, s) == model::env_get(own, s)
}

/// Parameters are bound to the arguments in their places.
pub proof fn law_arguments_are_bound(
    own: EnvM,
    params: Seq<ParamM<Symbol>>,
    vs: Seq<ValueM<Symbol>>,
)
    requires
        params.len() <= vs.len(),
        forall|i: int, j: int|
            0 <= i < j < params.len() ==> (#[trigger] params[i]).name != (#[trigger] params[j]).name,
    ensures
        bound_right(model::bind_args(own, params, vs), own, params, vs),
{
    let inner = model::bind_args(own, params, vs);
    let tail = Seq::new(params.len(), |i: int| (params[i].name, vs[i]));
    assert(inner =~= own + tail);
    assert forall|i: int| 0 <= i < params.len() implies model::env_get(
        inner,
        (#[trigger] params[i]).name,
    ) == Some(vs[i]) by {
        let s = params[i].name;
        calls::lemma_env_add(own, tail, s);
        calls::lemma_env_get(tail, s);
        assert(tail[i] == (s, vs[i]));
        let v = model::env_get(tail, s)->Some_0;
        let j = choose|j: int| 0 <= j < tail.len() && #[trigger] tail[j] == (s, v);
        assert(params[j].name == s);
    }
    assert forall|s: Symbol|
        (forall|i: int| 0 <= i < params.len() ==> (#[trigger] params[i]).name != s) implies
        #[trigger] model::env_get(inner, s) == model::env_get(own, s) by {
        calls::lemma_env_add(own, tail, s);
        calls::lemma_env_get(tail, s);
        if let Some(v) = model::env_get(tail, s) {
            let j = choose|j: int| 0 <= j < tail.len() && #[trigger] tail[j] == (s, v);
            assert(params[j].name == s);
        }
    }
}

/// A call evaluates the function, then the arguments from left to right, and is
/// the body of the function, in the function's service, with its parameters
/// bound. What is no function cannot be called.
pub proof fn law_call_is_the_body(
    n: nat,
    func: ExprM<Symbol>,
    args: Seq<ExprM<Symbol>>,
    env: EnvM,
    svc: Symbol,
    w: World,
)
    ensures
        ({
            let e = ExprM::Call { func: Box::new(func), args };
            let out = semantics::eval(n + 1, e, env, svc, w);
            let (f, w1) = semantics::eval(n, func, env, svc, w);
            let (vs, w2) = semantics::eval_args(n, args, 0, seq![], env, svc, w1);
            &&& f is Err ==> out == (f, w1)
            &&& f is Ok && vs is Err ==> out.0 is Err && out.0->Err_0 == vs->Err_0 && out.1 == w2
            &&& f is Ok && vs is Ok ==> match f->Ok_0 {
                ValueM::Closure { params, body, env: own, service_name, return_ty } => exists|
                    inner: EnvM,
                |
                    (params.len() <= vs->Ok_0.len() && (forall|i: int, j: int|
                        0 <= i < j < params.len() ==> (#[trigger] params[i]).name != (
                        #[trigger] params[j]).name) ==> bound_right(
                        inner,
                        own,
                        params,
                        vs->Ok_0,
                    )) && out == #[trigger] semantics::eval(n, *body, inner, service_name, w2),
                _ => type_error(out.0),
            }
        }),
{
    calls::lemma_call_steps(n + 1, func, args, env, svc, w);
    let (f, w1) = semantics::eval(n, func, env, svc, w);
    let (vs, w2) = semantics::eval_args(n, args, 0, seq![], env, svc, w1);
    if f is Ok && vs is Ok {
        if let ValueM::Closure { params, body, env: own, service_name, return_ty } = f->Ok_0 {
            let inner = model::bind_args(own, params, vs->Ok_0);
            if params.len() <= vs->Ok_0.len() && (forall|i: int, j: int|
                0 <= i < j < params.len() ==> (#[trigger] params[i]).name != (
                #[trigger] params[j]).name) {
                law_arguments_are_bound(own, params, vs->Ok_0);
            }
            let e = ExprM::Call { func: Box::new(func), args };
            assert(semantics::eval(n + 1, e, env, svc, w) == semantics::eval(
                n,
                *body,
                inner,
                service_name,
                w2,
            ));
        }
    }
}

/// Whether an expression has the value in some state.
pub open spec fn may_give(
    n: nat,
    e: ExprM<Symbol>,
    env: EnvM,
    svc: Symbol,
    v: ValueM<Symbol>,
) -> bool {
    exists|u: World|
        (#[trigger] semantics::eval(n, e, env, svc, u)).0 == Ok::<ValueM<Symbol>, ErrM>(v)
}

/// The arguments of a call have the values of the expressions in their places.
pub proof fn law_arguments_in_order(
    n: nat,
    args: Seq<ExprM<Symbol>>,
    i: nat,
    acc: Seq<ValueM<Symbol>>,
    env: EnvM,
    svc: Symbol,
    w: World,
)
    requires
        i <= args.len(),
        acc.len() == i,
    ensures
        semantics::eval_args(n, args, i, acc, env, svc, w).0 matches Ok(vs) ==> {
            &&& vs.len() == args.len()
            &&& forall|k: int| 0 <= k < i ==> #[trigger] vs[k] == acc[k]
            &&& forall|k: int|
                i <= k < args.len() ==> may_give(n, args[k], env, svc, #[trigger] vs[k])
        },
    decreases args.len() - i,
{
    calls::lemma_args_steps(n, args, i, acc, env, svc, w);
    if i < args.len() {
        let (v, w1) = semantics::eval(n, args[i as int], env, svc, w);
        if let Ok(v) = v {
            law_arguments_in_order(n, args, i + 1, acc.push(v), env, svc, w1);
            if let Ok(vs) = semantics::eval_args(n, args, i + 1, acc.push(v), env, svc, w1).0 {
                assert(vs[i as int] == acc.push(v)[i as int]);
                assert forall|k: int| 0 <= k < i implies #[trigger] vs[k] == acc[k] by {
                    assert(vs[k] == acc.push(v)[k]);
                }
                assert forall|k: int| i <= k < args.len() implies may_give(
                    n,
                    args[k],
                    env,
                    svc,
                    #[trigger] vs[k],
                ) by {
                    if k == i {
                        assert(semantics::eval(n, args[k], env, svc, w).0 == Ok::<
                            ValueM<Symbol>,
                            ErrM,
                        >(vs[k]));
                    }
                }
            }
        }
    }
}

/// A function is made of its parameters and its body, belongs to the service
/// where it is made, and takes along what its free names are bound to there. The
/// members of the service are not taken along: they are read anew.
pub proof fn law_function_keeps_bindings(
    n: nat,
    params: Seq<ParamM<Symbol>>,
    body: ExprM<Symbol>,
    return_ty: Option<TypeM>,
    env: EnvM,
    svc: Symbol,
    w: World,
)
    ensures
        ({
            let e = ExprM::Func { params, body: Box::new(body), return_ty };
            let (r, z) = semantics::eval(n + 1, e, env, svc, w);
            let free = read_write::free_vars(
                body,
                Set::empty(),
                Set::<Symbol>::empty().union(read_write::param_set(params)),
            );
            &&& z == w
            &&& r matches Ok(ValueM::Closure {
                params: ps,
                body: b,
                env: own,
                service_name,
                return_ty: t,
            }) && ps == params && *b == body && service_name == svc && t == return_ty && forall|
                s: Symbol,
            | #[trigger]
                model::env_get(own, s) == (if free.contains(s) && !model::is_member(
                    w.m,
                    svc,
                    s,
                ) {
                    model::env_get(env, s)
                } else {
                    None
                })
        }),
{
    let e = ExprM::Func { params, body: Box::new(body), return_ty };
    reactive::lemma_eval_steps(n + 1, e, env, svc, w);
    let free = read_write::free_vars(
        body,
        Set::empty(),
        Set::<Symbol>::empty().union(read_write::param_set(params)),
    );
    assert(env.take(env.len() as int) =~= env);
    assert forall|s: Symbol| #[trigger]
        model::env_get(model::captured(w.m, svc, env, free, env.len()), s) == (if free.contains(s)
            && !model::is_member(w.m, svc, s) {
            model::env_get(env, s)
        } else {
            None
        }) by {
        calls::lemma_captured(w.m, svc, env, free, env.len(), s);
    }
}

/// Without a transaction, a variable of a service of this node has the value
/// that is kept; a definition is evaluated where it was made, with nothing bound.
pub proof fn law_members_are_read(n: nat, x: Symbol, svc: Symbol, m: ManagerM)
    requires
        !table::bound(m.remote_services, svc),
    ensures
        ({
            let w = World { m, t: None };
            let out = semantics::lookup(n + 1, x, svc, w);
            match model::def_of(m, svc, x) {
                Some(e) => out == semantics::eval(n, e, seq![], svc, w),
                None => out.1 == w && match model::var_of(m, svc, x) {
                    Some(v) => out.0 == Ok::<ValueM<Symbol>, ErrM>(v.value),
                    None => out.0 is Err,
                },
            }
        }),
{
    reactive::lemma_read_steps(n + 1, x, svc, World { m, t: None });
}

/// An assertion is done where it holds, and fails with its own text where it
/// does not.
pub proof fn law_assertion_decides(
    n: nat,
    e: ExprM<Symbol>,
    text: Seq<char>,
    env: EnvM,
    svc: Symbol,
    w: World,
)
    ensures
        ({
            let out = semantics::execute(n + 1, ActionStmtM::Assert(e, text), env, svc, w);
            let (r, w1) = semantics::eval(n, e, env, svc, w);
            &&& out.1 == w1
            &&& r == Ok::<ValueM<Symbol>, ErrM>(truth(true)) ==> out.0 is Ok && out.0->Ok_0
                is Nothing
            &&& r == Ok::<ValueM<Symbol>, ErrM>(truth(false)) ==> out.0 is Err && out.0->Err_0
                == ErrM::AssertionError(text)
            &&& r is Ok && !(r->Ok_0 is Bool) ==> out.0 is Err && out.0->Err_0 is TypeError
            &&& r is Err ==> out.0 is Err && out.0->Err_0 == r->Err_0
        }),
{
    reveal(semantics::execute);
    reveal(semantics::execute_step);
    reveal(semantics::eval);
}

/// A `let` binds its name to its value, and an expression gives its own.
pub proof fn law_statement_gives_value(
    n: nat,
    name: Symbol,
    ty: Option<TypeM>,
    e: ExprM<Symbol>,
    env: EnvM,
    svc: Symbol,
    w: World,
)
    requires
        semantics::eval(n, e, env, svc, w).0 is Ok,
    ensures
        ({
            let (r, w1) = semantics::eval(n, e, env, svc, w);
            let v = r->Ok_0;
            &&& semantics::execute(
                n + 1,
                ActionStmtM::Let { name, ty, expr: e },
                env,
                svc,
                w,
            ) == (Ok::<EffectM, ErrM>(EffectM::Binding(name, v)), w1)
            &&& semantics::execute(n + 1, ActionStmtM::Expr(e), env, svc, w) == (
                Ok::<EffectM, ErrM>(EffectM::ExprValue(v)),
                w1,
            )
        }),
{
    reveal(semantics::execute);
    reveal(semantics::execute_step);
    reveal(semantics::eval);
}

/// An assignment assigns the value of its expression to the variable of the
/// service.
pub proof fn law_assignment_assigns(
    n: nat,
    name: Symbol,
    e: ExprM<Symbol>,
    env: EnvM,
    svc: Symbol,
    w: World,
)
    requires
        semantics::eval(n, e, env, svc, w).0 is Ok,
    ensures
        ({
            let (r, w1) = semantics::eval(n, e, env, svc, w);
            let out = semantics::execute(
                n + 1,
                ActionStmtM::Assign { name, expr: e },
                env,
                svc,
                w,
            );
            let (a, w2) = semantics::assign(n, svc, name, r->Ok_0, w1);
            &&& out.1 == w2
            &&& out.0 is Ok == a is Ok
            &&& a is Err ==> out.0->Err_0 == a->Err_0
        }),
{
    reveal(semantics::execute);
    reveal(semantics::execute_step);
    reveal(semantics::eval);
    reveal(semantics::assign);
}

/// Under a transaction, a variable that was assigned to is read as what was
/// assigned, and is not changed for anyone else.
pub proof fn law_assigned_is_read(
    n: nat,
    svc: Symbol,
    var: Symbol,
    v: ValueM<Symbol>,
    w: World,
)
    requires
        w.t is Some,
        semantics::assign(n, svc, var, v, w).0 is Ok,
    ensures
        ({
            let z = semantics::assign(n, svc, var, v, w).1;
            &&& model::local_read(var, svc, z) == (Ok::<ValueM<Symbol>, ErrM>(v), z)
            &&& reactive::kept_value(z.m, (svc, var)) == reactive::kept_value(w.m, (svc, var))
        }),
{
    reveal(semantics::assign);
    let t = w.t->Some_0;
    manager_laws::law_reads_own_write(svc, var, v, w.m, t);
    let z = model::buffer_write(svc, var, v, w.m, t).1;
    let s = table::get(w.m.services, svc)->Some_0;
    let x = table::get(s.vars, var)->Some_0;
    table::lemma_slot(w.m.services, svc);
    table::lemma_slot(s.vars, var);
    let s1 = table::get(z.m.services, svc)->Some_0;
    let key = (model::net_id(w.m, svc), var);
    let wish = if t.locked.contains(key) {
        model::Wish::Upgrade
    } else {
        model::Wish::Write
    };
    let x1 = VarStateM { lock: model::granted(x.lock, wish, t.id), ..x };
    table::lemma_put(s.vars, var, x1, var);
    let s2 = ServiceM { vars: table::put(s.vars, var, x1), ..s };
    table::lemma_put(w.m.services, svc, s2, svc);
}

/// Doing an action of this node executes its statements, in the service that it
/// belongs to and with what it took along; what is no action cannot be done.
pub proof fn law_action_is_done(n: nat, e: ExprM<Symbol>, env: EnvM, svc: Symbol, w: World)
    requires
        semantics::eval(n, e, env, svc, w).0 is Ok,
    ensures
        ({
            let (r, w1) = semantics::eval(n, e, env, svc, w);
            let out = semantics::execute(n + 1, ActionStmtM::Do(e), env, svc, w);
            match r->Ok_0 {
                ValueM::ActionClosure { stmts, env: own, service_net_id } => {
                    let (a, w2) = match model::name_for_id(w1.m, service_net_id) {
                        Some(target) => semantics::exec_block(n, stmts, 0, own, target, w1),
                        None => semantics::remote_action(n, service_net_id, stmts, own, w1),
                    };
                    &&& out.1 == w2
                    &&& out.0 is Ok == a is Ok
                    &&& a is Err ==> out.0->Err_0 == a->Err_0
                },
                _ => out.0 is Err && out.0->Err_0 is TypeError && out.1 == w1,
            }
        }),
{
    reveal(semantics::execute);
    reveal(semantics::execute_step);
    reveal(semantics::eval);
    reveal(semantics::exec_block);
    reveal(semantics::remote_action);
}

/// Statements are executed one after the other: what a `let` binds is there for
/// those behind it, and the first that fails ends the block.
pub proof fn law_block_goes_in_order(
    n: nat,
    stmts: Seq<ActionStmtM<Symbol>>,
    i: nat,
    env: EnvM,
    svc: Symbol,
    w: World,
)
    ensures
        ({
            let out = semantics::exec_block(n, stmts, i, env, svc, w);
            if i >= stmts.len() {
                out == (Ok::<(), ErrM>(()), w)
            } else {
                let (r, w1) = semantics::execute(n, stmts[i as int], env, svc, w);
                match r {
                    Err(x) => out == (Err::<(), ErrM>(x), w1),
                    Ok(EffectM::Binding(name, v)) => exists|inner: EnvM|
                        model::env_get(inner, name) == Some(v) && (forall|s: Symbol|
                            s != name ==> #[trigger] model::env_get(inner, s) == model::env_get(
                                env,
                                s,
                            )) && out == #[trigger] semantics::exec_block(
                            n,
                            stmts,
                            i + 1,
                            inner,
                            svc,
                            w1,
                        ),
                    Ok(_) => out == semantics::exec_block(n, stmts, i + 1, env, svc, w1),
                }
            }
        }),
{
    reveal(semantics::exec_block);
    reveal(semantics::execute);
    if i < stmts.len() {
        let (r, w1) = semantics::execute(n, stmts[i as int], env, svc, w);
        if let Ok(EffectM::Binding(name, v)) = r {
            let inner = env.push((name, v));
            law_innermost_binding_counts(env, name, v, name);
            assert forall|s: Symbol| s != name implies #[trigger] model::env_get(inner, s)
                == model::env_get(env, s) by {
                law_innermost_binding_counts(env, name, v, s);
            }
            assert(semantics::exec_block(n, stmts, i, env, svc, w) == semantics::exec_block(
                n,
                stmts,
                i + 1,
                inner,
                svc,
                w1,
            ));
        }
    }
}

/// Whether no function and no action is written in an expression.
pub open spec fn makes_none(e: ExprM<Symbol>) -> bool
    decreases e,
{
    match e {
        ExprM::Func { .. } => false,
        ExprM::Action(_) => false,
        ExprM::Unop { op, expr } => makes_none(*expr),
        ExprM::Binop { op, expr1, expr2 } => makes_none(*expr1) && makes_none(*expr2),
        ExprM::If { cond, expr1, expr2 } => makes_none(*cond) && makes_none(*expr1) && makes_none(
            *expr2,
        ),
        ExprM::Call { func, args } => makes_none(*func) && all_make_none(args),
        _ => true,
    }
}

/// Whether that holds of all the expressions.
pub open spec fn all_make_none(v: Seq<ExprM<Symbol>>) -> bool
    decreases v,
{
    forall|i: int| 0 <= i < v.len() ==> makes_none(#[trigger] v[i])
}

/// Whether names are bound to the same.
pub open spec fn same_for(a: EnvM, b: EnvM, names: Set<Symbol>) -> bool {
    forall|s: Symbol| #[trigger]
        names.contains(s) ==> model::env_get(a, s) == model::env_get(b, s)
}

/// An expression depends on its free names alone: where these are bound to the
/// same, it is evaluated to the same. So a function misses nothing that it does
/// not take along.
pub proof fn law_free_names_matter(
    n: nat,
    e: ExprM<Symbol>,
    a: EnvM,
    b: EnvM,
    svc: Symbol,
    w: World,
)
    requires
        makes_none(e),
        same_for(a, b, read_write::free_vars(e, Set::empty(), Set::empty())),
    ensures
        semantics::eval(n, e, a, svc, w) == semantics::eval(n, e, b, svc, w),
    decreases e, 0nat,
{
    reveal(read_write::free_vars);
    reveal(read_write::free_in_any);
    reveal(read_write::free_in_stmts);
    reactive::lemma_no_steps(e, a, svc, svc, w);
    reactive::lemma_no_steps(e, b, svc, svc, w);
    if n > 0 {
        let k = (n - 1) as nat;
        if !(e is Call) {
            reactive::lemma_eval_steps(n, e, a, svc, w);
            reactive::lemma_eval_steps(n, e, b, svc, w);
        }
        match e {
            ExprM::Variable { name } => {
                assert(read_write::free_vars(e, Set::empty(), Set::empty()).contains(name));
            },
            ExprM::Unop { op, expr } => {
                law_free_names_matter(k, *expr, a, b, svc, w);
            },
            ExprM::Binop { op, expr1, expr2 } => {
                let f1 = read_write::free_vars(*expr1, Set::empty(), Set::empty());
                let f2 = read_write::free_vars(*expr2, Set::empty(), Set::empty());
                lemma_same_part(a, b, f1.union(f2), f1);
                lemma_same_part(a, b, f1.union(f2), f2);
                law_free_names_matter(k, *expr1, a, b, svc, w);
                let w1 = semantics::eval(k, *expr1, a, svc, w).1;
                law_free_names_matter(k, *expr2, a, b, svc, w1);
            },
            ExprM::If { cond, expr1, expr2 } => {
                let f0 = read_write::free_vars(*cond, Set::empty(), Set::empty());
                let f1 = read_write::free_vars(*expr1, Set::empty(), Set::empty());
                let f2 = read_write::free_vars(*expr2, Set::empty(), Set::empty());
                lemma_same_part(a, b, f0.union(f1).union(f2), f0);
                lemma_same_part(a, b, f0.union(f1).union(f2), f1);
                lemma_same_part(a, b, f0.union(f1).union(f2), f2);
                law_free_names_matter(k, *cond, a, b, svc, w);
                let w1 = semantics::eval(k, *cond, a, svc, w).1;
                law_free_names_matter(k, *expr1, a, b, svc, w1);
                law_free_names_matter(k, *expr2, a, b, svc, w1);
            },
            ExprM::Call { func, args } => {
                let f0 = read_write::free_vars(*func, Set::empty(), Set::empty());
                let f1 = read_write::free_in_any(args, Set::empty(), Set::empty());
                lemma_same_part(a, b, f0.union(f1), f0);
                lemma_same_part(a, b, f0.union(f1), f1);
                calls::lemma_call_steps(n, *func, args, a, svc, w);
                calls::lemma_call_steps(n, *func, args, b, svc, w);
                law_free_names_matter(k, *func, a, b, svc, w);
                let w1 = semantics::eval(k, *func, a, svc, w).1;
                lemma_free_in_args(k, args, 0, seq![], a, b, svc, w1);
            },
            _ => {},
        }
    }
}

proof fn lemma_same_part(a: EnvM, b: EnvM, all: Set<Symbol>, part: Set<Symbol>)
    requires
        same_for(a, b, all),
        part.subset_of(all),
    ensures
        same_for(a, b, part),
{
    assert forall|s: Symbol| #[trigger] part.contains(s) implies model::env_get(a, s)
        == model::env_get(b, s) by {
        assert(all.contains(s));
    }
}

proof fn lemma_free_in_args(
    k: nat,
    args: Seq<ExprM<Symbol>>,
    i: nat,
    acc: Seq<ValueM<Symbol>>,
    a: EnvM,
    b: EnvM,
    svc: Symbol,
    w: World,
)
    requires
        all_make_none(args),
        same_for(a, b, read_write::free_in_any(args, Set::empty(), Set::empty())),
    ensures
        semantics::eval_args(k, args, i, acc, a, svc, w) == semantics::eval_args(
            k,
            args,
            i,
            acc,
            b,
            svc,
            w,
        ),
    decreases args, args.len() - i,
{
    calls::lemma_args_steps(k, args, i, acc, a, svc, w);
    calls::lemma_args_steps(k, args, i, acc, b, svc, w);
    if i < args.len() {
        let e = args[i as int];
        assert(decreases_to!(args => args[i as int]));
        assert(same_for(a, b, read_write::free_vars(e, Set::empty(), Set::empty()))) by {
            reveal(read_write::free_in_any);
            reveal(read_write::free_vars);
            assert forall|s: Symbol| #[trigger]
                read_write::free_vars(e, Set::empty(), Set::empty()).contains(
                    s,
                ) implies model::env_get(a, s) == model::env_get(b, s) by {
                assert(read_write::free_vars(args[i as int], Set::empty(), Set::empty()).contains(
                    s,
                ));
                assert(read_write::free_in_any(args, Set::empty(), Set::empty()).contains(s));
            }
        }
        law_free_names_matter(k, e, a, b, svc, w);
        let (v, w1) = semantics::eval(k, e, a, svc, w);
        if let Ok(v) = v {
            lemma_free_in_args(k, args, i + 1, acc.push(v), a, b, svc, w1);
        }
    }
}

/// What an error is described with ends with what it says itself.
pub proof fn law_error_tells_its_message(e: ErrM)
    ensures
        match e {
            ErrM::TypeError(s) => s.is_suffix_of(evaluator::error_text(e)),
            ErrM::VarNotFound(s) => s.is_suffix_of(evaluator::error_text(e)),
            ErrM::ServiceNotFound(s) => s.is_suffix_of(evaluator::error_text(e)),
            ErrM::LocalDispatchFailed(s) => s.is_suffix_of(evaluator::error_text(e)),
            ErrM::RemoteDispatchFailed(s) => s.is_suffix_of(evaluator::error_text(e)),
            ErrM::WaitDieAbort(s) => s.is_suffix_of(evaluator::error_text(e)),
            ErrM::AssertionError(s) => s.is_suffix_of(evaluator::error_text(e)),
            ErrM::RuntimeError(s) => s.is_suffix_of(evaluator::error_text(e)),
            _ => true,
        },
{
    match e {
        ErrM::TypeError(s) => lemma_ends_with("Type error: "@, s),
        ErrM::VarNotFound(s) => lemma_ends_with("Variable not found: "@, s),
        ErrM::ServiceNotFound(s) => lemma_ends_with("Service not found: "@, s),
        ErrM::LocalDispatchFailed(s) => lemma_ends_with("Local dispatch failed: "@, s),
        ErrM::RemoteDispatchFailed(s) => lemma_ends_with("Remote dispatch failed: "@, s),
        ErrM::WaitDieAbort(s) => lemma_ends_with("Wait-die abort: "@, s),
        ErrM::AssertionError(s) => lemma_ends_with("Assertion failed: "@, s),
        ErrM::RuntimeError(s) => lemma_ends_with("Runtime error: "@, s),
        _ => {},
    }
}

proof fn lemma_ends_with(a: Seq<char>, s: Seq<char>)
    ensures
        s.is_suffix_of(a + s),
{
    assert((a + s).subrange((a + s).len() - s.len(), (a + s).len() as int) =~= s);
}

} // verus!
