//! Definitions that call functions.
//!
//! A function that reads no member gives the same, whatever the members are. Of
//! a function that is called where it is written, all that it reads is written
//! in the definition. What is shown here is that definitions with such calls
//! depend on nothing but the members that are written in them.

use crate::runtime::ast::model::{ExprM, ValueM};
use crate::runtime::interner::Symbol;
use crate::runtime::interpreter::evaluator::ErrM;
use crate::runtime::manager::model;
use crate::runtime::manager::model::{EnvM, ManagerM, World};
use crate::runtime::manager::reactive;
use crate::runtime::manager::reactive::MemberM;
use crate::runtime::manager::semantics;
use crate::runtime::semantic_analysis::var_analysis::read_write;
use crate::runtime::table;
use crate::runtime::tt::ParamM;
use vstd::prelude::*;

verus! {

/// Which names are members, which services are remote, and how many arguments a
/// call has at least.
pub struct Around {
    pub members: Set<MemberM>,
    pub far: Set<Symbol>,
    pub least: nat,
}

/// What is around the definitions of a node, where a call has `r` arguments at
/// least.
pub open spec fn around(m: ManagerM, r: nat) -> Around {
    Around {
        members: Set::new(|p: MemberM| model::is_member(m, p.0, p.1)),
        far: Set::new(|s: Symbol| table::bound(m.remote_services, s)),
        least: r,
    }
}

/// The names of bindings.
pub open spec fn bound_names(env: EnvM) -> Set<Symbol> {
    Set::new(|s: Symbol| exists|i: int| 0 <= i < env.len() && (#[trigger] env[i]).0 == s)
}

/// The names that stand for no member of the service.
pub open spec fn no_members(g: Around, svc: Symbol) -> Set<Symbol> {
    Set::new(|s: Symbol| !g.members.contains((svc, s)))
}

/// The names of the parameters from place `k` on.
pub open spec fn late_params(params: Seq<ParamM<Symbol>>, k: nat) -> Set<Symbol> {
    Set::new(
        |s: Symbol| exists|i: int| k <= i < params.len() && (#[trigger] params[i]).name == s,
    )
}

/// The names that a function may use that reads no member.
pub open spec fn free_names(
    g: Around,
    svc: Symbol,
    own: EnvM,
    params: Seq<ParamM<Symbol>>,
) -> Set<Symbol> {
    no_members(g, svc).union(bound_names(own)).union(read_write::param_set(params))
}

/// Whether a value holds no function that reads a member.
///
/// A parameter for which an argument may be missing does not have the name of a
/// member: that would be read in its place.
pub open spec fn closed_value(g: Around, v: ValueM<Symbol>) -> bool
    decreases v,
{
    match v {
        ValueM::Closure { params, body, env, service_name, return_ty } => {
            let names = free_names(g, service_name, env, params);
            &&& !g.far.contains(service_name)
            &&& late_params(params, g.least).subset_of(no_members(g, service_name))
            &&& closed_env(g, env)
            &&& tame(g, *body, service_name, names, names, Set::empty())
        },
        _ => true,
    }
}

/// Whether that holds of all bindings.
pub open spec fn closed_env(g: Around, env: EnvM) -> bool
    decreases env,
{
    forall|i: int|
        0 <= i < env.len() ==> {
            let b = #[trigger] env[i];
            closed_value(g, b.1)
        }
}

/// Whether evaluating an expression of the service reads members in `c` alone,
/// and every function that it calls is written there or reads no member.
///
/// The names in `lex` are bound where the expression stands. Of these it may use
/// the ones in `ok`: a function that is written in another one does not see a
/// parameter of that which has the name of a member.
pub open spec fn tame(
    g: Around,
    e: ExprM<Symbol>,
    svc: Symbol,
    lex: Set<Symbol>,
    ok: Set<Symbol>,
    c: Set<MemberM>,
) -> bool
    decreases e,
{
    match e {
        ExprM::Literal { val } => closed_value(g, val),
        ExprM::Variable { name } => if lex.contains(name) {
            ok.contains(name)
        } else {
            c.contains((svc, name))
        },
        ExprM::MemberAccess { service_name, member_name } => c.contains(
            (service_name, member_name),
        ),
        ExprM::Unop { op, expr } => tame(g, *expr, svc, lex, ok, c),
        ExprM::Binop { op, expr1, expr2 } => tame(g, *expr1, svc, lex, ok, c) && tame(
            g,
            *expr2,
            svc,
            lex,
            ok,
            c,
        ),
        ExprM::If { cond, expr1, expr2 } => tame(g, *cond, svc, lex, ok, c) && tame(
            g,
            *expr1,
            svc,
            lex,
            ok,
            c,
        ) && tame(g, *expr2, svc, lex, ok, c),
        ExprM::Call { func, args } => all_tame(g, args, svc, lex, ok, c) && match *func {
            ExprM::Func { params, body, return_ty } => params.len() <= args.len() && tame(
                g,
                *body,
                svc,
                lex.union(read_write::param_set(params)),
                read_write::param_set(params).union(ok.intersect(no_members(g, svc))),
                c,
            ),
            _ => g.least <= args.len() && tame(g, *func, svc, lex, ok, c),
        },
        ExprM::Func { params, body, return_ty } => {
            let names = free_names(g, svc, seq![], params);
            &&& late_params(params, g.least).subset_of(no_members(g, svc))
            &&& tame(g, *body, svc, names, names, Set::empty())
        },
        _ => true,
    }
}

/// Whether that holds of all the expressions.
pub open spec fn all_tame(
    g: Around,
    v: Seq<ExprM<Symbol>>,
    svc: Symbol,
    lex: Set<Symbol>,
    ok: Set<Symbol>,
    c: Set<MemberM>,
) -> bool
    decreases v,
{
    forall|i: int| 0 <= i < v.len() ==> tame(g, #[trigger] v[i], svc, lex, ok, c)
}

/// Whether the members in `c` are of this node, hold no function that reads a
/// member, and, where they are definitions, read such members alone.
pub open spec fn pure(m: ManagerM, c: Set<MemberM>, r: nat) -> bool {
    forall|p: MemberM| #[trigger]
        c.contains(p) ==> {
            &&& !around(m, r).far.contains(p.0)
            &&& reactive::kept_value(m, p) matches Ok(v) ==> closed_value(around(m, r), v)
            &&& model::def_of(m, p.0, p.1) matches Some(e) ==> tame(
                around(m, r),
                e,
                p.0,
                Set::empty(),
                Set::empty(),
                c,
            )
        }
}

/// Whether an expression of the service calls functions only that are written
/// there or read no member.
pub open spec fn tame_here(m: ManagerM, e: ExprM<Symbol>, svc: Symbol) -> bool {
    exists|c: Set<MemberM>, r: nat|
        pure(m, c, r) && #[trigger] tame(around(m, r), e, svc, Set::empty(), Set::empty(), c)
}

/// The members that evaluating an expression may read where the names in `lex`
/// are bound.
pub open spec fn reads_in(e: ExprM<Symbol>, svc: Symbol, lex: Set<Symbol>) -> Set<MemberM>
    decreases e,
{
    match e {
        ExprM::Variable { name } => if lex.contains(name) {
            Set::empty()
        } else {
            set![(svc, name)]
        },
        ExprM::MemberAccess { service_name, member_name } => set![(service_name, member_name)],
        ExprM::Unop { op, expr } => reads_in(*expr, svc, lex),
        ExprM::Binop { op, expr1, expr2 } => reads_in(*expr1, svc, lex).union(
            reads_in(*expr2, svc, lex),
        ),
        ExprM::If { cond, expr1, expr2 } => reads_in(*cond, svc, lex).union(
            reads_in(*expr1, svc, lex),
        ).union(reads_in(*expr2, svc, lex)),
        ExprM::Call { func, args } => reads_any(args, svc, lex).union(
            match *func {
                ExprM::Func { params, body, return_ty } => reads_in(
                    *body,
                    svc,
                    lex.union(read_write::param_set(params)),
                ),
                _ => reads_in(*func, svc, lex),
            },
        ),
        _ => Set::empty(),
    }
}

/// The members that evaluating one of the expressions may read.
pub open spec fn reads_any(v: Seq<ExprM<Symbol>>, svc: Symbol, lex: Set<Symbol>) -> Set<MemberM>
    decreases v,
{
    Set::new(
        |p: MemberM|
            exists|i: int| 0 <= i < v.len() && reads_in(#[trigger] v[i], svc, lex).contains(p),
    )
}

/// Whether the steps of evaluating arguments were enough.
pub open spec fn enough_all(r: Result<Seq<ValueM<Symbol>>, ErrM>) -> bool {
    r != Err::<Seq<ValueM<Symbol>>, ErrM>(ErrM::DepthExceeded)
}

/// What a function gives on arguments, with as many steps as it takes.
pub open spec fn applied(m: ManagerM, f: ValueM<Symbol>, vs: Seq<ValueM<Symbol>>) -> Result<
    ValueM<Symbol>,
    ErrM,
> {
    match f {
        ValueM::Closure { params, body, env, service_name, return_ty } => {
            let inner = model::bind_args(env, params, vs);
            if exists|n: nat|
                reactive::enough(#[trigger] reactive::outcome(n, *body, inner, service_name, m)) {
                let n = choose|n: nat|
                    reactive::enough(
                        #[trigger] reactive::outcome(n, *body, inner, service_name, m),
                    );
                reactive::outcome(n, *body, inner, service_name, m)
            } else {
                Err(ErrM::DepthExceeded)
            }
        },
        _ => Err(ErrM::TypeError("Attempting to call a non-function value"@)),
    }
}

/// What a function takes along of bindings.
pub open spec fn taken(
    m: ManagerM,
    svc: Symbol,
    env: EnvM,
    params: Seq<ParamM<Symbol>>,
    body: ExprM<Symbol>,
) -> EnvM {
    model::captured(
        m,
        svc,
        env,
        read_write::free_vars(
            body,
            Set::empty(),
            Set::<Symbol>::empty().union(read_write::param_set(params)),
        ),
        env.len(),
    )
}

/// The value of an expression among bindings, out of the values that are kept
/// of the members that it reads.
pub open spec fn kept_in(m: ManagerM, e: ExprM<Symbol>, svc: Symbol, env: EnvM) -> Result<
    ValueM<Symbol>,
    ErrM,
>
    decreases e, 0nat,
{
    match e {
        ExprM::Literal { val } => Ok(val),
        ExprM::Variable { name } => match model::env_get(env, name) {
            Some(v) => Ok(v),
            None => reactive::kept_value(m, (svc, name)),
        },
        ExprM::MemberAccess { service_name, member_name } => reactive::kept_value(
            m,
            (service_name, member_name),
        ),
        ExprM::Unop { op, expr } => match kept_in(m, *expr, svc, env) {
            Err(x) => Err(x),
            Ok(a) => model::unop(op, a),
        },
        ExprM::Binop { op, expr1, expr2 } => match kept_in(m, *expr1, svc, env) {
            Err(x) => Err(x),
            Ok(a) => match kept_in(m, *expr2, svc, env) {
                Err(x) => Err(x),
                Ok(b) => model::binop(op, a, b),
            },
        },
        ExprM::If { cond, expr1, expr2 } => match kept_in(m, *cond, svc, env) {
            Err(x) => Err(x),
            Ok(ValueM::Bool { val }) => if val {
                kept_in(m, *expr1, svc, env)
            } else {
                kept_in(m, *expr2, svc, env)
            },
            Ok(_) => Err(ErrM::TypeError("Condition must be boolean"@)),
        },
        ExprM::Call { func, args } => match *func {
            ExprM::Func { params, body, return_ty } => match kept_all(
                m,
                args,
                svc,
                env,
                args.len(),
            ) {
                Err(x) => Err(x),
                Ok(vs) => kept_in(
                    m,
                    *body,
                    svc,
                    model::bind_args(taken(m, svc, env, params, *body), params, vs),
                ),
            },
            _ => match kept_in(m, *func, svc, env) {
                Err(x) => Err(x),
                Ok(f) => match kept_all(m, args, svc, env, args.len()) {
                    Err(x) => Err(x),
                    Ok(vs) => applied(m, f, vs),
                },
            },
        },
        ExprM::Func { params, body, return_ty } => Ok(
            ValueM::Closure {
                params,
                body,
                env: taken(m, svc, env, params, *body),
                service_name: svc,
                return_ty,
            },
        ),
        ExprM::Action(stmts) => Ok(
            ValueM::ActionClosure {
                stmts,
                env: model::captured(
                    m,
                    svc,
                    env,
                    read_write::free_vars(e, Set::empty(), Set::empty()),
                    env.len(),
                ),
                service_net_id: model::net_id(m, svc),
            },
        ),
        _ => Err(ErrM::NotImplemented),
    }
}

/// The values of the first `n` expressions.
pub open spec fn kept_all(
    m: ManagerM,
    v: Seq<ExprM<Symbol>>,
    svc: Symbol,
    env: EnvM,
    n: nat,
) -> Result<Seq<ValueM<Symbol>>, ErrM>
    decreases v, n,
{
    if n == 0 || n > v.len() {
        Ok(seq![])
    } else {
        match kept_all(m, v, svc, env, (n - 1) as nat) {
            Err(x) => Err(x),
            Ok(acc) => match kept_in(m, v[n - 1], svc, env) {
                Err(x) => Err(x),
                Ok(a) => Ok(acc.push(a)),
            },
        }
    }
}

/// Whether bindings are as an expression expects them that is [`tame`].
pub open spec fn env_ok(
    m: ManagerM,
    svc: Symbol,
    env: EnvM,
    lex: Set<Symbol>,
    ok: Set<Symbol>,
    r: nat,
) -> bool {
    &&& forall|s: Symbol| #[trigger]
        ok.contains(s) ==> match model::env_get(env, s) {
            Some(v) => closed_value(around(m, r), v),
            None => !around(m, r).members.contains((svc, s)),
        }
    &&& forall|s: Symbol|
        #![trigger model::env_get(env, s)]
        !lex.contains(s) ==> (model::env_get(env, s) matches Some(v) ==> reactive::kept_value(
            m,
            (svc, s),
        ) == Ok::<ValueM<Symbol>, ErrM>(v))
    &&& forall|i: int|
        0 <= i < env.len() ==> {
            let b = #[trigger] env[i];
            &&& lex.contains(b.0) || around(m, r).members.contains((svc, b.0))
            &&& ok.contains(b.0) ==> closed_value(around(m, r), b.1)
        }
    &&& forall|s: Symbol| #[trigger]
        lex.contains(s) && !ok.contains(s) ==> around(m, r).members.contains((svc, s))
}

/// Whether all values are closed.
pub open spec fn closed_all(g: Around, vs: Seq<ValueM<Symbol>>) -> bool {
    forall|i: int| 0 <= i < vs.len() ==> closed_value(g, #[trigger] vs[i])
}

/// What is found among bindings is one of them.
pub proof fn lemma_env_get(env: EnvM, s: Symbol)
    ensures
        match model::env_get(env, s) {
            Some(v) => exists|i: int| 0 <= i < env.len() && #[trigger] env[i] == (s, v),
            None => forall|i: int| 0 <= i < env.len() ==> (#[trigger] env[i]).0 != s,
        },
    decreases env.len(),
{
    if env.len() > 0 {
        let rest = env.drop_last();
        lemma_env_get(rest, s);
        if env.last().0 == s {
            assert(env[env.len() - 1] == (s, env.last().1));
        } else {
            match model::env_get(rest, s) {
                Some(v) => {
                    let i = choose|i: int| 0 <= i < rest.len() && #[trigger] rest[i] == (s, v);
                    assert(env[i] == (s, v));
                },
                None => {
                    assert forall|i: int| 0 <= i < env.len() implies (#[trigger] env[i]).0 != s by {
                        if i < rest.len() {
                            assert(rest[i].0 != s);
                        }
                    }
                },
            }
        }
    }
}

/// What is found among bindings is the last one, and what was there before else.
pub proof fn lemma_env_add(env: EnvM, tail: EnvM, s: Symbol)
    ensures
        model::env_get(env + tail, s) == (match model::env_get(tail, s) {
            Some(v) => Some(v),
            None => model::env_get(env, s),
        }),
    decreases tail.len(),
{
    if tail.len() == 0 {
        assert(env + tail =~= env);
    } else {
        assert((env + tail).last() == tail.last());
        assert((env + tail).drop_last() =~= env + tail.drop_last());
        lemma_env_add(env, tail.drop_last(), s);
    }
}

/// Of the bindings that are taken along those of other names are left out.
pub proof fn lemma_captured(
    m: ManagerM,
    svc: Symbol,
    env: EnvM,
    free: Set<Symbol>,
    n: nat,
    s: Symbol,
)
    requires
        n <= env.len(),
    ensures
        model::env_get(model::captured(m, svc, env, free, n), s) == (if free.contains(s)
            && !model::is_member(m, svc, s) {
            model::env_get(env.take(n as int), s)
        } else {
            None
        }),
        forall|i: int|
            0 <= i < model::captured(m, svc, env, free, n).len() ==> exists|j: int|
                0 <= j < n && #[trigger] env[j] == #[trigger] model::captured(
                    m,
                    svc,
                    env,
                    free,
                    n,
                )[i] && !model::is_member(m, svc, env[j].0),
    decreases n,
{
    if n > 0 {
        let k = (n - 1) as nat;
        lemma_captured(m, svc, env, free, k, s);
        let rest = model::captured(m, svc, env, free, k);
        let z = model::captured(m, svc, env, free, n);
        let b = env[n - 1];
        assert(env.take(n as int).drop_last() =~= env.take(k as int));
        assert(env.take(n as int).last() == b);
        if free.contains(b.0) && !model::is_member(m, svc, b.0) {
            assert(z.drop_last() =~= rest);
            assert forall|i: int| 0 <= i < z.len() implies exists|j: int|
                0 <= j < n && #[trigger] env[j] == #[trigger] z[i] && !model::is_member(
                    m,
                    svc,
                    env[j].0,
                ) by {
                if i < rest.len() {
                    assert(z[i] == rest[i]);
                } else {
                    assert(env[n - 1] == z[i]);
                }
            }
        }
    }
}

/// Of the parameters that are bound.
proof fn lemma_bound_params(
    g: Around,
    own: EnvM,
    params: Seq<ParamM<Symbol>>,
    vs: Seq<ValueM<Symbol>>,
    s: Symbol,
)
    requires
        closed_all(g, vs),
    ensures
        ({
            let env = model::bind_args(own, params, vs);
            let tail = model::bind_args(seq![], params, vs);
            &&& env == own + tail
            &&& model::env_get(env, s) == (match model::env_get(tail, s) {
                Some(v) => Some(v),
                None => model::env_get(own, s),
            })
            &&& model::env_get(tail, s) matches Some(v) ==> closed_value(g, v)
            &&& model::env_get(tail, s) is Some ==> read_write::param_set(params).contains(s)
            &&& params.len() <= vs.len() && read_write::param_set(params).contains(s)
                ==> model::env_get(tail, s) is Some
            &&& model::env_get(tail, s) is None && read_write::param_set(params).contains(s)
                && g.least <= vs.len() ==> late_params(params, g.least).contains(s)
            &&& forall|i: int|
                0 <= i < tail.len() ==> read_write::param_set(params).contains(
                    (#[trigger] tail[i]).0,
                )
        }),
{
    let env = model::bind_args(own, params, vs);
    let tail = model::bind_args(seq![], params, vs);
    assert(env =~= own + tail);
    lemma_env_add(own, tail, s);
    lemma_env_get(tail, s);
    assert forall|i: int| 0 <= i < tail.len() implies read_write::param_set(params).contains(
        (#[trigger] tail[i]).0,
    ) by {
        assert(tail[i] == (params[i].name, vs[i]));
        assert(params[i].name == tail[i].0);
    }
    if let Some(v) = model::env_get(tail, s) {
        let i = choose|i: int| 0 <= i < tail.len() && #[trigger] tail[i] == (s, v);
        assert(tail[i] == (params[i].name, vs[i]));
        assert(closed_value(g, vs[i]));
    }
    if params.len() <= vs.len() && read_write::param_set(params).contains(s) {
        let j = choose|j: int| 0 <= j < params.len() && (#[trigger] params[j]).name == s;
        assert(tail[j] == (params[j].name, vs[j]));
    }
    if model::env_get(tail, s) is None && read_write::param_set(params).contains(s) && g.least
        <= vs.len() {
        let j = choose|j: int| 0 <= j < params.len() && (#[trigger] params[j]).name == s;
        if j < vs.len() {
            assert(tail[j] == (params[j].name, vs[j]));
        }
        assert(g.least <= j && params[j].name == s);
    }
}

/// The bindings of a function that reads no member, on such arguments.
proof fn lemma_closed_call(m: ManagerM, f: ValueM<Symbol>, vs: Seq<ValueM<Symbol>>, r: nat)
    requires
        closed_value(around(m, r), f),
        closed_all(around(m, r), vs),
        r <= vs.len(),
        f is Closure,
    ensures
        f matches ValueM::Closure { params, body, env, service_name, return_ty } && env_ok(
            m,
            service_name,
            model::bind_args(env, params, vs),
            free_names(around(m, r), service_name, env, params),
            free_names(around(m, r), service_name, env, params),
            r,
        ),
{
    if let ValueM::Closure { params, body, env: own, service_name: svc, return_ty } = f {
        let g = around(m, r);
        let names = free_names(g, svc, own, params);
        let env = model::bind_args(own, params, vs);
        let tail = model::bind_args(seq![], params, vs);
        assert forall|s: Symbol| #[trigger] names.contains(s) implies match model::env_get(
            env,
            s,
        ) {
            Some(v) => closed_value(g, v),
            None => !g.members.contains((svc, s)),
        } by {
            lemma_bound_params(g, own, params, vs, s);
            lemma_env_get(own, s);
            if let Some(v) = model::env_get(own, s) {
                let i = choose|i: int| 0 <= i < own.len() && #[trigger] own[i] == (s, v);
                assert(closed_value(g, own[i].1));
            }
        }
        assert forall|s: Symbol| #![trigger model::env_get(env, s)]
            !names.contains(s) implies model::env_get(env, s) is None by {
            lemma_bound_params(g, own, params, vs, s);
            lemma_env_get(own, s);
            if let Some(v) = model::env_get(own, s) {
                let i = choose|i: int| 0 <= i < own.len() && #[trigger] own[i] == (s, v);
                assert(bound_names(own).contains(s));
            }
        }
        assert forall|i: int| 0 <= i < env.len() implies {
            let b = #[trigger] env[i];
            names.contains(b.0) && closed_value(g, b.1)
        } by {
            lemma_bound_params(g, own, params, vs, env[i].0);
            if i < own.len() {
                assert(own[i] == env[i]);
                assert(bound_names(own).contains(env[i].0));
            } else {
                assert(tail[i - own.len()] == env[i]);
                assert(closed_value(g, vs[i - own.len()]));
            }
        }
    }
}

/// The names that are bound in a function that is called where it is written.
pub open spec fn inner_lex(lex: Set<Symbol>, params: Seq<ParamM<Symbol>>) -> Set<Symbol> {
    lex.union(read_write::param_set(params))
}

/// Those of them that it may use.
pub open spec fn inner_ok(
    g: Around,
    svc: Symbol,
    ok: Set<Symbol>,
    params: Seq<ParamM<Symbol>>,
) -> Set<Symbol> {
    read_write::param_set(params).union(ok.intersect(no_members(g, svc)))
}

/// The bindings of a function that is called where it is written.
proof fn lemma_inner_call(
    m: ManagerM,
    svc: Symbol,
    env: EnvM,
    lex: Set<Symbol>,
    ok: Set<Symbol>,
    params: Seq<ParamM<Symbol>>,
    body: ExprM<Symbol>,
    vs: Seq<ValueM<Symbol>>,
    r: nat,
)
    requires
        env_ok(m, svc, env, lex, ok, r),
        closed_all(around(m, r), vs),
        params.len() <= vs.len(),
    ensures
        env_ok(
            m,
            svc,
            model::bind_args(taken(m, svc, env, params, body), params, vs),
            inner_lex(lex, params),
            inner_ok(around(m, r), svc, ok, params),
            r,
        ),
{
    let g = around(m, r);
    let own = taken(m, svc, env, params, body);
    let free = read_write::free_vars(
        body,
        Set::empty(),
        Set::<Symbol>::empty().union(read_write::param_set(params)),
    );
    let inner = model::bind_args(own, params, vs);
    let tail = model::bind_args(seq![], params, vs);
    let lex2 = inner_lex(lex, params);
    let ok2 = inner_ok(g, svc, ok, params);
    assert(env.take(env.len() as int) =~= env);
    assert forall|s: Symbol| #[trigger] ok2.contains(s) implies match model::env_get(inner, s) {
        Some(v) => closed_value(g, v),
        None => !g.members.contains((svc, s)),
    } by {
        lemma_bound_params(g, own, params, vs, s);
        lemma_captured(m, svc, env, free, env.len(), s);
        if !read_write::param_set(params).contains(s) {
            assert(ok.contains(s));
        }
    }
    assert forall|i: int| 0 <= i < own.len() implies {
        let b = #[trigger] own[i];
        lex.contains(b.0) && closed_value(g, b.1)
    } by {
        lemma_captured(m, svc, env, free, env.len(), svc);
        let j = choose|j: int|
            0 <= j < env.len() && #[trigger] env[j] == own[i] && !model::is_member(
                m,
                svc,
                env[j].0,
            );
        assert(env[j].0 == own[i].0);
        assert(!g.members.contains((svc, env[j].0)));
        assert(ok.contains(env[j].0));
    }
    assert forall|s: Symbol| #![trigger model::env_get(inner, s)]
        !lex2.contains(s) implies model::env_get(inner, s) is None by {
        lemma_bound_params(g, own, params, vs, s);
        lemma_env_get(own, s);
        if let Some(v) = model::env_get(own, s) {
            let i = choose|i: int| 0 <= i < own.len() && #[trigger] own[i] == (s, v);
            assert(lex.contains(own[i].0));
        }
    }
    assert forall|i: int| 0 <= i < inner.len() implies {
        let b = #[trigger] inner[i];
        lex2.contains(b.0) && closed_value(g, b.1)
    } by {
        lemma_bound_params(g, own, params, vs, inner[i].0);
        if i < own.len() {
            assert(own[i] == inner[i]);
        } else {
            assert(tail[i - own.len()] == inner[i]);
            assert(closed_value(g, vs[i - own.len()]));
        }
    }
    assert forall|s: Symbol| #[trigger] lex2.contains(s) && !ok2.contains(s) implies g.members.contains(
        (svc, s),
    ) by {
        assert(lex.contains(s));
    }
}

/// A function that is written in a tame expression, and not called there, reads
/// no member.
proof fn lemma_closed_func(
    m: ManagerM,
    svc: Symbol,
    env: EnvM,
    lex: Set<Symbol>,
    ok: Set<Symbol>,
    e: ExprM<Symbol>,
    c: Set<MemberM>,
    r: nat,
)
    requires
        env_ok(m, svc, env, lex, ok, r),
        tame(around(m, r), e, svc, lex, ok, c),
        !around(m, r).far.contains(svc),
        e is Func,
    ensures
        e matches ExprM::Func { params, body, return_ty } && closed_value(
            around(m, r),
            ValueM::Closure {
                params,
                body,
                env: taken(m, svc, env, params, *body),
                service_name: svc,
                return_ty,
            },
        ),
{
    if let ExprM::Func { params, body, return_ty } = e {
        let g = around(m, r);
        let own = taken(m, svc, env, params, *body);
        let free = read_write::free_vars(
            *body,
            Set::empty(),
            Set::<Symbol>::empty().union(read_write::param_set(params)),
        );
        lemma_captured(m, svc, env, free, env.len(), svc);
        assert forall|i: int| 0 <= i < own.len() implies {
            let b = #[trigger] own[i];
            closed_value(g, b.1) && !g.members.contains((svc, b.0))
        } by {
            let j = choose|j: int|
                0 <= j < env.len() && #[trigger] env[j] == own[i] && !model::is_member(
                    m,
                    svc,
                    env[j].0,
                );
            assert(!g.members.contains((svc, env[j].0)));
            assert(lex.contains(env[j].0));
            assert(ok.contains(env[j].0));
        }
        assert(free_names(g, svc, own, params) =~= free_names(g, svc, seq![], params));
    }
}

/// How a call is evaluated, step by step.
pub proof fn lemma_call_steps(
    n: nat,
    func: ExprM<Symbol>,
    args: Seq<ExprM<Symbol>>,
    env: EnvM,
    svc: Symbol,
    w: World,
)
    requires
        n > 0,
    ensures
        ({
            let k = (n - 1) as nat;
            let e = ExprM::Call { func: Box::new(func), args };
            semantics::eval(n, e, env, svc, w) == ({
                let (f, w1) = semantics::eval(k, func, env, svc, w);
                match f {
                    Err(x) => (Err::<ValueM<Symbol>, ErrM>(x), w1),
                    Ok(f) => {
                        let (vs, w2) = semantics::eval_args(k, args, 0, seq![], env, svc, w1);
                        match vs {
                            Err(x) => (Err(x), w2),
                            Ok(vs) => match f {
                                ValueM::Closure {
                                    params,
                                    body,
                                    env: own,
                                    service_name,
                                    return_ty,
                                } =>
                                    semantics::eval(
                                    k,
                                    *body,
                                    model::bind_args(own, params, vs),
                                    service_name,
                                    w2,
                                ),
                                _ => (
                                    Err(
                                        ErrM::TypeError(
                                            "Attempting to call a non-function value"@,
                                        ),
                                    ),
                                    w2,
                                ),
                            },
                        }
                    },
                }
            })
        }),
{
    reveal(semantics::eval);
    reveal(semantics::eval_step);
    reveal(semantics::eval_args);
    reveal(semantics::lookup);
}

/// How arguments are evaluated, step by step.
pub proof fn lemma_args_steps(
    n: nat,
    args: Seq<ExprM<Symbol>>,
    i: nat,
    acc: Seq<ValueM<Symbol>>,
    env: EnvM,
    svc: Symbol,
    w: World,
)
    ensures
        semantics::eval_args(n, args, i, acc, env, svc, w) == (if i >= args.len() {
            (Ok::<Seq<ValueM<Symbol>>, ErrM>(acc), w)
        } else {
            let (v, w1) = semantics::eval(n, args[i as int], env, svc, w);
            match v {
                Err(x) => (Err(x), w1),
                Ok(v) => semantics::eval_args(n, args, i + 1, acc.push(v), env, svc, w1),
            }
        }),
{
    reveal(semantics::eval_args);
    reveal(semantics::eval);
}

/// Operations give no functions.
proof fn lemma_plain_values(g: Around, e: ExprM<Symbol>, a: ValueM<Symbol>, b: ValueM<Symbol>)
    ensures
        e matches ExprM::Unop { op, expr } ==> (model::unop(op, a) matches Ok(v) ==> closed_value(
            g,
            v,
        )),
        e matches ExprM::Binop { op, expr1, expr2 } ==> (model::binop(op, a, b) matches Ok(v)
            ==> closed_value(g, v)),
{
}

/// A member of a pure set is read without a change of the node, and holds no
/// function that reads a member.
proof fn lemma_read_tame(n: nat, p: MemberM, m: ManagerM, c: Set<MemberM>, r: nat)
    requires
        pure(m, c, r),
        reactive::no_cache(m),
        c.contains(p),
    ensures
        semantics::lookup(n, p.1, p.0, World { m, t: None }).1 == (World { m, t: None }),
        reactive::read(n, m, p) matches Ok(v) ==> closed_value(around(m, r), v),
    decreases n, 0nat, 0nat,
{
    let w = World { m, t: None };
    reactive::lemma_no_steps(ExprM::Variable { name: p.1 }, seq![], p.1, p.0, w);
    if n > 0 {
        assert(!around(m, r).far.contains(p.0));
        reactive::lemma_read_steps(n, p.1, p.0, w);
        if let Some(e) = model::def_of(m, p.0, p.1) {
            lemma_tame((n - 1) as nat, e, seq![], p.0, m, Set::empty(), Set::empty(), c, r);
        } else {
            assert(reactive::read(n, m, p) == reactive::kept_value(m, p));
        }
    }
}

/// A tame expression is evaluated without a change of the node, and gives no
/// function that reads a member.
pub proof fn lemma_tame(
    n: nat,
    e: ExprM<Symbol>,
    env: EnvM,
    svc: Symbol,
    m: ManagerM,
    lex: Set<Symbol>,
    ok: Set<Symbol>,
    c: Set<MemberM>,
    r: nat,
)
    requires
        pure(m, c, r),
        reactive::no_cache(m),
        tame(around(m, r), e, svc, lex, ok, c),
        env_ok(m, svc, env, lex, ok, r),
        !around(m, r).far.contains(svc),
    ensures
        semantics::eval(n, e, env, svc, World { m, t: None }).1 == (World { m, t: None }),
        reactive::outcome(n, e, env, svc, m) matches Ok(v) ==> closed_value(around(m, r), v),
    decreases n, 0nat, 0nat,
{
    let w = World { m, t: None };
    let g = around(m, r);
    reactive::lemma_no_steps(e, env, svc, svc, w);
    if n > 0 {
        let k = (n - 1) as nat;
        if !(e is Call) {
            reactive::lemma_eval_steps(n, e, env, svc, w);
        }
        match e {
            ExprM::Variable { name } => {
                if !lex.contains(name) {
                    lemma_read_tame(k, (svc, name), m, c, r);
                } else {
                    lemma_unbound(k, name, svc, m, r);
                }
            },
            ExprM::MemberAccess { service_name, member_name } => {
                reactive::lemma_no_cached(m, (service_name, member_name));
                lemma_read_tame(k, (service_name, member_name), m, c, r);
            },
            ExprM::Unop { op, expr } => {
                lemma_tame(k, *expr, env, svc, m, lex, ok, c, r);
                if let Ok(a) = reactive::outcome(k, *expr, env, svc, m) {
                    lemma_plain_values(g, e, a, a);
                }
            },
            ExprM::Binop { op, expr1, expr2 } => {
                lemma_tame(k, *expr1, env, svc, m, lex, ok, c, r);
                lemma_tame(k, *expr2, env, svc, m, lex, ok, c, r);
                if let Ok(a) = reactive::outcome(k, *expr1, env, svc, m) {
                    if let Ok(b) = reactive::outcome(k, *expr2, env, svc, m) {
                        lemma_plain_values(g, e, a, b);
                    }
                }
            },
            ExprM::If { cond, expr1, expr2 } => {
                lemma_tame(k, *cond, env, svc, m, lex, ok, c, r);
                lemma_tame(k, *expr1, env, svc, m, lex, ok, c, r);
                lemma_tame(k, *expr2, env, svc, m, lex, ok, c, r);
            },
            ExprM::Call { func, args } => {
                lemma_call_steps(n, *func, args, env, svc, w);
                lemma_callee(k, *func, args, env, svc, m, lex, ok, c, r);
                if let Ok(f) = reactive::outcome(k, *func, env, svc, m) {
                    lemma_args(k, args, 0, seq![], env, svc, m, lex, ok, c, r);
                    if let Ok(vs) = semantics::eval_args(k, args, 0, seq![], env, svc, w).0 {
                        lemma_entered(k, *func, args, env, svc, m, lex, ok, c, f, vs, r);
                        if let ValueM::Closure { params, body, env: own, service_name, return_ty } =
                            f {
                            let inner = model::bind_args(own, params, vs);
                            match *func {
                                ExprM::Func { params: ps, body: b, return_ty: ty } => {
                                    lemma_tame(
                                        k,
                                        *body,
                                        inner,
                                        svc,
                                        m,
                                        inner_lex(lex, params),
                                        inner_ok(g, svc, ok, params),
                                        c,
                                        r,
                                    );
                                },
                                _ => {
                                    let names = free_names(g, service_name, own, params);
                                    lemma_tame(
                                        k,
                                        *body,
                                        inner,
                                        service_name,
                                        m,
                                        names,
                                        names,
                                        Set::empty(),
                                        r,
                                    );
                                },
                            }
                        }
                    }
                }
            },
            ExprM::Func { params, body, return_ty } => {
                lemma_closed_func(m, svc, env, lex, ok, e, c, r);
            },
            _ => {},
        }
    }
}

/// A name that is not bound and stands for no member cannot be read.
proof fn lemma_unbound(n: nat, name: Symbol, svc: Symbol, m: ManagerM, r: nat)
    requires
        !around(m, r).far.contains(svc),
    ensures
        !around(m, r).members.contains((svc, name)) ==> {
            let w = World { m, t: None };
            &&& semantics::lookup(n, name, svc, w).1 == w
            &&& reactive::read(n, m, (svc, name)) == (if n == 0 {
                Err::<ValueM<Symbol>, ErrM>(ErrM::DepthExceeded)
            } else {
                Err(model::missing(m, name, svc))
            })
            &&& reactive::kept_value(m, (svc, name)) == Err::<ValueM<Symbol>, ErrM>(
                model::missing(m, name, svc),
            )
        },
{
    let w = World { m, t: None };
    reactive::lemma_no_steps(ExprM::Variable { name }, seq![], name, svc, w);
    if n > 0 {
        reactive::lemma_read_steps(n, name, svc, w);
    }
    if !around(m, r).members.contains((svc, name)) {
        assert(!model::is_member(m, svc, name));
        assert(model::def_of(m, svc, name) is None);
        assert(model::var_of(m, svc, name) is None);
    }
}

/// What is called is evaluated without a change of the node.
proof fn lemma_callee(
    k: nat,
    func: ExprM<Symbol>,
    args: Seq<ExprM<Symbol>>,
    env: EnvM,
    svc: Symbol,
    m: ManagerM,
    lex: Set<Symbol>,
    ok: Set<Symbol>,
    c: Set<MemberM>,
    r: nat,
)
    requires
        pure(m, c, r),
        reactive::no_cache(m),
        tame(around(m, r), ExprM::Call { func: Box::new(func), args }, svc, lex, ok, c),
        env_ok(m, svc, env, lex, ok, r),
        !around(m, r).far.contains(svc),
    ensures
        semantics::eval(k, func, env, svc, World { m, t: None }).1 == (World { m, t: None }),
        match func {
            ExprM::Func { params, body, return_ty } => reactive::outcome(k, func, env, svc, m)
                == (if k == 0 {
                Err::<ValueM<Symbol>, ErrM>(ErrM::DepthExceeded)
            } else {
                Ok(
                    ValueM::Closure {
                        params,
                        body,
                        env: taken(m, svc, env, params, *body),
                        service_name: svc,
                        return_ty,
                    },
                )
            }),
            _ => reactive::outcome(k, func, env, svc, m) matches Ok(f) ==> closed_value(
                around(m, r),
                f,
            ),
        },
    decreases k, 1nat, 0nat,
{
    let w = World { m, t: None };
    match func {
        ExprM::Func { params, body, return_ty } => {
            reactive::lemma_no_steps(func, env, svc, svc, w);
            if k > 0 {
                reactive::lemma_eval_steps(k, func, env, svc, w);
            }
        },
        _ => {
            lemma_tame(k, func, env, svc, m, lex, ok, c, r);
        },
    }
}

/// Arguments are evaluated without a change of the node.
proof fn lemma_args(
    k: nat,
    args: Seq<ExprM<Symbol>>,
    i: nat,
    acc: Seq<ValueM<Symbol>>,
    env: EnvM,
    svc: Symbol,
    m: ManagerM,
    lex: Set<Symbol>,
    ok: Set<Symbol>,
    c: Set<MemberM>,
    r: nat,
)
    requires
        pure(m, c, r),
        reactive::no_cache(m),
        all_tame(around(m, r), args, svc, lex, ok, c),
        env_ok(m, svc, env, lex, ok, r),
        !around(m, r).far.contains(svc),
        closed_all(around(m, r), acc),
        acc.len() == i <= args.len(),
    ensures
        semantics::eval_args(k, args, i, acc, env, svc, World { m, t: None }).1 == (World {
            m,
            t: None,
        }),
        semantics::eval_args(k, args, i, acc, env, svc, World { m, t: None }).0 matches Ok(vs)
            ==> vs.len() == args.len() && closed_all(around(m, r), vs),
    decreases k, 1nat, args.len() - i,
{
    let w = World { m, t: None };
    lemma_args_steps(k, args, i, acc, env, svc, w);
    if i < args.len() {
        assert(tame(around(m, r), args[i as int], svc, lex, ok, c));
        lemma_tame(k, args[i as int], env, svc, m, lex, ok, c, r);
        if let Ok(v) = reactive::outcome(k, args[i as int], env, svc, m) {
            assert forall|j: int| 0 <= j < acc.push(v).len() implies closed_value(
                around(m, r),
                #[trigger] acc.push(v)[j],
            ) by {
                if j < acc.len() {
                    assert(closed_value(around(m, r), acc[j]));
                }
            }
            lemma_args(k, args, i + 1, acc.push(v), env, svc, m, lex, ok, c, r);
        }
    }
}

/// The body of what is called is tame among its bindings.
proof fn lemma_entered(
    k: nat,
    func: ExprM<Symbol>,
    args: Seq<ExprM<Symbol>>,
    env: EnvM,
    svc: Symbol,
    m: ManagerM,
    lex: Set<Symbol>,
    ok: Set<Symbol>,
    c: Set<MemberM>,
    f: ValueM<Symbol>,
    vs: Seq<ValueM<Symbol>>,
    r: nat,
)
    requires
        tame(around(m, r), ExprM::Call { func: Box::new(func), args }, svc, lex, ok, c),
        env_ok(m, svc, env, lex, ok, r),
        closed_all(around(m, r), vs),
        vs.len() == args.len(),
        match func {
            ExprM::Func { params, body, return_ty } => f == (ValueM::Closure {
                params,
                body,
                env: taken(m, svc, env, params, *body),
                service_name: svc,
                return_ty,
            }),
            _ => closed_value(around(m, r), f),
        },
    ensures
        f matches ValueM::Closure { params, body, env: own, service_name, return_ty } ==> {
            let inner = model::bind_args(own, params, vs);
            match func {
                ExprM::Func { params: ps, body: b, return_ty: ty } => {
                    &&& service_name == svc
                    &&& env_ok(
                        m,
                        svc,
                        inner,
                        inner_lex(lex, params),
                        inner_ok(around(m, r), svc, ok, params),
                        r,
                    )
                    &&& tame(
                        around(m, r),
                        *body,
                        svc,
                        inner_lex(lex, params),
                        inner_ok(around(m, r), svc, ok, params),
                        c,
                    )
                },
                _ => {
                    let names = free_names(around(m, r), service_name, own, params);
                    &&& env_ok(m, service_name, inner, names, names, r)
                    &&& tame(around(m, r), *body, service_name, names, names, Set::empty())
                    &&& !around(m, r).far.contains(service_name)
                    &&& pure(m, Set::empty(), r)
                },
            }
        },
{
    if let ValueM::Closure { params, body, env: own, service_name, return_ty } = f {
        match func {
            ExprM::Func { params: ps, body: b, return_ty: ty } => {
                lemma_inner_call(m, svc, env, lex, ok, params, *body, vs, r);
            },
            _ => {
                lemma_closed_call(m, f, vs, r);
            },
        }
    }
}

proof fn lemma_read_tame_more(n: nat, k: nat, p: MemberM, m: ManagerM, c: Set<MemberM>, r: nat)
    requires
        pure(m, c, r),
        reactive::no_cache(m),
        c.contains(p),
        n <= k,
        reactive::enough(reactive::read(n, m, p)),
    ensures
        reactive::read(k, m, p) == reactive::read(n, m, p),
    decreases n, 0nat, 0nat,
{
    let w = World { m, t: None };
    reactive::lemma_no_steps(ExprM::Variable { name: p.1 }, seq![], p.1, p.0, w);
    if n > 0 {
        assert(!around(m, r).far.contains(p.0));
        reactive::lemma_read_steps(n, p.1, p.0, w);
        reactive::lemma_read_steps(k, p.1, p.0, w);
        if let Some(e) = model::def_of(m, p.0, p.1) {
            lemma_tame_more(
                (n - 1) as nat,
                (k - 1) as nat,
                e,
                seq![],
                p.0,
                m,
                Set::empty(),
                Set::empty(),
                c,
                r,
            );
        }
    }
}

/// More steps make no difference once there are enough.
pub proof fn lemma_tame_more(
    n: nat,
    k: nat,
    e: ExprM<Symbol>,
    env: EnvM,
    svc: Symbol,
    m: ManagerM,
    lex: Set<Symbol>,
    ok: Set<Symbol>,
    c: Set<MemberM>,
    r: nat,
)
    requires
        pure(m, c, r),
        reactive::no_cache(m),
        tame(around(m, r), e, svc, lex, ok, c),
        env_ok(m, svc, env, lex, ok, r),
        !around(m, r).far.contains(svc),
        n <= k,
        reactive::enough(reactive::outcome(n, e, env, svc, m)),
    ensures
        reactive::outcome(k, e, env, svc, m) == reactive::outcome(n, e, env, svc, m),
    decreases n, 0nat, 0nat,
{
    let w = World { m, t: None };
    let g = around(m, r);
    reactive::lemma_no_steps(e, env, svc, svc, w);
    if n > 0 {
        let a = (n - 1) as nat;
        let b = (k - 1) as nat;
        if !(e is Call) {
            reactive::lemma_eval_steps(n, e, env, svc, w);
            reactive::lemma_eval_steps(k, e, env, svc, w);
        }
        match e {
            ExprM::Variable { name } => {
                if model::env_get(env, name) is None {
                    if !lex.contains(name) {
                        lemma_read_tame_more(a, b, (svc, name), m, c, r);
                    } else {
                        lemma_unbound(a, name, svc, m, r);
                        lemma_unbound(b, name, svc, m, r);
                    }
                }
            },
            ExprM::MemberAccess { service_name, member_name } => {
                reactive::lemma_no_cached(m, (service_name, member_name));
                lemma_read_tame_more(a, b, (service_name, member_name), m, c, r);
            },
            ExprM::Unop { op, expr } => {
                lemma_tame(a, *expr, env, svc, m, lex, ok, c, r);
                lemma_tame(b, *expr, env, svc, m, lex, ok, c, r);
                lemma_tame_more(a, b, *expr, env, svc, m, lex, ok, c, r);
            },
            ExprM::Binop { op, expr1, expr2 } => {
                lemma_tame(a, *expr1, env, svc, m, lex, ok, c, r);
                lemma_tame(b, *expr1, env, svc, m, lex, ok, c, r);
                lemma_tame_more(a, b, *expr1, env, svc, m, lex, ok, c, r);
                if reactive::outcome(a, *expr1, env, svc, m) is Ok {
                    lemma_tame_more(a, b, *expr2, env, svc, m, lex, ok, c, r);
                }
            },
            ExprM::If { cond, expr1, expr2 } => {
                lemma_tame(a, *cond, env, svc, m, lex, ok, c, r);
                lemma_tame(b, *cond, env, svc, m, lex, ok, c, r);
                lemma_tame_more(a, b, *cond, env, svc, m, lex, ok, c, r);
                if let Ok(ValueM::Bool { val }) = reactive::outcome(a, *cond, env, svc, m) {
                    if val {
                        lemma_tame_more(a, b, *expr1, env, svc, m, lex, ok, c, r);
                    } else {
                        lemma_tame_more(a, b, *expr2, env, svc, m, lex, ok, c, r);
                    }
                }
            },
            ExprM::Call { func, args } => {
                lemma_call_steps(n, *func, args, env, svc, w);
                lemma_call_steps(k, *func, args, env, svc, w);
                lemma_callee(a, *func, args, env, svc, m, lex, ok, c, r);
                lemma_callee(b, *func, args, env, svc, m, lex, ok, c, r);
                if !(*func is Func) {
                    lemma_tame_more(a, b, *func, env, svc, m, lex, ok, c, r);
                }
                if let Ok(f) = reactive::outcome(a, *func, env, svc, m) {
                    lemma_args(a, args, 0, seq![], env, svc, m, lex, ok, c, r);
                    lemma_args(b, args, 0, seq![], env, svc, m, lex, ok, c, r);
                    lemma_args_more(a, b, args, 0, seq![], env, svc, m, lex, ok, c, r);
                    if let Ok(vs) = semantics::eval_args(a, args, 0, seq![], env, svc, w).0 {
                        lemma_entered(a, *func, args, env, svc, m, lex, ok, c, f, vs, r);
                        if let ValueM::Closure { params, body, env: own, service_name, return_ty } =
                            f {
                            let inner = model::bind_args(own, params, vs);
                            match *func {
                                ExprM::Func { params: ps, body: q, return_ty: ty } => {
                                    lemma_tame_more(
                                        a,
                                        b,
                                        *body,
                                        inner,
                                        svc,
                                        m,
                                        inner_lex(lex, params),
                                        inner_ok(g, svc, ok, params),
                                        c,
                                        r,
                                    );
                                },
                                _ => {
                                    let names = free_names(g, service_name, own, params);
                                    lemma_tame_more(
                                        a,
                                        b,
                                        *body,
                                        inner,
                                        service_name,
                                        m,
                                        names,
                                        names,
                                        Set::empty(),
                                        r,
                                    );
                                },
                            }
                        }
                    }
                }
            },
            _ => {},
        }
    }
}

proof fn lemma_args_more(
    a: nat,
    b: nat,
    args: Seq<ExprM<Symbol>>,
    i: nat,
    acc: Seq<ValueM<Symbol>>,
    env: EnvM,
    svc: Symbol,
    m: ManagerM,
    lex: Set<Symbol>,
    ok: Set<Symbol>,
    c: Set<MemberM>,
    r: nat,
)
    requires
        pure(m, c, r),
        reactive::no_cache(m),
        all_tame(around(m, r), args, svc, lex, ok, c),
        env_ok(m, svc, env, lex, ok, r),
        !around(m, r).far.contains(svc),
        i <= args.len(),
        a <= b,
        enough_all(semantics::eval_args(a, args, i, acc, env, svc, World { m, t: None }).0),
    ensures
        semantics::eval_args(b, args, i, acc, env, svc, World { m, t: None }).0
            == semantics::eval_args(a, args, i, acc, env, svc, World { m, t: None }).0,
    decreases a, 1nat, args.len() - i,
{
    let w = World { m, t: None };
    lemma_args_steps(a, args, i, acc, env, svc, w);
    lemma_args_steps(b, args, i, acc, env, svc, w);
    if i < args.len() {
        assert(tame(around(m, r), args[i as int], svc, lex, ok, c));
        lemma_tame(a, args[i as int], env, svc, m, lex, ok, c, r);
        lemma_tame(b, args[i as int], env, svc, m, lex, ok, c, r);
        lemma_tame_more(a, b, args[i as int], env, svc, m, lex, ok, c, r);
        if let Ok(v) = reactive::outcome(a, args[i as int], env, svc, m) {
            lemma_args_more(a, b, args, i + 1, acc.push(v), env, svc, m, lex, ok, c, r);
        }
    }
}

/// Whether two nodes have the same around their definitions, and the members in
/// `c` are the same, but for the values of definitions.
pub open spec fn steady(a: ManagerM, b: ManagerM, c: Set<MemberM>) -> bool {
    &&& around(b, 0) == around(a, 0)
    &&& b.interner == a.interner
    &&& forall|svc: Symbol| #[trigger]
        table::bound(b.services, svc) == table::bound(a.services, svc)
    &&& forall|svc: Symbol| #[trigger] model::net_id(b, svc) == model::net_id(a, svc)
    &&& forall|p: MemberM| #[trigger]
        c.contains(p) ==> model::def_of(b, p.0, p.1) == model::def_of(a, p.0, p.1) && (
        model::def_of(a, p.0, p.1) is None ==> reactive::kept_value(b, p) == reactive::kept_value(
            a,
            p,
        ))
}

/// What is taken along depends on which names are members alone.
proof fn lemma_captured_steady(
    a: ManagerM,
    b: ManagerM,
    svc: Symbol,
    env: EnvM,
    free: Set<Symbol>,
    n: nat,
    r: nat,
)
    requires
        around(b, r) == around(a, r),
    ensures
        model::captured(b, svc, env, free, n) == model::captured(a, svc, env, free, n),
    decreases n,
{
    if n > 0 {
        lemma_captured_steady(a, b, svc, env, free, (n - 1) as nat, r);
        let p = (svc, env[n - 1].0);
        assert(around(a, r).members.contains(p) == model::is_member(a, p.0, p.1));
        assert(around(b, r).members.contains(p) == model::is_member(b, p.0, p.1));
    }
}

proof fn lemma_read_steady(n: nat, p: MemberM, a: ManagerM, b: ManagerM, c: Set<MemberM>, r: nat)
    requires
        pure(a, c, r),
        reactive::no_cache(a),
        reactive::no_cache(b),
        steady(a, b, c),
        c.contains(p),
    ensures
        semantics::lookup(n, p.1, p.0, World { m: b, t: None }) == (
            reactive::read(n, a, p),
            World { m: b, t: None },
        ),
    decreases n, 0nat, 0nat,
{
    let wa = World { m: a, t: None };
    let wb = World { m: b, t: None };
    reactive::lemma_no_steps(ExprM::Variable { name: p.1 }, seq![], p.1, p.0, wa);
    reactive::lemma_no_steps(ExprM::Variable { name: p.1 }, seq![], p.1, p.0, wb);
    if n > 0 {
        assert(!around(a, r).far.contains(p.0));
        assert(!around(b, r).far.contains(p.0));
        reactive::lemma_read_steps(n, p.1, p.0, wa);
        reactive::lemma_read_steps(n, p.1, p.0, wb);
        if let Some(e) = model::def_of(a, p.0, p.1) {
            lemma_tame_steady(
                (n - 1) as nat,
                e,
                seq![],
                p.0,
                a,
                b,
                Set::empty(),
                Set::empty(),
                c,
                r,
            );
        } else {
            assert(reactive::read(n, a, p) == reactive::kept_value(a, p));
            assert(reactive::read(n, b, p) == reactive::kept_value(b, p));
        }
    }
}

/// A tame expression is evaluated in the same way in both nodes.
pub proof fn lemma_tame_steady(
    n: nat,
    e: ExprM<Symbol>,
    env: EnvM,
    svc: Symbol,
    a: ManagerM,
    b: ManagerM,
    lex: Set<Symbol>,
    ok: Set<Symbol>,
    c: Set<MemberM>,
    r: nat,
)
    requires
        pure(a, c, r),
        reactive::no_cache(a),
        reactive::no_cache(b),
        steady(a, b, c),
        tame(around(a, r), e, svc, lex, ok, c),
        env_ok(a, svc, env, lex, ok, r),
        !around(a, r).far.contains(svc),
    ensures
        semantics::eval(n, e, env, svc, World { m: b, t: None }) == (
            reactive::outcome(n, e, env, svc, a),
            World { m: b, t: None },
        ),
    decreases n, 0nat, 0nat,
{
    let wa = World { m: a, t: None };
    let wb = World { m: b, t: None };
    let g = around(a, r);
    reactive::lemma_no_steps(e, env, svc, svc, wa);
    reactive::lemma_no_steps(e, env, svc, svc, wb);
    if n > 0 {
        let k = (n - 1) as nat;
        if !(e is Call) {
            reactive::lemma_eval_steps(n, e, env, svc, wa);
            reactive::lemma_eval_steps(n, e, env, svc, wb);
        }
        match e {
            ExprM::Variable { name } => {
                if model::env_get(env, name) is None {
                    if !lex.contains(name) {
                        lemma_read_steady(k, (svc, name), a, b, c, r);
                    } else {
                        lemma_unbound(k, name, svc, a, r);
                        lemma_unbound(k, name, svc, b, r);
                        assert(table::bound(b.services, svc) == table::bound(a.services, svc));
                    }
                }
            },
            ExprM::MemberAccess { service_name, member_name } => {
                reactive::lemma_no_cached(a, (service_name, member_name));
                reactive::lemma_no_cached(b, (service_name, member_name));
                lemma_read_steady(k, (service_name, member_name), a, b, c, r);
            },
            ExprM::Unop { op, expr } => {
                lemma_tame(k, *expr, env, svc, a, lex, ok, c, r);
                lemma_tame_steady(k, *expr, env, svc, a, b, lex, ok, c, r);
            },
            ExprM::Binop { op, expr1, expr2 } => {
                lemma_tame(k, *expr1, env, svc, a, lex, ok, c, r);
                lemma_tame_steady(k, *expr1, env, svc, a, b, lex, ok, c, r);
                lemma_tame_steady(k, *expr2, env, svc, a, b, lex, ok, c, r);
            },
            ExprM::If { cond, expr1, expr2 } => {
                lemma_tame(k, *cond, env, svc, a, lex, ok, c, r);
                lemma_tame_steady(k, *cond, env, svc, a, b, lex, ok, c, r);
                lemma_tame_steady(k, *expr1, env, svc, a, b, lex, ok, c, r);
                lemma_tame_steady(k, *expr2, env, svc, a, b, lex, ok, c, r);
            },
            ExprM::Func { params, body, return_ty } => {
                lemma_captured_steady(
                    a,
                    b,
                    svc,
                    env,
                    read_write::free_vars(
                        *body,
                        Set::empty(),
                        Set::<Symbol>::empty().union(read_write::param_set(params)),
                    ),
                    env.len(),
                    r,
                );
            },
            ExprM::Action(stmts) => {
                lemma_captured_steady(
                    a,
                    b,
                    svc,
                    env,
                    read_write::free_vars(e, Set::empty(), Set::empty()),
                    env.len(),
                    r,
                );
                assert(model::net_id(b, svc) == model::net_id(a, svc));
            },
            ExprM::Call { func, args } => {
                lemma_call_steps(n, *func, args, env, svc, wa);
                lemma_call_steps(n, *func, args, env, svc, wb);
                lemma_callee(k, *func, args, env, svc, a, lex, ok, c, r);
                match *func {
                    ExprM::Func { params, body, return_ty } => {
                        reactive::lemma_no_steps(*func, env, svc, svc, wb);
                        if k > 0 {
                            reactive::lemma_eval_steps(k, *func, env, svc, wb);
                        }
                        lemma_captured_steady(
                            a,
                            b,
                            svc,
                            env,
                            read_write::free_vars(
                                *body,
                                Set::empty(),
                                Set::<Symbol>::empty().union(read_write::param_set(params)),
                            ),
                            env.len(),
                            r,
                        );
                    },
                    _ => {
                        lemma_tame_steady(k, *func, env, svc, a, b, lex, ok, c, r);
                    },
                }
                if let Ok(f) = reactive::outcome(k, *func, env, svc, a) {
                    lemma_args(k, args, 0, seq![], env, svc, a, lex, ok, c, r);
                    lemma_args_steady(k, args, 0, seq![], env, svc, a, b, lex, ok, c, r);
                    if let Ok(vs) = semantics::eval_args(k, args, 0, seq![], env, svc, wa).0 {
                        lemma_entered(k, *func, args, env, svc, a, lex, ok, c, f, vs, r);
                        if let ValueM::Closure { params, body, env: own, service_name, return_ty } =
                            f {
                            let inner = model::bind_args(own, params, vs);
                            match *func {
                                ExprM::Func { params: ps, body: q, return_ty: ty } => {
                                    lemma_tame_steady(
                                        k,
                                        *body,
                                        inner,
                                        svc,
                                        a,
                                        b,
                                        inner_lex(lex, params),
                                        inner_ok(g, svc, ok, params),
                                        c,
                                        r,
                                    );
                                },
                                _ => {
                                    let names = free_names(g, service_name, own, params);
                                    lemma_tame_steady(
                                        k,
                                        *body,
                                        inner,
                                        service_name,
                                        a,
                                        b,
                                        names,
                                        names,
                                        Set::empty(),
                                        r,
                                    );
                                },
                            }
                        }
                    }
                }
            },
            _ => {},
        }
    }
}

proof fn lemma_args_steady(
    k: nat,
    args: Seq<ExprM<Symbol>>,
    i: nat,
    acc: Seq<ValueM<Symbol>>,
    env: EnvM,
    svc: Symbol,
    a: ManagerM,
    b: ManagerM,
    lex: Set<Symbol>,
    ok: Set<Symbol>,
    c: Set<MemberM>,
    r: nat,
)
    requires
        pure(a, c, r),
        reactive::no_cache(a),
        reactive::no_cache(b),
        steady(a, b, c),
        all_tame(around(a, r), args, svc, lex, ok, c),
        env_ok(a, svc, env, lex, ok, r),
        !around(a, r).far.contains(svc),
        i <= args.len(),
    ensures
        semantics::eval_args(k, args, i, acc, env, svc, World { m: b, t: None }) == (
            semantics::eval_args(k, args, i, acc, env, svc, World { m: a, t: None }).0,
            World { m: b, t: None },
        ),
    decreases k, 1nat, args.len() - i,
{
    let wa = World { m: a, t: None };
    let wb = World { m: b, t: None };
    lemma_args_steps(k, args, i, acc, env, svc, wa);
    lemma_args_steps(k, args, i, acc, env, svc, wb);
    if i < args.len() {
        assert(tame(around(a, r), args[i as int], svc, lex, ok, c));
        lemma_tame(k, args[i as int], env, svc, a, lex, ok, c, r);
        lemma_tame_steady(k, args[i as int], env, svc, a, b, lex, ok, c, r);
        if let Ok(v) = reactive::outcome(k, args[i as int], env, svc, a) {
            lemma_args_steady(k, args, i + 1, acc.push(v), env, svc, a, b, lex, ok, c, r);
        }
    }
}

/// A function that reads no member, on such arguments, gives one thing, and none
/// that reads a member.
proof fn lemma_applied(n: nat, m: ManagerM, f: ValueM<Symbol>, vs: Seq<ValueM<Symbol>>, r: nat)
    requires
        reactive::no_cache(m),
        closed_value(around(m, r), f),
        closed_all(around(m, r), vs),
        r <= vs.len(),
    ensures
        f matches ValueM::Closure { params, body, env, service_name, return_ty } ==> {
            let x = reactive::outcome(
                n,
                *body,
                model::bind_args(env, params, vs),
                service_name,
                m,
            );
            reactive::enough(x) ==> x == applied(m, f, vs)
        },
        applied(m, f, vs) matches Ok(v) ==> closed_value(around(m, r), v),
{
    if let ValueM::Closure { params, body, env: own, service_name, return_ty } = f {
        let inner = model::bind_args(own, params, vs);
        let names = free_names(around(m, r), service_name, own, params);
        let none = Set::<MemberM>::empty();
        lemma_closed_call(m, f, vs, r);
        if exists|n: nat|
            reactive::enough(#[trigger] reactive::outcome(n, *body, inner, service_name, m)) {
            let k = choose|n: nat|
                reactive::enough(#[trigger] reactive::outcome(n, *body, inner, service_name, m));
            lemma_tame(k, *body, inner, service_name, m, names, names, none, r);
            if reactive::enough(reactive::outcome(n, *body, inner, service_name, m)) {
                if n <= k {
                    lemma_tame_more(n, k, *body, inner, service_name, m, names, names, none, r);
                } else {
                    lemma_tame_more(k, n, *body, inner, service_name, m, names, names, none, r);
                }
            }
        }
    }
}

/// It gives the same in both nodes.
proof fn lemma_applied_steady(
    a: ManagerM,
    b: ManagerM,
    f: ValueM<Symbol>,
    vs: Seq<ValueM<Symbol>>,
    r: nat,
)
    requires
        reactive::no_cache(a),
        reactive::no_cache(b),
        steady(a, b, Set::empty()),
        closed_value(around(a, r), f),
        closed_all(around(a, r), vs),
        r <= vs.len(),
    ensures
        applied(b, f, vs) == applied(a, f, vs),
{
    if let ValueM::Closure { params, body, env: own, service_name, return_ty } = f {
        let inner = model::bind_args(own, params, vs);
        let names = free_names(around(a, r), service_name, own, params);
        let none = Set::<MemberM>::empty();
        lemma_closed_call(a, f, vs, r);
        assert forall|n: nat| #[trigger]
            reactive::outcome(n, *body, inner, service_name, b) == reactive::outcome(
                n,
                *body,
                inner,
                service_name,
                a,
            ) by {
            lemma_tame_steady(n, *body, inner, service_name, a, b, names, names, none, r);
        }
        if exists|n: nat|
            reactive::enough(#[trigger] reactive::outcome(n, *body, inner, service_name, a)) {
            let k = choose|n: nat|
                reactive::enough(#[trigger] reactive::outcome(n, *body, inner, service_name, a));
            assert(reactive::enough(reactive::outcome(k, *body, inner, service_name, b)));
            let j = choose|n: nat|
                reactive::enough(#[trigger] reactive::outcome(n, *body, inner, service_name, b));
            lemma_applied(j, a, f, vs, r);
            assert(applied(b, f, vs) == reactive::outcome(j, *body, inner, service_name, b));
        } else {
            assert forall|n: nat| !reactive::enough(
                #[trigger] reactive::outcome(n, *body, inner, service_name, b),
            ) by {
                assert(!reactive::enough(
                    reactive::outcome(n, *body, inner, service_name, a),
                ));
            }
        }
    }
}

/// What arguments may read is what one of them may read.
proof fn lemma_reads_any(v: Seq<ExprM<Symbol>>, svc: Symbol, lex: Set<Symbol>, i: int)
    requires
        0 <= i < v.len(),
    ensures
        reads_in(v[i], svc, lex).subset_of(reads_any(v, svc, lex)),
{
    assert forall|p: MemberM| reads_in(v[i], svc, lex).contains(p) implies reads_any(
        v,
        svc,
        lex,
    ).contains(p) by {
        assert(reads_in(v[i], svc, lex).contains(p));
    }
}

/// Whether members are kept alike by both nodes, and hold no function that reads
/// a member.
pub open spec fn kept_alike(a: ManagerM, b: ManagerM, ps: Set<MemberM>, r: nat) -> bool {
    forall|p: MemberM| #[trigger]
        ps.contains(p) ==> reactive::kept_value(b, p) == reactive::kept_value(a, p) && (
        reactive::kept_value(a, p) matches Ok(v) ==> closed_value(around(a, r), v))
}

/// The value of a tame expression changes only with what it reads.
pub proof fn lemma_kept_steady(
    a: ManagerM,
    b: ManagerM,
    e: ExprM<Symbol>,
    svc: Symbol,
    env: EnvM,
    lex: Set<Symbol>,
    ok: Set<Symbol>,
    c: Set<MemberM>,
    r: nat,
)
    requires
        reactive::no_cache(a),
        reactive::no_cache(b),
        steady(a, b, Set::empty()),
        tame(around(a, r), e, svc, lex, ok, c),
        env_ok(a, svc, env, lex, ok, r),
        !around(a, r).far.contains(svc),
        kept_alike(a, b, reads_in(e, svc, lex), r),
    ensures
        kept_in(b, e, svc, env) == kept_in(a, e, svc, env),
        kept_in(a, e, svc, env) matches Ok(v) ==> closed_value(around(a, r), v),
    decreases e, 0nat,
{
    let g = around(a, r);
    match e {
        ExprM::Variable { name } => {
            if !lex.contains(name) {
                assert(reads_in(e, svc, lex).contains((svc, name)));
            } else if model::env_get(env, name) is None {
                lemma_unbound(0, name, svc, a, r);
                lemma_unbound(0, name, svc, b, r);
                assert(table::bound(b.services, svc) == table::bound(a.services, svc));
            }
        },
        ExprM::MemberAccess { service_name, member_name } => {
            assert(reads_in(e, svc, lex).contains((service_name, member_name)));
        },
        ExprM::Unop { op, expr } => {
            lemma_kept_steady(a, b, *expr, svc, env, lex, ok, c, r);
            if let Ok(x) = kept_in(a, *expr, svc, env) {
                lemma_plain_values(g, e, x, x);
            }
        },
        ExprM::Binop { op, expr1, expr2 } => {
            assert(kept_alike(a, b, reads_in(*expr1, svc, lex), r)) by {
                lemma_fewer_alike(a, b, reads_in(e, svc, lex), reads_in(*expr1, svc, lex), r);
            }
            assert(kept_alike(a, b, reads_in(*expr2, svc, lex), r)) by {
                lemma_fewer_alike(a, b, reads_in(e, svc, lex), reads_in(*expr2, svc, lex), r);
            }
            lemma_kept_steady(a, b, *expr1, svc, env, lex, ok, c, r);
            lemma_kept_steady(a, b, *expr2, svc, env, lex, ok, c, r);
            if let Ok(x) = kept_in(a, *expr1, svc, env) {
                if let Ok(y) = kept_in(a, *expr2, svc, env) {
                    lemma_plain_values(g, e, x, y);
                }
            }
        },
        ExprM::If { cond, expr1, expr2 } => {
            lemma_fewer_alike(a, b, reads_in(e, svc, lex), reads_in(*cond, svc, lex), r);
            lemma_fewer_alike(a, b, reads_in(e, svc, lex), reads_in(*expr1, svc, lex), r);
            lemma_fewer_alike(a, b, reads_in(e, svc, lex), reads_in(*expr2, svc, lex), r);
            lemma_kept_steady(a, b, *cond, svc, env, lex, ok, c, r);
            lemma_kept_steady(a, b, *expr1, svc, env, lex, ok, c, r);
            lemma_kept_steady(a, b, *expr2, svc, env, lex, ok, c, r);
        },
        ExprM::Func { params, body, return_ty } => {
            lemma_captured_steady(
                a,
                b,
                svc,
                env,
                read_write::free_vars(
                    *body,
                    Set::empty(),
                    Set::<Symbol>::empty().union(read_write::param_set(params)),
                ),
                env.len(),
                r,
            );
            lemma_closed_func(a, svc, env, lex, ok, e, c, r);
        },
        ExprM::Action(stmts) => {
            lemma_captured_steady(
                a,
                b,
                svc,
                env,
                read_write::free_vars(e, Set::empty(), Set::empty()),
                env.len(),
                r,
            );
            assert(model::net_id(b, svc) == model::net_id(a, svc));
        },
        ExprM::Call { func, args } => {
            lemma_fewer_alike(a, b, reads_in(e, svc, lex), reads_any(args, svc, lex), r);
            lemma_all_kept_steady(a, b, args, svc, env, lex, ok, c, args.len(), r);
            let all = kept_all(a, args, svc, env, args.len());
            match *func {
                ExprM::Func { params, body, return_ty } => {
                    let lex2 = inner_lex(lex, params);
                    lemma_fewer_alike(a, b, reads_in(e, svc, lex), reads_in(*body, svc, lex2), r);
                    lemma_captured_steady(
                        a,
                        b,
                        svc,
                        env,
                        read_write::free_vars(
                            *body,
                            Set::empty(),
                            Set::<Symbol>::empty().union(read_write::param_set(params)),
                        ),
                        env.len(),
                        r,
                    );
                    if let Ok(vs) = all {
                        lemma_inner_call(a, svc, env, lex, ok, params, *body, vs, r);
                        lemma_kept_steady(
                            a,
                            b,
                            *body,
                            svc,
                            model::bind_args(taken(a, svc, env, params, *body), params, vs),
                            lex2,
                            inner_ok(g, svc, ok, params),
                            c,
                            r,
                        );
                    }
                },
                _ => {
                    lemma_fewer_alike(a, b, reads_in(e, svc, lex), reads_in(*func, svc, lex), r);
                    lemma_kept_steady(a, b, *func, svc, env, lex, ok, c, r);
                    if let Ok(f) = kept_in(a, *func, svc, env) {
                        if let Ok(vs) = all {
                            lemma_applied(0, a, f, vs, r);
                            lemma_applied_steady(a, b, f, vs, r);
                        }
                    }
                },
            }
        },
        _ => {},
    }
}

proof fn lemma_fewer_alike(a: ManagerM, b: ManagerM, ps: Set<MemberM>, qs: Set<MemberM>, r: nat)
    requires
        kept_alike(a, b, ps, r),
    ensures
        qs.subset_of(ps) ==> kept_alike(a, b, qs, r),
{
    if qs.subset_of(ps) {
        assert forall|p: MemberM| #[trigger] qs.contains(p) implies reactive::kept_value(b, p)
            == reactive::kept_value(a, p) && (reactive::kept_value(a, p) matches Ok(v)
            ==> closed_value(around(a, r), v)) by {
            assert(ps.contains(p));
        }
    }
}

proof fn lemma_all_kept_steady(
    a: ManagerM,
    b: ManagerM,
    args: Seq<ExprM<Symbol>>,
    svc: Symbol,
    env: EnvM,
    lex: Set<Symbol>,
    ok: Set<Symbol>,
    c: Set<MemberM>,
    n: nat,
    r: nat,
)
    requires
        reactive::no_cache(a),
        reactive::no_cache(b),
        steady(a, b, Set::empty()),
        all_tame(around(a, r), args, svc, lex, ok, c),
        env_ok(a, svc, env, lex, ok, r),
        !around(a, r).far.contains(svc),
        kept_alike(a, b, reads_any(args, svc, lex), r),
        n <= args.len(),
    ensures
        kept_all(b, args, svc, env, n) == kept_all(a, args, svc, env, n),
        kept_all(a, args, svc, env, n) matches Ok(vs) ==> vs.len() == n && closed_all(
            around(a, r),
            vs,
        ),
    decreases args, n,
{
    if n > 0 {
        let i = n - 1;
        lemma_all_kept_steady(a, b, args, svc, env, lex, ok, c, i as nat, r);
        assert(tame(around(a, r), args[i], svc, lex, ok, c));
        lemma_reads_any(args, svc, lex, i);
        lemma_fewer_alike(a, b, reads_any(args, svc, lex), reads_in(args[i], svc, lex), r);
        lemma_kept_steady(a, b, args[i], svc, env, lex, ok, c, r);
        if let Ok(acc) = kept_all(a, args, svc, env, i as nat) {
            if let Ok(v) = kept_in(a, args[i], svc, env) {
                assert forall|j: int| 0 <= j < acc.push(v).len() implies closed_value(
                    around(a, r),
                    #[trigger] acc.push(v)[j],
                ) by {
                    if j < acc.len() {
                        assert(closed_value(around(a, r), acc[j]));
                    }
                }
            }
        }
    }
}

/// Whether no member that may be read is stale.
pub open spec fn none_stale(m: ManagerM, ps: Set<MemberM>) -> bool {
    forall|p: MemberM| #[trigger] ps.contains(p) ==> !reactive::stale(m, p)
}

/// Whether bindings `loc` stand for the bindings `env`: they are these, or these
/// are of members alone, as they are kept.
pub open spec fn standing(m: ManagerM, svc: Symbol, env: EnvM, loc: EnvM, lex: Set<Symbol>) -> bool {
    env == loc || (loc.len() == 0 && lex == Set::<Symbol>::empty() && reactive::faithful(
        m,
        svc,
        env,
    ))
}

/// What is taken along of the one is taken along of the other.
proof fn lemma_standing(
    m: ManagerM,
    svc: Symbol,
    env: EnvM,
    loc: EnvM,
    lex: Set<Symbol>,
    free: Set<Symbol>,
)
    requires
        standing(m, svc, env, loc, lex),
    ensures
        model::captured(m, svc, env, free, env.len()) == model::captured(
            m,
            svc,
            loc,
            free,
            loc.len(),
        ),
{
    if env != loc {
        reactive::lemma_captures_nothing(m, svc, env, free, env.len());
    }
}

/// Where no member that is read is stale, evaluating a tame expression gives
/// what the kept values give.
pub proof fn lemma_tame_kept(
    n: nat,
    e: ExprM<Symbol>,
    env: EnvM,
    loc: EnvM,
    svc: Symbol,
    m: ManagerM,
    lex: Set<Symbol>,
    ok: Set<Symbol>,
    c: Set<MemberM>,
    r: nat,
)
    requires
        reactive::calm_defs(m),
        reactive::all_readable(m),
        pure(m, c, r),
        reactive::no_cache(m),
        tame(around(m, r), e, svc, lex, ok, c),
        env_ok(m, svc, env, lex, ok, r),
        !around(m, r).far.contains(svc),
        standing(m, svc, env, loc, lex),
        none_stale(m, reads_in(e, svc, lex)),
    ensures
        reactive::enough(reactive::outcome(n, e, env, svc, m)) ==> reactive::outcome(
            n,
            e,
            env,
            svc,
            m,
        ) == kept_in(m, e, svc, loc),
    decreases n, 0nat, 0nat,
{
    let w = World { m, t: None };
    let g = around(m, r);
    reactive::lemma_no_steps(e, env, svc, svc, w);
    if n > 0 {
        let k = (n - 1) as nat;
        if !(e is Call) {
            reactive::lemma_eval_steps(n, e, env, svc, w);
        }
        match e {
            ExprM::Variable { name } => {
                if env == loc {
                    if model::env_get(env, name) is None {
                        if !lex.contains(name) {
                            assert(reads_in(e, svc, lex).contains((svc, name)));
                            assert(c.contains((svc, name)));
                            reactive::lemma_read_fresh(k, m, (svc, name));
                        } else {
                            lemma_unbound(k, name, svc, m, r);
                        }
                    }
                } else {
                    assert(model::env_get(loc, name) is None);
                    assert(reads_in(e, svc, lex).contains((svc, name)));
                    assert(c.contains((svc, name)));
                    if model::env_get(env, name) is None {
                        reactive::lemma_read_fresh(k, m, (svc, name));
                    }
                }
            },
            ExprM::MemberAccess { service_name, member_name } => {
                let p = (service_name, member_name);
                assert(reads_in(e, svc, lex).contains(p));
                assert(c.contains(p));
                reactive::lemma_no_cached(m, p);
                reactive::lemma_read_fresh(k, m, p);
            },
            ExprM::Unop { op, expr } => {
                lemma_tame(k, *expr, env, svc, m, lex, ok, c, r);
                lemma_tame_kept(k, *expr, env, loc, svc, m, lex, ok, c, r);
            },
            ExprM::Binop { op, expr1, expr2 } => {
                lemma_fewer_stale(m, reads_in(e, svc, lex), reads_in(*expr1, svc, lex));
                lemma_fewer_stale(m, reads_in(e, svc, lex), reads_in(*expr2, svc, lex));
                lemma_tame(k, *expr1, env, svc, m, lex, ok, c, r);
                lemma_tame_kept(k, *expr1, env, loc, svc, m, lex, ok, c, r);
                lemma_tame_kept(k, *expr2, env, loc, svc, m, lex, ok, c, r);
            },
            ExprM::If { cond, expr1, expr2 } => {
                lemma_fewer_stale(m, reads_in(e, svc, lex), reads_in(*cond, svc, lex));
                lemma_fewer_stale(m, reads_in(e, svc, lex), reads_in(*expr1, svc, lex));
                lemma_fewer_stale(m, reads_in(e, svc, lex), reads_in(*expr2, svc, lex));
                lemma_tame(k, *cond, env, svc, m, lex, ok, c, r);
                lemma_tame_kept(k, *cond, env, loc, svc, m, lex, ok, c, r);
                lemma_tame_kept(k, *expr1, env, loc, svc, m, lex, ok, c, r);
                lemma_tame_kept(k, *expr2, env, loc, svc, m, lex, ok, c, r);
            },
            ExprM::Func { params, body, return_ty } => {
                lemma_standing(
                    m,
                    svc,
                    env,
                    loc,
                    lex,
                    read_write::free_vars(
                        *body,
                        Set::empty(),
                        Set::<Symbol>::empty().union(read_write::param_set(params)),
                    ),
                );
            },
            ExprM::Action(stmts) => {
                lemma_standing(
                    m,
                    svc,
                    env,
                    loc,
                    lex,
                    read_write::free_vars(e, Set::empty(), Set::empty()),
                );
            },
            ExprM::Call { func, args } => {
                lemma_call_steps(n, *func, args, env, svc, w);
                lemma_callee(k, *func, args, env, svc, m, lex, ok, c, r);
                lemma_fewer_stale(m, reads_in(e, svc, lex), reads_any(args, svc, lex));
                if !(*func is Func) {
                    lemma_fewer_stale(m, reads_in(e, svc, lex), reads_in(*func, svc, lex));
                    lemma_tame_kept(k, *func, env, loc, svc, m, lex, ok, c, r);
                }
                if let Ok(f) = reactive::outcome(k, *func, env, svc, m) {
                    lemma_args(k, args, 0, seq![], env, svc, m, lex, ok, c, r);
                    lemma_args_kept(k, args, 0, seq![], env, loc, svc, m, lex, ok, c, r);
                    if let Ok(vs) = semantics::eval_args(k, args, 0, seq![], env, svc, w).0 {
                        lemma_entered(k, *func, args, env, svc, m, lex, ok, c, f, vs, r);
                        match *func {
                            ExprM::Func { params, body, return_ty } => {
                                let lex2 = inner_lex(lex, params);
                                let own = taken(m, svc, env, params, *body);
                                let inner = model::bind_args(own, params, vs);
                                lemma_standing(
                                    m,
                                    svc,
                                    env,
                                    loc,
                                    lex,
                                    read_write::free_vars(
                                        *body,
                                        Set::empty(),
                                        Set::<Symbol>::empty().union(
                                            read_write::param_set(params),
                                        ),
                                    ),
                                );
                                lemma_fewer_stale(
                                    m,
                                    reads_in(e, svc, lex),
                                    reads_in(*body, svc, lex2),
                                );
                                lemma_tame_kept(
                                    k,
                                    *body,
                                    inner,
                                    inner,
                                    svc,
                                    m,
                                    lex2,
                                    inner_ok(g, svc, ok, params),
                                    c,
                                    r,
                                );
                            },
                            _ => {
                                lemma_applied(k, m, f, vs, r);
                            },
                        }
                    }
                }
            },
            _ => {},
        }
    }
}

proof fn lemma_fewer_stale(m: ManagerM, ps: Set<MemberM>, qs: Set<MemberM>)
    requires
        none_stale(m, ps),
    ensures
        qs.subset_of(ps) ==> none_stale(m, qs),
{
    if qs.subset_of(ps) {
        assert forall|p: MemberM| #[trigger] qs.contains(p) implies !reactive::stale(m, p) by {
            assert(ps.contains(p));
        }
    }
}

proof fn lemma_args_kept(
    k: nat,
    args: Seq<ExprM<Symbol>>,
    i: nat,
    acc: Seq<ValueM<Symbol>>,
    env: EnvM,
    loc: EnvM,
    svc: Symbol,
    m: ManagerM,
    lex: Set<Symbol>,
    ok: Set<Symbol>,
    c: Set<MemberM>,
    r: nat,
)
    requires
        reactive::calm_defs(m),
        reactive::all_readable(m),
        pure(m, c, r),
        reactive::no_cache(m),
        all_tame(around(m, r), args, svc, lex, ok, c),
        env_ok(m, svc, env, lex, ok, r),
        !around(m, r).far.contains(svc),
        standing(m, svc, env, loc, lex),
        none_stale(m, reads_any(args, svc, lex)),
        i <= args.len(),
        kept_all(m, args, svc, loc, i) == Ok::<Seq<ValueM<Symbol>>, ErrM>(acc),
    ensures
        enough_all(semantics::eval_args(k, args, i, acc, env, svc, World { m, t: None }).0)
            ==> semantics::eval_args(k, args, i, acc, env, svc, World { m, t: None }).0
            == kept_all(m, args, svc, loc, args.len()),
    decreases k, 1nat, args.len() - i,
{
    let w = World { m, t: None };
    lemma_args_steps(k, args, i, acc, env, svc, w);
    if i < args.len() {
        let e = args[i as int];
        assert(tame(around(m, r), e, svc, lex, ok, c));
        lemma_reads_any(args, svc, lex, i as int);
        lemma_fewer_stale(m, reads_any(args, svc, lex), reads_in(e, svc, lex));
        lemma_tame(k, e, env, svc, m, lex, ok, c, r);
        lemma_tame_kept(k, e, env, loc, svc, m, lex, ok, c, r);
        match reactive::outcome(k, e, env, svc, m) {
            Ok(v) => {
                lemma_args_kept(k, args, i + 1, acc.push(v), env, loc, svc, m, lex, ok, c, r);
            },
            Err(x) => {
                if x != ErrM::DepthExceeded {
                    lemma_kept_stops(m, args, svc, loc, i + 1, args.len(), x);
                }
            },
        }
    }
}

/// Where one argument fails, all do.
proof fn lemma_kept_stops(
    m: ManagerM,
    args: Seq<ExprM<Symbol>>,
    svc: Symbol,
    env: EnvM,
    i: nat,
    n: nat,
    x: ErrM,
)
    requires
        i <= n <= args.len(),
        kept_all(m, args, svc, env, i) == Err::<Seq<ValueM<Symbol>>, ErrM>(x),
    ensures
        kept_all(m, args, svc, env, n) == Err::<Seq<ValueM<Symbol>>, ErrM>(x),
    decreases n,
{
    if i < n {
        lemma_kept_stops(m, args, svc, env, i, (n - 1) as nat, x);
    }
}

/// A tame expression reads members of the pure set alone.
pub proof fn lemma_reads_pure(
    g: Around,
    e: ExprM<Symbol>,
    svc: Symbol,
    lex: Set<Symbol>,
    ok: Set<Symbol>,
    c: Set<MemberM>,
)
    requires
        tame(g, e, svc, lex, ok, c),
    ensures
        reads_in(e, svc, lex).subset_of(c),
    decreases e,
{
    match e {
        ExprM::Unop { op, expr } => {
            lemma_reads_pure(g, *expr, svc, lex, ok, c);
        },
        ExprM::Binop { op, expr1, expr2 } => {
            lemma_reads_pure(g, *expr1, svc, lex, ok, c);
            lemma_reads_pure(g, *expr2, svc, lex, ok, c);
        },
        ExprM::If { cond, expr1, expr2 } => {
            lemma_reads_pure(g, *cond, svc, lex, ok, c);
            lemma_reads_pure(g, *expr1, svc, lex, ok, c);
            lemma_reads_pure(g, *expr2, svc, lex, ok, c);
        },
        ExprM::Call { func, args } => {
            assert(all_tame(g, args, svc, lex, ok, c));
            assert forall|p: MemberM| reads_any(args, svc, lex).contains(p) implies c.contains(
                p,
            ) by {
                let i = choose|i: int|
                    0 <= i < args.len() && reads_in(#[trigger] args[i], svc, lex).contains(p);
                assert(tame(g, args[i], svc, lex, ok, c));
                lemma_reads_pure(g, args[i], svc, lex, ok, c);
            }
            match *func {
                ExprM::Func { params, body, return_ty } => {
                    lemma_reads_pure(
                        g,
                        *body,
                        svc,
                        inner_lex(lex, params),
                        inner_ok(g, svc, ok, params),
                        c,
                    );
                },
                _ => {
                    lemma_reads_pure(g, *func, svc, lex, ok, c);
                },
            }
        },
        _ => {},
    }
}

/// What an expression reads where nothing is bound.
pub proof fn lemma_same_reads(e: ExprM<Symbol>, svc: Symbol)
    ensures
        reactive::reads(e, svc) == reads_in(e, svc, Set::empty()),
    decreases e,
{
    match e {
        ExprM::Unop { op, expr } => {
            lemma_same_reads(*expr, svc);
        },
        ExprM::Binop { op, expr1, expr2 } => {
            lemma_same_reads(*expr1, svc);
            lemma_same_reads(*expr2, svc);
        },
        ExprM::If { cond, expr1, expr2 } => {
            lemma_same_reads(*cond, svc);
            lemma_same_reads(*expr1, svc);
            lemma_same_reads(*expr2, svc);
        },
        _ => {},
    }
}

/// The value of an expression where nothing is bound.
pub proof fn lemma_same_value(m: ManagerM, e: ExprM<Symbol>, svc: Symbol)
    ensures
        reactive::from_kept(m, e, svc) == kept_in(m, e, svc, seq![]),
    decreases e,
{
    match e {
        ExprM::Unop { op, expr } => {
            lemma_same_value(m, *expr, svc);
        },
        ExprM::Binop { op, expr1, expr2 } => {
            lemma_same_value(m, *expr1, svc);
            lemma_same_value(m, *expr2, svc);
        },
        ExprM::If { cond, expr1, expr2 } => {
            lemma_same_value(m, *cond, svc);
            lemma_same_value(m, *expr1, svc);
            lemma_same_value(m, *expr2, svc);
        },
        _ => {},
    }
}

/// What an expression may read is written in it: a variable that is not bound,
/// or a member that it refers to. So a definition with calls is told of changes
/// of all that it may read.
pub proof fn law_reads_are_written(
    e: ExprM<Symbol>,
    svc: Symbol,
    lex: Set<Symbol>,
    reactive_names: Set<Symbol>,
    p: MemberM,
)
    requires
        reads_in(e, svc, lex).contains(p),
    ensures
        (p.0 == svc && read_write::free_vars(e, reactive_names, lex).contains(p.1))
            || read_write::member_refs(e).contains(p),
    decreases e, 0nat,
{
    reveal(read_write::free_vars);
    reveal(read_write::free_in_any);
    reveal(read_write::member_refs);
    reveal(read_write::refs_of_all);
    match e {
        ExprM::MemberAccess { service_name, member_name } => {
            assert(read_write::member_refs(e)[0] == p);
        },
        ExprM::Unop { op, expr } => {
            law_reads_are_written(*expr, svc, lex, reactive_names, p);
        },
        ExprM::Binop { op, expr1, expr2 } => {
            let a = read_write::member_refs(*expr1);
            let b = read_write::member_refs(*expr2);
            if reads_in(*expr1, svc, lex).contains(p) {
                law_reads_are_written(*expr1, svc, lex, reactive_names, p);
            } else {
                law_reads_are_written(*expr2, svc, lex, reactive_names, p);
            }
            lemma_joined(a, b, p);
        },
        ExprM::If { cond, expr1, expr2 } => {
            let a = read_write::member_refs(*cond);
            let b = read_write::member_refs(*expr1);
            let c = read_write::member_refs(*expr2);
            if reads_in(*cond, svc, lex).contains(p) {
                law_reads_are_written(*cond, svc, lex, reactive_names, p);
            } else if reads_in(*expr1, svc, lex).contains(p) {
                law_reads_are_written(*expr1, svc, lex, reactive_names, p);
            } else {
                law_reads_are_written(*expr2, svc, lex, reactive_names, p);
            }
            lemma_joined(a, b, p);
            lemma_joined(a + b, c, p);
        },
        ExprM::Call { func, args } => {
            let a = read_write::member_refs(*func);
            let b = read_write::refs_of_all(args, args.len());
            lemma_joined(a, b, p);
            if reads_any(args, svc, lex).contains(p) {
                let i = choose|i: int|
                    0 <= i < args.len() && reads_in(#[trigger] args[i], svc, lex).contains(p);
                law_reads_are_written(args[i], svc, lex, reactive_names, p);
                if read_write::member_refs(args[i]).contains(p) {
                    lemma_refs_at(args, i, args.len(), p);
                } else {
                    let f = read_write::free_vars(args[i], reactive_names, lex);
                    assert(f.contains(p.1));
                    assert(read_write::free_in_any(args, reactive_names, lex).contains(p.1));
                }
            } else {
                match *func {
                    ExprM::Func { params, body, return_ty } => {
                        law_reads_are_written(
                            *body,
                            svc,
                            inner_lex(lex, params),
                            reactive_names,
                            p,
                        );
                        assert(read_write::member_refs(*func) == read_write::member_refs(*body));
                        assert(read_write::free_vars(*func, reactive_names, lex)
                            == read_write::free_vars(
                            *body,
                            reactive_names,
                            inner_lex(lex, params),
                        ));
                    },
                    _ => {
                        law_reads_are_written(*func, svc, lex, reactive_names, p);
                    },
                }
            }
        },
        _ => {},
    }
}

/// What one of several expressions refers to, they refer to.
proof fn lemma_refs_at(v: Seq<ExprM<Symbol>>, i: int, n: nat, p: MemberM)
    requires
        0 <= i < n <= v.len(),
        read_write::member_refs(v[i]).contains(p),
    ensures
        read_write::refs_of_all(v, n).contains(p),
    decreases n,
{
    reveal(read_write::refs_of_all);
    reveal(read_write::member_refs);
    let rest = read_write::refs_of_all(v, (n - 1) as nat);
    lemma_joined(rest, read_write::member_refs(v[n - 1]), p);
    if i < n - 1 {
        lemma_refs_at(v, i, (n - 1) as nat, p);
    }
}

/// What two sequences hold, one after the other.
pub proof fn lemma_joined<T>(a: Seq<T>, b: Seq<T>, x: T)
    ensures
        (a + b).contains(x) <==> a.contains(x) || b.contains(x),
{
    let c = a + b;
    if a.contains(x) {
        let i = choose|i: int| 0 <= i < a.len() && a[i] == x;
        assert(c[i] == x);
    }
    if b.contains(x) {
        let i = choose|i: int| 0 <= i < b.len() && b[i] == x;
        assert(c[a.len() + i] == x);
    }
    if c.contains(x) {
        let i = choose|i: int| 0 <= i < c.len() && c[i] == x;
        if i < a.len() {
            assert(a[i] == x);
        } else {
            assert(b[i - a.len()] == x);
        }
    }
}

} // verus!
