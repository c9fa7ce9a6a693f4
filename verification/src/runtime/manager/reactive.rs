//! Definitions follow the variables that they use.
//!
//! What is shown here is on definitions that use no member of another node, and
//! call no functions but those that are written in them or read no member. Other
//! functions read members that are not written in the definition, so that nothing
//! tells the definition of their changes.

use crate::runtime::ast::model::{ExprM, ValueM};
use crate::runtime::interner::Symbol;
use crate::runtime::interpreter::evaluator::ErrM;
use crate::runtime::manager::calls;
use crate::runtime::manager::laws;
use crate::runtime::manager::model;
use crate::runtime::manager::model::{EnvM, KeyM, ManagerM, ServiceM, World};
use crate::runtime::manager::semantics;
use crate::runtime::manager::state;
use crate::runtime::manager::transactions;
use crate::runtime::semantic_analysis::var_analysis::read_write;
use crate::runtime::table;
use crate::runtime::txn::{TxnId, TxnM, VarStateM};
use vstd::prelude::*;

verus! {

/// A member of a service.
pub type MemberM = (Symbol, Symbol);

/// Whether evaluating an expression calls no function.
pub open spec fn call_free(e: ExprM<Symbol>) -> bool
    decreases e,
{
    match e {
        ExprM::Call { .. } => false,
        ExprM::Unop { op, expr } => call_free(*expr),
        ExprM::Binop { op, expr1, expr2 } => call_free(*expr1) && call_free(*expr2),
        ExprM::If { cond, expr1, expr2 } => call_free(*cond) && call_free(*expr1) && call_free(
            *expr2,
        ),
        _ => true,
    }
}

/// The members that evaluating an expression of the service may read.
pub open spec fn reads(e: ExprM<Symbol>, svc: Symbol) -> Set<MemberM>
    decreases e,
{
    match e {
        ExprM::Variable { name } => set![(svc, name)],
        ExprM::MemberAccess { service_name, member_name } => set![(service_name, member_name)],
        ExprM::Unop { op, expr } => reads(*expr, svc),
        ExprM::Binop { op, expr1, expr2 } => reads(*expr1, svc).union(reads(*expr2, svc)),
        ExprM::If { cond, expr1, expr2 } => reads(*cond, svc).union(reads(*expr1, svc)).union(
            reads(*expr2, svc),
        ),
        ExprM::Call { .. } => calls::reads_in(e, svc, Set::empty()),
        _ => Set::empty(),
    }
}

/// Whether an expression reads no member of another node.
pub open spec fn reads_here(m: ManagerM, e: ExprM<Symbol>, svc: Symbol) -> bool {
    forall|p: MemberM| #[trigger]
        reads(e, svc).contains(p) ==> !table::bound(m.remote_services, p.0)
}

/// Whether an expression of the service calls no function, or none but those that
/// are written in it or read no member.
pub open spec fn good(m: ManagerM, e: ExprM<Symbol>, svc: Symbol) -> bool {
    call_free(e) || calls::tame_here(m, e, svc)
}

/// Whether no definition of the node calls a function.
pub open spec fn simple(m: ManagerM) -> bool {
    forall|svc: Symbol, d: Symbol|
        #![trigger model::def_of(m, svc, d)]
        model::def_of(m, svc, d) matches Some(e) ==> call_free(e)
}

/// Whether all definitions of the node read members of this node alone and call
/// no functions but those that are written in them or read no member, and
/// nothing was cached for them.
pub open spec fn calm(m: ManagerM) -> bool {
    &&& m.reactive_cache is None
    &&& forall|svc: Symbol, d: Symbol|
        #![trigger model::def_of(m, svc, d)]
        model::def_of(m, svc, d) matches Some(e) ==> good(m, e, svc) && reads_here(m, e, svc)
            && !table::bound(m.remote_services, svc) && model::cache_of(
            table::get(m.services, svc)->Some_0,
            d,
        ).len() == 0
}

/// Whether names are unique and every definition has a value.
pub open spec fn shaped(m: ManagerM) -> bool {
    &&& laws::well_formed(m)
    &&& forall|svc: Symbol, d: Symbol|
        #![trigger model::def_of(m, svc, d)]
        model::def_of(m, svc, d) is Some ==> model::var_of(m, svc, d) is Some
}

/// Whether every definition is told of changes of the members that it reads.
pub open spec fn listening(m: ManagerM) -> bool {
    forall|svc: Symbol, d: Symbol, p: MemberM|
        #![trigger model::def_of(m, svc, d), model::listeners_of(m, p.0, p.1)]
        model::def_of(m, svc, d) matches Some(e) && reads(e, svc).contains(p)
            ==> model::listeners_of(m, p.0, p.1).contains((model::net_id(m, svc), d))
}

/// The value that is kept of a member.
pub open spec fn kept_value(m: ManagerM, p: MemberM) -> Result<ValueM<Symbol>, ErrM> {
    match model::var_of(m, p.0, p.1) {
        Some(v) => Ok(v.value),
        None => Err(model::missing(m, p.1, p.0)),
    }
}

/// What reading a member gives.
pub open spec fn read(n: nat, m: ManagerM, p: MemberM) -> Result<ValueM<Symbol>, ErrM> {
    semantics::lookup(n, p.1, p.0, World { m, t: None }).0
}

/// The value of an expression, out of the values that are kept of the members
/// that it reads.
pub open spec fn from_kept(m: ManagerM, e: ExprM<Symbol>, svc: Symbol) -> Result<
    ValueM<Symbol>,
    ErrM,
>
    decreases e,
{
    match e {
        ExprM::Literal { val } => Ok(val),
        ExprM::Variable { name } => kept_value(m, (svc, name)),
        ExprM::MemberAccess { service_name, member_name } => kept_value(
            m,
            (service_name, member_name),
        ),
        ExprM::Unop { op, expr } => match from_kept(m, *expr, svc) {
            Err(x) => Err(x),
            Ok(a) => model::unop(op, a),
        },
        ExprM::Binop { op, expr1, expr2 } => match from_kept(m, *expr1, svc) {
            Err(x) => Err(x),
            Ok(a) => match from_kept(m, *expr2, svc) {
                Err(x) => Err(x),
                Ok(b) => model::binop(op, a, b),
            },
        },
        ExprM::If { cond, expr1, expr2 } => match from_kept(m, *cond, svc) {
            Err(x) => Err(x),
            Ok(ValueM::Bool { val }) => if val {
                from_kept(m, *expr1, svc)
            } else {
                from_kept(m, *expr2, svc)
            },
            Ok(_) => Err(ErrM::TypeError("Condition must be boolean"@)),
        },
        ExprM::Func { params, body, return_ty } => Ok(
            ValueM::Closure { params, body, env: seq![], service_name: svc, return_ty },
        ),
        ExprM::Action(stmts) => Ok(
            ValueM::ActionClosure { stmts, env: seq![], service_net_id: model::net_id(m, svc) },
        ),
        ExprM::Call { .. } => calls::kept_in(m, e, svc, seq![]),
        _ => Err(ErrM::NotImplemented),
    }
}

/// Whether the value that is kept of a definition is that of its expression.
pub open spec fn settled(m: ManagerM, svc: Symbol, d: Symbol) -> bool {
    model::def_of(m, svc, d) matches Some(e) ==> (from_kept(m, e, svc) matches Ok(v)
        ==> kept_value(m, (svc, d)) == Ok::<ValueM<Symbol>, ErrM>(v))
}

/// Whether all definitions are settled.
pub open spec fn all_settled(m: ManagerM) -> bool {
    forall|svc: Symbol, d: Symbol| #[trigger] settled(m, svc, d)
}

/// Whether a definition can be read.
pub open spec fn readable(m: ManagerM, p: MemberM) -> bool {
    exists|n: nat| (#[trigger] read(n, m, p)) is Ok
}

/// Whether all definitions can be read.
pub open spec fn all_readable(m: ManagerM) -> bool {
    forall|svc: Symbol, d: Symbol|
        #![trigger model::def_of(m, svc, d)]
        model::def_of(m, svc, d) is Some ==> readable(m, (svc, d))
}

/// Whether reading a member gives another value than the one that is kept.
pub open spec fn stale(m: ManagerM, p: MemberM) -> bool {
    exists|n: nat| (#[trigger] read(n, m, p)) is Ok && read(n, m, p) != kept_value(m, p)
}

/// Whether a definition is yet to be computed anew: a member that it reads is
/// on the list of changes, or is stale itself.
pub open spec fn due(m: ManagerM, svc: Symbol, d: Symbol, work: Set<MemberM>) -> bool {
    model::def_of(m, svc, d) matches Some(e) && exists|p: MemberM| #[trigger]
        reads(e, svc).contains(p) && (work.contains(p) || stale(m, p))
}

/// Whether every definition is settled or yet to be computed anew.
pub open spec fn covered(m: ManagerM, work: Set<MemberM>) -> bool {
    forall|svc: Symbol, d: Symbol|
        #![trigger settled(m, svc, d)]
        settled(m, svc, d) || due(m, svc, d, work)
}

/// Whether two nodes differ in the values of definitions at most, and in what
/// does not matter for reading.
pub open spec fn alike(a: ManagerM, b: ManagerM) -> bool {
    &&& b.remote_services == a.remote_services
    &&& b.interner == a.interner
    &&& forall|svc: Symbol| #[trigger]
        table::bound(b.services, svc) == table::bound(a.services, svc)
    &&& forall|svc: Symbol, y: Symbol| #[trigger]
        model::def_of(b, svc, y) == model::def_of(a, svc, y)
    &&& forall|svc: Symbol, y: Symbol|
        #![trigger model::var_of(b, svc, y)]
        (model::var_of(b, svc, y) is Some) == (model::var_of(a, svc, y) is Some) && (model::def_of(
            a,
            svc,
            y,
        ) is None && model::var_of(a, svc, y) is Some ==> model::var_of(b, svc, y)->Some_0.value
            == model::var_of(a, svc, y)->Some_0.value)
    &&& forall|svc: Symbol| #[trigger] model::net_id(b, svc) == model::net_id(a, svc)
}

/// A cache without entries makes no difference.
pub open spec fn no_cache(m: ManagerM) -> bool {
    m.reactive_cache matches Some(c) ==> c.len() == 0
}

/// The conditions of [`calm`] on expressions alone.
pub open spec fn calm_defs(m: ManagerM) -> bool {
    forall|svc: Symbol, d: Symbol|
        #![trigger model::def_of(m, svc, d)]
        model::def_of(m, svc, d) matches Some(e) ==> good(m, e, svc) && reads_here(m, e, svc)
            && !table::bound(m.remote_services, svc)
}

pub proof fn lemma_no_cached(m: ManagerM, p: MemberM)
    requires
        no_cache(m),
    ensures
        (match m.reactive_cache {
            Some(c) => table::get(c, p),
            None => None,
        }) is None,
{
    if let Some(c) = m.reactive_cache {
        table::lemma_slot(c, p);
    }
}

/// How an expression that is no call is evaluated, step by step.
pub proof fn lemma_eval_steps(n: nat, e: ExprM<Symbol>, env: EnvM, svc: Symbol, w: World)
    requires
        n > 0,
        !(e is Call),
    ensures
        ({
            let k = (n - 1) as nat;
            semantics::eval(n, e, env, svc, w) == (match e {
                ExprM::Literal { val } => (Ok::<ValueM<Symbol>, ErrM>(val), w),
                ExprM::Variable { name } => match model::env_get(env, name) {
                    Some(v) => (Ok(v), w),
                    None => semantics::lookup(k, name, svc, w),
                },
                ExprM::MemberAccess { service_name, member_name } => {
                    let cached = match w.m.reactive_cache {
                        Some(c) => table::get(c, (service_name, member_name)),
                        None => None,
                    };
                    match cached {
                        Some(v) => (Ok(v), w),
                        None => semantics::lookup(k, member_name, service_name, w),
                    }
                },
                ExprM::Unop { op, expr } => {
                    let (a, w1) = semantics::eval(k, *expr, env, svc, w);
                    match a {
                        Err(x) => (Err(x), w1),
                        Ok(a) => (model::unop(op, a), w1),
                    }
                },
                ExprM::Binop { op, expr1, expr2 } => {
                    let (a, w1) = semantics::eval(k, *expr1, env, svc, w);
                    match a {
                        Err(x) => (Err(x), w1),
                        Ok(a) => {
                            let (b, w2) = semantics::eval(k, *expr2, env, svc, w1);
                            match b {
                                Err(x) => (Err(x), w2),
                                Ok(b) => (model::binop(op, a, b), w2),
                            }
                        },
                    }
                },
                ExprM::If { cond, expr1, expr2 } => {
                    let (c, w1) = semantics::eval(k, *cond, env, svc, w);
                    match c {
                        Err(x) => (Err(x), w1),
                        Ok(ValueM::Bool { val }) => if val {
                            semantics::eval(k, *expr1, env, svc, w1)
                        } else {
                            semantics::eval(k, *expr2, env, svc, w1)
                        },
                        Ok(_) => (Err(ErrM::TypeError("Condition must be boolean"@)), w1),
                    }
                },
                ExprM::Func { params, body, return_ty } => (
                    Ok(
                        ValueM::Closure {
                            params,
                            body,
                            env: model::captured(
                                w.m,
                                svc,
                                env,
                                read_write::free_vars(
                                    *body,
                                    Set::empty(),
                                    Set::<Symbol>::empty().union(read_write::param_set(params)),
                                ),
                                env.len(),
                            ),
                            service_name: svc,
                            return_ty,
                        },
                    ),
                    w,
                ),
                ExprM::Action(stmts) => (
                    Ok(
                        ValueM::ActionClosure {
                            stmts,
                            env: model::captured(
                                w.m,
                                svc,
                                env,
                                read_write::free_vars(e, Set::empty(), Set::empty()),
                                env.len(),
                            ),
                            service_net_id: model::net_id(w.m, svc),
                        },
                    ),
                    w,
                ),
                _ => (Err(ErrM::NotImplemented), w),
            })
        }),
{
    reveal(semantics::eval);
    reveal(semantics::eval_step);
    reveal(semantics::eval_args);
    reveal(semantics::lookup);
}

/// How a member of this node is read.
pub proof fn lemma_read_steps(n: nat, var: Symbol, svc: Symbol, w: World)
    requires
        n > 0,
        !table::bound(w.m.remote_services, svc),
    ensures
        semantics::lookup(n, var, svc, w) == (match model::def_of(w.m, svc, var) {
            Some(e) => semantics::eval((n - 1) as nat, e, seq![], svc, w),
            None => model::local_read(var, svc, w),
        }),
{
    reveal(semantics::lookup);
    reveal(semantics::eval);
    reveal(semantics::remote_lookup);
}

/// Without steps nothing can be evaluated or read.
pub proof fn lemma_no_steps(e: ExprM<Symbol>, env: EnvM, var: Symbol, svc: Symbol, w: World)
    ensures
        semantics::eval(0, e, env, svc, w) == (
            Err::<ValueM<Symbol>, ErrM>(ErrM::DepthExceeded),
            w,
        ),
        semantics::lookup(0, var, svc, w) == (
            Err::<ValueM<Symbol>, ErrM>(ErrM::DepthExceeded),
            w,
        ),
{
    reveal(semantics::lookup);
    reveal(semantics::eval);
    reveal(semantics::eval_step);
    reveal(semantics::remote_lookup);
}

/// Whether an expression can be evaluated among the bindings: it calls no
/// function, or the bindings are of members alone, as they are kept.
pub open spec fn ready(m: ManagerM, e: ExprM<Symbol>, svc: Symbol, env: EnvM) -> bool {
    call_free(e) || (calls::tame_here(m, e, svc) && faithful(m, svc, env) && !table::bound(
        m.remote_services,
        svc,
    ))
}

/// The members that a tame expression may read, and its bindings.
proof fn lemma_ready(m: ManagerM, e: ExprM<Symbol>, svc: Symbol, env: EnvM) -> (found: (
    Set<MemberM>,
    nat,
))
    requires
        ready(m, e, svc, env),
        !call_free(e),
    ensures
        calls::pure(m, found.0, found.1),
        calls::tame(calls::around(m, found.1), e, svc, Set::empty(), Set::empty(), found.0),
        calls::env_ok(m, svc, env, Set::empty(), Set::empty(), found.1),
        !calls::around(m, found.1).far.contains(svc),
{
    choose|c: Set<MemberM>, r: nat|
        calls::pure(m, c, r) && #[trigger] calls::tame(
            calls::around(m, r),
            e,
            svc,
            Set::empty(),
            Set::empty(),
            c,
        )
}

/// Evaluating and reading leave the node as it is.
pub proof fn lemma_eval_still(n: nat, e: ExprM<Symbol>, env: EnvM, svc: Symbol, m: ManagerM)
    requires
        calm_defs(m),
        no_cache(m),
        ready(m, e, svc, env),
        reads_here(m, e, svc),
    ensures
        semantics::eval(n, e, env, svc, World { m, t: None }).1 == (World { m, t: None }),
    decreases n, 0nat,
{
    lemma_no_steps(e, env, svc, svc, World { m, t: None });
    if !call_free(e) {
        let (c, r) = lemma_ready(m, e, svc, env);
        calls::lemma_tame(n, e, env, svc, m, Set::empty(), Set::empty(), c, r);
    } else if n > 0 {
        let k = (n - 1) as nat;
        lemma_eval_steps(n, e, env, svc, World { m, t: None });
        lemma_reads_parts(m, e, svc);
        match e {
            ExprM::Variable { name } => {
                assert(reads(e, svc).contains((svc, name)));
                lemma_read_still(k, m, (svc, name));
            },
            ExprM::MemberAccess { service_name, member_name } => {
                assert(reads(e, svc).contains((service_name, member_name)));
                lemma_no_cached(m, (service_name, member_name));
                lemma_read_still(k, m, (service_name, member_name));
            },
            ExprM::Unop { op, expr } => {
                lemma_eval_still(k, *expr, env, svc, m);
            },
            ExprM::Binop { op, expr1, expr2 } => {
                lemma_eval_still(k, *expr1, env, svc, m);
                lemma_eval_still(k, *expr2, env, svc, m);
            },
            ExprM::If { cond, expr1, expr2 } => {
                lemma_eval_still(k, *cond, env, svc, m);
                lemma_eval_still(k, *expr1, env, svc, m);
                lemma_eval_still(k, *expr2, env, svc, m);
            },
            _ => {},
        }
    }
}

/// Reading leaves the node as it is.
pub proof fn lemma_read_still(n: nat, m: ManagerM, p: MemberM)
    requires
        calm_defs(m),
        no_cache(m),
        !table::bound(m.remote_services, p.0),
    ensures
        semantics::lookup(n, p.1, p.0, World { m, t: None }).1 == (World { m, t: None }),
    decreases n, 0nat,
{
    lemma_no_steps(ExprM::Variable { name: p.1 }, seq![], p.1, p.0, World { m, t: None });
    if n > 0 {
        lemma_read_steps(n, p.1, p.0, World { m, t: None });
        if let Some(e) = model::def_of(m, p.0, p.1) {
            lemma_eval_still((n - 1) as nat, e, seq![], p.0, m);
        }
    }
}

pub proof fn lemma_reads_parts(m: ManagerM, e: ExprM<Symbol>, svc: Symbol)
    requires
        reads_here(m, e, svc),
    ensures
        match e {
            ExprM::Unop { op, expr } => reads_here(m, *expr, svc),
            ExprM::Binop { op, expr1, expr2 } => reads_here(m, *expr1, svc) && reads_here(
                m,
                *expr2,
                svc,
            ),
            ExprM::If { cond, expr1, expr2 } => reads_here(m, *cond, svc) && reads_here(
                m,
                *expr1,
                svc,
            ) && reads_here(m, *expr2, svc),
            _ => true,
        },
{
    match e {
        ExprM::Unop { op, expr } => {
            assert(reads(e, svc) == reads(*expr, svc));
        },
        ExprM::Binop { op, expr1, expr2 } => {
            assert forall|p: MemberM| #[trigger] reads(*expr1, svc).contains(p) implies !table::bound(
                m.remote_services,
                p.0,
            ) by {
                assert(reads(e, svc).contains(p));
            }
            assert forall|p: MemberM| #[trigger] reads(*expr2, svc).contains(p) implies !table::bound(
                m.remote_services,
                p.0,
            ) by {
                assert(reads(e, svc).contains(p));
            }
        },
        ExprM::If { cond, expr1, expr2 } => {
            assert forall|p: MemberM| #[trigger] reads(*cond, svc).contains(p) implies !table::bound(
                m.remote_services,
                p.0,
            ) by {
                assert(reads(e, svc).contains(p));
            }
            assert forall|p: MemberM| #[trigger] reads(*expr1, svc).contains(p) implies !table::bound(
                m.remote_services,
                p.0,
            ) by {
                assert(reads(e, svc).contains(p));
            }
            assert forall|p: MemberM| #[trigger] reads(*expr2, svc).contains(p) implies !table::bound(
                m.remote_services,
                p.0,
            ) by {
                assert(reads(e, svc).contains(p));
            }
        },
        _ => {},
    }
}

/// The outcome of an evaluation.
pub open spec fn outcome(n: nat, e: ExprM<Symbol>, env: EnvM, svc: Symbol, m: ManagerM) -> Result<
    ValueM<Symbol>,
    ErrM,
> {
    semantics::eval(n, e, env, svc, World { m, t: None }).0
}

/// Whether the steps were enough.
pub open spec fn enough(r: Result<ValueM<Symbol>, ErrM>) -> bool {
    r != Err::<ValueM<Symbol>, ErrM>(ErrM::DepthExceeded)
}

/// More steps make no difference once there are enough.
pub proof fn lemma_eval_more(
    n: nat,
    k: nat,
    e: ExprM<Symbol>,
    env: EnvM,
    svc: Symbol,
    m: ManagerM,
)
    requires
        calm_defs(m),
        no_cache(m),
        ready(m, e, svc, env),
        reads_here(m, e, svc),
        n <= k,
        enough(outcome(n, e, env, svc, m)),
    ensures
        outcome(k, e, env, svc, m) == outcome(n, e, env, svc, m),
    decreases n,
{
    lemma_no_steps(e, env, svc, svc, World { m, t: None });
    if !call_free(e) {
        let (c, r) = lemma_ready(m, e, svc, env);
        calls::lemma_tame_more(n, k, e, env, svc, m, Set::empty(), Set::empty(), c, r);
    } else if n > 0 {
        let a = (n - 1) as nat;
        let b = (k - 1) as nat;
        lemma_eval_steps(n, e, env, svc, World { m, t: None });
        lemma_eval_steps(k, e, env, svc, World { m, t: None });
        lemma_reads_parts(m, e, svc);
        match e {
            ExprM::Variable { name } => {
                assert(reads(e, svc).contains((svc, name)));
                if model::env_get(env, name) is None {
                    lemma_read_more(a, b, m, (svc, name));
                }
            },
            ExprM::MemberAccess { service_name, member_name } => {
                assert(reads(e, svc).contains((service_name, member_name)));
                lemma_no_cached(m, (service_name, member_name));
                lemma_read_more(a, b, m, (service_name, member_name));
            },
            ExprM::Unop { op, expr } => {
                lemma_eval_still(a, *expr, env, svc, m);
                lemma_eval_still(b, *expr, env, svc, m);
                lemma_eval_more(a, b, *expr, env, svc, m);
            },
            ExprM::Binop { op, expr1, expr2 } => {
                lemma_eval_still(a, *expr1, env, svc, m);
                lemma_eval_still(b, *expr1, env, svc, m);
                lemma_eval_more(a, b, *expr1, env, svc, m);
                if outcome(a, *expr1, env, svc, m) is Ok {
                    lemma_eval_more(a, b, *expr2, env, svc, m);
                }
            },
            ExprM::If { cond, expr1, expr2 } => {
                lemma_eval_still(a, *cond, env, svc, m);
                lemma_eval_still(b, *cond, env, svc, m);
                lemma_eval_more(a, b, *cond, env, svc, m);
                if let Ok(ValueM::Bool { val }) = outcome(a, *cond, env, svc, m) {
                    if val {
                        lemma_eval_more(a, b, *expr1, env, svc, m);
                    } else {
                        lemma_eval_more(a, b, *expr2, env, svc, m);
                    }
                }
            },
            _ => {},
        }
    }
}

/// More steps make no difference once there are enough.
pub proof fn lemma_read_more(n: nat, k: nat, m: ManagerM, p: MemberM)
    requires
        calm_defs(m),
        no_cache(m),
        !table::bound(m.remote_services, p.0),
        n <= k,
        enough(read(n, m, p)),
    ensures
        read(k, m, p) == read(n, m, p),
    decreases n,
{
    lemma_no_steps(ExprM::Variable { name: p.1 }, seq![], p.1, p.0, World { m, t: None });
    if n > 0 {
        lemma_read_steps(n, p.1, p.0, World { m, t: None });
        lemma_read_steps(k, p.1, p.0, World { m, t: None });
        if let Some(e) = model::def_of(m, p.0, p.1) {
            lemma_eval_more((n - 1) as nat, (k - 1) as nat, e, seq![], p.0, m);
        }
    }
}

/// A member has one value at most, however it is read.
pub proof fn lemma_read_once(n: nat, k: nat, m: ManagerM, p: MemberM)
    requires
        calm_defs(m),
        no_cache(m),
        !table::bound(m.remote_services, p.0),
        enough(read(n, m, p)),
        enough(read(k, m, p)),
    ensures
        read(k, m, p) == read(n, m, p),
{
    if n <= k {
        lemma_read_more(n, k, m, p);
    } else {
        lemma_read_more(k, n, m, p);
    }
}

/// What a closure takes along depends on which names are members alone.
proof fn lemma_captured_alike(
    a: ManagerM,
    b: ManagerM,
    svc: Symbol,
    env: EnvM,
    free: Set<Symbol>,
    n: nat,
)
    requires
        alike(a, b),
    ensures
        model::captured(a, svc, env, free, n) == model::captured(b, svc, env, free, n),
    decreases n,
{
    if n > 0 {
        lemma_captured_alike(a, b, svc, env, free, (n - 1) as nat);
        let name = env[n - 1].0;
        assert(model::def_of(b, svc, name) == model::def_of(a, svc, name));
        assert((model::var_of(b, svc, name) is Some) == (model::var_of(a, svc, name) is Some));
        assert(table::bound(b.services, svc) == table::bound(a.services, svc));
    }
}

/// Nodes that are alike have the same around their definitions.
proof fn lemma_alike_steady(a: ManagerM, b: ManagerM, c: Set<MemberM>)
    requires
        alike(a, b),
    ensures
        calls::steady(a, b, c),
{
    lemma_same_around(a, b);
    assert forall|p: MemberM| #[trigger] c.contains(p) implies model::def_of(b, p.0, p.1)
        == model::def_of(a, p.0, p.1) && (model::def_of(a, p.0, p.1) is None ==> kept_value(b, p)
        == kept_value(a, p)) by {
        assert(model::def_of(b, p.0, p.1) == model::def_of(a, p.0, p.1));
        assert((model::var_of(b, p.0, p.1) is Some) == (model::var_of(a, p.0, p.1) is Some));
        assert(table::bound(b.services, p.0) == table::bound(a.services, p.0));
    }
}

/// What is around definitions is the same where the same members are there.
proof fn lemma_same_around(a: ManagerM, b: ManagerM)
    requires
        b.remote_services == a.remote_services,
        forall|svc: Symbol, y: Symbol| #[trigger]
            model::def_of(b, svc, y) == model::def_of(a, svc, y),
        forall|svc: Symbol, y: Symbol|
            #![trigger model::var_of(b, svc, y)]
            (model::var_of(b, svc, y) is Some) == (model::var_of(a, svc, y) is Some),
    ensures
        forall|r: nat| #[trigger] calls::around(b, r) == calls::around(a, r),
{
    assert forall|p: MemberM| model::is_member(b, p.0, p.1) == model::is_member(a, p.0, p.1) by {
        assert(model::def_of(b, p.0, p.1) == model::def_of(a, p.0, p.1));
        assert((model::var_of(b, p.0, p.1) is Some) == (model::var_of(a, p.0, p.1) is Some));
        lemma_member(a, p);
        lemma_member(b, p);
    }
    assert forall|r: nat| #[trigger] calls::around(b, r) == calls::around(a, r) by {
        assert(calls::around(b, r).members =~= calls::around(a, r).members);
        assert(calls::around(b, r).far =~= calls::around(a, r).far);
    }
}

/// A member is a variable or a definition.
proof fn lemma_member(m: ManagerM, p: MemberM)
    ensures
        model::is_member(m, p.0, p.1) <==> model::def_of(m, p.0, p.1) is Some || model::var_of(
            m,
            p.0,
            p.1,
        ) is Some,
{
}

/// Nodes that are alike evaluate alike.
pub proof fn lemma_eval_alike(
    n: nat,
    e: ExprM<Symbol>,
    env: EnvM,
    svc: Symbol,
    a: ManagerM,
    b: ManagerM,
)
    requires
        calm_defs(a),
        no_cache(a),
        no_cache(b),
        alike(a, b),
        ready(a, e, svc, env),
        reads_here(a, e, svc),
    ensures
        semantics::eval(n, e, env, svc, World { m: b, t: None }) == (
            outcome(n, e, env, svc, a),
            World { m: b, t: None },
        ),
    decreases n, 0nat,
{
    let wa = World { m: a, t: None };
    let wb = World { m: b, t: None };
    lemma_no_steps(e, env, svc, svc, wa);
    lemma_no_steps(e, env, svc, svc, wb);
    if !call_free(e) {
        let (c, r) = lemma_ready(a, e, svc, env);
        lemma_alike_steady(a, b, c);
        calls::lemma_tame_steady(n, e, env, svc, a, b, Set::empty(), Set::empty(), c, r);
    } else if n > 0 {
        let k = (n - 1) as nat;
        lemma_eval_steps(n, e, env, svc, wa);
        lemma_eval_steps(n, e, env, svc, wb);
        lemma_reads_parts(a, e, svc);
        match e {
            ExprM::Variable { name } => {
                assert(reads(e, svc).contains((svc, name)));
                lemma_read_alike(k, a, b, (svc, name));
            },
            ExprM::MemberAccess { service_name, member_name } => {
                assert(reads(e, svc).contains((service_name, member_name)));
                lemma_no_cached(a, (service_name, member_name));
                lemma_no_cached(b, (service_name, member_name));
                lemma_read_alike(k, a, b, (service_name, member_name));
            },
            ExprM::Unop { op, expr } => {
                lemma_eval_alike(k, *expr, env, svc, a, b);
            },
            ExprM::Binop { op, expr1, expr2 } => {
                lemma_eval_still(k, *expr1, env, svc, a);
                lemma_eval_alike(k, *expr1, env, svc, a, b);
                lemma_eval_alike(k, *expr2, env, svc, a, b);
            },
            ExprM::If { cond, expr1, expr2 } => {
                lemma_eval_still(k, *cond, env, svc, a);
                lemma_eval_alike(k, *cond, env, svc, a, b);
                lemma_eval_alike(k, *expr1, env, svc, a, b);
                lemma_eval_alike(k, *expr2, env, svc, a, b);
            },
            ExprM::Func { params, body, return_ty } => {
                lemma_captured_alike(
                    a,
                    b,
                    svc,
                    env,
                    read_write::free_vars(
                        *body,
                        Set::empty(),
                        Set::<Symbol>::empty().union(read_write::param_set(params)),
                    ),
                    env.len(),
                );
            },
            ExprM::Action(stmts) => {
                lemma_captured_alike(
                    a,
                    b,
                    svc,
                    env,
                    read_write::free_vars(e, Set::empty(), Set::empty()),
                    env.len(),
                );
                assert(model::net_id(b, svc) == model::net_id(a, svc));
            },
            _ => {},
        }
    }
}

/// Members of nodes that are alike read alike.
pub proof fn lemma_read_alike(n: nat, a: ManagerM, b: ManagerM, p: MemberM)
    requires
        calm_defs(a),
        no_cache(a),
        no_cache(b),
        alike(a, b),
        !table::bound(a.remote_services, p.0),
    ensures
        read(n, b, p) == read(n, a, p),
        semantics::lookup(n, p.1, p.0, World { m: b, t: None }).1 == (World { m: b, t: None }),
    decreases n, 0nat,
{
    let wa = World { m: a, t: None };
    let wb = World { m: b, t: None };
    lemma_no_steps(ExprM::Variable { name: p.1 }, seq![], p.1, p.0, wa);
    lemma_no_steps(ExprM::Variable { name: p.1 }, seq![], p.1, p.0, wb);
    if n > 0 {
        lemma_read_steps(n, p.1, p.0, wa);
        lemma_read_steps(n, p.1, p.0, wb);
        assert(model::def_of(b, p.0, p.1) == model::def_of(a, p.0, p.1));
        match model::def_of(a, p.0, p.1) {
            Some(e) => {
                lemma_eval_alike((n - 1) as nat, e, seq![], p.0, a, b);
            },
            None => {
                assert((model::var_of(b, p.0, p.1) is Some) == (model::var_of(a, p.0, p.1)
                    is Some));
            },
        }
    }
}

/// What is found among bindings.
proof fn lemma_env_get(env: EnvM, y: Symbol, i: int)
    requires
        i == env.len() || (0 <= i < env.len() && env[i].0 == y),
        forall|j: int| 0 <= j < env.len() && j != i ==> (#[trigger] env[j]).0 != y,
    ensures
        model::env_get(env, y) == (if i < env.len() {
            Some(env[i].1)
        } else {
            None
        }),
    decreases env.len(),
{
    if env.len() > 0 {
        let last = env.len() - 1;
        let rest = env.drop_last();
        if i != last {
            assert(env[last].0 != y);
            assert forall|j: int| 0 <= j < rest.len() && j != i implies (#[trigger] rest[j]).0
                != y by {
                assert(env[j].0 != y);
            }
            lemma_env_get(rest, y, if i == env.len() { rest.len() as int } else { i });
        }
    }
}

/// The values of a service's variables, as bindings, hold just these.
proof fn lemma_var_env(s: ServiceM, y: Symbol)
    requires
        table::keys_distinct(s.vars),
    ensures
        model::env_get(model::var_env(s), y) == (match table::get(s.vars, y) {
            Some(v) => Some(v.value),
            None => None,
        }),
{
    let env = model::var_env(s);
    table::lemma_slot(s.vars, y);
    let i = table::slot(s.vars, y) as int;
    assert forall|j: int| 0 <= j < env.len() && j != i implies (#[trigger] env[j]).0 != y by {
        if i < s.vars.len() {
            if i < j {
                assert(s.vars[i].0 != s.vars[j].0);
            } else {
                assert(s.vars[j].0 != s.vars[i].0);
            }
        } else {
            assert(s.vars[j].0 != y);
        }
    }
    lemma_env_get(env, y, i);
}

/// A closure takes no member of its service along.
pub proof fn lemma_captures_nothing(m: ManagerM, svc: Symbol, env: EnvM, free: Set<Symbol>, n: nat)
    requires
        faithful(m, svc, env),
        n <= env.len(),
    ensures
        model::captured(m, svc, env, free, n) == Seq::<(Symbol, ValueM<Symbol>)>::empty(),
    decreases n,
{
    if n > 0 {
        lemma_captures_nothing(m, svc, env, free, (n - 1) as nat);
        assert(model::is_member(m, svc, env[n - 1].0));
    }
}

/// The service of a node that is found by its name has distinct members.
proof fn lemma_members_distinct(m: ManagerM, svc: Symbol)
    requires
        laws::well_formed(m),
        table::bound(m.services, svc),
    ensures
        table::keys_distinct(table::get(m.services, svc)->Some_0.vars),
{
    table::lemma_slot(m.services, svc);
    let i = table::slot(m.services, svc) as int;
    assert(table::keys_distinct(m.services[i].1.vars));
}

/// A member that is not stale is read as it is kept.
pub proof fn lemma_read_fresh(k: nat, m: ManagerM, p: MemberM)
    requires
        calm_defs(m),
        no_cache(m),
        all_readable(m),
        !table::bound(m.remote_services, p.0),
        !stale(m, p),
    ensures
        enough(read(k, m, p)) ==> read(k, m, p) == kept_value(m, p),
{
    let w = World { m, t: None };
    lemma_no_steps(ExprM::Variable { name: p.1 }, seq![], p.1, p.0, w);
    if k > 0 {
        lemma_read_steps(k, p.1, p.0, w);
    }
    if enough(read(k, m, p)) && model::def_of(m, p.0, p.1) is Some {
        assert(readable(m, p));
        let n0 = choose|n0: nat| (#[trigger] read(n0, m, p)) is Ok;
        lemma_read_once(n0, k, m, p);
        assert(read(k, m, p) is Ok);
    }
}

/// Whether bindings are of members of the service, with the values that are kept.
pub open spec fn faithful(m: ManagerM, svc: Symbol, env: EnvM) -> bool {
    &&& forall|y: Symbol|
        #![trigger model::env_get(env, y)]
        model::env_get(env, y) matches Some(v) ==> kept_value(m, (svc, y)) == Ok::<
            ValueM<Symbol>,
            ErrM,
        >(v)
    &&& forall|i: int| 0 <= i < env.len() ==> model::is_member(m, svc, (#[trigger] env[i]).0)
}

/// The values of a service's variables are faithful.
proof fn lemma_var_env_faithful(m: ManagerM, svc: Symbol)
    requires
        laws::well_formed(m),
        table::bound(m.services, svc),
    ensures
        faithful(m, svc, model::var_env(table::get(m.services, svc)->Some_0)),
{
    let s = table::get(m.services, svc)->Some_0;
    let env = model::var_env(s);
    lemma_members_distinct(m, svc);
    assert forall|y: Symbol| #![trigger model::env_get(env, y)]
        model::env_get(env, y) is Some implies kept_value(m, (svc, y)) == Ok::<
        ValueM<Symbol>,
        ErrM,
    >(model::env_get(env, y)->Some_0) by {
        lemma_var_env(s, y);
    }
    assert forall|i: int| 0 <= i < env.len() implies model::is_member(
        m,
        svc,
        (#[trigger] env[i]).0,
    ) by {
        table::lemma_bound(s.vars, s.vars[i].0, i);
    }
}

/// Where no member that is read is stale, evaluating an expression among such
/// bindings gives what the kept values give.
pub proof fn lemma_from_kept(n: nat, e: ExprM<Symbol>, env: EnvM, svc: Symbol, m: ManagerM)
    requires
        calm_defs(m),
        no_cache(m),
        shaped(m),
        all_readable(m),
        good(m, e, svc),
        reads_here(m, e, svc),
        !table::bound(m.remote_services, svc),
        faithful(m, svc, env),
        forall|p: MemberM| #[trigger] reads(e, svc).contains(p) ==> !stale(m, p),
    ensures
        enough(outcome(n, e, env, svc, m)) ==> outcome(n, e, env, svc, m) == from_kept(m, e, svc),
    decreases n,
{
    let w = World { m, t: None };
    lemma_no_steps(e, env, svc, svc, w);
    if !call_free(e) {
        let (c, r) = lemma_ready(m, e, svc, env);
        calls::lemma_same_reads(e, svc);
        calls::lemma_same_value(m, e, svc);
        calls::lemma_tame_kept(n, e, env, seq![], svc, m, Set::empty(), Set::empty(), c, r);
    } else if n > 0 {
        let k = (n - 1) as nat;
        lemma_eval_steps(n, e, env, svc, w);
        lemma_reads_parts(m, e, svc);
        match e {
            ExprM::Variable { name } => {
                if model::env_get(env, name) is None {
                    assert(reads(e, svc).contains((svc, name)));
                    lemma_read_fresh(k, m, (svc, name));
                }
            },
            ExprM::MemberAccess { service_name, member_name } => {
                let p = (service_name, member_name);
                assert(reads(e, svc).contains(p));
                lemma_no_cached(m, p);
                lemma_read_fresh(k, m, p);
            },
            ExprM::Unop { op, expr } => {
                assert(reads(e, svc) == reads(*expr, svc));
                lemma_from_kept(k, *expr, env, svc, m);
            },
            ExprM::Binop { op, expr1, expr2 } => {
                assert forall|p: MemberM| #[trigger] reads(*expr1, svc).contains(p) implies !stale(
                    m,
                    p,
                ) by {
                    assert(reads(e, svc).contains(p));
                }
                assert forall|p: MemberM| #[trigger] reads(*expr2, svc).contains(p) implies !stale(
                    m,
                    p,
                ) by {
                    assert(reads(e, svc).contains(p));
                }
                lemma_eval_still(k, *expr1, env, svc, m);
                lemma_from_kept(k, *expr1, env, svc, m);
                lemma_from_kept(k, *expr2, env, svc, m);
            },
            ExprM::If { cond, expr1, expr2 } => {
                assert forall|p: MemberM| #[trigger] reads(*cond, svc).contains(p) implies !stale(
                    m,
                    p,
                ) by {
                    assert(reads(e, svc).contains(p));
                }
                assert forall|p: MemberM| #[trigger] reads(*expr1, svc).contains(p) implies !stale(
                    m,
                    p,
                ) by {
                    assert(reads(e, svc).contains(p));
                }
                assert forall|p: MemberM| #[trigger] reads(*expr2, svc).contains(p) implies !stale(
                    m,
                    p,
                ) by {
                    assert(reads(e, svc).contains(p));
                }
                lemma_eval_still(k, *cond, env, svc, m);
                lemma_from_kept(k, *cond, env, svc, m);
                lemma_from_kept(k, *expr1, env, svc, m);
                lemma_from_kept(k, *expr2, env, svc, m);
            },
            ExprM::Func { params, body, return_ty } => {
                lemma_captures_nothing(
                    m,
                    svc,
                    env,
                    read_write::free_vars(
                        *body,
                        Set::empty(),
                        Set::<Symbol>::empty().union(read_write::param_set(params)),
                    ),
                    env.len(),
                );
            },
            ExprM::Action(stmts) => {
                lemma_captures_nothing(
                    m,
                    svc,
                    env,
                    read_write::free_vars(e, Set::empty(), Set::empty()),
                    env.len(),
                );
            },
            _ => {},
        }
    }
}

/// Whether two nodes have the same around their definitions.
pub open spec fn framed(a: ManagerM, b: ManagerM) -> bool {
    no_cache(a) && no_cache(b) && calls::steady(a, b, Set::empty())
}

/// The value of an expression changes only with what it reads.
pub proof fn lemma_kept_frame(a: ManagerM, b: ManagerM, e: ExprM<Symbol>, svc: Symbol)
    requires
        forall|p: MemberM| #[trigger]
            reads(e, svc).contains(p) ==> kept_value(b, p) == kept_value(a, p),
        model::net_id(b, svc) == model::net_id(a, svc),
        call_free(e) || (framed(a, b) && good(a, e, svc) && !table::bound(
            a.remote_services,
            svc,
        )),
    ensures
        from_kept(b, e, svc) == from_kept(a, e, svc),
    decreases e,
{
    if !call_free(e) {
        let (c, r) = lemma_ready(a, e, svc, seq![]);
        calls::lemma_same_reads(e, svc);
        calls::lemma_same_value(a, e, svc);
        calls::lemma_same_value(b, e, svc);
        calls::lemma_reads_pure(calls::around(a, r), e, svc, Set::empty(), Set::empty(), c);
        assert(calls::kept_alike(a, b, calls::reads_in(e, svc, Set::empty()), r)) by {
            assert forall|p: MemberM| #[trigger]
                calls::reads_in(e, svc, Set::empty()).contains(p) implies kept_value(b, p)
                == kept_value(a, p) && (kept_value(a, p) matches Ok(v) ==> calls::closed_value(
                calls::around(a, r),
                v,
            )) by {
                assert(reads(e, svc).contains(p));
                assert(c.contains(p));
            }
        }
        calls::lemma_kept_steady(a, b, e, svc, seq![], Set::empty(), Set::empty(), c, r);
    } else {
        match e {
            ExprM::Variable { name } => {
                assert(reads(e, svc).contains((svc, name)));
            },
            ExprM::MemberAccess { service_name, member_name } => {
                assert(reads(e, svc).contains((service_name, member_name)));
            },
            ExprM::Unop { op, expr } => {
                assert(reads(e, svc) == reads(*expr, svc));
                lemma_kept_frame(a, b, *expr, svc);
            },
            ExprM::Binop { op, expr1, expr2 } => {
                assert forall|p: MemberM| #[trigger] reads(*expr1, svc).contains(p) implies kept_value(
                    b,
                    p,
                ) == kept_value(a, p) by {
                    assert(reads(e, svc).contains(p));
                }
                assert forall|p: MemberM| #[trigger] reads(*expr2, svc).contains(p) implies kept_value(
                    b,
                    p,
                ) == kept_value(a, p) by {
                    assert(reads(e, svc).contains(p));
                }
                lemma_kept_frame(a, b, *expr1, svc);
                lemma_kept_frame(a, b, *expr2, svc);
            },
            ExprM::If { cond, expr1, expr2 } => {
                assert forall|p: MemberM| #[trigger] reads(*cond, svc).contains(p) implies kept_value(
                    b,
                    p,
                ) == kept_value(a, p) by {
                    assert(reads(e, svc).contains(p));
                }
                assert forall|p: MemberM| #[trigger] reads(*expr1, svc).contains(p) implies kept_value(
                    b,
                    p,
                ) == kept_value(a, p) by {
                    assert(reads(e, svc).contains(p));
                }
                assert forall|p: MemberM| #[trigger] reads(*expr2, svc).contains(p) implies kept_value(
                    b,
                    p,
                ) == kept_value(a, p) by {
                    assert(reads(e, svc).contains(p));
                }
                lemma_kept_frame(a, b, *cond, svc);
                lemma_kept_frame(a, b, *expr1, svc);
                lemma_kept_frame(a, b, *expr2, svc);
            },
            _ => {},
        }
    }
}

/// Whether a definition reads definitions of a lower rank alone.
pub open spec fn ranked(m: ManagerM, rank: spec_fn(MemberM) -> nat) -> bool {
    forall|svc: Symbol, d: Symbol, p: MemberM|
        #![trigger model::def_of(m, svc, d), model::def_of(m, p.0, p.1)]
        model::def_of(m, svc, d) matches Some(e) && reads(e, svc).contains(p) && model::def_of(
            m,
            p.0,
            p.1,
        ) is Some ==> rank(p) < rank((svc, d))
}

/// Whether the definitions of a node have values and none depends on itself.
pub open spec fn tidy(m: ManagerM, rank: spec_fn(MemberM) -> nat) -> bool {
    &&& calm(m)
    &&& shaped(m)
    &&& ranked(m, rank)
}

/// Whether, besides, the definitions are told of changes of what they read.
pub open spec fn reactive(m: ManagerM, rank: spec_fn(MemberM) -> nat) -> bool {
    &&& tidy(m, rank)
    &&& listening(m)
}

/// Whether two nodes differ in the values of variables at most, as far as
/// definitions are concerned.
pub open spec fn akin(a: ManagerM, b: ManagerM) -> bool {
    &&& b.remote_services == a.remote_services
    &&& b.interner == a.interner
    &&& b.reactive_cache == a.reactive_cache
    &&& forall|svc: Symbol| #[trigger]
        table::bound(b.services, svc) == table::bound(a.services, svc)
    &&& forall|svc: Symbol, y: Symbol| #[trigger]
        model::def_of(b, svc, y) == model::def_of(a, svc, y)
    &&& forall|svc: Symbol, y: Symbol|
        #![trigger model::var_of(b, svc, y)]
        (model::var_of(b, svc, y) is Some) == (model::var_of(a, svc, y) is Some)
    &&& forall|svc: Symbol| #[trigger] model::net_id(b, svc) == model::net_id(a, svc)
    &&& forall|svc: Symbol, y: Symbol| #[trigger]
        model::listeners_of(b, svc, y) == model::listeners_of(a, svc, y)
    &&& forall|svc: Symbol, d: Symbol|
        #![trigger model::cache_of(table::get(b.services, svc)->Some_0, d)]
        table::bound(a.services, svc) ==> model::cache_of(table::get(b.services, svc)->Some_0, d)
            == model::cache_of(table::get(a.services, svc)->Some_0, d)
    &&& forall|svc: Symbol|
        #![trigger table::get(b.services, svc)]
        table::get(b.services, svc) matches Some(s) ==> s == (ServiceM {
            vars: s.vars,
            ..table::get(a.services, svc)->Some_0
        })
    &&& forall|id: Seq<char>| #[trigger] model::name_for_id(b, id) == model::name_for_id(a, id)
    &&& laws::well_formed(a) ==> laws::well_formed(b)
}

/// Whether, besides, the variables that are no definitions have their values.
pub open spec fn same_vars(a: ManagerM, b: ManagerM) -> bool {
    forall|svc: Symbol, y: Symbol|
        #![trigger model::var_of(b, svc, y)]
        model::def_of(a, svc, y) is None ==> kept_value(b, (svc, y)) == kept_value(a, (svc, y))
}

pub proof fn lemma_alike(a: ManagerM, b: ManagerM)
    requires
        akin(a, b),
        same_vars(a, b),
    ensures
        alike(a, b),
{
    assert forall|svc: Symbol, y: Symbol| #![trigger model::var_of(b, svc, y)]
        (model::var_of(b, svc, y) is Some) == (model::var_of(a, svc, y) is Some) && (model::def_of(
            a,
            svc,
            y,
        ) is None && model::var_of(a, svc, y) is Some ==> model::var_of(b, svc, y)->Some_0.value
            == model::var_of(a, svc, y)->Some_0.value) by {
        if model::def_of(a, svc, y) is None {
            assert(kept_value(b, (svc, y)) == kept_value(a, (svc, y)));
        }
    }
}

pub proof fn lemma_akin_trans(a: ManagerM, b: ManagerM, c: ManagerM)
    requires
        akin(a, b),
        akin(b, c),
    ensures
        akin(a, c),
        same_vars(a, b) && same_vars(b, c) ==> same_vars(a, c),
{
    assert forall|svc: Symbol| #[trigger]
        table::bound(c.services, svc) == table::bound(a.services, svc) by {
        assert(table::bound(b.services, svc) == table::bound(a.services, svc));
    }
    assert forall|svc: Symbol, y: Symbol| #[trigger]
        model::def_of(c, svc, y) == model::def_of(a, svc, y) by {
        assert(model::def_of(b, svc, y) == model::def_of(a, svc, y));
    }
    assert forall|svc: Symbol, y: Symbol| #![trigger model::var_of(c, svc, y)]
        (model::var_of(c, svc, y) is Some) == (model::var_of(a, svc, y) is Some) by {
        assert((model::var_of(b, svc, y) is Some) == (model::var_of(a, svc, y) is Some));
    }
    assert forall|svc: Symbol| #[trigger] model::net_id(c, svc) == model::net_id(a, svc) by {
        assert(model::net_id(b, svc) == model::net_id(a, svc));
    }
    assert forall|svc: Symbol, y: Symbol| #[trigger]
        model::listeners_of(c, svc, y) == model::listeners_of(a, svc, y) by {
        assert(model::listeners_of(b, svc, y) == model::listeners_of(a, svc, y));
    }
    assert forall|svc: Symbol, d: Symbol|
        #![trigger model::cache_of(table::get(c.services, svc)->Some_0, d)]
        table::bound(a.services, svc) implies model::cache_of(
        table::get(c.services, svc)->Some_0,
        d,
    ) == model::cache_of(table::get(a.services, svc)->Some_0, d) by {
        assert(table::bound(b.services, svc) == table::bound(a.services, svc));
        assert(model::cache_of(table::get(b.services, svc)->Some_0, d) == model::cache_of(
            table::get(a.services, svc)->Some_0,
            d,
        ));
    }
    assert forall|id: Seq<char>| #[trigger]
        model::name_for_id(c, id) == model::name_for_id(a, id) by {
        assert(model::name_for_id(b, id) == model::name_for_id(a, id));
    }
    if same_vars(a, b) && same_vars(b, c) {
        assert forall|svc: Symbol, y: Symbol| #![trigger model::var_of(c, svc, y)]
            model::def_of(a, svc, y) is None implies kept_value(c, (svc, y)) == kept_value(
            a,
            (svc, y),
        ) by {
            assert(model::def_of(b, svc, y) == model::def_of(a, svc, y));
            assert(model::var_of(b, svc, y) is Some || true);
        }
    }
}

/// Whether the members of one node that hold no function that reads a member do
/// not in the other either.
pub open spec fn sound(a: ManagerM, b: ManagerM) -> bool {
    forall|c: Set<MemberM>, r: nat| #[trigger] calls::pure(a, c, r) ==> calls::pure(b, c, r)
}

/// Whether what is asked of calls carries over.
pub open spec fn carried(a: ManagerM, b: ManagerM) -> bool {
    simple(a) || sound(a, b)
}

/// Nodes that differ in values alone have the same around their definitions.
pub proof fn lemma_akin_framed(a: ManagerM, b: ManagerM)
    requires
        akin(a, b),
    ensures
        no_cache(a) ==> framed(a, b),
        forall|r: nat| #[trigger] calls::around(b, r) == calls::around(a, r),
{
    lemma_same_around(a, b);
}

/// Where the values are those that were there, but for one that is no function
/// that reads a member, what is asked of calls carries over.
proof fn lemma_sound(a: ManagerM, b: ManagerM, q: MemberM)
    requires
        akin(a, b),
        forall|p: MemberM| p != q ==> #[trigger] kept_value(b, p) == kept_value(a, p),
        kept_value(b, q) != kept_value(a, q) ==> forall|c: Set<MemberM>, r: nat| #[trigger]
            calls::pure(a, c, r) && c.contains(q) ==> (kept_value(b, q) matches Ok(v)
                ==> calls::closed_value(calls::around(a, r), v)),
    ensures
        sound(a, b),
{
    lemma_same_around(a, b);
    assert forall|c: Set<MemberM>, r: nat| #[trigger] calls::pure(a, c, r) implies calls::pure(
        b,
        c,
        r,
    ) by {
        assert forall|p: MemberM| #[trigger] c.contains(p) implies {
            &&& !calls::around(b, r).far.contains(p.0)
            &&& kept_value(b, p) matches Ok(v) ==> calls::closed_value(calls::around(b, r), v)
            &&& model::def_of(b, p.0, p.1) matches Some(e) ==> calls::tame(
                calls::around(b, r),
                e,
                p.0,
                Set::empty(),
                Set::empty(),
                c,
            )
        } by {
            assert(model::def_of(b, p.0, p.1) == model::def_of(a, p.0, p.1));
            if p != q {
                assert(kept_value(b, p) == kept_value(a, p));
            }
        }
    }
}

/// What is asked of the definitions of a node carries over.
pub proof fn lemma_tidy_kept(a: ManagerM, b: ManagerM, rank: spec_fn(MemberM) -> nat)
    requires
        akin(a, b),
        tidy(a, rank),
        carried(a, b),
    ensures
        tidy(b, rank),
        simple(a) ==> simple(b),
{
    lemma_akin_framed(a, b);
    assert forall|svc: Symbol, d: Symbol| #![trigger model::def_of(b, svc, d)]
        model::def_of(b, svc, d) is Some && simple(a) implies call_free(
        model::def_of(b, svc, d)->Some_0,
    ) by {
        assert(model::def_of(a, svc, d) is Some);
    }
    assert forall|svc: Symbol, d: Symbol| #![trigger model::def_of(b, svc, d)]
        model::def_of(b, svc, d) is Some implies good(b, model::def_of(b, svc, d)->Some_0, svc)
        && reads_here(b, model::def_of(b, svc, d)->Some_0, svc) && !table::bound(
        b.remote_services,
        svc,
    ) && model::cache_of(table::get(b.services, svc)->Some_0, d).len() == 0 by {
        assert(model::def_of(a, svc, d) == model::def_of(b, svc, d));
        let e = model::def_of(b, svc, d)->Some_0;
        assert(reads_here(a, e, svc));
        assert(table::bound(a.services, svc));
        if !call_free(e) {
            let (c, r) = lemma_ready(a, e, svc, seq![]);
            assert(calls::pure(b, c, r));
            assert(calls::tame(calls::around(b, r), e, svc, Set::empty(), Set::empty(), c));
        }
    }
    assert forall|svc: Symbol, d: Symbol| #![trigger model::def_of(b, svc, d)]
        model::def_of(b, svc, d) is Some implies model::var_of(b, svc, d) is Some by {
        assert(model::def_of(a, svc, d) is Some);
        assert(model::var_of(a, svc, d) is Some);
    }
    assert forall|svc: Symbol, d: Symbol, p: MemberM|
        #![trigger model::def_of(b, svc, d), model::def_of(b, p.0, p.1)]
        model::def_of(b, svc, d) matches Some(e) && reads(e, svc).contains(p) && model::def_of(
            b,
            p.0,
            p.1,
        ) is Some implies rank(p) < rank((svc, d)) by {
        assert(model::def_of(a, svc, d) == model::def_of(b, svc, d));
        assert(model::def_of(a, p.0, p.1) == model::def_of(b, p.0, p.1));
    }
}

/// What is asked of the definitions of a node and of their listeners carries
/// over.
pub proof fn lemma_reactive_kept(a: ManagerM, b: ManagerM, rank: spec_fn(MemberM) -> nat)
    requires
        akin(a, b),
        reactive(a, rank),
        carried(a, b),
    ensures
        reactive(b, rank),
        simple(a) ==> simple(b),
{
    lemma_tidy_kept(a, b, rank);
    assert forall|svc: Symbol, d: Symbol, p: MemberM|
        #![trigger model::def_of(b, svc, d), model::listeners_of(b, p.0, p.1)]
        model::def_of(b, svc, d) matches Some(e) && reads(e, svc).contains(p) implies
        model::listeners_of(b, p.0, p.1).contains((model::net_id(b, svc), d)) by {
        assert(model::def_of(a, svc, d) == model::def_of(b, svc, d));
        assert(model::listeners_of(a, p.0, p.1) == model::listeners_of(b, p.0, p.1));
        assert(model::net_id(b, svc) == model::net_id(a, svc));
    }
}

/// What is asked of the definitions carries over where it holds of their calls.
proof fn lemma_reactive_calm(a: ManagerM, b: ManagerM, rank: spec_fn(MemberM) -> nat)
    requires
        akin(a, b),
        reactive(a, rank),
        calm(b),
    ensures
        reactive(b, rank),
{
    assert forall|svc: Symbol, d: Symbol| #![trigger model::def_of(b, svc, d)]
        model::def_of(b, svc, d) is Some implies model::var_of(b, svc, d) is Some by {
        assert(model::def_of(a, svc, d) is Some);
        assert(model::var_of(a, svc, d) is Some);
    }
    assert forall|svc: Symbol, d: Symbol, p: MemberM|
        #![trigger model::def_of(b, svc, d), model::def_of(b, p.0, p.1)]
        model::def_of(b, svc, d) matches Some(e) && reads(e, svc).contains(p) && model::def_of(
            b,
            p.0,
            p.1,
        ) is Some implies rank(p) < rank((svc, d)) by {
        assert(model::def_of(a, svc, d) == model::def_of(b, svc, d));
        assert(model::def_of(a, p.0, p.1) == model::def_of(b, p.0, p.1));
    }
    assert forall|svc: Symbol, d: Symbol, p: MemberM|
        #![trigger model::def_of(b, svc, d), model::listeners_of(b, p.0, p.1)]
        model::def_of(b, svc, d) matches Some(e) && reads(e, svc).contains(p) implies
        model::listeners_of(b, p.0, p.1).contains((model::net_id(b, svc), d)) by {
        assert(model::def_of(a, svc, d) == model::def_of(b, svc, d));
        assert(model::listeners_of(a, p.0, p.1) == model::listeners_of(b, p.0, p.1));
        assert(model::net_id(b, svc) == model::net_id(a, svc));
    }
}

/// What reading gives carries over where the variables have their values.
proof fn lemma_read_kept(
    n: nat,
    a: ManagerM,
    b: ManagerM,
    rank: spec_fn(MemberM) -> nat,
    p: MemberM,
)
    requires
        akin(a, b),
        same_vars(a, b),
        tidy(a, rank),
        !table::bound(a.remote_services, p.0),
    ensures
        read(n, b, p) == read(n, a, p),
{
    lemma_alike(a, b);
    lemma_read_alike(n, a, b, p);
}

pub proof fn lemma_readable_kept(a: ManagerM, b: ManagerM, rank: spec_fn(MemberM) -> nat)
    requires
        akin(a, b),
        same_vars(a, b),
        tidy(a, rank),
        all_readable(a),
    ensures
        all_readable(b),
{
    assert forall|svc: Symbol, d: Symbol| #![trigger model::def_of(b, svc, d)]
        model::def_of(b, svc, d) is Some implies readable(b, (svc, d)) by {
        assert(model::def_of(a, svc, d) is Some);
        assert(readable(a, (svc, d)));
        let n = choose|n: nat| (#[trigger] read(n, a, (svc, d))) is Ok;
        lemma_read_kept(n, a, b, rank, (svc, d));
        assert(read(n, b, (svc, d)) is Ok);
    }
}

proof fn lemma_stale_kept(a: ManagerM, b: ManagerM, rank: spec_fn(MemberM) -> nat, p: MemberM)
    requires
        akin(a, b),
        same_vars(a, b),
        tidy(a, rank),
        !table::bound(a.remote_services, p.0),
        kept_value(b, p) == kept_value(a, p),
        stale(a, p),
    ensures
        stale(b, p),
{
    let n = choose|n: nat|
        (#[trigger] read(n, a, p)) is Ok && read(n, a, p) != kept_value(a, p);
    lemma_read_kept(n, a, b, rank, p);
    assert(read(n, b, p) is Ok && read(n, b, p) != kept_value(b, p));
}

proof fn lemma_place_same(a: Seq<(Symbol, ServiceM)>, b: Seq<(Symbol, ServiceM)>, id: Seq<char>)
    requires
        a.len() == b.len(),
        forall|i: int| 0 <= i < a.len() ==> (#[trigger] b[i]).1.id == a[i].1.id,
    ensures
        model::place_of_id(b, id) == model::place_of_id(a, id),
    decreases a.len(),
{
    if a.len() > 0 {
        lemma_place_same(a.drop_first(), b.drop_first(), id);
    }
}

/// What a node holds after one variable was put in place, whether it was there
/// before or not.
pub proof fn lemma_put_var(m: ManagerM, svc: Symbol, x: Symbol, v: VarStateM)
    requires
        table::bound(m.services, svc),
    ensures
        ({
            let z = model::with_var(m, svc, x, v);
            let s = table::get(m.services, svc)->Some_0;
            &&& forall|q: Symbol| #[trigger]
                table::get(z.services, q) == (if q == svc {
                    Some(ServiceM { vars: table::put(s.vars, x, v), ..s })
                } else {
                    table::get(m.services, q)
                })
            &&& forall|q: Symbol| #[trigger]
                table::bound(z.services, q) == table::bound(m.services, q)
            &&& forall|q: Symbol, y: Symbol| #[trigger]
                model::var_of(z, q, y) == (if (q, y) == (svc, x) {
                    Some(v)
                } else {
                    model::var_of(m, q, y)
                })
            &&& forall|p: MemberM|
                p != (svc, x) ==> #[trigger] kept_value(z, p) == kept_value(m, p)
            &&& kept_value(z, (svc, x)) == Ok::<ValueM<Symbol>, ErrM>(v.value)
            &&& forall|id: Seq<char>| #[trigger]
                model::name_for_id(z, id) == model::name_for_id(m, id)
            &&& laws::well_formed(m) ==> laws::well_formed(z)
        }),
{
    let z = model::with_var(m, svc, x, v);
    let s = table::get(m.services, svc)->Some_0;
    let s1 = ServiceM { vars: table::put(s.vars, x, v), ..s };
    table::lemma_slot(m.services, svc);
    let i = table::slot(m.services, svc) as int;
    assert(z.services =~= m.services.update(i, (svc, s1)));
    assert forall|q: Symbol| #[trigger] table::get(z.services, q) == (if q == svc {
        Some(s1)
    } else {
        table::get(m.services, q)
    }) by {
        table::lemma_put(m.services, svc, s1, q);
    }
    assert forall|q: Symbol| #[trigger]
        table::bound(z.services, q) == table::bound(m.services, q) by {
        table::lemma_put(m.services, svc, s1, q);
    }
    assert forall|y: Symbol| #[trigger] table::get(s1.vars, y) == (if y == x {
        Some(v)
    } else {
        table::get(s.vars, y)
    }) by {
        table::lemma_put(s.vars, x, v, y);
    }
    assert forall|q: Symbol, y: Symbol| #[trigger] model::var_of(z, q, y) == (if (q, y) == (
        svc,
        x,
    ) {
        Some(v)
    } else {
        model::var_of(m, q, y)
    }) by {
        assert(table::get(z.services, q) == (if q == svc {
            Some(s1)
        } else {
            table::get(m.services, q)
        }));
    }
    assert forall|id: Seq<char>| #[trigger]
        model::name_for_id(z, id) == model::name_for_id(m, id) by {
        lemma_place_same(m.services, z.services, id);
    }
    assert forall|p: MemberM| p != (svc, x) implies #[trigger] kept_value(z, p) == kept_value(
        m,
        p,
    ) by {
        assert(model::var_of(z, p.0, p.1) == model::var_of(m, p.0, p.1));
    }
    if laws::well_formed(m) {
        table::lemma_put(m.services, svc, s1, svc);
        table::lemma_put(s.vars, x, v, x);
        assert(table::keys_distinct(m.services[i].1.vars));
        assert forall|j: int| 0 <= j < z.services.len() implies table::keys_distinct(
            (#[trigger] z.services[j]).1.vars,
        ) by {
            assert(table::keys_distinct(m.services[j].1.vars));
        }
        assert forall|j: int, k: int| 0 <= j < k < z.services.len() implies (
        #[trigger] z.services[j]).1.id != (#[trigger] z.services[k]).1.id by {
            assert(m.services[j].1.id != m.services[k].1.id);
        }
    }
}

/// The value of one variable is replaced.
pub proof fn lemma_with_var(m: ManagerM, svc: Symbol, x: Symbol, v: VarStateM)
    requires
        model::var_of(m, svc, x) is Some,
    ensures
        ({
            let z = model::with_var(m, svc, x, v);
            &&& akin(m, z)
            &&& kept_value(z, (svc, x)) == Ok::<ValueM<Symbol>, ErrM>(v.value)
            &&& forall|p: MemberM|
                p != (svc, x) ==> #[trigger] kept_value(z, p) == kept_value(m, p)
        }),
{
    lemma_put_var(m, svc, x, v);
}

/// What is asked of calls holds while a definition is computed anew.
proof fn lemma_pure_computing(m: ManagerM, c: Set<MemberM>, r: nat)
    requires
        calls::pure(m, c, r),
    ensures
        calls::pure(computing(m), c, r),
        calls::around(computing(m), r) == calls::around(m, r),
{
    let b = computing(m);
    assert forall|svc: Symbol, y: Symbol| #[trigger]
        model::def_of(b, svc, y) == model::def_of(m, svc, y) by {}
    assert forall|svc: Symbol, y: Symbol| #[trigger]
        model::var_of(b, svc, y) == model::var_of(m, svc, y) by {}
    lemma_same_around(m, b);
    assert forall|p: MemberM| #[trigger] c.contains(p) implies {
        &&& !calls::around(b, r).far.contains(p.0)
        &&& kept_value(b, p) matches Ok(v) ==> calls::closed_value(calls::around(b, r), v)
        &&& model::def_of(b, p.0, p.1) matches Some(e) ==> calls::tame(
            calls::around(b, r),
            e,
            p.0,
            Set::empty(),
            Set::empty(),
            c,
        )
    } by {
        assert(model::def_of(b, p.0, p.1) == model::def_of(m, p.0, p.1));
        assert(model::var_of(b, p.0, p.1) == model::var_of(m, p.0, p.1));
    }
}

/// An empty cache changes nothing of what is read.
proof fn lemma_empty_cache(m: ManagerM, c: ManagerM, rank: spec_fn(MemberM) -> nat)
    requires
        reactive(m, rank),
        all_readable(m),
        c == (ManagerM { reactive_cache: Some(Seq::empty()), ..m }),
    ensures
        alike(m, c),
        calm_defs(c),
        no_cache(c),
        shaped(c),
        all_readable(c),
        forall|p: MemberM|
            #![trigger stale(c, p)]
            stale(c, p) && !table::bound(m.remote_services, p.0) ==> stale(m, p),
        forall|p: MemberM| #[trigger] kept_value(c, p) == kept_value(m, p),
{
    assert forall|svc: Symbol, y: Symbol| #[trigger]
        model::def_of(c, svc, y) == model::def_of(m, svc, y) by {}
    assert forall|svc: Symbol, y: Symbol| #[trigger]
        model::var_of(c, svc, y) == model::var_of(m, svc, y) by {}
    assert forall|svc: Symbol, d: Symbol| #![trigger model::def_of(c, svc, d)]
        model::def_of(c, svc, d) is Some implies good(c, model::def_of(c, svc, d)->Some_0, svc)
        && reads_here(c, model::def_of(c, svc, d)->Some_0, svc) && !table::bound(
        c.remote_services,
        svc,
    ) by {
        assert(model::def_of(m, svc, d) is Some);
        let e = model::def_of(m, svc, d)->Some_0;
        assert(reads_here(m, e, svc));
        if !call_free(e) {
            let (x, r) = lemma_ready(m, e, svc, seq![]);
            lemma_pure_computing(m, x, r);
            assert(calls::tame(calls::around(c, r), e, svc, Set::empty(), Set::empty(), x));
        }
    }
    assert forall|svc: Symbol, d: Symbol| #![trigger model::def_of(c, svc, d)]
        model::def_of(c, svc, d) is Some implies readable(c, (svc, d)) by {
        assert(model::def_of(m, svc, d) is Some);
        assert(readable(m, (svc, d)));
        let n = choose|n: nat| (#[trigger] read(n, m, (svc, d))) is Ok;
        lemma_read_alike(n, m, c, (svc, d));
        assert(read(n, c, (svc, d)) is Ok);
    }
    assert forall|p: MemberM| #[trigger] kept_value(c, p) == kept_value(m, p) by {
        assert(model::var_of(c, p.0, p.1) == model::var_of(m, p.0, p.1));
    }
    assert forall|p: MemberM| #![trigger stale(c, p)]
        stale(c, p) && !table::bound(m.remote_services, p.0) implies stale(m, p) by {
        let n = choose|n: nat|
            (#[trigger] read(n, c, p)) is Ok && read(n, c, p) != kept_value(c, p);
        lemma_read_alike(n, m, c, p);
        assert(read(n, m, p) is Ok && read(n, m, p) != kept_value(m, p));
    }
}

/// The node while a definition is computed anew.
pub open spec fn computing(m: ManagerM) -> ManagerM {
    ManagerM { reactive_cache: Some(Seq::empty()), ..m }
}

/// What computing a definition anew gives.
pub open spec fn computed(n: nat, e: ExprM<Symbol>, svc: Symbol, m: ManagerM) -> Result<
    ValueM<Symbol>,
    ErrM,
> {
    outcome(
        (n - 1) as nat,
        e,
        model::var_env(table::get(m.services, svc)->Some_0),
        svc,
        computing(m),
    )
}

/// A definition is computed anew, step by step.
proof fn lemma_recompute_steps(n: nat, svc: Symbol, d: Symbol, m: ManagerM)
    requires
        semantics::recompute_def(n, svc, d, m).0 is Ok,
        m.reactive_cache is None,
        model::def_of(m, svc, d) matches Some(e) ==> model::var_of(m, svc, d) is Some
            && model::cache_of(table::get(m.services, svc)->Some_0, d) == Seq::<
            (MemberM, ValueM<Symbol>),
        >::empty() && semantics::eval(
            (n - 1) as nat,
            e,
            model::var_env(table::get(m.services, svc)->Some_0),
            svc,
            World { m: computing(m), t: None },
        ).1 == (World { m: computing(m), t: None }),
    ensures
        ({
            let (r, z) = semantics::recompute_def(n, svc, d, m);
            match model::def_of(m, svc, d) {
                None => z == m,
                Some(e) => match computed(n, e, svc, m) {
                    Err(x) => z == m && enough(Err(x)),
                    Ok(v) => {
                        let old_state = model::var_of(m, svc, d)->Some_0;
                        &&& z == model::with_var(m, svc, d, VarStateM { value: v, ..old_state })
                        &&& r == Ok::<bool, ErrM>(old_state.value != v)
                    },
                },
            }
        }),
{
    reveal(semantics::recompute_def);
    reveal(semantics::eval);
    assert(ManagerM { reactive_cache: None, ..computing(m) } == m);
}

/// Computing a definition anew changes its value at most.
proof fn lemma_recompute_calm(
    n: nat,
    svc: Symbol,
    d: Symbol,
    m: ManagerM,
    rank: spec_fn(MemberM) -> nat,
)
    requires
        reactive(m, rank),
        all_readable(m),
        semantics::recompute_def(n, svc, d, m).0 is Ok,
    ensures
        ({
            let (r, z) = semantics::recompute_def(n, svc, d, m);
            match model::def_of(m, svc, d) {
                None => z == m,
                Some(e) => match computed(n, e, svc, m) {
                    Err(x) => z == m && enough(Err(x)),
                    Ok(v) => {
                        let old_state = model::var_of(m, svc, d)->Some_0;
                        &&& z == model::with_var(m, svc, d, VarStateM { value: v, ..old_state })
                        &&& r == Ok::<bool, ErrM>(old_state.value != v)
                    },
                },
            }
        }),
{
    if let Some(e) = model::def_of(m, svc, d) {
        let s = table::get(m.services, svc)->Some_0;
        assert(model::cache_of(s, d) =~= Seq::empty());
        lemma_empty_cache(m, computing(m), rank);
        assert(reads_here(computing(m), e, svc)) by {
            assert(reads_here(m, e, svc));
        }
        assert(table::bound(m.services, svc));
        lemma_var_env_faithful(computing(m), svc);
        assert(model::def_of(computing(m), svc, d) == Some(e));
        lemma_eval_still((n - 1) as nat, e, model::var_env(s), svc, computing(m));
        assert(model::var_of(m, svc, d) is Some);
    }
    lemma_recompute_steps(n, svc, d, m);
}

/// Where nothing that it reads is stale, a definition is computed out of the
/// values that are kept.
proof fn lemma_computed(
    n: nat,
    e: ExprM<Symbol>,
    svc: Symbol,
    d: Symbol,
    m: ManagerM,
    rank: spec_fn(MemberM) -> nat,
)
    requires
        reactive(m, rank),
        all_readable(m),
        model::def_of(m, svc, d) == Some(e),
        forall|p: MemberM| #[trigger] reads(e, svc).contains(p) ==> !stale(m, p),
        enough(computed(n, e, svc, m)),
    ensures
        computed(n, e, svc, m) == from_kept(m, e, svc),
{
    let c = computing(m);
    lemma_empty_cache(m, c, rank);
    assert(reads_here(m, e, svc));
    assert(reads_here(c, e, svc));
    assert forall|p: MemberM| #[trigger] reads(e, svc).contains(p) implies !stale(c, p) by {
        assert(!stale(m, p));
    }
    lemma_var_env_faithful(c, svc);
    assert(model::def_of(c, svc, d) == Some(e));
    lemma_from_kept(
        (n - 1) as nat,
        e,
        model::var_env(table::get(m.services, svc)->Some_0),
        svc,
        c,
    );
    lemma_alike_steady(m, c, Set::empty());
    lemma_kept_frame(m, c, e, svc);
}

/// What is asked of calls carries over when a definition is computed anew.
proof fn lemma_recompute_sound(
    n: nat,
    svc: Symbol,
    d: Symbol,
    m: ManagerM,
    rank: spec_fn(MemberM) -> nat,
)
    requires
        reactive(m, rank),
        all_readable(m),
        semantics::recompute_def(n, svc, d, m).0 is Ok,
    ensures
        sound(m, semantics::recompute_def(n, svc, d, m).1),
{
    let z = semantics::recompute_def(n, svc, d, m).1;
    lemma_recompute_calm(n, svc, d, m, rank);
    if let Some(e) = model::def_of(m, svc, d) {
        if let Ok(v) = computed(n, e, svc, m) {
            let s = table::get(m.services, svc)->Some_0;
            assert(model::var_of(m, svc, d) is Some);
            lemma_with_var(m, svc, d, VarStateM { value: v, ..model::var_of(m, svc, d)->Some_0 });
            lemma_empty_cache(m, computing(m), rank);
            assert(table::bound(m.services, svc));
            lemma_var_env_faithful(computing(m), svc);
            assert forall|c: Set<MemberM>, r: nat| #[trigger]
                calls::pure(m, c, r) && c.contains((svc, d)) implies calls::closed_value(
                calls::around(m, r),
                v,
            ) by {
                lemma_pure_computing(m, c, r);
                assert(!calls::around(m, r).far.contains((svc, d).0));
                calls::lemma_tame(
                    (n - 1) as nat,
                    e,
                    model::var_env(s),
                    svc,
                    computing(m),
                    Set::empty(),
                    Set::empty(),
                    c,
                    r,
                );
            }
            lemma_sound(m, z, (svc, d));
        }
    }
}

/// A definition is computed anew: it is settled, unless something that it
/// reads is stale; and where its value is another one, that is told.
proof fn lemma_recompute(
    n: nat,
    svc: Symbol,
    d: Symbol,
    m: ManagerM,
    rank: spec_fn(MemberM) -> nat,
)
    requires
        reactive(m, rank),
        all_readable(m),
        semantics::recompute_def(n, svc, d, m).0 is Ok,
    ensures
        ({
            let (r, z) = semantics::recompute_def(n, svc, d, m);
            &&& akin(m, z)
            &&& same_vars(m, z)
            &&& forall|p: MemberM|
                p != (svc, d) ==> #[trigger] kept_value(z, p) == kept_value(m, p)
            &&& kept_value(z, (svc, d)) != kept_value(m, (svc, d)) ==> r == Ok::<bool, ErrM>(true)
            &&& settled(z, svc, d) || due(z, svc, d, Set::empty())
            &&& sound(m, z)
        }),
{
    let (r, z) = semantics::recompute_def(n, svc, d, m);
    lemma_recompute_calm(n, svc, d, m, rank);
    lemma_recompute_sound(n, svc, d, m, rank);
    if let Some(e) = model::def_of(m, svc, d) {
        let o = computed(n, e, svc, m);
        assert(model::var_of(m, svc, d) is Some);
        if let Ok(v) = o {
            lemma_with_var(m, svc, d, VarStateM { value: v, ..model::var_of(m, svc, d)->Some_0 });
            assert forall|t: Symbol, y: Symbol| #![trigger model::var_of(z, t, y)]
                model::def_of(m, t, y) is None implies kept_value(z, (t, y)) == kept_value(
                m,
                (t, y),
            ) by {
                assert((t, y) != (svc, d));
            }
        }
        assert(model::def_of(z, svc, d) == Some(e));
        if exists|p: MemberM| #[trigger] reads(e, svc).contains(p) && stale(m, p) {
            let p = choose|p: MemberM| #[trigger] reads(e, svc).contains(p) && stale(m, p);
            lemma_stale_def(m, rank, svc, d, p);
            lemma_stale_kept(m, z, rank, p);
            assert(due(z, svc, d, Set::empty()));
        } else {
            lemma_computed(n, e, svc, d, m, rank);
            if o is Ok {
                assert(!reads(e, svc).contains((svc, d))) by {
                    assert(model::def_of(m, (svc, d).0, (svc, d).1) is Some);
                }
                lemma_akin_framed(m, z);
                lemma_kept_frame(m, z, e, svc);
            }
            assert(settled(z, svc, d));
        }
    }
}

/// A stale member that a definition reads is another definition.
pub proof fn lemma_stale_def(
    m: ManagerM,
    rank: spec_fn(MemberM) -> nat,
    svc: Symbol,
    d: Symbol,
    p: MemberM,
)
    requires
        tidy(m, rank),
        model::def_of(m, svc, d) is Some,
        reads(model::def_of(m, svc, d)->Some_0, svc).contains(p),
        stale(m, p),
    ensures
        model::def_of(m, p.0, p.1) is Some,
        p != (svc, d),
        rank(p) < rank((svc, d)),
        !table::bound(m.remote_services, p.0),
{
    assert(reads_here(m, model::def_of(m, svc, d)->Some_0, svc));
    if model::def_of(m, p.0, p.1) is None {
        let n = choose|n: nat|
            (#[trigger] read(n, m, p)) is Ok && read(n, m, p) != kept_value(m, p);
        let w = World { m, t: None };
        lemma_no_steps(ExprM::Variable { name: p.1 }, seq![], p.1, p.0, w);
        if n > 0 {
            lemma_read_steps(n, p.1, p.0, w);
        }
    }
}

/// A list of changes as a set.
pub open spec fn listed(work: Seq<MemberM>) -> Set<MemberM> {
    Set::new(|p: MemberM| work.contains(p))
}

/// Whether a definition is among those that are yet to be told of a change.
pub open spec fn awaits(m: ManagerM, svc: Symbol, d: Symbol, listeners: Seq<KeyM>, i: nat) -> bool {
    model::def_of(m, svc, d) is Some && exists|j: int|
        i <= j < listeners.len() && #[trigger] listeners[j] == (model::net_id(m, svc), d)
}

/// Whether every definition is settled, yet to be computed anew, or among those
/// that are yet to be told of a change.
pub open spec fn covered_besides(
    m: ManagerM,
    work: Set<MemberM>,
    listeners: Seq<KeyM>,
    i: nat,
) -> bool {
    forall|svc: Symbol, d: Symbol|
        #![trigger settled(m, svc, d)]
        settled(m, svc, d) || due(m, svc, d, work) || awaits(m, svc, d, listeners, i)
}

/// A service of this node is found by its identity.
pub proof fn lemma_own_name(m: ManagerM, svc: Symbol)
    requires
        laws::well_formed(m),
        table::bound(m.services, svc),
    ensures
        model::name_for_id(m, model::net_id(m, svc)) == Some(svc),
{
    table::lemma_slot(m.services, svc);
    let i = table::slot(m.services, svc) as int;
    let id = model::net_id(m, svc);
    state::lemma_place_of_id(m.services, id);
    let k = model::place_of_id(m.services, id) as int;
    assert(m.services[i].1.id == id);
    if k < i {
        assert(m.services[k].1.id != m.services[i].1.id);
    }
}

/// What holds of the definitions after one of them was computed anew.
proof fn lemma_step_covered(
    m: ManagerM,
    z: ManagerM,
    p: MemberM,
    changed: bool,
    work: Set<MemberM>,
    more: Set<MemberM>,
    listeners: Seq<KeyM>,
    i: nat,
    rank: spec_fn(MemberM) -> nat,
)
    requires
        reactive(m, rank),
        akin(m, z),
        same_vars(m, z),
        covered_besides(m, work, listeners, i),
        i < listeners.len(),
        model::name_for_id(m, listeners[i as int].0) == Some(p.0),
        listeners[i as int].1 == p.1,
        forall|q: MemberM| q != p ==> #[trigger] kept_value(z, q) == kept_value(m, q),
        kept_value(z, p) != kept_value(m, p) ==> changed,
        settled(z, p.0, p.1) || due(z, p.0, p.1, Set::empty()),
        forall|q: MemberM| #[trigger] work.contains(q) ==> more.contains(q),
        changed ==> more.contains(p),
    ensures
        covered_besides(z, more, listeners, i + 1),
{
    assert forall|svc: Symbol, d: Symbol| #![trigger settled(z, svc, d)]
        settled(z, svc, d) || due(z, svc, d, more) || awaits(z, svc, d, listeners, i + 1) by {
        assert(model::def_of(z, svc, d) == model::def_of(m, svc, d));
        if let Some(e) = model::def_of(m, svc, d) {
            if (svc, d) == p {
                if !settled(z, svc, d) {
                    let q = choose|q: MemberM| #[trigger]
                        reads(e, svc).contains(q) && (Set::<MemberM>::empty().contains(q) || stale(
                            z,
                            q,
                        ));
                    assert(reads(e, svc).contains(q) && stale(z, q));
                    assert(due(z, svc, d, more));
                }
            } else if settled(m, svc, d) {
                if changed && reads(e, svc).contains(p) {
                    assert(due(z, svc, d, more));
                } else {
                    lemma_akin_framed(m, z);
                    lemma_kept_frame(m, z, e, svc);
                }
            } else if due(m, svc, d, work) {
                let q = choose|q: MemberM| #[trigger]
                    reads(e, svc).contains(q) && (work.contains(q) || stale(m, q));
                if work.contains(q) {
                    assert(more.contains(q));
                } else if q == p && changed {
                    assert(more.contains(q));
                } else {
                    lemma_stale_def(m, rank, svc, d, q);
                    lemma_stale_kept(m, z, rank, q);
                }
                assert(reads(e, svc).contains(q));
                assert(due(z, svc, d, more));
            } else {
                assert(awaits(m, svc, d, listeners, i));
                let j = choose|j: int|
                    i <= j < listeners.len() && #[trigger] listeners[j] == (
                        model::net_id(m, svc),
                        d,
                    );
                lemma_own_name(m, svc);
                assert(j != i);
                assert(model::net_id(z, svc) == model::net_id(m, svc));
                assert(listeners[j] == (model::net_id(z, svc), d));
            }
        }
    }
}

/// A listener on another node is no definition of this one.
proof fn lemma_far_covered(
    m: ManagerM,
    z: ManagerM,
    work: Set<MemberM>,
    listeners: Seq<KeyM>,
    i: nat,
    rank: spec_fn(MemberM) -> nat,
)
    requires
        reactive(m, rank),
        akin(m, z),
        same_vars(m, z),
        covered_besides(m, work, listeners, i),
        i < listeners.len(),
        model::name_for_id(m, listeners[i as int].0) is None,
        forall|q: MemberM| #[trigger] kept_value(z, q) == kept_value(m, q),
    ensures
        covered_besides(z, work, listeners, i + 1),
{
    assert forall|svc: Symbol, d: Symbol| #![trigger settled(z, svc, d)]
        settled(z, svc, d) || due(z, svc, d, work) || awaits(z, svc, d, listeners, i + 1) by {
        assert(model::def_of(z, svc, d) == model::def_of(m, svc, d));
        if let Some(e) = model::def_of(m, svc, d) {
            if settled(m, svc, d) {
                lemma_akin_framed(m, z);
                lemma_kept_frame(m, z, e, svc);
            } else if due(m, svc, d, work) {
                let q = choose|q: MemberM| #[trigger]
                    reads(e, svc).contains(q) && (work.contains(q) || stale(m, q));
                if !work.contains(q) {
                    lemma_stale_def(m, rank, svc, d, q);
                    lemma_stale_kept(m, z, rank, q);
                }
                assert(reads(e, svc).contains(q));
                assert(due(z, svc, d, work));
            } else {
                assert(awaits(m, svc, d, listeners, i));
                let j = choose|j: int|
                    i <= j < listeners.len() && #[trigger] listeners[j] == (
                        model::net_id(m, svc),
                        d,
                    );
                lemma_own_name(m, svc);
                assert(j != i);
                assert(model::net_id(z, svc) == model::net_id(m, svc));
                assert(listeners[j] == (model::net_id(z, svc), d));
            }
        }
    }
}

/// Sending leaves the services as they are.
proof fn lemma_emit_akin(m: ManagerM, id: Seq<char>, def: Symbol, svc: Symbol, member: Symbol)
    ensures
        ({
            let z = model::emit_update(m, id, def, svc, member);
            &&& akin(m, z)
            &&& same_vars(m, z)
            &&& forall|q: MemberM| #[trigger] kept_value(z, q) == kept_value(m, q)
            &&& sound(m, z)
        }),
{
    let z = model::emit_update(m, id, def, svc, member);
    assert(z.services == m.services);
    assert forall|q: MemberM| #[trigger] kept_value(z, q) == kept_value(m, q) by {
        assert(model::var_of(z, q.0, q.1) == model::var_of(m, q.0, q.1));
    }
    lemma_sound(m, z, (svc, member));
}

/// The listeners of a member are told of a change.
proof fn lemma_notify(
    n: nat,
    listeners: Seq<KeyM>,
    i: nat,
    svc: Symbol,
    member: Symbol,
    work: Seq<MemberM>,
    m: ManagerM,
    rest: Set<MemberM>,
    rank: spec_fn(MemberM) -> nat,
)
    requires
        reactive(m, rank),
        all_readable(m),
        covered_besides(m, listed(work).union(rest), listeners, i),
        semantics::notify(n, listeners, i, svc, member, work, m).0 is Ok,
    ensures
        ({
            let (r, z) = semantics::notify(n, listeners, i, svc, member, work, m);
            &&& sound(m, z)
            &&& akin(m, z)
            &&& same_vars(m, z)
            &&& covered(z, listed(r->Ok_0).union(rest))
        }),
    decreases listeners.len() - i,
{
    reveal(semantics::notify);
    reveal(semantics::recompute_def);
    if i >= listeners.len() {
        assert forall|t: Symbol, d: Symbol| #![trigger settled(m, t, d)]
            settled(m, t, d) || due(m, t, d, listed(work).union(rest)) by {
            assert(!awaits(m, t, d, listeners, i));
        }
    } else {
        let (id, def) = listeners[i as int];
        match model::name_for_id(m, id) {
            Some(lsvc) => {
                let (r, z) = semantics::recompute_def(n, lsvc, def, m);
                lemma_recompute(n, lsvc, def, m, rank);
                let changed = r->Ok_0;
                let more = if changed {
                    work.push((lsvc, def))
                } else {
                    work
                };
                assert forall|q: MemberM| #[trigger]
                    listed(work).union(rest).contains(q) implies listed(more).union(rest).contains(
                    q,
                ) by {
                    if work.contains(q) {
                        let j = choose|j: int| 0 <= j < work.len() && work[j] == q;
                        assert(more[j] == q);
                    }
                }
                if changed {
                    assert(more[work.len() as int] == (lsvc, def));
                }
                lemma_step_covered(
                    m,
                    z,
                    (lsvc, def),
                    changed,
                    listed(work).union(rest),
                    listed(more).union(rest),
                    listeners,
                    i,
                    rank,
                );
                lemma_reactive_kept(m, z, rank);
                lemma_readable_kept(m, z, rank);
                lemma_notify(n, listeners, i + 1, svc, member, more, z, rest, rank);
                lemma_akin_trans(
                    m,
                    z,
                    semantics::notify(n, listeners, i + 1, svc, member, more, z).1,
                );
            },
            None => {
                let z = model::emit_update(m, id, def, svc, member);
                lemma_emit_akin(m, id, def, svc, member);
                lemma_far_covered(m, z, listed(work).union(rest), listeners, i, rank);
                lemma_reactive_kept(m, z, rank);
                lemma_readable_kept(m, z, rank);
                lemma_notify(n, listeners, i + 1, svc, member, work, z, rest, rank);
                lemma_akin_trans(
                    m,
                    z,
                    semantics::notify(n, listeners, i + 1, svc, member, work, z).1,
                );
            },
        }
    }
}

/// The changes on the list are passed on: what is left to compute is due to
/// other changes.
proof fn lemma_pass_on(
    n: nat,
    left: nat,
    work: Seq<MemberM>,
    m: ManagerM,
    rest: Set<MemberM>,
    rank: spec_fn(MemberM) -> nat,
)
    requires
        reactive(m, rank),
        all_readable(m),
        covered(m, listed(work).union(rest)),
        semantics::pass_on(n, left, work, m).0 is Ok,
    ensures
        ({
            let z = semantics::pass_on(n, left, work, m).1;
            &&& sound(m, z)
            &&& akin(m, z)
            &&& same_vars(m, z)
            &&& covered(z, rest)
        }),
    decreases left,
{
    reveal(semantics::pass_on);
    reveal(semantics::notify);
    if work.len() == 0 {
        assert(listed(work).union(rest) =~= rest);
    } else {
        let k = (n - 1) as nat;
        let (svc, member) = work.last();
        let ls = model::listeners_of(m, svc, member);
        let fewer = work.drop_last();
        assert forall|t: Symbol, d: Symbol| #![trigger settled(m, t, d)]
            settled(m, t, d) || due(m, t, d, listed(fewer).union(rest)) || awaits(
                m,
                t,
                d,
                ls,
                0,
            ) by {
            if !settled(m, t, d) {
                assert(due(m, t, d, listed(work).union(rest)));
                let e = model::def_of(m, t, d)->Some_0;
                let q = choose|q: MemberM| #[trigger]
                    reads(e, t).contains(q) && (listed(work).union(rest).contains(q) || stale(
                        m,
                        q,
                    ));
                if stale(m, q) || rest.contains(q) {
                    assert(due(m, t, d, listed(fewer).union(rest)));
                } else {
                    let j = choose|j: int| 0 <= j < work.len() && work[j] == q;
                    if j < fewer.len() {
                        assert(fewer[j] == q);
                        assert(due(m, t, d, listed(fewer).union(rest)));
                    } else {
                        assert(q == (svc, member));
                        assert(model::listeners_of(m, q.0, q.1).contains(
                            (model::net_id(m, t), d),
                        ));
                    }
                }
            }
        }
        lemma_notify(k, ls, 0, svc, member, fewer, m, rest, rank);
        let (r, z) = semantics::notify(k, ls, 0, svc, member, fewer, m);
        lemma_reactive_kept(m, z, rank);
        lemma_readable_kept(m, z, rank);
        lemma_pass_on(n, (left - 1) as nat, r->Ok_0, z, rest, rank);
        lemma_akin_trans(m, z, semantics::pass_on(n, (left - 1) as nat, r->Ok_0, z).1);
    }
}

proof fn lemma_propagate(
    n: nat,
    work: Seq<MemberM>,
    m: ManagerM,
    rest: Set<MemberM>,
    rank: spec_fn(MemberM) -> nat,
)
    requires
        reactive(m, rank),
        all_readable(m),
        covered(m, listed(work).union(rest)),
        semantics::propagate(n, work, m).0 is Ok,
    ensures
        ({
            let z = semantics::propagate(n, work, m).1;
            &&& sound(m, z)
            &&& akin(m, z)
            &&& same_vars(m, z)
            &&& covered(z, rest)
        }),
{
    reveal(semantics::propagate);
    reveal(semantics::pass_on);
    lemma_pass_on(n, semantics::CHANGE_LIMIT as nat, work, m, rest, rank);
}

/// Whether every definition is read as it is kept.
pub open spec fn all_current(m: ManagerM) -> bool {
    forall|svc: Symbol, d: Symbol, n: nat|
        #![trigger model::def_of(m, svc, d), read(n, m, (svc, d))]
        model::def_of(m, svc, d) is Some && enough(read(n, m, (svc, d))) ==> read(
            n,
            m,
            (svc, d),
        ) == kept_value(m, (svc, d))
}

/// A definition with nothing left to compute is settled and not stale.
pub proof fn lemma_fresh(m: ManagerM, rank: spec_fn(MemberM) -> nat, svc: Symbol, d: Symbol)
    requires
        tidy(m, rank),
        all_readable(m),
        covered(m, Set::empty()),
        model::def_of(m, svc, d) is Some,
    ensures
        settled(m, svc, d),
        !stale(m, (svc, d)),
    decreases rank((svc, d)),
{
    let e = model::def_of(m, svc, d)->Some_0;
    assert forall|p: MemberM| #[trigger] reads(e, svc).contains(p) implies !stale(m, p) by {
        if stale(m, p) {
            lemma_stale_def(m, rank, svc, d, p);
            lemma_fresh(m, rank, p.0, p.1);
        }
    }
    assert(settled(m, svc, d));
    assert(reads_here(m, e, svc));
    if stale(m, (svc, d)) {
        let n = choose|n: nat|
            (#[trigger] read(n, m, (svc, d))) is Ok && read(n, m, (svc, d)) != kept_value(
                m,
                (svc, d),
            );
        let w = World { m, t: None };
        lemma_no_steps(e, seq![], d, svc, w);
        lemma_read_steps(n, d, svc, w);
        lemma_from_kept((n - 1) as nat, e, seq![], svc, m);
    }
}

/// With nothing left to compute all definitions are settled, and read as they
/// are kept.
pub proof fn lemma_all_fresh(m: ManagerM, rank: spec_fn(MemberM) -> nat)
    requires
        tidy(m, rank),
        all_readable(m),
        covered(m, Set::empty()),
    ensures
        all_settled(m),
        all_current(m),
{
    assert forall|svc: Symbol, d: Symbol| #[trigger] settled(m, svc, d) by {
        if model::def_of(m, svc, d) is Some {
            lemma_fresh(m, rank, svc, d);
        }
    }
    assert forall|svc: Symbol, d: Symbol, n: nat|
        #![trigger model::def_of(m, svc, d), read(n, m, (svc, d))]
        model::def_of(m, svc, d) is Some && enough(read(n, m, (svc, d))) implies read(
        n,
        m,
        (svc, d),
    ) == kept_value(m, (svc, d)) by {
        lemma_fresh(m, rank, svc, d);
        lemma_read_fresh(n, m, (svc, d));
    }
}

/// Definitions that do not read what has changed stay settled.
proof fn lemma_changed_covered(
    m: ManagerM,
    z: ManagerM,
    work: Set<MemberM>,
    p: MemberM,
    rank: spec_fn(MemberM) -> nat,
)
    requires
        reactive(m, rank),
        akin(m, z),
        model::def_of(m, p.0, p.1) is None,
        forall|q: MemberM| q != p ==> #[trigger] kept_value(z, q) == kept_value(m, q),
        forall|svc: Symbol, d: Symbol|
            #![trigger settled(m, svc, d)]
            settled(m, svc, d) || (model::def_of(m, svc, d) matches Some(e) && exists|q: MemberM|
                 #[trigger] reads(e, svc).contains(q) && work.contains(q)),
    ensures
        forall|svc: Symbol, d: Symbol|
            #![trigger settled(z, svc, d)]
            settled(z, svc, d) || (model::def_of(z, svc, d) matches Some(e) && exists|q: MemberM|
                 #[trigger] reads(e, svc).contains(q) && work.insert(p).contains(q)),
{
    assert forall|svc: Symbol, d: Symbol| #![trigger settled(z, svc, d)]
        settled(z, svc, d) || (model::def_of(z, svc, d) matches Some(e) && exists|q: MemberM|
             #[trigger] reads(e, svc).contains(q) && work.insert(p).contains(q)) by {
        assert(model::def_of(z, svc, d) == model::def_of(m, svc, d));
        if let Some(e) = model::def_of(m, svc, d) {
            if reads(e, svc).contains(p) {
                assert(work.insert(p).contains(p));
            } else if settled(m, svc, d) {
                lemma_akin_framed(m, z);
                lemma_kept_frame(m, z, e, svc);
            } else {
                let q = choose|q: MemberM| #[trigger]
                    reads(e, svc).contains(q) && work.contains(q);
                assert(reads(e, svc).contains(q) && work.insert(p).contains(q));
            }
        }
    }
}

/// After a variable is assigned to, without a transaction, the definitions of
/// the node have the values that their expressions give: all are settled and
/// read as they are kept. The variable has the new value, and the variables
/// that are no definitions have theirs.
///
/// It may be a function that is assigned, if it reads no member or no definition
/// calls it.
pub proof fn law_assignment_is_followed(
    n: nat,
    svc: Symbol,
    var: Symbol,
    value: ValueM<Symbol>,
    m: ManagerM,
    rank: spec_fn(MemberM) -> nat,
)
    requires
        reactive(m, rank),
        all_settled(m),
        model::def_of(m, svc, var) is None,
        model::var_of(m, svc, var) matches Some(v) && all_readable(
            model::with_var(m, svc, var, VarStateM { value, ..v }),
        ) && calm(model::with_var(m, svc, var, VarStateM { value, ..v })),
        semantics::assign(n, svc, var, value, World { m, t: None }).0 is Ok,
    ensures
        ({
            let z = semantics::assign(n, svc, var, value, World { m, t: None }).1.m;
            &&& reactive(z, rank)
            &&& all_readable(z)
            &&& all_settled(z)
            &&& all_current(z)
            &&& kept_value(z, (svc, var)) == Ok::<ValueM<Symbol>, ErrM>(value)
            &&& forall|p: MemberM|
                p != (svc, var) && model::def_of(m, p.0, p.1) is None
                    ==> #[trigger] kept_value(z, p) == kept_value(m, p)
        }),
{
    reveal(semantics::assign);
    reveal(semantics::propagate);
    let v = model::var_of(m, svc, var)->Some_0;
    let m1 = model::with_var(m, svc, var, VarStateM { value, ..v });
    let work = seq![(svc, var)];
    lemma_with_var(m, svc, var, VarStateM { value, ..v });
    lemma_reactive_calm(m, m1, rank);
    lemma_changed_covered(m, m1, Set::empty(), (svc, var), rank);
    let (r, z) = semantics::propagate(n, work, m1);
    assert forall|t: Symbol, d: Symbol| #![trigger settled(m1, t, d)]
        settled(m1, t, d) || due(m1, t, d, listed(work).union(Set::empty())) by {
        if !settled(m1, t, d) {
            let e = model::def_of(m1, t, d)->Some_0;
            let q = choose|q: MemberM| #[trigger]
                reads(e, t).contains(q) && Set::<MemberM>::empty().insert((svc, var)).contains(q);
            assert(work[0] == q);
            assert(reads(e, t).contains(q) && listed(work).union(Set::empty()).contains(q));
        }
    }
    lemma_propagate(n, work, m1, Set::empty(), rank);
    lemma_reactive_kept(m1, z, rank);
    lemma_readable_kept(m1, z, rank);
    lemma_all_fresh(z, rank);
    assert forall|p: MemberM|
        model::def_of(m, p.0, p.1) is None implies #[trigger] kept_value(z, p) == kept_value(
        m1,
        p,
    ) by {
        assert(model::def_of(m1, p.0, p.1) is None);
        assert(model::var_of(z, p.0, p.1) is Some || true);
    }
}

/// The members that the writes from place `i` up to `n` are to.
pub open spec fn touched(
    m: ManagerM,
    writes: Seq<(KeyM, ValueM<Symbol>)>,
    i: nat,
    n: nat,
) -> Set<MemberM> {
    Set::new(
        |p: MemberM|
            exists|j: int|
                i <= j < n && model::name_for_id(m, (#[trigger] writes[j]).0.0) == Some(p.0)
                    && writes[j].0.1 == p.1,
    )
}

/// Whether no write is to a definition.
pub open spec fn writes_variables(m: ManagerM, writes: Seq<(KeyM, ValueM<Symbol>)>) -> bool {
    forall|p: MemberM| #[trigger]
        touched(m, writes, 0, writes.len()).contains(p) ==> model::def_of(m, p.0, p.1) is None
}

/// Whether the changes by the writes from place `i` on are all passed on to
/// the end.
pub open spec fn all_passed(
    n: nat,
    writes: Seq<(KeyM, ValueM<Symbol>)>,
    i: nat,
    m: ManagerM,
) -> bool
    decreases writes.len() - i,
{
    i >= writes.len() || match model::name_for_id(m, writes[i as int].0.0) {
        None => all_passed(n, writes, i + 1, m),
        Some(svc) => {
            let (r, m1) = semantics::propagate(n, seq![(svc, writes[i as int].0.1)], m);
            r is Ok && all_passed(n, writes, i + 1, m1)
        },
    }
}

/// To replace a variable at a place is to replace it by name.
proof fn lemma_var_at_place(m: ManagerM, i: int, var: Symbol, v: VarStateM)
    requires
        laws::well_formed(m),
        0 <= i < m.services.len(),
        table::get(m.services[i].1.vars, var) is Some,
    ensures
        ({
            let s = m.services[i].1;
            &&& model::var_of(m, m.services[i].0, var) == table::get(s.vars, var)
            &&& model::with_var(m, m.services[i].0, var, v) == (ManagerM {
                services: m.services.update(
                    i,
                    (
                        m.services[i].0,
                        ServiceM { vars: table::put(s.vars, var, v), ..s },
                    ),
                ),
                ..m
            })
        }),
{
    assert forall|j: int| 0 <= j < i implies (#[trigger] m.services[j]).0 != m.services[i].0 by {}
    table::lemma_slot_is(m.services, m.services[i].0, i);
}

/// Storing writes to variables changes no other values.
proof fn lemma_store_akin(
    m: ManagerM,
    writes: Seq<(KeyM, ValueM<Symbol>)>,
    tid: TxnId,
    n: nat,
)
    requires
        laws::well_formed(m),
        n <= writes.len(),
    ensures
        ({
            let u = transactions::store_writes(m, writes, tid, n);
            &&& akin(m, u)
            &&& forall|q: MemberM|
                !touched(m, writes, 0, n).contains(q) ==> #[trigger] kept_value(u, q)
                    == kept_value(m, q)
        }),
    decreases n,
{
    if n > 0 {
        let k = (n - 1) as nat;
        lemma_store_akin(m, writes, tid, k);
        let u = transactions::store_writes(m, writes, tid, k);
        let z = transactions::store_writes(m, writes, tid, n);
        let key = writes[n - 1].0;
        let i = model::place_of_id(u.services, key.0) as int;
        state::lemma_place_of_id(u.services, key.0);
        let before = touched(m, writes, 0, k);
        let now = touched(m, writes, 0, n);
        assert forall|q: MemberM| #[trigger] before.contains(q) implies now.contains(q) by {
            let j = choose|j: int|
                0 <= j < k && model::name_for_id(m, (#[trigger] writes[j]).0.0) == Some(q.0)
                    && writes[j].0.1 == q.1;
            assert(0 <= j < n && model::name_for_id(m, writes[j].0.0) == Some(q.0));
        }
        if i < u.services.len() && table::get(u.services[i].1.vars, key.1) is Some {
            let old_state = table::get(u.services[i].1.vars, key.1)->Some_0;
            let v = VarStateM {
                value: writes[n - 1].1,
                latest_write_txn: Some(tid),
                ..old_state
            };
            let p = (u.services[i].0, key.1);
            lemma_var_at_place(u, i, key.1, v);
            assert(z == model::with_var(u, p.0, p.1, v));
            lemma_with_var(u, p.0, p.1, v);
            assert(model::name_for_id(u, key.0) == model::name_for_id(m, key.0));
            assert(now.contains(p)) by {
                assert(model::name_for_id(m, writes[n - 1].0.0) == Some(p.0));
            }
            lemma_akin_trans(m, u, z);
            assert forall|q: MemberM| !now.contains(q) implies #[trigger] kept_value(z, q)
                == kept_value(m, q) by {
                assert(!before.contains(q));
                assert(kept_value(u, q) == kept_value(m, q));
            }
        } else {
            assert(z == u);
            assert forall|q: MemberM| !now.contains(q) implies #[trigger] kept_value(z, q)
                == kept_value(m, q) by {
                assert(!before.contains(q));
            }
        }
    }
}

/// Storing writes to variables leaves the definitions settled that read none
/// of them.
proof fn lemma_store_settled(
    m: ManagerM,
    writes: Seq<(KeyM, ValueM<Symbol>)>,
    tid: TxnId,
    rank: spec_fn(MemberM) -> nat,
)
    requires
        reactive(m, rank),
        all_settled(m),
        writes_variables(m, writes),
    ensures
        ({
            let u = transactions::store_writes(m, writes, tid, writes.len());
            &&& akin(m, u)
            &&& forall|svc: Symbol, d: Symbol|
                #![trigger settled(u, svc, d)]
                settled(u, svc, d) || (model::def_of(u, svc, d) matches Some(e) && exists|
                    q: MemberM,
                | #[trigger]
                    reads(e, svc).contains(q) && touched(m, writes, 0, writes.len()).contains(q))
        }),
{
    let u = transactions::store_writes(m, writes, tid, writes.len());
    let all = touched(m, writes, 0, writes.len());
    lemma_store_akin(m, writes, tid, writes.len());
    lemma_akin_framed(m, u);
    assert forall|svc: Symbol, d: Symbol| #![trigger settled(u, svc, d)]
        settled(u, svc, d) || (model::def_of(u, svc, d) matches Some(e) && exists|q: MemberM|
             #[trigger] reads(e, svc).contains(q) && all.contains(q)) by {
        assert(model::def_of(u, svc, d) == model::def_of(m, svc, d));
        if let Some(e) = model::def_of(m, svc, d) {
            if !(exists|q: MemberM| #[trigger] reads(e, svc).contains(q) && all.contains(q)) {
                assert(settled(m, svc, d));
                assert forall|p: MemberM| #[trigger] reads(e, svc).contains(p) implies kept_value(
                    u,
                    p,
                ) == kept_value(m, p) by {
                    assert(!all.contains(p));
                }
                assert(model::net_id(u, svc) == model::net_id(m, svc));
                assert(!all.contains((svc, d))) by {
                    if all.contains((svc, d)) {
                        assert(model::def_of(m, (svc, d).0, (svc, d).1) is None);
                    }
                }
                assert(kept_value(u, (svc, d)) == kept_value(m, (svc, d)));
                lemma_kept_frame(m, u, e, svc);
            }
        }
    }
}

/// The changes by several writes are passed on, one after the other.
proof fn lemma_propagate_writes(
    n: nat,
    writes: Seq<(KeyM, ValueM<Symbol>)>,
    i: nat,
    m: ManagerM,
    rank: spec_fn(MemberM) -> nat,
)
    requires
        reactive(m, rank),
        all_readable(m),
        covered(m, touched(m, writes, i, writes.len())),
        all_passed(n, writes, i, m),
    ensures
        ({
            let (r, z) = transactions::propagate_writes(n, writes, i, m);
            &&& r is Ok
            &&& sound(m, z)
            &&& akin(m, z)
            &&& same_vars(m, z)
            &&& covered(z, Set::empty())
        }),
    decreases writes.len() - i,
{
    let work = touched(m, writes, i, writes.len());
    if i >= writes.len() {
        assert(work =~= Set::empty());
    } else {
        let rest = touched(m, writes, i + 1, writes.len());
        match model::name_for_id(m, writes[i as int].0.0) {
            None => {
                assert(work =~= rest) by {
                    assert forall|q: MemberM| #[trigger] work.contains(q) implies rest.contains(
                        q,
                    ) by {
                        let j = choose|j: int|
                            i <= j < writes.len() && model::name_for_id(
                                m,
                                (#[trigger] writes[j]).0.0,
                            ) == Some(q.0) && writes[j].0.1 == q.1;
                        assert(j != i);
                        assert(model::name_for_id(m, writes[j].0.0) == Some(q.0));
                    }
                    assert forall|q: MemberM| #[trigger] rest.contains(q) implies work.contains(
                        q,
                    ) by {
                        let j = choose|j: int|
                            i + 1 <= j < writes.len() && model::name_for_id(
                                m,
                                (#[trigger] writes[j]).0.0,
                            ) == Some(q.0) && writes[j].0.1 == q.1;
                        assert(model::name_for_id(m, writes[j].0.0) == Some(q.0));
                    }
                }
                lemma_propagate_writes(n, writes, i + 1, m, rank);
            },
            Some(svc) => {
                let one = seq![(svc, writes[i as int].0.1)];
                let (r, z) = semantics::propagate(n, one, m);
                assert forall|t: Symbol, d: Symbol| #![trigger settled(m, t, d)]
                    settled(m, t, d) || due(m, t, d, listed(one).union(rest)) by {
                    if !settled(m, t, d) {
                        assert(due(m, t, d, work));
                        let e = model::def_of(m, t, d)->Some_0;
                        let q = choose|q: MemberM| #[trigger]
                            reads(e, t).contains(q) && (work.contains(q) || stale(m, q));
                        if !stale(m, q) {
                            let j = choose|j: int|
                                i <= j < writes.len() && model::name_for_id(
                                    m,
                                    (#[trigger] writes[j]).0.0,
                                ) == Some(q.0) && writes[j].0.1 == q.1;
                            if j == i {
                                assert(one[0] == q);
                            } else {
                                assert(model::name_for_id(m, writes[j].0.0) == Some(q.0));
                                assert(rest.contains(q));
                            }
                        }
                        assert(reads(e, t).contains(q));
                    }
                }
                lemma_propagate(n, one, m, rest, rank);
                lemma_reactive_kept(m, z, rank);
                lemma_readable_kept(m, z, rank);
                assert(touched(z, writes, i + 1, writes.len()) =~= rest);
                lemma_propagate_writes(n, writes, i + 1, z, rank);
                lemma_akin_trans(m, z, transactions::propagate_writes(n, writes, i + 1, z).1);
            },
        }
    }
}

/// Letting go of locks changes no value.
pub proof fn lemma_release_still(m: ManagerM, locked: Seq<KeyM>, t: TxnId, n: nat)
    requires
        laws::well_formed(m),
    ensures
        ({
            let z = model::release_all(m, locked, t, n);
            &&& sound(m, z)
            &&& akin(m, z)
            &&& forall|p: MemberM| #[trigger] kept_value(z, p) == kept_value(m, p)
        }),
    decreases n,
{
    if n > 0 {
        let k = (n - 1) as nat;
        lemma_release_still(m, locked, t, k);
        let u = model::release_all(m, locked, t, k);
        let z = model::release_all(m, locked, t, n);
        let key = locked[n - 1];
        let i = model::place_of_id(u.services, key.0) as int;
        state::lemma_place_of_id(u.services, key.0);
        if i < u.services.len() && table::get(u.services[i].1.vars, key.1) is Some {
            let old_state = table::get(u.services[i].1.vars, key.1)->Some_0;
            let v = VarStateM { lock: old_state.lock.released(t), ..old_state };
            let p = (u.services[i].0, key.1);
            lemma_var_at_place(u, i, key.1, v);
            assert(z == model::with_var(u, p.0, p.1, v));
            lemma_with_var(u, p.0, p.1, v);
            assert forall|q: MemberM| #[trigger] kept_value(z, q) == kept_value(m, q) by {
                assert(kept_value(u, q) == kept_value(m, q));
                if q == p {
                    assert(kept_value(u, p) == Ok::<ValueM<Symbol>, ErrM>(old_state.value));
                }
            }
            lemma_akin_trans(m, u, z);
            lemma_sound(m, z, p);
        } else {
            assert(z == u);
        }
    }
}

/// After a transaction on this node alone commits, the definitions of the node
/// have the values that their expressions give: all are settled and read as
/// they are kept. The variables have the values that were written.
///
/// Functions may be written, if they read no member or no definition calls them.
pub proof fn law_commit_is_followed(n: nat, t: TxnM, m: ManagerM, rank: spec_fn(MemberM) -> nat)
    requires
        reactive(m, rank),
        all_settled(m),
        t.participants.len() == 0,
        writes_variables(m, t.written),
        all_readable(transactions::store_writes(m, t.written, t.id, t.written.len())),
        calm(transactions::store_writes(m, t.written, t.id, t.written.len())),
        all_passed(
            n,
            t.written,
            0,
            transactions::store_writes(m, t.written, t.id, t.written.len()),
        ),
    ensures
        ({
            let (r, z) = transactions::commit(n, t, m);
            &&& r is Ok
            &&& reactive(z, rank)
            &&& all_readable(z)
            &&& all_settled(z)
            &&& all_current(z)
            &&& same_vars(
                transactions::store_writes(m, t.written, t.id, t.written.len()),
                z,
            )
        }),
{
    let u = transactions::store_writes(m, t.written, t.id, t.written.len());
    lemma_store_settled(m, t.written, t.id, rank);
    lemma_reactive_calm(m, u, rank);
    let work = touched(m, t.written, 0, t.written.len());
    assert(touched(u, t.written, 0, t.written.len()) =~= work);
    assert forall|svc: Symbol, d: Symbol| #![trigger settled(u, svc, d)]
        settled(u, svc, d) || due(u, svc, d, work) by {
        if !settled(u, svc, d) {
            let e = model::def_of(u, svc, d)->Some_0;
            let q = choose|q: MemberM| #[trigger] reads(e, svc).contains(q) && work.contains(q);
            assert(reads(e, svc).contains(q) && work.contains(q));
        }
    }
    lemma_propagate_writes(n, t.written, 0, u, rank);
    let a = transactions::propagate_writes(n, t.written, 0, u).1;
    lemma_reactive_kept(u, a, rank);
    lemma_readable_kept(u, a, rank);
    lemma_all_fresh(a, rank);
    let z = transactions::unlock(a, t);
    assert(transactions::commit(n, t, m) == (Ok::<(), ErrM>(()), z));
    lemma_release_still(a, t.locked, t.id, t.locked.len());
    assert forall|svc: Symbol, y: Symbol| #![trigger model::var_of(z, svc, y)]
        model::def_of(a, svc, y) is None implies kept_value(z, (svc, y)) == kept_value(
        a,
        (svc, y),
    ) by {}
    lemma_akin_trans(u, a, z);
    lemma_reactive_kept(a, z, rank);
    lemma_readable_kept(a, z, rank);
    assert forall|svc: Symbol, d: Symbol| #![trigger settled(z, svc, d)]
        settled(z, svc, d) || due(z, svc, d, Set::empty()) by {
        assert(settled(a, svc, d));
        assert(model::def_of(z, svc, d) == model::def_of(a, svc, d));
        if let Some(e) = model::def_of(a, svc, d) {
            lemma_akin_framed(a, z);
            lemma_kept_frame(a, z, e, svc);
        }
    }
    lemma_all_fresh(z, rank);
}

} // verus!
