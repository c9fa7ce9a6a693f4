//! A service that is created begins with its definitions settled. What is shown
//! here is of nodes whose definitions call no function.

use crate::runtime::ast::model::{DeclM, ExprM, ValueM};
use crate::runtime::interner::Symbol;
use crate::runtime::interpreter::evaluator::ErrM;
use crate::runtime::manager::calls;
use crate::runtime::manager::creation;
use crate::runtime::manager::laws;
use crate::runtime::manager::model;
use crate::runtime::manager::model::{EnvM, KeyM, ManagerM, ServiceM, Wish, World};
use crate::runtime::manager::reactive;
use crate::runtime::manager::reactive::MemberM;
use crate::runtime::manager::semantics;
use crate::runtime::manager::transactions;
use crate::runtime::semantic_analysis::var_analysis::dep_analysis;
use crate::runtime::semantic_analysis::var_analysis::dep_analysis::DepM;
use crate::runtime::semantic_analysis::var_analysis::read_write;
use crate::runtime::table;
use crate::runtime::txn;
use crate::runtime::txn::{LockM, TxnId, TxnM, VarStateM};
use vstd::prelude::*;

verus! {

/// Whether all definitions call no function, and read members of services of
/// this node.
pub open spec fn within(m: ManagerM) -> bool {
    &&& reactive::calm_defs(m)
    &&& reactive::simple(m)
    &&& reactive::no_cache(m)
    &&& laws::well_formed(m)
    &&& forall|svc: Symbol, d: Symbol, p: MemberM|
        #![trigger model::def_of(m, svc, d), table::bound(m.services, p.0)]
        model::def_of(m, svc, d) matches Some(e) && reactive::reads(e, svc).contains(p)
            ==> table::bound(m.services, p.0)
}

/// Whether an expression reads members of services of this node alone.
pub open spec fn reads_within(m: ManagerM, e: ExprM<Symbol>, svc: Symbol) -> bool {
    forall|p: MemberM| #[trigger]
        reactive::reads(e, svc).contains(p) ==> table::bound(m.services, p.0) && !table::bound(
            m.remote_services,
            p.0,
        )
}

/// Whether two nodes keep the same values.
pub open spec fn same_values(a: ManagerM, b: ManagerM) -> bool {
    forall|p: MemberM| #[trigger] reactive::kept_value(b, p) == reactive::kept_value(a, p)
}

/// Whether a transaction has written nothing, is on this node alone, and has
/// read what is kept.
pub open spec fn truthful(m: ManagerM, t: TxnM) -> bool {
    &&& t.written.len() == 0
    &&& t.participants.len() == 0
    &&& forall|s: Symbol, y: Symbol|
        #![trigger table::get(t.read_cache, (model::net_id(m, s), y))]
        table::bound(m.services, s) ==> (table::get(t.read_cache, (model::net_id(m, s), y)) matches
            Some(v) ==> reactive::kept_value(m, (s, y)) == Ok::<ValueM<Symbol>, ErrM>(v))
}

/// Whether reading under a transaction has left the node and the transaction
/// as they should be.
pub open spec fn only_read(m: ManagerM, t: TxnM, w: World) -> bool {
    &&& reactive::akin(m, w.m)
    &&& same_values(m, w.m)
    &&& w.t matches Some(t1) && truthful(w.m, t1) && t1.id == t.id
}

proof fn lemma_within_kept(a: ManagerM, b: ManagerM)
    requires
        reactive::akin(a, b),
        within(a),
    ensures
        within(b),
{
    assert forall|svc: Symbol, d: Symbol| #![trigger model::def_of(b, svc, d)]
        model::def_of(b, svc, d) is Some implies reactive::call_free(
        model::def_of(b, svc, d)->Some_0,
    ) && reactive::reads_here(b, model::def_of(b, svc, d)->Some_0, svc) && !table::bound(
        b.remote_services,
        svc,
    ) by {
        assert(model::def_of(a, svc, d) == model::def_of(b, svc, d));
        assert(reactive::reads_here(a, model::def_of(a, svc, d)->Some_0, svc));
    }
    assert forall|svc: Symbol, d: Symbol, p: MemberM|
        #![trigger model::def_of(b, svc, d), table::bound(b.services, p.0)]
        model::def_of(b, svc, d) matches Some(e) && reactive::reads(e, svc).contains(p) implies
        table::bound(b.services, p.0) by {
        assert(model::def_of(a, svc, d) == model::def_of(b, svc, d));
        assert(table::bound(a.services, p.0));
    }
}

/// Nodes that are akin and keep the same values read the same.
proof fn lemma_same_outcome(
    n: nat,
    e: ExprM<Symbol>,
    env: EnvM,
    svc: Symbol,
    a: ManagerM,
    b: ManagerM,
)
    requires
        reactive::akin(a, b),
        same_values(a, b),
        within(a),
        reactive::call_free(e),
        reads_within(a, e, svc),
    ensures
        within(b),
        reads_within(b, e, svc),
        reactive::outcome(n, e, env, svc, b) == reactive::outcome(n, e, env, svc, a),
{
    lemma_within_kept(a, b);
    assert forall|s: Symbol, y: Symbol| #![trigger model::var_of(b, s, y)]
        model::def_of(a, s, y) is None implies reactive::kept_value(b, (s, y))
        == reactive::kept_value(a, (s, y)) by {}
    reactive::lemma_alike(a, b);
    assert(reactive::reads_here(a, e, svc));
    assert forall|p: MemberM| #[trigger]
        reactive::reads(e, svc).contains(p) implies table::bound(b.services, p.0)
        && !table::bound(b.remote_services, p.0) by {
        assert(table::bound(b.services, p.0) == table::bound(a.services, p.0));
    }
    reactive::lemma_eval_alike(n, e, env, svc, a, b);
}

proof fn lemma_only_read_trans(m: ManagerM, t: TxnM, w: World, z: World)
    requires
        only_read(m, t, w),
        only_read(w.m, w.t->Some_0, z),
    ensures
        only_read(m, t, z),
{
    reactive::lemma_akin_trans(m, w.m, z.m);
    assert forall|p: MemberM| #[trigger] reactive::kept_value(z.m, p) == reactive::kept_value(
        m,
        p,
    ) by {
        assert(reactive::kept_value(w.m, p) == reactive::kept_value(m, p));
    }
}

proof fn lemma_only_read_refl(m: ManagerM, t: TxnM)
    requires
        truthful(m, t),
    ensures
        only_read(m, t, World { m, t: Some(t) }),
{
}

/// A variable that is read under a transaction has the value that is kept.
proof fn lemma_local_read(p: MemberM, m: ManagerM, t: TxnM)
    requires
        truthful(m, t),
        laws::well_formed(m),
        table::bound(m.services, p.0),
    ensures
        ({
            let (r, w) = model::local_read(p.1, p.0, World { m, t: Some(t) });
            r matches Ok(v) ==> reactive::kept_value(m, p) == Ok::<ValueM<Symbol>, ErrM>(v)
                && only_read(m, t, w)
        }),
{
    let (r, w) = model::local_read(p.1, p.0, World { m, t: Some(t) });
    let key = (model::net_id(m, p.0), p.1);
    if r is Ok {
        if table::get(t.read_cache, key) is None {
            let (q, m1) = if t.locked.contains(key) {
                (Ok::<(), ErrM>(()), m)
            } else {
                model::acquire(m, p.0, p.1, t.id, Wish::Read)
            };
            if !t.locked.contains(key) {
                let v = model::var_of(m, p.0, p.1)->Some_0;
                reactive::lemma_with_var(
                    m,
                    p.0,
                    p.1,
                    VarStateM { lock: model::granted(v.lock, Wish::Read, t.id), ..v },
                );
            }
            assert(reactive::akin(m, m1) && same_values(m, m1));
            let v = model::var_of(m1, p.0, p.1)->Some_0.value;
            assert(reactive::kept_value(m1, p) == Ok::<ValueM<Symbol>, ErrM>(v));
            let t1 = w.t->Some_0;
            assert(w.m == m1);
            assert(t1.read_cache == table::put(t.read_cache, key, v));
            assert forall|s: Symbol, y: Symbol|
                #![trigger table::get(t1.read_cache, (model::net_id(m1, s), y))]
                table::bound(m1.services, s) implies (table::get(
                t1.read_cache,
                (model::net_id(m1, s), y),
            ) matches Some(u) ==> reactive::kept_value(m1, (s, y)) == Ok::<
                ValueM<Symbol>,
                ErrM,
            >(u)) by {
                assert(model::net_id(m1, s) == model::net_id(m, s));
                assert(table::bound(m1.services, s) == table::bound(m.services, s));
                table::lemma_put(t.read_cache, key, v, (model::net_id(m, s), y));
                if (model::net_id(m, s), y) == key {
                    reactive::lemma_own_name(m, s);
                    reactive::lemma_own_name(m, p.0);
                    assert((s, y) == p);
                } else {
                    assert(reactive::kept_value(m1, (s, y)) == reactive::kept_value(m, (s, y)));
                }
            }
        }
    }
}

/// An expression that is evaluated under a transaction has the value that it
/// has without one.
proof fn lemma_eval_txn(n: nat, e: ExprM<Symbol>, env: EnvM, svc: Symbol, m: ManagerM, t: TxnM)
    requires
        within(m),
        truthful(m, t),
        reactive::call_free(e),
        reads_within(m, e, svc),
    ensures
        ({
            let (r, w) = semantics::eval(n, e, env, svc, World { m, t: Some(t) });
            r matches Ok(v) ==> reactive::outcome(n, e, env, svc, m) == Ok::<
                ValueM<Symbol>,
                ErrM,
            >(v) && only_read(m, t, w)
        }),
    decreases n,
{
    let w0 = World { m, t: Some(t) };
    let u0 = World { m, t: None };
    reactive::lemma_no_steps(e, env, svc, svc, w0);
    lemma_only_read_refl(m, t);
    if n > 0 {
        let k = (n - 1) as nat;
        reactive::lemma_eval_steps(n, e, env, svc, w0);
        reactive::lemma_eval_steps(n, e, env, svc, u0);
        reactive::lemma_reads_parts(m, e, svc);
        match e {
            ExprM::Variable { name } => {
                assert(reactive::reads(e, svc).contains((svc, name)));
                if model::env_get(env, name) is None {
                    lemma_read_txn(k, m, t, (svc, name));
                }
            },
            ExprM::MemberAccess { service_name, member_name } => {
                assert(reactive::reads(e, svc).contains((service_name, member_name)));
                reactive::lemma_no_cached(m, (service_name, member_name));
                lemma_read_txn(k, m, t, (service_name, member_name));
            },
            ExprM::Unop { op, expr } => {
                assert(reactive::reads(e, svc) == reactive::reads(*expr, svc));
                lemma_eval_txn(k, *expr, env, svc, m, t);
            },
            ExprM::Binop { op, expr1, expr2 } => {
                lemma_within_part(m, e, *expr1, svc);
                lemma_within_part(m, e, *expr2, svc);
                lemma_eval_txn(k, *expr1, env, svc, m, t);
                reactive::lemma_eval_still(k, *expr1, env, svc, m);
                let (r1, w1) = semantics::eval(k, *expr1, env, svc, w0);
                if r1 is Ok {
                    let t1 = w1.t->Some_0;
                    lemma_same_outcome(k, *expr2, env, svc, m, w1.m);
                    lemma_eval_txn(k, *expr2, env, svc, w1.m, t1);
                    let (r2, w2) = semantics::eval(k, *expr2, env, svc, w1);
                    if r2 is Ok {
                        lemma_only_read_trans(m, t, w1, w2);
                    }
                }
            },
            ExprM::If { cond, expr1, expr2 } => {
                lemma_within_part(m, e, *cond, svc);
                lemma_within_part(m, e, *expr1, svc);
                lemma_within_part(m, e, *expr2, svc);
                lemma_eval_txn(k, *cond, env, svc, m, t);
                reactive::lemma_eval_still(k, *cond, env, svc, m);
                let (r1, w1) = semantics::eval(k, *cond, env, svc, w0);
                if r1 is Ok {
                    let t1 = w1.t->Some_0;
                    let chosen = if r1->Ok_0 matches ValueM::Bool { val } && val {
                        *expr1
                    } else {
                        *expr2
                    };
                    lemma_same_outcome(k, chosen, env, svc, m, w1.m);
                    lemma_eval_txn(k, chosen, env, svc, w1.m, t1);
                    let (r2, w2) = semantics::eval(k, chosen, env, svc, w1);
                    if r2 is Ok {
                        lemma_only_read_trans(m, t, w1, w2);
                    }
                }
            },
            _ => {},
        }
    }
}

/// A part of an expression reads no more than the whole.
proof fn lemma_within_part(m: ManagerM, e: ExprM<Symbol>, part: ExprM<Symbol>, svc: Symbol)
    requires
        reads_within(m, e, svc),
        forall|p: MemberM| #[trigger]
            reactive::reads(part, svc).contains(p) ==> reactive::reads(e, svc).contains(p),
    ensures
        reads_within(m, part, svc),
        reactive::reads_here(m, part, svc),
{
    assert forall|p: MemberM| #[trigger] reactive::reads(part, svc).contains(p) implies table::bound(
        m.services,
        p.0,
    ) && !table::bound(m.remote_services, p.0) by {
        assert(reactive::reads(e, svc).contains(p));
    }
}

/// A member that is read under a transaction has the value that it has
/// without one.
proof fn lemma_read_txn(n: nat, m: ManagerM, t: TxnM, p: MemberM)
    requires
        within(m),
        truthful(m, t),
        table::bound(m.services, p.0),
        !table::bound(m.remote_services, p.0),
    ensures
        ({
            let (r, w) = semantics::lookup(n, p.1, p.0, World { m, t: Some(t) });
            r matches Ok(v) ==> reactive::read(n, m, p) == Ok::<ValueM<Symbol>, ErrM>(v)
                && only_read(m, t, w)
        }),
    decreases n,
{
    let w0 = World { m, t: Some(t) };
    let u0 = World { m, t: None };
    reactive::lemma_no_steps(ExprM::Variable { name: p.1 }, seq![], p.1, p.0, w0);
    if n > 0 {
        reactive::lemma_read_steps(n, p.1, p.0, w0);
        reactive::lemma_read_steps(n, p.1, p.0, u0);
        match model::def_of(m, p.0, p.1) {
            Some(e) => {
                assert(reactive::reads_here(m, e, p.0));
                assert forall|q: MemberM| #[trigger]
                    reactive::reads(e, p.0).contains(q) implies table::bound(m.services, q.0)
                    && !table::bound(m.remote_services, q.0) by {}
                lemma_eval_txn((n - 1) as nat, e, seq![], p.0, m, t);
            },
            None => {
                lemma_local_read(p, m, t);
            },
        }
    }
}

/// Whether two nodes are the same but for some members, which no definition
/// besides them reads.
pub open spec fn apart(a: ManagerM, b: ManagerM, xs: Set<MemberM>) -> bool {
    &&& b.remote_services == a.remote_services
    &&& b.interner == a.interner
    &&& reactive::no_cache(a)
    &&& reactive::no_cache(b)
    &&& reactive::calm_defs(a)
    &&& reactive::simple(a)
    &&& reactive::calm_defs(b)
    &&& reactive::simple(b)
    &&& forall|p: MemberM|
        #![trigger reactive::kept_value(b, p)]
        !xs.contains(p) ==> reactive::kept_value(b, p) == reactive::kept_value(a, p)
    &&& forall|s: Symbol, y: Symbol|
        #![trigger model::def_of(b, s, y)]
        !xs.contains((s, y)) ==> model::def_of(b, s, y) == model::def_of(a, s, y)
    &&& forall|s: Symbol, y: Symbol|
        #![trigger model::def_of(a, s, y)]
        !xs.contains((s, y)) ==> (model::def_of(a, s, y) matches Some(e)
            ==> reactive::reads(e, s).disjoint(xs))
    &&& forall|s: Symbol|
        #![trigger model::net_id(b, s)]
        table::bound(a.services, s) ==> model::net_id(b, s) == model::net_id(a, s)
}

/// All members of a service, there or not.
pub open spec fn members(svc: Symbol) -> Set<MemberM> {
    Set::new(|p: MemberM| p.0 == svc)
}

/// What does not read these members is evaluated alike.
proof fn lemma_eval_apart(
    n: nat,
    e: ExprM<Symbol>,
    svc: Symbol,
    a: ManagerM,
    b: ManagerM,
    xs: Set<MemberM>,
)
    requires
        apart(a, b, xs),
        model::net_id(b, svc) == model::net_id(a, svc),
        reactive::call_free(e),
        reactive::reads_here(a, e, svc),
        reactive::reads(e, svc).disjoint(xs),
    ensures
        reactive::outcome(n, e, seq![], svc, b) == reactive::outcome(n, e, seq![], svc, a),
    decreases n,
{
    let wa = World { m: a, t: None };
    let wb = World { m: b, t: None };
    let env: EnvM = seq![];
    reactive::lemma_no_steps(e, env, svc, svc, wa);
    reactive::lemma_no_steps(e, env, svc, svc, wb);
    if n > 0 {
        let k = (n - 1) as nat;
        reactive::lemma_eval_steps(n, e, env, svc, wa);
        reactive::lemma_eval_steps(n, e, env, svc, wb);
        reactive::lemma_reads_parts(a, e, svc);
        match e {
            ExprM::Variable { name } => {
                assert(reactive::reads(e, svc).contains((svc, name)));
                lemma_read_apart(k, a, b, xs, (svc, name));
            },
            ExprM::MemberAccess { service_name, member_name } => {
                let p = (service_name, member_name);
                assert(reactive::reads(e, svc).contains(p));
                reactive::lemma_no_cached(a, p);
                reactive::lemma_no_cached(b, p);
                lemma_read_apart(k, a, b, xs, p);
            },
            ExprM::Unop { op, expr } => {
                assert(reactive::reads(e, svc) == reactive::reads(*expr, svc));
                lemma_eval_apart(k, *expr, svc, a, b, xs);
            },
            ExprM::Binop { op, expr1, expr2 } => {
                assert(reactive::reads_here(b, *expr1, svc)) by {
                    assert(reactive::reads_here(a, *expr1, svc));
                }
                reactive::lemma_eval_still(k, *expr1, env, svc, a);
                reactive::lemma_eval_still(k, *expr1, env, svc, b);
                lemma_eval_apart(k, *expr1, svc, a, b, xs);
                lemma_eval_apart(k, *expr2, svc, a, b, xs);
            },
            ExprM::If { cond, expr1, expr2 } => {
                assert(reactive::reads_here(b, *cond, svc)) by {
                    assert(reactive::reads_here(a, *cond, svc));
                }
                reactive::lemma_eval_still(k, *cond, env, svc, a);
                reactive::lemma_eval_still(k, *cond, env, svc, b);
                lemma_eval_apart(k, *cond, svc, a, b, xs);
                lemma_eval_apart(k, *expr1, svc, a, b, xs);
                lemma_eval_apart(k, *expr2, svc, a, b, xs);
            },
            _ => {},
        }
    }
}

/// The other members are read alike.
proof fn lemma_read_apart(n: nat, a: ManagerM, b: ManagerM, xs: Set<MemberM>, p: MemberM)
    requires
        apart(a, b, xs),
        !xs.contains(p),
        !table::bound(a.remote_services, p.0),
    ensures
        reactive::read(n, b, p) == reactive::read(n, a, p),
    decreases n,
{
    let wa = World { m: a, t: None };
    let wb = World { m: b, t: None };
    reactive::lemma_no_steps(ExprM::Variable { name: p.1 }, seq![], p.1, p.0, wa);
    reactive::lemma_no_steps(ExprM::Variable { name: p.1 }, seq![], p.1, p.0, wb);
    if n > 0 {
        reactive::lemma_read_steps(n, p.1, p.0, wa);
        reactive::lemma_read_steps(n, p.1, p.0, wb);
        assert(model::def_of(b, p.0, p.1) == model::def_of(a, p.0, p.1));
        match model::def_of(a, p.0, p.1) {
            Some(e) => {
                lemma_eval_apart((n - 1) as nat, e, p.0, a, b, xs);
            },
            None => {
                assert(reactive::kept_value(b, p) == reactive::kept_value(a, p));
            },
        }
    }
}

/// An expression that has a value by the values that are kept can be evaluated.
proof fn lemma_enough_steps(e: ExprM<Symbol>, svc: Symbol, m: ManagerM) -> (n: nat)
    requires
        reactive::calm_defs(m),
        reactive::simple(m),
        reactive::no_cache(m),
        reactive::all_readable(m),
        reactive::call_free(e),
        reactive::reads_here(m, e, svc),
        forall|p: MemberM| #[trigger]
            reactive::reads(e, svc).contains(p) ==> !reactive::stale(m, p),
        reactive::from_kept(m, e, svc) is Ok,
    ensures
        reactive::outcome(n, e, seq![], svc, m) == reactive::from_kept(m, e, svc),
    decreases e,
{
    let env: EnvM = seq![];
    let w = World { m, t: None };
    reactive::lemma_reads_parts(m, e, svc);
    match e {
        ExprM::Variable { name } => {
            let p = (svc, name);
            assert(reactive::reads(e, svc).contains(p));
            let k = lemma_readable_steps(m, p);
            reactive::lemma_eval_steps(k + 1, e, env, svc, w);
            k + 1
        },
        ExprM::MemberAccess { service_name, member_name } => {
            let p = (service_name, member_name);
            assert(reactive::reads(e, svc).contains(p));
            reactive::lemma_no_cached(m, p);
            let k = lemma_readable_steps(m, p);
            reactive::lemma_eval_steps(k + 1, e, env, svc, w);
            k + 1
        },
        ExprM::Unop { op, expr } => {
            assert(reactive::reads(e, svc) == reactive::reads(*expr, svc));
            let k = lemma_enough_steps(*expr, svc, m);
            reactive::lemma_eval_steps(k + 1, e, env, svc, w);
            k + 1
        },
        ExprM::Binop { op, expr1, expr2 } => {
            lemma_part_fresh(m, e, *expr1, svc);
            lemma_part_fresh(m, e, *expr2, svc);
            let k1 = lemma_enough_steps(*expr1, svc, m);
            let k2 = lemma_enough_steps(*expr2, svc, m);
            let k = if k1 < k2 {
                k2
            } else {
                k1
            };
            reactive::lemma_eval_more(k1, k, *expr1, env, svc, m);
            reactive::lemma_eval_more(k2, k, *expr2, env, svc, m);
            reactive::lemma_eval_still(k, *expr1, env, svc, m);
            reactive::lemma_eval_steps(k + 1, e, env, svc, w);
            k + 1
        },
        ExprM::If { cond, expr1, expr2 } => {
            lemma_part_fresh(m, e, *cond, svc);
            lemma_part_fresh(m, e, *expr1, svc);
            lemma_part_fresh(m, e, *expr2, svc);
            let k1 = lemma_enough_steps(*cond, svc, m);
            let chosen = if reactive::from_kept(m, *cond, svc)->Ok_0 matches ValueM::Bool { val }
                && val {
                *expr1
            } else {
                *expr2
            };
            let k2 = if chosen == *expr1 {
                lemma_enough_steps(*expr1, svc, m)
            } else {
                lemma_enough_steps(*expr2, svc, m)
            };
            let k = if k1 < k2 {
                k2
            } else {
                k1
            };
            reactive::lemma_eval_more(k1, k, *cond, env, svc, m);
            reactive::lemma_eval_more(k2, k, chosen, env, svc, m);
            reactive::lemma_eval_still(k, *cond, env, svc, m);
            reactive::lemma_eval_steps(k + 1, e, env, svc, w);
            k + 1
        },
        _ => {
            reactive::lemma_eval_steps(1, e, env, svc, w);
            1
        },
    }
}

proof fn lemma_part_fresh(m: ManagerM, e: ExprM<Symbol>, part: ExprM<Symbol>, svc: Symbol)
    requires
        forall|p: MemberM| #[trigger]
            reactive::reads(e, svc).contains(p) ==> !reactive::stale(m, p),
        forall|p: MemberM| #[trigger]
            reactive::reads(part, svc).contains(p) ==> reactive::reads(e, svc).contains(p),
    ensures
        forall|p: MemberM| #[trigger]
            reactive::reads(part, svc).contains(p) ==> !reactive::stale(m, p),
{
}

/// A member that is there and not stale can be read.
proof fn lemma_readable_steps(m: ManagerM, p: MemberM) -> (n: nat)
    requires
        reactive::calm_defs(m),
        reactive::simple(m),
        reactive::no_cache(m),
        reactive::all_readable(m),
        !table::bound(m.remote_services, p.0),
        !reactive::stale(m, p),
        reactive::kept_value(m, p) is Ok,
    ensures
        reactive::read(n, m, p) == reactive::kept_value(m, p),
{
    if model::def_of(m, p.0, p.1) is Some {
        assert(reactive::readable(m, p));
        let n = choose|n: nat| (#[trigger] reactive::read(n, m, p)) is Ok;
        n
    } else {
        reactive::lemma_read_steps(1, p.1, p.0, World { m, t: None });
        1
    }
}

/// Whether the declaration at place `i` of a new service is one of those that
/// the node can keep settled: it calls no function and reads what is there, on
/// this node, and a definition does not depend on itself.
pub open spec fn fits(
    m: ManagerM,
    svc: Symbol,
    decls: Seq<DeclM<Symbol>>,
    i: int,
    rank: spec_fn(MemberM) -> nat,
) -> bool {
    match decls[i] {
        DeclM::TableDecl { name, fields } => true,
        DeclM::VarDecl { name, ty, val } => reactive::call_free(val) && (forall|p: MemberM|
            #[trigger] reactive::reads(val, svc).contains(p) ==> there(m, svc, decls, i, p)),
        DeclM::DefDecl { name, ty, val, is_pub } => reactive::call_free(val) && (forall|
            p: MemberM,
        | #[trigger]
            reactive::reads(val, svc).contains(p) ==> there(m, svc, decls, i, p) && rank(p) < rank(
                (svc, name),
            )),
    }
}

/// Whether a member of this node is there when the declaration at place `i`
/// takes effect.
pub open spec fn there(
    m: ManagerM,
    svc: Symbol,
    decls: Seq<DeclM<Symbol>>,
    i: int,
    p: MemberM,
) -> bool {
    !table::bound(m.remote_services, p.0) && if p.0 == svc {
        before(decls, i, p.1)
    } else {
        model::var_of(m, p.0, p.1) is Some
    }
}

/// Whether a name is declared before place `i`.
pub open spec fn before(decls: Seq<DeclM<Symbol>>, i: int, y: Symbol) -> bool {
    exists|j: int| 0 <= j < i && creation::declared(#[trigger] decls[j]) == y
}

/// Whether a definition is declared before place `i`.
pub open spec fn defined_before(
    decls: Seq<DeclM<Symbol>>,
    i: int,
    y: Symbol,
    e: ExprM<Symbol>,
) -> bool {
    exists|j: int|
        0 <= j < i && (#[trigger] decls[j] matches DeclM::DefDecl { name, ty, val, is_pub } && name
            == y && val == e)
}

/// Whether a service can be created under a name and begin settled: the name
/// and the identity are new, what it declares has distinct names, and each
/// declaration fits.
pub open spec fn suits(
    m: ManagerM,
    svc: Symbol,
    decls: Seq<DeclM<Symbol>>,
    rank: spec_fn(MemberM) -> nat,
) -> bool {
    &&& !table::bound(m.services, svc)
    &&& !table::bound(m.remote_services, svc)
    &&& forall|i: int|
        0 <= i < m.services.len() ==> (#[trigger] m.services[i]).1.id != model::new_net_id(m, svc)
    &&& forall|i: int, j: int|
        0 <= i < j < decls.len() ==> creation::declared(#[trigger] decls[i])
            != creation::declared(#[trigger] decls[j])
    &&& forall|i: int| 0 <= i < decls.len() ==> #[trigger] fits(m, svc, decls, i, rank)
}

/// Whether a node is settled, with the first `i` declarations of a new service
/// in effect and everything else as it was in `a`.
pub open spec fn building(
    a: ManagerM,
    m: ManagerM,
    svc: Symbol,
    decls: Seq<DeclM<Symbol>>,
    i: int,
    env: EnvM,
    dep: DepM,
    rank: spec_fn(MemberM) -> nat,
) -> bool {
    &&& reactive::tidy(m, rank)
    &&& reactive::simple(m)
    &&& reactive::all_settled(m)
    &&& reactive::all_readable(m)
    &&& reactive::faithful(m, svc, env)
    &&& inward(m, svc)
    &&& grown(a, m, svc, decls, i, dep)
}

/// Whether definitions read members of services of this node, and of one of
/// them only what is there.
pub open spec fn inward(m: ManagerM, svc: Symbol) -> bool {
    forall|s: Symbol, d: Symbol, p: MemberM|
        #![trigger model::def_of(m, s, d), table::bound(m.services, p.0)]
        model::def_of(m, s, d) matches Some(e) && reactive::reads(e, s).contains(p)
            ==> table::bound(m.services, p.0) && (p.0 == svc ==> model::var_of(m, svc, p.1) is Some)
}

/// Whether a node has the first `i` declarations of a new service, and
/// everything else as it was in `a`.
pub open spec fn grown(
    a: ManagerM,
    m: ManagerM,
    svc: Symbol,
    decls: Seq<DeclM<Symbol>>,
    i: int,
    dep: DepM,
) -> bool {
    &&& m.remote_services == a.remote_services
    &&& m.interner == a.interner
    &&& forall|s: Symbol|
        #![trigger table::bound(m.services, s)]
        table::bound(m.services, s) == (s == svc || table::bound(a.services, s))
    &&& forall|s: Symbol|
        #![trigger model::net_id(m, s)]
        table::bound(a.services, s) ==> model::net_id(m, s) == model::net_id(a, s)
    &&& forall|s: Symbol, y: Symbol|
        #![trigger model::def_of(m, s, y)]
        s != svc ==> model::def_of(m, s, y) == model::def_of(a, s, y)
    &&& forall|s: Symbol, y: Symbol|
        #![trigger model::var_of(m, s, y)]
        s != svc ==> (model::var_of(m, s, y) is Some) == (model::var_of(a, s, y) is Some)
    &&& forall|s: Symbol, y: Symbol|
        #![trigger model::listeners_of(m, s, y)]
        s != svc ==> model::listeners_of(m, s, y) == model::listeners_of(a, s, y)
    &&& table::get(m.services, svc) matches Some(s) && s.id == model::new_net_id(a, svc) && s.dep
        == dep && s.dep_cache.len() == 0
    &&& forall|y: Symbol|
        #![trigger model::var_of(m, svc, y)]
        (model::var_of(m, svc, y) is Some) == before(decls, i, y)
    &&& forall|y: Symbol|
        #![trigger model::def_of(m, svc, y)]
        model::def_of(m, svc, y) matches Some(e) ==> defined_before(decls, i, y, e)
}

proof fn lemma_building_within(
    a: ManagerM,
    m: ManagerM,
    svc: Symbol,
    decls: Seq<DeclM<Symbol>>,
    i: int,
    env: EnvM,
    dep: DepM,
    rank: spec_fn(MemberM) -> nat,
)
    requires
        building(a, m, svc, decls, i, env, dep, rank),
    ensures
        within(m),
{
    assert forall|s: Symbol, d: Symbol, p: MemberM|
        #![trigger model::def_of(m, s, d), table::bound(m.services, p.0)]
        model::def_of(m, s, d) matches Some(e) && reactive::reads(e, s).contains(p) implies
        table::bound(m.services, p.0) by {}
}

/// Reading leaves the node settled.
proof fn lemma_building_kept(
    a: ManagerM,
    m: ManagerM,
    z: ManagerM,
    svc: Symbol,
    decls: Seq<DeclM<Symbol>>,
    i: int,
    env: EnvM,
    dep: DepM,
    rank: spec_fn(MemberM) -> nat,
)
    requires
        building(a, m, svc, decls, i, env, dep, rank),
        reactive::akin(m, z),
        same_values(m, z),
    ensures
        building(a, z, svc, decls, i, env, dep, rank),
{
    reactive::lemma_tidy_kept(m, z, rank);
    assert forall|s: Symbol, y: Symbol| #![trigger model::var_of(z, s, y)]
        model::def_of(m, s, y) is None implies reactive::kept_value(z, (s, y))
        == reactive::kept_value(m, (s, y)) by {}
    reactive::lemma_readable_kept(m, z, rank);
    assert forall|s: Symbol, d: Symbol| #[trigger] reactive::settled(z, s, d) by {
        assert(reactive::settled(m, s, d));
        assert(model::def_of(z, s, d) == model::def_of(m, s, d));
        if let Some(e) = model::def_of(m, s, d) {
            reactive::lemma_kept_frame(m, z, e, s);
        }
    }
    assert forall|y: Symbol| #![trigger model::env_get(env, y)]
        model::env_get(env, y) is Some implies reactive::kept_value(z, (svc, y)) == Ok::<
        ValueM<Symbol>,
        ErrM,
    >(model::env_get(env, y)->Some_0) by {
        assert(reactive::kept_value(z, (svc, y)) == reactive::kept_value(m, (svc, y)));
    }
    assert forall|k: int| 0 <= k < env.len() implies model::is_member(
        z,
        svc,
        (#[trigger] env[k]).0,
    ) by {
        let y = env[k].0;
        assert(model::is_member(m, svc, y));
        assert(model::def_of(z, svc, y) == model::def_of(m, svc, y));
        assert((model::var_of(z, svc, y) is Some) == (model::var_of(m, svc, y) is Some));
        assert(table::bound(z.services, svc) == table::bound(m.services, svc));
    }
    assert forall|s: Symbol, d: Symbol, p: MemberM|
        #![trigger model::def_of(z, s, d), table::bound(z.services, p.0)]
        model::def_of(z, s, d) matches Some(e) && reactive::reads(e, s).contains(p) implies
        table::bound(z.services, p.0) && (p.0 == svc ==> model::var_of(z, svc, p.1) is Some) by {
        assert(model::def_of(z, s, d) == model::def_of(m, s, d));
        assert(table::bound(z.services, p.0) == table::bound(m.services, p.0));
        assert((model::var_of(z, svc, p.1) is Some) == (model::var_of(m, svc, p.1) is Some));
    }
    lemma_grown_kept(a, m, z, svc, decls, i, dep);
}

proof fn lemma_grown_kept(
    a: ManagerM,
    m: ManagerM,
    z: ManagerM,
    svc: Symbol,
    decls: Seq<DeclM<Symbol>>,
    i: int,
    dep: DepM,
)
    requires
        grown(a, m, svc, decls, i, dep),
        reactive::akin(m, z),
    ensures
        grown(a, z, svc, decls, i, dep),
{
    assert forall|s: Symbol| #![trigger table::bound(z.services, s)]
        table::bound(z.services, s) == (s == svc || table::bound(a.services, s)) by {
        assert(table::bound(m.services, s) == (s == svc || table::bound(a.services, s)));
    }
    assert forall|s: Symbol| #![trigger model::net_id(z, s)]
        table::bound(a.services, s) implies model::net_id(z, s) == model::net_id(a, s) by {
        assert(model::net_id(m, s) == model::net_id(a, s));
    }
    assert forall|s: Symbol, y: Symbol| #![trigger model::def_of(z, s, y)]
        s != svc implies model::def_of(z, s, y) == model::def_of(a, s, y) by {
        assert(model::def_of(m, s, y) == model::def_of(a, s, y));
    }
    assert forall|s: Symbol, y: Symbol| #![trigger model::var_of(z, s, y)]
        s != svc implies (model::var_of(z, s, y) is Some) == (model::var_of(a, s, y) is Some) by {
        assert((model::var_of(m, s, y) is Some) == (model::var_of(a, s, y) is Some));
    }
    assert forall|s: Symbol, y: Symbol| #![trigger model::listeners_of(z, s, y)]
        s != svc implies model::listeners_of(z, s, y) == model::listeners_of(a, s, y) by {
        assert(model::listeners_of(m, s, y) == model::listeners_of(a, s, y));
    }
    assert forall|y: Symbol| #![trigger model::var_of(z, svc, y)]
        (model::var_of(z, svc, y) is Some) == before(decls, i, y) by {
        assert((model::var_of(m, svc, y) is Some) == before(decls, i, y));
    }
    assert forall|y: Symbol| #![trigger model::def_of(z, svc, y)]
        model::def_of(z, svc, y) matches Some(e) implies defined_before(
        decls,
        i,
        y,
        model::def_of(z, svc, y)->Some_0,
    ) by {
        assert(model::def_of(z, svc, y) == model::def_of(m, svc, y));
    }
    assert(table::bound(z.services, svc) == table::bound(m.services, svc));
}

/// Whether a node has one more member of a service than another: a variable,
/// or a definition where there is an expression.
pub open spec fn one_more(
    m: ManagerM,
    z: ManagerM,
    svc: Symbol,
    x: Symbol,
    v: VarStateM,
    e: Option<ExprM<Symbol>>,
) -> bool {
    &&& z.remote_services == m.remote_services
    &&& z.interner == m.interner
    &&& z.reactive_cache == m.reactive_cache
    &&& laws::well_formed(z)
    &&& table::bound(m.services, svc)
    &&& forall|q: Symbol| #[trigger]
        table::bound(z.services, q) == table::bound(m.services, q)
    &&& forall|q: Symbol|
        #![trigger table::get(z.services, q)]
        q != svc ==> table::get(z.services, q) == table::get(m.services, q)
    &&& ({
        let s = table::get(m.services, svc)->Some_0;
        let s1 = table::get(z.services, svc)->Some_0;
        &&& s1 == (ServiceM { vars: s1.vars, defs: s1.defs, ..s })
    })
    &&& forall|q: Symbol, y: Symbol| #[trigger]
        model::var_of(z, q, y) == (if (q, y) == (svc, x) {
            Some(v)
        } else {
            model::var_of(m, q, y)
        })
    &&& forall|q: Symbol, y: Symbol| #[trigger]
        model::def_of(z, q, y) == (if (q, y) == (svc, x) && e is Some {
            e
        } else {
            model::def_of(m, q, y)
        })
}

/// A variable is set up.
proof fn lemma_one_var(m: ManagerM, svc: Symbol, x: Symbol, v: VarStateM)
    requires
        laws::well_formed(m),
        table::bound(m.services, svc),
    ensures
        one_more(m, model::with_var(m, svc, x, v), svc, x, v, None),
{
    let z = model::with_var(m, svc, x, v);
    reactive::lemma_put_var(m, svc, x, v);
    assert forall|q: Symbol, y: Symbol| #[trigger]
        model::def_of(z, q, y) == model::def_of(m, q, y) by {
        assert(table::get(z.services, q) == (if q == svc {
            table::get(z.services, svc)
        } else {
            table::get(m.services, q)
        }));
    }
}

/// A definition is set up.
proof fn lemma_one_def(m: ManagerM, svc: Symbol, x: Symbol, v: VarStateM, e: ExprM<Symbol>)
    requires
        laws::well_formed(m),
        table::bound(m.services, svc),
    ensures
        one_more(
            m,
            transactions::with_def(model::with_var(m, svc, x, v), svc, x, e),
            svc,
            x,
            v,
            Some(e),
        ),
{
    let u = model::with_var(m, svc, x, v);
    let z = transactions::with_def(u, svc, x, e);
    reactive::lemma_put_var(m, svc, x, v);
    let s = table::get(u.services, svc)->Some_0;
    let s1 = ServiceM { defs: table::put(s.defs, x, e), ..s };
    table::lemma_slot(u.services, svc);
    let i = table::slot(u.services, svc) as int;
    assert(table::bound(u.services, svc) == table::bound(m.services, svc));
    assert(z.services =~= u.services.update(i, (svc, s1)));
    assert forall|q: Symbol| #[trigger] table::get(z.services, q) == (if q == svc {
        Some(s1)
    } else {
        table::get(u.services, q)
    }) by {
        table::lemma_put(u.services, svc, s1, q);
    }
    assert forall|q: Symbol| #[trigger]
        table::bound(z.services, q) == table::bound(m.services, q) by {
        table::lemma_put(u.services, svc, s1, q);
        assert(table::bound(u.services, q) == table::bound(m.services, q));
    }
    assert forall|q: Symbol| #![trigger table::get(z.services, q)]
        q != svc implies table::get(z.services, q) == table::get(m.services, q) by {
        assert(table::get(u.services, q) == table::get(m.services, q));
    }
    assert forall|q: Symbol, y: Symbol| #[trigger]
        model::var_of(z, q, y) == model::var_of(u, q, y) by {
        assert(table::get(z.services, q) == (if q == svc {
            Some(s1)
        } else {
            table::get(u.services, q)
        }));
    }
    assert forall|q: Symbol, y: Symbol| #[trigger] model::def_of(z, q, y) == (if (q, y) == (
        svc,
        x,
    ) {
        Some(e)
    } else {
        model::def_of(m, q, y)
    }) by {
        assert(table::get(z.services, q) == (if q == svc {
            Some(s1)
        } else {
            table::get(u.services, q)
        }));
        table::lemma_put(s.defs, x, e, y);
    }
    table::lemma_put(u.services, svc, s1, svc);
    assert(table::keys_distinct(u.services[i].1.vars));
    assert forall|j: int| 0 <= j < z.services.len() implies table::keys_distinct(
        (#[trigger] z.services[j]).1.vars,
    ) by {
        assert(table::keys_distinct(u.services[j].1.vars));
    }
    assert forall|j: int, k: int| 0 <= j < k < z.services.len() implies (
    #[trigger] z.services[j]).1.id != (#[trigger] z.services[k]).1.id by {
        assert(u.services[j].1.id != u.services[k].1.id);
    }
}

/// One more member leaves the others as they are.
proof fn lemma_one_more_apart(
    m: ManagerM,
    z: ManagerM,
    svc: Symbol,
    x: Symbol,
    v: VarStateM,
    e: Option<ExprM<Symbol>>,
)
    requires
        one_more(m, z, svc, x, v, e),
        reactive::calm(m),
        reactive::simple(m),
        inward(m, svc),
        model::var_of(m, svc, x) is None,
        !table::bound(m.remote_services, svc),
        e matches Some(f) ==> reactive::call_free(f) && reactive::reads_here(m, f, svc),
    ensures
        apart(m, z, set![(svc, x)]),
        reactive::kept_value(z, (svc, x)) == Ok::<ValueM<Symbol>, ErrM>(v.value),
        forall|s: Symbol| #[trigger] model::net_id(z, s) == model::net_id(m, s),
        forall|s: Symbol, y: Symbol| #[trigger]
            model::listeners_of(z, s, y) == model::listeners_of(m, s, y),
{
    assert forall|p: MemberM| #![trigger reactive::kept_value(z, p)]
        p != (svc, x) implies reactive::kept_value(z, p) == reactive::kept_value(m, p) by {
        assert(model::var_of(z, p.0, p.1) == model::var_of(m, p.0, p.1));
    }
    assert(model::var_of(z, svc, x) == Some(v));
    assert forall|s: Symbol, y: Symbol| #![trigger model::def_of(m, s, y)]
        (s, y) != (svc, x) implies (model::def_of(m, s, y) matches Some(f) ==> !reactive::reads(
        f,
        s,
    ).contains((svc, x))) by {
        if let Some(f) = model::def_of(m, s, y) {
            if reactive::reads(f, s).contains((svc, x)) {
                assert(table::bound(m.services, (svc, x).0));
            }
        }
    }
    assert forall|s: Symbol, d: Symbol| #![trigger model::def_of(z, s, d)]
        model::def_of(z, s, d) is Some implies reactive::call_free(model::def_of(z, s, d)->Some_0)
        && reactive::reads_here(z, model::def_of(z, s, d)->Some_0, s) && !table::bound(
        z.remote_services,
        s,
    ) by {
        if (s, d) == (svc, x) && e is Some {
            assert(reactive::reads_here(m, e->Some_0, svc));
        } else {
            assert(model::def_of(m, s, d) is Some);
            assert(reactive::reads_here(m, model::def_of(m, s, d)->Some_0, s));
        }
    }
    assert forall|s: Symbol| #[trigger] model::net_id(z, s) == model::net_id(m, s) by {
        assert(table::bound(z.services, s) == table::bound(m.services, s));
        if s != svc {
            assert(table::get(z.services, s) == table::get(m.services, s));
        }
    }
    assert forall|s: Symbol, y: Symbol| #[trigger]
        model::listeners_of(z, s, y) == model::listeners_of(m, s, y) by {
        assert(table::bound(z.services, s) == table::bound(m.services, s));
        if s != svc {
            assert(table::get(z.services, s) == table::get(m.services, s));
        }
    }
}

/// What was settled and readable stays so with one more member.
proof fn lemma_others_stay(
    m: ManagerM,
    z: ManagerM,
    svc: Symbol,
    x: Symbol,
    v: VarStateM,
    e: Option<ExprM<Symbol>>,
)
    requires
        one_more(m, z, svc, x, v, e),
        apart(m, z, set![(svc, x)]),
        reactive::all_settled(m),
        reactive::all_readable(m),
        forall|s: Symbol| #[trigger] model::net_id(z, s) == model::net_id(m, s),
    ensures
        forall|s: Symbol, d: Symbol|
            #![trigger reactive::settled(z, s, d)]
            (s, d) != (svc, x) ==> reactive::settled(z, s, d),
        forall|s: Symbol, d: Symbol|
            #![trigger model::def_of(z, s, d)]
            (s, d) != (svc, x) && model::def_of(z, s, d) is Some ==> reactive::readable(z, (s, d)),
{
    assert forall|s: Symbol, d: Symbol| #![trigger reactive::settled(z, s, d)]
        (s, d) != (svc, x) implies reactive::settled(z, s, d) by {
        assert(reactive::settled(m, s, d));
        assert(model::def_of(z, s, d) == model::def_of(m, s, d));
        if let Some(f) = model::def_of(m, s, d) {
            reactive::lemma_kept_frame(m, z, f, s);
        }
    }
    assert forall|s: Symbol, d: Symbol| #![trigger model::def_of(z, s, d)]
        (s, d) != (svc, x) && model::def_of(z, s, d) is Some implies reactive::readable(
        z,
        (s, d),
    ) by {
        assert(model::def_of(m, s, d) is Some);
        assert(reactive::readable(m, (s, d)));
        let n = choose|n: nat| (#[trigger] reactive::read(n, m, (s, d))) is Ok;
        lemma_read_apart(n, m, z, set![(svc, x)], (s, d));
        assert(reactive::read(n, z, (s, d)) is Ok);
    }
}

/// Nothing is stale in a settled node.
proof fn lemma_nothing_stale(m: ManagerM, rank: spec_fn(MemberM) -> nat, p: MemberM)
    requires
        reactive::tidy(m, rank),
        reactive::simple(m),
        reactive::all_settled(m),
        reactive::all_readable(m),
        !table::bound(m.remote_services, p.0),
    ensures
        !reactive::stale(m, p),
{
    assert(reactive::covered(m, Set::empty())) by {
        assert forall|s: Symbol, d: Symbol| #![trigger reactive::settled(m, s, d)]
            reactive::settled(m, s, d) || reactive::due(m, s, d, Set::empty()) by {}
    }
    if model::def_of(m, p.0, p.1) is Some {
        reactive::lemma_fresh(m, rank, p.0, p.1);
    } else if reactive::stale(m, p) {
        let n = choose|n: nat|
            (#[trigger] reactive::read(n, m, p)) is Ok && reactive::read(n, m, p)
                != reactive::kept_value(m, p);
        let w = World { m, t: None };
        reactive::lemma_no_steps(ExprM::Variable { name: p.1 }, seq![], p.1, p.0, w);
        if n > 0 {
            reactive::lemma_read_steps(n, p.1, p.0, w);
        }
    }
}

/// What stays not stale with one more member.
proof fn lemma_fresh_apart(
    m: ManagerM,
    z: ManagerM,
    rank: spec_fn(MemberM) -> nat,
    x: MemberM,
    p: MemberM,
)
    requires
        apart(m, z, set![x]),
        reactive::tidy(m, rank),
        reactive::simple(m),
        reactive::all_settled(m),
        reactive::all_readable(m),
        p != x,
        !table::bound(m.remote_services, p.0),
    ensures
        !reactive::stale(z, p),
{
    lemma_nothing_stale(m, rank, p);
    if reactive::stale(z, p) {
        let n = choose|n: nat|
            (#[trigger] reactive::read(n, z, p)) is Ok && reactive::read(n, z, p)
                != reactive::kept_value(z, p);
        lemma_read_apart(n, m, z, set![x], p);
        assert(reactive::kept_value(z, p) == reactive::kept_value(m, p));
        assert(reactive::read(n, m, p) is Ok);
    }
}

/// A definition that is set up is settled and readable.
proof fn lemma_new_def(
    n: nat,
    m: ManagerM,
    z: ManagerM,
    svc: Symbol,
    x: Symbol,
    v: VarStateM,
    e: ExprM<Symbol>,
    env: EnvM,
    rank: spec_fn(MemberM) -> nat,
)
    requires
        one_more(m, z, svc, x, v, Some(e)),
        apart(m, z, set![(svc, x)]),
        reactive::tidy(m, rank),
        reactive::simple(m),
        reactive::all_settled(m),
        reactive::all_readable(m),
        reactive::faithful(m, svc, env),
        reactive::call_free(e),
        reactive::reads_here(m, e, svc),
        !reactive::reads(e, svc).contains((svc, x)),
        !table::bound(m.remote_services, svc),
        model::net_id(z, svc) == model::net_id(m, svc),
        model::def_of(m, svc, x) is None,
        reactive::kept_value(z, (svc, x)) == Ok::<ValueM<Symbol>, ErrM>(v.value),
        reactive::outcome(n, e, env, svc, m) == Ok::<ValueM<Symbol>, ErrM>(v.value),
        forall|s: Symbol, d: Symbol|
            #![trigger model::def_of(z, s, d)]
            (s, d) != (svc, x) && model::def_of(z, s, d) is Some ==> reactive::readable(z, (s, d)),
    ensures
        reactive::settled(z, svc, x),
        reactive::readable(z, (svc, x)),
{
    assert forall|p: MemberM| #[trigger]
        reactive::reads(e, svc).contains(p) implies !reactive::stale(m, p) by {
        lemma_nothing_stale(m, rank, p);
    }
    assert forall|p: MemberM| #[trigger]
        reactive::reads(e, svc).contains(p) implies !reactive::stale(z, p) by {
        lemma_fresh_apart(m, z, rank, (svc, x), p);
    }
    reactive::lemma_from_kept(n, e, env, svc, m);
    reactive::lemma_kept_frame(m, z, e, svc);
    // The definition itself is left aside while the steps of its expression are
    // counted: it does not read itself.
    let k = lemma_enough_steps(e, svc, m);
    lemma_eval_apart(k, e, svc, m, z, set![(svc, x)]);
    reactive::lemma_read_steps(k + 1, x, svc, World { m: z, t: None });
    assert(model::def_of(z, svc, x) == Some(e));
    assert(reactive::read(k + 1, z, (svc, x)) is Ok);
}

/// One more declaration takes effect, and the node stays settled.
proof fn lemma_one_more(
    n: nat,
    a: ManagerM,
    m: ManagerM,
    z: ManagerM,
    svc: Symbol,
    decls: Seq<DeclM<Symbol>>,
    i: int,
    env: EnvM,
    dep: DepM,
    rank: spec_fn(MemberM) -> nat,
    x: Symbol,
    v: VarStateM,
    e: Option<ExprM<Symbol>>,
)
    requires
        building(a, m, svc, decls, i, env, dep, rank),
        suits(a, svc, decls, rank),
        0 <= i < decls.len(),
        one_more(m, z, svc, x, v, e),
        match e {
            None => decls[i] matches DeclM::VarDecl { name, ty, val } && name == x,
            Some(f) => {
                &&& decls[i] matches DeclM::DefDecl { name, ty, val, is_pub } && name == x && val
                    == f
                &&& reactive::outcome(n, f, env, svc, m) == Ok::<ValueM<Symbol>, ErrM>(v.value)
            },
        },
    ensures
        building(a, z, svc, decls, i + 1, env.push((x, v.value)), dep, rank),
{
    assert(fits(a, svc, decls, i, rank));
    assert(creation::declared(decls[i]) == x);
    assert(!before(decls, i, x)) by {
        if before(decls, i, x) {
            let j = choose|j: int| 0 <= j < i && creation::declared(#[trigger] decls[j]) == x;
            assert(creation::declared(decls[j]) != creation::declared(decls[i]));
        }
    }
    assert(model::var_of(m, svc, x) is None);
    assert(model::def_of(m, svc, x) is None);
    if let Some(f) = e {
        assert forall|p: MemberM| #[trigger]
            reactive::reads(f, svc).contains(p) implies !table::bound(m.remote_services, p.0) by {
            assert(there(a, svc, decls, i, p));
        }
        assert(!reactive::reads(f, svc).contains((svc, x))) by {
            if reactive::reads(f, svc).contains((svc, x)) {
                assert(there(a, svc, decls, i, (svc, x)));
            }
        }
    }
    lemma_one_more_apart(m, z, svc, x, v, e);
    lemma_others_stay(m, z, svc, x, v, e);
    if let Some(f) = e {
        lemma_new_def(n, m, z, svc, x, v, f, env, rank);
    } else {
        assert(model::def_of(z, svc, x) is None);
    }
    assert forall|s: Symbol, d: Symbol| #[trigger] reactive::settled(z, s, d) by {
        assert((s, d) != (svc, x) ==> reactive::settled(z, s, d));
    }
    assert forall|s: Symbol, d: Symbol| #![trigger model::def_of(z, s, d)]
        model::def_of(z, s, d) is Some implies reactive::readable(z, (s, d)) by {}
    lemma_one_more_tidy(a, m, z, svc, decls, i, rank, x, v, e);
    lemma_one_more_grown(a, m, z, svc, decls, i, dep, x, v, e);
    lemma_one_more_inward(a, m, z, svc, decls, i, dep, rank, x, v, e);
    let env1 = env.push((x, v.value));
    assert(env1.drop_last() =~= env);
    assert forall|y: Symbol| #![trigger model::env_get(env1, y)]
        model::env_get(env1, y) is Some implies reactive::kept_value(z, (svc, y)) == Ok::<
        ValueM<Symbol>,
        ErrM,
    >(model::env_get(env1, y)->Some_0) by {
        if y != x {
            assert(model::env_get(env1, y) == model::env_get(env, y));
            assert(reactive::kept_value(z, (svc, y)) == reactive::kept_value(m, (svc, y)));
        }
    }
    assert forall|k: int| 0 <= k < env1.len() implies model::is_member(
        z,
        svc,
        (#[trigger] env1[k]).0,
    ) by {
        let y = env1[k].0;
        assert(table::bound(z.services, svc) == table::bound(m.services, svc));
        assert(model::var_of(z, svc, y) == (if y == x {
            Some(v)
        } else {
            model::var_of(m, svc, y)
        }));
        assert(model::def_of(z, svc, y) is Some || model::def_of(m, svc, y) is None);
        if k < env.len() {
            assert(env1[k] == env[k]);
            assert(model::is_member(m, svc, env[k].0));
        }
    }
}

proof fn lemma_one_more_tidy(
    a: ManagerM,
    m: ManagerM,
    z: ManagerM,
    svc: Symbol,
    decls: Seq<DeclM<Symbol>>,
    i: int,
    rank: spec_fn(MemberM) -> nat,
    x: Symbol,
    v: VarStateM,
    e: Option<ExprM<Symbol>>,
)
    requires
        reactive::tidy(m, rank),
        reactive::simple(m),
        inward(m, svc),
        one_more(m, z, svc, x, v, e),
        apart(m, z, set![(svc, x)]),
        model::var_of(m, svc, x) is None,
        table::get(m.services, svc)->Some_0.dep_cache.len() == 0,
        fits(a, svc, decls, i, rank),
        e matches Some(f) ==> (decls[i] matches DeclM::DefDecl { name, ty, val, is_pub } && name
            == x && val == f),
    ensures
        reactive::tidy(z, rank),
        reactive::simple(z),
{
    assert forall|s: Symbol, d: Symbol| #![trigger model::def_of(z, s, d)]
        model::def_of(z, s, d) is Some implies model::cache_of(
        table::get(z.services, s)->Some_0,
        d,
    ).len() == 0 by {
        assert(table::bound(z.services, s) == table::bound(m.services, s));
        if s == svc {
            let c = table::get(m.services, svc)->Some_0.dep_cache;
            assert(c =~= seq![]);
            table::lemma_slot(c, d);
        } else {
            assert(table::get(z.services, s) == table::get(m.services, s));
            assert(model::def_of(m, s, d) is Some);
        }
    }
    assert forall|s: Symbol, d: Symbol| #![trigger model::def_of(z, s, d)]
        model::def_of(z, s, d) is Some implies model::var_of(z, s, d) is Some by {
        if (s, d) != (svc, x) {
            assert(model::def_of(m, s, d) is Some);
            assert(model::var_of(m, s, d) is Some);
        }
        assert(model::var_of(z, s, d) == (if (s, d) == (svc, x) {
            Some(v)
        } else {
            model::var_of(m, s, d)
        }));
    }
    assert forall|s: Symbol, d: Symbol, p: MemberM|
        #![trigger model::def_of(z, s, d), model::def_of(z, p.0, p.1)]
        model::def_of(z, s, d) matches Some(f) && reactive::reads(f, s).contains(p)
            && model::def_of(z, p.0, p.1) is Some implies rank(p) < rank((s, d)) by {
        let f = model::def_of(z, s, d)->Some_0;
        if (s, d) == (svc, x) && e is Some {
            assert(reactive::reads(f, svc).contains(p));
        } else {
            assert(model::def_of(m, s, d) == Some(f));
            if p == (svc, x) {
                assert(table::bound(m.services, p.0));
            } else {
                assert(model::def_of(m, p.0, p.1) is Some);
            }
        }
    }
}

proof fn lemma_one_more_grown(
    a: ManagerM,
    m: ManagerM,
    z: ManagerM,
    svc: Symbol,
    decls: Seq<DeclM<Symbol>>,
    i: int,
    dep: DepM,
    x: Symbol,
    v: VarStateM,
    e: Option<ExprM<Symbol>>,
)
    requires
        grown(a, m, svc, decls, i, dep),
        one_more(m, z, svc, x, v, e),
        0 <= i < decls.len(),
        creation::declared(decls[i]) == x,
        e matches Some(f) ==> (decls[i] matches DeclM::DefDecl { name, ty, val, is_pub } && name
            == x && val == f),
        forall|s: Symbol| #[trigger] model::net_id(z, s) == model::net_id(m, s),
        forall|s: Symbol, y: Symbol| #[trigger]
            model::listeners_of(z, s, y) == model::listeners_of(m, s, y),
    ensures
        grown(a, z, svc, decls, i + 1, dep),
{
    assert forall|s: Symbol| #![trigger table::bound(z.services, s)]
        table::bound(z.services, s) == (s == svc || table::bound(a.services, s)) by {
        assert(table::bound(m.services, s) == (s == svc || table::bound(a.services, s)));
    }
    assert forall|s: Symbol| #![trigger model::net_id(z, s)]
        table::bound(a.services, s) implies model::net_id(z, s) == model::net_id(a, s) by {
        assert(model::net_id(m, s) == model::net_id(a, s));
    }
    assert forall|s: Symbol, y: Symbol| #![trigger model::def_of(z, s, y)]
        s != svc implies model::def_of(z, s, y) == model::def_of(a, s, y) by {
        assert(model::def_of(m, s, y) == model::def_of(a, s, y));
    }
    assert forall|s: Symbol, y: Symbol| #![trigger model::var_of(z, s, y)]
        s != svc implies (model::var_of(z, s, y) is Some) == (model::var_of(a, s, y) is Some) by {
        assert((model::var_of(m, s, y) is Some) == (model::var_of(a, s, y) is Some));
    }
    assert forall|s: Symbol, y: Symbol| #![trigger model::listeners_of(z, s, y)]
        s != svc implies model::listeners_of(z, s, y) == model::listeners_of(a, s, y) by {
        assert(model::listeners_of(m, s, y) == model::listeners_of(a, s, y));
    }
    assert forall|y: Symbol| #![trigger model::var_of(z, svc, y)]
        (model::var_of(z, svc, y) is Some) == before(decls, i + 1, y) by {
        assert((model::var_of(m, svc, y) is Some) == before(decls, i, y));
        if y == x {
            assert(creation::declared(decls[i]) == y);
        }
        if before(decls, i, y) {
            let j = choose|j: int| 0 <= j < i && creation::declared(#[trigger] decls[j]) == y;
            assert(0 <= j < i + 1 && creation::declared(decls[j]) == y);
        }
    }
    assert forall|y: Symbol| #![trigger model::def_of(z, svc, y)]
        model::def_of(z, svc, y) is Some implies defined_before(
        decls,
        i + 1,
        y,
        model::def_of(z, svc, y)->Some_0,
    ) by {
        let f = model::def_of(z, svc, y)->Some_0;
        if y == x && e is Some {
            assert(decls[i] matches DeclM::DefDecl { name, ty, val, is_pub } && name == y && val
                == f);
        } else {
            assert(model::def_of(m, svc, y) == Some(f));
            let j = choose|j: int|
                0 <= j < i && (#[trigger] decls[j] matches DeclM::DefDecl {
                    name,
                    ty,
                    val,
                    is_pub,
                } && name == y && val == f);
            assert(0 <= j < i + 1 && (decls[j] matches DeclM::DefDecl { name, ty, val, is_pub }
                && name == y && val == f));
        }
    }
    assert(table::bound(z.services, svc) == table::bound(m.services, svc));
}

proof fn lemma_one_more_inward(
    a: ManagerM,
    m: ManagerM,
    z: ManagerM,
    svc: Symbol,
    decls: Seq<DeclM<Symbol>>,
    i: int,
    dep: DepM,
    rank: spec_fn(MemberM) -> nat,
    x: Symbol,
    v: VarStateM,
    e: Option<ExprM<Symbol>>,
)
    requires
        inward(m, svc),
        grown(a, m, svc, decls, i, dep),
        one_more(m, z, svc, x, v, e),
        fits(a, svc, decls, i, rank),
        e matches Some(f) ==> (decls[i] matches DeclM::DefDecl { name, ty, val, is_pub } && name
            == x && val == f),
    ensures
        inward(z, svc),
{
    assert forall|s: Symbol, d: Symbol, p: MemberM|
        #![trigger model::def_of(z, s, d), table::bound(z.services, p.0)]
        model::def_of(z, s, d) matches Some(f) && reactive::reads(f, s).contains(p) implies
        table::bound(z.services, p.0) && (p.0 == svc ==> model::var_of(z, svc, p.1) is Some) by {
        let f = model::def_of(z, s, d)->Some_0;
        assert(table::bound(z.services, p.0) == table::bound(m.services, p.0));
        assert(model::var_of(z, svc, p.1) == (if p.1 == x {
            Some(v)
        } else {
            model::var_of(m, svc, p.1)
        }));
        if (s, d) == (svc, x) && e is Some {
            assert(reactive::reads(f, svc).contains(p));
            assert(there(a, svc, decls, i, p));
            if p.0 == svc {
                assert((model::var_of(m, svc, p.1) is Some) == before(decls, i, p.1));
            }
        } else {
            assert(model::def_of(m, s, d) == Some(f));
        }
    }
}

/// What a declaration reads is on this node.
proof fn lemma_reads_there(
    a: ManagerM,
    m: ManagerM,
    svc: Symbol,
    decls: Seq<DeclM<Symbol>>,
    i: int,
    dep: DepM,
    val: ExprM<Symbol>,
)
    requires
        grown(a, m, svc, decls, i, dep),
        forall|p: MemberM| #[trigger]
            reactive::reads(val, svc).contains(p) ==> there(a, svc, decls, i, p),
    ensures
        reads_within(m, val, svc),
{
    assert forall|p: MemberM| #[trigger] reactive::reads(val, svc).contains(p) implies table::bound(
        m.services,
        p.0,
    ) && !table::bound(m.remote_services, p.0) by {
        assert(there(a, svc, decls, i, p));
        assert(table::bound(m.services, p.0) == (p.0 == svc || table::bound(a.services, p.0)));
    }
}

/// A transaction that has read what is kept has not read a new member.
proof fn lemma_truthful_more(
    m: ManagerM,
    z: ManagerM,
    svc: Symbol,
    x: Symbol,
    v: VarStateM,
    e: Option<ExprM<Symbol>>,
    t: TxnM,
)
    requires
        truthful(m, t),
        one_more(m, z, svc, x, v, e),
        model::var_of(m, svc, x) is None,
    ensures
        truthful(z, t),
{
    assert forall|s: Symbol, y: Symbol|
        #![trigger table::get(t.read_cache, (model::net_id(z, s), y))]
        table::bound(z.services, s) implies (table::get(
        t.read_cache,
        (model::net_id(z, s), y),
    ) matches Some(u) ==> reactive::kept_value(z, (s, y)) == Ok::<ValueM<Symbol>, ErrM>(u)) by {
        assert(table::bound(z.services, s) == table::bound(m.services, s));
        if s != svc {
            assert(table::get(z.services, s) == table::get(m.services, s));
        }
        assert(model::net_id(z, s) == model::net_id(m, s));
        if table::get(t.read_cache, (model::net_id(m, s), y)) is Some {
            assert(reactive::kept_value(m, (s, y)) is Ok);
            assert((s, y) != (svc, x));
            assert(model::var_of(z, s, y) == model::var_of(m, s, y));
        }
    }
}

/// The declarations of a new service take effect, and the node stays settled.
proof fn lemma_init(
    n: nat,
    a: ManagerM,
    svc: Symbol,
    decls: Seq<DeclM<Symbol>>,
    i: nat,
    env: EnvM,
    tid: TxnId,
    m: ManagerM,
    t: TxnM,
    dep: DepM,
    rank: spec_fn(MemberM) -> nat,
) -> (last: EnvM)
    requires
        building(a, m, svc, decls, i as int, env, dep, rank),
        suits(a, svc, decls, rank),
        truthful(m, t),
        i <= decls.len(),
        transactions::init_decls(n, svc, decls, i, env, tid, World { m, t: Some(t) }).0 is Ok,
    ensures
        ({
            let w = transactions::init_decls(
                n,
                svc,
                decls,
                i,
                env,
                tid,
                World { m, t: Some(t) },
            ).1;
            &&& building(a, w.m, svc, decls, decls.len() as int, last, dep, rank)
            &&& w.t matches Some(t1) && truthful(w.m, t1)
        }),
    decreases decls.len() - i,
{
    let w0 = World { m, t: Some(t) };
    if i >= decls.len() {
        env
    } else {
        assert(fits(a, svc, decls, i as int, rank));
        lemma_building_within(a, m, svc, decls, i as int, env, dep, rank);
        let x = creation::declared(decls[i as int]);
        assert(!before(decls, i as int, x)) by {
            if before(decls, i as int, x) {
                let j = choose|j: int|
                    0 <= j < i && creation::declared(#[trigger] decls[j]) == x;
                assert(creation::declared(decls[j]) != creation::declared(decls[i as int]));
            }
        }
        match decls[i as int] {
            DeclM::TableDecl { name, fields } => env,
            DeclM::VarDecl { name, ty, val } => {
                let (r, w1) = semantics::eval(n, val, env, svc, w0);
                lemma_reads_there(a, m, svc, decls, i as int, dep, val);
                lemma_eval_txn(n, val, env, svc, m, t);
                let v = r->Ok_0;
                let t1 = w1.t->Some_0;
                lemma_building_kept(a, m, w1.m, svc, decls, i as int, env, dep, rank);
                let state = VarStateM {
                    value: v,
                    lock: LockM::Unlocked,
                    latest_write_txn: Some(tid),
                };
                let z = transactions::with_member(w1.m, svc, name, v, tid);
                lemma_one_var(w1.m, svc, name, state);
                assert(model::var_of(w1.m, svc, name) is None);
                lemma_one_more(
                    n,
                    a,
                    w1.m,
                    z,
                    svc,
                    decls,
                    i as int,
                    env,
                    dep,
                    rank,
                    name,
                    state,
                    None,
                );
                lemma_truthful_more(w1.m, z, svc, name, state, None, t1);
                lemma_init(
                    n,
                    a,
                    svc,
                    decls,
                    i + 1,
                    env.push((name, v)),
                    tid,
                    z,
                    t1,
                    dep,
                    rank,
                )
            },
            DeclM::DefDecl { name, ty, val, is_pub } => {
                let (r, w1) = semantics::eval(n, val, env, svc, w0);
                lemma_reads_there(a, m, svc, decls, i as int, dep, val);
                lemma_eval_txn(n, val, env, svc, m, t);
                lemma_same_outcome(n, val, env, svc, m, w1.m);
                let v = r->Ok_0;
                let t1 = w1.t->Some_0;
                lemma_building_kept(a, m, w1.m, svc, decls, i as int, env, dep, rank);
                let state = VarStateM {
                    value: v,
                    lock: LockM::Unlocked,
                    latest_write_txn: Some(tid),
                };
                let z = transactions::with_def(
                    transactions::with_member(w1.m, svc, name, v, tid),
                    svc,
                    name,
                    val,
                );
                lemma_one_def(w1.m, svc, name, state, val);
                assert(model::var_of(w1.m, svc, name) is None);
                lemma_one_more(
                    n,
                    a,
                    w1.m,
                    z,
                    svc,
                    decls,
                    i as int,
                    env,
                    dep,
                    rank,
                    name,
                    state,
                    Some(val),
                );
                lemma_truthful_more(w1.m, z, svc, name, state, Some(val), t1);
                lemma_init(
                    n,
                    a,
                    svc,
                    decls,
                    i + 1,
                    env.push((name, v)),
                    tid,
                    z,
                    t1,
                    dep,
                    rank,
                )
            },
        }
    }
}

/// A service that declares nothing yet leaves the node settled.
proof fn lemma_start(
    a: ManagerM,
    m: ManagerM,
    svc: Symbol,
    decls: Seq<DeclM<Symbol>>,
    dep: DepM,
    rank: spec_fn(MemberM) -> nat,
)
    requires
        reactive::reactive(a, rank),
        reactive::simple(a),
        reactive::all_settled(a),
        reactive::all_readable(a),
        suits(a, svc, decls, rank),
        m == transactions::ticked(
            model::with_service(a, svc, transactions::empty_service(a, svc, dep)),
        ),
    ensures
        building(a, m, svc, decls, 0, seq![], dep, rank),
{
    let s0 = transactions::empty_service(a, svc, dep);
    table::lemma_slot(a.services, svc);
    assert(m.services == a.services.push((svc, s0)));
    assert forall|q: Symbol| #[trigger] table::get(m.services, q) == (if q == svc {
        Some(s0)
    } else {
        table::get(a.services, q)
    }) by {
        table::lemma_put(a.services, svc, s0, q);
    }
    assert forall|q: Symbol| #[trigger]
        table::bound(m.services, q) == (q == svc || table::bound(a.services, q)) by {
        table::lemma_put(a.services, svc, s0, q);
    }
    table::lemma_put(a.services, svc, s0, svc);
    assert forall|q: Symbol, y: Symbol| #[trigger]
        model::var_of(m, q, y) == model::var_of(a, q, y) by {
        assert(table::get(m.services, q) == (if q == svc {
            Some(s0)
        } else {
            table::get(a.services, q)
        }));
        table::lemma_slot(s0.vars, y);
    }
    assert forall|q: Symbol, y: Symbol| #[trigger]
        model::def_of(m, q, y) == model::def_of(a, q, y) by {
        assert(table::get(m.services, q) == (if q == svc {
            Some(s0)
        } else {
            table::get(a.services, q)
        }));
        table::lemma_slot(s0.defs, y);
    }
    assert forall|q: Symbol, y: Symbol| #![trigger model::listeners_of(m, q, y)]
        model::listeners_of(m, q, y) == model::listeners_of(a, q, y) by {
        assert(table::get(m.services, q) == (if q == svc {
            Some(s0)
        } else {
            table::get(a.services, q)
        }));
        table::lemma_slot(s0.listeners, y);
    }
    assert forall|s: Symbol| #![trigger model::net_id(m, s)]
        table::bound(a.services, s) implies model::net_id(m, s) == model::net_id(a, s) by {
        assert(table::get(m.services, s) == table::get(a.services, s));
    }
    assert forall|p: MemberM| #![trigger reactive::kept_value(m, p)]
        p.0 != svc implies reactive::kept_value(m, p) == reactive::kept_value(a, p) by {
        assert(model::var_of(m, p.0, p.1) == model::var_of(a, p.0, p.1));
        assert(table::bound(m.services, p.0) == (p.0 == svc || table::bound(a.services, p.0)));
    }
    assert(laws::well_formed(m)) by {
        assert forall|i: int, j: int| 0 <= i < j < m.services.len() implies (
        #[trigger] m.services[i]).1.id != (#[trigger] m.services[j]).1.id by {
            assert(a.services[i].1.id != model::new_net_id(a, svc));
            if j < a.services.len() {
                assert(a.services[i].1.id != a.services[j].1.id);
            }
        }
        assert forall|i: int| 0 <= i < m.services.len() implies table::keys_distinct(
            (#[trigger] m.services[i]).1.vars,
        ) by {
            if i < a.services.len() {
                assert(table::keys_distinct(a.services[i].1.vars));
            }
        }
    }
    lemma_start_inward(a, m, svc, rank);
    lemma_start_tidy(a, m, svc, rank);
    lemma_start_settled(a, m, svc, rank);
    assert forall|y: Symbol| #![trigger model::var_of(m, svc, y)]
        (model::var_of(m, svc, y) is Some) == before(decls, 0, y) by {
        assert(model::var_of(a, svc, y) is None);
    }
    assert forall|y: Symbol| #![trigger model::def_of(m, svc, y)]
        model::def_of(m, svc, y) is Some implies defined_before(
        decls,
        0,
        y,
        model::def_of(m, svc, y)->Some_0,
    ) by {
        assert(model::def_of(a, svc, y) is None);
    }
}

/// Whether a node has one service more than another, which is empty.
pub open spec fn started(a: ManagerM, m: ManagerM, svc: Symbol) -> bool {
    &&& m.remote_services == a.remote_services
    &&& m.interner == a.interner
    &&& m.reactive_cache == a.reactive_cache
    &&& laws::well_formed(m)
    &&& !table::bound(a.services, svc)
    &&& forall|p: MemberM|
        #![trigger reactive::kept_value(m, p)]
        p.0 != svc ==> reactive::kept_value(m, p) == reactive::kept_value(a, p)
    &&& forall|q: Symbol|
        #![trigger table::get(m.services, q)]
        q != svc ==> table::get(m.services, q) == table::get(a.services, q)
    &&& forall|q: Symbol| #[trigger]
        table::bound(m.services, q) == (q == svc || table::bound(a.services, q))
    &&& forall|q: Symbol, y: Symbol| #[trigger]
        model::var_of(m, q, y) == model::var_of(a, q, y)
    &&& forall|q: Symbol, y: Symbol| #[trigger]
        model::def_of(m, q, y) == model::def_of(a, q, y)
}

proof fn lemma_start_inward(
    a: ManagerM,
    m: ManagerM,
    svc: Symbol,
    rank: spec_fn(MemberM) -> nat,
)
    requires
        reactive::reactive(a, rank),
        reactive::simple(a),
        started(a, m, svc),
    ensures
        inward(m, svc),
        forall|s: Symbol, y: Symbol|
            #![trigger model::def_of(a, s, y)]
            model::def_of(a, s, y) matches Some(e) ==> reactive::reads(e, s).disjoint(
                members(svc),
            ),
{
    assert forall|s: Symbol, d: Symbol, p: MemberM|
        #![trigger model::def_of(m, s, d), table::bound(m.services, p.0)]
        model::def_of(m, s, d) matches Some(e) && reactive::reads(e, s).contains(p) implies
        table::bound(m.services, p.0) && (p.0 == svc ==> model::var_of(m, svc, p.1) is Some) by {
        assert(model::def_of(a, s, d) == model::def_of(m, s, d));
        assert(model::listeners_of(a, p.0, p.1).contains((model::net_id(a, s), d)));
        assert(table::bound(a.services, p.0));
    }
    assert forall|s: Symbol, y: Symbol| #![trigger model::def_of(a, s, y)]
        model::def_of(a, s, y) matches Some(e) implies reactive::reads(
        model::def_of(a, s, y)->Some_0,
        s,
    ).disjoint(members(svc)) by {
        let e = model::def_of(a, s, y)->Some_0;
        assert forall|p: MemberM|
            !(#[trigger] reactive::reads(e, s).contains(p) && members(svc).contains(p)) by {
            if reactive::reads(e, s).contains(p) && p.0 == svc {
                assert(model::listeners_of(a, p.0, p.1).contains((model::net_id(a, s), y)));
            }
        }
    }
}

proof fn lemma_start_tidy(a: ManagerM, m: ManagerM, svc: Symbol, rank: spec_fn(MemberM) -> nat)
    requires
        reactive::tidy(a, rank),
        reactive::simple(a),
        started(a, m, svc),
    ensures
        reactive::tidy(m, rank),
        reactive::simple(m),
{
    assert forall|s: Symbol, d: Symbol| #![trigger model::def_of(m, s, d)]
        model::def_of(m, s, d) is Some implies reactive::call_free(model::def_of(m, s, d)->Some_0)
        && reactive::reads_here(m, model::def_of(m, s, d)->Some_0, s) && !table::bound(
        m.remote_services,
        s,
    ) && model::cache_of(table::get(m.services, s)->Some_0, d).len() == 0 by {
        assert(model::def_of(a, s, d) is Some);
        assert(reactive::reads_here(a, model::def_of(a, s, d)->Some_0, s));
        assert(table::bound(a.services, s));
        assert(table::get(m.services, s) == table::get(a.services, s));
    }
    assert forall|s: Symbol, d: Symbol| #![trigger model::def_of(m, s, d)]
        model::def_of(m, s, d) is Some implies model::var_of(m, s, d) is Some by {
        assert(model::def_of(a, s, d) is Some);
    }
    assert forall|s: Symbol, d: Symbol, p: MemberM|
        #![trigger model::def_of(m, s, d), model::def_of(m, p.0, p.1)]
        model::def_of(m, s, d) matches Some(e) && reactive::reads(e, s).contains(p)
            && model::def_of(m, p.0, p.1) is Some implies rank(p) < rank((s, d)) by {
        assert(model::def_of(a, s, d) == model::def_of(m, s, d));
        assert(model::def_of(a, p.0, p.1) == model::def_of(m, p.0, p.1));
    }
}

proof fn lemma_start_settled(
    a: ManagerM,
    m: ManagerM,
    svc: Symbol,
    rank: spec_fn(MemberM) -> nat,
)
    requires
        reactive::tidy(a, rank),
        reactive::simple(a),
        reactive::tidy(m, rank),
        reactive::simple(m),
        reactive::all_settled(a),
        reactive::all_readable(a),
        started(a, m, svc),
        forall|s: Symbol, y: Symbol|
            #![trigger model::def_of(a, s, y)]
            model::def_of(a, s, y) matches Some(e) ==> reactive::reads(e, s).disjoint(
                members(svc),
            ),
    ensures
        reactive::all_settled(m),
        reactive::all_readable(m),
{
    assert forall|s: Symbol| #![trigger model::net_id(m, s)]
        table::bound(a.services, s) implies model::net_id(m, s) == model::net_id(a, s) by {
        assert(table::get(m.services, s) == table::get(a.services, s));
    }
    assert(apart(a, m, members(svc)));
    assert forall|s: Symbol, d: Symbol| #[trigger] reactive::settled(m, s, d) by {
        assert(reactive::settled(a, s, d));
        assert(model::def_of(m, s, d) == model::def_of(a, s, d));
        if let Some(e) = model::def_of(a, s, d) {
            assert(table::bound(a.services, s));
            reactive::lemma_kept_frame(a, m, e, s);
        }
    }
    assert forall|s: Symbol, d: Symbol| #![trigger model::def_of(m, s, d)]
        model::def_of(m, s, d) is Some implies reactive::readable(m, (s, d)) by {
        assert(model::def_of(a, s, d) is Some);
        assert(table::bound(a.services, s));
        assert(reactive::readable(a, (s, d)));
        let n = choose|n: nat| (#[trigger] reactive::read(n, a, (s, d))) is Ok;
        lemma_read_apart(n, a, m, members(svc), (s, d));
        assert(reactive::read(n, m, (s, d)) is Ok);
    }
}

/// Whether two nodes differ in listeners at most, of which there are no fewer.
pub open spec fn heard(m: ManagerM, z: ManagerM) -> bool {
    &&& z.remote_services == m.remote_services
    &&& z.interner == m.interner
    &&& z.reactive_cache == m.reactive_cache
    &&& laws::well_formed(m) ==> laws::well_formed(z)
    &&& forall|q: Symbol| #[trigger]
        table::bound(z.services, q) == table::bound(m.services, q)
    &&& forall|q: Symbol|
        #![trigger table::get(z.services, q)]
        table::get(z.services, q) matches Some(s) ==> s == (ServiceM {
            listeners: s.listeners,
            ..table::get(m.services, q)->Some_0
        })
    &&& forall|q: Symbol, y: Symbol, l: KeyM|
        model::listeners_of(m, q, y).contains(l) ==> #[trigger] model::listeners_of(
            z,
            q,
            y,
        ).contains(l)
}

proof fn lemma_heard_trans(a: ManagerM, b: ManagerM, c: ManagerM)
    requires
        heard(a, b),
        heard(b, c),
    ensures
        heard(a, c),
{
    assert forall|q: Symbol| #[trigger]
        table::bound(c.services, q) == table::bound(a.services, q) by {
        assert(table::bound(b.services, q) == table::bound(a.services, q));
    }
    assert forall|q: Symbol| #![trigger table::get(c.services, q)]
        table::get(c.services, q) is Some implies table::get(c.services, q)->Some_0 == (ServiceM {
        listeners: table::get(c.services, q)->Some_0.listeners,
        ..table::get(a.services, q)->Some_0
    }) by {
        assert(table::bound(c.services, q) == table::bound(b.services, q));
        assert(table::get(b.services, q) is Some);
    }
    assert forall|q: Symbol, y: Symbol, l: KeyM|
        model::listeners_of(a, q, y).contains(l) implies #[trigger] model::listeners_of(
        c,
        q,
        y,
    ).contains(l) by {
        assert(model::listeners_of(b, q, y).contains(l));
    }
}

/// One more listener.
proof fn lemma_one_listener(m: ManagerM, owner: Symbol, member: Symbol, l: KeyM)
    requires
        table::bound(m.services, owner),
    ensures
        ({
            let s = table::get(m.services, owner)->Some_0;
            let z = model::with_service(m, owner, model::with_listener(s, member, l));
            &&& heard(m, z)
            &&& model::listeners_of(z, owner, member).contains(l)
        }),
{
    let s = table::get(m.services, owner)->Some_0;
    let s1 = model::with_listener(s, member, l);
    let z = model::with_service(m, owner, s1);
    table::lemma_slot(m.services, owner);
    let i = table::slot(m.services, owner) as int;
    assert(z.services =~= m.services.update(i, (owner, s1)));
    assert forall|q: Symbol| #[trigger] table::get(z.services, q) == (if q == owner {
        Some(s1)
    } else {
        table::get(m.services, q)
    }) by {
        table::lemma_put(m.services, owner, s1, q);
    }
    assert forall|q: Symbol| #[trigger]
        table::bound(z.services, q) == table::bound(m.services, q) by {
        table::lemma_put(m.services, owner, s1, q);
    }
    let have = model::listeners_of(m, owner, member);
    let now = table::added(have, l);
    assert(now.contains(l)) by {
        if !have.contains(l) {
            assert(now[have.len() as int] == l);
        }
    }
    assert forall|k: KeyM| #[trigger] have.contains(k) implies now.contains(k) by {
        let j = choose|j: int| 0 <= j < have.len() && have[j] == k;
        assert(now[j] == k);
    }
    table::lemma_put(s.listeners, member, now, member);
    assert(model::listeners_of(z, owner, member) == now) by {
        assert(table::get(z.services, owner) == Some(s1));
    }
    assert forall|q: Symbol, y: Symbol, k: KeyM|
        model::listeners_of(m, q, y).contains(k) implies #[trigger] model::listeners_of(
        z,
        q,
        y,
    ).contains(k) by {
        assert(table::get(z.services, q) == (if q == owner {
            Some(s1)
        } else {
            table::get(m.services, q)
        }));
        table::lemma_put(s.listeners, member, now, y);
        if q == owner && y == member {
            assert(have.contains(k));
        }
    }
    if laws::well_formed(m) {
        table::lemma_put(m.services, owner, s1, owner);
        assert forall|j: int| 0 <= j < z.services.len() implies table::keys_distinct(
            (#[trigger] z.services[j]).1.vars,
        ) by {
            assert(table::keys_distinct(m.services[j].1.vars));
        }
        assert forall|j: int, k: int| 0 <= j < k < z.services.len() implies (
        #[trigger] z.services[j]).1.id != (#[trigger] z.services[k]).1.id by {
            assert(m.services[j].1.id != m.services[k].1.id);
        }
    }
}

/// The users of members are registered with them.
proof fn lemma_listen(m: ManagerM, es: Seq<(Symbol, Symbol, Symbol)>, id: Seq<char>, n: nat)
    requires
        n <= es.len(),
    ensures
        ({
            let z = transactions::listen(m, es, id, n);
            &&& heard(m, z)
            &&& forall|j: int|
                0 <= j < n && table::bound(m.services, (#[trigger] es[j]).0)
                    ==> model::listeners_of(z, es[j].0, es[j].1).contains((id, es[j].2))
        }),
    decreases n,
{
    if n > 0 {
        let k = (n - 1) as nat;
        lemma_listen(m, es, id, k);
        let u = transactions::listen(m, es, id, k);
        let z = transactions::listen(m, es, id, n);
        let (owner, member, def) = es[n - 1];
        assert(table::bound(u.services, owner) == table::bound(m.services, owner));
        if table::bound(u.services, owner) {
            lemma_one_listener(u, owner, member, (id, def));
        } else {
            assert(z.services == u.services);
            assert(heard(u, z)) by {
                assert forall|q: Symbol, y: Symbol, l: KeyM|
                    model::listeners_of(u, q, y).contains(l) implies #[trigger] model::listeners_of(
                    z,
                    q,
                    y,
                ).contains(l) by {
                    assert(model::listeners_of(z, q, y) == model::listeners_of(u, q, y));
                }
            }
        }
        lemma_heard_trans(m, u, z);
        assert forall|j: int| 0 <= j < n && table::bound(m.services, (#[trigger] es[j]).0) implies
            model::listeners_of(z, es[j].0, es[j].1).contains((id, es[j].2)) by {
            if j < k {
                assert(model::listeners_of(u, es[j].0, es[j].1).contains((id, es[j].2)));
            }
        }
    }
}

/// The graph has the free variables of each definition.
proof fn lemma_graph(decls: Seq<DeclM<Symbol>>, j: int, n: nat) -> (known: Set<Symbol>)
    requires
        0 <= j < n <= decls.len(),
        decls[j] is DefDecl,
        forall|i: int, k: int|
            0 <= i < k < decls.len() ==> creation::declared(#[trigger] decls[i])
                != creation::declared(#[trigger] decls[k]),
    ensures
        decls[j] matches DeclM::DefDecl { name, ty, val, is_pub } && table::get(
            dep_analysis::declared(decls, n).dep_graph,
            name,
        ) == Some(read_write::free_vars(val, known, Set::empty())),
    decreases n,
{
    let k = (n - 1) as nat;
    let d = dep_analysis::declared(decls, k);
    let name = creation::declared(decls[j]);
    let added = dep_analysis::declared(decls, n).dep_graph;
    if j == k {
        let known = d.vars.union(d.defs).insert(name);
        if let DeclM::DefDecl { name, ty, val, is_pub } = decls[j] {
            table::lemma_put(
                d.dep_graph,
                name,
                read_write::free_vars(val, known, Set::empty()),
                name,
            );
        }
        known
    } else {
        let known = lemma_graph(decls, j, k);
        assert(creation::declared(decls[j]) != creation::declared(decls[k as int]));
        match decls[k as int] {
            DeclM::VarDecl { name: other, ty, val } => {
                table::lemma_put(d.dep_graph, other, Set::empty(), name);
            },
            DeclM::DefDecl { name: other, ty, val, is_pub } => {
                table::lemma_put(
                    d.dep_graph,
                    other,
                    read_write::free_vars(
                        val,
                        d.vars.union(d.defs).insert(other),
                        Set::empty(),
                    ),
                    name,
                );
            },
            DeclM::TableDecl { name: other, fields } => {
                table::lemma_put(d.dep_graph, other, Set::empty(), name);
            },
        }
        known
    }
}

/// A member that a definition uses is among those that it is registered with.
proof fn lemma_used(s: ServiceM, svc: Symbol, def: Symbol, k: int, n: nat)
    requires
        0 <= k < n <= s.vars.len(),
        s.dep.edge(def, s.vars[k].0),
    ensures
        transactions::used_members(s, svc, def, n).contains((svc, s.vars[k].0, def)),
    decreases n,
{
    let rest = transactions::used_members(s, svc, def, (n - 1) as nat);
    let all = transactions::used_members(s, svc, def, n);
    if k == n - 1 {
        assert(all[rest.len() as int] == (svc, s.vars[k].0, def));
    } else {
        lemma_used(s, svc, def, k, (n - 1) as nat);
        let j = choose|j: int| 0 <= j < rest.len() && rest[j] == (svc, s.vars[k].0, def);
        assert(all[j] == (svc, s.vars[k].0, def));
    }
}

proof fn lemma_local_edge(s: ServiceM, svc: Symbol, i: int, k: int, n: nat)
    requires
        0 <= i < n <= s.defs.len(),
        0 <= k < s.vars.len(),
        s.dep.edge(s.defs[i].0, s.vars[k].0),
    ensures
        transactions::local_edges(s, svc, n).contains((svc, s.vars[k].0, s.defs[i].0)),
    decreases n,
{
    let rest = transactions::local_edges(s, svc, (n - 1) as nat);
    let own = transactions::used_members(s, svc, s.defs[n - 1].0, s.vars.len());
    if i == n - 1 {
        lemma_used(s, svc, s.defs[i].0, k, s.vars.len());
    } else {
        lemma_local_edge(s, svc, i, k, (n - 1) as nat);
    }
    calls::lemma_joined(rest, own, (svc, s.vars[k].0, s.defs[i].0));
}

proof fn lemma_cross_edge(s: ServiceM, i: int, p: MemberM, n: nat)
    requires
        0 <= i < n <= s.defs.len(),
        read_write::member_refs(s.defs[i].1).contains(p),
    ensures
        transactions::cross_edges(s, n).contains((p.0, p.1, s.defs[i].0)),
    decreases n,
{
    let rest = transactions::cross_edges(s, (n - 1) as nat);
    let own = transactions::remote_uses(s.defs[n - 1].1, s.defs[n - 1].0);
    if i == n - 1 {
        let refs = read_write::added_all(seq![], read_write::member_refs(s.defs[i].1));
        read_write::lemma_added_all_contains(
            Seq::<MemberM>::empty(),
            read_write::member_refs(s.defs[i].1),
            p,
        );
        assert(refs.contains(p));
        let j = choose|j: int| 0 <= j < refs.len() && refs[j] == p;
        assert(own[j] == (p.0, p.1, s.defs[i].0));
    } else {
        lemma_cross_edge(s, i, p, (n - 1) as nat);
    }
    calls::lemma_joined(rest, own, (p.0, p.1, s.defs[i].0));
}

/// All that a definition of a new service reads is among what its service is
/// registered with.
proof fn lemma_edge(
    a: ManagerM,
    m: ManagerM,
    svc: Symbol,
    decls: Seq<DeclM<Symbol>>,
    dep: DepM,
    rank: spec_fn(MemberM) -> nat,
    d: Symbol,
    p: MemberM,
)
    requires
        grown(a, m, svc, decls, decls.len() as int, dep),
        suits(a, svc, decls, rank),
        dep.declared_by(decls),
        inward(m, svc),
        model::def_of(m, svc, d) is Some,
        reactive::reads(model::def_of(m, svc, d)->Some_0, svc).contains(p),
    ensures
        transactions::edges(table::get(m.services, svc)->Some_0, svc).contains((p.0, p.1, d)),
{
    let s = table::get(m.services, svc)->Some_0;
    let e = model::def_of(m, svc, d)->Some_0;
    assert(defined_before(decls, decls.len() as int, d, e));
    let j = choose|j: int|
        0 <= j < decls.len() && (#[trigger] decls[j] matches DeclM::DefDecl {
            name,
            ty,
            val,
            is_pub,
        } && name == d && val == e);
    let known = lemma_graph(decls, j, decls.len());
    calls::lemma_same_reads(e, svc);
    calls::law_reads_are_written(e, svc, Set::empty(), known, p);
    table::lemma_slot(s.defs, d);
    let i = table::slot(s.defs, d) as int;
    assert(s.defs[i] == (d, e));
    if read_write::member_refs(e).contains(p) {
        lemma_cross_edge(s, i, p, s.defs.len());
    } else {
        assert(table::bound(m.services, p.0));
        assert(model::var_of(m, svc, p.1) is Some);
        table::lemma_slot(s.vars, p.1);
        let k = table::slot(s.vars, p.1) as int;
        assert(s.dep.edge(d, p.1));
        lemma_local_edge(s, svc, i, k, s.defs.len());
    }
    calls::lemma_joined(
        transactions::local_edges(s, svc, s.defs.len()),
        transactions::cross_edges(s, s.defs.len()),
        (p.0, p.1, d),
    );
}

/// More listeners leave a settled node settled.
proof fn lemma_heard_settled(m: ManagerM, z: ManagerM, rank: spec_fn(MemberM) -> nat)
    requires
        heard(m, z),
        reactive::tidy(m, rank),
        reactive::simple(m),
        reactive::all_settled(m),
        reactive::all_readable(m),
    ensures
        reactive::tidy(z, rank),
        reactive::simple(z),
        reactive::all_settled(z),
        reactive::all_readable(z),
        forall|s: Symbol, y: Symbol| #[trigger]
            model::def_of(z, s, y) == model::def_of(m, s, y),
        forall|s: Symbol| #[trigger] model::net_id(z, s) == model::net_id(m, s),
{
    assert forall|s: Symbol, y: Symbol| #[trigger]
        model::def_of(z, s, y) == model::def_of(m, s, y) by {
        assert(table::bound(z.services, s) == table::bound(m.services, s));
    }
    assert forall|s: Symbol, y: Symbol| #[trigger]
        model::var_of(z, s, y) == model::var_of(m, s, y) by {
        assert(table::bound(z.services, s) == table::bound(m.services, s));
    }
    assert forall|s: Symbol| #[trigger] model::net_id(z, s) == model::net_id(m, s) by {
        assert(table::bound(z.services, s) == table::bound(m.services, s));
    }
    assert forall|s: Symbol, d: Symbol| #![trigger model::def_of(z, s, d)]
        model::def_of(z, s, d) is Some implies reactive::call_free(model::def_of(z, s, d)->Some_0)
        && reactive::reads_here(z, model::def_of(z, s, d)->Some_0, s) && !table::bound(
        z.remote_services,
        s,
    ) && model::cache_of(table::get(z.services, s)->Some_0, d).len() == 0 by {
        assert(model::def_of(m, s, d) is Some);
        assert(reactive::reads_here(m, model::def_of(m, s, d)->Some_0, s));
        assert(table::bound(z.services, s) == table::bound(m.services, s));
    }
    assert forall|s: Symbol, d: Symbol| #![trigger model::def_of(z, s, d)]
        model::def_of(z, s, d) is Some implies model::var_of(z, s, d) is Some by {
        assert(model::def_of(m, s, d) is Some);
    }
    assert forall|s: Symbol, d: Symbol, p: MemberM|
        #![trigger model::def_of(z, s, d), model::def_of(z, p.0, p.1)]
        model::def_of(z, s, d) matches Some(e) && reactive::reads(e, s).contains(p)
            && model::def_of(z, p.0, p.1) is Some implies rank(p) < rank((s, d)) by {
        assert(model::def_of(m, s, d) == model::def_of(z, s, d));
        assert(model::def_of(m, p.0, p.1) == model::def_of(z, p.0, p.1));
    }
    assert forall|p: MemberM| #[trigger] reactive::kept_value(z, p) == reactive::kept_value(
        m,
        p,
    ) by {
        assert(model::var_of(z, p.0, p.1) == model::var_of(m, p.0, p.1));
    }
    assert(reactive::alike(m, z));
    assert forall|s: Symbol, d: Symbol| #[trigger] reactive::settled(z, s, d) by {
        assert(reactive::settled(m, s, d));
        assert(model::def_of(z, s, d) == model::def_of(m, s, d));
        if let Some(e) = model::def_of(m, s, d) {
            reactive::lemma_kept_frame(m, z, e, s);
        }
    }
    assert forall|s: Symbol, d: Symbol| #![trigger model::def_of(z, s, d)]
        model::def_of(z, s, d) is Some implies reactive::readable(z, (s, d)) by {
        assert(model::def_of(m, s, d) is Some);
        assert(reactive::readable(m, (s, d)));
        let n = choose|n: nat| (#[trigger] reactive::read(n, m, (s, d))) is Ok;
        reactive::lemma_read_alike(n, m, z, (s, d));
        assert(reactive::read(n, z, (s, d)) is Ok);
    }
}

/// The definitions of a new service are told of what they read, and so are the
/// others as before.
proof fn lemma_all_listen(
    a: ManagerM,
    m: ManagerM,
    svc: Symbol,
    decls: Seq<DeclM<Symbol>>,
    env: EnvM,
    dep: DepM,
    rank: spec_fn(MemberM) -> nat,
)
    requires
        reactive::reactive(a, rank),
        reactive::simple(a),
        suits(a, svc, decls, rank),
        dep.declared_by(decls),
        building(a, m, svc, decls, decls.len() as int, env, dep, rank),
    ensures
        ({
            let z = transactions::listen_all(m, svc);
            &&& reactive::reactive(z, rank)
            &&& reactive::simple(z)
            &&& reactive::all_settled(z)
            &&& reactive::all_readable(z)
        }),
{
    let z = transactions::listen_all(m, svc);
    let s = table::get(m.services, svc)->Some_0;
    let es = transactions::edges(s, svc);
    lemma_listen(m, es, s.id, es.len());
    lemma_heard_settled(m, z, rank);
    assert forall|q: Symbol, d: Symbol, p: MemberM|
        #![trigger model::def_of(z, q, d), model::listeners_of(z, p.0, p.1)]
        model::def_of(z, q, d) matches Some(e) && reactive::reads(e, q).contains(p) implies
        model::listeners_of(z, p.0, p.1).contains((model::net_id(z, q), d)) by {
        let e = model::def_of(z, q, d)->Some_0;
        assert(model::def_of(m, q, d) == Some(e));
        assert(model::net_id(z, q) == model::net_id(m, q));
        if q == svc {
            lemma_edge(a, m, svc, decls, dep, rank, d, p);
            let j = choose|j: int| 0 <= j < es.len() && es[j] == (p.0, p.1, d);
            assert(table::bound(m.services, es[j].0));
            assert(model::net_id(m, svc) == s.id);
        } else {
            assert(model::def_of(a, q, d) == Some(e));
            assert(model::listeners_of(a, p.0, p.1).contains((model::net_id(a, q), d)));
            assert(table::bound(a.services, q));
            assert(table::bound(a.services, p.0));
            assert(model::listeners_of(m, p.0, p.1) == model::listeners_of(a, p.0, p.1));
            assert(model::net_id(m, q) == model::net_id(a, q));
        }
    }
}

/// A node without services is settled.
pub proof fn law_empty_node_is_settled(m: ManagerM, rank: spec_fn(MemberM) -> nat)
    requires
        m.services.len() == 0,
        m.reactive_cache is None,
    ensures
        reactive::reactive(m, rank),
        reactive::simple(m),
        reactive::all_settled(m),
        reactive::all_readable(m),
{
    assert forall|svc: Symbol, d: Symbol| #[trigger] model::def_of(m, svc, d) is None by {
        table::lemma_slot(m.services, svc);
    }
}

/// A service that is created begins with its definitions settled, and told of
/// what they read; the definitions that were there stay so. All are read as
/// they are kept.
///
/// This is of nodes whose definitions call no function, and of services that
/// declare none that does.
pub proof fn law_new_service_is_settled(
    n: nat,
    svc: Symbol,
    decls: Seq<DeclM<Symbol>>,
    dep: DepM,
    m: ManagerM,
    rank: spec_fn(MemberM) -> nat,
)
    requires
        reactive::reactive(m, rank),
        reactive::simple(m),
        reactive::all_settled(m),
        reactive::all_readable(m),
        suits(m, svc, decls, rank),
        dep.declared_by(decls),
        transactions::create(n, svc, decls, dep, m).0 is Ok,
    ensures
        ({
            let z = transactions::create(n, svc, decls, dep, m).1;
            &&& reactive::reactive(z, rank)
            &&& reactive::simple(z)
            &&& reactive::all_settled(z)
            &&& reactive::all_readable(z)
            &&& reactive::all_current(z)
        }),
{
    let tid = transactions::next_txn_id(m);
    let m1 = transactions::ticked(
        model::with_service(m, svc, transactions::empty_service(m, svc, dep)),
    );
    let t0 = txn::fresh_txn(tid);
    lemma_start(m, m1, svc, decls, dep, rank);
    assert(truthful(m1, t0)) by {
        assert forall|s: Symbol, y: Symbol|
            #![trigger table::get(t0.read_cache, (model::net_id(m1, s), y))]
            table::get(t0.read_cache, (model::net_id(m1, s), y)) is None by {
            table::lemma_slot(t0.read_cache, (model::net_id(m1, s), y));
        }
    }
    let env = lemma_init(n, m, svc, decls, 0, seq![], tid, m1, t0, dep, rank);
    let w = transactions::init_decls(
        n,
        svc,
        decls,
        0,
        seq![],
        tid,
        World { m: m1, t: Some(t0) },
    ).1;
    let t = transactions::txn_or(w.t, tid);
    assert(transactions::apply_writes(n, t, w.m) == (Ok::<(), ErrM>(()), w.m));
    let b = transactions::listen_all(w.m, svc);
    lemma_all_listen(m, w.m, svc, decls, env, dep, rank);
    let z = transactions::unlock(b, t);
    assert(transactions::create(n, svc, decls, dep, m).1 == z);
    reactive::lemma_release_still(b, t.locked, t.id, t.locked.len());
    reactive::lemma_reactive_kept(b, z, rank);
    assert forall|s: Symbol, y: Symbol| #![trigger model::var_of(z, s, y)]
        model::def_of(b, s, y) is None implies reactive::kept_value(z, (s, y))
        == reactive::kept_value(b, (s, y)) by {}
    reactive::lemma_readable_kept(b, z, rank);
    assert forall|s: Symbol, d: Symbol| #[trigger] reactive::settled(z, s, d) by {
        assert(reactive::settled(b, s, d));
        assert(model::def_of(z, s, d) == model::def_of(b, s, d));
        if let Some(e) = model::def_of(b, s, d) {
            reactive::lemma_kept_frame(b, z, e, s);
        }
    }
    reactive::lemma_all_fresh(z, rank);
}

} // verus!
