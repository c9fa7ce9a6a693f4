//! Laws of creating services.

use crate::runtime::ast::model::{DeclM, ValueM};
use crate::runtime::interner::Symbol;
use crate::runtime::interpreter::evaluator::ErrM;
use crate::runtime::manager::isolation;
use crate::runtime::manager::laws;
use crate::runtime::manager::model;
use crate::runtime::manager::model::{EnvM, KeyM, ManagerM, ServiceM, World};
use crate::runtime::manager::reactive;
use crate::runtime::manager::semantics;
use crate::runtime::manager::state;
use crate::runtime::manager::transactions;
use crate::runtime::semantic_analysis::var_analysis::dep_analysis::DepM;
use crate::runtime::table;
use crate::runtime::txn;
use crate::runtime::txn::{LockM, TxnId, VarStateM};
use vstd::prelude::*;

verus! {

/// Whether a service kept its identity and its members, with the writers that
/// they had or `t` in their place.
pub open spec fn service_grows(a: ServiceM, b: ServiceM, t: TxnId) -> bool {
    &&& b.id == a.id
    &&& b.vars.len() >= a.vars.len()
    &&& forall|j: int|
        0 <= j < a.vars.len() ==> (#[trigger] b.vars[j]).0 == a.vars[j].0 && (
        b.vars[j].1.latest_write_txn == a.vars[j].1.latest_write_txn
            || b.vars[j].1.latest_write_txn == Some(t))
}

/// Whether a node kept its services, none of which lost a member.
pub open spec fn grows(a: ManagerM, b: ManagerM, t: TxnId) -> bool {
    &&& b.services.len() == a.services.len()
    &&& forall|i: int|
        0 <= i < a.services.len() ==> (#[trigger] b.services[i]).0 == a.services[i].0
            && service_grows(a.services[i].1, b.services[i].1, t)
}

/// Whether `name` is a member of the service, written last by `t`.
pub open spec fn made(m: ManagerM, svc: Symbol, name: Symbol, t: TxnId) -> bool {
    model::var_of(m, svc, name) matches Some(v) && v.latest_write_txn == Some(t)
}

/// The name that a declaration declares.
pub open spec fn declared(d: DeclM<Symbol>) -> Symbol {
    match d {
        DeclM::TableDecl { name, fields } => name,
        DeclM::VarDecl { name, ty, val } => name,
        DeclM::DefDecl { name, ty, val, is_pub } => name,
    }
}

proof fn lemma_grows_trans(a: ManagerM, b: ManagerM, c: ManagerM, t: TxnId)
    requires
        grows(a, b, t),
        grows(b, c, t),
    ensures
        grows(a, c, t),
{
    assert forall|i: int| 0 <= i < a.services.len() implies (#[trigger] c.services[i]).0
        == a.services[i].0 && service_grows(a.services[i].1, c.services[i].1, t) by {
        let x = a.services[i].1;
        let y = b.services[i].1;
        assert(b.services[i].0 == a.services[i].0);
        assert(service_grows(x, y, t));
        assert forall|j: int| 0 <= j < x.vars.len() implies (
        #[trigger] c.services[i].1.vars[j]).0 == x.vars[j].0 && (
        c.services[i].1.vars[j].1.latest_write_txn == x.vars[j].1.latest_write_txn
            || c.services[i].1.vars[j].1.latest_write_txn == Some(t)) by {
            assert(y.vars[j].0 == x.vars[j].0);
        }
    }
}

proof fn lemma_grows_kept(a: ManagerM, b: ManagerM, q: Option<TxnId>, t: TxnId)
    requires
        isolation::kept(a, b, q),
    ensures
        grows(a, b, t),
{
    reveal(isolation::kept);
    assert forall|i: int| 0 <= i < a.services.len() implies (#[trigger] b.services[i]).0
        == a.services[i].0 && service_grows(a.services[i].1, b.services[i].1, t) by {
        assert(isolation::service_kept(a.services[i].1, b.services[i].1, q));
    }
}

/// A service is replaced by one that has grown.
proof fn lemma_grows_with(m: ManagerM, svc: Symbol, s: ServiceM, t: TxnId)
    requires
        table::get(m.services, svc) matches Some(x) && service_grows(x, s, t),
    ensures
        grows(m, model::with_service(m, svc, s), t),
{
    table::lemma_slot(m.services, svc);
}

/// A member is there as before.
proof fn lemma_grows_made(a: ManagerM, b: ManagerM, svc: Symbol, name: Symbol, t: TxnId)
    requires
        grows(a, b, t),
    ensures
        table::bound(b.services, svc) == table::bound(a.services, svc),
        table::bound(a.services, svc) ==> service_grows(
            table::get(a.services, svc)->Some_0,
            table::get(b.services, svc)->Some_0,
            t,
        ),
        made(a, svc, name, t) ==> made(b, svc, name, t),
{
    table::lemma_slot(a.services, svc);
    let i = table::slot(a.services, svc) as int;
    assert forall|j: int| 0 <= j < i implies (#[trigger] b.services[j]).0 != svc by {
        assert(a.services[j].0 != svc);
    }
    if table::bound(a.services, svc) {
        assert(b.services[i].0 == a.services[i].0);
    }
    table::lemma_slot_is(b.services, svc, i);
    if made(a, svc, name, t) {
        let x = a.services[i].1;
        let y = b.services[i].1;
        assert(service_grows(x, y, t));
        table::lemma_slot(x.vars, name);
        let k = table::slot(x.vars, name) as int;
        assert forall|j: int| 0 <= j < k implies (#[trigger] y.vars[j]).0 != name by {
            assert(x.vars[j].0 != name);
        }
        assert(y.vars[k].0 == x.vars[k].0);
        table::lemma_slot_is(y.vars, name, k);
    }
}

/// A member is set up.
proof fn lemma_with_member(
    m: ManagerM,
    svc: Symbol,
    name: Symbol,
    v: ValueM<Symbol>,
    t: TxnId,
)
    requires
        table::bound(m.services, svc),
    ensures
        grows(m, transactions::with_member(m, svc, name, v, t), t),
        made(transactions::with_member(m, svc, name, v, t), svc, name, t),
{
    table::lemma_slot(m.services, svc);
    let s = table::get(m.services, svc)->Some_0;
    let state = VarStateM {
        value: v,
        lock: txn::LockM::Unlocked,
        latest_write_txn: Some(t),
    };
    let s1 = ServiceM { vars: table::put(s.vars, name, state), ..s };
    table::lemma_slot(s.vars, name);
    assert(service_grows(s, s1, t));
    lemma_grows_with(m, svc, s1, t);
    table::lemma_put(m.services, svc, s1, svc);
    table::lemma_put(s.vars, name, state, name);
}

proof fn lemma_with_def(
    m: ManagerM,
    svc: Symbol,
    name: Symbol,
    e: crate::runtime::ast::model::ExprM<Symbol>,
    t: TxnId,
)
    ensures
        grows(m, transactions::with_def(m, svc, name, e), t),
{
    if let Some(s) = table::get(m.services, svc) {
        let s1 = ServiceM { defs: table::put(s.defs, name, e), ..s };
        assert(service_grows(s, s1, t));
        lemma_grows_with(m, svc, s1, t);
    }
}

/// Declarations take effect one by one; each leaves its member behind.
proof fn lemma_init(
    n: nat,
    svc: Symbol,
    decls: Seq<DeclM<Symbol>>,
    i: nat,
    env: EnvM,
    tid: TxnId,
    w: World,
)
    requires
        table::bound(w.m.services, svc),
        model::txn_id(w.t) == Some(tid),
    ensures
        ({
            let (r, z) = transactions::init_decls(n, svc, decls, i, env, tid, w);
            &&& grows(w.m, z.m, tid)
            &&& model::txn_id(z.t) == Some(tid)
            &&& r is Ok ==> forall|k: int|
                i <= k < decls.len() ==> made(z.m, svc, declared(#[trigger] decls[k]), tid)
        }),
    decreases decls.len() - i,
{
    let (r, z) = transactions::init_decls(n, svc, decls, i, env, tid, w);
    isolation::lemma_kept_refl(w.m, None);
    lemma_grows_kept(w.m, w.m, None, tid);
    if i < decls.len() {
        match decls[i as int] {
            DeclM::TableDecl { name, fields } => {},
            DeclM::VarDecl { name, ty, val } => {
                isolation::keep_eval(n, val, env, svc, w);
                let (a, w1) = semantics::eval(n, val, env, svc, w);
                lemma_grows_kept(w.m, w1.m, model::txn_id(w.t), tid);
                lemma_grows_made(w.m, w1.m, svc, name, tid);
                if let Ok(v) = a {
                    let m2 = transactions::with_member(w1.m, svc, name, v, tid);
                    lemma_with_member(w1.m, svc, name, v, tid);
                    lemma_step(
                        n,
                        svc,
                        decls,
                        i,
                        env.push((name, v)),
                        tid,
                        w.m,
                        w1.m,
                        World { m: m2, ..w1 },
                    );
                }
            },
            DeclM::DefDecl { name, ty, val, is_pub } => {
                isolation::keep_eval(n, val, env, svc, w);
                let (a, w1) = semantics::eval(n, val, env, svc, w);
                lemma_grows_kept(w.m, w1.m, model::txn_id(w.t), tid);
                lemma_grows_made(w.m, w1.m, svc, name, tid);
                if let Ok(v) = a {
                    let m2 = transactions::with_member(w1.m, svc, name, v, tid);
                    lemma_with_member(w1.m, svc, name, v, tid);
                    let m3 = transactions::with_def(m2, svc, name, val);
                    lemma_with_def(m2, svc, name, val, tid);
                    lemma_grows_made(m2, m3, svc, name, tid);
                    lemma_grows_trans(w1.m, m2, m3, tid);
                    lemma_step(
                        n,
                        svc,
                        decls,
                        i,
                        env.push((name, v)),
                        tid,
                        w.m,
                        w1.m,
                        World { m: m3, ..w1 },
                    );
                }
            },
        }
    }
}

/// One declaration has taken effect; the others follow.
proof fn lemma_step(
    n: nat,
    svc: Symbol,
    decls: Seq<DeclM<Symbol>>,
    i: nat,
    env: EnvM,
    tid: TxnId,
    a: ManagerM,
    b: ManagerM,
    w: World,
)
    requires
        i < decls.len(),
        table::bound(a.services, svc),
        grows(a, b, tid),
        grows(b, w.m, tid),
        made(w.m, svc, declared(decls[i as int]), tid),
        model::txn_id(w.t) == Some(tid),
    ensures
        ({
            let (r, z) = transactions::init_decls(n, svc, decls, i + 1, env, tid, w);
            &&& grows(a, z.m, tid)
            &&& model::txn_id(z.t) == Some(tid)
            &&& r is Ok ==> forall|k: int|
                i <= k < decls.len() ==> made(z.m, svc, declared(#[trigger] decls[k]), tid)
        }),
    decreases decls.len() - i, 0int,
{
    let (r, z) = transactions::init_decls(n, svc, decls, i + 1, env, tid, w);
    lemma_grows_trans(a, b, w.m, tid);
    lemma_grows_made(a, w.m, svc, declared(decls[i as int]), tid);
    lemma_init(n, svc, decls, i + 1, env, tid, w);
    lemma_grows_trans(a, w.m, z.m, tid);
    lemma_grows_made(w.m, z.m, svc, declared(decls[i as int]), tid);
}

/// Writes are stored.
proof fn lemma_grows_store(
    m: ManagerM,
    writes: Seq<(KeyM, ValueM<Symbol>)>,
    tid: TxnId,
    n: nat,
)
    ensures
        grows(m, transactions::store_writes(m, writes, tid, n), tid),
    decreases n,
{
    if n == 0 {
        isolation::lemma_kept_refl(m, None);
        lemma_grows_kept(m, m, None, tid);
    } else {
        let u = transactions::store_writes(m, writes, tid, (n - 1) as nat);
        lemma_grows_store(m, writes, tid, (n - 1) as nat);
        let key = writes[n - 1].0;
        state::lemma_place_of_id(u.services, key.0);
        let k = model::place_of_id(u.services, key.0) as int;
        if k < u.services.len() {
            table::lemma_slot(u.services[k].1.vars, key.1);
        }
        let w = transactions::store_one(u, writes[n - 1], tid);
        assert(grows(u, w, tid));
        lemma_grows_trans(m, u, w, tid);
    }
}

/// Locks are let go of.
proof fn lemma_grows_release(m: ManagerM, locked: Seq<KeyM>, t: TxnId, n: nat)
    ensures
        grows(m, model::release_all(m, locked, t, n), t),
    decreases n,
{
    if n == 0 {
        isolation::lemma_kept_refl(m, None);
        lemma_grows_kept(m, m, None, t);
    } else {
        let u = model::release_all(m, locked, t, (n - 1) as nat);
        lemma_grows_release(m, locked, t, (n - 1) as nat);
        let key = locked[n - 1];
        state::lemma_place_of_id(u.services, key.0);
        let k = model::place_of_id(u.services, key.0) as int;
        if k < u.services.len() {
            table::lemma_slot(u.services[k].1.vars, key.1);
        }
        let w = model::release_all(m, locked, t, n);
        assert(grows(u, w, t));
        lemma_grows_trans(m, u, w, t);
    }
}

/// Users are registered.
proof fn lemma_grows_listen(
    m: ManagerM,
    es: Seq<(Symbol, Symbol, Symbol)>,
    this_id: Seq<char>,
    n: nat,
    t: TxnId,
)
    ensures
        grows(m, transactions::listen(m, es, this_id, n), t),
    decreases n,
{
    if n == 0 {
        isolation::lemma_kept_refl(m, None);
        lemma_grows_kept(m, m, None, t);
    } else {
        let u = transactions::listen(m, es, this_id, (n - 1) as nat);
        lemma_grows_listen(m, es, this_id, (n - 1) as nat, t);
        let (owner, member, def) = es[n - 1];
        let w = transactions::listen(m, es, this_id, n);
        if let Some(s) = table::get(u.services, owner) {
            let s1 = model::with_listener(s, member, (this_id, def));
            assert(service_grows(s, s1, t));
            lemma_grows_with(u, owner, s1, t);
        } else {
            assert(w.services == u.services);
        }
        assert(grows(u, w, t));
        lemma_grows_trans(m, u, w, t);
    }
}

/// Where a service is created, it is there under its identity, and each member
/// that it declares was written by the transaction that created it. Where the
/// creation fails, there is no service of that name.
pub proof fn law_create(
    n: nat,
    svc: Symbol,
    decls: Seq<DeclM<Symbol>>,
    dep: DepM,
    m: ManagerM,
)
    requires
        table::keys_distinct(m.services),
    ensures
        ({
            let (r, z) = transactions::create(n, svc, decls, dep, m);
            let tid = transactions::next_txn_id(m);
            match r {
                Ok(_) => {
                    &&& table::get(z.services, svc) matches Some(s) && s.id == model::new_net_id(
                        m,
                        svc,
                    )
                    &&& forall|k: int|
                        0 <= k < decls.len() ==> made(z, svc, declared(#[trigger] decls[k]), tid)
                },
                Err(e) => !(e is Suspended) ==> !table::bound(z.services, svc),
            }
        }),
{
    let (r, z) = transactions::create(n, svc, decls, dep, m);
    let tid = transactions::next_txn_id(m);
    let s0 = transactions::empty_service(m, svc, dep);
    let m1 = transactions::ticked(model::with_service(m, svc, s0));
    table::lemma_put(m.services, svc, s0, svc);
    let w0 = World { m: m1, t: Some(txn::fresh_txn(tid)) };
    lemma_init(n, svc, decls, 0, seq![], tid, w0);
    let (x, w) = transactions::init_decls(n, svc, decls, 0, seq![], tid, w0);
    let t = transactions::txn_or(w.t, tid);
    match x {
        Err(ErrM::Suspended) => {},
        Ok(_) => {
            let ms = transactions::store_writes(w.m, t.written, t.id, t.written.len());
            lemma_grows_store(w.m, t.written, t.id, t.written.len());
            laws::keep_propagate_writes(n, t.written, 0, ms);
            let (a, m2) = transactions::apply_writes(n, t, w.m);
            lemma_grows_kept(ms, m2, None, tid);
            lemma_grows_trans(w.m, ms, m2, tid);
            laws::lemma_writes_suspend(n, t.written, 0, ms);
            if a is Ok {
                laws::keep_commit_all(n, t.participants, 0, t.id, None, m2);
                laws::lemma_commits_suspend(n, t.participants, 0, t.id, None, m2);
                let (c, m3) = transactions::commit_all(n, t.participants, 0, t.id, None, m2);
                lemma_grows_kept(m2, m3, None, tid);
                lemma_grows_trans(w.m, m2, m3, tid);
                if c is Ok {
                    let m4 = transactions::listen_all(m3, svc);
                    isolation::lemma_kept_refl(m3, None);
                    lemma_grows_kept(m3, m3, None, tid);
                    if let Some(s) = table::get(m3.services, svc) {
                        let es = transactions::edges(s, svc);
                        lemma_grows_listen(m3, es, s.id, es.len(), tid);
                    }
                    lemma_grows_trans(w.m, m3, m4, tid);
                    lemma_grows_release(m4, t.locked, t.id, t.locked.len());
                    lemma_grows_trans(w.m, m4, z, tid);
                    lemma_grows_trans(m1, w.m, z, tid);
                    lemma_grows_made(m1, z, svc, svc, tid);
                    assert forall|k: int| 0 <= k < decls.len() implies made(
                        z,
                        svc,
                        declared(#[trigger] decls[k]),
                        tid,
                    ) by {
                        lemma_grows_made(w.m, z, svc, declared(decls[k]), tid);
                    }
                }
            }
        },
        Err(e) => {
            let (a, m2) = transactions::abort_all(n, t.participants, 0, t.id, w.m);
            laws::keep_abort_all(n, t.participants, 0, t.id, w.m);
            laws::lemma_abort_suspends(n, t.participants, 0, t.id, w.m);
            if a is Ok {
                lemma_grows_kept(w.m, m2, None, tid);
                lemma_grows_trans(m1, w.m, m2, tid);
                assert forall|i: int, j: int| 0 <= i < j < m2.services.len() implies (
                #[trigger] m2.services[i]).0 != (#[trigger] m2.services[j]).0 by {
                    assert(m1.services[i].0 != m1.services[j].0);
                }
                table::lemma_without(m2.services, svc, svc);
                let m3 = ManagerM { services: table::without(m2.services, svc), ..m2 };
                lemma_grows_release(m3, t.locked, t.id, t.locked.len());
                lemma_grows_made(m3, z, svc, svc, tid);
            }
        },
    }
}

/// Whether a declaration is that of a variable with a literal.
pub open spec fn plain_var(d: DeclM<Symbol>) -> bool {
    d is VarDecl && d->VarDecl_val is Literal
}

/// The variables from place `i` on are set up with their literals.
proof fn lemma_plain_vars(
    n: nat,
    svc: Symbol,
    decls: Seq<DeclM<Symbol>>,
    i: nat,
    env: EnvM,
    tid: TxnId,
    w: World,
    k: int,
)
    requires
        n >= 1,
        forall|j: int| 0 <= j < decls.len() ==> plain_var(#[trigger] decls[j]),
        forall|j: int|
            0 <= j < decls.len() && j != k ==> (#[trigger] decls[j])->VarDecl_name
                != decls[k]->VarDecl_name,
        0 <= k < decls.len(),
        table::get(w.m.services, svc) matches Some(s) && s.defs.len() == 0,
    ensures
        ({
            let (r, z) = transactions::init_decls(n, svc, decls, i, env, tid, w);
            let x = decls[k]->VarDecl_name;
            &&& r is Ok
            &&& z.t == w.t
            &&& table::get(z.m.services, svc) matches Some(s) && s.defs.len() == 0
            &&& k < i ==> model::var_of(z.m, svc, x) == model::var_of(w.m, svc, x)
            &&& k >= i ==> model::var_of(z.m, svc, x) == Some(
                VarStateM {
                    value: decls[k]->VarDecl_val->Literal_val,
                    lock: LockM::Unlocked,
                    latest_write_txn: Some(tid),
                },
            )
        }),
    decreases decls.len() - i,
{
    if i < decls.len() {
        let d = decls[i as int];
        assert(plain_var(d));
        let name = d->VarDecl_name;
        let v = d->VarDecl_val->Literal_val;
        let x = decls[k]->VarDecl_name;
        reactive::lemma_eval_steps(n, d->VarDecl_val, env, svc, w);
        let s = table::get(w.m.services, svc)->Some_0;
        let state = VarStateM { value: v, lock: LockM::Unlocked, latest_write_txn: Some(tid) };
        let s1 = ServiceM { vars: table::put(s.vars, name, state), ..s };
        let w1 = World { m: transactions::with_member(w.m, svc, name, v, tid), ..w };
        table::lemma_put(w.m.services, svc, s1, svc);
        table::lemma_put(s.vars, name, state, x);
        lemma_plain_vars(n, svc, decls, i + 1, env.push((name, v)), tid, w1, k);
    }
}

/// A service that declares variables with literals is created, and each of the
/// variables has the value of its literal; nobody holds a lock on it.
pub proof fn law_variables_start_with_values(
    n: nat,
    svc: Symbol,
    decls: Seq<DeclM<Symbol>>,
    dep: DepM,
    m: ManagerM,
    k: int,
)
    requires
        n >= 1,
        forall|j: int| 0 <= j < decls.len() ==> plain_var(#[trigger] decls[j]),
        forall|j: int|
            0 <= j < decls.len() && j != k ==> (#[trigger] decls[j])->VarDecl_name
                != decls[k]->VarDecl_name,
        0 <= k < decls.len(),
    ensures
        ({
            let (r, z) = transactions::create(n, svc, decls, dep, m);
            let v = model::var_of(z, svc, decls[k]->VarDecl_name);
            &&& r is Ok
            &&& v is Some
            &&& v->Some_0.value == decls[k]->VarDecl_val->Literal_val
            &&& v->Some_0.lock is Unlocked
        }),
{
    let tid = transactions::next_txn_id(m);
    let s0 = transactions::empty_service(m, svc, dep);
    let m1 = transactions::ticked(model::with_service(m, svc, s0));
    table::lemma_put(m.services, svc, s0, svc);
    let w0 = World { m: m1, t: Some(txn::fresh_txn(tid)) };
    lemma_plain_vars(n, svc, decls, 0, seq![], tid, w0, k);
    let z = transactions::init_decls(n, svc, decls, 0, seq![], tid, w0).1;
    let s = table::get(z.m.services, svc)->Some_0;
    assert(transactions::edges(s, svc) =~= seq![]);
}

} // verus!
