//! What a run leaves alone: the values of variables, who wrote them, and the
//! locks of other transactions.

use crate::net::messages::{EventM, MessageM};
use crate::net::wire;
use crate::runtime::ast::model::{ActionStmtM, ExprM, ValueM};
use crate::runtime::ast::renaming;
use crate::runtime::interner;
use crate::runtime::interner::Symbol;
use crate::runtime::manager::model;
use crate::runtime::manager::model::{EnvM, IncomingM, KeyM, ManagerM, ServiceM, Wish, World};
use crate::runtime::manager::semantics;
use crate::runtime::semantic_analysis::var_analysis::read_write;
use crate::runtime::table;
use crate::runtime::txn::{LockM, TxnId, TxnM, VarStateM};
use vstd::prelude::*;

verus! {

/// Whether a variable kept its writer, its locks but for those of `t`, and its
/// value unless it is that of a definition.
pub open spec fn var_kept(a: VarStateM, b: VarStateM, is_def: bool, t: Option<TxnId>) -> bool {
    &&& b.latest_write_txn == a.latest_write_txn
    &&& !is_def ==> b.value == a.value
    &&& forall|q: TxnId|
        Some(q) != t ==> (#[trigger] b.lock.holders().contains(q) <==> a.lock.holders().contains(q))
}

/// Whether a service kept its identity, its definitions and its variables.
pub open spec fn service_kept(a: ServiceM, b: ServiceM, t: Option<TxnId>) -> bool {
    &&& b.id == a.id
    &&& b.name == a.name
    &&& b.defs == a.defs
    &&& b.dep == a.dep
    &&& b.vars.len() == a.vars.len()
    &&& forall|j: int|
        0 <= j < a.vars.len() ==> (#[trigger] b.vars[j]).0 == a.vars[j].0 && var_kept(
            a.vars[j].1,
            b.vars[j].1,
            table::bound(a.defs, a.vars[j].0),
            t,
        )
}

/// Whether a node kept its services, its held transactions and its waiting
/// requests.
#[verifier::opaque]
pub open spec fn kept(a: ManagerM, b: ManagerM, t: Option<TxnId>) -> bool {
    &&& b.remote_services == a.remote_services
    &&& b.pending_txns == a.pending_txns
    &&& b.wait_queue == a.wait_queue
    &&& b.node_id == a.node_id
    &&& b.clock == a.clock
    &&& b.local_address == a.local_address
    &&& b.depth_limit == a.depth_limit
    &&& b.services.len() == a.services.len()
    &&& forall|i: int|
        0 <= i < a.services.len() ==> (#[trigger] b.services[i]).0 == a.services[i].0
            && service_kept(a.services[i].1, b.services[i].1, t)
}

/// Whether every lock that the transaction holds is on its list.
#[verifier::opaque]
pub open spec fn covered(m: ManagerM, t: TxnM) -> bool {
    forall|i: int, j: int|
        #![trigger m.services[i].1.vars[j]]
        0 <= i < m.services.len() && 0 <= j < m.services[i].1.vars.len()
            && m.services[i].1.vars[j].1.lock.holders().contains(t.id) ==> t.locked.contains(
            (m.services[i].1.id, m.services[i].1.vars[j].0),
        )
}

/// Whether a run kept what it has to keep, and goes on under the same
/// transaction; no member is written twice by then if none was before.
pub open spec fn moved(a: World, b: World) -> bool {
    &&& kept(a.m, b.m, model::txn_id(a.t))
    &&& model::txn_id(b.t) == model::txn_id(a.t)
    &&& a.t is Some && covered(a.m, a.t->Some_0) ==> covered(b.m, b.t->Some_0)
    &&& a.t is Some && table::keys_distinct(a.t->Some_0.written) ==> table::keys_distinct(
        b.t->Some_0.written,
    )
}

/// Nothing is lost by doing nothing.
pub proof fn lemma_kept_refl(m: ManagerM, t: Option<TxnId>)
    ensures
        kept(m, m, t),
{
    reveal(kept);
}

/// What is kept twice is kept.
pub proof fn lemma_kept_trans(a: ManagerM, b: ManagerM, c: ManagerM, t: Option<TxnId>)
    requires
        kept(a, b, t),
        kept(b, c, t),
    ensures
        kept(a, c, t),
{
    reveal(kept);
    assert forall|i: int| 0 <= i < a.services.len() implies (#[trigger] c.services[i]).0
        == a.services[i].0 && service_kept(a.services[i].1, c.services[i].1, t) by {
        let x = a.services[i].1;
        let y = b.services[i].1;
        let z = c.services[i].1;
        assert(service_kept(x, y, t));
        assert(service_kept(y, z, t));
        assert forall|j: int| 0 <= j < x.vars.len() implies (#[trigger] z.vars[j]).0
            == x.vars[j].0 && var_kept(
            x.vars[j].1,
            z.vars[j].1,
            table::bound(x.defs, x.vars[j].0),
            t,
        ) by {
            assert(y.vars[j].0 == x.vars[j].0);
        }
    }
}

/// What is kept for all transactions is kept for all but one.
pub proof fn lemma_kept_weaken(a: ManagerM, b: ManagerM, t: Option<TxnId>)
    requires
        kept(a, b, None),
    ensures
        kept(a, b, t),
{
    reveal(kept);
    assert forall|i: int| 0 <= i < a.services.len() implies (#[trigger] b.services[i]).0
        == a.services[i].0 && service_kept(a.services[i].1, b.services[i].1, t) by {
        let x = a.services[i].1;
        let y = b.services[i].1;
        assert(service_kept(x, y, None));
        assert forall|j: int| 0 <= j < x.vars.len() implies (#[trigger] y.vars[j]).0
            == x.vars[j].0 && var_kept(
            x.vars[j].1,
            y.vars[j].1,
            table::bound(x.defs, x.vars[j].0),
            t,
        ) by {}
    }
}

/// A change that does not touch what is to be kept.
pub proof fn lemma_kept_fields(a: ManagerM, b: ManagerM, t: Option<TxnId>)
    requires
        b.services == a.services,
        b.remote_services == a.remote_services,
        b.pending_txns == a.pending_txns,
        b.wait_queue == a.wait_queue,
        b.node_id == a.node_id,
        b.clock == a.clock,
        b.local_address == a.local_address,
        b.depth_limit == a.depth_limit,
    ensures
        kept(a, b, t),
{
    reveal(kept);
}

/// One service is replaced by one that kept what it has to keep.
pub proof fn lemma_kept_service(m: ManagerM, svc: Symbol, s: ServiceM, t: Option<TxnId>)
    requires
        table::get(m.services, svc) matches Some(x) && service_kept(x, s, t),
    ensures
        kept(m, model::with_service(m, svc, s), t),
{
    reveal(kept);
    table::lemma_slot(m.services, svc);
}

/// The state of one variable is replaced by one that kept what it has to keep.
pub proof fn lemma_kept_var(m: ManagerM, svc: Symbol, var: Symbol, v: VarStateM, t: Option<TxnId>)
    requires
        table::get(m.services, svc) matches Some(s) && table::get(s.vars, var) matches Some(x)
            && var_kept(x, v, table::bound(s.defs, var), t),
    ensures
        kept(m, model::with_var(m, svc, var, v), t),
{
    let s = table::get(m.services, svc)->Some_0;
    table::lemma_slot(s.vars, var);
    let s1 = ServiceM { vars: table::put(s.vars, var, v), ..s };
    assert(service_kept(s, s1, t));
    lemma_kept_service(m, svc, s1, t);
}

/// A run that takes no locks keeps the list of locks complete.
pub proof fn lemma_covered_kept(a: ManagerM, b: ManagerM, t: TxnM)
    requires
        kept(a, b, None),
        covered(a, t),
    ensures
        covered(b, t),
{
    reveal(kept);
    reveal(covered);
    assert forall|i: int, j: int|
        #![trigger b.services[i].1.vars[j]]
        0 <= i < b.services.len() && 0 <= j < b.services[i].1.vars.len()
            && b.services[i].1.vars[j].1.lock.holders().contains(t.id) implies t.locked.contains(
        (b.services[i].1.id, b.services[i].1.vars[j].0),
    ) by {
        assert(service_kept(a.services[i].1, b.services[i].1, None));
        assert(var_kept(
            a.services[i].1.vars[j].1,
            b.services[i].1.vars[j].1,
            table::bound(a.services[i].1.defs, a.services[i].1.vars[j].0),
            None,
        ));
        assert(a.services[i].1.vars[j].1.lock.holders().contains(t.id));
    }
}

/// A longer list is complete where a shorter one is.
pub proof fn lemma_covered_more(m: ManagerM, a: TxnM, b: TxnM)
    requires
        covered(m, a),
        b.id == a.id,
        forall|k: KeyM| #[trigger] a.locked.contains(k) ==> b.locked.contains(k),
    ensures
        covered(m, b),
{
    reveal(covered);
}

/// A run that does not touch the transaction.
pub proof fn lemma_moved_kept(a: World, b: World)
    requires
        kept(a.m, b.m, None),
        b.t == a.t,
    ensures
        moved(a, b),
{
    lemma_kept_weaken(a.m, b.m, model::txn_id(a.t));
    if a.t is Some && covered(a.m, a.t->Some_0) {
        lemma_covered_kept(a.m, b.m, a.t->Some_0);
    }
}

/// A run that joins a participant.
pub proof fn lemma_moved_joined(a: World, m: ManagerM, addr: Seq<char>)
    requires
        kept(a.m, m, None),
    ensures
        moved(a, World { m, t: model::with_participant(a.t, addr) }),
{
    lemma_moved_kept(a, World { m, t: a.t });
    if a.t is Some && covered(a.m, a.t->Some_0) {
        let t1 = model::with_participant(a.t, addr)->Some_0;
        lemma_covered_more(m, a.t->Some_0, t1);
    }
}

/// Two runs in a row.
pub proof fn lemma_moved_trans(a: World, b: World, c: World)
    requires
        moved(a, b),
        moved(b, c),
    ensures
        moved(a, c),
{
    lemma_kept_trans(a.m, b.m, c.m, model::txn_id(a.t));
}

/// Doing nothing.
pub proof fn lemma_moved_refl(a: World)
    ensures
        moved(a, a),
{
    lemma_kept_refl(a.m, model::txn_id(a.t));
}

/// What a granted lock changes: nothing for other transactions.
proof fn lemma_granted(l: LockM, wish: Wish, t: TxnId, q: TxnId)
    requires
        model::grants(l, wish, t),
        q != t,
    ensures
        model::granted(l, wish, t).holders().contains(q) <==> l.holders().contains(q),
{
    let h = l.holders();
    let g = model::granted(l, wish, t).holders();
    match wish {
        Wish::Read => {
            match l {
                LockM::Unlocked => {
                    assert(g =~= seq![t]);
                },
                LockM::ReadLocked(s) => {
                    if !s.contains(t) {
                        if s.contains(q) {
                            let k = choose|k: int| 0 <= k < s.len() && s[k] == q;
                            assert(s.push(t)[k] == q);
                        }
                        if s.push(t).contains(q) {
                            let k = choose|k: int| 0 <= k < s.push(t).len() && s.push(t)[k] == q;
                            assert(s[k] == q);
                        }
                    }
                },
                LockM::WriteLocked(_) => {},
            }
        },
        Wish::Write => {
            assert(g =~= seq![t]);
            if let LockM::WriteLocked(x) = l {
                assert(h =~= seq![t]);
            }
        },
        Wish::Upgrade => {
            assert(g =~= seq![t]);
            if h.contains(q) {
                let k = choose|k: int| 0 <= k < h.len() && h[k] == q;
                assert(h[k] == t);
            }
        },
    }
}

/// A transaction that gets a lock keeps all else, and its list complete once
/// the member is on it.
proof fn lemma_acquire(m: ManagerM, svc: Symbol, var: Symbol, t: TxnM, wish: Wish, t1: TxnM)
    requires
        t1.id == t.id,
        t1.locked == table::added(t.locked, (model::net_id(m, svc), var)),
    ensures
        ({
            let (r, m1) = model::acquire(m, svc, var, t.id, wish);
            &&& kept(m, m1, Some(t.id))
            &&& r is Err ==> m1 == m
            &&& r is Ok && covered(m, t) ==> covered(m1, t1)
        }),
{
    let (r, m1) = model::acquire(m, svc, var, t.id, wish);
    lemma_kept_refl(m, Some(t.id));
    if r is Ok {
        let s = table::get(m.services, svc)->Some_0;
        let v = table::get(s.vars, var)->Some_0;
        let v1 = VarStateM { lock: model::granted(v.lock, wish, t.id), ..v };
        assert forall|q: TxnId| Some(q) != Some(t.id) implies (#[trigger] v1.lock.holders().contains(q)
            <==> v.lock.holders().contains(q)) by {
            lemma_granted(v.lock, wish, t.id, q);
        }
        lemma_kept_var(m, svc, var, v1, Some(t.id));
        if covered(m, t) {
            reveal(covered);
            table::lemma_slot(m.services, svc);
            table::lemma_slot(s.vars, var);
            let a = table::slot(m.services, svc) as int;
            let b = table::slot(s.vars, var) as int;
            let key = (model::net_id(m, svc), var);
            assert(t1.locked.contains(key)) by {
                if !t.locked.contains(key) {
                    assert(t.locked.push(key)[t.locked.len() as int] == key);
                }
            }
            assert forall|k: KeyM| #[trigger] t.locked.contains(k) implies t1.locked.contains(k) by {
                let x = choose|x: int| 0 <= x < t.locked.len() && t.locked[x] == k;
                assert(t1.locked[x] == k);
            }
            assert forall|i: int, j: int|
                #![trigger m1.services[i].1.vars[j]]
                0 <= i < m1.services.len() && 0 <= j < m1.services[i].1.vars.len()
                    && m1.services[i].1.vars[j].1.lock.holders().contains(
                    t1.id,
                ) implies t1.locked.contains(
                (m1.services[i].1.id, m1.services[i].1.vars[j].0),
            ) by {
                if i == a && j == b {
                    assert(m1.services[i].1.id == s.id);
                } else {
                    assert(m1.services[i].1.vars[j] == m.services[i].1.vars[j]);
                    assert(m1.services[i].1.id == m.services[i].1.id);
                    assert(t.locked.contains((m.services[i].1.id, m.services[i].1.vars[j].0)));
                }
            }
        }
    }
}

/// Reading a variable keeps what is to be kept.
pub proof fn keep_local_read(var: Symbol, svc: Symbol, w: World)
    ensures
        moved(w, model::local_read(var, svc, w).1),
{
    lemma_moved_refl(w);
    if let Some(t) = w.t {
        let key = (model::net_id(w.m, svc), var);
        if table::get(t.read_cache, key) is None {
            let t1 = TxnM { locked: table::added(t.locked, key), ..t };
            if t.locked.contains(key) {
                assert(t1.locked == t.locked);
                if covered(w.m, t) {
                    let out = model::local_read(var, svc, w).1;
                    lemma_covered_more(w.m, t, out.t->Some_0);
                }
            } else {
                lemma_acquire(w.m, svc, var, t, Wish::Read, t1);
                let (r, m1) = model::acquire(w.m, svc, var, t.id, Wish::Read);
                let out = model::local_read(var, svc, w).1;
                if r is Ok && covered(w.m, t) {
                    lemma_covered_more(m1, t1, out.t->Some_0);
                }
            }
        }
    }
}

/// Writing a variable under a transaction keeps what is to be kept: the value
/// stays with the transaction.
pub proof fn keep_buffer_write(
    svc: Symbol,
    var: Symbol,
    value: ValueM<Symbol>,
    m: ManagerM,
    t: TxnM,
)
    ensures
        moved(World { m, t: Some(t) }, model::buffer_write(svc, var, value, m, t).1),
{
    let key = (model::net_id(m, svc), var);
    let wish = if t.locked.contains(key) {
        Wish::Upgrade
    } else {
        Wish::Write
    };
    let t1 = TxnM { locked: table::added(t.locked, key), ..t };
    lemma_acquire(m, svc, var, t, wish, t1);
    let (r, m1) = model::acquire(m, svc, var, t.id, wish);
    let out = model::buffer_write(svc, var, value, m, t).1;
    table::lemma_put(t.written, key, value, key);
    if r is Ok && covered(m, t) {
        lemma_covered_more(m1, t1, out.t->Some_0);
    }
}

proof fn lemma_kept_emit(m: ManagerM, l: Seq<char>, def: Symbol, svc: Symbol, member: Symbol)
    ensures
        kept(m, model::emit_update(m, l, def, svc, member), None),
{
    lemma_kept_fields(m, model::emit_update(m, l, def, svc, member), None);
}

proof fn lemma_kept_request(
    m: ManagerM,
    svc: Symbol,
    member: Symbol,
    l: Seq<char>,
    def: Symbol,
    reply_to: Seq<char>,
)
    ensures
        kept(m, model::request_updates(m, svc, member, l, def, reply_to), None),
{
    lemma_kept_refl(m, None);
    if let Some(s) = table::get(m.services, svc) {
        if let Some(v) = table::get(s.vars, member) {
            let s1 = model::with_listener(s, member, (l, def));
            lemma_kept_service(m, svc, s1, None);
            let m1 = model::with_service(m, svc, s1);
            let m2 = model::request_updates(m, svc, member, l, def, reply_to);
            lemma_kept_fields(m1, m2, None);
            lemma_kept_trans(m, m1, m2, None);
        }
    }
}

/// Evaluating an expression keeps what is to be kept.
pub proof fn keep_eval(n: nat, e: ExprM<Symbol>, env: EnvM, svc: Symbol, w: World)
    ensures
        moved(w, semantics::eval(n, e, env, svc, w).1),
    decreases n, 0nat, 0nat,
{
    reveal(semantics::eval);
    reveal(semantics::eval_step);
    lemma_moved_refl(w);
    if n > 0 {
        keep_eval_step((n - 1) as nat, e, env, svc, w);
    }
}

proof fn keep_eval_step(n: nat, e: ExprM<Symbol>, env: EnvM, svc: Symbol, w: World)
    ensures
        moved(w, semantics::eval_step(n, e, env, svc, w).1),
    decreases n, 2nat, 0nat,
{
    reveal(semantics::eval_step);
    reveal(semantics::eval);
    reveal(semantics::eval_args);
    reveal(semantics::lookup);
    lemma_moved_refl(w);
    match e {
        ExprM::Variable { name } => {
            keep_lookup(n, name, svc, w);
        },
        ExprM::MemberAccess { service_name, member_name } => {
            keep_lookup(n, member_name, service_name, w);
        },
        ExprM::Call { func, args } => {
            keep_eval(n, *func, env, svc, w);
            let (f, w1) = semantics::eval(n, *func, env, svc, w);
            if let Ok(f) = f {
                keep_args(n, args, 0, seq![], env, svc, w1);
                let (vs, w2) = semantics::eval_args(n, args, 0, seq![], env, svc, w1);
                lemma_moved_trans(w, w1, w2);
                if let Ok(vs) = vs {
                    if let ValueM::Closure { params, body, env: own, service_name, return_ty } = f {
                        let inner = model::bind_args(own, params, vs);
                        keep_eval(n, *body, inner, service_name, w2);
                        lemma_moved_trans(
                            w,
                            w2,
                            semantics::eval(n, *body, inner, service_name, w2).1,
                        );
                    }
                }
            }
        },
        ExprM::Binop { op, expr1, expr2 } => {
            keep_eval(n, *expr1, env, svc, w);
            let (a, w1) = semantics::eval(n, *expr1, env, svc, w);
            if a is Ok {
                keep_eval(n, *expr2, env, svc, w1);
                lemma_moved_trans(w, w1, semantics::eval(n, *expr2, env, svc, w1).1);
            }
        },
        ExprM::Unop { op, expr } => {
            keep_eval(n, *expr, env, svc, w);
        },
        ExprM::If { cond, expr1, expr2 } => {
            keep_eval(n, *cond, env, svc, w);
            let (c, w1) = semantics::eval(n, *cond, env, svc, w);
            keep_eval(n, *expr1, env, svc, w1);
            keep_eval(n, *expr2, env, svc, w1);
            lemma_moved_trans(w, w1, semantics::eval(n, *expr1, env, svc, w1).1);
            lemma_moved_trans(w, w1, semantics::eval(n, *expr2, env, svc, w1).1);
        },
        _ => {},
    }
}

proof fn keep_args(
    n: nat,
    args: Seq<ExprM<Symbol>>,
    i: nat,
    acc: Seq<ValueM<Symbol>>,
    env: EnvM,
    svc: Symbol,
    w: World,
)
    ensures
        moved(w, semantics::eval_args(n, args, i, acc, env, svc, w).1),
    decreases n, 1nat, args.len() - i,
{
    reveal(semantics::eval_args);
    reveal(semantics::eval);
    lemma_moved_refl(w);
    if i < args.len() {
        keep_eval(n, args[i as int], env, svc, w);
        let (v, w1) = semantics::eval(n, args[i as int], env, svc, w);
        if let Ok(v) = v {
            keep_args(n, args, i + 1, acc.push(v), env, svc, w1);
            lemma_moved_trans(
                w,
                w1,
                semantics::eval_args(n, args, i + 1, acc.push(v), env, svc, w1).1,
            );
        }
    }
}

/// Reading a member keeps what is to be kept.
pub proof fn keep_lookup(n: nat, var: Symbol, svc: Symbol, w: World)
    ensures
        moved(w, semantics::lookup(n, var, svc, w).1),
    decreases n, 0nat, 0nat,
{
    reveal(semantics::lookup);
    reveal(semantics::eval);
    reveal(semantics::remote_lookup);
    lemma_moved_refl(w);
    if n > 0 {
        let k = (n - 1) as nat;
        keep_remote_lookup(k, svc, var, w);
        if let Some(e) = model::def_of(w.m, svc, var) {
            keep_eval(k, e, seq![], svc, w);
        }
        keep_local_read(var, svc, w);
    }
}

proof fn keep_remote_lookup(n: nat, svc: Symbol, member: Symbol, w: World)
    ensures
        moved(w, semantics::remote_lookup(n, svc, member, w).1),
    decreases n, 6nat, 0nat,
{
    reveal(semantics::remote_lookup);
    reveal(semantics::send_and_await);
    lemma_moved_refl(w);
    if let Ok(addr) = model::remote_addr(w.m, svc) {
        let rid = w.m.next_lookup_id;
        let m1 = ManagerM { next_lookup_id: rid.wrapping_add(1), ..w.m };
        let msg = MessageM::LookupRequest {
            request_id: rid,
            service: model::name(m1, svc),
            member: model::name(m1, member),
            reply_to: model::reply_addr(m1),
            txn_id: model::txn_id(w.t),
        };
        let late = "Timeout waiting for remote lookup of '"@ + model::name(m1, svc) + "."@
            + model::name(m1, member) + "'"@;
        lemma_kept_fields(w.m, m1, None);
        keep_send_and_await(n, addr, msg, rid, late, m1);
        let (reply, m2) = semantics::send_and_await(n, addr, msg, rid, late, m1);
        lemma_kept_trans(w.m, m1, m2, None);
        let (r, m3) = semantics::lookup_reply(reply, m2);
        lemma_kept_fields(m2, m3, None);
        lemma_kept_trans(w.m, m2, m3, None);
        lemma_moved_joined(w, m3, addr);
    }
}

/// Sending a message and waiting for the reply keeps what is to be kept.
pub proof fn keep_send_and_await(
    n: nat,
    addr: Seq<char>,
    msg: MessageM,
    rid: u64,
    timeout: Seq<char>,
    m: ManagerM,
)
    ensures
        kept(m, semantics::send_and_await(n, addr, msg, rid, timeout, m).1, None),
    decreases n, 5nat, 0nat,
{
    reveal(semantics::send_and_await);
    reveal(semantics::await_reply);
    lemma_kept_refl(m, None);
    if m.network is Some {
        let m1 = model::send(m, addr, msg);
        let m2 = model::register(m1, rid);
        lemma_kept_fields(m, m2, None);
        keep_await(n, rid, m1.next_channel, timeout, m2);
        lemma_kept_trans(
            m,
            m2,
            semantics::await_reply(n, rid, m1.next_channel, timeout, m2).1,
            None,
        );
    }
}

proof fn keep_await(n: nat, rid: u64, chan: u64, timeout: Seq<char>, m: ManagerM)
    ensures
        kept(m, semantics::await_reply(n, rid, chan, timeout, m).1, None),
    decreases n, 4nat, model::inbox_len(m),
{
    reveal(semantics::await_reply);
    reveal(semantics::dispatch);
    lemma_kept_refl(m, None);
    keep_dispatch(n, m);
    let (d, m1) = semantics::dispatch(n, m);
    if d is Ok {
        let gone = ManagerM { channels: table::without(m1.channels, chan), ..m1 };
        lemma_kept_fields(m1, gone, None);
        lemma_kept_trans(m, m1, gone, None);
        let again = model::register(gone, rid);
        lemma_kept_fields(gone, again, None);
        lemma_kept_trans(m, gone, again, None);
        if model::inbox_len(again) < model::inbox_len(m) {
            keep_await(n, rid, gone.next_channel, timeout, again);
            lemma_kept_trans(
                m,
                again,
                semantics::await_reply(n, rid, gone.next_channel, timeout, again).1,
                None,
            );
        }
        let popped = model::pop_incoming(m1);
        lemma_kept_fields(m1, popped, None);
        lemma_kept_trans(m, m1, popped, None);
        if model::inbox_len(popped) < model::inbox_len(m) {
            keep_await(n, rid, chan, timeout, popped);
            lemma_kept_trans(
                m,
                popped,
                semantics::await_reply(n, rid, chan, timeout, popped).1,
                None,
            );
        }
        let p2 = model::pop_incoming(gone);
        let late = ManagerM { pending_replies: table::without(p2.pending_replies, rid), ..p2 };
        lemma_kept_fields(gone, late, None);
        lemma_kept_trans(m, gone, late, None);
    }
}

/// Handling events keeps what is to be kept.
pub proof fn keep_dispatch(n: nat, m: ManagerM)
    ensures
        kept(m, semantics::dispatch(n, m).1, None),
    decreases n, 3nat, model::inbox_len(m),
{
    reveal(semantics::dispatch);
    reveal(semantics::handle_event);
    lemma_kept_refl(m, None);
    if let Some(IncomingM::Event(ev)) = model::next_incoming(m) {
        let m0 = model::pop_incoming(m);
        lemma_kept_fields(m, m0, None);
        keep_event(n, ev, m0);
        let (r, m1) = semantics::handle_event(n, ev, m0);
        lemma_kept_trans(m, m0, m1, None);
        if r is Ok && model::inbox_len(m1) < model::inbox_len(m) {
            keep_dispatch(n, m1);
            lemma_kept_trans(m, m1, semantics::dispatch(n, m1).1, None);
        }
    }
}

proof fn keep_event(n: nat, ev: EventM, m: ManagerM)
    ensures
        kept(m, semantics::handle_event(n, ev, m).1, None),
    decreases n, 2nat, 0nat,
{
    reveal(semantics::handle_event);
    reveal(semantics::handle_update);
    lemma_kept_refl(m, None);
    if let EventM::MessageReceived { peer, msg } = ev {
        match msg {
            MessageM::RequestUpdates {
                request_id,
                service,
                member,
                listener_service,
                listener_def,
                reply_to,
            } => {
                let log = wire::three_log(service, member, listener_def);
                let names = interner::interned_all(m.interner, log.names);
                let m1 = ManagerM { interner: names, ..m };
                lemma_kept_fields(m, m1, None);
                let a = interner::symbol_of(names, service);
                let b = interner::symbol_of(names, member);
                let c = interner::symbol_of(names, listener_def);
                lemma_kept_request(m1, a, b, listener_service, c, reply_to);
                lemma_kept_trans(
                    m,
                    m1,
                    model::request_updates(m1, a, b, listener_service, c, reply_to),
                    None,
                );
            },
            MessageM::Update { listener_service, listener_def, source_service, member, value } => {
                let log = wire::three_log(listener_def, source_service, member);
                let names = interner::interned_all(m.interner, log.names);
                let m1 = ManagerM { interner: names, ..m };
                lemma_kept_fields(m, m1, None);
                let a = interner::symbol_of(names, listener_def);
                let b = interner::symbol_of(names, source_service);
                let c = interner::symbol_of(names, member);
                keep_update(n, listener_service, a, b, c, value, m1);
                lemma_kept_trans(
                    m,
                    m1,
                    semantics::handle_update(n, listener_service, a, b, c, value, m1).1,
                    None,
                );
            },
            _ => {
                lemma_kept_fields(m, model::deliver(m, msg), None);
            },
        }
    }
}

/// Taking up a remote value keeps what is to be kept.
pub proof fn keep_update(
    n: nat,
    listener: Seq<char>,
    def: Symbol,
    source: Symbol,
    member: Symbol,
    value: ValueM<Seq<char>>,
    m: ManagerM,
)
    ensures
        kept(m, semantics::handle_update(n, listener, def, source, member, value, m).1, None),
    decreases n, 1nat, 0nat,
{
    reveal(semantics::handle_update);
    reveal(semantics::recompute_def);
    reveal(semantics::propagate);
    let log = wire::value_log(value);
    let names = interner::interned_all(m.interner, log.names);
    let m1 = ManagerM { interner: names, ..m };
    lemma_kept_fields(m, m1, None);
    if log.err is None {
        if let Some(svc) = model::name_for_id(m1, listener) {
            let m2 = match table::get(m1.services, svc) {
                None => m1,
                Some(s) => model::with_service(
                    m1,
                    svc,
                    ServiceM {
                        dep_cache: table::put(
                            s.dep_cache,
                            def,
                            table::put(
                                model::cache_of(s, def),
                                (source, member),
                                renaming::map_value(wire::symbolizing(names), value),
                            ),
                        ),
                        ..s
                    },
                ),
            };
            lemma_kept_refl(m1, None);
            if let Some(s) = table::get(m1.services, svc) {
                let s1 = ServiceM {
                    dep_cache: table::put(
                        s.dep_cache,
                        def,
                        table::put(
                            model::cache_of(s, def),
                            (source, member),
                            renaming::map_value(wire::symbolizing(names), value),
                        ),
                    ),
                    ..s
                };
                lemma_kept_service(m1, svc, s1, None);
            }
            lemma_kept_trans(m, m1, m2, None);
            keep_recompute(n, svc, def, m2);
            let (r, m3) = semantics::recompute_def(n, svc, def, m2);
            lemma_kept_trans(m, m2, m3, None);
            if let Ok(true) = r {
                keep_propagate(n, seq![(svc, def)], m3);
                lemma_kept_trans(
                    m,
                    m3,
                    semantics::propagate(n, seq![(svc, def)], m3).1,
                    None,
                );
            }
        }
    }
}

/// Computing a definition anew changes no variable and no lock.
pub proof fn keep_recompute(n: nat, svc: Symbol, def: Symbol, m: ManagerM)
    ensures
        kept(m, semantics::recompute_def(n, svc, def, m).1, None),
    decreases n, 0nat, 0nat,
{
    reveal(semantics::recompute_def);
    reveal(semantics::eval);
    lemma_kept_refl(m, None);
    if n > 0 {
        if let Some(e) = model::def_of(m, svc, def) {
            let s = table::get(m.services, svc)->Some_0;
            let m1 = ManagerM { reactive_cache: Some(model::cache_of(s, def)), ..m };
            let w0 = World { m: m1, t: None };
            lemma_kept_fields(m, m1, None);
            keep_eval((n - 1) as nat, e, model::var_env(s), svc, w0);
            let (r, w) = semantics::eval((n - 1) as nat, e, model::var_env(s), svc, w0);
            let m2 = ManagerM { reactive_cache: None, ..w.m };
            lemma_kept_trans(m, m1, w.m, None);
            lemma_kept_fields(w.m, m2, None);
            lemma_kept_trans(m, w.m, m2, None);
            if let Ok(v) = r {
                if let Some(x) = model::var_of(m2, svc, def) {
                    let v1 = VarStateM { value: v, ..x };
                    let s2 = table::get(m2.services, svc)->Some_0;
                    lemma_kept_slot(m, m2, svc);
                    lemma_kept_var(m2, svc, def, v1, None);
                    lemma_kept_trans(m, m2, model::with_var(m2, svc, def, v1), None);
                }
            }
        }
    }
}

/// A service is found in the same place, with the same definitions.
pub proof fn lemma_kept_slot(a: ManagerM, b: ManagerM, svc: Symbol)
    requires
        kept(a, b, None),
    ensures
        table::bound(b.services, svc) == table::bound(a.services, svc),
        table::bound(a.services, svc) ==> service_kept(
            table::get(a.services, svc)->Some_0,
            table::get(b.services, svc)->Some_0,
            None,
        ),
{
    reveal(kept);
    table::lemma_slot(a.services, svc);
    assert forall|j: int| 0 <= j < table::slot(a.services, svc) implies (#[trigger] b.services[j]).0
        != svc by {
        assert(a.services[j].0 != svc);
    }
    if table::bound(a.services, svc) {
        let i = table::slot(a.services, svc) as int;
        assert(b.services[i].0 == a.services[i].0);
    }
    table::lemma_slot_is(b.services, svc, table::slot(a.services, svc) as int);
}

/// Passing changes on changes no variable and no lock.
pub proof fn keep_propagate(n: nat, work: Seq<(Symbol, Symbol)>, m: ManagerM)
    ensures
        kept(m, semantics::propagate(n, work, m).1, None),
    decreases n, 0nat, semantics::CHANGE_LIMIT + 1,
{
    reveal(semantics::propagate);
    reveal(semantics::pass_on);
    keep_pass_on(n, semantics::CHANGE_LIMIT as nat, work, m);
}

proof fn keep_pass_on(n: nat, left: nat, work: Seq<(Symbol, Symbol)>, m: ManagerM)
    ensures
        kept(m, semantics::pass_on(n, left, work, m).1, None),
    decreases n, 0nat, left,
{
    reveal(semantics::pass_on);
    reveal(semantics::notify);
    lemma_kept_refl(m, None);
    if work.len() > 0 && n > 0 && left > 0 {
        let k = (n - 1) as nat;
        let (svc, member) = work.last();
        let ls = model::listeners_of(m, svc, member);
        keep_notify(k, ls, 0, svc, member, work.drop_last(), m);
        let (r, m1) = semantics::notify(k, ls, 0, svc, member, work.drop_last(), m);
        if let Ok(more) = r {
            let fewer = (left - 1) as nat;
            keep_pass_on(n, fewer, more, m1);
            lemma_kept_trans(m, m1, semantics::pass_on(n, fewer, more, m1).1, None);
        }
    }
}

proof fn keep_notify(
    n: nat,
    ls: Seq<KeyM>,
    i: nat,
    svc: Symbol,
    member: Symbol,
    work: Seq<(Symbol, Symbol)>,
    m: ManagerM,
)
    ensures
        kept(m, semantics::notify(n, ls, i, svc, member, work, m).1, None),
    decreases n, 1nat, ls.len() - i,
{
    reveal(semantics::notify);
    reveal(semantics::recompute_def);
    lemma_kept_refl(m, None);
    if i < ls.len() {
        let (id, def) = ls[i as int];
        match model::name_for_id(m, id) {
            Some(lsvc) => {
                keep_recompute(n, lsvc, def, m);
                let (r, m1) = semantics::recompute_def(n, lsvc, def, m);
                if let Ok(changed) = r {
                    let more = if changed {
                        work.push((lsvc, def))
                    } else {
                        work
                    };
                    keep_notify(n, ls, i + 1, svc, member, more, m1);
                    lemma_kept_trans(
                        m,
                        m1,
                        semantics::notify(n, ls, i + 1, svc, member, more, m1).1,
                        None,
                    );
                }
            },
            None => {
                let m1 = model::emit_update(m, id, def, svc, member);
                lemma_kept_emit(m, id, def, svc, member);
                keep_notify(n, ls, i + 1, svc, member, work, m1);
                lemma_kept_trans(
                    m,
                    m1,
                    semantics::notify(n, ls, i + 1, svc, member, work, m1).1,
                    None,
                );
            },
        }
    }
}

/// Executing a statement under a transaction keeps what is to be kept.
pub proof fn keep_execute(n: nat, s: ActionStmtM<Symbol>, env: EnvM, svc: Symbol, w: World)
    requires
        w.t is Some,
    ensures
        moved(w, semantics::execute(n, s, env, svc, w).1),
    decreases n, 0nat, 0nat,
{
    reveal(semantics::execute);
    reveal(semantics::execute_step);
    lemma_moved_refl(w);
    if n > 0 {
        keep_execute_step((n - 1) as nat, s, env, svc, w);
    }
}

proof fn keep_execute_step(n: nat, s: ActionStmtM<Symbol>, env: EnvM, svc: Symbol, w: World)
    requires
        w.t is Some,
    ensures
        moved(w, semantics::execute_step(n, s, env, svc, w).1),
    decreases n, 7nat, 0nat,
{
    reveal(semantics::execute_step);
    reveal(semantics::eval);
    reveal(semantics::assign);
    reveal(semantics::exec_block);
    reveal(semantics::remote_action);
    lemma_moved_refl(w);
    if !(s is Insert) {
        let e = read_write::stmt_expr(s);
        keep_eval(n, e, env, svc, w);
        let (r, w1) = semantics::eval(n, e, env, svc, w);
        if let Ok(v) = r {
            match s {
                ActionStmtM::Assign { name, expr } => {
                    keep_buffer_write(svc, name, v, w1.m, w1.t->Some_0);
                    lemma_moved_trans(w, w1, semantics::assign(n, svc, name, v, w1).1);
                },
                ActionStmtM::Do(expr) => {
                    if let ValueM::ActionClosure { stmts, env: own, service_net_id } = v {
                        match model::name_for_id(w1.m, service_net_id) {
                            Some(target) => {
                                keep_block(n, stmts, 0, own, target, w1);
                                lemma_moved_trans(
                                    w,
                                    w1,
                                    semantics::exec_block(n, stmts, 0, own, target, w1).1,
                                );
                            },
                            None => {
                                keep_remote_action(n, service_net_id, stmts, own, w1);
                                lemma_moved_trans(
                                    w,
                                    w1,
                                    semantics::remote_action(
                                        n,
                                        service_net_id,
                                        stmts,
                                        own,
                                        w1,
                                    ).1,
                                );
                            },
                        }
                    }
                },
                _ => {},
            }
        }
    }
}

/// Executing statements under a transaction keeps what is to be kept.
pub proof fn keep_block(
    n: nat,
    stmts: Seq<ActionStmtM<Symbol>>,
    i: nat,
    env: EnvM,
    svc: Symbol,
    w: World,
)
    requires
        w.t is Some,
    ensures
        moved(w, semantics::exec_block(n, stmts, i, env, svc, w).1),
    decreases n, 1nat, stmts.len() - i,
{
    reveal(semantics::exec_block);
    reveal(semantics::execute);
    lemma_moved_refl(w);
    if i < stmts.len() {
        keep_execute(n, stmts[i as int], env, svc, w);
        let (r, w1) = semantics::execute(n, stmts[i as int], env, svc, w);
        match r {
            Err(_) => {},
            Ok(semantics::EffectM::Binding(name, v)) => {
                keep_block(n, stmts, i + 1, env.push((name, v)), svc, w1);
                lemma_moved_trans(
                    w,
                    w1,
                    semantics::exec_block(n, stmts, i + 1, env.push((name, v)), svc, w1).1,
                );
            },
            Ok(_) => {
                keep_block(n, stmts, i + 1, env, svc, w1);
                lemma_moved_trans(
                    w,
                    w1,
                    semantics::exec_block(n, stmts, i + 1, env, svc, w1).1,
                );
            },
        }
    }
}

proof fn keep_remote_action(
    n: nat,
    id: Seq<char>,
    stmts: Seq<ActionStmtM<Symbol>>,
    env: EnvM,
    w: World,
)
    ensures
        moved(w, semantics::remote_action(n, id, stmts, env, w).1),
    decreases n, 6nat, 0nat,
{
    reveal(semantics::remote_action);
    reveal(semantics::send_and_await);
    let (addr, slug) = model::split_net_id(id);
    let rid = w.m.next_action_id;
    let m1 = ManagerM { next_action_id: rid.wrapping_add(1), ..w.m };
    let net_stmts = renaming::map_stmts(wire::naming(m1.interner), stmts);
    let net_env = semantics::action_env(m1, env);
    lemma_kept_fields(w.m, m1, None);
    lemma_moved_joined(w, m1, addr);
    if semantics::action_log(net_stmts, net_env).err is None {
        let msg = MessageM::ActionRequest {
            request_id: rid,
            service: slug,
            stmts: net_stmts,
            env: net_env,
            reply_to: model::reply_addr(m1),
            txn_id: model::txn_id(w.t),
        };
        let late = "Timeout waiting for remote action on service '"@ + slug + "'"@;
        keep_send_and_await(n, addr, msg, rid, late, m1);
        let (reply, m2) = semantics::send_and_await(n, addr, msg, rid, late, m1);
        lemma_kept_trans(w.m, m1, m2, None);
        lemma_moved_joined(w, m2, addr);
    }
}

} // verus!
