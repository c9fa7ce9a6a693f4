//! A transaction leaves the values of a node alone until it commits.
//!
//! Definitions can still change meanwhile, by an event that is handled while the
//! transaction waits. What is shown here is that nothing else changes them.

use crate::net::messages::MessageM;
use crate::net::wire;
use crate::runtime::ast::model::{ActionStmtM, ExprM, ValueM};
use crate::runtime::ast::renaming;
use crate::runtime::interner::Symbol;
use crate::runtime::interpreter::evaluator::ErrM;
use crate::runtime::manager::isolation;
use crate::runtime::manager::laws;
use crate::runtime::manager::model;
use crate::runtime::manager::model::{EnvM, IncomingM, KeyM, ManagerM, ServiceM, Wish, World};
use crate::runtime::manager::replay;
use crate::runtime::manager::semantics;
use crate::runtime::manager::state;
use crate::runtime::manager::transactions;
use crate::runtime::manager::transactions::MAX_WAIT_DIE_RETRIES;
use crate::runtime::semantic_analysis::var_analysis::read_write;
use crate::runtime::table;
use crate::runtime::txn;
use crate::runtime::txn::{TxnId, TxnM, VarStateM};
use vstd::prelude::*;

verus! {

/// Whether no event was taken from the inbox on the way from one node to
/// another.
pub open spec fn unheard(a: ManagerM, b: ManagerM) -> bool {
    forall|i: int|
        0 <= i < model::inbox_len(a) - model::inbox_len(b) ==> !(#[trigger] model::inbox_of(
            a,
        )[i] is Event)
}

/// Whether all variables and definitions of two nodes have the same values.
pub open spec fn same_values(a: ManagerM, b: ManagerM) -> bool {
    &&& b.services.len() == a.services.len()
    &&& forall|i: int|
        0 <= i < a.services.len() ==> (#[trigger] b.services[i]).0 == a.services[i].0
            && b.services[i].1.vars.len() == a.services[i].1.vars.len()
    &&& forall|i: int, j: int|
        #![trigger b.services[i].1.vars[j]]
        0 <= i < a.services.len() && 0 <= j < a.services[i].1.vars.len()
            ==> b.services[i].1.vars[j].0 == a.services[i].1.vars[j].0
            && b.services[i].1.vars[j].1.value == a.services[i].1.vars[j].1.value
}

/// Whether a step goes on from a node and, where it handles no event, changes no
/// value.
pub open spec fn still(a: ManagerM, b: ManagerM) -> bool {
    replay::onward(a, b) && (unheard(a, b) ==> same_values(a, b))
}

proof fn lemma_still_refl(m: ManagerM)
    ensures
        still(m, m),
{
    replay::lemma_onward_refl(m);
}

proof fn lemma_same_trans(a: ManagerM, b: ManagerM, c: ManagerM)
    requires
        same_values(a, b),
        same_values(b, c),
    ensures
        same_values(a, c),
{
    assert forall|i: int| 0 <= i < a.services.len() implies (#[trigger] c.services[i]).0
        == a.services[i].0 && c.services[i].1.vars.len() == a.services[i].1.vars.len() by {
        assert(b.services[i].0 == a.services[i].0);
    }
    assert forall|i: int, j: int| #![trigger c.services[i].1.vars[j]]
            0 <= i < a.services.len() && 0 <= j < a.services[i].1.vars.len() implies
            c.services[i].1.vars[j].0 == a.services[i].1.vars[j].0
            && c.services[i].1.vars[j].1.value == a.services[i].1.vars[j].1.value by {
        assert(b.services[i].0 == a.services[i].0);
        assert(b.services[i].1.vars[j].0 == a.services[i].1.vars[j].0);
    }
}

proof fn lemma_still_trans(a: ManagerM, b: ManagerM, c: ManagerM)
    requires
        still(a, b),
        still(b, c),
    ensures
        still(a, c),
        unheard(a, c) ==> unheard(a, b) && unheard(b, c),
{
    replay::lemma_onward_trans(a, b, c);
    if unheard(a, c) {
        let x = model::inbox_of(a);
        let y = model::inbox_of(b);
        assert forall|i: int| 0 <= i < y.len() - model::inbox_len(c) implies !(
        #[trigger] y[i] is Event) by {
            assert(!(x[i + x.len() - y.len()] is Event));
        }
        lemma_same_trans(a, b, c);
    }
}

/// Nothing changes in the services.
proof fn lemma_still_fields(a: ManagerM, b: ManagerM)
    requires
        b.services == a.services,
        a.network is None ==> b.network is None,
        replay::sent_of(b) == replay::sent_of(a) || replay::sent_of(b) == replay::sent_of(a).push(
            replay::sent_of(b).last(),
        ),
        model::inbox_of(b) == model::inbox_of(a) || model::inbox_of(a).len() > 0 && model::inbox_of(
            b,
        ) == model::inbox_of(a).drop_first(),
    ensures
        still(a, b),
{
    replay::lemma_onward_fields(a, b);
}

/// A variable at a place gets a state with the same value.
proof fn lemma_still_place(m: ManagerM, i: int, x: Symbol, v: VarStateM)
    requires
        0 <= i < m.services.len(),
        table::get(m.services[i].1.vars, x) matches Some(u) && u.value == v.value,
    ensures
        still(
            m,
            ManagerM {
                services: m.services.update(
                    i,
                    (
                        m.services[i].0,
                        ServiceM {
                            vars: table::put(m.services[i].1.vars, x, v),
                            ..m.services[i].1
                        },
                    ),
                ),
                ..m
            },
        ),
{
    table::lemma_slot(m.services[i].1.vars, x);
    let vars = table::put(m.services[i].1.vars, x, v);
    let s = m.services.update(i, (m.services[i].0, ServiceM { vars, ..m.services[i].1 }));
    replay::lemma_onward_fields(m, ManagerM { services: s, ..m });
}

/// A variable gets a state with the same value.
proof fn lemma_still_var(m: ManagerM, svc: Symbol, x: Symbol, v: VarStateM)
    requires
        model::var_of(m, svc, x) matches Some(u) && u.value == v.value,
    ensures
        still(m, model::with_var(m, svc, x, v)),
{
    table::lemma_slot(m.services, svc);
    lemma_still_place(m, table::slot(m.services, svc) as int, x, v);
}

proof fn lemma_still_acquire(m: ManagerM, svc: Symbol, x: Symbol, t: TxnId, wish: Wish)
    ensures
        still(m, model::acquire(m, svc, x, t, wish).1),
{
    lemma_still_refl(m);
    if let Some(v) = model::var_of(m, svc, x) {
        lemma_still_var(m, svc, x, VarStateM { lock: model::granted(v.lock, wish, t), ..v });
    }
}

proof fn stay_local_read(var: Symbol, svc: Symbol, w: World)
    ensures
        still(w.m, model::local_read(var, svc, w).1.m),
{
    lemma_still_refl(w.m);
    if let Some(t) = w.t {
        lemma_still_acquire(w.m, svc, var, t.id, Wish::Read);
    }
}

proof fn stay_buffer_write(svc: Symbol, var: Symbol, value: ValueM<Symbol>, m: ManagerM, t: TxnM)
    ensures
        still(m, model::buffer_write(svc, var, value, m, t).1.m),
{
    lemma_still_acquire(m, svc, var, t.id, Wish::Upgrade);
    lemma_still_acquire(m, svc, var, t.id, Wish::Write);
}

proof fn stay_release(m: ManagerM, locked: Seq<KeyM>, t: TxnId, n: nat)
    ensures
        still(m, model::release_all(m, locked, t, n)),
    decreases n,
{
    lemma_still_refl(m);
    if n > 0 {
        let k = (n - 1) as nat;
        stay_release(m, locked, t, k);
        let u = model::release_all(m, locked, t, k);
        let z = model::release_all(m, locked, t, n);
        let key = locked[n - 1];
        let i = model::place_of_id(u.services, key.0) as int;
        state::lemma_place_of_id(u.services, key.0);
        lemma_still_refl(u);
        if i < u.services.len() {
            if let Some(v) = table::get(u.services[i].1.vars, key.1) {
                lemma_still_place(u, i, key.1, VarStateM { lock: v.lock.released(t), ..v });
            }
        }
        lemma_still_trans(m, u, z);
    }
}

/// Evaluating an expression leaves the values alone.
proof fn stay_eval(n: nat, e: ExprM<Symbol>, env: EnvM, svc: Symbol, w: World)
    ensures
        still(w.m, semantics::eval(n, e, env, svc, w).1.m),
    decreases n, 0nat, 0nat,
{
    reveal(semantics::eval);
    reveal(semantics::eval_step);
    lemma_still_refl(w.m);
    if n > 0 {
        stay_eval_step((n - 1) as nat, e, env, svc, w);
    }
}

proof fn stay_eval_step(n: nat, e: ExprM<Symbol>, env: EnvM, svc: Symbol, w: World)
    ensures
        still(w.m, semantics::eval_step(n, e, env, svc, w).1.m),
    decreases n, 2nat, 0nat,
{
    reveal(semantics::eval_step);
    reveal(semantics::eval);
    reveal(semantics::eval_args);
    reveal(semantics::lookup);
    lemma_still_refl(w.m);
    match e {
        ExprM::Variable { name } => {
            stay_lookup(n, name, svc, w);
        },
        ExprM::MemberAccess { service_name, member_name } => {
            stay_lookup(n, member_name, service_name, w);
        },
        ExprM::Call { func, args } => {
            stay_eval(n, *func, env, svc, w);
            let (f, w1) = semantics::eval(n, *func, env, svc, w);
            if let Ok(f) = f {
                stay_args(n, args, 0, seq![], env, svc, w1);
                let (vs, w2) = semantics::eval_args(n, args, 0, seq![], env, svc, w1);
                lemma_still_trans(w.m, w1.m, w2.m);
                if let Ok(vs) = vs {
                    if let ValueM::Closure { params, body, env: own, service_name, return_ty } = f {
                        let inner = model::bind_args(own, params, vs);
                        stay_eval(n, *body, inner, service_name, w2);
                        lemma_still_trans(
                            w.m,
                            w2.m,
                            semantics::eval(n, *body, inner, service_name, w2).1.m,
                        );
                    }
                }
            }
        },
        ExprM::Binop { op, expr1, expr2 } => {
            stay_eval(n, *expr1, env, svc, w);
            let (a, w1) = semantics::eval(n, *expr1, env, svc, w);
            if a is Ok {
                stay_eval(n, *expr2, env, svc, w1);
                lemma_still_trans(w.m, w1.m, semantics::eval(n, *expr2, env, svc, w1).1.m);
            }
        },
        ExprM::Unop { op, expr } => {
            stay_eval(n, *expr, env, svc, w);
        },
        ExprM::If { cond, expr1, expr2 } => {
            stay_eval(n, *cond, env, svc, w);
            let (c, w1) = semantics::eval(n, *cond, env, svc, w);
            stay_eval(n, *expr1, env, svc, w1);
            stay_eval(n, *expr2, env, svc, w1);
            lemma_still_trans(w.m, w1.m, semantics::eval(n, *expr1, env, svc, w1).1.m);
            lemma_still_trans(w.m, w1.m, semantics::eval(n, *expr2, env, svc, w1).1.m);
        },
        _ => {},
    }
}

proof fn stay_args(
    n: nat,
    args: Seq<ExprM<Symbol>>,
    i: nat,
    acc: Seq<ValueM<Symbol>>,
    env: EnvM,
    svc: Symbol,
    w: World,
)
    ensures
        still(w.m, semantics::eval_args(n, args, i, acc, env, svc, w).1.m),
    decreases n, 1nat, args.len() - i,
{
    reveal(semantics::eval_args);
    reveal(semantics::eval);
    lemma_still_refl(w.m);
    if i < args.len() {
        stay_eval(n, args[i as int], env, svc, w);
        let (v, w1) = semantics::eval(n, args[i as int], env, svc, w);
        if let Ok(v) = v {
            stay_args(n, args, i + 1, acc.push(v), env, svc, w1);
            lemma_still_trans(
                w.m,
                w1.m,
                semantics::eval_args(n, args, i + 1, acc.push(v), env, svc, w1).1.m,
            );
        }
    }
}

/// Reading a member leaves the values alone.
proof fn stay_lookup(n: nat, var: Symbol, svc: Symbol, w: World)
    ensures
        still(w.m, semantics::lookup(n, var, svc, w).1.m),
    decreases n, 0nat, 0nat,
{
    reveal(semantics::lookup);
    reveal(semantics::eval);
    reveal(semantics::remote_lookup);
    lemma_still_refl(w.m);
    if n > 0 {
        let k = (n - 1) as nat;
        stay_remote_lookup(k, svc, var, w);
        if let Some(e) = model::def_of(w.m, svc, var) {
            stay_eval(k, e, seq![], svc, w);
        }
        stay_local_read(var, svc, w);
    }
}

proof fn stay_remote_lookup(n: nat, svc: Symbol, member: Symbol, w: World)
    ensures
        still(w.m, semantics::remote_lookup(n, svc, member, w).1.m),
    decreases n, 6nat, 0nat,
{
    reveal(semantics::remote_lookup);
    reveal(semantics::send_and_await);
    lemma_still_refl(w.m);
    if let Ok(addr) = model::remote_addr(w.m, svc) {
        let rid = w.m.next_lookup_id;
        let m1 = ManagerM { next_lookup_id: rid.wrapping_add(1), ..w.m };
        let msg = MessageM::LookupRequest {
            request_id: rid,
            service: model::name(m1, svc),
            member: model::name(m1, member),
            reply_to: model::reply_addr(m1),
            txn_id: model::txn_id(w.t),
        };
        let late = "Timeout waiting for remote lookup of '"@ + model::name(m1, svc) + "."@
            + model::name(m1, member) + "'"@;
        lemma_still_fields(w.m, m1);
        stay_send_and_await(n, addr, msg, rid, late, m1);
        let (reply, m2) = semantics::send_and_await(n, addr, msg, rid, late, m1);
        lemma_still_trans(w.m, m1, m2);
        let (r, m3) = semantics::lookup_reply(reply, m2);
        lemma_still_fields(m2, m3);
        lemma_still_trans(w.m, m2, m3);
    }
}

/// Sending a message and waiting for the reply leaves the values alone.
proof fn stay_send_and_await(
    n: nat,
    addr: Seq<char>,
    msg: MessageM,
    rid: u64,
    timeout: Seq<char>,
    m: ManagerM,
)
    ensures
        still(m, semantics::send_and_await(n, addr, msg, rid, timeout, m).1),
    decreases n, 5nat, 0nat,
{
    reveal(semantics::send_and_await);
    reveal(semantics::await_reply);
    lemma_still_refl(m);
    if m.network is Some {
        let m1 = model::send(m, addr, msg);
        let m2 = model::register(m1, rid);
        lemma_still_fields(m, m2);
        stay_await(n, rid, m1.next_channel, timeout, m2);
        lemma_still_trans(m, m2, semantics::await_reply(n, rid, m1.next_channel, timeout, m2).1);
    }
}

/// Waiting leaves the values alone.
proof fn stay_await(n: nat, rid: u64, chan: u64, timeout: Seq<char>, m: ManagerM)
    ensures
        still(m, semantics::await_reply(n, rid, chan, timeout, m).1),
    decreases n, 4nat, model::inbox_len(m),
{
    reveal(semantics::await_reply);
    reveal(semantics::dispatch);
    replay::go_await(n, rid, chan, timeout, m);
    replay::go_dispatch(n, m);
    lemma_still_refl(m);
    if model::next_incoming(m) matches Some(IncomingM::Event(_)) {
        assert(model::inbox_of(m)[0] is Event);
    } else {
        let gone = ManagerM { channels: table::without(m.channels, chan), ..m };
        lemma_still_fields(m, gone);
        let once = model::register(gone, rid);
        lemma_still_fields(m, once);
        if model::next_incoming(m) is Some {
            let popped = model::pop_incoming(m);
            lemma_still_fields(m, popped);
            stay_await(n, rid, chan, timeout, popped);
            lemma_still_trans(
                m,
                popped,
                semantics::await_reply(n, rid, chan, timeout, popped).1,
            );
            let p2 = model::pop_incoming(gone);
            lemma_still_fields(
                m,
                ManagerM { pending_replies: table::without(p2.pending_replies, rid), ..p2 },
            );
        }
    }
}

/// Executing a statement under a transaction leaves the values alone.
proof fn stay_execute(n: nat, s: ActionStmtM<Symbol>, env: EnvM, svc: Symbol, w: World)
    requires
        w.t is Some,
    ensures
        still(w.m, semantics::execute(n, s, env, svc, w).1.m),
    decreases n, 0nat, 0nat,
{
    reveal(semantics::execute);
    reveal(semantics::execute_step);
    lemma_still_refl(w.m);
    if n > 0 {
        stay_execute_step((n - 1) as nat, s, env, svc, w);
    }
}

proof fn stay_execute_step(n: nat, s: ActionStmtM<Symbol>, env: EnvM, svc: Symbol, w: World)
    requires
        w.t is Some,
    ensures
        still(w.m, semantics::execute_step(n, s, env, svc, w).1.m),
    decreases n, 7nat, 0nat,
{
    reveal(semantics::execute_step);
    reveal(semantics::eval);
    reveal(semantics::assign);
    reveal(semantics::exec_block);
    reveal(semantics::remote_action);
    lemma_still_refl(w.m);
    if !(s is Insert) {
        let e = read_write::stmt_expr(s);
        stay_eval(n, e, env, svc, w);
        let (r, w1) = semantics::eval(n, e, env, svc, w);
        isolation::keep_eval(n, e, env, svc, w);
        if let Ok(v) = r {
            match s {
                ActionStmtM::Assign { name, expr } => {
                    stay_buffer_write(svc, name, v, w1.m, w1.t->Some_0);
                    lemma_still_trans(w.m, w1.m, semantics::assign(n, svc, name, v, w1).1.m);
                },
                ActionStmtM::Do(expr) => {
                    if let ValueM::ActionClosure { stmts, env: own, service_net_id } = v {
                        match model::name_for_id(w1.m, service_net_id) {
                            Some(target) => {
                                stay_block(n, stmts, 0, own, target, w1);
                                lemma_still_trans(
                                    w.m,
                                    w1.m,
                                    semantics::exec_block(n, stmts, 0, own, target, w1).1.m,
                                );
                            },
                            None => {
                                stay_remote_action(n, service_net_id, stmts, own, w1);
                                lemma_still_trans(
                                    w.m,
                                    w1.m,
                                    semantics::remote_action(
                                        n,
                                        service_net_id,
                                        stmts,
                                        own,
                                        w1,
                                    ).1.m,
                                );
                            },
                        }
                    }
                },
                _ => {},
            }
        }
    }
}

/// Executing statements under a transaction leaves the values alone.
proof fn stay_block(
    n: nat,
    stmts: Seq<ActionStmtM<Symbol>>,
    i: nat,
    env: EnvM,
    svc: Symbol,
    w: World,
)
    requires
        w.t is Some,
    ensures
        still(w.m, semantics::exec_block(n, stmts, i, env, svc, w).1.m),
    decreases n, 1nat, stmts.len() - i,
{
    reveal(semantics::exec_block);
    reveal(semantics::execute);
    lemma_still_refl(w.m);
    if i < stmts.len() {
        stay_execute(n, stmts[i as int], env, svc, w);
        let (r, w1) = semantics::execute(n, stmts[i as int], env, svc, w);
        isolation::keep_execute(n, stmts[i as int], env, svc, w);
        match r {
            Err(_) => {},
            Ok(semantics::EffectM::Binding(name, v)) => {
                stay_block(n, stmts, i + 1, env.push((name, v)), svc, w1);
                lemma_still_trans(
                    w.m,
                    w1.m,
                    semantics::exec_block(n, stmts, i + 1, env.push((name, v)), svc, w1).1.m,
                );
            },
            Ok(_) => {
                stay_block(n, stmts, i + 1, env, svc, w1);
                lemma_still_trans(
                    w.m,
                    w1.m,
                    semantics::exec_block(n, stmts, i + 1, env, svc, w1).1.m,
                );
            },
        }
    }
}

proof fn stay_remote_action(
    n: nat,
    id: Seq<char>,
    stmts: Seq<ActionStmtM<Symbol>>,
    env: EnvM,
    w: World,
)
    ensures
        still(w.m, semantics::remote_action(n, id, stmts, env, w).1.m),
    decreases n, 6nat, 0nat,
{
    reveal(semantics::remote_action);
    reveal(semantics::send_and_await);
    let (addr, slug) = model::split_net_id(id);
    let rid = w.m.next_action_id;
    let m1 = ManagerM { next_action_id: rid.wrapping_add(1), ..w.m };
    let net_stmts = renaming::map_stmts(wire::naming(m1.interner), stmts);
    let net_env = semantics::action_env(m1, env);
    lemma_still_fields(w.m, m1);
    if semantics::action_log(net_stmts, net_env).err is None {
        let msg = MessageM::ActionRequest {
            request_id: rid,
            service: slug,
            stmts: net_stmts,
            env: net_env,
            reply_to: model::reply_addr(m1),
            txn_id: model::txn_id(w.t),
        };
        let late = "Timeout waiting for remote action on service '"@ + slug + "'"@;
        stay_send_and_await(n, addr, msg, rid, late, m1);
        let (reply, m2) = semantics::send_and_await(n, addr, msg, rid, late, m1);
        lemma_still_trans(w.m, m1, m2);
    }
}

proof fn stay_abort_all(n: nat, addrs: Seq<Seq<char>>, i: nat, tid: TxnId, m: ManagerM)
    ensures
        still(m, transactions::abort_all(n, addrs, i, tid, m).1),
    decreases addrs.len() - i,
{
    lemma_still_refl(m);
    if i < addrs.len() {
        let rid = m.next_abort_id;
        let m0 = ManagerM { next_abort_id: rid.wrapping_add(1), ..m };
        lemma_still_fields(m, m0);
        stay_send_and_await(
            n,
            addrs[i as int],
            MessageM::Abort { request_id: rid, txn_id: tid, reply_to: model::reply_addr(m) },
            rid,
            "Timeout waiting for abort acknowledgement"@,
            m0,
        );
        let (r, m1) = transactions::send_abort(n, addrs[i as int], tid, m);
        lemma_still_trans(m, m0, m1);
        stay_abort_all(n, addrs, i + 1, tid, m1);
        lemma_still_trans(m, m1, transactions::abort_all(n, addrs, i + 1, tid, m1).1);
    }
}

proof fn stay_rollback(n: nat, t: TxnM, m: ManagerM)
    ensures
        still(m, transactions::rollback(n, t, m).1),
{
    stay_abort_all(n, t.participants, 0, t.id, m);
    let m1 = transactions::abort_all(n, t.participants, 0, t.id, m).1;
    stay_release(m1, t.locked, t.id, t.locked.len());
    lemma_still_trans(m, m1, transactions::unlock(m1, t));
}

/// A transaction that fails leaves the values alone.
pub proof fn stay_run(
    n: nat,
    svc: Symbol,
    stmts: Seq<ActionStmtM<Symbol>>,
    env: EnvM,
    tid: TxnId,
    m: ManagerM,
)
    requires
        transactions::run_txn(n, svc, stmts, env, tid, m).0 matches Err(e) && !(e is Suspended),
    ensures
        still(m, transactions::run_txn(n, svc, stmts, env, tid, m).1),
    decreases MAX_WAIT_DIE_RETRIES - tid.iteration,
{
    let w0 = World { m, t: Some(txn::fresh_txn(tid)) };
    stay_block(n, stmts, 0, env, svc, w0);
    let (r, w) = semantics::exec_block(n, stmts, 0, env, svc, w0);
    let t = transactions::txn_or(w.t, tid);
    match r {
        Ok(_) => {
            laws::lemma_commit_suspends(n, t, w.m);
        },
        Err(ErrM::Suspended) => {},
        Err(e) => {
            stay_rollback(n, t, w.m);
            let (a, m1) = transactions::rollback(n, t, w.m);
            lemma_still_trans(m, w.m, m1);
            laws::lemma_abort_suspends(n, t.participants, 0, t.id, w.m);
            if a is Ok && e is WaitDieAbort && tid.iteration < MAX_WAIT_DIE_RETRIES {
                let next = TxnId { iteration: (tid.iteration + 1) as u32, ..tid };
                stay_run(n, svc, stmts, env, next, m1);
                lemma_still_trans(m, m1, transactions::run_txn(n, svc, stmts, env, next, m1).1);
            }
        },
    }
}

} // verus!
