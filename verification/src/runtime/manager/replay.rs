//! A run that is taken again repeats what it did.
//!
//! A run that needs a reply stops as suspended. It is taken again from the
//! start, with more in the inbox. What is shown here is that it then does the
//! same up to where it stopped: what it sent before is what it sends first.

use crate::net::messages::{EventM, MessageM};
use crate::net::wire;
use crate::runtime::ast::model::{ActionStmtM, DeclM, ExprM, ValueM};
use crate::runtime::ast::renaming;
use crate::runtime::interner;
use crate::runtime::interner::Symbol;
use crate::runtime::interpreter::evaluator::ErrM;
use crate::runtime::manager::model;
use crate::runtime::manager::model::{
    EnvM, IncomingM, KeyM, ManagerM, PortM, ServiceM, SlotM, World,
};
use crate::runtime::manager::semantics;
use crate::runtime::manager::transactions;
use crate::runtime::manager::transactions::MAX_WAIT_DIE_RETRIES;
use crate::runtime::semantic_analysis::var_analysis::dep_analysis::DepM;
use crate::runtime::semantic_analysis::var_analysis::read_write;
use crate::runtime::table;
use crate::runtime::txn;
use crate::runtime::txn::{TxnId, TxnM, VarStateM};
use vstd::prelude::*;

verus! {

/// What a node has sent.
pub open spec fn sent_of(m: ManagerM) -> Seq<(Seq<char>, MessageM)> {
    match m.network {
        Some(p) => p.sent,
        None => seq![],
    }
}

/// Whether a node has sent all that another has sent, and then perhaps more.
pub open spec fn ahead(a: ManagerM, b: ManagerM) -> bool {
    &&& a.network is None ==> b.network is None
    &&& sent_of(a).len() <= sent_of(b).len()
    &&& forall|i: int| 0 <= i < sent_of(a).len() ==> #[trigger] sent_of(b)[i] == sent_of(a)[i]
}

proof fn lemma_ahead_refl(m: ManagerM)
    ensures
        ahead(m, m),
{
}

proof fn lemma_ahead_trans(a: ManagerM, b: ManagerM, c: ManagerM)
    requires
        ahead(a, b),
        ahead(b, c),
    ensures
        ahead(a, c),
{
    assert forall|i: int| 0 <= i < sent_of(a).len() implies #[trigger] sent_of(c)[i] == sent_of(
        a,
    )[i] by {
        assert(sent_of(b)[i] == sent_of(a)[i]);
    }
}

/// Nothing is sent, or one message.
proof fn lemma_ahead_fields(a: ManagerM, b: ManagerM)
    requires
        a.network is None ==> b.network is None,
        sent_of(b) == sent_of(a) || sent_of(b) == sent_of(a).push(sent_of(b).last()),
    ensures
        ahead(a, b),
{
}

/// Whether a node has gone on from another: it has sent no less, and its inbox
/// is an end of what the other's is.
pub open spec fn onward(a: ManagerM, b: ManagerM) -> bool {
    let x = model::inbox_of(a);
    let y = model::inbox_of(b);
    &&& ahead(a, b)
    &&& y.len() <= x.len()
    &&& forall|i: int| 0 <= i < y.len() ==> #[trigger] y[i] == x[i + x.len() - y.len()]
}

pub proof fn lemma_onward_refl(m: ManagerM)
    ensures
        onward(m, m),
{
}

pub proof fn lemma_onward_trans(a: ManagerM, b: ManagerM, c: ManagerM)
    requires
        onward(a, b),
        onward(b, c),
    ensures
        onward(a, c),
{
    lemma_ahead_trans(a, b, c);
    let x = model::inbox_of(a);
    let y = model::inbox_of(b);
    let z = model::inbox_of(c);
    assert forall|i: int| 0 <= i < z.len() implies #[trigger] z[i] == x[i + x.len() - z.len()] by {
        let k = i + y.len() - z.len();
        assert(z[i] == y[k]);
        assert(y[k] == x[k + x.len() - y.len()]);
    }
}

/// Nothing is sent, or one message; nothing is taken from the inbox, or what is
/// first in it.
pub proof fn lemma_onward_fields(a: ManagerM, b: ManagerM)
    requires
        a.network is None ==> b.network is None,
        sent_of(b) == sent_of(a) || sent_of(b) == sent_of(a).push(sent_of(b).last()),
        model::inbox_of(b) == model::inbox_of(a) || model::inbox_of(a).len() > 0 && model::inbox_of(
            b,
        ) == model::inbox_of(a).drop_first(),
    ensures
        onward(a, b),
{
}

proof fn go_local_read(var: Symbol, svc: Symbol, w: World)
    ensures
        onward(w.m, model::local_read(var, svc, w).1.m),
{
}

/// Assigning to a member only sends more.
proof fn go_assign(n: nat, svc: Symbol, var: Symbol, value: ValueM<Symbol>, w: World)
    ensures
        onward(w.m, semantics::assign(n, svc, var, value, w).1.m),
    decreases n, 1nat, 0nat,
{
    reveal(semantics::assign);
    reveal(semantics::propagate);
    lemma_onward_refl(w.m);
    if w.t is None {
        if let Some(v) = model::var_of(w.m, svc, var) {
            let m0 = model::with_var(w.m, svc, var, VarStateM { value, ..v });
            lemma_onward_fields(w.m, m0);
            go_propagate(n, seq![(svc, var)], m0);
            lemma_onward_trans(w.m, m0, semantics::propagate(n, seq![(svc, var)], m0).1);
        }
    }
}

/// Evaluating an expression only sends more.
proof fn go_eval(n: nat, e: ExprM<Symbol>, env: EnvM, svc: Symbol, w: World)
    ensures
        onward(w.m, semantics::eval(n, e, env, svc, w).1.m),
    decreases n, 0nat, 0nat,
{
    reveal(semantics::eval);
    reveal(semantics::eval_step);
    lemma_onward_refl(w.m);
    if n > 0 {
        go_eval_step((n - 1) as nat, e, env, svc, w);
    }
}

proof fn go_eval_step(n: nat, e: ExprM<Symbol>, env: EnvM, svc: Symbol, w: World)
    ensures
        onward(w.m, semantics::eval_step(n, e, env, svc, w).1.m),
    decreases n, 2nat, 0nat,
{
    reveal(semantics::eval_step);
    reveal(semantics::eval);
    reveal(semantics::eval_args);
    reveal(semantics::lookup);
    lemma_onward_refl(w.m);
    match e {
        ExprM::Variable { name } => {
            go_lookup(n, name, svc, w);
        },
        ExprM::MemberAccess { service_name, member_name } => {
            go_lookup(n, member_name, service_name, w);
        },
        ExprM::Call { func, args } => {
            go_eval(n, *func, env, svc, w);
            let (f, w1) = semantics::eval(n, *func, env, svc, w);
            if let Ok(f) = f {
                go_args(n, args, 0, seq![], env, svc, w1);
                let (vs, w2) = semantics::eval_args(n, args, 0, seq![], env, svc, w1);
                lemma_onward_trans(w.m, w1.m, w2.m);
                if let Ok(vs) = vs {
                    if let ValueM::Closure { params, body, env: own, service_name, return_ty } = f {
                        let inner = model::bind_args(own, params, vs);
                        go_eval(n, *body, inner, service_name, w2);
                        lemma_onward_trans(
                            w.m,
                            w2.m,
                            semantics::eval(n, *body, inner, service_name, w2).1.m,
                        );
                    }
                }
            }
        },
        ExprM::Binop { op, expr1, expr2 } => {
            go_eval(n, *expr1, env, svc, w);
            let (a, w1) = semantics::eval(n, *expr1, env, svc, w);
            if a is Ok {
                go_eval(n, *expr2, env, svc, w1);
                lemma_onward_trans(w.m, w1.m, semantics::eval(n, *expr2, env, svc, w1).1.m);
            }
        },
        ExprM::Unop { op, expr } => {
            go_eval(n, *expr, env, svc, w);
        },
        ExprM::If { cond, expr1, expr2 } => {
            go_eval(n, *cond, env, svc, w);
            let (c, w1) = semantics::eval(n, *cond, env, svc, w);
            go_eval(n, *expr1, env, svc, w1);
            go_eval(n, *expr2, env, svc, w1);
            lemma_onward_trans(w.m, w1.m, semantics::eval(n, *expr1, env, svc, w1).1.m);
            lemma_onward_trans(w.m, w1.m, semantics::eval(n, *expr2, env, svc, w1).1.m);
        },
        _ => {},
    }
}

proof fn go_args(
    n: nat,
    args: Seq<ExprM<Symbol>>,
    i: nat,
    acc: Seq<ValueM<Symbol>>,
    env: EnvM,
    svc: Symbol,
    w: World,
)
    ensures
        onward(w.m, semantics::eval_args(n, args, i, acc, env, svc, w).1.m),
    decreases n, 1nat, args.len() - i,
{
    reveal(semantics::eval_args);
    reveal(semantics::eval);
    lemma_onward_refl(w.m);
    if i < args.len() {
        go_eval(n, args[i as int], env, svc, w);
        let (v, w1) = semantics::eval(n, args[i as int], env, svc, w);
        if let Ok(v) = v {
            go_args(n, args, i + 1, acc.push(v), env, svc, w1);
            lemma_onward_trans(
                w.m,
                w1.m,
                semantics::eval_args(n, args, i + 1, acc.push(v), env, svc, w1).1.m,
            );
        }
    }
}

/// Reading a member only sends more.
proof fn go_lookup(n: nat, var: Symbol, svc: Symbol, w: World)
    ensures
        onward(w.m, semantics::lookup(n, var, svc, w).1.m),
    decreases n, 0nat, 0nat,
{
    reveal(semantics::lookup);
    reveal(semantics::eval);
    reveal(semantics::remote_lookup);
    lemma_onward_refl(w.m);
    if n > 0 {
        let k = (n - 1) as nat;
        go_remote_lookup(k, svc, var, w);
        if let Some(e) = model::def_of(w.m, svc, var) {
            go_eval(k, e, seq![], svc, w);
        }
        go_local_read(var, svc, w);
    }
}

proof fn go_remote_lookup(n: nat, svc: Symbol, member: Symbol, w: World)
    ensures
        onward(w.m, semantics::remote_lookup(n, svc, member, w).1.m),
    decreases n, 6nat, 0nat,
{
    reveal(semantics::remote_lookup);
    reveal(semantics::send_and_await);
    lemma_onward_refl(w.m);
    if let Ok(addr) = model::remote_addr(w.m, svc) {
        let rid = w.m.next_lookup_id;
        let m1 = ManagerM { next_lookup_id: rid.wrapping_add(1), ..w.m };
        let msg = MessageM::LookupRequest {
            request_id: rid,
            service: model::name(m1, svc),
            member: model::name(m1, member),
            reply_to: model::reply_addr(m1),
            txn_id: model::txn_id(w.t),
        };
        let late = "Timeout waiting for remote lookup of '"@ + model::name(m1, svc) + "."@
            + model::name(m1, member) + "'"@;
        lemma_onward_fields(w.m, m1);
        go_send_and_await(n, addr, msg, rid, late, m1);
        let (reply, m2) = semantics::send_and_await(n, addr, msg, rid, late, m1);
        lemma_onward_trans(w.m, m1, m2);
        let (r, m3) = semantics::lookup_reply(reply, m2);
        lemma_onward_fields(m2, m3);
        lemma_onward_trans(w.m, m2, m3);
    }
}

/// Sending a message and waiting for the reply only sends more.
proof fn go_send_and_await(
    n: nat,
    addr: Seq<char>,
    msg: MessageM,
    rid: u64,
    timeout: Seq<char>,
    m: ManagerM,
)
    ensures
        onward(m, semantics::send_and_await(n, addr, msg, rid, timeout, m).1),
    decreases n, 5nat, 0nat,
{
    reveal(semantics::send_and_await);
    reveal(semantics::await_reply);
    lemma_onward_refl(m);
    if m.network is Some {
        let m1 = model::send(m, addr, msg);
        let m2 = model::register(m1, rid);
        lemma_onward_fields(m, m2);
        go_await(n, rid, m1.next_channel, timeout, m2);
        lemma_onward_trans(m, m2, semantics::await_reply(n, rid, m1.next_channel, timeout, m2).1);
    }
}

/// Waiting only sends more.
pub proof fn go_await(n: nat, rid: u64, chan: u64, timeout: Seq<char>, m: ManagerM)
    ensures
        onward(m, semantics::await_reply(n, rid, chan, timeout, m).1),
        onward(semantics::dispatch(n, m).1, semantics::await_reply(n, rid, chan, timeout, m).1),
    decreases n, 4nat, model::inbox_len(m),
{
    reveal(semantics::await_reply);
    reveal(semantics::dispatch);
    go_dispatch(n, m);
    let (d, m1) = semantics::dispatch(n, m);
    lemma_onward_refl(m1);
    if d is Ok {
        let gone = ManagerM { channels: table::without(m1.channels, chan), ..m1 };
        lemma_onward_fields(m1, gone);
        let once = model::register(gone, rid);
        lemma_onward_fields(m1, once);
        if model::inbox_len(once) < model::inbox_len(m) {
            go_await(n, rid, gone.next_channel, timeout, once);
            lemma_onward_trans(
                m1,
                once,
                semantics::await_reply(n, rid, gone.next_channel, timeout, once).1,
            );
        }
        let popped = model::pop_incoming(m1);
        if model::next_incoming(m1) is Some {
            lemma_onward_fields(m1, popped);
            if model::inbox_len(popped) < model::inbox_len(m) {
                go_await(n, rid, chan, timeout, popped);
                lemma_onward_trans(
                    m1,
                    popped,
                    semantics::await_reply(n, rid, chan, timeout, popped).1,
                );
            }
            let p2 = model::pop_incoming(gone);
            lemma_onward_fields(
                m1,
                ManagerM { pending_replies: table::without(p2.pending_replies, rid), ..p2 },
            );
        }
    }
    lemma_onward_trans(m, m1, semantics::await_reply(n, rid, chan, timeout, m).1);
}

/// Handling what is in the inbox only sends more, and leaves less in the inbox
/// if there was an event.
pub proof fn go_dispatch(n: nat, m: ManagerM)
    ensures
        onward(m, semantics::dispatch(n, m).1),
        model::next_incoming(m) matches Some(IncomingM::Event(_)) ==> model::inbox_len(
            semantics::dispatch(n, m).1,
        ) < model::inbox_len(m),
        !(model::next_incoming(m) matches Some(IncomingM::Event(_))) ==> semantics::dispatch(n, m)
            == (Ok::<(), ErrM>(()), m),
    decreases n, 3nat, model::inbox_len(m),
{
    reveal(semantics::dispatch);
    reveal(semantics::handle_event);
    lemma_onward_refl(m);
    if let Some(IncomingM::Event(ev)) = model::next_incoming(m) {
        let m0 = model::pop_incoming(m);
        lemma_onward_fields(m, m0);
        go_event(n, ev, m0);
        let (r, m1) = semantics::handle_event(n, ev, m0);
        lemma_onward_trans(m, m0, m1);
        if r is Ok {
            go_dispatch(n, m1);
            lemma_onward_trans(m, m1, semantics::dispatch(n, m1).1);
        }
    }
}

/// Handling an event only sends more, and adds nothing to the inbox.
pub proof fn go_event(n: nat, ev: EventM, m: ManagerM)
    ensures
        onward(m, semantics::handle_event(n, ev, m).1),
    decreases n, 2nat, 0nat,
{
    reveal(semantics::handle_event);
    reveal(semantics::handle_update);
    lemma_onward_refl(m);
    if let EventM::MessageReceived { peer, msg } = ev {
        match msg {
            MessageM::RequestUpdates {
                request_id,
                service,
                member,
                listener_service,
                listener_def,
                reply_to,
            } => {
                let log = wire::three_log(service, member, listener_def);
                let names = interner::interned_all(m.interner, log.names);
                let m1 = ManagerM { interner: names, ..m };
                lemma_onward_fields(m, m1);
                let a = interner::symbol_of(names, service);
                let b = interner::symbol_of(names, member);
                let c = interner::symbol_of(names, listener_def);
                lemma_onward_fields(
                    m1,
                    model::request_updates(m1, a, b, listener_service, c, reply_to),
                );
                lemma_onward_trans(
                    m,
                    m1,
                    model::request_updates(m1, a, b, listener_service, c, reply_to),
                );
            },
            MessageM::Update { listener_service, listener_def, source_service, member, value } => {
                let log = wire::three_log(listener_def, source_service, member);
                let names = interner::interned_all(m.interner, log.names);
                let m1 = ManagerM { interner: names, ..m };
                lemma_onward_fields(m, m1);
                let a = interner::symbol_of(names, listener_def);
                let b = interner::symbol_of(names, source_service);
                let c = interner::symbol_of(names, member);
                go_update(n, listener_service, a, b, c, value, m1);
                lemma_onward_trans(
                    m,
                    m1,
                    semantics::handle_update(n, listener_service, a, b, c, value, m1).1,
                );
            },
            _ => {
                lemma_onward_fields(m, model::deliver(m, msg));
            },
        }
    }
}

/// Taking up a remote value only sends more.
proof fn go_update(
    n: nat,
    listener: Seq<char>,
    def: Symbol,
    source: Symbol,
    member: Symbol,
    value: ValueM<Seq<char>>,
    m: ManagerM,
)
    ensures
        onward(m, semantics::handle_update(n, listener, def, source, member, value, m).1),
    decreases n, 1nat, 0nat,
{
    reveal(semantics::handle_update);
    reveal(semantics::recompute_def);
    reveal(semantics::propagate);
    let log = wire::value_log(value);
    let names = interner::interned_all(m.interner, log.names);
    let m1 = ManagerM { interner: names, ..m };
    lemma_onward_fields(m, m1);
    if log.err is None {
        if let Some(svc) = model::name_for_id(m1, listener) {
            let m2 = match table::get(m1.services, svc) {
                None => m1,
                Some(s) => model::with_service(
                    m1,
                    svc,
                    ServiceM {
                        dep_cache: table::put(
                            s.dep_cache,
                            def,
                            table::put(
                                model::cache_of(s, def),
                                (source, member),
                                renaming::map_value(wire::symbolizing(names), value),
                            ),
                        ),
                        ..s
                    },
                ),
            };
            lemma_onward_refl(m1);
            if let Some(s) = table::get(m1.services, svc) {
                let s1 = ServiceM {
                    dep_cache: table::put(
                        s.dep_cache,
                        def,
                        table::put(
                            model::cache_of(s, def),
                            (source, member),
                            renaming::map_value(wire::symbolizing(names), value),
                        ),
                    ),
                    ..s
                };
            }
            lemma_onward_trans(m, m1, m2);
            go_recompute(n, svc, def, m2);
            let (r, m3) = semantics::recompute_def(n, svc, def, m2);
            lemma_onward_trans(m, m2, m3);
            if let Ok(true) = r {
                go_propagate(n, seq![(svc, def)], m3);
                lemma_onward_trans(m, m3, semantics::propagate(n, seq![(svc, def)], m3).1);
            }
        }
    }
}

/// Computing a definition anew only sends more.
proof fn go_recompute(n: nat, svc: Symbol, def: Symbol, m: ManagerM)
    ensures
        onward(m, semantics::recompute_def(n, svc, def, m).1),
    decreases n, 0nat, 0nat,
{
    reveal(semantics::recompute_def);
    reveal(semantics::eval);
    lemma_onward_refl(m);
    if n > 0 {
        if let Some(e) = model::def_of(m, svc, def) {
            let s = table::get(m.services, svc)->Some_0;
            let m1 = ManagerM { reactive_cache: Some(model::cache_of(s, def)), ..m };
            let w0 = World { m: m1, t: None };
            lemma_onward_fields(m, m1);
            go_eval((n - 1) as nat, e, model::var_env(s), svc, w0);
            let (r, w) = semantics::eval((n - 1) as nat, e, model::var_env(s), svc, w0);
            let m2 = ManagerM { reactive_cache: None, ..w.m };
            lemma_onward_trans(m, m1, w.m);
            lemma_onward_fields(w.m, m2);
            lemma_onward_trans(m, w.m, m2);
            if let Ok(v) = r {
                if let Some(x) = model::var_of(m2, svc, def) {
                    let v1 = VarStateM { value: v, ..x };
                    let s2 = table::get(m2.services, svc)->Some_0;
                    lemma_onward_trans(m, m2, model::with_var(m2, svc, def, v1));
                }
            }
        }
    }
}

/// Passing changes on only sends more.
proof fn go_propagate(n: nat, work: Seq<(Symbol, Symbol)>, m: ManagerM)
    ensures
        onward(m, semantics::propagate(n, work, m).1),
    decreases n, 0nat, semantics::CHANGE_LIMIT + 1,
{
    reveal(semantics::propagate);
    reveal(semantics::pass_on);
    go_pass_on(n, semantics::CHANGE_LIMIT as nat, work, m);
}

proof fn go_pass_on(n: nat, left: nat, work: Seq<(Symbol, Symbol)>, m: ManagerM)
    ensures
        onward(m, semantics::pass_on(n, left, work, m).1),
    decreases n, 0nat, left,
{
    reveal(semantics::pass_on);
    reveal(semantics::notify);
    lemma_onward_refl(m);
    if work.len() > 0 && n > 0 && left > 0 {
        let k = (n - 1) as nat;
        let (svc, member) = work.last();
        let ls = model::listeners_of(m, svc, member);
        go_notify(k, ls, 0, svc, member, work.drop_last(), m);
        let (r, m1) = semantics::notify(k, ls, 0, svc, member, work.drop_last(), m);
        if let Ok(more) = r {
            let fewer = (left - 1) as nat;
            go_pass_on(n, fewer, more, m1);
            lemma_onward_trans(m, m1, semantics::pass_on(n, fewer, more, m1).1);
        }
    }
}

proof fn go_notify(
    n: nat,
    ls: Seq<KeyM>,
    i: nat,
    svc: Symbol,
    member: Symbol,
    work: Seq<(Symbol, Symbol)>,
    m: ManagerM,
)
    ensures
        onward(m, semantics::notify(n, ls, i, svc, member, work, m).1),
    decreases n, 1nat, ls.len() - i,
{
    reveal(semantics::notify);
    reveal(semantics::recompute_def);
    lemma_onward_refl(m);
    if i < ls.len() {
        let (id, def) = ls[i as int];
        match model::name_for_id(m, id) {
            Some(lsvc) => {
                go_recompute(n, lsvc, def, m);
                let (r, m1) = semantics::recompute_def(n, lsvc, def, m);
                if let Ok(changed) = r {
                    let more = if changed {
                        work.push((lsvc, def))
                    } else {
                        work
                    };
                    go_notify(n, ls, i + 1, svc, member, more, m1);
                    lemma_onward_trans(
                        m,
                        m1,
                        semantics::notify(n, ls, i + 1, svc, member, more, m1).1,
                    );
                }
            },
            None => {
                let m1 = model::emit_update(m, id, def, svc, member);
                lemma_onward_fields(m, model::emit_update(m, id, def, svc, member));
                go_notify(n, ls, i + 1, svc, member, work, m1);
                lemma_onward_trans(m, m1, semantics::notify(n, ls, i + 1, svc, member, work, m1).1);
            },
        }
    }
}

/// Executing a statement under a transaction only sends more.
proof fn go_execute(n: nat, s: ActionStmtM<Symbol>, env: EnvM, svc: Symbol, w: World)
    ensures
        onward(w.m, semantics::execute(n, s, env, svc, w).1.m),
    decreases n, 0nat, 0nat,
{
    reveal(semantics::execute);
    reveal(semantics::execute_step);
    lemma_onward_refl(w.m);
    if n > 0 {
        go_execute_step((n - 1) as nat, s, env, svc, w);
    }
}

proof fn go_execute_step(n: nat, s: ActionStmtM<Symbol>, env: EnvM, svc: Symbol, w: World)
    ensures
        onward(w.m, semantics::execute_step(n, s, env, svc, w).1.m),
    decreases n, 7nat, 0nat,
{
    reveal(semantics::execute_step);
    reveal(semantics::eval);
    reveal(semantics::assign);
    reveal(semantics::exec_block);
    reveal(semantics::remote_action);
    lemma_onward_refl(w.m);
    if !(s is Insert) {
        let e = read_write::stmt_expr(s);
        go_eval(n, e, env, svc, w);
        let (r, w1) = semantics::eval(n, e, env, svc, w);
        if let Ok(v) = r {
            match s {
                ActionStmtM::Assign { name, expr } => {
                    go_assign(n, svc, name, v, w1);
                    lemma_onward_trans(w.m, w1.m, semantics::assign(n, svc, name, v, w1).1.m);
                },
                ActionStmtM::Do(expr) => {
                    if let ValueM::ActionClosure { stmts, env: own, service_net_id } = v {
                        match model::name_for_id(w1.m, service_net_id) {
                            Some(target) => {
                                go_block(n, stmts, 0, own, target, w1);
                                lemma_onward_trans(
                                    w.m,
                                    w1.m,
                                    semantics::exec_block(n, stmts, 0, own, target, w1).1.m,
                                );
                            },
                            None => {
                                go_remote_action(n, service_net_id, stmts, own, w1);
                                lemma_onward_trans(
                                    w.m,
                                    w1.m,
                                    semantics::remote_action(
                                        n,
                                        service_net_id,
                                        stmts,
                                        own,
                                        w1,
                                    ).1.m,
                                );
                            },
                        }
                    }
                },
                _ => {},
            }
        }
    }
}

/// Executing statements under a transaction only sends more.
proof fn go_block(
    n: nat,
    stmts: Seq<ActionStmtM<Symbol>>,
    i: nat,
    env: EnvM,
    svc: Symbol,
    w: World,
)
    ensures
        onward(w.m, semantics::exec_block(n, stmts, i, env, svc, w).1.m),
    decreases n, 1nat, stmts.len() - i,
{
    reveal(semantics::exec_block);
    reveal(semantics::execute);
    lemma_onward_refl(w.m);
    if i < stmts.len() {
        go_execute(n, stmts[i as int], env, svc, w);
        let (r, w1) = semantics::execute(n, stmts[i as int], env, svc, w);
        match r {
            Err(_) => {},
            Ok(semantics::EffectM::Binding(name, v)) => {
                go_block(n, stmts, i + 1, env.push((name, v)), svc, w1);
                lemma_onward_trans(
                    w.m,
                    w1.m,
                    semantics::exec_block(n, stmts, i + 1, env.push((name, v)), svc, w1).1.m,
                );
            },
            Ok(_) => {
                go_block(n, stmts, i + 1, env, svc, w1);
                lemma_onward_trans(
                    w.m,
                    w1.m,
                    semantics::exec_block(n, stmts, i + 1, env, svc, w1).1.m,
                );
            },
        }
    }
}

proof fn go_remote_action(
    n: nat,
    id: Seq<char>,
    stmts: Seq<ActionStmtM<Symbol>>,
    env: EnvM,
    w: World,
)
    ensures
        onward(w.m, semantics::remote_action(n, id, stmts, env, w).1.m),
    decreases n, 6nat, 0nat,
{
    reveal(semantics::remote_action);
    reveal(semantics::send_and_await);
    let (addr, slug) = model::split_net_id(id);
    let rid = w.m.next_action_id;
    let m1 = ManagerM { next_action_id: rid.wrapping_add(1), ..w.m };
    let net_stmts = renaming::map_stmts(wire::naming(m1.interner), stmts);
    let net_env = semantics::action_env(m1, env);
    lemma_onward_fields(w.m, m1);
    if semantics::action_log(net_stmts, net_env).err is None {
        let msg = MessageM::ActionRequest {
            request_id: rid,
            service: slug,
            stmts: net_stmts,
            env: net_env,
            reply_to: model::reply_addr(m1),
            txn_id: model::txn_id(w.t),
        };
        let late = "Timeout waiting for remote action on service '"@ + slug + "'"@;
        go_send_and_await(n, addr, msg, rid, late, m1);
        let (reply, m2) = semantics::send_and_await(n, addr, msg, rid, late, m1);
        lemma_onward_trans(w.m, m1, m2);
    }
}

/// The node with more at the end of its inbox.
pub open spec fn later(m: ManagerM, tail: Seq<IncomingM>) -> ManagerM {
    match m.network {
        None => m,
        Some(p) => ManagerM { network: Some(PortM { inbox: p.inbox + tail, ..p }), ..m },
    }
}

/// The same of a node and the transaction that is under way.
pub open spec fn later_world(w: World, tail: Seq<IncomingM>) -> World {
    World { m: later(w.m, tail), t: w.t }
}

/// Whether what is appended to an inbox does not begin with an event: it is
/// marked as what came in after the run was suspended.
pub open spec fn marked(tail: Seq<IncomingM>) -> bool {
    tail.len() > 0 && !(tail[0] is Event)
}

/// Whether a result means that the run has to wait.
pub open spec fn waits<T>(r: Result<T, ErrM>) -> bool {
    r matches Err(ErrM::Suspended)
}

/// Whether a second run agrees with the first: it does the same if the first
/// was not suspended, and else sends first what the first has sent.
pub open spec fn agrees<T>(
    a: (Result<T, ErrM>, ManagerM),
    b: (Result<T, ErrM>, ManagerM),
    tail: Seq<IncomingM>,
) -> bool {
    if waits(a.0) {
        ahead(a.1, b.1)
    } else {
        b.0 == a.0 && b.1 == later(a.1, tail)
    }
}

/// The same of runs under a transaction.
pub open spec fn agree<T>(
    a: (Result<T, ErrM>, World),
    b: (Result<T, ErrM>, World),
    tail: Seq<IncomingM>,
) -> bool {
    if waits(a.0) {
        ahead(a.1.m, b.1.m)
    } else {
        b.0 == a.0 && b.1 == later_world(a.1, tail)
    }
}

proof fn lemma_ahead_later(m: ManagerM, tail: Seq<IncomingM>)
    ensures
        ahead(m, later(m, tail)),
{
}

proof fn lemma_captured_later(
    m: ManagerM,
    tail: Seq<IncomingM>,
    svc: Symbol,
    env: EnvM,
    free: Set<Symbol>,
    n: nat,
)
    ensures
        model::captured(later(m, tail), svc, env, free, n) == model::captured(
            m,
            svc,
            env,
            free,
            n,
        ),
    decreases n,
{
    if n > 0 {
        lemma_captured_later(m, tail, svc, env, free, (n - 1) as nat);
    }
}

proof fn lemma_local_read_later(var: Symbol, svc: Symbol, w: World, tail: Seq<IncomingM>)
    ensures
        agree(
            model::local_read(var, svc, w),
            model::local_read(var, svc, later_world(w, tail)),
            tail,
        ),
{
    let z = later_world(w, tail);
    assert(model::var_of(z.m, svc, var) == model::var_of(w.m, svc, var));
    assert(model::net_id(z.m, svc) == model::net_id(w.m, svc));
}

proof fn lemma_buffer_write_later(
    svc: Symbol,
    var: Symbol,
    value: ValueM<Symbol>,
    m: ManagerM,
    t: TxnM,
    tail: Seq<IncomingM>,
)
    ensures
        agree(
            model::buffer_write(svc, var, value, m, t),
            model::buffer_write(svc, var, value, later(m, tail), t),
            tail,
        ),
{
    assert(model::net_id(later(m, tail), svc) == model::net_id(m, svc));
}

/// Evaluating again agrees.
proof fn again_eval(
    n: nat,
    e: ExprM<Symbol>,
    env: EnvM,
    svc: Symbol,
    w: World,
    tail: Seq<IncomingM>,
)
    requires
        marked(tail),
    ensures
        agree(
            semantics::eval(n, e, env, svc, w),
            semantics::eval(n, e, env, svc, later_world(w, tail)),
            tail,
        ),
    decreases n, 0nat, 0nat,
{
    reveal(semantics::eval);
    reveal(semantics::eval_step);
    if n > 0 {
        again_eval_step((n - 1) as nat, e, env, svc, w, tail);
    }
}

proof fn again_eval_step(
    n: nat,
    e: ExprM<Symbol>,
    env: EnvM,
    svc: Symbol,
    w: World,
    tail: Seq<IncomingM>,
)
    requires
        marked(tail),
    ensures
        agree(
            semantics::eval_step(n, e, env, svc, w),
            semantics::eval_step(n, e, env, svc, later_world(w, tail)),
            tail,
        ),
    decreases n, 2nat, 0nat,
{
    reveal(semantics::eval_step);
    reveal(semantics::eval);
    reveal(semantics::eval_args);
    reveal(semantics::lookup);
    let z = later_world(w, tail);
    match e {
        ExprM::Variable { name } => {
            again_lookup(n, name, svc, w, tail);
        },
        ExprM::MemberAccess { service_name, member_name } => {
            again_lookup(n, member_name, service_name, w, tail);
        },
        ExprM::Call { func, args } => {
            again_eval(n, *func, env, svc, w, tail);
            let (f, w1) = semantics::eval(n, *func, env, svc, w);
            let (fz, z1) = semantics::eval(n, *func, env, svc, z);
            if waits(f) {
                if fz is Ok {
                    go_args(n, args, 0, seq![], env, svc, z1);
                    let (vz, z2) = semantics::eval_args(n, args, 0, seq![], env, svc, z1);
                    lemma_ahead_trans(w1.m, z1.m, z2.m);
                    if vz is Ok {
                        if let ValueM::Closure {
                            params,
                            body,
                            env: own,
                            service_name,
                            return_ty,
                        } = fz->Ok_0 {
                            let inner = model::bind_args(own, params, vz->Ok_0);
                            go_eval(n, *body, inner, service_name, z2);
                            lemma_ahead_trans(
                                w1.m,
                                z2.m,
                                semantics::eval(n, *body, inner, service_name, z2).1.m,
                            );
                        }
                    }
                }
            } else if f is Ok {
                again_args(n, args, 0, seq![], env, svc, w1, tail);
                let (vs, w2) = semantics::eval_args(n, args, 0, seq![], env, svc, w1);
                let (vz, z2) = semantics::eval_args(n, args, 0, seq![], env, svc, z1);
                if let ValueM::Closure { params, body, env: own, service_name, return_ty } =
                    f->Ok_0 {
                    if waits(vs) {
                        if vz is Ok {
                            let inner = model::bind_args(own, params, vz->Ok_0);
                            go_eval(n, *body, inner, service_name, z2);
                            lemma_ahead_trans(
                                w2.m,
                                z2.m,
                                semantics::eval(n, *body, inner, service_name, z2).1.m,
                            );
                        }
                    } else if vs is Ok {
                        let inner = model::bind_args(own, params, vs->Ok_0);
                        again_eval(n, *body, inner, service_name, w2, tail);
                    }
                }
            }
        },
        ExprM::Binop { op, expr1, expr2 } => {
            again_eval(n, *expr1, env, svc, w, tail);
            let (a, w1) = semantics::eval(n, *expr1, env, svc, w);
            let (az, z1) = semantics::eval(n, *expr1, env, svc, z);
            if waits(a) {
                if az is Ok {
                    go_eval(n, *expr2, env, svc, z1);
                    lemma_ahead_trans(w1.m, z1.m, semantics::eval(n, *expr2, env, svc, z1).1.m);
                }
            } else if a is Ok {
                again_eval(n, *expr2, env, svc, w1, tail);
            }
        },
        ExprM::Unop { op, expr } => {
            again_eval(n, *expr, env, svc, w, tail);
        },
        ExprM::If { cond, expr1, expr2 } => {
            again_eval(n, *cond, env, svc, w, tail);
            let (c, w1) = semantics::eval(n, *cond, env, svc, w);
            let (cz, z1) = semantics::eval(n, *cond, env, svc, z);
            if waits(c) {
                go_eval(n, *expr1, env, svc, z1);
                go_eval(n, *expr2, env, svc, z1);
                lemma_ahead_trans(w1.m, z1.m, semantics::eval(n, *expr1, env, svc, z1).1.m);
                lemma_ahead_trans(w1.m, z1.m, semantics::eval(n, *expr2, env, svc, z1).1.m);
            } else if c is Ok {
                again_eval(n, *expr1, env, svc, w1, tail);
                again_eval(n, *expr2, env, svc, w1, tail);
            }
        },
        ExprM::Func { params, body, return_ty } => {
            lemma_captured_later(
                w.m,
                tail,
                svc,
                env,
                read_write::free_vars(
                    *body,
                    Set::empty(),
                    Set::<Symbol>::empty().union(read_write::param_set(params)),
                ),
                env.len(),
            );
        },
        ExprM::Action(stmts) => {
            lemma_captured_later(
                w.m,
                tail,
                svc,
                env,
                read_write::free_vars(e, Set::empty(), Set::empty()),
                env.len(),
            );
            assert(model::net_id(z.m, svc) == model::net_id(w.m, svc));
        },
        _ => {},
    }
}

proof fn again_args(
    n: nat,
    args: Seq<ExprM<Symbol>>,
    i: nat,
    acc: Seq<ValueM<Symbol>>,
    env: EnvM,
    svc: Symbol,
    w: World,
    tail: Seq<IncomingM>,
)
    requires
        marked(tail),
    ensures
        agree(
            semantics::eval_args(n, args, i, acc, env, svc, w),
            semantics::eval_args(n, args, i, acc, env, svc, later_world(w, tail)),
            tail,
        ),
    decreases n, 1nat, args.len() - i,
{
    reveal(semantics::eval_args);
    reveal(semantics::eval);
    let z = later_world(w, tail);
    if i < args.len() {
        again_eval(n, args[i as int], env, svc, w, tail);
        let (v, w1) = semantics::eval(n, args[i as int], env, svc, w);
        let (vz, z1) = semantics::eval(n, args[i as int], env, svc, z);
        if waits(v) {
            if vz is Ok {
                let more = acc.push(vz->Ok_0);
                go_args(n, args, i + 1, more, env, svc, z1);
                lemma_ahead_trans(
                    w1.m,
                    z1.m,
                    semantics::eval_args(n, args, i + 1, more, env, svc, z1).1.m,
                );
            }
        } else if v is Ok {
            again_args(n, args, i + 1, acc.push(v->Ok_0), env, svc, w1, tail);
        }
    }
}

/// Reading again agrees.
proof fn again_lookup(n: nat, var: Symbol, svc: Symbol, w: World, tail: Seq<IncomingM>)
    requires
        marked(tail),
    ensures
        agree(
            semantics::lookup(n, var, svc, w),
            semantics::lookup(n, var, svc, later_world(w, tail)),
            tail,
        ),
    decreases n, 0nat, 0nat,
{
    reveal(semantics::lookup);
    reveal(semantics::eval);
    reveal(semantics::remote_lookup);
    let z = later_world(w, tail);
    if n > 0 {
        let k = (n - 1) as nat;
        again_remote_lookup(k, svc, var, w, tail);
        assert(model::def_of(z.m, svc, var) == model::def_of(w.m, svc, var));
        if let Some(e) = model::def_of(w.m, svc, var) {
            again_eval(k, e, seq![], svc, w, tail);
        }
        lemma_local_read_later(var, svc, w, tail);
    }
}

proof fn again_remote_lookup(n: nat, svc: Symbol, member: Symbol, w: World, tail: Seq<IncomingM>)
    requires
        marked(tail),
    ensures
        agree(
            semantics::remote_lookup(n, svc, member, w),
            semantics::remote_lookup(n, svc, member, later_world(w, tail)),
            tail,
        ),
    decreases n, 6nat, 0nat,
{
    reveal(semantics::remote_lookup);
    reveal(semantics::send_and_await);
    let z = later_world(w, tail);
    assert(model::remote_addr(z.m, svc) == model::remote_addr(w.m, svc));
    if let Ok(addr) = model::remote_addr(w.m, svc) {
        let rid = w.m.next_lookup_id;
        let m1 = ManagerM { next_lookup_id: rid.wrapping_add(1), ..w.m };
        assert(ManagerM { next_lookup_id: rid.wrapping_add(1), ..z.m } == later(m1, tail));
        assert(model::reply_addr(later(m1, tail)) == model::reply_addr(m1));
        let msg = MessageM::LookupRequest {
            request_id: rid,
            service: model::name(m1, svc),
            member: model::name(m1, member),
            reply_to: model::reply_addr(m1),
            txn_id: model::txn_id(w.t),
        };
        let late = "Timeout waiting for remote lookup of '"@ + model::name(m1, svc) + "."@
            + model::name(m1, member) + "'"@;
        again_send_and_await(n, addr, msg, rid, late, m1, tail);
        let (reply, m2) = semantics::send_and_await(n, addr, msg, rid, late, m1);
        let (rz, z2) = semantics::send_and_await(n, addr, msg, rid, late, later(m1, tail));
        let (r, m3) = semantics::lookup_reply(reply, m2);
        let (lz, z3) = semantics::lookup_reply(rz, z2);
        lemma_ahead_fields(z2, z3);
        if waits(reply) {
            lemma_ahead_trans(m2, z2, z3);
        }
    }
}

/// Sending and waiting again agrees.
proof fn again_send_and_await(
    n: nat,
    addr: Seq<char>,
    msg: MessageM,
    rid: u64,
    timeout: Seq<char>,
    m: ManagerM,
    tail: Seq<IncomingM>,
)
    requires
        marked(tail),
    ensures
        agrees(
            semantics::send_and_await(n, addr, msg, rid, timeout, m),
            semantics::send_and_await(n, addr, msg, rid, timeout, later(m, tail)),
            tail,
        ),
    decreases n, 5nat, 0nat,
{
    reveal(semantics::send_and_await);
    reveal(semantics::await_reply);
    if m.network is Some {
        let m1 = model::send(m, addr, msg);
        assert(model::send(later(m, tail), addr, msg) == later(m1, tail));
        assert(model::register(later(m1, tail), rid) == later(model::register(m1, rid), tail));
        again_await(n, rid, m1.next_channel, timeout, model::register(m1, rid), tail);
    }
}

/// Where something is in the inbox, what is appended changes nothing of it.
proof fn lemma_pop_later(m: ManagerM, tail: Seq<IncomingM>)
    requires
        model::next_incoming(m) is Some,
    ensures
        model::next_incoming(later(m, tail)) == model::next_incoming(m),
        model::pop_incoming(later(m, tail)) == later(model::pop_incoming(m), tail),
{
    let p = m.network->Some_0;
    assert((p.inbox + tail).drop_first() =~= p.inbox.drop_first() + tail);
}

proof fn again_await(
    n: nat,
    rid: u64,
    chan: u64,
    timeout: Seq<char>,
    m: ManagerM,
    tail: Seq<IncomingM>,
)
    requires
        marked(tail),
    ensures
        agrees(
            semantics::await_reply(n, rid, chan, timeout, m),
            semantics::await_reply(n, rid, chan, timeout, later(m, tail)),
            tail,
        ),
    decreases n, 4nat, model::inbox_len(m),
{
    reveal(semantics::await_reply);
    reveal(semantics::dispatch);
    again_dispatch(n, m, tail);
    let (d, m1) = semantics::dispatch(n, m);
    let (dz, z1) = semantics::dispatch(n, later(m, tail));
    go_await(n, rid, chan, timeout, later(m, tail));
    if waits(d) {
        lemma_ahead_trans(
            m1,
            z1,
            semantics::await_reply(n, rid, chan, timeout, later(m, tail)).1,
        );
    } else if d is Ok {
        let gone = ManagerM { channels: table::without(m1.channels, chan), ..m1 };
        assert(ManagerM { channels: table::without(z1.channels, chan), ..z1 } == later(
            gone,
            tail,
        ));
        match table::get(m1.channels, chan) {
            Some(SlotM::Full(msg)) => {
                let next = model::register(gone, rid);
                assert(model::register(later(gone, tail), rid) == later(next, tail));
                if model::inbox_len(next) < model::inbox_len(m) {
                    again_await(n, rid, gone.next_channel, timeout, next, tail);
                }
            },
            Some(SlotM::Open) => {
                match model::next_incoming(m1) {
                    Some(IncomingM::Elapsed) => {
                        lemma_pop_later(m1, tail);
                        lemma_pop_later(gone, tail);
                    },
                    Some(IncomingM::Resume) => {
                        lemma_pop_later(m1, tail);
                        let next = model::pop_incoming(m1);
                        if model::inbox_len(next) < model::inbox_len(m) {
                            again_await(n, rid, chan, timeout, next, tail);
                        }
                    },
                    _ => {
                        lemma_ahead_later(m1, tail);
                        lemma_ahead_trans(
                            m1,
                            z1,
                            semantics::await_reply(n, rid, chan, timeout, later(m, tail)).1,
                        );
                    },
                }
            },
            _ => {},
        }
    }
}

/// Handling what is in the inbox again agrees.
proof fn again_dispatch(n: nat, m: ManagerM, tail: Seq<IncomingM>)
    requires
        marked(tail),
    ensures
        agrees(semantics::dispatch(n, m), semantics::dispatch(n, later(m, tail)), tail),
    decreases n, 3nat, model::inbox_len(m),
{
    reveal(semantics::dispatch);
    reveal(semantics::handle_event);
    match model::next_incoming(m) {
        Some(IncomingM::Event(ev)) => {
            lemma_pop_later(m, tail);
            let m0 = model::pop_incoming(m);
            again_event(n, ev, m0, tail);
            go_event(n, ev, m0);
            let (r, m1) = semantics::handle_event(n, ev, m0);
            let (rz, z1) = semantics::handle_event(n, ev, later(m0, tail));
            if waits(r) {
                if rz is Ok {
                    go_dispatch(n, z1);
                    lemma_ahead_trans(m1, z1, semantics::dispatch(n, z1).1);
                }
            } else if r is Ok {
                again_dispatch(n, m1, tail);
            }
        },
        Some(_) => {
            lemma_pop_later(m, tail);
        },
        None => {
            if m.network is Some {
                let p = m.network->Some_0;
                assert((p.inbox + tail)[0] == tail[0]);
            }
        },
    }
}

proof fn again_event(n: nat, ev: EventM, m: ManagerM, tail: Seq<IncomingM>)
    requires
        marked(tail),
    ensures
        agrees(
            semantics::handle_event(n, ev, m),
            semantics::handle_event(n, ev, later(m, tail)),
            tail,
        ),
    decreases n, 2nat, 0nat,
{
    reveal(semantics::handle_event);
    reveal(semantics::handle_update);
    if let EventM::MessageReceived { peer, msg } = ev {
        match msg {
            MessageM::RequestUpdates {
                request_id,
                service,
                member,
                listener_service,
                listener_def,
                reply_to,
            } => {
                let log = wire::three_log(service, member, listener_def);
                let names = interner::interned_all(m.interner, log.names);
                let m1 = ManagerM { interner: names, ..m };
                assert(ManagerM { interner: names, ..later(m, tail) } == later(m1, tail));
                lemma_request_later(
                    m1,
                    interner::symbol_of(names, service),
                    interner::symbol_of(names, member),
                    listener_service,
                    interner::symbol_of(names, listener_def),
                    reply_to,
                    tail,
                );
            },
            MessageM::Update { listener_service, listener_def, source_service, member, value } => {
                let log = wire::three_log(listener_def, source_service, member);
                let names = interner::interned_all(m.interner, log.names);
                let m1 = ManagerM { interner: names, ..m };
                assert(ManagerM { interner: names, ..later(m, tail) } == later(m1, tail));
                again_update(
                    n,
                    listener_service,
                    interner::symbol_of(names, listener_def),
                    interner::symbol_of(names, source_service),
                    interner::symbol_of(names, member),
                    value,
                    m1,
                    tail,
                );
            },
            _ => {
                assert(model::deliver(later(m, tail), msg) == later(
                    model::deliver(m, msg),
                    tail,
                ));
            },
        }
    }
}

proof fn lemma_request_later(
    m: ManagerM,
    svc: Symbol,
    member: Symbol,
    listener: Seq<char>,
    def: Symbol,
    reply_to: Seq<char>,
    tail: Seq<IncomingM>,
)
    ensures
        model::request_updates(later(m, tail), svc, member, listener, def, reply_to) == later(
            model::request_updates(m, svc, member, listener, def, reply_to),
            tail,
        ),
{
    if let Some(s) = table::get(m.services, svc) {
        if let Some(v) = table::get(s.vars, member) {
            let w = ManagerM {
                services: table::put(
                    m.services,
                    svc,
                    model::with_listener(s, member, (listener, def)),
                ),
                listener_addrs: table::put(m.listener_addrs, listener, reply_to),
                ..m
            };
            assert(ManagerM {
                services: w.services,
                listener_addrs: w.listener_addrs,
                ..later(m, tail)
            } == later(w, tail));
        }
    }
}

proof fn again_update(
    n: nat,
    listener: Seq<char>,
    def: Symbol,
    source: Symbol,
    member: Symbol,
    value: ValueM<Seq<char>>,
    m: ManagerM,
    tail: Seq<IncomingM>,
)
    requires
        marked(tail),
    ensures
        agrees(
            semantics::handle_update(n, listener, def, source, member, value, m),
            semantics::handle_update(n, listener, def, source, member, value, later(m, tail)),
            tail,
        ),
    decreases n, 1nat, 0nat,
{
    reveal(semantics::handle_update);
    reveal(semantics::recompute_def);
    reveal(semantics::propagate);
    let log = wire::value_log(value);
    let names = interner::interned_all(m.interner, log.names);
    let m1 = ManagerM { interner: names, ..m };
    assert(ManagerM { interner: names, ..later(m, tail) } == later(m1, tail));
    assert(model::name_for_id(later(m1, tail), listener) == model::name_for_id(m1, listener));
    if log.err is None {
        if let Some(svc) = model::name_for_id(m1, listener) {
            let m2 = match table::get(m1.services, svc) {
                None => m1,
                Some(s) => model::with_service(
                    m1,
                    svc,
                    ServiceM {
                        dep_cache: table::put(
                            s.dep_cache,
                            def,
                            table::put(
                                model::cache_of(s, def),
                                (source, member),
                                renaming::map_value(wire::symbolizing(names), value),
                            ),
                        ),
                        ..s
                    },
                ),
            };
            assert(ManagerM { services: m2.services, ..later(m1, tail) } == later(m2, tail));
            again_recompute(n, svc, def, m2, tail);
            let (r, m3) = semantics::recompute_def(n, svc, def, m2);
            let (rz, z3) = semantics::recompute_def(n, svc, def, later(m2, tail));
            if waits(r) {
                go_propagate(n, seq![(svc, def)], z3);
                lemma_ahead_trans(m3, z3, semantics::propagate(n, seq![(svc, def)], z3).1);
            } else if r is Ok {
                again_propagate(n, seq![(svc, def)], m3, tail);
            }
        }
    }
}

/// Computing a definition again agrees.
proof fn again_recompute(n: nat, svc: Symbol, def: Symbol, m: ManagerM, tail: Seq<IncomingM>)
    requires
        marked(tail),
    ensures
        agrees(
            semantics::recompute_def(n, svc, def, m),
            semantics::recompute_def(n, svc, def, later(m, tail)),
            tail,
        ),
    decreases n, 0nat, 0nat,
{
    reveal(semantics::recompute_def);
    reveal(semantics::eval);
    assert(model::def_of(later(m, tail), svc, def) == model::def_of(m, svc, def));
    if n > 0 {
        if let Some(e) = model::def_of(m, svc, def) {
            let k = (n - 1) as nat;
            let s = table::get(m.services, svc)->Some_0;
            let env = model::var_env(s);
            let m1 = ManagerM { reactive_cache: Some(model::cache_of(s, def)), ..m };
            let z1 = later(m1, tail);
            assert(ManagerM {
                reactive_cache: Some(model::cache_of(s, def)),
                ..later(m, tail)
            } == z1);
            let w0 = World { m: m1, t: None };
            assert(later_world(w0, tail) == (World { m: z1, t: None }));
            again_eval(k, e, env, svc, w0, tail);
            let (r, w) = semantics::eval(k, e, env, svc, w0);
            let (rz, wz) = semantics::eval(k, e, env, svc, World { m: z1, t: None });
            let m2 = ManagerM { reactive_cache: None, ..w.m };
            let z2 = ManagerM { reactive_cache: None, ..wz.m };
            if waits(r) {
                lemma_ahead_fields(m2, w.m);
                lemma_ahead_trans(m2, w.m, wz.m);
                lemma_ahead_fields(wz.m, z2);
                lemma_ahead_trans(m2, wz.m, z2);
                if let Ok(v) = rz {
                    if let Some(x) = model::var_of(z2, svc, def) {
                        let z3 = model::with_var(z2, svc, def, VarStateM { value: v, ..x });
                        lemma_ahead_fields(z2, z3);
                        lemma_ahead_trans(m2, z2, z3);
                    }
                }
            } else {
                assert(z2 == later(m2, tail));
                assert(model::var_of(z2, svc, def) == model::var_of(m2, svc, def));
                if let Ok(v) = r {
                    if let Some(x) = model::var_of(m2, svc, def) {
                        let v1 = VarStateM { value: v, ..x };
                        assert(model::with_var(z2, svc, def, v1) == later(
                            model::with_var(m2, svc, def, v1),
                            tail,
                        ));
                    }
                }
            }
        }
    }
}

/// Passing changes on again agrees.
proof fn again_propagate(
    n: nat,
    work: Seq<(Symbol, Symbol)>,
    m: ManagerM,
    tail: Seq<IncomingM>,
)
    requires
        marked(tail),
    ensures
        agrees(
            semantics::propagate(n, work, m),
            semantics::propagate(n, work, later(m, tail)),
            tail,
        ),
    decreases n, 0nat, semantics::CHANGE_LIMIT + 1,
{
    reveal(semantics::propagate);
    reveal(semantics::pass_on);
    again_pass_on(n, semantics::CHANGE_LIMIT as nat, work, m, tail);
}

proof fn again_pass_on(
    n: nat,
    left: nat,
    work: Seq<(Symbol, Symbol)>,
    m: ManagerM,
    tail: Seq<IncomingM>,
)
    requires
        marked(tail),
    ensures
        agrees(
            semantics::pass_on(n, left, work, m),
            semantics::pass_on(n, left, work, later(m, tail)),
            tail,
        ),
    decreases n, 0nat, left,
{
    reveal(semantics::pass_on);
    reveal(semantics::notify);
    if work.len() > 0 && n > 0 && left > 0 {
        let fewer = (left - 1) as nat;
        let k = (n - 1) as nat;
        let (svc, member) = work.last();
        let ls = model::listeners_of(m, svc, member);
        assert(model::listeners_of(later(m, tail), svc, member) == ls);
        again_notify(k, ls, 0, svc, member, work.drop_last(), m, tail);
        let (r, m1) = semantics::notify(k, ls, 0, svc, member, work.drop_last(), m);
        let (rz, z1) = semantics::notify(
            k,
            ls,
            0,
            svc,
            member,
            work.drop_last(),
            later(m, tail),
        );
        if waits(r) {
            if rz is Ok {
                go_pass_on(n, fewer, rz->Ok_0, z1);
                lemma_ahead_trans(m1, z1, semantics::pass_on(n, fewer, rz->Ok_0, z1).1);
            }
        } else if r is Ok {
            again_pass_on(n, fewer, r->Ok_0, m1, tail);
        }
    }
}

proof fn again_notify(
    n: nat,
    ls: Seq<KeyM>,
    i: nat,
    svc: Symbol,
    member: Symbol,
    work: Seq<(Symbol, Symbol)>,
    m: ManagerM,
    tail: Seq<IncomingM>,
)
    requires
        marked(tail),
    ensures
        agrees(
            semantics::notify(n, ls, i, svc, member, work, m),
            semantics::notify(n, ls, i, svc, member, work, later(m, tail)),
            tail,
        ),
    decreases n, 1nat, ls.len() - i,
{
    reveal(semantics::notify);
    reveal(semantics::recompute_def);
    if i < ls.len() {
        let (id, def) = ls[i as int];
        assert(model::name_for_id(later(m, tail), id) == model::name_for_id(m, id));
        match model::name_for_id(m, id) {
            Some(lsvc) => {
                again_recompute(n, lsvc, def, m, tail);
                let (r, m1) = semantics::recompute_def(n, lsvc, def, m);
                let (rz, z1) = semantics::recompute_def(n, lsvc, def, later(m, tail));
                if waits(r) {
                    if rz is Ok {
                        let more = if rz->Ok_0 {
                            work.push((lsvc, def))
                        } else {
                            work
                        };
                        go_notify(n, ls, i + 1, svc, member, more, z1);
                        lemma_ahead_trans(
                            m1,
                            z1,
                            semantics::notify(n, ls, i + 1, svc, member, more, z1).1,
                        );
                    }
                } else if r is Ok {
                    let more = if r->Ok_0 {
                        work.push((lsvc, def))
                    } else {
                        work
                    };
                    again_notify(n, ls, i + 1, svc, member, more, m1, tail);
                }
            },
            None => {
                let m1 = model::emit_update(m, id, def, svc, member);
                assert(model::var_of(later(m, tail), svc, member) == model::var_of(
                    m,
                    svc,
                    member,
                ));
                assert(model::emit_update(later(m, tail), id, def, svc, member) == later(
                    m1,
                    tail,
                ));
                again_notify(n, ls, i + 1, svc, member, work, m1, tail);
            },
        }
    }
}

/// Assigning again agrees.
proof fn again_assign(
    n: nat,
    svc: Symbol,
    var: Symbol,
    value: ValueM<Symbol>,
    w: World,
    tail: Seq<IncomingM>,
)
    requires
        marked(tail),
    ensures
        agree(
            semantics::assign(n, svc, var, value, w),
            semantics::assign(n, svc, var, value, later_world(w, tail)),
            tail,
        ),
    decreases n, 1nat, 0nat,
{
    reveal(semantics::assign);
    reveal(semantics::propagate);
    match w.t {
        Some(t) => {
            lemma_buffer_write_later(svc, var, value, w.m, t, tail);
        },
        None => {
            if let Some(v) = model::var_of(w.m, svc, var) {
                let v1 = VarStateM { value, ..v };
                let m1 = model::with_var(w.m, svc, var, v1);
                assert(model::with_var(later(w.m, tail), svc, var, v1) == later(m1, tail));
                again_propagate(n, seq![(svc, var)], m1, tail);
            }
        },
    }
}

/// Executing a statement again agrees.
proof fn again_execute(
    n: nat,
    s: ActionStmtM<Symbol>,
    env: EnvM,
    svc: Symbol,
    w: World,
    tail: Seq<IncomingM>,
)
    requires
        marked(tail),
    ensures
        agree(
            semantics::execute(n, s, env, svc, w),
            semantics::execute(n, s, env, svc, later_world(w, tail)),
            tail,
        ),
    decreases n, 0nat, 0nat,
{
    reveal(semantics::execute);
    reveal(semantics::execute_step);
    if n > 0 {
        again_execute_step((n - 1) as nat, s, env, svc, w, tail);
    }
}

/// What a statement does after its expression was evaluated only sends more.
proof fn lemma_execute_rest(n: nat, s: ActionStmtM<Symbol>, env: EnvM, svc: Symbol, w: World)
    requires
        !(s is Insert),
    ensures
        ahead(
            semantics::eval(n, read_write::stmt_expr(s), env, svc, w).1.m,
            semantics::execute_step(n, s, env, svc, w).1.m,
        ),
{
    reveal(semantics::execute_step);
    reveal(semantics::eval);
    reveal(semantics::assign);
    reveal(semantics::exec_block);
    reveal(semantics::remote_action);
    let (r, w1) = semantics::eval(n, read_write::stmt_expr(s), env, svc, w);
    lemma_ahead_refl(w1.m);
    if let Ok(v) = r {
        match s {
            ActionStmtM::Assign { name, expr } => {
                go_assign(n, svc, name, v, w1);
            },
            ActionStmtM::Do(expr) => {
                if let ValueM::ActionClosure { stmts, env: own, service_net_id } = v {
                    match model::name_for_id(w1.m, service_net_id) {
                        Some(target) => {
                            go_block(n, stmts, 0, own, target, w1);
                        },
                        None => {
                            go_remote_action(n, service_net_id, stmts, own, w1);
                        },
                    }
                }
            },
            _ => {},
        }
    }
}

proof fn again_execute_step(
    n: nat,
    s: ActionStmtM<Symbol>,
    env: EnvM,
    svc: Symbol,
    w: World,
    tail: Seq<IncomingM>,
)
    requires
        marked(tail),
    ensures
        agree(
            semantics::execute_step(n, s, env, svc, w),
            semantics::execute_step(n, s, env, svc, later_world(w, tail)),
            tail,
        ),
    decreases n, 7nat, 0nat,
{
    reveal(semantics::execute_step);
    reveal(semantics::eval);
    reveal(semantics::assign);
    reveal(semantics::exec_block);
    reveal(semantics::remote_action);
    let z = later_world(w, tail);
    if !(s is Insert) {
        let e = read_write::stmt_expr(s);
        again_eval(n, e, env, svc, w, tail);
        let (r, w1) = semantics::eval(n, e, env, svc, w);
        let (rz, z1) = semantics::eval(n, e, env, svc, z);
        if waits(r) {
            lemma_execute_rest(n, s, env, svc, z);
            lemma_ahead_trans(w1.m, z1.m, semantics::execute_step(n, s, env, svc, z).1.m);
        } else if let Ok(v) = r {
            match s {
                ActionStmtM::Assign { name, expr } => {
                    again_assign(n, svc, name, v, w1, tail);
                },
                ActionStmtM::Do(expr) => {
                    if let ValueM::ActionClosure { stmts, env: own, service_net_id } = v {
                        assert(model::name_for_id(z1.m, service_net_id) == model::name_for_id(
                            w1.m,
                            service_net_id,
                        ));
                        match model::name_for_id(w1.m, service_net_id) {
                            Some(target) => {
                                again_block(n, stmts, 0, own, target, w1, tail);
                            },
                            None => {
                                again_remote_action(n, service_net_id, stmts, own, w1, tail);
                            },
                        }
                    }
                },
                _ => {},
            }
        }
    }
}

/// Executing statements again agrees.
proof fn again_block(
    n: nat,
    stmts: Seq<ActionStmtM<Symbol>>,
    i: nat,
    env: EnvM,
    svc: Symbol,
    w: World,
    tail: Seq<IncomingM>,
)
    requires
        marked(tail),
    ensures
        agree(
            semantics::exec_block(n, stmts, i, env, svc, w),
            semantics::exec_block(n, stmts, i, env, svc, later_world(w, tail)),
            tail,
        ),
    decreases n, 1nat, stmts.len() - i,
{
    reveal(semantics::exec_block);
    reveal(semantics::execute);
    let z = later_world(w, tail);
    if i < stmts.len() {
        again_execute(n, stmts[i as int], env, svc, w, tail);
        let (r, w1) = semantics::execute(n, stmts[i as int], env, svc, w);
        let (rz, z1) = semantics::execute(n, stmts[i as int], env, svc, z);
        if waits(r) {
            match rz {
                Err(_) => {},
                Ok(semantics::EffectM::Binding(name, v)) => {
                    go_block(n, stmts, i + 1, env.push((name, v)), svc, z1);
                    lemma_ahead_trans(
                        w1.m,
                        z1.m,
                        semantics::exec_block(n, stmts, i + 1, env.push((name, v)), svc, z1).1.m,
                    );
                },
                Ok(_) => {
                    go_block(n, stmts, i + 1, env, svc, z1);
                    lemma_ahead_trans(
                        w1.m,
                        z1.m,
                        semantics::exec_block(n, stmts, i + 1, env, svc, z1).1.m,
                    );
                },
            }
        } else {
            match r {
                Err(_) => {},
                Ok(semantics::EffectM::Binding(name, v)) => {
                    again_block(n, stmts, i + 1, env.push((name, v)), svc, w1, tail);
                },
                Ok(_) => {
                    again_block(n, stmts, i + 1, env, svc, w1, tail);
                },
            }
        }
    }
}

proof fn again_remote_action(
    n: nat,
    id: Seq<char>,
    stmts: Seq<ActionStmtM<Symbol>>,
    env: EnvM,
    w: World,
    tail: Seq<IncomingM>,
)
    requires
        marked(tail),
    ensures
        agree(
            semantics::remote_action(n, id, stmts, env, w),
            semantics::remote_action(n, id, stmts, env, later_world(w, tail)),
            tail,
        ),
    decreases n, 6nat, 0nat,
{
    reveal(semantics::remote_action);
    reveal(semantics::send_and_await);
    let z = later_world(w, tail);
    let (addr, slug) = model::split_net_id(id);
    let rid = w.m.next_action_id;
    let m1 = ManagerM { next_action_id: rid.wrapping_add(1), ..w.m };
    assert(ManagerM { next_action_id: rid.wrapping_add(1), ..z.m } == later(m1, tail));
    assert(model::reply_addr(later(m1, tail)) == model::reply_addr(m1));
    let net_stmts = renaming::map_stmts(wire::naming(m1.interner), stmts);
    let net_env = semantics::action_env(m1, env);
    if semantics::action_log(net_stmts, net_env).err is None {
        let msg = MessageM::ActionRequest {
            request_id: rid,
            service: slug,
            stmts: net_stmts,
            env: net_env,
            reply_to: model::reply_addr(m1),
            txn_id: model::txn_id(w.t),
        };
        let late = "Timeout waiting for remote action on service '"@ + slug + "'"@;
        again_send_and_await(n, addr, msg, rid, late, m1, tail);
    }
}

proof fn go_commit_all(
    n: nat,
    addrs: Seq<Seq<char>>,
    i: nat,
    tid: TxnId,
    failed: Option<ErrM>,
    m: ManagerM,
)
    ensures
        ahead(m, transactions::commit_all(n, addrs, i, tid, failed, m).1),
    decreases addrs.len() - i,
{
    lemma_ahead_refl(m);
    if i < addrs.len() {
        let rid = m.next_commit_id;
        let m0 = ManagerM { next_commit_id: rid.wrapping_add(1), ..m };
        lemma_ahead_fields(m, m0);
        go_send_and_await(
            n,
            addrs[i as int],
            MessageM::Commit { request_id: rid, txn_id: tid, reply_to: model::reply_addr(m) },
            rid,
            "Timeout waiting for commit acknowledgement"@,
            m0,
        );
        let (r, m1) = transactions::send_commit(n, addrs[i as int], tid, m);
        lemma_ahead_trans(m, m0, m1);
        let next = match r {
            Err(x) => Some(x),
            Ok(_) => failed,
        };
        go_commit_all(n, addrs, i + 1, tid, next, m1);
        lemma_ahead_trans(m, m1, transactions::commit_all(n, addrs, i + 1, tid, next, m1).1);
    }
}

proof fn go_abort_all(n: nat, addrs: Seq<Seq<char>>, i: nat, tid: TxnId, m: ManagerM)
    ensures
        ahead(m, transactions::abort_all(n, addrs, i, tid, m).1),
    decreases addrs.len() - i,
{
    lemma_ahead_refl(m);
    if i < addrs.len() {
        let rid = m.next_abort_id;
        let m0 = ManagerM { next_abort_id: rid.wrapping_add(1), ..m };
        lemma_ahead_fields(m, m0);
        go_send_and_await(
            n,
            addrs[i as int],
            MessageM::Abort { request_id: rid, txn_id: tid, reply_to: model::reply_addr(m) },
            rid,
            "Timeout waiting for abort acknowledgement"@,
            m0,
        );
        let (r, m1) = transactions::send_abort(n, addrs[i as int], tid, m);
        lemma_ahead_trans(m, m0, m1);
        go_abort_all(n, addrs, i + 1, tid, m1);
        lemma_ahead_trans(m, m1, transactions::abort_all(n, addrs, i + 1, tid, m1).1);
    }
}

proof fn go_propagate_writes(
    n: nat,
    writes: Seq<(KeyM, ValueM<Symbol>)>,
    i: nat,
    m: ManagerM,
)
    ensures
        ahead(m, transactions::propagate_writes(n, writes, i, m).1),
    decreases writes.len() - i,
{
    lemma_ahead_refl(m);
    if i < writes.len() {
        match model::name_for_id(m, writes[i as int].0.0) {
            None => {
                go_propagate_writes(n, writes, i + 1, m);
            },
            Some(svc) => {
                let one = seq![(svc, writes[i as int].0.1)];
                go_propagate(n, one, m);
                let m1 = semantics::propagate(n, one, m).1;
                go_propagate_writes(n, writes, i + 1, m1);
                lemma_ahead_trans(
                    m,
                    m1,
                    transactions::propagate_writes(n, writes, i + 1, m1).1,
                );
            },
        }
    }
}

/// Storing writes sends nothing, and is not changed by what is in the inbox.
proof fn lemma_store_later(
    m: ManagerM,
    writes: Seq<(KeyM, ValueM<Symbol>)>,
    tid: TxnId,
    n: nat,
    tail: Seq<IncomingM>,
)
    ensures
        ahead(m, transactions::store_writes(m, writes, tid, n)),
        transactions::store_writes(later(m, tail), writes, tid, n) == later(
            transactions::store_writes(m, writes, tid, n),
            tail,
        ),
    decreases n,
{
    lemma_ahead_refl(m);
    if n > 0 {
        let k = (n - 1) as nat;
        lemma_store_later(m, writes, tid, k, tail);
        let u = transactions::store_writes(m, writes, tid, k);
        let w = transactions::store_one(u, writes[n - 1], tid);
        lemma_ahead_fields(u, w);
        lemma_ahead_trans(m, u, w);
        assert(transactions::store_one(later(u, tail), writes[n - 1], tid) == later(w, tail));
    }
}

/// Letting go of locks sends nothing, and is not changed by what is in the
/// inbox.
proof fn lemma_release_later(
    m: ManagerM,
    locked: Seq<KeyM>,
    t: TxnId,
    n: nat,
    tail: Seq<IncomingM>,
)
    ensures
        ahead(m, model::release_all(m, locked, t, n)),
        model::release_all(later(m, tail), locked, t, n) == later(
            model::release_all(m, locked, t, n),
            tail,
        ),
    decreases n,
{
    lemma_ahead_refl(m);
    if n > 0 {
        let k = (n - 1) as nat;
        lemma_release_later(m, locked, t, k, tail);
        let u = model::release_all(m, locked, t, k);
        let w = model::release_all(m, locked, t, n);
        lemma_ahead_fields(u, w);
        lemma_ahead_trans(m, u, w);
        assert(model::name_for_id(later(u, tail), locked[n - 1].0) == model::name_for_id(
            u,
            locked[n - 1].0,
        ));
    }
}

proof fn go_commit(n: nat, t: TxnM, m: ManagerM)
    ensures
        ahead(m, transactions::commit(n, t, m).1),
{
    let none: Seq<IncomingM> = seq![];
    let u = transactions::store_writes(m, t.written, t.id, t.written.len());
    lemma_store_later(m, t.written, t.id, t.written.len(), none);
    go_propagate_writes(n, t.written, 0, u);
    let (r, m1) = transactions::apply_writes(n, t, m);
    lemma_ahead_trans(m, u, m1);
    if r is Ok {
        go_commit_all(n, t.participants, 0, t.id, None, m1);
        let (c, m2) = transactions::commit_all(n, t.participants, 0, t.id, None, m1);
        lemma_ahead_trans(m, m1, m2);
        lemma_release_later(m2, t.locked, t.id, t.locked.len(), none);
        lemma_ahead_trans(m, m2, transactions::unlock(m2, t));
    }
}

proof fn go_rollback(n: nat, t: TxnM, m: ManagerM)
    ensures
        ahead(m, transactions::rollback(n, t, m).1),
{
    go_abort_all(n, t.participants, 0, t.id, m);
    let m1 = transactions::abort_all(n, t.participants, 0, t.id, m).1;
    lemma_release_later(m1, t.locked, t.id, t.locked.len(), seq![]);
    lemma_ahead_trans(m, m1, transactions::unlock(m1, t));
}

/// Running a transaction only sends more.
proof fn go_run(
    n: nat,
    svc: Symbol,
    stmts: Seq<ActionStmtM<Symbol>>,
    env: EnvM,
    tid: TxnId,
    m: ManagerM,
)
    ensures
        ahead(
            semantics::exec_block(
                n,
                stmts,
                0,
                env,
                svc,
                World { m, t: Some(txn::fresh_txn(tid)) },
            ).1.m,
            transactions::run_txn(n, svc, stmts, env, tid, m).1,
        ),
        ahead(m, transactions::run_txn(n, svc, stmts, env, tid, m).1),
    decreases MAX_WAIT_DIE_RETRIES - tid.iteration,
{
    let w0 = World { m, t: Some(txn::fresh_txn(tid)) };
    go_block(n, stmts, 0, env, svc, w0);
    let (r, w) = semantics::exec_block(n, stmts, 0, env, svc, w0);
    let t = transactions::txn_or(w.t, tid);
    let z = transactions::run_txn(n, svc, stmts, env, tid, m).1;
    lemma_ahead_refl(w.m);
    match r {
        Ok(_) => {
            go_commit(n, t, w.m);
        },
        Err(ErrM::Suspended) => {},
        Err(e) => {
            go_rollback(n, t, w.m);
            let (a, m1) = transactions::rollback(n, t, w.m);
            if a is Ok && e is WaitDieAbort && tid.iteration < MAX_WAIT_DIE_RETRIES {
                let next = TxnId { iteration: (tid.iteration + 1) as u32, ..tid };
                go_run(n, svc, stmts, env, next, m1);
                lemma_ahead_trans(w.m, m1, z);
            }
        },
    }
    lemma_ahead_trans(m, w.m, z);
}

proof fn again_commit_all(
    n: nat,
    addrs: Seq<Seq<char>>,
    i: nat,
    tid: TxnId,
    failed: Option<ErrM>,
    m: ManagerM,
    tail: Seq<IncomingM>,
)
    requires
        marked(tail),
    ensures
        agrees(
            transactions::commit_all(n, addrs, i, tid, failed, m),
            transactions::commit_all(n, addrs, i, tid, failed, later(m, tail)),
            tail,
        ),
    decreases addrs.len() - i,
{
    if i < addrs.len() {
        let rid = m.next_commit_id;
        let m0 = ManagerM { next_commit_id: rid.wrapping_add(1), ..m };
        assert(ManagerM { next_commit_id: rid.wrapping_add(1), ..later(m, tail) } == later(
            m0,
            tail,
        ));
        assert(model::reply_addr(later(m, tail)) == model::reply_addr(m));
        again_send_and_await(
            n,
            addrs[i as int],
            MessageM::Commit { request_id: rid, txn_id: tid, reply_to: model::reply_addr(m) },
            rid,
            "Timeout waiting for commit acknowledgement"@,
            m0,
            tail,
        );
        let (r, m1) = transactions::send_commit(n, addrs[i as int], tid, m);
        let (rz, z1) = transactions::send_commit(n, addrs[i as int], tid, later(m, tail));
        if waits(r) {
            let next = match rz {
                Err(x) => Some(x),
                Ok(_) => failed,
            };
            go_commit_all(n, addrs, i + 1, tid, next, z1);
            lemma_ahead_trans(
                m1,
                z1,
                transactions::commit_all(n, addrs, i + 1, tid, next, z1).1,
            );
        } else {
            let next = match r {
                Err(x) => Some(x),
                Ok(_) => failed,
            };
            again_commit_all(n, addrs, i + 1, tid, next, m1, tail);
        }
    }
}

proof fn again_abort_all(
    n: nat,
    addrs: Seq<Seq<char>>,
    i: nat,
    tid: TxnId,
    m: ManagerM,
    tail: Seq<IncomingM>,
)
    requires
        marked(tail),
    ensures
        agrees(
            transactions::abort_all(n, addrs, i, tid, m),
            transactions::abort_all(n, addrs, i, tid, later(m, tail)),
            tail,
        ),
    decreases addrs.len() - i,
{
    if i < addrs.len() {
        let rid = m.next_abort_id;
        let m0 = ManagerM { next_abort_id: rid.wrapping_add(1), ..m };
        assert(ManagerM { next_abort_id: rid.wrapping_add(1), ..later(m, tail) } == later(
            m0,
            tail,
        ));
        assert(model::reply_addr(later(m, tail)) == model::reply_addr(m));
        again_send_and_await(
            n,
            addrs[i as int],
            MessageM::Abort { request_id: rid, txn_id: tid, reply_to: model::reply_addr(m) },
            rid,
            "Timeout waiting for abort acknowledgement"@,
            m0,
            tail,
        );
        let (r, m1) = transactions::send_abort(n, addrs[i as int], tid, m);
        let (rz, z1) = transactions::send_abort(n, addrs[i as int], tid, later(m, tail));
        if waits(r) {
            go_abort_all(n, addrs, i + 1, tid, z1);
            lemma_ahead_trans(m1, z1, transactions::abort_all(n, addrs, i + 1, tid, z1).1);
        } else {
            again_abort_all(n, addrs, i + 1, tid, m1, tail);
        }
    }
}

proof fn again_propagate_writes(
    n: nat,
    writes: Seq<(KeyM, ValueM<Symbol>)>,
    i: nat,
    m: ManagerM,
    tail: Seq<IncomingM>,
)
    requires
        marked(tail),
    ensures
        agrees(
            transactions::propagate_writes(n, writes, i, m),
            transactions::propagate_writes(n, writes, i, later(m, tail)),
            tail,
        ),
    decreases writes.len() - i,
{
    if i < writes.len() {
        let id = writes[i as int].0.0;
        assert(model::name_for_id(later(m, tail), id) == model::name_for_id(m, id));
        match model::name_for_id(m, id) {
            None => {
                again_propagate_writes(n, writes, i + 1, m, tail);
            },
            Some(svc) => {
                let one = seq![(svc, writes[i as int].0.1)];
                again_propagate(n, one, m, tail);
                let (r, m1) = semantics::propagate(n, one, m);
                let (rz, z1) = semantics::propagate(n, one, later(m, tail));
                if waits(r) {
                    go_propagate_writes(n, writes, i + 1, z1);
                    lemma_ahead_trans(
                        m1,
                        z1,
                        transactions::propagate_writes(n, writes, i + 1, z1).1,
                    );
                } else {
                    again_propagate_writes(n, writes, i + 1, m1, tail);
                }
            },
        }
    }
}

/// Committing again agrees.
proof fn again_commit(n: nat, t: TxnM, m: ManagerM, tail: Seq<IncomingM>)
    requires
        marked(tail),
    ensures
        agrees(
            transactions::commit(n, t, m),
            transactions::commit(n, t, later(m, tail)),
            tail,
        ),
{
    let z = later(m, tail);
    let u = transactions::store_writes(m, t.written, t.id, t.written.len());
    lemma_store_later(m, t.written, t.id, t.written.len(), tail);
    again_propagate_writes(n, t.written, 0, u, tail);
    let (r, m1) = transactions::apply_writes(n, t, m);
    let (rz, z1) = transactions::apply_writes(n, t, z);
    if waits(r) {
        if rz is Ok {
            go_commit_all(n, t.participants, 0, t.id, None, z1);
            let z2 = transactions::commit_all(n, t.participants, 0, t.id, None, z1).1;
            lemma_ahead_trans(m1, z1, z2);
            lemma_release_later(z2, t.locked, t.id, t.locked.len(), tail);
            lemma_ahead_trans(m1, z2, transactions::unlock(z2, t));
        }
    } else if r is Ok {
        again_commit_all(n, t.participants, 0, t.id, None, m1, tail);
        let (c, m2) = transactions::commit_all(n, t.participants, 0, t.id, None, m1);
        let (cz, z2) = transactions::commit_all(n, t.participants, 0, t.id, None, z1);
        lemma_release_later(m2, t.locked, t.id, t.locked.len(), tail);
        if waits(c) {
            lemma_release_later(z2, t.locked, t.id, t.locked.len(), tail);
            lemma_ahead_trans(m2, z2, transactions::unlock(z2, t));
        }
    }
}

/// Giving up again agrees.
proof fn again_rollback(n: nat, t: TxnM, m: ManagerM, tail: Seq<IncomingM>)
    requires
        marked(tail),
    ensures
        agrees(
            transactions::rollback(n, t, m),
            transactions::rollback(n, t, later(m, tail)),
            tail,
        ),
{
    again_abort_all(n, t.participants, 0, t.id, m, tail);
    let (r, m1) = transactions::abort_all(n, t.participants, 0, t.id, m);
    let (rz, z1) = transactions::abort_all(n, t.participants, 0, t.id, later(m, tail));
    lemma_release_later(m1, t.locked, t.id, t.locked.len(), tail);
    if waits(r) {
        lemma_release_later(z1, t.locked, t.id, t.locked.len(), tail);
        lemma_ahead_trans(m1, z1, transactions::unlock(z1, t));
    }
}

/// A transaction that is run again, from the same state but with more in the
/// inbox, does what it did. If it did not have to wait, it has the same result
/// and leaves the same state, and what was appended to the inbox is still
/// there. If it had to wait, what it had sent is what it sends first, in the
/// same order.
pub proof fn law_rerun_repeats(
    n: nat,
    svc: Symbol,
    stmts: Seq<ActionStmtM<Symbol>>,
    env: EnvM,
    tid: TxnId,
    m: ManagerM,
    tail: Seq<IncomingM>,
)
    requires
        marked(tail),
    ensures
        agrees(
            transactions::run_txn(n, svc, stmts, env, tid, m),
            transactions::run_txn(n, svc, stmts, env, tid, later(m, tail)),
            tail,
        ),
    decreases MAX_WAIT_DIE_RETRIES - tid.iteration,
{
    let w0 = World { m, t: Some(txn::fresh_txn(tid)) };
    let z0 = later_world(w0, tail);
    again_block(n, stmts, 0, env, svc, w0, tail);
    let (r, w) = semantics::exec_block(n, stmts, 0, env, svc, w0);
    let (rz, z) = semantics::exec_block(n, stmts, 0, env, svc, z0);
    let t = transactions::txn_or(w.t, tid);
    match r {
        Ok(_) => {
            again_commit(n, t, w.m, tail);
        },
        Err(ErrM::Suspended) => {
            go_run(n, svc, stmts, env, tid, later(m, tail));
            lemma_ahead_trans(
                w.m,
                z.m,
                transactions::run_txn(n, svc, stmts, env, tid, later(m, tail)).1,
            );
        },
        Err(e) => {
            again_rollback(n, t, w.m, tail);
            let (a, m1) = transactions::rollback(n, t, w.m);
            let (az, z1) = transactions::rollback(n, t, z.m);
            let next = TxnId { iteration: (tid.iteration + 1) as u32, ..tid };
            if e is WaitDieAbort && tid.iteration < MAX_WAIT_DIE_RETRIES {
                if waits(a) {
                    go_run(n, svc, stmts, env, next, z1);
                    lemma_ahead_trans(
                        m1,
                        z1,
                        transactions::run_txn(n, svc, stmts, env, next, z1).1,
                    );
                } else if a is Ok {
                    law_rerun_repeats(n, svc, stmts, env, next, m1, tail);
                }
            }
        },
    }
}

/// A member that is read again, with more in the inbox, is read in the same
/// way: with the same outcome, or, where that had to be waited for, with the
/// same messages first.
pub proof fn law_reread_repeats(
    n: nat,
    var: Symbol,
    svc: Symbol,
    w: World,
    tail: Seq<IncomingM>,
)
    requires
        marked(tail),
    ensures
        agree(
            semantics::lookup(n, var, svc, w),
            semantics::lookup(n, var, svc, later_world(w, tail)),
            tail,
        ),
{
    again_lookup(n, var, svc, w, tail);
}

/// The state of a node after one declaration took effect.
pub open spec fn with_decl(
    d: DeclM<Symbol>,
    svc: Symbol,
    v: ValueM<Symbol>,
    tid: TxnId,
    m: ManagerM,
) -> ManagerM {
    match d {
        DeclM::TableDecl { name, fields } => m,
        DeclM::VarDecl { name, ty, val } => transactions::with_member(m, svc, name, v, tid),
        DeclM::DefDecl { name, ty, val, is_pub } => transactions::with_def(
            transactions::with_member(m, svc, name, v, tid),
            svc,
            name,
            val,
        ),
    }
}

proof fn lemma_decl_later(
    d: DeclM<Symbol>,
    svc: Symbol,
    v: ValueM<Symbol>,
    tid: TxnId,
    m: ManagerM,
    tail: Seq<IncomingM>,
)
    ensures
        with_decl(d, svc, v, tid, later(m, tail)) == later(with_decl(d, svc, v, tid, m), tail),
        ahead(m, with_decl(d, svc, v, tid, m)),
{
    if let DeclM::DefDecl { name, ty, val, is_pub } = d {
        let u = transactions::with_member(m, svc, name, v, tid);
        assert(transactions::with_member(later(m, tail), svc, name, v, tid) == later(u, tail));
    }
}

proof fn go_init(
    n: nat,
    svc: Symbol,
    decls: Seq<DeclM<Symbol>>,
    i: nat,
    env: EnvM,
    tid: TxnId,
    w: World,
)
    ensures
        ahead(w.m, transactions::init_decls(n, svc, decls, i, env, tid, w).1.m),
    decreases decls.len() - i,
{
    lemma_ahead_refl(w.m);
    if i < decls.len() && !(decls[i as int] is TableDecl) {
        let d = decls[i as int];
        let (name, val) = match d {
            DeclM::VarDecl { name, ty, val } => (name, val),
            DeclM::DefDecl { name, ty, val, is_pub } => (name, val),
            DeclM::TableDecl { name, fields } => arbitrary(),
        };
        go_eval(n, val, env, svc, w);
        let (r, w1) = semantics::eval(n, val, env, svc, w);
        if let Ok(v) = r {
            let w2 = World { m: with_decl(d, svc, v, tid, w1.m), ..w1 };
            lemma_decl_later(d, svc, v, tid, w1.m, seq![]);
            lemma_ahead_trans(w.m, w1.m, w2.m);
            go_init(n, svc, decls, i + 1, env.push((name, v)), tid, w2);
            lemma_ahead_trans(
                w.m,
                w2.m,
                transactions::init_decls(
                    n,
                    svc,
                    decls,
                    i + 1,
                    env.push((name, v)),
                    tid,
                    w2,
                ).1.m,
            );
        }
    }
}

proof fn again_init(
    n: nat,
    svc: Symbol,
    decls: Seq<DeclM<Symbol>>,
    i: nat,
    env: EnvM,
    tid: TxnId,
    w: World,
    tail: Seq<IncomingM>,
)
    requires
        marked(tail),
    ensures
        agree(
            transactions::init_decls(n, svc, decls, i, env, tid, w),
            transactions::init_decls(n, svc, decls, i, env, tid, later_world(w, tail)),
            tail,
        ),
    decreases decls.len() - i,
{
    let z = later_world(w, tail);
    if i < decls.len() && !(decls[i as int] is TableDecl) {
        let d = decls[i as int];
        let (name, val) = match d {
            DeclM::VarDecl { name, ty, val } => (name, val),
            DeclM::DefDecl { name, ty, val, is_pub } => (name, val),
            DeclM::TableDecl { name, fields } => arbitrary(),
        };
        again_eval(n, val, env, svc, w, tail);
        let (r, w1) = semantics::eval(n, val, env, svc, w);
        let (rz, z1) = semantics::eval(n, val, env, svc, z);
        if waits(r) {
            if let Ok(v) = rz {
                let z2 = World { m: with_decl(d, svc, v, tid, z1.m), ..z1 };
                lemma_decl_later(d, svc, v, tid, z1.m, tail);
                lemma_ahead_trans(w1.m, z1.m, z2.m);
                go_init(n, svc, decls, i + 1, env.push((name, v)), tid, z2);
                lemma_ahead_trans(
                    w1.m,
                    z2.m,
                    transactions::init_decls(
                        n,
                        svc,
                        decls,
                        i + 1,
                        env.push((name, v)),
                        tid,
                        z2,
                    ).1.m,
                );
            }
        } else if let Ok(v) = r {
            let w2 = World { m: with_decl(d, svc, v, tid, w1.m), ..w1 };
            lemma_decl_later(d, svc, v, tid, w1.m, tail);
            again_init(n, svc, decls, i + 1, env.push((name, v)), tid, w2, tail);
        }
    }
}

proof fn lemma_listen_later(
    m: ManagerM,
    es: Seq<(Symbol, Symbol, Symbol)>,
    id: Seq<char>,
    n: nat,
    tail: Seq<IncomingM>,
)
    ensures
        ahead(m, transactions::listen(m, es, id, n)),
        transactions::listen(later(m, tail), es, id, n) == later(
            transactions::listen(m, es, id, n),
            tail,
        ),
    decreases n,
{
    lemma_ahead_refl(m);
    if n > 0 {
        let k = (n - 1) as nat;
        lemma_listen_later(m, es, id, k, tail);
        let u = transactions::listen(m, es, id, k);
        let w = transactions::listen(m, es, id, n);
        let (owner, member, def) = es[n - 1];
        assert(model::remote_addr(later(u, tail), owner) == model::remote_addr(u, owner));
        assert(model::reply_addr(later(u, tail)) == model::reply_addr(u));
        assert(model::subscribe(later(u, tail), owner, member, id, def) == later(
            model::subscribe(u, owner, member, id, def),
            tail,
        ));
        lemma_ahead_fields(u, w);
        lemma_ahead_trans(m, u, w);
    }
}

proof fn lemma_listen_all_later(m: ManagerM, svc: Symbol, tail: Seq<IncomingM>)
    ensures
        ahead(m, transactions::listen_all(m, svc)),
        transactions::listen_all(later(m, tail), svc) == later(
            transactions::listen_all(m, svc),
            tail,
        ),
{
    lemma_ahead_refl(m);
    if let Some(s) = table::get(m.services, svc) {
        let es = transactions::edges(s, svc);
        lemma_listen_later(m, es, s.id, es.len(), tail);
    }
}

/// What follows on the declarations of a service: it is made known, or taken
/// back.
pub open spec fn finish_create(
    n: nat,
    svc: Symbol,
    tid: TxnId,
    made: (Result<(), ErrM>, World),
) -> (Result<(), ErrM>, ManagerM) {
    let (r, w) = made;
    let t = transactions::txn_or(w.t, tid);
    match r {
        Err(ErrM::Suspended) => (Err(ErrM::Suspended), w.m),
        Ok(_) => {
            let (a, m2) = transactions::apply_writes(n, t, w.m);
            match a {
                Err(x) => (Err(x), m2),
                Ok(_) => {
                    let (c, m3) = transactions::commit_all(n, t.participants, 0, t.id, None, m2);
                    match c {
                        Err(x) => (Err(x), m3),
                        Ok(_) => (
                            Ok(()),
                            transactions::unlock(transactions::listen_all(m3, svc), t),
                        ),
                    }
                },
            }
        },
        Err(e) => {
            let (a, m2) = transactions::abort_all(n, t.participants, 0, t.id, w.m);
            match a {
                Err(x) => (Err(x), m2),
                Ok(_) => (
                    Err(e),
                    transactions::unlock(
                        ManagerM { services: table::without(m2.services, svc), ..m2 },
                        t,
                    ),
                ),
            }
        },
    }
}

proof fn go_finish(n: nat, svc: Symbol, tid: TxnId, made: (Result<(), ErrM>, World))
    ensures
        ahead(made.1.m, finish_create(n, svc, tid, made).1),
{
    let none: Seq<IncomingM> = seq![];
    let (r, w) = made;
    let t = transactions::txn_or(w.t, tid);
    lemma_ahead_refl(w.m);
    match r {
        Err(ErrM::Suspended) => {},
        Ok(_) => {
            let u = transactions::store_writes(w.m, t.written, t.id, t.written.len());
            lemma_store_later(w.m, t.written, t.id, t.written.len(), none);
            go_propagate_writes(n, t.written, 0, u);
            let (a, m2) = transactions::apply_writes(n, t, w.m);
            lemma_ahead_trans(w.m, u, m2);
            go_commit_all(n, t.participants, 0, t.id, None, m2);
            let m3 = transactions::commit_all(n, t.participants, 0, t.id, None, m2).1;
            lemma_ahead_trans(w.m, m2, m3);
            let m4 = transactions::listen_all(m3, svc);
            lemma_listen_all_later(m3, svc, none);
            lemma_ahead_trans(w.m, m3, m4);
            lemma_release_later(m4, t.locked, t.id, t.locked.len(), none);
            lemma_ahead_trans(w.m, m4, transactions::unlock(m4, t));
        },
        Err(e) => {
            go_abort_all(n, t.participants, 0, t.id, w.m);
            let m2 = transactions::abort_all(n, t.participants, 0, t.id, w.m).1;
            let m3 = ManagerM { services: table::without(m2.services, svc), ..m2 };
            lemma_ahead_fields(m2, m3);
            lemma_ahead_trans(w.m, m2, m3);
            lemma_release_later(m3, t.locked, t.id, t.locked.len(), none);
            lemma_ahead_trans(w.m, m3, transactions::unlock(m3, t));
        },
    }
}

proof fn again_finish(
    n: nat,
    svc: Symbol,
    tid: TxnId,
    r: Result<(), ErrM>,
    w: World,
    tail: Seq<IncomingM>,
)
    requires
        marked(tail),
        !waits(r),
    ensures
        agrees(
            finish_create(n, svc, tid, (r, w)),
            finish_create(n, svc, tid, (r, later_world(w, tail))),
            tail,
        ),
{
    let z = later_world(w, tail);
    let t = transactions::txn_or(w.t, tid);
    match r {
        Ok(_) => {
            let u = transactions::store_writes(w.m, t.written, t.id, t.written.len());
            lemma_store_later(w.m, t.written, t.id, t.written.len(), tail);
            again_propagate_writes(n, t.written, 0, u, tail);
            let (a, m2) = transactions::apply_writes(n, t, w.m);
            let (az, z2) = transactions::apply_writes(n, t, z.m);
            let (cz, z3) = transactions::commit_all(n, t.participants, 0, t.id, None, z2);
            let z4 = transactions::listen_all(z3, svc);
            go_commit_all(n, t.participants, 0, t.id, None, z2);
            lemma_listen_all_later(z3, svc, tail);
            lemma_release_later(z4, t.locked, t.id, t.locked.len(), tail);
            lemma_ahead_trans(z3, z4, transactions::unlock(z4, t));
            if waits(a) {
                lemma_ahead_trans(m2, z2, z3);
                lemma_ahead_trans(m2, z3, transactions::unlock(z4, t));
            } else if a is Ok {
                again_commit_all(n, t.participants, 0, t.id, None, m2, tail);
                let (c, m3) = transactions::commit_all(n, t.participants, 0, t.id, None, m2);
                lemma_listen_all_later(m3, svc, tail);
                let m4 = transactions::listen_all(m3, svc);
                lemma_release_later(m4, t.locked, t.id, t.locked.len(), tail);
                if waits(c) {
                    lemma_ahead_trans(m3, z3, transactions::unlock(z4, t));
                }
            }
        },
        Err(e) => {
            again_abort_all(n, t.participants, 0, t.id, w.m, tail);
            let (a, m2) = transactions::abort_all(n, t.participants, 0, t.id, w.m);
            let (az, z2) = transactions::abort_all(n, t.participants, 0, t.id, z.m);
            let m3 = ManagerM { services: table::without(m2.services, svc), ..m2 };
            let z3 = ManagerM { services: table::without(z2.services, svc), ..z2 };
            lemma_release_later(m3, t.locked, t.id, t.locked.len(), tail);
            if waits(a) {
                lemma_ahead_fields(z2, z3);
                lemma_ahead_trans(m2, z2, z3);
                lemma_release_later(z3, t.locked, t.id, t.locked.len(), tail);
                lemma_ahead_trans(m2, z3, transactions::unlock(z3, t));
            } else {
                assert(z3 == later(m3, tail));
            }
        },
    }
}

/// A service that is created again, from the same state but with more in the
/// inbox, is created in the same way: with the same outcome, or, where that
/// had to be waited for, with the same messages first.
pub proof fn law_recreate_repeats(
    n: nat,
    svc: Symbol,
    decls: Seq<DeclM<Symbol>>,
    dep: DepM,
    m: ManagerM,
    tail: Seq<IncomingM>,
)
    requires
        marked(tail),
    ensures
        agrees(
            transactions::create(n, svc, decls, dep, m),
            transactions::create(n, svc, decls, dep, later(m, tail)),
            tail,
        ),
{
    let tid = transactions::next_txn_id(m);
    let s0 = transactions::empty_service(m, svc, dep);
    let m1 = transactions::ticked(model::with_service(m, svc, s0));
    assert(transactions::ticked(model::with_service(later(m, tail), svc, s0)) == later(m1, tail));
    let w0 = World { m: m1, t: Some(txn::fresh_txn(tid)) };
    let z0 = later_world(w0, tail);
    again_init(n, svc, decls, 0, seq![], tid, w0, tail);
    let (r, w) = transactions::init_decls(n, svc, decls, 0, seq![], tid, w0);
    let (rz, z) = transactions::init_decls(n, svc, decls, 0, seq![], tid, z0);
    assert(transactions::create(n, svc, decls, dep, m) == finish_create(n, svc, tid, (r, w)));
    assert(transactions::create(n, svc, decls, dep, later(m, tail)) == finish_create(
        n,
        svc,
        tid,
        (rz, z),
    ));
    if waits(r) {
        go_finish(n, svc, tid, (rz, z));
        lemma_ahead_trans(w.m, z.m, finish_create(n, svc, tid, (rz, z)).1);
    } else {
        again_finish(n, svc, tid, r, w, tail);
    }
}

} // verus!
