//! How transactions end on the nodes that take part.

use crate::net::messages::{EventM, MessageM};
use crate::net::wire;
use crate::runtime::ast::model::{ActionStmtM, ExprM, ValueM};
use crate::runtime::ast::renaming;
use crate::runtime::interner;
use crate::runtime::interner::Symbol;
use crate::runtime::interpreter::evaluator::ErrM;
use crate::runtime::manager::laws;
use crate::runtime::manager::model;
use crate::runtime::manager::model::{EnvM, IncomingM, KeyM, ManagerM, ServiceM, World};
use crate::runtime::manager::semantics;
use crate::runtime::manager::transactions;
use crate::runtime::manager::transactions::MAX_WAIT_DIE_RETRIES;
use crate::runtime::semantic_analysis::var_analysis::read_write;
use crate::runtime::table;
use crate::runtime::txn;
use crate::runtime::txn::{TxnId, TxnM, VarStateM};
use vstd::prelude::*;

verus! {

/// The messages that a node has sent, with where they went.
pub open spec fn sent(m: ManagerM) -> Seq<(Seq<char>, MessageM)> {
    match m.network {
        Some(p) => p.sent,
        None => seq![],
    }
}

/// The transaction under which a message asks another node to do something.
pub open spec fn asked_under(x: MessageM) -> Option<TxnId> {
    match x {
        MessageM::LookupRequest { txn_id, .. } => txn_id,
        MessageM::ActionRequest { txn_id, .. } => txn_id,
        _ => None,
    }
}

/// The transaction that a message tells another node to commit.
pub open spec fn commits(x: MessageM) -> Option<TxnId> {
    match x {
        MessageM::Commit { txn_id, .. } => Some(txn_id),
        _ => None,
    }
}

/// The transaction that a message tells another node to abort.
pub open spec fn aborts(x: MessageM) -> Option<TxnId> {
    match x {
        MessageM::Abort { txn_id, .. } => Some(txn_id),
        _ => None,
    }
}

/// Whether what a node had sent is the beginning of what it has sent.
pub open spec fn goes_on(a: ManagerM, b: ManagerM) -> bool {
    &&& (b.network is Some) == (a.network is Some)
    &&& sent(a).len() <= sent(b).len()
    &&& forall|i: int| 0 <= i < sent(a).len() ==> #[trigger] sent(b)[i] == sent(a)[i]
}

/// Whether a run told no other node to commit or to abort, and asked none for
/// something under a transaction but those in `to` under `t`.
#[verifier::opaque]
pub open spec fn told(a: ManagerM, b: ManagerM, t: Option<TxnId>, to: Seq<Seq<char>>) -> bool {
    &&& goes_on(a, b)
    &&& forall|i: int|
        sent(a).len() <= i < sent(b).len() ==> {
            let x = #[trigger] sent(b)[i];
            &&& commits(x.1) is None
            &&& aborts(x.1) is None
            &&& asked_under(x.1) matches Some(q) ==> Some(q) == t && to.contains(x.0)
        }
}

/// Whether a run did none of that under any transaction.
pub open spec fn silent(a: ManagerM, b: ManagerM) -> bool {
    told(a, b, None, seq![])
}

/// The nodes that take part in a transaction.
pub open spec fn partners(t: Option<TxnM>) -> Seq<Seq<char>> {
    match t {
        Some(x) => x.participants,
        None => seq![],
    }
}

/// Whether a run ended no transaction, and all nodes that it asked for
/// something under its own take part in it by then.
pub open spec fn spoke(a: World, b: World) -> bool {
    &&& told(a.m, b.m, model::txn_id(a.t), partners(b.t))
    &&& model::txn_id(b.t) == model::txn_id(a.t)
    &&& forall|p: Seq<char>| #[trigger] partners(a.t).contains(p) ==> partners(b.t).contains(p)
}

proof fn lemma_silent_same(a: ManagerM, b: ManagerM)
    requires
        sent(b) == sent(a),
        (b.network is Some) == (a.network is Some),
    ensures
        silent(a, b),
{
    reveal(told);
}

proof fn lemma_silent_trans(a: ManagerM, b: ManagerM, c: ManagerM)
    requires
        silent(a, b),
        silent(b, c),
    ensures
        silent(a, c),
{
    reveal(told);
    assert forall|i: int| 0 <= i < sent(a).len() implies #[trigger] sent(c)[i] == sent(a)[i] by {
        assert(sent(b)[i] == sent(a)[i]);
    }
    assert forall|i: int| sent(a).len() <= i < sent(c).len() implies {
        let x = #[trigger] sent(c)[i];
        commits(x.1) is None && aborts(x.1) is None && asked_under(x.1) is None
    } by {
        if i < sent(b).len() {
            assert(sent(c)[i] == sent(b)[i]);
        }
    }
}

proof fn lemma_spoke_refl(a: World)
    ensures
        spoke(a, a),
{
    reveal(told);
}

proof fn lemma_spoke_trans(a: World, b: World, c: World)
    requires
        spoke(a, b),
        spoke(b, c),
    ensures
        spoke(a, c),
{
    reveal(told);
    assert forall|i: int| 0 <= i < sent(a.m).len() implies #[trigger] sent(c.m)[i] == sent(
        a.m,
    )[i] by {
        assert(sent(b.m)[i] == sent(a.m)[i]);
    }
    assert forall|i: int| sent(a.m).len() <= i < sent(c.m).len() implies {
        let x = #[trigger] sent(c.m)[i];
        &&& commits(x.1) is None
        &&& aborts(x.1) is None
        &&& asked_under(x.1) matches Some(q) ==> Some(q) == model::txn_id(a.t) && partners(
            c.t,
        ).contains(x.0)
    } by {
        if i < sent(b.m).len() {
            assert(sent(c.m)[i] == sent(b.m)[i]);
        }
    }
}

/// A run that leaves the transaction alone.
proof fn lemma_spoke_silent(a: World, b: World)
    requires
        silent(a.m, b.m),
        b.t == a.t,
    ensures
        spoke(a, b),
{
    reveal(told);
}

/// A node takes part from now on.
proof fn lemma_spoke_joined(a: World, m: ManagerM, addr: Seq<char>)
    requires
        sent(m) == sent(a.m),
        (m.network is Some) == (a.m.network is Some),
    ensures
        spoke(a, World { m, t: model::with_participant(a.t, addr) }),
{
    reveal(told);
    lemma_joined(a.t, addr);
}

proof fn lemma_joined(t: Option<TxnM>, addr: Seq<char>)
    ensures
        t is Some ==> partners(model::with_participant(t, addr)).contains(addr),
        forall|p: Seq<char>| #[trigger]
            partners(t).contains(p) ==> partners(model::with_participant(t, addr)).contains(p),
{
    if let Some(x) = t {
        let v = model::with_participant(t, addr)->Some_0.participants;
        if !x.participants.contains(addr) {
            assert(v[x.participants.len() as int] == addr);
        }
        assert forall|p: Seq<char>| #[trigger] x.participants.contains(p) implies v.contains(p) by {
            let i = choose|i: int| 0 <= i < x.participants.len() && x.participants[i] == p;
            assert(v[i] == p);
        }
    }
}

/// A node takes part from now on, and has been asked for something.
proof fn lemma_spoke_asked(a: World, m: ManagerM, z: ManagerM, addr: Seq<char>, msg: MessageM)
    requires
        sent(m) == sent(a.m),
        (m.network is Some) == (a.m.network is Some),
        silent(model::send(m, addr, msg), z),
        commits(msg) is None,
        aborts(msg) is None,
        asked_under(msg) == model::txn_id(a.t),
    ensures
        spoke(a, World { m: z, t: model::with_participant(a.t, addr) }),
{
    reveal(told);
    lemma_joined(a.t, addr);
    let m1 = model::send(m, addr, msg);
    assert forall|i: int| 0 <= i < sent(a.m).len() implies #[trigger] sent(z)[i] == sent(
        a.m,
    )[i] by {
        assert(sent(z)[i] == sent(m1)[i]);
    }
    assert forall|i: int| sent(a.m).len() <= i < sent(z).len() implies {
        let x = #[trigger] sent(z)[i];
        &&& commits(x.1) is None
        &&& aborts(x.1) is None
        &&& asked_under(x.1) matches Some(q) ==> Some(q) == model::txn_id(a.t) && partners(
            model::with_participant(a.t, addr),
        ).contains(x.0)
    } by {
        if i < sent(m1).len() {
            assert(sent(z)[i] == sent(m1)[i]);
            assert(sent(m1)[i] == (addr, msg));
        }
    }
}

proof fn hear_local_read(var: Symbol, svc: Symbol, w: World)
    ensures
        spoke(w, model::local_read(var, svc, w).1),
{
    reveal(told);
}

proof fn hear_buffer_write(svc: Symbol, var: Symbol, value: ValueM<Symbol>, m: ManagerM, t: TxnM)
    ensures
        spoke(World { m, t: Some(t) }, model::buffer_write(svc, var, value, m, t).1),
{
    reveal(told);
}

proof fn lemma_silent_emit(m: ManagerM, l: Seq<char>, def: Symbol, svc: Symbol, member: Symbol)
    ensures
        silent(m, model::emit_update(m, l, def, svc, member)),
{
    reveal(told);
}

proof fn lemma_silent_request(
    m: ManagerM,
    svc: Symbol,
    member: Symbol,
    l: Seq<char>,
    def: Symbol,
    reply_to: Seq<char>,
)
    ensures
        silent(m, model::request_updates(m, svc, member, l, def, reply_to)),
{
    reveal(told);
}

/// Evaluating an expression ends no transaction.
pub proof fn hear_eval(n: nat, e: ExprM<Symbol>, env: EnvM, svc: Symbol, w: World)
    ensures
        spoke(w, semantics::eval(n, e, env, svc, w).1),
    decreases n, 0nat, 0nat,
{
    reveal(semantics::eval);
    reveal(semantics::eval_step);
    lemma_spoke_refl(w);
    if n > 0 {
        hear_eval_step((n - 1) as nat, e, env, svc, w);
    }
}

proof fn hear_eval_step(n: nat, e: ExprM<Symbol>, env: EnvM, svc: Symbol, w: World)
    ensures
        spoke(w, semantics::eval_step(n, e, env, svc, w).1),
    decreases n, 2nat, 0nat,
{
    reveal(semantics::eval_step);
    reveal(semantics::eval);
    reveal(semantics::eval_args);
    reveal(semantics::lookup);
    lemma_spoke_refl(w);
    match e {
        ExprM::Variable { name } => {
            hear_lookup(n, name, svc, w);
        },
        ExprM::MemberAccess { service_name, member_name } => {
            hear_lookup(n, member_name, service_name, w);
        },
        ExprM::Call { func, args } => {
            hear_eval(n, *func, env, svc, w);
            let (f, w1) = semantics::eval(n, *func, env, svc, w);
            if let Ok(f) = f {
                hear_args(n, args, 0, seq![], env, svc, w1);
                let (vs, w2) = semantics::eval_args(n, args, 0, seq![], env, svc, w1);
                lemma_spoke_trans(w, w1, w2);
                if let Ok(vs) = vs {
                    if let ValueM::Closure { params, body, env: own, service_name, return_ty } = f {
                        let inner = model::bind_args(own, params, vs);
                        hear_eval(n, *body, inner, service_name, w2);
                        lemma_spoke_trans(
                            w,
                            w2,
                            semantics::eval(n, *body, inner, service_name, w2).1,
                        );
                    }
                }
            }
        },
        ExprM::Binop { op, expr1, expr2 } => {
            hear_eval(n, *expr1, env, svc, w);
            let (a, w1) = semantics::eval(n, *expr1, env, svc, w);
            if a is Ok {
                hear_eval(n, *expr2, env, svc, w1);
                lemma_spoke_trans(w, w1, semantics::eval(n, *expr2, env, svc, w1).1);
            }
        },
        ExprM::Unop { op, expr } => {
            hear_eval(n, *expr, env, svc, w);
        },
        ExprM::If { cond, expr1, expr2 } => {
            hear_eval(n, *cond, env, svc, w);
            let (c, w1) = semantics::eval(n, *cond, env, svc, w);
            hear_eval(n, *expr1, env, svc, w1);
            hear_eval(n, *expr2, env, svc, w1);
            lemma_spoke_trans(w, w1, semantics::eval(n, *expr1, env, svc, w1).1);
            lemma_spoke_trans(w, w1, semantics::eval(n, *expr2, env, svc, w1).1);
        },
        _ => {},
    }
}

proof fn hear_args(
    n: nat,
    args: Seq<ExprM<Symbol>>,
    i: nat,
    acc: Seq<ValueM<Symbol>>,
    env: EnvM,
    svc: Symbol,
    w: World,
)
    ensures
        spoke(w, semantics::eval_args(n, args, i, acc, env, svc, w).1),
    decreases n, 1nat, args.len() - i,
{
    reveal(semantics::eval_args);
    reveal(semantics::eval);
    lemma_spoke_refl(w);
    if i < args.len() {
        hear_eval(n, args[i as int], env, svc, w);
        let (v, w1) = semantics::eval(n, args[i as int], env, svc, w);
        if let Ok(v) = v {
            hear_args(n, args, i + 1, acc.push(v), env, svc, w1);
            lemma_spoke_trans(
                w,
                w1,
                semantics::eval_args(n, args, i + 1, acc.push(v), env, svc, w1).1,
            );
        }
    }
}

/// Reading a member ends no transaction.
pub proof fn hear_lookup(n: nat, var: Symbol, svc: Symbol, w: World)
    ensures
        spoke(w, semantics::lookup(n, var, svc, w).1),
    decreases n, 0nat, 0nat,
{
    reveal(semantics::lookup);
    reveal(semantics::eval);
    reveal(semantics::remote_lookup);
    lemma_spoke_refl(w);
    if n > 0 {
        let k = (n - 1) as nat;
        hear_remote_lookup(k, svc, var, w);
        if let Some(e) = model::def_of(w.m, svc, var) {
            hear_eval(k, e, seq![], svc, w);
        }
        hear_local_read(var, svc, w);
    }
}

proof fn hear_remote_lookup(n: nat, svc: Symbol, member: Symbol, w: World)
    ensures
        spoke(w, semantics::remote_lookup(n, svc, member, w).1),
    decreases n, 6nat, 0nat,
{
    reveal(semantics::remote_lookup);
    reveal(semantics::send_and_await);
    lemma_spoke_refl(w);
    if let Ok(addr) = model::remote_addr(w.m, svc) {
        let rid = w.m.next_lookup_id;
        let m1 = ManagerM { next_lookup_id: rid.wrapping_add(1), ..w.m };
        let msg = MessageM::LookupRequest {
            request_id: rid,
            service: model::name(m1, svc),
            member: model::name(m1, member),
            reply_to: model::reply_addr(m1),
            txn_id: model::txn_id(w.t),
        };
        let late = "Timeout waiting for remote lookup of '"@ + model::name(m1, svc) + "."@
            + model::name(m1, member) + "'"@;
        hear_send_and_await(n, addr, msg, rid, late, m1);
        let (reply, m2) = semantics::send_and_await(n, addr, msg, rid, late, m1);
        let (r, m3) = semantics::lookup_reply(reply, m2);
        lemma_silent_same(m2, m3);
        lemma_silent_trans(model::send(m1, addr, msg), m2, m3);
        lemma_spoke_asked(w, m1, m3, addr, msg);
    }
}

/// While a reply is waited for, no transaction is ended.
proof fn hear_send_and_await(
    n: nat,
    addr: Seq<char>,
    msg: MessageM,
    rid: u64,
    timeout: Seq<char>,
    m: ManagerM,
)
    ensures
        silent(
            model::send(m, addr, msg),
            semantics::send_and_await(n, addr, msg, rid, timeout, m).1,
        ),
    decreases n, 5nat, 0nat,
{
    reveal(semantics::send_and_await);
    reveal(semantics::await_reply);
    let m1 = model::send(m, addr, msg);
    lemma_silent_same(m1, m1);
    if m.network is Some {
        let m2 = model::register(m1, rid);
        lemma_silent_same(m1, m2);
        hear_await(n, rid, m1.next_channel, timeout, m2);
        lemma_silent_trans(
            m1,
            m2,
            semantics::await_reply(n, rid, m1.next_channel, timeout, m2).1,
        );
    }
}

proof fn hear_await(n: nat, rid: u64, chan: u64, timeout: Seq<char>, m: ManagerM)
    ensures
        silent(m, semantics::await_reply(n, rid, chan, timeout, m).1),
    decreases n, 4nat, model::inbox_len(m),
{
    reveal(semantics::await_reply);
    reveal(semantics::dispatch);
    lemma_silent_same(m, m);
    hear_dispatch(n, m);
    let (d, m1) = semantics::dispatch(n, m);
    if d is Ok {
        let gone = ManagerM { channels: table::without(m1.channels, chan), ..m1 };
        lemma_silent_same(m1, gone);
        lemma_silent_trans(m, m1, gone);
        let again = model::register(gone, rid);
        lemma_silent_same(gone, again);
        lemma_silent_trans(m, gone, again);
        if model::inbox_len(again) < model::inbox_len(m) {
            hear_await(n, rid, gone.next_channel, timeout, again);
            lemma_silent_trans(
                m,
                again,
                semantics::await_reply(n, rid, gone.next_channel, timeout, again).1);
        }
        let popped = model::pop_incoming(m1);
        lemma_silent_same(m1, popped);
        lemma_silent_trans(m, m1, popped);
        if model::inbox_len(popped) < model::inbox_len(m) {
            hear_await(n, rid, chan, timeout, popped);
            lemma_silent_trans(
                m,
                popped,
                semantics::await_reply(n, rid, chan, timeout, popped).1);
        }
        let p2 = model::pop_incoming(gone);
        let late = ManagerM { pending_replies: table::without(p2.pending_replies, rid), ..p2 };
        lemma_silent_same(gone, late);
        lemma_silent_trans(m, gone, late);
    }
}

/// Handling events ends no transaction.
pub proof fn hear_dispatch(n: nat, m: ManagerM)
    ensures
        silent(m, semantics::dispatch(n, m).1),
    decreases n, 3nat, model::inbox_len(m),
{
    reveal(semantics::dispatch);
    reveal(semantics::handle_event);
    lemma_silent_same(m, m);
    if let Some(IncomingM::Event(ev)) = model::next_incoming(m) {
        let m0 = model::pop_incoming(m);
        lemma_silent_same(m, m0);
        hear_event(n, ev, m0);
        let (r, m1) = semantics::handle_event(n, ev, m0);
        lemma_silent_trans(m, m0, m1);
        if r is Ok && model::inbox_len(m1) < model::inbox_len(m) {
            hear_dispatch(n, m1);
            lemma_silent_trans(m, m1, semantics::dispatch(n, m1).1);
        }
    }
}

proof fn hear_event(n: nat, ev: EventM, m: ManagerM)
    ensures
        silent(m, semantics::handle_event(n, ev, m).1),
    decreases n, 2nat, 0nat,
{
    reveal(semantics::handle_event);
    reveal(semantics::handle_update);
    lemma_silent_same(m, m);
    if let EventM::MessageReceived { peer, msg } = ev {
        match msg {
            MessageM::RequestUpdates {
                request_id,
                service,
                member,
                listener_service,
                listener_def,
                reply_to,
            } => {
                let log = wire::three_log(service, member, listener_def);
                let names = interner::interned_all(m.interner, log.names);
                let m1 = ManagerM { interner: names, ..m };
                lemma_silent_same(m, m1);
                let a = interner::symbol_of(names, service);
                let b = interner::symbol_of(names, member);
                let c = interner::symbol_of(names, listener_def);
                lemma_silent_request(m1, a, b, listener_service, c, reply_to);
                lemma_silent_trans(
                    m,
                    m1,
                    model::request_updates(m1, a, b, listener_service, c, reply_to));
            },
            MessageM::Update { listener_service, listener_def, source_service, member, value } => {
                let log = wire::three_log(listener_def, source_service, member);
                let names = interner::interned_all(m.interner, log.names);
                let m1 = ManagerM { interner: names, ..m };
                lemma_silent_same(m, m1);
                let a = interner::symbol_of(names, listener_def);
                let b = interner::symbol_of(names, source_service);
                let c = interner::symbol_of(names, member);
                hear_update(n, listener_service, a, b, c, value, m1);
                lemma_silent_trans(
                    m,
                    m1,
                    semantics::handle_update(n, listener_service, a, b, c, value, m1).1);
            },
            _ => {
                lemma_silent_same(m, model::deliver(m, msg));
            },
        }
    }
}

/// Taking up a remote value ends no transaction.
pub proof fn hear_update(
    n: nat,
    listener: Seq<char>,
    def: Symbol,
    source: Symbol,
    member: Symbol,
    value: ValueM<Seq<char>>,
    m: ManagerM,
)
    ensures
        silent(m, semantics::handle_update(n, listener, def, source, member, value, m).1),
    decreases n, 1nat, 0nat,
{
    reveal(semantics::handle_update);
    reveal(semantics::recompute_def);
    reveal(semantics::propagate);
    let log = wire::value_log(value);
    let names = interner::interned_all(m.interner, log.names);
    let m1 = ManagerM { interner: names, ..m };
    lemma_silent_same(m, m1);
    if log.err is None {
        if let Some(svc) = model::name_for_id(m1, listener) {
            let m2 = match table::get(m1.services, svc) {
                None => m1,
                Some(s) => model::with_service(
                    m1,
                    svc,
                    ServiceM {
                        dep_cache: table::put(
                            s.dep_cache,
                            def,
                            table::put(
                                model::cache_of(s, def),
                                (source, member),
                                renaming::map_value(wire::symbolizing(names), value),
                            ),
                        ),
                        ..s
                    },
                ),
            };
            lemma_silent_same(m1, m1);
            if let Some(s) = table::get(m1.services, svc) {
                let s1 = ServiceM {
                    dep_cache: table::put(
                        s.dep_cache,
                        def,
                        table::put(
                            model::cache_of(s, def),
                            (source, member),
                            renaming::map_value(wire::symbolizing(names), value),
                        ),
                    ),
                    ..s
                };
                lemma_silent_same(m1, model::with_service(m1, svc, s1));
            }
            lemma_silent_trans(m, m1, m2);
            hear_recompute(n, svc, def, m2);
            let (r, m3) = semantics::recompute_def(n, svc, def, m2);
            lemma_silent_trans(m, m2, m3);
            if let Ok(true) = r {
                hear_propagate(n, seq![(svc, def)], m3);
                lemma_silent_trans(
                    m,
                    m3,
                    semantics::propagate(n, seq![(svc, def)], m3).1);
            }
        }
    }
}

/// Computing a definition anew ends no transaction.
pub proof fn hear_recompute(n: nat, svc: Symbol, def: Symbol, m: ManagerM)
    ensures
        silent(m, semantics::recompute_def(n, svc, def, m).1),
    decreases n, 0nat, 0nat,
{
    reveal(semantics::recompute_def);
    reveal(semantics::eval);
    lemma_silent_same(m, m);
    if n > 0 {
        if let Some(e) = model::def_of(m, svc, def) {
            let s = table::get(m.services, svc)->Some_0;
            let m1 = ManagerM { reactive_cache: Some(model::cache_of(s, def)), ..m };
            let w0 = World { m: m1, t: None };
            lemma_silent_same(m, m1);
            hear_eval((n - 1) as nat, e, model::var_env(s), svc, w0);
            let (r, w) = semantics::eval((n - 1) as nat, e, model::var_env(s), svc, w0);
            let m2 = ManagerM { reactive_cache: None, ..w.m };
            lemma_silent_trans(m, m1, w.m);
            lemma_silent_same(w.m, m2);
            lemma_silent_trans(m, w.m, m2);
            if let Ok(v) = r {
                if let Some(x) = model::var_of(m2, svc, def) {
                    let v1 = VarStateM { value: v, ..x };
                    lemma_silent_same(m2, model::with_var(m2, svc, def, v1));
                    lemma_silent_trans(m, m2, model::with_var(m2, svc, def, v1));
                }
            }
        }
    }
}

/// Passing changes on ends no transaction.
pub proof fn hear_propagate(n: nat, work: Seq<(Symbol, Symbol)>, m: ManagerM)
    ensures
        silent(m, semantics::propagate(n, work, m).1),
    decreases n, 0nat, semantics::CHANGE_LIMIT + 1,
{
    reveal(semantics::propagate);
    reveal(semantics::pass_on);
    hear_pass_on(n, semantics::CHANGE_LIMIT as nat, work, m);
}

proof fn hear_pass_on(n: nat, left: nat, work: Seq<(Symbol, Symbol)>, m: ManagerM)
    ensures
        silent(m, semantics::pass_on(n, left, work, m).1),
    decreases n, 0nat, left,
{
    reveal(semantics::pass_on);
    reveal(semantics::notify);
    lemma_silent_same(m, m);
    if work.len() > 0 && n > 0 && left > 0 {
        let k = (n - 1) as nat;
        let (svc, member) = work.last();
        let ls = model::listeners_of(m, svc, member);
        hear_notify(k, ls, 0, svc, member, work.drop_last(), m);
        let (r, m1) = semantics::notify(k, ls, 0, svc, member, work.drop_last(), m);
        if let Ok(more) = r {
            let fewer = (left - 1) as nat;
            hear_pass_on(n, fewer, more, m1);
            lemma_silent_trans(m, m1, semantics::pass_on(n, fewer, more, m1).1);
        }
    }
}

proof fn hear_notify(
    n: nat,
    ls: Seq<KeyM>,
    i: nat,
    svc: Symbol,
    member: Symbol,
    work: Seq<(Symbol, Symbol)>,
    m: ManagerM,
)
    ensures
        silent(m, semantics::notify(n, ls, i, svc, member, work, m).1),
    decreases n, 1nat, ls.len() - i,
{
    reveal(semantics::notify);
    reveal(semantics::recompute_def);
    lemma_silent_same(m, m);
    if i < ls.len() {
        let (id, def) = ls[i as int];
        match model::name_for_id(m, id) {
            Some(lsvc) => {
                hear_recompute(n, lsvc, def, m);
                let (r, m1) = semantics::recompute_def(n, lsvc, def, m);
                if let Ok(changed) = r {
                    let more = if changed {
                        work.push((lsvc, def))
                    } else {
                        work
                    };
                    hear_notify(n, ls, i + 1, svc, member, more, m1);
                    lemma_silent_trans(
                        m,
                        m1,
                        semantics::notify(n, ls, i + 1, svc, member, more, m1).1);
                }
            },
            None => {
                let m1 = model::emit_update(m, id, def, svc, member);
                lemma_silent_emit(m, id, def, svc, member);
                hear_notify(n, ls, i + 1, svc, member, work, m1);
                lemma_silent_trans(
                    m,
                    m1,
                    semantics::notify(n, ls, i + 1, svc, member, work, m1).1);
            },
        }
    }
}

/// Executing a statement under a transaction ends no transaction.
pub proof fn hear_execute(n: nat, s: ActionStmtM<Symbol>, env: EnvM, svc: Symbol, w: World)
    requires
        w.t is Some,
    ensures
        spoke(w, semantics::execute(n, s, env, svc, w).1),
    decreases n, 0nat, 0nat,
{
    reveal(semantics::execute);
    reveal(semantics::execute_step);
    lemma_spoke_refl(w);
    if n > 0 {
        hear_execute_step((n - 1) as nat, s, env, svc, w);
    }
}

proof fn hear_execute_step(n: nat, s: ActionStmtM<Symbol>, env: EnvM, svc: Symbol, w: World)
    requires
        w.t is Some,
    ensures
        spoke(w, semantics::execute_step(n, s, env, svc, w).1),
    decreases n, 7nat, 0nat,
{
    reveal(semantics::execute_step);
    reveal(semantics::eval);
    reveal(semantics::assign);
    reveal(semantics::exec_block);
    reveal(semantics::remote_action);
    lemma_spoke_refl(w);
    if !(s is Insert) {
        let e = read_write::stmt_expr(s);
        hear_eval(n, e, env, svc, w);
        let (r, w1) = semantics::eval(n, e, env, svc, w);
        if let Ok(v) = r {
            match s {
                ActionStmtM::Assign { name, expr } => {
                    hear_buffer_write(svc, name, v, w1.m, w1.t->Some_0);
                    lemma_spoke_trans(w, w1, semantics::assign(n, svc, name, v, w1).1);
                },
                ActionStmtM::Do(expr) => {
                    if let ValueM::ActionClosure { stmts, env: own, service_net_id } = v {
                        match model::name_for_id(w1.m, service_net_id) {
                            Some(target) => {
                                hear_block(n, stmts, 0, own, target, w1);
                                lemma_spoke_trans(
                                    w,
                                    w1,
                                    semantics::exec_block(n, stmts, 0, own, target, w1).1,
                                );
                            },
                            None => {
                                hear_remote_action(n, service_net_id, stmts, own, w1);
                                lemma_spoke_trans(
                                    w,
                                    w1,
                                    semantics::remote_action(
                                        n,
                                        service_net_id,
                                        stmts,
                                        own,
                                        w1,
                                    ).1,
                                );
                            },
                        }
                    }
                },
                _ => {},
            }
        }
    }
}

/// Executing statements under a transaction ends no transaction.
pub proof fn hear_block(
    n: nat,
    stmts: Seq<ActionStmtM<Symbol>>,
    i: nat,
    env: EnvM,
    svc: Symbol,
    w: World,
)
    requires
        w.t is Some,
    ensures
        spoke(w, semantics::exec_block(n, stmts, i, env, svc, w).1),
    decreases n, 1nat, stmts.len() - i,
{
    reveal(semantics::exec_block);
    reveal(semantics::execute);
    lemma_spoke_refl(w);
    if i < stmts.len() {
        hear_execute(n, stmts[i as int], env, svc, w);
        let (r, w1) = semantics::execute(n, stmts[i as int], env, svc, w);
        match r {
            Err(_) => {},
            Ok(semantics::EffectM::Binding(name, v)) => {
                hear_block(n, stmts, i + 1, env.push((name, v)), svc, w1);
                lemma_spoke_trans(
                    w,
                    w1,
                    semantics::exec_block(n, stmts, i + 1, env.push((name, v)), svc, w1).1,
                );
            },
            Ok(_) => {
                hear_block(n, stmts, i + 1, env, svc, w1);
                lemma_spoke_trans(
                    w,
                    w1,
                    semantics::exec_block(n, stmts, i + 1, env, svc, w1).1,
                );
            },
        }
    }
}

proof fn hear_remote_action(
    n: nat,
    id: Seq<char>,
    stmts: Seq<ActionStmtM<Symbol>>,
    env: EnvM,
    w: World,
)
    ensures
        spoke(w, semantics::remote_action(n, id, stmts, env, w).1),
    decreases n, 6nat, 0nat,
{
    reveal(semantics::remote_action);
    reveal(semantics::send_and_await);
    let (addr, slug) = model::split_net_id(id);
    let rid = w.m.next_action_id;
    let m1 = ManagerM { next_action_id: rid.wrapping_add(1), ..w.m };
    let net_stmts = renaming::map_stmts(wire::naming(m1.interner), stmts);
    let net_env = semantics::action_env(m1, env);
    lemma_spoke_joined(w, m1, addr);
    if semantics::action_log(net_stmts, net_env).err is None {
        let msg = MessageM::ActionRequest {
            request_id: rid,
            service: slug,
            stmts: net_stmts,
            env: net_env,
            reply_to: model::reply_addr(m1),
            txn_id: model::txn_id(w.t),
        };
        let late = "Timeout waiting for remote action on service '"@ + slug + "'"@;
        hear_send_and_await(n, addr, msg, rid, late, m1);
        let (reply, m2) = semantics::send_and_await(n, addr, msg, rid, late, m1);
        lemma_spoke_asked(w, m1, m2, addr, msg);
    }
}

/// Whether a run told each of the nodes, and no other, to commit the
/// transaction, told none to abort one, and asked none for anything under one.
pub open spec fn told_to_commit(a: ManagerM, b: ManagerM, to: Set<Seq<char>>, tid: TxnId) -> bool {
    &&& goes_on(a, b)
    &&& forall|p: Seq<char>| #[trigger]
        to.contains(p) ==> exists|i: int|
            sent(a).len() <= i < sent(b).len() && (#[trigger] sent(b)[i]).0 == p && commits(
                sent(b)[i].1,
            ) == Some(tid)
    &&& forall|i: int|
        sent(a).len() <= i < sent(b).len() ==> {
            let x = #[trigger] sent(b)[i];
            &&& aborts(x.1) is None
            &&& asked_under(x.1) is None
            &&& commits(x.1) matches Some(q) ==> q == tid && to.contains(x.0)
        }
}

/// Whether a run told each of the nodes, and no other, to abort the
/// transaction, told none to commit one, and asked none for anything under one.
pub open spec fn told_to_abort(a: ManagerM, b: ManagerM, to: Set<Seq<char>>, tid: TxnId) -> bool {
    &&& goes_on(a, b)
    &&& forall|p: Seq<char>| #[trigger]
        to.contains(p) ==> exists|i: int|
            sent(a).len() <= i < sent(b).len() && (#[trigger] sent(b)[i]).0 == p && aborts(
                sent(b)[i].1,
            ) == Some(tid)
    &&& forall|i: int|
        sent(a).len() <= i < sent(b).len() ==> {
            let x = #[trigger] sent(b)[i];
            &&& commits(x.1) is None
            &&& asked_under(x.1) is None
            &&& aborts(x.1) matches Some(q) ==> q == tid && to.contains(x.0)
        }
}

/// The addresses from place `i` on.
pub open spec fn those_from(addrs: Seq<Seq<char>>, i: nat) -> Set<Seq<char>> {
    Set::new(|p: Seq<char>| exists|j: int| i <= j < addrs.len() && #[trigger] addrs[j] == p)
}

/// One more node is told to commit, and then the others.
proof fn lemma_commit_more(
    m: ManagerM,
    m1: ManagerM,
    z: ManagerM,
    addrs: Seq<Seq<char>>,
    i: nat,
    tid: TxnId,
    msg: MessageM,
)
    requires
        i < addrs.len(),
        m.network is Some,
        commits(msg) == Some(tid),
        aborts(msg) is None,
        asked_under(msg) is None,
        silent(model::send(m, addrs[i as int], msg), m1),
        told_to_commit(m1, z, those_from(addrs, i + 1), tid),
    ensures
        told_to_commit(m, z, those_from(addrs, i), tid),
{
    reveal(told);
    let m0 = model::send(m, addrs[i as int], msg);
    let k = sent(m).len() as int;
    assert(sent(m0)[k] == (addrs[i as int], msg));
    assert(sent(m1)[k] == sent(m0)[k]);
    assert(sent(z)[k] == sent(m1)[k]);
    assert forall|j: int| 0 <= j < sent(m).len() implies #[trigger] sent(z)[j] == sent(m)[j] by {
        assert(sent(m0)[j] == sent(m)[j]);
        assert(sent(m1)[j] == sent(m0)[j]);
    }
    assert forall|p: Seq<char>| #[trigger] those_from(addrs, i).contains(p) implies exists|j: int|
        sent(m).len() <= j < sent(z).len() && (#[trigger] sent(z)[j]).0 == p && commits(
            sent(z)[j].1,
        ) == Some(tid) by {
        let q = choose|q: int| i <= q < addrs.len() && #[trigger] addrs[q] == p;
        if q == i {
            assert(sent(z)[k].0 == p);
        } else {
            assert(those_from(addrs, i + 1).contains(p));
        }
    }
    assert forall|j: int| sent(m).len() <= j < sent(z).len() implies {
        let x = #[trigger] sent(z)[j];
        &&& aborts(x.1) is None
        &&& asked_under(x.1) is None
        &&& commits(x.1) matches Some(q) ==> q == tid && those_from(addrs, i).contains(x.0)
    } by {
        if j == k {
            assert(addrs[i as int] == sent(z)[k].0);
        } else if j < sent(m1).len() {
            assert(sent(z)[j] == sent(m1)[j]);
        }
    }
}

/// One more node is told to abort, and then the others.
proof fn lemma_abort_more(
    m: ManagerM,
    m1: ManagerM,
    z: ManagerM,
    addrs: Seq<Seq<char>>,
    i: nat,
    tid: TxnId,
    msg: MessageM,
)
    requires
        i < addrs.len(),
        m.network is Some,
        aborts(msg) == Some(tid),
        commits(msg) is None,
        asked_under(msg) is None,
        silent(model::send(m, addrs[i as int], msg), m1),
        told_to_abort(m1, z, those_from(addrs, i + 1), tid),
    ensures
        told_to_abort(m, z, those_from(addrs, i), tid),
{
    reveal(told);
    let m0 = model::send(m, addrs[i as int], msg);
    let k = sent(m).len() as int;
    assert(sent(m0)[k] == (addrs[i as int], msg));
    assert(sent(m1)[k] == sent(m0)[k]);
    assert(sent(z)[k] == sent(m1)[k]);
    assert forall|j: int| 0 <= j < sent(m).len() implies #[trigger] sent(z)[j] == sent(m)[j] by {
        assert(sent(m0)[j] == sent(m)[j]);
        assert(sent(m1)[j] == sent(m0)[j]);
    }
    assert forall|p: Seq<char>| #[trigger] those_from(addrs, i).contains(p) implies exists|j: int|
        sent(m).len() <= j < sent(z).len() && (#[trigger] sent(z)[j]).0 == p && aborts(
            sent(z)[j].1,
        ) == Some(tid) by {
        let q = choose|q: int| i <= q < addrs.len() && #[trigger] addrs[q] == p;
        if q == i {
            assert(sent(z)[k].0 == p);
        } else {
            assert(those_from(addrs, i + 1).contains(p));
        }
    }
    assert forall|j: int| sent(m).len() <= j < sent(z).len() implies {
        let x = #[trigger] sent(z)[j];
        &&& commits(x.1) is None
        &&& asked_under(x.1) is None
        &&& aborts(x.1) matches Some(q) ==> q == tid && those_from(addrs, i).contains(x.0)
    } by {
        if j == k {
            assert(addrs[i as int] == sent(z)[k].0);
        } else if j < sent(m1).len() {
            assert(sent(z)[j] == sent(m1)[j]);
        }
    }
}

/// All from place `i` on are told to commit.
proof fn lemma_commit_all(
    n: nat,
    addrs: Seq<Seq<char>>,
    i: nat,
    tid: TxnId,
    failed: Option<ErrM>,
    m: ManagerM,
)
    requires
        m.network is Some,
        transactions::commit_all(n, addrs, i, tid, failed, m).0 is Ok,
    ensures
        told_to_commit(
            m,
            transactions::commit_all(n, addrs, i, tid, failed, m).1,
            those_from(addrs, i),
            tid,
        ),
    decreases addrs.len() - i,
{
    if i < addrs.len() {
        let rid = m.next_commit_id;
        let m0 = ManagerM { next_commit_id: rid.wrapping_add(1), ..m };
        let msg = MessageM::Commit { request_id: rid, txn_id: tid, reply_to: model::reply_addr(m) };
        let late = "Timeout waiting for commit acknowledgement"@;
        hear_send_and_await(n, addrs[i as int], msg, rid, late, m0);
        let (r, m1) = transactions::send_commit(n, addrs[i as int], tid, m);
        assert(m1.network is Some) by {
            reveal(told);
        }
        let kept = match r {
            Err(x) => Some(x),
            Ok(_) => failed,
        };
        lemma_commit_all(n, addrs, i + 1, tid, kept, m1);
        let z = transactions::commit_all(n, addrs, i + 1, tid, kept, m1).1;
        lemma_commit_more(m0, m1, z, addrs, i, tid, msg);
    }
}

/// All from place `i` on are told to abort.
proof fn lemma_abort_all(n: nat, addrs: Seq<Seq<char>>, i: nat, tid: TxnId, m: ManagerM)
    requires
        m.network is Some,
        transactions::abort_all(n, addrs, i, tid, m).0 is Ok,
    ensures
        told_to_abort(
            m,
            transactions::abort_all(n, addrs, i, tid, m).1,
            those_from(addrs, i),
            tid,
        ),
    decreases addrs.len() - i,
{
    if i < addrs.len() {
        let rid = m.next_abort_id;
        let m0 = ManagerM { next_abort_id: rid.wrapping_add(1), ..m };
        let msg = MessageM::Abort { request_id: rid, txn_id: tid, reply_to: model::reply_addr(m) };
        let late = "Timeout waiting for abort acknowledgement"@;
        hear_send_and_await(n, addrs[i as int], msg, rid, late, m0);
        let (r, m1) = transactions::send_abort(n, addrs[i as int], tid, m);
        assert(m1.network is Some) by {
            reveal(told);
        }
        lemma_abort_all(n, addrs, i + 1, tid, m1);
        let z = transactions::abort_all(n, addrs, i + 1, tid, m1).1;
        lemma_abort_more(m0, m1, z, addrs, i, tid, msg);
    }
}

/// Storing writes sends nothing.
proof fn lemma_store_sends(
    m: ManagerM,
    writes: Seq<(KeyM, ValueM<Symbol>)>,
    tid: TxnId,
    n: nat,
)
    ensures
        transactions::store_writes(m, writes, tid, n).network == m.network,
    decreases n,
{
    if n > 0 {
        lemma_store_sends(m, writes, tid, (n - 1) as nat);
    }
}

/// Letting go of locks sends nothing.
proof fn lemma_release_sends(m: ManagerM, keys: Seq<KeyM>, tid: TxnId, n: nat)
    ensures
        model::release_all(m, keys, tid, n).network == m.network,
    decreases n,
{
    if n > 0 {
        lemma_release_sends(m, keys, tid, (n - 1) as nat);
    }
}

/// Passing on the changes by writes ends no transaction.
proof fn lemma_writes_silent(
    n: nat,
    writes: Seq<(KeyM, ValueM<Symbol>)>,
    i: nat,
    m: ManagerM,
)
    ensures
        silent(m, transactions::propagate_writes(n, writes, i, m).1),
    decreases writes.len() - i,
{
    lemma_silent_same(m, m);
    if i < writes.len() {
        match model::name_for_id(m, writes[i as int].0.0) {
            None => {
                lemma_writes_silent(n, writes, i + 1, m);
            },
            Some(svc) => {
                let work = seq![(svc, writes[i as int].0.1)];
                hear_propagate(n, work, m);
                let (r, m1) = semantics::propagate(n, work, m);
                lemma_writes_silent(n, writes, i + 1, m1);
                lemma_silent_trans(
                    m,
                    m1,
                    transactions::propagate_writes(n, writes, i + 1, m1).1,
                );
            },
        }
    }
}

/// Applying writes ends no transaction elsewhere.
proof fn lemma_apply_silent(n: nat, t: TxnM, m: ManagerM)
    ensures
        silent(m, transactions::apply_writes(n, t, m).1),
{
    let m1 = transactions::store_writes(m, t.written, t.id, t.written.len());
    lemma_store_sends(m, t.written, t.id, t.written.len());
    lemma_silent_same(m, m1);
    lemma_writes_silent(n, t.written, 0, m1);
    lemma_silent_trans(m, m1, transactions::apply_writes(n, t, m).1);
}

/// A transaction that ends well is committed everywhere: every node that takes
/// part in it is told to commit it, and none is told to abort.
pub proof fn law_commit_reaches_all(n: nat, t: TxnM, m: ManagerM)
    requires
        m.network is Some,
        transactions::commit(n, t, m).0 is Ok,
    ensures
        told_to_commit(m, transactions::commit(n, t, m).1, t.participants.to_set(), t.id),
{
    lemma_apply_silent(n, t, m);
    let m1 = transactions::apply_writes(n, t, m).1;
    assert(m1.network is Some) by {
        reveal(told);
    }
    lemma_commit_all(n, t.participants, 0, t.id, None, m1);
    let m2 = transactions::commit_all(n, t.participants, 0, t.id, None, m1).1;
    lemma_release_sends(m2, t.locked, t.id, t.locked.len());
    lemma_told_after(m, m1, m2, t);
}

/// The nodes are told to commit after a silent run.
proof fn lemma_told_after(m: ManagerM, m1: ManagerM, z: ManagerM, t: TxnM)
    requires
        silent(m, m1),
        told_to_commit(m1, z, those_from(t.participants, 0), t.id),
    ensures
        told_to_commit(m, z, t.participants.to_set(), t.id),
{
    reveal(told);
    assert(those_from(t.participants, 0) =~= t.participants.to_set()) by {
        assert forall|p: Seq<char>| t.participants.contains(p) implies those_from(
            t.participants,
            0,
        ).contains(p) by {
            let j = choose|j: int| 0 <= j < t.participants.len() && t.participants[j] == p;
            assert(t.participants[j] == p);
        }
    }
    assert forall|j: int| 0 <= j < sent(m).len() implies #[trigger] sent(z)[j] == sent(m)[j] by {
        assert(sent(m1)[j] == sent(m)[j]);
    }
    assert forall|p: Seq<char>| #[trigger] t.participants.to_set().contains(p) implies exists|
        i: int,
    |
        sent(m).len() <= i < sent(z).len() && (#[trigger] sent(z)[i]).0 == p && commits(
            sent(z)[i].1,
        ) == Some(t.id) by {
        assert(those_from(t.participants, 0).contains(p));
        let i = choose|i: int|
            sent(m1).len() <= i < sent(z).len() && (#[trigger] sent(z)[i]).0 == p && commits(
                sent(z)[i].1,
            ) == Some(t.id);
        assert(sent(z)[i].0 == p);
    }
    assert forall|j: int| sent(m).len() <= j < sent(z).len() implies {
        let x = #[trigger] sent(z)[j];
        &&& aborts(x.1) is None
        &&& asked_under(x.1) is None
        &&& commits(x.1) matches Some(q) ==> q == t.id && t.participants.to_set().contains(x.0)
    } by {
        if j < sent(m1).len() {
            assert(sent(z)[j] == sent(m1)[j]);
        }
    }
}

/// A transaction that is given up is given up everywhere: every node that takes
/// part in it is told to abort it, and none is told to commit.
pub proof fn law_rollback_reaches_all(n: nat, t: TxnM, m: ManagerM)
    requires
        m.network is Some,
        transactions::rollback(n, t, m).0 is Ok,
    ensures
        told_to_abort(m, transactions::rollback(n, t, m).1, t.participants.to_set(), t.id),
{
    lemma_abort_all(n, t.participants, 0, t.id, m);
    let m1 = transactions::abort_all(n, t.participants, 0, t.id, m).1;
    lemma_release_sends(m1, t.locked, t.id, t.locked.len());
    assert(those_from(t.participants, 0) =~= t.participants.to_set()) by {
        assert forall|p: Seq<char>| t.participants.contains(p) implies those_from(
            t.participants,
            0,
        ).contains(p) by {
            let j = choose|j: int| 0 <= j < t.participants.len() && t.participants[j] == p;
            assert(t.participants[j] == p);
        }
    }
}

/// Whether a node has told another, behind place `i` of what it sent, that a
/// transaction that this one was asked for something under is committed where it
/// is `won`, and aborted else.
pub open spec fn answered_for(z: ManagerM, i: int, q: TxnId, won: Option<TxnId>) -> bool {
    exists|j: int|
        i < j < sent(z).len() && (#[trigger] sent(z)[j]).0 == sent(z)[i].0 && if Some(q) == won {
            commits(sent(z)[j].1) == Some(q)
        } else {
            aborts(sent(z)[j].1) == Some(q)
        }
}

/// Whether, in a run, every node that was asked for something under a
/// transaction was told later how it ended: that it is committed if it is the
/// one that `won`, and else aborted. None is told anything else.
pub open spec fn ended(a: ManagerM, z: ManagerM, won: Option<TxnId>) -> bool {
    &&& goes_on(a, z)
    &&& forall|i: int|
        sent(a).len() <= i < sent(z).len() ==> {
            let x = #[trigger] sent(z)[i];
            &&& asked_under(x.1) matches Some(q) ==> answered_for(z, i, q, won)
            &&& commits(x.1) matches Some(q) ==> Some(q) == won
            &&& aborts(x.1) matches Some(q) ==> Some(q) != won
        }
}

/// A run under a transaction, and how it ended.
proof fn lemma_ended(a: ManagerM, w: World, z: ManagerM, tid: TxnId, won: Option<TxnId>)
    requires
        w.t matches Some(t) && t.id == tid && told(a, w.m, Some(tid), t.participants),
        won is Some ==> won == Some(tid) && told_to_commit(
            w.m,
            z,
            w.t->Some_0.participants.to_set(),
            tid,
        ),
        won is None ==> told_to_abort(w.m, z, w.t->Some_0.participants.to_set(), tid),
    ensures
        ended(a, z, won),
        forall|i: int|
            sent(a).len() <= i < sent(z).len() ==> {
                let x = #[trigger] sent(z)[i];
                &&& asked_under(x.1) matches Some(q) ==> q == tid
                &&& aborts(x.1) matches Some(q) ==> q == tid
            },
{
    reveal(told);
    let t = w.t->Some_0;
    assert forall|j: int| 0 <= j < sent(a).len() implies #[trigger] sent(z)[j] == sent(a)[j] by {
        assert(sent(w.m)[j] == sent(a)[j]);
    }
    assert forall|i: int| sent(a).len() <= i < sent(z).len() implies {
        let x = #[trigger] sent(z)[i];
        &&& asked_under(x.1) matches Some(q) ==> answered_for(z, i, q, won) && q == tid
        &&& commits(x.1) matches Some(q) ==> Some(q) == won
        &&& aborts(x.1) matches Some(q) ==> Some(q) != won && q == tid
    } by {
        if i < sent(w.m).len() {
            assert(sent(z)[i] == sent(w.m)[i]);
            let x = sent(z)[i];
            if asked_under(x.1) is Some {
                assert(t.participants.to_set().contains(x.0));
                if won is Some {
                    let j = choose|j: int|
                        sent(w.m).len() <= j < sent(z).len() && (#[trigger] sent(z)[j]).0 == x.0
                            && commits(sent(z)[j].1) == Some(tid);
                    assert(i < j && sent(z)[j].0 == sent(z)[i].0);
                } else {
                    let j = choose|j: int|
                        sent(w.m).len() <= j < sent(z).len() && (#[trigger] sent(z)[j]).0 == x.0
                            && aborts(sent(z)[j].1) == Some(tid);
                    assert(i < j && sent(z)[j].0 == sent(z)[i].0);
                }
            }
        }
    }
}

/// An action ends the same way on all nodes.
///
/// Where it succeeds, every node that its last try asked for something is told
/// afterwards to commit it, and none is told to abort it; the nodes that were
/// asked by tries before that are told to abort those. Where it fails, every
/// node that was asked for something is told to abort, and none to commit.
pub proof fn law_action_ends_alike(
    n: nat,
    svc: Symbol,
    stmts: Seq<ActionStmtM<Symbol>>,
    env: EnvM,
    tid: TxnId,
    m: ManagerM,
)
    requires
        m.network is Some,
    ensures
        ({
            let (r, z) = transactions::run_txn(n, svc, stmts, env, tid, m);
            match r {
                Ok(_) => exists|t: TxnId|
                    laws::same_origin(t, tid) && t.iteration >= tid.iteration && #[trigger] ended(
                        m,
                        z,
                        Some(t),
                    ),
                Err(e) => !(e is Suspended) ==> ended(m, z, None),
            }
        }),
    decreases MAX_WAIT_DIE_RETRIES - tid.iteration,
{
    let w0 = World { m, t: Some(txn::fresh_txn(tid)) };
    hear_block(n, stmts, 0, env, svc, w0);
    let (r, w) = semantics::exec_block(n, stmts, 0, env, svc, w0);
    assert(w.t is Some);
    let t = w.t->Some_0;
    assert(w.m.network is Some) by {
        reveal(told);
    }
    match r {
        Ok(_) => {
            if transactions::commit(n, t, w.m).0 is Ok {
                law_commit_reaches_all(n, t, w.m);
                lemma_ended(m, w, transactions::commit(n, t, w.m).1, tid, Some(tid));
            } else {
                laws::lemma_commit_suspends(n, t, w.m);
            }
        },
        Err(ErrM::Suspended) => {},
        Err(e) => {
            let (x, m1) = transactions::rollback(n, t, w.m);
            match x {
                Err(_) => {
                    laws::lemma_abort_suspends(n, t.participants, 0, t.id, w.m);
                },
                Ok(_) => {
                    law_rollback_reaches_all(n, t, w.m);
                    lemma_ended(m, w, m1, tid, None);
                    if e is WaitDieAbort && tid.iteration < MAX_WAIT_DIE_RETRIES {
                        let again = TxnId { iteration: (tid.iteration + 1) as u32, ..tid };
                        law_action_ends_alike(n, svc, stmts, env, again, m1);
                        let (r2, z) = transactions::run_txn(n, svc, stmts, env, again, m1);
                        let won = match r2 {
                            Ok(_) => Some(
                                choose|u: TxnId|
                                    laws::same_origin(u, again) && u.iteration >= again.iteration
                                        && #[trigger] ended(m1, z, Some(u)),
                            ),
                            Err(_) => None,
                        };
                        if r2 is Ok || !(r2->Err_0 is Suspended) {
                            lemma_ended_twice(m, m1, z, tid, won);
                            if let Some(u) = won {
                                assert(laws::same_origin(u, tid) && u.iteration >= tid.iteration);
                            }
                        }
                    }
                },
            }
        },
    }
}

/// A try that was given up, and what came of the tries after it.
proof fn lemma_ended_twice(
    a: ManagerM,
    b: ManagerM,
    z: ManagerM,
    tid: TxnId,
    won: Option<TxnId>,
)
    requires
        ended(a, b, None),
        forall|i: int|
            sent(a).len() <= i < sent(b).len() ==> {
                let x = #[trigger] sent(b)[i];
                &&& asked_under(x.1) matches Some(q) ==> q == tid
                &&& aborts(x.1) matches Some(q) ==> q == tid
            },
        ended(b, z, won),
        won != Some(tid),
    ensures
        ended(a, z, won),
{
    assert forall|j: int| 0 <= j < sent(a).len() implies #[trigger] sent(z)[j] == sent(a)[j] by {
        assert(sent(b)[j] == sent(a)[j]);
    }
    assert forall|i: int| sent(a).len() <= i < sent(z).len() implies {
        let x = #[trigger] sent(z)[i];
        &&& asked_under(x.1) matches Some(q) ==> answered_for(z, i, q, won)
        &&& commits(x.1) matches Some(q) ==> Some(q) == won
        &&& aborts(x.1) matches Some(q) ==> Some(q) != won
    } by {
        if i < sent(b).len() {
            assert(sent(z)[i] == sent(b)[i]);
            if let Some(q) = asked_under(sent(z)[i].1) {
                assert(answered_for(b, i, q, None));
                let j = choose|j: int|
                    i < j < sent(b).len() && (#[trigger] sent(b)[j]).0 == sent(b)[i].0 && aborts(
                        sent(b)[j].1,
                    ) == Some(q);
                assert(sent(z)[j] == sent(b)[j]);
                assert(sent(z)[j].0 == sent(z)[i].0);
            }
        }
    }
}

/// A held transaction that is committed is committed on the nodes that take part
/// through this one: each is told to commit it, and none to abort.
pub proof fn law_held_commit_reaches_all(n: nat, tid: TxnId, m: ManagerM)
    requires
        m.network is Some,
        table::get(m.pending_txns, tid) matches Some(t) && t.id == tid,
        transactions::commit_held(n, tid, m).0 is Ok,
    ensures
        told_to_commit(
            m,
            transactions::commit_held(n, tid, m).1,
            table::get(m.pending_txns, tid)->Some_0.participants.to_set(),
            tid,
        ),
{
    let t = table::get(m.pending_txns, tid)->Some_0;
    let m1 = ManagerM { pending_txns: table::without(m.pending_txns, tid), ..m };
    lemma_apply_silent(n, t, m1);
    let m2 = transactions::apply_writes(n, t, m1).1;
    lemma_release_sends(m2, t.locked, t.id, t.locked.len());
    let m3 = transactions::unlock(m2, t);
    lemma_silent_same(m, m1);
    lemma_silent_trans(m, m1, m2);
    lemma_silent_same(m2, m3);
    lemma_silent_trans(m, m2, m3);
    assert(m3.network is Some) by {
        reveal(told);
    }
    lemma_commit_all(n, t.participants, 0, tid, None, m3);
    lemma_told_after(m, m3, transactions::commit_held(n, tid, m).1, t);
}

/// A held transaction that is given up is given up on the nodes that take part
/// through this one: each is told to abort it, and none to commit.
pub proof fn law_held_abort_reaches_all(n: nat, tid: TxnId, m: ManagerM)
    requires
        m.network is Some,
        table::get(m.pending_txns, tid) is Some,
        transactions::abort_held(n, tid, m).0 is Ok,
    ensures
        told_to_abort(
            m,
            transactions::abort_held(n, tid, m).1,
            table::get(m.pending_txns, tid)->Some_0.participants.to_set(),
            tid,
        ),
{
    let t = table::get(m.pending_txns, tid)->Some_0;
    let m1 = ManagerM { pending_txns: table::without(m.pending_txns, tid), ..m };
    lemma_release_sends(m1, t.locked, t.id, t.locked.len());
    let m2 = transactions::unlock(m1, t);
    lemma_abort_all(n, t.participants, 0, tid, m2);
    assert(those_from(t.participants, 0) =~= t.participants.to_set()) by {
        assert forall|p: Seq<char>| t.participants.contains(p) implies those_from(
            t.participants,
            0,
        ).contains(p) by {
            let j = choose|j: int| 0 <= j < t.participants.len() && t.participants[j] == p;
            assert(t.participants[j] == p);
        }
    }
}

/// A member of another node is asked for at the address of its service, by the
/// names of both, under the transaction that is under way and with this node's
/// address to answer to.
pub proof fn law_remote_read_asks(n: nat, svc: Symbol, member: Symbol, w: World)
    requires
        w.m.network is Some,
        model::remote_addr(w.m, svc) is Ok,
    ensures
        ({
            let z = semantics::remote_lookup(n, svc, member, w).1;
            let k = sent(w.m).len() as int;
            &&& goes_on(w.m, z.m)
            &&& sent(z.m).len() > k
            &&& sent(z.m)[k].0 == model::remote_addr(w.m, svc)->Ok_0
            &&& sent(z.m)[k].1 matches MessageM::LookupRequest {
                request_id,
                service,
                member: wanted,
                reply_to,
                txn_id,
            } && service == model::name(w.m, svc) && wanted == model::name(w.m, member)
                && reply_to == model::reply_addr(w.m) && txn_id == model::txn_id(w.t)
            &&& w.t is Some ==> partners(z.t).contains(model::remote_addr(w.m, svc)->Ok_0)
        }),
{
    reveal(semantics::remote_lookup);
    reveal(semantics::send_and_await);
    let addr = model::remote_addr(w.m, svc)->Ok_0;
    let rid = w.m.next_lookup_id;
    let m1 = ManagerM { next_lookup_id: rid.wrapping_add(1), ..w.m };
    let msg = MessageM::LookupRequest {
        request_id: rid,
        service: model::name(m1, svc),
        member: model::name(m1, member),
        reply_to: model::reply_addr(m1),
        txn_id: model::txn_id(w.t),
    };
    let late = "Timeout waiting for remote lookup of '"@ + model::name(m1, svc) + "."@
        + model::name(m1, member) + "'"@;
    hear_send_and_await(n, addr, msg, rid, late, m1);
    lemma_joined(w.t, addr);
    reveal(told);
    let z = semantics::remote_lookup(n, svc, member, w).1;
    let k = sent(w.m).len() as int;
    let m2 = model::send(m1, addr, msg);
    assert(sent(m2)[k] == (addr, msg));
    assert(sent(z.m)[k] == sent(m2)[k]);
    assert forall|i: int| 0 <= i < sent(w.m).len() implies #[trigger] sent(z.m)[i] == sent(
        w.m,
    )[i] by {
        assert(sent(z.m)[i] == sent(m2)[i]);
    }
}

/// An action of another node is sent there with its statements and bindings, as
/// they are on the wire, under the transaction that is under way; the node takes
/// part in it from then on.
pub proof fn law_remote_action_asks(
    n: nat,
    id: Seq<char>,
    stmts: Seq<ActionStmtM<Symbol>>,
    env: EnvM,
    w: World,
)
    requires
        w.m.network is Some,
        semantics::action_log(
            renaming::map_stmts(wire::naming(w.m.interner), stmts),
            semantics::action_env(w.m, env),
        ).err is None,
    ensures
        ({
            let z = semantics::remote_action(n, id, stmts, env, w).1;
            let k = sent(w.m).len() as int;
            let (addr, slug) = model::split_net_id(id);
            &&& goes_on(w.m, z.m)
            &&& sent(z.m).len() > k
            &&& sent(z.m)[k].0 == addr
            &&& sent(z.m)[k].1 matches MessageM::ActionRequest {
                request_id,
                service,
                stmts: wanted,
                env: bound,
                reply_to,
                txn_id,
            } && service == slug && wanted == renaming::map_stmts(
                wire::naming(w.m.interner),
                stmts,
            ) && bound == renaming::map_env(wire::naming(w.m.interner), env) && reply_to
                == model::reply_addr(w.m) && txn_id == model::txn_id(w.t)
            &&& w.t is Some ==> partners(z.t).contains(addr)
        }),
{
    reveal(semantics::remote_action);
    reveal(semantics::send_and_await);
    let (addr, slug) = model::split_net_id(id);
    let rid = w.m.next_action_id;
    let m1 = ManagerM { next_action_id: rid.wrapping_add(1), ..w.m };
    let net_stmts = renaming::map_stmts(wire::naming(m1.interner), stmts);
    let net_env = semantics::action_env(m1, env);
    let msg = MessageM::ActionRequest {
        request_id: rid,
        service: slug,
        stmts: net_stmts,
        env: net_env,
        reply_to: model::reply_addr(m1),
        txn_id: model::txn_id(w.t),
    };
    let late = "Timeout waiting for remote action on service '"@ + slug + "'"@;
    hear_send_and_await(n, addr, msg, rid, late, m1);
    lemma_joined(w.t, addr);
    reveal(told);
    let z = semantics::remote_action(n, id, stmts, env, w).1;
    let k = sent(w.m).len() as int;
    let m2 = model::send(m1, addr, msg);
    assert(sent(m2)[k] == (addr, msg));
    assert(sent(z.m)[k] == sent(m2)[k]);
    assert forall|i: int| 0 <= i < sent(w.m).len() implies #[trigger] sent(z.m)[i] == sent(
        w.m,
    )[i] by {
        assert(sent(z.m)[i] == sent(m2)[i]);
    }
}

/// The identity of a service of a node with an address leads back to both: it is
/// that address and the name of the service.
pub proof fn law_identity_leads_back(m: ManagerM, svc: Symbol)
    requires
        m.local_address matches Some(a) && a.len() > 0,
        !model::name(m, svc).contains('/'),
    ensures
        model::split_net_id(model::new_net_id(m, svc)) == (
            m.local_address->Some_0,
            model::name(m, svc),
        ),
{
    reveal_strlit("/");
    let a = m.local_address->Some_0;
    let x = model::name(m, svc);
    let id = model::new_net_id(m, svc);
    assert(id =~= a + seq!['/'] + x);
    lemma_last_slash(a, x);
    assert(id.take(a.len() as int) =~= a);
    assert(id.skip(a.len() + 1int) =~= x);
}

/// The last slash is the one behind which there is none.
pub proof fn lemma_last_slash(a: Seq<char>, x: Seq<char>)
    requires
        !x.contains('/'),
    ensures
        model::last_slash(a + seq!['/'] + x) == a.len(),
    decreases x.len(),
{
    let s = a + seq!['/'] + x;
    if x.len() == 0 {
        assert(s.last() == '/');
    } else {
        assert(s.last() == x.last());
        assert(x.contains(x.last()));
        assert(s.drop_last() =~= a + seq!['/'] + x.drop_last());
        assert forall|i: int| 0 <= i < x.drop_last().len() implies x.drop_last()[i] != '/' by {
            assert(x.contains(x[i]));
        }
        lemma_last_slash(a, x.drop_last());
    }
}

} // verus!
