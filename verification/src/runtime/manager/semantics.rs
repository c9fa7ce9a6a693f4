//! What evaluation, execution and propagation do.
//!
//! Every function takes the number of nested steps that are left and the state,
//! and gives the outcome and the state after it. With no step left the outcome
//! is [`ErrM::DepthExceeded`]. Where a reply is needed that the inbox does not
//! hold, the outcome is [`ErrM::Suspended`].

use crate::net::messages::{EventM, MessageM};
use crate::net::wire;
use crate::runtime::ast::model::{ActionStmtM, ExprM, ValueM};
use crate::runtime::ast::renaming;
use crate::runtime::interner;
use crate::runtime::interner::Symbol;
use crate::runtime::interpreter::evaluator::ErrM;
use crate::runtime::manager::model;
use crate::runtime::manager::model::{EnvM, IncomingM, KeyM, ManagerM, ServiceM, SlotM, World};
use crate::runtime::semantic_analysis::var_analysis::read_write;
use crate::runtime::table;
use crate::runtime::txn::VarStateM;
use vstd::prelude::*;

verus! {

/// How many changes are passed on at most, one after the other. No run is long
/// enough to get there; where changes set each other off in a circle, this is
/// what ends it.
pub const CHANGE_LIMIT: u64 = 0xffff_ffff_ffff_ffff;

/// What a statement does besides changing the state.
pub enum EffectM {
    Nothing,
    Binding(Symbol, ValueM<Symbol>),
    ExprValue(ValueM<Symbol>),
}

/// An expression is evaluated.
#[verifier::opaque]
pub open spec fn eval(n: nat, e: ExprM<Symbol>, env: EnvM, svc: Symbol, w: World) -> (
    Result<ValueM<Symbol>, ErrM>,
    World,
)
    decreases n, 0nat, 0nat,
{
    if n == 0 {
        (Err(ErrM::DepthExceeded), w)
    } else {
        eval_step((n - 1) as nat, e, env, svc, w)
    }
}

/// An expression is evaluated, by its form.
#[verifier::opaque]
pub open spec fn eval_step(n: nat, e: ExprM<Symbol>, env: EnvM, svc: Symbol, w: World) -> (
    Result<ValueM<Symbol>, ErrM>,
    World,
)
    decreases n, 2nat, 0nat,
{
    match e {
        ExprM::Literal { val } => (Ok(val), w),
        ExprM::Variable { name } => match model::env_get(env, name) {
            Some(v) => (Ok(v), w),
            None => lookup(n, name, svc, w),
        },
        ExprM::Call { func, args } => {
            let (f, w1) = eval(n, *func, env, svc, w);
            match f {
                Err(x) => (Err(x), w1),
                Ok(f) => {
                    let (vs, w2) = eval_args(n, args, 0, seq![], env, svc, w1);
                    match vs {
                        Err(x) => (Err(x), w2),
                        Ok(vs) => match f {
                            ValueM::Closure { params, body, env: own, service_name, return_ty } =>
                                eval(
                                n,
                                *body,
                                model::bind_args(own, params, vs),
                                service_name,
                                w2,
                            ),
                            _ => (
                                Err(ErrM::TypeError("Attempting to call a non-function value"@)),
                                w2,
                            ),
                        },
                    }
                },
            }
        },
        ExprM::Binop { op, expr1, expr2 } => {
            let (a, w1) = eval(n, *expr1, env, svc, w);
            match a {
                Err(x) => (Err(x), w1),
                Ok(a) => {
                    let (b, w2) = eval(n, *expr2, env, svc, w1);
                    match b {
                        Err(x) => (Err(x), w2),
                        Ok(b) => (model::binop(op, a, b), w2),
                    }
                },
            }
        },
        ExprM::Unop { op, expr } => {
            let (a, w1) = eval(n, *expr, env, svc, w);
            match a {
                Err(x) => (Err(x), w1),
                Ok(a) => (model::unop(op, a), w1),
            }
        },
        ExprM::If { cond, expr1, expr2 } => {
            let (c, w1) = eval(n, *cond, env, svc, w);
            match c {
                Err(x) => (Err(x), w1),
                Ok(ValueM::Bool { val }) => if val {
                    eval(n, *expr1, env, svc, w1)
                } else {
                    eval(n, *expr2, env, svc, w1)
                },
                Ok(_) => (Err(ErrM::TypeError("Condition must be boolean"@)), w1),
            }
        },
        ExprM::Func { params, body, return_ty } => (
            Ok(
                ValueM::Closure {
                    params,
                    body,
                    env: model::captured(
                        w.m,
                        svc,
                        env,
                        read_write::free_vars(
                            *body,
                            Set::empty(),
                            Set::<Symbol>::empty().union(read_write::param_set(params)),
                        ),
                        env.len(),
                    ),
                    service_name: svc,
                    return_ty,
                },
            ),
            w,
        ),
        ExprM::Action(stmts) => (
            Ok(
                ValueM::ActionClosure {
                    stmts,
                    env: model::captured(
                        w.m,
                        svc,
                        env,
                        read_write::free_vars(e, Set::empty(), Set::empty()),
                        env.len(),
                    ),
                    service_net_id: model::net_id(w.m, svc),
                },
            ),
            w,
        ),
        ExprM::MemberAccess { service_name, member_name } => {
            let cached = match w.m.reactive_cache {
                Some(c) => table::get(c, (service_name, member_name)),
                None => None,
            };
            match cached {
                Some(v) => (Ok(v), w),
                None => lookup(n, member_name, service_name, w),
            }
        },
        _ => (Err(ErrM::NotImplemented), w),
    }
}

/// Arguments are evaluated from place `i` on, after those with the values `acc`.
#[verifier::opaque]
pub open spec fn eval_args(
    n: nat,
    args: Seq<ExprM<Symbol>>,
    i: nat,
    acc: Seq<ValueM<Symbol>>,
    env: EnvM,
    svc: Symbol,
    w: World,
) -> (Result<Seq<ValueM<Symbol>>, ErrM>, World)
    decreases n, 1nat, args.len() - i,
{
    if i >= args.len() {
        (Ok(acc), w)
    } else {
        let (v, w1) = eval(n, args[i as int], env, svc, w);
        match v {
            Err(x) => (Err(x), w1),
            Ok(v) => eval_args(n, args, i + 1, acc.push(v), env, svc, w1),
        }
    }
}

/// A member of a service is read. A remote one is asked for; a definition is
/// evaluated anew; a variable is read as [`model::local_read`] says.
#[verifier::opaque]
pub open spec fn lookup(n: nat, var: Symbol, svc: Symbol, w: World) -> (
    Result<ValueM<Symbol>, ErrM>,
    World,
)
    decreases n, 0nat, 0nat,
{
    if n == 0 {
        (Err(ErrM::DepthExceeded), w)
    } else {
        let k = (n - 1) as nat;
        if table::bound(w.m.remote_services, svc) {
            remote_lookup(k, svc, var, w)
        } else {
            match model::def_of(w.m, svc, var) {
                Some(e) => eval(k, e, seq![], svc, w),
                None => model::local_read(var, svc, w),
            }
        }
    }
}

/// A member of a remote service is asked for.
#[verifier::opaque]
pub open spec fn remote_lookup(n: nat, svc: Symbol, member: Symbol, w: World) -> (
    Result<ValueM<Symbol>, ErrM>,
    World,
)
    decreases n, 6nat, 0nat,
{
    match model::remote_addr(w.m, svc) {
        Err(x) => (Err(x), w),
        Ok(addr) => {
            let rid = w.m.next_lookup_id;
            let m1 = ManagerM { next_lookup_id: rid.wrapping_add(1), ..w.m };
            let t1 = model::with_participant(w.t, addr);
            let (reply, m2) = send_and_await(
                n,
                addr,
                MessageM::LookupRequest {
                    request_id: rid,
                    service: model::name(m1, svc),
                    member: model::name(m1, member),
                    reply_to: model::reply_addr(m1),
                    txn_id: model::txn_id(w.t),
                },
                rid,
                "Timeout waiting for remote lookup of '"@ + model::name(m1, svc) + "."@
                    + model::name(m1, member) + "'"@,
                m1,
            );
            let (r, m3) = lookup_reply(reply, m2);
            (r, World { m: m3, t: t1 })
        },
    }
}

/// What the reply to a lookup says; the names in a value are interned.
pub open spec fn lookup_reply(reply: Result<MessageM, ErrM>, m: ManagerM) -> (
    Result<ValueM<Symbol>, ErrM>,
    ManagerM,
) {
    match reply {
        Err(x) => (Err(x), m),
        Ok(MessageM::LookupResponse { request_id, value }) => {
            let log = wire::value_log(value);
            let names = interner::interned_all(m.interner, log.names);
            let m1 = ManagerM { interner: names, ..m };
            match log.err {
                Some(l) => (Err(ErrM::LocalDispatchFailed(wire::limit_text(l))), m1),
                None => (Ok(renaming::map_value(wire::symbolizing(names), value)), m1),
            }
        },
        Ok(MessageM::LookupError { request_id, error }) => (
            Err(ErrM::LocalDispatchFailed(error)),
            m,
        ),
        Ok(_) => (Err(ErrM::LocalDispatchFailed("Unexpected reply to lookup request"@)), m),
    }
}

/// What the reply to an action says.
pub open spec fn action_reply(reply: Result<MessageM, ErrM>) -> Result<(), ErrM> {
    match reply {
        Err(x) => Err(x),
        Ok(MessageM::ActionResponse { request_id, success, error }) => acknowledged(
            success,
            error,
            "Remote action failed"@,
        ),
        Ok(_) => Err(ErrM::LocalDispatchFailed("Unexpected reply to action request"@)),
    }
}

/// What the reply to a commit says.
pub open spec fn commit_reply(reply: Result<MessageM, ErrM>) -> Result<(), ErrM> {
    match reply {
        Err(x) => Err(x),
        Ok(MessageM::CommitResponse { request_id, success, error }) => acknowledged(
            success,
            error,
            "Participant commit failed"@,
        ),
        Ok(_) => Err(ErrM::LocalDispatchFailed("Unexpected reply to commit"@)),
    }
}

/// A message is sent and the reply to it is waited for.
#[verifier::opaque]
pub open spec fn send_and_await(
    n: nat,
    addr: Seq<char>,
    msg: MessageM,
    rid: u64,
    timeout: Seq<char>,
    m: ManagerM,
) -> (Result<MessageM, ErrM>, ManagerM)
    decreases n, 5nat, 0nat,
{
    if m.network is None {
        (Err(ErrM::LocalDispatchFailed("No network layer available"@)), m)
    } else {
        let m1 = model::send(m, addr, msg);
        await_reply(n, rid, m1.next_channel, timeout, model::register(m1, rid))
    }
}

/// The reply to a request is waited for: what is in the inbox is handled, and
/// then the reply, the closing of the channel or the end of the time counts,
/// in this order. A note that the request is still queued starts it again, and
/// so does what came in while the run was suspended. Each time there is less in
/// the inbox than before.
#[verifier::opaque]
pub open spec fn await_reply(n: nat, rid: u64, chan: u64, timeout: Seq<char>, m: ManagerM) -> (
    Result<MessageM, ErrM>,
    ManagerM,
)
    decreases n, 4nat, model::inbox_len(m),
{
    let (d, m1) = dispatch(n, m);
    match d {
        Err(x) => (Err(x), m1),
        Ok(_) => {
            let gone = ManagerM { channels: table::without(m1.channels, chan), ..m1 };
            match table::get(m1.channels, chan) {
                Some(SlotM::Full(msg)) => if msg is WaitParked {
                    let next = model::register(gone, rid);
                    if model::inbox_len(next) < model::inbox_len(m) {
                        await_reply(n, rid, gone.next_channel, timeout, next)
                    } else {
                        (Err(ErrM::DepthExceeded), next)
                    }
                } else {
                    (Ok(msg), gone)
                },
                Some(SlotM::Open) => match model::next_incoming(m1) {
                    Some(IncomingM::Elapsed) => {
                        let m2 = model::pop_incoming(gone);
                        (
                            Err(ErrM::LocalDispatchFailed(timeout)),
                            ManagerM {
                                pending_replies: table::without(m2.pending_replies, rid),
                                ..m2
                            },
                        )
                    },
                    Some(IncomingM::Resume) => {
                        let next = model::pop_incoming(m1);
                        if model::inbox_len(next) < model::inbox_len(m) {
                            await_reply(n, rid, chan, timeout, next)
                        } else {
                            (Err(ErrM::DepthExceeded), next)
                        }
                    },
                    _ => (Err(ErrM::Suspended), m1),
                },
                _ => (Err(ErrM::LocalDispatchFailed("Reply channel closed"@)), gone),
            }
        },
    }
}

/// The events in the inbox are handled in order. Each leaves less in the inbox
/// than there was before.
#[verifier::opaque]
pub open spec fn dispatch(n: nat, m: ManagerM) -> (Result<(), ErrM>, ManagerM)
    decreases n, 3nat, model::inbox_len(m),
{
    match model::next_incoming(m) {
        Some(IncomingM::Event(ev)) => {
            let (r, m1) = handle_event(n, ev, model::pop_incoming(m));
            match r {
                Err(x) => (Err(x), m1),
                Ok(_) => if model::inbox_len(m1) < model::inbox_len(m) {
                    dispatch(n, m1)
                } else {
                    (Err(ErrM::DepthExceeded), m1)
                },
            }
        },
        _ => (Ok(()), m),
    }
}

/// One event is handled: subscriptions and updates by the node itself, and
/// replies by those who wait for them.
#[verifier::opaque]
pub open spec fn handle_event(n: nat, ev: EventM, m: ManagerM) -> (Result<(), ErrM>, ManagerM)
    decreases n, 2nat, 0nat,
{
    match ev {
        EventM::MessageReceived { peer, msg } => match msg {
            MessageM::RequestUpdates {
                request_id,
                service,
                member,
                listener_service,
                listener_def,
                reply_to,
            } => {
                let log = wire::three_log(service, member, listener_def);
                let names = interner::interned_all(m.interner, log.names);
                let m1 = ManagerM { interner: names, ..m };
                if log.err is Some {
                    (Ok(()), m1)
                } else {
                    (
                        Ok(()),
                        model::request_updates(
                            m1,
                            interner::symbol_of(names, service),
                            interner::symbol_of(names, member),
                            listener_service,
                            interner::symbol_of(names, listener_def),
                            reply_to,
                        ),
                    )
                }
            },
            MessageM::Update { listener_service, listener_def, source_service, member, value } => {
                let log = wire::three_log(listener_def, source_service, member);
                let names = interner::interned_all(m.interner, log.names);
                let m1 = ManagerM { interner: names, ..m };
                if log.err is Some {
                    (Ok(()), m1)
                } else {
                    handle_update(
                        n,
                        listener_service,
                        interner::symbol_of(names, listener_def),
                        interner::symbol_of(names, source_service),
                        interner::symbol_of(names, member),
                        value,
                        m1,
                    )
                }
            },
            _ => (Ok(()), model::deliver(m, msg)),
        },
        _ => (Ok(()), m),
    }
}

/// A remote member has a new value: it is cached, and the definition that uses
/// it is computed anew, with all that follows.
#[verifier::opaque]
pub open spec fn handle_update(
    n: nat,
    listener: Seq<char>,
    def: Symbol,
    source: Symbol,
    member: Symbol,
    value: ValueM<Seq<char>>,
    m: ManagerM,
) -> (Result<(), ErrM>, ManagerM)
    decreases n, 1nat, 0nat,
{
    let log = wire::value_log(value);
    let names = interner::interned_all(m.interner, log.names);
    let m1 = ManagerM { interner: names, ..m };
    if log.err is Some {
        (Ok(()), m1)
    } else {
        match model::name_for_id(m1, listener) {
            None => (Ok(()), m1),
            Some(svc) => {
                let m2 = match table::get(m1.services, svc) {
                    None => m1,
                    Some(s) => model::with_service(
                        m1,
                        svc,
                        ServiceM {
                            dep_cache: table::put(
                                s.dep_cache,
                                def,
                                table::put(
                                    model::cache_of(s, def),
                                    (source, member),
                                    renaming::map_value(wire::symbolizing(names), value),
                                ),
                            ),
                            ..s
                        },
                    ),
                };
                let (r, m3) = recompute_def(n, svc, def, m2);
                match r {
                    Err(x) => (Err(x), m3),
                    Ok(changed) => if changed {
                        propagate(n, seq![(svc, def)], m3)
                    } else {
                        (Ok(()), m3)
                    },
                }
            },
        }
    }
}

/// Whether an error is no failure of the program, but stops the run.
pub open spec fn stops(e: ErrM) -> bool {
    e is Suspended || e is DepthExceeded
}

/// A definition is computed anew from the current values and its cached ones.
/// Tells whether its value changed; a failure leaves it as it was.
#[verifier::opaque]
pub open spec fn recompute_def(n: nat, svc: Symbol, def: Symbol, m: ManagerM) -> (
    Result<bool, ErrM>,
    ManagerM,
)
    decreases n, 0nat, 0nat,
{
    if n == 0 {
        (Err(ErrM::DepthExceeded), m)
    } else {
        match model::def_of(m, svc, def) {
            None => (Ok(false), m),
            Some(e) => {
                let s = table::get(m.services, svc)->Some_0;
                let m1 = ManagerM { reactive_cache: Some(model::cache_of(s, def)), ..m };
                let (r, w) = eval(
                    (n - 1) as nat,
                    e,
                    model::var_env(s),
                    svc,
                    World { m: m1, t: None },
                );
                let m2 = ManagerM { reactive_cache: None, ..w.m };
                match r {
                    Err(x) => if stops(x) {
                        (Err(x), m2)
                    } else {
                        (Ok(false), m2)
                    },
                    Ok(v) => match model::var_of(m2, svc, def) {
                        None => (Ok(false), m2),
                        Some(old_state) => (
                            Ok(old_state.value != v),
                            model::with_var(m2, svc, def, VarStateM { value: v, ..old_state }),
                        ),
                    },
                }
            },
        }
    }
}

/// The changes on the list are passed on to their listeners, with all that
/// follows from them.
#[verifier::opaque]
pub open spec fn propagate(n: nat, work: Seq<(Symbol, Symbol)>, m: ManagerM) -> (
    Result<(), ErrM>,
    ManagerM,
)
    decreases n, 0nat, CHANGE_LIMIT + 1,
{
    pass_on(n, CHANGE_LIMIT as nat, work, m)
}

/// The changes on the list are passed on to their listeners, the last first;
/// a definition that changes by that goes on the list itself. At most `left`
/// changes are passed on.
#[verifier::opaque]
pub open spec fn pass_on(n: nat, left: nat, work: Seq<(Symbol, Symbol)>, m: ManagerM) -> (
    Result<(), ErrM>,
    ManagerM,
)
    decreases n, 0nat, left,
{
    if work.len() == 0 {
        (Ok(()), m)
    } else if n == 0 || left == 0 {
        (Err(ErrM::DepthExceeded), m)
    } else {
        let (svc, member) = work.last();
        let (r, m1) = notify(
            (n - 1) as nat,
            model::listeners_of(m, svc, member),
            0,
            svc,
            member,
            work.drop_last(),
            m,
        );
        match r {
            Err(x) => (Err(x), m1),
            Ok(more) => pass_on(n, (left - 1) as nat, more, m1),
        }
    }
}

/// The listeners from place `i` on are told of a change: a local definition is
/// computed anew, a remote one gets a message. Gives the list of changes.
#[verifier::opaque]
pub open spec fn notify(
    n: nat,
    listeners: Seq<KeyM>,
    i: nat,
    svc: Symbol,
    member: Symbol,
    work: Seq<(Symbol, Symbol)>,
    m: ManagerM,
) -> (Result<Seq<(Symbol, Symbol)>, ErrM>, ManagerM)
    decreases n, 1nat, listeners.len() - i,
{
    if i >= listeners.len() {
        (Ok(work), m)
    } else {
        let (id, def) = listeners[i as int];
        match model::name_for_id(m, id) {
            Some(lsvc) => {
                let (r, m1) = recompute_def(n, lsvc, def, m);
                match r {
                    Err(x) => (Err(x), m1),
                    Ok(changed) => notify(
                        n,
                        listeners,
                        i + 1,
                        svc,
                        member,
                        if changed {
                            work.push((lsvc, def))
                        } else {
                            work
                        },
                        m1,
                    ),
                }
            },
            None => notify(
                n,
                listeners,
                i + 1,
                svc,
                member,
                work,
                model::emit_update(m, id, def, svc, member),
            ),
        }
    }
}

/// A member is assigned to. A transaction keeps the value to itself; without
/// one the value is stored and the change is passed on.
#[verifier::opaque]
pub open spec fn assign(n: nat, svc: Symbol, var: Symbol, value: ValueM<Symbol>, w: World) -> (
    Result<(), ErrM>,
    World,
)
    decreases n, 1nat, 0nat,
{
    match w.t {
        Some(t) => model::buffer_write(svc, var, value, w.m, t),
        None => match table::get(w.m.services, svc) {
            None => (Err(ErrM::ServiceNotFound(model::no_service_text(w.m, svc))), w),
            Some(s) => match table::get(s.vars, var) {
                None => (Err(ErrM::VarNotFound(model::no_var_text(w.m, var, svc))), w),
                Some(v) => {
                    let (r, m1) = propagate(
                        n,
                        seq![(svc, var)],
                        model::with_var(w.m, svc, var, VarStateM { value, ..v }),
                    );
                    (r, World { m: m1, t: None })
                },
            },
        },
    }
}

/// A statement is executed.
#[verifier::opaque]
pub open spec fn execute(n: nat, s: ActionStmtM<Symbol>, env: EnvM, svc: Symbol, w: World) -> (
    Result<EffectM, ErrM>,
    World,
)
    decreases n, 0nat, 0nat,
{
    if n == 0 {
        (Err(ErrM::DepthExceeded), w)
    } else {
        execute_step((n - 1) as nat, s, env, svc, w)
    }
}

/// A statement is executed, by its form.
#[verifier::opaque]
pub open spec fn execute_step(
    n: nat,
    s: ActionStmtM<Symbol>,
    env: EnvM,
    svc: Symbol,
    w: World,
) -> (Result<EffectM, ErrM>, World)
    decreases n, 7nat, 0nat,
{
    match s {
        ActionStmtM::Insert { row, table_name } => (Err(ErrM::NotImplemented), w),
        _ => {
            let (r, w1) = eval(n, read_write::stmt_expr(s), env, svc, w);
            match r {
                Err(x) => (Err(x), w1),
                Ok(v) => match s {
                    ActionStmtM::Assign { name, expr } => {
                        let (a, w2) = assign(n, svc, name, v, w1);
                        match a {
                            Err(x) => (Err(x), w2),
                            Ok(_) => (Ok(EffectM::Nothing), w2),
                        }
                    },
                    ActionStmtM::Do(expr) => match v {
                        ValueM::ActionClosure { stmts, env: own, service_net_id } => {
                            let (a, w2) = match model::name_for_id(w1.m, service_net_id) {
                                Some(target) => exec_block(n, stmts, 0, own, target, w1),
                                None => remote_action(n, service_net_id, stmts, own, w1),
                            };
                            match a {
                                Err(x) => (Err(x), w2),
                                Ok(_) => (Ok(EffectM::Nothing), w2),
                            }
                        },
                        _ => (Err(ErrM::TypeError("do expects an action"@)), w1),
                    },
                    ActionStmtM::Assert(expr, written) => match v {
                        ValueM::Bool { val } => if val {
                            (Ok(EffectM::Nothing), w1)
                        } else {
                            (Err(ErrM::AssertionError(written)), w1)
                        },
                        _ => (Err(ErrM::TypeError("assert expects a boolean"@)), w1),
                    },
                    ActionStmtM::Let { name, ty, expr } => (Ok(EffectM::Binding(name, v)), w1),
                    _ => (Ok(EffectM::ExprValue(v)), w1),
                },
            }
        },
    }
}

/// The statements from place `i` on are executed; a `let` binds for those
/// after it.
#[verifier::opaque]
pub open spec fn exec_block(
    n: nat,
    stmts: Seq<ActionStmtM<Symbol>>,
    i: nat,
    env: EnvM,
    svc: Symbol,
    w: World,
) -> (Result<(), ErrM>, World)
    decreases n, 1nat, stmts.len() - i,
{
    if i >= stmts.len() {
        (Ok(()), w)
    } else {
        let (r, w1) = execute(n, stmts[i as int], env, svc, w);
        match r {
            Err(x) => (Err(x), w1),
            Ok(EffectM::Binding(name, v)) => exec_block(
                n,
                stmts,
                i + 1,
                env.push((name, v)),
                svc,
                w1,
            ),
            Ok(_) => exec_block(n, stmts, i + 1, env, svc, w1),
        }
    }
}

/// The wire form of an action's bindings. Their names are not tested, unlike
/// the values.
pub open spec fn action_env(m: ManagerM, env: EnvM) -> Seq<(Seq<char>, ValueM<Seq<char>>)> {
    renaming::map_env(wire::naming(m.interner), env)
}

/// The courses of writing values.
pub open spec fn env_value_logs(s: Seq<(Seq<char>, ValueM<Seq<char>>)>) -> Seq<wire::Log> {
    Seq::new(s.len(), |i: int| wire::value_log(s[i].1))
}

/// The course of writing an action: its statements, then its bindings.
pub open spec fn action_log(
    stmts: Seq<ActionStmtM<Seq<char>>>,
    env: Seq<(Seq<char>, ValueM<Seq<char>>)>,
) -> wire::Log {
    wire::concat_all(wire::stmt_logs(stmts)).and(wire::concat_all(env_value_logs(env)))
}

/// An action is sent to the node that owns it, under the transaction.
#[verifier::opaque]
pub open spec fn remote_action(
    n: nat,
    id: Seq<char>,
    stmts: Seq<ActionStmtM<Symbol>>,
    env: EnvM,
    w: World,
) -> (Result<(), ErrM>, World)
    decreases n, 6nat, 0nat,
{
    let (addr, slug) = model::split_net_id(id);
    let rid = w.m.next_action_id;
    let m1 = ManagerM { next_action_id: rid.wrapping_add(1), ..w.m };
    let w1 = World { m: m1, t: model::with_participant(w.t, addr) };
    let net_stmts = renaming::map_stmts(wire::naming(m1.interner), stmts);
    let net_env = action_env(m1, env);
    match action_log(net_stmts, net_env).err {
        Some(l) => (Err(ErrM::LocalDispatchFailed(wire::limit_text(l))), w1),
        None => {
            let (reply, m2) = send_and_await(
                n,
                addr,
                MessageM::ActionRequest {
                    request_id: rid,
                    service: slug,
                    stmts: net_stmts,
                    env: net_env,
                    reply_to: model::reply_addr(m1),
                    txn_id: model::txn_id(w.t),
                },
                rid,
                "Timeout waiting for remote action on service '"@ + slug + "'"@,
                m1,
            );
            (action_reply(reply), World { m: m2, t: w1.t })
        },
    }
}

/// What a reply with a success flag and perhaps an error says.
pub open spec fn acknowledged(success: bool, error: Option<Seq<char>>, otherwise: Seq<char>) -> Result<
    (),
    ErrM,
> {
    if success {
        Ok(())
    } else {
        Err(
            ErrM::LocalDispatchFailed(
                match error {
                    Some(e) => e,
                    None => otherwise,
                },
            ),
        )
    }
}

} // verus!
