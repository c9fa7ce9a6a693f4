//! Reading members, waiting for replies, and passing changes on.

use crate::net::codec;
use crate::net::messages::{EventM, MeerkatMessage, MessageM, NetworkEvent};
use crate::net::types::{Address, ServiceNetId};
use crate::net::wire;
use crate::runtime::ast::renaming;
use crate::runtime::ast::{ActionStmt, Value};
use crate::runtime::interner;
use crate::runtime::interner::Symbol;
use crate::runtime::interpreter::evaluator;
use crate::runtime::interpreter::evaluator::{eval_at, EvalError};
use crate::runtime::manager;
use crate::runtime::manager::model;
use crate::runtime::manager::model::{ManagerM, SlotM};
use crate::runtime::manager::replay;
use crate::runtime::manager::semantics;
use crate::runtime::manager::state;
use crate::runtime::manager::state::Mark;
use crate::runtime::manager::{Manager, ReplySlot};
use crate::runtime::table;
use crate::runtime::table::{Plain, Table};
use crate::runtime::text;
use crate::runtime::txn::Transaction;
use vstd::prelude::*;

verus! {

/// A channel that was registered is open.
proof fn lemma_registered(m: ManagerM, rid: u64)
    ensures
        table::get(model::register(m, rid).channels, m.next_channel) == Some(SlotM::Open),
        model::inbox_len(model::register(m, rid)) == model::inbox_len(m),
{
    let closed = match table::get(m.pending_replies, rid) {
        Some(c) => table::put(m.channels, c, SlotM::Closed),
        None => m.channels,
    };
    table::lemma_put(closed, m.next_channel, SlotM::Open, m.next_channel);
}

/// Whether an event starts the time anew that the reply to request `rid` may
/// take: its owner says that the request is alive and still queued.
pub fn extends_deadline(event: &NetworkEvent, rid: u64) -> (r: bool)
    ensures
        r == (event.deep_view() matches EventM::MessageReceived { msg, .. }
            && msg matches MessageM::WaitParked { request_id, .. } && request_id == rid),
{
    match event {
        NetworkEvent::MessageReceived { msg: MeerkatMessage::WaitParked { request_id }, .. } => {
            *request_id == rid
        },
        _ => false,
    }
}

impl Manager {
    /// The request whose reply is waited for, where a step is held up: the one
    /// that was registered last.
    pub fn awaited_request(&self) -> (r: Option<u64>)
        ensures
            r == model::awaited(self.deep_view()),
    {
        let n: usize = self.pending_replies.entries.len();
        assert(self.pending_replies.deep_view().len() == n);
        if n == 0 {
            None
        } else {
            Some(self.pending_replies.entries[n - 1].0)
        }
    }

    /// Reads a member of a service with `fuel` nested steps left.
    pub fn lookup_at(
        &mut self,
        fuel: u64,
        var_name: Symbol,
        service_name: Symbol,
        txn: &mut Option<Transaction>,
    ) -> (r: Result<Value, EvalError>)
        ensures
            (evaluator::res(r), manager::world(*final(self), *final(txn))) == semantics::lookup(
                fuel as nat,
                var_name,
                service_name,
                manager::world(*old(self), *old(txn)),
            ),
        decreases fuel, 0nat,
    {
        proof {
            reveal(semantics::lookup);
            reveal(semantics::remote_lookup);
            reveal(semantics::eval);
        }
        if fuel == 0 {
            return Err(EvalError::DepthExceeded);
        }
        let n: u64 = fuel - 1;
        if self.remote_services.contains_key(&service_name) {
            return self.remote_lookup_at(n, service_name, var_name, txn);
        }
        let def_expr = match self.services.get(&service_name) {
            None => None,
            Some(s) => match s.defs.get(&var_name) {
                None => None,
                Some(e) => Some(e.dup()),
            },
        };
        match def_expr {
            Some(e) => {
                let env: Vec<(Symbol, Value)> = Vec::new();
                assert(env.deep_view() =~= Seq::<
                    (Symbol, crate::runtime::ast::model::ValueM<Symbol>),
                >::empty());
                eval_at(n, &e, &env, self, service_name, txn)
            },
            None => self.local_read(var_name, service_name, txn),
        }
    }

    /// Asks the owner of a remote member for its value.
    pub fn remote_lookup_at(
        &mut self,
        fuel: u64,
        service: Symbol,
        member: Symbol,
        txn: &mut Option<Transaction>,
    ) -> (r: Result<Value, EvalError>)
        ensures
            (
                evaluator::res(r),
                manager::world(*final(self), *final(txn)),
            ) == semantics::remote_lookup(
                fuel as nat,
                service,
                member,
                manager::world(*old(self), *old(txn)),
            ),
        decreases fuel, 6nat,
    {
        proof {
            reveal(semantics::remote_lookup);
            reveal(semantics::send_and_await);
        }
        let addr = match self.remote_addr(service) {
            Err(e) => {
                return Err(e);
            },
            Ok(a) => a,
        };
        let request_id: u64 = self.next_lookup_id;
        self.next_lookup_id = request_id.wrapping_add(1);
        let reply_to = self.local_reply_addr();
        let shared = join(txn, &addr);
        let msg = MeerkatMessage::LookupRequest {
            request_id,
            service: self.interner.get(service),
            member: self.interner.get(member),
            reply_to,
            txn_id: shared,
        };
        let late = text::cat5(
            "Timeout waiting for remote lookup of '",
            self.interner.get(service).as_str(),
            ".",
            self.interner.get(member).as_str(),
            "'",
        );
        let reply = self.send_and_await_at(fuel, addr, msg, request_id, &late);
        self.finish_lookup(reply)
    }

    /// Turns the reply to a lookup into a value.
    pub fn finish_lookup(&mut self, reply: Result<MeerkatMessage, EvalError>) -> (r: Result<
        Value,
        EvalError,
    >)
        ensures
            (evaluator::res(r), final(self).deep_view()) == semantics::lookup_reply(
                evaluator::res(reply),
                old(self).deep_view(),
            ),
    {
        match reply {
            Err(e) => Err(e),
            Ok(MeerkatMessage::LookupResponse { value, .. }) => match codec::decode_value(
                value,
                &mut self.interner,
            ) {
                Ok(v) => Ok(v),
                Err(e) => Err(EvalError::from_codec(&e)),
            },
            Ok(MeerkatMessage::LookupError { error, .. }) => Err(
                EvalError::LocalDispatchFailed(error),
            ),
            Ok(_) => Err(
                EvalError::LocalDispatchFailed("Unexpected reply to lookup request".to_owned()),
            ),
        }
    }

    /// Sends a message and waits for the reply to it.
    pub fn send_and_await_at(
        &mut self,
        fuel: u64,
        addr: Address,
        msg: MeerkatMessage,
        request_id: u64,
        timeout_msg: &String,
    ) -> (r: Result<MeerkatMessage, EvalError>)
        ensures
            (evaluator::res(r), final(self).deep_view()) == semantics::send_and_await(
                fuel as nat,
                addr.deep_view(),
                msg.deep_view(),
                request_id,
                timeout_msg@,
                old(self).deep_view(),
            ),
        decreases fuel, 5nat,
    {
        proof {
            reveal(semantics::send_and_await);
            reveal(semantics::await_reply);
        }
        if self.network.is_none() {
            return Err(EvalError::LocalDispatchFailed("No network layer available".to_owned()));
        }
        self.send_oneway(addr, msg);
        let ghost m1 = self.deep_view();
        let chan = self.register(request_id);
        proof {
            lemma_registered(m1, request_id);
        }
        self.await_reply_at(fuel, request_id, chan, timeout_msg)
    }

    /// Waits for the reply to a request on a channel that is open.
    fn await_reply_at(&mut self, fuel: u64, rid: u64, chan: u64, timeout_msg: &String) -> (r:
        Result<MeerkatMessage, EvalError>)
        requires
            table::get(old(self).deep_view().channels, chan) == Some(SlotM::Open),
        ensures
            (evaluator::res(r), final(self).deep_view()) == semantics::await_reply(
                fuel as nat,
                rid,
                chan,
                timeout_msg@,
                old(self).deep_view(),
            ),
        decreases fuel, 4nat,
    {
        let mut c: u64 = chan;
        let ghost whole = semantics::await_reply(
            fuel as nat,
            rid,
            chan,
            timeout_msg@,
            self.deep_view(),
        );
        loop
            invariant
                whole == semantics::await_reply(
                    fuel as nat,
                    rid,
                    c,
                    timeout_msg@,
                    self.deep_view(),
                ),
                whole == semantics::await_reply(
                    fuel as nat,
                    rid,
                    chan,
                    timeout_msg@,
                    old(self).deep_view(),
                ),
                table::get(self.deep_view().channels, c) == Some(SlotM::Open),
            decreases model::inbox_len(self.deep_view()),
        {
            proof {
                reveal(semantics::await_reply);
                reveal(semantics::dispatch);
                replay::go_dispatch(fuel as nat, self.deep_view());
            }
            match self.dispatch_at(fuel) {
                Err(e) => {
                    return Err(e);
                },
                Ok(_) => {},
            }
            let still_open = match self.channels.get(&c) {
                Some(ReplySlot::Open) => true,
                _ => false,
            };
            if still_open {
                match self.take_mark() {
                    Mark::Elapsed => {
                        let _ = self.channels.remove(&c);
                        let _ = self.pending_replies.remove(&rid);
                        return Err(EvalError::LocalDispatchFailed(timeout_msg.clone()));
                    },
                    Mark::Resume => {
                        continue ;
                    },
                    Mark::Neither => {
                        return Err(EvalError::Suspended);
                    },
                }
            }
            match self.channels.remove(&c) {
                Some(ReplySlot::Full(msg)) => {
                    let parked = match &msg {
                        MeerkatMessage::WaitParked { .. } => true,
                        _ => false,
                    };
                    if !parked {
                        return Ok(msg);
                    }
                    let ghost gone = self.deep_view();
                    c = self.register(rid);
                    proof {
                        lemma_registered(gone, rid);
                    }
                },
                _ => {
                    return Err(
                        EvalError::LocalDispatchFailed("Reply channel closed".to_owned()),
                    );
                },
            }
        }
    }

    /// Handles the events in the inbox, with `fuel` nested steps left for each.
    pub fn dispatch_at(&mut self, fuel: u64) -> (r: Result<(), EvalError>)
        ensures
            (evaluator::done(r), final(self).deep_view()) == semantics::dispatch(
                fuel as nat,
                old(self).deep_view(),
            ),
        decreases fuel, 3nat,
    {
        let ghost whole = semantics::dispatch(fuel as nat, self.deep_view());
        loop
            invariant
                whole == semantics::dispatch(fuel as nat, self.deep_view()),
                whole == semantics::dispatch(fuel as nat, old(self).deep_view()),
            decreases model::inbox_len(self.deep_view()),
        {
            proof {
                reveal(semantics::dispatch);
                reveal(semantics::handle_event);
            }
            match self.next_event() {
                None => {
                    return Ok(());
                },
                Some(ev) => {
                    proof {
                        replay::go_event(fuel as nat, ev.deep_view(), self.deep_view());
                    }
                    match self.handle_event_at(fuel, ev) {
                        Err(e) => {
                            return Err(e);
                        },
                        Ok(_) => {},
                    }
                },
            }
        }
    }

    /// Handles one event.
    pub fn handle_event_at(&mut self, fuel: u64, ev: NetworkEvent) -> (r: Result<(), EvalError>)
        ensures
            (evaluator::done(r), final(self).deep_view()) == semantics::handle_event(
                fuel as nat,
                ev.deep_view(),
                old(self).deep_view(),
            ),
        decreases fuel, 2nat,
    {
        proof {
            reveal(semantics::handle_event);
            reveal(semantics::handle_update);
        }
        match ev {
            NetworkEvent::MessageReceived { peer, msg } => match msg {
                MeerkatMessage::RequestUpdates {
                    request_id,
                    service,
                    member,
                    listener_service,
                    listener_def,
                    reply_to,
                } => {
                    match codec::decode_request_updates(
                        &service,
                        &member,
                        &listener_def,
                        &mut self.interner,
                    ) {
                        Err(_) => Ok(()),
                        Ok((s, m, d)) => {
                            self.handle_request_updates(
                                s,
                                m,
                                ServiceNetId(listener_service),
                                d,
                                reply_to,
                            );
                            Ok(())
                        },
                    }
                },
                MeerkatMessage::Update {
                    listener_service,
                    listener_def,
                    source_service,
                    member,
                    value,
                } => {
                    match codec::decode_update(
                        &listener_def,
                        &source_service,
                        &member,
                        &mut self.interner,
                    ) {
                        Err(_) => Ok(()),
                        Ok((d, s, m)) => self.handle_update_at(
                            fuel,
                            ServiceNetId(listener_service),
                            d,
                            s,
                            m,
                            value,
                        ),
                    }
                },
                other => {
                    self.deliver(other);
                    Ok(())
                },
            },
            NetworkEvent::SendFailed { .. } => Ok(()),
            NetworkEvent::PeerConnected { .. } => Ok(()),
            NetworkEvent::PeerDisconnected { .. } => Ok(()),
        }
    }

    /// Caches a new value of a remote member and computes the definition that
    /// uses it anew, with `fuel` nested steps left.
    pub fn handle_update_at(
        &mut self,
        fuel: u64,
        listener_id: ServiceNetId,
        def: Symbol,
        source: Symbol,
        member: Symbol,
        value: crate::net::ast::NetValue,
    ) -> (r: Result<(), EvalError>)
        ensures
            (evaluator::done(r), final(self).deep_view()) == semantics::handle_update(
                fuel as nat,
                listener_id.deep_view(),
                def,
                source,
                member,
                value.deep_view(),
                old(self).deep_view(),
            ),
        decreases fuel, 1nat,
    {
        proof {
            reveal(semantics::handle_update);
            reveal(semantics::recompute_def);
            reveal(semantics::propagate);
        }
        let val = match codec::decode_value(value, &mut self.interner) {
            Err(_) => {
                return Ok(());
            },
            Ok(v) => v,
        };
        let svc = match self.service_name_for_net_id(&listener_id) {
            None => {
                return Ok(());
            },
            Some(s) => s,
        };
        match self.services.get_mut(&svc) {
            None => {},
            Some(s) => {
                let mut c = match s.dep_cache.get(&def) {
                    Some(c) => c.dup(),
                    None => Table::new(),
                };
                c.insert((source, member), val);
                s.dep_cache.insert(def, c);
            },
        }
        match self.recompute_at(fuel, svc, def) {
            Err(e) => Err(e),
            Ok(changed) => if changed {
                self.propagate_at(fuel, svc, def)
            } else {
                Ok(())
            },
        }
    }

    /// Computes a definition anew, and tells whether its value changed.
    fn recompute_at(&mut self, fuel: u64, svc: Symbol, def: Symbol) -> (r: Result<bool, EvalError>)
        ensures
            (evaluator::res(r), final(self).deep_view()) == semantics::recompute_def(
                fuel as nat,
                svc,
                def,
                old(self).deep_view(),
            ),
        decreases fuel, 0nat,
    {
        proof {
            reveal(semantics::recompute_def);
            reveal(semantics::eval);
        }
        if fuel == 0 {
            return Err(EvalError::DepthExceeded);
        }
        let (expr, env, cache) = match self.services.get(&svc) {
            None => {
                return Ok(false);
            },
            Some(s) => match s.defs.get(&def) {
                None => {
                    return Ok(false);
                },
                Some(e) => {
                    let cache = match s.dep_cache.get(&def) {
                        Some(c) => c.dup(),
                        None => Table::new(),
                    };
                    (e.dup(), s.env(), cache)
                },
            },
        };
        self.reactive_cache = Some(cache);
        let mut none: Option<Transaction> = None;
        let result = eval_at(fuel - 1, &expr, &env, self, svc, &mut none);
        self.reactive_cache = None;
        let value = match result {
            Ok(v) => v,
            Err(EvalError::Suspended) => {
                return Err(EvalError::Suspended);
            },
            Err(EvalError::DepthExceeded) => {
                return Err(EvalError::DepthExceeded);
            },
            Err(_) => {
                return Ok(false);
            },
        };
        let ghost m2 = self.deep_view();
        match self.services.get_mut(&svc) {
            None => Ok(false),
            Some(s) => {
                let ghost s0 = s.deep_view();
                match s.vars.get_mut(&def) {
                    None => {
                        proof {
                            state::lemma_put_same(m2.services, svc);
                        }
                        Ok(false)
                    },
                    Some(v) => {
                        let differs = !v.value.same(&value);
                        v.value = value;
                        Ok(differs)
                    },
                }
            },
        }
    }

    /// Passes a change of a member on, with `fuel` nested steps left.
    pub fn propagate_at(&mut self, fuel: u64, svc: Symbol, member: Symbol) -> (r: Result<
        (),
        EvalError,
    >)
        ensures
            (evaluator::done(r), final(self).deep_view()) == semantics::propagate(
                fuel as nat,
                seq![(svc, member)],
                old(self).deep_view(),
            ),
        decreases fuel, 0nat,
    {
        let mut work: Vec<(Symbol, Symbol)> = Vec::new();
        work.push((svc, member));
        let mut left: u64 = semantics::CHANGE_LIMIT;
        let ghost whole = semantics::propagate(
            fuel as nat,
            seq![(svc, member)],
            self.deep_view(),
        );
        proof {
            reveal(semantics::propagate);
            reveal(semantics::pass_on);
        }
        assert(work.deep_view() =~= seq![(svc, member)]);
        while fuel > 0 && left > 0 && work.len() > 0
            invariant
                whole == semantics::pass_on(
                    fuel as nat,
                    left as nat,
                    work.deep_view(),
                    self.deep_view(),
                ),
                whole == semantics::propagate(
                    fuel as nat,
                    seq![(svc, member)],
                    old(self).deep_view(),
                ),
            decreases left,
        {
            proof {
                reveal(semantics::pass_on);
                reveal(semantics::notify);
            }
            left = left - 1;
            let ghost w0 = work.deep_view();
            let (s, m) = match work.pop() {
                Some(x) => x,
                None => {
                    return Ok(());
                },
            };
            assert(w0.last() == (s, m));
            assert(work.deep_view() =~= w0.drop_last());
            let listeners = match self.services.get(&s) {
                None => {
                    let none: Vec<(ServiceNetId, Symbol)> = Vec::new();
                    assert(none.deep_view() =~= Seq::<model::KeyM>::empty());
                    none
                },
                Some(x) => match x.listeners.get(&m) {
                    None => {
                        let none: Vec<(ServiceNetId, Symbol)> = Vec::new();
                        assert(none.deep_view() =~= Seq::<model::KeyM>::empty());
                        none
                    },
                    Some(l) => l.dup(),
                },
            };
            match self.notify_at(fuel - 1, &listeners, s, m, work) {
                Err(e) => {
                    return Err(e);
                },
                Ok(more) => {
                    work = more;
                },
            }
        }
        proof {
            reveal(semantics::pass_on);
        }
        if work.len() == 0 {
            assert(work.deep_view().len() == 0);
            Ok(())
        } else {
            Err(EvalError::DepthExceeded)
        }
    }

    /// Tells the listeners of a member that it changed; gives the list of
    /// changes that are still to be passed on.
    fn notify_at(
        &mut self,
        fuel: u64,
        listeners: &Vec<(ServiceNetId, Symbol)>,
        svc: Symbol,
        member: Symbol,
        work: Vec<(Symbol, Symbol)>,
    ) -> (r: Result<Vec<(Symbol, Symbol)>, EvalError>)
        ensures
            (evaluator::res(r), final(self).deep_view()) == semantics::notify(
                fuel as nat,
                listeners.deep_view(),
                0,
                svc,
                member,
                work.deep_view(),
                old(self).deep_view(),
            ),
        decreases fuel, 1nat,
    {
        let ghost l = listeners.deep_view();
        let ghost work0 = work.deep_view();
        let ghost whole = semantics::notify(
            fuel as nat,
            l,
            0,
            svc,
            member,
            work0,
            self.deep_view(),
        );
        let mut out = work;
        for i in 0..listeners.len()
            invariant
                l == listeners.deep_view(),
                work0 == work.deep_view(),
                whole == semantics::notify(
                    fuel as nat,
                    l,
                    i as nat,
                    svc,
                    member,
                    out.deep_view(),
                    self.deep_view(),
                ),
                whole == semantics::notify(
                    fuel as nat,
                    l,
                    0,
                    svc,
                    member,
                    work0,
                    old(self).deep_view(),
                ),
        {
            proof {
                reveal(semantics::notify);
                reveal(semantics::recompute_def);
                assert(l[i as int] == listeners@[i as int].deep_view());
            }
            let def = listeners[i].1;
            match self.service_name_for_net_id(&listeners[i].0) {
                Some(lsvc) => {
                    match self.recompute_at(fuel, lsvc, def) {
                        Err(e) => {
                            return Err(e);
                        },
                        Ok(changed) => {
                            if changed {
                                let ghost before = out.deep_view();
                                out.push((lsvc, def));
                                assert(out.deep_view() =~= before.push((lsvc, def)));
                            }
                        },
                    }
                },
                None => {
                    self.emit_update(&listeners[i].0, def, svc, member);
                },
            }
        }
        proof {
            reveal(semantics::notify);
        }
        Ok(out)
    }

    /// Assigns to a member, with `fuel` nested steps left.
    pub fn assign_at(
        &mut self,
        fuel: u64,
        service_name: Symbol,
        var_name: Symbol,
        value: Value,
        txn: &mut Option<Transaction>,
    ) -> (r: Result<(), EvalError>)
        ensures
            (evaluator::done(r), manager::world(*final(self), *final(txn))) == semantics::assign(
                fuel as nat,
                service_name,
                var_name,
                value.deep_view(),
                manager::world(*old(self), *old(txn)),
            ),
        decreases fuel, 1nat,
    {
        proof {
            reveal(semantics::assign);
            reveal(semantics::propagate);
        }
        match txn {
            Some(t) => self.buffer_write(service_name, var_name, value, t),
            None => {
                let ghost m0 = self.deep_view();
                let found = match self.services.get_mut(&service_name) {
                    None => None,
                    Some(s) => match s.vars.get_mut(&var_name) {
                        None => {
                            proof {
                                state::lemma_put_same(m0.services, service_name);
                            }
                            Some(false)
                        },
                        Some(v) => {
                            v.value = value;
                            Some(true)
                        },
                    },
                };
                match found {
                    None => Err(self.no_service(service_name)),
                    Some(false) => Err(self.no_var(var_name, service_name)),
                    Some(true) => self.propagate_at(fuel, service_name, var_name),
                }
            },
        }
    }
}

impl Manager {
    /// Sends an action to the node that owns it, under the transaction.
    #[verifier::rlimit(40)]
    #[verifier::spinoff_prover]
    pub fn remote_action_at(
        &mut self,
        fuel: u64,
        service_net_id: &ServiceNetId,
        stmts: &Vec<ActionStmt>,
        env: &Vec<(Symbol, Value)>,
        txn: &mut Option<Transaction>,
    ) -> (r: Result<(), EvalError>)
        ensures
            (
                evaluator::done(r),
                manager::world(*final(self), *final(txn)),
            ) == semantics::remote_action(
                fuel as nat,
                service_net_id.deep_view(),
                stmts.deep_view(),
                env.deep_view(),
                manager::world(*old(self), *old(txn)),
            ),
        decreases fuel, 6nat,
    {
        proof {
            reveal(semantics::remote_action);
            reveal(semantics::send_and_await);
        }
        let (addr, slug) = state::split_service_net_id(service_net_id);
        let request_id: u64 = self.next_action_id;
        self.next_action_id = request_id.wrapping_add(1);
        let reply_to = self.local_reply_addr();
        let shared = join(txn, &addr);
        let (net_stmts, net_env) = match self.encode_action(stmts, env) {
            Ok(x) => x,
            Err(e) => {
                return Err(EvalError::from_codec(&e));
            },
        };
        let late = text::cat3(
            "Timeout waiting for remote action on service '",
            slug.as_str(),
            "'",
        );
        let msg = MeerkatMessage::ActionRequest {
            request_id,
            service: slug,
            stmts: net_stmts,
            env: net_env,
            reply_to,
            txn_id: shared,
        };
        let reply = self.send_and_await_at(fuel, addr, msg, request_id, &late);
        finish_action(reply)
    }

    /// The wire form of an action.
    fn encode_action(&self, stmts: &Vec<ActionStmt>, env: &Vec<(Symbol, Value)>) -> (r: Result<
        (
            Vec<crate::net::ast::NetActionStmt>,
            Vec<(String, crate::net::ast::NetValue)>,
        ),
        crate::error::Error,
    >)
        ensures
            ({
                let s = renaming::map_stmts(wire::naming(self.interner@), stmts.deep_view());
                let e = semantics::action_env(self.deep_view(), env.deep_view());
                wire::outcome(r, semantics::action_log(s, e), (s, e))
            }),
    {
        let s = match codec::encode_stmts(stmts, &self.interner) {
            Ok(s) => s,
            Err(e) => {
                return Err(e);
            },
        };
        match self.encode_action_env(env) {
            Ok(e) => Ok((s, e)),
            Err(e) => Err(e),
        }
    }

    /// The wire form of an action's bindings.
    fn encode_action_env(&self, env: &Vec<(Symbol, Value)>) -> (r: Result<
        Vec<(String, crate::net::ast::NetValue)>,
        crate::error::Error,
    >)
        ensures
            wire::outcome(
                r,
                wire::concat_all(
                    semantics::env_value_logs(
                        semantics::action_env(self.deep_view(), env.deep_view()),
                    ),
                ),
                semantics::action_env(self.deep_view(), env.deep_view()),
            ),
    {
        let ghost t = semantics::action_env(self.deep_view(), env.deep_view());
        let ghost logs = semantics::env_value_logs(t);
        let mut out: Vec<(String, crate::net::ast::NetValue)> = Vec::new();
        for i in 0..env.len()
            invariant
                t == semantics::action_env(self.deep_view(), env.deep_view()),
                logs == semantics::env_value_logs(t),
                wire::concat(logs, i as nat).err is None,
                out@.len() == i,
                forall|j: int| 0 <= j < i ==> (#[trigger] out@[j]).deep_view() == t[j],
        {
            assert(t[i as int] == (
                interner::name_of(self.interner@, env@[i as int].0),
                renaming::map_value(
                    wire::naming(self.interner@),
                    env@[i as int].1.deep_view(),
                ),
            ));
            match codec::encode_value(&env[i].1, &self.interner) {
                Ok(v) => {
                    out.push((self.interner.get(env[i].0), v));
                },
                Err(e) => {
                    proof {
                        wire::lemma_concat_stops(logs, (i + 1) as nat, logs.len());
                    }
                    return Err(e);
                },
            }
        }
        assert(out.deep_view() =~= t);
        Ok(out)
    }
}

/// What the reply to an action says.
pub fn finish_action(reply: Result<MeerkatMessage, EvalError>) -> (r: Result<(), EvalError>)
    ensures
        evaluator::done(r) == semantics::action_reply(evaluator::res(reply)),
{
    match reply {
        Err(e) => Err(e),
        Ok(MeerkatMessage::ActionResponse { success, error, .. }) => {
            if success {
                Ok(())
            } else {
                Err(
                    EvalError::LocalDispatchFailed(
                        match error {
                            Some(e) => e,
                            None => "Remote action failed".to_owned(),
                        },
                    ),
                )
            }
        },
        Ok(_) => Err(
            EvalError::LocalDispatchFailed("Unexpected reply to action request".to_owned()),
        ),
    }
}

/// What the reply to a commit says.
pub fn finish_commit(reply: Result<MeerkatMessage, EvalError>) -> (r: Result<(), EvalError>)
    ensures
        evaluator::done(r) == semantics::commit_reply(evaluator::res(reply)),
{
    match reply {
        Err(e) => Err(e),
        Ok(MeerkatMessage::CommitResponse { success, error, .. }) => {
            if success {
                Ok(())
            } else {
                Err(
                    EvalError::LocalDispatchFailed(
                        match error {
                            Some(e) => e,
                            None => "Participant commit failed".to_owned(),
                        },
                    ),
                )
            }
        },
        Ok(_) => Err(EvalError::LocalDispatchFailed("Unexpected reply to commit".to_owned())),
    }
}

impl crate::runtime::manager::Service {
    /// The values of the variables, as bindings.
    pub fn env(&self) -> (r: Vec<(Symbol, Value)>)
        ensures
            r.deep_view() == model::var_env(self.deep_view()),
    {
        let mut out: Vec<(Symbol, Value)> = Vec::new();
        let ghost v = self.deep_view().vars;
        for i in 0..self.vars.entries.len()
            invariant
                v == self.deep_view().vars,
                out@.len() == i,
                forall|j: int|
                    0 <= j < i ==> (#[trigger] out@[j]).deep_view() == (v[j].0, v[j].1.value),
        {
            out.push((self.vars.entries[i].0, self.vars.entries[i].1.value.dup()));
        }
        assert(out.deep_view() =~= model::var_env(self.deep_view()));
        out
    }
}

/// Makes a node a participant of the transaction, if there is one, and gives
/// the transaction's identity.
fn join(txn: &mut Option<Transaction>, addr: &Address) -> (r: Option<crate::runtime::txn::TxnId>)
    ensures
        final(txn).deep_view() == model::with_participant(
            old(txn).deep_view(),
            addr.deep_view(),
        ),
        r == model::txn_id(old(txn).deep_view()),
{
    match txn {
        None => None,
        Some(t) => {
            table::include_item(&mut t.participants, addr.dup());
            Some(t.id)
        },
    }
}

} // verus!
