//! Single steps on a node's state.

use crate::net::codec;
use crate::net::messages::MeerkatMessage;
use crate::net::types::{Address, ServiceNetId};
use crate::runtime::ast::Value;
use crate::runtime::interner::Symbol;
use crate::runtime::interpreter::evaluator;
use crate::runtime::interpreter::evaluator::{ErrM, EvalError};
use crate::runtime::manager::model;
use crate::runtime::manager::model::{ManagerM, ServiceM, Wish};
use crate::runtime::manager::{Incoming, Manager, ReplySlot};
use crate::runtime::table;
use crate::runtime::table::Plain;
use crate::runtime::text;
use crate::runtime::txn::{Transaction, TxnId, WaitDie};
use vstd::prelude::*;

verus! {

/// The first place with an identity is where nothing before has it.
pub proof fn lemma_place_of_id(s: Seq<(Symbol, ServiceM)>, id: Seq<char>)
    ensures
        model::place_of_id(s, id) <= s.len(),
        model::place_of_id(s, id) < s.len() ==> s[model::place_of_id(s, id) as int].1.id == id,
        forall|j: int| 0 <= j < model::place_of_id(s, id) ==> (#[trigger] s[j]).1.id != id,
    decreases s.len(),
{
    if s.len() > 0 && s[0].1.id != id {
        let rest = s.drop_first();
        lemma_place_of_id(rest, id);
        assert forall|j: int| 0 <= j < model::place_of_id(s, id) implies (#[trigger] s[j]).1.id
            != id by {
            if j > 0 {
                assert(rest[j - 1].1.id != id);
            }
        }
    }
}

impl Manager {
    /// The identity of a service that is known by name.
    ///
    /// A name that is not known stands for itself; the identity of a service of
    /// another node travels with what refers to it.
    pub fn service_net_id_for_name(&self, service_name: Symbol) -> (r: ServiceNetId)
        ensures
            r.deep_view() == model::net_id(self.deep_view(), service_name),
    {
        match self.services.get(&service_name) {
            Some(s) => s.id.dup(),
            None => match self.remote_services.get(&service_name) {
                Some(a) => ServiceNetId(a.0.clone()),
                None => ServiceNetId(self.interner.get(service_name)),
            },
        }
    }

    /// The identity that a service made on this node gets: the node's address
    /// and the service's name, or the bare name where there is no address.
    pub fn compute_service_net_id(&self, service_name: Symbol) -> (r: ServiceNetId)
        ensures
            r.deep_view() == model::new_net_id(self.deep_view(), service_name),
    {
        let name = self.interner.get(service_name);
        match &self.local_address {
            Some(addr) => {
                if text::text_bytes(addr.as_str()) > 0 {
                    proof {
                        lemma_bytes_positive(addr@);
                    }
                    ServiceNetId(text::cat3(addr.as_str(), "/", name.as_str()))
                } else {
                    proof {
                        lemma_bytes_positive(addr@);
                    }
                    ServiceNetId(name)
                }
            },
            None => ServiceNetId(name),
        }
    }

    /// The place of the first service with the identity `id`.
    pub fn find_id(&self, id: &ServiceNetId) -> (r: usize)
        ensures
            r == model::place_of_id(self.deep_view().services, id.deep_view()),
            r <= self.deep_view().services.len(),
    {
        let ghost s = self.deep_view().services;
        for i in 0..self.services.entries.len()
            invariant
                s == self.deep_view().services,
                forall|j: int| 0 <= j < i ==> (#[trigger] s[j]).1.id != id.deep_view(),
        {
            if self.services.entries[i].1.id.same(id) {
                proof {
                    lemma_place_of_id(s, id.deep_view());
                    assert(s[i as int].1.id == id.deep_view());
                }
                return i;
            }
            assert(s[i as int].1.id != id.deep_view());
        }
        proof {
            lemma_place_of_id(s, id.deep_view());
        }
        self.services.entries.len()
    }

    /// The name of the local service with the identity `service_net_id`.
    pub fn service_name_for_net_id(&self, service_net_id: &ServiceNetId) -> (r: Option<Symbol>)
        ensures
            r == model::name_for_id(self.deep_view(), service_net_id.deep_view()),
    {
        let i = self.find_id(service_net_id);
        if i < self.services.entries.len() {
            Some(self.services.entries[i].0)
        } else {
            None
        }
    }

    /// Asks for the lock of a variable.
    fn acquire(
        &mut self,
        service_name: Symbol,
        var: Symbol,
        txn_id: &TxnId,
        wish: LockWish,
    ) -> (r: Result<(), EvalError>)
        ensures
            (evaluator::done(r), final(self).deep_view()) == model::acquire(
                old(self).deep_view(),
                service_name,
                var,
                *txn_id,
                wish.wish(),
            ),
    {
        let ghost before = self.deep_view();
        let svc_name = self.interner.get(service_name);
        let var_name = self.interner.get(var);
        match self.services.get_mut(&service_name) {
            None => Err(
                EvalError::ServiceNotFound(
                    text::cat3("Service '", svc_name.as_str(), "' not found"),
                ),
            ),
            Some(s) => match s.vars.get_mut(&var) {
                None => {
                    proof {
                        lemma_put_same(before.services, service_name);
                    }
                    Err(
                        EvalError::VarNotFound(
                            text::cat3("Variable '", var_name.as_str(), "' not found"),
                        ),
                    )
                },
                Some(v) => {
                    let ghost v0 = v.deep_view();
                    let got = match wish {
                        LockWish::Read => v.lock.try_read(txn_id),
                        LockWish::Write => v.lock.try_write(txn_id),
                        LockWish::Upgrade => v.lock.upgrade_to_write(txn_id),
                    };
                    if got {
                        Ok(())
                    } else {
                        proof {
                            let s0 = table::get(before.services, service_name)->Some_0;
                            lemma_put_same(s0.vars, var);
                            lemma_put_same(before.services, service_name);
                        }
                        match v.lock.wait_die(txn_id) {
                            WaitDie::Wait => Err(EvalError::WaitOn(service_name, var)),
                            WaitDie::Die => Err(
                                EvalError::WaitDieAbort(
                                    text::cat3(
                                        match wish {
                                            LockWish::Read =>
                                                "transaction died contending for read lock on '",
                                            LockWish::Write =>
                                                "transaction died contending for write lock on '",
                                            LockWish::Upgrade =>
                                                "transaction died contending to upgrade lock on '",
                                        },
                                        var_name.as_str(),
                                        "'",
                                    ),
                                ),
                            ),
                        }
                    }
                },
            },
        }
    }
}

impl Manager {
    /// Asks for the write lock of a variable. Where it cannot be had, a
    /// transaction older than all holders is to wait and any other dies.
    pub fn acquire_write_lock(
        &mut self,
        service_name: Symbol,
        var: Symbol,
        txn_id: &TxnId,
    ) -> (r: Result<(), EvalError>)
        ensures
            (evaluator::done(r), final(self).deep_view()) == model::acquire(
                old(self).deep_view(),
                service_name,
                var,
                *txn_id,
                Wish::Write,
            ),
    {
        self.acquire(service_name, var, txn_id, LockWish::Write)
    }

    /// Asks for the read lock of a variable, which readers share.
    pub fn acquire_read_lock(
        &mut self,
        service_name: Symbol,
        var: Symbol,
        txn_id: &TxnId,
    ) -> (r: Result<(), EvalError>)
        ensures
            (evaluator::done(r), final(self).deep_view()) == model::acquire(
                old(self).deep_view(),
                service_name,
                var,
                *txn_id,
                Wish::Read,
            ),
    {
        self.acquire(service_name, var, txn_id, LockWish::Read)
    }

    /// Asks to turn a read lock into a write lock.
    pub fn upgrade_to_write_lock(
        &mut self,
        service_name: Symbol,
        var: Symbol,
        txn_id: &TxnId,
    ) -> (r: Result<(), EvalError>)
        ensures
            (evaluator::done(r), final(self).deep_view()) == model::acquire(
                old(self).deep_view(),
                service_name,
                var,
                *txn_id,
                Wish::Upgrade,
            ),
    {
        self.acquire(service_name, var, txn_id, LockWish::Upgrade)
    }

    /// Lets go of all locks that `txn_id` holds on the given members.
    pub fn release_locks(&mut self, locked: &Vec<(ServiceNetId, Symbol)>, txn_id: &TxnId)
        ensures
            final(self).deep_view() == model::release_all(
                old(self).deep_view(),
                locked.deep_view(),
                *txn_id,
                locked.deep_view().len(),
            ),
    {
        let ghost m0 = self.deep_view();
        let ghost l = locked.deep_view();
        for i in 0..locked.len()
            invariant
                l == locked.deep_view(),
                self.deep_view() == model::release_all(m0, l, *txn_id, i as nat),
        {
            let ghost before = self.deep_view();
            assert(l[i as int] == locked@[i as int].deep_view());
            let k = self.find_id(&locked[i].0);
            if k < self.services.entries.len() {
                let s = self.services.at_mut(k);
                let ghost s0 = s.deep_view();
                match s.vars.get_mut(&locked[i].1) {
                    None => {},
                    Some(v) => {
                        v.lock.release(txn_id);
                    },
                }
                proof {
                    assert(self.deep_view().services =~= model::release_at(
                        before,
                        k as int,
                        l[i as int].1,
                        *txn_id,
                    ).services);
                }
            }
        }
    }

    /// The address of the node that owns a remote service.
    pub fn remote_addr(&self, service: Symbol) -> (r: Result<Address, EvalError>)
        ensures
            evaluator::res(r) == model::remote_addr(self.deep_view(), service),
    {
        let name = self.interner.get(service);
        match self.remote_services.get(&service) {
            None => Err(
                EvalError::ServiceNotFound(
                    text::cat3("Remote service '", name.as_str(), "' not found"),
                ),
            ),
            Some(url) => {
                let slug = text::cat2("/", name.as_str());
                Ok(Address(trim_end(url.0.as_str(), slug.as_str())))
            },
        }
    }

    /// The address of this machine: the loopback address where the node serves
    /// this machine alone or nothing else is known.
    pub fn get_node_ip(&self) -> (r: String)
        ensures
            r@ == model::node_ip(self.deep_view()),
    {
        if self.local {
            "127.0.0.1".to_owned()
        } else {
            match &self.outbound_ip {
                Some(ip) => ip.clone(),
                None => "127.0.0.1".to_owned(),
            }
        }
    }

    /// The address that replies are to be sent to. The address of the network
    /// stands in where none was recorded, with the machine's own address in
    /// place of the loopback and unspecified ones.
    pub fn local_reply_addr(&self) -> (r: String)
        ensures
            r@ == model::reply_addr(self.deep_view()),
    {
        match &self.local_address {
            Some(a) => a.clone(),
            None => match &self.network {
                None => String::new(),
                Some(p) => {
                    if p.local_addrs.len() == 0 {
                        assert(p.local_addrs.deep_view().len() == 0);
                        String::new()
                    } else {
                        let ip = self.get_node_ip();
                        proof {
                            reveal_strlit("0.0.0.0");
                            reveal_strlit("127.0.0.1");
                            assert(p.local_addrs.deep_view()[0] == p.local_addrs@[0].0@);
                        }
                        let a = text::replace_text(
                            p.local_addrs[0].0.as_str(),
                            "0.0.0.0",
                            ip.as_str(),
                        );
                        let b = text::replace_text(a.as_str(), "127.0.0.1", ip.as_str());
                        text::cat3(b.as_str(), "/p2p/", p.peer_id.as_str())
                    }
                },
            },
        }
    }

    /// Records the address under which other nodes reach this one.
    pub fn set_local_address(&mut self, addr: String)
        ensures
            final(self).deep_view() == (ManagerM {
                local_address: Some(addr@),
                ..old(self).deep_view()
            }),
    {
        self.local_address = Some(addr);
    }

    /// Sends a message without waiting for a reply.
    pub fn send_oneway(&mut self, addr: Address, msg: MeerkatMessage)
        ensures
            final(self).deep_view() == model::send(
                old(self).deep_view(),
                addr.deep_view(),
                msg.deep_view(),
            ),
    {
        let ghost before = self.deep_view();
        match &mut self.network {
            None => {},
            Some(p) => {
                let ghost sent0 = p.sent.deep_view();
                p.sent.push((addr, msg));
                assert(p.sent.deep_view() =~= sent0.push((addr.deep_view(), msg.deep_view())));
            },
        }
    }

    /// Opens a channel for the reply to request `rid`, and gives its number.
    pub fn register(&mut self, rid: u64) -> (c: u64)
        ensures
            final(self).deep_view() == model::register(old(self).deep_view(), rid),
            c == old(self).deep_view().next_channel,
    {
        let waiting = match self.pending_replies.get(&rid) {
            Some(c) => Some(*c),
            None => None,
        };
        match waiting {
            Some(c) => {
                self.channels.insert(c, ReplySlot::Closed);
            },
            None => {},
        }
        let chan: u64 = self.next_channel;
        self.pending_replies.insert(rid, chan);
        self.channels.insert(chan, ReplySlot::Open);
        self.next_channel = chan.wrapping_add(1);
        chan
    }

    /// Hands a reply to the channel that waits for it.
    pub fn deliver(&mut self, msg: MeerkatMessage)
        ensures
            final(self).deep_view() == model::deliver(old(self).deep_view(), msg.deep_view()),
    {
        match msg.replies_to() {
            None => {},
            Some(rid) => {
                match self.pending_replies.remove(&rid) {
                    None => {},
                    Some(c) => {
                        self.channels.insert(c, ReplySlot::Full(msg));
                    },
                }
            },
        }
    }

    /// Takes what is next out of the inbox if it is an event.
    pub fn next_event(&mut self) -> (r: Option<crate::net::messages::NetworkEvent>)
        ensures
            match r {
                Some(e) => model::next_incoming(old(self).deep_view()) == Some(
                    model::IncomingM::Event(e.deep_view()),
                ) && final(self).deep_view() == model::pop_incoming(old(self).deep_view()),
                None => !(model::next_incoming(old(self).deep_view()) matches Some(
                    model::IncomingM::Event(_),
                )) && final(self).deep_view() == old(self).deep_view(),
            },
    {
        let front_is_event = match &self.network {
            None => false,
            Some(p) => if p.inbox.len() == 0 {
                assert(p.inbox.deep_view().len() == 0);
                false
            } else {
                assert(p.inbox.deep_view()[0] == p.inbox@[0].deep_view());
                match &p.inbox[0] {
                    Incoming::Event(_) => true,
                    _ => false,
                }
            },
        };
        if !front_is_event {
            return None;
        }
        match &mut self.network {
            None => None,
            Some(p) => {
                let ghost before = p.inbox.deep_view();
                let e = p.inbox.remove(0);
                assert(p.inbox.deep_view() =~= before.drop_first());
                match e {
                    Incoming::Event(ev) => Some(ev),
                    _ => None,
                }
            },
        }
    }

    /// Takes the end of a waiting time or of a suspension out of the inbox if it
    /// is next.
    pub fn take_mark(&mut self) -> (r: Mark)
        ensures
            match r {
                Mark::Elapsed => model::next_incoming(old(self).deep_view()) == Some(
                    model::IncomingM::Elapsed,
                ),
                Mark::Resume => model::next_incoming(old(self).deep_view()) == Some(
                    model::IncomingM::Resume,
                ),
                Mark::Neither => !(model::next_incoming(old(self).deep_view()) matches Some(
                    model::IncomingM::Elapsed,
                )) && !(model::next_incoming(old(self).deep_view()) matches Some(
                    model::IncomingM::Resume,
                )),
            },
            final(self).deep_view() == (if r is Neither {
                old(self).deep_view()
            } else {
                model::pop_incoming(old(self).deep_view())
            }),
    {
        match &mut self.network {
            None => Mark::Neither,
            Some(p) => {
                if p.inbox.len() == 0 {
                    assert(p.inbox.deep_view().len() == 0);
                    return Mark::Neither;
                }
                assert(p.inbox.deep_view()[0] == p.inbox@[0].deep_view());
                let mark = match &p.inbox[0] {
                    Incoming::Event(_) => Mark::Neither,
                    Incoming::Elapsed => Mark::Elapsed,
                    Incoming::Resume => Mark::Resume,
                };
                if let Mark::Neither = mark {
                    return mark;
                }
                let ghost before = p.inbox.deep_view();
                let e = p.inbox.remove(0);
                assert(p.inbox.deep_view() =~= before.drop_first());
                mark
            },
        }
    }

    /// Leaves only events in the inbox, once no run is suspended.
    pub fn drop_marks(&mut self)
        ensures
            final(self).deep_view() == (match old(self).deep_view().network {
                None => old(self).deep_view(),
                Some(p) => ManagerM {
                    network: Some(
                        model::PortM { inbox: model::events_only(p.inbox, p.inbox.len()), ..p },
                    ),
                    ..old(self).deep_view()
                },
            }),
    {
        match &mut self.network {
            None => {},
            Some(p) => {
                let ghost before = p.inbox.deep_view();
                let mut all: Vec<Incoming> = Vec::new();
                std::mem::swap(&mut all, &mut p.inbox);
                let mut out: Vec<Incoming> = Vec::new();
                assert(out.deep_view() =~= Seq::<model::IncomingM>::empty());
                for e in it: all
                    invariant
                        it.seq() == all@,
                        all.deep_view() == before,
                        out.deep_view() == model::events_only(before, it.index() as nat),
                {
                    assert(before[it.index() as int] == e.deep_view());
                    let keep = match &e {
                        Incoming::Event(_) => true,
                        _ => false,
                    };
                    if keep {
                        let ghost prior = out.deep_view();
                        out.push(e);
                        assert(out.deep_view() =~= prior.push(e.deep_view()));
                    }
                }
                p.inbox = out;
            },
        }
    }

    /// The message that tells a listener the value of a member, where the value
    /// can be put on the wire.
    fn update_msg(
        &self,
        listener: &ServiceNetId,
        listener_def: Symbol,
        svc: Symbol,
        member: Symbol,
        value: &Value,
    ) -> (r: Option<MeerkatMessage>)
        ensures
            r is Some <==> model::wire_ok(self.deep_view(), value.deep_view()),
            r matches Some(msg) ==> msg.deep_view() == model::update_msg(
                self.deep_view(),
                listener.deep_view(),
                listener_def,
                svc,
                member,
                model::wire_value(self.deep_view(), value.deep_view()),
            ),
    {
        match codec::encode_value(value, &self.interner) {
            Err(_) => None,
            Ok(v) => Some(
                MeerkatMessage::Update {
                    listener_service: listener.0.clone(),
                    listener_def: self.interner.get(listener_def),
                    source_service: self.interner.get(svc),
                    member: self.interner.get(member),
                    value: v,
                },
            ),
        }
    }

    /// Sends the current value of a member to a remote listener.
    pub fn emit_update(
        &mut self,
        listener_id: &ServiceNetId,
        listener_def: Symbol,
        svc: Symbol,
        member: Symbol,
    )
        ensures
            final(self).deep_view() == model::emit_update(
                old(self).deep_view(),
                listener_id.deep_view(),
                listener_def,
                svc,
                member,
            ),
    {
        let addr = match self.listener_addrs.get(listener_id) {
            None => {
                return;
            },
            Some(a) => a.clone(),
        };
        let msg = match self.services.get(&svc) {
            None => {
                return;
            },
            Some(s) => match s.vars.get(&member) {
                None => {
                    return;
                },
                Some(v) => self.update_msg(listener_id, listener_def, svc, member, &v.value),
            },
        };
        match msg {
            None => {},
            Some(msg) => {
                self.send_oneway(Address(addr), msg);
            },
        }
    }

    /// Registers a remote listener on a member and sends it the current value.
    /// A member that is not there is ignored, so that requests from outside
    /// cannot fill the tables.
    pub fn handle_request_updates(
        &mut self,
        service_sym: Symbol,
        member_sym: Symbol,
        listener_id: ServiceNetId,
        listener_def_sym: Symbol,
        reply_to: String,
    )
        ensures
            final(self).deep_view() == model::request_updates(
                old(self).deep_view(),
                service_sym,
                member_sym,
                listener_id.deep_view(),
                listener_def_sym,
                reply_to@,
            ),
    {
        let ghost before = self.deep_view();
        let value = match self.services.get(&service_sym) {
            None => {
                return;
            },
            Some(s) => match s.vars.get(&member_sym) {
                None => {
                    return;
                },
                Some(v) => v.value.dup(),
            },
        };
        match self.services.get_mut(&service_sym) {
            None => {
                return;
            },
            Some(s) => {
                s.add_listener(member_sym, listener_id.dup(), listener_def_sym);
            },
        }
        self.listener_addrs.insert(listener_id.dup(), reply_to.clone());
        match self.update_msg(&listener_id, listener_def_sym, service_sym, member_sym, &value) {
            None => {},
            Some(msg) => {
                self.send_oneway(Address(reply_to), msg);
            },
        }
    }

    /// Asks the owner of a remote member to be told of its changes.
    pub fn subscribe_remote(
        &mut self,
        owner: Symbol,
        member: Symbol,
        this_id: &ServiceNetId,
        listener_def: Symbol,
    )
        ensures
            final(self).deep_view() == model::subscribe(
                old(self).deep_view(),
                owner,
                member,
                this_id.deep_view(),
                listener_def,
            ),
    {
        let addr = match self.remote_addr(owner) {
            Err(_) => {
                return;
            },
            Ok(a) => a,
        };
        let reply_to = self.local_reply_addr();
        let request_id: u64 = self.next_sub_id;
        self.next_sub_id = request_id.wrapping_add(1);
        let msg = MeerkatMessage::RequestUpdates {
            request_id,
            service: self.interner.get(owner),
            member: self.interner.get(member),
            listener_service: this_id.0.clone(),
            listener_def: self.interner.get(listener_def),
            reply_to,
        };
        self.send_oneway(addr, msg);
    }

    /// The value of a variable.
    fn var_value(&self, svc: Symbol, var: Symbol) -> (r: Option<Value>)
        ensures
            r.deep_view() == (match model::var_of(self.deep_view(), svc, var) {
                Some(v) => Some(v.value),
                None => None,
            }),
    {
        match self.services.get(&svc) {
            None => None,
            Some(s) => match s.vars.get(&var) {
                None => None,
                Some(v) => Some(v.value.dup()),
            },
        }
    }

    /// What is said of a variable that is not there.
    pub fn no_var(&self, var: Symbol, svc: Symbol) -> (r: EvalError)
        ensures
            r.deep_view() == ErrM::VarNotFound(model::no_var_text(self.deep_view(), var, svc)),
    {
        EvalError::VarNotFound(
            text::cat5(
                "Variable '",
                self.interner.get(var).as_str(),
                "' not found in service '",
                self.interner.get(svc).as_str(),
                "'",
            ),
        )
    }

    /// What is said of a service that is not there.
    pub fn no_service(&self, svc: Symbol) -> (r: EvalError)
        ensures
            r.deep_view() == ErrM::ServiceNotFound(model::no_service_text(self.deep_view(), svc)),
    {
        EvalError::ServiceNotFound(
            text::cat3("Service '", self.interner.get(svc).as_str(), "' not found"),
        )
    }

    /// What is said of a member that is not there, or whose service is not.
    fn missing(&self, var: Symbol, svc: Symbol) -> (r: EvalError)
        ensures
            r.deep_view() == model::missing(self.deep_view(), var, svc),
    {
        if self.services.contains_key(&svc) {
            self.no_var(var, svc)
        } else {
            self.no_service(svc)
        }
    }

    /// Reads a variable of a local service.
    pub fn local_read(&mut self, var: Symbol, svc: Symbol, txn: &mut Option<Transaction>) -> (r:
        Result<Value, EvalError>)
        ensures
            (
                evaluator::res(r),
                crate::runtime::manager::world(*final(self), *final(txn)),
            ) == model::local_read(
                var,
                svc,
                crate::runtime::manager::world(*old(self), *old(txn)),
            ),
    {
        let key = (self.service_net_id_for_name(svc), var);
        match txn {
            None => match self.var_value(svc, var) {
                Some(v) => Ok(v),
                None => Err(self.missing(var, svc)),
            },
            Some(t) => {
                match t.read_cache.get(&key) {
                    Some(v) => {
                        return Ok(v.dup());
                    },
                    None => {},
                }
                if !table::holds(&t.locked, &key) {
                    let id = t.id;
                    match self.acquire_read_lock(svc, var, &id) {
                        Err(e) => {
                            return Err(e);
                        },
                        Ok(_) => {},
                    }
                }
                table::include_item(&mut t.locked, key.dup());
                match self.var_value(svc, var) {
                    Some(v) => {
                        t.read_cache.insert(key, v.dup());
                        Ok(v)
                    },
                    None => Err(self.missing(var, svc)),
                }
            },
        }
    }

    /// Writes a variable of a local service on behalf of a transaction, which
    /// keeps the value to itself.
    pub fn buffer_write(
        &mut self,
        svc: Symbol,
        var: Symbol,
        value: Value,
        t: &mut Transaction,
    ) -> (r: Result<(), EvalError>)
        ensures
            ({
                let (x, w) = model::buffer_write(
                    svc,
                    var,
                    value.deep_view(),
                    old(self).deep_view(),
                    old(t).deep_view(),
                );
                evaluator::done(r) == x && final(self).deep_view() == w.m && Some(
                    final(t).deep_view(),
                ) == w.t
            }),
    {
        let key = (self.service_net_id_for_name(svc), var);
        let id = t.id;
        let got = if table::holds(&t.locked, &key) {
            self.upgrade_to_write_lock(svc, var, &id)
        } else {
            self.acquire_write_lock(svc, var, &id)
        };
        match got {
            Err(e) => {
                return Err(e);
            },
            Ok(_) => {},
        }
        table::include_item(&mut t.locked, key.dup());
        t.written.insert(key.dup(), value.dup());
        t.read_cache.insert(key, value);
        Ok(())
    }
}

impl crate::runtime::manager::Service {
    /// Adds a listener on a member.
    pub fn add_listener(&mut self, member: Symbol, id: ServiceNetId, def: Symbol)
        ensures
            final(self).deep_view() == model::with_listener(
                old(self).deep_view(),
                member,
                (id.deep_view(), def),
            ),
    {
        let mut have = match self.listeners.get(&member) {
            Some(l) => l.dup(),
            None => {
                let none: Vec<(ServiceNetId, Symbol)> = Vec::new();
                assert(none.deep_view() =~= Seq::<(Seq<char>, Symbol)>::empty());
                none
            },
        };
        table::include_item(&mut have, (id, def));
        self.listeners.insert(member, have);
    }
}

/// `s` without the copies of `pat` that it ends with.
pub fn trim_end(s: &str, pat: &str) -> (r: String)
    ensures
        r@ == model::trimmed_end(s@, pat@),
{
    let c = text::chars_of(s);
    let p = text::chars_of(pat);
    let mut len: usize = c.len();
    assert(c@.take(len as int) =~= s@);
    if p.len() > 0 {
        while len >= p.len() && text::match_at_within(&c, &p, len - p.len(), len)
            invariant
                c@ == s@,
                p@ == pat@,
                p@.len() > 0,
                len <= c@.len(),
                model::trimmed_end(c@.take(len as int), pat@) == model::trimmed_end(s@, pat@),
            decreases len,
        {
            assert(c@.take(len as int).take(len - p@.len()) =~= c@.take(len - p@.len()));
            len = len - p.len();
        }
        assert(!(len >= p@.len() && text::occurs_at(
            c@.take(len as int),
            pat@,
            len - p@.len(),
        )));
    }
    let r = text::string_of(&c, 0, len);
    assert(r@ =~= c@.take(len as int));
    r
}

/// The address of a service's node and the service's name, out of its identity.
pub fn split_service_net_id(id: &ServiceNetId) -> (r: (Address, String))
    ensures
        r.deep_view() == model::split_net_id(id.deep_view()),
{
    let c = text::chars_of(id.0.as_str());
    let mut i: usize = c.len();
    assert(c@.take(i as int) =~= c@);
    while i > 0
        invariant
            i <= c@.len(),
            c@ == id.deep_view(),
            model::last_slash(c@.take(i as int)) == model::last_slash(c@),
        decreases i,
    {
        assert(c@.take(i as int).drop_last() =~= c@.take(i - 1));
        if c[i - 1] == '/' {
            let addr = text::string_of(&c, 0, i - 1);
            let slug = text::string_of(&c, i, c.len());
            assert(addr@ =~= c@.take(i - 1));
            assert(slug@ =~= c@.skip(i as int));
            return (Address(addr), slug);
        }
        i = i - 1;
    }
    (Address(String::new()), id.0.clone())
}

/// What is next in the inbox besides events.
pub enum Mark {
    Elapsed,
    Resume,
    Neither,
}

/// How a lock is asked for.
#[derive(Debug, Clone, Copy, PartialEq, Eq, Structural)]
pub enum LockWish {
    Read,
    Write,
    Upgrade,
}

impl LockWish {
    /// The model of the wish.
    pub open spec fn wish(self) -> Wish {
        match self {
            LockWish::Read => Wish::Read,
            LockWish::Write => Wish::Write,
            LockWish::Upgrade => Wish::Upgrade,
        }
    }
}

/// Putting what is there changes nothing.
pub proof fn lemma_put_same<K, V>(s: Seq<(K, V)>, k: K)
    requires
        table::bound(s, k),
    ensures
        table::put(s, k, table::get(s, k)->Some_0) == s,
{
    table::lemma_slot(s, k);
    assert(table::put(s, k, table::get(s, k)->Some_0) =~= s);
}

/// A text has bytes exactly where it has characters.
pub proof fn lemma_bytes_positive(s: Seq<char>)
    ensures
        text::byte_len(s) > 0 <==> s.len() > 0,
{
    if s.len() == 0 {
        reveal_with_fuel(vstd::utf8::encode_utf8, 1);
    } else {
        reveal_with_fuel(vstd::utf8::encode_utf8, 1);
    }
}

} // verus!
