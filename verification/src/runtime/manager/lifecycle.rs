//! Committing, aborting, and the making of services.

use crate::net::messages::MeerkatMessage;
use crate::net::types::{Address, ServiceNetId};
use crate::runtime::ast::model::ValueM;
use crate::runtime::ast::{ActionStmt, Decl, Value};
use crate::runtime::interner::Symbol;
use crate::runtime::interpreter::evaluator;
use crate::runtime::interpreter::evaluator::{eval_at, EvalError};
use crate::runtime::interpreter::executor::exec_block_at;
use crate::runtime::manager;
use crate::runtime::manager::model;
use crate::runtime::manager::semantics;
use crate::runtime::manager::serve::finish_commit;
use crate::runtime::manager::transact;
use crate::runtime::manager::transactions;
use crate::runtime::manager::transactions::MAX_WAIT_DIE_RETRIES;
use crate::runtime::manager::{Manager, Service};
use crate::runtime::semantic_analysis::var_analysis::calc_dep_srv;
use crate::runtime::semantic_analysis::var_analysis::dep_analysis;
use crate::runtime::semantic_analysis::var_analysis::dep_analysis::DependAnalysis;
use crate::runtime::table::{Plain, Table};
use crate::runtime::txn;
use crate::runtime::txn::{Transaction, TxnId, VarState};
use vstd::prelude::*;

verus! {

impl Manager {
    /// Asks a participant to commit and waits for its answer.
    pub fn send_commit(&mut self, addr: Address, tid: &TxnId) -> (r: Result<(), EvalError>)
        ensures
            (evaluator::done(r), final(self).deep_view()) == transactions::send_commit(
                old(self).deep_view().depth_limit as nat,
                addr.deep_view(),
                *tid,
                old(self).deep_view(),
            ),
    {
        let fuel = self.depth_limit;
        self.send_commit_at(fuel, addr, tid)
    }

    fn send_commit_at(&mut self, fuel: u64, addr: Address, tid: &TxnId) -> (r: Result<
        (),
        EvalError,
    >)
        ensures
            (evaluator::done(r), final(self).deep_view()) == transactions::send_commit(
                fuel as nat,
                addr.deep_view(),
                *tid,
                old(self).deep_view(),
            ),
    {
        let request_id: u64 = self.next_commit_id;
        let reply_to = self.local_reply_addr();
        self.next_commit_id = request_id.wrapping_add(1);
        let msg = MeerkatMessage::Commit { request_id, txn_id: *tid, reply_to };
        let late = "Timeout waiting for commit acknowledgement".to_owned();
        let reply = self.send_and_await_at(fuel, addr, msg, request_id, &late);
        finish_commit(reply)
    }

    fn send_abort_at(&mut self, fuel: u64, addr: Address, tid: &TxnId) -> (r: Result<
        (),
        EvalError,
    >)
        ensures
            (evaluator::done(r), final(self).deep_view()) == transactions::send_abort(
                fuel as nat,
                addr.deep_view(),
                *tid,
                old(self).deep_view(),
            ),
    {
        let request_id: u64 = self.next_abort_id;
        let reply_to = self.local_reply_addr();
        self.next_abort_id = request_id.wrapping_add(1);
        let msg = MeerkatMessage::Abort { request_id, txn_id: *tid, reply_to };
        let late = "Timeout waiting for abort acknowledgement".to_owned();
        match self.send_and_await_at(fuel, addr, msg, request_id, &late) {
            Err(EvalError::Suspended) => Err(EvalError::Suspended),
            _ => Ok(()),
        }
    }

    /// Asks each participant to commit; gives the last failure.
    fn commit_all_at(&mut self, fuel: u64, addrs: &Vec<Address>, tid: &TxnId) -> (r: Result<
        Option<EvalError>,
        EvalError,
    >)
        ensures
            (transact::failure(r), final(self).deep_view()) == transactions::commit_all(
                fuel as nat,
                addrs.deep_view(),
                0,
                *tid,
                None,
                old(self).deep_view(),
            ),
    {
        let ghost a = addrs.deep_view();
        let ghost whole = transactions::commit_all(
            fuel as nat,
            a,
            0,
            *tid,
            None,
            self.deep_view(),
        );
        let mut failed: Option<EvalError> = None;
        for i in 0..addrs.len()
            invariant
                a == addrs.deep_view(),
                whole == transactions::commit_all(
                    fuel as nat,
                    a,
                    i as nat,
                    *tid,
                    failed.deep_view(),
                    self.deep_view(),
                ),
                whole == transactions::commit_all(
                    fuel as nat,
                    a,
                    0,
                    *tid,
                    None,
                    old(self).deep_view(),
                ),
        {
            assert(a[i as int] == addrs@[i as int].deep_view());
            match self.send_commit_at(fuel, addrs[i].dup(), tid) {
                Err(EvalError::Suspended) => {
                    return Err(EvalError::Suspended);
                },
                Err(e) => {
                    failed = Some(e);
                },
                Ok(_) => {},
            }
        }
        Ok(failed)
    }

    /// Asks each participant to abort.
    fn abort_all_at(&mut self, fuel: u64, addrs: &Vec<Address>, tid: &TxnId) -> (r: Result<
        (),
        EvalError,
    >)
        ensures
            (evaluator::done(r), final(self).deep_view()) == transactions::abort_all(
                fuel as nat,
                addrs.deep_view(),
                0,
                *tid,
                old(self).deep_view(),
            ),
    {
        let ghost a = addrs.deep_view();
        let ghost whole = transactions::abort_all(fuel as nat, a, 0, *tid, self.deep_view());
        for i in 0..addrs.len()
            invariant
                a == addrs.deep_view(),
                whole == transactions::abort_all(
                    fuel as nat,
                    a,
                    i as nat,
                    *tid,
                    self.deep_view(),
                ),
                whole == transactions::abort_all(fuel as nat, a, 0, *tid, old(self).deep_view()),
        {
            assert(a[i as int] == addrs@[i as int].deep_view());
            match self.send_abort_at(fuel, addrs[i].dup(), tid) {
                Err(e) => {
                    return Err(e);
                },
                Ok(_) => {},
            }
        }
        Ok(())
    }

    /// Stores writes, with the transaction that made them.
    fn store_writes(&mut self, writes: &Table<(ServiceNetId, Symbol), Value>, tid: &TxnId)
        ensures
            final(self).deep_view() == transactions::store_writes(
                old(self).deep_view(),
                writes.deep_view(),
                *tid,
                writes.deep_view().len(),
            ),
    {
        let ghost w = writes.deep_view();
        let ghost m0 = self.deep_view();
        for i in 0..writes.entries.len()
            invariant
                w == writes.deep_view(),
                self.deep_view() == transactions::store_writes(m0, w, *tid, i as nat),
        {
            let ghost before = self.deep_view();
            let e = &writes.entries[i];
            assert(w[i as int] == e.deep_view());
            let k = self.find_id(&e.0.0);
            if k < self.services.entries.len() {
                let s = self.services.at_mut(k);
                match s.vars.get_mut(&e.0.1) {
                    None => {},
                    Some(v) => {
                        v.value = e.1.dup();
                        v.latest_write_txn = Some(*tid);
                    },
                }
                proof {
                    assert(self.deep_view().services =~= transactions::store_one(
                        before,
                        w[i as int],
                        *tid,
                    ).services);
                }
            }
        }
    }

    /// Applies a transaction's writes and passes the changes on.
    fn apply_committed_writes(&mut self, fuel: u64, t: &Transaction) -> (r: Result<(), EvalError>)
        ensures
            (evaluator::done(r), final(self).deep_view()) == transactions::apply_writes(
                fuel as nat,
                t.deep_view(),
                old(self).deep_view(),
            ),
    {
        self.store_writes(&t.written, &t.id);
        let ghost w = t.written.deep_view();
        let ghost m1 = self.deep_view();
        let ghost whole = transactions::propagate_writes(fuel as nat, w, 0, m1);
        for i in 0..t.written.entries.len()
            invariant
                w == t.written.deep_view(),
                whole == transactions::propagate_writes(
                    fuel as nat,
                    w,
                    i as nat,
                    self.deep_view(),
                ),
                whole == transactions::apply_writes(
                    fuel as nat,
                    t.deep_view(),
                    old(self).deep_view(),
                ),
        {
            let e = &t.written.entries[i];
            assert(w[i as int] == e.deep_view());
            match self.service_name_for_net_id(&e.0.0) {
                None => {},
                Some(name) => {
                    match self.propagate_at(fuel, name, e.0.1) {
                        Err(EvalError::Suspended) => {
                            return Err(EvalError::Suspended);
                        },
                        _ => {},
                    }
                },
            }
        }
        Ok(())
    }

    /// Ends a transaction well.
    fn commit_at(&mut self, fuel: u64, t: &Transaction) -> (r: Result<(), EvalError>)
        ensures
            (evaluator::done(r), final(self).deep_view()) == transactions::commit(
                fuel as nat,
                t.deep_view(),
                old(self).deep_view(),
            ),
    {
        match self.apply_committed_writes(fuel, t) {
            Err(e) => {
                return Err(e);
            },
            Ok(_) => {},
        }
        match self.commit_all_at(fuel, &t.participants, &t.id) {
            Err(e) => {
                return Err(e);
            },
            Ok(_) => {},
        }
        self.release_locks(&t.locked, &t.id);
        Ok(())
    }

    /// Gives a transaction up.
    fn rollback_at(&mut self, fuel: u64, t: &Transaction) -> (r: Result<(), EvalError>)
        ensures
            (evaluator::done(r), final(self).deep_view()) == transactions::rollback(
                fuel as nat,
                t.deep_view(),
                old(self).deep_view(),
            ),
    {
        match self.abort_all_at(fuel, &t.participants, &t.id) {
            Err(e) => {
                return Err(e);
            },
            Ok(_) => {},
        }
        self.release_locks(&t.locked, &t.id);
        Ok(())
    }

    /// Executes statements as one transaction. Locks are taken as members are
    /// first read or written; values are written when all has gone well; and the
    /// locks are let go of in any case. A transaction that dies for a lock is
    /// tried again.
    pub fn execute_action_with_txn(
        &mut self,
        service_name: Symbol,
        stmts: &Vec<ActionStmt>,
        initial_env: &Vec<(Symbol, Value)>,
    ) -> (r: Result<(), EvalError>)
        ensures
            (evaluator::done(r), final(self).deep_view()) == transactions::run_txn(
                old(self).deep_view().depth_limit as nat,
                service_name,
                stmts.deep_view(),
                initial_env.deep_view(),
                transactions::next_txn_id(old(self).deep_view()),
                transactions::ticked(old(self).deep_view()),
            ),
    {
        let fuel = self.depth_limit;
        let mut txn_id = self.next_txn_id();
        let ghost whole = transactions::run_txn(
            fuel as nat,
            service_name,
            stmts.deep_view(),
            initial_env.deep_view(),
            txn_id,
            self.deep_view(),
        );
        loop
            invariant
                txn_id.iteration <= MAX_WAIT_DIE_RETRIES,
                whole == transactions::run_txn(
                    fuel as nat,
                    service_name,
                    stmts.deep_view(),
                    initial_env.deep_view(),
                    txn_id,
                    self.deep_view(),
                ),
                whole == transactions::run_txn(
                    old(self).deep_view().depth_limit as nat,
                    service_name,
                    stmts.deep_view(),
                    initial_env.deep_view(),
                    transactions::next_txn_id(old(self).deep_view()),
                    transactions::ticked(old(self).deep_view()),
                ),
            decreases MAX_WAIT_DIE_RETRIES - txn_id.iteration,
        {
            let mut txn = Some(Transaction::new(txn_id));
            let result = exec_block_at(
                fuel,
                stmts,
                initial_env,
                self,
                service_name,
                &mut txn,
            );
            let t = match txn {
                Some(t) => t,
                None => Transaction::new(txn_id),
            };
            match result {
                Ok(_) => {
                    return self.commit_at(fuel, &t);
                },
                Err(EvalError::Suspended) => {
                    return Err(EvalError::Suspended);
                },
                Err(e) => {
                    match self.rollback_at(fuel, &t) {
                        Err(x) => {
                            return Err(x);
                        },
                        Ok(_) => {},
                    }
                    let died = match &e {
                        EvalError::WaitDieAbort(_) => true,
                        _ => false,
                    };
                    if died && txn_id.iteration < MAX_WAIT_DIE_RETRIES {
                        txn_id = txn_id.retry();
                    } else {
                        return Err(e);
                    }
                },
            }
        }
    }

    /// Executes statements as one transaction, with no bindings.
    pub fn execute_action(&mut self, service_name: Symbol, stmts: &Vec<ActionStmt>) -> (r: Result<
        (),
        EvalError,
    >)
        ensures
            (evaluator::done(r), final(self).deep_view()) == transactions::run_txn(
                old(self).deep_view().depth_limit as nat,
                service_name,
                stmts.deep_view(),
                seq![],
                transactions::next_txn_id(old(self).deep_view()),
                transactions::ticked(old(self).deep_view()),
            ),
    {
        let none: Vec<(Symbol, Value)> = Vec::new();
        assert(none.deep_view() =~= Seq::<(Symbol, ValueM<Symbol>)>::empty());
        self.execute_action_with_txn(service_name, stmts, &none)
    }

    /// Executes statements as one transaction, with bindings.
    pub fn execute_action_with_env(
        &mut self,
        service_name: Symbol,
        stmts: &Vec<ActionStmt>,
        initial_env: &Vec<(Symbol, Value)>,
    ) -> (r: Result<(), EvalError>)
        ensures
            (evaluator::done(r), final(self).deep_view()) == transactions::run_txn(
                old(self).deep_view().depth_limit as nat,
                service_name,
                stmts.deep_view(),
                initial_env.deep_view(),
                transactions::next_txn_id(old(self).deep_view()),
                transactions::ticked(old(self).deep_view()),
            ),
    {
        self.execute_action_with_txn(service_name, stmts, initial_env)
    }

    /// Takes the held part of a transaction of another node.
    fn take_held(&mut self, tid: &TxnId) -> (r: Transaction)
        ensures
            (r.deep_view(), final(self).deep_view()) == transactions::take_held(
                old(self).deep_view(),
                *tid,
            ),
    {
        match self.pending_txns.remove(tid) {
            Some(t) => t,
            None => Transaction::new(*tid),
        }
    }

    /// Executes statements under a transaction of another node, and holds its
    /// locks and writes until it commits or aborts. Where it has to wait for a
    /// lock, what it has done so far is held too.
    pub fn execute_action_participant(
        &mut self,
        service_name: Symbol,
        stmts: &Vec<ActionStmt>,
        initial_env: &Vec<(Symbol, Value)>,
        tid: TxnId,
    ) -> (r: Result<(), EvalError>)
        ensures
            (evaluator::done(r), final(self).deep_view()) == transactions::participate(
                old(self).deep_view().depth_limit as nat,
                service_name,
                stmts.deep_view(),
                initial_env.deep_view(),
                tid,
                old(self).deep_view(),
            ),
    {
        let fuel = self.depth_limit;
        let held = self.take_held(&tid);
        let mut txn = Some(held);
        let r = exec_block_at(fuel, stmts, initial_env, self, service_name, &mut txn);
        let t = match txn {
            Some(t) => t,
            None => Transaction::new(tid),
        };
        let keep = match &r {
            Ok(_) => true,
            Err(EvalError::WaitOn(_, _)) => true,
            Err(_) => false,
        };
        if keep {
            self.pending_txns.insert(tid, t);
        } else {
            self.release_locks(&t.locked, &t.id);
        }
        r
    }

    /// Reads a member under a transaction of another node, and holds its lock
    /// until it commits or aborts.
    pub fn remote_read_participant(&mut self, service: Symbol, member: Symbol, tid: TxnId) -> (r:
        Result<Value, EvalError>)
        ensures
            (evaluator::res(r), final(self).deep_view()) == transactions::participate_read(
                old(self).deep_view().depth_limit as nat,
                service,
                member,
                tid,
                old(self).deep_view(),
            ),
    {
        let fuel = self.depth_limit;
        let held = self.take_held(&tid);
        let mut txn = Some(held);
        let r = self.lookup_at(fuel, member, service, &mut txn);
        let t = match txn {
            Some(t) => t,
            None => Transaction::new(tid),
        };
        let keep = match &r {
            Ok(_) => true,
            Err(EvalError::WaitOn(_, _)) => true,
            Err(_) => false,
        };
        if keep {
            self.pending_txns.insert(tid, t);
        } else {
            self.release_locks(&t.locked, &t.id);
        }
        r
    }

    /// Commits a held transaction; gives the members whose locks it held.
    pub fn commit_participant(&mut self, tid: &TxnId) -> (r: Result<
        Vec<(ServiceNetId, Symbol)>,
        EvalError,
    >)
        ensures
            (evaluator::res(r), final(self).deep_view()) == transactions::commit_held(
                old(self).deep_view().depth_limit as nat,
                *tid,
                old(self).deep_view(),
            ),
    {
        let fuel = self.depth_limit;
        let t = match self.pending_txns.remove(tid) {
            None => {
                let none: Vec<(ServiceNetId, Symbol)> = Vec::new();
                assert(none.deep_view() =~= Seq::<model::KeyM>::empty());
                return Ok(none);
            },
            Some(t) => t,
        };
        match self.apply_committed_writes(fuel, &t) {
            Err(e) => {
                return Err(e);
            },
            Ok(_) => {},
        }
        self.release_locks(&t.locked, &t.id);
        match self.commit_all_at(fuel, &t.participants, tid) {
            Err(e) => Err(e),
            Ok(Some(e)) => Err(e),
            Ok(None) => Ok(t.locked),
        }
    }

    /// Gives up a held transaction; gives the members whose locks it held.
    pub fn abort_participant(&mut self, tid: &TxnId) -> (r: Result<
        Vec<(ServiceNetId, Symbol)>,
        EvalError,
    >)
        ensures
            (evaluator::res(r), final(self).deep_view()) == transactions::abort_held(
                old(self).deep_view().depth_limit as nat,
                *tid,
                old(self).deep_view(),
            ),
    {
        let fuel = self.depth_limit;
        let t = match self.pending_txns.remove(tid) {
            None => {
                let none: Vec<(ServiceNetId, Symbol)> = Vec::new();
                assert(none.deep_view() =~= Seq::<model::KeyM>::empty());
                return Ok(none);
            },
            Some(t) => t,
        };
        self.release_locks(&t.locked, &t.id);
        match self.abort_all_at(fuel, &t.participants, tid) {
            Err(e) => Err(e),
            Ok(_) => Ok(t.locked),
        }
    }

    /// Sets up a member of a service.
    fn set_member(&mut self, svc: Symbol, name: Symbol, value: Value, tid: &TxnId)
        ensures
            final(self).deep_view() == transactions::with_member(
                old(self).deep_view(),
                svc,
                name,
                value.deep_view(),
                *tid,
            ),
    {
        match self.services.get_mut(&svc) {
            None => {},
            Some(s) => {
                let mut v = VarState::new(value);
                v.latest_write_txn = Some(*tid);
                s.vars.insert(name, v);
            },
        }
    }

    /// Makes the declarations of a new service take effect.
    fn init_decls_at(
        &mut self,
        fuel: u64,
        svc: Symbol,
        decls: &Vec<Decl>,
        tid: &TxnId,
        txn: &mut Option<Transaction>,
    ) -> (r: Result<(), EvalError>)
        ensures
            (
                evaluator::done(r),
                manager::world(*final(self), *final(txn)),
            ) == transactions::init_decls(
                fuel as nat,
                svc,
                decls.deep_view(),
                0,
                seq![],
                *tid,
                manager::world(*old(self), *old(txn)),
            ),
    {
        let ghost d = decls.deep_view();
        let ghost whole = transactions::init_decls(
            fuel as nat,
            svc,
            d,
            0,
            seq![],
            *tid,
            manager::world(*self, *txn),
        );
        let mut env: Vec<(Symbol, Value)> = Vec::new();
        assert(env.deep_view() =~= Seq::<(Symbol, ValueM<Symbol>)>::empty());
        for i in 0..decls.len()
            invariant
                d == decls.deep_view(),
                whole == transactions::init_decls(
                    fuel as nat,
                    svc,
                    d,
                    i as nat,
                    env.deep_view(),
                    *tid,
                    manager::world(*self, *txn),
                ),
                whole == transactions::init_decls(
                    fuel as nat,
                    svc,
                    d,
                    0,
                    seq![],
                    *tid,
                    manager::world(*old(self), *old(txn)),
                ),
        {
            assert(d[i as int] == decls@[i as int].deep_view());
            match &decls[i] {
                Decl::TableDecl { .. } => {
                    return Err(EvalError::NotImplemented);
                },
                Decl::VarDecl { name, ty, val } => {
                    match eval_at(fuel, val, &env, self, svc, txn) {
                        Err(e) => {
                            return Err(e);
                        },
                        Ok(v) => {
                            let ghost before = env.deep_view();
                            env.push((*name, v.dup()));
                            assert(env.deep_view() =~= before.push((*name, v.deep_view())));
                            self.set_member(svc, *name, v, tid);
                        },
                    }
                },
                Decl::DefDecl { name, ty, val, is_pub } => {
                    match eval_at(fuel, val, &env, self, svc, txn) {
                        Err(e) => {
                            return Err(e);
                        },
                        Ok(v) => {
                            let ghost before = env.deep_view();
                            env.push((*name, v.dup()));
                            assert(env.deep_view() =~= before.push((*name, v.deep_view())));
                            self.set_member(svc, *name, v, tid);
                            match self.services.get_mut(&svc) {
                                None => {},
                                Some(s) => {
                                    s.defs.insert(*name, val.dup());
                                },
                            }
                        },
                    }
                },
            }
        }
        Ok(())
    }

    /// Registers the users of a new service with the members that they use.
    fn listen_all(&mut self, svc: Symbol)
        ensures
            final(self).deep_view() == transactions::listen_all(old(self).deep_view(), svc),
    {
        let (es, this_id) = match self.services.get(&svc) {
            None => {
                return;
            },
            Some(s) => (s.edges(svc), s.id.dup()),
        };
        let ghost e = es.deep_view();
        let ghost m0 = self.deep_view();
        let ghost id = this_id.deep_view();
        for i in 0..es.len()
            invariant
                e == es.deep_view(),
                id == this_id.deep_view(),
                self.deep_view() == transactions::listen(m0, e, id, i as nat),
        {
            let (owner, member, def) = es[i];
            assert(e[i as int] == (owner, member, def));
            if self.services.contains_key(&owner) {
                match self.services.get_mut(&owner) {
                    Some(s) => {
                        s.add_listener(member, this_id.dup(), def);
                    },
                    None => {},
                }
            } else {
                self.subscribe_remote(owner, member, &this_id, def);
            }
        }
    }

    /// Creates a service whose dependencies have been worked out.
    fn create_with(&mut self, name: Symbol, decls: &Vec<Decl>, dep: DependAnalysis) -> (r: Result<
        (),
        EvalError,
    >)
        ensures
            (evaluator::done(r), final(self).deep_view()) == transactions::create(
                old(self).deep_view().depth_limit as nat,
                name,
                decls.deep_view(),
                dep.deep_view(),
                old(self).deep_view(),
            ),
    {
        let ghost m0 = self.deep_view();
        let fuel = self.depth_limit;
        let id = self.compute_service_net_id(name);
        let service = Service {
            id,
            name,
            vars: Table::new(),
            defs: Table::new(),
            dep,
            listeners: Table::new(),
            dep_cache: Table::new(),
        };
        self.services.insert(name, service);
        let tid = self.next_txn_id();
        let mut txn = Some(Transaction::new(tid));
        let result = self.init_decls_at(fuel, name, decls, &tid, &mut txn);
        let t = match txn {
            Some(t) => t,
            None => Transaction::new(tid),
        };
        match result {
            Err(EvalError::Suspended) => Err(EvalError::Suspended),
            Ok(_) => {
                match self.apply_committed_writes(fuel, &t) {
                    Err(e) => {
                        return Err(e);
                    },
                    Ok(_) => {},
                }
                match self.commit_all_at(fuel, &t.participants, &t.id) {
                    Err(e) => {
                        return Err(e);
                    },
                    Ok(_) => {},
                }
                self.listen_all(name);
                self.release_locks(&t.locked, &t.id);
                Ok(())
            },
            Err(e) => {
                match self.abort_all_at(fuel, &t.participants, &t.id) {
                    Err(x) => {
                        return Err(x);
                    },
                    Ok(_) => {},
                }
                let _ = self.services.remove(&name);
                self.release_locks(&t.locked, &t.id);
                Err(e)
            },
        }
    }

    /// Creates a service, under one transaction. Where that fails there is no
    /// service of that name afterwards.
    pub fn create_service(&mut self, name: Symbol, decls: Vec<Decl>) -> (r: Result<(), EvalError>)
        requires
            dep_analysis::analyzable(decls.deep_view()),
        ensures
            exists|dep: dep_analysis::DepM|
                #![trigger dep.solved()]
                dep.solved() && dep.exact() && dep.declared_by(decls.deep_view()) && (
                    evaluator::done(r),
                    final(self).deep_view(),
                ) == transactions::create(
                    old(self).deep_view().depth_limit as nat,
                    name,
                    decls.deep_view(),
                    dep,
                    old(self).deep_view(),
                ),
    {
        let dep = calc_dep_srv(&decls);
        let ghost d = dep.deep_view();
        let r = self.create_with(name, &decls, dep);
        assert(d.solved());
        r
    }
}

impl Manager {
    /// Reads a member of a service.
    pub fn lookup(
        &mut self,
        var_name: Symbol,
        service_name: Symbol,
        txn: &mut Option<Transaction>,
    ) -> (r: Result<Value, EvalError>)
        ensures
            (evaluator::res(r), manager::world(*final(self), *final(txn))) == semantics::lookup(
                old(self).deep_view().depth_limit as nat,
                var_name,
                service_name,
                manager::world(*old(self), *old(txn)),
            ),
    {
        let fuel = self.depth_limit;
        self.lookup_at(fuel, var_name, service_name, txn)
    }

    /// Assigns to a member of a service.
    pub fn assign(
        &mut self,
        service_name: Symbol,
        var_name: Symbol,
        value: Value,
        txn: &mut Option<Transaction>,
    ) -> (r: Result<(), EvalError>)
        ensures
            (evaluator::done(r), manager::world(*final(self), *final(txn))) == semantics::assign(
                old(self).deep_view().depth_limit as nat,
                service_name,
                var_name,
                value.deep_view(),
                manager::world(*old(self), *old(txn)),
            ),
    {
        let fuel = self.depth_limit;
        self.assign_at(fuel, service_name, var_name, value, txn)
    }

    /// Asks the owner of a remote member for its value.
    pub fn remote_lookup(
        &mut self,
        service: Symbol,
        member: Symbol,
        txn: &mut Option<Transaction>,
    ) -> (r: Result<Value, EvalError>)
        ensures
            (
                evaluator::res(r),
                manager::world(*final(self), *final(txn)),
            ) == semantics::remote_lookup(
                old(self).deep_view().depth_limit as nat,
                service,
                member,
                manager::world(*old(self), *old(txn)),
            ),
    {
        let fuel = self.depth_limit;
        self.remote_lookup_at(fuel, service, member, txn)
    }

    /// Sends an action to the node that owns it.
    pub fn remote_action(
        &mut self,
        service_net_id: &ServiceNetId,
        stmts: &Vec<ActionStmt>,
        env: &Vec<(Symbol, Value)>,
        txn: &mut Option<Transaction>,
    ) -> (r: Result<(), EvalError>)
        ensures
            (
                evaluator::done(r),
                manager::world(*final(self), *final(txn)),
            ) == semantics::remote_action(
                old(self).deep_view().depth_limit as nat,
                service_net_id.deep_view(),
                stmts.deep_view(),
                env.deep_view(),
                manager::world(*old(self), *old(txn)),
            ),
    {
        let fuel = self.depth_limit;
        self.remote_action_at(fuel, service_net_id, stmts, env, txn)
    }

    /// Handles the events in the inbox: updates and subscriptions by itself, and
    /// each reply by handing it to the request that waits for it.
    pub fn dispatch_network_events(&mut self) -> (r: Result<(), EvalError>)
        ensures
            (evaluator::done(r), final(self).deep_view()) == semantics::dispatch(
                old(self).deep_view().depth_limit as nat,
                old(self).deep_view(),
            ),
    {
        let fuel = self.depth_limit;
        self.dispatch_at(fuel)
    }

    /// Takes up a new value of a remote member.
    pub fn handle_update(
        &mut self,
        listener_id: ServiceNetId,
        listener_def_sym: Symbol,
        source_sym: Symbol,
        member_sym: Symbol,
        value: crate::net::ast::NetValue,
    ) -> (r: Result<(), EvalError>)
        ensures
            (evaluator::done(r), final(self).deep_view()) == semantics::handle_update(
                old(self).deep_view().depth_limit as nat,
                listener_id.deep_view(),
                listener_def_sym,
                source_sym,
                member_sym,
                value.deep_view(),
                old(self).deep_view(),
            ),
    {
        let fuel = self.depth_limit;
        self.handle_update_at(
            fuel,
            listener_id,
            listener_def_sym,
            source_sym,
            member_sym,
            value,
        )
    }
}

impl Service {
    /// All that the definitions of the service use: owner, member and user.
    pub fn edges(&self, svc: Symbol) -> (r: Vec<(Symbol, Symbol, Symbol)>)
        ensures
            r.deep_view() == transactions::edges(self.deep_view(), svc),
    {
        let ghost s = self.deep_view();
        let mut out: Vec<(Symbol, Symbol, Symbol)> = Vec::new();
        assert(out.deep_view() =~= Seq::<(Symbol, Symbol, Symbol)>::empty());
        for i in 0..self.defs.entries.len()
            invariant
                s == self.deep_view(),
                out.deep_view() == transactions::local_edges(s, svc, i as nat),
        {
            let def = self.defs.entries[i].0;
            assert(s.defs[i as int].0 == def);
            let ghost before = out.deep_view();
            for j in 0..self.vars.entries.len()
                invariant
                    s == self.deep_view(),
                    out.deep_view() == before + transactions::used_members(s, svc, def, j as nat),
            {
                let member = self.vars.entries[j].0;
                assert(s.vars[j as int].0 == member);
                let uses = match self.dep.dep_graph.get(&def) {
                    None => false,
                    Some(d) => d.contains(&member),
                };
                let ghost prior = out.deep_view();
                if uses {
                    out.push((svc, member, def));
                    assert(out.deep_view() =~= prior.push((svc, member, def)));
                }
                assert(out.deep_view() =~= before + transactions::used_members(
                    s,
                    svc,
                    def,
                    (j + 1) as nat,
                ));
            }
        }
        let ghost local = out.deep_view();
        assert(local + Seq::<(Symbol, Symbol, Symbol)>::empty() =~= local);
        for i in 0..self.defs.entries.len()
            invariant
                s == self.deep_view(),
                out.deep_view() == local + transactions::cross_edges(s, i as nat),
        {
            let def = self.defs.entries[i].0;
            assert(s.defs[i as int] == self.defs.entries@[i as int].deep_view());
            let ghost before = out.deep_view();
            let refs = self.defs.entries[i].1.cross_service_deps();
            let ghost rs = refs.deep_view();
            for j in 0..refs.len()
                invariant
                    rs == refs.deep_view(),
                    out.deep_view() == before + Seq::new(
                        j as nat,
                        |k: int| (rs[k].0, rs[k].1, def),
                    ),
            {
                let ghost prior = out.deep_view();
                out.push((refs[j].0, refs[j].1, def));
                proof {
                    assert(rs[j as int] == refs@[j as int]);
                    assert(out.deep_view() =~= prior.push((rs[j as int].0, rs[j as int].1, def)));
                    assert(out.deep_view() =~= before + Seq::new(
                        (j + 1) as nat,
                        |k: int| (rs[k].0, rs[k].1, def),
                    ));
                }
            }
            proof {
                let uses = transactions::remote_uses(s.defs[i as int].1, def);
                assert(Seq::new(rs.len(), |k: int| (rs[k].0, rs[k].1, def)) =~= uses);
                assert(out.deep_view() =~= local + transactions::cross_edges(s, (i + 1) as nat));
            }
        }
        out
    }
}

} // verus!
