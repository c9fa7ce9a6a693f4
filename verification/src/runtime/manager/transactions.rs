//! What transactions, services and waiting requests do.

use crate::net::messages::MessageM;
use crate::runtime::ast::model::{ActionStmtM, DeclM, ValueM};
use crate::runtime::interner::Symbol;
use crate::runtime::interpreter::evaluator::ErrM;
use crate::runtime::manager::model;
use crate::runtime::manager::model::{EnvM, KeyM, ManagerM, ParkedM, ServiceM, World};
use crate::runtime::manager::semantics;
use crate::runtime::semantic_analysis::var_analysis::dep_analysis::DepM;
use crate::runtime::semantic_analysis::var_analysis::read_write;
use crate::runtime::table;
use crate::runtime::txn;
use crate::runtime::txn::{LockM, TxnId, TxnM, VarStateM};
use vstd::prelude::*;

verus! {

/// How often a transaction that died is tried again.
pub const MAX_WAIT_DIE_RETRIES: u32 = 10;

/// A participant is asked to commit, and its answer is waited for.
pub open spec fn send_commit(n: nat, addr: Seq<char>, tid: TxnId, m: ManagerM) -> (
    Result<(), ErrM>,
    ManagerM,
) {
    let rid = m.next_commit_id;
    let (reply, m1) = semantics::send_and_await(
        n,
        addr,
        MessageM::Commit { request_id: rid, txn_id: tid, reply_to: model::reply_addr(m) },
        rid,
        "Timeout waiting for commit acknowledgement"@,
        ManagerM { next_commit_id: rid.wrapping_add(1), ..m },
    );
    (semantics::commit_reply(reply), m1)
}

/// A participant is asked to abort, and its answer is waited for; what the
/// answer says does not matter.
pub open spec fn send_abort(n: nat, addr: Seq<char>, tid: TxnId, m: ManagerM) -> (
    Result<(), ErrM>,
    ManagerM,
) {
    let rid = m.next_abort_id;
    let (reply, m1) = semantics::send_and_await(
        n,
        addr,
        MessageM::Abort { request_id: rid, txn_id: tid, reply_to: model::reply_addr(m) },
        rid,
        "Timeout waiting for abort acknowledgement"@,
        ManagerM { next_abort_id: rid.wrapping_add(1), ..m },
    );
    (
        if reply matches Err(ErrM::Suspended) {
            Err(ErrM::Suspended)
        } else {
            Ok(())
        },
        m1,
    )
}

/// The participants from place `i` on are asked to commit. A failure stops
/// nothing; the last one is kept.
pub open spec fn commit_all(
    n: nat,
    addrs: Seq<Seq<char>>,
    i: nat,
    tid: TxnId,
    failed: Option<ErrM>,
    m: ManagerM,
) -> (Result<Option<ErrM>, ErrM>, ManagerM)
    decreases addrs.len() - i,
{
    if i >= addrs.len() {
        (Ok(failed), m)
    } else {
        let (r, m1) = send_commit(n, addrs[i as int], tid, m);
        match r {
            Err(ErrM::Suspended) => (Err(ErrM::Suspended), m1),
            Err(x) => commit_all(n, addrs, i + 1, tid, Some(x), m1),
            Ok(_) => commit_all(n, addrs, i + 1, tid, failed, m1),
        }
    }
}

/// The participants from place `i` on are asked to abort.
pub open spec fn abort_all(n: nat, addrs: Seq<Seq<char>>, i: nat, tid: TxnId, m: ManagerM) -> (
    Result<(), ErrM>,
    ManagerM,
)
    decreases addrs.len() - i,
{
    if i >= addrs.len() {
        (Ok(()), m)
    } else {
        let (r, m1) = send_abort(n, addrs[i as int], tid, m);
        match r {
            Err(x) => (Err(x), m1),
            Ok(_) => abort_all(n, addrs, i + 1, tid, m1),
        }
    }
}

/// The first `n` writes are stored, with the transaction that made them.
pub open spec fn store_writes(
    m: ManagerM,
    writes: Seq<(KeyM, ValueM<Symbol>)>,
    tid: TxnId,
    n: nat,
) -> ManagerM
    decreases n,
{
    if n == 0 {
        m
    } else {
        store_one(store_writes(m, writes, tid, (n - 1) as nat), writes[n - 1], tid)
    }
}

/// One write is stored, if its variable is there.
pub open spec fn store_one(m: ManagerM, write: (KeyM, ValueM<Symbol>), tid: TxnId) -> ManagerM {
    let i = model::place_of_id(m.services, write.0.0) as int;
    if i < m.services.len() {
        let s = m.services[i].1;
        match table::get(s.vars, write.0.1) {
            None => m,
            Some(v) => ManagerM {
                services: m.services.update(
                    i,
                    (
                        m.services[i].0,
                        ServiceM {
                            vars: table::put(
                                s.vars,
                                write.0.1,
                                VarStateM {
                                    value: write.1,
                                    latest_write_txn: Some(tid),
                                    ..v
                                },
                            ),
                            ..s
                        },
                    ),
                ),
                ..m
            },
        }
    } else {
        m
    }
}

/// The changes by the writes from place `i` on are passed on, as far as that
/// goes.
pub open spec fn propagate_writes(
    n: nat,
    writes: Seq<(KeyM, ValueM<Symbol>)>,
    i: nat,
    m: ManagerM,
) -> (Result<(), ErrM>, ManagerM)
    decreases writes.len() - i,
{
    if i >= writes.len() {
        (Ok(()), m)
    } else {
        match model::name_for_id(m, writes[i as int].0.0) {
            None => propagate_writes(n, writes, i + 1, m),
            Some(svc) => {
                let (r, m1) = semantics::propagate(n, seq![(svc, writes[i as int].0.1)], m);
                if r matches Err(ErrM::Suspended) {
                    (Err(ErrM::Suspended), m1)
                } else {
                    propagate_writes(n, writes, i + 1, m1)
                }
            },
        }
    }
}

/// A transaction's writes become the values of their variables, and the
/// changes are passed on. There is no way back from here.
pub open spec fn apply_writes(n: nat, t: TxnM, m: ManagerM) -> (Result<(), ErrM>, ManagerM) {
    propagate_writes(n, t.written, 0, store_writes(m, t.written, t.id, t.written.len()))
}

/// The transaction of a world, or a fresh one.
pub open spec fn txn_or(t: Option<TxnM>, id: TxnId) -> TxnM {
    match t {
        Some(x) => x,
        None => txn::fresh_txn(id),
    }
}

/// A transaction's locks let go of.
pub open spec fn unlock(m: ManagerM, t: TxnM) -> ManagerM {
    model::release_all(m, t.locked, t.id, t.locked.len())
}

/// A transaction ends well: its writes are applied, its participants commit,
/// and its locks are let go of.
pub open spec fn commit(n: nat, t: TxnM, m: ManagerM) -> (Result<(), ErrM>, ManagerM) {
    let (r, m1) = apply_writes(n, t, m);
    match r {
        Err(x) => (Err(x), m1),
        Ok(_) => {
            let (c, m2) = commit_all(n, t.participants, 0, t.id, None, m1);
            match c {
                Err(x) => (Err(x), m2),
                Ok(_) => (Ok(()), unlock(m2, t)),
            }
        },
    }
}

/// A transaction is given up: its participants abort and its locks are let go
/// of. Its writes are never applied.
pub open spec fn rollback(n: nat, t: TxnM, m: ManagerM) -> (Result<(), ErrM>, ManagerM) {
    let (r, m1) = abort_all(n, t.participants, 0, t.id, m);
    match r {
        Err(x) => (Err(x), m1),
        Ok(_) => (Ok(()), unlock(m1, t)),
    }
}

/// Statements are executed as one transaction. Where it dies for a lock it is
/// tried again, as often as its identity allows.
pub open spec fn run_txn(
    n: nat,
    svc: Symbol,
    stmts: Seq<ActionStmtM<Symbol>>,
    env: EnvM,
    tid: TxnId,
    m: ManagerM,
) -> (Result<(), ErrM>, ManagerM)
    decreases MAX_WAIT_DIE_RETRIES - tid.iteration,
{
    let (r, w) = semantics::exec_block(
        n,
        stmts,
        0,
        env,
        svc,
        World { m, t: Some(txn::fresh_txn(tid)) },
    );
    let t = txn_or(w.t, tid);
    match r {
        Ok(_) => commit(n, t, w.m),
        Err(ErrM::Suspended) => (Err(ErrM::Suspended), w.m),
        Err(e) => {
            let (a, m1) = rollback(n, t, w.m);
            match a {
                Err(x) => (Err(x), m1),
                Ok(_) => if e is WaitDieAbort && tid.iteration < MAX_WAIT_DIE_RETRIES {
                    run_txn(
                        n,
                        svc,
                        stmts,
                        env,
                        TxnId { iteration: (tid.iteration + 1) as u32, ..tid },
                        m1,
                    )
                } else {
                    (Err(e), m1)
                },
            }
        },
    }
}

/// The identity of the next transaction of this node.
pub open spec fn next_txn_id(m: ManagerM) -> TxnId {
    TxnId { timestamp: m.clock, node_id: m.node_id, iteration: 0 }
}

/// The node after it has given out an identity.
pub open spec fn ticked(m: ManagerM) -> ManagerM {
    ManagerM { clock: m.clock.wrapping_add(1), ..m }
}

/// The held part of a transaction of another node, which is no longer held.
pub open spec fn take_held(m: ManagerM, tid: TxnId) -> (TxnM, ManagerM) {
    (
        txn_or(table::get(m.pending_txns, tid), tid),
        ManagerM { pending_txns: table::without(m.pending_txns, tid), ..m },
    )
}

/// A transaction of another node is held until it commits or aborts.
pub open spec fn hold(m: ManagerM, tid: TxnId, t: TxnM) -> ManagerM {
    ManagerM { pending_txns: table::put(m.pending_txns, tid, t), ..m }
}

/// How the part of a transaction that this node has run ends: it is held if it
/// went well or waits for a lock, and else its locks are let go of.
pub open spec fn settle<T>(r: Result<T, ErrM>, tid: TxnId, t: TxnM, m: ManagerM) -> ManagerM {
    match r {
        Ok(_) => hold(m, tid, t),
        Err(e) => if e is WaitOn {
            hold(m, tid, t)
        } else {
            unlock(m, t)
        },
    }
}

/// Statements are executed under a transaction of another node.
pub open spec fn participate(
    n: nat,
    svc: Symbol,
    stmts: Seq<ActionStmtM<Symbol>>,
    env: EnvM,
    tid: TxnId,
    m: ManagerM,
) -> (Result<(), ErrM>, ManagerM) {
    let (t, m1) = take_held(m, tid);
    let (r, w) = semantics::exec_block(n, stmts, 0, env, svc, World { m: m1, t: Some(t) });
    (r, settle(r, tid, txn_or(w.t, tid), w.m))
}

/// A member is read under a transaction of another node.
pub open spec fn participate_read(
    n: nat,
    svc: Symbol,
    member: Symbol,
    tid: TxnId,
    m: ManagerM,
) -> (Result<ValueM<Symbol>, ErrM>, ManagerM) {
    let (t, m1) = take_held(m, tid);
    let (r, w) = semantics::lookup(n, member, svc, World { m: m1, t: Some(t) });
    (r, settle(r, tid, txn_or(w.t, tid), w.m))
}

/// A held transaction commits: its writes are applied, its locks are let go
/// of, and the commit is passed on. Gives the members whose locks it held.
pub open spec fn commit_held(n: nat, tid: TxnId, m: ManagerM) -> (
    Result<Seq<KeyM>, ErrM>,
    ManagerM,
) {
    match table::get(m.pending_txns, tid) {
        None => (Ok(seq![]), m),
        Some(t) => {
            let m1 = ManagerM { pending_txns: table::without(m.pending_txns, tid), ..m };
            let (r, m2) = apply_writes(n, t, m1);
            match r {
                Err(x) => (Err(x), m2),
                Ok(_) => {
                    let (c, m3) = commit_all(n, t.participants, 0, tid, None, unlock(m2, t));
                    match c {
                        Err(x) => (Err(x), m3),
                        Ok(Some(x)) => (Err(x), m3),
                        Ok(None) => (Ok(t.locked), m3),
                    }
                },
            }
        },
    }
}

/// A held transaction is given up: its locks are let go of and the abort is
/// passed on. Gives the members whose locks it held.
pub open spec fn abort_held(n: nat, tid: TxnId, m: ManagerM) -> (
    Result<Seq<KeyM>, ErrM>,
    ManagerM,
) {
    match table::get(m.pending_txns, tid) {
        None => (Ok(seq![]), m),
        Some(t) => {
            let m1 = ManagerM { pending_txns: table::without(m.pending_txns, tid), ..m };
            let (r, m2) = abort_all(n, t.participants, 0, tid, unlock(m1, t));
            match r {
                Err(x) => (Err(x), m2),
                Ok(_) => (Ok(t.locked), m2),
            }
        },
    }
}

/// The declarations of a new service from place `i` on take effect, in order;
/// each sees the values of those before it.
pub open spec fn init_decls(
    n: nat,
    svc: Symbol,
    decls: Seq<DeclM<Symbol>>,
    i: nat,
    env: EnvM,
    tid: TxnId,
    w: World,
) -> (Result<(), ErrM>, World)
    decreases decls.len() - i,
{
    if i >= decls.len() {
        (Ok(()), w)
    } else {
        match decls[i as int] {
            DeclM::TableDecl { name, fields } => (Err(ErrM::NotImplemented), w),
            DeclM::VarDecl { name, ty, val } => {
                let (r, w1) = semantics::eval(n, val, env, svc, w);
                match r {
                    Err(x) => (Err(x), w1),
                    Ok(v) => init_decls(
                        n,
                        svc,
                        decls,
                        i + 1,
                        env.push((name, v)),
                        tid,
                        World { m: with_member(w1.m, svc, name, v, tid), ..w1 },
                    ),
                }
            },
            DeclM::DefDecl { name, ty, val, is_pub } => {
                let (r, w1) = semantics::eval(n, val, env, svc, w);
                match r {
                    Err(x) => (Err(x), w1),
                    Ok(v) => init_decls(
                        n,
                        svc,
                        decls,
                        i + 1,
                        env.push((name, v)),
                        tid,
                        World {
                            m: with_def(with_member(w1.m, svc, name, v, tid), svc, name, val),
                            ..w1
                        },
                    ),
                }
            },
        }
    }
}

/// The node with a member of a service set up, if the service is there.
pub open spec fn with_member(
    m: ManagerM,
    svc: Symbol,
    name: Symbol,
    v: ValueM<Symbol>,
    tid: TxnId,
) -> ManagerM {
    match table::get(m.services, svc) {
        None => m,
        Some(s) => model::with_var(
            m,
            svc,
            name,
            VarStateM { value: v, lock: LockM::Unlocked, latest_write_txn: Some(tid) },
        ),
    }
}

/// The node with the expression of a definition stored, if the service is there.
pub open spec fn with_def(
    m: ManagerM,
    svc: Symbol,
    name: Symbol,
    e: crate::runtime::ast::model::ExprM<Symbol>,
) -> ManagerM {
    match table::get(m.services, svc) {
        None => m,
        Some(s) => model::with_service(
            m,
            svc,
            ServiceM { defs: table::put(s.defs, name, e), ..s },
        ),
    }
}

/// The members among the first `n` that a definition uses.
pub open spec fn used_members(
    s: ServiceM,
    svc: Symbol,
    def: Symbol,
    n: nat,
) -> Seq<(Symbol, Symbol, Symbol)>
    decreases n,
{
    if n == 0 {
        seq![]
    } else {
        let rest = used_members(s, svc, def, (n - 1) as nat);
        if s.dep.edge(def, s.vars[n - 1].0) {
            rest.push((svc, s.vars[n - 1].0, def))
        } else {
            rest
        }
    }
}

/// The uses of members of the same service by the first `n` definitions.
pub open spec fn local_edges(s: ServiceM, svc: Symbol, n: nat) -> Seq<(Symbol, Symbol, Symbol)>
    decreases n,
{
    if n == 0 {
        seq![]
    } else {
        local_edges(s, svc, (n - 1) as nat) + used_members(
            s,
            svc,
            s.defs[n - 1].0,
            s.vars.len(),
        )
    }
}

/// The members that a definition refers to in other services.
pub open spec fn remote_uses(
    e: crate::runtime::ast::model::ExprM<Symbol>,
    def: Symbol,
) -> Seq<(Symbol, Symbol, Symbol)> {
    let refs = read_write::added_all(seq![], read_write::member_refs(e));
    Seq::new(refs.len(), |i: int| (refs[i].0, refs[i].1, def))
}

/// The uses of members of other services by the first `n` definitions.
pub open spec fn cross_edges(s: ServiceM, n: nat) -> Seq<(Symbol, Symbol, Symbol)>
    decreases n,
{
    if n == 0 {
        seq![]
    } else {
        cross_edges(s, (n - 1) as nat) + remote_uses(s.defs[n - 1].1, s.defs[n - 1].0)
    }
}

/// All that the definitions of a service use: owner, member and user.
pub open spec fn edges(s: ServiceM, svc: Symbol) -> Seq<(Symbol, Symbol, Symbol)> {
    local_edges(s, svc, s.defs.len()) + cross_edges(s, s.defs.len())
}

/// The first `n` users are registered with the members that they use, or
/// subscribed to them where another node owns them.
pub open spec fn listen(
    m: ManagerM,
    es: Seq<(Symbol, Symbol, Symbol)>,
    this_id: Seq<char>,
    n: nat,
) -> ManagerM
    decreases n,
{
    if n == 0 {
        m
    } else {
        let w = listen(m, es, this_id, (n - 1) as nat);
        let (owner, member, def) = es[n - 1];
        match table::get(w.services, owner) {
            Some(s) => model::with_service(
                w,
                owner,
                model::with_listener(s, member, (this_id, def)),
            ),
            None => model::subscribe(w, owner, member, this_id, def),
        }
    }
}

/// The users of a new service are registered.
pub open spec fn listen_all(m: ManagerM, svc: Symbol) -> ManagerM {
    match table::get(m.services, svc) {
        None => m,
        Some(s) => {
            let es = edges(s, svc);
            listen(m, es, s.id, es.len())
        },
    }
}

/// A new service that declares nothing yet.
pub open spec fn empty_service(m: ManagerM, svc: Symbol, dep: DepM) -> ServiceM {
    ServiceM {
        id: model::new_net_id(m, svc),
        name: svc,
        vars: seq![],
        defs: seq![],
        dep,
        listeners: seq![],
        dep_cache: seq![],
    }
}

/// A service is created, under one transaction. Where that fails there is no
/// service of that name afterwards.
pub open spec fn create(
    n: nat,
    svc: Symbol,
    decls: Seq<DeclM<Symbol>>,
    dep: DepM,
    m: ManagerM,
) -> (Result<(), ErrM>, ManagerM) {
    let tid = next_txn_id(m);
    let m1 = ticked(model::with_service(m, svc, empty_service(m, svc, dep)));
    let (r, w) = init_decls(
        n,
        svc,
        decls,
        0,
        seq![],
        tid,
        World { m: m1, t: Some(txn::fresh_txn(tid)) },
    );
    let t = txn_or(w.t, tid);
    match r {
        Err(ErrM::Suspended) => (Err(ErrM::Suspended), w.m),
        Ok(_) => {
            let (a, m2) = apply_writes(n, t, w.m);
            match a {
                Err(x) => (Err(x), m2),
                Ok(_) => {
                    let (c, m3) = commit_all(n, t.participants, 0, t.id, None, m2);
                    match c {
                        Err(x) => (Err(x), m3),
                        Ok(_) => (Ok(()), unlock(listen_all(m3, svc), t)),
                    }
                },
            }
        },
        Err(e) => {
            let (a, m2) = abort_all(n, t.participants, 0, t.id, w.m);
            match a {
                Err(x) => (Err(x), m2),
                Ok(_) => (
                    Err(e),
                    unlock(
                        ManagerM { services: table::without(m2.services, svc), ..m2 },
                        t,
                    ),
                ),
            }
        },
    }
}

/// The place of the oldest among the first `n` waiting requests; the first of
/// several that are equally old.
pub open spec fn oldest(q: Seq<ParkedM>, n: nat) -> nat
    decreases n,
{
    if n <= 1 {
        0
    } else {
        let k = oldest(q, (n - 1) as nat);
        if txn::older(q[n - 1].tid(), q[k as int].tid()) {
            (n - 1) as nat
        } else {
            k
        }
    }
}

/// The place of a request among the first `n` of others that are ordered by age:
/// behind all that are no younger.
pub open spec fn age_place(q: Seq<ParkedM>, n: nat, p: ParkedM) -> nat
    decreases n,
{
    if n == 0 {
        0
    } else if txn::older(p.tid(), q[n - 1].tid()) {
        age_place(q, (n - 1) as nat, p)
    } else {
        n
    }
}

/// The first `n` requests, the oldest first. Those of the same age stay in order.
pub open spec fn by_age(q: Seq<ParkedM>, n: nat) -> Seq<ParkedM>
    decreases n,
{
    if n == 0 {
        seq![]
    } else {
        let r = by_age(q, (n - 1) as nat);
        r.insert(age_place(r, r.len(), q[n - 1]) as int, q[n - 1])
    }
}

/// The oldest request that waits for each of the first `n` members leaves the
/// queue.
pub open spec fn take_ready(
    queue: Seq<(KeyM, Seq<ParkedM>)>,
    freed: Seq<KeyM>,
    n: nat,
) -> (Seq<ParkedM>, Seq<(KeyM, Seq<ParkedM>)>)
    decreases n,
{
    if n == 0 {
        (seq![], queue)
    } else {
        let (ready, q) = take_ready(queue, freed, (n - 1) as nat);
        let key = freed[n - 1];
        match table::get(q, key) {
            None => (ready, q),
            Some(ws) => if ws.len() == 0 {
                (ready, q)
            } else {
                let k = oldest(ws, ws.len()) as int;
                let rest = ws.remove(k);
                (
                    ready.push(ws[k]),
                    if rest.len() == 0 {
                        table::without(q, key)
                    } else {
                        table::put(q, key, rest)
                    },
                )
            },
        }
    }
}

/// The requests among the first `n` that do not belong to the transaction.
pub open spec fn others(ws: Seq<ParkedM>, tid: TxnId, n: nat) -> Seq<ParkedM>
    decreases n,
{
    if n == 0 {
        seq![]
    } else {
        let rest = others(ws, tid, (n - 1) as nat);
        if ws[n - 1].tid() == tid {
            rest
        } else {
            rest.push(ws[n - 1])
        }
    }
}

/// The requests among the first `n` that belong to the transaction.
pub open spec fn own(ws: Seq<ParkedM>, tid: TxnId, n: nat) -> Seq<ParkedM>
    decreases n,
{
    if n == 0 {
        seq![]
    } else {
        let rest = own(ws, tid, (n - 1) as nat);
        if ws[n - 1].tid() == tid {
            rest.push(ws[n - 1])
        } else {
            rest
        }
    }
}

/// The first `n` queues without the requests of a transaction, and without
/// those that are empty then; and those requests.
pub open spec fn purge(queue: Seq<(KeyM, Seq<ParkedM>)>, tid: TxnId, n: nat) -> (
    Seq<ParkedM>,
    Seq<(KeyM, Seq<ParkedM>)>,
)
    decreases n,
{
    if n == 0 {
        (seq![], seq![])
    } else {
        let (gone, kept) = purge(queue, tid, (n - 1) as nat);
        let ws = queue[n - 1].1;
        let rest = others(ws, tid, ws.len());
        (
            gone + own(ws, tid, ws.len()),
            if rest.len() == 0 {
                kept
            } else {
                kept.push((queue[n - 1].0, rest))
            },
        )
    }
}

/// The requests that wait in the first `n` queues, by number and address.
pub open spec fn targets(queue: Seq<(KeyM, Seq<ParkedM>)>, n: nat) -> Seq<(u64, Seq<char>)>
    decreases n,
{
    if n == 0 {
        seq![]
    } else {
        let ws = queue[n - 1].1;
        targets(queue, (n - 1) as nat) + Seq::new(ws.len(), |i: int| ws[i].target())
    }
}

/// A request joins the queue of a member.
pub open spec fn park(m: ManagerM, svc: Symbol, var: Symbol, p: ParkedM) -> ManagerM {
    let key = (model::net_id(m, svc), var);
    let have = match table::get(m.wait_queue, key) {
        None => seq![],
        Some(ws) => ws,
    };
    ManagerM { wait_queue: table::put(m.wait_queue, key, have.push(p)), ..m }
}

} // verus!
