//! Serving: what a node answers to the messages of other nodes.

use crate::net::codec;
use crate::net::laws as net_laws;
use crate::net::messages::{EventM, MeerkatMessage, MessageM, NetworkEvent, NetworkReply};
use crate::net::types::{Address, ServiceNetId};
use crate::net::wire;
use crate::runtime::ast::model::{StmtM, ValueM};
use crate::runtime::ast::renaming;
use crate::runtime::ast::{Stmt, Value};
use crate::runtime::interner;
use crate::runtime::interner::{Interner, Symbol};
use crate::runtime::interpreter::evaluator;
use crate::runtime::interpreter::evaluator::{ErrM, EvalError};
use crate::runtime::manager;
use crate::runtime::manager::endings;
use crate::runtime::manager::isolation;
use crate::runtime::manager::laws;
use crate::runtime::manager::model;
use crate::runtime::manager::model::{ManagerM, ParkedM, World};
use crate::runtime::manager::semantics;
use crate::runtime::manager::transact;
use crate::runtime::manager::transactions;
use crate::runtime::manager::{Manager, ParkedRequest};
use crate::runtime::parser::texts;
use crate::runtime::table;
use crate::runtime::table::Table;
use crate::runtime::text;
use crate::runtime::txn::{Transaction, TxnId};
use vstd::prelude::*;

verus! {

/// The address that a reply to a request to listen gives.
pub open spec fn bound_address(reply: crate::net::messages::ReplyM) -> Result<
    Seq<char>,
    Seq<char>,
> {
    match reply {
        crate::net::messages::ReplyM::ListenSuccess { addr } => Ok(addr),
        crate::net::messages::ReplyM::Failure(e) => Err(e),
        _ => Err("Unexpected reply"@),
    }
}

/// The address that a reply to a request to listen gives, or why there is none.
pub fn listen_success_addr(reply: NetworkReply) -> (r: Result<Address, String>)
    ensures
        match r {
            Ok(a) => bound_address(reply.deep_view()) == Ok::<Seq<char>, Seq<char>>(a.deep_view()),
            Err(e) => bound_address(reply.deep_view()) == Err::<Seq<char>, Seq<char>>(e@),
        },
{
    match reply {
        NetworkReply::ListenSuccess { addr } => Ok(addr),
        NetworkReply::Failure(e) => Err(e),
        NetworkReply::MessageSent { .. } => Err("Unexpected reply".to_owned()),
        NetworkReply::LocalAddresses { .. } => Err("Unexpected reply".to_owned()),
    }
}

/// The address to listen on: on this machine alone, or under all its addresses.
pub fn listen_address(local: bool, port: u16) -> (r: Address)
    ensures
        r.deep_view() == "/ip4/"@ + (if local {
            "127.0.0.1"@
        } else {
            "0.0.0.0"@
        }) + "/tcp/"@ + text::decimal(port as nat),
{
    let ip = if local {
        "127.0.0.1"
    } else {
        "0.0.0.0"
    };
    let mut s = text::cat3("/ip4/", ip, "/tcp/");
    s.append(text::u64_text(port as u64).as_str());
    Address(s)
}

/// The address that a node makes known: the one it listens on, with its own
/// address in place of the unspecified and the loopback ones, and its name.
pub open spec fn full_address(bound: Seq<char>, ip: Seq<char>, peer: Seq<char>) -> Seq<char> {
    text::replaced(text::replaced(bound, "0.0.0.0"@, ip), "127.0.0.1"@, ip) + "/p2p/"@ + peer
}

/// The address that a node makes known.
pub fn advertised_address(bound: &Address, node_ip: &str, peer_id: &str) -> (r: String)
    ensures
        r@ == full_address(bound.deep_view(), node_ip@, peer_id@),
{
    proof {
        reveal_strlit("0.0.0.0");
        reveal_strlit("127.0.0.1");
    }
    let a = text::replace_text(bound.0.as_str(), "0.0.0.0", node_ip);
    let b = text::replace_text(a.as_str(), "127.0.0.1", node_ip);
    text::cat3(b.as_str(), "/p2p/", peer_id)
}

/// The addresses of the services among the first `n` statements.
pub open spec fn urls(
    addr: Seq<char>,
    prog: Seq<StmtM<Symbol>>,
    names: Seq<Seq<char>>,
    n: nat,
) -> Seq<
    Seq<char>,
>
    decreases n,
{
    if n == 0 {
        seq![]
    } else {
        let before = urls(addr, prog, names, (n - 1) as nat);
        match prog[n - 1] {
            StmtM::Service { name, .. } => before.push(
                addr + "/"@ + interner::name_of(names, name),
            ),
            _ => before,
        }
    }
}

/// The addresses of a program's services.
pub fn service_urls(full_addr: &str, prog: &Vec<Stmt>, interner: &Interner) -> (r: Vec<String>)
    ensures
        r.deep_view() == urls(full_addr@, prog.deep_view(), interner@, prog.deep_view().len()),
{
    let ghost p = prog.deep_view();
    let mut out: Vec<String> = Vec::new();
    assert(out.deep_view() =~= Seq::<Seq<char>>::empty());
    for i in 0..prog.len()
        invariant
            p == prog.deep_view(),
            out.deep_view() == urls(full_addr@, p, interner@, i as nat),
    {
        assert(p[i as int] == prog@[i as int].deep_view());
        match &prog[i] {
            Stmt::Service { name, .. } => {
                let ghost before = out.deep_view();
                let url = text::cat3(full_addr, "/", interner.get(*name).as_str());
                let ghost u = url@;
                out.push(url);
                assert(out.deep_view() =~= before.push(u));
            },
            _ => {},
        }
    }
    out
}

/// The name of the service that an address stands for: what comes after the
/// last slash.
pub open spec fn slug(url: Seq<char>) -> Seq<char> {
    url.skip(model::last_slash(url) + 1)
}

/// The addresses of remote services by name; of several for one name, the last.
pub open spec fn by_slug(urls: Seq<Seq<char>>, n: nat) -> Seq<(Seq<char>, Seq<char>)>
    decreases n,
{
    if n == 0 {
        seq![]
    } else {
        table::put(by_slug(urls, (n - 1) as nat), slug(urls[n - 1]), urls[n - 1])
    }
}

fn slug_of(url: &str) -> (r: String)
    ensures
        r@ == slug(url@),
{
    let (_, name) = crate::runtime::manager::state::split_service_net_id(
        &ServiceNetId(url.to_owned()),
    );
    proof {
        lemma_last_slash(url@);
        assert(url@.skip(0) =~= url@);
    }
    name
}

proof fn lemma_last_slash(s: Seq<char>)
    ensures
        -1 <= model::last_slash(s) < s.len(),
    decreases s.len(),
{
    if s.len() > 0 && s.last() != '/' {
        lemma_last_slash(s.drop_last());
    }
}

/// The addresses of remote services by name.
pub fn remote_url_map(import_urls: &Vec<String>) -> (r: Table<String, String>)
    ensures
        r.deep_view() == by_slug(import_urls.deep_view(), import_urls.deep_view().len()),
{
    let ghost u = import_urls.deep_view();
    let mut out: Table<String, String> = Table::new();
    for i in 0..import_urls.len()
        invariant
            u == import_urls.deep_view(),
            out.deep_view() == by_slug(u, i as nat),
    {
        assert(u[i as int] == import_urls@[i as int]@);
        out.insert(slug_of(import_urls[i].as_str()), import_urls[i].clone());
    }
    out
}

/// The first `n` remote services are made known to the node.
pub open spec fn remotes_known(
    m: ManagerM,
    urls: Seq<(Seq<char>, Seq<char>)>,
    n: nat,
) -> ManagerM
    decreases n,
{
    if n == 0 {
        m
    } else {
        let m1 = remotes_known(m, urls, (n - 1) as nat);
        let names = interner::interned(m1.interner, urls[n - 1].0);
        ManagerM {
            interner: names,
            remote_services: table::put(
                m1.remote_services,
                interner::symbol_of(names, urls[n - 1].0),
                urls[n - 1].1,
            ),
            ..m1
        }
    }
}

/// Makes remote services known to the node.
pub fn register_remotes(manager: &mut Manager, urls: &Table<String, String>)
    ensures
        final(manager).deep_view() == remotes_known(
            old(manager).deep_view(),
            urls.deep_view(),
            urls.deep_view().len(),
        ),
{
    let ghost m0 = manager.deep_view();
    let ghost u = urls.deep_view();
    for i in 0..urls.entries.len()
        invariant
            m0 == old(manager).deep_view(),
            u == urls.deep_view(),
            manager.deep_view() == remotes_known(m0, u, i as nat),
    {
        assert(u[i as int] == urls.entries@[i as int].deep_view());
        let sym = manager.interner.insert(urls.entries[i].0.as_str());
        manager.remote_services.insert(sym, Address(urls.entries[i].1.clone()));
    }
}

/// The words for how something failed, if it did.
pub open spec fn complaint<T>(r: Result<T, ErrM>) -> Option<Seq<char>> {
    match r {
        Ok(_) => None,
        Err(e) => Some(evaluator::error_text(e)),
    }
}

/// The answer to a request for an action.
pub open spec fn action_answer(request_id: u64, r: Result<(), ErrM>) -> MessageM {
    MessageM::ActionResponse { request_id, success: r is Ok, error: complaint(r) }
}

/// The answer to a request for a value: the value, or why it cannot be had or
/// put on the wire.
pub open spec fn lookup_answer(
    m: ManagerM,
    request_id: u64,
    r: Result<ValueM<Symbol>, ErrM>,
) -> MessageM {
    match r {
        Ok(v) => match wire::value_log(model::wire_value(m, v)).err {
            None => MessageM::LookupResponse { request_id, value: model::wire_value(m, v) },
            Some(l) => MessageM::LookupError { request_id, error: wire::limit_text(l) },
        },
        Err(e) => MessageM::LookupError { request_id, error: evaluator::error_text(e) },
    }
}

/// A request of another node is run. It is answered, or, where its transaction
/// is to wait for a lock, it joins the queue of that lock.
pub open spec fn answered(p: ParkedM, m: ManagerM) -> (Result<(), ErrM>, ManagerM) {
    let n = m.depth_limit as nat;
    match p {
        ParkedM::Action { request_id, reply_to, service, stmts, env, tid } => {
            let (r, m1) = transactions::participate(n, service, stmts, env, tid, m);
            match r {
                Err(ErrM::WaitOn(svc, var)) => (Ok(()), transactions::park(m1, svc, var, p)),
                Err(ErrM::Suspended) => (Err(ErrM::Suspended), m1),
                _ => (Ok(()), model::send(m1, reply_to, action_answer(request_id, r))),
            }
        },
        ParkedM::Lookup { request_id, reply_to, service, member, tid } => {
            let (r, m1) = transactions::participate_read(n, service, member, tid, m);
            match r {
                Err(ErrM::WaitOn(svc, var)) => (Ok(()), transactions::park(m1, svc, var, p)),
                Err(ErrM::Suspended) => (Err(ErrM::Suspended), m1),
                _ => (Ok(()), model::send(m1, reply_to, lookup_answer(m1, request_id, r))),
            }
        },
    }
}

/// The requests from place `i` on are run, in order.
pub open spec fn answered_all(ready: Seq<ParkedM>, i: nat, m: ManagerM) -> (
    Result<(), ErrM>,
    ManagerM,
)
    decreases ready.len() - i,
{
    if i >= ready.len() {
        (Ok(()), m)
    } else {
        let (r, m1) = answered(ready[i as int], m);
        match r {
            Err(e) => (Err(e), m1),
            Ok(_) => answered_all(ready, i + 1, m1),
        }
    }
}

/// The oldest request that waits for each of the freed locks is run, the oldest
/// of them first.
pub open spec fn woken(freed: Seq<model::KeyM>, m: ManagerM) -> (Result<(), ErrM>, ManagerM) {
    let (ready, q) = transactions::take_ready(m.wait_queue, freed, freed.len());
    answered_all(
        transactions::by_age(ready, ready.len()),
        0,
        ManagerM { wait_queue: q, ..m },
    )
}

/// What the node does on a message.
pub open spec fn served(peer: Seq<char>, msg: MessageM, m: ManagerM) -> (
    Result<(), ErrM>,
    ManagerM,
) {
    let n = m.depth_limit as nat;
    match msg {
        MessageM::LookupRequest { request_id, service, member, reply_to, txn_id } => {
            let names1 = interner::interned(m.interner, service);
            let names2 = interner::interned(names1, member);
            let svc = interner::symbol_of(names1, service);
            let mem = interner::symbol_of(names2, member);
            let m1 = ManagerM { interner: names2, ..m };
            match txn_id {
                Some(tid) => answered(
                    ParkedM::Lookup { request_id, reply_to, service: svc, member: mem, tid },
                    m1,
                ),
                None => {
                    let (r, w) = semantics::lookup(n, mem, svc, World { m: m1, t: None });
                    match r {
                        Err(ErrM::Suspended) => (Err(ErrM::Suspended), w.m),
                        _ => (
                            Ok(()),
                            model::send(w.m, reply_to, lookup_answer(w.m, request_id, r)),
                        ),
                    }
                },
            }
        },
        MessageM::ActionRequest { request_id, service, stmts, env, reply_to, txn_id } => {
            let names1 = interner::interned(m.interner, service);
            let svc = interner::symbol_of(names1, service);
            let log = wire::request_log(stmts, env);
            let names2 = interner::interned_all(names1, log.names);
            let m1 = ManagerM { interner: names2, ..m };
            match log.err {
                Some(l) => (
                    Ok(()),
                    model::send(
                        m1,
                        reply_to,
                        MessageM::ActionResponse {
                            request_id,
                            success: false,
                            error: Some(wire::limit_text(l)),
                        },
                    ),
                ),
                None => {
                    let local_stmts = renaming::map_stmts(wire::symbolizing(names2), stmts);
                    let local_env = renaming::map_env(wire::symbolizing(names2), env);
                    match txn_id {
                        Some(tid) => answered(
                            ParkedM::Action {
                                request_id,
                                reply_to,
                                service: svc,
                                stmts: local_stmts,
                                env: local_env,
                                tid,
                            },
                            m1,
                        ),
                        None => {
                            let (r, m2) = transactions::run_txn(
                                n,
                                svc,
                                local_stmts,
                                local_env,
                                transactions::next_txn_id(m1),
                                transactions::ticked(m1),
                            );
                            match r {
                                Err(ErrM::Suspended) => (Err(ErrM::Suspended), m2),
                                _ => (
                                    Ok(()),
                                    model::send(m2, reply_to, action_answer(request_id, r)),
                                ),
                            }
                        },
                    }
                },
            }
        },
        MessageM::Commit { request_id, txn_id, reply_to } => {
            let (r, m1) = transactions::commit_held(n, txn_id, m);
            match r {
                Err(ErrM::Suspended) => (Err(ErrM::Suspended), m1),
                _ => {
                    let m2 = model::send(
                        m1,
                        reply_to,
                        MessageM::CommitResponse {
                            request_id,
                            success: r is Ok,
                            error: complaint(r),
                        },
                    );
                    woken(
                        match r {
                            Ok(freed) => freed,
                            Err(_) => seq![],
                        },
                        m2,
                    )
                },
            }
        },
        MessageM::Abort { request_id, txn_id, reply_to } => {
            let (r, m1) = transactions::abort_held(n, txn_id, m);
            match r {
                Err(e) => (Err(e), m1),
                Ok(freed) => {
                    let q = transactions::purge(m1.wait_queue, txn_id, m1.wait_queue.len()).1;
                    woken(
                        freed,
                        model::send(
                            ManagerM { wait_queue: q, ..m1 },
                            reply_to,
                            MessageM::AbortResponse { request_id },
                        ),
                    )
                },
            }
        },
        MessageM::RequestUpdates { .. } => semantics::handle_event(
            n,
            EventM::MessageReceived { peer, msg },
            m,
        ),
        MessageM::Update { .. } => semantics::handle_event(
            n,
            EventM::MessageReceived { peer, msg },
            m,
        ),
        _ => (Ok(()), m),
    }
}

/// The words for how something failed, if it did.
fn complain<T>(r: &Result<T, EvalError>) -> (c: Option<String>)
    ensures
        match r {
            Ok(_) => c is None,
            Err(e) => c matches Some(t) && t@ == evaluator::error_text(e.deep_view()),
        },
{
    match r {
        Ok(_) => None,
        Err(e) => Some(e.to_text()),
    }
}

/// The answer to a request for a value.
fn lookup_response(manager: &Manager, request_id: u64, r: &Result<Value, EvalError>) -> (msg:
    MeerkatMessage)
    ensures
        msg.deep_view() == lookup_answer(manager.deep_view(), request_id, evaluator::res(*r)),
{
    match r {
        Ok(v) => match codec::encode_value(v, &manager.interner) {
            Ok(value) => MeerkatMessage::LookupResponse { request_id, value },
            Err(e) => MeerkatMessage::LookupError { request_id, error: e.to_text() },
        },
        Err(e) => MeerkatMessage::LookupError { request_id, error: e.to_text() },
    }
}

/// Runs a request of another node, for the first time or again. The reply is
/// sent, or, where the transaction is older than the one that holds a lock,
/// the request waits for that lock.
pub fn run_and_reply_or_park(manager: &mut Manager, parked: ParkedRequest) -> (r: Result<
    (),
    EvalError,
>)
    ensures
        (evaluator::done(r), final(manager).deep_view()) == answered(
            parked.deep_view(),
            old(manager).deep_view(),
        ),
{
    let ghost p = parked.deep_view();
    match parked {
        ParkedRequest::Action { request_id, reply_to, service, stmts, env, tid } => {
            let outcome = manager.execute_action_participant(service, &stmts, &env, tid);
            match outcome {
                Err(EvalError::WaitOn(svc, var)) => {
                    manager.park_request(
                        svc,
                        var,
                        ParkedRequest::Action { request_id, reply_to, service, stmts, env, tid },
                    );
                    Ok(())
                },
                Err(EvalError::Suspended) => Err(EvalError::Suspended),
                other => {
                    let msg = MeerkatMessage::ActionResponse {
                        request_id,
                        success: other.is_ok(),
                        error: complain(&other),
                    };
                    manager.send_oneway(Address(reply_to), msg);
                    Ok(())
                },
            }
        },
        ParkedRequest::Lookup { request_id, reply_to, service, member, tid } => {
            let outcome = manager.remote_read_participant(service, member, tid);
            match outcome {
                Err(EvalError::WaitOn(svc, var)) => {
                    manager.park_request(
                        svc,
                        var,
                        ParkedRequest::Lookup { request_id, reply_to, service, member, tid },
                    );
                    Ok(())
                },
                Err(EvalError::Suspended) => Err(EvalError::Suspended),
                other => {
                    let msg = lookup_response(manager, request_id, &other);
                    manager.send_oneway(Address(reply_to), msg);
                    Ok(())
                },
            }
        },
    }
}

/// Runs the requests that waited for the freed locks: the oldest for each, and
/// the oldest of these first.
pub fn wake_ready(manager: &mut Manager, freed: &Vec<(ServiceNetId, Symbol)>) -> (r: Result<
    (),
    EvalError,
>)
    ensures
        (evaluator::done(r), final(manager).deep_view()) == woken(
            freed.deep_view(),
            old(manager).deep_view(),
        ),
{
    let ready = manager.take_ready_waiters(freed);
    run_all(manager, transact::oldest_first(ready))
}

fn run_all(manager: &mut Manager, ready: Vec<ParkedRequest>) -> (r: Result<(), EvalError>)
    ensures
        (evaluator::done(r), final(manager).deep_view()) == answered_all(
            ready.deep_view(),
            0,
            old(manager).deep_view(),
        ),
{
    let ghost q = ready.deep_view();
    let ghost whole = answered_all(q, 0, manager.deep_view());
    for p in it: ready
        invariant
            it.seq() == ready@,
            q == ready.deep_view(),
            whole == answered_all(q, it.index() as nat, manager.deep_view()),
            whole == answered_all(q, 0, old(manager).deep_view()),
    {
        assert(q[it.index() as int] == p.deep_view());
        match run_and_reply_or_park(manager, p) {
            Err(e) => {
                return Err(e);
            },
            Ok(_) => {},
        }
    }
    Ok(())
}

/// Answers a request for a value.
fn serve_lookup(
    manager: &mut Manager,
    request_id: u64,
    service: &String,
    member: &String,
    reply_to: String,
    txn_id: Option<TxnId>,
) -> (r: Result<(), EvalError>)
    ensures
        forall|peer: Seq<char>|
            (evaluator::done(r), final(manager).deep_view()) == #[trigger] served(
                peer,
                MessageM::LookupRequest {
                    request_id,
                    service: service@,
                    member: member@,
                    reply_to: reply_to@,
                    txn_id,
                },
                old(manager).deep_view(),
            ),
{
    let svc = manager.interner.insert(service.as_str());
    let mem = manager.interner.insert(member.as_str());
    match txn_id {
        Some(tid) => run_and_reply_or_park(
            manager,
            ParkedRequest::Lookup { request_id, reply_to, service: svc, member: mem, tid },
        ),
        None => {
            let mut none: Option<Transaction> = None;
            let outcome = manager.lookup(mem, svc, &mut none);
            match outcome {
                Err(EvalError::Suspended) => Err(EvalError::Suspended),
                other => {
                    let msg = lookup_response(manager, request_id, &other);
                    manager.send_oneway(Address(reply_to), msg);
                    Ok(())
                },
            }
        },
    }
}

/// Answers a request for an action.
fn serve_action(
    manager: &mut Manager,
    request_id: u64,
    service: &String,
    stmts: &Vec<crate::net::ast::NetActionStmt>,
    env: &Vec<(String, crate::net::ast::NetValue)>,
    reply_to: String,
    txn_id: Option<TxnId>,
) -> (r: Result<(), EvalError>)
    ensures
        forall|peer: Seq<char>|
            (evaluator::done(r), final(manager).deep_view()) == #[trigger] served(
                peer,
                MessageM::ActionRequest {
                    request_id,
                    service: service@,
                    stmts: stmts.deep_view(),
                    env: env.deep_view(),
                    reply_to: reply_to@,
                    txn_id,
                },
                old(manager).deep_view(),
            ),
{
    let svc = manager.interner.insert(service.as_str());
    let (local_stmts, local_env) = match codec::decode_action(stmts, env, &mut manager.interner) {
        Ok((s, e)) => (s, e),
        Err(e) => {
            let msg = MeerkatMessage::ActionResponse {
                request_id,
                success: false,
                error: Some(e.to_text()),
            };
            manager.send_oneway(Address(reply_to), msg);
            return Ok(());
        },
    };
    match txn_id {
        Some(tid) => run_and_reply_or_park(
            manager,
            ParkedRequest::Action {
                request_id,
                reply_to,
                service: svc,
                stmts: local_stmts,
                env: local_env,
                tid,
            },
        ),
        None => {
            let outcome = manager.execute_action_with_env(svc, &local_stmts, &local_env);
            match outcome {
                Err(EvalError::Suspended) => Err(EvalError::Suspended),
                other => {
                    let msg = MeerkatMessage::ActionResponse {
                        request_id,
                        success: other.is_ok(),
                        error: complain(&other),
                    };
                    manager.send_oneway(Address(reply_to), msg);
                    Ok(())
                },
            }
        },
    }
}

/// Answers a request to commit or to give up a transaction, and runs what
/// waited for its locks.
fn serve_commit(manager: &mut Manager, request_id: u64, txn_id: TxnId, reply_to: String) -> (r:
    Result<(), EvalError>)
    ensures
        forall|peer: Seq<char>|
            (evaluator::done(r), final(manager).deep_view()) == #[trigger] served(
                peer,
                MessageM::Commit { request_id, txn_id, reply_to: reply_to@ },
                old(manager).deep_view(),
            ),
{
    let outcome = manager.commit_participant(&txn_id);
    match outcome {
        Err(EvalError::Suspended) => Err(EvalError::Suspended),
        other => {
            let msg = MeerkatMessage::CommitResponse {
                request_id,
                success: other.is_ok(),
                error: complain(&other),
            };
            manager.send_oneway(Address(reply_to), msg);
            let freed = match other {
                Ok(freed) => freed,
                Err(_) => {
                    let none: Vec<(ServiceNetId, Symbol)> = Vec::new();
                    assert(none.deep_view() =~= Seq::<model::KeyM>::empty());
                    none
                },
            };
            wake_ready(manager, &freed)
        },
    }
}

/// Answers a message of another node.
///
/// Replies are left to who waits for them; a subscription or an update with a
/// name that is too long is passed over.
pub fn handle_message(manager: &mut Manager, peer: String, msg: MeerkatMessage) -> (r: Result<
    (),
    EvalError,
>)
    ensures
        (evaluator::done(r), final(manager).deep_view()) == served(
            peer@,
            msg.deep_view(),
            old(manager).deep_view(),
        ),
{
    match msg {
        MeerkatMessage::LookupRequest { request_id, service, member, reply_to, txn_id } =>
            serve_lookup(manager, request_id, &service, &member, reply_to, txn_id),
        MeerkatMessage::ActionRequest { request_id, service, stmts, env, reply_to, txn_id } =>
            serve_action(manager, request_id, &service, &stmts, &env, reply_to, txn_id),
        MeerkatMessage::Commit { request_id, txn_id, reply_to } => serve_commit(
            manager,
            request_id,
            txn_id,
            reply_to,
        ),
        MeerkatMessage::Abort { request_id, txn_id, reply_to } => {
            match manager.abort_participant(&txn_id) {
                Err(e) => Err(e),
                Ok(freed) => {
                    let _ = manager.purge_parked_txn(&txn_id);
                    manager.send_oneway(
                        Address(reply_to),
                        MeerkatMessage::AbortResponse { request_id },
                    );
                    wake_ready(manager, &freed)
                },
            }
        },
        MeerkatMessage::RequestUpdates { .. } => {
            let fuel = manager.depth_limit;
            manager.handle_event_at(fuel, NetworkEvent::MessageReceived { peer, msg })
        },
        MeerkatMessage::Update { .. } => {
            let fuel = manager.depth_limit;
            manager.handle_event_at(fuel, NetworkEvent::MessageReceived { peer, msg })
        },
        MeerkatMessage::Ping { .. }
        | MeerkatMessage::Pong { .. }
        | MeerkatMessage::Announce { .. }
        | MeerkatMessage::Transaction { .. }
        | MeerkatMessage::Propagation { .. }
        | MeerkatMessage::LookupResponse { .. }
        | MeerkatMessage::LookupError { .. }
        | MeerkatMessage::ActionResponse { .. }
        | MeerkatMessage::CommitResponse { .. }
        | MeerkatMessage::AbortResponse { .. }
        | MeerkatMessage::WaitParked { .. } => Ok(()),
    }
}

/// What the node does with the next event, if there is one.
pub open spec fn served_next(m: ManagerM) -> (Result<(), ErrM>, ManagerM) {
    match model::next_incoming(m) {
        Some(model::IncomingM::Event(ev)) => match ev {
            EventM::MessageReceived { peer, msg } => served(peer, msg, model::pop_incoming(m)),
            _ => (Ok(()), model::pop_incoming(m)),
        },
        _ => (Ok(()), m),
    }
}

/// Takes the next event and answers it.
pub fn serve_next(manager: &mut Manager) -> (r: Result<(), EvalError>)
    ensures
        (evaluator::done(r), final(manager).deep_view()) == served_next(old(manager).deep_view()),
{
    match manager.next_event() {
        Some(NetworkEvent::MessageReceived { peer, msg }) => handle_message(manager, peer, msg),
        Some(_) => Ok(()),
        None => Ok(()),
    }
}

/// Those who wait for the first `n` of these requests are told that they are
/// still queued.
pub open spec fn reassured(m: ManagerM, targets: Seq<(u64, Seq<char>)>, n: nat) -> ManagerM
    decreases n,
{
    if n == 0 {
        m
    } else {
        model::send(
            reassured(m, targets, (n - 1) as nat),
            targets[n - 1].1,
            MessageM::WaitParked { request_id: targets[n - 1].0 },
        )
    }
}

/// Tells all who wait for a lock that they are still queued.
pub fn keepalive(manager: &mut Manager)
    ensures
        ({
            let m = old(manager).deep_view();
            let targets = transactions::targets(m.wait_queue, m.wait_queue.len());
            final(manager).deep_view() == reassured(m, targets, targets.len())
        }),
{
    let ghost m = manager.deep_view();
    let targets = manager.parked_keepalive_targets();
    let ghost t = targets.deep_view();
    for i in 0..targets.len()
        invariant
            t == targets.deep_view(),
            manager.deep_view() == reassured(m, t, i as nat),
            m == old(manager).deep_view(),
            t == transactions::targets(m.wait_queue, m.wait_queue.len()),
    {
        assert(t[i as int] == targets@[i as int].deep_view());
        manager.send_oneway(
            Address(targets[i].1.clone()),
            MeerkatMessage::WaitParked { request_id: targets[i].0 },
        );
    }
}

/// Whether a node has sent, last, a reply to the request to the address.
pub open spec fn replied(m: ManagerM, request_id: u64, reply_to: Seq<char>) -> bool {
    exists|m1: ManagerM, msg: MessageM|
        msg.replies_to() == Some(request_id) && m == #[trigger] model::send(m1, reply_to, msg)
}

/// Whether a node has, last, put the request on the queue of a lock.
pub open spec fn queued(m: ManagerM, p: ParkedM) -> bool {
    exists|m1: ManagerM, svc: Symbol, var: Symbol|
        m == #[trigger] transactions::park(m1, svc, var, p)
}

/// A request that is run to its end is replied to, under its number and where
/// its sender waits, unless it waits for a lock; so no request gets lost.
pub proof fn law_replied_or_queued(p: ParkedM, m: ManagerM)
    requires
        answered(p, m).0 is Ok,
    ensures
        replied(answered(p, m).1, p.target().0, p.target().1) || queued(answered(p, m).1, p),
{
    let n = m.depth_limit as nat;
    let z = answered(p, m).1;
    match p {
        ParkedM::Action { request_id, reply_to, service, stmts, env, tid } => {
            let (r, m1) = transactions::participate(n, service, stmts, env, tid, m);
            match r {
                Err(ErrM::WaitOn(svc, var)) => {
                    assert(z == transactions::park(m1, svc, var, p));
                },
                _ => {
                    assert(action_answer(request_id, r).replies_to() == Some(request_id));
                    assert(z == model::send(m1, reply_to, action_answer(request_id, r)));
                },
            }
        },
        ParkedM::Lookup { request_id, reply_to, service, member, tid } => {
            let (r, m1) = transactions::participate_read(n, service, member, tid, m);
            match r {
                Err(ErrM::WaitOn(svc, var)) => {
                    assert(z == transactions::park(m1, svc, var, p));
                },
                _ => {
                    assert(lookup_answer(m1, request_id, r).replies_to() == Some(request_id));
                    assert(z == model::send(m1, reply_to, lookup_answer(m1, request_id, r)));
                },
            }
        },
    }
}

/// A request outside any transaction is replied to at once: it waits for no
/// lock.
pub proof fn law_plain_request_is_replied(peer: Seq<char>, msg: MessageM, m: ManagerM)
    requires
        served(peer, msg, m).0 is Ok,
        match msg {
            MessageM::LookupRequest { txn_id, .. } => txn_id is None,
            MessageM::ActionRequest { txn_id, .. } => txn_id is None,
            _ => false,
        },
    ensures
        match msg {
            MessageM::LookupRequest { request_id, reply_to, .. } => replied(
                served(peer, msg, m).1,
                request_id,
                reply_to,
            ),
            MessageM::ActionRequest { request_id, reply_to, .. } => replied(
                served(peer, msg, m).1,
                request_id,
                reply_to,
            ),
            _ => true,
        },
{
    let n = m.depth_limit as nat;
    let z = served(peer, msg, m).1;
    match msg {
        MessageM::LookupRequest { request_id, service, member, reply_to, txn_id } => {
            let names1 = interner::interned(m.interner, service);
            let names2 = interner::interned(names1, member);
            let (r, w) = semantics::lookup(
                n,
                interner::symbol_of(names2, member),
                interner::symbol_of(names1, service),
                World { m: ManagerM { interner: names2, ..m }, t: None },
            );
            assert(lookup_answer(w.m, request_id, r).replies_to() == Some(request_id));
            assert(z == model::send(w.m, reply_to, lookup_answer(w.m, request_id, r)));
        },
        MessageM::ActionRequest { request_id, service, stmts, env, reply_to, txn_id } => {
            let names1 = interner::interned(m.interner, service);
            let log = wire::request_log(stmts, env);
            let names2 = interner::interned_all(names1, log.names);
            let m1 = ManagerM { interner: names2, ..m };
            match log.err {
                Some(l) => {
                    let a = MessageM::ActionResponse {
                        request_id,
                        success: false,
                        error: Some(wire::limit_text(l)),
                    };
                    assert(a.replies_to() == Some(request_id));
                    assert(z == model::send(m1, reply_to, a));
                },
                None => {
                    let (r, m2) = transactions::run_txn(
                        n,
                        interner::symbol_of(names1, service),
                        renaming::map_stmts(wire::symbolizing(names2), stmts),
                        renaming::map_env(wire::symbolizing(names2), env),
                        transactions::next_txn_id(m1),
                        transactions::ticked(m1),
                    );
                    assert(action_answer(request_id, r).replies_to() == Some(request_id));
                    assert(z == model::send(m2, reply_to, action_answer(request_id, r)));
                },
            }
        },
        _ => {},
    }
}

/// All who wait are told so, in order, and nothing else changes.
pub proof fn law_all_reassured(m: ManagerM, targets: Seq<(u64, Seq<char>)>, n: nat)
    requires
        m.network is Some,
        n <= targets.len(),
    ensures
        reassured(m, targets, n) == (ManagerM {
            network: Some(
                model::PortM {
                    sent: m.network->Some_0.sent + Seq::new(
                        n,
                        |i: int| (targets[i].1, MessageM::WaitParked { request_id: targets[i].0 }),
                    ),
                    ..m.network->Some_0
                },
            ),
            ..m
        }),
    decreases n,
{
    let p = m.network->Some_0;
    let told = Seq::new(
        n,
        |i: int| (targets[i].1, MessageM::WaitParked { request_id: targets[i].0 }),
    );
    if n == 0 {
        assert(p.sent + told =~= p.sent);
    } else {
        law_all_reassured(m, targets, (n - 1) as nat);
        let before = Seq::new(
            (n - 1) as nat,
            |i: int| (targets[i].1, MessageM::WaitParked { request_id: targets[i].0 }),
        );
        assert((p.sent + before).push(
            (targets[n - 1].1, MessageM::WaitParked { request_id: targets[n - 1].0 }),
        ) =~= p.sent + told);
    }
}

/// A node that is told to commit a transaction that it holds applies it: the
/// values that the transaction wrote here are stored, its locks are let go of and
/// nothing is held of it. Then it says so where it was told, and goes on with
/// the requests that waited for those locks.
pub proof fn law_told_commit_is_applied(
    peer: Seq<char>,
    request_id: u64,
    txn_id: TxnId,
    reply_to: Seq<char>,
    m: ManagerM,
)
    requires
        laws::well_formed(m),
        table::keys_distinct(m.pending_txns),
        table::get(m.pending_txns, txn_id) matches Some(t) && laws::held_well(m, txn_id, t)
            && t.participants.len() == 0,
        served(peer, MessageM::Commit { request_id, txn_id, reply_to }, m).0 is Ok,
    ensures
        exists|m1: ManagerM|
            #![trigger table::bound(m1.pending_txns, txn_id)]
            {
                let t = table::get(m.pending_txns, txn_id)->Some_0;
                let yes = MessageM::CommitResponse { request_id, success: true, error: None };
                &&& laws::applied(m, m1, t.written, txn_id)
                &&& !table::bound(m1.pending_txns, txn_id)
                &&& served(peer, MessageM::Commit { request_id, txn_id, reply_to }, m) == woken(
                    t.locked,
                    model::send(m1, reply_to, yes),
                )
            },
{
    let n = m.depth_limit as nat;
    let t = table::get(m.pending_txns, txn_id)->Some_0;
    let (r, m1) = transactions::commit_held(n, txn_id, m);
    let a = transactions::apply_writes(
        n,
        t,
        ManagerM { pending_txns: table::without(m.pending_txns, txn_id), ..m },
    );
    laws::lemma_writes_suspend(
        n,
        t.written,
        0,
        transactions::store_writes(
            ManagerM { pending_txns: table::without(m.pending_txns, txn_id), ..m },
            t.written,
            t.id,
            t.written.len(),
        ),
    );
    assert(a.0 is Ok);
    assert(r == Ok::<Seq<model::KeyM>, ErrM>(t.locked));
    laws::law_held_commit(n, txn_id, m);
    let yes = MessageM::CommitResponse { request_id, success: true, error: None };
    assert(!table::bound(m1.pending_txns, txn_id));
    assert(served(peer, MessageM::Commit { request_id, txn_id, reply_to }, m) == woken(
        t.locked,
        model::send(m1, reply_to, yes),
    ));
}

/// A node that is told to abort a transaction that it holds gives it up: no
/// value and no writer changes, its locks are let go of, nothing is held of it,
/// and no request of it waits. Then it says so where it was told, and goes on
/// with the requests that waited for those locks.
pub proof fn law_told_abort_leaves_no_trace(
    peer: Seq<char>,
    request_id: u64,
    txn_id: TxnId,
    reply_to: Seq<char>,
    m: ManagerM,
)
    requires
        laws::well_formed(m),
        table::keys_distinct(m.pending_txns),
        table::get(m.pending_txns, txn_id) matches Some(t) && laws::held_well(m, txn_id, t),
        served(peer, MessageM::Abort { request_id, txn_id, reply_to }, m).0 is Ok,
    ensures
        exists|m1: ManagerM|
            #![trigger table::bound(m1.pending_txns, txn_id)]
            {
                let t = table::get(m.pending_txns, txn_id)->Some_0;
                let q = transactions::purge(m1.wait_queue, txn_id, m1.wait_queue.len()).1;
                &&& isolation::kept(
                    laws::besides_held(m),
                    laws::besides_held(m1),
                    Some(txn_id),
                )
                &&& !table::bound(m1.pending_txns, txn_id)
                &&& forall|i: int, j: int|
                    laws::at(m1, i, j) ==> !(#[trigger] laws::var_at(
                        m1,
                        i,
                        j,
                    )).lock.holders().contains(txn_id)
                &&& served(peer, MessageM::Abort { request_id, txn_id, reply_to }, m) == woken(
                    t.locked,
                    model::send(
                        ManagerM { wait_queue: q, ..m1 },
                        reply_to,
                        MessageM::AbortResponse { request_id },
                    ),
                )
            },
{
    let n = m.depth_limit as nat;
    let t = table::get(m.pending_txns, txn_id)->Some_0;
    let (r, m1) = transactions::abort_held(n, txn_id, m);
    laws::law_held_abort(n, txn_id, m);
    let q = transactions::purge(m1.wait_queue, txn_id, m1.wait_queue.len()).1;
    assert(!table::bound(m1.pending_txns, txn_id));
    assert(served(peer, MessageM::Abort { request_id, txn_id, reply_to }, m) == woken(
        t.locked,
        model::send(
            ManagerM { wait_queue: q, ..m1 },
            reply_to,
            MessageM::AbortResponse { request_id },
        ),
    ));
}

/// Who asked for an action learns how it went: the answer says success just where
/// it succeeded, and else why it failed.
pub proof fn law_action_answer_is_understood(request_id: u64, r: Result<(), ErrM>)
    ensures
        action_answer(request_id, r).replies_to() == Some(request_id),
        semantics::action_reply(Ok(action_answer(request_id, r))) == (match r {
            Ok(_) => Ok::<(), ErrM>(()),
            Err(e) => Err(ErrM::LocalDispatchFailed(evaluator::error_text(e))),
        }),
{
}

/// Who told a node to commit learns whether it did.
pub proof fn law_commit_answer_is_understood(request_id: u64, error: Seq<char>)
    ensures
        semantics::commit_reply(
            Ok(MessageM::CommitResponse { request_id, success: true, error: None }),
        ) is Ok,
        semantics::commit_reply(
            Ok(MessageM::CommitResponse { request_id, success: false, error: Some(error) }),
        ) == Err::<(), ErrM>(ErrM::LocalDispatchFailed(error)),
{
}

/// Who asked for a value gets it: what is understood of the answer is the value,
/// with the same names in it, if it can be put on the wire; else it is an error.
pub proof fn law_lookup_answer_is_understood(
    m: ManagerM,
    request_id: u64,
    r: Result<ValueM<Symbol>, ErrM>,
    theirs: ManagerM,
)
    requires
        r matches Ok(v) ==> interner::interned_all(
            theirs.interner,
            wire::value_log(model::wire_value(m, v)).names,
        ).len() <= usize::MAX,
    ensures
        lookup_answer(m, request_id, r).replies_to() == Some(request_id),
        ({
            let (got, z) = semantics::lookup_reply(
                Ok(lookup_answer(m, request_id, r)),
                theirs,
            );
            match r {
                Ok(v) => if model::wire_ok(m, v) {
                    &&& got is Ok
                    &&& model::wire_value(z, got->Ok_0) == model::wire_value(m, v)
                    &&& v is Int || v is Bool || v is String ==> got->Ok_0 == v
                } else {
                    got is Err
                },
                Err(e) => got == Err::<ValueM<Symbol>, ErrM>(
                    ErrM::LocalDispatchFailed(evaluator::error_text(e)),
                ),
            }
        }),
{
    if let Ok(v) = r {
        if model::wire_ok(m, v) {
            net_laws::law_value_arrives(m.interner, theirs.interner, v);
            let sent = model::wire_value(m, v);
            let names = interner::interned_all(theirs.interner, wire::value_log(sent).names);
            renaming::lemma_value_map(wire::naming(m.interner), v);
            renaming::lemma_value_map(wire::symbolizing(names), sent);
        }
    }
}

/// A request for a value, outside any transaction, is answered with what the
/// member of that service has here.
pub proof fn law_plain_lookup_is_answered(
    peer: Seq<char>,
    request_id: u64,
    service: Seq<char>,
    member: Seq<char>,
    reply_to: Seq<char>,
    m: ManagerM,
)
    requires
        m.network is Some,
        m.interner.len() + 2 <= usize::MAX,
        served(
            peer,
            MessageM::LookupRequest { request_id, service, member, reply_to, txn_id: None },
            m,
        ).0 is Ok,
    ensures
        ({
            let msg = MessageM::LookupRequest {
                request_id,
                service,
                member,
                reply_to,
                txn_id: None,
            };
            let z = served(peer, msg, m).1;
            exists|svc: Symbol, x: Symbol, m1: ManagerM|
                {
                    let (r, w) = #[trigger] semantics::lookup(
                        m.depth_limit as nat,
                        x,
                        svc,
                        World { m: m1, t: None },
                    );
                    &&& model::name(m1, svc) == service
                    &&& model::name(m1, x) == member
                    &&& m1 == (ManagerM { interner: m1.interner, ..m })
                    &&& w.m.network is Some ==> endings::sent(z) == endings::sent(w.m).push(
                        (reply_to, lookup_answer(w.m, request_id, r)),
                    )
                }
        }),
{
    let names1 = interner::interned(m.interner, service);
    let names2 = interner::interned(names1, member);
    let svc = interner::symbol_of(names1, service);
    let x = interner::symbol_of(names2, member);
    let m1 = ManagerM { interner: names2, ..m };
    interner::lemma_place(names1, service);
    interner::lemma_place(names2, member);
    if !m.interner.contains(service) {
        assert(names1[m.interner.len() as int] == service);
    }
    if !names1.contains(member) {
        assert(names2[names1.len() as int] == member);
    }
    assert(names1.contains(service));
    assert(names2.contains(member));
    assert(names2[svc.id as int] == names1[svc.id as int]);
    let (r, w) = semantics::lookup(m.depth_limit as nat, x, svc, World { m: m1, t: None });
    assert(model::name(m1, svc) == service);
    assert(model::name(m1, x) == member);
}

/// The address that a service is made known under leads back to its name: who
/// imports it by that address finds it under that name.
pub proof fn law_address_leads_to_service(
    addr: Seq<char>,
    name: Seq<char>,
    urls: Seq<Seq<char>>,
)
    requires
        !name.contains('/'),
    ensures
        slug(addr + "/"@ + name) == name,
        table::get(by_slug(urls.push(addr + "/"@ + name), urls.len() + 1), name) == Some(
            addr + "/"@ + name,
        ),
{
    reveal_strlit("/");
    let url = addr + "/"@ + name;
    assert(url =~= addr + seq!['/'] + name);
    endings::lemma_last_slash(addr, name);
    assert(url.skip(addr.len() + 1int) =~= name);
    let all = urls.push(url);
    table::lemma_put(by_slug(all, urls.len()), name, url, name);
}

/// Every service of a program is made known, under the node's address and its own
/// name, and nothing else is.
pub proof fn law_services_are_made_known(
    addr: Seq<char>,
    prog: Seq<StmtM<Symbol>>,
    names: Seq<Seq<char>>,
    n: nat,
    url: Seq<char>,
)
    requires
        n <= prog.len(),
    ensures
        urls(addr, prog, names, n).contains(url) <==> exists|i: int|
            0 <= i < n && (#[trigger] prog[i] matches StmtM::Service { name, decls } && url == addr
                + "/"@ + interner::name_of(names, name)),
    decreases n,
{
    if n > 0 {
        law_services_are_made_known(addr, prog, names, (n - 1) as nat, url);
        let before = urls(addr, prog, names, (n - 1) as nat);
        if let StmtM::Service { name, decls } = prog[n - 1] {
            let own = addr + "/"@ + interner::name_of(names, name);
            let all = before.push(own);
            assert(all[before.len() as int] == own);
            if before.contains(url) {
                let k = choose|k: int| 0 <= k < before.len() && before[k] == url;
                assert(all[k] == url);
            }
            if all.contains(url) && url != own {
                let k = choose|k: int| 0 <= k < all.len() && all[k] == url;
                assert(before[k] == url);
            }
        }
    }
}

/// What an import registers for a service is the node's address with the
/// service's name behind a slash: from that the node's address is found again.
/// The node's address is not to end like that itself.
pub proof fn law_owner_is_found(m: ManagerM, svc: Symbol, addr: Seq<char>)
    requires
        ({
            let slug = "/"@ + model::name(m, svc);
            &&& table::get(m.remote_services, svc) == Some(addr + slug)
            &&& !text::occurs_at(addr, slug, addr.len() - slug.len())
        }),
    ensures
        model::remote_addr(m, svc) == Ok::<Seq<char>, ErrM>(addr),
{
    let slug = "/"@ + model::name(m, svc);
    let url = addr + slug;
    reveal_strlit("/");
    assert(url.subrange(addr.len() as int, url.len() as int) =~= slug);
    assert(text::occurs_at(url, slug, url.len() - slug.len()));
    assert(url.take(url.len() - slug.len()) =~= addr);
    assert(model::trimmed_end(url, slug) == model::trimmed_end(addr, slug));
    assert(model::trimmed_end(addr, slug) == addr);
}

/// The address that a node makes known ends with its own identity. Where the node
/// listens at all of its addresses, the address of the machine stands in their
/// place, and what is around it is kept.
pub proof fn law_advertised_address_names_node(
    before: Seq<char>,
    after: Seq<char>,
    ip: Seq<char>,
    peer: Seq<char>,
)
    requires
        ({
            let s = before + "0.0.0.0"@ + after;
            let t = before + ip + after;
            &&& forall|k: int|
                0 <= k < before.len() ==> !#[trigger] text::occurs_at(s, "0.0.0.0"@, k)
            &&& forall|k: int|
                0 <= k < after.len() ==> !#[trigger] text::occurs_at(after, "0.0.0.0"@, k)
            &&& forall|k: int| 0 <= k < t.len() ==> !#[trigger] text::occurs_at(t, "127.0.0.1"@, k)
        }),
    ensures
        full_address(before + "0.0.0.0"@ + after, ip, peer) == before + ip + after + "/p2p/"@
            + peer,
{
    reveal_strlit("0.0.0.0");
    reveal_strlit("127.0.0.1");
    let s = before + "0.0.0.0"@ + after;
    let t = before + ip + after;
    let n = before.len() as int;
    assert(s.subrange(n, n + 7) =~= "0.0.0.0"@);
    assert(text::occurs_at(s, "0.0.0.0"@, n));
    text::law_replaced(s, "0.0.0.0"@, ip, n);
    assert(s.take(n) =~= before);
    assert(s.skip(n + 7) =~= after);
    text::law_replaced(after, "0.0.0.0"@, ip, after.len() as int);
    assert(text::replaced(s, "0.0.0.0"@, ip) =~= t);
    text::law_replaced(t, "127.0.0.1"@, ip, t.len() as int);
}

proof fn lemma_port(port: u16, k: int)
    requires
        0 <= k < ("/tcp/"@ + text::decimal(port as nat)).len(),
    ensures
        ("/tcp/"@ + text::decimal(port as nat))[k] != '.',
{
    reveal_strlit("/tcp/");
    texts::lemma_decimal(port as nat);
    if k >= 5 {
        assert(("/tcp/"@ + text::decimal(port as nat))[k] == text::decimal(port as nat)[k - 5]);
    }
}

/// A node that serves this machine alone makes known the address that it listens
/// under.
pub proof fn law_local_address_is_kept(m: ManagerM, port: u16, peer: Seq<char>)
    requires
        m.local,
    ensures
        ({
            let bound = "/ip4/"@ + "127.0.0.1"@ + "/tcp/"@ + text::decimal(port as nat);
            full_address(bound, model::node_ip(m), peer) == bound + "/p2p/"@ + peer
        }),
{
    let end = "/tcp/"@ + text::decimal(port as nat);
    let s = "/ip4/"@ + "127.0.0.1"@ + "/tcp/"@ + text::decimal(port as nat);
    let home = "127.0.0.1"@;
    let any = "0.0.0.0"@;
    reveal_strlit("/ip4/");
    reveal_strlit("127.0.0.1");
    reveal_strlit("0.0.0.0");
    assert(s =~= "/ip4/"@ + home + end);
    assert forall|k: int| 0 <= k < s.len() implies !#[trigger] text::occurs_at(s, any, k) by {
        if text::occurs_at(s, any, k) {
            let t = s.subrange(k, k + 7);
            assert(t == any);
            assert(t[0] == s[k] && t[1] == s[k + 1] && t[3] == s[k + 3] && t[5] == s[k + 5]);
            if k + 1 >= 14 {
                lemma_port(port, k + 1 - 14);
                assert(s[k + 1] == end[k + 1 - 14]);
            } else if k + 5 >= 14 {
                lemma_port(port, k + 5 - 14);
                assert(s[k + 5] == end[k + 5 - 14]);
            } else {
                assert(s[k] == ("/ip4/"@ + home)[k]);
            }
        }
    }
    text::law_replaced(s, any, home, s.len() as int);
    text::law_replaced_by_itself(s, home);
}

/// A node that serves others makes known the address that it goes out by, with
/// the port that it listens at. An address that is no loopback address stays.
pub proof fn law_outbound_address_is_told(
    m: ManagerM,
    ip: Seq<char>,
    port: u16,
    peer: Seq<char>,
)
    requires
        !m.local,
        m.outbound_ip == Some(ip),
        ({
            let t = "/ip4/"@ + ip + ("/tcp/"@ + text::decimal(port as nat));
            forall|k: int| 0 <= k < t.len() ==> !#[trigger] text::occurs_at(t, "127.0.0.1"@, k)
        }),
    ensures
        full_address(
            "/ip4/"@ + "0.0.0.0"@ + ("/tcp/"@ + text::decimal(port as nat)),
            model::node_ip(m),
            peer,
        ) == "/ip4/"@ + ip + ("/tcp/"@ + text::decimal(port as nat)) + "/p2p/"@ + peer,
{
    let front = "/ip4/"@;
    let end = "/tcp/"@ + text::decimal(port as nat);
    let any = "0.0.0.0"@;
    let s = front + any + end;
    reveal_strlit("/ip4/");
    reveal_strlit("0.0.0.0");
    assert forall|k: int| 0 <= k < front.len() implies !#[trigger] text::occurs_at(s, any, k) by {
        if text::occurs_at(s, any, k) {
            assert(s.subrange(k, k + 7)[0] == s[k]);
        }
    }
    assert forall|k: int| 0 <= k < end.len() implies !#[trigger] text::occurs_at(end, any, k) by {
        if text::occurs_at(end, any, k) {
            assert(end.subrange(k, k + 7)[1] == end[k + 1]);
            lemma_port(port, k + 1);
        }
    }
    law_advertised_address_names_node(front, end, ip, peer);
}

/// Where no other address is set, replies are to be sent to the address that the
/// node makes known for the first address that it listens under.
pub proof fn law_replies_come_to_the_known_address(m: ManagerM)
    requires
        m.local_address is None,
        m.network matches Some(p) && p.local_addrs.len() > 0,
    ensures
        model::reply_addr(m) == full_address(
            m.network->Some_0.local_addrs[0],
            model::node_ip(m),
            m.network->Some_0.peer_id,
        ),
{
}

/// A service is known under the last address that ends with its name.
pub proof fn law_last_address_counts(urls: Seq<Seq<char>>, n: nat, i: int)
    requires
        0 <= i < n <= urls.len(),
        forall|j: int| i < j < n ==> slug(#[trigger] urls[j]) != slug(urls[i]),
    ensures
        table::get(by_slug(urls, n), slug(urls[i])) == Some(urls[i]),
    decreases n,
{
    let before = by_slug(urls, (n - 1) as nat);
    table::lemma_put(before, slug(urls[n - 1]), urls[n - 1], slug(urls[i]));
    if i < n - 1 {
        assert(slug(urls[n - 1]) != slug(urls[i]));
        law_last_address_counts(urls, (n - 1) as nat, i);
    }
}

} // verus!
