//! The model of a node's state, and what single steps do to it.

use crate::net::messages::{EventM, MessageM};
use crate::net::wire;
use crate::runtime::ast::model::{ActionStmtM, BinOpM, ExprM, UnOpM, ValueM};
use crate::runtime::interner;
use crate::runtime::interner::Symbol;
use crate::runtime::interpreter::evaluator::ErrM;
use crate::runtime::semantic_analysis::var_analysis::dep_analysis::DepM;
use crate::runtime::table;
use crate::runtime::text;
use crate::runtime::tt::ParamM;
use crate::runtime::txn::{LockM, TxnId, TxnM, VarStateM};
use vstd::prelude::*;

verus! {

/// A list of bindings; a later one hides an earlier one.
pub type EnvM = Seq<(Symbol, ValueM<Symbol>)>;

/// A member of a service, by the service's identity.
pub type KeyM = (Seq<char>, Symbol);

/// A service of this node.
pub struct ServiceM {
    pub id: Seq<char>,
    pub name: Symbol,
    pub vars: Seq<(Symbol, VarStateM)>,
    pub defs: Seq<(Symbol, ExprM<Symbol>)>,
    pub dep: DepM,
    pub listeners: Seq<(Symbol, Seq<KeyM>)>,
    pub dep_cache: Seq<(Symbol, Seq<((Symbol, Symbol), ValueM<Symbol>)>)>,
}

/// A request that waits for a lock.
pub enum ParkedM {
    Action {
        request_id: u64,
        reply_to: Seq<char>,
        service: Symbol,
        stmts: Seq<ActionStmtM<Symbol>>,
        env: EnvM,
        tid: TxnId,
    },
    Lookup {
        request_id: u64,
        reply_to: Seq<char>,
        service: Symbol,
        member: Symbol,
        tid: TxnId,
    },
}

impl ParkedM {
    /// The transaction that the request belongs to.
    pub open spec fn tid(self) -> TxnId {
        match self {
            ParkedM::Action { request_id, reply_to, service, stmts, env, tid } => tid,
            ParkedM::Lookup { request_id, reply_to, service, member, tid } => tid,
        }
    }

    /// The number of the request and the address that waits for its reply.
    pub open spec fn target(self) -> (u64, Seq<char>) {
        match self {
            ParkedM::Action { request_id, reply_to, service, stmts, env, tid } => (
                request_id,
                reply_to,
            ),
            ParkedM::Lookup { request_id, reply_to, service, member, tid } => (
                request_id,
                reply_to,
            ),
        }
    }
}

/// What comes in from the network: an event, the passing of the time that a
/// reply may take, or the start of what came in while a run was suspended.
pub enum IncomingM {
    Event(EventM),
    Elapsed,
    Resume,
}

/// The network as the node sees it: what it has sent, and what has come in.
pub struct PortM {
    pub peer_id: Seq<char>,
    pub local_addrs: Seq<Seq<char>>,
    pub sent: Seq<(Seq<char>, MessageM)>,
    pub inbox: Seq<IncomingM>,
}

/// Where the reply to a request goes.
pub enum SlotM {
    Open,
    Closed,
    Full(MessageM),
}

/// The state of a node.
pub struct ManagerM {
    pub services: Seq<(Symbol, ServiceM)>,
    pub remote_services: Seq<(Symbol, Seq<char>)>,
    pub network: Option<PortM>,
    pub pending_replies: Seq<(u64, u64)>,
    pub channels: Seq<(u64, SlotM)>,
    pub next_channel: u64,
    pub node_id: u64,
    pub clock: u128,
    pub pending_txns: Seq<(TxnId, TxnM)>,
    pub wait_queue: Seq<(KeyM, Seq<ParkedM>)>,
    pub local_address: Option<Seq<char>>,
    pub outbound_ip: Option<Seq<char>>,
    pub local: bool,
    pub interner: Seq<Seq<char>>,
    pub reactive_cache: Option<Seq<((Symbol, Symbol), ValueM<Symbol>)>>,
    pub listener_addrs: Seq<(Seq<char>, Seq<char>)>,
    pub next_lookup_id: u64,
    pub next_action_id: u64,
    pub next_commit_id: u64,
    pub next_abort_id: u64,
    pub next_sub_id: u64,
    pub depth_limit: u64,
}

/// The state of a node and the transaction that is under way, if any.
pub struct World {
    pub m: ManagerM,
    pub t: Option<TxnM>,
}

/// The name of a symbol.
pub open spec fn name(m: ManagerM, s: Symbol) -> Seq<char> {
    interner::name_of(m.interner, s)
}

/// The latest binding of `name`.
pub open spec fn env_get(env: EnvM, name: Symbol) -> Option<ValueM<Symbol>>
    decreases env.len(),
{
    if env.len() == 0 {
        None
    } else if env.last().0 == name {
        Some(env.last().1)
    } else {
        env_get(env.drop_last(), name)
    }
}

/// The bindings of `env` with the parameters bound to the arguments, as far as
/// both go.
pub open spec fn bind_args(
    env: EnvM,
    params: Seq<ParamM<Symbol>>,
    args: Seq<ValueM<Symbol>>,
) -> EnvM {
    env + Seq::new(
        if params.len() < args.len() {
            params.len()
        } else {
            args.len()
        },
        |i: int| (params[i].name, args[i]),
    )
}

/// Whether `name` is a variable or a definition of the service.
pub open spec fn is_member(m: ManagerM, svc: Symbol, name: Symbol) -> bool {
    table::get(m.services, svc) matches Some(s) && (table::bound(s.vars, name) || table::bound(
        s.defs,
        name,
    ))
}

/// The first `n` bindings that a closure takes along: those of its free
/// variables that are no members of the service.
pub open spec fn captured(
    m: ManagerM,
    svc: Symbol,
    env: EnvM,
    free: Set<Symbol>,
    n: nat,
) -> EnvM
    decreases n,
{
    if n == 0 {
        seq![]
    } else {
        let rest = captured(m, svc, env, free, (n - 1) as nat);
        let b = env[n - 1];
        if free.contains(b.0) && !is_member(m, svc, b.0) {
            rest.push(b)
        } else {
            rest
        }
    }
}

/// A binary operation on values.
pub open spec fn binop(
    op: BinOpM,
    a: ValueM<Symbol>,
    b: ValueM<Symbol>,
) -> Result<ValueM<Symbol>, ErrM> {
    match (op, a, b) {
        (BinOpM::Add, ValueM::Int { val: x }, ValueM::Int { val: y }) => Ok(
            ValueM::Int { val: x.wrapping_add(y) },
        ),
        (BinOpM::Sub, ValueM::Int { val: x }, ValueM::Int { val: y }) => Ok(
            ValueM::Int { val: x.wrapping_sub(y) },
        ),
        (BinOpM::Mul, ValueM::Int { val: x }, ValueM::Int { val: y }) => Ok(
            ValueM::Int { val: x.wrapping_mul(y) },
        ),
        (BinOpM::Div, ValueM::Int { val: x }, ValueM::Int { val: y }) => match x.checked_div(y) {
            Some(q) => Ok(ValueM::Int { val: q }),
            None => Err(
                ErrM::RuntimeError(
                    if y == 0 {
                        "Division by zero"@
                    } else {
                        "Integer overflow"@
                    },
                ),
            ),
        },
        (BinOpM::Eq, ValueM::Int { val: x }, ValueM::Int { val: y }) => Ok(
            ValueM::Bool { val: x == y },
        ),
        (BinOpM::Lt, ValueM::Int { val: x }, ValueM::Int { val: y }) => Ok(
            ValueM::Bool { val: x < y },
        ),
        (BinOpM::Gt, ValueM::Int { val: x }, ValueM::Int { val: y }) => Ok(
            ValueM::Bool { val: x > y },
        ),
        (BinOpM::And, ValueM::Bool { val: x }, ValueM::Bool { val: y }) => Ok(
            ValueM::Bool { val: x && y },
        ),
        (BinOpM::Or, ValueM::Bool { val: x }, ValueM::Bool { val: y }) => Ok(
            ValueM::Bool { val: x || y },
        ),
        _ => Err(ErrM::TypeError("Type error in binary operation"@)),
    }
}

/// A unary operation on a value.
pub open spec fn unop(op: UnOpM, a: ValueM<Symbol>) -> Result<ValueM<Symbol>, ErrM> {
    match (op, a) {
        (UnOpM::Neg, ValueM::Int { val: x }) => Ok(ValueM::Int { val: 0i32.wrapping_sub(x) }),
        (UnOpM::Not, ValueM::Bool { val: x }) => Ok(ValueM::Bool { val: !x }),
        _ => Err(ErrM::TypeError("Type error in unary operation"@)),
    }
}

/// The identity of a service that is known by name.
pub open spec fn net_id(m: ManagerM, svc: Symbol) -> Seq<char> {
    match table::get(m.services, svc) {
        Some(s) => s.id,
        None => match table::get(m.remote_services, svc) {
            Some(a) => a,
            None => name(m, svc),
        },
    }
}

/// The identity that a service made on this node gets.
pub open spec fn new_net_id(m: ManagerM, svc: Symbol) -> Seq<char> {
    match m.local_address {
        Some(a) => if a.len() > 0 {
            a + "/"@ + name(m, svc)
        } else {
            name(m, svc)
        },
        None => name(m, svc),
    }
}

/// The place of the first service with the identity `id`, or the length.
pub open spec fn place_of_id(services: Seq<(Symbol, ServiceM)>, id: Seq<char>) -> nat
    decreases services.len(),
{
    if services.len() == 0 {
        0
    } else if services[0].1.id == id {
        0
    } else {
        1 + place_of_id(services.drop_first(), id)
    }
}

/// The local name of the service with the identity `id`.
pub open spec fn name_for_id(m: ManagerM, id: Seq<char>) -> Option<Symbol> {
    let i = place_of_id(m.services, id);
    if i < m.services.len() {
        Some(m.services[i as int].0)
    } else {
        None
    }
}

/// The expression of a definition.
pub open spec fn def_of(m: ManagerM, svc: Symbol, name: Symbol) -> Option<ExprM<Symbol>> {
    match table::get(m.services, svc) {
        Some(s) => table::get(s.defs, name),
        None => None,
    }
}

/// The state of a variable.
pub open spec fn var_of(m: ManagerM, svc: Symbol, name: Symbol) -> Option<VarStateM> {
    match table::get(m.services, svc) {
        Some(s) => table::get(s.vars, name),
        None => None,
    }
}

/// The node with a service replaced.
pub open spec fn with_service(m: ManagerM, svc: Symbol, s: ServiceM) -> ManagerM {
    ManagerM { services: table::put(m.services, svc, s), ..m }
}

/// The node with the state of a variable replaced; the service is there.
pub open spec fn with_var(m: ManagerM, svc: Symbol, var: Symbol, v: VarStateM) -> ManagerM {
    let s = table::get(m.services, svc)->Some_0;
    with_service(m, svc, ServiceM { vars: table::put(s.vars, var, v), ..s })
}

/// What is said of a variable that is not there.
pub open spec fn no_var_text(m: ManagerM, var: Symbol, svc: Symbol) -> Seq<char> {
    "Variable '"@ + name(m, var) + "' not found in service '"@ + name(m, svc) + "'"@
}

/// What is said of a service that is not there.
pub open spec fn no_service_text(m: ManagerM, svc: Symbol) -> Seq<char> {
    "Service '"@ + name(m, svc) + "' not found"@
}

/// Why a member cannot be read that is not there: its service is not there, or
/// has no such member.
pub open spec fn missing(m: ManagerM, var: Symbol, svc: Symbol) -> ErrM {
    if table::bound(m.services, svc) {
        ErrM::VarNotFound(no_var_text(m, var, svc))
    } else {
        ErrM::ServiceNotFound(no_service_text(m, svc))
    }
}

/// How a lock is asked for.
pub enum Wish {
    Read,
    Write,
    Upgrade,
}

/// What is said when a transaction dies for a lock.
pub open spec fn died_text(wish: Wish) -> Seq<char> {
    match wish {
        Wish::Read => "transaction died contending for read lock on '"@,
        Wish::Write => "transaction died contending for write lock on '"@,
        Wish::Upgrade => "transaction died contending to upgrade lock on '"@,
    }
}

/// Whether a lock can be had.
pub open spec fn grants(l: LockM, wish: Wish, t: TxnId) -> bool {
    match wish {
        Wish::Read => l.readable(t),
        Wish::Write => l.writable(t),
        Wish::Upgrade => l.upgradable(t),
    }
}

/// The lock once it has been had.
pub open spec fn granted(l: LockM, wish: Wish, t: TxnId) -> LockM {
    match wish {
        Wish::Read => l.reading(t),
        Wish::Write => LockM::WriteLocked(t),
        Wish::Upgrade => LockM::WriteLocked(t),
    }
}

/// A transaction asks for the lock of a variable.
pub open spec fn acquire(
    m: ManagerM,
    svc: Symbol,
    var: Symbol,
    t: TxnId,
    wish: Wish,
) -> (Result<(), ErrM>, ManagerM) {
    match table::get(m.services, svc) {
        None => (Err(ErrM::ServiceNotFound(no_service_text(m, svc))), m),
        Some(s) => match table::get(s.vars, var) {
            None => (Err(ErrM::VarNotFound("Variable '"@ + name(m, var) + "' not found"@)), m),
            Some(v) => if grants(v.lock, wish, t) {
                (
                    Ok(()),
                    with_var(m, svc, var, VarStateM { lock: granted(v.lock, wish, t), ..v }),
                )
            } else if v.lock.waits(t) {
                (Err(ErrM::WaitOn(svc, var)), m)
            } else {
                (Err(ErrM::WaitDieAbort(died_text(wish) + name(m, var) + "'"@)), m)
            },
        },
    }
}

/// The locks on the first `n` members let go of on behalf of `t`.
pub open spec fn release_all(m: ManagerM, locked: Seq<KeyM>, t: TxnId, n: nat) -> ManagerM
    decreases n,
{
    if n == 0 {
        m
    } else {
        let w = release_all(m, locked, t, (n - 1) as nat);
        match name_for_id(w, locked[n - 1].0) {
            None => w,
            Some(svc) => release_at(
                w,
                place_of_id(w.services, locked[n - 1].0) as int,
                locked[n - 1].1,
                t,
            ),
        }
    }
}

/// The lock of one variable of the service at place `i` let go of.
pub open spec fn release_at(m: ManagerM, i: int, var: Symbol, t: TxnId) -> ManagerM {
    let s = m.services[i].1;
    match table::get(s.vars, var) {
        None => m,
        Some(v) => ManagerM {
            services: m.services.update(
                i,
                (
                    m.services[i].0,
                    ServiceM {
                        vars: table::put(
                            s.vars,
                            var,
                            VarStateM { lock: v.lock.released(t), ..v },
                        ),
                        ..s
                    },
                ),
            ),
            ..m
        },
    }
}

/// `s` without the copies of `pat` that it ends with.
pub open spec fn trimmed_end(s: Seq<char>, pat: Seq<char>) -> Seq<char>
    decreases s.len(),
{
    if pat.len() > 0 && text::occurs_at(s, pat, s.len() - pat.len()) {
        trimmed_end(s.take(s.len() - pat.len()), pat)
    } else {
        s
    }
}

/// The address of the node that owns a remote service: what is registered for
/// it, without the service's name at the end.
pub open spec fn remote_addr(m: ManagerM, svc: Symbol) -> Result<Seq<char>, ErrM> {
    match table::get(m.remote_services, svc) {
        None => Err(
            ErrM::ServiceNotFound("Remote service '"@ + name(m, svc) + "' not found"@),
        ),
        Some(url) => Ok(trimmed_end(url, "/"@ + name(m, svc))),
    }
}

/// The address that other nodes reach this one under.
pub open spec fn node_ip(m: ManagerM) -> Seq<char> {
    if m.local {
        "127.0.0.1"@
    } else {
        match m.outbound_ip {
            Some(ip) => ip,
            None => "127.0.0.1"@,
        }
    }
}

/// The address that replies are to be sent to.
pub open spec fn reply_addr(m: ManagerM) -> Seq<char> {
    match m.local_address {
        Some(a) => a,
        None => match m.network {
            None => seq![],
            Some(p) => if p.local_addrs.len() == 0 {
                seq![]
            } else {
                text::replaced(
                    text::replaced(p.local_addrs[0], "0.0.0.0"@, node_ip(m)),
                    "127.0.0.1"@,
                    node_ip(m),
                ) + "/p2p/"@ + p.peer_id
            },
        },
    }
}

/// The node with a message sent; without a network nothing is sent.
pub open spec fn send(m: ManagerM, addr: Seq<char>, msg: MessageM) -> ManagerM {
    match m.network {
        None => m,
        Some(p) => ManagerM { network: Some(PortM { sent: p.sent.push((addr, msg)), ..p }), ..m },
    }
}

/// The place of the last slash, or -1.
pub open spec fn last_slash(s: Seq<char>) -> int
    decreases s.len(),
{
    if s.len() == 0 {
        -1
    } else if s.last() == '/' {
        s.len() - 1
    } else {
        last_slash(s.drop_last())
    }
}

/// The address of a service's node and the service's name, out of its identity.
pub open spec fn split_net_id(id: Seq<char>) -> (Seq<char>, Seq<char>) {
    let i = last_slash(id);
    if i >= 0 {
        (id.take(i), id.skip(i + 1))
    } else {
        (seq![], id)
    }
}

/// A new channel for the reply to request `rid`. The channel that waited for it
/// before, if any, is closed.
pub open spec fn register(m: ManagerM, rid: u64) -> ManagerM {
    let closed = match table::get(m.pending_replies, rid) {
        Some(c) => table::put(m.channels, c, SlotM::Closed),
        None => m.channels,
    };
    ManagerM {
        pending_replies: table::put(m.pending_replies, rid, m.next_channel),
        channels: table::put(closed, m.next_channel, SlotM::Open),
        next_channel: m.next_channel.wrapping_add(1),
        ..m
    }
}

/// A reply reaches the channel that waits for it, if there is one.
pub open spec fn deliver(m: ManagerM, msg: MessageM) -> ManagerM {
    match msg.replies_to() {
        None => m,
        Some(rid) => match table::get(m.pending_replies, rid) {
            None => m,
            Some(c) => ManagerM {
                pending_replies: table::without(m.pending_replies, rid),
                channels: table::put(m.channels, c, SlotM::Full(msg)),
                ..m
            },
        },
    }
}

/// The request that was registered last among those that wait for a reply.
pub open spec fn awaited(m: ManagerM) -> Option<u64> {
    if m.pending_replies.len() == 0 {
        None
    } else {
        Some(m.pending_replies.last().0)
    }
}

/// What is next in the inbox.
pub open spec fn next_incoming(m: ManagerM) -> Option<IncomingM> {
    match m.network {
        None => None,
        Some(p) => if p.inbox.len() == 0 {
            None
        } else {
            Some(p.inbox[0])
        },
    }
}

/// What is in the inbox.
pub open spec fn inbox_of(m: ManagerM) -> Seq<IncomingM> {
    match m.network {
        None => seq![],
        Some(p) => p.inbox,
    }
}

/// How much is in the inbox.
pub open spec fn inbox_len(m: ManagerM) -> nat {
    inbox_of(m).len()
}

/// The node without what is next in the inbox.
pub open spec fn pop_incoming(m: ManagerM) -> ManagerM {
    match m.network {
        None => m,
        Some(p) => ManagerM { network: Some(PortM { inbox: p.inbox.drop_first(), ..p }), ..m },
    }
}

/// The events among the first `n` of what came in.
pub open spec fn events_only(inbox: Seq<IncomingM>, n: nat) -> Seq<IncomingM>
    decreases n,
{
    if n == 0 {
        seq![]
    } else {
        let rest = events_only(inbox, (n - 1) as nat);
        if inbox[n - 1] is Event {
            rest.push(inbox[n - 1])
        } else {
            rest
        }
    }
}

/// The message that tells a listener the value of a member.
pub open spec fn update_msg(
    m: ManagerM,
    listener: Seq<char>,
    listener_def: Symbol,
    svc: Symbol,
    member: Symbol,
    value: ValueM<Seq<char>>,
) -> MessageM {
    MessageM::Update {
        listener_service: listener,
        listener_def: name(m, listener_def),
        source_service: name(m, svc),
        member: name(m, member),
        value,
    }
}

/// The wire form of a value of this node.
pub open spec fn wire_value(m: ManagerM, v: ValueM<Symbol>) -> ValueM<Seq<char>> {
    crate::runtime::ast::renaming::map_value(wire::naming(m.interner), v)
}

/// Whether a value can be put on the wire.
pub open spec fn wire_ok(m: ManagerM, v: ValueM<Symbol>) -> bool {
    wire::value_log(wire_value(m, v)).err is None
}

/// The current value of a member is sent to a remote listener, where its
/// address is known and the value can be put on the wire.
pub open spec fn emit_update(
    m: ManagerM,
    listener: Seq<char>,
    listener_def: Symbol,
    svc: Symbol,
    member: Symbol,
) -> ManagerM {
    match table::get(m.listener_addrs, listener) {
        None => m,
        Some(addr) => match var_of(m, svc, member) {
            None => m,
            Some(v) => if wire_ok(m, v.value) {
                send(
                    m,
                    addr,
                    update_msg(m, listener, listener_def, svc, member, wire_value(m, v.value)),
                )
            } else {
                m
            },
        },
    }
}

/// The listeners of a member.
pub open spec fn listeners_of(m: ManagerM, svc: Symbol, member: Symbol) -> Seq<KeyM> {
    match table::get(m.services, svc) {
        None => seq![],
        Some(s) => match table::get(s.listeners, member) {
            None => seq![],
            Some(l) => l,
        },
    }
}

/// A service with one more listener on a member.
pub open spec fn with_listener(s: ServiceM, member: Symbol, l: KeyM) -> ServiceM {
    let have = match table::get(s.listeners, member) {
        None => seq![],
        Some(x) => x,
    };
    ServiceM { listeners: table::put(s.listeners, member, table::added(have, l)), ..s }
}

/// A remote node asks to be told of the changes of a member: it is registered,
/// and gets the current value at once. A member that is not there is ignored.
pub open spec fn request_updates(
    m: ManagerM,
    svc: Symbol,
    member: Symbol,
    listener: Seq<char>,
    listener_def: Symbol,
    reply_to: Seq<char>,
) -> ManagerM {
    match table::get(m.services, svc) {
        None => m,
        Some(s) => match table::get(s.vars, member) {
            None => m,
            Some(v) => {
                let w = ManagerM {
                    services: table::put(
                        m.services,
                        svc,
                        with_listener(s, member, (listener, listener_def)),
                    ),
                    listener_addrs: table::put(m.listener_addrs, listener, reply_to),
                    ..m
                };
                if wire_ok(w, v.value) {
                    send(
                        w,
                        reply_to,
                        update_msg(
                            w,
                            listener,
                            listener_def,
                            svc,
                            member,
                            wire_value(w, v.value),
                        ),
                    )
                } else {
                    w
                }
            },
        },
    }
}

/// A local definition is subscribed to a remote member.
pub open spec fn subscribe(
    m: ManagerM,
    owner: Symbol,
    member: Symbol,
    this_id: Seq<char>,
    listener_def: Symbol,
) -> ManagerM {
    match remote_addr(m, owner) {
        Err(_) => m,
        Ok(addr) => send(
            ManagerM { next_sub_id: m.next_sub_id.wrapping_add(1), ..m },
            addr,
            MessageM::RequestUpdates {
                request_id: m.next_sub_id,
                service: name(m, owner),
                member: name(m, member),
                listener_service: this_id,
                listener_def: name(m, listener_def),
                reply_to: reply_addr(m),
            },
        ),
    }
}

/// A member of a local service is read: from what the transaction has read or
/// written before, or else under a read lock, and then kept.
pub open spec fn local_read(var: Symbol, svc: Symbol, w: World) -> (
    Result<ValueM<Symbol>, ErrM>,
    World,
) {
    let key = (net_id(w.m, svc), var);
    match w.t {
        None => match var_of(w.m, svc, var) {
            Some(v) => (Ok(v.value), w),
            None => (Err(missing(w.m, var, svc)), w),
        },
        Some(t) => match table::get(t.read_cache, key) {
            Some(v) => (Ok(v), w),
            None => {
                let (r, m1) = if t.locked.contains(key) {
                    (Ok(()), w.m)
                } else {
                    acquire(w.m, svc, var, t.id, Wish::Read)
                };
                match r {
                    Err(e) => (Err(e), World { m: m1, t: Some(t) }),
                    Ok(_) => {
                        let t1 = TxnM { locked: table::added(t.locked, key), ..t };
                        match var_of(m1, svc, var) {
                            Some(v) => (
                                Ok(v.value),
                                World {
                                    m: m1,
                                    t: Some(
                                        TxnM {
                                            read_cache: table::put(t1.read_cache, key, v.value),
                                            ..t1
                                        },
                                    ),
                                },
                            ),
                            None => (
                                Err(missing(m1, var, svc)),
                                World { m: m1, t: Some(t1) },
                            ),
                        }
                    },
                }
            },
        },
    }
}

/// A transaction writes a member of a local service: under a write lock, and
/// for itself alone until it commits.
pub open spec fn buffer_write(
    svc: Symbol,
    var: Symbol,
    value: ValueM<Symbol>,
    m: ManagerM,
    t: TxnM,
) -> (Result<(), ErrM>, World) {
    let key = (net_id(m, svc), var);
    let (r, m1) = acquire(
        m,
        svc,
        var,
        t.id,
        if t.locked.contains(key) {
            Wish::Upgrade
        } else {
            Wish::Write
        },
    );
    match r {
        Err(e) => (Err(e), World { m: m1, t: Some(t) }),
        Ok(_) => (
            Ok(()),
            World {
                m: m1,
                t: Some(
                    TxnM {
                        locked: table::added(t.locked, key),
                        written: table::put(t.written, key, value),
                        read_cache: table::put(t.read_cache, key, value),
                        ..t
                    },
                ),
            },
        ),
    }
}

/// The values of a service's variables, as bindings.
pub open spec fn var_env(s: ServiceM) -> EnvM {
    Seq::new(s.vars.len(), |i: int| (s.vars[i].0, s.vars[i].1.value))
}

/// The cached values that a definition uses.
pub open spec fn cache_of(s: ServiceM, def: Symbol) -> Seq<((Symbol, Symbol), ValueM<Symbol>)> {
    match table::get(s.dep_cache, def) {
        Some(c) => c,
        None => seq![],
    }
}

/// A transaction takes part with one more node, if there is a transaction.
pub open spec fn with_participant(t: Option<TxnM>, addr: Seq<char>) -> Option<TxnM> {
    match t {
        None => None,
        Some(x) => Some(TxnM { participants: table::added(x.participants, addr), ..x }),
    }
}

/// The identity of the transaction that is under way.
pub open spec fn txn_id(t: Option<TxnM>) -> Option<TxnId> {
    match t {
        None => None,
        Some(x) => Some(x.id),
    }
}

} // verus!
