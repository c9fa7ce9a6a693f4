//! A node: its services, its transactions and its side of the network.

use crate::net::messages::{MeerkatMessage, NetworkEvent};
use crate::net::types::{Address, ServiceNetId};
use crate::runtime::ast::{ActionStmt, Expr, Value};
use crate::runtime::interner::{Interner, Symbol};
use crate::runtime::manager::model::{
    IncomingM, ManagerM, ParkedM, PortM, ServiceM, SlotM, World,
};
use crate::runtime::semantic_analysis::var_analysis::dep_analysis::DependAnalysis;
use crate::runtime::table::Table;
use crate::runtime::txn::{Transaction, TxnId, VarState};
use vstd::prelude::*;

pub mod action;
pub mod calls;
pub mod creation;
pub mod endings;
pub mod isolation;
pub mod laws;
pub mod lifecycle;
pub mod model;
pub mod quiet;
pub mod reactive;
pub mod replay;
pub mod semantics;
pub mod serve;
pub mod settling;
pub mod state;
pub mod transact;
pub mod transactions;
pub mod updates;

verus! {

/// How deep steps may nest unless the host says otherwise.
pub const DEFAULT_DEPTH_LIMIT: u64 = 10000;

/// A service of this node.
#[derive(Debug, Clone)]
pub struct Service {
    /// The identity of the service, unique among all nodes.
    pub id: ServiceNetId,
    pub name: Symbol,
    /// The values of variables and definitions, with their locks and last writers.
    pub vars: Table<Symbol, VarState>,
    /// The expressions of definitions.
    pub defs: Table<Symbol, Expr>,
    pub dep: DependAnalysis,
    /// Who is to be told when a member changes.
    pub listeners: Table<Symbol, Vec<(ServiceNetId, Symbol)>>,
    /// For each definition, the last known values of the members of other
    /// services that it uses.
    pub dep_cache: Table<Symbol, Table<(Symbol, Symbol), Value>>,
}

impl DeepView for Service {
    type V = ServiceM;

    open spec fn deep_view(&self) -> ServiceM {
        ServiceM {
            id: self.id.deep_view(),
            name: self.name,
            vars: self.vars.deep_view(),
            defs: self.defs.deep_view(),
            dep: self.dep.deep_view(),
            listeners: self.listeners.deep_view(),
            dep_cache: self.dep_cache.deep_view(),
        }
    }
}

/// A remote request that waits because its transaction is older than the one
/// that holds the lock. It holds what is needed to run it again and to send
/// the reply that it still owes.
#[derive(Debug, Clone)]
pub enum ParkedRequest {
    Action {
        request_id: u64,
        reply_to: String,
        service: Symbol,
        stmts: Vec<ActionStmt>,
        env: Vec<(Symbol, Value)>,
        tid: TxnId,
    },
    Lookup { request_id: u64, reply_to: String, service: Symbol, member: Symbol, tid: TxnId },
}

impl DeepView for ParkedRequest {
    type V = ParkedM;

    open spec fn deep_view(&self) -> ParkedM {
        match *self {
            ParkedRequest::Action { request_id, reply_to, service, stmts, env, tid } =>
                ParkedM::Action {
                request_id,
                reply_to: reply_to@,
                service,
                stmts: stmts.deep_view(),
                env: env.deep_view(),
                tid,
            },
            ParkedRequest::Lookup { request_id, reply_to, service, member, tid } =>
                ParkedM::Lookup { request_id, reply_to: reply_to@, service, member, tid },
        }
    }
}

impl ParkedRequest {
    /// The transaction that the request belongs to.
    pub fn tid(&self) -> (r: &TxnId)
        ensures
            *r == self.deep_view().tid(),
    {
        match self {
            ParkedRequest::Action { tid, .. } => tid,
            ParkedRequest::Lookup { tid, .. } => tid,
        }
    }

    /// The number of the request and the address that waits for its reply.
    pub fn target(&self) -> (r: (u64, String))
        ensures
            r.deep_view() == self.deep_view().target(),
    {
        match self {
            ParkedRequest::Action { request_id, reply_to, .. } => (*request_id, reply_to.clone()),
            ParkedRequest::Lookup { request_id, reply_to, .. } => (*request_id, reply_to.clone()),
        }
    }
}

/// What comes in from the network: an event, the passing of the time that a
/// reply may take, or the start of what came in while a run was suspended.
#[derive(Debug, Clone)]
pub enum Incoming {
    Event(NetworkEvent),
    Elapsed,
    Resume,
}

impl DeepView for Incoming {
    type V = IncomingM;

    open spec fn deep_view(&self) -> IncomingM {
        match *self {
            Incoming::Event(e) => IncomingM::Event(e.deep_view()),
            Incoming::Elapsed => IncomingM::Elapsed,
            Incoming::Resume => IncomingM::Resume,
        }
    }
}

/// The network as the node sees it. The host transmits what is added to `sent`
/// and adds what arrives to `inbox`.
///
/// A run that is suspended is run again from the state that it started in, once
/// the host has added [`Incoming::Resume`] and what has arrived since.
#[derive(Debug, Clone)]
pub struct Port {
    pub peer_id: String,
    pub local_addrs: Vec<Address>,
    pub sent: Vec<(Address, MeerkatMessage)>,
    pub inbox: Vec<Incoming>,
}

impl DeepView for Port {
    type V = PortM;

    open spec fn deep_view(&self) -> PortM {
        PortM {
            peer_id: self.peer_id@,
            local_addrs: self.local_addrs.deep_view(),
            sent: self.sent.deep_view(),
            inbox: self.inbox.deep_view(),
        }
    }
}

/// Where the reply to a request goes.
#[derive(Debug, Clone)]
pub enum ReplySlot {
    Open,
    Closed,
    Full(MeerkatMessage),
}

impl DeepView for ReplySlot {
    type V = SlotM;

    open spec fn deep_view(&self) -> SlotM {
        match *self {
            ReplySlot::Open => SlotM::Open,
            ReplySlot::Closed => SlotM::Closed,
            ReplySlot::Full(msg) => SlotM::Full(msg.deep_view()),
        }
    }
}

/// The state of a node.
#[derive(Debug, Clone)]
pub struct Manager {
    pub services: Table<Symbol, Service>,
    /// The addresses of services of other nodes.
    pub remote_services: Table<Symbol, Address>,
    pub network: Option<Port>,
    /// The channel that waits for the reply to each request.
    pub pending_replies: Table<u64, u64>,
    pub channels: Table<u64, ReplySlot>,
    pub next_channel: u64,
    /// Tells this node's transactions from those of other nodes.
    pub node_id: u64,
    /// The time that the next transaction gets.
    pub clock: u128,
    /// Transactions of other nodes that this node takes part in.
    pub pending_txns: Table<TxnId, Transaction>,
    /// Requests that wait for the lock of a member.
    pub wait_queue: Table<(ServiceNetId, Symbol), Vec<ParkedRequest>>,
    /// The address under which other nodes reach this one.
    pub local_address: Option<String>,
    /// The address of this machine as others see it.
    pub outbound_ip: Option<String>,
    /// Whether the node serves this machine alone.
    pub local: bool,
    pub interner: Interner,
    /// The cached values that the definition being computed uses.
    pub reactive_cache: Option<Table<(Symbol, Symbol), Value>>,
    /// Where each remote listener is told of changes.
    pub listener_addrs: Table<ServiceNetId, String>,
    pub next_lookup_id: u64,
    pub next_action_id: u64,
    pub next_commit_id: u64,
    pub next_abort_id: u64,
    pub next_sub_id: u64,
    /// How many nested steps a run may take.
    pub depth_limit: u64,
}

impl DeepView for Manager {
    type V = ManagerM;

    open spec fn deep_view(&self) -> ManagerM {
        ManagerM {
            services: self.services.deep_view(),
            remote_services: self.remote_services.deep_view(),
            network: self.network.deep_view(),
            pending_replies: self.pending_replies.deep_view(),
            channels: self.channels.deep_view(),
            next_channel: self.next_channel,
            node_id: self.node_id,
            clock: self.clock,
            pending_txns: self.pending_txns.deep_view(),
            wait_queue: self.wait_queue.deep_view(),
            local_address: self.local_address.deep_view(),
            outbound_ip: self.outbound_ip.deep_view(),
            local: self.local,
            interner: self.interner@,
            reactive_cache: self.reactive_cache.deep_view(),
            listener_addrs: self.listener_addrs.deep_view(),
            next_lookup_id: self.next_lookup_id,
            next_action_id: self.next_action_id,
            next_commit_id: self.next_commit_id,
            next_abort_id: self.next_abort_id,
            next_sub_id: self.next_sub_id,
            depth_limit: self.depth_limit,
        }
    }
}

/// The state of a node and of the transaction under way.
pub open spec fn world(m: Manager, t: Option<Transaction>) -> World {
    World { m: m.deep_view(), t: t.deep_view() }
}

} // verus!
