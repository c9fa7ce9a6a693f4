//! Messages between nodes, and between the runtime and its network.

use crate::net::ast::{NetActionStmt, NetValue};
use crate::net::types::{Address, MessageId, SendError, SendErrorM};
use crate::runtime::ast::model::{ActionStmtM, ValueM};
use crate::runtime::txn::TxnId;
use vstd::prelude::*;

verus! {

/// A message from one node to another.
#[derive(Debug, Clone, PartialEq)]
pub enum MeerkatMessage {
    /// A test of the connection.
    Ping { content: String },
    /// The answer to a test of the connection.
    Pong { content: String },
    /// A node makes itself known.
    Announce { content: String },
    /// A note on a transaction.
    Transaction { content: String },
    /// A note on a change.
    Propagation { content: String },
    /// Asks for the value of a member.
    LookupRequest {
        request_id: u64,
        service: String,
        member: String,
        reply_to: String,
        txn_id: Option<TxnId>,
    },
    /// The value that was asked for.
    LookupResponse { request_id: u64, value: NetValue },
    /// Why the value cannot be had.
    LookupError { request_id: u64, error: String },
    /// Asks for an action to be run.
    ActionRequest {
        request_id: u64,
        service: String,
        stmts: Vec<NetActionStmt>,
        env: Vec<(String, NetValue)>,
        reply_to: String,
        txn_id: Option<TxnId>,
    },
    /// How the action went.
    ActionResponse { request_id: u64, success: bool, error: Option<String> },
    /// Asks for a transaction to be committed.
    Commit { request_id: u64, txn_id: TxnId, reply_to: String },
    /// How the commit went.
    CommitResponse { request_id: u64, success: bool, error: Option<String> },
    /// Asks for a transaction to be given up.
    Abort { request_id: u64, txn_id: TxnId, reply_to: String },
    /// The transaction was given up.
    AbortResponse { request_id: u64 },
    /// The request waits for a lock; it is still queued.
    WaitParked { request_id: u64 },
    /// Asks to be told of each change of a member.
    RequestUpdates {
        request_id: u64,
        service: String,
        member: String,
        listener_service: String,
        listener_def: String,
        reply_to: String,
    },
    /// A member has, or now has, this value.
    Update {
        listener_service: String,
        listener_def: String,
        source_service: String,
        member: String,
        value: NetValue,
    },
}

/// The model of a [`MeerkatMessage`].
pub enum MessageM {
    Ping { content: Seq<char> },
    Pong { content: Seq<char> },
    Announce { content: Seq<char> },
    Transaction { content: Seq<char> },
    Propagation { content: Seq<char> },
    LookupRequest {
        request_id: u64,
        service: Seq<char>,
        member: Seq<char>,
        reply_to: Seq<char>,
        txn_id: Option<TxnId>,
    },
    LookupResponse { request_id: u64, value: ValueM<Seq<char>> },
    LookupError { request_id: u64, error: Seq<char> },
    ActionRequest {
        request_id: u64,
        service: Seq<char>,
        stmts: Seq<ActionStmtM<Seq<char>>>,
        env: Seq<(Seq<char>, ValueM<Seq<char>>)>,
        reply_to: Seq<char>,
        txn_id: Option<TxnId>,
    },
    ActionResponse { request_id: u64, success: bool, error: Option<Seq<char>> },
    Commit { request_id: u64, txn_id: TxnId, reply_to: Seq<char> },
    CommitResponse { request_id: u64, success: bool, error: Option<Seq<char>> },
    Abort { request_id: u64, txn_id: TxnId, reply_to: Seq<char> },
    AbortResponse { request_id: u64 },
    WaitParked { request_id: u64 },
    RequestUpdates {
        request_id: u64,
        service: Seq<char>,
        member: Seq<char>,
        listener_service: Seq<char>,
        listener_def: Seq<char>,
        reply_to: Seq<char>,
    },
    Update {
        listener_service: Seq<char>,
        listener_def: Seq<char>,
        source_service: Seq<char>,
        member: Seq<char>,
        value: ValueM<Seq<char>>,
    },
}

impl DeepView for MeerkatMessage {
    type V = MessageM;

    open spec fn deep_view(&self) -> MessageM {
        match *self {
            MeerkatMessage::Ping { content } => MessageM::Ping { content: content@ },
            MeerkatMessage::Pong { content } => MessageM::Pong { content: content@ },
            MeerkatMessage::Announce { content } => MessageM::Announce { content: content@ },
            MeerkatMessage::Transaction { content } => MessageM::Transaction { content: content@ },
            MeerkatMessage::Propagation { content } => MessageM::Propagation { content: content@ },
            MeerkatMessage::LookupRequest { request_id, service, member, reply_to, txn_id } => {
                MessageM::LookupRequest {
                    request_id,
                    service: service@,
                    member: member@,
                    reply_to: reply_to@,
                    txn_id,
                }
            },
            MeerkatMessage::LookupResponse { request_id, value } => MessageM::LookupResponse {
                request_id,
                value: value.deep_view(),
            },
            MeerkatMessage::LookupError { request_id, error } => MessageM::LookupError {
                request_id,
                error: error@,
            },
            MeerkatMessage::ActionRequest { request_id, service, stmts, env, reply_to, txn_id } => {
                MessageM::ActionRequest {
                    request_id,
                    service: service@,
                    stmts: stmts.deep_view(),
                    env: env.deep_view(),
                    reply_to: reply_to@,
                    txn_id,
                }
            },
            MeerkatMessage::ActionResponse { request_id, success, error } => {
                MessageM::ActionResponse { request_id, success, error: error.deep_view() }
            },
            MeerkatMessage::Commit { request_id, txn_id, reply_to } => MessageM::Commit {
                request_id,
                txn_id,
                reply_to: reply_to@,
            },
            MeerkatMessage::CommitResponse { request_id, success, error } => {
                MessageM::CommitResponse { request_id, success, error: error.deep_view() }
            },
            MeerkatMessage::Abort { request_id, txn_id, reply_to } => MessageM::Abort {
                request_id,
                txn_id,
                reply_to: reply_to@,
            },
            MeerkatMessage::AbortResponse { request_id } => MessageM::AbortResponse { request_id },
            MeerkatMessage::WaitParked { request_id } => MessageM::WaitParked { request_id },
            MeerkatMessage::RequestUpdates {
                request_id,
                service,
                member,
                listener_service,
                listener_def,
                reply_to,
            } => {
                MessageM::RequestUpdates {
                    request_id,
                    service: service@,
                    member: member@,
                    listener_service: listener_service@,
                    listener_def: listener_def@,
                    reply_to: reply_to@,
                }
            },
            MeerkatMessage::Update { listener_service, listener_def, source_service, member, value } => {
                MessageM::Update {
                    listener_service: listener_service@,
                    listener_def: listener_def@,
                    source_service: source_service@,
                    member: member@,
                    value: value.deep_view(),
                }
            },
        }
    }
}

impl MessageM {
    /// The request that a message replies to, if it is a reply.
    pub open spec fn replies_to(self) -> Option<u64> {
        match self {
            MessageM::LookupResponse { request_id, .. } => Some(request_id),
            MessageM::LookupError { request_id, .. } => Some(request_id),
            MessageM::ActionResponse { request_id, .. } => Some(request_id),
            MessageM::CommitResponse { request_id, .. } => Some(request_id),
            MessageM::AbortResponse { request_id, .. } => Some(request_id),
            MessageM::WaitParked { request_id, .. } => Some(request_id),
            _ => None,
        }
    }
}

impl MeerkatMessage {
    /// The request that a message replies to, if it is a reply.
    pub fn replies_to(&self) -> (r: Option<u64>)
        ensures
            r == self.deep_view().replies_to(),
    {
        match self {
            MeerkatMessage::LookupResponse { request_id, .. } => Some(*request_id),
            MeerkatMessage::LookupError { request_id, .. } => Some(*request_id),
            MeerkatMessage::ActionResponse { request_id, .. } => Some(*request_id),
            MeerkatMessage::CommitResponse { request_id, .. } => Some(*request_id),
            MeerkatMessage::AbortResponse { request_id, .. } => Some(*request_id),
            MeerkatMessage::WaitParked { request_id, .. } => Some(*request_id),
            MeerkatMessage::Ping { .. }
            | MeerkatMessage::Pong { .. }
            | MeerkatMessage::Announce { .. }
            | MeerkatMessage::Transaction { .. }
            | MeerkatMessage::Propagation { .. }
            | MeerkatMessage::LookupRequest { .. }
            | MeerkatMessage::ActionRequest { .. }
            | MeerkatMessage::Commit { .. }
            | MeerkatMessage::Abort { .. }
            | MeerkatMessage::RequestUpdates { .. }
            | MeerkatMessage::Update { .. } => None,
        }
    }
}

/// What the runtime asks of its network.
#[derive(Debug, Clone, PartialEq)]
pub enum NetworkCommand {
    SendMessage { addr: Address, msg: MeerkatMessage },
    Listen { addr: Address },
    GetLocalAddresses,
    ListenViaRelay { relay_addr: Address },
}

/// What the network answers.
#[derive(Debug, Clone, PartialEq)]
pub enum NetworkReply {
    MessageSent { msg_id: MessageId },
    ListenSuccess { addr: Address },
    LocalAddresses { addrs: Vec<Address> },
    Failure(String),
}

/// What the network reports by itself.
#[derive(Debug, Clone, PartialEq)]
pub enum NetworkEvent {
    MessageReceived { peer: String, msg: MeerkatMessage },
    SendFailed { msg_id: MessageId, error: SendError },
    PeerConnected { peer: String },
    PeerDisconnected { peer: String },
}

/// The model of a [`NetworkCommand`].
pub enum CommandM {
    SendMessage { addr: Seq<char>, msg: MessageM },
    Listen { addr: Seq<char> },
    GetLocalAddresses,
    ListenViaRelay { relay_addr: Seq<char> },
}

/// The model of a [`NetworkReply`].
pub enum ReplyM {
    MessageSent { msg_id: u64 },
    ListenSuccess { addr: Seq<char> },
    LocalAddresses { addrs: Seq<Seq<char>> },
    Failure(Seq<char>),
}

/// The model of a [`NetworkEvent`].
pub enum EventM {
    MessageReceived { peer: Seq<char>, msg: MessageM },
    SendFailed { msg_id: u64, error: SendErrorM },
    PeerConnected { peer: Seq<char> },
    PeerDisconnected { peer: Seq<char> },
}

impl DeepView for NetworkCommand {
    type V = CommandM;

    open spec fn deep_view(&self) -> CommandM {
        match *self {
            NetworkCommand::SendMessage { addr, msg } => CommandM::SendMessage {
                addr: addr.deep_view(),
                msg: msg.deep_view(),
            },
            NetworkCommand::Listen { addr } => CommandM::Listen { addr: addr.deep_view() },
            NetworkCommand::GetLocalAddresses => CommandM::GetLocalAddresses,
            NetworkCommand::ListenViaRelay { relay_addr } => CommandM::ListenViaRelay {
                relay_addr: relay_addr.deep_view(),
            },
        }
    }
}

impl DeepView for NetworkReply {
    type V = ReplyM;

    open spec fn deep_view(&self) -> ReplyM {
        match *self {
            NetworkReply::MessageSent { msg_id } => ReplyM::MessageSent { msg_id: msg_id.0 },
            NetworkReply::ListenSuccess { addr } => ReplyM::ListenSuccess {
                addr: addr.deep_view(),
            },
            NetworkReply::LocalAddresses { addrs } => ReplyM::LocalAddresses {
                addrs: addrs.deep_view(),
            },
            NetworkReply::Failure(s) => ReplyM::Failure(s@),
        }
    }
}

impl DeepView for NetworkEvent {
    type V = EventM;

    open spec fn deep_view(&self) -> EventM {
        match *self {
            NetworkEvent::MessageReceived { peer, msg } => EventM::MessageReceived {
                peer: peer@,
                msg: msg.deep_view(),
            },
            NetworkEvent::SendFailed { msg_id, error } => EventM::SendFailed {
                msg_id: msg_id.0,
                error: error.deep_view(),
            },
            NetworkEvent::PeerConnected { peer } => EventM::PeerConnected { peer: peer@ },
            NetworkEvent::PeerDisconnected { peer } => EventM::PeerDisconnected { peer: peer@ },
        }
    }
}

} // verus!
