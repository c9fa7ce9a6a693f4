//! Addresses and identities on the network.

use crate::runtime::table::Plain;
use vstd::prelude::*;

verus! {

/// The identity of a service: its node's address and its name, or its name
/// alone where the node has no address.
#[derive(Debug, Clone, PartialEq, Eq, Hash)]
pub struct ServiceNetId(pub String);

/// An address on the network.
#[derive(Debug, Clone, PartialEq, Eq, Hash)]
pub struct Address(pub String);

/// The number of a message that was handed to the network.
#[derive(Debug, Clone, Copy, PartialEq, Eq, Hash, Structural)]
pub struct MessageId(pub u64);

/// Why a message could not be sent.
#[derive(Debug, Clone, PartialEq, Eq)]
pub enum SendError {
    UnreachableAddress(Address),
    ProtocolError(String),
}

/// What kind of node this is.
#[derive(Debug, Clone, PartialEq, Eq)]
pub enum NodeType {
    Server,
    BrowserClient { relay_server: Address },
}

/// The model of a [`SendError`].
pub enum SendErrorM {
    UnreachableAddress(Seq<char>),
    ProtocolError(Seq<char>),
}

/// The model of a [`NodeType`].
pub enum NodeTypeM {
    Server,
    BrowserClient { relay_server: Seq<char> },
}

impl DeepView for ServiceNetId {
    type V = Seq<char>;

    open spec fn deep_view(&self) -> Seq<char> {
        self.0@
    }
}

impl DeepView for Address {
    type V = Seq<char>;

    open spec fn deep_view(&self) -> Seq<char> {
        self.0@
    }
}

impl DeepView for MessageId {
    type V = u64;

    open spec fn deep_view(&self) -> u64 {
        self.0
    }
}

impl DeepView for SendError {
    type V = SendErrorM;

    open spec fn deep_view(&self) -> SendErrorM {
        match *self {
            SendError::UnreachableAddress(a) => SendErrorM::UnreachableAddress(a.deep_view()),
            SendError::ProtocolError(s) => SendErrorM::ProtocolError(s@),
        }
    }
}

impl DeepView for NodeType {
    type V = NodeTypeM;

    open spec fn deep_view(&self) -> NodeTypeM {
        match *self {
            NodeType::Server => NodeTypeM::Server,
            NodeType::BrowserClient { relay_server } => NodeTypeM::BrowserClient {
                relay_server: relay_server.deep_view(),
            },
        }
    }
}

impl ServiceNetId {
    /// The identity written as `s`.
    pub fn new(s: &str) -> (r: ServiceNetId)
        ensures
            r.deep_view() == s@,
    {
        ServiceNetId(s.to_owned())
    }
}

impl Address {
    /// The address written as `s`.
    pub fn new(s: &str) -> (r: Address)
        ensures
            r.deep_view() == s@,
    {
        Address(s.to_owned())
    }
}

impl Plain for ServiceNetId {
    fn dup(&self) -> (r: Self) {
        ServiceNetId(self.0.clone())
    }

    fn same(&self, other: &Self) -> (r: bool) {
        self.0 == other.0
    }
}

impl Plain for Address {
    fn dup(&self) -> (r: Self) {
        Address(self.0.clone())
    }

    fn same(&self, other: &Self) -> (r: bool) {
        self.0 == other.0
    }
}

} // verus!
