//! The decisions of a node's side of the network.
//!
//! The host does the work on sockets. It asks what to do with a command or with
//! what the transport reports, does it, and says how it went.

use crate::net::messages::{
    CommandM, EventM, MeerkatMessage, MessageM, NetworkCommand, NetworkEvent, NetworkReply, ReplyM,
};
use crate::net::types::{Address, MessageId, NodeType, NodeTypeM, SendError, SendErrorM};
use crate::runtime::table;
use crate::runtime::table::{Plain, Table};
use crate::runtime::text;
use vstd::prelude::*;
use vstd::string::*;

verus! {

/// The address under which a node of the kind reaches a canonical address: a
/// browser goes through its relay, unless the address does already.
pub open spec fn translated(kind: NodeTypeM, addr: Seq<char>) -> Seq<char> {
    match kind {
        NodeTypeM::Server => addr,
        NodeTypeM::BrowserClient { relay_server } => if text::begins_with(addr, relay_server)
            && text::occurs_in(addr, "/p2p-circuit"@) {
            addr
        } else if text::begins_with(addr, "/ip4/"@) || text::begins_with(addr, "/ip6/"@) {
            relay_server + "/p2p-circuit/"@ + addr
        } else {
            addr
        },
    }
}

/// What the host has to do on the transport.
#[derive(Debug, Clone)]
pub enum SwarmCommand {
    Send { id: MessageId, addr: Address, msg: MeerkatMessage },
    Listen { addr: Address },
    ListenViaRelay { relay_addr: Address },
}

/// The model of a [`SwarmCommand`].
pub enum SwarmCommandM {
    Send { id: u64, addr: Seq<char>, msg: MessageM },
    Listen { addr: Seq<char> },
    ListenViaRelay { relay_addr: Seq<char> },
}

impl DeepView for SwarmCommand {
    type V = SwarmCommandM;

    open spec fn deep_view(&self) -> SwarmCommandM {
        match *self {
            SwarmCommand::Send { id, addr, msg } => SwarmCommandM::Send {
                id: id.0,
                addr: addr.deep_view(),
                msg: msg.deep_view(),
            },
            SwarmCommand::Listen { addr } => SwarmCommandM::Listen { addr: addr.deep_view() },
            SwarmCommand::ListenViaRelay { relay_addr } => SwarmCommandM::ListenViaRelay {
                relay_addr: relay_addr.deep_view(),
            },
        }
    }
}

/// What a command comes to.
#[derive(Debug, Clone)]
pub enum CommandStep {
    /// The reply is known.
    Reply(NetworkReply),
    /// The message is handed to the transport; the reply is known.
    SendAndReply(SwarmCommand, NetworkReply),
    /// The transport has to answer first.
    Wait(SwarmCommand),
}

/// The model of a [`CommandStep`].
pub enum CommandStepM {
    Reply(ReplyM),
    SendAndReply(SwarmCommandM, ReplyM),
    Wait(SwarmCommandM),
}

impl DeepView for CommandStep {
    type V = CommandStepM;

    open spec fn deep_view(&self) -> CommandStepM {
        match *self {
            CommandStep::Reply(r) => CommandStepM::Reply(r.deep_view()),
            CommandStep::SendAndReply(c, r) => CommandStepM::SendAndReply(
                c.deep_view(),
                r.deep_view(),
            ),
            CommandStep::Wait(c) => CommandStepM::Wait(c.deep_view()),
        }
    }
}

/// A node's side of the network.
#[derive(Debug, Clone)]
pub struct NetworkActor {
    pub next_message_id: u64,
    pub local_peer_id: String,
    pub local_addrs: Vec<Address>,
    pub node_type: NodeType,
}

/// The model of a [`NetworkActor`].
pub struct NetworkActorM {
    pub next_message_id: u64,
    pub local_peer_id: Seq<char>,
    pub local_addrs: Seq<Seq<char>>,
    pub node_type: NodeTypeM,
}

impl DeepView for NetworkActor {
    type V = NetworkActorM;

    open spec fn deep_view(&self) -> NetworkActorM {
        NetworkActorM {
            next_message_id: self.next_message_id,
            local_peer_id: self.local_peer_id@,
            local_addrs: self.local_addrs.deep_view(),
            node_type: self.node_type.deep_view(),
        }
    }
}

/// What a command comes to, and the state then.
pub open spec fn begun(s: NetworkActorM, cmd: CommandM) -> (CommandStepM, NetworkActorM) {
    match cmd {
        CommandM::SendMessage { addr, msg } => (
            CommandStepM::SendAndReply(
                SwarmCommandM::Send {
                    id: s.next_message_id,
                    addr: translated(s.node_type, addr),
                    msg,
                },
                ReplyM::MessageSent { msg_id: s.next_message_id },
            ),
            NetworkActorM { next_message_id: s.next_message_id.wrapping_add(1), ..s },
        ),
        CommandM::Listen { addr } => (CommandStepM::Wait(SwarmCommandM::Listen { addr }), s),
        CommandM::GetLocalAddresses => (
            CommandStepM::Reply(ReplyM::LocalAddresses { addrs: s.local_addrs }),
            s,
        ),
        CommandM::ListenViaRelay { relay_addr } => (
            CommandStepM::Wait(SwarmCommandM::ListenViaRelay { relay_addr }),
            s,
        ),
    }
}

/// How listening went: the address, an error, or no answer at all.
#[derive(Debug, Clone)]
pub enum ListenOutcome {
    Bound(Address),
    Failed(String),
    Dropped,
}

/// The model of a [`ListenOutcome`].
pub enum ListenOutcomeM {
    Bound(Seq<char>),
    Failed(Seq<char>),
    Dropped,
}

impl DeepView for ListenOutcome {
    type V = ListenOutcomeM;

    open spec fn deep_view(&self) -> ListenOutcomeM {
        match *self {
            ListenOutcome::Bound(a) => ListenOutcomeM::Bound(a.deep_view()),
            ListenOutcome::Failed(e) => ListenOutcomeM::Failed(e@),
            ListenOutcome::Dropped => ListenOutcomeM::Dropped,
        }
    }
}

/// What is replied once listening has an outcome, and the state then.
pub open spec fn listened(s: NetworkActorM, outcome: ListenOutcomeM) -> (ReplyM, NetworkActorM) {
    match outcome {
        ListenOutcomeM::Bound(a) => (
            ReplyM::ListenSuccess { addr: a },
            NetworkActorM { local_addrs: s.local_addrs.push(a), ..s },
        ),
        ListenOutcomeM::Failed(e) => (ReplyM::Failure(e), s),
        ListenOutcomeM::Dropped => (ReplyM::Failure("Event loop dropped"@), s),
    }
}

impl NetworkActor {
    /// A node that has sent nothing and listens nowhere.
    pub fn new(local_peer_id: String, node_type: NodeType) -> (r: NetworkActor)
        ensures
            r.deep_view() == (NetworkActorM {
                next_message_id: 1,
                local_peer_id: local_peer_id@,
                local_addrs: seq![],
                node_type: node_type.deep_view(),
            }),
    {
        let local_addrs: Vec<Address> = Vec::new();
        assert(local_addrs.deep_view() =~= Seq::<Seq<char>>::empty());
        NetworkActor { next_message_id: 1, local_peer_id, local_addrs, node_type }
    }

    /// The name of the node.
    pub fn local_peer_id(&self) -> (r: String)
        ensures
            r@ == self.deep_view().local_peer_id,
    {
        self.local_peer_id.clone()
    }

    /// The address under which this node reaches a canonical address.
    pub fn translate_address(&self, canonical: &Address) -> (r: Address)
        ensures
            r.deep_view() == translated(self.node_type.deep_view(), canonical.deep_view()),
    {
        match &self.node_type {
            NodeType::Server => canonical.dup(),
            NodeType::BrowserClient { relay_server } => {
                let a = canonical.0.as_str();
                if text::starts_with(a, relay_server.0.as_str()) && text::contains_text(
                    a,
                    "/p2p-circuit",
                ) {
                    canonical.dup()
                } else if text::starts_with(a, "/ip4/") || text::starts_with(a, "/ip6/") {
                    Address(text::cat3(relay_server.0.as_str(), "/p2p-circuit/", a))
                } else {
                    canonical.dup()
                }
            },
        }
    }

    /// The address under which this node reaches a canonical address.
    pub fn translate_address_pub(&self, canonical: &Address) -> (r: Address)
        ensures
            r.deep_view() == translated(self.node_type.deep_view(), canonical.deep_view()),
    {
        self.translate_address(canonical)
    }

    /// Begins a command.
    pub fn handle_command(&mut self, cmd: NetworkCommand) -> (r: CommandStep)
        ensures
            (r.deep_view(), final(self).deep_view()) == begun(
                old(self).deep_view(),
                cmd.deep_view(),
            ),
    {
        match cmd {
            NetworkCommand::SendMessage { addr, msg } => {
                let id = MessageId(self.next_message_id);
                self.next_message_id = self.next_message_id.wrapping_add(1);
                let local = self.translate_address(&addr);
                CommandStep::SendAndReply(
                    SwarmCommand::Send { id, addr: local, msg },
                    NetworkReply::MessageSent { msg_id: id },
                )
            },
            NetworkCommand::Listen { addr } => CommandStep::Wait(SwarmCommand::Listen { addr }),
            NetworkCommand::GetLocalAddresses => CommandStep::Reply(
                NetworkReply::LocalAddresses { addrs: self.local_addrs.dup() },
            ),
            NetworkCommand::ListenViaRelay { relay_addr } => CommandStep::Wait(
                SwarmCommand::ListenViaRelay { relay_addr },
            ),
        }
    }

    /// Ends a command to listen.
    pub fn finish_listen(&mut self, outcome: ListenOutcome) -> (r: NetworkReply)
        ensures
            (r.deep_view(), final(self).deep_view()) == listened(
                old(self).deep_view(),
                outcome.deep_view(),
            ),
    {
        let ghost s = self.deep_view();
        match outcome {
            ListenOutcome::Bound(a) => {
                let ghost a1 = a.deep_view();
                self.local_addrs.push(a.dup());
                assert(self.local_addrs.deep_view() =~= s.local_addrs.push(a1));
                NetworkReply::ListenSuccess { addr: a }
            },
            ListenOutcome::Failed(e) => NetworkReply::Failure(e),
            ListenOutcome::Dropped => NetworkReply::Failure("Event loop dropped".to_owned()),
        }
    }
}

/// The peers that the parts of an address name, one entry for each part, or why
/// the text is no address.
pub type PartsM = Result<Seq<Option<Seq<char>>>, Seq<char>>;

/// The model of the parts of an address.
pub open spec fn parts_model(parts: Result<Vec<Option<String>>, String>) -> PartsM {
    match parts {
        Ok(v) => Ok(v.deep_view()),
        Err(e) => Err(e@),
    }
}

/// What `libp2p::Multiaddr` makes of a text.
pub uninterp spec fn parsed_address(addr: Seq<char>) -> Result<Seq<Option<Seq<char>>>, Seq<char>>;

/// Parses an address with the `FromStr` of `libp2p::Multiaddr`.
///
/// The result is named: it holds one entry for each protocol that the address
/// is made of, in order, which is the text of the peer where that is a `P2p`
/// and nothing otherwise; or the text of the error where the parser refuses.
/// Which texts it takes is left unsaid.
#[verifier::external_body]
fn parse_address(addr: &str) -> (r: Result<Vec<Option<String>>, String>)
    ensures
        parts_model(r) == parsed_address(addr@),
{
    match addr.parse::<libp2p::Multiaddr>() {
        Ok(m) => Ok(
            m.iter().map(
                |p| match p {
                    libp2p::core::multiaddr::Protocol::P2p(peer) => Some(peer.to_string()),
                    _ => None,
                },
            ).collect(),
        ),
        Err(e) => Err(e.to_string()),
    }
}

/// What is answered to who wants to listen on an address with these parts,
/// itself or through a relay: nothing yet, or why the address is refused.
pub open spec fn refused_address(parts: PartsM, relay: bool) -> Option<Seq<char>> {
    match parts {
        Ok(_) => None,
        Err(e) => Some(
            if relay {
                "Invalid relay address: "@ + e
            } else {
                "Invalid address: "@ + e
            },
        ),
    }
}

/// Why an address to listen on with these parts is refused, if it is.
pub fn refuse_parts(parts: &Result<Vec<Option<String>>, String>, relay: bool) -> (r: Option<String>)
    ensures
        r.deep_view() == refused_address(parts_model(*parts), relay),
{
    match parts {
        Ok(_) => None,
        Err(e) => {
            if relay {
                Some(text::cat2("Invalid relay address: ", e.as_str()))
            } else {
                Some(text::cat2("Invalid address: ", e.as_str()))
            }
        },
    }
}

/// Why an address to listen on, itself or through a relay, is refused, if it is.
pub fn refuse_address(addr: &Address, relay: bool) -> (r: Option<String>)
    ensures
        r.deep_view() == refused_address(parsed_address(addr.deep_view()), relay),
{
    refuse_parts(&parse_address(addr.0.as_str()), relay)
}

/// What is answered to who wants to listen through a relay that cannot be
/// dialed.
pub fn relay_failure(error: &str) -> (r: String)
    ensures
        r@ == "Failed to dial relay: "@ + error@,
{
    text::cat2("Failed to dial relay: ", error)
}

/// The last peer that the first `n` parts name.
pub open spec fn last_named(parts: Seq<Option<Seq<char>>>, n: nat) -> Option<Seq<char>>
    decreases n,
{
    if n == 0 || n > parts.len() {
        None
    } else if parts[n - 1] is Some {
        parts[n - 1]
    } else {
        last_named(parts, (n - 1) as nat)
    }
}

/// The peer that an address leads to: the last that it names, since an address
/// through a relay names the relay first.
pub open spec fn destination(parts: Seq<Option<Seq<char>>>) -> Option<Seq<char>> {
    last_named(parts, parts.len())
}

/// The peer that an address leads to.
pub fn extract_peer_id(parts: &Vec<Option<String>>) -> (r: Option<String>)
    ensures
        r.deep_view() == destination(parts.deep_view()),
{
    let ghost m = parts.deep_view();
    let mut n: usize = parts.len();
    while n > 0
        invariant
            n <= parts@.len(),
            m == parts.deep_view(),
            destination(m) == last_named(m, n as nat),
        decreases n,
    {
        assert(m[n - 1] == parts@[n - 1].deep_view());
        match &parts[n - 1] {
            Some(p) => {
                return Some(p.clone());
            },
            None => {},
        }
        n = n - 1;
    }
    None
}

/// What waits on the transport: messages for peers that are not connected yet,
/// whether somebody waits for an address to listen on, and the relay through
/// which somebody waits to listen.
#[derive(Debug, Clone)]
pub struct SwarmState {
    pub pending_sends: Table<String, Vec<(MessageId, MeerkatMessage)>>,
    pub pending_listen: bool,
    pub pending_relay: Option<Address>,
}

/// The model of a [`SwarmState`].
pub struct SwarmStateM {
    pub pending_sends: Seq<(Seq<char>, Seq<(u64, MessageM)>)>,
    pub pending_listen: bool,
    pub pending_relay: Option<Seq<char>>,
}

impl DeepView for SwarmState {
    type V = SwarmStateM;

    open spec fn deep_view(&self) -> SwarmStateM {
        SwarmStateM {
            pending_sends: self.pending_sends.deep_view(),
            pending_listen: self.pending_listen,
            pending_relay: self.pending_relay.deep_view(),
        }
    }
}

/// What is done with a message.
#[derive(Debug, Clone)]
pub enum SendStep {
    /// It cannot be sent.
    Fail(NetworkEvent),
    /// The peer is connected: it is sent at once.
    Now { peer: String, id: MessageId, msg: MeerkatMessage },
    /// It waits until the peer is connected, which has to be dialed.
    Dial { peer: String },
}

/// The model of a [`SendStep`].
pub enum SendStepM {
    Fail(EventM),
    Now { peer: Seq<char>, id: u64, msg: MessageM },
    Dial { peer: Seq<char> },
}

impl DeepView for SendStep {
    type V = SendStepM;

    open spec fn deep_view(&self) -> SendStepM {
        match *self {
            SendStep::Fail(e) => SendStepM::Fail(e.deep_view()),
            SendStep::Now { peer, id, msg } => SendStepM::Now {
                peer: peer@,
                id: id.0,
                msg: msg.deep_view(),
            },
            SendStep::Dial { peer } => SendStepM::Dial { peer: peer@ },
        }
    }
}

/// The messages that wait for a peer.
pub open spec fn waiting(s: SwarmStateM, peer: Seq<char>) -> Seq<(u64, MessageM)> {
    match table::get(s.pending_sends, peer) {
        Some(q) => q,
        None => seq![],
    }
}

/// Whether a peer is among those that are connected.
pub open spec fn connected_to(connected: Seq<Seq<char>>, peer: Seq<char>) -> bool {
    connected.contains(peer)
}

/// What is done with a message for an address with these parts, and what waits
/// then.
pub open spec fn sending(
    s: SwarmStateM,
    id: u64,
    addr: Seq<char>,
    msg: MessageM,
    parts: PartsM,
    connected: Seq<Seq<char>>,
) -> (SendStepM, SwarmStateM) {
    match parts {
        Err(_) => (
            SendStepM::Fail(
                EventM::SendFailed { msg_id: id, error: SendErrorM::UnreachableAddress(addr) },
            ),
            s,
        ),
        Ok(v) => match destination(v) {
            None => (
                SendStepM::Fail(
                    EventM::SendFailed {
                        msg_id: id,
                        error: SendErrorM::ProtocolError("No peer ID in address"@),
                    },
                ),
                s,
            ),
            Some(peer) => if connected_to(connected, peer) {
                (SendStepM::Now { peer, id, msg }, s)
            } else {
                (
                    SendStepM::Dial { peer },
                    SwarmStateM {
                        pending_sends: table::put(
                            s.pending_sends,
                            peer,
                            waiting(s, peer).push((id, msg)),
                        ),
                        ..s
                    },
                )
            },
        },
    }
}

/// At what point the transport failed on a message.
#[derive(Debug, Clone, Copy, PartialEq, Eq, Structural)]
pub enum SendFault {
    Dial,
    Open,
    Write,
}

/// The words for a point of failure.
pub open spec fn fault_words(fault: SendFault) -> Seq<char> {
    match fault {
        SendFault::Dial => "Dial failed: "@,
        SendFault::Open => "Stream open: "@,
        SendFault::Write => "Send failed: "@,
    }
}

/// What is reported where the transport fails on a message.
pub fn send_failure(msg_id: MessageId, fault: SendFault, error: &str) -> (r: NetworkEvent)
    ensures
        r.deep_view() == (EventM::SendFailed {
            msg_id: msg_id.0,
            error: SendErrorM::ProtocolError(fault_words(fault) + error@),
        }),
{
    let words = match fault {
        SendFault::Dial => "Dial failed: ",
        SendFault::Open => "Stream open: ",
        SendFault::Write => "Send failed: ",
    };
    NetworkEvent::SendFailed { msg_id, error: SendError::ProtocolError(text::cat2(words, error)) }
}

/// What the transport reports by itself.
#[derive(Debug, Clone)]
pub enum SwarmNotice {
    NewListenAddr { address: Address },
    ConnectionEstablished { peer: String },
    ConnectionClosed { peer: String },
    /// Another peer says under which address it sees this node.
    Identified { observed: Address },
    Other,
}

/// The model of a [`SwarmNotice`].
pub enum NoticeM {
    NewListenAddr { address: Seq<char> },
    ConnectionEstablished { peer: Seq<char> },
    ConnectionClosed { peer: Seq<char> },
    Identified { observed: Seq<char> },
    Other,
}

impl DeepView for SwarmNotice {
    type V = NoticeM;

    open spec fn deep_view(&self) -> NoticeM {
        match *self {
            SwarmNotice::NewListenAddr { address } => NoticeM::NewListenAddr {
                address: address.deep_view(),
            },
            SwarmNotice::ConnectionEstablished { peer } => NoticeM::ConnectionEstablished {
                peer: peer@,
            },
            SwarmNotice::ConnectionClosed { peer } => NoticeM::ConnectionClosed { peer: peer@ },
            SwarmNotice::Identified { observed } => NoticeM::Identified {
                observed: observed.deep_view(),
            },
            SwarmNotice::Other => NoticeM::Other,
        }
    }
}

/// What is done on a report of the transport.
#[derive(Debug, Clone)]
pub enum SwarmStep {
    /// Who waits to listen through a relay gets the address.
    AnswerRelay(Address),
    /// Who waits to listen gets the address.
    AnswerListen(Address),
    /// The event is passed on. Where the peer is the relay to listen through,
    /// listening through it begins. Then what waited for the peer is sent.
    Connected {
        event: NetworkEvent,
        listen_through: Option<Address>,
        sends: Vec<(MessageId, MeerkatMessage)>,
    },
    /// The event is passed on.
    Disconnected(NetworkEvent),
    /// The node can be reached from outside under the address.
    AddExternal(Address),
    Nothing,
}

/// The model of a [`SwarmStep`].
pub enum SwarmStepM {
    AnswerRelay(Seq<char>),
    AnswerListen(Seq<char>),
    Connected {
        event: EventM,
        listen_through: Option<Seq<char>>,
        sends: Seq<(u64, MessageM)>,
    },
    Disconnected(EventM),
    AddExternal(Seq<char>),
    Nothing,
}

impl DeepView for SwarmStep {
    type V = SwarmStepM;

    open spec fn deep_view(&self) -> SwarmStepM {
        match *self {
            SwarmStep::AnswerRelay(a) => SwarmStepM::AnswerRelay(a.deep_view()),
            SwarmStep::AnswerListen(a) => SwarmStepM::AnswerListen(a.deep_view()),
            SwarmStep::Connected { event, listen_through, sends } => SwarmStepM::Connected {
                event: event.deep_view(),
                listen_through: listen_through.deep_view(),
                sends: sends.deep_view(),
            },
            SwarmStep::Disconnected(e) => SwarmStepM::Disconnected(e.deep_view()),
            SwarmStep::AddExternal(a) => SwarmStepM::AddExternal(a.deep_view()),
            SwarmStep::Nothing => SwarmStepM::Nothing,
        }
    }
}

/// What is done on a report of the transport, and what waits then. `relay` are
/// the parts of the address of the relay that is waited for.
pub open spec fn noticed(s: SwarmStateM, notice: NoticeM, relay: PartsM) -> (
    SwarmStepM,
    SwarmStateM,
) {
    match notice {
        NoticeM::NewListenAddr { address } => if text::occurs_in(address, "/p2p-circuit"@)
            && s.pending_relay is Some {
            (SwarmStepM::AnswerRelay(address), SwarmStateM { pending_relay: None, ..s })
        } else if s.pending_listen {
            (SwarmStepM::AnswerListen(address), SwarmStateM { pending_listen: false, ..s })
        } else {
            (SwarmStepM::Nothing, s)
        },
        NoticeM::ConnectionEstablished { peer } => (
            SwarmStepM::Connected {
                event: EventM::PeerConnected { peer },
                listen_through: if s.pending_relay is Some && relay is Ok && destination(relay->Ok_0)
                    == Some(peer) {
                    s.pending_relay
                } else {
                    None
                },
                sends: waiting(s, peer),
            },
            SwarmStateM { pending_sends: table::without(s.pending_sends, peer), ..s },
        ),
        NoticeM::ConnectionClosed { peer } => (
            SwarmStepM::Disconnected(EventM::PeerDisconnected { peer }),
            s,
        ),
        NoticeM::Identified { observed } => (SwarmStepM::AddExternal(observed), s),
        NoticeM::Other => (SwarmStepM::Nothing, s),
    }
}

/// The parts of the address of the relay that is waited for.
pub open spec fn relay_parts(s: SwarmStateM) -> PartsM {
    match s.pending_relay {
        Some(a) => parsed_address(a),
        None => Err(Seq::empty()),
    }
}

impl SwarmState {
    /// Nothing waits.
    pub fn new() -> (r: SwarmState)
        ensures
            r.deep_view() == (SwarmStateM {
                pending_sends: seq![],
                pending_listen: false,
                pending_relay: None,
            }),
    {
        SwarmState { pending_sends: Table::new(), pending_listen: false, pending_relay: None }
    }

    /// Decides on a message for an address with these parts.
    pub fn send_to_parts(
        &mut self,
        id: MessageId,
        addr: Address,
        msg: MeerkatMessage,
        parts: &Result<Vec<Option<String>>, String>,
        connected: &Vec<String>,
    ) -> (r: SendStep)
        ensures
            (r.deep_view(), final(self).deep_view()) == sending(
                old(self).deep_view(),
                id.0,
                addr.deep_view(),
                msg.deep_view(),
                parts_model(*parts),
                connected.deep_view(),
            ),
    {
        let v = match parts {
            Ok(v) => v,
            Err(_) => {
                return SendStep::Fail(
                    NetworkEvent::SendFailed {
                        msg_id: id,
                        error: SendError::UnreachableAddress(addr),
                    },
                );
            },
        };
        match extract_peer_id(v) {
            None => SendStep::Fail(
                NetworkEvent::SendFailed {
                    msg_id: id,
                    error: SendError::ProtocolError("No peer ID in address".to_owned()),
                },
            ),
            Some(peer) => {
                if table::holds(connected, &peer) {
                    return SendStep::Now { peer, id, msg };
                }
                self.wait_for(&peer, id, msg);
                SendStep::Dial { peer }
            },
        }
    }

    /// Decides on a message. `connected` are the peers that are connected.
    pub fn do_send(
        &mut self,
        id: MessageId,
        addr: Address,
        msg: MeerkatMessage,
        connected: &Vec<String>,
    ) -> (r: SendStep)
        ensures
            (r.deep_view(), final(self).deep_view()) == sending(
                old(self).deep_view(),
                id.0,
                addr.deep_view(),
                msg.deep_view(),
                parsed_address(addr.deep_view()),
                connected.deep_view(),
            ),
    {
        let parts = parse_address(addr.0.as_str());
        self.send_to_parts(id, addr, msg, &parts, connected)
    }

    /// A message waits for a peer.
    fn wait_for(&mut self, peer: &String, id: MessageId, msg: MeerkatMessage)
        ensures
            final(self).deep_view() == (SwarmStateM {
                pending_sends: table::put(
                    old(self).deep_view().pending_sends,
                    peer@,
                    waiting(old(self).deep_view(), peer@).push((id.0, msg.deep_view())),
                ),
                ..old(self).deep_view()
            }),
    {
        let ghost s = self.deep_view();
        let ghost m = msg.deep_view();
        if self.pending_sends.contains_key(peer) {
            match self.pending_sends.get_mut(peer) {
                Some(q) => {
                    let ghost q0 = q.deep_view();
                    q.push((id, msg));
                    assert(q.deep_view() =~= q0.push((id.0, m)));
                },
                None => {},
            }
        } else {
            let mut q: Vec<(MessageId, MeerkatMessage)> = Vec::new();
            q.push((id, msg));
            assert(q.deep_view() =~= waiting(s, peer@).push((id.0, m)));
            self.pending_sends.insert(peer.clone(), q);
        }
    }

    /// A peer could not be dialed for a message: nothing waits for it any more.
    pub fn dial_failed(&mut self, peer: &String, id: MessageId, error: &str) -> (r: NetworkEvent)
        ensures
            r.deep_view() == (EventM::SendFailed {
                msg_id: id.0,
                error: SendErrorM::ProtocolError("Dial failed: "@ + error@),
            }),
            final(self).deep_view() == (SwarmStateM {
                pending_sends: table::without(old(self).deep_view().pending_sends, peer@),
                ..old(self).deep_view()
            }),
    {
        let _ = self.pending_sends.remove(peer);
        send_failure(id, SendFault::Dial, error)
    }

    /// The transport begins to listen: somebody waits for the address.
    pub fn listen_begun(&mut self)
        ensures
            final(self).deep_view() == (SwarmStateM {
                pending_listen: true,
                ..old(self).deep_view()
            }),
    {
        self.pending_listen = true;
    }

    /// A relay is dialed: somebody waits to listen through it.
    pub fn relay_dialed(&mut self, relay_addr: Address)
        ensures
            final(self).deep_view() == (SwarmStateM {
                pending_relay: Some(relay_addr.deep_view()),
                ..old(self).deep_view()
            }),
    {
        self.pending_relay = Some(relay_addr);
    }

    /// Decides on a report of the transport. `relay` are the parts of the
    /// address of the relay that is waited for.
    pub fn notice_with_parts(
        &mut self,
        notice: SwarmNotice,
        relay: &Result<Vec<Option<String>>, String>,
    ) -> (r: SwarmStep)
        ensures
            (r.deep_view(), final(self).deep_view()) == noticed(
                old(self).deep_view(),
                notice.deep_view(),
                parts_model(*relay),
            ),
    {
        match notice {
            SwarmNotice::NewListenAddr { address } => {
                if self.pending_relay.is_some() && text::contains_text(
                    address.0.as_str(),
                    "/p2p-circuit",
                ) {
                    self.pending_relay = None;
                    SwarmStep::AnswerRelay(address)
                } else if self.pending_listen {
                    self.pending_listen = false;
                    SwarmStep::AnswerListen(address)
                } else {
                    SwarmStep::Nothing
                }
            },
            SwarmNotice::ConnectionEstablished { peer } => {
                let listen_through = self.relay_reached(&peer, relay);
                let ghost s = self.deep_view();
                let sends = match self.pending_sends.remove(&peer) {
                    Some(q) => q,
                    None => Vec::new(),
                };
                assert(sends.deep_view() =~= waiting(s, peer@));
                SwarmStep::Connected {
                    event: NetworkEvent::PeerConnected { peer },
                    listen_through,
                    sends,
                }
            },
            SwarmNotice::ConnectionClosed { peer } => SwarmStep::Disconnected(
                NetworkEvent::PeerDisconnected { peer },
            ),
            SwarmNotice::Identified { observed } => SwarmStep::AddExternal(observed),
            SwarmNotice::Other => SwarmStep::Nothing,
        }
    }

    /// Decides on a report of the transport.
    pub fn handle_swarm_event(&mut self, notice: SwarmNotice) -> (r: SwarmStep)
        ensures
            (r.deep_view(), final(self).deep_view()) == noticed(
                old(self).deep_view(),
                notice.deep_view(),
                relay_parts(old(self).deep_view()),
            ),
    {
        let relay = match &self.pending_relay {
            Some(a) => parse_address(a.0.as_str()),
            None => Err(String::new()),
        };
        assert(parts_model(relay) == relay_parts(self.deep_view())) by {
            if self.pending_relay is None {
                assert(relay->Err_0@ =~= Seq::<char>::empty());
            }
        }
        self.notice_with_parts(notice, &relay)
    }

    /// The relay to listen through, where the peer is it.
    fn relay_reached(&self, peer: &String, relay: &Result<Vec<Option<String>>, String>) -> (r:
        Option<Address>)
        ensures
            r.deep_view() == noticed(
                self.deep_view(),
                NoticeM::ConnectionEstablished { peer: peer@ },
                parts_model(*relay),
            ).0->listen_through,
    {
        match (&self.pending_relay, relay) {
            (Some(a), Ok(v)) => match extract_peer_id(v) {
                Some(p) => {
                    if p == *peer {
                        Some(a.dup())
                    } else {
                        None
                    }
                },
                None => None,
            },
            _ => None,
        }
    }
}

/// A message that waits for a peer is handed over, after all that waited
/// before, when the peer is connected; nothing waits for the peer any more.
pub proof fn law_waiting_is_sent(
    s: SwarmStateM,
    id: u64,
    addr: Seq<char>,
    msg: MessageM,
    parts: PartsM,
    connected: Seq<Seq<char>>,
    relay: PartsM,
    peer: Seq<char>,
)
    requires
        sending(s, id, addr, msg, parts, connected).0 == (SendStepM::Dial { peer }),
        table::keys_distinct(s.pending_sends),
    ensures
        ({
            let s1 = sending(s, id, addr, msg, parts, connected).1;
            let (step, s2) = noticed(s1, NoticeM::ConnectionEstablished { peer }, relay);
            &&& step matches SwarmStepM::Connected { sends, .. } && sends == waiting(s, peer).push(
                (id, msg),
            )
            &&& waiting(s2, peer) == Seq::<(u64, MessageM)>::empty()
        }),
{
    let q = waiting(s, peer).push((id, msg));
    let s1 = sending(s, id, addr, msg, parts, connected).1;
    table::lemma_put(s.pending_sends, peer, q, peer);
    table::lemma_without(s1.pending_sends, peer, peer);
}

/// A node that is no browser reaches an address under itself. A browser reaches
/// an address of the internet through its relay, and the address is still told;
/// any other address it reaches under itself. An address that was translated once
/// stays as it is.
pub proof fn law_translated_goes_through_relay(kind: NodeTypeM, addr: Seq<char>)
    ensures
        translated(kind, translated(kind, addr)) == translated(kind, addr),
        addr.is_suffix_of(translated(kind, addr)),
        !(kind is BrowserClient) ==> translated(kind, addr) == addr,
        kind matches NodeTypeM::BrowserClient { relay_server } ==> if text::begins_with(
            addr,
            "/ip4/"@,
        ) || text::begins_with(addr, "/ip6/"@) {
            &&& text::begins_with(translated(kind, addr), relay_server)
            &&& text::occurs_in(translated(kind, addr), "/p2p-circuit"@)
        } else {
            translated(kind, addr) == addr
        },
{
    match kind {
        NodeTypeM::Server => {
            assert(addr.skip(0) =~= addr);
        },
        NodeTypeM::BrowserClient { relay_server } => {
            let far = relay_server + "/p2p-circuit/"@ + addr;
            reveal_strlit("/p2p-circuit");
            reveal_strlit("/p2p-circuit/");
            assert(far.subrange(0, relay_server.len() as int) =~= relay_server);
            assert(text::begins_with(far, relay_server));
            let k = relay_server.len() as int;
            assert(far.subrange(k, k + "/p2p-circuit"@.len()) =~= "/p2p-circuit"@);
            assert(text::occurs_at(far, "/p2p-circuit"@, k));
            assert(text::occurs_in(far, "/p2p-circuit"@));
            assert(far.subrange(far.len() - addr.len(), far.len() as int) =~= addr);
            assert(addr.subrange(0, addr.len() as int) =~= addr);
        },
    }
}

/// An address leads to the peer that is named last in it: what stands before does
/// not count, and neither does what names no peer behind it.
pub proof fn law_last_peer_counts(
    before: Seq<Option<Seq<char>>>,
    peer: Seq<char>,
    behind: Seq<Option<Seq<char>>>,
)
    requires
        forall|i: int| 0 <= i < behind.len() ==> (#[trigger] behind[i]) is None,
    ensures
        destination(before + seq![Some(peer)] + behind) == Some(peer),
        destination(behind) is None,
{
    lemma_named(before, peer, behind, behind.len());
    lemma_unnamed(behind, behind.len());
}

proof fn lemma_named(
    before: Seq<Option<Seq<char>>>,
    peer: Seq<char>,
    behind: Seq<Option<Seq<char>>>,
    n: nat,
)
    requires
        n <= behind.len(),
        forall|i: int| 0 <= i < behind.len() ==> (#[trigger] behind[i]) is None,
    ensures
        last_named(before + seq![Some(peer)] + behind, before.len() + 1 + n) == Some(peer),
    decreases n,
{
    let v = before + seq![Some(peer)] + behind;
    if n == 0 {
        assert(v[before.len() as int] == Some(peer));
    } else {
        assert(v[before.len() + n as int] == behind[n - 1]);
        lemma_named(before, peer, behind, (n - 1) as nat);
    }
}

proof fn lemma_unnamed(v: Seq<Option<Seq<char>>>, n: nat)
    requires
        n <= v.len(),
        forall|i: int| 0 <= i < v.len() ==> (#[trigger] v[i]) is None,
    ensures
        last_named(v, n) is None,
    decreases n,
{
    if n > 0 {
        assert(v[n - 1] is None);
        lemma_unnamed(v, (n - 1) as nat);
    }
}

/// No message is lost: it is sent at once to a peer that is connected, or it waits
/// for a peer that is not and is dialed, or its failure is told under its number.
/// What waits for another peer stays.
pub proof fn law_no_message_is_lost(
    s: SwarmStateM,
    id: u64,
    addr: Seq<char>,
    msg: MessageM,
    parts: PartsM,
    connected: Seq<Seq<char>>,
    other: Seq<char>,
)
    ensures
        ({
            let (step, z) = sending(s, id, addr, msg, parts, connected);
            match step {
                SendStepM::Now { peer, id: i, msg: x } => {
                    &&& i == id
                    &&& x == msg
                    &&& connected.contains(peer)
                    &&& parts is Ok
                    &&& destination(parts->Ok_0) == Some(peer)
                    &&& z == s
                },
                SendStepM::Dial { peer } => {
                    &&& !connected.contains(peer)
                    &&& parts is Ok
                    &&& destination(parts->Ok_0) == Some(peer)
                    &&& waiting(z, peer).len() > 0
                    &&& waiting(z, peer).last() == (id, msg)
                    &&& other != peer ==> waiting(z, other) == waiting(s, other)
                },
                SendStepM::Fail(event) => {
                    &&& parts is Err || destination(parts->Ok_0) is None
                    &&& event is SendFailed
                    &&& event->SendFailed_msg_id == id
                    &&& z == s
                },
            }
        }),
{
    if parts is Ok && destination(parts->Ok_0) is Some {
        let peer = destination(parts->Ok_0)->Some_0;
        let q = waiting(s, peer).push((id, msg));
        table::lemma_put(s.pending_sends, peer, q, other);
        assert(q.last() == (id, msg));
    }
}

/// Who waits for an address to listen under is answered with it, and once: with
/// an address through a relay where one is waited for, with any other where no
/// relay is concerned.
pub proof fn law_listener_is_answered(
    s: SwarmStateM,
    relay_addr: Seq<char>,
    address: Seq<char>,
    relay: PartsM,
)
    ensures
        ({
            let s1 = SwarmStateM { pending_relay: Some(relay_addr), ..s };
            let s2 = SwarmStateM { pending_listen: true, ..s };
            let notice = NoticeM::NewListenAddr { address };
            &&& text::occurs_in(address, "/p2p-circuit"@) ==> {
                let (step, z) = noticed(s1, notice, relay);
                &&& step == SwarmStepM::AnswerRelay(address)
                &&& !(noticed(z, notice, relay).0 is AnswerRelay)
                &&& z.pending_listen == s.pending_listen
            }
            &&& !text::occurs_in(address, "/p2p-circuit"@) ==> {
                let (step, z) = noticed(s2, notice, relay);
                &&& step == SwarmStepM::AnswerListen(address)
                &&& noticed(z, notice, relay).0 is Nothing
                &&& z.pending_relay == s.pending_relay
            }
        }),
{
}

/// The sender of a message is told the number that it is sent under, and the next
/// message has another. Where a node listens, it says so when asked.
pub proof fn law_commands_are_answered(
    s: NetworkActorM,
    addr: Seq<char>,
    msg: MessageM,
    bound: Seq<char>,
)
    ensures
        ({
            let (step, z) = begun(s, CommandM::SendMessage { addr, msg });
            &&& step matches CommandStepM::SendAndReply(sent, reply)
            &&& sent is Send
            &&& reply is MessageSent
            &&& reply->msg_id == sent->id
            &&& sent->msg == msg
            &&& z.next_message_id != s.next_message_id
            &&& z.local_addrs == s.local_addrs
        }),
        ({
            let (reply, z) = listened(s, ListenOutcomeM::Bound(bound));
            let (step, _) = begun(z, CommandM::GetLocalAddresses);
            &&& reply is ListenSuccess
            &&& reply->ListenSuccess_addr == bound
            &&& step matches CommandStepM::Reply(told)
            &&& told is LocalAddresses
            &&& told->addrs.contains(bound)
        }),
{
    let z = listened(s, ListenOutcomeM::Bound(bound)).1;
    assert(z.local_addrs[s.local_addrs.len() as int] == bound);
}

} // verus!
