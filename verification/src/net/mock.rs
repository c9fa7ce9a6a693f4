//! A network in memory: nodes that share a registry exchange messages.

use crate::net::messages::{CommandM, EventM, NetworkCommand, NetworkEvent, NetworkReply, ReplyM};
use crate::net::types::{Address, MessageId, SendError, SendErrorM};
use crate::runtime::table;
use crate::runtime::table::{Plain, Table};
use crate::runtime::text;
use vstd::prelude::*;
use vstd::string::*;

verus! {

/// The nodes of a network in memory, each with the events that wait for it.
#[derive(Debug, Clone)]
pub struct Registry {
    pub peers: Table<String, Vec<NetworkEvent>>,
}

/// The model of a [`Registry`].
pub type RegistryM = Seq<(Seq<char>, Seq<EventM>)>;

impl DeepView for Registry {
    type V = RegistryM;

    open spec fn deep_view(&self) -> RegistryM {
        self.peers.deep_view()
    }
}

/// A node of a network in memory.
#[derive(Debug, Clone)]
pub struct MockNetwork {
    pub peer_id: String,
    pub local_addrs: Vec<Address>,
    pub next_message_id: u64,
}

/// The model of a [`MockNetwork`].
pub struct MockM {
    pub peer_id: Seq<char>,
    pub local_addrs: Seq<Seq<char>>,
    pub next_message_id: u64,
}

impl DeepView for MockNetwork {
    type V = MockM;

    open spec fn deep_view(&self) -> MockM {
        MockM {
            peer_id: self.peer_id@,
            local_addrs: self.local_addrs.deep_view(),
            next_message_id: self.next_message_id,
        }
    }
}

/// An event waits for a node, if the node is there.
pub open spec fn posted(reg: RegistryM, peer: Seq<char>, ev: EventM) -> RegistryM {
    match table::get(reg, peer) {
        Some(q) => table::put(reg, peer, q.push(ev)),
        None => reg,
    }
}

/// The place of the first slash, or the length.
pub open spec fn slash_place(s: Seq<char>) -> nat
    decreases s.len(),
{
    if s.len() == 0 || s[0] == '/' {
        0
    } else {
        1 + slash_place(s.drop_first())
    }
}

/// The parts of an address between its slashes.
pub open spec fn parts(s: Seq<char>) -> Seq<Seq<char>>
    decreases s.len(),
{
    let i = slash_place(s);
    if i < s.len() {
        seq![s.take(i as int)] + parts(s.skip(i + 1int))
    } else {
        seq![s]
    }
}

/// What stands behind the last `p2p` among the first `n` parts that has a part
/// behind it.
pub open spec fn peer_among(v: Seq<Seq<char>>, n: nat) -> Option<Seq<char>>
    decreases n,
{
    if n == 0 {
        None
    } else if n < v.len() && v[n - 1] == "p2p"@ {
        Some(v[n as int])
    } else {
        peer_among(v, (n - 1) as nat)
    }
}

/// The node that an address names: its last `/p2p/<id>` segment.
pub open spec fn peer_of(addr: Seq<char>) -> Option<Seq<char>> {
    peer_among(parts(addr), parts(addr).len())
}

/// What a command does: the reply, the node then, and the network then.
pub open spec fn commanded(m: MockM, reg: RegistryM, cmd: CommandM) -> (ReplyM, MockM, RegistryM) {
    match cmd {
        CommandM::Listen { addr } => {
            let bound = addr + "/p2p/"@ + m.peer_id;
            (
                ReplyM::ListenSuccess { addr: bound },
                MockM { local_addrs: m.local_addrs.push(bound), ..m },
                reg,
            )
        },
        CommandM::SendMessage { addr, msg } => {
            let id = m.next_message_id;
            let m1 = MockM { next_message_id: (id + 1) as u64, ..m };
            let reg1 = match peer_of(addr) {
                Some(peer) => if table::bound(reg, peer) {
                    posted(reg, peer, EventM::MessageReceived { peer: m.peer_id, msg })
                } else {
                    posted(
                        reg,
                        m.peer_id,
                        EventM::SendFailed {
                            msg_id: id,
                            error: SendErrorM::UnreachableAddress(addr),
                        },
                    )
                },
                None => posted(
                    reg,
                    m.peer_id,
                    EventM::SendFailed {
                        msg_id: id,
                        error: SendErrorM::ProtocolError("No peer ID in address"@),
                    },
                ),
            };
            (ReplyM::MessageSent { msg_id: id }, m1, reg1)
        },
        CommandM::ListenViaRelay { relay_addr } => (
            ReplyM::Failure("Mock does not support relay"@),
            m,
            reg,
        ),
        CommandM::GetLocalAddresses => (
            ReplyM::LocalAddresses { addrs: m.local_addrs },
            m,
            reg,
        ),
    }
}

fn first_slash(s: &Vec<char>, from: usize) -> (r: usize)
    requires
        from <= s@.len(),
    ensures
        r - from == slash_place(s@.skip(from as int)),
        from <= r <= s@.len(),
{
    let mut i: usize = from;
    while i < s.len() && s[i] != '/'
        invariant
            from <= i <= s@.len(),
            slash_place(s@.skip(from as int)) == i - from + slash_place(s@.skip(i as int)),
        decreases s@.len() - i,
    {
        proof {
            assert(s@.skip(i as int).drop_first() =~= s@.skip(i + 1));
            assert(s@.skip(i as int)[0] == s@[i as int]);
        }
        i = i + 1;
    }
    proof {
        if i < s@.len() {
            assert(s@.skip(i as int)[0] == s@[i as int]);
        }
    }
    i
}

fn split_parts(s: &Vec<char>) -> (r: Vec<String>)
    ensures
        r.deep_view() == parts(s@),
{
    let mut out: Vec<String> = Vec::new();
    let mut from: usize = 0;
    proof {
        assert(s@.skip(0) =~= s@);
        assert(out.deep_view() + parts(s@) =~= parts(s@));
    }
    loop
        invariant
            from <= s@.len(),
            out.deep_view() + parts(s@.skip(from as int)) == parts(s@),
        decreases s@.len() - from,
    {
        let ghost before = out.deep_view();
        let ghost rest = s@.skip(from as int);
        let i = first_slash(s, from);
        let one = text::string_of(s, from, i);
        let ghost one1 = one@;
        out.push(one);
        proof {
            assert(out.deep_view() =~= before.push(one1));
            assert(s@.subrange(from as int, i as int) =~= rest.take(i - from));
        }
        if i < s.len() {
            proof {
                assert(rest.skip(i - from + 1) =~= s@.skip(i + 1));
                assert(before + (seq![one1] + parts(s@.skip(i + 1))) =~= before.push(one1) + parts(
                    s@.skip(i + 1),
                ));
            }
            from = i + 1;
        } else {
            proof {
                assert(rest.take(i - from) =~= rest);
                assert(before + seq![rest] =~= before.push(one1));
            }
            return out;
        }
    }
}

/// The node that an address names: what stands behind its last `p2p` that has
/// a part behind it.
pub fn extract_peer_id_from_addr(addr: &str) -> (r: Option<String>)
    ensures
        r.deep_view() == peer_of(addr@),
{
    let v = split_parts(&text::chars_of(addr));
    let ghost p = v.deep_view();
    let mut n: usize = v.len();
    while n > 0
        invariant
            p == v.deep_view(),
            p == parts(addr@),
            n <= v@.len(),
            peer_of(addr@) == peer_among(p, n as nat),
        decreases n,
    {
        assert(p[n - 1] == v@[n - 1]@);
        if n < v.len() && text::same_text(v[n - 1].as_str(), "p2p") {
            assert(p[n as int] == v@[n as int]@);
            return Some(v[n].clone());
        }
        n = n - 1;
    }
    None
}

/// The numeral of one hexadecimal digit.
pub open spec fn hex_digit(d: nat) -> char {
    if d < 10 {
        text::digit(d)
    } else if d == 10 {
        'a'
    } else if d == 11 {
        'b'
    } else if d == 12 {
        'c'
    } else if d == 13 {
        'd'
    } else if d == 14 {
        'e'
    } else {
        'f'
    }
}

/// The last `w` hexadecimal digits of a number.
pub open spec fn hex(n: nat, w: nat) -> Seq<char>
    decreases w,
{
    if w == 0 {
        seq![]
    } else {
        hex(n / 16, (w - 1) as nat).push(hex_digit(n % 16))
    }
}

fn hex_char(d: u32) -> (r: char)
    requires
        d < 16,
    ensures
        r == hex_digit(d as nat),
{
    if d == 0 {
        '0'
    } else if d == 1 {
        '1'
    } else if d == 2 {
        '2'
    } else if d == 3 {
        '3'
    } else if d == 4 {
        '4'
    } else if d == 5 {
        '5'
    } else if d == 6 {
        '6'
    } else if d == 7 {
        '7'
    } else if d == 8 {
        '8'
    } else if d == 9 {
        '9'
    } else if d == 10 {
        'a'
    } else if d == 11 {
        'b'
    } else if d == 12 {
        'c'
    } else if d == 13 {
        'd'
    } else if d == 14 {
        'e'
    } else {
        'f'
    }
}

fn hex_text(n: u32, w: u32) -> (r: String)
    ensures
        r@ == hex(n as nat, w as nat),
    decreases w,
{
    if w == 0 {
        let r = String::new();
        assert(r@ =~= Seq::<char>::empty());
        r
    } else {
        let mut r = hex_text(n / 16, w - 1);
        r.push(hex_char(n % 16));
        r
    }
}

/// The name of a node, out of the fraction of a second at which it began: eight
/// hexadecimal digits.
pub fn uuid_simple(nanos: u32) -> (r: String)
    ensures
        r@ == hex(nanos as nat, 8),
{
    hex_text(nanos, 8)
}

impl Registry {
    /// A network without nodes.
    pub fn new() -> (r: Registry)
        ensures
            r.deep_view() == Seq::<(Seq<char>, Seq<EventM>)>::empty(),
    {
        Registry { peers: Table::new() }
    }

    fn post(&mut self, peer: &String, ev: NetworkEvent)
        ensures
            final(self).deep_view() == posted(old(self).deep_view(), peer@, ev.deep_view()),
    {
        let ghost ev1 = ev.deep_view();
        let ghost reg = self.deep_view();
        match self.peers.get_mut(peer) {
            Some(q) => {
                let ghost q0 = q.deep_view();
                q.push(ev);
                assert(q.deep_view() =~= q0.push(ev1));
            },
            None => {},
        }
    }
}

impl MockNetwork {
    /// A node with a network of its own.
    pub fn new(nanos: u32) -> (r: (MockNetwork, Registry))
        ensures
            ({
                let id = "mock-peer-"@ + hex(nanos as nat, 8);
                &&& r.0.deep_view() == (MockM {
                    peer_id: id,
                    local_addrs: seq![],
                    next_message_id: 1,
                })
                &&& r.1.deep_view() == table::put(seq![], id, Seq::<EventM>::empty())
            }),
    {
        let mut registry = Registry::new();
        let m = MockNetwork::new_with_registry(&mut registry, nanos);
        (m, registry)
    }

    /// A node that joins a network.
    pub fn new_with_registry(registry: &mut Registry, nanos: u32) -> (r: MockNetwork)
        ensures
            ({
                let id = "mock-peer-"@ + hex(nanos as nat, 8);
                &&& r.deep_view() == (MockM {
                    peer_id: id,
                    local_addrs: seq![],
                    next_message_id: 1,
                })
                &&& final(registry).deep_view() == table::put(
                    old(registry).deep_view(),
                    id,
                    Seq::<EventM>::empty(),
                )
            }),
    {
        let peer_id = text::cat2("mock-peer-", uuid_simple(nanos).as_str());
        let queue: Vec<NetworkEvent> = Vec::new();
        let local_addrs: Vec<Address> = Vec::new();
        assert(queue.deep_view() =~= Seq::<EventM>::empty());
        assert(local_addrs.deep_view() =~= Seq::<Seq<char>>::empty());
        registry.peers.insert(peer_id.clone(), queue);
        MockNetwork { peer_id, local_addrs, next_message_id: 1 }
    }

    /// A network without nodes, for several nodes to join.
    pub fn new_registry() -> (r: Registry)
        ensures
            r.deep_view() == Seq::<(Seq<char>, Seq<EventM>)>::empty(),
    {
        Registry::new()
    }

    /// The name of the node.
    pub fn local_peer_id(&self) -> (r: String)
        ensures
            r@ == self.deep_view().peer_id,
    {
        self.peer_id.clone()
    }

    /// Carries out a command.
    pub fn handle_command(&mut self, registry: &mut Registry, cmd: NetworkCommand) -> (r:
        NetworkReply)
        requires
            old(self).next_message_id < u64::MAX,
        ensures
            (r.deep_view(), final(self).deep_view(), final(registry).deep_view()) == commanded(
                old(self).deep_view(),
                old(registry).deep_view(),
                cmd.deep_view(),
            ),
    {
        let ghost m = self.deep_view();
        match cmd {
            NetworkCommand::Listen { addr } => {
                let bound = Address(
                    text::cat3(addr.0.as_str(), "/p2p/", self.peer_id.as_str()),
                );
                let ghost b = bound.deep_view();
                self.local_addrs.push(bound.dup());
                assert(self.local_addrs.deep_view() =~= m.local_addrs.push(b));
                NetworkReply::ListenSuccess { addr: bound }
            },
            NetworkCommand::SendMessage { addr, msg } => {
                let msg_id = MessageId(self.next_message_id);
                self.next_message_id = self.next_message_id + 1;
                match extract_peer_id_from_addr(addr.0.as_str()) {
                    Some(peer) => {
                        if registry.peers.contains_key(&peer) {
                            registry.post(
                                &peer,
                                NetworkEvent::MessageReceived { peer: self.peer_id.clone(), msg },
                            );
                        } else {
                            registry.post(
                                &self.peer_id,
                                NetworkEvent::SendFailed {
                                    msg_id,
                                    error: SendError::UnreachableAddress(addr),
                                },
                            );
                        }
                    },
                    None => {
                        registry.post(
                            &self.peer_id,
                            NetworkEvent::SendFailed {
                                msg_id,
                                error: SendError::ProtocolError(
                                    "No peer ID in address".to_owned(),
                                ),
                            },
                        );
                    },
                }
                NetworkReply::MessageSent { msg_id }
            },
            NetworkCommand::ListenViaRelay { relay_addr } => {
                NetworkReply::Failure("Mock does not support relay".to_owned())
            },
            NetworkCommand::GetLocalAddresses => {
                NetworkReply::LocalAddresses { addrs: self.local_addrs.dup() }
            },
        }
    }

    /// The event that waits longest for the node, which no longer waits then.
    pub fn try_recv_event(&mut self, registry: &mut Registry) -> (r: Option<NetworkEvent>)
        ensures
            final(self).deep_view() == old(self).deep_view(),
            match table::get(old(registry).deep_view(), old(self).deep_view().peer_id) {
                Some(q) => if q.len() > 0 {
                    r matches Some(e) && e.deep_view() == q[0] && final(registry).deep_view()
                        == table::put(
                        old(registry).deep_view(),
                        old(self).deep_view().peer_id,
                        q.drop_first(),
                    )
                } else {
                    r is None && final(registry).deep_view() == table::put(
                        old(registry).deep_view(),
                        old(self).deep_view().peer_id,
                        q,
                    )
                },
                None => r is None && final(registry).deep_view() == old(registry).deep_view(),
            },
    {
        match registry.peers.get_mut(&self.peer_id) {
            Some(q) => {
                let ghost q0 = q.deep_view();
                if q.len() > 0 {
                    assert(q0[0] == q@[0].deep_view());
                    let e = q.remove(0);
                    assert(q.deep_view() =~= q0.drop_first());
                    Some(e)
                } else {
                    assert(q.deep_view() =~= q0);
                    None
                }
            },
            None => None,
        }
    }
}

/// A message that is sent to a node of the network is what waits for it last,
/// and no other node notices.
pub proof fn law_message_arrives(
    m: MockM,
    reg: RegistryM,
    addr: Seq<char>,
    msg: crate::net::messages::MessageM,
    peer: Seq<char>,
    other: Seq<char>,
)
    requires
        peer_of(addr) == Some(peer),
        table::bound(reg, peer),
        other != peer,
    ensures
        ({
            let z = commanded(m, reg, CommandM::SendMessage { addr, msg }).2;
            &&& table::get(z, peer) matches Some(q) && q == table::get(reg, peer)->Some_0.push(
                EventM::MessageReceived { peer: m.peer_id, msg },
            )
            &&& table::get(z, other) == table::get(reg, other)
        }),
{
    let q = table::get(reg, peer)->Some_0;
    let ev = EventM::MessageReceived { peer: m.peer_id, msg };
    table::lemma_put(reg, peer, q.push(ev), peer);
    table::lemma_put(reg, peer, q.push(ev), other);
}

/// The place of the first slash of a text that has none before a slash.
proof fn lemma_slash(a: Seq<char>, b: Seq<char>)
    requires
        !a.contains('/'),
    ensures
        slash_place(a) == a.len(),
        slash_place(a + seq!['/'] + b) == a.len(),
    decreases a.len(),
{
    let s = a + seq!['/'] + b;
    if a.len() > 0 {
        assert(a.contains(a[0]));
        let rest = a.drop_first();
        assert forall|c: char| rest.contains(c) implies a.contains(c) by {
            let k = choose|k: int| 0 <= k < rest.len() && rest[k] == c;
            assert(a[k + 1] == c);
        }
        lemma_slash(rest, b);
        assert(s.drop_first() =~= rest + seq!['/'] + b);
    }
}

/// The parts of two texts with a slash between them are the parts of both.
proof fn lemma_parts(a: Seq<char>, b: Seq<char>)
    ensures
        parts(a + seq!['/'] + b) == parts(a) + parts(b),
    decreases a.len(),
{
    let s = a + seq!['/'] + b;
    let i = slash_place(a);
    lemma_place(a);
    let head = a.take(i as int);
    assert(!head.contains('/'));
    if i < a.len() {
        let tail = a.skip(i + 1int);
        assert(a =~= head + seq!['/'] + tail);
        assert(s =~= head + seq!['/'] + (tail + seq!['/'] + b));
        lemma_slash(head, tail + seq!['/'] + b);
        assert(s.take(i as int) =~= head);
        assert(s.skip(i + 1int) =~= tail + seq!['/'] + b);
        lemma_parts(tail, b);
        assert(parts(s) =~= parts(a) + parts(b));
    } else {
        assert(head =~= a);
        lemma_slash(a, b);
        assert(s.take(i as int) =~= a);
        assert(s.skip(i + 1int) =~= b);
        assert(parts(s) =~= parts(a) + parts(b));
    }
}

proof fn lemma_place(s: Seq<char>)
    ensures
        slash_place(s) <= s.len(),
        slash_place(s) < s.len() ==> s[slash_place(s) as int] == '/',
        !s.take(slash_place(s) as int).contains('/'),
    decreases s.len(),
{
    let head = s.take(slash_place(s) as int);
    if s.len() > 0 && s[0] != '/' {
        let rest = s.drop_first();
        lemma_place(rest);
        assert forall|k: int| 0 <= k < head.len() implies head[k] != '/' by {
            if k > 0 {
                let h = rest.take(slash_place(rest) as int);
                assert(h[k - 1] == head[k]);
                assert(h.contains(h[k - 1]));
            }
        }
    }
}

/// An address that a node listens under names the node: what is sent to the
/// address that was told waits for that node.
pub proof fn law_listener_is_reached(
    m: MockM,
    reg: RegistryM,
    addr: Seq<char>,
    sender: MockM,
    msg: crate::net::messages::MessageM,
)
    requires
        !m.peer_id.contains('/'),
        table::bound(reg, m.peer_id),
    ensures
        ({
            let (reply, m1, reg1) = commanded(m, reg, CommandM::Listen { addr });
            &&& reply is ListenSuccess
            &&& m1.local_addrs.contains(reply->ListenSuccess_addr)
            &&& peer_of(reply->ListenSuccess_addr) == Some(m.peer_id)
            &&& table::get(
                commanded(
                    sender,
                    reg1,
                    CommandM::SendMessage { addr: reply->ListenSuccess_addr, msg },
                ).2,
                m.peer_id,
            ) == Some(
                table::get(reg, m.peer_id)->Some_0.push(
                    EventM::MessageReceived { peer: sender.peer_id, msg },
                ),
            )
        }),
{
    let told = addr + "/p2p/"@ + m.peer_id;
    reveal_strlit("/p2p/");
    reveal_strlit("p2p");
    let mid = "p2p"@;
    assert(told =~= addr + seq!['/'] + (mid + seq!['/'] + m.peer_id));
    lemma_parts(addr, mid + seq!['/'] + m.peer_id);
    lemma_parts(mid, m.peer_id);
    assert(!mid.contains('/'));
    lemma_slash(mid, seq![]);
    lemma_slash(m.peer_id, seq![]);
    assert(parts(mid) == seq![mid]);
    assert(parts(m.peer_id) == seq![m.peer_id]);
    let v = parts(told);
    let n = v.len();
    let w = parts(addr);
    assert(v =~= w + seq![mid] + seq![m.peer_id]);
    assert(v[n - 2] == mid);
    assert(v[n - 1] == m.peer_id);
    assert(peer_among(v, (n - 1) as nat) == Some(m.peer_id));
    assert(peer_among(v, n) == Some(m.peer_id));
    let m1 = commanded(m, reg, CommandM::Listen { addr }).1;
    assert(m1.local_addrs[m.local_addrs.len() as int] == told);
    let q = table::get(reg, m.peer_id)->Some_0;
    table::lemma_put(
        reg,
        m.peer_id,
        q.push(EventM::MessageReceived { peer: sender.peer_id, msg }),
        m.peer_id,
    );
}

/// A message that cannot be sent is reported to its sender, under the number that
/// the sender was told.
pub proof fn law_unreachable_is_reported(
    m: MockM,
    reg: RegistryM,
    addr: Seq<char>,
    msg: crate::net::messages::MessageM,
)
    requires
        peer_of(addr) matches Some(peer) ==> !table::bound(reg, peer),
        table::bound(reg, m.peer_id),
    ensures
        ({
            let (reply, m1, reg1) = commanded(m, reg, CommandM::SendMessage { addr, msg });
            let q = table::get(reg1, m.peer_id)->Some_0;
            &&& reply is MessageSent
            &&& q.len() == table::get(reg, m.peer_id)->Some_0.len() + 1
            &&& q.last() matches EventM::SendFailed { msg_id, error }
            &&& msg_id == reply->msg_id
            &&& peer_of(addr) is Some ==> error == SendErrorM::UnreachableAddress(addr)
        }),
{
    let q = table::get(reg, m.peer_id)->Some_0;
    let z = commanded(m, reg, CommandM::SendMessage { addr, msg }).2;
    let error = if peer_of(addr) is Some {
        SendErrorM::UnreachableAddress(addr)
    } else {
        SendErrorM::ProtocolError("No peer ID in address"@)
    };
    let ev = EventM::SendFailed { msg_id: m.next_message_id, error };
    table::lemma_put(reg, m.peer_id, q.push(ev), m.peer_id);
    assert(table::get(z, m.peer_id) == Some(q.push(ev)));
}

/// The digits up to nine are followed by the letters from `a` on.
pub proof fn law_hex_digits(d: nat)
    requires
        d < 16,
    ensures
        hex_digit(d) as int == if d < 10 {
            '0' as int + d
        } else {
            'a' as int + d - 10
        },
{
}

} // verus!
