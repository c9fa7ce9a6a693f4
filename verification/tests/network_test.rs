use meerkat::net::actor::{
    extract_peer_id, refuse_address, relay_failure, send_failure, CommandStep, ListenOutcome,
    NetworkActor, SendFault, SendStep, SwarmCommand, SwarmNotice, SwarmState, SwarmStep,
};
use meerkat::net::messages::{MeerkatMessage, NetworkCommand, NetworkEvent, NetworkReply};
use meerkat::net::mock::{extract_peer_id_from_addr, uuid_simple, MockNetwork};
use meerkat::net::types::{Address, MessageId, NodeType, SendError};
use meerkat::node::server::{
    advertised_address, listen_address, listen_success_addr, remote_url_map,
};

const PEER: &str = "12D3KooWEyoppNCUx8Yx66oV9fJnriXwCcXwDDUA2kj6vnc6iDEp";
const RELAY: &str = "12D3KooWHBNJTP5kPLpFR6vmdXuC4PgHsKPxsZQhuGdfZd3sn6Ky";

fn ping(content: &str) -> MeerkatMessage {
    MeerkatMessage::Ping {
        content: content.to_string(),
    }
}

#[test]
fn listen_success_addr_returns_bound_address() {
    let addr = Address::new("/ip4/127.0.0.1/tcp/1234");

    let actual = listen_success_addr(NetworkReply::ListenSuccess { addr: addr.clone() })
        .expect("listen success should return the bound address");

    assert_eq!(actual, addr);
}

#[test]
fn listen_success_addr_returns_listen_failure() {
    let err = listen_success_addr(NetworkReply::Failure("bind failed".to_string()))
        .expect_err("listen failure should become an error");

    assert_eq!(err.to_string(), "bind failed");
}

#[test]
fn listen_success_addr_rejects_unexpected_replies() {
    let local_addresses_err =
        listen_success_addr(NetworkReply::LocalAddresses { addrs: Vec::new() })
            .expect_err("local addresses are not a Listen success");
    assert_eq!(local_addresses_err.to_string(), "Unexpected reply");

    let message_sent_err = listen_success_addr(NetworkReply::MessageSent {
        msg_id: MessageId(1),
    })
    .expect_err("message-sent replies are not a Listen success");
    assert_eq!(message_sent_err.to_string(), "Unexpected reply");
}

#[test]
fn test_translate_address_server() {
    let server = NetworkActor::new(PEER.to_string(), NodeType::Server);
    // Server should use canonical address directly - no translation
    let canonical =
        Address::new("/ip4/203.0.113.10/tcp/9000/p2p/12D3KooWXXX/p2p-circuit/p2p/12D3KooWYYY");
    let translated = server.translate_address_pub(&canonical);
    assert_eq!(translated.0, canonical.0);
}

#[test]
fn test_translate_address_browser_client() {
    let relay = Address::new("/ip4/server1-ip/tcp/9001/ws/p2p/12D3KooWSERVER1");
    let client = NetworkActor::new(
        PEER.to_string(),
        NodeType::BrowserClient {
            relay_server: relay.clone(),
        },
    );

    let canonical = Address::new(
        "/ip4/203.0.113.10/tcp/9000/p2p/12D3KooWSERVER2/p2p-circuit/p2p/12D3KooWCLIENT2",
    );
    let translated = client.translate_address_pub(&canonical);

    let expected = format!("{}/p2p-circuit/{}", relay.0, canonical.0);
    assert_eq!(translated.0, expected);

    // what goes through this relay already stays, and so does what is no address
    assert_eq!(client.translate_address_pub(&translated), translated);
    let name = Address::new("/dns4/example.org/tcp/1");
    assert_eq!(client.translate_address_pub(&name), name);
}

#[test]
fn test_mock_send_and_receive() {
    let mut registry = MockNetwork::new_registry();

    let mut server = MockNetwork::new_with_registry(&mut registry, 1);
    let mut client = MockNetwork::new_with_registry(&mut registry, 2);

    // Listen to get a routable address
    let reply = server.handle_command(
        &mut registry,
        NetworkCommand::Listen {
            addr: Address::new("/ip4/127.0.0.1/tcp/9000"),
        },
    );

    let server_addr = match reply {
        NetworkReply::ListenSuccess { addr } => addr,
        other => panic!("Expected ListenSuccess, got {:?}", other),
    };
    assert_eq!(
        server_addr.0,
        "/ip4/127.0.0.1/tcp/9000/p2p/mock-peer-00000001"
    );

    // Send from client to server
    client.handle_command(
        &mut registry,
        NetworkCommand::SendMessage {
            addr: server_addr,
            msg: ping("hello from mock client"),
        },
    );

    // Message should be delivered instantly
    let event = server
        .try_recv_event(&mut registry)
        .expect("Server should have received a message");

    if let NetworkEvent::MessageReceived { msg, peer } = event {
        assert_eq!(peer, client.local_peer_id());
        if let MeerkatMessage::Ping { content } = msg {
            assert_eq!(content, "hello from mock client");
        }
    } else {
        panic!("Expected MessageReceived event");
    }
}

#[test]
fn test_mock_multiple_messages() {
    let mut registry = MockNetwork::new_registry();
    let mut server = MockNetwork::new_with_registry(&mut registry, 1);
    let mut client = MockNetwork::new_with_registry(&mut registry, 2);

    let reply = server.handle_command(
        &mut registry,
        NetworkCommand::Listen {
            addr: Address::new("/ip4/127.0.0.1/tcp/9000"),
        },
    );

    let server_addr = match reply {
        NetworkReply::ListenSuccess { addr } => addr,
        other => panic!("Expected ListenSuccess, got {:?}", other),
    };

    for i in 0..5 {
        client.handle_command(
            &mut registry,
            NetworkCommand::SendMessage {
                addr: server_addr.clone(),
                msg: ping(&format!("Message {}", i)),
            },
        );
    }

    let mut received = 0;
    while let Some(event) = server.try_recv_event(&mut registry) {
        if let NetworkEvent::MessageReceived { .. } = event {
            received += 1;
        }
    }

    assert_eq!(received, 5, "Expected 5 messages, got {}", received);
}

#[test]
fn test_mock_unreachable_address() {
    let (mut client, mut registry) = MockNetwork::new(7);

    client.handle_command(
        &mut registry,
        NetworkCommand::SendMessage {
            addr: Address::new("/ip4/127.0.0.1/tcp/9000/p2p/nonexistent-peer"),
            msg: ping("this should fail"),
        },
    );

    let event = client
        .try_recv_event(&mut registry)
        .expect("Should have received SendFailed");
    assert!(
        matches!(event, NetworkEvent::SendFailed { .. }),
        "Expected SendFailed, got {:?}",
        event
    );
}

#[test]
fn test_trait_with_mock() {
    let mut registry = MockNetwork::new_registry();
    let mut server = MockNetwork::new_with_registry(&mut registry, 1);
    let mut client = MockNetwork::new_with_registry(&mut registry, 2);

    let reply = server.handle_command(
        &mut registry,
        NetworkCommand::Listen {
            addr: Address::new("/ip4/127.0.0.1/tcp/9000"),
        },
    );

    let server_addr = match reply {
        NetworkReply::ListenSuccess { addr } => addr,
        other => panic!("Expected ListenSuccess, got {:?}", other),
    };

    client.handle_command(
        &mut registry,
        NetworkCommand::SendMessage {
            addr: server_addr,
            msg: ping("via trait"),
        },
    );

    let event = server
        .try_recv_event(&mut registry)
        .expect("Should have received event");
    assert!(matches!(event, NetworkEvent::MessageReceived { .. }));
}

/// A network in memory knows no relays, and tells its addresses
#[test]
fn mock_other_commands() {
    let (mut node, mut registry) = MockNetwork::new(0xabcdef);
    assert_eq!(node.local_peer_id(), "mock-peer-00abcdef");
    assert_eq!(
        node.handle_command(
            &mut registry,
            NetworkCommand::ListenViaRelay {
                relay_addr: Address::new("/ip4/1.2.3.4")
            }
        ),
        NetworkReply::Failure("Mock does not support relay".to_string())
    );
    node.handle_command(
        &mut registry,
        NetworkCommand::Listen {
            addr: Address::new("/a"),
        },
    );
    assert_eq!(
        node.handle_command(&mut registry, NetworkCommand::GetLocalAddresses),
        NetworkReply::LocalAddresses {
            addrs: vec![Address::new("/a/p2p/mock-peer-00abcdef")]
        }
    );
    let reply = node.handle_command(
        &mut registry,
        NetworkCommand::SendMessage {
            addr: Address::new("/ip4/1.2.3.4/tcp/1"),
            msg: ping("nobody"),
        },
    );
    assert_eq!(
        reply,
        NetworkReply::MessageSent {
            msg_id: MessageId(1)
        }
    );
    assert_eq!(
        node.try_recv_event(&mut registry),
        Some(NetworkEvent::SendFailed {
            msg_id: MessageId(1),
            error: SendError::ProtocolError("No peer ID in address".to_string()),
        })
    );
    assert_eq!(node.try_recv_event(&mut registry), None);
}

#[test]
fn mock_names_and_addresses() {
    assert_eq!(uuid_simple(0), "00000000");
    assert_eq!(uuid_simple(999_999_999), "3b9ac9ff");
    assert_eq!(
        extract_peer_id_from_addr("/ip4/1.2.3.4/tcp/1/p2p/a"),
        Some("a".to_string())
    );
    assert_eq!(extract_peer_id_from_addr("/ip4/1.2.3.4/p2p"), None);
    assert_eq!(
        extract_peer_id_from_addr("p2p/x/p2p/y"),
        Some("y".to_string())
    );
    assert_eq!(
        extract_peer_id_from_addr("/ip4/127.0.0.1/tcp/9000/p2p/A/p2p-circuit/p2p/B"),
        Some("B".to_string())
    );
    assert_eq!(
        extract_peer_id_from_addr("/p2p/A/p2p"),
        Some("A".to_string())
    );
    assert_eq!(extract_peer_id_from_addr(""), None);
}

/// Messages are numbered from one on
#[test]
fn actor_commands() {
    let mut net = NetworkActor::new(PEER.to_string(), NodeType::Server);
    assert_eq!(net.local_peer_id(), PEER);
    for id in 1..3 {
        let step = net.handle_command(NetworkCommand::SendMessage {
            addr: Address::new("/ip4/1.2.3.4/tcp/1"),
            msg: ping("x"),
        });
        match step {
            CommandStep::SendAndReply(SwarmCommand::Send { id: sent, addr, msg }, reply) => {
                assert_eq!(sent, MessageId(id));
                assert_eq!(addr.0, "/ip4/1.2.3.4/tcp/1");
                assert_eq!(msg, ping("x"));
                assert_eq!(
                    reply,
                    NetworkReply::MessageSent {
                        msg_id: MessageId(id)
                    }
                );
            }
            other => panic!("unexpected {:?}", other),
        }
    }
    assert!(matches!(
        net.handle_command(NetworkCommand::Listen {
            addr: Address::new("/a")
        }),
        CommandStep::Wait(SwarmCommand::Listen { .. })
    ));
    assert_eq!(
        net.finish_listen(ListenOutcome::Failed("no".to_string())),
        NetworkReply::Failure("no".to_string())
    );
    assert_eq!(
        net.finish_listen(ListenOutcome::Dropped),
        NetworkReply::Failure("Event loop dropped".to_string())
    );
    assert_eq!(
        net.finish_listen(ListenOutcome::Bound(Address::new("/b"))),
        NetworkReply::ListenSuccess {
            addr: Address::new("/b")
        }
    );
    match net.handle_command(NetworkCommand::GetLocalAddresses) {
        CommandStep::Reply(NetworkReply::LocalAddresses { addrs }) => {
            assert_eq!(addrs, vec![Address::new("/b")])
        }
        other => panic!("unexpected {:?}", other),
    }
}

/// The peer that is sent to is the last one that the address names
#[test]
fn sends_wait_for_their_peer() {
    let mut swarm = SwarmState::new();
    let addr = Address::new(&format!(
        "/ip4/127.0.0.1/tcp/9000/p2p/{}/p2p-circuit/p2p/{}",
        RELAY, PEER
    ));
    for (id, text) in [(1, "first"), (2, "second")] {
        match swarm.do_send(MessageId(id), addr.clone(), ping(text), &vec![]) {
            SendStep::Dial { peer } => assert_eq!(peer, PEER),
            other => panic!("unexpected {:?}", other),
        }
    }
    match swarm.handle_swarm_event(SwarmNotice::ConnectionEstablished {
        peer: PEER.to_string(),
    }) {
        SwarmStep::Connected {
            event,
            listen_through,
            sends,
        } => {
            assert_eq!(
                event,
                NetworkEvent::PeerConnected {
                    peer: PEER.to_string()
                }
            );
            assert_eq!(listen_through, None);
            assert_eq!(
                sends,
                vec![
                    (MessageId(1), ping("first")),
                    (MessageId(2), ping("second"))
                ]
            );
        }
        other => panic!("unexpected {:?}", other),
    }
    assert!(swarm.pending_sends.is_empty());
    match swarm.do_send(
        MessageId(3),
        addr.clone(),
        ping("third"),
        &vec![PEER.to_string()],
    ) {
        SendStep::Now { peer, id, .. } => {
            assert_eq!(peer, PEER);
            assert_eq!(id, MessageId(3));
        }
        other => panic!("unexpected {:?}", other),
    }
}

#[test]
fn sends_that_cannot_be() {
    let mut swarm = SwarmState::new();
    let bad = Address::new("nonsense");
    match swarm.do_send(MessageId(1), bad.clone(), ping("x"), &vec![]) {
        SendStep::Fail(event) => assert_eq!(
            event,
            NetworkEvent::SendFailed {
                msg_id: MessageId(1),
                error: SendError::UnreachableAddress(bad),
            }
        ),
        other => panic!("unexpected {:?}", other),
    }
    match swarm.do_send(
        MessageId(2),
        Address::new("/ip4/127.0.0.1/tcp/9000"),
        ping("x"),
        &vec![],
    ) {
        SendStep::Fail(event) => assert_eq!(
            event,
            NetworkEvent::SendFailed {
                msg_id: MessageId(2),
                error: SendError::ProtocolError("No peer ID in address".to_string()),
            }
        ),
        other => panic!("unexpected {:?}", other),
    }
    let addr = Address::new(&format!("/ip4/127.0.0.1/tcp/9000/p2p/{}", PEER));
    swarm.do_send(MessageId(3), addr, ping("x"), &vec![]);
    assert_eq!(
        swarm.dial_failed(&PEER.to_string(), MessageId(3), "refused"),
        NetworkEvent::SendFailed {
            msg_id: MessageId(3),
            error: SendError::ProtocolError("Dial failed: refused".to_string()),
        }
    );
    assert!(swarm.pending_sends.is_empty());
    assert_eq!(
        send_failure(MessageId(4), SendFault::Open, "e"),
        NetworkEvent::SendFailed {
            msg_id: MessageId(4),
            error: SendError::ProtocolError("Stream open: e".to_string()),
        }
    );
    assert_eq!(
        send_failure(MessageId(4), SendFault::Write, "e"),
        NetworkEvent::SendFailed {
            msg_id: MessageId(4),
            error: SendError::ProtocolError("Send failed: e".to_string()),
        }
    );
}

#[test]
fn listening_is_answered() {
    let mut swarm = SwarmState::new();
    let plain = Address::new("/ip4/127.0.0.1/tcp/9000");
    assert!(matches!(
        swarm.handle_swarm_event(SwarmNotice::NewListenAddr {
            address: plain.clone()
        }),
        SwarmStep::Nothing
    ));
    swarm.listen_begun();
    let relay = Address::new(&format!("/ip4/127.0.0.1/tcp/9001/p2p/{}", RELAY));
    swarm.relay_dialed(relay.clone());
    match swarm.handle_swarm_event(SwarmNotice::ConnectionEstablished {
        peer: RELAY.to_string(),
    }) {
        SwarmStep::Connected { listen_through, .. } => assert_eq!(listen_through, Some(relay)),
        other => panic!("unexpected {:?}", other),
    }
    match swarm.handle_swarm_event(SwarmNotice::ConnectionEstablished {
        peer: PEER.to_string(),
    }) {
        SwarmStep::Connected { listen_through, .. } => assert_eq!(listen_through, None),
        other => panic!("unexpected {:?}", other),
    }
    let circuit = Address::new("/ip4/127.0.0.1/tcp/9001/p2p-circuit");
    match swarm.handle_swarm_event(SwarmNotice::NewListenAddr {
        address: circuit.clone(),
    }) {
        SwarmStep::AnswerRelay(a) => assert_eq!(a, circuit),
        other => panic!("unexpected {:?}", other),
    }
    match swarm.handle_swarm_event(SwarmNotice::NewListenAddr {
        address: circuit.clone(),
    }) {
        SwarmStep::AnswerListen(a) => assert_eq!(a, circuit),
        other => panic!("unexpected {:?}", other),
    }
    assert!(matches!(
        swarm.handle_swarm_event(SwarmNotice::ConnectionClosed {
            peer: PEER.to_string()
        }),
        SwarmStep::Disconnected(NetworkEvent::PeerDisconnected { .. })
    ));
    assert!(matches!(
        swarm.handle_swarm_event(SwarmNotice::Identified { observed: plain }),
        SwarmStep::AddExternal(_)
    ));
    assert!(matches!(
        swarm.handle_swarm_event(SwarmNotice::Other),
        SwarmStep::Nothing
    ));
}

#[test]
fn addresses_are_tested_before_listening() {
    assert_eq!(refuse_address(&Address::new("/ip4/127.0.0.1/tcp/0"), false), None);
    assert_eq!(
        refuse_address(&Address::new("nonsense"), false),
        Some("Invalid address: invalid multiaddr".to_string())
    );
    assert_eq!(
        refuse_address(&Address::new("/what/1"), true),
        Some("Invalid relay address: unknown protocol string: what".to_string())
    );
    assert_eq!(relay_failure("e"), "Failed to dial relay: e");
    assert_eq!(
        extract_peer_id(&vec![Some("a".to_string()), None, Some("b".to_string()), None]),
        Some("b".to_string())
    );
    assert_eq!(extract_peer_id(&vec![None]), None);
}

#[test]
fn server_addresses() {
    assert_eq!(listen_address(true, 9000).0, "/ip4/127.0.0.1/tcp/9000");
    assert_eq!(listen_address(false, 0).0, "/ip4/0.0.0.0/tcp/0");
    assert_eq!(
        advertised_address(&Address::new("/ip4/0.0.0.0/tcp/5"), "10.0.0.7", "me"),
        "/ip4/10.0.0.7/tcp/5/p2p/me"
    );
    let urls = remote_url_map(&vec![
        "/ip4/1.1.1.1/tcp/1/p2p/q/s1".to_string(),
        "bare".to_string(),
        "/ip4/2.2.2.2/tcp/2/p2p/r/s1".to_string(),
    ]);
    assert_eq!(urls.len(), 2);
    assert_eq!(
        urls.get(&"s1".to_string()).map(|u| u.as_str()),
        Some("/ip4/2.2.2.2/tcp/2/p2p/r/s1")
    );
    assert_eq!(
        urls.get(&"bare".to_string()).map(|u| u.as_str()),
        Some("bare")
    );
}
