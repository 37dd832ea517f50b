use beacon_core::handler::Hub;
use beacon_core::signaling::SignalingState;
use beacon_core::messages::{Emission, EncryptedServerHint, OutFrame, SignalingMessage};

fn s(x: &str) -> String {
    x.to_string()
}

fn hello(peer: &str, server: &str) -> SignalingMessage {
    SignalingMessage::Hello { peer_id: s(peer), server_id: s(server), signing_pubkey: None }
}

fn hello_signed(peer: &str, server: &str, key: &str) -> SignalingMessage {
    SignalingMessage::Hello {
        peer_id: s(peer),
        server_id: s(server),
        signing_pubkey: Some(s(key)),
    }
}

#[test]
fn s_a_join_leave() {
    let mut hub = Hub::new(30);
    let c1 = s("conn1");
    let c2 = s("conn2");

    // Conn 1: Hello{p1, s1} -> Welcome with no peers.
    let out = hub.handle_message(&c1, 1, hello("p1", "s1"), 0);
    assert_eq!(out.len(), 1);
    assert_eq!(out[0].token, 1);
    match &out[0].frame {
        OutFrame::Welcome { peers } => assert!(peers.is_empty()),
        _ => panic!("expected Welcome"),
    }

    // Conn 2: Hello{p2, s1} -> Welcome with [p1]; PeerJoined{p2} to conn 1.
    let out = hub.handle_message(&c2, 2, hello("p2", "s1"), 0);
    assert_eq!(out.len(), 2);
    assert_eq!(out[0].token, 2);
    match &out[0].frame {
        OutFrame::Welcome { peers } => assert_eq!(peers, &vec![s("p1")]),
        _ => panic!("expected Welcome"),
    }
    assert_eq!(out[1].token, 1);
    match &out[1].frame {
        OutFrame::PeerJoined { peer_id } => assert_eq!(peer_id, "p2"),
        _ => panic!("expected PeerJoined"),
    }

    // Close conn 1: conn 2 receives PeerLeft{p1}.
    let out = hub.handle_disconnect(&c1);
    assert_eq!(out.len(), 1);
    assert_eq!(out[0].token, 2);
    match &out[0].frame {
        OutFrame::PeerLeft { peer_id } => assert_eq!(peer_id, "p1"),
        _ => panic!("expected PeerLeft"),
    }

    // p1 is gone from every index.
    assert!(!hub.signaling.validate_peer_connection(&s("p1"), &c1));
    assert!(hub.signaling.get_server(&s("p1")).is_none());
    assert!(hub.signaling.validate_peer_connection(&s("p2"), &c2));
}

#[test]
fn s_b_routing_isolation() {
    let mut hub = Hub::new(30);
    let ca = s("conn_a");
    let cb = s("conn_b");
    hub.handle_message(&ca, 1, hello("a", "s1"), 0);
    hub.handle_message(&cb, 2, hello("b", "s2"), 0);

    // An offer across servers produces no frame.
    let out = hub.handle_message(
        &ca,
        1,
        SignalingMessage::Offer { from: s("a"), to: s("b"), payload: s("sdp-offer") },
        0,
    );
    assert!(out.is_empty());
}

#[test]
fn same_server_offer_is_forwarded() {
    let mut hub = Hub::new(30);
    let ca = s("conn_a");
    let cb = s("conn_b");
    hub.handle_message(&ca, 1, hello("a", "s1"), 0);
    hub.handle_message(&cb, 2, hello("b", "s1"), 0);

    let out = hub.handle_message(
        &ca,
        1,
        SignalingMessage::Offer { from: s("a"), to: s("b"), payload: s("sdp-offer") },
        0,
    );
    assert_eq!(out.len(), 1);
    assert_eq!(out[0].token, 2);
    match &out[0].frame {
        OutFrame::Offer { from, to, payload } => {
            assert_eq!(from, "a");
            assert_eq!(to, "b");
            assert_eq!(payload, "sdp-offer");
        },
        _ => panic!("expected Offer"),
    }
}

#[test]
fn s_c_identity_mismatch() {
    let mut hub = Hub::new(30);
    let c1 = s("conn1");
    let c2 = s("conn2");
    let c3 = s("conn3");
    hub.handle_message(&c1, 1, hello("p1", "s1"), 0);
    hub.handle_message(&c3, 3, hello("p2", "s1"), 0);

    // Conn 2 claims to be p1: dropped, nothing reaches p2.
    let out = hub.handle_message(
        &c2,
        2,
        SignalingMessage::Offer { from: s("p1"), to: s("p2"), payload: s("sdp") },
        0,
    );
    assert!(out.is_empty());
    // Nothing changed: p1 is still bound to conn 1.
    assert!(hub.signaling.validate_peer_connection(&s("p1"), &c1));
}

#[test]
fn s_d_voice_reconnect() {
    let mut hub = Hub::new(30);
    let c1 = s("conn1");
    let c2 = s("conn2");
    hub.handle_message(&c1, 1, hello("pA1", "s"), 0);
    let out = hub.handle_message(
        &c1,
        1,
        SignalingMessage::VoiceJoin {
            peer_id: s("pA1"),
            user_id: s("u"),
            server_id: s("s"),
            chat_id: s("c"),
        },
        0,
    );
    match &out[0].frame {
        OutFrame::VoicePeers { peers } => assert!(peers.is_empty()),
        _ => panic!("expected VoicePeers"),
    }

    // New socket, same user, new peer id.
    hub.handle_message(&c2, 2, hello("pA2", "s"), 0);
    let out = hub.handle_message(
        &c2,
        2,
        SignalingMessage::VoiceJoin {
            peer_id: s("pA2"),
            user_id: s("u"),
            server_id: s("s"),
            chat_id: s("c"),
        },
        0,
    );
    // The returned "others" list excludes u.
    match &out[0].frame {
        OutFrame::VoicePeers { peers } => assert!(peers.is_empty()),
        _ => panic!("expected VoicePeers"),
    }
    // Chat membership is exactly [pA2].
    let ids = hub.voice.chat_member_ids(&s("s"), &s("c"));
    assert_eq!(ids, vec![s("pA2")]);
}

#[test]
fn goodbye_announces_to_same_server() {
    let mut hub = Hub::new(30);
    let c1 = s("conn1");
    let c2 = s("conn2");
    hub.handle_message(&c1, 1, hello("p1", "s1"), 0);
    hub.handle_message(&c2, 2, hello("p2", "s1"), 0);

    let out = hub.handle_message(&c1, 1, SignalingMessage::Goodbye { peer_id: s("p1") }, 0);
    assert_eq!(out.len(), 1);
    assert_eq!(out[0].token, 2);
    match &out[0].frame {
        OutFrame::PeerLeft { peer_id } => assert_eq!(peer_id, "p1"),
        _ => panic!("expected PeerLeft"),
    }
    assert!(hub.signaling.get_server(&s("p1")).is_none());
}

#[test]
fn goodbye_for_foreign_peer_is_dropped() {
    let mut hub = Hub::new(30);
    let c1 = s("conn1");
    let c2 = s("conn2");
    hub.handle_message(&c1, 1, hello("p1", "s1"), 0);

    let out = hub.handle_message(&c2, 2, SignalingMessage::Goodbye { peer_id: s("p1") }, 0);
    assert!(out.is_empty());
    assert!(hub.signaling.validate_peer_connection(&s("p1"), &c1));
}

#[test]
fn p7_broadcast_scope() {
    let mut hub = Hub::new(30);
    let c1 = s("conn1");
    let c2 = s("conn2");
    let c3 = s("conn3");
    hub.handle_message(&c1, 1, hello_signed("p1", "s1", "k"), 0);
    hub.handle_message(&c2, 2, hello_signed("p2", "s2", "k"), 0);
    hub.handle_message(&c3, 3, hello_signed("p3", "s3", "other"), 0);

    let out = hub.handle_message(
        &c1,
        1,
        SignalingMessage::ServerHintPublish {
            signing_pubkey: s("k"),
            hint: EncryptedServerHint {
                encrypted_state: s("blob"),
                signature: s("sig"),
                last_updated: 42,
            },
        },
        0,
    );
    // Exactly the subscribers of "k": tokens 1 and 2, never 3.
    let mut tokens: Vec<u64> = out.iter().map(|e: &Emission| e.token).collect();
    tokens.sort();
    assert_eq!(tokens, vec![1, 2]);
    for e in &out {
        match &e.frame {
            OutFrame::ServerHintUpdated { signing_pubkey, encrypted_state, signature, last_updated } => {
                assert_eq!(signing_pubkey, "k");
                assert_eq!(encrypted_state, "blob");
                assert_eq!(signature, "sig");
                assert_eq!(*last_updated, 42);
            },
            _ => panic!("expected ServerHintUpdated"),
        }
    }
}

#[test]
fn p2_socket_death_cleans_voice_and_indexes() {
    let mut hub = Hub::new(30);
    let c1 = s("conn1");
    let c2 = s("conn2");
    hub.handle_message(&c1, 1, hello("p1", "s1"), 0);
    hub.handle_message(&c1, 1, hello("p1b", "s1"), 0);
    hub.handle_message(&c2, 2, hello("p2", "s1"), 0);
    hub.handle_message(
        &c1,
        1,
        SignalingMessage::VoiceJoin {
            peer_id: s("p1"),
            user_id: s("u1"),
            server_id: s("s1"),
            chat_id: s("c"),
        },
        0,
    );
    hub.handle_message(
        &c2,
        2,
        SignalingMessage::VoiceJoin {
            peer_id: s("p2"),
            user_id: s("u2"),
            server_id: s("s1"),
            chat_id: s("c"),
        },
        0,
    );

    let out = hub.handle_disconnect(&c1);
    // Both of conn 1's peers are gone, exactly as two unregistrations.
    assert!(hub.signaling.get_server(&s("p1")).is_none());
    assert!(hub.signaling.get_server(&s("p1b")).is_none());
    assert!(hub.signaling.validate_peer_connection(&s("p2"), &c2));
    // Every VoicePeer with conn 1 is gone; p2 remains alone in the chat.
    assert_eq!(hub.voice.chat_member_ids(&s("s1"), &s("c")), vec![s("p2")]);
    // p2 heard about the departures (PeerLeft for p1 and p1b, VoicePeerLeft for p1).
    let mut peer_left = 0;
    let mut voice_left = 0;
    for e in &out {
        assert_eq!(e.token, 2);
        match &e.frame {
            OutFrame::PeerLeft { .. } => peer_left += 1,
            OutFrame::VoicePeerLeft { peer_id, user_id } => {
                assert_eq!(peer_id, "p1");
                assert_eq!(user_id, "u1");
                voice_left += 1;
            },
            _ => panic!("unexpected frame on disconnect"),
        }
    }
    assert_eq!(peer_left, 2);
    assert_eq!(voice_left, 1);
}

#[test]
fn voice_leave_announces_to_remaining() {
    let mut hub = Hub::new(30);
    let c1 = s("conn1");
    let c2 = s("conn2");
    hub.handle_message(&c1, 1, hello("p1", "s"), 0);
    hub.handle_message(&c2, 2, hello("p2", "s"), 0);
    hub.handle_message(
        &c1,
        1,
        SignalingMessage::VoiceJoin {
            peer_id: s("p1"),
            user_id: s("u1"),
            server_id: s("s"),
            chat_id: s("c"),
        },
        0,
    );
    hub.handle_message(
        &c2,
        2,
        SignalingMessage::VoiceJoin {
            peer_id: s("p2"),
            user_id: s("u2"),
            server_id: s("s"),
            chat_id: s("c"),
        },
        0,
    );

    let out = hub.handle_message(
        &c1,
        1,
        SignalingMessage::VoiceLeave { peer_id: s("p1"), server_id: s("s"), chat_id: s("c") },
        0,
    );
    assert_eq!(out.len(), 1);
    assert_eq!(out[0].token, 2);
    match &out[0].frame {
        OutFrame::VoicePeerLeft { peer_id, user_id } => {
            assert_eq!(peer_id, "p1");
            assert_eq!(user_id, "u1");
        },
        _ => panic!("expected VoicePeerLeft"),
    }
    assert_eq!(hub.voice.chat_member_ids(&s("s"), &s("c")), vec![s("p2")]);
}

#[test]
fn presence_subscribe_replies_with_snapshot() {
    let mut hub = Hub::new(10);
    let c1 = s("conn1");
    hub.handle_message(
        &c1,
        1,
        SignalingMessage::PresenceHello {
            user_id: s("u"),
            signing_pubkeys: vec![s("k")],
            active_signing_pubkey: Some(s("k")),
        },
        0,
    );
    let out = hub.handle_message(
        &c1,
        1,
        SignalingMessage::PresenceSubscribe { signing_pubkey: s("k") },
        5,
    );
    assert_eq!(out.len(), 1);
    assert_eq!(out[0].token, 1);
    match &out[0].frame {
        OutFrame::PresenceSnapshot { users } => {
            assert_eq!(users.len(), 1);
            assert_eq!(users[0].user_id, s("u"));
            assert_eq!(users[0].active_signing_pubkey, Some(s("k")));
        },
        _ => panic!("expected PresenceSnapshot"),
    }
}

#[test]
fn reregistration_same_connection_is_idempotent() {
    let mut sg = SignalingState::new();
    let _ = sg.register_peer(s("p"), s("srv"), Some(s("k")), s("c"));
    sg.bind_sender(&s("p"), 7);
    // The same Hello again, on the same socket: nothing changes.
    let others = sg.register_peer(s("p"), s("srv"), Some(s("k")), s("c"));
    assert!(others.is_empty());
    assert!(sg.validate_peer_connection(&s("p"), &s("c")));
    assert_eq!(sg.get_server(&s("p")), Some(s("srv")));
    // The sender binding survived: a hint publish still reaches the peer.
    assert_eq!(sg.hint_subscriber_tokens(&s("k")), vec![7]);
    // Repeats return the same list of other peers.
    let _ = sg.register_peer(s("q"), s("srv"), None, s("c2"));
    let o1 = sg.register_peer(s("p"), s("srv"), Some(s("k")), s("c"));
    let o2 = sg.register_peer(s("p"), s("srv"), Some(s("k")), s("c"));
    assert_eq!(o1, vec![s("q")]);
    assert_eq!(o2, o1);
    assert_eq!(sg.hint_subscriber_tokens(&s("k")), vec![7]);
}

#[test]
fn p1_reregistration_replaces_binding() {
    let mut hub = Hub::new(30);
    let c1 = s("conn1");
    let c2 = s("conn2");
    hub.handle_message(&c1, 1, hello("p", "s1"), 0);
    // Same peer id from a different connection: the old binding goes first.
    hub.handle_message(&c2, 2, hello("p", "s2"), 0);
    assert!(!hub.signaling.validate_peer_connection(&s("p"), &c1));
    assert!(hub.signaling.validate_peer_connection(&s("p"), &c2));
    assert_eq!(hub.signaling.get_server(&s("p")), Some(s("s2")));
    // Closing the old connection must not kill the new binding.
    hub.handle_disconnect(&c1);
    assert!(hub.signaling.validate_peer_connection(&s("p"), &c2));
}
