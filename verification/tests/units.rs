use beacon_core::health::{beacon_health_url, signaling_health_url, classify_health_status,
    classify_signaling_health_status, get_default_beacon_url, get_default_signaling_url,
    u16_to_dec, BeaconError, SignalingError, BeaconStatus};
use beacon_core::presence::{encode_active_key, redis_server_key, redis_user_key, snapshot_reconcile,
    MemoryPresence};
use beacon_core::security::{resolve_client_ip, ConnectionTracker, SecurityConfig};
use beacon_core::voice::VoiceState;

fn s(x: &str) -> String {
    x.to_string()
}

#[test]
fn redis_key_shapes() {
    assert_eq!(redis_user_key("alice"), s("presence:user:alice"));
    assert_eq!(redis_server_key("k1"), s("presence:house:k1"));
    assert_eq!(redis_user_key(""), s("presence:user:"));
}

#[test]
fn external_snapshot_reconcile() {
    // Three members: one live with an active key, one live but idle (empty
    // string decodes to None), one whose record expired (to prune).
    let ids = vec![s("u1"), s("u2"), s("u3")];
    let actives = vec![Some(s("k1")), Some(s("")), None];
    let (out, stale) = snapshot_reconcile(&ids, &actives);
    assert_eq!(out.len(), 2);
    assert_eq!(out[0].user_id, s("u1"));
    assert_eq!(out[0].active_signing_pubkey, Some(s("k1")));
    assert_eq!(out[1].user_id, s("u2"));
    assert_eq!(out[1].active_signing_pubkey, None);
    assert_eq!(stale, vec![s("u3")]);

    let (out, stale) = snapshot_reconcile(&Vec::new(), &Vec::new());
    assert!(out.is_empty());
    assert!(stale.is_empty());
}

#[test]
fn active_key_encoding() {
    assert_eq!(encode_active_key(&Some(s("k"))), s("k"));
    assert_eq!(encode_active_key(&None), s(""));
}

#[test]
fn p5_presence_round_trip() {
    let mut mp = MemoryPresence::new();
    // hello(u, [k1, k2], active = k1, ttl = T) at t = 0.
    mp.hello(&s("u"), &vec![s("k1"), s("k2")], &Some(s("k1")), 10, 0);

    // Within the TTL the user is visible under k1 with its active key.
    let out = mp.snapshot(&s("k1"), 5);
    assert_eq!(out.len(), 1);
    assert_eq!(out[0].user_id, s("u"));
    assert_eq!(out[0].active_signing_pubkey, Some(s("k1")));

    // And under k2 as well.
    let out = mp.snapshot(&s("k2"), 9);
    assert_eq!(out.len(), 1);

    // Past the TTL the snapshot is empty and the reverse set is repaired.
    let out = mp.snapshot(&s("k1"), 10);
    assert!(out.is_empty());
    assert!(mp.by_key.get_set(&s("k1")).is_none());
    // A later snapshot still sees the repaired (empty) set.
    let out = mp.snapshot(&s("k1"), 11);
    assert!(out.is_empty());
}

#[test]
fn s_e_presence_ttl() {
    let mut mp = MemoryPresence::new();
    // ttl = 2 s; t = 0: hello("u", ["k"], "k").
    mp.hello(&s("u"), &vec![s("k")], &Some(s("k")), 2, 0);
    // t = 1: snapshot("k") = [(u, k)].
    let out = mp.snapshot(&s("k"), 1);
    assert_eq!(out.len(), 1);
    assert_eq!(out[0].user_id, s("u"));
    assert_eq!(out[0].active_signing_pubkey, Some(s("k")));
    // t = 3, no refresh: snapshot("k") = [] and the reverse set loses u.
    let out = mp.snapshot(&s("k"), 3);
    assert!(out.is_empty());
    assert!(mp.by_key.get_set(&s("k")).is_none());
}

#[test]
fn p6_refresh_keeps_alive() {
    let mut mp = MemoryPresence::new();
    let batch = vec![(s("u"), vec![s("k")], Some(s("k")))];
    // Refresh at half the TTL keeps the user present indefinitely.
    mp.refresh(&batch, 4, 0);
    assert_eq!(mp.snapshot(&s("k"), 2).len(), 1);
    mp.refresh(&batch, 4, 2);
    assert_eq!(mp.snapshot(&s("k"), 4).len(), 1);
    mp.refresh(&batch, 4, 4);
    assert_eq!(mp.snapshot(&s("k"), 6).len(), 1);
    // Stopping refresh: gone once the last TTL elapses.
    assert!(mp.snapshot(&s("k"), 8).is_empty());
    // An empty refresh is a no-op.
    let empty: Vec<(String, Vec<String>, Option<String>)> = Vec::new();
    mp.refresh(&empty, 4, 9);
    assert!(mp.snapshot(&s("k"), 9).is_empty());
}

#[test]
fn sweep_removes_expired_records_and_reverse_entries() {
    let mut mp = MemoryPresence::new();
    mp.hello(&s("gone"), &vec![s("k"), s("k2")], &None, 2, 0);
    mp.hello(&s("fresh"), &vec![s("k")], &Some(s("k")), 10, 0);
    mp.sweep_expired(5);
    // The expired user left both reverse sets; the live one is untouched.
    let out = mp.snapshot(&s("k"), 5);
    assert_eq!(out.len(), 1);
    assert_eq!(out[0].user_id, s("fresh"));
    assert!(mp.by_key.get_set(&s("k2")).is_none());
    // The expired record itself is gone: a re-hello starts fresh.
    mp.hello(&s("gone"), &vec![s("k2")], &None, 2, 6);
    assert_eq!(mp.snapshot(&s("k2"), 7).len(), 1);
}

#[test]
fn presence_disconnect_removes_user() {
    let mut mp = MemoryPresence::new();
    mp.hello(&s("u"), &vec![s("k")], &None, 10, 0);
    let out = mp.snapshot(&s("k"), 1);
    assert_eq!(out.len(), 1);
    assert_eq!(out[0].active_signing_pubkey, None);
    mp.disconnect(&s("u"), &vec![s("k")]);
    assert!(mp.snapshot(&s("k"), 1).is_empty());
}

#[test]
fn presence_active_without_hello_stays_invisible() {
    let mut mp = MemoryPresence::new();
    // The record is written, but no reverse set lists the user.
    mp.set_active(&s("u"), &Some(s("k")), 10, 0);
    assert!(mp.snapshot(&s("k"), 1).is_empty());
}

#[test]
fn s_f_connection_cap() {
    let mut t = ConnectionTracker::new(0, 2);
    let ip = s("203.0.113.9");
    assert!(t.can_accept(&ip));
    assert!(t.try_register(&ip).is_ok());
    assert!(t.try_register(&ip).is_ok());
    // The third attempt from the same IP is rejected...
    assert!(!t.can_accept(&ip));
    assert!(t.try_register(&ip).is_err());
    // ...while another IP still fits.
    assert!(t.try_register(&s("198.51.100.1")).is_ok());
    // A rejected attempt did not count: after one leaves, one fits again.
    t.unregister(&ip);
    assert!(t.try_register(&ip).is_ok());
}

#[test]
fn tracker_global_cap_and_saturation() {
    let mut t = ConnectionTracker::new(2, 0);
    assert!(t.try_register(&s("a")).is_ok());
    assert!(t.try_register(&s("b")).is_ok());
    assert!(t.try_register(&s("c")).is_err());
    t.unregister(&s("a"));
    assert!(t.try_register(&s("c")).is_ok());
    // Unregistering an unknown IP saturates at zero instead of underflowing.
    t.unregister(&s("nobody"));
    t.unregister(&s("b"));
    t.unregister(&s("c"));
    t.unregister(&s("c"));
    assert_eq!(t.total, 0);
}

#[test]
fn client_ip_resolution() {
    assert_eq!(resolve_client_ip(Some("203.0.113.5")).0, s("203.0.113.5"));
    // A forwarding chain: the first token wins, trimmed.
    assert_eq!(resolve_client_ip(Some("203.0.113.5, 70.41.3.18, 150.172.238.178")).0,
        s("203.0.113.5"));
    assert_eq!(resolve_client_ip(Some(" 10.0.0.1 ,proxy")).0, s("10.0.0.1"));
    // No usable header at all.
    assert_eq!(resolve_client_ip(None).0, s("unknown"));
}

#[test]
fn security_config_defaults() {
    let c = SecurityConfig::default();
    assert_eq!(c.max_body_bytes, 1_000_000);
    assert_eq!(c.max_ws_connections, 0);
    assert_eq!(c.max_ws_per_ip, 0);
    assert_eq!(c.rate_limit_rest_per_min, 60);
    assert_eq!(c.rate_limit_ws_per_min, 250);
    assert!(c.cors_origins.is_none());
}

#[test]
fn p4_voice_reconnect_direct() {
    let mut v = VoiceState::new();
    let others = v.register_voice_peer(s("pA1"), s("u"), s("srv"), s("chat"), s("conn1"));
    assert!(others.is_empty());
    // Same user from a new peer id: exactly one entry, the new one.
    let others = v.register_voice_peer(s("pA2"), s("u"), s("srv"), s("chat"), s("conn2"));
    assert!(others.is_empty());
    assert_eq!(v.chat_member_ids(&s("srv"), &s("chat")), vec![s("pA2")]);
    // A second user joins and is told about the first.
    let others = v.register_voice_peer(s("pB"), s("w"), s("srv"), s("chat"), s("conn3"));
    assert_eq!(others.len(), 1);
    assert_eq!(others[0].peer_id, s("pA2"));
    assert_eq!(others[0].user_id, s("u"));
}

#[test]
fn voice_unregister_and_empty_chat_removal() {
    let mut v = VoiceState::new();
    v.register_voice_peer(s("p1"), s("u1"), s("srv"), s("chat"), s("c1"));
    let gone = v.unregister_voice_peer(&s("p1"), &s("srv"), &s("chat"));
    assert_eq!(gone, Some(s("u1")));
    // The chat emptied and disappeared.
    assert!(v.chat_member_ids(&s("srv"), &s("chat")).is_empty());
    assert_eq!(v.unregister_voice_peer(&s("p1"), &s("srv"), &s("chat")), None);
}

#[test]
fn voice_disconnect_sweeps_all_chats() {
    let mut v = VoiceState::new();
    v.register_voice_peer(s("p1"), s("u1"), s("srv"), s("c1"), s("dying"));
    v.register_voice_peer(s("p2"), s("u2"), s("srv"), s("c1"), s("alive"));
    v.register_voice_peer(s("p3"), s("u3"), s("srv"), s("c2"), s("dying"));
    let removed = v.handle_voice_disconnect(&s("dying"));
    assert_eq!(removed.len(), 2);
    assert_eq!(removed[0], (s("srv"), s("c1"), s("p1"), s("u1")));
    assert_eq!(removed[1], (s("srv"), s("c2"), s("p3"), s("u3")));
    assert_eq!(v.chat_member_ids(&s("srv"), &s("c1")), vec![s("p2")]);
    assert!(v.chat_member_ids(&s("srv"), &s("c2")).is_empty());
}

#[test]
fn health_url_shapes() {
    assert_eq!(
        beacon_health_url("wss://beacon.example.com").unwrap(),
        s("https://beacon.example.com/health")
    );
    assert_eq!(
        beacon_health_url("ws://localhost:9001/").unwrap(),
        s("http://localhost:9001/health")
    );
    // The beacon check tolerates surrounding whitespace.
    assert_eq!(beacon_health_url("  wss://a.example  ").unwrap(), s("https://a.example/health"));
    match beacon_health_url("http://nope.example") {
        Err(BeaconError::InvalidUrl(m)) => {
            assert_eq!(m, s("URL must start with ws:// or wss://"));
        },
        _ => panic!("expected InvalidUrl"),
    }
    assert_eq!(
        signaling_health_url("ws://127.0.0.1:9001").unwrap(),
        s("http://127.0.0.1:9001/health")
    );
    match signaling_health_url("127.0.0.1") {
        Err(SignalingError::InvalidUrl(_)) => {},
        _ => panic!("expected InvalidUrl"),
    }
}

#[test]
fn health_status_classification() {
    assert_eq!(classify_health_status(200).unwrap(), true);
    assert_eq!(classify_health_status(204).unwrap(), true);
    assert_eq!(classify_health_status(299).unwrap(), true);
    match classify_health_status(404) {
        Err(BeaconError::ConnectionFailed(m)) => {
            assert_eq!(m, s("HTTP 404 from health endpoint"));
        },
        _ => panic!("expected ConnectionFailed"),
    }
    match classify_signaling_health_status(503) {
        Err(SignalingError::ConnectionFailed(m)) => {
            assert_eq!(m, s("HTTP 503 from health endpoint"));
        },
        _ => panic!("expected ConnectionFailed"),
    }
}

#[test]
fn decimal_rendering() {
    assert_eq!(u16_to_dec(0), s("0"));
    assert_eq!(u16_to_dec(7), s("7"));
    assert_eq!(u16_to_dec(42), s("42"));
    assert_eq!(u16_to_dec(200), s("200"));
    assert_eq!(u16_to_dec(65535), s("65535"));
}

#[test]
fn default_urls() {
    assert_eq!(get_default_beacon_url(), s("wss://beacon.pkcollection.net"));
    assert_eq!(get_default_signaling_url(), s("ws://127.0.0.1:9001"));
}

#[test]
fn error_messages() {
    assert_eq!(BeaconError::Timeout.message(), s("Timeout"));
    assert_eq!(
        BeaconError::ConnectionFailed(s("boom")).message(),
        s("Connection failed: boom")
    );
    assert_eq!(SignalingError::InvalidUrl(s("x")).message(), s("Invalid URL: x"));
    assert_eq!(BeaconStatus::Checking, BeaconStatus::Checking);
    assert!(BeaconStatus::Connected != BeaconStatus::Disconnected);
}
