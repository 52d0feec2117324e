use http_forward::http::{bad_gateway, gateway_timeout};
use http_forward::protocol::{Protocol, Request};
use http_forward::server::{
    close_session, expire, handle_client, handle_http, key_for, key_material, make_key,
    open_forward,
    put_u64_be, session_step, Forward, Handshake, SessionAction, SessionEvent,
    RENDEZVOUS_TIMEOUT_SECS, SNIFF_TIMEOUT_SECS,
};
use http_forward::shared::{ClientChannel, ConnChannel, Shared};

fn hosts(names: &[&str]) -> Vec<String> {
    names.iter().map(|n| n.to_string()).collect()
}

fn register(names: &[&str]) -> Option<Protocol> {
    Some(Protocol::Register { domains: hosts(names) })
}

/// A server in which the session `owner` has registered `names`.
fn server_with(names: &[&str], owner: u32) -> Shared<u32, &'static str> {
    let mut shared = Shared::new();
    assert!(matches!(handle_client(&mut shared, register(names), owner), Handshake::Registered(_)));
    shared
}

#[test]
fn registry_starts_empty() {
    let registry: ClientChannel<u32> = ClientChannel::new();
    assert!(registry.is_empty());
    assert_eq!(registry.get("a.example"), None);
    assert!(!registry.contains_any(&hosts(&["a.example"])));
    assert!(!registry.contains_any(&[]));
}

#[test]
fn registry_gives_each_host_its_owner() {
    let mut registry = ClientChannel::new();
    assert_eq!(registry.add(hosts(&["a.example", "b.example"]), 1), Ok(()));
    assert_eq!(registry.add(hosts(&["c.example"]), 2), Ok(()));
    assert!(!registry.is_empty());
    assert_eq!(registry.get("a.example"), Some(&1));
    assert_eq!(registry.get("b.example"), Some(&1));
    assert_eq!(registry.get("c.example"), Some(&2));
    assert_eq!(registry.get("d.example"), None);
}

#[test]
fn registry_compares_hosts_byte_for_byte() {
    let mut registry = ClientChannel::new();
    assert_eq!(registry.add(hosts(&["a.example"]), 1), Ok(()));
    assert_eq!(registry.get("A.example"), None);
    assert_eq!(registry.get("a.example:443"), None);
    assert_eq!(registry.get("a.example "), None);
    assert_eq!(registry.get(""), None);
}

#[test]
fn registry_knows_whether_any_host_is_owned() {
    let mut registry = ClientChannel::new();
    assert_eq!(registry.add(hosts(&["a.example", "b.example"]), 1), Ok(()));
    assert!(registry.contains_any(&hosts(&["b.example"])));
    assert!(registry.contains_any(&hosts(&["x.example", "a.example"])));
    assert!(!registry.contains_any(&hosts(&["x.example", "y.example"])));
    assert!(!registry.contains_any(&[]));
}

#[test]
fn registry_adds_all_hosts_or_none() {
    let mut registry = ClientChannel::new();
    assert_eq!(registry.add(hosts(&["x"]), 1), Ok(()));
    assert_eq!(registry.add(hosts(&["w", "x", "y"]), 2), Err(2));
    assert_eq!(registry.get("w"), None);
    assert_eq!(registry.get("x"), Some(&1));
    assert_eq!(registry.get("y"), None);
}

#[test]
fn registry_takes_a_host_named_twice() {
    let mut registry = ClientChannel::new();
    assert_eq!(registry.add(hosts(&["x", "x"]), 1), Ok(()));
    assert_eq!(registry.get("x"), Some(&1));
    registry.remove(&hosts(&["x"]));
    assert!(registry.is_empty());
}

#[test]
fn registry_add_of_no_host_changes_nothing() {
    let mut registry = ClientChannel::new();
    assert_eq!(registry.add(vec![], 1), Ok(()));
    assert!(registry.is_empty());
}

#[test]
fn registry_removes_the_listed_hosts_only() {
    let mut registry = ClientChannel::new();
    assert_eq!(registry.add(hosts(&["a", "b"]), 1), Ok(()));
    assert_eq!(registry.add(hosts(&["c"]), 2), Ok(()));
    assert_eq!(registry.add(hosts(&["d", "e"]), 3), Ok(()));
    registry.remove(&hosts(&["b", "c", "zzz"]));
    assert_eq!(registry.get("a"), Some(&1));
    assert_eq!(registry.get("b"), None);
    assert_eq!(registry.get("c"), None);
    assert_eq!(registry.get("d"), Some(&3));
    assert_eq!(registry.get("e"), Some(&3));
}

#[test]
fn registry_remove_twice_is_remove_once() {
    let mut once = ClientChannel::new();
    let mut twice = ClientChannel::new();
    for registry in [&mut once, &mut twice] {
        assert_eq!(registry.add(hosts(&["a", "b"]), 1), Ok(()));
        assert_eq!(registry.add(hosts(&["c"]), 2), Ok(()));
    }
    once.remove(&hosts(&["a", "c"]));
    twice.remove(&hosts(&["a", "c"]));
    twice.remove(&hosts(&["a", "c"]));
    for host in ["a", "b", "c", "d"] {
        assert_eq!(once.get(host), twice.get(host));
    }
    assert_eq!(twice.get("b"), Some(&1));
}

#[test]
fn registry_frees_hosts_for_the_next_owner() {
    let mut registry = ClientChannel::new();
    assert_eq!(registry.add(hosts(&["a", "b"]), 1), Ok(()));
    registry.remove(&hosts(&["a", "b"]));
    assert!(registry.is_empty());
    assert_eq!(registry.add(hosts(&["a", "b"]), 2), Ok(()));
    assert_eq!(registry.get("a"), Some(&2));
}

#[test]
fn table_starts_empty() {
    let mut table: ConnChannel<u32> = ConnChannel::new();
    assert!(table.is_empty());
    assert_eq!(table.remove(&[1, 2, 3]), None);
}

#[test]
fn table_gives_a_slot_out_once() {
    let mut table = ConnChannel::new();
    assert_eq!(table.add(vec![1; 16], "one"), None);
    assert_eq!(table.add(vec![2; 16], "two"), None);
    assert!(!table.is_empty());
    assert_eq!(table.remove(&[1; 16]), Some("one"));
    assert_eq!(table.remove(&[1; 16]), None);
    assert_eq!(table.remove(&[2; 16]), Some("two"));
    assert_eq!(table.remove(&[2; 16]), None);
    assert!(table.is_empty());
}

#[test]
fn table_tells_keys_apart_by_every_byte() {
    let mut table = ConnChannel::new();
    assert_eq!(table.add(vec![1, 2, 3], "a"), None);
    assert_eq!(table.remove(&[1, 2]), None);
    assert_eq!(table.remove(&[1, 2, 3, 0]), None);
    assert_eq!(table.remove(&[1, 2, 4]), None);
    assert_eq!(table.remove(&[]), None);
    assert_eq!(table.remove(&[1, 2, 3]), Some("a"));
}

#[test]
fn table_lets_a_new_waiter_displace_the_old_one() {
    let mut table = ConnChannel::new();
    assert_eq!(table.add(vec![7; 16], "old"), None);
    assert_eq!(table.add(vec![7; 16], "new"), Some("old"));
    assert_eq!(table.remove(&[7; 16]), Some("new"));
    assert!(table.is_empty());
}

#[test]
fn shared_starts_empty() {
    let shared: Shared<u32, u32> = Shared::new();
    assert!(shared.client.is_empty());
    assert!(shared.conn.is_empty());
}

#[test]
fn first_message_register_is_accepted() {
    let mut shared: Shared<u32, &str> = Shared::new();
    match handle_client(&mut shared, register(&["a.example", "b.example"]), 1) {
        Handshake::Registered(names) => assert_eq!(names, hosts(&["a.example", "b.example"])),
        _ => panic!("a first registration is accepted"),
    }
    assert_eq!(shared.client.get("a.example"), Some(&1));
    assert_eq!(shared.client.get("b.example"), Some(&1));
    assert!(shared.conn.is_empty());
}

#[test]
fn register_without_hosts_is_refused() {
    let mut shared: Shared<u32, &str> = Shared::new();
    assert!(matches!(handle_client(&mut shared, register(&[]), 1), Handshake::Refused));
    assert!(shared.client.is_empty());
    let mut shared = server_with(&["a.example"], 1);
    assert!(matches!(handle_client(&mut shared, register(&[]), 2), Handshake::Refused));
    assert_eq!(shared.client.get("a.example"), Some(&1));
}

#[test]
fn register_of_an_owned_host_is_refused_and_changes_nothing() {
    let mut shared = server_with(&["a.example", "b.example"], 1);
    assert!(matches!(
        handle_client(&mut shared, register(&["c.example", "b.example"]), 2),
        Handshake::Refused
    ));
    assert_eq!(shared.client.get("a.example"), Some(&1));
    assert_eq!(shared.client.get("b.example"), Some(&1));
    assert_eq!(shared.client.get("c.example"), None);
}

#[test]
fn duplicate_registration_then_the_free_host_alone() {
    let mut shared = server_with(&["x"], 1);
    assert!(matches!(handle_client(&mut shared, register(&["x", "y"]), 2), Handshake::Refused));
    assert!(matches!(handle_client(&mut shared, register(&["y"]), 2), Handshake::Registered(_)));
    assert_eq!(shared.client.get("x"), Some(&1));
    assert_eq!(shared.client.get("y"), Some(&2));
}

#[test]
fn a_session_that_ends_frees_its_hosts() {
    let mut shared = server_with(&["a.example", "b.example"], 1);
    close_session(&mut shared, &hosts(&["a.example", "b.example"]));
    assert!(shared.client.is_empty());
    assert!(matches!(
        handle_client(&mut shared, register(&["a.example", "b.example"]), 2),
        Handshake::Registered(_)
    ));
    assert_eq!(shared.client.get("a.example"), Some(&2));
}

#[test]
fn closing_a_session_leaves_the_others() {
    let mut shared = server_with(&["a.example"], 1);
    assert!(matches!(handle_client(&mut shared, register(&["b.example"]), 2), Handshake::Registered(_)));
    assert_eq!(shared.conn.add(vec![1; 16], "waiting"), None);
    close_session(&mut shared, &hosts(&["a.example"]));
    assert_eq!(shared.client.get("a.example"), None);
    assert_eq!(shared.client.get("b.example"), Some(&2));
    assert_eq!(shared.conn.remove(&[1; 16]), Some("waiting"));
}

#[test]
fn response_with_a_known_key_gets_the_slot() {
    let mut shared = server_with(&["a.example"], 1);
    assert_eq!(shared.conn.add(vec![1; 16], "one"), None);
    assert_eq!(shared.conn.add(vec![2; 16], "two"), None);
    match handle_client(&mut shared, Some(Protocol::Response { key: vec![1; 16] }), 9) {
        Handshake::Handoff(slot) => assert_eq!(slot, "one"),
        _ => panic!("the key is known"),
    }
    assert_eq!(shared.conn.remove(&[1; 16]), None);
    assert_eq!(shared.conn.remove(&[2; 16]), Some("two"));
    assert_eq!(shared.client.get("a.example"), Some(&1));
}

#[test]
fn response_with_an_unknown_key_changes_nothing() {
    let mut shared = server_with(&["a.example"], 1);
    assert_eq!(shared.conn.add(vec![1; 16], "one"), None);
    assert!(matches!(
        handle_client(&mut shared, Some(Protocol::Response { key: vec![3; 16] }), 9),
        Handshake::Shutdown
    ));
    assert_eq!(shared.client.get("a.example"), Some(&1));
    assert_eq!(shared.conn.remove(&[1; 16]), Some("one"));
    assert!(shared.conn.is_empty());
}

#[test]
fn a_second_response_with_the_same_key_comes_too_late() {
    let mut shared: Shared<u32, &str> = Shared::new();
    assert_eq!(shared.conn.add(vec![1; 16], "one"), None);
    let first = handle_client(&mut shared, Some(Protocol::Response { key: vec![1; 16] }), 9);
    let second = handle_client(&mut shared, Some(Protocol::Response { key: vec![1; 16] }), 9);
    assert!(matches!(first, Handshake::Handoff("one")));
    assert!(matches!(second, Handshake::Shutdown));
}

#[test]
fn any_other_first_message_closes() {
    for msg in [
        None,
        Some(Protocol::Accepted),
        Some(Protocol::Error),
        Some(Protocol::Ping),
        Some(Protocol::Pong),
        Some(Protocol::Request(Request::new(vec![1; 16], "a.example".to_string()))),
    ] {
        let mut shared = server_with(&["a.example"], 1);
        assert_eq!(shared.conn.add(vec![1; 16], "one"), None);
        assert!(matches!(handle_client(&mut shared, msg, 2), Handshake::Close));
        assert_eq!(shared.client.get("a.example"), Some(&1));
        assert_eq!(shared.conn.remove(&[1; 16]), Some("one"));
    }
}

#[test]
fn session_answers_ping_with_pong() {
    assert_eq!(
        session_step(SessionEvent::Frame(Some(Protocol::Ping))),
        SessionAction::Send(Protocol::Pong)
    );
}

#[test]
fn session_notes_what_it_has_no_use_for() {
    for msg in [
        Protocol::Pong,
        Protocol::Accepted,
        Protocol::Error,
        Protocol::Register { domains: hosts(&["a"]) },
        Protocol::Response { key: vec![1] },
        Protocol::Request(Request::new(vec![1], "a".to_string())),
    ] {
        assert_eq!(
            session_step(SessionEvent::Frame(Some(msg.clone()))),
            SessionAction::Unexpected(msg)
        );
    }
}

#[test]
fn session_ends_with_the_stream() {
    assert_eq!(session_step(SessionEvent::Frame(None)), SessionAction::Stop);
}

#[test]
fn session_passes_queued_requests_on() {
    let request = Request::new(vec![4; 16], "a.example".to_string());
    assert_eq!(
        session_step(SessionEvent::Queued(Some(request.clone()))),
        SessionAction::Send(Protocol::Request(request))
    );
    assert_eq!(session_step(SessionEvent::Queued(None)), SessionAction::Idle);
}

#[test]
fn keepalive_three_pings_get_three_pongs() {
    for _ in 0..3 {
        assert_eq!(
            session_step(SessionEvent::Frame(Some(Protocol::Ping))),
            SessionAction::Send(Protocol::Pong)
        );
    }
}

#[test]
fn timeouts_are_thirty_and_fifteen_seconds() {
    assert_eq!(SNIFF_TIMEOUT_SECS, 30);
    assert_eq!(RENDEZVOUS_TIMEOUT_SECS, 15);
}

#[test]
fn put_u64_be_puts_the_high_byte_first() {
    let mut out = vec![0xee];
    put_u64_be(&mut out, 0x0102_0304_0506_0708);
    assert_eq!(out, vec![0xee, 1, 2, 3, 4, 5, 6, 7, 8]);
    let mut out = Vec::new();
    put_u64_be(&mut out, 1);
    assert_eq!(out, vec![0, 0, 0, 0, 0, 0, 0, 1]);
}

#[test]
fn key_material_is_host_seconds_and_nonce() {
    assert_eq!(
        key_material("ab", Some(0x0102), 0xff),
        vec![b'a', b'b', 0, 0, 0, 0, 0, 0, 1, 2, 0, 0, 0, 0, 0, 0, 0, 0xff]
    );
    assert_eq!(key_material("ab", None, 0xff), vec![b'a', b'b', 0, 0, 0, 0, 0, 0, 0, 0xff]);
    assert_eq!(key_material("", None, 0), vec![0; 8]);
}

#[test]
fn key_for_is_the_md5_digest_of_the_material() {
    assert_eq!(
        key_for("", None, 0),
        vec![125, 234, 54, 43, 63, 172, 142, 0, 149, 106, 73, 82, 163, 212, 244, 116]
    );
    assert_eq!(
        key_for("a.example", Some(1_700_000_000), 0x0123_4567_89ab_cdef),
        vec![186, 3, 6, 95, 221, 217, 58, 107, 133, 12, 182, 3, 16, 176, 149, 108]
    );
}

#[test]
fn key_for_depends_on_host_time_and_nonce() {
    let key = key_for("a.example", Some(1), 2);
    assert_eq!(key, key_for("a.example", Some(1), 2));
    assert_ne!(key, key_for("b.example", Some(1), 2));
    assert_ne!(key, key_for("a.example", Some(2), 2));
    assert_ne!(key, key_for("a.example", None, 2));
    assert_ne!(key, key_for("a.example", Some(1), 3));
}

#[test]
fn make_key_gives_sixteen_bytes() {
    assert_eq!(make_key("a.example").len(), 16);
    assert_eq!(make_key("").len(), 16);
    assert_eq!(make_key(&"x".repeat(1000)).len(), 16);
}

#[test]
fn make_key_gives_a_new_key_each_time() {
    let keys: Vec<Vec<u8>> = (0..32).map(|_| make_key("a.example")).collect();
    for i in 0..keys.len() {
        for j in 0..i {
            assert_ne!(keys[i], keys[j]);
        }
    }
}

#[test]
fn forward_for_an_unknown_host_is_a_bad_gateway() {
    let mut shared = server_with(&["a.example"], 1);
    match open_forward(&mut shared, "other".to_string(), vec![1; 16], "slot") {
        Forward::NoClient { slot, reply } => {
            assert_eq!(slot, "slot");
            assert_eq!(reply, bad_gateway());
            assert_eq!(
                reply.response(),
                b"HTTP/1.1 502 Bad Gateway\r\ncontent-length: 0\r\n\r\n".to_vec()
            );
        }
        _ => panic!("no client serves that host"),
    }
    assert!(shared.conn.is_empty());
    assert_eq!(shared.client.get("a.example"), Some(&1));
}

#[test]
fn forward_for_a_known_host_waits_under_its_key() {
    let mut shared = server_with(&["a.example"], 1);
    match open_forward(&mut shared, "a.example".to_string(), vec![1; 16], "slot") {
        Forward::Waiting { request, displaced } => {
            assert_eq!(request, Request::new(vec![1; 16], "a.example".to_string()));
            assert_eq!(displaced, None);
        }
        _ => panic!("a client serves that host"),
    }
    assert_eq!(shared.client.get("a.example"), Some(&1));
    assert_eq!(shared.conn.remove(&[1; 16]), Some("slot"));
}

#[test]
fn forward_under_a_key_in_use_displaces_the_old_waiter() {
    let mut shared = server_with(&["a.example"], 1);
    assert_eq!(shared.conn.add(vec![1; 16], "old"), None);
    match open_forward(&mut shared, "a.example".to_string(), vec![1; 16], "new") {
        Forward::Waiting { displaced, .. } => assert_eq!(displaced, Some("old")),
        _ => panic!("a client serves that host"),
    }
    assert_eq!(shared.conn.remove(&[1; 16]), Some("new"));
}

#[test]
fn forward_with_port_does_not_match_the_bare_host() {
    let mut shared = server_with(&["a.example"], 1);
    assert!(matches!(
        handle_http(&mut shared, "a.example:443".to_string(), "slot"),
        Forward::NoClient { slot: "slot", .. }
    ));
}

#[test]
fn handle_http_makes_a_key_of_sixteen_bytes() {
    let mut shared = server_with(&["a.example"], 1);
    match handle_http(&mut shared, "a.example".to_string(), "slot") {
        Forward::Waiting { request, displaced } => {
            assert_eq!(request.key.len(), 16);
            assert_eq!(request.domain, "a.example");
            assert_eq!(displaced, None);
            assert_eq!(shared.conn.remove(&request.key), Some("slot"));
        }
        _ => panic!("a client serves that host"),
    }
    assert!(shared.conn.is_empty());
}

#[test]
fn happy_path_request_then_response() {
    let mut shared = server_with(&["a.example"], 1);
    let request = match handle_http(&mut shared, "a.example".to_string(), "outside") {
        Forward::Waiting { request, .. } => request,
        _ => panic!("a client serves that host"),
    };
    // The session passes the request on; the client answers on a fresh connection.
    assert_eq!(
        session_step(SessionEvent::Queued(Some(request.clone()))),
        SessionAction::Send(Protocol::Request(request.clone()))
    );
    let answer = Some(Protocol::Response { key: request.key.clone() });
    assert!(matches!(handle_client(&mut shared, answer, 2), Handshake::Handoff("outside")));
    // The clock comes too late.
    assert_eq!(expire(&mut shared, &request.key).slot, None);
    assert!(shared.conn.is_empty());
}

#[test]
fn rendezvous_timeout_empties_the_table() {
    let mut shared = server_with(&["a.example"], 1);
    let request = match handle_http(&mut shared, "a.example".to_string(), "outside") {
        Forward::Waiting { request, .. } => request,
        _ => panic!("a client serves that host"),
    };
    let expired = expire(&mut shared, &request.key);
    assert_eq!(expired.slot, Some("outside"));
    assert_eq!(expired.reply, gateway_timeout());
    assert_eq!(
        expired.reply.response(),
        b"HTTP/1.1 504 Gateway Timeout\r\ncontent-length: 0\r\n\r\n".to_vec()
    );
    assert!(shared.conn.is_empty());
    // The client comes too late.
    let answer = Some(Protocol::Response { key: request.key });
    assert!(matches!(handle_client(&mut shared, answer, 2), Handshake::Shutdown));
    assert_eq!(shared.client.get("a.example"), Some(&1));
}
