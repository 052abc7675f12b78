use chat_broker::ids::SessionId;
use chat_broker::room::Delivery;
use chat_broker::server::ChatServer;

fn to_of(ds: &[Delivery]) -> Vec<SessionId> {
    let mut v: Vec<SessionId> = ds.iter().map(|d| d.to).collect();
    v.sort();
    v
}

#[test]
fn consecutive_connects_are_distinct() {
    let mut s: ChatServer<u32> = ChatServer::new();
    let mut ids: Vec<SessionId> = Vec::new();
    for k in 0..50u32 {
        ids.push(s.connect(k));
    }
    let mut sorted = ids.clone();
    sorted.sort();
    sorted.dedup();
    assert_eq!(sorted.len(), 50);
    for (k, id) in ids.iter().enumerate() {
        assert_eq!(s.lookup(id), Some(&(k as u32)));
    }
}

#[test]
fn connect_with_keeps_a_free_candidate() {
    let mut s: ChatServer<&str> = ChatServer::new();
    assert_eq!(s.connect_with(42, "a"), 42);
    assert_eq!(s.connect_with(7, "b"), 7);
    assert_eq!(s.lookup(&42), Some(&"a"));
    assert_eq!(s.lookup(&7), Some(&"b"));
}

#[test]
fn connect_with_taken_candidate_takes_lowest_free() {
    let mut s: ChatServer<&str> = ChatServer::new();
    assert_eq!(s.connect_with(0, "a"), 0);
    assert_eq!(s.connect_with(2, "b"), 2);
    assert_eq!(s.connect_with(2, "c"), 1);
    assert_eq!(s.connect_with(0, "d"), 3);
    assert_eq!(s.lookup(&1), Some(&"c"));
    assert_eq!(s.lookup(&2), Some(&"b"));
}

#[test]
fn disconnect_purges_registry_and_rooms() {
    let mut s: ChatServer<u8> = ChatServer::new();
    let a = s.connect(1);
    let b = s.connect(2);
    let c = s.connect(3);
    s.join_room(a, "red");
    s.join_room(b, "red");
    s.join_room(c, "blue");
    s.disconnect(a);
    assert_eq!(s.lookup(&a), None);
    assert_eq!(to_of(&s.send_message("red", "x", &c)), vec![b]);
    assert_eq!(to_of(&s.send_message("blue", "x", &b)), vec![c]);
    assert!(s.join_room(b, "blue").iter().all(|d| d.to != a));
}

#[test]
fn disconnect_of_unknown_session_is_a_no_op() {
    let mut s: ChatServer<u8> = ChatServer::new();
    let a = s.connect_with(10, 1);
    let b = s.connect_with(20, 2);
    s.join_room(a, "r");
    s.join_room(b, "r");
    s.disconnect(99);
    s.disconnect(b);
    s.disconnect(b);
    assert_eq!(s.lookup(&a), Some(&1));
    assert_eq!(s.send_message("r", "m", &b).len(), 1);
}

#[test]
fn joining_another_room_leaves_the_first() {
    let mut s: ChatServer<u8> = ChatServer::new();
    let a = s.connect(1);
    let w = s.connect(2);
    s.join_room(w, "A");
    s.join_room(a, "A");
    let r = s.join_room(a, "B");
    assert_eq!(
        r,
        vec![Delivery { to: w, text: String::from("Someone disconnected") }]
    );
    assert!(s.send_message("A", "t", &w).is_empty());
    let v = s.send_message("B", "t", &w);
    assert_eq!(v, vec![Delivery { to: a, text: String::from("t") }]);
}

#[test]
fn rejoining_the_same_room_sends_both_notices() {
    let mut s: ChatServer<u8> = ChatServer::new();
    let a = s.connect(1);
    let b = s.connect(2);
    s.join_room(a, "lobby");
    s.join_room(b, "lobby");
    let r = s.join_room(b, "lobby");
    assert_eq!(
        r,
        vec![
            Delivery { to: a, text: String::from("Someone disconnected") },
            Delivery { to: a, text: String::from("Someone connected") },
        ]
    );
    assert_eq!(to_of(&s.send_message("lobby", "m", &a)), vec![b]);
}

#[test]
fn join_by_unknown_session_changes_nothing() {
    let mut s: ChatServer<u8> = ChatServer::new();
    let a = s.connect(1);
    s.join_room(a, "r");
    s.disconnect(a);
    let b = s.connect(2);
    s.join_room(b, "r");
    assert!(s.join_room(a, "r").is_empty());
    assert!(s.send_message("r", "m", &b).is_empty());
}

#[test]
fn sender_is_never_a_recipient() {
    let mut s: ChatServer<u8> = ChatServer::new();
    let a = s.connect(1);
    let b = s.connect(2);
    let c = s.connect(3);
    s.join_room(a, "r");
    s.join_room(b, "r");
    s.join_room(c, "r");
    let mut expected = vec![b, c];
    expected.sort();
    let out = s.send_message("r", "hello", &a);
    assert_eq!(to_of(&out), expected);
    assert!(out.iter().all(|d| d.text == "hello"));
    assert!(s.client_message(b, "r", "yo").iter().all(|d| d.to != b));
}

#[test]
fn unknown_room_delivers_nothing() {
    let mut s: ChatServer<u8> = ChatServer::new();
    let a = s.connect(1);
    s.join_room(a, "real");
    assert!(s.send_message("nonexistent", "x", &a).is_empty());
    assert!(s.send_message("nonexistent", "x", &0).is_empty());
}

#[test]
fn rooms_persist_when_empty() {
    let mut s: ChatServer<u8> = ChatServer::new();
    let a = s.connect(1);
    s.join_room(a, "r");
    s.disconnect(a);
    let b = s.connect(2);
    let c = s.connect(3);
    assert!(s.join_room(b, "r").is_empty());
    let r = s.join_room(c, "r");
    assert_eq!(r, vec![Delivery { to: b, text: String::from("Someone connected") }]);
}

#[test]
fn lobby_scenario() {
    let mut s: ChatServer<&str> = ChatServer::new();
    let sa = s.connect("sink A");
    let sb = s.connect("sink B");
    assert_ne!(sa, sb);
    assert!(s.join_room(sa, "lobby").is_empty());
    let joined = s.join_room(sb, "lobby");
    assert_eq!(
        joined,
        vec![Delivery { to: sa, text: String::from("Someone connected") }]
    );
    let hi = s.client_message(sb, "lobby", "hi");
    assert_eq!(hi, vec![Delivery { to: sa, text: String::from("hi") }]);
    assert_eq!(s.lookup(&hi[0].to), Some(&"sink A"));
    s.disconnect(sa);
    assert_eq!(s.lookup(&sa), None);
    assert_eq!(to_of(&s.send_message("lobby", "probe", &sa)), vec![sb]);
    assert!(s.client_message(sb, "lobby", "echo").is_empty());
}
