use std::collections::HashSet;
use tinybase::actors::ws_actor::{
    ClientMessage, ClientWebSocketConnection, Connect, ConnectError, Delivery, Disconnect, Join, KeyWritten, ListRooms, Listen, Test,
};

fn room(hub: &ClientWebSocketConnection<&'static str>, name: &str) -> Option<HashSet<u128>> {
    hub.rooms.members(&name.to_string()).cloned()
}

fn targets(out: &[Delivery]) -> HashSet<u128> {
    out.iter().map(|d| d.to).collect()
}

fn set(ids: &[u128]) -> HashSet<u128> {
    ids.iter().copied().collect()
}

#[test]
fn new_hub_has_only_main() {
    let hub: ClientWebSocketConnection<&'static str> = ClientWebSocketConnection::new();
    assert_eq!(hub.handle_list_rooms(ListRooms), vec!["main".to_string()]);
    assert_eq!(room(&hub, "main"), Some(HashSet::new()));
    assert!(hub.prefix_listners.names().is_empty());
}

#[test]
fn connect_registers_and_seats_in_main() {
    let mut hub = ClientWebSocketConnection::new();
    let a = hub.handle_connect(Connect { addr: "a" }).ok().unwrap();
    let b = hub.handle_connect(Connect { addr: "b" }).ok().unwrap();
    assert_ne!(a, b);
    assert_eq!(hub.session(a), Some(&"a"));
    assert_eq!(hub.session(b), Some(&"b"));
    assert_eq!(room(&hub, "main"), Some(set(&[a, b])));
}

#[test]
fn register_session_recreates_main() {
    let mut hub = ClientWebSocketConnection::new();
    hub.register_session(5, "five");
    assert_eq!(hub.session(5), Some(&"five"));
    assert_eq!(room(&hub, "main"), Some(set(&[5])));
}

#[test]
fn message_reaches_the_other_sessions_of_the_room() {
    let mut hub = ClientWebSocketConnection::new();
    hub.register_session(1, "one");
    hub.register_session(2, "two");
    hub.register_session(3, "three");
    let out = hub.handle_client_message(ClientMessage { id: 1, msg: "hi".to_string(), room: "main".to_string() });
    assert_eq!(targets(&out), set(&[2, 3]));
    assert_eq!(out.len(), 2);
    assert!(out.iter().all(|d| d.message.0 == "hi"));
}

#[test]
fn message_to_unknown_room_reaches_nobody() {
    let mut hub = ClientWebSocketConnection::new();
    hub.register_session(1, "one");
    let out = hub.send_message(&"nowhere".to_string(), &"hi".to_string(), 0);
    assert!(out.is_empty());
}

#[test]
fn message_skips_ids_that_are_not_sessions() {
    let mut hub = ClientWebSocketConnection::new();
    hub.register_session(1, "one");
    hub.handle_join(Join { id: 9, name: "main".to_string() });
    let out = hub.send_message(&"main".to_string(), &"x".to_string(), 0);
    assert_eq!(targets(&out), set(&[1]));
}

#[test]
fn join_moves_the_session_and_announces_it() {
    let mut hub = ClientWebSocketConnection::new();
    hub.register_session(1, "one");
    hub.register_session(2, "two");
    hub.register_session(3, "three");
    let (left, joined) = hub.handle_join(Join { id: 2, name: "lobby".to_string() });
    assert!(joined.is_empty());
    assert_eq!(left.len(), 1);
    assert_eq!(left[0].room, "main");
    assert_eq!(targets(&left[0].deliveries), set(&[1, 3]));
    assert_eq!(left[0].deliveries.len(), 2);
    assert!(left[0].deliveries.iter().all(|d| d.message.0 == "Someone disconnected"));
    let (left, out) = hub.handle_join(Join { id: 3, name: "lobby".to_string() });
    assert_eq!(left.len(), 1);
    assert_eq!(left[0].room, "main");
    assert_eq!(targets(&left[0].deliveries), set(&[1]));
    assert_eq!(targets(&out), set(&[2]));
    assert_eq!(out.len(), 1);
    assert_eq!(out[0].message.0, "Someone connected");
    assert_eq!(room(&hub, "main"), Some(set(&[1])));
    assert_eq!(room(&hub, "lobby"), Some(set(&[2, 3])));
    let mut names = hub.handle_list_rooms(ListRooms);
    names.sort();
    assert_eq!(names, vec!["lobby".to_string(), "main".to_string()]);
}

#[test]
fn join_seats_in_exactly_one_room() {
    let mut hub = ClientWebSocketConnection::new();
    hub.register_session(1, "one");
    hub.handle_join(Join { id: 1, name: "a".to_string() });
    hub.handle_join(Join { id: 1, name: "b".to_string() });
    assert_eq!(room(&hub, "main"), Some(HashSet::new()));
    assert_eq!(room(&hub, "a"), Some(HashSet::new()));
    assert_eq!(room(&hub, "b"), Some(set(&[1])));
}

#[test]
fn disconnect_leaves_no_trace() {
    let mut hub = ClientWebSocketConnection::new();
    hub.register_session(1, "one");
    hub.register_session(2, "two");
    hub.handle_join(Join { id: 1, name: "side".to_string() });
    hub.handle_disconnect(Disconnect { id: 1 });
    assert_eq!(hub.session(1), None);
    assert_eq!(room(&hub, "side"), Some(HashSet::new()));
    assert_eq!(room(&hub, "main"), Some(set(&[2])));
}

#[test]
fn disconnect_of_unknown_id_changes_nothing() {
    let mut hub = ClientWebSocketConnection::new();
    hub.register_session(1, "one");
    hub.handle_join(Join { id: 9, name: "main".to_string() });
    hub.handle_disconnect(Disconnect { id: 9 });
    assert_eq!(room(&hub, "main"), Some(set(&[1, 9])));
}

#[test]
fn disconnect_undoes_connect() {
    let mut hub = ClientWebSocketConnection::new();
    hub.register_session(1, "one");
    let id = hub.handle_connect(Connect { addr: "new" }).ok().unwrap();
    hub.handle_disconnect(Disconnect { id });
    assert_eq!(hub.session(id), None);
    assert_eq!(hub.session(1), Some(&"one"));
    assert_eq!(room(&hub, "main"), Some(set(&[1])));
    assert_eq!(hub.handle_list_rooms(ListRooms), vec!["main".to_string()]);
}

#[test]
fn main_room_survives_every_event() {
    let mut hub = ClientWebSocketConnection::new();
    hub.register_session(1, "one");
    hub.handle_join(Join { id: 1, name: "x".to_string() });
    hub.handle_disconnect(Disconnect { id: 1 });
    hub.handle_listen(Listen { id: 2, key_prefix: "k".to_string() });
    assert!(room(&hub, "main").is_some());
}

#[test]
fn listen_keeps_earlier_listeners_of_a_prefix() {
    let mut hub: ClientWebSocketConnection<&'static str> = ClientWebSocketConnection::new();
    hub.handle_listen(Listen { id: 1, key_prefix: "messages:".to_string() });
    hub.handle_listen(Listen { id: 2, key_prefix: "messages:".to_string() });
    hub.handle_listen(Listen { id: 3, key_prefix: "other".to_string() });
    hub.handle_listen(Listen { id: 2, key_prefix: "messages:".to_string() });
    assert_eq!(hub.prefix_listners.members(&"messages:".to_string()).cloned(), Some(set(&[1, 2])));
    assert_eq!(hub.prefix_listners.members(&"other".to_string()).cloned(), Some(set(&[3])));
    assert_eq!(room(&hub, "main"), Some(HashSet::new()));
}

#[test]
fn join_tells_every_room_left_and_skips_unregistered_members() {
    let mut hub = ClientWebSocketConnection::new();
    hub.register_session(1, "one");
    hub.register_session(2, "two");
    hub.register_session(3, "three");
    // session 3 sits in two rooms; id 9 is a member without a session
    hub.rooms.add_member(&"side".to_string(), 3);
    hub.rooms.add_member(&"side".to_string(), 2);
    hub.rooms.add_member(&"side".to_string(), 9);
    let (mut left, joined) = hub.handle_join(Join { id: 3, name: "main".to_string() });
    left.sort_by(|a, b| a.room.cmp(&b.room));
    assert_eq!(left.len(), 2);
    assert_eq!(left[0].room, "main");
    assert_eq!(targets(&left[0].deliveries), set(&[1, 2]));
    assert_eq!(left[1].room, "side");
    assert_eq!(targets(&left[1].deliveries), set(&[2]));
    assert_eq!(targets(&joined), set(&[1, 2]));
    assert_eq!(room(&hub, "side"), Some(set(&[2, 9])));
    assert_eq!(room(&hub, "main"), Some(set(&[1, 2, 3])));
}

#[test]
fn join_from_no_room_tells_nobody_of_a_departure() {
    let mut hub = ClientWebSocketConnection::new();
    hub.register_session(1, "one");
    let (left, joined) = hub.handle_join(Join { id: 7, name: "main".to_string() });
    assert!(left.is_empty());
    assert_eq!(targets(&joined), set(&[1]));
}

#[test]
fn test_message_answers() {
    let hub: ClientWebSocketConnection<&'static str> = ClientWebSocketConnection::new();
    assert_eq!(hub.handle_test(Test {}), "That worked");
}

fn written(hub: &ClientWebSocketConnection<&'static str>, key: &str, value: &str) -> Vec<Delivery> {
    hub.handle_key_written(KeyWritten { key: key.to_string(), value: value.to_string() })
}

#[test]
fn key_write_reaches_the_listeners_of_its_prefixes() {
    let mut hub = ClientWebSocketConnection::new();
    hub.register_session(1, "one");
    hub.register_session(2, "two");
    hub.register_session(3, "three");
    hub.handle_listen(Listen { id: 1, key_prefix: "messages:room_name:".to_string() });
    hub.handle_listen(Listen { id: 2, key_prefix: "messages:".to_string() });
    hub.handle_listen(Listen { id: 1, key_prefix: "messages:".to_string() });
    hub.handle_listen(Listen { id: 3, key_prefix: "other".to_string() });
    let out = written(&hub, "messages:room_name:42", "hello there");
    assert_eq!(targets(&out), set(&[1, 2]));
    assert_eq!(out.len(), 2);
    assert!(out.iter().all(|d| d.message.0 == "messages%3Aroom_name%3A42=hello%20there"));
    let out = written(&hub, "messages:lobby:1", "x");
    assert_eq!(targets(&out), set(&[1, 2]));
    let out = written(&hub, "other", "=");
    assert_eq!(targets(&out), set(&[3]));
    assert_eq!(out[0].message.0, "other=%3D");
    assert!(written(&hub, "unrelated", "v").is_empty());
}

#[test]
fn key_write_skips_listeners_that_left() {
    let mut hub = ClientWebSocketConnection::new();
    hub.register_session(1, "one");
    hub.register_session(2, "two");
    hub.handle_listen(Listen { id: 1, key_prefix: "".to_string() });
    hub.handle_listen(Listen { id: 2, key_prefix: "k".to_string() });
    hub.handle_listen(Listen { id: 9, key_prefix: "k".to_string() });
    hub.handle_disconnect(Disconnect { id: 2 });
    let out = written(&hub, "key", "v");
    assert_eq!(targets(&out), set(&[1]));
    assert_eq!(out[0].message.0, "key=v");
}

#[test]
fn connect_refuses_an_id_already_taken() {
    let mut hub = ClientWebSocketConnection::new();
    assert!(matches!(hub.connect_as(4, "four"), Ok(4)));
    hub.handle_join(Join { id: 4, name: "side".to_string() });
    assert!(matches!(hub.connect_as(4, "again"), Err(ConnectError::IdTaken)));
    assert_eq!(hub.session(4), Some(&"four"));
    assert_eq!(room(&hub, "main"), Some(HashSet::new()));
    assert_eq!(room(&hub, "side"), Some(set(&[4])));
    assert!(matches!(hub.connect_as(5, "five"), Ok(5)));
    assert_eq!(room(&hub, "main"), Some(set(&[5])));
}
