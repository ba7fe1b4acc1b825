use tinybase::actors::session_command::{parse_command, SessionCommand};

fn said(text: &str) -> bool {
    matches!(parse_command(text), SessionCommand::Say(t) if t == text)
}

#[test]
fn list_is_exact() {
    assert!(matches!(parse_command("/list"), SessionCommand::ListRooms));
    assert!(said("/list "));
    assert!(said("/lis"));
    assert!(said("/listx"));
}

#[test]
fn join_takes_the_rest_as_the_room() {
    assert!(matches!(parse_command("/join lobby"), SessionCommand::Join(r) if r == "lobby"));
    assert!(matches!(parse_command("/join  two words"), SessionCommand::Join(r) if r == " two words"));
    assert!(matches!(parse_command("/join "), SessionCommand::Join(r) if r.is_empty()));
    assert!(said("/join"));
}

#[test]
fn listen_takes_the_rest_as_the_prefix() {
    assert!(matches!(parse_command("/listen messages:room:"), SessionCommand::Listen(p) if p == "messages:room:"));
    assert!(matches!(parse_command("/listen ключ"), SessionCommand::Listen(p) if p == "ключ"));
    assert!(said("/listen"));
}

#[test]
fn other_text_is_said() {
    assert!(said("hello"));
    assert!(said(""));
    assert!(said(" /join x"));
    assert!(said("/JOIN x"));
}
