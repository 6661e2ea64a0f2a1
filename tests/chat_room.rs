use wschat::chat::{parse_command, ChatRoom, Command, Delivery, DEFAULT_NAME};
use wschat::frame::{encode_text, get_text};

fn texts(ds: &[Delivery]) -> Vec<(u64, String)> {
    ds.iter().map(|d| (d.to, get_text(&d.frame).unwrap())).collect()
}

fn masked(text: &str) -> Vec<u8> {
    let key = [0x12u8, 0x34, 0x56, 0x78];
    let bytes = text.as_bytes();
    let mut frame = vec![0x81, 0x80 | bytes.len() as u8];
    frame.extend_from_slice(&key);
    for (i, b) in bytes.iter().enumerate() {
        frame.push(b ^ key[i % 4]);
    }
    frame
}

#[test]
fn join_announces_to_everyone() {
    let mut room = ChatRoom::new();
    let first = room.user_join(1, DEFAULT_NAME).unwrap();
    assert_eq!(texts(&first), vec![(1, "anonymous joined the chat.".to_string())]);
    let second = room.user_join(2, "bob").unwrap();
    assert_eq!(
        texts(&second),
        vec![(1, "bob joined the chat.".to_string()), (2, "bob joined the chat.".to_string())]
    );
}

#[test]
fn join_refuses_a_taken_identity() {
    let mut room = ChatRoom::new();
    room.user_join(5, "a").unwrap();
    assert!(room.user_join(5, "b").is_none());
    assert_eq!(room.name_of(5).unwrap(), "a");
}

#[test]
fn message_reaches_all_users_once() {
    let mut room = ChatRoom::new();
    for id in 1..=4u64 {
        room.user_join(id, DEFAULT_NAME).unwrap();
    }
    let out = room.receive(3, &masked("MSG hello")).unwrap();
    let expected: Vec<(u64, String)> = (1..=4u64).map(|id| (id, "anonymous: hello".to_string())).collect();
    assert_eq!(texts(&out), expected);
}

#[test]
fn rename_then_message() {
    let mut room = ChatRoom::new();
    room.user_join(1, DEFAULT_NAME).unwrap();
    room.user_join(2, DEFAULT_NAME).unwrap();
    let none = room.receive(1, &masked("REN Alice")).unwrap();
    assert!(none.is_empty());
    let out = room.receive(1, &encode_text("MSG hi")).unwrap();
    assert_eq!(texts(&out), vec![(1, "Alice: hi".to_string()), (2, "Alice: hi".to_string())]);
}

#[test]
fn zero_byte_read_removes_user() {
    let mut room = ChatRoom::new();
    room.user_join(1, "a").unwrap();
    room.user_join(2, "b").unwrap();
    assert!(room.receive(2, &[]).is_none());
    assert!(!room.contains(2));
    assert!(room.name_of(2).is_none());
    let out = room.receive(1, &masked("MSG still here")).unwrap();
    assert_eq!(texts(&out), vec![(1, "a: still here".to_string())]);
}

#[test]
fn short_and_unknown_requests_do_nothing() {
    let mut room = ChatRoom::new();
    room.user_join(1, "a").unwrap();
    assert!(room.receive(1, &masked("MSG")).unwrap().is_empty());
    assert!(room.receive(1, &masked("FOO bar")).unwrap().is_empty());
    assert!(room.receive(1, &[0x82, 0]).unwrap().is_empty());
    assert_eq!(room.name_of(1).unwrap(), "a");
}

#[test]
fn server_messages_have_no_prefix() {
    let mut room = ChatRoom::new();
    room.user_join(1, "a").unwrap();
    let out = room.post_server_message("maintenance at noon");
    assert_eq!(texts(&out), vec![(1, "maintenance at noon".to_string())]);
}

#[test]
fn unknown_sender_posts_nothing() {
    let mut room = ChatRoom::new();
    room.user_join(1, "a").unwrap();
    assert!(room.post_user_message(9, "hi").is_empty());
}

#[test]
fn dispatch_on_empty_log_delivers_nothing() {
    let mut room = ChatRoom::new();
    room.user_join(1, "a").unwrap();
    assert!(room.dispatch_messages().is_empty());
}

#[test]
fn leave_and_rename_of_unknown_user_change_nothing() {
    let mut room = ChatRoom::new();
    room.user_join(1, "a").unwrap();
    room.user_leave(2);
    room.user_rename(2, "zed");
    assert_eq!(room.name_of(1).unwrap(), "a");
    room.user_rename(1, "zed");
    assert_eq!(room.name_of(1).unwrap(), "zed");
}

#[test]
fn commands_are_parsed_by_characters() {
    assert!(matches!(parse_command("MSG hi"), Command::Post(t) if t == "hi"));
    assert!(matches!(parse_command("REN Zoë"), Command::Rename(t) if t == "Zoë"));
    assert!(matches!(parse_command("MSG:é"), Command::Post(t) if t == "é"));
    assert!(matches!(parse_command("MSG "), Command::Post(t) if t.is_empty()));
    assert!(matches!(parse_command("MSG"), Command::Ignored));
    assert!(matches!(parse_command("msg hi"), Command::Ignored));
}
