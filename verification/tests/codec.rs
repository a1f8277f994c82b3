use chatwire::protocol::{MessageType, ProtocolMessage};

fn msg(message_type: MessageType) -> ProtocolMessage {
    ProtocolMessage {
        id: "id-1".to_string(),
        message_type,
        timestamp: "2024-01-26T18:30:09+00:00".to_string(),
    }
}

fn round_trip(message_type: MessageType) -> ProtocolMessage {
    let m = msg(message_type);
    let frame = m.to_json();
    let back = ProtocolMessage::from_json(&frame).expect("canonical frame must decode");
    assert_eq!(back.id, m.id);
    assert_eq!(back.timestamp, m.timestamp);
    back
}

#[test]
fn ping_frame_text_is_exact() {
    let m = msg(MessageType::Ping);
    assert_eq!(
        m.to_json(),
        "{\"id\":\"id-1\",\"message_type\":{\"type\":\"Ping\"},\"timestamp\":\"2024-01-26T18:30:09+00:00\"}"
    );
}

#[test]
fn register_frame_text_is_exact() {
    let m = msg(MessageType::Register { username: "nina".to_string() });
    assert_eq!(
        m.to_json(),
        "{\"id\":\"id-1\",\"message_type\":{\"type\":\"Register\",\"username\":\"nina\"},\"timestamp\":\"2024-01-26T18:30:09+00:00\"}"
    );
}

#[test]
fn user_list_frame_text_is_exact() {
    let m = msg(MessageType::UserList {
        users: vec!["nina".to_string(), "leo".to_string()],
    });
    assert_eq!(
        m.to_json(),
        "{\"id\":\"id-1\",\"message_type\":{\"type\":\"UserList\",\"users\":[\"nina\",\"leo\"]},\"timestamp\":\"2024-01-26T18:30:09+00:00\"}"
    );
}

#[test]
fn round_trip_register() {
    let back = round_trip(MessageType::Register { username: "nina".to_string() });
    match back.message_type {
        MessageType::Register { username } => assert_eq!(username, "nina"),
        _ => panic!("wrong variant"),
    }
}

#[test]
fn round_trip_send_message_with_escapes() {
    let wild = "say \"hi\"\\now\nline\ttab\rret".to_string();
    let back = round_trip(MessageType::SendMessage { content: wild.clone() });
    match back.message_type {
        MessageType::SendMessage { content } => assert_eq!(content, wild),
        _ => panic!("wrong variant"),
    }
}

#[test]
fn round_trip_keeps_unicode_text() {
    let text = "héllo wörld ".to_string();
    let back = round_trip(MessageType::Error { message: text.clone() });
    match back.message_type {
        MessageType::Error { message } => assert_eq!(message, text),
        _ => panic!("wrong variant"),
    }
}

#[test]
fn frame_has_no_raw_newline() {
    let m = msg(MessageType::SendMessage { content: "a\nb".to_string() });
    let frame = m.to_json();
    assert!(!frame.contains('\n'));
}

#[test]
fn round_trip_message_received() {
    let back = round_trip(MessageType::MessageReceived {
        from: "bob".to_string(),
        content: "hi".to_string(),
        timestamp: "2024-01-26T18:30:09+00:00".to_string(),
    });
    match back.message_type {
        MessageType::MessageReceived { from, content, timestamp } => {
            assert_eq!(from, "bob");
            assert_eq!(content, "hi");
            assert_eq!(timestamp, "2024-01-26T18:30:09+00:00");
        }
        _ => panic!("wrong variant"),
    }
}

#[test]
fn round_trip_user_lists() {
    let back = round_trip(MessageType::UserList { users: vec![] });
    match back.message_type {
        MessageType::UserList { users } => assert!(users.is_empty()),
        _ => panic!("wrong variant"),
    }
    let back = round_trip(MessageType::UserList {
        users: vec!["a".to_string(), "b c".to_string(), "d\"e".to_string()],
    });
    match back.message_type {
        MessageType::UserList { users } => {
            assert_eq!(users, vec!["a".to_string(), "b c".to_string(), "d\"e".to_string()])
        }
        _ => panic!("wrong variant"),
    }
}

#[test]
fn round_trip_fieldless_and_tagged() {
    for mt in [
        MessageType::ListUsers,
        MessageType::Disconnect,
        MessageType::Ping,
        MessageType::Pong,
    ] {
        let back = round_trip(mt);
        match back.message_type {
            MessageType::ListUsers
            | MessageType::Disconnect
            | MessageType::Ping
            | MessageType::Pong => {}
            _ => panic!("wrong variant"),
        }
    }
    round_trip(MessageType::RegisterSuccess { user_id: "17".to_string() });
    round_trip(MessageType::RegisterError { reason: "username already taken".to_string() });
    round_trip(MessageType::UserJoined { username: "nina".to_string() });
    round_trip(MessageType::UserLeft { username: "nina".to_string() });
}

#[test]
fn malformed_inputs_are_rejected_not_fatal() {
    let cases: Vec<String> = vec![
        "".to_string(),
        "garbage".to_string(),
        "{".to_string(),
        "{\"id\":".to_string(),
        "{\"id\":\"x".to_string(),
        "{\"id\":\"x\",\"message_type\":{\"type\":\"Nope\"},\"timestamp\":\"t\"}".to_string(),
        "{\"id\":\"x\",\"message_type\":{\"type\":\"Ping\"},\"timestamp\":\"t\"".to_string(),
        "{\"id\":\"x\",\"message_type\":{\"type\":\"Ping\"},\"timestamp\":\"t\"}junk".to_string(),
        "{\"id\":\"x\",\"message_type\":{\"type\":\"Register\"},\"timestamp\":\"t\"}".to_string(),
        "\u{0}\u{1}\u{2}".to_string(),
        "{\"id\":\"\\q\",\"message_type\":{\"type\":\"Ping\"},\"timestamp\":\"t\"}".to_string(),
    ];
    for case in cases {
        assert!(ProtocolMessage::from_json(&case).is_err(), "accepted: {case}");
    }
    // Arbitrary byte strings that still form UTF-8 text.
    let mut torture = String::new();
    for i in 0..512u32 {
        if let Some(c) = char::from_u32(i) {
            torture.push(c);
        }
    }
    assert!(ProtocolMessage::from_json(&torture).is_err());
}

#[test]
fn truncations_of_a_valid_frame_are_rejected() {
    let m = msg(MessageType::Register { username: "nina".to_string() });
    let frame = m.to_json();
    for cut in 0..frame.len() {
        if frame.is_char_boundary(cut) {
            let prefix = &frame[..cut];
            assert!(ProtocolMessage::from_json(prefix).is_err());
        }
    }
}

#[test]
fn fresh_messages_carry_token_and_timestamp() {
    let m = ProtocolMessage::new(MessageType::Ping);
    assert_eq!(m.id.len(), 36);
    let n = ProtocolMessage::new(MessageType::Ping);
    assert_ne!(m.id, n.id);
    let back = ProtocolMessage::from_json(&m.to_json()).expect("fresh message must round-trip");
    assert_eq!(back.id, m.id);
    assert_eq!(back.timestamp, m.timestamp);
}

#[test]
fn frame_ends_with_its_only_newline() {
    let m = msg(MessageType::SendMessage { content: "a\nb".to_string() });
    let frame = m.to_frame();
    assert!(frame.ends_with('\n'));
    assert_eq!(frame.matches('\n').count(), 1);
    assert_eq!(&frame[..frame.len() - 1], m.to_json());
}
