use chatwire::channel::Channel;
use chatwire::client::{parse_command, render_server_message, ChatClient, ClientState, Command};
use chatwire::protocol::{MessageType, ProtocolMessage, SessionState};
use chatwire::server::{handle_message, ServerState};
use chatwire::text::u64_to_string;

fn send(
    state: &mut ServerState,
    session: &mut SessionState,
    user_id: &mut Option<u64>,
    mt: MessageType,
) -> Option<ProtocolMessage> {
    handle_message(ProtocolMessage::new(mt), session, user_id, state)
}

#[test]
fn register_is_unique_per_name() {
    let mut state = ServerState::new();
    let first = state.register_user("alice".to_string());
    assert_eq!(first.ok(), Some(1));
    let second = state.register_user("alice".to_string());
    assert!(second.is_err());
    let third = state.register_user("bob".to_string());
    assert_eq!(third.ok(), Some(2));
    assert_eq!(state.get_user_list(), vec!["alice".to_string(), "bob".to_string()]);
}

#[test]
fn join_then_leave_restores_the_table_and_publishes_in_order() {
    let mut state = ServerState::new();
    let mut cursor = state.subscribe();
    let id = state.register_user("alice".to_string()).expect("name was free");
    state.remove_user(id);
    assert!(state.get_user_list().is_empty());
    let joined = state.recv_next(&mut cursor).expect("a join was published");
    match joined.message_type {
        MessageType::UserJoined { username } => assert_eq!(username, "alice"),
        _ => panic!("expected the join first"),
    }
    let left = state.recv_next(&mut cursor).expect("a leave was published");
    match left.message_type {
        MessageType::UserLeft { username } => assert_eq!(username, "alice"),
        _ => panic!("expected the leave second"),
    }
    assert!(state.recv_next(&mut cursor).is_none());
}

#[test]
fn remove_of_unknown_id_is_a_no_op() {
    let mut state = ServerState::new();
    let mut cursor = state.subscribe();
    state.register_user("alice".to_string()).expect("name was free");
    state.recv_next(&mut cursor).expect("join published");
    state.remove_user(99);
    assert!(state.recv_next(&mut cursor).is_none());
    assert_eq!(state.get_user_list(), vec!["alice".to_string()]);
}

#[test]
fn broadcast_reaches_every_subscriber_exactly_once() {
    let mut state = ServerState::new();
    let mut a = state.subscribe();
    let mut b = state.subscribe();
    state.broadcast_message("bob".to_string(), "hi".to_string());
    for cursor in [&mut a, &mut b] {
        let m = state.recv_next(cursor).expect("every subscriber gets the broadcast");
        match m.message_type {
            MessageType::MessageReceived { from, content, .. } => {
                assert_eq!(from, "bob");
                assert_eq!(content, "hi");
            }
            _ => panic!("expected the chat message"),
        }
        assert!(state.recv_next(cursor).is_none(), "and gets it only once");
    }
}

#[test]
fn late_subscriber_sees_nothing_from_before() {
    let mut state = ServerState::new();
    state.broadcast_message("bob".to_string(), "early".to_string());
    let mut late = state.subscribe();
    assert!(state.recv_next(&mut late).is_none());
    state.broadcast_message("bob".to_string(), "later".to_string());
    let m = state.recv_next(&mut late).expect("only the later message arrives");
    match m.message_type {
        MessageType::MessageReceived { content, .. } => assert_eq!(content, "later"),
        _ => panic!("expected the chat message"),
    }
}

#[test]
fn slow_subscriber_loses_oldest_not_newest() {
    let mut channel = Channel::new(2);
    let mut cursor = channel.subscribe();
    for text in ["one", "two", "three"] {
        channel.publish(ProtocolMessage::new(MessageType::Error {
            message: text.to_string(),
        }));
    }
    let first = channel.try_recv(&mut cursor).expect("something is retained");
    match first.message_type {
        MessageType::Error { message } => assert_eq!(message, "two"),
        _ => panic!("expected the second publish"),
    }
    let second = channel.try_recv(&mut cursor).expect("the newest is retained");
    match second.message_type {
        MessageType::Error { message } => assert_eq!(message, "three"),
        _ => panic!("expected the third publish"),
    }
    assert!(channel.try_recv(&mut cursor).is_none());
}

#[test]
fn unauthenticated_send_is_refused_without_state_change() {
    let mut state = ServerState::new();
    let mut cursor = state.subscribe();
    let mut session = SessionState::Connected;
    let mut user_id: Option<u64> = None;
    let reply = send(
        &mut state,
        &mut session,
        &mut user_id,
        MessageType::SendMessage { content: "hi".to_string() },
    );
    match reply.expect("a refusal comes back").message_type {
        MessageType::Error { message } => assert_eq!(message, "not authenticated"),
        _ => panic!("expected an error reply"),
    }
    assert!(state.recv_next(&mut cursor).is_none(), "nothing was broadcast");
    assert!(state.get_user_list().is_empty());
    assert!(user_id.is_none());
    assert!(matches!(session, SessionState::Connected));
}

#[test]
fn second_register_on_a_session_is_refused() {
    let mut state = ServerState::new();
    let mut session = SessionState::Connected;
    let mut user_id: Option<u64> = None;
    send(
        &mut state,
        &mut session,
        &mut user_id,
        MessageType::Register { username: "nina".to_string() },
    );
    let reply = send(
        &mut state,
        &mut session,
        &mut user_id,
        MessageType::Register { username: "other".to_string() },
    );
    match reply.expect("a refusal comes back").message_type {
        MessageType::Error { message } => assert_eq!(message, "already authenticated"),
        _ => panic!("expected an error reply"),
    }
    assert_eq!(state.get_user_list(), vec!["nina".to_string()]);
}

#[test]
fn ping_gets_pong_and_wrong_direction_gets_error() {
    let mut state = ServerState::new();
    let mut session = SessionState::Connected;
    let mut user_id: Option<u64> = None;
    let pong = send(&mut state, &mut session, &mut user_id, MessageType::Ping);
    assert!(matches!(pong.unwrap().message_type, MessageType::Pong));
    let bad = send(
        &mut state,
        &mut session,
        &mut user_id,
        MessageType::RegisterSuccess { user_id: "1".to_string() },
    );
    match bad.expect("a refusal comes back").message_type {
        MessageType::Error { message } => assert_eq!(message, "unsupported message type"),
        _ => panic!("expected an error reply"),
    }
}

#[test]
fn disconnect_ends_the_session_silently() {
    let mut state = ServerState::new();
    let mut session = SessionState::Connected;
    let mut user_id: Option<u64> = None;
    let reply = send(&mut state, &mut session, &mut user_id, MessageType::Disconnect);
    assert!(reply.is_none());
    assert!(matches!(session, SessionState::Disconnected));
}

#[test]
fn two_clients_full_session() {
    let mut state = ServerState::new();

    // Client A connects and subscribes.
    let mut a_session = SessionState::Connected;
    let mut a_id: Option<u64> = None;
    let mut a_cursor = state.subscribe();

    // A registers as nina and gets its id back.
    let reply = send(
        &mut state,
        &mut a_session,
        &mut a_id,
        MessageType::Register { username: "nina".to_string() },
    );
    match reply.expect("a reply comes back").message_type {
        MessageType::RegisterSuccess { user_id } => assert_eq!(user_id, "1"),
        _ => panic!("expected success"),
    }

    // Client B connects and subscribes after nina's join.
    let mut b_session = SessionState::Connected;
    let mut b_id: Option<u64> = None;
    let mut b_cursor = state.subscribe();

    // B tries nina too and is refused.
    let reply = send(
        &mut state,
        &mut b_session,
        &mut b_id,
        MessageType::Register { username: "nina".to_string() },
    );
    match reply.expect("a reply comes back").message_type {
        MessageType::RegisterError { reason } => assert_eq!(reason, "username already taken"),
        _ => panic!("expected a registration error"),
    }
    assert!(matches!(b_session, SessionState::Connected));

    // B registers as leo instead.
    let reply = send(
        &mut state,
        &mut b_session,
        &mut b_id,
        MessageType::Register { username: "leo".to_string() },
    );
    match reply.expect("a reply comes back").message_type {
        MessageType::RegisterSuccess { user_id } => assert_eq!(user_id, "2"),
        _ => panic!("expected success"),
    }

    // A says hello; both subscriptions carry it.
    let reply = send(
        &mut state,
        &mut a_session,
        &mut a_id,
        MessageType::SendMessage { content: "hello".to_string() },
    );
    assert!(reply.is_none(), "a broadcast gets no direct reply");
    let mut seen: usize = 0;
    for cursor in [&mut a_cursor, &mut b_cursor] {
        loop {
            match state.recv_next(cursor) {
                Some(m) => match m.message_type {
                    MessageType::MessageReceived { from, content, .. } => {
                        assert_eq!(from, "nina");
                        assert_eq!(content, "hello");
                        seen += 1;
                    }
                    MessageType::UserJoined { .. } => {}
                    _ => panic!("unexpected broadcast"),
                },
                None => break,
            }
        }
    }
    assert_eq!(seen, 2, "each subscriber saw the chat message exactly once");

    // B asks for the user list.
    let reply = send(&mut state, &mut b_session, &mut b_id, MessageType::ListUsers);
    match reply.expect("a reply comes back").message_type {
        MessageType::UserList { mut users } => {
            users.sort();
            assert_eq!(users, vec!["leo".to_string(), "nina".to_string()]);
        }
        _ => panic!("expected the user list"),
    }

    // A disconnects; its handler cleans up; B sees nina leave.
    let reply = send(&mut state, &mut a_session, &mut a_id, MessageType::Disconnect);
    assert!(reply.is_none());
    state.remove_user(a_id.expect("a was bound"));
    let m = state.recv_next(&mut b_cursor).expect("the leave was published");
    match m.message_type {
        MessageType::UserLeft { username } => assert_eq!(username, "nina"),
        _ => panic!("expected the leave"),
    }
    assert_eq!(state.get_user_list(), vec!["leo".to_string()]);
}

#[test]
fn client_state_tracks_identity() {
    let state = ClientState::new();
    assert!(!state.is_authenticated());
    assert!(!state.connected);
    let mut client = ChatClient::new();
    assert!(!client.state.is_authenticated());
    client.state.username = Some("nina".to_string());
    assert!(!client.state.is_authenticated());
    client.state.user_id = Some("1".to_string());
    assert!(client.state.is_authenticated());
}

#[test]
fn commands_parse_as_typed() {
    assert!(matches!(parse_command(""), Command::Empty));
    match parse_command("/register nina") {
        Command::Register(name) => assert_eq!(name, "nina"),
        _ => panic!("expected a register command"),
    }
    assert!(matches!(parse_command("/register"), Command::RegisterUsage));
    assert!(matches!(parse_command("/users"), Command::Users));
    assert!(matches!(parse_command("/quit"), Command::Quit));
    match parse_command("/frobnicate now") {
        Command::Unknown(cmd) => assert_eq!(cmd, "/frobnicate"),
        _ => panic!("expected an unknown command"),
    }
    match parse_command("hello everyone") {
        Command::Say(text) => assert_eq!(text, "hello everyone"),
        _ => panic!("expected chat text"),
    }
    match parse_command("/register name with spaces") {
        Command::Register(name) => assert_eq!(name, "name with spaces"),
        _ => panic!("expected a register command"),
    }
}

#[test]
fn rendering_shows_the_clock_and_the_list() {
    let m = ProtocolMessage {
        id: "i".to_string(),
        message_type: MessageType::MessageReceived {
            from: "bob".to_string(),
            content: "hi".to_string(),
            timestamp: "2024-01-26T18:30:09+00:00".to_string(),
        },
        timestamp: "t".to_string(),
    };
    assert_eq!(render_server_message(&m), "[18:30:09] bob: hi");
    let m = ProtocolMessage {
        id: "i".to_string(),
        message_type: MessageType::UserList {
            users: vec!["nina".to_string(), "leo".to_string()],
        },
        timestamp: "t".to_string(),
    };
    assert_eq!(render_server_message(&m), "connected users (2)\n  - nina\n  - leo");
    let m = ProtocolMessage {
        id: "i".to_string(),
        message_type: MessageType::UserJoined { username: "leo".to_string() },
        timestamp: "t".to_string(),
    };
    assert_eq!(render_server_message(&m), "leo joined the chat");
}

#[test]
fn decimal_rendering_is_exact() {
    assert_eq!(u64_to_string(0), "0");
    assert_eq!(u64_to_string(7), "7");
    assert_eq!(u64_to_string(1234567890), "1234567890");
    assert_eq!(u64_to_string(u64::MAX), "18446744073709551615");
}
