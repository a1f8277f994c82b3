//! The chat protocol's message types and session states.

use vstd::prelude::*;

verus! {

/// The tagged variants carried by the wire envelope.
pub enum MessageType {
    Register { username: String },
    SendMessage { content: String },
    ListUsers,
    Disconnect,
    RegisterSuccess { user_id: String },
    RegisterError { reason: String },
    MessageReceived { from: String, content: String, timestamp: String },
    UserList { users: Vec<String> },
    UserJoined { username: String },
    UserLeft { username: String },
    Error { message: String },
    Ping,
    Pong,
}

/// The mathematical model of a [`MessageType`].
#[verifier::ext_equal]
pub ghost enum MessageTypeView {
    Register { username: Seq<char> },
    SendMessage { content: Seq<char> },
    ListUsers,
    Disconnect,
    RegisterSuccess { user_id: Seq<char> },
    RegisterError { reason: Seq<char> },
    MessageReceived { from: Seq<char>, content: Seq<char>, timestamp: Seq<char> },
    UserList { users: Seq<Seq<char>> },
    UserJoined { username: Seq<char> },
    UserLeft { username: Seq<char> },
    Error { message: Seq<char> },
    Ping,
    Pong,
}

impl View for MessageType {
    type V = MessageTypeView;

    open spec fn view(&self) -> MessageTypeView {
        match self {
            MessageType::Register { username } => MessageTypeView::Register {
                username: username@,
            },
            MessageType::SendMessage { content } => MessageTypeView::SendMessage {
                content: content@,
            },
            MessageType::ListUsers => MessageTypeView::ListUsers,
            MessageType::Disconnect => MessageTypeView::Disconnect,
            MessageType::RegisterSuccess { user_id } => MessageTypeView::RegisterSuccess {
                user_id: user_id@,
            },
            MessageType::RegisterError { reason } => MessageTypeView::RegisterError {
                reason: reason@,
            },
            MessageType::MessageReceived { from, content, timestamp } => {
                MessageTypeView::MessageReceived {
                    from: from@,
                    content: content@,
                    timestamp: timestamp@,
                }
            },
            MessageType::UserList { users } => MessageTypeView::UserList {
                users: users.deep_view(),
            },
            MessageType::UserJoined { username } => MessageTypeView::UserJoined {
                username: username@,
            },
            MessageType::UserLeft { username } => MessageTypeView::UserLeft {
                username: username@,
            },
            MessageType::Error { message } => MessageTypeView::Error { message: message@ },
            MessageType::Ping => MessageTypeView::Ping,
            MessageType::Pong => MessageTypeView::Pong,
        }
    }
}

impl DeepView for MessageType {
    type V = MessageTypeView;

    open spec fn deep_view(&self) -> MessageTypeView {
        self.view()
    }
}

impl Clone for MessageType {
    /// A clone carries the same payload.
    fn clone(&self) -> (r: Self)
        ensures
            r@ == self@,
    {
        match self {
            MessageType::Register { username } => MessageType::Register {
                username: username.clone(),
            },
            MessageType::SendMessage { content } => MessageType::SendMessage {
                content: content.clone(),
            },
            MessageType::ListUsers => MessageType::ListUsers,
            MessageType::Disconnect => MessageType::Disconnect,
            MessageType::RegisterSuccess { user_id } => MessageType::RegisterSuccess {
                user_id: user_id.clone(),
            },
            MessageType::RegisterError { reason } => MessageType::RegisterError {
                reason: reason.clone(),
            },
            MessageType::MessageReceived { from, content, timestamp } => {
                MessageType::MessageReceived {
                    from: from.clone(),
                    content: content.clone(),
                    timestamp: timestamp.clone(),
                }
            },
            MessageType::UserList { users } => MessageType::UserList {
                users: crate::text::clone_strings(users),
            },
            MessageType::UserJoined { username } => MessageType::UserJoined {
                username: username.clone(),
            },
            MessageType::UserLeft { username } => MessageType::UserLeft {
                username: username.clone(),
            },
            MessageType::Error { message } => MessageType::Error { message: message.clone() },
            MessageType::Ping => MessageType::Ping,
            MessageType::Pong => MessageType::Pong,
        }
    }
}

/// One unit of wire transfer and of broadcast distribution.
pub struct ProtocolMessage {
    /// Unique token for this message.
    pub id: String,
    /// The tagged payload.
    pub message_type: MessageType,
    /// Creation instant, as an RFC 3339 text timestamp.
    pub timestamp: String,
}

/// The mathematical model of a [`ProtocolMessage`].
#[verifier::ext_equal]
pub ghost struct ProtocolMessageView {
    pub id: Seq<char>,
    pub message_type: MessageTypeView,
    pub timestamp: Seq<char>,
}

impl View for ProtocolMessage {
    type V = ProtocolMessageView;

    open spec fn view(&self) -> ProtocolMessageView {
        ProtocolMessageView {
            id: self.id@,
            message_type: self.message_type@,
            timestamp: self.timestamp@,
        }
    }
}

impl DeepView for ProtocolMessage {
    type V = ProtocolMessageView;

    open spec fn deep_view(&self) -> ProtocolMessageView {
        self.view()
    }
}

impl Clone for ProtocolMessage {
    /// A clone carries the same id, payload and timestamp.
    fn clone(&self) -> (r: Self)
        ensures
            r@ == self@,
    {
        ProtocolMessage {
            id: self.id.clone(),
            message_type: self.message_type.clone(),
            timestamp: self.timestamp.clone(),
        }
    }
}

/// Relies on `uuid::Uuid::new_v4` and the `Display` impl of `uuid::Uuid`: a
/// fresh random version-4 token rendered in the 36-character hyphenated form.
/// The value depends on a random number generator, so nothing more is claimed.
#[verifier::external_body]
pub fn fresh_token() -> (r: String)
    ensures
        r@.len() == 36,
{
    uuid::Uuid::new_v4().to_string()
}

/// Relies on `chrono::Utc::now` and `chrono::DateTime::to_rfc3339`: the
/// current instant as an RFC 3339 string. The value depends on the clock, so
/// nothing is claimed about it.
#[verifier::external_body]
pub fn now_rfc3339() -> (r: String) {
    chrono::Utc::now().to_rfc3339()
}

impl ProtocolMessage {
    /// Wraps a payload in an envelope with a fresh id and the current instant.
    pub fn new(message_type: MessageType) -> (r: ProtocolMessage)
        ensures
            r.message_type == message_type,
            r.id@.len() == 36,
    {
        ProtocolMessage { id: fresh_token(), message_type, timestamp: now_rfc3339() }
    }

    /// A fresh envelope around an `Error` payload.
    pub fn error(message: String) -> (r: ProtocolMessage)
        ensures
            r@.message_type == (MessageTypeView::Error { message: message@ }),
    {
        ProtocolMessage::new(MessageType::Error { message })
    }

    /// A fresh envelope around a `Ping` payload.
    pub fn ping() -> (r: ProtocolMessage)
        ensures
            r@.message_type == MessageTypeView::Ping,
    {
        ProtocolMessage::new(MessageType::Ping)
    }

    /// A fresh envelope around a `Pong` payload.
    pub fn pong() -> (r: ProtocolMessage)
        ensures
            r@.message_type == MessageTypeView::Pong,
    {
        ProtocolMessage::new(MessageType::Pong)
    }
}

/// The state of one connection's session, owned by its handler.
pub enum SessionState {
    /// Socket open, no name bound yet.
    Connected,
    /// A name is bound to this connection.
    Authenticated(String),
    /// Terminal.
    Disconnected,
}

/// The mathematical model of a [`SessionState`].
#[verifier::ext_equal]
pub ghost enum SessionStateView {
    Connected,
    Authenticated(Seq<char>),
    Disconnected,
}

impl View for SessionState {
    type V = SessionStateView;

    open spec fn view(&self) -> SessionStateView {
        match self {
            SessionState::Connected => SessionStateView::Connected,
            SessionState::Authenticated(name) => SessionStateView::Authenticated(name@),
            SessionState::Disconnected => SessionStateView::Disconnected,
        }
    }
}

impl Clone for SessionState {
    /// A clone carries the same state and name.
    fn clone(&self) -> (r: Self)
        ensures
            r@ == self@,
    {
        match self {
            SessionState::Connected => SessionState::Connected,
            SessionState::Authenticated(name) => SessionState::Authenticated(name.clone()),
            SessionState::Disconnected => SessionState::Disconnected,
        }
    }
}

/// Decoding a frame failed; the input was not a canonical encoding.
#[derive(Debug)]
pub enum DecodeError {
    Malformed,
}

/// The protocol-level failures that the registry and handlers report.
#[derive(Debug)]
pub enum ProtocolError {
    UsernameExists(String),
    NotAuthenticated,
    InvalidMessage(String),
    SessionClosed,
}

} // verus!
