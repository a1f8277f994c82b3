//! The chat client's session state, command parsing and message rendering.
//!
//! The socket loops live in the surrounding program; everything the client
//! decides — what a line of user input means, and what text a server message
//! is shown as — is here.

use vstd::prelude::*;

use crate::protocol::{MessageTypeView, ProtocolMessage};
use crate::text::{spec_decimal, str_eq, u64_to_string};

verus! {

/// What the client knows about its own session.
pub struct ClientState {
    /// The name this client registered under, once accepted.
    pub username: Option<String>,
    /// The id the server handed back on registration.
    pub user_id: Option<String>,
    /// Whether the transport is up.
    pub connected: bool,
}

impl ClientState {
    /// A fresh, unconnected, unnamed state.
    pub fn new() -> (r: ClientState)
        ensures
            r.username is None,
            r.user_id is None,
            !r.connected,
    {
        ClientState { username: None, user_id: None, connected: false }
    }

    /// Whether this client holds a registered identity.
    pub fn is_authenticated(&self) -> (r: bool)
        ensures
            r == (self.username is Some && self.user_id is Some),
    {
        self.username.is_some() && self.user_id.is_some()
    }
}

/// The chat client: its session state; the sockets live with the caller,
/// which also records the identity the server hands back.
pub struct ChatClient {
    pub state: ClientState,
}

impl ChatClient {
    /// A client that has not connected yet.
    pub fn new() -> (r: ChatClient)
        ensures
            r.state.username is None,
            r.state.user_id is None,
            !r.state.connected,
    {
        ChatClient { state: ClientState::new() }
    }
}

/// What one line of user input asks for.
pub enum Command {
    /// `/register <name>`: ask the server for this name.
    Register(String),
    /// `/register` with no name: show its usage.
    RegisterUsage,
    /// `/users`: ask for the user list.
    Users,
    /// `/quit`: leave.
    Quit,
    /// An unrecognised `/` command, carried for the error text.
    Unknown(String),
    /// Plain text: say it (once registered).
    Say(String),
    /// Nothing was typed.
    Empty,
}

/// The index of the first space at or after `i`, or the length.
pub open spec fn first_space_from(s: Seq<char>, i: int) -> int
    decreases s.len() - i,
{
    if i < 0 || i >= s.len() {
        s.len() as int
    } else if s[i] == ' ' {
        i
    } else {
        first_space_from(s, i + 1)
    }
}

fn find_space(s: &str) -> (r: usize)
    ensures
        r as int == first_space_from(s@, 0),
        r <= s@.len(),
    decreases s@.len(),
{
    proof {
        lemma_first_space_bounds(s@, 0);
    }
    let len = s.unicode_len();
    let mut i: usize = 0;
    while i < len
        invariant
            0 <= i <= len,
            len == s@.len(),
            first_space_from(s@, 0) == first_space_from(s@, i as int),
        decreases len - i,
    {
        if s.get_char(i) == ' ' {
            return i;
        }
        i += 1;
    }
    len
}

proof fn lemma_first_space_bounds(s: Seq<char>, i: int)
    requires
        0 <= i <= s.len(),
    ensures
        i <= first_space_from(s, i) <= s.len(),
    decreases s.len() - i,
{
    if i < s.len() && s[i] != ' ' {
        lemma_first_space_bounds(s, i + 1);
    }
}

/// Reads one trimmed line of user input: a leading `/` makes it a command,
/// anything else is chat text.
pub fn parse_command(input: &str) -> (r: Command)
    ensures
        ({
            let s = input@;
            let sp = first_space_from(s, 0);
            match r {
                Command::Empty => s.len() == 0,
                Command::Say(t) => s.len() > 0 && s[0] != '/' && t@ == s,
                Command::Register(u) => s.len() > 0 && s[0] == '/' && s.subrange(0, sp)
                    == "/register"@ && sp < s.len() && u@ == s.subrange(sp + 1, s.len() as int),
                Command::RegisterUsage => s.len() > 0 && s[0] == '/' && s.subrange(0, sp)
                    == "/register"@ && sp == s.len(),
                Command::Users => s.len() > 0 && s[0] == '/' && s.subrange(0, sp) == "/users"@,
                Command::Quit => s.len() > 0 && s[0] == '/' && s.subrange(0, sp) == "/quit"@,
                Command::Unknown(c) => s.len() > 0 && s[0] == '/' && c@ == s.subrange(0, sp)
                    && c@ != "/register"@ && c@ != "/users"@ && c@ != "/quit"@,
            }
        }),
{
    let len = input.unicode_len();
    if len == 0 {
        return Command::Empty;
    }
    if input.get_char(0) != '/' {
        return Command::Say(input.to_owned());
    }
    let sp = find_space(input);
    let cmd = input.substring_char(0, sp);
    if str_eq(cmd, "/register") {
        if sp < len {
            let name = input.substring_char(sp + 1, len);
            Command::Register(name.to_owned())
        } else {
            Command::RegisterUsage
        }
    } else if str_eq(cmd, "/users") {
        Command::Users
    } else if str_eq(cmd, "/quit") {
        Command::Quit
    } else {
        Command::Unknown(cmd.to_owned())
    }
}

/// The clock part of an RFC 3339 timestamp, or the whole text where it is
/// too short to carry one.
pub open spec fn clock_of(ts: Seq<char>) -> Seq<char> {
    if ts.len() >= 19 {
        ts.subrange(11, 19)
    } else {
        ts
    }
}

/// One line per listed user.
pub open spec fn user_lines(us: Seq<Seq<char>>) -> Seq<char>
    decreases us.len(),
{
    if us.len() == 0 {
        Seq::empty()
    } else {
        "\n  - "@ + (us[0] + user_lines(us.drop_first()))
    }
}

/// The text a server message is shown as.
pub open spec fn spec_render(m: crate::protocol::ProtocolMessageView) -> Seq<char> {
    match m.message_type {
        MessageTypeView::RegisterSuccess { user_id } => "registered with id "@ + user_id,
        MessageTypeView::RegisterError { reason } => "registration failed: "@ + reason,
        MessageTypeView::MessageReceived { from, content, timestamp } => "["@ + (clock_of(
            timestamp,
        ) + ("] "@ + (from + (": "@ + content)))),
        MessageTypeView::UserList { users } => "connected users ("@ + (spec_decimal(
            users.len(),
        ) + (")"@ + user_lines(users))),
        MessageTypeView::UserJoined { username } => username + " joined the chat"@,
        MessageTypeView::UserLeft { username } => username + " left the chat"@,
        MessageTypeView::Error { message } => "error: "@ + message,
        MessageTypeView::Pong => "pong received"@,
        _ => "unhandled message"@,
    }
}

/// Unrolls one step of [`user_lines`] along a suffix of the names.
proof fn lemma_user_lines_step(us: Seq<Seq<char>>, i: int)
    requires
        0 <= i < us.len(),
    ensures
        user_lines(us.subrange(i, us.len() as int)) == "\n  - "@ + (us[i] + user_lines(
            us.subrange(i + 1, us.len() as int),
        )),
{
    let sub = us.subrange(i, us.len() as int);
    assert(sub.len() > 0);
    assert(sub[0] == us[i]);
    assert(sub.drop_first() =~= us.subrange(i + 1, us.len() as int));
}

/// Renders a server-to-client message as the line the user sees.
pub fn render_server_message(m: &ProtocolMessage) -> (r: String)
    ensures
        r@ == spec_render(m@),
{
    match &m.message_type {
        crate::protocol::MessageType::RegisterSuccess { user_id } => {
            let mut out = "registered with id ".to_owned();
            out.append(user_id.as_str());
            out
        },
        crate::protocol::MessageType::RegisterError { reason } => {
            let mut out = "registration failed: ".to_owned();
            out.append(reason.as_str());
            out
        },
        crate::protocol::MessageType::MessageReceived { from, content, timestamp } => {
            let mut out = "[".to_owned();
            let tlen = timestamp.unicode_len();
            if tlen >= 19 {
                let clock = timestamp.as_str().substring_char(11, 19);
                out.append(clock);
            } else {
                out.append(timestamp.as_str());
            }
            out.append("] ");
            out.append(from.as_str());
            out.append(": ");
            out.append(content.as_str());
            proof {
                assert(out@ =~= spec_render(m@));
            }
            out
        },
        crate::protocol::MessageType::UserList { users } => {
            let mut out = "connected users (".to_owned();
            let count = u64_to_string(users.len() as u64);
            out.append(count.as_str());
            out.append(")");
            let n = users.len();
            let mut i: usize = 0;
            proof {
                assert(users.deep_view().subrange(0, n as int) =~= users.deep_view());
            }
            while i < n
                invariant
                    0 <= i <= n,
                    n == users@.len(),
                    out@ + user_lines(users.deep_view().subrange(i as int, n as int)) == spec_render(
                        m@,
                    ),
                decreases n - i,
            {
                out.append("\n  - ");
                out.append(users[i].as_str());
                proof {
                    lemma_user_lines_step(users.deep_view(), i as int);
                }
                i += 1;
            }
            proof {
                assert(user_lines(users.deep_view().subrange(n as int, n as int))
                    =~= Seq::<char>::empty());
                assert(out@ =~= spec_render(m@));
            }
            out
        },
        crate::protocol::MessageType::UserJoined { username } => {
            let mut out = username.clone();
            out.append(" joined the chat");
            out
        },
        crate::protocol::MessageType::UserLeft { username } => {
            let mut out = username.clone();
            out.append(" left the chat");
            out
        },
        crate::protocol::MessageType::Error { message } => {
            let mut out = "error: ".to_owned();
            out.append(message.as_str());
            out
        },
        crate::protocol::MessageType::Pong => "pong received".to_owned(),
        _ => "unhandled message".to_owned(),
    }
}

} // verus!
