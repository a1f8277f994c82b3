//! The session registry and the per-connection protocol logic.
//!
//! The registry is one owned table of connected users plus the broadcast
//! channel; the surrounding program serialises access to it, so every
//! operation here is a single atomic transaction. A user name is reserved
//! exactly as long as a live user holds it, and user ids are never reused
//! for the registry's lifetime.

use vstd::prelude::*;

use crate::channel::{Channel, Cursor, read_pos};
use crate::protocol::{MessageType, MessageTypeView, ProtocolMessage, ProtocolMessageView,
    ProtocolError, SessionState, SessionStateView};
use crate::text::{str_eq, u64_to_string, spec_decimal};

verus! {

/// How many broadcast messages the channel retains for slow subscribers.
pub const BROADCAST_CAPACITY: usize = 1000;

/// A connected user.
pub struct User {
    /// Unique for the registry's lifetime; never reused.
    pub id: u64,
    /// Unique among live users.
    pub username: String,
    /// The session this user was registered through.
    pub session_state: SessionState,
}

/// The mathematical model of a [`User`].
#[verifier::ext_equal]
pub ghost struct UserView {
    pub id: int,
    pub username: Seq<char>,
    pub session_state: SessionStateView,
}

impl View for User {
    type V = UserView;

    open spec fn view(&self) -> UserView {
        UserView {
            id: self.id as int,
            username: self.username@,
            session_state: self.session_state@,
        }
    }
}

impl DeepView for User {
    type V = UserView;

    open spec fn deep_view(&self) -> UserView {
        self.view()
    }
}

/// Whether some live user holds `name`.
pub open spec fn has_username(users: Seq<UserView>, name: Seq<char>) -> bool {
    exists|i: int| 0 <= i < users.len() && (#[trigger] users[i]).username == name
}

/// Whether some live user holds `id`.
pub open spec fn has_id(users: Seq<UserView>, id: int) -> bool {
    exists|i: int| 0 <= i < users.len() && (#[trigger] users[i]).id == id
}

/// The names of the live users, in table order.
pub open spec fn usernames(users: Seq<UserView>) -> Seq<Seq<char>> {
    users.map_values(|u: UserView| u.username)
}

/// What a successful registration does to the user table: the name was
/// free, and one user holding it was appended.
pub open spec fn register_ok(pre: Seq<UserView>, name: Seq<char>, post: Seq<UserView>) -> bool {
    &&& !has_username(pre, name)
    &&& post.len() == pre.len() + 1
    &&& post.subrange(0, pre.len() as int) == pre
    &&& post.last().username == name
}

/// Some registration succeeded between the two tables.
pub open spec fn register_step(pre: Seq<UserView>, post: Seq<UserView>) -> bool {
    exists|name: Seq<char>| #[trigger] register_ok(pre, name, post)
}

/// A run of successful registrations.
pub open spec fn register_chain(states: Seq<Seq<UserView>>) -> bool
    decreases states.len(),
{
    states.len() <= 1 || (register_step(states[0], states[1]) && register_chain(
        states.drop_first(),
    ))
}

/// What a removal does to the user table: the one user holding `id` left.
pub open spec fn remove_ok(pre: Seq<UserView>, id: int, post: Seq<UserView>) -> bool {
    exists|i: int|
        0 <= i < pre.len() && (#[trigger] pre[i]).id == id && post == pre.remove(i)
}

/// The shared server state: the user table, the id source and the broadcast
/// channel.
pub struct ServerState {
    users: Vec<User>,
    next_id: u64,
    channel: Channel,
}

impl ServerState {
    /// The live users, in table order.
    pub closed spec fn users_view(&self) -> Seq<UserView> {
        self.users.deep_view()
    }

    /// The next id to hand out; every live user's id is below it.
    pub closed spec fn next_id_of(&self) -> int {
        self.next_id as int
    }

    /// The full broadcast history, in publish order.
    pub closed spec fn log_view(&self) -> Seq<ProtocolMessageView> {
        self.channel.log_view()
    }

    /// The oldest broadcast position still retained.
    pub closed spec fn chan_start(&self) -> int {
        self.channel.start_of()
    }

    /// The registry's invariant: names unique, ids unique and below the id
    /// source, channel well formed.
    pub closed spec fn wf(&self) -> bool {
        &&& forall|i: int, j: int|
            0 <= i < j < self.users_view().len() ==> (#[trigger] self.users_view()[i]).username
                != (#[trigger] self.users_view()[j]).username
        &&& forall|i: int, j: int|
            0 <= i < j < self.users_view().len() ==> (#[trigger] self.users_view()[i]).id
                != (#[trigger] self.users_view()[j]).id
        &&& forall|i: int|
            0 <= i < self.users_view().len() ==> (#[trigger] self.users_view()[i]).id
                < self.next_id_of()
        &&& self.channel.wf()
    }

    /// A fresh registry: no users, no history.
    pub fn new() -> (r: ServerState)
        ensures
            r.wf(),
            r.users_view() =~= Seq::<UserView>::empty(),
            r.log_view() =~= Seq::<ProtocolMessageView>::empty(),
            r.next_id_of() == 1,
            r.chan_start() == 0,
    {
        ServerState { users: Vec::new(), next_id: 1, channel: Channel::new(BROADCAST_CAPACITY) }
    }

    /// Registers `username`: fails exactly when the name is already held;
    /// otherwise reserves it, creates the user under a fresh id, and
    /// publishes a `UserJoined` broadcast.
    pub fn register_user(&mut self, username: String) -> (r: Result<u64, ProtocolError>)
        requires
            old(self).wf(),
            old(self).next_id_of() < u64::MAX,
        ensures
            final(self).wf(),
            r is Ok <==> !has_username(old(self).users_view(), username@),
            match r {
                Ok(id) => {
                    &&& id as int == old(self).next_id_of()
                    &&& register_ok(old(self).users_view(), username@, final(self).users_view())
                    &&& final(self).users_view().last().id == id as int
                    &&& final(self).users_view().last().session_state
                        == SessionStateView::Authenticated(username@)
                    &&& final(self).next_id_of() == old(self).next_id_of() + 1
                    &&& final(self).log_view().len() == old(self).log_view().len() + 1
                    &&& final(self).log_view().subrange(0, old(self).log_view().len() as int)
                        == old(self).log_view()
                    &&& final(self).log_view().last().message_type
                        == (MessageTypeView::UserJoined { username: username@ })
                },
                Err(e) => {
                    &&& e matches ProtocolError::UsernameExists(n) && n@ == username@
                    &&& final(self).users_view() == old(self).users_view()
                    &&& final(self).next_id_of() == old(self).next_id_of()
                    &&& final(self).log_view() == old(self).log_view()
                },
            },
    {
        if let Some(_i) = username_index(&self.users, username.as_str()) {
            return Err(ProtocolError::UsernameExists(username));
        }
        let id = self.next_id;
        self.next_id = id + 1;
        let user = User {
            id,
            username: username.clone(),
            session_state: SessionState::Authenticated(username.clone()),
        };
        self.users.push(user);
        proof {
            assert(self.users.deep_view() =~= old(self).users.deep_view().push(
                UserView {
                    id: id as int,
                    username: username@,
                    session_state: SessionStateView::Authenticated(username@),
                },
            ));
            assert(self.users.deep_view().subrange(0, old(self).users.deep_view().len() as int)
                =~= old(self).users.deep_view());
        }
        let join = ProtocolMessage::new(MessageType::UserJoined { username });
        self.channel.publish(join);
        proof {
            assert(self.log_view().subrange(0, old(self).log_view().len() as int)
                =~= old(self).log_view());
        }
        Ok(id)
    }

    /// Removes the user holding `user_id`, if any: deletes the user and its
    /// name reservation together and publishes a `UserLeft` broadcast. A
    /// no-op for an unknown id.
    pub fn remove_user(&mut self, user_id: u64)
        requires
            old(self).wf(),
        ensures
            final(self).wf(),
            final(self).next_id_of() == old(self).next_id_of(),
            !has_id(old(self).users_view(), user_id as int) ==> {
                &&& final(self).users_view() == old(self).users_view()
                &&& final(self).log_view() == old(self).log_view()
            },
            has_id(old(self).users_view(), user_id as int) ==> {
                &&& remove_ok(old(self).users_view(), user_id as int, final(self).users_view())
                &&& !has_id(final(self).users_view(), user_id as int)
                &&& final(self).log_view().len() == old(self).log_view().len() + 1
                &&& final(self).log_view().subrange(0, old(self).log_view().len() as int)
                    == old(self).log_view()
                &&& exists|i: int|
                    {
                        &&& 0 <= i < old(self).users_view().len()
                        &&& (#[trigger] old(self).users_view()[i]).id == user_id as int
                        &&& final(self).log_view().last().message_type
                            == (MessageTypeView::UserLeft {
                            username: old(self).users_view()[i].username,
                        })
                    }
            },
    {
        match id_index(&self.users, user_id) {
            Some(i) => {
                let ghost pre = self.users.deep_view();
                let user = self.users.remove(i);
                proof {
                    assert(self.users.deep_view() =~= pre.remove(i as int)) by {
                        assert forall|k: int| 0 <= k < self.users.deep_view().len() implies
                            self.users.deep_view()[k] == pre.remove(i as int)[k] by {
                            assert(self.users@[k] == old(self).users@.remove(i as int)[k]);
                        }
                    }
                    lemma_remove_elements(pre, i as int);
                    let post = self.users.deep_view();
                    assert forall|k: int| 0 <= k < post.len() implies (#[trigger] post[k]).id
                        != user_id as int by {
                        if k < i {
                            assert(post[k] == pre[k]);
                        } else {
                            assert(post[k] == pre[k + 1]);
                        }
                    }
                    assert forall|a: int, b: int| 0 <= a < b < post.len() implies (
                    #[trigger] post[a]).username != (#[trigger] post[b]).username by {
                        let a2: int = if a < i { a } else { a + 1 };
                        let b2: int = if b < i { b } else { b + 1 };
                        assert(post[a] == pre[a2]);
                        assert(post[b] == pre[b2]);
                    }
                    assert forall|a: int, b: int| 0 <= a < b < post.len() implies (
                    #[trigger] post[a]).id != (#[trigger] post[b]).id by {
                        let a2: int = if a < i { a } else { a + 1 };
                        let b2: int = if b < i { b } else { b + 1 };
                        assert(post[a] == pre[a2]);
                        assert(post[b] == pre[b2]);
                    }
                    assert forall|a: int| 0 <= a < post.len() implies (#[trigger] post[a]).id
                        < self.next_id_of() by {
                        if a < i {
                            assert(post[a] == pre[a]);
                        } else {
                            assert(post[a] == pre[a + 1]);
                        }
                    }
                }
                let leave = ProtocolMessage::new(
                    MessageType::UserLeft { username: user.username },
                );
                self.channel.publish(leave);
                proof {
                    assert(self.log_view().subrange(0, old(self).log_view().len() as int)
                        =~= old(self).log_view());
                }
            },
            None => {},
        }
    }

    /// A snapshot of the live user names, in table order.
    pub fn get_user_list(&self) -> (r: Vec<String>)
        ensures
            r.deep_view() == usernames(self.users_view()),
    {
        let mut r: Vec<String> = Vec::new();
        let n = self.users.len();
        let mut i: usize = 0;
        while i < n
            invariant
                0 <= i <= n,
                n == self.users@.len(),
                r.deep_view() =~= usernames(self.users_view()).subrange(0, i as int),
            decreases n - i,
        {
            let ghost prev = r.deep_view();
            let ghost prevraw = r@;
            r.push(self.users[i].username.clone());
            proof {
                assert(r.deep_view() =~= prev.push(self.users_view()[i as int].username)) by {
                    assert forall|k: int| 0 <= k < r.deep_view().len() implies r.deep_view()[k]
                        == prev.push(self.users_view()[i as int].username)[k] by {
                        if k < prevraw.len() {
                            assert(r@[k] == prevraw[k]);
                        }
                    }
                }
                assert(usernames(self.users_view())[i as int]
                    == self.users_view()[i as int].username);
                assert(r.deep_view() =~= usernames(self.users_view()).subrange(0, i + 1 as int));
            }
            i += 1;
        }
        proof {
            assert(r.deep_view() =~= usernames(self.users_view()));
        }
        r
    }

    /// Publishes `MessageReceived { from, content, now }` to all subscribers.
    /// Whether `from` is still registered is not re-checked here; that is the
    /// caller's responsibility.
    pub fn broadcast_message(&mut self, from: String, content: String)
        requires
            old(self).wf(),
        ensures
            final(self).wf(),
            final(self).users_view() == old(self).users_view(),
            final(self).next_id_of() == old(self).next_id_of(),
            final(self).log_view().len() == old(self).log_view().len() + 1,
            final(self).log_view().subrange(0, old(self).log_view().len() as int) == old(
                self,
            ).log_view(),
            final(self).log_view().last().message_type matches MessageTypeView::MessageReceived {
                from: f,
                content: c,
                timestamp: _,
            } && f == from@ && c == content@,
    {
        let message = ProtocolMessage::new(
            MessageType::MessageReceived {
                from,
                content,
                timestamp: crate::protocol::now_rfc3339(),
            },
        );
        self.channel.publish(message);
        proof {
            assert(self.log_view().subrange(0, old(self).log_view().len() as int)
                =~= old(self).log_view());
        }
    }

    /// Whether another id can still be issued; the id source never wraps.
    pub fn can_issue_id(&self) -> (r: bool)
        ensures
            r == (self.next_id_of() < u64::MAX),
    {
        self.next_id < u64::MAX
    }

    /// A new broadcast subscription; it sees only what is published later.
    pub fn subscribe(&self) -> (c: Cursor)
        ensures
            c.next == self.log_view().len(),
    {
        self.channel.subscribe()
    }

    /// Delivers this cursor's next retained broadcast, if any.
    pub fn recv_next(&self, c: &mut Cursor) -> (r: Option<ProtocolMessage>)
        requires
            self.wf(),
        ensures
            ({
                let p = read_pos(old(c).next as int, self.chan_start());
                match r {
                    Some(m) => p < self.log_view().len() && m@ == self.log_view()[p]
                        && final(c).next == p + 1,
                    None => p >= self.log_view().len() && final(c).next == p,
                }
            }),
    {
        self.channel.try_recv(c)
    }
}

/// The index of the user holding `name`, if any.
fn username_index(users: &Vec<User>, name: &str) -> (r: Option<usize>)
    ensures
        match r {
            Some(i) => i < users.deep_view().len() && users.deep_view()[i as int].username
                == name@,
            None => !has_username(users.deep_view(), name@),
        },
{
    let n = users.len();
    let mut i: usize = 0;
    while i < n
        invariant
            0 <= i <= n,
            n == users@.len(),
            forall|j: int| 0 <= j < i ==> (#[trigger] users.deep_view()[j]).username != name@,
        decreases n - i,
    {
        if str_eq(users[i].username.as_str(), name) {
            return Some(i);
        }
        i += 1;
    }
    None
}

/// The index of the user holding `id`, if any.
fn id_index(users: &Vec<User>, id: u64) -> (r: Option<usize>)
    ensures
        match r {
            Some(i) => i < users.deep_view().len() && users.deep_view()[i as int].id == id as int,
            None => !has_id(users.deep_view(), id as int),
        },
{
    let n = users.len();
    let mut i: usize = 0;
    while i < n
        invariant
            0 <= i <= n,
            n == users@.len(),
            forall|j: int| 0 <= j < i ==> (#[trigger] users.deep_view()[j]).id != id as int,
        decreases n - i,
    {
        if users[i].id == id {
            return Some(i);
        }
        i += 1;
    }
    None
}

/// Where each element of a table stands after one is removed.
proof fn lemma_remove_elements<A>(pre: Seq<A>, i: int)
    requires
        0 <= i < pre.len(),
    ensures
        pre.remove(i).len() == pre.len() - 1,
        forall|a: int|
            0 <= a < pre.remove(i).len() ==> #[trigger] pre.remove(i)[a] == (if a < i {
                pre[a]
            } else {
                pre[a + 1]
            }),
{
    assert forall|a: int| 0 <= a < pre.remove(i).len() implies #[trigger] pre.remove(i)[a] == (
    if a < i {
        pre[a]
    } else {
        pre[a + 1]
    }) by {
        if a < i {
            assert(pre.remove(i)[a] == pre[a]);
        } else {
            assert(pre.remove(i)[a] == pre[a + 1]);
        }
    }
}

/// The registry and broadcast history did not move.
pub open spec fn same_registry(a: ServerState, b: ServerState) -> bool {
    &&& b.users_view() == a.users_view()
    &&& b.next_id_of() == a.next_id_of()
    &&& b.log_view() == a.log_view()
}

/// The reply is an `Error` carrying exactly `text`.
pub open spec fn reply_error(r: Option<ProtocolMessage>, text: Seq<char>) -> bool {
    r matches Some(m) && m@.message_type == (MessageTypeView::Error { message: text })
}

/// Applies one inbound message to a connection's session and the shared
/// state, and returns the direct reply, if any. This is the whole
/// per-connection protocol step: a `Register` binds an identity or is
/// refused, a `SendMessage` from an authenticated session is broadcast and
/// gets no direct reply, identity-requiring messages from an unnamed session
/// are refused without touching any state, and a message not valid in this
/// direction gets an `Error` reply rather than closing anything.
pub fn handle_message(
    msg: ProtocolMessage,
    session_state: &mut SessionState,
    user_id: &mut Option<u64>,
    state: &mut ServerState,
) -> (r: Option<ProtocolMessage>)
    requires
        old(state).wf(),
        old(state).next_id_of() < u64::MAX,
    ensures
        final(state).wf(),
        ({
            let pre = *old(state);
            let post = *final(state);
            match msg@.message_type {
                MessageTypeView::Register { username } => {
                    if old(session_state)@ != SessionStateView::Connected {
                        &&& reply_error(r, "already authenticated"@)
                        &&& same_registry(pre, post)
                        &&& final(session_state)@ == old(session_state)@
                        &&& *final(user_id) == *old(user_id)
                    } else if has_username(pre.users_view(), username) {
                        &&& r matches Some(m) && m@.message_type
                            == (MessageTypeView::RegisterError {
                            reason: "username already taken"@,
                        })
                        &&& same_registry(pre, post)
                        &&& final(session_state)@ == old(session_state)@
                        &&& *final(user_id) == *old(user_id)
                    } else {
                        &&& r matches Some(m) && m@.message_type
                            == (MessageTypeView::RegisterSuccess {
                            user_id: spec_decimal(pre.next_id_of() as nat),
                        })
                        &&& register_ok(pre.users_view(), username, post.users_view())
                        &&& post.users_view().last().id == pre.next_id_of()
                        &&& post.next_id_of() == pre.next_id_of() + 1
                        &&& post.log_view().len() == pre.log_view().len() + 1
                        &&& post.log_view().subrange(0, pre.log_view().len() as int)
                            == pre.log_view()
                        &&& post.log_view().last().message_type == (MessageTypeView::UserJoined {
                            username,
                        })
                        &&& final(session_state)@ == SessionStateView::Authenticated(username)
                        &&& *final(user_id) matches Some(id) && id as int == pre.next_id_of()
                    }
                },
                MessageTypeView::SendMessage { content } => {
                    match old(session_state)@ {
                        SessionStateView::Authenticated(name) => {
                            &&& r is None
                            &&& post.users_view() == pre.users_view()
                            &&& post.next_id_of() == pre.next_id_of()
                            &&& post.log_view().len() == pre.log_view().len() + 1
                            &&& post.log_view().subrange(0, pre.log_view().len() as int)
                                == pre.log_view()
                            &&& post.log_view().last().message_type
                                matches MessageTypeView::MessageReceived {
                                from: f,
                                content: c,
                                timestamp: _,
                            } && f == name && c == content
                            &&& final(session_state)@ == old(session_state)@
                            &&& *final(user_id) == *old(user_id)
                        },
                        _ => {
                            &&& reply_error(r, "not authenticated"@)
                            &&& same_registry(pre, post)
                            &&& final(session_state)@ == old(session_state)@
                            &&& *final(user_id) == *old(user_id)
                        },
                    }
                },
                MessageTypeView::ListUsers => {
                    &&& r matches Some(m) && m@.message_type == (MessageTypeView::UserList {
                        users: usernames(pre.users_view()),
                    })
                    &&& same_registry(pre, post)
                    &&& final(session_state)@ == old(session_state)@
                    &&& *final(user_id) == *old(user_id)
                },
                MessageTypeView::Disconnect => {
                    &&& r is None
                    &&& same_registry(pre, post)
                    &&& final(session_state)@ == SessionStateView::Disconnected
                    &&& *final(user_id) == *old(user_id)
                },
                MessageTypeView::Ping => {
                    &&& r matches Some(m) && m@.message_type == MessageTypeView::Pong
                    &&& same_registry(pre, post)
                    &&& final(session_state)@ == old(session_state)@
                    &&& *final(user_id) == *old(user_id)
                },
                _ => {
                    &&& reply_error(r, "unsupported message type"@)
                    &&& same_registry(pre, post)
                    &&& final(session_state)@ == old(session_state)@
                    &&& *final(user_id) == *old(user_id)
                },
            }
        }),
{
    match msg.message_type {
        MessageType::Register { username } => {
            let connected = match &*session_state {
                SessionState::Connected => true,
                _ => false,
            };
            if !connected {
                return Some(ProtocolMessage::error("already authenticated".to_owned()));
            }
            match state.register_user(username.clone()) {
                Ok(id) => {
                    *user_id = Some(id);
                    *session_state = SessionState::Authenticated(username);
                    Some(
                        ProtocolMessage::new(
                            MessageType::RegisterSuccess { user_id: u64_to_string(id) },
                        ),
                    )
                },
                Err(_) => Some(
                    ProtocolMessage::new(
                        MessageType::RegisterError {
                            reason: "username already taken".to_owned(),
                        },
                    ),
                ),
            }
        },
        MessageType::SendMessage { content } => {
            let name: Option<String> = match &*session_state {
                SessionState::Authenticated(n) => Some(n.clone()),
                _ => None,
            };
            match name {
                Some(n) => {
                    state.broadcast_message(n, content);
                    None
                },
                None => Some(ProtocolMessage::error("not authenticated".to_owned())),
            }
        },
        MessageType::ListUsers => Some(
            ProtocolMessage::new(MessageType::UserList { users: state.get_user_list() }),
        ),
        MessageType::Disconnect => {
            *session_state = SessionState::Disconnected;
            None
        },
        MessageType::Ping => Some(ProtocolMessage::pong()),
        _ => Some(ProtocolMessage::error("unsupported message type".to_owned())),
    }
}

/// Once a name is held, any run of further registrations keeps it held, and
/// no registration of that name can succeed from any state in the run: of
/// any set of registrations for one name, serialised by the registry's
/// transaction boundary, at most the first one succeeds.
pub proof fn lemma_register_uniqueness(states: Seq<Seq<UserView>>, name: Seq<char>)
    requires
        register_chain(states),
        states.len() >= 1,
        has_username(states[0], name),
    ensures
        has_username(states.last(), name),
        forall|post: Seq<UserView>| !register_ok(states.last(), name, post),
    decreases states.len(),
{
    if states.len() > 1 {
        let i = choose|i: int| 0 <= i < states[0].len() && (#[trigger] states[0][i]).username
            == name;
        assert(register_step(states[0], states[1]));
        let n2 = choose|n2: Seq<char>| register_ok(states[0], n2, states[1]);
        assert(states[1][i] == states[0].subrange(0, states[0].len() as int)[i]);
        assert(states[1][i].username == name);
        assert(has_username(states[1], name));
        lemma_register_uniqueness(states.drop_first(), name);
        assert(states.drop_first().last() == states.last());
    }
}

/// Join/leave symmetry: registering a name and then removing the user that
/// registration created leaves the table as it was, with the name no longer
/// held, and the broadcast history carries the `UserJoined` and then the
/// `UserLeft` for that name, in that order.
pub proof fn lemma_join_leave_symmetry(
    u0: Seq<UserView>,
    u1: Seq<UserView>,
    u2: Seq<UserView>,
    name: Seq<char>,
    id: int,
    log0: Seq<ProtocolMessageView>,
    log1: Seq<ProtocolMessageView>,
    log2: Seq<ProtocolMessageView>,
)
    requires
        register_ok(u0, name, u1),
        u1.last().id == id,
        forall|k: int| 0 <= k < u0.len() ==> (#[trigger] u0[k]).id != id,
        remove_ok(u1, id, u2),
        log1.len() == log0.len() + 1,
        log1.subrange(0, log0.len() as int) == log0,
        log1.last().message_type == (MessageTypeView::UserJoined { username: name }),
        log2.len() == log1.len() + 1,
        log2.subrange(0, log1.len() as int) == log1,
        log2.last().message_type == (MessageTypeView::UserLeft { username: name }),
    ensures
        u2 =~= u0,
        !has_username(u2, name),
        log2[log0.len() as int].message_type == (MessageTypeView::UserJoined { username: name }),
        log2[log0.len() as int + 1].message_type == (MessageTypeView::UserLeft { username: name }),
{
    let i = choose|i: int| 0 <= i < u1.len() && (#[trigger] u1[i]).id == id && u2 == u1.remove(i);
    assert forall|k: int| 0 <= k < u0.len() implies (#[trigger] u1[k]).id != id by {
        assert(u1[k] == u0.subrange(0, u0.len() as int)[k]);
    }
    assert(i == u0.len());
    lemma_remove_elements(u1, i);
    assert(u2 =~= u0) by {
        assert forall|k: int| 0 <= k < u2.len() implies u2[k] == u0[k] by {
            assert(u2[k] == u1[k]);
            assert(u1[k] == u0.subrange(0, u0.len() as int)[k]);
        }
    }
    assert(log2[log0.len() as int] == log1[log0.len() as int]);
    assert(log1[log0.len() as int] == log1.last());
    assert(log2[log0.len() as int + 1] == log2.last());
}

} // verus!
