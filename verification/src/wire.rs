//! The wire codec: one newline-delimited JSON-shaped frame per message.
//!
//! The encoder produces one canonical frame for every message value, and the
//! decoder accepts exactly the canonical frames, so decoding is specified as
//! the inverse of encoding. Both directions are total functions: encoding
//! escapes every string, and decoding rejects anything else with
//! [`crate::protocol::DecodeError`].

use vstd::prelude::*;

use crate::protocol::{DecodeError, MessageType, MessageTypeView, ProtocolMessage,
    ProtocolMessageView};
use crate::text::{push_char, str_eq};

verus! {

/// How one character is written inside a quoted string: the double quote, the
/// backslash and the three whitespace controls are escaped, everything else
/// stands for itself.
pub open spec fn esc_char(c: char) -> Seq<char> {
    if c == '"' {
        seq!['\\', '"']
    } else if c == '\\' {
        seq!['\\', '\\']
    } else if c == '\n' {
        seq!['\\', 'n']
    } else if c == '\r' {
        seq!['\\', 'r']
    } else if c == '\t' {
        seq!['\\', 't']
    } else {
        seq![c]
    }
}

/// The body of a quoted string: each character escaped in turn.
pub open spec fn esc(s: Seq<char>) -> Seq<char>
    decreases s.len(),
{
    if s.len() == 0 {
        s
    } else {
        esc_char(s[0]) + esc(s.drop_first())
    }
}

/// The characters that may follow a backslash.
pub open spec fn is_esc_code(c: char) -> bool {
    c == '"' || c == '\\' || c == 'n' || c == 'r' || c == 't'
}

/// The character that an escape code stands for.
pub open spec fn unesc_code(c: char) -> char {
    if c == '"' {
        '"'
    } else if c == '\\' {
        '\\'
    } else if c == 'n' {
        '\n'
    } else if c == 'r' {
        '\r'
    } else {
        '\t'
    }
}

/// Reads a quoted string's body from `pos` up to and including its closing
/// quote. Returns the unescaped contents and the position after the quote.
pub open spec fn parse_str_body(s: Seq<char>, pos: int) -> Option<(Seq<char>, int)>
    decreases s.len() - pos,
{
    if pos < 0 || pos >= s.len() {
        None
    } else if s[pos] == '"' {
        Some((Seq::empty(), pos + 1))
    } else if s[pos] == '\\' {
        if pos + 1 < s.len() && is_esc_code(s[pos + 1]) {
            match parse_str_body(s, pos + 2) {
                Some((t, q)) => Some((seq![unesc_code(s[pos + 1])] + t, q)),
                None => None,
            }
        } else {
            None
        }
    } else if s[pos] == '\n' || s[pos] == '\r' || s[pos] == '\t' {
        None
    } else {
        match parse_str_body(s, pos + 1) {
            Some((t, q)) => Some((seq![s[pos]] + t, q)),
            None => None,
        }
    }
}

/// A successful string parse always moves forward and stays inside the input.
pub proof fn lemma_parse_str_body_advances(s: Seq<char>, pos: int)
    ensures
        parse_str_body(s, pos) matches Some((t, q)) ==> pos < q <= s.len(),
    decreases s.len() - pos,
{
    if 0 <= pos < s.len() {
        if s[pos] == '\\' {
            if pos + 1 < s.len() && is_esc_code(s[pos + 1]) {
                lemma_parse_str_body_advances(s, pos + 2);
            }
        } else {
            lemma_parse_str_body_advances(s, pos + 1);
        }
    }
}

/// Parsing inverts escaping: wherever the input carries the escaped body of
/// `s0` followed by a closing quote, the parse returns exactly `s0`.
pub proof fn lemma_parse_of_esc(s: Seq<char>, s0: Seq<char>, pos: int)
    requires
        0 <= pos,
        pos + esc(s0).len() + 1 <= s.len(),
        s.subrange(pos, pos + esc(s0).len() + 1) == esc(s0).push('"'),
    ensures
        parse_str_body(s, pos) == Some((s0, pos + esc(s0).len() + 1)),
    decreases s0.len(),
{
    let e = esc(s0);
    let whole = s.subrange(pos, pos + e.len() + 1);
    if s0.len() == 0 {
        assert(e.len() == 0);
        assert(s[pos] == whole[0]);
        assert(whole[0] == '"');
        assert(s0 =~= Seq::<char>::empty());
    } else {
        let c = s0[0];
        let rest = s0.drop_first();
        assert(e == esc_char(c) + esc(rest));
        let er = esc(rest);
        if c == '"' || c == '\\' || c == '\n' || c == '\r' || c == '\t' {
            assert(esc_char(c).len() == 2);
            assert(s[pos] == whole[0]);
            assert(s[pos + 1] == whole[1]);
            assert(whole[0] == e[0]);
            assert(whole[1] == e[1]);
            assert(e[0] == '\\');
            assert(is_esc_code(e[1]));
            assert(unesc_code(e[1]) == c);
            assert(s.subrange(pos + 2, pos + 2 + er.len() + 1) =~= esc(rest).push('"')) by {
                assert forall|i: int| 0 <= i < er.len() + 1 implies s.subrange(
                    pos + 2,
                    pos + 2 + er.len() + 1,
                )[i] == esc(rest).push('"')[i] by {
                    assert(s[pos + 2 + i] == whole[2 + i]);
                }
            }
            lemma_parse_of_esc(s, rest, pos + 2);
            assert(seq![unesc_code(s[pos + 1])] + rest =~= s0);
            assert(pos + 2 + er.len() + 1 == pos + e.len() + 1);
        } else {
            assert(esc_char(c) =~= seq![c]);
            assert(e[0] == c);
            assert(s[pos] == whole[0]);
            assert(whole[0] == e[0]);
            assert(s[pos] == c);
            assert(s.subrange(pos + 1, pos + 1 + er.len() + 1) =~= esc(rest).push('"')) by {
                assert forall|i: int| 0 <= i < er.len() + 1 implies s.subrange(
                    pos + 1,
                    pos + 1 + er.len() + 1,
                )[i] == esc(rest).push('"')[i] by {
                    assert(s[pos + 1 + i] == whole[1 + i]);
                }
            }
            lemma_parse_of_esc(s, rest, pos + 1);
            assert(seq![s[pos]] + rest =~= s0);
            assert(pos + 1 + er.len() + 1 == pos + e.len() + 1);
        }
    }
}

/// The position after a fixed piece of text, where the input carries exactly
/// that text at `pos`.
pub open spec fn spec_expect(s: Seq<char>, pos: int, lit: Seq<char>) -> Option<int> {
    if 0 <= pos && pos + lit.len() <= s.len() && s.subrange(pos, pos + lit.len()) == lit {
        Some(pos + lit.len())
    } else {
        None
    }
}

/// Escapes a string for the wire.
pub fn escape(s: &str) -> (r: String)
    ensures
        r@ == esc(s@),
    decreases s@.len(),
{
    let len = s.unicode_len();
    if len == 0 {
        let r = String::new();
        proof {
            assert(r@ =~= esc(s@));
        }
        r
    } else {
        let c = s.get_char(0);
        let rest = s.substring_char(1, len);
        let tail = escape(rest);
        let mut out = String::new();
        if c == '"' {
            push_char(&mut out, '\\');
            push_char(&mut out, '"');
        } else if c == '\\' {
            push_char(&mut out, '\\');
            push_char(&mut out, '\\');
        } else if c == '\n' {
            push_char(&mut out, '\\');
            push_char(&mut out, 'n');
        } else if c == '\r' {
            push_char(&mut out, '\\');
            push_char(&mut out, 'r');
        } else if c == '\t' {
            push_char(&mut out, '\\');
            push_char(&mut out, 't');
        } else {
            push_char(&mut out, c);
        }
        proof {
            assert(out@ =~= esc_char(s@[0]));
        }
        out.append(tail.as_str());
        proof {
            assert(rest@ =~= s@.drop_first());
            assert(out@ == esc_char(s@[0]) + esc(s@.drop_first()));
        }
        out
    }
}

/// Reads a quoted string's body, mirroring [`parse_str_body`].
pub fn parse_string(s: &str, pos: usize) -> (r: Option<(String, usize)>)
    ensures
        match r {
            Some((t, q)) => parse_str_body(s@, pos as int) == Some((t@, q as int)),
            None => parse_str_body(s@, pos as int) is None,
        },
    decreases s@.len() - pos,
{
    let len = s.unicode_len();
    if pos >= len {
        return None;
    }
    let c = s.get_char(pos);
    if c == '"' {
        let r = String::new();
        proof {
            assert(r@ =~= Seq::<char>::empty());
        }
        Some((r, pos + 1))
    } else if c == '\\' {
        if pos + 1 < len {
            let d = s.get_char(pos + 1);
            if d == '"' || d == '\\' || d == 'n' || d == 'r' || d == 't' {
                let un: char = if d == '"' {
                    '"'
                } else if d == '\\' {
                    '\\'
                } else if d == 'n' {
                    '\n'
                } else if d == 'r' {
                    '\r'
                } else {
                    '\t'
                };
                match parse_string(s, pos + 2) {
                    Some((t, q)) => {
                        let mut out = String::new();
                        push_char(&mut out, un);
                        out.append(t.as_str());
                        proof {
                            assert(out@ =~= seq![unesc_code(s@[pos + 1 as int])] + t@);
                        }
                        Some((out, q))
                    },
                    None => None,
                }
            } else {
                None
            }
        } else {
            None
        }
    } else if c == '\n' || c == '\r' || c == '\t' {
        None
    } else {
        match parse_string(s, pos + 1) {
            Some((t, q)) => {
                let mut out = String::new();
                push_char(&mut out, c);
                out.append(t.as_str());
                proof {
                    assert(out@ =~= seq![s@[pos as int]] + t@);
                }
                Some((out, q))
            },
            None => None,
        }
    }
}

/// Recognises a fixed piece of text, mirroring [`spec_expect`].
pub fn expect_lit(s: &str, pos: usize, lit: &str) -> (r: Option<usize>)
    ensures
        match r {
            Some(q) => spec_expect(s@, pos as int, lit@) == Some(q as int),
            None => spec_expect(s@, pos as int, lit@) is None,
        },
    decreases lit@.len(),
{
    let ll = lit.unicode_len();
    if ll == 0 {
        if pos <= s.unicode_len() {
            proof {
                assert(s@.subrange(pos as int, pos as int) =~= lit@);
            }
            return Some(pos);
        } else {
            return None;
        }
    }
    let sl = s.unicode_len();
    if pos >= sl || ll > sl - pos {
        return None;
    }
    if s.get_char(pos) != lit.get_char(0) {
        proof {
            let sub = s@.subrange(pos as int, pos + lit@.len());
            assert(sub[0] == s@[pos as int]);
            assert(sub != lit@);
        }
        return None;
    }
    let rest = lit.substring_char(1, ll);
    let r = expect_lit(s, pos + 1, rest);
    proof {
        let p = pos as int;
        let whole = s@.subrange(p, p + lit@.len());
        let tailsub = s@.subrange(p + 1, p + 1 + rest@.len());
        assert(rest@ =~= lit@.drop_first());
        if tailsub == rest@ {
            assert(whole =~= lit@) by {
                assert forall|i: int| 0 <= i < lit@.len() implies whole[i] == lit@[i] by {
                    if i > 0 {
                        assert(whole[i] == tailsub[i - 1]);
                        assert(lit@[i] == rest@[i - 1]);
                    }
                }
            }
        } else {
            assert(whole != lit@) by {
                if whole == lit@ {
                    assert(tailsub =~= rest@) by {
                        assert forall|i: int| 0 <= i < rest@.len() implies tailsub[i] == rest@[i]
                        by {
                            assert(tailsub[i] == whole[i + 1]);
                            assert(rest@[i] == lit@[i + 1]);
                        }
                    }
                }
            }
        }
    }
    match r {
        Some(q) => Some(q),
        None => None,
    }
}

// ---------------------------------------------------------------------------
// The frame text. Each piece of fixed text carries the quote that opens the
// string value after it, so a frame is an alternation of fixed text and
// string bodies, and the spec reads in the same order as the parse.
// ---------------------------------------------------------------------------

/// The text that opens every frame, including the quote that opens the id.
pub open spec fn t_open() -> Seq<char> {
    "{\"id\":\""@
}

/// The text between the id and the payload's tag.
pub open spec fn t_type() -> Seq<char> {
    ",\"message_type\":{\"type\":\""@
}

/// The text between the payload and the envelope timestamp.
pub open spec fn t_stamp() -> Seq<char> {
    ",\"timestamp\":\""@
}

/// A string value on the wire, followed by whatever comes next. The opening
/// quote belongs to the preceding fixed text, so only the escaped body and
/// the closing quote stand here.
pub open spec fn str_text(s: Seq<char>, rest: Seq<char>) -> Seq<char> {
    esc(s).push('"') + rest
}

/// The tag under which each payload variant travels.
pub open spec fn tag_of(mt: MessageTypeView) -> Seq<char> {
    match mt {
        MessageTypeView::Register { .. } => "Register"@,
        MessageTypeView::SendMessage { .. } => "SendMessage"@,
        MessageTypeView::ListUsers => "ListUsers"@,
        MessageTypeView::Disconnect => "Disconnect"@,
        MessageTypeView::RegisterSuccess { .. } => "RegisterSuccess"@,
        MessageTypeView::RegisterError { .. } => "RegisterError"@,
        MessageTypeView::MessageReceived { .. } => "MessageReceived"@,
        MessageTypeView::UserList { .. } => "UserList"@,
        MessageTypeView::UserJoined { .. } => "UserJoined"@,
        MessageTypeView::UserLeft { .. } => "UserLeft"@,
        MessageTypeView::Error { .. } => "Error"@,
        MessageTypeView::Ping => "Ping"@,
        MessageTypeView::Pong => "Pong"@,
    }
}

/// The text of a payload's fields after its tag, followed by `rest`. The
/// brace that closes the payload object is included.
#[verifier::opaque]
pub open spec fn fields_text(mt: MessageTypeView, rest: Seq<char>) -> Seq<char> {
    match mt {
        MessageTypeView::Register { username } => ",\"username\":\""@ + str_text(
            username,
            "}"@ + rest,
        ),
        MessageTypeView::SendMessage { content } => ",\"content\":\""@ + str_text(
            content,
            "}"@ + rest,
        ),
        MessageTypeView::ListUsers => "}"@ + rest,
        MessageTypeView::Disconnect => "}"@ + rest,
        MessageTypeView::RegisterSuccess { user_id } => ",\"user_id\":\""@ + str_text(
            user_id,
            "}"@ + rest,
        ),
        MessageTypeView::RegisterError { reason } => ",\"reason\":\""@ + str_text(
            reason,
            "}"@ + rest,
        ),
        MessageTypeView::MessageReceived { from, content, timestamp } => ",\"from\":\""@
            + str_text(
            from,
            ",\"content\":\""@ + str_text(content, ",\"timestamp\":\""@ + str_text(
                timestamp,
                "}"@ + rest,
            )),
        ),
        MessageTypeView::UserList { users } => ",\"users\":["@ + arr_text(users, "}"@ + rest),
        MessageTypeView::UserJoined { username } => ",\"username\":\""@ + str_text(
            username,
            "}"@ + rest,
        ),
        MessageTypeView::UserLeft { username } => ",\"username\":\""@ + str_text(
            username,
            "}"@ + rest,
        ),
        MessageTypeView::Error { message } => ",\"message\":\""@ + str_text(message, "}"@ + rest),
        MessageTypeView::Ping => "}"@ + rest,
        MessageTypeView::Pong => "}"@ + rest,
    }
}

/// The items of a user list and the closing bracket, followed by `rest`.
pub open spec fn arr_text(us: Seq<Seq<char>>, rest: Seq<char>) -> Seq<char> {
    if us.len() == 0 {
        seq![']'] + rest
    } else {
        seq!['"'] + str_text(us[0], arr_tail_text(us.drop_first(), rest))
    }
}

/// The items of a user list after the first one.
pub open spec fn arr_tail_text(us: Seq<Seq<char>>, rest: Seq<char>) -> Seq<char>
    decreases us.len(),
{
    if us.len() == 0 {
        seq![']'] + rest
    } else {
        seq![','] + (seq!['"'] + str_text(us[0], arr_tail_text(us.drop_first(), rest)))
    }
}

/// The one canonical frame of a message, newline excluded.
pub open spec fn spec_encode(m: ProtocolMessageView) -> Seq<char> {
    t_open() + str_text(
        m.id,
        t_type() + str_text(
            tag_of(m.message_type),
            fields_text(m.message_type, t_stamp() + str_text(m.timestamp, "}"@)),
        ),
    )
}

// ---------------------------------------------------------------------------
// The decoder's specification: a total parse of the canonical frame.
// ---------------------------------------------------------------------------

/// One `key:"value"` step: the fixed text of the key, then the value.
pub open spec fn parse_kv(s: Seq<char>, pos: int, key: Seq<char>) -> Option<(Seq<char>, int)> {
    match spec_expect(s, pos, key) {
        Some(p) => parse_str_body(s, p),
        None => None,
    }
}

/// The brace that closes an object.
pub open spec fn parse_close(s: Seq<char>, pos: int) -> Option<int> {
    spec_expect(s, pos, "}"@)
}

/// The items of a user list, from the position right after the bracket that
/// opens it, up to and including the bracket that closes it.
pub open spec fn parse_items(s: Seq<char>, pos: int) -> Option<(Seq<Seq<char>>, int)> {
    if pos < 0 || pos >= s.len() {
        None
    } else if s[pos] == ']' {
        Some((Seq::empty(), pos + 1))
    } else if s[pos] == '"' {
        match parse_str_body(s, pos + 1) {
            Some((u, q)) => match parse_items_tail(s, q) {
                Some((us, r)) => Some((seq![u] + us, r)),
                None => None,
            },
            None => None,
        }
    } else {
        None
    }
}

/// The items of a user list after the first one.
pub open spec fn parse_items_tail(s: Seq<char>, pos: int) -> Option<(Seq<Seq<char>>, int)>
    decreases s.len() - pos,
    via parse_items_tail_decreases
{
    if pos < 0 || pos >= s.len() {
        None
    } else if s[pos] == ']' {
        Some((Seq::empty(), pos + 1))
    } else if s[pos] == ',' && pos + 1 < s.len() && s[pos + 1] == '"' {
        match parse_str_body(s, pos + 2) {
            Some((u, q)) => match parse_items_tail(s, q) {
                Some((us, r)) => Some((seq![u] + us, r)),
                None => None,
            },
            None => None,
        }
    } else {
        None
    }
}

#[via_fn]
proof fn parse_items_tail_decreases(s: Seq<char>, pos: int) {
    if 0 <= pos < s.len() && s[pos] != ']' && s[pos] == ',' && pos + 1 < s.len() && s[pos + 1]
        == '"' {
        lemma_parse_str_body_advances(s, pos + 2);
    }
}

/// The fields of the payload whose tag was just read, up to and including the
/// brace that closes the payload object.
#[verifier::opaque]
pub open spec fn parse_fields(s: Seq<char>, pos: int, tag: Seq<char>) -> Option<
    (MessageTypeView, int),
> {
    if tag == "Register"@ {
        match parse_kv(s, pos, ",\"username\":\""@) {
            Some((v, q)) => match parse_close(s, q) {
                Some(r) => Some((MessageTypeView::Register { username: v }, r)),
                None => None,
            },
            None => None,
        }
    } else if tag == "SendMessage"@ {
        match parse_kv(s, pos, ",\"content\":\""@) {
            Some((v, q)) => match parse_close(s, q) {
                Some(r) => Some((MessageTypeView::SendMessage { content: v }, r)),
                None => None,
            },
            None => None,
        }
    } else if tag == "ListUsers"@ {
        match parse_close(s, pos) {
            Some(r) => Some((MessageTypeView::ListUsers, r)),
            None => None,
        }
    } else if tag == "Disconnect"@ {
        match parse_close(s, pos) {
            Some(r) => Some((MessageTypeView::Disconnect, r)),
            None => None,
        }
    } else if tag == "RegisterSuccess"@ {
        match parse_kv(s, pos, ",\"user_id\":\""@) {
            Some((v, q)) => match parse_close(s, q) {
                Some(r) => Some((MessageTypeView::RegisterSuccess { user_id: v }, r)),
                None => None,
            },
            None => None,
        }
    } else if tag == "RegisterError"@ {
        match parse_kv(s, pos, ",\"reason\":\""@) {
            Some((v, q)) => match parse_close(s, q) {
                Some(r) => Some((MessageTypeView::RegisterError { reason: v }, r)),
                None => None,
            },
            None => None,
        }
    } else if tag == "MessageReceived"@ {
        match parse_kv(s, pos, ",\"from\":\""@) {
            Some((f, q1)) => match parse_kv(s, q1, ",\"content\":\""@) {
                Some((c, q2)) => match parse_kv(s, q2, ",\"timestamp\":\""@) {
                    Some((t, q3)) => match parse_close(s, q3) {
                        Some(r) => Some(
                            (
                                MessageTypeView::MessageReceived {
                                    from: f,
                                    content: c,
                                    timestamp: t,
                                },
                                r,
                            ),
                        ),
                        None => None,
                    },
                    None => None,
                },
                None => None,
            },
            None => None,
        }
    } else if tag == "UserList"@ {
        match spec_expect(s, pos, ",\"users\":["@) {
            Some(p) => match parse_items(s, p) {
                Some((us, q)) => match parse_close(s, q) {
                    Some(r) => Some((MessageTypeView::UserList { users: us }, r)),
                    None => None,
                },
                None => None,
            },
            None => None,
        }
    } else if tag == "UserJoined"@ {
        match parse_kv(s, pos, ",\"username\":\""@) {
            Some((v, q)) => match parse_close(s, q) {
                Some(r) => Some((MessageTypeView::UserJoined { username: v }, r)),
                None => None,
            },
            None => None,
        }
    } else if tag == "UserLeft"@ {
        match parse_kv(s, pos, ",\"username\":\""@) {
            Some((v, q)) => match parse_close(s, q) {
                Some(r) => Some((MessageTypeView::UserLeft { username: v }, r)),
                None => None,
            },
            None => None,
        }
    } else if tag == "Error"@ {
        match parse_kv(s, pos, ",\"message\":\""@) {
            Some((v, q)) => match parse_close(s, q) {
                Some(r) => Some((MessageTypeView::Error { message: v }, r)),
                None => None,
            },
            None => None,
        }
    } else if tag == "Ping"@ {
        match parse_close(s, pos) {
            Some(r) => Some((MessageTypeView::Ping, r)),
            None => None,
        }
    } else if tag == "Pong"@ {
        match parse_close(s, pos) {
            Some(r) => Some((MessageTypeView::Pong, r)),
            None => None,
        }
    } else {
        None
    }
}

/// What decoding means: the frame is exactly one canonical encoding, read
/// from its first character to its last.
pub open spec fn spec_decode(s: Seq<char>) -> Option<ProtocolMessageView> {
    match spec_expect(s, 0, t_open()) {
        Some(p1) => match parse_str_body(s, p1) {
            Some((id, p2)) => match spec_expect(s, p2, t_type()) {
                Some(p3) => match parse_str_body(s, p3) {
                    Some((tag, p4)) => match parse_fields(s, p4, tag) {
                        Some((mt, p5)) => match parse_kv(s, p5, t_stamp()) {
                            Some((ts, p6)) => match parse_close(s, p6) {
                                Some(p7) => if p7 == s.len() {
                                    Some(
                                        ProtocolMessageView {
                                            id,
                                            message_type: mt,
                                            timestamp: ts,
                                        },
                                    )
                                } else {
                                    None
                                },
                                None => None,
                            },
                            None => None,
                        },
                        None => None,
                    },
                    None => None,
                },
                None => None,
            },
            None => None,
        },
        None => None,
    }
}

// ---------------------------------------------------------------------------
// Decoding inverts encoding. Each lemma walks one step of the frame: where
// the rest of the input carries a known piece of text followed by `rest`,
// the corresponding parse step succeeds and leaves exactly `rest`.
// ---------------------------------------------------------------------------

/// Stepping over fixed text.
pub proof fn lemma_suffix_expect(s: Seq<char>, p: int, lit: Seq<char>, rest: Seq<char>)
    requires
        0 <= p <= s.len(),
        s.subrange(p, s.len() as int) == lit + rest,
    ensures
        spec_expect(s, p, lit) == Some(p + lit.len()),
        p + lit.len() <= s.len(),
        s.subrange(p + lit.len(), s.len() as int) =~= rest,
{
    let suf = s.subrange(p, s.len() as int);
    assert(s.len() - p == lit.len() + rest.len()) by {
        assert(suf.len() == s.len() - p);
        assert((lit + rest).len() == lit.len() + rest.len());
    }
    assert(s.subrange(p, p + lit.len()) =~= lit) by {
        assert forall|i: int| 0 <= i < lit.len() implies s.subrange(p, p + lit.len())[i]
            == lit[i] by {
            assert(s[p + i] == suf[i]);
        }
    }
    assert forall|i: int| 0 <= i < rest.len() implies s.subrange(p + lit.len(), s.len() as int)[i]
        == rest[i] by {
        assert(s[p + lit.len() + i] == suf[lit.len() + i]);
    }
}

/// Stepping over a string body and its closing quote.
pub proof fn lemma_suffix_str(s: Seq<char>, p: int, v: Seq<char>, rest: Seq<char>)
    requires
        0 <= p <= s.len(),
        s.subrange(p, s.len() as int) == str_text(v, rest),
    ensures
        parse_str_body(s, p) == Some((v, p + esc(v).len() + 1)),
        p + esc(v).len() + 1 <= s.len(),
        s.subrange(p + esc(v).len() + 1, s.len() as int) =~= rest,
{
    let suf = s.subrange(p, s.len() as int);
    let e = esc(v);
    assert(s.len() - p == e.len() + 1 + rest.len()) by {
        assert(suf.len() == s.len() - p);
        assert((e.push('"') + rest).len() == e.push('"').len() + rest.len());
        assert(e.push('"').len() == e.len() + 1);
    }
    assert(s.subrange(p, p + e.len() + 1) =~= e.push('"')) by {
        assert forall|i: int| 0 <= i < e.len() + 1 implies s.subrange(p, p + e.len() + 1)[i]
            == e.push('"')[i] by {
            assert(s[p + i] == suf[i]);
        }
    }
    lemma_parse_of_esc(s, v, p);
    assert forall|i: int| 0 <= i < rest.len() implies s.subrange(
        p + e.len() + 1,
        s.len() as int,
    )[i] == rest[i] by {
        assert(s[p + e.len() + 1 + i] == suf[e.len() + 1 + i]);
    }
}

/// Stepping over a key and its string value.
pub proof fn lemma_suffix_kv(s: Seq<char>, p: int, key: Seq<char>, v: Seq<char>, rest: Seq<char>)
    requires
        0 <= p <= s.len(),
        s.subrange(p, s.len() as int) == key + str_text(v, rest),
    ensures
        parse_kv(s, p, key) == Some((v, p + key.len() + esc(v).len() + 1)),
        p + key.len() + esc(v).len() + 1 <= s.len(),
        s.subrange(p + key.len() + esc(v).len() + 1, s.len() as int) =~= rest,
{
    lemma_suffix_expect(s, p, key, str_text(v, rest));
    lemma_suffix_str(s, p + key.len(), v, rest);
}

/// Stepping over the items of a user list.
pub proof fn lemma_suffix_items(s: Seq<char>, p: int, us: Seq<Seq<char>>, rest: Seq<char>)
    requires
        0 <= p <= s.len(),
        s.subrange(p, s.len() as int) == arr_text(us, rest),
    ensures
        parse_items(s, p) matches Some((us2, q)) && us2 == us && 0 <= q <= s.len() && s.subrange(
            q,
            s.len() as int,
        ) =~= rest,
    decreases us.len(),
{
    let suf = s.subrange(p, s.len() as int);
    assert(suf.len() == s.len() - p);
    if us.len() == 0 {
        assert((seq![']'] + rest).len() == 1 + rest.len());
        assert(suf[0] == (seq![']'] + rest)[0]);
        assert(suf[0] == ']');
        assert(s[p] == suf[0]);
        lemma_suffix_expect(s, p, seq![']'], rest);
    } else {
        let body = str_text(us[0], arr_tail_text(us.drop_first(), rest));
        assert((seq!['"'] + body).len() == 1 + body.len());
        assert(suf[0] == (seq!['"'] + body)[0]);
        assert(s[p] == suf[0]);
        assert(suf[0] == '"');
        assert(s[p] != ']');
        lemma_suffix_expect(s, p, seq!['"'], body);
        lemma_suffix_str(s, p + 1, us[0], arr_tail_text(us.drop_first(), rest));
        let q = p + 1 + esc(us[0]).len() + 1;
        lemma_suffix_items_tail(s, q, us.drop_first(), rest);
        assert(seq![us[0]] + us.drop_first() =~= us);
    }
}

/// Stepping over the items of a user list after the first one.
pub proof fn lemma_suffix_items_tail(s: Seq<char>, p: int, us: Seq<Seq<char>>, rest: Seq<char>)
    requires
        0 <= p <= s.len(),
        s.subrange(p, s.len() as int) == arr_tail_text(us, rest),
    ensures
        parse_items_tail(s, p) matches Some((us2, q)) && us2 == us && 0 <= q <= s.len()
            && s.subrange(q, s.len() as int) =~= rest,
    decreases us.len(),
{
    let suf = s.subrange(p, s.len() as int);
    assert(suf.len() == s.len() - p);
    if us.len() == 0 {
        assert((seq![']'] + rest).len() == 1 + rest.len());
        assert(suf[0] == (seq![']'] + rest)[0]);
        assert(suf[0] == ']');
        assert(s[p] == suf[0]);
        lemma_suffix_expect(s, p, seq![']'], rest);
    } else {
        let body = str_text(us[0], arr_tail_text(us.drop_first(), rest));
        let inner = seq!['"'] + body;
        assert(inner.len() == 1 + body.len());
        assert((seq![','] + inner).len() == 1 + inner.len());
        assert(suf[0] == (seq![','] + inner)[0]);
        assert(suf[1] == (seq![','] + inner)[1]);
        assert((seq![','] + inner)[1] == inner[0]);
        assert(suf[0] == ',');
        assert(suf[1] == '"');
        assert(s[p] == suf[0]);
        assert(s[p + 1] == suf[1]);
        assert(s[p] != ']');
        assert(seq![','] + inner =~= seq![',', '"'] + body);
        lemma_suffix_expect(s, p, seq![',', '"'], body);
        lemma_suffix_str(s, p + 2, us[0], arr_tail_text(us.drop_first(), rest));
        let q = p + 2 + esc(us[0]).len() + 1;
        lemma_suffix_items_tail(s, q, us.drop_first(), rest);
        assert(seq![us[0]] + us.drop_first() =~= us);
    }
}

/// The lengths of the thirteen tags, and the distinctness of those pairs
/// that share a length.
pub proof fn lemma_tag_facts()
    ensures
        "Register"@.len() == 8,
        "SendMessage"@.len() == 11,
        "ListUsers"@.len() == 9,
        "Disconnect"@.len() == 10,
        "RegisterSuccess"@.len() == 15,
        "RegisterError"@.len() == 13,
        "MessageReceived"@.len() == 15,
        "UserList"@.len() == 8,
        "UserJoined"@.len() == 10,
        "UserLeft"@.len() == 8,
        "Error"@.len() == 5,
        "Ping"@.len() == 4,
        "Pong"@.len() == 4,
        "UserList"@ != "Register"@,
        "UserLeft"@ != "Register"@,
        "UserLeft"@ != "UserList"@,
        "MessageReceived"@ != "RegisterSuccess"@,
        "UserJoined"@ != "Disconnect"@,
        "Pong"@ != "Ping"@,
{
    reveal_strlit("Register");
    reveal_strlit("SendMessage");
    reveal_strlit("ListUsers");
    reveal_strlit("Disconnect");
    reveal_strlit("RegisterSuccess");
    reveal_strlit("RegisterError");
    reveal_strlit("MessageReceived");
    reveal_strlit("UserList");
    reveal_strlit("UserJoined");
    reveal_strlit("UserLeft");
    reveal_strlit("Error");
    reveal_strlit("Ping");
    reveal_strlit("Pong");
    assert("UserList"@ != "Register"@) by {
        assert("UserList"@[0] == 'U');
        assert("Register"@[0] == 'R');
    }
    assert("UserLeft"@ != "Register"@) by {
        assert("UserLeft"@[0] == 'U');
        assert("Register"@[0] == 'R');
    }
    assert("UserLeft"@ != "UserList"@) by {
        assert("UserLeft"@[5] == 'e');
        assert("UserList"@[5] == 'i');
    }
    assert("MessageReceived"@ != "RegisterSuccess"@) by {
        assert("MessageReceived"@[0] == 'M');
        assert("RegisterSuccess"@[0] == 'R');
    }
    assert("UserJoined"@ != "Disconnect"@) by {
        assert("UserJoined"@[0] == 'U');
        assert("Disconnect"@[0] == 'D');
    }
    assert("Pong"@ != "Ping"@) by {
        assert("Pong"@[1] == 'o');
        assert("Ping"@[1] == 'i');
    }
}

/// Stepping over a payload's fields: the parse returns the payload whose
/// fields they are.
pub proof fn lemma_suffix_fields(s: Seq<char>, p: int, mt: MessageTypeView, rest: Seq<char>)
    requires
        0 <= p <= s.len(),
        s.subrange(p, s.len() as int) == fields_text(mt, rest),
    ensures
        parse_fields(s, p, tag_of(mt)) matches Some((mt2, q)) && mt2 == mt && 0 <= q <= s.len()
            && s.subrange(q, s.len() as int) =~= rest,
{
    reveal(fields_text);
    reveal(parse_fields);
    lemma_tag_facts();
    match mt {
        MessageTypeView::Register { username } => {
            lemma_suffix_kv(s, p, ",\"username\":\""@, username, "}"@ + rest);
            let q = p + ",\"username\":\""@.len() + esc(username).len() + 1;
            lemma_suffix_expect(s, q, "}"@, rest);
        },
        MessageTypeView::SendMessage { content } => {
            lemma_suffix_kv(s, p, ",\"content\":\""@, content, "}"@ + rest);
            let q = p + ",\"content\":\""@.len() + esc(content).len() + 1;
            lemma_suffix_expect(s, q, "}"@, rest);
        },
        MessageTypeView::ListUsers => {
            lemma_suffix_expect(s, p, "}"@, rest);
        },
        MessageTypeView::Disconnect => {
            lemma_suffix_expect(s, p, "}"@, rest);
        },
        MessageTypeView::RegisterSuccess { user_id } => {
            lemma_suffix_kv(s, p, ",\"user_id\":\""@, user_id, "}"@ + rest);
            let q = p + ",\"user_id\":\""@.len() + esc(user_id).len() + 1;
            lemma_suffix_expect(s, q, "}"@, rest);
        },
        MessageTypeView::RegisterError { reason } => {
            lemma_suffix_kv(s, p, ",\"reason\":\""@, reason, "}"@ + rest);
            let q = p + ",\"reason\":\""@.len() + esc(reason).len() + 1;
            lemma_suffix_expect(s, q, "}"@, rest);
        },
        MessageTypeView::MessageReceived { from, content, timestamp } => {
            let r1 = ",\"content\":\""@ + str_text(content, ",\"timestamp\":\""@ + str_text(
                timestamp,
                "}"@ + rest,
            ));
            lemma_suffix_kv(s, p, ",\"from\":\""@, from, r1);
            let q1 = p + ",\"from\":\""@.len() + esc(from).len() + 1;
            let r2 = ",\"timestamp\":\""@ + str_text(timestamp, "}"@ + rest);
            lemma_suffix_kv(s, q1, ",\"content\":\""@, content, r2);
            let q2 = q1 + ",\"content\":\""@.len() + esc(content).len() + 1;
            lemma_suffix_kv(s, q2, ",\"timestamp\":\""@, timestamp, "}"@ + rest);
            let q3 = q2 + ",\"timestamp\":\""@.len() + esc(timestamp).len() + 1;
            lemma_suffix_expect(s, q3, "}"@, rest);
        },
        MessageTypeView::UserList { users } => {
            lemma_suffix_expect(s, p, ",\"users\":["@, arr_text(users, "}"@ + rest));
            let q = p + ",\"users\":["@.len();
            lemma_suffix_items(s, q, users, "}"@ + rest);
            let (us2, q2) = parse_items(s, q).unwrap();
            lemma_suffix_expect(s, q2, "}"@, rest);
        },
        MessageTypeView::UserJoined { username } => {
            lemma_suffix_kv(s, p, ",\"username\":\""@, username, "}"@ + rest);
            let q = p + ",\"username\":\""@.len() + esc(username).len() + 1;
            lemma_suffix_expect(s, q, "}"@, rest);
        },
        MessageTypeView::UserLeft { username } => {
            lemma_suffix_kv(s, p, ",\"username\":\""@, username, "}"@ + rest);
            let q = p + ",\"username\":\""@.len() + esc(username).len() + 1;
            lemma_suffix_expect(s, q, "}"@, rest);
        },
        MessageTypeView::Error { message } => {
            lemma_suffix_kv(s, p, ",\"message\":\""@, message, "}"@ + rest);
            let q = p + ",\"message\":\""@.len() + esc(message).len() + 1;
            lemma_suffix_expect(s, q, "}"@, rest);
        },
        MessageTypeView::Ping => {
            lemma_suffix_expect(s, p, "}"@, rest);
        },
        MessageTypeView::Pong => {
            lemma_suffix_expect(s, p, "}"@, rest);
        },
    }
}

/// Decoding inverts encoding: the canonical frame of any message decodes to
/// exactly that message.
#[verifier::rlimit(100)]
pub proof fn lemma_decode_of_encode(m: ProtocolMessageView)
    ensures
        spec_decode(spec_encode(m)) == Some(m),
{
    let s = spec_encode(m);
    let mt = m.message_type;
    let r3 = t_stamp() + str_text(m.timestamp, "}"@);
    let r2 = fields_text(mt, r3);
    let r1 = t_type() + str_text(tag_of(mt), r2);
    assert(s.subrange(0, s.len() as int) =~= s);
    lemma_suffix_expect(s, 0, t_open(), str_text(m.id, r1));
    let p1 = t_open().len() as int;
    lemma_suffix_str(s, p1, m.id, r1);
    let p2 = p1 + esc(m.id).len() + 1;
    lemma_suffix_expect(s, p2, t_type(), str_text(tag_of(mt), r2));
    let p3 = p2 + t_type().len();
    lemma_suffix_str(s, p3, tag_of(mt), r2);
    let p4 = p3 + esc(tag_of(mt)).len() + 1;
    lemma_suffix_fields(s, p4, mt, r3);
    let (mt2, p5) = parse_fields(s, p4, tag_of(mt)).unwrap();
    lemma_suffix_kv(s, p5, t_stamp(), m.timestamp, "}"@);
    let p6 = p5 + t_stamp().len() + esc(m.timestamp).len() + 1;
    lemma_suffix_expect(s, p6, "}"@, Seq::empty());
    let p7 = p6 + "}"@.len();
    assert(s.subrange(p7, s.len() as int).len() == 0);
    assert(p7 == s.len());
    assert(spec_decode(s) == Some(ProtocolMessageView { id: m.id, message_type: mt2, timestamp: m.timestamp }));
    assert(ProtocolMessageView { id: m.id, message_type: mt2, timestamp: m.timestamp } =~= m);
}

// ---------------------------------------------------------------------------
// The executable codec, each function a mirror of its specification.
// ---------------------------------------------------------------------------

/// Appends a string body and its closing quote.
fn append_str_body(out: &mut String, s: &str)
    ensures
        final(out)@ == old(out)@ + esc(s@).push('"'),
{
    let body = escape(s);
    out.append(body.as_str());
    push_char(out, '"');
    proof {
        assert(final(out)@ =~= old(out)@ + esc(s@).push('"'));
    }
}

/// One `key:"value"` step, mirroring [`parse_kv`].
fn parse_kv_exec(s: &str, pos: usize, key: &str) -> (r: Option<(String, usize)>)
    ensures
        match r {
            Some((v, q)) => parse_kv(s@, pos as int, key@) == Some((v@, q as int)),
            None => parse_kv(s@, pos as int, key@) is None,
        },
{
    match expect_lit(s, pos, key) {
        Some(p) => match parse_string(s, p) {
            Some((v, q)) => Some((v, q)),
            None => None,
        },
        None => None,
    }
}

/// The items of a user list, mirroring [`parse_items`].
fn parse_items_exec(s: &str, pos: usize) -> (r: Option<(Vec<String>, usize)>)
    ensures
        match r {
            Some((us, q)) => parse_items(s@, pos as int) == Some((us.deep_view(), q as int)),
            None => parse_items(s@, pos as int) is None,
        },
{
    let len = s.unicode_len();
    if pos >= len {
        return None;
    }
    let c = s.get_char(pos);
    if c == ']' {
        let us: Vec<String> = Vec::new();
        proof {
            assert(us.deep_view() =~= Seq::<Seq<char>>::empty());
        }
        Some((us, pos + 1))
    } else if c == '"' {
        match parse_string(s, pos + 1) {
            Some((u, q)) => {
                proof {
                    lemma_parse_str_body_advances(s@, pos + 1 as int);
                }
                match parse_items_tail_exec(s, q) {
                    Some((mut us, r2)) => {
                        let ghost prev = us@;
                        let ghost tail = us.deep_view();
                        us.insert(0, u);
                        proof {
                            prev.insert_ensures(0, u);
                            assert(us.deep_view() =~= seq![u@] + tail) by {
                                assert forall|i: int| 0 <= i < us@.len() implies us.deep_view()[i]
                                    == (seq![u@] + tail)[i] by {
                                    if i == 0 {
                                        assert(us@[0] == u);
                                    } else {
                                        assert(us@[i] == prev[i - 1]);
                                    }
                                }
                            }
                        }
                        Some((us, r2))
                    },
                    None => None,
                }
            },
            None => None,
        }
    } else {
        None
    }
}

/// The items of a user list after the first one, mirroring
/// [`parse_items_tail`].
fn parse_items_tail_exec(s: &str, pos: usize) -> (r: Option<(Vec<String>, usize)>)
    ensures
        match r {
            Some((us, q)) => parse_items_tail(s@, pos as int) == Some((us.deep_view(), q as int)),
            None => parse_items_tail(s@, pos as int) is None,
        },
    decreases s@.len() - pos,
{
    let len = s.unicode_len();
    if pos >= len {
        return None;
    }
    let c = s.get_char(pos);
    if c == ']' {
        let us: Vec<String> = Vec::new();
        proof {
            assert(us.deep_view() =~= Seq::<Seq<char>>::empty());
        }
        Some((us, pos + 1))
    } else if c == ',' && pos + 1 < len && s.get_char(pos + 1) == '"' {
        match parse_string(s, pos + 2) {
            Some((u, q)) => {
                proof {
                    lemma_parse_str_body_advances(s@, pos + 2 as int);
                }
                match parse_items_tail_exec(s, q) {
                    Some((mut us, r2)) => {
                        let ghost prev = us@;
                        let ghost tail = us.deep_view();
                        us.insert(0, u);
                        proof {
                            prev.insert_ensures(0, u);
                            assert(us.deep_view() =~= seq![u@] + tail) by {
                                assert forall|i: int| 0 <= i < us@.len() implies us.deep_view()[i]
                                    == (seq![u@] + tail)[i] by {
                                    if i == 0 {
                                        assert(us@[0] == u);
                                    } else {
                                        assert(us@[i] == prev[i - 1]);
                                    }
                                }
                            }
                        }
                        Some((us, r2))
                    },
                    None => None,
                }
            },
            None => None,
        }
    } else {
        None
    }
}

/// The fields of a payload, mirroring [`parse_fields`].
fn parse_fields_exec(s: &str, pos: usize, tag: &str) -> (r: Option<(MessageType, usize)>)
    ensures
        match r {
            Some((mt, q)) => parse_fields(s@, pos as int, tag@) == Some((mt@, q as int)),
            None => parse_fields(s@, pos as int, tag@) is None,
        },
{
    proof {
        reveal(parse_fields);
    }
    if str_eq(tag, "Register") {
        match parse_kv_exec(s, pos, ",\"username\":\"") {
            Some((v, q)) => match expect_lit(s, q, "}") {
                Some(r2) => Some((MessageType::Register { username: v }, r2)),
                None => None,
            },
            None => None,
        }
    } else if str_eq(tag, "SendMessage") {
        match parse_kv_exec(s, pos, ",\"content\":\"") {
            Some((v, q)) => match expect_lit(s, q, "}") {
                Some(r2) => Some((MessageType::SendMessage { content: v }, r2)),
                None => None,
            },
            None => None,
        }
    } else if str_eq(tag, "ListUsers") {
        match expect_lit(s, pos, "}") {
            Some(r2) => Some((MessageType::ListUsers, r2)),
            None => None,
        }
    } else if str_eq(tag, "Disconnect") {
        match expect_lit(s, pos, "}") {
            Some(r2) => Some((MessageType::Disconnect, r2)),
            None => None,
        }
    } else if str_eq(tag, "RegisterSuccess") {
        match parse_kv_exec(s, pos, ",\"user_id\":\"") {
            Some((v, q)) => match expect_lit(s, q, "}") {
                Some(r2) => Some((MessageType::RegisterSuccess { user_id: v }, r2)),
                None => None,
            },
            None => None,
        }
    } else if str_eq(tag, "RegisterError") {
        match parse_kv_exec(s, pos, ",\"reason\":\"") {
            Some((v, q)) => match expect_lit(s, q, "}") {
                Some(r2) => Some((MessageType::RegisterError { reason: v }, r2)),
                None => None,
            },
            None => None,
        }
    } else if str_eq(tag, "MessageReceived") {
        match parse_kv_exec(s, pos, ",\"from\":\"") {
            Some((f, q1)) => match parse_kv_exec(s, q1, ",\"content\":\"") {
                Some((c, q2)) => match parse_kv_exec(s, q2, ",\"timestamp\":\"") {
                    Some((t, q3)) => match expect_lit(s, q3, "}") {
                        Some(r2) => Some(
                            (
                                MessageType::MessageReceived {
                                    from: f,
                                    content: c,
                                    timestamp: t,
                                },
                                r2,
                            ),
                        ),
                        None => None,
                    },
                    None => None,
                },
                None => None,
            },
            None => None,
        }
    } else if str_eq(tag, "UserList") {
        match expect_lit(s, pos, ",\"users\":[") {
            Some(p) => match parse_items_exec(s, p) {
                Some((us, q)) => match expect_lit(s, q, "}") {
                    Some(r2) => Some((MessageType::UserList { users: us }, r2)),
                    None => None,
                },
                None => None,
            },
            None => None,
        }
    } else if str_eq(tag, "UserJoined") {
        match parse_kv_exec(s, pos, ",\"username\":\"") {
            Some((v, q)) => match expect_lit(s, q, "}") {
                Some(r2) => Some((MessageType::UserJoined { username: v }, r2)),
                None => None,
            },
            None => None,
        }
    } else if str_eq(tag, "UserLeft") {
        match parse_kv_exec(s, pos, ",\"username\":\"") {
            Some((v, q)) => match expect_lit(s, q, "}") {
                Some(r2) => Some((MessageType::UserLeft { username: v }, r2)),
                None => None,
            },
            None => None,
        }
    } else if str_eq(tag, "Error") {
        match parse_kv_exec(s, pos, ",\"message\":\"") {
            Some((v, q)) => match expect_lit(s, q, "}") {
                Some(r2) => Some((MessageType::Error { message: v }, r2)),
                None => None,
            },
            None => None,
        }
    } else if str_eq(tag, "Ping") {
        match expect_lit(s, pos, "}") {
            Some(r2) => Some((MessageType::Ping, r2)),
            None => None,
        }
    } else if str_eq(tag, "Pong") {
        match expect_lit(s, pos, "}") {
            Some(r2) => Some((MessageType::Pong, r2)),
            None => None,
        }
    } else {
        None
    }
}

/// The continuation passed to [`fields_text`] can be split off.
proof fn lemma_fields_text_rest(mt: MessageTypeView, rest: Seq<char>)
    ensures
        fields_text(mt, rest) == fields_text(mt, Seq::empty()) + rest,
{
    reveal(fields_text);
    match mt {
        MessageTypeView::UserList { users } => {
            lemma_arr_text_rest(users, "}"@ + rest);
            lemma_arr_text_rest(users, "}"@ + Seq::<char>::empty());
            assert(fields_text(mt, rest) =~= fields_text(mt, Seq::empty()) + rest);
        },
        _ => {
            assert(fields_text(mt, rest) =~= fields_text(mt, Seq::empty()) + rest);
        },
    }
}

/// Appends a payload: the body of its tag, then its fields, mirroring
/// [`fields_text`].
#[verifier::rlimit(50)]
fn append_payload(out: &mut String, mt: &MessageType)
    ensures
        final(out)@ == old(out)@ + (esc(tag_of(mt@)).push('"') + fields_text(
            mt@,
            Seq::empty(),
        )),
{
    proof {
        reveal(fields_text);
    }
    match mt {
        MessageType::Register { username } => {
            append_str_body(out, "Register");
            out.append(",\"username\":\"");
            append_str_body(out, username.as_str());
            out.append("}");
        },
        MessageType::SendMessage { content } => {
            append_str_body(out, "SendMessage");
            out.append(",\"content\":\"");
            append_str_body(out, content.as_str());
            out.append("}");
        },
        MessageType::ListUsers => {
            append_str_body(out, "ListUsers");
            out.append("}");
        },
        MessageType::Disconnect => {
            append_str_body(out, "Disconnect");
            out.append("}");
        },
        MessageType::RegisterSuccess { user_id } => {
            append_str_body(out, "RegisterSuccess");
            out.append(",\"user_id\":\"");
            append_str_body(out, user_id.as_str());
            out.append("}");
        },
        MessageType::RegisterError { reason } => {
            append_str_body(out, "RegisterError");
            out.append(",\"reason\":\"");
            append_str_body(out, reason.as_str());
            out.append("}");
        },
        MessageType::MessageReceived { from, content, timestamp } => {
            append_str_body(out, "MessageReceived");
            out.append(",\"from\":\"");
            append_str_body(out, from.as_str());
            out.append(",\"content\":\"");
            append_str_body(out, content.as_str());
            out.append(",\"timestamp\":\"");
            append_str_body(out, timestamp.as_str());
            out.append("}");
        },
        MessageType::UserList { users } => {
            append_str_body(out, "UserList");
            out.append(",\"users\":[");
            append_items(out, users);
            out.append("}");
            proof {
                lemma_arr_text_rest(users.deep_view(), "}"@ + Seq::<char>::empty());
            }
        },
        MessageType::UserJoined { username } => {
            append_str_body(out, "UserJoined");
            out.append(",\"username\":\"");
            append_str_body(out, username.as_str());
            out.append("}");
        },
        MessageType::UserLeft { username } => {
            append_str_body(out, "UserLeft");
            out.append(",\"username\":\"");
            append_str_body(out, username.as_str());
            out.append("}");
        },
        MessageType::Error { message } => {
            append_str_body(out, "Error");
            out.append(",\"message\":\"");
            append_str_body(out, message.as_str());
            out.append("}");
        },
        MessageType::Ping => {
            append_str_body(out, "Ping");
            out.append("}");
        },
        MessageType::Pong => {
            append_str_body(out, "Pong");
            out.append("}");
        },
    }
    proof {
        assert(final(out)@ =~= old(out)@ + (esc(tag_of(mt@)).push('"') + fields_text(
            mt@,
            Seq::empty(),
        )));
    }
}

impl ProtocolMessage {
    /// Renders this message as its one canonical frame, newline excluded.
    pub fn to_json(&self) -> (r: String)
        ensures
            r@ == spec_encode(self@),
    {
        let mut out = String::new();
        out.append("{\"id\":\"");
        append_str_body(&mut out, self.id.as_str());
        out.append(",\"message_type\":{\"type\":\"");
        append_payload(&mut out, &self.message_type);
        out.append(",\"timestamp\":\"");
        append_str_body(&mut out, self.timestamp.as_str());
        out.append("}");
        proof {
            lemma_fields_text_rest(
                self@.message_type,
                t_stamp() + str_text(self@.timestamp, "}"@),
            );
            assert(out@ =~= spec_encode(self@));
        }
        out
    }

    /// Reads one frame, newline excluded. Succeeds exactly on the canonical
    /// frames and never panics, whatever the input holds.
    pub fn from_json(s: &str) -> (r: Result<ProtocolMessage, DecodeError>)
        ensures
            match r {
                Ok(m) => spec_decode(s@) == Some(m@),
                Err(_) => spec_decode(s@) is None,
            },
            r is Ok <==> spec_decode(s@) is Some,
    {
        let p1 = match expect_lit(s, 0, "{\"id\":\"") {
            Some(p) => p,
            None => {
                return Err(DecodeError::Malformed);
            },
        };
        let (id, p2) = match parse_string(s, p1) {
            Some(x) => x,
            None => {
                return Err(DecodeError::Malformed);
            },
        };
        let p3 = match expect_lit(s, p2, ",\"message_type\":{\"type\":\"") {
            Some(p) => p,
            None => {
                return Err(DecodeError::Malformed);
            },
        };
        let (tag, p4) = match parse_string(s, p3) {
            Some(x) => x,
            None => {
                return Err(DecodeError::Malformed);
            },
        };
        let (mt, p5) = match parse_fields_exec(s, p4, tag.as_str()) {
            Some(x) => x,
            None => {
                return Err(DecodeError::Malformed);
            },
        };
        let (ts, p6) = match parse_kv_exec(s, p5, ",\"timestamp\":\"") {
            Some(x) => x,
            None => {
                return Err(DecodeError::Malformed);
            },
        };
        let p7 = match expect_lit(s, p6, "}") {
            Some(p) => p,
            None => {
                return Err(DecodeError::Malformed);
            },
        };
        if p7 == s.unicode_len() {
            let m = ProtocolMessage { id, message_type: mt, timestamp: ts };
            proof {
                assert(m@ =~= ProtocolMessageView {
                    id: m.id@,
                    message_type: m.message_type@,
                    timestamp: m.timestamp@,
                });
            }
            Ok(m)
        } else {
            Err(DecodeError::Malformed)
        }
    }
}

/// The continuation passed to [`arr_tail_text`] can be split off.
proof fn lemma_arr_tail_text_rest(us: Seq<Seq<char>>, rest: Seq<char>)
    ensures
        arr_tail_text(us, rest) == arr_tail_text(us, Seq::empty()) + rest,
    decreases us.len(),
{
    if us.len() == 0 {
        assert(arr_tail_text(us, rest) =~= arr_tail_text(us, Seq::empty()) + rest);
    } else {
        lemma_arr_tail_text_rest(us.drop_first(), rest);
        assert(arr_tail_text(us, rest) =~= arr_tail_text(us, Seq::empty()) + rest);
    }
}

/// The continuation passed to [`arr_text`] can be split off.
proof fn lemma_arr_text_rest(us: Seq<Seq<char>>, rest: Seq<char>)
    ensures
        arr_text(us, rest) == arr_text(us, Seq::empty()) + rest,
{
    if us.len() == 0 {
        assert(arr_text(us, rest) =~= arr_text(us, Seq::empty()) + rest);
    } else {
        lemma_arr_tail_text_rest(us.drop_first(), rest);
        assert(arr_text(us, rest) =~= arr_text(us, Seq::empty()) + rest);
    }
}

/// Appends the items of a user list and the closing bracket, mirroring
/// [`arr_text`].
fn append_items(out: &mut String, users: &Vec<String>)
    ensures
        final(out)@ == old(out)@ + arr_text(users.deep_view(), Seq::empty()),
{
    let n = users.len();
    if n == 0 {
        push_char(out, ']');
        proof {
            assert(final(out)@ =~= old(out)@ + arr_text(users.deep_view(), Seq::empty()));
        }
    } else {
        push_char(out, '"');
        append_str_body(out, users[0].as_str());
        proof {
            let dv = users.deep_view();
            assert(dv.drop_first() =~= dv.subrange(1, dv.len() as int));
            assert(out@ + arr_tail_text(dv.subrange(1, dv.len() as int), Seq::empty())
                =~= old(out)@ + arr_text(dv, Seq::empty()));
        }
        let mut i: usize = 1;
        while i < n
            invariant
                1 <= i <= n,
                n == users@.len(),
                out@ + arr_tail_text(users.deep_view().subrange(i as int, n as int), Seq::empty())
                    == old(out)@ + arr_text(users.deep_view(), Seq::empty()),
            decreases n - i,
        {
            push_char(out, ',');
            push_char(out, '"');
            append_str_body(out, users[i].as_str());
            proof {
                lemma_arr_tail_step(users.deep_view(), i as int);
                let dv = users.deep_view();
                assert(out@ + arr_tail_text(dv.subrange(i + 1, dv.len() as int), Seq::empty())
                    =~= old(out)@ + arr_text(dv, Seq::empty()));
            }
            i += 1;
        }
        push_char(out, ']');
        proof {
            assert(arr_tail_text(users.deep_view().subrange(n as int, n as int), Seq::empty())
                =~= seq![']']);
            assert(final(out)@ =~= old(out)@ + arr_text(users.deep_view(), Seq::empty()));
        }
    }
}

/// Unrolls one step of [`arr_tail_text`] along a suffix of the items.
proof fn lemma_arr_tail_step(us: Seq<Seq<char>>, i: int)
    requires
        1 <= i < us.len(),
    ensures
        arr_tail_text(us.subrange(i, us.len() as int), Seq::empty()) == seq![','] + (seq!['"']
            + (esc(us[i]).push('"') + arr_tail_text(
            us.subrange(i + 1, us.len() as int),
            Seq::empty(),
        ))),
{
    let sub = us.subrange(i, us.len() as int);
    assert(sub.len() > 0);
    assert(sub[0] == us[i]);
    assert(sub.drop_first() =~= us.subrange(i + 1, us.len() as int));
}


// ---------------------------------------------------------------------------
// Frames are self-delimited: the newline that ends a frame is the only one
// in it, because encoding escapes every newline inside string values and no
// fixed text carries one.
// ---------------------------------------------------------------------------

/// No newline anywhere in the text.
pub open spec fn has_no_newline(s: Seq<char>) -> bool {
    forall|i: int| 0 <= i < s.len() ==> #[trigger] s[i] != '\n'
}

/// Newline-freedom is preserved by joining texts.
proof fn lemma_no_newline_concat(a: Seq<char>, b: Seq<char>)
    requires
        has_no_newline(a),
        has_no_newline(b),
    ensures
        has_no_newline(a + b),
{
    assert forall|i: int| 0 <= i < (a + b).len() implies (a + b)[i] != '\n' by {
        if i < a.len() {
            assert((a + b)[i] == a[i]);
        } else {
            assert((a + b)[i] == b[i - a.len()]);
        }
    }
}

/// An escaped string body never holds a raw newline: the newline itself is
/// written as a backslash and the letter `n`.
proof fn lemma_esc_no_newline(s: Seq<char>)
    ensures
        has_no_newline(esc(s)),
    decreases s.len(),
{
    if s.len() > 0 {
        lemma_esc_no_newline(s.drop_first());
        assert(has_no_newline(esc_char(s[0])));
        lemma_no_newline_concat(esc_char(s[0]), esc(s.drop_first()));
    }
}

/// A string value with its closing quote, followed by newline-free text, is
/// newline-free.
proof fn lemma_str_text_no_newline(v: Seq<char>, rest: Seq<char>)
    requires
        has_no_newline(rest),
    ensures
        has_no_newline(str_text(v, rest)),
{
    lemma_esc_no_newline(v);
    assert(has_no_newline(esc(v).push('"'))) by {
        assert forall|i: int| 0 <= i < esc(v).len() + 1 implies esc(v).push('"')[i] != '\n' by {
            if i < esc(v).len() {
                assert(esc(v).push('"')[i] == esc(v)[i]);
            }
        }
    }
    lemma_no_newline_concat(esc(v).push('"'), rest);
}

/// None of the frame's fixed text carries a newline.
proof fn lemma_fixed_text_no_newline()
    ensures
        has_no_newline(t_open()),
        has_no_newline(t_type()),
        has_no_newline(t_stamp()),
        has_no_newline("}"@),
        has_no_newline(",\"username\":\""@),
        has_no_newline(",\"content\":\""@),
        has_no_newline(",\"user_id\":\""@),
        has_no_newline(",\"reason\":\""@),
        has_no_newline(",\"from\":\""@),
        has_no_newline(",\"timestamp\":\""@),
        has_no_newline(",\"users\":["@),
        has_no_newline(",\"message\":\""@),
{
    reveal_strlit("{\"id\":\"");
    reveal_strlit(",\"message_type\":{\"type\":\"");
    reveal_strlit(",\"timestamp\":\"");
    reveal_strlit("}");
    reveal_strlit(",\"username\":\"");
    reveal_strlit(",\"content\":\"");
    reveal_strlit(",\"user_id\":\"");
    reveal_strlit(",\"reason\":\"");
    reveal_strlit(",\"from\":\"");
    reveal_strlit(",\"users\":[");
    reveal_strlit(",\"message\":\"");
}

/// A user list's items and bracket, after newline-free rests.
proof fn lemma_arr_tail_no_newline(us: Seq<Seq<char>>, rest: Seq<char>)
    requires
        has_no_newline(rest),
    ensures
        has_no_newline(arr_tail_text(us, rest)),
    decreases us.len(),
{
    if us.len() == 0 {
        assert(has_no_newline(seq![']']));
        lemma_no_newline_concat(seq![']'], rest);
    } else {
        lemma_arr_tail_no_newline(us.drop_first(), rest);
        lemma_str_text_no_newline(us[0], arr_tail_text(us.drop_first(), rest));
        assert(has_no_newline(seq!['"']));
        lemma_no_newline_concat(
            seq!['"'],
            str_text(us[0], arr_tail_text(us.drop_first(), rest)),
        );
        assert(has_no_newline(seq![',']));
        lemma_no_newline_concat(
            seq![','],
            seq!['"'] + str_text(us[0], arr_tail_text(us.drop_first(), rest)),
        );
    }
}

/// A user list, after a newline-free rest.
proof fn lemma_arr_no_newline(us: Seq<Seq<char>>, rest: Seq<char>)
    requires
        has_no_newline(rest),
    ensures
        has_no_newline(arr_text(us, rest)),
{
    if us.len() == 0 {
        assert(has_no_newline(seq![']']));
        lemma_no_newline_concat(seq![']'], rest);
    } else {
        lemma_arr_tail_no_newline(us.drop_first(), rest);
        lemma_str_text_no_newline(us[0], arr_tail_text(us.drop_first(), rest));
        assert(has_no_newline(seq!['"']));
        lemma_no_newline_concat(
            seq!['"'],
            str_text(us[0], arr_tail_text(us.drop_first(), rest)),
        );
    }
}

/// A payload's fields, after a newline-free rest.
proof fn lemma_fields_no_newline(mt: MessageTypeView, rest: Seq<char>)
    requires
        has_no_newline(rest),
    ensures
        has_no_newline(fields_text(mt, rest)),
{
    reveal(fields_text);
    lemma_fixed_text_no_newline();
    lemma_no_newline_concat("}"@, rest);
    let closed = "}"@ + rest;
    match mt {
        MessageTypeView::Register { username } => {
            lemma_str_text_no_newline(username, closed);
            lemma_no_newline_concat(",\"username\":\""@, str_text(username, closed));
        },
        MessageTypeView::SendMessage { content } => {
            lemma_str_text_no_newline(content, closed);
            lemma_no_newline_concat(",\"content\":\""@, str_text(content, closed));
        },
        MessageTypeView::ListUsers => {},
        MessageTypeView::Disconnect => {},
        MessageTypeView::RegisterSuccess { user_id } => {
            lemma_str_text_no_newline(user_id, closed);
            lemma_no_newline_concat(",\"user_id\":\""@, str_text(user_id, closed));
        },
        MessageTypeView::RegisterError { reason } => {
            lemma_str_text_no_newline(reason, closed);
            lemma_no_newline_concat(",\"reason\":\""@, str_text(reason, closed));
        },
        MessageTypeView::MessageReceived { from, content, timestamp } => {
            lemma_str_text_no_newline(timestamp, closed);
            let r1 = ",\"timestamp\":\""@ + str_text(timestamp, closed);
            lemma_no_newline_concat(",\"timestamp\":\""@, str_text(timestamp, closed));
            lemma_str_text_no_newline(content, r1);
            let r2 = ",\"content\":\""@ + str_text(content, r1);
            lemma_no_newline_concat(",\"content\":\""@, str_text(content, r1));
            lemma_str_text_no_newline(from, r2);
            lemma_no_newline_concat(",\"from\":\""@, str_text(from, r2));
        },
        MessageTypeView::UserList { users } => {
            lemma_arr_no_newline(users, closed);
            lemma_no_newline_concat(",\"users\":["@, arr_text(users, closed));
        },
        MessageTypeView::UserJoined { username } => {
            lemma_str_text_no_newline(username, closed);
            lemma_no_newline_concat(",\"username\":\""@, str_text(username, closed));
        },
        MessageTypeView::UserLeft { username } => {
            lemma_str_text_no_newline(username, closed);
            lemma_no_newline_concat(",\"username\":\""@, str_text(username, closed));
        },
        MessageTypeView::Error { message } => {
            lemma_str_text_no_newline(message, closed);
            lemma_no_newline_concat(",\"message\":\""@, str_text(message, closed));
        },
        MessageTypeView::Ping => {},
        MessageTypeView::Pong => {},
    }
}

/// A frame is one line: whatever the message holds, its encoding carries no
/// newline, so the newline that terminates the frame delimits it on its own.
pub proof fn lemma_frame_single_line(m: ProtocolMessageView)
    ensures
        has_no_newline(spec_encode(m)),
{
    lemma_fixed_text_no_newline();
    let tail = str_text(m.timestamp, "}"@);
    lemma_str_text_no_newline(m.timestamp, "}"@);
    let r3 = t_stamp() + tail;
    lemma_no_newline_concat(t_stamp(), tail);
    let r2 = fields_text(m.message_type, r3);
    lemma_fields_no_newline(m.message_type, r3);
    let tagpart = str_text(tag_of(m.message_type), r2);
    lemma_str_text_no_newline(tag_of(m.message_type), r2);
    let r1 = t_type() + tagpart;
    lemma_no_newline_concat(t_type(), tagpart);
    let idpart = str_text(m.id, r1);
    lemma_str_text_no_newline(m.id, r1);
    lemma_no_newline_concat(t_open(), idpart);
}

impl ProtocolMessage {
    /// The full wire frame: the canonical encoding and the newline that
    /// terminates it, which is the only newline in the frame.
    pub fn to_frame(&self) -> (r: String)
        ensures
            r@ == spec_encode(self@).push('\n'),
            forall|i: int| 0 <= i < r@.len() - 1 ==> #[trigger] r@[i] != '\n',
    {
        let mut out = self.to_json();
        push_char(&mut out, '\n');
        proof {
            lemma_frame_single_line(self@);
            assert forall|i: int| 0 <= i < out@.len() - 1 implies out@[i] != '\n' by {
                assert(out@[i] == spec_encode(self@)[i]);
            }
        }
        out
    }
}

} // verus!

