//! A DNS message codec for A-record queries, with the lookup and validation
//! steps of a small stub resolver and responder.
//!
//! Names travel as length-prefixed labels; this codec reads and writes ASCII
//! names (DNS host names are ASCII by the protocol's own rules).

use vstd::prelude::*;

use crate::text::push_char;

verus! {

/// Why a DNS message could not be read or answered.
#[derive(Debug)]
pub enum DnsError {
    /// Fewer bytes than the structure needs.
    Truncated,
    /// A name's labels run past the input or hold non-ASCII bytes.
    BadName,
    /// A query with no question in it.
    NoQuestion,
    /// A response whose id is not the query's.
    IdMismatch,
    /// A response with no answer in it.
    NoAnswer,
    /// An answer whose data is not a 4-byte address.
    BadAnswer,
}

/// The two big-endian bytes of a 16-bit value.
pub open spec fn be16(x: u16) -> Seq<u8> {
    seq![(x / 256) as u8, (x % 256) as u8]
}

/// The four big-endian bytes of a 32-bit value.
pub open spec fn be32(x: u32) -> Seq<u8> {
    seq![
        (x / 0x1000000) as u8,
        ((x / 0x10000) % 256) as u8,
        ((x / 256) % 256) as u8,
        (x % 256) as u8,
    ]
}

/// The 16-bit value two big-endian bytes carry.
pub open spec fn combine16(hi: u8, lo: u8) -> u16 {
    (hi as u16 * 256 + lo as u16) as u16
}

/// The index of the first dot at or after `i`, or the length.
pub open spec fn first_dot_from(s: Seq<char>, i: int) -> int
    decreases s.len() - i,
{
    if i < 0 || i >= s.len() {
        s.len() as int
    } else if s[i] == '.' {
        i
    } else {
        first_dot_from(s, i + 1)
    }
}

proof fn lemma_first_dot_bounds(s: Seq<char>, i: int)
    requires
        0 <= i <= s.len(),
    ensures
        i <= first_dot_from(s, i) <= s.len(),
        first_dot_from(s, i) < s.len() ==> s[first_dot_from(s, i)] == '.',
        forall|k: int| i <= k < first_dot_from(s, i) ==> s[k] != '.',
    decreases s.len() - i,
{
    if i < s.len() && s[i] != '.' {
        lemma_first_dot_bounds(s, i + 1);
    }
}

/// The low byte of each character, one byte per character.
pub open spec fn char_bytes(s: Seq<char>) -> Seq<u8> {
    Seq::new(s.len(), |i: int| s[i] as u8)
}

/// A name on the wire: each dot-separated label length-prefixed, then a zero
/// byte. A label longer than 255 characters has its length clipped, as a
/// cast to one byte clips it.
pub open spec fn name_bytes(s: Seq<char>) -> Seq<u8>
    decreases s.len(),
    via name_bytes_decreases
{
    let d = first_dot_from(s, 0);
    if d == s.len() {
        seq![d as u8] + char_bytes(s) + seq![0u8]
    } else {
        seq![d as u8] + char_bytes(s.subrange(0, d)) + name_bytes(
            s.subrange(d + 1, s.len() as int),
        )
    }
}

#[via_fn]
proof fn name_bytes_decreases(s: Seq<char>) {
    lemma_first_dot_bounds(s, 0);
}

/// The characters a label's bytes stand for.
pub open spec fn label_chars(b: Seq<u8>, pos: int, l: int) -> Seq<char> {
    Seq::new(l as nat, |i: int| b[pos + i] as char)
}

/// Reads a name from `pos`: labels until a zero byte or the end of the
/// input, joined with dots. Fails when a label runs past the input or
/// holds a non-ASCII byte.
pub open spec fn parse_name(b: Seq<u8>, pos: int) -> Option<(Seq<char>, int)>
    decreases b.len() - pos,
{
    if pos < 0 {
        None
    } else if pos >= b.len() {
        Some((Seq::empty(), pos))
    } else {
        let l = b[pos] as int;
        if l == 0 {
            Some((Seq::empty(), pos + 1))
        } else if pos + 1 + l > b.len() {
            None
        } else if exists|i: int| 0 <= i < l && #[trigger] b[pos + 1 + i] >= 128 {
            None
        } else {
            match parse_name(b, pos + 1 + l) {
                Some((rest, q)) => Some(
                    (
                        label_chars(b, pos + 1, l) + (if rest.len() == 0 {
                            Seq::<char>::empty()
                        } else {
                            seq!['.'] + rest
                        }),
                        q,
                    ),
                ),
                None => None,
            }
        }
    }
}

/// Reads a name, mirroring [`parse_name`].
fn name_from(b: &[u8], pos: usize) -> (r: Option<(String, usize)>)
    ensures
        match r {
            Some((s, q)) => parse_name(b@, pos as int) == Some((s@, q as int)),
            None => parse_name(b@, pos as int) is None,
        },
    decreases b@.len() - pos,
{
    let len = b.len();
    if pos >= len {
        let s = String::new();
        proof {
            assert(s@ =~= Seq::<char>::empty());
        }
        return Some((s, pos));
    }
    let l = b[pos] as usize;
    if l == 0 {
        let s = String::new();
        proof {
            assert(s@ =~= Seq::<char>::empty());
        }
        return Some((s, pos + 1));
    }
    if l > len - (pos + 1) {
        return None;
    }
    let mut label = String::new();
    let mut i: usize = 0;
    while i < l
        invariant
            0 <= i <= l,
            pos + 1 + l <= len,
            len == b@.len(),
            l == b@[pos as int] as int,
            label@ =~= label_chars(b@, pos + 1 as int, i as int),
            forall|k: int| 0 <= k < i ==> #[trigger] b@[pos + 1 + k] < 128,
        decreases l - i,
    {
        let byte = b[pos + 1 + i];
        if byte >= 128 {
            proof {
                assert(exists|k: int| 0 <= k < l && #[trigger] b@[pos as int + 1 + k] >= 128);
            }
            return None;
        }
        push_char(&mut label, byte as char);
        proof {
            assert(label@ =~= label_chars(b@, pos + 1 as int, i + 1 as int));
        }
        i += 1;
    }
    proof {
        assert(forall|k: int| 0 <= k < l ==> #[trigger] b@[pos as int + 1 + k] < 128);
    }
    match name_from(b, pos + 1 + l) {
        Some((rest, q)) => {
            if rest.unicode_len() == 0 {
                proof {
                    assert(label@ =~= label_chars(b@, pos + 1 as int, l as int) + Seq::<
                        char,
                    >::empty());
                }
                Some((label, q))
            } else {
                push_char(&mut label, '.');
                label.append(rest.as_str());
                proof {
                    assert(label@ =~= label_chars(b@, pos + 1 as int, l as int) + (seq!['.']
                        + rest@));
                }
                Some((label, q))
            }
        },
        None => None,
    }
}

/// The index of the first dot, or the length.
fn find_dot(s: &str) -> (r: usize)
    ensures
        r as int == first_dot_from(s@, 0),
        r <= s@.len(),
{
    proof {
        lemma_first_dot_bounds(s@, 0);
    }
    let len = s.unicode_len();
    let mut i: usize = 0;
    while i < len
        invariant
            0 <= i <= len,
            len == s@.len(),
            first_dot_from(s@, 0) == first_dot_from(s@, i as int),
        decreases len - i,
    {
        if s.get_char(i) == '.' {
            return i;
        }
        i += 1;
    }
    len
}

/// Writes a name, mirroring [`name_bytes`].
fn append_name(out: &mut Vec<u8>, name: &str)
    ensures
        final(out)@ == old(out)@ + name_bytes(name@),
    decreases name@.len(),
{
    proof {
        lemma_first_dot_bounds(name@, 0);
    }
    let len = name.unicode_len();
    let d = find_dot(name);
    let l: u8 = #[verifier::truncate] (d as u8);
    out.push(l);
    let mut i: usize = 0;
    while i < d
        invariant
            0 <= i <= d <= len,
            len == name@.len(),
            out@ =~= old(out)@ + seq![d as u8] + char_bytes(name@.subrange(0, d as int)).subrange(
                0,
                i as int,
            ),
        decreases d - i,
    {
        let c = name.get_char(i);
        let c32 = c as u32;
        let byte: u8 = #[verifier::truncate] (c32 as u8);
        out.push(byte);
        proof {
            assert(out@ =~= old(out)@ + seq![d as u8] + char_bytes(
                name@.subrange(0, d as int),
            ).subrange(0, i + 1 as int));
        }
        i += 1;
    }
    if d == len {
        out.push(0);
        proof {
            assert(char_bytes(name@.subrange(0, len as int)) =~= char_bytes(name@));
            assert(out@ =~= old(out)@ + name_bytes(name@));
        }
    } else {
        let rest = name.substring_char(d + 1, len);
        append_name(out, rest);
        proof {
            assert(rest@ =~= name@.subrange(d + 1, len as int));
            assert(out@ =~= old(out)@ + name_bytes(name@));
        }
    }
}

/// The fixed-size header of every DNS message.
#[derive(Clone, Copy)]
pub struct DnsHeader {
    pub id: u16,
    pub flags: u16,
    pub question_count: u16,
    pub answer_count: u16,
    pub authority_count: u16,
    pub additional_count: u16,
}

/// A header's twelve wire bytes.
pub open spec fn header_bytes(h: DnsHeader) -> Seq<u8> {
    be16(h.id) + be16(h.flags) + be16(h.question_count) + be16(h.answer_count) + be16(
        h.authority_count,
    ) + be16(h.additional_count)
}

fn push_be16(out: &mut Vec<u8>, x: u16)
    ensures
        final(out)@ == old(out)@ + be16(x),
{
    out.push((x / 256) as u8);
    out.push((x % 256) as u8);
    proof {
        assert(out@ =~= old(out)@ + be16(x));
    }
}

impl DnsHeader {
    /// A standard-query header with no sections yet.
    pub fn new(id: u16) -> (r: DnsHeader)
        ensures
            r.id == id,
            r.flags == 0x0100,
            r.question_count == 0,
            r.answer_count == 0,
            r.authority_count == 0,
            r.additional_count == 0,
    {
        DnsHeader {
            id,
            flags: 0x0100,
            question_count: 0,
            answer_count: 0,
            authority_count: 0,
            additional_count: 0,
        }
    }

    /// The header's twelve wire bytes.
    pub fn to_bytes(&self) -> (r: Vec<u8>)
        ensures
            r@ == header_bytes(*self),
    {
        let mut out: Vec<u8> = Vec::new();
        push_be16(&mut out, self.id);
        push_be16(&mut out, self.flags);
        push_be16(&mut out, self.question_count);
        push_be16(&mut out, self.answer_count);
        push_be16(&mut out, self.authority_count);
        push_be16(&mut out, self.additional_count);
        proof {
            assert(out@ =~= header_bytes(*self));
        }
        out
    }

    /// Reads a header: succeeds exactly on twelve or more bytes.
    pub fn from_bytes(bytes: &[u8]) -> (r: Result<DnsHeader, DnsError>)
        ensures
            r is Ok <==> bytes@.len() >= 12,
            r matches Ok(h) ==> h == (DnsHeader {
                id: combine16(bytes@[0], bytes@[1]),
                flags: combine16(bytes@[2], bytes@[3]),
                question_count: combine16(bytes@[4], bytes@[5]),
                answer_count: combine16(bytes@[6], bytes@[7]),
                authority_count: combine16(bytes@[8], bytes@[9]),
                additional_count: combine16(bytes@[10], bytes@[11]),
            }),
    {
        if bytes.len() < 12 {
            return Err(DnsError::Truncated);
        }
        Ok(
            DnsHeader {
                id: bytes[0] as u16 * 256 + bytes[1] as u16,
                flags: bytes[2] as u16 * 256 + bytes[3] as u16,
                question_count: bytes[4] as u16 * 256 + bytes[5] as u16,
                answer_count: bytes[6] as u16 * 256 + bytes[7] as u16,
                authority_count: bytes[8] as u16 * 256 + bytes[9] as u16,
                additional_count: bytes[10] as u16 * 256 + bytes[11] as u16,
            },
        )
    }
}

/// One question: a name and the record type and class asked for.
pub struct DnsQuestion {
    pub name: String,
    pub qtype: u16,
    pub qclass: u16,
}

/// The mathematical model of a [`DnsQuestion`].
#[verifier::ext_equal]
pub ghost struct DnsQuestionView {
    pub name: Seq<char>,
    pub qtype: u16,
    pub qclass: u16,
}

impl View for DnsQuestion {
    type V = DnsQuestionView;

    open spec fn view(&self) -> DnsQuestionView {
        DnsQuestionView { name: self.name@, qtype: self.qtype, qclass: self.qclass }
    }
}

impl DeepView for DnsQuestion {
    type V = DnsQuestionView;

    open spec fn deep_view(&self) -> DnsQuestionView {
        self.view()
    }
}

impl Clone for DnsQuestion {
    /// A clone asks the same question.
    fn clone(&self) -> (r: Self)
        ensures
            r@ == self@,
    {
        DnsQuestion { name: self.name.clone(), qtype: self.qtype, qclass: self.qclass }
    }
}

/// A question's wire bytes.
pub open spec fn question_bytes(q: DnsQuestionView) -> Seq<u8> {
    name_bytes(q.name) + be16(q.qtype) + be16(q.qclass)
}

/// Reads one question.
pub open spec fn parse_question(b: Seq<u8>, pos: int) -> Option<(DnsQuestionView, int)> {
    match parse_name(b, pos) {
        Some((nm, q)) => if q + 4 <= b.len() {
            Some(
                (
                    DnsQuestionView {
                        name: nm,
                        qtype: combine16(b[q], b[q + 1]),
                        qclass: combine16(b[q + 2], b[q + 3]),
                    },
                    q + 4,
                ),
            )
        } else {
            None
        },
        None => None,
    }
}

impl DnsQuestion {
    /// An A-record, Internet-class question for `name`.
    pub fn new(name: String) -> (r: DnsQuestion)
        ensures
            r@.name == name@,
            r@.qtype == 1,
            r@.qclass == 1,
    {
        DnsQuestion { name, qtype: 1, qclass: 1 }
    }

    /// The question's wire bytes.
    pub fn to_bytes(&self) -> (r: Vec<u8>)
        ensures
            r@ == question_bytes(self@),
    {
        let mut out: Vec<u8> = Vec::new();
        append_name(&mut out, self.name.as_str());
        push_be16(&mut out, self.qtype);
        push_be16(&mut out, self.qclass);
        proof {
            assert(out@ =~= question_bytes(self@));
        }
        out
    }

    /// Reads one question at `offset` and moves the offset past it,
    /// mirroring [`parse_question`]; the offset stays put on failure.
    pub fn from_bytes(bytes: &[u8], offset: &mut usize) -> (r: Result<DnsQuestion, DnsError>)
        ensures
            match r {
                Ok(q) => parse_question(bytes@, *old(offset) as int) == Some(
                    (q@, *final(offset) as int),
                ),
                Err(_) => parse_question(bytes@, *old(offset) as int) is None && *final(offset)
                    == *old(offset),
            },
    {
        let (name, q) = match name_from(bytes, *offset) {
            Some(x) => x,
            None => {
                return Err(DnsError::BadName);
            },
        };
        if bytes.len() < 4 || q > bytes.len() - 4 {
            return Err(DnsError::Truncated);
        }
        let qtype = bytes[q] as u16 * 256 + bytes[q + 1] as u16;
        let qclass = bytes[q + 2] as u16 * 256 + bytes[q + 3] as u16;
        *offset = q + 4;
        Ok(DnsQuestion { name, qtype, qclass })
    }
}

/// One answer record.
pub struct DnsAnswer {
    pub name: String,
    pub rtype: u16,
    pub rclass: u16,
    pub ttl: u32,
    pub rdlength: u16,
    pub rdata: Vec<u8>,
}

/// The mathematical model of a [`DnsAnswer`].
#[verifier::ext_equal]
pub ghost struct DnsAnswerView {
    pub name: Seq<char>,
    pub rtype: u16,
    pub rclass: u16,
    pub ttl: u32,
    pub rdlength: u16,
    pub rdata: Seq<u8>,
}

impl View for DnsAnswer {
    type V = DnsAnswerView;

    open spec fn view(&self) -> DnsAnswerView {
        DnsAnswerView {
            name: self.name@,
            rtype: self.rtype,
            rclass: self.rclass,
            ttl: self.ttl,
            rdlength: self.rdlength,
            rdata: self.rdata@,
        }
    }
}

impl DeepView for DnsAnswer {
    type V = DnsAnswerView;

    open spec fn deep_view(&self) -> DnsAnswerView {
        self.view()
    }
}

/// An answer's wire bytes.
pub open spec fn answer_bytes(a: DnsAnswerView) -> Seq<u8> {
    name_bytes(a.name) + be16(a.rtype) + be16(a.rclass) + be32(a.ttl) + be16(a.rdlength) + a.rdata
}

impl DnsAnswer {
    /// A five-minute A record binding `name` to the address `ip`.
    pub fn new(name: String, ip: [u8; 4]) -> (r: DnsAnswer)
        ensures
            r@.name == name@,
            r@.rtype == 1,
            r@.rclass == 1,
            r@.ttl == 300,
            r@.rdlength == 4,
            r@.rdata == ip@,
    {
        let mut rdata: Vec<u8> = Vec::new();
        rdata.push(ip[0]);
        rdata.push(ip[1]);
        rdata.push(ip[2]);
        rdata.push(ip[3]);
        proof {
            assert(rdata@ =~= ip@);
        }
        DnsAnswer { name, rtype: 1, rclass: 1, ttl: 300, rdlength: 4, rdata }
    }

    /// The answer's wire bytes.
    pub fn to_bytes(&self) -> (r: Vec<u8>)
        ensures
            r@ == answer_bytes(self@),
    {
        let mut out: Vec<u8> = Vec::new();
        append_name(&mut out, self.name.as_str());
        push_be16(&mut out, self.rtype);
        push_be16(&mut out, self.rclass);
        out.push((self.ttl / 0x1000000) as u8);
        out.push(((self.ttl / 0x10000) % 256) as u8);
        out.push(((self.ttl / 256) % 256) as u8);
        out.push((self.ttl % 256) as u8);
        push_be16(&mut out, self.rdlength);
        let mut i: usize = 0;
        let n = self.rdata.len();
        let ghost mid = out@;
        while i < n
            invariant
                0 <= i <= n,
                n == self.rdata@.len(),
                out@ =~= mid + self.rdata@.subrange(0, i as int),
            decreases n - i,
        {
            out.push(self.rdata[i]);
            i += 1;
        }
        proof {
            assert(out@ =~= answer_bytes(self@));
        }
        out
    }
}

/// A whole message: header, questions, answers.
pub struct DnsMessage {
    pub header: DnsHeader,
    pub questions: Vec<DnsQuestion>,
    pub answers: Vec<DnsAnswer>,
}

/// The wire bytes of a run of questions.
pub open spec fn questions_bytes(qs: Seq<DnsQuestionView>) -> Seq<u8>
    decreases qs.len(),
{
    if qs.len() == 0 {
        Seq::empty()
    } else {
        question_bytes(qs[0]) + questions_bytes(qs.drop_first())
    }
}

/// The wire bytes of a run of answers.
pub open spec fn answers_bytes(an: Seq<DnsAnswerView>) -> Seq<u8>
    decreases an.len(),
{
    if an.len() == 0 {
        Seq::empty()
    } else {
        answer_bytes(an[0]) + answers_bytes(an.drop_first())
    }
}

/// A message's wire bytes.
pub open spec fn message_bytes(
    h: DnsHeader,
    qs: Seq<DnsQuestionView>,
    an: Seq<DnsAnswerView>,
) -> Seq<u8> {
    header_bytes(h) + questions_bytes(qs) + answers_bytes(an)
}

/// Reads `n` questions in a row.
pub open spec fn parse_questions(b: Seq<u8>, pos: int, n: nat) -> Option<
    (Seq<DnsQuestionView>, int),
>
    decreases n,
{
    if n == 0 {
        Some((Seq::empty(), pos))
    } else {
        match parse_question(b, pos) {
            Some((q, p2)) => match parse_questions(b, p2, (n - 1) as nat) {
                Some((qs, p3)) => Some((seq![q] + qs, p3)),
                None => None,
            },
            None => None,
        }
    }
}

/// What reading a whole message means: the header, then as many questions
/// as it announces. Answers are not read back; a resolver only ever parses
/// its own queries' responses for the answer count and data it needs.
pub open spec fn parse_message(b: Seq<u8>) -> Option<(DnsHeader, Seq<DnsQuestionView>)> {
    if b.len() < 12 {
        None
    } else {
        let h = DnsHeader {
            id: combine16(b[0], b[1]),
            flags: combine16(b[2], b[3]),
            question_count: combine16(b[4], b[5]),
            answer_count: combine16(b[6], b[7]),
            authority_count: combine16(b[8], b[9]),
            additional_count: combine16(b[10], b[11]),
        };
        match parse_questions(b, 12, h.question_count as nat) {
            Some((qs, _)) => Some((h, qs)),
            None => None,
        }
    }
}

/// Reads `n` questions in a row, mirroring [`parse_questions`].
fn questions_from(bytes: &[u8], pos: usize, n: u16) -> (r: Option<(Vec<DnsQuestion>, usize)>)
    ensures
        match r {
            Some((qs, q)) => parse_questions(bytes@, pos as int, n as nat) == Some(
                (qs.deep_view(), q as int),
            ),
            None => parse_questions(bytes@, pos as int, n as nat) is None,
        },
    decreases n,
{
    if n == 0 {
        let qs: Vec<DnsQuestion> = Vec::new();
        proof {
            assert(qs.deep_view() =~= Seq::<DnsQuestionView>::empty());
        }
        return Some((qs, pos));
    }
    let mut offset = pos;
    let q = match DnsQuestion::from_bytes(bytes, &mut offset) {
        Ok(q) => q,
        Err(_) => {
            return None;
        },
    };
    match questions_from(bytes, offset, n - 1) {
        Some((mut qs, p3)) => {
            let ghost prev = qs@;
            let ghost tail = qs.deep_view();
            qs.insert(0, q);
            proof {
                prev.insert_ensures(0, q);
                assert(qs.deep_view() =~= seq![q@] + tail) by {
                    assert forall|k: int| 0 <= k < qs@.len() implies qs.deep_view()[k] == (
                    seq![q@] + tail)[k] by {
                        if k == 0 {
                            assert(qs@[0] == q);
                        } else {
                            assert(qs@[k] == prev[k - 1]);
                        }
                    }
                }
            }
            Some((qs, p3))
        },
        None => None,
    }
}

/// Unrolls one step of [`questions_bytes`] along a suffix of the questions.
proof fn lemma_questions_bytes_step(qs: Seq<DnsQuestionView>, i: int)
    requires
        0 <= i < qs.len(),
    ensures
        questions_bytes(qs.subrange(i, qs.len() as int)) == question_bytes(qs[i])
            + questions_bytes(qs.subrange(i + 1, qs.len() as int)),
{
    let sub = qs.subrange(i, qs.len() as int);
    assert(sub.len() > 0);
    assert(sub[0] == qs[i]);
    assert(sub.drop_first() =~= qs.subrange(i + 1, qs.len() as int));
}

/// Unrolls one step of [`answers_bytes`] along a suffix of the answers.
proof fn lemma_answers_bytes_step(an: Seq<DnsAnswerView>, i: int)
    requires
        0 <= i < an.len(),
    ensures
        answers_bytes(an.subrange(i, an.len() as int)) == answer_bytes(an[i]) + answers_bytes(
            an.subrange(i + 1, an.len() as int),
        ),
{
    let sub = an.subrange(i, an.len() as int);
    assert(sub.len() > 0);
    assert(sub[0] == an[i]);
    assert(sub.drop_first() =~= an.subrange(i + 1, an.len() as int));
}

impl DnsMessage {
    /// A query for one domain.
    pub fn new_query(id: u16, domain: String) -> (r: DnsMessage)
        ensures
            r.header.id == id,
            r.header.flags == 0x0100,
            r.header.question_count == 1,
            r.header.answer_count == 0,
            r.questions.deep_view() =~= seq![
                DnsQuestionView { name: domain@, qtype: 1, qclass: 1 },
            ],
            r.answers@.len() == 0,
    {
        let mut header = DnsHeader::new(id);
        header.question_count = 1;
        let question = DnsQuestion::new(domain);
        let mut questions: Vec<DnsQuestion> = Vec::new();
        questions.push(question);
        DnsMessage { header, questions, answers: Vec::new() }
    }

    /// The authoritative response to `query`, carrying `answers`. An answer
    /// count beyond a 16-bit counter is clipped, as a cast to it clips.
    pub fn new_response(query: &DnsMessage, answers: Vec<DnsAnswer>) -> (r: DnsMessage)
        ensures
            r.header.id == query.header.id,
            r.header.flags == 0x8180,
            r.header.question_count == query.header.question_count,
            r.header.answer_count == answers@.len() as u16,
            r.questions.deep_view() == query.questions.deep_view(),
            r.answers@ == answers@,
    {
        let mut header = query.header;
        header.flags = 0x8180;
        let count: u16 = #[verifier::truncate] (answers.len() as u16);
        header.answer_count = count;
        let questions = clone_questions(&query.questions);
        DnsMessage { header, questions, answers }
    }

    /// The message's wire bytes: header, questions, answers, in order.
    pub fn to_bytes(&self) -> (r: Vec<u8>)
        ensures
            r@ == message_bytes(self.header, self.questions.deep_view(), self.answers.deep_view()),
    {
        let mut out = self.header.to_bytes();
        let qn = self.questions.len();
        let qdv = Ghost(self.questions.deep_view());
        let mut i: usize = 0;
        proof {
            assert(qdv@.subrange(0, qn as int) =~= qdv@);
        }
        while i < qn
            invariant
                0 <= i <= qn,
                qn == self.questions@.len(),
                qdv@ == self.questions.deep_view(),
                out@ + questions_bytes(qdv@.subrange(i as int, qn as int)) == header_bytes(
                    self.header,
                ) + questions_bytes(qdv@),
            decreases qn - i,
        {
            let mut qb = self.questions[i].to_bytes();
            out.append(&mut qb);
            proof {
                lemma_questions_bytes_step(qdv@, i as int);
                assert(out@ + questions_bytes(qdv@.subrange(i + 1 as int, qn as int))
                    =~= header_bytes(self.header) + questions_bytes(qdv@));
            }
            i += 1;
        }
        proof {
            assert(questions_bytes(qdv@.subrange(qn as int, qn as int)) =~= Seq::<u8>::empty());
            assert(out@ =~= header_bytes(self.header) + questions_bytes(qdv@));
        }
        let an = self.answers.len();
        let adv = Ghost(self.answers.deep_view());
        let mut j: usize = 0;
        proof {
            assert(adv@.subrange(0, an as int) =~= adv@);
        }
        while j < an
            invariant
                0 <= j <= an,
                an == self.answers@.len(),
                adv@ == self.answers.deep_view(),
                qdv@ == self.questions.deep_view(),
                out@ + answers_bytes(adv@.subrange(j as int, an as int)) == header_bytes(
                    self.header,
                ) + questions_bytes(qdv@) + answers_bytes(adv@),
            decreases an - j,
        {
            let mut ab = self.answers[j].to_bytes();
            out.append(&mut ab);
            proof {
                lemma_answers_bytes_step(adv@, j as int);
                assert(out@ + answers_bytes(adv@.subrange(j + 1 as int, an as int))
                    =~= header_bytes(self.header) + questions_bytes(qdv@) + answers_bytes(adv@));
            }
            j += 1;
        }
        proof {
            assert(answers_bytes(adv@.subrange(an as int, an as int)) =~= Seq::<u8>::empty());
            assert(out@ =~= message_bytes(
                self.header,
                self.questions.deep_view(),
                self.answers.deep_view(),
            ));
        }
        out
    }

    /// Reads a message: the header, then the questions it announces,
    /// mirroring [`parse_message`]. Answers are not read back.
    pub fn from_bytes(bytes: &[u8]) -> (r: Result<DnsMessage, DnsError>)
        ensures
            r is Ok <==> parse_message(bytes@) is Some,
            r matches Ok(m) ==> {
                &&& parse_message(bytes@) matches Some((h, qs)) && m.header == h
                    && m.questions.deep_view() == qs
                &&& m.answers@.len() == 0
            },
    {
        let header = match DnsHeader::from_bytes(bytes) {
            Ok(h) => h,
            Err(e) => {
                return Err(e);
            },
        };
        match questions_from(bytes, 12, header.question_count) {
            Some((questions, _)) => Ok(DnsMessage { header, questions, answers: Vec::new() }),
            None => Err(DnsError::BadName),
        }
    }
}

/// Copies a question list.
fn clone_questions(qs: &Vec<DnsQuestion>) -> (r: Vec<DnsQuestion>)
    ensures
        r.deep_view() == qs.deep_view(),
{
    let mut r: Vec<DnsQuestion> = Vec::new();
    let n = qs.len();
    let mut i: usize = 0;
    while i < n
        invariant
            0 <= i <= n,
            n == qs@.len(),
            r.deep_view() =~= qs.deep_view().subrange(0, i as int),
        decreases n - i,
    {
        let ghost prev = r.deep_view();
        let ghost prevraw = r@;
        r.push(qs[i].clone());
        proof {
            assert(r.deep_view() =~= prev.push(qs.deep_view()[i as int])) by {
                assert forall|k: int| 0 <= k < r.deep_view().len() implies r.deep_view()[k]
                    == prev.push(qs.deep_view()[i as int])[k] by {
                    if k < prevraw.len() {
                        assert(r@[k] == prevraw[k]);
                    }
                }
            }
            assert(r.deep_view() =~= qs.deep_view().subrange(0, i + 1 as int));
        }
        i += 1;
    }
    proof {
        assert(r.deep_view() =~= qs.deep_view());
    }
    r
}

/// One address record a responder serves.
pub struct DnsRecord {
    pub name: String,
    pub ip: [u8; 4],
}

/// The mathematical model of a [`DnsRecord`].
#[verifier::ext_equal]
pub ghost struct DnsRecordView {
    pub name: Seq<char>,
    pub ip: Seq<u8>,
}

impl View for DnsRecord {
    type V = DnsRecordView;

    open spec fn view(&self) -> DnsRecordView {
        DnsRecordView { name: self.name@, ip: self.ip@ }
    }
}

impl DeepView for DnsRecord {
    type V = DnsRecordView;

    open spec fn deep_view(&self) -> DnsRecordView {
        self.view()
    }
}

/// The first record holding `name`, if any.
pub open spec fn record_lookup(rs: Seq<DnsRecordView>, name: Seq<char>) -> Option<DnsRecordView>
    decreases rs.len(),
{
    if rs.len() == 0 {
        None
    } else if rs[0].name == name {
        Some(rs[0])
    } else {
        record_lookup(rs.drop_first(), name)
    }
}

/// Answers one query from a table of address records: an A-record question
/// whose name is on file gets one answer, anything else gets an empty answer
/// section; a query with no question is refused.
pub fn answer_query(records: &Vec<DnsRecord>, query: &DnsMessage) -> (r: Result<
    DnsMessage,
    DnsError,
>)
    ensures
        r is Ok <==> query.questions@.len() > 0,
        r matches Ok(m) ==> {
            &&& m.header.id == query.header.id
            &&& m.header.flags == 0x8180
            &&& m.questions.deep_view() == query.questions.deep_view()
            &&& ({
                let q = query.questions.deep_view()[0];
                if q.qtype == 1 && record_lookup(records.deep_view(), q.name) is Some {
                    let rec = record_lookup(records.deep_view(), q.name).unwrap();
                    &&& m.answers@.len() == 1
                    &&& m.header.answer_count == 1
                    &&& m.answers.deep_view()[0].name == q.name
                    &&& m.answers.deep_view()[0].rtype == 1
                    &&& m.answers.deep_view()[0].rdata == rec.ip
                } else {
                    m.answers@.len() == 0 && m.header.answer_count == 0
                }
            })
        },
{
    if query.questions.len() == 0 {
        return Err(DnsError::NoQuestion);
    }
    let question = &query.questions[0];
    let mut answers: Vec<DnsAnswer> = Vec::new();
    if question.qtype == 1 {
        match record_index(records, question.name.as_str()) {
            Some(i) => {
                let answer = DnsAnswer::new(records[i].name.clone(), records[i].ip);
                proof {
                    lemma_record_lookup_index(records.deep_view(), question.name@, i as int);
                }
                answers.push(answer);
                proof {
                    assert(answers.deep_view() =~= seq![answer@]);
                }
            },
            None => {
                proof {
                    lemma_record_lookup_none(records.deep_view(), question.name@);
                }
            },
        }
    }
    proof {
        assert(query.questions.deep_view()[0] == query.questions@[0]@);
    }
    Ok(DnsMessage::new_response(query, answers))
}

/// The index of the first record holding `name`, if any.
fn record_index(records: &Vec<DnsRecord>, name: &str) -> (r: Option<usize>)
    ensures
        match r {
            Some(i) => i < records.deep_view().len() && records.deep_view()[i as int].name
                == name@ && (forall|k: int|
                0 <= k < i ==> (#[trigger] records.deep_view()[k]).name != name@),
            None => forall|k: int|
                0 <= k < records.deep_view().len() ==> (#[trigger] records.deep_view()[k]).name
                    != name@,
        },
{
    let n = records.len();
    let mut i: usize = 0;
    while i < n
        invariant
            0 <= i <= n,
            n == records@.len(),
            forall|k: int| 0 <= k < i ==> (#[trigger] records.deep_view()[k]).name != name@,
        decreases n - i,
    {
        if crate::text::str_eq(records[i].name.as_str(), name) {
            return Some(i);
        }
        i += 1;
    }
    None
}

/// Where no record holds the name, the lookup finds nothing.
proof fn lemma_record_lookup_none(rs: Seq<DnsRecordView>, name: Seq<char>)
    requires
        forall|k: int| 0 <= k < rs.len() ==> (#[trigger] rs[k]).name != name,
    ensures
        record_lookup(rs, name) is None,
    decreases rs.len(),
{
    if rs.len() > 0 {
        assert(rs[0].name != name);
        assert forall|k: int| 0 <= k < rs.drop_first().len() implies (#[trigger] rs.drop_first()[k]).name
            != name by {
            assert(rs.drop_first()[k] == rs[k + 1]);
        }
        lemma_record_lookup_none(rs.drop_first(), name);
    }
}

/// The first match found by a scan is the one `record_lookup` names.
proof fn lemma_record_lookup_index(rs: Seq<DnsRecordView>, name: Seq<char>, i: int)
    requires
        0 <= i < rs.len(),
        rs[i].name == name,
        forall|k: int| 0 <= k < i ==> (#[trigger] rs[k]).name != name,
    ensures
        record_lookup(rs, name) == Some(rs[i]),
    decreases i,
{
    if i > 0 {
        assert(rs[0].name != name);
        lemma_record_lookup_index(rs.drop_first(), name, i - 1);
        assert(rs.drop_first()[i - 1] == rs[i]);
    }
}

/// Checks a response against the query id and takes the address out of its
/// first answer: exactly the validation a resolver does before trusting a
/// reply.
pub fn resolve_answer(response: &DnsMessage, query_id: u16) -> (r: Result<[u8; 4], DnsError>)
    ensures
        response.header.id != query_id ==> (r matches Err(e) && e is IdMismatch),
        response.header.id == query_id && response.answers@.len() == 0 ==> (r matches Err(e)
            && e is NoAnswer),
        response.header.id == query_id && response.answers@.len() > 0
            && response.answers.deep_view()[0].rdata.len() != 4 ==> (r matches Err(e)
            && e is BadAnswer),
        response.header.id == query_id && response.answers@.len() > 0
            && response.answers.deep_view()[0].rdata.len() == 4 ==> (r matches Ok(ip) && ip@
            == response.answers.deep_view()[0].rdata),
{
    if response.header.id != query_id {
        return Err(DnsError::IdMismatch);
    }
    if response.answers.len() == 0 {
        return Err(DnsError::NoAnswer);
    }
    let first = &response.answers[0];
    if first.rdata.len() == 4 {
        let ip: [u8; 4] = [first.rdata[0], first.rdata[1], first.rdata[2], first.rdata[3]];
        proof {
            assert(ip@ =~= response.answers.deep_view()[0].rdata);
        }
        Ok(ip)
    } else {
        Err(DnsError::BadAnswer)
    }
}

} // verus!

verus! {

/// A name fit for the wire: ASCII throughout, dot-separated labels of one to
/// sixty-three characters each, as the protocol demands of host names.
pub open spec fn wf_name(s: Seq<char>) -> bool {
    (forall|i: int| 0 <= i < s.len() ==> (#[trigger] s[i] as u32) < 128) && wf_labels(s)
}

/// Every label is one to sixty-three characters long.
pub open spec fn wf_labels(s: Seq<char>) -> bool
    decreases s.len(),
    via wf_labels_decreases
{
    let d = first_dot_from(s, 0);
    &&& 1 <= d <= 63
    &&& (d == s.len() || wf_labels(s.subrange(d + 1, s.len() as int)))
}

#[via_fn]
proof fn wf_labels_decreases(s: Seq<char>) {
    lemma_first_dot_bounds(s, 0);
}

/// An ASCII character goes through one byte and back unchanged.
proof fn lemma_ascii_char_byte(c: char)
    requires
        (c as u32) < 128,
    ensures
        (c as u8) < 128,
        ((c as u8) as char) == c,
        (c as u8) as u32 == c as u32,
{
}

/// Reading a well-formed name's wire bytes gives that name back, wherever
/// they stand and whatever follows them.
proof fn lemma_parse_name_of_bytes(b: Seq<u8>, pos: int, s: Seq<char>)
    requires
        wf_name(s),
        0 <= pos,
        pos + name_bytes(s).len() <= b.len(),
        b.subrange(pos, pos + name_bytes(s).len()) == name_bytes(s),
    ensures
        parse_name(b, pos) == Some((s, pos + name_bytes(s).len())),
    decreases s.len(),
{
    lemma_first_dot_bounds(s, 0);
    let d = first_dot_from(s, 0);
    let nb = name_bytes(s);
    let whole = b.subrange(pos, pos + nb.len() as int);
    assert(b[pos] == whole[0]);
    assert(whole[0] == d as u8);
    assert(b[pos] as int == d);
    assert forall|i: int| 0 <= i < d implies #[trigger] b[pos + 1 + i] == s[i] as u8 && b[pos + 1
        + i] < 128 by {
        let c = s[i];
        assert((c as u32) < 128);
        lemma_ascii_char_byte(c);
        assert(b[pos + 1 + i] == whole[1 + i]);
        if d == s.len() {
            assert(char_bytes(s).len() == s.len());
            assert(whole[1 + i] == char_bytes(s)[i]);
            assert(char_bytes(s)[i] == c as u8);
        } else {
            assert(char_bytes(s.subrange(0, d)).len() == d);
            assert(whole[1 + i] == char_bytes(s.subrange(0, d))[i]);
            assert(s.subrange(0, d)[i] == c);
            assert(char_bytes(s.subrange(0, d))[i] == c as u8);
        }
        assert((c as u8) < 128);
    }
    assert(!(exists|i: int| 0 <= i < d && #[trigger] b[pos + 1 + i] >= 128));
    if d == s.len() {
        assert(nb.len() == d + 2);
        assert(b[pos + 1 + d] == whole[1 + d]);
        assert(whole[1 + d] == 0u8);
        assert(parse_name(b, pos + 1 + d) == Some((Seq::<char>::empty(), pos + 2 + d)));
        assert(label_chars(b, pos + 1, d) =~= s) by {
            assert forall|i: int| 0 <= i < d implies label_chars(b, pos + 1, d)[i] == s[i] by {
                let c = s[i];
                assert((c as u32) < 128);
                lemma_ascii_char_byte(c);
                assert(b[pos + 1 + i] == c as u8);
            }
        }
        assert(label_chars(b, pos + 1, d) + Seq::<char>::empty() =~= s);
    } else {
        let tail = s.subrange(d + 1, s.len() as int);
        assert(wf_name(tail)) by {
            assert forall|i: int| 0 <= i < tail.len() implies (#[trigger] tail[i] as u32)
                < 128 by {
                assert(tail[i] == s[d + 1 + i]);
            }
        }
        let nt = name_bytes(tail);
        assert(nb == seq![d as u8] + char_bytes(s.subrange(0, d)) + nt);
        assert(nb.len() == 1 + d + nt.len());
        assert(b.subrange(pos + 1 + d, pos + 1 + d + nt.len()) =~= nt) by {
            assert forall|i: int| 0 <= i < nt.len() implies b.subrange(
                pos + 1 + d,
                pos + 1 + d + nt.len(),
            )[i] == nt[i] by {
                assert(b[pos + 1 + d + i] == whole[1 + d + i]);
            }
        }
        lemma_parse_name_of_bytes(b, pos + 1 + d, tail);
        assert(tail.len() >= 1) by {
            lemma_first_dot_bounds(tail, 0);
        }
        assert(label_chars(b, pos + 1, d) + (seq!['.'] + tail) =~= s) by {
            assert forall|i: int| 0 <= i < s.len() implies (label_chars(b, pos + 1, d) + (
            seq!['.'] + tail))[i] == s[i] by {
                if i < d {
                    let c = s[i];
                    assert((c as u32) < 128);
                    lemma_ascii_char_byte(c);
                    assert(b[pos + 1 + i] == c as u8);
                } else if i == d {
                    assert(s[d] == '.');
                } else {
                    assert(tail[i - d - 1] == s[i]);
                }
            }
        }
    }
}

/// The name codec inverts: a well-formed name written to the wire reads back
/// as itself.
pub proof fn lemma_name_round_trip(s: Seq<char>)
    requires
        wf_name(s),
    ensures
        parse_name(name_bytes(s), 0) == Some((s, name_bytes(s).len() as int)),
{
    let nb = name_bytes(s);
    assert(nb.subrange(0, nb.len() as int) =~= nb);
    lemma_parse_name_of_bytes(nb, 0, s);
}


/// Reading a question's wire bytes gives that question back, wherever they
/// stand and whatever follows them.
proof fn lemma_question_of_bytes(b: Seq<u8>, pos: int, q: DnsQuestionView)
    requires
        wf_name(q.name),
        0 <= pos,
        pos + question_bytes(q).len() <= b.len(),
        b.subrange(pos, pos + question_bytes(q).len()) == question_bytes(q),
    ensures
        parse_question(b, pos) == Some((q, pos + question_bytes(q).len())),
{
    let nb = name_bytes(q.name);
    let qb = question_bytes(q);
    let whole = b.subrange(pos, pos + qb.len() as int);
    assert(qb.len() == nb.len() + 4);
    assert(b.subrange(pos, pos + nb.len() as int) =~= nb) by {
        assert forall|i: int| 0 <= i < nb.len() implies b.subrange(pos, pos + nb.len() as int)[i]
            == nb[i] by {
            assert(b[pos + i] == whole[i]);
        }
    }
    lemma_parse_name_of_bytes(b, pos, q.name);
    let p2 = pos + nb.len();
    assert(b[p2] == whole[(nb.len()) as int]);
    assert(b[p2 + 1] == whole[(nb.len() + 1) as int]);
    assert(b[p2 + 2] == whole[(nb.len() + 2) as int]);
    assert(b[p2 + 3] == whole[(nb.len() + 3) as int]);
    assert(whole[(nb.len()) as int] == be16(q.qtype)[0]);
    assert(whole[(nb.len() + 1) as int] == be16(q.qtype)[1]);
    assert(whole[(nb.len() + 2) as int] == be16(q.qclass)[0]);
    assert(whole[(nb.len() + 3) as int] == be16(q.qclass)[1]);
    assert(combine16((q.qtype / 256) as u8, (q.qtype % 256) as u8) == q.qtype);
    assert(combine16((q.qclass / 256) as u8, (q.qclass % 256) as u8) == q.qclass);
    assert(DnsQuestionView {
        name: q.name,
        qtype: combine16(b[p2], b[p2 + 1]),
        qclass: combine16(b[p2 + 2], b[p2 + 3]),
    } =~= q);
}

/// Reading a run of questions gives the run back.
proof fn lemma_questions_of_bytes(b: Seq<u8>, pos: int, qs: Seq<DnsQuestionView>)
    requires
        forall|k: int| 0 <= k < qs.len() ==> wf_name((#[trigger] qs[k]).name),
        0 <= pos,
        pos + questions_bytes(qs).len() <= b.len(),
        b.subrange(pos, pos + questions_bytes(qs).len()) == questions_bytes(qs),
    ensures
        parse_questions(b, pos, qs.len()) == Some((qs, pos + questions_bytes(qs).len())),
    decreases qs.len(),
{
    if qs.len() == 0 {
        assert(qs =~= Seq::<DnsQuestionView>::empty());
    } else {
        let qb = question_bytes(qs[0]);
        let rest = questions_bytes(qs.drop_first());
        let whole = b.subrange(pos, pos + questions_bytes(qs).len());
        assert(questions_bytes(qs).len() == qb.len() + rest.len());
        assert(b.subrange(pos, pos + qb.len() as int) =~= qb) by {
            assert forall|i: int| 0 <= i < qb.len() implies b.subrange(pos, pos + qb.len() as int)[i]
                == qb[i] by {
                assert(b[pos + i] == whole[i]);
            }
        }
        lemma_question_of_bytes(b, pos, qs[0]);
        let p2 = pos + qb.len();
        assert(b.subrange(p2, p2 + rest.len() as int) =~= rest) by {
            assert forall|i: int| 0 <= i < rest.len() implies b.subrange(p2, p2 + rest.len() as int)[i]
                == rest[i] by {
                assert(b[p2 + i] == whole[(qb.len() + i) as int]);
            }
        }
        assert forall|k: int| 0 <= k < qs.drop_first().len() implies wf_name(
            (#[trigger] qs.drop_first()[k]).name,
        ) by {
            assert(qs.drop_first()[k] == qs[k + 1]);
        }
        lemma_questions_of_bytes(b, p2, qs.drop_first());
        assert(seq![qs[0]] + qs.drop_first() =~= qs);
    }
}

/// The message codec inverts: a message whose header announces exactly its
/// questions, under well-formed names, reads back from its own wire bytes
/// with the same header and questions.
pub proof fn lemma_message_round_trip(
    h: DnsHeader,
    qs: Seq<DnsQuestionView>,
    an: Seq<DnsAnswerView>,
)
    requires
        h.question_count as int == qs.len(),
        forall|k: int| 0 <= k < qs.len() ==> wf_name((#[trigger] qs[k]).name),
    ensures
        parse_message(message_bytes(h, qs, an)) == Some((h, qs)),
{
    let b = message_bytes(h, qs, an);
    let hb = header_bytes(h);
    let qb = questions_bytes(qs);
    assert(hb.len() == 12);
    assert(b.len() == 12 + qb.len() + answers_bytes(an).len());
    assert forall|i: int| 0 <= i < 12 implies #[trigger] b[i] == hb[i] by {
        assert(b[i] == (hb + qb)[i]);
    }
    assert(combine16(b[0], b[1]) == h.id) by {
        assert(hb[0] == (h.id / 256) as u8);
        assert(hb[1] == (h.id % 256) as u8);
    }
    assert(combine16(b[2], b[3]) == h.flags) by {
        assert(hb[2] == (h.flags / 256) as u8);
        assert(hb[3] == (h.flags % 256) as u8);
    }
    assert(combine16(b[4], b[5]) == h.question_count) by {
        assert(hb[4] == (h.question_count / 256) as u8);
        assert(hb[5] == (h.question_count % 256) as u8);
    }
    assert(combine16(b[6], b[7]) == h.answer_count) by {
        assert(hb[6] == (h.answer_count / 256) as u8);
        assert(hb[7] == (h.answer_count % 256) as u8);
    }
    assert(combine16(b[8], b[9]) == h.authority_count) by {
        assert(hb[8] == (h.authority_count / 256) as u8);
        assert(hb[9] == (h.authority_count % 256) as u8);
    }
    assert(combine16(b[10], b[11]) == h.additional_count) by {
        assert(hb[10] == (h.additional_count / 256) as u8);
        assert(hb[11] == (h.additional_count % 256) as u8);
    }
    assert(b.subrange(12, 12 + qb.len() as int) =~= qb) by {
        assert forall|i: int| 0 <= i < qb.len() implies b.subrange(12, 12 + qb.len() as int)[i]
            == qb[i] by {
            assert(b[12 + i] == (hb + qb)[12 + i]);
        }
    }
    lemma_questions_of_bytes(b, 12, qs);
}

} // verus!

