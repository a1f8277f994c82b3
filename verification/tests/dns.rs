use chatwire::dns::{
    answer_query, resolve_answer, DnsAnswer, DnsError, DnsHeader, DnsMessage, DnsQuestion,
    DnsRecord,
};

#[test]
fn header_bytes_are_exact_and_invert() {
    let mut h = DnsHeader::new(0x1234);
    h.question_count = 1;
    let bytes = h.to_bytes();
    assert_eq!(
        bytes,
        vec![0x12, 0x34, 0x01, 0x00, 0x00, 0x01, 0x00, 0x00, 0x00, 0x00, 0x00, 0x00]
    );
    let back = DnsHeader::from_bytes(&bytes).expect("twelve bytes parse");
    assert_eq!(back.id, 0x1234);
    assert_eq!(back.flags, 0x0100);
    assert_eq!(back.question_count, 1);
    assert_eq!(back.answer_count, 0);
}

#[test]
fn short_header_is_rejected() {
    assert!(DnsHeader::from_bytes(&[0u8; 11]).is_err());
    assert!(DnsHeader::from_bytes(&[]).is_err());
}

#[test]
fn question_bytes_are_exact() {
    let q = DnsQuestion::new("example.com".to_string());
    let mut expected: Vec<u8> = Vec::new();
    expected.push(7);
    expected.extend_from_slice(b"example");
    expected.push(3);
    expected.extend_from_slice(b"com");
    expected.push(0);
    expected.extend_from_slice(&[0, 1, 0, 1]);
    assert_eq!(q.to_bytes(), expected);
}

#[test]
fn query_round_trips_through_bytes() {
    let query = DnsMessage::new_query(0xBEEF, "example.com".to_string());
    let bytes = query.to_bytes();
    let back = DnsMessage::from_bytes(&bytes).expect("our own query parses");
    assert_eq!(back.header.id, 0xBEEF);
    assert_eq!(back.header.question_count, 1);
    assert_eq!(back.questions.len(), 1);
    assert_eq!(back.questions[0].name, "example.com");
    assert_eq!(back.questions[0].qtype, 1);
    assert_eq!(back.questions[0].qclass, 1);
}

#[test]
fn garbage_names_are_rejected() {
    // A label length that runs past the input.
    let mut bytes = DnsHeader::new(1).to_bytes();
    bytes[5] = 1; // one question
    bytes.push(40);
    bytes.push(b'x');
    assert!(DnsMessage::from_bytes(&bytes).is_err());
    // A non-ASCII byte inside a label.
    let mut bytes = DnsHeader::new(1).to_bytes();
    bytes[5] = 1;
    bytes.extend_from_slice(&[1, 0xC3, 0, 0, 1, 0, 1]);
    assert!(DnsMessage::from_bytes(&bytes).is_err());
}

#[test]
fn answer_record_is_shaped_as_an_a_record() {
    let a = DnsAnswer::new("localhost".to_string(), [127, 0, 0, 1]);
    assert_eq!(a.rtype, 1);
    assert_eq!(a.rclass, 1);
    assert_eq!(a.ttl, 300);
    assert_eq!(a.rdlength, 4);
    assert_eq!(a.rdata, vec![127, 0, 0, 1]);
    let bytes = a.to_bytes();
    // name + type + class + ttl + rdlength + rdata
    assert_eq!(bytes.len(), 11 + 2 + 2 + 4 + 2 + 4);
    assert_eq!(&bytes[bytes.len() - 4..], &[127, 0, 0, 1]);
}

fn test_records() -> Vec<DnsRecord> {
    vec![
        DnsRecord { name: "example.com".to_string(), ip: [93, 184, 216, 34] },
        DnsRecord { name: "localhost".to_string(), ip: [127, 0, 0, 1] },
    ]
}

#[test]
fn known_name_gets_one_answer() {
    let query = DnsMessage::new_query(7, "example.com".to_string());
    let response = answer_query(&test_records(), &query).expect("query has a question");
    assert_eq!(response.header.id, 7);
    assert_eq!(response.header.flags, 0x8180);
    assert_eq!(response.header.answer_count, 1);
    assert_eq!(response.answers.len(), 1);
    assert_eq!(response.answers[0].name, "example.com");
    assert_eq!(response.answers[0].rdata, vec![93, 184, 216, 34]);
    assert_eq!(response.questions.len(), 1);
    assert_eq!(response.questions[0].name, "example.com");
}

#[test]
fn unknown_name_gets_an_empty_answer_section() {
    let query = DnsMessage::new_query(8, "nowhere.test".to_string());
    let response = answer_query(&test_records(), &query).expect("query has a question");
    assert_eq!(response.header.answer_count, 0);
    assert!(response.answers.is_empty());
}

#[test]
fn question_free_query_is_refused() {
    let query = DnsMessage {
        header: DnsHeader::new(9),
        questions: Vec::new(),
        answers: Vec::new(),
    };
    assert!(matches!(answer_query(&test_records(), &query), Err(DnsError::NoQuestion)));
}

#[test]
fn resolver_validates_the_response() {
    let query = DnsMessage::new_query(7, "example.com".to_string());
    let response = answer_query(&test_records(), &query).expect("query has a question");
    assert_eq!(resolve_answer(&response, 7).ok(), Some([93, 184, 216, 34]));
    assert!(matches!(resolve_answer(&response, 8), Err(DnsError::IdMismatch)));
    let empty = answer_query(
        &test_records(),
        &DnsMessage::new_query(7, "nowhere.test".to_string()),
    )
    .expect("query has a question");
    assert!(matches!(resolve_answer(&empty, 7), Err(DnsError::NoAnswer)));
    let mut odd = answer_query(&test_records(), &query).expect("query has a question");
    odd.answers[0].rdata.push(0);
    assert!(matches!(resolve_answer(&odd, 7), Err(DnsError::BadAnswer)));
}
