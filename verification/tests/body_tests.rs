use dns_codec::answer::DNSAnswer;
use dns_codec::body::{parse_body, parse_header, DNSBody};
use dns_codec::error::DnsError;
use dns_codec::header::DNSHeader;
use dns_codec::question::DNSQuestion;

fn parse_err(bytes: &[u8]) -> DnsError {
    match parse_body(bytes) {
        Ok(_) => panic!("expected a parse error"),
        Err(e) => e,
    }
}

fn request_header_bytes(id: u16, qdcount: u16, ancount: u16) -> Vec<u8> {
    let mut b = vec![(id >> 8) as u8, (id & 0xFF) as u8, 0x01, 0x00];
    b.extend_from_slice(&[(qdcount >> 8) as u8, (qdcount & 0xFF) as u8]);
    b.extend_from_slice(&[(ancount >> 8) as u8, (ancount & 0xFF) as u8]);
    b.extend_from_slice(&[0, 0, 0, 0]);
    b
}

#[test]
fn parse_reads_header_and_question() {
    let mut msg = request_header_bytes(0x04D2, 1, 0);
    msg.extend_from_slice(&[3, b'a', b'b', b'c', 2, b'd', b'e', 0, 0, 1, 0, 1]);
    let body = parse_body(&msg).unwrap();
    assert_eq!(body.header.id, 0x04D2);
    assert_eq!(body.header.qr, 0);
    assert_eq!(body.header.rd, 1);
    assert_eq!(body.header.qdcount, 1);
    assert_eq!(body.questions.len(), 1);
    assert_eq!(body.questions[0].domain_name, "abc.de".to_string());
    assert_eq!(body.questions[0].query_type, 1);
    assert_eq!(body.questions[0].query_class, 1);
    assert_eq!(body.answers.len(), 0);
}

#[test]
fn short_buffer_is_a_truncated_header() {
    let msg = vec![0u8; 11];
    assert_eq!(parse_err(&msg), DnsError::TruncatedHeader);
    match parse_header(&msg) {
        Ok(_) => panic!("expected a truncated header"),
        Err(e) => assert_eq!(e, DnsError::TruncatedHeader),
    }
}

#[test]
fn question_without_its_fixed_fields_is_truncated() {
    let mut msg = request_header_bytes(1, 1, 0);
    // root name, then only two of the four type/class bytes
    msg.extend_from_slice(&[0, 0, 1]);
    assert_eq!(parse_err(&msg), DnsError::TruncatedMessage);
}

#[test]
fn overlong_label_never_panics_only_errors() {
    let mut msg = request_header_bytes(1, 1, 0);
    // the length byte claims 40 content bytes; only 2 remain
    msg.extend_from_slice(&[40, b'x', b'y']);
    assert_eq!(parse_err(&msg), DnsError::TruncatedRecord);
}

#[test]
fn rdata_longer_than_the_buffer_is_truncated() {
    let mut msg = request_header_bytes(1, 0, 1);
    // answer: root name, type 1, class 1, ttl 0, declared length 5, 2 bytes present
    msg.extend_from_slice(&[0, 0, 1, 0, 1, 0, 0, 0, 0, 0, 5, 9, 9]);
    assert_eq!(parse_err(&msg), DnsError::TruncatedRecord);
}

#[test]
fn encode_lays_out_header_questions_answers() {
    let body = DNSBody {
        header: DNSHeader {
            id: 7,
            qr: 1,
            opcode: 0,
            aa: 0,
            tc: 0,
            rd: 0,
            ra: 0,
            z: 0,
            rcode: 0,
            qdcount: 1,
            ancount: 1,
            nscount: 0,
            arcount: 0,
        },
        questions: vec![DNSQuestion {
            domain_name: "ab".to_string(),
            query_type: 1,
            query_class: 1,
        }],
        answers: vec![DNSAnswer {
            name: "ab".to_string(),
            record_type: 1,
            class: 1,
            ttl: 60,
            length: 4,
            rdata: vec![8, 8, 8, 8],
        }],
    };
    let mut expected = vec![0, 7, 0x80, 0, 0, 1, 0, 1, 0, 0, 0, 0];
    expected.extend_from_slice(&[2, b'a', b'b', 0, 0, 1, 0, 1]);
    expected.extend_from_slice(&[2, b'a', b'b', 0, 0, 1, 0, 1, 0, 0, 0, 60, 0, 4, 8, 8, 8, 8]);
    assert_eq!(body.to_bytes(), expected);
}

#[test]
fn decoded_message_survives_encode_and_decode() {
    // a compressed message: the answer's name is a pointer to the question's
    let mut msg = request_header_bytes(0x0101, 1, 1);
    msg.extend_from_slice(&[3, b'a', b'b', b'c', 2, b'd', b'e', 0, 0, 1, 0, 1]);
    msg.extend_from_slice(&[0xC0, 12, 0, 1, 0, 1, 0, 0, 0, 60, 0, 4, 8, 8, 8, 8]);
    let first = parse_body(&msg).unwrap();
    let reencoded = first.to_bytes();
    let second = parse_body(&reencoded).unwrap();
    assert_eq!(second.header, first.header);
    assert_eq!(second.questions.len(), first.questions.len());
    assert_eq!(
        second.questions[0].domain_name,
        first.questions[0].domain_name
    );
    assert_eq!(second.questions[0].query_type, first.questions[0].query_type);
    assert_eq!(
        second.questions[0].query_class,
        first.questions[0].query_class
    );
    assert_eq!(second.answers.len(), first.answers.len());
    assert_eq!(second.answers[0].name, first.answers[0].name);
    assert_eq!(second.answers[0].record_type, first.answers[0].record_type);
    assert_eq!(second.answers[0].class, first.answers[0].class);
    assert_eq!(second.answers[0].ttl, first.answers[0].ttl);
    assert_eq!(second.answers[0].length, first.answers[0].length);
    assert_eq!(second.answers[0].rdata, first.answers[0].rdata);
}
