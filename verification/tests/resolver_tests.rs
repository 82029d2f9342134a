use dns_codec::answer::DNSAnswer;
use dns_codec::body::{parse_body, DNSBody};
use dns_codec::error::DnsError;
use dns_codec::header::DNSHeader;
use dns_codec::question::DNSQuestion;
use dns_codec::resolver::{
    build_answer, build_response, build_response_header, decode_upstream_reply, handle_datagram,
    split_into_subqueries,
};

fn question(name: &str) -> DNSQuestion {
    DNSQuestion {
        domain_name: name.to_string(),
        query_type: 1,
        query_class: 1,
    }
}

fn query_bytes(id: u16, names: &[&str]) -> Vec<u8> {
    let body = DNSBody {
        header: DNSHeader {
            id,
            qr: 0,
            opcode: 0,
            aa: 0,
            tc: 0,
            rd: 0,
            ra: 0,
            z: 0,
            rcode: 0,
            qdcount: names.len() as u16,
            ancount: 0,
            nscount: 0,
            arcount: 0,
        },
        questions: names.iter().map(|n| question(n)).collect(),
        answers: Vec::new(),
    };
    body.to_bytes()
}

/// A stub upstream: for one sub-query, echo one answer copying the
/// question's name, with type and class 1.
fn stub_upstream(sub_query: &[u8]) -> Vec<u8> {
    let request = parse_body(sub_query).unwrap();
    assert_eq!(request.questions.len(), 1);
    let answer = DNSAnswer {
        name: request.questions[0].domain_name.clone(),
        record_type: 1,
        class: 1,
        ttl: 300,
        length: 4,
        rdata: vec![1, 2, 3, 4],
    };
    let reply = DNSBody {
        header: DNSHeader {
            qr: 1,
            ancount: 1,
            ..request.header
        },
        questions: request.questions,
        answers: vec![answer],
    };
    reply.to_bytes()
}

#[test]
fn stub_mode_answers_every_question_in_place() {
    // one question, no upstream configured
    let input = query_bytes(0x04D2, &["codecrafters.io"]);
    let output = handle_datagram(&input).unwrap();
    let response = parse_body(&output).unwrap();
    assert_eq!(response.header.id, 0x04D2);
    assert_eq!(response.header.qr, 1);
    assert_eq!(response.header.rcode, 0);
    assert_eq!(response.header.ancount, 1);
    assert_eq!(response.questions.len(), 1);
    assert_eq!(response.questions[0].domain_name, "codecrafters.io");
    let a = &response.answers[0];
    assert_eq!(a.name, "codecrafters.io");
    assert_eq!(a.record_type, 1);
    assert_eq!(a.class, 1);
    assert_eq!(a.ttl, 60);
    assert_eq!(a.length, 4);
    assert_eq!(a.rdata, vec![8, 8, 8, 8]);
}

#[test]
fn forwarding_merges_upstream_answers_in_question_order() {
    let input = query_bytes(0x2222, &["first.example", "second.example"]);
    let request = parse_body(&input).unwrap();
    let subs = split_into_subqueries(&request);
    assert_eq!(subs.len(), 2);
    let mut collected: Vec<DNSAnswer> = Vec::new();
    for sub in &subs {
        assert_eq!(sub.header.qdcount, 1);
        assert_eq!(sub.header.id, 0x2222);
        let reply = stub_upstream(&sub.to_bytes());
        match decode_upstream_reply(&reply) {
            Ok(answers) => collected.extend(answers),
            Err(_) => {}
        }
    }
    let response = build_response(request, collected);
    assert_eq!(response.header.ancount, 2);
    assert_eq!(response.header.qr, 1);
    assert_eq!(response.answers.len(), 2);
    assert_eq!(response.answers[0].name, "first.example");
    assert_eq!(response.answers[1].name, "second.example");
    // and the merged message still encodes and parses
    let parsed = parse_body(&response.to_bytes()).unwrap();
    assert_eq!(parsed.header.ancount, 2);
    assert_eq!(parsed.answers[0].name, "first.example");
    assert_eq!(parsed.answers[1].name, "second.example");
}

#[test]
fn stub_answer_copies_the_question_name() {
    let q = question("host.tld");
    let a = build_answer(&q);
    assert_eq!(a.name, "host.tld");
    assert_eq!(a.record_type, 1);
    assert_eq!(a.class, 1);
    assert_eq!(a.ttl, 60);
    assert_eq!(a.length, 4);
    assert_eq!(a.rdata, vec![8, 8, 8, 8]);
}

#[test]
fn unknown_opcode_is_answered_with_not_implemented() {
    let req = DNSHeader {
        id: 5,
        qr: 0,
        opcode: 2,
        aa: 0,
        tc: 0,
        rd: 1,
        ra: 0,
        z: 0,
        rcode: 0,
        qdcount: 0,
        ancount: 0,
        nscount: 0,
        arcount: 0,
    };
    let resp = build_response_header(&req, 0);
    assert_eq!(resp.qr, 1);
    assert_eq!(resp.rcode, 4);
    assert_eq!(resp.opcode, 2);
    assert_eq!(resp.id, 5);
    assert_eq!(resp.rd, 1);
}

#[test]
fn unparsable_upstream_reply_is_reported_as_such() {
    let garbage = vec![1, 2, 3];
    match decode_upstream_reply(&garbage) {
        Ok(_) => panic!("garbage must not parse as a DNS message"),
        Err(e) => assert_eq!(e, DnsError::UpstreamDecodeError),
    }
}

#[test]
fn bad_datagram_is_dropped_with_its_parse_error() {
    let input = vec![0u8; 5];
    match handle_datagram(&input) {
        Ok(_) => panic!("a five-byte datagram must be rejected"),
        Err(e) => assert_eq!(e, DnsError::TruncatedHeader),
    }
}
