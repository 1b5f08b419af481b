use dns_codec::answer::{DnsAnswer, Record};
use dns_codec::error::DnsError;
use dns_codec::header::DnsHeader;
use dns_codec::packet::DnsPacket;
use dns_codec::question::DnsQuestion;
use dns_codec::record::DnsRecord;

fn single_question_request() -> Vec<u8> {
    let mut buf: Vec<u8> = vec![
        0x12, 0x34, 0x01, 0x00, 0x00, 0x01, 0x00, 0x00, 0x00, 0x00, 0x00, 0x00,
    ];
    buf.push(0x0c);
    buf.extend_from_slice(b"codecrafters");
    buf.push(0x02);
    buf.extend_from_slice(b"io");
    buf.push(0x00);
    buf.extend_from_slice(&[0x00, 0x01, 0x00, 0x01]);
    buf
}

/// What a stub upstream resolver sends back: the query echoed as a
/// response carrying one A record.
fn stub_upstream(query_bytes: &Vec<u8>, ttl: u32, data: [u8; 4]) -> DnsPacket {
    let (query, _) = DnsPacket::parse_request(query_bytes).unwrap();
    let name = query.questions()[0].name.clone();
    let header = DnsHeader {
        id: query.header().id(),
        query_response: true,
        op_code: 0,
        authoritative_answer: false,
        truncated_message: false,
        desired_recursion: true,
        available_recursion: true,
        reserved_bits: 0,
        response_code: 0,
        question_count: 1,
        answer_count: 1,
        authority_count: 0,
        additional_count: 0,
    };
    let questions = query.questions().clone();
    let answers = vec![DnsRecord {
        name,
        record_type: 1,
        class: 1,
        ttl,
        length: data.len() as u16,
        data: data.to_vec(),
    }];
    DnsPacket { header, questions, answers }
}

#[test]
fn forwarding_single_question_produces_one_answer() {
    let req_bytes = single_question_request();
    let (request, _) = DnsPacket::parse_request(&req_bytes).unwrap();

    // One outbound exchange per question, against a stub upstream.
    let mut replies: Vec<DnsPacket> = Vec::new();
    for q in request.questions().iter() {
        let query = DnsPacket::build_query(q.clone());
        assert_eq!(query.header().id(), 123);
        assert!(query.header().desired_recursion());
        assert_eq!(query.header().question_count(), 1);
        let query_bytes = query.encode().unwrap();
        replies.push(stub_upstream(&query_bytes, 60, [8, 8, 8, 8]));
    }

    let resp_bytes = DnsPacket::to_response(&request, &replies).unwrap();
    let (response, _) = DnsPacket::parse_request(&resp_bytes).unwrap();

    assert_eq!(response.header().id(), 0x1234);
    assert!(response.header().query_response());
    assert_eq!(response.header().response_code(), 0);
    assert_eq!(response.header().answer_count(), 1);
    assert_eq!(response.questions().len(), 1);
    assert_eq!(response.questions()[0].name, b"codecrafters.io".to_vec());
    let answer = &response.answers()[0];
    assert_eq!(answer.name, b"codecrafters.io".to_vec());
    assert_eq!(answer.record_type, 1);
    assert_eq!(answer.class, 1);
    assert_eq!(answer.ttl, 60);
    assert_eq!(answer.length, 4);
    assert_eq!(answer.data, vec![8, 8, 8, 8]);
}

#[test]
fn upstream_reply_without_answer_fails_the_request() {
    let req_bytes = single_question_request();
    let (request, _) = DnsPacket::parse_request(&req_bytes).unwrap();
    let query = DnsPacket::build_query(request.questions()[0].clone());
    let query_bytes = query.encode().unwrap();
    let mut reply = stub_upstream(&query_bytes, 60, [8, 8, 8, 8]);
    reply.answers.clear();
    let replies = vec![reply];
    assert_eq!(
        DnsPacket::to_response(&request, &replies),
        Err(DnsError::UpstreamNoAnswer)
    );
    assert_eq!(
        DnsRecord::first_answer(&replies[0]),
        Err(DnsError::UpstreamNoAnswer)
    );
}

#[test]
fn first_answer_takes_the_first_record() {
    let req_bytes = single_question_request();
    let (request, _) = DnsPacket::parse_request(&req_bytes).unwrap();
    let query = DnsPacket::build_query(request.questions()[0].clone());
    let query_bytes = query.encode().unwrap();
    let reply = stub_upstream(&query_bytes, 300, [1, 2, 3, 4]);
    let rec = DnsRecord::first_answer(&reply).unwrap();
    assert_eq!(rec, reply.answers[0]);
    assert_eq!(rec.ttl, 300);
    assert_eq!(rec.data, vec![1, 2, 3, 4]);
}

#[test]
fn unsupported_opcode_gets_rcode_four() {
    // OPCODE 2 (status) with no questions: the response echoes the opcode
    // and answers with RCODE 4 (not implemented).
    let buf: Vec<u8> = vec![
        0x00, 0x07, 0x10, 0x00, 0x00, 0x00, 0x00, 0x00, 0x00, 0x00, 0x00, 0x00,
    ];
    let (request, _) = DnsPacket::parse_request(&buf).unwrap();
    assert_eq!(request.header().op_code(), 2);
    let replies: Vec<DnsPacket> = Vec::new();
    let resp_bytes = DnsPacket::to_response(&request, &replies).unwrap();
    let (response, _) = DnsPacket::parse_request(&resp_bytes).unwrap();
    assert_eq!(response.header().id(), 7);
    assert!(response.header().query_response());
    assert_eq!(response.header().op_code(), 2);
    assert_eq!(response.header().response_code(), 4);
    assert_eq!(response.header().question_count(), 0);
}

#[test]
fn response_header_policy_copies_id_and_rd() {
    let req_bytes = single_question_request();
    let (request, _) = DnsPacket::parse_request(&req_bytes).unwrap();
    let h = DnsHeader::to_response(&request);
    assert_eq!(h.id(), 0x1234);
    assert!(h.query_response());
    assert_eq!(h.op_code(), 0);
    assert!(h.desired_recursion());
    assert!(!h.available_recursion());
    assert_eq!(h.response_code(), 0);
    assert_eq!(h.question_count(), 1);
    assert_eq!(h.answer_count(), 1);
    // No authority or additional records are serialized, so the counts
    // must say so.
    assert_eq!(h.authority_count(), 0);
    assert_eq!(h.additional_count(), 0);
}

#[test]
fn echoed_questions_match_the_request() {
    let req_bytes = single_question_request();
    let (request, _) = DnsPacket::parse_request(&req_bytes).unwrap();
    let questions = DnsQuestion::to_response(&request);
    assert_eq!(questions.len(), 1);
    assert_eq!(questions[0], request.questions()[0]);
}

#[test]
fn synthetic_answer_serializes_like_a_record() {
    let record = Record {
        name: b"codecrafters.io".to_vec(),
        record_type: 1,
        class: 1,
        ttl: 60,
        length: 4,
        data: vec![8, 8, 8, 8],
    };
    let answer = DnsAnswer::new(record);
    let bytes = answer.encode().unwrap();
    let equivalent = DnsRecord {
        name: b"codecrafters.io".to_vec(),
        record_type: 1,
        class: 1,
        ttl: 60,
        length: 4,
        data: vec![8, 8, 8, 8],
    };
    assert_eq!(bytes, equivalent.encode().unwrap());
}

#[test]
fn header_new_returns_the_given_header() {
    let h = DnsHeader {
        id: 1,
        query_response: false,
        op_code: 0,
        authoritative_answer: false,
        truncated_message: false,
        desired_recursion: false,
        available_recursion: false,
        reserved_bits: 0,
        response_code: 0,
        question_count: 0,
        answer_count: 0,
        authority_count: 0,
        additional_count: 0,
    };
    assert_eq!(DnsHeader::new(h), h);
}
