use dns_codec::error::DnsError;
use dns_codec::header::DnsHeader;
use dns_codec::name;
use dns_codec::packet::DnsPacket;
use dns_codec::question::DnsQuestion;
use dns_codec::record::DnsRecord;

fn sample_header() -> DnsHeader {
    DnsHeader {
        id: 0xabcd,
        query_response: true,
        op_code: 5,
        authoritative_answer: true,
        truncated_message: false,
        desired_recursion: true,
        available_recursion: false,
        reserved_bits: 5,
        response_code: 3,
        question_count: 2,
        answer_count: 1,
        authority_count: 0,
        additional_count: 7,
    }
}

#[test]
fn header_round_trip() {
    let h = sample_header();
    let bytes = h.encode();
    assert_eq!(bytes.len(), 12);
    let back = DnsHeader::parse_request(&bytes).unwrap();
    assert_eq!(back, h);
}

#[test]
fn header_scenario_bytes_decode() {
    let buf: Vec<u8> = vec![
        0x04, 0xd2, 0x01, 0x00, 0x00, 0x01, 0x00, 0x00, 0x00, 0x00, 0x00, 0x00,
    ];
    let h = DnsHeader::parse_request(&buf).unwrap();
    assert_eq!(h.id(), 1234);
    assert!(!h.query_response());
    assert_eq!(h.op_code(), 0);
    assert!(h.desired_recursion());
    assert_eq!(h.question_count(), 1);
    assert!(!h.authoritative_answer());
    assert!(!h.truncated_message());
    assert!(!h.available_recursion());
    assert_eq!(h.reserved_bits(), 0);
    assert_eq!(h.response_code(), 0);
    assert_eq!(h.answer_count(), 0);
    assert_eq!(h.authority_count(), 0);
    assert_eq!(h.additional_count(), 0);
}

#[test]
fn header_short_buffer_is_malformed() {
    let buf: Vec<u8> = vec![0x04, 0xd2, 0x01];
    assert_eq!(DnsHeader::parse_request(&buf), Err(DnsError::MalformedHeader));
}

#[test]
fn name_encode_scenario() {
    let n = b"codecrafters.io".to_vec();
    let bytes = name::encode(&n).unwrap();
    let mut expected: Vec<u8> = vec![0x0c];
    expected.extend_from_slice(b"codecrafters");
    expected.push(0x02);
    expected.extend_from_slice(b"io");
    expected.push(0x00);
    assert_eq!(bytes, expected);
}

#[test]
fn name_round_trip() {
    let n = b"www.example.com".to_vec();
    let bytes = name::encode(&n).unwrap();
    let (back, end) = name::decode(&bytes, 0).unwrap();
    assert_eq!(back, n);
    assert_eq!(end, bytes.len());
}

#[test]
fn empty_name_is_one_terminator_byte() {
    let n: Vec<u8> = Vec::new();
    let bytes = name::encode(&n).unwrap();
    assert_eq!(bytes, vec![0x00]);
    let (back, end) = name::decode(&bytes, 0).unwrap();
    assert!(back.is_empty());
    assert_eq!(end, 1);
}

#[test]
fn name_terminator_at_buffer_end_decodes() {
    // The final label butts against the zero terminator exactly at the
    // end of the buffer; nothing past the buffer is read.
    let buf: Vec<u8> = vec![0x03, b'a', b'b', b'c', 0x00];
    let (back, end) = name::decode(&buf, 0).unwrap();
    assert_eq!(back, b"abc".to_vec());
    assert_eq!(end, 5);
}

#[test]
fn name_label_longer_than_63_is_rejected() {
    let n = vec![b'a'; 64];
    assert_eq!(name::encode(&n), Err(DnsError::LabelTooLong));
    let n63 = vec![b'a'; 63];
    assert!(name::encode(&n63).is_ok());
}

#[test]
fn name_running_past_buffer_is_invalid() {
    let buf: Vec<u8> = vec![0x05, b'a'];
    assert_eq!(name::decode(&buf, 0), Err(DnsError::InvalidNamePointer));
}

#[test]
fn name_missing_terminator_is_invalid() {
    let buf: Vec<u8> = vec![0x01, b'a'];
    assert_eq!(name::decode(&buf, 0), Err(DnsError::InvalidNamePointer));
}

#[test]
fn truncated_pointer_is_invalid() {
    let buf: Vec<u8> = vec![0x00, 0xc0];
    assert_eq!(name::decode(&buf, 1), Err(DnsError::InvalidNamePointer));
}

#[test]
fn reserved_length_bits_are_invalid() {
    let buf: Vec<u8> = vec![0x40, b'a', 0x00];
    assert_eq!(name::decode(&buf, 0), Err(DnsError::InvalidNamePointer));
}

#[test]
fn self_pointer_is_a_decode_loop() {
    let buf: Vec<u8> = vec![0xc0, 0x00];
    assert_eq!(name::decode(&buf, 0), Err(DnsError::NameDecodeLoop));
}

#[test]
fn forward_pointer_decodes() {
    // A pointer may aim anywhere in bounds, forwards included.
    let buf: Vec<u8> = vec![0xc0, 0x02, 0x01, b'a', 0x00];
    let (nm, end) = name::decode(&buf, 0).unwrap();
    assert_eq!(nm, b"a".to_vec());
    assert_eq!(end, 2);
}

#[test]
fn mutually_pointing_pointers_are_a_decode_loop() {
    let buf: Vec<u8> = vec![0xc0, 0x02, 0xc0, 0x00];
    assert_eq!(name::decode(&buf, 0), Err(DnsError::NameDecodeLoop));
    assert_eq!(name::decode(&buf, 2), Err(DnsError::NameDecodeLoop));
}

#[test]
fn pointer_target_beyond_buffer_is_invalid() {
    let buf: Vec<u8> = vec![0xc0, 0x10];
    assert_eq!(name::decode(&buf, 0), Err(DnsError::InvalidNamePointer));
}

#[test]
fn pointer_into_decoded_portion_matches_direct_decode() {
    // Bytes 0..5 hold "abc"; byte 5 is a pointer back to offset 0.
    let buf: Vec<u8> = vec![0x03, b'a', b'b', b'c', 0x00, 0xc0, 0x00];
    let (direct, _) = name::decode(&buf, 0).unwrap();
    let (via_pointer, end) = name::decode(&buf, 5).unwrap();
    assert_eq!(via_pointer, direct);
    assert_eq!(via_pointer, b"abc".to_vec());
    assert_eq!(end, 7);
}

#[test]
fn multi_hop_pointer_chain_decodes() {
    // "io" at 0; "codecrafters" + pointer to 0 at offset 4; a pointer to 4
    // at offset 18 resolves two hops to "codecrafters.io".
    let mut buf: Vec<u8> = vec![0x02, b'i', b'o', 0x00];
    buf.push(0x0c);
    buf.extend_from_slice(b"codecrafters");
    buf.push(0xc0);
    buf.push(0x00);
    buf.push(0xc0);
    buf.push(0x04);
    let (via_chain, end) = name::decode(&buf, 19).unwrap();
    assert_eq!(via_chain, b"codecrafters.io".to_vec());
    assert_eq!(end, 21);
}

#[test]
fn question_round_trip() {
    let q = DnsQuestion { name: b"example.com".to_vec(), record_type: 1, class: 1 };
    let bytes = q.encode().unwrap();
    let (back, end) = DnsQuestion::from_bytes(&bytes, 0).unwrap();
    assert_eq!(back, q);
    assert_eq!(end, bytes.len());
    assert_eq!(back.name(), &b"example.com".to_vec());
    assert_eq!(back.record_type(), 1);
    assert_eq!(back.class(), 1);
}

#[test]
fn question_encodes_to_exact_bytes() {
    let q = DnsQuestion { name: b"io".to_vec(), record_type: 0x0105, class: 0x8001 };
    let bytes = q.encode().unwrap();
    assert_eq!(bytes, vec![0x02, b'i', b'o', 0x00, 0x01, 0x05, 0x80, 0x01]);
}

#[test]
fn parse_name_resolves_pointers_in_the_message() {
    let buf: Vec<u8> = vec![0x03, b'a', b'b', b'c', 0x00, 0xc0, 0x00];
    let (nm, end) = DnsQuestion::parse_name(&buf, 5).unwrap();
    assert_eq!(nm, b"abc".to_vec());
    assert_eq!(end, 7);
}

#[test]
fn question_truncated_after_name() {
    let buf: Vec<u8> = vec![0x01, b'a', 0x00, 0x00];
    assert_eq!(DnsQuestion::from_bytes(&buf, 0), Err(DnsError::TruncatedQuestion));
}

#[test]
fn record_round_trip() {
    let r = DnsRecord {
        name: b"codecrafters.io".to_vec(),
        record_type: 1,
        class: 1,
        ttl: 60,
        length: 4,
        data: vec![8, 8, 8, 8],
    };
    let bytes = r.encode().unwrap();
    let (back, end) = DnsRecord::from_bytes(&bytes, 0).unwrap();
    assert_eq!(back, r);
    assert_eq!(end, bytes.len());
}

#[test]
fn record_encodes_to_exact_bytes() {
    let r = DnsRecord {
        name: b"io".to_vec(),
        record_type: 1,
        class: 1,
        ttl: 0x01020304,
        length: 2,
        data: vec![0xaa, 0xbb],
    };
    let bytes = r.encode().unwrap();
    assert_eq!(
        bytes,
        vec![
            0x02, b'i', b'o', 0x00, 0x00, 0x01, 0x00, 0x01, 0x01, 0x02, 0x03, 0x04, 0x00, 0x02,
            0xaa, 0xbb,
        ]
    );
}

#[test]
fn record_truncated_fixed_fields() {
    let buf: Vec<u8> = vec![0x00, 0x00, 0x01, 0x00, 0x01];
    assert_eq!(DnsRecord::from_bytes(&buf, 0), Err(DnsError::TruncatedRecord));
}

#[test]
fn record_truncated_rdata() {
    let buf: Vec<u8> = vec![
        0x00, 0x00, 0x01, 0x00, 0x01, 0x00, 0x00, 0x00, 0x3c, 0x00, 0x04, 0x08, 0x08,
    ];
    assert_eq!(DnsRecord::from_bytes(&buf, 0), Err(DnsError::TruncatedRecord));
}

fn two_question_compressed_message() -> Vec<u8> {
    let mut buf: Vec<u8> = vec![
        0x00, 0x07, 0x01, 0x00, 0x00, 0x02, 0x00, 0x00, 0x00, 0x00, 0x00, 0x00,
    ];
    buf.push(0x0c);
    buf.extend_from_slice(b"codecrafters");
    buf.push(0x02);
    buf.extend_from_slice(b"io");
    buf.push(0x00);
    buf.extend_from_slice(&[0x00, 0x01, 0x00, 0x01]);
    // The second question's name is just a pointer to offset 12.
    buf.extend_from_slice(&[0xc0, 0x0c]);
    buf.extend_from_slice(&[0x00, 0x01, 0x00, 0x01]);
    buf
}

#[test]
fn compressed_second_question_decodes_to_same_name() {
    let buf = two_question_compressed_message();
    let (packet, end) = DnsPacket::parse_request(&buf).unwrap();
    assert_eq!(end, buf.len());
    assert_eq!(packet.header().question_count(), 2);
    assert_eq!(packet.questions().len(), 2);
    assert_eq!(packet.questions()[0].name, b"codecrafters.io".to_vec());
    assert_eq!(packet.questions()[1].name, b"codecrafters.io".to_vec());
}

#[test]
fn reencoding_decoded_message_preserves_structure() {
    let buf = two_question_compressed_message();
    let (packet, _) = DnsPacket::parse_request(&buf).unwrap();
    let bytes2 = packet.encode().unwrap();
    // The re-encoded bytes drop the compression, so they differ from the
    // input, but the structured content comes back unchanged.
    assert_ne!(bytes2, buf);
    let (packet2, end2) = DnsPacket::parse_request(&bytes2).unwrap();
    assert_eq!(end2, bytes2.len());
    assert_eq!(packet2, packet);
}

#[test]
fn message_shorter_than_header_fails_malformed() {
    let buf: Vec<u8> = vec![0x12, 0x34, 0x00];
    assert_eq!(
        DnsPacket::parse_request(&buf).map(|p| p.1),
        Err(DnsError::MalformedHeader)
    );
}

#[test]
fn trailing_bytes_after_answers_are_ignored() {
    let mut buf = two_question_compressed_message();
    let len = buf.len();
    buf.extend_from_slice(&[0xde, 0xad, 0xbe, 0xef]);
    let (packet, end) = DnsPacket::parse_request(&buf).unwrap();
    assert_eq!(end, len);
    assert_eq!(packet.questions().len(), 2);
}
