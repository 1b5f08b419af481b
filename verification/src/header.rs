//! The fixed 12-byte DNS header: bit-level packing and unpacking.
//!
//! Wire layout (byte offsets): bytes 0-1 id, byte 2 holds QR/OPCODE/AA/TC/RD,
//! byte 3 holds RA/reserved/RCODE, bytes 4-11 the four big-endian counts.

use vstd::prelude::*;

use crate::error::DnsError;
use crate::packet::DnsPacket;

verus! {

/// The fixed DNS message header, one field per bit-field of the wire format.
#[derive(Debug, Clone, Copy, PartialEq, Eq, Structural)]
pub struct DnsHeader {
    pub id: u16,
    pub query_response: bool,
    pub op_code: u8,
    pub authoritative_answer: bool,
    pub truncated_message: bool,
    pub desired_recursion: bool,
    pub available_recursion: bool,
    pub reserved_bits: u8,
    pub response_code: u8,
    pub question_count: u16,
    pub answer_count: u16,
    pub authority_count: u16,
    pub additional_count: u16,
}

/// The big-endian 16-bit value stored at byte offsets `i` and `i + 1`.
pub open spec fn spec_be16(b: Seq<u8>, i: int) -> u16 {
    ((b[i] as u16) << 8) | (b[i + 1] as u16)
}

impl DnsHeader {
    /// The multi-bit fields fit their wire widths: 4-bit opcode and
    /// response code, 3-bit reserved field.
    pub open spec fn wf(self) -> bool {
        self.op_code < 16 && self.reserved_bits < 8 && self.response_code < 16
    }

    /// Byte 2 of the wire header: QR bit 7, OPCODE bits 6-3, AA bit 2,
    /// TC bit 1, RD bit 0.
    pub open spec fn spec_flags_hi(self) -> u8 {
        (if self.query_response { 0x80u8 } else { 0u8 })
            | (self.op_code << 3)
            | (if self.authoritative_answer { 4u8 } else { 0u8 })
            | (if self.truncated_message { 2u8 } else { 0u8 })
            | (if self.desired_recursion { 1u8 } else { 0u8 })
    }

    /// Byte 3 of the wire header: RA bit 7, reserved bits 6-4, RCODE bits 3-0.
    pub open spec fn spec_flags_lo(self) -> u8 {
        (if self.available_recursion { 0x80u8 } else { 0u8 })
            | (self.reserved_bits << 4)
            | self.response_code
    }

    /// The exact 12 wire bytes of this header.
    pub open spec fn spec_encode(self) -> Seq<u8> {
        seq![
            (self.id >> 8) as u8,
            (self.id & 0xff) as u8,
            self.spec_flags_hi(),
            self.spec_flags_lo(),
            (self.question_count >> 8) as u8,
            (self.question_count & 0xff) as u8,
            (self.answer_count >> 8) as u8,
            (self.answer_count & 0xff) as u8,
            (self.authority_count >> 8) as u8,
            (self.authority_count & 0xff) as u8,
            (self.additional_count >> 8) as u8,
            (self.additional_count & 0xff) as u8,
        ]
    }

    /// The header value described by the first 12 bytes of `b`
    /// (meaningful whenever `b.len() >= 12`).
    pub open spec fn spec_decode(b: Seq<u8>) -> DnsHeader {
        DnsHeader {
            id: spec_be16(b, 0),
            query_response: (b[2] >> 7) & 1 == 1,
            op_code: (b[2] >> 3) & 0xf,
            authoritative_answer: (b[2] >> 2) & 1 == 1,
            truncated_message: (b[2] >> 1) & 1 == 1,
            desired_recursion: b[2] & 1 == 1,
            available_recursion: (b[3] >> 7) & 1 == 1,
            reserved_bits: (b[3] >> 4) & 7,
            response_code: b[3] & 0xf,
            question_count: spec_be16(b, 4),
            answer_count: spec_be16(b, 6),
            authority_count: spec_be16(b, 8),
            additional_count: spec_be16(b, 10),
        }
    }

    pub fn new(header: DnsHeader) -> (r: Self)
        ensures
            r == header,
    {
        header
    }

    pub fn id(&self) -> (r: u16)
        ensures
            r == self.id,
    {
        self.id
    }

    pub fn query_response(&self) -> (r: bool)
        ensures
            r == self.query_response,
    {
        self.query_response
    }

    pub fn op_code(&self) -> (r: u8)
        ensures
            r == self.op_code,
    {
        self.op_code
    }

    pub fn authoritative_answer(&self) -> (r: bool)
        ensures
            r == self.authoritative_answer,
    {
        self.authoritative_answer
    }

    pub fn truncated_message(&self) -> (r: bool)
        ensures
            r == self.truncated_message,
    {
        self.truncated_message
    }

    pub fn desired_recursion(&self) -> (r: bool)
        ensures
            r == self.desired_recursion,
    {
        self.desired_recursion
    }

    pub fn available_recursion(&self) -> (r: bool)
        ensures
            r == self.available_recursion,
    {
        self.available_recursion
    }

    pub fn reserved_bits(&self) -> (r: u8)
        ensures
            r == self.reserved_bits,
    {
        self.reserved_bits
    }

    pub fn response_code(&self) -> (r: u8)
        ensures
            r == self.response_code,
    {
        self.response_code
    }

    pub fn question_count(&self) -> (r: u16)
        ensures
            r == self.question_count,
    {
        self.question_count
    }

    pub fn answer_count(&self) -> (r: u16)
        ensures
            r == self.answer_count,
    {
        self.answer_count
    }

    pub fn authority_count(&self) -> (r: u16)
        ensures
            r == self.authority_count,
    {
        self.authority_count
    }

    pub fn additional_count(&self) -> (r: u16)
        ensures
            r == self.additional_count,
    {
        self.additional_count
    }

    /// Pack this header into its exact 12 wire bytes.
    pub fn encode(&self) -> (r: Vec<u8>)
        ensures
            r@ == self.spec_encode(),
    {
        let mut out: Vec<u8> = Vec::new();
        out.push((self.id >> 8) as u8);
        out.push((self.id & 0xff) as u8);
        let qr: u8 = if self.query_response { 0x80 } else { 0 };
        let aa: u8 = if self.authoritative_answer { 4 } else { 0 };
        let tc: u8 = if self.truncated_message { 2 } else { 0 };
        let rd: u8 = if self.desired_recursion { 1 } else { 0 };
        out.push(qr | (self.op_code << 3) | aa | tc | rd);
        let ra: u8 = if self.available_recursion { 0x80 } else { 0 };
        out.push(ra | (self.reserved_bits << 4) | self.response_code);
        out.push((self.question_count >> 8) as u8);
        out.push((self.question_count & 0xff) as u8);
        out.push((self.answer_count >> 8) as u8);
        out.push((self.answer_count & 0xff) as u8);
        out.push((self.authority_count >> 8) as u8);
        out.push((self.authority_count & 0xff) as u8);
        out.push((self.additional_count >> 8) as u8);
        out.push((self.additional_count & 0xff) as u8);
        proof {
            assert(out@ =~= self.spec_encode());
        }
        out
    }

    /// Unpack the first 12 bytes of `buf`; fails on anything shorter.
    pub fn parse_request(buf: &Vec<u8>) -> (r: Result<DnsHeader, DnsError>)
        ensures
            buf@.len() < 12 ==> r == Err::<DnsHeader, DnsError>(DnsError::MalformedHeader),
            buf@.len() >= 12 ==> r == Ok::<DnsHeader, DnsError>(DnsHeader::spec_decode(buf@)),
    {
        if buf.len() < 12 {
            return Err(DnsError::MalformedHeader);
        }
        let b2 = buf[2];
        let b3 = buf[3];
        Ok(DnsHeader {
            id: ((buf[0] as u16) << 8) | (buf[1] as u16),
            query_response: (b2 >> 7) & 1 == 1,
            op_code: (b2 >> 3) & 0xf,
            authoritative_answer: (b2 >> 2) & 1 == 1,
            truncated_message: (b2 >> 1) & 1 == 1,
            desired_recursion: b2 & 1 == 1,
            available_recursion: (b3 >> 7) & 1 == 1,
            reserved_bits: (b3 >> 4) & 7,
            response_code: b3 & 0xf,
            question_count: ((buf[4] as u16) << 8) | (buf[5] as u16),
            answer_count: ((buf[6] as u16) << 8) | (buf[7] as u16),
            authority_count: ((buf[8] as u16) << 8) | (buf[9] as u16),
            additional_count: ((buf[10] as u16) << 8) | (buf[11] as u16),
        })
    }

    /// The response header demanded by the forwarding policy: echo the
    /// request's id, opcode and RD bit, mark the message as a response,
    /// answer with RCODE 0 for a standard query and 4 (not implemented)
    /// for any other opcode, declare one answer per request question, and
    /// declare no authority or additional entries, since the response
    /// serializes none — the counts must match what is actually sent.
    pub open spec fn spec_response(request: DnsHeader) -> DnsHeader {
        DnsHeader {
            id: request.id,
            query_response: true,
            op_code: request.op_code,
            authoritative_answer: false,
            truncated_message: false,
            desired_recursion: request.desired_recursion,
            available_recursion: false,
            reserved_bits: 0,
            response_code: if request.op_code == 0 { 0 } else { 4 },
            question_count: request.question_count,
            answer_count: request.question_count,
            authority_count: 0,
            additional_count: 0,
        }
    }

    /// Build the response header for a parsed request, per the policy above.
    pub fn to_response(request: &DnsPacket) -> (r: DnsHeader)
        ensures
            r == DnsHeader::spec_response(request.header),
    {
        let request_header = &request.header;
        let op_code = request_header.op_code;
        let response_code: u8 = if op_code == 0 { 0 } else { 4 };
        DnsHeader {
            id: request_header.id,
            query_response: true,
            op_code,
            authoritative_answer: false,
            truncated_message: false,
            desired_recursion: request_header.desired_recursion,
            available_recursion: false,
            reserved_bits: 0,
            response_code,
            question_count: request_header.question_count,
            answer_count: request_header.question_count,
            authority_count: 0,
            additional_count: 0,
        }
    }
}

/// A decoded header is always well formed: its multi-bit fields come out
/// of masks no wider than their wire widths.
pub proof fn lemma_decoded_header_wf(b: Seq<u8>)
    ensures
        DnsHeader::spec_decode(b).wf(),
{
    let x = b[2];
    let y = b[3];
    assert((x >> 3) & 0xf < 16) by (bit_vector);
    assert((y >> 4) & 7 < 8) by (bit_vector);
    assert(y & 0xf < 16) by (bit_vector);
}

/// Unpacking the 12 wire bytes of a well-formed header recovers every field.
pub proof fn lemma_header_round_trip(h: DnsHeader)
    requires
        h.wf(),
    ensures
        DnsHeader::spec_decode(h.spec_encode()) == h,
{
    let e = h.spec_encode();
    let id = h.id;
    assert((((((id >> 8) as u8) as u16) << 8) | (((id & 0xff) as u8) as u16)) == id)
        by (bit_vector);
    let qc = h.question_count;
    assert((((((qc >> 8) as u8) as u16) << 8) | (((qc & 0xff) as u8) as u16)) == qc)
        by (bit_vector);
    let ac = h.answer_count;
    assert((((((ac >> 8) as u8) as u16) << 8) | (((ac & 0xff) as u8) as u16)) == ac)
        by (bit_vector);
    let nc = h.authority_count;
    assert((((((nc >> 8) as u8) as u16) << 8) | (((nc & 0xff) as u8) as u16)) == nc)
        by (bit_vector);
    let dc = h.additional_count;
    assert((((((dc >> 8) as u8) as u16) << 8) | (((dc & 0xff) as u8) as u16)) == dc)
        by (bit_vector);

    let qr: u8 = if h.query_response { 0x80 } else { 0 };
    let aa: u8 = if h.authoritative_answer { 4 } else { 0 };
    let tc: u8 = if h.truncated_message { 2 } else { 0 };
    let rd: u8 = if h.desired_recursion { 1 } else { 0 };
    let op = h.op_code;
    let hi = e[2];
    assert(hi == qr | (op << 3) | aa | tc | rd);
    assert({
        &&& ((qr | (op << 3) | aa | tc | rd) >> 7) & 1 == (if qr == 0x80 { 1u8 } else { 0u8 })
        &&& ((qr | (op << 3) | aa | tc | rd) >> 3) & 0xf == op
        &&& ((qr | (op << 3) | aa | tc | rd) >> 2) & 1 == (if aa == 4 { 1u8 } else { 0u8 })
        &&& ((qr | (op << 3) | aa | tc | rd) >> 1) & 1 == (if tc == 2 { 1u8 } else { 0u8 })
        &&& (qr | (op << 3) | aa | tc | rd) & 1 == rd
    }) by (bit_vector)
        requires
            (qr == 0x80 || qr == 0) && (aa == 4 || aa == 0) && (tc == 2 || tc == 0)
                && rd <= 1 && op < 16,
    ;

    let ra: u8 = if h.available_recursion { 0x80 } else { 0 };
    let res = h.reserved_bits;
    let rc = h.response_code;
    let lo = e[3];
    assert(lo == ra | (res << 4) | rc);
    assert({
        &&& ((ra | (res << 4) | rc) >> 7) & 1 == (if ra == 0x80 { 1u8 } else { 0u8 })
        &&& ((ra | (res << 4) | rc) >> 4) & 7 == res
        &&& (ra | (res << 4) | rc) & 0xf == rc
    }) by (bit_vector)
        requires
            (ra == 0x80 || ra == 0) && res < 8 && rc < 16,
    ;

    assert(DnsHeader::spec_decode(e) == h);
}

} // verus!
