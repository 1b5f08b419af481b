//! The whole DNS message: header plus question and answer sections, the
//! response-construction policy, and the single-question forwarding query.

use vstd::prelude::*;

use crate::error::DnsError;
use crate::header::{lemma_decoded_header_wf, lemma_header_round_trip, DnsHeader};
use crate::name::{encoded_view, wf_name};
use crate::question::{
    encode_questions, lemma_decode_questions_props, lemma_encode_questions_ok, lemma_questions_encode_decode,
    questions_view, spec_decode_questions, spec_encode_questions,
    DnsQuestion, QuestionModel,
};
use crate::record::{
    encode_records, lemma_decode_records_props, lemma_encode_records_ok, lemma_records_encode_decode, records_view,
    spec_decode_records, spec_encode_records, DnsRecord, RecordModel,
};
use crate::util::push_bytes;

verus! {

/// A full DNS message.
#[derive(Debug, PartialEq, Eq)]
pub struct DnsPacket {
    pub header: DnsHeader,
    pub questions: Vec<DnsQuestion>,
    pub answers: Vec<DnsRecord>,
}

/// The mathematical image of a message.
pub struct PacketModel {
    pub header: DnsHeader,
    pub questions: Seq<QuestionModel>,
    pub answers: Seq<RecordModel>,
}

impl View for DnsPacket {
    type V = PacketModel;

    open spec fn view(&self) -> PacketModel {
        PacketModel {
            header: self.header,
            questions: self.questions@.map_values(|q: DnsQuestion| q@),
            answers: self.answers@.map_values(|r: DnsRecord| r@),
        }
    }
}

impl PacketModel {
    /// The section counts declared in the header match the entries
    /// actually carried (the invariant a conformant receiver relies on).
    pub open spec fn wf(self) -> bool {
        self.header.question_count == self.questions.len()
            && self.header.answer_count == self.answers.len()
    }
}

/// The views of a vector of packets.
pub open spec fn packets_view(v: Vec<DnsPacket>) -> Seq<PacketModel> {
    v@.map_values(|p: DnsPacket| p@)
}

/// The mathematical image of an executable message decode result.
pub open spec fn packet_decoded_view(r: Result<(DnsPacket, usize), DnsError>) -> Result<
    (PacketModel, int),
    DnsError,
> {
    match r {
        Ok(p) => Ok((p.0@, p.1 as int)),
        Err(e) => Err(e),
    }
}

/// The wire bytes of a whole message: the 12 header bytes, then every
/// question, then every record, in order.  The caller owes the count
/// invariant; the bytes carry the counts exactly as the header states them.
pub open spec fn spec_encode_message(m: PacketModel) -> Result<Seq<u8>, DnsError> {
    match spec_encode_questions(m.questions) {
        Ok(qb) => match spec_encode_records(m.answers) {
            Ok(rb) => Ok(m.header.spec_encode() + qb + rb),
            Err(e) => Err(e),
        },
        Err(e) => Err(e),
    }
}

/// The message described by `msg`: the header, then as many questions and
/// answer records as the header declares.  Bytes past the answer section
/// (authority and additional entries) are left untouched.
pub open spec fn spec_decode_message(msg: Seq<u8>) -> Result<(PacketModel, int), DnsError> {
    if msg.len() < 12 {
        Err(DnsError::MalformedHeader)
    } else {
        let h = DnsHeader::spec_decode(msg);
        match spec_decode_questions(msg, 12, h.question_count as int) {
            Ok((qs, e1)) => match spec_decode_records(msg, e1, h.answer_count as int) {
                Ok((rs, e2)) => Ok((PacketModel { header: h, questions: qs, answers: rs }, e2)),
                Err(e) => Err(e),
            },
            Err(e) => Err(e),
        }
    }
}

/// The answer section a forwarded request comes back with: the first
/// answer of each of the first `n` upstream replies, in question order.
pub open spec fn spec_first_answers(replies: Seq<PacketModel>, n: int) -> Seq<RecordModel> {
    Seq::new(n as nat, |k: int| replies[k].answers[0])
}

/// The response to a parsed request, given the answers collected for its
/// questions: the policy header, the request's questions echoed, and the
/// answers.
pub open spec fn spec_response(request: PacketModel, answers: Seq<RecordModel>) -> PacketModel {
    PacketModel {
        header: DnsHeader::spec_response(request.header),
        questions: request.questions.take(request.header.question_count as int),
        answers,
    }
}

/// The fixed header of an outbound single-question forwarding query:
/// a fresh transaction id, recursion desired, one question, nothing else.
pub open spec fn spec_query_header() -> DnsHeader {
    DnsHeader {
        id: 123,
        query_response: false,
        op_code: 0,
        authoritative_answer: false,
        truncated_message: false,
        desired_recursion: true,
        available_recursion: false,
        reserved_bits: 0,
        response_code: 0,
        question_count: 1,
        answer_count: 0,
        authority_count: 0,
        additional_count: 0,
    }
}

impl DnsPacket {
    pub fn header(&self) -> (r: &DnsHeader)
        ensures
            r == self.header,
    {
        &self.header
    }

    pub fn questions(&self) -> (r: &Vec<DnsQuestion>)
        ensures
            r == self.questions,
    {
        &self.questions
    }

    pub fn answers(&self) -> (r: &Vec<DnsRecord>)
        ensures
            r == self.answers,
    {
        &self.answers
    }

    /// Serialize this message: header bytes, questions, then records.
    pub fn encode(&self) -> (r: Result<Vec<u8>, DnsError>)
        ensures
            encoded_view(r) == spec_encode_message(self@),
    {
        let mut out = self.header.encode();
        match encode_questions(&self.questions) {
            Ok(qb) => match encode_records(&self.answers) {
                Ok(rb) => {
                    push_bytes(&mut out, &qb);
                    push_bytes(&mut out, &rb);
                    proof {
                        assert(out@ =~= self.header.spec_encode() + qb@ + rb@);
                    }
                    Ok(out)
                },
                Err(e) => Err(e),
            },
            Err(e) => Err(e),
        }
    }

    /// Decode a whole message: the header, then as many questions and
    /// answer records as it declares.  Trailing bytes are ignored; the
    /// returned offset says where the answer section ended.
    pub fn parse_request(buf: &Vec<u8>) -> (r: Result<(DnsPacket, usize), DnsError>)
        ensures
            packet_decoded_view(r) == spec_decode_message(buf@),
            r matches Ok(p) ==> p.0@.wf() && p.1 <= buf@.len(),
    {
        let header = match DnsHeader::parse_request(buf) {
            Ok(h) => h,
            Err(e) => {
                return Err(e);
            },
        };
        let (questions, e1) = match DnsQuestion::parse_request(buf, 12, header.question_count) {
            Ok(p) => p,
            Err(e) => {
                return Err(e);
            },
        };
        let (answers, e2) = match DnsRecord::parse_request(buf, e1, header.answer_count) {
            Ok(p) => p,
            Err(e) => {
                return Err(e);
            },
        };
        proof {
            lemma_decode_questions_props(buf@, 12, header.question_count as int);
            lemma_decode_records_props(buf@, e1 as int, header.answer_count as int);
        }
        Ok((DnsPacket { header, questions, answers }, e2))
    }

    /// Build the outbound single-question query for one request question.
    pub fn build_query(question: DnsQuestion) -> (r: DnsPacket)
        ensures
            r@.header == spec_query_header(),
            r@.questions == seq![question@],
            r@.answers == Seq::<RecordModel>::empty(),
            r@.wf(),
    {
        let header = DnsHeader {
            id: 123,
            query_response: false,
            op_code: 0,
            authoritative_answer: false,
            truncated_message: false,
            desired_recursion: true,
            available_recursion: false,
            reserved_bits: 0,
            response_code: 0,
            question_count: 1,
            answer_count: 0,
            authority_count: 0,
            additional_count: 0,
        };
        let ghost qv = question@;
        let mut questions: Vec<DnsQuestion> = Vec::new();
        questions.push(question);
        let answers: Vec<DnsRecord> = Vec::new();
        let packet = DnsPacket { header, questions, answers };
        proof {
            assert(packet@.questions =~= seq![qv]);
            assert(packet@.answers =~= Seq::<RecordModel>::empty());
        }
        packet
    }

    /// Build the response wire bytes for a parsed request, given one
    /// upstream reply per question: the policy header, the questions
    /// echoed, and each reply's first answer.  Fails with
    /// `UpstreamNoAnswer` as soon as one reply carries no answer, and
    /// with `LabelTooLong` if a name cannot be re-encoded.
    pub fn to_response(request: &DnsPacket, replies: &Vec<DnsPacket>) -> (r: Result<
        Vec<u8>,
        DnsError,
    >)
        requires
            request.header.question_count <= request.questions@.len(),
            request.header.question_count <= replies@.len(),
        ensures
            (forall|k: int|
                0 <= k < request.header.question_count ==> packets_view(
                    *replies,
                )[k].answers.len() > 0) ==> encoded_view(r) == spec_encode_message(
                spec_response(
                    request@,
                    spec_first_answers(
                        packets_view(*replies),
                        request.header.question_count as int,
                    ),
                ),
            ),
            !(forall|k: int|
                0 <= k < request.header.question_count ==> packets_view(
                    *replies,
                )[k].answers.len() > 0) ==> r == Err::<Vec<u8>, DnsError>(
                DnsError::UpstreamNoAnswer,
            ),
    {
        let header = DnsHeader::to_response(request);
        let questions = DnsQuestion::to_response(request);
        match DnsRecord::to_response(request, replies) {
            Ok(answers) => {
                let ghost count = request.header.question_count as int;
                let ghost pv = packets_view(*replies);
                let ghost av = records_view(answers);
                let ghost qv = questions_view(questions);
                let packet = DnsPacket { header, questions, answers };
                proof {
                    assert forall|k: int|
                        0 <= k < count implies #[trigger] av[k] == spec_first_answers(
                        pv,
                        count,
                    )[k] by {
                        assert(av[k] == pv[k].answers[0]);
                    }
                    assert(av =~= spec_first_answers(pv, count));
                    assert(packet@.questions =~= qv);
                    assert(packet@.answers =~= av);
                    assert(packet@ == spec_response(request@, spec_first_answers(pv, count)));
                }
                packet.encode()
            },
            Err(e) => Err(e),
        }
    }
}

/// Idempotence: re-encoding a decoded message and decoding it again gives
/// back exactly the same structured message, provided every name in it is
/// in well-formed dotted shape (compression aside, the semantic content is
/// preserved; the bytes need not be).
pub proof fn lemma_message_idempotent(msg: Seq<u8>, m: PacketModel, end: int)
    requires
        spec_decode_message(msg) == Ok::<(PacketModel, int), DnsError>((m, end)),
        forall|k: int| 0 <= k < m.questions.len() ==> wf_name(#[trigger] m.questions[k].name),
        forall|k: int| 0 <= k < m.answers.len() ==> wf_name(#[trigger] m.answers[k].name),
    ensures
        spec_encode_message(m) matches Ok(bytes) && spec_decode_message(bytes) == Ok::<
            (PacketModel, int),
            DnsError,
        >((m, bytes.len() as int)),
{
    assert(msg.len() >= 12);
    let h = DnsHeader::spec_decode(msg);
    lemma_decoded_header_wf(msg);
    lemma_decode_questions_props(msg, 12, h.question_count as int);
    let qp = spec_decode_questions(msg, 12, h.question_count as int)->Ok_0;
    lemma_decode_records_props(msg, qp.1, h.answer_count as int);
    assert(m.header == h);
    assert(m.questions.len() == h.question_count);
    assert(m.answers.len() == h.answer_count);
    assert(forall|k: int| 0 <= k < m.answers.len() ==> (#[trigger] m.answers[k]).wf());

    lemma_encode_questions_ok(m.questions);
    lemma_encode_records_ok(m.answers);
    let hb = m.header.spec_encode();
    let qb = spec_encode_questions(m.questions)->Ok_0;
    let rb = spec_encode_records(m.answers)->Ok_0;
    let bytes = spec_encode_message(m)->Ok_0;
    assert(bytes == hb + qb + rb);
    assert(hb.len() == 12);
    assert(bytes.len() == 12 + qb.len() + rb.len());

    assert forall|k: int| 0 <= k < 12 implies #[trigger] bytes[k] == hb[k] by {
        assert(bytes[k] == (hb + qb)[k]);
        assert((hb + qb)[k] == hb[k]);
    }
    lemma_header_round_trip(m.header);
    assert(DnsHeader::spec_decode(bytes) == m.header);

    assert forall|k: int|
        0 <= k < qb.len() implies #[trigger] bytes.subrange(12, 12 + qb.len() as int)[k]
            == qb[k] by {
        assert(bytes.subrange(12, 12 + qb.len() as int)[k] == bytes[12 + k]);
        assert(bytes[12 + k] == (hb + qb)[12 + k]);
        assert((hb + qb)[12 + k] == qb[k]);
    }
    assert(bytes.subrange(12, 12 + qb.len() as int) =~= qb);
    lemma_questions_encode_decode(bytes, 12, m.questions);
    let e1 = 12 + qb.len() as int;
    assert(spec_decode_questions(bytes, 12, h.question_count as int) == Ok::<
        (Seq<QuestionModel>, int),
        DnsError,
    >((m.questions, e1)));

    assert forall|k: int|
        0 <= k < rb.len() implies #[trigger] bytes.subrange(e1, e1 + rb.len() as int)[k]
            == rb[k] by {
        assert(bytes.subrange(e1, e1 + rb.len() as int)[k] == bytes[e1 + k]);
        assert(bytes[e1 + k] == rb[k]);
    }
    assert(bytes.subrange(e1, e1 + rb.len() as int) =~= rb);
    lemma_records_encode_decode(bytes, e1, m.answers);
    assert(spec_decode_records(bytes, e1, h.answer_count as int) == Ok::<
        (Seq<RecordModel>, int),
        DnsError,
    >((m.answers, bytes.len() as int)));

    assert(spec_decode_message(bytes) == Ok::<(PacketModel, int), DnsError>(
        (PacketModel { header: m.header, questions: m.questions, answers: m.answers }, bytes.len() as int),
    ));
    assert(PacketModel { header: m.header, questions: m.questions, answers: m.answers } == m);
}

} // verus!
