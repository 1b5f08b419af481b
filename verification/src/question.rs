//! The question section entry: a domain name plus query type and class.

use vstd::prelude::*;

use crate::error::DnsError;
use crate::header::spec_be16;
use crate::name;
use crate::name::{encoded_view, spec_encode_name, spec_name_at, wf_name};
use crate::packet::DnsPacket;
use crate::util::{clone_bytes, push_bytes};

verus! {

/// One question entry.  The name is kept in its dotted in-memory form
/// (labels joined by `.`), as raw bytes.
#[derive(Debug, PartialEq, Eq)]
pub struct DnsQuestion {
    pub name: Vec<u8>,
    pub record_type: u16,
    pub class: u16,
}

/// The mathematical image of a question: the same fields over `Seq`.
pub struct QuestionModel {
    pub name: Seq<u8>,
    pub record_type: u16,
    pub class: u16,
}

impl View for DnsQuestion {
    type V = QuestionModel;

    open spec fn view(&self) -> QuestionModel {
        QuestionModel { name: self.name@, record_type: self.record_type, class: self.class }
    }
}

impl Clone for DnsQuestion {
    fn clone(&self) -> (r: Self)
        ensures
            r@ == self@,
    {
        DnsQuestion {
            name: clone_bytes(&self.name),
            record_type: self.record_type,
            class: self.class,
        }
    }
}

/// The big-endian bytes of a 16-bit value.
pub open spec fn spec_u16_bytes(x: u16) -> Seq<u8> {
    seq![(x >> 8) as u8, (x & 0xff) as u8]
}

/// The wire bytes of a question: the encoded name, then type and class.
pub open spec fn spec_encode_question(q: QuestionModel) -> Result<Seq<u8>, DnsError> {
    match spec_encode_name(q.name) {
        Ok(n) => Ok(n + spec_u16_bytes(q.record_type) + spec_u16_bytes(q.class)),
        Err(e) => Err(e),
    }
}

/// The question found at position `pos` of `msg`, and the position just
/// past it: the name there, then 4 more bytes, which must not run out.
pub open spec fn spec_decode_question(msg: Seq<u8>, pos: int) -> Result<
    (QuestionModel, int),
    DnsError,
> {
    match spec_name_at(msg, pos) {
        Ok((nm, e)) => if e + 4 <= msg.len() {
            Ok(
                (
                    QuestionModel {
                        name: nm,
                        record_type: spec_be16(msg, e),
                        class: spec_be16(msg, e + 2),
                    },
                    e + 4,
                ),
            )
        } else {
            Err(DnsError::TruncatedQuestion)
        },
        Err(e) => Err(e),
    }
}

/// The mathematical image of an executable question decode result.
pub open spec fn question_decoded_view(r: Result<(DnsQuestion, usize), DnsError>) -> Result<
    (QuestionModel, int),
    DnsError,
> {
    match r {
        Ok(p) => Ok((p.0@, p.1 as int)),
        Err(e) => Err(e),
    }
}

impl DnsQuestion {
    pub fn name(&self) -> (r: &Vec<u8>)
        ensures
            r == self.name,
    {
        &self.name
    }

    pub fn record_type(&self) -> (r: u16)
        ensures
            r == self.record_type,
    {
        self.record_type
    }

    pub fn class(&self) -> (r: u16)
        ensures
            r == self.class,
    {
        self.class
    }

    /// Serialize this question: encoded name, then big-endian type and class.
    pub fn encode(&self) -> (r: Result<Vec<u8>, DnsError>)
        ensures
            encoded_view(r) == spec_encode_question(self@),
    {
        match name::encode(&self.name) {
            Ok(mut out) => {
                out.push((self.record_type >> 8) as u8);
                out.push((self.record_type & 0xff) as u8);
                out.push((self.class >> 8) as u8);
                out.push((self.class & 0xff) as u8);
                proof {
                    assert(out@ =~= spec_encode_name(self.name@)->Ok_0
                        + spec_u16_bytes(self.record_type) + spec_u16_bytes(self.class));
                }
                Ok(out)
            },
            Err(e) => Err(e),
        }
    }

    /// Decode one question starting at `pos`: the name, then 4 bytes of
    /// type and class; fails with `TruncatedQuestion` if those run out.
    pub fn from_bytes(msg: &Vec<u8>, pos: usize) -> (r: Result<(DnsQuestion, usize), DnsError>)
        ensures
            question_decoded_view(r) == spec_decode_question(msg@, pos as int),
            r matches Ok(p) ==> pos < p.1 <= msg@.len(),
    {
        match name::decode(msg, pos) {
            Ok((nm, e)) => {
                if msg.len() - e < 4 {
                    return Err(DnsError::TruncatedQuestion);
                }
                let record_type = ((msg[e] as u16) << 8) | (msg[e + 1] as u16);
                let class = ((msg[e + 2] as u16) << 8) | (msg[e + 3] as u16);
                Ok((DnsQuestion { name: nm, record_type, class }, e + 4))
            },
            Err(e) => Err(e),
        }
    }

    /// Decode `count` questions in sequence, starting at `pos`.
    pub fn parse_request(msg: &Vec<u8>, pos: usize, count: u16) -> (r: Result<
        (Vec<DnsQuestion>, usize),
        DnsError,
    >)
        requires
            pos <= msg@.len(),
        ensures
            questions_decoded_view(r) == spec_decode_questions(msg@, pos as int, count as int),
            r matches Ok(p) ==> pos <= p.1 <= msg@.len(),
    {
        let mut out: Vec<DnsQuestion> = Vec::new();
        let mut cur: usize = pos;
        let mut i: u16 = 0;
        proof {
            assert(questions_view(out) =~= Seq::<QuestionModel>::empty());
            match spec_decode_questions(msg@, pos as int, count as int) {
                Ok(p) => {
                    assert(questions_view(out) + p.0 =~= p.0);
                },
                Err(_) => {},
            }
        }
        while i < count
            invariant
                0 <= i <= count,
                pos <= cur <= msg@.len(),
                (match spec_decode_questions(msg@, cur as int, (count - i) as int) {
                    Ok(p) => spec_decode_questions(msg@, pos as int, count as int) == Ok::<
                        (Seq<QuestionModel>, int),
                        DnsError,
                    >((questions_view(out) + p.0, p.1)),
                    Err(e) => spec_decode_questions(msg@, pos as int, count as int) == Err::<
                        (Seq<QuestionModel>, int),
                        DnsError,
                    >(e),
                }),
            decreases count - i,
        {
            match DnsQuestion::from_bytes(msg, cur) {
                Ok((q, e)) => {
                    let ghost out_snap = questions_view(out);
                    let ghost qv = q@;
                    proof {
                        match spec_decode_questions(msg@, e as int, (count - i - 1) as int) {
                            Ok(p) => {
                                assert(out_snap + (seq![qv] + p.0) =~= out_snap.push(qv) + p.0);
                            },
                            Err(_) => {},
                        }
                    }
                    out.push(q);
                    cur = e;
                    i = i + 1;
                    proof {
                        assert(questions_view(out) =~= out_snap.push(qv));
                    }
                },
                Err(e) => {
                    return Err(e);
                },
            }
        }
        proof {
            assert(questions_view(out) + Seq::<QuestionModel>::empty() =~= questions_view(out));
        }
        Ok((out, cur))
    }

    /// Decode the domain name that begins at `pos` of the whole message,
    /// compression pointers included.
    pub fn parse_name(msg: &Vec<u8>, pos: usize) -> (r: Result<(Vec<u8>, usize), DnsError>)
        ensures
            crate::name::decoded_view(r) == spec_name_at(msg@, pos as int),
            r matches Ok(p) ==> pos < p.1 <= msg@.len(),
    {
        name::decode(msg, pos)
    }

    /// Echo the request's questions into a response, one per declared
    /// question count.
    pub fn to_response(packet_response: &DnsPacket) -> (r: Vec<DnsQuestion>)
        requires
            packet_response.header.question_count <= packet_response.questions@.len(),
        ensures
            questions_view(r) == packet_response@.questions.take(
                packet_response.header.question_count as int,
            ),
    {
        let count = packet_response.header.question_count as usize;
        let mut out: Vec<DnsQuestion> = Vec::new();
        let mut i: usize = 0;
        proof {
            assert(questions_view(out) =~= packet_response@.questions.take(0));
        }
        while i < count
            invariant
                i <= count,
                count <= packet_response.questions@.len(),
                questions_view(out) == packet_response@.questions.take(i as int),
            decreases count - i,
        {
            let ghost prev = questions_view(out);
            let ghost qs = packet_response@.questions;
            let q = packet_response.questions[i].clone();
            let ghost qv = q@;
            out.push(q);
            proof {
                assert(qv == qs[i as int]);
                assert(questions_view(out) =~= prev.push(qv));
                assert(prev.push(qv) =~= qs.take(i + 1));
            }
            i = i + 1;
        }
        out
    }
}

/// The views of a vector of questions.
pub open spec fn questions_view(v: Vec<DnsQuestion>) -> Seq<QuestionModel> {
    v@.map_values(|q: DnsQuestion| q@)
}

/// The first `n` questions found back to back from position `pos` of
/// `msg`, and the position just past the last of them.
pub open spec fn spec_decode_questions(msg: Seq<u8>, pos: int, n: int) -> Result<
    (Seq<QuestionModel>, int),
    DnsError,
>
    decreases n,
{
    if n <= 0 {
        Ok((Seq::empty(), pos))
    } else {
        match spec_decode_question(msg, pos) {
            Ok((q, e)) => match spec_decode_questions(msg, e, n - 1) {
                Ok((qs, e2)) => Ok((seq![q] + qs, e2)),
                Err(er) => Err(er),
            },
            Err(er) => Err(er),
        }
    }
}

/// The mathematical image of an executable multi-question decode result.
pub open spec fn questions_decoded_view(r: Result<(Vec<DnsQuestion>, usize), DnsError>) -> Result<
    (Seq<QuestionModel>, int),
    DnsError,
> {
    match r {
        Ok(p) => Ok((questions_view(p.0), p.1 as int)),
        Err(e) => Err(e),
    }
}

/// The wire bytes of several questions, back to back.
pub open spec fn spec_encode_questions(qs: Seq<QuestionModel>) -> Result<Seq<u8>, DnsError>
    decreases qs.len(),
{
    if qs.len() == 0 {
        Ok(Seq::empty())
    } else {
        match spec_encode_question(qs[0]) {
            Ok(b) => match spec_encode_questions(qs.drop_first()) {
                Ok(rest) => Ok(b + rest),
                Err(e) => Err(e),
            },
            Err(e) => Err(e),
        }
    }
}

/// A run of questions whose names are all well formed has a wire encoding.
pub proof fn lemma_encode_questions_ok(qs: Seq<QuestionModel>)
    requires
        forall|k: int| 0 <= k < qs.len() ==> wf_name(#[trigger] qs[k].name),
    ensures
        spec_encode_questions(qs) matches Ok(_),
    decreases qs.len(),
{
    if qs.len() > 0 {
        name::lemma_wf_name_encode_ok(qs[0].name);
        assert(forall|k: int|
            0 <= k < qs.drop_first().len() ==> wf_name(#[trigger] qs.drop_first()[k].name));
        lemma_encode_questions_ok(qs.drop_first());
    }
}

/// Round trip for a whole question section: questions with well-formed
/// names, encoded back to back anywhere in a message, decode back to
/// exactly the same questions.
pub proof fn lemma_questions_encode_decode(msg: Seq<u8>, pos: int, qs: Seq<QuestionModel>)
    requires
        forall|k: int| 0 <= k < qs.len() ==> wf_name(#[trigger] qs[k].name),
        0 <= pos,
        spec_encode_questions(qs) matches Ok(enc) ==> pos + enc.len() <= msg.len()
            && msg.subrange(pos, pos + enc.len()) == enc,
    ensures
        spec_encode_questions(qs) matches Ok(enc) && spec_decode_questions(
            msg,
            pos,
            qs.len() as int,
        ) == Ok::<(Seq<QuestionModel>, int), DnsError>((qs, pos + enc.len())),
    decreases qs.len(),
{
    lemma_encode_questions_ok(qs);
    let enc = spec_encode_questions(qs)->Ok_0;
    if qs.len() == 0 {
        assert(qs =~= Seq::<QuestionModel>::empty());
    } else {
        name::lemma_wf_name_encode_ok(qs[0].name);
        let b = spec_encode_question(qs[0])->Ok_0;
        let rest_enc = spec_encode_questions(qs.drop_first())->Ok_0;
        assert(enc == b + rest_enc);
        let win = msg.subrange(pos, pos + enc.len());
        let bl = b.len() as int;
        assert forall|k: int|
            0 <= k < bl implies #[trigger] msg.subrange(pos, pos + bl)[k] == b[k] by {
            assert(msg.subrange(pos, pos + bl)[k] == msg[pos + k]);
            assert(msg[pos + k] == win[k]);
            assert(win[k] == enc[k]);
            assert(enc[k] == b[k]);
        }
        assert(msg.subrange(pos, pos + bl) =~= b);
        lemma_question_round_trip(msg, pos, qs[0]);
        let pos2 = pos + bl;
        assert forall|k: int|
            0 <= k < rest_enc.len() implies #[trigger] msg.subrange(
                pos2,
                pos2 + rest_enc.len(),
            )[k] == rest_enc[k] by {
            assert(msg.subrange(pos2, pos2 + rest_enc.len())[k] == msg[pos2 + k]);
            assert(msg[pos2 + k] == win[bl + k]);
            assert(win[bl + k] == enc[bl + k]);
            assert(enc[bl + k] == rest_enc[k]);
        }
        assert(msg.subrange(pos2, pos2 + rest_enc.len()) =~= rest_enc);
        assert(forall|k: int|
            0 <= k < qs.drop_first().len() ==> wf_name(#[trigger] qs.drop_first()[k].name));
        lemma_questions_encode_decode(msg, pos2, qs.drop_first());
        assert(seq![qs[0]] + qs.drop_first() =~= qs);
    }
}

/// A successful multi-question decode yields exactly as many questions as
/// asked for, and lands within the buffer.
pub proof fn lemma_decode_questions_props(msg: Seq<u8>, pos: int, n: int)
    requires
        spec_decode_questions(msg, pos, n) matches Ok(_),
    ensures
        spec_decode_questions(msg, pos, n) matches Ok((qs, e)) ==> qs.len() == (if n >= 0 {
            n
        } else {
            0
        }) && (n > 0 ==> pos < e <= msg.len()),
    decreases n,
{
    if n > 0 {
        match spec_decode_question(msg, pos) {
            Ok((q, e)) => {
                name::lemma_decode_name_bounds(msg, pos, msg.len());
                lemma_decode_questions_props(msg, e, n - 1);
            },
            Err(_) => {},
        }
    }
}

/// Serialize a run of questions, back to back.
pub fn encode_questions(qs: &Vec<DnsQuestion>) -> (r: Result<Vec<u8>, DnsError>)
    ensures
        encoded_view(r) == spec_encode_questions(questions_view(*qs)),
{
    let ghost qv = questions_view(*qs);
    let mut out: Vec<u8> = Vec::new();
    let mut i: usize = 0;
    proof {
        assert(qv.skip(0) =~= qv);
        match spec_encode_questions(qv) {
            Ok(rest) => {
                assert(out@ + rest =~= rest);
            },
            Err(_) => {},
        }
    }
    while i < qs.len()
        invariant
            i <= qs@.len(),
            qv == questions_view(*qs),
            (match spec_encode_questions(qv.skip(i as int)) {
                Ok(rest) => spec_encode_questions(qv) == Ok::<Seq<u8>, DnsError>(out@ + rest),
                Err(e) => spec_encode_questions(qv) == Err::<Seq<u8>, DnsError>(e),
            }),
        decreases qs@.len() - i,
    {
        proof {
            assert(qv.skip(i as int)[0] == qv[i as int]);
            assert(qv.skip(i as int).drop_first() =~= qv.skip(i + 1));
        }
        match qs[i].encode() {
            Ok(b) => {
                proof {
                    match spec_encode_questions(qv.skip(i + 1)) {
                        Ok(rest) => {
                            assert(out@ + (b@ + rest) =~= (out@ + b@) + rest);
                        },
                        Err(_) => {},
                    }
                }
                push_bytes(&mut out, &b);
                i = i + 1;
            },
            Err(e) => {
                return Err(e);
            },
        }
    }
    proof {
        assert(qv.skip(qv.len() as int) =~= Seq::<QuestionModel>::empty());
        match spec_encode_questions(qv.skip(qv.len() as int)) {
            Ok(rest) => {
                assert(out@ + rest =~= out@);
            },
            Err(_) => {},
        }
    }
    Ok(out)
}

/// Round trip at the question level: a question whose name is well formed
/// encodes to bytes that decode back to exactly the same question.
pub proof fn lemma_question_round_trip(msg: Seq<u8>, pos: int, q: QuestionModel)
    requires
        wf_name(q.name),
        0 <= pos,
        spec_encode_question(q) matches Ok(enc) ==> pos + enc.len() <= msg.len() && msg.subrange(
            pos,
            pos + enc.len(),
        ) == enc,
    ensures
        spec_encode_question(q) matches Ok(enc) && spec_decode_question(msg, pos) == Ok::<
            (QuestionModel, int),
            DnsError,
        >((q, pos + enc.len())),
{
    name::lemma_wf_name_encode_ok(q.name);
    let name_enc = spec_encode_name(q.name)->Ok_0;
    let enc = spec_encode_question(q)->Ok_0;
    assert(enc == name_enc + spec_u16_bytes(q.record_type) + spec_u16_bytes(q.class));
    let win = msg.subrange(pos, pos + enc.len());
    let nl = name_enc.len() as int;
    assert forall|k: int|
        0 <= k < nl implies #[trigger] msg.subrange(pos, pos + nl)[k] == name_enc[k] by {
        assert(msg.subrange(pos, pos + nl)[k] == msg[pos + k]);
        assert(msg[pos + k] == win[k]);
        assert(win[k] == enc[k]);
        assert(enc[k] == name_enc[k]);
    }
    assert(msg.subrange(pos, pos + nl) =~= name_enc);
    name::lemma_name_round_trip(msg, pos, q.name, msg.len());
    let e = pos + nl;
    assert(msg[e] == win[nl] && win[nl] == enc[nl] && enc[nl] == ((q.record_type >> 8) as u8));
    assert(msg[e + 1] == win[nl + 1] && win[nl + 1] == enc[nl + 1] && enc[nl + 1] == ((
    q.record_type & 0xff) as u8));
    assert(msg[e + 2] == win[nl + 2] && win[nl + 2] == enc[nl + 2] && enc[nl + 2] == ((q.class
        >> 8) as u8));
    assert(msg[e + 3] == win[nl + 3] && win[nl + 3] == enc[nl + 3] && enc[nl + 3] == ((q.class
        & 0xff) as u8));
    lemma_be16_split(q.record_type);
    lemma_be16_split(q.class);
    assert(spec_be16(msg, e) == q.record_type);
    assert(spec_be16(msg, e + 2) == q.class);
}

/// Splitting a 16-bit value into big-endian bytes and recombining them
/// gives the value back.
pub proof fn lemma_be16_split(x: u16)
    ensures
        ((((x >> 8) as u8) as u16) << 8) | (((x & 0xff) as u8) as u16) == x,
{
    assert(((((x >> 8) as u8) as u16) << 8) | (((x & 0xff) as u8) as u16) == x) by (bit_vector);
}

} // verus!
