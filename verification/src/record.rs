//! The resource-record entry: name, type, class, TTL and raw RDATA.

use vstd::prelude::*;

use crate::error::DnsError;
use crate::header::spec_be16;
use crate::name;
use crate::name::{encoded_view, spec_encode_name, spec_name_at, wf_name};
use crate::packet::{packets_view, DnsPacket};
use crate::question::{lemma_be16_split, spec_u16_bytes};
use crate::util::{clone_bytes, push_bytes};

verus! {

/// One resource record.  The name is kept in its dotted in-memory form
/// (labels joined by `.`), as raw bytes.
#[derive(Debug, PartialEq, Eq)]
pub struct DnsRecord {
    pub name: Vec<u8>,
    pub record_type: u16,
    pub class: u16,
    pub ttl: u32,
    pub length: u16,
    pub data: Vec<u8>,
}

/// The mathematical image of a record: the same fields over `Seq`.
pub struct RecordModel {
    pub name: Seq<u8>,
    pub record_type: u16,
    pub class: u16,
    pub ttl: u32,
    pub length: u16,
    pub data: Seq<u8>,
}

impl View for DnsRecord {
    type V = RecordModel;

    open spec fn view(&self) -> RecordModel {
        RecordModel {
            name: self.name@,
            record_type: self.record_type,
            class: self.class,
            ttl: self.ttl,
            length: self.length,
            data: self.data@,
        }
    }
}

impl Clone for DnsRecord {
    fn clone(&self) -> (r: Self)
        ensures
            r@ == self@,
    {
        DnsRecord {
            name: clone_bytes(&self.name),
            record_type: self.record_type,
            class: self.class,
            ttl: self.ttl,
            length: self.length,
            data: clone_bytes(&self.data),
        }
    }
}

impl RecordModel {
    /// The declared RDATA length agrees with the bytes actually carried.
    pub open spec fn wf(self) -> bool {
        self.length == self.data.len()
    }
}

/// The big-endian bytes of a 32-bit value.
pub open spec fn spec_u32_bytes(x: u32) -> Seq<u8> {
    seq![
        (x >> 24) as u8,
        ((x >> 16) & 0xff) as u8,
        ((x >> 8) & 0xff) as u8,
        (x & 0xff) as u8,
    ]
}

/// The big-endian 32-bit value stored at byte offsets `i` to `i + 3`.
pub open spec fn spec_be32(b: Seq<u8>, i: int) -> u32 {
    ((b[i] as u32) << 24) | ((b[i + 1] as u32) << 16) | ((b[i + 2] as u32) << 8) | (b[i + 3] as u32)
}

/// Splitting a 32-bit value into big-endian bytes and recombining them
/// gives the value back.
pub proof fn lemma_be32_split(x: u32)
    ensures
        ((((x >> 24) as u8) as u32) << 24) | ((((x >> 16) & 0xff) as u8 as u32) << 16) | ((((x >> 8)
            & 0xff) as u8 as u32) << 8) | (((x & 0xff) as u8) as u32) == x,
{
    assert(((((x >> 24) as u8) as u32) << 24) | ((((x >> 16) & 0xff) as u8 as u32) << 16) | ((((x
        >> 8) & 0xff) as u8 as u32) << 8) | (((x & 0xff) as u8) as u32) == x) by (bit_vector);
}

/// The wire bytes of a record: the encoded name, then type, class, TTL,
/// the declared RDATA length, and the RDATA itself.
pub open spec fn spec_encode_record(r: RecordModel) -> Result<Seq<u8>, DnsError> {
    match spec_encode_name(r.name) {
        Ok(n) => Ok(
            n + spec_u16_bytes(r.record_type) + spec_u16_bytes(r.class) + spec_u32_bytes(r.ttl)
                + spec_u16_bytes(r.length) + r.data,
        ),
        Err(e) => Err(e),
    }
}

/// The record found at position `pos` of `msg`, and the position just past
/// it: the name, 10 fixed bytes, then as many RDATA bytes as the length
/// field declares; fails with `TruncatedRecord` when the buffer ends first.
pub open spec fn spec_decode_record(msg: Seq<u8>, pos: int) -> Result<(RecordModel, int), DnsError> {
    match spec_name_at(msg, pos) {
        Ok((nm, e)) => if e + 10 <= msg.len() {
            let length = spec_be16(msg, e + 8);
            if e + 10 + length <= msg.len() {
                Ok(
                    (
                        RecordModel {
                            name: nm,
                            record_type: spec_be16(msg, e),
                            class: spec_be16(msg, e + 2),
                            ttl: spec_be32(msg, e + 4),
                            length,
                            data: msg.subrange(e + 10, e + 10 + length),
                        },
                        e + 10 + length,
                    ),
                )
            } else {
                Err(DnsError::TruncatedRecord)
            }
        } else {
            Err(DnsError::TruncatedRecord)
        },
        Err(e) => Err(e),
    }
}

/// The mathematical image of an executable record decode result.
pub open spec fn record_decoded_view(r: Result<(DnsRecord, usize), DnsError>) -> Result<
    (RecordModel, int),
    DnsError,
> {
    match r {
        Ok(p) => Ok((p.0@, p.1 as int)),
        Err(e) => Err(e),
    }
}

/// The views of a vector of records.
pub open spec fn records_view(v: Vec<DnsRecord>) -> Seq<RecordModel> {
    v@.map_values(|r: DnsRecord| r@)
}

/// The first `n` records found back to back from position `pos` of `msg`,
/// and the position just past the last of them.
pub open spec fn spec_decode_records(msg: Seq<u8>, pos: int, n: int) -> Result<
    (Seq<RecordModel>, int),
    DnsError,
>
    decreases n,
{
    if n <= 0 {
        Ok((Seq::empty(), pos))
    } else {
        match spec_decode_record(msg, pos) {
            Ok((r, e)) => match spec_decode_records(msg, e, n - 1) {
                Ok((rs, e2)) => Ok((seq![r] + rs, e2)),
                Err(er) => Err(er),
            },
            Err(er) => Err(er),
        }
    }
}

/// The mathematical image of an executable multi-record decode result.
pub open spec fn records_decoded_view(r: Result<(Vec<DnsRecord>, usize), DnsError>) -> Result<
    (Seq<RecordModel>, int),
    DnsError,
> {
    match r {
        Ok(p) => Ok((records_view(p.0), p.1 as int)),
        Err(e) => Err(e),
    }
}

impl DnsRecord {
    /// Serialize this record: encoded name, fixed fields, then the RDATA.
    pub fn encode(&self) -> (r: Result<Vec<u8>, DnsError>)
        ensures
            encoded_view(r) == spec_encode_record(self@),
    {
        match name::encode(&self.name) {
            Ok(mut out) => {
                out.push((self.record_type >> 8) as u8);
                out.push((self.record_type & 0xff) as u8);
                out.push((self.class >> 8) as u8);
                out.push((self.class & 0xff) as u8);
                out.push((self.ttl >> 24) as u8);
                out.push(((self.ttl >> 16) & 0xff) as u8);
                out.push(((self.ttl >> 8) & 0xff) as u8);
                out.push((self.ttl & 0xff) as u8);
                out.push((self.length >> 8) as u8);
                out.push((self.length & 0xff) as u8);
                push_bytes(&mut out, &self.data);
                proof {
                    assert(out@ =~= spec_encode_name(self.name@)->Ok_0
                        + spec_u16_bytes(self.record_type) + spec_u16_bytes(self.class)
                        + spec_u32_bytes(self.ttl) + spec_u16_bytes(self.length) + self.data@);
                }
                Ok(out)
            },
            Err(e) => Err(e),
        }
    }

    /// Decode one record starting at `pos`.
    pub fn from_bytes(msg: &Vec<u8>, pos: usize) -> (r: Result<(DnsRecord, usize), DnsError>)
        ensures
            record_decoded_view(r) == spec_decode_record(msg@, pos as int),
            r matches Ok(p) ==> pos < p.1 <= msg@.len(),
    {
        match name::decode(msg, pos) {
            Ok((nm, e)) => {
                if msg.len() - e < 10 {
                    return Err(DnsError::TruncatedRecord);
                }
                let record_type = ((msg[e] as u16) << 8) | (msg[e + 1] as u16);
                let class = ((msg[e + 2] as u16) << 8) | (msg[e + 3] as u16);
                let ttl = ((msg[e + 4] as u32) << 24) | ((msg[e + 5] as u32) << 16) | ((msg[e + 6]
                    as u32) << 8) | (msg[e + 7] as u32);
                let length = ((msg[e + 8] as u16) << 8) | (msg[e + 9] as u16);
                if msg.len() - (e + 10) < length as usize {
                    return Err(DnsError::TruncatedRecord);
                }
                let data_start = e + 10;
                let data_end = data_start + length as usize;
                let mut data: Vec<u8> = Vec::new();
                let mut k: usize = data_start;
                proof {
                    assert(data@ =~= msg@.subrange(data_start as int, data_start as int));
                }
                while k < data_end
                    invariant
                        data_start <= k <= data_end,
                        data_end <= msg@.len(),
                        data@ == msg@.subrange(data_start as int, k as int),
                    decreases data_end - k,
                {
                    data.push(msg[k]);
                    k = k + 1;
                    proof {
                        assert(data@ =~= msg@.subrange(data_start as int, k as int));
                    }
                }
                Ok((DnsRecord { name: nm, record_type, class, ttl, length, data }, data_end))
            },
            Err(e) => Err(e),
        }
    }

    /// Decode `count` records in sequence, starting at `pos`.
    pub fn parse_request(msg: &Vec<u8>, pos: usize, count: u16) -> (r: Result<
        (Vec<DnsRecord>, usize),
        DnsError,
    >)
        requires
            pos <= msg@.len(),
        ensures
            records_decoded_view(r) == spec_decode_records(msg@, pos as int, count as int),
            r matches Ok(p) ==> pos <= p.1 <= msg@.len(),
    {
        let mut out: Vec<DnsRecord> = Vec::new();
        let mut cur: usize = pos;
        let mut i: u16 = 0;
        proof {
            assert(records_view(out) =~= Seq::<RecordModel>::empty());
            match spec_decode_records(msg@, pos as int, count as int) {
                Ok(p) => {
                    assert(records_view(out) + p.0 =~= p.0);
                },
                Err(_) => {},
            }
        }
        while i < count
            invariant
                0 <= i <= count,
                pos <= cur <= msg@.len(),
                (match spec_decode_records(msg@, cur as int, (count - i) as int) {
                    Ok(p) => spec_decode_records(msg@, pos as int, count as int) == Ok::<
                        (Seq<RecordModel>, int),
                        DnsError,
                    >((records_view(out) + p.0, p.1)),
                    Err(e) => spec_decode_records(msg@, pos as int, count as int) == Err::<
                        (Seq<RecordModel>, int),
                        DnsError,
                    >(e),
                }),
            decreases count - i,
        {
            match DnsRecord::from_bytes(msg, cur) {
                Ok((rec, e)) => {
                    let ghost out_snap = records_view(out);
                    let ghost rv = rec@;
                    proof {
                        match spec_decode_records(msg@, e as int, (count - i - 1) as int) {
                            Ok(p) => {
                                assert(out_snap + (seq![rv] + p.0) =~= out_snap.push(rv) + p.0);
                            },
                            Err(_) => {},
                        }
                    }
                    out.push(rec);
                    cur = e;
                    i = i + 1;
                    proof {
                        assert(records_view(out) =~= out_snap.push(rv));
                    }
                },
                Err(e) => {
                    return Err(e);
                },
            }
        }
        proof {
            assert(records_view(out) + Seq::<RecordModel>::empty() =~= records_view(out));
        }
        Ok((out, cur))
    }

    /// The answer a forwarded question gets: the first answer record of the
    /// upstream reply, or `UpstreamNoAnswer` when the reply carries none.
    pub fn first_answer(reply: &DnsPacket) -> (r: Result<DnsRecord, DnsError>)
        ensures
            reply@.answers.len() > 0 ==> (r matches Ok(rec) && rec@ == reply@.answers[0]),
            reply@.answers.len() == 0 ==> r == Err::<DnsRecord, DnsError>(
                DnsError::UpstreamNoAnswer,
            ),
    {
        if reply.answers.len() == 0 {
            Err(DnsError::UpstreamNoAnswer)
        } else {
            Ok(reply.answers[0].clone())
        }
    }

    /// One answer per request question, taken from the upstream replies in
    /// order; the whole response fails as soon as one reply has no answer.
    pub fn to_response(packet: &DnsPacket, replies: &Vec<DnsPacket>) -> (r: Result<
        Vec<DnsRecord>,
        DnsError,
    >)
        requires
            packet.header.question_count <= replies@.len(),
        ensures
            (r matches Ok(_)) <==> (forall|k: int|
                0 <= k < packet.header.question_count ==> packets_view(
                    *replies,
                )[k].answers.len() > 0),
            r matches Ok(v) ==> records_view(v).len() == packet.header.question_count && forall|
                k: int,
            |
                0 <= k < packet.header.question_count ==> records_view(v)[k] == packets_view(
                    *replies,
                )[k].answers[0],
            r matches Err(e) ==> e == DnsError::UpstreamNoAnswer,
    {
        let count = packet.header.question_count as usize;
        let mut out: Vec<DnsRecord> = Vec::new();
        let mut i: usize = 0;
        while i < count
            invariant
                i <= count,
                count == packet.header.question_count,
                count <= replies@.len(),
                records_view(out).len() == i,
                forall|k: int| 0 <= k < i ==> packets_view(*replies)[k].answers.len() > 0,
                forall|k: int|
                    0 <= k < i ==> records_view(out)[k] == packets_view(*replies)[k].answers[0],
            decreases count - i,
        {
            let ghost out_snap = records_view(out);
            proof {
                assert(packets_view(*replies)[i as int] == replies@[i as int]@);
            }
            match DnsRecord::first_answer(&replies[i]) {
                Ok(rec) => {
                    let ghost rv = rec@;
                    out.push(rec);
                    i = i + 1;
                    proof {
                        assert(records_view(out) =~= out_snap.push(rv));
                    }
                },
                Err(e) => {
                    proof {
                        assert(packets_view(*replies)[i as int].answers.len() == 0);
                        assert(!(forall|k: int|
                            0 <= k < packet.header.question_count ==> packets_view(
                                *replies,
                            )[k].answers.len() > 0));
                    }
                    return Err(e);
                },
            }
        }
        Ok(out)
    }
}

/// The wire bytes of several records, back to back.
pub open spec fn spec_encode_records(rs: Seq<RecordModel>) -> Result<Seq<u8>, DnsError>
    decreases rs.len(),
{
    if rs.len() == 0 {
        Ok(Seq::empty())
    } else {
        match spec_encode_record(rs[0]) {
            Ok(b) => match spec_encode_records(rs.drop_first()) {
                Ok(rest) => Ok(b + rest),
                Err(e) => Err(e),
            },
            Err(e) => Err(e),
        }
    }
}

/// A run of records whose names are all well formed has a wire encoding.
pub proof fn lemma_encode_records_ok(rs: Seq<RecordModel>)
    requires
        forall|k: int| 0 <= k < rs.len() ==> wf_name(#[trigger] rs[k].name),
    ensures
        spec_encode_records(rs) matches Ok(_),
    decreases rs.len(),
{
    if rs.len() > 0 {
        name::lemma_wf_name_encode_ok(rs[0].name);
        assert(forall|k: int|
            0 <= k < rs.drop_first().len() ==> wf_name(#[trigger] rs.drop_first()[k].name));
        lemma_encode_records_ok(rs.drop_first());
    }
}

/// Round trip for a whole record section: records with well-formed names
/// and matching declared lengths, encoded back to back anywhere in a
/// message, decode back to exactly the same records.
pub proof fn lemma_records_encode_decode(msg: Seq<u8>, pos: int, rs: Seq<RecordModel>)
    requires
        forall|k: int| 0 <= k < rs.len() ==> wf_name(#[trigger] rs[k].name),
        forall|k: int| 0 <= k < rs.len() ==> (#[trigger] rs[k]).wf(),
        0 <= pos,
        spec_encode_records(rs) matches Ok(enc) ==> pos + enc.len() <= msg.len() && msg.subrange(
            pos,
            pos + enc.len(),
        ) == enc,
    ensures
        spec_encode_records(rs) matches Ok(enc) && spec_decode_records(msg, pos, rs.len() as int)
            == Ok::<(Seq<RecordModel>, int), DnsError>((rs, pos + enc.len())),
    decreases rs.len(),
{
    lemma_encode_records_ok(rs);
    let enc = spec_encode_records(rs)->Ok_0;
    if rs.len() == 0 {
        assert(rs =~= Seq::<RecordModel>::empty());
    } else {
        name::lemma_wf_name_encode_ok(rs[0].name);
        let b = spec_encode_record(rs[0])->Ok_0;
        let rest_enc = spec_encode_records(rs.drop_first())->Ok_0;
        assert(enc == b + rest_enc);
        let win = msg.subrange(pos, pos + enc.len());
        let bl = b.len() as int;
        assert forall|k: int|
            0 <= k < bl implies #[trigger] msg.subrange(pos, pos + bl)[k] == b[k] by {
            assert(msg.subrange(pos, pos + bl)[k] == msg[pos + k]);
            assert(msg[pos + k] == win[k]);
            assert(win[k] == enc[k]);
            assert(enc[k] == b[k]);
        }
        assert(msg.subrange(pos, pos + bl) =~= b);
        lemma_record_round_trip(msg, pos, rs[0]);
        let pos2 = pos + bl;
        assert forall|k: int|
            0 <= k < rest_enc.len() implies #[trigger] msg.subrange(
                pos2,
                pos2 + rest_enc.len(),
            )[k] == rest_enc[k] by {
            assert(msg.subrange(pos2, pos2 + rest_enc.len())[k] == msg[pos2 + k]);
            assert(msg[pos2 + k] == win[bl + k]);
            assert(win[bl + k] == enc[bl + k]);
            assert(enc[bl + k] == rest_enc[k]);
        }
        assert(msg.subrange(pos2, pos2 + rest_enc.len()) =~= rest_enc);
        assert(forall|k: int|
            0 <= k < rs.drop_first().len() ==> wf_name(#[trigger] rs.drop_first()[k].name));
        assert(forall|k: int|
            0 <= k < rs.drop_first().len() ==> (#[trigger] rs.drop_first()[k]).wf());
        lemma_records_encode_decode(msg, pos2, rs.drop_first());
        assert(seq![rs[0]] + rs.drop_first() =~= rs);
    }
}

/// A successful multi-record decode yields exactly as many records as
/// asked for, each with a declared length matching its RDATA, and lands
/// within the buffer.
pub proof fn lemma_decode_records_props(msg: Seq<u8>, pos: int, n: int)
    requires
        spec_decode_records(msg, pos, n) matches Ok(_),
    ensures
        spec_decode_records(msg, pos, n) matches Ok((rs, e)) ==> rs.len() == (if n >= 0 {
            n
        } else {
            0
        }) && (n > 0 ==> pos < e <= msg.len()) && (forall|k: int|
            0 <= k < rs.len() ==> (#[trigger] rs[k]).wf()),
    decreases n,
{
    if n > 0 {
        match spec_decode_record(msg, pos) {
            Ok((r, e)) => {
                name::lemma_decode_name_bounds(msg, pos, msg.len());
                lemma_decode_records_props(msg, e, n - 1);
                let rest = spec_decode_records(msg, e, n - 1)->Ok_0.0;
                assert(forall|k: int|
                    0 <= k < rest.len() ==> (#[trigger] rest[k]).wf());
                let all = spec_decode_records(msg, pos, n)->Ok_0.0;
                assert(all == seq![r] + rest);
                assert(r.wf());
                assert forall|k: int| 0 <= k < all.len() implies (#[trigger] all[k]).wf() by {
                    if k == 0 {
                        assert(all[0] == r);
                    } else {
                        assert(all[k] == rest[k - 1]);
                    }
                }
            },
            Err(_) => {},
        }
    }
}

/// Serialize a run of records, back to back.
pub fn encode_records(rs: &Vec<DnsRecord>) -> (r: Result<Vec<u8>, DnsError>)
    ensures
        encoded_view(r) == spec_encode_records(records_view(*rs)),
{
    let ghost rv = records_view(*rs);
    let mut out: Vec<u8> = Vec::new();
    let mut i: usize = 0;
    proof {
        assert(rv.skip(0) =~= rv);
        match spec_encode_records(rv) {
            Ok(rest) => {
                assert(out@ + rest =~= rest);
            },
            Err(_) => {},
        }
    }
    while i < rs.len()
        invariant
            i <= rs@.len(),
            rv == records_view(*rs),
            (match spec_encode_records(rv.skip(i as int)) {
                Ok(rest) => spec_encode_records(rv) == Ok::<Seq<u8>, DnsError>(out@ + rest),
                Err(e) => spec_encode_records(rv) == Err::<Seq<u8>, DnsError>(e),
            }),
        decreases rs@.len() - i,
    {
        proof {
            assert(rv.skip(i as int)[0] == rv[i as int]);
            assert(rv.skip(i as int).drop_first() =~= rv.skip(i + 1));
        }
        match rs[i].encode() {
            Ok(b) => {
                proof {
                    match spec_encode_records(rv.skip(i + 1)) {
                        Ok(rest) => {
                            assert(out@ + (b@ + rest) =~= (out@ + b@) + rest);
                        },
                        Err(_) => {},
                    }
                }
                push_bytes(&mut out, &b);
                i = i + 1;
            },
            Err(e) => {
                return Err(e);
            },
        }
    }
    proof {
        assert(rv.skip(rv.len() as int) =~= Seq::<RecordModel>::empty());
        match spec_encode_records(rv.skip(rv.len() as int)) {
            Ok(rest) => {
                assert(out@ + rest =~= out@);
            },
            Err(_) => {},
        }
    }
    Ok(out)
}

/// Round trip at the record level: a record whose name is well formed and
/// whose declared length matches its RDATA encodes to bytes that decode
/// back to exactly the same record.
pub proof fn lemma_record_round_trip(msg: Seq<u8>, pos: int, r: RecordModel)
    requires
        wf_name(r.name),
        r.wf(),
        0 <= pos,
        spec_encode_record(r) matches Ok(enc) ==> pos + enc.len() <= msg.len() && msg.subrange(
            pos,
            pos + enc.len(),
        ) == enc,
    ensures
        spec_encode_record(r) matches Ok(enc) && spec_decode_record(msg, pos) == Ok::<
            (RecordModel, int),
            DnsError,
        >((r, pos + enc.len())),
{
    name::lemma_wf_name_encode_ok(r.name);
    let name_enc = spec_encode_name(r.name)->Ok_0;
    let enc = spec_encode_record(r)->Ok_0;
    assert(enc == name_enc + spec_u16_bytes(r.record_type) + spec_u16_bytes(r.class)
        + spec_u32_bytes(r.ttl) + spec_u16_bytes(r.length) + r.data);
    let win = msg.subrange(pos, pos + enc.len());
    let nl = name_enc.len() as int;
    assert forall|k: int|
        0 <= k < nl implies #[trigger] msg.subrange(pos, pos + nl)[k] == name_enc[k] by {
        assert(msg.subrange(pos, pos + nl)[k] == msg[pos + k]);
        assert(msg[pos + k] == win[k]);
        assert(win[k] == enc[k]);
        assert(enc[k] == name_enc[k]);
    }
    assert(msg.subrange(pos, pos + nl) =~= name_enc);
    name::lemma_name_round_trip(msg, pos, r.name, msg.len());
    let e = pos + nl;
    assert forall|k: int| 0 <= k < 10 + r.data.len() implies #[trigger] msg[e + k] == enc[nl
        + k] by {
        assert(msg[e + k] == win[nl + k]);
    }
    assert(enc[nl] == ((r.record_type >> 8) as u8));
    assert(enc[nl + 1] == ((r.record_type & 0xff) as u8));
    assert(enc[nl + 2] == ((r.class >> 8) as u8));
    assert(enc[nl + 3] == ((r.class & 0xff) as u8));
    assert(enc[nl + 4] == ((r.ttl >> 24) as u8));
    assert(enc[nl + 5] == (((r.ttl >> 16) & 0xff) as u8));
    assert(enc[nl + 6] == (((r.ttl >> 8) & 0xff) as u8));
    assert(enc[nl + 7] == (((r.ttl & 0xff)) as u8));
    assert(enc[nl + 8] == ((r.length >> 8) as u8));
    assert(enc[nl + 9] == ((r.length & 0xff) as u8));
    lemma_be16_split(r.record_type);
    lemma_be16_split(r.class);
    lemma_be16_split(r.length);
    lemma_be32_split(r.ttl);
    assert(spec_be16(msg, e) == r.record_type);
    assert(spec_be16(msg, e + 2) == r.class);
    assert(spec_be32(msg, e + 4) == r.ttl);
    assert(spec_be16(msg, e + 8) == r.length);
    assert(e + 10 + r.length == pos + enc.len());
    assert forall|k: int|
        0 <= k < r.data.len() implies #[trigger] msg.subrange(e + 10, e + 10 + r.length as int)[k]
            == r.data[k] by {
        assert(msg.subrange(e + 10, e + 10 + r.length as int)[k] == msg[e + 10 + k]);
        assert(msg[e + 10 + k] == enc[nl + 10 + k]);
        assert(enc[nl + 10 + k] == r.data[k]);
    }
    assert(msg.subrange(e + 10, e + 10 + r.length as int) =~= r.data);
}

} // verus!
