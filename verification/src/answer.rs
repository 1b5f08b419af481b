//! A synthetic answer section built from a single record.

use vstd::prelude::*;

use crate::error::DnsError;
use crate::name::encoded_view;
use crate::record::{
    records_view, spec_encode_records, DnsRecord, RecordModel,
};
use crate::util::clone_bytes;

verus! {

/// A stand-alone answer section: the records it will serialize.
#[derive(Debug, PartialEq, Eq)]
pub struct DnsAnswer {
    records: Vec<Record>,
}

/// One synthetic resource record, shaped exactly like a decoded one.
#[derive(Debug, PartialEq, Eq)]
pub struct Record {
    pub name: Vec<u8>,
    pub record_type: u16,
    pub class: u16,
    pub ttl: u32,
    pub length: u16,
    pub data: Vec<u8>,
}

impl View for Record {
    type V = RecordModel;

    open spec fn view(&self) -> RecordModel {
        RecordModel {
            name: self.name@,
            record_type: self.record_type,
            class: self.class,
            ttl: self.ttl,
            length: self.length,
            data: self.data@,
        }
    }
}

impl Clone for Record {
    fn clone(&self) -> (r: Self)
        ensures
            r@ == self@,
    {
        Record {
            name: clone_bytes(&self.name),
            record_type: self.record_type,
            class: self.class,
            ttl: self.ttl,
            length: self.length,
            data: clone_bytes(&self.data),
        }
    }
}

impl View for DnsAnswer {
    type V = Seq<RecordModel>;

    closed spec fn view(&self) -> Seq<RecordModel> {
        self.records@.map_values(|r: Record| r@)
    }
}

impl Clone for DnsAnswer {
    fn clone(&self) -> (r: Self)
        ensures
            r@ == self@,
    {
        let mut records: Vec<Record> = Vec::new();
        let mut i: usize = 0;
        proof {
            assert(records@.map_values(|r: Record| r@) =~= self@.take(0));
        }
        while i < self.records.len()
            invariant
                i <= self.records@.len(),
                records@.map_values(|r: Record| r@) == self@.take(i as int),
            decreases self.records@.len() - i,
        {
            let ghost prev = records@.map_values(|r: Record| r@);
            let rec = self.records[i].clone();
            let ghost rv = rec@;
            records.push(rec);
            i = i + 1;
            proof {
                assert(records@.map_values(|r: Record| r@) =~= prev.push(rv));
                assert(prev.push(rv) =~= self@.take(i as int));
            }
        }
        proof {
            assert(self@.take(self.records@.len() as int) =~= self@);
        }
        DnsAnswer { records }
    }
}

impl DnsAnswer {
    /// An answer section holding just the given record.
    pub fn new(record: Record) -> (r: Self)
        ensures
            r@ == seq![record@],
    {
        let ghost rv = record@;
        let mut records: Vec<Record> = Vec::new();
        records.push(Record {
            name: record.name,
            record_type: record.record_type,
            class: record.class,
            ttl: record.ttl,
            length: record.length,
            data: record.data,
        });
        let answer = DnsAnswer { records };
        proof {
            assert(answer@ =~= seq![rv]);
        }
        answer
    }

    /// Serialize the records of this answer section, back to back.
    pub fn encode(&self) -> (r: Result<Vec<u8>, DnsError>)
        ensures
            encoded_view(r) == spec_encode_records(self@),
    {
        let mut out: Vec<DnsRecord> = Vec::new();
        let mut i: usize = 0;
        proof {
            assert(records_view(out) =~= self@.take(0));
        }
        while i < self.records.len()
            invariant
                i <= self.records@.len(),
                records_view(out) == self@.take(i as int),
            decreases self.records@.len() - i,
        {
            let ghost prev = records_view(out);
            let rec = &self.records[i];
            let ghost rv = rec@;
            out.push(DnsRecord {
                name: clone_bytes(&rec.name),
                record_type: rec.record_type,
                class: rec.class,
                ttl: rec.ttl,
                length: rec.length,
                data: clone_bytes(&rec.data),
            });
            i = i + 1;
            proof {
                assert(records_view(out) =~= prev.push(rv));
                assert(prev.push(rv) =~= self@.take(i as int));
            }
        }
        proof {
            assert(self@.take(self.records@.len() as int) =~= self@);
        }
        crate::record::encode_records(&out)
    }
}

} // verus!
