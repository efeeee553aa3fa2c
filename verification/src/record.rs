use vstd::prelude::*;

use crate::crypto::sha256;
use crate::crypto::sha256_of;
use crate::util::extend_bytes;
use crate::util::spec_u64_to_be_bytes;
use crate::util::u64_to_be_bytes;

verus! {

/// The mathematical content of a record: its fields as sequences and numbers.
pub struct RecordData {
    pub key: Seq<u8>,
    pub value: Seq<u8>,
    pub timestamp: u64,
    pub sequence_number: u64,
    pub hash: Seq<u8>,
}

/// A committed key-value pair. The hash binds the key, value, timestamp and
/// sequence number together; records are immutable once created.
#[derive(Clone, Debug)]
pub struct Record {
    pub key: Vec<u8>,
    pub value: Vec<u8>,
    pub timestamp: u64,
    pub sequence_number: u64,
    pub hash: Vec<u8>,
}

impl View for Record {
    type V = RecordData;

    open spec fn view(&self) -> RecordData {
        RecordData {
            key: self.key@,
            value: self.value@,
            timestamp: self.timestamp,
            sequence_number: self.sequence_number,
            hash: self.hash@,
        }
    }
}

/// The bytes over which a record's hash is computed: key, value, and the
/// big-endian timestamp and sequence number.
pub open spec fn spec_hash_input(key: Seq<u8>, value: Seq<u8>, timestamp: u64, sequence_number: u64) -> Seq<u8> {
    key + value + spec_u64_to_be_bytes(timestamp) + spec_u64_to_be_bytes(sequence_number)
}

/// The content hash of a record: SHA-256 over the hash input.
pub open spec fn spec_record_hash(key: Seq<u8>, value: Seq<u8>, timestamp: u64, sequence_number: u64) -> Seq<u8> {
    sha256_of(spec_hash_input(key, value, timestamp, sequence_number))
}

/// A record is well-formed when its stored hash is the content hash of its
/// other fields.
pub open spec fn record_wf(r: RecordData) -> bool {
    r.hash == spec_record_hash(r.key, r.value, r.timestamp, r.sequence_number)
}

impl Record {
    /// Builds the record for `key` and `value` at the given timestamp and
    /// sequence number, computing its content hash.
    pub fn new(key: Vec<u8>, value: Vec<u8>, timestamp: u64, sequence_number: u64) -> (r: Record)
        ensures
            r@.key == key@,
            r@.value == value@,
            r@.timestamp == timestamp,
            r@.sequence_number == sequence_number,
            record_wf(r@),
    {
        let mut input: Vec<u8> = Vec::new();
        extend_bytes(&mut input, key.as_slice());
        extend_bytes(&mut input, value.as_slice());
        let ts_bytes = u64_to_be_bytes(timestamp);
        extend_bytes(&mut input, ts_bytes.as_slice());
        let seq_bytes = u64_to_be_bytes(sequence_number);
        extend_bytes(&mut input, seq_bytes.as_slice());
        proof {
            assert(input@ =~= spec_hash_input(key@, value@, timestamp, sequence_number));
        }
        let hash = sha256(input.as_slice());
        Record { key, value, timestamp, sequence_number, hash }
    }
}

} // verus!
