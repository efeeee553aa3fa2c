use vstd::prelude::*;

use crate::blockchain::BlockChain;
use crate::blockchain::spec_chain_valid;
use crate::compaction::level_contents;
use crate::crypto::now_millis;
use crate::error::BlockDBError;
use crate::memtable::MemTable;
use crate::memtable::duplicate_record;
use crate::memtable::records_as_map;
use crate::record::Record;
use crate::record::RecordData;
use crate::record::record_wf;
use crate::sstable::SSTable;

verus! {

broadcast use vstd::seq_lib::group_seq_properties;

/// The modeled write-ahead log: the ordered stream of durably framed
/// records. Reading and writing the backing file is the caller's business;
/// the order here is the authoritative linearisation of writes.
#[derive(Debug)]
pub struct WriteAheadLog {
    records: Vec<Record>,
}

impl View for WriteAheadLog {
    type V = Seq<RecordData>;

    closed spec fn view(&self) -> Seq<RecordData> {
        self.records@.map(|i: int, r: Record| r@)
    }
}

impl WriteAheadLog {
    /// An empty log.
    pub fn new() -> (r: Self)
        ensures
            r@ == Seq::<RecordData>::empty(),
    {
        let r = WriteAheadLog { records: Vec::new() };
        proof {
            assert(r@ =~= Seq::<RecordData>::empty());
        }
        r
    }

    /// Appends one record at the end of the log.
    pub fn append(&mut self, record: Record)
        ensures
            final(self)@ == old(self)@.push(record@),
    {
        self.records.push(record);
        proof {
            assert(self@ =~= old(self)@.push(record@));
        }
    }

    /// Replays the whole log in order.
    pub fn recover(&self) -> (r: Vec<Record>)
        ensures
            r@.map(|i: int, rec: Record| rec@) == self@,
    {
        let mut r: Vec<Record> = Vec::new();
        let mut i: usize = 0;
        while i < self.records.len()
            invariant
                0 <= i <= self.records@.len(),
                r@.map(|j: int, rec: Record| rec@) == self@.take(i as int),
            decreases self.records@.len() - i,
        {
            let ghost prev = r@;
            r.push(duplicate_record(&self.records[i]));
            proof {
                let f = |j: int, rec: Record| rec@;
                assert(r@.map(f) =~= prev.map(f).push(self@[i as int]));
                assert(self@.take(i as int).push(self@[i as int]) =~= self@.take(i as int + 1));
            }
            i += 1;
        }
        proof {
            assert(self@.take(self@.len() as int) =~= self@);
        }
        r
    }

    /// Truncates the log to nothing.
    pub fn clear(&mut self)
        ensures
            final(self)@ == Seq::<RecordData>::empty(),
    {
        self.records.clear();
        proof {
            assert(self@ =~= Seq::<RecordData>::empty());
        }
    }
}

/// The engine's configuration.
#[derive(Clone, Debug)]
pub struct BlockDBConfig {
    pub data_dir: String,
    pub memtable_size_limit: usize,
    pub wal_sync_interval_ms: u64,
    pub compaction_threshold: usize,
    pub blockchain_batch_size: usize,
    pub auth_enabled: bool,
    pub session_duration_hours: u64,
    pub password_min_length: usize,
    pub max_failed_attempts: u32,
    pub account_lockout_duration_minutes: u64,
}

impl Default for BlockDBConfig {
    /// The stock configuration: a 64 MiB memtable, one-second sync cadence,
    /// four files per level, a thousand records per block, and authentication
    /// enabled.
    fn default() -> (r: Self)
        ensures
            r.memtable_size_limit == 67108864,
            r.wal_sync_interval_ms == 1000,
            r.compaction_threshold == 4,
            r.blockchain_batch_size == 1000,
            r.auth_enabled == true,
            r.session_duration_hours == 24,
            r.password_min_length == 8,
            r.max_failed_attempts == 5,
            r.account_lockout_duration_minutes == 30,
    {
        BlockDBConfig {
            data_dir: "./blockdb_data".to_owned(),
            memtable_size_limit: 67108864,
            wal_sync_interval_ms: 1000,
            compaction_threshold: 4,
            blockchain_batch_size: 1000,
            auth_enabled: true,
            session_duration_hours: 24,
            password_min_length: 8,
            max_failed_attempts: 5,
            account_lockout_duration_minutes: 30,
        }
    }
}

/// The append-only storage engine: WAL, memtable, sorted runs, ledger and
/// the sequence counter, owned together.
#[derive(Debug)]
pub struct BlockDB {
    config: BlockDBConfig,
    memtable: MemTable,
    wal: WriteAheadLog,
    sstables: Vec<SSTable>,
    blockchain: BlockChain,
    sequence_counter: u64,
}

impl BlockDB {
    /// The committed key-value state: sorted runs oldest first, a newer run
    /// winning, and the memtable newest of all.
    pub closed spec fn contents(&self) -> Map<Seq<u8>, RecordData> {
        level_contents(self.sstables@.map(|i: int, t: SSTable| t@)).union_prefer_right(
            records_as_map(self.memtable@),
        )
    }

    /// The modeled WAL stream.
    pub closed spec fn wal_view(&self) -> Seq<RecordData> {
        self.wal@
    }

    /// The sequence counter.
    pub closed spec fn seq_counter(&self) -> u64 {
        self.sequence_counter
    }

    /// The ledger's sealed blocks.
    pub closed spec fn chain_blocks(&self) -> Seq<crate::blockchain::BlockData> {
        self.blockchain@.blocks
    }

    /// The ledger's pending queue.
    pub closed spec fn chain_pending(&self) -> Seq<RecordData> {
        self.blockchain@.pending
    }

    /// How many records the memtable holds.
    pub closed spec fn memtable_len(&self) -> nat {
        self.memtable@.len()
    }

    /// How many sorted runs the engine holds.
    pub closed spec fn run_count(&self) -> nat {
        self.sstables@.len()
    }

    /// What every reachable engine state satisfies: components well-formed,
    /// the WAL carrying exactly the committed state with unique keys, every
    /// record hashed correctly, and sequence numbers positive, unique,
    /// strictly increasing in WAL order and no larger than the counter.
    pub closed spec fn wf(&self) -> bool {
        &&& self.memtable.wf()
        &&& forall|i: int| 0 <= i < self.sstables@.len() ==> (#[trigger] self.sstables@[i]).wf()
        &&& self.blockchain.wf()
        &&& self.contents() == records_as_map(self.wal@)
        &&& forall|i: int, j: int|
            0 <= i < j < self.wal@.len() ==> (#[trigger] self.wal@[i]).sequence_number < (
            #[trigger] self.wal@[j]).sequence_number
        &&& forall|i: int|
            0 <= i < self.wal@.len() ==> 1 <= (#[trigger] self.wal@[i]).sequence_number
                <= self.sequence_counter
        &&& forall|i: int, j: int|
            0 <= i < j < self.wal@.len() ==> (#[trigger] self.wal@[i]).key != (
            #[trigger] self.wal@[j]).key
        &&& forall|i: int| 0 <= i < self.wal@.len() ==> record_wf(#[trigger] self.wal@[i])
    }

    /// Opens a fresh, empty engine.
    pub fn new(config: BlockDBConfig) -> (r: Result<BlockDB, BlockDBError>)
        requires
            config.blockchain_batch_size >= 1,
        ensures
            r is Ok,
            r matches Ok(db) ==> {
                &&& db.wf()
                &&& db.contents() == Map::<Seq<u8>, RecordData>::empty()
                &&& db.wal_view().len() == 0
                &&& db.seq_counter() == 0
                &&& db.chain_blocks().len() == 1
                &&& db.chain_pending().len() == 0
                &&& db.run_count() == 0
            },
    {
        let mut blockchain = BlockChain::new(config.data_dir.as_str());
        blockchain.set_batch_size(config.blockchain_batch_size);
        let db = BlockDB {
            config,
            memtable: MemTable::new(),
            wal: WriteAheadLog::new(),
            sstables: Vec::new(),
            blockchain,
            sequence_counter: 0,
        };
        proof {
            assert(db.sstables@.map(|i: int, t: SSTable| t@) =~= Seq::<Seq<RecordData>>::empty());
            assert(db.contents() =~= Map::<Seq<u8>, RecordData>::empty());
            assert(records_as_map(db.wal@) =~= Map::<Seq<u8>, RecordData>::empty());
        }
        Ok(db)
    }

    /// Reopens an engine from a previously persisted WAL stream: the committed
    /// state is exactly the keyed view of the stream, and the sequence counter
    /// resumes past every replayed record. A stream that is not a genuine WAL
    /// (sequence numbers not strictly increasing from at least one, a repeated
    /// key, or a record whose stored hash is not its content hash) is refused
    /// with `InvalidData`.
    pub fn open_with_wal(config: BlockDBConfig, records: Vec<Record>) -> (r: Result<
        BlockDB,
        BlockDBError,
    >)
        requires
            config.blockchain_batch_size >= 1,
        ensures
            r is Ok <==> {
                &&& forall|i: int, j: int|
                    0 <= i < j < records@.len() ==> (#[trigger] records@[i]@).sequence_number < (
                    #[trigger] records@[j]@).sequence_number
                &&& forall|i: int, j: int|
                    0 <= i < j < records@.len() ==> (#[trigger] records@[i]@).key != (
                    #[trigger] records@[j]@).key
                &&& forall|i: int| 0 <= i < records@.len() ==> record_wf((#[trigger] records@[i])@)
                &&& forall|i: int|
                    0 <= i < records@.len() ==> (#[trigger] records@[i]@).sequence_number >= 1
            },
            r matches Ok(db) ==> {
                &&& db.wf()
                &&& db.wal_view() == records@.map(|i: int, rec: Record| rec@)
                &&& db.contents() == records_as_map(records@.map(|i: int, rec: Record| rec@))
                &&& records@.len() > 0 ==> db.seq_counter() == records@[records@.len()
                    - 1]@.sequence_number
                &&& records@.len() == 0 ==> db.seq_counter() == 0
            },
    {
        let db_result = BlockDB::new(config);
        let mut db = match db_result {
            Ok(db) => db,
            Err(e) => {
                proof {
                    assert(false);
                }
                return Err(e);
            },
        };
        let ghost rv = records@.map(|i: int, rec: Record| rec@);
        proof {
            assert(db.wal@ =~= rv.take(0));
            assert(records_as_map(rv.take(0)) =~= Map::<Seq<u8>, RecordData>::empty());
        }
        let mut i: usize = 0;
        while i < records.len()
            invariant
                db.wf(),
                db.sstables@.len() == 0,
                rv == records@.map(|k: int, rec: Record| rec@),
                0 <= i <= records@.len(),
                db.wal@ == rv.take(i as int),
                db.contents() == records_as_map(rv.take(i as int)),
                i > 0 ==> db.sequence_counter == rv[i as int - 1].sequence_number,
                i == 0 ==> db.sequence_counter == 0,
                forall|a: int, b: int|
                    0 <= a < b < i ==> (#[trigger] rv[a]).sequence_number < (
                    #[trigger] rv[b]).sequence_number,
                forall|a: int, b: int|
                    0 <= a < b < i ==> (#[trigger] rv[a]).key != (#[trigger] rv[b]).key,
                forall|a: int| 0 <= a < i ==> record_wf(#[trigger] rv[a]),
                forall|a: int| 0 <= a < i ==> (#[trigger] rv[a]).sequence_number >= 1,
            decreases records@.len() - i,
        {
            let rec = duplicate_record(&records[i]);
            proof {
                assert(rec@ == rv[i as int]);
            }
            if rec.sequence_number <= db.sequence_counter {
                proof {
                    assert(records@[i as int]@ == rv[i as int]);
                    if i > 0 {
                        assert(records@[i as int - 1]@ == rv[i as int - 1]);
                        assert(rv[i as int - 1].sequence_number >= rv[i as int].sequence_number);
                    } else {
                        assert(rv[i as int].sequence_number < 1);
                    }
                }
                return Err(BlockDBError::InvalidData("sequence numbers out of order".to_owned()));
            }
            if db.key_exists(rec.key.as_slice()) {
                proof {
                    assert(rec.key@ == rv[i as int].key);
                    let m = records_as_map(rv.take(i as int));
                    assert(m.contains_key(rv[i as int].key));
                    let w = choose|w: int|
                        0 <= w < rv.take(i as int).len() && rv.take(i as int)[w].key == rv[
                        i as int].key;
                    assert(rv[w].key == rv[i as int].key);
                    assert(records@[w]@ == rv[w]);
                    assert(records@[i as int]@ == rv[i as int]);
                }
                return Err(BlockDBError::InvalidData("repeated key in log".to_owned()));
            }
            proof {
                assert(rec.key@ == rv[i as int].key);
                assert(!records_as_map(rv.take(i as int)).contains_key(rv[i as int].key));
            }
            let expected = Record::new(
                rec.key.clone(),
                rec.value.clone(),
                rec.timestamp,
                rec.sequence_number,
            );
            if !crate::util::bytes_eq(rec.hash.as_slice(), expected.hash.as_slice()) {
                proof {
                    assert(rec.key@ =~= rv[i as int].key);
                    assert(rec.value@ =~= rv[i as int].value);
                    assert(!record_wf(rv[i as int]));
                    assert(records@[i as int]@ == rv[i as int]);
                }
                return Err(BlockDBError::InvalidData("record hash mismatch".to_owned()));
            }
            proof {
                assert(rec.key@ =~= rv[i as int].key);
                assert(rec.value@ =~= rv[i as int].value);
                assert(record_wf(rv[i as int]));
            }
            let seq = rec.sequence_number;
            db.sequence_counter = seq;
            let ghost pre_wal = db.wal@;
            db.wal.append(duplicate_record(&rec));
            db.memtable.insert(rec);
            proof {
                assert(pre_wal =~= rv.take(i as int));
                assert(db.wal@ =~= rv.take(i as int + 1)) by {
                    assert(rv.take(i as int).push(rv[i as int]) =~= rv.take(i as int + 1));
                }
                assert forall|a: int| 0 <= a < i implies (#[trigger] rv[a]).key != rv[
                    i as int].key by {
                    if rv[a].key == rv[i as int].key {
                        assert(rv.take(i as int)[a].key == rv[i as int].key);
                        assert(records_as_map(rv.take(i as int)).contains_key(rv[i as int].key));
                    }
                }
                lemma_wal_push_map(rv.take(i as int), rv[i as int]);
                assert(db.contents() =~= records_as_map(rv.take(i as int)).insert(
                    rv[i as int].key,
                    rv[i as int],
                ));
                assert(db.contents() == records_as_map(db.wal@));
                assert forall|a: int, b: int| 0 <= a < b < db.wal@.len() implies (
                #[trigger] db.wal@[a]).sequence_number < (#[trigger] db.wal@[b]).sequence_number
                    by {
                    if b < db.wal@.len() - 1 {
                        assert(rv[a].sequence_number < rv[b].sequence_number);
                    } else {
                        assert(db.wal@[b] == rv[i as int]);
                    }
                }
            }
            i += 1;
        }
        proof {
            assert(rv.take(rv.len() as int) =~= rv);
            assert forall|a: int| 0 <= a < records@.len() implies (#[trigger] records@[a])@ == rv[
                a] by {}
        }
        Ok(db)
    }

    /// Replays the WAL into the memtable and restores the sequence counter
    /// to the highest replayed sequence number. On a well-formed engine every
    /// WAL record is already present, so the committed state is unchanged.
    pub fn recover_from_wal(&mut self)
        requires
            old(self).wf(),
        ensures
            final(self).wf(),
            final(self).contents() == old(self).contents(),
            final(self).wal_view() == old(self).wal_view(),
            final(self).chain_blocks() == old(self).chain_blocks(),
            old(self).wal_view().len() > 0 ==> final(self).seq_counter() == old(self).wal_view().last().sequence_number,
            old(self).wal_view().len() == 0 ==> final(self).seq_counter() == old(self).seq_counter(),
    {
        let records = self.wal.recover();
        let mut max_sequence: u64 = 0;
        let mut i: usize = 0;
        while i < records.len()
            invariant
                self.wf(),
                self.wal@ == old(self).wal@,
                self.sequence_counter == old(self).sequence_counter,
                self.blockchain == old(self).blockchain,
                self.sstables == old(self).sstables,
                self.contents() == old(self).contents(),
                records@.map(|j: int, rec: Record| rec@) == self.wal@,
                0 <= i <= records@.len(),
                i > 0 ==> max_sequence == self.wal@[i as int - 1].sequence_number,
                i == 0 ==> max_sequence == 0,
            decreases records@.len() - i,
        {
            let seq = records[i].sequence_number;
            proof {
                assert(records@.map(|j: int, rec: Record| rec@)[i as int] == self.wal@[i as int]);
            }
            if seq > max_sequence {
                max_sequence = seq;
            }
            proof {
                if i > 0 {
                    assert(self.wal@[i as int - 1].sequence_number < self.wal@[
                        i as int].sequence_number);
                }
            }
            let rec = duplicate_record(&records[i]);
            let ghost pre_mt = self.memtable.as_map();
            self.memtable.insert(rec);
            proof {
                assert(records_as_map(self.wal@).contains_key(self.wal@[i as int].key));
                lemma_wal_lookup(self.wal@, i as int);
                assert(old(self).contents().contains_key(self.wal@[i as int].key));
                assert(old(self).contents()[self.wal@[i as int].key] == self.wal@[i as int]);
                assert(self.contents() =~= old(self).contents());
            }
            i += 1;
        }
        if records.len() > 0 {
            self.sequence_counter = max_sequence;
            proof {
                assert(self.wal@.len() > 0);
                assert(max_sequence == self.wal@[self.wal@.len() - 1].sequence_number);
                assert forall|j: int| 0 <= j < self.wal@.len() implies 1 <= (
                #[trigger] self.wal@[j]).sequence_number <= self.sequence_counter by {
                    if j < self.wal@.len() - 1 {
                        assert(self.wal@[j].sequence_number < self.wal@[self.wal@.len()
                            - 1].sequence_number);
                    }
                }
            }
        }
    }

    /// Whether a key is already committed, in the memtable or any run.
    pub fn key_exists(&self, key: &[u8]) -> (r: bool)
        requires
            self.wf(),
        ensures
            r == self.contents().contains_key(key@),
    {
        match self.get_record(key) {
            Some(_) => true,
            None => false,
        }
    }

    /// Looks a committed record up: the memtable first, then the runs from
    /// newest to oldest.
    fn get_record(&self, key: &[u8]) -> (r: Option<&Record>)
        requires
            self.wf(),
        ensures
            r is Some <==> self.contents().contains_key(key@),
            r is Some ==> r->0@ == self.contents()[key@],
    {
        let ghost ts = self.sstables@.map(|i: int, t: SSTable| t@);
        if let Some(rec) = self.memtable.get(key) {
            return Some(rec);
        }
        let mut j: usize = self.sstables.len();
        while j > 0
            invariant
                self.wf(),
                ts == self.sstables@.map(|i: int, t: SSTable| t@),
                0 <= j <= self.sstables@.len(),
                !records_as_map(self.memtable@).contains_key(key@),
                forall|l: int|
                    j <= l < ts.len() ==> !records_as_map(#[trigger] ts[l]).contains_key(key@),
            decreases j,
        {
            j -= 1;
            if let Some(rec) = self.sstables[j].get(key) {
                proof {
                    lemma_lc_found(ts, j as int, key@);
                }
                return Some(rec);
            }
        }
        proof {
            lemma_lc_missing(ts, key@);
        }
        None
    }

    /// Reads the committed value for a key, newest first.
    pub fn get(&self, key: &[u8]) -> (r: Result<Option<Vec<u8>>, BlockDBError>)
        requires
            self.wf(),
        ensures
            r is Ok,
            r matches Ok(v) ==> {
                &&& v is Some <==> self.contents().contains_key(key@)
                &&& v is Some ==> v->0@ == self.contents()[key@].value
            },
    {
        match self.get_record(key) {
            Some(rec) => {
                let value = rec.value.clone();
                proof {
                    assert(value@ =~= self.contents()[key@].value);
                }
                Ok(Some(value))
            },
            None => Ok(None),
        }
    }

    /// Writes a new key. An existing key is refused with `DuplicateKey` and
    /// nothing changes; otherwise the record is built at the given timestamp
    /// with the next sequence number, logged in the WAL, placed in the
    /// memtable (flushed to a run when over the size limit) and queued for
    /// the ledger.
    pub fn put_with_timestamp(&mut self, key: &[u8], value: &[u8], timestamp: u64) -> (r: Result<
        (),
        BlockDBError,
    >)
        requires
            old(self).wf(),
        ensures
            final(self).wf(),
            r is Ok <==> !old(self).contents().contains_key(key@) && old(self).seq_counter()
                < u64::MAX,
            r is Err ==> *final(self) == *old(self),
            old(self).contents().contains_key(key@) ==> r matches Err(BlockDBError::DuplicateKey(
                _,
            )),
            r is Ok ==> {
                &&& final(self).seq_counter() == old(self).seq_counter() + 1
                &&& final(self).contents() == old(self).contents().insert(
                    key@,
                    RecordData {
                        key: key@,
                        value: value@,
                        timestamp,
                        sequence_number: (old(self).seq_counter() + 1) as u64,
                        hash: crate::record::spec_record_hash(
                            key@,
                            value@,
                            timestamp,
                            (old(self).seq_counter() + 1) as u64,
                        ),
                    },
                )
                &&& final(self).wal_view() == old(self).wal_view().push(
                    final(self).contents()[key@],
                )
            },
    {
        if self.key_exists(key) {
            return Err(BlockDBError::DuplicateKey("key already exists".to_owned()));
        }
        if self.sequence_counter == u64::MAX {
            return Err(BlockDBError::StorageError("sequence counter exhausted".to_owned()));
        }
        self.sequence_counter = self.sequence_counter + 1;
        let sequence_number = self.sequence_counter;
        let mut key_vec: Vec<u8> = Vec::new();
        crate::util::extend_bytes(&mut key_vec, key);
        let mut value_vec: Vec<u8> = Vec::new();
        crate::util::extend_bytes(&mut value_vec, value);
        let record = Record::new(key_vec, value_vec, timestamp, sequence_number);
        let ghost rd = record@;
        let ghost pre = *old(self);
        self.wal.append(duplicate_record(&record));
        self.memtable.insert(duplicate_record(&record));
        proof {
            assert(self.contents() =~= pre.contents().insert(key@, rd));
            assert(records_as_map(self.wal@) =~= records_as_map(pre.wal@).insert(key@, rd)) by {
                lemma_wal_push_map(pre.wal@, rd);
            }
            assert forall|i: int, j: int| 0 <= i < j < self.wal@.len() implies (
            #[trigger] self.wal@[i]).sequence_number < (#[trigger] self.wal@[j]).sequence_number
                by {
                if j < self.wal@.len() - 1 {
                    assert(pre.wal@[i].sequence_number < pre.wal@[j].sequence_number);
                }
            }
            assert forall|i: int, j: int| 0 <= i < j < self.wal@.len() implies (
            #[trigger] self.wal@[i]).key != (#[trigger] self.wal@[j]).key by {
                if j == self.wal@.len() - 1 {
                    assert(records_as_map(pre.wal@).contains_key(pre.wal@[i].key));
                    assert(pre.contents().contains_key(pre.wal@[i].key));
                }
            }
        }
        if self.memtable.size() > self.config.memtable_size_limit {
            self.flush_memtable();
        }
        self.blockchain.add_record(record);
        Ok(())
    }

    /// Writes a new key, stamped with the current clock time.
    pub fn put(&mut self, key: &[u8], value: &[u8]) -> (r: Result<(), BlockDBError>)
        requires
            old(self).wf(),
        ensures
            final(self).wf(),
            r is Ok <==> !old(self).contents().contains_key(key@) && old(self).seq_counter()
                < u64::MAX,
            r is Err ==> *final(self) == *old(self),
            old(self).contents().contains_key(key@) ==> r matches Err(BlockDBError::DuplicateKey(
                _,
            )),
            r is Ok ==> {
                &&& final(self).seq_counter() == old(self).seq_counter() + 1
                &&& final(self).contents().contains_key(key@)
                &&& final(self).contents()[key@].value == value@
                &&& final(self).contents()[key@].key == key@
                &&& final(self).contents()[key@].sequence_number == old(self).seq_counter() + 1
                &&& forall|k: Seq<u8>|
                    k != key@ ==> final(self).contents().contains_key(k) == old(self).contents().contains_key(k)
                &&& forall|k: Seq<u8>|
                    k != key@ && old(self).contents().contains_key(k) ==> final(self).contents()[k] == old(self).contents()[k]
                &&& final(self).wal_view().len() == old(self).wal_view().len() + 1
            },
    {
        let timestamp = now_millis();
        let r = self.put_with_timestamp(key, value, timestamp);
        r
    }

    /// Moves the whole memtable into a new, newest sorted run. The committed
    /// state is unchanged.
    pub fn flush_memtable(&mut self)
        requires
            old(self).wf(),
        ensures
            final(self).wf(),
            final(self).contents() == old(self).contents(),
            final(self).wal_view() == old(self).wal_view(),
            final(self).seq_counter() == old(self).seq_counter(),
            final(self).chain_blocks() == old(self).chain_blocks(),
            final(self).memtable_len() == 0,
            final(self).run_count() == old(self).run_count() + 1,
    {
        let ghost pre = *old(self);
        let file_id = now_millis();
        let sstable = SSTable::create_from_memtable(file_id, &self.memtable);
        self.memtable.clear();
        self.sstables.push(sstable);
        proof {
            let ts_pre = pre.sstables@.map(|i: int, t: SSTable| t@);
            let ts_post = self.sstables@.map(|i: int, t: SSTable| t@);
            assert(ts_post =~= ts_pre.push(pre.memtable@));
            assert(ts_post.drop_last() =~= ts_pre);
            assert(level_contents(ts_post) == level_contents(ts_pre).union_prefer_right(
                records_as_map(pre.memtable@),
            ));
            assert(records_as_map(self.memtable@) =~= Map::<Seq<u8>, RecordData>::empty());
            assert(self.contents() =~= pre.contents());
        }
    }

    /// Flushes the memtable to a run if it holds anything.
    pub fn force_flush_memtable(&mut self)
        requires
            old(self).wf(),
        ensures
            final(self).wf(),
            final(self).contents() == old(self).contents(),
            final(self).wal_view() == old(self).wal_view(),
            final(self).seq_counter() == old(self).seq_counter(),
            final(self).chain_blocks() == old(self).chain_blocks(),
            old(self).memtable_len() > 0 ==> final(self).memtable_len() == 0 && final(self).run_count() == old(self).run_count() + 1,
            old(self).memtable_len() == 0 ==> *final(self) == *old(self),
    {
        if !self.memtable.is_empty() {
            self.flush_memtable();
        }
    }

    /// Whether every ledger block validates and the links are intact. On a
    /// well-formed engine this always holds.
    pub fn verify_integrity(&self) -> (r: Result<bool, BlockDBError>)
        requires
            self.wf(),
        ensures
            r is Ok,
            r matches Ok(b) ==> b == spec_chain_valid(self.chain_blocks()),
            r matches Ok(b) ==> b == true,
    {
        let r = self.blockchain.verify_chain();
        Ok(r)
    }

    /// Seals any pending ledger records into a block.
    pub fn force_seal(&mut self)
        requires
            old(self).wf(),
        ensures
            final(self).wf(),
            final(self).contents() == old(self).contents(),
            final(self).wal_view() == old(self).wal_view(),
            final(self).seq_counter() == old(self).seq_counter(),
            old(self).chain_pending().len() > 0 ==> {
                &&& final(self).chain_pending().len() == 0
                &&& final(self).chain_blocks().len() == old(self).chain_blocks().len() + 1
                &&& final(self).chain_blocks().last().records == old(self).chain_pending()
            },
            old(self).chain_pending().len() == 0 ==> *final(self) == *old(self),
    {
        self.blockchain.force_create_block();
    }

    /// Drops all state: the memtable, the WAL, every run, the ledger (reset
    /// to genesis) and the sequence counter.
    pub fn flush_all(&mut self) -> (r: Result<(), BlockDBError>)
        requires
            old(self).wf(),
        ensures
            r is Ok,
            final(self).wf(),
            final(self).contents() == Map::<Seq<u8>, RecordData>::empty(),
            final(self).wal_view().len() == 0,
            final(self).seq_counter() == 0,
            final(self).chain_blocks().len() == 1,
            final(self).chain_pending().len() == 0,
    {
        self.memtable.clear();
        self.wal.clear();
        self.sstables.clear();
        self.blockchain.clear();
        self.sequence_counter = 0;
        proof {
            assert(self.sstables@.map(|i: int, t: SSTable| t@) =~= Seq::<
                Seq<RecordData>,
            >::empty());
            assert(self.contents() =~= Map::<Seq<u8>, RecordData>::empty());
            assert(records_as_map(self.wal@) =~= Map::<Seq<u8>, RecordData>::empty());
        }
        Ok(())
    }

    /// The current sequence counter value.
    pub fn seq_counter_value(&self) -> (r: u64)
        ensures
            r == self.seq_counter(),
    {
        self.sequence_counter
    }

    /// The number of sealed ledger blocks, genesis included.
    pub fn chain_length(&self) -> (r: usize)
        ensures
            r == self.chain_blocks().len(),
    {
        self.blockchain.get_chain_length()
    }

    /// One sealed ledger block by its index, for inspection or persistence.
    pub fn ledger_block(&self, index: u64) -> (r: Option<&crate::blockchain::Block>)
        ensures
            r is Some <==> index < self.chain_blocks().len(),
            r is Some ==> r->0@ == self.chain_blocks()[index as int],
    {
        self.blockchain.get_block(index)
    }

    /// Adopts a previously persisted ledger in place of the current one;
    /// everything else in the engine stays as it was.
    pub fn adopt_chain(&mut self, chain: BlockChain)
        requires
            old(self).wf(),
            chain.wf(),
        ensures
            final(self).wf(),
            final(self).chain_blocks() == chain@.blocks,
            final(self).chain_pending() == chain@.pending,
            final(self).contents() == old(self).contents(),
            final(self).wal_view() == old(self).wal_view(),
            final(self).seq_counter() == old(self).seq_counter(),
            final(self).memtable_len() == old(self).memtable_len(),
            final(self).run_count() == old(self).run_count(),
    {
        self.blockchain = chain;
    }

    /// The number of records waiting to be sealed.
    pub fn pending_records(&self) -> (r: usize)
        ensures
            r == self.chain_pending().len(),
    {
        self.blockchain.pending_len()
    }

    /// The replayable WAL stream, oldest first.
    pub fn wal_records(&self) -> (r: Vec<Record>)
        ensures
            r@.map(|i: int, rec: Record| rec@) == self.wal_view(),
    {
        self.wal.recover()
    }
}

/// In a well-formed WAL every record is found under its key.
proof fn lemma_wal_lookup(wal: Seq<RecordData>, i: int)
    requires
        0 <= i < wal.len(),
        forall|a: int, b: int| 0 <= a < b < wal.len() ==> (#[trigger] wal[a]).key != (
        #[trigger] wal[b]).key,
    ensures
        records_as_map(wal).contains_key(wal[i].key),
        records_as_map(wal)[wal[i].key] == wal[i],
{
    assert(records_as_map(wal).contains_key(wal[i].key));
    let w = choose|w: int| 0 <= w < wal.len() && wal[w].key == wal[i].key;
    if w != i {
        assert(wal[if w < i { w } else { i }].key != wal[if w < i { i } else { w }].key);
    }
}

/// Appending a record with a fresh key extends the WAL's keyed view.
proof fn lemma_wal_push_map(wal: Seq<RecordData>, r: RecordData)
    requires
        forall|a: int| 0 <= a < wal.len() ==> (#[trigger] wal[a]).key != r.key,
        forall|a: int, b: int| 0 <= a < b < wal.len() ==> (#[trigger] wal[a]).key != (
        #[trigger] wal[b]).key,
    ensures
        records_as_map(wal.push(r)) == records_as_map(wal).insert(r.key, r),
{
    let post = wal.push(r);
    assert(post[wal.len() as int] == r);
    assert forall|a: int, b: int| 0 <= a < b < post.len() implies (#[trigger] post[a]).key != (
    #[trigger] post[b]).key by {
        if b == wal.len() {
            assert(wal[a].key != r.key);
        } else {
            assert(wal[a].key != wal[b].key);
        }
    }
    assert(records_as_map(post) =~~= records_as_map(wal).insert(r.key, r)) by {
        assert forall|k: Seq<u8>| records_as_map(wal).contains_key(k) implies records_as_map(
            post,
        ).contains_key(k) && (k != r.key ==> records_as_map(post)[k] == records_as_map(wal)[k])
            by {
            let w = choose|w: int| 0 <= w < wal.len() && wal[w].key == k;
            lemma_wal_lookup(wal, w);
            assert(post[w] == wal[w]);
            lemma_wal_lookup(post, w);
        }
        lemma_wal_lookup(post, wal.len() as int);
        assert forall|k: Seq<u8>| records_as_map(post).contains_key(k) implies k == r.key
            || records_as_map(wal).contains_key(k) by {
            let w = choose|w: int| 0 <= w < post.len() && post[w].key == k;
            if w < wal.len() {
                assert(wal[w].key == k);
            }
        }
        let m1 = records_as_map(post);
        let m2 = records_as_map(wal).insert(r.key, r);
        assert forall|k: Seq<u8>| m1.contains_key(k) implies m2.contains_key(k) by {}
        assert forall|k: Seq<u8>| m2.contains_key(k) implies m1.contains_key(k) by {
            if k == r.key {
                assert(post[wal.len() as int].key == k);
                assert(m1.contains_key(k));
            } else {
                assert(records_as_map(wal).contains_key(k));
                let w = choose|w: int| 0 <= w < wal.len() && wal[w].key == k;
                assert(post[w].key == k);
                assert(m1.contains_key(k));
            }
        }
        assert forall|k: Seq<u8>| m1.contains_key(k) && m2.contains_key(k) implies m1[k]
            == m2[k] by {
            if k == r.key {
                assert(m1[k] == r);
            } else {
                assert(m1[k] == records_as_map(wal)[k]);
                assert(m2[k] == records_as_map(wal)[k]);
            }
        }
    }
}

/// The run lookup walk is sound: a hit in the newest run holding the key is
/// the level-stack's answer.
proof fn lemma_lc_found(ts: Seq<Seq<RecordData>>, j: int, k: Seq<u8>)
    requires
        0 <= j < ts.len(),
        records_as_map(ts[j]).contains_key(k),
        forall|l: int| j < l < ts.len() ==> !records_as_map(#[trigger] ts[l]).contains_key(k),
    ensures
        level_contents(ts).contains_key(k),
        level_contents(ts)[k] == records_as_map(ts[j])[k],
    decreases ts.len(),
{
    if j == ts.len() - 1 {
        assert(ts.drop_last().len() == ts.len() - 1);
        assert(ts.last() == ts[j]);
    } else {
        assert(ts.last() == ts[ts.len() - 1]);
        assert(!records_as_map(ts.last()).contains_key(k));
        assert forall|l: int| j < l < ts.drop_last().len() implies !records_as_map(
            #[trigger] ts.drop_last()[l],
        ).contains_key(k) by {
            assert(ts.drop_last()[l] == ts[l]);
        }
        assert(ts.drop_last()[j] == ts[j]);
        lemma_lc_found(ts.drop_last(), j, k);
    }
}

/// A key absent from every run is absent from the level stack.
proof fn lemma_lc_missing(ts: Seq<Seq<RecordData>>, k: Seq<u8>)
    requires
        forall|l: int| 0 <= l < ts.len() ==> !records_as_map(#[trigger] ts[l]).contains_key(k),
    ensures
        !level_contents(ts).contains_key(k),
    decreases ts.len(),
{
    if ts.len() > 0 {
        assert(ts.last() == ts[ts.len() - 1]);
        assert forall|l: int| 0 <= l < ts.drop_last().len() implies !records_as_map(
            #[trigger] ts.drop_last()[l],
        ).contains_key(k) by {
            assert(ts.drop_last()[l] == ts[l]);
        }
        lemma_lc_missing(ts.drop_last(), k);
    }
}

} // verus!
