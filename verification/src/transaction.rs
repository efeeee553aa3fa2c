use vstd::prelude::*;

use crate::crypto::fresh_uuid_u128;
use crate::crypto::now_millis;
use crate::error::BlockDBError;
use crate::lock_manager::LockMode;
use crate::lock_manager::spec_holds;
use crate::lock_manager::spec_can_grant;
use crate::util::bytes_eq;

verus! {

broadcast use vstd::seq_lib::group_seq_properties;

/// A transaction's identity: the 128-bit value of a random identifier.
#[derive(Clone, Copy, Debug, PartialEq, Eq, Structural, Hash)]
pub struct TransactionId(pub u128);

impl TransactionId {
    /// A fresh random identifier.
    pub fn new() -> Self {
        TransactionId(fresh_uuid_u128())
    }
}

/// An operation buffered inside a transaction.
#[derive(Clone, Debug)]
pub enum Operation {
    Put { key: Vec<u8>, value: Vec<u8> },
    Get { key: Vec<u8> },
    Delete { key: Vec<u8> },
}

/// The lock mode an operation needs: shared for a read, exclusive for a
/// write or delete.
pub open spec fn spec_op_mode(op: Operation) -> LockMode {
    match op {
        Operation::Get { .. } => LockMode::Shared,
        _ => LockMode::Exclusive,
    }
}

/// The key an operation touches.
pub open spec fn spec_op_key(op: Operation) -> Seq<u8> {
    match op {
        Operation::Put { key, .. } => key@,
        Operation::Get { key } => key@,
        Operation::Delete { key } => key@,
    }
}

impl Operation {
    /// The key the operation touches.
    pub fn get_key(&self) -> (r: &Vec<u8>)
        ensures
            r@ == spec_op_key(*self),
    {
        match self {
            Operation::Put { key, .. } => key,
            Operation::Get { key } => key,
            Operation::Delete { key } => key,
        }
    }

    /// Whether the operation writes.
    pub fn is_write_operation(&self) -> (r: bool)
        ensures
            r == matches!(*self, Operation::Put { .. } | Operation::Delete { .. }),
    {
        matches!(self, Operation::Put { .. } | Operation::Delete { .. })
    }
}

/// A transaction's lifecycle state. The legal transitions are
/// `Active -> Preparing -> Committed` and any state to `Aborted`.
#[derive(Clone, Copy, Debug, PartialEq, Eq, Structural)]
pub enum TransactionState {
    Active,
    Preparing,
    Committed,
    Aborted,
}

/// The keyed view of a buffered write set.
pub open spec fn ws_map(s: Seq<(Vec<u8>, Vec<u8>)>) -> Map<Seq<u8>, Seq<u8>> {
    Map::new(
        |k: Seq<u8>| exists|i: int| 0 <= i < s.len() && s[i].0@ == k,
        |k: Seq<u8>| s[choose|i: int| 0 <= i < s.len() && s[i].0@ == k].1@,
    )
}

/// Every buffered key occurs once.
pub open spec fn ws_unique(s: Seq<(Vec<u8>, Vec<u8>)>) -> bool {
    forall|i: int, j: int| 0 <= i < j < s.len() ==> (#[trigger] s[i]).0@ != (#[trigger] s[j]).0@
}

/// In a unique write set each entry is found under its key.
proof fn lemma_ws_lookup(s: Seq<(Vec<u8>, Vec<u8>)>, i: int)
    requires
        ws_unique(s),
        0 <= i < s.len(),
    ensures
        ws_map(s).contains_key(s[i].0@),
        ws_map(s)[s[i].0@] == s[i].1@,
{
    let w = choose|w: int| 0 <= w < s.len() && s[w].0@ == s[i].0@;
    if w != i {
        assert(s[if w < i { w } else { i }].0@ != s[if w < i { i } else { w }].0@);
    }
}

/// Appending a fresh key extends the write set's keyed view.
proof fn lemma_ws_push(s: Seq<(Vec<u8>, Vec<u8>)>, kv: (Vec<u8>, Vec<u8>))
    requires
        ws_unique(s),
        forall|a: int| 0 <= a < s.len() ==> (#[trigger] s[a]).0@ != kv.0@,
    ensures
        ws_unique(s.push(kv)),
        ws_map(s.push(kv)) == ws_map(s).insert(kv.0@, kv.1@),
{
    let post = s.push(kv);
    assert(post[s.len() as int] == kv);
    assert forall|a: int, b: int| 0 <= a < b < post.len() implies (#[trigger] post[a]).0@ != (
    #[trigger] post[b]).0@ by {
        if b == s.len() {
            assert(s[a].0@ != kv.0@);
        } else {
            assert(s[a].0@ != s[b].0@);
        }
    }
    assert(ws_map(post) =~= ws_map(s).insert(kv.0@, kv.1@)) by {
        assert forall|k: Seq<u8>| ws_map(s).contains_key(k) implies ws_map(post).contains_key(k)
            && (k != kv.0@ ==> ws_map(post)[k] == ws_map(s)[k]) by {
            let w = choose|w: int| 0 <= w < s.len() && s[w].0@ == k;
            lemma_ws_lookup(s, w);
            assert(post[w] == s[w]);
            lemma_ws_lookup(post, w);
        }
        lemma_ws_lookup(post, s.len() as int);
        assert forall|k: Seq<u8>| ws_map(post).contains_key(k) implies k == kv.0@ || ws_map(
            s,
        ).contains_key(k) by {
            let w = choose|w: int| 0 <= w < post.len() && post[w].0@ == k;
            if w < s.len() {
                assert(s[w].0@ == k);
            }
        }
        assert forall|k: Seq<u8>| ws_map(s).insert(kv.0@, kv.1@).contains_key(k)
            implies ws_map(post).contains_key(k) by {
            if k == kv.0@ {
                assert(post[s.len() as int].0@ == k);
            } else {
                assert(ws_map(s).contains_key(k));
                let w = choose|w: int| 0 <= w < s.len() && s[w].0@ == k;
                assert(post[w].0@ == k);
            }
        }
    }
}

/// Replacing the entry at `i` updates the keyed view at that key alone.
proof fn lemma_ws_replace(s: Seq<(Vec<u8>, Vec<u8>)>, post: Seq<(Vec<u8>, Vec<u8>)>, i: int)
    requires
        ws_unique(s),
        0 <= i < s.len(),
        post.len() == s.len(),
        post[i].0@ == s[i].0@,
        forall|j: int| 0 <= j < s.len() && j != i ==> post[j] == s[j],
    ensures
        ws_unique(post),
        ws_map(post) == ws_map(s).insert(post[i].0@, post[i].1@),
{
    assert forall|a: int, b: int| 0 <= a < b < post.len() implies (#[trigger] post[a]).0@ != (
    #[trigger] post[b]).0@ by {
        assert(s[a].0@ != s[b].0@);
        assert(post[a].0@ == s[a].0@ && post[b].0@ == s[b].0@);
    }
    assert(ws_map(post) =~= ws_map(s).insert(post[i].0@, post[i].1@)) by {
        assert forall|k: Seq<u8>| ws_map(post).contains_key(k) implies ws_map(s).insert(
            post[i].0@,
            post[i].1@,
        ).contains_key(k) by {
            let w = choose|w: int| 0 <= w < post.len() && post[w].0@ == k;
            assert(s[w].0@ == k);
        }
        assert forall|k: Seq<u8>| ws_map(s).contains_key(k) implies ws_map(post).contains_key(k)
            by {
            let w = choose|w: int| 0 <= w < s.len() && s[w].0@ == k;
            assert(post[w].0@ == k);
        }
        lemma_ws_lookup(post, i);
        assert forall|k: Seq<u8>| ws_map(post).contains_key(k) && k != post[i].0@
            implies ws_map(post)[k] == ws_map(s)[k] by {
            let w = choose|w: int| 0 <= w < post.len() && post[w].0@ == k;
            assert(w != i);
            assert(s[w].0@ == k);
            lemma_ws_lookup(post, w);
            lemma_ws_lookup(s, w);
        }
    }
}

/// A transaction: its lifecycle state and its buffered reads and writes.
/// Writes touch no storage until commit.
#[derive(Debug)]
pub struct Transaction {
    pub id: TransactionId,
    pub state: TransactionState,
    pub operations: Vec<Operation>,
    pub read_set: Vec<Vec<u8>>,
    pub write_set: Vec<(Vec<u8>, Vec<u8>)>,
    pub start_time: u64,
    pub timeout_ms: u64,
}

impl Transaction {
    /// The buffered writes as a map.
    pub open spec fn write_map(&self) -> Map<Seq<u8>, Seq<u8>> {
        ws_map(self.write_set@)
    }

    /// The keys read so far.
    pub open spec fn read_keys(&self) -> Set<Seq<u8>> {
        self.read_set@.map(|i: int, k: Vec<u8>| k@).to_set()
    }

    /// The write set holds each key once.
    pub open spec fn wf(&self) -> bool {
        ws_unique(self.write_set@)
    }

    /// A fresh transaction: active, with empty buffers, stamped with the
    /// current clock time under a fresh random identifier.
    pub fn new(timeout_ms: u64) -> (r: Self)
        ensures
            r.state == TransactionState::Active,
            r.write_map() == Map::<Seq<u8>, Seq<u8>>::empty(),
            r.read_keys() == Set::<Seq<u8>>::empty(),
            r.operations@.len() == 0,
            r.timeout_ms == timeout_ms,
            r.wf(),
    {
        let r = Transaction {
            id: TransactionId::new(),
            state: TransactionState::Active,
            operations: Vec::new(),
            read_set: Vec::new(),
            write_set: Vec::new(),
            start_time: now_millis(),
            timeout_ms,
        };
        proof {
            assert(r.write_map() =~= Map::<Seq<u8>, Seq<u8>>::empty());
            assert(r.read_keys() =~= Set::<Seq<u8>>::empty());
        }
        r
    }

    /// Buffers one operation: a read joins the read set, a write joins the
    /// write set (a delete as an empty value), replacing any earlier write of
    /// the same key.
    pub fn add_operation(&mut self, operation: Operation)
        requires
            old(self).wf(),
        ensures
            final(self).wf(),
            final(self).id == old(self).id,
            final(self).state == old(self).state,
            final(self).start_time == old(self).start_time,
            final(self).timeout_ms == old(self).timeout_ms,
            final(self).operations@ == old(self).operations@.push(operation),
            match operation {
                Operation::Get { key } => {
                    &&& final(self).read_keys() == old(self).read_keys().insert(key@)
                    &&& final(self).write_map() == old(self).write_map()
                },
                Operation::Put { key, value } => {
                    &&& final(self).read_keys() == old(self).read_keys()
                    &&& final(self).write_map() == old(self).write_map().insert(key@, value@)
                },
                Operation::Delete { key } => {
                    &&& final(self).read_keys() == old(self).read_keys()
                    &&& final(self).write_map() == old(self).write_map().insert(
                        key@,
                        Seq::<u8>::empty(),
                    )
                },
            },
    {
        match &operation {
            Operation::Get { key } => {
                let ghost prev = self.read_set@;
                self.read_set.push(key.clone());
                proof {
                    let f = |i: int, k: Vec<u8>| k@;
                    assert(self.read_set@.map(f) =~= prev.map(f).push(key@)) by {
                        assert(self.read_set@.last()@ =~= key@);
                    }
                    assert(prev.map(f).push(key@).to_set() =~= prev.map(f).to_set().insert(key@));
                }
            },
            Operation::Put { key, value } => {
                self.write_insert(key.clone(), value.clone());
            },
            Operation::Delete { key } => {
                self.write_insert(key.clone(), Vec::new());
            },
        }
        self.operations.push(operation);
    }

    /// Buffers a write, replacing any earlier write of the same key.
    fn write_insert(&mut self, key: Vec<u8>, value: Vec<u8>)
        requires
            old(self).wf(),
        ensures
            final(self).wf(),
            final(self).write_map() == old(self).write_map().insert(key@, value@),
            final(self).read_keys() == old(self).read_keys(),
            final(self).id == old(self).id,
            final(self).state == old(self).state,
            final(self).start_time == old(self).start_time,
            final(self).timeout_ms == old(self).timeout_ms,
            final(self).operations@ == old(self).operations@,
    {
        let ghost pre = self.write_set@;
        let mut i: usize = 0;
        while i < self.write_set.len()
            invariant
                *self == *old(self),
                pre == self.write_set@,
                old(self).wf(),
                0 <= i <= self.write_set@.len(),
                forall|j: int| 0 <= j < i ==> (#[trigger] self.write_set@[j]).0@ != key@,
            decreases self.write_set@.len() - i,
        {
            if bytes_eq(self.write_set[i].0.as_slice(), key.as_slice()) {
                let same_key = self.write_set[i].0.clone();
                proof {
                    assert(same_key@ =~= pre[i as int].0@);
                }
                self.write_set.set(i, (same_key, value));
                proof {
                    assert(self.write_set@[i as int].0@ == pre[i as int].0@);
                    lemma_ws_replace(pre, self.write_set@, i as int);
                }
                return;
            }
            i += 1;
        }
        let ghost kv_key = key@;
        let ghost kv_val = value@;
        self.write_set.push((key, value));
        proof {
            let kv = self.write_set@.last();
            assert(kv.0@ == kv_key && kv.1@ == kv_val);
            assert(self.write_set@ =~= pre.push(kv));
            lemma_ws_push(pre, kv);
        }
    }

    /// Whether the transaction had already run past its timeout at `now`.
    pub fn is_expired_at(&self, now: u64) -> (r: bool)
        ensures
            r == (now > self.start_time && now - self.start_time > self.timeout_ms),
    {
        now > self.start_time && now - self.start_time > self.timeout_ms
    }

    /// Whether the transaction has run past its timeout, by the clock. A
    /// transaction with the largest possible timeout never expires.
    pub fn is_expired(&self) -> (r: bool)
        ensures
            self.timeout_ms == u64::MAX ==> r == false,
    {
        let now = now_millis();
        self.is_expired_at(now)
    }

    /// Whether the transaction may still move towards commit at `now`:
    /// active and not expired.
    pub fn can_commit_at(&self, now: u64) -> (r: bool)
        ensures
            r == (self.state == TransactionState::Active && !(now > self.start_time && now
                - self.start_time > self.timeout_ms)),
    {
        matches!(self.state, TransactionState::Active) && !self.is_expired_at(now)
    }

    /// Whether the transaction may still move towards commit, by the clock.
    /// A transaction with the largest possible timeout never expires, so for
    /// it only the state decides.
    pub fn can_commit(&self) -> (r: bool)
        ensures
            self.state != TransactionState::Active ==> r == false,
            self.state == TransactionState::Active && self.timeout_ms == u64::MAX ==> r == true,
    {
        let now = now_millis();
        self.can_commit_at(now)
    }

    /// Moves an active, unexpired transaction to `Preparing`; anything else
    /// is refused unchanged.
    pub fn prepare(&mut self) -> (r: Result<(), BlockDBError>)
        ensures
            old(self).state != TransactionState::Active ==> r is Err,
            old(self).state == TransactionState::Active && old(self).timeout_ms == u64::MAX
                ==> r is Ok,
            r is Ok ==> {
                &&& old(self).state == TransactionState::Active
                &&& *final(self) == (Transaction {
                    state: TransactionState::Preparing,
                    ..*old(self)
                })
            },
            r is Err ==> *final(self) == *old(self),
    {
        if !self.can_commit() {
            return Err(BlockDBError::StorageError("cannot prepare transaction".to_owned()));
        }
        self.state = TransactionState::Preparing;
        Ok(())
    }

    /// Moves a preparing transaction to `Committed`; anything else is refused
    /// unchanged.
    pub fn commit(&mut self) -> (r: Result<(), BlockDBError>)
        ensures
            r is Ok <==> old(self).state == TransactionState::Preparing,
            r is Ok ==> *final(self) == (Transaction {
                state: TransactionState::Committed,
                ..*old(self)
            }),
            r is Err ==> *final(self) == *old(self),
    {
        if !matches!(self.state, TransactionState::Preparing) {
            return Err(BlockDBError::StorageError("transaction not in preparing state".to_owned()));
        }
        self.state = TransactionState::Committed;
        Ok(())
    }

    /// Moves the transaction to `Aborted`.
    pub fn abort(&mut self)
        ensures
            *final(self) == (Transaction { state: TransactionState::Aborted, ..*old(self) }),
    {
        self.state = TransactionState::Aborted;
    }
}

/// Whether a transaction had outlived its timeout at `now`.
pub open spec fn spec_tx_expired(t: Transaction, now: u64) -> bool {
    now > t.start_time && now - t.start_time > t.timeout_ms
}

/// Whether one of the first `upto` entries carries this identifier and had
/// expired at `now`.
pub open spec fn spec_names_expired(
    id: TransactionId,
    entries: Seq<(TransactionId, Transaction)>,
    upto: int,
    now: u64,
) -> bool {
    exists|w: int|
        0 <= w < upto && (#[trigger] entries[w]).0 == id && spec_tx_expired(entries[w].1, now)
}

/// Whether an identifier occurs in a list.
pub open spec fn spec_id_listed(list: Seq<TransactionId>, id: TransactionId) -> bool {
    exists|j: int| 0 <= j < list.len() && #[trigger] list[j] == id
}

/// Every listed identifier names an expired transaction among the first
/// `upto` entries.
pub open spec fn spec_listed_are_expired(
    list: Seq<TransactionId>,
    entries: Seq<(TransactionId, Transaction)>,
    upto: int,
    now: u64,
) -> bool {
    forall|j: int|
        #![trigger list[j]]
        0 <= j < list.len() ==> spec_names_expired(list[j], entries, upto, now)
}

/// Every expired transaction among the first `upto` entries is listed.
pub open spec fn spec_expired_are_listed(
    list: Seq<TransactionId>,
    entries: Seq<(TransactionId, Transaction)>,
    upto: int,
    now: u64,
) -> bool {
    forall|w: int|
        0 <= w < upto && spec_tx_expired((#[trigger] entries[w]).1, now) ==> spec_id_listed(
            list,
            entries[w].0,
        )
}

/// One durable entry of the transaction log.
#[derive(Clone, Debug)]
pub enum TransactionLogEntry {
    Begin { transaction_id: TransactionId, timestamp: u64 },
    Prepare { transaction_id: TransactionId, timestamp: u64 },
    Commit { transaction_id: TransactionId, timestamp: u64 },
    Abort { transaction_id: TransactionId, timestamp: u64 },
}

/// The transaction an entry speaks of.
pub open spec fn spec_entry_tx(e: TransactionLogEntry) -> TransactionId {
    match e {
        TransactionLogEntry::Begin { transaction_id, .. } => transaction_id,
        TransactionLogEntry::Prepare { transaction_id, .. } => transaction_id,
        TransactionLogEntry::Commit { transaction_id, .. } => transaction_id,
        TransactionLogEntry::Abort { transaction_id, .. } => transaction_id,
    }
}

/// The time an entry was written.
pub open spec fn spec_entry_time(e: TransactionLogEntry) -> u64 {
    match e {
        TransactionLogEntry::Begin { timestamp, .. } => timestamp,
        TransactionLogEntry::Prepare { timestamp, .. } => timestamp,
        TransactionLogEntry::Commit { timestamp, .. } => timestamp,
        TransactionLogEntry::Abort { timestamp, .. } => timestamp,
    }
}

impl TransactionLogEntry {
    /// The transaction the entry speaks of.
    pub fn transaction_id(&self) -> (r: &TransactionId)
        ensures
            *r == spec_entry_tx(*self),
    {
        match self {
            TransactionLogEntry::Begin { transaction_id, .. } => transaction_id,
            TransactionLogEntry::Prepare { transaction_id, .. } => transaction_id,
            TransactionLogEntry::Commit { transaction_id, .. } => transaction_id,
            TransactionLogEntry::Abort { transaction_id, .. } => transaction_id,
        }
    }

    /// The time the entry was written.
    pub fn timestamp(&self) -> (r: u64)
        ensures
            r == spec_entry_time(*self),
    {
        match self {
            TransactionLogEntry::Begin { timestamp, .. } => *timestamp,
            TransactionLogEntry::Prepare { timestamp, .. } => *timestamp,
            TransactionLogEntry::Commit { timestamp, .. } => *timestamp,
            TransactionLogEntry::Abort { timestamp, .. } => *timestamp,
        }
    }
}

/// The modeled durable transaction log: an ordered stream of state-change
/// entries. The backing file is the caller's business.
#[derive(Debug)]
pub struct TransactionLog {
    entries: Vec<TransactionLogEntry>,
}

impl View for TransactionLog {
    type V = Seq<TransactionLogEntry>;

    closed spec fn view(&self) -> Seq<TransactionLogEntry> {
        self.entries@
    }
}

impl TransactionLog {
    /// An empty log.
    pub fn new(data_dir: &str) -> (r: Self)
        ensures
            r@ == Seq::<TransactionLogEntry>::empty(),
    {
        let _ = data_dir;
        let r = TransactionLog { entries: Vec::new() };
        proof {
            assert(r@ =~= Seq::<TransactionLogEntry>::empty());
        }
        r
    }

    /// Logs that a transaction began.
    pub fn log_begin(&mut self, transaction_id: &TransactionId) -> (r: Result<(), BlockDBError>)
        ensures
            r is Ok,
            final(self)@.len() == old(self)@.len() + 1,
            final(self)@.take(old(self)@.len() as int) == old(self)@,
            (final(self)@.last() matches TransactionLogEntry::Begin { transaction_id: t, .. }
                && t == *transaction_id),
    {
        let entry = TransactionLogEntry::Begin {
            transaction_id: *transaction_id,
            timestamp: now_millis(),
        };
        self.entries.push(entry);
        proof {
            assert(self@.take(old(self)@.len() as int) =~= old(self)@);
        }
        Ok(())
    }

    /// Logs that a transaction entered the prepare phase.
    pub fn log_prepare(&mut self, transaction_id: &TransactionId) -> (r: Result<(), BlockDBError>)
        ensures
            r is Ok,
            final(self)@.len() == old(self)@.len() + 1,
            final(self)@.take(old(self)@.len() as int) == old(self)@,
            (final(self)@.last() matches TransactionLogEntry::Prepare { transaction_id: t, .. }
                && t == *transaction_id),
    {
        let entry = TransactionLogEntry::Prepare {
            transaction_id: *transaction_id,
            timestamp: now_millis(),
        };
        self.entries.push(entry);
        proof {
            assert(self@.take(old(self)@.len() as int) =~= old(self)@);
        }
        Ok(())
    }

    /// Logs that a transaction committed.
    pub fn log_commit(&mut self, transaction_id: &TransactionId) -> (r: Result<(), BlockDBError>)
        ensures
            r is Ok,
            final(self)@.len() == old(self)@.len() + 1,
            final(self)@.take(old(self)@.len() as int) == old(self)@,
            (final(self)@.last() matches TransactionLogEntry::Commit { transaction_id: t, .. }
                && t == *transaction_id),
    {
        let entry = TransactionLogEntry::Commit {
            transaction_id: *transaction_id,
            timestamp: now_millis(),
        };
        self.entries.push(entry);
        proof {
            assert(self@.take(old(self)@.len() as int) =~= old(self)@);
        }
        Ok(())
    }

    /// Logs that a transaction aborted.
    pub fn log_abort(&mut self, transaction_id: &TransactionId) -> (r: Result<(), BlockDBError>)
        ensures
            r is Ok,
            final(self)@.len() == old(self)@.len() + 1,
            final(self)@.take(old(self)@.len() as int) == old(self)@,
            (final(self)@.last() matches TransactionLogEntry::Abort { transaction_id: t, .. }
                && t == *transaction_id),
    {
        let entry = TransactionLogEntry::Abort {
            transaction_id: *transaction_id,
            timestamp: now_millis(),
        };
        self.entries.push(entry);
        proof {
            assert(self@.take(old(self)@.len() as int) =~= old(self)@);
        }
        Ok(())
    }

    /// Replays the whole log in order.
    pub fn recover(&self) -> (r: Result<Vec<TransactionLogEntry>, BlockDBError>)
        ensures
            r is Ok,
            r matches Ok(v) ==> v@ == self@,
    {
        let mut v: Vec<TransactionLogEntry> = Vec::new();
        let mut i: usize = 0;
        while i < self.entries.len()
            invariant
                0 <= i <= self.entries@.len(),
                v@ == self@.take(i as int),
            decreases self.entries@.len() - i,
        {
            let e = match &self.entries[i] {
                TransactionLogEntry::Begin { transaction_id, timestamp } => {
                    TransactionLogEntry::Begin {
                        transaction_id: *transaction_id,
                        timestamp: *timestamp,
                    }
                },
                TransactionLogEntry::Prepare { transaction_id, timestamp } => {
                    TransactionLogEntry::Prepare {
                        transaction_id: *transaction_id,
                        timestamp: *timestamp,
                    }
                },
                TransactionLogEntry::Commit { transaction_id, timestamp } => {
                    TransactionLogEntry::Commit {
                        transaction_id: *transaction_id,
                        timestamp: *timestamp,
                    }
                },
                TransactionLogEntry::Abort { transaction_id, timestamp } => {
                    TransactionLogEntry::Abort {
                        transaction_id: *transaction_id,
                        timestamp: *timestamp,
                    }
                },
            };
            v.push(e);
            proof {
                assert(v@ =~= self@.take(i as int + 1));
            }
            i += 1;
        }
        proof {
            assert(self@.take(self@.len() as int) =~= self@);
        }
        Ok(v)
    }

    /// Truncates the log to nothing.
    pub fn truncate(&mut self) -> (r: Result<(), BlockDBError>)
        ensures
            r is Ok,
            final(self)@ == Seq::<TransactionLogEntry>::empty(),
    {
        self.entries.clear();
        proof {
            assert(self@ =~= Seq::<TransactionLogEntry>::empty());
        }
        Ok(())
    }
}

/// The transaction manager: the active transactions, the lock manager and
/// the durable transaction log, owned together.
#[derive(Debug)]
pub struct TransactionManager {
    active_transactions: Vec<(TransactionId, Transaction)>,
    lock_manager: crate::lock_manager::LockManager,
    transaction_log: TransactionLog,
    default_timeout_ms: u64,
}

impl TransactionManager {
    /// Whether a transaction is active under this identifier.
    pub closed spec fn has_tx(&self, id: TransactionId) -> bool {
        exists|i: int|
            0 <= i < self.active_transactions@.len() && (
            #[trigger] self.active_transactions@[i]).0 == id
    }

    /// The active transaction under an identifier.
    pub closed spec fn tx_of(&self, id: TransactionId) -> Transaction {
        self.active_transactions@[choose|i: int|
            0 <= i < self.active_transactions@.len() && (
            #[trigger] self.active_transactions@[i]).0 == id].1
    }

    /// The granted locks on a key, by mode and holder.
    pub closed spec fn key_locks(&self, k: Seq<u8>) -> Seq<(LockMode, TransactionId)> {
        self.lock_manager.key_lock_views(k)
    }

    /// The durable transaction log's entries, in order.
    pub closed spec fn log_view(&self) -> Seq<TransactionLogEntry> {
        self.transaction_log@
    }

    /// Identifiers are unique, every transaction is well-formed and carries
    /// its own identifier, and the lock state is consistent.
    pub closed spec fn wf(&self) -> bool {
        &&& forall|i: int, j: int|
            0 <= i < j < self.active_transactions@.len() ==> (
            #[trigger] self.active_transactions@[i]).0 != (
            #[trigger] self.active_transactions@[j]).0
        &&& forall|i: int|
            0 <= i < self.active_transactions@.len() ==> (
            #[trigger] self.active_transactions@[i]).1.wf()
        &&& forall|i: int|
            0 <= i < self.active_transactions@.len() ==> (
            #[trigger] self.active_transactions@[i]).1.id == self.active_transactions@[i].0
        &&& self.lock_manager.wf()
    }

    /// A fresh manager with no active transactions and a thirty-second
    /// default timeout.
    pub fn new(data_dir: &str) -> (r: Result<Self, BlockDBError>)
        ensures
            r is Ok,
            r matches Ok(m) ==> {
                &&& m.wf()
                &&& forall|id: TransactionId| !m.has_tx(id)
            },
    {
        let m = TransactionManager {
            active_transactions: Vec::new(),
            lock_manager: crate::lock_manager::LockManager::new(),
            transaction_log: TransactionLog::new(data_dir),
            default_timeout_ms: 30000,
        };
        Ok(m)
    }

    /// The index of an active transaction.
    fn find_tx_index(&self, tx_id: &TransactionId) -> (r: Option<usize>)
        requires
            self.wf(),
        ensures
            r matches Some(i) ==> i < self.active_transactions@.len()
                && self.active_transactions@[i as int].0 == *tx_id,
            r is None ==> !self.has_tx(*tx_id),
    {
        let mut i: usize = 0;
        while i < self.active_transactions.len()
            invariant
                0 <= i <= self.active_transactions@.len(),
                forall|j: int|
                    0 <= j < i ==> (#[trigger] self.active_transactions@[j]).0 != *tx_id,
            decreases self.active_transactions@.len() - i,
        {
            if self.active_transactions[i].0 == *tx_id {
                return Some(i);
            }
            i += 1;
        }
        None
    }

    /// Begins a transaction with the default timeout.
    pub fn begin_transaction(&mut self) -> (r: Result<TransactionId, BlockDBError>)
        requires
            old(self).wf(),
        ensures
            final(self).wf(),
            r matches Ok(id) ==> {
                &&& final(self).has_tx(id)
                &&& final(self).tx_of(id).state == TransactionState::Active
                &&& final(self).tx_of(id).write_map() == Map::<Seq<u8>, Seq<u8>>::empty()
            },
    {
        let t = self.default_timeout_ms;
        self.begin_transaction_with_timeout(t)
    }

    /// Begins a transaction: allocates a fresh identifier, logs `Begin` and
    /// registers the transaction as active. A random-identifier collision is
    /// refused.
    pub fn begin_transaction_with_timeout(&mut self, timeout_ms: u64) -> (r: Result<
        TransactionId,
        BlockDBError,
    >)
        requires
            old(self).wf(),
        ensures
            final(self).wf(),
            r matches Ok(id) ==> {
                &&& final(self).has_tx(id)
                &&& final(self).tx_of(id).state == TransactionState::Active
                &&& final(self).tx_of(id).write_map() == Map::<Seq<u8>, Seq<u8>>::empty()
                &&& final(self).tx_of(id).timeout_ms == timeout_ms
            },
    {
        let transaction = Transaction::new(timeout_ms);
        let tx_id = transaction.id;
        if self.find_tx_index(&tx_id).is_some() {
            return Err(BlockDBError::StorageError("transaction id collision".to_owned()));
        }
        let log_result = self.transaction_log.log_begin(&tx_id);
        match log_result {
            Ok(_) => {},
            Err(e) => {
                return Err(e);
            },
        }
        let ghost pre = self.active_transactions@;
        self.active_transactions.push((tx_id, transaction));
        proof {
            let n = self.active_transactions@.len() - 1;
            assert(self.active_transactions@[n].0 == tx_id);
            assert(self.has_tx(tx_id));
            lemma_tm_lookup(*self, n);
            assert forall|i: int, j: int|
                0 <= i < j < self.active_transactions@.len() implies (
            #[trigger] self.active_transactions@[i]).0 != (
            #[trigger] self.active_transactions@[j]).0 by {
                if j < n {
                    assert(pre[i].0 != pre[j].0);
                } else {
                    assert(pre[i].0 != tx_id);
                }
            }
        }
        Ok(tx_id)
    }

    /// Runs one operation inside a transaction: takes the matching lock (a
    /// conflicting lock refuses the operation), buffers the operation, and
    /// for a read answers from the transaction's own writes first, else from
    /// the committed store.
    pub fn execute_operation(
        &mut self,
        tx_id: &TransactionId,
        operation: Operation,
        db: &crate::storage::BlockDB,
    ) -> (r: Result<Option<Vec<u8>>, BlockDBError>)
        requires
            old(self).wf(),
            db.wf(),
        ensures
            final(self).wf(),
            !old(self).has_tx(*tx_id) ==> r is Err,
            old(self).has_tx(*tx_id) && old(self).tx_of(*tx_id).state != TransactionState::Active
                ==> r is Err,
            !spec_can_grant(
                old(self).key_locks(spec_op_key(operation)),
                spec_op_mode(operation),
                *tx_id,
            ) ==> r is Err,
            r is Ok ==> spec_can_grant(
                old(self).key_locks(spec_op_key(operation)),
                spec_op_mode(operation),
                *tx_id,
            ),
            old(self).has_tx(*tx_id) && old(self).tx_of(*tx_id).state == TransactionState::Active
                && old(self).tx_of(*tx_id).timeout_ms == u64::MAX && spec_can_grant(
                old(self).key_locks(spec_op_key(operation)),
                spec_op_mode(operation),
                *tx_id,
            ) ==> r is Ok,
            r is Ok ==> old(self).has_tx(*tx_id) && final(self).has_tx(*tx_id),
            r is Ok ==> match operation {
                Operation::Get { key } => {
                    &&& final(self).tx_of(*tx_id).write_map() == old(self).tx_of(
                        *tx_id,
                    ).write_map()
                    &&& if old(self).tx_of(*tx_id).write_map().contains_key(key@) {
                        r matches Ok(v) && v matches Some(bytes) && bytes@ == old(self).tx_of(
                            *tx_id,
                        ).write_map()[key@]
                    } else if db.contents().contains_key(key@) {
                        r matches Ok(v) && v matches Some(bytes) && bytes@ == db.contents()[
                            key@].value
                    } else {
                        r matches Ok(v) && v is None
                    }
                },
                Operation::Put { key, value } => {
                    &&& final(self).tx_of(*tx_id).write_map() == old(self).tx_of(
                        *tx_id,
                    ).write_map().insert(key@, value@)
                    &&& r matches Ok(v) && v is None
                },
                Operation::Delete { key } => {
                    &&& final(self).tx_of(*tx_id).write_map() == old(self).tx_of(
                        *tx_id,
                    ).write_map().insert(key@, Seq::<u8>::empty())
                    &&& r matches Ok(v) && v is None
                },
            },
    {
        let idx = match self.find_tx_index(tx_id) {
            Some(i) => i,
            None => {
                return Err(BlockDBError::StorageError("transaction not found".to_owned()));
            },
        };
        proof {
            lemma_tm_lookup(*self, idx as int);
        }
        if !matches!(self.active_transactions[idx].1.state, TransactionState::Active) {
            return Err(BlockDBError::StorageError("transaction expired or invalid".to_owned()));
        }
        if self.active_transactions[idx].1.is_expired() {
            return Err(BlockDBError::StorageError("transaction expired or invalid".to_owned()));
        }
        let granted = match &operation {
            Operation::Get { key } => self.lock_manager.acquire_read_lock(key.as_slice(), tx_id),
            Operation::Put { key, .. } => self.lock_manager.acquire_write_lock(
                key.as_slice(),
                tx_id,
            ),
            Operation::Delete { key } => self.lock_manager.acquire_write_lock(
                key.as_slice(),
                tx_id,
            ),
        };
        if !granted {
            return Err(BlockDBError::StorageError("lock acquisition timeout".to_owned()));
        }
        let ghost pre = *self;
        let mut entry = self.active_transactions.remove(idx);
        let is_get = matches!(&operation, Operation::Get { .. });
        let read_key: Option<Vec<u8>> = match &operation {
            Operation::Get { key } => Some(key.clone()),
            _ => None,
        };
        entry.1.add_operation(operation);
        let result: Option<Vec<u8>> = match read_key {
            Some(key) => {
                match ws_get(&entry.1.write_set, key.as_slice()) {
                    Some(v) => {
                        let out = v.clone();
                        proof {
                            assert(out@ =~= entry.1.write_map()[key@]);
                        }
                        Some(out)
                    },
                    None => {
                        let got = db.get(key.as_slice());
                        match got {
                            Ok(v) => v,
                            Err(_) => None,
                        }
                    },
                }
            },
            None => None,
        };
        let ghost entry_after = entry;
        self.active_transactions.insert(idx, entry);
        proof {
            assert(self.active_transactions@.len() == pre.active_transactions@.len());
            assert(self.active_transactions@[idx as int].0 == *tx_id);
            assert forall|j: int|
                0 <= j < self.active_transactions@.len() && j != idx
                    implies self.active_transactions@[j] == pre.active_transactions@[j] by {}
            assert forall|i: int, j: int|
                0 <= i < j < self.active_transactions@.len() implies (
            #[trigger] self.active_transactions@[i]).0 != (
            #[trigger] self.active_transactions@[j]).0 by {
                assert(pre.active_transactions@[i].0 != pre.active_transactions@[j].0);
            }
            lemma_tm_lookup(*self, idx as int);
        }
        Ok(result)
    }

    /// Moves an active transaction to `Preparing` and logs it.
    pub fn prepare_transaction(&mut self, tx_id: &TransactionId) -> (r: Result<(), BlockDBError>)
        requires
            old(self).wf(),
        ensures
            final(self).wf(),
            !old(self).has_tx(*tx_id) ==> r is Err,
            old(self).has_tx(*tx_id) && old(self).tx_of(*tx_id).state != TransactionState::Active
                ==> r is Err,
            old(self).has_tx(*tx_id) && old(self).tx_of(*tx_id).state == TransactionState::Active
                && old(self).tx_of(*tx_id).timeout_ms == u64::MAX ==> r is Ok,
            r is Ok ==> {
                &&& old(self).has_tx(*tx_id)
                &&& old(self).tx_of(*tx_id).state == TransactionState::Active
                &&& final(self).has_tx(*tx_id)
                &&& final(self).tx_of(*tx_id).state == TransactionState::Preparing
                &&& final(self).tx_of(*tx_id).write_map() == old(self).tx_of(*tx_id).write_map()
            },
    {
        let idx = match self.find_tx_index(tx_id) {
            Some(i) => i,
            None => {
                return Err(BlockDBError::StorageError("transaction not found".to_owned()));
            },
        };
        proof {
            lemma_tm_lookup(*self, idx as int);
        }
        let ghost pre = *self;
        let mut entry = self.active_transactions.remove(idx);
        let prep = entry.1.prepare();
        let prepared = prep.is_ok();
        self.active_transactions.insert(idx, entry);
        proof {
            assert(self.active_transactions@[idx as int].0 == *tx_id);
            assert forall|i: int, j: int|
                0 <= i < j < self.active_transactions@.len() implies (
            #[trigger] self.active_transactions@[i]).0 != (
            #[trigger] self.active_transactions@[j]).0 by {
                assert(pre.active_transactions@[i].0 != pre.active_transactions@[j].0);
            }
            assert forall|j: int|
                0 <= j < self.active_transactions@.len() && j != idx
                    implies self.active_transactions@[j] == pre.active_transactions@[j] by {}
            lemma_tm_lookup(*self, idx as int);
        }
        if !prepared {
            return Err(BlockDBError::StorageError("cannot prepare transaction".to_owned()));
        }
        self.transaction_log.log_prepare(tx_id)
    }

    /// Commits a prepared transaction: every buffered write must land on a
    /// fresh key, and then all of them are applied to the engine; any
    /// collision (or an exhausted sequence counter) aborts the transaction
    /// and leaves the engine untouched. Locks are released and the
    /// transaction is retired either way the decision goes.
    pub fn commit_transaction(
        &mut self,
        tx_id: &TransactionId,
        db: &mut crate::storage::BlockDB,
    ) -> (r: Result<(), BlockDBError>)
        requires
            old(self).wf(),
            old(db).wf(),
        ensures
            final(self).wf(),
            final(db).wf(),
            !old(self).has_tx(*tx_id) ==> r is Err && *final(db) == *old(db),
            r is Err ==> *final(db) == *old(db),
            old(self).has_tx(*tx_id) && old(self).tx_of(*tx_id).state
                == TransactionState::Preparing && (forall|k: Seq<u8>|
                old(self).tx_of(*tx_id).write_map().contains_key(k) ==> !old(db).contents().contains_key(k)) && old(db).seq_counter() + old(self).tx_of(
                *tx_id,
            ).write_set@.len() <= u64::MAX ==> r is Ok,
            old(self).has_tx(*tx_id) && old(self).tx_of(*tx_id).state
                == TransactionState::Preparing ==> forall|k: Seq<u8>|
                !spec_holds(#[trigger] final(self).key_locks(k), *tx_id),
            r is Ok ==> {
                &&& final(self).log_view().len() == old(self).log_view().len() + 1
                &&& final(self).log_view().take(old(self).log_view().len() as int) == old(self).log_view()
                &&& (final(self).log_view().last() matches TransactionLogEntry::Commit {
                    transaction_id: t,
                    ..
                } && t == *tx_id)
            },
            old(self).has_tx(*tx_id) && old(self).tx_of(*tx_id).state
                == TransactionState::Preparing && r is Err ==> {
                &&& final(self).log_view().len() == old(self).log_view().len() + 1
                &&& final(self).log_view().take(old(self).log_view().len() as int) == old(self).log_view()
                &&& (final(self).log_view().last() matches TransactionLogEntry::Abort {
                    transaction_id: t,
                    ..
                } && t == *tx_id)
            },
            r is Ok ==> {
                &&& old(self).has_tx(*tx_id)
                &&& old(self).tx_of(*tx_id).state == TransactionState::Preparing
                &&& !final(self).has_tx(*tx_id)
                &&& forall|k: Seq<u8>|
                    old(self).tx_of(*tx_id).write_map().contains_key(k) ==> final(db).contents().contains_key(k) && final(db).contents()[k].value == old(self).tx_of(*tx_id).write_map()[k]
                &&& forall|k: Seq<u8>|
                    !old(self).tx_of(*tx_id).write_map().contains_key(k) ==> (final(db).contents().contains_key(k) == old(db).contents().contains_key(k))
                &&& forall|k: Seq<u8>|
                    !old(self).tx_of(*tx_id).write_map().contains_key(k) && old(db).contents().contains_key(k) ==> final(db).contents()[k] == old(db).contents()[k]
            },
    {
        let idx = match self.find_tx_index(tx_id) {
            Some(i) => i,
            None => {
                return Err(BlockDBError::StorageError("transaction not found".to_owned()));
            },
        };
        proof {
            lemma_tm_lookup(*self, idx as int);
        }
        if !matches!(self.active_transactions[idx].1.state, TransactionState::Preparing) {
            return Err(BlockDBError::StorageError("transaction not in preparing state".to_owned()));
        }
        let ghost pre = *self;
        let ghost pre_db = *db;
        let entry = self.active_transactions.remove(idx);
        proof {
            assert forall|i: int, j: int|
                0 <= i < j < self.active_transactions@.len() implies (
            #[trigger] self.active_transactions@[i]).0 != (
            #[trigger] self.active_transactions@[j]).0 by {
                let a: int = if i < idx { i } else { i + 1 };
                let b: int = if j < idx { j } else { j + 1 };
                assert(pre.active_transactions@[a].0 != pre.active_transactions@[b].0);
            }
            assert forall|id2: TransactionId| self.has_tx(id2) implies pre.has_tx(id2) by {
                let w = choose|w: int|
                    0 <= w < self.active_transactions@.len() && (
                    #[trigger] self.active_transactions@[w]).0 == id2;
                let wo: int = if w < idx { w } else { w + 1 };
                assert(pre.active_transactions@[wo].0 == id2);
            }
        }
        let tx = entry.1;
        let ghost wm = tx.write_map();
        // Append-only pre-check: a single collision aborts before anything
        // is applied.
        let mut i: usize = 0;
        let mut collision = false;
        while i < tx.write_set.len()
            invariant
                db.wf(),
                *db == pre_db,
                tx.wf(),
                wm == tx.write_map(),
                0 <= i <= tx.write_set@.len(),
                !collision ==> forall|j: int|
                    0 <= j < i ==> !pre_db.contents().contains_key(
                        (#[trigger] tx.write_set@[j]).0@,
                    ),
                collision ==> exists|j: int|
                    0 <= j < i && pre_db.contents().contains_key(
                        (#[trigger] tx.write_set@[j]).0@,
                    ),
            decreases tx.write_set@.len() - i,
        {
            if db.key_exists(tx.write_set[i].0.as_slice()) {
                collision = true;
                proof {
                    assert(pre_db.contents().contains_key(tx.write_set@[i as int].0@));
                }
            }
            i += 1;
        }
        let headroom_ok = {
            let len64 = tx.write_set.len() as u64;
            db.seq_counter_value() <= u64::MAX - len64
        };
        if collision || !headroom_ok {
            proof {
                assert(pre.tx_of(*tx_id) == tx);
                if collision {
                    let j = choose|j: int|
                        0 <= j < tx.write_set@.len() && pre_db.contents().contains_key(
                            (#[trigger] tx.write_set@[j]).0@,
                        );
                    lemma_ws_lookup(tx.write_set@, j);
                    assert(wm.contains_key(tx.write_set@[j].0@));
                }
            }
            let _ = self.transaction_log.log_abort(tx_id);
            self.lock_manager_release_all(tx_id);
            return Err(BlockDBError::DuplicateKey(
                "commit refused: key exists or counter exhausted".to_owned(),
            ));
        }
        // Apply the write set; every put lands on a fresh key and succeeds.
        let mut a: usize = 0;
        while a < tx.write_set.len()
            invariant
                db.wf(),
                tx.wf(),
                wm == tx.write_map(),
                0 <= a <= tx.write_set@.len(),
                forall|j: int|
                    0 <= j < tx.write_set@.len() ==> !pre_db.contents().contains_key(
                        (#[trigger] tx.write_set@[j]).0@,
                    ),
                db.seq_counter() == pre_db.seq_counter() + a,
                pre_db.seq_counter() + tx.write_set@.len() <= u64::MAX,
                forall|k: Seq<u8>|
                    db.contents().contains_key(k) == (pre_db.contents().contains_key(k) || (
                    exists|j: int| 0 <= j < a && (#[trigger] tx.write_set@[j]).0@ == k)),
                forall|j: int|
                    0 <= j < a ==> db.contents().contains_key((#[trigger] tx.write_set@[j]).0@)
                        && db.contents()[tx.write_set@[j].0@].value == tx.write_set@[j].1@,
                forall|k: Seq<u8>|
                    pre_db.contents().contains_key(k) ==> db.contents().contains_key(k)
                        && db.contents()[k] == pre_db.contents()[k],
            decreases tx.write_set@.len() - a,
        {
            let ghost db_before = *db;
            let put_r = db.put(tx.write_set[a].0.as_slice(), tx.write_set[a].1.as_slice());
            proof {
                assert(!db_before.contents().contains_key(tx.write_set@[a as int].0@)) by {
                    if db_before.contents().contains_key(tx.write_set@[a as int].0@) {
                        assert(!pre_db.contents().contains_key(tx.write_set@[a as int].0@));
                        let j = choose|j: int|
                            0 <= j < a && (#[trigger] tx.write_set@[j]).0@ == tx.write_set@[
                            a as int].0@;
                        assert(tx.write_set@[j].0@ != tx.write_set@[a as int].0@);
                    }
                }
                assert(put_r is Ok);
            }
            proof {
                assert forall|j: int|
                    0 <= j <= a implies db.contents().contains_key(
                    (#[trigger] tx.write_set@[j]).0@,
                ) && db.contents()[tx.write_set@[j].0@].value == tx.write_set@[j].1@ by {
                    if j < a {
                        if tx.write_set@[j].0@ == tx.write_set@[a as int].0@ {
                            assert(tx.write_set@[j].0@ != tx.write_set@[a as int].0@);
                        }
                    }
                }
            }
            a += 1;
        }
        let _ = self.transaction_log.log_commit(tx_id);
        self.lock_manager_release_all(tx_id);
        proof {
            assert(pre.tx_of(*tx_id) == tx);
            assert forall|k: Seq<u8>| wm.contains_key(k) implies db.contents().contains_key(k)
                && db.contents()[k].value == wm[k] by {
                let j = choose|j: int| 0 <= j < tx.write_set@.len() && tx.write_set@[j].0@ == k;
                lemma_ws_lookup(tx.write_set@, j);
            }
            assert forall|k: Seq<u8>| !wm.contains_key(k) implies db.contents().contains_key(k)
                == pre_db.contents().contains_key(k) by {
                if exists|j: int|
                    0 <= j < tx.write_set@.len() && (#[trigger] tx.write_set@[j]).0@ == k {
                    let j = choose|j: int|
                        0 <= j < tx.write_set@.len() && (#[trigger] tx.write_set@[j]).0@ == k;
                    lemma_ws_lookup(tx.write_set@, j);
                }
            }
            assert forall|id2: TransactionId| self.has_tx(id2) implies id2 != *tx_id by {
                assert(pre.has_tx(id2));
            }
        }
        Ok(())
    }

    /// Aborts a transaction: logs `Abort`, releases its locks and retires
    /// it; its buffered writes are discarded and never reach the engine. An
    /// unknown identifier is a no-op. Other transactions are untouched.
    pub fn abort_transaction(&mut self, tx_id: &TransactionId) -> (r: Result<(), BlockDBError>)
        requires
            old(self).wf(),
        ensures
            final(self).wf(),
            r is Ok,
            !final(self).has_tx(*tx_id),
            old(self).has_tx(*tx_id) ==> {
                &&& final(self).log_view().len() == old(self).log_view().len() + 1
                &&& final(self).log_view().take(old(self).log_view().len() as int) == old(self).log_view()
                &&& (final(self).log_view().last() matches TransactionLogEntry::Abort {
                    transaction_id: t,
                    ..
                } && t == *tx_id)
                &&& forall|k: Seq<u8>| !spec_holds(#[trigger] final(self).key_locks(k), *tx_id)
            },
            !old(self).has_tx(*tx_id) ==> *final(self) == *old(self),
            forall|id2: TransactionId|
                id2 != *tx_id ==> (#[trigger] final(self).has_tx(id2) == old(self).has_tx(id2)),
            forall|id2: TransactionId|
                id2 != *tx_id && old(self).has_tx(id2) ==> #[trigger] final(self).tx_of(id2)
                    == old(self).tx_of(id2),
    {
        let idx_opt = self.find_tx_index(tx_id);
        match idx_opt {
            Some(idx) => {
                let ghost pre = *self;
                proof {
                    lemma_tm_lookup(pre, idx as int);
                }
                let _ = self.active_transactions.remove(idx);
                proof {
                    assert forall|i: int, j: int|
                        0 <= i < j < self.active_transactions@.len() implies (
                    #[trigger] self.active_transactions@[i]).0 != (
                    #[trigger] self.active_transactions@[j]).0 by {
                        let a: int = if i < idx { i } else { i + 1 };
                        let b: int = if j < idx { j } else { j + 1 };
                        assert(pre.active_transactions@[a].0 != pre.active_transactions@[b].0);
                    }
                    assert forall|id2: TransactionId| self.has_tx(id2) implies pre.has_tx(id2)
                        && id2 != *tx_id by {
                        let w = choose|w: int|
                            0 <= w < self.active_transactions@.len() && (
                            #[trigger] self.active_transactions@[w]).0 == id2;
                        let wo: int = if w < idx { w } else { w + 1 };
                        assert(pre.active_transactions@[wo].0 == id2);
                        if id2 == *tx_id {
                            assert(pre.active_transactions@[wo].0 != pre.active_transactions@[
                                idx as int].0);
                        }
                    }
                    assert forall|id2: TransactionId|
                        id2 != *tx_id && pre.has_tx(id2) implies self.has_tx(id2) && self.tx_of(
                        id2,
                    ) == pre.tx_of(id2) by {
                        let wo = choose|wo: int|
                            0 <= wo < pre.active_transactions@.len() && (
                            #[trigger] pre.active_transactions@[wo]).0 == id2;
                        assert(wo != idx) by {
                            assert(pre.active_transactions@[idx as int].0 == *tx_id);
                        }
                        let w: int = if wo < idx {
                            wo
                        } else {
                            wo - 1
                        };
                        assert(self.active_transactions@[w] == pre.active_transactions@[wo]);
                        assert(self.has_tx(id2));
                        lemma_tm_lookup(*self, w);
                        lemma_tm_lookup(pre, wo);
                    }
                }
                let _ = self.transaction_log.log_abort(tx_id);
                self.lock_manager_release_all(tx_id);
                Ok(())
            },
            None => Ok(()),
        }
    }

    /// Releases every lock the transaction holds; afterwards it holds
    /// nothing anywhere, and no other holder lost a lock.
    fn lock_manager_release_all(&mut self, tx_id: &TransactionId)
        requires
            old(self).lock_manager.wf(),
        ensures
            final(self).lock_manager.wf(),
            final(self).active_transactions == old(self).active_transactions,
            final(self).default_timeout_ms == old(self).default_timeout_ms,
            final(self).transaction_log == old(self).transaction_log,
            forall|k: Seq<u8>| !spec_holds(#[trigger] final(self).key_locks(k), *tx_id),
            forall|k: Seq<u8>, t: TransactionId|
                t != *tx_id && #[trigger] spec_holds(old(self).key_locks(k), t) ==> spec_holds(
                    final(self).key_locks(k),
                    t,
                ),
    {
        self.lock_manager.release_all_locks(tx_id);
    }

    /// Aborts exactly the transactions that had outlived their timeout at
    /// `now`; every other transaction stays, untouched.
    pub fn cleanup_expired_transactions_at(&mut self, now: u64) -> (r: Result<(), BlockDBError>)
        requires
            old(self).wf(),
        ensures
            final(self).wf(),
            r is Ok,
            forall|id: TransactionId|
                #[trigger] final(self).has_tx(id) <==> (old(self).has_tx(id) && !spec_tx_expired(
                    old(self).tx_of(id),
                    now,
                )),
            forall|id: TransactionId|
                #[trigger] final(self).has_tx(id) ==> final(self).tx_of(id) == old(self).tx_of(
                    id,
                ),
    {
        let ghost pre = *self;
        let mut expired: Vec<TransactionId> = Vec::new();
        let mut i: usize = 0;
        while i < self.active_transactions.len()
            invariant
                pre == *old(self),
                *self == pre,
                0 <= i <= self.active_transactions@.len(),
                spec_listed_are_expired(expired@, pre.active_transactions@, i as int, now),
                spec_expired_are_listed(expired@, pre.active_transactions@, i as int, now),
            decreases self.active_transactions@.len() - i,
        {
            let ghost prev_expired = expired@;
            if self.active_transactions[i].1.is_expired_at(now) {
                expired.push(self.active_transactions[i].0);
                proof {
                    assert(expired@[expired@.len() - 1] == pre.active_transactions@[i as int].0);
                }
            }
            proof {
                assert forall|w: int|
                    0 <= w < i + 1 && spec_tx_expired(
                        (#[trigger] pre.active_transactions@[w]).1,
                        now,
                    ) implies spec_id_listed(expired@, pre.active_transactions@[w].0) by {
                    if w < i {
                        let j = choose|j: int|
                            0 <= j < prev_expired.len() && #[trigger] prev_expired[j]
                                == pre.active_transactions@[w].0;
                        assert(expired@[j] == pre.active_transactions@[w].0);
                    } else {
                        assert(expired@[expired@.len() - 1] == pre.active_transactions@[w].0);
                    }
                }
                assert forall|j: int|
                    #![trigger expired@[j]]
                    0 <= j < expired@.len() implies spec_names_expired(
                    expired@[j],
                    pre.active_transactions@,
                    i as int + 1,
                    now,
                ) by {
                    if j < prev_expired.len() {
                        assert(spec_names_expired(
                            prev_expired[j],
                            pre.active_transactions@,
                            i as int,
                            now,
                        ));
                        let w = choose|w: int|
                            0 <= w < i && (#[trigger] pre.active_transactions@[w]).0
                                == prev_expired[j] && spec_tx_expired(
                                pre.active_transactions@[w].1,
                                now,
                            );
                        assert(expired@[j] == prev_expired[j]);
                        assert(pre.active_transactions@[w].0 == expired@[j]);
                    } else {
                        assert(expired@[j] == pre.active_transactions@[i as int].0);
                        assert(spec_tx_expired(pre.active_transactions@[i as int].1, now));
                    }
                }
            }
            i += 1;
        }
        let mut e: usize = 0;
        while e < expired.len()
            invariant
                pre == *old(self),
                self.wf(),
                0 <= e <= expired@.len(),
                spec_listed_are_expired(
                    expired@,
                    pre.active_transactions@,
                    pre.active_transactions@.len() as int,
                    now,
                ),
                spec_expired_are_listed(
                    expired@,
                    pre.active_transactions@,
                    pre.active_transactions@.len() as int,
                    now,
                ),
                forall|id: TransactionId|
                    #[trigger] self.has_tx(id) <==> (pre.has_tx(id) && !(exists|j: int|
                        0 <= j < e && expired@[j] == id)),
                forall|id: TransactionId|
                    #[trigger] self.has_tx(id) ==> self.tx_of(id) == pre.tx_of(id),
            decreases expired@.len() - e,
        {
            let id = expired[e];
            let ghost mid = *self;
            let _ = self.abort_transaction(&id);
            proof {
                assert forall|id2: TransactionId| #[trigger] self.has_tx(id2) implies (
                    pre.has_tx(id2) && !(exists|j: int|
                        0 <= j < e + 1 && expired@[j] == id2)) by {
                    assert(id2 != id);
                    assert(mid.has_tx(id2));
                    if exists|j: int| 0 <= j < e + 1 && expired@[j] == id2 {
                        let j = choose|j: int| 0 <= j < e + 1 && expired@[j] == id2;
                        assert(j < e);
                        assert(!mid.has_tx(id2));
                    }
                }
                assert forall|id2: TransactionId|
                    pre.has_tx(id2) && !(exists|j: int| 0 <= j < e + 1 && expired@[j] == id2)
                        implies #[trigger] self.has_tx(id2) by {
                    assert(!(exists|j: int| 0 <= j < e && expired@[j] == id2));
                    assert(mid.has_tx(id2));
                    assert(expired@[e as int] != id2);
                    assert(id2 != id);
                }
            }
            e += 1;
        }
        proof {
            assert forall|id: TransactionId| #[trigger] self.has_tx(id) implies (pre.has_tx(id)
                && !spec_tx_expired(pre.tx_of(id), now)) by {
                assert(pre.has_tx(id));
                let w = choose|w: int|
                    0 <= w < pre.active_transactions@.len() && (
                    #[trigger] pre.active_transactions@[w]).0 == id;
                lemma_tm_lookup(pre, w);
                if spec_tx_expired(pre.tx_of(id), now) {
                    assert(spec_tx_expired(pre.active_transactions@[w].1, now));
                    assert(exists|j: int|
                        0 <= j < expired@.len() && expired@[j] == pre.active_transactions@[w].0);
                    assert(!self.has_tx(id));
                }
            }
            assert forall|id: TransactionId|
                pre.has_tx(id) && !spec_tx_expired(pre.tx_of(id), now)
                    implies #[trigger] self.has_tx(id) by {
                let w = choose|w: int|
                    0 <= w < pre.active_transactions@.len() && (
                    #[trigger] pre.active_transactions@[w]).0 == id;
                lemma_tm_lookup(pre, w);
                assert forall|j: int| 0 <= j < expired@.len() implies expired@[j] != id by {
                    if expired@[j] == id {
                        let w2 = choose|w2: int|
                            0 <= w2 < pre.active_transactions@.len() && (
                            #[trigger] pre.active_transactions@[w2]).0 == expired@[j]
                                && spec_tx_expired(pre.active_transactions@[w2].1, now);
                        assert(w2 == w) by {
                            if w2 != w {
                                assert(pre.active_transactions@[if w2 < w {
                                    w2
                                } else {
                                    w
                                }].0 != pre.active_transactions@[if w2 < w {
                                    w
                                } else {
                                    w2
                                }].0);
                            }
                        }
                        assert(spec_tx_expired(pre.tx_of(id), now));
                    }
                }
            }
        }
        Ok(())
    }

    /// Aborts every transaction that has outlived its timeout, judged by the
    /// clock; surviving transactions stay untouched.
    pub fn cleanup_expired_transactions(&mut self) -> (r: Result<(), BlockDBError>)
        requires
            old(self).wf(),
        ensures
            final(self).wf(),
            r is Ok,
            forall|id: TransactionId|
                #[trigger] final(self).has_tx(id) ==> old(self).has_tx(id) && final(self).tx_of(
                    id,
                ) == old(self).tx_of(id),
    {
        let now = now_millis();
        self.cleanup_expired_transactions_at(now)
    }

    /// The active transaction under an identifier, if any.
    pub fn get_transaction(&self, tx_id: &TransactionId) -> (r: Option<&Transaction>)
        requires
            self.wf(),
        ensures
            r is Some <==> self.has_tx(*tx_id),
            r is Some ==> *r->0 == self.tx_of(*tx_id),
    {
        match self.find_tx_index(tx_id) {
            Some(i) => {
                proof {
                    lemma_tm_lookup(*self, i as int);
                }
                Some(&self.active_transactions[i].1)
            },
            None => None,
        }
    }

    /// How many transactions are active.
    pub fn active_transaction_count(&self) -> usize {
        self.active_transactions.len()
    }
}

/// With unique identifiers, the entry at `i` is what the lookup yields.
proof fn lemma_tm_lookup(m: TransactionManager, i: int)
    requires
        forall|a: int, b: int|
            0 <= a < b < m.active_view().len() ==> (#[trigger] m.active_view()[a]).0 != (
            #[trigger] m.active_view()[b]).0,
        0 <= i < m.active_view().len(),
    ensures
        m.has_tx(m.active_view()[i].0),
        m.tx_of(m.active_view()[i].0) == m.active_view()[i].1,
{
    let s = m.active_view();
    let k = s[i].0;
    assert(exists|w: int| 0 <= w < s.len() && (#[trigger] s[w]).0 == k);
    let w = choose|w: int| 0 <= w < s.len() && (#[trigger] s[w]).0 == k;
    if w != i {
        assert(s[if w < i { w } else { i }].0 != s[if w < i { i } else { w }].0);
    }
}

impl TransactionManager {
    /// The raw active list, for in-module reasoning.
    pub closed spec fn active_view(&self) -> Seq<(TransactionId, Transaction)> {
        self.active_transactions@
    }
}

/// The writes a sequence of operations buffers, in order: a put stores its
/// value, a delete an empty value, a read stores nothing; a later write of a
/// key replaces an earlier one.
pub open spec fn spec_ops_writes(ops: Seq<Operation>) -> Map<Seq<u8>, Seq<u8>>
    decreases ops.len(),
{
    if ops.len() == 0 {
        Map::empty()
    } else {
        let rest = spec_ops_writes(ops.drop_last());
        match ops.last() {
            Operation::Get { .. } => rest,
            Operation::Put { key, value } => rest.insert(key@, value@),
            Operation::Delete { key } => rest.insert(key@, Seq::<u8>::empty()),
        }
    }
}

/// Drives a transaction through both phases against the local participant:
/// every operation is executed and the transaction prepared, and only then
/// committed; any refusal along the way aborts it instead. Either all of its
/// writes reach the engine or none do.
#[derive(Debug)]
pub struct TwoPhaseCommitCoordinator {
    pub participants: Vec<String>,
}

impl TwoPhaseCommitCoordinator {
    /// A coordinator over the named participants.
    pub fn new(participants: Vec<String>) -> (r: Self)
        ensures
            r.participants@ == participants@,
    {
        TwoPhaseCommitCoordinator { participants }
    }

    /// Phase one executes and prepares; phase two commits, or aborts on any
    /// refusal. A refused transaction leaves the engine untouched and is
    /// retired either way; a committed one makes every buffered write of the
    /// operations visible in the engine at once.
    pub fn execute_distributed_transaction(
        &self,
        manager: &mut TransactionManager,
        db: &mut crate::storage::BlockDB,
        tx_id: &TransactionId,
        operations: Vec<Operation>,
    ) -> (r: Result<(), BlockDBError>)
        requires
            old(manager).wf(),
            old(db).wf(),
        ensures
            final(manager).wf(),
            final(db).wf(),
            r is Err ==> *final(db) == *old(db),
            !final(manager).has_tx(*tx_id),
            r is Ok ==> old(manager).has_tx(*tx_id),
            r is Ok ==> forall|k: Seq<u8>|
                #[trigger] old(manager).tx_of(*tx_id).write_map().union_prefer_right(
                    spec_ops_writes(operations@),
                ).contains_key(k) ==> final(db).contents().contains_key(k) && final(db).contents()[k].value == old(manager).tx_of(*tx_id).write_map()
                    .union_prefer_right(spec_ops_writes(operations@))[k],
    {
        let ghost all_ops = operations@;
        let ghost base = old(manager).tx_of(*tx_id).write_map();
        let mut operations = operations;
        let mut failed = false;
        let ghost mut done: int = 0;
        loop
            invariant_except_break
                !failed,
            invariant
                manager.wf(),
                db.wf(),
                *db == *old(db),
                base == old(manager).tx_of(*tx_id).write_map(),
                0 <= done <= all_ops.len(),
                operations@ == all_ops.skip(done),
                done == 0 ==> *manager == *old(manager),
                !failed && done > 0 ==> manager.has_tx(*tx_id) && old(manager).has_tx(*tx_id)
                    && manager.tx_of(*tx_id).write_map() == base.union_prefer_right(
                    spec_ops_writes(all_ops.take(done)),
                ),
            ensures
                manager.wf(),
                db.wf(),
                *db == *old(db),
                failed || operations@.len() == 0,
                failed || done == all_ops.len(),
                done == 0 ==> *manager == *old(manager),
                !failed && done > 0 ==> manager.has_tx(*tx_id) && old(manager).has_tx(*tx_id)
                    && manager.tx_of(*tx_id).write_map() == base.union_prefer_right(
                    spec_ops_writes(all_ops.take(done)),
                ),
            decreases operations@.len(),
        {
            if operations.len() == 0 {
                proof {
                    assert(all_ops.skip(done).len() == 0);
                }
                break;
            }
            let op = operations.remove(0);
            let ghost op_g = op;
            proof {
                assert(all_ops.skip(done)[0] == all_ops[done]);
                assert(op_g == all_ops[done]);
                assert(operations@ =~= all_ops.skip(done + 1));
            }
            let ghost m_before = *manager;
            let step = manager.execute_operation(tx_id, op, db);
            if step.is_err() {
                failed = true;
                proof {
                    done = done + 1;
                }
                break;
            }
            proof {
                assert(all_ops.take(done + 1).drop_last() =~= all_ops.take(done));
                assert(all_ops.take(done + 1).last() == all_ops[done]);
                if done == 0 {
                    assert(spec_ops_writes(all_ops.take(0)) =~= Map::<Seq<u8>, Seq<u8>>::empty());
                    assert(base.union_prefer_right(spec_ops_writes(all_ops.take(0))) =~= base);
                }
                let wm0 = base.union_prefer_right(spec_ops_writes(all_ops.take(done)));
                assert(m_before.tx_of(*tx_id).write_map() == wm0) by {
                    if done == 0 {
                        assert(m_before == *old(manager));
                    }
                }
                assert(manager.tx_of(*tx_id).write_map() == base.union_prefer_right(
                    spec_ops_writes(all_ops.take(done + 1)),
                )) by {
                    match op_g {
                        Operation::Get { .. } => {
                            assert(spec_ops_writes(all_ops.take(done + 1)) == spec_ops_writes(
                                all_ops.take(done),
                            ));
                        },
                        Operation::Put { key, value } => {
                            assert(manager.tx_of(*tx_id).write_map() == wm0.insert(key@, value@));
                            assert(wm0.insert(key@, value@) =~= base.union_prefer_right(
                                spec_ops_writes(all_ops.take(done)).insert(key@, value@),
                            ));
                        },
                        Operation::Delete { key } => {
                            assert(manager.tx_of(*tx_id).write_map() == wm0.insert(
                                key@,
                                Seq::<u8>::empty(),
                            ));
                            assert(wm0.insert(key@, Seq::<u8>::empty()) =~= base
                                .union_prefer_right(
                                spec_ops_writes(all_ops.take(done)).insert(
                                    key@,
                                    Seq::<u8>::empty(),
                                ),
                            ));
                        },
                    }
                }
                done = done + 1;
            }
        }
        if !failed {
            let prepared = manager.prepare_transaction(tx_id);
            if prepared.is_err() {
                failed = true;
            }
        }
        if failed {
            let _ = manager.abort_transaction(tx_id);
            return Err(BlockDBError::StorageError("distributed transaction aborted".to_owned()));
        }
        proof {
            assert(all_ops.take(all_ops.len() as int) =~= all_ops);
            if done == 0 {
                assert(spec_ops_writes(all_ops) =~= Map::<Seq<u8>, Seq<u8>>::empty());
                assert(base.union_prefer_right(spec_ops_writes(all_ops)) =~= base);
            }
            assert(manager.has_tx(*tx_id));
            assert(manager.tx_of(*tx_id).write_map() == base.union_prefer_right(
                spec_ops_writes(all_ops),
            ));
        }
        let committed = manager.commit_transaction(tx_id, db);
        match committed {
            Ok(_) => {
                proof {
                    assert(!manager.has_tx(*tx_id));
                }
                Ok(())
            },
            Err(e) => {
                let _ = manager.abort_transaction(tx_id);
                Err(e)
            },
        }
    }
}

/// Looks a key up in a write set.
fn ws_get<'a>(write_set: &'a Vec<(Vec<u8>, Vec<u8>)>, key: &[u8]) -> (r: Option<&'a Vec<u8>>)
    requires
        ws_unique(write_set@),
    ensures
        r is Some <==> ws_map(write_set@).contains_key(key@),
        r is Some ==> r->0@ == ws_map(write_set@)[key@],
{
    let mut i: usize = 0;
    while i < write_set.len()
        invariant
            ws_unique(write_set@),
            0 <= i <= write_set@.len(),
            forall|j: int| 0 <= j < i ==> (#[trigger] write_set@[j]).0@ != key@,
        decreases write_set@.len() - i,
    {
        if bytes_eq(write_set[i].0.as_slice(), key) {
            proof {
                lemma_ws_lookup(write_set@, i as int);
            }
            return Some(&write_set[i].1);
        }
        i += 1;
    }
    proof {
        if ws_map(write_set@).contains_key(key@) {
            let w = choose|w: int| 0 <= w < write_set@.len() && write_set@[w].0@ == key@;
        }
    }
    None
}

/// Law (two-phase locking isolation): in any reachable manager state, once
/// one transaction holds an exclusive lock on a key, every lock on that key
/// is its own, so no two live transactions hold conflicting locks.
pub proof fn lemma_no_conflicting_locks(m: TransactionManager, k: Seq<u8>, i: int, j: int)
    requires
        m.wf(),
        0 <= i < m.key_locks(k).len(),
        0 <= j < m.key_locks(k).len(),
        m.key_locks(k)[i].0 == LockMode::Exclusive,
    ensures
        m.key_locks(k)[j].1 == m.key_locks(k)[i].1,
{
    crate::lock_manager::lemma_manager_locks_compatible(m.lock_manager, k);
    crate::lock_manager::lemma_exclusive_isolation(m.key_locks(k), i, j);
}

} // verus!
