use vstd::prelude::*;

use crate::record::Record;
use crate::record::RecordData;
use crate::util::bytes_eq;
use crate::util::bytes_lt;
use crate::util::lemma_lex_lt_ne;
use crate::util::lemma_lex_lt_total;
use crate::util::lemma_lex_lt_trans;
use crate::util::lex_lt;

verus! {

/// The keyed view of a sequence of records: each key maps to the record
/// holding it.
pub open spec fn records_as_map(s: Seq<RecordData>) -> Map<Seq<u8>, RecordData> {
    Map::new(
        |k: Seq<u8>| exists|i: int| 0 <= i < s.len() && s[i].key == k,
        |k: Seq<u8>|
            s[choose|i: int| 0 <= i < s.len() && s[i].key == k],
    )
}

/// A sequence of records sorted strictly by key, lexicographically.
pub open spec fn sorted_by_key(s: Seq<RecordData>) -> bool {
    forall|i: int, j: int| 0 <= i < j < s.len() ==> lex_lt(s[i].key, s[j].key)
}

/// Clones a record; the copy carries the same fields.
pub fn duplicate_record(r: &Record) -> (c: Record)
    ensures
        c@ == r@,
{
    let c = Record {
        key: r.key.clone(),
        value: r.value.clone(),
        timestamp: r.timestamp,
        sequence_number: r.sequence_number,
        hash: r.hash.clone(),
    };
    proof {
        assert(c.key@ =~= r.key@);
        assert(c.value@ =~= r.value@);
        assert(c.hash@ =~= r.hash@);
    }
    c
}

/// The in-memory ordered table of recent records, keyed by record key.
#[derive(Debug)]
pub struct MemTable {
    data: Vec<Record>,
}

/// The estimated in-memory footprint of one record: its key, value and hash
/// bytes plus a fixed overhead.
pub open spec fn spec_est(r: RecordData) -> int {
    r.key.len() as int + r.value.len() as int + r.hash.len() as int + 48
}

/// The summed footprint estimate of a record sequence.
pub open spec fn spec_total_size(s: Seq<RecordData>) -> int
    decreases s.len(),
{
    if s.len() == 0 {
        0
    } else {
        spec_total_size(s.drop_last()) + spec_est(s.last())
    }
}

/// The footprint sum of a record prefix never shrinks as the prefix grows.
proof fn lemma_total_size_nonneg(s: Seq<RecordData>)
    ensures
        spec_total_size(s) >= 0,
    decreases s.len(),
{
    if s.len() > 0 {
        lemma_total_size_nonneg(s.drop_last());
    }
}

impl View for MemTable {
    type V = Seq<RecordData>;

    /// The records held, in strictly increasing key order.
    closed spec fn view(&self) -> Seq<RecordData> {
        self.data@.map(|i: int, r: Record| r@)
    }
}

/// Saturating addition on sizes.
fn sat_add(a: usize, b: usize) -> (r: usize)
    ensures
        r == if a + b <= usize::MAX { a + b } else { usize::MAX as int },
{
    if a <= usize::MAX - b {
        a + b
    } else {
        usize::MAX
    }
}

impl MemTable {
    /// The keys are strictly sorted, so each key occurs at most once.
    pub open spec fn wf(&self) -> bool {
        sorted_by_key(self@)
    }

    /// The keyed view of the table.
    pub open spec fn as_map(&self) -> Map<Seq<u8>, RecordData> {
        records_as_map(self@)
    }

    /// The empty table.
    pub fn new() -> (r: Self)
        ensures
            r@ == Seq::<RecordData>::empty(),
            r.wf(),
    {
        let r = MemTable { data: Vec::new() };
        proof {
            assert(r@ =~= Seq::<RecordData>::empty());
        }
        r
    }

    /// The estimated in-memory footprint of one record, clamped at the
    /// machine's limit.
    pub fn calculate_record_size(&self, record: &Record) -> (r: usize)
        ensures
            r == (if spec_est(record@) <= usize::MAX {
                spec_est(record@)
            } else {
                usize::MAX as int
            }),
    {
        let a = sat_add(record.key.len(), record.value.len());
        let b = sat_add(a, record.hash.len());
        sat_add(b, 48)
    }

    /// Inserts a record, replacing any existing record for the same key.
    pub fn insert(&mut self, record: Record)
        requires
            old(self).wf(),
        ensures
            final(self).wf(),
            final(self).as_map() == old(self).as_map().insert(record@.key, record@),
            final(self)@.to_set() == old(self)@.filter(
                |r: RecordData| r.key != record@.key,
            ).to_set().insert(record@),
            final(self)@.len() == old(self)@.len() + (if old(self).as_map().contains_key(
                record@.key,
            ) {
                0int
            } else {
                1
            }),
    {
        let ghost pre = self@;
        let mut idx: usize = 0;
        while idx < self.data.len() && bytes_lt(self.data[idx].key.as_slice(), record.key.as_slice())
            invariant
                0 <= idx <= self.data@.len(),
                *self == *old(self),
                forall|j: int| 0 <= j < idx ==> lex_lt(#[trigger] self@[j].key, record@.key),
            decreases self.data@.len() - idx,
        {
            idx += 1;
        }
        let ghost k = record@.key;
        assert(idx == self@.len() || !lex_lt(self@[idx as int].key, k));
        if idx < self.data.len() && bytes_eq(self.data[idx].key.as_slice(), record.key.as_slice()) {
            proof {
                assert(records_as_map(pre).contains_key(k)) by {
                    assert(pre[idx as int].key == k);
                }
            }
            self.data.set(idx, record);
            proof {
                lemma_replace_at(pre, self@, idx as int, k);
            }
        } else {
            proof {
                if idx < pre.len() {
                    lemma_lex_lt_total(pre[idx as int].key, k);
                }
                assert(forall|j: int|
                    idx <= j < pre.len() ==> lex_lt(k, #[trigger] pre[j].key)) by {
                    assert forall|j: int| idx <= j < pre.len() implies lex_lt(
                        k,
                        #[trigger] pre[j].key,
                    ) by {
                        if j > idx {
                            lemma_lex_lt_trans(k, pre[idx as int].key, pre[j].key);
                        }
                    }
                }
            }
            proof {
                assert(!records_as_map(pre).contains_key(k)) by {
                    if records_as_map(pre).contains_key(k) {
                        let w = choose|w: int| 0 <= w < pre.len() && pre[w].key == k;
                        lemma_lex_lt_ne(if w < idx { pre[w].key } else { k }, if w < idx {
                            k
                        } else {
                            pre[w].key
                        });
                    }
                }
            }
            self.data.insert(idx, record);
            proof {
                lemma_insert_at(pre, self@, idx as int, k);
            }
        }
    }

    /// Looks a key up.
    pub fn get(&self, key: &[u8]) -> (r: Option<&Record>)
        requires
            self.wf(),
        ensures
            r is Some <==> self.as_map().contains_key(key@),
            r is Some ==> r->0@ == self.as_map()[key@],
    {
        let mut i: usize = 0;
        while i < self.data.len()
            invariant
                self.wf(),
                0 <= i <= self.data@.len(),
                forall|j: int| 0 <= j < i ==> self@[j].key != key@,
            decreases self.data@.len() - i,
        {
            if bytes_eq(self.data[i].key.as_slice(), key) {
                proof {
                    let m = self.as_map();
                    assert(self@[i as int].key == key@);
                    assert(m.contains_key(key@));
                    let w = choose|w: int| 0 <= w < self@.len() && self@[w].key == key@;
                    if w != i {
                        assert(lex_lt(self@[if w < i { w } else { i as int }].key,
                            self@[if w < i { i as int } else { w }].key));
                        lemma_lex_lt_ne(self@[if w < i { w } else { i as int }].key,
                            self@[if w < i { i as int } else { w }].key);
                    }
                }
                return Some(&self.data[i]);
            }
            i += 1;
        }
        proof {
            if self.as_map().contains_key(key@) {
                let w = choose|w: int| 0 <= w < self@.len() && self@[w].key == key@;
            }
        }
        None
    }

    /// The byte-size estimate: the summed footprint of every stored record,
    /// clamped at the machine's limit.
    pub fn size(&self) -> (r: usize)
        ensures
            r == (if spec_total_size(self@) <= usize::MAX {
                spec_total_size(self@)
            } else {
                usize::MAX as int
            }),
    {
        let mut acc: usize = 0;
        let mut i: usize = 0;
        proof {
            assert(spec_total_size(self@.take(0)) == 0) by {
                assert(self@.take(0).len() == 0);
            }
        }
        while i < self.data.len()
            invariant
                0 <= i <= self.data@.len(),
                acc == (if spec_total_size(self@.take(i as int)) <= usize::MAX {
                    spec_total_size(self@.take(i as int))
                } else {
                    usize::MAX as int
                }),
            decreases self.data@.len() - i,
        {
            let est = self.calculate_record_size(&self.data[i]);
            proof {
                assert(self@.take(i as int + 1).drop_last() =~= self@.take(i as int));
                assert(self@.take(i as int + 1).last() == self@[i as int]);
                lemma_total_size_nonneg(self@.take(i as int));
            }
            acc = sat_add(acc, est);
            i += 1;
        }
        proof {
            assert(self@.take(self@.len() as int) =~= self@);
        }
        acc
    }

    /// Whether the table holds no record.
    pub fn is_empty(&self) -> (r: bool)
        ensures
            r == (self@.len() == 0),
    {
        self.data.len() == 0
    }

    /// The records, in key order.
    pub fn iter(&self) -> (r: Vec<Record>)
        ensures
            r@.map(|i: int, rec: Record| rec@) == self@,
    {
        let mut r: Vec<Record> = Vec::new();
        let mut i: usize = 0;
        while i < self.data.len()
            invariant
                0 <= i <= self.data@.len(),
                r@.map(|j: int, rec: Record| rec@) == self@.take(i as int),
            decreases self.data@.len() - i,
        {
            let ghost prev = r@;
            r.push(duplicate_record(&self.data[i]));
            proof {
                let f = |j: int, rec: Record| rec@;
                assert(r@.map(f) =~= prev.map(f).push(self@[i as int]));
                assert(self@.take(i as int).push(self@[i as int]) =~= self@.take(i as int + 1));
            }
            i += 1;
        }
        proof {
            assert(self@.take(self@.len() as int) =~= self@);
        }
        r
    }

    /// The keys, in order.
    pub fn keys(&self) -> (r: Vec<Vec<u8>>)
        ensures
            r@.map(|i: int, k: Vec<u8>| k@) == self@.map(|i: int, rec: RecordData| rec.key),
    {
        let mut r: Vec<Vec<u8>> = Vec::new();
        let mut i: usize = 0;
        while i < self.data.len()
            invariant
                0 <= i <= self.data@.len(),
                r@.map(|j: int, k: Vec<u8>| k@) == self@.take(i as int).map(
                    |j: int, rec: RecordData| rec.key,
                ),
            decreases self.data@.len() - i,
        {
            let ghost prev = r@;
            r.push(self.data[i].key.clone());
            proof {
                let f = |j: int, k: Vec<u8>| k@;
                let g = |j: int, rec: RecordData| rec.key;
                assert(r@.last()@ =~= self@[i as int].key);
                assert(r@.map(f) =~= prev.map(f).push(self@[i as int].key));
                assert(self@.take(i as int).map(g).push(self@[i as int].key) =~= self@.take(
                    i as int + 1,
                ).map(g));
            }
            i += 1;
        }
        proof {
            assert(self@.take(self@.len() as int) =~= self@);
            assert(self@.take(self@.len() as int).map(|j: int, rec: RecordData| rec.key)
                =~= self@.map(|i: int, rec: RecordData| rec.key));
        }
        r
    }

    /// The number of records held.
    pub fn len(&self) -> (r: usize)
        ensures
            r == self@.len(),
    {
        self.data.len()
    }

    /// Removes every record.
    pub fn clear(&mut self)
        ensures
            final(self)@ == Seq::<RecordData>::empty(),
            final(self).wf(),
    {
        self.data.clear();
        proof {
            assert(self@ =~= Seq::<RecordData>::empty());
        }
    }

    /// The records whose keys lie in `[start, end)`, in key order.
    pub fn range(&self, start: &[u8], end: &[u8]) -> (r: Vec<Record>)
        requires
            self.wf(),
        ensures
            r@.map(|i: int, rec: Record| rec@) == self@.filter(
                |rec: RecordData| !lex_lt(rec.key, start@) && lex_lt(rec.key, end@),
            ),
    {
        let mut r: Vec<Record> = Vec::new();
        let mut i: usize = 0;
        let ghost pred = |rec: RecordData| !lex_lt(rec.key, start@) && lex_lt(rec.key, end@);
        proof {
            reveal(Seq::filter);
            assert(r@.map(|j: int, rec: Record| rec@) =~= self@.take(0).filter(pred));
        }
        while i < self.data.len()
            invariant
                0 <= i <= self.data@.len(),
                pred == (|rec: RecordData| !lex_lt(rec.key, start@) && lex_lt(rec.key, end@)),
                r@.map(|j: int, rec: Record| rec@) == self@.take(i as int).filter(pred),
            decreases self.data@.len() - i,
        {
            let in_range = !bytes_lt(self.data[i].key.as_slice(), start)
                && bytes_lt(self.data[i].key.as_slice(), end);
            proof {
                reveal(Seq::filter);
                assert(self@.take(i as int + 1).drop_last() =~= self@.take(i as int));
                assert(self@.take(i as int + 1).last() == self@[i as int]);
            }
            if in_range {
                r.push(duplicate_record(&self.data[i]));
                proof {
                    assert(r@.map(|j: int, rec: Record| rec@) =~= self@.take(i as int).filter(
                        pred,
                    ).push(self@[i as int]));
                }
            }
            i += 1;
        }
        proof {
            assert(self@.take(self@.len() as int) =~= self@);
        }
        r
    }

    /// The last record, in key order, whose key starts with `prefix`.
    pub fn get_latest_by_prefix(&self, prefix: &[u8]) -> (r: Option<&Record>)
        requires
            self.wf(),
        ensures
            r is Some ==> {
                &&& self@.contains(r->0@)
                &&& key_starts_with(r->0@.key, prefix@)
                &&& forall|i: int|
                    0 <= i < self@.len() && key_starts_with(#[trigger] self@[i].key, prefix@)
                        ==> self@[i].key == r->0@.key || lex_lt(self@[i].key, r->0@.key)
            },
            r is None ==> forall|i: int|
                0 <= i < self@.len() ==> !key_starts_with(#[trigger] self@[i].key, prefix@),
    {
        let mut found: Option<usize> = None;
        let mut i: usize = 0;
        while i < self.data.len()
            invariant
                self.wf(),
                0 <= i <= self.data@.len(),
                match found {
                    Some(f) => f < i && key_starts_with(self@[f as int].key, prefix@) && (forall|
                        j: int,
                    |
                        f < j < i ==> !key_starts_with(#[trigger] self@[j].key, prefix@)),
                    None => forall|j: int|
                        0 <= j < i ==> !key_starts_with(#[trigger] self@[j].key, prefix@),
                },
            decreases self.data@.len() - i,
        {
            if starts_with_bytes(self.data[i].key.as_slice(), prefix) {
                found = Some(i);
            }
            i += 1;
        }
        match found {
            Some(f) => {
                proof {
                    assert(self@.contains(self@[f as int]));
                    assert forall|j: int|
                        0 <= j < self@.len() && key_starts_with(#[trigger] self@[j].key, prefix@)
                            implies self@[j].key == self@[f as int].key || lex_lt(
                        self@[j].key,
                        self@[f as int].key,
                    ) by {
                        if j > f {
                            assert(!key_starts_with(self@[j].key, prefix@));
                        }
                    }
                }
                Some(&self.data[f])
            },
            None => None,
        }
    }
}

/// Whether `key` begins with `prefix`.
pub open spec fn key_starts_with(key: Seq<u8>, prefix: Seq<u8>) -> bool {
    key.len() >= prefix.len() && key.take(prefix.len() as int) == prefix
}

/// Decides whether `key` begins with `prefix`.
pub fn starts_with_bytes(key: &[u8], prefix: &[u8]) -> (r: bool)
    ensures
        r == key_starts_with(key@, prefix@),
{
    if key.len() < prefix.len() {
        return false;
    }
    let mut i: usize = 0;
    while i < prefix.len()
        invariant
            0 <= i <= prefix@.len(),
            prefix@.len() <= key@.len(),
            forall|j: int| 0 <= j < i ==> key@[j] == prefix@[j],
        decreases prefix@.len() - i,
    {
        if key[i] != prefix[i] {
            assert(key@.take(prefix@.len() as int)[i as int] != prefix@[i as int]);
            return false;
        }
        i += 1;
    }
    assert(key@.take(prefix@.len() as int) =~= prefix@);
    true
}

/// Replacing the entry at `idx`, whose key is `k`, keeps the table sorted and
/// updates the keyed view at `k` alone.
proof fn lemma_replace_at(pre: Seq<RecordData>, post: Seq<RecordData>, idx: int, k: Seq<u8>)
    requires
        sorted_by_key(pre),
        0 <= idx < pre.len(),
        post.len() == pre.len(),
        pre[idx].key == k,
        post[idx].key == k,
        forall|j: int| 0 <= j < pre.len() && j != idx ==> post[j] == pre[j],
    ensures
        sorted_by_key(post),
        records_as_map(post) == records_as_map(pre).insert(k, post[idx]),
        post.to_set() == pre.filter(|r: RecordData| r.key != k).to_set().insert(post[idx]),
{
    assert forall|i: int, j: int| 0 <= i < j < post.len() implies lex_lt(
        post[i].key,
        post[j].key,
    ) by {
        assert(lex_lt(pre[i].key, pre[j].key));
    }
    lemma_no_dup_keys(pre);
    assert forall|i: int| 0 <= i < pre.len() && i != idx implies pre[i].key != k by {
        lemma_lex_lt_ne(pre[if i < idx { i } else { idx }].key, pre[if i < idx { idx } else { i }].key);
    }
    assert(records_as_map(post) =~= records_as_map(pre).insert(k, post[idx])) by {
        assert forall|key: Seq<u8>| records_as_map(pre).contains_key(key) implies records_as_map(
            post,
        ).contains_key(key) by {
            let i = choose|i: int| 0 <= i < pre.len() && pre[i].key == key;
            assert(post[i].key == key);
        }
        assert forall|key: Seq<u8>| records_as_map(post).contains_key(key) implies records_as_map(
            pre,
        ).contains_key(key) by {
            let i = choose|i: int| 0 <= i < post.len() && post[i].key == key;
            assert(pre[i].key == key);
        }
        lemma_key_unique(post, k);
        assert forall|key: Seq<u8>| records_as_map(post).contains_key(key) && key != k
            implies records_as_map(post)[key] == records_as_map(pre)[key] by {
            lemma_key_unique(post, key);
            lemma_key_unique(pre, key);
            let i = choose|i: int| 0 <= i < post.len() && post[i].key == key;
            assert(pre[i].key == key);
        }
    }
    assert(post.to_set() =~= pre.filter(|r: RecordData| r.key != k).to_set().insert(post[idx]))
        by {
        lemma_filter_toset(pre, |r: RecordData| r.key != k);
        assert forall|x: RecordData| post.to_set().contains(x) implies pre.filter(
            |r: RecordData| r.key != k,
        ).to_set().contains(x) || x == post[idx] by {
            let i = choose|i: int| 0 <= i < post.len() && post[i] == x;
            if i != idx {
                assert(pre[i] == x);
                assert(pre.to_set().contains(x));
                assert(x.key != k);
            }
        }
        assert forall|x: RecordData| pre.to_set().contains(x) && x.key != k implies post.to_set()
            .contains(x) by {
            let i = choose|i: int| 0 <= i < pre.len() && pre[i] == x;
            assert(post[i] == x);
            assert(post.contains(x));
        }
        assert(post.to_set().contains(post[idx])) by {
            assert(post.contains(post[idx]));
        }
    }
}

/// Inserting an entry with key `k` at position `idx`, between smaller and
/// larger keys, keeps the table sorted and extends the keyed view at `k`.
proof fn lemma_insert_at(pre: Seq<RecordData>, post: Seq<RecordData>, idx: int, k: Seq<u8>)
    requires
        sorted_by_key(pre),
        0 <= idx <= pre.len(),
        post.len() == pre.len() + 1,
        post[idx].key == k,
        forall|j: int| 0 <= j < idx ==> post[j] == pre[j],
        forall|j: int| idx < j < post.len() ==> post[j] == pre[j - 1],
        forall|j: int| 0 <= j < idx ==> lex_lt(#[trigger] pre[j].key, k),
        forall|j: int| idx <= j < pre.len() ==> lex_lt(k, #[trigger] pre[j].key),
    ensures
        sorted_by_key(post),
        records_as_map(post) == records_as_map(pre).insert(k, post[idx]),
        post.to_set() == pre.filter(|r: RecordData| r.key != k).to_set().insert(post[idx]),
{
    assert forall|i: int, j: int| 0 <= i < j < post.len() implies lex_lt(
        post[i].key,
        post[j].key,
    ) by {}
    assert forall|i: int| 0 <= i < pre.len() implies pre[i].key != k by {
        lemma_lex_lt_ne(if i < idx { pre[i].key } else { k }, if i < idx { k } else { pre[i].key });
    }
    assert(records_as_map(post) =~= records_as_map(pre).insert(k, post[idx])) by {
        assert forall|key: Seq<u8>| records_as_map(pre).contains_key(key) implies records_as_map(
            post,
        ).contains_key(key) by {
            let i = choose|i: int| 0 <= i < pre.len() && pre[i].key == key;
            if i < idx {
                assert(post[i].key == key);
            } else {
                assert(post[i + 1].key == key);
            }
        }
        assert forall|key: Seq<u8>| records_as_map(post).contains_key(key) && key != k
            implies records_as_map(pre).contains_key(key) by {
            let i = choose|i: int| 0 <= i < post.len() && post[i].key == key;
            if i < idx {
                assert(pre[i].key == key);
            } else {
                assert(pre[i - 1].key == key);
            }
        }
        lemma_no_dup_keys(post);
        assert forall|key: Seq<u8>| records_as_map(post).contains_key(key) && key != k
            implies records_as_map(post)[key] == records_as_map(pre)[key] by {
            let i = choose|i: int| 0 <= i < post.len() && post[i].key == key;
            let ip = choose|j: int| 0 <= j < pre.len() && pre[j].key == key;
            lemma_key_unique(post, key);
            lemma_key_unique(pre, key);
            if i < idx {
                assert(pre[i].key == key);
            } else {
                assert(pre[i - 1].key == key);
            }
        }
        lemma_key_unique(post, k);
    }
    assert(post.to_set() =~= pre.filter(|r: RecordData| r.key != k).to_set().insert(post[idx]))
        by {
        lemma_filter_toset(pre, |r: RecordData| r.key != k);
        assert forall|x: RecordData| post.to_set().contains(x) implies pre.filter(
            |r: RecordData| r.key != k,
        ).to_set().contains(x) || x == post[idx] by {
            let i = choose|i: int| 0 <= i < post.len() && post[i] == x;
            if i != idx {
                let j: int = if i < idx { i } else { i - 1 };
                assert(pre[j] == x);
            }
        }
        assert forall|x: RecordData| pre.to_set().contains(x) && x.key != k implies post.to_set()
            .contains(x) by {
            let i = choose|i: int| 0 <= i < pre.len() && pre[i] == x;
            if i < idx {
                assert(post[i] == x);
            } else {
                assert(post[i + 1] == x);
            }
        }
    }
}

/// In a sorted table no two entries share a key.
proof fn lemma_no_dup_keys(s: Seq<RecordData>)
    requires
        sorted_by_key(s),
    ensures
        forall|i: int, j: int| 0 <= i < j < s.len() ==> s[i].key != s[j].key,
{
    assert forall|i: int, j: int| 0 <= i < j < s.len() implies s[i].key != s[j].key by {
        lemma_lex_lt_ne(s[i].key, s[j].key);
    }
}

/// In a sorted table the entry holding a key is unique.
proof fn lemma_key_unique(s: Seq<RecordData>, k: Seq<u8>)
    requires
        sorted_by_key(s),
    ensures
        forall|i: int, j: int|
            0 <= i < s.len() && 0 <= j < s.len() && s[i].key == k && s[j].key == k ==> i == j,
{
    lemma_no_dup_keys(s);
    assert forall|i: int, j: int|
        0 <= i < s.len() && 0 <= j < s.len() && s[i].key == k && s[j].key == k implies i == j by {
        if i < j {
            assert(s[i].key != s[j].key);
        }
        if j < i {
            assert(s[j].key != s[i].key);
        }
    }
}

/// Membership in a filtered record sequence.
proof fn lemma_filter_toset(s: Seq<RecordData>, pred: spec_fn(RecordData) -> bool)
    ensures
        forall|x: RecordData|
            s.filter(pred).to_set().contains(x) <==> (s.to_set().contains(x) && pred(x)),
    decreases s.len(),
{
    reveal(Seq::filter);
    if s.len() > 0 {
        lemma_filter_toset(s.drop_last(), pred);
        assert forall|x: RecordData|
            s.filter(pred).to_set().contains(x) <==> (s.to_set().contains(x) && pred(x)) by {
            assert(s.drop_last().to_set().contains(x) || s.last() == x <==> s.to_set().contains(
                x,
            )) by {
                if s.to_set().contains(x) {
                    let i = choose|i: int| 0 <= i < s.len() && s[i] == x;
                    if i < s.len() - 1 {
                        assert(s.drop_last()[i] == x);
                    }
                }
                if s.drop_last().to_set().contains(x) {
                    let i = choose|i: int| 0 <= i < s.drop_last().len() && s.drop_last()[i] == x;
                    assert(s[i] == x);
                }
            }
            if pred(s.last()) {
                assert(s.filter(pred) == s.drop_last().filter(pred).push(s.last()));
                if s.filter(pred).to_set().contains(x) {
                    let i = choose|i: int| 0 <= i < s.filter(pred).len() && s.filter(pred)[i] == x;
                    if i < s.filter(pred).len() - 1 {
                        assert(s.drop_last().filter(pred)[i] == x);
                        assert(s.drop_last().filter(pred).to_set().contains(x));
                    }
                }
                if s.drop_last().filter(pred).to_set().contains(x) {
                    let i = choose|i: int|
                        0 <= i < s.drop_last().filter(pred).len() && s.drop_last().filter(pred)[i]
                            == x;
                    assert(s.filter(pred)[i] == x);
                }
            } else {
                assert(s.filter(pred) == s.drop_last().filter(pred));
            }
        }
    }
}

} // verus!
