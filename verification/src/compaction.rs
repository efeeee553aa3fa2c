use vstd::prelude::*;

use crate::crypto::now_millis;
use crate::memtable::MemTable;
use crate::memtable::records_as_map;
use crate::memtable::sorted_by_key;
use crate::record::RecordData;
use crate::sstable::SSTable;
use crate::util::lemma_lex_lt_ne;

verus! {

broadcast use vstd::seq_lib::group_seq_properties;

/// The contents of one level: its tables' keyed views merged, a later (newer)
/// table overriding an earlier one on a shared key.
pub open spec fn level_contents(ts: Seq<Seq<RecordData>>) -> Map<Seq<u8>, RecordData>
    decreases ts.len(),
{
    if ts.len() == 0 {
        Map::empty()
    } else {
        level_contents(ts.drop_last()).union_prefer_right(records_as_map(ts.last()))
    }
}

/// The contents of a whole level stack: a lower (newer) level overrides a
/// higher one on a shared key.
pub open spec fn total_contents(ls: Seq<Seq<Seq<RecordData>>>) -> Map<Seq<u8>, RecordData>
    decreases ls.len(),
{
    if ls.len() == 0 {
        Map::empty()
    } else {
        total_contents(ls.drop_first()).union_prefer_right(level_contents(ls.first()))
    }
}

/// The number of runs at the level after `level` once `level` is merged into
/// it: one new run lands there exactly when `level` holds any record.
pub open spec fn spec_runs_after_merge(c: Compactor, level: int) -> int {
    c@[level + 1].len() + (if level_contents(c@[level]) == Map::<Seq<u8>, RecordData>::empty() {
        0int
    } else {
        1int
    })
}

/// Whether merging `level` down leaves the next level over its file
/// threshold, so that compaction cascades onwards.
pub open spec fn spec_cascade_fires(c: Compactor, level: int) -> bool {
    spec_runs_after_merge(c, level) > c.spec_threshold(level + 1) as int
}

/// The leveled compactor: a stack of levels, each holding sorted runs, with a
/// file-count threshold per level.
#[derive(Debug)]
pub struct Compactor {
    data_dir: String,
    levels: Vec<Vec<SSTable>>,
    max_level_size: Vec<usize>,
}

impl View for Compactor {
    type V = Seq<Seq<Seq<RecordData>>>;

    /// The record contents of every table of every level.
    closed spec fn view(&self) -> Seq<Seq<Seq<RecordData>>> {
        self.levels@.map(
            |i: int, lv: Vec<SSTable>| lv@.map(|j: int, t: SSTable| t@),
        )
    }
}

impl Compactor {
    /// Levels and thresholds line up, and every table is a sorted run.
    pub closed spec fn wf(&self) -> bool {
        &&& self.levels@.len() == self.max_level_size@.len()
        &&& forall|i: int, j: int|
            0 <= i < self.levels@.len() && 0 <= j < self.levels@[i]@.len()
                ==> (#[trigger] self.levels@[i]@[j]).wf()
    }

    /// The per-level file-count threshold.
    pub closed spec fn spec_threshold(&self, level: int) -> usize {
        self.max_level_size@[level]
    }

    /// A fresh compactor: seven empty levels with growing thresholds.
    pub fn new(data_dir: &str) -> (r: Self)
        ensures
            r.wf(),
            r@.len() == 7,
            forall|i: int| 0 <= i < 7 ==> (#[trigger] r@[i]).len() == 0,
            r.spec_threshold(0) == 10,
            r.spec_threshold(1) == 100,
            r.spec_threshold(2) == 1000,
            r.spec_threshold(3) == 10000,
            r.spec_threshold(4) == 100000,
            r.spec_threshold(5) == 1000000,
            r.spec_threshold(6) == 10000000,
    {
        let mut levels: Vec<Vec<SSTable>> = Vec::new();
        let mut i: usize = 0;
        while i < 7
            invariant
                0 <= i <= 7,
                levels@.len() == i,
                forall|j: int| 0 <= j < i ==> (#[trigger] levels@[j])@.len() == 0,
            decreases 7 - i,
        {
            levels.push(Vec::new());
            i += 1;
        }
        let mut max_level_size: Vec<usize> = Vec::new();
        max_level_size.push(10);
        max_level_size.push(100);
        max_level_size.push(1000);
        max_level_size.push(10000);
        max_level_size.push(100000);
        max_level_size.push(1000000);
        max_level_size.push(10000000);
        Compactor { data_dir: data_dir.to_owned(), levels, max_level_size }
    }

    /// Registers a sorted run at the given level; a level beyond the stack is
    /// ignored.
    pub fn add_sstable(&mut self, sstable: SSTable, level: usize)
        requires
            old(self).wf(),
            sstable.wf(),
        ensures
            final(self).wf(),
            final(self)@.len() == old(self)@.len(),
            level < old(self)@.len() ==> {
                &&& final(self)@[level as int] == old(self)@[level as int].push(sstable@)
                &&& forall|i: int|
                    0 <= i < old(self)@.len() && i != level ==> final(self)@[i] == old(self)@[i]
            },
            level >= old(self)@.len() ==> final(self)@ == old(self)@,
    {
        if level < self.levels.len() {
            let mut lv = self.levels.remove(level);
            lv.push(sstable);
            self.levels.insert(level, lv);
            proof {
                assert(final(self)@[level as int] =~= old(self)@[level as int].push(sstable@));
                assert forall|i: int|
                    0 <= i < old(self)@.len() && i != level implies final(self)@[i] == old(self)@[i] by {
                    if i < level {
                        assert(self.levels@[i] == old(self).levels@[i]);
                    } else {
                        assert(self.levels@[i] == old(self).levels@[i]);
                    }
                }
            }
        }
    }

    /// Whether the level holds more files than its threshold allows.
    pub fn needs_compaction(&self, level: usize) -> (r: bool)
        requires
            self.wf(),
        ensures
            r == (level < self@.len() && self@[level as int].len() > self.spec_threshold(
                level as int,
            )),
    {
        if level >= self.levels.len() {
            return false;
        }
        self.levels[level].len() > self.max_level_size[level]
    }

    /// The number of files at each level.
    pub fn get_level_info(&self) -> (r: Vec<usize>)
        ensures
            r@.len() == self@.len(),
            forall|i: int| 0 <= i < r@.len() ==> r@[i] == (#[trigger] self@[i]).len(),
    {
        let mut r: Vec<usize> = Vec::new();
        let mut i: usize = 0;
        while i < self.levels.len()
            invariant
                0 <= i <= self.levels@.len(),
                r@.len() == i,
                forall|j: int| 0 <= j < i ==> r@[j] == (#[trigger] self@[j]).len(),
            decreases self.levels@.len() - i,
        {
            r.push(self.levels[i].len());
            i += 1;
        }
        r
    }

    /// Merges every run at `level` into one new run at `level + 1`, the
    /// newest run winning on a shared key, then cascades while the next level
    /// overflows. No record of any other key is lost: the stack's combined
    /// contents are unchanged. Unless a cascade consumed it, the next level
    /// gains exactly one sorted run holding the compacted level's contents;
    /// every compacted level ends at or under its file threshold.
    pub fn compact_level(&mut self, level: usize)
        requires
            old(self).wf(),
        ensures
            final(self).wf(),
            final(self)@.len() == old(self)@.len(),
            forall|l: int|
                0 <= l < old(self)@.len() ==> final(self).spec_threshold(l) == old(self).spec_threshold(l),
            total_contents(final(self)@) == total_contents(old(self)@),
            forall|j: int| 0 <= j < level ==> final(self)@[j] == old(self)@[j],
            level + 1 >= old(self)@.len() ==> final(self)@ == old(self)@,
            level + 1 < old(self)@.len() ==> final(self)@[level as int].len() == 0,
            level + 1 < old(self)@.len() && (!spec_cascade_fires(*old(self), level as int) || level
                + 2 >= old(self)@.len()) ==> {
                &&& (level_contents(old(self)@[level as int]) == Map::<
                    Seq<u8>,
                    RecordData,
                >::empty() ==> final(self)@[level as int + 1] == old(self)@[level as int + 1])
                &&& (level_contents(old(self)@[level as int]) != Map::<
                    Seq<u8>,
                    RecordData,
                >::empty() ==> {
                    &&& final(self)@[level as int + 1].len() == old(self)@[level as int
                        + 1].len() + 1
                    &&& final(self)@[level as int + 1].drop_last() == old(self)@[level as int + 1]
                    &&& sorted_by_key(final(self)@[level as int + 1].last())
                    &&& records_as_map(final(self)@[level as int + 1].last()) == level_contents(
                        old(self)@[level as int],
                    )
                })
                &&& forall|j: int|
                    level + 1 < j < old(self)@.len() ==> final(self)@[j] == old(self)@[j]
            },
            level + 2 < old(self)@.len() && spec_cascade_fires(*old(self), level as int) ==> final(self)@[level as int + 1].len() == 0,
            level + 2 < old(self)@.len() ==> final(self)@[level as int + 1].len() as int <= old(self).spec_threshold(level as int + 1) as int,
            forall|l: int|
                level < l < old(self)@.len() - 1 ==> (#[trigger] final(self)@[l]).len() as int
                    <= old(self).spec_threshold(l) as int || final(self)@[l] == old(self)@[l],
        decreases old(self)@.len() - level,
    {
        if level >= self.levels.len() || level + 1 >= self.levels.len() {
            return;
        }
        let ghost pre = self@;
        let mut merged = MemTable::new();
        proof {
            assert(merged.as_map() =~= level_contents(self@[level as int].take(0)));
        }
        let level_vec_len = self.levels[level].len();
        let mut ti: usize = 0;
        while ti < level_vec_len
            invariant
                self.wf(),
                *self == *old(self),
                level + 1 < self.levels@.len(),
                level_vec_len == self.levels@[level as int]@.len(),
                0 <= ti <= level_vec_len,
                merged.wf(),
                merged.as_map() == level_contents(self@[level as int].take(ti as int)),
            decreases level_vec_len - ti,
        {
            let ghost base = merged.as_map();
            insert_table(&mut merged, &self.levels[level][ti]);
            proof {
                assert(self@[level as int].take(ti as int + 1).drop_last() =~= self@[
                    level as int].take(ti as int));
                assert(self@[level as int].take(ti as int + 1).last() == self@[level as int][
                    ti as int]);
            }
            ti += 1;
        }
        proof {
            assert(self@[level as int].take(self@[level as int].len() as int) =~= self@[
                level as int]);
        }
        if merged.len() > 0 {
            let file_id = now_millis();
            let out = SSTable::create_from_memtable(file_id, &merged);
            let mut lv = self.levels.remove(level + 1);
            lv.push(out);
            self.levels.insert(level + 1, lv);
        } else {
            proof {
                assert(merged.as_map() =~= Map::<Seq<u8>, RecordData>::empty());
            }
        }
        let ghost mid = self@;
        self.levels.remove(level);
        self.levels.insert(level, Vec::new());
        proof {
            let post = self@;
            assert(post.len() == pre.len());
            assert(post[level as int] =~~= Seq::<Seq<RecordData>>::empty());
            assert forall|j: int| 0 <= j < pre.len() && j != level && j != level + 1
                implies post[j] == pre[j] by {
                assert(self.levels@[j] == old(self).levels@[j]);
            }
            if merged@.len() > 0 {
                assert(post[level as int + 1] =~~= pre[level as int + 1].push(merged@));
                lemma_level_push(pre[level as int + 1], merged@);
                assert(records_as_map(merged@) == merged.as_map());
            } else {
                assert(post[level as int + 1] == pre[level as int + 1]);
                assert(level_contents(post[level as int + 1]) =~= level_contents(
                    pre[level as int + 1],
                ).union_prefer_right(merged.as_map()));
            }
            lemma_total_update(pre, post, level as int);
        }
        let ghost cleared = *self;
        proof {
            assert(self.max_level_size@ == old(self).max_level_size@);
            if merged@.len() > 0 {
                assert(records_as_map(merged@).contains_key(merged@[0].key));
                assert(!Map::<Seq<u8>, RecordData>::empty().contains_key(merged@[0].key));
                assert(level_contents(pre[level as int]) != Map::<Seq<u8>, RecordData>::empty());
                assert(cleared@[level as int + 1].len() == pre[level as int + 1].len() + 1);
                assert(cleared@[level as int + 1].drop_last() =~= pre[level as int + 1]);
                assert(cleared@[level as int + 1].last() == merged@);
                assert(sorted_by_key(merged@));
                assert(records_as_map(merged@) == level_contents(pre[level as int]));
            } else {
                assert(level_contents(pre[level as int]) == Map::<Seq<u8>, RecordData>::empty());
                assert(cleared@[level as int + 1] == pre[level as int + 1]);
            }
            assert(cleared@[level as int + 1].len() == spec_runs_after_merge(
                *old(self),
                level as int,
            ));
        }
        if self.needs_compaction(level + 1) {
            proof {
                assert(spec_cascade_fires(*old(self), level as int));
            }
            self.compact_level(level + 1);
            proof {
                assert forall|j: int| 0 <= j < level + 1 implies self@[j] == cleared@[j] by {}
            }
        } else {
            proof {
                assert(!spec_cascade_fires(*old(self), level as int));
            }
        }
    }

    /// Drops every run that holds no records; the levels keep their order.
    pub fn cleanup_empty_levels(&mut self)
        requires
            old(self).wf(),
        ensures
            final(self).wf(),
            final(self)@.len() == old(self)@.len(),
            forall|i: int|
                0 <= i < old(self)@.len() ==> final(self)@[i] == (#[trigger] old(self)@[i]).filter(
                    |t: Seq<RecordData>| t.len() > 0,
                ),
    {
        let mut li: usize = 0;
        while li < self.levels.len()
            invariant
                self.wf(),
                self.levels@.len() == old(self).levels@.len(),
                self.max_level_size@ == old(self).max_level_size@,
                0 <= li <= self.levels@.len(),
                forall|i: int|
                    0 <= i < li ==> self@[i] == (#[trigger] old(self)@[i]).filter(
                        |t: Seq<RecordData>| t.len() > 0,
                    ),
                forall|i: int| li <= i < self@.len() ==> self@[i] == (#[trigger] old(self)@[i]),
            decreases self.levels@.len() - li,
        {
            let lv = self.levels.remove(li);
            let ghost lv_view = lv@.map(|j: int, t: SSTable| t@);
            let mut kept: Vec<SSTable> = Vec::new();
            let mut ti: usize = 0;
            let ghost pred = |t: Seq<RecordData>| t.len() > 0;
            let lv_len = lv.len();
            let mut rest = lv;
            proof {
                reveal(Seq::filter);
                assert(kept@.map(|j: int, t: SSTable| t@) =~= lv_view.take(0).filter(pred));
            }
            while ti < lv_len
                invariant
                    0 <= ti <= lv_len,
                    lv_len == lv_view.len(),
                    pred == (|t: Seq<RecordData>| t.len() > 0),
                    rest@.map(|j: int, t: SSTable| t@) == lv_view.skip(ti as int),
                    rest@.len() == lv_len - ti,
                    kept@.map(|j: int, t: SSTable| t@) == lv_view.take(ti as int).filter(pred),
                    forall|j: int| 0 <= j < rest@.len() ==> (#[trigger] rest@[j]).wf(),
                    forall|j: int| 0 <= j < kept@.len() ==> (#[trigger] kept@[j]).wf(),
                decreases lv_len - ti,
            {
                let ghost prev_rest = rest@;
                let t = rest.remove(0);
                proof {
                    let f = |j: int, t2: SSTable| t2@;
                    assert(prev_rest.map(f)[0] == lv_view.skip(ti as int)[0]);
                    assert(t@ == lv_view[ti as int]);
                    assert(rest@ =~= prev_rest.skip(1));
                    assert forall|j: int| 0 <= j < rest@.len() implies rest@.map(f)[j]
                        == lv_view.skip(ti as int + 1)[j] by {
                        assert(prev_rest.map(f)[j + 1] == lv_view.skip(ti as int)[j + 1]);
                    }
                    assert(rest@.map(f) =~= lv_view.skip(ti as int + 1));
                    reveal(Seq::filter);
                    assert(lv_view.take(ti as int + 1).drop_last() =~= lv_view.take(ti as int));
                    assert(lv_view.take(ti as int + 1).last() == lv_view[ti as int]);
                }
                let ghost prev_kept = kept@;
                if t.size() > 0 {
                    kept.push(t);
                    proof {
                        assert(kept@.map(|j: int, t2: SSTable| t2@) =~= prev_kept.map(
                            |j: int, t2: SSTable| t2@,
                        ).push(lv_view[ti as int]));
                    }
                }
                ti += 1;
            }
            proof {
                assert(lv_view.take(lv_view.len() as int) =~= lv_view);
            }
            self.levels.insert(li, kept);
            proof {
                assert(self@[li as int] =~~= lv_view.filter(pred));
            }
            li += 1;
        }
    }
}

/// Inserts every record of a sorted run into the accumulator: the result maps
/// each key as the run does, keys absent from the run staying as they were.
fn insert_table(merged: &mut MemTable, table: &SSTable)
    requires
        old(merged).wf(),
        table.wf(),
    ensures
        final(merged).wf(),
        final(merged).as_map() == old(merged).as_map().union_prefer_right(table.as_map()),
{
    let records = table.records();
    let ghost tv = table@;
    let mut i: usize = 0;
    proof {
        assert(old(merged).as_map().union_prefer_right(records_as_map(tv.take(0)))
            =~= old(merged).as_map()) by {
            assert(records_as_map(tv.take(0)) =~= Map::<Seq<u8>, RecordData>::empty());
        }
    }
    while i < records.len()
        invariant
            merged.wf(),
            table.wf(),
            records@.map(|j: int, rec: crate::record::Record| rec@) == tv,
            tv == table@,
            0 <= i <= records@.len(),
            merged.as_map() == old(merged).as_map().union_prefer_right(
                records_as_map(tv.take(i as int)),
            ),
        decreases records@.len() - i,
    {
        let rec = crate::memtable::duplicate_record(&records[i]);
        proof {
            assert(rec@ == tv[i as int]);
        }
        merged.insert(rec);
        proof {
            lemma_sorted_map_take_step(tv, i as int);
            assert(old(merged).as_map().union_prefer_right(records_as_map(tv.take(i as int)))
                .insert(tv[i as int].key, tv[i as int]) =~= old(merged).as_map()
                .union_prefer_right(
                records_as_map(tv.take(i as int)).insert(tv[i as int].key, tv[i as int]),
            ));
        }
        i += 1;
    }
    proof {
        assert(tv.take(tv.len() as int) =~= tv);
    }
}

/// For a sorted run, the keyed view of one more entry is the previous view
/// with that entry inserted.
proof fn lemma_sorted_map_take_step(tv: Seq<RecordData>, i: int)
    requires
        sorted_by_key(tv),
        0 <= i < tv.len(),
    ensures
        records_as_map(tv.take(i + 1)) == records_as_map(tv.take(i)).insert(tv[i].key, tv[i]),
{
    let a = tv.take(i);
    let b = tv.take(i + 1);
    assert forall|j: int, l: int| 0 <= j < l < b.len() implies b[j].key != b[l].key by {
        lemma_lex_lt_ne(tv[j].key, tv[l].key);
    }
    assert(records_as_map(b) =~= records_as_map(a).insert(tv[i].key, tv[i])) by {
        assert forall|k: Seq<u8>| records_as_map(a).contains_key(k) implies records_as_map(b)
            .contains_key(k) by {
            let w = choose|w: int| 0 <= w < a.len() && a[w].key == k;
            assert(b[w].key == k);
        }
        assert(b[i].key == tv[i].key);
        assert forall|k: Seq<u8>| records_as_map(b).contains_key(k) && k != tv[i].key
            implies records_as_map(a).contains_key(k) by {
            let w = choose|w: int| 0 <= w < b.len() && b[w].key == k;
            assert(w != i);
            assert(a[w].key == k);
        }
        assert forall|k: Seq<u8>| records_as_map(b).contains_key(k) && k != tv[i].key
            implies records_as_map(b)[k] == records_as_map(a)[k] by {
            let w = choose|w: int| 0 <= w < b.len() && b[w].key == k;
            let wa = choose|w2: int| 0 <= w2 < a.len() && a[w2].key == k;
            assert(b[wa].key == k);
            if w != wa {
                assert(b[w].key != b[wa].key);
            }
            assert(records_as_map(b)[k] == b[choose|w2: int|
                0 <= w2 < b.len() && b[w2].key == k]);
        }
        assert(records_as_map(b).contains_key(tv[i].key));
        assert forall|w: int| 0 <= w < b.len() && b[w].key == tv[i].key implies b[w] == tv[i] by {
            if w != i {
                assert(b[w].key != b[i].key);
            }
        }
    }
}

/// Appending a run to a level folds its map in on the right.
proof fn lemma_level_push(ts: Seq<Seq<RecordData>>, t: Seq<RecordData>)
    ensures
        level_contents(ts.push(t)) == level_contents(ts).union_prefer_right(records_as_map(t)),
{
    assert(ts.push(t).drop_last() =~= ts);
    assert(ts.push(t).last() == t);
}

/// A level holding a single run holds exactly that run's records: compacting
/// such a level changes no contents.
pub proof fn lemma_single_run_contents(t: Seq<RecordData>)
    ensures
        level_contents(seq![t]) == records_as_map(t),
{
    assert(seq![t].drop_last() =~= Seq::<Seq<RecordData>>::empty());
    assert(seq![t].last() == t);
    assert(level_contents(Seq::<Seq<RecordData>>::empty()).union_prefer_right(records_as_map(t))
        =~= records_as_map(t));
}

/// `union_prefer_right` is associative.
proof fn lemma_upr_assoc(a: Map<Seq<u8>, RecordData>, b: Map<Seq<u8>, RecordData>, c: Map<Seq<u8>, RecordData>)
    ensures
        a.union_prefer_right(b).union_prefer_right(c) == a.union_prefer_right(
            b.union_prefer_right(c),
        ),
{
    assert(a.union_prefer_right(b).union_prefer_right(c) =~= a.union_prefer_right(
        b.union_prefer_right(c),
    ));
}

/// Emptying level `l` into level `l + 1`, with the merged run folded in as
/// the newest there, keeps the stack's combined contents.
proof fn lemma_total_update(
    pre: Seq<Seq<Seq<RecordData>>>,
    post: Seq<Seq<Seq<RecordData>>>,
    l: int,
)
    requires
        pre.len() == post.len(),
        0 <= l,
        l + 1 < pre.len(),
        forall|j: int| 0 <= j < pre.len() && j != l && j != l + 1 ==> post[j] == pre[j],
        post[l].len() == 0,
        level_contents(post[l + 1]) == level_contents(pre[l + 1]).union_prefer_right(
            level_contents(pre[l]),
        ),
    ensures
        total_contents(post) == total_contents(pre),
    decreases l,
{
    if l == 0 {
        let t2_pre = total_contents(pre.drop_first().drop_first());
        let t2_post = total_contents(post.drop_first().drop_first());
        assert(pre.drop_first().drop_first() =~= post.drop_first().drop_first());
        assert(pre.first() == pre[0]);
        assert(post.first() == post[0]);
        assert(pre.drop_first().first() == pre[1]);
        assert(post.drop_first().first() == post[1]);
        assert(total_contents(pre) == total_contents(pre.drop_first()).union_prefer_right(
            level_contents(pre[0]),
        ));
        assert(total_contents(pre.drop_first()) == t2_pre.union_prefer_right(
            level_contents(pre[1]),
        ));
        lemma_upr_assoc(t2_pre, level_contents(pre[1]), level_contents(pre[0]));
        assert(level_contents(post[0]) =~= Map::<Seq<u8>, RecordData>::empty()) by {
            assert(post[0].len() == 0);
        }
        assert(total_contents(post) == total_contents(post.drop_first()).union_prefer_right(
            level_contents(post[0]),
        ));
        assert(total_contents(post.drop_first()) == t2_post.union_prefer_right(
            level_contents(post[1]),
        ));
        assert(t2_post.union_prefer_right(level_contents(post[1])).union_prefer_right(
            level_contents(post[0]),
        ) =~= t2_post.union_prefer_right(level_contents(post[1])));
    } else {
        assert(pre.drop_first().len() == post.drop_first().len());
        assert forall|j: int|
            0 <= j < pre.drop_first().len() && j != l - 1 && j != l implies post.drop_first()[j]
            == pre.drop_first()[j] by {
            assert(post.drop_first()[j] == post[j + 1]);
            assert(pre.drop_first()[j] == pre[j + 1]);
        }
        assert(post.drop_first()[l - 1] == post[l]);
        assert(post.drop_first()[l] == post[l + 1]);
        assert(pre.drop_first()[l - 1] == pre[l]);
        assert(pre.drop_first()[l] == pre[l + 1]);
        lemma_total_update(pre.drop_first(), post.drop_first(), l - 1);
        assert(post.first() == pre.first());
    }
}

} // verus!
