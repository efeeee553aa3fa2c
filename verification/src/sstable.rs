use vstd::prelude::*;

use crate::memtable::MemTable;
use crate::memtable::duplicate_record;
use crate::memtable::records_as_map;
use crate::memtable::sorted_by_key;
use crate::record::Record;
use crate::record::RecordData;
use crate::util::bytes_eq;
use crate::util::extend_bytes;
use crate::util::spec_u64_to_be_bytes;
use crate::util::u64_from_be_bytes;
use crate::util::u64_to_be_bytes;
use crate::wal_format::decode_frames;
use crate::wal_format::encode_frames;
use crate::wal_format::payload_views;
use crate::wal_format::spec_decode;
use crate::wal_format::spec_frames;
use crate::util::bytes_lt;
use crate::util::lemma_lex_lt_ne;
use crate::util::lex_lt;

verus! {

/// One entry of an on-disk table index: where a record's frame lies in the
/// file and how long it is.
#[derive(Clone, Debug)]
pub struct IndexEntry {
    pub key: Vec<u8>,
    pub offset: u64,
    pub size: u32,
}

/// An immutable sorted run of records. Once created, its contents never
/// change.
#[derive(Debug)]
pub struct SSTable {
    file_id: u64,
    data: Vec<Record>,
}

impl View for SSTable {
    type V = Seq<RecordData>;

    /// The records held, in strictly increasing key order.
    closed spec fn view(&self) -> Seq<RecordData> {
        self.data@.map(|i: int, r: Record| r@)
    }
}

impl SSTable {
    /// The keys are strictly sorted, so each key occurs at most once.
    pub open spec fn wf(&self) -> bool {
        sorted_by_key(self@)
    }

    /// The keyed view of the table.
    pub open spec fn as_map(&self) -> Map<Seq<u8>, RecordData> {
        records_as_map(self@)
    }

    /// The identifier under which the run's file is named.
    pub closed spec fn spec_file_id(&self) -> u64 {
        self.file_id
    }

    /// Writes out a memtable as a new sorted run: the run holds exactly the
    /// memtable's records, in the same key order.
    pub fn create_from_memtable(file_id: u64, memtable: &MemTable) -> (r: SSTable)
        requires
            memtable.wf(),
        ensures
            r@ == memtable@,
            r.wf(),
            r.spec_file_id() == file_id,
    {
        let data = memtable.iter();
        let r = SSTable { file_id, data };
        proof {
            assert(r@ =~= memtable@);
        }
        r
    }

    /// Builds a run directly from a sorted record vector.
    pub fn from_sorted_records(file_id: u64, data: Vec<Record>) -> (r: SSTable)
        requires
            sorted_by_key(data@.map(|i: int, rec: Record| rec@)),
        ensures
            r@ == data@.map(|i: int, rec: Record| rec@),
            r.wf(),
            r.spec_file_id() == file_id,
    {
        SSTable { file_id, data }
    }

    /// The file identifier.
    pub fn file_id(&self) -> (r: u64)
        ensures
            r == self.spec_file_id(),
    {
        self.file_id
    }

    /// Looks a key up in the run.
    pub fn get(&self, key: &[u8]) -> (r: Option<&Record>)
        requires
            self.wf(),
        ensures
            r is Some <==> self.as_map().contains_key(key@),
            r is Some ==> r->0@ == self.as_map()[key@],
    {
        let mut i: usize = 0;
        while i < self.data.len()
            invariant
                self.wf(),
                0 <= i <= self.data@.len(),
                forall|j: int| 0 <= j < i ==> self@[j].key != key@,
            decreases self.data@.len() - i,
        {
            if bytes_eq(self.data[i].key.as_slice(), key) {
                proof {
                    assert(self@[i as int].key == key@);
                    assert(self.as_map().contains_key(key@));
                    let w = choose|w: int| 0 <= w < self@.len() && self@[w].key == key@;
                    if w != i {
                        lemma_lex_lt_ne(
                            self@[if w < i { w } else { i as int }].key,
                            self@[if w < i { i as int } else { w }].key,
                        );
                    }
                }
                return Some(&self.data[i]);
            }
            i += 1;
        }
        proof {
            if self.as_map().contains_key(key@) {
                let w = choose|w: int| 0 <= w < self@.len() && self@[w].key == key@;
            }
        }
        None
    }

    /// Whether the run holds the key.
    pub fn contains_key(&self, key: &[u8]) -> (r: bool)
        requires
            self.wf(),
        ensures
            r == self.as_map().contains_key(key@),
    {
        self.get(key).is_some()
    }

    /// The records whose keys lie in `[start, end)`, in key order.
    pub fn scan_range(&self, start: &[u8], end: &[u8]) -> (r: Vec<Record>)
        requires
            self.wf(),
        ensures
            r@.map(|i: int, rec: Record| rec@) == self@.filter(
                |rec: RecordData| !lex_lt(rec.key, start@) && lex_lt(rec.key, end@),
            ),
    {
        let mut r: Vec<Record> = Vec::new();
        let mut i: usize = 0;
        let ghost pred = |rec: RecordData| !lex_lt(rec.key, start@) && lex_lt(rec.key, end@);
        proof {
            reveal(Seq::filter);
            assert(r@.map(|j: int, rec: Record| rec@) =~= self@.take(0).filter(pred));
        }
        while i < self.data.len()
            invariant
                0 <= i <= self.data@.len(),
                pred == (|rec: RecordData| !lex_lt(rec.key, start@) && lex_lt(rec.key, end@)),
                r@.map(|j: int, rec: Record| rec@) == self@.take(i as int).filter(pred),
            decreases self.data@.len() - i,
        {
            let in_range = !bytes_lt(self.data[i].key.as_slice(), start) && bytes_lt(
                self.data[i].key.as_slice(),
                end,
            );
            proof {
                reveal(Seq::filter);
                assert(self@.take(i as int + 1).drop_last() =~= self@.take(i as int));
                assert(self@.take(i as int + 1).last() == self@[i as int]);
            }
            if in_range {
                r.push(duplicate_record(&self.data[i]));
                proof {
                    assert(r@.map(|j: int, rec: Record| rec@) =~= self@.take(i as int).filter(
                        pred,
                    ).push(self@[i as int]));
                }
            }
            i += 1;
        }
        proof {
            assert(self@.take(self@.len() as int) =~= self@);
        }
        r
    }

    /// The keys of the run, in order.
    pub fn iter(&self) -> (r: Vec<Vec<u8>>)
        ensures
            r@.map(|i: int, k: Vec<u8>| k@) == self@.map(|i: int, rec: RecordData| rec.key),
    {
        let mut r: Vec<Vec<u8>> = Vec::new();
        let mut i: usize = 0;
        while i < self.data.len()
            invariant
                0 <= i <= self.data@.len(),
                r@.map(|j: int, k: Vec<u8>| k@) == self@.take(i as int).map(
                    |j: int, rec: RecordData| rec.key,
                ),
            decreases self.data@.len() - i,
        {
            let ghost prev = r@;
            r.push(self.data[i].key.clone());
            proof {
                let f = |j: int, k: Vec<u8>| k@;
                let g = |j: int, rec: RecordData| rec.key;
                assert(r@.last()@ =~= self@[i as int].key);
                assert(r@.map(f) =~= prev.map(f).push(self@[i as int].key));
                assert(self@.take(i as int).map(g).push(self@[i as int].key) =~= self@.take(
                    i as int + 1,
                ).map(g));
            }
            i += 1;
        }
        proof {
            assert(self@.take(self@.len() as int) =~= self@);
            assert(self@.take(self@.len() as int).map(|j: int, rec: RecordData| rec.key)
                =~= self@.map(|i: int, rec: RecordData| rec.key));
        }
        r
    }

    /// The records of the run, in key order.
    pub fn records(&self) -> (r: Vec<Record>)
        ensures
            r@.map(|i: int, rec: Record| rec@) == self@,
    {
        let mut r: Vec<Record> = Vec::new();
        let mut i: usize = 0;
        while i < self.data.len()
            invariant
                0 <= i <= self.data@.len(),
                r@.map(|j: int, rec: Record| rec@) == self@.take(i as int),
            decreases self.data@.len() - i,
        {
            let ghost prev = r@;
            r.push(duplicate_record(&self.data[i]));
            proof {
                let f = |j: int, rec: Record| rec@;
                assert(r@.map(f) =~= prev.map(f).push(self@[i as int]));
                assert(self@.take(i as int).push(self@[i as int]) =~= self@.take(i as int + 1));
            }
            i += 1;
        }
        proof {
            assert(self@.take(self@.len() as int) =~= self@);
        }
        r
    }

    /// The number of records held.
    pub fn size(&self) -> (r: usize)
        ensures
            r == self@.len(),
    {
        self.data.len()
    }

    /// The smallest key, if the run is non-empty.
    pub fn first_key(&self) -> (r: Option<&Vec<u8>>)
        ensures
            r is Some <==> self@.len() > 0,
            r is Some ==> r->0@ == self@[0].key,
    {
        if self.data.len() > 0 {
            Some(&self.data[0].key)
        } else {
            None
        }
    }

    /// The largest key, if the run is non-empty.
    pub fn last_key(&self) -> (r: Option<&Vec<u8>>)
        ensures
            r is Some <==> self@.len() > 0,
            r is Some ==> r->0@ == self@[self@.len() - 1].key,
    {
        if self.data.len() > 0 {
            Some(&self.data[self.data.len() - 1].key)
        } else {
            None
        }
    }
}

/// The byte image of a run's file: the records' payloads framed in key
/// order, the encoded index, then a sixteen-byte footer holding the index's
/// offset and size as big-endian 64-bit integers.
pub open spec fn spec_table_image(records: Seq<Seq<u8>>, index: Seq<u8>) -> Seq<u8> {
    spec_frames(records) + index + spec_u64_to_be_bytes(
        spec_frames(records).len() as u64,
    ) + spec_u64_to_be_bytes(index.len() as u64)
}

/// Lays a run's file image out from its encoded record payloads, in key
/// order, and its encoded index.
pub fn build_table_image(record_payloads: &Vec<Vec<u8>>, index_payload: &Vec<u8>) -> (r: Vec<u8>)
    requires
        forall|i: int|
            0 <= i < record_payloads@.len() ==> (#[trigger] record_payloads@[i])@.len()
                <= u32::MAX,
    ensures
        r@ == spec_table_image(payload_views(record_payloads@), index_payload@),
{
    let mut r = encode_frames(record_payloads);
    let index_offset = r.len() as u64;
    extend_bytes(&mut r, index_payload.as_slice());
    let off_bytes = u64_to_be_bytes(index_offset);
    extend_bytes(&mut r, off_bytes.as_slice());
    let size_bytes = u64_to_be_bytes(index_payload.len() as u64);
    extend_bytes(&mut r, size_bytes.as_slice());
    proof {
        assert(r@ =~= spec_table_image(payload_views(record_payloads@), index_payload@));
    }
    r
}

/// Splits a run's file image back into its record payloads and its encoded
/// index: the footer is read, checked against the file's length, and the
/// record region decoded frame by frame. An image whose footer does not
/// account for the whole file is refused.
pub fn open_table_image(bytes: &[u8]) -> (r: Option<(Vec<Vec<u8>>, Vec<u8>)>)
    ensures
        r is Some <==> (bytes@.len() >= 16 && {
            let off = footer_offset(bytes@);
            let size = footer_size(bytes@);
            off + size + 16 == bytes@.len()
        }),
        r matches Some(p) ==> {
            let off = footer_offset(bytes@);
            let size = footer_size(bytes@);
            &&& payload_views(p.0@) == spec_decode(bytes@.take(off as int))
            &&& p.1@ == bytes@.subrange(off as int, off + size)
        },
{
    let len = bytes.len();
    if len < 16 {
        return None;
    }
    let mut footer: Vec<u8> = Vec::new();
    let mut i: usize = len - 16;
    while i < len
        invariant
            len == bytes@.len(),
            16 <= len,
            len - 16 <= i <= len,
            footer@ == bytes@.subrange(len - 16, i as int),
        decreases len - i,
    {
        footer.push(bytes[i]);
        proof {
            assert(bytes@.subrange(len - 16, i as int).push(bytes@[i as int]) =~= bytes@.subrange(
                len - 16,
                i as int + 1,
            ));
        }
        i += 1;
    }
    let mut off_bytes: Vec<u8> = Vec::new();
    let mut size_bytes: Vec<u8> = Vec::new();
    let mut j: usize = 0;
    while j < 8
        invariant
            footer@ == bytes@.subrange(bytes@.len() - 16, bytes@.len() as int),
            bytes@.len() >= 16,
            0 <= j <= 8,
            off_bytes@ == footer@.subrange(0, j as int),
            size_bytes@ == footer@.subrange(8, 8 + j as int),
        decreases 8 - j,
    {
        off_bytes.push(footer[j]);
        size_bytes.push(footer[8 + j]);
        proof {
            assert(footer@.subrange(0, j as int).push(footer@[j as int]) =~= footer@.subrange(
                0,
                j as int + 1,
            ));
            assert(footer@.subrange(8, 8 + j as int).push(footer@[8 + j as int])
                =~= footer@.subrange(8, 8 + j as int + 1));
        }
        j += 1;
    }
    let off64 = u64_from_be_bytes(off_bytes.as_slice());
    let size64 = u64_from_be_bytes(size_bytes.as_slice());
    proof {
        assert(off_bytes@ =~= bytes@.subrange(bytes@.len() - 16, bytes@.len() - 8));
        assert(size_bytes@ =~= bytes@.subrange(bytes@.len() - 8, bytes@.len() as int));
        crate::util::lemma_u64_be_bytes(off64, footer_offset(bytes@));
        crate::util::lemma_u64_be_bytes(size64, footer_size(bytes@));
        assert(spec_u64_to_be_bytes(footer_offset(bytes@)) == off_bytes@);
        assert(spec_u64_to_be_bytes(footer_size(bytes@)) == size_bytes@);
    }
    if off64 > (len as u64) - 16 || size64 != (len as u64) - 16 - off64 {
        return None;
    }
    let off = off64 as usize;
    let size = size64 as usize;
    let mut region: Vec<u8> = Vec::new();
    let mut p: usize = 0;
    while p < off
        invariant
            off <= bytes@.len(),
            0 <= p <= off,
            region@ == bytes@.subrange(0, p as int),
        decreases off - p,
    {
        region.push(bytes[p]);
        proof {
            assert(bytes@.subrange(0, p as int).push(bytes@[p as int]) =~= bytes@.subrange(
                0,
                p as int + 1,
            ));
        }
        p += 1;
    }
    let recs = decode_frames(region.as_slice());
    let mut idx: Vec<u8> = Vec::new();
    let mut q: usize = off;
    while q < off + size
        invariant
            bytes@.len() <= usize::MAX,
            off + size + 16 == bytes@.len(),
            off <= q <= off + size,
            idx@ == bytes@.subrange(off as int, q as int),
        decreases off + size - q,
    {
        idx.push(bytes[q]);
        proof {
            assert(bytes@.subrange(off as int, q as int).push(bytes@[q as int])
                =~= bytes@.subrange(off as int, q as int + 1));
        }
        q += 1;
    }
    proof {
        assert(region@ =~= bytes@.take(off as int));
    }
    Some((recs, idx))
}

/// The index offset a file image's footer records.
pub open spec fn footer_offset(bytes: Seq<u8>) -> u64 {
    choose|x: u64| spec_u64_to_be_bytes(x) == bytes.subrange(bytes.len() - 16, bytes.len() - 8)
}

/// The index size a file image's footer records.
pub open spec fn footer_size(bytes: Seq<u8>) -> u64 {
    choose|x: u64| spec_u64_to_be_bytes(x) == bytes.subrange(bytes.len() - 8, bytes.len() as int)
}

/// Law: a built file image opens back to exactly the payloads and the index
/// it was built from.
pub proof fn lemma_table_image_round_trip(records: Seq<Seq<u8>>, index: Seq<u8>)
    requires
        forall|i: int| 0 <= i < records.len() ==> (#[trigger] records[i]).len() <= u32::MAX,
        spec_frames(records).len() <= u64::MAX,
        index.len() <= u64::MAX,
    ensures
        ({
            let img = spec_table_image(records, index);
            &&& img.len() >= 16
            &&& spec_decode(img.take(spec_frames(records).len() as int)) == records
            &&& img.subrange(
                spec_frames(records).len() as int,
                spec_frames(records).len() + index.len() as int,
            ) == index
        }),
{
    let fr = spec_frames(records);
    let img = spec_table_image(records, index);
    crate::util::lemma_u64_be_bytes(fr.len() as u64, fr.len() as u64);
    crate::util::lemma_u64_be_bytes(index.len() as u64, index.len() as u64);
    assert(img.take(fr.len() as int) =~= fr);
    crate::wal_format::lemma_frames_round_trip(records);
    assert(img.subrange(fr.len() as int, fr.len() + index.len() as int) =~= index);
}

} // verus!
