use vstd::prelude::*;

use crate::error::BlockDBError;

use crate::crypto::now_secs;
use crate::crypto::sha256;
use crate::crypto::sha256_of;
use crate::record::Record;
use crate::record::RecordData;
use crate::util::bytes_eq;
use crate::util::extend_bytes;
use crate::util::spec_u64_to_be_bytes;
use crate::util::u64_to_be_bytes;

verus! {

broadcast use vstd::seq_lib::group_seq_properties;

/// Thirty-two zero bytes: the previous-hash of the genesis block and the
/// Merkle root of an empty record list.
pub open spec fn zero32() -> Seq<u8> {
    Seq::new(32, |i: int| 0u8)
}

/// One level of Merkle pairing: adjacent hashes are hashed together, an odd
/// trailing hash being paired with itself.
pub open spec fn pair_up(hs: Seq<Seq<u8>>) -> Seq<Seq<u8>> {
    Seq::new(
        (hs.len() + 1) / 2,
        |i: int|
            if 2 * i + 1 < hs.len() {
                sha256_of(hs[2 * i] + hs[2 * i + 1])
            } else {
                sha256_of(hs[2 * i] + hs[2 * i])
            },
    )
}

/// The Merkle root over a list of leaf hashes: zero for no leaves, the leaf
/// itself for one, else the root of the paired level.
pub open spec fn spec_merkle_of(hs: Seq<Seq<u8>>) -> Seq<u8>
    decreases hs.len(),
{
    if hs.len() == 0 {
        zero32()
    } else if hs.len() == 1 {
        hs[0]
    } else {
        spec_merkle_of(pair_up(hs))
    }
}

/// The leaf hashes of a record list.
pub open spec fn leaf_hashes(records: Seq<RecordData>) -> Seq<Seq<u8>> {
    records.map(|i: int, r: RecordData| r.hash)
}

/// The concatenation of the records' hashes.
pub open spec fn concat_hashes(records: Seq<RecordData>) -> Seq<u8>
    decreases records.len(),
{
    if records.len() == 0 {
        Seq::empty()
    } else {
        concat_hashes(records.drop_last()) + records.last().hash
    }
}

/// The mathematical content of a block.
pub struct BlockData {
    pub index: u64,
    pub timestamp: u64,
    pub previous_hash: Seq<u8>,
    pub merkle_root: Seq<u8>,
    pub records: Seq<RecordData>,
    pub hash: Seq<u8>,
    pub nonce: u64,
}

/// The bytes over which a block's hash is computed.
pub open spec fn spec_block_hash_input(b: BlockData) -> Seq<u8> {
    spec_u64_to_be_bytes(b.index) + spec_u64_to_be_bytes(b.timestamp) + b.previous_hash
        + b.merkle_root + spec_u64_to_be_bytes(b.nonce) + concat_hashes(b.records)
}

/// A block's hash: SHA-256 over its header fields and its records' hashes.
pub open spec fn spec_block_hash(b: BlockData) -> Seq<u8> {
    sha256_of(spec_block_hash_input(b))
}

/// A block is internally valid when its stored hash and Merkle root are the
/// ones recomputed from its contents.
pub open spec fn block_valid(b: BlockData) -> bool {
    b.hash == spec_block_hash(b) && b.merkle_root == spec_merkle_of(leaf_hashes(b.records))
}

/// A sealed block of the ledger.
#[derive(Clone, Debug)]
pub struct Block {
    pub index: u64,
    pub timestamp: u64,
    pub previous_hash: Vec<u8>,
    pub merkle_root: Vec<u8>,
    pub records: Vec<Record>,
    pub hash: Vec<u8>,
    pub nonce: u64,
}

impl View for Block {
    type V = BlockData;

    open spec fn view(&self) -> BlockData {
        BlockData {
            index: self.index,
            timestamp: self.timestamp,
            previous_hash: self.previous_hash@,
            merkle_root: self.merkle_root@,
            records: self.records@.map(|i: int, r: Record| r@),
            hash: self.hash@,
            nonce: self.nonce,
        }
    }
}

/// The sibling-hash path of the leaf at `idx`: at each level where the node
/// has a sibling the path carries that sibling's hash, and the rest of the
/// path belongs to the paired level; a node paired with its own duplicate
/// contributes nothing.
pub open spec fn spec_merkle_path_ok(hs: Seq<Seq<u8>>, idx: int, path: Seq<Seq<u8>>) -> bool
    decreases hs.len(),
{
    if hs.len() <= 1 {
        path.len() == 0
    } else if idx % 2 == 0 && idx + 1 < hs.len() {
        path.len() > 0 && path[0] == hs[idx + 1] && spec_merkle_path_ok(
            pair_up(hs),
            idx / 2,
            path.skip(1),
        )
    } else if idx % 2 == 1 {
        path.len() > 0 && path[0] == hs[idx - 1] && spec_merkle_path_ok(
            pair_up(hs),
            idx / 2,
            path.skip(1),
        )
    } else {
        spec_merkle_path_ok(pair_up(hs), idx / 2, path)
    }
}

/// Folds a leaf hash up a Merkle path: a left node is hashed with the
/// sibling on its right, a right node with the sibling on its left, and a
/// node without a sibling with its own duplicate; `width` is the number of
/// nodes at the current level.
pub open spec fn spec_fold_path(h: Seq<u8>, idx: int, width: int, path: Seq<Seq<u8>>) -> Seq<u8>
    decreases width,
{
    if width <= 1 {
        h
    } else if idx % 2 == 0 && idx + 1 < width {
        if path.len() > 0 {
            spec_fold_path(sha256_of(h + path[0]), idx / 2, (width + 1) / 2, path.skip(1))
        } else {
            h
        }
    } else if idx % 2 == 1 {
        if path.len() > 0 {
            spec_fold_path(sha256_of(path[0] + h), idx / 2, (width + 1) / 2, path.skip(1))
        } else {
            h
        }
    } else {
        spec_fold_path(sha256_of(h + h), idx / 2, (width + 1) / 2, path)
    }
}

/// A correct sibling path folds the leaf hash back to the Merkle root.
pub proof fn lemma_path_reconstructs_root(hs: Seq<Seq<u8>>, idx: int, path: Seq<Seq<u8>>)
    requires
        0 <= idx < hs.len(),
        spec_merkle_path_ok(hs, idx, path),
    ensures
        spec_fold_path(hs[idx], idx, hs.len() as int, path) == spec_merkle_of(hs),
    decreases hs.len(),
{
    if hs.len() <= 1 {
    } else {
        let next = pair_up(hs);
        assert(next.len() == (hs.len() + 1) / 2);
        assert(0 <= idx / 2 < next.len());
        if idx % 2 == 0 && idx + 1 < hs.len() {
            assert(next[idx / 2] == sha256_of(hs[idx] + hs[idx + 1]));
            lemma_path_reconstructs_root(next, idx / 2, path.skip(1));
        } else if idx % 2 == 1 {
            assert(next[idx / 2] == sha256_of(hs[idx - 1] + hs[idx]));
            lemma_path_reconstructs_root(next, idx / 2, path.skip(1));
        } else {
            assert(next[idx / 2] == sha256_of(hs[idx] + hs[idx]));
            lemma_path_reconstructs_root(next, idx / 2, path);
        }
    }
}

/// Computes one Merkle pairing level: adjacent hashes combined, an odd
/// trailing hash paired with itself.
fn pair_level(hashes: &Vec<Vec<u8>>) -> (next: Vec<Vec<u8>>)
    requires
        hashes@.len() > 1,
    ensures
        next@.map(|j: int, h: Vec<u8>| h@) == pair_up(hashes@.map(|j: int, h: Vec<u8>| h@)),
{
    let ghost cur = hashes@.map(|j: int, h: Vec<u8>| h@);
    let mut next: Vec<Vec<u8>> = Vec::new();
    let mut i: usize = 0;
    proof {
        assert(next@.map(|j: int, h: Vec<u8>| h@) =~= pair_up(cur).take(0));
    }
    while i + 1 < hashes.len()
        invariant
            hashes@.len() > 1,
            cur == hashes@.map(|j: int, h: Vec<u8>| h@),
            0 <= i <= hashes@.len(),
            i % 2 == 0,
            next@.map(|j: int, h: Vec<u8>| h@) == pair_up(cur).take(i as int / 2),
        decreases hashes@.len() - i,
    {
        let mut input: Vec<u8> = Vec::new();
        extend_bytes(&mut input, hashes[i].as_slice());
        extend_bytes(&mut input, hashes[i + 1].as_slice());
        proof {
            assert(input@ =~= cur[i as int] + cur[i as int + 1]);
        }
        let h = sha256(input.as_slice());
        let ghost prev = next@;
        next.push(h);
        proof {
            let f = |j: int, hh: Vec<u8>| hh@;
            assert(h@ == pair_up(cur)[i as int / 2]);
            assert(next@.map(f) =~= prev.map(f).push(pair_up(cur)[i as int / 2]));
            assert(pair_up(cur).take(i as int / 2).push(pair_up(cur)[i as int / 2])
                =~= pair_up(cur).take(i as int / 2 + 1));
        }
        i += 2;
    }
    if i < hashes.len() {
        let mut input: Vec<u8> = Vec::new();
        extend_bytes(&mut input, hashes[i].as_slice());
        extend_bytes(&mut input, hashes[i].as_slice());
        proof {
            assert(input@ =~= cur[i as int] + cur[i as int]);
        }
        let h = sha256(input.as_slice());
        let ghost prev = next@;
        next.push(h);
        proof {
            let f = |j: int, hh: Vec<u8>| hh@;
            assert(h@ == pair_up(cur)[i as int / 2]);
            assert(next@.map(f) =~= prev.map(f).push(pair_up(cur)[i as int / 2]));
            assert(pair_up(cur).take(i as int / 2).push(pair_up(cur)[i as int / 2])
                =~= pair_up(cur).take(i as int / 2 + 1));
        }
    }
    proof {
        assert(next@.map(|j: int, h: Vec<u8>| h@) =~= pair_up(cur)) by {
            assert(pair_up(cur).take(pair_up(cur).len() as int) =~= pair_up(cur));
        }
    }
    next
}

/// Computes the Merkle root over the records' hashes, duplicating an odd
/// trailing hash before pairing.
pub fn calculate_merkle_root(records: &Vec<Record>) -> (r: Vec<u8>)
    ensures
        r@ == spec_merkle_of(leaf_hashes(records@.map(|i: int, rec: Record| rec@))),
{
    let ghost leaves = leaf_hashes(records@.map(|i: int, rec: Record| rec@));
    if records.len() == 0 {
        let mut z: Vec<u8> = Vec::new();
        let mut i: usize = 0;
        while i < 32
            invariant
                0 <= i <= 32,
                z@.len() == i,
                forall|j: int| 0 <= j < i ==> z@[j] == 0u8,
            decreases 32 - i,
        {
            z.push(0u8);
            i += 1;
        }
        proof {
            assert(z@ =~= zero32());
        }
        return z;
    }
    let mut hashes: Vec<Vec<u8>> = Vec::new();
    let mut i: usize = 0;
    while i < records.len()
        invariant
            0 <= i <= records@.len(),
            hashes@.map(|j: int, h: Vec<u8>| h@) == leaves.take(i as int),
            leaves == leaf_hashes(records@.map(|k: int, rec: Record| rec@)),
            leaves.len() == records@.len(),
        decreases records@.len() - i,
    {
        let ghost prev = hashes@;
        hashes.push(records[i].hash.clone());
        proof {
            let f = |j: int, h: Vec<u8>| h@;
            assert(hashes@.last()@ =~= leaves[i as int]);
            assert(hashes@.map(f) =~= prev.map(f).push(leaves[i as int]));
            assert(leaves.take(i as int).push(leaves[i as int]) =~= leaves.take(i as int + 1));
        }
        i += 1;
    }
    proof {
        assert(leaves.take(leaves.len() as int) =~= leaves);
    }
    merkle_fold(hashes, Ghost(leaves))
}

/// Folds a non-empty level stack of hashes down to the Merkle root.
fn merkle_fold(hashes: Vec<Vec<u8>>, Ghost(leaves): Ghost<Seq<Seq<u8>>>) -> (r: Vec<u8>)
    requires
        hashes@.len() > 0,
        hashes@.map(|j: int, h: Vec<u8>| h@) == leaves,
    ensures
        r@ == spec_merkle_of(leaves),
    decreases hashes@.len(),
{
    let ghost cur = hashes@.map(|j: int, h: Vec<u8>| h@);
    if hashes.len() == 1 {
        let mut hashes = hashes;
        let h = hashes.remove(0);
        proof {
            assert(h@ == cur[0]);
        }
        return h;
    }
    let next = pair_level(&hashes);
    proof {
        assert(pair_up(cur).len() >= 1);
        assert(spec_merkle_of(pair_up(cur)) == spec_merkle_of(cur));
    }
    merkle_fold(next, Ghost(pair_up(cur)))
}

impl Block {
    /// Builds a block at a given timestamp: the Merkle root and hash are
    /// computed from the contents.
    pub fn new_at(index: u64, previous_hash: Vec<u8>, records: Vec<Record>, timestamp: u64) -> (b:
        Block)
        ensures
            b@.index == index,
            b@.timestamp == timestamp,
            b@.previous_hash == previous_hash@,
            b@.records == records@.map(|i: int, r: Record| r@),
            b@.nonce == 0,
            block_valid(b@),
    {
        let merkle_root = calculate_merkle_root(&records);
        let mut b = Block {
            index,
            timestamp,
            previous_hash,
            merkle_root,
            records,
            hash: Vec::new(),
            nonce: 0,
        };
        let h = b.calculate_hash();
        b.hash = h;
        b
    }

    /// Builds a block stamped with the current clock time.
    pub fn new(index: u64, previous_hash: Vec<u8>, records: Vec<Record>) -> (b: Block)
        ensures
            b@.index == index,
            b@.previous_hash == previous_hash@,
            b@.records == records@.map(|i: int, r: Record| r@),
            b@.nonce == 0,
            block_valid(b@),
    {
        let timestamp = now_secs();
        Block::new_at(index, previous_hash, records, timestamp)
    }

    /// Recomputes the block's hash from its fields.
    pub fn calculate_hash(&self) -> (r: Vec<u8>)
        ensures
            r@ == spec_block_hash(self@),
    {
        let mut input: Vec<u8> = Vec::new();
        let idx_bytes = u64_to_be_bytes(self.index);
        extend_bytes(&mut input, idx_bytes.as_slice());
        let ts_bytes = u64_to_be_bytes(self.timestamp);
        extend_bytes(&mut input, ts_bytes.as_slice());
        extend_bytes(&mut input, self.previous_hash.as_slice());
        extend_bytes(&mut input, self.merkle_root.as_slice());
        let nonce_bytes = u64_to_be_bytes(self.nonce);
        extend_bytes(&mut input, nonce_bytes.as_slice());
        let ghost header = spec_u64_to_be_bytes(self.index) + spec_u64_to_be_bytes(self.timestamp)
            + self.previous_hash@ + self.merkle_root@ + spec_u64_to_be_bytes(self.nonce);
        proof {
            assert(input@ =~= header);
        }
        let mut i: usize = 0;
        while i < self.records.len()
            invariant
                0 <= i <= self.records@.len(),
                input@ == header + concat_hashes(
                    self@.records.take(i as int),
                ),
                header == spec_u64_to_be_bytes(self.index) + spec_u64_to_be_bytes(self.timestamp)
                    + self.previous_hash@ + self.merkle_root@ + spec_u64_to_be_bytes(self.nonce),
            decreases self.records@.len() - i,
        {
            extend_bytes(&mut input, self.records[i].hash.as_slice());
            proof {
                assert(self@.records.take(i as int + 1).drop_last() =~= self@.records.take(
                    i as int,
                ));
                assert(self@.records.take(i as int + 1).last() == self@.records[i as int]);
                assert(input@ =~= header + concat_hashes(self@.records.take(i as int + 1)));
            }
            i += 1;
        }
        proof {
            assert(self@.records.take(self@.records.len() as int) =~= self@.records);
            assert(input@ =~= spec_block_hash_input(self@));
        }
        sha256(input.as_slice())
    }

    /// Whether the stored hash and Merkle root are the ones recomputed from
    /// the block's contents.
    pub fn verify_integrity(&self) -> (r: bool)
        ensures
            r == block_valid(self@),
    {
        let calculated_hash = self.calculate_hash();
        let calculated_merkle = calculate_merkle_root(&self.records);
        bytes_eq(self.hash.as_slice(), calculated_hash.as_slice()) && bytes_eq(
            self.merkle_root.as_slice(),
            calculated_merkle.as_slice(),
        )
    }
}

/// The mathematical content of the ledger: its sealed blocks and the pending
/// queue.
pub struct ChainData {
    pub blocks: Seq<BlockData>,
    pub pending: Seq<RecordData>,
    pub batch_size: usize,
}

/// What `verify_chain` checks: every non-genesis block is internally valid,
/// linked to its predecessor's hash, and numbered one past it.
pub open spec fn spec_chain_valid(blocks: Seq<BlockData>) -> bool {
    forall|i: int|
        1 <= i < blocks.len() ==> {
            &&& block_valid(#[trigger] blocks[i])
            &&& blocks[i].previous_hash == blocks[i - 1].hash
            &&& blocks[i].index == blocks[i - 1].index + 1
        }
}

/// The hash-chained block ledger with its pending batch queue.
#[derive(Debug)]
pub struct BlockChain {
    blocks: Vec<Block>,
    pending_records: Vec<Record>,
    batch_size: usize,
}

impl View for BlockChain {
    type V = ChainData;

    closed spec fn view(&self) -> ChainData {
        ChainData {
            blocks: self.blocks@.map(|i: int, b: Block| b@),
            pending: self.pending_records@.map(|i: int, r: Record| r@),
            batch_size: self.batch_size,
        }
    }
}

impl BlockChain {
    /// Every reachable ledger starts at a genesis block and stays valid.
    pub open spec fn wf(&self) -> bool {
        &&& self@.blocks.len() >= 1
        &&& forall|i: int| 0 <= i < self@.blocks.len() ==> (#[trigger] self@.blocks[i]).index == i
        &&& spec_chain_valid(self@.blocks)
        &&& self@.batch_size >= 1
    }

    /// A fresh ledger: a genesis block with no records, an empty queue, and
    /// the default batch size.
    pub fn new(data_dir: &str) -> (r: Self)
        ensures
            r.wf(),
            r@.blocks.len() == 1,
            r@.blocks[0].records.len() == 0,
            r@.blocks[0].previous_hash == zero32(),
            r@.pending.len() == 0,
            r@.batch_size == 1000,
    {
        let mut zero: Vec<u8> = Vec::new();
        let mut i: usize = 0;
        while i < 32
            invariant
                0 <= i <= 32,
                zero@.len() == i,
                forall|j: int| 0 <= j < i ==> zero@[j] == 0u8,
            decreases 32 - i,
        {
            zero.push(0u8);
            i += 1;
        }
        proof {
            assert(zero@ =~= zero32());
        }
        let genesis = Block::new(0, zero, Vec::new());
        let mut blocks: Vec<Block> = Vec::new();
        blocks.push(genesis);
        let _ = data_dir;
        let r = BlockChain { blocks, pending_records: Vec::new(), batch_size: 1000 };
        proof {
            assert(r@.blocks.len() == 1);
            assert(r@.pending =~= Seq::<RecordData>::empty());
            assert(r@.blocks[0].records.len() == 0) by {
                assert(r@.blocks[0].records =~= Seq::<RecordData>::empty());
            }
        }
        r
    }

    /// Adopts a previously sealed chain, as decoded from storage: accepted
    /// exactly when it starts at a block numbered zero, runs in index order
    /// with intact links and valid blocks, and the batch size is positive.
    /// The pending queue starts empty.
    pub fn from_blocks(blocks: Vec<Block>, batch_size: usize) -> (r: Result<Self, BlockDBError>)
        ensures
            r is Ok <==> {
                &&& batch_size >= 1
                &&& blocks@.len() >= 1
                &&& forall|i: int| 0 <= i < blocks@.len() ==> (#[trigger] blocks@[i])@.index == i
                &&& spec_chain_valid(blocks@.map(|i: int, b: Block| b@))
            },
            r matches Ok(c) ==> {
                &&& c.wf()
                &&& c@.blocks == blocks@.map(|i: int, b: Block| b@)
                &&& c@.pending.len() == 0
                &&& c@.batch_size == batch_size
            },
    {
        if batch_size < 1 {
            return Err(BlockDBError::InvalidData("batch size must be positive".to_owned()));
        }
        if blocks.len() == 0 {
            return Err(BlockDBError::InvalidData("a chain starts at its genesis block".to_owned()));
        }
        let mut i: usize = 0;
        while i < blocks.len()
            invariant
                0 <= i <= blocks@.len(),
                forall|j: int| 0 <= j < i ==> (#[trigger] blocks@[j])@.index == j,
            decreases blocks@.len() - i,
        {
            if blocks[i].index != i as u64 {
                proof {
                    assert(blocks@[i as int]@.index != i as int);
                }
                return Err(BlockDBError::InvalidData(
                    "blocks are not numbered in order".to_owned(),
                ));
            }
            i += 1;
        }
        let c = BlockChain { blocks: blocks, pending_records: Vec::new(), batch_size };
        proof {
            assert(c@.pending =~= Seq::<RecordData>::empty());
        }
        if !c.verify_chain() {
            return Err(BlockDBError::InvalidData(
                "chain links or hashes do not validate".to_owned(),
            ));
        }
        Ok(c)
    }

    /// Sets how many pending records seal a block.
    pub fn set_batch_size(&mut self, batch_size: usize)
        requires
            old(self).wf(),
            batch_size >= 1,
        ensures
            final(self).wf(),
            final(self)@.blocks == old(self)@.blocks,
            final(self)@.pending == old(self)@.pending,
            final(self)@.batch_size == batch_size,
    {
        self.batch_size = batch_size;
    }

    /// Enqueues a record; a full queue seals a new block.
    pub fn add_record(&mut self, record: Record)
        requires
            old(self).wf(),
        ensures
            final(self).wf(),
            final(self)@.batch_size == old(self)@.batch_size,
            old(self)@.pending.len() + 1 >= old(self)@.batch_size ==> {
                &&& final(self)@.pending.len() == 0
                &&& final(self)@.blocks.len() == old(self)@.blocks.len() + 1
                &&& final(self)@.blocks.last().records == old(self)@.pending.push(record@)
                &&& final(self)@.blocks.take(old(self)@.blocks.len() as int) == old(self)@.blocks
            },
            old(self)@.pending.len() + 1 < old(self)@.batch_size ==> {
                &&& final(self)@.pending == old(self)@.pending.push(record@)
                &&& final(self)@.blocks == old(self)@.blocks
            },
    {
        let ghost pre = self@;
        self.pending_records.push(record);
        proof {
            assert(self@.pending =~= pre.pending.push(record@));
            assert(self@.blocks =~= pre.blocks);
        }
        if self.pending_records.len() >= self.batch_size {
            self.create_block();
        }
    }

    /// Seals the pending queue into a new block; with an empty queue nothing
    /// happens.
    #[verifier::rlimit(100)]
    pub fn create_block(&mut self)
        requires
            old(self).wf(),
        ensures
            final(self).wf(),
            final(self)@.batch_size == old(self)@.batch_size,
            old(self)@.pending.len() == 0 ==> *final(self) == *old(self),
            old(self)@.pending.len() > 0 ==> {
                &&& final(self)@.pending.len() == 0
                &&& final(self)@.blocks.len() == old(self)@.blocks.len() + 1
                &&& final(self)@.blocks.last().records == old(self)@.pending
                &&& final(self)@.blocks.take(old(self)@.blocks.len() as int) == old(self)@.blocks
            },
    {
        if self.pending_records.len() == 0 {
            return;
        }
        let ghost pre = self@;
        let mut records: Vec<Record> = Vec::new();
        std::mem::swap(&mut records, &mut self.pending_records);
        proof {
            assert(self@.pending =~= Seq::<RecordData>::empty());
            assert(records@.map(|i: int, r: Record| r@) == pre.pending);
            assert(self@.blocks =~= pre.blocks);
        }
        let last = self.blocks.len() - 1;
        let previous_hash = self.blocks[last].hash.clone();
        proof {
            assert(previous_hash@ =~= self@.blocks.last().hash);
        }
        let index_u64 = self.blocks[last].index;
        proof {
            assert(self@.blocks[last as int].index == last);
            assert(index_u64 < u64::MAX);
        }
        let block = Block::new(index_u64 + 1, previous_hash, records);
        let ghost mid = self@;
        self.blocks.push(block);
        proof {
            assert(self@.blocks =~= pre.blocks.push(block@));
            assert(self@.blocks.take(pre.blocks.len() as int) =~= pre.blocks);
            assert(self@.blocks.last() == block@);
            assert forall|i: int| 1 <= i < self@.blocks.len() implies {
                &&& block_valid(#[trigger] self@.blocks[i])
                &&& self@.blocks[i].previous_hash == self@.blocks[i - 1].hash
                &&& self@.blocks[i].index == self@.blocks[i - 1].index + 1
            } by {
                if i < pre.blocks.len() {
                    assert(pre.blocks[i] == self@.blocks[i]);
                }
            }
        }
    }

    /// Whether every block of the chain validates and the links are intact.
    pub fn verify_chain(&self) -> (r: bool)
        ensures
            r == spec_chain_valid(self@.blocks),
    {
        let mut i: usize = 1;
        if self.blocks.len() == 0 {
            return true;
        }
        while i < self.blocks.len()
            invariant
                1 <= i <= self@.blocks.len() || self@.blocks.len() == 0,
                forall|j: int|
                    1 <= j < i ==> {
                        &&& block_valid(#[trigger] self@.blocks[j])
                        &&& self@.blocks[j].previous_hash == self@.blocks[j - 1].hash
                        &&& self@.blocks[j].index == self@.blocks[j - 1].index + 1
                    },
            decreases self@.blocks.len() - i,
        {
            let ok_block = self.blocks[i].verify_integrity();
            if !ok_block {
                proof {
                    assert(!block_valid(self@.blocks[i as int]));
                }
                return false;
            }
            let link_ok = bytes_eq(
                self.blocks[i].previous_hash.as_slice(),
                self.blocks[i - 1].hash.as_slice(),
            );
            if !link_ok {
                proof {
                    assert(self@.blocks[i as int].previous_hash != self@.blocks[i as int
                        - 1].hash);
                }
                return false;
            }
            if self.blocks[i - 1].index == u64::MAX || self.blocks[i].index != self.blocks[i
                - 1].index + 1 {
                proof {
                    assert(self@.blocks[i as int].index != self@.blocks[i as int - 1].index + 1);
                }
                return false;
            }
            i += 1;
        }
        true
    }

    /// The block at `index`, if sealed.
    pub fn get_block(&self, index: u64) -> (r: Option<&Block>)
        ensures
            r is Some <==> index < self@.blocks.len(),
            r is Some ==> r->0@ == self@.blocks[index as int],
    {
        let len = self.blocks.len();
        if index < (len as u64) {
            proof {
                assert(index <= usize::MAX);
            }
            Some(&self.blocks[index as usize])
        } else {
            None
        }
    }

    /// The newest sealed block.
    pub fn get_latest_block(&self) -> (r: Option<&Block>)
        ensures
            r is Some <==> self@.blocks.len() > 0,
            r is Some ==> r->0@ == self@.blocks.last(),
    {
        if self.blocks.len() > 0 {
            Some(&self.blocks[self.blocks.len() - 1])
        } else {
            None
        }
    }

    /// The number of sealed blocks, genesis included.
    pub fn get_chain_length(&self) -> (r: usize)
        ensures
            r == self@.blocks.len(),
    {
        self.blocks.len()
    }

    /// Seals the pending queue regardless of its size.
    pub fn force_create_block(&mut self)
        requires
            old(self).wf(),
        ensures
            final(self).wf(),
            final(self)@.batch_size == old(self)@.batch_size,
            old(self)@.pending.len() == 0 ==> *final(self) == *old(self),
            old(self)@.pending.len() > 0 ==> {
                &&& final(self)@.pending.len() == 0
                &&& final(self)@.blocks.len() == old(self)@.blocks.len() + 1
                &&& final(self)@.blocks.last().records == old(self)@.pending
                &&& final(self)@.blocks.take(old(self)@.blocks.len() as int) == old(self)@.blocks
            },
    {
        self.create_block();
    }

    /// The number of records waiting in the pending queue.
    pub fn pending_len(&self) -> (r: usize)
        ensures
            r == self@.pending.len(),
    {
        self.pending_records.len()
    }

    /// The sibling hashes along the Merkle path of the record with the given
    /// hash, if some sealed block holds such a record.
    pub fn get_record_proof(&self, record_hash: &[u8]) -> (r: Option<Vec<Vec<u8>>>)
        ensures
            r is Some <==> exists|i: int, j: int|
                0 <= i < self@.blocks.len() && 0 <= j < self@.blocks[i].records.len()
                    && (#[trigger] self@.blocks[i].records[j]).hash == record_hash@,
            r matches Some(p) ==> exists|i: int, j: int|
                0 <= i < self@.blocks.len() && 0 <= j < self@.blocks[i].records.len()
                    && (#[trigger] self@.blocks[i].records[j]).hash == record_hash@
                    && spec_merkle_path_ok(
                    leaf_hashes(self@.blocks[i].records),
                    j,
                    p@.map(|q: int, v: Vec<u8>| v@),
                ),
    {
        let mut bi: usize = 0;
        while bi < self.blocks.len()
            invariant
                0 <= bi <= self@.blocks.len(),
                forall|i: int, j: int|
                    0 <= i < bi && 0 <= j < self@.blocks[i].records.len()
                        ==> (#[trigger] self@.blocks[i].records[j]).hash != record_hash@,
            decreases self@.blocks.len() - bi,
        {
            let block = &self.blocks[bi];
            let mut rj: usize = 0;
            while rj < block.records.len()
                invariant
                    0 <= rj <= block@.records.len(),
                    block == &self.blocks[bi as int],
                    bi < self@.blocks.len(),
                    forall|j: int|
                        0 <= j < rj ==> (#[trigger] block@.records[j]).hash != record_hash@,
                decreases block@.records.len() - rj,
            {
                if bytes_eq(block.records[rj].hash.as_slice(), record_hash) {
                    proof {
                        assert(self@.blocks[bi as int].records[rj as int].hash == record_hash@);
                    }
                    let path = generate_merkle_proof(&block.records, rj);
                    proof {
                        assert(block.records@.map(|i: int, rec: Record| rec@) == self@.blocks[
                            bi as int].records);
                        assert(spec_merkle_path_ok(
                            leaf_hashes(self@.blocks[bi as int].records),
                            rj as int,
                            path@.map(|q: int, v: Vec<u8>| v@),
                        ));
                    }
                    return Some(path);
                }
                rj += 1;
            }
            proof {
                assert forall|j: int|
                    0 <= j < self@.blocks[bi as int].records.len() implies (#[trigger] self@.blocks[
                    bi as int].records[j]).hash != record_hash@ by {
                    assert(block@.records[j].hash != record_hash@);
                }
            }
            bi += 1;
        }
        None
    }

    /// Resets the ledger to a fresh genesis block and an empty queue.
    pub fn clear(&mut self)
        requires
            old(self).wf(),
        ensures
            final(self).wf(),
            final(self)@.blocks.len() == 1,
            final(self)@.blocks[0].records.len() == 0,
            final(self)@.blocks[0].previous_hash == zero32(),
            final(self)@.pending.len() == 0,
            final(self)@.batch_size == old(self)@.batch_size,
    {
        let mut zero: Vec<u8> = Vec::new();
        let mut i: usize = 0;
        while i < 32
            invariant
                0 <= i <= 32,
                zero@.len() == i,
                forall|j: int| 0 <= j < i ==> zero@[j] == 0u8,
            decreases 32 - i,
        {
            zero.push(0u8);
            i += 1;
        }
        proof {
            assert(zero@ =~= zero32());
        }
        let genesis = Block::new(0, zero, Vec::new());
        self.blocks.clear();
        self.blocks.push(genesis);
        self.pending_records.clear();
        proof {
            assert(self@.blocks.len() == 1);
            assert(self@.pending =~= Seq::<RecordData>::empty());
            assert(self@.blocks[0].records.len() == 0) by {
                assert(self@.blocks[0].records =~= Seq::<RecordData>::empty());
            }
        }
    }
}

/// The sibling hashes that join a record's hash to the Merkle root of its
/// block.
fn generate_merkle_proof(records: &Vec<Record>, target_index: usize) -> (proof_path: Vec<Vec<u8>>)
    requires
        target_index < records@.len(),
    ensures
        spec_merkle_path_ok(
            leaf_hashes(records@.map(|i: int, rec: Record| rec@)),
            target_index as int,
            proof_path@.map(|i: int, v: Vec<u8>| v@),
        ),
{
    let ghost leaves = leaf_hashes(records@.map(|i: int, rec: Record| rec@));
    let mut hashes: Vec<Vec<u8>> = Vec::new();
    let mut i: usize = 0;
    while i < records.len()
        invariant
            0 <= i <= records@.len(),
            hashes@.map(|j: int, h: Vec<u8>| h@) == leaves.take(i as int),
            leaves == leaf_hashes(records@.map(|k: int, rec: Record| rec@)),
            leaves.len() == records@.len(),
        decreases records@.len() - i,
    {
        let ghost prev = hashes@;
        hashes.push(records[i].hash.clone());
        proof {
            let f = |j: int, h: Vec<u8>| h@;
            assert(hashes@.last()@ =~= leaves[i as int]);
            assert(hashes@.map(f) =~= prev.map(f).push(leaves[i as int]));
            assert(leaves.take(i as int).push(leaves[i as int]) =~= leaves.take(i as int + 1));
        }
        i += 1;
    }
    proof {
        assert(leaves.take(leaves.len() as int) =~= leaves);
    }
    merkle_proof_rec(hashes, target_index, Ghost(leaves))
}

/// Collects the sibling hash at each level above the node at `index`.
fn merkle_proof_rec(hashes: Vec<Vec<u8>>, index: usize, Ghost(hs): Ghost<Seq<Seq<u8>>>) -> (
proof_path: Vec<Vec<u8>>)
    requires
        hashes@.map(|j: int, h: Vec<u8>| h@) == hs,
        index < hs.len(),
    ensures
        spec_merkle_path_ok(hs, index as int, proof_path@.map(|i: int, v: Vec<u8>| v@)),
    decreases hs.len(),
{
    if hashes.len() <= 1 {
        let proof_path: Vec<Vec<u8>> = Vec::new();
        proof {
            assert(proof_path@.map(|i: int, v: Vec<u8>| v@) =~= Seq::<Seq<u8>>::empty());
        }
        return proof_path;
    }
    let sibling: Option<Vec<u8>> = if index % 2 == 0 && index + 1 < hashes.len() {
        Some(hashes[index + 1].clone())
    } else if index % 2 == 1 {
        Some(hashes[index - 1].clone())
    } else {
        None
    };
    let next = pair_level(&hashes);
    proof {
        assert(pair_up(hs).len() == (hs.len() + 1) / 2);
        assert(index as int / 2 < pair_up(hs).len());
    }
    let rest = merkle_proof_rec(next, index / 2, Ghost(pair_up(hs)));
    match sibling {
        Some(sib) => {
            let ghost rest_view = rest@.map(|i: int, v: Vec<u8>| v@);
            let mut proof_path = rest;
            proof_path.insert(0, sib);
            proof {
                let f = |i: int, v: Vec<u8>| v@;
                assert(proof_path@.map(f).len() == rest_view.len() + 1);
                assert(proof_path@.map(f)[0] == (if index % 2 == 0 {
                    hs[index + 1]
                } else {
                    hs[index - 1]
                }));
                assert(proof_path@.map(f).skip(1) =~= rest_view);
            }
            proof_path
        },
        None => rest,
    }
}

} // verus!
