use blockdb::Block;
use blockdb::BlockChain;
use blockdb::BlockDB;
use blockdb::BlockDBConfig;
use blockdb::BlockDBError;
use blockdb::Record;
use blockdb::compaction::Compactor;
use blockdb::memtable::MemTable;
use blockdb::sstable::SSTable;

fn test_config() -> BlockDBConfig {
    BlockDBConfig {
        data_dir: "./test".to_string(),
        ..Default::default()
    }
}

#[test]
fn test_config_creation() {
    let config = BlockDBConfig {
        data_dir: "./test".to_string(),
        memtable_size_limit: 64 * 1024 * 1024,
        wal_sync_interval_ms: 1000,
        compaction_threshold: 4,
        blockchain_batch_size: 1000,
        ..Default::default()
    };

    assert_eq!(config.data_dir, "./test");
    assert_eq!(config.memtable_size_limit, 64 * 1024 * 1024);
    println!("Configuration test passed");
}

#[test]
fn test_basic_put_get() {
    let mut db = BlockDB::new(test_config()).unwrap();

    db.put(b"user:1", b"Alice").unwrap();
    db.put(b"user:2", b"Bob").unwrap();

    assert_eq!(db.get(b"user:1").unwrap(), Some(b"Alice".to_vec()));
    assert_eq!(db.get(b"user:2").unwrap(), Some(b"Bob".to_vec()));
    assert_eq!(db.get(b"user:3").unwrap(), None);
    assert!(db.verify_integrity().unwrap());
}

#[test]
fn test_append_only_behavior() {
    let mut db = BlockDB::new(test_config()).unwrap();

    db.put(b"key1", b"value1").unwrap();
    assert_eq!(db.get(b"key1").unwrap(), Some(b"value1".to_vec()));

    let result = db.put(b"key1", b"value2");
    assert!(result.is_err());
    assert!(matches!(result, Err(BlockDBError::DuplicateKey(_))));

    assert_eq!(db.get(b"key1").unwrap(), Some(b"value1".to_vec()));

    db.put(b"key2", b"value2").unwrap();
    assert_eq!(db.get(b"key2").unwrap(), Some(b"value2".to_vec()));

    let result = db.put(b"key2", b"updated_value");
    assert!(result.is_err());
    assert_eq!(db.get(b"key2").unwrap(), Some(b"value2".to_vec()));
}

#[test]
fn test_sequence_monotonicity() {
    let mut db = BlockDB::new(test_config()).unwrap();
    assert_eq!(db.seq_counter_value(), 0);
    db.put(b"a", b"1").unwrap();
    assert_eq!(db.seq_counter_value(), 1);
    db.put(b"b", b"2").unwrap();
    assert_eq!(db.seq_counter_value(), 2);

    let records = db.wal_records();
    assert_eq!(records.len(), 2);
    assert!(records[0].sequence_number < records[1].sequence_number);
    assert_eq!(records[0].sequence_number, 1);
    assert_eq!(records[1].sequence_number, 2);
}

#[test]
fn test_wal_restart_round_trip() {
    let mut db = BlockDB::new(test_config()).unwrap();
    db.put(b"a", b"1").unwrap();
    db.put(b"b", b"2").unwrap();

    let persisted = db.wal_records();
    let reopened = BlockDB::open_with_wal(test_config(), persisted).unwrap();

    assert_eq!(reopened.get(b"a").unwrap(), Some(b"1".to_vec()));
    assert_eq!(reopened.get(b"b").unwrap(), Some(b"2".to_vec()));
    assert!(reopened.seq_counter_value() >= 2);
    assert!(reopened.verify_integrity().unwrap());
}

#[test]
fn test_open_with_wal_rejects_corrupt_log() {
    let mut db = BlockDB::new(test_config()).unwrap();
    db.put(b"a", b"1").unwrap();
    let mut persisted = db.wal_records();
    persisted[0].hash[0] = persisted[0].hash[0].wrapping_add(1);
    let reopened = BlockDB::open_with_wal(test_config(), persisted);
    assert!(matches!(reopened, Err(BlockDBError::InvalidData(_))));
}

#[test]
fn test_blockchain_sealing() {
    let mut config = test_config();
    config.blockchain_batch_size = 3;
    let mut db = BlockDB::new(config).unwrap();

    db.put(b"k1", b"v1").unwrap();
    db.put(b"k2", b"v2").unwrap();
    db.put(b"k3", b"v3").unwrap();
    db.put(b"k4", b"v4").unwrap();
    db.put(b"k5", b"v5").unwrap();

    assert_eq!(db.chain_length(), 2);
    assert_eq!(db.pending_records(), 2);

    db.force_seal();
    assert_eq!(db.chain_length(), 3);
    assert_eq!(db.pending_records(), 0);
    assert!(db.verify_integrity().unwrap());
}

#[test]
fn test_flush_all_semantics() {
    let mut db = BlockDB::new(test_config()).unwrap();
    db.put(b"k1", b"v1").unwrap();
    db.put(b"k2", b"v2").unwrap();

    db.flush_all().unwrap();

    assert_eq!(db.get(b"k1").unwrap(), None);
    assert_eq!(db.get(b"k2").unwrap(), None);
    assert_eq!(db.seq_counter_value(), 0);
    assert!(db.verify_integrity().unwrap());

    db.put(b"k1", b"v3").unwrap();
    assert_eq!(db.get(b"k1").unwrap(), Some(b"v3".to_vec()));
}

#[test]
fn test_force_flush_memtable() {
    let mut db = BlockDB::new(test_config()).unwrap();
    db.put(b"k1", b"v1").unwrap();
    db.force_flush_memtable();
    assert_eq!(db.get(b"k1").unwrap(), Some(b"v1".to_vec()));
    db.put(b"k2", b"v2").unwrap();
    assert_eq!(db.get(b"k2").unwrap(), Some(b"v2".to_vec()));
    let result = db.put(b"k1", b"again");
    assert!(result.is_err());
}

#[test]
fn test_record_hash_is_not_input() {
    let record = Record::new(b"key".to_vec(), b"value".to_vec(), 7, 1);
    assert_eq!(record.hash.len(), 32);
    assert_ne!(record.hash, b"key".to_vec());
    let record2 = Record::new(b"key".to_vec(), b"value".to_vec(), 7, 1);
    assert_eq!(record.hash, record2.hash);
    let record3 = Record::new(b"key".to_vec(), b"value".to_vec(), 7, 2);
    assert_ne!(record.hash, record3.hash);
}

#[test]
fn test_memtable_operations() {
    let mut mt = MemTable::new();
    assert!(mt.is_empty());
    assert_eq!(mt.len(), 0);

    mt.insert(Record::new(b"b".to_vec(), b"2".to_vec(), 0, 2));
    mt.insert(Record::new(b"a".to_vec(), b"1".to_vec(), 0, 1));
    mt.insert(Record::new(b"c".to_vec(), b"3".to_vec(), 0, 3));

    assert_eq!(mt.len(), 3);
    assert_eq!(mt.get(b"a").unwrap().value, b"1".to_vec());
    assert_eq!(mt.get(b"b").unwrap().value, b"2".to_vec());
    assert!(mt.get(b"zz").is_none());

    let keys = mt.keys();
    assert_eq!(keys, vec![b"a".to_vec(), b"b".to_vec(), b"c".to_vec()]);

    mt.insert(Record::new(b"b".to_vec(), b"22".to_vec(), 0, 4));
    assert_eq!(mt.len(), 3);
    assert_eq!(mt.get(b"b").unwrap().value, b"22".to_vec());

    let ranged = mt.range(b"a", b"c");
    assert_eq!(ranged.len(), 2);
    assert_eq!(ranged[0].key, b"a".to_vec());
    assert_eq!(ranged[1].key, b"b".to_vec());

    let latest = mt.get_latest_by_prefix(b"b").unwrap();
    assert_eq!(latest.value, b"22".to_vec());

    mt.clear();
    assert!(mt.is_empty());
    assert_eq!(mt.size(), 0);
}

#[test]
fn test_sstable_round_trip() {
    let mut mt = MemTable::new();
    mt.insert(Record::new(b"b".to_vec(), b"2".to_vec(), 0, 2));
    mt.insert(Record::new(b"a".to_vec(), b"1".to_vec(), 0, 1));

    let table = SSTable::create_from_memtable(1, &mt);
    assert_eq!(table.size(), 2);
    assert_eq!(table.get(b"a").unwrap().value, b"1".to_vec());
    assert_eq!(table.get(b"b").unwrap().value, b"2".to_vec());
    assert!(table.get(b"c").is_none());
    assert!(table.contains_key(b"a"));
    assert_eq!(table.first_key().unwrap(), &b"a".to_vec());
    assert_eq!(table.last_key().unwrap(), &b"b".to_vec());

    let records = table.records();
    assert_eq!(records.len(), 2);
    assert_eq!(records[0].key, b"a".to_vec());
    assert_eq!(records[1].key, b"b".to_vec());

    let scanned = table.scan_range(b"a", b"b");
    assert_eq!(scanned.len(), 1);
    assert_eq!(scanned[0].key, b"a".to_vec());
}

#[test]
fn test_compactor_levels() {
    let mut compactor = Compactor::new("./test");
    assert!(!compactor.needs_compaction(0));
    assert!(!compactor.needs_compaction(99));

    let mut mt = MemTable::new();
    mt.insert(Record::new(b"a".to_vec(), b"1".to_vec(), 0, 1));
    let table = SSTable::create_from_memtable(1, &mt);
    compactor.add_sstable(table, 0);

    let info = compactor.get_level_info();
    assert_eq!(info.len(), 7);
    assert_eq!(info[0], 1);
    assert_eq!(info[1], 0);
}

#[test]
fn test_compact_single_level() {
    let mut compactor = Compactor::new("./test");
    let mut mt = MemTable::new();
    mt.insert(Record::new(b"a".to_vec(), b"1".to_vec(), 0, 1));
    mt.insert(Record::new(b"b".to_vec(), b"2".to_vec(), 0, 2));
    let table = SSTable::create_from_memtable(1, &mt);
    compactor.add_sstable(table, 0);

    compactor.compact_level(0);
    let info = compactor.get_level_info();
    assert_eq!(info[0], 0);
    assert_eq!(info[1], 1);
}

#[test]
fn test_compaction_newest_wins() {
    let mut compactor = Compactor::new("./test");

    let mut older = MemTable::new();
    older.insert(Record::new(b"k".to_vec(), b"old".to_vec(), 0, 1));
    compactor.add_sstable(SSTable::create_from_memtable(1, &older), 0);

    let mut newer = MemTable::new();
    newer.insert(Record::new(b"k".to_vec(), b"new".to_vec(), 0, 2));
    compactor.add_sstable(SSTable::create_from_memtable(2, &newer), 0);

    compactor.compact_level(0);
    let info = compactor.get_level_info();
    assert_eq!(info[0], 0);
    assert_eq!(info[1], 1);
}

#[test]
fn test_block_integrity() {
    let records = vec![
        Record::new(b"a".to_vec(), b"1".to_vec(), 0, 1),
        Record::new(b"b".to_vec(), b"2".to_vec(), 0, 2),
        Record::new(b"c".to_vec(), b"3".to_vec(), 0, 3),
    ];
    let block = Block::new(1, vec![0u8; 32], records);
    assert!(block.verify_integrity());
    assert_eq!(block.hash.len(), 32);
    assert_eq!(block.merkle_root.len(), 32);

    let mut tampered = block.clone();
    tampered.records[0].hash = vec![0u8; 32];
    assert!(!tampered.verify_integrity());
}

#[test]
fn test_blockchain_chain_rules() {
    let mut chain = BlockChain::new("./test");
    assert_eq!(chain.get_chain_length(), 1);
    assert!(chain.verify_chain());

    chain.set_batch_size(2);
    chain.add_record(Record::new(b"a".to_vec(), b"1".to_vec(), 0, 1));
    assert_eq!(chain.get_chain_length(), 1);
    chain.add_record(Record::new(b"b".to_vec(), b"2".to_vec(), 0, 2));
    assert_eq!(chain.get_chain_length(), 2);
    assert!(chain.verify_chain());

    let genesis = chain.get_block(0).unwrap();
    assert_eq!(genesis.index, 0);
    assert_eq!(genesis.previous_hash, vec![0u8; 32]);

    let sealed = chain.get_block(1).unwrap();
    assert_eq!(sealed.index, 1);
    assert_eq!(sealed.previous_hash, genesis.hash);
    assert_eq!(sealed.records.len(), 2);

    let latest = chain.get_latest_block().unwrap();
    assert_eq!(latest.index, 1);

    let record_hash = sealed.records[0].hash.clone();
    assert!(chain.get_record_proof(&record_hash).is_some());
    assert!(chain.get_record_proof(&vec![9u8; 32]).is_none());

    chain.clear();
    assert_eq!(chain.get_chain_length(), 1);
    assert!(chain.verify_chain());
}

#[test]
fn test_error_variants() {
    let errors = vec![
        BlockDBError::IoError("io".to_string()),
        BlockDBError::SerializationError("ser".to_string()),
        BlockDBError::InvalidData("bad".to_string()),
        BlockDBError::BlockchainError("chain".to_string()),
        BlockDBError::StorageError("store".to_string()),
        BlockDBError::ApiError("api".to_string()),
        BlockDBError::DuplicateKey("dup".to_string()),
    ];
    assert_eq!(errors.len(), 7);
    assert_eq!(errors[6].describe(), "dup");
}

#[test]
fn test_frame_bytes_exact() {
    let payloads = vec![b"ab".to_vec()];
    let bytes = blockdb::wal_format::encode_frames(&payloads);
    assert_eq!(bytes, vec![0u8, 0, 0, 2, 97, 98]);
}

#[test]
fn test_frame_round_trip() {
    let payloads = vec![b"hello".to_vec(), Vec::new(), b"xyz".to_vec()];
    let bytes = blockdb::wal_format::encode_frames(&payloads);
    let back = blockdb::wal_format::decode_frames(bytes.as_slice());
    assert_eq!(back, payloads);
}

#[test]
fn test_truncated_trailing_frame_dropped() {
    let payloads = vec![b"first".to_vec(), b"second".to_vec()];
    let mut bytes = blockdb::wal_format::encode_frames(&payloads);
    bytes.extend_from_slice(&[0, 0, 0, 5, 1, 2]);
    let back = blockdb::wal_format::decode_frames(bytes.as_slice());
    assert_eq!(back, payloads);
    let mut short = blockdb::wal_format::encode_frames(&payloads);
    short.extend_from_slice(&[0, 0]);
    let back2 = blockdb::wal_format::decode_frames(short.as_slice());
    assert_eq!(back2, payloads);
}

#[test]
fn test_decode_empty_stream() {
    let back = blockdb::wal_format::decode_frames(&[]);
    assert!(back.is_empty());
}

#[test]
fn test_chain_from_blocks_round_trip() {
    let genesis = Block::new_at(0, vec![0u8; 32], Vec::new(), 7);
    let second = Block::new_at(1, genesis.hash.clone(), Vec::new(), 8);
    let chain = BlockChain::from_blocks(vec![genesis, second], 1000).unwrap();
    assert!(chain.verify_chain());
    assert_eq!(chain.get_chain_length(), 2);
}

#[test]
fn test_chain_from_blocks_rejects_bad_input() {
    assert!(BlockChain::from_blocks(Vec::new(), 1000).is_err());
    let genesis = Block::new_at(0, vec![0u8; 32], Vec::new(), 7);
    let misnumbered = Block::new_at(2, genesis.hash.clone(), Vec::new(), 8);
    assert!(BlockChain::from_blocks(vec![genesis.clone(), misnumbered], 1000).is_err());
    let unlinked = Block::new_at(1, vec![0u8; 32], Vec::new(), 8);
    assert!(BlockChain::from_blocks(vec![genesis.clone(), unlinked], 1000).is_err());
    let solo = Block::new_at(0, vec![0u8; 32], Vec::new(), 7);
    assert!(BlockChain::from_blocks(vec![solo], 0).is_err());
}

#[test]
fn test_adopted_chain_replaces_ledger() {
    let config = test_config();
    let mut db = BlockDB::new(config).unwrap();
    let genesis = Block::new_at(0, vec![0u8; 32], Vec::new(), 7);
    let second = Block::new_at(1, genesis.hash.clone(), Vec::new(), 8);
    let chain = BlockChain::from_blocks(vec![genesis, second], 1000).unwrap();
    db.adopt_chain(chain);
    assert_eq!(db.chain_length(), 2);
    assert_eq!(db.verify_integrity().unwrap(), true);
}

#[test]
fn test_table_image_layout_exact() {
    let records = vec![b"ab".to_vec()];
    let index = b"ix".to_vec();
    let image = blockdb::sstable::build_table_image(&records, &index);
    let mut expected = vec![0u8, 0, 0, 2, 97, 98];
    expected.extend_from_slice(b"ix");
    expected.extend_from_slice(&6u64.to_be_bytes());
    expected.extend_from_slice(&2u64.to_be_bytes());
    assert_eq!(image, expected);
}

#[test]
fn test_table_image_round_trip() {
    let records = vec![b"first".to_vec(), b"second".to_vec()];
    let index = b"index-bytes".to_vec();
    let image = blockdb::sstable::build_table_image(&records, &index);
    let (recs, idx) = blockdb::sstable::open_table_image(&image).unwrap();
    assert_eq!(recs, records);
    assert_eq!(idx, index);
}

#[test]
fn test_table_image_rejects_bad_footer() {
    assert!(blockdb::sstable::open_table_image(&[1, 2, 3]).is_none());
    let records = vec![b"x".to_vec()];
    let mut image = blockdb::sstable::build_table_image(&records, &b"i".to_vec());
    image.push(0);
    assert!(blockdb::sstable::open_table_image(&image).is_none());
}
