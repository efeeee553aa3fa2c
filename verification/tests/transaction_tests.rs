use blockdb::BlockDB;
use blockdb::BlockDBConfig;
use blockdb::Operation;
use blockdb::TransactionManager;
use blockdb::transaction::Transaction;
use blockdb::transaction::TransactionState;
use blockdb::transaction::TwoPhaseCommitCoordinator;
use blockdb::lock_manager::LockManager;
use blockdb::lock_manager::LockMode;
use blockdb::transaction::TransactionId;

fn test_config() -> BlockDBConfig {
    BlockDBConfig {
        data_dir: "./test".to_string(),
        ..Default::default()
    }
}

#[test]
fn test_transaction_lifecycle() {
    let mut tx = Transaction::new(30000);
    assert!(matches!(tx.state, TransactionState::Active));

    tx.add_operation(Operation::Put {
        key: b"k".to_vec(),
        value: b"v".to_vec(),
    });
    assert_eq!(tx.operations.len(), 1);
    assert_eq!(tx.write_set.len(), 1);

    tx.prepare().unwrap();
    assert!(matches!(tx.state, TransactionState::Preparing));

    tx.commit().unwrap();
    assert!(matches!(tx.state, TransactionState::Committed));
}

#[test]
fn test_transaction_illegal_transitions() {
    let mut tx = Transaction::new(30000);
    assert!(tx.commit().is_err());
    tx.abort();
    assert!(matches!(tx.state, TransactionState::Aborted));
    assert!(tx.prepare().is_err());
}

#[test]
fn test_operation_accessors() {
    let put = Operation::Put {
        key: b"pk".to_vec(),
        value: b"pv".to_vec(),
    };
    let get = Operation::Get { key: b"gk".to_vec() };
    let del = Operation::Delete { key: b"dk".to_vec() };
    assert_eq!(put.get_key(), &b"pk".to_vec());
    assert_eq!(get.get_key(), &b"gk".to_vec());
    assert_eq!(del.get_key(), &b"dk".to_vec());
    assert!(put.is_write_operation());
    assert!(!get.is_write_operation());
    assert!(del.is_write_operation());
}

#[test]
fn test_committed_transaction_writes_visible() {
    let mut db = BlockDB::new(test_config()).unwrap();
    let mut manager = TransactionManager::new("./test").unwrap();

    let tx_id = manager.begin_transaction().unwrap();
    manager
        .execute_operation(
            &tx_id,
            Operation::Put {
                key: b"t1".to_vec(),
                value: b"v1".to_vec(),
            },
            &db,
        )
        .unwrap();
    manager
        .execute_operation(
            &tx_id,
            Operation::Put {
                key: b"t2".to_vec(),
                value: b"v2".to_vec(),
            },
            &db,
        )
        .unwrap();

    assert_eq!(db.get(b"t1").unwrap(), None);

    manager.prepare_transaction(&tx_id).unwrap();
    manager.commit_transaction(&tx_id, &mut db).unwrap();

    assert_eq!(db.get(b"t1").unwrap(), Some(b"v1".to_vec()));
    assert_eq!(db.get(b"t2").unwrap(), Some(b"v2".to_vec()));
    assert!(manager.get_transaction(&tx_id).is_none());
}

#[test]
fn test_aborted_transaction_writes_invisible() {
    let mut db = BlockDB::new(test_config()).unwrap();
    let mut manager = TransactionManager::new("./test").unwrap();

    let tx_id = manager.begin_transaction().unwrap();
    manager
        .execute_operation(
            &tx_id,
            Operation::Put {
                key: b"gone".to_vec(),
                value: b"v".to_vec(),
            },
            &db,
        )
        .unwrap();

    manager.abort_transaction(&tx_id).unwrap();

    assert_eq!(db.get(b"gone").unwrap(), None);
    assert!(manager.get_transaction(&tx_id).is_none());
}

#[test]
fn test_commit_collision_aborts_whole_transaction() {
    let mut db = BlockDB::new(test_config()).unwrap();
    db.put(b"taken", b"old").unwrap();

    let mut manager = TransactionManager::new("./test").unwrap();
    let tx_id = manager.begin_transaction().unwrap();
    manager
        .execute_operation(
            &tx_id,
            Operation::Put {
                key: b"fresh".to_vec(),
                value: b"v".to_vec(),
            },
            &db,
        )
        .unwrap();
    manager
        .execute_operation(
            &tx_id,
            Operation::Put {
                key: b"taken".to_vec(),
                value: b"clash".to_vec(),
            },
            &db,
        )
        .unwrap();

    manager.prepare_transaction(&tx_id).unwrap();
    let result = manager.commit_transaction(&tx_id, &mut db);
    assert!(result.is_err());

    assert_eq!(db.get(b"fresh").unwrap(), None);
    assert_eq!(db.get(b"taken").unwrap(), Some(b"old".to_vec()));
}

#[test]
fn test_read_your_writes() {
    let mut db = BlockDB::new(test_config()).unwrap();
    db.put(b"shared", b"stored").unwrap();

    let mut manager = TransactionManager::new("./test").unwrap();
    let tx_id = manager.begin_transaction().unwrap();

    let stored = manager
        .execute_operation(&tx_id, Operation::Get { key: b"shared".to_vec() }, &db)
        .unwrap();
    assert_eq!(stored, Some(b"stored".to_vec()));

    manager
        .execute_operation(
            &tx_id,
            Operation::Put {
                key: b"mine".to_vec(),
                value: b"buffered".to_vec(),
            },
            &db,
        )
        .unwrap();
    let buffered = manager
        .execute_operation(&tx_id, Operation::Get { key: b"mine".to_vec() }, &db)
        .unwrap();
    assert_eq!(buffered, Some(b"buffered".to_vec()));

    let missing = manager
        .execute_operation(&tx_id, Operation::Get { key: b"nowhere".to_vec() }, &db)
        .unwrap();
    assert_eq!(missing, None);
}

#[test]
fn test_overlapping_writers_conflict() {
    let db = BlockDB::new(test_config()).unwrap();
    let mut manager = TransactionManager::new("./test").unwrap();

    let tx_a = manager.begin_transaction().unwrap();
    let tx_b = manager.begin_transaction().unwrap();

    manager
        .execute_operation(
            &tx_a,
            Operation::Put {
                key: b"hot".to_vec(),
                value: b"a".to_vec(),
            },
            &db,
        )
        .unwrap();

    let blocked = manager.execute_operation(
        &tx_b,
        Operation::Put {
            key: b"hot".to_vec(),
            value: b"b".to_vec(),
        },
        &db,
    );
    assert!(blocked.is_err());
}

#[test]
fn test_shared_readers_coexist() {
    let mut db = BlockDB::new(test_config()).unwrap();
    db.put(b"page", b"text").unwrap();
    let mut manager = TransactionManager::new("./test").unwrap();

    let tx_a = manager.begin_transaction().unwrap();
    let tx_b = manager.begin_transaction().unwrap();

    let ra = manager
        .execute_operation(&tx_a, Operation::Get { key: b"page".to_vec() }, &db)
        .unwrap();
    let rb = manager
        .execute_operation(&tx_b, Operation::Get { key: b"page".to_vec() }, &db)
        .unwrap();
    assert_eq!(ra, Some(b"text".to_vec()));
    assert_eq!(rb, Some(b"text".to_vec()));
}

#[test]
fn test_active_transaction_count() {
    let mut manager = TransactionManager::new("./test").unwrap();
    assert_eq!(manager.active_transaction_count(), 0);
    let tx_a = manager.begin_transaction().unwrap();
    let _tx_b = manager.begin_transaction_with_timeout(1000).unwrap();
    assert_eq!(manager.active_transaction_count(), 2);
    manager.abort_transaction(&tx_a).unwrap();
    assert_eq!(manager.active_transaction_count(), 1);
}

#[test]
fn test_two_phase_commit_coordinator() {
    let mut db = BlockDB::new(test_config()).unwrap();
    let mut manager = TransactionManager::new("./test").unwrap();
    let coordinator = TwoPhaseCommitCoordinator::new(vec!["node-a".to_string()]);

    let tx_id = manager.begin_transaction().unwrap();
    let ops = vec![
        Operation::Put {
            key: b"d1".to_vec(),
            value: b"v1".to_vec(),
        },
        Operation::Put {
            key: b"d2".to_vec(),
            value: b"v2".to_vec(),
        },
    ];
    coordinator
        .execute_distributed_transaction(&mut manager, &mut db, &tx_id, ops)
        .unwrap();
    assert_eq!(db.get(b"d1").unwrap(), Some(b"v1".to_vec()));
    assert_eq!(db.get(b"d2").unwrap(), Some(b"v2".to_vec()));

    // A collision with a committed key aborts the whole transaction.
    let tx_id2 = manager.begin_transaction().unwrap();
    let ops2 = vec![
        Operation::Put {
            key: b"d3".to_vec(),
            value: b"v3".to_vec(),
        },
        Operation::Put {
            key: b"d1".to_vec(),
            value: b"clash".to_vec(),
        },
    ];
    let result = coordinator.execute_distributed_transaction(&mut manager, &mut db, &tx_id2, ops2);
    assert!(result.is_err());
    assert_eq!(db.get(b"d3").unwrap(), None);
    assert_eq!(db.get(b"d1").unwrap(), Some(b"v1".to_vec()));
}

#[test]
fn test_deadlock_cycle_detected() {
    let mut lm = LockManager::new();
    let t1 = TransactionId(1);
    let t2 = TransactionId(2);
    assert!(lm.acquire_lock(b"a", &t1, LockMode::Exclusive));
    assert!(lm.acquire_lock(b"b", &t2, LockMode::Exclusive));
    assert!(!lm.acquire_lock(b"b", &t1, LockMode::Exclusive));
    assert!(!lm.acquire_lock(b"a", &t2, LockMode::Exclusive));
    let cycle = lm.detect_deadlocks();
    assert_eq!(cycle.len(), 2);
    assert!(cycle.iter().any(|t| t.0 == 1));
    assert!(cycle.iter().any(|t| t.0 == 2));
}

#[test]
fn test_no_deadlock_without_cycle() {
    let mut lm = LockManager::new();
    let t1 = TransactionId(10);
    let t2 = TransactionId(20);
    assert!(lm.acquire_lock(b"k", &t1, LockMode::Exclusive));
    assert!(!lm.acquire_lock(b"k", &t2, LockMode::Exclusive));
    assert!(lm.detect_deadlocks().is_empty());
}

#[test]
fn test_deadlock_cleared_by_release() {
    let mut lm = LockManager::new();
    let t1 = TransactionId(7);
    let t2 = TransactionId(8);
    assert!(lm.acquire_lock(b"x", &t1, LockMode::Exclusive));
    assert!(lm.acquire_lock(b"y", &t2, LockMode::Exclusive));
    assert!(!lm.acquire_lock(b"y", &t1, LockMode::Exclusive));
    assert!(!lm.acquire_lock(b"x", &t2, LockMode::Exclusive));
    assert_eq!(lm.detect_deadlocks().len(), 2);
    lm.release_all_locks(&t1);
    assert!(lm.detect_deadlocks().is_empty());
}
