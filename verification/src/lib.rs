//! An append-only, tamper-evident key-value store: a log-structured engine
//! (write-ahead log, memtable, sorted runs, leveled compaction) whose
//! committed records are indexed by a hash-chained Merkle ledger, guarded by
//! a two-phase-locking transaction layer, and replicated through a Raft
//! node. The core is verified; file and network plumbing lives outside it.

pub mod auth;
pub mod auth_manager;
pub mod blockchain;
pub mod compaction;
pub mod consensus;
pub mod crypto;
pub mod error;
pub mod identity;
pub mod lock_manager;
pub mod memtable;
pub mod permissions;
pub mod record;
pub mod sstable;
pub mod storage;
pub mod transaction;
pub mod util;
pub mod wal_format;

pub use util::bytes_eq;
pub use util::bytes_lt;

pub use auth::AuthContext;
pub use auth::AuthError;
pub use auth::CryptoUtils;
pub use auth::KeyPair;
pub use auth_manager::AuthConfig;
pub use auth_manager::AuthManager;
pub use blockchain::Block;
pub use blockchain::BlockChain;
pub use consensus::ClusterConfig;
pub use consensus::NodeAddress;
pub use consensus::NodeId;
pub use error::BlockDBError;
pub use identity::CryptoIdentity;
pub use identity::IdentityChain;
pub use permissions::Permission;
pub use permissions::PermissionSet;
pub use record::Record;
pub use storage::BlockDB;
pub use storage::BlockDBConfig;
pub use transaction::Operation;
pub use transaction::TransactionId;
pub use transaction::TransactionManager;
