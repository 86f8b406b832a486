//! EntiDB: an embedded entity database engine with a write-ahead log,
//! append-only segments, transactions and an offline-first sync protocol.

mod types;

pub use types::{CollectionId, EntityId, SequenceNumber, TransactionId};
mod crc;
mod error;

pub use crc::compute_crc32;
pub use error::{CoreError, StorageError};
mod bytes;
mod wal_record;

pub use wal_record::{WalRecord, WalRecordType};
mod segment_record;

pub use segment_record::{Segment, SegmentRecord, SegmentRecordFlags};
mod compaction;

pub use compaction::{CompactionConfig, CompactionResult, Compactor};
mod text;
mod migration;

pub use migration::{
    settle, AppliedMigration, Migration, MigrationContext, MigrationInfo, MigrationManager,
    MigrationOperation, MigrationResult, MigrationRunResult, MigrationState, MigrationVersion,
};
mod stats;

pub use stats::{DatabaseStats, StatsSnapshot};
mod transaction;

pub use transaction::{
    compute_content_hash, PendingWrite, Transaction, TransactionState, TxnKey,
};
mod storage;

pub use storage::{InMemoryBackend, StorageBackend};
mod wal;

pub use wal::{StreamingRecovery, WalManager, WalRecordIterator};
mod operation;
mod oplog;

pub use operation::{OperationType, SyncOperation};
pub use oplog::{LogicalOplog, OplogEntry};
mod change_feed;

pub use change_feed::{ChangeEvent, ChangeFeed, ChangeType};
mod conflict;
mod messages;

pub use conflict::{Conflict, ConflictPolicy, ConflictResolution};
pub use messages::{
    HandshakeRequest, HandshakeResponse, PullRequest, PullResponse, PushRequest, PushResponse,
    SyncMessage,
};
mod encryption;

pub use encryption::{derive_nonce, derive_nonce_key, EncryptionKey, KEY_SIZE, NONCE_SIZE, TAG_SIZE};
mod sync_engine;

pub use sync_engine::{
    MemorySyncApplier, MockTransport, SyncApplier, SyncCycleResult, SyncEngine, SyncError,
    should_retry, SyncRequest, SyncResponse, SyncSettings, SyncState, SyncStats, SyncTransport,
};
mod cbor;

pub use cbor::CodecError;
mod segment_store;

pub use segment_store::{
    BackendFactory, InMemoryFactory, NoListener, SealListener, SegmentInfo, SegmentManager,
};
mod encrypted;

pub use encrypted::EncryptedBackend;
mod txn_manager;

pub use txn_manager::{TransactionManager, WriteTransaction};
mod sync_server;

pub use sync_server::{AuthConfig, ServerError, ServerOplog, SimpleTokenValidator, TokenValidator};
mod handler;
mod http;

pub use http::{CborDecode, CborEncode, HttpClient, HttpTransport, LoopbackClient, LoopbackServer};

pub use handler::{HandlerContext, RequestHandler, ServerConfig, SyncServer};
mod ffi_types;

pub use ffi_types::{
    EntiDbBackupInfo, EntiDbCollectionId, EntiDbCompactionStats, EntiDbEntityId, EntiDbIndexType,
    EntiDbRestoreStats, EntiDbResult, ErrorCode, FfiIterator, FfiTransaction,
};
