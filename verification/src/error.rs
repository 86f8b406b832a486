//! Error types of the library.

use crate::text::{decimal_digits, push_decimal, push_str};
use vstd::prelude::*;

verus! {

/// Errors raised by a storage backend.
#[derive(Debug, Clone, PartialEq, Eq)]
pub enum StorageError {
    /// An input/output failure, with its description.
    Io(String),
    /// A read that reaches beyond the end of the stored bytes.
    ReadPastEnd { offset: u64, len: usize, size: u64 },
    /// The stored bytes are not in the expected format.
    Corrupted(String),
    /// The backend has been closed.
    Closed,
    /// Encryption or decryption failed, or the encrypted layout is invalid.
    Encryption(String),
}

/// Errors raised by the database core.
#[derive(Debug, Clone, PartialEq, Eq)]
pub enum CoreError {
    /// An argument is outside what the operation accepts.
    InvalidArgument(String),
    /// The operation is not allowed in the current state.
    InvalidOperation(String),
    /// The write-ahead log is malformed.
    WalCorruption(String),
    /// A segment record is malformed.
    SegmentCorruption(String),
    /// A stored checksum differs from the one computed over the data.
    ChecksumMismatch { expected: u32, actual: u32 },
    /// A migration could not be registered or run.
    MigrationFailed(String),
    /// The storage backend failed.
    Storage(StorageError),
}

impl CoreError {
    /// An `InvalidArgument` error with the given message.
    pub fn invalid_argument(message: &str) -> (e: Self)
        ensures
            e matches CoreError::InvalidArgument(m) && m@ == message@,
    {
        CoreError::InvalidArgument(message.to_owned())
    }

    /// An `InvalidOperation` error with the given message.
    pub fn invalid_operation(message: &str) -> (e: Self)
        ensures
            e matches CoreError::InvalidOperation(m) && m@ == message@,
    {
        CoreError::InvalidOperation(message.to_owned())
    }

    /// A `WalCorruption` error with the given message.
    pub fn wal_corruption(message: &str) -> (e: Self)
        ensures
            e matches CoreError::WalCorruption(m) && m@ == message@,
    {
        CoreError::WalCorruption(message.to_owned())
    }

    /// A `SegmentCorruption` error with the given message.
    pub fn segment_corruption(message: &str) -> (e: Self)
        ensures
            e matches CoreError::SegmentCorruption(m) && m@ == message@,
    {
        CoreError::SegmentCorruption(message.to_owned())
    }

    /// A `MigrationFailed` error with the given message.
    pub fn migration_failed(message: &str) -> (e: Self)
        ensures
            e matches CoreError::MigrationFailed(m) && m@ == message@,
    {
        CoreError::MigrationFailed(message.to_owned())
    }
}

impl StorageError {
    /// An `Encryption` error with the given message.
    pub fn encryption(message: &str) -> (e: Self)
        ensures
            e matches StorageError::Encryption(m) && m@ == message@,
    {
        StorageError::Encryption(message.to_owned())
    }
}

/// The human-readable message of a storage error.
pub open spec fn storage_error_message(e: StorageError) -> Seq<char> {
    match e {
        StorageError::Io(m) => "I/O error: "@ + m@,
        StorageError::ReadPastEnd { offset, len, size } => "read beyond end of storage: offset "@
            + decimal_digits(offset as nat) + ", len "@ + decimal_digits(len as nat) + ", size "@
            + decimal_digits(size as nat),
        StorageError::Corrupted(m) => "storage corrupted: "@ + m@,
        StorageError::Closed => "storage is closed"@,
        StorageError::Encryption(m) => "encryption error: "@ + m@,
    }
}

/// The human-readable message of a core error.
pub open spec fn core_error_message(e: CoreError) -> Seq<char> {
    match e {
        CoreError::InvalidArgument(m) => "invalid argument: "@ + m@,
        CoreError::InvalidOperation(m) => "invalid operation: "@ + m@,
        CoreError::WalCorruption(m) => "WAL corruption: "@ + m@,
        CoreError::SegmentCorruption(m) => "segment corruption: "@ + m@,
        CoreError::ChecksumMismatch { expected, actual } => "checksum mismatch: expected "@
            + decimal_digits(expected as nat) + ", got "@ + decimal_digits(actual as nat),
        CoreError::MigrationFailed(m) => "migration failed: "@ + m@,
        CoreError::Storage(s) => "storage error: "@ + storage_error_message(s),
    }
}

impl StorageError {
    /// The human-readable message of this error.
    pub fn to_string(&self) -> (r: String)
        ensures
            r@ == storage_error_message(*self),
    {
        let mut s = String::new();
        match self {
            StorageError::Io(m) => {
                push_str(&mut s, "I/O error: ");
                push_str(&mut s, m.as_str());
            },
            StorageError::ReadPastEnd { offset, len, size } => {
                push_str(&mut s, "read beyond end of storage: offset ");
                push_decimal(&mut s, *offset);
                push_str(&mut s, ", len ");
                push_decimal(&mut s, *len as u64);
                push_str(&mut s, ", size ");
                push_decimal(&mut s, *size);
            },
            StorageError::Corrupted(m) => {
                push_str(&mut s, "storage corrupted: ");
                push_str(&mut s, m.as_str());
            },
            StorageError::Closed => {
                push_str(&mut s, "storage is closed");
            },
            StorageError::Encryption(m) => {
                push_str(&mut s, "encryption error: ");
                push_str(&mut s, m.as_str());
            },
        }
        s
    }
}

impl CoreError {
    /// The human-readable message of this error.
    pub fn to_string(&self) -> (r: String)
        ensures
            r@ == core_error_message(*self),
    {
        match self {
            CoreError::InvalidArgument(m) => {
                let mut s = String::new();
                push_str(&mut s, "invalid argument: ");
                push_str(&mut s, m.as_str());
                s
            },
            CoreError::InvalidOperation(m) => {
                let mut s = String::new();
                push_str(&mut s, "invalid operation: ");
                push_str(&mut s, m.as_str());
                s
            },
            CoreError::WalCorruption(m) => {
                let mut s = String::new();
                push_str(&mut s, "WAL corruption: ");
                push_str(&mut s, m.as_str());
                s
            },
            CoreError::SegmentCorruption(m) => {
                let mut s = String::new();
                push_str(&mut s, "segment corruption: ");
                push_str(&mut s, m.as_str());
                s
            },
            CoreError::ChecksumMismatch { expected, actual } => {
                let mut s = String::new();
                push_str(&mut s, "checksum mismatch: expected ");
                push_decimal(&mut s, *expected as u64);
                push_str(&mut s, ", got ");
                push_decimal(&mut s, *actual as u64);
                s
            },
            CoreError::MigrationFailed(m) => {
                let mut s = String::new();
                push_str(&mut s, "migration failed: ");
                push_str(&mut s, m.as_str());
                s
            },
            CoreError::Storage(e) => {
                let mut s = String::new();
                push_str(&mut s, "storage error: ");
                let inner = e.to_string();
                push_str(&mut s, inner.as_str());
                s
            },
        }
    }
}

} // verus!
