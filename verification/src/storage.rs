//! Storage backends: opaque, append-only byte stores.
//!
//! A backend knows nothing of the formats stored in it. `append` returns the
//! offset where the data was written, `read_at` gives back exactly the bytes
//! written there, and `truncate` cuts the store back to a shorter size.

use crate::bytes::{copy_range, push_bytes};
use crate::error::StorageError;
use crate::text::{decimal_digits, push_decimal, push_str};
use vstd::prelude::*;

verus! {

/// A low-level byte store.
///
/// Implementations may fail any operation with an I/O error; the clauses
/// below say what holds whenever an operation succeeds, and which requests
/// are always refused. A backend that declares itself infallible (as the
/// in-memory one does) never fails a request it does not refuse.
///
/// Each implementation gives the spec functions their meaning; code generic
/// over backends sees them as abstract (their bodies here are never seen
/// there).
pub trait StorageBackend {
    /// The bytes currently stored.
    closed spec fn contents(&self) -> Seq<u8> {
        Seq::empty()
    }

    /// The backend's own invariant, which every operation keeps.
    closed spec fn valid(&self) -> bool {
        true
    }

    /// Whether the backend never fails a request it does not refuse.
    closed spec fn infallible(&self) -> bool {
        false
    }

    /// Reads `len` bytes starting at `offset`; refused when the range goes
    /// past the end of the store.
    fn read_at(&self, offset: u64, len: usize) -> (r: Result<Vec<u8>, StorageError>)
        requires
            self.valid(),
        ensures
            offset + len > self.contents().len() ==> r is Err,
            r matches Ok(v) ==> offset + len <= self.contents().len() && v@
                == self.contents().subrange(offset as int, offset + len),
            self.infallible() && offset + len <= self.contents().len() ==> r is Ok,
    ;

    /// Appends `data` at the end of the store and returns the offset where it
    /// was written. Bytes already stored are never changed, even by a failed
    /// append.
    fn append(&mut self, data: &[u8]) -> (r: Result<u64, StorageError>)
        requires
            old(self).valid(),
        ensures
            final(self).valid(),
            old(self).contents().is_prefix_of(final(self).contents()),
            r matches Ok(off) ==> off == old(self).contents().len() && final(self).contents()
                == old(self).contents() + data@,
            old(self).infallible() ==> r is Ok && final(self).infallible(),
    ;

    /// Makes the appended data durable.
    fn flush(&mut self) -> (r: Result<(), StorageError>)
        requires
            old(self).valid(),
        ensures
            final(self).valid(),
            final(self).contents() == old(self).contents(),
            old(self).infallible() ==> r is Ok && final(self).infallible(),
    ;

    /// The size of the store in bytes: the offset of the next append.
    fn size(&self) -> (r: Result<u64, StorageError>)
        requires
            self.valid(),
        ensures
            r matches Ok(n) ==> n == self.contents().len(),
            self.infallible() ==> r is Ok,
    ;

    /// Makes data and metadata durable.
    fn sync(&mut self) -> (r: Result<(), StorageError>)
        requires
            old(self).valid(),
        ensures
            final(self).valid(),
            final(self).contents() == old(self).contents(),
            old(self).infallible() ==> r is Ok && final(self).infallible(),
    ;

    /// Cuts the store back to `new_size` bytes; refused when that is larger
    /// than the current size. A failed truncation leaves the bytes either
    /// untouched or cut back.
    fn truncate(&mut self, new_size: u64) -> (r: Result<(), StorageError>)
        requires
            old(self).valid(),
        ensures
            final(self).valid(),
            new_size > old(self).contents().len() ==> r is Err && final(self).contents() == old(
                self,
            ).contents(),
            r is Ok ==> new_size <= old(self).contents().len() && final(self).contents() == old(
                self,
            ).contents().take(new_size as int),
            r is Err ==> final(self).contents() == old(self).contents() || final(self).contents()
                == old(self).contents().take(new_size as int),
            old(self).infallible() ==> final(self).infallible(),
            old(self).infallible() && new_size <= old(self).contents().len() ==> r is Ok,
    ;
}

/// Message of the error raised when truncating beyond the end.
pub open spec fn truncate_message(new_size: u64, size: u64) -> Seq<char> {
    "cannot truncate to size "@ + decimal_digits(new_size as nat)
        + " which is greater than current size "@ + decimal_digits(size as nat)
}

/// A storage backend held in memory.
#[derive(Debug)]
pub struct InMemoryBackend {
    data: Vec<u8>,
}

impl View for InMemoryBackend {
    type V = Seq<u8>;

    /// The stored bytes.
    closed spec fn view(&self) -> Seq<u8> {
        self.data@
    }
}

impl Default for InMemoryBackend {
    fn default() -> (r: Self)
        ensures
            r@ == Seq::<u8>::empty(),
    {
        InMemoryBackend::new()
    }
}

impl InMemoryBackend {
    /// Creates an empty backend.
    pub fn new() -> (r: Self)
        ensures
            r@ == Seq::<u8>::empty(),
    {
        InMemoryBackend { data: Vec::new() }
    }

    /// Creates a backend holding `data`.
    pub fn with_data(data: Vec<u8>) -> (r: Self)
        ensures
            r@ == data@,
    {
        InMemoryBackend { data }
    }

    /// A copy of all stored bytes.
    pub fn data(&self) -> (r: Vec<u8>)
        ensures
            r@ == self@,
    {
        copy_range(self.data.as_slice(), 0, self.data.len())
    }

    /// Removes all stored bytes.
    pub fn clear(&mut self)
        ensures
            final(self)@ == Seq::<u8>::empty(),
    {
        self.data.clear();
    }
}

impl StorageBackend for InMemoryBackend {
    open spec fn contents(&self) -> Seq<u8> {
        self@
    }

    open spec fn valid(&self) -> bool {
        true
    }

    open spec fn infallible(&self) -> bool {
        true
    }

    fn read_at(&self, offset: u64, len: usize) -> (r: Result<Vec<u8>, StorageError>)
        ensures
            r matches Err(e) ==> e == (StorageError::ReadPastEnd {
                offset,
                len,
                size: self@.len() as u64,
            }),
            r is Err <==> offset + len > self@.len(),
    {
        let size = self.data.len() as u64;
        if offset > size || len as u64 > size - offset {
            return Err(StorageError::ReadPastEnd { offset, len, size });
        }
        let start = offset as usize;
        Ok(copy_range(self.data.as_slice(), start, start + len))
    }

    fn append(&mut self, data: &[u8]) -> (r: Result<u64, StorageError>)
        ensures
            r is Ok,
    {
        let offset = self.data.len() as u64;
        push_bytes(&mut self.data, data);
        Ok(offset)
    }

    fn flush(&mut self) -> (r: Result<(), StorageError>)
        ensures
            r is Ok,
    {
        Ok(())
    }

    fn size(&self) -> (r: Result<u64, StorageError>)
        ensures
            r is Ok,
    {
        Ok(self.data.len() as u64)
    }

    fn sync(&mut self) -> (r: Result<(), StorageError>)
        ensures
            r is Ok,
    {
        Ok(())
    }

    fn truncate(&mut self, new_size: u64) -> (r: Result<(), StorageError>)
        ensures
            r is Err <==> new_size > old(self)@.len(),
            r matches Err(e) ==> e matches StorageError::Io(m) && m@ == truncate_message(
                new_size,
                old(self)@.len() as u64,
            ),
    {
        let current_size = self.data.len() as u64;
        if new_size > current_size {
            let mut m = String::new();
            push_str(&mut m, "cannot truncate to size ");
            push_decimal(&mut m, new_size);
            push_str(&mut m, " which is greater than current size ");
            push_decimal(&mut m, current_size);
            return Err(StorageError::Io(m));
        }
        self.data.truncate(new_size as usize);
        Ok(())
    }
}

} // verus!
