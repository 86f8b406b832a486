//! Core identifier types.

use crate::text::{decimal_digits, push_decimal, push_str};
use vstd::prelude::*;

verus! {

/// Unique identifier for a transaction.
///
/// Transaction IDs are monotonically increasing and never reused.
#[derive(Debug, Clone, Copy, PartialEq, Eq, Structural, PartialOrd, Ord, Hash)]
pub struct TransactionId(pub u64);

impl TransactionId {
    /// Creates a new transaction ID.
    pub fn new(id: u64) -> (r: Self)
        ensures
            r.0 == id,
    {
        TransactionId(id)
    }

    /// Returns the raw ID value.
    pub fn as_u64(self) -> (r: u64)
        ensures
            r == self.0,
    {
        self.0
    }

    /// The display form `txn:<id>`.
    pub fn to_string(&self) -> (r: String)
        ensures
            r@ == "txn:"@ + decimal_digits(self.0 as nat),
    {
        let mut s = String::new();
        push_str(&mut s, "txn:");
        push_decimal(&mut s, self.0);
        s
    }
}

/// Sequence number for ordering commits.
#[derive(Debug, Clone, Copy, PartialEq, Eq, Structural, PartialOrd, Ord, Hash)]
pub struct SequenceNumber(pub u64);

impl SequenceNumber {
    /// Creates a new sequence number.
    pub fn new(seq: u64) -> (r: Self)
        ensures
            r.0 == seq,
    {
        SequenceNumber(seq)
    }

    /// Returns the raw sequence value.
    pub fn as_u64(self) -> (r: u64)
        ensures
            r == self.0,
    {
        self.0
    }

    /// The display form `seq:<n>`.
    pub fn to_string(&self) -> (r: String)
        ensures
            r@ == "seq:"@ + decimal_digits(self.0 as nat),
    {
        let mut s = String::new();
        push_str(&mut s, "seq:");
        push_decimal(&mut s, self.0);
        s
    }

    /// Returns the next sequence number.
    pub fn next(self) -> (r: Self)
        requires
            self.0 < u64::MAX,
        ensures
            r.0 == self.0 + 1,
    {
        SequenceNumber(self.0 + 1)
    }
}

/// Identifier for a collection (entity type container).
#[derive(Debug, Clone, Copy, PartialEq, Eq, Structural, PartialOrd, Ord, Hash)]
pub struct CollectionId(pub u32);

impl CollectionId {
    /// Creates a new collection ID.
    pub fn new(id: u32) -> (r: Self)
        ensures
            r.0 == id,
    {
        CollectionId(id)
    }

    /// Returns the raw ID value.
    pub fn as_u32(self) -> (r: u32)
        ensures
            r == self.0,
    {
        self.0
    }

    /// The display form `col:<id>`.
    pub fn to_string(&self) -> (r: String)
        ensures
            r@ == "col:"@ + decimal_digits(self.0 as nat),
    {
        let mut s = String::new();
        push_str(&mut s, "col:");
        push_decimal(&mut s, self.0 as u64);
        s
    }
}

/// Identifier of an entity: 16 raw bytes.
#[derive(Debug, Clone, Copy, PartialEq, Eq, PartialOrd, Ord, Hash)]
pub struct EntityId(pub [u8; 16]);

/// A hash builder whose keys the standard library seeds at random
/// (`RandomState::new`); nothing is stated of the keys.
#[verifier::external_body]
fn random_state() -> std::collections::hash_map::RandomState {
    std::collections::hash_map::RandomState::new()
}

/// The hash of `x` under the keys of `state` (`BuildHasher::hash_one`);
/// nothing is stated of it, since the keys are random.
#[verifier::external_body]
fn hash_with(state: &std::collections::hash_map::RandomState, x: u64) -> u64 {
    std::hash::BuildHasher::hash_one(state, x)
}

impl EntityId {
    /// Creates a fresh, random entity ID.
    pub fn new() -> (r: Self) {
        let hi = hash_with(&random_state(), 0);
        let lo = hash_with(&random_state(), 0);
        let mut bytes = [0u8; 16];
        let mut i: usize = 0;
        while i < 8
            invariant
                i <= 8,
            decreases 8 - i,
        {
            bytes[i] = ((hi >> (8 * i as u64)) & 0xff) as u8;
            bytes[i + 8] = ((lo >> (8 * i as u64)) & 0xff) as u8;
            i = i + 1;
        }
        EntityId(bytes)
    }

    /// Creates an entity ID from its raw bytes.
    pub fn from_bytes(bytes: [u8; 16]) -> (r: Self)
        ensures
            r.0 == bytes,
    {
        EntityId(bytes)
    }

    /// Returns the raw bytes of the ID.
    pub fn as_bytes(&self) -> (r: &[u8; 16])
        ensures
            *r == self.0,
    {
        &self.0
    }
}

} // verus!
