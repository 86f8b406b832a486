//! Keys and deterministic nonces for encryption at rest.
//!
//! Stored data is encrypted in fixed-size blocks with AES-256-GCM. The nonce
//! of each block is derived from the key and the block number, so the same
//! data under the same key always encrypts to the same bytes, and different
//! keys give different nonce sequences.

use crate::error::StorageError;
use crate::text::{decimal_digits, push_decimal, push_str};
use vstd::prelude::*;

verus! {

/// Size of an encryption key in bytes (AES-256).
pub const KEY_SIZE: usize = 32;

/// Size of a nonce in bytes.
pub const NONCE_SIZE: usize = 12;

/// Size of an authentication tag in bytes.
pub const TAG_SIZE: usize = 16;

/// Default plaintext block size.
pub const DEFAULT_BLOCK_SIZE: usize = 4096;

/// Message of the error raised for a key of the wrong size.
pub open spec fn key_size_message(got: nat) -> Seq<char> {
    "invalid key size: expected 32, got "@ + decimal_digits(got)
}

/// A 256-bit encryption key.
#[derive(Clone)]
pub struct EncryptionKey {
    bytes: [u8; KEY_SIZE],
}

impl View for EncryptionKey {
    type V = Seq<u8>;

    /// The key bytes.
    closed spec fn view(&self) -> Seq<u8> {
        self.bytes@
    }
}

impl EncryptionKey {
    /// A key from exactly 32 bytes.
    pub fn from_bytes(bytes: &[u8]) -> (r: Result<Self, StorageError>)
        ensures
            bytes@.len() == 32 <==> r is Ok,
            r matches Ok(k) ==> k@ == bytes@,
            r matches Err(e) ==> e matches StorageError::Encryption(m) && m@ == key_size_message(
                bytes@.len(),
            ),
    {
        if bytes.len() != KEY_SIZE {
            let mut m = String::new();
            push_str(&mut m, "invalid key size: expected 32, got ");
            push_decimal(&mut m, bytes.len() as u64);
            return Err(StorageError::Encryption(m));
        }
        let mut key_bytes = [0u8; KEY_SIZE];
        let mut i: usize = 0;
        while i < KEY_SIZE
            invariant
                i <= 32,
                bytes@.len() == 32,
                key_bytes@.len() == 32,
                forall|k: int| 0 <= k < i ==> key_bytes@[k] == bytes@[k],
            decreases 32 - i,
        {
            key_bytes[i] = bytes[i];
            i = i + 1;
        }
        assert(key_bytes@ =~= bytes@);
        Ok(EncryptionKey { bytes: key_bytes })
    }

    /// The key bytes.
    pub fn as_bytes(&self) -> (r: &[u8; KEY_SIZE])
        ensures
            r@ == self@,
    {
        &self.bytes
    }
}

/// The domain separator mixed into the nonce key: `"EntiDB-Nonce-Key-Derivation-V1"`
/// followed by two zero bytes.
pub open spec fn nonce_domain() -> Seq<u8> {
    seq![
        0x45u8, 0x6E, 0x74, 0x69, 0x44, 0x42, 0x2D, 0x4E, 0x6F, 0x6E, 0x63, 0x65, 0x2D, 0x4B, 0x65,
        0x79, 0x2D, 0x44, 0x65, 0x72, 0x69, 0x76, 0x61, 0x74, 0x69, 0x6F, 0x6E, 0x2D, 0x56, 0x31,
        0x00, 0x00,
    ]
}

/// `x` rotated left by `n` bits, `0 < n < 8`.
pub open spec fn rotl8(x: u8, n: u32) -> u8 {
    ((x << n) | (x >> ((8 - n) as u32))) as u8
}

/// `x` rotated right by `n` bits, `0 < n < 8`.
pub open spec fn rotr8(x: u8, n: u32) -> u8 {
    ((x >> n) | (x << ((8 - n) as u32))) as u8
}

/// `a + b` modulo 256.
pub open spec fn add8(a: u8, b: u8) -> u8 {
    ((a + b) % 256) as u8
}

/// One mixing round of the nonce key derivation.
pub open spec fn mix_round(k: Seq<u8>, round: u8) -> Seq<u8> {
    Seq::new(
        32,
        |i: int|
            add8(
                add8(add8(k[i], rotl8(k[(i + 31) % 32], 3)), rotr8(k[(i + 1) % 32], 5)),
                round,
            ),
    )
}

/// The nonce key derived from a key: the key XORed with the domain
/// separator, then four mixing rounds.
#[verifier::opaque]
pub open spec fn spec_nonce_key(key: Seq<u8>) -> Seq<u8> {
    let k0 = Seq::new(32, |i: int| key[i] ^ nonce_domain()[i]);
    mix_round(mix_round(mix_round(mix_round(k0, 0), 1), 2), 3)
}

/// The nonce of block `block`: each byte mixes a nonce-key byte, a byte of
/// the block number and its position, rotated by an amount that depends on
/// the block number.
#[verifier::opaque]
pub open spec fn spec_nonce(nonce_key: Seq<u8>, block: u64) -> Seq<u8> {
    Seq::new(
        12,
        |i: int|
            rotl8(
                add8(add8(nonce_key[i], spec_u64_le_byte(block, i % 8)), ((i * 17) % 256) as u8),
                (block % 7 + 1) as u32,
            ),
    )
}

/// Byte `i` of the little-endian encoding of `x`.
pub open spec fn spec_u64_le_byte(x: u64, i: int) -> u8 {
    ((x >> ((8 * i) as u64)) & 0xff) as u8
}

fn rotl(x: u8, n: u32) -> (r: u8)
    requires
        0 < n < 8,
    ensures
        r == rotl8(x, n),
{
    (x << n) | (x >> (8 - n))
}

fn rotr(x: u8, n: u32) -> (r: u8)
    requires
        0 < n < 8,
    ensures
        r == rotr8(x, n),
{
    (x >> n) | (x << (8 - n))
}

fn add_wrap(a: u8, b: u8) -> (r: u8)
    ensures
        r == add8(a, b),
{
    a.wrapping_add(b)
}

fn nonce_domain_bytes() -> (r: [u8; 32])
    ensures
        r@ == nonce_domain(),
{
    let r: [u8; 32] = [
        0x45, 0x6E, 0x74, 0x69, 0x44, 0x42, 0x2D, 0x4E, 0x6F, 0x6E, 0x63, 0x65, 0x2D, 0x4B, 0x65,
        0x79, 0x2D, 0x44, 0x65, 0x72, 0x69, 0x76, 0x61, 0x74, 0x69, 0x6F, 0x6E, 0x2D, 0x56, 0x31,
        0x00, 0x00,
    ];
    assert(r@ =~= nonce_domain());
    r
}

fn mix(k: &[u8; 32], round: u8) -> (r: [u8; 32])
    ensures
        r@ == mix_round(k@, round),
{
    let mut temp = [0u8; 32];
    let mut i: usize = 0;
    while i < 32
        invariant
            i <= 32,
            k@.len() == 32,
            temp@.len() == 32,
            forall|j: int| 0 <= j < i ==> temp@[j] == mix_round(k@, round)[j],
        decreases 32 - i,
    {
        let prev = k[(i + 31) % 32];
        let next = k[(i + 1) % 32];
        temp[i] = add_wrap(add_wrap(add_wrap(k[i], rotl(prev, 3)), rotr(next, 5)), round);
        i = i + 1;
    }
    assert(temp@ =~= mix_round(k@, round));
    temp
}

/// Derives the key that nonces are computed from.
pub fn derive_nonce_key(key: &[u8; KEY_SIZE]) -> (r: [u8; KEY_SIZE])
    ensures
        r@ == spec_nonce_key(key@),
{
    let domain = nonce_domain_bytes();
    let mut k0 = [0u8; 32];
    let mut i: usize = 0;
    while i < 32
        invariant
            i <= 32,
            key@.len() == 32,
            k0@.len() == 32,
            domain@ == nonce_domain(),
            forall|j: int| 0 <= j < i ==> k0@[j] == key@[j] ^ nonce_domain()[j],
        decreases 32 - i,
    {
        k0[i] = key[i] ^ domain[i];
        i = i + 1;
    }
    assert(k0@ =~= Seq::new(32, |j: int| key@[j] ^ nonce_domain()[j]));
    let k1 = mix(&k0, 0);
    let k2 = mix(&k1, 1);
    let k3 = mix(&k2, 2);
    proof {
        reveal(spec_nonce_key);
    }
    mix(&k3, 3)
}

/// Derives the nonce of block `block_number`.
pub fn derive_nonce(nonce_key: &[u8; KEY_SIZE], block_number: u64) -> (r: [u8; NONCE_SIZE])
    ensures
        r@ == spec_nonce(nonce_key@, block_number),
{
    proof {
        reveal(spec_nonce);
    }
    let mut nonce = [0u8; NONCE_SIZE];
    let shift = (block_number % 7) as u32 + 1;
    let mut i: usize = 0;
    while i < NONCE_SIZE
        invariant
            i <= 12,
            nonce_key@.len() == 32,
            nonce@.len() == 12,
            shift == (block_number % 7 + 1) as u32,
            forall|j: int| 0 <= j < i ==> nonce@[j] == spec_nonce(nonce_key@, block_number)[j],
        decreases 12 - i,
    {
        proof {
            reveal(spec_nonce);
        }
        let key_byte = nonce_key[i % KEY_SIZE];
        let block_byte = ((block_number >> (8 * (i % 8)) as u64) & 0xff) as u8;
        let pos = ((i * 17) % 256) as u8;
        nonce[i] = rotl(add_wrap(add_wrap(key_byte, block_byte), pos), shift);
        i = i + 1;
    }
    proof {
        reveal(spec_nonce);
    }
    assert(nonce@ =~= spec_nonce(nonce_key@, block_number));
    nonce
}

} // verus!
