//! A storage backend that encrypts everything it stores with AES-256-GCM.
//!
//! The wrapped backend holds a 32-byte header followed by encrypted blocks:
//!
//! ```text
//! [magic "ENTIDBEC" (8)][version (4)][block size (4)][logical size (8)][reserved (8)]
//! [block 0][block 1]...
//! block b: [nonce of b (12)][AES-GCM of: length (4) | plaintext | zero padding (16-byte tag)]
//! ```
//!
//! Every block holds `block_size` plaintext bytes, except the last, which may
//! hold fewer. Appended bytes are kept in memory until they fill a block or
//! are flushed; a flushed partial block is rewritten when it fills up.

use crate::bytes::{copy_range, push_bytes, push_u32_le, push_u64_le, read_u32_le};
use crate::encryption::{
    derive_nonce, derive_nonce_key, spec_nonce, spec_nonce_key, EncryptionKey, DEFAULT_BLOCK_SIZE,
};
use crate::error::StorageError;
use crate::storage::StorageBackend;
use crate::text::{decimal_digits, push_decimal, push_str};
use crate::wal_record::{le32_at, le64_at};
use aes_gcm::aead::{Aead, KeyInit};
use aes_gcm::{Aes256Gcm, Key, Nonce};
use vstd::prelude::*;

verus! {

/// Size of the header in bytes.
pub const HEADER_SIZE: usize = 32;

/// Smallest accepted plaintext block size.
pub const MIN_BLOCK_SIZE: usize = 1024;

/// Largest accepted plaintext block size.
pub const MAX_BLOCK_SIZE: usize = 1048576;

/// What AES-256-GCM encryption of `plaintext` under `key` and `nonce`, with
/// no associated data, gives: the ciphertext followed by the tag.
pub uninterp spec fn aes_gcm_seal(key: Seq<u8>, nonce: Seq<u8>, plaintext: Seq<u8>) -> Seq<u8>;

/// What AES-256-GCM decryption of `ciphertext` (ending with its tag) under
/// `key` and `nonce`, with no associated data, gives: the plaintext, or
/// nothing when the tag does not authenticate it.
pub uninterp spec fn aes_gcm_open(key: Seq<u8>, nonce: Seq<u8>, ciphertext: Seq<u8>) -> Option<
    Seq<u8>,
>;

/// Encrypts with `Aead::encrypt` of `aes_gcm::Aes256Gcm`, keyed with `key`
/// (`KeyInit::new`). As the crate's source shows, this fails only for
/// plaintexts longer than 2^36 bytes, appends a 16-byte tag to a ciphertext
/// of the plaintext's length, and `Aead::decrypt` with the same key and
/// nonce gives the plaintext back. Nothing is claimed of the ciphertext
/// bytes themselves.
#[verifier::external_body]
fn aes_gcm_encrypt(key: &[u8; 32], nonce: &[u8; 12], plaintext: &[u8]) -> (r: Option<Vec<u8>>)
    ensures
        r is Some <==> plaintext@.len() <= 0x10_0000_0000,
        r matches Some(c) ==> c@ == aes_gcm_seal(key@, nonce@, plaintext@),
        r matches Some(c) ==> c@.len() == plaintext@.len() + 16,
        r matches Some(c) ==> aes_gcm_open(key@, nonce@, c@) == Some(plaintext@),
{
    let cipher = Aes256Gcm::new(Key::<Aes256Gcm>::from_slice(key));
    cipher.encrypt(Nonce::from_slice(nonce), plaintext).ok()
}

/// Decrypts with `Aead::decrypt` of `aes_gcm::Aes256Gcm`, keyed with `key`
/// (`KeyInit::new`). As the crate's source shows, a plaintext it returns is
/// 16 bytes shorter than the ciphertext. Whether a given ciphertext
/// authenticates is not stated beyond the name.
#[verifier::external_body]
fn aes_gcm_decrypt(key: &[u8; 32], nonce: &[u8; 12], ciphertext: &[u8]) -> (r: Option<Vec<u8>>)
    ensures
        opt_bytes(r) == aes_gcm_open(key@, nonce@, ciphertext@),
        r matches Some(p) ==> p@.len() + 16 == ciphertext@.len(),
{
    let cipher = Aes256Gcm::new(Key::<Aes256Gcm>::from_slice(key));
    cipher.decrypt(Nonce::from_slice(nonce), ciphertext).ok()
}

/// The bytes of an optional vector.
pub open spec fn opt_bytes(v: Option<Vec<u8>>) -> Option<Seq<u8>> {
    match v {
        Some(p) => Some(p@),
        None => None,
    }
}

/// Size of an encrypted block.
pub open spec fn enc_size(bs: int) -> int {
    bs + 32
}

/// Where block `b` starts in the wrapped backend.
pub open spec fn phys(bs: int, b: int) -> int {
    32 + b * enc_size(bs)
}

/// The magic bytes `"ENTIDBEC"`.
pub open spec fn magic() -> Seq<u8> {
    seq![0x45u8, 0x4E, 0x54, 0x49, 0x44, 0x42, 0x45, 0x43]
}

/// The header written for a new store.
pub open spec fn header_bytes(bs: u32) -> Seq<u8> {
    magic() + vstd::bytes::spec_u32_to_le_bytes(1) + vstd::bytes::spec_u32_to_le_bytes(bs)
        + vstd::bytes::spec_u64_to_le_bytes(0) + Seq::new(8, |i: int| 0u8)
}

/// The plaintext stored in the encrypted block `c`, which must be block
/// number `b`: its nonce must be that of `b`, it must authenticate, and its
/// length field must fit the block.
#[verifier::opaque]
pub open spec fn block_plain(key: Seq<u8>, bs: int, b: u64, c: Seq<u8>) -> Option<Seq<u8>> {
    if c.len() != enc_size(bs) {
        None
    } else if c.subrange(0, 12) != spec_nonce(spec_nonce_key(key), b) {
        None
    } else {
        match aes_gcm_open(key, c.subrange(0, 12), c.subrange(12, c.len() as int)) {
            None => None,
            Some(f) => if f.len() < 4 || le32_at(f, 0) > bs || 4 + le32_at(f, 0) > f.len() {
                None
            } else {
                Some(f.subrange(4, 4 + le32_at(f, 0)))
            },
        }
    }
}

/// The block with number `b` of the stored bytes `d`.
pub open spec fn block_at(d: Seq<u8>, bs: int, b: int) -> Seq<u8> {
    d.subrange(phys(bs, b), phys(bs, b + 1))
}

/// Messages of the failures of opening stored bytes.
pub open spec fn nonce_recovery_message(b: u64) -> Seq<char> {
    "nonce mismatch for block "@ + decimal_digits(b as nat) + " during recovery"@
}

/// Reading the first `m` blocks of `d` back when opening a store: their
/// plaintexts in order, or the message of the first failure. Every block
/// but the last must be full.
pub open spec fn recover_blocks(key: Seq<u8>, bs: int, d: Seq<u8>, m: nat) -> Result<
    Seq<u8>,
    Seq<char>,
>
    decreases m,
{
    if m == 0 {
        Ok(Seq::empty())
    } else {
        match recover_blocks(key, bs, d, (m - 1) as nat) {
            Err(msg) => Err(msg),
            Ok(prev) => {
                let b = (m - 1) as int;
                let c = block_at(d, bs, b);
                if prev.len() != b * bs {
                    Err("partial block before the last block - possible corruption"@)
                } else if c.subrange(0, 12) != spec_nonce(spec_nonce_key(key), b as u64) {
                    Err(nonce_recovery_message(b as u64))
                } else {
                    match aes_gcm_open(key, c.subrange(0, 12), c.subrange(12, c.len() as int)) {
                        None => Err("decryption failed during recovery - wrong key?"@),
                        Some(f) => if f.len() < 4 {
                            Err("block too short during recovery"@)
                        } else if le32_at(f, 0) > bs || 4 + le32_at(f, 0) > f.len() {
                            Err("invalid block length during recovery"@)
                        } else {
                            Ok(prev + f.subrange(4, 4 + le32_at(f, 0)))
                        },
                    }
                }
            },
        }
    }
}

/// The failure message of reading back block `b` when opening a store.
pub open spec fn recover_block_err(key: Seq<u8>, bs: int, b: u64, c: Seq<u8>) -> Option<Seq<char>> {
    if c.subrange(0, 12) != spec_nonce(spec_nonce_key(key), b) {
        Some(nonce_recovery_message(b))
    } else {
        match aes_gcm_open(key, c.subrange(0, 12), c.subrange(12, c.len() as int)) {
            None => Some("decryption failed during recovery - wrong key?"@),
            Some(f) => if f.len() < 4 {
                Some("block too short during recovery"@)
            } else if le32_at(f, 0) > bs || 4 + le32_at(f, 0) > f.len() {
                Some("invalid block length during recovery"@)
            } else {
                None
            },
        }
    }
}

/// Once a recovery fails, reading more blocks fails the same way.
proof fn lemma_recover_err_later(key: Seq<u8>, bs: int, d: Seq<u8>, a: nat, m: nat)
    requires
        a <= m,
        recover_blocks(key, bs, d, a) is Err,
    ensures
        recover_blocks(key, bs, d, m) == recover_blocks(key, bs, d, a),
    decreases m - a,
{
    if a < m {
        lemma_recover_err_later(key, bs, d, a, (m - 1) as nat);
    }
}

/// A block that reads back joins the recovered plaintext and the layout.
proof fn lemma_open_adopt(
    d: Seq<u8>,
    key: Seq<u8>,
    bs: int,
    full: int,
    committed: Seq<u8>,
    p: Seq<u8>,
    b: nat,
    m: nat,
)
    requires
        layout_ok(d, key, bs, full, Seq::empty(), false, committed),
        recover_blocks(key, bs, d, b) == Ok::<Seq<u8>, Seq<char>>(committed),
        committed.len() == full * bs,
        b == full,
        b < m,
        m <= u64::MAX,
        d.len() == phys(bs, m as int),
        phys(bs, (m + 1) as int) <= u64::MAX,
        1024 <= bs,
        recover_block_err(key, bs, b as u64, block_at(d, bs, b as int)) is None,
        block_plain(key, bs, b as u64, block_at(d, bs, b as int)) == Some(p),
    ensures
        recover_blocks(key, bs, d, b + 1) == Ok::<Seq<u8>, Seq<char>>(committed + p),
        p.len() <= bs,
        p.len() == bs ==> layout_ok(d, key, bs, full + 1, Seq::empty(), false, committed + p)
            && (committed + p).len() == (full + 1) * bs,
        p.len() < bs ==> layout_ok(d, key, bs, full, p, true, committed),
{
    reveal(block_plain);
    assert(((b + 1) - 1) as nat == b);
    lemma_phys_mono(bs, (b + 1) as int, m as int);
    lemma_phys_mono(bs, (b + 2) as int, (m + 1) as int);
    assert((full + 1) * bs == full * bs + bs) by (nonlinear_arith);
    lemma_layout_adopt(d, key, bs, full, committed, p);
}

/// Opening a store whose wrapped backend holds `d` (not empty) with block
/// size `bs`: the plaintext it holds, or the message of the failure.
pub open spec fn open_outcome(key: Seq<u8>, bs: int, d: Seq<u8>) -> Result<Seq<u8>, Seq<char>> {
    if d.len() < 32 {
        Err("storage too small to contain header"@)
    } else if d.subrange(0, 8) != magic() {
        Err("invalid magic bytes - not an encrypted EntiDB file"@)
    } else if le32_at(d, 8) != 1 {
        Err(
            "unsupported format version: "@ + decimal_digits(le32_at(d, 8) as nat) + ", expected 1"@,
        )
    } else if le32_at(d, 12) < 1024 || le32_at(d, 12) > 1048576 {
        Err("invalid block size: "@ + decimal_digits(le32_at(d, 12) as nat))
    } else if le32_at(d, 12) != bs {
        Err(
            "block size mismatch: storage has "@ + decimal_digits(le32_at(d, 12) as nat)
                + ", requested "@ + decimal_digits(bs as nat),
        )
    } else if (d.len() - 32) % enc_size(bs) != 0 {
        Err("storage contains partial encrypted block - possible corruption"@)
    } else if d.len() + enc_size(bs) > u64::MAX {
        Err("storage is full"@)
    } else {
        recover_blocks(key, bs, d, ((d.len() - 32) / enc_size(bs)) as nat)
    }
}

/// Message of the error raised for a block size out of range.
pub open spec fn block_size_message(bs: nat) -> Seq<char> {
    "block size must be between 1KB and 1MB, got "@ + decimal_digits(bs)
}

proof fn lemma_framed_len(f: Seq<u8>, plain: Seq<u8>)
    requires
        plain.len() <= 1048576,
        f.len() >= 4 + plain.len(),
        f.subrange(0, 4) == vstd::bytes::spec_u32_to_le_bytes(plain.len() as u32),
        f.subrange(4, 4 + plain.len() as int) == plain,
    ensures
        le32_at(f, 0) == plain.len(),
        f.subrange(4, 4 + le32_at(f, 0)) == plain,
{
    vstd::bytes::lemma_auto_spec_u32_to_from_le_bytes();
    let x = plain.len() as u32;
    assert(vstd::bytes::spec_u32_to_le_bytes(x).len() == 4);
    assert(vstd::bytes::spec_u32_from_le_bytes(vstd::bytes::spec_u32_to_le_bytes(x)) == x);
}

/// The block contents before encryption: the length of `plain`, `plain`,
/// and zeros up to `4 + bs` bytes.
fn frame_block(plain: &[u8], bs: usize) -> (r: Vec<u8>)
    requires
        plain@.len() <= bs <= 1048576,
    ensures
        r@.len() == 4 + bs,
        r@.subrange(0, 4) == vstd::bytes::spec_u32_to_le_bytes(plain@.len() as u32),
        r@.subrange(4, 4 + plain@.len() as int) == plain@,
{
    let mut block_data: Vec<u8> = Vec::new();
    push_u32_le(&mut block_data, plain.len() as u32);
    push_bytes(&mut block_data, plain);
    proof {
        vstd::bytes::lemma_auto_spec_u32_to_from_le_bytes();
        assert(vstd::bytes::spec_u32_to_le_bytes(plain@.len() as u32).len() == 4);
        assert(block_data@.subrange(0, 4) =~= vstd::bytes::spec_u32_to_le_bytes(plain@.len() as u32));
        assert(block_data@.subrange(4, 4 + plain@.len() as int) =~= plain@);
    }
    let mut i: usize = plain.len();
    while i < bs
        invariant
            plain@.len() <= i <= bs,
            block_data@.len() == 4 + i,
            block_data@.subrange(0, 4) == vstd::bytes::spec_u32_to_le_bytes(plain@.len() as u32),
            block_data@.subrange(4, 4 + plain@.len() as int) == plain@,
        decreases bs - i,
    {
        let ghost before = block_data@;
        block_data.push(0u8);
        proof {
            assert(block_data@.subrange(0, 4) =~= before.subrange(0, 4));
            assert(block_data@.subrange(4, 4 + plain@.len() as int) =~= before.subrange(
                4,
                4 + plain@.len() as int,
            ));
        }
        i = i + 1;
    }
    block_data
}

/// Number of blocks stored: the full ones, and the partial one if stored.
pub open spec fn stored_count(full: int, tail_stored: bool) -> int {
    full + if tail_stored {
        1int
    } else {
        0
    }
}

/// The stored bytes `d` hold, after the header, `full` blocks with the
/// plaintext `committed`, then, if `tail_stored`, a block with `tail`; any
/// bytes after those are ignored.
#[verifier::opaque]
pub open spec fn layout_ok(
    d: Seq<u8>,
    key: Seq<u8>,
    bs: int,
    full: int,
    tail: Seq<u8>,
    tail_stored: bool,
    committed: Seq<u8>,
) -> bool {
    &&& 1024 <= bs <= 1048576
    &&& 0 <= full
    &&& tail.len() <= bs
    &&& tail_stored ==> tail.len() < bs
    &&& committed.len() == full * bs
    &&& phys(bs, full + 1) <= u64::MAX
    &&& stored_count(full, tail_stored) > 0 ==> d.len() >= phys(bs, stored_count(full, tail_stored))
    &&& forall|b: int|
        0 <= b < full ==> block_plain(key, bs, b as u64, #[trigger] block_at(d, bs, b)) == Some(
            committed.subrange(b * bs, (b + 1) * bs),
        )
    &&& tail_stored ==> block_plain(key, bs, full as u64, block_at(d, bs, full)) == Some(tail)
}

proof fn lemma_phys_mono(bs: int, a: int, b: int)
    requires
        0 <= a <= b,
        bs >= 0,
    ensures
        phys(bs, a) <= phys(bs, b),
        phys(bs, a + 1) == phys(bs, a) + enc_size(bs),
{
    assert(a * enc_size(bs) <= b * enc_size(bs)) by (nonlinear_arith)
        requires
            0 <= a <= b,
            enc_size(bs) >= 0,
    ;
    assert((a + 1) * enc_size(bs) == a * enc_size(bs) + enc_size(bs)) by (nonlinear_arith);
}

proof fn lemma_block_plain_len(key: Seq<u8>, bs: int, b: u64, c: Seq<u8>)
    requires
        block_plain(key, bs, b, c) is Some,
    ensures
        c.len() == enc_size(bs),
{
    reveal(block_plain);
}

proof fn lemma_concat_last(d: Seq<u8>, blk: Seq<u8>)
    ensures
        (d + blk).subrange(d.len() as int, (d.len() + blk.len()) as int) == blk,
        d.is_prefix_of(d + blk),
{
    assert((d + blk).subrange(d.len() as int, (d.len() + blk.len()) as int) =~= blk);
    assert((d + blk).subrange(0, d.len() as int) =~= d);
}

/// Cutting off the bytes after the full blocks keeps the layout.
proof fn lemma_cut_keeps(
    d: Seq<u8>,
    d2: Seq<u8>,
    key: Seq<u8>,
    bs: int,
    n: int,
    tail: Seq<u8>,
    committed: Seq<u8>,
)
    requires
        layout_ok(d, key, bs, n, tail, false, committed),
        phys(bs, n) <= d.len(),
        d2 == d || d2 == d.take(phys(bs, n)),
    ensures
        layout_ok(d2, key, bs, n, tail, false, committed),
{
    reveal(layout_ok);
    lemma_phys_mono(bs, 0, n);
    lemma_cut_prefix(d, d2, phys(bs, n));
    lemma_layout_shrink(d, d2, key, bs, n, tail, false, committed, n);
    assert(committed.take(n * bs) =~= committed);
    lemma_layout_new_tail(d2, key, bs, n, Seq::empty(), false, committed, tail);
}

proof fn lemma_cut_prefix(d: Seq<u8>, d2: Seq<u8>, n: int)
    requires
        0 <= n <= d.len(),
        d2 == d || d2 == d.take(n),
    ensures
        d.take(n).is_prefix_of(d2),
{
    assert(d.take(n) =~= d2.subrange(0, n));
}

proof fn lemma_prefix_sub(d: Seq<u8>, d2: Seq<u8>, lo: int, hi: int)
    requires
        0 <= lo <= hi <= d.len(),
        d.is_prefix_of(d2),
    ensures
        d2.subrange(lo, hi) == d.subrange(lo, hi),
{
    assert(d2.subrange(lo, hi) =~= d.subrange(lo, hi));
}

proof fn lemma_take_sub(c: Seq<u8>, n: int, lo: int, hi: int)
    requires
        0 <= lo <= hi <= n <= c.len(),
    ensures
        c.take(n).subrange(lo, hi) == c.subrange(lo, hi),
{
    assert(c.take(n).subrange(lo, hi) =~= c.subrange(lo, hi));
}

proof fn lemma_concat_sub(c: Seq<u8>, t: Seq<u8>, lo: int, hi: int)
    requires
        0 <= lo <= hi <= c.len(),
    ensures
        (c + t).subrange(lo, hi) == c.subrange(lo, hi),
{
    assert((c + t).subrange(lo, hi) =~= c.subrange(lo, hi));
}

/// Block `b` (counted from zero) lies before block `n`, and its plaintext
/// before `n` blocks of plaintext.
proof fn lemma_block_before(bs: int, b: int, n: int)
    requires
        0 <= b < n,
        bs >= 0,
    ensures
        phys(bs, b) >= 32,
        phys(bs, b) <= phys(bs, b + 1) <= phys(bs, n),
        0 <= b * bs <= (b + 1) * bs <= n * bs,
{
    lemma_phys_mono(bs, b, b + 1);
    lemma_phys_mono(bs, b + 1, n);
    lemma_phys_mono(bs, 0, b);
    assert(0 <= b * bs <= (b + 1) * bs <= n * bs) by (nonlinear_arith)
        requires
            0 <= b < n,
            bs >= 0,
    ;
}

/// Bytes added after the stored blocks change nothing.
proof fn lemma_layout_extend(
    d: Seq<u8>,
    d2: Seq<u8>,
    key: Seq<u8>,
    bs: int,
    full: int,
    tail: Seq<u8>,
    ts: bool,
    committed: Seq<u8>,
)
    requires
        layout_ok(d, key, bs, full, tail, ts, committed),
        d.is_prefix_of(d2),
    ensures
        layout_ok(d2, key, bs, full, tail, ts, committed),
{
    reveal(layout_ok);
    assert forall|b: int| 0 <= b < full implies block_at(d2, bs, b) == block_at(d, bs, b) by {
        lemma_block_before(bs, b, stored_count(full, ts));
        lemma_prefix_sub(d, d2, phys(bs, b), phys(bs, b + 1));
    }
    if ts {
        lemma_block_before(bs, full, full + 1);
        lemma_prefix_sub(d, d2, phys(bs, full), phys(bs, full + 1));
    }
}

/// Keeping only the first `b` full blocks, with or without the bytes after them.
proof fn lemma_layout_shrink(
    d: Seq<u8>,
    d2: Seq<u8>,
    key: Seq<u8>,
    bs: int,
    full: int,
    tail: Seq<u8>,
    ts: bool,
    committed: Seq<u8>,
    b: int,
)
    requires
        layout_ok(d, key, bs, full, tail, ts, committed),
        0 <= b <= full,
        b == 0 || d.take(phys(bs, b)).is_prefix_of(d2),
    ensures
        layout_ok(d2, key, bs, b, Seq::empty(), false, committed.take(b * bs)),
        committed.take(b * bs).len() == b * bs,
{
    reveal(layout_ok);
    lemma_phys_mono(bs, b + 1, full + 1);
    assert(0 <= b * bs <= full * bs) by (nonlinear_arith)
        requires
            0 <= b <= full,
            bs >= 0,
    ;
    if b > 0 {
        lemma_phys_mono(bs, b, stored_count(full, ts));
        let dt = d.take(phys(bs, b));
        assert forall|j: int| 0 <= j < b implies block_plain(key, bs, j as u64, #[trigger] block_at(d2, bs, j))
            == Some(committed.take(b * bs).subrange(j * bs, (j + 1) * bs)) by {
            lemma_block_before(bs, j, b);
            lemma_prefix_sub(dt, d2, phys(bs, j), phys(bs, j + 1));
            lemma_take_sub(d, phys(bs, b), phys(bs, j), phys(bs, j + 1));
            lemma_take_sub(committed, b * bs, j * bs, (j + 1) * bs);
            assert(block_plain(key, bs, j as u64, block_at(d, bs, j)) == Some(
                committed.subrange(j * bs, (j + 1) * bs),
            ));
        }
    }
}

/// Writing the full tail as the next block.
proof fn lemma_layout_push_full(
    d: Seq<u8>,
    blk: Seq<u8>,
    key: Seq<u8>,
    bs: int,
    full: int,
    tail: Seq<u8>,
    committed: Seq<u8>,
)
    requires
        layout_ok(d, key, bs, full, tail, false, committed),
        d.len() == phys(bs, full),
        tail.len() == bs,
        block_plain(key, bs, full as u64, blk) == Some(tail),
        phys(bs, full + 2) <= u64::MAX,
    ensures
        layout_ok(d + blk, key, bs, full + 1, Seq::empty(), false, committed + tail),
{
    reveal(layout_ok);
    let d2 = d + blk;
    let c2 = committed + tail;
    lemma_phys_mono(bs, full, full + 1);
    lemma_block_plain_len(key, bs, full as u64, blk);
    lemma_concat_last(d, blk);
    assert((full + 1) * bs == full * bs + bs) by (nonlinear_arith);
    assert(block_at(d2, bs, full) == blk);
    assert(c2.subrange(full * bs, (full + 1) * bs) =~= tail);
    assert forall|b: int| 0 <= b < full + 1 implies block_plain(key, bs, b as u64, #[trigger] block_at(d2, bs, b))
        == Some(c2.subrange(b * bs, (b + 1) * bs)) by {
        if b < full {
            lemma_block_before(bs, b, full);
            lemma_prefix_sub(d, d2, phys(bs, b), phys(bs, b + 1));
            lemma_concat_sub(committed, tail, b * bs, (b + 1) * bs);
            assert(block_plain(key, bs, b as u64, block_at(d, bs, b)) == Some(
                committed.subrange(b * bs, (b + 1) * bs),
            ));
        }
    }
}

/// Writing the partial tail as the next block.
proof fn lemma_layout_push_partial(
    d: Seq<u8>,
    blk: Seq<u8>,
    key: Seq<u8>,
    bs: int,
    full: int,
    tail: Seq<u8>,
    committed: Seq<u8>,
)
    requires
        layout_ok(d, key, bs, full, tail, false, committed),
        d.len() == phys(bs, full),
        tail.len() < bs,
        block_plain(key, bs, full as u64, blk) == Some(tail),
    ensures
        layout_ok(d + blk, key, bs, full, tail, true, committed),
{
    reveal(layout_ok);
    let d2 = d + blk;
    lemma_phys_mono(bs, full, full + 1);
    lemma_block_plain_len(key, bs, full as u64, blk);
    lemma_concat_last(d, blk);
    assert(block_at(d2, bs, full) == blk);
    assert forall|b: int| 0 <= b < full implies block_at(d2, bs, b) == block_at(d, bs, b) by {
        lemma_block_before(bs, b, full);
        lemma_prefix_sub(d, d2, phys(bs, b), phys(bs, b + 1));
    }
}

/// Changing the tail in memory: it is no longer the stored one.
proof fn lemma_layout_new_tail(
    d: Seq<u8>,
    key: Seq<u8>,
    bs: int,
    full: int,
    tail: Seq<u8>,
    ts: bool,
    committed: Seq<u8>,
    tail2: Seq<u8>,
)
    requires
        layout_ok(d, key, bs, full, tail, ts, committed),
        tail2.len() <= bs,
    ensures
        layout_ok(d, key, bs, full, tail2, false, committed),
{
    reveal(layout_ok);
    if ts {
        lemma_phys_mono(bs, full, full + 1);
    }
}

/// A block found in the stored bytes joins the layout: as a full block when
/// it holds `bs` bytes, as the stored tail otherwise.
proof fn lemma_layout_adopt(
    d: Seq<u8>,
    key: Seq<u8>,
    bs: int,
    full: int,
    committed: Seq<u8>,
    p: Seq<u8>,
)
    requires
        layout_ok(d, key, bs, full, Seq::empty(), false, committed),
        phys(bs, full + 1) <= d.len(),
        phys(bs, full + 2) <= u64::MAX,
        block_plain(key, bs, full as u64, block_at(d, bs, full)) == Some(p),
        p.len() <= bs,
    ensures
        p.len() == bs ==> layout_ok(d, key, bs, full + 1, Seq::empty(), false, committed + p),
        p.len() < bs ==> layout_ok(d, key, bs, full, p, true, committed),
{
    reveal(layout_ok);
    lemma_phys_mono(bs, 0, full);
    lemma_phys_mono(bs, full, full + 1);
    let dt = d.take(phys(bs, full));
    let blk = block_at(d, bs, full);
    lemma_layout_shrink(d, dt, key, bs, full, Seq::empty(), false, committed, full);
    assert(committed.take(full * bs) =~= committed);
    lemma_layout_new_tail(dt, key, bs, full, Seq::empty(), false, committed, p);
    assert(dt + blk =~= d.take(phys(bs, full + 1)));
    lemma_cut_prefix(d, d, phys(bs, full + 1));
    if p.len() == bs {
        lemma_layout_push_full(dt, blk, key, bs, full, p, committed);
        lemma_layout_extend(
            dt + blk,
            d,
            key,
            bs,
            full + 1,
            Seq::empty(),
            false,
            committed + p,
        );
    } else {
        lemma_layout_push_partial(dt, blk, key, bs, full, p, committed);
        lemma_layout_extend(dt + blk, d, key, bs, full, p, true, committed);
    }
}

proof fn lemma_prefix_of_concat(a: Seq<u8>, b: Seq<u8>)
    ensures
        a.is_prefix_of(a + b),
{
    assert((a + b).subrange(0, a.len() as int) =~= a);
}

/// Nothing stored: any bytes satisfy the layout.
proof fn lemma_layout_empty(d: Seq<u8>, key: Seq<u8>, bs: int)
    requires
        1024 <= bs <= 1048576,
    ensures
        layout_ok(d, key, bs, 0, Seq::empty(), false, Seq::empty()),
{
    reveal(layout_ok);
}

/// A cut at a multiple of the block size within the plaintext.
proof fn lemma_aligned_cut(n: int, bs: int, full: int, tail_len: int)
    requires
        0 < n <= full * bs + tail_len,
        n % bs == 0,
        1024 <= bs,
        0 <= full,
        0 <= tail_len <= bs,
    ensures
        n / bs <= full + 1,
        n / bs * bs == n,
        n / bs > full ==> n == full * bs + tail_len && tail_len == bs,
        n / bs <= full ==> n <= full * bs,
        tail_len == bs && n == full * bs + tail_len ==> n / bs > full,
        n / bs >= 1,
{
    let q = n / bs;
    vstd::arithmetic::div_mod::lemma_fundamental_div_mod(n, bs);
    assert(n == q * bs) by (nonlinear_arith)
        requires
            n == bs * q + n % bs,
            n % bs == 0,
    ;
    if q > full + 1 {
        assert(q * bs >= (full + 2) * bs) by (nonlinear_arith)
            requires
                q >= full + 2,
                bs > 0,
        ;
        assert((full + 2) * bs == full * bs + 2 * bs) by (nonlinear_arith);
    }
    if q == full + 1 {
        assert((full + 1) * bs == full * bs + bs) by (nonlinear_arith);
    }
    if q <= full {
        assert(q * bs <= full * bs) by (nonlinear_arith)
            requires
                q <= full,
                bs > 0,
        ;
    }
    if q < 1 {
        assert(q * bs <= 0) by (nonlinear_arith)
            requires
                q < 1,
                bs > 0,
                n == q * bs,
                n > 0,
        ;
    }
}

/// A store that encrypts everything it stores into a wrapped backend.
pub struct EncryptedBackend<B: StorageBackend> {
    inner: B,
    key: EncryptionKey,
    nonce_key: [u8; 32],
    block_size: usize,
    /// Number of full blocks stored.
    full_blocks: u64,
    /// Plaintext after the full blocks.
    tail: Vec<u8>,
    /// Whether `tail` is stored as the block after the full ones.
    tail_stored: bool,
    /// Plaintext of the full blocks.
    committed: Ghost<Seq<u8>>,
}

impl<B: StorageBackend> EncryptedBackend<B> {
    /// The bytes held by the wrapped backend.
    pub closed spec fn stored(&self) -> Seq<u8> {
        self.inner.contents()
    }

    /// Whether the wrapped backend declares itself infallible.
    pub closed spec fn inner_infallible(&self) -> bool {
        self.inner.infallible()
    }

    /// The number of plaintext bytes after the full blocks.
    pub closed spec fn buffered(&self) -> nat {
        self.tail@.len()
    }

    /// Whether the wrapped backend holds every plaintext byte: nothing is
    /// held only in memory.
    pub closed spec fn all_stored(&self) -> bool {
        self.tail@.len() == 0 || self.tail_stored
    }

    /// The plaintext block size.
    pub closed spec fn block_size_spec(&self) -> nat {
        self.block_size as nat
    }

    /// Internal consistency: the stored blocks decrypt to the plaintext.
    #[verifier::opaque]
    pub closed spec fn wf(&self) -> bool {
        &&& self.inner.valid()
        &&& self.nonce_key@ == spec_nonce_key(self.key@)
        &&& layout_ok(
            self.inner.contents(),
            self.key@,
            self.block_size as int,
            self.full_blocks as int,
            self.tail@,
            self.tail_stored,
            self.committed@,
        )
    }

    /// The linear facts of the invariant.
    proof fn lemma_wf_small(&self)
        requires
            self.wf(),
        ensures
            self.inner.valid(),
            1024 <= self.block_size <= 1048576,
            self.nonce_key@ == spec_nonce_key(self.key@),
            self.tail@.len() <= self.block_size,
            self.tail_stored ==> self.tail@.len() < self.block_size,
            self.full_blocks + 2 <= u64::MAX,
    {
        self.lemma_wf_facts();
        assert(self.full_blocks <= self.full_blocks * self.block_size) by (nonlinear_arith)
            requires
                self.block_size >= 1,
        ;
    }

    proof fn lemma_wf_facts(&self)
        requires
            self.wf(),
        ensures
            self.inner.valid(),
            1024 <= self.block_size <= 1048576,
            self.nonce_key@ == spec_nonce_key(self.key@),
            self.tail@.len() <= self.block_size,
            self.tail_stored ==> self.tail@.len() < self.block_size,
            self.committed@.len() == self.full_blocks * self.block_size,
            self.full_blocks * self.block_size + self.block_size <= u64::MAX,
            phys(self.block_size as int, self.full_blocks + 1) <= u64::MAX,
            self.full_blocks * self.block_size <= phys(self.block_size as int, self.full_blocks as int),
    {
        reveal(EncryptedBackend::wf);
        reveal(layout_ok);
        self.lemma_phys_bounds(0);
        self.lemma_phys_bounds(self.full_blocks as int);
    }

    proof fn lemma_phys_bounds(&self, b: int)
        requires
            self.wf(),
            0 <= b <= self.full_blocks + 1,
        ensures
            phys(self.block_size as int, b) <= phys(self.block_size as int, self.full_blocks + 1),
            phys(self.block_size as int, b) + enc_size(self.block_size as int) == phys(
                self.block_size as int,
                b + 1,
            ),
            b * self.block_size <= phys(self.block_size as int, b),
            self.full_blocks * self.block_size + self.block_size <= u64::MAX,
    {
        reveal(EncryptedBackend::wf);
        reveal(layout_ok);
        let bs = self.block_size as int;
        let n = self.full_blocks as int;
        assert(b * enc_size(bs) <= (n + 1) * enc_size(bs)) by (nonlinear_arith)
            requires
                0 <= b <= n + 1,
                enc_size(bs) > 0,
        ;
        assert(b * enc_size(bs) + enc_size(bs) == (b + 1) * enc_size(bs)) by (nonlinear_arith);
        assert(b * bs <= b * enc_size(bs)) by (nonlinear_arith)
            requires
                0 <= b,
                bs <= enc_size(bs),
        ;
        assert(n * bs + bs <= (n + 1) * enc_size(bs)) by (nonlinear_arith)
            requires
                0 <= n,
                0 <= bs <= enc_size(bs),
        ;
    }

    /// Encrypts `plain` as block number `b`.
    #[verifier::spinoff_prover]
    #[verifier::rlimit(40)]
    fn encrypt_block(&self, b: u64, plain: &[u8]) -> (r: Vec<u8>)
        requires
            self.nonce_key@ == spec_nonce_key(self.key@),
            plain@.len() <= self.block_size <= 1048576,
        ensures
            block_plain(self.key@, self.block_size as int, b, r@) == Some(plain@),
    {
        let block_data = frame_block(plain, self.block_size);
        let nonce = derive_nonce(&self.nonce_key, b);
        let key_bytes = self.key.as_bytes();
        let ct = match aes_gcm_encrypt(key_bytes, &nonce, block_data.as_slice()) {
            Some(c) => c,
            None => {
                proof {
                    assert(false);
                }
                Vec::new()
            },
        };
        let mut out: Vec<u8> = Vec::new();
        push_bytes(&mut out, nonce.as_slice());
        push_bytes(&mut out, ct.as_slice());
        proof {
            reveal(block_plain);
            assert(out@.subrange(0, 12) =~= nonce@);
            assert(out@.subrange(12, out@.len() as int) =~= ct@);
            lemma_framed_len(block_data@, plain@);
        }
        out
    }

    /// Decrypts the encrypted block `encrypted`, which must be block number
    /// `b`, and returns its plaintext.
    fn decrypt_block(&self, b: u64, encrypted: &[u8]) -> (r: Result<Vec<u8>, StorageError>)
        requires
            self.nonce_key@ == spec_nonce_key(self.key@),
            encrypted@.len() == enc_size(self.block_size as int),
        ensures
            match block_plain(self.key@, self.block_size as int, b, encrypted@) {
                Some(p) => r matches Ok(v) && v@ == p,
                None => r is Err,
            },
            r matches Err(e) ==> e is Encryption,
    {
        reveal(block_plain);
        let nonce_bytes = copy_range(encrypted, 0, 12);
        let expected = derive_nonce(&self.nonce_key, b);
        let mut same = true;
        let mut i: usize = 0;
        while i < 12
            invariant
                i <= 12,
                nonce_bytes@.len() == 12,
                expected@.len() == 12,
                same == (forall|j: int| 0 <= j < i ==> nonce_bytes@[j] == expected@[j]),
            decreases 12 - i,
        {
            if nonce_bytes[i] != expected[i] {
                same = false;
            }
            i = i + 1;
        }
        if !same {
            let mut m = String::new();
            push_str(&mut m, "nonce mismatch for block ");
            push_decimal(&mut m, b);
            push_str(&mut m, " - possible data corruption or wrong key");
            return Err(StorageError::Encryption(m));
        }
        proof {
            assert(nonce_bytes@ =~= expected@);
        }
        let ciphertext = vstd::slice::slice_subrange(encrypted, 12, encrypted.len());
        let mut nonce = [0u8; 12];
        let mut k: usize = 0;
        while k < 12
            invariant
                k <= 12,
                nonce@.len() == 12,
                nonce_bytes@.len() == 12,
                forall|j: int| 0 <= j < k ==> nonce@[j] == nonce_bytes@[j],
            decreases 12 - k,
        {
            nonce[k] = nonce_bytes[k];
            k = k + 1;
        }
        proof {
            assert(nonce@ =~= nonce_bytes@);
        }
        let block_data = match aes_gcm_decrypt(self.key.as_bytes(), &nonce, ciphertext) {
            Some(d) => d,
            None => {
                return Err(StorageError::encryption("decryption failed - wrong key or data corrupted"));
            },
        };
        if block_data.len() < 4 {
            return Err(StorageError::encryption("decrypted block too short"));
        }
        let actual_len = read_u32_le(block_data.as_slice(), 0) as usize;
        proof {
            assert(block_data@.subrange(0, 4) =~= block_data@.subrange(0, 4));
        }
        if actual_len > self.block_size || actual_len > block_data.len() - 4 {
            let mut m = String::new();
            push_str(&mut m, "invalid block length: ");
            push_decimal(&mut m, actual_len as u64);
            push_str(&mut m, " > ");
            push_decimal(&mut m, self.block_size as u64);
            return Err(StorageError::Encryption(m));
        }
        Ok(copy_range(block_data.as_slice(), 4, 4 + actual_len))
    }
}

impl<B: StorageBackend> EncryptedBackend<B> {
    /// The plaintext held: the full blocks, then the tail.
    closed spec fn logical(&self) -> Seq<u8> {
        self.committed@ + self.tail@
    }

    /// The wrapped backend.
    pub fn inner(&self) -> (r: &B)
        ensures
            r.contents() == self.stored(),
    {
        &self.inner
    }

    /// The plaintext size.
    fn logical_size(&self) -> (r: u64)
        requires
            self.wf(),
        ensures
            r == self.logical().len(),
    {
        proof {
            self.lemma_wf_facts();
        }
        self.full_blocks * self.block_size as u64 + self.tail.len() as u64
    }

    /// Reads and decrypts full block `b`.
    fn read_block(&self, b: u64) -> (r: Result<Vec<u8>, StorageError>)
        requires
            self.wf(),
            b < self.full_blocks,
        ensures
            r matches Ok(p) ==> p@ == self.committed@.subrange(
                b * self.block_size,
                (b + 1) * self.block_size,
            ),
            self.inner.infallible() ==> r is Ok,
    {
        let ghost bs = self.block_size as int;
        proof {
            reveal(EncryptedBackend::wf);
            reveal(layout_ok);
            self.lemma_phys_bounds(b as int);
            self.lemma_phys_bounds(b + 1);
            self.lemma_phys_bounds(self.full_blocks as int);
            assert(phys(bs, b + 1) <= phys(bs, self.full_blocks as int)) by (nonlinear_arith)
                requires
                    b + 1 <= self.full_blocks,
                    enc_size(bs) > 0,
            ;
        }
        let enc = self.block_size + 32;
        let physical = 32 + b * enc as u64;
        let encrypted = match self.inner.read_at(physical, enc) {
            Ok(v) => v,
            Err(e) => return Err(e),
        };
        proof {
            assert(encrypted@ =~= block_at(self.inner.contents(), bs, b as int));
            assert(block_plain(self.key@, bs, b, block_at(self.inner.contents(), bs, b as int))
                == Some(self.committed@.subrange(b * bs, (b + 1) * bs)));
        }
        self.decrypt_block(b, encrypted.as_slice())
    }

    /// Reads the plaintext from `pos` to the end of its block, or to `end`
    /// when that comes first.
    fn read_piece(&self, pos: u64, end: u64) -> (r: Result<Vec<u8>, StorageError>)
        requires
            self.wf(),
            pos < end <= self.logical().len(),
            end - pos <= usize::MAX,
        ensures
            r matches Ok(v) ==> 0 < v@.len() <= end - pos && v@ == self.logical().subrange(
                pos as int,
                pos + v@.len(),
            ),
            r matches Ok(v) ==> v@.len() == min_nat(
                (end - pos) as nat,
                (self.block_size - (pos as int) % (self.block_size as int)) as nat,
            ),
            pos >= self.full_blocks * self.block_size ==> r is Ok,
            self.inner.infallible() ==> r is Ok,
    {
        proof {
            self.lemma_wf_facts();
            lemma_block_split(pos as int, self.block_size as int, self.full_blocks as int, self.tail@.len() as int);
        }
        let bs = self.block_size as u64;
        let b = pos / bs;
        let in_block = (pos % bs) as usize;
        let avail = self.block_size - in_block;
        let rest = (end - pos) as usize;
        let take: usize = if rest < avail {
            rest
        } else {
            avail
        };
        if b < self.full_blocks {
            let plain = match self.read_block(b) {
                Ok(p) => p,
                Err(e) => return Err(e),
            };
            let ghost lo = b * self.block_size;
            let ghost hi = (b + 1) * self.block_size;
            assert(hi == lo + self.block_size);
            assert(plain@.len() == self.block_size);
            let out = copy_range(plain.as_slice(), in_block, in_block + take);
            proof {
                lemma_piece_in_block(
                    self.committed@,
                    self.tail@,
                    b * self.block_size,
                    (b + 1) * self.block_size,
                    in_block as int,
                    take as int,
                );
            }
            Ok(out)
        } else {
            let out = copy_range(self.tail.as_slice(), in_block, in_block + take);
            proof {
                lemma_piece_in_tail(self.committed@, self.tail@, in_block as int, take as int);
            }
            Ok(out)
        }
    }

    /// Reads `len` plaintext bytes at `offset`.
    fn read_plain(&self, offset: u64, len: usize) -> (r: Result<Vec<u8>, StorageError>)
        requires
            self.wf(),
        ensures
            offset + len > self.logical().len() ==> r == Err::<Vec<u8>, StorageError>(
                StorageError::ReadPastEnd { offset, len, size: self.logical().len() as u64 },
            ),
            r matches Ok(v) ==> offset + len <= self.logical().len() && v@ == self.logical().subrange(
                offset as int,
                offset + len,
            ),
            offset + len <= self.logical().len() && offset >= self.committed@.len() ==> r is Ok,
            offset + len <= self.logical().len() && self.inner.infallible() ==> r is Ok,
    {
        let size = self.logical_size();
        if offset > size || len as u64 > size - offset {
            return Err(StorageError::ReadPastEnd { offset, len, size });
        }
        let end = offset + len as u64;
        let mut out: Vec<u8> = Vec::new();
        let mut pos = offset;
        proof {
            self.lemma_wf_facts();
            assert(self.logical().subrange(offset as int, offset as int) =~= out@);
        }
        while pos < end
            invariant
                self.wf(),
                size == self.logical().len(),
                offset <= pos <= end,
                end <= size,
                end - offset == len,
                out@ == self.logical().subrange(offset as int, pos as int),
                self.committed@.len() == self.full_blocks * self.block_size,
                offset >= self.committed@.len() ==> pos >= self.full_blocks * self.block_size,
            decreases end - pos,
        {
            let piece = match self.read_piece(pos, end) {
                Ok(p) => p,
                Err(e) => return Err(e),
            };
            let ghost before = out@;
            push_bytes(&mut out, piece.as_slice());
            proof {
                assert(out@ =~= self.logical().subrange(offset as int, pos + piece@.len()));
            }
            pos = pos + piece.len() as u64;
        }
        Ok(out)
    }
}

proof fn lemma_piece_in_block(c: Seq<u8>, t: Seq<u8>, lo: int, hi: int, a: int, k: int)
    requires
        0 <= lo <= hi <= c.len(),
        0 <= a,
        0 <= k,
        a + k <= hi - lo,
    ensures
        (c + t).subrange(lo + a, lo + a + k) == c.subrange(lo, hi).subrange(a, a + k),
{
    assert((c + t).subrange(lo + a, lo + a + k) =~= c.subrange(lo, hi).subrange(a, a + k));
}

proof fn lemma_piece_in_tail(c: Seq<u8>, t: Seq<u8>, a: int, k: int)
    requires
        0 <= a,
        0 <= k,
        a + k <= t.len(),
    ensures
        (c + t).subrange(c.len() + a, c.len() + a + k) == t.subrange(a, a + k),
{
    assert((c + t).subrange(c.len() + a, c.len() + a + k) =~= t.subrange(a, a + k));
}

/// The header of a new store.
fn header_for(bs: u32) -> (r: Vec<u8>)
    ensures
        r@ == header_bytes(bs),
{
    let mut h: Vec<u8> = Vec::new();
    h.push(0x45u8);
    h.push(0x4E);
    h.push(0x54);
    h.push(0x49);
    h.push(0x44);
    h.push(0x42);
    h.push(0x45);
    h.push(0x43);
    push_u32_le(&mut h, 1);
    push_u32_le(&mut h, bs);
    push_u64_le(&mut h, 0);
    let mut i: usize = 0;
    while i < 8
        invariant
            i <= 8,
            h@ == magic() + vstd::bytes::spec_u32_to_le_bytes(1) + vstd::bytes::spec_u32_to_le_bytes(
                bs,
            ) + vstd::bytes::spec_u64_to_le_bytes(0) + Seq::new(i as nat, |j: int| 0u8),
        decreases 8 - i,
    {
        let ghost before = h@;
        h.push(0u8);
        proof {
            assert(h@ =~= magic() + vstd::bytes::spec_u32_to_le_bytes(1)
                + vstd::bytes::spec_u32_to_le_bytes(bs) + vstd::bytes::spec_u64_to_le_bytes(0)
                + Seq::new((i + 1) as nat, |j: int| 0u8));
        }
        i = i + 1;
    }
    h
}

impl<B: StorageBackend> EncryptedBackend<B> {
    /// Everything but the wrapped backend is the same in both.
    closed spec fn same_state(&self, other: &Self) -> bool {
        &&& self.key@ == other.key@
        &&& self.nonce_key@ == other.nonce_key@
        &&& self.block_size == other.block_size
        &&& self.full_blocks == other.full_blocks
        &&& self.tail@ == other.tail@
        &&& self.tail_stored == other.tail_stored
        &&& self.committed@ == other.committed@
    }

    /// Makes the wrapped backend end right after the full blocks: bytes
    /// after them (a stored partial block, or what a failed write left) are
    /// cut off.
    fn position_at_end(&mut self) -> (r: Result<(), StorageError>)
        requires
            old(self).wf(),
            !old(self).tail_stored,
        ensures
            final(self).wf(),
            final(self).same_state(old(self)),
            r is Ok ==> final(self).inner.contents().len() == phys(
                final(self).block_size as int,
                final(self).full_blocks as int,
            ),
    {
        let ghost bs = self.block_size as int;
        proof {
            self.lemma_wf_facts();
            lemma_phys_mono(bs, self.full_blocks as int, self.full_blocks + 1);
        }
        let n = self.full_blocks;
        let expected: u64 = 32 + n * (self.block_size as u64 + 32);
        let cur = match self.inner.size() {
            Ok(c) => c,
            Err(e) => return Err(e),
        };
        if cur > expected {
            let ghost d = self.inner.contents();
            let res = self.inner.truncate(expected);
            proof {
                reveal(EncryptedBackend::wf);
                lemma_cut_keeps(
                    d,
                    self.inner.contents(),
                    self.key@,
                    bs,
                    n as int,
                    self.tail@,
                    self.committed@,
                );
            }
            match res {
                Ok(()) => {},
                Err(e) => return Err(e),
            }
        } else if cur < expected {
            return Err(StorageError::encryption("unexpected write position - storage may be corrupted"));
        }
        Ok(())
    }

    /// Whether `blocks` blocks fit in the addressable size.
    fn has_room(&self, blocks: u64) -> (r: bool)
        requires
            self.block_size <= 1048576,
        ensures
            r == (phys(self.block_size as int, blocks as int) <= u64::MAX),
    {
        let enc = self.block_size as u64 + 32;
        match blocks.checked_mul(enc) {
            Some(x) => x <= u64::MAX - 32,
            None => false,
        }
    }

    /// Encrypts the tail as the block after the full ones and appends it:
    /// a full tail becomes a full block, a partial one the stored tail.
    fn append_tail_block(&mut self) -> (r: Result<(), StorageError>)
        requires
            old(self).wf(),
            !old(self).tail_stored,
            0 < old(self).tail@.len(),
            old(self).inner.contents().len() == phys(
                old(self).block_size as int,
                old(self).full_blocks as int,
            ),
            old(self).tail@.len() == old(self).block_size ==> phys(
                old(self).block_size as int,
                old(self).full_blocks + 2,
            ) <= u64::MAX,
        ensures
            final(self).wf(),
            final(self).logical() == old(self).logical(),
            final(self).key@ == old(self).key@,
            final(self).block_size == old(self).block_size,
            r is Err ==> final(self).same_state(old(self)),
            r is Ok && old(self).tail@.len() == old(self).block_size ==> final(self).tail@.len() == 0,
            r is Ok && old(self).tail@.len() < old(self).block_size ==> final(self).tail_stored
                && final(self).tail@ == old(self).tail@,
    {
        proof {
            self.lemma_wf_small();
        }
        let n = self.full_blocks;
        let block = self.encrypt_block(n, self.tail.as_slice());
        let ghost d = self.inner.contents();
        let res = self.inner.append(block.as_slice());
        match res {
            Ok(_) => {},
            Err(e) => {
                proof {
                    reveal(EncryptedBackend::wf);
                    lemma_layout_extend(
                        d,
                        self.inner.contents(),
                        self.key@,
                        self.block_size as int,
                        n as int,
                        self.tail@,
                        false,
                        self.committed@,
                    );
                }
                return Err(e);
            },
        }
        if self.tail.len() == self.block_size {
            proof {
                reveal(EncryptedBackend::wf);
                lemma_layout_push_full(
                    d,
                    block@,
                    self.key@,
                    self.block_size as int,
                    n as int,
                    self.tail@,
                    self.committed@,
                );
            }
            self.committed = Ghost(self.committed@ + self.tail@);
            self.full_blocks = n + 1;
            self.tail = Vec::new();
            proof {
                reveal(EncryptedBackend::wf);
                assert(self.logical() =~= old(self).logical());
            }
        } else {
            proof {
                reveal(EncryptedBackend::wf);
                lemma_layout_push_partial(
                    d,
                    block@,
                    self.key@,
                    self.block_size as int,
                    n as int,
                    self.tail@,
                    self.committed@,
                );
            }
            self.tail_stored = true;
            proof {
                reveal(EncryptedBackend::wf);
            }
        }
        Ok(())
    }

    /// Encrypts the full tail as the next full block.
    fn write_full_tail(&mut self) -> (r: Result<(), StorageError>)
        requires
            old(self).wf(),
            old(self).tail@.len() == old(self).block_size,
        ensures
            final(self).wf(),
            final(self).logical() == old(self).logical(),
            final(self).key@ == old(self).key@,
            final(self).block_size == old(self).block_size,
            r is Ok ==> final(self).tail@.len() == 0,
            r is Err ==> final(self).tail@ == old(self).tail@,
    {
        proof {
            self.lemma_wf_small();
        }
        match self.position_at_end() {
            Ok(()) => {},
            Err(e) => return Err(e),
        }
        if !self.has_room(self.full_blocks + 2) {
            return Err(StorageError::encryption("storage is full"));
        }
        self.append_tail_block()
    }

    /// Moves the next chunk of `data`, from `i` on, into the tail, after
    /// writing out a full tail; returns where the next chunk starts.
    fn append_chunk(&mut self, data: &[u8], i: usize) -> (r: Result<usize, StorageError>)
        requires
            old(self).wf(),
            i < data@.len(),
        ensures
            final(self).wf(),
            final(self).block_size == old(self).block_size,
            r matches Ok(j) ==> i < j <= data@.len() && final(self).logical() == old(self).logical()
                + data@.subrange(i as int, j as int),
            r matches Ok(j) ==> final(self).tail@.len() == free_tail(old(self).tail@.len(), old(self).block_size as nat) + (j - i)
                && j - i == min_nat((data@.len() - i) as nat, (old(self).block_size - free_tail(old(self).tail@.len(), old(self).block_size as nat)) as nat),
            old(self).tail@.len() < old(self).block_size ==> r is Ok,
            r is Err ==> final(self).logical() == old(self).logical(),
    {
        proof {
            self.lemma_wf_small();
        }
        if self.tail.len() == self.block_size {
            match self.write_full_tail() {
                Ok(()) => {},
                Err(e) => return Err(e),
            }
        }
        proof {
            self.lemma_wf_small();
        }
        let room = self.block_size - self.tail.len();
        let rest = data.len() - i;
        let take: usize = if rest < room {
            rest
        } else {
            room
        };
        let ghost before = self.tail@;
        let ghost stored = self.tail_stored;
        let ghost lg = self.logical();
        push_bytes(&mut self.tail, vstd::slice::slice_subrange(data, i, i + take));
        self.tail_stored = false;
        proof {
            reveal(EncryptedBackend::wf);
            lemma_layout_new_tail(
                self.inner.contents(),
                self.key@,
                self.block_size as int,
                self.full_blocks as int,
                before,
                stored,
                self.committed@,
                self.tail@,
            );
            assert(self.logical() =~= lg + data@.subrange(i as int, i + take));
        }
        Ok(i + take)
    }

    /// Stores the partial tail as the block after the full ones.
    fn store_tail(&mut self) -> (r: Result<(), StorageError>)
        requires
            old(self).wf(),
            !old(self).tail_stored,
            0 < old(self).tail@.len() < old(self).block_size,
        ensures
            final(self).wf(),
            final(self).logical() == old(self).logical(),
            final(self).key@ == old(self).key@,
            final(self).block_size == old(self).block_size,
            r is Ok ==> final(self).tail_stored && final(self).tail@ == old(self).tail@,
    {
        match self.position_at_end() {
            Ok(()) => {},
            Err(e) => return Err(e),
        }
        self.append_tail_block()
    }
}

/// The length of the tail once a full one is written out.
pub open spec fn free_tail(len: nat, bs: nat) -> nat {
    if len == bs {
        0
    } else {
        len
    }
}

/// The smaller of two lengths.
pub open spec fn min_nat(a: nat, b: nat) -> nat {
    if a < b {
        a
    } else {
        b
    }
}

/// Where position `pos` falls: in block `pos / bs`, at `pos % bs`.
proof fn lemma_block_split(pos: int, bs: int, full: int, tail_len: int)
    requires
        0 <= pos < full * bs + tail_len,
        1024 <= bs,
        0 <= full,
        0 <= tail_len <= bs,
    ensures
        pos == (pos / bs) * bs + pos % bs,
        0 <= pos % bs < bs,
        0 <= pos / bs <= full,
        pos / bs < full ==> (pos / bs + 1) * bs <= full * bs,
        pos / bs == full ==> pos - full * bs == pos % bs,
        (pos / bs) * bs >= 0,
        (pos / bs + 1) * bs == (pos / bs) * bs + bs,
{
    let q = pos / bs;
    let r = pos % bs;
    vstd::arithmetic::div_mod::lemma_fundamental_div_mod(pos, bs);
    assert(pos == q * bs + r) by (nonlinear_arith)
        requires
            pos == bs * q + r,
    ;
    assert(q >= 0) by (nonlinear_arith)
        requires
            pos == q * bs + r,
            0 <= r < bs,
            pos >= 0,
            bs > 0,
    ;
    assert(q * bs >= 0) by (nonlinear_arith)
        requires
            q >= 0,
            bs > 0,
    ;
    assert((q + 1) * bs == q * bs + bs) by (nonlinear_arith);
    if q > full {
        assert(q * bs >= (full + 1) * bs) by (nonlinear_arith)
            requires
                q >= full + 1,
                bs > 0,
        ;
        assert((full + 1) * bs == full * bs + bs) by (nonlinear_arith);
    }
    if q < full {
        assert((q + 1) * bs <= full * bs) by (nonlinear_arith)
            requires
                q + 1 <= full,
                bs > 0,
        ;
    }
}

impl<B: StorageBackend> StorageBackend for EncryptedBackend<B> {
    closed spec fn contents(&self) -> Seq<u8> {
        self.logical()
    }

/// Not declared infallible: it refuses truncation off block boundaries
    /// and can run out of addressable space.
    closed spec fn infallible(&self) -> bool {
        false
    }

        closed spec fn valid(&self) -> bool {
        self.wf()
    }

    fn read_at(&self, offset: u64, len: usize) -> (r: Result<Vec<u8>, StorageError>)
        ensures
            offset + len > self.contents().len() ==> r == Err::<Vec<u8>, StorageError>(
                StorageError::ReadPastEnd { offset, len, size: self.contents().len() as u64 },
            ),
            offset + len <= self.contents().len() && offset + self.buffered() >= self.contents().len()
                ==> r is Ok,
            offset + len <= self.contents().len() && self.inner_infallible() ==> r is Ok,
    {
        proof {
            reveal(EncryptedBackend::wf);
            self.lemma_wf_facts();
        }
        self.read_plain(offset, len)
    }

    #[verifier::spinoff_prover]
    #[verifier::rlimit(80)]
    fn append(&mut self, data: &[u8]) -> (r: Result<u64, StorageError>)
        ensures
            data@.len() == 0 || old(self).buffered() + data@.len() < old(self).block_size_spec() ==> r
                == Ok::<u64, StorageError>(old(self).contents().len() as u64),
    {
        if data.len() == 0 {
            proof {
                assert(old(self).logical() + data@ =~= old(self).logical());
                assert(old(self).logical().is_prefix_of(self.logical()));
            }
            return Ok(self.logical_size());
        }
        let offset = self.logical_size();
        let mut i: usize = 0;
        proof {
            assert(data@.take(0) =~= Seq::<u8>::empty());
            assert(self.logical() + data@.take(0) =~= self.logical());
        }
        while i < data.len()
            invariant
                self.wf(),
                i <= data@.len(),
                self.logical() == old(self).logical() + data@.take(i as int),
                offset == old(self).logical().len(),
                self.block_size == old(self).block_size,
                old(self).tail@.len() + data@.len() < old(self).block_size ==> (i == 0 && self.tail@
                    == old(self).tail@) || (i == data@.len() && self.tail@.len() == old(self).tail@.len()
                    + data@.len()),
            decreases data@.len() - i,
        {
            match self.append_chunk(data, i) {
                Ok(j) => {
                    proof {
                        assert(data@.take(j as int) =~= data@.take(i as int) + data@.subrange(
                            i as int,
                            j as int,
                        ));
                    }
                    i = j;
                },
                Err(e) => {
                    proof {
                        lemma_prefix_of_concat(old(self).logical(), data@.take(i as int));
                    }
                    return Err(e);
                },
            }
        }
        proof {
            assert(data@.take(data@.len() as int) =~= data@);
            lemma_prefix_of_concat(old(self).logical(), data@);
            self.lemma_wf_small();
        }
        if self.tail.len() == self.block_size {
            match self.write_full_tail() {
                Ok(()) => {},
                Err(e) => return Err(e),
            }
        }
        Ok(offset)
    }

    fn flush(&mut self) -> (r: Result<(), StorageError>)
        ensures
            r is Ok ==> final(self).all_stored(),
    {
        proof {
            self.lemma_wf_small();
        }
        if self.tail.len() == self.block_size {
            match self.write_full_tail() {
                Ok(()) => {},
                Err(e) => return Err(e),
            }
        }
        proof {
            self.lemma_wf_small();
        }
        if self.tail.len() > 0 && !self.tail_stored {
            match self.store_tail() {
                Ok(()) => {},
                Err(e) => return Err(e),
            }
        }
        proof {
            self.lemma_wf_small();
        }
        let r = self.inner.flush();
        proof {
            reveal(EncryptedBackend::wf);
        }
        r
    }

    fn size(&self) -> (r: Result<u64, StorageError>)
        ensures
            r == Ok::<u64, StorageError>(self.contents().len() as u64),
    {
        Ok(self.logical_size())
    }

    fn sync(&mut self) -> (r: Result<(), StorageError>)
        ensures
            r is Ok ==> final(self).all_stored(),
    {
        match self.flush() {
            Ok(()) => {},
            Err(e) => return Err(e),
        }
        proof {
            self.lemma_wf_small();
        }
        let r = self.inner.sync();
        proof {
            reveal(EncryptedBackend::wf);
        }
        r
    }

    fn truncate(&mut self, new_size: u64) -> (r: Result<(), StorageError>)
        ensures
            new_size > old(self).contents().len() ==> (r matches Err(StorageError::Encryption(m)) && m@
                == "cannot truncate beyond the end of the data"@),
            0 < new_size <= old(self).contents().len() && (new_size as nat) % old(self).block_size_spec() != 0 ==> (r matches Err(
                StorageError::Encryption(m),
            ) && m@ == "encrypted backend only supports truncation to block boundaries"@) && final(self).contents()
                == old(self).contents(),
            0 < new_size == old(self).contents().len() && old(self).buffered() == old(self).block_size_spec()
                ==> r is Ok && final(self).contents() == old(self).contents(),
    {
        proof {
            self.lemma_wf_facts();
        }
        let size = self.logical_size();
        if new_size > size {
            return Err(StorageError::encryption("cannot truncate beyond the end of the data"));
        }
        if new_size == 0 {
            let r1 = self.inner.truncate(0);
            self.full_blocks = 0;
            self.tail = Vec::new();
            self.tail_stored = false;
            self.committed = Ghost(Seq::empty());
            proof {
                lemma_layout_empty(self.inner.contents(), self.key@, self.block_size as int);
                reveal(EncryptedBackend::wf);
                assert(self.logical() =~= old(self).logical().take(0));
            }
            match r1 {
                Ok(()) => {},
                Err(e) => return Err(e),
            }
            let header = header_for(self.block_size as u32);
            let r2 = self.inner.append(header.as_slice());
            proof {
                lemma_layout_empty(self.inner.contents(), self.key@, self.block_size as int);
                reveal(EncryptedBackend::wf);
            }
            match r2 {
                Ok(_) => {},
                Err(e) => return Err(e),
            }
            let r3 = self.inner.flush();
            proof {
                reveal(EncryptedBackend::wf);
            }
            return r3;
        }
        let bs = self.block_size as u64;
        proof {
            if self.tail@.len() == bs && new_size == size {
                assert(new_size == (self.full_blocks + 1) * bs) by (nonlinear_arith)
                    requires
                        new_size == self.full_blocks * bs + bs,
                ;
                vstd::arithmetic::div_mod::lemma_mod_multiples_basic((self.full_blocks + 1) as int, bs as int);
            }
        }
        if new_size % bs != 0 {
            return Err(
                StorageError::encryption(
                    "encrypted backend only supports truncation to block boundaries",
                ),
            );
        }
        let b = new_size / bs;
        proof {
            lemma_aligned_cut(new_size as int, bs as int, self.full_blocks as int, self.tail@.len() as int);
        }
        if b > self.full_blocks {
            proof {
                assert(old(self).logical().take(new_size as int) =~= old(self).logical());
            }
            return Ok(());
        }
        proof {
            lemma_phys_mono(bs as int, b as int, self.full_blocks + 1);
        }
        let target = 32 + b * (bs + 32);
        let ghost d = self.inner.contents();
        let ghost c0 = self.committed@;
        let r1 = self.inner.truncate(target);
        proof {
            reveal(EncryptedBackend::wf);
            if b > 0 {
                lemma_phys_mono(bs as int, b as int, stored_count(old(self).full_blocks as int, old(self).tail_stored));
                reveal(layout_ok);
                lemma_cut_prefix(d, self.inner.contents(), target as int);
            }
            lemma_layout_shrink(
                d,
                self.inner.contents(),
                self.key@,
                bs as int,
                old(self).full_blocks as int,
                old(self).tail@,
                old(self).tail_stored,
                c0,
                b as int,
            );
        }
        self.full_blocks = b;
        self.tail = Vec::new();
        self.tail_stored = false;
        self.committed = Ghost(c0.take(b * bs));
        proof {
            reveal(EncryptedBackend::wf);
            assert(self.logical() =~= old(self).logical().take(new_size as int));
        }
        r1
    }
}

impl<B: StorageBackend> EncryptedBackend<B> {
    /// Opens an encrypted store over `inner` with the default block size.
    pub fn new(inner: B, key: EncryptionKey) -> (r: Result<Self, StorageError>)
        requires
            inner.valid(),
        ensures
            r matches Ok(b) ==> b.valid() && b.block_size_spec() == DEFAULT_BLOCK_SIZE,
            r matches Ok(b) ==> (inner.contents().len() == 0 ==> b.contents() == Seq::<u8>::empty()
                && b.stored() == header_bytes(DEFAULT_BLOCK_SIZE as u32)),
            r matches Ok(b) ==> (inner.contents().len() > 0 ==> open_outcome(
                key@,
                DEFAULT_BLOCK_SIZE as int,
                inner.contents(),
            ) == Ok::<Seq<u8>, Seq<char>>(b.contents()) && b.stored() == inner.contents()),
            inner.contents().len() > 0 && open_outcome(
                key@,
                DEFAULT_BLOCK_SIZE as int,
                inner.contents(),
            ) is Err ==> r is Err,
            inner.infallible() && (inner.contents().len() == 0 || open_outcome(
                key@,
                DEFAULT_BLOCK_SIZE as int,
                inner.contents(),
            ) is Ok) ==> r is Ok,
            r matches Ok(b) ==> (inner.infallible() ==> b.inner_infallible()),
    {
        Self::with_block_size(inner, key, DEFAULT_BLOCK_SIZE)
    }

    /// Opens an encrypted store over `inner` with plaintext blocks of
    /// `block_size` bytes (1 KiB to 1 MiB). An empty backend gets a new
    /// header; otherwise the header is checked and every block is read back,
    /// which fails with a wrong key or altered data.
    pub fn with_block_size(inner: B, key: EncryptionKey, block_size: usize) -> (r: Result<
        Self,
        StorageError,
    >)
        requires
            inner.valid(),
        ensures
            !(1024 <= block_size <= 1048576) ==> (r matches Err(e) && e matches StorageError::Encryption(
                m,
            ) && m@ == block_size_message(block_size as nat)),
            r matches Ok(b) ==> b.valid() && b.block_size_spec() == block_size && 1024 <= block_size
                <= 1048576,
            r matches Ok(b) ==> (inner.contents().len() == 0 ==> b.contents() == Seq::<u8>::empty()
                && b.stored() == header_bytes(block_size as u32)),
            r matches Ok(b) ==> (inner.contents().len() > 0 ==> open_outcome(
                key@,
                block_size as int,
                inner.contents(),
            ) == Ok::<Seq<u8>, Seq<char>>(b.contents()) && b.stored() == inner.contents()),
            inner.contents().len() > 0 && open_outcome(key@, block_size as int, inner.contents())
                is Err ==> r is Err,
            1024 <= block_size <= 1048576 && inner.infallible() && (inner.contents().len() == 0
                || open_outcome(key@, block_size as int, inner.contents()) is Ok) ==> r is Ok,
            r matches Ok(b) ==> (inner.infallible() ==> b.inner_infallible()),
    {
        if block_size < 1024 || block_size > 1048576 {
            let mut m = String::new();
            push_str(&mut m, "block size must be between 1KB and 1MB, got ");
            push_decimal(&mut m, block_size as u64);
            return Err(StorageError::Encryption(m));
        }
        let nonce_key = derive_nonce_key(key.as_bytes());
        let physical_size = match inner.size() {
            Ok(n) => n,
            Err(e) => return Err(e),
        };
        if physical_size == 0 {
            let mut inner = inner;
            let header = header_for(block_size as u32);
            match inner.append(header.as_slice()) {
                Ok(_) => {},
                Err(e) => return Err(e),
            }
            match inner.flush() {
                Ok(()) => {},
                Err(e) => return Err(e),
            }
            let r = EncryptedBackend {
                inner,
                key,
                nonce_key,
                block_size,
                full_blocks: 0,
                tail: Vec::new(),
                tail_stored: false,
                committed: Ghost(Seq::empty()),
            };
            proof {
                lemma_layout_empty(r.inner.contents(), r.key@, block_size as int);
                reveal(EncryptedBackend::wf);
                assert(r.logical() =~= Seq::<u8>::empty());
            }
            return Ok(r);
        }
        Self::open_existing(inner, key, nonce_key, block_size, physical_size)
    }

    /// Whether the first 8 bytes of `h` are the magic bytes.
    fn magic_ok(h: &[u8]) -> (r: bool)
        requires
            h@.len() >= 8,
        ensures
            r == (h@.subrange(0, 8) == magic()),
    {
        let expected: [u8; 8] = [0x45, 0x4E, 0x54, 0x49, 0x44, 0x42, 0x45, 0x43];
        proof {
            assert(expected@ =~= magic());
        }
        let mut i: usize = 0;
        while i < 8
            invariant
                i <= 8,
                h@.len() >= 8,
                expected@ == magic(),
                forall|j: int| 0 <= j < i ==> h@[j] == expected@[j],
            decreases 8 - i,
        {
            if h[i] != expected[i] {
                proof {
                    assert(h@.subrange(0, 8)[i as int] != magic()[i as int]);
                }
                return false;
            }
            i = i + 1;
        }
        assert(h@.subrange(0, 8) =~= magic());
        true
    }

    /// Opens a store whose wrapped backend is not empty.
    #[verifier::spinoff_prover]
    #[verifier::rlimit(80)]
    fn open_existing(
        inner: B,
        key: EncryptionKey,
        nonce_key: [u8; 32],
        block_size: usize,
        physical_size: u64,
    ) -> (r: Result<Self, StorageError>)
        requires
            inner.valid(),
            1024 <= block_size <= 1048576,
            nonce_key@ == spec_nonce_key(key@),
            physical_size == inner.contents().len(),
            physical_size > 0,
        ensures
            r matches Ok(b) ==> b.valid() && b.block_size_spec() == block_size && open_outcome(
                key@,
                block_size as int,
                inner.contents(),
            ) == Ok::<Seq<u8>, Seq<char>>(b.contents()) && b.stored() == inner.contents(),
            open_outcome(key@, block_size as int, inner.contents()) is Err ==> r is Err,
            physical_size < 32 ==> (r matches Err(StorageError::Encryption(m)) && m@
                == "storage too small to contain header"@),
            inner.infallible() && open_outcome(key@, block_size as int, inner.contents()) is Ok ==> r is Ok,
            r matches Ok(b) ==> (inner.infallible() ==> b.inner_infallible()),
    {
        let ghost d = inner.contents();
        let ghost bs = block_size as int;
        if physical_size < 32 {
            return Err(StorageError::encryption("storage too small to contain header"));
        }
        let header = match inner.read_at(0, 32) {
            Ok(h) => h,
            Err(e) => return Err(e),
        };
        proof {
            assert(header@.subrange(0, 8) =~= d.subrange(0, 8));
            assert(header@.subrange(8, 12) =~= d.subrange(8, 12));
            assert(header@.subrange(12, 16) =~= d.subrange(12, 16));
        }
        if !Self::magic_ok(header.as_slice()) {
            return Err(
                StorageError::encryption("invalid magic bytes - not an encrypted EntiDB file"),
            );
        }
        let version = read_u32_le(header.as_slice(), 8);
        if version != 1 {
            let mut m = String::new();
            push_str(&mut m, "unsupported format version: ");
            push_decimal(&mut m, version as u64);
            push_str(&mut m, ", expected 1");
            return Err(StorageError::Encryption(m));
        }
        let stored_bs = read_u32_le(header.as_slice(), 12);
        if stored_bs < 1024 || stored_bs > 1048576 {
            let mut m = String::new();
            push_str(&mut m, "invalid block size: ");
            push_decimal(&mut m, stored_bs as u64);
            return Err(StorageError::Encryption(m));
        }
        if stored_bs as usize != block_size {
            let mut m = String::new();
            push_str(&mut m, "block size mismatch: storage has ");
            push_decimal(&mut m, stored_bs as u64);
            push_str(&mut m, ", requested ");
            push_decimal(&mut m, block_size as u64);
            return Err(StorageError::Encryption(m));
        }
        let enc = block_size as u64 + 32;
        let data_size = physical_size - 32;
        if data_size % enc != 0 {
            return Err(
                StorageError::encryption(
                    "storage contains partial encrypted block - possible corruption",
                ),
            );
        }
        if physical_size > u64::MAX - enc {
            return Err(StorageError::encryption("storage is full"));
        }
        let m = data_size / enc;
        proof {
            vstd::arithmetic::div_mod::lemma_fundamental_div_mod(data_size as int, enc as int);
            assert(d.len() == phys(bs, m as int)) by (nonlinear_arith)
                requires
                    data_size == enc * m + data_size % enc,
                    data_size % enc == 0,
                    d.len() == data_size + 32,
                    enc == bs + 32,
            ;
            lemma_phys_mono(bs, m as int, m + 1);
            lemma_layout_empty(d, key@, bs);
            assert(Seq::<u8>::empty() + Seq::<u8>::empty() =~= Seq::<u8>::empty());
            assert(open_outcome(key@, bs, d) == recover_blocks(key@, bs, d, m as nat));
        }
        let mut full: u64 = 0;
        let mut tail: Vec<u8> = Vec::new();
        let mut tail_stored = false;
        let ghost mut committed: Seq<u8> = Seq::empty();
        let mut b: u64 = 0;
        while b < m
            invariant
                inner.valid(),
                d == inner.contents(),
                open_outcome(key@, bs, d) == recover_blocks(key@, bs, d, m as nat),
                physical_size >= 32,
                1024 <= block_size <= 1048576,
                bs == block_size,
                enc == bs + 32,
                nonce_key@ == spec_nonce_key(key@),
                b <= m,
                d.len() == phys(bs, m as int),
                phys(bs, m + 1) <= u64::MAX,
                recover_blocks(key@, bs, d, b as nat) == Ok::<Seq<u8>, Seq<char>>(committed + tail@),
                layout_ok(d, key@, bs, full as int, tail@, tail_stored, committed),
                full + (if tail_stored { 1int } else { 0 }) == b,
                !tail_stored ==> tail@.len() == 0,
                tail_stored ==> tail@.len() < bs,
                committed.len() == full * bs,
            decreases m - b,
        {
            if tail_stored {
                proof {
                    assert(recover_blocks(key@, bs, d, (b + 1) as nat) is Err) by {
                        assert((committed + tail@).len() == full * bs + tail@.len());
                        assert(b * bs == full * bs + bs) by (nonlinear_arith)
                            requires
                                b == full + 1,
                        ;
                        assert(((b + 1) - 1) as nat == b);
                    }
                    lemma_recover_err_later(key@, bs, d, (b + 1) as nat, m as nat);
                }
                return Err(
                    StorageError::encryption(
                        "partial block before the last block - possible corruption",
                    ),
                );
            }
            proof {
                assert(tail@ =~= Seq::<u8>::empty());
                assert(committed + tail@ =~= committed);
            }
            let plain = match Self::read_back_block(&inner, &key, &nonce_key, block_size, b, m) {
                Ok(p) => p,
                Err(e) => {
                    proof {
                        if inner.infallible() {
                            assert(recover_blocks(key@, bs, d, (b + 1) as nat) is Err) by {
                                assert(((b + 1) - 1) as nat == b);
                            }
                            lemma_recover_err_later(key@, bs, d, (b + 1) as nat, m as nat);
                        }
                    }
                    return Err(e);
                },
            };
            proof {
                lemma_open_adopt(d, key@, bs, full as int, committed, plain@, b as nat, m as nat);
            }
            if plain.len() == block_size {
                proof {
                    committed = committed + plain@;
                    assert(committed + Seq::<u8>::empty() =~= committed);
                }
                full = full + 1;
            } else {
                tail = plain;
                tail_stored = true;
            }
            b = b + 1;
        }
        let r = EncryptedBackend {
            inner,
            key,
            nonce_key,
            block_size,
            full_blocks: full,
            tail,
            tail_stored,
            committed: Ghost(committed),
        };
        proof {
            reveal(EncryptedBackend::wf);
        }
        Ok(r)
    }

    /// Reads back block `b` of `m` when opening a store.
    fn read_back_block(
        inner: &B,
        key: &EncryptionKey,
        nonce_key: &[u8; 32],
        block_size: usize,
        b: u64,
        m: u64,
    ) -> (r: Result<Vec<u8>, StorageError>)
        requires
            inner.valid(),
            nonce_key@ == spec_nonce_key(key@),
            1024 <= block_size <= 1048576,
            b < m,
            inner.contents().len() == phys(block_size as int, m as int),
            phys(block_size as int, m + 1) <= u64::MAX,
        ensures
            r matches Ok(p) ==> block_plain(
                key@,
                block_size as int,
                b,
                block_at(inner.contents(), block_size as int, b as int),
            ) == Some(p@) && recover_block_err(
                key@,
                block_size as int,
                b,
                block_at(inner.contents(), block_size as int, b as int),
            ) is None,
            inner.infallible() ==> (r is Ok <==> recover_block_err(
                key@,
                block_size as int,
                b,
                block_at(inner.contents(), block_size as int, b as int),
            ) is None),
    {
        let ghost bs = block_size as int;
        proof {
            lemma_phys_mono(bs, b as int, b + 1);
            lemma_phys_mono(bs, b + 1, m as int);
            lemma_phys_mono(bs, m as int, m + 1);
            lemma_phys_mono(bs, 0, b as int);
        }
        let enc = block_size as u64 + 32;
        let physical = 32 + b * enc;
        let encrypted = match inner.read_at(physical, enc as usize) {
            Ok(v) => v,
            Err(e) => return Err(e),
        };
        proof {
            assert(encrypted@ =~= block_at(inner.contents(), bs, b as int));
        }
        let (res, plain) = Self::recover_block(key, nonce_key, block_size, b, encrypted.as_slice());
        match res {
            Some(msg) => Err(StorageError::Encryption(msg)),
            None => Ok(plain),
        }
    }

    /// Reads back block `b` when opening a store: the plaintext, or the
    /// message of the failure.
    fn recover_block(
        key: &EncryptionKey,
        nonce_key: &[u8; 32],
        block_size: usize,
        b: u64,
        encrypted: &[u8],
    ) -> (r: (Option<String>, Vec<u8>))
        requires
            nonce_key@ == spec_nonce_key(key@),
            1024 <= block_size <= 1048576,
            encrypted@.len() == block_size + 32,
        ensures
            r.0 is None ==> block_plain(key@, block_size as int, b, encrypted@) == Some(r.1@),
            r.0 matches Some(m) ==> recover_block_err(key@, block_size as int, b, encrypted@) == Some(m@),
            r.0 is None ==> recover_block_err(key@, block_size as int, b, encrypted@) is None,
    {
        reveal(block_plain);
        let nonce_bytes = copy_range(encrypted, 0, 12);
        let expected = derive_nonce(nonce_key, b);
        let mut same = true;
        let mut i: usize = 0;
        while i < 12
            invariant
                i <= 12,
                nonce_bytes@.len() == 12,
                expected@.len() == 12,
                same == (forall|j: int| 0 <= j < i ==> nonce_bytes@[j] == expected@[j]),
            decreases 12 - i,
        {
            if nonce_bytes[i] != expected[i] {
                same = false;
            }
            i = i + 1;
        }
        if !same {
            let mut m = String::new();
            push_str(&mut m, "nonce mismatch for block ");
            push_decimal(&mut m, b);
            push_str(&mut m, " during recovery");
            proof {
                assert(nonce_bytes@ != expected@);
            }
            return (Some(m), Vec::new());
        }
        proof {
            assert(nonce_bytes@ =~= expected@);
        }
        let mut nonce = [0u8; 12];
        let mut k: usize = 0;
        while k < 12
            invariant
                k <= 12,
                nonce@.len() == 12,
                nonce_bytes@.len() == 12,
                forall|j: int| 0 <= j < k ==> nonce@[j] == nonce_bytes@[j],
            decreases 12 - k,
        {
            nonce[k] = nonce_bytes[k];
            k = k + 1;
        }
        proof {
            assert(nonce@ =~= nonce_bytes@);
        }
        let ciphertext = vstd::slice::slice_subrange(encrypted, 12, encrypted.len());
        let f = match aes_gcm_decrypt(key.as_bytes(), &nonce, ciphertext) {
            Some(d) => d,
            None => {
                let mut m = String::new();
                push_str(&mut m, "decryption failed during recovery - wrong key?");
                return (Some(m), Vec::new());
            },
        };
        if f.len() < 4 {
            let mut m = String::new();
            push_str(&mut m, "block too short during recovery");
            return (Some(m), Vec::new());
        }
        let len = read_u32_le(f.as_slice(), 0) as usize;
        if len > block_size || len > f.len() - 4 {
            let mut m = String::new();
            push_str(&mut m, "invalid block length during recovery");
            return (Some(m), Vec::new());
        }
        (None, copy_range(f.as_slice(), 4, 4 + len))
    }
}

} // verus!
