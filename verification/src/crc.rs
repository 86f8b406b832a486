//! CRC-32 (IEEE polynomial, reflected) used to protect log and segment records.

use vstd::prelude::*;

verus! {

/// The reflected IEEE polynomial.
pub const CRC32_POLY: u32 = 0xEDB8_8320;

/// One shift-and-xor step of the bitwise CRC computation.
pub open spec fn crc_bit_step(c: u32) -> u32 {
    if c & 1 != 0 {
        (c >> 1) ^ CRC32_POLY
    } else {
        c >> 1
    }
}

/// `k` bitwise steps applied to `c`.
pub open spec fn crc_bit_steps(c: u32, k: nat) -> u32
    decreases k,
{
    if k == 0 {
        c
    } else {
        crc_bit_steps(crc_bit_step(c), (k - 1) as nat)
    }
}

/// Entry `i` of the byte-wise CRC table: eight bitwise steps from `i`.
pub open spec fn crc_table_entry(i: u32) -> u32 {
    crc_bit_steps(i, 8)
}

/// The running CRC register after absorbing one byte.
pub open spec fn crc_update(crc: u32, byte: u8) -> u32 {
    (crc >> 8) ^ crc_table_entry((crc ^ (byte as u32)) & 0xFF)
}

/// The CRC register after absorbing `data`, starting from all ones.
pub open spec fn crc_register(data: Seq<u8>) -> u32
    decreases data.len(),
{
    if data.len() == 0 {
        0xFFFF_FFFFu32
    } else {
        crc_update(crc_register(data.drop_last()), data.last())
    }
}

/// The CRC-32 checksum of `data`.
pub open spec fn spec_crc32(data: Seq<u8>) -> u32 {
    !crc_register(data)
}

fn crc_table_entry_exec(i: u32) -> (r: u32)
    ensures
        r == crc_table_entry(i),
{
    let mut c = i;
    let mut j: u32 = 0;
    while j < 8
        invariant
            j <= 8,
            crc_bit_steps(i, 8) == crc_bit_steps(c, (8 - j) as nat),
        decreases 8 - j,
    {
        assert(crc_bit_steps(c, (8 - j) as nat) == crc_bit_steps(crc_bit_step(c), (8 - j - 1) as nat));
        if c & 1 != 0 {
            c = (c >> 1) ^ CRC32_POLY;
        } else {
            c = c >> 1;
        }
        j = j + 1;
    }
    c
}

/// Computes the CRC-32 checksum of `data`.
pub fn compute_crc32(data: &[u8]) -> (r: u32)
    ensures
        r == spec_crc32(data@),
{
    let mut crc: u32 = 0xFFFF_FFFF;
    let mut i: usize = 0;
    while i < data.len()
        invariant
            i <= data@.len(),
            crc == crc_register(data@.take(i as int)),
        decreases data@.len() - i,
    {
        assert(data@.take(i + 1).drop_last() =~= data@.take(i as int));
        let byte = data[i];
        let index = (crc ^ (byte as u32)) & 0xFF;
        crc = (crc >> 8) ^ crc_table_entry_exec(index);
        i = i + 1;
    }
    assert(data@.take(data@.len() as int) =~= data@);
    !crc
}

} // verus!
