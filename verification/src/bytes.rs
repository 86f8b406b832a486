//! Little-endian integer encoding and byte-buffer helpers.

use vstd::bytes::*;
use vstd::prelude::*;

verus! {

broadcast use vstd::array::group_array_axioms;

/// Appends all bytes of `src` to `buf`.
pub fn push_bytes(buf: &mut Vec<u8>, src: &[u8])
    ensures
        final(buf)@ == old(buf)@ + src@,
{
    let mut i: usize = 0;
    while i < src.len()
        invariant
            i <= src@.len(),
            buf@ == old(buf)@ + src@.take(i as int),
        decreases src@.len() - i,
    {
        buf.push(src[i]);
        assert(src@.take(i + 1) =~= src@.take(i as int).push(src@[i as int]));
        i = i + 1;
    }
    assert(src@.take(src@.len() as int) =~= src@);
}

/// Appends the little-endian encoding of `x`.
pub fn push_u16_le(buf: &mut Vec<u8>, x: u16)
    ensures
        final(buf)@ == old(buf)@ + spec_u16_to_le_bytes(x),
{
    let b = u16_to_le_bytes(x);
    push_bytes(buf, b.as_slice());
}

/// Appends the little-endian encoding of `x`.
pub fn push_u32_le(buf: &mut Vec<u8>, x: u32)
    ensures
        final(buf)@ == old(buf)@ + spec_u32_to_le_bytes(x),
{
    let b = u32_to_le_bytes(x);
    push_bytes(buf, b.as_slice());
}

/// Appends the little-endian encoding of `x`.
pub fn push_u64_le(buf: &mut Vec<u8>, x: u64)
    ensures
        final(buf)@ == old(buf)@ + spec_u64_to_le_bytes(x),
{
    let b = u64_to_le_bytes(x);
    push_bytes(buf, b.as_slice());
}

/// Reads a little-endian `u16` at `off`.
pub fn read_u16_le(data: &[u8], off: usize) -> (r: u16)
    requires
        off + 2 <= data@.len(),
    ensures
        r == spec_u16_from_le_bytes(data@.subrange(off as int, off + 2)),
{
    u16_from_le_bytes({
        let _n = data.len();
        vstd::slice::slice_subrange(data, off, off + 2)
    })
}

/// Reads a little-endian `u32` at `off`.
pub fn read_u32_le(data: &[u8], off: usize) -> (r: u32)
    requires
        off + 4 <= data@.len(),
    ensures
        r == spec_u32_from_le_bytes(data@.subrange(off as int, off + 4)),
{
    u32_from_le_bytes({
        let _n = data.len();
        vstd::slice::slice_subrange(data, off, off + 4)
    })
}

/// Reads a little-endian `u64` at `off`.
pub fn read_u64_le(data: &[u8], off: usize) -> (r: u64)
    requires
        off + 8 <= data@.len(),
    ensures
        r == spec_u64_from_le_bytes(data@.subrange(off as int, off + 8)),
{
    u64_from_le_bytes({
        let _n = data.len();
        vstd::slice::slice_subrange(data, off, off + 8)
    })
}

/// Copies `data[start..end]` into a new vector.
pub fn copy_range(data: &[u8], start: usize, end: usize) -> (r: Vec<u8>)
    requires
        start <= end <= data@.len(),
    ensures
        r@ == data@.subrange(start as int, end as int),
{
    let mut r: Vec<u8> = Vec::new();
    push_bytes(&mut r, vstd::slice::slice_subrange(data, start, end));
    r
}

/// Copies 16 bytes starting at `off` into an array.
pub fn read_array16(data: &[u8], off: usize) -> (r: [u8; 16])
    requires
        off + 16 <= data@.len(),
    ensures
        r@ == data@.subrange(off as int, off + 16),
{
    let _n = data.len();
    let mut a = [0u8; 16];
    let mut i: usize = 0;
    while i < 16
        invariant
            i <= 16,
            off + 16 <= data@.len(),
            _n == data@.len(),
            forall|k: int| 0 <= k < i ==> a@[k] == data@[off + k],
        decreases 16 - i,
    {
        a[i] = data[off + i];
        i = i + 1;
    }
    assert(a@ =~= data@.subrange(off as int, off + 16));
    a
}

/// Copies 32 bytes starting at `off` into an array.
pub fn read_array32(data: &[u8], off: usize) -> (r: [u8; 32])
    requires
        off + 32 <= data@.len(),
    ensures
        r@ == data@.subrange(off as int, off + 32),
{
    let _n = data.len();
    let mut a = [0u8; 32];
    let mut i: usize = 0;
    while i < 32
        invariant
            i <= 32,
            off + 32 <= data@.len(),
            _n == data@.len(),
            forall|k: int| 0 <= k < i ==> a@[k] == data@[off + k],
        decreases 32 - i,
    {
        a[i] = data[off + i];
        i = i + 1;
    }
    assert(a@ =~= data@.subrange(off as int, off + 32));
    a
}

/// Tells whether two byte slices hold the same bytes.
pub fn bytes_eq(a: &[u8], b: &[u8]) -> (r: bool)
    ensures
        r == (a@ == b@),
{
    if a.len() != b.len() {
        return false;
    }
    let mut i: usize = 0;
    while i < a.len()
        invariant
            i <= a@.len(),
            a@.len() == b@.len(),
            forall|k: int| 0 <= k < i ==> a@[k] == b@[k],
        decreases a@.len() - i,
    {
        if a[i] != b[i] {
            return false;
        }
        i = i + 1;
    }
    assert(a@ =~= b@);
    true
}

} // verus!
