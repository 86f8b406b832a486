//! A deterministic CBOR subset for protocol messages.
//!
//! Messages are CBOR maps with text keys, written in canonical order (shorter
//! keys first, then bytewise) with the shortest head for every length and
//! integer. Reading accepts any well-formed definite-length item (integers,
//! byte and text strings, arrays, maps and simple values), and looks fields up
//! by the first entry with the wanted key.

use vstd::prelude::*;
use vstd::string::StringSliceAdditionalSpecFns;
use vstd::utf8::{decode_utf8, valid_utf8};

verus! {

/// Major type of unsigned integers.
pub const MAJOR_UNSIGNED: u8 = 0;

/// Major type of negative integers.
pub const MAJOR_NEGATIVE: u8 = 1;

/// Major type of byte strings.
pub const MAJOR_BYTES: u8 = 2;

/// Major type of text strings.
pub const MAJOR_TEXT: u8 = 3;

/// Major type of arrays.
pub const MAJOR_ARRAY: u8 = 4;

/// Major type of maps.
pub const MAJOR_MAP: u8 = 5;

/// Major type of simple values.
pub const MAJOR_SIMPLE: u8 = 7;

/// Big-endian value of `n` bytes at `pos`.
pub open spec fn be_at(d: Seq<u8>, pos: int, n: nat) -> nat
    decreases n,
{
    if n == 0 {
        0
    } else {
        be_at(d, pos, (n - 1) as nat) * 256 + d[pos + n - 1] as nat
    }
}

/// The head of the item at `pos`: its major type, its argument, and the
/// offset just after the head.
pub open spec fn head_at(d: Seq<u8>, pos: int) -> Option<(u8, u64, int)> {
    if pos < 0 || pos >= d.len() {
        None
    } else {
        let b = d[pos];
        let major = b / 32;
        let info = b % 32;
        if info < 24 {
            Some((major, info as u64, pos + 1))
        } else if info == 24 && pos + 2 <= d.len() {
            Some((major, be_at(d, pos + 1, 1) as u64, pos + 2))
        } else if info == 25 && pos + 3 <= d.len() {
            Some((major, be_at(d, pos + 1, 2) as u64, pos + 3))
        } else if info == 26 && pos + 5 <= d.len() {
            Some((major, be_at(d, pos + 1, 4) as u64, pos + 5))
        } else if info == 27 && pos + 9 <= d.len() {
            Some((major, be_at(d, pos + 1, 8) as u64, pos + 9))
        } else {
            None
        }
    }
}

/// Where the item at `pos` ends, if it is a well-formed supported item.
pub open spec fn item_end(d: Seq<u8>, pos: int) -> Option<int>
    decreases d.len() - pos, 0int,
{
    match head_at(d, pos) {
        None => None,
        Some((major, arg, next)) => if !(pos < next <= d.len()) {
            None
        } else if major == 0 || major == 1 || major == 7 {
            Some(next)
        } else if major == 2 || major == 3 {
            if next + arg <= d.len() {
                Some(next + arg)
            } else {
                None
            }
        } else if major == 4 {
            items_end(d, next, arg as nat)
        } else if major == 5 {
            items_end(d, next, 2 * arg as nat)
        } else {
            None
        },
    }
}

/// Where `k` consecutive items starting at `pos` end.
pub open spec fn items_end(d: Seq<u8>, pos: int, k: nat) -> Option<int>
    decreases d.len() - pos, k + 1,
{
    if k == 0 {
        if 0 <= pos <= d.len() {
            Some(pos)
        } else {
            None
        }
    } else {
        match item_end(d, pos) {
            None => None,
            Some(e) => if pos < e <= d.len() {
                items_end(d, e, (k - 1) as nat)
            } else {
                None
            },
        }
    }
}

/// The shortest head for major type `major` and argument `arg`.
#[verifier::opaque]
pub open spec fn spec_head(major: u8, arg: u64) -> Seq<u8> {
    if arg < 24 {
        seq![(major * 32 + arg) as u8]
    } else if arg < 0x100 {
        seq![(major * 32 + 24) as u8, arg as u8]
    } else if arg < 0x1_0000 {
        seq![(major * 32 + 25) as u8] + be_bytes(arg as nat, 2)
    } else if arg < 0x1_0000_0000 {
        seq![(major * 32 + 26) as u8] + be_bytes(arg as nat, 4)
    } else {
        seq![(major * 32 + 27) as u8] + be_bytes(arg as nat, 8)
    }
}

/// The `n`-byte big-endian encoding of `x` (modulo `256^n`).
pub open spec fn be_bytes(x: nat, n: nat) -> Seq<u8>
    decreases n,
{
    if n == 0 {
        Seq::empty()
    } else {
        be_bytes(x / 256, (n - 1) as nat).push((x % 256) as u8)
    }
}

/// `256^n`.
pub open spec fn pow256(n: nat) -> nat
    decreases n,
{
    if n == 0 {
        1
    } else {
        256 * pow256((n - 1) as nat)
    }
}

pub(crate) proof fn lemma_be_roundtrip(d: Seq<u8>, pos: int, x: nat, n: nat)
    requires
        0 <= pos,
        pos + n <= d.len(),
        d.subrange(pos, pos + n) == be_bytes(x, n),
    ensures
        be_at(d, pos, n) == x % pow256(n),
    decreases n,
{
    if n > 0 {
        let m = (n - 1) as nat;
        assert(d.subrange(pos, pos + m) =~= be_bytes(x / 256, m)) by {
            assert(d.subrange(pos, pos + n).drop_last() =~= d.subrange(pos, pos + m));
        }
        lemma_be_roundtrip(d, pos, x / 256, m);
        assert(d[pos + n - 1] == d.subrange(pos, pos + n)[n - 1]);
        assert(d[pos + n - 1] == (x % 256) as u8);
        assert(pow256(n) == 256 * pow256(m));
        lemma_div_mod_pow(x, m);
    }
}

proof fn lemma_div_mod_pow(x: nat, m: nat)
    ensures
        ((x / 256) % pow256(m)) * 256 + x % 256 == x % (256 * pow256(m)),
{
    assert(pow256(m) > 0) by {
        lemma_pow256_pos(m);
    }
    let p = pow256(m);
    let q = x / 256;
    let r = x % 256;
    assert(x == q * 256 + r) by (nonlinear_arith)
        requires
            q == x / 256,
            r == x % 256,
    ;
    let qq = q / p;
    let qr = q % p;
    assert(q == qq * p + qr) by (nonlinear_arith)
        requires
            p > 0,
            qq == q / p,
            qr == q % p,
    ;
    assert(x == qq * (256 * p) + (qr * 256 + r)) by (nonlinear_arith)
        requires
            x == q * 256 + r,
            q == qq * p + qr,
    ;
    assert(0 <= qr * 256 + r < 256 * p) by (nonlinear_arith)
        requires
            0 <= qr < p,
            0 <= r < 256,
    ;
    vstd::arithmetic::div_mod::lemma_fundamental_div_mod_converse(
        x as int,
        (256 * p) as int,
        qq as int,
        (qr * 256 + r) as int,
    );
}

proof fn lemma_pow256_pos(n: nat)
    ensures
        pow256(n) > 0,
    decreases n,
{
    if n > 0 {
        lemma_pow256_pos((n - 1) as nat);
    }
}

pub(crate) proof fn lemma_be_bytes_len(x: nat, n: nat)
    ensures
        be_bytes(x, n).len() == n,
    decreases n,
{
    if n > 0 {
        lemma_be_bytes_len(x / 256, (n - 1) as nat);
    }
}

/// A shortest head, found at `pos`, reads back as its major type and argument.
pub proof fn lemma_head_roundtrip(d: Seq<u8>, pos: int, major: u8, arg: u64)
    requires
        major < 8,
        0 <= pos,
        pos + spec_head(major, arg).len() <= d.len(),
        d.subrange(pos, pos + spec_head(major, arg).len()) == spec_head(major, arg),
    ensures
        head_at(d, pos) == Some((major, arg, pos + spec_head(major, arg).len())),
        spec_head(major, arg).len() >= 1,
{
    reveal(spec_head);
    let h = spec_head(major, arg);
    assert(d[pos] == d.subrange(pos, pos + h.len())[0]);
    assert(d[pos] == h[0]);
    if arg < 24 {
        assert((major * 32 + arg) / 32 == major && (major * 32 + arg) % 32 == arg);
    } else if arg < 0x100 {
        assert((major * 32 + 24) / 32 == major && (major * 32 + 24) % 32 == 24);
        assert(d[pos + 1] == d.subrange(pos, pos + h.len())[1]);
        assert(d[pos + 1] == h[1]);
        assert(be_at(d, pos + 1, 1) == d[pos + 1]) by {
            reveal_with_fuel(be_at, 2);
        }
    } else {
        let n: nat = if arg < 0x1_0000 {
            2
        } else if arg < 0x1_0000_0000 {
            4
        } else {
            8
        };
        let info: u8 = if arg < 0x1_0000 {
            25
        } else if arg < 0x1_0000_0000 {
            26
        } else {
            27
        };
        assert((major * 32 + info) / 32 == major && (major * 32 + info) % 32 == info);
        lemma_be_bytes_len(arg as nat, n);
        assert(d.subrange(pos + 1, pos + 1 + n) =~= be_bytes(arg as nat, n)) by {
            assert(h =~= seq![(major * 32 + info) as u8] + be_bytes(arg as nat, n));
            assert(d.subrange(pos, pos + h.len()).subrange(1, 1 + n as int) =~= d.subrange(
                pos + 1,
                pos + 1 + n,
            ));
        }
        lemma_be_roundtrip(d, pos + 1, arg as nat, n);
        assert(pow256(2) == 0x1_0000) by {
            reveal_with_fuel(pow256, 3);
        }
        assert(pow256(4) == 0x1_0000_0000) by {
            reveal_with_fuel(pow256, 5);
        }
        assert(pow256(8) == 0x1_0000_0000_0000_0000) by {
            reveal_with_fuel(pow256, 9);
        }
        vstd::arithmetic::div_mod::lemma_small_mod(arg as nat, pow256(n));
    }
}

/// Appends the shortest head for `major` and `arg`.
pub fn write_head(out: &mut Vec<u8>, major: u8, arg: u64)
    requires
        major < 8,
    ensures
        final(out)@ == old(out)@ + spec_head(major, arg),
{
    reveal(spec_head);
    let base: u8 = major * 32;
    if arg < 24 {
        out.push(base + arg as u8);
    } else if arg < 0x100 {
        out.push(base + 24);
        out.push(arg as u8);
    } else if arg < 0x1_0000 {
        out.push(base + 25);
        write_be(out, arg, 2);
    } else if arg < 0x1_0000_0000 {
        out.push(base + 26);
        write_be(out, arg, 4);
    } else {
        out.push(base + 27);
        write_be(out, arg, 8);
    }
    proof {
        assert(final(out)@ =~= old(out)@ + spec_head(major, arg));
    }
}

/// Appends the `n`-byte big-endian encoding of `x`.
pub(crate) fn write_be(out: &mut Vec<u8>, x: u64, n: u32)
    requires
        n <= 8,
    ensures
        final(out)@ == old(out)@ + be_bytes(x as nat, n as nat),
    decreases n,
{
    if n > 0 {
        write_be(out, x / 256, n - 1);
        out.push((x % 256) as u8);
        proof {
            assert(old(out)@ + be_bytes(x as nat, n as nat) =~= old(out)@ + be_bytes(
                (x / 256) as nat,
                (n - 1) as nat,
            ) + seq![(x % 256) as u8]);
        }
    } else {
        assert(old(out)@ + be_bytes(x as nat, 0) =~= old(out)@);
    }
}

/// Reads the head at `pos`.
pub fn read_head(d: &[u8], pos: usize) -> (r: Option<(u8, u64, usize)>)
    ensures
        match r {
            Some((m, a, n)) => head_at(d@, pos as int) == Some((m, a, n as int)),
            None => head_at(d@, pos as int) is None,
        },
{
    if pos >= d.len() {
        return None;
    }
    let b = d[pos];
    let major = b / 32;
    let info = b % 32;
    if info < 24 {
        return Some((major, info as u64, pos + 1));
    }
    let n: usize = if info == 24 {
        1
    } else if info == 25 {
        2
    } else if info == 26 {
        4
    } else if info == 27 {
        8
    } else {
        return None;
    };
    if n > d.len() - pos - 1 {
        return None;
    }
    let len = d.len();
    let base = pos + 1;
    let mut v: u64 = 0;
    let mut i: usize = 0;
    while i < n
        invariant
            i <= n,
            n <= 8,
            len == d@.len(),
            base == pos + 1,
            base + n <= d@.len(),
            v == be_at(d@, pos + 1, i as nat),
            be_at(d@, pos + 1, i as nat) < pow256(i as nat),
        decreases n - i,
    {
        proof {
            assert(be_at(d@, pos + 1, (i + 1) as nat) == be_at(d@, pos + 1, i as nat) * 256 + d@[pos
                + 1 + i] as nat);
            assert(pow256((i + 1) as nat) == 256 * pow256(i as nat));
            assert(be_at(d@, pos + 1, (i + 1) as nat) < pow256((i + 1) as nat)) by (nonlinear_arith)
                requires
                    be_at(d@, pos + 1, (i + 1) as nat) == be_at(d@, pos + 1, i as nat) * 256 + d@[pos
                        + 1 + i] as nat,
                    be_at(d@, pos + 1, i as nat) < pow256(i as nat),
                    pow256((i + 1) as nat) == 256 * pow256(i as nat),
                    d@[pos + 1 + i] < 256,
            ;
            assert(pow256(8) == 0x1_0000_0000_0000_0000) by {
                reveal_with_fuel(pow256, 9);
            }
            lemma_pow256_mono((i + 1) as nat, 8);
        }
        v = v * 256 + d[base + i] as u64;
        i = i + 1;
    }
    Some((major, v, pos + 1 + n))
}

pub(crate) proof fn lemma_pow256_mono(a: nat, b: nat)
    requires
        a <= b,
    ensures
        pow256(a) <= pow256(b),
    decreases b,
{
    if a < b {
        lemma_pow256_mono(a, (b - 1) as nat);
        lemma_pow256_pos((b - 1) as nat);
    }
}

/// Finds where the item at `pos` ends.
pub fn skip_item(d: &[u8], pos: usize) -> (r: Option<usize>)
    ensures
        match r {
            Some(e) => item_end(d@, pos as int) == Some(e as int),
            None => item_end(d@, pos as int) is None,
        },
    decreases d@.len() - pos,
{
    let (major, arg, next) = match read_head(d, pos) {
        Some(h) => h,
        None => return None,
    };
    if !(pos < next && next <= d.len()) {
        return None;
    }
    if major == 0 || major == 1 || major == 7 {
        return Some(next);
    }
    if major == 2 || major == 3 {
        if arg > (d.len() - next) as u64 {
            return None;
        }
        return Some(next + arg as usize);
    }
    if major == 4 || major == 5 {
        let per: u64 = if major == 4 {
            1
        } else {
            2
        };
        let mut p = next;
        let mut i: u64 = 0;
        assert(item_end(d@, pos as int) == items_end(d@, next as int, (per * arg) as nat));
        while i < arg
            invariant
                pos < next <= p <= d@.len(),
                item_end(d@, pos as int) == items_end(d@, next as int, (per * arg) as nat),
                i <= arg,
                per == 1 || per == 2,
                items_end(d@, next as int, (per * arg) as nat) == items_end(
                    d@,
                    p as int,
                    (per * (arg - i)) as nat,
                ),
            decreases arg - i,
        {
            let e1 = match skip_item(d, p) {
                Some(e) => e,
                None => {
                    proof {
                        assert(items_end(d@, p as int, (per * (arg - i)) as nat) is None);
                    }
                    return None;
                },
            };
            if !(p < e1 && e1 <= d.len()) {
                proof {
                    assert(items_end(d@, p as int, (per * (arg - i)) as nat) is None);
                }
                return None;
            }
            proof {
                assert(items_end(d@, p as int, (per * (arg - i)) as nat) == items_end(
                    d@,
                    e1 as int,
                    (per * (arg - i) - 1) as nat,
                ));
            }
            p = e1;
            if per == 2 {
                let e2 = match skip_item(d, p) {
                    Some(e) => e,
                    None => {
                        proof {
                            assert(items_end(d@, p as int, (2 * (arg - i) - 1) as nat) is None);
                        }
                        return None;
                    },
                };
                if !(p < e2 && e2 <= d.len()) {
                    proof {
                        assert(items_end(d@, p as int, (2 * (arg - i) - 1) as nat) is None);
                    }
                    return None;
                }
                proof {
                    assert(items_end(d@, p as int, (2 * (arg - i) - 1) as nat) == items_end(
                        d@,
                        e2 as int,
                        (2 * (arg - i) - 2) as nat,
                    ));
                }
                p = e2;
            }
            i = i + 1;
            proof {
                assert((per * (arg - i)) as nat == (per * (arg - (i - 1)) - per) as nat);
            }
        }
        proof {
            assert(i == arg);
            assert((per * (arg - i)) as nat == 0nat);
            assert(items_end(d@, p as int, 0) == Some(p as int));
        }
        return Some(p);
    }
    None
}

/// The entries of `k` map entries starting at `pos`: for each, where its
/// key starts, where its value starts and where the value ends.
pub open spec fn map_entries(d: Seq<u8>, pos: int, k: nat) -> Option<Seq<(int, int, int)>>
    decreases d.len() - pos, k,
{
    if k == 0 {
        Some(Seq::empty())
    } else {
        match item_end(d, pos) {
            None => None,
            Some(ke) => if pos < ke <= d.len() {
                match item_end(d, ke) {
                    None => None,
                    Some(ve) => if ke < ve <= d.len() {
                        match map_entries(d, ve, (k - 1) as nat) {
                            None => None,
                            Some(rest) => Some(seq![(pos, ke, ve)] + rest),
                        }
                    } else {
                        None
                    },
                }
            } else {
                None
            },
        }
    }
}

/// `d` holds exactly one well-formed item.
pub open spec fn single_item(d: Seq<u8>) -> bool {
    item_end(d, 0) == Some(d.len() as int)
}

/// The entries of `d` when it is exactly one map.
#[verifier::opaque]
pub open spec fn message_entries(d: Seq<u8>) -> Option<Seq<(int, int, int)>> {
    if single_item(d) {
        match head_at(d, 0) {
            Some((major, n, next)) => if major == 5 {
                map_entries(d, next, n as nat)
            } else {
                None
            },
            None => None,
        }
    } else {
        None
    }
}

/// The item at `pos` is the text string `name` (as UTF-8 bytes).
pub open spec fn text_is(d: Seq<u8>, pos: int, name: Seq<u8>) -> bool {
    match head_at(d, pos) {
        Some((major, len, next)) => major == 3 && next + len <= d.len() && d.subrange(
            next,
            next + len,
        ) == name,
        None => false,
    }
}

/// The value span of the first entry whose key is `name`.
pub open spec fn find_entry(d: Seq<u8>, es: Seq<(int, int, int)>, name: Seq<u8>) -> Option<
    (int, int),
>
    decreases es.len(),
{
    if es.len() == 0 {
        None
    } else if text_is(d, es[0].0, name) {
        Some((es[0].1, es[0].2))
    } else {
        find_entry(d, es.drop_first(), name)
    }
}

/// The integer at `pos`, if it is an integer in the range of `i64`.
pub open spec fn int_at(d: Seq<u8>, pos: int) -> Option<i64> {
    match head_at(d, pos) {
        Some((major, a, _n)) => if major == 0 && a <= i64::MAX {
            Some(a as i64)
        } else if major == 1 && a <= i64::MAX {
            Some((-1 - a) as i64)
        } else {
            None
        },
        None => None,
    }
}

/// The byte string at `pos`, if it is one.
pub open spec fn bytes_at(d: Seq<u8>, pos: int) -> Option<Seq<u8>> {
    match head_at(d, pos) {
        Some((major, len, n)) => if major == 2 && n + len <= d.len() {
            Some(d.subrange(n, n + len))
        } else {
            None
        },
        None => None,
    }
}

/// The UTF-8 bytes of the text string at `pos`, if it is one.
pub open spec fn text_at(d: Seq<u8>, pos: int) -> Option<Seq<u8>> {
    match head_at(d, pos) {
        Some((major, len, n)) => if major == 3 && n + len <= d.len() {
            Some(d.subrange(n, n + len))
        } else {
            None
        },
        None => None,
    }
}

/// The boolean at `pos`, if it is one.
pub open spec fn bool_at(d: Seq<u8>, pos: int) -> Option<bool> {
    match head_at(d, pos) {
        Some((major, a, _n)) => if major == 7 && a == 20 && d[pos] == 0xF4 {
            Some(false)
        } else if major == 7 && a == 21 && d[pos] == 0xF5 {
            Some(true)
        } else {
            None
        },
        None => None,
    }
}

/// The byte strings among the `k` items starting at `pos`, in order; other
/// items are passed over.
pub open spec fn byte_items(d: Seq<u8>, pos: int, k: nat) -> Option<Seq<Seq<u8>>>
    decreases d.len() - pos, k,
{
    if k == 0 {
        Some(Seq::empty())
    } else {
        match item_end(d, pos) {
            None => None,
            Some(e) => if pos < e <= d.len() {
                match byte_items(d, e, (k - 1) as nat) {
                    None => None,
                    Some(rest) => match bytes_at(d, pos) {
                        Some(b) => Some(seq![b] + rest),
                        None => Some(rest),
                    },
                }
            } else {
                None
            },
        }
    }
}

/// The byte strings of the array at `pos`, if it is an array.
pub open spec fn byte_array_at(d: Seq<u8>, pos: int) -> Option<Seq<Seq<u8>>> {
    match head_at(d, pos) {
        Some((major, k, n)) => if major == 4 {
            byte_items(d, n, k as nat)
        } else {
            None
        },
        None => None,
    }
}

/// The encoding of an integer.
pub open spec fn spec_int(v: i64) -> Seq<u8> {
    if v >= 0 {
        spec_head(0, v as u64)
    } else {
        spec_head(1, (-1 - v) as u64)
    }
}

/// The encoding of a byte string.
pub open spec fn spec_bytes(b: Seq<u8>) -> Seq<u8> {
    spec_head(2, b.len() as u64) + b
}

/// The encoding of a text string given by its UTF-8 bytes.
pub open spec fn spec_text(b: Seq<u8>) -> Seq<u8> {
    spec_head(3, b.len() as u64) + b
}

/// The encoding of a boolean.
pub open spec fn spec_bool(b: bool) -> Seq<u8> {
    if b {
        seq![0xF5u8]
    } else {
        seq![0xF4u8]
    }
}

/// Appends an integer.
pub fn write_int(out: &mut Vec<u8>, v: i64)
    ensures
        final(out)@ == old(out)@ + spec_int(v),
{
    if v >= 0 {
        write_head(out, 0, v as u64);
    } else {
        let a: u64 = (-1 - (v as i128)) as u64;
        write_head(out, 1, a);
    }
}

/// Appends a byte string.
pub fn write_bytes(out: &mut Vec<u8>, b: &[u8])
    ensures
        final(out)@ == old(out)@ + spec_bytes(b@),
{
    write_head(out, 2, b.len() as u64);
    crate::bytes::push_bytes(out, b);
    assert(final(out)@ =~= old(out)@ + spec_bytes(b@));
}

/// Appends a text string.
pub fn write_text(out: &mut Vec<u8>, t: &str)
    ensures
        final(out)@ == old(out)@ + spec_text(t.spec_bytes()),
{
    let b = t.as_bytes();
    write_head(out, 3, b.len() as u64);
    crate::bytes::push_bytes(out, b);
    assert(final(out)@ =~= old(out)@ + spec_text(t.spec_bytes()));
}

/// Appends a boolean.
pub fn write_bool(out: &mut Vec<u8>, b: bool)
    ensures
        final(out)@ == old(out)@ + spec_bool(b),
{
    if b {
        out.push(0xF5u8);
    } else {
        out.push(0xF4u8);
    }
}

/// Appends the head of an array or map.
pub fn write_container(out: &mut Vec<u8>, major: u8, n: u64)
    requires
        major == 4 || major == 5,
    ensures
        final(out)@ == old(out)@ + spec_head(major, n),
{
    write_head(out, major, n);
}

proof fn lemma_map_entries_some(d: Seq<u8>, pos: int, k: nat)
    requires
        items_end(d, pos, 2 * k) is Some,
    ensures
        map_entries(d, pos, k) matches Some(s) && s.len() == k,
    decreases k,
{
    if k > 0 {
        let e1 = item_end(d, pos)->Some_0;
        let e2 = item_end(d, e1)->Some_0;
        assert(items_end(d, pos, 2 * k) == items_end(d, e1, (2 * k - 1) as nat));
        assert(items_end(d, e1, (2 * k - 1) as nat) == items_end(d, e2, (2 * (k - 1)) as nat));
        lemma_map_entries_some(d, e2, (k - 1) as nat);
    }
}

/// Reads the entries of `d` when it is exactly one map; `Err(true)` when `d`
/// is not one well-formed item, `Err(false)` when it is an item but no map.
pub fn read_message_entries(d: &[u8]) -> (r: Result<Vec<(usize, usize, usize)>, bool>)
    ensures
        match r {
            Ok(es) => message_entries(d@) == Some(entries_view(es@)),
            Err(malformed) => message_entries(d@) is None && malformed == !single_item(d@),
        },
{
    reveal(message_entries);
    let end = skip_item(d, 0);
    match end {
        Some(e) => {
            if e != d.len() {
                return Err(true);
            }
        },
        None => return Err(true),
    }
    let (major, n, next) = match read_head(d, 0) {
        Some(h) => h,
        None => return Err(true),
    };
    if major != 5 {
        return Err(false);
    }
    proof {
        assert(item_end(d@, 0) == items_end(d@, next as int, 2 * n as nat));
        lemma_map_entries_some(d@, next as int, n as nat);
    }
    let ghost all = map_entries(d@, next as int, n as nat)->Some_0;
    let mut es: Vec<(usize, usize, usize)> = Vec::new();
    let mut p = next;
    let mut i: u64 = 0;
    while i < n
        invariant
            i <= n,
            p <= d@.len(),
            message_entries(d@) == Some(all),
            all.len() == n,
            map_entries(d@, p as int, (n - i) as nat) == Some(all.subrange(i as int, n as int)),
            es@.len() == i,
            forall|j: int|
                0 <= j < i ==> all[j] == ((#[trigger] es@[j]).0 as int, es@[j].1 as int, es@[j].2 as int),
        decreases n - i,
    {
        proof {
            assert(all.subrange(i as int, n as int)[0] == all[i as int]);
            assert(all.subrange(i as int, n as int).drop_first() =~= all.subrange(i + 1, n as int));
        }
        let ke = skip_item(d, p).unwrap();
        let ve = skip_item(d, ke).unwrap();
        es.push((p, ke, ve));
        p = ve;
        i = i + 1;
    }
    assert(all =~= entries_view(es@));
    Ok(es)
}

/// The value of a message field.
pub enum FieldValue {
    Int(i64),
    Bytes(Seq<u8>),
    Text(Seq<u8>),
    Bool(bool),
    ByteArray(Seq<Seq<u8>>),
}

/// The encodings of byte strings, one after the other.
pub open spec fn spec_byte_items(bs: Seq<Seq<u8>>) -> Seq<u8>
    decreases bs.len(),
{
    if bs.len() == 0 {
        Seq::empty()
    } else {
        spec_bytes(bs[0]) + spec_byte_items(bs.drop_first())
    }
}

/// The encoding of a field value.
pub open spec fn spec_value(v: FieldValue) -> Seq<u8> {
    match v {
        FieldValue::Int(i) => spec_int(i),
        FieldValue::Bytes(b) => spec_bytes(b),
        FieldValue::Text(t) => spec_text(t),
        FieldValue::Bool(b) => spec_bool(b),
        FieldValue::ByteArray(bs) => spec_head(4, bs.len() as u64) + spec_byte_items(bs),
    }
}

/// Every length in the value fits a head's argument.
pub open spec fn value_ok(v: FieldValue) -> bool {
    match v {
        FieldValue::Bytes(b) => b.len() <= u64::MAX,
        FieldValue::Text(t) => t.len() <= u64::MAX,
        FieldValue::ByteArray(bs) => bs.len() <= u64::MAX && forall|i: int|
            0 <= i < bs.len() ==> (#[trigger] bs[i]).len() <= u64::MAX,
        _ => true,
    }
}

/// The item at `pos` reads back as the value `v`.
pub open spec fn decodes_as(d: Seq<u8>, pos: int, v: FieldValue) -> bool {
    match v {
        FieldValue::Int(i) => int_at(d, pos) == Some(i),
        FieldValue::Bytes(b) => bytes_at(d, pos) == Some(b),
        FieldValue::Text(t) => text_at(d, pos) == Some(t),
        FieldValue::Bool(b) => bool_at(d, pos) == Some(b),
        FieldValue::ByteArray(bs) => byte_array_at(d, pos) == Some(bs),
    }
}

/// The encodings of the fields, each its key (a text string) then its value.
#[verifier::opaque]
pub open spec fn spec_fields(fs: Seq<(Seq<u8>, FieldValue)>) -> Seq<u8>
    decreases fs.len(),
{
    if fs.len() == 0 {
        Seq::empty()
    } else {
        spec_text(fs[0].0) + spec_value(fs[0].1) + spec_fields(fs.drop_first())
    }
}

/// The encoding of a map of fields, in the order given.
pub open spec fn spec_map(fs: Seq<(Seq<u8>, FieldValue)>) -> Seq<u8> {
    spec_head(5, fs.len() as u64) + spec_fields(fs)
}

/// Every key and value of the fields fits the encoding.
pub open spec fn fields_ok(fs: Seq<(Seq<u8>, FieldValue)>) -> bool {
    &&& fs.len() <= u64::MAX
    &&& forall|i: int| 0 <= i < fs.len() ==> (#[trigger] fs[i]).0.len() <= u64::MAX && value_ok(fs[i].1)
}

/// `d` holds `e` at `pos`.
pub open spec fn holds_at(d: Seq<u8>, pos: int, e: Seq<u8>) -> bool {
    0 <= pos && pos + e.len() <= d.len() && d.subrange(pos, pos + e.len()) == e
}

proof fn lemma_holds_split(d: Seq<u8>, pos: int, a: Seq<u8>, b: Seq<u8>)
    requires
        holds_at(d, pos, a + b),
    ensures
        holds_at(d, pos, a),
        holds_at(d, pos + a.len(), b),
{
    let ab = a + b;
    let whole = d.subrange(pos, pos + ab.len());
    assert(whole == ab);
    assert(d.subrange(pos, pos + a.len()) =~= whole.subrange(0, a.len() as int));
    assert(whole.subrange(0, a.len() as int) =~= a);
    assert(d.subrange(pos + a.len(), pos + a.len() + b.len()) =~= whole.subrange(
        a.len() as int,
        ab.len() as int,
    ));
    assert(whole.subrange(a.len() as int, ab.len() as int) =~= b);
}

/// A string (major type 2 or 3) found at `pos` ends after its bytes.
proof fn lemma_string_at(d: Seq<u8>, pos: int, major: u8, b: Seq<u8>)
    requires
        major == 2 || major == 3,
        b.len() <= u64::MAX,
        holds_at(d, pos, spec_head(major, b.len() as u64) + b),
    ensures
        head_at(d, pos) == Some((major, b.len() as u64, pos + spec_head(major, b.len() as u64).len())),
        spec_head(major, b.len() as u64).len() >= 1,
        item_end(d, pos) == Some(pos + spec_head(major, b.len() as u64).len() + b.len()),
        d.subrange(
            pos + spec_head(major, b.len() as u64).len(),
            pos + spec_head(major, b.len() as u64).len() + b.len(),
        ) == b,
{
    let h = spec_head(major, b.len() as u64);
    lemma_holds_split(d, pos, h, b);
    lemma_head_roundtrip(d, pos, major, b.len() as u64);
}

proof fn lemma_byte_items_at(d: Seq<u8>, pos: int, bs: Seq<Seq<u8>>)
    requires
        forall|i: int| 0 <= i < bs.len() ==> (#[trigger] bs[i]).len() <= u64::MAX,
        holds_at(d, pos, spec_byte_items(bs)),
    ensures
        items_end(d, pos, bs.len()) == Some(pos + spec_byte_items(bs).len()),
        byte_items(d, pos, bs.len()) == Some(bs),
    decreases bs.len(),
{
    if bs.len() > 0 {
        let first = spec_bytes(bs[0]);
        let rest = spec_byte_items(bs.drop_first());
        assert(bs[0].len() <= u64::MAX);
        lemma_holds_split(d, pos, first, rest);
        lemma_string_at(d, pos, 2, bs[0]);
        lemma_byte_items_at(d, pos + first.len(), bs.drop_first());
        assert(seq![bs[0]] + bs.drop_first() =~= bs);
    } else {
        assert(bs =~= Seq::<Seq<u8>>::empty());
    }
}

/// A value found at `pos` ends after its encoding, reads back as itself,
/// and is a text string equal to `name` only when it is the text `name`.
pub proof fn lemma_value_at(d: Seq<u8>, pos: int, v: FieldValue)
    requires
        value_ok(v),
        holds_at(d, pos, spec_value(v)),
    ensures
        item_end(d, pos) == Some(pos + spec_value(v).len()),
        spec_value(v).len() >= 1,
        decodes_as(d, pos, v),
        forall|name: Seq<u8>| #[trigger] text_is(d, pos, name) <==> v == FieldValue::Text(name),
{
    match v {
        FieldValue::Int(i) => {
            let major: u8 = if i >= 0 {
                0
            } else {
                1
            };
            let a: u64 = if i >= 0 {
                i as u64
            } else {
                (-1 - i) as u64
            };
            assert(spec_value(v) == spec_head(major, a));
            lemma_head_roundtrip(d, pos, major, a);
        },
        FieldValue::Bytes(b) => {
            lemma_string_at(d, pos, 2, b);
        },
        FieldValue::Text(t) => {
            lemma_string_at(d, pos, 3, t);
        },
        FieldValue::Bool(b) => {
            assert(d[pos] == d.subrange(pos, pos + 1)[0]);
            if b {
                assert(d[pos] == 0xF5u8);
                assert(0xF5u8 / 32 == 7 && 0xF5u8 % 32 == 21) by (bit_vector);
            } else {
                assert(d[pos] == 0xF4u8);
                assert(0xF4u8 / 32 == 7 && 0xF4u8 % 32 == 20) by (bit_vector);
            }
        },
        FieldValue::ByteArray(bs) => {
            let h = spec_head(4, bs.len() as u64);
            lemma_holds_split(d, pos, h, spec_byte_items(bs));
            lemma_head_roundtrip(d, pos, 4, bs.len() as u64);
            lemma_byte_items_at(d, pos + h.len(), bs);
        },
    }
}

/// The entries `es` found in `d` are those of the fields `fs`: same keys,
/// values reading back as the fields' values.
pub open spec fn entries_match(d: Seq<u8>, es: Seq<(int, int, int)>, fs: Seq<(Seq<u8>, FieldValue)>) -> bool {
    &&& es.len() == fs.len()
    &&& forall|i: int|
        0 <= i < es.len() ==> (forall|name: Seq<u8>| #[trigger] text_is(d, es[i].0, name) <==> name == fs[i].0)
            && decodes_as(d, (#[trigger] es[i]).1, fs[i].1)
}

proof fn lemma_fields_at(d: Seq<u8>, pos: int, fs: Seq<(Seq<u8>, FieldValue)>)
    requires
        fields_ok(fs),
        holds_at(d, pos, spec_fields(fs)),
    ensures
        items_end(d, pos, 2 * fs.len()) == Some(pos + spec_fields(fs).len()),
        map_entries(d, pos, fs.len()) matches Some(es) && entries_match(d, es, fs),
    decreases fs.len(),
{
    reveal(spec_fields);
    if fs.len() == 0 {
    } else {
        let k = spec_text(fs[0].0);
        let v = spec_value(fs[0].1);
        let rest = spec_fields(fs.drop_first());
        assert(fs[0].0.len() <= u64::MAX && value_ok(fs[0].1));
        assert(spec_fields(fs) == k + v + rest);
        lemma_holds_split(d, pos, k + v, rest);
        lemma_holds_split(d, pos, k, v);
        lemma_value_at(d, pos, FieldValue::Text(fs[0].0));
        lemma_value_at(d, pos + k.len(), fs[0].1);
        let tail = fs.drop_first();
        assert(fields_ok(tail)) by {
            assert forall|i: int| 0 <= i < tail.len() implies (#[trigger] tail[i]).0.len() <= u64::MAX
                && value_ok(tail[i].1) by {
                assert(tail[i] == fs[i + 1]);
            }
        }
        lemma_fields_at(d, pos + k.len() + v.len(), tail);
        assert(items_end(d, pos, 2 * fs.len()) == items_end(d, pos + k.len(), (2 * fs.len() - 1) as nat));
        assert(items_end(d, pos + k.len(), (2 * fs.len() - 1) as nat) == items_end(
            d,
            pos + k.len() + v.len(),
            (2 * tail.len()) as nat,
        ));
        let es_rest = map_entries(d, pos + k.len() + v.len(), tail.len())->Some_0;
        let es = seq![(pos, pos + k.len(), pos + k.len() + v.len())] + es_rest;
        assert(map_entries(d, pos, fs.len()) == Some(es));
        assert forall|i: int| 0 <= i < es.len() implies (forall|name: Seq<u8>| #[trigger] text_is(
            d,
            es[i].0,
            name,
        ) <==> name == fs[i].0) && decodes_as(d, (#[trigger] es[i]).1, fs[i].1) by {
            if i > 0 {
                assert(es[i] == es_rest[i - 1]);
                assert(fs[i] == tail[i - 1]);
            }
        }
    }
}

/// A map of fields, found as the whole of `d`, reads back as its entries.
#[verifier::spinoff_prover]
pub proof fn lemma_map_message(d: Seq<u8>, fs: Seq<(Seq<u8>, FieldValue)>)
    requires
        fields_ok(fs),
        d == spec_map(fs),
    ensures
        message_entries(d) matches Some(es) && entries_match(d, es, fs),
{
    reveal(message_entries);
    let h = spec_head(5, fs.len() as u64);
    assert(holds_at(d, 0, d)) by {
        assert(d.subrange(0, d.len() as int) =~= d);
    }
    lemma_holds_split(d, 0, h, spec_fields(fs));
    lemma_head_roundtrip(d, 0, 5, fs.len() as u64);
    lemma_fields_at(d, h.len() as int, fs);
    assert(head_at(d, 0) == Some((5u8, fs.len() as u64, h.len() as int)));
    assert(item_end(d, 0) == items_end(d, h.len() as int, 2 * fs.len()));
    assert(single_item(d));
    assert(message_entries(d) == map_entries(d, h.len() as int, fs.len()));
}

/// The first entry with a key is that of the first field with the key.
pub proof fn lemma_find_field(
    d: Seq<u8>,
    es: Seq<(int, int, int)>,
    fs: Seq<(Seq<u8>, FieldValue)>,
    j: int,
)
    requires
        entries_match(d, es, fs),
        0 <= j < fs.len(),
        forall|i: int| 0 <= i < j ==> fs[i].0 != fs[j].0,
    ensures
        find_entry(d, es, fs[j].0) == Some((es[j].1, es[j].2)),
        decodes_as(d, es[j].1, fs[j].1),
    decreases j,
{
    assert(text_is(d, es[0].0, fs[0].0) <==> fs[0].0 == fs[0].0);
    assert(decodes_as(d, es[j].1, fs[j].1));
    if j > 0 {
        assert(text_is(d, es[0].0, fs[j].0) <==> fs[j].0 == fs[0].0);
        let es2 = es.drop_first();
        let fs2 = fs.drop_first();
        assert forall|i: int| 0 <= i < es2.len() implies (forall|name: Seq<u8>| #[trigger] text_is(
            d,
            es2[i].0,
            name,
        ) <==> name == fs2[i].0) && decodes_as(d, (#[trigger] es2[i]).1, fs2[i].1) by {
            assert(es2[i] == es[i + 1] && fs2[i] == fs[i + 1]);
        }
        lemma_find_field(d, es2, fs2, j - 1);
    }
}

/// No entry has a key that no field has.
pub proof fn lemma_find_absent(d: Seq<u8>, es: Seq<(int, int, int)>, fs: Seq<(Seq<u8>, FieldValue)>, name: Seq<u8>)
    requires
        entries_match(d, es, fs),
        forall|i: int| 0 <= i < fs.len() ==> fs[i].0 != name,
    ensures
        find_entry(d, es, name) is None,
    decreases es.len(),
{
    if es.len() > 0 {
        assert(text_is(d, es[0].0, name) <==> name == fs[0].0);
        let es2 = es.drop_first();
        let fs2 = fs.drop_first();
        assert forall|i: int| 0 <= i < es2.len() implies (forall|nm: Seq<u8>| #[trigger] text_is(
            d,
            es2[i].0,
            nm,
        ) <==> nm == fs2[i].0) && decodes_as(d, (#[trigger] es2[i]).1, fs2[i].1) by {
            assert(es2[i] == es[i + 1] && fs2[i] == fs[i + 1]);
        }
        lemma_find_absent(d, es2, fs2, name);
    }
}

/// The entries found by a reader, as integers.
pub open spec fn entries_view(es: Seq<(usize, usize, usize)>) -> Seq<(int, int, int)> {
    es.map_values(|e: (usize, usize, usize)| (e.0 as int, e.1 as int, e.2 as int))
}

/// The integer field `name`, if the first entry with that key holds one.
#[verifier::opaque]
pub open spec fn int_field(d: Seq<u8>, es: Seq<(int, int, int)>, name: Seq<u8>) -> Option<i64> {
    match find_entry(d, es, name) {
        Some((v, _)) => int_at(d, v),
        None => None,
    }
}

/// The byte-string field `name`, if the first entry with that key holds one.
#[verifier::opaque]
pub open spec fn bytes_field(d: Seq<u8>, es: Seq<(int, int, int)>, name: Seq<u8>) -> Option<Seq<u8>> {
    match find_entry(d, es, name) {
        Some((v, _)) => bytes_at(d, v),
        None => None,
    }
}

/// The UTF-8 bytes of the text field `name`, if the first entry with that
/// key holds a text string.
#[verifier::opaque]
pub open spec fn text_field(d: Seq<u8>, es: Seq<(int, int, int)>, name: Seq<u8>) -> Option<Seq<u8>> {
    match find_entry(d, es, name) {
        Some((v, _)) => text_at(d, v),
        None => None,
    }
}

/// The boolean field `name`, if the first entry with that key holds one.
#[verifier::opaque]
pub open spec fn bool_field(d: Seq<u8>, es: Seq<(int, int, int)>, name: Seq<u8>) -> Option<bool> {
    match find_entry(d, es, name) {
        Some((v, _)) => bool_at(d, v),
        None => None,
    }
}

/// The byte strings of the array field `name`, if the first entry with
/// that key holds an array.
#[verifier::opaque]
pub open spec fn byte_array_field(d: Seq<u8>, es: Seq<(int, int, int)>, name: Seq<u8>) -> Option<
    Seq<Seq<u8>>,
> {
    match find_entry(d, es, name) {
        Some((v, _)) => byte_array_at(d, v),
        None => None,
    }
}

/// Why bytes could not be decoded as a message.
#[derive(Debug, Clone, PartialEq, Eq)]
pub enum CodecError {
    /// The bytes are not exactly one well-formed CBOR item.
    Malformed,
    /// The item is not shaped as the expected message.
    InvalidStructure(String),
}

/// The message of a decoding failure.
pub open spec fn failure_message(f: DecodeFailure) -> Seq<char> {
    match f {
        DecodeFailure::Malformed => "malformed CBOR"@,
        DecodeFailure::Invalid(m) => "invalid structure: "@ + m,
    }
}

impl CodecError {
    /// The error's message.
    pub fn to_string(&self) -> (r: String)
        ensures
            r@ == failure_message(failure_of(*self)),
    {
        let mut s = String::new();
        match self {
            CodecError::Malformed => crate::text::push_str(&mut s, "malformed CBOR"),
            CodecError::InvalidStructure(m) => {
                crate::text::push_str(&mut s, "invalid structure: ");
                crate::text::push_str(&mut s, m.as_str());
            },
        }
        s
    }

    /// An `InvalidStructure` error with the given message.
    pub fn invalid_structure(message: &str) -> (e: Self)
        ensures
            e matches CodecError::InvalidStructure(m) && m@ == message@,
    {
        CodecError::InvalidStructure(message.to_owned())
    }
}

/// Whether the item at `pos` is the text string `name`.
fn key_is(d: &[u8], pos: usize, name: &[u8]) -> (r: bool)
    ensures
        r == text_is(d@, pos as int, name@),
{
    match read_head(d, pos) {
        Some((major, len, next)) => {
            if major != 3 || next > d.len() || len != name.len() as u64 || len > (d.len() - next) as u64 {
                return false;
            }
            let n = name.len();
            assert(n == len);
            assert(next + n <= d@.len());
            let mut i: usize = 0;
            while i < n
                invariant
                    i <= n,
                    n == name@.len(),
                    n == len,
                    next + n <= d@.len(),
                    d@.len() == d.len(),
                    head_at(d@, pos as int) == Some((major, len, next as int)),
                    major == 3,
                    forall|j: int| 0 <= j < i ==> d@[next + j] == name@[j],
                decreases n - i,
            {
                if d[next + i] != name[i] {
                    assert(d@.subrange(next as int, next + name@.len())[i as int] != name@[i as int]);
                    return false;
                }
                i = i + 1;
            }
            assert(d@.subrange(next as int, next + name@.len()) =~= name@);
            true
        },
        None => false,
    }
}

/// The value span of the first entry whose key is `name`.
pub fn find_field(d: &[u8], es: &[(usize, usize, usize)], name: &[u8]) -> (r: Option<(usize, usize)>)
    ensures
        match r {
            Some((a, b)) => find_entry(d@, entries_view(es@), name@) == Some((a as int, b as int)),
            None => find_entry(d@, entries_view(es@), name@) is None,
        },
{
    let ghost ev = entries_view(es@);
    assert(ev.subrange(0, ev.len() as int) =~= ev);
    let mut i: usize = 0;
    while i < es.len()
        invariant
            i <= es@.len(),
            ev == entries_view(es@),
            find_entry(d@, ev, name@) == find_entry(d@, ev.subrange(i as int, ev.len() as int), name@),
        decreases es@.len() - i,
    {
        let ghost sub = ev.subrange(i as int, ev.len() as int);
        assert(sub[0] == ev[i as int]);
        assert(sub.drop_first() =~= ev.subrange(i + 1, ev.len() as int));
        if key_is(d, es[i].0, name) {
            return Some((es[i].1, es[i].2));
        }
        i = i + 1;
    }
    None
}

/// The integer at `pos`, if it is one in the range of `i64`.
pub fn read_int(d: &[u8], pos: usize) -> (r: Option<i64>)
    ensures
        r == int_at(d@, pos as int),
{
    match read_head(d, pos) {
        Some((major, a, _n)) => {
            if major == 0 && a <= i64::MAX as u64 {
                Some(a as i64)
            } else if major == 1 && a <= i64::MAX as u64 {
                Some(-1 - a as i64)
            } else {
                None
            }
        },
        None => None,
    }
}

/// The bytes of the string of major type `major` at `pos`, if it is one.
fn read_string(d: &[u8], pos: usize, major: u8) -> (r: Option<Vec<u8>>)
    requires
        major == 2 || major == 3,
    ensures
        match r {
            Some(v) => major == 2 && bytes_at(d@, pos as int) == Some(v@) || major == 3 && text_at(
                d@,
                pos as int,
            ) == Some(v@),
            None => major == 2 && bytes_at(d@, pos as int) is None || major == 3 && text_at(
                d@,
                pos as int,
            ) is None,
        },
{
    match read_head(d, pos) {
        Some((m, len, next)) => {
            if m != major || next > d.len() || len > (d.len() - next) as u64 {
                return None;
            }
            Some(crate::bytes::copy_range(d, next, next + len as usize))
        },
        None => None,
    }
}

/// The byte string at `pos`, if it is one.
pub fn read_bytes(d: &[u8], pos: usize) -> (r: Option<Vec<u8>>)
    ensures
        match r {
            Some(v) => bytes_at(d@, pos as int) == Some(v@),
            None => bytes_at(d@, pos as int) is None,
        },
{
    read_string(d, pos, 2)
}

/// The UTF-8 bytes of the text string at `pos`, if it is one.
pub fn read_text(d: &[u8], pos: usize) -> (r: Option<Vec<u8>>)
    ensures
        match r {
            Some(v) => text_at(d@, pos as int) == Some(v@),
            None => text_at(d@, pos as int) is None,
        },
{
    read_string(d, pos, 3)
}

/// The boolean at `pos`, if it is one.
pub fn read_bool(d: &[u8], pos: usize) -> (r: Option<bool>)
    ensures
        r == bool_at(d@, pos as int),
{
    match read_head(d, pos) {
        Some((major, a, _n)) => {
            if major == 7 && a == 20 && d[pos] == 0xF4 {
                Some(false)
            } else if major == 7 && a == 21 && d[pos] == 0xF5 {
                Some(true)
            } else {
                None
            }
        },
        None => None,
    }
}

/// The views of byte vectors.
pub open spec fn byte_views(v: Seq<Vec<u8>>) -> Seq<Seq<u8>> {
    v.map_values(|b: Vec<u8>| b@)
}

/// The byte strings of the array at `pos`, if it is an array; its other
/// items are passed over.
pub fn read_byte_array(d: &[u8], pos: usize) -> (r: Option<Vec<Vec<u8>>>)
    ensures
        match r {
            Some(v) => byte_array_at(d@, pos as int) == Some(byte_views(v@)),
            None => byte_array_at(d@, pos as int) is None,
        },
{
    let (major, k, next) = match read_head(d, pos) {
        Some(h) => h,
        None => return None,
    };
    if major != 4 {
        return None;
    }
    let mut out: Vec<Vec<u8>> = Vec::new();
    let mut p = next;
    let mut i: u64 = 0;
    while i < k
        invariant
            i <= k,
            head_at(d@, pos as int) == Some((4u8, k, next as int)),
            byte_items(d@, next as int, k as nat) == match byte_items(d@, p as int, (k - i) as nat) {
                Some(rest) => Some(byte_views(out@) + rest),
                None => None,
            },
        decreases k - i,
    {
        let e = match skip_item(d, p) {
            Some(e) => e,
            None => return None,
        };
        if !(p < e && e <= d.len()) {
            return None;
        }
        let b = read_bytes(d, p);
        let ghost before = out@;
        match b {
            Some(bv) => {
                out.push(bv);
            },
            None => {},
        }
        proof {
            assert(byte_views(out@) =~= if b is Some {
                byte_views(before).push(b->Some_0@)
            } else {
                byte_views(before)
            });
            if let Some(rest) = byte_items(d@, e as int, (k - i - 1) as nat) {
                if b is Some {
                    assert(byte_views(before) + (seq![b->Some_0@] + rest) =~= byte_views(out@) + rest);
                }
            }
        }
        p = e;
        i = i + 1;
    }
    assert(byte_views(out@) + Seq::<Seq<u8>>::empty() =~= byte_views(out@));
    Some(out)
}

/// The integer field `name`, if the first entry with that key holds one.
pub fn get_int(d: &[u8], es: &[(usize, usize, usize)], name: &str) -> (r: Option<i64>)
    ensures
        r == int_field(d@, entries_view(es@), name.spec_bytes()),
{
    reveal(int_field);
    match find_field(d, es, name.as_bytes()) {
        Some((v, _)) => read_int(d, v),
        None => None,
    }
}

/// The byte-string field `name`, if the first entry with that key holds one.
pub fn get_bytes(d: &[u8], es: &[(usize, usize, usize)], name: &str) -> (r: Option<Vec<u8>>)
    ensures
        match r {
            Some(v) => bytes_field(d@, entries_view(es@), name.spec_bytes()) == Some(v@),
            None => bytes_field(d@, entries_view(es@), name.spec_bytes()) is None,
        },
{
    reveal(bytes_field);
    match find_field(d, es, name.as_bytes()) {
        Some((v, _)) => read_bytes(d, v),
        None => None,
    }
}

/// The UTF-8 bytes of the text field `name`, if the first entry with that
/// key holds a text string.
pub fn get_text(d: &[u8], es: &[(usize, usize, usize)], name: &str) -> (r: Option<Vec<u8>>)
    ensures
        match r {
            Some(v) => text_field(d@, entries_view(es@), name.spec_bytes()) == Some(v@),
            None => text_field(d@, entries_view(es@), name.spec_bytes()) is None,
        },
{
    reveal(text_field);
    match find_field(d, es, name.as_bytes()) {
        Some((v, _)) => read_text(d, v),
        None => None,
    }
}

/// The boolean field `name`, if the first entry with that key holds one.
pub fn get_bool(d: &[u8], es: &[(usize, usize, usize)], name: &str) -> (r: Option<bool>)
    ensures
        r == bool_field(d@, entries_view(es@), name.spec_bytes()),
{
    reveal(bool_field);
    match find_field(d, es, name.as_bytes()) {
        Some((v, _)) => read_bool(d, v),
        None => None,
    }
}

/// The byte strings of the array field `name`, if the first entry with that
/// key holds an array.
pub fn get_byte_array(d: &[u8], es: &[(usize, usize, usize)], name: &str) -> (r: Option<Vec<Vec<u8>>>)
    ensures
        match r {
            Some(v) => byte_array_field(d@, entries_view(es@), name.spec_bytes()) == Some(byte_views(v@)),
            None => byte_array_field(d@, entries_view(es@), name.spec_bytes()) is None,
        },
{
    reveal(byte_array_field);
    match find_field(d, es, name.as_bytes()) {
        Some((v, _)) => read_byte_array(d, v),
        None => None,
    }
}

/// Appends an array of byte strings.
pub fn write_byte_array(out: &mut Vec<u8>, items: &Vec<Vec<u8>>)
    ensures
        final(out)@ == old(out)@ + spec_value(FieldValue::ByteArray(byte_views(items@))),
{
    write_head(out, 4, items.len() as u64);
    let ghost start = out@;
    let mut i: usize = 0;
    while i < items.len()
        invariant
            i <= items@.len(),
            out@ == start + spec_byte_items(byte_views(items@).take(i as int)),
        decreases items@.len() - i,
    {
        proof {
            lemma_byte_items_push(byte_views(items@).take(i as int), items@[i as int]@);
            assert(byte_views(items@).take(i + 1) =~= byte_views(items@).take(i as int).push(
                items@[i as int]@,
            ));
        }
        write_bytes(out, items[i].as_slice());
        i = i + 1;
    }
    assert(byte_views(items@).take(i as int) =~= byte_views(items@));
    assert(byte_views(items@).len() == items@.len());
}

proof fn lemma_byte_items_push(bs: Seq<Seq<u8>>, b: Seq<u8>)
    ensures
        spec_byte_items(bs.push(b)) == spec_byte_items(bs) + spec_bytes(b),
    decreases bs.len(),
{
    if bs.len() == 0 {
        assert(bs.push(b).drop_first() =~= Seq::<Seq<u8>>::empty());
        assert(bs.push(b)[0] == b);
        assert(spec_byte_items(Seq::<Seq<u8>>::empty()) == Seq::<u8>::empty());
        assert(spec_byte_items(bs) == Seq::<u8>::empty());
        assert(spec_byte_items(bs.push(b)) =~= spec_bytes(b));
    } else {
        lemma_byte_items_push(bs.drop_first(), b);
        assert(bs.push(b).drop_first() =~= bs.drop_first().push(b));
        assert(spec_byte_items(bs.push(b)) =~= spec_byte_items(bs) + spec_bytes(b));
    }
}

/// Appending a field appends its key and value to the encoding.
pub proof fn lemma_fields_push(fs: Seq<(Seq<u8>, FieldValue)>, f: (Seq<u8>, FieldValue))
    ensures
        spec_fields(fs.push(f)) == spec_fields(fs) + spec_text(f.0) + spec_value(f.1),
    decreases fs.len(),
{
    reveal(spec_fields);
    if fs.len() == 0 {
        assert(fs.push(f).drop_first() =~= Seq::<(Seq<u8>, FieldValue)>::empty());
        assert(fs.push(f)[0] == f);
        assert(spec_fields(Seq::<(Seq<u8>, FieldValue)>::empty()) == Seq::<u8>::empty());
        assert(spec_fields(fs) == Seq::<u8>::empty());
        assert(spec_fields(fs.push(f)) =~= spec_fields(fs) + spec_text(f.0) + spec_value(f.1));
    } else {
        lemma_fields_push(fs.drop_first(), f);
        assert(fs.push(f).drop_first() =~= fs.drop_first().push(f));
        assert(fs.push(f)[0] == fs[0]);
        assert(spec_fields(fs.push(f)) =~= spec_fields(fs) + spec_text(f.0) + spec_value(f.1));
    }
}

/// A decoding failure, as a value of mathematics.
pub enum DecodeFailure {
    /// The bytes are not exactly one well-formed CBOR item.
    Malformed,
    /// The item is not shaped as expected, for the reason given.
    Invalid(Seq<char>),
}

/// The failure an error reports.
pub open spec fn failure_of(e: CodecError) -> DecodeFailure {
    match e {
        CodecError::Malformed => DecodeFailure::Malformed,
        CodecError::InvalidStructure(m) => DecodeFailure::Invalid(m@),
    }
}

/// The failure for bytes that are no map: malformed unless they are one
/// well-formed item of another kind.
pub open spec fn not_a_map(d: Seq<u8>, message: Seq<char>) -> DecodeFailure {
    if single_item(d) {
        DecodeFailure::Invalid(message)
    } else {
        DecodeFailure::Malformed
    }
}

/// Reads the entries of a message, failing as [`not_a_map`] says.
pub fn message_fields(d: &[u8], message: &str) -> (r: Result<Vec<(usize, usize, usize)>, CodecError>)
    ensures
        match r {
            Ok(es) => message_entries(d@) == Some(entries_view(es@)),
            Err(e) => message_entries(d@) is None && failure_of(e) == not_a_map(d@, message@),
        },
{
    match read_message_entries(d) {
        Ok(es) => Ok(es),
        Err(true) => Err(CodecError::Malformed),
        Err(false) => Err(CodecError::invalid_structure(message)),
    }
}

/// Builds a string from UTF-8 bytes, through `String::from_utf8`.
///
/// Trusted: the standard library documents that the conversion succeeds
/// exactly when the bytes are valid UTF-8, giving the characters they encode.
#[verifier::external_body]
fn string_from_utf8(bytes: Vec<u8>) -> (r: Option<String>)
    ensures
        match r {
            Some(s) => valid_utf8(bytes@) && s@ == decode_utf8(bytes@),
            None => !valid_utf8(bytes@),
        },
{
    String::from_utf8(bytes).ok()
}

/// The characters of the text field `name`, if the first entry with that key
/// holds a text string; `Err` when that text is not valid UTF-8.
pub fn get_string(d: &[u8], es: &[(usize, usize, usize)], name: &str) -> (r: Result<
    Option<String>,
    CodecError,
>)
    ensures
        match r {
            Ok(Some(s)) => text_field(d@, entries_view(es@), name.spec_bytes()) matches Some(b)
                && valid_utf8(b) && s@ == decode_utf8(b),
            Ok(None) => text_field(d@, entries_view(es@), name.spec_bytes()) is None,
            Err(e) => e is Malformed && (text_field(d@, entries_view(es@), name.spec_bytes()) matches Some(
                b,
            ) && !valid_utf8(b)),
        },
{
    match get_text(d, es, name) {
        Some(b) => match string_from_utf8(b) {
            Some(s) => Ok(Some(s)),
            None => Err(CodecError::Malformed),
        },
        None => Ok(None),
    }
}

/// The 16 bytes of `b` as an array.
pub fn array16(b: &[u8]) -> (r: [u8; 16])
    requires
        b@.len() == 16,
    ensures
        r@ == b@,
{
    let mut a = [0u8; 16];
    let mut i: usize = 0;
    while i < 16
        invariant
            i <= 16,
            b@.len() == 16,
            forall|j: int| 0 <= j < i ==> a@[j] == b@[j],
        decreases 16 - i,
    {
        a[i] = b[i];
        i = i + 1;
    }
    assert(a@ =~= b@);
    a
}

/// The 32 bytes of `b` as an array.
pub fn array32(b: &[u8]) -> (r: [u8; 32])
    requires
        b@.len() == 32,
    ensures
        r@ == b@,
{
    let mut a = [0u8; 32];
    let mut i: usize = 0;
    while i < 32
        invariant
            i <= 32,
            b@.len() == 32,
            forall|j: int| 0 <= j < i ==> a@[j] == b@[j],
        decreases 32 - i,
    {
        a[i] = b[i];
        i = i + 1;
    }
    assert(a@ =~= b@);
    a
}

/// Appending one more field to a map's fields.
pub proof fn lemma_fields_step(
    start: Seq<u8>,
    fs: Seq<(Seq<u8>, FieldValue)>,
    f: (Seq<u8>, FieldValue),
    before: Seq<u8>,
    after: Seq<u8>,
)
    requires
        before == start + spec_fields(fs),
        after == before + (spec_text(f.0) + spec_value(f.1)),
    ensures
        after == start + spec_fields(fs.push(f)),
{
    lemma_fields_push(fs, f);
    assert(start + spec_fields(fs) + (spec_text(f.0) + spec_value(f.1)) =~= start + (spec_fields(fs)
        + spec_text(f.0) + spec_value(f.1)));
}

/// Appends a field whose value is an integer.
pub fn write_int_field(out: &mut Vec<u8>, name: &str, v: i64)
    ensures
        final(out)@ == old(out)@ + (spec_text(name.spec_bytes()) + spec_value(FieldValue::Int(v))),
{
    write_text(out, name);
    write_int(out, v);
    assert(final(out)@ =~= old(out)@ + (spec_text(name.spec_bytes()) + spec_value(FieldValue::Int(v))));
}

/// Appends a field whose value is a byte string.
pub fn write_bytes_field(out: &mut Vec<u8>, name: &str, b: &[u8])
    ensures
        final(out)@ == old(out)@ + (spec_text(name.spec_bytes()) + spec_value(FieldValue::Bytes(b@))),
{
    write_text(out, name);
    write_bytes(out, b);
    assert(final(out)@ =~= old(out)@ + (spec_text(name.spec_bytes()) + spec_value(
        FieldValue::Bytes(b@),
    )));
}

/// Appends a field whose value is a text string.
pub fn write_text_field(out: &mut Vec<u8>, name: &str, t: &str)
    ensures
        final(out)@ == old(out)@ + (spec_text(name.spec_bytes()) + spec_value(
            FieldValue::Text(t.spec_bytes()),
        )),
{
    write_text(out, name);
    write_text(out, t);
    assert(final(out)@ =~= old(out)@ + (spec_text(name.spec_bytes()) + spec_value(
        FieldValue::Text(t.spec_bytes()),
    )));
}

/// Appends a field whose value is a boolean.
pub fn write_bool_field(out: &mut Vec<u8>, name: &str, b: bool)
    ensures
        final(out)@ == old(out)@ + (spec_text(name.spec_bytes()) + spec_value(FieldValue::Bool(b))),
{
    write_text(out, name);
    write_bool(out, b);
    assert(final(out)@ =~= old(out)@ + (spec_text(name.spec_bytes()) + spec_value(FieldValue::Bool(b))));
}

/// Appends a field whose value is an array of byte strings.
pub fn write_byte_array_field(out: &mut Vec<u8>, name: &str, items: &Vec<Vec<u8>>)
    ensures
        final(out)@ == old(out)@ + (spec_text(name.spec_bytes()) + spec_value(
            FieldValue::ByteArray(byte_views(items@)),
        )),
{
    write_text(out, name);
    write_byte_array(out, items);
    assert(final(out)@ =~= old(out)@ + (spec_text(name.spec_bytes()) + spec_value(
        FieldValue::ByteArray(byte_views(items@)),
    )));
}

/// The field `name` reads back as `v`.
pub open spec fn field_reads(d: Seq<u8>, es: Seq<(int, int, int)>, name: Seq<u8>, v: FieldValue) -> bool {
    match v {
        FieldValue::Int(i) => int_field(d, es, name) == Some(i),
        FieldValue::Bytes(b) => bytes_field(d, es, name) == Some(b),
        FieldValue::Text(t) => text_field(d, es, name) == Some(t),
        FieldValue::Bool(b) => bool_field(d, es, name) == Some(b),
        FieldValue::ByteArray(bs) => byte_array_field(d, es, name) == Some(bs),
    }
}

/// In an encoded map, the first field with a key reads back as its value.
#[verifier::spinoff_prover]
pub proof fn lemma_field_read(d: Seq<u8>, fs: Seq<(Seq<u8>, FieldValue)>, j: int)
    requires
        fields_ok(fs),
        d == spec_map(fs),
        0 <= j < fs.len(),
        forall|i: int| 0 <= i < j ==> fs[i].0 != fs[j].0,
    ensures
        message_entries(d) matches Some(es) && field_reads(d, es, fs[j].0, fs[j].1),
{
    reveal(int_field);
    reveal(bytes_field);
    reveal(text_field);
    reveal(bool_field);
    reveal(byte_array_field);
    lemma_map_message(d, fs);
    let es = message_entries(d)->Some_0;
    lemma_find_field(d, es, fs, j);
}

/// In an encoded map, a key that no field has is not found.
#[verifier::spinoff_prover]
pub proof fn lemma_field_missing(d: Seq<u8>, fs: Seq<(Seq<u8>, FieldValue)>, name: Seq<u8>)
    requires
        fields_ok(fs),
        d == spec_map(fs),
        forall|i: int| 0 <= i < fs.len() ==> fs[i].0 != name,
    ensures
        message_entries(d) matches Some(es) && find_entry(d, es, name) is None && int_field(d, es, name)
            is None && bytes_field(d, es, name) is None && text_field(d, es, name) is None && bool_field(
            d,
            es,
            name,
        ) is None && byte_array_field(d, es, name) is None,
{
    reveal(int_field);
    reveal(bytes_field);
    reveal(text_field);
    reveal(bool_field);
    reveal(byte_array_field);
    lemma_map_message(d, fs);
    let es = message_entries(d)->Some_0;
    lemma_find_absent(d, es, fs, name);
}

/// No fields encode to no bytes.
pub proof fn lemma_fields_empty()
    ensures
        spec_fields(Seq::<(Seq<u8>, FieldValue)>::empty()) == Seq::<u8>::empty(),
{
    reveal(spec_fields);
}

/// The value of the first field whose key is `name`.
pub open spec fn field_of(fs: Seq<(Seq<u8>, FieldValue)>, name: Seq<u8>) -> Option<FieldValue>
    decreases fs.len(),
{
    if fs.len() == 0 {
        None
    } else if fs[0].0 == name {
        Some(fs[0].1)
    } else {
        field_of(fs.drop_first(), name)
    }
}

/// Looking a key up in two runs of fields, one after the other.
pub proof fn lemma_field_of_concat(a: Seq<(Seq<u8>, FieldValue)>, b: Seq<(Seq<u8>, FieldValue)>, name: Seq<u8>)
    ensures
        field_of(a + b, name) == match field_of(a, name) {
            Some(v) => Some(v),
            None => field_of(b, name),
        },
    decreases a.len(),
{
    if a.len() == 0 {
        assert(a + b =~= b);
    } else {
        assert((a + b)[0] == a[0]);
        assert((a + b).drop_first() =~= a.drop_first() + b);
        lemma_field_of_concat(a.drop_first(), b, name);
    }
}

proof fn lemma_find_by_field_of(d: Seq<u8>, es: Seq<(int, int, int)>, fs: Seq<(Seq<u8>, FieldValue)>, name: Seq<u8>)
    requires
        entries_match(d, es, fs),
    ensures
        field_of(fs, name) matches Some(v) ==> find_entry(d, es, name) matches Some((a, _)) && decodes_as(
            d,
            a,
            v,
        ),
        field_of(fs, name) is None ==> find_entry(d, es, name) is None,
    decreases fs.len(),
{
    if fs.len() > 0 {
        assert(text_is(d, es[0].0, name) <==> name == fs[0].0);
        assert(decodes_as(d, es[0].1, fs[0].1));
        let es2 = es.drop_first();
        let fs2 = fs.drop_first();
        assert forall|i: int| 0 <= i < es2.len() implies (forall|nm: Seq<u8>| #[trigger] text_is(
            d,
            es2[i].0,
            nm,
        ) <==> nm == fs2[i].0) && decodes_as(d, (#[trigger] es2[i]).1, fs2[i].1) by {
            assert(es2[i] == es[i + 1] && fs2[i] == fs[i + 1]);
        }
        lemma_find_by_field_of(d, es2, fs2, name);
    }
}

/// What the field `name` reads as when the first field with that key has
/// value `v`, or when there is none.
pub open spec fn field_lookup(d: Seq<u8>, es: Seq<(int, int, int)>, name: Seq<u8>, v: Option<FieldValue>) -> bool {
    match v {
        Some(x) => field_reads(d, es, name, x),
        None => {
            &&& int_field(d, es, name) is None
            &&& bytes_field(d, es, name) is None
            &&& text_field(d, es, name) is None
            &&& bool_field(d, es, name) is None
            &&& byte_array_field(d, es, name) is None
        },
    }
}

/// In an encoded map, every key reads as the first field with that key.
#[verifier::spinoff_prover]
pub proof fn lemma_map_lookup(d: Seq<u8>, fs: Seq<(Seq<u8>, FieldValue)>, name: Seq<u8>)
    requires
        fields_ok(fs),
        d == spec_map(fs),
    ensures
        message_entries(d) matches Some(es) && field_lookup(d, es, name, field_of(fs, name)),
{
    reveal(int_field);
    reveal(bytes_field);
    reveal(text_field);
    reveal(bool_field);
    reveal(byte_array_field);
    lemma_map_message(d, fs);
    let es = message_entries(d)->Some_0;
    lemma_find_by_field_of(d, es, fs, name);
}

/// The field `name` with value `v` if there is one, else no field.
pub open spec fn opt_field(name: Seq<u8>, v: Option<FieldValue>) -> Seq<(Seq<u8>, FieldValue)> {
    match v {
        Some(x) => seq![(name, x)],
        None => Seq::empty(),
    }
}

/// Looking a key up in at most one field.
pub proof fn lemma_field_of_opt(name: Seq<u8>, v: Option<FieldValue>, key: Seq<u8>)
    ensures
        field_of(opt_field(name, v), key) == if name == key {
            v
        } else {
            None
        },
{
    let fs = opt_field(name, v);
    if v is Some {
        assert(fs.drop_first() =~= Seq::<(Seq<u8>, FieldValue)>::empty());
        assert(field_of(fs.drop_first(), key) == None::<FieldValue>);
    }
}

/// Looking any key up in two runs of fields, one after the other.
pub proof fn lemma_field_of_concat_all(a: Seq<(Seq<u8>, FieldValue)>, b: Seq<(Seq<u8>, FieldValue)>)
    ensures
        forall|name: Seq<u8>|
            #[trigger] field_of(a + b, name) == match field_of(a, name) {
                Some(v) => Some(v),
                None => field_of(b, name),
            },
{
    assert forall|name: Seq<u8>|
        #[trigger] field_of(a + b, name) == match field_of(a, name) {
            Some(v) => Some(v),
            None => field_of(b, name),
        } by {
        lemma_field_of_concat(a, b, name);
    }
}

/// Looking any key up in at most one field.
pub proof fn lemma_field_of_opt_all(name: Seq<u8>, v: Option<FieldValue>)
    ensures
        forall|key: Seq<u8>|
            #[trigger] field_of(opt_field(name, v), key) == if name == key {
                v
            } else {
                None
            },
{
    assert forall|key: Seq<u8>|
        #[trigger] field_of(opt_field(name, v), key) == if name == key {
            v
        } else {
            None
        } by {
        lemma_field_of_opt(name, v, key);
    }
}

/// Appends a field to a map being written when there is one.
pub proof fn lemma_fields_step_opt(
    start: Seq<u8>,
    fs: Seq<(Seq<u8>, FieldValue)>,
    name: Seq<u8>,
    v: Option<FieldValue>,
    before: Seq<u8>,
    after: Seq<u8>,
)
    requires
        before == start + spec_fields(fs),
        v matches Some(x) ==> after == before + (spec_text(name) + spec_value(x)),
        v is None ==> after == before,
    ensures
        after == start + spec_fields(fs + opt_field(name, v)),
{
    match v {
        Some(x) => {
            lemma_fields_step(start, fs, (name, x), before, after);
            assert(fs + opt_field(name, v) =~= fs.push((name, x)));
        },
        None => {
            assert(fs + opt_field(name, v) =~= fs);
        },
    }
}

/// Optional bytes as an optional field value.
pub open spec fn bytes_value(b: Option<Seq<u8>>) -> Option<FieldValue> {
    match b {
        Some(x) => Some(FieldValue::Bytes(x)),
        None => None,
    }
}

/// The bytes of an optional byte-string field when they are `n` long.
pub open spec fn sized(b: Option<Seq<u8>>, n: nat) -> Option<Seq<u8>> {
    match b {
        Some(x) => if x.len() == n {
            Some(x)
        } else {
            None
        },
        None => None,
    }
}

/// The big-endian `u64` in the 8 bytes at `pos`.
pub(crate) fn read_be64(d: &[u8], pos: usize) -> (r: u64)
    requires
        pos + 8 <= d@.len(),
    ensures
        r == be_at(d@, pos as int, 8),
{
    let mut v: u64 = 0;
    let mut i: usize = 0;
    while i < 8
        invariant
            i <= 8,
            pos + 8 <= d@.len(),
            d@.len() == d.len(),
            v == be_at(d@, pos as int, i as nat),
            be_at(d@, pos as int, i as nat) < pow256(i as nat),
        decreases 8 - i,
    {
        proof {
            assert(be_at(d@, pos as int, (i + 1) as nat) == be_at(d@, pos as int, i as nat) * 256
                + d@[pos + i] as nat);
            assert(pow256((i + 1) as nat) == 256 * pow256(i as nat));
            assert(be_at(d@, pos as int, (i + 1) as nat) < pow256((i + 1) as nat)) by (nonlinear_arith)
                requires
                    be_at(d@, pos as int, (i + 1) as nat) == be_at(d@, pos as int, i as nat) * 256
                        + d@[pos + i] as nat,
                    be_at(d@, pos as int, i as nat) < pow256(i as nat),
                    pow256((i + 1) as nat) == 256 * pow256(i as nat),
                    d@[pos + i] < 256,
            ;
            assert(pow256(8) == 0x1_0000_0000_0000_0000) by {
                reveal_with_fuel(pow256, 9);
            }
            lemma_pow256_mono((i + 1) as nat, 8);
        }
        v = v * 256 + d[pos + i] as u64;
        i = i + 1;
    }
    v
}

/// The 8-byte big-endian encoding of `x` reads back as `x`.
pub(crate) proof fn lemma_be64_roundtrip(d: Seq<u8>, pos: int, x: u64)
    requires
        0 <= pos,
        pos + 8 <= d.len(),
        d.subrange(pos, pos + 8) == be_bytes(x as nat, 8),
    ensures
        be_at(d, pos, 8) == x,
{
    lemma_be_roundtrip(d, pos, x as nat, 8);
    assert(pow256(8) == 0x1_0000_0000_0000_0000) by {
        reveal_with_fuel(pow256, 9);
    }
    vstd::arithmetic::div_mod::lemma_small_mod(x as nat, pow256(8));
}

} // verus!
