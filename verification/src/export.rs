//! The header of NumPy `.npy` files, in which embedding matrices are written
//! for other tools.
use vstd::bytes::{spec_u16_to_le_bytes, u16_to_le_bytes};
use vstd::prelude::*;

use crate::chars::chars_of;

verus! {

/// The bytes of a text, each character cut to its low byte (the text's
/// encoding when it is ASCII).
pub open spec fn ascii(s: Seq<char>) -> Seq<u8> {
    Seq::new(s.len(), |i: int| s[i] as u8)
}

/// The decimal digits of a number, as ASCII bytes, without leading zeros.
pub open spec fn decimal(n: nat) -> Seq<u8>
    decreases n,
{
    if n < 10 {
        seq![(48 + n) as u8]
    } else {
        decimal(n / 10).push((48 + n % 10) as u8)
    }
}

/// The magic string and version 1.0 that open a `.npy` file.
pub open spec fn npy_magic() -> Seq<u8> {
    seq![0x93u8, 0x4eu8, 0x55u8, 0x4du8, 0x50u8, 0x59u8, 1u8, 0u8]
}

/// The dictionary that describes a `rows` by `cols` matrix of little-endian
/// 32-bit floats in row-major order.
pub open spec fn npy_dict(rows: nat, cols: nat) -> Seq<u8> {
    ascii("{'descr': '<f4', 'fortran_order': False, 'shape': ("@) + decimal(rows) + ascii(", "@)
        + decimal(cols) + ascii("), }"@)
}

/// The spaces after a dictionary of `len` bytes that bring the header (the
/// ten bytes of magic, version and length, then the dictionary) to a
/// multiple of 64 bytes.
pub open spec fn npy_padding(len: nat) -> nat {
    ((64 - (len + 10) % 64) % 64) as nat
}

/// The header of a `.npy` file for a `rows` by `cols` matrix: magic and
/// version, the length of the rest as a little-endian `u16` (cut to 16
/// bits), the dictionary, and the padding spaces.
pub open spec fn npy_header(rows: nat, cols: nat) -> Seq<u8> {
    let d = npy_dict(rows, cols);
    let pad = npy_padding(d.len());
    npy_magic() + spec_u16_to_le_bytes((d.len() + pad) as u16) + d + Seq::new(pad, |i: int| 32u8)
}

/// Appends the decimal digits of `n`.
fn push_decimal(out: &mut Vec<u8>, n: usize)
    ensures
        final(out)@ == old(out)@ + decimal(n as nat),
    decreases n,
{
    if n >= 10 {
        push_decimal(out, n / 10);
    }
    let d = (48 + n % 10) as u8;
    out.push(d);
    proof {
        if n >= 10 {
            assert(decimal(n as nat) == decimal((n / 10) as nat).push(d));
        } else {
            assert(decimal(n as nat) == seq![d]);
        }
    }
}

/// Appends the low byte of each character of `s`.
fn push_ascii(out: &mut Vec<u8>, s: &str)
    ensures
        final(out)@ == old(out)@ + ascii(s@),
{
    let cs = chars_of(s);
    let ghost start = out@;
    let mut i: usize = 0;
    while i < cs.len()
        invariant
            i <= cs.len(),
            cs@ == s@,
            out@ == start + ascii(s@).take(i as int),
        decreases cs.len() - i,
    {
        out.push(cs[i] as u8);
        assert(ascii(s@).take(i + 1) =~= ascii(s@).take(i as int).push(cs@[i as int] as u8));
        i = i + 1;
    }
    assert(ascii(s@).take(i as int) =~= ascii(s@));
}

/// The header of a `.npy` file holding a `rows` by `cols` matrix of `f32`
/// values; the values follow it, row after row, each as four little-endian
/// bytes.
pub fn numpy_header(rows: usize, cols: usize) -> (r: Vec<u8>)
    ensures
        r@ == npy_header(rows as nat, cols as nat),
{
    let mut dict: Vec<u8> = Vec::new();
    push_ascii(&mut dict, "{'descr': '<f4', 'fortran_order': False, 'shape': (");
    push_decimal(&mut dict, rows);
    push_ascii(&mut dict, ", ");
    push_decimal(&mut dict, cols);
    push_ascii(&mut dict, "), }");
    let ghost d = dict@;
    assert(d =~= npy_dict(rows as nat, cols as nat));
    let dl = dict.len();
    let padding = (64 - (dl % 64 + 10) % 64) % 64;
    assert((dl % 64 + 10) % 64 == (dl + 10) % 64) by (nonlinear_arith);
    let mut out: Vec<u8> = Vec::new();
    out.push(0x93u8);
    out.push(0x4eu8);
    out.push(0x55u8);
    out.push(0x4du8);
    out.push(0x50u8);
    out.push(0x59u8);
    out.push(1u8);
    out.push(0u8);
    assert(out@ =~= npy_magic());
    let total = (dl % 65536 + padding) as u16;
    assert((dl % 65536 + padding) as u16 == (dl + padding) as u16) by (bit_vector)
        requires
            padding < 64,
    ;
    let len_bytes = u16_to_le_bytes(total);
    let mut k: usize = 0;
    while k < len_bytes.len()
        invariant
            k <= len_bytes.len(),
            out@ == npy_magic() + len_bytes@.take(k as int),
        decreases len_bytes.len() - k,
    {
        out.push(len_bytes[k]);
        assert(len_bytes@.take(k + 1) =~= len_bytes@.take(k as int).push(len_bytes@[k as int]));
        k = k + 1;
    }
    assert(len_bytes@.take(k as int) =~= len_bytes@);
    let ghost head = out@;
    let mut j: usize = 0;
    while j < dict.len()
        invariant
            j <= dict.len(),
            dict@ == d,
            out@ == head + d.take(j as int),
        decreases dict.len() - j,
    {
        out.push(dict[j]);
        assert(d.take(j + 1) =~= d.take(j as int).push(d[j as int]));
        j = j + 1;
    }
    assert(d.take(j as int) =~= d);
    let ghost body = out@;
    let mut p: usize = 0;
    while p < padding
        invariant
            p <= padding,
            out@ == body + Seq::new(p as nat, |i: int| 32u8),
        decreases padding - p,
    {
        out.push(32u8);
        assert(Seq::new((p + 1) as nat, |i: int| 32u8) =~= Seq::new(p as nat, |i: int| 32u8).push(
            32u8,
        ));
        p = p + 1;
    }
    assert(out@ =~= npy_header(rows as nat, cols as nat));
    out
}

/// The header of a `.npy` file fills a whole number of 64-byte blocks, so
/// the values after it start aligned.
pub proof fn lemma_numpy_header_aligned(rows: nat, cols: nat)
    ensures
        npy_header(rows, cols).len() % 64 == 0,
{
    let d = npy_dict(rows, cols);
    let pad = npy_padding(d.len());
    vstd::bytes::lemma_auto_spec_u16_to_from_le_bytes();
    assert(npy_header(rows, cols).len() == 10 + d.len() + pad);
    let m = (d.len() + 10) % 64;
    assert(0 <= m < 64);
    assert((d.len() + 10 + (64 - m) % 64) % 64 == 0) by (nonlinear_arith)
        requires
            m == (d.len() + 10) % 64,
            0 <= m < 64,
    {
        if m == 0 {
            assert((64 - m) % 64 == 0);
        } else {
            assert((64 - m) % 64 == 64 - m);
        }
    }
}

} // verus!
