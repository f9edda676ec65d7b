//! The column codec: one field value to and from its fixed-width
//! little-endian binary representation.

use vstd::arithmetic::div_mod::{
    lemma_div_denominator, lemma_fundamental_div_mod, lemma_mod_add_multiples_vanish,
    lemma_small_mod,
};
use vstd::arithmetic::mul::lemma_mul_inequality;
use vstd::prelude::*;

use crate::errors::DbError;

verus! {

/// The closed set of declarable field types.
#[derive(Clone, Copy, PartialEq, Eq, Structural, Debug)]
pub enum FieldType {
    U8,
    U16,
    U32,
    U64,
    I8,
    I16,
    I32,
    I64,
    F32,
    F64,
}

/// One decoded column entry. Float entries carry their IEEE-754 bit
/// patterns; turning bits into native floats is the caller's business.
#[derive(Clone, Copy, PartialEq, Eq, Structural, Debug)]
pub enum CellValue {
    Uint(u64),
    Int(i64),
    F32Bits(u32),
    F64Bits(u64),
}

/// One incoming record value, as the views a JSON number offers: an
/// unsigned reading, a signed reading, and float readings given by their
/// bit patterns. A view is `None` where the number does not offer it
/// (a negative number has no unsigned reading, a fractional one no
/// integer reading).
#[derive(Clone, Copy, PartialEq, Eq, Structural, Debug)]
pub struct RecordValue {
    pub uint: Option<u64>,
    pub int: Option<i64>,
    pub f32_bits: Option<u32>,
    pub f64_bits: Option<u64>,
}

impl RecordValue {
    /// The record value of a non-negative integer, offering its unsigned
    /// and signed readings. Float readings are left out: bit patterns are
    /// the caller's to supply.
    pub fn of_uint(u: u64) -> (r: RecordValue)
        ensures
            r.uint == Some(u),
            u <= i64::MAX ==> r.int == Some(u as i64),
            u > i64::MAX ==> r.int is None,
            r.f32_bits is None,
            r.f64_bits is None,
    {
        let signed: Option<i64> = if u <= 0x7fff_ffff_ffff_ffff {
            Some(u as i64)
        } else {
            None
        };
        RecordValue { uint: Some(u), int: signed, f32_bits: None, f64_bits: None }
    }

    /// The record value of a signed integer; a negative one offers no
    /// unsigned reading.
    pub fn of_int(i: i64) -> (r: RecordValue)
        ensures
            r.int == Some(i),
            i >= 0 ==> r.uint == Some(i as u64),
            i < 0 ==> r.uint is None,
            r.f32_bits is None,
            r.f64_bits is None,
    {
        let uint: Option<u64> = if i >= 0 {
            Some(i as u64)
        } else {
            None
        };
        RecordValue { uint, int: Some(i), f32_bits: None, f64_bits: None }
    }
}

/// The fixed width, in bytes, of a field type's encoding.
pub open spec fn spec_width(t: FieldType) -> nat {
    match t {
        FieldType::U8 => 1,
        FieldType::U16 => 2,
        FieldType::U32 => 4,
        FieldType::U64 => 8,
        FieldType::I8 => 1,
        FieldType::I16 => 2,
        FieldType::I32 => 4,
        FieldType::I64 => 8,
        FieldType::F32 => 4,
        FieldType::F64 => 8,
    }
}

/// The fixed width, in bytes, of a field type's encoding.
pub fn width(t: FieldType) -> (w: usize)
    ensures
        w == spec_width(t),
        1 <= w <= 8,
{
    match t {
        FieldType::U8 => 1,
        FieldType::U16 => 2,
        FieldType::U32 => 4,
        FieldType::U64 => 8,
        FieldType::I8 => 1,
        FieldType::I16 => 2,
        FieldType::I32 => 4,
        FieldType::I64 => 8,
        FieldType::F32 => 4,
        FieldType::F64 => 8,
    }
}

/// 256 to the power `n`: the number of distinct values of an `n`-byte
/// buffer.
pub open spec fn pow256(n: nat) -> nat
    decreases n,
{
    if n == 0 {
        1
    } else {
        256 * pow256((n - 1) as nat)
    }
}

pub proof fn lemma_pow256_pos(n: nat)
    ensures
        pow256(n) >= 1,
    decreases n,
{
    if n > 0 {
        lemma_pow256_pos((n - 1) as nat);
    }
}

/// The byte widths in use keep `pow256` within `u64` range.
pub proof fn lemma_pow256_values()
    ensures
        pow256(0) == 1,
        pow256(1) == 0x100,
        pow256(2) == 0x1_0000,
        pow256(3) == 0x100_0000,
        pow256(4) == 0x1_0000_0000,
        pow256(5) == 0x100_0000_0000,
        pow256(6) == 0x1_0000_0000_0000,
        pow256(7) == 0x100_0000_0000_0000,
        pow256(8) == 0x1_0000_0000_0000_0000,
{
    assert(pow256(0) == 1);
    assert(pow256(1) == 0x100);
    assert(pow256(2) == 0x1_0000);
    assert(pow256(3) == 0x100_0000);
    assert(pow256(4) == 0x1_0000_0000);
    assert(pow256(5) == 0x100_0000_0000);
    assert(pow256(6) == 0x1_0000_0000_0000);
    assert(pow256(7) == 0x100_0000_0000_0000);
    assert(pow256(8) == 0x1_0000_0000_0000_0000);
}

/// The little-endian bytes of `x`, truncated to width `w`.
pub open spec fn le_bytes(x: nat, w: nat) -> Seq<u8>
    decreases w,
{
    if w == 0 {
        Seq::empty()
    } else {
        seq![(x % 256) as u8] + le_bytes(x / 256, (w - 1) as nat)
    }
}

/// The value a little-endian byte buffer denotes.
pub open spec fn le_val(b: Seq<u8>) -> nat
    decreases b.len(),
{
    if b.len() == 0 {
        0
    } else {
        (b[0] + 256 * le_val(b.drop_first())) as nat
    }
}

pub proof fn lemma_le_bytes_len(x: nat, w: nat)
    ensures
        le_bytes(x, w).len() == w,
    decreases w,
{
    if w > 0 {
        lemma_le_bytes_len(x / 256, (w - 1) as nat);
    }
}

/// Decoding inverts encoding, up to truncation at width `w`.
pub proof fn lemma_le_val_le_bytes(x: nat, w: nat)
    ensures
        le_val(le_bytes(x, w)) == x % pow256(w),
    decreases w,
{
    if w == 0 {
        assert(x % pow256(0) == 0) by {
            lemma_small_mod(0, 1);
            assert(x % 1 == 0) by {
                lemma_fundamental_div_mod(x as int, 1);
            }
        }
    } else {
        let b = le_bytes(x, w);
        let rest = le_bytes(x / 256, (w - 1) as nat);
        assert(b.drop_first() =~= rest);
        lemma_le_val_le_bytes(x / 256, (w - 1) as nat);
        assert(le_val(b) == x % 256 + 256 * ((x / 256) % pow256((w - 1) as nat)));
        lemma_pow256_pos((w - 1) as nat);
        vstd::arithmetic::div_mod::lemma_breakdown(x as int, 256, pow256((w - 1) as nat) as int);
        assert(x % (256 * pow256((w - 1) as nat)) == x % 256 + 256 * ((x / 256) % pow256(
            (w - 1) as nat,
        )));
    }
}

/// A buffer of `w` bytes denotes a value below `pow256(w)`.
pub proof fn lemma_le_val_bound(b: Seq<u8>)
    ensures
        le_val(b) < pow256(b.len()),
    decreases b.len(),
{
    if b.len() == 0 {
    } else {
        lemma_le_val_bound(b.drop_first());
        let rest = le_val(b.drop_first());
        let p = pow256((b.len() - 1) as nat);
        assert(rest + 1 <= p);
        lemma_mul_inequality((rest + 1) as int, p as int, 256);
        assert(256 * (rest + 1) <= 256 * p);
        assert(le_val(b) == b[0] + 256 * rest);
        assert(b[0] < 256);
    }
}

/// Extending the width appends the next byte of `x`.
pub proof fn lemma_le_bytes_snoc(x: nat, w: nat)
    ensures
        le_bytes(x, w + 1) == le_bytes(x, w).push(((x / pow256(w)) % 256) as u8),
    decreases w,
{
    if w == 0 {
        assert(x / pow256(0) == x) by {
            lemma_fundamental_div_mod(x as int, 1);
        }
        assert(le_bytes(x / 256, 0) =~= Seq::<u8>::empty());
        assert(le_bytes(x, 1) =~= le_bytes(x, 0).push(((x / pow256(0)) % 256) as u8));
    } else {
        lemma_le_bytes_snoc(x / 256, (w - 1) as nat);
        lemma_pow256_pos((w - 1) as nat);
        lemma_div_denominator(x as int, 256, pow256((w - 1) as nat) as int);
        assert((x / 256) / pow256((w - 1) as nat) == x / (256 * pow256((w - 1) as nat)));
        assert(le_bytes(x, w + 1) =~= le_bytes(x, w).push(((x / pow256(w)) % 256) as u8));
    }
}

/// Appends the `w`-byte little-endian encoding of `x` to `out`.
fn le_write(out: &mut Vec<u8>, x: u64, w: usize)
    requires
        w <= 8,
    ensures
        final(out)@ == old(out)@ + le_bytes(x as nat, w as nat),
{
    let mut i: usize = 0;
    let mut rem: u64 = x;
    proof {
        assert(out@ =~= old(out)@ + le_bytes(x as nat, 0));
        assert(rem as nat == (x as nat) / pow256(0)) by {
            lemma_fundamental_div_mod(x as int, 1);
        }
    }
    while i < w
        invariant
            i <= w,
            out@ == old(out)@ + le_bytes(x as nat, i as nat),
            rem as nat == (x as nat) / pow256(i as nat),
        decreases w - i,
    {
        out.push((rem % 256) as u8);
        proof {
            lemma_le_bytes_snoc(x as nat, i as nat);
            assert(out@ =~= old(out)@ + le_bytes(x as nat, (i + 1) as nat));
            lemma_pow256_pos(i as nat);
            lemma_div_denominator(x as int, pow256(i as nat) as int, 256);
            assert((x as nat) / pow256(i as nat) / 256 == (x as nat) / (pow256(i as nat) * 256));
            assert(pow256((i + 1) as nat) == 256 * pow256(i as nat));
        }
        rem = rem / 256;
        i = i + 1;
    }
}

/// Reads the `w`-byte little-endian value at `off`.
fn le_read(data: &Vec<u8>, off: usize, w: usize) -> (r: u64)
    requires
        w <= 8,
        off + w <= data@.len(),
    ensures
        r as nat == le_val(data@.subrange(off as int, off + w)),
{
    let n = data.len();
    let mut i: usize = w;
    let mut r: u64 = 0;
    proof {
        assert(data@.subrange(off + w, off + w) =~= Seq::<u8>::empty());
        lemma_pow256_values();
    }
    while i > 0
        invariant
            i <= w,
            w <= 8,
            n == data@.len(),
            off + w <= n,
            r as nat == le_val(data@.subrange(off + i, off + w)),
            r < pow256((w - i) as nat),
        decreases i,
    {
        i = i - 1;
        let b = data[off + i];
        proof {
            let s = data@.subrange(off + i, off + w);
            assert(s.drop_first() =~= data@.subrange(off + i + 1, off + w));
            assert(s[0] == data@[off + i]);
            assert(le_val(s) == b + 256 * le_val(data@.subrange(off + i + 1, off + w)));
            lemma_pow256_values();
            assert(pow256((w - i) as nat) == 256 * pow256((w - i - 1) as nat));
            assert(r + 1 <= pow256((w - i - 1) as nat));
            lemma_mul_inequality((r + 1) as int, pow256((w - i - 1) as nat) as int, 256);
            assert(pow256((w - i) as nat) <= pow256(8)) by {
                lemma_pow256_mono((w - i) as nat, 8);
            }
        }
        r = r * 256 + (b as u64);
    }
    r
}

pub proof fn lemma_pow256_mono(a: nat, b: nat)
    requires
        a <= b,
    ensures
        pow256(a) <= pow256(b),
    decreases b,
{
    if a < b {
        lemma_pow256_mono(a, (b - 1) as nat);
        lemma_pow256_pos((b - 1) as nat);
    }
}

pub proof fn lemma_pow256_add(a: nat, b: nat)
    ensures
        pow256(a + b) == pow256(a) * pow256(b),
    decreases a,
{
    if a == 0 {
    } else {
        lemma_pow256_add((a - 1) as nat, b);
        assert((a - 1) + b == (a + b - 1) as nat);
        assert(pow256(a + b) == 256 * (pow256((a - 1) as nat) * pow256(b)));
        vstd::arithmetic::mul::lemma_mul_is_associative(
            256,
            pow256((a - 1) as nat) as int,
            pow256(b) as int,
        );
    }
}

/// Whether the record value offers the reading that the declared type
/// encodes.
pub open spec fn spec_encodable(t: FieldType, v: RecordValue) -> bool {
    match t {
        FieldType::U8 | FieldType::U16 | FieldType::U32 | FieldType::U64 => v.uint is Some,
        FieldType::I8 | FieldType::I16 | FieldType::I32 | FieldType::I64 => v.int is Some,
        FieldType::F32 => v.f32_bits is Some,
        FieldType::F64 => v.f64_bits is Some,
    }
}

/// The raw 64-bit integer whose low bytes are written: the unsigned
/// reading, the signed reading in two's complement, or the float bits.
pub open spec fn spec_raw(t: FieldType, v: RecordValue) -> nat {
    match t {
        FieldType::U8 | FieldType::U16 | FieldType::U32 | FieldType::U64 => v.uint->0 as nat,
        FieldType::I8 | FieldType::I16 | FieldType::I32 | FieldType::I64 => if v.int->0 >= 0 {
            v.int->0 as nat
        } else {
            (v.int->0 + 0x1_0000_0000_0000_0000) as nat
        },
        FieldType::F32 => v.f32_bits->0 as nat,
        FieldType::F64 => v.f64_bits->0 as nat,
    }
}

/// The encoded bytes of one value: the low `w` little-endian bytes of its
/// raw integer, where `w` is the declared type's width.
pub open spec fn spec_encode(t: FieldType, v: RecordValue) -> Seq<u8> {
    le_bytes(spec_raw(t, v), spec_width(t))
}

/// The two's complement reading of a raw value at width `w`.
pub open spec fn sign_val(raw: nat, w: nat) -> int {
    if 2 * raw < pow256(w) {
        raw as int
    } else {
        raw - pow256(w)
    }
}

/// The cell a raw integer denotes at a type.
pub open spec fn spec_decode_raw(t: FieldType, raw: nat) -> CellValue {
    match t {
        FieldType::U8 | FieldType::U16 | FieldType::U32 | FieldType::U64 => CellValue::Uint(
            raw as u64,
        ),
        FieldType::I8 | FieldType::I16 | FieldType::I32 | FieldType::I64 => CellValue::Int(
            sign_val(raw, spec_width(t)) as i64,
        ),
        FieldType::F32 => CellValue::F32Bits(raw as u32),
        FieldType::F64 => CellValue::F64Bits(raw as u64),
    }
}

/// The cell stored at byte offset `off` of a column buffer.
pub open spec fn spec_decode_at(t: FieldType, data: Seq<u8>, off: int) -> CellValue {
    spec_decode_raw(t, le_val(data.subrange(off, off + spec_width(t))))
}

/// The number of whole values a column buffer holds at a type.
pub open spec fn spec_col_count(t: FieldType, data: Seq<u8>) -> nat {
    data.len() / spec_width(t)
}

/// The value of row `r` in a column buffer.
pub open spec fn spec_col_cell(t: FieldType, data: Seq<u8>, r: int) -> CellValue {
    spec_decode_at(t, data, r * spec_width(t))
}

/// Encodes one value at the declared type, appending its fixed-width
/// little-endian bytes to `out`. Integer values narrower than the buffer's
/// declared width truncate to that width. Fails with `TypeMismatch`, and
/// leaves `out` unchanged, where the value offers no reading at the type.
pub fn encode(t: FieldType, v: &RecordValue, out: &mut Vec<u8>) -> (r: Result<(), DbError>)
    ensures
        match r {
            Ok(()) => spec_encodable(t, *v) && final(out)@ == old(out)@ + spec_encode(t, *v),
            Err(e) => {
                &&& !spec_encodable(t, *v)
                &&& e == DbError::TypeMismatch
                &&& final(out)@ == old(out)@
            },
        },
{
    let w = width(t);
    let raw: u64 = match t {
        FieldType::U8 | FieldType::U16 | FieldType::U32 | FieldType::U64 => match v.uint {
            Some(u) => u,
            None => {
                return Err(DbError::TypeMismatch);
            },
        },
        FieldType::I8 | FieldType::I16 | FieldType::I32 | FieldType::I64 => match v.int {
            Some(i) => {
                if i >= 0 {
                    i as u64
                } else {
                    (i - i64::MIN) as u64 + 0x8000_0000_0000_0000
                }
            },
            None => {
                return Err(DbError::TypeMismatch);
            },
        },
        FieldType::F32 => match v.f32_bits {
            Some(b) => b as u64,
            None => {
                return Err(DbError::TypeMismatch);
            },
        },
        FieldType::F64 => match v.f64_bits {
            Some(b) => b,
            None => {
                return Err(DbError::TypeMismatch);
            },
        },
    };
    proof {
        assert(raw as nat == spec_raw(t, *v));
    }
    le_write(out, raw, w);
    Ok(())
}

/// Decodes the value at byte offset `off` of a column buffer, reading
/// exactly the declared type's width. Returns `None` where fewer bytes
/// than that width remain: the end-of-column signal. Whether such an end
/// is a clean end or a truncation is the caller's to judge, from how many
/// bytes remain.
pub fn decode(t: FieldType, data: &Vec<u8>, off: usize) -> (r: Option<CellValue>)
    ensures
        match r {
            Some(c) => {
                &&& off + spec_width(t) <= data@.len()
                &&& c == spec_decode_at(t, data@, off as int)
            },
            None => off + spec_width(t) > data@.len(),
        },
{
    let w = width(t);
    if data.len() < w || off > data.len() - w {
        return None;
    }
    Some(decode_cell(t, data, off))
}

/// Decodes the value at `off`, which must lie fully inside the buffer.
pub fn decode_cell(t: FieldType, data: &Vec<u8>, off: usize) -> (c: CellValue)
    requires
        off + spec_width(t) <= data@.len(),
    ensures
        c == spec_decode_at(t, data@, off as int),
{
    let w = width(t);
    let raw = le_read(data, off, w);
    proof {
        lemma_le_val_bound(data@.subrange(off as int, off + w));
        lemma_pow256_values();
    }
    match t {
        FieldType::U8 | FieldType::U16 | FieldType::U32 | FieldType::U64 => CellValue::Uint(raw),
        FieldType::I8 => {
            if raw < 0x80 {
                CellValue::Int(raw as i64)
            } else {
                CellValue::Int(raw as i64 - 0x100)
            }
        },
        FieldType::I16 => {
            if raw < 0x8000 {
                CellValue::Int(raw as i64)
            } else {
                CellValue::Int(raw as i64 - 0x1_0000)
            }
        },
        FieldType::I32 => {
            if raw < 0x8000_0000 {
                CellValue::Int(raw as i64)
            } else {
                CellValue::Int(raw as i64 - 0x1_0000_0000)
            }
        },
        FieldType::I64 => {
            if raw < 0x8000_0000_0000_0000 {
                CellValue::Int(raw as i64)
            } else {
                CellValue::Int((raw - 0x8000_0000_0000_0000) as i64 + i64::MIN)
            }
        },
        FieldType::F32 => CellValue::F32Bits(raw as u32),
        FieldType::F64 => CellValue::F64Bits(raw),
    }
}

/// The values each type represents losslessly: its whole domain for
/// `u64`, `i64` and the float bit patterns, and the type's range for the
/// narrower integers.
pub open spec fn spec_in_range(t: FieldType, v: RecordValue) -> bool {
    &&& spec_encodable(t, v)
    &&& match t {
        FieldType::U8 => v.uint->0 < 0x100,
        FieldType::U16 => v.uint->0 < 0x1_0000,
        FieldType::U32 => v.uint->0 < 0x1_0000_0000,
        FieldType::U64 => true,
        FieldType::I8 => -0x80 <= v.int->0 < 0x80,
        FieldType::I16 => -0x8000 <= v.int->0 < 0x8000,
        FieldType::I32 => -0x8000_0000 <= v.int->0 < 0x8000_0000,
        FieldType::I64 => true,
        FieldType::F32 => true,
        FieldType::F64 => true,
    }
}

/// The cell a record value denotes at a type.
pub open spec fn spec_cell_of(t: FieldType, v: RecordValue) -> CellValue {
    match t {
        FieldType::U8 | FieldType::U16 | FieldType::U32 | FieldType::U64 => CellValue::Uint(
            v.uint->0,
        ),
        FieldType::I8 | FieldType::I16 | FieldType::I32 | FieldType::I64 => CellValue::Int(
            v.int->0,
        ),
        FieldType::F32 => CellValue::F32Bits(v.f32_bits->0),
        FieldType::F64 => CellValue::F64Bits(v.f64_bits->0),
    }
}

/// Decoding inverts encoding: for every type and every value the type
/// represents, the encoded bytes decode to that value.
pub proof fn lemma_codec_round_trip(t: FieldType, v: RecordValue)
    requires
        spec_in_range(t, v),
    ensures
        spec_encode(t, v).len() == spec_width(t),
        spec_decode_at(t, spec_encode(t, v), 0) == spec_cell_of(t, v),
{
    let w = spec_width(t);
    let raw = spec_raw(t, v);
    let b = spec_encode(t, v);
    lemma_le_bytes_len(raw, w);
    assert(b.subrange(0, w as int) =~= b);
    lemma_le_val_le_bytes(raw, w);
    lemma_pow256_values();
    let m = pow256(w);
    match t {
        FieldType::U8 | FieldType::U16 | FieldType::U32 | FieldType::U64 | FieldType::F32
        | FieldType::F64 => {
            assert(raw < m);
            lemma_small_mod(raw, m);
        },
        FieldType::I8 | FieldType::I16 | FieldType::I32 | FieldType::I64 => {
            let i = v.int->0 as int;
            if i >= 0 {
                assert(raw == i);
                assert(2 * raw < m);
                lemma_small_mod(raw, m);
                assert(sign_val(raw % m, w) == i);
            } else {
                assert(raw == i + 0x1_0000_0000_0000_0000);
                lemma_pow256_add(w, (8 - w) as nat);
                assert(pow256(8) == m * pow256((8 - w) as nat));
                let k = pow256((8 - w) as nat) as int;
                lemma_pow256_pos((8 - w) as nat);
                assert(raw == i + m * k);
                lemma_mod_multiples_vanish_int(i, k, m as int);
                assert(raw as int % (m as int) == i % (m as int));
                lemma_mod_add_multiples_vanish(i, m as int);
                assert(0 <= i + m < m);
                lemma_small_mod((i + m) as nat, m);
                assert(i % (m as int) == i + m);
                assert(raw % m == i + m);
                assert(2 * (i + m) >= m);
                assert(sign_val((i + m) as nat, w) == i);
            }
        },
    }
}

proof fn lemma_mod_multiples_vanish_int(b: int, a: int, m: int)
    requires
        m > 0,
    ensures
        (b + m * a) % m == b % m,
{
    vstd::arithmetic::div_mod::lemma_mod_multiples_vanish(a, b, m);
}

} // verus!
