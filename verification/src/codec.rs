//! The schema-driven tuple codec: fixed-width column values, no NULLs, no
//! variable length.
//!
//! An `INT` column is 4 bytes, signed little-endian; a value that does not
//! parse as an `i32` encodes as 0 rather than failing the row. A `TEXT`
//! column is a fixed 10 bytes: longer values truncate, shorter values are
//! right-padded with ASCII spaces, and decoding trims the trailing padding.
//! A column of any other type is skipped during encoding (yielding a tuple
//! shorter than the schema implies) and rendered as an explicit
//! "unsupported" marker during decoding.

use vstd::prelude::*;
use vstd::bytes::{spec_u32_from_le_bytes, spec_u32_to_le_bytes, u32_from_le_bytes, u32_to_le_bytes};
use vstd::slice::{slice_subrange, slice_to_vec};
use crate::catalog::Column;

verus! {

/// Width of an encoded `INT` column.
pub const INT_WIDTH: usize = 4;

/// Width of an encoded `TEXT` column.
pub const TEXT_WIDTH: usize = 10;

/// ASCII code points the codec cares about.
pub const BYTE_SPACE: u8 = 32;

pub const BYTE_PLUS: u8 = 43;

pub const BYTE_MINUS: u8 = 45;

pub const BYTE_ZERO: u8 = 48;

pub const BYTE_NINE: u8 = 57;

/// Whether a column's type label names the 4-byte integer type.
pub open spec fn is_int_type(dt: Seq<char>) -> bool {
    dt == "INT"@
}

/// Whether a column's type label names the 10-byte text type.
pub open spec fn is_text_type(dt: Seq<char>) -> bool {
    dt == "TEXT"@
}

/// Whether `s` equals the type label `label`.
fn label_eq(s: &String, label: &str) -> (r: bool)
    ensures
        r == (s@ == label@),
{
    *s == label.to_owned()
}

pub open spec fn is_ascii_digit(b: u8) -> bool {
    BYTE_ZERO <= b <= BYTE_NINE
}

pub open spec fn all_ascii_digits(s: Seq<u8>) -> bool {
    forall|i: int| 0 <= i < s.len() ==> is_ascii_digit(#[trigger] s[i])
}

/// The non-negative integer denoted by a string of decimal digits.
pub open spec fn digits_val(s: Seq<u8>) -> int
    decreases s.len(),
{
    if s.len() == 0 {
        0
    } else {
        10 * digits_val(s.drop_last()) + (s.last() - BYTE_ZERO)
    }
}

pub proof fn lemma_digits_val_nonneg(s: Seq<u8>)
    requires
        all_ascii_digits(s),
    ensures
        digits_val(s) >= 0,
    decreases s.len(),
{
    if s.len() > 0 {
        assert(all_ascii_digits(s.drop_last()));
        lemma_digits_val_nonneg(s.drop_last());
    }
}

/// The value of an all-digit magnitude with a sign applied, clamped to 0
/// when it leaves the `i32` range — the behavior of `str::parse::<i32>`
/// with parse failures degraded to zero.
pub open spec fn spec_parse_digits(neg: bool, ds: Seq<u8>) -> i32 {
    if ds.len() > 0 && all_ascii_digits(ds) {
        if neg && digits_val(ds) <= 0x8000_0000 {
            (0 - digits_val(ds)) as i32
        } else if !neg && digits_val(ds) <= 0x7fff_ffff {
            digits_val(ds) as i32
        } else {
            0
        }
    } else {
        0
    }
}

/// The `i32` an `INT` field encodes to: an optional sign followed by
/// decimal digits, in range; anything else degrades to 0.
pub open spec fn spec_parse_i32(s: Seq<u8>) -> i32 {
    if s.len() > 0 && (s[0] == BYTE_PLUS || s[0] == BYTE_MINUS) {
        spec_parse_digits(s[0] == BYTE_MINUS, s.drop_first())
    } else {
        spec_parse_digits(false, s)
    }
}

/// Parses a decimal `i32` from bytes; unparsable or out-of-range input
/// yields 0, matching `spec_parse_i32`.
pub fn parse_i32(s: &Vec<u8>) -> (r: i32)
    ensures
        r == spec_parse_i32(s@),
{
    let n = s.len();
    let neg: bool;
    let start: usize;
    if n > 0 && (s[0] == BYTE_PLUS || s[0] == BYTE_MINUS) {
        neg = s[0] == BYTE_MINUS;
        start = 1;
    } else {
        neg = false;
        start = 0;
    }
    let ghost ds = s@.skip(start as int);
    proof {
        if start == 1 {
            assert(s@.skip(1) =~= s@.drop_first());
        } else {
            assert(s@.skip(0) =~= s@);
        }
        assert(spec_parse_i32(s@) == spec_parse_digits(neg, ds));
    }
    if start >= n {
        return 0;
    }
    // Accumulate the magnitude; once it exceeds `CAP` the exact value no
    // longer matters, only that it is out of range for an `i32`.
    let cap: u64 = 0x1_0000_0000;
    let mut mag: u64 = 0;
    let mut i: usize = start;
    proof {
        assert(ds.take(0) =~= Seq::<u8>::empty());
    }
    while i < n
        invariant
            start <= i <= n,
            n == s.len(),
            ds == s@.skip(start as int),
            ds.len() == n - start,
            forall|j: int| 0 <= j < ds.len() ==> ds[j] == s@[start + j],
            ds.len() > 0,
            spec_parse_i32(s@) == spec_parse_digits(neg, ds),
            all_ascii_digits(ds.take(i - start)),
            digits_val(ds.take(i - start)) <= cap ==> mag == digits_val(ds.take(i - start)),
            digits_val(ds.take(i - start)) > cap ==> mag > cap,
            cap == 0x1_0000_0000,
        decreases n - i,
    {
        let b = s[i];
        if b < BYTE_ZERO || b > BYTE_NINE {
            proof {
                assert(ds[i - start] == b);
                assert(!all_ascii_digits(ds));
            }
            return 0;
        }
        proof {
            let k = i - start;
            assert(ds.take(k + 1).drop_last() =~= ds.take(k));
            assert(ds.take(k + 1).last() == ds[k]);
            assert(digits_val(ds.take(k + 1)) == 10 * digits_val(ds.take(k)) + (b - BYTE_ZERO));
            lemma_digits_val_nonneg(ds.take(k));
        }
        if mag <= cap {
            mag = mag * 10 + (b - BYTE_ZERO) as u64;
        }
        i += 1;
    }
    proof {
        assert(ds.take(n - start) =~= ds);
        lemma_digits_val_nonneg(ds);
    }
    if neg {
        if mag <= 0x8000_0000 {
            proof {
                assert(digits_val(ds) == mag);
            }
            let r = (-(mag as i64)) as i32;
            proof {
                assert(r == (0 - digits_val(ds)) as i32);
            }
            r
        } else {
            proof {
                assert(digits_val(ds) > 0x8000_0000);
            }
            0
        }
    } else {
        if mag <= 0x7fff_ffff {
            proof {
                assert(digits_val(ds) == mag);
            }
            mag as i32
        } else {
            proof {
                assert(digits_val(ds) > 0x7fff_ffff);
            }
            0
        }
    }
}

/// A `TEXT` field fitted to its fixed width: truncated to 10 bytes, or
/// right-padded with ASCII spaces up to 10 bytes.
pub open spec fn spec_text_pad(s: Seq<u8>) -> Seq<u8> {
    if s.len() >= TEXT_WIDTH {
        s.subrange(0, TEXT_WIDTH as int)
    } else {
        s + Seq::new((TEXT_WIDTH - s.len()) as nat, |i: int| BYTE_SPACE)
    }
}

/// Fits a text value to the fixed `TEXT` width.
pub fn text_pad(s: &Vec<u8>) -> (r: Vec<u8>)
    ensures
        r@ == spec_text_pad(s@),
{
    let mut out: Vec<u8> = Vec::new();
    let take = if s.len() >= TEXT_WIDTH {
        TEXT_WIDTH
    } else {
        s.len()
    };
    let mut i: usize = 0;
    while i < take
        invariant
            i <= take,
            take <= s.len(),
            out@ == s@.subrange(0, i as int),
        decreases take - i,
    {
        out.push(s[i]);
        proof {
            assert(out@ =~= s@.subrange(0, i + 1));
        }
        i += 1;
    }
    while out.len() < TEXT_WIDTH
        invariant
            take <= out.len() <= TEXT_WIDTH,
            out@.subrange(0, take as int) == s@.subrange(0, take as int),
            take == (if s@.len() >= TEXT_WIDTH {
                TEXT_WIDTH as int
            } else {
                s@.len() as int
            }),
            forall|j: int| take <= j < out.len() ==> out@[j] == BYTE_SPACE,
        decreases TEXT_WIDTH - out.len(),
    {
        out.push(BYTE_SPACE);
    }
    proof {
        assert forall|j: int| 0 <= j < TEXT_WIDTH implies out@[j] == spec_text_pad(s@)[j] by {
            if j < take {
                assert(out@.subrange(0, take as int)[j] == s@.subrange(0, take as int)[j]);
            }
        }
        assert(out@ =~= spec_text_pad(s@));
    }
    out
}

/// The trailing-space padding of a decoded `TEXT` value removed.
pub open spec fn spec_trim_trailing_spaces(s: Seq<u8>) -> Seq<u8>
    decreases s.len(),
{
    if s.len() > 0 && s.last() == BYTE_SPACE {
        spec_trim_trailing_spaces(s.drop_last())
    } else {
        s
    }
}

/// Removes trailing ASCII spaces.
fn trim_trailing_spaces(v: Vec<u8>) -> (r: Vec<u8>)
    ensures
        r@ == spec_trim_trailing_spaces(v@),
{
    let mut v = v;
    let mut end = v.len();
    proof {
        assert(v@.take(end as int) =~= v@);
    }
    while end > 0 && v[end - 1] == BYTE_SPACE
        invariant
            end <= v.len(),
            spec_trim_trailing_spaces(v@) == spec_trim_trailing_spaces(v@.take(end as int)),
        decreases end,
    {
        proof {
            assert(v@.take(end as int).drop_last() =~= v@.take(end - 1));
            assert(v@.take(end as int).last() == v@[end - 1]);
        }
        end -= 1;
    }
    proof {
        if end > 0 {
            assert(v@.take(end as int).last() == v@[end - 1]);
        }
        assert(spec_trim_trailing_spaces(v@) == v@.take(end as int));
    }
    v.truncate(end);
    v
}

/// The encoding of one field under one column type: 4 little-endian bytes
/// for `INT`, 10 fitted bytes for `TEXT`, nothing for an unsupported type.
pub open spec fn spec_encode_field(dt: Seq<char>, field: Seq<u8>) -> Seq<u8> {
    if is_int_type(dt) {
        spec_u32_to_le_bytes(spec_parse_i32(field) as u32)
    } else if is_text_type(dt) {
        spec_text_pad(field)
    } else {
        Seq::empty()
    }
}

/// The concatenated encodings of `fields[k..]` under `cols[k..]`.
pub open spec fn spec_encode_row_from(cols: Seq<Column>, fields: Seq<Seq<u8>>, k: int) -> Seq<u8>
    decreases cols.len() - k,
{
    if k < 0 || k >= cols.len() {
        Seq::empty()
    } else {
        spec_encode_field(cols[k].data_type@, fields[k]) + spec_encode_row_from(
            cols,
            fields,
            k + 1,
        )
    }
}

/// The tuple one row of field values encodes to under a schema.
pub open spec fn spec_encode_row(cols: Seq<Column>, fields: Seq<Seq<u8>>) -> Seq<u8> {
    spec_encode_row_from(cols, fields, 0)
}

/// Serializes one row of field values against the ordered column list.
pub fn encode_row(columns: &Vec<Column>, fields: &Vec<Vec<u8>>) -> (r: Vec<u8>)
    requires
        fields.len() == columns.len(),
    ensures
        r@ == spec_encode_row(columns@, fields.deep_view()),
{
    let ghost fs = fields.deep_view();
    let mut out: Vec<u8> = Vec::new();
    let mut k: usize = 0;
    while k < columns.len()
        invariant
            k <= columns.len(),
            fields.len() == columns.len(),
            fs == fields.deep_view(),
            fs.len() == fields.len(),
            forall|j: int| 0 <= j < fields.len() ==> fs[j] == fields@[j]@,
            out@ + spec_encode_row_from(columns@, fs, k as int) == spec_encode_row(columns@, fs),
        decreases columns.len() - k,
    {
        let col = &columns[k];
        if label_eq(&col.data_type, "INT") {
            let num = parse_i32(&fields[k]);
            let mut enc = u32_to_le_bytes(num as u32);
            out.append(&mut enc);
        } else if label_eq(&col.data_type, "TEXT") {
            let mut enc = text_pad(&fields[k]);
            out.append(&mut enc);
        }
        proof {
            assert(out@ + spec_encode_row_from(columns@, fs, k + 1) =~= spec_encode_row(
                columns@,
                fs,
            ));
        }
        k += 1;
    }
    proof {
        assert(out@ =~= spec_encode_row(columns@, fs));
    }
    out
}

/// One decoded column value.
pub enum FieldValue {
    Int(i32),
    Text(Vec<u8>),
    Unsupported,
}

/// The mathematical image of a decoded column value.
pub enum SpecFieldValue {
    Int(i32),
    Text(Seq<u8>),
    Unsupported,
}

impl View for FieldValue {
    type V = SpecFieldValue;

    open spec fn view(&self) -> SpecFieldValue {
        match self {
            FieldValue::Int(v) => SpecFieldValue::Int(*v),
            FieldValue::Text(v) => SpecFieldValue::Text(v@),
            FieldValue::Unsupported => SpecFieldValue::Unsupported,
        }
    }
}

/// The values decoded from `tuple` for columns `cols[k..]`, with the read
/// cursor at `cur`: an `INT` consumes 4 bytes, a `TEXT` 10, an unsupported
/// column none. A column whose bytes would run past the tuple's end is
/// passed over without a value, as the encoder can produce short tuples for
/// rows with unsupported columns.
pub open spec fn spec_decode_row_from(
    cols: Seq<Column>,
    tuple: Seq<u8>,
    k: int,
    cur: int,
) -> Seq<SpecFieldValue>
    decreases cols.len() - k,
{
    if k < 0 || k >= cols.len() {
        Seq::empty()
    } else if is_int_type(cols[k].data_type@) {
        if cur + INT_WIDTH <= tuple.len() {
            seq![
                SpecFieldValue::Int(spec_u32_from_le_bytes(tuple.subrange(cur, cur + 4)) as i32),
            ] + spec_decode_row_from(cols, tuple, k + 1, cur + 4)
        } else {
            spec_decode_row_from(cols, tuple, k + 1, cur)
        }
    } else if is_text_type(cols[k].data_type@) {
        if cur + TEXT_WIDTH <= tuple.len() {
            seq![
                SpecFieldValue::Text(spec_trim_trailing_spaces(tuple.subrange(cur, cur + 10))),
            ] + spec_decode_row_from(cols, tuple, k + 1, cur + 10)
        } else {
            spec_decode_row_from(cols, tuple, k + 1, cur)
        }
    } else {
        seq![SpecFieldValue::Unsupported] + spec_decode_row_from(cols, tuple, k + 1, cur)
    }
}

/// The values decoded from one tuple under a schema, walking the columns in
/// declared order.
pub open spec fn spec_decode_row(cols: Seq<Column>, tuple: Seq<u8>) -> Seq<SpecFieldValue> {
    spec_decode_row_from(cols, tuple, 0, 0)
}

/// What decoding gives back for one encoded field: the parsed integer for
/// an `INT` column, the fitted text with its trailing padding trimmed for a
/// `TEXT` column.
pub open spec fn spec_round_trip_value(col: Column, field: Seq<u8>) -> SpecFieldValue {
    if is_int_type(col.data_type@) {
        SpecFieldValue::Int(spec_parse_i32(field))
    } else {
        SpecFieldValue::Text(spec_trim_trailing_spaces(spec_text_pad(field)))
    }
}

proof fn lemma_decode_encoded_from(cols: Seq<Column>, fields: Seq<Seq<u8>>, t: Seq<u8>, k: int)
    requires
        0 <= k <= cols.len(),
        fields.len() == cols.len(),
        forall|j: int|
            0 <= j < cols.len() ==> is_int_type((#[trigger] cols[j]).data_type@) || is_text_type(
                cols[j].data_type@,
            ),
        spec_encode_row_from(cols, fields, k).len() <= t.len(),
        t.subrange(t.len() - spec_encode_row_from(cols, fields, k).len(), t.len() as int)
            == spec_encode_row_from(cols, fields, k),
    ensures
        spec_decode_row_from(
            cols,
            t,
            k,
            t.len() - spec_encode_row_from(cols, fields, k).len(),
        ) == Seq::new((cols.len() - k) as nat, |i: int| spec_round_trip_value(
            cols[k + i],
            fields[k + i],
        )),
    decreases cols.len() - k,
{
    vstd::bytes::lemma_auto_spec_u32_to_from_le_bytes();
    let rest = spec_encode_row_from(cols, fields, k);
    let cur = t.len() - rest.len();
    if k == cols.len() {
        assert(spec_decode_row_from(cols, t, k, cur) =~= Seq::new(
            (cols.len() - k) as nat,
            |i: int| spec_round_trip_value(cols[k + i], fields[k + i]),
        ));
    } else {
        let enc = spec_encode_field(cols[k].data_type@, fields[k]);
        let next = spec_encode_row_from(cols, fields, k + 1);
        assert(rest == enc + next);
        assert forall|j: int| 0 <= j < rest.len() implies t[cur + j] == rest[j] by {
            assert(t.subrange(cur, t.len() as int)[j] == t[cur + j]);
        }
        assert(t.subrange(cur, cur + enc.len() as int) =~= enc);
        assert forall|i: int|
            0 <= i < next.len() implies t.subrange(cur + enc.len(), t.len() as int)[i]
            == next[i] by {
            let j = enc.len() + i;
            assert(t[cur + j] == rest[j]);
            assert(rest[j] == next[i]);
            assert(t.subrange(cur + enc.len(), t.len() as int)[i] == t[cur + enc.len() + i]);
        }
        assert(t.subrange(cur + enc.len(), t.len() as int) =~= next);
        lemma_decode_encoded_from(cols, fields, t, k + 1);
        if is_int_type(cols[k].data_type@) {
            let v = spec_parse_i32(fields[k]);
            assert(enc == spec_u32_to_le_bytes(v as u32));
            assert(enc.len() == 4);
            assert(spec_u32_from_le_bytes(t.subrange(cur, cur + 4)) == v as u32);
            assert((v as u32) as i32 == v) by (bit_vector);
            assert(spec_decode_row_from(cols, t, k, cur) == seq![SpecFieldValue::Int(v)]
                + spec_decode_row_from(cols, t, k + 1, cur + 4));
        } else {
            assert(enc == spec_text_pad(fields[k]));
            assert(enc.len() == 10);
            assert(spec_decode_row_from(cols, t, k, cur) == seq![
                SpecFieldValue::Text(spec_trim_trailing_spaces(t.subrange(cur, cur + 10))),
            ] + spec_decode_row_from(cols, t, k + 1, cur + 10));
        }
        assert(spec_decode_row_from(cols, t, k, cur) =~= Seq::new(
            (cols.len() - k) as nat,
            |i: int| spec_round_trip_value(cols[k + i], fields[k + i]),
        ));
    }
}

/// Round trip: a row encoded against a schema of `INT` and `TEXT` columns
/// and decoded against the same schema yields, column by column, the parsed
/// integer or the fitted text with its padding trimmed.
pub proof fn lemma_codec_round_trip(cols: Seq<Column>, fields: Seq<Seq<u8>>)
    requires
        fields.len() == cols.len(),
        forall|j: int|
            0 <= j < cols.len() ==> is_int_type((#[trigger] cols[j]).data_type@) || is_text_type(
                cols[j].data_type@,
            ),
    ensures
        spec_decode_row(cols, spec_encode_row(cols, fields)) == Seq::new(
            cols.len(),
            |i: int| spec_round_trip_value(cols[i], fields[i]),
        ),
{
    let t = spec_encode_row(cols, fields);
    assert(t.subrange(0, t.len() as int) =~= t);
    lemma_decode_encoded_from(cols, fields, t, 0);
    assert(Seq::new((cols.len() - 0) as nat, |i: int| spec_round_trip_value(
        cols[0 + i],
        fields[0 + i],
    )) =~= Seq::new(cols.len(), |i: int| spec_round_trip_value(cols[i], fields[i])));
}

/// Decodes one tuple's payload against the ordered column list.
pub fn decode_row(columns: &Vec<Column>, tuple: &Vec<u8>) -> (r: Vec<FieldValue>)
    ensures
        r@.map_values(|v: FieldValue| v@) == spec_decode_row(columns@, tuple@),
{
    let mut out: Vec<FieldValue> = Vec::new();
    let mut cur: usize = 0;
    let mut k: usize = 0;
    proof {
        assert(out@.map_values(|v: FieldValue| v@) =~= Seq::<SpecFieldValue>::empty());
    }
    while k < columns.len()
        invariant
            k <= columns.len(),
            cur <= tuple.len(),
            out@.map_values(|v: FieldValue| v@) + spec_decode_row_from(
                columns@,
                tuple@,
                k as int,
                cur as int,
            ) == spec_decode_row(columns@, tuple@),
        decreases columns.len() - k,
    {
        let ghost prev = out@;
        let col = &columns[k];
        if label_eq(&col.data_type, "INT") {
            if tuple.len() - cur >= INT_WIDTH {
                let raw = u32_from_le_bytes(slice_subrange(tuple.as_slice(), cur, cur + 4));
                out.push(FieldValue::Int(raw as i32));
                cur += 4;
            }
        } else if label_eq(&col.data_type, "TEXT") {
            if tuple.len() - cur >= TEXT_WIDTH {
                let raw = slice_to_vec(slice_subrange(tuple.as_slice(), cur, cur + 10));
                out.push(FieldValue::Text(trim_trailing_spaces(raw)));
                cur += 10;
            }
        } else {
            out.push(FieldValue::Unsupported);
        }
        proof {
            if out@.len() > prev.len() {
                assert(out@.map_values(|v: FieldValue| v@) =~= prev.map_values(
                    |v: FieldValue| v@,
                ).push(out@.last()@));
            }
        }
        k += 1;
    }
    out
}

} // verus!
