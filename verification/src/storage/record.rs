use vstd::prelude::*;
use vstd::bytes::*;
use vstd::utf8::*;

use crate::catalog::schema::{ColumnV, Schema};
use crate::error::{Error, Result};
use crate::seqs::{lemma_opt_prepend_empty, lemma_opt_prepend_push, opt_prepend};
use crate::text::{string_from_utf8, utf8_bytes};
use crate::types::{ColumnType, Value, ValueV};

verus! {

broadcast use {vstd::utf8::encode_utf8_decode_utf8, vstd::utf8::encode_utf8_valid_utf8};

/// Bytes of the null bitmap for `n` columns: one bit per column.
pub open spec fn bitmap_len(n: nat) -> nat {
    (n + 7) / 8
}

/// Byte `j` of the null bitmap, built from its low `b` bits: bit `k` is set
/// when value `8 * j + k` exists and is NULL.
pub open spec fn bitmap_bits(vals: Seq<ValueV>, j: int, b: nat) -> u8
    decreases b,
{
    if b == 0 {
        0
    } else {
        let prev = bitmap_bits(vals, j, (b - 1) as nat);
        let k = 8 * j + b - 1;
        if k < vals.len() && vals[k] is Null {
            prev | (1u8 << ((b - 1) as u8))
        } else {
            prev
        }
    }
}

/// The null bitmap of a row.
pub open spec fn null_bitmap(vals: Seq<ValueV>) -> Seq<u8> {
    Seq::new(bitmap_len(vals.len()), |j: int| bitmap_bits(vals, j, 8))
}

/// Whether bit `i` of a bitmap is set.
pub open spec fn null_bit(bm: Seq<u8>, i: int) -> bool {
    bm[i / 8] & (1u8 << ((i % 8) as u8)) != 0
}

/// One non-null value: INT as 8 bytes LE, TEXT as a u32 LE byte length and
/// the UTF-8 bytes; NULL takes no bytes.
pub open spec fn value_bytes(v: ValueV) -> Seq<u8> {
    match v {
        ValueV::Null => Seq::empty(),
        ValueV::Int(n) => spec_u64_to_le_bytes(n as u64),
        ValueV::Text(s) => spec_u32_to_le_bytes(encode_utf8(s).len() as u32) + encode_utf8(s),
    }
}

/// The values one after another.
pub open spec fn payload_bytes(vals: Seq<ValueV>) -> Seq<u8>
    decreases vals.len(),
{
    if vals.len() == 0 {
        Seq::empty()
    } else {
        value_bytes(vals[0]) + payload_bytes(vals.drop_first())
    }
}

/// The binary form of a row: null bitmap, then the non-null values.
pub open spec fn record_bytes(vals: Seq<ValueV>) -> Seq<u8> {
    null_bitmap(vals) + payload_bytes(vals)
}

/// A value may stand in a column: NULL anywhere, otherwise of the column's type.
pub open spec fn fits_column(c: ColumnV, v: ValueV) -> bool {
    match v {
        ValueV::Null => true,
        ValueV::Int(_) => c.ty == ColumnType::Int,
        ValueV::Text(_) => c.ty == ColumnType::Text,
    }
}

/// Every value fits its column.
pub open spec fn all_fit(cols: Seq<ColumnV>, vals: Seq<ValueV>) -> bool {
    forall|i: int| 0 <= i < cols.len() && i < vals.len() ==> fits_column(cols[i], vals[i])
}

/// The first position from `i` on whose value does not fit its column.
pub open spec fn first_unfit(cols: Seq<ColumnV>, vals: Seq<ValueV>, i: nat) -> int
    decreases cols.len() - i,
{
    if i >= cols.len() || i >= vals.len() {
        i as int
    } else if !fits_column(cols[i as int], vals[i as int]) {
        i as int
    } else {
        first_unfit(cols, vals, i + 1)
    }
}

/// Decodes the values from column `i` on, from the payload `p`.
pub open spec fn decode_values(cols: Seq<ColumnV>, bm: Seq<u8>, i: nat, p: Seq<u8>) -> Option<Seq<ValueV>>
    decreases cols.len() - i,
{
    if i >= cols.len() {
        Some(Seq::empty())
    } else if null_bit(bm, i as int) {
        opt_prepend(seq![ValueV::Null], decode_values(cols, bm, i + 1, p))
    } else {
        match cols[i as int].ty {
            ColumnType::Int => {
                if p.len() < 8 {
                    None
                } else {
                    opt_prepend(
                        seq![ValueV::Int(spec_u64_from_le_bytes(p.take(8)) as i64)],
                        decode_values(cols, bm, i + 1, p.skip(8)),
                    )
                }
            },
            ColumnType::Text => {
                if p.len() < 4 {
                    None
                } else {
                    let len = spec_u32_from_le_bytes(p.take(4)) as int;
                    let r = p.skip(4);
                    if r.len() < len {
                        None
                    } else if !valid_utf8(r.take(len)) {
                        None
                    } else {
                        opt_prepend(
                            seq![ValueV::Text(decode_utf8(r.take(len)))],
                            decode_values(cols, bm, i + 1, r.skip(len)),
                        )
                    }
                }
            },
        }
    }
}

/// The row that `b` holds under `cols`, or `None` when it is malformed.
pub open spec fn parse_record(cols: Seq<ColumnV>, b: Seq<u8>) -> Option<Seq<ValueV>> {
    let bl = bitmap_len(cols.len()) as int;
    if b.len() < bl {
        None
    } else {
        decode_values(cols, b.take(bl), 0, b.skip(bl))
    }
}

/// Text values short enough for their u32 length prefix.
pub open spec fn texts_fit_u32(vals: Seq<ValueV>) -> bool {
    forall|i: int| 0 <= i < vals.len() ==> (#[trigger] vals[i] matches ValueV::Text(s) ==> encode_utf8(s).len() <= u32::MAX)
}

/// The models of a slice of values.
pub open spec fn values_view(vals: Seq<Value>) -> Seq<ValueV> {
    vals.map_values(|v: Value| v@)
}

proof fn lemma_bit_or(x: u8, m: u8, k: u8)
    by (bit_vector)
    requires
        m < 8,
        k < 8,
    ensures
        ((x | (1u8 << m)) & (1u8 << k) != 0) == ((x & (1u8 << k) != 0) || m == k),
{
}

proof fn lemma_bit_zero(k: u8)
    by (bit_vector)
    requires
        k < 8,
    ensures
        (0u8 & (1u8 << k)) == 0,
{
}

proof fn lemma_bitmap_bits(vals: Seq<ValueV>, j: int, b: nat, k: nat)
    requires
        b <= 8,
        k < 8,
        j >= 0,
    ensures
        (bitmap_bits(vals, j, b) & (1u8 << (k as u8)) != 0) == (k < b && 8 * j + k < vals.len()
            && vals[8 * j + k] is Null),
    decreases b,
{
    if b == 0 {
        lemma_bit_zero(k as u8);
    } else {
        lemma_bitmap_bits(vals, j, (b - 1) as nat, k);
        let prev = bitmap_bits(vals, j, (b - 1) as nat);
        lemma_bit_or(prev, (b - 1) as u8, k as u8);
    }
}

/// Bit `i` of the null bitmap says whether value `i` is NULL.
pub proof fn lemma_null_bitmap(vals: Seq<ValueV>, i: int)
    requires
        0 <= i < vals.len(),
    ensures
        null_bit(null_bitmap(vals), i) == vals[i] is Null,
{
    let j = i / 8;
    let k = (i % 8) as nat;
    lemma_bitmap_bits(vals, j, 8, k);
    assert(8 * j + k == i);
}

proof fn lemma_payload_push(vals: Seq<ValueV>, v: ValueV)
    ensures
        payload_bytes(vals.push(v)) == payload_bytes(vals) + value_bytes(v),
    decreases vals.len(),
{
    if vals.len() == 0 {
        assert(vals.push(v).drop_first() =~= Seq::<ValueV>::empty());
        assert(payload_bytes(vals.push(v).drop_first()) == Seq::<u8>::empty());
        assert(vals.push(v)[0] == v);
        assert(payload_bytes(vals.push(v)) =~= payload_bytes(vals) + value_bytes(v));
    } else {
        lemma_payload_push(vals.drop_first(), v);
        assert(vals.push(v).drop_first() =~= vals.drop_first().push(v));
        assert(payload_bytes(vals.push(v)) =~= payload_bytes(vals) + value_bytes(v));
    }
}

proof fn lemma_i64_u64(x: i64)
    by (bit_vector)
    ensures
        (x as u64) as i64 == x,
{
}

proof fn lemma_decode_suffix(cols: Seq<ColumnV>, vals: Seq<ValueV>, i: nat)
    requires
        cols.len() == vals.len(),
        i <= vals.len(),
        all_fit(cols, vals),
        texts_fit_u32(vals),
    ensures
        decode_values(cols, null_bitmap(vals), i, payload_bytes(vals.skip(i as int))) == Some(vals.skip(i as int)),
    decreases vals.len() - i,
{
    let bm = null_bitmap(vals);
    if i >= vals.len() {
        assert(vals.skip(i as int) =~= Seq::<ValueV>::empty());
    } else {
        lemma_decode_suffix(cols, vals, i + 1);
        let s = vals.skip(i as int);
        assert(s.drop_first() =~= vals.skip((i + 1) as int));
        assert(s[0] == vals[i as int]);
        let p = payload_bytes(s);
        let rest = payload_bytes(vals.skip((i + 1) as int));
        assert(p == value_bytes(vals[i as int]) + rest);
        lemma_null_bitmap(vals, i as int);
        assert(seq![vals[i as int]] + vals.skip((i + 1) as int) =~= s);
        lemma_auto_spec_u64_to_from_le_bytes();
        lemma_auto_spec_u32_to_from_le_bytes();
        match vals[i as int] {
            ValueV::Null => {
                assert(p =~= rest);
            },
            ValueV::Int(n) => {
                assert(fits_column(cols[i as int], vals[i as int]));
                assert(p.take(8) =~= spec_u64_to_le_bytes(n as u64));
                assert(p.skip(8) =~= rest);
                lemma_i64_u64(n);
            },
            ValueV::Text(t) => {
                assert(fits_column(cols[i as int], vals[i as int]));
                let tb = encode_utf8(t);
                assert(tb.len() <= u32::MAX);
                assert(p.take(4) =~= spec_u32_to_le_bytes(tb.len() as u32));
                let r = p.skip(4);
                assert(r =~= tb + rest);
                assert(r.take(tb.len() as int) =~= tb);
                assert(r.skip(tb.len() as int) =~= rest);
            },
        }
    }
}

/// Decoding the bytes that `encode` produced gives back the row.
pub proof fn lemma_record_roundtrip(cols: Seq<ColumnV>, vals: Seq<ValueV>)
    requires
        cols.len() == vals.len(),
        all_fit(cols, vals),
        texts_fit_u32(vals),
    ensures
        parse_record(cols, record_bytes(vals)) == Some(vals),
{
    let b = record_bytes(vals);
    let bl = bitmap_len(cols.len()) as int;
    assert(b.take(bl) =~= null_bitmap(vals));
    assert(b.skip(bl) =~= payload_bytes(vals));
    assert(vals.skip(0) =~= vals);
    lemma_decode_suffix(cols, vals, 0);
    assert forall|i: int| 0 <= i < vals.len() implies null_bit(b.take(bl), i) == null_bit(null_bitmap(vals), i) by {
    }
    lemma_decode_same_bitmap(cols, b.take(bl), null_bitmap(vals), 0, payload_bytes(vals));
}

proof fn lemma_decode_same_bitmap(cols: Seq<ColumnV>, a: Seq<u8>, b: Seq<u8>, i: nat, p: Seq<u8>)
    requires
        a == b,
    ensures
        decode_values(cols, a, i, p) == decode_values(cols, b, i, p),
{
}

/// Serializes one row: a null bitmap (one bit per column) followed by the
/// non-null values, INT as 8 bytes LE and TEXT length-prefixed.
pub fn encode(schema: &Schema, values: &[Value]) -> (r: Result<Vec<u8>>)
    ensures
        values@.len() != schema@.len() ==> r == Err::<Vec<u8>, Error>(
            Error::RecordArity { expected: schema@.len() as usize, got: values@.len() as usize },
        ),
        values@.len() == schema@.len() ==> (r is Ok <==> all_fit(schema@, values_view(values@))),
        values@.len() == schema@.len() && !all_fit(schema@, values_view(values@)) ==> (r matches Err(
            Error::TypeMismatch { column },
        ) && column@ == schema@[first_unfit(schema@, values_view(values@), 0)].name),
        r matches Ok(b) ==> b@ == record_bytes(values_view(values@)),
{
    let n = schema.columns.len();
    if values.len() != n {
        return Err(Error::RecordArity { expected: n, got: values.len() });
    }
    let ghost cols = schema@;
    let ghost vals = values_view(values@);
    let mut i: usize = 0;
    while i < n
        invariant
            n == cols.len(),
            n == values@.len(),
            cols == schema@,
            vals == values_view(values@),
            i <= n,
            forall|k: int| 0 <= k < i ==> fits_column(cols[k], vals[k]),
            first_unfit(cols, vals, 0) == first_unfit(cols, vals, i as nat),
        decreases n - i,
    {
        let ok = match &values[i] {
            Value::Null => true,
            Value::Int(_) => match schema.columns[i].ty {
                ColumnType::Int => true,
                ColumnType::Text => false,
            },
            Value::Text(_) => match schema.columns[i].ty {
                ColumnType::Int => false,
                ColumnType::Text => true,
            },
        };
        assert(ok == fits_column(cols[i as int], vals[i as int]));
        if !ok {
            return Err(Error::TypeMismatch { column: schema.columns[i].name.clone() });
        }
        i = i + 1;
    }
    let nb = n / 8 + if n % 8 == 0 { 0 } else { 1 };
    assert(nb == bitmap_len(n as nat));
    let mut buf: Vec<u8> = Vec::new();
    let mut j: usize = 0;
    while j < nb
        invariant
            n == vals.len(),
            vals == values_view(values@),
            nb == bitmap_len(n as nat),
            j <= nb,
            buf@.len() == j,
            forall|q: int| 0 <= q < j ==> buf@[q] == bitmap_bits(vals, q, 8),
        decreases nb - j,
    {
        let mut byte: u8 = 0;
        let mut b: usize = 0;
        assert(8 * j < n);
        while b < 8
            invariant
                n == vals.len(),
                vals == values_view(values@),
                8 * j < n,
                b <= 8,
                byte == bitmap_bits(vals, j as int, b as nat),
            decreases 8 - b,
        {
            if b < n - 8 * j {
                let k = 8 * j + b;
                let is_null = match &values[k] {
                    Value::Null => true,
                    _ => false,
                };
                if is_null {
                    byte = byte | (1u8 << (b as u8));
                }
            }
            b = b + 1;
        }
        buf.push(byte);
        j = j + 1;
    }
    assert(buf@ =~= null_bitmap(vals));
    let mut i: usize = 0;
    while i < n
        invariant
            n == vals.len(),
            vals == values_view(values@),
            i <= n,
            buf@ == null_bitmap(vals) + payload_bytes(vals.take(i as int)),
        decreases n - i,
    {
        let ghost before = buf@;
        match &values[i] {
            Value::Null => {},
            Value::Int(x) => {
                let mut xb = u64_to_le_bytes(*x as u64);
                buf.append(&mut xb);
            },
            Value::Text(s) => {
                let mut tb = utf8_bytes(s.as_str());
                let mut lb = u32_to_le_bytes(tb.len() as u32);
                buf.append(&mut lb);
                buf.append(&mut tb);
            },
        }
        proof {
            lemma_payload_push(vals.take(i as int), vals[i as int]);
            assert(vals.take(i as int).push(vals[i as int]) =~= vals.take(i + 1));
            assert(buf@ =~= before + value_bytes(vals[i as int]));
        }
        i = i + 1;
    }
    assert(vals.take(n as int) =~= vals);
    Ok(buf)
}

/// Rebuilds the values of a row under `schema` from its bytes.
pub fn decode(schema: &Schema, bytes: &[u8]) -> (r: Result<Vec<Value>>)
    ensures
        match parse_record(schema@, bytes@) {
            Some(vals) => r matches Ok(vs) && values_view(vs@) == vals,
            None => r == Err::<Vec<Value>, Error>(Error::MalformedRecord),
        },
{
    let n = schema.columns.len();
    let bl = n / 8 + if n % 8 == 0 { 0 } else { 1 };
    let ghost cols = schema@;
    let ghost b = bytes@;
    if bytes.len() < bl {
        return Err(Error::MalformedRecord);
    }
    let bm = vstd::slice::slice_subrange(bytes, 0, bl);
    assert(bm@ =~= b.take(bl as int));
    let mut values: Vec<Value> = Vec::new();
    let mut off: usize = bl;
    let mut i: usize = 0;
    proof {
        lemma_opt_prepend_empty(decode_values(cols, bm@, 0, b.skip(bl as int)));
        assert(values_view(values@) =~= Seq::<ValueV>::empty());
    }
    while i < n
        invariant
            n == cols.len(),
            cols == schema@,
            b == bytes@,
            bm@ == b.take(bl as int),
            bm@.len() == bl,
            bl == bitmap_len(n as nat),
            bl <= off <= b.len(),
            i <= n,
            parse_record(cols, b) == opt_prepend(values_view(values@), decode_values(cols, bm@, i as nat, b.skip(off as int))),
        decreases n - i,
    {
        let ghost p = b.skip(off as int);
        let ghost prev = values@;
        let is_null = bm[i / 8] & (1u8 << ((i % 8) as u8)) != 0;
        assert(is_null == null_bit(bm@, i as int));
        let v: Value;
        if is_null {
            v = Value::Null;
        } else {
            match schema.columns[i].ty {
                ColumnType::Int => {
                    if bytes.len() - off < 8 {
                        return Err(Error::MalformedRecord);
                    }
                    let x = u64_from_le_bytes(vstd::slice::slice_subrange(bytes, off, off + 8));
                    assert(p.take(8) =~= b.subrange(off as int, off + 8));
                    assert(p.skip(8) =~= b.skip(off + 8));
                    v = Value::Int(x as i64);
                    off = off + 8;
                },
                ColumnType::Text => {
                    if bytes.len() - off < 4 {
                        return Err(Error::MalformedRecord);
                    }
                    let len = u32_from_le_bytes(vstd::slice::slice_subrange(bytes, off, off + 4)) as usize;
                    assert(p.take(4) =~= b.subrange(off as int, off + 4));
                    if bytes.len() - off - 4 < len {
                        return Err(Error::MalformedRecord);
                    }
                    let tb = vstd::slice::slice_to_vec(vstd::slice::slice_subrange(bytes, off + 4, off + 4 + len));
                    assert(tb@ =~= p.skip(4).take(len as int));
                    assert(p.skip(4).skip(len as int) =~= b.skip(off + 4 + len));
                    match string_from_utf8(tb) {
                        Some(s) => {
                            v = Value::Text(s);
                        },
                        None => {
                            return Err(Error::MalformedRecord);
                        },
                    }
                    off = off + 4 + len;
                },
            }
        }
        proof {
            lemma_opt_prepend_push(values_view(prev), v@, decode_values(cols, bm@, (i + 1) as nat, b.skip(off as int)));
        }
        values.push(v);
        proof {
            assert(values_view(values@) =~= values_view(prev).push(v@));
        }
        i = i + 1;
    }
    proof {
        assert(values_view(values@) + Seq::<ValueV>::empty() =~= values_view(values@));
    }
    Ok(values)
}

} // verus!
