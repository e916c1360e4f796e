use vstd::prelude::*;
use vstd::bytes::*;
use vstd::utf8::*;

use crate::error::{Error, Result};
use crate::seqs::{lemma_opt_prepend_empty, lemma_opt_prepend_push, opt_prepend};
use crate::text::{str_eq, string_from_utf8, utf8_bytes};
use crate::types::ColumnType;

verus! {

broadcast use {vstd::utf8::encode_utf8_decode_utf8, vstd::utf8::encode_utf8_valid_utf8};

/// A column of a table.
#[derive(Debug, Clone, PartialEq, Eq)]
pub struct Column {
    pub name: String,
    pub ty: ColumnType,
    pub nullable: bool,
}

/// The model of a column.
pub ghost struct ColumnV {
    pub name: Seq<char>,
    pub ty: ColumnType,
    pub nullable: bool,
}

impl View for Column {
    type V = ColumnV;

    open spec fn view(&self) -> ColumnV {
        ColumnV { name: self.name@, ty: self.ty, nullable: self.nullable }
    }
}

/// The columns of a table, in order.
#[derive(Debug, Clone, PartialEq, Eq)]
pub struct Schema {
    pub columns: Vec<Column>,
}

impl View for Schema {
    type V = Seq<ColumnV>;

    open spec fn view(&self) -> Seq<ColumnV> {
        self.columns@.map_values(|c: Column| c@)
    }
}

/// `r` is the index of the first column named `name`, or `None` when no
/// column has that name.
pub open spec fn is_first_index(cols: Seq<ColumnV>, name: Seq<char>, r: Option<usize>) -> bool {
    match r {
        Some(i) => {
            &&& i < cols.len()
            &&& cols[i as int].name == name
            &&& forall|j: int| 0 <= j < i ==> cols[j].name != name
        },
        None => forall|j: int| 0 <= j < cols.len() ==> cols[j].name != name,
    }
}

/// The byte that stands for a column type.
pub open spec fn type_tag(t: ColumnType) -> u8 {
    match t {
        ColumnType::Int => 0,
        ColumnType::Text => 1,
    }
}

/// One column: name length (u32 LE), name in UTF-8, type tag, nullable flag.
pub open spec fn column_bytes(c: ColumnV) -> Seq<u8> {
    let nb = encode_utf8(c.name);
    spec_u32_to_le_bytes(nb.len() as u32) + nb + seq![type_tag(c.ty), if c.nullable { 1u8 } else { 0u8 }]
}

/// The columns one after another.
pub open spec fn columns_bytes(cs: Seq<ColumnV>) -> Seq<u8>
    decreases cs.len(),
{
    if cs.len() == 0 {
        Seq::empty()
    } else {
        column_bytes(cs[0]) + columns_bytes(cs.drop_first())
    }
}

/// The binary form of a schema: column count (u32 LE), then the columns.
pub open spec fn schema_bytes(cs: Seq<ColumnV>) -> Seq<u8> {
    spec_u32_to_le_bytes(cs.len() as u32) + columns_bytes(cs)
}

/// Reads one column from the front of `b`, with the number of bytes it took.
pub open spec fn parse_column(b: Seq<u8>) -> Option<(ColumnV, int)> {
    if b.len() < 4 {
        None
    } else {
        let n = spec_u32_from_le_bytes(b.take(4)) as int;
        if b.len() < 4 + n + 2 {
            None
        } else {
            let nb = b.subrange(4, 4 + n);
            let tag = b[4 + n];
            let nl = b[4 + n + 1];
            if !valid_utf8(nb) || tag > 1 || nl > 1 {
                None
            } else {
                Some(
                    (
                        ColumnV {
                            name: decode_utf8(nb),
                            ty: if tag == 0 { ColumnType::Int } else { ColumnType::Text },
                            nullable: nl == 1,
                        },
                        4 + n + 2,
                    ),
                )
            }
        }
    }
}

/// Reads exactly `count` columns that fill all of `b`.
pub open spec fn parse_columns(b: Seq<u8>, count: nat) -> Option<Seq<ColumnV>>
    decreases count,
{
    if count == 0 {
        if b.len() == 0 {
            Some(Seq::empty())
        } else {
            None
        }
    } else {
        match parse_column(b) {
            None => None,
            Some((c, k)) => opt_prepend(seq![c], parse_columns(b.skip(k), (count - 1) as nat)),
        }
    }
}

/// The schema that `b` holds, if it is well formed.
pub open spec fn parse_schema(b: Seq<u8>) -> Option<Seq<ColumnV>> {
    if b.len() < 4 {
        None
    } else {
        parse_columns(b.skip(4), spec_u32_from_le_bytes(b.take(4)) as nat)
    }
}

/// Lengths that the binary form can record: at most `u32::MAX` columns, and
/// names of at most `u32::MAX` bytes.
pub open spec fn fits_schema_format(cs: Seq<ColumnV>) -> bool {
    &&& cs.len() <= u32::MAX
    &&& forall|i: int| 0 <= i < cs.len() ==> encode_utf8(#[trigger] cs[i].name).len() <= u32::MAX
}

proof fn lemma_columns_bytes_push(cs: Seq<ColumnV>, c: ColumnV)
    ensures
        columns_bytes(cs.push(c)) == columns_bytes(cs) + column_bytes(c),
    decreases cs.len(),
{
    if cs.len() == 0 {
        assert(cs.push(c).drop_first() =~= Seq::<ColumnV>::empty());
        assert(columns_bytes(cs.push(c).drop_first()) == Seq::<u8>::empty());
        assert(cs.push(c)[0] == c);
        assert(columns_bytes(cs) == Seq::<u8>::empty());
        assert(columns_bytes(cs.push(c)) =~= columns_bytes(cs) + column_bytes(c));
    } else {
        lemma_columns_bytes_push(cs.drop_first(), c);
        assert(cs.push(c).drop_first() =~= cs.drop_first().push(c));
        assert(columns_bytes(cs.push(c)) =~= columns_bytes(cs) + column_bytes(c));
    }
}

proof fn lemma_parse_column_bytes(c: ColumnV, rest: Seq<u8>)
    requires
        encode_utf8(c.name).len() <= u32::MAX,
    ensures
        parse_column(column_bytes(c) + rest) == Some((c, column_bytes(c).len() as int)),
        (column_bytes(c) + rest).skip(column_bytes(c).len() as int) == rest,
{
    lemma_auto_spec_u32_to_from_le_bytes();
    let nb = encode_utf8(c.name);
    let b = column_bytes(c) + rest;
    let n = nb.len() as int;
    assert(b.take(4) =~= spec_u32_to_le_bytes(nb.len() as u32));
    assert(b.subrange(4, 4 + n) =~= nb);
    assert(b.skip(column_bytes(c).len() as int) =~= rest);
    let p = parse_column(b);
    assert(p matches Some((c2, k)) && c2.name == c.name && c2.ty == c.ty && c2.nullable == c.nullable
        && k == column_bytes(c).len());
}

proof fn lemma_parse_columns_bytes(cs: Seq<ColumnV>)
    requires
        fits_schema_format(cs),
    ensures
        parse_columns(columns_bytes(cs), cs.len()) == Some(cs),
    decreases cs.len(),
{
    if cs.len() == 0 {
    } else {
        let c = cs[0];
        let rest = cs.drop_first();
        assert(fits_schema_format(rest)) by {
            assert forall|i: int| 0 <= i < rest.len() implies encode_utf8(#[trigger] rest[i].name).len() <= u32::MAX by {
                assert(rest[i] == cs[i + 1]);
            }
        }
        lemma_parse_columns_bytes(rest);
        lemma_parse_column_bytes(c, columns_bytes(rest));
        assert(seq![c] + rest =~= cs);
    }
}

/// Reading back the binary form of a schema gives the schema.
pub proof fn lemma_schema_roundtrip(cs: Seq<ColumnV>)
    requires
        fits_schema_format(cs),
    ensures
        parse_schema(schema_bytes(cs)) == Some(cs),
{
    lemma_auto_spec_u32_to_from_le_bytes();
    let b = schema_bytes(cs);
    assert(b.take(4) =~= spec_u32_to_le_bytes(cs.len() as u32));
    assert(b.skip(4) =~= columns_bytes(cs));
    lemma_parse_columns_bytes(cs);
}

impl Schema {
    /// A schema with the given columns.
    pub fn new(columns: Vec<Column>) -> (r: Self)
        ensures
            r.columns == columns,
    {
        Self { columns }
    }

    /// The position of the first column named `name`.
    pub fn column_index(&self, name: &str) -> (r: Option<usize>)
        ensures
            is_first_index(self@, name@, r),
    {
        let mut i: usize = 0;
        while i < self.columns.len()
            invariant
                i <= self.columns@.len(),
                forall|j: int| 0 <= j < i ==> self@[j].name != name@,
            decreases self.columns@.len() - i,
        {
            if str_eq(self.columns[i].name.as_str(), name) {
                return Some(i);
            }
            i = i + 1;
        }
        None
    }

    /// The binary form of the schema, written into table metadata.
    pub fn serialize(&self) -> (r: Vec<u8>)
        ensures
            r@ == schema_bytes(self@),
    {
        let n = self.columns.len();
        let mut out = u32_to_le_bytes(n as u32);
        let mut i: usize = 0;
        while i < n
            invariant
                n == self.columns@.len(),
                i <= n,
                out@ == spec_u32_to_le_bytes(n as u32) + columns_bytes(self@.take(i as int)),
            decreases n - i,
        {
            let c = &self.columns[i];
            let mut nb = utf8_bytes(c.name.as_str());
            let mut lb = u32_to_le_bytes(nb.len() as u32);
            let ghost before = out@;
            out.append(&mut lb);
            out.append(&mut nb);
            let tag: u8 = match c.ty {
                ColumnType::Int => 0,
                ColumnType::Text => 1,
            };
            out.push(tag);
            out.push(if c.nullable { 1u8 } else { 0u8 });
            proof {
                lemma_columns_bytes_push(self@.take(i as int), self@[i as int]);
                assert(self@.take(i as int).push(self@[i as int]) =~= self@.take(i + 1));
                assert(out@ =~= before + column_bytes(self@[i as int]));
            }
            i = i + 1;
        }
        assert(self@.take(n as int) =~= self@);
        out
    }

    /// Rebuilds the schema that `serialize` produced.
    pub fn deserialize(bytes: &[u8]) -> (r: Result<Schema>)
        ensures
            match parse_schema(bytes@) {
                Some(cs) => r matches Ok(s) && s@ == cs,
                None => r == Err::<Schema, Error>(Error::MalformedSchema),
            },
    {
        if bytes.len() < 4 {
            return Err(Error::MalformedSchema);
        }
        let count = u32_from_le_bytes(vstd::slice::slice_subrange(bytes, 0, 4));
        let ghost b = bytes@;
        let mut cols: Vec<Column> = Vec::new();
        let mut off: usize = 4;
        let mut i: u32 = 0;
        proof {
            lemma_opt_prepend_empty(parse_columns(b.skip(4), count as nat));
            assert(b.subrange(0, 4) =~= b.take(4));
        }
        while i < count
            invariant
                b == bytes@,
                4 <= off <= b.len(),
                i <= count,
                count == spec_u32_from_le_bytes(b.take(4)),
                parse_schema(b) == opt_prepend(
                    cols@.map_values(|c: Column| c@),
                    parse_columns(b.skip(off as int), (count - i) as nat),
                ),
            decreases count - i,
        {
            let ghost rest = b.skip(off as int);
            if bytes.len() - off < 4 {
                return Err(Error::MalformedSchema);
            }
            let n = u32_from_le_bytes(vstd::slice::slice_subrange(bytes, off, off + 4)) as usize;
            assert(rest.take(4) =~= b.subrange(off as int, off + 4));
            if bytes.len() - off - 4 < n || bytes.len() - off - 4 - n < 2 {
                return Err(Error::MalformedSchema);
            }
            let nb = vstd::slice::slice_to_vec(vstd::slice::slice_subrange(bytes, off + 4, off + 4 + n));
            assert(nb@ =~= rest.subrange(4, 4 + n));
            let tag = bytes[off + 4 + n];
            let nl = bytes[off + 4 + n + 1];
            if tag > 1 || nl > 1 {
                return Err(Error::MalformedSchema);
            }
            let name = match string_from_utf8(nb) {
                Some(s) => s,
                None => {
                    return Err(Error::MalformedSchema);
                },
            };
            let col = Column {
                name,
                ty: if tag == 0 { ColumnType::Int } else { ColumnType::Text },
                nullable: nl == 1,
            };
            let ghost cv = col@;
            let ghost k = 4 + n + 2;
            proof {
                assert(parse_column(rest) == Some((cv, k)));
                assert(rest.skip(k) =~= b.skip(off + k));
                lemma_opt_prepend_push(
                    cols@.map_values(|c: Column| c@),
                    cv,
                    parse_columns(b.skip(off + k), (count - i - 1) as nat),
                );
            }
            let ghost prev = cols@;
            cols.push(col);
            proof {
                assert(cols@.map_values(|c: Column| c@) =~= prev.map_values(|c: Column| c@).push(cv));
            }
            off = off + 4 + n + 2;
            i = i + 1;
        }
        if off != bytes.len() {
            return Err(Error::MalformedSchema);
        }
        proof {
            assert(b.skip(off as int) =~= Seq::<u8>::empty());
            assert(cols@.map_values(|c: Column| c@) + Seq::<ColumnV>::empty() =~= cols@.map_values(|c: Column| c@));
        }
        Ok(Schema { columns: cols })
    }
}

} // verus!
