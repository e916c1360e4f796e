//! Tables: a metadata page followed by slotted data pages.
//!
//! Page 0 holds the magic, the format version, the page size, the indexed
//! column and the length of the serialized schema (u32 LE each after the
//! magic), then the schema from byte 24 on. Rows live in slotted pages 1..N.

use vstd::prelude::*;
use vstd::bytes::*;

use crate::catalog::schema::{ColumnV, Schema, parse_schema, schema_bytes, fits_schema_format, lemma_schema_roundtrip};
use crate::error::{Error, Result};
use crate::storage::page::{
    PAGE_SIZE, SlotId, SlottedPage, empty_page, inserted_bytes, page_records, page_wf, record_fits, slot_count_of,
    slot_record, splice, write_bytes,
};
use crate::storage::record::{all_fit, decode, lemma_record_roundtrip, parse_record, record_bytes, texts_fit_u32, values_view};
use crate::storage::{DEFAULT_PAGE_SIZE, FORMAT_VERSION, MAGIC, has_magic, starts_with_magic};
use crate::seqs::{lemma_opt_prepend_empty, lemma_opt_prepend_push, opt_prepend};
use crate::types::{Value, ValueV};

verus! {

broadcast use vstd::array::group_array_axioms;

/// Where the serialized schema starts in the metadata page.
pub const SCHEMA_OFFSET: usize = 24;

/// The indexed-column field of a table without an index.
pub const NO_INDEX: u32 = 0xFFFF_FFFF;

/// The address of a row: its page and its slot in that page.
#[derive(Debug, Clone, Copy, PartialEq, Eq, Structural)]
pub struct Rid {
    pub page: u32,
    pub slot: SlotId,
}

/// The metadata page of a table whose serialized schema is `sb`.
pub open spec fn meta_bytes(sb: Seq<u8>) -> Seq<u8> {
    MAGIC@ + spec_u32_to_le_bytes(FORMAT_VERSION) + spec_u32_to_le_bytes(DEFAULT_PAGE_SIZE)
        + spec_u32_to_le_bytes(NO_INDEX) + spec_u32_to_le_bytes(sb.len() as u32) + sb + Seq::new(
        (PAGE_SIZE - SCHEMA_OFFSET - sb.len()) as nat,
        |i: int| 0u8,
    )
}

/// The schema length recorded in a metadata page.
pub open spec fn meta_schema_len(b: Seq<u8>) -> int {
    spec_u32_from_le_bytes(b.subrange(20, 24)) as int
}

/// The indexed column recorded in a metadata page (`NO_INDEX`: none).
pub open spec fn meta_indexed_column(b: Seq<u8>) -> u32 {
    spec_u32_from_le_bytes(b.subrange(16, 20))
}

/// The format version recorded in a metadata page.
pub open spec fn meta_version(b: Seq<u8>) -> u32 {
    spec_u32_from_le_bytes(b.subrange(8, 12))
}

/// The metadata page for a new table with this schema and no index, or
/// `SchemaTooLarge` when the serialized schema does not fit in the page.
pub fn meta_page(schema: &Schema) -> (r: Result<[u8; PAGE_SIZE]>)
    ensures
        SCHEMA_OFFSET + schema_bytes(schema@).len() > PAGE_SIZE ==> r == Err::<[u8; PAGE_SIZE], Error>(
            Error::SchemaTooLarge,
        ),
        SCHEMA_OFFSET + schema_bytes(schema@).len() <= PAGE_SIZE ==> (r matches Ok(p) && p@ == meta_bytes(
            schema_bytes(schema@),
        )),
{
    let sb = schema.serialize();
    if sb.len() > PAGE_SIZE - SCHEMA_OFFSET {
        return Err(Error::SchemaTooLarge);
    }
    let mut meta = [0u8; PAGE_SIZE];
    let ghost zero = meta@;
    let magic = MAGIC;
    write_bytes(&mut meta, 0, magic.as_slice());
    let v = u32_to_le_bytes(FORMAT_VERSION);
    write_bytes(&mut meta, 8, v.as_slice());
    let p = u32_to_le_bytes(DEFAULT_PAGE_SIZE);
    write_bytes(&mut meta, 12, p.as_slice());
    let x = u32_to_le_bytes(NO_INDEX);
    write_bytes(&mut meta, 16, x.as_slice());
    let l = u32_to_le_bytes(sb.len() as u32);
    write_bytes(&mut meta, 20, l.as_slice());
    write_bytes(&mut meta, SCHEMA_OFFSET, sb.as_slice());
    assert(meta@ =~= meta_bytes(sb@)) by {
        assert forall|i: int| 0 <= i < PAGE_SIZE implies meta@[i] == meta_bytes(sb@)[i] by {
            if i >= SCHEMA_OFFSET + sb@.len() {
                assert(zero[i] == 0u8);
            }
        }
    }
    Ok(meta)
}

/// Reads the schema from the metadata page of the table file at `path`:
/// the magic and version must match and the recorded schema must lie in
/// the page and parse.
pub fn parse_meta(path: String, meta: &[u8]) -> (r: Result<Schema>)
    requires
        meta@.len() == PAGE_SIZE,
    ensures
        !has_magic(meta@) ==> (r matches Err(Error::NotASkipperDb(p)) && p@ == path@),
        has_magic(meta@) && meta_version(meta@) != FORMAT_VERSION ==> r == Err::<Schema, Error>(
            Error::UnsupportedVersion(meta_version(meta@)),
        ),
        has_magic(meta@) && meta_version(meta@) == FORMAT_VERSION && SCHEMA_OFFSET + meta_schema_len(meta@)
            > PAGE_SIZE ==> r == Err::<Schema, Error>(Error::MalformedSchema),
        has_magic(meta@) && meta_version(meta@) == FORMAT_VERSION && SCHEMA_OFFSET + meta_schema_len(meta@)
            <= PAGE_SIZE ==> match parse_schema(meta@.subrange(24, 24 + meta_schema_len(meta@))) {
            Some(cs) => r matches Ok(s) && s@ == cs,
            None => r == Err::<Schema, Error>(Error::MalformedSchema),
        },
{
    if !starts_with_magic(meta) {
        return Err(Error::NotASkipperDb(path));
    }
    let version = u32_from_le_bytes(vstd::slice::slice_subrange(meta, 8, 12));
    if version != FORMAT_VERSION {
        return Err(Error::UnsupportedVersion(version));
    }
    let len = u32_from_le_bytes(vstd::slice::slice_subrange(meta, 20, 24)) as usize;
    if len > PAGE_SIZE - SCHEMA_OFFSET {
        return Err(Error::MalformedSchema);
    }
    Schema::deserialize(vstd::slice::slice_subrange(meta, SCHEMA_OFFSET, SCHEMA_OFFSET + len))
}

/// Reading the metadata page of a new table gives back its schema.
pub proof fn lemma_meta_roundtrip(cs: Seq<ColumnV>)
    requires
        fits_schema_format(cs),
        SCHEMA_OFFSET + schema_bytes(cs).len() <= PAGE_SIZE,
    ensures
        meta_bytes(schema_bytes(cs)).len() == PAGE_SIZE,
        has_magic(meta_bytes(schema_bytes(cs))),
        meta_version(meta_bytes(schema_bytes(cs))) == FORMAT_VERSION,
        meta_indexed_column(meta_bytes(schema_bytes(cs))) == NO_INDEX,
        meta_schema_len(meta_bytes(schema_bytes(cs))) == schema_bytes(cs).len(),
        parse_schema(meta_bytes(schema_bytes(cs)).subrange(24, 24 + schema_bytes(cs).len() as int)) == Some(cs),
{
    lemma_auto_spec_u32_to_from_le_bytes();
    let sb = schema_bytes(cs);
    let b = meta_bytes(sb);
    assert(b.take(8) =~= MAGIC@);
    assert(b.subrange(8, 12) =~= spec_u32_to_le_bytes(FORMAT_VERSION));
    assert(b.subrange(16, 20) =~= spec_u32_to_le_bytes(NO_INDEX));
    assert(b.subrange(20, 24) =~= spec_u32_to_le_bytes(sb.len() as u32));
    assert(b.subrange(24, 24 + sb.len() as int) =~= sb);
    lemma_schema_roundtrip(cs);
}

/// Where a new record goes. With data pages present (`page_count > 1`)
/// the caller hands in the last one: the record goes there when it fits.
/// Otherwise it starts a new page at the end of the file. Returns the page
/// number, the page to write there, and the record's slot.
pub fn place_record(page_count: u32, last: Option<SlottedPage>, record: &[u8]) -> (r: Result<(u32, SlottedPage, SlotId)>)
    requires
        last is Some <==> page_count > 1,
    ensures
        match last {
            Some(p) if record_fits(p@, record@.len() as int) => r matches Ok((id, page, slot)) && {
                &&& id == page_count - 1
                &&& page@ == inserted_bytes(p@, record@)
                &&& slot as int == slot_count_of(p@)
                &&& slot_record(page@, slot as int) == Some(record@)
                &&& page_wf(p@) ==> page_wf(page@) && page_records(page@) == page_records(p@).push(Some(record@))
            },
            _ => if record_fits(empty_page(), record@.len() as int) {
                r matches Ok((id, page, slot)) && {
                    &&& id == if page_count == 0 { 1 } else { page_count }
                    &&& page@ == inserted_bytes(empty_page(), record@)
                    &&& slot == 0
                    &&& slot_record(page@, 0) == Some(record@)
                    &&& page_wf(page@)
                    &&& page_records(page@) == seq![Some(record@)]
                }
            } else {
                r == Err::<(u32, SlottedPage, SlotId), Error>(Error::RecordTooLarge)
            },
        },
{
    match last {
        Some(mut p) => {
            match p.insert(record) {
                Some(slot) => {
                    return Ok((page_count - 1, p, slot));
                },
                None => {},
            }
        },
        None => {},
    }
    let page_id = if page_count == 0 { 1 } else { page_count };
    let mut page = SlottedPage::new();
    match page.insert(record) {
        Some(slot) => Ok((page_id, page, slot)),
        None => Err(Error::RecordTooLarge),
    }
}

/// A row address can hold a row: not the metadata page, and before the
/// end of the file.
pub fn rid_in_range(rid: Rid, page_count: u32) -> (r: bool)
    ensures
        r == (rid.page != 0 && rid.page < page_count),
{
    rid.page != 0 && rid.page < page_count
}

/// The row in `slot` of a data page: `None` for a dead or missing slot,
/// `MalformedRecord` when its bytes do not decode.
pub fn read_row(schema: &Schema, page: &SlottedPage, slot: SlotId) -> (r: Result<Option<Vec<Value>>>)
    ensures
        match slot_record(page@, slot as int) {
            None => r == Ok::<Option<Vec<Value>>, Error>(None),
            Some(b) => match parse_record(schema@, b) {
                Some(vals) => r matches Ok(Some(vs)) && values_view(vs@) == vals,
                None => r == Err::<Option<Vec<Value>>, Error>(Error::MalformedRecord),
            },
        },
{
    match page.get(slot) {
        None => Ok(None),
        Some(bytes) => match decode(schema, bytes) {
            Ok(vs) => Ok(Some(vs)),
            Err(e) => Err(e),
        },
    }
}

/// The live rows of a page from slot `k` on, in slot order, or `None` when
/// one of them does not decode.
pub open spec fn page_rows_from(cs: Seq<ColumnV>, b: Seq<u8>, k: int) -> Option<Seq<Seq<ValueV>>>
    decreases slot_count_of(b) - k,
{
    if k < 0 || k >= slot_count_of(b) {
        Some(Seq::empty())
    } else {
        match slot_record(b, k) {
            None => page_rows_from(cs, b, k + 1),
            Some(rec) => match parse_record(cs, rec) {
                None => None,
                Some(vals) => match page_rows_from(cs, b, k + 1) {
                    None => None,
                    Some(rest) => Some(seq![vals] + rest),
                },
            },
        }
    }
}

/// The rows of a page's records, in slot order; dead slots are skipped.
pub fn page_rows(schema: &Schema, page: &SlottedPage) -> (r: Result<Vec<Vec<Value>>>)
    ensures
        match page_rows_from(schema@, page@, 0) {
            Some(rows) => r matches Ok(vs) && vs@.map_values(|v: Vec<Value>| values_view(v@)) == rows,
            None => r == Err::<Vec<Vec<Value>>, Error>(Error::MalformedRecord),
        },
{
    let count = page.slot_count();
    let mut out: Vec<Vec<Value>> = Vec::new();
    let mut k: usize = 0;
    proof {
        lemma_opt_prepend_empty(page_rows_from(schema@, page@, 0));
    }
    while k < count
        invariant
            count == slot_count_of(page@),
            k <= count,
            page_rows_from(schema@, page@, 0) == opt_prepend(
                out@.map_values(|v: Vec<Value>| values_view(v@)),
                page_rows_from(schema@, page@, k as int),
            ),
        decreases count - k,
    {
        let ghost prefix = out@.map_values(|v: Vec<Value>| values_view(v@));
        match read_row(schema, page, k as u16) {
            Err(e) => {
                return Err(e);
            },
            Ok(None) => {},
            Ok(Some(row)) => {
                proof {
                    lemma_opt_prepend_push(prefix, values_view(row@), page_rows_from(schema@, page@, k + 1));
                }
                out.push(row);
                assert(out@.map_values(|v: Vec<Value>| values_view(v@)) =~= prefix.push(values_view(row@)));
            },
        }
        k = k + 1;
    }
    proof {
        assert(page_rows_from(schema@, page@, k as int) == Some(Seq::<Seq<ValueV>>::empty()));
        assert(out@.map_values(|v: Vec<Value>| values_view(v@)) + Seq::<Seq<ValueV>>::empty()
            =~= out@.map_values(|v: Vec<Value>| values_view(v@)));
    }
    Ok(out)
}

/// A row stored in a slot reads back as the same row: a page whose slot
/// holds the encoded row, as `place_record` leaves the page at the slot it
/// returns, decodes there (what `read_row` gives) to the row's values.
pub proof fn lemma_stored_row_reads_back(cs: Seq<ColumnV>, vals: Seq<ValueV>, b: Seq<u8>, slot: int)
    requires
        vals.len() == cs.len(),
        all_fit(cs, vals),
        texts_fit_u32(vals),
        slot_record(b, slot) == Some(record_bytes(vals)),
    ensures
        match slot_record(b, slot) {
            Some(rec) => parse_record(cs, rec) == Some(vals),
            None => false,
        },
{
    lemma_record_roundtrip(cs, vals);
}

} // verus!
