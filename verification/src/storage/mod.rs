//! Binary formats of the storage engine: the database file header, records,
//! slotted pages, table metadata and B+Tree nodes.
pub mod btree;
pub mod page;
pub mod record;
pub mod table;

use vstd::prelude::*;
use vstd::bytes::*;

use crate::error::{Error, Result};

verus! {

broadcast use vstd::array::group_array_axioms;

/// The first bytes of every Skipper file: "SKPRDB" and two zero bytes.
pub const MAGIC: [u8; 8] = [83u8, 75u8, 80u8, 82u8, 68u8, 66u8, 0u8, 0u8];

/// The version of the file format.
pub const FORMAT_VERSION: u32 = 1;

/// The size of a page, in bytes.
pub const DEFAULT_PAGE_SIZE: u32 = 4096;

/// The number of bytes of a file header: magic, version, page size.
pub const HEADER_LEN: usize = 16;

/// The header at the start of the database's data file.
#[derive(Debug, Clone, PartialEq, Eq)]
pub struct FileHeader {
    pub magic: [u8; 8],
    pub version: u32,
    pub page_size: u32,
}

/// The bytes of a header: magic, then version and page size as u32 LE.
pub open spec fn header_bytes(version: u32, page_size: u32) -> Seq<u8> {
    MAGIC@ + spec_u32_to_le_bytes(version) + spec_u32_to_le_bytes(page_size)
}

/// The bytes of a new data file: the header of the current format, padded
/// with zeros to a page.
pub open spec fn new_data_file() -> Seq<u8> {
    header_bytes(FORMAT_VERSION, DEFAULT_PAGE_SIZE) + Seq::new((DEFAULT_PAGE_SIZE - HEADER_LEN) as nat, |i: int| 0u8)
}

/// The bytes start with the magic.
pub open spec fn has_magic(b: Seq<u8>) -> bool {
    b.len() >= 8 && b.take(8) == MAGIC@
}

/// The first bytes hold the magic.
pub fn starts_with_magic(bytes: &[u8]) -> (r: bool)
    ensures
        r == has_magic(bytes@),
{
    if bytes.len() < 8 {
        return false;
    }
    let magic = MAGIC;
    let mut i: usize = 0;
    while i < 8
        invariant
            bytes@.len() >= 8,
            magic@ == MAGIC@,
            i <= 8,
            forall|k: int| 0 <= k < i ==> bytes@[k] == magic@[k],
        decreases 8 - i,
    {
        if bytes[i] != magic[i] {
            assert(bytes@.take(8)[i as int] != MAGIC@[i as int]);
            return false;
        }
        i = i + 1;
    }
    assert(bytes@.take(8) =~= MAGIC@);
    true
}

impl FileHeader {
    /// The bytes `write` puts into a new data file.
    pub fn new_file_bytes() -> (r: Vec<u8>)
        ensures
            r@ == new_data_file(),
    {
        let mut out: Vec<u8> = Vec::new();
        let magic = MAGIC;
        let mut i: usize = 0;
        while i < 8
            invariant
                magic@ == MAGIC@,
                i <= 8,
                out@ == MAGIC@.take(i as int),
            decreases 8 - i,
        {
            out.push(magic[i]);
            assert(out@ =~= MAGIC@.take(i + 1));
            i = i + 1;
        }
        assert(MAGIC@.take(8) =~= MAGIC@);
        let mut v = u32_to_le_bytes(FORMAT_VERSION);
        out.append(&mut v);
        let mut p = u32_to_le_bytes(DEFAULT_PAGE_SIZE);
        out.append(&mut p);
        let ghost head = out@;
        let mut k: usize = HEADER_LEN;
        while k < 4096
            invariant
                HEADER_LEN <= k <= 4096,
                out@.len() == k,
                out@.take(HEADER_LEN as int) == head,
                forall|j: int| HEADER_LEN <= j < k ==> out@[j] == 0u8,
            decreases 4096 - k,
        {
            out.push(0u8);
            k = k + 1;
        }
        assert(head =~= header_bytes(FORMAT_VERSION, DEFAULT_PAGE_SIZE));
        assert(out@ =~= new_data_file());
        out
    }

    /// Reads a header from the first bytes of the data file at `path`:
    /// the magic must match and the version must be the current one.
    pub fn decode(path: String, bytes: &[u8]) -> (r: Result<FileHeader>)
        requires
            bytes@.len() >= HEADER_LEN,
        ensures
            !has_magic(bytes@) ==> (r matches Err(Error::NotASkipperDb(p)) && p@ == path@),
            has_magic(bytes@) && spec_u32_from_le_bytes(bytes@.subrange(8, 12)) != FORMAT_VERSION ==> r
                == Err::<FileHeader, Error>(Error::UnsupportedVersion(spec_u32_from_le_bytes(bytes@.subrange(8, 12)))),
            has_magic(bytes@) && spec_u32_from_le_bytes(bytes@.subrange(8, 12)) == FORMAT_VERSION ==> (r matches Ok(h) && h.magic@
                == MAGIC@ && h.version == FORMAT_VERSION && h.page_size == spec_u32_from_le_bytes(bytes@.subrange(12, 16))),
    {
        if !starts_with_magic(bytes) {
            return Err(Error::NotASkipperDb(path));
        }
        let version = u32_from_le_bytes(vstd::slice::slice_subrange(bytes, 8, 12));
        let page_size = u32_from_le_bytes(vstd::slice::slice_subrange(bytes, 12, 16));
        if version != FORMAT_VERSION {
            return Err(Error::UnsupportedVersion(version));
        }
        Ok(FileHeader { magic: MAGIC, version, page_size })
    }
}

/// A data file written by `new_file_bytes` reads back as a header of the
/// current version and page size.
pub proof fn lemma_header_roundtrip()
    ensures
        has_magic(new_data_file()),
        spec_u32_from_le_bytes(new_data_file().subrange(8, 12)) == FORMAT_VERSION,
        spec_u32_from_le_bytes(new_data_file().subrange(12, 16)) == DEFAULT_PAGE_SIZE,
{
    lemma_auto_spec_u32_to_from_le_bytes();
    let b = new_data_file();
    assert(b.take(8) =~= MAGIC@);
    assert(b.subrange(8, 12) =~= spec_u32_to_le_bytes(FORMAT_VERSION));
    assert(b.subrange(12, 16) =~= spec_u32_to_le_bytes(DEFAULT_PAGE_SIZE));
}

} // verus!
