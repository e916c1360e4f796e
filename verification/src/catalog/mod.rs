//! The database directory and table schemas.
pub mod schema;

use vstd::prelude::*;
use vstd::bytes::*;

use crate::error::{Error, Result};
use crate::storage::{FORMAT_VERSION, FileHeader, HEADER_LEN, MAGIC, has_magic};

verus! {

/// The name of the data file inside a database directory.
pub const DATA_FILE: &'static str = "skipper.dat";

/// Opens a database from the first bytes of its data file, found at
/// `data_path`: they must be a Skipper header of the current version.
pub fn open(data_path: String, header: &[u8]) -> (r: Result<FileHeader>)
    requires
        header@.len() >= HEADER_LEN,
    ensures
        !has_magic(header@) ==> (r matches Err(Error::NotASkipperDb(p)) && p@ == data_path@),
        has_magic(header@) && spec_u32_from_le_bytes(header@.subrange(8, 12)) != FORMAT_VERSION ==> r
            == Err::<FileHeader, Error>(Error::UnsupportedVersion(spec_u32_from_le_bytes(header@.subrange(8, 12)))),
        has_magic(header@) && spec_u32_from_le_bytes(header@.subrange(8, 12)) == FORMAT_VERSION ==> (r matches Ok(h)
            && h.magic@ == MAGIC@ && h.version == FORMAT_VERSION && h.page_size == spec_u32_from_le_bytes(
            header@.subrange(12, 16),
        )),
{
    FileHeader::decode(data_path, header)
}

} // verus!
