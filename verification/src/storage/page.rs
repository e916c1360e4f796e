//! Slotted pages: a fixed-size page that holds variable-length records.
//!
//! Layout: bytes 0..2 hold the slot count and bytes 2..4 the start of the
//! cell area (the free-space pointer), both u16 little-endian. The slot
//! directory follows from byte 4 on, four bytes per slot: the record's
//! offset and its length, u16 LE each; offset 0 marks a dead slot. Record
//! cells are packed from the end of the page towards the directory; the gap
//! between them is free space.

use vstd::prelude::*;


verus! {

broadcast use vstd::array::group_array_axioms;

/// The size of a page in bytes.
pub const PAGE_SIZE: usize = 4096;

/// The position of a record in the slot directory of its page.
pub type SlotId = u16;

/// Bytes before the slot directory: slot count and free-space pointer.
pub const PAGE_HEADER: usize = 4;

/// Bytes of one slot directory entry: offset and length.
pub const SLOT_SIZE: usize = 4;

/// The u16 stored little-endian at `i`.
pub open spec fn u16_at(b: Seq<u8>, i: int) -> int {
    b[i] as int + 256 * (b[i + 1] as int)
}

/// The number of slots in the directory, dead ones included.
pub open spec fn slot_count_of(b: Seq<u8>) -> int {
    u16_at(b, 0)
}

/// The start of the cell area.
pub open spec fn free_ptr_of(b: Seq<u8>) -> int {
    u16_at(b, 2)
}

/// The end of the slot directory.
pub open spec fn dir_end(b: Seq<u8>) -> int {
    PAGE_HEADER + SLOT_SIZE * slot_count_of(b)
}

/// The bytes left for one more record once its slot entry is taken: the
/// gap between directory and cells less one entry, or 0 when the header
/// leaves no such gap.
pub open spec fn free_space_of(b: Seq<u8>) -> int {
    if dir_end(b) + SLOT_SIZE <= free_ptr_of(b) <= PAGE_SIZE {
        free_ptr_of(b) - dir_end(b) - SLOT_SIZE
    } else {
        0
    }
}

/// A record of `n` bytes fits: the header leaves a gap for one more slot
/// entry, and `n` bytes remain besides it.
pub open spec fn record_fits(b: Seq<u8>, n: int) -> bool {
    &&& dir_end(b) + SLOT_SIZE <= free_ptr_of(b) <= PAGE_SIZE
    &&& n <= free_space_of(b)
}

/// The offset of the record in slot `s`.
pub open spec fn slot_offset(b: Seq<u8>, s: int) -> int {
    u16_at(b, PAGE_HEADER + SLOT_SIZE * s)
}

/// The length of the record in slot `s`.
pub open spec fn slot_len(b: Seq<u8>, s: int) -> int {
    u16_at(b, PAGE_HEADER + SLOT_SIZE * s + 2)
}

/// The record in slot `s`: `None` when the slot is outside the directory or
/// the page, dead, or points past the end of the page.
pub open spec fn slot_record(b: Seq<u8>, s: int) -> Option<Seq<u8>> {
    if 0 <= s < slot_count_of(b) && PAGE_HEADER + SLOT_SIZE * (s + 1) <= PAGE_SIZE {
        let off = slot_offset(b, s);
        let len = slot_len(b, s);
        if off != 0 && off + len <= PAGE_SIZE {
            Some(b.subrange(off, off + len))
        } else {
            None
        }
    } else {
        None
    }
}

/// The records of a page, slot by slot.
pub open spec fn page_records(b: Seq<u8>) -> Seq<Option<Seq<u8>>> {
    Seq::new(slot_count_of(b) as nat, |s: int| slot_record(b, s))
}

/// A page whose header and directory are consistent: the directory ends
/// before the cell area, and every live record lies within the cell area.
pub open spec fn page_wf(b: Seq<u8>) -> bool {
    &&& b.len() == PAGE_SIZE
    &&& dir_end(b) <= free_ptr_of(b) <= PAGE_SIZE
    &&& forall|s: int|
        0 <= s < slot_count_of(b) ==> #[trigger] slot_offset(b, s) == 0 || (free_ptr_of(b) <= slot_offset(b, s)
            && slot_offset(b, s) + slot_len(b, s) <= PAGE_SIZE)
}

/// The bytes of a fresh page: no slots, the cell area empty at the end.
pub open spec fn empty_page() -> Seq<u8> {
    Seq::new(PAGE_SIZE as nat, |i: int| if i == 3 { 16u8 } else { 0u8 })
}

/// The two bytes of a u16, little-endian.
pub open spec fn u16_le(v: int) -> Seq<u8> {
    seq![(v % 256) as u8, (v / 256) as u8]
}

/// The page after a record that fits is added: the record packed right
/// before the cell area, a slot entry for it after the directory, and the
/// header counting one more slot and pointing at the new cell.
pub open spec fn inserted_bytes(b: Seq<u8>, rec: Seq<u8>) -> Seq<u8> {
    let start = free_ptr_of(b) - rec.len();
    let end = dir_end(b);
    splice(
        splice(splice(splice(splice(b, start, rec), end, u16_le(start)), end + 2, u16_le(rec.len() as int)), 0, u16_le(slot_count_of(b) + 1)),
        2,
        u16_le(start),
    )
}

/// A fixed-size page holding variable-length records.
pub struct SlottedPage {
    bytes: [u8; PAGE_SIZE],
}

impl View for SlottedPage {
    type V = Seq<u8>;

    closed spec fn view(&self) -> Seq<u8> {
        self.bytes@
    }
}

fn read_u16(bytes: &[u8; PAGE_SIZE], at: usize) -> (r: usize)
    requires
        at + 1 < PAGE_SIZE,
    ensures
        r == u16_at(bytes@, at as int),
        r < 65536,
{
    bytes[at] as usize + 256 * (bytes[at + 1] as usize)
}

fn write_u16(bytes: &mut [u8; PAGE_SIZE], at: usize, v: usize)
    requires
        at + 1 < PAGE_SIZE,
        v < 65536,
    ensures
        final(bytes)@.len() == PAGE_SIZE,
        u16_at(final(bytes)@, at as int) == v,
        final(bytes)@[at as int] == (v % 256) as u8,
        final(bytes)@[at + 1] == (v / 256) as u8,
        forall|i: int| 0 <= i < PAGE_SIZE && i != at && i != at + 1 ==> final(bytes)@[i] == old(bytes)@[i],
{
    bytes[at] = (v % 256) as u8;
    bytes[at + 1] = (v / 256) as u8;
}

proof fn lemma_u16_frame(a: Seq<u8>, b: Seq<u8>, i: int)
    requires
        a[i] == b[i],
        a[i + 1] == b[i + 1],
    ensures
        u16_at(a, i) == u16_at(b, i),
{
}

proof fn lemma_inserted_bytes(b: Seq<u8>, nb: Seq<u8>, rec: Seq<u8>)
    requires
        b.len() == PAGE_SIZE,
        nb.len() == PAGE_SIZE,
        PAGE_HEADER + SLOT_SIZE <= dir_end(b) + SLOT_SIZE <= free_ptr_of(b) - rec.len(),
        free_ptr_of(b) <= PAGE_SIZE,
        forall|i: int| 0 <= i < rec.len() ==> nb[free_ptr_of(b) - rec.len() + i] == rec[i],
        nb[0] == ((slot_count_of(b) + 1) % 256) as u8,
        nb[1] == ((slot_count_of(b) + 1) / 256) as u8,
        nb[2] == ((free_ptr_of(b) - rec.len()) % 256) as u8,
        nb[3] == ((free_ptr_of(b) - rec.len()) / 256) as u8,
        nb[dir_end(b)] == ((free_ptr_of(b) - rec.len()) % 256) as u8,
        nb[dir_end(b) + 1] == ((free_ptr_of(b) - rec.len()) / 256) as u8,
        nb[dir_end(b) + 2] == (rec.len() % 256) as u8,
        nb[dir_end(b) + 3] == (rec.len() / 256) as u8,
        forall|i: int|
            4 <= i < PAGE_SIZE && !(dir_end(b) <= i < dir_end(b) + 4) && !(free_ptr_of(b) - rec.len() <= i < free_ptr_of(b))
                ==> nb[i] == b[i],
    ensures
        nb == inserted_bytes(b, rec),
{
    let start = free_ptr_of(b) - rec.len();
    let end = dir_end(b);
    let s1 = splice(b, start, rec);
    let s2 = splice(s1, end, u16_le(start));
    let s3 = splice(s2, end + 2, u16_le(rec.len() as int));
    let s4 = splice(s3, 0, u16_le(slot_count_of(b) + 1));
    let s5 = splice(s4, 2, u16_le(start));
    assert forall|i: int| 0 <= i < PAGE_SIZE implies #[trigger] nb[i] == s5[i] by {
        if start <= i < start + rec.len() {
            assert(s1[i] == rec[i - start]);
        }
    }
    assert(nb =~= s5);
}

impl SlottedPage {
    /// A fresh, empty page: zero slots, free-space pointer at the end.
    pub fn new() -> (r: Self)
        ensures
            r@ == empty_page(),
            page_wf(r@),
            page_records(r@) == Seq::<Option<Seq<u8>>>::empty(),
            free_space_of(r@) == PAGE_SIZE - PAGE_HEADER - SLOT_SIZE,
    {
        let mut bytes = [0u8; PAGE_SIZE];
        bytes[3] = 16;
        assert(bytes@ =~= empty_page());
        let r = SlottedPage { bytes };
        assert(page_records(r@) =~= Seq::<Option<Seq<u8>>>::empty());
        r
    }

    /// Wraps a page-sized buffer read from disk.
    pub fn from_bytes(bytes: [u8; PAGE_SIZE]) -> (r: Self)
        ensures
            r@ == bytes@,
    {
        SlottedPage { bytes }
    }

    /// The bytes of the page, as they go to disk.
    pub fn as_bytes(&self) -> (r: &[u8; PAGE_SIZE])
        ensures
            r@ == self@,
    {
        &self.bytes
    }

    /// The number of slots in the directory, dead ones included.
    pub fn slot_count(&self) -> (r: usize)
        ensures
            r == slot_count_of(self@),
    {
        read_u16(&self.bytes, 0)
    }

    /// The bytes available for one more record plus its slot entry.
    pub fn free_space(&self) -> (r: usize)
        ensures
            r == free_space_of(self@),
    {
        let count = read_u16(&self.bytes, 0);
        let free = read_u16(&self.bytes, 2);
        let end = PAGE_HEADER + SLOT_SIZE * count;
        if end + SLOT_SIZE <= free && free <= PAGE_SIZE {
            free - end - SLOT_SIZE
        } else {
            0
        }
    }

    /// The record in `slot`, or `None` if the slot is out of range or dead.
    pub fn get(&self, slot: SlotId) -> (r: Option<&[u8]>)
        ensures
            match slot_record(self@, slot as int) {
                Some(rec) => r matches Some(s) && s@ == rec,
                None => r is None,
            },
    {
        let count = read_u16(&self.bytes, 0);
        let s = slot as usize;
        if s >= count || PAGE_HEADER + SLOT_SIZE * (s + 1) > PAGE_SIZE {
            return None;
        }
        let entry = PAGE_HEADER + SLOT_SIZE * s;
        let off = read_u16(&self.bytes, entry);
        let len = read_u16(&self.bytes, entry + 2);
        if off == 0 || off + len > PAGE_SIZE {
            return None;
        }
        Some(vstd::slice::slice_subrange(self.bytes.as_slice(), off, off + len))
    }

    /// Copies `record` into a cell and appends a slot for it; returns the
    /// slot, or `None` (leaving the page as it was) if it does not fit.
    pub fn insert(&mut self, record: &[u8]) -> (r: Option<SlotId>)
        ensures
            r is Some <==> record_fits(old(self)@, record@.len() as int),
            r is None ==> final(self)@ == old(self)@,
            r is Some ==> final(self)@ == inserted_bytes(old(self)@, record@),
            r matches Some(id) ==> {
                &&& id as int == slot_count_of(old(self)@)
                &&& slot_count_of(final(self)@) == id + 1
                &&& slot_record(final(self)@, id as int) == Some(record@)
            },
            r is Some && page_wf(old(self)@) ==> {
                &&& page_wf(final(self)@)
                &&& page_records(final(self)@) == page_records(old(self)@).push(Some(record@))
                &&& free_space_of(final(self)@) == if free_space_of(old(self)@) >= record@.len() + SLOT_SIZE {
                    free_space_of(old(self)@) - record@.len() - SLOT_SIZE
                } else {
                    0
                }
            },
    {
        let ghost old_b = self@;
        let count = read_u16(&self.bytes, 0);
        let free = read_u16(&self.bytes, 2);
        let end = PAGE_HEADER + SLOT_SIZE * count;
        if !(end + SLOT_SIZE <= free && free <= PAGE_SIZE) {
            return None;
        }
        let len = record.len();
        if len > free - end - SLOT_SIZE {
            return None;
        }
        let start = free - len;
        let mut k: usize = 0;
        while k < len
            invariant
                old_b == old(self)@,
                self@.len() == PAGE_SIZE,
                start + len == free,
                free <= PAGE_SIZE,
                end + SLOT_SIZE <= start,
                len == record@.len(),
                k <= len,
                forall|i: int| 0 <= i < k ==> self@[start + i] == record@[i],
                forall|i: int| 0 <= i < PAGE_SIZE && !(start <= i < start + k) ==> self@[i] == old_b[i],
            decreases len - k,
        {
            self.bytes[start + k] = record[k];
            k = k + 1;
        }
        let ghost mid = self@;
        write_u16(&mut self.bytes, end, start);
        write_u16(&mut self.bytes, end + 2, len);
        write_u16(&mut self.bytes, 0, count + 1);
        write_u16(&mut self.bytes, 2, start);
        let ghost nb = self@;
        proof {
            assert(nb[end as int] == (start % 256) as u8 && nb[end + 1] == (start / 256) as u8);
            assert(nb[end + 2] == (len % 256) as u8 && nb[end + 3] == (len / 256) as u8);
            lemma_inserted_bytes(old_b, nb, record@);
            assert(forall|i: int| 4 <= i < PAGE_SIZE && !(end <= i < end + 4) ==> nb[i] == mid[i]);
            assert(nb.subrange(start as int, start + len) =~= record@);
            assert(slot_offset(nb, count as int) == start);
            assert(slot_len(nb, count as int) == len);
            if page_wf(old_b) {
                assert forall|s: int| 0 <= s < count implies #[trigger] slot_offset(nb, s) == slot_offset(old_b, s)
                    && slot_len(nb, s) == slot_len(old_b, s) by {
                    lemma_u16_frame(nb, old_b, PAGE_HEADER + SLOT_SIZE * s);
                    lemma_u16_frame(nb, old_b, PAGE_HEADER + SLOT_SIZE * s + 2);
                }
                assert forall|s: int| 0 <= s < count implies slot_record(nb, s) == slot_record(old_b, s) by {
                    assert(slot_offset(nb, s) == slot_offset(old_b, s));
                    let off = slot_offset(old_b, s);
                    let l = slot_len(old_b, s);
                    if off != 0 && off + l <= PAGE_SIZE {
                        assert(nb.subrange(off, off + l) =~= old_b.subrange(off, off + l));
                    }
                }
                assert(page_records(nb) =~= page_records(old_b).push(Some(record@)));
            }
        }
        Some(count as u16)
    }
}

/// The bytes `b` with `src` written over them from `at` on.
pub open spec fn splice(b: Seq<u8>, at: int, src: Seq<u8>) -> Seq<u8> {
    b.take(at) + src + b.skip(at + src.len())
}

/// Writes `src` into the page buffer from `at` on.
pub fn write_bytes(buf: &mut [u8; PAGE_SIZE], at: usize, src: &[u8])
    requires
        at + src@.len() <= PAGE_SIZE,
    ensures
        final(buf)@ == splice(old(buf)@, at as int, src@),
{
    let ghost b0 = buf@;
    let mut k: usize = 0;
    while k < src.len()
        invariant
            b0 == old(buf)@,
            buf@.len() == PAGE_SIZE,
            at + src@.len() <= PAGE_SIZE,
            k <= src@.len(),
            forall|i: int| 0 <= i < k ==> buf@[at + i] == src@[i],
            forall|i: int| 0 <= i < PAGE_SIZE && !(at <= i < at + k) ==> buf@[i] == b0[i],
        decreases src@.len() - k,
    {
        buf[at + k] = src[k];
        k = k + 1;
    }
    assert(buf@ =~= splice(b0, at as int, src@));
}

} // verus!
