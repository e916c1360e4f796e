use skipper_db::storage::page::{SlottedPage, PAGE_SIZE};

#[test]
fn page_insert_then_get() {
    let mut page = SlottedPage::new();
    let a = page.insert(b"hello").unwrap();
    let b = page.insert(b"world!").unwrap();
    assert_eq!(a, 0);
    assert_eq!(b, 1);
    assert_eq!(page.get(a), Some(&b"hello"[..]));
    assert_eq!(page.get(b), Some(&b"world!"[..]));
    assert_eq!(page.get(2), None);
    assert_eq!(page.slot_count(), 2);
}

#[test]
fn new_page_layout() {
    let page = SlottedPage::new();
    assert_eq!(page.slot_count(), 0);
    assert_eq!(page.free_space(), PAGE_SIZE - 8);
    let bytes = page.as_bytes();
    assert_eq!(bytes[2], 0);
    assert_eq!(bytes[3], 16);
}

#[test]
fn insert_takes_record_and_slot_space() {
    let mut page = SlottedPage::new();
    let before = page.free_space();
    page.insert(&[7u8; 10]).unwrap();
    assert_eq!(page.free_space(), before - 10 - 4);
    let bytes = page.as_bytes();
    // the record is packed at the end of the page, the slot points at it
    assert_eq!(&bytes[PAGE_SIZE - 10..], &[7u8; 10]);
    assert_eq!(bytes[4] as usize + 256 * bytes[5] as usize, PAGE_SIZE - 10);
    assert_eq!(bytes[6] as usize + 256 * bytes[7] as usize, 10);
}

#[test]
fn full_page_refuses_record_and_stays_unchanged() {
    let mut page = SlottedPage::new();
    let big = vec![1u8; PAGE_SIZE - 8];
    assert_eq!(page.insert(&big), Some(0));
    assert_eq!(page.free_space(), 0);
    let before = page.as_bytes().to_vec();
    assert_eq!(page.insert(b"x"), None);
    assert_eq!(page.as_bytes().to_vec(), before);
    let mut fresh = SlottedPage::new();
    assert_eq!(fresh.insert(&vec![0u8; PAGE_SIZE - 7]), None);
}

#[test]
fn bytes_roundtrip_through_from_bytes() {
    let mut page = SlottedPage::new();
    page.insert(b"abc").unwrap();
    let copy = SlottedPage::from_bytes(*page.as_bytes());
    assert_eq!(copy.get(0), Some(&b"abc"[..]));
}

#[test]
fn dead_slot_reads_as_none() {
    let mut page = SlottedPage::new();
    page.insert(b"abc").unwrap();
    let mut raw = *page.as_bytes();
    raw[4] = 0;
    raw[5] = 0;
    let page = SlottedPage::from_bytes(raw);
    assert_eq!(page.get(0), None);
}
