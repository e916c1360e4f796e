use skipper_db::catalog::open;
use skipper_db::catalog::schema::{Column, Schema};
use skipper_db::error::Error;
use skipper_db::storage::page::{SlottedPage, PAGE_SIZE};
use skipper_db::storage::table::{
    meta_page, page_rows, parse_meta, place_record, read_row, rid_in_range, Rid, NO_INDEX,
    SCHEMA_OFFSET,
};
use skipper_db::storage::record::encode;
use skipper_db::storage::{FileHeader, DEFAULT_PAGE_SIZE, FORMAT_VERSION, MAGIC};
use skipper_db::types::{ColumnType, Value};

fn sample_schema() -> Schema {
    Schema::new(vec![
        Column {
            name: "id".to_string(),
            ty: ColumnType::Int,
            nullable: false,
        },
        Column {
            name: "name".to_string(),
            ty: ColumnType::Text,
            nullable: true,
        },
    ])
}

#[test]
fn write_then_read_roundtrip() {
    let bytes = FileHeader::new_file_bytes();
    assert_eq!(bytes.len(), DEFAULT_PAGE_SIZE as usize);
    let h = FileHeader::decode("skipper.dat".to_string(), &bytes).unwrap();
    assert_eq!(h.magic, MAGIC);
    assert_eq!(h.version, FORMAT_VERSION);
    assert_eq!(h.page_size, DEFAULT_PAGE_SIZE);
}

#[test]
fn read_rejects_non_skipper_file() {
    let bytes = vec![0u8; 4096];
    match FileHeader::decode("garbage.dat".to_string(), &bytes) {
        Err(Error::NotASkipperDb(p)) => assert_eq!(p, "garbage.dat"),
        _ => panic!("expected NotASkipperDb"),
    }
}

#[test]
fn open_rejects_other_versions() {
    let mut bytes = FileHeader::new_file_bytes();
    bytes[8] = 2;
    assert!(matches!(
        open("db/skipper.dat".to_string(), &bytes),
        Err(Error::UnsupportedVersion(2))
    ));
    let bytes = FileHeader::new_file_bytes();
    assert_eq!(open("db/skipper.dat".to_string(), &bytes).unwrap().version, 1);
}

#[test]
fn create_then_reopen_preserves_schema() {
    let meta = meta_page(&sample_schema()).unwrap();
    let schema = parse_meta("users.tbl".to_string(), &meta).unwrap();
    assert_eq!(schema, sample_schema());
}

#[test]
fn open_rejects_non_table() {
    let meta = [0u8; PAGE_SIZE];
    assert!(matches!(
        parse_meta("garbage.tbl".to_string(), &meta),
        Err(Error::NotASkipperDb(_))
    ));
}

#[test]
fn schema_too_large_for_meta_page() {
    let cols = (0..300)
        .map(|i| Column {
            name: format!("column_{i:04}"),
            ty: ColumnType::Int,
            nullable: true,
        })
        .collect();
    assert!(matches!(meta_page(&Schema::new(cols)), Err(Error::SchemaTooLarge)));
}

#[test]
fn meta_page_with_bad_schema_length_is_malformed() {
    let mut meta = meta_page(&sample_schema()).unwrap();
    meta[20] = 0xff;
    meta[21] = 0xff;
    assert!(matches!(
        parse_meta("t.tbl".to_string(), &meta),
        Err(Error::MalformedSchema)
    ));
}

#[test]
fn table_insert_then_get() {
    let schema = sample_schema();
    let values = vec![Value::Int(1), Value::Text("alice".to_string())];
    let record = encode(&schema, &values).unwrap();
    let (page_id, page, slot) = place_record(1, None, &record).unwrap();
    assert_eq!((page_id, slot), (1, 0));
    let rid = Rid { page: page_id, slot };
    assert!(rid_in_range(rid, 2));
    assert_eq!(read_row(&schema, &page, rid.slot).unwrap(), Some(values));
}

#[test]
fn get_unknown_rid_is_none() {
    assert!(!rid_in_range(Rid { page: 0, slot: 0 }, 5));
    assert!(!rid_in_range(Rid { page: 5, slot: 0 }, 5));
    let page = SlottedPage::new();
    assert_eq!(read_row(&sample_schema(), &page, 3).unwrap(), None);
}

#[test]
fn rows_span_multiple_pages() {
    let schema = sample_schema();
    let mut pages: Vec<SlottedPage> = Vec::new();
    let mut rids = Vec::new();
    for i in 0..500 {
        let values = vec![Value::Int(i), Value::Text(format!("row-{i:040}"))];
        let record = encode(&schema, &values).unwrap();
        let page_count = pages.len() as u32 + 1;
        let last = if page_count > 1 {
            Some(SlottedPage::from_bytes(*pages.last().unwrap().as_bytes()))
        } else {
            None
        };
        let (id, page, slot) = place_record(page_count, last, &record).unwrap();
        if id as usize == pages.len() + 1 {
            pages.push(page);
        } else {
            pages[id as usize - 1] = page;
        }
        rids.push(Rid { page: id, slot });
    }
    assert!(pages.len() > 1);
    let last = rids[499];
    let row = read_row(&schema, &pages[last.page as usize - 1], last.slot)
        .unwrap()
        .unwrap();
    assert_eq!(row[0], Value::Int(499));
    let mut all = Vec::new();
    for p in &pages {
        all.extend(page_rows(&schema, p).unwrap());
    }
    assert_eq!(all.len(), 500);
    assert_eq!(all[40][0], Value::Int(40));
}

#[test]
fn record_too_large_for_any_page() {
    let record = vec![0u8; PAGE_SIZE];
    assert!(matches!(
        place_record(1, None, &record),
        Err(Error::RecordTooLarge)
    ));
}

#[test]
fn rows_survive_reopen() {
    let schema = sample_schema();
    let row1 = vec![Value::Int(1), Value::Text("alice".to_string())];
    let row2 = vec![Value::Int(2), Value::Null];
    // the table as a file: the metadata page, then the data pages
    let mut file: Vec<u8> = meta_page(&schema).unwrap().to_vec();
    let mut rids = Vec::new();
    for row in [&row1, &row2] {
        let record = encode(&schema, row).unwrap();
        let page_count = (file.len() / PAGE_SIZE) as u32;
        let last = if page_count > 1 {
            let mut raw = [0u8; PAGE_SIZE];
            raw.copy_from_slice(&file[file.len() - PAGE_SIZE..]);
            Some(SlottedPage::from_bytes(raw))
        } else {
            None
        };
        let (id, page, slot) = place_record(page_count, last, &record).unwrap();
        let at = id as usize * PAGE_SIZE;
        if at == file.len() {
            file.extend_from_slice(page.as_bytes());
        } else {
            file[at..at + PAGE_SIZE].copy_from_slice(page.as_bytes());
        }
        rids.push(Rid { page: id, slot });
    }
    // reopening: the schema from page 0, each row fetched by its rid
    let reopened = parse_meta("users.tbl".to_string(), &file[..PAGE_SIZE]).unwrap();
    let page_count = (file.len() / PAGE_SIZE) as u32;
    let get = |rid: Rid| {
        if !rid_in_range(rid, page_count) {
            return None;
        }
        let at = rid.page as usize * PAGE_SIZE;
        let mut raw = [0u8; PAGE_SIZE];
        raw.copy_from_slice(&file[at..at + PAGE_SIZE]);
        read_row(&reopened, &SlottedPage::from_bytes(raw), rid.slot).unwrap()
    };
    assert_eq!(get(rids[0]), Some(row1));
    assert_eq!(get(rids[1]), Some(row2));
}

#[test]
fn meta_page_records_no_index_for_a_new_table() {
    let meta = meta_page(&sample_schema()).unwrap();
    assert_eq!(&meta[..8], &MAGIC[..]);
    assert_eq!(u32::from_le_bytes(meta[8..12].try_into().unwrap()), FORMAT_VERSION);
    assert_eq!(u32::from_le_bytes(meta[12..16].try_into().unwrap()), DEFAULT_PAGE_SIZE);
    assert_eq!(u32::from_le_bytes(meta[16..20].try_into().unwrap()), NO_INDEX);
    let len = u32::from_le_bytes(meta[20..24].try_into().unwrap()) as usize;
    assert_eq!(&meta[SCHEMA_OFFSET..SCHEMA_OFFSET + len], &sample_schema().serialize()[..]);
}
