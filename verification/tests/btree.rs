use skipper_db::error::Error;
use skipper_db::storage::btree::{child_index, index_meta_page, BTree, Node};
use skipper_db::storage::page::PAGE_SIZE;
use skipper_db::storage::table::Rid;

fn rid(k: i64) -> Rid {
    Rid {
        page: k as u32 + 1,
        slot: k as u16,
    }
}

#[test]
fn leaf_page_roundtrip() {
    let node = Node::Leaf {
        keys: vec![1, 5, 9],
        rids: vec![rid(1), rid(5), rid(9)],
        next: 42,
    };
    assert_eq!(Node::from_page(&node.to_page()).unwrap(), node);
}

#[test]
fn internal_page_roundtrip() {
    let node = Node::Internal {
        keys: vec![10, 20],
        children: vec![1, 2, 3],
    };
    assert_eq!(Node::from_page(&node.to_page()).unwrap(), node);
}

#[test]
fn from_page_rejects_unknown_tag() {
    let mut buf = [0u8; PAGE_SIZE];
    buf[0] = 9;
    assert!(matches!(Node::from_page(&buf), Err(Error::MalformedIndex)));
}

#[test]
fn leaf_page_layout() {
    let node = Node::Leaf {
        keys: vec![-2],
        rids: vec![Rid { page: 3, slot: 4 }],
        next: 7,
    };
    let page = node.to_page();
    assert_eq!(
        &page[..21],
        &[0, 1, 0, 7, 0, 0, 0, 254, 255, 255, 255, 255, 255, 255, 255, 3, 0, 0, 0, 4, 0]
    );
    assert!(page[21..].iter().all(|b| *b == 0));
}

#[test]
fn from_page_rejects_count_past_page_end() {
    let mut buf = [0u8; PAGE_SIZE];
    buf[1] = 0xff;
    buf[2] = 0xff;
    assert!(matches!(Node::from_page(&buf), Err(Error::MalformedIndex)));
    buf[0] = 1;
    assert!(matches!(Node::from_page(&buf), Err(Error::MalformedIndex)));
}

#[test]
fn empty_page_is_an_empty_leaf() {
    let buf = [0u8; PAGE_SIZE];
    assert_eq!(
        Node::from_page(&buf).unwrap(),
        Node::Leaf {
            keys: vec![],
            rids: vec![],
            next: 0
        }
    );
}


#[test]
fn find_on_empty_tree_is_none() {
    let tree = BTree::create();
    assert_eq!(tree.find(1).unwrap(), None);
}

#[test]
fn insert_then_find() {
    let mut tree = BTree::create();
    tree.insert(7, rid(7)).unwrap();
    assert_eq!(tree.find(7).unwrap(), Some(rid(7)));
    assert_eq!(tree.find(8).unwrap(), None);
}

#[test]
fn reinserting_key_replaces_rid() {
    let mut tree = BTree::create();
    tree.insert(7, rid(7)).unwrap();
    tree.insert(7, rid(99)).unwrap();
    assert_eq!(tree.find(7).unwrap(), Some(rid(99)));
}

#[test]
fn many_inserts_trigger_splits_and_stay_findable() {
    let mut tree = BTree::create();
    for k in 0..200 {
        tree.insert(k, rid(k)).unwrap();
    }
    for k in 0..200 {
        assert_eq!(tree.find(k).unwrap(), Some(rid(k)));
    }
    assert_eq!(tree.find(200).unwrap(), None);
    assert!(tree.root() != 1);
}

#[test]
fn descending_inserts_stay_findable() {
    let mut tree = BTree::create();
    for k in (0..100).rev() {
        tree.insert(k, rid(k)).unwrap();
    }
    for k in 0..100 {
        assert_eq!(tree.find(k).unwrap(), Some(rid(k)));
    }
}

#[test]
fn index_persists_after_reopen() {
    let mut tree = BTree::create();
    for k in 0..50 {
        tree.insert(k, rid(k)).unwrap();
    }
    let pages = tree.pages().clone();
    let tree = BTree::open("k.idx".to_string(), pages).unwrap();
    for k in 0..50 {
        assert_eq!(tree.find(k).unwrap(), Some(rid(k)));
    }
}

#[test]
fn open_checks_the_metadata_page() {
    assert!(matches!(
        BTree::open("k.idx".to_string(), vec![]),
        Err(Error::MissingPage(0))
    ));
    assert!(matches!(
        BTree::open("k.idx".to_string(), vec![[0u8; PAGE_SIZE]]),
        Err(Error::NotASkipperDb(_))
    ));
    let mut meta = BTree::create().pages()[0];
    meta[8] = 7;
    assert!(matches!(
        BTree::open("k.idx".to_string(), vec![meta]),
        Err(Error::UnsupportedVersion(7))
    ));
}

#[test]
fn find_reports_missing_and_malformed_pages() {
    let mut meta = BTree::create().pages()[0];
    meta[12] = 9;
    let tree = BTree::open("k.idx".to_string(), vec![meta]).unwrap();
    assert!(matches!(tree.find(1), Err(Error::MissingPage(9))));
    let mut meta = BTree::create().pages()[0];
    meta[12] = 0;
    let tree = BTree::open("k.idx".to_string(), vec![meta]).unwrap();
    assert!(matches!(tree.find(1), Err(Error::MalformedIndex)));
}

#[test]
fn child_index_sends_equal_keys_right() {
    let keys = vec![10, 20];
    assert_eq!(child_index(&keys, 5), 0);
    assert_eq!(child_index(&keys, 10), 1);
    assert_eq!(child_index(&keys, 15), 1);
    assert_eq!(child_index(&keys, 20), 2);
    assert_eq!(child_index(&keys, 99), 2);
}

#[test]
fn random_order_inserts_match_a_map() {
    let mut tree = BTree::create();
    let mut expected = std::collections::BTreeMap::new();
    let mut x: i64 = 12345;
    for _ in 0..300 {
        x = (x * 1103515245 + 12345) % 1000;
        let r = rid(x);
        tree.insert(x - 500, r).unwrap();
        expected.insert(x - 500, r);
    }
    for k in -510..510 {
        assert_eq!(tree.find(k).unwrap(), expected.get(&k).copied());
    }
}

#[test]
fn page_zero_records_the_root_after_splits() {
    let mut tree = BTree::create();
    for k in 0..100 {
        tree.insert(k, rid(k)).unwrap();
    }
    assert_ne!(tree.root(), 1);
    let meta = tree.pages()[0];
    assert_eq!(u32::from_le_bytes(meta[12..16].try_into().unwrap()), tree.root());
    assert_eq!(meta, index_meta_page(tree.root()));
}
