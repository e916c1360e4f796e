//! B+Tree index nodes and their page format.
//!
//! One node per page. A leaf page holds tag 0, the key count (u16 LE), the
//! next leaf's page (u32 LE), then per entry the key (i64 LE), the row's
//! page (u32 LE) and slot (u16 LE). An internal page holds tag 1, the key
//! count, the keys, then the child pages (u32 LE), one more than keys.

use vstd::prelude::*;
use vstd::bytes::*;

use crate::error::{Error, Result};
use crate::storage::page::{PAGE_SIZE, splice, write_bytes};
use crate::storage::table::Rid;
use crate::storage::{FORMAT_VERSION, MAGIC, has_magic, starts_with_magic};

verus! {

broadcast use vstd::array::group_array_axioms;

/// At most this many keys stay in a node; one more makes it split.
pub const MAX_KEYS: usize = 4;

/// The tag byte of a leaf page.
pub const LEAF_TAG: u8 = 0;

/// The tag byte of an internal page.
pub const INTERNAL_TAG: u8 = 1;

/// A node of the tree.
#[derive(Debug, Clone, PartialEq, Eq)]
pub enum Node {
    Leaf { keys: Vec<i64>, rids: Vec<Rid>, next: u32 },
    Internal { keys: Vec<i64>, children: Vec<u32> },
}

/// The model of a node.
#[allow(inconsistent_fields)]
pub ghost enum NodeV {
    Leaf { keys: Seq<i64>, rids: Seq<Rid>, next: u32 },
    Internal { keys: Seq<i64>, children: Seq<u32> },
}

impl View for Node {
    type V = NodeV;

    open spec fn view(&self) -> NodeV {
        match self {
            Node::Leaf { keys, rids, next } => NodeV::Leaf { keys: keys@, rids: rids@, next: *next },
            Node::Internal { keys, children } => NodeV::Internal { keys: keys@, children: children@ },
        }
    }
}

/// The bytes of a key.
pub open spec fn key_le(k: i64) -> Seq<u8> {
    spec_u64_to_le_bytes(k as u64)
}

/// One leaf entry: key, row page, row slot.
pub open spec fn leaf_entry(k: i64, r: Rid) -> Seq<u8> {
    key_le(k) + spec_u32_to_le_bytes(r.page) + spec_u16_to_le_bytes(r.slot)
}

/// The first `m` leaf entries.
pub open spec fn leaf_entries(keys: Seq<i64>, rids: Seq<Rid>, m: nat) -> Seq<u8>
    decreases m,
{
    if m == 0 {
        Seq::empty()
    } else {
        leaf_entries(keys, rids, (m - 1) as nat) + leaf_entry(keys[m - 1], rids[m - 1])
    }
}

/// The first `m` keys.
pub open spec fn keys_bytes(keys: Seq<i64>, m: nat) -> Seq<u8>
    decreases m,
{
    if m == 0 {
        Seq::empty()
    } else {
        keys_bytes(keys, (m - 1) as nat) + key_le(keys[m - 1])
    }
}

/// The first `m` child pages.
pub open spec fn children_bytes(children: Seq<u32>, m: nat) -> Seq<u8>
    decreases m,
{
    if m == 0 {
        Seq::empty()
    } else {
        children_bytes(children, (m - 1) as nat) + spec_u32_to_le_bytes(children[m - 1])
    }
}

/// Bytes padded with zeros to a page.
pub open spec fn pad_page(b: Seq<u8>) -> Seq<u8> {
    b + Seq::new((PAGE_SIZE - b.len()) as nat, |i: int| 0u8)
}

/// The smaller of two lengths.
pub open spec fn min_len(a: nat, b: nat) -> nat {
    if a <= b { a } else { b }
}

/// The page of a node. A leaf writes as many entries as it has both keys
/// and rows for; both kinds record the number of keys.
pub open spec fn node_bytes(n: NodeV) -> Seq<u8> {
    match n {
        NodeV::Leaf { keys, rids, next } => pad_page(
            seq![LEAF_TAG] + spec_u16_to_le_bytes(keys.len() as u16) + spec_u32_to_le_bytes(next)
                + leaf_entries(keys, rids, min_len(keys.len(), rids.len())),
        ),
        NodeV::Internal { keys, children } => pad_page(
            seq![INTERNAL_TAG] + spec_u16_to_le_bytes(keys.len() as u16) + keys_bytes(keys, keys.len())
                + children_bytes(children, children.len()),
        ),
    }
}

/// The node's entries fit in a page.
pub open spec fn node_fits(n: NodeV) -> bool {
    match n {
        NodeV::Leaf { keys, rids, .. } => 7 + 14 * min_len(keys.len(), rids.len()) <= PAGE_SIZE,
        NodeV::Internal { keys, children } => 3 + 8 * keys.len() + 4 * children.len() <= PAGE_SIZE,
    }
}

/// A node as the tree builds them: a row for every key of a leaf, one child
/// more than keys in an internal node.
pub open spec fn node_shape_ok(n: NodeV) -> bool {
    match n {
        NodeV::Leaf { keys, rids, .. } => keys.len() == rids.len(),
        NodeV::Internal { keys, children } => children.len() == keys.len() + 1,
    }
}

/// The key stored at `at`.
pub open spec fn key_at(b: Seq<u8>, at: int) -> i64 {
    spec_u64_from_le_bytes(b.subrange(at, at + 8)) as i64
}

/// The u32 stored little-endian at `at`.
pub open spec fn u32_le_at(b: Seq<u8>, at: int) -> u32 {
    spec_u32_from_le_bytes(b.subrange(at, at + 4))
}

/// The u16 stored little-endian at `at`.
pub open spec fn u16_le_at(b: Seq<u8>, at: int) -> u16 {
    spec_u16_from_le_bytes(b.subrange(at, at + 2))
}

/// The keys of a leaf page with `n` entries.
pub open spec fn leaf_keys_of(b: Seq<u8>, n: nat) -> Seq<i64> {
    Seq::new(n, |i: int| key_at(b, 7 + 14 * i))
}

/// The row addresses of a leaf page with `n` entries.
pub open spec fn leaf_rids_of(b: Seq<u8>, n: nat) -> Seq<Rid> {
    Seq::new(n, |i: int| Rid { page: u32_le_at(b, 7 + 14 * i + 8), slot: u16_le_at(b, 7 + 14 * i + 12) })
}

/// The keys of an internal page with `n` keys.
pub open spec fn internal_keys_of(b: Seq<u8>, n: nat) -> Seq<i64> {
    Seq::new(n, |i: int| key_at(b, 3 + 8 * i))
}

/// The child pages of an internal page with `n` keys.
pub open spec fn internal_children_of(b: Seq<u8>, n: nat) -> Seq<u32> {
    Seq::new(n + 1, |i: int| u32_le_at(b, 3 + 8 * n + 4 * i))
}

/// The node a page holds, or `None` when its tag is unknown or its count
/// runs past the end of the page.
pub open spec fn parse_node(b: Seq<u8>) -> Option<NodeV> {
    let count = u16_le_at(b, 1) as nat;
    if b[0] == LEAF_TAG {
        if 7 + count * 14 > PAGE_SIZE {
            None
        } else {
            Some(NodeV::Leaf { keys: leaf_keys_of(b, count), rids: leaf_rids_of(b, count), next: u32_le_at(b, 3) })
        }
    } else if b[0] == INTERNAL_TAG {
        if 3 + count * 8 + (count + 1) * 4 > PAGE_SIZE {
            None
        } else {
            Some(NodeV::Internal { keys: internal_keys_of(b, count), children: internal_children_of(b, count) })
        }
    } else {
        None
    }
}

proof fn lemma_leaf_entries(keys: Seq<i64>, rids: Seq<Rid>, m: nat, i: int)
    requires
        0 <= i < m,
    ensures
        leaf_entries(keys, rids, m).len() == 14 * m,
        leaf_entries(keys, rids, m).subrange(14 * i, 14 * i + 14) == leaf_entry(keys[i], rids[i]),
    decreases m,
{
    lemma_auto_spec_u64_to_from_le_bytes();
    lemma_auto_spec_u32_to_from_le_bytes();
    lemma_auto_spec_u16_to_from_le_bytes();
    lemma_leaf_entries_len(keys, rids, (m - 1) as nat);
    if i < m - 1 {
        lemma_leaf_entries(keys, rids, (m - 1) as nat, i);
        assert(leaf_entries(keys, rids, m).subrange(14 * i, 14 * i + 14) =~= leaf_entries(
            keys,
            rids,
            (m - 1) as nat,
        ).subrange(14 * i, 14 * i + 14));
    } else {
        assert(leaf_entries(keys, rids, m).subrange(14 * i, 14 * i + 14) =~= leaf_entry(keys[i], rids[i]));
    }
}

proof fn lemma_leaf_entries_len(keys: Seq<i64>, rids: Seq<Rid>, m: nat)
    ensures
        leaf_entries(keys, rids, m).len() == 14 * m,
    decreases m,
{
    lemma_auto_spec_u64_to_from_le_bytes();
    lemma_auto_spec_u32_to_from_le_bytes();
    lemma_auto_spec_u16_to_from_le_bytes();
    if m > 0 {
        lemma_leaf_entries_len(keys, rids, (m - 1) as nat);
    }
}

proof fn lemma_keys_bytes(keys: Seq<i64>, m: nat, i: int)
    requires
        0 <= i < m,
    ensures
        keys_bytes(keys, m).len() == 8 * m,
        keys_bytes(keys, m).subrange(8 * i, 8 * i + 8) == key_le(keys[i]),
    decreases m,
{
    lemma_auto_spec_u64_to_from_le_bytes();
    lemma_keys_bytes_len(keys, (m - 1) as nat);
    if i < m - 1 {
        lemma_keys_bytes(keys, (m - 1) as nat, i);
        assert(keys_bytes(keys, m).subrange(8 * i, 8 * i + 8) =~= keys_bytes(keys, (m - 1) as nat).subrange(
            8 * i,
            8 * i + 8,
        ));
    } else {
        assert(keys_bytes(keys, m).subrange(8 * i, 8 * i + 8) =~= key_le(keys[i]));
    }
}

proof fn lemma_keys_bytes_len(keys: Seq<i64>, m: nat)
    ensures
        keys_bytes(keys, m).len() == 8 * m,
    decreases m,
{
    lemma_auto_spec_u64_to_from_le_bytes();
    if m > 0 {
        lemma_keys_bytes_len(keys, (m - 1) as nat);
    }
}

proof fn lemma_children_bytes(children: Seq<u32>, m: nat, i: int)
    requires
        0 <= i < m,
    ensures
        children_bytes(children, m).len() == 4 * m,
        children_bytes(children, m).subrange(4 * i, 4 * i + 4) == spec_u32_to_le_bytes(children[i]),
    decreases m,
{
    lemma_auto_spec_u32_to_from_le_bytes();
    lemma_children_bytes_len(children, (m - 1) as nat);
    if i < m - 1 {
        lemma_children_bytes(children, (m - 1) as nat, i);
        assert(children_bytes(children, m).subrange(4 * i, 4 * i + 4) =~= children_bytes(
            children,
            (m - 1) as nat,
        ).subrange(4 * i, 4 * i + 4));
    } else {
        assert(children_bytes(children, m).subrange(4 * i, 4 * i + 4) =~= spec_u32_to_le_bytes(children[i]));
    }
}

proof fn lemma_children_bytes_len(children: Seq<u32>, m: nat)
    ensures
        children_bytes(children, m).len() == 4 * m,
    decreases m,
{
    lemma_auto_spec_u32_to_from_le_bytes();
    if m > 0 {
        lemma_children_bytes_len(children, (m - 1) as nat);
    }
}

proof fn lemma_key_roundtrip(k: i64)
    ensures
        spec_u64_from_le_bytes(key_le(k)) as i64 == k,
{
    lemma_auto_spec_u64_to_from_le_bytes();
    assert(((k as u64) as i64) == k) by (bit_vector);
}

impl Node {
    /// The page that holds this node.
    pub fn to_page(&self) -> (r: [u8; PAGE_SIZE])
        requires
            node_fits(self@),
        ensures
            r@ == node_bytes(self@),
    {
        let mut content: Vec<u8> = Vec::new();
        match self {
            Node::Leaf { keys, rids, next } => {
                content.push(LEAF_TAG);
                let mut c = u16_to_le_bytes(keys.len() as u16);
                content.append(&mut c);
                let mut nb = u32_to_le_bytes(*next);
                content.append(&mut nb);
                let ghost head = content@;
                let m = if keys.len() <= rids.len() { keys.len() } else { rids.len() };
                proof {
                    lemma_leaf_entries_len(keys@, rids@, m as nat);
                    assert(content@ =~= head + leaf_entries(keys@, rids@, 0));
                }
                let mut i: usize = 0;
                while i < m
                    invariant
                        m == min_len(keys@.len(), rids@.len()),
                        7 + 14 * m <= PAGE_SIZE,
                        head.len() == 7,
                        head == seq![LEAF_TAG] + spec_u16_to_le_bytes(keys@.len() as u16) + spec_u32_to_le_bytes(*next),
                        i <= m,
                        content@ == head + leaf_entries(keys@, rids@, i as nat),
                    decreases m - i,
                {
                    let ghost before = content@;
                    let mut kb = u64_to_le_bytes(keys[i] as u64);
                    content.append(&mut kb);
                    let mut pb = u32_to_le_bytes(rids[i].page);
                    content.append(&mut pb);
                    let mut sb = u16_to_le_bytes(rids[i].slot);
                    content.append(&mut sb);
                    assert(content@ =~= before + leaf_entry(keys@[i as int], rids@[i as int]));
                    i = i + 1;
                }
                proof {
                    lemma_leaf_entries_len(keys@, rids@, m as nat);
                }
            },
            Node::Internal { keys, children } => {
                content.push(INTERNAL_TAG);
                let mut c = u16_to_le_bytes(keys.len() as u16);
                content.append(&mut c);
                let ghost head = content@;
                proof {
                    assert(content@ =~= head + keys_bytes(keys@, 0));
                }
                let mut i: usize = 0;
                while i < keys.len()
                    invariant
                        3 + 8 * keys@.len() + 4 * children@.len() <= PAGE_SIZE,
                        head.len() == 3,
                        head == seq![INTERNAL_TAG] + spec_u16_to_le_bytes(keys@.len() as u16),
                        i <= keys@.len(),
                        content@ == head + keys_bytes(keys@, i as nat),
                    decreases keys@.len() - i,
                {
                    let ghost before = content@;
                    let mut kb = u64_to_le_bytes(keys[i] as u64);
                    content.append(&mut kb);
                    assert(content@ =~= before + key_le(keys@[i as int]));
                    i = i + 1;
                }
                let ghost mid = content@;
                proof {
                    lemma_keys_bytes_len(keys@, keys@.len());
                    assert(content@ =~= mid + children_bytes(children@, 0));
                }
                let mut j: usize = 0;
                while j < children.len()
                    invariant
                        3 + 8 * keys@.len() + 4 * children@.len() <= PAGE_SIZE,
                        mid.len() == 3 + 8 * keys@.len(),
                        mid == head + keys_bytes(keys@, keys@.len()),
                        head == seq![INTERNAL_TAG] + spec_u16_to_le_bytes(keys@.len() as u16),
                        j <= children@.len(),
                        content@ == mid + children_bytes(children@, j as nat),
                    decreases children@.len() - j,
                {
                    proof {
                        lemma_children_bytes_len(children@, j as nat);
                    }
                    let ghost before = content@;
                    let mut cb = u32_to_le_bytes(children[j]);
                    content.append(&mut cb);
                    assert(content@ =~= before + spec_u32_to_le_bytes(children@[j as int]));
                    j = j + 1;
                }
                proof {
                    lemma_children_bytes_len(children@, children@.len());
                }
            },
        }
        let mut buf = [0u8; PAGE_SIZE];
        let ghost zero = buf@;
        write_bytes(&mut buf, 0, content.as_slice());
        assert(buf@ =~= pad_page(content@)) by {
            assert forall|i: int| content@.len() <= i < PAGE_SIZE implies buf@[i] == 0u8 by {
                assert(zero[i] == 0u8);
            }
        }
        buf
    }

    /// The node a page holds; `MalformedIndex` for an unknown tag or a
    /// count that runs past the end of the page.
    pub fn from_page(buf: &[u8; PAGE_SIZE]) -> (r: Result<Node>)
        ensures
            match parse_node(buf@) {
                Some(n) => r matches Ok(node) && node@ == n,
                None => r == Err::<Node, Error>(Error::MalformedIndex),
            },
    {
        let b = buf.as_slice();
        let ghost bv = buf@;
        let count = u16_from_le_bytes(vstd::slice::slice_subrange(b, 1, 3)) as usize;
        let tag = b[0];
        if tag == LEAF_TAG {
            if 7 + count * 14 > PAGE_SIZE {
                return Err(Error::MalformedIndex);
            }
            let next = u32_from_le_bytes(vstd::slice::slice_subrange(b, 3, 7));
            let mut keys: Vec<i64> = Vec::new();
            let mut rids: Vec<Rid> = Vec::new();
            let mut i: usize = 0;
            while i < count
                invariant
                    b@ == bv,
                    bv.len() == PAGE_SIZE,
                    7 + count * 14 <= PAGE_SIZE,
                    i <= count,
                    keys@ == leaf_keys_of(bv, count as nat).take(i as int),
                    rids@ == leaf_rids_of(bv, count as nat).take(i as int),
                decreases count - i,
            {
                let at = 7 + 14 * i;
                let k = u64_from_le_bytes(vstd::slice::slice_subrange(b, at, at + 8)) as i64;
                let page = u32_from_le_bytes(vstd::slice::slice_subrange(b, at + 8, at + 12));
                let slot = u16_from_le_bytes(vstd::slice::slice_subrange(b, at + 12, at + 14));
                keys.push(k);
                rids.push(Rid { page, slot });
                assert(keys@ =~= leaf_keys_of(bv, count as nat).take(i + 1));
                assert(rids@ =~= leaf_rids_of(bv, count as nat).take(i + 1));
                i = i + 1;
            }
            assert(keys@ =~= leaf_keys_of(bv, count as nat));
            assert(rids@ =~= leaf_rids_of(bv, count as nat));
            Ok(Node::Leaf { keys, rids, next })
        } else if tag == INTERNAL_TAG {
            if 3 + count * 8 + (count + 1) * 4 > PAGE_SIZE {
                return Err(Error::MalformedIndex);
            }
            let mut keys: Vec<i64> = Vec::new();
            let mut i: usize = 0;
            while i < count
                invariant
                    b@ == bv,
                    bv.len() == PAGE_SIZE,
                    3 + count * 8 + (count + 1) * 4 <= PAGE_SIZE,
                    i <= count,
                    keys@ == internal_keys_of(bv, count as nat).take(i as int),
                decreases count - i,
            {
                let at = 3 + 8 * i;
                let k = u64_from_le_bytes(vstd::slice::slice_subrange(b, at, at + 8)) as i64;
                keys.push(k);
                assert(keys@ =~= internal_keys_of(bv, count as nat).take(i + 1));
                i = i + 1;
            }
            let mut children: Vec<u32> = Vec::new();
            let mut j: usize = 0;
            while j < count + 1
                invariant
                    b@ == bv,
                    bv.len() == PAGE_SIZE,
                    3 + count * 8 + (count + 1) * 4 <= PAGE_SIZE,
                    j <= count + 1,
                    children@ == internal_children_of(bv, count as nat).take(j as int),
                decreases count + 1 - j,
            {
                let at = 3 + 8 * count + 4 * j;
                let c = u32_from_le_bytes(vstd::slice::slice_subrange(b, at, at + 4));
                children.push(c);
                assert(children@ =~= internal_children_of(bv, count as nat).take(j + 1));
                j = j + 1;
            }
            assert(keys@ =~= internal_keys_of(bv, count as nat));
            assert(children@ =~= internal_children_of(bv, count as nat));
            Ok(Node::Internal { keys, children })
        } else {
            Err(Error::MalformedIndex)
        }
    }
}

/// Reading back the page of a node gives the node.
pub proof fn lemma_node_roundtrip(n: NodeV)
    requires
        node_shape_ok(n),
        node_fits(n),
    ensures
        parse_node(node_bytes(n)) == Some(n),
{
    lemma_auto_spec_u64_to_from_le_bytes();
    lemma_auto_spec_u32_to_from_le_bytes();
    lemma_auto_spec_u16_to_from_le_bytes();
    let b = node_bytes(n);
    match n {
        NodeV::Leaf { keys, rids, next } => {
            let m = keys.len();
            let head = seq![LEAF_TAG] + spec_u16_to_le_bytes(m as u16) + spec_u32_to_le_bytes(next);
            let e = leaf_entries(keys, rids, m);
            lemma_leaf_entries_len(keys, rids, m);
            assert(b.subrange(1, 3) =~= spec_u16_to_le_bytes(m as u16));
            assert(b.subrange(3, 7) =~= spec_u32_to_le_bytes(next));
            assert(u16_le_at(b, 1) == m);
            assert forall|i: int| 0 <= i < m implies key_at(b, 7 + 14 * i) == keys[i]
                && leaf_rids_of(b, m)[i] == rids[i] by {
                lemma_leaf_entries(keys, rids, m, i);
                let ent = leaf_entry(keys[i], rids[i]);
                assert(b.subrange(7 + 14 * i, 7 + 14 * i + 14) =~= e.subrange(14 * i, 14 * i + 14));
                assert(b.subrange(7 + 14 * i, 7 + 14 * i + 8) =~= key_le(keys[i]));
                assert(ent.subrange(8, 12) =~= spec_u32_to_le_bytes(rids[i].page));
                assert(ent.subrange(12, 14) =~= spec_u16_to_le_bytes(rids[i].slot));
                assert(b.subrange(7 + 14 * i + 8, 7 + 14 * i + 12) =~= ent.subrange(8, 12));
                assert(b.subrange(7 + 14 * i + 12, 7 + 14 * i + 14) =~= ent.subrange(12, 14));
                lemma_key_roundtrip(keys[i]);
            }
            assert(leaf_keys_of(b, m) =~= keys);
            assert(leaf_rids_of(b, m) =~= rids);
        },
        NodeV::Internal { keys, children } => {
            let m = keys.len();
            let kb = keys_bytes(keys, m);
            let cb = children_bytes(children, children.len());
            lemma_keys_bytes_len(keys, m);
            lemma_children_bytes_len(children, children.len());
            assert(b.subrange(1, 3) =~= spec_u16_to_le_bytes(m as u16));
            assert(u16_le_at(b, 1) == m);
            assert forall|i: int| 0 <= i < m implies key_at(b, 3 + 8 * i) == keys[i] by {
                lemma_keys_bytes(keys, m, i);
                assert(b.subrange(3 + 8 * i, 3 + 8 * i + 8) =~= kb.subrange(8 * i, 8 * i + 8));
                lemma_key_roundtrip(keys[i]);
            }
            assert forall|i: int| 0 <= i < m + 1 implies u32_le_at(b, 3 + 8 * m + 4 * i) == children[i] by {
                lemma_children_bytes(children, children.len(), i);
                assert(b.subrange(3 + 8 * m + 4 * i, 3 + 8 * m + 4 * i + 4) =~= cb.subrange(4 * i, 4 * i + 4));
            }
            assert(internal_keys_of(b, m) =~= keys);
            assert(internal_children_of(b, m) =~= children);
        },
    }
}

/// A page of an index file.
pub type Page = [u8; PAGE_SIZE];

/// The node in page `p`: page 0 holds the metadata, and a page that does
/// not parse holds none.
pub open spec fn node_at(pages: Seq<Page>, p: int) -> Option<NodeV> {
    if 0 < p < pages.len() {
        parse_node(pages[p]@)
    } else {
        None
    }
}

/// Keys in strictly increasing order.
pub open spec fn keys_sorted(keys: Seq<i64>) -> bool {
    forall|i: int, j: int| 0 <= i < j < keys.len() ==> keys[i] < keys[j]
}

/// Every key lies in `[lo, hi)`.
pub open spec fn keys_within(keys: Seq<i64>, lo: int, hi: int) -> bool {
    forall|i: int| 0 <= i < keys.len() ==> lo <= #[trigger] keys[i] < hi
}

/// The least key that child `j` of an internal node covers.
pub open spec fn lower_bound(keys: Seq<i64>, lo: int, j: int) -> int {
    if j <= 0 {
        lo
    } else {
        keys[j - 1] as int
    }
}

/// The bound below which the keys of child `j` stay.
pub open spec fn upper_bound(keys: Seq<i64>, hi: int, j: int) -> int {
    if j >= keys.len() {
        hi
    } else {
        keys[j] as int
    }
}

/// The pages of the subtree of height `h` at page `p`.
pub open spec fn reach(pages: Seq<Page>, p: int, h: nat) -> Set<int>
    decreases h, 0nat,
{
    if h == 0 {
        set![p]
    } else {
        match node_at(pages, p) {
            Some(NodeV::Internal { children, .. }) => set![p].union(
                reach_list(pages, children, (h - 1) as nat, children.len()),
            ),
            _ => set![p],
        }
    }
}

/// The pages of the subtrees at the first `j` child pages.
pub open spec fn reach_list(pages: Seq<Page>, cs: Seq<u32>, h: nat, j: nat) -> Set<int>
    decreases h, j + 1,
{
    if j == 0 || j > cs.len() {
        Set::empty()
    } else {
        reach_list(pages, cs, h, (j - 1) as nat).union(reach(pages, cs[j - 1] as int, h))
    }
}

/// A B+Tree of height `h` at page `p` whose keys lie in `[lo, hi)`: leaves
/// at height 0 with a row for every key; internal nodes with one child more
/// than keys, child `j` holding the keys between keys `j - 1` and `j`; keys
/// sorted, at most `MAX_KEYS` per node; and no page shared between
/// subtrees or with an ancestor.
pub open spec fn tree_ok(pages: Seq<Page>, p: int, h: nat, lo: int, hi: int) -> bool
    decreases h, 0nat,
{
    match node_at(pages, p) {
        None => false,
        Some(NodeV::Leaf { keys, rids, .. }) => {
            &&& h == 0
            &&& keys.len() == rids.len()
            &&& keys.len() <= MAX_KEYS
            &&& keys_sorted(keys)
            &&& keys_within(keys, lo, hi)
        },
        Some(NodeV::Internal { keys, children }) => if h == 0 {
            false
        } else {
            &&& children.len() == keys.len() + 1
            &&& keys.len() <= MAX_KEYS
            &&& keys_sorted(keys)
            &&& keys_within(keys, lo, hi)
            &&& children_ok(pages, keys, children, (h - 1) as nat, lo, hi, children.len())
            &&& forall|j: int| 0 <= j < children.len() ==> !(#[trigger] reach(pages, children[j] as int, (h - 1) as nat)).contains(p)
            &&& forall|i: int, j: int|
                0 <= i < j < children.len() ==> (#[trigger] reach(pages, children[i] as int, (h - 1) as nat)).disjoint(
                    #[trigger] reach(pages, children[j] as int, (h - 1) as nat),
                )
        },
    }
}

/// The first `n` children are trees of height `h` over their key ranges.
pub open spec fn children_ok(pages: Seq<Page>, keys: Seq<i64>, cs: Seq<u32>, h: nat, lo: int, hi: int, n: nat) -> bool
    decreases h, n + 1,
{
    if n == 0 || n > cs.len() {
        n == 0
    } else {
        &&& children_ok(pages, keys, cs, h, lo, hi, (n - 1) as nat)
        &&& tree_ok(pages, cs[n - 1] as int, h, lower_bound(keys, lo, n - 1), upper_bound(keys, hi, n - 1))
    }
}

proof fn lemma_children_ok(pages: Seq<Page>, keys: Seq<i64>, cs: Seq<u32>, h: nat, lo: int, hi: int, n: nat)
    requires
        n <= cs.len(),
    ensures
        children_ok(pages, keys, cs, h, lo, hi, n) <==> forall|j: int|
            0 <= j < n ==> #[trigger] tree_ok(pages, cs[j] as int, h, lower_bound(keys, lo, j), upper_bound(keys, hi, j)),
    decreases n,
{
    if n > 0 {
        lemma_children_ok(pages, keys, cs, h, lo, hi, (n - 1) as nat);
        let last = tree_ok(pages, cs[n - 1] as int, h, lower_bound(keys, lo, n - 1), upper_bound(keys, hi, n - 1));
        if children_ok(pages, keys, cs, h, lo, hi, n) {
            assert forall|j: int| 0 <= j < n implies #[trigger] tree_ok(
                pages,
                cs[j] as int,
                h,
                lower_bound(keys, lo, j),
                upper_bound(keys, hi, j),
            ) by {
                if j == n - 1 {
                    assert(last);
                }
            }
        }
        if forall|j: int| 0 <= j < n ==> #[trigger] tree_ok(pages, cs[j] as int, h, lower_bound(keys, lo, j), upper_bound(keys, hi, j)) {
            assert(last);
        }
    }
}

/// The first position from `i` on whose key is greater than `key`.
pub open spec fn first_greater(keys: Seq<i64>, key: i64, i: int) -> int
    decreases keys.len() - i,
{
    if i < 0 || i >= keys.len() {
        keys.len() as int
    } else if keys[i] > key {
        i
    } else {
        first_greater(keys, key, i + 1)
    }
}

/// The child of an internal node that `key` belongs to: keys equal to a
/// separator go right.
pub open spec fn child_for(keys: Seq<i64>, key: i64) -> int {
    first_greater(keys, key, 0)
}

/// The first position from `i` on that holds `key`.
pub open spec fn key_pos(keys: Seq<i64>, key: i64, i: int) -> Option<int>
    decreases keys.len() - i,
{
    if i < 0 || i >= keys.len() {
        None
    } else if keys[i] == key {
        Some(i)
    } else {
        key_pos(keys, key, i + 1)
    }
}

/// The row a leaf holds for `k`.
pub open spec fn leaf_get(keys: Seq<i64>, rids: Seq<Rid>, k: i64) -> Option<Rid> {
    match key_pos(keys, k, 0) {
        Some(i) => if i < rids.len() {
            Some(rids[i])
        } else {
            None
        },
        None => None,
    }
}

/// What the subtree of height `h` at page `p` maps `key` to.
pub open spec fn lookup(pages: Seq<Page>, p: int, h: nat, key: i64) -> Option<Rid>
    decreases h,
{
    match node_at(pages, p) {
        Some(NodeV::Leaf { keys, rids, .. }) => leaf_get(keys, rids, key),
        Some(NodeV::Internal { keys, children }) => if h == 0 {
            None
        } else {
            let j = child_for(keys, key);
            if 0 <= j < children.len() {
                lookup(pages, children[j] as int, (h - 1) as nat, key)
            } else {
                None
            }
        },
        None => None,
    }
}

proof fn lemma_reach_list_contains(pages: Seq<Page>, cs: Seq<u32>, h: nat, n: nat, q: int)
    requires
        n <= cs.len(),
    ensures
        reach_list(pages, cs, h, n).contains(q) <==> exists|j: int| 0 <= j < n && #[trigger] reach(pages, cs[j] as int, h).contains(q),
    decreases n,
{
    if n > 0 {
        lemma_reach_list_contains(pages, cs, h, (n - 1) as nat, q);
        if reach(pages, cs[n - 1] as int, h).contains(q) {
            assert(reach(pages, cs[(n - 1) as int] as int, h).contains(q));
        }
    }
}

/// The pages of a subtree: its root, and the pages of its children's subtrees.
proof fn lemma_reach_internal(pages: Seq<Page>, p: int, h: nat, q: int)
    requires
        h > 0,
        node_at(pages, p) matches Some(NodeV::Internal { .. }),
    ensures
        reach(pages, p, h).contains(q) <==> q == p || exists|j: int|
            0 <= j < node_at(pages, p)->0->Internal_children.len() && #[trigger] reach(
                pages,
                node_at(pages, p)->0->Internal_children[j] as int,
                (h - 1) as nat,
            ).contains(q),
{
    let cs = node_at(pages, p)->0->Internal_children;
    lemma_reach_list_contains(pages, cs, (h - 1) as nat, cs.len(), q);
}

/// A subtree's pages are node pages.
proof fn lemma_reach_in_pages(pages: Seq<Page>, p: int, h: nat, lo: int, hi: int, q: int)
    requires
        tree_ok(pages, p, h, lo, hi),
        reach(pages, p, h).contains(q),
    ensures
        0 < q < pages.len(),
    decreases h,
{
    if h > 0 {
        if let Some(NodeV::Internal { keys, children }) = node_at(pages, p) {
            lemma_reach_internal(pages, p, h, q);
            if q != p {
                let j = choose|j: int| 0 <= j < children.len() && #[trigger] reach(pages, children[j] as int, (h - 1) as nat).contains(q);
                assert(node_at(pages, p) == Some(NodeV::Internal { keys, children }));
                assert(children.len() == keys.len() + 1);
                assert(0 <= j < children.len());
                lemma_children_ok(pages, keys, children, (h - 1) as nat, lo, hi, children.len());
                assert(tree_ok(pages, children[j] as int, (h - 1) as nat, lower_bound(keys, lo, j), upper_bound(keys, hi, j)));
                lemma_reach_in_pages(pages, children[j] as int, (h - 1) as nat, lower_bound(keys, lo, j), upper_bound(keys, hi, j), q);
            }
        }
    }
}

proof fn lemma_reach_list_eq(a: Seq<Page>, b: Seq<Page>, cs: Seq<u32>, h: nat, n: nat)
    requires
        n <= cs.len(),
        forall|j: int| 0 <= j < n ==> #[trigger] reach(b, cs[j] as int, h) == reach(a, cs[j] as int, h),
    ensures
        reach_list(b, cs, h, n) == reach_list(a, cs, h, n),
    decreases n,
{
    if n > 0 {
        lemma_reach_list_eq(a, b, cs, h, (n - 1) as nat);
        assert(reach(b, cs[(n - 1) as int] as int, h) == reach(a, cs[(n - 1) as int] as int, h));
    }
}

/// A subtree whose pages are unchanged is unchanged: same shape, same
/// pages, same contents.
proof fn lemma_frame(a: Seq<Page>, b: Seq<Page>, p: int, h: nat, lo: int, hi: int)
    requires
        tree_ok(a, p, h, lo, hi),
        a.len() <= b.len(),
        forall|q: int| reach(a, p, h).contains(q) ==> b[q] == a[q],
    ensures
        tree_ok(b, p, h, lo, hi),
        reach(b, p, h) == reach(a, p, h),
        forall|key: i64| lookup(b, p, h, key) == lookup(a, p, h, key),
    decreases h,
{
    lemma_reach_in_pages(a, p, h, lo, hi, p);
    assert(reach(a, p, h).contains(p)) by {
        if h > 0 {
            if node_at(a, p) matches Some(NodeV::Internal { .. }) {
                lemma_reach_internal(a, p, h, p);
            }
        }
    }
    assert(node_at(b, p) == node_at(a, p));
    if h > 0 {
        if let Some(NodeV::Internal { keys, children }) = node_at(a, p) {
            lemma_children_ok(a, keys, children, (h - 1) as nat, lo, hi, children.len());
            assert forall|j: int| #![trigger children[j]] 0 <= j < children.len() implies tree_ok(
                b,
                children[j] as int,
                (h - 1) as nat,
                lower_bound(keys, lo, j),
                upper_bound(keys, hi, j),
            ) && reach(b, children[j] as int, (h - 1) as nat) == reach(a, children[j] as int, (h - 1) as nat)
                && forall|key: i64| #[trigger] lookup(b, children[j] as int, (h - 1) as nat, key) == lookup(a, children[j] as int, (h - 1) as nat, key) by {
                assert(tree_ok(a, children[j] as int, (h - 1) as nat, lower_bound(keys, lo, j), upper_bound(keys, hi, j)));
                assert forall|q: int| reach(a, children[j] as int, (h - 1) as nat).contains(q) implies b[q] == a[q] by {
                    lemma_reach_internal(a, p, h, q);
                }
                lemma_frame(a, b, children[j] as int, (h - 1) as nat, lower_bound(keys, lo, j), upper_bound(keys, hi, j));
            }
            lemma_reach_list_eq(a, b, children, (h - 1) as nat, children.len());
            lemma_children_ok(b, keys, children, (h - 1) as nat, lo, hi, children.len());
            assert(reach(b, p, h) == reach(a, p, h));
            assert forall|j: int| 0 <= j < children.len() implies !(#[trigger] reach(b, children[j] as int, (h - 1) as nat)).contains(p) by {
                assert(reach(b, children[j] as int, (h - 1) as nat) == reach(a, children[j] as int, (h - 1) as nat));
            }
            assert forall|i: int, j: int| 0 <= i < j < children.len() implies (#[trigger] reach(b, children[i] as int, (h - 1) as nat)).disjoint(
                #[trigger] reach(b, children[j] as int, (h - 1) as nat),
            ) by {
                assert(reach(b, children[i] as int, (h - 1) as nat) == reach(a, children[i] as int, (h - 1) as nat));
                assert(reach(b, children[j] as int, (h - 1) as nat) == reach(a, children[j] as int, (h - 1) as nat));
            }
            assert forall|key: i64| lookup(b, p, h, key) == lookup(a, p, h, key) by {
                let j = child_for(keys, key);
                if 0 <= j < children.len() {
                    assert(lookup(b, children[j] as int, (h - 1) as nat, key) == lookup(a, children[j] as int, (h - 1) as nat, key));
                }
            }
        }
    }
}

/// What looking `key` up from `page` gives, walking down at most `fuel`
/// nodes: the leaf's row for the key, `None` when the leaf lacks it, or the
/// error of a page that is missing or holds no node.
pub open spec fn find_from(pages: Seq<Page>, page: int, key: i64, fuel: nat) -> Result<Option<Rid>>
    decreases fuel,
{
    if fuel == 0 {
        Err(Error::MalformedIndex)
    } else if page < 0 || page >= pages.len() {
        Err(Error::MissingPage(page as u32))
    } else {
        match parse_node(pages[page]@) {
            None => Err(Error::MalformedIndex),
            Some(NodeV::Leaf { keys, rids, .. }) => Ok(
                match key_pos(keys, key, 0) {
                    Some(i) => Some(rids[i]),
                    None => None,
                },
            ),
            Some(NodeV::Internal { keys, children }) => find_from(
                pages,
                children[child_for(keys, key)] as int,
                key,
                (fuel - 1) as nat,
            ),
        }
    }
}

/// The metadata page of an index: magic, version, root page.
pub open spec fn index_meta(root: u32) -> Seq<u8> {
    MAGIC@ + spec_u32_to_le_bytes(FORMAT_VERSION) + spec_u32_to_le_bytes(root) + Seq::new(
        (PAGE_SIZE - 16) as nat,
        |i: int| 0u8,
    )
}

/// The keys an index can hold: every `i64`.
pub open spec fn all_keys_lo() -> int {
    i64::MIN as int
}

/// Above every `i64`.
pub open spec fn all_keys_hi() -> int {
    i64::MAX as int + 1
}

/// A tree of some height at the root, fewer levels than pages.
pub open spec fn tree_valid(pages: Seq<Page>, root: u32) -> bool {
    exists|h: nat| h < pages.len() && #[trigger] tree_ok(pages, root as int, h, all_keys_lo(), all_keys_hi())
}

/// The height of a valid tree.
pub open spec fn tree_height(pages: Seq<Page>, root: u32) -> nat {
    choose|h: nat| h < pages.len() && #[trigger] tree_ok(pages, root as int, h, all_keys_lo(), all_keys_hi())
}

/// What a valid tree maps `key` to.
pub open spec fn tree_lookup(pages: Seq<Page>, root: u32, key: i64) -> Option<Rid> {
    lookup(pages, root as int, tree_height(pages, root), key)
}

proof fn lemma_first_greater(keys: Seq<i64>, key: i64, i: int)
    requires
        0 <= i <= keys.len(),
    ensures
        i <= first_greater(keys, key, i) <= keys.len(),
        forall|j: int| i <= j < first_greater(keys, key, i) ==> keys[j] <= key,
        first_greater(keys, key, i) < keys.len() ==> keys[first_greater(keys, key, i)] > key,
    decreases keys.len() - i,
{
    if i < keys.len() && keys[i] <= key {
        lemma_first_greater(keys, key, i + 1);
    }
}

/// In sorted keys, `child_for` picks the child whose range holds the key.
proof fn lemma_child_for(keys: Seq<i64>, key: i64, lo: int, hi: int)
    requires
        keys_sorted(keys),
        lo <= key < hi,
    ensures
        0 <= child_for(keys, key) <= keys.len(),
        lower_bound(keys, lo, child_for(keys, key)) <= key < upper_bound(keys, hi, child_for(keys, key)),
        forall|j: int|
            0 <= j <= keys.len() && #[trigger] lower_bound(keys, lo, j) <= key < upper_bound(keys, hi, j) ==> j == child_for(
                keys,
                key,
            ),
{
    lemma_first_greater(keys, key, 0);
    let c = child_for(keys, key);
    assert forall|j: int| 0 <= j <= keys.len() && #[trigger] lower_bound(keys, lo, j) <= key < upper_bound(keys, hi, j) implies j == c by {
        if j < c {
            assert(keys[j] <= key);
        } else if j > c {
            assert(keys[c] > key);
            assert(keys[c] <= keys[j - 1]);
        }
    }
}

/// In sorted keys, `key_pos` finds the one position that holds the key.
proof fn lemma_key_pos(keys: Seq<i64>, key: i64, i: int)
    requires
        keys_sorted(keys),
        0 <= i <= keys.len(),
    ensures
        match key_pos(keys, key, i) {
            Some(j) => i <= j < keys.len() && keys[j] == key,
            None => forall|j: int| i <= j < keys.len() ==> keys[j] != key,
        },
    decreases keys.len() - i,
{
    if i < keys.len() && keys[i] != key {
        lemma_key_pos(keys, key, i + 1);
    }
}

/// Looking a key up walks the tree: with enough fuel, `find_from` gives
/// what the tree maps the key to.
proof fn lemma_find_from(pages: Seq<Page>, p: int, h: nat, lo: int, hi: int, key: i64, fuel: nat)
    requires
        tree_ok(pages, p, h, lo, hi),
        lo <= key < hi,
        fuel > h,
    ensures
        find_from(pages, p, key, fuel) == Ok::<Option<Rid>, Error>(lookup(pages, p, h, key)),
    decreases h,
{
    match node_at(pages, p) {
        Some(NodeV::Leaf { keys, rids, .. }) => {
            lemma_key_pos(keys, key, 0);
        },
        Some(NodeV::Internal { keys, children }) => {
            lemma_child_for(keys, key, lo, hi);
            let j = child_for(keys, key);
            lemma_children_ok(pages, keys, children, (h - 1) as nat, lo, hi, children.len());
            assert(tree_ok(pages, children[j] as int, (h - 1) as nat, lower_bound(keys, lo, j), upper_bound(keys, hi, j)));
            lemma_find_from(pages, children[j] as int, (h - 1) as nat, lower_bound(keys, lo, j), upper_bound(keys, hi, j), key, (fuel - 1) as nat);
        },
        None => {},
    }
}

/// A valid tree has one height.
proof fn lemma_height_unique(pages: Seq<Page>, p: int, h1: nat, h2: nat, lo1: int, hi1: int, lo2: int, hi2: int)
    requires
        tree_ok(pages, p, h1, lo1, hi1),
        tree_ok(pages, p, h2, lo2, hi2),
    ensures
        h1 == h2,
    decreases h1,
{
    if let Some(NodeV::Internal { keys, children }) = node_at(pages, p) {
        lemma_children_ok(pages, keys, children, (h1 - 1) as nat, lo1, hi1, children.len());
        lemma_children_ok(pages, keys, children, (h2 - 1) as nat, lo2, hi2, children.len());
        assert(tree_ok(pages, children[0] as int, (h1 - 1) as nat, lower_bound(keys, lo1, 0), upper_bound(keys, hi1, 0)));
        assert(tree_ok(pages, children[0] as int, (h2 - 1) as nat, lower_bound(keys, lo2, 0), upper_bound(keys, hi2, 0)));
        lemma_height_unique(
            pages,
            children[0] as int,
            (h1 - 1) as nat,
            (h2 - 1) as nat,
            lower_bound(keys, lo1, 0),
            upper_bound(keys, hi1, 0),
            lower_bound(keys, lo2, 0),
            upper_bound(keys, hi2, 0),
        );
    }
}

/// Finding a key in a valid index gives what the tree maps it to.
pub proof fn lemma_find_valid(pages: Seq<Page>, root: u32, key: i64)
    requires
        tree_valid(pages, root),
    ensures
        find_from(pages, root as int, key, pages.len()) == Ok::<Option<Rid>, Error>(tree_lookup(pages, root, key)),
{
    let h = tree_height(pages, root);
    lemma_find_from(pages, root as int, h, all_keys_lo(), all_keys_hi(), key, pages.len());
}

/// The position of the child of an internal node that `key` belongs to.
pub fn child_index(keys: &Vec<i64>, key: i64) -> (r: usize)
    ensures
        r == first_greater(keys@, key, 0),
{
    let mut i: usize = 0;
    while i < keys.len()
        invariant
            i <= keys@.len(),
            first_greater(keys@, key, 0) == first_greater(keys@, key, i as int),
        decreases keys@.len() - i,
    {
        if keys[i] > key {
            return i;
        }
        i = i + 1;
    }
    i
}

/// The first position that holds `key`.
fn position_of(keys: &Vec<i64>, key: i64) -> (r: Option<usize>)
    ensures
        key_pos(keys@, key, 0) == match r {
            Some(i) => Some(i as int),
            None => None::<int>,
        },
        r matches Some(i) ==> i < keys@.len(),
{
    let mut i: usize = 0;
    while i < keys.len()
        invariant
            i <= keys@.len(),
            key_pos(keys@, key, 0) == key_pos(keys@, key, i as int),
        decreases keys@.len() - i,
    {
        if keys[i] == key {
            return Some(i);
        }
        i = i + 1;
    }
    None
}

/// A B+Tree index over one INT column: the pages of its file, page 0 the
/// metadata, and the page of its root.
pub struct BTree {
    pages: Vec<Page>,
    root: u32,
}

impl View for BTree {
    type V = (Seq<Page>, u32);

    closed spec fn view(&self) -> (Seq<Page>, u32) {
        (self.pages@, self.root)
    }
}

impl BTree {
    /// The pages of the index file.
    pub fn pages(&self) -> (r: &Vec<Page>)
        ensures
            r@ == self@.0,
    {
        &self.pages
    }

    /// The page of the root node.
    pub fn root(&self) -> (r: u32)
        ensures
            r == self@.1,
    {
        self.root
    }

    /// The row stored for `key`, or `None`; walks down from the root.
    pub fn find(&self, key: i64) -> (r: Result<Option<Rid>>)
        ensures
            r == find_from(self@.0, self@.1 as int, key, self@.0.len()),
            tree_valid(self@.0, self@.1) ==> r == Ok::<Option<Rid>, Error>(tree_lookup(self@.0, self@.1, key)),
    {
        proof {
            if tree_valid(self@.0, self@.1) {
                lemma_find_valid(self@.0, self@.1, key);
            }
        }
        let mut page = self.root;
        let mut fuel = self.pages.len();
        loop
            invariant
                find_from(self@.0, self@.1 as int, key, self@.0.len()) == find_from(self@.0, page as int, key, fuel as nat),
                tree_valid(self@.0, self@.1) ==> find_from(self@.0, self@.1 as int, key, self@.0.len()) == Ok::<
                    Option<Rid>,
                    Error,
                >(tree_lookup(self@.0, self@.1, key)),
                fuel <= self@.0.len(),
            decreases fuel,
        {
            if fuel == 0 {
                return Err(Error::MalformedIndex);
            }
            if page as usize >= self.pages.len() {
                return Err(Error::MissingPage(page));
            }
            match Node::from_page(&self.pages[page as usize]) {
                Err(e) => {
                    return Err(e);
                },
                Ok(Node::Leaf { keys, rids, .. }) => {
                    assert(keys@.len() == rids@.len());
                    return Ok(
                        match position_of(&keys, key) {
                            Some(i) => Some(rids[i]),
                            None => None,
                        },
                    );
                },
                Ok(Node::Internal { keys, children }) => {
                    let i = child_index(&keys, key);
                    proof {
                        lemma_first_greater(keys@, key, 0);
                    }
                    page = children[i];
                    fuel = fuel - 1;
                },
            }
        }
    }
}

/// The metadata page of an index whose root is at page `root`.
pub fn index_meta_page(root: u32) -> (r: Page)
    ensures
        r@ == index_meta(root),
{
    let mut meta = [0u8; PAGE_SIZE];
    let ghost zero = meta@;
    let magic = MAGIC;
    write_bytes(&mut meta, 0, magic.as_slice());
    let v = u32_to_le_bytes(FORMAT_VERSION);
    write_bytes(&mut meta, 8, v.as_slice());
    let rb = u32_to_le_bytes(root);
    write_bytes(&mut meta, 12, rb.as_slice());
    assert(meta@ =~= index_meta(root)) by {
        assert forall|i: int| 16 <= i < PAGE_SIZE implies meta@[i] == 0u8 by {
            assert(zero[i] == 0u8);
        }
    }
    meta
}

/// An empty leaf.
pub open spec fn empty_leaf() -> NodeV {
    NodeV::Leaf { keys: Seq::empty(), rids: Seq::empty(), next: 0 }
}

impl BTree {
    /// A new, empty index: the metadata page and an empty leaf as root at
    /// page 1.
    pub fn create() -> (r: BTree)
        ensures
            r@.1 == 1,
            r@.0.len() == 2,
            r@.0[0]@ == index_meta(1),
            r@.0[1]@ == node_bytes(empty_leaf()),
            tree_valid(r@.0, r@.1),
            forall|key: i64| tree_lookup(r@.0, r@.1, key) is None,
    {
        let mut pages: Vec<Page> = Vec::new();
        pages.push(index_meta_page(1));
        let leaf = Node::Leaf { keys: Vec::new(), rids: Vec::new(), next: 0 };
        assert(leaf@ == empty_leaf());
        pages.push(leaf.to_page());
        let r = BTree { pages, root: 1 };
        proof {
            lemma_node_roundtrip(empty_leaf());
            assert(node_at(r@.0, 1) == Some(empty_leaf()));
            assert(tree_ok(r@.0, 1, 0, all_keys_lo(), all_keys_hi()));
            assert(tree_valid(r@.0, r@.1));
            let h = tree_height(r@.0, r@.1);
            lemma_height_unique(r@.0, 1, h, 0, all_keys_lo(), all_keys_hi(), all_keys_lo(), all_keys_hi());
        }
        r
    }

    /// The index whose file holds `pages` (read from `path`): the first
    /// page must be an index metadata page of the current version; it
    /// names the root.
    pub fn open(path: String, pages: Vec<Page>) -> (r: Result<BTree>)
        ensures
            pages@.len() == 0 ==> r == Err::<BTree, Error>(Error::MissingPage(0)),
            pages@.len() > 0 && !has_magic(pages@[0]@) ==> (r matches Err(Error::NotASkipperDb(p)) && p@ == path@),
            pages@.len() > 0 && has_magic(pages@[0]@) && u32_le_at(pages@[0]@, 8) != FORMAT_VERSION ==> r
                == Err::<BTree, Error>(Error::UnsupportedVersion(u32_le_at(pages@[0]@, 8))),
            pages@.len() > 0 && has_magic(pages@[0]@) && u32_le_at(pages@[0]@, 8) == FORMAT_VERSION ==> (r matches Ok(t)
                && t@.0 == pages@ && t@.1 == u32_le_at(pages@[0]@, 12)),
    {
        if pages.len() == 0 {
            return Err(Error::MissingPage(0));
        }
        let meta = pages[0].as_slice();
        if !starts_with_magic(meta) {
            return Err(Error::NotASkipperDb(path));
        }
        let version = u32_from_le_bytes(vstd::slice::slice_subrange(meta, 8, 12));
        if version != FORMAT_VERSION {
            return Err(Error::UnsupportedVersion(version));
        }
        let root = u32_from_le_bytes(vstd::slice::slice_subrange(meta, 12, 16));
        Ok(BTree { pages, root })
    }
}

/// An index whose page 0 records its root, as `create` and `insert` leave
/// it, opens again with that root: its first page has the magic, the
/// current version and the root.
pub proof fn lemma_index_reopens(pages: Seq<Page>, root: u32)
    requires
        pages.len() > 0,
        pages[0]@ == index_meta(root),
    ensures
        has_magic(pages[0]@),
        u32_le_at(pages[0]@, 8) == FORMAT_VERSION,
        u32_le_at(pages[0]@, 12) == root,
{
    lemma_auto_spec_u32_to_from_le_bytes();
    let b = index_meta(root);
    assert(b.take(8) =~= MAGIC@);
    assert(b.subrange(8, 12) =~= spec_u32_to_le_bytes(FORMAT_VERSION));
    assert(b.subrange(12, 16) =~= spec_u32_to_le_bytes(root));
}

/// In sorted keys, a leaf holds for `k` the row at the one position whose
/// key is `k`, and nothing when no key is `k`.
proof fn lemma_leaf_get(keys: Seq<i64>, rids: Seq<Rid>, k: i64)
    requires
        keys_sorted(keys),
        keys.len() == rids.len(),
    ensures
        forall|j: int| 0 <= j < keys.len() && keys[j] == k ==> leaf_get(keys, rids, k) == Some(rids[j]),
        (forall|j: int| 0 <= j < keys.len() ==> keys[j] != k) ==> leaf_get(keys, rids, k) is None,
{
    lemma_key_pos(keys, k, 0);
    assert forall|j: int| 0 <= j < keys.len() && keys[j] == k implies leaf_get(keys, rids, k) == Some(rids[j]) by {
        if let Some(i) = key_pos(keys, k, 0) {
            if i < j {
                assert(keys[i] < keys[j]);
            } else if i > j {
                assert(keys[j] < keys[i]);
            }
        }
    }
}

/// The first position from `i` on whose key is at least `key`.
pub open spec fn lower_pos(keys: Seq<i64>, key: i64, i: int) -> int
    decreases keys.len() - i,
{
    if i < 0 || i >= keys.len() {
        keys.len() as int
    } else if keys[i] >= key {
        i
    } else {
        lower_pos(keys, key, i + 1)
    }
}

proof fn lemma_lower_pos(keys: Seq<i64>, key: i64, i: int)
    requires
        0 <= i <= keys.len(),
        keys_sorted(keys),
    ensures
        i <= lower_pos(keys, key, i) <= keys.len(),
        forall|j: int| i <= j < lower_pos(keys, key, i) ==> keys[j] < key,
        forall|j: int| lower_pos(keys, key, i) <= j < keys.len() ==> keys[j] >= key,
    decreases keys.len() - i,
{
    if i < keys.len() && keys[i] < key {
        lemma_lower_pos(keys, key, i + 1);
    } else if i < keys.len() {
        assert forall|j: int| i <= j < keys.len() implies keys[j] >= key by {
            if j > i {
                assert(keys[i] < keys[j]);
            }
        }
    }
}

/// Where `key` is or goes in a leaf: the first position whose key is at
/// least `key`, and whether that key is `key`.
fn search(keys: &Vec<i64>, key: i64) -> (r: (bool, usize))
    ensures
        r.1 == lower_pos(keys@, key, 0),
        r.1 <= keys@.len(),
        r.0 == (r.1 < keys@.len() && keys@[r.1 as int] == key),
{
    let mut i: usize = 0;
    while i < keys.len()
        invariant
            i <= keys@.len(),
            lower_pos(keys@, key, 0) == lower_pos(keys@, key, i as int),
        decreases keys@.len() - i,
    {
        if keys[i] >= key {
            return (keys[i] == key, i);
        }
        i = i + 1;
    }
    (false, i)
}

/// Storing a row over the one at the key's position replaces what the leaf
/// holds for that key only.
proof fn lemma_leaf_replace(keys: Seq<i64>, rids: Seq<Rid>, i: int, key: i64, rid: Rid)
    requires
        keys_sorted(keys),
        keys.len() == rids.len(),
        0 <= i < keys.len(),
        keys[i] == key,
    ensures
        forall|k: i64| #[trigger] leaf_get(keys, rids.update(i, rid), k) == if k == key {
            Some(rid)
        } else {
            leaf_get(keys, rids, k)
        },
{
    assert forall|k: i64| #[trigger] leaf_get(keys, rids.update(i, rid), k) == if k == key {
        Some(rid)
    } else {
        leaf_get(keys, rids, k)
    } by {
        lemma_leaf_get(keys, rids, k);
        lemma_leaf_get(keys, rids.update(i, rid), k);
        if k != key {
            if exists|j: int| 0 <= j < keys.len() && keys[j] == k {
                let j = choose|j: int| 0 <= j < keys.len() && keys[j] == k;
                assert(rids.update(i, rid)[j] == rids[j]);
            }
        }
    }
}

/// Inserting a key at its place keeps the keys sorted and makes the leaf
/// hold the row for it, the rest as before.
proof fn lemma_leaf_insert(keys: Seq<i64>, rids: Seq<Rid>, i: int, key: i64, rid: Rid)
    requires
        keys_sorted(keys),
        keys.len() == rids.len(),
        0 <= i <= keys.len(),
        forall|j: int| 0 <= j < i ==> keys[j] < key,
        forall|j: int| i <= j < keys.len() ==> keys[j] > key,
    ensures
        keys_sorted(keys.insert(i, key)),
        keys.insert(i, key).len() == rids.insert(i, rid).len(),
        forall|k: i64| #[trigger] leaf_get(keys.insert(i, key), rids.insert(i, rid), k) == if k == key {
            Some(rid)
        } else {
            leaf_get(keys, rids, k)
        },
        forall|lo: int, hi: int| keys_within(keys, lo, hi) && lo <= key < hi ==> #[trigger] keys_within(keys.insert(i, key), lo, hi),
{
    let ks = keys.insert(i, key);
    let rs = rids.insert(i, rid);
    assert forall|a: int, b: int| 0 <= a < b < ks.len() implies ks[a] < ks[b] by {
        if b < i {
        } else if b == i {
        } else if a < i {
            assert(ks[b] == keys[b - 1]);
        } else if a == i {
            assert(ks[b] == keys[b - 1]);
        } else {
            assert(ks[a] == keys[a - 1] && ks[b] == keys[b - 1]);
        }
    }
    assert forall|k: i64| #[trigger] leaf_get(ks, rs, k) == if k == key {
        Some(rid)
    } else {
        leaf_get(keys, rids, k)
    } by {
        lemma_leaf_get(keys, rids, k);
        lemma_leaf_get(ks, rs, k);
        if k == key {
            assert(ks[i] == key);
        } else if exists|j: int| 0 <= j < keys.len() && keys[j] == k {
            let j = choose|j: int| 0 <= j < keys.len() && keys[j] == k;
            if j < i {
                assert(ks[j] == k && rs[j] == rids[j]);
            } else {
                assert(ks[j + 1] == k && rs[j + 1] == rids[j]);
            }
        } else {
            assert forall|j: int| 0 <= j < ks.len() implies ks[j] != k by {
                if j > i {
                    assert(ks[j] == keys[j - 1]);
                }
            }
        }
    }
    assert forall|lo: int, hi: int| keys_within(keys, lo, hi) && lo <= key < hi implies #[trigger] keys_within(ks, lo, hi) by {
        assert forall|j: int| 0 <= j < ks.len() implies lo <= #[trigger] ks[j] < hi by {
            if j > i {
                assert(ks[j] == keys[j - 1]);
            }
        }
    }
}

/// Splitting a sorted leaf at `mid`: keys below the first key of the right
/// half are held by the left half as before, the others by the right half.
proof fn lemma_leaf_split(keys: Seq<i64>, rids: Seq<Rid>, mid: int)
    requires
        keys_sorted(keys),
        keys.len() == rids.len(),
        0 < mid < keys.len(),
    ensures
        keys_sorted(keys.subrange(0, mid)),
        keys_sorted(keys.subrange(mid, keys.len() as int)),
        forall|k: i64| k < keys[mid] ==> #[trigger] leaf_get(keys.subrange(0, mid), rids.subrange(0, mid), k) == leaf_get(keys, rids, k),
        forall|k: i64|
            k >= keys[mid] ==> #[trigger] leaf_get(keys.subrange(mid, keys.len() as int), rids.subrange(mid, rids.len() as int), k)
                == leaf_get(keys, rids, k),
        forall|lo: int, hi: int| #[trigger] keys_within(keys, lo, hi) ==> keys_within(keys.subrange(0, mid), lo, keys[mid] as int)
            && keys_within(keys.subrange(mid, keys.len() as int), keys[mid] as int, hi),
{
    let n = keys.len() as int;
    let lk = keys.subrange(0, mid);
    let lr = rids.subrange(0, mid);
    let rk = keys.subrange(mid, n);
    let rr = rids.subrange(mid, n);
    assert forall|k: i64| k < keys[mid] implies #[trigger] leaf_get(lk, lr, k) == leaf_get(keys, rids, k) by {
        lemma_leaf_get(keys, rids, k);
        lemma_leaf_get(lk, lr, k);
        if exists|j: int| 0 <= j < n && keys[j] == k {
            let j = choose|j: int| 0 <= j < n && keys[j] == k;
            if j >= mid {
                if j > mid {
                    assert(keys[mid] < keys[j]);
                }
            }
            assert(lk[j] == k && lr[j] == rids[j]);
        }
    }
    assert forall|k: i64| k >= keys[mid] implies #[trigger] leaf_get(rk, rr, k) == leaf_get(keys, rids, k) by {
        lemma_leaf_get(keys, rids, k);
        lemma_leaf_get(rk, rr, k);
        if exists|j: int| 0 <= j < n && keys[j] == k {
            let j = choose|j: int| 0 <= j < n && keys[j] == k;
            if j < mid {
                assert(keys[j] < keys[mid]);
            }
            assert(rk[j - mid] == k && rr[j - mid] == rids[j]);
        } else {
            assert forall|j: int| 0 <= j < rk.len() implies rk[j] != k by {
                assert(rk[j] == keys[j + mid]);
            }
        }
    }
    assert forall|lo: int, hi: int| #[trigger] keys_within(keys, lo, hi) implies keys_within(lk, lo, keys[mid] as int)
        && keys_within(rk, keys[mid] as int, hi) by {
        assert forall|j: int| 0 <= j < lk.len() implies lo <= #[trigger] lk[j] < keys[mid] by {
            assert(keys[j] < keys[mid]);
        }
        assert forall|j: int| 0 <= j < rk.len() implies keys[mid] <= #[trigger] rk[j] < hi by {
            if j > 0 {
                assert(keys[mid] < keys[j + mid]);
            }
        }
    }
}

/// What an internal node with these keys and children at page `p` must
/// satisfy over `[lo, hi)`, its children being of height `h`.
pub open spec fn internal_facts(pages: Seq<Page>, keys: Seq<i64>, cs: Seq<u32>, h: nat, lo: int, hi: int, p: int) -> bool {
    &&& cs.len() == keys.len() + 1
    &&& keys_sorted(keys)
    &&& keys_within(keys, lo, hi)
    &&& forall|j: int|
        0 <= j < cs.len() ==> #[trigger] tree_ok(pages, cs[j] as int, h, lower_bound(keys, lo, j), upper_bound(keys, hi, j))
    &&& forall|j: int| 0 <= j < cs.len() ==> !(#[trigger] reach(pages, cs[j] as int, h)).contains(p)
    &&& forall|i: int, j: int|
        0 <= i < j < cs.len() ==> (#[trigger] reach(pages, cs[i] as int, h)).disjoint(#[trigger] reach(pages, cs[j] as int, h))
}

proof fn lemma_internal_ok(pages: Seq<Page>, p: int, h: nat, lo: int, hi: int)
    requires
        h > 0,
        node_at(pages, p) matches Some(NodeV::Internal { keys, children }) && keys.len() <= MAX_KEYS
            && internal_facts(pages, keys, children, (h - 1) as nat, lo, hi, p),
    ensures
        tree_ok(pages, p, h, lo, hi),
{
    if let Some(NodeV::Internal { keys, children }) = node_at(pages, p) {
        lemma_children_ok(pages, keys, children, (h - 1) as nat, lo, hi, children.len());
    }
}

proof fn lemma_internal_facts(pages: Seq<Page>, p: int, h: nat, lo: int, hi: int)
    requires
        tree_ok(pages, p, h, lo, hi),
        node_at(pages, p) matches Some(NodeV::Internal { .. }),
    ensures
        h > 0,
        node_at(pages, p) matches Some(NodeV::Internal { keys, children }) && keys.len() <= MAX_KEYS
            && internal_facts(pages, keys, children, (h - 1) as nat, lo, hi, p),
{
    if let Some(NodeV::Internal { keys, children }) = node_at(pages, p) {
        lemma_children_ok(pages, keys, children, (h - 1) as nat, lo, hi, children.len());
    }
}

/// Each bound of a child lies within the node's range.
proof fn lemma_bounds(keys: Seq<i64>, lo: int, hi: int, j: int)
    requires
        keys_sorted(keys),
        keys_within(keys, lo, hi),
        lo <= hi,
        0 <= j <= keys.len(),
    ensures
        lo <= lower_bound(keys, lo, j) <= hi,
        lo <= upper_bound(keys, hi, j) <= hi,
        lower_bound(keys, lo, j) <= upper_bound(keys, hi, j),
        j > 0 ==> lower_bound(keys, lo, j) < upper_bound(keys, hi, j),
{
    if j > 0 {
        assert(lo <= keys[j - 1] < hi);
    }
    if j < keys.len() {
        assert(lo <= keys[j] < hi);
    }
    if j > 0 && j < keys.len() {
        assert(keys[j - 1] < keys[j]);
    }
}

/// Looking a key up in an internal node goes to the child whose range
/// holds it.
proof fn lemma_internal_lookup(pages: Seq<Page>, p: int, h: nat, lo: int, hi: int, k: i64, j: int)
    requires
        h > 0,
        node_at(pages, p) matches Some(NodeV::Internal { keys, children }) && internal_facts(
            pages,
            keys,
            children,
            (h - 1) as nat,
            lo,
            hi,
            p,
        ) && 0 <= j < children.len() && lower_bound(keys, lo, j) <= k < upper_bound(keys, hi, j),
        lo <= k < hi,
    ensures
        lookup(pages, p, h, k) == lookup(pages, node_at(pages, p)->0->Internal_children[j] as int, (h - 1) as nat, k),
{
    if let Some(NodeV::Internal { keys, children }) = node_at(pages, p) {
        lemma_child_for(keys, k, lo, hi);
    }
}

/// Pages unchanged under the children leave an internal node's facts,
/// their pages and their contents as they were.
proof fn lemma_facts_frame(a: Seq<Page>, b: Seq<Page>, keys: Seq<i64>, cs: Seq<u32>, h: nat, lo: int, hi: int, p: int)
    requires
        internal_facts(a, keys, cs, h, lo, hi, p),
        a.len() <= b.len(),
        forall|j: int, q: int| 0 <= j < cs.len() && #[trigger] reach(a, cs[j] as int, h).contains(q) ==> b[q] == a[q],
    ensures
        internal_facts(b, keys, cs, h, lo, hi, p),
        forall|j: int| 0 <= j < cs.len() ==> #[trigger] reach(b, cs[j] as int, h) == reach(a, cs[j] as int, h),
        forall|j: int, k: i64| 0 <= j < cs.len() ==> #[trigger] lookup(b, cs[j] as int, h, k) == lookup(a, cs[j] as int, h, k),
{
    assert forall|j: int| #![trigger cs[j]] 0 <= j < cs.len() implies tree_ok(
        b,
        cs[j] as int,
        h,
        lower_bound(keys, lo, j),
        upper_bound(keys, hi, j),
    ) && reach(b, cs[j] as int, h) == reach(a, cs[j] as int, h) && forall|k: i64| #[trigger] lookup(b, cs[j] as int, h, k)
        == lookup(a, cs[j] as int, h, k) by {
        assert(tree_ok(a, cs[j] as int, h, lower_bound(keys, lo, j), upper_bound(keys, hi, j)));
        assert forall|q: int| reach(a, cs[j] as int, h).contains(q) implies b[q] == a[q] by {
            assert(reach(a, cs[j] as int, h).contains(q));
        }
        lemma_frame(a, b, cs[j] as int, h, lower_bound(keys, lo, j), upper_bound(keys, hi, j));
    }
    assert forall|j: int| 0 <= j < cs.len() implies !(#[trigger] reach(b, cs[j] as int, h)).contains(p) by {
        assert(reach(b, cs[j] as int, h) == reach(a, cs[j] as int, h));
    }
    assert forall|i: int, j: int| 0 <= i < j < cs.len() implies (#[trigger] reach(b, cs[i] as int, h)).disjoint(
        #[trigger] reach(b, cs[j] as int, h),
    ) by {
        assert(reach(b, cs[i] as int, h) == reach(a, cs[i] as int, h));
        assert(reach(b, cs[j] as int, h) == reach(a, cs[j] as int, h));
    }
}

/// What a subtree holds for `k` once `key` maps to `rid`.
pub open spec fn upd_lookup(pages: Seq<Page>, p: int, h: nat, key: i64, rid: Rid, k: i64) -> Option<Rid> {
    if k == key {
        Some(rid)
    } else {
        lookup(pages, p, h, k)
    }
}

/// `new` keeps the pages of `old` outside `s`, and may have more.
pub open spec fn only_changed(old: Seq<Page>, new: Seq<Page>, s: Set<int>) -> bool {
    &&& old.len() <= new.len()
    &&& forall|q: int| 0 <= q < old.len() && !s.contains(q) ==> #[trigger] new[q] == old[q]
}

/// Every page of `s` is in `base` or new, at or past `old_len`.
pub open spec fn within_or_new(s: Set<int>, base: Set<int>, old_len: int, new_len: int) -> bool {
    forall|q: int| #[trigger] s.contains(q) ==> base.contains(q) || old_len <= q < new_len
}

/// The node at `p` holds at least one key.
pub open spec fn holds_key(pages: Seq<Page>, p: int) -> bool {
    match node_at(pages, p) {
        Some(NodeV::Leaf { keys, .. }) => keys.len() > 0,
        Some(NodeV::Internal { keys, .. }) => keys.len() > 0,
        None => false,
    }
}

/// After inserting `key -> rid` into the subtree at `p`: only its pages
/// changed; either it still is a tree over `[lo, hi)`, or it split at `sep`
/// into itself over `[lo, sep)` and a new subtree at `rp` over `[sep, hi)`,
/// each of whose top nodes holds a key;
/// and it holds `rid` for `key`, everything else as before. The pages of
/// the subtrees after are pages of the subtree before, or new ones.
pub open spec fn ins_done(
    old: Seq<Page>,
    new: Seq<Page>,
    p: int,
    h: nat,
    lo: int,
    hi: int,
    key: i64,
    rid: Rid,
    r: Option<(i64, u32)>,
) -> bool {
    &&& only_changed(old, new, reach(old, p, h))
    &&& match r {
        None => {
            &&& tree_ok(new, p, h, lo, hi)
            &&& forall|k: i64| lo <= k < hi ==> #[trigger] lookup(new, p, h, k) == upd_lookup(old, p, h, key, rid, k)
            &&& within_or_new(reach(new, p, h), reach(old, p, h), old.len() as int, new.len() as int)
        },
        Some((sep, rp)) => {
            &&& lo < sep < hi
            &&& holds_key(new, p)
            &&& holds_key(new, rp as int)
            &&& tree_ok(new, p, h, lo, sep as int)
            &&& tree_ok(new, rp as int, h, sep as int, hi)
            &&& forall|k: i64| lo <= k < sep ==> #[trigger] lookup(new, p, h, k) == upd_lookup(old, p, h, key, rid, k)
            &&& forall|k: i64| sep <= k < hi ==> #[trigger] lookup(new, rp as int, h, k) == upd_lookup(old, p, h, key, rid, k)
            &&& within_or_new(reach(new, p, h), reach(old, p, h), old.len() as int, new.len() as int)
            &&& within_or_new(reach(new, rp as int, h), reach(old, p, h), old.len() as int, new.len() as int)
            &&& reach(new, p, h).disjoint(reach(new, rp as int, h))
        },
    }
}

proof fn lemma_leaf_replace_done(
    old: Seq<Page>,
    new: Seq<Page>,
    page: int,
    lo: int,
    hi: int,
    key: i64,
    rid: Rid,
    keys: Seq<i64>,
    rids: Seq<Rid>,
    next: u32,
    i: int,
)
    requires
        tree_ok(old, page, 0, lo, hi),
        node_at(old, page) == Some(NodeV::Leaf { keys, rids, next }),
        0 <= i < keys.len(),
        keys[i] == key,
        new.len() == old.len(),
        new[page]@ == node_bytes(NodeV::Leaf { keys, rids: rids.update(i, rid), next }),
        forall|q: int| 0 <= q < old.len() && q != page ==> new[q] == old[q],
    ensures
        ins_done(old, new, page, 0, lo, hi, key, rid, None),
{
    let n = NodeV::Leaf { keys, rids: rids.update(i, rid), next };
    lemma_node_roundtrip(n);
    assert(node_at(new, page) == Some(n));
    lemma_leaf_replace(keys, rids, i, key, rid);
    assert(reach(new, page, 0) =~= reach(old, page, 0));
}

proof fn lemma_leaf_insert_done(
    old: Seq<Page>,
    new: Seq<Page>,
    page: int,
    lo: int,
    hi: int,
    key: i64,
    rid: Rid,
    keys: Seq<i64>,
    rids: Seq<Rid>,
    next: u32,
    i: int,
)
    requires
        tree_ok(old, page, 0, lo, hi),
        node_at(old, page) == Some(NodeV::Leaf { keys, rids, next }),
        lo <= key < hi,
        i == lower_pos(keys, key, 0),
        !(i < keys.len() && keys[i] == key),
        keys.len() + 1 <= MAX_KEYS,
        new.len() == old.len(),
        new[page]@ == node_bytes(NodeV::Leaf { keys: keys.insert(i, key), rids: rids.insert(i, rid), next }),
        forall|q: int| 0 <= q < old.len() && q != page ==> new[q] == old[q],
    ensures
        ins_done(old, new, page, 0, lo, hi, key, rid, None),
{
    lemma_lower_pos(keys, key, 0);
    let n = NodeV::Leaf { keys: keys.insert(i, key), rids: rids.insert(i, rid), next };
    lemma_leaf_insert(keys, rids, i, key, rid);
    lemma_node_roundtrip(n);
    assert(node_at(new, page) == Some(n));
    assert(keys_within(keys.insert(i, key), lo, hi));
    assert(reach(new, page, 0) =~= reach(old, page, 0));
}

proof fn lemma_leaf_split_done(
    old: Seq<Page>,
    new: Seq<Page>,
    page: int,
    lo: int,
    hi: int,
    key: i64,
    rid: Rid,
    keys: Seq<i64>,
    rids: Seq<Rid>,
    next: u32,
    i: int,
    rp: u32,
)
    requires
        tree_ok(old, page, 0, lo, hi),
        node_at(old, page) == Some(NodeV::Leaf { keys, rids, next }),
        lo <= key < hi,
        i == lower_pos(keys, key, 0),
        !(i < keys.len() && keys[i] == key),
        keys.len() + 1 > MAX_KEYS,
        rp == old.len(),
        new.len() == old.len() + 1,
        new[page]@ == node_bytes(
            NodeV::Leaf {
                keys: keys.insert(i, key).subrange(0, (keys.len() + 1) as int / 2),
                rids: rids.insert(i, rid).subrange(0, (keys.len() + 1) as int / 2),
                next: rp,
            },
        ),
        new[rp as int]@ == node_bytes(
            NodeV::Leaf {
                keys: keys.insert(i, key).subrange((keys.len() + 1) as int / 2, keys.len() + 1 as int),
                rids: rids.insert(i, rid).subrange((keys.len() + 1) as int / 2, keys.len() + 1 as int),
                next,
            },
        ),
        forall|q: int| 0 <= q < old.len() && q != page ==> new[q] == old[q],
    ensures
        ins_done(old, new, page, 0, lo, hi, key, rid, Some((keys.insert(i, key)[(keys.len() + 1) as int / 2], rp))),
{
    lemma_lower_pos(keys, key, 0);
    let ks = keys.insert(i, key);
    let rs = rids.insert(i, rid);
    let n = ks.len() as int;
    let mid = n / 2;
    lemma_leaf_insert(keys, rids, i, key, rid);
    lemma_leaf_split(ks, rs, mid);
    assert(keys_within(ks, lo, hi));
    let left = NodeV::Leaf { keys: ks.subrange(0, mid), rids: rs.subrange(0, mid), next: rp };
    let right = NodeV::Leaf { keys: ks.subrange(mid, n), rids: rs.subrange(mid, n), next };
    lemma_node_roundtrip(left);
    lemma_node_roundtrip(right);
    assert(node_at(new, page) == Some(left));
    assert(node_at(new, rp as int) == Some(right));
    let sep = ks[mid];
    assert(lo <= ks[0] < sep) by {
        assert(ks[0] < ks[mid]);
    }
    assert(sep < hi);
    assert(reach(new, page, 0) =~= reach(old, page, 0));
    assert(reach(new, rp as int, 0) =~= set![rp as int]);
    assert forall|k: i64| lo <= k < sep implies #[trigger] lookup(new, page, 0, k) == upd_lookup(old, page, 0, key, rid, k) by {
        assert(leaf_get(ks.subrange(0, mid), rs.subrange(0, mid), k) == leaf_get(ks, rs, k));
    }
    assert forall|k: i64| sep <= k < hi implies #[trigger] lookup(new, rp as int, 0, k) == upd_lookup(old, page, 0, key, rid, k) by {
        assert(leaf_get(ks.subrange(mid, n), rs.subrange(mid, n), k) == leaf_get(ks, rs, k));
    }
}

/// The pages of an internal node's subtree: the node's page, and those of
/// its children's subtrees.
proof fn lemma_reach_node(pages: Seq<Page>, p: int, h: nat, lo: int, hi: int)
    requires
        tree_ok(pages, p, h, lo, hi),
    ensures
        reach(pages, p, h).contains(p),
        0 < p < pages.len(),
        forall|q: int| #[trigger] reach(pages, p, h).contains(q) ==> 0 < q < pages.len(),
        node_at(pages, p) matches Some(NodeV::Internal { keys, children }) ==> forall|j: int, q: int|
            0 <= j < children.len() && #[trigger] reach(pages, children[j] as int, (h - 1) as nat).contains(q) ==> reach(
                pages,
                p,
                h,
            ).contains(q),
{
    assert forall|q: int| #[trigger] reach(pages, p, h).contains(q) implies 0 < q < pages.len() by {
        lemma_reach_in_pages(pages, p, h, lo, hi, q);
    }
    if let Some(NodeV::Internal { keys, children }) = node_at(pages, p) {
        lemma_reach_internal(pages, p, h, p);
        assert forall|j: int, q: int|
            0 <= j < children.len() && #[trigger] reach(pages, children[j] as int, (h - 1) as nat).contains(q) implies reach(
            pages,
            p,
            h,
        ).contains(q) by {
            lemma_reach_internal(pages, p, h, q);
        }
    }
    lemma_reach_in_pages(pages, p, h, lo, hi, p);
}

/// The pages of a subtree lie in the pages of the tree.
proof fn lemma_reach_bounded(pages: Seq<Page>, p: int, h: nat, lo: int, hi: int)
    requires
        tree_ok(pages, p, h, lo, hi),
    ensures
        forall|q: int| #[trigger] reach(pages, p, h).contains(q) ==> 0 < q < pages.len(),
{
    lemma_reach_node(pages, p, h, lo, hi);
}

#[verifier::spinoff_prover]
#[verifier::rlimit(60)]
proof fn lemma_internal_none_done(
    old: Seq<Page>,
    new: Seq<Page>,
    page: int,
    h: nat,
    lo: int,
    hi: int,
    key: i64,
    rid: Rid,
    keys: Seq<i64>,
    cs: Seq<u32>,
    i: int,
)
    requires
        tree_ok(old, page, h, lo, hi),
        node_at(old, page) == Some(NodeV::Internal { keys, children: cs }),
        lo <= key < hi,
        i == child_for(keys, key),
        ins_done(old, new, cs[i] as int, (h - 1) as nat, lower_bound(keys, lo, i), upper_bound(keys, hi, i), key, rid, None),
    ensures
        ins_done(old, new, page, h, lo, hi, key, rid, None),
{
    lemma_internal_facts(old, page, h, lo, hi);
    let hc = (h - 1) as nat;
    lemma_child_for(keys, key, lo, hi);
    let c = cs[i] as int;
    let rc = reach(old, c, hc);
    lemma_reach_node(old, page, h, lo, hi);
    assert(!rc.contains(page));
    assert(new[page] == old[page]);
    assert(node_at(new, page) == node_at(old, page));
    // the other children keep their subtrees
    assert forall|j: int| #![trigger cs[j]] 0 <= j < cs.len() && j != i implies tree_ok(
        new,
        cs[j] as int,
        hc,
        lower_bound(keys, lo, j),
        upper_bound(keys, hi, j),
    ) && reach(new, cs[j] as int, hc) == reach(old, cs[j] as int, hc) && forall|k: i64| #[trigger] lookup(new, cs[j] as int, hc, k)
        == lookup(old, cs[j] as int, hc, k) by {
        assert(tree_ok(old, cs[j] as int, hc, lower_bound(keys, lo, j), upper_bound(keys, hi, j)));
        lemma_reach_bounded(old, cs[j] as int, hc, lower_bound(keys, lo, j), upper_bound(keys, hi, j));
        if i < j {
            assert(reach(old, cs[i] as int, hc).disjoint(reach(old, cs[j] as int, hc)));
        } else {
            assert(reach(old, cs[j] as int, hc).disjoint(reach(old, cs[i] as int, hc)));
        }
        assert forall|q: int| reach(old, cs[j] as int, hc).contains(q) implies new[q] == old[q] by {
            assert(!rc.contains(q));
        }
        lemma_frame(old, new, cs[j] as int, hc, lower_bound(keys, lo, j), upper_bound(keys, hi, j));
    }
    lemma_reach_bounded(old, c, hc, lower_bound(keys, lo, i), upper_bound(keys, hi, i));
    assert(internal_facts(new, keys, cs, hc, lo, hi, page)) by {
        assert forall|j: int| 0 <= j < cs.len() implies #[trigger] tree_ok(
            new,
            cs[j] as int,
            hc,
            lower_bound(keys, lo, j),
            upper_bound(keys, hi, j),
        ) by {
            if j != i {
                assert(cs[j] == cs[j]);
            }
        }
        assert forall|j: int| 0 <= j < cs.len() implies !(#[trigger] reach(new, cs[j] as int, hc)).contains(page) by {
            if j != i {
                assert(reach(new, cs[j] as int, hc) == reach(old, cs[j] as int, hc));
            }
        }
        assert forall|a: int, b: int| 0 <= a < b < cs.len() implies (#[trigger] reach(new, cs[a] as int, hc)).disjoint(
            #[trigger] reach(new, cs[b] as int, hc),
        ) by {
            if a != i && b != i {
                assert(reach(new, cs[a] as int, hc) == reach(old, cs[a] as int, hc));
                assert(reach(new, cs[b] as int, hc) == reach(old, cs[b] as int, hc));
                assert(reach(old, cs[a] as int, hc).disjoint(reach(old, cs[b] as int, hc)));
            } else if a == i {
                assert(reach(new, cs[b] as int, hc) == reach(old, cs[b] as int, hc));
                assert(tree_ok(old, cs[b] as int, hc, lower_bound(keys, lo, b), upper_bound(keys, hi, b)));
                lemma_reach_bounded(old, cs[b] as int, hc, lower_bound(keys, lo, b), upper_bound(keys, hi, b));
                assert(rc.disjoint(reach(old, cs[b] as int, hc)));
            } else {
                assert(reach(new, cs[a] as int, hc) == reach(old, cs[a] as int, hc));
                assert(tree_ok(old, cs[a] as int, hc, lower_bound(keys, lo, a), upper_bound(keys, hi, a)));
                lemma_reach_bounded(old, cs[a] as int, hc, lower_bound(keys, lo, a), upper_bound(keys, hi, a));
                assert(reach(old, cs[a] as int, hc).disjoint(rc));
            }
        }
    }
    lemma_internal_ok(new, page, h, lo, hi);
    assert forall|k: i64| lo <= k < hi implies #[trigger] lookup(new, page, h, k) == upd_lookup(old, page, h, key, rid, k) by {
        lemma_child_for(keys, k, lo, hi);
        let j = child_for(keys, k);
        lemma_internal_lookup(new, page, h, lo, hi, k, j);
        lemma_internal_lookup(old, page, h, lo, hi, k, j);
        if j != i {
            assert(lookup(new, cs[j] as int, hc, k) == lookup(old, cs[j] as int, hc, k));
        }
    }
    lemma_reach_node(new, page, h, lo, hi);
    assert forall|q: int| #[trigger] reach(new, page, h).contains(q) implies reach(old, page, h).contains(q) || old.len() <= q
        < new.len() by {
        lemma_reach_internal(new, page, h, q);
        if q != page {
            let j = choose|j: int| 0 <= j < cs.len() && #[trigger] reach(new, cs[j] as int, hc).contains(q);
            if j != i {
                assert(reach(new, cs[j] as int, hc) == reach(old, cs[j] as int, hc));
            }
        }
    }
}

#[verifier::spinoff_prover]
#[verifier::rlimit(60)]
proof fn lemma_absorb_facts(
    old: Seq<Page>,
    p1: Seq<Page>,
    page: int,
    h: nat,
    lo: int,
    hi: int,
    key: i64,
    rid: Rid,
    keys: Seq<i64>,
    cs: Seq<u32>,
    i: int,
    sep: i64,
    rp: u32,
)
    requires
        tree_ok(old, page, h, lo, hi),
        node_at(old, page) == Some(NodeV::Internal { keys, children: cs }),
        lo <= key < hi,
        i == child_for(keys, key),
        ins_done(
            old,
            p1,
            cs[i] as int,
            (h - 1) as nat,
            lower_bound(keys, lo, i),
            upper_bound(keys, hi, i),
            key,
            rid,
            Some((sep, rp)),
        ),
    ensures
        h > 0,
        0 < page < old.len(),
        p1[page] == old[page],
        keys.len() <= MAX_KEYS,
        only_changed(old, p1, reach(old, page, h)),
        internal_facts(p1, keys.insert(i, sep), cs.insert(i + 1, rp), (h - 1) as nat, lo, hi, page),
        forall|k: i64|
            lo <= k < hi ==> #[trigger] lookup(
                p1,
                cs.insert(i + 1, rp)[child_for(keys.insert(i, sep), k)] as int,
                (h - 1) as nat,
                k,
            ) == upd_lookup(old, page, h, key, rid, k),
        forall|j: int, q: int|
            0 <= j < cs.len() + 1 && #[trigger] reach(p1, cs.insert(i + 1, rp)[j] as int, (h - 1) as nat).contains(q) ==> reach(
                old,
                page,
                h,
            ).contains(q) || old.len() <= q < p1.len(),
{
    lemma_internal_facts(old, page, h, lo, hi);
    let hc = (h - 1) as nat;
    lemma_child_for(keys, key, lo, hi);
    let c = cs[i] as int;
    let rc = reach(old, c, hc);
    let lo_i = lower_bound(keys, lo, i);
    let hi_i = upper_bound(keys, hi, i);
    lemma_reach_node(old, page, h, lo, hi);
    assert(!rc.contains(page));
    let ks = keys.insert(i, sep);
    let cs2 = cs.insert(i + 1, rp);
    // the other children keep their subtrees
    assert forall|j: int| #![trigger cs[j]] 0 <= j < cs.len() && j != i implies tree_ok(
        p1,
        cs[j] as int,
        hc,
        lower_bound(keys, lo, j),
        upper_bound(keys, hi, j),
    ) && reach(p1, cs[j] as int, hc) == reach(old, cs[j] as int, hc) && forall|k: i64| #[trigger] lookup(p1, cs[j] as int, hc, k)
        == lookup(old, cs[j] as int, hc, k) && rc.disjoint(reach(old, cs[j] as int, hc)) && forall|q: int|
        #[trigger] reach(old, cs[j] as int, hc).contains(q) ==> 0 < q < old.len() by {
        assert(tree_ok(old, cs[j] as int, hc, lower_bound(keys, lo, j), upper_bound(keys, hi, j)));
        lemma_reach_bounded(old, cs[j] as int, hc, lower_bound(keys, lo, j), upper_bound(keys, hi, j));
        if i < j {
            assert(reach(old, cs[i] as int, hc).disjoint(reach(old, cs[j] as int, hc)));
        } else {
            assert(reach(old, cs[j] as int, hc).disjoint(reach(old, cs[i] as int, hc)));
        }
        assert forall|q: int| reach(old, cs[j] as int, hc).contains(q) implies p1[q] == old[q] by {
            assert(!rc.contains(q));
        }
        lemma_frame(old, p1, cs[j] as int, hc, lower_bound(keys, lo, j), upper_bound(keys, hi, j));
    }
    lemma_bounds(keys, lo, hi, i);
    assert(lo <= hi) by {
        lemma_bounds(keys, lo, hi, i);
    }
    // the keys with the separator in place
    assert(keys_sorted(ks)) by {
        assert forall|a: int, b: int| 0 <= a < b < ks.len() implies ks[a] < ks[b] by {
            if b < i {
            } else if b == i {
                assert(keys[a] <= keys[i - 1]);
            } else if a < i {
                assert(ks[b] == keys[b - 1]);
                assert(keys[a] <= keys[i - 1]);
                assert(keys[i] <= keys[b - 1]);
            } else if a == i {
                assert(ks[b] == keys[b - 1]);
                assert(keys[i] <= keys[b - 1]);
            } else {
                assert(ks[a] == keys[a - 1] && ks[b] == keys[b - 1]);
            }
        }
    }
    assert(keys_within(ks, lo, hi)) by {
        assert forall|j: int| 0 <= j < ks.len() implies lo <= #[trigger] ks[j] < hi by {
            if j > i {
                assert(ks[j] == keys[j - 1]);
            }
        }
    }
    // where each new child comes from
    assert forall|j: int| 0 <= j < i implies cs2[j] == cs[j] && #[trigger] lower_bound(ks, lo, j) == lower_bound(keys, lo, j)
        && upper_bound(ks, hi, j) == upper_bound(keys, hi, j) by {}
    assert(cs2[i] == cs[i] && lower_bound(ks, lo, i) == lo_i && upper_bound(ks, hi, i) == sep);
    assert(cs2[i + 1] == rp && lower_bound(ks, lo, i + 1) == sep && upper_bound(ks, hi, i + 1) == hi_i);
    assert forall|j: int| i + 1 < j < cs2.len() implies cs2[j] == cs[j - 1] && #[trigger] lower_bound(ks, lo, j)
        == lower_bound(keys, lo, j - 1) && upper_bound(ks, hi, j) == upper_bound(keys, hi, j - 1) by {}
    lemma_reach_bounded(p1, rp as int, hc, sep as int, hi_i);
    lemma_reach_bounded(p1, c, hc, lo_i, sep as int);
    assert(internal_facts(p1, ks, cs2, hc, lo, hi, page)) by {
        assert forall|j: int| 0 <= j < cs2.len() implies #[trigger] tree_ok(
            p1,
            cs2[j] as int,
            hc,
            lower_bound(ks, lo, j),
            upper_bound(ks, hi, j),
        ) by {
            if j < i {
                assert(lower_bound(ks, lo, j) == lower_bound(keys, lo, j));
                assert(cs[j] == cs[j]);
            } else if j > i + 1 {
                assert(lower_bound(ks, lo, j) == lower_bound(keys, lo, j - 1));
                assert(cs[j - 1] == cs[j - 1]);
            }
        }
        assert forall|j: int| 0 <= j < cs2.len() implies !(#[trigger] reach(p1, cs2[j] as int, hc)).contains(page) by {
            if j < i {
                assert(cs[j] == cs[j]);
            } else if j > i + 1 {
                assert(cs[j - 1] == cs[j - 1]);
            }
        }
        assert forall|a: int, b: int| 0 <= a < b < cs2.len() implies (#[trigger] reach(p1, cs2[a] as int, hc)).disjoint(
            #[trigger] reach(p1, cs2[b] as int, hc),
        ) by {
            let oa = if a <= i { a } else { a - 1 };
            let ob = if b <= i { b } else { b - 1 };
            if a != i && a != i + 1 && b != i && b != i + 1 {
                assert(cs[oa] == cs[oa] && cs[ob] == cs[ob]);
                assert(oa < ob);
                assert(reach(old, cs[oa] as int, hc).disjoint(reach(old, cs[ob] as int, hc)));
            } else if (a == i || a == i + 1) && (b == i || b == i + 1) {
            } else if a == i || a == i + 1 {
                assert(cs[ob] == cs[ob]);
            } else {
                assert(cs[oa] == cs[oa]);
            }
        }
    }
    assert forall|k: i64| lo <= k < hi implies #[trigger] lookup(p1, cs2[child_for(ks, k)] as int, hc, k) == upd_lookup(
        old,
        page,
        h,
        key,
        rid,
        k,
    ) by {
        lemma_child_for(keys, k, lo, hi);
        lemma_child_for(ks, k, lo, hi);
        let j = child_for(keys, k);
        lemma_internal_lookup(old, page, h, lo, hi, k, j);
        if j < i {
            assert(lower_bound(ks, lo, j) == lower_bound(keys, lo, j));
        } else if j > i {
            assert(lower_bound(ks, lo, j + 1) == lower_bound(keys, lo, j));
            assert(cs[j] == cs[j]);
        } else if k < sep {
            assert(child_for(ks, k) == i);
        } else {
            assert(child_for(ks, k) == i + 1);
        }
    }
    assert forall|j: int, q: int|
        0 <= j < cs.len() + 1 && #[trigger] reach(p1, cs2[j] as int, hc).contains(q) implies reach(old, page, h).contains(q) || old.len()
        <= q < p1.len() by {
        if j < i {
            assert(cs[j] == cs[j]);
        } else if j > i + 1 {
            assert(cs[j - 1] == cs[j - 1]);
        }
    }
}

#[verifier::spinoff_prover]
#[verifier::rlimit(60)]
proof fn lemma_absorb_done(
    old: Seq<Page>,
    p1: Seq<Page>,
    p2: Seq<Page>,
    page: int,
    h: nat,
    lo: int,
    hi: int,
    key: i64,
    rid: Rid,
    ks: Seq<i64>,
    cs2: Seq<u32>,
)
    requires
        h > 0,
        0 < page < old.len(),
        ks.len() <= MAX_KEYS,
        only_changed(old, p1, reach(old, page, h)),
        reach(old, page, h).contains(page),
        internal_facts(p1, ks, cs2, (h - 1) as nat, lo, hi, page),
        forall|k: i64|
            lo <= k < hi ==> #[trigger] lookup(p1, cs2[child_for(ks, k)] as int, (h - 1) as nat, k) == upd_lookup(
                old,
                page,
                h,
                key,
                rid,
                k,
            ),
        forall|j: int, q: int|
            0 <= j < cs2.len() && #[trigger] reach(p1, cs2[j] as int, (h - 1) as nat).contains(q) ==> reach(old, page, h).contains(q)
                || old.len() <= q < p1.len(),
        p2.len() == p1.len(),
        p2[page]@ == node_bytes(NodeV::Internal { keys: ks, children: cs2 }),
        forall|q: int| 0 <= q < p1.len() && q != page ==> p2[q] == p1[q],
    ensures
        ins_done(old, p2, page, h, lo, hi, key, rid, None),
{
    let hc = (h - 1) as nat;
    let n = NodeV::Internal { keys: ks, children: cs2 };
    lemma_node_roundtrip(n);
    assert(node_at(p2, page) == Some(n));
    assert forall|j: int, q: int| 0 <= j < cs2.len() && #[trigger] reach(p1, cs2[j] as int, hc).contains(q) implies p2[q] == p1[q] by {
        assert(tree_ok(p1, cs2[j] as int, hc, lower_bound(ks, lo, j), upper_bound(ks, hi, j)));
        lemma_reach_bounded(p1, cs2[j] as int, hc, lower_bound(ks, lo, j), upper_bound(ks, hi, j));
    }
    lemma_facts_frame(p1, p2, ks, cs2, hc, lo, hi, page);
    lemma_internal_ok(p2, page, h, lo, hi);
    assert forall|k: i64| lo <= k < hi implies #[trigger] lookup(p2, page, h, k) == upd_lookup(old, page, h, key, rid, k) by {
        lemma_child_for(ks, k, lo, hi);
        lemma_internal_lookup(p2, page, h, lo, hi, k, child_for(ks, k));
    }
    assert forall|q: int| #[trigger] reach(p2, page, h).contains(q) implies reach(old, page, h).contains(q) || old.len() <= q
        < p2.len() by {
        lemma_reach_internal(p2, page, h, q);
        if q != page {
            let j = choose|j: int| 0 <= j < cs2.len() && #[trigger] reach(p2, cs2[j] as int, hc).contains(q);
            assert(reach(p2, cs2[j] as int, hc) == reach(p1, cs2[j] as int, hc));
        }
    }
}

#[verifier::spinoff_prover]
#[verifier::rlimit(60)]
proof fn lemma_split_done(
    old: Seq<Page>,
    p1: Seq<Page>,
    p3: Seq<Page>,
    page: int,
    h: nat,
    lo: int,
    hi: int,
    key: i64,
    rid: Rid,
    ks: Seq<i64>,
    cs2: Seq<u32>,
    mid: int,
    rp2: u32,
)
    requires
        h > 0,
        0 < page < old.len(),
        ks.len() <= MAX_KEYS + 1,
        1 <= mid,
        mid + 1 < ks.len(),
        mid <= MAX_KEYS,
        ks.len() - mid - 1 <= MAX_KEYS,
        only_changed(old, p1, reach(old, page, h)),
        reach(old, page, h).contains(page),
        internal_facts(p1, ks, cs2, (h - 1) as nat, lo, hi, page),
        forall|k: i64|
            lo <= k < hi ==> #[trigger] lookup(p1, cs2[child_for(ks, k)] as int, (h - 1) as nat, k) == upd_lookup(
                old,
                page,
                h,
                key,
                rid,
                k,
            ),
        forall|j: int, q: int|
            0 <= j < cs2.len() && #[trigger] reach(p1, cs2[j] as int, (h - 1) as nat).contains(q) ==> reach(old, page, h).contains(q)
                || old.len() <= q < p1.len(),
        old.len() <= p1.len(),
        rp2 == p1.len(),
        p3.len() == p1.len() + 1,
        p3[page]@ == node_bytes(NodeV::Internal { keys: ks.subrange(0, mid), children: cs2.subrange(0, mid + 1) }),
        p3[rp2 as int]@ == node_bytes(
            NodeV::Internal { keys: ks.subrange(mid + 1, ks.len() as int), children: cs2.subrange(mid + 1, cs2.len() as int) },
        ),
        forall|q: int| 0 <= q < p1.len() && q != page ==> p3[q] == p1[q],
    ensures
        ins_done(old, p3, page, h, lo, hi, key, rid, Some((ks[mid], rp2))),
{
    let hc = (h - 1) as nat;
    let n = ks.len() as int;
    let sep = ks[mid];
    let lk = ks.subrange(0, mid);
    let lc = cs2.subrange(0, mid + 1);
    let rk = ks.subrange(mid + 1, n);
    let rc = cs2.subrange(mid + 1, n + 1);
    let left = NodeV::Internal { keys: lk, children: lc };
    let right = NodeV::Internal { keys: rk, children: rc };
    lemma_node_roundtrip(left);
    lemma_node_roundtrip(right);
    assert(node_at(p3, page) == Some(left));
    assert(node_at(p3, rp2 as int) == Some(right));
    assert forall|j: int, q: int| 0 <= j < cs2.len() && #[trigger] reach(p1, cs2[j] as int, hc).contains(q) implies p3[q] == p1[q]
        && q != rp2 by {
        assert(tree_ok(p1, cs2[j] as int, hc, lower_bound(ks, lo, j), upper_bound(ks, hi, j)));
        lemma_reach_bounded(p1, cs2[j] as int, hc, lower_bound(ks, lo, j), upper_bound(ks, hi, j));
    }
    lemma_facts_frame(p1, p3, ks, cs2, hc, lo, hi, page);
    assert(lo <= ks[0] < sep && sep < hi) by {
        assert(ks[0] < ks[mid]);
    }
    // the left node: the first mid keys and mid + 1 children
    assert(internal_facts(p3, lk, lc, hc, lo, sep as int, page)) by {
        assert(keys_within(lk, lo, sep as int)) by {
            assert forall|j: int| 0 <= j < lk.len() implies lo <= #[trigger] lk[j] < sep by {
                assert(ks[j] < ks[mid]);
            }
        }
        assert forall|j: int| 0 <= j < lc.len() implies #[trigger] tree_ok(
            p3,
            lc[j] as int,
            hc,
            lower_bound(lk, lo, j),
            upper_bound(lk, sep as int, j),
        ) by {
            assert(lc[j] == cs2[j]);
            assert(lower_bound(lk, lo, j) == lower_bound(ks, lo, j));
            assert(upper_bound(lk, sep as int, j) == upper_bound(ks, hi, j));
        }
        assert forall|j: int| 0 <= j < lc.len() implies !(#[trigger] reach(p3, lc[j] as int, hc)).contains(page) by {
            assert(lc[j] == cs2[j]);
        }
        assert forall|a: int, b: int| 0 <= a < b < lc.len() implies (#[trigger] reach(p3, lc[a] as int, hc)).disjoint(
            #[trigger] reach(p3, lc[b] as int, hc),
        ) by {
            assert(lc[a] == cs2[a] && lc[b] == cs2[b]);
        }
    }
    // the right node: the keys and children after the one that goes up
    assert(internal_facts(p3, rk, rc, hc, sep as int, hi, rp2 as int)) by {
        assert(keys_sorted(rk));
        assert(keys_within(rk, sep as int, hi)) by {
            assert forall|j: int| 0 <= j < rk.len() implies sep <= #[trigger] rk[j] < hi by {
                assert(ks[mid] < ks[mid + 1 + j]);
            }
        }
        assert forall|j: int| 0 <= j < rc.len() implies #[trigger] tree_ok(
            p3,
            rc[j] as int,
            hc,
            lower_bound(rk, sep as int, j),
            upper_bound(rk, hi, j),
        ) by {
            assert(rc[j] == cs2[mid + 1 + j]);
            assert(lower_bound(rk, sep as int, j) == lower_bound(ks, lo, mid + 1 + j));
            assert(upper_bound(rk, hi, j) == upper_bound(ks, hi, mid + 1 + j));
        }
        assert forall|j: int| 0 <= j < rc.len() implies !(#[trigger] reach(p3, rc[j] as int, hc)).contains(rp2 as int) by {
            assert(rc[j] == cs2[mid + 1 + j]);
            assert(reach(p3, cs2[mid + 1 + j] as int, hc) == reach(p1, cs2[mid + 1 + j] as int, hc));
        }
        assert forall|a: int, b: int| 0 <= a < b < rc.len() implies (#[trigger] reach(p3, rc[a] as int, hc)).disjoint(
            #[trigger] reach(p3, rc[b] as int, hc),
        ) by {
            assert(rc[a] == cs2[mid + 1 + a] && rc[b] == cs2[mid + 1 + b]);
        }
    }
    lemma_internal_ok(p3, page, h, lo, sep as int);
    lemma_internal_ok(p3, rp2 as int, h, sep as int, hi);
    assert forall|k: i64| lo <= k < sep implies #[trigger] lookup(p3, page, h, k) == upd_lookup(old, page, h, key, rid, k) by {
        lemma_child_for(ks, k, lo, hi);
        let j = child_for(ks, k);
        if j > mid {
            assert(ks[mid] <= ks[j - 1]);
        }
        assert(lower_bound(lk, lo, j) == lower_bound(ks, lo, j));
        assert(upper_bound(lk, sep as int, j) == upper_bound(ks, hi, j));
        lemma_internal_lookup(p3, page, h, lo, sep as int, k, j);
        assert(lc[j] == cs2[j]);
    }
    assert forall|k: i64| sep <= k < hi implies #[trigger] lookup(p3, rp2 as int, h, k) == upd_lookup(old, page, h, key, rid, k) by {
        lemma_child_for(ks, k, lo, hi);
        let j = child_for(ks, k);
        if j <= mid {
            if j < mid {
                assert(ks[j] < ks[mid]);
            }
        }
        let jr = j - mid - 1;
        assert(lower_bound(rk, sep as int, jr) == lower_bound(ks, lo, j));
        assert(upper_bound(rk, hi, jr) == upper_bound(ks, hi, j));
        lemma_internal_lookup(p3, rp2 as int, h, sep as int, hi, k, jr);
        assert(rc[jr] == cs2[j]);
    }
    assert forall|q: int| #[trigger] reach(p3, page, h).contains(q) implies reach(old, page, h).contains(q) || old.len() <= q
        < p3.len() by {
        lemma_reach_internal(p3, page, h, q);
        if q != page {
            let j = choose|j: int| 0 <= j < lc.len() && #[trigger] reach(p3, lc[j] as int, hc).contains(q);
            assert(lc[j] == cs2[j]);
        }
    }
    assert forall|q: int| #[trigger] reach(p3, rp2 as int, h).contains(q) implies reach(old, page, h).contains(q) || old.len() <= q
        < p3.len() by {
        lemma_reach_internal(p3, rp2 as int, h, q);
        if q != rp2 {
            let j = choose|j: int| 0 <= j < rc.len() && #[trigger] reach(p3, rc[j] as int, hc).contains(q);
            assert(rc[j] == cs2[mid + 1 + j]);
        }
    }
    assert(reach(p3, page, h).disjoint(reach(p3, rp2 as int, h))) by {
        assert forall|q: int| #[trigger] reach(p3, page, h).contains(q) implies !reach(p3, rp2 as int, h).contains(q) by {
            lemma_reach_internal(p3, page, h, q);
            lemma_reach_internal(p3, rp2 as int, h, q);
            if reach(p3, rp2 as int, h).contains(q) {
                if q == rp2 {
                    if q != page {
                        let a = choose|a: int| 0 <= a < lc.len() && #[trigger] reach(p3, lc[a] as int, hc).contains(q);
                        assert(lc[a] == cs2[a]);
                    }
                } else {
                    let b = choose|b: int| 0 <= b < rc.len() && #[trigger] reach(p3, rc[b] as int, hc).contains(q);
                    assert(rc[b] == cs2[mid + 1 + b]);
                    if q != page {
                        let a = choose|a: int| 0 <= a < lc.len() && #[trigger] reach(p3, lc[a] as int, hc).contains(q);
                        assert(lc[a] == cs2[a]);
                        assert(reach(p3, cs2[a] as int, hc).disjoint(reach(p3, cs2[mid + 1 + b] as int, hc)));
                    }
                }
            }
        }
    }
}

/// What `insert_into` needs to do its job on a tree: the subtree at `p` is
/// a tree of height `h` over a range that holds the key, with fuel for
/// every level.
pub open spec fn ins_pre(pages: Seq<Page>, p: int, h: nat, lo: int, hi: int, key: i64, fuel: nat) -> bool {
    &&& tree_ok(pages, p, h, lo, hi)
    &&& lo <= key < hi
    &&& fuel > h
}

impl BTree {
    fn write_node(&mut self, page: u32, node: &Node)
        requires
            (page as int) < old(self)@.0.len(),
            node_fits(node@),
        ensures
            final(self)@.1 == old(self)@.1,
            final(self)@.0.len() == old(self)@.0.len(),
            final(self)@.0[page as int]@ == node_bytes(node@),
            forall|q: int| 0 <= q < old(self)@.0.len() && q != page ==> final(self)@.0[q] == old(self)@.0[q],
    {
        let bytes = node.to_page();
        self.pages[page as usize] = bytes;
    }

    /// Appends a page holding `node`; page numbers are `u32`, so an index
    /// with a page for every number has no room left.
    fn alloc_node(&mut self, node: &Node) -> (r: Result<u32>)
        requires
            node_fits(node@),
        ensures
            final(self)@.1 == old(self)@.1,
            old(self)@.0.len() > u32::MAX ==> (r == Err::<u32, Error>(Error::MalformedIndex) && final(self)@ == old(self)@),
            old(self)@.0.len() <= u32::MAX ==> (r matches Ok(p) && {
                &&& p == old(self)@.0.len()
                &&& final(self)@.0.len() == old(self)@.0.len() + 1
                &&& final(self)@.0[p as int]@ == node_bytes(node@)
                &&& forall|q: int| 0 <= q < old(self)@.0.len() ==> final(self)@.0[q] == old(self)@.0[q]
            }),
    {
        if self.pages.len() > u32::MAX as usize {
            return Err(Error::MalformedIndex);
        }
        let page = self.pages.len() as u32;
        let bytes = node.to_page();
        self.pages.push(bytes);
        Ok(page)
    }

    /// Inserts `key -> rid` below `page`; returns the separator and page
    /// of a new right sibling when the node split.
    #[verifier::spinoff_prover]
    fn insert_into(
        &mut self,
        page: u32,
        key: i64,
        rid: Rid,
        fuel: usize,
        Ghost(h): Ghost<nat>,
        Ghost(lo): Ghost<int>,
        Ghost(hi): Ghost<int>,
    ) -> (r: Result<Option<(i64, u32)>>)
        requires
        ensures
            final(self)@.1 == old(self)@.1,
            old(self)@.0.len() <= final(self)@.0.len() <= old(self)@.0.len() + fuel,
            ins_pre(old(self)@.0, page as int, h, lo, hi, key, fuel as nat) ==> final(self)@.0.len() <= old(self)@.0.len()
                + h + 1,
            ins_pre(old(self)@.0, page as int, h, lo, hi, key, fuel as nat) && old(self)@.0.len() + h <= u32::MAX ==> (
            r matches Ok(o) && ins_done(
                old(self)@.0,
                final(self)@.0,
                page as int,
                h,
                lo,
                hi,
                key,
                rid,
                o,
            )),
        decreases fuel, 1nat,
    {
        if fuel == 0 {
            return Err(Error::MalformedIndex);
        }
        if page as usize >= self.pages.len() {
            return Err(Error::MissingPage(page));
        }
        let node = match Node::from_page(&self.pages[page as usize]) {
            Ok(n) => n,
            Err(e) => {
                return Err(e);
            },
        };
        match node {
            Node::Leaf { keys, rids, next } => {
                proof {
                    if ins_pre(self@.0, page as int, h, lo, hi, key, fuel as nat) {
                        assert(node_at(self@.0, page as int) == Some(NodeV::Leaf { keys: keys@, rids: rids@, next }));
                        assert(h == 0);
                    }
                }
                self.insert_leaf(page, keys, rids, next, key, rid, Ghost(lo), Ghost(hi))
            },
            Node::Internal { keys, children } => self.insert_internal(
                page,
                keys,
                children,
                key,
                rid,
                fuel,
                Ghost(h),
                Ghost(lo),
                Ghost(hi),
            ),
        }
    }

    /// Inserts into the leaf at `page`, which holds these keys and rows.
    #[verifier::spinoff_prover]
    fn insert_leaf(
        &mut self,
        page: u32,
        keys: Vec<i64>,
        rids: Vec<Rid>,
        next: u32,
        key: i64,
        rid: Rid,
        Ghost(lo): Ghost<int>,
        Ghost(hi): Ghost<int>,
    ) -> (r: Result<Option<(i64, u32)>>)
        requires
            (page as int) < old(self)@.0.len(),
            parse_node(old(self)@.0[page as int]@) == Some(NodeV::Leaf { keys: keys@, rids: rids@, next }),
        ensures
            final(self)@.1 == old(self)@.1,
            old(self)@.0.len() <= final(self)@.0.len() <= old(self)@.0.len() + 1,
            ins_pre(old(self)@.0, page as int, 0, lo, hi, key, 1) && old(self)@.0.len() <= u32::MAX ==> (r matches Ok(o)
                && ins_done(
                old(self)@.0,
                final(self)@.0,
                page as int,
                0,
                lo,
                hi,
                key,
                rid,
                o,
            )),
    {
        let ghost old_pages = self@.0;
        let ghost pre = ins_pre(old_pages, page as int, 0, lo, hi, key, 1) && old_pages.len() <= u32::MAX;
        let mut keys = keys;
        let mut rids = rids;
        let ghost k0 = keys@;
        let ghost r0 = rids@;
        assert(keys@.len() == rids@.len());
        proof {
            if pre {
                assert(node_at(old_pages, page as int) == Some(NodeV::Leaf { keys: k0, rids: r0, next }));
            }
        }
        let (found, i) = search(&keys, key);
        if found {
            rids[i] = rid;
            assert(rids@ == r0.update(i as int, rid));
            self.write_node(page, &Node::Leaf { keys, rids, next });
            proof {
                if pre {
                    lemma_leaf_replace_done(old_pages, self@.0, page as int, lo, hi, key, rid, k0, r0, next, i as int);
                }
            }
            return Ok(None);
        }
        keys.insert(i, key);
        rids.insert(i, rid);
        if keys.len() <= MAX_KEYS {
            self.write_node(page, &Node::Leaf { keys, rids, next });
            proof {
                if pre {
                    lemma_leaf_insert_done(old_pages, self@.0, page as int, lo, hi, key, rid, k0, r0, next, i as int);
                }
            }
            return Ok(None);
        }
        let mid = keys.len() / 2;
        let rkeys = keys.split_off(mid);
        let rrids = rids.split_off(mid);
        let sep = rkeys[0];
        let right = Node::Leaf { keys: rkeys, rids: rrids, next };
        let rp = match self.alloc_node(&right) {
            Ok(p) => p,
            Err(e) => {
                return Err(e);
            },
        };
        self.write_node(page, &Node::Leaf { keys, rids, next: rp });
        proof {
            if pre {
                lemma_leaf_split_done(old_pages, self@.0, page as int, lo, hi, key, rid, k0, r0, next, i as int, rp);
            }
        }
        Ok(Some((sep, rp)))
    }

    /// Inserts below the internal node at `page`, which holds these keys
    /// and children, and takes in a child's split.
    #[verifier::spinoff_prover]
    fn insert_internal(
        &mut self,
        page: u32,
        keys: Vec<i64>,
        children: Vec<u32>,
        key: i64,
        rid: Rid,
        fuel: usize,
        Ghost(h): Ghost<nat>,
        Ghost(lo): Ghost<int>,
        Ghost(hi): Ghost<int>,
    ) -> (r: Result<Option<(i64, u32)>>)
        requires
            (page as int) < old(self)@.0.len(),
            fuel >= 1,
            parse_node(old(self)@.0[page as int]@) == Some(NodeV::Internal { keys: keys@, children: children@ }),
        ensures
            final(self)@.1 == old(self)@.1,
            old(self)@.0.len() <= final(self)@.0.len() <= old(self)@.0.len() + fuel,
            ins_pre(old(self)@.0, page as int, h, lo, hi, key, fuel as nat) ==> final(self)@.0.len() <= old(self)@.0.len()
                + h + 1,
            ins_pre(old(self)@.0, page as int, h, lo, hi, key, fuel as nat) && old(self)@.0.len() + h <= u32::MAX ==> (
            r matches Ok(o) && ins_done(
                old(self)@.0,
                final(self)@.0,
                page as int,
                h,
                lo,
                hi,
                key,
                rid,
                o,
            )),
        decreases fuel, 0nat,
    {
        let ghost old_pages = self@.0;
        let ghost pre0 = ins_pre(old_pages, page as int, h, lo, hi, key, fuel as nat);
        let ghost pre = pre0 && old_pages.len() + h <= u32::MAX;
        let mut keys = keys;
        let mut children = children;
        let ghost k0 = keys@;
        let ghost c0 = children@;
        let i = child_index(&keys, key);
        proof {
            lemma_first_greater(k0, key, 0);
        }
        let ghost hc: nat = (h - 1) as nat;
        let ghost lo_i = lower_bound(k0, lo, i as int);
        let ghost hi_i = upper_bound(k0, hi, i as int);
        proof {
            if pre0 {
                assert(node_at(old_pages, page as int) == Some(NodeV::Internal { keys: k0, children: c0 }));
                lemma_internal_facts(old_pages, page as int, h, lo, hi);
                lemma_child_for(k0, key, lo, hi);
                assert(tree_ok(old_pages, c0[i as int] as int, hc, lo_i, hi_i));
            }
        }
        let child = children[i];
        let res = self.insert_into(child, key, rid, fuel - 1, Ghost(hc), Ghost(lo_i), Ghost(hi_i));
        let ghost p1 = self@.0;
        match res {
            Err(e) => Err(e),
            Ok(None) => {
                proof {
                    if pre {
                        lemma_internal_none_done(old_pages, p1, page as int, h, lo, hi, key, rid, k0, c0, i as int);
                    }
                }
                Ok(None)
            },
            Ok(Some((sep, rp))) => {
                proof {
                    if pre {
                        lemma_absorb_facts(old_pages, p1, page as int, h, lo, hi, key, rid, k0, c0, i as int, sep, rp);
                    }
                }
                keys.insert(i, sep);
                children.insert(i + 1, rp);
                let ghost ks = keys@;
                let ghost cs2 = children@;
                if keys.len() <= MAX_KEYS {
                    self.write_node(page, &Node::Internal { keys, children });
                    proof {
                        if pre {
                            lemma_reach_node(old_pages, page as int, h, lo, hi);
                            lemma_absorb_done(old_pages, p1, self@.0, page as int, h, lo, hi, key, rid, ks, cs2);
                        }
                    }
                    return Ok(None);
                }
                let mid = keys.len() / 2;
                let sep_up = keys[mid];
                let rkeys = keys.split_off(mid + 1);
                let rchildren = children.split_off(mid + 1);
                keys.pop();
                assert(keys@ =~= ks.subrange(0, mid as int));
                let right = Node::Internal { keys: rkeys, children: rchildren };
                let rp2 = match self.alloc_node(&right) {
                    Ok(p) => p,
                    Err(e) => {
                        return Err(e);
                    },
                };
                self.write_node(page, &Node::Internal { keys, children });
                proof {
                    if pre {
                        lemma_reach_node(old_pages, page as int, h, lo, hi);
                        lemma_split_done(old_pages, p1, self@.0, page as int, h, lo, hi, key, rid, ks, cs2, mid as int, rp2);
                    }
                }
                Ok(Some((sep_up, rp2)))
            },
        }
    }
}

proof fn lemma_valid_at(pages: Seq<Page>, root: u32, h: nat)
    requires
        h < pages.len(),
        tree_ok(pages, root as int, h, all_keys_lo(), all_keys_hi()),
    ensures
        tree_valid(pages, root),
        tree_height(pages, root) == h,
{
    let h2 = tree_height(pages, root);
    lemma_height_unique(pages, root as int, h2, h, all_keys_lo(), all_keys_hi(), all_keys_lo(), all_keys_hi());
}

/// A new root over the two halves of a split tree.
proof fn lemma_new_root(
    old: Seq<Page>,
    p1: Seq<Page>,
    p3: Seq<Page>,
    root: u32,
    h: nat,
    key: i64,
    rid: Rid,
    sep: i64,
    right: u32,
    new_root: u32,
)
    requires
        h < old.len(),
        tree_ok(old, root as int, h, all_keys_lo(), all_keys_hi()),
        ins_done(old, p1, root as int, h, all_keys_lo(), all_keys_hi(), key, rid, Some((sep, right))),
        new_root == p1.len(),
        p3.len() == p1.len() + 1,
        p3[new_root as int]@ == node_bytes(NodeV::Internal { keys: seq![sep], children: seq![root, right] }),
        forall|q: int| 0 < q < p1.len() ==> p3[q] == p1[q],
    ensures
        tree_valid(p3, new_root),
        tree_height(p3, new_root) == h + 1,
        forall|k: i64| #[trigger] tree_lookup(p3, new_root, k) == upd_lookup(old, root as int, h, key, rid, k),
{
    let lo = all_keys_lo();
    let hi = all_keys_hi();
    let ks = seq![sep];
    let cs = seq![root, right];
    let n = NodeV::Internal { keys: ks, children: cs };
    lemma_node_roundtrip(n);
    assert(node_at(p3, new_root as int) == Some(n));
    lemma_reach_bounded(p1, root as int, h, lo, sep as int);
    lemma_reach_bounded(p1, right as int, h, sep as int, hi);
    assert(internal_facts(p1, ks, cs, h, lo, hi, new_root as int)) by {
        assert(lower_bound(ks, lo, 0) == lo && upper_bound(ks, hi, 0) == sep);
        assert(lower_bound(ks, lo, 1) == sep && upper_bound(ks, hi, 1) == hi);
        assert forall|j: int| 0 <= j < cs.len() implies #[trigger] tree_ok(
            p1,
            cs[j] as int,
            h,
            lower_bound(ks, lo, j),
            upper_bound(ks, hi, j),
        ) by {}
        assert forall|a: int, b: int| 0 <= a < b < cs.len() implies (#[trigger] reach(p1, cs[a] as int, h)).disjoint(
            #[trigger] reach(p1, cs[b] as int, h),
        ) by {}
    }
    assert forall|j: int, q: int| 0 <= j < cs.len() && #[trigger] reach(p1, cs[j] as int, h).contains(q) implies p3[q] == p1[q] by {}
    lemma_facts_frame(p1, p3, ks, cs, h, lo, hi, new_root as int);
    lemma_internal_ok(p3, new_root as int, h + 1, lo, hi);
    lemma_valid_at(p3, new_root, h + 1);
    assert forall|k: i64| #[trigger] tree_lookup(p3, new_root, k) == upd_lookup(old, root as int, h, key, rid, k) by {
        lemma_child_for(ks, k, lo, hi);
        let j = child_for(ks, k);
        lemma_internal_lookup(p3, new_root as int, h + 1, lo, hi, k, j);
    }
}

impl BTree {
    /// Stores `rid` for `key`, replacing the row stored for it before;
    /// splits full nodes on the way back up and grows a new root when the
    /// root splits, recording the new root in page 0. A valid tree of
    /// height `h` gains at most `h + 2` pages and at most one level.
    #[verifier::spinoff_prover]
    pub fn insert(&mut self, key: i64, rid: Rid) -> (r: Result<()>)
        requires
            tree_valid(old(self)@.0, old(self)@.1) ==> old(self)@.0.len() + tree_height(old(self)@.0, old(self)@.1) + 1
                <= u32::MAX,
        ensures
            tree_valid(old(self)@.0, old(self)@.1) ==> {
                &&& r is Ok
                &&& tree_valid(final(self)@.0, final(self)@.1)
                &&& final(self)@.0.len() <= old(self)@.0.len() + tree_height(old(self)@.0, old(self)@.1) + 2
                &&& tree_height(final(self)@.0, final(self)@.1) <= tree_height(old(self)@.0, old(self)@.1) + 1
                &&& old(self)@.0[0]@ == index_meta(old(self)@.1) ==> final(self)@.0[0]@ == index_meta(final(self)@.1)
                &&& forall|k: i64| #[trigger] tree_lookup(final(self)@.0, final(self)@.1, k) == if k == key {
                    Some(rid)
                } else {
                    tree_lookup(old(self)@.0, old(self)@.1, k)
                }
            },
    {
        if self.pages.len() == 0 {
            return Err(Error::MissingPage(0));
        }
        let ghost old_pages = self@.0;
        let ghost valid = tree_valid(self@.0, self@.1);
        let ghost h = tree_height(self@.0, self@.1);
        let fuel = self.pages.len();
        let root = self.root;
        let res = self.insert_into(root, key, rid, fuel, Ghost(h), Ghost(all_keys_lo()), Ghost(all_keys_hi()));
        let ghost p1 = self@.0;
        match res {
            Err(e) => Err(e),
            Ok(None) => {
                proof {
                    if valid {
                        lemma_reach_bounded(old_pages, root as int, h, all_keys_lo(), all_keys_hi());
                        assert(p1[0] == old_pages[0]);
                        lemma_valid_at(p1, root, h);
                        assert forall|k: i64| #[trigger] tree_lookup(p1, root, k) == if k == key {
                            Some(rid)
                        } else {
                            tree_lookup(old_pages, root, k)
                        } by {
                            assert(lookup(p1, root as int, h, k) == upd_lookup(old_pages, root as int, h, key, rid, k));
                        }
                    }
                }
                Ok(())
            },
            Ok(Some((sep, right))) => {
                let mut keys: Vec<i64> = Vec::new();
                keys.push(sep);
                let mut children: Vec<u32> = Vec::new();
                children.push(root);
                children.push(right);
                assert(keys@ =~= seq![sep]);
                assert(children@ =~= seq![root, right]);
                let new_root = Node::Internal { keys, children };
                assert(new_root@ == NodeV::Internal { keys: seq![sep], children: seq![root, right] });
                let root_page = match self.alloc_node(&new_root) {
                    Ok(p) => p,
                    Err(e) => {
                        return Err(e);
                    },
                };
                self.root = root_page;
                let meta = index_meta_page(root_page);
                self.pages[0] = meta;
                proof {
                    if valid {
                        lemma_new_root(old_pages, p1, self@.0, root, h, key, rid, sep, right, root_page);
                        assert forall|k: i64| #[trigger] tree_lookup(self@.0, self@.1, k) == if k == key {
                            Some(rid)
                        } else {
                            tree_lookup(old_pages, root, k)
                        } by {
                            assert(tree_lookup(self@.0, root_page, k) == upd_lookup(old_pages, root as int, h, key, rid, k));
                        }
                    }
                }
                Ok(())
            },
        }
    }
}

} // verus!
