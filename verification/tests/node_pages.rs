use pagecore::frag::{ChildSplit, Frag, Meta, ParentSplit};
use pagecore::node::{Data, Node, PageId};

fn leaf_records(node: &Node) -> Vec<(Vec<u8>, PageId)> {
    match &node.data {
        Data::Leaf(records) => records.clone(),
        Data::Index(_) => panic!("expected a leaf"),
    }
}

fn index_records(node: &Node) -> Vec<(Vec<u8>, PageId)> {
    match &node.data {
        Data::Index(ptrs) => ptrs.clone(),
        Data::Leaf(_) => panic!("expected an index"),
    }
}

/// A leaf over the full key range; keys are encoded against the empty
/// low bound, i.e. a zero shared-prefix byte in front of the raw key.
fn unbounded_leaf(keys: &[(&[u8], PageId)]) -> Node {
    let records = keys
        .iter()
        .map(|(k, pid)| (pagecore::keys::prefix_encode(b"", k), *pid))
        .collect::<Vec<_>>();
    Node { id: 1, data: Data::Leaf(records), next: None, lo: Vec::new(), hi: Vec::new() }
}

fn enc(k: &[u8]) -> Vec<u8> {
    pagecore::keys::prefix_encode(b"", k)
}

#[test]
fn insert_version_sorts_records() {
    let mut node = unbounded_leaf(&[(b"b", 2), (b"d", 4)]);
    node.apply(&Frag::InsertVersion(enc(b"c"), 3));
    node.apply(&Frag::InsertVersion(enc(b"a"), 1));
    let records = leaf_records(&node);
    assert_eq!(
        records,
        vec![(enc(b"a"), 1), (enc(b"b"), 2), (enc(b"c"), 3), (enc(b"d"), 4)]
    );
}

#[test]
fn insert_version_replaces_on_equal_key() {
    let mut node = unbounded_leaf(&[(b"a", 1), (b"b", 2)]);
    node.apply(&Frag::InsertVersion(enc(b"b"), 9));
    let records = leaf_records(&node);
    assert_eq!(records, vec![(enc(b"a"), 1), (enc(b"b"), 9)]);
}

#[test]
fn remove_version_deletes_and_ignores_absent() {
    let mut node = unbounded_leaf(&[(b"a", 1), (b"b", 2)]);
    node.apply(&Frag::RemoveVersion(enc(b"a")));
    assert_eq!(leaf_records(&node), vec![(enc(b"b"), 2)]);
    node.apply(&Frag::RemoveVersion(enc(b"z")));
    assert_eq!(leaf_records(&node), vec![(enc(b"b"), 2)]);
}

#[test]
fn parent_split_inserts_separator_sorted() {
    let mut parent = Node {
        id: 0,
        data: Data::Index(vec![(enc(b"a"), 10), (enc(b"m"), 20)]),
        next: None,
        lo: Vec::new(),
        hi: Vec::new(),
    };
    parent.apply(&Frag::ParentSplit(ParentSplit { at: b"g".to_vec(), to: 30 }));
    assert_eq!(
        index_records(&parent),
        vec![(enc(b"a"), 10), (enc(b"g"), 30), (enc(b"m"), 20)]
    );
}

#[test]
fn child_split_drops_upper_records() {
    let mut node = unbounded_leaf(&[(b"a", 1), (b"b", 2), (b"c", 3), (b"d", 4)]);
    node.apply(&Frag::ChildSplit(ChildSplit { at: b"c".to_vec(), to: 7 }));
    assert_eq!(leaf_records(&node), vec![(enc(b"a"), 1), (enc(b"b"), 2)]);
    assert_eq!(node.hi, b"c".to_vec());
    assert_eq!(node.next, Some(7));
}

#[test]
fn child_split_applies_to_index_nodes_too() {
    let mut parent = Node {
        id: 0,
        data: Data::Index(vec![(enc(b"a"), 10), (enc(b"g"), 30), (enc(b"m"), 20)]),
        next: None,
        lo: Vec::new(),
        hi: Vec::new(),
    };
    parent.apply(&Frag::ChildSplit(ChildSplit { at: b"m".to_vec(), to: 5 }));
    assert_eq!(index_records(&parent), vec![(enc(b"a"), 10), (enc(b"g"), 30)]);
    assert_eq!(parent.hi, b"m".to_vec());
    assert_eq!(parent.next, Some(5));
}

#[test]
fn prefixed_leaf_stores_keys_against_lo() {
    let lo = b"k:".to_vec();
    let mut node = Node {
        id: 4,
        data: Data::Leaf(Vec::new()),
        next: None,
        lo: lo.clone(),
        hi: b"k:z".to_vec(),
    };
    node.apply(&Frag::InsertVersion(pagecore::keys::prefix_encode(&lo, b"k:b"), 2));
    node.apply(&Frag::InsertVersion(pagecore::keys::prefix_encode(&lo, b"k:a"), 1));
    assert_eq!(
        leaf_records(&node),
        vec![(vec![2, b'a'], 1), (vec![2, b'b'], 2)]
    );
}

#[test]
fn size_in_bytes_counts_bounds_and_records() {
    // Fixed node overhead 80, empty bounds, and per record 16 plus the
    // two encoded key bytes: 80 + 5 * 18.
    let node = unbounded_leaf(&[(b"a", 1), (b"b", 2), (b"c", 3), (b"d", 4), (b"e", 5)]);
    assert_eq!(node.size_in_bytes(), 170);
}

#[test]
fn should_split_needs_both_size_and_count() {
    let big = unbounded_leaf(&[(b"a", 1), (b"b", 2), (b"c", 3), (b"d", 4), (b"e", 5)]);
    assert!(big.should_split(100));
    assert!(!big.should_split(1000));
    let small = unbounded_leaf(&[(b"a", 1), (b"b", 2)]);
    assert!(!small.should_split(1));
}

#[test]
fn split_round_trip() {
    let node = unbounded_leaf(&[(b"a", 1), (b"b", 2), (b"c", 3), (b"d", 4), (b"e", 5)]);
    assert!(node.should_split(100));
    let right = node.split(9);
    assert_eq!(right.id, 9);
    assert_eq!(right.lo, b"c".to_vec());
    assert_eq!(right.hi, Vec::<u8>::new());
    assert_eq!(right.next, None);
    let right_records = leaf_records(&right);
    assert_eq!(
        right_records,
        vec![
            (pagecore::keys::prefix_encode(b"c", b"c"), 3),
            (pagecore::keys::prefix_encode(b"c", b"d"), 4),
            (pagecore::keys::prefix_encode(b"c", b"e"), 5),
        ]
    );
    let mut left = node.clone();
    left.apply(&Frag::ChildSplit(ChildSplit { at: right.lo.clone(), to: 9 }));
    assert_eq!(left.hi, right.lo);
    assert_eq!(left.next, Some(9));
    assert_eq!(leaf_records(&left), vec![(enc(b"a"), 1), (enc(b"b"), 2)]);
}

#[test]
fn unwrap_accessors_return_payloads() {
    let node = unbounded_leaf(&[(b"a", 1)]);
    let base = Frag::Base(node);
    assert_eq!(leaf_records(base.unwrap_base()), vec![(enc(b"a"), 1)]);

    let versions = pagecore::versions::Versions::default();
    let vfrag = Frag::Versions(versions);
    assert!(!vfrag.unwrap_versions().has_pending());

    let meta = Frag::Meta(Meta { collections: vec![(b"tree".to_vec(), 3)] });
    assert_eq!(meta.unwrap_meta().collections, vec![(b"tree".to_vec(), 3)]);
}
