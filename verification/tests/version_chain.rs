use pagecore::frag::Frag;
use pagecore::versions::{pull_version, Config, ConcatMerge, MergeOp, Version, Versions};

fn no_merge_cfg() -> Config<ConcatMerge> {
    Config { merge_operator: None, max_node_size_bytes: 0 }
}

fn concat_cfg() -> Config<ConcatMerge> {
    Config { merge_operator: Some(ConcatMerge), max_node_size_bytes: 0 }
}

fn commit(v: &mut Versions, frag: Frag, ts: u64) {
    v.apply(&frag);
    v.apply(&Frag::VersionCommit(ts));
}

#[test]
fn empty_chain_reads_nothing() {
    let v = Versions::default();
    let cfg = no_merge_cfg();
    assert_eq!(v.visible(b"k", 100, &cfg), (0, None));
    assert!(!v.has_pending());
    assert_eq!(v.highest_visible_timestamp(), 0);
}

#[test]
fn plain_set_get() {
    let mut v = Versions::default();
    commit(&mut v, Frag::VersionPendingSet(5, b"a".to_vec()), 5);
    let cfg = no_merge_cfg();
    assert_eq!(v.visible(b"k", 10, &cfg), (5, Some(b"a".to_vec())));
    assert_eq!(v.visible(b"k", 4, &cfg), (0, None));
}

#[test]
fn pending_masking() {
    let mut v = Versions::default();
    v.apply(&Frag::VersionPendingSet(7, b"b".to_vec()));
    let cfg = no_merge_cfg();
    assert_eq!(v.visible(b"k", 7, &cfg), (7, Some(b"b".to_vec())));
    assert_eq!(v.visible(b"k", 6, &cfg), (0, None));
    assert!(v.has_pending());
    assert_eq!(v.highest_visible_timestamp(), 0);
}

#[test]
fn tombstone() {
    let mut v = Versions::default();
    commit(&mut v, Frag::VersionPendingSet(3, b"x".to_vec()), 3);
    commit(&mut v, Frag::VersionPendingDel(5), 5);
    let cfg = no_merge_cfg();
    assert_eq!(v.visible(b"k", 4, &cfg), (3, Some(b"x".to_vec())));
    assert_eq!(v.visible(b"k", 5, &cfg), (5, None));
}

#[test]
fn merge_fold() {
    let mut v = Versions::default();
    commit(&mut v, Frag::VersionPendingSet(1, b"A".to_vec()), 1);
    commit(&mut v, Frag::VersionPendingMerge(2, b"B".to_vec()), 2);
    commit(&mut v, Frag::VersionPendingMerge(3, b"C".to_vec()), 3);
    let cfg = concat_cfg();
    assert_eq!(v.visible(b"k", 3, &cfg), (3, Some(b"ABC".to_vec())));
    assert_eq!(v.visible(b"k", 2, &cfg), (2, Some(b"AB".to_vec())));
}

#[test]
fn merge_without_base() {
    let mut v = Versions::default();
    commit(&mut v, Frag::VersionPendingMerge(1, b"X".to_vec()), 1);
    let cfg = concat_cfg();
    assert_eq!(v.visible(b"k", 1, &cfg), (1, Some(b"X".to_vec())));
}

#[test]
fn pending_merge_over_committed_base() {
    let mut v = Versions::default();
    commit(&mut v, Frag::VersionPendingSet(1, b"A".to_vec()), 1);
    v.apply(&Frag::VersionPendingMerge(2, b"B".to_vec()));
    let cfg = concat_cfg();
    assert_eq!(v.visible(b"k", 2, &cfg), (2, Some(b"AB".to_vec())));
    assert_eq!(v.visible(b"k", 1, &cfg), (1, Some(b"A".to_vec())));
}

#[test]
fn pending_del_at_own_timestamp() {
    let mut v = Versions::default();
    commit(&mut v, Frag::VersionPendingSet(2, b"v".to_vec()), 2);
    v.apply(&Frag::VersionPendingDel(9));
    let cfg = no_merge_cfg();
    assert_eq!(v.visible(b"k", 9, &cfg), (9, None));
    assert_eq!(v.visible(b"k", 8, &cfg), (2, Some(b"v".to_vec())));
}

#[test]
fn merge_then_delete_below() {
    // A deletion under a stack of merges supplies no base: the merges
    // fold on their own.
    let mut v = Versions::default();
    commit(&mut v, Frag::VersionPendingDel(1), 1);
    commit(&mut v, Frag::VersionPendingMerge(2, b"M".to_vec()), 2);
    let cfg = concat_cfg();
    assert_eq!(v.visible(b"k", 2, &cfg), (2, Some(b"M".to_vec())));
    assert_eq!(v.visible(b"k", 1, &cfg), (1, None));
}

#[test]
fn commit_then_read_back_timestamps() {
    let mut v = Versions::default();
    commit(&mut v, Frag::VersionPendingSet(4, b"p".to_vec()), 4);
    assert_eq!(v.highest_visible_timestamp(), 4);
    assert!(!v.has_pending());
    commit(&mut v, Frag::VersionPendingSet(6, b"q".to_vec()), 6);
    assert_eq!(v.highest_visible_timestamp(), 6);
    let cfg = no_merge_cfg();
    assert_eq!(v.visible(b"k", 5, &cfg), (4, Some(b"p".to_vec())));
    assert_eq!(v.visible(b"k", 6, &cfg), (6, Some(b"q".to_vec())));
}

#[test]
fn snapshot_is_stable_under_later_frags() {
    let mut v = Versions::default();
    commit(&mut v, Frag::VersionPendingSet(3, b"old".to_vec()), 3);
    let cfg = no_merge_cfg();
    let before = v.visible(b"k", 3, &cfg);
    commit(&mut v, Frag::VersionPendingSet(8, b"new".to_vec()), 8);
    v.apply(&Frag::VersionPendingDel(11));
    assert_eq!(v.visible(b"k", 3, &cfg), before);
    assert_eq!(before, (3, Some(b"old".to_vec())));
}

#[test]
fn version_ts() {
    assert_eq!(Version::Del(3).ts(), 3);
    assert_eq!(Version::Put(4, b"v".to_vec()).ts(), 4);
    assert_eq!(Version::Merge(5, b"w".to_vec()).ts(), 5);
}

#[test]
fn rts_bump_takes_maximum() {
    let mut v = Versions::default();
    v.bump_rts(5);
    v.bump_rts(3);
    v.bump_rts(7);
    v.bump_rts(6);
    assert_eq!(v.rts, 7);
}

#[test]
fn rts_does_not_affect_visible() {
    let mut a = Versions::default();
    commit(&mut a, Frag::VersionPendingSet(2, b"z".to_vec()), 2);
    let mut b = a.clone();
    b.bump_rts(1000);
    let cfg = no_merge_cfg();
    assert_eq!(a.visible(b"k", 2, &cfg), b.visible(b"k", 2, &cfg));
    assert_eq!(a.visible(b"k", 1, &cfg), b.visible(b"k", 1, &cfg));
}

#[test]
fn concat_merge_operator() {
    let op = ConcatMerge;
    assert_eq!(op.merge(b"k", None, b"X"), Some(b"X".to_vec()));
    assert_eq!(op.merge(b"k", Some(b"A"), b"B"), Some(b"AB".to_vec()));
}

#[test]
fn pull_version_reads_fetched_chain() {
    let mut v = Versions::default();
    commit(&mut v, Frag::VersionPendingSet(5, b"a".to_vec()), 5);
    let frag = Frag::Versions(v);
    let cfg = no_merge_cfg();
    let got = pull_version(Ok(&frag), b"k", 10, &cfg);
    assert_eq!(got, Ok((5, Some(b"a".to_vec()))));
}

#[test]
fn pull_version_propagates_fetch_failure() {
    let cfg = no_merge_cfg();
    let got = pull_version::<ConcatMerge>(Err(()), b"k", 10, &cfg);
    assert_eq!(got, Err(()));
}
