use fedimint_core::store::{
    compare_bytes, BatchAnomaly, BatchItem, DatabaseError, KvMap, Tree,
};

fn entry(k: &[u8], v: &[u8]) -> (Vec<u8>, Vec<u8>) {
    (k.to_vec(), v.to_vec())
}

#[test]
fn raw_insert_get_remove() {
    let mut m = KvMap::new();
    assert_eq!(m.insert_raw(b"b".to_vec(), b"1".to_vec()), None);
    assert_eq!(m.insert_raw(b"a".to_vec(), b"2".to_vec()), None);
    assert_eq!(m.insert_raw(b"b".to_vec(), b"3".to_vec()), Some(b"1".to_vec()));
    assert_eq!(m.get_raw(b"b"), Some(b"3".to_vec()));
    assert_eq!(m.get_raw(b"c"), None);
    assert_eq!(m.remove_raw(b"a"), Some(b"2".to_vec()));
    assert_eq!(m.remove_raw(b"a"), None);
    assert_eq!(m.get_raw(b"a"), None);
}

#[test]
fn prefix_search_is_ordered_and_exact() {
    let mut m = KvMap::new();
    for k in [&b"ab2"[..], b"b", b"ab1", b"a", b"abc", b"ac"] {
        m.insert_raw(k.to_vec(), k.to_vec());
    }
    let found: Vec<Vec<u8>> = m.find_by_prefix(b"ab").into_iter().map(|e| e.0).collect();
    assert_eq!(found, vec![b"ab1".to_vec(), b"ab2".to_vec(), b"abc".to_vec()]);
    assert_eq!(m.find_by_prefix(b"").len(), 6);
    assert!(m.find_by_prefix(b"z").is_empty());
}

#[test]
fn byte_order_is_lexicographic() {
    assert!(compare_bytes(b"a", b"b") < 0);
    assert!(compare_bytes(b"ab", b"a") > 0);
    assert!(compare_bytes(b"", b"a") < 0);
    assert_eq!(compare_bytes(b"abc", b"abc"), 0);
    assert!(compare_bytes(&[0xff], &[0x00, 0x01]) > 0);
}

#[test]
fn typed_entries_round_trip_through_codec() {
    let mut m = KvMap::new();
    assert_eq!(m.insert_entry::<u64, String>(&7, &"seven".to_string()), Ok(None));
    assert_eq!(
        m.insert_entry::<u64, String>(&7, &"SEVEN".to_string()),
        Ok(Some("seven".to_string()))
    );
    assert_eq!(m.get_value::<u64, String>(&7), Ok(Some("SEVEN".to_string())));
    assert_eq!(m.get_value::<u64, String>(&8), Ok(None));
    assert_eq!(m.remove_entry::<u64, String>(&7), Ok(Some("SEVEN".to_string())));
    assert_eq!(m.get_value::<u64, String>(&7), Ok(None));
}

#[test]
fn undecodable_stored_value_is_a_hard_error() {
    let mut m = KvMap::new();
    // key 1u64 encodes as [1]; the value is not a valid bool
    m.insert_raw(vec![1], vec![7]);
    assert_eq!(
        m.get_value::<u64, bool>(&1),
        Err(DatabaseError::Decode(fedimint_core::encoding::DecodeError::InvalidFlag))
    );
}

#[test]
fn batch_with_failed_expectation_still_commits_everything() {
    let mut tree = Tree::new();
    tree.apply_batch(&[BatchItem::InsertElement(entry(b"k2", b"old"))]);
    let batch = [
        BatchItem::InsertNewElement(entry(b"k1", b"v1")),
        BatchItem::InsertNewElement(entry(b"k2", b"v2")),
        BatchItem::InsertElement(entry(b"k3", b"v3")),
    ];
    let anomalies = tree.apply_batch(&batch);
    assert_eq!(anomalies, vec![BatchAnomaly::ReplacedElement(1)]);
    let snapshot = tree.snapshot();
    assert_eq!(snapshot.get_raw(b"k1"), Some(b"v1".to_vec()));
    assert_eq!(snapshot.get_raw(b"k2"), Some(b"v2".to_vec()));
    assert_eq!(snapshot.get_raw(b"k3"), Some(b"v3".to_vec()));
}

#[test]
fn batch_deletes_report_absent_keys() {
    let mut tree = Tree::new();
    let anomalies = tree.apply_batch(&[
        BatchItem::InsertElement(entry(b"a", b"1")),
        BatchItem::DeleteElement(b"a".to_vec()),
        BatchItem::DeleteElement(b"a".to_vec()),
        BatchItem::MaybeDeleteElement(b"a".to_vec()),
    ]);
    assert_eq!(anomalies, vec![BatchAnomaly::DeletedAbsentElement(2)]);
    assert_eq!(tree.snapshot().get_raw(b"a"), None);
}

#[test]
fn transaction_commits_atomically() {
    let mut tree = Tree::new();
    let mut tx = tree.begin_transaction();
    tx.insert_raw(b"x".to_vec(), b"1".to_vec());
    tx.insert_raw(b"y".to_vec(), b"2".to_vec());
    assert_eq!(tree.snapshot().get_raw(b"x"), None);
    assert_eq!(tree.commit(tx), Ok(()));
    assert_eq!(tree.snapshot().get_raw(b"x"), Some(b"1".to_vec()));
    assert_eq!(tree.snapshot().get_raw(b"y"), Some(b"2".to_vec()));
}

#[test]
fn conflicting_transaction_is_refused_and_leaves_no_trace() {
    let mut tree = Tree::new();
    let mut first = tree.begin_transaction();
    let mut second = tree.begin_transaction();
    first.insert_raw(b"x".to_vec(), b"first".to_vec());
    second.insert_raw(b"x".to_vec(), b"second".to_vec());
    second.insert_raw(b"z".to_vec(), b"second".to_vec());
    assert_eq!(tree.commit(first), Ok(()));
    assert_eq!(tree.commit(second), Err(DatabaseError::Conflict));
    assert_eq!(tree.snapshot().get_raw(b"x"), Some(b"first".to_vec()));
    assert_eq!(tree.snapshot().get_raw(b"z"), None);
}

#[test]
fn dropped_transaction_changes_nothing() {
    let mut tree = Tree::new();
    {
        let mut tx = tree.begin_transaction();
        tx.insert_raw(b"x".to_vec(), b"1".to_vec());
    }
    assert_eq!(tree.snapshot().get_raw(b"x"), None);
    let tx = tree.begin_transaction();
    assert_eq!(tree.commit(tx), Ok(()));
}
