use mini_lsm::merge::MergeIterator;
use mini_lsm::table::SsTable;
use mini_lsm::table::SsTableBuilder;
use mini_lsm::table::SsTableIterator;
use std::sync::Arc;

fn reader_over(id: u64, pairs: &[(&[u8], &[u8])]) -> SsTableIterator {
    let mut b = SsTableBuilder::new(4096);
    for (k, v) in pairs.iter() {
        b.add(k.to_vec(), v.to_vec());
    }
    SsTableIterator::create_and_seek_to_first(Arc::new(b.build(id)))
}

fn drain(mut iter: MergeIterator) -> Vec<(Vec<u8>, Vec<u8>)> {
    let mut out = Vec::new();
    while iter.is_valid() {
        out.push((iter.key(), iter.value()));
        iter.next();
    }
    out
}

#[test]
fn reader_walks_table_in_order() {
    let mut r = reader_over(1, &[(b"a", b"1"), (b"b", b"2")]);
    assert!(r.is_valid());
    assert_eq!(r.key(), b"a".to_vec());
    assert_eq!(r.value(), b"1".to_vec());
    r.next();
    assert!(r.is_valid());
    assert_eq!(r.key(), b"b".to_vec());
    r.next();
    assert!(!r.is_valid());
}

#[test]
fn reader_on_empty_table_is_exhausted() {
    let b = SsTableBuilder::new(4096);
    let t: SsTable = b.build(5);
    let r = SsTableIterator::create_and_seek_to_first(Arc::new(t));
    assert!(!r.is_valid());
}

#[test]
fn merge_deduplicates_with_newest_first() {
    let newer = reader_over(1, &[(b"a", b"new-a"), (b"c", b"new-c")]);
    let older = reader_over(2, &[(b"a", b"old-a"), (b"b", b"old-b")]);
    let merged = drain(MergeIterator::create(vec![newer, older]));
    let expected: Vec<(Vec<u8>, Vec<u8>)> = vec![
        (b"a".to_vec(), b"new-a".to_vec()),
        (b"b".to_vec(), b"old-b".to_vec()),
        (b"c".to_vec(), b"new-c".to_vec()),
    ];
    assert_eq!(merged, expected);
}

#[test]
fn merge_surfaces_tombstones() {
    let newer = reader_over(1, &[(b"k", b"")]);
    let older = reader_over(2, &[(b"k", b"live")]);
    let merged = drain(MergeIterator::create(vec![newer, older]));
    assert_eq!(merged, vec![(b"k".to_vec(), b"".to_vec())]);
}

#[test]
fn merge_of_no_readers_is_empty() {
    let merged = drain(MergeIterator::create(Vec::new()));
    assert!(merged.is_empty());
}

#[test]
fn merge_of_single_reader_passes_through() {
    let only = reader_over(1, &[(b"p", b"1"), (b"q", b"2"), (b"r", b"3")]);
    let merged = drain(MergeIterator::create(vec![only]));
    let expected: Vec<(Vec<u8>, Vec<u8>)> = vec![
        (b"p".to_vec(), b"1".to_vec()),
        (b"q".to_vec(), b"2".to_vec()),
        (b"r".to_vec(), b"3".to_vec()),
    ];
    assert_eq!(merged, expected);
}

#[test]
fn builder_tracks_estimated_size() {
    let mut b = SsTableBuilder::new(4096);
    assert_eq!(b.estimated_size(), 0);
    b.add(b"key".to_vec(), b"value".to_vec());
    assert_eq!(b.estimated_size(), 8);
    b.add(b"longer-key".to_vec(), b"v".to_vec());
    assert_eq!(b.estimated_size(), 19);
    let t = b.build(42);
    assert_eq!(t.id, 42);
    assert_eq!(t.entries.len(), 2);
}
