use mini_lsm::storage::CompactOptions;
use mini_lsm::storage::LsmStorage;
use mini_lsm::table::SsTable;
use mini_lsm::table::SsTableBuilder;
use std::sync::Arc;

fn table_from(id: u64, pairs: &[(&[u8], &[u8])]) -> Arc<SsTable> {
    let mut b = SsTableBuilder::new(4096);
    for (k, v) in pairs.iter() {
        b.add(k.to_vec(), v.to_vec());
    }
    Arc::new(b.build(id))
}

fn flatten(tables: &[Arc<SsTable>]) -> Vec<(Vec<u8>, Vec<u8>)> {
    let mut out = Vec::new();
    for t in tables.iter() {
        for e in t.entries.iter() {
            out.push((e.key.clone(), e.value.clone()));
        }
    }
    out
}

fn opts(target: usize, bottom: bool) -> CompactOptions {
    CompactOptions { block_size: 4096, target_sst_size: target, compact_to_bottom_level: bottom }
}

#[test]
fn two_tables_passthrough_keeps_tombstone() {
    // newer = {a:1, b:<tombstone>}, older = {a:0, b:2, c:3}
    let newer = table_from(1, &[(b"a", b"1"), (b"b", b"")]);
    let older = table_from(2, &[(b"a", b"0"), (b"b", b"2"), (b"c", b"3")]);
    let mut storage = LsmStorage::new();
    let out = storage.compact(vec![newer, older], opts(1 << 20, false));
    let entries = flatten(&out);
    let expected: Vec<(Vec<u8>, Vec<u8>)> = vec![
        (b"a".to_vec(), b"1".to_vec()),
        (b"b".to_vec(), b"".to_vec()),
        (b"c".to_vec(), b"3".to_vec()),
    ];
    assert_eq!(entries, expected);
}

#[test]
fn two_tables_bottom_level_drops_tombstone() {
    let newer = table_from(1, &[(b"a", b"1"), (b"b", b"")]);
    let older = table_from(2, &[(b"a", b"0"), (b"b", b"2"), (b"c", b"3")]);
    let mut storage = LsmStorage::new();
    let out = storage.compact(vec![newer, older], opts(1 << 20, true));
    let entries = flatten(&out);
    let expected: Vec<(Vec<u8>, Vec<u8>)> = vec![
        (b"a".to_vec(), b"1".to_vec()),
        (b"c".to_vec(), b"3".to_vec()),
    ];
    assert_eq!(entries, expected);
}

#[test]
fn rotation_closes_after_crossing_threshold() {
    // 10 entries of 100 bytes each (3-byte key + 97-byte value), target 250:
    // tables close after crossing, so sizes are 300, 300, 300, 100.
    let mut pairs: Vec<(Vec<u8>, Vec<u8>)> = Vec::new();
    for i in 0..10u8 {
        let key = vec![b'k', b'0' + i / 10, b'0' + i % 10];
        let value = vec![b'x'; 97];
        pairs.push((key, value));
    }
    let borrowed: Vec<(&[u8], &[u8])> =
        pairs.iter().map(|(k, v)| (k.as_slice(), v.as_slice())).collect();
    let input = table_from(7, &borrowed);
    let mut storage = LsmStorage::new();
    let out = storage.compact(vec![input], opts(250, false));
    assert_eq!(out.len(), 4);
    let counts: Vec<usize> = out.iter().map(|t| t.entries.len()).collect();
    assert_eq!(counts, vec![3, 3, 3, 1]);
    let sizes: Vec<usize> = out
        .iter()
        .map(|t| t.entries.iter().map(|e| e.key.len() + e.value.len()).sum())
        .collect();
    assert_eq!(sizes, vec![300, 300, 300, 100]);
    // The merged content survives repacking unchanged.
    assert_eq!(flatten(&out), pairs);
}

#[test]
fn empty_input_gives_empty_output() {
    let mut storage = LsmStorage::new();
    let out = storage.compact(Vec::new(), opts(100, true));
    assert!(out.is_empty());
}

#[test]
fn newest_source_wins_on_key_collision() {
    let newest = table_from(1, &[(b"k", b"newest")]);
    let middle = table_from(2, &[(b"k", b"middle")]);
    let oldest = table_from(3, &[(b"k", b"oldest")]);
    let mut storage = LsmStorage::new();
    let out = storage.compact(vec![newest, middle, oldest], opts(1 << 20, false));
    let entries = flatten(&out);
    assert_eq!(entries, vec![(b"k".to_vec(), b"newest".to_vec())]);
}

#[test]
fn overlapping_ranges_match_reference_merge() {
    let t0 = table_from(1, &[(b"b", b"b0"), (b"d", b"d0"), (b"f", b"")]);
    let t1 = table_from(2, &[(b"a", b"a1"), (b"d", b"d1"), (b"e", b"e1")]);
    let t2 = table_from(3, &[(b"c", b"c2"), (b"f", b"f2"), (b"g", b"g2")]);
    let mut storage = LsmStorage::new();
    let out = storage.compact(vec![t0, t1, t2], opts(1 << 20, false));
    // Brute-force reference: oldest first, newer overwrites.
    let mut reference = std::collections::BTreeMap::new();
    for pairs in [
        vec![(b"c".to_vec(), b"c2".to_vec()), (b"f".to_vec(), b"f2".to_vec()), (b"g".to_vec(), b"g2".to_vec())],
        vec![(b"a".to_vec(), b"a1".to_vec()), (b"d".to_vec(), b"d1".to_vec()), (b"e".to_vec(), b"e1".to_vec())],
        vec![(b"b".to_vec(), b"b0".to_vec()), (b"d".to_vec(), b"d0".to_vec()), (b"f".to_vec(), b"".to_vec())],
    ] {
        for (k, v) in pairs {
            reference.insert(k, v);
        }
    }
    let expected: Vec<(Vec<u8>, Vec<u8>)> = reference.into_iter().collect();
    assert_eq!(flatten(&out), expected);
}

#[test]
fn outputs_are_sorted_and_disjoint() {
    let t0 = table_from(1, &[(b"b", b"1"), (b"d", b"2"), (b"f", b"3"), (b"h", b"4")]);
    let t1 = table_from(2, &[(b"a", b"5"), (b"c", b"6"), (b"e", b"7"), (b"g", b"8")]);
    let mut storage = LsmStorage::new();
    let out = storage.compact(vec![t0, t1], opts(4, false));
    assert!(out.len() > 1);
    for t in out.iter() {
        for w in t.entries.windows(2) {
            assert!(w[0].key < w[1].key);
        }
    }
    for w in out.windows(2) {
        let last = &w[0].entries.last().unwrap().key;
        let first = &w[1].entries.first().unwrap().key;
        assert!(last < first);
    }
}

#[test]
fn bottom_level_output_has_no_tombstones_and_is_fixed_point() {
    let t0 = table_from(1, &[(b"a", b""), (b"b", b"1"), (b"c", b"")]);
    let t1 = table_from(2, &[(b"b", b"0"), (b"c", b"2"), (b"d", b"3")]);
    let mut storage = LsmStorage::new();
    let out = storage.compact(vec![t0, t1], opts(1 << 20, true));
    let entries = flatten(&out);
    for (_, v) in entries.iter() {
        assert!(!v.is_empty());
    }
    let expected: Vec<(Vec<u8>, Vec<u8>)> = vec![
        (b"b".to_vec(), b"1".to_vec()),
        (b"d".to_vec(), b"3".to_vec()),
    ];
    assert_eq!(entries, expected);
    // Compacting the result again at the bottom level changes nothing.
    let again = storage.compact(out, opts(1 << 20, true));
    assert_eq!(flatten(&again), expected);
}

#[test]
fn large_entries_close_every_table_after_one_entry() {
    // Entries of 60 bytes with target 100: each table crosses the
    // threshold on its second entry, so tables hold 120, 120, 60 bytes.
    let mut pairs: Vec<(Vec<u8>, Vec<u8>)> = Vec::new();
    for i in 0..5u8 {
        pairs.push((vec![b'a' + i], vec![b'v'; 59]));
    }
    let borrowed: Vec<(&[u8], &[u8])> =
        pairs.iter().map(|(k, v)| (k.as_slice(), v.as_slice())).collect();
    let input = table_from(9, &borrowed);
    let mut storage = LsmStorage::new();
    let out = storage.compact(vec![input], opts(100, false));
    let sizes: Vec<usize> = out
        .iter()
        .map(|t| t.entries.iter().map(|e| e.key.len() + e.value.len()).sum())
        .collect();
    assert_eq!(sizes, vec![120, 120, 60]);
}

#[test]
fn identifiers_are_fresh_and_monotonic() {
    let mut storage = LsmStorage::new();
    let first = storage.next_sst_id();
    let second = storage.next_sst_id();
    assert_eq!(first, 0);
    assert_eq!(second, 1);
    let t0 = table_from(100, &[(b"a", b"1"), (b"b", b"2"), (b"c", b"3")]);
    let out = storage.compact(vec![t0], opts(2, false));
    let ids: Vec<u64> = out.iter().map(|t| t.id).collect();
    assert_eq!(ids, vec![2, 3, 4]);
    let t1 = table_from(101, &[(b"x", b"9")]);
    let out2 = storage.compact(vec![t1], opts(2, false));
    assert_eq!(out2[0].id, 5);
}
