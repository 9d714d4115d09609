use keyindex::{
    binary_search_dna, build_index, build_index_file, build_index_sequential, decode_index,
    decode_records, encode_index, lookup, lookup_sorted, sort_records, u64_to_acgt, IndexEntry,
    Record, StoreError,
};

fn record_bytes(rows: &[(u64, u64)]) -> Vec<u8> {
    let mut out = Vec::new();
    for (k, v) in rows {
        out.extend_from_slice(&k.to_le_bytes());
        out.extend_from_slice(&v.to_le_bytes());
    }
    out
}

fn four_records() -> Vec<Record> {
    decode_records(&record_bytes(&[(30, 1), (10, 2), (20, 3), (10, 4)])).unwrap()
}

fn positions_for(index: &[IndexEntry], key: u64) -> Vec<u64> {
    let mut ps: Vec<u64> = index.iter().filter(|e| e.key == key).map(|e| e.position).collect();
    ps.sort();
    ps
}

#[test]
fn decode_reads_little_endian_rows() {
    let recs = decode_records(&record_bytes(&[(1, 2), (u64::MAX, 0x0102030405060708)])).unwrap();
    assert_eq!(recs, vec![Record { key: 1, value: 2 }, Record { key: u64::MAX, value: 0x0102030405060708 }]);
}

#[test]
fn decode_rejects_partial_row() {
    let mut bytes = record_bytes(&[(1, 2)]);
    bytes.push(7);
    assert_eq!(decode_records(&bytes), Err(StoreError::CorruptFormat));
    assert_eq!(decode_index(&bytes[..15]), Err(StoreError::CorruptFormat));
    assert_eq!(build_index_file(&bytes), Err(StoreError::CorruptFormat));
}

#[test]
fn four_record_scenario() {
    let recs = four_records();
    let index = build_index(&recs);
    let keys: Vec<u64> = index.iter().map(|e| e.key).collect();
    assert_eq!(keys, vec![10, 10, 20, 30]);
    assert_eq!(positions_for(&index, 10), vec![1, 3]);
    assert_eq!(index[2], IndexEntry { key: 20, position: 2 });
    assert_eq!(index[3], IndexEntry { key: 30, position: 0 });
    assert_eq!(lookup(&index, &recs, 20), Some(Record { key: 20, value: 3 }));
    let ten = lookup(&index, &recs, 10).unwrap();
    assert_eq!(ten.key, 10);
    assert!(ten.value == 2 || ten.value == 4);
    assert_eq!(lookup(&index, &recs, 99), None);
}

#[test]
fn empty_record_file() {
    let recs = decode_records(&[]).unwrap();
    assert!(recs.is_empty());
    let index = build_index(&recs);
    assert!(index.is_empty());
    assert!(encode_index(&index).is_empty());
    assert_eq!(build_index_file(&[]), Ok(Vec::new()));
    assert_eq!(lookup(&index, &recs, 0), None);
    assert_eq!(lookup(&index, &recs, u64::MAX), None);
    assert_eq!(binary_search_dna(&index, 5), None);
}

#[test]
fn index_is_permutation_of_positions() {
    let rows: Vec<(u64, u64)> = (0..50u64).map(|i| ((i * 37) % 11, i)).collect();
    let recs = decode_records(&record_bytes(&rows)).unwrap();
    let index = build_index(&recs);
    assert_eq!(index.len(), recs.len());
    let mut ps: Vec<u64> = index.iter().map(|e| e.position).collect();
    ps.sort();
    assert_eq!(ps, (0..50u64).collect::<Vec<u64>>());
}

#[test]
fn parallel_and_sequential_builds_agree() {
    let rows: Vec<(u64, u64)> = (0..200u64).map(|i| ((i * 7919) % 23, i)).collect();
    let recs = decode_records(&record_bytes(&rows)).unwrap();
    let a = build_index(&recs);
    let b = build_index_sequential(&recs);
    for w in a.windows(2) {
        assert!(w[0].key <= w[1].key);
    }
    for w in b.windows(2) {
        assert!(w[0].key <= w[1].key);
    }
    for key in 0..23u64 {
        assert_eq!(positions_for(&a, key), positions_for(&b, key));
    }
}

#[test]
fn search_finds_present_and_rejects_absent() {
    let keys: Vec<u64> = vec![2, 4, 4, 4, 8, 10, 10, 20];
    let rows: Vec<Record> = keys.iter().map(|&k| Record { key: k, value: k * 100 }).collect();
    for &k in &keys {
        let i = binary_search_dna(&rows, k).unwrap();
        assert_eq!(rows[i].key, k);
    }
    for k in [0u64, 1, 3, 5, 9, 15, 21, u64::MAX] {
        assert_eq!(binary_search_dna(&rows, k), None);
    }
    assert_eq!(binary_search_dna(&rows, 8), Some(4));
}

#[test]
fn resolve_round_trip() {
    let rows = [(5u64, 50u64), (3, 30), (9, 90), (3, 31), (0, 7)];
    let bytes = record_bytes(&rows);
    let recs = decode_records(&bytes).unwrap();
    let index = build_index(&recs);
    let mut resolved: Vec<(u64, u64)> = index
        .iter()
        .map(|e| {
            let r = recs[e.position as usize];
            assert_eq!(r.key, e.key);
            (r.key, r.value)
        })
        .collect();
    resolved.sort();
    let mut expected = rows.to_vec();
    expected.sort();
    assert_eq!(resolved, expected);
}

#[test]
fn index_file_round_trip() {
    let recs = four_records();
    let file = build_index_file(&record_bytes(&[(30, 1), (10, 2), (20, 3), (10, 4)])).unwrap();
    assert_eq!(file.len(), 64);
    let entries = decode_index(&file).unwrap();
    assert_eq!(entries.len(), 4);
    assert_eq!(entries[3], IndexEntry { key: 30, position: 0 });
    assert_eq!(encode_index(&entries), file);
    for e in &entries {
        assert_eq!(recs[e.position as usize].key, e.key);
    }
    assert_eq!(&file[48..56], &30u64.to_le_bytes());
    assert_eq!(&file[56..64], &0u64.to_le_bytes());
}

#[test]
fn in_memory_variant_sorts_and_finds() {
    let recs = four_records();
    let sorted = sort_records(&recs);
    let keys: Vec<u64> = sorted.iter().map(|r| r.key).collect();
    assert_eq!(keys, vec![10, 10, 20, 30]);
    assert_eq!(sorted[3], Record { key: 30, value: 1 });
    assert_eq!(lookup_sorted(&sorted, 20), Some(Record { key: 20, value: 3 }));
    assert_eq!(lookup_sorted(&sorted, 30), Some(Record { key: 30, value: 1 }));
    assert_eq!(lookup_sorted(&sorted, 11), None);
}

#[test]
fn codec_extremes() {
    assert_eq!(u64_to_acgt(0), "A".repeat(32));
    assert_eq!(u64_to_acgt(u64::MAX), "T".repeat(32));
}

#[test]
fn codec_symbol_order() {
    assert_eq!(u64_to_acgt(0b11100100), format!("{}TGCA", "A".repeat(28)));
    assert_eq!(u64_to_acgt(1 << 62), format!("C{}", "A".repeat(31)));
    for n in [1u64, 12345, 1 << 40, u64::MAX - 1] {
        assert_eq!(u64_to_acgt(n).len(), 32);
    }
}
