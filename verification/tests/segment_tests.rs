use lsm_store::catalog::{holds, Catalog};
use lsm_store::compactor::{compact, merge_runs, write_segments};
use lsm_store::engine::rebuild;
use lsm_store::entry::{Entry, Lookup, Value};
use lsm_store::error::StoreError;
use lsm_store::index::{decode_index, put_index_entry, read_index_entry, IndexEntry};
use lsm_store::manifest::{decode_manifest, encode_manifest};
use lsm_store::ss_table::{validate_body, find_block, scan_block, SSTable, SegmentWriter};
use lsm_store::tree::Subtree;
use lsm_store::wal::WalRecord;

fn s(text: &str) -> String {
    text.to_string()
}

fn present(text: &str) -> Value {
    Value::Present(text.to_string())
}

fn entry(key: &str, value: &str) -> Entry {
    Entry { key: s(key), value: present(value) }
}

fn marker(key: &str) -> Entry {
    Entry { key: s(key), value: Value::Tombstone }
}

fn letters() -> Vec<Entry> {
    vec![entry("b", "1"), entry("d", "2"), marker("f"), entry("h", "4"), entry("j", "5")]
}

#[test]
fn segment_image_layout() {
    let table = SSTable::new(7, &vec![entry("a", "1")], 1);
    assert_eq!(table.id(), 7);
    assert_eq!(table.body_len(), 19);
    let mut expected = vec![1, 0, 0, 0, 0, 0, 0, 0, b'a', 1, 1, 0, 0, 0, 0, 0, 0, 0, b'1'];
    // the index: key "a" at offset 0
    expected.extend_from_slice(&[1, 0, 0, 0, 0, 0, 0, 0, b'a', 0, 0, 0, 0, 0, 0, 0, 0]);
    // the footer: the index starts at 19 and has one entry
    expected.extend_from_slice(&[19, 0, 0, 0, 0, 0, 0, 0, 1, 0, 0, 0, 0, 0, 0, 0]);
    assert_eq!(table.as_bytes(), &expected);
}

#[test]
fn empty_segment() {
    let table = SSTable::new(1, &Vec::new(), 3);
    assert_eq!(table.as_bytes(), &vec![0u8; 16]);
    assert_eq!(table.get("a"), Lookup::Absent);
    assert_eq!(table.scan(), vec![]);
    let back = SSTable::from_bytes(1, vec![0u8; 16]).unwrap();
    assert_eq!(back.get("a"), Lookup::Absent);
}

#[test]
fn segment_lookup_uses_the_sparse_index() {
    for interval in 1..7 {
        let table = SSTable::new(1, &letters(), interval);
        assert_eq!(table.get("b"), Lookup::Present(s("1")));
        assert_eq!(table.get("d"), Lookup::Present(s("2")));
        assert_eq!(table.get("f"), Lookup::Tombstone);
        assert_eq!(table.get("h"), Lookup::Present(s("4")));
        assert_eq!(table.get("j"), Lookup::Present(s("5")));
        for missing in ["", "a", "c", "e", "g", "i", "k", "bb", "jj"] {
            assert_eq!(table.get(missing), Lookup::Absent);
        }
        assert_eq!(table.scan(), letters());
        // five entries need a sample every `interval`, starting with the first
        let samples = (5 + interval - 1) / interval;
        let bytes = table.as_bytes();
        assert_eq!(bytes[bytes.len() - 8] as usize, samples);
    }
}

#[test]
fn segment_from_tree_streams_in_key_order() {
    let mut tree = Subtree::new();
    for e in [entry("m", "1"), entry("c", "2"), entry("x", "3"), entry("a", "4")] {
        tree.insert(e.key, e.value);
    }
    tree.delete(s("c"));
    let table = SSTable::from_tree(3, &tree, 2);
    assert_eq!(
        table.scan(),
        vec![entry("a", "4"), marker("c"), entry("m", "1"), entry("x", "3")]
    );
    assert_eq!(table.get("c"), Lookup::Tombstone);
    assert_eq!(table.id(), 3);
}

#[test]
fn writer_builds_the_same_segment() {
    let mut w = SegmentWriter::new(9, 2);
    assert_eq!(w.body_len(), 0);
    for e in letters() {
        w.push(&e.key, &e.value);
    }
    assert_eq!(w.body_len(), 4 * 19 + 18);
    let table = w.finish();
    assert_eq!(table.as_bytes(), SSTable::new(9, &letters(), 2).as_bytes());
}

#[test]
fn segment_reads_back_from_bytes() {
    let table = SSTable::new(4, &letters(), 2);
    let back = SSTable::from_bytes(4, table.as_bytes().clone()).unwrap();
    assert_eq!(back.scan(), letters());
    assert_eq!(back.get("h"), Lookup::Present(s("4")));
    assert_eq!(back.get("i"), Lookup::Absent);
    assert_eq!(back.body_len(), table.body_len());
    assert_eq!(back.id(), 4);
}

#[test]
fn damaged_segments_are_refused() {
    let good = SSTable::new(4, &letters(), 2).as_bytes().clone();
    let refused = |bytes: Vec<u8>| {
        matches!(SSTable::from_bytes(4, bytes), Err(StoreError::Corruption))
    };
    assert!(refused(Vec::new()));
    assert!(refused(vec![0u8; 15]));
    // every single flipped byte of the body's framing, the index or the footer
    let mut cut = good.clone();
    cut.pop();
    assert!(refused(cut));
    let mut longer = good.clone();
    longer.push(0);
    assert!(refused(longer));
    let len = good.len();
    // the footer's count
    let mut bad = good.clone();
    bad[len - 8] += 1;
    assert!(refused(bad));
    // the footer's offset
    let mut bad = good.clone();
    bad[len - 16] += 1;
    assert!(refused(bad));
    // a tag
    let mut bad = good.clone();
    bad[9] = 7;
    assert!(refused(bad));
    // keys out of order: "b" becomes "z"
    let mut bad = good.clone();
    bad[8] = b'z';
    assert!(refused(bad));
    // an index key that is not the key of its entry
    let body_end = 4 * 19 + 18;
    let mut bad = good.clone();
    assert_eq!(bad[body_end + 8], b'b');
    bad[body_end + 8] = b'a';
    assert!(refused(bad));
    // an index offset inside an entry
    let mut bad = good.clone();
    assert_eq!(bad[body_end + 17 + 9], 38);
    bad[body_end + 17 + 9] = 39;
    assert!(refused(bad));
    // an index that does not start at the first entry
    let only_second = {
        let mut image = good[..body_end].to_vec();
        put_index_entry(&mut image, &IndexEntry { key: s("d"), offset: 19 });
        image.extend_from_slice(&(body_end as u64).to_le_bytes());
        image.extend_from_slice(&1u64.to_le_bytes());
        image
    };
    assert!(refused(only_second));
    // entries without an index
    let no_index = {
        let mut image = good[..body_end].to_vec();
        image.extend_from_slice(&(body_end as u64).to_le_bytes());
        image.extend_from_slice(&0u64.to_le_bytes());
        image
    };
    assert!(refused(no_index));
}

#[test]
fn index_entries_read_back() {
    let mut out = Vec::new();
    put_index_entry(&mut out, &IndexEntry { key: s("k"), offset: 513 });
    assert_eq!(out, vec![1, 0, 0, 0, 0, 0, 0, 0, b'k', 1, 2, 0, 0, 0, 0, 0, 0]);
    let (e, p) = read_index_entry(&out, 0, out.len()).unwrap();
    assert_eq!(e, IndexEntry { key: s("k"), offset: 513 });
    assert_eq!(p, 17);
    assert_eq!(read_index_entry(&out, 0, 16), None);
    put_index_entry(&mut out, &IndexEntry { key: s("m"), offset: 600 });
    let all = decode_index(&out, 0, out.len()).unwrap();
    assert_eq!(all.len(), 2);
    assert_eq!(all[1], IndexEntry { key: s("m"), offset: 600 });
    assert_eq!(decode_index(&out, 0, out.len() - 1), None);
    assert_eq!(decode_index(&out, 3, 3), Some(vec![]));
}

#[test]
fn block_search_and_scan() {
    let index = vec![
        IndexEntry { key: s("b"), offset: 0 },
        IndexEntry { key: s("f"), offset: 38 },
        IndexEntry { key: s("j"), offset: 75 },
    ];
    assert_eq!(find_block(&index, "a"), None);
    assert_eq!(find_block(&index, "b"), Some(0));
    assert_eq!(find_block(&index, "e"), Some(0));
    assert_eq!(find_block(&index, "f"), Some(1));
    assert_eq!(find_block(&index, "i"), Some(1));
    assert_eq!(find_block(&index, "j"), Some(2));
    assert_eq!(find_block(&index, "zzz"), Some(2));
    assert_eq!(find_block(&Vec::new(), "a"), None);
    let table = SSTable::new(1, &letters(), 2);
    let data = table.as_bytes();
    assert_eq!(scan_block(data, 0, 38, "d"), Lookup::Present(s("2")));
    assert_eq!(scan_block(data, 0, 38, "c"), Lookup::Absent);
    assert_eq!(scan_block(data, 0, 38, "f"), Lookup::Absent);
    assert_eq!(scan_block(data, 38, 75, "f"), Lookup::Tombstone);
    assert_eq!(scan_block(data, 38, 38, "f"), Lookup::Absent);
    assert!(validate_body(data, table.body_len(), &index));
    // any sampling that starts with the first entry fits
    let sparser = vec![IndexEntry { key: s("b"), offset: 0 }, IndexEntry { key: s("j"), offset: 75 }];
    assert!(validate_body(data, table.body_len(), &sparser));
    let wrong = vec![IndexEntry { key: s("b"), offset: 0 }, IndexEntry { key: s("f"), offset: 37 }];
    assert!(!validate_body(data, table.body_len(), &wrong));
    assert!(!validate_body(data, table.body_len(), &Vec::new()));
    assert!(validate_body(data, 0, &Vec::new()));
}

#[test]
fn catalog_orders_segments_newest_first() {
    let mut catalog = Catalog::new();
    assert_eq!(catalog.len(), 0);
    assert_eq!(catalog.newest_id(), None);
    assert_eq!(catalog.get("a"), Lookup::Absent);
    catalog.register(SSTable::new(1, &vec![entry("a", "old"), entry("b", "keep")], 1));
    catalog.register(SSTable::new(2, &vec![entry("a", "new"), marker("c")], 1));
    catalog.register(SSTable::new(5, &vec![entry("c", "back")], 1));
    assert_eq!(catalog.list(), vec![5, 2, 1]);
    assert_eq!(catalog.newest_id(), Some(5));
    assert_eq!(catalog.segment(1).id(), 2);
    assert_eq!(catalog.segments().len(), 3);
    assert_eq!(catalog.get("a"), Lookup::Present(s("new")));
    assert_eq!(catalog.get("b"), Lookup::Present(s("keep")));
    assert_eq!(catalog.get("c"), Lookup::Present(s("back")));
    assert_eq!(catalog.get("d"), Lookup::Absent);
    assert_eq!(catalog.retire(&vec![5, 1, 77]), vec![5, 1]);
    assert_eq!(catalog.list(), vec![2]);
    assert_eq!(catalog.get("c"), Lookup::Tombstone);
    assert_eq!(catalog.get("b"), Lookup::Absent);
    assert_eq!(catalog.retire(&Vec::new()), vec![]);
    assert_eq!(catalog.list(), vec![2]);
    assert!(holds(&vec![3, 4], 4));
    assert!(!holds(&vec![3, 4], 5));
    assert!(!holds(&Vec::new(), 0));
}

#[test]
fn catalog_loads_from_files() {
    let a = SSTable::new(1, &vec![entry("a", "1")], 1).as_bytes().clone();
    let b = SSTable::new(2, &vec![entry("a", "2")], 1).as_bytes().clone();
    let catalog = Catalog::load(vec![(9, b.clone()), (4, a.clone())]).unwrap();
    assert_eq!(catalog.list(), vec![9, 4]);
    assert_eq!(catalog.get("a"), Lookup::Present(s("2")));
    assert_eq!(Catalog::load(Vec::new()).unwrap().len(), 0);
    assert!(matches!(
        Catalog::load(vec![(4, b.clone()), (9, a.clone())]),
        Err(StoreError::Corruption)
    ));
    assert!(matches!(
        Catalog::load(vec![(4, b.clone()), (4, a.clone())]),
        Err(StoreError::Corruption)
    ));
    assert!(matches!(Catalog::load(vec![(9, b), (4, vec![1, 2, 3])]), Err(StoreError::Corruption)));
}

#[test]
fn merge_lets_the_newest_run_win() {
    let newest = vec![entry("a", "3"), marker("c"), entry("e", "9")];
    let middle = vec![entry("a", "2"), entry("b", "2"), entry("c", "2")];
    let oldest = vec![entry("a", "1"), entry("d", "1"), entry("e", "1"), entry("f", "1")];
    let runs = vec![newest, middle, oldest];
    assert_eq!(
        merge_runs(&runs, false),
        vec![
            entry("a", "3"),
            entry("b", "2"),
            marker("c"),
            entry("d", "1"),
            entry("e", "9"),
            entry("f", "1"),
        ]
    );
    assert_eq!(
        merge_runs(&runs, true),
        vec![entry("a", "3"), entry("b", "2"), entry("d", "1"), entry("e", "9"), entry("f", "1")]
    );
    assert_eq!(merge_runs(&Vec::new(), true), vec![]);
    assert_eq!(merge_runs(&vec![Vec::new(), Vec::new()], false), vec![]);
    assert_eq!(merge_runs(&vec![vec![marker("a")]], true), vec![]);
    assert_eq!(merge_runs(&vec![vec![marker("a")]], false), vec![marker("a")]);
    // an older value does not come back when the marker above it is dropped
    assert_eq!(merge_runs(&vec![vec![marker("a")], vec![entry("a", "1")]], true), vec![]);
}

#[test]
fn merged_runs_are_cut_at_the_size_limit() {
    let entries: Vec<Entry> = (0..7).map(|i| entry(&format!("k{}", i), "v")).collect();
    // each entry takes 8 + 2 + 1 + 8 + 1 = 20 bytes
    let tables = write_segments(&entries, 10, 2, 50);
    let shape: Vec<(u64, usize, usize)> =
        tables.iter().map(|t| (t.id(), t.body_len(), t.scan().len())).collect();
    assert_eq!(shape, vec![(10, 60, 3), (11, 60, 3), (12, 20, 1)]);
    let tables = write_segments(&entries, 1, 2, 0);
    assert_eq!(tables.len(), 7);
    let tables = write_segments(&entries, 1, 2, 140);
    assert_eq!(tables.len(), 1);
    assert_eq!(tables[0].scan(), entries);
    let tables = write_segments(&entries, 1, 2, 141);
    assert_eq!(tables.len(), 1);
    assert_eq!(write_segments(&Vec::new(), 1, 2, 10).len(), 0);
}

#[test]
fn compact_merges_segments() {
    let tables = vec![
        SSTable::new(2, &vec![entry("a", "new"), marker("b")], 1),
        SSTable::new(1, &vec![entry("a", "old"), entry("b", "old"), entry("c", "old")], 1),
    ];
    let outs = compact(&tables, true, 3, 4, 1 << 20).unwrap();
    assert_eq!(outs.len(), 1);
    assert_eq!(outs[0].id(), 3);
    assert_eq!(outs[0].scan(), vec![entry("a", "new"), entry("c", "old")]);
    let outs = compact(&tables, false, 3, 4, 1 << 20).unwrap();
    assert_eq!(outs[0].scan(), vec![entry("a", "new"), marker("b"), entry("c", "old")]);
    // the inputs are untouched
    assert_eq!(tables[1].get("b"), Lookup::Present(s("old")));
    // two merged entries need room for two identifiers
    assert!(matches!(compact(&tables, true, u64::MAX - 1, 4, 10), Err(StoreError::Exhausted)));
    assert_eq!(compact(&tables, true, u64::MAX - 2, 4, 10).unwrap().len(), 2);
    assert_eq!(compact(&Vec::new(), true, 3, 4, 10).unwrap().len(), 0);
}

#[test]
fn rebuild_applies_records_beyond_the_flushed_one() {
    let rec = |n: u64, k: &str, v: Value| WalRecord { sequence_number: n, key: s(k), value: v };
    let records = vec![
        rec(3, "a", present("1")),
        rec(4, "b", present("2")),
        rec(5, "a", Value::Tombstone),
        rec(6, "c", present("3")),
    ];
    let tree = rebuild(&records, 0);
    assert_eq!(tree.len(), 3);
    assert_eq!(tree.get("a"), Lookup::Tombstone);
    assert_eq!(tree.get("b"), Lookup::Present(s("2")));
    let tree = rebuild(&records, 4);
    assert_eq!(tree.len(), 2);
    assert_eq!(tree.get("b"), Lookup::Absent);
    assert_eq!(tree.get("c"), Lookup::Present(s("3")));
    assert!(rebuild(&records, 6).is_empty());
}

#[test]
fn manifest_reads_back() {
    let image = encode_manifest(258, &vec![7, 3]);
    assert_eq!(
        image,
        vec![2, 1, 0, 0, 0, 0, 0, 0, 7, 0, 0, 0, 0, 0, 0, 0, 3, 0, 0, 0, 0, 0, 0, 0]
    );
    assert_eq!(decode_manifest(&image), Some((258, vec![7, 3])));
    assert_eq!(decode_manifest(&encode_manifest(0, &Vec::new())), Some((0, vec![])));
    assert_eq!(decode_manifest(&[]), None);
    assert_eq!(decode_manifest(&image[..23]), None);
    assert_eq!(decode_manifest(&image[..7]), None);
}
