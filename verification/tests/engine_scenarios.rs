use lsm_store::catalog::Catalog;
use lsm_store::engine::{Config, Engine};
use lsm_store::entry::{Lookup, Value};
use lsm_store::error::StoreError;

fn config() -> Config {
    Config { flush_threshold: 1 << 20, index_interval: 2, max_segment_bytes: 1 << 20 }
}

fn s(text: &str) -> String {
    text.to_string()
}

fn files_of(catalog: &Catalog) -> Vec<(u64, Vec<u8>)> {
    let mut files = Vec::new();
    for table in catalog.segments() {
        files.push((table.id(), table.as_bytes().clone()));
    }
    files
}

fn reopen(engine: &Engine) -> Engine {
    let opened = Engine::open(
        engine.config(),
        engine.wal_bytes().clone(),
        engine.flushed_sequence(),
        files_of(engine.catalog()),
    );
    match opened {
        Ok(engine) => engine,
        Err(e) => panic!("reopen failed: {:?}", e),
    }
}

#[test]
fn memtable_shadows_segment_and_delete_survives_flush_and_compaction() {
    let mut engine = Engine::new(config());
    assert_eq!(engine.put(s("a"), s("1")), Ok(()));
    assert_eq!(engine.put(s("b"), s("2")), Ok(()));
    assert_eq!(engine.flush(), Ok(()));
    assert_eq!(engine.put(s("a"), s("3")), Ok(()));
    assert_eq!(engine.get("a"), Some(s("3")));
    assert_eq!(engine.delete(s("b")), Ok(()));
    assert_eq!(engine.get("b"), None);
    assert_eq!(engine.lookup("b"), Lookup::Tombstone);
    assert_eq!(engine.flush(), Ok(()));
    assert_eq!(engine.catalog().list(), vec![2, 1]);
    assert_eq!(engine.compact(), Ok(vec![2, 1]));
    assert_eq!(engine.get("b"), None);
    assert_eq!(engine.lookup("b"), Lookup::Absent);
    assert_eq!(engine.get("a"), Some(s("3")));
    assert_eq!(engine.catalog().list(), vec![3]);
}

#[test]
fn restart_replays_the_log() {
    let mut engine = Engine::new(config());
    assert_eq!(engine.put(s("x"), s("9")), Ok(()));
    let log = engine.wal_bytes().clone();
    let restarted = Engine::open(config(), log, 0, Vec::new());
    let restarted = match restarted {
        Ok(engine) => engine,
        Err(e) => panic!("open failed: {:?}", e),
    };
    assert_eq!(restarted.get("x"), Some(s("9")));
    assert_eq!(restarted.catalog().len(), 0);
}

#[test]
fn put_then_get_after_any_history() {
    let mut engine = Engine::new(config());
    assert_eq!(engine.put(s("k"), s("old")), Ok(()));
    assert_eq!(engine.flush(), Ok(()));
    assert_eq!(engine.delete(s("k")), Ok(()));
    assert_eq!(engine.flush(), Ok(()));
    assert_eq!(engine.compact(), Ok(vec![2, 1]));
    assert_eq!(engine.get("k"), None);
    assert_eq!(engine.put(s("k"), s("new")), Ok(()));
    assert_eq!(engine.get("k"), Some(s("new")));
    assert_eq!(engine.flush(), Ok(()));
    assert_eq!(engine.get("k"), Some(s("new")));
}

#[test]
fn round_trip_through_flush_and_reopen() {
    let mut engine = Engine::new(config());
    // a fixed pseudo-random order of 200 keys
    let mut x: u64 = 12345;
    let mut written: Vec<(String, String)> = Vec::new();
    for _ in 0..200 {
        x = x.wrapping_mul(6364136223846793005).wrapping_add(1442695040888963407);
        let key = format!("key-{:05}", (x >> 33) % 100000);
        let value = format!("value-{}", x >> 40);
        assert_eq!(engine.put(key.clone(), value.clone()), Ok(()));
        written.retain(|(k, _)| *k != key);
        written.push((key, value));
    }
    assert_eq!(engine.flush(), Ok(()));
    assert!(engine.memtable().is_empty());
    assert!(engine.wal_bytes().is_empty());
    for (key, value) in &written {
        assert_eq!(engine.get(key), Some(value.clone()));
    }
    // some more, left in the log
    assert_eq!(engine.put(s("late"), s("entry")), Ok(()));
    assert_eq!(engine.delete(written[0].0.clone()), Ok(()));
    let reopened = reopen(&engine);
    assert_eq!(reopened.get("late"), Some(s("entry")));
    assert_eq!(reopened.get(&written[0].0), None);
    for (key, value) in &written[1..] {
        assert_eq!(reopened.get(key), Some(value.clone()));
    }
    assert_eq!(reopened.flushed_sequence(), engine.flushed_sequence());
    assert_eq!(reopened.catalog().list(), engine.catalog().list());
}

#[test]
fn compacting_twice_changes_nothing_more() {
    let mut engine = Engine::new(config());
    for (k, v) in [("a", "1"), ("b", "2"), ("c", "3")] {
        assert_eq!(engine.put(s(k), s(v)), Ok(()));
    }
    assert_eq!(engine.flush(), Ok(()));
    assert_eq!(engine.delete(s("b")), Ok(()));
    assert_eq!(engine.put(s("c"), s("4")), Ok(()));
    assert_eq!(engine.flush(), Ok(()));
    assert_eq!(engine.compact(), Ok(vec![2, 1]));
    let once: Vec<_> = engine.catalog().segment(0).scan();
    assert_eq!(once.len(), 2);
    assert_eq!(once[0].key, "a");
    assert_eq!(once[0].value, Value::Present(s("1")));
    assert_eq!(once[1].key, "c");
    assert_eq!(once[1].value, Value::Present(s("4")));
    assert_eq!(engine.compact(), Ok(vec![3]));
    assert_eq!(engine.catalog().list(), vec![4]);
    let twice: Vec<_> = engine.catalog().segment(0).scan();
    assert_eq!(once, twice);
    assert_eq!(engine.get("a"), Some(s("1")));
    assert_eq!(engine.get("b"), None);
    assert_eq!(engine.get("c"), Some(s("4")));
}

#[test]
fn flush_is_triggered_by_the_threshold() {
    let mut engine = Engine::new(Config {
        flush_threshold: 10,
        index_interval: 1,
        max_segment_bytes: 64,
    });
    assert_eq!(engine.put(s("abc"), s("defg")), Ok(()));
    // 7 payload bytes: not beyond the threshold yet
    assert_eq!(engine.memtable().size_estimate(), 7);
    assert!(!engine.flush_due());
    assert_eq!(engine.catalog().len(), 0);
    assert_eq!(engine.put(s("hij"), s("k")), Ok(()));
    // 11 payload bytes were beyond it: the index was written out
    assert_eq!(engine.catalog().list(), vec![1]);
    assert!(engine.memtable().is_empty());
    assert!(engine.wal_bytes().is_empty());
    assert_eq!(engine.flushed_sequence(), 2);
    assert_eq!(engine.get("abc"), Some(s("defg")));
    assert_eq!(engine.get("hij"), Some(s("k")));
}

#[test]
fn flush_of_an_empty_index_does_nothing() {
    let mut engine = Engine::new(config());
    assert_eq!(engine.flush(), Ok(()));
    assert_eq!(engine.catalog().len(), 0);
    assert_eq!(engine.close(), Ok(()));
    assert_eq!(engine.flushed_sequence(), 0);
}

#[test]
fn compaction_splits_segments_at_the_size_limit() {
    let mut engine = Engine::new(Config {
        flush_threshold: 1 << 20,
        index_interval: 4,
        max_segment_bytes: 60,
    });
    for i in 0..10 {
        assert_eq!(engine.put(format!("k{}", i), format!("v{}", i)), Ok(()));
    }
    assert_eq!(engine.flush(), Ok(()));
    // an entry with two-byte key and value takes 8 + 2 + 1 + 8 + 2 = 21
    // bytes: the third entry brings a body to 63, beyond the limit of 60
    assert_eq!(engine.compact(), Ok(vec![1]));
    assert_eq!(engine.catalog().list(), vec![5, 4, 3, 2]);
    let sizes: Vec<usize> =
        engine.catalog().segments().iter().map(|t| t.body_len()).collect();
    assert_eq!(sizes, vec![21, 63, 63, 63]);
    for i in 0..10 {
        assert_eq!(engine.get(&format!("k{}", i)), Some(format!("v{}", i)));
    }
}

#[test]
fn open_refuses_damaged_storage() {
    let mut engine = Engine::new(config());
    assert_eq!(engine.put(s("a"), s("1")), Ok(()));
    assert_eq!(engine.flush(), Ok(()));
    assert_eq!(engine.put(s("b"), s("2")), Ok(()));
    let mut log = engine.wal_bytes().clone();
    log.pop();
    let r = Engine::open(config(), log, 1, files_of(engine.catalog()));
    assert!(matches!(r, Err(StoreError::Corruption)));
    let mut files = files_of(engine.catalog());
    files[0].1[0] ^= 0xff;
    let r = Engine::open(config(), engine.wal_bytes().clone(), 1, files);
    assert!(matches!(r, Err(StoreError::Corruption)));
    // identifiers must strictly decrease
    let mut files = files_of(engine.catalog());
    files.push(files[0].clone());
    let r = Engine::open(config(), engine.wal_bytes().clone(), 1, files);
    assert!(matches!(r, Err(StoreError::Corruption)));
}

#[test]
fn open_reports_spent_counters() {
    let r = Engine::open(config(), Vec::new(), u64::MAX, Vec::new());
    assert!(matches!(r, Err(StoreError::Exhausted)));
}

#[test]
fn open_skips_records_that_were_flushed() {
    let mut engine = Engine::new(config());
    assert_eq!(engine.put(s("a"), s("1")), Ok(()));
    assert_eq!(engine.put(s("b"), s("2")), Ok(()));
    let log = engine.wal_bytes().clone();
    // storage says that the first record was already written out
    let opened = Engine::open(config(), log, 1, Vec::new());
    let opened = match opened {
        Ok(engine) => engine,
        Err(e) => panic!("open failed: {:?}", e),
    };
    assert_eq!(opened.get("a"), None);
    assert_eq!(opened.get("b"), Some(s("2")));
    assert_eq!(opened.memtable().len(), 1);
}

#[test]
fn record_bytes_are_what_put_logs() {
    let mut engine = Engine::new(config());
    let expected = engine.record_bytes("k", &Value::Present(s("v")));
    assert_eq!(engine.put(s("k"), s("v")), Ok(()));
    assert_eq!(engine.wal_bytes(), &expected);
    let expected = engine.record_bytes("k", &Value::Tombstone);
    let before = engine.wal_bytes().len();
    assert_eq!(engine.delete(s("k")), Ok(()));
    assert_eq!(&engine.wal_bytes()[before..], &expected[..]);
}

#[test]
fn a_fresh_engine_accepts_writes() {
    let mut engine = Engine::new(config());
    assert!(engine.accepts_writes());
    assert_eq!(engine.put(s("a"), s("1")), Ok(()));
    assert!(engine.accepts_writes());
    assert_eq!(engine.config(), config());
    assert_eq!(engine.lookup("zz"), Lookup::Absent);
}

#[test]
fn compacting_the_newest_segments_keeps_markers_that_still_shadow() {
    let mut engine = Engine::new(config());
    assert_eq!(engine.put(s("a"), s("1")), Ok(()));
    assert_eq!(engine.put(s("b"), s("1")), Ok(()));
    assert_eq!(engine.flush(), Ok(()));
    assert_eq!(engine.delete(s("a")), Ok(()));
    assert_eq!(engine.flush(), Ok(()));
    assert_eq!(engine.put(s("b"), s("2")), Ok(()));
    assert_eq!(engine.flush(), Ok(()));
    assert_eq!(engine.catalog().list(), vec![3, 2, 1]);
    // segments 3 and 2 are merged; segment 1 still holds the old "a"
    assert_eq!(engine.compact_newest(2), Ok(vec![3, 2]));
    assert_eq!(engine.catalog().list(), vec![4, 1]);
    let merged = engine.catalog().segment(0).scan();
    assert_eq!(merged.len(), 2);
    assert_eq!(merged[0].key, "a");
    assert_eq!(merged[0].value, Value::Tombstone);
    assert_eq!(merged[1].value, Value::Present(s("2")));
    assert_eq!(engine.get("a"), None);
    assert_eq!(engine.lookup("a"), Lookup::Tombstone);
    assert_eq!(engine.get("b"), Some(s("2")));
    // merging nothing changes nothing
    assert_eq!(engine.compact_newest(0), Ok(vec![]));
    assert_eq!(engine.catalog().list(), vec![4, 1]);
    // with everything merged the marker goes, and "a" stays deleted
    assert_eq!(engine.compact_newest(2), Ok(vec![4, 1]));
    assert_eq!(engine.catalog().list(), vec![5]);
    assert_eq!(engine.lookup("a"), Lookup::Absent);
    assert_eq!(engine.get("b"), Some(s("2")));
    let reopened = reopen(&engine);
    assert_eq!(reopened.get("a"), None);
    assert_eq!(reopened.get("b"), Some(s("2")));
}

#[test]
fn changes_are_refused_when_sequence_numbers_are_spent() {
    let mut log = Vec::new();
    lsm_store::wal::put_record(&mut log, u64::MAX - 1, "last", &Value::Present(s("one")));
    let mut engine = match Engine::open(config(), log.clone(), 0, Vec::new()) {
        Ok(engine) => engine,
        Err(e) => panic!("open failed: {:?}", e),
    };
    assert_eq!(engine.get("last"), Some(s("one")));
    assert!(!engine.accepts_writes());
    assert_eq!(engine.put(s("more"), s("x")), Err(StoreError::Exhausted));
    assert_eq!(engine.delete(s("last")), Err(StoreError::Exhausted));
    // nothing has changed
    assert_eq!(engine.wal_bytes(), &log);
    assert_eq!(engine.get("more"), None);
    assert_eq!(engine.get("last"), Some(s("one")));
    assert_eq!(engine.memtable().len(), 1);
    // what is there can still be written out
    assert_eq!(engine.flush(), Ok(()));
    assert_eq!(engine.flushed_sequence(), u64::MAX - 1);
    assert_eq!(engine.get("last"), Some(s("one")));
}

#[test]
fn segments_are_refused_when_identifiers_are_spent() {
    let mut first = Engine::new(config());
    assert_eq!(first.put(s("a"), s("1")), Ok(()));
    assert_eq!(first.flush(), Ok(()));
    let bytes = first.catalog().segment(0).as_bytes().clone();
    let mut engine = match Engine::open(config(), Vec::new(), 1, vec![(u64::MAX - 1, bytes.clone())]) {
        Ok(engine) => engine,
        Err(e) => panic!("open failed: {:?}", e),
    };
    assert_eq!(engine.put(s("b"), s("2")), Ok(()));
    assert_eq!(engine.flush(), Err(StoreError::Exhausted));
    assert_eq!(engine.close(), Err(StoreError::Exhausted));
    assert_eq!(engine.compact(), Err(StoreError::Exhausted));
    assert_eq!(engine.catalog().list(), vec![u64::MAX - 1]);
    assert_eq!(engine.memtable().len(), 1);
    assert_eq!(engine.get("a"), Some(s("1")));
    assert_eq!(engine.get("b"), Some(s("2")));
    // a threshold that is exceeded does not help either: the index grows
    let tight = Config { flush_threshold: 0, index_interval: 1, max_segment_bytes: 8 };
    let mut engine = match Engine::open(tight, Vec::new(), 1, vec![(u64::MAX - 1, bytes.clone())]) {
        Ok(engine) => engine,
        Err(e) => panic!("open failed: {:?}", e),
    };
    assert_eq!(engine.put(s("b"), s("2")), Ok(()));
    assert_eq!(engine.put(s("c"), s("3")), Ok(()));
    assert_eq!(engine.memtable().len(), 2);
    assert!(engine.flush_due());
    // no room at all: the newest identifier is the largest there is
    let r = Engine::open(config(), Vec::new(), 1, vec![(u64::MAX, bytes)]);
    assert!(matches!(r, Err(StoreError::Exhausted)));
}

#[test]
fn every_put_beyond_the_threshold_flushes() {
    let mut engine = Engine::new(Config {
        flush_threshold: 0,
        index_interval: 1,
        max_segment_bytes: 1 << 20,
    });
    for i in 1..=5u64 {
        assert_eq!(engine.put(format!("k{}", i), s("v")), Ok(()));
        assert!(engine.memtable().is_empty());
        assert_eq!(engine.catalog().len() as u64, i);
        assert_eq!(engine.flushed_sequence(), i);
    }
    assert_eq!(engine.catalog().list(), vec![5, 4, 3, 2, 1]);
    assert_eq!(engine.compact_newest(3), Ok(vec![5, 4, 3]));
    assert_eq!(engine.catalog().list(), vec![6, 2, 1]);
    for i in 1..=5u64 {
        assert_eq!(engine.get(&format!("k{}", i)), Some(s("v")));
    }
}
