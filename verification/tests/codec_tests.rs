use lsm_store::codec::{
    decode_entries, put_entry, put_text, put_u64, put_value, read_entry, read_span, read_text,
    read_u64, read_value, skip_value,
};
use lsm_store::entry::{Entry, Value};
use lsm_store::error::StoreError;
use lsm_store::wal::{is_sequenced, decode_records, put_record, read_record, Wal, WalRecord};

fn s(text: &str) -> String {
    text.to_string()
}

fn present(text: &str) -> Value {
    Value::Present(text.to_string())
}

#[test]
fn integers_are_eight_bytes_least_significant_first() {
    let mut out = vec![9u8];
    put_u64(&mut out, 0x0102030405060708);
    assert_eq!(out, vec![9, 8, 7, 6, 5, 4, 3, 2, 1]);
    assert_eq!(read_u64(&out, 1, 9), Some((0x0102030405060708, 9)));
    assert_eq!(read_u64(&out, 2, 9), None);
    assert_eq!(read_u64(&out, 1, 8), None);
    assert_eq!(read_u64(&out, 9, 9), None);
}

#[test]
fn entry_layout() {
    let mut out = Vec::new();
    put_entry(&mut out, "a", &present("1"));
    assert_eq!(out, vec![1, 0, 0, 0, 0, 0, 0, 0, b'a', 1, 1, 0, 0, 0, 0, 0, 0, 0, b'1']);
    let mut out = Vec::new();
    put_entry(&mut out, "ab", &Value::Tombstone);
    assert_eq!(out, vec![2, 0, 0, 0, 0, 0, 0, 0, b'a', b'b', 0, 0, 0, 0, 0, 0, 0, 0, 0]);
    let mut out = Vec::new();
    put_text(&mut out, "é");
    assert_eq!(out, vec![2, 0, 0, 0, 0, 0, 0, 0, 0xc3, 0xa9]);
    let mut out = Vec::new();
    put_value(&mut out, &present(""));
    assert_eq!(out, vec![1, 0, 0, 0, 0, 0, 0, 0, 0]);
}

#[test]
fn entries_read_back() {
    let mut out = Vec::new();
    put_entry(&mut out, "key", &present("value"));
    put_entry(&mut out, "gone", &Value::Tombstone);
    put_entry(&mut out, "日本", &present("é"));
    let end = out.len();
    let (e, p) = read_entry(&out, 0, end).unwrap();
    assert_eq!(e, Entry { key: s("key"), value: present("value") });
    assert_eq!(p, 25);
    let (e, q) = read_entry(&out, p, end).unwrap();
    assert_eq!(e, Entry { key: s("gone"), value: Value::Tombstone });
    assert_eq!(q, 25 + 21);
    let (e, r) = read_entry(&out, q, end).unwrap();
    assert_eq!(e, Entry { key: s("日本"), value: present("é") });
    assert_eq!(r, end);
    assert_eq!(read_entry(&out, r, end), None);
    let all = decode_entries(&out, 0, end).unwrap();
    assert_eq!(all.len(), 3);
    assert_eq!(all[1].key, "gone");
    assert_eq!(decode_entries(&out, 0, p).unwrap().len(), 1);
    assert_eq!(decode_entries(&out, 0, p + 1), None);
    assert_eq!(decode_entries(&out, 0, 0), Some(vec![]));
    // a limit inside the entry cuts it off
    assert_eq!(read_entry(&out, 0, 24), None);
}

#[test]
fn spans_and_skips() {
    let mut out = Vec::new();
    put_entry(&mut out, "key", &present("value"));
    let end = out.len();
    assert_eq!(read_span(&out, 0, end), Some((8, 11)));
    assert_eq!(read_span(&out, 0, 10), None);
    assert_eq!(skip_value(&out, 11, end), Some(end));
    assert_eq!(skip_value(&out, 11, end - 1), None);
    assert_eq!(read_value(&out, 11, end), Some((present("value"), end)));
    assert_eq!(read_text(&out, 0, end), Some((s("key"), 11)));
    let mut out = Vec::new();
    put_value(&mut out, &Value::Tombstone);
    assert_eq!(skip_value(&out, 0, 9), Some(9));
    assert_eq!(read_value(&out, 0, 9), Some((Value::Tombstone, 9)));
}

#[test]
fn malformed_entries_are_refused() {
    // bytes that are no UTF-8
    let bad_text = vec![2, 0, 0, 0, 0, 0, 0, 0, 0xff, 0xfe];
    assert_eq!(read_text(&bad_text, 0, 10), None);
    // the same length with UTF-8 bytes is fine
    let good_text = vec![2, 0, 0, 0, 0, 0, 0, 0, 0xc3, 0xa9];
    assert_eq!(read_text(&good_text, 0, 10), Some((s("é"), 10)));
    // an overlong encoding and a lone continuation byte
    assert_eq!(read_text(&[2, 0, 0, 0, 0, 0, 0, 0, 0xc0, 0x80], 0, 10), None);
    assert_eq!(read_text(&[1, 0, 0, 0, 0, 0, 0, 0, 0x80], 0, 9), None);
    // a length that reaches beyond the limit
    assert_eq!(read_text(&[3, 0, 0, 0, 0, 0, 0, 0, b'a', b'b'], 0, 10), None);
    assert_eq!(read_text(&[255, 255, 255, 255, 255, 255, 255, 255, b'a'], 0, 9), None);
    // an unknown tag
    assert_eq!(read_value(&[2, 0, 0, 0, 0, 0, 0, 0, 0], 0, 9), None);
    assert_eq!(skip_value(&[2, 0, 0, 0, 0, 0, 0, 0, 0], 0, 9), None);
    // a deletion marker with a length
    assert_eq!(read_value(&[0, 1, 0, 0, 0, 0, 0, 0, 0, b'x'], 0, 10), None);
    assert_eq!(skip_value(&[0, 1, 0, 0, 0, 0, 0, 0, 0, b'x'], 0, 10), None);
    // an empty key
    let mut out = Vec::new();
    put_entry(&mut out, "", &present("v"));
    assert_eq!(read_entry(&out, 0, out.len()), None);
    // a value whose bytes are no UTF-8 is stepped over but not read
    let bad_value = vec![1, 1, 0, 0, 0, 0, 0, 0, 0, 0xff];
    assert_eq!(skip_value(&bad_value, 0, 10), Some(10));
    assert_eq!(read_value(&bad_value, 0, 10), None);
}

#[test]
fn record_layout_and_reading() {
    let mut out = Vec::new();
    put_record(&mut out, 258, "a", &present("1"));
    assert_eq!(
        out,
        vec![
            2, 1, 0, 0, 0, 0, 0, 0, 1, 0, 0, 0, 0, 0, 0, 0, b'a', 1, 1, 0, 0, 0, 0, 0, 0, 0,
            b'1'
        ]
    );
    let (rec, p) = read_record(&out, 0, out.len()).unwrap();
    assert_eq!(rec, WalRecord { sequence_number: 258, key: s("a"), value: present("1") });
    assert_eq!(p, 27);
    assert_eq!(read_record(&out, 0, 26), None);
    put_record(&mut out, 300, "b", &Value::Tombstone);
    let all = decode_records(&out).unwrap();
    assert_eq!(all.len(), 2);
    assert_eq!(all[1], WalRecord { sequence_number: 300, key: s("b"), value: Value::Tombstone });
    assert!(is_sequenced(&all));
    out.push(0);
    assert_eq!(decode_records(&out), None);
    assert_eq!(decode_records(&[]), Some(vec![]));
}

#[test]
fn sequence_numbers_must_increase() {
    let rec = |n: u64| WalRecord { sequence_number: n, key: s("k"), value: present("v") };
    assert!(is_sequenced(&vec![]));
    assert!(is_sequenced(&vec![rec(5)]));
    assert!(is_sequenced(&vec![rec(1), rec(2), rec(9)]));
    assert!(!is_sequenced(&vec![rec(1), rec(1)]));
    assert!(!is_sequenced(&vec![rec(1), rec(3), rec(2)]));
}

#[test]
fn log_appends_and_replays() {
    let mut log = Wal::new(1);
    assert!(log.is_empty());
    assert_eq!(log.next_sequence(), 1);
    let expected = log.record_bytes("x", &present("9"));
    assert_eq!(log.append("x", &present("9")), Ok(1));
    assert_eq!(log.as_bytes(), &expected);
    assert_eq!(log.append("y", &Value::Tombstone), Ok(2));
    assert_eq!(log.next_sequence(), 3);
    let records = log.replay();
    assert_eq!(
        records,
        vec![
            WalRecord { sequence_number: 1, key: s("x"), value: present("9") },
            WalRecord { sequence_number: 2, key: s("y"), value: Value::Tombstone },
        ]
    );
    log.rotate();
    assert!(log.is_empty());
    assert_eq!(log.next_sequence(), 3);
    assert_eq!(log.replay(), vec![]);
    assert_eq!(log.append("z", &present("1")), Ok(3));
}

#[test]
fn log_runs_out_of_sequence_numbers() {
    let mut log = Wal::new(u64::MAX - 1);
    assert_eq!(log.append("a", &present("1")), Ok(u64::MAX - 1));
    let before = log.as_bytes().clone();
    assert_eq!(log.append("b", &present("2")), Err(StoreError::Exhausted));
    assert_eq!(log.as_bytes(), &before);
    assert_eq!(log.next_sequence(), u64::MAX);
}

#[test]
fn log_loads_from_bytes() {
    let mut log = Wal::new(5);
    log.append("a", &present("1")).unwrap();
    log.append("b", &present("2")).unwrap();
    let bytes = log.as_bytes().clone();
    let loaded = Wal::load(bytes.clone(), 1).unwrap();
    assert_eq!(loaded.next_sequence(), 7);
    assert_eq!(loaded.replay(), log.replay());
    let loaded = Wal::load(bytes.clone(), 100).unwrap();
    assert_eq!(loaded.next_sequence(), 100);
    let loaded = Wal::load(Vec::new(), 3).unwrap();
    assert_eq!(loaded.next_sequence(), 3);
    // a torn record
    let mut torn = bytes.clone();
    torn.truncate(bytes.len() - 3);
    assert!(matches!(Wal::load(torn, 1), Err(StoreError::Corruption)));
    // sequence numbers out of order
    let mut twice = bytes.clone();
    twice.extend_from_slice(&bytes);
    assert!(matches!(Wal::load(twice, 1), Err(StoreError::Corruption)));
    // a last record that leaves no room for a next
    let mut full = Vec::new();
    put_record(&mut full, u64::MAX, "k", &present("v"));
    assert!(matches!(Wal::load(full, 1), Err(StoreError::Corruption)));
}
