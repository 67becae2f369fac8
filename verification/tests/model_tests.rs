use std::collections::BTreeMap;

use lsm_store::engine::{Config, Engine};
use lsm_store::entry::{Lookup, Value};
use lsm_store::ss_table::SSTable;
use lsm_store::tree::Subtree;

struct Dice(u64);

impl Dice {
    fn roll(&mut self, sides: u64) -> u64 {
        self.0 = self.0.wrapping_mul(6364136223846793005).wrapping_add(1442695040888963407);
        (self.0 >> 33) % sides
    }

    fn key(&mut self) -> String {
        let alphabet = ["a", "b", "c", "é", "z", "日", "0", "~"];
        let len = 1 + self.roll(3);
        let mut key = String::new();
        for _ in 0..len {
            key.push_str(alphabet[self.roll(alphabet.len() as u64) as usize]);
        }
        key
    }
}

fn all_keys() -> Vec<String> {
    let mut dice = Dice(99);
    let mut keys: Vec<String> = (0..400).map(|_| dice.key()).collect();
    keys.sort();
    keys.dedup();
    keys
}

#[test]
fn tree_behaves_like_an_ordered_map() {
    let mut dice = Dice(1);
    let mut tree = Subtree::new();
    let mut model: BTreeMap<String, Value> = BTreeMap::new();
    for step in 0..4000 {
        let key = dice.key();
        match dice.roll(4) {
            0 | 1 => {
                let value = Value::Present(format!("v{}", step));
                assert_eq!(tree.insert(key.clone(), value.clone()), model.insert(key, value));
            }
            2 => {
                assert_eq!(tree.delete(key.clone()), model.insert(key, Value::Tombstone));
            }
            _ => {
                assert_eq!(tree.remove(&key), model.remove(&key));
            }
        }
        assert_eq!(tree.len(), model.len());
        if step % 97 == 0 {
            let mut it = tree.iter_sorted();
            for (k, v) in &model {
                assert_eq!(it.next(), Some((k, v)));
            }
            assert_eq!(it.next(), None);
            let bytes: usize = model
                .iter()
                .map(|(k, v)| {
                    k.len()
                        + match v {
                            Value::Present(s) => s.len(),
                            Value::Tombstone => 0,
                        }
                })
                .sum();
            assert_eq!(tree.size_estimate(), bytes);
            // a balanced tree of n entries is at most 1.45 * log2(n + 2) high
            let bound = (1.45 * ((model.len() + 2) as f64).log2()).ceil() as usize;
            assert!(tree.height() <= bound);
        }
    }
    for key in all_keys() {
        let expected = match model.get(&key) {
            Some(Value::Present(s)) => Lookup::Present(s.clone()),
            Some(Value::Tombstone) => Lookup::Tombstone,
            None => Lookup::Absent,
        };
        assert_eq!(tree.get(&key), expected);
    }
}

#[test]
fn segments_answer_like_the_tree_they_were_written_from() {
    let mut dice = Dice(5);
    let mut tree = Subtree::new();
    for step in 0..300 {
        let key = dice.key();
        if dice.roll(5) == 0 {
            tree.delete(key);
        } else {
            tree.insert(key, Value::Present(format!("v{}", step)));
        }
    }
    for interval in [1, 2, 3, 7, 1000] {
        let table = SSTable::from_tree(1, &tree, interval);
        let back = match SSTable::from_bytes(1, table.as_bytes().clone()) {
            Ok(table) => table,
            Err(e) => panic!("a written segment was refused: {:?}", e),
        };
        for key in all_keys() {
            assert_eq!(table.get(&key), tree.get(&key));
            assert_eq!(back.get(&key), tree.get(&key));
        }
        assert_eq!(table.scan().len(), tree.len());
    }
}

fn files_of(engine: &Engine) -> Vec<(u64, Vec<u8>)> {
    engine.catalog().segments().iter().map(|t| (t.id(), t.as_bytes().clone())).collect()
}

#[test]
fn engine_behaves_like_a_map_through_flushes_compactions_and_restarts() {
    let config = Config { flush_threshold: 200, index_interval: 3, max_segment_bytes: 300 };
    let mut dice = Dice(2024);
    let mut engine = Engine::new(config);
    let mut model: BTreeMap<String, String> = BTreeMap::new();
    for step in 0..3000 {
        let key = dice.key();
        match dice.roll(40) {
            0 => assert_eq!(engine.flush(), Ok(())),
            1 => {
                let before = engine.catalog().list();
                assert_eq!(engine.compact(), Ok(before));
            }
            2 => {
                let count = dice.roll(engine.catalog().len() as u64 + 1) as usize;
                let before = engine.catalog().list();
                assert_eq!(engine.compact_newest(count), Ok(before[..count].to_vec()));
            }
            3 => {
                engine = match Engine::open(
                    config,
                    engine.wal_bytes().clone(),
                    engine.flushed_sequence(),
                    files_of(&engine),
                ) {
                    Ok(engine) => engine,
                    Err(e) => panic!("restart failed at step {}: {:?}", step, e),
                };
            }
            4..=12 => {
                assert_eq!(engine.delete(key.clone()), Ok(()));
                model.remove(&key);
                assert_eq!(engine.get(&key), None);
            }
            _ => {
                let value = format!("v{}", step);
                assert_eq!(engine.put(key.clone(), value.clone()), Ok(()));
                assert_eq!(engine.get(&key), Some(value.clone()));
                model.insert(key, value);
            }
        }
        assert!(engine.memtable().size_estimate() <= config.flush_threshold);
        let ids = engine.catalog().list();
        assert!(ids.windows(2).all(|pair| pair[0] > pair[1]));
        if step % 53 == 0 {
            for key in all_keys() {
                assert_eq!(engine.get(&key), model.get(&key).cloned());
            }
        }
    }
    // with everything written out and merged, the segments hold the live
    // keys with their values, once each, in key order, and nothing else
    assert_eq!(engine.flush(), Ok(()));
    assert_eq!(engine.compact().map(|_| ()), Ok(()));
    let mut held: Vec<(String, String)> = Vec::new();
    for table in engine.catalog().segments().iter().rev() {
        assert!(table.body_len() < config.max_segment_bytes + 64);
        for entry in table.scan() {
            match entry.value {
                Value::Present(value) => held.push((entry.key, value)),
                Value::Tombstone => panic!("a deletion marker survived for {:?}", entry.key),
            }
        }
    }
    let expected: Vec<(String, String)> = model.into_iter().collect();
    assert_eq!(held, expected);
}
