use lsm_store::entry::{Entry, Lookup, Value};
use lsm_store::key::{compare_bytes, compare_keys, KeyOrder};
use lsm_store::tree::{Node, Subtree};

fn s(text: &str) -> String {
    text.to_string()
}

fn present(text: &str) -> Value {
    Value::Present(text.to_string())
}

fn collect(tree: &Subtree) -> Vec<(String, Value)> {
    let mut out = Vec::new();
    let mut it = tree.iter_sorted();
    while let Some((k, v)) = it.next() {
        out.push((k.clone(), v.clone()));
    }
    out
}

#[test]
fn keys_compare_by_bytes() {
    assert_eq!(compare_keys("a", "b"), KeyOrder::Less);
    assert_eq!(compare_keys("b", "a"), KeyOrder::Greater);
    assert_eq!(compare_keys("abc", "abc"), KeyOrder::Equal);
    assert_eq!(compare_keys("ab", "abc"), KeyOrder::Less);
    assert_eq!(compare_keys("abc", "ab"), KeyOrder::Greater);
    assert_eq!(compare_keys("", "a"), KeyOrder::Less);
    assert_eq!(compare_keys("", ""), KeyOrder::Equal);
    // upper case before lower case, ASCII before the rest
    assert_eq!(compare_keys("Z", "a"), KeyOrder::Less);
    assert_eq!(compare_keys("z", "é"), KeyOrder::Less);
    assert_eq!(compare_keys("é", "日"), KeyOrder::Less);
    assert_eq!(compare_bytes(&[1, 2, 3], &[1, 2, 4]), KeyOrder::Less);
    assert_eq!(compare_bytes(&[1, 200], &[1, 100, 7]), KeyOrder::Greater);
    assert_eq!(compare_bytes(&[], &[]), KeyOrder::Equal);
    assert_eq!(compare_bytes(&[0], &[]), KeyOrder::Greater);
}

#[test]
fn keys_compare_as_std_does() {
    let samples = ["", "a", "aa", "ab", "b", "B", "é", "日本", "zz", "~", "a\u{0}", "😀"];
    for x in samples {
        for y in samples {
            let expected = if x < y {
                KeyOrder::Less
            } else if x == y {
                KeyOrder::Equal
            } else {
                KeyOrder::Greater
            };
            assert_eq!(compare_keys(x, y), expected);
        }
    }
}

#[test]
fn empty_tree() {
    let tree = Subtree::new();
    assert!(tree.is_empty());
    assert_eq!(tree.len(), 0);
    assert_eq!(tree.height(), 0);
    assert_eq!(tree.size_estimate(), 0);
    assert_eq!(tree.get("a"), Lookup::Absent);
    assert_eq!(collect(&tree), vec![]);
}

#[test]
fn insert_overwrites_and_returns_previous() {
    let mut tree = Subtree::new();
    assert_eq!(tree.insert(s("k"), present("v1")), None);
    assert_eq!(tree.insert(s("k"), present("v2")), Some(present("v1")));
    assert_eq!(tree.get("k"), Lookup::Present(s("v2")));
    assert_eq!(tree.len(), 1);
    assert_eq!(tree.height(), 1);
}

#[test]
fn delete_leaves_a_tombstone() {
    let mut tree = Subtree::new();
    assert_eq!(tree.insert(s("k"), present("v")), None);
    assert_eq!(tree.delete(s("k")), Some(present("v")));
    assert_eq!(tree.get("k"), Lookup::Tombstone);
    assert_eq!(tree.len(), 1);
    // deleting again, or deleting what was never there, records a marker too
    assert_eq!(tree.delete(s("k")), Some(Value::Tombstone));
    assert_eq!(tree.delete(s("other")), None);
    assert_eq!(tree.get("other"), Lookup::Tombstone);
    assert_eq!(tree.get("missing"), Lookup::Absent);
    assert_eq!(tree.len(), 2);
}

#[test]
fn sorted_inserts_stay_balanced() {
    let mut tree = Subtree::new();
    for i in 0..1023 {
        assert_eq!(tree.insert(format!("{:04}", i), present("x")), None);
    }
    assert_eq!(tree.len(), 1023);
    assert_eq!(tree.height(), 10);
    let mut tree = Subtree::new();
    for i in (0..1000).rev() {
        tree.insert(format!("{:04}", i), present("x"));
    }
    assert_eq!(tree.len(), 1000);
    assert_eq!(tree.height(), 10);
    for i in 0..1000 {
        assert_eq!(tree.get(&format!("{:04}", i)), Lookup::Present(s("x")));
    }
}

#[test]
fn every_rotation_case() {
    // left-left, right-right, left-right, right-left
    for keys in [["3", "2", "1"], ["1", "2", "3"], ["3", "1", "2"], ["1", "3", "2"]] {
        let mut tree = Subtree::new();
        for k in keys {
            tree.insert(s(k), present(k));
        }
        assert_eq!(tree.height(), 2);
        assert_eq!(
            collect(&tree),
            vec![(s("1"), present("1")), (s("2"), present("2")), (s("3"), present("3"))]
        );
    }
}

#[test]
fn in_order_traversal_is_strictly_increasing() {
    let mut tree = Subtree::new();
    let mut x: u32 = 7;
    for _ in 0..500 {
        x = x.wrapping_mul(1103515245).wrapping_add(12345);
        tree.insert(format!("{}", x % 1000), present("v"));
    }
    let entries = collect(&tree);
    assert_eq!(entries.len(), tree.len());
    for pair in entries.windows(2) {
        assert!(pair[0].0 < pair[1].0);
    }
    // 1.44 * log2(n + 2) bounds the height of a balanced tree
    assert!(tree.height() <= 14);
    // asking again starts afresh
    assert_eq!(collect(&tree), entries);
}

#[test]
fn size_estimate_counts_payload_bytes() {
    let mut tree = Subtree::new();
    tree.insert(s("abc"), present("12345"));
    assert_eq!(tree.size_estimate(), 8);
    tree.insert(s("é"), present(""));
    assert_eq!(tree.size_estimate(), 10);
    tree.insert(s("abc"), present("1"));
    assert_eq!(tree.size_estimate(), 6);
    tree.delete(s("abc"));
    assert_eq!(tree.size_estimate(), 5);
    tree.clear();
    assert_eq!(tree.size_estimate(), 0);
    assert!(tree.is_empty());
}

#[test]
fn node_new_makes_a_leaf() {
    let tree = Subtree::from_node(Node::new(s("key"), s("value")));
    assert_eq!(tree.len(), 1);
    assert_eq!(tree.height(), 1);
    assert_eq!(tree.get("key"), Lookup::Present(s("value")));
    assert_eq!(tree.size_estimate(), 8);
    assert_eq!(collect(&tree), vec![(s("key"), present("value"))]);
}

#[test]
fn values_and_lookups() {
    assert_eq!(present("abc").byte_len(), 3);
    assert_eq!(present("é").byte_len(), 2);
    assert_eq!(Value::Tombstone.byte_len(), 0);
    assert_eq!(Lookup::from_value(&present("v")), Lookup::Present(s("v")));
    assert_eq!(Lookup::from_value(&Value::Tombstone), Lookup::Tombstone);
    assert_eq!(Lookup::Present(s("v")).into_option(), Some(s("v")));
    assert_eq!(Lookup::Tombstone.into_option(), None);
    assert_eq!(Lookup::Absent.into_option(), None);
    let e = Entry { key: s("k"), value: present("v") };
    assert_eq!(e.clone(), e);
}

#[test]
fn node_accessors() {
    let node = Node::new(s("k"), s("v"));
    assert_eq!(node.key(), "k");
    assert_eq!(node.value(), &present("v"));
}

#[test]
fn remove_takes_entries_out() {
    let mut tree = Subtree::new();
    for k in ["d", "b", "f", "a", "c", "e", "g"] {
        tree.insert(s(k), present(k));
    }
    assert_eq!(tree.height(), 3);
    // a key that is not there
    assert_eq!(tree.remove("x"), None);
    assert_eq!(tree.len(), 7);
    // the root, which has two children: its successor takes its place
    assert_eq!(tree.remove("d"), Some(present("d")));
    assert_eq!(tree.get("d"), Lookup::Absent);
    assert_eq!(tree.len(), 6);
    // a leaf, and a node with one child
    assert_eq!(tree.remove("a"), Some(present("a")));
    assert_eq!(tree.remove("b"), Some(present("b")));
    assert_eq!(tree.remove("b"), None);
    let keys: Vec<String> = collect(&tree).into_iter().map(|(k, _)| k).collect();
    assert_eq!(keys, vec![s("c"), s("e"), s("f"), s("g")]);
    assert_eq!(tree.height(), 3);
    assert_eq!(tree.size_estimate(), 8);
    assert_eq!(tree.remove("c"), Some(present("c")));
    assert_eq!(tree.height(), 2);
    for k in ["e", "f", "g"] {
        assert_eq!(tree.remove(k), Some(present(k)));
    }
    assert!(tree.is_empty());
    assert_eq!(tree.remove("e"), None);
}

#[test]
fn removals_keep_the_tree_balanced() {
    let mut tree = Subtree::new();
    for i in 0..512 {
        tree.insert(format!("{:03}", i), present("x"));
    }
    // take out the lower three quarters, smallest first
    for i in 0..384 {
        assert_eq!(tree.remove(&format!("{:03}", i)), Some(present("x")));
    }
    assert_eq!(tree.len(), 128);
    assert!(tree.height() <= 10);
    assert!(tree.height() >= 8);
    let entries = collect(&tree);
    assert_eq!(entries.len(), 128);
    assert_eq!(entries[0].0, "384");
    assert_eq!(entries[127].0, "511");
    // a removed marker does not shadow: the key reads as never written
    tree.delete(s("400"));
    assert_eq!(tree.get("400"), Lookup::Tombstone);
    assert_eq!(tree.remove("400"), Some(Value::Tombstone));
    assert_eq!(tree.get("400"), Lookup::Absent);
}
