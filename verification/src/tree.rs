//! The in-memory index: a height-balanced binary search tree from keys to
//! stored values. Every node caches the height, the number of entries and the
//! payload bytes of the subtree below it.
use vstd::prelude::*;
use crate::entry::{
    EntrySpec, KeySpec, Lookup, LookupSpec, Value, ValueSpec, all_above, all_below, drop_key,
    footprint, lemma_drop_key_bounded, lemma_drop_key_concat, lemma_drop_key_run,
    lemma_footprint_concat, lemma_footprint_single, lemma_insert_left, lemma_insert_right,
    lemma_join_parts, lemma_lookup_split, lemma_overwrite, lemma_single_run,
    lemma_valid_subrange, lookup, sorted, to_map, valid_entries,
};
use crate::key::{
    KeyOrder, compare_keys, key_lt, lemma_key_lt_asymmetric, lemma_key_lt_transitive,
};

verus! {

/// A node in the binary tree.
#[derive(Debug)]
pub struct Node {
    key: String,
    value: Value,
    left: Subtree,
    right: Subtree,
    height: usize,
    count: usize,
    weight: usize,
}

/// A possibly-empty subtree.
#[derive(Debug)]
pub struct Subtree(Option<Box<Node>>);

/// A byte count cut off at the largest machine word.
pub open spec fn saturate(n: nat) -> usize {
    if n > usize::MAX {
        usize::MAX
    } else {
        n as usize
    }
}

/// The larger of two naturals.
pub open spec fn larger(a: nat, b: nat) -> nat {
    if a >= b {
        a
    } else {
        b
    }
}

/// Model of a value that an insertion displaced.
pub open spec fn displaced(prev: Option<Value>) -> LookupSpec {
    match prev {
        Some(v) => Some(v@),
        None => None,
    }
}

impl Node {
    /// The entries of the subtree rooted here, in key order.
    pub closed spec fn entries(&self) -> Seq<EntrySpec>
        decreases self,
    {
        self.left.entries() + seq![(self.key@, self.value@)] + self.right.entries()
    }

    /// The height, entry count and byte total cached in this node are those
    /// of its subtree.
    pub closed spec fn fresh(&self) -> bool {
        &&& self.height == 1 + larger(self.left.tall(), self.right.tall())
        &&& self.count == self.entries().len()
        &&& self.weight == saturate(footprint(self.entries()))
    }

    /// Heights of the two children differ by at most one.
    pub closed spec fn level(&self) -> bool {
        &&& self.left.tall() <= self.right.tall() + 1
        &&& self.right.tall() <= self.left.tall() + 1
    }

    /// Caches are right and heights are balanced, here and below.
    pub closed spec fn shape_ok(&self) -> bool
        decreases self,
    {
        &&& self.left.shape_ok()
        &&& self.right.shape_ok()
        &&& self.fresh()
        &&& self.level()
    }

    /// The subtree rooted here is a well-formed, balanced search tree.
    pub closed spec fn wf(&self) -> bool {
        &&& valid_entries(self.entries())
        &&& self.shape_ok()
    }

    /// The entry that the node itself holds.
    pub closed spec fn entry(&self) -> EntrySpec {
        (self.key@, self.value@)
    }
}

impl Subtree {
    /// The entries of the subtree, in key order.
    pub closed spec fn entries(&self) -> Seq<EntrySpec>
        decreases self,
    {
        match self.0 {
            None => Seq::empty(),
            Some(node) => node.entries(),
        }
    }

    /// The height recorded at the root; zero for the empty subtree.
    pub closed spec fn tall(&self) -> nat {
        match self.0 {
            None => 0,
            Some(node) => node.height as nat,
        }
    }

    /// Caches are right and heights are balanced at every node.
    pub closed spec fn shape_ok(&self) -> bool
        decreases self,
    {
        match self.0 {
            None => true,
            Some(node) => node.shape_ok(),
        }
    }

    /// The caches are right at every node.
    pub closed spec fn cached(&self) -> bool
        decreases self,
    {
        match self.0 {
            None => true,
            Some(node) => node.left.cached() && node.right.cached() && node.fresh(),
        }
    }

    /// The subtree is a balanced search tree over non-empty keys.
    pub closed spec fn wf(&self) -> bool {
        &&& valid_entries(self.entries())
        &&& self.shape_ok()
    }

    /// Number of nodes on the longest path from the root down.
    pub closed spec fn height_spec(&self) -> nat
        decreases self,
    {
        match self.0 {
            None => 0,
            Some(node) => 1 + larger(node.left.height_spec(), node.right.height_spec()),
        }
    }

    /// At every node the heights of the two children differ by at most one.
    pub closed spec fn balanced(&self) -> bool
        decreases self,
    {
        match self.0 {
            None => true,
            Some(node) => {
                &&& node.left.balanced()
                &&& node.right.balanced()
                &&& node.left.height_spec() <= node.right.height_spec() + 1
                &&& node.right.height_spec() <= node.left.height_spec() + 1
            },
        }
    }

    /// At every node the keys to the left precede the node's key and the
    /// keys to the right follow it.
    pub closed spec fn ordered(&self) -> bool
        decreases self,
    {
        match self.0 {
            None => true,
            Some(node) => {
                &&& node.left.ordered()
                &&& node.right.ordered()
                &&& all_below(node.left.entries(), node.key@)
                &&& all_above(node.right.entries(), node.key@)
            },
        }
    }
}

impl View for Subtree {
    type V = Map<KeySpec, ValueSpec>;

    open spec fn view(&self) -> Map<KeySpec, ValueSpec> {
        to_map(self.entries())
    }
}

/// A well-shaped subtree has right caches throughout.
proof fn lemma_shape_cached(t: Subtree)
    requires
        t.shape_ok(),
    ensures
        t.cached(),
    decreases t,
{
    match t.0 {
        None => {},
        Some(node) => {
            lemma_shape_cached(node.left);
            lemma_shape_cached(node.right);
        },
    }
}

/// The parts of a well-shaped, non-empty subtree.
proof fn lemma_shape_unfold(t: Subtree)
    requires
        t.shape_ok(),
        t.0 is Some,
    ensures
        t.0.unwrap().left.shape_ok(),
        t.0.unwrap().right.shape_ok(),
        t.0.unwrap().fresh(),
        t.0.unwrap().level(),
        t.entries() == t.0.unwrap().left.entries() + seq![(t.0.unwrap().key@, t.0.unwrap().value@)]
            + t.0.unwrap().right.entries(),
{
}

/// A subtree is never taller than it has entries.
proof fn lemma_tall_le_len(t: Subtree)
    requires
        t.cached(),
    ensures
        t.tall() <= t.entries().len(),
    decreases t,
{
    match t.0 {
        None => {},
        Some(node) => {
            lemma_tall_le_len(node.left);
            lemma_tall_le_len(node.right);
        },
    }
}

/// The recorded height of a well-shaped subtree is its true height, and the
/// subtree is balanced.
proof fn lemma_shape_gives_balance(t: Subtree)
    requires
        t.shape_ok(),
    ensures
        t.tall() == t.height_spec(),
        t.balanced(),
    decreases t,
{
    match t.0 {
        None => {},
        Some(node) => {
            lemma_shape_gives_balance(node.left);
            lemma_shape_gives_balance(node.right);
        },
    }
}

/// A subtree whose in-order run is well-formed is ordered at every node.
proof fn lemma_sorted_gives_order(t: Subtree)
    requires
        valid_entries(t.entries()),
    ensures
        t.ordered(),
    decreases t,
{
    match t.0 {
        None => {},
        Some(node) => {
            lemma_join_parts(node.left.entries(), (node.key@, node.value@), node.right.entries());
            lemma_sorted_gives_order(node.left);
            lemma_sorted_gives_order(node.right);
        },
    }
}

/// The in-order run of a well-formed tree is well-formed.
pub proof fn lemma_wf_entries(t: Subtree)
    requires
        t.wf(),
    ensures
        valid_entries(t.entries()),
{
}

/// What well-formedness means: after any series of insertions the tree is a
/// search tree at every node, the heights of the two children of every node
/// differ by at most one, and the in-order run of entries has strictly
/// increasing keys.
pub proof fn lemma_wf_properties(t: Subtree)
    requires
        t.wf(),
    ensures
        t.ordered(),
        t.balanced(),
        sorted(t.entries()),
{
    lemma_shape_gives_balance(t);
    lemma_sorted_gives_order(t);
}

impl Node {
    /// A leaf holding `value` under `key`.
    pub fn new(key: String, value: String) -> (node: Node)
        ensures
            node.entry() == (key@, Some(value@)),
            node.entries() == seq![(key@, Some(value@))],
            key@.len() > 0 ==> node.wf(),
    {
        Node::leaf(key, Value::Present(value))
    }

    /// The key of the node.
    pub fn key(&self) -> (k: &String)
        ensures
            k@ == self.entry().0,
    {
        &self.key
    }

    /// What is stored under the key of the node.
    pub fn value(&self) -> (v: &Value)
        ensures
            v@ == self.entry().1,
    {
        &self.value
    }

    fn leaf(key: String, value: Value) -> (node: Node)
        ensures
            node.entries() == seq![(key@, value@)],
            node.shape_ok(),
            node.height == 1,
            key@.len() > 0 ==> node.wf(),
    {
        let weight = key.as_str().as_bytes().len().saturating_add(value.byte_len());
        let node = Node {
            key,
            value,
            left: Subtree(None),
            right: Subtree(None),
            height: 1,
            count: 1,
            weight,
        };
        proof {
            let e = (node.key@, node.value@);
            assert(node.left.entries() =~= Seq::<EntrySpec>::empty());
            assert(node.right.entries() =~= Seq::<EntrySpec>::empty());
            assert(node.entries() =~= seq![e]);
            lemma_footprint_single(e);
            if node.key@.len() > 0 {
                lemma_single_run(e);
            }
        }
        node
    }

    /// Recomputes the cached height, count and byte total from the children.
    fn refresh(&mut self)
        requires
            old(self).left.cached(),
            old(self).right.cached(),
            old(self).entries().len() <= usize::MAX,
        ensures
            final(self).key == old(self).key,
            final(self).value == old(self).value,
            final(self).left == old(self).left,
            final(self).right == old(self).right,
            final(self).entries() == old(self).entries(),
            final(self).fresh(),
    {
        let lh = self.left.cached_height();
        let rh = self.right.cached_height();
        let e = Ghost((self.key@, self.value@));
        proof {
            lemma_tall_le_len(self.left);
            lemma_tall_le_len(self.right);
            lemma_footprint_concat(self.left.entries() + seq![e@], self.right.entries());
            lemma_footprint_concat(self.left.entries(), seq![e@]);
            lemma_footprint_single(e@);
        }
        let own = self.key.as_str().as_bytes().len().saturating_add(self.value.byte_len());
        let lc = self.left.cached_len();
        let rc = self.right.cached_len();
        let lw = self.left.cached_weight();
        let rw = self.right.cached_weight();
        self.height = 1 + if lh >= rh { lh } else { rh };
        self.count = lc + 1 + rc;
        self.weight = lw.saturating_add(own).saturating_add(rw);
    }
}

impl Subtree {
    fn cached_height(&self) -> (h: usize)
        ensures
            h == self.tall(),
    {
        match &self.0 {
            None => 0,
            Some(node) => node.height,
        }
    }

    fn cached_len(&self) -> (n: usize)
        requires
            self.cached(),
        ensures
            n == self.entries().len(),
    {
        match &self.0 {
            None => 0,
            Some(node) => node.count,
        }
    }

    fn cached_weight(&self) -> (n: usize)
        requires
            self.cached(),
        ensures
            n == saturate(footprint(self.entries())),
    {
        match &self.0 {
            None => 0,
            Some(node) => node.weight,
        }
    }
}

/// Lifts the left child of `node` to the root; `node` becomes its right child.
fn rotate_right(mut node: Box<Node>) -> (r: Box<Node>)
    requires
        node.left.0 is Some,
        node.left.0.unwrap().left.shape_ok(),
        node.left.0.unwrap().right.shape_ok(),
        node.right.shape_ok(),
        node.entries().len() <= usize::MAX,
    ensures
        r.entries() == node.entries(),
        r.fresh(),
        r.left == node.left.0.unwrap().left,
        r.right.0 is Some,
        r.right.0.unwrap().fresh(),
        r.right.0.unwrap().left == node.left.0.unwrap().right,
        r.right.0.unwrap().right == node.right,
{
    let ghost ll = node.left.0.unwrap().left.entries();
    let ghost le = (node.left.0.unwrap().key@, node.left.0.unwrap().value@);
    let ghost lr = node.left.0.unwrap().right.entries();
    let ghost ne = (node.key@, node.value@);
    let ghost rr = node.right.entries();
    proof {
        assert(node.left.0.unwrap().entries() == ll + seq![le] + lr);
        assert(node.left.entries() == ll + seq![le] + lr);
        assert(node.entries() =~= ll + seq![le] + lr + seq![ne] + rr);
        lemma_shape_cached(node.left.0.unwrap().left);
        lemma_shape_cached(node.left.0.unwrap().right);
        lemma_shape_cached(node.right);
    }
    let mut top = node.left.0.take().unwrap();
    node.left = Subtree(top.right.0.take());
    assert(node.entries() =~= lr + seq![ne] + rr);
    node.refresh();
    top.right = Subtree(Some(node));
    proof {
        assert(top.right.entries() == lr + seq![ne] + rr);
        assert(top.entries() =~= ll + seq![le] + (lr + seq![ne] + rr));
        assert(top.entries() =~= ll + seq![le] + lr + seq![ne] + rr);
        assert(top.right.cached());
    }
    top.refresh();
    top
}

/// Lifts the right child of `node` to the root; `node` becomes its left child.
fn rotate_left(mut node: Box<Node>) -> (r: Box<Node>)
    requires
        node.right.0 is Some,
        node.right.0.unwrap().left.shape_ok(),
        node.right.0.unwrap().right.shape_ok(),
        node.left.shape_ok(),
        node.entries().len() <= usize::MAX,
    ensures
        r.entries() == node.entries(),
        r.fresh(),
        r.right == node.right.0.unwrap().right,
        r.left.0 is Some,
        r.left.0.unwrap().fresh(),
        r.left.0.unwrap().left == node.left,
        r.left.0.unwrap().right == node.right.0.unwrap().left,
{
    let ghost ll = node.left.entries();
    let ghost ne = (node.key@, node.value@);
    let ghost rl = node.right.0.unwrap().left.entries();
    let ghost re = (node.right.0.unwrap().key@, node.right.0.unwrap().value@);
    let ghost rr = node.right.0.unwrap().right.entries();
    proof {
        assert(node.right.0.unwrap().entries() == rl + seq![re] + rr);
        assert(node.right.entries() == rl + seq![re] + rr);
        assert(node.entries() =~= ll + seq![ne] + rl + seq![re] + rr);
        lemma_shape_cached(node.right.0.unwrap().left);
        lemma_shape_cached(node.right.0.unwrap().right);
        lemma_shape_cached(node.left);
    }
    let mut top = node.right.0.take().unwrap();
    node.right = Subtree(top.left.0.take());
    assert(node.entries() =~= ll + seq![ne] + rl);
    node.refresh();
    top.left = Subtree(Some(node));
    proof {
        assert(top.left.entries() == ll + seq![ne] + rl);
        assert(top.entries() =~= ll + seq![ne] + rl + seq![re] + rr);
        assert(top.left.cached());
    }
    top.refresh();
    top
}

/// Restores the balance at `node` after one of its subtrees grew by at most
/// one level, by a single or a double rotation as the shape requires.
fn rebalance(mut node: Box<Node>) -> (r: Box<Node>)
    requires
        node.left.shape_ok(),
        node.right.shape_ok(),
        node.left.tall() <= node.right.tall() + 2,
        node.right.tall() <= node.left.tall() + 2,
        node.entries().len() <= usize::MAX,
    ensures
        r.shape_ok(),
        r.entries() == node.entries(),
        node.level() ==> r.height == 1 + larger(node.left.tall(), node.right.tall()),
        !node.level() ==> r.height == larger(node.left.tall(), node.right.tall()) || r.height == 1
            + larger(node.left.tall(), node.right.tall()),
{
    let lh = node.left.cached_height();
    let rh = node.right.cached_height();
    let ghost before = node.entries();
    if lh > rh && lh - rh > 1 {
        proof {
            lemma_shape_unfold(node.left);
        }
        let inner_taller = match &node.left.0 {
            Some(l) => l.left.cached_height() < l.right.cached_height(),
            None => false,
        };
        if inner_taller {
            let l = node.left.0.take().unwrap();
            proof {
                lemma_shape_unfold(l.right);
                assert(before.len() == l.entries().len() + 1 + node.right.entries().len());
            }
            let l2 = rotate_left(l);
            node.left = Subtree(Some(l2));
            proof {
                assert(node.left.entries() == l.entries());
                assert(node.entries() == before);
                assert(l2.left.shape_ok());
            }
        }
        let r = rotate_right(node);
        proof {
            assert(r.right.shape_ok());
        }
        r
    } else if rh > lh && rh - lh > 1 {
        proof {
            lemma_shape_unfold(node.right);
        }
        let inner_taller = match &node.right.0 {
            Some(r) => r.right.cached_height() < r.left.cached_height(),
            None => false,
        };
        if inner_taller {
            let rc = node.right.0.take().unwrap();
            proof {
                lemma_shape_unfold(rc.left);
                assert(before.len() == node.left.entries().len() + 1 + rc.entries().len());
            }
            let r2 = rotate_right(rc);
            node.right = Subtree(Some(r2));
            proof {
                assert(node.right.entries() == rc.entries());
                assert(node.entries() == before);
                assert(r2.right.shape_ok());
            }
        }
        let r = rotate_left(node);
        proof {
            assert(r.left.shape_ok());
        }
        r
    } else {
        proof {
            lemma_shape_cached(node.left);
            lemma_shape_cached(node.right);
        }
        node.refresh();
        node
    }
}

/// Inserts or overwrites the binding of `key` below `t`, rebalancing on the
/// way back up, and hands back the value that was displaced.
fn insert_into(t: Subtree, key: String, value: Value) -> (res: (Subtree, Option<Value>))
    requires
        t.wf(),
        key@.len() > 0,
        t.entries().len() < usize::MAX,
    ensures
        res.0.wf(),
        to_map(res.0.entries()) == to_map(t.entries()).insert(key@, value@),
        displaced(res.1) == lookup(to_map(t.entries()), key@),
        res.0.entries().len() == t.entries().len() + (if to_map(t.entries()).contains_key(key@) {
            0int
        } else {
            1int
        }),
        res.0.tall() == t.tall() || res.0.tall() == t.tall() + 1,
        res.0.0 is Some,
    decreases t.entries().len(),
{
    match t.0 {
        None => {
            proof {
                lemma_single_run((key@, value@));
                assert(t.entries() =~= Seq::<EntrySpec>::empty());
            }
            (Subtree(Some(Box::new(Node::leaf(key, value)))), None)
        },
        Some(mut node) => {
            let ghost l = node.left.entries();
            let ghost e = (node.key@, node.value@);
            let ghost r = node.right.entries();
            proof {
                lemma_join_parts(l, e, r);
                lemma_shape_cached(node.left);
                lemma_shape_cached(node.right);
                lemma_tall_le_len(node.left);
                lemma_tall_le_len(node.right);
            }
            match compare_keys(key.as_str(), node.key.as_str()) {
                KeyOrder::Equal => {
                    let mut value = value;
                    proof {
                        lemma_overwrite(l, e, r, value@);
                    }
                    core::mem::swap(&mut node.value, &mut value);
                    node.refresh();
                    (Subtree(Some(node)), Some(value))
                },
                KeyOrder::Less => {
                    let left = Subtree(node.left.0.take());
                    let (grown, prev) = insert_into(left, key, value);
                    proof {
                        lemma_insert_left(l, grown.entries(), e, r, key@, value@);
                    }
                    node.left = grown;
                    let balanced = rebalance(node);
                    (Subtree(Some(balanced)), prev)
                },
                KeyOrder::Greater => {
                    let right = Subtree(node.right.0.take());
                    let (grown, prev) = insert_into(right, key, value);
                    proof {
                        lemma_insert_right(l, e, r, grown.entries(), key@, value@);
                    }
                    node.right = grown;
                    let balanced = rebalance(node);
                    (Subtree(Some(balanced)), prev)
                },
            }
        },
    }
}

impl Subtree {
    /// The empty tree.
    pub fn new() -> (t: Subtree)
        ensures
            t.wf(),
            t.entries() == Seq::<EntrySpec>::empty(),
            t@ == Map::<KeySpec, ValueSpec>::empty(),
    {
        Subtree(None)
    }

    /// The tree that consists of `node` and what hangs below it.
    pub fn from_node(node: Node) -> (t: Subtree)
        requires
            node.wf(),
        ensures
            t.wf(),
            t.entries() == node.entries(),
    {
        Subtree(Some(Box::new(node)))
    }

    /// Binds `key` to `value`, replacing any earlier binding and rebalancing
    /// on the path back to the root. Returns the value that was bound before,
    /// if there was one.
    pub fn insert(&mut self, key: String, value: Value) -> (prev: Option<Value>)
        requires
            old(self).wf(),
            key@.len() > 0,
            old(self).entries().len() < usize::MAX,
        ensures
            final(self).wf(),
            final(self)@ == old(self)@.insert(key@, value@),
            displaced(prev) == lookup(old(self)@, key@),
            final(self).entries().len() == old(self).entries().len() + (if old(self)@.contains_key(
                key@,
            ) {
                0int
            } else {
                1int
            }),
    {
        let root = Subtree(self.0.take());
        let (grown, prev) = insert_into(root, key, value);
        *self = grown;
        prev
    }

    /// Records that `key` is deleted: binds it to a deletion marker, whether
    /// or not it was bound before, so that the deletion shadows older data
    /// once the tree is written out. Returns what was bound before, if
    /// anything.
    pub fn delete(&mut self, key: String) -> (prev: Option<Value>)
        requires
            old(self).wf(),
            key@.len() > 0,
            old(self).entries().len() < usize::MAX,
        ensures
            final(self).wf(),
            final(self)@ == old(self)@.insert(key@, None),
            displaced(prev) == lookup(old(self)@, key@),
            final(self).entries().len() == old(self).entries().len() + (if old(self)@.contains_key(
                key@,
            ) {
                0int
            } else {
                1int
            }),
    {
        self.insert(key, Value::Tombstone)
    }

    /// Looks `key` up by descending from the root.
    pub fn get(&self, key: &str) -> (r: Lookup)
        requires
            self.wf(),
        ensures
            r@ == lookup(self@, key@),
    {
        let mut cur: &Subtree = self;
        loop
            invariant
                valid_entries(cur.entries()),
                lookup(to_map(cur.entries()), key@) == lookup(self@, key@),
            decreases cur.entries().len(),
        {
            match &cur.0 {
                None => {
                    assert(cur.entries() =~= Seq::<EntrySpec>::empty());
                    return Lookup::Absent;
                },
                Some(node) => {
                    proof {
                        let e = (node.key@, node.value@);
                        lemma_join_parts(node.left.entries(), e, node.right.entries());
                        lemma_lookup_split(node.left.entries(), e, node.right.entries(), key@);
                    }
                    match compare_keys(key, node.key.as_str()) {
                        KeyOrder::Equal => {
                            return Lookup::from_value(&node.value);
                        },
                        KeyOrder::Less => {
                            cur = &node.left;
                        },
                        KeyOrder::Greater => {
                            cur = &node.right;
                        },
                    }
                },
            }
        }
    }

    /// Number of entries, deletion markers included.
    pub fn len(&self) -> (n: usize)
        requires
            self.wf(),
        ensures
            n == self.entries().len(),
    {
        proof {
            lemma_shape_cached(*self);
        }
        self.cached_len()
    }

    /// Whether the tree holds no entry.
    pub fn is_empty(&self) -> (b: bool)
        ensures
            b == (self.entries().len() == 0),
    {
        self.0.is_none()
    }

    /// Number of nodes on the longest path from the root down.
    pub fn height(&self) -> (h: usize)
        requires
            self.wf(),
        ensures
            h == self.height_spec(),
    {
        proof {
            lemma_shape_gives_balance(*self);
        }
        self.cached_height()
    }

    /// Payload bytes held: key bytes plus value bytes over all entries, cut
    /// off at the largest machine word.
    pub fn size_estimate(&self) -> (n: usize)
        requires
            self.wf(),
        ensures
            n == saturate(footprint(self.entries())),
    {
        proof {
            lemma_shape_cached(*self);
        }
        self.cached_weight()
    }

    /// Drops every entry.
    pub fn clear(&mut self)
        ensures
            final(self).wf(),
            final(self).entries() == Seq::<EntrySpec>::empty(),
    {
        self.0 = None;
    }

    /// A cursor over the entries in key order, starting at the smallest key.
    /// It borrows the tree and copies nothing; asking again starts afresh.
    pub fn iter_sorted(&self) -> (it: SortedIter<'_>)
        ensures
            it.remaining() == self.entries(),
    {
        let mut it = SortedIter { stack: Vec::new() };
        assert(pending(it.stack@) =~= Seq::<EntrySpec>::empty());
        assert(self.entries() + pending(it.stack@) =~= self.entries());
        it.descend(self);
        it
    }
}

/// What a stack of nodes still has to yield: for each node from the top of
/// the stack down, the node's own entry and then its right subtree.
pub closed spec fn pending(stack: Seq<&Node>) -> Seq<EntrySpec>
    decreases stack.len(),
{
    if stack.len() == 0 {
        Seq::empty()
    } else {
        seq![(stack.last().key@, stack.last().value@)] + stack.last().right.entries() + pending(
            stack.drop_last(),
        )
    }
}

/// A cursor over the entries of a tree in key order.
pub struct SortedIter<'a> {
    stack: Vec<&'a Node>,
}

impl<'a> SortedIter<'a> {
    /// The entries that the cursor has yet to yield, in order.
    pub closed spec fn remaining(&self) -> Seq<EntrySpec> {
        pending(self.stack@)
    }

    /// Pushes `t`'s root and the chain of left children below it.
    fn descend(&mut self, t: &'a Subtree)
        ensures
            pending(final(self).stack@) == t.entries() + pending(old(self).stack@),
    {
        let mut cur: &'a Subtree = t;
        let ghost goal = t.entries() + pending(self.stack@);
        loop
            invariant
                goal == t.entries() + pending(old(self).stack@),
                cur.entries() + pending(self.stack@) == goal,
            decreases cur.entries().len(),
        {
            match &cur.0 {
                None => {
                    assert(cur.entries() =~= Seq::<EntrySpec>::empty());
                    assert(cur.entries() + pending(self.stack@) =~= pending(self.stack@));
                    return ;
                },
                Some(node) => {
                    let ghost below = self.stack@;
                    self.stack.push(&**node);
                    proof {
                        assert(self.stack@.drop_last() =~= below);
                        assert(node.left.entries() + pending(self.stack@) =~= cur.entries()
                            + pending(below));
                    }
                    cur = &node.left;
                },
            }
        }
    }

    /// Yields the next entry in key order, or `None` when all are yielded.
    pub fn next(&mut self) -> (r: Option<(&'a String, &'a Value)>)
        ensures
            match r {
                Some((k, v)) => {
                    &&& old(self).remaining().len() > 0
                    &&& (k@, v@) == old(self).remaining()[0]
                    &&& final(self).remaining() == old(self).remaining().drop_first()
                },
                None => {
                    &&& old(self).remaining().len() == 0
                    &&& final(self).remaining().len() == 0
                },
            },
    {
        match self.stack.pop() {
            None => None,
            Some(node) => {
                let ghost rest = pending(self.stack@);
                proof {
                    assert(old(self).stack@.drop_last() =~= self.stack@);
                    assert(old(self).remaining() == seq![(node.key@, node.value@)]
                        + node.right.entries() + rest);
                }
                self.descend(&node.right);
                proof {
                    assert(self.remaining() =~= old(self).remaining().drop_first());
                }
                Some((&node.key, &node.value))
            },
        }
    }
}

/// Takes the entry with the smallest key out of the subtree rooted at
/// `node`, rebalancing on the way back up.
fn take_min(mut node: Box<Node>) -> (res: (Subtree, String, Value))
    requires
        node.wf(),
    ensures
        res.0.wf(),
        node.entries() == seq![(res.1@, res.2@)] + res.0.entries(),
        res.0.tall() == node.height || res.0.tall() + 1 == node.height,
    decreases node.entries().len(),
{
    let ghost l = node.left.entries();
    let ghost e = (node.key@, node.value@);
    let ghost r = node.right.entries();
    let ghost all = node.entries();
    proof {
        lemma_join_parts(l, e, r);
    }
    match node.left.0.take() {
        None => {
            let inner = *node;
            proof {
                assert(l =~= Seq::<EntrySpec>::empty());
                assert(all =~= seq![e] + r);
            }
            (inner.right, inner.key, inner.value)
        },
        Some(left) => {
            let (rest, key, value) = take_min(left);
            node.left = rest;
            proof {
                assert(all =~= seq![(key@, value@)] + (rest.entries() + seq![e] + r));
                assert(node.entries() =~= all.subrange(1, all.len() as int));
                lemma_valid_subrange(all, 1, all.len() as int);
                lemma_shape_cached(node.right);
                lemma_tall_le_len(node.right);
            }
            let balanced = rebalance(node);
            (Subtree(Some(balanced)), key, value)
        },
    }
}

/// Takes the entry of `key` out of `t`, if there is one, rebalancing on
/// the way back up, and hands back the value that was stored.
fn remove_from(t: Subtree, key: &str) -> (res: (Subtree, Option<Value>))
    requires
        t.wf(),
    ensures
        res.0.wf(),
        res.0.entries() == drop_key(t.entries(), key@),
        displaced(res.1) == lookup(to_map(t.entries()), key@),
        res.0.tall() == t.tall() || res.0.tall() + 1 == t.tall(),
    decreases t.entries().len(),
{
    match t.0 {
        None => {
            proof {
                assert(t.entries() =~= Seq::<EntrySpec>::empty());
            }
            (Subtree(None), None)
        },
        Some(mut node) => {
            let ghost l = node.left.entries();
            let ghost e = (node.key@, node.value@);
            let ghost r = node.right.entries();
            let ghost all = node.entries();
            proof {
                lemma_join_parts(l, e, r);
                lemma_lookup_split(l, e, r, key@);
                lemma_drop_key_run(all, key@);
                lemma_drop_key_concat(l + seq![e], r, key@);
                lemma_drop_key_concat(l, seq![e], key@);
                assert(seq![e].drop_last() =~= Seq::<EntrySpec>::empty());
                assert(drop_key(Seq::<EntrySpec>::empty(), key@) =~= Seq::<EntrySpec>::empty());
                assert(seq![e].last() == e);
                assert(drop_key(seq![e], key@) =~= if e.0 == key@ {
                    Seq::<EntrySpec>::empty()
                } else {
                    seq![e]
                });
                lemma_shape_cached(node.left);
                lemma_shape_cached(node.right);
                lemma_tall_le_len(node.left);
                lemma_tall_le_len(node.right);
            }
            match compare_keys(key, node.key.as_str()) {
                KeyOrder::Less => {
                    proof {
                        assert(all_above(r, key@)) by {
                            assert forall|i: int| 0 <= i < r.len() implies key_lt(
                                key@,
                                (#[trigger] r[i]).0,
                            ) by {
                                lemma_key_lt_transitive(key@, e.0, r[i].0);
                            }
                        }
                        lemma_drop_key_bounded(r, key@);
                        lemma_key_lt_asymmetric(key@, e.0);
                    }
                    let left = Subtree(node.left.0.take());
                    let (rest, prev) = remove_from(left, key);
                    node.left = rest;
                    proof {
                        assert(node.entries() =~= drop_key(all, key@));
                    }
                    (Subtree(Some(rebalance(node))), prev)
                },
                KeyOrder::Greater => {
                    proof {
                        assert(all_below(l, key@)) by {
                            assert forall|i: int| 0 <= i < l.len() implies key_lt(
                                (#[trigger] l[i]).0,
                                key@,
                            ) by {
                                lemma_key_lt_transitive(l[i].0, e.0, key@);
                            }
                        }
                        lemma_drop_key_bounded(l, key@);
                        lemma_key_lt_asymmetric(e.0, key@);
                    }
                    let right = Subtree(node.right.0.take());
                    let (rest, prev) = remove_from(right, key);
                    node.right = rest;
                    proof {
                        assert(node.entries() =~= drop_key(all, key@));
                    }
                    (Subtree(Some(rebalance(node))), prev)
                },
                KeyOrder::Equal => {
                    proof {
                        lemma_drop_key_bounded(l, key@);
                        lemma_drop_key_bounded(r, key@);
                        assert(drop_key(all, key@) =~= l + r);
                    }
                    let ghost below = node.right;
                    match node.right.0.take() {
                        None => {
                            let inner = *node;
                            proof {
                                assert(r =~= Seq::<EntrySpec>::empty());
                                assert(l + r =~= l);
                            }
                            (inner.left, Some(inner.value))
                        },
                        Some(right) => {
                            if node.left.0.is_none() {
                                let inner = *node;
                                proof {
                                    assert(l =~= Seq::<EntrySpec>::empty());
                                    assert(l + r =~= r);
                                }
                                (Subtree(Some(right)), Some(inner.value))
                            } else {
                                proof {
                                    assert(below.0 == Some(right));
                                    assert(below.shape_ok());
                                    assert(below.entries() == r);
                                }
                                let (rest, next_key, next_value) = take_min(right);
                                let mut value = next_value;
                                node.key = next_key;
                                core::mem::swap(&mut node.value, &mut value);
                                node.right = rest;
                                proof {
                                    assert(node.entries() =~= l + r);
                                }
                                (Subtree(Some(rebalance(node))), Some(value))
                            }
                        },
                    }
                },
            }
        },
    }
}

impl Subtree {
    /// Takes the entry of `key` out of the tree, if there is one, by the
    /// usual deletion from a search tree: a node with two children gets the
    /// entry of its successor, and the path back to the root is rebalanced.
    /// Returns what was stored. Unlike `delete` this leaves no marker
    /// behind, so it does not shadow older data once the tree is written out.
    pub fn remove(&mut self, key: &str) -> (prev: Option<Value>)
        requires
            old(self).wf(),
        ensures
            final(self).wf(),
            final(self)@ == old(self)@.remove(key@),
            final(self).entries() == drop_key(old(self).entries(), key@),
            displaced(prev) == lookup(old(self)@, key@),
            final(self).entries().len() == old(self).entries().len() - (if old(self)@.contains_key(
                key@,
            ) {
                1int
            } else {
                0int
            }),
    {
        proof {
            lemma_drop_key_run(self.entries(), key@);
        }
        let root = Subtree(self.0.take());
        let (rest, prev) = remove_from(root, key);
        *self = rest;
        prev
    }
}

} // verus!
