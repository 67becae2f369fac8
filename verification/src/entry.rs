//! Entries, values and lookup results, and the mathematical model of a sorted
//! run of entries that the index, the segments and the compactor share.
use vstd::prelude::*;
use vstd::utf8::*;
use crate::key::{
    key_lt, lemma_key_lt_asymmetric, lemma_key_lt_irreflexive, lemma_key_lt_transitive,
};

verus! {

/// Model of a key: its characters.
pub type KeySpec = Seq<char>;

/// Model of a stored value: `Some` for a present value, `None` for a
/// deletion marker.
pub type ValueSpec = Option<Seq<char>>;

/// Model of an entry: key and stored value.
pub type EntrySpec = (Seq<char>, Option<Seq<char>>);

/// Model of a lookup result: `None` when the key was never written, else the
/// stored value.
pub type LookupSpec = Option<Option<Seq<char>>>;

/// What is stored under a key: a value, or the marker of a deletion.
#[derive(Debug, PartialEq, Eq)]
pub enum Value {
    Present(String),
    Tombstone,
}

impl View for Value {
    type V = Option<Seq<char>>;

    open spec fn view(&self) -> Option<Seq<char>> {
        match self {
            Value::Present(s) => Some(s@),
            Value::Tombstone => None,
        }
    }
}

impl Clone for Value {
    fn clone(&self) -> (r: Self)
        ensures
            r@ == self@,
    {
        match self {
            Value::Present(s) => Value::Present(s.clone()),
            Value::Tombstone => Value::Tombstone,
        }
    }
}

impl Value {
    /// Number of payload bytes of the value; a deletion marker has none.
    pub fn byte_len(&self) -> (n: usize)
        ensures
            n == value_size(self@),
    {
        match self {
            Value::Present(s) => s.as_str().as_bytes().len(),
            Value::Tombstone => 0,
        }
    }
}

/// A key with what is stored under it.
#[derive(Debug, PartialEq, Eq)]
pub struct Entry {
    pub key: String,
    pub value: Value,
}

impl View for Entry {
    type V = (Seq<char>, Option<Seq<char>>);

    open spec fn view(&self) -> (Seq<char>, Option<Seq<char>>) {
        (self.key@, self.value@)
    }
}

impl Clone for Entry {
    fn clone(&self) -> (r: Self)
        ensures
            r@ == self@,
    {
        Entry { key: self.key.clone(), value: self.value.clone() }
    }
}

/// The outcome of probing one sorted source for a key.
#[derive(Debug, PartialEq, Eq)]
pub enum Lookup {
    /// The key holds this value.
    Present(String),
    /// The key was explicitly deleted.
    Tombstone,
    /// The source has never seen the key.
    Absent,
}

impl View for Lookup {
    type V = Option<Option<Seq<char>>>;

    open spec fn view(&self) -> Option<Option<Seq<char>>> {
        match self {
            Lookup::Present(s) => Some(Some(s@)),
            Lookup::Tombstone => Some(None),
            Lookup::Absent => None,
        }
    }
}

impl Lookup {
    /// The lookup result that a stored value stands for.
    pub fn from_value(value: &Value) -> (r: Lookup)
        ensures
            r@ == Some(value@),
    {
        match value {
            Value::Present(s) => Lookup::Present(s.clone()),
            Value::Tombstone => Lookup::Tombstone,
        }
    }

    /// What a caller of the engine sees: the value if present, nothing for a
    /// deleted or unknown key.
    pub fn into_option(self) -> (r: Option<String>)
        ensures
            visible(self@) == (match r {
                Some(s) => Some(s@),
                None => None,
            }),
    {
        match self {
            Lookup::Present(s) => Some(s),
            Lookup::Tombstone => None,
            Lookup::Absent => None,
        }
    }
}

/// Views of a vector of entries, in order.
pub open spec fn entries_view(v: Seq<Entry>) -> Seq<EntrySpec> {
    Seq::new(v.len(), |i: int| v[i]@)
}

/// The value a reader sees for a lookup result: deleted and unknown keys
/// both read as nothing.
pub open spec fn visible(r: LookupSpec) -> Option<Seq<char>> {
    match r {
        Some(Some(v)) => Some(v),
        _ => None,
    }
}

/// Keys strictly increase along the run.
pub open spec fn sorted(s: Seq<EntrySpec>) -> bool {
    forall|i: int, j: int| 0 <= i < j < s.len() ==> key_lt(#[trigger] s[i].0, #[trigger] s[j].0)
}

/// A well-formed run: strictly increasing, non-empty keys.
pub open spec fn valid_entries(s: Seq<EntrySpec>) -> bool {
    &&& sorted(s)
    &&& forall|i: int| 0 <= i < s.len() ==> (#[trigger] s[i]).0.len() > 0
}

/// The key-to-value map that a run stands for (a later entry wins, though a
/// sorted run never holds a key twice).
pub open spec fn to_map(s: Seq<EntrySpec>) -> Map<KeySpec, ValueSpec>
    decreases s.len(),
{
    if s.len() == 0 {
        Map::empty()
    } else {
        to_map(s.drop_last()).insert(s.last().0, s.last().1)
    }
}

/// Probing a map: the stored value, or `None` for a key it does not hold.
pub open spec fn lookup(m: Map<KeySpec, ValueSpec>, k: KeySpec) -> LookupSpec {
    if m.contains_key(k) {
        Some(m[k])
    } else {
        None
    }
}

/// Payload bytes of a stored value.
pub open spec fn value_size(v: ValueSpec) -> nat {
    match v {
        Some(s) => encode_utf8(s).len(),
        None => 0,
    }
}

/// Payload bytes of an entry: key bytes plus value bytes.
pub open spec fn entry_size(e: EntrySpec) -> nat {
    encode_utf8(e.0).len() + value_size(e.1)
}

/// Payload bytes of a whole run.
pub open spec fn footprint(s: Seq<EntrySpec>) -> nat
    decreases s.len(),
{
    if s.len() == 0 {
        0
    } else {
        footprint(s.drop_last()) + entry_size(s.last())
    }
}

pub proof fn lemma_footprint_concat(a: Seq<EntrySpec>, b: Seq<EntrySpec>)
    ensures
        footprint(a + b) == footprint(a) + footprint(b),
    decreases b.len(),
{
    if b.len() == 0 {
        assert(a + b =~= a);
    } else {
        assert((a + b).drop_last() =~= a + b.drop_last());
        lemma_footprint_concat(a, b.drop_last());
    }
}

pub proof fn lemma_footprint_single(e: EntrySpec)
    ensures
        footprint(seq![e]) == entry_size(e),
{
    assert(seq![e].drop_last() =~= Seq::<EntrySpec>::empty());
    assert(footprint(seq![e].drop_last()) == 0);
}

/// A key is in the map of a run exactly when some entry of the run has it.
pub proof fn lemma_to_map_contains(s: Seq<EntrySpec>, k: KeySpec)
    ensures
        to_map(s).contains_key(k) <==> exists|i: int| 0 <= i < s.len() && (#[trigger] s[i]).0 == k,
    decreases s.len(),
{
    if s.len() > 0 {
        let t = s.drop_last();
        lemma_to_map_contains(t, k);
        if to_map(s).contains_key(k) {
            if s.last().0 == k {
                assert(s[s.len() - 1].0 == k);
            } else {
                let i = choose|i: int| 0 <= i < t.len() && (#[trigger] t[i]).0 == k;
                assert(s[i].0 == k);
            }
        }
        if exists|i: int| 0 <= i < s.len() && (#[trigger] s[i]).0 == k {
            let i = choose|i: int| 0 <= i < s.len() && (#[trigger] s[i]).0 == k;
            if i < s.len() - 1 {
                assert(t[i].0 == k);
            }
        }
    }
}

/// In a sorted run every entry is what the map holds under its key.
pub proof fn lemma_to_map_index(s: Seq<EntrySpec>, i: int)
    requires
        sorted(s),
        0 <= i < s.len(),
    ensures
        to_map(s).contains_key(s[i].0),
        to_map(s)[s[i].0] == s[i].1,
    decreases s.len(),
{
    let t = s.drop_last();
    if i < s.len() - 1 {
        assert(sorted(t)) by {
            assert forall|a: int, b: int| 0 <= a < b < t.len() implies key_lt(
                #[trigger] t[a].0,
                #[trigger] t[b].0,
            ) by {
                assert(key_lt(s[a].0, s[b].0));
            }
        }
        lemma_to_map_index(t, i);
        assert(t[i] == s[i]);
        assert(key_lt(s[i].0, s[s.len() - 1].0));
        lemma_key_lt_asymmetric(s[i].0, s.last().0);
    }
}

/// Any contiguous part of a well-formed run is well-formed.
pub proof fn lemma_valid_subrange(s: Seq<EntrySpec>, from: int, to: int)
    requires
        valid_entries(s),
        0 <= from <= to <= s.len(),
    ensures
        valid_entries(s.subrange(from, to)),
{
    let t = s.subrange(from, to);
    assert forall|a: int, b: int| 0 <= a < b < t.len() implies key_lt(
        #[trigger] t[a].0,
        #[trigger] t[b].0,
    ) by {
        assert(key_lt(s[a + from].0, s[b + from].0));
    }
    assert forall|a: int| 0 <= a < t.len() implies (#[trigger] t[a]).0.len() > 0 by {
        assert(s[a + from].0.len() > 0);
    }
}

/// The map of two runs laid end to end: the second run's entries win.
pub proof fn lemma_to_map_concat(a: Seq<EntrySpec>, b: Seq<EntrySpec>)
    ensures
        to_map(a + b) == to_map(a).union_prefer_right(to_map(b)),
    decreases b.len(),
{
    if b.len() == 0 {
        assert(a + b =~= a);
        assert(to_map(a).union_prefer_right(to_map(b)) =~= to_map(a));
    } else {
        assert((a + b).drop_last() =~= a + b.drop_last());
        lemma_to_map_concat(a, b.drop_last());
        assert(to_map(a + b) =~= to_map(a).union_prefer_right(to_map(b)));
    }
}

/// Two well-formed runs with the same map are the same run.
pub proof fn lemma_sorted_run_unique(a: Seq<EntrySpec>, b: Seq<EntrySpec>)
    requires
        sorted(a),
        sorted(b),
        to_map(a) == to_map(b),
    ensures
        a == b,
    decreases a.len(),
{
    if a.len() == 0 {
        if b.len() > 0 {
            lemma_to_map_index(b, 0);
        }
        assert(a =~= b);
    } else if b.len() == 0 {
        lemma_to_map_index(a, 0);
    } else {
        // the largest key of each run must be the largest key of the map
        let la = a.last();
        let lb = b.last();
        lemma_to_map_index(a, a.len() - 1);
        lemma_to_map_index(b, b.len() - 1);
        lemma_to_map_contains(b, la.0);
        lemma_to_map_contains(a, lb.0);
        let i = choose|i: int| 0 <= i < b.len() && (#[trigger] b[i]).0 == la.0;
        let j = choose|j: int| 0 <= j < a.len() && (#[trigger] a[j]).0 == lb.0;
        if i < b.len() - 1 {
            assert(key_lt(b[i].0, b[b.len() - 1].0));
            if j < a.len() - 1 {
                assert(key_lt(a[j].0, a[a.len() - 1].0));
                lemma_key_lt_asymmetric(la.0, lb.0);
            } else {
                lemma_key_lt_irreflexive(la.0);
            }
            assert(false);
        }
        assert(la.0 == lb.0);
        assert(la == lb);
        let ta = a.drop_last();
        let tb = b.drop_last();
        lemma_sorted_drop_last(a);
        lemma_sorted_drop_last(b);
        assert(to_map(ta) =~= to_map(a).remove(la.0)) by {
            lemma_to_map_contains(ta, la.0);
            if to_map(ta).contains_key(la.0) {
                let x = choose|x: int| 0 <= x < ta.len() && (#[trigger] ta[x]).0 == la.0;
                assert(key_lt(a[x].0, a[a.len() - 1].0));
                lemma_key_lt_irreflexive(la.0);
            }
        }
        assert(to_map(tb) =~= to_map(b).remove(lb.0)) by {
            lemma_to_map_contains(tb, lb.0);
            if to_map(tb).contains_key(lb.0) {
                let x = choose|x: int| 0 <= x < tb.len() && (#[trigger] tb[x]).0 == lb.0;
                assert(key_lt(b[x].0, b[b.len() - 1].0));
                lemma_key_lt_irreflexive(lb.0);
            }
        }
        lemma_sorted_run_unique(ta, tb);
        assert(a =~= ta.push(la));
        assert(b =~= tb.push(lb));
    }
}

pub proof fn lemma_sorted_drop_last(s: Seq<EntrySpec>)
    requires
        sorted(s),
        s.len() > 0,
    ensures
        sorted(s.drop_last()),
{
    let t = s.drop_last();
    assert forall|a: int, b: int| 0 <= a < b < t.len() implies key_lt(
        #[trigger] t[a].0,
        #[trigger] t[b].0,
    ) by {
        assert(key_lt(s[a].0, s[b].0));
    }
}

/// Every key of the run precedes `k`.
pub open spec fn all_below(s: Seq<EntrySpec>, k: KeySpec) -> bool {
    forall|i: int| 0 <= i < s.len() ==> key_lt((#[trigger] s[i]).0, k)
}

/// Every key of the run follows `k`.
pub open spec fn all_above(s: Seq<EntrySpec>, k: KeySpec) -> bool {
    forall|i: int| 0 <= i < s.len() ==> key_lt(k, (#[trigger] s[i]).0)
}

/// The parts of a well-formed run around one of its entries.
pub proof fn lemma_join_parts(l: Seq<EntrySpec>, e: EntrySpec, r: Seq<EntrySpec>)
    requires
        valid_entries(l + seq![e] + r),
    ensures
        valid_entries(l),
        valid_entries(r),
        all_below(l, e.0),
        all_above(r, e.0),
        e.0.len() > 0,
{
    let s = l + seq![e] + r;
    let n = l.len() as int;
    assert(s[n] == e);
    assert(l =~= s.subrange(0, n));
    assert(r =~= s.subrange(n + 1, s.len() as int));
    lemma_valid_subrange(s, 0, n);
    lemma_valid_subrange(s, n + 1, s.len() as int);
    assert forall|i: int| 0 <= i < l.len() implies key_lt((#[trigger] l[i]).0, e.0) by {
        assert(key_lt(s[i].0, s[n].0));
    }
    assert forall|i: int| 0 <= i < r.len() implies key_lt(e.0, (#[trigger] r[i]).0) by {
        assert(key_lt(s[n].0, s[n + 1 + i].0));
    }
}

/// Two well-formed runs around an entry that lies between them make a
/// well-formed run.
pub proof fn lemma_join_valid(l: Seq<EntrySpec>, e: EntrySpec, r: Seq<EntrySpec>)
    requires
        valid_entries(l),
        valid_entries(r),
        all_below(l, e.0),
        all_above(r, e.0),
        e.0.len() > 0,
    ensures
        valid_entries(l + seq![e] + r),
{
    let s = l + seq![e] + r;
    let n = l.len() as int;
    assert forall|i: int, j: int| 0 <= i < j < s.len() implies key_lt(
        #[trigger] s[i].0,
        #[trigger] s[j].0,
    ) by {
        if j < n {
            assert(key_lt(l[i].0, l[j].0));
        } else if j == n {
            assert(key_lt(l[i].0, e.0));
        } else if i < n {
            assert(key_lt(l[i].0, e.0));
            assert(key_lt(e.0, r[j - n - 1].0));
            lemma_key_lt_transitive(l[i].0, e.0, r[j - n - 1].0);
        } else if i == n {
            assert(key_lt(e.0, r[j - n - 1].0));
        } else {
            assert(key_lt(r[i - n - 1].0, r[j - n - 1].0));
        }
    }
    assert forall|i: int| 0 <= i < s.len() implies (#[trigger] s[i]).0.len() > 0 by {
        if i < n {
            assert(l[i].0.len() > 0);
        } else if i > n {
            assert(r[i - n - 1].0.len() > 0);
        }
    }
}

/// A run all of whose keys precede (or follow) `k` does not hold `k`.
pub proof fn lemma_bounded_run_misses(s: Seq<EntrySpec>, k: KeySpec)
    requires
        all_below(s, k) || all_above(s, k),
    ensures
        !to_map(s).contains_key(k),
{
    lemma_to_map_contains(s, k);
    if to_map(s).contains_key(k) {
        let i = choose|i: int| 0 <= i < s.len() && (#[trigger] s[i]).0 == k;
        lemma_key_lt_irreflexive(k);
    }
}

/// Every key of a run is a key of its map, and the bounds of a map's keys
/// are the bounds of the run.
pub proof fn lemma_bounds_from_map(s: Seq<EntrySpec>, t: Seq<EntrySpec>, k: KeySpec, bound: KeySpec, below: bool)
    requires
        to_map(t).dom() == to_map(s).dom().insert(k),
        if below { all_below(s, bound) && key_lt(k, bound) } else { all_above(s, bound) && key_lt(bound, k) },
    ensures
        if below { all_below(t, bound) } else { all_above(t, bound) },
{
    assert forall|i: int| 0 <= i < t.len() implies (if below {
        key_lt((#[trigger] t[i]).0, bound)
    } else {
        key_lt(bound, t[i].0)
    }) by {
        lemma_to_map_contains(t, t[i].0);
        assert(to_map(t).dom().contains(t[i].0));
        if t[i].0 != k {
            assert(to_map(s).dom().contains(t[i].0));
            lemma_to_map_contains(s, t[i].0);
            let j = choose|j: int| 0 <= j < s.len() && (#[trigger] s[j]).0 == t[i].0;
            assert(s[j].0 == t[i].0);
        }
    }
}

/// Where a key is looked for in a well-formed run split around one entry.
pub proof fn lemma_lookup_split(l: Seq<EntrySpec>, e: EntrySpec, r: Seq<EntrySpec>, k: KeySpec)
    requires
        valid_entries(l + seq![e] + r),
    ensures
        key_lt(k, e.0) ==> lookup(to_map(l + seq![e] + r), k) == lookup(to_map(l), k),
        key_lt(e.0, k) ==> lookup(to_map(l + seq![e] + r), k) == lookup(to_map(r), k),
        k == e.0 ==> lookup(to_map(l + seq![e] + r), k) == Some(e.1),
{
    lemma_join_parts(l, e, r);
    lemma_to_map_concat(l + seq![e], r);
    lemma_to_map_concat(l, seq![e]);
    lemma_single_map(e);
    if key_lt(k, e.0) {
        lemma_key_lt_asymmetric(k, e.0);
        assert(all_above(r, k)) by {
            assert forall|i: int| 0 <= i < r.len() implies key_lt(k, (#[trigger] r[i]).0) by {
                lemma_key_lt_transitive(k, e.0, r[i].0);
            }
        }
        lemma_bounded_run_misses(r, k);
    } else if key_lt(e.0, k) {
        lemma_key_lt_asymmetric(e.0, k);
        assert(all_below(l, k)) by {
            assert forall|i: int| 0 <= i < l.len() implies key_lt((#[trigger] l[i]).0, k) by {
                lemma_key_lt_transitive(l[i].0, e.0, k);
            }
        }
        lemma_bounded_run_misses(l, k);
    } else if k == e.0 {
        lemma_bounded_run_misses(r, k);
    }
}

/// Replacing the left part of a run by one that holds one more binding.
pub proof fn lemma_insert_left(
    l: Seq<EntrySpec>,
    l2: Seq<EntrySpec>,
    e: EntrySpec,
    r: Seq<EntrySpec>,
    k: KeySpec,
    v: ValueSpec,
)
    requires
        valid_entries(l + seq![e] + r),
        valid_entries(l2),
        to_map(l2) == to_map(l).insert(k, v),
        key_lt(k, e.0),
    ensures
        valid_entries(l2 + seq![e] + r),
        to_map(l2 + seq![e] + r) == to_map(l + seq![e] + r).insert(k, v),
        lookup(to_map(l + seq![e] + r), k) == lookup(to_map(l), k),
{
    lemma_join_parts(l, e, r);
    lemma_lookup_split(l, e, r, k);
    assert(to_map(l2).dom() =~= to_map(l).dom().insert(k));
    lemma_bounds_from_map(l, l2, k, e.0, true);
    lemma_join_valid(l2, e, r);
    lemma_to_map_concat(l, seq![e] + r);
    lemma_to_map_concat(l2, seq![e] + r);
    assert(l + seq![e] + r =~= l + (seq![e] + r));
    assert(l2 + seq![e] + r =~= l2 + (seq![e] + r));
    assert(all_above(seq![e] + r, k)) by {
        assert forall|i: int| 0 <= i < (seq![e] + r).len() implies key_lt(
            k,
            (#[trigger] (seq![e] + r)[i]).0,
        ) by {
            if i > 0 {
                assert((seq![e] + r)[i] == r[i - 1]);
                lemma_key_lt_transitive(k, e.0, r[i - 1].0);
            }
        }
    }
    lemma_bounded_run_misses(seq![e] + r, k);
    assert(to_map(l2 + seq![e] + r) =~= to_map(l + seq![e] + r).insert(k, v));
}

/// Replacing the right part of a run by one that holds one more binding.
pub proof fn lemma_insert_right(
    l: Seq<EntrySpec>,
    e: EntrySpec,
    r: Seq<EntrySpec>,
    r2: Seq<EntrySpec>,
    k: KeySpec,
    v: ValueSpec,
)
    requires
        valid_entries(l + seq![e] + r),
        valid_entries(r2),
        to_map(r2) == to_map(r).insert(k, v),
        key_lt(e.0, k),
    ensures
        valid_entries(l + seq![e] + r2),
        to_map(l + seq![e] + r2) == to_map(l + seq![e] + r).insert(k, v),
        lookup(to_map(l + seq![e] + r), k) == lookup(to_map(r), k),
{
    lemma_join_parts(l, e, r);
    lemma_lookup_split(l, e, r, k);
    assert(to_map(r2).dom() =~= to_map(r).dom().insert(k));
    lemma_bounds_from_map(r, r2, k, e.0, false);
    lemma_join_valid(l, e, r2);
    lemma_to_map_concat(l + seq![e], r);
    lemma_to_map_concat(l + seq![e], r2);
    assert(to_map(l + seq![e] + r2) =~= to_map(l + seq![e] + r).insert(k, v));
}

/// Replacing the value of one entry of a run.
pub proof fn lemma_overwrite(l: Seq<EntrySpec>, e: EntrySpec, r: Seq<EntrySpec>, v: ValueSpec)
    requires
        valid_entries(l + seq![e] + r),
    ensures
        valid_entries(l + seq![(e.0, v)] + r),
        to_map(l + seq![(e.0, v)] + r) == to_map(l + seq![e] + r).insert(e.0, v),
        lookup(to_map(l + seq![e] + r), e.0) == Some(e.1),
{
    let e2 = (e.0, v);
    lemma_join_parts(l, e, r);
    lemma_lookup_split(l, e, r, e.0);
    lemma_join_valid(l, e2, r);
    lemma_to_map_concat(l + seq![e], r);
    lemma_to_map_concat(l, seq![e]);
    lemma_to_map_concat(l + seq![e2], r);
    lemma_to_map_concat(l, seq![e2]);
    lemma_single_map(e);
    lemma_single_map(e2);
    lemma_bounded_run_misses(r, e.0);
    assert(to_map(l + seq![e2] + r) =~= to_map(l + seq![e] + r).insert(e.0, v));
}

/// The map of a single entry.
pub proof fn lemma_single_map(e: EntrySpec)
    ensures
        to_map(seq![e]) == Map::<KeySpec, ValueSpec>::empty().insert(e.0, e.1),
{
    let t = seq![e].drop_last();
    assert(t =~= Seq::<EntrySpec>::empty());
    assert(to_map(t) =~= Map::<KeySpec, ValueSpec>::empty());
    assert(seq![e].last() == e);
    assert(to_map(seq![e]) =~= Map::<KeySpec, ValueSpec>::empty().insert(e.0, e.1));
}

/// The run of a single entry.
pub proof fn lemma_single_run(e: EntrySpec)
    requires
        e.0.len() > 0,
    ensures
        valid_entries(seq![e]),
        to_map(seq![e]) == Map::<KeySpec, ValueSpec>::empty().insert(e.0, e.1),
        to_map(Seq::<EntrySpec>::empty()) == Map::<KeySpec, ValueSpec>::empty(),
{
    lemma_single_map(e);
}

/// A key that lies beyond the first part of a run and before the last part
/// is looked up in the middle part alone.
pub proof fn lemma_lookup_middle(a: Seq<EntrySpec>, b: Seq<EntrySpec>, c: Seq<EntrySpec>, k: KeySpec)
    requires
        all_below(a, k),
        all_above(c, k),
    ensures
        lookup(to_map(a + b + c), k) == lookup(to_map(b), k),
{
    lemma_to_map_concat(a + b, c);
    lemma_to_map_concat(a, b);
    lemma_bounded_run_misses(a, k);
    lemma_bounded_run_misses(c, k);
}

/// A key that precedes the first key of a sorted run is not in the run.
pub proof fn lemma_before_first(s: Seq<EntrySpec>, k: KeySpec)
    requires
        sorted(s),
        s.len() > 0 ==> key_lt(k, s[0].0),
    ensures
        all_above(s, k),
        lookup(to_map(s), k) == None::<ValueSpec>,
{
    assert forall|i: int| 0 <= i < s.len() implies key_lt(k, (#[trigger] s[i]).0) by {
        if i > 0 {
            assert(key_lt(s[0].0, s[i].0));
            lemma_key_lt_transitive(k, s[0].0, s[i].0);
        }
    }
    lemma_bounded_run_misses(s, k);
}

/// The run without the entries of key `k`.
pub open spec fn drop_key(s: Seq<EntrySpec>, k: KeySpec) -> Seq<EntrySpec>
    decreases s.len(),
{
    if s.len() == 0 {
        Seq::empty()
    } else if s.last().0 == k {
        drop_key(s.drop_last(), k)
    } else {
        drop_key(s.drop_last(), k).push(s.last())
    }
}

/// Dropping a key from two runs laid end to end drops it from each.
pub proof fn lemma_drop_key_concat(a: Seq<EntrySpec>, b: Seq<EntrySpec>, k: KeySpec)
    ensures
        drop_key(a + b, k) == drop_key(a, k) + drop_key(b, k),
    decreases b.len(),
{
    if b.len() == 0 {
        assert(a + b =~= a);
        assert(drop_key(a, k) + drop_key(b, k) =~= drop_key(a, k));
    } else {
        assert((a + b).drop_last() =~= a + b.drop_last());
        lemma_drop_key_concat(a, b.drop_last(), k);
        assert(drop_key(a + b, k) =~= drop_key(a, k) + drop_key(b, k));
    }
}

/// Dropping a key that a run does not hold changes nothing.
pub proof fn lemma_drop_key_absent(s: Seq<EntrySpec>, k: KeySpec)
    requires
        forall|i: int| 0 <= i < s.len() ==> (#[trigger] s[i]).0 != k,
    ensures
        drop_key(s, k) == s,
    decreases s.len(),
{
    if s.len() > 0 {
        let front = s.drop_last();
        assert forall|i: int| 0 <= i < front.len() implies (#[trigger] front[i]).0 != k by {
            assert(front[i] == s[i]);
        }
        lemma_drop_key_absent(front, k);
        assert(s[s.len() - 1].0 != k);
        assert(front.push(s.last()) =~= s);
    }
}

/// A run whose keys all precede (or all follow) `k` is not changed by
/// dropping `k`.
pub proof fn lemma_drop_key_bounded(s: Seq<EntrySpec>, k: KeySpec)
    requires
        all_below(s, k) || all_above(s, k),
    ensures
        drop_key(s, k) == s,
{
    assert forall|i: int| 0 <= i < s.len() implies (#[trigger] s[i]).0 != k by {
        lemma_key_lt_irreflexive(k);
    }
    lemma_drop_key_absent(s, k);
}

/// Dropping a key keeps every bound on the keys of a run.
pub proof fn lemma_drop_key_below(s: Seq<EntrySpec>, k: KeySpec, bound: KeySpec)
    requires
        all_below(s, bound),
    ensures
        all_below(drop_key(s, k), bound),
    decreases s.len(),
{
    if s.len() > 0 {
        let front = s.drop_last();
        assert forall|i: int| 0 <= i < front.len() implies key_lt((#[trigger] front[i]).0, bound) by {
            assert(front[i] == s[i]);
        }
        lemma_drop_key_below(front, k, bound);
        assert(key_lt(s[s.len() - 1].0, bound));
    }
}

/// What dropping a key does to a well-formed run: the run stays
/// well-formed, its map loses the key, and it gets shorter by one exactly
/// when it held the key.
pub proof fn lemma_drop_key_run(s: Seq<EntrySpec>, k: KeySpec)
    requires
        valid_entries(s),
    ensures
        valid_entries(drop_key(s, k)),
        to_map(drop_key(s, k)) == to_map(s).remove(k),
        drop_key(s, k).len() == s.len() - (if to_map(s).contains_key(k) {
            1int
        } else {
            0int
        }),
    decreases s.len(),
{
    if s.len() == 0 {
        assert(to_map(drop_key(s, k)) =~= to_map(s).remove(k));
    } else {
        let front = s.drop_last();
        let last = s.last();
        lemma_valid_subrange(s, 0, s.len() - 1);
        assert(front =~= s.subrange(0, s.len() - 1));
        lemma_drop_key_run(front, k);
        assert(all_below(front, last.0)) by {
            assert forall|i: int| 0 <= i < front.len() implies key_lt(
                (#[trigger] front[i]).0,
                last.0,
            ) by {
                assert(key_lt(s[i].0, s[s.len() - 1].0));
            }
        }
        if last.0 == k {
            lemma_drop_key_bounded(front, k);
            lemma_bounded_run_misses(front, k);
            assert(to_map(front) =~= to_map(s).remove(k));
        } else {
            let kept = drop_key(front, k);
            lemma_drop_key_below(front, k, last.0);
            assert(s[s.len() - 1].0.len() > 0);
            assert(valid_entries(kept.push(last))) by {
                let t = kept.push(last);
                assert forall|i: int, j: int| 0 <= i < j < t.len() implies key_lt(
                    #[trigger] t[i].0,
                    #[trigger] t[j].0,
                ) by {
                    if j < kept.len() {
                        assert(key_lt(kept[i].0, kept[j].0));
                    } else {
                        assert(key_lt(kept[i].0, last.0));
                    }
                }
                assert forall|i: int| 0 <= i < t.len() implies (#[trigger] t[i]).0.len() > 0 by {
                    if i < kept.len() {
                        assert(kept[i].0.len() > 0);
                    }
                }
            }
            assert(kept.push(last).drop_last() =~= kept);
            assert(to_map(kept.push(last)) =~= to_map(s).remove(k));
        }
    }
}

} // verus!
