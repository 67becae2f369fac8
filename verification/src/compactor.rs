//! The compactor: a k-way merge over sorted runs that resolves duplicate
//! keys by recency and can discard deletion markers, and the writer that
//! lays the merged run out in segments of bounded size.
use vstd::prelude::*;
use crate::catalog::{lemma_probe_first, probe, table_layers};
use crate::entry::lemma_to_map_concat;
use crate::entry::{
    Entry, EntrySpec, KeySpec, LookupSpec, Value, ValueSpec, all_below, entries_view,
    lemma_bounded_run_misses, lookup, to_map, valid_entries,
};
use crate::key::{
    KeyOrder, compare_keys, key_lt, lemma_key_lt_asymmetric, lemma_key_lt_total,
    lemma_key_lt_transitive,
};
use crate::codec::encode_entry;
use crate::entry::{lemma_sorted_run_unique, lemma_valid_subrange};
use crate::error::StoreError;
use crate::ss_table::{
    SSTable, SegmentWriter, lemma_segment_wf, lemma_valid_push, lemma_writer_wf, segment_body_end,
    segment_image,
};

verus! {

/// Views of a vector of runs, newest first.
pub open spec fn runs_view(runs: Seq<Vec<Entry>>) -> Seq<Seq<EntrySpec>> {
    Seq::new(runs.len(), |i: int| entries_view(runs[i]@))
}

/// The maps of the runs, newest first.
pub open spec fn run_layers(rv: Seq<Seq<EntrySpec>>) -> Seq<Map<KeySpec, ValueSpec>> {
    Seq::new(rv.len(), |j: int| to_map(rv[j]))
}

/// What a merge keeps of what the runs say about a key: everything, or
/// everything but deletion markers.
pub open spec fn kept(r: LookupSpec, drop_tombstones: bool) -> LookupSpec {
    if drop_tombstones && r == Some(None::<Seq<char>>) {
        None
    } else {
        r
    }
}

/// `out` is the merge of the runs: a well-formed run that says about every
/// key what the newest run that knows the key says, deletion markers left
/// out where they are to be dropped.
pub open spec fn merge_of(rv: Seq<Seq<EntrySpec>>, out: Seq<EntrySpec>, drop_tombstones: bool) -> bool {
    &&& valid_entries(out)
    &&& forall|k: KeySpec| #[trigger]
        lookup(to_map(out), k) == kept(probe(run_layers(rv), k), drop_tombstones)
}

/// The maps of the parts of the runs that the merge has consumed.
pub open spec fn done_layers(rv: Seq<Seq<EntrySpec>>, pos: Seq<usize>) -> Seq<
    Map<KeySpec, ValueSpec>,
> {
    Seq::new(rv.len(), |j: int| to_map(rv[j].take(pos[j] as int)))
}

/// The cursors lie within their runs.
pub open spec fn cursors_ok(rv: Seq<Seq<EntrySpec>>, pos: Seq<usize>) -> bool {
    &&& pos.len() == rv.len()
    &&& forall|j: int| 0 <= j < rv.len() ==> (#[trigger] pos[j]) <= rv[j].len()
}

/// Every key that is still to come follows `k`.
pub open spec fn rest_above(rv: Seq<Seq<EntrySpec>>, pos: Seq<usize>, k: KeySpec) -> bool {
    forall|j: int, c: int|
        0 <= j < rv.len() && pos[j] <= c < rv[j].len() ==> key_lt(k, (#[trigger] rv[j][c]).0)
}

/// Every consumed key precedes every key that is still to come.
pub open spec fn frontier(rv: Seq<Seq<EntrySpec>>, pos: Seq<usize>) -> bool {
    forall|i: int, a: int|
        0 <= i < rv.len() && 0 <= a < pos[i] ==> rest_above(rv, pos, (#[trigger] rv[i][a]).0)
}

/// Entries that the cursors have yet to pass, over the first `upto` runs.
pub open spec fn remaining(rv: Seq<Seq<EntrySpec>>, pos: Seq<usize>, upto: int) -> int
    decreases upto,
{
    if upto <= 0 {
        0
    } else {
        remaining(rv, pos, upto - 1) + (rv[upto - 1].len() - pos[upto - 1])
    }
}

proof fn lemma_remaining_step(
    rv: Seq<Seq<EntrySpec>>,
    op: Seq<usize>,
    np: Seq<usize>,
    upto: int,
    b: int,
)
    requires
        cursors_ok(rv, op),
        cursors_ok(rv, np),
        forall|j: int| 0 <= j < rv.len() ==> op[j] <= np[j],
        0 <= upto <= rv.len(),
        0 <= b < rv.len(),
        op[b] < np[b],
    ensures
        0 <= remaining(rv, np, upto) <= remaining(rv, op, upto),
        b < upto ==> remaining(rv, np, upto) < remaining(rv, op, upto),
    decreases upto,
{
    if upto > 0 {
        lemma_remaining_step(rv, op, np, upto - 1, b);
    }
}

/// The key at the cursor of run `j`, if the run is not used up, is `m`.
pub open spec fn head_is(rv: Seq<Seq<EntrySpec>>, pos: Seq<usize>, j: int, m: KeySpec) -> bool {
    pos[j] < rv[j].len() && rv[j][pos[j] as int].0 == m
}

/// The cursors after a step: those at the smallest key have moved on.
pub open spec fn stepped(
    rv: Seq<Seq<EntrySpec>>,
    op: Seq<usize>,
    np: Seq<usize>,
    m: KeySpec,
) -> bool {
    &&& np.len() == op.len()
    &&& forall|j: int|
        0 <= j < rv.len() ==> (#[trigger] np[j]) == (if head_is(rv, op, j, m) {
            op[j] + 1
        } else {
            op[j] as int
        })
}

/// Run `b` has the smallest key at its cursor, and is the newest such run.
pub open spec fn is_winner(rv: Seq<Seq<EntrySpec>>, pos: Seq<usize>, b: int) -> bool {
    &&& 0 <= b < rv.len()
    &&& pos[b] < rv[b].len()
    &&& forall|j: int|
        0 <= j < rv.len() && (#[trigger] pos[j]) < rv[j].len() ==> !key_lt(
            rv[j][pos[j] as int].0,
            rv[b][pos[b] as int].0,
        )
    &&& forall|j: int|
        0 <= j < b && (#[trigger] pos[j]) < rv[j].len() ==> rv[j][pos[j] as int].0
            != rv[b][pos[b] as int].0
}

/// After a step every key that is still to come follows the smallest key.
proof fn lemma_step_rest(rv: Seq<Seq<EntrySpec>>, op: Seq<usize>, np: Seq<usize>, b: int)
    requires
        cursors_ok(rv, op),
        forall|j: int| 0 <= j < rv.len() ==> valid_entries(#[trigger] rv[j]),
        is_winner(rv, op, b),
        stepped(rv, op, np, rv[b][op[b] as int].0),
    ensures
        cursors_ok(rv, np),
        rest_above(rv, np, rv[b][op[b] as int].0),
{
    let m = rv[b][op[b] as int].0;
    assert forall|j: int| 0 <= j < rv.len() implies (#[trigger] np[j]) <= rv[j].len() by {
        assert(op[j] <= rv[j].len());
    }
    assert forall|j: int, c: int| 0 <= j < rv.len() && np[j] <= c < rv[j].len() implies key_lt(
        m,
        (#[trigger] rv[j][c]).0,
    ) by {
        assert(valid_entries(rv[j]));
        assert(op[j] <= rv[j].len());
        let h = rv[j][op[j] as int].0;
        if h == m {
            assert(np[j] == op[j] + 1);
            assert(key_lt(rv[j][op[j] as int].0, rv[j][c].0));
        } else {
            assert(np[j] == op[j]);
            assert(!key_lt(h, m));
            lemma_key_lt_total(h, m);
            if c > op[j] {
                assert(key_lt(rv[j][op[j] as int].0, rv[j][c].0));
                lemma_key_lt_transitive(m, h, rv[j][c].0);
            }
        }
    }
}

/// A step keeps the consumed keys before the keys that are still to come.
proof fn lemma_step_frontier(rv: Seq<Seq<EntrySpec>>, op: Seq<usize>, np: Seq<usize>, b: int)
    requires
        cursors_ok(rv, op),
        forall|j: int| 0 <= j < rv.len() ==> valid_entries(#[trigger] rv[j]),
        frontier(rv, op),
        is_winner(rv, op, b),
        stepped(rv, op, np, rv[b][op[b] as int].0),
    ensures
        frontier(rv, np),
{
    let m = rv[b][op[b] as int].0;
    lemma_step_rest(rv, op, np, b);
    assert forall|i: int, a: int| 0 <= i < rv.len() && 0 <= a < np[i] implies rest_above(
        rv,
        np,
        (#[trigger] rv[i][a]).0,
    ) by {
        let k = rv[i][a].0;
        assert(op[i] <= rv[i].len());
        if a < op[i] {
            assert(rest_above(rv, op, k));
            assert forall|j: int, c: int|
                0 <= j < rv.len() && np[j] <= c < rv[j].len() implies key_lt(
                k,
                (#[trigger] rv[j][c]).0,
            ) by {
                assert(op[j] <= np[j]);
            }
        } else {
            assert(np[i] == op[i] + 1);
            assert(k == m);
        }
    }
}

/// The consumed part of every run lies before the smallest key at the
/// cursors, so no consumed part knows that key.
proof fn lemma_done_misses(rv: Seq<Seq<EntrySpec>>, op: Seq<usize>, b: int, j: int)
    requires
        cursors_ok(rv, op),
        frontier(rv, op),
        0 <= b < rv.len(),
        op[b] < rv[b].len(),
        0 <= j < rv.len(),
    ensures
        all_below(rv[j].take(op[j] as int), rv[b][op[b] as int].0),
        !to_map(rv[j].take(op[j] as int)).contains_key(rv[b][op[b] as int].0),
{
    let m = rv[b][op[b] as int].0;
    let d = rv[j].take(op[j] as int);
    assert(op[j] <= rv[j].len());
    assert forall|a: int| 0 <= a < d.len() implies key_lt((#[trigger] d[a]).0, m) by {
        assert(d[a] == rv[j][a]);
        assert(rest_above(rv, op, rv[j][a].0));
        assert(key_lt(rv[j][a].0, rv[b][op[b] as int].0));
    }
    lemma_bounded_run_misses(d, m);
}

/// Layers that agree on a key give the same probe for it.
pub proof fn lemma_probe_agree(
    x: Seq<Map<KeySpec, ValueSpec>>,
    y: Seq<Map<KeySpec, ValueSpec>>,
    k: KeySpec,
)
    requires
        x.len() == y.len(),
        forall|j: int|
            0 <= j < x.len() ==> (#[trigger] x[j]).contains_key(k) == y[j].contains_key(k) && (
            x[j].contains_key(k) ==> x[j][k] == y[j][k]),
    ensures
        probe(x, k) == probe(y, k),
    decreases x.len(),
{
    if x.len() > 0 {
        assert(x[0].contains_key(k) == y[0].contains_key(k));
        if !x[0].contains_key(k) {
            let xr = x.drop_first();
            let yr = y.drop_first();
            assert forall|j: int| 0 <= j < xr.len() implies (#[trigger] xr[j]).contains_key(k)
                == yr[j].contains_key(k) && (xr[j].contains_key(k) ==> xr[j][k] == yr[j][k]) by {
                assert(xr[j] == x[j + 1]);
                assert(yr[j] == y[j + 1]);
                assert(x[j + 1].contains_key(k) == y[j + 1].contains_key(k));
            }
            lemma_probe_agree(xr, yr, k);
        }
    }
}

/// A step keeps the output the merge of what has been consumed.
proof fn lemma_step_lookup(
    rv: Seq<Seq<EntrySpec>>,
    op: Seq<usize>,
    np: Seq<usize>,
    out: Seq<EntrySpec>,
    out2: Seq<EntrySpec>,
    b: int,
    drop_tombstones: bool,
)
    requires
        cursors_ok(rv, op),
        forall|j: int| 0 <= j < rv.len() ==> valid_entries(#[trigger] rv[j]),
        frontier(rv, op),
        is_winner(rv, op, b),
        stepped(rv, op, np, rv[b][op[b] as int].0),
        valid_entries(out),
        forall|k: KeySpec| #[trigger]
            lookup(to_map(out), k) == kept(probe(done_layers(rv, op), k), drop_tombstones),
        out.len() > 0 ==> rest_above(rv, op, out.last().0),
        out2 == (if drop_tombstones && rv[b][op[b] as int].1 is None {
            out
        } else {
            out.push(rv[b][op[b] as int])
        }),
    ensures
        valid_entries(out2),
        forall|k: KeySpec| #[trigger]
            lookup(to_map(out2), k) == kept(probe(done_layers(rv, np), k), drop_tombstones),
        out2.len() > 0 ==> rest_above(rv, np, out2.last().0),
{
    let e = rv[b][op[b] as int];
    let m = e.0;
    let x = done_layers(rv, op);
    let y = done_layers(rv, np);
    lemma_step_rest(rv, op, np, b);
    assert(valid_entries(rv[b]));
    assert(e.0.len() > 0);
    // how each layer changes
    assert forall|j: int| 0 <= j < rv.len() implies (#[trigger] y[j]) == (if head_is(
        rv,
        op,
        j,
        m,
    ) {
        x[j].insert(m, rv[j][op[j] as int].1)
    } else {
        x[j]
    }) by {
        assert(op[j] <= rv[j].len());
        if head_is(rv, op, j, m) {
            assert(np[j] == op[j] + 1);
            let longer = rv[j].take(op[j] + 1);
            assert(longer.drop_last() =~= rv[j].take(op[j] as int));
            assert(longer.last() == rv[j][op[j] as int]);
        } else {
            assert(np[j] == op[j]);
        }
    }
    // the output does not know the smallest key yet
    assert(all_below(out, m)) by {
        assert forall|a: int| 0 <= a < out.len() implies key_lt((#[trigger] out[a]).0, m) by {
            assert(key_lt(out.last().0, rv[b][op[b] as int].0));
            if a < out.len() - 1 {
                assert(key_lt(out[a].0, out[out.len() - 1].0));
                lemma_key_lt_transitive(out[a].0, out.last().0, m);
            }
        }
    }
    lemma_bounded_run_misses(out, m);
    if out2 != out {
        assert(out.len() > 0 ==> key_lt(out.last().0, rv[b][op[b] as int].0));
        lemma_valid_push(out, e);
        assert(out2.drop_last() =~= out);
    }
    assert forall|j: int| 0 <= j < rv.len() implies !(#[trigger] x[j]).contains_key(m) by {
        lemma_done_misses(rv, op, b, j);
    }
    assert forall|k: KeySpec| #[trigger]
        lookup(to_map(out2), k) == kept(probe(y, k), drop_tombstones) by {
        assert(lookup(to_map(out), k) == kept(probe(x, k), drop_tombstones));
        if k == m {
            assert(head_is(rv, op, b, m));
            assert forall|j: int| 0 <= j < b implies !(#[trigger] y[j]).contains_key(m) by {
                assert(!x[j].contains_key(m));
                assert(op[j] <= rv[j].len());
            }
            assert(y[b] == x[b].insert(m, e.1));
            lemma_probe_first(y, m, b);
        } else {
            lemma_probe_agree(x, y, k);
        }
    }
    if out2.len() > 0 {
        if out2 == out {
            assert forall|j: int, c: int|
                0 <= j < rv.len() && np[j] <= c < rv[j].len() implies key_lt(
                out.last().0,
                (#[trigger] rv[j][c]).0,
            ) by {
                assert(op[j] <= rv[j].len());
                assert(op[j] <= np[j]);
            }
        } else {
            assert(out2.last() == e);
        }
    }
}

/// Finds the run to take the next entry from: the newest of the runs whose
/// cursor stands at the smallest key. There is none when all runs are used up.
fn pick_winner(runs: &Vec<Vec<Entry>>, pos: &Vec<usize>) -> (best: Option<usize>)
    requires
        cursors_ok(runs_view(runs@), pos@),
    ensures
        match best {
            Some(b) => is_winner(runs_view(runs@), pos@, b as int),
            None => forall|j: int| 0 <= j < runs@.len() ==> (#[trigger] pos@[j]) == runs@[j]@.len(),
        },
{
    let ghost rv = runs_view(runs@);
    let n = runs.len();
    let mut best: Option<usize> = None;
    let mut i: usize = 0;
    while i < n
        invariant
            i <= n,
            n == runs@.len(),
            rv == runs_view(runs@),
            cursors_ok(rv, pos@),
            match best {
                Some(b) => {
                    &&& b < i
                    &&& pos@[b as int] < rv[b as int].len()
                    &&& forall|j: int|
                        0 <= j < i && (#[trigger] pos@[j]) < rv[j].len() ==> !key_lt(
                            rv[j][pos@[j] as int].0,
                            rv[b as int][pos@[b as int] as int].0,
                        )
                    &&& forall|j: int|
                        0 <= j < b && (#[trigger] pos@[j]) < rv[j].len() ==> rv[j][pos@[j] as int].0
                            != rv[b as int][pos@[b as int] as int].0
                },
                None => forall|j: int| 0 <= j < i ==> (#[trigger] pos@[j]) == rv[j].len(),
            },
        decreases n - i,
    {
        assert(pos@[i as int] <= rv[i as int].len());
        if pos[i] < runs[i].len() {
            let ghost h = rv[i as int][pos@[i as int] as int].0;
            assert(h == runs@[i as int]@[pos@[i as int] as int].key@);
            match best {
                None => {
                    proof {
                        crate::key::lemma_key_lt_irreflexive(h);
                    }
                    best = Some(i);
                },
                Some(b) => {
                    let ghost hb = rv[b as int][pos@[b as int] as int].0;
                    assert(hb == runs@[b as int]@[pos@[b as int] as int].key@);
                    match compare_keys(
                        runs[i][pos[i]].key.as_str(),
                        runs[b][pos[b]].key.as_str(),
                    ) {
                        KeyOrder::Less => {
                            proof {
                                crate::key::lemma_key_lt_irreflexive(h);
                                assert forall|j: int|
                                    0 <= j < i + 1 && (#[trigger] pos@[j]) < rv[j].len() implies !key_lt(
                                    rv[j][pos@[j] as int].0,
                                    h,
                                ) by {
                                    let hj = rv[j][pos@[j] as int].0;
                                    if j < i && key_lt(hj, h) {
                                        lemma_key_lt_transitive(hj, h, hb);
                                    }
                                }
                                assert forall|j: int|
                                    0 <= j < i && (#[trigger] pos@[j]) < rv[j].len() implies rv[j][pos@[j] as int].0
                                    != h by {
                                    assert(!key_lt(rv[j][pos@[j] as int].0, hb));
                                }
                            }
                            best = Some(i);
                        },
                        _ => {
                            proof {
                                if key_lt(h, hb) {
                                    lemma_key_lt_asymmetric(h, hb);
                                }
                            }
                        },
                    }
                },
            }
        }
        i = i + 1;
    }
    best
}

/// Moves every cursor that stands at the key of run `b`'s cursor one entry on.
fn advance(runs: &Vec<Vec<Entry>>, pos: &mut Vec<usize>, b: usize)
    requires
        cursors_ok(runs_view(runs@), old(pos)@),
        b < runs@.len(),
        old(pos)@[b as int] < runs@[b as int]@.len(),
    ensures
        stepped(
            runs_view(runs@),
            old(pos)@,
            final(pos)@,
            runs_view(runs@)[b as int][old(pos)@[b as int] as int].0,
        ),
{
    let ghost rv = runs_view(runs@);
    let ghost op = pos@;
    let ghost m = rv[b as int][op[b as int] as int].0;
    let n = runs.len();
    let at = pos[b];
    let mut i: usize = 0;
    while i < n
        invariant
            i <= n,
            n == runs@.len(),
            rv == runs_view(runs@),
            cursors_ok(rv, op),
            pos@.len() == n,
            b < n,
            at == op[b as int],
            at < runs@[b as int]@.len(),
            m == runs@[b as int]@[at as int].key@,
            forall|j: int| i <= j < n ==> pos@[j] == op[j],
            forall|j: int|
                0 <= j < i ==> (#[trigger] pos@[j]) == (if head_is(rv, op, j, m) {
                    op[j] + 1
                } else {
                    op[j] as int
                }),
        decreases n - i,
    {
        assert(op[i as int] <= rv[i as int].len());
        let p = pos[i];
        if p < runs[i].len() {
            assert(rv[i as int][p as int].0 == runs@[i as int]@[p as int].key@);
            match compare_keys(runs[i][p].key.as_str(), runs[b][at].key.as_str()) {
                KeyOrder::Equal => {
                    pos.set(i, p + 1);
                },
                _ => {},
            }
        }
        i = i + 1;
    }
}

/// Merges sorted runs, given newest first, into one sorted run. Where a key
/// is in several runs the entry of the newest run wins. With
/// `drop_tombstones` a key whose winning entry is a deletion marker is left
/// out of the result.
pub fn merge_runs(runs: &Vec<Vec<Entry>>, drop_tombstones: bool) -> (out: Vec<Entry>)
    requires
        forall|j: int|
            0 <= j < runs@.len() ==> valid_entries(#[trigger] runs_view(runs@)[j]),
    ensures
        merge_of(runs_view(runs@), entries_view(out@), drop_tombstones),
{
    let ghost rv = runs_view(runs@);
    let n = runs.len();
    let mut pos: Vec<usize> = Vec::new();
    let mut i: usize = 0;
    while i < n
        invariant
            i <= n,
            pos@.len() == i,
            forall|j: int| 0 <= j < i ==> pos@[j] == 0,
        decreases n - i,
    {
        pos.push(0);
        i = i + 1;
    }
    let mut out: Vec<Entry> = Vec::new();
    proof {
        let x = done_layers(rv, pos@);
        assert(entries_view(out@) =~= Seq::<EntrySpec>::empty());
        assert forall|k: KeySpec| #[trigger]
            lookup(to_map(entries_view(out@)), k) == kept(probe(x, k), drop_tombstones) by {
            assert forall|j: int| 0 <= j < x.len() implies !(#[trigger] x[j]).contains_key(k) by {
                assert(rv[j].take(0) =~= Seq::<EntrySpec>::empty());
            }
            crate::catalog::lemma_probe_none(x, k);
        }
    }
    loop
        invariant
            n == runs@.len(),
            rv == runs_view(runs@),
            forall|j: int| 0 <= j < rv.len() ==> valid_entries(#[trigger] rv[j]),
            cursors_ok(rv, pos@),
            frontier(rv, pos@),
            valid_entries(entries_view(out@)),
            forall|k: KeySpec| #[trigger]
                lookup(to_map(entries_view(out@)), k) == kept(
                    probe(done_layers(rv, pos@), k),
                    drop_tombstones,
                ),
            out@.len() > 0 ==> rest_above(rv, pos@, entries_view(out@).last().0),
        ensures
            merge_of(rv, entries_view(out@), drop_tombstones),
        decreases remaining(rv, pos@, n as int),
    {
        let ghost op = pos@;
        let ghost before = entries_view(out@);
        match pick_winner(runs, &pos) {
            None => {
                proof {
                    assert(done_layers(rv, pos@) =~= run_layers(rv)) by {
                        assert forall|j: int| 0 <= j < rv.len() implies rv[j].take(
                            pos@[j] as int,
                        ) == #[trigger] rv[j] by {
                            assert(rv[j].take(rv[j].len() as int) =~= rv[j]);
                        }
                    }
                }
                break ;
            },
            Some(b) => {
                let at = pos[b];
                let skip = drop_tombstones && match &runs[b][at].value {
                    Value::Tombstone => true,
                    Value::Present(_) => false,
                };
                assert(rv[b as int][at as int] == runs@[b as int]@[at as int]@);
                if !skip {
                    out.push(runs[b][at].clone());
                }
                advance(runs, &mut pos, b);
                proof {
                    let after = entries_view(out@);
                    if !skip {
                        assert(after =~= before.push(rv[b as int][at as int]));
                    } else {
                        assert(after =~= before);
                    }
                    lemma_step_rest(rv, op, pos@, b as int);
                    lemma_step_frontier(rv, op, pos@, b as int);
                    lemma_step_lookup(rv, op, pos@, before, after, b as int, drop_tombstones);
                    assert forall|j: int| 0 <= j < rv.len() implies op[j] <= pos@[j] by {
                        assert(op[j] <= rv[j].len());
                    }
                    lemma_remaining_step(rv, op, pos@, n as int, b as int);
                }
            },
        }
    }
    out
}

/// The entries of a sequence of segments laid end to end.
pub open spec fn flatten(tables: Seq<SSTable>) -> Seq<EntrySpec>
    decreases tables.len(),
{
    if tables.len() == 0 {
        Seq::empty()
    } else {
        flatten(tables.drop_last()) + tables.last().entries()
    }
}

/// The runs of a sequence of segments, in order.
pub open spec fn table_runs(tables: Seq<SSTable>) -> Seq<Seq<EntrySpec>> {
    Seq::new(tables.len(), |i: int| tables[i].entries())
}

/// The segment is a piece of a layout: it has the identifier `id`, its
/// bytes are those of its entries with every `interval`-th sampled, it is
/// not empty, and it ends with the entry that brought its body to
/// `max_bytes` or beyond, if any did.
pub open spec fn segment_fits(t: SSTable, id: int, interval: int, max_bytes: usize) -> bool {
    &&& t.wf()
    &&& t.ident() == id
    &&& t.image() == segment_image(t.entries(), interval)
    &&& t.entries().len() > 0
    &&& (segment_body_end(t.image()) - encode_entry(t.entries().last()).len() < max_bytes
        || t.entries().len() == 1)
}

/// The segments hold `entries` in order, cut into segments of bounded size:
/// identifiers count up from `first_id`, no segment is empty, a segment ends
/// with the entry that brings its body to `max_bytes` or beyond, and only
/// the last segment may stay below that.
pub open spec fn laid_out(
    tables: Seq<SSTable>,
    entries: Seq<EntrySpec>,
    first_id: u64,
    interval: int,
    max_bytes: usize,
) -> bool {
    &&& flatten(tables) == entries
    &&& forall|i: int|
        0 <= i < tables.len() ==> segment_fits(
            #[trigger] tables[i],
            first_id + i,
            interval,
            max_bytes,
        )
    &&& forall|i: int|
        0 <= i < tables.len() - 1 ==> segment_body_end((#[trigger] tables[i]).image())
            >= max_bytes
}

/// Every segment of the layout has reached the size limit.
pub open spec fn all_full(tables: Seq<SSTable>, max_bytes: usize) -> bool {
    forall|i: int|
        0 <= i < tables.len() ==> segment_body_end((#[trigger] tables[i]).image()) >= max_bytes
}

/// A layout of full segments goes on with one more segment.
proof fn lemma_laid_out_push(
    tables: Seq<SSTable>,
    entries: Seq<EntrySpec>,
    t: SSTable,
    first_id: u64,
    interval: int,
    max_bytes: usize,
)
    requires
        laid_out(tables, entries, first_id, interval, max_bytes),
        all_full(tables, max_bytes),
        segment_fits(t, first_id + tables.len(), interval, max_bytes),
    ensures
        laid_out(tables.push(t), entries + t.entries(), first_id, interval, max_bytes),
        segment_body_end(t.image()) >= max_bytes ==> all_full(tables.push(t), max_bytes),
{
    let grown = tables.push(t);
    assert(grown.drop_last() =~= tables);
    assert forall|i: int| 0 <= i < grown.len() implies segment_fits(
        #[trigger] grown[i],
        first_id + i,
        interval,
        max_bytes,
    ) by {
        if i < tables.len() {
            assert(grown[i] == tables[i]);
        }
    }
    assert forall|i: int| 0 <= i < grown.len() - 1 implies segment_body_end(
        (#[trigger] grown[i]).image(),
    ) >= max_bytes by {
        assert(grown[i] == tables[i]);
    }
    if segment_body_end(t.image()) >= max_bytes {
        assert forall|i: int| 0 <= i < grown.len() implies segment_body_end(
            (#[trigger] grown[i]).image(),
        ) >= max_bytes by {
            if i < tables.len() {
                assert(grown[i] == tables[i]);
            }
        }
    }
}

/// Closes the segment that a writer holds and adds it to a layout.
fn close_segment(
    tables: &mut Vec<SSTable>,
    w: SegmentWriter,
    Ghost(entries): Ghost<Seq<EntrySpec>>,
    Ghost(first_id): Ghost<u64>,
    max_bytes: usize,
)
    requires
        laid_out(old(tables)@, entries, first_id, w.every(), max_bytes),
        all_full(old(tables)@, max_bytes),
        w.wf(),
        w.ident() == first_id + old(tables)@.len(),
        w.written().len() > 0,
        w.written().len() == 1 || w.body().len() - encode_entry(w.written().last()).len()
            < max_bytes,
    ensures
        final(tables)@.len() == old(tables)@.len() + 1,
        laid_out(final(tables)@, entries + w.written(), first_id, w.every(), max_bytes),
        w.body().len() >= max_bytes ==> all_full(final(tables)@, max_bytes),
{
    let ghost before = tables@;
    let t = w.finish();
    proof {
        lemma_laid_out_push(before, entries, t, first_id, w.every(), max_bytes);
    }
    tables.push(t);
}

/// The part of a run that a writer holds goes on with the next entry of
/// the run.
proof fn lemma_next_part(all: Seq<EntrySpec>, start: int, i: int)
    requires
        valid_entries(all),
        0 <= start <= i < all.len(),
    ensures
        all.subrange(start, i).push(all[i]) == all.subrange(start, i + 1),
        valid_entries(all.subrange(start, i + 1)),
        all.subrange(start, i + 1).last() == all[i],
        all.subrange(start, i + 1).drop_last() == all.subrange(start, i),
        all.take(start) + all.subrange(start, i + 1) == all.take(i + 1),
        all.subrange(i + 1, i + 1) == Seq::<EntrySpec>::empty(),
{
    assert(all.subrange(start, i).push(all[i]) =~= all.subrange(start, i + 1));
    lemma_valid_subrange(all, start, i + 1);
    assert(all.subrange(start, i + 1).drop_last() =~= all.subrange(start, i));
    assert(all.take(start) + all.subrange(start, i + 1) =~= all.take(i + 1));
    assert(all.subrange(i + 1, i + 1) =~= Seq::<EntrySpec>::empty());
}

/// Writes a sorted run into segments. A segment is closed as soon as its
/// body has reached `max_bytes`; the next entry starts a new segment with
/// the next identifier.
pub fn write_segments(
    entries: &Vec<Entry>,
    first_id: u64,
    interval: usize,
    max_bytes: usize,
) -> (tables: Vec<SSTable>)
    requires
        interval > 0,
        valid_entries(entries_view(entries@)),
        first_id + entries@.len() <= u64::MAX,
    ensures
        laid_out(tables@, entries_view(entries@), first_id, interval as int, max_bytes),
        tables@.len() <= entries@.len(),
{
    let ghost all = entries_view(entries@);
    let mut tables: Vec<SSTable> = Vec::new();
    let mut w = SegmentWriter::new(first_id, interval);
    let mut i: usize = 0;
    let ghost mut start: int = 0;
    proof {
        assert(all.subrange(0, 0) =~= Seq::<EntrySpec>::empty());
        assert(all.take(0) =~= Seq::<EntrySpec>::empty());
    }
    while i < entries.len()
        invariant
            interval > 0,
            i <= entries@.len(),
            all == entries_view(entries@),
            valid_entries(all),
            first_id + entries@.len() <= u64::MAX,
            0 <= start <= i,
            tables@.len() <= start,
            start < i ==> tables@.len() < i,
            w.wf(),
            w.every() == interval,
            w.ident() == first_id + tables@.len(),
            w.written() == all.subrange(start, i as int),
            start < i ==> w.body().len() < max_bytes,
            laid_out(tables@, all.take(start), first_id, interval as int, max_bytes),
            all_full(tables@, max_bytes),
        decreases entries@.len() - i,
    {
        proof {
            lemma_next_part(all, start, i as int);
        }
        w.push(entries[i].key.as_str(), &entries[i].value);
        i = i + 1;
        if w.body_len() >= max_bytes {
            close_segment(&mut tables, w, Ghost(all.take(start)), Ghost(first_id), max_bytes);
            w = SegmentWriter::new(first_id + tables.len() as u64, interval);
            proof {
                start = i as int;
            }
        }
    }
    proof {
        lemma_writer_wf(w);
    }
    if w.body_len() > 0 {
        proof {
            lemma_next_part(all, start, i - 1);
            assert(all.take(i as int) =~= all);
        }
        close_segment(&mut tables, w, Ghost(all.take(start)), Ghost(first_id), max_bytes);
    } else {
        proof {
            assert(all.subrange(start, i as int).len() == 0);
            assert(all.take(start) =~= all);
        }
    }
    tables
}

/// Merges segments, given newest first, into new segments whose
/// identifiers count up from `first_id`. With `drop_tombstones`, which is
/// in order only when no older segment lies beyond the given ones, keys
/// whose newest entry is a deletion marker are left out. The given segments
/// are not touched. When the identifiers from `first_id` on would not
/// suffice for one segment per merged entry, nothing is written.
pub fn compact(
    tables: &[SSTable],
    drop_tombstones: bool,
    first_id: u64,
    interval: usize,
    max_bytes: usize,
) -> (r: Result<Vec<SSTable>, StoreError>)
    requires
        interval > 0,
        forall|i: int| 0 <= i < tables@.len() ==> (#[trigger] tables@[i]).wf(),
    ensures
        match r {
            Ok(outs) => {
                &&& merge_of(table_runs(tables@), flatten(outs@), drop_tombstones)
                &&& laid_out(outs@, flatten(outs@), first_id, interval as int, max_bytes)
                &&& first_id + flatten(outs@).len() <= u64::MAX
            },
            Err(e) => {
                &&& e == StoreError::Exhausted
                &&& forall|m: Seq<EntrySpec>| #[trigger]
                    merge_of(table_runs(tables@), m, drop_tombstones) ==> first_id + m.len()
                        > u64::MAX
            },
        },
{
    let mut runs: Vec<Vec<Entry>> = Vec::new();
    let mut i: usize = 0;
    while i < tables.len()
        invariant
            i <= tables@.len(),
            forall|j: int| 0 <= j < tables@.len() ==> (#[trigger] tables@[j]).wf(),
            runs@.len() == i,
            runs_view(runs@) == table_runs(tables@).take(i as int),
        decreases tables@.len() - i,
    {
        assert(tables@[i as int].wf());
        let run = tables[i].scan();
        let ghost before = runs@;
        runs.push(run);
        proof {
            assert(runs_view(runs@) =~= table_runs(tables@).take(i + 1)) by {
                assert forall|j: int| 0 <= j < i + 1 implies runs_view(runs@)[j] == table_runs(
                    tables@,
                ).take(i + 1)[j] by {
                    if j < i {
                        assert(runs@[j] == before[j]);
                        assert(runs_view(before)[j] == table_runs(tables@).take(i as int)[j]);
                    }
                }
            }
        }
        i = i + 1;
    }
    proof {
        assert(table_runs(tables@).take(i as int) =~= table_runs(tables@));
        assert forall|j: int| 0 <= j < runs@.len() implies valid_entries(
            #[trigger] runs_view(runs@)[j],
        ) by {
            lemma_segment_wf(tables@[j]);
        }
    }
    let merged = merge_runs(&runs, drop_tombstones);
    if merged.len() as u64 > u64::MAX - first_id {
        proof {
            let mine = entries_view(merged@);
            assert forall|m: Seq<EntrySpec>| #[trigger]
                merge_of(table_runs(tables@), m, drop_tombstones) implies first_id + m.len()
                > u64::MAX by {
                lemma_merge_unique(table_runs(tables@), mine, m, drop_tombstones);
            }
        }
        return Err(StoreError::Exhausted);
    }
    let outs = write_segments(&merged, first_id, interval, max_bytes);
    Ok(outs)
}

/// The runs have one merge only.
pub proof fn lemma_merge_unique(
    rv: Seq<Seq<EntrySpec>>,
    a: Seq<EntrySpec>,
    b: Seq<EntrySpec>,
    drop_tombstones: bool,
)
    requires
        merge_of(rv, a, drop_tombstones),
        merge_of(rv, b, drop_tombstones),
    ensures
        a == b,
{
    assert forall|k: KeySpec| #[trigger]
        to_map(a).dom().contains(k) == to_map(b).dom().contains(k) by {
        assert(lookup(to_map(a), k) == kept(probe(run_layers(rv), k), drop_tombstones));
        assert(lookup(to_map(b), k) == kept(probe(run_layers(rv), k), drop_tombstones));
    }
    assert forall|k: KeySpec| to_map(a).dom().contains(k) implies #[trigger] to_map(a)[k] == to_map(
        b,
    )[k] by {
        assert(lookup(to_map(a), k) == kept(probe(run_layers(rv), k), drop_tombstones));
        assert(lookup(to_map(b), k) == kept(probe(run_layers(rv), k), drop_tombstones));
    }
    assert(to_map(a) =~= to_map(b));
    lemma_sorted_run_unique(a, b);
}

/// Segments that lay out a run are at most as many as the run has entries.
pub proof fn lemma_laid_out_count(
    tables: Seq<SSTable>,
    entries: Seq<EntrySpec>,
    first_id: u64,
    interval: int,
    max_bytes: usize,
)
    requires
        laid_out(tables, entries, first_id, interval, max_bytes),
    ensures
        tables.len() <= entries.len(),
    decreases tables.len(),
{
    if tables.len() > 0 {
        let front = tables.drop_last();
        assert(segment_fits(
            tables[tables.len() - 1],
            first_id + tables.len() - 1,
            interval,
            max_bytes,
        ));
        assert(laid_out(front, flatten(front), first_id, interval, max_bytes)) by {
            assert forall|i: int| 0 <= i < front.len() implies segment_fits(
                #[trigger] front[i],
                first_id + i,
                interval,
                max_bytes,
            ) by {
                assert(front[i] == tables[i]);
            }
            assert forall|i: int| 0 <= i < front.len() - 1 implies segment_body_end(
                (#[trigger] front[i]).image(),
            ) >= max_bytes by {
                assert(front[i] == tables[i]);
            }
        }
        lemma_laid_out_count(front, flatten(front), first_id, interval, max_bytes);
    }
}

/// Probing segments from newest to oldest is looking up in the run that
/// lays them end to end from oldest to newest.
pub proof fn lemma_stacked(tables: Seq<SSTable>)
    ensures
        forall|k: KeySpec| #[trigger]
            probe(table_layers(tables), k) == lookup(to_map(flatten(tables.reverse())), k),
    decreases tables.len(),
{
    let layers = table_layers(tables);
    let rev = tables.reverse();
    if tables.len() == 0 {
        assert(flatten(rev) =~= Seq::<EntrySpec>::empty());
    } else {
        let rest = tables.drop_first();
        lemma_stacked(rest);
        assert(rev.drop_last() =~= rest.reverse());
        assert(rev.last() == tables[0]);
        assert(layers.drop_first() =~= table_layers(rest));
        lemma_to_map_concat(flatten(rest.reverse()), tables[0].entries());
        assert forall|k: KeySpec| #[trigger]
            probe(layers, k) == lookup(to_map(flatten(rev)), k) by {
            assert(probe(table_layers(rest), k) == lookup(to_map(flatten(rest.reverse())), k));
        }
    }
}

} // verus!
