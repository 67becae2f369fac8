//! What holds of the engine whatever its history: statements over the model
//! of its state, a map for the in-memory index in front of the maps of the
//! segments, newest first.
use vstd::prelude::*;
use crate::catalog::probe;
use crate::compactor::kept;
use crate::engine::layered;
use crate::entry::{KeySpec, ValueSpec, lookup, visible};
use crate::wal::{RecordSpec, apply_records};

verus! {

/// A value that was just written is the value that is read, whatever the
/// index held before and whatever segments lie behind it.
pub proof fn lemma_read_after_put(
    index: Map<KeySpec, ValueSpec>,
    layers: Seq<Map<KeySpec, ValueSpec>>,
    k: KeySpec,
    v: Seq<char>,
)
    ensures
        visible(layered(index.insert(k, Some(v)), layers, k)) == Some(v),
{
}

/// Writing one key changes what is known of no other key.
pub proof fn lemma_put_leaves_others(
    index: Map<KeySpec, ValueSpec>,
    layers: Seq<Map<KeySpec, ValueSpec>>,
    k: KeySpec,
    v: ValueSpec,
    other: KeySpec,
)
    requires
        other != k,
    ensures
        layered(index.insert(k, v), layers, other) == layered(index, layers, other),
{
}

/// Writing the index out as the newest segment, and starting with an empty
/// index, changes what is known of no key.
pub proof fn lemma_flush_keeps_state(
    index: Map<KeySpec, ValueSpec>,
    layers: Seq<Map<KeySpec, ValueSpec>>,
    k: KeySpec,
)
    ensures
        layered(Map::empty(), seq![index] + layers, k) == layered(index, layers, k),
{
    assert((seq![index] + layers).drop_first() =~= layers);
}

/// Merging all segments, deletion markers dropped, changes what is read of
/// no key: no live key is lost and no deleted key comes back.
pub proof fn lemma_compaction_keeps_reads(
    index: Map<KeySpec, ValueSpec>,
    before: Seq<Map<KeySpec, ValueSpec>>,
    after: Seq<Map<KeySpec, ValueSpec>>,
    k: KeySpec,
)
    requires
        probe(after, k) == kept(probe(before, k), true),
    ensures
        visible(layered(index, after, k)) == visible(layered(index, before, k)),
{
}

/// A deleted key reads as not found: right after the deletion, after the
/// index with the deletion marker has been written out as a segment, and
/// after a compaction of all segments has dropped the marker.
pub proof fn lemma_deleted_stays_deleted(
    index: Map<KeySpec, ValueSpec>,
    layers: Seq<Map<KeySpec, ValueSpec>>,
    compacted: Seq<Map<KeySpec, ValueSpec>>,
    k: KeySpec,
)
    requires
        probe(compacted, k) == kept(probe(seq![index.insert(k, None)] + layers, k), true),
    ensures
        visible(layered(index.insert(k, None), layers, k)) == None::<Seq<char>>,
        visible(layered(Map::empty(), seq![index.insert(k, None)] + layers, k)) == None::<
            Seq<char>,
        >,
        visible(layered(Map::empty(), compacted, k)) == None::<Seq<char>>,
{
    let marked = index.insert(k, None);
    lemma_flush_keeps_state(marked, layers, k);
}

/// Compacting what a compaction has left gives the same again: every key
/// is known exactly as before, with the same value.
pub proof fn lemma_compaction_idempotent(
    start: Seq<Map<KeySpec, ValueSpec>>,
    once: Seq<Map<KeySpec, ValueSpec>>,
    twice: Seq<Map<KeySpec, ValueSpec>>,
    k: KeySpec,
)
    requires
        probe(once, k) == kept(probe(start, k), true),
        probe(twice, k) == kept(probe(once, k), true),
    ensures
        probe(twice, k) == probe(once, k),
{
}

/// Replaying a log gives every key the value of its last record: a record
/// that no later record of the same key follows decides what the rebuilt
/// index holds.
pub proof fn lemma_replay_last_wins(records: Seq<RecordSpec>, after: u64, i: int)
    requires
        0 <= i < records.len(),
        records[i].0 > after,
        forall|j: int| i < j < records.len() ==> (#[trigger] records[j]).1.0 != records[i].1.0,
    ensures
        lookup(apply_records(Map::empty(), records, after), records[i].1.0) == Some(
            records[i].1.1,
        ),
    decreases records.len(),
{
    if i < records.len() - 1 {
        let front = records.drop_last();
        assert(records[records.len() - 1].1.0 != records[i].1.0);
        assert forall|j: int| i < j < front.len() implies (#[trigger] front[j]).1.0
            != front[i].1.0 by {
            assert(front[j] == records[j]);
        }
        assert(front[i] == records[i]);
        lemma_replay_last_wins(front, after, i);
    }
}

} // verus!
