//! The storage engine: it logs every change before applying it to the
//! in-memory index, writes the index out as a segment when it has grown
//! beyond a threshold, answers reads from the index and then from the
//! segments, newest first, and merges the segments on request.
use vstd::prelude::*;
use crate::catalog::{
    Catalog, image_layers, images_ok, images_view, lemma_probe_concat, lemma_retire_front, probe,
    table_idents, table_layers, tables_match,
};
use crate::compactor::{flatten, kept, laid_out, merge_of, run_layers, table_runs};
use crate::entry::{
    EntrySpec, KeySpec, Lookup, LookupSpec, Value, ValueSpec, lookup, to_map, visible,
};
use crate::error::StoreError;
use crate::ss_table::SSTable;
use crate::tree::Subtree;
use crate::wal::{
    RecordSpec, Wal, WalRecord, apply_records, loadable, next_after, parse_records, records_view,
};

verus! {

/// The settings of an engine.
#[derive(Clone, Copy, Debug, PartialEq, Eq)]
pub struct Config {
    /// The in-memory index is written out once it holds more payload bytes
    /// than this.
    pub flush_threshold: usize,
    /// Every so many entries of a segment one is sampled into its sparse
    /// index. At least one.
    pub index_interval: usize,
    /// A segment that a compaction writes is closed once its body has
    /// reached this many bytes.
    pub max_segment_bytes: usize,
}

/// A storage engine over one log and one catalog of segments.
#[derive(Debug)]
pub struct Engine {
    config: Config,
    memtable: Subtree,
    wal: Wal,
    catalog: Catalog,
    next_segment_id: u64,
    flushed_sequence: u64,
}

/// What a reader finds when a map is consulted first and layers of older
/// maps after it.
pub open spec fn layered(
    front: Map<KeySpec, ValueSpec>,
    layers: Seq<Map<KeySpec, ValueSpec>>,
    k: KeySpec,
) -> LookupSpec {
    match lookup(front, k) {
        Some(v) => Some(v),
        None => probe(layers, k),
    }
}

impl Engine {
    /// The settings.
    pub closed spec fn settings(&self) -> Config {
        self.config
    }

    /// The entries of the in-memory index, in key order.
    pub closed spec fn memtable_run(&self) -> Seq<EntrySpec> {
        self.memtable.entries()
    }

    /// The content of the in-memory index.
    pub open spec fn memtable_map(&self) -> Map<KeySpec, ValueSpec> {
        to_map(self.memtable_run())
    }

    /// Number of entries in the in-memory index.
    pub open spec fn memtable_len(&self) -> nat {
        self.memtable_run().len()
    }

    /// Payload bytes in the index, cut off at the largest machine word.
    pub open spec fn memtable_size(&self) -> usize {
        crate::tree::saturate(crate::entry::footprint(self.memtable_run()))
    }

    /// The index that a change meets: the index as it is, or an empty one
    /// when the index is full and is written out first.
    pub open spec fn front_map(&self) -> Map<KeySpec, ValueSpec> {
        if self.memtable_len() >= usize::MAX {
            Map::empty()
        } else {
            self.memtable_map()
        }
    }

    /// The segments that a change meets: the segments as they are, or with
    /// the index in front when the index is full and is written out first.
    pub open spec fn behind_layers(&self) -> Seq<Map<KeySpec, ValueSpec>> {
        if self.memtable_len() >= usize::MAX {
            seq![self.memtable_map()] + self.layers()
        } else {
            self.layers()
        }
    }

    /// The log that a change meets: the log as it is, or an empty one when
    /// the index is full and is written out first.
    pub open spec fn front_log(&self) -> Seq<u8> {
        if self.memtable_len() >= usize::MAX {
            Seq::empty()
        } else {
            self.log_image()
        }
    }

    /// What a change leaves, apart from what is known of its key. Either the
    /// log with the record of the change at its end and the index with the
    /// change applied, which has not outgrown the threshold unless no
    /// identifier is left for a segment. Or a fresh log, an empty index and
    /// a new segment in front that holds the index with the change applied,
    /// which had outgrown the threshold.
    pub open spec fn changed(&self, before: Engine, k: KeySpec, v: ValueSpec) -> bool {
        &&& self.memtable_len() > 0 ==> {
            &&& self.memtable_map() == before.front_map().insert(k, v)
            &&& self.layers() == before.behind_layers()
            &&& self.log_image() == before.front_log() + crate::wal::encode_record(
                (before.upcoming(), (k, v)),
            )
            &&& (self.memtable_size() <= self.settings().flush_threshold || self.next_id()
                == u64::MAX)
        }
        &&& self.memtable_len() == 0 ==> {
            &&& self.memtable_map() == Map::<KeySpec, ValueSpec>::empty()
            &&& self.layers() == seq![before.front_map().insert(k, v)] + before.behind_layers()
            &&& self.log_image() == Seq::<u8>::empty()
            &&& self.flushed() == before.upcoming()
            &&& self.tables().len() > 0
            &&& crate::tree::saturate(crate::entry::footprint(self.tables()[0].entries()))
                > self.settings().flush_threshold
        }
    }

    /// The live segments, newest first.
    pub closed spec fn tables(&self) -> Seq<SSTable> {
        self.catalog.tables()
    }

    /// The maps of the live segments, newest first.
    pub open spec fn layers(&self) -> Seq<Map<KeySpec, ValueSpec>> {
        table_layers(self.tables())
    }

    /// The bytes of the log.
    pub closed spec fn log_image(&self) -> Seq<u8> {
        self.wal.image()
    }

    /// The records of the log, oldest first.
    pub open spec fn log_records(&self) -> Seq<RecordSpec> {
        parse_records(self.log_image(), 0, self.log_image().len() as int).unwrap()
    }

    /// The sequence number that the next change will get.
    pub closed spec fn upcoming(&self) -> u64 {
        self.wal.upcoming()
    }

    /// The sequence number of the last change that a flush has written out.
    pub closed spec fn flushed(&self) -> u64 {
        self.flushed_sequence
    }

    /// The identifier that the next segment will get.
    pub closed spec fn next_id(&self) -> u64 {
        self.next_segment_id
    }

    /// What the engine knows about a key: the index is consulted first, then
    /// the segments from newest to oldest, and the first source that knows
    /// the key decides.
    pub open spec fn state(&self, k: KeySpec) -> LookupSpec {
        layered(self.memtable_map(), self.layers(), k)
    }

    /// What a reader gets for a key: its value, or nothing when the key was
    /// deleted or never written.
    pub open spec fn read(&self, k: KeySpec) -> Option<Seq<char>> {
        visible(self.state(k))
    }

    /// No change can be accepted: the sequence numbers are used up, or the
    /// index is full and cannot be written out for want of an identifier.
    pub open spec fn write_exhausted(&self) -> bool {
        ||| self.upcoming() == u64::MAX
        ||| (self.memtable_len() >= usize::MAX && self.next_id() == u64::MAX)
    }

    /// The parts are well-formed, every live segment is older than the next
    /// identifier, and the index is what replaying the log's records beyond
    /// the last flushed one gives.
    pub closed spec fn wf(&self) -> bool {
        &&& self.config.index_interval > 0
        &&& self.memtable.wf()
        &&& self.wal.wf()
        &&& self.catalog.wf()
        &&& forall|i: int|
            0 <= i < self.catalog.tables().len() ==> (#[trigger] self.catalog.tables()[i]).ident()
                < self.next_segment_id
        &&& self.flushed_sequence < self.wal.upcoming()
        &&& self.memtable@ == apply_records(
            Map::empty(),
            self.wal.records(),
            self.flushed_sequence,
        )
    }

    /// A fresh engine: nothing stored, nothing logged, no segment.
    pub fn new(config: Config) -> (e: Engine)
        requires
            config.index_interval > 0,
        ensures
            e.wf(),
            e.settings() == config,
            e.memtable_map() == Map::<KeySpec, ValueSpec>::empty(),
            e.layers() == Seq::<Map<KeySpec, ValueSpec>>::empty(),
            e.log_image() == Seq::<u8>::empty(),
            e.upcoming() == 1,
            e.flushed() == 0,
            e.next_id() == 1,
            forall|k: KeySpec| #[trigger] e.state(k) == None::<ValueSpec>,
    {
        let e = Engine {
            config,
            memtable: Subtree::new(),
            wal: Wal::new(1),
            catalog: Catalog::new(),
            next_segment_id: 1,
            flushed_sequence: 0,
        };
        proof {
            assert(e.layers() =~= Seq::<Map<KeySpec, ValueSpec>>::empty());
        }
        e
    }

    /// What the engine knows about `key`, deletion markers told apart from
    /// keys that were never written.
    pub fn lookup(&self, key: &str) -> (r: Lookup)
        requires
            self.wf(),
        ensures
            r@ == self.state(key@),
    {
        match self.memtable.get(key) {
            Lookup::Absent => self.catalog.get(key),
            found => found,
        }
    }

    /// The value of `key`, or nothing when the key was deleted or never
    /// written.
    pub fn get(&self, key: &str) -> (r: Option<String>)
        requires
            self.wf(),
        ensures
            self.read(key@) == (match r {
                Some(s) => Some(s@),
                None => None,
            }),
    {
        self.lookup(key).into_option()
    }

    /// Whether a change can be accepted.
    pub fn accepts_writes(&self) -> (b: bool)
        requires
            self.wf(),
        ensures
            b == !self.write_exhausted(),
    {
        self.wal.next_sequence() < u64::MAX && (self.memtable.len() < usize::MAX
            || self.next_segment_id < u64::MAX)
    }

    /// Whether the index has outgrown the threshold.
    pub fn flush_due(&self) -> (b: bool)
        requires
            self.wf(),
        ensures
            b == (self.memtable_size() > self.settings().flush_threshold),
    {
        self.memtable.size_estimate() > self.config.flush_threshold
    }

    /// Writes the index out as the newest segment, empties the index and
    /// starts a fresh log. Reads see no difference. An empty index is left
    /// alone. When the segment identifiers are used up nothing changes.
    pub fn flush(&mut self) -> (r: Result<(), StoreError>)
        requires
            old(self).wf(),
        ensures
            final(self).wf(),
            final(self).settings() == old(self).settings(),
            forall|k: KeySpec| #[trigger] final(self).state(k) == old(self).state(k),
            match r {
                Ok(()) => {
                    &&& final(self).memtable_map() == Map::<KeySpec, ValueSpec>::empty()
                    &&& final(self).memtable_len() == 0
                    &&& final(self).upcoming() == old(self).upcoming()
                    &&& old(self).memtable_len() > 0 ==> {
                        &&& old(self).next_id() < u64::MAX
                        &&& final(self).layers() == seq![old(self).memtable_map()] + old(
                            self,
                        ).layers()
                        &&& final(self).log_image() == Seq::<u8>::empty()
                        &&& final(self).flushed() == old(self).upcoming() - 1
                        &&& final(self).next_id() == old(self).next_id() + 1
                        &&& final(self).tables().len() == old(self).tables().len() + 1
                        &&& final(self).tables().drop_first() == old(self).tables()
                        &&& final(self).tables()[0].ident() == old(self).next_id()
                        &&& final(self).tables()[0].entries() == old(self).memtable_run()
                        &&& final(self).tables()[0].image() == crate::ss_table::segment_image(
                            old(self).memtable_run(),
                            old(self).settings().index_interval as int,
                        )
                    }
                    &&& old(self).memtable_len() == 0 ==> *final(self) == *old(self)
                },
                Err(e) => {
                    &&& e == StoreError::Exhausted
                    &&& old(self).memtable_len() > 0
                    &&& old(self).next_id() == u64::MAX
                    &&& *final(self) == *old(self)
                },
            },
    {
        if self.memtable.is_empty() {
            proof {
                assert(self.memtable.entries() =~= Seq::<EntrySpec>::empty());
            }
            return Ok(());
        }
        if self.next_segment_id == u64::MAX {
            return Err(StoreError::Exhausted);
        }
        let segment = SSTable::from_tree(
            self.next_segment_id,
            &self.memtable,
            self.config.index_interval,
        );
        let ghost before = self.catalog.tables();
        proof {
            if before.len() > 0 {
                assert(before[0].ident() < self.next_segment_id);
            }
        }
        self.catalog.register(segment);
        self.memtable.clear();
        self.flushed_sequence = self.wal.next_sequence() - 1;
        self.wal.rotate();
        self.next_segment_id = self.next_segment_id + 1;
        proof {
            let after = self.catalog.tables();
            assert forall|i: int| 0 <= i < after.len() implies (#[trigger] after[i]).ident()
                < self.next_segment_id by {
                if i > 0 {
                    assert(after[i] == before[i - 1]);
                }
            }
            assert(self.layers() =~= seq![old(self).memtable_map()] + old(self).layers());
            assert(self.layers().drop_first() =~= old(self).layers());
            assert(after.drop_first() =~= before);
            assert(self.memtable@ =~= Map::<KeySpec, ValueSpec>::empty());
        }
        Ok(())
    }
}

/// Rebuilds an index from log records: those beyond sequence number `after`
/// are applied in log order.
pub fn rebuild(records: &Vec<WalRecord>, after: u64) -> (tree: Subtree)
    requires
        forall|i: int| 0 <= i < records@.len() ==> (#[trigger] records@[i]).key@.len() > 0,
    ensures
        tree.wf(),
        tree@ == apply_records(Map::empty(), records_view(records@), after),
{
    let ghost all = records_view(records@);
    let mut tree = Subtree::new();
    let mut i: usize = 0;
    proof {
        assert(all.take(0) =~= Seq::<RecordSpec>::empty());
    }
    while i < records.len()
        invariant
            i <= records@.len(),
            all == records_view(records@),
            forall|j: int| 0 <= j < records@.len() ==> (#[trigger] records@[j]).key@.len() > 0,
            tree.wf(),
            tree.entries().len() <= i,
            tree@ == apply_records(Map::empty(), all.take(i as int), after),
        decreases records@.len() - i,
    {
        proof {
            assert(all.take(i + 1).drop_last() =~= all.take(i as int));
            assert(all.take(i + 1).last() == records@[i as int]@);
            assert(records@[i as int].key@.len() > 0);
        }
        if records[i].sequence_number > after {
            tree.insert(records[i].key.clone(), records[i].value.clone());
        }
        i = i + 1;
    }
    proof {
        assert(all.take(i as int) =~= all);
    }
    tree
}

/// What storage must hold for an engine to open on it: a log that reads
/// back, and segment files, newest first, that are well-formed.
pub open spec fn openable(log: Seq<u8>, images: Seq<(u64, Seq<u8>)>) -> bool {
    &&& loadable(log)
    &&& images_ok(images)
}

/// The storage is sound but leaves no room to go on: the last flushed
/// sequence number or the newest segment identifier is the largest there is.
pub open spec fn counters_spent(flushed: u64, images: Seq<(u64, Seq<u8>)>) -> bool {
    ||| flushed == u64::MAX
    ||| (images.len() > 0 && images[0].0 == u64::MAX)
}

/// What an engine opened on this storage knows about a key: the log's
/// records beyond the last flushed one are consulted first, then the
/// segments from newest to oldest.
pub open spec fn recovered(
    log: Seq<u8>,
    flushed: u64,
    images: Seq<(u64, Seq<u8>)>,
    k: KeySpec,
) -> LookupSpec {
    layered(
        apply_records(Map::empty(), parse_records(log, 0, log.len() as int).unwrap(), flushed),
        image_layers(images),
        k,
    )
}

/// No deletion marker is left once it is dropped: dropping twice is
/// dropping once.
pub open spec fn settled(layers: Seq<Map<KeySpec, ValueSpec>>) -> bool {
    forall|k: KeySpec| #[trigger] probe(layers, k) != Some(None::<Seq<char>>)
}

impl Engine {
    /// Logs a change and applies it to the index; writes the index out
    /// before if it is full, and after if it has outgrown the threshold and
    /// an identifier is left for the segment.
    fn apply(&mut self, key: String, value: Value) -> (r: Result<(), StoreError>)
        requires
            old(self).wf(),
            key@.len() > 0,
        ensures
            final(self).wf(),
            final(self).settings() == old(self).settings(),
            match r {
                Ok(()) => {
                    &&& !old(self).write_exhausted()
                    &&& final(self).state(key@) == Some(value@)
                    &&& forall|k: KeySpec|
                        k != key@ ==> #[trigger] final(self).state(k) == old(self).state(k)
                    &&& final(self).upcoming() == old(self).upcoming() + 1
                    &&& final(self).changed(*old(self), key@, value@)
                },
                Err(e) => {
                    &&& e == StoreError::Exhausted
                    &&& old(self).write_exhausted()
                    &&& *final(self) == *old(self)
                },
            },
    {
        if self.wal.next_sequence() == u64::MAX {
            return Err(StoreError::Exhausted);
        }
        if self.memtable.len() == usize::MAX {
            if self.next_segment_id == u64::MAX {
                return Err(StoreError::Exhausted);
            }
            let flushed = self.flush();
            assert(flushed is Ok);
        }
        let ghost mid = *self;
        let ghost k0 = key@;
        let ghost v0 = value@;
        assert(forall|k: KeySpec| #[trigger] mid.state(k) == old(self).state(k));
        match self.wal.append(key.as_str(), &value) {
            Ok(_) => {},
            Err(_) => {
                assert(false);
                return Err(StoreError::Exhausted);
            },
        }
        self.memtable.insert(key, value);
        proof {
            let log = self.wal.records();
            assert(log.drop_last() =~= mid.wal.records());
            assert(self.memtable@ == apply_records(Map::empty(), log, self.flushed_sequence));
            assert(self.state(k0) == Some(v0));
            assert forall|k: KeySpec| k != k0 implies #[trigger] self.state(k) == old(self).state(
                k,
            ) by {
                assert(mid.state(k) == old(self).state(k));
            }
        }
        if self.next_segment_id < u64::MAX && self.flush_due() {
            let ghost grown = *self;
            let flushed = self.flush();
            proof {
                assert(self.state(k0) == grown.state(k0));
                assert forall|k: KeySpec| k != k0 implies #[trigger] self.state(k) == old(
                    self,
                ).state(k) by {
                    assert(self.state(k) == grown.state(k));
                    assert(grown.state(k) == old(self).state(k));
                }
            }
        }
        Ok(())
    }

    /// Stores `value` under `key`: the change is logged, then applied to
    /// the index, and the index is written out when it has outgrown the
    /// threshold. When no change can be accepted nothing changes.
    pub fn put(&mut self, key: String, value: String) -> (r: Result<(), StoreError>)
        requires
            old(self).wf(),
            key@.len() > 0,
        ensures
            final(self).wf(),
            final(self).settings() == old(self).settings(),
            match r {
                Ok(()) => {
                    &&& !old(self).write_exhausted()
                    &&& final(self).state(key@) == Some(Some(value@))
                    &&& final(self).read(key@) == Some(value@)
                    &&& forall|k: KeySpec|
                        k != key@ ==> #[trigger] final(self).state(k) == old(self).state(k)
                    &&& final(self).upcoming() == old(self).upcoming() + 1
                    &&& final(self).changed(*old(self), key@, Some(value@))
                },
                Err(e) => {
                    &&& e == StoreError::Exhausted
                    &&& old(self).write_exhausted()
                    &&& *final(self) == *old(self)
                },
            },
    {
        self.apply(key, Value::Present(value))
    }

    /// Deletes `key`, whether or not it is stored: a deletion marker is
    /// logged and put in the index, where it shadows every older value.
    /// When no change can be accepted nothing changes.
    pub fn delete(&mut self, key: String) -> (r: Result<(), StoreError>)
        requires
            old(self).wf(),
            key@.len() > 0,
        ensures
            final(self).wf(),
            final(self).settings() == old(self).settings(),
            match r {
                Ok(()) => {
                    &&& !old(self).write_exhausted()
                    &&& final(self).state(key@) == Some(None::<Seq<char>>)
                    &&& final(self).read(key@) == None::<Seq<char>>
                    &&& forall|k: KeySpec|
                        k != key@ ==> #[trigger] final(self).state(k) == old(self).state(k)
                    &&& final(self).upcoming() == old(self).upcoming() + 1
                    &&& final(self).changed(*old(self), key@, None)
                },
                Err(e) => {
                    &&& e == StoreError::Exhausted
                    &&& old(self).write_exhausted()
                    &&& *final(self) == *old(self)
                },
            },
    {
        self.apply(key, Value::Tombstone)
    }

    /// Writes out what is still in the index, as the last act before the
    /// engine is given up: a flush.
    pub fn close(&mut self) -> (r: Result<(), StoreError>)
        requires
            old(self).wf(),
        ensures
            final(self).wf(),
            final(self).settings() == old(self).settings(),
            forall|k: KeySpec| #[trigger] final(self).state(k) == old(self).state(k),
            match r {
                Ok(()) => {
                    &&& final(self).memtable_map() == Map::<KeySpec, ValueSpec>::empty()
                    &&& final(self).memtable_len() == 0
                    &&& final(self).upcoming() == old(self).upcoming()
                    &&& old(self).memtable_len() > 0 ==> {
                        &&& old(self).next_id() < u64::MAX
                        &&& final(self).layers() == seq![old(self).memtable_map()] + old(
                            self,
                        ).layers()
                        &&& final(self).log_image() == Seq::<u8>::empty()
                        &&& final(self).flushed() == old(self).upcoming() - 1
                        &&& final(self).next_id() == old(self).next_id() + 1
                        &&& final(self).tables().len() == old(self).tables().len() + 1
                        &&& final(self).tables().drop_first() == old(self).tables()
                        &&& final(self).tables()[0].ident() == old(self).next_id()
                        &&& final(self).tables()[0].entries() == old(self).memtable_run()
                        &&& final(self).tables()[0].image() == crate::ss_table::segment_image(
                            old(self).memtable_run(),
                            old(self).settings().index_interval as int,
                        )
                    }
                    &&& old(self).memtable_len() == 0 ==> *final(self) == *old(self)
                },
                Err(e) => {
                    &&& e == StoreError::Exhausted
                    &&& old(self).memtable_len() > 0
                    &&& old(self).next_id() == u64::MAX
                    &&& *final(self) == *old(self)
                },
            },
    {
        self.flush()
    }

    /// The bytes that the log gets for the next change, for a caller that
    /// must make them durable before the change is applied.
    pub fn record_bytes(&self, key: &str, value: &Value) -> (b: Vec<u8>)
        ensures
            b@ == crate::wal::encode_record((self.upcoming(), (key@, value@))),
    {
        self.wal.record_bytes(key, value)
    }

    /// The bytes of the log.
    pub fn wal_bytes(&self) -> (b: &Vec<u8>)
        ensures
            b@ == self.log_image(),
    {
        self.wal.as_bytes()
    }

    /// The sequence number of the last change that a flush has written out.
    pub fn flushed_sequence(&self) -> (n: u64)
        ensures
            n == self.flushed(),
    {
        self.flushed_sequence
    }

    /// The live segments.
    pub fn catalog(&self) -> (c: &Catalog)
        ensures
            c.tables() == self.tables(),
            self.wf() ==> c.wf(),
    {
        &self.catalog
    }

    /// The in-memory index.
    pub fn memtable(&self) -> (t: &Subtree)
        ensures
            t@ == self.memtable_map(),
            t.entries().len() == self.memtable_len(),
            self.wf() ==> t.wf(),
    {
        &self.memtable
    }

    /// The settings.
    pub fn config(&self) -> (c: Config)
        ensures
            c == self.settings(),
    {
        self.config
    }

    /// Opens an engine on what storage holds: the bytes of the log, the
    /// sequence number of the last flushed change, and the segment files,
    /// newest first. The index is rebuilt from the log's records beyond the
    /// last flushed one.
    pub fn open(
        config: Config,
        log: Vec<u8>,
        flushed_sequence: u64,
        files: Vec<(u64, Vec<u8>)>,
    ) -> (r: Result<Engine, StoreError>)
        requires
            config.index_interval > 0,
        ensures
            match r {
                Ok(e) => {
                    &&& openable(log@, images_view(files@))
                    &&& !counters_spent(flushed_sequence, images_view(files@))
                    &&& e.wf()
                    &&& e.settings() == config
                    &&& e.log_image() == log@
                    &&& e.flushed() == flushed_sequence
                    &&& e.upcoming() == next_after(e.log_records(), (flushed_sequence + 1) as u64)
                    &&& tables_match(e.tables(), images_view(files@))
                    &&& forall|k: KeySpec| #[trigger]
                        e.state(k) == recovered(log@, flushed_sequence, images_view(files@), k)
                },
                Err(StoreError::Corruption) => !openable(log@, images_view(files@)),
                Err(StoreError::Exhausted) => {
                    &&& openable(log@, images_view(files@))
                    &&& counters_spent(flushed_sequence, images_view(files@))
                },
            },
    {
        let ghost images = images_view(files@);
        let catalog = match Catalog::load(files) {
            Ok(catalog) => catalog,
            Err(_) => {
                return Err(StoreError::Corruption);
            },
        };
        let floor = if flushed_sequence == u64::MAX {
            flushed_sequence
        } else {
            flushed_sequence + 1
        };
        let wal = match Wal::load(log, floor) {
            Ok(wal) => wal,
            Err(_) => {
                return Err(StoreError::Corruption);
            },
        };
        if flushed_sequence == u64::MAX {
            return Err(StoreError::Exhausted);
        }
        let next_segment_id = match catalog.newest_id() {
            None => 1,
            Some(newest) => {
                if newest == u64::MAX {
                    return Err(StoreError::Exhausted);
                }
                newest + 1
            },
        };
        let records = wal.replay();
        proof {
            let all = records_view(records@);
            crate::wal::lemma_records_keyed(wal.image());
            assert forall|i: int| 0 <= i < records@.len() implies (#[trigger] records@[i]).key@.len()
                > 0 by {
                assert(all[i] == records@[i]@);
                assert(all[i].1.0.len() > 0);
            }
        }
        let memtable = rebuild(&records, flushed_sequence);
        let e = Engine { config, memtable, wal, catalog, next_segment_id, flushed_sequence };
        proof {
            let tables = e.catalog.tables();
            assert forall|i: int| 0 <= i < tables.len() implies (#[trigger] tables[i]).ident()
                < next_segment_id by {
                if i > 0 {
                    assert(tables[0].ident() > tables[i].ident());
                }
            }
            assert(e.layers() =~= image_layers(images)) by {
                assert forall|i: int| 0 <= i < tables.len() implies table_layers(tables)[i]
                    == image_layers(images)[i] by {
                    assert(tables[i].image() == images[i].1);
                }
            }
        }
        Ok(e)
    }

    /// Merges the `count` newest live segments into new ones and retires
    /// them: of every key only the newest entry stays. When no older segment
    /// is left beyond the merged ones, deletion markers are dropped, since
    /// nothing remains that they would have to shadow; otherwise they are
    /// kept. Reads see no difference. Returns the identifiers of the retired
    /// segments, newest first. When the identifiers would not suffice,
    /// nothing changes.
    pub fn compact_newest(&mut self, count: usize) -> (r: Result<Vec<u64>, StoreError>)
        requires
            old(self).wf(),
            count <= old(self).tables().len(),
        ensures
            final(self).wf(),
            final(self).settings() == old(self).settings(),
            final(self).memtable_map() == old(self).memtable_map(),
            final(self).log_image() == old(self).log_image(),
            forall|k: KeySpec| #[trigger] final(self).read(k) == old(self).read(k),
            match r {
                Ok(retired) => {
                    &&& retired@ == table_idents(old(self).tables().take(count as int))
                    &&& forall|k: KeySpec| #[trigger]
                        probe(final(self).layers(), k) == kept(
                            probe(old(self).layers(), k),
                            count == old(self).tables().len(),
                        )
                    &&& compacted(
                        old(self).tables(),
                        final(self).tables(),
                        count as int,
                        old(self).next_id(),
                        old(self).settings().index_interval as int,
                        old(self).settings().max_segment_bytes,
                    )
                    &&& final(self).next_id() == old(self).next_id() + (final(self).tables().len()
                        - (old(self).tables().len() - count))
                },
                Err(e) => {
                    &&& e == StoreError::Exhausted
                    &&& forall|m: Seq<EntrySpec>| #[trigger]
                        merge_of(
                            table_runs(old(self).tables().take(count as int)),
                            m,
                            covers_all(old(self).tables(), count as int),
                        ) ==> old(self).next_id() + m.len() > u64::MAX
                    &&& *final(self) == *old(self)
                },
            },
    {
        let ghost olds = self.catalog.tables();
        let ghost front = olds.take(count as int);
        let ghost back = olds.skip(count as int);
        let drop_tombstones = count == self.catalog.len();
        let first_id = self.next_segment_id;
        let max_bytes = self.config.max_segment_bytes;
        let ghost every = self.config.index_interval as int;
        let chosen = vstd::slice::slice_subrange(self.catalog.segments().as_slice(), 0, count);
        proof {
            assert(chosen@ =~= front);
            assert forall|i: int| 0 <= i < front.len() implies (#[trigger] chosen@[i]).wf() by {
                assert(olds[i].wf());
            }
        }
        let outs = match crate::compactor::compact(
            chosen,
            drop_tombstones,
            first_id,
            self.config.index_interval,
            max_bytes,
        ) {
            Ok(outs) => outs,
            Err(_) => {
                return Err(StoreError::Exhausted);
            },
        };
        let ghost news = outs@;
        let ghost merged = flatten(news);
        let mut ids = self.catalog.list();
        ids.truncate(count);
        proof {
            assert(ids@ =~= table_idents(front));
            assert forall|i: int| 0 <= i < count implies ids@.contains(
                (#[trigger] olds[i]).ident(),
            ) by {
                assert(ids@[i] == olds[i].ident());
            }
            assert forall|i: int| count <= i < olds.len() implies !ids@.contains(
                (#[trigger] olds[i]).ident(),
            ) by {
                if ids@.contains(olds[i].ident()) {
                    let j = choose|j: int| 0 <= j < ids@.len() && ids@[j] == olds[i].ident();
                    assert(olds[j].ident() > olds[i].ident());
                }
            }
            lemma_retire_front(olds, count as int, ids@);
        }
        let retired = self.catalog.retire(&ids);
        let mut queue = outs;
        let fresh_count = queue.len();
        let mut i: usize = 0;
        proof {
            assert(news.take(0).reverse() + back =~= back);
            assert(news.skip(0) =~= news);
            crate::compactor::lemma_laid_out_count(news, merged, first_id, every, max_bytes);
        }
        while i < fresh_count
            invariant
                i <= fresh_count,
                fresh_count == news.len(),
                queue@ == news.skip(i as int),
                self.catalog.wf(),
                self.catalog.tables() == news.take(i as int).reverse() + back,
                laid_out(news, merged, first_id, every, max_bytes),
                forall|j: int| 0 <= j < back.len() ==> (#[trigger] back[j]).ident() < first_id,
                self.config == old(self).config,
                self.memtable == old(self).memtable,
                self.wal == old(self).wal,
                self.flushed_sequence == old(self).flushed_sequence,
                self.next_segment_id == first_id,
            decreases fresh_count - i,
        {
            assert(queue@[0] == news[i as int]);
            let ghost done = self.catalog.tables();
            let table = queue.remove(0);
            proof {
                assert(crate::compactor::segment_fits(news[i as int], first_id + i, every, max_bytes));
                if i > 0 {
                    assert(done[0] == news[i - 1]);
                    assert(crate::compactor::segment_fits(
                        news[i - 1],
                        first_id + (i - 1),
                        every,
                        max_bytes,
                    ));
                } else if back.len() > 0 {
                    assert(done[0] == back[0]);
                }
            }
            self.catalog.register(table);
            proof {
                assert(queue@ =~= news.skip(i + 1));
                assert(self.catalog.tables() =~= news.take(i + 1).reverse() + back);
            }
            i = i + 1;
        }
        self.next_segment_id = first_id + fresh_count as u64;
        proof {
            assert(news.take(fresh_count as int) =~= news);
            let before = *old(self);
            let fresh = news.reverse();
            let tables = self.catalog.tables();
            assert(tables == fresh + back);
            assert(fresh.reverse() =~= news);
            assert(tables.take(tables.len() - back.len()) =~= fresh);
            assert(tables.skip(tables.len() - back.len()) =~= back);
            assert forall|j: int| 0 <= j < tables.len() implies (#[trigger] tables[j]).ident()
                < self.next_segment_id by {
                if j < fresh.len() {
                    assert(tables[j] == news[fresh_count - 1 - j]);
                    assert(crate::compactor::segment_fits(
                        news[fresh_count - 1 - j],
                        first_id + (fresh_count - 1 - j),
                        every,
                        max_bytes,
                    ));
                } else {
                    assert(tables[j] == back[j - fresh.len()]);
                }
            }
            crate::compactor::lemma_stacked(fresh);
            assert(run_layers(table_runs(front)) =~= table_layers(front));
            assert(table_layers(olds) =~= table_layers(front) + table_layers(back)) by {
                assert(olds =~= front + back);
            }
            assert(table_layers(tables) =~= table_layers(fresh) + table_layers(back));
            assert forall|k: KeySpec| #[trigger]
                probe(self.layers(), k) == kept(probe(before.layers(), k), drop_tombstones) by {
                assert(lookup(to_map(merged), k) == kept(
                    probe(run_layers(table_runs(front)), k),
                    drop_tombstones,
                ));
                assert(probe(table_layers(fresh), k) == lookup(
                    to_map(flatten(fresh.reverse())),
                    k,
                ));
                lemma_probe_concat(table_layers(fresh), table_layers(back), k);
                lemma_probe_concat(table_layers(front), table_layers(back), k);
                if drop_tombstones {
                    assert(back.len() == 0);
                }
            }
            assert forall|k: KeySpec| #[trigger] self.read(k) == before.read(k) by {
                assert(probe(self.layers(), k) == kept(
                    probe(before.layers(), k),
                    drop_tombstones,
                ));
            }
        }
        Ok(retired)
    }

    /// Merges all live segments into new ones and retires the old: of every
    /// key only the newest entry stays, and since nothing older is left that
    /// a deletion marker would have to shadow, the markers go too. Reads see
    /// no difference. Returns the identifiers of the retired segments,
    /// newest first. When the identifiers would not suffice, nothing changes.
    pub fn compact(&mut self) -> (r: Result<Vec<u64>, StoreError>)
        requires
            old(self).wf(),
        ensures
            final(self).wf(),
            final(self).settings() == old(self).settings(),
            final(self).memtable_map() == old(self).memtable_map(),
            final(self).log_image() == old(self).log_image(),
            forall|k: KeySpec| #[trigger] final(self).read(k) == old(self).read(k),
            match r {
                Ok(retired) => {
                    &&& retired@ == table_idents(old(self).tables())
                    &&& forall|k: KeySpec| #[trigger]
                        probe(final(self).layers(), k) == kept(probe(old(self).layers(), k), true)
                    &&& settled(final(self).layers())
                    &&& merge_of(
                        table_runs(old(self).tables()),
                        flatten(final(self).tables().reverse()),
                        true,
                    )
                    &&& laid_out(
                        final(self).tables().reverse(),
                        flatten(final(self).tables().reverse()),
                        old(self).next_id(),
                        old(self).settings().index_interval as int,
                        old(self).settings().max_segment_bytes,
                    )
                    &&& final(self).next_id() == old(self).next_id() + final(self).tables().len()
                },
                Err(e) => {
                    &&& e == StoreError::Exhausted
                    &&& forall|m: Seq<EntrySpec>| #[trigger]
                        merge_of(table_runs(old(self).tables()), m, true) ==> old(self).next_id()
                            + m.len() > u64::MAX
                    &&& *final(self) == *old(self)
                },
            },
    {
        let count = self.catalog.len();
        proof {
            let olds = self.catalog.tables();
            assert(olds.take(count as int) =~= olds);
        }
        let r = self.compact_newest(count);
        proof {
            if r is Err {
                let olds = old(self).tables();
                assert forall|m: Seq<EntrySpec>| #[trigger]
                    merge_of(table_runs(olds), m, true) implies old(self).next_id() + m.len()
                    > u64::MAX by {
                    assert(covers_all(olds, count as int));
                    assert(merge_of(
                        table_runs(olds.take(count as int)),
                        m,
                        covers_all(olds, count as int),
                    ));
                }
            }
            if r is Ok {
                let tables = self.tables();
                assert(tables.take(tables.len() - 0) =~= tables);
                assert forall|k: KeySpec| #[trigger]
                    probe(self.layers(), k) != Some(None::<Seq<char>>) by {
                    assert(probe(self.layers(), k) == kept(probe(old(self).layers(), k), true));
                }
            }
        }
        r
    }
}

/// The `count` newest segments are all the segments there are.
pub open spec fn covers_all(tables: Seq<SSTable>, count: int) -> bool {
    count == tables.len()
}

/// What a compaction of the `count` newest segments leaves: the older
/// segments as they were, and in front of them new segments that lay out
/// the merge of the retired ones, oldest identifier last; deletion markers
/// are dropped from the merge exactly when no older segment is left.
pub open spec fn compacted(
    before: Seq<SSTable>,
    after: Seq<SSTable>,
    count: int,
    first_id: u64,
    interval: int,
    max_bytes: usize,
) -> bool {
    let older = before.len() - count;
    let fresh = after.take(after.len() - older);
    &&& after.len() >= older
    &&& after.skip(after.len() - older) == before.skip(count)
    &&& merge_of(table_runs(before.take(count)), flatten(fresh.reverse()), count == before.len())
    &&& laid_out(fresh.reverse(), flatten(fresh.reverse()), first_id, interval, max_bytes)
}

/// What storage holds of an engine's segments: identifier and bytes of each,
/// newest first.
pub open spec fn holdings(tables: Seq<SSTable>) -> Seq<(u64, Seq<u8>)> {
    Seq::new(tables.len(), |i: int| (tables[i].ident(), tables[i].image()))
}

/// The index is at any time what replaying the log gives: the records
/// beyond the last flushed one, applied in order to an empty index.
pub proof fn lemma_index_is_replay(e: Engine)
    requires
        e.wf(),
    ensures
        e.memtable_map() == apply_records(Map::empty(), e.log_records(), e.flushed()),
        e.memtable_map() == to_map(e.memtable_run()),
        e.flushed() < e.upcoming(),
{
}

/// An engine can be opened again on what it has made durable, and then
/// knows of every key what it knew before: its log and its segments pass
/// what `open` demands, and the state recovered from them is its state.
pub proof fn lemma_reopen_recovers(e: Engine)
    requires
        e.wf(),
    ensures
        openable(e.log_image(), holdings(e.tables())),
        forall|k: KeySpec| #[trigger]
            recovered(e.log_image(), e.flushed(), holdings(e.tables()), k) == e.state(k),
{
    let tables = e.tables();
    let images = holdings(tables);
    assert forall|i: int| 0 <= i < images.len() implies crate::ss_table::segment_ok(
        (#[trigger] images[i]).1,
    ) by {
        crate::ss_table::lemma_segment_wf(tables[i]);
    }
    assert forall|i: int, j: int| 0 <= i < j < images.len() implies (#[trigger] images[i]).0 > (
    #[trigger] images[j]).0 by {
        assert(tables[i].ident() > tables[j].ident());
    }
    assert(image_layers(images) =~= e.layers());
    let records = e.log_records();
    assert forall|i: int| 0 <= i < records.len() implies (#[trigger] records[i]).0 < u64::MAX by {
        assert(records[i].0 < e.upcoming());
    }
}

} // verus!
