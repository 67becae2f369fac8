//! The catalog: the segments that are live, newest first. Reads consult them
//! in that order, and the first segment that knows a key decides.
use vstd::prelude::*;
use crate::entry::{KeySpec, Lookup, LookupSpec, ValueSpec};
use crate::error::StoreError;
use crate::ss_table::{SSTable, segment_entries, segment_ok};
use crate::entry::to_map;

verus! {

/// Probing layers of maps from the first (newest) to the last (oldest): the
/// first layer that holds the key decides.
pub open spec fn probe(layers: Seq<Map<KeySpec, ValueSpec>>, k: KeySpec) -> LookupSpec
    decreases layers.len(),
{
    if layers.len() == 0 {
        None
    } else if layers[0].contains_key(k) {
        Some(layers[0][k])
    } else {
        probe(layers.drop_first(), k)
    }
}

/// The maps of a sequence of segments, in order.
pub open spec fn table_layers(tables: Seq<SSTable>) -> Seq<Map<KeySpec, ValueSpec>> {
    Seq::new(tables.len(), |i: int| tables[i]@)
}

/// The identifiers of a sequence of segments, in order.
pub open spec fn table_idents(tables: Seq<SSTable>) -> Seq<u64> {
    Seq::new(tables.len(), |i: int| tables[i].ident())
}

/// Every segment is well-formed and identifiers strictly decrease, so that
/// the sequence runs from newest to oldest.
pub open spec fn tables_wf(tables: Seq<SSTable>) -> bool {
    &&& forall|i: int| 0 <= i < tables.len() ==> (#[trigger] tables[i]).wf()
    &&& forall|i: int, j: int|
        0 <= i < j < tables.len() ==> (#[trigger] tables[i]).ident() > (#[trigger] tables[j]).ident()
}

/// The segments whose identifier is not among `ids`, in order.
pub open spec fn without(tables: Seq<SSTable>, ids: Seq<u64>) -> Seq<SSTable>
    decreases tables.len(),
{
    if tables.len() == 0 {
        Seq::empty()
    } else if ids.contains(tables.last().ident()) {
        without(tables.drop_last(), ids)
    } else {
        without(tables.drop_last(), ids).push(tables.last())
    }
}

/// The identifiers of the segments whose identifier is among `ids`, in order.
pub open spec fn picked(tables: Seq<SSTable>, ids: Seq<u64>) -> Seq<u64>
    decreases tables.len(),
{
    if tables.len() == 0 {
        Seq::empty()
    } else if ids.contains(tables.last().ident()) {
        picked(tables.drop_last(), ids).push(tables.last().ident())
    } else {
        picked(tables.drop_last(), ids)
    }
}

/// The first layer that holds a key decides the probe.
pub proof fn lemma_probe_first(layers: Seq<Map<KeySpec, ValueSpec>>, k: KeySpec, i: int)
    requires
        0 <= i < layers.len(),
        layers[i].contains_key(k),
        forall|j: int| 0 <= j < i ==> !(#[trigger] layers[j]).contains_key(k),
    ensures
        probe(layers, k) == Some(layers[i][k]),
    decreases i,
{
    if i > 0 {
        assert(!layers[0].contains_key(k));
        let rest = layers.drop_first();
        assert forall|j: int| 0 <= j < i - 1 implies !(#[trigger] rest[j]).contains_key(k) by {
            assert(rest[j] == layers[j + 1]);
        }
        lemma_probe_first(rest, k, i - 1);
    }
}

/// A key that no layer holds is not found.
pub proof fn lemma_probe_none(layers: Seq<Map<KeySpec, ValueSpec>>, k: KeySpec)
    requires
        forall|j: int| 0 <= j < layers.len() ==> !(#[trigger] layers[j]).contains_key(k),
    ensures
        probe(layers, k) == None::<ValueSpec>,
    decreases layers.len(),
{
    if layers.len() > 0 {
        assert(!layers[0].contains_key(k));
        let rest = layers.drop_first();
        assert forall|j: int| 0 <= j < rest.len() implies !(#[trigger] rest[j]).contains_key(k) by {
            assert(rest[j] == layers[j + 1]);
        }
        lemma_probe_none(rest, k);
    }
}

/// Removing segments from a well-formed sequence leaves a well-formed
/// sequence, with identifiers above any bound that held before.
pub proof fn lemma_without_wf(tables: Seq<SSTable>, ids: Seq<u64>, bound: int)
    requires
        tables_wf(tables),
        forall|i: int| 0 <= i < tables.len() ==> (#[trigger] tables[i]).ident() > bound,
    ensures
        tables_wf(without(tables, ids)),
        forall|i: int|
            0 <= i < without(tables, ids).len() ==> (#[trigger] without(tables, ids)[i]).ident()
                > bound,
    decreases tables.len(),
{
    if tables.len() > 0 {
        let last = tables.last();
        let front = tables.drop_last();
        assert(tables_wf(front)) by {
            assert forall|i: int| 0 <= i < front.len() implies (#[trigger] front[i]).wf() by {
                assert(tables[i].wf());
            }
            assert forall|i: int, j: int| 0 <= i < j < front.len() implies (
            #[trigger] front[i]).ident() > (#[trigger] front[j]).ident() by {
                assert(tables[i].ident() > tables[j].ident());
            }
        }
        assert forall|i: int| 0 <= i < front.len() implies (#[trigger] front[i]).ident()
            > last.ident() by {
            assert(tables[i].ident() > tables[tables.len() - 1].ident());
        }
        lemma_without_wf(front, ids, last.ident() as int);
        assert(last.wf() && last.ident() > bound) by {
            assert(tables[tables.len() - 1].wf());
        }
    }
}

/// Whether `id` is among `ids`.
pub fn holds(ids: &Vec<u64>, id: u64) -> (b: bool)
    ensures
        b == ids@.contains(id),
{
    let mut i: usize = 0;
    while i < ids.len()
        invariant
            i <= ids@.len(),
            forall|j: int| 0 <= j < i ==> ids@[j] != id,
        decreases ids@.len() - i,
    {
        if ids[i] == id {
            return true;
        }
        i = i + 1;
    }
    false
}

/// The live segments, newest first.
#[derive(Debug)]
pub struct Catalog {
    segments: Vec<SSTable>,
}

impl Catalog {
    /// The live segments, newest first.
    pub closed spec fn tables(&self) -> Seq<SSTable> {
        self.segments@
    }

    /// The maps of the live segments, newest first.
    pub open spec fn layers(&self) -> Seq<Map<KeySpec, ValueSpec>> {
        table_layers(self.tables())
    }

    /// The identifiers of the live segments, newest first.
    pub open spec fn idents(&self) -> Seq<u64> {
        table_idents(self.tables())
    }

    /// Every live segment is well-formed, and identifiers strictly decrease
    /// along the catalog.
    pub open spec fn wf(&self) -> bool {
        tables_wf(self.tables())
    }

    /// A catalog without segments.
    pub fn new() -> (c: Catalog)
        ensures
            c.wf(),
            c.tables() == Seq::<SSTable>::empty(),
    {
        Catalog { segments: Vec::new() }
    }

    /// Number of live segments.
    pub fn len(&self) -> (n: usize)
        ensures
            n == self.tables().len(),
    {
        self.segments.len()
    }

    /// The live segment at position `i`, counted from the newest.
    pub fn segment(&self, i: usize) -> (t: &SSTable)
        requires
            i < self.tables().len(),
        ensures
            *t == self.tables()[i as int],
    {
        &self.segments[i]
    }

    /// The live segments, newest first.
    pub fn segments(&self) -> (v: &Vec<SSTable>)
        ensures
            v@ == self.tables(),
    {
        &self.segments
    }

    /// The identifier of the newest live segment, if there is one.
    pub fn newest_id(&self) -> (r: Option<u64>)
        ensures
            match r {
                Some(id) => self.tables().len() > 0 && id == self.tables()[0].ident(),
                None => self.tables().len() == 0,
            },
    {
        if self.segments.len() == 0 {
            None
        } else {
            Some(self.segments[0].id())
        }
    }

    /// Makes `segment` live, as the newest.
    pub fn register(&mut self, segment: SSTable)
        requires
            old(self).wf(),
            segment.wf(),
            old(self).tables().len() > 0 ==> segment.ident() > old(self).tables()[0].ident(),
        ensures
            final(self).wf(),
            final(self).tables() == seq![segment] + old(self).tables(),
    {
        self.segments.insert(0, segment);
        proof {
            let before = old(self).tables();
            let after = self.tables();
            assert(after =~= seq![segment] + before);
            assert forall|i: int| 0 <= i < after.len() implies (#[trigger] after[i]).wf() by {
                if i > 0 {
                    assert(before[i - 1].wf());
                }
            }
            assert forall|i: int, j: int| 0 <= i < j < after.len() implies (
            #[trigger] after[i]).ident() > (#[trigger] after[j]).ident() by {
                if i > 0 {
                    assert(before[i - 1].ident() > before[j - 1].ident());
                } else if j > 1 {
                    assert(before[0].ident() > before[j - 1].ident());
                }
            }
        }
    }

    /// The identifiers of the live segments, newest first.
    pub fn list(&self) -> (ids: Vec<u64>)
        ensures
            ids@ == self.idents(),
    {
        let mut ids: Vec<u64> = Vec::new();
        let mut i: usize = 0;
        while i < self.segments.len()
            invariant
                i <= self.segments@.len(),
                ids@ == self.idents().take(i as int),
            decreases self.segments@.len() - i,
        {
            ids.push(self.segments[i].id());
            assert(ids@ =~= self.idents().take(i + 1));
            i = i + 1;
        }
        assert(ids@ =~= self.idents());
        ids
    }

    /// Looks `key` up in the live segments from newest to oldest and returns
    /// what the first segment that knows the key has.
    pub fn get(&self, key: &str) -> (r: Lookup)
        requires
            self.wf(),
        ensures
            r@ == probe(self.layers(), key@),
    {
        let ghost layers = self.layers();
        let mut i: usize = 0;
        while i < self.segments.len()
            invariant
                i <= self.segments@.len(),
                self.wf(),
                layers == self.layers(),
                forall|j: int| 0 <= j < i ==> !(#[trigger] layers[j]).contains_key(key@),
            decreases self.segments@.len() - i,
        {
            assert(self.tables()[i as int].wf());
            let r = self.segments[i].get(key);
            match r {
                Lookup::Absent => {},
                _ => {
                    proof {
                        assert(layers[i as int] == self.tables()[i as int]@);
                        lemma_probe_first(layers, key@, i as int);
                    }
                    return r;
                },
            }
            assert(layers[i as int] == self.tables()[i as int]@);
            i = i + 1;
        }
        proof {
            lemma_probe_none(layers, key@);
        }
        Lookup::Absent
    }

    /// Takes the segments whose identifier is among `ids` out of the
    /// catalog, and returns the identifiers of those that were taken out,
    /// newest first, so that their files can be removed.
    pub fn retire(&mut self, ids: &Vec<u64>) -> (retired: Vec<u64>)
        requires
            old(self).wf(),
        ensures
            final(self).wf(),
            final(self).tables() == without(old(self).tables(), ids@),
            retired@ == picked(old(self).tables(), ids@),
    {
        let ghost before = self.tables();
        let ghost mut k: int = 0;
        let mut retired: Vec<u64> = Vec::new();
        let mut i: usize = 0;
        proof {
            assert(before.take(0) =~= Seq::<SSTable>::empty());
            assert(self.segments@.take(0) =~= Seq::<SSTable>::empty());
            assert(self.segments@.skip(0) =~= before.skip(0));
        }
        while i < self.segments.len()
            invariant
                i <= self.segments@.len(),
                0 <= k <= before.len(),
                before.len() - k == self.segments@.len() - i,
                self.segments@.take(i as int) == without(before.take(k), ids@),
                self.segments@.skip(i as int) == before.skip(k),
                retired@ == picked(before.take(k), ids@),
            decreases self.segments@.len() - i,
        {
            proof {
                assert(self.segments@[i as int] == self.segments@.skip(i as int)[0]);
                assert(before.skip(k)[0] == before[k]);
                assert(before.take(k + 1).drop_last() =~= before.take(k));
                assert(before.take(k + 1).last() == before[k]);
            }
            let ghost current = self.segments@;
            let id = self.segments[i].id();
            if holds(ids, id) {
                retired.push(id);
                self.segments.remove(i);
                proof {
                    assert(self.segments@.take(i as int) =~= current.take(i as int));
                    assert(self.segments@.skip(i as int) =~= current.skip(i as int).skip(1));
                    assert(before.skip(k).skip(1) =~= before.skip(k + 1));
                }
            } else {
                proof {
                    assert(current.take(i + 1) =~= current.take(i as int).push(current[i as int]));
                    assert(current.skip(i + 1) =~= current.skip(i as int).skip(1));
                    assert(before.skip(k).skip(1) =~= before.skip(k + 1));
                }
                i = i + 1;
            }
            proof {
                k = k + 1;
            }
        }
        proof {
            assert(before.take(k) =~= before);
            assert(self.segments@.take(i as int) =~= self.segments@);
            lemma_without_wf(before, ids@, -1);
        }
        retired
    }
}

/// Views of segment files as read from storage: identifier and bytes.
pub open spec fn images_view(files: Seq<(u64, Vec<u8>)>) -> Seq<(u64, Seq<u8>)> {
    Seq::new(files.len(), |i: int| (files[i].0, files[i].1@))
}

/// The maps of segment images, in order.
pub open spec fn image_layers(images: Seq<(u64, Seq<u8>)>) -> Seq<Map<KeySpec, ValueSpec>> {
    Seq::new(images.len(), |i: int| to_map(segment_entries(images[i].1)))
}

/// The images can make up a catalog: each is a segment, and they are given
/// newest first, with strictly decreasing identifiers.
pub open spec fn images_ok(images: Seq<(u64, Seq<u8>)>) -> bool {
    &&& forall|i: int| 0 <= i < images.len() ==> segment_ok((#[trigger] images[i]).1)
    &&& forall|i: int, j: int|
        0 <= i < j < images.len() ==> (#[trigger] images[i]).0 > (#[trigger] images[j]).0
}

/// The segments are those of the images, in order.
pub open spec fn tables_match(tables: Seq<SSTable>, images: Seq<(u64, Seq<u8>)>) -> bool {
    &&& tables.len() == images.len()
    &&& forall|i: int|
        0 <= i < tables.len() ==> (#[trigger] tables[i]).ident() == images[i].0 && tables[i].image()
            == images[i].1
}

/// One more image in front of images that can make up a catalog: the
/// longer sequence can make up a catalog too, and the segment made from the
/// image goes in front of the segments of the others.
proof fn lemma_load_step(
    images: Seq<(u64, Seq<u8>)>,
    j: int,
    done: Seq<SSTable>,
    table: SSTable,
)
    requires
        0 <= j < images.len(),
        images_ok(images.skip(j + 1)),
        tables_match(done, images.skip(j + 1)),
        segment_ok(images[j].1),
        table.ident() == images[j].0,
        table.image() == images[j].1,
        done.len() > 0 ==> images[j].0 > done[0].ident(),
    ensures
        images_ok(images.skip(j)),
        tables_match(seq![table] + done, images.skip(j)),
{
    let rest = images.skip(j + 1);
    let now = images.skip(j);
    let tables = seq![table] + done;
    assert(now[0] == images[j]);
    assert forall|i: int| 0 <= i < now.len() implies segment_ok((#[trigger] now[i]).1) by {
        if i > 0 {
            assert(now[i] == rest[i - 1]);
        }
    }
    assert forall|a: int, b: int| 0 <= a < b < now.len() implies (#[trigger] now[a]).0 > (
    #[trigger] now[b]).0 by {
        assert(now[b] == rest[b - 1]);
        if a > 0 {
            assert(now[a] == rest[a - 1]);
        } else {
            assert(done[0].ident() == rest[0].0);
            if b > 1 {
                assert(rest[0].0 > rest[b - 1].0);
            }
        }
    }
    assert forall|i: int| 0 <= i < tables.len() implies (#[trigger] tables[i]).ident()
        == now[i].0 && tables[i].image() == now[i].1 by {
        if i > 0 {
            assert(tables[i] == done[i - 1]);
            assert(now[i] == rest[i - 1]);
        }
    }
}

/// Images that cannot make up a catalog: one of them is no segment, or an
/// identifier does not exceed the one that follows it.
proof fn lemma_load_refused(images: Seq<(u64, Seq<u8>)>, j: int)
    requires
        0 <= j < images.len(),
        !segment_ok(images[j].1) || (j + 1 < images.len() && images[j].0 <= images[j + 1].0),
    ensures
        !images_ok(images),
{
}

impl Catalog {
    /// Builds the catalog from segment files read from storage, given newest
    /// first. Files that are malformed, or identifiers that do not
    /// strictly decrease, are refused.
    pub fn load(files: Vec<(u64, Vec<u8>)>) -> (r: Result<Catalog, StoreError>)
        ensures
            match r {
                Ok(c) => {
                    &&& images_ok(images_view(files@))
                    &&& c.wf()
                    &&& tables_match(c.tables(), images_view(files@))
                },
                Err(e) => e == StoreError::Corruption && !images_ok(images_view(files@)),
            },
    {
        let ghost images = images_view(files@);
        let mut queue = files;
        let mut catalog = Catalog::new();
        proof {
            assert(images.take(images.len() as int) =~= images);
        }
        while queue.len() > 0
            invariant
                images == images_view(files@),
                queue@.len() <= images.len(),
                images_view(queue@) == images.take(queue@.len() as int),
                catalog.wf(),
                tables_match(catalog.tables(), images.skip(queue@.len() as int)),
                images_ok(images.skip(queue@.len() as int)),
            decreases queue@.len(),
        {
            let ghost j = queue@.len() - 1;
            let ghost done = catalog.tables();
            assert(images_view(queue@)[j] == images[j]);
            let (id, bytes) = match queue.pop() {
                Some(file) => file,
                None => {
                    return Err(StoreError::Corruption);
                },
            };
            assert(id == images[j].0 && bytes@ == images[j].1);
            let table = match SSTable::from_bytes(id, bytes) {
                Ok(table) => table,
                Err(_) => {
                    proof {
                        lemma_load_refused(images, j);
                    }
                    return Err(StoreError::Corruption);
                },
            };
            match catalog.newest_id() {
                Some(newest) => {
                    if id <= newest {
                        proof {
                            assert(images.skip(j + 1)[0] == images[j + 1]);
                            lemma_load_refused(images, j);
                        }
                        return Err(StoreError::Corruption);
                    }
                },
                None => {},
            }
            catalog.register(table);
            proof {
                assert(images_view(queue@) =~= images.take(j));
                lemma_load_step(images, j, done, table);
            }
        }
        proof {
            assert(images.skip(0) =~= images);
        }
        Ok(catalog)
    }
}

/// Probing layers laid end to end: the first part is probed first, and the
/// second only for keys that the first does not know.
pub proof fn lemma_probe_concat(
    a: Seq<Map<KeySpec, ValueSpec>>,
    b: Seq<Map<KeySpec, ValueSpec>>,
    k: KeySpec,
)
    ensures
        probe(a + b, k) == (match probe(a, k) {
            Some(v) => Some(v),
            None => probe(b, k),
        }),
    decreases a.len(),
{
    if a.len() == 0 {
        assert(a + b =~= b);
    } else {
        assert((a + b)[0] == a[0]);
        assert((a + b).drop_first() =~= a.drop_first() + b);
        lemma_probe_concat(a.drop_first(), b, k);
    }
}

/// Retiring exactly the `count` newest segments leaves the others, in
/// order, and reports the identifiers of the retired ones.
pub proof fn lemma_retire_front(tables: Seq<SSTable>, count: int, ids: Seq<u64>)
    requires
        0 <= count <= tables.len(),
        forall|i: int| 0 <= i < count ==> ids.contains((#[trigger] tables[i]).ident()),
        forall|i: int| count <= i < tables.len() ==> !ids.contains((#[trigger] tables[i]).ident()),
    ensures
        without(tables, ids) == tables.skip(count),
        picked(tables, ids) == table_idents(tables.take(count)),
    decreases tables.len(),
{
    if tables.len() == 0 {
        assert(tables.skip(count) =~= Seq::<SSTable>::empty());
        assert(table_idents(tables.take(count)) =~= Seq::<u64>::empty());
    } else {
        let front = tables.drop_last();
        let last = tables.last();
        assert(last == tables[tables.len() - 1]);
        if tables.len() > count {
            assert forall|i: int| 0 <= i < count implies ids.contains(
                (#[trigger] front[i]).ident(),
            ) by {
                assert(front[i] == tables[i]);
            }
            assert forall|i: int| count <= i < front.len() implies !ids.contains(
                (#[trigger] front[i]).ident(),
            ) by {
                assert(front[i] == tables[i]);
            }
            lemma_retire_front(front, count, ids);
            assert(front.skip(count).push(last) =~= tables.skip(count));
            assert(front.take(count) =~= tables.take(count));
        } else {
            assert forall|i: int| 0 <= i < count - 1 implies ids.contains(
                (#[trigger] front[i]).ident(),
            ) by {
                assert(front[i] == tables[i]);
            }
            lemma_retire_front(front, count - 1, ids);
            assert(front.skip(count - 1) =~= tables.skip(count));
            assert(table_idents(front.take(count - 1)).push(last.ident()) =~= table_idents(
                tables.take(count),
            ));
        }
    }
}

} // verus!
