//! Immutable sorted segments. A segment image holds the entries in strictly
//! increasing key order, then a sparse index of sampled keys with the byte
//! offsets of their entries, then a footer of two integers: the offset at
//! which the index starts and the number of index entries.
use vstd::prelude::*;
use vstd::bytes::*;
use vstd::utf8::*;
use vstd::slice::*;
use crate::codec::{
    decode_entries, encode_entries, encode_entry, encode_u64, lemma_parse_entries_bounds,
    lemma_parse_entries_join, lemma_parse_entries_local, lemma_parse_entries_push,
    lemma_parse_entries_single, lemma_parse_entries_split, lemma_parse_entry_bounds,
    lemma_parse_entry_layout, lemma_parse_entry_local, lemma_u64_len, parse_entries,
    parse_entry, put_entry, put_u64, read_entry, read_span, read_u64, read_value, skip_value,
};
use crate::entry::{
    Entry, EntrySpec, KeySpec, Lookup, Value, ValueSpec, all_below, entries_view,
    lemma_before_first, lemma_lookup_middle, lemma_lookup_split, lemma_to_map_index,
    lemma_valid_subrange, lookup, sorted, to_map, valid_entries,
};
use crate::error::StoreError;
use crate::tree::Subtree;
use crate::index::{
    IndexEntry, IndexSpec, decode_index, encode_index, index_view, lemma_parse_index_local,
    lemma_parse_index_push, parse_index, put_index_entry,
};
use crate::key::{
    KeyOrder, compare_bytes, compare_keys, key_lt, lemma_encoding_injective,
    lemma_key_lt_asymmetric, lemma_key_lt_total, lemma_key_lt_transitive,
};

verus! {

/// Number of bytes of the footer.
pub const FOOTER_LEN: usize = 16;

/// The index entry points at an entry of the body: its offset is the end of
/// a run of entries that starts the body, and the entry that begins there
/// has the sampled key.
pub open spec fn starts_at(data: Seq<u8>, e: IndexSpec, body_end: int) -> bool {
    &&& 0 <= e.1 < body_end
    &&& parse_entries(data, 0, e.1) is Some
    &&& parse_entry(data, e.1, body_end) is Some
    &&& parse_entry(data, e.1, body_end).unwrap().0.0 == e.0
}

/// The sparse index fits the body: there is an index entry exactly when
/// there is an entry, the first index entry points at the first entry, every
/// index entry points at an entry with its key, and offsets and keys
/// strictly increase along the index.
pub open spec fn block_starts(data: Seq<u8>, idx: Seq<IndexSpec>, body_end: int) -> bool {
    &&& (idx.len() == 0 <==> body_end == 0)
    &&& (idx.len() > 0 ==> idx[0].1 == 0)
    &&& forall|j: int| 0 <= j < idx.len() ==> starts_at(data, #[trigger] idx[j], body_end)
    &&& forall|i: int, j: int|
        0 <= i < j < idx.len() ==> (#[trigger] idx[i]).1 < (#[trigger] idx[j]).1 && key_lt(
            idx[i].0,
            idx[j].0,
        )
}

/// Where the body of a segment image ends, as its footer says.
pub open spec fn segment_body_end(image: Seq<u8>) -> int {
    spec_u64_from_le_bytes(image.subrange(image.len() - 16, image.len() - 8)) as int
}

/// The number of index entries of a segment image, as its footer says.
pub open spec fn segment_index_count(image: Seq<u8>) -> int {
    spec_u64_from_le_bytes(image.subrange(image.len() - 8, image.len() as int)) as int
}

/// The sparse index of a segment image.
pub open spec fn segment_index(image: Seq<u8>) -> Seq<IndexSpec> {
    parse_index(image, segment_body_end(image), image.len() - 16).unwrap()
}

/// The entries of a segment image, in key order.
pub open spec fn segment_entries(image: Seq<u8>) -> Seq<EntrySpec> {
    parse_entries(image, 0, segment_body_end(image)).unwrap()
}

/// The image is a segment: a footer, an index of as many entries as the
/// footer says, a body that reads back as a well-formed run of entries, and
/// an index that fits the body.
pub open spec fn segment_ok(image: Seq<u8>) -> bool {
    &&& image.len() >= 16
    &&& segment_body_end(image) <= image.len() - 16
    &&& parse_index(image, segment_body_end(image), image.len() - 16) is Some
    &&& segment_index(image).len() == segment_index_count(image)
    &&& parse_entries(image, 0, segment_body_end(image)) is Some
    &&& valid_entries(segment_entries(image))
    &&& block_starts(image, segment_index(image), segment_body_end(image))
}

/// The sparse index that sampling every `interval`-th entry of a run gives,
/// starting with the first: the key of each sampled entry with the number
/// of body bytes before it.
pub open spec fn sampled(entries: Seq<EntrySpec>, interval: int) -> Seq<IndexSpec>
    decreases entries.len(),
{
    if entries.len() == 0 {
        Seq::empty()
    } else {
        let front = sampled(entries.drop_last(), interval);
        if (entries.len() - 1) % interval == 0 {
            front.push((entries.last().0, encode_entries(entries.drop_last()).len() as int))
        } else {
            front
        }
    }
}

/// The bytes of the segment that holds `entries` with every `interval`-th
/// entry sampled: body, index, and the footer with the length of the body
/// and the number of index entries.
pub open spec fn segment_image(entries: Seq<EntrySpec>, interval: int) -> Seq<u8> {
    encode_entries(entries) + encode_index(sampled(entries, interval)) + encode_u64(
        encode_entries(entries).len() as u64,
    ) + encode_u64(sampled(entries, interval).len() as u64)
}

/// An index entry that points into a body still does when bytes beyond the
/// body change and the body grows.
pub proof fn lemma_starts_at_local(
    data: Seq<u8>,
    e: IndexSpec,
    body_end: int,
    other: Seq<u8>,
    limit: int,
)
    requires
        starts_at(data, e, body_end),
        body_end <= limit <= other.len(),
        other.take(body_end) == data.take(body_end),
    ensures
        starts_at(other, e, limit),
        parse_entry(other, e.1, limit) == parse_entry(data, e.1, body_end),
{
    lemma_parse_entry_bounds(data, e.1, body_end);
    let stop = parse_entry(data, e.1, body_end).unwrap().1;
    assert(other.take(e.1) =~= other.take(body_end).take(e.1));
    assert(data.take(e.1) =~= data.take(body_end).take(e.1));
    lemma_parse_entries_local(data, 0, e.1, other);
    assert(other.take(stop) =~= other.take(body_end).take(stop));
    assert(data.take(stop) =~= data.take(body_end).take(stop));
    lemma_parse_entry_local(data, e.1, body_end, other, limit);
}

/// The entry at a boundary inside a run: it is the entry of the run whose
/// position is the number of entries before the boundary.
pub proof fn lemma_boundary_entry(data: Seq<u8>, off: int, end: int)
    requires
        parse_entries(data, 0, end) is Some,
        parse_entries(data, 0, off) is Some,
        off < end,
    ensures
        parse_entries(data, off, end) is Some,
        parse_entry(data, off, end) is Some,
        parse_entries(data, 0, off).unwrap().len() < parse_entries(data, 0, end).unwrap().len(),
        parse_entries(data, 0, end).unwrap() == parse_entries(data, 0, off).unwrap()
            + parse_entries(data, off, end).unwrap(),
        parse_entry(data, off, end).unwrap().0 == parse_entries(data, 0, end).unwrap()[parse_entries(
            data,
            0,
            off,
        ).unwrap().len() as int],
{
    lemma_parse_entries_split(data, 0, off, end);
    lemma_parse_entries_bounds(data, off, end);
}

/// Counting entries within a block: one more entry moves the count on, or
/// back to the start of a block.
proof fn lemma_count_step(n: int, interval: int, at: int)
    requires
        0 <= n,
        0 < interval,
        at == n % interval,
    ensures
        0 <= at < interval,
        (n + 1) % interval == (if at + 1 == interval {
            0
        } else {
            at + 1
        }),
{
    vstd::arithmetic::div_mod::lemma_fundamental_div_mod(n, interval);
    vstd::arithmetic::div_mod::lemma_mod_pos_bound(n, interval);
    let q = n / interval;
    assert(n == q * interval + at) by (nonlinear_arith)
        requires
            n == interval * q + at,
    ;
    if at + 1 == interval {
        assert(n + 1 == (q + 1) * interval + 0) by (nonlinear_arith)
            requires
                n == q * interval + at,
                at + 1 == interval,
        ;
        vstd::arithmetic::div_mod::lemma_fundamental_div_mod_converse(n + 1, interval, q + 1, 0);
    } else {
        vstd::arithmetic::div_mod::lemma_fundamental_div_mod_converse(
            n + 1,
            interval,
            q,
            at + 1,
        );
    }
}

/// Writes a segment entry by entry.
#[derive(Debug)]
pub struct SegmentWriter {
    id: u64,
    interval: usize,
    data: Vec<u8>,
    index: Vec<IndexEntry>,
    in_block: usize,
}

impl SegmentWriter {
    /// The identifier of the segment being written.
    pub closed spec fn ident(&self) -> u64 {
        self.id
    }

    /// The body written so far.
    pub closed spec fn body(&self) -> Seq<u8> {
        self.data@
    }

    /// Every how many entries one is sampled into the sparse index.
    pub closed spec fn every(&self) -> int {
        self.interval as int
    }

    /// The entries written so far.
    pub open spec fn written(&self) -> Seq<EntrySpec> {
        parse_entries(self.body(), 0, self.body().len() as int).unwrap()
    }

    /// The body reads back as a well-formed run, and the index built so far
    /// fits it.
    pub closed spec fn wf(&self) -> bool {
        &&& self.interval > 0
        &&& self.in_block < self.interval
        &&& self.in_block == (self.written().len() as int) % (self.interval as int)
        &&& index_view(self.index@) == sampled(self.written(), self.interval as int)
        &&& parse_entries(self.data@, 0, self.data@.len() as int) is Some
        &&& valid_entries(self.written())
        &&& self.data@ == encode_entries(self.written())
        &&& block_starts(self.data@, index_view(self.index@), self.data@.len() as int)
    }

    /// A writer for segment `id` that samples every `interval`-th entry into
    /// the sparse index, starting with the first.
    pub fn new(id: u64, interval: usize) -> (w: SegmentWriter)
        requires
            interval > 0,
        ensures
            w.wf(),
            w.ident() == id,
            w.every() == interval,
            w.written() == Seq::<EntrySpec>::empty(),
            w.body() == Seq::<u8>::empty(),
    {
        let w = SegmentWriter { id, interval, data: Vec::new(), index: Vec::new(), in_block: 0 };
        proof {
            assert(w.written() =~= Seq::<EntrySpec>::empty());
            assert(w.data@ =~= encode_entries(w.written()));
            assert(index_view(w.index@) =~= sampled(w.written(), interval as int));
        }
        w
    }

    /// Number of body bytes written so far.
    pub fn body_len(&self) -> (n: usize)
        ensures
            n == self.body().len(),
    {
        self.data.len()
    }

    /// Appends an entry whose key follows every key written so far.
    pub fn push(&mut self, key: &str, value: &Value)
        requires
            old(self).wf(),
            valid_entries(old(self).written().push((key@, value@))),
        ensures
            final(self).wf(),
            final(self).ident() == old(self).ident(),
            final(self).every() == old(self).every(),
            final(self).written() == old(self).written().push((key@, value@)),
            final(self).body() == old(self).body() + encode_entry((key@, value@)),
    {
        let ghost e = (key@, value@);
        let ghost before = self.data@;
        let ghost w = self.written();
        let ghost idx = index_view(self.index@);
        let offset = self.data.len();
        assert(w.push(e)[w.len() as int] == e);
        if self.in_block == 0 {
            self.index.push(IndexEntry { key: key.to_owned(), offset });
        }
        put_entry(&mut self.data, key, value);
        self.in_block = if self.in_block + 1 == self.interval {
            0
        } else {
            self.in_block + 1
        };
        proof {
            let grown = self.data@;
            let n = before.len() as int;
            let m = grown.len() as int;
            lemma_parse_entries_push(before, 0, n, grown, e);
            assert(w.push(e).drop_last() =~= w);
            lemma_parse_entries_bounds(before, 0, n);
            lemma_count_step(w.len() as int, self.interval as int, old(self).in_block as int);
            if w.len() == 0 {
                vstd::arithmetic::div_mod::lemma_small_mod(0, self.interval as nat);
            }
            let every = self.interval as int;
            let longer = w.push(e);
            assert(longer.last() == e);
            assert(longer.drop_last() =~= w);
            assert((longer.len() - 1) % every == old(self).in_block);
            if old(self).in_block == 0 {
                assert(index_view(self.index@) =~= idx.push((key@, n)));
                assert(sampled(longer, every) == sampled(w, every).push((e.0, n)));
            } else {
                assert(index_view(self.index@) =~= idx);
                assert(sampled(longer, every) == sampled(w, every));
            }
            assert(grown.take(n) =~= before.take(n));
            let idx2 = index_view(self.index@);
            assert forall|j: int| 0 <= j < idx2.len() implies starts_at(
                grown,
                #[trigger] idx2[j],
                m,
            ) by {
                if j < idx.len() {
                    assert(idx2[j] == idx[j]);
                    lemma_starts_at_local(before, idx[j], n, grown, m);
                } else {
                    lemma_parse_entries_local(before, 0, n, grown);
                }
            }
            assert forall|i: int, j: int| 0 <= i < j < idx2.len() implies (#[trigger] idx2[i]).1 < (
            #[trigger] idx2[j]).1 && key_lt(idx2[i].0, idx2[j].0) by {
                assert(idx2[i] == idx[i]);
                if j < idx.len() {
                    assert(idx2[j] == idx[j]);
                } else {
                    assert(starts_at(before, idx[i], n));
                    lemma_boundary_entry(before, idx[i].1, n);
                    let k = parse_entries(before, 0, idx[i].1).unwrap().len() as int;
                    assert(w.push(e)[k] == w[k]);
                    assert(key_lt(w.push(e)[k].0, w.push(e)[w.len() as int].0));
                }
            }
        }
    }
}

/// An immutable sorted segment: the image of its bytes, with the sparse
/// index decoded for lookups.
#[derive(Debug)]
pub struct SSTable {
    id: u64,
    data: Vec<u8>,
    index: Vec<IndexEntry>,
    body_end: usize,
}

impl View for SSTable {
    type V = Map<KeySpec, ValueSpec>;

    open spec fn view(&self) -> Map<KeySpec, ValueSpec> {
        to_map(self.entries())
    }
}

impl SSTable {
    /// The identifier of the segment; a higher one is newer.
    pub closed spec fn ident(&self) -> u64 {
        self.id
    }

    /// The bytes of the segment.
    pub closed spec fn image(&self) -> Seq<u8> {
        self.data@
    }

    /// The entries of the segment, in key order.
    pub open spec fn entries(&self) -> Seq<EntrySpec> {
        segment_entries(self.image())
    }

    /// The image is a segment, and the decoded index and body length are
    /// those of the image.
    pub closed spec fn wf(&self) -> bool {
        &&& segment_ok(self.data@)
        &&& self.body_end == segment_body_end(self.data@)
        &&& index_view(self.index@) == segment_index(self.data@)
    }

    /// The identifier of the segment.
    pub fn id(&self) -> (id: u64)
        ensures
            id == self.ident(),
    {
        self.id
    }

    /// The bytes of the segment.
    pub fn as_bytes(&self) -> (b: &Vec<u8>)
        ensures
            b@ == self.image(),
    {
        &self.data
    }

    /// Number of body bytes: the entries without index and footer.
    pub fn body_len(&self) -> (n: usize)
        requires
            self.wf(),
        ensures
            n == segment_body_end(self.image()),
    {
        self.body_end
    }
}

/// What a well-formed writer holds, seen from outside.
pub proof fn lemma_writer_wf(w: SegmentWriter)
    requires
        w.wf(),
    ensures
        parse_entries(w.body(), 0, w.body().len() as int) is Some,
        valid_entries(w.written()),
        w.body() == encode_entries(w.written()),
        w.body().len() == 0 <==> w.written().len() == 0,
{
    lemma_parse_entries_bounds(w.body(), 0, w.body().len() as int);
}

/// What a well-formed segment is, seen from outside.
pub proof fn lemma_segment_wf(t: SSTable)
    requires
        t.wf(),
    ensures
        segment_ok(t.image()),
        valid_entries(t.entries()),
{
}

/// Appends the sparse index to a body.
fn write_index(data: &mut Vec<u8>, index: &Vec<IndexEntry>)
    ensures
        final(data)@ == old(data)@ + encode_index(index_view(index@)),
        parse_index(final(data)@, old(data)@.len() as int, final(data)@.len() as int) == Some(
            index_view(index@),
        ),
{
    let ghost body = data@;
    let ghost idx = index_view(index@);
    let ghost start = data@.len() as int;
    let mut i: usize = 0;
    proof {
        assert(idx.take(0) =~= Seq::<IndexSpec>::empty());
        assert(data@ =~= body + encode_index(idx.take(0)));
    }
    while i < index.len()
        invariant
            i <= index.len(),
            idx == index_view(index@),
            start == body.len(),
            data@ == body + encode_index(idx.take(i as int)),
            parse_index(data@, start, data@.len() as int) == Some(idx.take(i as int)),
        decreases index.len() - i,
    {
        let ghost before = data@;
        put_index_entry(data, &index[i]);
        proof {
            lemma_parse_index_push(before, start, data@, idx[i as int]);
            assert(idx.take(i as int).push(idx[i as int]) =~= idx.take(i + 1));
            assert(idx.take(i + 1).drop_last() =~= idx.take(i as int));
            assert(data@ =~= body + encode_index(idx.take(i + 1)));
        }
        i = i + 1;
    }
    proof {
        assert(idx.take(index.len() as int) =~= idx);
    }
}

/// A body that reads back, with an index that fits it and the footer that
/// tells where the index starts and how long it is, is a segment.
proof fn lemma_finished_image(body: Seq<u8>, idx: Seq<IndexSpec>, image: Seq<u8>)
    requires
        body.len() <= usize::MAX,
        idx.len() <= usize::MAX,
        body_ok(body, idx, body.len() as int),
        parse_index(body + encode_index(idx), body.len() as int, (body + encode_index(idx)).len() as int)
            == Some(idx),
        image == body + encode_index(idx) + encode_u64(body.len() as u64) + encode_u64(
            idx.len() as u64,
        ),
    ensures
        segment_ok(image),
        segment_body_end(image) == body.len(),
        segment_index(image) == idx,
        segment_entries(image) == parse_entries(body, 0, body.len() as int).unwrap(),
        image.take(body.len() as int) == body,
{
    let body_end = body.len() as int;
    let with_index = body + encode_index(idx);
    let index_end = with_index.len() as int;
    let len = image.len() as int;
    lemma_u64_len(body.len() as u64);
    lemma_u64_len(idx.len() as u64);
    assert(len == index_end + 16);
    assert(image.subrange(len - 16, len - 8) =~= encode_u64(body.len() as u64));
    assert(image.subrange(len - 8, len) =~= encode_u64(idx.len() as u64));
    assert(image.take(index_end) =~= with_index.take(index_end));
    lemma_parse_index_local(with_index, body_end, index_end, image);
    assert(image.take(body_end) =~= body);
    assert(body.take(body_end) =~= body);
    lemma_parse_entries_local(body, 0, body_end, image);
    assert forall|j: int| 0 <= j < idx.len() implies starts_at(image, #[trigger] idx[j], body_end) by {
        lemma_starts_at_local(body, idx[j], body_end, image, body_end);
    }
}

impl SegmentWriter {
    /// Completes the segment: writes the sparse index and the footer after
    /// the body.
    pub fn finish(self) -> (t: SSTable)
        requires
            self.wf(),
        ensures
            t.wf(),
            t.ident() == self.ident(),
            t.entries() == self.written(),
            t.image() == segment_image(self.written(), self.every()),
            t.image().take(self.body().len() as int) == self.body(),
            segment_body_end(t.image()) == self.body().len(),
    {
        let id = self.id;
        let index = self.index;
        let mut data = self.data;
        let ghost body = data@;
        let ghost idx = index_view(index@);
        let body_end = data.len();
        write_index(&mut data, &index);
        put_u64(&mut data, body_end as u64);
        put_u64(&mut data, index.len() as u64);
        proof {
            lemma_finished_image(body, idx, data@);
        }
        SSTable { id, data, index, body_end }
    }
}

/// Keys strictly increase along the index.
pub open spec fn index_sorted(idx: Seq<IndexSpec>) -> bool {
    forall|i: int, j: int| 0 <= i < j < idx.len() ==> key_lt(#[trigger] idx[i].0, #[trigger] idx[j].0)
}

/// Finds, by binary search over the sampled keys, the block that can hold
/// `key`: the last index entry whose key is not beyond `key`. There is none
/// when `key` precedes every sampled key.
pub fn find_block(index: &Vec<IndexEntry>, key: &str) -> (r: Option<usize>)
    requires
        index_sorted(index_view(index@)),
    ensures
        match r {
            Some(j) => {
                &&& j < index@.len()
                &&& !key_lt(key@, index@[j as int].key@)
                &&& j + 1 < index@.len() ==> key_lt(key@, index@[j + 1].key@)
            },
            None => index@.len() > 0 ==> key_lt(key@, index@[0].key@),
        },
{
    let ghost idx = index_view(index@);
    let mut lo: usize = 0;
    let mut hi: usize = index.len();
    while lo < hi
        invariant
            lo <= hi <= index@.len(),
            idx == index_view(index@),
            index_sorted(idx),
            forall|i: int| 0 <= i < lo ==> !key_lt(key@, (#[trigger] idx[i]).0),
            forall|i: int| hi <= i < idx.len() ==> key_lt(key@, (#[trigger] idx[i]).0),
        decreases hi - lo,
    {
        let mid = lo + (hi - lo) / 2;
        match compare_keys(key, index[mid].key.as_str()) {
            KeyOrder::Less => {
                proof {
                    assert forall|i: int| mid <= i < idx.len() implies key_lt(
                        key@,
                        (#[trigger] idx[i]).0,
                    ) by {
                        if i > mid {
                            assert(key_lt(idx[mid as int].0, idx[i].0));
                            lemma_key_lt_transitive(key@, idx[mid as int].0, idx[i].0);
                        }
                    }
                }
                hi = mid;
            },
            _ => {
                proof {
                    assert(!key_lt(key@, idx[mid as int].0)) by {
                        if key_lt(key@, idx[mid as int].0) {
                            lemma_key_lt_asymmetric(key@, idx[mid as int].0);
                        }
                    }
                    assert forall|i: int| 0 <= i < mid + 1 implies !key_lt(
                        key@,
                        (#[trigger] idx[i]).0,
                    ) by {
                        if i < mid && key_lt(key@, idx[i].0) {
                            assert(key_lt(idx[i].0, idx[mid as int].0));
                            lemma_key_lt_transitive(key@, idx[i].0, idx[mid as int].0);
                        }
                    }
                }
                lo = mid + 1;
            },
        }
    }
    if lo == 0 {
        proof {
            if index@.len() > 0 {
                assert(key_lt(key@, idx[0].0));
            }
        }
        None
    } else {
        proof {
            assert(!key_lt(key@, idx[lo - 1].0));
            if lo < index@.len() {
                assert(key_lt(key@, idx[lo as int].0));
            }
        }
        Some(lo - 1)
    }
}

/// Looks for `key` among the entries that lie between two offsets of a
/// body, reading them in order and stopping at the first key that is not
/// before `key`.
pub fn scan_block(data: &[u8], start: usize, limit: usize, key: &str) -> (r: Lookup)
    requires
        limit <= data@.len(),
        parse_entries(data@, start as int, limit as int) is Some,
        valid_entries(parse_entries(data@, start as int, limit as int).unwrap()),
    ensures
        r@ == lookup(to_map(parse_entries(data@, start as int, limit as int).unwrap()), key@),
{
    let ghost block = parse_entries(data@, start as int, limit as int).unwrap();
    let mut pos: usize = start;
    proof {
        lemma_parse_entries_bounds(data@, start as int, limit as int);
    }
    while pos < limit
        invariant
            pos <= limit <= data@.len(),
            block == parse_entries(data@, start as int, limit as int).unwrap(),
            parse_entries(data@, pos as int, limit as int) is Some,
            valid_entries(parse_entries(data@, pos as int, limit as int).unwrap()),
            lookup(to_map(parse_entries(data@, pos as int, limit as int).unwrap()), key@) == lookup(
                to_map(block),
                key@,
            ),
        decreases limit - pos,
    {
        let ghost rest = parse_entries(data@, pos as int, limit as int).unwrap();
        let ghost e = parse_entry(data@, pos as int, limit as int).unwrap().0;
        let ghost q = parse_entry(data@, pos as int, limit as int).unwrap().1;
        let ghost tail = parse_entries(data@, q, limit as int).unwrap();
        proof {
            lemma_parse_entry_layout(data@, pos as int, limit as int);
            lemma_parse_entry_bounds(data@, pos as int, limit as int);
            assert(rest == seq![e] + tail);
            assert(rest[0] == e);
            assert(tail =~= rest.subrange(1, rest.len() as int));
            lemma_valid_subrange(rest, 1, rest.len() as int);
        }
        match read_span(data, pos, limit) {
            None => {
                assert(false);
                return Lookup::Absent;
            },
            Some((from, to)) => {
                match compare_bytes(key.as_bytes(), slice_subrange(data, from, to)) {
                    KeyOrder::Equal => {
                        proof {
                            lemma_encoding_injective(key@, e.0);
                            lemma_to_map_index(rest, 0);
                        }
                        match read_value(data, to, limit) {
                            None => {
                                assert(false);
                                return Lookup::Absent;
                            },
                            Some((value, _)) => {
                                return Lookup::from_value(&value);
                            },
                        }
                    },
                    KeyOrder::Less => {
                        proof {
                            lemma_before_first(rest, key@);
                        }
                        return Lookup::Absent;
                    },
                    KeyOrder::Greater => {
                        proof {
                            assert(Seq::<EntrySpec>::empty() + seq![e] + tail =~= rest);
                            lemma_lookup_split(Seq::<EntrySpec>::empty(), e, tail, key@);
                        }
                        match skip_value(data, to, limit) {
                            None => {
                                assert(false);
                                return Lookup::Absent;
                            },
                            Some(next) => {
                                pos = next;
                            },
                        }
                    },
                }
            },
        }
    }
    proof {
        let rest = parse_entries(data@, pos as int, limit as int).unwrap();
        assert(rest =~= Seq::<EntrySpec>::empty());
    }
    Lookup::Absent
}

/// The block that the sparse index names for a key holds the key if the
/// segment does.
pub proof fn lemma_block_lookup(
    data: Seq<u8>,
    idx: Seq<IndexSpec>,
    body_end: int,
    j: int,
    key: KeySpec,
)
    requires
        parse_entries(data, 0, body_end) is Some,
        valid_entries(parse_entries(data, 0, body_end).unwrap()),
        block_starts(data, idx, body_end),
        0 <= j < idx.len(),
        !key_lt(key, idx[j].0),
        j + 1 < idx.len() ==> key_lt(key, idx[j + 1].0),
    ensures
        ({
            let limit = if j + 1 < idx.len() {
                idx[j + 1].1
            } else {
                body_end
            };
            &&& idx[j].1 < limit <= body_end
            &&& parse_entries(data, idx[j].1, limit) is Some
            &&& valid_entries(parse_entries(data, idx[j].1, limit).unwrap())
            &&& lookup(to_map(parse_entries(data, 0, body_end).unwrap()), key) == lookup(
                to_map(parse_entries(data, idx[j].1, limit).unwrap()),
                key,
            )
        }),
{
    let s = parse_entries(data, 0, body_end).unwrap();
    let off = idx[j].1;
    let limit = if j + 1 < idx.len() {
        idx[j + 1].1
    } else {
        body_end
    };
    assert(starts_at(data, idx[j], body_end));
    lemma_boundary_entry(data, off, body_end);
    let s1 = parse_entries(data, 0, off).unwrap();
    let n1 = s1.len() as int;
    assert(s[n1].0 == idx[j].0);
    assert(all_below(s1, key)) by {
        assert forall|i: int| 0 <= i < s1.len() implies key_lt((#[trigger] s1[i]).0, key) by {
            assert(s1[i] == s[i]);
            assert(key_lt(s[i].0, s[n1].0));
            lemma_key_lt_total(key, idx[j].0);
            if key != idx[j].0 {
                lemma_key_lt_transitive(s[i].0, idx[j].0, key);
            }
        }
    }
    if j + 1 < idx.len() {
        assert(starts_at(data, idx[j + 1], body_end));
        assert(idx[j].1 < idx[j + 1].1);
        lemma_boundary_entry(data, limit, body_end);
        lemma_parse_entries_split(data, 0, off, limit);
        let b = parse_entries(data, off, limit).unwrap();
        let post = parse_entries(data, limit, body_end).unwrap();
        let n2 = parse_entries(data, 0, limit).unwrap().len() as int;
        assert(s =~= s1 + b + post);
        assert(post =~= s.subrange(n2, s.len() as int));
        lemma_valid_subrange(s, n2, s.len() as int);
        assert(post[0] == s[n2]);
        lemma_before_first(post, key);
        lemma_lookup_middle(s1, b, post, key);
        assert(b =~= s.subrange(n1, n2));
        lemma_valid_subrange(s, n1, n2);
    } else {
        let b = parse_entries(data, off, body_end).unwrap();
        let post = Seq::<EntrySpec>::empty();
        assert(s =~= s1 + b + post);
        lemma_lookup_middle(s1, b, post, key);
        assert(b =~= s.subrange(n1, s.len() as int));
        lemma_valid_subrange(s, n1, s.len() as int);
    }
}

/// The keys of an index that fits a body strictly increase.
pub proof fn lemma_index_sorted(data: Seq<u8>, idx: Seq<IndexSpec>, body_end: int)
    requires
        block_starts(data, idx, body_end),
    ensures
        index_sorted(idx),
{
    assert forall|i: int, j: int| 0 <= i < j < idx.len() implies key_lt(
        #[trigger] idx[i].0,
        #[trigger] idx[j].0,
    ) by {
        assert(idx[i].1 < idx[j].1 && key_lt(idx[i].0, idx[j].0));
    }
}

/// A key that precedes the first sampled key is not in the segment.
pub proof fn lemma_before_index(data: Seq<u8>, idx: Seq<IndexSpec>, body_end: int, key: KeySpec)
    requires
        parse_entries(data, 0, body_end) is Some,
        valid_entries(parse_entries(data, 0, body_end).unwrap()),
        block_starts(data, idx, body_end),
        idx.len() > 0 ==> key_lt(key, idx[0].0),
    ensures
        lookup(to_map(parse_entries(data, 0, body_end).unwrap()), key) == None::<ValueSpec>,
{
    let s = parse_entries(data, 0, body_end).unwrap();
    if idx.len() > 0 {
        assert(starts_at(data, idx[0], body_end));
        assert(parse_entries(data, 0, 0) == Some(Seq::<EntrySpec>::empty()));
        lemma_boundary_entry(data, 0, body_end);
        assert(s[0].0 == idx[0].0);
    } else {
        lemma_parse_entries_bounds(data, 0, body_end);
    }
    lemma_before_first(s, key);
}

impl SSTable {
    /// Looks `key` up: a binary search over the sparse index finds the one
    /// block that can hold it, and that block is read in order.
    pub fn get(&self, key: &str) -> (r: Lookup)
        requires
            self.wf(),
        ensures
            r@ == lookup(self@, key@),
    {
        let ghost idx = index_view(self.index@);
        proof {
            lemma_index_sorted(self.data@, idx, self.body_end as int);
        }
        match find_block(&self.index, key) {
            None => {
                proof {
                    if idx.len() > 0 {
                        assert(idx[0] == self.index@[0]@);
                    }
                    lemma_before_index(self.data@, idx, self.body_end as int, key@);
                }
                Lookup::Absent
            },
            Some(j) => {
                proof {
                    assert(idx[j as int] == self.index@[j as int]@);
                    if j + 1 < idx.len() {
                        assert(idx[j + 1] == self.index@[j + 1]@);
                    }
                    lemma_block_lookup(self.data@, idx, self.body_end as int, j as int, key@);
                }
                let start = self.index[j].offset;
                let limit = if j < self.index.len() - 1 {
                    self.index[j + 1].offset
                } else {
                    self.body_end
                };
                scan_block(self.data.as_slice(), start, limit, key)
            },
        }
    }
}

impl SSTable {
    /// Writes the segment `id` from a sorted run of entries, sampling every
    /// `interval`-th entry into the sparse index.
    pub fn new(id: u64, entries: &Vec<Entry>, interval: usize) -> (t: SSTable)
        requires
            interval > 0,
            valid_entries(entries_view(entries@)),
        ensures
            t.wf(),
            t.ident() == id,
            t.entries() == entries_view(entries@),
            t.image() == segment_image(entries_view(entries@), interval as int),
    {
        let ghost all = entries_view(entries@);
        let mut w = SegmentWriter::new(id, interval);
        let mut i: usize = 0;
        assert(all.take(0) =~= Seq::<EntrySpec>::empty());
        while i < entries.len()
            invariant
                i <= entries@.len(),
                all == entries_view(entries@),
                valid_entries(all),
                w.wf(),
                w.ident() == id,
                w.every() == interval,
                w.written() == all.take(i as int),
            decreases entries@.len() - i,
        {
            proof {
                assert(all.take(i as int).push(all[i as int]) =~= all.take(i + 1));
                assert(all.take(i + 1) =~= all.subrange(0, i + 1));
                lemma_valid_subrange(all, 0, i + 1);
            }
            w.push(entries[i].key.as_str(), &entries[i].value);
            i = i + 1;
        }
        assert(all.take(i as int) =~= all);
        w.finish()
    }

    /// Writes the segment `id` from the entries of a tree, streamed in key
    /// order.
    pub fn from_tree(id: u64, tree: &Subtree, interval: usize) -> (t: SSTable)
        requires
            interval > 0,
            tree.wf(),
        ensures
            t.wf(),
            t.ident() == id,
            t.entries() == tree.entries(),
            t.image() == segment_image(tree.entries(), interval as int),
            t@ == tree@,
    {
        let ghost all = tree.entries();
        let mut w = SegmentWriter::new(id, interval);
        let mut it = tree.iter_sorted();
        let ghost mut n: int = 0;
        proof {
            crate::tree::lemma_wf_entries(*tree);
            assert(all.take(0) =~= Seq::<EntrySpec>::empty());
            assert(all.skip(0) =~= all);
        }
        loop
            invariant
                0 <= n <= all.len(),
                valid_entries(all),
                w.wf(),
                w.ident() == id,
                w.every() == interval,
                w.written() == all.take(n),
                it.remaining() == all.skip(n),
            ensures
                w.written() == all,
            decreases all.len() - n,
        {
            match it.next() {
                None => {
                    assert(all.take(n) =~= all);
                    break ;
                },
                Some((key, value)) => {
                    proof {
                        assert(all.skip(n)[0] == all[n]);
                        assert(all.take(n).push(all[n]) =~= all.take(n + 1));
                        assert(all.take(n + 1) =~= all.subrange(0, n + 1));
                        lemma_valid_subrange(all, 0, n + 1);
                        assert(all.skip(n).drop_first() =~= all.skip(n + 1));
                        n = n + 1;
                    }
                    w.push(key.as_str(), value);
                },
            }
        }
        w.finish()
    }

    /// The entries of the segment, in key order.
    pub fn scan(&self) -> (entries: Vec<Entry>)
        requires
            self.wf(),
        ensures
            entries_view(entries@) == self.entries(),
    {
        match decode_entries(self.data.as_slice(), 0, self.body_end) {
            Some(entries) => entries,
            None => Vec::new(),
        }
    }
}

/// The body reads back as a well-formed run of entries and the index fits it.
pub open spec fn body_ok(data: Seq<u8>, idx: Seq<IndexSpec>, body_end: int) -> bool {
    &&& parse_entries(data, 0, body_end) is Some
    &&& valid_entries(parse_entries(data, 0, body_end).unwrap())
    &&& block_starts(data, idx, body_end)
}

/// A well-formed run stays well-formed when an entry with a larger key is
/// put at its end.
pub proof fn lemma_valid_push(acc: Seq<EntrySpec>, e: EntrySpec)
    requires
        valid_entries(acc),
        acc.len() > 0 ==> key_lt(acc.last().0, e.0),
        e.0.len() > 0,
    ensures
        valid_entries(acc.push(e)),
{
    let s = acc.push(e);
    assert forall|i: int, j: int| 0 <= i < j < s.len() implies key_lt(
        #[trigger] s[i].0,
        #[trigger] s[j].0,
    ) by {
        if j < acc.len() {
            assert(key_lt(acc[i].0, acc[j].0));
        } else if i < acc.len() - 1 {
            assert(key_lt(acc[i].0, acc[acc.len() - 1].0));
            lemma_key_lt_transitive(acc[i].0, acc.last().0, e.0);
        }
    }
    assert forall|i: int| 0 <= i < s.len() implies (#[trigger] s[i]).0.len() > 0 by {
        if i < acc.len() {
            assert(acc[i].0.len() > 0);
        }
    }
}

/// In a well-formed body, the entry at a boundary has a larger key than the
/// entry before it.
proof fn lemma_body_in_order(data: Seq<u8>, pos: int, body_end: int)
    requires
        parse_entries(data, 0, body_end) is Some,
        valid_entries(parse_entries(data, 0, body_end).unwrap()),
        parse_entries(data, 0, pos) is Some,
        0 < pos < body_end,
    ensures
        parse_entry(data, pos, body_end) is Some,
        parse_entries(data, 0, pos).unwrap().len() > 0,
        key_lt(
            parse_entries(data, 0, pos).unwrap().last().0,
            parse_entry(data, pos, body_end).unwrap().0.0,
        ),
{
    let s = parse_entries(data, 0, body_end).unwrap();
    let acc = parse_entries(data, 0, pos).unwrap();
    lemma_boundary_entry(data, pos, body_end);
    lemma_parse_entries_bounds(data, 0, pos);
    let n = acc.len() as int;
    assert(s[n - 1] == acc[n - 1]);
    assert(key_lt(s[n - 1].0, s[n].0));
}

/// No boundary of a body lies strictly inside an entry.
proof fn lemma_no_boundary_inside(data: Seq<u8>, pos: int, off: int, body_end: int)
    requires
        parse_entries(data, 0, pos) is Some,
        parse_entries(data, 0, off) is Some,
        parse_entry(data, pos, body_end) is Some,
        pos < off,
    ensures
        parse_entry(data, pos, body_end).unwrap().1 <= off,
{
    lemma_parse_entries_split(data, 0, pos, off);
    lemma_parse_entries_bounds(data, pos, off);
    lemma_parse_entry_bounds(data, pos, off);
    lemma_parse_entry_bounds(data, pos, body_end);
    lemma_parse_entry_local(data, pos, off, data, body_end);
}

/// The key that an index entry samples is the key of an entry before any
/// later boundary.
proof fn lemma_sampled_key(data: Seq<u8>, e: IndexSpec, pos: int, body_end: int)
    requires
        starts_at(data, e, body_end),
        parse_entries(data, 0, pos) is Some,
        e.1 < pos <= body_end,
    ensures
        exists|n: int|
            0 <= n < parse_entries(data, 0, pos).unwrap().len() && (#[trigger] parse_entries(
                data,
                0,
                pos,
            ).unwrap()[n]).0 == e.0,
{
    lemma_boundary_entry(data, e.1, pos);
    lemma_parse_entry_bounds(data, e.1, pos);
    lemma_parse_entry_local(data, e.1, pos, data, body_end);
    let n = parse_entries(data, 0, e.1).unwrap().len() as int;
    assert(parse_entries(data, 0, pos).unwrap()[n].0 == e.0);
}

/// Validates a body against a sparse index: the entries read back in strictly
/// increasing key order, and every index entry points at an entry with its
/// key, in order.
pub fn validate_body(data: &[u8], body_end: usize, index: &Vec<IndexEntry>) -> (ok: bool)
    requires
        body_end <= data@.len(),
    ensures
        ok == body_ok(data@, index_view(index@), body_end as int),
{
    let ghost idx = index_view(index@);
    if (index.len() == 0) != (body_end == 0) {
        return false;
    }
    if index.len() > 0 && index[0].offset != 0 {
        assert(idx[0].1 != 0);
        return false;
    }
    let mut pos: usize = 0;
    let mut j: usize = 0;
    let mut prev: Option<String> = None;
    while pos < body_end
        invariant
            pos <= body_end <= data@.len(),
            j <= index@.len(),
            idx == index_view(index@),
            idx.len() == 0 <==> body_end == 0,
            idx.len() > 0 ==> idx[0].1 == 0,
            parse_entries(data@, 0, pos as int) is Some,
            valid_entries(parse_entries(data@, 0, pos as int).unwrap()),
            match prev {
                Some(k) => pos > 0 && k@ == parse_entries(data@, 0, pos as int).unwrap().last().0,
                None => pos == 0,
            },
            forall|i: int| 0 <= i < j ==> starts_at(data@, #[trigger] idx[i], body_end as int),
            forall|i: int| 0 <= i < j ==> (#[trigger] idx[i]).1 < pos,
            forall|a: int, b: int|
                0 <= a < b < j ==> (#[trigger] idx[a]).1 < (#[trigger] idx[b]).1 && key_lt(
                    idx[a].0,
                    idx[b].0,
                ),
            j < idx.len() ==> idx[j as int].1 >= pos,
        decreases body_end - pos,
    {
        let ghost acc = parse_entries(data@, 0, pos as int).unwrap();
        proof {
            lemma_parse_entries_bounds(data@, 0, pos as int);
        }
        match read_entry(data, pos, body_end) {
            None => {
                proof {
                    if parse_entries(data@, 0, body_end as int) is Some {
                        lemma_parse_entries_split(data@, 0, pos as int, body_end as int);
                    }
                }
                return false;
            },
            Some((e, next)) => {
                let in_order = match &prev {
                    None => true,
                    Some(k) => match compare_keys(k.as_str(), e.key.as_str()) {
                        KeyOrder::Less => true,
                        _ => false,
                    },
                };
                if !in_order {
                    proof {
                        if body_ok(data@, idx, body_end as int) {
                            lemma_body_in_order(data@, pos as int, body_end as int);
                        }
                    }
                    return false;
                }
                proof {
                    lemma_parse_entry_bounds(data@, pos as int, body_end as int);
                    lemma_parse_entry_local(
                        data@,
                        pos as int,
                        body_end as int,
                        data@,
                        next as int,
                    );
                    lemma_parse_entries_single(data@, pos as int, next as int);
                    lemma_parse_entries_join(data@, 0, pos as int, next as int);
                    assert(acc + seq![e@] =~= acc.push(e@));
                    lemma_valid_push(acc, e@);
                }
                let ghost grown = acc.push(e@);
                if j < index.len() && index[j].offset == pos {
                    match compare_keys(index[j].key.as_str(), e.key.as_str()) {
                        KeyOrder::Equal => {},
                        _ => {
                            proof {
                                assert(idx[j as int] == index@[j as int]@);
                                assert(!starts_at(data@, idx[j as int], body_end as int));
                            }
                            return false;
                        },
                    }
                    proof {
                        assert(idx[j as int] == index@[j as int]@);
                        assert(starts_at(data@, idx[j as int], body_end as int));
                        assert forall|a: int, b: int| 0 <= a < b < j + 1 implies (
                        #[trigger] idx[a]).1 < (#[trigger] idx[b]).1 && key_lt(
                            idx[a].0,
                            idx[b].0,
                        ) by {
                            if b == j {
                                lemma_sampled_key(data@, idx[a], pos as int, body_end as int);
                                let n = choose|n: int|
                                    0 <= n < acc.len() && (#[trigger] acc[n]).0 == idx[a].0;
                                assert(grown[n] == acc[n]);
                                assert(grown[acc.len() as int] == e@);
                                assert(key_lt(grown[n].0, grown[acc.len() as int].0));
                            }
                        }
                    }
                    j = j + 1;
                }
                if j < index.len() && index[j].offset < next {
                    proof {
                        assert(idx[j as int] == index@[j as int]@);
                        if body_ok(data@, idx, body_end as int) {
                            let off = idx[j as int].1;
                            assert(starts_at(data@, idx[j as int], body_end as int));
                            if j > 0 {
                                assert(idx[j - 1].1 < idx[j as int].1);
                            }
                            assert(pos < off);
                            lemma_no_boundary_inside(data@, pos as int, off, body_end as int);
                        }
                    }
                    return false;
                }
                let Entry { key, value: _ } = e;
                prev = Some(key);
                pos = next;
            },
        }
    }
    if j < index.len() {
        proof {
            assert(!starts_at(data@, idx[j as int], body_end as int));
        }
        return false;
    }
    true
}

/// The index of a segment image cannot be held when one of its offsets is
/// beyond every machine word.
proof fn lemma_oversized_offset(data: Seq<u8>, idx: Seq<IndexSpec>, body_end: int, k: int)
    requires
        0 <= k < idx.len(),
        idx[k].1 > usize::MAX,
        body_end <= usize::MAX,
    ensures
        !block_starts(data, idx, body_end),
{
    assert(!starts_at(data, idx[k], body_end));
}

impl SSTable {
    /// Takes over the image of a segment read from storage, after validating
    /// it against the format: footer, index, entries in strictly increasing
    /// key order, and an index that fits them.
    pub fn from_bytes(id: u64, data: Vec<u8>) -> (r: Result<SSTable, StoreError>)
        ensures
            match r {
                Ok(t) => {
                    &&& segment_ok(data@)
                    &&& t.wf()
                    &&& t.ident() == id
                    &&& t.image() == data@
                },
                Err(e) => e == StoreError::Corruption && !segment_ok(data@),
            },
    {
        let len = data.len();
        if len < FOOTER_LEN {
            return Err(StoreError::Corruption);
        }
        let index_end = len - FOOTER_LEN;
        let body_end = match read_u64(data.as_slice(), index_end, len) {
            None => {
                return Err(StoreError::Corruption);
            },
            Some((n, _)) => n,
        };
        let count = match read_u64(data.as_slice(), index_end + 8, len) {
            None => {
                return Err(StoreError::Corruption);
            },
            Some((n, _)) => n,
        };
        if body_end > index_end as u64 {
            return Err(StoreError::Corruption);
        }
        let body_end = body_end as usize;
        let index = match decode_index(data.as_slice(), body_end, index_end) {
            None => {
                proof {
                    if parse_index(data@, body_end as int, index_end as int) is Some {
                        let idx = parse_index(data@, body_end as int, index_end as int).unwrap();
                        let k = choose|k: int| 0 <= k < idx.len() && (#[trigger] idx[k]).1 > usize::MAX;
                        lemma_oversized_offset(data@, idx, body_end as int, k);
                    }
                }
                return Err(StoreError::Corruption);
            },
            Some(index) => index,
        };
        if index.len() as u64 != count {
            return Err(StoreError::Corruption);
        }
        if !validate_body(data.as_slice(), body_end, &index) {
            return Err(StoreError::Corruption);
        }
        Ok(SSTable { id, data, index, body_end })
    }
}

/// A segment that was written reads back: its image is a well-formed segment
/// and yields the same entries.
pub proof fn lemma_written_segment_readable(t: SSTable)
    requires
        t.wf(),
    ensures
        segment_ok(t.image()),
        segment_entries(t.image()) == t.entries(),
{
}

} // verus!
