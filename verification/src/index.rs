//! The sparse index of a segment: sampled keys with the byte offsets of
//! their entries, and its byte format.
//!
//! An index entry is its key as a text, then the offset as an integer.
use vstd::prelude::*;
use vstd::bytes::*;
use vstd::utf8::*;
use crate::codec::{
    encode_text, encode_u64, lemma_text_round_trip, lemma_u64_len, lemma_u64_round_trip,
    parse_text, parse_u64, put_text, put_u64, read_text, read_u64, text_fits,
};

verus! {

/// Model of an index entry: sampled key and byte offset.
pub type IndexSpec = (Seq<char>, int);

/// A sampled key and the byte offset at which its entry starts.
#[derive(Debug, PartialEq, Eq)]
pub struct IndexEntry {
    pub key: String,
    pub offset: usize,
}

impl View for IndexEntry {
    type V = (Seq<char>, int);

    open spec fn view(&self) -> (Seq<char>, int) {
        (self.key@, self.offset as int)
    }
}

/// Views of a vector of index entries, in order.
pub open spec fn index_view(v: Seq<IndexEntry>) -> Seq<IndexSpec> {
    Seq::new(v.len(), |i: int| v[i]@)
}

/// Key, then offset.
pub open spec fn encode_index_entry(e: IndexSpec) -> Seq<u8> {
    encode_text(e.0) + encode_u64(e.1 as u64)
}

/// The index entries one after another.
pub open spec fn encode_index(idx: Seq<IndexSpec>) -> Seq<u8>
    decreases idx.len(),
{
    if idx.len() == 0 {
        Seq::empty()
    } else {
        encode_index(idx.drop_last()) + encode_index_entry(idx.last())
    }
}

/// Reads an index entry at `pos`, not reading at or beyond `end`.
pub open spec fn parse_index_entry(data: Seq<u8>, pos: int, end: int) -> Option<(IndexSpec, int)> {
    match parse_text(data, pos, end) {
        Some((k, p)) => match parse_u64(data, p, end) {
            Some((off, q)) => Some(((k, off as int), q)),
            None => None,
        },
        None => None,
    }
}

/// Reads index entries from `pos` until exactly `end`.
pub open spec fn parse_index(data: Seq<u8>, pos: int, end: int) -> Option<Seq<IndexSpec>>
    decreases end - pos,
{
    if pos == end && 0 <= pos <= data.len() {
        Some(Seq::empty())
    } else {
        match parse_index_entry(data, pos, end) {
            Some((e, p)) => {
                if pos < p {
                    match parse_index(data, p, end) {
                        Some(rest) => Some(seq![e] + rest),
                        None => None,
                    }
                } else {
                    None
                }
            },
            None => None,
        }
    }
}

pub proof fn lemma_parse_index_entry_bounds(data: Seq<u8>, pos: int, end: int)
    requires
        parse_index_entry(data, pos, end) is Some,
    ensures
        0 <= pos,
        pos + 16 <= parse_index_entry(data, pos, end).unwrap().1 <= end,
        end <= data.len(),
        0 <= parse_index_entry(data, pos, end).unwrap().0.1 <= u64::MAX,
{
}

/// Reading an index entry looks at no byte at or beyond where it stops.
pub proof fn lemma_parse_index_entry_local(
    data: Seq<u8>,
    pos: int,
    end: int,
    other: Seq<u8>,
    limit: int,
)
    requires
        parse_index_entry(data, pos, end) is Some,
        parse_index_entry(data, pos, end).unwrap().1 <= limit <= other.len(),
        other.take(parse_index_entry(data, pos, end).unwrap().1) == data.take(
            parse_index_entry(data, pos, end).unwrap().1,
        ),
    ensures
        parse_index_entry(other, pos, limit) == parse_index_entry(data, pos, end),
{
    let stop = parse_index_entry(data, pos, end).unwrap().1;
    let a = data.take(stop);
    let b = other.take(stop);
    assert forall|i: int, j: int| 0 <= i <= j <= stop implies #[trigger] other.subrange(i, j)
        == data.subrange(i, j) by {
        assert(other.subrange(i, j) =~= b.subrange(i, j));
        assert(data.subrange(i, j) =~= a.subrange(i, j));
    }
    let (n, p) = parse_u64(data, pos, end).unwrap();
    assert(other.subrange(pos, pos + 8) == data.subrange(pos, pos + 8));
    assert(other.subrange(p, p + n) == data.subrange(p, p + n));
    assert(other.subrange(p + n, p + n + 8) == data.subrange(p + n, p + n + 8));
}

/// Reading an index looks at no byte at or beyond its limit.
pub proof fn lemma_parse_index_local(data: Seq<u8>, pos: int, end: int, other: Seq<u8>)
    requires
        parse_index(data, pos, end) is Some,
        end <= other.len(),
        other.take(end) == data.take(end),
    ensures
        parse_index(other, pos, end) == parse_index(data, pos, end),
    decreases end - pos,
{
    if pos == end {
    } else {
        lemma_parse_index_entry_bounds(data, pos, end);
        let p = parse_index_entry(data, pos, end).unwrap().1;
        assert(other.take(p) =~= other.take(end).take(p));
        assert(data.take(p) =~= data.take(end).take(p));
        lemma_parse_index_entry_local(data, pos, end, other, end);
        lemma_parse_index_local(data, p, end, other);
    }
}

/// An index followed by one more entry that ends at `c` is an index.
pub proof fn lemma_parse_index_extend(data: Seq<u8>, a: int, b: int, c: int)
    requires
        parse_index(data, a, b) is Some,
        parse_index_entry(data, b, c) is Some,
        parse_index_entry(data, b, c).unwrap().1 == c,
    ensures
        parse_index(data, a, c) == Some(
            parse_index(data, a, b).unwrap().push(parse_index_entry(data, b, c).unwrap().0),
        ),
    decreases b - a,
{
    lemma_parse_index_entry_bounds(data, b, c);
    let r = parse_index_entry(data, b, c).unwrap().0;
    let s1 = parse_index(data, a, b).unwrap();
    if a == b {
        assert(parse_index(data, c, c) == Some(Seq::<IndexSpec>::empty()));
        assert(seq![r] + Seq::<IndexSpec>::empty() =~= s1.push(r));
    } else {
        lemma_parse_index_entry_bounds(data, a, b);
        let (first, p) = parse_index_entry(data, a, b).unwrap();
        lemma_parse_index_entry_local(data, a, b, data, c);
        lemma_parse_index_extend(data, p, b, c);
        let rest = parse_index(data, p, b).unwrap();
        assert(seq![first] + rest.push(r) =~= s1.push(r));
    }
}

/// An index read up to a boundary inside a longer index is the start of the
/// longer one, and the rest reads from the boundary.
pub proof fn lemma_parse_index_split(data: Seq<u8>, a: int, b: int, c: int)
    requires
        parse_index(data, a, b) is Some,
        parse_index(data, a, c) is Some,
        b <= c,
    ensures
        parse_index(data, b, c) is Some,
        parse_index(data, a, c).unwrap() == parse_index(data, a, b).unwrap() + parse_index(
            data,
            b,
            c,
        ).unwrap(),
    decreases b - a,
{
    let s1 = parse_index(data, a, b).unwrap();
    let s = parse_index(data, a, c).unwrap();
    if a == b {
        assert(s1 + s =~= s);
    } else {
        lemma_parse_index_entry_bounds(data, a, b);
        let (r, p) = parse_index_entry(data, a, b).unwrap();
        lemma_parse_index_entry_local(data, a, b, data, c);
        lemma_parse_index_split(data, p, b, c);
        let rest1 = parse_index(data, p, b).unwrap();
        let rest2 = parse_index(data, b, c).unwrap();
        assert(seq![r] + (rest1 + rest2) =~= s1 + rest2);
    }
}

/// Writing one more index entry after an index that reads back gives an
/// index that reads back with the entry at its end.
pub proof fn lemma_parse_index_push(
    data: Seq<u8>,
    start: int,
    grown: Seq<u8>,
    e: IndexSpec,
)
    requires
        parse_index(data, start, data.len() as int) is Some,
        text_fits(e.0),
        0 <= e.1 <= u64::MAX,
        grown == data + encode_index_entry(e),
    ensures
        parse_index(grown, start, grown.len() as int) == Some(
            parse_index(data, start, data.len() as int).unwrap().push(e),
        ),
{
    let end = data.len() as int;
    let stop = grown.len() as int;
    assert(grown.take(end) =~= data.take(end));
    lemma_parse_index_local(data, start, end, grown);
    lemma_u64_len(e.1 as u64);
    lemma_u64_len(encode_utf8(e.0).len() as u64);
    let head = encode_text(e.0);
    assert(grown.subrange(end, end + head.len()) =~= head);
    lemma_text_round_trip(grown, end, stop, e.0);
    assert(grown.subrange(end + head.len(), end + head.len() + 8) =~= encode_u64(e.1 as u64));
    lemma_u64_round_trip(grown, end + head.len(), stop, e.1 as u64);
    lemma_parse_index_extend(grown, start, end, stop);
}

/// Appends an index entry.
pub fn put_index_entry(out: &mut Vec<u8>, e: &IndexEntry)
    ensures
        final(out)@ == old(out)@ + encode_index_entry(e@),
        text_fits(e.key@),
{
    put_text(out, e.key.as_str());
    put_u64(out, e.offset as u64);
    assert(out@ =~= old(out)@ + encode_index_entry(e@));
}

/// Reads an index entry at `pos`. An offset that no machine word can hold
/// is refused.
pub fn read_index_entry(data: &[u8], pos: usize, end: usize) -> (r: Option<(IndexEntry, usize)>)
    requires
        end <= data@.len(),
    ensures
        match r {
            Some((e, p)) => parse_index_entry(data@, pos as int, end as int) == Some(
                (e@, p as int),
            ),
            None => match parse_index_entry(data@, pos as int, end as int) {
                Some((e, p)) => e.1 > usize::MAX,
                None => true,
            },
        },
{
    match read_text(data, pos, end) {
        None => None,
        Some((key, p)) => match read_u64(data, p, end) {
            None => None,
            Some((off, q)) => {
                if off > usize::MAX as u64 {
                    None
                } else {
                    Some((IndexEntry { key, offset: off as usize }, q))
                }
            },
        },
    }
}

/// Reads the index that lies between two offsets. An index with an offset
/// that no machine word can hold is refused.
pub fn decode_index(data: &[u8], start: usize, end: usize) -> (r: Option<Vec<IndexEntry>>)
    requires
        start <= end <= data@.len(),
    ensures
        match r {
            Some(v) => parse_index(data@, start as int, end as int) == Some(index_view(v@)),
            None => match parse_index(data@, start as int, end as int) {
                Some(idx) => exists|k: int| 0 <= k < idx.len() && (#[trigger] idx[k]).1 > usize::MAX,
                None => true,
            },
        },
{
    let mut out: Vec<IndexEntry> = Vec::new();
    let mut pos: usize = start;
    assert(index_view(out@) =~= Seq::<IndexSpec>::empty());
    while pos < end
        invariant
            start <= pos <= end <= data@.len(),
            parse_index(data@, start as int, pos as int) == Some(index_view(out@)),
        decreases end - pos,
    {
        match read_index_entry(data, pos, end) {
            None => {
                proof {
                    if parse_index(data@, start as int, end as int) is Some {
                        lemma_parse_index_split(data@, start as int, pos as int, end as int);
                        let all = parse_index(data@, start as int, end as int).unwrap();
                        let k = index_view(out@).len() as int;
                        let bad = parse_index_entry(data@, pos as int, end as int).unwrap().0;
                        assert(all[k] == bad);
                    }
                }
                return None;
            },
            Some((e, next)) => {
                proof {
                    lemma_parse_index_entry_bounds(data@, pos as int, end as int);
                    lemma_parse_index_entry_local(
                        data@,
                        pos as int,
                        end as int,
                        data@,
                        next as int,
                    );
                    lemma_parse_index_extend(data@, start as int, pos as int, next as int);
                    assert(index_view(out@.push(e)) =~= index_view(out@).push(e@));
                }
                out.push(e);
                pos = next;
            },
        }
    }
    Some(out)
}

} // verus!
