//! The write-ahead log: every change is appended here before the in-memory
//! index sees it, and replaying the log rebuilds the index.
//!
//! The log is held as the image of its bytes. A record is a sequence number
//! followed by an entry.
use vstd::prelude::*;
use vstd::bytes::*;
use crate::codec::{
    encodable, encode_entry, encode_u64, lemma_entry_round_trip, lemma_parse_entry_bounds,
    lemma_parse_entry_local, lemma_u64_len, lemma_u64_round_trip, parse_entry, parse_u64,
    put_entry, put_u64, read_entry, read_u64,
};
use crate::entry::{Entry, KeySpec, Value, ValueSpec};
use crate::error::StoreError;

verus! {

/// Model of a log record: sequence number and entry.
pub type RecordSpec = (u64, (Seq<char>, Option<Seq<char>>));

/// One change as the log records it.
#[derive(Debug, PartialEq, Eq)]
pub struct WalRecord {
    pub sequence_number: u64,
    pub key: String,
    pub value: Value,
}

impl View for WalRecord {
    type V = (u64, (Seq<char>, Option<Seq<char>>));

    open spec fn view(&self) -> (u64, (Seq<char>, Option<Seq<char>>)) {
        (self.sequence_number, (self.key@, self.value@))
    }
}

/// Views of a vector of records, in order.
pub open spec fn records_view(v: Seq<WalRecord>) -> Seq<RecordSpec> {
    Seq::new(v.len(), |i: int| v[i]@)
}

/// Sequence number, then entry.
pub open spec fn encode_record(r: RecordSpec) -> Seq<u8> {
    encode_u64(r.0) + encode_entry(r.1)
}

/// Reads a record at `pos`, not reading at or beyond `end`.
pub open spec fn parse_record(data: Seq<u8>, pos: int, end: int) -> Option<(RecordSpec, int)> {
    match parse_u64(data, pos, end) {
        Some((n, p)) => match parse_entry(data, p, end) {
            Some((e, q)) => Some(((n, e), q)),
            None => None,
        },
        None => None,
    }
}

/// Reads records from `pos` until exactly `end`.
pub open spec fn parse_records(data: Seq<u8>, pos: int, end: int) -> Option<Seq<RecordSpec>>
    decreases end - pos,
{
    if pos == end && 0 <= pos <= data.len() {
        Some(Seq::empty())
    } else {
        match parse_record(data, pos, end) {
            Some((r, p)) => {
                if pos < p {
                    match parse_records(data, p, end) {
                        Some(rest) => Some(seq![r] + rest),
                        None => None,
                    }
                } else {
                    None
                }
            },
            None => None,
        }
    }
}

/// Sequence numbers strictly increase along the log.
pub open spec fn sequenced(records: Seq<RecordSpec>) -> bool {
    forall|i: int, j: int|
        0 <= i < j < records.len() ==> (#[trigger] records[i]).0 < (#[trigger] records[j]).0
}

/// Every sequence number of the log is below `bound`.
pub open spec fn all_before(records: Seq<RecordSpec>, bound: u64) -> bool {
    forall|i: int| 0 <= i < records.len() ==> (#[trigger] records[i]).0 < bound
}

/// The map that results from applying, in log order, every record whose
/// sequence number is greater than `after` to `base`.
pub open spec fn apply_records(
    base: Map<KeySpec, ValueSpec>,
    records: Seq<RecordSpec>,
    after: u64,
) -> Map<KeySpec, ValueSpec>
    decreases records.len(),
{
    if records.len() == 0 {
        base
    } else {
        let before = apply_records(base, records.drop_last(), after);
        let last = records.last();
        if last.0 > after {
            before.insert(last.1.0, last.1.1)
        } else {
            before
        }
    }
}

proof fn lemma_parse_record_bounds(data: Seq<u8>, pos: int, end: int)
    requires
        parse_record(data, pos, end) is Some,
    ensures
        0 <= pos,
        pos + 25 <= parse_record(data, pos, end).unwrap().1 <= end,
        end <= data.len(),
        parse_record(data, pos, end).unwrap().0.1.0.len() > 0,
{
    lemma_parse_entry_bounds(data, pos + 8, end);
}

proof fn lemma_parse_record_local(data: Seq<u8>, pos: int, end: int, other: Seq<u8>, limit: int)
    requires
        parse_record(data, pos, end) is Some,
        parse_record(data, pos, end).unwrap().1 <= limit <= other.len(),
        other.take(parse_record(data, pos, end).unwrap().1) == data.take(
            parse_record(data, pos, end).unwrap().1,
        ),
    ensures
        parse_record(other, pos, limit) == parse_record(data, pos, end),
{
    lemma_parse_record_bounds(data, pos, end);
    let stop = parse_record(data, pos, end).unwrap().1;
    assert(other.subrange(pos, pos + 8) =~= other.take(stop).subrange(pos, pos + 8));
    assert(data.subrange(pos, pos + 8) =~= data.take(stop).subrange(pos, pos + 8));
    lemma_parse_entry_local(data, pos + 8, end, other, limit);
}

proof fn lemma_parse_records_local(data: Seq<u8>, pos: int, end: int, other: Seq<u8>)
    requires
        parse_records(data, pos, end) is Some,
        end <= other.len(),
        other.take(end) == data.take(end),
    ensures
        parse_records(other, pos, end) == parse_records(data, pos, end),
    decreases end - pos,
{
    if pos == end {
    } else {
        lemma_parse_record_bounds(data, pos, end);
        let p = parse_record(data, pos, end).unwrap().1;
        assert(other.take(p) =~= other.take(end).take(p));
        assert(data.take(p) =~= data.take(end).take(p));
        lemma_parse_record_local(data, pos, end, other, end);
        lemma_parse_records_local(data, p, end, other);
    }
}

proof fn lemma_parse_records_extend(data: Seq<u8>, a: int, b: int, c: int)
    requires
        parse_records(data, a, b) is Some,
        parse_record(data, b, c) is Some,
        parse_record(data, b, c).unwrap().1 == c,
    ensures
        parse_records(data, a, c) == Some(
            parse_records(data, a, b).unwrap().push(parse_record(data, b, c).unwrap().0),
        ),
    decreases b - a,
{
    lemma_parse_record_bounds(data, b, c);
    let r = parse_record(data, b, c).unwrap().0;
    let s1 = parse_records(data, a, b).unwrap();
    if a == b {
        assert(parse_records(data, c, c) == Some(Seq::<RecordSpec>::empty()));
        assert(seq![r] + Seq::<RecordSpec>::empty() =~= s1.push(r));
    } else {
        lemma_parse_record_bounds(data, a, b);
        let (first, p) = parse_record(data, a, b).unwrap();
        lemma_parse_record_local(data, a, b, data, c);
        lemma_parse_records_extend(data, p, b, c);
        let rest = parse_records(data, p, b).unwrap();
        assert(seq![first] + rest.push(r) =~= s1.push(r));
    }
}

/// Writing one more record after a log that reads back gives a log that
/// reads back with the record at its end.
pub proof fn lemma_parse_records_push(data: Seq<u8>, grown: Seq<u8>, r: RecordSpec)
    requires
        parse_records(data, 0, data.len() as int) is Some,
        encodable(r.1),
        grown == data + encode_record(r),
    ensures
        parse_records(grown, 0, grown.len() as int) == Some(
            parse_records(data, 0, data.len() as int).unwrap().push(r),
        ),
{
    let end = data.len() as int;
    let stop = grown.len() as int;
    assert(grown.take(end) =~= data.take(end));
    lemma_parse_records_local(data, 0, end, grown);
    lemma_u64_len(r.0);
    let body = encode_entry(r.1);
    assert(grown.subrange(end, end + 8) =~= encode_u64(r.0));
    lemma_u64_round_trip(grown, end, stop, r.0);
    assert(grown.subrange(end + 8, end + 8 + body.len()) =~= body);
    lemma_entry_round_trip(grown, end + 8, stop, r.1);
    lemma_parse_records_extend(grown, 0, end, stop);
}

/// Appends a record.
pub fn put_record(out: &mut Vec<u8>, sequence_number: u64, key: &str, value: &Value)
    ensures
        final(out)@ == old(out)@ + encode_record((sequence_number, (key@, value@))),
        encodable((key@, value@)) || key@.len() == 0,
{
    put_u64(out, sequence_number);
    put_entry(out, key, value);
    assert(out@ =~= old(out)@ + encode_record((sequence_number, (key@, value@))));
}

/// Reads a record at `pos`.
pub fn read_record(data: &[u8], pos: usize, end: usize) -> (r: Option<(WalRecord, usize)>)
    requires
        end <= data@.len(),
    ensures
        match r {
            Some((rec, p)) => parse_record(data@, pos as int, end as int) == Some(
                (rec@, p as int),
            ),
            None => parse_record(data@, pos as int, end as int) is None,
        },
{
    match read_u64(data, pos, end) {
        None => None,
        Some((sequence_number, p)) => match read_entry(data, p, end) {
            None => None,
            Some((entry, q)) => {
                let Entry { key, value } = entry;
                Some((WalRecord { sequence_number, key, value }, q))
            },
        },
    }
}

/// A log read up to a boundary inside a longer log is the start of the
/// longer log, and the rest reads from the boundary.
proof fn lemma_parse_records_split(data: Seq<u8>, a: int, b: int, c: int)
    requires
        parse_records(data, a, b) is Some,
        parse_records(data, a, c) is Some,
        b <= c,
    ensures
        parse_records(data, b, c) is Some,
        parse_records(data, a, c).unwrap() == parse_records(data, a, b).unwrap() + parse_records(
            data,
            b,
            c,
        ).unwrap(),
    decreases b - a,
{
    let s1 = parse_records(data, a, b).unwrap();
    let s = parse_records(data, a, c).unwrap();
    if a == b {
        assert(s1 + s =~= s);
    } else {
        lemma_parse_record_bounds(data, a, b);
        let (r, p) = parse_record(data, a, b).unwrap();
        lemma_parse_record_local(data, a, b, data, c);
        lemma_parse_records_split(data, p, b, c);
        let rest1 = parse_records(data, p, b).unwrap();
        let rest2 = parse_records(data, b, c).unwrap();
        assert(seq![r] + (rest1 + rest2) =~= s1 + rest2);
    }
}

/// Reads a whole log image.
pub fn decode_records(data: &[u8]) -> (r: Option<Vec<WalRecord>>)
    ensures
        match r {
            Some(v) => parse_records(data@, 0, data@.len() as int) == Some(records_view(v@)),
            None => parse_records(data@, 0, data@.len() as int) is None,
        },
{
    let end = data.len();
    let mut out: Vec<WalRecord> = Vec::new();
    let mut pos: usize = 0;
    assert(records_view(out@) =~= Seq::<RecordSpec>::empty());
    while pos < end
        invariant
            pos <= end,
            end == data@.len(),
            parse_records(data@, 0, pos as int) == Some(records_view(out@)),
        decreases end - pos,
    {
        match read_record(data, pos, end) {
            None => {
                proof {
                    if parse_records(data@, 0, end as int) is Some {
                        lemma_parse_records_split(data@, 0, pos as int, end as int);
                    }
                }
                return None;
            },
            Some((rec, next)) => {
                proof {
                    lemma_parse_record_bounds(data@, pos as int, end as int);
                    lemma_parse_record_local(data@, pos as int, end as int, data@, next as int);
                    lemma_parse_records_extend(data@, 0, pos as int, next as int);
                    assert(records_view(out@.push(rec)) =~= records_view(out@).push(rec@));
                }
                out.push(rec);
                pos = next;
            },
        }
    }
    Some(out)
}

/// Whether sequence numbers strictly increase along the records.
pub fn is_sequenced(records: &Vec<WalRecord>) -> (ok: bool)
    ensures
        ok == sequenced(records_view(records@)),
{
    let ghost view = records_view(records@);
    let mut i: usize = 1;
    while i < records.len()
        invariant
            1 <= i,
            i <= records@.len() || records@.len() == 0,
            view == records_view(records@),
            sequenced(view.take(i as int)) || records@.len() == 0,
        decreases records@.len() - i,
    {
        if records[i - 1].sequence_number >= records[i].sequence_number {
            assert(view[i - 1].0 >= view[i as int].0);
            return false;
        }
        proof {
            let shorter = view.take(i as int);
            let longer = view.take(i + 1);
            assert forall|a: int, b: int| 0 <= a < b < longer.len() implies (
            #[trigger] longer[a]).0 < (#[trigger] longer[b]).0 by {
                if b < i {
                    assert(shorter[a].0 < shorter[b].0);
                } else if a < i - 1 {
                    assert(shorter[a].0 < shorter[i - 1].0);
                    assert(view[i - 1].0 < view[i as int].0);
                } else {
                    assert(view[i - 1].0 < view[i as int].0);
                }
            }
        }
        i = i + 1;
    }
    proof {
        if records@.len() > 0 {
            assert(view.take(i as int) =~= view.take(view.len() as int));
            assert(view.take(view.len() as int) =~= view);
        }
    }
    true
}

/// The write-ahead log, as the image of its bytes and the sequence number
/// that the next record will get.
#[derive(Debug)]
pub struct Wal {
    bytes: Vec<u8>,
    next_sequence: u64,
}

impl Wal {
    /// The bytes of the log.
    pub closed spec fn image(&self) -> Seq<u8> {
        self.bytes@
    }

    /// The sequence number of the next record.
    pub closed spec fn upcoming(&self) -> u64 {
        self.next_sequence
    }

    /// The records of the log, oldest first.
    pub open spec fn records(&self) -> Seq<RecordSpec> {
        parse_records(self.image(), 0, self.image().len() as int).unwrap()
    }

    /// The image reads back as records whose sequence numbers strictly
    /// increase and lie below the next one.
    pub open spec fn wf(&self) -> bool {
        &&& parse_records(self.image(), 0, self.image().len() as int) is Some
        &&& sequenced(self.records())
        &&& all_before(self.records(), self.upcoming())
    }

    /// An empty log whose first record will get `first_sequence`.
    pub fn new(first_sequence: u64) -> (log: Wal)
        ensures
            log.wf(),
            log.image() == Seq::<u8>::empty(),
            log.records() == Seq::<RecordSpec>::empty(),
            log.upcoming() == first_sequence,
    {
        Wal { bytes: Vec::new(), next_sequence: first_sequence }
    }

    /// The sequence number of the next record.
    pub fn next_sequence(&self) -> (n: u64)
        ensures
            n == self.upcoming(),
    {
        self.next_sequence
    }

    /// The bytes of the log.
    pub fn as_bytes(&self) -> (b: &Vec<u8>)
        ensures
            b@ == self.image(),
    {
        &self.bytes
    }

    /// Whether the log holds no record.
    pub fn is_empty(&self) -> (b: bool)
        ensures
            b == (self.image().len() == 0),
    {
        self.bytes.len() == 0
    }

    /// The bytes that the next `append` of this change would add to the log,
    /// for a caller that must make them durable first.
    pub fn record_bytes(&self, key: &str, value: &Value) -> (b: Vec<u8>)
        ensures
            b@ == encode_record((self.upcoming(), (key@, value@))),
    {
        let mut b: Vec<u8> = Vec::new();
        put_record(&mut b, self.next_sequence, key, value);
        assert(b@ =~= encode_record((self.upcoming(), (key@, value@))));
        b
    }

    /// Appends the record of a change and returns its sequence number. When
    /// the sequence numbers are used up the log is left as it was.
    pub fn append(&mut self, key: &str, value: &Value) -> (r: Result<u64, StoreError>)
        requires
            old(self).wf(),
            key@.len() > 0,
        ensures
            match r {
                Ok(n) => {
                    &&& old(self).upcoming() < u64::MAX
                    &&& n == old(self).upcoming()
                    &&& final(self).upcoming() == n + 1
                    &&& final(self).image() == old(self).image() + encode_record(
                        (n, (key@, value@)),
                    )
                    &&& final(self).records() == old(self).records().push((n, (key@, value@)))
                    &&& final(self).wf()
                },
                Err(e) => {
                    &&& e == StoreError::Exhausted
                    &&& old(self).upcoming() == u64::MAX
                    &&& *final(self) == *old(self)
                },
            },
    {
        if self.next_sequence == u64::MAX {
            return Err(StoreError::Exhausted);
        }
        let n = self.next_sequence;
        put_record(&mut self.bytes, n, key, value);
        self.next_sequence = n + 1;
        proof {
            let rec = (n, (key@, value@));
            lemma_parse_records_push(old(self).image(), self.image(), rec);
            let before = old(self).records();
            let after = self.records();
            assert forall|i: int, j: int| 0 <= i < j < after.len() implies (#[trigger] after[i]).0
                < (#[trigger] after[j]).0 by {
                if j < before.len() {
                    assert(before[i].0 < before[j].0);
                } else {
                    assert(before[i].0 < n);
                }
            }
            assert forall|i: int| 0 <= i < after.len() implies (#[trigger] after[i]).0 < n + 1 by {
                if i < before.len() {
                    assert(before[i].0 < n);
                }
            }
        }
        Ok(n)
    }

    /// The records of the log, oldest first, for rebuilding the index.
    pub fn replay(&self) -> (records: Vec<WalRecord>)
        requires
            self.wf(),
        ensures
            records_view(records@) == self.records(),
    {
        match decode_records(self.bytes.as_slice()) {
            Some(records) => records,
            None => Vec::new(),
        }
    }

    /// Takes over the image of a log read from storage. The first new record
    /// gets a sequence number beyond every record of the image, and at least
    /// `floor`. An image that does not read back as records with strictly
    /// increasing sequence numbers, the largest of which leaves room for a
    /// next one, is refused.
    pub fn load(bytes: Vec<u8>, floor: u64) -> (r: Result<Wal, StoreError>)
        ensures
            match r {
                Ok(log) => {
                    &&& loadable(bytes@)
                    &&& log.wf()
                    &&& log.image() == bytes@
                    &&& log.upcoming() == next_after(log.records(), floor)
                },
                Err(e) => e == StoreError::Corruption && !loadable(bytes@),
            },
    {
        match decode_records(bytes.as_slice()) {
            None => Err(StoreError::Corruption),
            Some(records) => {
                if !is_sequenced(&records) {
                    return Err(StoreError::Corruption);
                }
                let ghost view = records_view(records@);
                let mut next = floor;
                if records.len() > 0 {
                    let last = records[records.len() - 1].sequence_number;
                    assert(view.last().0 == last);
                    if last == u64::MAX {
                        return Err(StoreError::Corruption);
                    }
                    if last + 1 > next {
                        next = last + 1;
                    }
                    assert forall|i: int| 0 <= i < view.len() implies (#[trigger] view[i]).0
                        < next by {
                        if i < view.len() - 1 {
                            assert(view[i].0 < view[view.len() - 1].0);
                        }
                    }
                }
                Ok(Wal { bytes, next_sequence: next })
            },
        }
    }

    /// Starts a fresh log after a flush: the records are dropped, the
    /// sequence numbers go on.
    pub fn rotate(&mut self)
        ensures
            final(self).wf(),
            final(self).image() == Seq::<u8>::empty(),
            final(self).records() == Seq::<RecordSpec>::empty(),
            final(self).upcoming() == old(self).upcoming(),
    {
        self.bytes.clear();
    }
}

/// An image that a log can take over: it reads back as records, their
/// sequence numbers strictly increase, and the last leaves room for a next.
pub open spec fn loadable(image: Seq<u8>) -> bool {
    &&& parse_records(image, 0, image.len() as int) is Some
    &&& sequenced(parse_records(image, 0, image.len() as int).unwrap())
    &&& all_before(parse_records(image, 0, image.len() as int).unwrap(), u64::MAX)
}

/// The sequence number that follows the records of a log, and is at least
/// `floor`.
pub open spec fn next_after(records: Seq<RecordSpec>, floor: u64) -> u64 {
    if records.len() > 0 && records.last().0 + 1 > floor {
        (records.last().0 + 1) as u64
    } else {
        floor
    }
}

/// Every record of a log that reads back has a non-empty key.
pub proof fn lemma_records_keyed(image: Seq<u8>)
    requires
        parse_records(image, 0, image.len() as int) is Some,
    ensures
        forall|i: int|
            0 <= i < parse_records(image, 0, image.len() as int).unwrap().len() ==> (
            #[trigger] parse_records(image, 0, image.len() as int).unwrap()[i]).1.0.len() > 0,
{
    lemma_records_keyed_from(image, 0, image.len() as int);
}

proof fn lemma_records_keyed_from(image: Seq<u8>, pos: int, end: int)
    requires
        parse_records(image, pos, end) is Some,
    ensures
        forall|i: int|
            0 <= i < parse_records(image, pos, end).unwrap().len() ==> (#[trigger] parse_records(
                image,
                pos,
                end,
            ).unwrap()[i]).1.0.len() > 0,
    decreases end - pos,
{
    if pos == end && 0 <= pos <= image.len() {
    } else {
        lemma_parse_record_bounds(image, pos, end);
        let (r, p) = parse_record(image, pos, end).unwrap();
        lemma_records_keyed_from(image, p, end);
        let rest = parse_records(image, p, end).unwrap();
        let all = parse_records(image, pos, end).unwrap();
        assert(all == seq![r] + rest);
        assert forall|i: int| 0 <= i < all.len() implies (#[trigger] all[i]).1.0.len() > 0 by {
            if i > 0 {
                assert(all[i] == rest[i - 1]);
            }
        }
    }
}

} // verus!
