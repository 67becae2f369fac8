//! The byte format of entries: how keys and values are laid out in segment
//! files and log records, as functions on bytes, with the reader that undoes
//! the writer.
//!
//! An integer is eight bytes, least significant first. A text is its length
//! in bytes as an integer, then its UTF-8 bytes. A stored value is a tag byte
//! (1 for a present value, 0 for a deletion marker), then a text (the empty
//! text for a deletion marker). An entry is its key as a text, then its
//! stored value.
use vstd::prelude::*;
use vstd::bytes::*;
use vstd::utf8::*;
use vstd::string::*;
use vstd::slice::*;
use crate::entry::{Entry, EntrySpec, Value, ValueSpec, entries_view};

verus! {

/// Tag byte of a present value.
pub const TAG_PRESENT: u8 = 1;

/// Tag byte of a deletion marker.
pub const TAG_TOMBSTONE: u8 = 0;

/// Eight bytes, least significant first.
pub open spec fn encode_u64(x: u64) -> Seq<u8> {
    spec_u64_to_le_bytes(x)
}

/// Length, then UTF-8 bytes.
pub open spec fn encode_text(t: Seq<char>) -> Seq<u8> {
    encode_u64(encode_utf8(t).len() as u64) + encode_utf8(t)
}

/// Tag, then the value's text (empty for a deletion marker).
pub open spec fn encode_value(v: ValueSpec) -> Seq<u8> {
    match v {
        Some(t) => seq![TAG_PRESENT] + encode_text(t),
        None => seq![TAG_TOMBSTONE] + encode_u64(0),
    }
}

/// Key, then stored value.
pub open spec fn encode_entry(e: EntrySpec) -> Seq<u8> {
    encode_text(e.0) + encode_value(e.1)
}

/// The entries one after another.
pub open spec fn encode_entries(s: Seq<EntrySpec>) -> Seq<u8>
    decreases s.len(),
{
    if s.len() == 0 {
        Seq::empty()
    } else {
        encode_entries(s.drop_last()) + encode_entry(s.last())
    }
}

/// A text whose byte length fits the length field.
pub open spec fn text_fits(t: Seq<char>) -> bool {
    encode_utf8(t).len() <= u64::MAX
}

/// An entry that the format can hold: a non-empty key, and lengths that fit
/// their fields.
pub open spec fn encodable(e: EntrySpec) -> bool {
    &&& e.0.len() > 0
    &&& text_fits(e.0)
    &&& match e.1 {
        Some(t) => text_fits(t),
        None => true,
    }
}

/// Reads an integer at `pos`, not reading at or beyond `end`.
pub open spec fn parse_u64(data: Seq<u8>, pos: int, end: int) -> Option<(u64, int)> {
    if 0 <= pos && pos + 8 <= end && end <= data.len() {
        Some((spec_u64_from_le_bytes(data.subrange(pos, pos + 8)), pos + 8))
    } else {
        None
    }
}

/// Reads a text at `pos`: its bytes must lie before `end` and be UTF-8.
pub open spec fn parse_text(data: Seq<u8>, pos: int, end: int) -> Option<(Seq<char>, int)> {
    match parse_u64(data, pos, end) {
        Some((n, p)) => {
            if p + n <= end && valid_utf8(data.subrange(p, p + n)) {
                Some((decode_utf8(data.subrange(p, p + n)), p + n))
            } else {
                None
            }
        },
        None => None,
    }
}

/// Reads a stored value at `pos`: a known tag, and no text after the tag of
/// a deletion marker.
pub open spec fn parse_value(data: Seq<u8>, pos: int, end: int) -> Option<(ValueSpec, int)> {
    if 0 <= pos < end && end <= data.len() {
        if data[pos] == TAG_PRESENT {
            match parse_text(data, pos + 1, end) {
                Some((t, p)) => Some((Some(t), p)),
                None => None,
            }
        } else if data[pos] == TAG_TOMBSTONE {
            match parse_u64(data, pos + 1, end) {
                Some((n, p)) => if n == 0 {
                    Some((None, p))
                } else {
                    None
                },
                None => None,
            }
        } else {
            None
        }
    } else {
        None
    }
}

/// Reads an entry at `pos`: a non-empty key, then a stored value.
pub open spec fn parse_entry(data: Seq<u8>, pos: int, end: int) -> Option<(EntrySpec, int)> {
    match parse_text(data, pos, end) {
        Some((k, p)) => {
            if k.len() > 0 {
                match parse_value(data, p, end) {
                    Some((v, q)) => Some(((k, v), q)),
                    None => None,
                }
            } else {
                None
            }
        },
        None => None,
    }
}

/// Reads entries from `pos` until exactly `end`.
pub open spec fn parse_entries(data: Seq<u8>, pos: int, end: int) -> Option<Seq<EntrySpec>>
    decreases end - pos,
{
    if pos == end && 0 <= pos <= data.len() {
        Some(Seq::empty())
    } else {
        match parse_entry(data, pos, end) {
            Some((e, p)) => {
                if pos < p {
                    match parse_entries(data, p, end) {
                        Some(rest) => Some(seq![e] + rest),
                        None => None,
                    }
                } else {
                    None
                }
            },
            None => None,
        }
    }
}

/// Appends an integer.
pub fn put_u64(out: &mut Vec<u8>, x: u64)
    ensures
        final(out)@ == old(out)@ + encode_u64(x),
{
    let mut b = u64_to_le_bytes(x);
    out.append(&mut b);
}

/// Appends a text.
pub fn put_text(out: &mut Vec<u8>, t: &str)
    ensures
        final(out)@ == old(out)@ + encode_text(t@),
        text_fits(t@),
{
    let mut b = t.as_bytes_vec();
    put_u64(out, b.len() as u64);
    out.append(&mut b);
    assert(out@ =~= old(out)@ + encode_text(t@));
}

/// Appends a stored value.
pub fn put_value(out: &mut Vec<u8>, v: &Value)
    ensures
        final(out)@ == old(out)@ + encode_value(v@),
        match v@ {
            Some(t) => text_fits(t),
            None => true,
        },
{
    match v {
        Value::Present(t) => {
            out.push(TAG_PRESENT);
            put_text(out, t.as_str());
            assert(out@ =~= old(out)@ + encode_value(v@));
        },
        Value::Tombstone => {
            out.push(TAG_TOMBSTONE);
            put_u64(out, 0);
            assert(out@ =~= old(out)@ + encode_value(v@));
        },
    }
}

/// Appends an entry.
pub fn put_entry(out: &mut Vec<u8>, key: &str, value: &Value)
    ensures
        final(out)@ == old(out)@ + encode_entry((key@, value@)),
        encodable((key@, value@)) || key@.len() == 0,
{
    put_text(out, key);
    put_value(out, value);
    proof {
        assert(out@ =~= old(out)@ + encode_entry((key@, value@)));
    }
}

/// `String::from_utf8`: it accepts exactly the byte strings that are
/// well-formed UTF-8, and the text it yields has the argument as its UTF-8
/// bytes.
#[verifier::external_body]
fn text_from_utf8(bytes: Vec<u8>) -> (r: Option<String>)
    ensures
        r is Some <==> valid_utf8(bytes@),
        r is Some ==> encode_utf8(r.unwrap()@) == bytes@,
{
    match String::from_utf8(bytes) {
        Ok(text) => Some(text),
        Err(_) => None,
    }
}

/// Reads an integer at `pos`, not reading at or beyond `end`.
pub fn read_u64(data: &[u8], pos: usize, end: usize) -> (r: Option<(u64, usize)>)
    requires
        end <= data@.len(),
    ensures
        match r {
            Some((x, p)) => parse_u64(data@, pos as int, end as int) == Some((x, p as int)),
            None => parse_u64(data@, pos as int, end as int) is None,
        },
{
    if pos > end || end - pos < 8 {
        return None;
    }
    let x = u64_from_le_bytes(slice_subrange(data, pos, pos + 8));
    Some((x, pos + 8))
}

/// Finds the bytes of the text at `pos` without decoding them: where they
/// start and where they stop.
pub fn read_span(data: &[u8], pos: usize, end: usize) -> (r: Option<(usize, usize)>)
    requires
        end <= data@.len(),
    ensures
        match r {
            Some((start, stop)) => {
                &&& parse_u64(data@, pos as int, end as int) == Some(
                    ((stop - start) as u64, start as int),
                )
                &&& start <= stop <= end
            },
            None => match parse_u64(data@, pos as int, end as int) {
                Some((n, p)) => p + n > end,
                None => true,
            },
        },
{
    match read_u64(data, pos, end) {
        None => None,
        Some((n, start)) => {
            if n > (end - start) as u64 {
                None
            } else {
                Some((start, start + n as usize))
            }
        },
    }
}

/// Reads a text at `pos`.
pub fn read_text(data: &[u8], pos: usize, end: usize) -> (r: Option<(String, usize)>)
    requires
        end <= data@.len(),
    ensures
        match r {
            Some((t, p)) => parse_text(data@, pos as int, end as int) == Some((t@, p as int)),
            None => parse_text(data@, pos as int, end as int) is None,
        },
{
    match read_span(data, pos, end) {
        None => None,
        Some((start, stop)) => {
            let bytes = slice_to_vec(slice_subrange(data, start, stop));
            match text_from_utf8(bytes) {
                None => None,
                Some(t) => {
                    proof {
                        encode_utf8_decode_utf8(t@);
                    }
                    Some((t, stop))
                },
            }
        },
    }
}

/// Reads a stored value at `pos`.
pub fn read_value(data: &[u8], pos: usize, end: usize) -> (r: Option<(Value, usize)>)
    requires
        end <= data@.len(),
    ensures
        match r {
            Some((v, p)) => parse_value(data@, pos as int, end as int) == Some((v@, p as int)),
            None => parse_value(data@, pos as int, end as int) is None,
        },
{
    if pos >= end {
        return None;
    }
    let tag = data[pos];
    if tag == TAG_PRESENT {
        match read_text(data, pos + 1, end) {
            None => None,
            Some((t, p)) => Some((Value::Present(t), p)),
        }
    } else if tag == TAG_TOMBSTONE {
        match read_u64(data, pos + 1, end) {
            None => None,
            Some((n, p)) => if n == 0 {
                Some((Value::Tombstone, p))
            } else {
                None
            },
        }
    } else {
        None
    }
}

/// Reads an entry at `pos`.
pub fn read_entry(data: &[u8], pos: usize, end: usize) -> (r: Option<(Entry, usize)>)
    requires
        end <= data@.len(),
    ensures
        match r {
            Some((e, p)) => parse_entry(data@, pos as int, end as int) == Some((e@, p as int)),
            None => parse_entry(data@, pos as int, end as int) is None,
        },
{
    match read_text(data, pos, end) {
        None => None,
        Some((key, p)) => {
            if key.as_str().as_bytes().len() == 0 {
                proof {
                    lemma_empty_text(key@);
                }
                return None;
            }
            proof {
                lemma_empty_text(key@);
            }
            match read_value(data, p, end) {
                None => None,
                Some((value, q)) => Some((Entry { key, value }, q)),
            }
        },
    }
}

/// A text is empty exactly when it has no bytes.
pub proof fn lemma_empty_text(t: Seq<char>)
    ensures
        t.len() == 0 <==> encode_utf8(t).len() == 0,
{
    if t.len() == 0 {
        assert(encode_utf8(t).len() == 0);
    } else {
        encode_utf8_first_scalar(t);
        assert(encode_utf8(t).len() > 0);
    }
}

/// Number of bytes of an encoded integer.
pub proof fn lemma_u64_len(x: u64)
    ensures
        encode_u64(x).len() == 8,
        spec_u64_from_le_bytes(encode_u64(x)) == x,
{
    lemma_auto_spec_u64_to_from_le_bytes();
}

/// Reading where an integer was written gives the integer back.
pub proof fn lemma_u64_round_trip(data: Seq<u8>, pos: int, end: int, x: u64)
    requires
        0 <= pos,
        pos + 8 <= end <= data.len(),
        data.subrange(pos, pos + 8) == encode_u64(x),
    ensures
        parse_u64(data, pos, end) == Some((x, pos + 8)),
{
    lemma_u64_len(x);
}

/// Reading where a text was written gives the text back.
pub proof fn lemma_text_round_trip(data: Seq<u8>, pos: int, end: int, t: Seq<char>)
    requires
        0 <= pos,
        text_fits(t),
        pos + encode_text(t).len() <= end <= data.len(),
        data.subrange(pos, pos + encode_text(t).len()) == encode_text(t),
    ensures
        parse_text(data, pos, end) == Some((t, pos + encode_text(t).len())),
        encode_text(t).len() == 8 + encode_utf8(t).len(),
{
    let n = encode_utf8(t).len() as int;
    let whole = encode_text(t);
    lemma_u64_len(n as u64);
    assert(data.subrange(pos, pos + 8) =~= whole.subrange(0, 8));
    assert(whole.subrange(0, 8) =~= encode_u64(n as u64));
    assert(data.subrange(pos + 8, pos + 8 + n) =~= whole.subrange(8, 8 + n));
    assert(whole.subrange(8, 8 + n) =~= encode_utf8(t));
    encode_utf8_valid_utf8(t);
    encode_utf8_decode_utf8(t);
}

/// Reading where a stored value was written gives the value back.
pub proof fn lemma_value_round_trip(data: Seq<u8>, pos: int, end: int, v: ValueSpec)
    requires
        0 <= pos,
        match v {
            Some(t) => text_fits(t),
            None => true,
        },
        pos + encode_value(v).len() <= end <= data.len(),
        data.subrange(pos, pos + encode_value(v).len()) == encode_value(v),
    ensures
        parse_value(data, pos, end) == Some((v, pos + encode_value(v).len())),
        encode_value(v).len() >= 9,
{
    let whole = encode_value(v);
    assert(data[pos] == data.subrange(pos, pos + whole.len())[0]);
    match v {
        Some(t) => {
            lemma_u64_len(encode_utf8(t).len() as u64);
            let m = encode_text(t).len() as int;
            assert(data.subrange(pos + 1, pos + 1 + m) =~= whole.subrange(1, 1 + m));
            assert(whole.subrange(1, 1 + m) =~= encode_text(t));
            lemma_text_round_trip(data, pos + 1, end, t);
        },
        None => {
            lemma_u64_len(0);
            assert(data.subrange(pos + 1, pos + 9) =~= whole.subrange(1, 9));
            assert(whole.subrange(1, 9) =~= encode_u64(0));
            lemma_u64_round_trip(data, pos + 1, end, 0);
        },
    }
}

/// Reading where an entry was written gives the entry back.
pub proof fn lemma_entry_round_trip(data: Seq<u8>, pos: int, end: int, e: EntrySpec)
    requires
        0 <= pos,
        encodable(e),
        pos + encode_entry(e).len() <= end <= data.len(),
        data.subrange(pos, pos + encode_entry(e).len()) == encode_entry(e),
    ensures
        parse_entry(data, pos, end) == Some((e, pos + encode_entry(e).len())),
        encode_entry(e).len() >= 17,
{
    let whole = encode_entry(e);
    let a = encode_text(e.0).len() as int;
    let b = encode_value(e.1).len() as int;
    lemma_u64_len(encode_utf8(e.0).len() as u64);
    assert(data.subrange(pos, pos + a) =~= whole.subrange(0, a));
    assert(whole.subrange(0, a) =~= encode_text(e.0));
    lemma_text_round_trip(data, pos, end, e.0);
    assert(data.subrange(pos + a, pos + a + b) =~= whole.subrange(a, a + b));
    assert(whole.subrange(a, a + b) =~= encode_value(e.1));
    lemma_value_round_trip(data, pos + a, end, e.1);
}

/// What reading an entry tells: it moves forward, stays within the limit,
/// and the entry is one that the format can hold.
pub proof fn lemma_parse_entry_bounds(data: Seq<u8>, pos: int, end: int)
    requires
        parse_entry(data, pos, end) is Some,
    ensures
        0 <= pos,
        pos + 17 <= parse_entry(data, pos, end).unwrap().1 <= end,
        end <= data.len(),
        parse_entry(data, pos, end).unwrap().0.0.len() > 0,
{
}

/// Reading an entry looks at no byte at or beyond where it stops: a wider
/// limit, or other bytes beyond, change nothing.
pub proof fn lemma_parse_entry_local(
    data: Seq<u8>,
    pos: int,
    end: int,
    other: Seq<u8>,
    limit: int,
)
    requires
        parse_entry(data, pos, end) is Some,
        parse_entry(data, pos, end).unwrap().1 <= limit <= other.len(),
        other.take(parse_entry(data, pos, end).unwrap().1) == data.take(
            parse_entry(data, pos, end).unwrap().1,
        ),
    ensures
        parse_entry(other, pos, limit) == parse_entry(data, pos, end),
{
    let stop = parse_entry(data, pos, end).unwrap().1;
    let a = data.take(stop);
    let b = other.take(stop);
    assert forall|i: int, j: int| 0 <= i <= j <= stop implies #[trigger] other.subrange(i, j)
        == data.subrange(i, j) by {
        assert(other.subrange(i, j) =~= b.subrange(i, j));
        assert(data.subrange(i, j) =~= a.subrange(i, j));
    }
    assert forall|i: int| 0 <= i < stop implies other[i] == data[i] by {
        assert(other[i] == b[i]);
        assert(data[i] == a[i]);
    }
    let (n, p) = parse_u64(data, pos, end).unwrap();
    assert(other.subrange(pos, pos + 8) == data.subrange(pos, pos + 8));
    assert(other.subrange(p, p + n) == data.subrange(p, p + n));
    let q = p + n;
    assert(other[q] == data[q]);
    if data[q] == TAG_PRESENT {
        let (m, p2) = parse_u64(data, q + 1, end).unwrap();
        assert(other.subrange(q + 1, q + 9) == data.subrange(q + 1, q + 9));
        assert(other.subrange(p2, p2 + m) == data.subrange(p2, p2 + m));
    } else {
        assert(other.subrange(q + 1, q + 9) == data.subrange(q + 1, q + 9));
    }
}

/// Reading a run of entries looks at no byte at or beyond its limit.
pub proof fn lemma_parse_entries_local(data: Seq<u8>, pos: int, end: int, other: Seq<u8>)
    requires
        parse_entries(data, pos, end) is Some,
        end <= other.len(),
        other.take(end) == data.take(end),
    ensures
        parse_entries(other, pos, end) == parse_entries(data, pos, end),
    decreases end - pos,
{
    if pos == end {
    } else {
        lemma_parse_entry_bounds(data, pos, end);
        let p = parse_entry(data, pos, end).unwrap().1;
        assert(other.take(p) =~= other.take(end).take(p));
        assert(data.take(p) =~= data.take(end).take(p));
        lemma_parse_entry_local(data, pos, end, other, end);
        lemma_parse_entries_local(data, p, end, other);
    }
}

/// What reading a run tells about its limits.
pub proof fn lemma_parse_entries_bounds(data: Seq<u8>, pos: int, end: int)
    requires
        parse_entries(data, pos, end) is Some,
    ensures
        0 <= pos <= end <= data.len(),
        parse_entries(data, pos, end).unwrap().len() == 0 <==> pos == end,
        forall|i: int|
            0 <= i < parse_entries(data, pos, end).unwrap().len() ==> (
            #[trigger] parse_entries(data, pos, end).unwrap()[i]).0.len() > 0,
    decreases end - pos,
{
    if pos == end && 0 <= pos <= data.len() {
    } else {
        lemma_parse_entry_bounds(data, pos, end);
        let (e, p) = parse_entry(data, pos, end).unwrap();
        lemma_parse_entries_bounds(data, p, end);
        let rest = parse_entries(data, p, end).unwrap();
        let all = parse_entries(data, pos, end).unwrap();
        assert(all == seq![e] + rest);
        assert forall|i: int| 0 <= i < all.len() implies (#[trigger] all[i]).0.len() > 0 by {
            if i > 0 {
                assert(all[i] == rest[i - 1]);
            }
        }
    }
}

/// Two runs read one after the other are one run.
pub proof fn lemma_parse_entries_join(data: Seq<u8>, a: int, b: int, c: int)
    requires
        parse_entries(data, a, b) is Some,
        parse_entries(data, b, c) is Some,
    ensures
        parse_entries(data, a, c) == Some(
            parse_entries(data, a, b).unwrap() + parse_entries(data, b, c).unwrap(),
        ),
    decreases b - a,
{
    lemma_parse_entries_bounds(data, a, b);
    lemma_parse_entries_bounds(data, b, c);
    let s1 = parse_entries(data, a, b).unwrap();
    let s2 = parse_entries(data, b, c).unwrap();
    if a == b {
        assert(s1 + s2 =~= s2);
    } else {
        lemma_parse_entry_bounds(data, a, b);
        let (e, p) = parse_entry(data, a, b).unwrap();
        lemma_parse_entry_local(data, a, b, data, c);
        lemma_parse_entries_join(data, p, b, c);
        let rest = parse_entries(data, p, b).unwrap();
        assert(seq![e] + (rest + s2) =~= s1 + s2);
    }
}

/// A run read up to a boundary inside a longer run is the start of the
/// longer run, and the rest of the longer run reads from the boundary.
pub proof fn lemma_parse_entries_split(data: Seq<u8>, a: int, b: int, c: int)
    requires
        parse_entries(data, a, b) is Some,
        parse_entries(data, a, c) is Some,
        b <= c,
    ensures
        parse_entries(data, b, c) is Some,
        parse_entries(data, a, c).unwrap() == parse_entries(data, a, b).unwrap() + parse_entries(
            data,
            b,
            c,
        ).unwrap(),
    decreases b - a,
{
    lemma_parse_entries_bounds(data, a, b);
    lemma_parse_entries_bounds(data, a, c);
    let s1 = parse_entries(data, a, b).unwrap();
    let s = parse_entries(data, a, c).unwrap();
    if a == b {
        assert(s1 + s =~= s);
    } else {
        lemma_parse_entry_bounds(data, a, b);
        let (e, p) = parse_entry(data, a, b).unwrap();
        lemma_parse_entry_local(data, a, b, data, c);
        lemma_parse_entries_split(data, p, b, c);
        let rest1 = parse_entries(data, p, b).unwrap();
        let rest2 = parse_entries(data, b, c).unwrap();
        assert(seq![e] + (rest1 + rest2) =~= s1 + rest2);
    }
}

/// A run of one entry.
pub proof fn lemma_parse_entries_single(data: Seq<u8>, pos: int, end: int)
    requires
        parse_entry(data, pos, end) is Some,
        parse_entry(data, pos, end).unwrap().1 == end,
    ensures
        parse_entries(data, pos, end) == Some(seq![parse_entry(data, pos, end).unwrap().0]),
{
    lemma_parse_entry_bounds(data, pos, end);
    let e = parse_entry(data, pos, end).unwrap().0;
    assert(parse_entries(data, end, end) == Some(Seq::<EntrySpec>::empty()));
    assert(seq![e] + Seq::<EntrySpec>::empty() =~= seq![e]);
}

/// Writing one more entry after a run that reads back gives a run that reads
/// back with the entry at its end.
pub proof fn lemma_parse_entries_push(
    data: Seq<u8>,
    pos: int,
    end: int,
    grown: Seq<u8>,
    e: EntrySpec,
)
    requires
        parse_entries(data, pos, end) is Some,
        end == data.len(),
        encodable(e),
        grown == data + encode_entry(e),
    ensures
        parse_entries(grown, pos, grown.len() as int) == Some(
            parse_entries(data, pos, end).unwrap().push(e),
        ),
        parse_entry(grown, end, grown.len() as int) == Some((e, grown.len() as int)),
{
    let stop = grown.len() as int;
    assert(grown.take(end) =~= data.take(end));
    lemma_parse_entries_local(data, pos, end, grown);
    assert(grown.subrange(end, stop) =~= encode_entry(e));
    lemma_entry_round_trip(grown, end, stop, e);
    lemma_parse_entries_single(grown, end, stop);
    lemma_parse_entries_join(grown, pos, end, stop);
    let s = parse_entries(data, pos, end).unwrap();
    assert(s + seq![e] =~= s.push(e));
}

/// Where the stored value at `pos` ends, going by its tag and length alone:
/// the bytes of a present value are not examined.
pub open spec fn value_extent(data: Seq<u8>, pos: int, end: int) -> Option<int> {
    if 0 <= pos < end && end <= data.len() {
        if data[pos] == TAG_PRESENT {
            match parse_u64(data, pos + 1, end) {
                Some((n, p)) => if p + n <= end {
                    Some(p + n)
                } else {
                    None
                },
                None => None,
            }
        } else if data[pos] == TAG_TOMBSTONE {
            match parse_u64(data, pos + 1, end) {
                Some((n, p)) => if n == 0 {
                    Some(p)
                } else {
                    None
                },
                None => None,
            }
        } else {
            None
        }
    } else {
        None
    }
}

/// Steps over the stored value at `pos` without decoding it.
pub fn skip_value(data: &[u8], pos: usize, end: usize) -> (r: Option<usize>)
    requires
        end <= data@.len(),
    ensures
        match r {
            Some(q) => value_extent(data@, pos as int, end as int) == Some(q as int),
            None => value_extent(data@, pos as int, end as int) is None,
        },
{
    if pos >= end {
        return None;
    }
    let tag = data[pos];
    if tag == TAG_PRESENT {
        match read_span(data, pos + 1, end) {
            None => None,
            Some((_, stop)) => Some(stop),
        }
    } else if tag == TAG_TOMBSTONE {
        match read_u64(data, pos + 1, end) {
            None => None,
            Some((n, p)) => if n == 0 {
                Some(p)
            } else {
                None
            },
        }
    } else {
        None
    }
}

/// What reading an entry tells about its bytes: the key's bytes follow the
/// length field and are the UTF-8 encoding of the key, and the stored value
/// ends where the entry ends.
pub proof fn lemma_parse_entry_layout(data: Seq<u8>, pos: int, end: int)
    requires
        parse_entry(data, pos, end) is Some,
    ensures
        parse_u64(data, pos, end) is Some,
        ({
            let n = parse_u64(data, pos, end).unwrap().0 as int;
            let e = parse_entry(data, pos, end).unwrap();
            &&& pos + 8 + n <= end
            &&& data.subrange(pos + 8, pos + 8 + n) == encode_utf8(e.0.0)
            &&& parse_value(data, pos + 8 + n, end) == Some((e.0.1, e.1))
            &&& value_extent(data, pos + 8 + n, end) == Some(e.1)
        }),
{
    let n = parse_u64(data, pos, end).unwrap().0 as int;
    decode_utf8_encode_utf8(data.subrange(pos + 8, pos + 8 + n));
}

/// Reads the run of entries that lies between two offsets.
pub fn decode_entries(data: &[u8], start: usize, end: usize) -> (r: Option<Vec<Entry>>)
    requires
        start <= end <= data@.len(),
    ensures
        match r {
            Some(v) => parse_entries(data@, start as int, end as int) == Some(entries_view(v@)),
            None => parse_entries(data@, start as int, end as int) is None,
        },
{
    let mut out: Vec<Entry> = Vec::new();
    let mut pos: usize = start;
    assert(entries_view(out@) =~= Seq::<EntrySpec>::empty());
    while pos < end
        invariant
            start <= pos <= end <= data@.len(),
            parse_entries(data@, start as int, pos as int) == Some(entries_view(out@)),
        decreases end - pos,
    {
        match read_entry(data, pos, end) {
            None => {
                proof {
                    if parse_entries(data@, start as int, end as int) is Some {
                        lemma_parse_entries_split(data@, start as int, pos as int, end as int);
                    }
                }
                return None;
            },
            Some((e, next)) => {
                proof {
                    lemma_parse_entry_bounds(data@, pos as int, end as int);
                    lemma_parse_entry_local(data@, pos as int, end as int, data@, next as int);
                    lemma_parse_entries_single(data@, pos as int, next as int);
                    lemma_parse_entries_join(data@, start as int, pos as int, next as int);
                    assert(entries_view(out@.push(e)) =~= entries_view(out@) + seq![e@]);
                }
                out.push(e);
                pos = next;
            },
        }
    }
    Some(out)
}

} // verus!
