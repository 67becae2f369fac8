//! The manifest: what storage records about the catalog, so that an engine
//! can be opened again. It holds the sequence number of the last flushed
//! change and the identifiers of the live segments, newest first, each as
//! an integer of eight bytes.
use vstd::prelude::*;
use vstd::bytes::*;
use crate::codec::{encode_u64, lemma_u64_len, put_u64, read_u64};

verus! {

/// The identifiers one after another.
pub open spec fn encode_ids(ids: Seq<u64>) -> Seq<u8>
    decreases ids.len(),
{
    if ids.len() == 0 {
        Seq::empty()
    } else {
        encode_ids(ids.drop_last()) + encode_u64(ids.last())
    }
}

/// The bytes of a manifest.
pub open spec fn manifest_image(flushed: u64, ids: Seq<u64>) -> Seq<u8> {
    encode_u64(flushed) + encode_ids(ids)
}

/// Number of bytes of encoded identifiers.
pub proof fn lemma_encode_ids_len(ids: Seq<u64>)
    ensures
        encode_ids(ids).len() == 8 * ids.len(),
    decreases ids.len(),
{
    if ids.len() > 0 {
        lemma_encode_ids_len(ids.drop_last());
        lemma_u64_len(ids.last());
    }
}

/// Manifests with the same bytes record the same.
pub proof fn lemma_manifest_injective(f1: u64, ids1: Seq<u64>, f2: u64, ids2: Seq<u64>)
    requires
        manifest_image(f1, ids1) == manifest_image(f2, ids2),
    ensures
        f1 == f2,
        ids1 == ids2,
{
    lemma_u64_len(f1);
    lemma_u64_len(f2);
    let a = manifest_image(f1, ids1);
    assert(a.subrange(0, 8) =~= encode_u64(f1));
    assert(a.subrange(0, 8) =~= encode_u64(f2));
    assert(encode_ids(ids1) =~= a.subrange(8, a.len() as int));
    assert(encode_ids(ids2) =~= a.subrange(8, a.len() as int));
    lemma_ids_injective(ids1, ids2);
}

proof fn lemma_ids_injective(a: Seq<u64>, b: Seq<u64>)
    requires
        encode_ids(a) == encode_ids(b),
    ensures
        a == b,
    decreases a.len(),
{
    lemma_encode_ids_len(a);
    lemma_encode_ids_len(b);
    if a.len() == 0 {
        assert(a =~= b);
    } else {
        let x = encode_ids(a);
        let n = x.len() as int;
        lemma_encode_ids_len(a.drop_last());
        lemma_encode_ids_len(b.drop_last());
        lemma_u64_len(a.last());
        lemma_u64_len(b.last());
        assert(x.subrange(n - 8, n) =~= encode_u64(a.last()));
        assert(x.subrange(n - 8, n) =~= encode_u64(b.last()));
        assert(x.subrange(0, n - 8) =~= encode_ids(a.drop_last()));
        assert(x.subrange(0, n - 8) =~= encode_ids(b.drop_last()));
        lemma_ids_injective(a.drop_last(), b.drop_last());
        assert(a =~= a.drop_last().push(a.last()));
        assert(b =~= b.drop_last().push(b.last()));
    }
}

/// Writes a manifest.
pub fn encode_manifest(flushed: u64, ids: &Vec<u64>) -> (image: Vec<u8>)
    ensures
        image@ == manifest_image(flushed, ids@),
{
    let mut image: Vec<u8> = Vec::new();
    put_u64(&mut image, flushed);
    let mut i: usize = 0;
    proof {
        assert(ids@.take(0) =~= Seq::<u64>::empty());
        assert(image@ =~= manifest_image(flushed, ids@.take(0)));
    }
    while i < ids.len()
        invariant
            i <= ids@.len(),
            image@ == manifest_image(flushed, ids@.take(i as int)),
        decreases ids@.len() - i,
    {
        put_u64(&mut image, ids[i]);
        proof {
            assert(ids@.take(i + 1).drop_last() =~= ids@.take(i as int));
            assert(ids@.take(i + 1).last() == ids@[i as int]);
            assert(image@ =~= manifest_image(flushed, ids@.take(i + 1)));
        }
        i = i + 1;
    }
    proof {
        assert(ids@.take(i as int) =~= ids@);
    }
    image
}

/// Reads a manifest: the bytes must be a whole number of integers, the
/// first of which is the flushed sequence number.
pub fn decode_manifest(image: &[u8]) -> (r: Option<(u64, Vec<u64>)>)
    ensures
        match r {
            Some((flushed, ids)) => {
                &&& image@ == manifest_image(flushed, ids@)
                &&& forall|f: u64, other: Seq<u64>|
                    image@ == #[trigger] manifest_image(f, other) ==> f == flushed && other
                        == ids@
            },
            None => forall|flushed: u64, ids: Seq<u64>|
                image@ != #[trigger] manifest_image(flushed, ids),
        },
{
    let len = image.len();
    if len < 8 || len % 8 != 0 {
        proof {
            assert forall|flushed: u64, ids: Seq<u64>| image@ != #[trigger] manifest_image(
                flushed,
                ids,
            ) by {
                lemma_u64_len(flushed);
                lemma_encode_ids_len(ids);
            }
        }
        return None;
    }
    let flushed = match read_u64(image, 0, len) {
        Some((flushed, _)) => flushed,
        None => {
            assert(false);
            return None;
        },
    };
    let mut ids: Vec<u64> = Vec::new();
    let mut pos: usize = 8;
    proof {
        lemma_auto_spec_u64_to_from_le_bytes();
        assert(image@.subrange(0, 8) =~= image@.take(8));
        assert(encode_ids(ids@) =~= Seq::<u8>::empty());
        assert(image@.take(8) =~= manifest_image(flushed, ids@));
    }
    while pos < len
        invariant
            8 <= pos <= len,
            len == image@.len(),
            pos % 8 == 0,
            len % 8 == 0,
            image@.take(pos as int) == manifest_image(flushed, ids@),
        decreases len - pos,
    {
        let id = match read_u64(image, pos, len) {
            Some((id, _)) => id,
            None => {
                assert(false);
                return None;
            },
        };
        let ghost before = ids@;
        ids.push(id);
        proof {
            lemma_auto_spec_u64_to_from_le_bytes();
            assert(ids@.drop_last() =~= before);
            assert(image@.take(pos + 8) =~= image@.take(pos as int) + image@.subrange(
                pos as int,
                pos + 8,
            ));
            assert(image@.take(pos + 8) =~= manifest_image(flushed, ids@));
        }
        pos = pos + 8;
    }
    proof {
        assert(image@.take(len as int) =~= image@);
        assert forall|f: u64, other: Seq<u64>|
            image@ == #[trigger] manifest_image(f, other) implies f == flushed && other
            == ids@ by {
            lemma_manifest_injective(f, other, flushed, ids@);
        }
    }
    Some((flushed, ids))
}

} // verus!
