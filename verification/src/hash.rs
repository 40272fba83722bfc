//! The digest accumulator: an ordered list of opaque binding materials is
//! folded into one 384-bit digest by feeding every blob, in list order,
//! into one streaming hash and finalizing once.  An empty list yields no
//! digest at all — absence is distinct from the hash of an empty input.

use vstd::prelude::*;
use sha2::Digest;
use crate::encoding::{blobs_view, concat_all, concat_blobs};

verus! {

/// The SHA-384 digest of a byte string.  The digest is a function of the
/// input bytes alone; its value is not modelled here.
pub uninterp spec fn sha384_of(bytes: Seq<u8>) -> Seq<u8>;

/// Relies on sha2::Sha384 (`Digest::update` then `Digest::finalize`):
/// the result is the 48-byte SHA-384 digest of the input, a function of
/// the input bytes alone.
#[verifier::external_body]
pub fn sha384(bytes: &Vec<u8>) -> (r: Vec<u8>)
    ensures
        r@ == sha384_of(bytes@),
        r@.len() == 48,
{
    let mut h = sha2::Sha384::new();
    h.update(bytes.as_slice());
    h.finalize().to_vec()
}

/// What the accumulator returns: nothing for an empty list, otherwise the
/// digest of the in-order concatenation of the blobs.  Feeding blobs one
/// by one into a streaming hash is the same as hashing their
/// concatenation.
pub open spec fn accumulate_spec(ms: Seq<Seq<u8>>) -> Option<Seq<u8>> {
    if ms.len() == 0 {
        None
    } else {
        Some(sha384_of(concat_all(ms)))
    }
}

/// Folds an ordered list of binding materials into one digest, or
/// reports absence when the list is empty.
pub fn accumulate(materials: &Vec<Vec<u8>>) -> (r: Option<Vec<u8>>)
    ensures
        match r {
            None => materials@.len() == 0,
            Some(d) => materials@.len() > 0 && d@ == sha384_of(concat_all(blobs_view(materials@)))
                && d@.len() == 48,
        },
        accumulate_spec(blobs_view(materials@)) == match r {
            None => None::<Seq<u8>>,
            Some(d) => Some(d@),
        },
{
    if materials.len() == 0 {
        None
    } else {
        let joined = concat_blobs(materials);
        Some(sha384(&joined))
    }
}

/// The accumulator feeds the hash an order-sensitive input: swapping two
/// distinct equal-length blobs changes the hashed bytes.
pub proof fn lemma_accumulate_order_sensitive(a: Seq<u8>, b: Seq<u8>)
    requires
        a.len() == b.len(),
        a != b,
    ensures
        concat_all(seq![a, b]) != concat_all(seq![b, a]),
{
    assert(concat_all(seq![a, b]) == concat_all(seq![a, b].drop_last()) + b);
    assert(seq![a, b].drop_last() =~= seq![a]);
    assert(concat_all(seq![a]) == concat_all(seq![a].drop_last()) + a);
    assert(seq![a].drop_last() =~= Seq::<Seq<u8>>::empty());
    assert(concat_all(seq![a, b]) =~= a + b);
    assert(concat_all(seq![b, a]) == concat_all(seq![b, a].drop_last()) + a);
    assert(seq![b, a].drop_last() =~= seq![b]);
    assert(concat_all(seq![b]) == concat_all(seq![b].drop_last()) + b);
    assert(seq![b].drop_last() =~= Seq::<Seq<u8>>::empty());
    assert(concat_all(seq![b, a]) =~= b + a);
    if a + b == b + a {
        assert(a =~= (a + b).take(a.len() as int));
        assert(b =~= (b + a).take(b.len() as int));
    }
}

/// Absence of a digest for the empty list is distinct from the digest of
/// a list holding one empty blob, which is present.
pub proof fn lemma_accumulate_empty_distinct()
    ensures
        accumulate_spec(Seq::empty()) is None,
        accumulate_spec(seq![Seq::<u8>::empty()]) is Some,
{
}

} // verus!
