//! The built-in token issuer: the decision payload — selected policy
//! identifiers, normalized claims, and per-policy outcomes — is encoded
//! into one length-delimited byte string.  Every field is framed as
//! `<decimal length>:<bytes>`, so the token determines the payload
//! unambiguously; the core only issues tokens, it never parses them.

use vstd::prelude::*;
use crate::encoding::{blobs_view, dec_of, dec_u64};
use crate::claims::append_bytes;

verus! {

/// One length-delimited frame: the byte count in decimal, a colon, the
/// bytes.
pub open spec fn frame(x: Seq<u8>) -> Seq<u8> {
    dec_of(x.len()) + seq![58u8] + x
}

/// The concatenated frames of a list of fields.
pub open spec fn frames(items: Seq<Seq<u8>>) -> Seq<u8>
    decreases items.len(),
{
    if items.len() == 0 {
        Seq::empty()
    } else {
        frames(items.drop_last()) + frame(items.last())
    }
}

/// The fields of the claims section: each key followed by its value.
pub open spec fn claim_fields(claims: Seq<(Seq<u8>, Seq<u8>)>) -> Seq<Seq<u8>>
    decreases claims.len(),
{
    if claims.len() == 0 {
        Seq::empty()
    } else {
        claim_fields(claims.drop_last()) + seq![claims.last().0, claims.last().1]
    }
}

/// The fields of the outcomes section: for each policy a pass marker
/// (`1` or `0`) followed by its evaluation report.
pub open spec fn outcome_fields(outcomes: Seq<(bool, Seq<u8>)>) -> Seq<Seq<u8>>
    decreases outcomes.len(),
{
    if outcomes.len() == 0 {
        Seq::empty()
    } else {
        outcome_fields(outcomes.drop_last()) + seq![
            if outcomes.last().0 {
                seq![49u8]
            } else {
                seq![48u8]
            },
            outcomes.last().1,
        ]
    }
}

/// The token issued for a decision payload: the three sections in fixed
/// order, each introduced by its element count.
pub open spec fn token_spec(
    ids: Seq<Seq<u8>>,
    claims: Seq<(Seq<u8>, Seq<u8>)>,
    outcomes: Seq<(bool, Seq<u8>)>,
) -> Seq<u8> {
    frame(dec_of(ids.len())) + frames(ids) + frame(dec_of(claims.len())) + frames(
        claim_fields(claims),
    ) + frame(dec_of(outcomes.len())) + frames(outcome_fields(outcomes))
}

/// Appends one frame to the token being built.
fn push_frame(out: &mut Vec<u8>, item: &Vec<u8>)
    ensures
        final(out)@ == old(out)@ + frame(item@),
{
    let len_bytes = dec_u64(item.len() as u64);
    append_bytes(out, &len_bytes);
    out.push(58);
    append_bytes(out, item);
    proof {
        assert(final(out)@ =~= old(out)@ + frame(item@));
    }
}

/// Encodes the decision payload into the token byte string.
pub fn issue(
    ids: &Vec<Vec<u8>>,
    claims: &Vec<(Vec<u8>, Vec<u8>)>,
    outcomes: &Vec<(bool, Vec<u8>)>,
) -> (r: Vec<u8>)
    ensures
        r@ == token_spec(
            blobs_view(ids@),
            crate::claims::entries_view(claims@),
            crate::policy::outcomes_view(outcomes@),
        ),
{
    let ghost idv = blobs_view(ids@);
    let ghost clv = crate::claims::entries_view(claims@);
    let ghost ov = crate::policy::outcomes_view(outcomes@);
    let mut out: Vec<u8> = Vec::new();
    let id_count = dec_u64(ids.len() as u64);
    push_frame(&mut out, &id_count);
    let mut i: usize = 0;
    while i < ids.len()
        invariant
            i <= ids@.len(),
            idv == blobs_view(ids@),
            out@ == frame(dec_of(idv.len())) + frames(idv.take(i as int)),
        decreases ids@.len() - i,
    {
        let ghost out_prev = out@;
        push_frame(&mut out, &ids[i]);
        proof {
            assert(idv.take(i + 1 as int).drop_last() =~= idv.take(i as int));
            assert(idv.take(i + 1 as int).last() == idv[i as int]);
            assert(out@ =~= frame(dec_of(idv.len())) + frames(idv.take(i + 1 as int)));
        }
        i = i + 1;
    }
    proof {
        assert(idv.take(idv.len() as int) =~= idv);
    }
    let ghost sec1 = frame(dec_of(idv.len())) + frames(idv);
    let claim_count = dec_u64(claims.len() as u64);
    push_frame(&mut out, &claim_count);
    let mut j: usize = 0;
    while j < claims.len()
        invariant
            j <= claims@.len(),
            clv == crate::claims::entries_view(claims@),
            sec1 == frame(dec_of(blobs_view(ids@).len())) + frames(blobs_view(ids@)),
            out@ == sec1 + frame(dec_of(clv.len())) + frames(claim_fields(clv.take(j as int))),
        decreases claims@.len() - j,
    {
        push_frame(&mut out, &claims[j].0);
        push_frame(&mut out, &claims[j].1);
        proof {
            let pre = claim_fields(clv.take(j as int));
            let cur = claim_fields(clv.take(j + 1 as int));
            assert(clv.take(j + 1 as int).drop_last() =~= clv.take(j as int));
            assert(clv.take(j + 1 as int).last() == clv[j as int]);
            assert(cur == pre + seq![clv[j as int].0, clv[j as int].1]);
            assert(cur.drop_last() =~= pre.push(clv[j as int].0));
            assert(cur.last() == clv[j as int].1);
            assert(frames(cur) == frames(cur.drop_last()) + frame(clv[j as int].1));
            assert(pre.push(clv[j as int].0).drop_last() =~= pre);
            assert(frames(pre.push(clv[j as int].0)) == frames(pre) + frame(clv[j as int].0));
            assert(out@ =~= sec1 + frame(dec_of(clv.len())) + frames(cur));
        }
        j = j + 1;
    }
    proof {
        assert(clv.take(clv.len() as int) =~= clv);
    }
    let ghost sec2 = sec1 + frame(dec_of(clv.len())) + frames(claim_fields(clv));
    let outcome_count = dec_u64(outcomes.len() as u64);
    push_frame(&mut out, &outcome_count);
    let mut k: usize = 0;
    while k < outcomes.len()
        invariant
            k <= outcomes@.len(),
            ov == crate::policy::outcomes_view(outcomes@),
            sec2 == frame(dec_of(blobs_view(ids@).len())) + frames(blobs_view(ids@)) + frame(
                dec_of(crate::claims::entries_view(claims@).len()),
            ) + frames(claim_fields(crate::claims::entries_view(claims@))),
            out@ == sec2 + frame(dec_of(ov.len())) + frames(
                outcome_fields(ov.take(k as int)),
            ),
        decreases outcomes@.len() - k,
    {
        let mut marker: Vec<u8> = Vec::new();
        if outcomes[k].0 {
            marker.push(49);
        } else {
            marker.push(48);
        }
        push_frame(&mut out, &marker);
        push_frame(&mut out, &outcomes[k].1);
        proof {
            let pre = outcome_fields(ov.take(k as int));
            let cur = outcome_fields(ov.take(k + 1 as int));
            let mk: Seq<u8> = if ov[k as int].0 {
                seq![49u8]
            } else {
                seq![48u8]
            };
            assert(marker@ =~= mk);
            assert(ov.take(k + 1 as int).drop_last() =~= ov.take(k as int));
            assert(ov.take(k + 1 as int).last() == ov[k as int]);
            assert(cur == pre + seq![mk, ov[k as int].1]);
            assert(cur.drop_last() =~= pre.push(mk));
            assert(cur.last() == ov[k as int].1);
            assert(frames(cur) == frames(cur.drop_last()) + frame(ov[k as int].1));
            assert(pre.push(mk).drop_last() =~= pre);
            assert(frames(pre.push(mk)) == frames(pre) + frame(mk));
            assert(out@ =~= sec2 + frame(dec_of(ov.len())) + frames(cur));
        }
        k = k + 1;
    }
    proof {
        assert(ov.take(ov.len() as int) =~= ov);
        assert(out@ =~= token_spec(idv, clv, ov));
    }
    out
}

} // verus!
