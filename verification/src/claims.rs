//! Claims produced by a verifier, and their normalization: the nested,
//! TEE-specific claim tree is flattened into a flat list of entries whose
//! keys are the path from root to leaf, segments joined by the separator
//! and the whole key prefixed by the TEE variant's name.

use vstd::prelude::*;
use crate::encoding::{dec_of, dec_u64, lemma_dec_injective, lemma_dec_sep_free, sep_free, SEP};
use crate::errors::Error;
use crate::tee::{lemma_tee_name_injective, lemma_tee_name_sep_free, tee_name, TeeVariant};

verus! {

broadcast use vstd::std_specs::vec::group_vec_axioms;

/// The nested, TEE-specific structure returned by a verifier: a tree of
/// boolean, numeric and text leaves under arbitrarily nested composite
/// nodes.
#[derive(Debug)]
pub enum RawClaims {
    /// A leaf with no representable value.
    Null,
    /// A boolean leaf.
    Bool(bool),
    /// A numeric leaf.
    Num(u64),
    /// A text leaf.
    Text(Vec<u8>),
    /// An ordered composite node; the position of each child is encoded
    /// into the flattened key path.
    List(Vec<RawClaims>),
    /// A keyed composite node.
    Object(Vec<(Vec<u8>, RawClaims)>),
}

/// The bytes `true` / `false`.
pub open spec fn bool_bytes(b: bool) -> Seq<u8> {
    if b {
        seq![116u8, 114u8, 117u8, 101u8]
    } else {
        seq![102u8, 97u8, 108u8, 115u8, 101u8]
    }
}

/// A well-formed claim tree: object keys are nonempty, free of the
/// separator, and unique within each node.  Verifiers only produce such
/// trees; the constraints are what makes flattened keys unambiguous.
pub open spec fn wf_claims(t: RawClaims) -> bool
    decreases t,
{
    match t {
        RawClaims::List(cs) => forall|i: int| 0 <= i < cs@.len() ==> wf_claims(#[trigger] cs@[i]),
        RawClaims::Object(es) => {
            &&& forall|i: int|
                0 <= i < es@.len() ==> {
                    &&& (#[trigger] es@[i]).0@.len() > 0
                    &&& sep_free(es@[i].0@)
                    &&& wf_claims(es@[i].1)
                }
            &&& forall|i: int, j: int|
                0 <= i < j < es@.len() ==> (#[trigger] es@[i]).0@ != (#[trigger] es@[j]).0@
        },
        _ => true,
    }
}

/// The flattening of one claim tree under a key prefix: the list of
/// (key, value) entries contributed by its leaves, in tree order, or
/// nothing if some leaf has no text representation.
pub open spec fn flat(p: Seq<u8>, t: RawClaims) -> Option<Seq<(Seq<u8>, Seq<u8>)>>
    decreases t, 0int, 0int,
{
    match t {
        RawClaims::Null => None,
        RawClaims::Bool(b) => Some(seq![(p, bool_bytes(b))]),
        RawClaims::Num(n) => Some(seq![(p, dec_of(n as nat))]),
        RawClaims::Text(v) => Some(seq![(p, v@)]),
        RawClaims::List(cs) => flat_list(p, cs, 0),
        RawClaims::Object(es) => flat_obj(p, es, 0),
    }
}

/// Flattening of the children of an ordered composite from index `i` on;
/// each child's key segment is its position rendered in decimal.
pub open spec fn flat_list(p: Seq<u8>, cs: Vec<RawClaims>, i: int) -> Option<
    Seq<(Seq<u8>, Seq<u8>)>,
>
    decreases cs, 1int, cs@.len() - i,
{
    if i < 0 || i >= cs@.len() {
        Some(Seq::empty())
    } else {
        match flat(p + seq![SEP] + dec_of(i as nat), cs@[i]) {
            None => None,
            Some(head) => match flat_list(p, cs, i + 1) {
                None => None,
                Some(tail) => Some(head + tail),
            },
        }
    }
}

/// Flattening of the children of a keyed composite from index `i` on.
pub open spec fn flat_obj(p: Seq<u8>, es: Vec<(Vec<u8>, RawClaims)>, i: int) -> Option<
    Seq<(Seq<u8>, Seq<u8>)>,
>
    decreases es, 1int, es@.len() - i,
{
    if i < 0 || i >= es@.len() {
        Some(Seq::empty())
    } else {
        match flat(p + seq![SEP] + es@[i].0@, es@[i].1) {
            None => None,
            Some(head) => match flat_obj(p, es, i + 1) {
                None => None,
                Some(tail) => Some(head + tail),
            },
        }
    }
}

/// The view of a flat entry list.
pub open spec fn entries_view(v: Seq<(Vec<u8>, Vec<u8>)>) -> Seq<(Seq<u8>, Seq<u8>)> {
    v.map_values(|e: (Vec<u8>, Vec<u8>)| (e.0@, e.1@))
}

/// Appends the bytes of `src` to `dst`.
pub fn append_bytes(dst: &mut Vec<u8>, src: &Vec<u8>)
    ensures
        final(dst)@ == old(dst)@ + src@,
{
    let mut j: usize = 0;
    while j < src.len()
        invariant
            j <= src.len(),
            dst@ == old(dst)@ + src@.take(j as int),
        decreases src.len() - j,
    {
        dst.push(src[j]);
        proof {
            assert(old(dst)@ + src@.take(j + 1 as int) =~= (old(dst)@ + src@.take(j as int)).push(
                src@[j as int],
            ));
        }
        j = j + 1;
    }
    proof { assert(src@.take(src@.len() as int) =~= src@); }
}

/// Writes the entries of `flat(prefix, *t)` onto the end of `out`.
/// On failure the contents of `out` are not meaningful; the caller
/// discards them.
fn flatten_node(prefix: &Vec<u8>, t: &RawClaims, out: &mut Vec<(Vec<u8>, Vec<u8>)>) -> (ok: bool)
    ensures
        ok <==> flat(prefix@, *t) is Some,
        ok ==> entries_view(final(out)@) == entries_view(old(out)@) + flat(prefix@, *t).unwrap(),
    decreases *t,
{
    match t {
        RawClaims::Null => false,
        RawClaims::Bool(b) => {
            let mut value: Vec<u8> = Vec::new();
            if *b {
                value.push(116);
                value.push(114);
                value.push(117);
                value.push(101);
            } else {
                value.push(102);
                value.push(97);
                value.push(108);
                value.push(115);
                value.push(101);
            }
            let mut key: Vec<u8> = Vec::new();
            append_bytes(&mut key, prefix);
            proof { assert(value@ =~= bool_bytes(*b)); }
            out.push((key, value));
            proof {
                assert(entries_view(out@) =~= entries_view(old(out)@) + flat(
                    prefix@,
                    *t,
                ).unwrap());
            }
            true
        },
        RawClaims::Num(n) => {
            let value = dec_u64(*n);
            let mut key: Vec<u8> = Vec::new();
            append_bytes(&mut key, prefix);
            out.push((key, value));
            proof {
                assert(entries_view(out@) =~= entries_view(old(out)@) + flat(
                    prefix@,
                    *t,
                ).unwrap());
            }
            true
        },
        RawClaims::Text(v) => {
            let mut value: Vec<u8> = Vec::new();
            append_bytes(&mut value, v);
            let mut key: Vec<u8> = Vec::new();
            append_bytes(&mut key, prefix);
            out.push((key, value));
            proof {
                assert(entries_view(out@) =~= entries_view(old(out)@) + flat(
                    prefix@,
                    *t,
                ).unwrap());
            }
            true
        },
        RawClaims::List(cs) => {
            let mut i: usize = 0;
            let ghost out0 = out@;
            while i < cs.len()
                invariant
                    i <= cs@.len(),
                    *t == RawClaims::List(*cs),
                    flat_list(prefix@, *cs, 0) is Some <==> flat_list(
                        prefix@,
                        *cs,
                        i as int,
                    ) is Some,
                    flat_list(prefix@, *cs, 0) is Some ==> entries_view(out@) + flat_list(
                        prefix@,
                        *cs,
                        i as int,
                    ).unwrap() == entries_view(out0) + flat_list(prefix@, *cs, 0).unwrap(),
                decreases cs@.len() - i,
            {
                let mut child_prefix: Vec<u8> = Vec::new();
                append_bytes(&mut child_prefix, prefix);
                child_prefix.push(SEP);
                let seg = dec_u64(i as u64);
                append_bytes(&mut child_prefix, &seg);
                proof {
                    assert(child_prefix@ =~= prefix@ + seq![SEP] + dec_of(i as nat));
                }
                let ghost out_before = out@;
                proof {
                    assert(*t == RawClaims::List(*cs));
                    assert(decreases_to!(*t => *cs));
                    assert(decreases_to!(*cs => cs@[i as int]));
                }
                let ok = flatten_node(&child_prefix, &cs[i], out);
                if !ok {
                    proof {
                        reveal_with_fuel(flat_list, 2);
                        assert(flat(child_prefix@, cs@[i as int]) is None);
                        assert(flat_list(prefix@, *cs, i as int) is None);
                        assert(flat_list(prefix@, *cs, 0) is None);
                        assert(flat(prefix@, *t) is None);
                    }
                    return false;
                }
                proof {
                    let head = flat(child_prefix@, cs@[i as int]).unwrap();
                    if flat_list(prefix@, *cs, 0) is Some {
                        let tail = flat_list(prefix@, *cs, i + 1 as int).unwrap();
                        assert(flat_list(prefix@, *cs, i as int).unwrap() == head + tail);
                        assert(entries_view(out@) + tail =~= entries_view(out_before) + (head
                            + tail));
                        assert(entries_view(out_before) + (head + tail) =~= entries_view(
                            out_before,
                        ) + flat_list(prefix@, *cs, i as int).unwrap());
                    }
                }
                i = i + 1;
            }
            proof {
                assert(flat(prefix@, *t) == flat_list(prefix@, *cs, 0));
                if flat_list(prefix@, *cs, 0) is Some {
                    assert(flat_list(prefix@, *cs, cs@.len() as int).unwrap() =~= Seq::<
                        (Seq<u8>, Seq<u8>),
                    >::empty());
                    assert(entries_view(out@) + Seq::<(Seq<u8>, Seq<u8>)>::empty() =~= entries_view(
                        out@,
                    ));
                }
            }
            true
        },
        RawClaims::Object(es) => {
            let mut i: usize = 0;
            let ghost out0 = out@;
            while i < es.len()
                invariant
                    i <= es@.len(),
                    *t == RawClaims::Object(*es),
                    flat_obj(prefix@, *es, 0) is Some <==> flat_obj(
                        prefix@,
                        *es,
                        i as int,
                    ) is Some,
                    flat_obj(prefix@, *es, 0) is Some ==> entries_view(out@) + flat_obj(
                        prefix@,
                        *es,
                        i as int,
                    ).unwrap() == entries_view(out0) + flat_obj(prefix@, *es, 0).unwrap(),
                decreases es@.len() - i,
            {
                let mut child_prefix: Vec<u8> = Vec::new();
                append_bytes(&mut child_prefix, prefix);
                child_prefix.push(SEP);
                append_bytes(&mut child_prefix, &es[i].0);
                proof {
                    assert(child_prefix@ =~= prefix@ + seq![SEP] + es@[i as int].0@);
                }
                let ghost out_before = out@;
                proof {
                    assert(*t == RawClaims::Object(*es));
                    assert(decreases_to!(*t => *es));
                    assert(decreases_to!(*es => es@[i as int]));
                    assert(decreases_to!(es@[i as int] => es@[i as int].1));
                }
                let ok = flatten_node(&child_prefix, &es[i].1, out);
                if !ok {
                    proof {
                        reveal_with_fuel(flat_obj, 2);
                        assert(flat(child_prefix@, es@[i as int].1) is None);
                        assert(flat_obj(prefix@, *es, i as int) is None);
                        assert(flat_obj(prefix@, *es, 0) is None);
                        assert(flat(prefix@, *t) is None);
                    }
                    return false;
                }
                proof {
                    let head = flat(child_prefix@, es@[i as int].1).unwrap();
                    if flat_obj(prefix@, *es, 0) is Some {
                        let tail = flat_obj(prefix@, *es, i + 1 as int).unwrap();
                        assert(flat_obj(prefix@, *es, i as int).unwrap() == head + tail);
                        assert(entries_view(out@) + tail =~= entries_view(out_before) + (head
                            + tail));
                        assert(entries_view(out_before) + (head + tail) =~= entries_view(
                            out_before,
                        ) + flat_obj(prefix@, *es, i as int).unwrap());
                    }
                }
                i = i + 1;
            }
            proof {
                assert(flat(prefix@, *t) == flat_obj(prefix@, *es, 0));
                if flat_obj(prefix@, *es, 0) is Some {
                    assert(flat_obj(prefix@, *es, es@.len() as int).unwrap() =~= Seq::<
                        (Seq<u8>, Seq<u8>),
                    >::empty());
                    assert(entries_view(out@) + Seq::<(Seq<u8>, Seq<u8>)>::empty() =~= entries_view(
                        out@,
                    ));
                }
            }
            true
        },
    }
}

/// Recursively walks the claim tree and produces one entry per leaf,
/// keyed by the path from root to leaf prefixed with the TEE variant's
/// name.  Fails with `MalformedClaims` if some leaf has no text
/// representation.
pub fn flatten_claims(tee: TeeVariant, raw: &RawClaims) -> (r: Result<
    Vec<(Vec<u8>, Vec<u8>)>,
    Error,
>)
    ensures
        match r {
            Ok(v) => flat(tee_name(tee), *raw) == Some(entries_view(v@)),
            Err(e) => flat(tee_name(tee), *raw) is None && e == Error::MalformedClaims,
        },
{
    let prefix = tee.name();
    let mut out: Vec<(Vec<u8>, Vec<u8>)> = Vec::new();
    let ok = flatten_node(&prefix, raw, &mut out);
    if ok {
        proof {
            assert(entries_view(Seq::<(Vec<u8>, Vec<u8>)>::empty()) + flat(
                tee_name(tee),
                *raw,
            ).unwrap() =~= flat(tee_name(tee), *raw).unwrap());
        }
        Ok(out)
    } else {
        Err(Error::MalformedClaims)
    }
}

/// A key that lies in the namespace of the prefix `p`: it extends `p`,
/// and where it goes on, it goes on with the separator.
pub open spec fn rooted(x: Seq<u8>, p: Seq<u8>) -> bool {
    &&& x.len() >= p.len()
    &&& x.take(p.len() as int) == p
    &&& (x.len() == p.len() || x[p.len() as int] == SEP)
}

/// All keys of a flat entry list are distinct.
pub open spec fn distinct_keys(es: Seq<(Seq<u8>, Seq<u8>)>) -> bool {
    forall|i: int, j: int| 0 <= i < j < es.len() ==> (#[trigger] es[i]).0 != (#[trigger] es[j]).0
}

/// No key lies in the namespaces of two distinct separator-free prefixes.
pub proof fn lemma_rooted_incompatible(x: Seq<u8>, a: Seq<u8>, b: Seq<u8>)
    requires
        sep_free(a),
        sep_free(b),
        a != b,
        rooted(x, a),
    ensures
        !rooted(x, b),
{
    if rooted(x, b) {
        if a.len() == b.len() {
            assert(a =~= b);
        } else if a.len() < b.len() {
            assert(x.len() >= b.len());
            assert(x[a.len() as int] == SEP);
            assert(b[a.len() as int] == x.take(b.len() as int)[a.len() as int]);
        } else {
            assert(x.len() >= a.len());
            assert(x[b.len() as int] == SEP);
            assert(a[b.len() as int] == x.take(a.len() as int)[b.len() as int]);
        }
    }
}

/// A key rooted at `p + SEP + seg` is rooted at `p`, and its residue
/// beyond `p + SEP` is rooted at the segment alone.
pub proof fn lemma_rooted_step(x: Seq<u8>, p: Seq<u8>, seg: Seq<u8>)
    requires
        rooted(x, p + seq![SEP] + seg),
    ensures
        rooted(x, p),
        rooted(x.skip(p.len() as int + 1), seg),
{
    let q = p + seq![SEP] + seg;
    assert(x.take(q.len() as int) == q);
    assert forall|i: int| 0 <= i < q.len() implies x[i] == q[i] by {
        assert(x.take(q.len() as int)[i] == x[i]);
    }
    assert(x.take(p.len() as int) =~= p);
    assert(x[p.len() as int] == q[p.len() as int]);
    let y = x.skip(p.len() as int + 1);
    assert(y.take(seg.len() as int) =~= seg) by {
        assert forall|i: int| 0 <= i < seg.len() implies y[i] == seg[i] by {
            assert(x[p.len() + 1 + i] == q[p.len() + 1 + i]);
        }
    }
    if y.len() > seg.len() {
        assert(x.len() > q.len());
        assert(y[seg.len() as int] == x[q.len() as int]);
    }
}

/// Every key produced by flattening under `p` is rooted at `p`.
pub proof fn lemma_flat_rooted(p: Seq<u8>, t: RawClaims)
    ensures
        flat(p, t) is Some ==> forall|k: int|
            0 <= k < flat(p, t).unwrap().len() ==> rooted(
                (#[trigger] flat(p, t).unwrap()[k]).0,
                p,
            ),
    decreases t, 0int, 0int,
{
    match t {
        RawClaims::List(cs) => {
            lemma_flat_list_rooted(p, cs, 0);
        },
        RawClaims::Object(es) => {
            lemma_flat_obj_rooted(p, es, 0);
        },
        _ => {
            if flat(p, t) is Some {
                assert(p.take(p.len() as int) =~= p);
            }
        },
    }
}

proof fn lemma_flat_list_rooted(p: Seq<u8>, cs: Vec<RawClaims>, i: int)
    ensures
        flat_list(p, cs, i) is Some ==> forall|k: int|
            0 <= k < flat_list(p, cs, i).unwrap().len() ==> rooted(
                (#[trigger] flat_list(p, cs, i).unwrap()[k]).0,
                p,
            ),
    decreases cs, 1int, cs@.len() - i,
{
    if 0 <= i < cs@.len() && flat_list(p, cs, i) is Some {
        let q = p + seq![SEP] + dec_of(i as nat);
        let head = flat(q, cs@[i]).unwrap();
        let tail = flat_list(p, cs, i + 1).unwrap();
        lemma_flat_rooted(q, cs@[i]);
        lemma_flat_list_rooted(p, cs, i + 1);
        assert(flat_list(p, cs, i).unwrap() == head + tail);
        assert forall|k: int| 0 <= k < (head + tail).len() implies rooted(
            (#[trigger] (head + tail)[k]).0,
            p,
        ) by {
            if k < head.len() {
                assert((head + tail)[k] == head[k]);
                lemma_rooted_step(head[k].0, p, dec_of(i as nat));
            } else {
                assert((head + tail)[k] == tail[k - head.len()]);
            }
        }
    }
}

proof fn lemma_flat_obj_rooted(p: Seq<u8>, es: Vec<(Vec<u8>, RawClaims)>, i: int)
    ensures
        flat_obj(p, es, i) is Some ==> forall|k: int|
            0 <= k < flat_obj(p, es, i).unwrap().len() ==> rooted(
                (#[trigger] flat_obj(p, es, i).unwrap()[k]).0,
                p,
            ),
    decreases es, 1int, es@.len() - i,
{
    if 0 <= i < es@.len() && flat_obj(p, es, i) is Some {
        let q = p + seq![SEP] + es@[i].0@;
        let head = flat(q, es@[i].1).unwrap();
        let tail = flat_obj(p, es, i + 1).unwrap();
        lemma_flat_rooted(q, es@[i].1);
        lemma_flat_obj_rooted(p, es, i + 1);
        assert(flat_obj(p, es, i).unwrap() == head + tail);
        assert forall|k: int| 0 <= k < (head + tail).len() implies rooted(
            (#[trigger] (head + tail)[k]).0,
            p,
        ) by {
            if k < head.len() {
                assert((head + tail)[k] == head[k]);
                lemma_rooted_step(head[k].0, p, es@[i].0@);
            } else {
                assert((head + tail)[k] == tail[k - head.len()]);
            }
        }
    }
}

/// Whether every key of `out` is rooted at `p + SEP + seg` for the
/// segment of some child at position `j` or later of an ordered node.
spec fn list_child_rooted(out: Seq<(Seq<u8>, Seq<u8>)>, p: Seq<u8>, lo: int, hi: int) -> bool {
    forall|k: int| 0 <= k < out.len() ==> exists|j: int|
        #![trigger dec_of(j as nat)]
        lo <= j < hi && rooted((#[trigger] out[k]).0, p + seq![SEP] + dec_of(j as nat))
}

/// Whether every key of `out` is rooted at the key segment of some child
/// at position `j` or later of a keyed node.
spec fn obj_child_rooted(
    out: Seq<(Seq<u8>, Seq<u8>)>,
    p: Seq<u8>,
    es: Vec<(Vec<u8>, RawClaims)>,
    lo: int,
) -> bool {
    forall|k: int| 0 <= k < out.len() ==> exists|j: int|
        #![trigger es@[j]]
        lo <= j < es@.len() && rooted((#[trigger] out[k]).0, p + seq![SEP] + es@[j].0@)
}

/// Flattening a well-formed claim tree yields pairwise-distinct keys.
pub proof fn lemma_flat_distinct(p: Seq<u8>, t: RawClaims)
    requires
        wf_claims(t),
    ensures
        flat(p, t) is Some ==> distinct_keys(flat(p, t).unwrap()),
    decreases t, 0int, 0int,
{
    match t {
        RawClaims::List(cs) => {
            lemma_flat_list_distinct(p, cs, 0);
        },
        RawClaims::Object(es) => {
            lemma_flat_obj_distinct(p, es, 0);
        },
        _ => {},
    }
}

proof fn lemma_flat_list_distinct(p: Seq<u8>, cs: Vec<RawClaims>, i: int)
    requires
        forall|j: int| 0 <= j < cs@.len() ==> wf_claims(#[trigger] cs@[j]),
    ensures
        flat_list(p, cs, i) is Some ==> {
            &&& distinct_keys(flat_list(p, cs, i).unwrap())
            &&& list_child_rooted(flat_list(p, cs, i).unwrap(), p, i, cs@.len() as int)
        },
    decreases cs, 1int, cs@.len() - i,
{
    if 0 <= i < cs@.len() && flat_list(p, cs, i) is Some {
        let q = p + seq![SEP] + dec_of(i as nat);
        let head = flat(q, cs@[i]).unwrap();
        let tail = flat_list(p, cs, i + 1).unwrap();
        let whole = flat_list(p, cs, i).unwrap();
        lemma_flat_distinct(q, cs@[i]);
        lemma_flat_rooted(q, cs@[i]);
        lemma_flat_list_distinct(p, cs, i + 1);
        assert(whole == head + tail);
        assert forall|k1: int, k2: int| 0 <= k1 < k2 < whole.len() implies (
        #[trigger] whole[k1]).0 != (#[trigger] whole[k2]).0 by {
            if k1 < head.len() && k2 >= head.len() {
                assert(whole[k1] == head[k1]);
                assert(whole[k2] == tail[k2 - head.len()]);
                if whole[k1].0 == whole[k2].0 {
                    let x = whole[k1].0;
                    assert(rooted(x, q));
                    let j = choose|j: int|
                        #![trigger dec_of(j as nat)]
                        i + 1 <= j < cs@.len() && rooted(
                            tail[k2 - head.len()].0,
                            p + seq![SEP] + dec_of(j as nat),
                        );
                    lemma_rooted_step(x, p, dec_of(i as nat));
                    lemma_rooted_step(x, p, dec_of(j as nat));
                    lemma_dec_sep_free(i as nat);
                    lemma_dec_sep_free(j as nat);
                    if dec_of(i as nat) == dec_of(j as nat) {
                        lemma_dec_injective(i as nat, j as nat);
                    }
                    lemma_rooted_incompatible(
                        x.skip(p.len() as int + 1),
                        dec_of(i as nat),
                        dec_of(j as nat),
                    );
                }
            } else if k1 < head.len() {
                assert(whole[k1] == head[k1]);
                assert(whole[k2] == head[k2]);
            } else {
                assert(whole[k1] == tail[k1 - head.len()]);
                assert(whole[k2] == tail[k2 - head.len()]);
            }
        }
        assert forall|k: int| 0 <= k < whole.len() implies exists|j: int|
            #![trigger dec_of(j as nat)]
            i <= j < cs@.len() && rooted((#[trigger] whole[k]).0, p + seq![SEP] + dec_of(
                j as nat,
            )) by {
            if k < head.len() {
                assert(whole[k] == head[k]);
                assert(rooted(whole[k].0, p + seq![SEP] + dec_of(i as nat)));
            } else {
                assert(whole[k] == tail[k - head.len()]);
                let j = choose|j: int|
                    #![trigger dec_of(j as nat)]
                    i + 1 <= j < cs@.len() && rooted(
                        tail[k - head.len()].0,
                        p + seq![SEP] + dec_of(j as nat),
                    );
                assert(rooted(whole[k].0, p + seq![SEP] + dec_of(j as nat)));
            }
        }
    }
}

proof fn lemma_flat_obj_distinct(p: Seq<u8>, es: Vec<(Vec<u8>, RawClaims)>, i: int)
    requires
        forall|j: int|
            0 <= j < es@.len() ==> {
                &&& (#[trigger] es@[j]).0@.len() > 0
                &&& sep_free(es@[j].0@)
                &&& wf_claims(es@[j].1)
            },
        forall|j1: int, j2: int|
            0 <= j1 < j2 < es@.len() ==> (#[trigger] es@[j1]).0@ != (#[trigger] es@[j2]).0@,
    ensures
        flat_obj(p, es, i) is Some ==> {
            &&& distinct_keys(flat_obj(p, es, i).unwrap())
            &&& obj_child_rooted(flat_obj(p, es, i).unwrap(), p, es, i)
        },
    decreases es, 1int, es@.len() - i,
{
    if 0 <= i < es@.len() && flat_obj(p, es, i) is Some {
        let seg = es@[i].0@;
        let q = p + seq![SEP] + seg;
        let head = flat(q, es@[i].1).unwrap();
        let tail = flat_obj(p, es, i + 1).unwrap();
        let whole = flat_obj(p, es, i).unwrap();
        lemma_flat_distinct(q, es@[i].1);
        lemma_flat_rooted(q, es@[i].1);
        lemma_flat_obj_distinct(p, es, i + 1);
        assert(whole == head + tail);
        assert forall|k1: int, k2: int| 0 <= k1 < k2 < whole.len() implies (
        #[trigger] whole[k1]).0 != (#[trigger] whole[k2]).0 by {
            if k1 < head.len() && k2 >= head.len() {
                assert(whole[k1] == head[k1]);
                assert(whole[k2] == tail[k2 - head.len()]);
                if whole[k1].0 == whole[k2].0 {
                    let x = whole[k1].0;
                    assert(rooted(x, q));
                    let j = choose|j: int|
                        #![trigger es@[j]]
                        i + 1 <= j < es@.len() && rooted(
                            tail[k2 - head.len()].0,
                            p + seq![SEP] + es@[j].0@,
                        );
                    lemma_rooted_step(x, p, seg);
                    lemma_rooted_step(x, p, es@[j].0@);
                    lemma_rooted_incompatible(x.skip(p.len() as int + 1), seg, es@[j].0@);
                }
            } else if k1 < head.len() {
                assert(whole[k1] == head[k1]);
                assert(whole[k2] == head[k2]);
            } else {
                assert(whole[k1] == tail[k1 - head.len()]);
                assert(whole[k2] == tail[k2 - head.len()]);
            }
        }
        assert forall|k: int| 0 <= k < whole.len() implies exists|j: int|
            #![trigger es@[j]]
            i <= j < es@.len() && rooted((#[trigger] whole[k]).0, p + seq![SEP] + es@[j].0@) by {
            if k < head.len() {
                assert(whole[k] == head[k]);
                assert(rooted(whole[k].0, p + seq![SEP] + es@[i].0@));
            } else {
                assert(whole[k] == tail[k - head.len()]);
                let j = choose|j: int|
                    #![trigger es@[j]]
                    i + 1 <= j < es@.len() && rooted(
                        tail[k - head.len()].0,
                        p + seq![SEP] + es@[j].0@,
                    );
                assert(rooted(whole[k].0, p + seq![SEP] + es@[j].0@));
            }
        }
    }
}

/// Claim-namespace invariant: flattening a well-formed claim tree under a
/// TEE variant's name yields globally unique keys.
pub proof fn lemma_flatten_keys_unique(tee: TeeVariant, t: RawClaims)
    requires
        wf_claims(t),
    ensures
        flat(tee_name(tee), t) is Some ==> distinct_keys(flat(tee_name(tee), t).unwrap()),
{
    lemma_flat_distinct(tee_name(tee), t);
}

/// Namespacing makes cross-schema collisions impossible: claim trees
/// flattened under distinct TEE variants share no key, whatever leaf
/// names the trees use.
pub proof fn lemma_cross_tee_disjoint(
    tee1: TeeVariant,
    tee2: TeeVariant,
    r1: RawClaims,
    r2: RawClaims,
)
    requires
        tee1 != tee2,
        flat(tee_name(tee1), r1) is Some,
        flat(tee_name(tee2), r2) is Some,
    ensures
        forall|k1: int, k2: int|
            0 <= k1 < flat(tee_name(tee1), r1).unwrap().len() && 0 <= k2 < flat(
                tee_name(tee2),
                r2,
            ).unwrap().len() ==> (#[trigger] flat(tee_name(tee1), r1).unwrap()[k1]).0 != (
            #[trigger] flat(tee_name(tee2), r2).unwrap()[k2]).0,
{
    let es1 = flat(tee_name(tee1), r1).unwrap();
    let es2 = flat(tee_name(tee2), r2).unwrap();
    lemma_flat_rooted(tee_name(tee1), r1);
    lemma_flat_rooted(tee_name(tee2), r2);
    lemma_tee_name_sep_free(tee1);
    lemma_tee_name_sep_free(tee2);
    assert forall|k1: int, k2: int|
        0 <= k1 < es1.len() && 0 <= k2 < es2.len() implies (#[trigger] es1[k1]).0 != (
    #[trigger] es2[k2]).0 by {
        if es1[k1].0 == es2[k2].0 {
            if tee_name(tee1) == tee_name(tee2) {
                lemma_tee_name_injective(tee1, tee2);
            }
            lemma_rooted_incompatible(es1[k1].0, tee_name(tee1), tee_name(tee2));
        }
    }
}


/// The number of representable leaves of a claim tree.
pub open spec fn leaf_count(t: RawClaims) -> nat
    decreases t, 0int, 0int,
{
    match t {
        RawClaims::Null => 0,
        RawClaims::Bool(_) => 1,
        RawClaims::Num(_) => 1,
        RawClaims::Text(_) => 1,
        RawClaims::List(cs) => leaf_count_list(cs, 0),
        RawClaims::Object(es) => leaf_count_obj(es, 0),
    }
}

/// The leaves of the children of an ordered composite from index `i` on.
pub open spec fn leaf_count_list(cs: Vec<RawClaims>, i: int) -> nat
    decreases cs, 1int, cs@.len() - i,
{
    if i < 0 || i >= cs@.len() {
        0
    } else {
        leaf_count(cs@[i]) + leaf_count_list(cs, i + 1)
    }
}

/// The leaves of the children of a keyed composite from index `i` on.
pub open spec fn leaf_count_obj(es: Vec<(Vec<u8>, RawClaims)>, i: int) -> nat
    decreases es, 1int, es@.len() - i,
{
    if i < 0 || i >= es@.len() {
        0
    } else {
        leaf_count(es@[i].1) + leaf_count_obj(es, i + 1)
    }
}

/// Flattening drops no leaf: a tree that flattens yields exactly one
/// entry per representable leaf.
pub proof fn lemma_flat_preserves_leaves(p: Seq<u8>, t: RawClaims)
    ensures
        flat(p, t) is Some ==> flat(p, t).unwrap().len() == leaf_count(t),
    decreases t, 0int, 0int,
{
    match t {
        RawClaims::List(cs) => {
            lemma_flat_list_preserves_leaves(p, cs, 0);
        },
        RawClaims::Object(es) => {
            lemma_flat_obj_preserves_leaves(p, es, 0);
        },
        _ => {},
    }
}

proof fn lemma_flat_list_preserves_leaves(p: Seq<u8>, cs: Vec<RawClaims>, i: int)
    ensures
        flat_list(p, cs, i) is Some ==> flat_list(p, cs, i).unwrap().len() == leaf_count_list(
            cs,
            i,
        ),
    decreases cs, 1int, cs@.len() - i,
{
    if 0 <= i < cs@.len() && flat_list(p, cs, i) is Some {
        lemma_flat_preserves_leaves(p + seq![SEP] + dec_of(i as nat), cs@[i]);
        lemma_flat_list_preserves_leaves(p, cs, i + 1);
    }
}

proof fn lemma_flat_obj_preserves_leaves(p: Seq<u8>, es: Vec<(Vec<u8>, RawClaims)>, i: int)
    ensures
        flat_obj(p, es, i) is Some ==> flat_obj(p, es, i).unwrap().len() == leaf_count_obj(
            es,
            i,
        ),
    decreases es, 1int, es@.len() - i,
{
    if 0 <= i < es@.len() && flat_obj(p, es, i) is Some {
        lemma_flat_preserves_leaves(p + seq![SEP] + es@[i].0@, es@[i].1);
        lemma_flat_obj_preserves_leaves(p, es, i + 1);
    }
}

} // verus!
