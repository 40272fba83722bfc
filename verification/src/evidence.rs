//! The built-in sample verifier capability.  Its evidence format is a
//! line-oriented text: the first line carries the expected runtime
//! binding digest in lowercase hex (empty when no binding is expected),
//! the second line the expected init-data binding digest likewise, and
//! every further line one `key=value` claim.  Verification fails when
//! the embedded binding lines do not match the digests supplied by the
//! caller, or when a claim line is malformed.

use vstd::prelude::*;
use crate::claims::{wf_claims, RawClaims};
use crate::encoding::{hex_of, sep_free, SEP};
use crate::errors::Error;

verus! {

/// Index of the first occurrence of `c` in `s`, or `s.len()` if absent.
pub open spec fn find_byte(s: Seq<u8>, c: u8) -> int
    decreases s.len(),
{
    if s.len() == 0 {
        0
    } else if s[0] == c {
        0
    } else {
        1 + find_byte(s.drop_first(), c)
    }
}

/// `find_byte` returns the position of the first occurrence.
pub proof fn lemma_find_byte(s: Seq<u8>, c: u8, m: int)
    requires
        0 <= m <= s.len(),
        forall|k: int| 0 <= k < m ==> s[k] != c,
        m == s.len() || s[m] == c,
    ensures
        find_byte(s, c) == m,
    decreases m,
{
    if s.len() == 0 {
    } else if s[0] == c {
        if m != 0 {
            assert(s[0] != c);
        }
    } else {
        assert(m >= 1) by {
            if m == 0 {
                assert(s[m] == c);
            }
        }
        assert forall|k: int| 0 <= k < m - 1 implies s.drop_first()[k] != c by {
            assert(s.drop_first()[k] == s[k + 1]);
        }
        if m - 1 < s.drop_first().len() {
            assert(s.drop_first()[m - 1] == s[m]);
        }
        lemma_find_byte(s.drop_first(), c, m - 1);
    }
}

/// The lines of a byte string, split on the newline byte.  An empty
/// string has no lines.
pub open spec fn split_lines(s: Seq<u8>) -> Seq<Seq<u8>>
    decreases s.len(),
{
    if s.len() == 0 {
        Seq::empty()
    } else {
        let i = find_byte(s, 10);
        if i < 0 || i >= s.len() {
            seq![s]
        } else {
            seq![s.take(i)] + split_lines(s.skip(i + 1))
        }
    }
}

/// What one claim line contributes: its key and value, split at the
/// first `=`; or nothing if the line is malformed (no `=`, an empty key,
/// or a separator inside the key).
pub open spec fn parse_line(l: Seq<u8>) -> Option<(Seq<u8>, Seq<u8>)> {
    let e = find_byte(l, 61);
    if 0 < e < l.len() && sep_free(l.take(e)) {
        Some((l.take(e), l.skip(e + 1)))
    } else {
        None
    }
}

/// The claim pairs of the lines from index `i` on, or nothing if some
/// line is malformed.
pub open spec fn parse_lines(lines: Seq<Seq<u8>>, i: int) -> Option<Seq<(Seq<u8>, Seq<u8>)>>
    decreases lines.len() - i,
{
    if i < 0 || i >= lines.len() {
        Some(Seq::empty())
    } else {
        match parse_line(lines[i]) {
            None => None,
            Some(pair) => match parse_lines(lines, i + 1) {
                None => None,
                Some(rest) => Some(seq![pair] + rest),
            },
        }
    }
}

/// All keys of a claim pair list are distinct.
pub open spec fn distinct_pair_keys(ps: Seq<(Seq<u8>, Seq<u8>)>) -> bool {
    forall|i: int, j: int| 0 <= i < j < ps.len() ==> (#[trigger] ps[i]).0 != (#[trigger] ps[j]).0
}

/// The binding line expected for an optional digest: its lowercase hex
/// rendering, or the empty line when no digest was supplied.
pub open spec fn binding_line(d: Option<Seq<u8>>) -> Seq<u8> {
    match d {
        None => Seq::empty(),
        Some(bytes) => hex_of(bytes),
    }
}

/// What the sample verifier accepts: at least the two binding lines,
/// both matching the supplied digests, and well-formed claim lines with
/// pairwise-distinct keys.  The result is the list of claim pairs, or
/// nothing when verification fails.
pub open spec fn verify_spec(
    evidence: Seq<u8>,
    rt: Option<Seq<u8>>,
    init: Option<Seq<u8>>,
) -> Option<Seq<(Seq<u8>, Seq<u8>)>> {
    let lines = split_lines(evidence);
    if lines.len() < 2 {
        None
    } else if lines[0] != binding_line(rt) || lines[1] != binding_line(init) {
        None
    } else {
        match parse_lines(lines, 2) {
            None => None,
            Some(pairs) => if distinct_pair_keys(pairs) {
                Some(pairs)
            } else {
                None
            },
        }
    }
}

/// Whether a claim tree is the flat object holding exactly the given
/// text claim pairs, in order.
pub open spec fn claims_match(raw: RawClaims, pairs: Seq<(Seq<u8>, Seq<u8>)>) -> bool {
    match raw {
        RawClaims::Object(es) => {
            &&& es@.len() == pairs.len()
            &&& forall|k: int|
                0 <= k < pairs.len() ==> {
                    &&& (#[trigger] es@[k]).0@ == pairs[k].0
                    &&& es@[k].1 matches RawClaims::Text(v) && v@ == pairs[k].1
                }
        },
        _ => false,
    }
}

/// The pairs held by a flat text-entry list.
pub open spec fn entry_pairs(es: Seq<(Vec<u8>, RawClaims)>) -> Seq<(Seq<u8>, Seq<u8>)> {
    es.map_values(
        |e: (Vec<u8>, RawClaims)|
            (
                e.0@,
                match e.1 {
                    RawClaims::Text(v) => v@,
                    _ => Seq::empty(),
                },
            ),
    )
}

/// The view of an optional digest.
pub open spec fn view_opt(d: Option<Vec<u8>>) -> Option<Seq<u8>> {
    match d {
        None => None,
        Some(v) => Some(v@),
    }
}

/// The claim pairs with their keys prefixed by `p` and the separator:
/// the normalized entries a flat claim tree flattens to.
pub open spec fn prefixed(p: Seq<u8>, pairs: Seq<(Seq<u8>, Seq<u8>)>) -> Seq<(Seq<u8>, Seq<u8>)> {
    pairs.map_values(|pr: (Seq<u8>, Seq<u8>)| (p + seq![SEP] + pr.0, pr.1))
}

/// Flattening loses no structure on a flat claim tree: the normalized
/// entries determine the claim pairs, so re-nesting by key-path prefix
/// reconstructs the tree.
pub proof fn lemma_prefixed_injective(
    p: Seq<u8>,
    pairs1: Seq<(Seq<u8>, Seq<u8>)>,
    pairs2: Seq<(Seq<u8>, Seq<u8>)>,
)
    requires
        prefixed(p, pairs1) == prefixed(p, pairs2),
    ensures
        pairs1 == pairs2,
{
    assert(prefixed(p, pairs1).len() == pairs1.len());
    assert(prefixed(p, pairs2).len() == pairs2.len());
    assert(pairs1.len() == pairs2.len());
    assert forall|k: int| 0 <= k < pairs1.len() implies pairs1[k] == pairs2[k] by {
        assert(prefixed(p, pairs1)[k] == prefixed(p, pairs2)[k]);
        let q1 = p + seq![SEP] + pairs1[k].0;
        let q2 = p + seq![SEP] + pairs2[k].0;
        assert(q1 == q2);
        assert(pairs1[k].0 =~= q1.skip(p.len() as int + 1));
        assert(pairs2[k].0 =~= q2.skip(p.len() as int + 1));
    }
    assert(pairs1 =~= pairs2);
}

/// A flat object of text leaves flattens to exactly its pairs, each key
/// prefixed.
pub proof fn lemma_flat_text_object(p: Seq<u8>, raw: RawClaims, pairs: Seq<(Seq<u8>, Seq<u8>)>)
    requires
        claims_match(raw, pairs),
    ensures
        crate::claims::flat(p, raw) == Some(prefixed(p, pairs)),
{
    match raw {
        RawClaims::Object(es) => {
            lemma_flat_text_entries(p, es, pairs, 0);
            assert(prefixed(p, pairs).skip(0) =~= prefixed(p, pairs));
        },
        _ => {},
    }
}

proof fn lemma_flat_text_entries(
    p: Seq<u8>,
    es: Vec<(Vec<u8>, RawClaims)>,
    pairs: Seq<(Seq<u8>, Seq<u8>)>,
    i: int,
)
    requires
        0 <= i <= pairs.len(),
        es@.len() == pairs.len(),
        forall|k: int|
            0 <= k < pairs.len() ==> {
                &&& (#[trigger] es@[k]).0@ == pairs[k].0
                &&& es@[k].1 matches RawClaims::Text(v) && v@ == pairs[k].1
            },
    ensures
        crate::claims::flat_obj(p, es, i) == Some(prefixed(p, pairs).skip(i)),
    decreases pairs.len() - i,
{
    if i == pairs.len() {
        assert(prefixed(p, pairs).skip(i) =~= Seq::<(Seq<u8>, Seq<u8>)>::empty());
    } else {
        let q = p + seq![SEP] + es@[i].0@;
        assert(es@[i].1 matches RawClaims::Text(_));
        assert(crate::claims::flat(q, es@[i].1) == Some(seq![(q, pairs[i].1)]));
        lemma_flat_text_entries(p, es, pairs, i + 1);
        assert(crate::claims::flat_obj(p, es, i) == Some(
            seq![(q, pairs[i].1)] + prefixed(p, pairs).skip(i + 1),
        ));
        assert(seq![(q, pairs[i].1)] + prefixed(p, pairs).skip(i + 1) =~= prefixed(
            p,
            pairs,
        ).skip(i));
    }
}

/// Copies `src[from..to]` into a fresh vector.
pub fn copy_range(src: &Vec<u8>, from: usize, to: usize) -> (r: Vec<u8>)
    requires
        from <= to <= src@.len(),
    ensures
        r@ == src@.subrange(from as int, to as int),
{
    let mut r: Vec<u8> = Vec::new();
    let mut j: usize = from;
    while j < to
        invariant
            from <= j <= to <= src@.len(),
            r@ == src@.subrange(from as int, j as int),
        decreases to - j,
    {
        r.push(src[j]);
        proof {
            assert(src@.subrange(from as int, j + 1 as int) =~= src@.subrange(
                from as int,
                j as int,
            ).push(src@[j as int]));
        }
        j = j + 1;
    }
    r
}

/// Position of the first `c` in `src` at or after `from`.
pub fn scan_byte(src: &Vec<u8>, from: usize, c: u8) -> (r: usize)
    requires
        from <= src@.len(),
    ensures
        from <= r <= src@.len(),
        find_byte(src@.skip(from as int), c) == r - from,
{
    let mut i: usize = from;
    while i < src.len() && src[i] != c
        invariant
            from <= i <= src@.len(),
            forall|k: int| from <= k < i ==> src@[k] != c,
        decreases src@.len() - i,
    {
        i = i + 1;
    }
    proof {
        let s = src@.skip(from as int);
        assert forall|k: int| 0 <= k < i - from implies s[k] != c by {
            assert(s[k] == src@[from + k]);
        }
        if (i as int) < src@.len() {
            assert(s[i - from] == src@[i as int]);
        }
        lemma_find_byte(s, c, i - from as int);
    }
    i
}

/// Splits the bytes from `start` on into lines, matching `split_lines`.
fn split_from(b: &Vec<u8>, start: usize) -> (r: Vec<Vec<u8>>)
    requires
        start <= b@.len(),
    ensures
        r.deep_view() == split_lines(b@.skip(start as int)),
    decreases b@.len() - start,
{
    let ghost s = b@.skip(start as int);
    if start >= b.len() {
        let r: Vec<Vec<u8>> = Vec::new();
        proof {
            assert(s.len() == 0);
            assert(r.deep_view() =~= split_lines(s));
        }
        r
    } else {
        let i = scan_byte(b, start, 10);
        let line = copy_range(b, start, i);
        proof {
            assert(line@ =~= s.take(i - start as int));
        }
        if i >= b.len() {
            let mut r: Vec<Vec<u8>> = Vec::new();
            r.push(line);
            proof {
                assert(find_byte(s, 10) == s.len());
                assert(s.take(i - start as int) =~= s);
                assert(split_lines(s) == seq![s]);
                assert(r.deep_view() =~~= split_lines(s));
            }
            r
        } else {
            let mut r = split_from(b, i + 1);
            r.insert(0, line);
            proof {
                let fb = find_byte(s, 10);
                assert(fb == i - start);
                assert(0 <= fb < s.len());
                assert(s.skip(fb + 1) =~= b@.skip(i + 1 as int));
                assert(split_lines(s) == seq![s.take(fb)] + split_lines(s.skip(fb + 1)));
                assert(r.deep_view() =~~= split_lines(s));
            }
            r
        }
    }
}

/// Splits a byte string into lines, matching `split_lines`.
pub fn split_lines_exec(b: &Vec<u8>) -> (r: Vec<Vec<u8>>)
    ensures
        r.deep_view() == split_lines(b@),
{
    let r = split_from(b, 0);
    proof {
        assert(b@.skip(0) =~= b@);
    }
    r
}

/// Compares two byte vectors.
pub fn bytes_eq(a: &Vec<u8>, b: &Vec<u8>) -> (r: bool)
    ensures
        r <==> a@ == b@,
{
    if a.len() != b.len() {
        proof {
            assert(a@.len() != b@.len());
        }
        return false;
    }
    let mut i: usize = 0;
    while i < a.len()
        invariant
            i <= a@.len(),
            a@.len() == b@.len(),
            forall|k: int| 0 <= k < i ==> a@[k] == b@[k],
        decreases a@.len() - i,
    {
        if a[i] != b[i] {
            return false;
        }
        i = i + 1;
    }
    proof {
        assert(a@ =~= b@);
    }
    true
}

/// Renders the binding line expected for an optional digest.
fn binding_line_exec(d: &Option<Vec<u8>>) -> (r: Vec<u8>)
    ensures
        r@ == binding_line(view_opt(*d)),
{
    match d {
        None => Vec::new(),
        Some(bytes) => crate::encoding::hex_bytes(bytes),
    }
}

/// Runs the sample verifier: checks the embedded binding lines against
/// the supplied digests, then extracts the claim lines as a flat,
/// well-formed claim tree.  Fails with `VerificationFailed` exactly when
/// the evidence does not satisfy `verify_spec`.
pub fn sample_verify(
    evidence: &Vec<u8>,
    runtime_digest: &Option<Vec<u8>>,
    init_digest: &Option<Vec<u8>>,
) -> (r: Result<RawClaims, Error>)
    ensures
        match r {
            Ok(raw) => {
                &&& verify_spec(evidence@, view_opt(*runtime_digest), view_opt(*init_digest))
                    matches Some(pairs)
                &&& claims_match(raw, pairs)
                &&& wf_claims(raw)
            },
            Err(e) => {
                &&& e == Error::VerificationFailed
                &&& verify_spec(evidence@, view_opt(*runtime_digest), view_opt(*init_digest))
                    is None
            },
        },
{
    let ghost rtv = view_opt(*runtime_digest);
    let ghost inv = view_opt(*init_digest);
    let lines = split_lines_exec(evidence);
    let ghost lv = split_lines(evidence@);
    if lines.len() < 2 {
        return Err(Error::VerificationFailed);
    }
    let rt_expect = binding_line_exec(runtime_digest);
    let init_expect = binding_line_exec(init_digest);
    if !bytes_eq(&lines[0], &rt_expect) || !bytes_eq(&lines[1], &init_expect) {
        proof {
            assert(lines@[0]@ == lv[0] && lines@[1]@ == lv[1]);
        }
        return Err(Error::VerificationFailed);
    }
    proof {
        assert(lines@[0]@ == lv[0] && lines@[1]@ == lv[1]);
    }
    let mut entries: Vec<(Vec<u8>, RawClaims)> = Vec::new();
    let mut i: usize = 2;
    while i < lines.len()
        invariant
            2 <= i <= lines@.len(),
            lines.deep_view() == lv,
            lv == split_lines(evidence@),
            lv.len() >= 2,
            lv[0] == binding_line(rtv),
            lv[1] == binding_line(inv),
            rtv == view_opt(*runtime_digest),
            inv == view_opt(*init_digest),
            parse_lines(lv, 2) is Some <==> parse_lines(lv, i as int) is Some,
            parse_lines(lv, 2) is Some ==> parse_lines(lv, 2).unwrap() == entry_pairs(entries@)
                + parse_lines(lv, i as int).unwrap(),
            entries@.len() == i - 2,
            forall|k: int|
                0 <= k < entries@.len() ==> {
                    &&& (#[trigger] entries@[k]).0@.len() > 0
                    &&& sep_free(entries@[k].0@)
                    &&& entries@[k].1 matches RawClaims::Text(_)
                },
        decreases lines@.len() - i,
    {
        let line = &lines[i];
        proof {
            assert(line@ == lv[i as int]);
        }
        let e = scan_byte(line, 0, 61);
        proof {
            assert(line@.skip(0) =~= line@);
        }
        if e == 0 || e >= line.len() {
            proof {
                assert(parse_line(lv[i as int]) is None);
                assert(parse_lines(lv, i as int) is None);
            }
            return Err(Error::VerificationFailed);
        }
        let key = copy_range(line, 0, e);
        proof {
            assert(key@ =~= line@.take(e as int));
        }
        let mut key_ok = true;
        let mut k: usize = 0;
        while k < key.len()
            invariant
                k <= key@.len(),
                key_ok <==> forall|m: int| 0 <= m < k ==> key@[m] != SEP,
            decreases key@.len() - k,
        {
            if key[k] == SEP {
                key_ok = false;
            }
            k = k + 1;
        }
        if !key_ok {
            proof {
                assert(!sep_free(line@.take(e as int)));
                assert(parse_line(lv[i as int]) is None);
                assert(parse_lines(lv, i as int) is None);
            }
            return Err(Error::VerificationFailed);
        }
        let value = copy_range(line, e + 1, line.len());
        proof {
            assert(value@ =~= line@.skip(e + 1 as int));
            assert(sep_free(line@.take(e as int)));
            assert(parse_line(lv[i as int]) == Some((key@, value@)));
        }
        let ghost entries_before = entries@;
        entries.push((key, RawClaims::Text(value)));
        proof {
            let pair = (entries@[entries@.len() - 1].0@, value@);
            let rest = parse_lines(lv, i + 1 as int);
            assert(parse_lines(lv, i as int) is Some <==> rest is Some);
            if parse_lines(lv, 2) is Some {
                assert(entry_pairs(entries@) =~= entry_pairs(entries_before).push(pair));
                assert(entry_pairs(entries_before) + (seq![pair] + rest.unwrap())
                    =~= entry_pairs(entries_before).push(pair) + rest.unwrap());
            }
        }
        i = i + 1;
    }
    proof {
        assert(parse_lines(lv, lv.len() as int) == Some(Seq::<(Seq<u8>, Seq<u8>)>::empty()));
        assert(parse_lines(lv, 2) is Some);
        assert(entry_pairs(entries@) + Seq::<(Seq<u8>, Seq<u8>)>::empty() =~= entry_pairs(
            entries@,
        ));
        assert(parse_lines(lv, 2).unwrap() == entry_pairs(entries@));
    }
    let ghost pairs = parse_lines(lv, 2).unwrap();
    let mut x: usize = 0;
    while x < entries.len()
        invariant
            x <= entries@.len(),
            lv == split_lines(evidence@),
            lv.len() >= 2,
            lv[0] == binding_line(rtv),
            lv[1] == binding_line(inv),
            rtv == view_opt(*runtime_digest),
            inv == view_opt(*init_digest),
            pairs == parse_lines(lv, 2).unwrap(),
            parse_lines(lv, 2) is Some,
            pairs == entry_pairs(entries@),
            forall|a: int, b: int|
                0 <= a < b < entries@.len() && a < x ==> (#[trigger] entries@[a]).0@ != (
                #[trigger] entries@[b]).0@,
        decreases entries@.len() - x,
    {
        let mut y: usize = x + 1;
        while y < entries.len()
            invariant
                x < y <= entries@.len(),
                lv == split_lines(evidence@),
                lv.len() >= 2,
                lv[0] == binding_line(rtv),
                lv[1] == binding_line(inv),
                rtv == view_opt(*runtime_digest),
                inv == view_opt(*init_digest),
                pairs == parse_lines(lv, 2).unwrap(),
                parse_lines(lv, 2) is Some,
                pairs == entry_pairs(entries@),
                forall|b: int| x < b < y ==> (#[trigger] entries@[b]).0@ != entries@[x as int].0@,
            decreases entries@.len() - y,
        {
            if bytes_eq(&entries[x].0, &entries[y].0) {
                proof {
                    assert(pairs[x as int].0 == entries@[x as int].0@);
                    assert(pairs[y as int].0 == entries@[y as int].0@);
                    assert(!distinct_pair_keys(pairs));
                }
                return Err(Error::VerificationFailed);
            }
            y = y + 1;
        }
        x = x + 1;
    }
    let raw = RawClaims::Object(entries);
    proof {
        assert(distinct_pair_keys(pairs));
        assert(claims_match(raw, pairs));
        reveal_with_fuel(wf_claims, 2);
        assert forall|k: int| 0 <= k < entries@.len() implies wf_claims(
            (#[trigger] entries@[k]).1,
        ) by {
            assert(entries@[k].1 matches RawClaims::Text(_));
        }
        assert(wf_claims(raw));
        assert(verify_spec(evidence@, rtv, inv) == Some(pairs));
    }
    Ok(raw)
}

} // verus!
