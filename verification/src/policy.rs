//! The built-in policy engine: a store of named policies and their
//! evaluation over normalized claims and reference values.  A stored
//! policy is one of two modes: `strict` passes only when every claim
//! value is among the reference digests recorded for its key, `lenient`
//! demands that only of keys for which reference digests exist at all.

use vstd::prelude::*;
use crate::encoding::{blobs_view, hex_bytes, hex_of};
use crate::errors::Error;
use crate::evidence::bytes_eq;
use crate::hash::{sha384, sha384_of};

verus! {

/// A policy identifier and the hash of its content, for listing and
/// auditing without exposing the content.
pub struct PolicyDigest {
    /// The identifier the policy is stored under.
    pub id: String,
    /// Lowercase hex of the SHA-384 digest of the stored content.
    pub digest: Vec<u8>,
}

/// The bytes `strict`.
pub open spec fn strict_bytes() -> Seq<u8> {
    seq![115u8, 116u8, 114u8, 105u8, 99u8, 116u8]
}

/// The bytes `lenient`.
pub open spec fn lenient_bytes() -> Seq<u8> {
    seq![108u8, 101u8, 110u8, 105u8, 101u8, 110u8, 116u8]
}

/// A policy definition the built-in engine accepts.
pub open spec fn valid_policy(c: Seq<u8>) -> bool {
    c == strict_bytes() || c == lenient_bytes()
}

/// The view of a policy entry list.
pub open spec fn pol_view(s: Seq<(String, Vec<u8>)>) -> Seq<(Seq<char>, Seq<u8>)> {
    s.map_values(|e: (String, Vec<u8>)| (e.0@, e.1@))
}

/// The stored content of the policy named `id`, if any.
pub open spec fn pol_lookup(ps: Seq<(Seq<char>, Seq<u8>)>, id: Seq<char>) -> Option<Seq<u8>>
    decreases ps.len(),
{
    if ps.len() == 0 {
        None
    } else if ps.first().0 == id {
        Some(ps.first().1)
    } else {
        pol_lookup(ps.drop_first(), id)
    }
}

/// The store without any policy named `id`.
pub open spec fn pol_remove(ps: Seq<(Seq<char>, Seq<u8>)>, id: Seq<char>) -> Seq<
    (Seq<char>, Seq<u8>),
>
    decreases ps.len(),
{
    if ps.len() == 0 {
        Seq::empty()
    } else {
        (if ps.first().0 == id {
            Seq::empty()
        } else {
            seq![ps.first()]
        }) + pol_remove(ps.drop_first(), id)
    }
}

/// The store after `set_policy`: the old entry for `id`, if any, is
/// gone, and the new content stands at the end.
pub open spec fn pol_set(ps: Seq<(Seq<char>, Seq<u8>)>, id: Seq<char>, c: Seq<u8>) -> Seq<
    (Seq<char>, Seq<u8>),
> {
    pol_remove(ps, id).push((id, c))
}

/// Whether `v` is among the blobs of `s`.
pub open spec fn contains_blob(s: Seq<Seq<u8>>, v: Seq<u8>) -> bool {
    exists|i: int| 0 <= i < s.len() && s[i] == v
}

/// Whether a policy passes over the claims and the reference digests
/// looked up for them (`refs[k]` belongs to `claims[k]`).
pub open spec fn policy_passes(
    content: Seq<u8>,
    claims: Seq<(Seq<u8>, Seq<u8>)>,
    refs: Seq<Seq<Seq<u8>>>,
) -> bool {
    if content == strict_bytes() {
        forall|k: int| 0 <= k < claims.len() ==> contains_blob(#[trigger] refs[k], claims[k].1)
    } else {
        forall|k: int|
            0 <= k < claims.len() && (#[trigger] refs[k]).len() > 0 ==> contains_blob(
                refs[k],
                claims[k].1,
            )
    }
}

/// The outcome of each selected policy, in selection order; nothing if
/// some selected policy is not stored — one missing policy aborts the
/// whole batch.
pub open spec fn eval_policies(
    ps: Seq<(Seq<char>, Seq<u8>)>,
    ids: Seq<Seq<char>>,
    claims: Seq<(Seq<u8>, Seq<u8>)>,
    refs: Seq<Seq<Seq<u8>>>,
) -> Option<Seq<(bool, Seq<u8>)>>
    decreases ids.len(),
{
    if ids.len() == 0 {
        Some(Seq::empty())
    } else {
        match eval_policies(ps, ids.drop_last(), claims, refs) {
            None => None,
            Some(rest) => match pol_lookup(ps, ids.last()) {
                None => None,
                Some(c) => Some(rest.push((policy_passes(c, claims, refs), c))),
            },
        }
    }
}

/// One missing policy poisons the whole batch.
pub proof fn lemma_eval_policies_none(
    ps: Seq<(Seq<char>, Seq<u8>)>,
    ids: Seq<Seq<char>>,
    claims: Seq<(Seq<u8>, Seq<u8>)>,
    refs: Seq<Seq<Seq<u8>>>,
    i: int,
)
    requires
        0 <= i < ids.len(),
        pol_lookup(ps, ids[i]) is None,
    ensures
        eval_policies(ps, ids, claims, refs) is None,
    decreases ids.len(),
{
    if i < ids.len() - 1 {
        assert(ids.drop_last()[i] == ids[i]);
        lemma_eval_policies_none(ps, ids.drop_last(), claims, refs, i);
    }
}

/// The view of an outcome list.
pub open spec fn outcomes_view(s: Seq<(bool, Vec<u8>)>) -> Seq<(bool, Seq<u8>)> {
    s.map_values(|o: (bool, Vec<u8>)| (o.0, o.1@))
}

/// The views of a list of policy identifiers.
pub open spec fn ids_view(s: Seq<String>) -> Seq<Seq<char>> {
    s.map_values(|v: String| v@)
}

/// The views of a list of per-claim reference digest sets.
pub open spec fn refsets_view(s: Seq<Vec<Vec<u8>>>) -> Seq<Seq<Seq<u8>>> {
    s.map_values(|v: Vec<Vec<u8>>| blobs_view(v@))
}

/// If no entry before `j` names `id`, the lookup is decided at `j` or
/// later.
proof fn lemma_pol_lookup_skip(ps: Seq<(Seq<char>, Seq<u8>)>, id: Seq<char>, j: int)
    requires
        0 <= j <= ps.len(),
        forall|k: int| 0 <= k < j ==> (#[trigger] ps[k]).0 != id,
    ensures
        pol_lookup(ps, id) == pol_lookup(ps.skip(j), id),
    decreases j,
{
    if j > 0 {
        assert(ps.first().0 != id);
        assert forall|k: int| 0 <= k < j - 1 implies (#[trigger] ps.drop_first()[k]).0 != id by {
            assert(ps.drop_first()[k] == ps[k + 1]);
        }
        lemma_pol_lookup_skip(ps.drop_first(), id, j - 1);
        assert(ps.drop_first().skip(j - 1) =~= ps.skip(j));
        assert(pol_lookup(ps, id) == pol_lookup(ps.drop_first(), id));
    } else {
        assert(ps.skip(0) =~= ps);
    }
}

/// Removing `id` leaves no entry named `id`.
proof fn lemma_pol_remove_no_id(ps: Seq<(Seq<char>, Seq<u8>)>, id: Seq<char>)
    ensures
        forall|k: int|
            0 <= k < pol_remove(ps, id).len() ==> (#[trigger] pol_remove(ps, id)[k]).0 != id,
    decreases ps.len(),
{
    if ps.len() > 0 {
        lemma_pol_remove_no_id(ps.drop_first(), id);
        let rem = pol_remove(ps, id);
        let rest = pol_remove(ps.drop_first(), id);
        assert forall|k: int| 0 <= k < rem.len() implies (#[trigger] rem[k]).0 != id by {
            if ps.first().0 == id {
                assert(rem[k] == rest[k]);
            } else {
                if k == 0 {
                    assert(rem[0] == ps.first());
                } else {
                    assert(rem[k] == rest[k - 1]);
                }
            }
        }
    }
}

/// A lookup finds an appended entry when no earlier entry shares its
/// name.
proof fn lemma_lookup_push_found(x: Seq<(Seq<char>, Seq<u8>)>, id: Seq<char>, c: Seq<u8>)
    requires
        forall|k: int| 0 <= k < x.len() ==> (#[trigger] x[k]).0 != id,
    ensures
        pol_lookup(x.push((id, c)), id) == Some(c),
    decreases x.len(),
{
    if x.len() == 0 {
        assert(x.push((id, c)).first() == (id, c));
    } else {
        assert(x.push((id, c)).first() == x.first());
        assert(x.first().0 != id);
        assert forall|k: int| 0 <= k < x.drop_first().len() implies (#[trigger] x.drop_first()[
            k]).0 != id by {
            assert(x.drop_first()[k] == x[k + 1]);
        }
        lemma_lookup_push_found(x.drop_first(), id, c);
        assert(x.push((id, c)).drop_first() =~= x.drop_first().push((id, c)));
    }
}

/// Appending an entry with another name does not change a lookup.
proof fn lemma_lookup_push_other(
    x: Seq<(Seq<char>, Seq<u8>)>,
    e: (Seq<char>, Seq<u8>),
    other: Seq<char>,
)
    requires
        e.0 != other,
    ensures
        pol_lookup(x.push(e), other) == pol_lookup(x, other),
    decreases x.len(),
{
    if x.len() == 0 {
        assert(x.push(e).first() == e);
        assert(x.push(e).drop_first() =~= Seq::<(Seq<char>, Seq<u8>)>::empty());
        assert(pol_lookup(x.push(e), other) == pol_lookup(
            Seq::<(Seq<char>, Seq<u8>)>::empty(),
            other,
        ));
    } else {
        assert(x.push(e).first() == x.first());
        if x.first().0 == other {
            assert(pol_lookup(x.push(e), other) == Some(x.first().1));
            assert(pol_lookup(x, other) == Some(x.first().1));
        } else {
            lemma_lookup_push_other(x.drop_first(), e, other);
            assert(x.push(e).drop_first() =~= x.drop_first().push(e));
            assert(pol_lookup(x.push(e), other) == pol_lookup(x.drop_first().push(e), other));
            assert(pol_lookup(x, other) == pol_lookup(x.drop_first(), other));
        }
    }
}

/// Removing one name does not change the lookup of another.
proof fn lemma_lookup_remove_other(ps: Seq<(Seq<char>, Seq<u8>)>, id: Seq<char>, other: Seq<char>)
    requires
        other != id,
    ensures
        pol_lookup(pol_remove(ps, id), other) == pol_lookup(ps, other),
    decreases ps.len(),
{
    if ps.len() > 0 {
        lemma_lookup_remove_other(ps.drop_first(), id, other);
        if ps.first().0 == id {
            assert(pol_remove(ps, id) =~= pol_remove(ps.drop_first(), id));
            assert(ps.first().0 != other);
        } else {
            let rem = pol_remove(ps, id);
            assert(rem =~= seq![ps.first()] + pol_remove(ps.drop_first(), id));
            assert(rem.first() == ps.first());
            assert(rem.drop_first() =~= pol_remove(ps.drop_first(), id));
        }
    }
}

/// Replacing a policy is never observed half-done: afterwards the named
/// policy holds exactly the new content and every other name resolves as
/// before.
pub proof fn lemma_set_policy_atomic(
    ps: Seq<(Seq<char>, Seq<u8>)>,
    id: Seq<char>,
    c: Seq<u8>,
    other: Seq<char>,
)
    requires
        other != id,
    ensures
        pol_lookup(pol_set(ps, id, c), id) == Some(c),
        pol_lookup(pol_set(ps, id, c), other) == pol_lookup(ps, other),
{
    lemma_pol_remove_no_id(ps, id);
    lemma_lookup_push_found(pol_remove(ps, id), id, c);
    lemma_lookup_push_other(pol_remove(ps, id), (id, c), other);
    lemma_lookup_remove_other(ps, id, other);
}

/// The store of named policies.
pub struct PolicyStore {
    entries: Vec<(String, Vec<u8>)>,
}

impl PolicyStore {
    /// The stored (identifier, content) pairs.
    pub closed spec fn view_entries(&self) -> Seq<(Seq<char>, Seq<u8>)> {
        pol_view(self.entries@)
    }

    /// Creates an empty store.
    pub fn new() -> (r: Self)
        ensures
            r.view_entries() == Seq::<(Seq<char>, Seq<u8>)>::empty(),
    {
        let r = PolicyStore { entries: Vec::new() };
        proof {
            assert(r.view_entries() =~= Seq::<(Seq<char>, Seq<u8>)>::empty());
        }
        r
    }

    /// Replaces or creates the policy named `id`, atomically: afterwards
    /// the store holds exactly the old entries for other names plus the
    /// new content.  Rejects a definition the engine cannot evaluate,
    /// leaving the store unmodified.
    pub fn set_policy(&mut self, id: String, content: Vec<u8>) -> (r: Result<(), Error>)
        ensures
            match r {
                Ok(()) => valid_policy(content@) && final(self).view_entries() == pol_set(
                    old(self).view_entries(),
                    id@,
                    content@,
                ),
                Err(e) => {
                    &&& e == Error::InvalidPolicy
                    &&& !valid_policy(content@)
                    &&& final(self).view_entries() == old(self).view_entries()
                },
            },
    {
        let strict = mode_strict();
        let lenient = mode_lenient();
        if !bytes_eq(&content, &strict) && !bytes_eq(&content, &lenient) {
            return Err(Error::InvalidPolicy);
        }
        self.remove_entries(&id);
        self.entries.push((id, content));
        proof {
            assert(pol_view(self.entries@) =~= pol_view(self.entries@.drop_last()).push(
                (self.entries@.last().0@, self.entries@.last().1@),
            ));
        }
        Ok(())
    }

    /// Removes the policy named `id`; removing an absent policy is not
    /// an error.
    pub fn remove_policy(&mut self, id: &String) -> (r: Result<(), Error>)
        ensures
            r is Ok,
            final(self).view_entries() == pol_remove(old(self).view_entries(), id@),
    {
        self.remove_entries(id);
        Ok(())
    }

    /// Drops every entry named `id`.
    fn remove_entries(&mut self, id: &String)
        ensures
            final(self).view_entries() == pol_remove(old(self).view_entries(), id@),
    {
        let mut kept: Vec<(String, Vec<u8>)> = Vec::new();
        let ghost orig = pol_view(self.entries@);
        proof {
            assert(orig.skip(0) =~= orig);
            assert(pol_view(kept@) =~= Seq::<(Seq<char>, Seq<u8>)>::empty());
            assert(pol_view(kept@) + pol_remove(orig, id@) =~= pol_remove(orig, id@));
        }
        let mut i: usize = 0;
        while i < self.entries.len()
            invariant
                i <= self.entries@.len(),
                orig == pol_view(self.entries@),
                pol_remove(orig, id@) == pol_view(kept@) + pol_remove(
                    orig.skip(i as int),
                    id@,
                ),
            decreases self.entries@.len() - i,
        {
            let ghost kept_prev = kept@;
            let keep = !string_eq(&self.entries[i].0, id);
            if keep {
                let entry_id = clone_string(&self.entries[i].0);
                let entry_content = crate::evidence::copy_range(
                    &self.entries[i].1,
                    0,
                    self.entries[i].1.len(),
                );
                proof {
                    assert(entry_content@ =~= self.entries@[i as int].1@);
                }
                kept.push((entry_id, entry_content));
            }
            proof {
                let rest = orig.skip(i as int);
                assert(rest.first() == orig[i as int]);
                assert(rest.drop_first() =~= orig.skip(i + 1 as int));
                assert(orig[i as int]
                    == (self.entries@[i as int].0@, self.entries@[i as int].1@));
                if keep {
                    assert(pol_view(kept@) =~= pol_view(kept_prev).push(orig[i as int]));
                    assert(pol_view(kept@) + pol_remove(orig.skip(i + 1 as int), id@)
                        =~= pol_view(kept_prev) + (seq![orig[i as int]] + pol_remove(
                        orig.skip(i + 1 as int),
                        id@,
                    )));
                }
            }
            i = i + 1;
        }
        proof {
            assert(orig.skip(orig.len() as int) =~= Seq::<(Seq<char>, Seq<u8>)>::empty());
            assert(pol_view(kept@) + Seq::<(Seq<char>, Seq<u8>)>::empty() =~= pol_view(kept@));
        }
        self.entries = kept;
    }

    /// Lists the stored policies as identifier plus content hash.
    pub fn list_policy(&self) -> (r: Vec<PolicyDigest>)
        ensures
            r@.len() == self.view_entries().len(),
            forall|k: int|
                0 <= k < r@.len() ==> {
                    &&& (#[trigger] r@[k]).id@ == self.view_entries()[k].0
                    &&& r@[k].digest@ == hex_of(sha384_of(self.view_entries()[k].1))
                },
    {
        let mut r: Vec<PolicyDigest> = Vec::new();
        let mut i: usize = 0;
        while i < self.entries.len()
            invariant
                i <= self.entries@.len(),
                r@.len() == i,
                forall|k: int|
                    0 <= k < i ==> {
                        &&& (#[trigger] r@[k]).id@ == pol_view(self.entries@)[k].0
                        &&& r@[k].digest@ == hex_of(sha384_of(pol_view(self.entries@)[k].1))
                    },
            decreases self.entries@.len() - i,
        {
            let id = clone_string(&self.entries[i].0);
            let digest = sha384(&self.entries[i].1);
            let digest_hex = hex_bytes(&digest);
            r.push(PolicyDigest { id, digest: digest_hex });
            i = i + 1;
        }
        r
    }

    /// Looks up the content of the policy named `id`.
    pub fn get_policy(&self, id: &String) -> (r: Option<Vec<u8>>)
        ensures
            match r {
                Some(c) => pol_lookup(self.view_entries(), id@) == Some(c@),
                None => pol_lookup(self.view_entries(), id@) is None,
            },
    {
        let ghost ps = self.view_entries();
        let mut j: usize = 0;
        while j < self.entries.len()
            invariant
                j <= self.entries@.len(),
                ps == self.view_entries(),
                forall|k: int| 0 <= k < j ==> (#[trigger] ps[k]).0 != id@,
            decreases self.entries@.len() - j,
        {
            if string_eq(&self.entries[j].0, id) {
                let c = crate::evidence::copy_range(
                    &self.entries[j].1,
                    0,
                    self.entries[j].1.len(),
                );
                proof {
                    lemma_pol_lookup_skip(ps, id@, j as int);
                    assert(ps.skip(j as int).first() == ps[j as int]);
                    assert(c@ =~= self.entries@[j as int].1@);
                }
                return Some(c);
            }
            j = j + 1;
        }
        proof {
            lemma_pol_lookup_skip(ps, id@, ps.len() as int);
            assert(ps.skip(ps.len() as int) =~= Seq::<(Seq<char>, Seq<u8>)>::empty());
        }
        None
    }

    /// Evaluates every selected policy over the claims and their
    /// reference digests.  One missing policy fails the whole batch:
    /// no partial outcome list is ever returned.
    pub fn evaluate(
        &self,
        claims: &Vec<(Vec<u8>, Vec<u8>)>,
        refs: &Vec<Vec<Vec<u8>>>,
        policy_ids: &Vec<String>,
    ) -> (r: Result<Vec<(bool, Vec<u8>)>, Error>)
        requires
            refs@.len() == claims@.len(),
        ensures
            match r {
                Ok(out) => eval_policies(
                    self.view_entries(),
                    ids_view(policy_ids@),
                    crate::claims::entries_view(claims@),
                    refsets_view(refs@),
                ) == Some(outcomes_view(out@)),
                Err(e) => {
                    &&& e == Error::PolicyEvaluationFailed
                    &&& eval_policies(
                        self.view_entries(),
                        ids_view(policy_ids@),
                        crate::claims::entries_view(claims@),
                        refsets_view(refs@),
                    ) is None
                },
            },
    {
        let ghost ids = ids_view(policy_ids@);
        let ghost cl = crate::claims::entries_view(claims@);
        let ghost rf = refsets_view(refs@);
        let mut out: Vec<(bool, Vec<u8>)> = Vec::new();
        let mut i: usize = 0;
        while i < policy_ids.len()
            invariant
                i <= policy_ids@.len(),
                ids == ids_view(policy_ids@),
                cl == crate::claims::entries_view(claims@),
                rf == refsets_view(refs@),
                refs@.len() == claims@.len(),
                eval_policies(self.view_entries(), ids.take(i as int), cl, rf) == Some(
                    outcomes_view(out@),
                ),
            decreases policy_ids@.len() - i,
        {
            match self.get_policy(&policy_ids[i]) {
                None => {
                    proof {
                        lemma_eval_policies_none(self.view_entries(), ids, cl, rf, i as int);
                    }
                    return Err(Error::PolicyEvaluationFailed);
                },
                Some(content) => {
                    let passed = check_policy(&content, claims, refs);
                    let ghost out_prev = out@;
                    out.push((passed, content));
                    proof {
                        assert(ids.take(i + 1 as int).drop_last() =~= ids.take(i as int));
                        assert(ids.take(i + 1 as int).last() == ids[i as int]);
                        assert(outcomes_view(out@) =~= outcomes_view(out_prev).push(
                            (passed, out@.last().1@),
                        ));
                    }
                },
            }
            i = i + 1;
        }
        proof {
            assert(ids.take(ids.len() as int) =~= ids);
        }
        Ok(out)
    }
}

/// Whether the policy with the given content passes over the claims and
/// their reference digests.
fn check_policy(
    content: &Vec<u8>,
    claims: &Vec<(Vec<u8>, Vec<u8>)>,
    refs: &Vec<Vec<Vec<u8>>>,
) -> (r: bool)
    requires
        refs@.len() == claims@.len(),
    ensures
        r == policy_passes(
            content@,
            crate::claims::entries_view(claims@),
            refsets_view(refs@),
        ),
{
    let ghost cl = crate::claims::entries_view(claims@);
    let ghost rf = refsets_view(refs@);
    let strict_mode = {
        let strict = mode_strict();
        bytes_eq(content, &strict)
    };
    let mut all_ok = true;
    let mut k: usize = 0;
    while k < claims.len()
        invariant
            k <= claims@.len(),
            refs@.len() == claims@.len(),
            cl == crate::claims::entries_view(claims@),
            rf == refsets_view(refs@),
            strict_mode <==> content@ == strict_bytes(),
            strict_mode ==> (all_ok <==> forall|m: int|
                0 <= m < k ==> contains_blob(#[trigger] rf[m], cl[m].1)),
            !strict_mode ==> (all_ok <==> forall|m: int|
                0 <= m < k && (#[trigger] rf[m]).len() > 0 ==> contains_blob(rf[m], cl[m].1)),
        decreases claims@.len() - k,
    {
        let refset = &refs[k];
        let wanted = &claims[k].1;
        let mut found = false;
        let mut j: usize = 0;
        while j < refset.len()
            invariant
                j <= refset@.len(),
                refset == &refs@[k as int],
                k < claims@.len(),
                wanted == &claims@[k as int].1,
                found <==> exists|m: int|
                    0 <= m < j && (#[trigger] refset@[m])@ == wanted@,
            decreases refset@.len() - j,
        {
            if bytes_eq(&refset[j], wanted) {
                found = true;
            }
            j = j + 1;
        }
        proof {
            assert(rf[k as int] =~= blobs_view(refs@[k as int]@));
            if found {
                let m = choose|m: int| 0 <= m < refset@.len() && (#[trigger] refset@[m])@
                    == wanted@;
                assert(rf[k as int][m] == wanted@);
                assert(contains_blob(rf[k as int], cl[k as int].1));
            } else {
                let rk = rf[k as int];
                assert forall|m: int| 0 <= m < rk.len() implies #[trigger] rk[m] != cl[
                    k as int].1 by {
                    assert(rk[m] == refset@[m]@);
                }
                assert(!contains_blob(rf[k as int], cl[k as int].1));
            }
        }
        if strict_mode {
            if !found {
                all_ok = false;
            }
        } else {
            if refset.len() > 0 && !found {
                all_ok = false;
            }
        }
        k = k + 1;
    }
    all_ok
}

/// The bytes `strict`, as a vector.
fn mode_strict() -> (r: Vec<u8>)
    ensures
        r@ == strict_bytes(),
{
    let mut v: Vec<u8> = Vec::new();
    v.push(115);
    v.push(116);
    v.push(114);
    v.push(105);
    v.push(99);
    v.push(116);
    proof {
        assert(v@ =~= strict_bytes());
    }
    v
}

/// The bytes `lenient`, as a vector.
pub fn mode_lenient() -> (r: Vec<u8>)
    ensures
        r@ == lenient_bytes(),
{
    let mut v: Vec<u8> = Vec::new();
    v.push(108);
    v.push(101);
    v.push(110);
    v.push(105);
    v.push(101);
    v.push(110);
    v.push(116);
    proof {
        assert(v@ =~= lenient_bytes());
    }
    v
}

/// Compares two strings.
fn string_eq(a: &String, b: &String) -> (r: bool)
    ensures
        r <==> a@ == b@,
{
    a.eq(b)
}

/// Clones a string.
fn clone_string(s: &String) -> (r: String)
    ensures
        r@ == s@,
{
    s.clone()
}

} // verus!
