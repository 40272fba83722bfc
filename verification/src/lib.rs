//! Core of an attestation evaluation service.
//!
//! Given evidence produced by a trusted execution environment, the service
//! decides whether the evidence proves an acceptable state and, if so,
//! issues a decision token.  The pipeline hashes caller-supplied binding
//! materials, verifies the evidence, flattens the resulting claims into a
//! namespaced flat map, consults a reference-value store, runs the selected
//! policies, and encodes the decision.  Each stage's failure aborts the
//! whole call with that stage's error; no stage performs partial recovery.

pub mod claims;
pub mod encoding;
pub mod errors;
pub mod evidence;
pub mod hash;
pub mod policy;
pub mod reference;
pub mod tee;
pub mod token;

use vstd::prelude::*;
use crate::claims::{entries_view, flatten_claims};
use crate::encoding::blobs_view;
use crate::errors::Error;
use crate::evidence::{lemma_flat_text_object, prefixed, sample_verify, verify_spec, view_opt};
use crate::hash::{accumulate, accumulate_spec};
use crate::policy::{
    eval_policies, ids_view, lemma_eval_policies_none, lemma_set_policy_atomic, pol_lookup,
    pol_remove, pol_set, refsets_view, valid_policy, PolicyDigest, PolicyStore,
};
use crate::reference::{ingest_spec, ref_lookup, ReferenceValueStore};
use crate::tee::{tee_supported, TeeVariant};
use crate::token::token_spec;
use vstd::utf8::encode_utf8;

verus! {

/// The reference digests looked up for each normalized claim key, with
/// no key omitted.
pub open spec fn lookups_for(
    references: Seq<(Seq<u8>, Seq<u8>)>,
    entries: Seq<(Seq<u8>, Seq<u8>)>,
) -> Seq<Seq<Seq<u8>>> {
    entries.map_values(|e: (Seq<u8>, Seq<u8>)| ref_lookup(references, e.0))
}

/// The UTF-8 bytes of each policy identifier.
pub open spec fn ids_bytes(ids: Seq<Seq<char>>) -> Seq<Seq<u8>> {
    ids.map_values(|id: Seq<char>| encode_utf8(id))
}

/// What `evaluate` returns, as a function of the stores' state and the
/// call's inputs: the pipeline runs verifier selection, binding-digest
/// accumulation, evidence verification, claim normalization, reference
/// lookup, policy evaluation and token encoding in that order, and the
/// first stage to fail decides the error.
pub open spec fn evaluate_spec(
    policies: Seq<(Seq<char>, Seq<u8>)>,
    references: Seq<(Seq<u8>, Seq<u8>)>,
    evidence_bytes: Seq<u8>,
    tee: TeeVariant,
    runtime_data: Seq<Seq<u8>>,
    init_data: Seq<Seq<u8>>,
    policy_ids: Seq<Seq<char>>,
) -> Result<Seq<u8>, Error> {
    if !tee_supported(tee) {
        Err(Error::UnsupportedTee)
    } else {
        match verify_spec(
            evidence_bytes,
            accumulate_spec(runtime_data),
            accumulate_spec(init_data),
        ) {
            None => Err(Error::VerificationFailed),
            Some(pairs) => {
                let entries = prefixed(crate::tee::tee_name(tee), pairs);
                let refs = lookups_for(references, entries);
                match eval_policies(policies, policy_ids, entries, refs) {
                    None => Err(Error::PolicyEvaluationFailed),
                    Some(outcomes) => Ok(token_spec(ids_bytes(policy_ids), entries, outcomes)),
                }
            },
        }
    }
}

/// The attestation evaluation service: the shared, long-lived instance
/// holding the policy store and the reference-value store.  `evaluate`
/// only reads the stores (it takes `&self`), while the mutating
/// operations take `&mut self`: under a readers-writer discipline an
/// evaluation can never observe a half-applied mutation.
pub struct AttestationService {
    policy_engine: PolicyStore,
    rvps: ReferenceValueStore,
}

impl AttestationService {
    /// The stored policies.
    pub closed spec fn policies(&self) -> Seq<(Seq<char>, Seq<u8>)> {
        self.policy_engine.view_entries()
    }

    /// The recorded reference-value rows.
    pub closed spec fn references(&self) -> Seq<(Seq<u8>, Seq<u8>)> {
        self.rvps.view_rows()
    }

    /// Creates a service with empty stores.
    pub fn new() -> (r: Self)
        ensures
            r.policies() == Seq::<(Seq<char>, Seq<u8>)>::empty(),
            r.references() == Seq::<(Seq<u8>, Seq<u8>)>::empty(),
    {
        AttestationService { policy_engine: PolicyStore::new(), rvps: ReferenceValueStore::new() }
    }

    /// Sets the attestation verification policy named `id`, atomically.
    pub fn set_policy(&mut self, id: String, content: Vec<u8>) -> (r: Result<(), Error>)
        ensures
            match r {
                Ok(()) => valid_policy(content@) && final(self).policies() == pol_set(
                    old(self).policies(),
                    id@,
                    content@,
                ),
                Err(e) => {
                    &&& e == Error::InvalidPolicy
                    &&& !valid_policy(content@)
                    &&& final(self).policies() == old(self).policies()
                },
            },
            final(self).references() == old(self).references(),
    {
        self.policy_engine.set_policy(id, content)
    }

    /// Removes the policy named `id`; removing an absent policy is not
    /// an error.
    pub fn remove_policy(&mut self, id: &String) -> (r: Result<(), Error>)
        ensures
            r is Ok,
            final(self).policies() == pol_remove(old(self).policies(), id@),
            final(self).references() == old(self).references(),
    {
        self.policy_engine.remove_policy(id)
    }

    /// Lists the stored policies as identifier plus content hash.
    pub fn list_policy(&self) -> (r: Vec<PolicyDigest>)
        ensures
            r@.len() == self.policies().len(),
            forall|k: int|
                0 <= k < r@.len() ==> {
                    &&& (#[trigger] r@[k]).id@ == self.policies()[k].0
                    &&& r@[k].digest@ == crate::encoding::hex_of(
                        crate::hash::sha384_of(self.policies()[k].1),
                    )
                },
    {
        self.policy_engine.list_policy()
    }

    /// Registers new reference values from a provenance message,
    /// atomically; a message failing its integrity check leaves the
    /// store unmodified.
    pub fn register_reference_value(&mut self, message: &Vec<u8>) -> (r: Result<(), Error>)
        ensures
            match r {
                Ok(()) => ingest_spec(message@) matches Some(pairs) && final(self).references()
                    == old(self).references() + pairs,
                Err(e) => {
                    &&& e == Error::InvalidProvenance
                    &&& ingest_spec(message@) is None
                    &&& final(self).references() == old(self).references()
                },
            },
            final(self).policies() == old(self).policies(),
    {
        self.rvps.verify_and_extract(message)
    }

    /// Folds an ordered list of binding materials into one digest;
    /// absence for the empty list.
    pub fn accumulate_hash(materials: &Vec<Vec<u8>>) -> (r: Option<Vec<u8>>)
        ensures
            accumulate_spec(blobs_view(materials@)) == view_opt(r),
    {
        accumulate(materials)
    }

    /// Looks up the reference digests for every normalized claim key,
    /// with no omissions; a key without recorded digests gets the empty
    /// list, which is not an error.
    pub fn get_reference_data(&self, entries: &Vec<(Vec<u8>, Vec<u8>)>) -> (r: Vec<Vec<Vec<u8>>>)
        ensures
            r@.len() == entries@.len(),
            refsets_view(r@) == lookups_for(self.references(), entries_view(entries@)),
    {
        let mut r: Vec<Vec<Vec<u8>>> = Vec::new();
        let mut i: usize = 0;
        while i < entries.len()
            invariant
                i <= entries@.len(),
                r@.len() == i,
                forall|k: int|
                    0 <= k < i ==> refsets_view(r@)[k] == ref_lookup(
                        self.references(),
                        entries_view(entries@)[k].0,
                    ),
            decreases entries@.len() - i,
        {
            let digests = self.rvps.get_digests(&entries[i].0);
            let ghost rprev = r@;
            let ghost dv = blobs_view(digests@);
            r.push(digests);
            proof {
                assert(refsets_view(r@) =~= refsets_view(rprev).push(dv));
                assert(entries_view(entries@)[i as int].0 == entries@[i as int].0@);
            }
            i = i + 1;
        }
        proof {
            assert(refsets_view(r@) =~= lookups_for(self.references(), entries_view(entries@)));
        }
        r
    }

    /// Evaluates attestation evidence: accumulates the binding digests,
    /// verifies the evidence with the verifier selected by the TEE
    /// variant, normalizes the claims, resolves reference values for
    /// every claim key, runs the selected policies, and issues the
    /// decision token.  The result is exactly `evaluate_spec` of the
    /// stores and inputs; the stores are not modified.
    pub fn evaluate(
        &self,
        evidence_bytes: &Vec<u8>,
        tee: TeeVariant,
        runtime_data: &Vec<Vec<u8>>,
        init_data: &Vec<Vec<u8>>,
        policy_ids: &Vec<String>,
    ) -> (r: Result<Vec<u8>, Error>)
        ensures
            match r {
                Ok(t) => evaluate_spec(
                    self.policies(),
                    self.references(),
                    evidence_bytes@,
                    tee,
                    blobs_view(runtime_data@),
                    blobs_view(init_data@),
                    ids_view(policy_ids@),
                ) == Ok::<Seq<u8>, Error>(t@),
                Err(e) => evaluate_spec(
                    self.policies(),
                    self.references(),
                    evidence_bytes@,
                    tee,
                    blobs_view(runtime_data@),
                    blobs_view(init_data@),
                    ids_view(policy_ids@),
                ) == Err::<Seq<u8>, Error>(e),
            },
    {
        if !tee.supported() {
            return Err(Error::UnsupportedTee);
        }
        let runtime_digest = Self::accumulate_hash(runtime_data);
        let init_digest = Self::accumulate_hash(init_data);
        let raw = match sample_verify(evidence_bytes, &runtime_digest, &init_digest) {
            Ok(raw) => raw,
            Err(e) => {
                return Err(e);
            },
        };
        let ghost pairs = verify_spec(
            evidence_bytes@,
            accumulate_spec(blobs_view(runtime_data@)),
            accumulate_spec(blobs_view(init_data@)),
        ).unwrap();
        let entries = match flatten_claims(tee, &raw) {
            Ok(v) => v,
            Err(e) => {
                proof {
                    lemma_flat_text_object(crate::tee::tee_name(tee), raw, pairs);
                }
                return Err(e);
            },
        };
        proof {
            lemma_flat_text_object(crate::tee::tee_name(tee), raw, pairs);
            assert(entries_view(entries@) == prefixed(crate::tee::tee_name(tee), pairs));
        }
        let refs = self.get_reference_data(&entries);
        let outcomes = match self.policy_engine.evaluate(&entries, &refs, policy_ids) {
            Ok(o) => o,
            Err(e) => {
                return Err(e);
            },
        };
        let id_bytes = strings_to_bytes(policy_ids);
        let token = crate::token::issue(&id_bytes, &entries, &outcomes);
        proof {
            assert(blobs_view(id_bytes@) =~= ids_bytes(ids_view(policy_ids@)));
        }
        Ok(token)
    }
}

/// The UTF-8 bytes of each policy identifier, as vectors.
fn strings_to_bytes(ids: &Vec<String>) -> (r: Vec<Vec<u8>>)
    ensures
        r@.len() == ids@.len(),
        forall|k: int| 0 <= k < ids@.len() ==> (#[trigger] r@[k])@ == encode_utf8(ids@[k]@),
{
    let mut r: Vec<Vec<u8>> = Vec::new();
    let mut i: usize = 0;
    while i < ids.len()
        invariant
            i <= ids@.len(),
            r@.len() == i,
            forall|k: int| 0 <= k < i ==> (#[trigger] r@[k])@ == encode_utf8(ids@[k]@),
        decreases ids@.len() - i,
    {
        let b = string_bytes(&ids[i]);
        r.push(b);
        i = i + 1;
    }
    r
}

/// The UTF-8 bytes of one string.
fn string_bytes(s: &String) -> (r: Vec<u8>)
    ensures
        r@ == encode_utf8(s@),
{
    let sl = s.as_str().as_bytes();
    let mut r: Vec<u8> = Vec::new();
    let mut i: usize = 0;
    while i < sl.len()
        invariant
            i <= sl@.len(),
            r@ == sl@.take(i as int),
        decreases sl@.len() - i,
    {
        r.push(sl[i]);
        proof {
            assert(sl@.take(i + 1 as int) =~= sl@.take(i as int).push(sl@[i as int]));
        }
        i = i + 1;
    }
    proof {
        assert(sl@.take(sl@.len() as int) =~= sl@);
    }
    r
}

/// An unsupported TEE variant aborts the call before any store is read
/// or any downstream stage runs: whatever the stores hold and whatever
/// evidence, materials and policy selection arrive, the result is
/// `UnsupportedTee`.
pub proof fn lemma_unsupported_tee_short_circuits(
    policies: Seq<(Seq<char>, Seq<u8>)>,
    references: Seq<(Seq<u8>, Seq<u8>)>,
    evidence_bytes: Seq<u8>,
    tee: TeeVariant,
    runtime_data: Seq<Seq<u8>>,
    init_data: Seq<Seq<u8>>,
    policy_ids: Seq<Seq<char>>,
)
    requires
        !tee_supported(tee),
    ensures
        evaluate_spec(
            policies,
            references,
            evidence_bytes,
            tee,
            runtime_data,
            init_data,
            policy_ids,
        ) == Err::<Seq<u8>, Error>(Error::UnsupportedTee),
{
}

/// A batch holding one unresolvable policy aborts the whole call with
/// `PolicyEvaluationFailed` and no token is issued, whatever the other
/// selected policies would have yielded.
pub proof fn lemma_policy_batch_all_or_nothing(
    policies: Seq<(Seq<char>, Seq<u8>)>,
    references: Seq<(Seq<u8>, Seq<u8>)>,
    evidence_bytes: Seq<u8>,
    tee: TeeVariant,
    runtime_data: Seq<Seq<u8>>,
    init_data: Seq<Seq<u8>>,
    policy_ids: Seq<Seq<char>>,
    i: int,
)
    requires
        tee_supported(tee),
        verify_spec(
            evidence_bytes,
            accumulate_spec(runtime_data),
            accumulate_spec(init_data),
        ) is Some,
        0 <= i < policy_ids.len(),
        pol_lookup(policies, policy_ids[i]) is None,
    ensures
        evaluate_spec(
            policies,
            references,
            evidence_bytes,
            tee,
            runtime_data,
            init_data,
            policy_ids,
        ) == Err::<Seq<u8>, Error>(Error::PolicyEvaluationFailed),
{
    let pairs = verify_spec(
        evidence_bytes,
        accumulate_spec(runtime_data),
        accumulate_spec(init_data),
    ).unwrap();
    let entries = prefixed(crate::tee::tee_name(tee), pairs);
    let refs = lookups_for(references, entries);
    lemma_eval_policies_none(policies, policy_ids, entries, refs, i);
}

/// A policy replacement is linearizable with respect to evaluations: an
/// evaluation that looks the policy up observes either the old or the
/// new content, never a mixture, and policies under other names are
/// untouched.
pub proof fn lemma_no_torn_policy_read(
    policies: Seq<(Seq<char>, Seq<u8>)>,
    id: Seq<char>,
    content: Seq<u8>,
    other: Seq<char>,
)
    requires
        other != id,
    ensures
        pol_lookup(pol_set(policies, id, content), id) == Some(content),
        pol_lookup(pol_set(policies, id, content), other) == pol_lookup(policies, other),
{
    lemma_set_policy_atomic(policies, id, content, other);
}

} // verus!
