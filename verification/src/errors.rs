//! The error taxonomy of the pipeline.  Every failure is terminal for the
//! call that raised it; the variant names the stage that failed.

use vstd::prelude::*;

verus! {

/// A typed pipeline failure.  No stage performs partial recovery: the
/// first failing stage aborts the call and its error is returned as is.
#[derive(Clone, Copy, Debug, PartialEq, Eq, Structural)]
pub enum Error {
    /// The TEE variant has no registered verifier.
    UnsupportedTee,
    /// The evidence failed the verifier's signature, freshness or binding
    /// checks.
    VerificationFailed,
    /// The verifier's output could not be normalized into flat claims.
    MalformedClaims,
    /// The reference-value backend failed during a lookup or an ingestion;
    /// distinct from "no reference data found", which is not an error.
    ReferenceStoreUnavailable,
    /// A reference-value provenance message failed its own integrity
    /// check.
    InvalidProvenance,
    /// A named policy is missing or its evaluation errored; the whole
    /// multi-policy batch is aborted.
    PolicyEvaluationFailed,
    /// A policy definition submitted for storage failed validation; the
    /// store is left unmodified.
    InvalidPolicy,
    /// The decision token could not be produced.
    TokenIssuanceFailed,
}

} // verus!
