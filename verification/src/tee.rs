//! The closed set of TEE technologies the service knows about, and the
//! name each one contributes as the namespace prefix of its claims.

use vstd::prelude::*;
use crate::encoding::{sep_free, SEP};

verus! {

/// Tag identifying the TEE technology that produced a piece of evidence.
/// It selects the verifier capability and the claim namespace; it is fixed
/// for the lifetime of one evaluation call.
#[derive(Clone, Copy, Debug, PartialEq, Eq, Structural)]
pub enum TeeVariant {
    Sample,
    Sgx,
    Snp,
    Tdx,
    Cca,
    Csv,
}

/// The namespace prefix bytes for a TEE variant.
pub open spec fn tee_name(t: TeeVariant) -> Seq<u8> {
    match t {
        TeeVariant::Sample => seq![115u8, 97u8, 109u8, 112u8, 108u8, 101u8],
        TeeVariant::Sgx => seq![115u8, 103u8, 120u8],
        TeeVariant::Snp => seq![115u8, 110u8, 112u8],
        TeeVariant::Tdx => seq![116u8, 100u8, 120u8],
        TeeVariant::Cca => seq![99u8, 99u8, 97u8],
        TeeVariant::Csv => seq![99u8, 115u8, 118u8],
    }
}

/// Whether a verifier capability is registered for the variant.  Only the
/// built-in sample verifier is compiled into this deployment.
pub open spec fn tee_supported(t: TeeVariant) -> bool {
    t == TeeVariant::Sample
}

impl TeeVariant {
    /// The namespace prefix for this variant, as bytes.
    pub fn name(&self) -> (r: Vec<u8>)
        ensures
            r@ == tee_name(*self),
    {
        let mut v: Vec<u8> = Vec::new();
        match self {
            TeeVariant::Sample => {
                v.push(115);
                v.push(97);
                v.push(109);
                v.push(112);
                v.push(108);
                v.push(101);
            },
            TeeVariant::Sgx => {
                v.push(115);
                v.push(103);
                v.push(120);
            },
            TeeVariant::Snp => {
                v.push(115);
                v.push(110);
                v.push(112);
            },
            TeeVariant::Tdx => {
                v.push(116);
                v.push(100);
                v.push(120);
            },
            TeeVariant::Cca => {
                v.push(99);
                v.push(99);
                v.push(97);
            },
            TeeVariant::Csv => {
                v.push(99);
                v.push(115);
                v.push(118);
            },
        }
        proof { assert(v@ =~= tee_name(*self)); }
        v
    }

    /// Whether a verifier capability is registered for this variant.
    pub fn supported(&self) -> (r: bool)
        ensures
            r == tee_supported(*self),
    {
        match self {
            TeeVariant::Sample => true,
            _ => false,
        }
    }
}

/// No TEE name contains the key-path separator.
pub proof fn lemma_tee_name_sep_free(t: TeeVariant)
    ensures
        sep_free(tee_name(t)),
        tee_name(t).len() > 0,
{
    assert(SEP == 46);
}

/// Distinct TEE variants have distinct names, so their claim namespaces
/// never collide.
pub proof fn lemma_tee_name_injective(t1: TeeVariant, t2: TeeVariant)
    requires
        tee_name(t1) == tee_name(t2),
    ensures
        t1 == t2,
{
    if t1 != t2 {
        assert(tee_name(t1)[0] == tee_name(t2)[0]);
        assert(tee_name(t1)[1] == tee_name(t2)[1]);
        assert(tee_name(t1).len() == tee_name(t2).len());
        assert(false);
    }
}

} // verus!
