use attestation_service::errors::Error;
use attestation_service::tee::TeeVariant;
use attestation_service::AttestationService;
use sha2::{Digest, Sha384};

/// Binding line for one list of materials: hex of the streaming digest,
/// or the empty line for no materials.
fn binding_line(materials: &[&[u8]]) -> String {
    if materials.is_empty() {
        String::new()
    } else {
        let mut h = Sha384::new();
        for m in materials {
            h.update(m);
        }
        hex::encode(h.finalize())
    }
}

/// Evidence the sample verifier accepts: two binding lines, then claims.
fn evidence(rt: &[&[u8]], init: &[&[u8]], claims: &[(&str, &str)]) -> Vec<u8> {
    let mut s = format!("{}\n{}", binding_line(rt), binding_line(init));
    for (k, v) in claims {
        s.push('\n');
        s.push_str(&format!("{k}={v}"));
    }
    s.into_bytes()
}

/// A provenance message: the hex checksum line, then `key=digest` rows.
fn provenance(rows: &[(&str, &str)]) -> Vec<u8> {
    let payload = rows.iter().map(|(k, v)| format!("{k}={v}")).collect::<Vec<_>>().join("\n");
    let checksum = hex::encode(Sha384::digest(payload.as_bytes()));
    format!("{checksum}\n{payload}").into_bytes()
}

fn blobs(materials: &[&[u8]]) -> Vec<Vec<u8>> {
    materials.iter().map(|m| m.to_vec()).collect()
}

/// Splits a token into its length-delimited fields.
fn fields(token: &[u8]) -> Vec<Vec<u8>> {
    let mut out = Vec::new();
    let mut i = 0;
    while i < token.len() {
        let mut len: usize = 0;
        while token[i] != b':' {
            len = len * 10 + (token[i] - b'0') as usize;
            i += 1;
        }
        i += 1;
        out.push(token[i..i + len].to_vec());
        i += len;
    }
    out
}

#[test]
fn unsupported_tee_fails_before_anything_else() {
    let svc = AttestationService::new();
    let r = svc.evaluate(
        &evidence(&[], &[], &[("measurement", "abc123")]),
        TeeVariant::Sgx,
        &blobs(&[]),
        &blobs(&[]),
        &vec!["p1".to_string()],
    );
    assert_eq!(r, Err(Error::UnsupportedTee));
}

#[test]
fn missing_policy_fails_whole_batch() {
    let mut svc = AttestationService::new();
    svc.set_policy("good".to_string(), b"lenient".to_vec()).unwrap();
    let r = svc.evaluate(
        &evidence(&[], &[], &[("measurement", "abc123")]),
        TeeVariant::Sample,
        &blobs(&[]),
        &blobs(&[]),
        &vec!["good".to_string(), "absent".to_string()],
    );
    assert_eq!(r, Err(Error::PolicyEvaluationFailed));
}

#[test]
fn wrong_binding_digest_fails_verification() {
    let mut svc = AttestationService::new();
    svc.set_policy("p1".to_string(), b"lenient".to_vec()).unwrap();
    let r = svc.evaluate(
        &evidence(&[b"other-nonce"], &[], &[("measurement", "abc123")]),
        TeeVariant::Sample,
        &blobs(&[b"nonce1"]),
        &blobs(&[]),
        &vec!["p1".to_string()],
    );
    assert_eq!(r, Err(Error::VerificationFailed));
}

#[test]
fn end_to_end_passing_policy() {
    let mut svc = AttestationService::new();
    svc.set_policy("p1".to_string(), b"strict".to_vec()).unwrap();
    svc.register_reference_value(&provenance(&[("sample.measurement", "abc123")])).unwrap();
    let token = svc
        .evaluate(
            &evidence(&[b"nonce1"], &[], &[("measurement", "abc123")]),
            TeeVariant::Sample,
            &blobs(&[b"nonce1"]),
            &blobs(&[]),
            &vec!["p1".to_string()],
        )
        .expect("pipeline must succeed");
    let f = fields(&token);
    assert_eq!(f[0], b"1");
    assert_eq!(f[1], b"p1");
    assert_eq!(f[2], b"1");
    assert_eq!(f[3], b"sample.measurement");
    assert_eq!(f[4], b"abc123");
    assert_eq!(f[5], b"1");
    assert_eq!(f[6], b"1");
    assert_eq!(f[7], b"strict");
    assert_eq!(f.len(), 8);
}

#[test]
fn missing_reference_is_not_an_error_but_fails_strict_policy() {
    let mut svc = AttestationService::new();
    svc.set_policy("p1".to_string(), b"strict".to_vec()).unwrap();
    let token = svc
        .evaluate(
            &evidence(&[b"nonce1"], &[], &[("measurement", "abc123")]),
            TeeVariant::Sample,
            &blobs(&[b"nonce1"]),
            &blobs(&[]),
            &vec!["p1".to_string()],
        )
        .expect("absent reference data must not abort the pipeline");
    let f = fields(&token);
    assert_eq!(f[6], b"0");
}

#[test]
fn lenient_policy_passes_without_reference_data() {
    let mut svc = AttestationService::new();
    svc.set_policy("p1".to_string(), b"lenient".to_vec()).unwrap();
    let token = svc
        .evaluate(
            &evidence(&[], &[], &[("measurement", "abc123")]),
            TeeVariant::Sample,
            &blobs(&[]),
            &blobs(&[]),
            &vec!["p1".to_string()],
        )
        .unwrap();
    let f = fields(&token);
    assert_eq!(f[6], b"1");
}

#[test]
fn mismatched_reference_fails_lenient_policy() {
    let mut svc = AttestationService::new();
    svc.set_policy("p1".to_string(), b"lenient".to_vec()).unwrap();
    svc.register_reference_value(&provenance(&[("sample.measurement", "expected")])).unwrap();
    let token = svc
        .evaluate(
            &evidence(&[], &[], &[("measurement", "actual")]),
            TeeVariant::Sample,
            &blobs(&[]),
            &blobs(&[]),
            &vec!["p1".to_string()],
        )
        .unwrap();
    let f = fields(&token);
    assert_eq!(f[6], b"0");
}

#[test]
fn init_data_binding_is_checked_independently() {
    let mut svc = AttestationService::new();
    svc.set_policy("p1".to_string(), b"lenient".to_vec()).unwrap();
    let ok = svc.evaluate(
        &evidence(&[b"nonce1"], &[b"init-blob"], &[("measurement", "m")]),
        TeeVariant::Sample,
        &blobs(&[b"nonce1"]),
        &blobs(&[b"init-blob"]),
        &vec!["p1".to_string()],
    );
    assert!(ok.is_ok());
    let bad = svc.evaluate(
        &evidence(&[b"nonce1"], &[b"init-blob"], &[("measurement", "m")]),
        TeeVariant::Sample,
        &blobs(&[b"nonce1"]),
        &blobs(&[]),
        &vec!["p1".to_string()],
    );
    assert_eq!(bad, Err(Error::VerificationFailed));
}

#[test]
fn empty_policy_selection_yields_empty_outcomes() {
    let svc = AttestationService::new();
    let token = svc
        .evaluate(
            &evidence(&[], &[], &[("measurement", "abc123")]),
            TeeVariant::Sample,
            &blobs(&[]),
            &blobs(&[]),
            &Vec::new(),
        )
        .unwrap();
    let f = fields(&token);
    assert_eq!(f[0], b"0");
    assert_eq!(f[1], b"1");
    assert_eq!(f[2], b"sample.measurement");
    assert_eq!(f[3], b"abc123");
    assert_eq!(f[4], b"0");
    assert_eq!(f.len(), 5);
}

#[test]
fn duplicate_claim_keys_fail_verification() {
    let mut svc = AttestationService::new();
    svc.set_policy("p1".to_string(), b"lenient".to_vec()).unwrap();
    let r = svc.evaluate(
        &evidence(&[], &[], &[("measurement", "a"), ("measurement", "b")]),
        TeeVariant::Sample,
        &blobs(&[]),
        &blobs(&[]),
        &vec!["p1".to_string()],
    );
    assert_eq!(r, Err(Error::VerificationFailed));
}
