use attestation_service::errors::Error;
use attestation_service::tee::TeeVariant;
use attestation_service::AttestationService;
use sha2::{Digest, Sha384};

fn provenance(rows: &[(&str, &str)]) -> Vec<u8> {
    let payload = rows.iter().map(|(k, v)| format!("{k}={v}")).collect::<Vec<_>>().join("\n");
    let checksum = hex::encode(Sha384::digest(payload.as_bytes()));
    format!("{checksum}\n{payload}").into_bytes()
}

fn evidence_one_claim(value: &str) -> Vec<u8> {
    format!("\n\nmeasurement={value}").into_bytes()
}

fn passed_field(token: &[u8]) -> Vec<u8> {
    let mut out = Vec::new();
    let mut i = 0;
    while i < token.len() {
        let mut len: usize = 0;
        while token[i] != b':' {
            len = len * 10 + (token[i] - b'0') as usize;
            i += 1;
        }
        i += 1;
        out.push(token[i..i + len].to_vec());
        i += len;
    }
    out[6].clone()
}

#[test]
fn invalid_policy_definition_is_rejected() {
    let mut svc = AttestationService::new();
    let r = svc.set_policy("p1".to_string(), b"no-such-mode".to_vec());
    assert_eq!(r, Err(Error::InvalidPolicy));
    assert_eq!(svc.list_policy().len(), 0);
}

#[test]
fn set_policy_replaces_atomically() {
    let mut svc = AttestationService::new();
    svc.set_policy("p1".to_string(), b"strict".to_vec()).unwrap();
    svc.set_policy("other".to_string(), b"lenient".to_vec()).unwrap();

    let eval = |svc: &AttestationService| {
        let token = svc
            .evaluate(
                &evidence_one_claim("abc123"),
                TeeVariant::Sample,
                &Vec::new(),
                &Vec::new(),
                &vec!["p1".to_string()],
            )
            .unwrap();
        passed_field(&token)
    };

    // Under v1 (strict) the claim fails for want of reference data.
    assert_eq!(eval(&svc), b"0".to_vec());
    // After the replacement the evaluation observes exactly v2.
    svc.set_policy("p1".to_string(), b"lenient".to_vec()).unwrap();
    assert_eq!(eval(&svc), b"1".to_vec());
    // The policy under the other name is untouched.
    let digests = svc.list_policy();
    assert_eq!(digests.len(), 2);
    assert!(digests.iter().any(|d| d.id == "other"));
}

#[test]
fn remove_policy_is_idempotent() {
    let mut svc = AttestationService::new();
    svc.set_policy("p1".to_string(), b"strict".to_vec()).unwrap();
    assert!(svc.remove_policy(&"p1".to_string()).is_ok());
    assert!(svc.remove_policy(&"p1".to_string()).is_ok());
    assert_eq!(svc.list_policy().len(), 0);
}

#[test]
fn list_policy_reports_content_hash() {
    let mut svc = AttestationService::new();
    svc.set_policy("p1".to_string(), b"strict".to_vec()).unwrap();
    let digests = svc.list_policy();
    assert_eq!(digests.len(), 1);
    assert_eq!(digests[0].id, "p1");
    let expected = hex::encode(Sha384::digest(b"strict"));
    assert_eq!(digests[0].digest, expected.as_bytes().to_vec());
}

#[test]
fn tampered_provenance_is_rejected() {
    let mut svc = AttestationService::new();
    let mut msg = provenance(&[("sample.measurement", "abc123")]);
    let last = msg.len() - 1;
    msg[last] ^= 1;
    assert_eq!(svc.register_reference_value(&msg), Err(Error::InvalidProvenance));
}

#[test]
fn provenance_without_checksum_line_is_rejected() {
    let mut svc = AttestationService::new();
    let r = svc.register_reference_value(&b"sample.measurement=abc123".to_vec());
    assert_eq!(r, Err(Error::InvalidProvenance));
}

#[test]
fn registered_references_accumulate() {
    let mut svc = AttestationService::new();
    svc.set_policy("p1".to_string(), b"strict".to_vec()).unwrap();
    svc.register_reference_value(&provenance(&[("sample.measurement", "old")])).unwrap();
    svc.register_reference_value(&provenance(&[("sample.measurement", "abc123")])).unwrap();

    // Either recorded digest satisfies the strict policy.
    let token = svc
        .evaluate(
            &evidence_one_claim("abc123"),
            TeeVariant::Sample,
            &Vec::new(),
            &Vec::new(),
            &vec!["p1".to_string()],
        )
        .unwrap();
    assert_eq!(passed_field(&token), b"1".to_vec());
}
