use attestation_service::AttestationService;
use sha2::{Digest, Sha384};

fn acc(materials: &[&[u8]]) -> Option<Vec<u8>> {
    let v: Vec<Vec<u8>> = materials.iter().map(|m| m.to_vec()).collect();
    AttestationService::accumulate_hash(&v)
}

#[test]
fn accumulate_empty_is_absent() {
    assert_eq!(acc(&[]), None);
}

#[test]
fn accumulate_one_empty_blob_is_present() {
    let d = acc(&[b""]).expect("one empty blob must still yield a digest");
    let expected = Sha384::digest(b"").to_vec();
    assert_eq!(d, expected);
    assert_eq!(d.len(), 48);
}

#[test]
fn accumulate_is_deterministic() {
    let a = acc(&[b"nonce", b"key-material"]);
    let b = acc(&[b"nonce", b"key-material"]);
    assert_eq!(a, b);
    assert!(a.is_some());
}

#[test]
fn accumulate_is_order_sensitive() {
    let ab = acc(&[b"alpha", b"betaa"]).unwrap();
    let ba = acc(&[b"betaa", b"alpha"]).unwrap();
    assert_ne!(ab, ba);
}

#[test]
fn accumulate_streams_in_list_order() {
    let split = acc(&[b"left", b"right"]).unwrap();
    let joined = Sha384::digest(b"leftright").to_vec();
    assert_eq!(split, joined);
}
