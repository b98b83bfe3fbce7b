use btclib::crypto::{PrivateKey, PublicKey, Signature};
use btclib::u256::U256;

fn hex(bytes: &[u8]) -> String {
    let mut out = String::new();
    for b in bytes {
        out.push_str(&format!("{:02x}", b));
    }
    out
}

#[test]
fn hash_of_empty_input_is_the_double_digest() {
    let h = btclib::sha256::Hash::hash(&[]);
    assert_eq!(
        hex(&h.as_bytes()),
        "5df6e0e2761359d30a8275058e299fcc0381534545f55cf43e41983f5d4c9456"
    );
}

#[test]
fn hash_of_abc_is_the_double_digest() {
    let h = btclib::sha256::Hash::hash(b"abc");
    assert_eq!(
        hex(&h.as_bytes()),
        "4f8b42c22dd3729b519ba6f68d2da7cc5b2d606d05daed5ad5128cc03e6c6358"
    );
}

#[test]
fn hash_is_not_its_input() {
    let input = [7u8; 32];
    let h = btclib::sha256::Hash::hash(&input);
    assert_ne!(h.as_bytes(), input.to_vec());
}

#[test]
fn zero_hash_matches_every_target() {
    let zero = btclib::sha256::Hash::zero();
    assert!(zero.matches_target(U256::zero()));
    assert!(zero.matches_target(btclib::min_target()));
}

#[test]
fn hash_matches_target_only_at_or_above_its_value() {
    let h = btclib::sha256::Hash::hash(b"abc");
    assert!(h.matches_target(h.0));
    assert!(h.matches_target(U256::max_value()));
    assert!(!h.matches_target(U256::zero()));
}

#[test]
fn signature_verifies_under_the_matching_key() {
    let private = PrivateKey::new_key();
    let public = private.public_key().expect("a fresh key is valid");
    let h = btclib::sha256::Hash::hash(b"output");
    let sig = Signature::sign_output(&h, &private).expect("a fresh key signs");
    assert!(sig.verify(&h, &public));
}

#[test]
fn signature_fails_under_another_key_or_hash() {
    let private = PrivateKey::new_key();
    let other = PrivateKey::new_key().public_key().unwrap();
    let h = btclib::sha256::Hash::hash(b"output");
    let sig = Signature::sign_output(&h, &private).unwrap();
    assert!(!sig.verify(&h, &other));
    let h2 = btclib::sha256::Hash::hash(b"another output");
    assert!(!sig.verify(&h2, &private.public_key().unwrap()));
}

#[test]
fn signing_is_deterministic() {
    let private = PrivateKey(U256::from_u64(12345));
    let h = btclib::sha256::Hash::hash(b"output");
    let a = Signature::sign_output(&h, &private).unwrap();
    let b = Signature::sign_output(&h, &private).unwrap();
    assert_eq!(a, b);
}

#[test]
fn public_key_of_scalar_one_is_the_generator() {
    let private = PrivateKey(U256::from_u64(1));
    let public = private.public_key().unwrap();
    assert_eq!(
        hex(&public.to_bytes()),
        "0279be667ef9dcbbac55a06295ce870b07029bfcdb2dce28d959f2815b16f81798"
    );
}

#[test]
fn zero_is_no_private_key() {
    let private = PrivateKey(U256::zero());
    assert_eq!(private.public_key(), None);
    let h = btclib::sha256::Hash::hash(b"output");
    assert_eq!(Signature::sign_output(&h, &private), None);
}

#[test]
fn garbage_public_key_verifies_nothing() {
    let private = PrivateKey::new_key();
    let h = btclib::sha256::Hash::hash(b"output");
    let sig = Signature::sign_output(&h, &private).unwrap();
    let garbage = PublicKey { prefix: 9, x: U256::from_u64(5) };
    assert!(!sig.verify(&h, &garbage));
}
