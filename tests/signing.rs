use ever_playground::crypto::{ed25519_check_signature, ed25519_new_keypair, ed25519_secret_to_public, ed25519_sign};
use ever_playground::error::Error;

#[test]
fn sign_and_check() {
    let secret = vec![7u8; 32];
    let public = ed25519_secret_to_public(&secret).unwrap();
    assert_eq!(public.len(), 32);
    assert_ne!(public, secret);
    let data = b"message".to_vec();
    let sig = ed25519_sign(&data, &secret).unwrap();
    assert_eq!(sig.len(), 64);
    assert!(ed25519_check_signature(&data, &sig, &public));
    assert!(!ed25519_check_signature(&b"other".to_vec(), &sig, &public));
    assert!(!ed25519_check_signature(&data, &sig[..63].to_vec(), &public));
    assert_eq!(ed25519_sign(&data, &secret).unwrap(), sig);
}

#[test]
fn bad_secret_lengths() {
    assert_eq!(ed25519_secret_to_public(&vec![1u8; 31]), Err(Error::Format));
    assert_eq!(ed25519_sign(&vec![], &vec![1u8; 33]), Err(Error::Format));
}

#[test]
fn new_keypair_matches() {
    let (secret, public) = ed25519_new_keypair();
    assert_eq!(secret.len(), 32);
    assert_eq!(ed25519_secret_to_public(&secret).unwrap(), public);
}
