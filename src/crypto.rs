//! Ed25519 keys and signatures over byte strings, computed by ed25519-dalek.

use crate::error::Error;
use vstd::prelude::*;

verus! {

/// Length of a secret key and of a public key.
pub const KEY_LENGTH: usize = 32;

/// Length of a signature.
pub const SIGNATURE_LENGTH: usize = 64;

/// The public key that belongs to a 32-byte secret key.
pub uninterp spec fn public_key_of(secret: Seq<u8>) -> Seq<u8>;

/// The signature of `data` under a 32-byte secret key.
pub uninterp spec fn signature_of(secret: Seq<u8>, data: Seq<u8>) -> Seq<u8>;

/// Whether `signature` is a valid strict Ed25519 signature of `data` under the
/// public key `public`.
pub uninterp spec fn signature_valid(data: Seq<u8>, signature: Seq<u8>, public: Seq<u8>) -> bool;

/// Relies on `ed25519_dalek::Keypair::generate` with `rand::thread_rng`: a random
/// secret key, and the public key derived from it as `PublicKey::from` does.
#[verifier::external_body]
fn generate_keypair() -> (r: (Vec<u8>, Vec<u8>))
    ensures
        r.0@.len() == KEY_LENGTH,
        r.1@ == public_key_of(r.0@),
        r.1@.len() == KEY_LENGTH,
{
    let mut csprng = rand::thread_rng();
    let keypair = ed25519_dalek::Keypair::generate(&mut csprng);
    (keypair.secret.as_bytes().to_vec(), keypair.public.as_bytes().to_vec())
}

/// Relies on `ed25519_dalek::SecretKey::from_bytes`, which takes exactly 32
/// bytes, and `PublicKey::from(&SecretKey)`, which derives the 32-byte public key.
#[verifier::external_body]
fn derive_public(secret: &Vec<u8>) -> (r: Vec<u8>)
    requires
        secret@.len() == KEY_LENGTH,
    ensures
        r@ == public_key_of(secret@),
        r@.len() == KEY_LENGTH,
{
    match ed25519_dalek::SecretKey::from_bytes(secret) {
        Ok(s) => ed25519_dalek::PublicKey::from(&s).to_bytes().to_vec(),
        Err(_) => Vec::new(),
    }
}

/// Relies on `ed25519_dalek::SecretKey::from_bytes` (exactly 32 bytes), the
/// public key derived from it, and `Keypair::sign`, whose 64-byte signature
/// depends on the key and the data alone.
#[verifier::external_body]
fn sign_with(data: &Vec<u8>, secret: &Vec<u8>) -> (r: Vec<u8>)
    requires
        secret@.len() == KEY_LENGTH,
    ensures
        r@ == signature_of(secret@, data@),
        r@.len() == SIGNATURE_LENGTH,
{
    match ed25519_dalek::SecretKey::from_bytes(secret) {
        Ok(s) => {
            let public = ed25519_dalek::PublicKey::from(&s);
            let keypair = ed25519_dalek::Keypair { secret: s, public };
            ed25519_dalek::Signer::sign(&keypair, data).to_bytes().to_vec()
        },
        Err(_) => Vec::new(),
    }
}

/// Relies on `ed25519_dalek::PublicKey::from_bytes`, `Signature::from_bytes` and
/// `PublicKey::verify_strict`: a key or signature that does not parse makes the
/// check fail.
#[verifier::external_body]
fn verify_with(data: &Vec<u8>, signature: &Vec<u8>, public: &Vec<u8>) -> (r: bool)
    ensures
        r == signature_valid(data@, signature@, public@),
{
    let Ok(public) = ed25519_dalek::PublicKey::from_bytes(public) else { return false };
    let Ok(signature) = ed25519_dalek::Signature::from_bytes(signature) else { return false };
    public.verify_strict(data, &signature).is_ok()
}

/// A fresh random key pair: the 32-byte secret key and its public key.
pub fn ed25519_new_keypair() -> (r: (Vec<u8>, Vec<u8>))
    ensures
        r.0@.len() == KEY_LENGTH,
        r.1@ == public_key_of(r.0@),
{
    generate_keypair()
}

/// The public key of a secret key; `Error::Format` unless the secret key has 32 bytes.
pub fn ed25519_secret_to_public(secret: &Vec<u8>) -> (r: Result<Vec<u8>, Error>)
    ensures
        secret@.len() == KEY_LENGTH ==> r.is_ok() && r.unwrap()@ == public_key_of(secret@),
        secret@.len() != KEY_LENGTH ==> r == Err::<Vec<u8>, Error>(Error::Format),
{
    if secret.len() != KEY_LENGTH {
        return Err(Error::Format);
    }
    Ok(derive_public(secret))
}

/// The signature of `data` under a secret key; `Error::Format` unless the
/// secret key has 32 bytes.
pub fn ed25519_sign(data: &Vec<u8>, secret: &Vec<u8>) -> (r: Result<Vec<u8>, Error>)
    ensures
        secret@.len() == KEY_LENGTH ==> r.is_ok() && r.unwrap()@ == signature_of(secret@, data@)
            && r.unwrap()@.len() == SIGNATURE_LENGTH,
        secret@.len() != KEY_LENGTH ==> r == Err::<Vec<u8>, Error>(Error::Format),
{
    if secret.len() != KEY_LENGTH {
        return Err(Error::Format);
    }
    Ok(sign_with(data, secret))
}

/// Whether `signature` signs `data` under `public`; a key that is not 32 bytes
/// or a signature that is not 64 bytes never does.
pub fn ed25519_check_signature(data: &Vec<u8>, signature: &Vec<u8>, public: &Vec<u8>) -> (r: bool)
    ensures
        public@.len() != KEY_LENGTH || signature@.len() != SIGNATURE_LENGTH ==> !r,
        public@.len() == KEY_LENGTH && signature@.len() == SIGNATURE_LENGTH ==> r == signature_valid(
            data@,
            signature@,
            public@,
        ),
{
    if public.len() != KEY_LENGTH || signature.len() != SIGNATURE_LENGTH {
        return false;
    }
    verify_with(data, signature, public)
}

} // verus!
