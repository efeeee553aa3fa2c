use vstd::prelude::*;

use ed25519_dalek::Signer;
use ed25519_dalek::Verifier;
use rand::RngCore;
use sha2::Digest;

verus! {

/// The SHA-256 digest of a byte sequence. The digest is a function of the
/// input bytes alone; its value is not axiomatised here.
pub uninterp spec fn sha256_of(data: Seq<u8>) -> Seq<u8>;

/// The Ed25519 signature over a message under a 32-byte secret key. Ed25519
/// signing is deterministic, so the signature is a function of its inputs.
pub uninterp spec fn ed25519_sign_of(data: Seq<u8>, secret: Seq<u8>) -> Seq<u8>;

/// Whether an Ed25519 signature verifies a message under a 32-byte public key.
pub uninterp spec fn ed25519_verifies(data: Seq<u8>, signature: Seq<u8>, public: Seq<u8>) -> bool;

/// The Ed25519 public key derived from a 32-byte secret key.
pub uninterp spec fn ed25519_public_of(secret: Seq<u8>) -> Seq<u8>;

/// Relies on sha2::Sha256: the digest is 32 bytes and depends on the input alone.
#[verifier::external_body]
pub fn sha256(data: &[u8]) -> (r: Vec<u8>)
    ensures
        r@ == sha256_of(data@),
        r@.len() == 32,
{
    let mut hasher = sha2::Sha256::new();
    hasher.update(data);
    hasher.finalize().to_vec()
}

/// Relies on std::time::SystemTime::now: seconds since the Unix epoch.
/// The result depends on the clock, so nothing is promised of it.
#[verifier::external_body]
pub fn now_secs() -> u64 {
    std::time::SystemTime::now()
        .duration_since(std::time::UNIX_EPOCH)
        .map(|d| d.as_secs())
        .unwrap_or(0)
}

/// Relies on std::time::SystemTime::now: milliseconds since the Unix epoch.
/// The result depends on the clock, so nothing is promised of it.
#[verifier::external_body]
pub fn now_millis() -> u64 {
    std::time::SystemTime::now()
        .duration_since(std::time::UNIX_EPOCH)
        .map(|d| d.as_millis() as u64)
        .unwrap_or(0)
}

/// Relies on uuid::Uuid::new_v4 and its Display form: a fresh random
/// identifier rendered in the 36-character hyphenated format.
#[verifier::external_body]
pub fn fresh_session_id() -> (r: String)
    ensures
        r@.len() == 36,
{
    uuid::Uuid::new_v4().to_string()
}

/// Relies on uuid::Uuid::new_v4 and Uuid::as_u128: a fresh random identifier
/// as its 128-bit value. The result is random, so nothing is promised of it.
#[verifier::external_body]
pub fn fresh_uuid_u128() -> u128 {
    uuid::Uuid::new_v4().as_u128()
}

/// Relies on rand::rngs::OsRng::fill_bytes: 32 random bytes.
#[verifier::external_body]
pub fn random_bytes_32() -> (r: Vec<u8>)
    ensures
        r@.len() == 32,
{
    let mut salt = [0u8; 32];
    rand::rngs::OsRng.fill_bytes(&mut salt);
    salt.to_vec()
}

/// Relies on ed25519_dalek::Keypair::generate: a fresh keypair of 32-byte
/// keys whose public key is derived from the secret key.
#[verifier::external_body]
pub fn ed25519_generate() -> (r: (Vec<u8>, Vec<u8>))
    ensures
        r.0@.len() == 32,
        r.1@.len() == 32,
        r.0@ == ed25519_public_of(r.1@),
{
    let mut csprng = rand::rngs::OsRng {};
    let keypair = ed25519_dalek::Keypair::generate(&mut csprng);
    (keypair.public.to_bytes().to_vec(), keypair.secret.to_bytes().to_vec())
}

/// Relies on ed25519_dalek::PublicKey::from: the public key derived from a
/// 32-byte secret key.
#[verifier::external_body]
pub fn ed25519_derive_public(secret: &[u8]) -> (r: Vec<u8>)
    requires
        secret@.len() == 32,
    ensures
        r@.len() == 32,
        r@ == ed25519_public_of(secret@),
{
    let sk = ed25519_dalek::SecretKey::from_bytes(secret).unwrap();
    let pk = ed25519_dalek::PublicKey::from(&sk);
    pk.to_bytes().to_vec()
}

/// Relies on ed25519_dalek::Keypair::sign: the deterministic 64-byte Ed25519
/// signature over the message under the given 32-byte secret key.
#[verifier::external_body]
pub fn ed25519_sign(data: &[u8], secret: &[u8]) -> (r: Vec<u8>)
    requires
        secret@.len() == 32,
    ensures
        r@.len() == 64,
        r@ == ed25519_sign_of(data@, secret@),
{
    let sk = ed25519_dalek::SecretKey::from_bytes(secret).unwrap();
    let pk = ed25519_dalek::PublicKey::from(&sk);
    let keypair = ed25519_dalek::Keypair { secret: sk, public: pk };
    keypair.sign(data).to_bytes().to_vec()
}

/// Relies on ed25519_dalek::PublicKey::verify. Returns None when the key or
/// signature bytes do not decode to a valid point or scalar; otherwise says
/// whether the signature verifies.
#[verifier::external_body]
pub fn ed25519_check(data: &[u8], signature: &[u8], public: &[u8]) -> (r: Option<bool>)
    requires
        signature@.len() == 64,
        public@.len() == 32,
    ensures
        r is Some ==> r->0 == ed25519_verifies(data@, signature@, public@),
{
    let pk = match ed25519_dalek::PublicKey::from_bytes(public) {
        Ok(pk) => pk,
        Err(_) => return None,
    };
    let sig = match ed25519_dalek::Signature::from_bytes(signature) {
        Ok(s) => s,
        Err(_) => return None,
    };
    Some(pk.verify(data, &sig).is_ok())
}

} // verus!
