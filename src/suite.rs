//! The cryptography that the auth engine and the token service call: the PAKE cipher suite and
//! its server side, the key derivation and AEAD that seal a refresh token, and the sources of
//! fresh identifiers, nonces and time.
use blake2::digest::{Update, VariableOutput};
use chacha20poly1305::aead::{Aead, KeyInit};
use vstd::prelude::*;

verus! {

/// The Ristretto255 prime-order group of opaque_ke, carried opaquely.
#[verifier::external_type_specification]
#[verifier::external_body]
pub struct ExRistretto255(opaque_ke::Ristretto255);

/// opaque_ke's triple Diffie-Hellman key exchange, carried opaquely.
#[verifier::external_type_specification]
#[verifier::external_body]
pub struct ExTripleDh(opaque_ke::key_exchange::tripledh::TripleDh);

/// The Argon2 key stretching function, carried opaquely.
#[verifier::external_type_specification]
#[verifier::external_body]
pub struct ExArgon2<'key>(argon2::Argon2<'key>);

/// The PAKE cipher suite: Ristretto255 for the OPRF and the key exchange, triple
/// Diffie-Hellman, and Argon2 as the password KDF.
pub struct DefaultCipherSuite;

impl opaque_ke::CipherSuite for DefaultCipherSuite {
    type OprfCs = opaque_ke::Ristretto255;
    type KeGroup = opaque_ke::Ristretto255;
    type KeyExchange = opaque_ke::key_exchange::tripledh::TripleDh;
    type Ksf = argon2::Argon2<'static>;
}

/// Length of a user, group or entity identifier.
pub const ID_LEN: usize = 16;

/// Length of the key that seals a refresh token.
pub const AEAD_KEY_LEN: usize = 32;

/// Length of the tag that ends a sealed ciphertext.
pub const AEAD_TAG_LEN: usize = 16;

/// Length of the nonce that seals a refresh token.
pub const AEAD_NONCE_LEN: usize = 24;

/// BLAKE2b with a 32-byte output.
pub uninterp spec fn blake2b_32_of(input: Seq<u8>) -> Seq<u8>;

/// XChaCha20-Poly1305 encryption of `plaintext` under `key` and `nonce`, with no associated data.
pub uninterp spec fn xchacha_seal_of(key: Seq<u8>, nonce: Seq<u8>, plaintext: Seq<u8>) -> Seq<u8>;

/// A fresh server setup, serialized: OPRF seed, server key pair and fake key pair.
/// Relies on opaque_ke's `ServerSetup::new` with the operating system's random source.
#[verifier::external_body]
pub(crate) fn generate_server_setup() -> (r: Vec<u8>) {
    opaque_ke::ServerSetup::<DefaultCipherSuite>::new(&mut rand::rngs::OsRng).serialize().to_vec()
}

/// Relies on blake2's `Blake2bVar` with a 32-byte output.
#[verifier::external_body]
pub(crate) fn blake2b_32(input: &[u8]) -> (r: Vec<u8>)
    ensures
        r@ == blake2b_32_of(input@),
        r@.len() == AEAD_KEY_LEN,
{
    let mut out = [0u8;32];
    let mut hasher = blake2::Blake2bVar::new(32).unwrap();
    hasher.update(input);
    hasher.finalize_variable(&mut out).unwrap();
    out.to_vec()
}

/// Relies on chacha20poly1305's `XChaCha20Poly1305::encrypt` with a 32-byte key and a
/// 24-byte nonce: the ciphertext followed by a 16-byte tag. It fails only for a plaintext of
/// 2^32 - 1 blocks of 64 bytes or more, which `requires` leaves out.
#[verifier::external_body]
pub(crate) fn xchacha_seal(key: &[u8], nonce: &[u8], plaintext: &[u8]) -> (r: Vec<u8>)
    requires
        key@.len() == AEAD_KEY_LEN,
        nonce@.len() == AEAD_NONCE_LEN,
        plaintext@.len() < 64 * 4294967295,
    ensures
        r@ == xchacha_seal_of(key@, nonce@, plaintext@),
        r@.len() == plaintext@.len() + AEAD_TAG_LEN,
{
    let cipher = chacha20poly1305::XChaCha20Poly1305::new(chacha20poly1305::Key::from_slice(key));
    cipher.encrypt(chacha20poly1305::XNonce::from_slice(nonce), plaintext).unwrap()
}

/// A random (version 4) identifier. Relies on uuid's `Uuid::new_v4`.
#[verifier::external_body]
pub(crate) fn uuid_v4() -> (r: Vec<u8>)
    ensures
        r@.len() == ID_LEN,
{
    uuid::Uuid::new_v4().as_bytes().to_vec()
}

/// A time-ordered (version 7) identifier. Relies on uuid's `Uuid::now_v7`.
#[verifier::external_body]
pub(crate) fn uuid_v7() -> (r: Vec<u8>)
    ensures
        r@.len() == ID_LEN,
{
    uuid::Uuid::now_v7().as_bytes().to_vec()
}

/// A random 24-byte nonce. Relies on rand's `random` for a byte array.
#[verifier::external_body]
pub(crate) fn random_nonce() -> (r: Vec<u8>)
    ensures
        r@.len() == AEAD_NONCE_LEN,
{
    rand::random::<[u8; 24]>().to_vec()
}

/// Seconds since the Unix epoch by the wall clock; `None` for a clock set before the epoch.
/// Relies on std's `SystemTime::now` and `duration_since`.
#[verifier::external_body]
pub(crate) fn unix_now() -> (r: Option<u64>) {
    match std::time::SystemTime::now().duration_since(std::time::UNIX_EPOCH) {
        Ok(d) => Some(d.as_secs()),
        Err(_) => None,
    }
}

} // verus!
