//! The PAKE login steps, server side and client side, and the opening of a sealed refresh
//! token.
use vstd::prelude::*;

use chacha20poly1305::aead::{Aead, KeyInit};

use crate::codec::{parse_sealed, split_sealed};
use crate::error::Error;
use crate::suite::{blake2b_32, blake2b_32_of, DefaultCipherSuite, AEAD_KEY_LEN, AEAD_NONCE_LEN};

verus! {

/// The session key that a pending server login state and the client's finalization yield.
pub uninterp spec fn session_key_of(state: Seq<u8>, finalization: Seq<u8>) -> Seq<u8>;

/// Whether the client's finalization deserializes and checks against the pending server state.
pub uninterp spec fn finalization_accepted(state: Seq<u8>, finalization: Seq<u8>) -> bool;

/// Whether `ciphertext` authenticates under `key` and `nonce`, with no associated data.
pub uninterp spec fn xchacha_open_ok(key: Seq<u8>, nonce: Seq<u8>, ciphertext: Seq<u8>) -> bool;

/// Relies on opaque_ke's `ServerLogin::start`, which draws fresh randomness: returns the
/// serialized server state and the credential response. `None` where an input does not
/// deserialize or the exchange fails.
#[verifier::external_body]
pub fn server_start(
    setup: &[u8],
    username: &[u8],
    password_file: &[u8],
    request: &[u8],
) -> (r: Option<(Vec<u8>, Vec<u8>)>) {
    let setup = opaque_ke::ServerSetup::<DefaultCipherSuite>::deserialize(setup).ok()?;
    let file = opaque_ke::ServerRegistration::deserialize(password_file).ok()?;
    let request = opaque_ke::CredentialRequest::deserialize(request).ok()?;
    let params = opaque_ke::ServerLoginStartParameters::default();
    let mut rng = rand::rngs::OsRng;
    let s = opaque_ke::ServerLogin::start(&mut rng, &setup, Some(file), request, username, params)
        .ok()?;
    Some((s.state.serialize().to_vec(), s.message.serialize().to_vec()))
}

/// Relies on opaque_ke's `ServerLogin::finish`: checks the client's finalization against the
/// pending state and yields the session key. `None` where an input does not deserialize or the
/// client's MAC does not check.
#[verifier::external_body]
pub fn server_finish(state: &[u8], finalization: &[u8]) -> (r: Option<Vec<u8>>)
    ensures
        r is Some <==> finalization_accepted(state@, finalization@),
        r matches Some(k) ==> k@ == session_key_of(state@, finalization@),
{
    let state = opaque_ke::ServerLogin::<DefaultCipherSuite>::deserialize(state).ok()?;
    let finalization = opaque_ke::CredentialFinalization::deserialize(finalization).ok()?;
    Some(state.finish(finalization).ok()?.session_key.to_vec())
}

/// XChaCha20-Poly1305 decryption of `ciphertext` under `key` and `nonce`, with no associated
/// data, where it authenticates.
pub uninterp spec fn xchacha_open_of(key: Seq<u8>, nonce: Seq<u8>, ciphertext: Seq<u8>) -> Seq<u8>;

/// Relies on chacha20poly1305's `XChaCha20Poly1305::decrypt` with a 32-byte key and a 24-byte
/// nonce. `None` where the ciphertext does not authenticate.
#[verifier::external_body]
fn xchacha_open(key: &[u8], nonce: &[u8], ciphertext: &[u8]) -> (r: Option<Vec<u8>>)
    requires
        key@.len() == AEAD_KEY_LEN,
        nonce@.len() == AEAD_NONCE_LEN,
    ensures
        r is Some <==> xchacha_open_ok(key@, nonce@, ciphertext@),
        r matches Some(p) ==> p@ == xchacha_open_of(key@, nonce@, ciphertext@),
{
    let cipher = chacha20poly1305::XChaCha20Poly1305::new(chacha20poly1305::Key::from_slice(key));
    cipher.decrypt(chacha20poly1305::XNonce::from_slice(nonce), ciphertext).ok()
}

/// Starts a login for `password`: the client state to keep and the request to send.
/// Relies on opaque_ke's `ClientLogin::start`, which draws fresh randomness.
#[verifier::external_body]
pub fn client_start(password: &[u8]) -> (r: Option<(Vec<u8>, Vec<u8>)>) {
    let mut rng = rand::rngs::OsRng;
    let s = opaque_ke::ClientLogin::<DefaultCipherSuite>::start(&mut rng, password).ok()?;
    Some((s.state.serialize().to_vec(), s.message.serialize().to_vec()))
}

/// Finishes a login: the finalization to send and the session key. Relies on opaque_ke's
/// `ClientLogin::finish`. `None` where the server's response does not check.
#[verifier::external_body]
pub fn client_finish(password: &[u8], state: &[u8], response: &[u8]) -> (r: Option<
    (Vec<u8>, Vec<u8>),
>) {
    let state = opaque_ke::ClientLogin::<DefaultCipherSuite>::deserialize(state).ok()?;
    let response = opaque_ke::CredentialResponse::deserialize(response).ok()?;
    let params = opaque_ke::ClientLoginFinishParameters::default();
    let f = state.finish(password, response, params).ok()?;
    Some((f.message.serialize().to_vec(), f.session_key.to_vec()))
}

/// Opens a sealed refresh token (`ciphertext ∥ nonce(24)`) with the session key: decrypts
/// the ciphertext under the BLAKE2b-32 of the key and the trailing nonce.
pub fn decrypt_token(sealed: &[u8], session_key: &[u8]) -> (r: Result<Vec<u8>, Error>)
    ensures
        parse_sealed(sealed@) is None ==> r matches Err(Error::Framing),
        parse_sealed(sealed@) matches Some((c, n)) ==> (r is Ok <==> xchacha_open_ok(
            blake2b_32_of(session_key@),
            n,
            c,
        )),
        r is Err ==> r matches Err(Error::Framing) || r matches Err(Error::Pake),
        r matches Ok(t) ==> parse_sealed(sealed@) matches Some((c, n)) && t@ == xchacha_open_of(
            blake2b_32_of(session_key@),
            n,
            c,
        ),
{
    let (ciphertext, nonce) = split_sealed(sealed)?;
    let key = blake2b_32(session_key);
    match xchacha_open(key.as_slice(), nonce.as_slice(), ciphertext.as_slice()) {
        Some(t) => Ok(t),
        None => Err(Error::Pake),
    }
}

} // verus!
