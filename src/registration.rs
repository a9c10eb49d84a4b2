//! The PAKE registration steps, server side and client side.
use vstd::prelude::*;

use crate::suite::DefaultCipherSuite;

verus! {

/// The server's registration response to `request` for `username` under the serialized
/// server setup `setup`.
pub uninterp spec fn registration_response_of(
    setup: Seq<u8>,
    username: Seq<u8>,
    request: Seq<u8>,
) -> Seq<u8>;

/// Whether the server's registration step accepts `request` for `username` under `setup`:
/// both deserialize and the OPRF evaluation succeeds.
pub uninterp spec fn registration_accepts(setup: Seq<u8>, username: Seq<u8>, request: Seq<u8>) -> bool;

/// Whether a client's registration upload deserializes.
pub uninterp spec fn upload_accepted(upload: Seq<u8>) -> bool;

/// The password file that a client's registration upload becomes.
pub uninterp spec fn password_file_of(upload: Seq<u8>) -> Seq<u8>;

/// Relies on opaque_ke's `ServerRegistration::start`: the OPRF evaluation of the client's
/// blinded password, which depends on the setup, the username and the request alone. `None`
/// where the setup or the request does not deserialize, or the evaluation fails.
#[verifier::external_body]
pub fn server_start(setup: &[u8], username: &[u8], request: &[u8]) -> (r:
    Option<Vec<u8>>)
    ensures
        r is Some <==> registration_accepts(setup@, username@, request@),
        r matches Some(m) ==> m@ == registration_response_of(setup@, username@, request@),
{
    let setup = opaque_ke::ServerSetup::<DefaultCipherSuite>::deserialize(setup).ok()?;
    let request = opaque_ke::RegistrationRequest::deserialize(request).ok()?;
    let started = opaque_ke::ServerRegistration::start(&setup, request, username).ok()?;
    Some(started.message.serialize().to_vec())
}

/// Relies on opaque_ke's `ServerRegistration::finish`, which keeps the client's upload as the
/// password file. `None` where the upload does not deserialize.
#[verifier::external_body]
pub fn server_finish(upload: &[u8]) -> (r: Option<Vec<u8>>)
    ensures
        r is Some <==> upload_accepted(upload@),
        r matches Some(f) ==> f@ == password_file_of(upload@),
{
    let upload = opaque_ke::RegistrationUpload::<DefaultCipherSuite>::deserialize(upload).ok()?;
    Some(opaque_ke::ServerRegistration::finish(upload).serialize().to_vec())
}

/// Starts a registration for `password`: the client state to keep and the request to send.
/// Relies on opaque_ke's `ClientRegistration::start`, which draws fresh randomness.
#[verifier::external_body]
pub fn client_start(password: &[u8]) -> (r: Option<(Vec<u8>, Vec<u8>)>) {
    let mut rng = rand::rngs::OsRng;
    let s = opaque_ke::ClientRegistration::<DefaultCipherSuite>::start(&mut rng, password).ok()?;
    Some((s.state.serialize().to_vec(), s.message.serialize().to_vec()))
}

/// Finishes a registration: the upload that answers the server's response. Relies on
/// opaque_ke's `ClientRegistration::finish`, which draws fresh randomness.
#[verifier::external_body]
pub fn client_finish(password: &[u8], state: &[u8], response: &[u8]) -> (r: Option<
    Vec<u8>,
>) {
    let state = opaque_ke::ClientRegistration::<DefaultCipherSuite>::deserialize(state).ok()?;
    let response = opaque_ke::RegistrationResponse::deserialize(response).ok()?;
    let params = opaque_ke::ClientRegistrationFinishParameters::default();
    let mut rng = rand::rngs::OsRng;
    let f = state.finish(&mut rng, password, response, params).ok()?;
    Some(f.message.serialize().to_vec())
}

} // verus!
