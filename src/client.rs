//! The request frames that carry the client's PAKE steps.
use vstd::prelude::*;

use crate::codec::{credential_frame, encode_credential};
use crate::error::Error;
use crate::{login, registration};

verus! {

/// Frames a PAKE message under `username`, turning the PAKE's refusal into an error.
fn frame_step(username: &[u8], message: Option<Vec<u8>>) -> (r: Result<Vec<u8>, Error>)
    ensures
        message is None ==> r matches Err(Error::Pake),
        message matches Some(m) ==> (r is Ok <==> 1 <= username@.len() <= 255) && (
        r matches Ok(f) ==> f@ == credential_frame(username@, m@)) && (r is Err ==> r matches Err(
            Error::Framing,
        )),
{
    match message {
        Some(m) => encode_credential(username, m.as_slice()),
        None => Err(Error::Pake),
    }
}

/// The registration_start request for `username` and `password`, with the client state to
/// keep for registration_finish.
pub fn registration_start_request(username: &[u8], password: &[u8]) -> (r: Result<
    (Vec<u8>, Vec<u8>),
    Error,
>)
    ensures
        !(1 <= username@.len() <= 255) ==> r is Err,
        r matches Ok((_, f)) ==> exists|m: Seq<u8>| f@ == credential_frame(username@, m),
{
    match registration::client_start(password) {
        Some((state, message)) => {
            let frame = frame_step(username, Some(message))?;
            Ok((state, frame))
        },
        None => Err(Error::Pake),
    }
}

/// The registration_finish request for `username` and `password`, answering `response`.
pub fn registration_finish_request(
    username: &[u8],
    password: &[u8],
    state: &[u8],
    response: &[u8],
) -> (r: Result<Vec<u8>, Error>)
    ensures
        !(1 <= username@.len() <= 255) ==> r is Err,
        r matches Ok(f) ==> exists|m: Seq<u8>| f@ == credential_frame(username@, m),
{
    frame_step(username, registration::client_finish(password, state, response))
}

/// The login_start request for `username` and `password`, with the client state to keep for
/// login_finish.
pub fn login_start_request(username: &[u8], password: &[u8]) -> (r: Result<
    (Vec<u8>, Vec<u8>),
    Error,
>)
    ensures
        !(1 <= username@.len() <= 255) ==> r is Err,
        r matches Ok((_, f)) ==> exists|m: Seq<u8>| f@ == credential_frame(username@, m),
{
    match login::client_start(password) {
        Some((state, message)) => {
            let frame = frame_step(username, Some(message))?;
            Ok((state, frame))
        },
        None => Err(Error::Pake),
    }
}

/// The login_finish request for `username` and `password`, answering `response`, with the
/// session key that opens the sealed refresh token.
pub fn login_finish_request(
    username: &[u8],
    password: &[u8],
    state: &[u8],
    response: &[u8],
) -> (r: Result<(Vec<u8>, Vec<u8>), Error>)
    ensures
        !(1 <= username@.len() <= 255) ==> r is Err,
        r matches Ok((f, _)) ==> exists|m: Seq<u8>| f@ == credential_frame(username@, m),
{
    match login::client_finish(password, state, response) {
        Some((finalization, session_key)) => {
            let frame = frame_step(username, Some(finalization))?;
            Ok((frame, session_key))
        },
        None => Err(Error::Pake),
    }
}

} // verus!
