//! Routing of a request by its leading action byte.
//!
//! The whole body goes to the operation, so its first byte is both the route and the first byte
//! of the frame. A token's first byte is the action it is bound to (3, 12, 13), which is not the
//! route of the operation that consumes it (2, 10, 11): a group_create token lands on the
//! reserved slot 3, and storage_put and storage_query tokens on no operation. A credential frame
//! routes by its username-length byte. Callers that need those operations call the methods of
//! [`Core`] directly.
use vstd::prelude::*;

use crate::error::Error;
use crate::query::query_bytes;
use crate::server::{
    access_get_result, bytes_result, group_create_outcome, login_finish_outcome,
    login_start_outcome, registration_finish_outcome, registration_start_ok, storage_put_outcome,
    storage_query_result, unchanged, Core,
};
use crate::suite::AEAD_NONCE_LEN;

verus! {

/// The operations that a request's first byte selects.
#[derive(Debug, Clone, Copy, PartialEq, Eq, Structural)]
pub enum Operation {
    AccessGet,
    GroupAssign,
    GroupCreate,
    GroupDrop,
    LoginFinish,
    LoginStart,
    RegistrationFinish,
    RegistrationStart,
    SecretGet,
    SecretPut,
    StoragePut,
    StorageQuery,
}

/// The operation of an action code, for the codes 0 to 11.
pub open spec fn operation_spec(code: u8) -> Option<Operation> {
    if code == 0 {
        Some(Operation::AccessGet)
    } else if code == 1 {
        Some(Operation::GroupAssign)
    } else if code == 2 {
        Some(Operation::GroupCreate)
    } else if code == 3 {
        Some(Operation::GroupDrop)
    } else if code == 4 {
        Some(Operation::LoginFinish)
    } else if code == 5 {
        Some(Operation::LoginStart)
    } else if code == 6 {
        Some(Operation::RegistrationFinish)
    } else if code == 7 {
        Some(Operation::RegistrationStart)
    } else if code == 8 {
        Some(Operation::SecretGet)
    } else if code == 9 {
        Some(Operation::SecretPut)
    } else if code == 10 {
        Some(Operation::StoragePut)
    } else if code == 11 {
        Some(Operation::StorageQuery)
    } else {
        None
    }
}

/// The operation that an action code selects, if any.
pub fn operation_of(code: u8) -> (r: Option<Operation>)
    ensures
        r == operation_spec(code),
{
    match code {
        0 => Some(Operation::AccessGet),
        1 => Some(Operation::GroupAssign),
        2 => Some(Operation::GroupCreate),
        3 => Some(Operation::GroupDrop),
        4 => Some(Operation::LoginFinish),
        5 => Some(Operation::LoginStart),
        6 => Some(Operation::RegistrationFinish),
        7 => Some(Operation::RegistrationStart),
        8 => Some(Operation::SecretGet),
        9 => Some(Operation::SecretPut),
        10 => Some(Operation::StoragePut),
        11 => Some(Operation::StorageQuery),
        _ => None,
    }
}

/// Whether an operation is a reserved slot with no defined effect.
pub open spec fn reserved(op: Operation) -> bool {
    op == Operation::GroupAssign || op == Operation::GroupDrop || op == Operation::SecretGet
        || op == Operation::SecretPut
}

/// The failure of an operation that finds the wall clock before the Unix epoch.
pub open spec fn clock_failure() -> Result<Seq<u8>, Error> {
    Err(Error::Clock)
}

/// The encoded answer to a storage_query request at `now`.
pub open spec fn query_answer(c: Core, body: Seq<u8>, now: u64) -> Result<Seq<u8>, Error> {
    match storage_query_result(c.mac_key@, c.store@, body, now) {
        Ok(q) => Ok(query_bytes(q)),
        Err(e) => Err(e),
    }
}

/// What handling `body` does: the operation that its first byte selects, run on the whole
/// body. An empty body or an unknown code is a framing failure; a reserved slot answers with
/// nothing. A query result is answered in its wire encoding.
pub open spec fn handle_outcome(old: Core, new: Core, body: Seq<u8>, r: Result<Seq<u8>, Error>) -> bool {
    if body.len() == 0 {
        r == Err::<Seq<u8>, Error>(Error::Framing) && unchanged(old, new)
    } else {
        match operation_spec(body[0]) {
            None => r == Err::<Seq<u8>, Error>(Error::Framing) && unchanged(old, new),
            Some(op) => if reserved(op) {
                r == Ok::<Seq<u8>, Error>(Seq::empty()) && unchanged(old, new)
            } else {
                match op {
                    Operation::AccessGet => unchanged(old, new) && (r == clock_failure() || exists|now: u64|
                        r == access_get_result(old.mac_key@, old.store@.access, body, now)),
                    Operation::GroupCreate => r == clock_failure() && unchanged(old, new) || exists|now: u64, g: Seq<u8>|
                        g.len() == 16 && group_create_outcome(old, new, body, now, g, r),
                    Operation::StoragePut => r == clock_failure() && unchanged(old, new) || exists|now: u64, e: Seq<u8>|
                        e.len() == 16 && storage_put_outcome(old, new, body, now, e, r),
                    Operation::StorageQuery => unchanged(old, new) && (r == clock_failure() || exists|now: u64|
                        r == query_answer(old, body, now)),
                    Operation::RegistrationStart => unchanged(old, new) && registration_start_ok(old.setup@, body, r),
                    Operation::RegistrationFinish => exists|user: Seq<u8>|
                        user.len() == 16 && registration_finish_outcome(
                            old,
                            new,
                            body,
                            user,
                            match r {
                                Ok(_) => Ok(()),
                                Err(e) => Err(e),
                            },
                        ) && (r is Ok ==> r == Ok::<Seq<u8>, Error>(Seq::empty())),
                    Operation::LoginStart => login_start_outcome(old, new, body, r),
                    _ => r == clock_failure() && unchanged(old, new) || exists|now: u64, nonce: Seq<u8>|
                        nonce.len() == AEAD_NONCE_LEN && login_finish_outcome(old, new, body, now, nonce, r),
                }
            },
        }
    }
}

impl Core {
    /// Handles one request: routes the whole body by its first byte.
    pub fn handle(&mut self, body: &[u8]) -> (r: Result<Vec<u8>, Error>)
        requires
            old(self).wf(),
        ensures
            final(self).wf(),
            handle_outcome(*old(self), *final(self), body@, bytes_result(r)),
    {
        if body.len() == 0 {
            return Err(Error::Framing);
        }
        match operation_of(body[0]) {
            None => Err(Error::Framing),
            Some(Operation::AccessGet) => self.access_get(body),
            Some(Operation::GroupCreate) => self.group_create(body),
            Some(Operation::StoragePut) => self.storage_put(body),
            Some(Operation::StorageQuery) => {
                let a = self.storage_query(body);
                if let Err(Error::Clock) = a {
                    return Err(Error::Clock);
                }
                let ghost now = choose|now: u64|
                    crate::server::query_result_view(a) == storage_query_result(
                        self.mac_key@,
                        self.store@,
                        body@,
                        now,
                    );
                let r = match a {
                    Ok(q) => Ok(q.encode()),
                    Err(e) => Err(e),
                };
                assert(bytes_result(r) == query_answer(*self, body@, now));
                r
            },
            Some(Operation::RegistrationStart) => self.registration_start(body),
            Some(Operation::RegistrationFinish) => {
                let a = self.registration_finish(body);
                let ghost user = choose|user: Seq<u8>|
                    user.len() == 16 && registration_finish_outcome(
                        *old(self),
                        *self,
                        body@,
                        user,
                        a,
                    );
                let r: Result<Vec<u8>, Error> = match a {
                    Ok(()) => Ok(Vec::new()),
                    Err(e) => Err(e),
                };
                assert(bytes_result(r) is Ok ==> bytes_result(r) == Ok::<Seq<u8>, Error>(Seq::empty()));
                proof {
                    match a {
                        Ok(u) => {
                            assert(u == ());
                            assert(a == Ok::<(), Error>(()));
                        },
                        Err(e) => {},
                    }
                }
                r
            },
            Some(Operation::LoginStart) => self.login_start(body),
            Some(Operation::LoginFinish) => self.login_finish(body),
            Some(_) => Ok(Vec::new()),
        }
    }
}

} // verus!
