//! The core operations: the capability flow, the entity store and the PAKE handshakes.
//!
//! Each operation that needs the time, a fresh identifier or a fresh nonce comes in two forms:
//! `*_at`, which takes that value as an argument and whose contract pins its result down, and
//! a plain form, which draws the value and then calls the first.
use vstd::prelude::*;

use crate::codec::{
    decode_access_get, decode_credential, decode_storage_put, decode_storage_query,
    encode_sealed, lemma_parsed_triples_ids, parse_access_get, parse_credential, parse_put,
    parse_query, parse_triples, sealed_frame, triples_view, TripleView,
};
use crate::error::Error;
use crate::keyspace::{has_key, key_field_in_use, value_of, Keyspace};
use crate::login::{finalization_accepted, session_key_of};
use crate::octets::{copy_range, push_all};
use crate::query::{add_rows, query_sorted, rows_of, scan_rows, QueryResult, QueryView};
use crate::registration::{
    password_file_of, registration_accepts, registration_response_of, upload_accepted,
};
use crate::store::{
    entity_key, entity_value, lemma_stored_credentials, lemma_stored_entities, make_entity_key,
    make_entity_value, make_rule_key, rule_key, stored, Store, StoreView, READ, READ_WRITE,
};
use crate::suite::{
    blake2b_32, blake2b_32_of, generate_server_setup, random_nonce, unix_now, uuid_v4, uuid_v7,
    xchacha_seal, xchacha_seal_of, AEAD_NONCE_LEN, AEAD_TAG_LEN,
};
use crate::token::{
    expiry_after, gen_with_group, gen_without_group, token_of, token_valid, verify_with_group,
    verify_without_group, ACTION_GROUP_CREATE, ACTION_REFRESH, ACTION_STORAGE_PUT,
    ACTION_STORAGE_QUERY, GROUP_TOKEN_LEN, MAX_KEY_LEN, TOKEN_LEN,
};
use crate::{login, registration};

verus! {

/// The server: its MAC key, its PAKE setup, the pending logins and the store.
pub struct Core {
    /// The MAC key of the token service.
    pub mac_key: Vec<u8>,
    /// The serialized PAKE server setup.
    pub setup: Vec<u8>,
    /// user_uuid → pending server login state.
    pub pending: Keyspace,
    /// The keyspaces.
    pub store: Store,
}

/// A byte result as a sequence.
pub open spec fn bytes_result(r: Result<Vec<u8>, Error>) -> Result<Seq<u8>, Error> {
    match r {
        Ok(v) => Ok(v@),
        Err(e) => Err(e),
    }
}

/// Whether two cores hold the same key, setup, pending logins and store.
pub open spec fn unchanged(a: Core, b: Core) -> bool {
    &&& a.mac_key@ == b.mac_key@
    &&& a.setup@ == b.setup@
    &&& a.pending@ == b.pending@
    &&& a.store@ == b.store@
}

/// The user that a verified token names.
pub open spec fn token_user(t: Seq<u8>) -> Seq<u8> {
    t.subrange(41, 57)
}

/// The group that a verified 73-byte token names.
pub open spec fn token_group(t: Seq<u8>) -> Seq<u8> {
    t.subrange(57, 73)
}

/// The token that a token mint at `now` yields, or the clock error.
pub open spec fn minted(key: Seq<u8>, action: u8, now: u64, ids: Seq<u8>) -> Result<Seq<u8>, Error> {
    match expiry_after(now) {
        Some(exp) => Ok(token_of(key, action, exp, ids)),
        None => Err(Error::Clock),
    }
}

/// What access_get answers to `req` at `now`: the refresh token must verify; with a group,
/// the user must hold the read/write grant on it; then a token for the asked action is minted.
pub open spec fn access_get_result(key: Seq<u8>, access: Seq<(Seq<u8>, Seq<u8>)>, req: Seq<u8>, now: u64) -> Result<Seq<u8>, Error> {
    match parse_access_get(req) {
        None => Err(Error::Framing),
        Some((t, action, group)) => if !token_valid(key, ACTION_REFRESH, now, t, TOKEN_LEN as nat) {
            Err(Error::Token)
        } else {
            let user = token_user(t);
            match group {
                Some(g) => if !has_key(access, rule_key(user, g, READ_WRITE)) {
                    Err(Error::Authorization)
                } else {
                    minted(key, action, now, user + g)
                },
                None => minted(key, action, now, user),
            }
        },
    }
}

/// Whether some access rule names the group `g`.
pub open spec fn group_in_use(access: Seq<(Seq<u8>, Seq<u8>)>, g: Seq<u8>) -> bool {
    key_field_in_use(access, 33, 16, 32, g)
}

/// The length of the token that access_get mints for `req`: 73 bytes with a group, else 57.
pub open spec fn access_token_len(req: Seq<u8>) -> nat {
    match parse_access_get(req) {
        Some((_, _, Some(_))) => GROUP_TOKEN_LEN as nat,
        _ => TOKEN_LEN as nat,
    }
}

/// What group_create does at `now` with the drawn group `g`: on a valid token, where no rule
/// names `g` yet, the read/write grant of its user on `g` is added and `g` returned; nothing
/// else changes. A group identifier already in use is refused.
pub open spec fn group_create_outcome(
    old: Core,
    new: Core,
    req: Seq<u8>,
    now: u64,
    g: Seq<u8>,
    r: Result<Seq<u8>, Error>,
) -> bool {
    if !token_valid(old.mac_key@, ACTION_GROUP_CREATE, now, req, TOKEN_LEN as nat) {
        r == Err::<Seq<u8>, Error>(Error::Token) && unchanged(old, new)
    } else if group_in_use(old.store@.access, g) {
        r == Err::<Seq<u8>, Error>(Error::Store) && unchanged(old, new)
    } else {
        &&& r == Ok::<Seq<u8>, Error>(g)
        &&& !has_key(old.store@.access, rule_key(token_user(req), g, READ_WRITE))
        &&& stored(old.store@.access, new.store@.access, rule_key(token_user(req), g, READ_WRITE), Seq::empty())
        &&& new.store@.credentials == old.store@.credentials
        &&& new.store@.users == old.store@.users
        &&& new.store@.entities == old.store@.entities
        &&& new.mac_key@ == old.mac_key@
        &&& new.setup@ == old.setup@
        &&& new.pending@ == old.pending@
    }
}

/// What storage_put does at `now` with the drawn entity identifier `e`. On a well-framed
/// request whose token verifies and whose group holds the read/write grant on the parent,
/// where neither new key is taken, exactly two new entries are added, the read grant of the group on `e` and the entity record,
/// and `e` is returned; nothing else changes. On any failure nothing changes.
pub open spec fn storage_put_outcome(
    old: Core,
    new: Core,
    req: Seq<u8>,
    now: u64,
    e: Seq<u8>,
    r: Result<Seq<u8>, Error>,
) -> bool {
    match parse_put(req) {
        None => r == Err::<Seq<u8>, Error>(Error::Framing) && unchanged(old, new),
        Some(p) => if !token_valid(old.mac_key@, ACTION_STORAGE_PUT, now, p.token, GROUP_TOKEN_LEN as nat) {
            r == Err::<Seq<u8>, Error>(Error::Token) && unchanged(old, new)
        } else if !has_key(old.store@.access, rule_key(p.parent, token_group(p.token), READ_WRITE)) {
            r == Err::<Seq<u8>, Error>(Error::Authorization) && unchanged(old, new)
        } else if has_key(old.store@.entities, entity_key(p.parent, p.kind, e)) || has_key(
            old.store@.access,
            rule_key(e, token_group(p.token), READ),
        ) {
            r == Err::<Seq<u8>, Error>(Error::Store) && unchanged(old, new)
        } else {
            &&& r == Ok::<Seq<u8>, Error>(e)
            &&& stored(old.store@.access, new.store@.access, rule_key(e, token_group(p.token), READ), Seq::empty())
            &&& stored(
                old.store@.entities,
                new.store@.entities,
                entity_key(p.parent, p.kind, e),
                entity_value(p.grandparent, p.parent_kind, token_user(p.token), p.payload),
            )
            &&& new.store@.credentials == old.store@.credentials
            &&& new.store@.users == old.store@.users
            &&& new.mac_key@ == old.mac_key@
            &&& new.setup@ == old.setup@
            &&& new.pending@ == old.pending@
        },
    }
}

/// `r` with, for each kind in `kinds` in turn, the children of `entity` of that kind that
/// `group` may read appended under `parent` and that kind.
pub open spec fn add_kinds(
    r: QueryView,
    st: StoreView,
    group: Seq<u8>,
    parent: Seq<u8>,
    entity: Seq<u8>,
    kinds: Seq<u8>,
) -> QueryView
    decreases kinds.len(),
{
    if kinds.len() == 0 {
        r
    } else {
        let k = kinds.last();
        add_rows(
            add_kinds(r, st, group, parent, entity, kinds.drop_last()),
            parent,
            k,
            rows_of(st.entities, st.access, group, entity + seq![k]),
        )
    }
}

/// `r` with the triples `ts` answered in turn.
pub open spec fn add_triples(r: QueryView, st: StoreView, group: Seq<u8>, ts: Seq<TripleView>) -> QueryView
    decreases ts.len(),
{
    if ts.len() == 0 {
        r
    } else {
        let t = ts.last();
        add_kinds(add_triples(r, st, group, ts.drop_last()), st, group, t.0, t.1, t.2)
    }
}

/// What storage_query answers to `req` at `now`: the token must verify for storage_query;
/// then each triple is answered in turn, starting from an empty result.
pub open spec fn storage_query_result(key: Seq<u8>, st: StoreView, req: Seq<u8>, now: u64) -> Result<QueryView, Error> {
    match parse_query(req) {
        None => Err(Error::Framing),
        Some((t, ts)) => if !token_valid(key, ACTION_STORAGE_QUERY, now, t, GROUP_TOKEN_LEN as nat) {
            Err(Error::Token)
        } else {
            Ok(add_triples(Seq::empty(), st, token_group(t), ts))
        },
    }
}

/// A query result as its view.
pub open spec fn query_result_view(r: Result<QueryResult, Error>) -> Result<QueryView, Error> {
    match r {
        Ok(q) => Ok(q@),
        Err(e) => Err(e),
    }
}

/// What registration_start answers: for a well-framed frame, the PAKE registration response
/// where the PAKE accepts the request, else its refusal.
pub open spec fn registration_start_ok(setup: Seq<u8>, req: Seq<u8>, r: Result<Seq<u8>, Error>) -> bool {
    match parse_credential(req) {
        None => r == Err::<Seq<u8>, Error>(Error::Framing),
        Some((u, m)) => if registration_accepts(setup, u, m) {
            r == Ok::<Seq<u8>, Error>(registration_response_of(setup, u, m))
        } else {
            r == Err::<Seq<u8>, Error>(Error::Pake)
        },
    }
}

/// What registration_finish does with the drawn user identifier `user`. A username that is
/// already registered, or a user identifier already in use, is refused and the store left
/// intact. Otherwise, where the PAKE accepts the upload, the credential
/// `user ∥ password_file` and the user record (the username) are added together; nothing else
/// changes.
pub open spec fn registration_finish_outcome(
    old: Core,
    new: Core,
    req: Seq<u8>,
    user: Seq<u8>,
    r: Result<(), Error>,
) -> bool {
    match parse_credential(req) {
        None => r == Err::<(), Error>(Error::Framing) && unchanged(old, new),
        Some((u, m)) => if has_key(old.store@.credentials, u) {
            r == Err::<(), Error>(Error::Store) && unchanged(old, new)
        } else if has_key(old.store@.users, user) {
            r == Err::<(), Error>(Error::Store) && unchanged(old, new)
        } else if !upload_accepted(m) {
            r == Err::<(), Error>(Error::Pake) && unchanged(old, new)
        } else {
            &&& r == Ok::<(), Error>(())
            &&& stored(old.store@.credentials, new.store@.credentials, u, user + password_file_of(m))
            &&& stored(old.store@.users, new.store@.users, user, u)
            &&& new.store@.access == old.store@.access
            &&& new.store@.entities == old.store@.entities
            &&& new.mac_key@ == old.mac_key@
            &&& new.setup@ == old.setup@
            &&& new.pending@ == old.pending@
        },
    }
}

/// The user identifier registered for `username`.
pub open spec fn user_of(cred: Seq<(Seq<u8>, Seq<u8>)>, username: Seq<u8>) -> Seq<u8> {
    value_of(cred, username).subrange(0, 16)
}

/// What login_start does: for a registered username, where the PAKE accepts the request, a
/// pending state is stored for the user and the PAKE's response returned; the store does not
/// change.
pub open spec fn login_start_outcome(old: Core, new: Core, req: Seq<u8>, r: Result<Seq<u8>, Error>) -> bool {
    match parse_credential(req) {
        None => r == Err::<Seq<u8>, Error>(Error::Framing) && unchanged(old, new),
        Some((u, m)) => if !has_key(old.store@.credentials, u) {
            r == Err::<Seq<u8>, Error>(Error::AuthState) && unchanged(old, new)
        } else {
            match r {
                Ok(_) => {
                    &&& exists|st: Seq<u8>| stored(old.pending@, new.pending@, user_of(old.store@.credentials, u), st)
                    &&& new.store@ == old.store@
                    &&& new.mac_key@ == old.mac_key@
                    &&& new.setup@ == old.setup@
                },
                Err(e) => e == Error::Pake && unchanged(old, new),
            }
        },
    }
}

/// The sealed refresh token that login_finish returns: the refresh token of `user` minted at
/// `now`, encrypted under the BLAKE2b-32 of the session key, followed by the nonce.
pub open spec fn sealed_refresh(
    key: Seq<u8>,
    user: Seq<u8>,
    now: u64,
    session_key: Seq<u8>,
    nonce: Seq<u8>,
) -> Result<Seq<u8>, Error> {
    match minted(key, ACTION_REFRESH, now, user) {
        Ok(t) => Ok(sealed_frame(xchacha_seal_of(blake2b_32_of(session_key), nonce, t), nonce)),
        Err(e) => Err(e),
    }
}

/// What login_finish does at `now` with the fresh nonce `nonce`. For a registered username
/// with a pending login, the pending state is removed whatever follows; where the PAKE accepts
/// the finalization, the sealed refresh token is returned (unless the expiry would not fit in
/// 64 bits), else the PAKE's refusal. The store does not change.
pub open spec fn login_finish_outcome(
    old: Core,
    new: Core,
    req: Seq<u8>,
    now: u64,
    nonce: Seq<u8>,
    r: Result<Seq<u8>, Error>,
) -> bool {
    match parse_credential(req) {
        None => r == Err::<Seq<u8>, Error>(Error::Framing) && unchanged(old, new),
        Some((u, m)) => if !has_key(old.store@.credentials, u) {
            r == Err::<Seq<u8>, Error>(Error::AuthState) && unchanged(old, new)
        } else if !has_key(old.pending@, user_of(old.store@.credentials, u)) {
            r == Err::<Seq<u8>, Error>(Error::AuthState) && unchanged(old, new)
        } else {
            let user = user_of(old.store@.credentials, u);
            let st = value_of(old.pending@, user);
            &&& exists|i: int| 0 <= i < old.pending@.len() && old.pending@[i] == (user, st) && new.pending@ == old.pending@.remove(i)
            &&& new.store@ == old.store@
            &&& new.mac_key@ == old.mac_key@
            &&& new.setup@ == old.setup@
            &&& if finalization_accepted(st, m) {
                r == sealed_refresh(old.mac_key@, user, now, session_key_of(st, m), nonce)
            } else {
                r == Err::<Seq<u8>, Error>(Error::Pake)
            }
        },
    }
}

impl Core {
    /// The MAC key has 32 bytes, and the pending logins and the store are well formed.
    pub open spec fn wf(&self) -> bool {
        &&& self.mac_key@.len() == MAX_KEY_LEN
        &&& self.pending.wf()
        &&& self.store.wf()
    }

    /// A core with an empty store, the MAC key `mac_key` and the serialized PAKE server setup
    /// `setup`; `None` unless the key has exactly 32 bytes.
    pub fn new(mac_key: Vec<u8>, setup: Vec<u8>) -> (r: Option<Core>)
        ensures
            r is Some <==> mac_key@.len() == MAX_KEY_LEN,
            r matches Some(c) ==> c.wf() && c.mac_key@ == mac_key@ && c.setup@ == setup@
                && c.pending@.len() == 0 && c.store@.credentials.len() == 0
                && c.store@.users.len() == 0 && c.store@.access.len() == 0
                && c.store@.entities.len() == 0,
    {
        if mac_key.len() != MAX_KEY_LEN {
            return None;
        }
        Some(Core { mac_key, setup, pending: Keyspace::new(), store: Store::new() })
    }

    /// A core with an empty store, the MAC key `mac_key` and a freshly generated PAKE server
    /// setup; `None` unless the key has exactly 32 bytes.
    pub fn with_fresh_setup(mac_key: Vec<u8>) -> (r: Option<Core>)
        ensures
            r is Some <==> mac_key@.len() == MAX_KEY_LEN,
            r matches Some(c) ==> c.wf() && c.mac_key@ == mac_key@ && c.pending@.len() == 0
                && c.store@.credentials.len() == 0 && c.store@.users.len() == 0
                && c.store@.access.len() == 0 && c.store@.entities.len() == 0,
    {
        Core::new(mac_key, generate_server_setup())
    }

    /// Exchanges a refresh token for a token bound to an action and, optionally, a group, as
    /// of `now`.
    pub fn access_get_at(&self, req: &[u8], now: u64) -> (r: Result<Vec<u8>, Error>)
        requires
            self.wf(),
        ensures
            bytes_result(r) == access_get_result(self.mac_key@, self.store@.access, req@, now),
            r matches Ok(t) ==> t@.len() == access_token_len(req@),
    {
        let (refresh, action, group) = decode_access_get(req)?;
        let user = verify_without_group(self.mac_key.as_slice(), ACTION_REFRESH, refresh.as_slice(), now)?;
        match group {
            Some(g) => {
                let probe = make_rule_key(user.as_slice(), g.as_slice(), READ_WRITE);
                if !self.store.access.contains_in_constant_time(probe.as_slice()) {
                    return Err(Error::Authorization);
                }
                gen_with_group(self.mac_key.as_slice(), action, user.as_slice(), g.as_slice(), now)
            },
            None => gen_without_group(self.mac_key.as_slice(), action, user.as_slice(), now),
        }
    }

    /// Exchanges a refresh token for a token bound to an action and, optionally, a group.
    pub fn access_get(&self, req: &[u8]) -> (r: Result<Vec<u8>, Error>)
        requires
            self.wf(),
        ensures
            r matches Err(Error::Clock) || exists|now: u64|
                bytes_result(r) == access_get_result(self.mac_key@, self.store@.access, req@, now),
            r matches Ok(t) ==> t@.len() == access_token_len(req@),
    {
        let now = match unix_now() {
            Some(t) => t,
            None => {
                return Err(Error::Clock);
            },
        };
        self.access_get_at(req, now)
    }

    /// Creates the group `group` for the user of a group_create token, as of `now`.
    pub fn group_create_at(&mut self, req: &[u8], now: u64, group: &[u8]) -> (r: Result<Vec<u8>, Error>)
        requires
            old(self).wf(),
            group@.len() == 16,
        ensures
            final(self).wf(),
            group_create_outcome(*old(self), *final(self), req@, now, group@, bytes_result(r)),
    {
        let user = verify_without_group(self.mac_key.as_slice(), ACTION_GROUP_CREATE, req, now)?;
        if self.store.access.has_key_field(33, 16, 32, group) {
            return Err(Error::Store);
        }
        let rule = make_rule_key(user.as_slice(), group, READ_WRITE);
        assert(!has_key(self.store@.access, rule@)) by {
            if has_key(self.store@.access, rule@) {
                let i = choose|i: int| 0 <= i < self.store@.access.len() && (#[trigger] self.store@.access[i]).0 == rule@;
                assert(self.store@.access[i].0.subrange(16, 32) =~= group@);
            }
        }
        let empty: Vec<u8> = Vec::new();
        assert(empty@ =~= Seq::<u8>::empty());
        Store::put(&mut self.store.access, rule, empty);
        assert(group@.subrange(0, group@.len() as int) =~= group@);
        Ok(copy_range(group, 0, group.len()))
    }

    /// Creates a group, with a fresh random identifier, for the user of a group_create token.
    pub fn group_create(&mut self, req: &[u8]) -> (r: Result<Vec<u8>, Error>)
        requires
            old(self).wf(),
        ensures
            final(self).wf(),
            r matches Err(Error::Clock) && unchanged(*old(self), *final(self)) || exists|now: u64, g: Seq<u8>|
                g.len() == 16 && group_create_outcome(*old(self), *final(self), req@, now, g, bytes_result(r)),
    {
        let now = match unix_now() {
            Some(t) => t,
            None => {
                return Err(Error::Clock);
            },
        };
        let group = uuid_v4();
        self.group_create_at(req, now, group.as_slice())
    }

    /// Stores an entity under its parent, as of `now`, with the fresh identifier `entity`.
    pub fn storage_put_at(&mut self, req: &[u8], now: u64, entity: &[u8]) -> (r: Result<Vec<u8>, Error>)
        requires
            old(self).wf(),
            entity@.len() == 16,
        ensures
            final(self).wf(),
            storage_put_outcome(*old(self), *final(self), req@, now, entity@, bytes_result(r)),
    {
        let p = decode_storage_put(req)?;
        let (user, group) = verify_with_group(self.mac_key.as_slice(), ACTION_STORAGE_PUT, p.token.as_slice(), now)?;
        let probe = make_rule_key(p.parent.as_slice(), group.as_slice(), READ_WRITE);
        if !self.store.access.contains_in_constant_time(probe.as_slice()) {
            return Err(Error::Authorization);
        }
        let key = make_entity_key(p.parent.as_slice(), p.kind, entity);
        let value = make_entity_value(p.grandparent.as_slice(), p.parent_kind, user.as_slice(), p.payload.as_slice());
        let grant = make_rule_key(entity, group.as_slice(), READ);
        if self.store.entities.contains(key.as_slice()) || self.store.access.contains(grant.as_slice()) {
            return Err(Error::Store);
        }
        let ghost (k, v) = (key@, value@);
        let empty: Vec<u8> = Vec::new();
        assert(empty@ =~= Seq::<u8>::empty());
        Store::put(&mut self.store.access, grant, empty);
        Store::put(&mut self.store.entities, key, value);
        proof {
            lemma_stored_entities(old(self).store@.entities, self.store@.entities, k, v);
        }
        assert(entity@.subrange(0, entity@.len() as int) =~= entity@);
        Ok(copy_range(entity, 0, entity.len()))
    }

    /// Stores an entity under its parent, with a fresh time-ordered identifier.
    pub fn storage_put(&mut self, req: &[u8]) -> (r: Result<Vec<u8>, Error>)
        requires
            old(self).wf(),
        ensures
            final(self).wf(),
            r matches Err(Error::Clock) && unchanged(*old(self), *final(self)) || exists|now: u64, e: Seq<u8>|
                e.len() == 16 && storage_put_outcome(*old(self), *final(self), req@, now, e, bytes_result(r)),
    {
        let now = match unix_now() {
            Some(t) => t,
            None => {
                return Err(Error::Clock);
            },
        };
        let entity = uuid_v7();
        self.storage_put_at(req, now, entity.as_slice())
    }

    /// Answers a storage_query request as of `now`.
    pub fn storage_query_at(&self, req: &[u8], now: u64) -> (r: Result<QueryResult, Error>)
        requires
            self.wf(),
        ensures
            query_result_view(r) == storage_query_result(self.mac_key@, self.store@, req@, now),
            r matches Ok(q) ==> query_sorted(q@),
    {
        let (token, ts) = decode_storage_query(req)?;
        let (_user, group) = verify_with_group(self.mac_key.as_slice(), ACTION_STORAGE_QUERY, token.as_slice(), now)?;
        let ghost tv = triples_view(ts@);
        let ghost st = self.store@;
        proof {
            lemma_parsed_triples_ids(req@.subrange(GROUP_TOKEN_LEN as int, req@.len() as int));
        }
        let mut qr = QueryResult::new();
        let mut i: usize = 0;
        while i < ts.len()
            invariant
                self.wf(),
                st == self.store@,
                group@.len() == 16,
                tv == triples_view(ts@),
                i <= ts@.len(),
                forall|n: int| 0 <= n < tv.len() ==> (#[trigger] tv[n]).1.len() == 16,
                qr@ == add_triples(Seq::empty(), st, group@, tv.subrange(0, i as int)),
                query_sorted(qr@),
            decreases ts@.len() - i,
        {
            let t = &ts[i];
            let ghost before = qr@;
            assert(tv[i as int] == t@);
            let mut j: usize = 0;
            while j < t.kinds.len()
                invariant
                    self.wf(),
                    st == self.store@,
                    group@.len() == 16,
                    t.entity@.len() == 16,
                    j <= t.kinds@.len(),
                    qr@ == add_kinds(before, st, group@, t.parent@, t.entity@, t.kinds@.subrange(0, j as int)),
                    query_sorted(qr@),
                decreases t.kinds@.len() - j,
            {
                let kind = t.kinds[j];
                let mut prefix = copy_range(t.entity.as_slice(), 0, t.entity.len());
                prefix.push(kind);
                assert(t.entity@.subrange(0, 16) =~= t.entity@);
                assert(prefix@ =~= t.entity@ + seq![kind]);
                assert(t.kinds@.subrange(0, j + 1).last() == kind);
                let rows = scan_rows(&self.store.entities, &self.store.access, group.as_slice(), prefix.as_slice());
                let ghost prior = qr@;
                let ghost rv = crate::query::entities_view(rows@);
                qr.add(t.parent.as_slice(), kind, rows);
                proof {
                    crate::query::lemma_add_rows_sorted(prior, t.parent@, kind, rv);
                }
                assert(t.kinds@.subrange(0, j + 1).drop_last() =~= t.kinds@.subrange(0, j as int));
                j = j + 1;
            }
            assert(t.kinds@.subrange(0, j as int) =~= t.kinds@);
            assert(tv.subrange(0, i + 1).drop_last() =~= tv.subrange(0, i as int));
            i = i + 1;
        }
        assert(tv.subrange(0, i as int) =~= tv);
        Ok(qr)
    }

    /// Answers a storage_query request.
    pub fn storage_query(&self, req: &[u8]) -> (r: Result<QueryResult, Error>)
        requires
            self.wf(),
        ensures
            r matches Err(Error::Clock) || exists|now: u64|
                query_result_view(r) == storage_query_result(self.mac_key@, self.store@, req@, now),
            r matches Ok(q) ==> query_sorted(q@),
    {
        let now = match unix_now() {
            Some(t) => t,
            None => {
                return Err(Error::Clock);
            },
        };
        self.storage_query_at(req, now)
    }

    /// Starts a registration: answers the client's blinded password.
    pub fn registration_start(&self, req: &[u8]) -> (r: Result<Vec<u8>, Error>)
        ensures
            registration_start_ok(self.setup@, req@, bytes_result(r)),
    {
        let (username, message) = decode_credential(req)?;
        match registration::server_start(self.setup.as_slice(), username.as_slice(), message.as_slice()) {
            Some(m) => Ok(m),
            None => Err(Error::Pake),
        }
    }

    /// Registers `username` under the user identifier `user` with the PAKE password file
    /// `password_file`: stores the credential `user ∥ password_file` and the user record (the
    /// username) together. A username that is already registered is refused and its record left
    /// intact.
    pub fn register_credential(&mut self, username: &[u8], user: &[u8], password_file: &[u8]) -> (r: Result<(), Error>)
        requires
            old(self).wf(),
            user@.len() == 16,
        ensures
            final(self).wf(),
            has_key(old(self).store@.credentials, username@) || has_key(old(self).store@.users, user@)
                ==> r == Err::<(), Error>(Error::Store) && unchanged(*old(self), *final(self)),
            !has_key(old(self).store@.credentials, username@) && !has_key(old(self).store@.users, user@) ==> {
                &&& r is Ok
                &&& stored(old(self).store@.credentials, final(self).store@.credentials, username@, user@ + password_file@)
                &&& stored(old(self).store@.users, final(self).store@.users, user@, username@)
                &&& final(self).store@.access == old(self).store@.access
                &&& final(self).store@.entities == old(self).store@.entities
                &&& final(self).mac_key@ == old(self).mac_key@
                &&& final(self).setup@ == old(self).setup@
                &&& final(self).pending@ == old(self).pending@
            },
    {
        if self.store.credentials.contains(username) || self.store.users.contains(user) {
            return Err(Error::Store);
        }
        let mut record = copy_range(user, 0, user.len());
        push_all(&mut record, password_file);
        assert(user@.subrange(0, 16) =~= user@);
        let ghost rec = record@;
        let name = copy_range(username, 0, username.len());
        let key = copy_range(username, 0, username.len());
        assert(username@.subrange(0, username@.len() as int) =~= username@);
        Store::put(&mut self.store.credentials, key, record);
        Store::put(&mut self.store.users, copy_range(user, 0, user.len()), name);
        proof {
            lemma_stored_credentials(old(self).store@.credentials, self.store@.credentials, username@, rec);
        }
        Ok(())
    }

    /// Finishes a registration, with the fresh user identifier `user`.
    pub fn registration_finish_at(&mut self, req: &[u8], user: &[u8]) -> (r: Result<(), Error>)
        requires
            old(self).wf(),
            user@.len() == 16,
        ensures
            final(self).wf(),
            registration_finish_outcome(*old(self), *final(self), req@, user@, r),
    {
        let (username, upload) = decode_credential(req)?;
        if self.store.credentials.contains(username.as_slice()) || self.store.users.contains(user) {
            return Err(Error::Store);
        }
        let file = match registration::server_finish(upload.as_slice()) {
            Some(f) => f,
            None => {
                return Err(Error::Pake);
            },
        };
        let r = self.register_credential(username.as_slice(), user, file.as_slice());
        proof {
            if let Ok(u) = r {
                assert(u == ());
            }
        }
        r
    }

    /// Finishes a registration under a fresh random user identifier.
    pub fn registration_finish(&mut self, req: &[u8]) -> (r: Result<(), Error>)
        requires
            old(self).wf(),
        ensures
            final(self).wf(),
            exists|user: Seq<u8>| user.len() == 16 && registration_finish_outcome(*old(self), *final(self), req@, user, r),
    {
        let user = uuid_v4();
        self.registration_finish_at(req, user.as_slice())
    }

    /// Starts a login: answers the client's credential request and keeps the server state.
    pub fn login_start(&mut self, req: &[u8]) -> (r: Result<Vec<u8>, Error>)
        requires
            old(self).wf(),
        ensures
            final(self).wf(),
            login_start_outcome(*old(self), *final(self), req@, bytes_result(r)),
    {
        let (username, message) = decode_credential(req)?;
        let record = match self.store.credentials.get(username.as_slice()) {
            Some(v) => v,
            None => {
                return Err(Error::AuthState);
            },
        };
        assert(record@.len() >= 16) by {
            let i = choose|i: int| 0 <= i < self.store@.credentials.len() && self.store@.credentials[i] == (username@, record@);
            assert(self.store@.credentials[i].1.len() >= 16);
        }
        let user = copy_range(record.as_slice(), 0, 16);
        let file = copy_range(record.as_slice(), 16, record.len());
        let (state, response) = match login::server_start(self.setup.as_slice(), username.as_slice(), file.as_slice(), message.as_slice()) {
            Some(p) => p,
            None => {
                return Err(Error::Pake);
            },
        };
        let ghost st = state@;
        Store::put(&mut self.pending, user, state);
        assert(stored(old(self).pending@, self.pending@, user_of(old(self).store@.credentials, username@), st));
        Ok(response)
    }

    /// Finishes a login as of `now`, sealing the refresh token with the fresh nonce `nonce`.
    pub fn login_finish_at(&mut self, req: &[u8], now: u64, nonce: &[u8]) -> (r: Result<Vec<u8>, Error>)
        requires
            old(self).wf(),
            nonce@.len() == AEAD_NONCE_LEN,
        ensures
            final(self).wf(),
            login_finish_outcome(*old(self), *final(self), req@, now, nonce@, bytes_result(r)),
            r matches Ok(x) ==> x@.len() == TOKEN_LEN + AEAD_TAG_LEN + AEAD_NONCE_LEN,
    {
        let (username, finalization) = decode_credential(req)?;
        let record = match self.store.credentials.get(username.as_slice()) {
            Some(v) => v,
            None => {
                return Err(Error::AuthState);
            },
        };
        assert(record@.len() >= 16) by {
            let i = choose|i: int| 0 <= i < self.store@.credentials.len() && self.store@.credentials[i] == (username@, record@);
            assert(self.store@.credentials[i].1.len() >= 16);
        }
        let user = copy_range(record.as_slice(), 0, 16);
        let state = match self.pending.remove(user.as_slice()) {
            Some(s) => s,
            None => {
                return Err(Error::AuthState);
            },
        };
        let session_key = match login::server_finish(state.as_slice(), finalization.as_slice()) {
            Some(k) => k,
            None => {
                return Err(Error::Pake);
            },
        };
        let refresh = gen_without_group(self.mac_key.as_slice(), ACTION_REFRESH, user.as_slice(), now)?;
        let aead_key = blake2b_32(session_key.as_slice());
        let sealed = xchacha_seal(aead_key.as_slice(), nonce, refresh.as_slice());
        Ok(encode_sealed(sealed.as_slice(), nonce))
    }

    /// Finishes a login, sealing the refresh token with a fresh random nonce.
    pub fn login_finish(&mut self, req: &[u8]) -> (r: Result<Vec<u8>, Error>)
        requires
            old(self).wf(),
        ensures
            final(self).wf(),
            r matches Err(Error::Clock) && unchanged(*old(self), *final(self)) || exists|now: u64, nonce: Seq<u8>|
                nonce.len() == AEAD_NONCE_LEN && login_finish_outcome(*old(self), *final(self), req@, now, nonce, bytes_result(r)),
            r matches Ok(x) ==> x@.len() == TOKEN_LEN + AEAD_TAG_LEN + AEAD_NONCE_LEN,
    {
        let now = match unix_now() {
            Some(t) => t,
            None => {
                return Err(Error::Clock);
            },
        };
        let nonce = random_nonce();
        self.login_finish_at(req, now, nonce.as_slice())
    }
}

} // verus!
