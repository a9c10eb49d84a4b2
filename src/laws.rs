//! Laws that relate several operations or several calls, proved from their contracts.
use vstd::prelude::*;

use crate::codec::{parse_access_get, parse_credential, parse_put};
use crate::error::Error;
use crate::keyspace::{has_entry, has_key, keys_ascend};
use crate::registration::password_file_of;
use crate::server::{
    access_get_result, access_token_len, registration_finish_outcome, storage_put_outcome, storage_query_result, token_group,
    token_user, unchanged, Core,
};
use crate::store::{entity_key, entity_value, lemma_stored_effect, rule_key, READ, READ_WRITE};
use crate::token::{
    lemma_mint_verify, token_valid, ACTION_STORAGE_PUT, GROUP_TOKEN_LEN, TOKEN_LEN, TOKEN_LIFETIME,
    UUID_LEN,
};

verus! {

/// A token that access_get returns verifies for the action it was asked for, at any time up
/// to a day after `now`, and names the refresh token's user and the asked group.
pub proof fn lemma_access_token_verifies(
    key: Seq<u8>,
    access: Seq<(Seq<u8>, Seq<u8>)>,
    req: Seq<u8>,
    now: u64,
    later: u64,
    t: Seq<u8>,
)
    requires
        access_get_result(key, access, req, now) == Ok::<Seq<u8>, Error>(t),
        t.len() == access_token_len(req),
        now <= later,
        later as int <= now as int + TOKEN_LIFETIME as int,
    ensures
        parse_access_get(req) is Some,
        token_valid(key, parse_access_get(req)->Some_0.1, later, t, t.len()),
        t.subrange(41, 57) == parse_access_get(req)->Some_0.0.subrange(41, 57),
        parse_access_get(req)->Some_0.2 matches Some(g) ==> t.len() == GROUP_TOKEN_LEN && t.subrange(57, 73) == g,
        parse_access_get(req)->Some_0.2 is None ==> t.len() == TOKEN_LEN,
{
    let (rt, action, group) = parse_access_get(req)->Some_0;
    let exp = (now + TOKEN_LIFETIME) as u64;
    let user = token_user(rt);
    match group {
        Some(g) => {
            assert(g.len() == UUID_LEN);
            lemma_mint_verify(key, action, exp, later, user + g);
            assert(t.subrange(41, 73) == user + g);
            assert(t.subrange(41, 57) =~= t.subrange(41, 73).subrange(0, 16));
            assert(t.subrange(57, 73) =~= t.subrange(41, 73).subrange(16, 32));
        },
        None => {
            lemma_mint_verify(key, action, exp, later, user);
        },
    }
}

/// A storage_put that commits writes exactly one entity record, at `parent ∥ kind ∥ e`, and
/// exactly one access rule, the read grant `e ∥ group ∥ 1`; every other entry of the access
/// rules and of the entities is as it was, and the credentials and users are untouched.
pub proof fn lemma_put_commits(old: Core, new: Core, req: Seq<u8>, now: u64, e: Seq<u8>)
    requires
        storage_put_outcome(old, new, req, now, e, Ok(e)),
        new.wf(),
    ensures
        parse_put(req) is Some,
        ({
            let p = parse_put(req)->Some_0;
            let key = entity_key(p.parent, p.kind, e);
            let value = entity_value(p.grandparent, p.parent_kind, token_user(p.token), p.payload);
            let grant = rule_key(e, token_group(p.token), READ);
            &&& !has_key(old.store@.entities, key)
            &&& !has_key(old.store@.access, grant)
            &&& has_entry(new.store@.entities, key, value)
            &&& forall|i: int, j: int|
                0 <= i < new.store@.entities.len() && 0 <= j < new.store@.entities.len()
                    && new.store@.entities[i].0 == key && new.store@.entities[j].0 == key ==> i == j
            &&& forall|k2: Seq<u8>, v2: Seq<u8>|
                k2 != key ==> (has_entry(new.store@.entities, k2, v2) == has_entry(old.store@.entities, k2, v2))
            &&& has_entry(new.store@.access, grant, Seq::empty())
            &&& forall|i: int, j: int|
                0 <= i < new.store@.access.len() && 0 <= j < new.store@.access.len()
                    && new.store@.access[i].0 == grant && new.store@.access[j].0 == grant ==> i == j
            &&& forall|k2: Seq<u8>, v2: Seq<u8>|
                k2 != grant ==> (has_entry(new.store@.access, k2, v2) == has_entry(old.store@.access, k2, v2))
            &&& new.store@.credentials == old.store@.credentials
            &&& new.store@.users == old.store@.users
        }),
{
    let p = parse_put(req)->Some_0;
    let key = entity_key(p.parent, p.kind, e);
    let value = entity_value(p.grandparent, p.parent_kind, token_user(p.token), p.payload);
    let grant = rule_key(e, token_group(p.token), READ);
    lemma_stored_effect(old.store@.entities, new.store@.entities, key, value);
    lemma_stored_effect(old.store@.access, new.store@.access, grant, Seq::empty());
    lemma_one_entry_per_key(new.store@.entities, key);
    lemma_one_entry_per_key(new.store@.access, grant);
}

/// In a keyspace whose keys ascend, two entries with the same key are the same entry.
pub proof fn lemma_one_entry_per_key(s: Seq<(Seq<u8>, Seq<u8>)>, k: Seq<u8>)
    requires
        keys_ascend(s),
    ensures
        forall|i: int, j: int| 0 <= i < s.len() && 0 <= j < s.len() && s[i].0 == k && s[j].0 == k ==> i == j,
{
    assert forall|i: int, j: int| 0 <= i < s.len() && 0 <= j < s.len() && s[i].0 == k && s[j].0 == k implies i == j by {
        if i < j {
            assert(crate::keyspace::lex_lt(s[i].0, s[j].0));
            crate::keyspace::lemma_lex_irreflexive(k);
        } else if j < i {
            assert(crate::keyspace::lex_lt(s[j].0, s[i].0));
            crate::keyspace::lemma_lex_irreflexive(k);
        }
    }
}

/// Where the group of a storage_put token holds no read/write grant on the parent, the put
/// fails with an authorization error and writes nothing: neither the entity nor its read
/// grant.
pub proof fn lemma_put_denied(old: Core, new: Core, req: Seq<u8>, now: u64, e: Seq<u8>, r: Result<Seq<u8>, Error>)
    requires
        storage_put_outcome(old, new, req, now, e, r),
        parse_put(req) is Some,
        token_valid(old.mac_key@, ACTION_STORAGE_PUT, now, parse_put(req)->Some_0.token, GROUP_TOKEN_LEN as nat),
        !has_key(
            old.store@.access,
            rule_key(parse_put(req)->Some_0.parent, token_group(parse_put(req)->Some_0.token), READ_WRITE),
        ),
    ensures
        r == Err::<Seq<u8>, Error>(Error::Authorization),
        new.store@ == old.store@,
{
}

/// storage_query answers from the store, the request and the time alone: the same request
/// against the same key and store at the same time gets the same answer.
pub proof fn lemma_query_idempotent(a: Core, b: Core, req: Seq<u8>, now: u64)
    requires
        a.mac_key@ == b.mac_key@,
        a.store@ == b.store@,
    ensures
        storage_query_result(a.mac_key@, a.store@, req, now) == storage_query_result(b.mac_key@, b.store@, req, now),
{
}

/// Registration is unique per username: once a registration of a username has succeeded, a
/// later registration of the same username fails and leaves the store as it was.
pub proof fn lemma_registration_unique(
    c0: Core,
    c1: Core,
    c2: Core,
    req1: Seq<u8>,
    req2: Seq<u8>,
    user1: Seq<u8>,
    user2: Seq<u8>,
    r2: Result<(), Error>,
)
    requires
        registration_finish_outcome(c0, c1, req1, user1, Ok(())),
        registration_finish_outcome(c1, c2, req2, user2, r2),
        parse_credential(req1) is Some,
        parse_credential(req2) is Some,
        parse_credential(req1)->Some_0.0 == parse_credential(req2)->Some_0.0,
    ensures
        r2 == Err::<(), Error>(Error::Store),
        unchanged(c1, c2),
{
    let u = parse_credential(req1)->Some_0.0;
    let m = parse_credential(req1)->Some_0.1;
    if !has_key(c0.store@.credentials, u) {
        lemma_stored_effect(c0.store@.credentials, c1.store@.credentials, u, user1 + password_file_of(m));
    }
}


} // verus!
