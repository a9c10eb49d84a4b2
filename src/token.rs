//! Minting and verifying MAC-authenticated capability tokens.
//!
//! A token is `action(1) ∥ exp(8) ∥ tag(32) ∥ user(16) [∥ group(16)]`: 73 bytes with a group,
//! 57 bytes without. The tag is the keyed BLAKE2s MAC of every other field, in order.
use blake2::digest::{FixedOutput, Mac};
use vstd::prelude::*;

use crate::error::Error;
use crate::octets::{
    be8, copy_range, ct_eq, from_be8, lemma_be8_round_trip, push_all, u64_from_be, u64_to_be,
};

verus! {

/// Length of a token that carries no group (a refresh token, or an access token without group).
pub const TOKEN_LEN: usize = 57;

/// Length of a token that carries a group.
pub const GROUP_TOKEN_LEN: usize = 73;

/// Length of a user or group identifier.
pub const UUID_LEN: usize = 16;

/// Length of the MAC tag.
pub const TAG_LEN: usize = 32;

/// The longest MAC key that keyed BLAKE2s takes.
pub const MAX_KEY_LEN: usize = 32;

/// How long a token lives, in seconds.
pub const TOKEN_LIFETIME: u64 = 86400;

/// Action bound into a refresh token.
pub const ACTION_REFRESH: u8 = 0;

/// Action bound into a token for group_create.
pub const ACTION_GROUP_CREATE: u8 = 3;

/// Action bound into a token for storage_put.
pub const ACTION_STORAGE_PUT: u8 = 12;

/// Action bound into a token for storage_query.
pub const ACTION_STORAGE_QUERY: u8 = 13;

/// The 32-byte tag of keyed BLAKE2s-256 over `msg` under `key`.
pub uninterp spec fn blake2s_mac_of(key: Seq<u8>, msg: Seq<u8>) -> Seq<u8>;

/// Relies on blake2's `Blake2sMac256`: a keyed BLAKE2s MAC whose key may hold up to 32 bytes
/// and whose tag holds 32 bytes; the tag depends on the key and the message alone.
#[verifier::external_body]
fn blake2s_mac(key: &[u8], msg: &[u8]) -> (r: Vec<u8>)
    requires
        key@.len() <= MAX_KEY_LEN,
    ensures
        r@ == blake2s_mac_of(key@, msg@),
        r@.len() == TAG_LEN,
{
    blake2::Blake2sMac256::new_from_slice(key).unwrap().chain_update(msg).finalize_fixed().to_vec()
}

/// The fields that the tag covers: `action ∥ exp` and the identifiers that follow the tag.
pub open spec fn signed_part(t: Seq<u8>) -> Seq<u8> {
    t.subrange(0, 9) + t.subrange(41, t.len() as int)
}

/// The token for `action`, expiry `exp` and identifiers `ids` (`user`, or `user ∥ group`).
pub open spec fn token_of(key: Seq<u8>, action: u8, exp: u64, ids: Seq<u8>) -> Seq<u8> {
    let head = seq![action] + be8(exp);
    head + blake2s_mac_of(key, head + ids) + ids
}

/// The expiry that a token of at least 9 bytes carries.
pub open spec fn expiry_of(t: Seq<u8>) -> u64 {
    from_be8(t.subrange(1, 9))
}

/// Whether `t` is a token of length `len` bound to `action`, not expired at `now`, whose tag
/// matches its fields under `key`.
pub open spec fn token_valid(key: Seq<u8>, action: u8, now: u64, t: Seq<u8>, len: nat) -> bool {
    &&& t.len() == len
    &&& t[0] == action
    &&& now <= expiry_of(t)
    &&& t.subrange(9, 41) == blake2s_mac_of(key, signed_part(t))
}

/// Builds the token for `action`, expiry `exp` and identifiers `ids`.
fn mint(key: &[u8], action: u8, exp: u64, ids: &[u8]) -> (r: Vec<u8>)
    requires
        key@.len() <= MAX_KEY_LEN,
    ensures
        r@ == token_of(key@, action, exp, ids@),
        r@.len() == 41 + ids@.len(),
{
    let mut head: Vec<u8> = Vec::with_capacity(9);
    head.push(action);
    let e = u64_to_be(exp);
    push_all(&mut head, e.as_slice());
    let mut signed = head.clone();
    assert(signed@ == head@);
    push_all(&mut signed, ids);
    let tag = blake2s_mac(key, signed.as_slice());
    let mut r = head;
    push_all(&mut r, tag.as_slice());
    push_all(&mut r, ids);
    assert(seq![action] + be8(exp) =~= head@);
    r
}

/// The expiry of a token minted at `now`, or `None` where it would not fit in 64 bits.
pub open spec fn expiry_after(now: u64) -> Option<u64> {
    if now as int + TOKEN_LIFETIME as int <= u64::MAX as int {
        Some((now + TOKEN_LIFETIME) as u64)
    } else {
        None
    }
}

/// Mints the 73-byte token binding `action`, `user` and `group`, valid for a day from `now`.
/// Fails only where that expiry does not fit in 64 bits.
pub fn gen_with_group(key: &[u8], action: u8, user: &[u8], group: &[u8], now: u64) -> (r: Result<
    Vec<u8>,
    Error,
>)
    requires
        key@.len() <= MAX_KEY_LEN,
        user@.len() == UUID_LEN,
        group@.len() == UUID_LEN,
    ensures
        match expiry_after(now) {
            Some(exp) => r matches Ok(t) && t@ == token_of(
                key@,
                action,
                exp,
                user@ + group@,
            ) && t@.len() == GROUP_TOKEN_LEN,
            None => r matches Err(Error::Clock),
        },
{
    if now > u64::MAX - TOKEN_LIFETIME {
        return Err(Error::Clock);
    }
    let mut ids = copy_range(user, 0, UUID_LEN);
    push_all(&mut ids, group);
    assert(user@.subrange(0, 16) =~= user@);
    Ok(mint(key, action, now + TOKEN_LIFETIME, ids.as_slice()))
}

/// Mints the 57-byte token binding `action` and `user`, valid for a day from `now`.
/// Fails only where that expiry does not fit in 64 bits.
pub fn gen_without_group(key: &[u8], action: u8, user: &[u8], now: u64) -> (r: Result<
    Vec<u8>,
    Error,
>)
    requires
        key@.len() <= MAX_KEY_LEN,
        user@.len() == UUID_LEN,
    ensures
        match expiry_after(now) {
            Some(exp) => r matches Ok(t) && t@ == token_of(
                key@,
                action,
                exp,
                user@,
            ) && t@.len() == TOKEN_LEN,
            None => r matches Err(Error::Clock),
        },
{
    if now > u64::MAX - TOKEN_LIFETIME {
        return Err(Error::Clock);
    }
    Ok(mint(key, action, now + TOKEN_LIFETIME, user))
}

/// Whether `token` has length `len`, is bound to `action`, has not expired at `now`, and
/// carries `tag`; the tag is compared in constant time.
pub fn token_fields_ok(action: u8, token: &[u8], now: u64, len: usize, tag: &[u8]) -> (r: bool)
    requires
        len == TOKEN_LEN || len == GROUP_TOKEN_LEN,
    ensures
        r == (token@.len() == len && token@[0] == action && now <= expiry_of(token@)
            && token@.subrange(9, 41) == tag@),
{
    if token.len() != len {
        return false;
    }
    let exp = u64_from_be(token, 1);
    let given = copy_range(token, 9, 41);
    let tag_ok = ct_eq(given.as_slice(), tag);
    tag_ok && token[0] == action && now <= exp
}

/// The fields of a token of at least 41 bytes that its tag covers.
pub fn signed_fields(token: &[u8]) -> (r: Vec<u8>)
    requires
        token@.len() >= 41,
    ensures
        r@ == signed_part(token@),
{
    let mut signed = copy_range(token, 0, 9);
    let ids = copy_range(token, 41, token.len());
    push_all(&mut signed, ids.as_slice());
    signed
}

/// Checks every field of `token` but its identifiers: its length, its action, its expiry
/// against `now`, and its tag.
fn check(key: &[u8], action: u8, token: &[u8], now: u64, len: usize) -> (r: bool)
    requires
        key@.len() <= MAX_KEY_LEN,
        len == TOKEN_LEN || len == GROUP_TOKEN_LEN,
    ensures
        r == token_valid(key@, action, now, token@, len as nat),
{
    if token.len() != len {
        return false;
    }
    let signed = signed_fields(token);
    let tag = blake2s_mac(key, signed.as_slice());
    token_fields_ok(action, token, now, len, tag.as_slice())
}

/// Verifies a 73-byte token bound to `action` at time `now`; returns its `(user, group)`.
pub fn verify_with_group(key: &[u8], action: u8, token: &[u8], now: u64) -> (r: Result<
    (Vec<u8>, Vec<u8>),
    Error,
>)
    requires
        key@.len() <= MAX_KEY_LEN,
    ensures
        r is Ok <==> token_valid(key@, action, now, token@, GROUP_TOKEN_LEN as nat),
        r is Err ==> r == Err::<(Vec<u8>, Vec<u8>), Error>(Error::Token),
        r matches Ok((u, g)) ==> u@ == token@.subrange(41, 57) && g@ == token@.subrange(57, 73),
{
    if !check(key, action, token, now, GROUP_TOKEN_LEN) {
        return Err(Error::Token);
    }
    Ok((copy_range(token, 41, 57), copy_range(token, 57, 73)))
}

/// Verifies a 57-byte token bound to `action` at time `now`; returns its user.
pub fn verify_without_group(key: &[u8], action: u8, token: &[u8], now: u64) -> (r: Result<
    Vec<u8>,
    Error,
>)
    requires
        key@.len() <= MAX_KEY_LEN,
    ensures
        r is Ok <==> token_valid(key@, action, now, token@, TOKEN_LEN as nat),
        r is Err ==> r == Err::<Vec<u8>, Error>(Error::Token),
        r matches Ok(u) ==> u@ == token@.subrange(41, 57),
{
    if !check(key, action, token, now, TOKEN_LEN) {
        return Err(Error::Token);
    }
    Ok(copy_range(token, 41, 57))
}

/// A minted token verifies, for its own action, at any time up to its expiry, and carries the
/// identifiers it was minted for, where they are a user or a user and a group.
pub proof fn lemma_mint_verify(key: Seq<u8>, action: u8, exp: u64, now: u64, ids: Seq<u8>)
    requires
        ids.len() == UUID_LEN || ids.len() == 2 * UUID_LEN,
        token_of(key, action, exp, ids).len() == 41 + ids.len(),
        now <= exp,
    ensures
        token_valid(key, action, now, token_of(key, action, exp, ids), 41 + ids.len()),
        token_of(key, action, exp, ids).subrange(41, 41 + ids.len() as int) == ids,
        expiry_of(token_of(key, action, exp, ids)) == exp,
{
    let head = seq![action] + be8(exp);
    let t = token_of(key, action, exp, ids);
    lemma_be8_round_trip(exp);
    assert(t.subrange(1, 9) =~= be8(exp));
    assert(t.subrange(0, 9) =~= head);
    assert(t.subrange(41, t.len() as int) =~= ids);
    assert(t.subrange(9, 41) =~= blake2s_mac_of(key, head + ids));
    assert(signed_part(t) =~= head + ids);
}

/// A token fails verification once its expiry has passed.
pub proof fn lemma_expired_fails(key: Seq<u8>, action: u8, now: u64, t: Seq<u8>, len: nat)
    requires
        t.len() >= 9,
        expiry_of(t) < now,
    ensures
        !token_valid(key, action, now, t, len),
{
}

/// Changing any one byte of a valid token makes it fail verification, unless the byte lies in
/// the expiry or the identifiers and the MAC gives the changed fields the same tag.
pub proof fn lemma_mutation_fails(
    key: Seq<u8>,
    action: u8,
    now: u64,
    t: Seq<u8>,
    i: int,
    b: u8,
)
    requires
        t.len() == TOKEN_LEN || t.len() == GROUP_TOKEN_LEN,
        token_valid(key, action, now, t, t.len()),
        0 <= i < t.len(),
        b != t[i],
    ensures
        token_valid(key, action, now, t.update(i, b), t.len()) ==> (1 <= i < 9 || 41 <= i)
            && blake2s_mac_of(key, signed_part(t.update(i, b))) == blake2s_mac_of(
            key,
            signed_part(t),
        ),
{
    let t2 = t.update(i, b);
    if token_valid(key, action, now, t2, t.len()) {
        if 9 <= i < 41 {
            assert(signed_part(t2) =~= signed_part(t));
            assert(t2.subrange(9, 41)[i - 9] == b);
            assert(t.subrange(9, 41)[i - 9] == t[i]);
        } else if i != 0 {
            assert(t2.subrange(9, 41) =~= t.subrange(9, 41));
        }
    }
}

} // verus!
