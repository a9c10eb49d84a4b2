//! The request frames, and the store's key and value layouts.
//!
//! Fields are addressed by position; integers are big-endian; nothing separates fields.
use vstd::prelude::*;

use crate::error::Error;
use crate::octets::{copy_range, push_all};
use crate::token::{GROUP_TOKEN_LEN, TOKEN_LEN, UUID_LEN};

verus! {

/// Length of the nonce that ends a sealed refresh token.
pub const NONCE_LEN: usize = 24;

/// Most triples that one storage_query request may carry.
pub const MAX_TRIPLES: usize = 255;

/// Length of a storage_put request without its payload.
pub const PUT_HEAD_LEN: usize = 107;

// ---------------------------------------------------------------- credential frames

/// `username_len(1) ∥ username ∥ message`: the frame of the registration and login requests.
pub open spec fn credential_frame(username: Seq<u8>, message: Seq<u8>) -> Seq<u8> {
    seq![username.len() as u8] + username + message
}

/// The username and message of a credential frame, where its length byte is 1 to 255 and fits.
pub open spec fn parse_credential(b: Seq<u8>) -> Option<(Seq<u8>, Seq<u8>)> {
    if b.len() >= 1 && b[0] >= 1 && 1 + b[0] <= b.len() {
        Some((b.subrange(1, 1 + b[0]), b.subrange(1 + b[0], b.len() as int)))
    } else {
        None
    }
}

/// Frames a username of 1 to 255 bytes and a key-exchange message.
pub fn encode_credential(username: &[u8], message: &[u8]) -> (r: Result<Vec<u8>, Error>)
    ensures
        r is Ok <==> 1 <= username@.len() <= 255,
        r is Err ==> r matches Err(Error::Framing),
        r matches Ok(f) ==> f@ == credential_frame(username@, message@),
{
    if username.len() == 0 || username.len() > 255 {
        return Err(Error::Framing);
    }
    let mut r: Vec<u8> = Vec::new();
    r.push(username.len() as u8);
    push_all(&mut r, username);
    push_all(&mut r, message);
    assert(r@ =~= credential_frame(username@, message@));
    Ok(r)
}

/// Splits a credential frame into its username and message.
pub fn decode_credential(b: &[u8]) -> (r: Result<(Vec<u8>, Vec<u8>), Error>)
    ensures
        r is Ok <==> parse_credential(b@) is Some,
        r is Err ==> r matches Err(Error::Framing),
        r matches Ok((u, m)) ==> parse_credential(b@) == Some((u@, m@)),
{
    if b.len() == 0 || b[0] == 0 || 1 + (b[0] as usize) > b.len() {
        return Err(Error::Framing);
    }
    let n = b[0] as usize;
    Ok((copy_range(b, 1, 1 + n), copy_range(b, 1 + n, b.len())))
}

/// Splitting a framed credential message gives back its username and message.
pub proof fn lemma_credential_round_trip(username: Seq<u8>, message: Seq<u8>)
    requires
        1 <= username.len() <= 255,
    ensures
        parse_credential(credential_frame(username, message)) == Some((username, message)),
{
    let f = credential_frame(username, message);
    assert(f.subrange(1, 1 + username.len() as int) =~= username);
    assert(f.subrange(1 + username.len() as int, f.len() as int) =~= message);
}

// ---------------------------------------------------------------- access_get

/// `refresh(57) ∥ action(1) [∥ group(16)]`.
pub open spec fn access_get_frame(refresh: Seq<u8>, action: u8, group: Option<Seq<u8>>) -> Seq<
    u8,
> {
    match group {
        Some(g) => refresh + seq![action] + g,
        None => refresh + seq![action],
    }
}

/// The refresh token, action and group of an access_get request, whose length alone says
/// whether a group is present.
pub open spec fn parse_access_get(b: Seq<u8>) -> Option<(Seq<u8>, u8, Option<Seq<u8>>)> {
    if b.len() == TOKEN_LEN + 1 {
        Some((b.subrange(0, TOKEN_LEN as int), b[TOKEN_LEN as int], None))
    } else if b.len() == TOKEN_LEN + 1 + UUID_LEN {
        Some(
            (
                b.subrange(0, TOKEN_LEN as int),
                b[TOKEN_LEN as int],
                Some(b.subrange(TOKEN_LEN + 1, b.len() as int)),
            ),
        )
    } else {
        None
    }
}

/// Frames an access_get request.
pub fn encode_access_get(refresh: &[u8], action: u8, group: Option<&[u8]>) -> (r: Vec<u8>)
    requires
        refresh@.len() == TOKEN_LEN,
        group matches Some(g) ==> g@.len() == UUID_LEN,
    ensures
        r@ == access_get_frame(
            refresh@,
            action,
            match group {
                Some(g) => Some(g@),
                None => None,
            },
        ),
{
    let mut r: Vec<u8> = Vec::with_capacity(TOKEN_LEN + 1 + UUID_LEN);
    push_all(&mut r, refresh);
    r.push(action);
    match group {
        Some(g) => {
            push_all(&mut r, g);
        },
        None => {},
    }
    r
}

/// Splits an access_get request.
pub fn decode_access_get(b: &[u8]) -> (r: Result<(Vec<u8>, u8, Option<Vec<u8>>), Error>)
    ensures
        r is Ok <==> parse_access_get(b@) is Some,
        r is Err ==> r matches Err(Error::Framing),
        r matches Ok((t, a, g)) ==> parse_access_get(b@) == Some(
            (
                t@,
                a,
                match g {
                    Some(g) => Some(g@),
                    None => None,
                },
            ),
        ),
{
    if b.len() == TOKEN_LEN + 1 {
        Ok((copy_range(b, 0, TOKEN_LEN), b[TOKEN_LEN], None))
    } else if b.len() == TOKEN_LEN + 1 + UUID_LEN {
        Ok((copy_range(b, 0, TOKEN_LEN), b[TOKEN_LEN], Some(copy_range(b, TOKEN_LEN + 1, b.len()))))
    } else {
        Err(Error::Framing)
    }
}

/// Splitting a framed access_get request gives back its refresh token, action and group.
pub proof fn lemma_access_get_round_trip(refresh: Seq<u8>, action: u8, group: Option<Seq<u8>>)
    requires
        refresh.len() == TOKEN_LEN,
        group matches Some(g) ==> g.len() == UUID_LEN,
    ensures
        parse_access_get(access_get_frame(refresh, action, group)) == Some((refresh, action, group)),
{
    let f = access_get_frame(refresh, action, group);
    assert(f.subrange(0, TOKEN_LEN as int) =~= refresh);
    if let Some(g) = group {
        assert(f.subrange(TOKEN_LEN + 1, f.len() as int) =~= g);
    }
}

// ---------------------------------------------------------------- storage_put

/// The fields of a storage_put request, as sequences.
pub struct PutFields {
    pub token: Seq<u8>,
    pub parent: Seq<u8>,
    pub kind: u8,
    pub grandparent: Seq<u8>,
    pub parent_kind: u8,
    pub payload: Seq<u8>,
}

/// `token(73) ∥ parent(16) ∥ kind(1) ∥ grandparent(16) ∥ parent_kind(1) ∥ payload`.
pub open spec fn put_frame(p: PutFields) -> Seq<u8> {
    p.token + p.parent + seq![p.kind] + p.grandparent + seq![p.parent_kind] + p.payload
}

/// The fields of a storage_put request of at least 107 bytes.
pub open spec fn parse_put(b: Seq<u8>) -> Option<PutFields> {
    if b.len() >= PUT_HEAD_LEN {
        Some(
            PutFields {
                token: b.subrange(0, 73),
                parent: b.subrange(73, 89),
                kind: b[89],
                grandparent: b.subrange(90, 106),
                parent_kind: b[106],
                payload: b.subrange(107, b.len() as int),
            },
        )
    } else {
        None
    }
}

/// A decoded storage_put request.
pub struct PutRequest {
    pub token: Vec<u8>,
    pub parent: Vec<u8>,
    pub kind: u8,
    pub grandparent: Vec<u8>,
    pub parent_kind: u8,
    pub payload: Vec<u8>,
}

impl View for PutRequest {
    type V = PutFields;

    open spec fn view(&self) -> PutFields {
        PutFields {
            token: self.token@,
            parent: self.parent@,
            kind: self.kind,
            grandparent: self.grandparent@,
            parent_kind: self.parent_kind,
            payload: self.payload@,
        }
    }
}

/// Frames a storage_put request.
pub fn encode_storage_put(
    token: &[u8],
    parent: &[u8],
    kind: u8,
    grandparent: &[u8],
    parent_kind: u8,
    payload: &[u8],
) -> (r: Vec<u8>)
    requires
        token@.len() == GROUP_TOKEN_LEN,
        parent@.len() == UUID_LEN,
        grandparent@.len() == UUID_LEN,
    ensures
        r@ == put_frame(
            PutFields {
                token: token@,
                parent: parent@,
                kind,
                grandparent: grandparent@,
                parent_kind,
                payload: payload@,
            },
        ),
{
    let mut r: Vec<u8> = Vec::with_capacity(PUT_HEAD_LEN);
    push_all(&mut r, token);
    push_all(&mut r, parent);
    r.push(kind);
    push_all(&mut r, grandparent);
    r.push(parent_kind);
    push_all(&mut r, payload);
    r
}

/// Splits a storage_put request.
pub fn decode_storage_put(b: &[u8]) -> (r: Result<PutRequest, Error>)
    ensures
        r is Ok <==> parse_put(b@) is Some,
        r is Err ==> r matches Err(Error::Framing),
        r matches Ok(p) ==> parse_put(b@) == Some(p@),
{
    if b.len() < PUT_HEAD_LEN {
        return Err(Error::Framing);
    }
    Ok(
        PutRequest {
            token: copy_range(b, 0, 73),
            parent: copy_range(b, 73, 89),
            kind: b[89],
            grandparent: copy_range(b, 90, 106),
            parent_kind: b[106],
            payload: copy_range(b, 107, b.len()),
        },
    )
}

/// Splitting a framed storage_put request gives back its fields.
pub proof fn lemma_put_round_trip(p: PutFields)
    requires
        p.token.len() == GROUP_TOKEN_LEN,
        p.parent.len() == UUID_LEN,
        p.grandparent.len() == UUID_LEN,
    ensures
        parse_put(put_frame(p)) == Some(p),
{
    let f = put_frame(p);
    assert(f.subrange(0, 73) =~= p.token);
    assert(f.subrange(73, 89) =~= p.parent);
    assert(f.subrange(90, 106) =~= p.grandparent);
    assert(f.subrange(107, f.len() as int) =~= p.payload);
}

// ---------------------------------------------------------------- storage_query

/// One `(parent, entity, kinds)` triple of a query.
pub type TripleView = (Seq<u8>, Seq<u8>, Seq<u8>);

/// `parent(16) ∥ entity(16) ∥ kind_count(1) ∥ kinds`.
pub open spec fn triple_bytes(t: TripleView) -> Seq<u8> {
    t.0 + t.1 + seq![t.2.len() as u8] + t.2
}

/// The triples one after the other.
pub open spec fn triples_bytes(ts: Seq<TripleView>) -> Seq<u8>
    decreases ts.len(),
{
    if ts.len() == 0 {
        Seq::empty()
    } else {
        triples_bytes(ts.drop_last()) + triple_bytes(ts.last())
    }
}

/// Whether a triple can be framed: two identifiers and at most 255 kinds.
pub open spec fn triple_ok(t: TripleView) -> bool {
    t.0.len() == UUID_LEN && t.1.len() == UUID_LEN && t.2.len() <= 255
}

/// The triples that `b` holds, where it is a whole number of well-framed triples.
pub open spec fn parse_triples(b: Seq<u8>) -> Option<Seq<TripleView>>
    decreases b.len(),
{
    if b.len() == 0 {
        Some(Seq::empty())
    } else if b.len() < 33 || b.len() < 33 + b[32] {
        None
    } else {
        match parse_triples(b.subrange(33 + b[32], b.len() as int)) {
            Some(rest) => Some(
                seq![(b.subrange(0, 16), b.subrange(16, 32), b.subrange(33, 33 + b[32]))] + rest,
            ),
            None => None,
        }
    }
}

/// The token and triples of a storage_query request: a 73-byte token, then at most 255 triples.
pub open spec fn parse_query(b: Seq<u8>) -> Option<(Seq<u8>, Seq<TripleView>)> {
    if b.len() < GROUP_TOKEN_LEN {
        None
    } else {
        match parse_triples(b.subrange(GROUP_TOKEN_LEN as int, b.len() as int)) {
            Some(ts) => if ts.len() <= MAX_TRIPLES {
                Some((b.subrange(0, GROUP_TOKEN_LEN as int), ts))
            } else {
                None
            },
            None => None,
        }
    }
}

/// Every triple that `parse_triples` yields has two 16-byte identifiers.
pub proof fn lemma_parsed_triples_ids(b: Seq<u8>)
    requires
        parse_triples(b) is Some,
    ensures
        forall|i: int|
            0 <= i < parse_triples(b)->Some_0.len() ==> (#[trigger] parse_triples(b)->Some_0[i]).0.len()
                == UUID_LEN && parse_triples(b)->Some_0[i].1.len() == UUID_LEN,
    decreases b.len(),
{
    if b.len() > 0 {
        let rest = b.subrange(33 + b[32], b.len() as int);
        lemma_parsed_triples_ids(rest);
        let ts = parse_triples(b)->Some_0;
        let rs = parse_triples(rest)->Some_0;
        assert forall|i: int| 0 <= i < ts.len() implies (#[trigger] ts[i]).0.len() == UUID_LEN
            && ts[i].1.len() == UUID_LEN by {
            if i > 0 {
                assert(ts[i] == rs[i - 1]);
            }
        }
    }
}

/// `token(73) ∥ triples`.
pub open spec fn query_frame(token: Seq<u8>, ts: Seq<TripleView>) -> Seq<u8> {
    token + triples_bytes(ts)
}

/// One triple of a storage_query request.
pub struct QueryTriple {
    pub parent: Vec<u8>,
    pub entity: Vec<u8>,
    pub kinds: Vec<u8>,
}

impl View for QueryTriple {
    type V = TripleView;

    open spec fn view(&self) -> TripleView {
        (self.parent@, self.entity@, self.kinds@)
    }
}

/// The views of a list of triples.
pub open spec fn triples_view(ts: Seq<QueryTriple>) -> Seq<TripleView> {
    ts.map_values(|t: QueryTriple| t@)
}

proof fn lemma_triples_bytes_front(ts: Seq<TripleView>)
    requires
        ts.len() >= 1,
    ensures
        triples_bytes(ts) == triple_bytes(ts[0]) + triples_bytes(ts.drop_first()),
    decreases ts.len(),
{
    if ts.len() == 1 {
        assert(ts.drop_last() =~= Seq::<TripleView>::empty());
        assert(ts.drop_first() =~= Seq::<TripleView>::empty());
        assert(triples_bytes(Seq::<TripleView>::empty()) =~= Seq::<u8>::empty());
        assert(ts.last() == ts[0]);
        assert(triples_bytes(ts) =~= triple_bytes(ts[0]));
        assert(triple_bytes(ts[0]) + triples_bytes(ts.drop_first()) =~= triple_bytes(ts[0]));
    } else {
        lemma_triples_bytes_front(ts.drop_last());
        assert(ts.drop_last().drop_first() =~= ts.drop_first().drop_last());
        assert(ts.drop_first().last() == ts.last());
        assert(ts.drop_last()[0] == ts[0]);
        assert(triples_bytes(ts) =~= triple_bytes(ts[0]) + triples_bytes(ts.drop_first()));
    }
}

/// Reading framed triples gives back the triples.
pub proof fn lemma_triples_round_trip(ts: Seq<TripleView>)
    requires
        forall|i: int| 0 <= i < ts.len() ==> triple_ok(#[trigger] ts[i]),
    ensures
        parse_triples(triples_bytes(ts)) == Some(ts),
    decreases ts.len(),
{
    if ts.len() == 0 {
        assert(triples_bytes(ts) =~= Seq::<u8>::empty());
        assert(ts =~= Seq::<TripleView>::empty());
    } else {
        lemma_triples_bytes_front(ts);
        let t = ts[0];
        assert(triple_ok(t));
        let rest = ts.drop_first();
        assert forall|i: int| 0 <= i < rest.len() implies triple_ok(#[trigger] rest[i]) by {
            assert(rest[i] == ts[i + 1]);
        }
        lemma_triples_round_trip(rest);
        let b = triples_bytes(ts);
        let n = t.2.len();
        assert(b[32] == n as u8);
        assert(b.subrange(33 + b[32], b.len() as int) =~= triples_bytes(rest));
        assert(b.subrange(0, 16) =~= t.0);
        assert(b.subrange(16, 32) =~= t.1);
        assert(b.subrange(33, 33 + b[32]) =~= t.2);
        assert(seq![(t.0, t.1, t.2)] + rest =~= ts);
    }
}

/// Splitting a framed storage_query request gives back its token and triples.
pub proof fn lemma_query_round_trip(token: Seq<u8>, ts: Seq<TripleView>)
    requires
        token.len() == GROUP_TOKEN_LEN,
        ts.len() <= MAX_TRIPLES,
        forall|i: int| 0 <= i < ts.len() ==> triple_ok(#[trigger] ts[i]),
    ensures
        parse_query(query_frame(token, ts)) == Some((token, ts)),
{
    let f = query_frame(token, ts);
    lemma_triples_round_trip(ts);
    assert(f.subrange(GROUP_TOKEN_LEN as int, f.len() as int) =~= triples_bytes(ts));
    assert(f.subrange(0, GROUP_TOKEN_LEN as int) =~= token);
}

/// Frames a storage_query request; fails where there are more than 255 triples or a triple
/// has more than 255 kinds.
pub fn encode_storage_query(token: &[u8], triples: &Vec<QueryTriple>) -> (r: Result<
    Vec<u8>,
    Error,
>)
    requires
        token@.len() == GROUP_TOKEN_LEN,
        forall|i: int|
            0 <= i < triples@.len() ==> (#[trigger] triples@[i]).parent@.len() == UUID_LEN
                && triples@[i].entity@.len() == UUID_LEN,
    ensures
        r is Ok <==> (triples@.len() <= MAX_TRIPLES && forall|i: int|
            0 <= i < triples@.len() ==> (#[trigger] triples@[i]).kinds@.len() <= 255),
        r is Err ==> r matches Err(Error::Framing),
        r matches Ok(f) ==> f@ == query_frame(token@, triples_view(triples@)),
{
    if triples.len() > MAX_TRIPLES {
        return Err(Error::Framing);
    }
    let mut r: Vec<u8> = Vec::new();
    push_all(&mut r, token);
    let mut i: usize = 0;
    while i < triples.len()
        invariant
            i <= triples@.len(),
            forall|j: int|
                0 <= j < triples@.len() ==> (#[trigger] triples@[j]).parent@.len() == UUID_LEN
                    && triples@[j].entity@.len() == UUID_LEN,
            forall|j: int| 0 <= j < i ==> (#[trigger] triples@[j]).kinds@.len() <= 255,
            r@ == token@ + triples_bytes(triples_view(triples@.subrange(0, i as int))),
        decreases triples@.len() - i,
    {
        let t = &triples[i];
        if t.kinds.len() > 255 {
            return Err(Error::Framing);
        }
        push_all(&mut r, t.parent.as_slice());
        push_all(&mut r, t.entity.as_slice());
        r.push(t.kinds.len() as u8);
        push_all(&mut r, t.kinds.as_slice());
        proof {
            let prev = triples_view(triples@.subrange(0, i as int));
            let next = triples_view(triples@.subrange(0, i + 1));
            assert(next.drop_last() =~= prev);
            assert(next.last() == t@);
            assert(r@ =~= token@ + triples_bytes(next));
        }
        i = i + 1;
    }
    assert(triples@.subrange(0, i as int) =~= triples@);
    Ok(r)
}

/// Splits a storage_query request into its token and triples.
pub fn decode_storage_query(b: &[u8]) -> (r: Result<(Vec<u8>, Vec<QueryTriple>), Error>)
    ensures
        r is Ok <==> parse_query(b@) is Some,
        r is Err ==> r matches Err(Error::Framing),
        r matches Ok((t, ts)) ==> parse_query(b@) == Some((t@, triples_view(ts@))),
{
    if b.len() < GROUP_TOKEN_LEN {
        return Err(Error::Framing);
    }
    let ghost body = b@.subrange(GROUP_TOKEN_LEN as int, b@.len() as int);
    let mut ts: Vec<QueryTriple> = Vec::new();
    let mut pos: usize = GROUP_TOKEN_LEN;
    while pos < b.len()
        invariant
            GROUP_TOKEN_LEN <= pos <= b@.len(),
            body == b@.subrange(GROUP_TOKEN_LEN as int, b@.len() as int),
            parse_triples(body) == match parse_triples(b@.subrange(pos as int, b@.len() as int)) {
                Some(rest) => Some(triples_view(ts@) + rest),
                None => None,
            },
        decreases b@.len() - pos,
    {
        let ghost cur = b@.subrange(pos as int, b@.len() as int);
        if b.len() - pos < 33 {
            return Err(Error::Framing);
        }
        if b.len() - pos < 33 + (b[pos + 32] as usize) {
            assert(cur[32] == b@[pos + 32]);
            assert(parse_triples(cur) is None);
            return Err(Error::Framing);
        }
        let n = b[pos + 32] as usize;
        let t = QueryTriple {
            parent: copy_range(b, pos, pos + 16),
            entity: copy_range(b, pos + 16, pos + 32),
            kinds: copy_range(b, pos + 33, pos + 33 + n),
        };
        proof {
            assert(cur[32] == n as u8);
            assert(cur.subrange(33 + cur[32], cur.len() as int) =~= b@.subrange(
                pos + 33 + n,
                b@.len() as int,
            ));
            assert(cur.subrange(0, 16) =~= t.parent@);
            assert(cur.subrange(16, 32) =~= t.entity@);
            assert(cur.subrange(33, 33 + cur[32]) =~= t.kinds@);
        }
        let ghost old_ts = ts@;
        ts.push(t);
        proof {
            assert(triples_view(ts@) =~= triples_view(old_ts).push(t@));
            match parse_triples(b@.subrange(pos + 33 + n, b@.len() as int)) {
                Some(rest) => {
                    assert(triples_view(old_ts) + (seq![t@] + rest) =~= triples_view(ts@)
                        + rest);
                },
                None => {},
            }
        }
        pos = pos + 33 + n;
    }
    assert(b@.subrange(pos as int, b@.len() as int) =~= Seq::<u8>::empty());
    assert(triples_view(ts@) + Seq::<TripleView>::empty() =~= triples_view(ts@));
    if ts.len() > MAX_TRIPLES {
        return Err(Error::Framing);
    }
    Ok((copy_range(b, 0, GROUP_TOKEN_LEN), ts))
}

// ---------------------------------------------------------------- sealed refresh token

/// `ciphertext ∥ nonce(24)`.
pub open spec fn sealed_frame(ciphertext: Seq<u8>, nonce: Seq<u8>) -> Seq<u8> {
    ciphertext + nonce
}

/// The ciphertext and the trailing 24-byte nonce of a sealed refresh token.
pub open spec fn parse_sealed(b: Seq<u8>) -> Option<(Seq<u8>, Seq<u8>)> {
    if b.len() >= NONCE_LEN {
        Some((b.subrange(0, b.len() - NONCE_LEN), b.subrange(b.len() - NONCE_LEN, b.len() as int)))
    } else {
        None
    }
}

/// Frames a sealed refresh token: the ciphertext, then the nonce.
pub fn encode_sealed(ciphertext: &[u8], nonce: &[u8]) -> (r: Vec<u8>)
    ensures
        r@ == sealed_frame(ciphertext@, nonce@),
{
    let mut r: Vec<u8> = Vec::new();
    push_all(&mut r, ciphertext);
    push_all(&mut r, nonce);
    r
}

/// Splits a sealed refresh token into its ciphertext and nonce.
pub fn split_sealed(b: &[u8]) -> (r: Result<(Vec<u8>, Vec<u8>), Error>)
    ensures
        r is Ok <==> parse_sealed(b@) is Some,
        r is Err ==> r matches Err(Error::Framing),
        r matches Ok((c, n)) ==> parse_sealed(b@) == Some((c@, n@)),
{
    if b.len() < NONCE_LEN {
        return Err(Error::Framing);
    }
    let cut = b.len() - NONCE_LEN;
    Ok((copy_range(b, 0, cut), copy_range(b, cut, b.len())))
}

/// Splitting a sealed refresh token gives back its ciphertext and nonce.
pub proof fn lemma_sealed_round_trip(ciphertext: Seq<u8>, nonce: Seq<u8>)
    requires
        nonce.len() == NONCE_LEN,
    ensures
        parse_sealed(sealed_frame(ciphertext, nonce)) == Some((ciphertext, nonce)),
{
    let f = sealed_frame(ciphertext, nonce);
    assert(f.subrange(0, f.len() - NONCE_LEN) =~= ciphertext);
    assert(f.subrange(f.len() - NONCE_LEN, f.len() as int) =~= nonce);
}

} // verus!
