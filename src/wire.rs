//! Reading a query result back from its wire encoding.
use vstd::prelude::*;

use crate::error::Error;
use crate::octets::{be8, copy_range, from_be8, lemma_be8_round_trip, u64_from_be};
use crate::query::{
    entities_bytes, entities_view, entity_bytes, kind_bytes, kinds_bytes, parent_bytes,
    parents_bytes, query_bytes, Entity, EntityView, KindEntities, KindsView, ParentEntities,
    QueryResult, QueryView,
};

verus! {

/// The first entity encoded in `b`, and how many bytes it takes.
pub open spec fn parse_entity(b: Seq<u8>) -> Option<(EntityView, int)> {
    if b.len() < 40 {
        None
    } else {
        let n = from_be8(b.subrange(32, 40)) as int;
        if b.len() - 40 < n {
            None
        } else {
            Some(((b.subrange(0, 16), b.subrange(16, 32), b.subrange(40, 40 + n)), 40 + n))
        }
    }
}

/// The first `count` entities encoded in `b`, and how many bytes they take.
pub open spec fn parse_entities(b: Seq<u8>, count: nat) -> Option<(Seq<EntityView>, int)>
    decreases count,
{
    if count == 0 {
        Some((Seq::empty(), 0))
    } else {
        match parse_entity(b) {
            None => None,
            Some((e, k)) => match parse_entities(b.subrange(k, b.len() as int), (count - 1) as nat) {
                None => None,
                Some((es, k2)) => Some((seq![e] + es, k + k2)),
            },
        }
    }
}

/// The first kind encoded in `b`, with its entities, and how many bytes it takes.
pub open spec fn parse_kind(b: Seq<u8>) -> Option<((u8, Seq<EntityView>), int)> {
    if b.len() < 9 {
        None
    } else {
        match parse_entities(b.subrange(9, b.len() as int), from_be8(b.subrange(1, 9)) as nat) {
            None => None,
            Some((es, k)) => Some(((b[0], es), 9 + k)),
        }
    }
}

/// The first `count` kinds encoded in `b`, and how many bytes they take.
pub open spec fn parse_kinds(b: Seq<u8>, count: nat) -> Option<(KindsView, int)>
    decreases count,
{
    if count == 0 {
        Some((Seq::empty(), 0))
    } else {
        match parse_kind(b) {
            None => None,
            Some((x, k)) => match parse_kinds(b.subrange(k, b.len() as int), (count - 1) as nat) {
                None => None,
                Some((xs, k2)) => Some((seq![x] + xs, k + k2)),
            },
        }
    }
}

/// The first parent encoded in `b`, with its kinds, and how many bytes it takes.
pub open spec fn parse_parent(b: Seq<u8>) -> Option<((Seq<u8>, KindsView), int)> {
    if b.len() < 24 {
        None
    } else {
        match parse_kinds(b.subrange(24, b.len() as int), from_be8(b.subrange(16, 24)) as nat) {
            None => None,
            Some((ks, k)) => Some(((b.subrange(0, 16), ks), 24 + k)),
        }
    }
}

/// The first `count` parents encoded in `b`, and how many bytes they take.
pub open spec fn parse_parents(b: Seq<u8>, count: nat) -> Option<(QueryView, int)>
    decreases count,
{
    if count == 0 {
        Some((Seq::empty(), 0))
    } else {
        match parse_parent(b) {
            None => None,
            Some((x, k)) => match parse_parents(b.subrange(k, b.len() as int), (count - 1) as nat) {
                None => None,
                Some((xs, k2)) => Some((seq![x] + xs, k + k2)),
            },
        }
    }
}

/// The query result that `b` encodes, where `b` is exactly one encoding.
pub open spec fn parse_query_result(b: Seq<u8>) -> Option<QueryView> {
    if b.len() < 8 {
        None
    } else {
        match parse_parents(b.subrange(8, b.len() as int), from_be8(b.subrange(0, 8)) as nat) {
            Some((q, k)) => if 8 + k == b.len() {
                Some(q)
            } else {
                None
            },
            None => None,
        }
    }
}

/// Whether an entity can be encoded: two 16-byte identifiers and a value whose length fits in
/// 64 bits.
pub open spec fn entity_ok(e: EntityView) -> bool {
    e.0.len() == 16 && e.1.len() == 16 && e.2.len() <= u64::MAX
}

/// Whether the entities of a kind can be encoded.
pub open spec fn kind_ok(k: (u8, Seq<EntityView>)) -> bool {
    k.1.len() <= u64::MAX && forall|i: int| 0 <= i < k.1.len() ==> entity_ok(#[trigger] k.1[i])
}

/// Whether the kinds of a parent can be encoded.
pub open spec fn parent_ok(p: (Seq<u8>, KindsView)) -> bool {
    p.0.len() == 16 && p.1.len() <= u64::MAX && forall|i: int|
        0 <= i < p.1.len() ==> kind_ok(#[trigger] p.1[i])
}

/// Whether a query result can be encoded: 16-byte identifiers, and counts and lengths that fit
/// in 64 bits.
pub open spec fn query_ok(q: QueryView) -> bool {
    q.len() <= u64::MAX && forall|i: int| 0 <= i < q.len() ==> parent_ok(#[trigger] q[i])
}

proof fn lemma_entities_front(es: Seq<EntityView>)
    requires
        es.len() >= 1,
    ensures
        entities_bytes(es) == entity_bytes(es[0]) + entities_bytes(es.drop_first()),
    decreases es.len(),
{
    if es.len() == 1 {
        assert(es.drop_last() =~= Seq::<EntityView>::empty());
        assert(es.drop_first() =~= Seq::<EntityView>::empty());
        assert(entities_bytes(Seq::<EntityView>::empty()) =~= Seq::<u8>::empty());
        assert(es.last() == es[0]);
        assert(entities_bytes(es) =~= entity_bytes(es[0]) + entities_bytes(es.drop_first()));
    } else {
        lemma_entities_front(es.drop_last());
        assert(es.drop_last().drop_first() =~= es.drop_first().drop_last());
        assert(es.drop_first().last() == es.last());
        assert(es.drop_last()[0] == es[0]);
        assert(entities_bytes(es) =~= entity_bytes(es[0]) + entities_bytes(es.drop_first()));
    }
}

proof fn lemma_kinds_front(ks: KindsView)
    requires
        ks.len() >= 1,
    ensures
        kinds_bytes(ks) == kind_bytes(ks[0]) + kinds_bytes(ks.drop_first()),
    decreases ks.len(),
{
    if ks.len() == 1 {
        assert(ks.drop_last() =~= Seq::<(u8, Seq<EntityView>)>::empty());
        assert(ks.drop_first() =~= Seq::<(u8, Seq<EntityView>)>::empty());
        assert(kinds_bytes(Seq::<(u8, Seq<EntityView>)>::empty()) =~= Seq::<u8>::empty());
        assert(ks.last() == ks[0]);
        assert(kinds_bytes(ks) =~= kind_bytes(ks[0]) + kinds_bytes(ks.drop_first()));
    } else {
        lemma_kinds_front(ks.drop_last());
        assert(ks.drop_last().drop_first() =~= ks.drop_first().drop_last());
        assert(ks.drop_first().last() == ks.last());
        assert(ks.drop_last()[0] == ks[0]);
        assert(kinds_bytes(ks) =~= kind_bytes(ks[0]) + kinds_bytes(ks.drop_first()));
    }
}

proof fn lemma_parents_front(ps: QueryView)
    requires
        ps.len() >= 1,
    ensures
        parents_bytes(ps) == parent_bytes(ps[0]) + parents_bytes(ps.drop_first()),
    decreases ps.len(),
{
    if ps.len() == 1 {
        assert(ps.drop_last() =~= Seq::<(Seq<u8>, KindsView)>::empty());
        assert(ps.drop_first() =~= Seq::<(Seq<u8>, KindsView)>::empty());
        assert(parents_bytes(Seq::<(Seq<u8>, KindsView)>::empty()) =~= Seq::<u8>::empty());
        assert(ps.last() == ps[0]);
        assert(parents_bytes(ps) =~= parent_bytes(ps[0]) + parents_bytes(ps.drop_first()));
    } else {
        lemma_parents_front(ps.drop_last());
        assert(ps.drop_last().drop_first() =~= ps.drop_first().drop_last());
        assert(ps.drop_first().last() == ps.last());
        assert(ps.drop_last()[0] == ps[0]);
        assert(parents_bytes(ps) =~= parent_bytes(ps[0]) + parents_bytes(ps.drop_first()));
    }
}

proof fn lemma_entity_round_trip(e: EntityView, rest: Seq<u8>)
    requires
        entity_ok(e),
    ensures
        parse_entity(entity_bytes(e) + rest) == Some((e, entity_bytes(e).len() as int)),
{
    let b = entity_bytes(e) + rest;
    lemma_be8_round_trip(e.2.len() as u64);
    assert(b.subrange(32, 40) =~= be8(e.2.len() as u64));
    assert(b.subrange(0, 16) =~= e.0);
    assert(b.subrange(16, 32) =~= e.1);
    assert(b.subrange(40, 40 + e.2.len() as int) =~= e.2);
}

proof fn lemma_entities_round_trip(es: Seq<EntityView>, rest: Seq<u8>)
    requires
        forall|i: int| 0 <= i < es.len() ==> entity_ok(#[trigger] es[i]),
    ensures
        parse_entities(entities_bytes(es) + rest, es.len()) == Some(
            (es, entities_bytes(es).len() as int),
        ),
    decreases es.len(),
{
    if es.len() == 0 {
        assert(es =~= Seq::<EntityView>::empty());
    } else {
        lemma_entities_front(es);
        let tail = es.drop_first();
        assert forall|i: int| 0 <= i < tail.len() implies entity_ok(#[trigger] tail[i]) by {
            assert(tail[i] == es[i + 1]);
        }
        assert(entity_ok(es[0]));
        let b = entities_bytes(es) + rest;
        let k = entity_bytes(es[0]).len() as int;
        lemma_entity_round_trip(es[0], entities_bytes(tail) + rest);
        assert(b =~= entity_bytes(es[0]) + (entities_bytes(tail) + rest));
        assert(parse_entity(b) == Some((es[0], k)));
        assert(b.subrange(k, b.len() as int) =~= entities_bytes(tail) + rest);
        lemma_entities_round_trip(tail, rest);
        assert(seq![es[0]] + tail =~= es);
        assert(entities_bytes(es).len() == k + entities_bytes(tail).len());
    }
}

proof fn lemma_kind_round_trip(x: (u8, Seq<EntityView>), rest: Seq<u8>)
    requires
        kind_ok(x),
    ensures
        parse_kind(kind_bytes(x) + rest) == Some((x, kind_bytes(x).len() as int)),
{
    let b = kind_bytes(x) + rest;
    lemma_be8_round_trip(x.1.len() as u64);
    assert(b.subrange(1, 9) =~= be8(x.1.len() as u64));
    assert(b.subrange(9, b.len() as int) =~= entities_bytes(x.1) + rest);
    lemma_entities_round_trip(x.1, rest);
}

#[verifier::rlimit(40)]
proof fn lemma_kinds_round_trip(ks: KindsView, rest: Seq<u8>)
    requires
        forall|i: int| 0 <= i < ks.len() ==> kind_ok(#[trigger] ks[i]),
    ensures
        parse_kinds(kinds_bytes(ks) + rest, ks.len()) == Some((ks, kinds_bytes(ks).len() as int)),
    decreases ks.len(),
{
    if ks.len() == 0 {
        assert(ks =~= Seq::<(u8, Seq<EntityView>)>::empty());
    } else {
        lemma_kinds_front(ks);
        let tail = ks.drop_first();
        assert forall|i: int| 0 <= i < tail.len() implies kind_ok(#[trigger] tail[i]) by {
            assert(tail[i] == ks[i + 1]);
        }
        assert(kind_ok(ks[0]));
        let b = kinds_bytes(ks) + rest;
        let k = kind_bytes(ks[0]).len() as int;
        lemma_kind_round_trip(ks[0], kinds_bytes(tail) + rest);
        assert(b =~= kind_bytes(ks[0]) + (kinds_bytes(tail) + rest));
        assert(parse_kind(b) == Some((ks[0], k)));
        assert(b.subrange(k, b.len() as int) =~= kinds_bytes(tail) + rest);
        lemma_kinds_round_trip(tail, rest);
        assert(seq![ks[0]] + tail =~= ks);
        assert(kinds_bytes(ks).len() == k + kinds_bytes(tail).len());
    }
}

proof fn lemma_parent_round_trip(x: (Seq<u8>, KindsView), rest: Seq<u8>)
    requires
        parent_ok(x),
    ensures
        parse_parent(parent_bytes(x) + rest) == Some((x, parent_bytes(x).len() as int)),
{
    let b = parent_bytes(x) + rest;
    lemma_be8_round_trip(x.1.len() as u64);
    assert(b.subrange(16, 24) =~= be8(x.1.len() as u64));
    assert(b.subrange(0, 16) =~= x.0);
    assert(b.subrange(24, b.len() as int) =~= kinds_bytes(x.1) + rest);
    lemma_kinds_round_trip(x.1, rest);
}

#[verifier::rlimit(40)]
proof fn lemma_parents_round_trip(ps: QueryView, rest: Seq<u8>)
    requires
        forall|i: int| 0 <= i < ps.len() ==> parent_ok(#[trigger] ps[i]),
    ensures
        parse_parents(parents_bytes(ps) + rest, ps.len()) == Some(
            (ps, parents_bytes(ps).len() as int),
        ),
    decreases ps.len(),
{
    if ps.len() == 0 {
        assert(ps =~= Seq::<(Seq<u8>, KindsView)>::empty());
    } else {
        lemma_parents_front(ps);
        let tail = ps.drop_first();
        assert forall|i: int| 0 <= i < tail.len() implies parent_ok(#[trigger] tail[i]) by {
            assert(tail[i] == ps[i + 1]);
        }
        assert(parent_ok(ps[0]));
        let b = parents_bytes(ps) + rest;
        let k = parent_bytes(ps[0]).len() as int;
        lemma_parent_round_trip(ps[0], parents_bytes(tail) + rest);
        assert(b =~= parent_bytes(ps[0]) + (parents_bytes(tail) + rest));
        assert(parse_parent(b) == Some((ps[0], k)));
        assert(b.subrange(k, b.len() as int) =~= parents_bytes(tail) + rest);
        lemma_parents_round_trip(tail, rest);
        assert(seq![ps[0]] + tail =~= ps);
        assert(parents_bytes(ps).len() == k + parents_bytes(tail).len());
    }
}

/// Decoding the wire encoding of a query result gives the result back.
pub proof fn lemma_query_result_round_trip(q: QueryView)
    requires
        query_ok(q),
    ensures
        parse_query_result(query_bytes(q)) == Some(q),
{
    let b = query_bytes(q);
    lemma_be8_round_trip(q.len() as u64);
    assert(b.subrange(0, 8) =~= be8(q.len() as u64));
    assert(b.subrange(8, b.len() as int) =~= parents_bytes(q) + Seq::<u8>::empty());
    lemma_parents_round_trip(q, Seq::<u8>::empty());
}

/// Reads the entity encoded at `pos`.
fn decode_entity(b: &[u8], pos: usize) -> (r: Option<(Entity, usize)>)
    requires
        pos <= b@.len(),
    ensures
        match parse_entity(b@.subrange(pos as int, b@.len() as int)) {
            None => r is None,
            Some((e, k)) => r matches Some((x, n)) && x@ == e && n == k && pos + n <= b@.len(),
        },
        r matches Some((_, n)) ==> pos + n <= b@.len(),
{
    let ghost sub = b@.subrange(pos as int, b@.len() as int);
    if b.len() - pos < 40 {
        return None;
    }
    let n = u64_from_be(b, pos + 32);
    assert(sub.subrange(32, 40) =~= b@.subrange(pos + 32, pos + 40));
    if n > (b.len() - pos - 40) as u64 {
        return None;
    }
    let n = n as usize;
    let e = Entity {
        uuid: copy_range(b, pos, pos + 16),
        user: copy_range(b, pos + 16, pos + 32),
        value: copy_range(b, pos + 40, pos + 40 + n),
    };
    assert(sub.subrange(0, 16) =~= e.uuid@);
    assert(sub.subrange(16, 32) =~= e.user@);
    assert(sub.subrange(40, 40 + n) =~= e.value@);
    Some((e, 40 + n))
}

/// Reads `count` entities encoded from `pos` on.
fn decode_entities(b: &[u8], pos: usize, count: u64) -> (r: Option<(Vec<Entity>, usize)>)
    requires
        pos <= b@.len(),
    ensures
        match parse_entities(b@.subrange(pos as int, b@.len() as int), count as nat) {
            None => r is None,
            Some((es, k)) => r matches Some((xs, n)) && entities_view(xs@) == es && n == k && pos
                + n <= b@.len(),
        },
        r matches Some((_, n)) ==> pos + n <= b@.len(),
{
    let ghost whole = parse_entities(b@.subrange(pos as int, b@.len() as int), count as nat);
    let mut acc: Vec<Entity> = Vec::new();
    let blen = b.len();
    let mut p: usize = pos;
    let mut i: u64 = 0;
    while i < count
        invariant
            blen == b@.len(),
            pos <= p <= b@.len(),
            i <= count,
            whole == parse_entities(b@.subrange(pos as int, b@.len() as int), count as nat),
            whole == match parse_entities(b@.subrange(p as int, b@.len() as int), (count - i) as nat) {
                Some((rest, k)) => Some((entities_view(acc@) + rest, (p - pos) + k)),
                None => None,
            },
        decreases count - i,
    {
        let ghost cur = b@.subrange(p as int, b@.len() as int);
        let step = decode_entity(b, p);
        match step {
            None => {
                return None;
            },
            Some((e, k)) => {
                proof {
                    assert(cur.subrange(k as int, cur.len() as int) =~= b@.subrange(p + k, b@.len() as int));
                    assert(((count - i) - 1) as nat == (count - (i + 1)) as nat);
                }
                let ghost before = entities_view(acc@);
                acc.push(e);
                proof {
                    assert(entities_view(acc@) =~= before.push(e@));
                    match parse_entities(b@.subrange(p + k, b@.len() as int), (count - (i + 1)) as nat) {
                        Some((rest, k2)) => {
                            assert(before + (seq![e@] + rest) =~= entities_view(acc@) + rest);
                        },
                        None => {},
                    }
                }
                p = p + k;
                i = i + 1;
            },
        }
    }
    assert(entities_view(acc@) + Seq::<EntityView>::empty() =~= entities_view(acc@));
    Some((acc, p - pos))
}

/// Reads the kind encoded at `pos`.
fn decode_kind(b: &[u8], pos: usize) -> (r: Option<(KindEntities, usize)>)
    requires
        pos <= b@.len(),
    ensures
        match parse_kind(b@.subrange(pos as int, b@.len() as int)) {
            None => r is None,
            Some((x, k)) => r matches Some((y, n)) && y@ == x && n == k && pos + n <= b@.len(),
        },
        r matches Some((_, n)) ==> pos + n <= b@.len(),
{
    let ghost sub = b@.subrange(pos as int, b@.len() as int);
    if b.len() - pos < 9 {
        return None;
    }
    let kind = b[pos];
    let count = u64_from_be(b, pos + 1);
    assert(sub.subrange(1, 9) =~= b@.subrange(pos + 1, pos + 9));
    assert(sub.subrange(9, sub.len() as int) =~= b@.subrange(pos + 9, b@.len() as int));
    match decode_entities(b, pos + 9, count) {
        None => None,
        Some((entities, k)) => Some((KindEntities { kind, entities }, 9 + k)),
    }
}

/// Reads `count` kinds encoded from `pos` on.
fn decode_kinds(b: &[u8], pos: usize, count: u64) -> (r: Option<(Vec<KindEntities>, usize)>)
    requires
        pos <= b@.len(),
    ensures
        match parse_kinds(b@.subrange(pos as int, b@.len() as int), count as nat) {
            None => r is None,
            Some((ks, k)) => r matches Some((xs, n)) && xs@.map_values(|x: KindEntities| x@) == ks
                && n == k && pos + n <= b@.len(),
        },
        r matches Some((_, n)) ==> pos + n <= b@.len(),
{
    let ghost whole = parse_kinds(b@.subrange(pos as int, b@.len() as int), count as nat);
    let mut acc: Vec<KindEntities> = Vec::new();
    let blen = b.len();
    let mut p: usize = pos;
    let mut i: u64 = 0;
    while i < count
        invariant
            blen == b@.len(),
            pos <= p <= b@.len(),
            i <= count,
            whole == parse_kinds(b@.subrange(pos as int, b@.len() as int), count as nat),
            whole == match parse_kinds(b@.subrange(p as int, b@.len() as int), (count - i) as nat) {
                Some((rest, k)) => Some((acc@.map_values(|x: KindEntities| x@) + rest, (p - pos) + k)),
                None => None,
            },
        decreases count - i,
    {
        let ghost cur = b@.subrange(p as int, b@.len() as int);
        let step = decode_kind(b, p);
        match step {
            None => {
                return None;
            },
            Some((x, k)) => {
                proof {
                    assert(cur.subrange(k as int, cur.len() as int) =~= b@.subrange(p + k, b@.len() as int));
                    assert(((count - i) - 1) as nat == (count - (i + 1)) as nat);
                }
                let ghost before = acc@.map_values(|x: KindEntities| x@);
                let ghost xv = x@;
                acc.push(x);
                proof {
                    assert(acc@.map_values(|x: KindEntities| x@) =~= before.push(xv));
                    match parse_kinds(b@.subrange(p + k, b@.len() as int), (count - (i + 1)) as nat) {
                        Some((rest, k2)) => {
                            assert(before + (seq![xv] + rest) =~= acc@.map_values(|x: KindEntities| x@) + rest);
                        },
                        None => {},
                    }
                }
                p = p + k;
                i = i + 1;
            },
        }
    }
    assert(acc@.map_values(|x: KindEntities| x@) + Seq::<(u8, Seq<EntityView>)>::empty() =~= acc@.map_values(|x: KindEntities| x@));
    Some((acc, p - pos))
}

/// Reads the parent encoded at `pos`.
fn decode_parent(b: &[u8], pos: usize) -> (r: Option<(ParentEntities, usize)>)
    requires
        pos <= b@.len(),
    ensures
        match parse_parent(b@.subrange(pos as int, b@.len() as int)) {
            None => r is None,
            Some((x, k)) => r matches Some((y, n)) && y@ == x && n == k && pos + n <= b@.len(),
        },
        r matches Some((_, n)) ==> pos + n <= b@.len(),
{
    let ghost sub = b@.subrange(pos as int, b@.len() as int);
    if b.len() - pos < 24 {
        return None;
    }
    let count = u64_from_be(b, pos + 16);
    assert(sub.subrange(16, 24) =~= b@.subrange(pos + 16, pos + 24));
    assert(sub.subrange(24, sub.len() as int) =~= b@.subrange(pos + 24, b@.len() as int));
    match decode_kinds(b, pos + 24, count) {
        None => None,
        Some((kinds, k)) => {
            let parent = copy_range(b, pos, pos + 16);
            assert(sub.subrange(0, 16) =~= parent@);
            Some((ParentEntities { parent, kinds }, 24 + k))
        },
    }
}

impl QueryResult {
    /// Reads a query result from its wire encoding; fails where `b` is not exactly one
    /// encoding.
    pub fn decode(b: &[u8]) -> (r: Result<QueryResult, Error>)
        ensures
            r is Ok <==> parse_query_result(b@) is Some,
            r is Err ==> r matches Err(Error::Framing),
            r matches Ok(q) ==> parse_query_result(b@) == Some(q@),
    {
        if b.len() < 8 {
            return Err(Error::Framing);
        }
        let count = u64_from_be(b, 0);
        let ghost whole = parse_parents(b@.subrange(8, b@.len() as int), count as nat);
        let mut acc: Vec<ParentEntities> = Vec::new();
        let blen = b.len();
        assert(count == from_be8(b@.subrange(0, 8)));
        assert(parse_query_result(b@) == match whole {
            Some((q, k)) => if 8 + k == b@.len() {
                Some(q)
            } else {
                None
            },
            None => None,
        });
        let mut p: usize = 8;
        let mut i: u64 = 0;
        while i < count
            invariant
                blen == b@.len(),
                parse_query_result(b@) == match whole {
                    Some((q, k)) => if 8 + k == b@.len() {
                        Some(q)
                    } else {
                        None
                    },
                    None => None,
                },
                8 <= p <= b@.len(),
                i <= count,
                whole == parse_parents(b@.subrange(8, b@.len() as int), count as nat),
                whole == match parse_parents(b@.subrange(p as int, b@.len() as int), (count - i) as nat) {
                    Some((rest, k)) => Some((acc@.map_values(|x: ParentEntities| x@) + rest, (p - 8) + k)),
                    None => None,
                },
            decreases count - i,
        {
            let ghost cur = b@.subrange(p as int, b@.len() as int);
            let step = decode_parent(b, p);
        match step {
                None => {
                    assert(parse_parents(cur, (count - i) as nat) is None);
                    assert(whole is None);
                    assert(parse_query_result(b@) is None);
                    return Err(Error::Framing);
                },
                Some((x, k)) => {
                    proof {
                        assert(cur.subrange(k as int, cur.len() as int) =~= b@.subrange(p + k, b@.len() as int));
                        assert(((count - i) - 1) as nat == (count - (i + 1)) as nat);
                    }
                    let ghost before = acc@.map_values(|x: ParentEntities| x@);
                    let ghost xv = x@;
                    acc.push(x);
                    proof {
                        assert(acc@.map_values(|x: ParentEntities| x@) =~= before.push(xv));
                        match parse_parents(b@.subrange(p + k, b@.len() as int), (count - (i + 1)) as nat) {
                            Some((rest, k2)) => {
                                assert(before + (seq![xv] + rest) =~= acc@.map_values(|x: ParentEntities| x@) + rest);
                            },
                            None => {},
                        }
                    }
                        p = p + k;
                    i = i + 1;
                },
            }
        }
        let q = QueryResult { entities: acc };
        assert(q@ + Seq::<(Seq<u8>, KindsView)>::empty() =~= q@);
        if p != b.len() {
            return Err(Error::Framing);
        }
        Ok(q)
    }
}

} // verus!
