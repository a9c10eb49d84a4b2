//! Query results: parent → kind → entities, and the scan that fills them.
use vstd::prelude::*;

use crate::keyspace::{
    has_key, lemma_lex_irreflexive, lemma_lex_total, lemma_lex_transitive, lex_less, lemma_past_prefix, lemma_prefix_not_below,
    lex_lt, starts_with, Keyspace,
};
use crate::octets::{be8, copy_range, push_all, u64_to_be};
use crate::store::{entities_ok, make_rule_key, rule_key, Entries, KEY_LEN, READ};

verus! {

/// An entity as a query returns it: `(uuid, owner, payload)`.
pub type EntityView = (Seq<u8>, Seq<u8>, Seq<u8>);

/// The kinds of one parent, each with its entities.
pub type KindsView = Seq<(u8, Seq<EntityView>)>;

/// Parents, each with its kinds; parents ascend in byte order and kinds ascend.
pub type QueryView = Seq<(Seq<u8>, KindsView)>;

/// One entity of a query result.
pub struct Entity {
    pub uuid: Vec<u8>,
    pub user: Vec<u8>,
    pub value: Vec<u8>,
}

impl View for Entity {
    type V = EntityView;

    open spec fn view(&self) -> EntityView {
        (self.uuid@, self.user@, self.value@)
    }
}

/// The entities found for one kind of one parent.
pub struct KindEntities {
    pub kind: u8,
    pub entities: Vec<Entity>,
}

/// The views of a list of entities.
pub open spec fn entities_view(es: Seq<Entity>) -> Seq<EntityView> {
    es.map_values(|e: Entity| e@)
}

impl View for KindEntities {
    type V = (u8, Seq<EntityView>);

    open spec fn view(&self) -> (u8, Seq<EntityView>) {
        (self.kind, entities_view(self.entities@))
    }
}

/// The kinds found for one parent.
pub struct ParentEntities {
    pub parent: Vec<u8>,
    pub kinds: Vec<KindEntities>,
}

impl View for ParentEntities {
    type V = (Seq<u8>, KindsView);

    open spec fn view(&self) -> (Seq<u8>, KindsView) {
        (self.parent@, self.kinds@.map_values(|k: KindEntities| k@))
    }
}

/// The result of a storage_query: for each parent, for each kind, the entities found.
pub struct QueryResult {
    pub entities: Vec<ParentEntities>,
}

impl View for QueryResult {
    type V = QueryView;

    open spec fn view(&self) -> QueryView {
        self.entities@.map_values(|p: ParentEntities| p@)
    }
}

/// The position of the first parent of `r` that does not come before `parent`, or the length.
pub open spec fn parent_slot(r: QueryView, parent: Seq<u8>) -> int
    decreases r.len(),
{
    if r.len() == 0 || !lex_lt(r[0].0, parent) {
        0
    } else {
        1 + parent_slot(r.drop_first(), parent)
    }
}

/// The position of the first kind of `ks` that is not below `kind`, or the length.
pub open spec fn kind_slot(ks: KindsView, kind: u8) -> int
    decreases ks.len(),
{
    if ks.len() == 0 || ks[0].0 >= kind {
        0
    } else {
        1 + kind_slot(ks.drop_first(), kind)
    }
}

proof fn lemma_parent_slot(r: QueryView, parent: Seq<u8>, i: int)
    requires
        0 <= i <= r.len(),
        forall|j: int| 0 <= j < i ==> lex_lt((#[trigger] r[j]).0, parent),
        i < r.len() ==> !lex_lt(r[i].0, parent),
    ensures
        parent_slot(r, parent) == i,
    decreases r.len(),
{
    if r.len() > 0 && i > 0 {
        assert(lex_lt(r[0].0, parent));
        assert forall|j: int| 0 <= j < i - 1 implies lex_lt((#[trigger] r.drop_first()[j]).0, parent) by {
            assert(r.drop_first()[j] == r[j + 1]);
        }
        lemma_parent_slot(r.drop_first(), parent, i - 1);
    }
}

proof fn lemma_kind_slot(ks: KindsView, kind: u8, i: int)
    requires
        0 <= i <= ks.len(),
        forall|j: int| 0 <= j < i ==> (#[trigger] ks[j]).0 < kind,
        i < ks.len() ==> ks[i].0 >= kind,
    ensures
        kind_slot(ks, kind) == i,
    decreases ks.len(),
{
    if ks.len() > 0 && i > 0 {
        assert(ks[0].0 < kind);
        assert forall|j: int| 0 <= j < i - 1 implies (#[trigger] ks.drop_first()[j]).0 < kind by {
            assert(ks.drop_first()[j] == ks[j + 1]);
        }
        lemma_kind_slot(ks.drop_first(), kind, i - 1);
    }
}

/// Whether the kinds ascend strictly.
pub open spec fn kinds_ascend(ks: KindsView) -> bool {
    forall|i: int, j: int| 0 <= i < j < ks.len() ==> (#[trigger] ks[i]).0 < (#[trigger] ks[j]).0
}

/// Whether the parents of `q` ascend strictly in byte order and the kinds of each parent
/// ascend strictly.
pub open spec fn query_sorted(q: QueryView) -> bool {
    &&& forall|i: int, j: int| 0 <= i < j < q.len() ==> lex_lt((#[trigger] q[i]).0, (#[trigger] q[j]).0)
    &&& forall|i: int| 0 <= i < q.len() ==> kinds_ascend(#[trigger] q[i].1)
}

/// `r` with `rows` appended to the entities of `kind` under `parent`, adding the parent or the
/// kind in its place in ascending order where it is not there yet. No rows leave `r` as it is.
pub open spec fn add_rows(r: QueryView, parent: Seq<u8>, kind: u8, rows: Seq<EntityView>) -> QueryView {
    let i = parent_slot(r, parent);
    if rows.len() == 0 {
        r
    } else if i < r.len() && r[i].0 == parent {
        let kinds = r[i].1;
        let j = kind_slot(kinds, kind);
        if j < kinds.len() && kinds[j].0 == kind {
            r.update(i, (parent, kinds.update(j, (kind, kinds[j].1 + rows))))
        } else {
            r.update(i, (parent, kinds.insert(j, (kind, rows))))
        }
    } else {
        r.insert(i, (parent, seq![(kind, rows)]))
    }
}

proof fn lemma_parent_slot_bounds(r: QueryView, parent: Seq<u8>)
    ensures
        0 <= parent_slot(r, parent) <= r.len(),
        forall|j: int| 0 <= j < parent_slot(r, parent) ==> lex_lt((#[trigger] r[j]).0, parent),
        parent_slot(r, parent) < r.len() ==> !lex_lt(r[parent_slot(r, parent)].0, parent),
    decreases r.len(),
{
    if r.len() > 0 && lex_lt(r[0].0, parent) {
        lemma_parent_slot_bounds(r.drop_first(), parent);
        assert forall|j: int| 0 <= j < parent_slot(r, parent) implies lex_lt((#[trigger] r[j]).0, parent) by {
            if j > 0 {
                assert(r[j] == r.drop_first()[j - 1]);
            }
        }
        if parent_slot(r, parent) < r.len() {
            assert(r[parent_slot(r, parent)] == r.drop_first()[parent_slot(r, parent) - 1]);
        }
    }
}

proof fn lemma_kind_slot_bounds(ks: KindsView, kind: u8)
    ensures
        0 <= kind_slot(ks, kind) <= ks.len(),
        forall|j: int| 0 <= j < kind_slot(ks, kind) ==> (#[trigger] ks[j]).0 < kind,
        kind_slot(ks, kind) < ks.len() ==> ks[kind_slot(ks, kind)].0 >= kind,
    decreases ks.len(),
{
    if ks.len() > 0 && ks[0].0 < kind {
        lemma_kind_slot_bounds(ks.drop_first(), kind);
        assert forall|j: int| 0 <= j < kind_slot(ks, kind) implies (#[trigger] ks[j]).0 < kind by {
            if j > 0 {
                assert(ks[j] == ks.drop_first()[j - 1]);
            }
        }
        if kind_slot(ks, kind) < ks.len() {
            assert(ks[kind_slot(ks, kind)] == ks.drop_first()[kind_slot(ks, kind) - 1]);
        }
    }
}

proof fn lemma_kinds_insert(ks: KindsView, kind: u8, rows: Seq<EntityView>)
    requires
        kinds_ascend(ks),
    ensures
        ({
            let j = kind_slot(ks, kind);
            if j < ks.len() && ks[j].0 == kind {
                kinds_ascend(ks.update(j, (kind, ks[j].1 + rows)))
            } else {
                kinds_ascend(ks.insert(j, (kind, rows)))
            }
        }),
{
    lemma_kind_slot_bounds(ks, kind);
    let j = kind_slot(ks, kind);
    if j < ks.len() && ks[j].0 == kind {
        let n = ks.update(j, (kind, ks[j].1 + rows));
        assert forall|a: int, b: int| 0 <= a < b < n.len() implies (#[trigger] n[a]).0 < (#[trigger] n[b]).0 by {
            assert(ks[a].0 < ks[b].0);
        }
    } else {
        let n = ks.insert(j, (kind, rows));
        assert forall|a: int, b: int| 0 <= a < b < n.len() implies (#[trigger] n[a]).0 < (#[trigger] n[b]).0 by {
            if b < j {
                assert(ks[a].0 < ks[b].0);
            } else if b == j {
                assert(ks[a].0 < kind);
            } else if a == j {
                assert(ks[j].0 > kind);
                if b - 1 > j {
                    assert(ks[j].0 < ks[b - 1].0);
                }
            } else if a < j {
                assert(ks[a].0 < kind);
                assert(ks[j].0 > kind);
                if b - 1 > j {
                    assert(ks[j].0 < ks[b - 1].0);
                }
            } else {
                assert(ks[a - 1].0 < ks[b - 1].0);
            }
        }
    }
}

/// Adding rows keeps a sorted result sorted.
pub proof fn lemma_add_rows_sorted(r: QueryView, parent: Seq<u8>, kind: u8, rows: Seq<EntityView>)
    requires
        query_sorted(r),
    ensures
        query_sorted(add_rows(r, parent, kind, rows)),
{
    lemma_parent_slot_bounds(r, parent);
    let i = parent_slot(r, parent);
    let n = add_rows(r, parent, kind, rows);
    if rows.len() == 0 {
    } else if i < r.len() && r[i].0 == parent {
        lemma_kinds_insert(r[i].1, kind, rows);
        assert forall|a: int, b: int| 0 <= a < b < n.len() implies lex_lt((#[trigger] n[a]).0, (#[trigger] n[b]).0) by {
            assert(lex_lt(r[a].0, r[b].0));
        }
        assert forall|a: int| 0 <= a < n.len() implies kinds_ascend(#[trigger] n[a].1) by {
            if a != i {
                assert(n[a] == r[a]);
            }
        }
    } else {
        if i < r.len() {
            lemma_lex_total(r[i].0, parent);
        }
        assert forall|a: int, b: int| 0 <= a < b < n.len() implies lex_lt((#[trigger] n[a]).0, (#[trigger] n[b]).0) by {
            if b < i {
                assert(lex_lt(r[a].0, r[b].0));
            } else if b == i {
                assert(lex_lt(r[a].0, parent));
            } else if a == i {
                if b - 1 > i {
                    assert(lex_lt(r[i].0, r[b - 1].0));
                    lemma_lex_transitive(parent, r[i].0, r[b - 1].0);
                }
            } else if a < i {
                assert(lex_lt(r[a].0, parent));
                if b - 1 > i {
                    assert(lex_lt(r[i].0, r[b - 1].0));
                    lemma_lex_transitive(parent, r[i].0, r[b - 1].0);
                }
                lemma_lex_transitive(r[a].0, parent, r[b - 1].0);
            } else {
                assert(lex_lt(r[a - 1].0, r[b - 1].0));
            }
        }
        assert forall|a: int| 0 <= a < n.len() implies kinds_ascend(#[trigger] n[a].1) by {
            if a < i {
                assert(n[a] == r[a]);
            } else if a > i {
                assert(n[a] == r[a - 1]);
            }
        }
    }
}

/// Whether the entity entry `e` lies under `prefix` (`parent ∥ kind`) and `group` may read it.
pub open spec fn readable(access: Entries, group: Seq<u8>, prefix: Seq<u8>, e: (Seq<u8>, Seq<u8>)) -> bool {
    &&& e.0.len() == KEY_LEN
    &&& e.0.subrange(0, 17) == prefix
    &&& has_key(access, rule_key(e.0.subrange(17, 33), group, READ))
}

/// The entity that an entity entry describes.
pub open spec fn entity_of(e: (Seq<u8>, Seq<u8>)) -> EntityView {
    (e.0.subrange(17, 33), e.1.subrange(17, 33), e.1.subrange(33, e.1.len() as int))
}

/// The entities under `prefix` that `group` may read, in key order (ascending entity
/// identifier, which for time-ordered identifiers is creation order).
pub open spec fn rows_of(entities: Entries, access: Entries, group: Seq<u8>, prefix: Seq<u8>) -> Seq<
    EntityView,
>
    decreases entities.len(),
{
    if entities.len() == 0 {
        Seq::empty()
    } else {
        let rest = rows_of(entities.drop_last(), access, group, prefix);
        if readable(access, group, prefix, entities.last()) {
            rest.push(entity_of(entities.last()))
        } else {
            rest
        }
    }
}

proof fn lemma_rows_none(s: Entries, access: Entries, group: Seq<u8>, prefix: Seq<u8>)
    requires
        forall|j: int| 0 <= j < s.len() ==> !readable(access, group, prefix, #[trigger] s[j]),
    ensures
        rows_of(s, access, group, prefix) == Seq::<EntityView>::empty(),
    decreases s.len(),
{
    if s.len() > 0 {
        assert(!readable(access, group, prefix, s[s.len() - 1]));
        assert forall|j: int| 0 <= j < s.drop_last().len() implies !readable(
            access,
            group,
            prefix,
            #[trigger] s.drop_last()[j],
        ) by {
            assert(s.drop_last()[j] == s[j]);
        }
        lemma_rows_none(s.drop_last(), access, group, prefix);
    }
}

proof fn lemma_rows_tail(s: Entries, e: int, access: Entries, group: Seq<u8>, prefix: Seq<u8>)
    requires
        0 <= e <= s.len(),
        forall|j: int| e <= j < s.len() ==> !readable(access, group, prefix, #[trigger] s[j]),
    ensures
        rows_of(s, access, group, prefix) == rows_of(s.subrange(0, e), access, group, prefix),
    decreases s.len(),
{
    if s.len() == e {
        assert(s.subrange(0, e) =~= s);
    } else {
        assert(!readable(access, group, prefix, s[s.len() - 1]));
        assert forall|j: int| e <= j < s.drop_last().len() implies !readable(
            access,
            group,
            prefix,
            #[trigger] s.drop_last()[j],
        ) by {
            assert(s.drop_last()[j] == s[j]);
        }
        lemma_rows_tail(s.drop_last(), e, access, group, prefix);
        assert(s.drop_last().subrange(0, e) =~= s.subrange(0, e));
    }
}

/// Scans the entity keyspace for the children under `prefix` that `group` may read: seeks to
/// the first key not below `prefix` and reads forward while the keys begin with it.
pub fn scan_rows(entities: &Keyspace, access: &Keyspace, group: &[u8], prefix: &[u8]) -> (r: Vec<
    Entity,
>)
    requires
        entities.wf(),
        access.wf(),
        entities_ok(entities@),
        group@.len() == 16,
        prefix@.len() == 17,
    ensures
        entities_view(r@) == rows_of(entities@, access@, group@, prefix@),
{
    let ghost s = entities@;
    let start = entities.seek(prefix);
    proof {
        assert forall|j: int| 0 <= j < s.subrange(0, start as int).len() implies !readable(
            access@,
            group@,
            prefix@,
            #[trigger] s.subrange(0, start as int)[j],
        ) by {
            assert(s.subrange(0, start as int)[j] == s[j]);
            assert(lex_lt(s[j].0, prefix@));
            if readable(access@, group@, prefix@, s[j]) {
                lemma_prefix_not_below(s[j].0, prefix@);
            }
        }
        lemma_rows_none(s.subrange(0, start as int), access@, group@, prefix@);
    }
    let mut r: Vec<Entity> = Vec::new();
    let mut i: usize = start;
    let mut done = false;
    while !done && i < entities.len()
        invariant
            s == entities@,
            start <= i <= s.len(),
            entities.wf(),
            access.wf(),
            entities_ok(s),
            group@.len() == 16,
            prefix@.len() == 17,
            start < s.len() ==> !lex_lt(s[start as int].0, prefix@),
            done ==> i < s.len() && !starts_with(s[i as int].0, prefix@),
            entities_view(r@) == rows_of(s.subrange(0, i as int), access@, group@, prefix@),
        decreases s.len() - i + (if done { 0int } else { 1int }),
    {
        let e = entities.entry(i);
        let ghost sub = s.subrange(0, i + 1);
        assert(sub.drop_last() =~= s.subrange(0, i as int));
        assert(sub.last() == e@);
        assert(e.key@.len() == KEY_LEN && e.value@.len() >= 33) by {
            assert(s[i as int] == e@);
        }
        let head = copy_range(e.key.as_slice(), 0, 17);
        let under = crate::octets::ct_eq(head.as_slice(), prefix);
        if !under {
            done = true;
        } else {
            let id = copy_range(e.key.as_slice(), 17, 33);
            let rule = make_rule_key(id.as_slice(), group, READ);
            if access.contains_in_constant_time(rule.as_slice()) {
                let ent = Entity {
                    uuid: id,
                    user: copy_range(e.value.as_slice(), 17, 33),
                    value: copy_range(e.value.as_slice(), 33, e.value.len()),
                };
                let ghost before = r@;
                r.push(ent);
                assert(entities_view(r@) =~= entities_view(before).push(entity_of(e@)));
            }
            i = i + 1;
        }
    }
    proof {
        assert forall|j: int| i <= j < s.len() implies !readable(access@, group@, prefix@, #[trigger] s[j]) by {
            if readable(access@, group@, prefix@, s[j]) {
                assert(starts_with(s[j].0, prefix@));
                if j > i {
                    let a = s[i as int].0;
                    if lex_lt(a, prefix@) {
                        assert(i > start);
                        assert(lex_lt(s[start as int].0, a));
                        lemma_lex_transitive(s[start as int].0, a, prefix@);
                    }
                    lemma_past_prefix(a, prefix@, s[j].0);
                    assert(lex_lt(a, s[j].0));
                    lemma_lex_transitive(s[j].0, a, s[j].0);
                    lemma_lex_irreflexive(s[j].0);
                }
            }
        }
        lemma_rows_tail(s, i as int, access@, group@, prefix@);
    }
    r
}

impl QueryResult {
    /// An empty result.
    pub fn new() -> (r: QueryResult)
        ensures
            r@ == Seq::<(Seq<u8>, KindsView)>::empty(),
    {
        let r = QueryResult { entities: Vec::new() };
        assert(r@ =~= Seq::<(Seq<u8>, KindsView)>::empty());
        r
    }

    /// Appends `rows` to the entities of `kind` under `parent`.
    pub fn add(&mut self, parent: &[u8], kind: u8, rows: Vec<Entity>)
        ensures
            final(self)@ == add_rows(old(self)@, parent@, kind, entities_view(rows@)),
    {
        let ghost s = self@;
        let ghost rv = entities_view(rows@);
        if rows.len() == 0 {
            return;
        }
        let mut i: usize = 0;
        while i < self.entities.len() && lex_less(self.entities[i].parent.as_slice(), parent)
            invariant
                i <= self.entities@.len(),
                s == self@,
                forall|j: int| 0 <= j < i ==> lex_lt((#[trigger] s[j]).0, parent@),
            decreases self.entities@.len() - i,
        {
            assert(s[i as int] == self.entities@[i as int]@);
            i = i + 1;
        }
        proof {
            if i < self.entities@.len() {
                assert(s[i as int] == self.entities@[i as int]@);
            }
            lemma_parent_slot(s, parent@, i as int);
        }
        if i == self.entities.len() || !crate::octets::ct_eq(self.entities[i].parent.as_slice(), parent) {
            proof {
                if i < self.entities@.len() {
                    assert(s[i as int] == self.entities@[i as int]@);
                }
            }
            let mut kinds: Vec<KindEntities> = Vec::new();
            kinds.push(KindEntities { kind, entities: rows });
            let pe = ParentEntities { parent: copy_range(parent, 0, parent.len()), kinds };
            assert(pe@.1 =~= seq![(kind, rv)]);
            assert(parent@.subrange(0, parent@.len() as int) =~= parent@);
            self.entities.insert(i, pe);
            assert(self@ =~= s.insert(i as int, (parent@, seq![(kind, rv)])));
            return;
        }
        let mut pe = self.entities.remove(i);
        assert(pe@ == s[i as int]);
        let ghost ks = pe@.1;
        let mut j: usize = 0;
        while j < pe.kinds.len() && pe.kinds[j].kind < kind
            invariant
                j <= pe.kinds@.len(),
                ks == pe@.1,
                forall|m: int| 0 <= m < j ==> (#[trigger] ks[m]).0 < kind,
            decreases pe.kinds@.len() - j,
        {
            assert(ks[j as int] == pe.kinds@[j as int]@);
            j = j + 1;
        }
        proof {
            if j < pe.kinds@.len() {
                assert(ks[j as int] == pe.kinds@[j as int]@);
            }
            lemma_kind_slot(ks, kind, j as int);
        }
        if j == pe.kinds.len() || pe.kinds[j].kind != kind {
            proof {
                if j < pe.kinds@.len() {
                    assert(ks[j as int] == pe.kinds@[j as int]@);
                }
            }
            pe.kinds.insert(j, KindEntities { kind, entities: rows });
            assert(pe@.1 =~= ks.insert(j as int, (kind, rv)));
        } else {
            let mut ke = pe.kinds.remove(j);
            assert(ke@ == ks[j as int]);
            let ghost before = entities_view(ke.entities@);
            let mut rows = rows;
            ke.entities.append(&mut rows);
            assert(entities_view(ke.entities@) =~= before + rv);
            pe.kinds.insert(j, ke);
            assert(pe@.1 =~= ks.update(j as int, (kind, ks[j as int].1 + rv)));
        }
        assert(pe@.0 == parent@);
        self.entities.insert(i, pe);
        assert(self@ =~= add_rows(s, parent@, kind, rv));
    }
}

/// The encodings of the entities, one after the other.
pub open spec fn entities_bytes(es: Seq<EntityView>) -> Seq<u8>
    decreases es.len(),
{
    if es.len() == 0 {
        Seq::empty()
    } else {
        entities_bytes(es.drop_last()) + entity_bytes(es.last())
    }
}

/// The encodings of the kinds, one after the other.
pub open spec fn kinds_bytes(ks: KindsView) -> Seq<u8>
    decreases ks.len(),
{
    if ks.len() == 0 {
        Seq::empty()
    } else {
        kinds_bytes(ks.drop_last()) + kind_bytes(ks.last())
    }
}

/// The encodings of the parents, one after the other.
pub open spec fn parents_bytes(ps: QueryView) -> Seq<u8>
    decreases ps.len(),
{
    if ps.len() == 0 {
        Seq::empty()
    } else {
        parents_bytes(ps.drop_last()) + parent_bytes(ps.last())
    }
}

/// `uuid(16) ∥ user(16) ∥ len(8) ∥ value`.
pub open spec fn entity_bytes(e: EntityView) -> Seq<u8> {
    e.0 + e.1 + be8(e.2.len() as u64) + e.2
}

/// `kind(1) ∥ count(8) ∥ entities`.
pub open spec fn kind_bytes(k: (u8, Seq<EntityView>)) -> Seq<u8> {
    seq![k.0] + be8(k.1.len() as u64) + entities_bytes(k.1)
}

/// `parent(16) ∥ count(8) ∥ kinds`.
pub open spec fn parent_bytes(p: (Seq<u8>, KindsView)) -> Seq<u8> {
    p.0 + be8(p.1.len() as u64) + kinds_bytes(p.1)
}

/// The wire encoding of a query result: `count(8) ∥ parents`, every count and length a
/// big-endian 64-bit integer, parents and kinds in the result's order.
pub open spec fn query_bytes(q: QueryView) -> Seq<u8> {
    be8(q.len() as u64) + parents_bytes(q)
}

impl QueryResult {
    /// The wire encoding of this result.
    pub fn encode(&self) -> (r: Vec<u8>)
        ensures
            r@ == query_bytes(self@),
    {
        let mut r = u64_to_be(self.entities.len() as u64);
        let ghost q = self@;
        let mut i: usize = 0;
        while i < self.entities.len()
            invariant
                q == self@,
                i <= self.entities@.len(),
                r@ == be8(q.len() as u64) + parents_bytes(q.subrange(0, i as int)),
            decreases self.entities@.len() - i,
        {
            let pe = &self.entities[i];
            let ghost pv = pe@;
            let ghost start = r@;
            push_all(&mut r, pe.parent.as_slice());
            let n = u64_to_be(pe.kinds.len() as u64);
            push_all(&mut r, n.as_slice());
            let mut j: usize = 0;
            while j < pe.kinds.len()
                invariant
                    pv == pe@,
                    j <= pe.kinds@.len(),
                    r@ == start + pv.0 + be8(pv.1.len() as u64) + kinds_bytes(pv.1.subrange(0, j as int)),
                decreases pe.kinds@.len() - j,
            {
                let ke = &pe.kinds[j];
                let ghost kv = ke@;
                let ghost kstart = r@;
                r.push(ke.kind);
                let m = u64_to_be(ke.entities.len() as u64);
                push_all(&mut r, m.as_slice());
                let mut k: usize = 0;
                while k < ke.entities.len()
                    invariant
                        kv == ke@,
                        k <= ke.entities@.len(),
                        r@ == kstart + seq![kv.0] + be8(kv.1.len() as u64) + entities_bytes(kv.1.subrange(0, k as int)),
                    decreases ke.entities@.len() - k,
                {
                    let e = &ke.entities[k];
                    let ghost before = r@;
                    push_all(&mut r, e.uuid.as_slice());
                    push_all(&mut r, e.user.as_slice());
                    let l = u64_to_be(e.value.len() as u64);
                    push_all(&mut r, l.as_slice());
                    push_all(&mut r, e.value.as_slice());
                    proof {
                        let sub = kv.1.subrange(0, k + 1);
                        assert(sub.drop_last() =~= kv.1.subrange(0, k as int));
                        assert(sub.last() == e@);
                        assert(r@ =~= before + entity_bytes(e@));
                    }
                    k = k + 1;
                }
                proof {
                    assert(kv.1.subrange(0, k as int) =~= kv.1);
                    let sub = pv.1.subrange(0, j + 1);
                    assert(sub.drop_last() =~= pv.1.subrange(0, j as int));
                    assert(sub.last() == kv);
                    assert(r@ =~= kstart + kind_bytes(kv));
                }
                j = j + 1;
            }
            proof {
                assert(pv.1.subrange(0, j as int) =~= pv.1);
                let sub = q.subrange(0, i + 1);
                assert(sub.drop_last() =~= q.subrange(0, i as int));
                assert(sub.last() == pv);
                assert(r@ =~= start + parent_bytes(pv));
            }
            i = i + 1;
        }
        assert(q.subrange(0, i as int) =~= q);
        r
    }
}

} // verus!
