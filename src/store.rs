//! The store's keyspaces and the layouts of their entries.
use vstd::prelude::*;

use crate::keyspace::{has_entry, has_key, Keyspace};
use crate::octets::push_all;

verus! {

/// Permission byte of an access rule that grants reading and writing.
pub const READ_WRITE: u8 = 0;

/// Permission byte of an access rule that grants reading.
pub const READ: u8 = 1;

/// Length of an access-rule key and of an entity key.
pub const KEY_LEN: usize = 33;

/// Length of the fixed prefix of an entity value: grandparent, parent kind, owner.
pub const VALUE_HEAD_LEN: usize = 33;

/// Entries of a keyspace, in key order.
pub type Entries = Seq<(Seq<u8>, Seq<u8>)>;

/// `subject(16) ∥ group(16) ∥ permission(1)`.
pub open spec fn rule_key(subject: Seq<u8>, group: Seq<u8>, perm: u8) -> Seq<u8> {
    subject + group + seq![perm]
}

/// `parent(16) ∥ kind(1) ∥ entity(16)`.
pub open spec fn entity_key(parent: Seq<u8>, kind: u8, entity: Seq<u8>) -> Seq<u8> {
    parent + seq![kind] + entity
}

/// `grandparent(16) ∥ parent_kind(1) ∥ owner(16) ∥ payload`.
pub open spec fn entity_value(
    grandparent: Seq<u8>,
    parent_kind: u8,
    owner: Seq<u8>,
    payload: Seq<u8>,
) -> Seq<u8> {
    grandparent + seq![parent_kind] + owner + payload
}

/// Builds an access-rule key.
pub fn make_rule_key(subject: &[u8], group: &[u8], perm: u8) -> (r: Vec<u8>)
    ensures
        r@ == rule_key(subject@, group@, perm),
{
    let mut r: Vec<u8> = Vec::with_capacity(KEY_LEN);
    push_all(&mut r, subject);
    push_all(&mut r, group);
    r.push(perm);
    r
}

/// Builds an entity key.
pub fn make_entity_key(parent: &[u8], kind: u8, entity: &[u8]) -> (r: Vec<u8>)
    ensures
        r@ == entity_key(parent@, kind, entity@),
{
    let mut r: Vec<u8> = Vec::with_capacity(KEY_LEN);
    push_all(&mut r, parent);
    r.push(kind);
    push_all(&mut r, entity);
    r
}

/// Builds an entity value.
pub fn make_entity_value(grandparent: &[u8], parent_kind: u8, owner: &[u8], payload: &[u8]) -> (r:
    Vec<u8>)
    ensures
        r@ == entity_value(grandparent@, parent_kind, owner@, payload@),
{
    let mut r: Vec<u8> = Vec::with_capacity(VALUE_HEAD_LEN);
    push_all(&mut r, grandparent);
    r.push(parent_kind);
    push_all(&mut r, owner);
    push_all(&mut r, payload);
    r
}

/// Whether `new` is `old` with `v` stored under `k`: the entry under `k` replaced where there
/// was one, else one entry added; every other entry stays as it was, in order.
pub open spec fn stored(old: Entries, new: Entries, k: Seq<u8>, v: Seq<u8>) -> bool {
    if has_key(old, k) {
        exists|i: int| 0 <= i < old.len() && old[i].0 == k && new == old.update(i, (k, v))
    } else {
        exists|p: int| 0 <= p <= old.len() && new == old.insert(p, (k, v))
    }
}

/// What the store holds.
pub struct StoreView {
    /// username → user_uuid ∥ password_file
    pub credentials: Entries,
    /// user_uuid → user record
    pub users: Entries,
    /// subject ∥ group ∥ permission → (empty)
    pub access: Entries,
    /// parent ∥ kind ∥ entity → grandparent ∥ parent_kind ∥ owner ∥ payload
    pub entities: Entries,
}

/// The keyspaces of the store. The back-link and secret keyspaces are reserved and hold nothing.
pub struct Store {
    pub credentials: Keyspace,
    pub users: Keyspace,
    pub access: Keyspace,
    pub entities: Keyspace,
}

impl View for Store {
    type V = StoreView;

    open spec fn view(&self) -> StoreView {
        StoreView {
            credentials: self.credentials@,
            users: self.users@,
            access: self.access@,
            entities: self.entities@,
        }
    }
}

/// Whether every credential value starts with a user identifier.
pub open spec fn credentials_ok(s: Entries) -> bool {
    forall|i: int| 0 <= i < s.len() ==> (#[trigger] s[i]).1.len() >= 16
}

/// Whether every entity key has 33 bytes and every entity value at least 33.
pub open spec fn entities_ok(s: Entries) -> bool {
    forall|i: int|
        0 <= i < s.len() ==> (#[trigger] s[i]).0.len() == KEY_LEN && s[i].1.len()
            >= VALUE_HEAD_LEN
}

/// Storing a value that starts with a user identifier keeps every credential value so.
pub proof fn lemma_stored_credentials(old: Entries, new: Entries, k: Seq<u8>, v: Seq<u8>)
    requires
        stored(old, new, k, v),
        credentials_ok(old),
        v.len() >= 16,
    ensures
        credentials_ok(new),
{
    if has_key(old, k) {
        let i = choose|i: int| 0 <= i < old.len() && old[i].0 == k && new == old.update(i, (k, v));
        assert forall|j: int| 0 <= j < new.len() implies (#[trigger] new[j]).1.len() >= 16 by {
            if j != i {
                assert(new[j] == old[j]);
            }
        }
    } else {
        let p = choose|p: int| 0 <= p <= old.len() && new == old.insert(p, (k, v));
        assert forall|j: int| 0 <= j < new.len() implies (#[trigger] new[j]).1.len() >= 16 by {
            if j < p {
                assert(new[j] == old[j]);
            } else if j > p {
                assert(new[j] == old[j - 1]);
            }
        }
    }
}

/// Storing an entry of the entity layout keeps every entity entry in that layout.
pub proof fn lemma_stored_entities(old: Entries, new: Entries, k: Seq<u8>, v: Seq<u8>)
    requires
        stored(old, new, k, v),
        entities_ok(old),
        k.len() == KEY_LEN,
        v.len() >= VALUE_HEAD_LEN,
    ensures
        entities_ok(new),
{
    if has_key(old, k) {
        let i = choose|i: int| 0 <= i < old.len() && old[i].0 == k && new == old.update(i, (k, v));
        assert forall|j: int| 0 <= j < new.len() implies (#[trigger] new[j]).0.len() == KEY_LEN
            && new[j].1.len() >= VALUE_HEAD_LEN by {
            if j != i {
                assert(new[j] == old[j]);
            }
        }
    } else {
        let p = choose|p: int| 0 <= p <= old.len() && new == old.insert(p, (k, v));
        assert forall|j: int| 0 <= j < new.len() implies (#[trigger] new[j]).0.len() == KEY_LEN
            && new[j].1.len() >= VALUE_HEAD_LEN by {
            if j < p {
                assert(new[j] == old[j]);
            } else if j > p {
                assert(new[j] == old[j - 1]);
            }
        }
    }
}

/// After `v` is stored under `k`, the entry `(k, v)` is present, and every entry under another
/// key is present after exactly where it was present before.
pub proof fn lemma_stored_effect(old: Entries, new: Entries, k: Seq<u8>, v: Seq<u8>)
    requires
        stored(old, new, k, v),
    ensures
        has_key(new, k),
        has_entry(new, k, v),
        forall|k2: Seq<u8>, v2: Seq<u8>| k2 != k ==> (has_entry(new, k2, v2) == has_entry(old, k2, v2)),
{
    if has_key(old, k) {
        let i = choose|i: int| 0 <= i < old.len() && old[i].0 == k && new == old.update(i, (k, v));
        assert(new[i] == (k, v));
        assert forall|k2: Seq<u8>, v2: Seq<u8>| k2 != k implies (has_entry(new, k2, v2) == has_entry(old, k2, v2)) by {
            if has_entry(new, k2, v2) {
                let j = choose|j: int| 0 <= j < new.len() && (#[trigger] new[j]) == (k2, v2);
                assert(j != i);
                assert(old[j] == new[j]);
            }
            if has_entry(old, k2, v2) {
                let j = choose|j: int| 0 <= j < old.len() && (#[trigger] old[j]) == (k2, v2);
                assert(j != i);
                assert(new[j] == old[j]);
            }
        }
    } else {
        let p = choose|p: int| 0 <= p <= old.len() && new == old.insert(p, (k, v));
        assert(new[p] == (k, v));
        assert forall|k2: Seq<u8>, v2: Seq<u8>| k2 != k implies (has_entry(new, k2, v2) == has_entry(old, k2, v2)) by {
            if has_entry(new, k2, v2) {
                let j = choose|j: int| 0 <= j < new.len() && (#[trigger] new[j]) == (k2, v2);
                if j < p {
                    assert(old[j] == new[j]);
                } else {
                    assert(j != p);
                    assert(old[j - 1] == new[j]);
                }
            }
            if has_entry(old, k2, v2) {
                let j = choose|j: int| 0 <= j < old.len() && (#[trigger] old[j]) == (k2, v2);
                if j < p {
                    assert(new[j] == old[j]);
                } else {
                    assert(new[j + 1] == old[j]);
                }
            }
        }
    }
}

impl Store {
    /// Each keyspace is ordered, credential values start with a user identifier, and entity
    /// keys and values have their fixed layout.
    pub open spec fn wf(&self) -> bool {
        &&& self.credentials.wf()
        &&& self.users.wf()
        &&& self.access.wf()
        &&& self.entities.wf()
        &&& credentials_ok(self.credentials@)
        &&& entities_ok(self.entities@)
    }

    /// An empty store.
    pub fn new() -> (r: Store)
        ensures
            r.wf(),
            r@.credentials.len() == 0,
            r@.users.len() == 0,
            r@.access.len() == 0,
            r@.entities.len() == 0,
    {
        Store {
            credentials: Keyspace::new(),
            users: Keyspace::new(),
            access: Keyspace::new(),
            entities: Keyspace::new(),
        }
    }

    /// Stores `v` under `k` in one of the keyspaces.
    pub fn put(ks: &mut Keyspace, k: Vec<u8>, v: Vec<u8>)
        requires
            old(ks).wf(),
        ensures
            final(ks).wf(),
            stored(old(ks)@, final(ks)@, k@, v@),
    {
        let ghost (kk, vv) = (k@, v@);
        let pos = ks.insert(k, v);
        proof {
            if has_key(old(ks)@, kk) {
                assert(old(ks)@[pos as int].0 == kk);
            } else {
                assert(0 <= pos <= old(ks)@.len());
            }
        }
    }
}

} // verus!
