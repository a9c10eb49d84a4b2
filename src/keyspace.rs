//! An ordered key/value keyspace: entries kept in ascending byte order of their keys, each key
//! at most once. Prefix scans therefore yield their matches in key order.
use vstd::prelude::*;

use crate::octets::{copy_range, ct_eq};

verus! {

/// Lexicographic order on byte strings; a proper prefix comes first.
pub open spec fn lex_lt(a: Seq<u8>, b: Seq<u8>) -> bool
    decreases a.len(),
{
    if b.len() == 0 {
        false
    } else if a.len() == 0 {
        true
    } else if a[0] != b[0] {
        a[0] < b[0]
    } else {
        lex_lt(a.drop_first(), b.drop_first())
    }
}

/// No string comes before itself.
pub proof fn lemma_lex_irreflexive(a: Seq<u8>)
    ensures
        !lex_lt(a, a),
    decreases a.len(),
{
    if a.len() > 0 {
        lemma_lex_irreflexive(a.drop_first());
    }
}

/// Byte order is transitive.
pub proof fn lemma_lex_transitive(a: Seq<u8>, b: Seq<u8>, c: Seq<u8>)
    requires
        lex_lt(a, b),
        lex_lt(b, c),
    ensures
        lex_lt(a, c),
    decreases a.len(),
{
    if a.len() > 0 && b.len() > 0 && c.len() > 0 && a[0] == b[0] && b[0] == c[0] {
        lemma_lex_transitive(a.drop_first(), b.drop_first(), c.drop_first());
    }
}

/// Of two different strings, one comes before the other.
pub proof fn lemma_lex_total(a: Seq<u8>, b: Seq<u8>)
    ensures
        a == b || lex_lt(a, b) || lex_lt(b, a),
    decreases a.len(),
{
    if a.len() == 0 && b.len() == 0 {
        assert(a =~= b);
    } else if a.len() > 0 && b.len() > 0 && a[0] == b[0] {
        lemma_lex_total(a.drop_first(), b.drop_first());
        if a.drop_first() == b.drop_first() {
            assert(a.drop_first().len() == b.drop_first().len());
            assert(a.len() == b.len());
            assert forall|i: int| 0 <= i < a.len() implies a[i] == b[i] by {
                if i > 0 {
                    assert(a[i] == a.drop_first()[i - 1]);
                    assert(b[i] == b.drop_first()[i - 1]);
                }
            }
            assert(a =~= b);
        }
    }
}

/// Whether `a` begins with `p`.
pub open spec fn starts_with(a: Seq<u8>, p: Seq<u8>) -> bool {
    p.len() <= a.len() && a.subrange(0, p.len() as int) == p
}

proof fn lemma_starts_with_drop(a: Seq<u8>, p: Seq<u8>)
    requires
        a.len() > 0,
        p.len() > 0,
    ensures
        starts_with(a, p) == (a[0] == p[0] && starts_with(a.drop_first(), p.drop_first())),
{
    if starts_with(a, p) {
        assert(a.subrange(0, p.len() as int)[0] == a[0]);
        assert(a.drop_first().subrange(0, p.drop_first().len() as int) =~= a.subrange(0, p.len() as int).drop_first());
    }
    if a[0] == p[0] && starts_with(a.drop_first(), p.drop_first()) {
        assert forall|i: int| 0 <= i < p.len() implies a.subrange(0, p.len() as int)[i] == p[i] by {
            if i > 0 {
                assert(a.drop_first().subrange(0, p.drop_first().len() as int)[i - 1] == p.drop_first()[i - 1]);
            }
        }
        assert(a.subrange(0, p.len() as int) =~= p);
    }
}

/// A string that begins with `p` does not come before `p`.
pub proof fn lemma_prefix_not_below(a: Seq<u8>, p: Seq<u8>)
    requires
        starts_with(a, p),
    ensures
        !lex_lt(a, p),
    decreases p.len(),
{
    if p.len() > 0 {
        lemma_starts_with_drop(a, p);
        lemma_prefix_not_below(a.drop_first(), p.drop_first());
    }
}

/// A string that does not come before `p` and does not begin with `p` comes after every string
/// that begins with `p`.
pub proof fn lemma_past_prefix(a: Seq<u8>, p: Seq<u8>, b: Seq<u8>)
    requires
        !lex_lt(a, p),
        !starts_with(a, p),
        starts_with(b, p),
    ensures
        lex_lt(b, a),
    decreases p.len(),
{
    if p.len() == 0 {
        assert(a.subrange(0, 0) =~= p);
    } else {
        lemma_starts_with_drop(b, p);
        if a.len() > 0 {
            lemma_starts_with_drop(a, p);
            if a[0] == p[0] {
                lemma_past_prefix(a.drop_first(), p.drop_first(), b.drop_first());
            }
        }
    }
}

/// Whether `a` comes before `b` in byte order.
pub fn lex_less(a: &[u8], b: &[u8]) -> (r: bool)
    ensures
        r == lex_lt(a@, b@),
{
    let mut i: usize = 0;
    assert(a@.subrange(0, a@.len() as int) =~= a@);
    assert(b@.subrange(0, b@.len() as int) =~= b@);
    while i < a.len() && i < b.len() && a[i] == b[i]
        invariant
            i <= a@.len(),
            i <= b@.len(),
            lex_lt(a@, b@) == lex_lt(
                a@.subrange(i as int, a@.len() as int),
                b@.subrange(i as int, b@.len() as int),
            ),
        decreases a@.len() - i,
    {
        let ghost sa = a@.subrange(i as int, a@.len() as int);
        let ghost sb = b@.subrange(i as int, b@.len() as int);
        assert(sa.drop_first() =~= a@.subrange(i + 1, a@.len() as int));
        assert(sb.drop_first() =~= b@.subrange(i + 1, b@.len() as int));
        i = i + 1;
    }
    let ghost sa = a@.subrange(i as int, a@.len() as int);
    let ghost sb = b@.subrange(i as int, b@.len() as int);
    if i == b.len() {
        false
    } else if i == a.len() {
        true
    } else {
        assert(sa[0] == a@[i as int] && sb[0] == b@[i as int]);
        a[i] < b[i]
    }
}

/// One entry of a keyspace.
pub struct Entry {
    pub key: Vec<u8>,
    pub value: Vec<u8>,
}

impl View for Entry {
    type V = (Seq<u8>, Seq<u8>);

    open spec fn view(&self) -> (Seq<u8>, Seq<u8>) {
        (self.key@, self.value@)
    }
}

/// Whether the keys of `s` ascend strictly.
pub open spec fn keys_ascend(s: Seq<(Seq<u8>, Seq<u8>)>) -> bool {
    forall|i: int, j: int| 0 <= i < j < s.len() ==> lex_lt(#[trigger] s[i].0, #[trigger] s[j].0)
}

/// Whether some entry of `s` has key `k`.
pub open spec fn has_key(s: Seq<(Seq<u8>, Seq<u8>)>, k: Seq<u8>) -> bool {
    exists|i: int| 0 <= i < s.len() && (#[trigger] s[i]).0 == k
}

/// Whether `s` holds the entry `(k, v)`.
pub open spec fn has_entry(s: Seq<(Seq<u8>, Seq<u8>)>, k: Seq<u8>, v: Seq<u8>) -> bool {
    exists|i: int| 0 <= i < s.len() && (#[trigger] s[i]) == (k, v)
}

/// The value under `k` in `s`, where `s` has that key.
pub open spec fn value_of(s: Seq<(Seq<u8>, Seq<u8>)>, k: Seq<u8>) -> Seq<u8> {
    s[key_pos(s, k)].1
}

/// A position of key `k` in `s`, where `s` has that key.
pub open spec fn key_pos(s: Seq<(Seq<u8>, Seq<u8>)>, k: Seq<u8>) -> int {
    choose|i: int| 0 <= i < s.len() && (#[trigger] s[i]).0 == k
}

/// In a keyspace whose keys ascend, one key names at most one entry.
pub proof fn lemma_value_of(s: Seq<(Seq<u8>, Seq<u8>)>, i: int)
    requires
        keys_ascend(s),
        0 <= i < s.len(),
    ensures
        value_of(s, s[i].0) == s[i].1,
{
    let k = s[i].0;
    assert(has_key(s, k));
    let j = key_pos(s, k);
    assert(0 <= j < s.len() && s[j].0 == k);
    if j < i {
        assert(lex_lt(s[j].0, s[i].0));
        lemma_lex_irreflexive(k);
    } else if j > i {
        assert(lex_lt(s[i].0, s[j].0));
        lemma_lex_irreflexive(k);
    }
}

/// Whether some key of `s` has length `len` and holds `v` at `start..end`.
pub open spec fn key_field_in_use(s: Seq<(Seq<u8>, Seq<u8>)>, len: nat, start: int, end: int, v: Seq<u8>) -> bool {
    exists|i: int| 0 <= i < s.len() && (#[trigger] s[i]).0.len() == len && s[i].0.subrange(start, end) == v
}

/// An ordered keyspace.
pub struct Keyspace {
    entries: Vec<Entry>,
}

impl View for Keyspace {
    type V = Seq<(Seq<u8>, Seq<u8>)>;

    closed spec fn view(&self) -> Seq<(Seq<u8>, Seq<u8>)> {
        self.entries@.map_values(|e: Entry| e@)
    }
}

impl Keyspace {
    /// Keys ascend strictly.
    pub open spec fn wf(&self) -> bool {
        keys_ascend(self@)
    }

    /// An empty keyspace.
    pub fn new() -> (r: Keyspace)
        ensures
            r.wf(),
            r@ == Seq::<(Seq<u8>, Seq<u8>)>::empty(),
    {
        let r = Keyspace { entries: Vec::new() };
        assert(r@ =~= Seq::<(Seq<u8>, Seq<u8>)>::empty());
        r
    }

    /// Number of entries.
    pub fn len(&self) -> (r: usize)
        ensures
            r == self@.len(),
    {
        self.entries.len()
    }

    /// The entry at position `i`, in key order.
    pub fn entry(&self, i: usize) -> (r: &Entry)
        requires
            i < self@.len(),
        ensures
            r@ == self@[i as int],
    {
        &self.entries[i]
    }

    /// The position of the first entry whose key is not below `k`, and whether its key is `k`.
    fn find(&self, k: &[u8]) -> (r: (usize, bool))
        requires
            self.wf(),
        ensures
            r.0 <= self@.len(),
            forall|j: int| 0 <= j < r.0 ==> lex_lt(#[trigger] self@[j].0, k@),
            r.0 < self@.len() ==> !lex_lt(self@[r.0 as int].0, k@),
            r.1 == (r.0 < self@.len() && self@[r.0 as int].0 == k@),
            r.1 == has_key(self@, k@),
    {
        let mut i: usize = 0;
        while i < self.entries.len() && lex_less(self.entries[i].key.as_slice(), k)
            invariant
                i <= self@.len(),
                self@.len() == self.entries@.len(),
                forall|j: int| 0 <= j < self@.len() ==> #[trigger] self@[j] == self.entries@[j]@,
                forall|j: int| 0 <= j < i ==> lex_lt(#[trigger] self@[j].0, k@),
            decreases self@.len() - i,
        {
            i = i + 1;
        }
        let found = i < self.entries.len() && ct_eq(self.entries[i].key.as_slice(), k);
        proof {
            if has_key(self@, k@) {
                let j = choose|j: int| 0 <= j < self@.len() && (#[trigger] self@[j]).0 == k@;
                if j < i {
                    lemma_lex_irreflexive(k@);
                } else if j > i {
                    assert(lex_lt(self@[i as int].0, self@[j].0));
                }
            }
        }
        (i, found)
    }

    /// The position of the first entry whose key does not come before `k`.
    pub fn seek(&self, k: &[u8]) -> (r: usize)
        requires
            self.wf(),
        ensures
            r <= self@.len(),
            forall|j: int| 0 <= j < r ==> lex_lt(#[trigger] self@[j].0, k@),
            r < self@.len() ==> !lex_lt(self@[r as int].0, k@),
    {
        self.find(k).0
    }

    /// Whether some entry has key `k`.
    pub fn contains(&self, k: &[u8]) -> (r: bool)
        requires
            self.wf(),
        ensures
            r == has_key(self@, k@),
    {
        self.find(k).1
    }

    /// Whether some entry has key `k`, decided by comparing `k` with every key in full, so
    /// that the time taken does not depend on where, or whether, `k` is found.
    pub fn contains_in_constant_time(&self, k: &[u8]) -> (r: bool)
        ensures
            r == has_key(self@, k@),
    {
        let mut found = false;
        let mut i: usize = 0;
        while i < self.entries.len()
            invariant
                i <= self@.len(),
                self@.len() == self.entries@.len(),
                forall|j: int| 0 <= j < self@.len() ==> #[trigger] self@[j] == self.entries@[j]@,
                found == exists|j: int| 0 <= j < i && (#[trigger] self@[j]).0 == k@,
            decreases self@.len() - i,
        {
            let same = ct_eq(self.entries[i].key.as_slice(), k);
            assert(self@[i as int] == self.entries@[i as int]@);
            found = same || found;
            i = i + 1;
            proof {
                if !found {
                    assert(forall|j: int| 0 <= j < i ==> (#[trigger] self@[j]).0 != k@);
                } else if same {
                    assert(self@[i - 1].0 == k@);
                }
            }
        }
        found
    }

    /// Whether some key of length `len` holds `v` at `start..end`; every key is visited.
    pub fn has_key_field(&self, len: usize, start: usize, end: usize, v: &[u8]) -> (r: bool)
        requires
            start <= end <= len,
        ensures
            r == key_field_in_use(self@, len as nat, start as int, end as int, v@),
    {
        let mut found = false;
        let mut i: usize = 0;
        while i < self.entries.len()
            invariant
                start <= end <= len,
                i <= self@.len(),
                self@.len() == self.entries@.len(),
                forall|j: int| 0 <= j < self@.len() ==> #[trigger] self@[j] == self.entries@[j]@,
                found == exists|j: int|
                    0 <= j < i && (#[trigger] self@[j]).0.len() == len && self@[j].0.subrange(
                        start as int,
                        end as int,
                    ) == v@,
            decreases self@.len() - i,
        {
            let key = self.entries[i].key.as_slice();
            assert(self@[i as int] == self.entries@[i as int]@);
            let same = key.len() == len && {
                let field = copy_range(key, start, end);
                ct_eq(field.as_slice(), v)
            };
            found = same || found;
            i = i + 1;
        }
        found
    }

    /// The value stored under `k`, if any.
    pub fn get(&self, k: &[u8]) -> (r: Option<Vec<u8>>)
        requires
            self.wf(),
        ensures
            r is Some == has_key(self@, k@),
            r matches Some(v) ==> has_entry(self@, k@, v@) && v@ == value_of(self@, k@),
    {
        let (i, found) = self.find(k);
        if found {
            let v = self.entries[i].value.clone();
            assert(self@[i as int] == (k@, v@));
            proof {
                lemma_value_of(self@, i as int);
            }
            Some(v)
        } else {
            None
        }
    }

    /// Stores `v` under `k`, replacing the value there if any; every other entry stays.
    pub fn insert(&mut self, k: Vec<u8>, v: Vec<u8>) -> (pos: usize)
        requires
            old(self).wf(),
        ensures
            final(self).wf(),
            pos <= old(self)@.len(),
            has_key(old(self)@, k@) ==> pos < old(self)@.len() && old(self)@[pos as int].0 == k@
                && final(self)@ == old(self)@.update(pos as int, (k@, v@)),
            !has_key(old(self)@, k@) ==> final(self)@ == old(self)@.insert(pos as int, (k@, v@)),
    {
        let (i, found) = self.find(k.as_slice());
        let ghost s = self@;
        let ghost kv = (k@, v@);
        if found {
            self.entries.set(i, Entry { key: k, value: v });
            assert(self@ =~= s.update(i as int, kv));
            assert(keys_ascend(self@)) by {
                assert forall|a: int, b: int| 0 <= a < b < self@.len() implies lex_lt(
                    #[trigger] self@[a].0,
                    #[trigger] self@[b].0,
                ) by {
                    assert(lex_lt(s[a].0, s[b].0));
                }
            }
        } else {
            self.entries.insert(i, Entry { key: k, value: v });
            assert(self@ =~= s.insert(i as int, kv));
            assert(keys_ascend(self@)) by {
                if i < s.len() {
                    lemma_lex_total(s[i as int].0, kv.0);
                }
                assert forall|a: int, b: int| 0 <= a < b < self@.len() implies lex_lt(
                    #[trigger] self@[a].0,
                    #[trigger] self@[b].0,
                ) by {
                    if b < i {
                        assert(lex_lt(s[a].0, s[b].0));
                    } else if b == i {
                        assert(lex_lt(s[a].0, kv.0));
                    } else if a == i {
                        if b - 1 > i {
                            assert(lex_lt(s[i as int].0, s[b - 1].0));
                            lemma_lex_transitive(kv.0, s[i as int].0, s[b - 1].0);
                        }
                    } else if a < i {
                        assert(lex_lt(s[a].0, s[b - 1].0)) by {
                            assert(lex_lt(s[a].0, kv.0));
                            lemma_lex_total(s[i as int].0, kv.0);
                            if b - 1 > i {
                                assert(lex_lt(s[i as int].0, s[b - 1].0));
                                lemma_lex_transitive(kv.0, s[i as int].0, s[b - 1].0);
                            }
                            lemma_lex_transitive(s[a].0, kv.0, s[b - 1].0);
                        }
                    } else {
                        assert(lex_lt(s[a - 1].0, s[b - 1].0));
                    }
                }
            }
        }
        i
    }

    /// Removes the entry under `k`, if any, and returns its value; every other entry stays.
    pub fn remove(&mut self, k: &[u8]) -> (r: Option<Vec<u8>>)
        requires
            old(self).wf(),
        ensures
            final(self).wf(),
            r is Some == has_key(old(self)@, k@),
            r is None ==> final(self)@ == old(self)@,
            r matches Some(v) ==> v@ == value_of(old(self)@, k@) && exists|i: int|
                0 <= i < old(self)@.len() && old(self)@[i] == (k@, v@) && final(self)@ == old(
                    self,
                )@.remove(i),
    {
        let (i, found) = self.find(k);
        let ghost s = self@;
        if found {
            let e = self.entries.remove(i);
            assert(self@ =~= s.remove(i as int));
            assert(s[i as int] == (k@, e.value@));
            proof {
                lemma_value_of(s, i as int);
            }
            assert(keys_ascend(self@)) by {
                assert forall|a: int, b: int| 0 <= a < b < self@.len() implies lex_lt(
                    #[trigger] self@[a].0,
                    #[trigger] self@[b].0,
                ) by {
                    if a < i && b >= i {
                        assert(lex_lt(s[a].0, s[b + 1].0));
                    } else if a >= i {
                        assert(lex_lt(s[a + 1].0, s[b + 1].0));
                    } else {
                        assert(lex_lt(s[a].0, s[b].0));
                    }
                }
            }
            Some(e.value)
        } else {
            None
        }
    }
}

} // verus!
