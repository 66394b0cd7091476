//! A keyed byte store with its entries held in ascending key order.
//!
//! The ledger keeps every record in one store of this kind.  The store is a
//! sorted association list from byte-string keys to byte-string values; its
//! abstract content is the map [`Store::contents`].  Keys are unique, reads
//! never mutate, and a write replaces the value of an existing key or inserts
//! a fresh entry at its ordered position.

use vstd::prelude::*;
use crate::bytes::{lex_lt, lex_less, bytes_eq, copy_bytes, lemma_lex_lt_trichotomy,
    lemma_lex_lt_transitive};

verus! {

/// The views of a sequence of owned entries.
pub open spec fn entry_views(s: Seq<(Vec<u8>, Vec<u8>)>) -> Seq<(Seq<u8>, Seq<u8>)> {
    s.map_values(|p: (Vec<u8>, Vec<u8>)| (p.0@, p.1@))
}

/// Some entry of `s` holds the key `k`.
pub open spec fn has_key(s: Seq<(Seq<u8>, Seq<u8>)>, k: Seq<u8>) -> bool {
    exists|i: int| 0 <= i < s.len() && s[i].0 == k
}

/// An index of an entry of `s` holding the key `k`.
pub open spec fn index_of_key(s: Seq<(Seq<u8>, Seq<u8>)>, k: Seq<u8>) -> int {
    choose|i: int| 0 <= i < s.len() && s[i].0 == k
}

/// The map an entry sequence stands for.
pub open spec fn map_of(s: Seq<(Seq<u8>, Seq<u8>)>) -> Map<Seq<u8>, Seq<u8>> {
    Map::new(|k: Seq<u8>| has_key(s, k), |k: Seq<u8>| s[index_of_key(s, k)].1)
}

/// The keys of `s` are strictly ascending.
pub open spec fn sorted(s: Seq<(Seq<u8>, Seq<u8>)>) -> bool {
    forall|i: int, j: int| 0 <= i < j < s.len() ==> lex_lt(#[trigger] s[i].0, #[trigger] s[j].0)
}

/// No two entries of `s` hold the same key.
pub open spec fn distinct_keys(s: Seq<(Seq<u8>, Seq<u8>)>) -> bool {
    forall|i: int, j: int| 0 <= i < j < s.len() ==> (#[trigger] s[i].0) != (#[trigger] s[j].0)
}

/// Strictly ascending keys are pairwise distinct.
pub proof fn lemma_sorted_distinct(s: Seq<(Seq<u8>, Seq<u8>)>)
    requires
        sorted(s),
    ensures
        distinct_keys(s),
{
    assert forall|i: int, j: int| 0 <= i < j < s.len() implies (#[trigger] s[i].0)
        != (#[trigger] s[j].0) by {
        lemma_lex_lt_trichotomy(s[i].0, s[j].0);
    }
}

/// With distinct keys, the entry at `i` is what the map holds at its key.
pub proof fn lemma_entry_value(s: Seq<(Seq<u8>, Seq<u8>)>, i: int)
    requires
        distinct_keys(s),
        0 <= i < s.len(),
    ensures
        map_of(s).contains_key(s[i].0),
        map_of(s)[s[i].0] == s[i].1,
{
    let k = s[i].0;
    assert(has_key(s, k));
    let j = index_of_key(s, k);
    assert(0 <= j < s.len() && s[j].0 == k);
    if i != j {
        assert(s[i].0 != s[j].0);
    }
}

/// The invite ledger's record store.
pub struct Store {
    entries: Vec<(Vec<u8>, Vec<u8>)>,
}

impl Store {
    /// The store's entries, by view, in storage order.
    pub closed spec fn entries_seq(self) -> Seq<(Seq<u8>, Seq<u8>)> {
        entry_views(self.entries@)
    }

    /// The abstract content of the store: a map from keys to values.
    pub open spec fn contents(self) -> Map<Seq<u8>, Seq<u8>> {
        map_of(self.entries_seq())
    }

    /// Well-formed: entries stand in strictly ascending key order.
    pub open spec fn wf(self) -> bool {
        sorted(self.entries_seq())
    }

    /// Creates an empty store.
    pub fn new() -> (r: Store)
        ensures
            r.wf(),
            r.contents() == Map::<Seq<u8>, Seq<u8>>::empty(),
    {
        let r = Store { entries: Vec::new() };
        proof {
            assert(r.contents() =~= Map::<Seq<u8>, Seq<u8>>::empty());
        }
        r
    }

    /// How many entries the store holds.
    pub fn num_entries(&self) -> (r: usize)
        ensures
            r == self.entries_seq().len(),
    {
        self.entries.len()
    }

    /// The key of the entry at position `i`.
    pub fn key_at(&self, i: usize) -> (r: Vec<u8>)
        requires
            i < self.entries_seq().len(),
        ensures
            r@ == self.entries_seq()[i as int].0,
    {
        copy_bytes(self.entries[i].0.as_slice())
    }

    /// The value of the entry at position `i`.
    pub fn value_at(&self, i: usize) -> (r: Vec<u8>)
        requires
            i < self.entries_seq().len(),
        ensures
            r@ == self.entries_seq()[i as int].1,
    {
        copy_bytes(self.entries[i].1.as_slice())
    }

    /// Reads the value stored under `key`, if any.  Never mutates.
    pub fn get(&self, key: &[u8]) -> (r: Option<Vec<u8>>)
        requires
            self.wf(),
        ensures
            match r {
                Some(v) => self.contents().contains_key(key@) && self.contents()[key@] == v@,
                None => !self.contents().contains_key(key@),
            },
    {
        proof {
            lemma_sorted_distinct(self.entries_seq());
        }
        let ghost s = self.entries_seq();
        let n = self.entries.len();
        let mut i: usize = 0;
        while i < n
            invariant
                0 <= i <= n,
                n == s.len(),
                s == self.entries_seq(),
                distinct_keys(s),
                forall|j: int| 0 <= j < i ==> (#[trigger] s[j].0) != key@,
            decreases n - i,
        {
            let e = &self.entries[i];
            if bytes_eq(e.0.as_slice(), key) {
                proof {
                    lemma_entry_value(s, i as int);
                }
                return Some(copy_bytes(e.1.as_slice()));
            }
            i = i + 1;
        }
        assert(!has_key(s, key@));
        None
    }

    /// The first position whose key is not below `key`; all keys before it
    /// are strictly below `key`.
    fn find_slot(&self, key: &[u8]) -> (i: usize)
        requires
            self.wf(),
        ensures
            0 <= i <= self.entries_seq().len(),
            forall|j: int| 0 <= j < i ==> lex_lt(#[trigger] self.entries_seq()[j].0, key@),
            i < self.entries_seq().len() ==> !lex_lt(self.entries_seq()[i as int].0, key@),
    {
        let ghost s = self.entries_seq();
        let n = self.entries.len();
        let mut i: usize = 0;
        while i < n
            invariant
                0 <= i <= n,
                n == s.len(),
                s == self.entries_seq(),
                forall|j: int| 0 <= j < i ==> lex_lt(#[trigger] s[j].0, key@),
            decreases n - i,
        {
            if !lex_less(self.entries[i].0.as_slice(), key) {
                return i;
            }
            i = i + 1;
        }
        i
    }

    /// Writes `value` under `key`: replaces the value of an existing entry,
    /// or inserts a fresh entry at its ordered position.
    pub fn put(&mut self, key: &[u8], value: &[u8])
        requires
            old(self).wf(),
        ensures
            final(self).wf(),
            final(self).contents() == old(self).contents().insert(key@, value@),
    {
        proof {
            lemma_sorted_distinct(old(self).entries_seq());
        }
        let ghost s0 = self.entries_seq();
        let pair = (copy_bytes(key), copy_bytes(value));
        let i = self.find_slot(key);
        let n = self.entries.len();
        let replace = i < n && bytes_eq(self.entries[i].0.as_slice(), key);
        if replace {
            self.entries.remove(i);
        }
        self.entries.insert(i, pair);
        proof {
            let s2 = self.entries_seq();
            let ghost pk = (key@, value@);
            if replace {
                assert(s2 =~= s0.update(i as int, pk));
            } else {
                assert(s2 =~= s0.insert(i as int, pk));
                if i < s0.len() {
                    lemma_lex_lt_trichotomy(key@, s0[i as int].0);
                }
                assert forall|j: int| 0 <= j < s0.len() implies (#[trigger] s0[j].0)
                    != pk.0 by {
                    if j >= i {
                        assert(i < s0.len());
                        if j > i {
                            assert(lex_lt(s0[i as int].0, s0[j].0));
                            lemma_lex_lt_transitive(pk.0, s0[i as int].0, s0[j].0);
                        }
                        lemma_lex_lt_trichotomy(pk.0, s0[j].0);
                    } else {
                        lemma_lex_lt_trichotomy(s0[j].0, pk.0);
                    }
                }
                assert(!has_key(s0, pk.0));
            }
            lemma_put_shape(s0, s2, i as int, pk, replace);
            lemma_sorted_distinct(s2);
            lemma_put_contents(s0, s2, i as int, pk, replace);
        }
    }
}

/// After a write at slot `i`, the entries are again strictly ascending.
proof fn lemma_put_shape(
    s0: Seq<(Seq<u8>, Seq<u8>)>,
    s2: Seq<(Seq<u8>, Seq<u8>)>,
    i: int,
    pk: (Seq<u8>, Seq<u8>),
    replace: bool,
)
    requires
        sorted(s0),
        0 <= i <= s0.len(),
        forall|j: int| 0 <= j < i ==> lex_lt(#[trigger] s0[j].0, pk.0),
        replace ==> i < s0.len() && s0[i].0 == pk.0 && s2 == s0.update(i, pk),
        !replace ==> (i < s0.len() ==> lex_lt(pk.0, s0[i].0)) && s2 == s0.insert(i, pk),
    ensures
        sorted(s2),
{
    if replace {
        assert forall|a: int, b: int| 0 <= a < b < s2.len() implies lex_lt(
            #[trigger] s2[a].0,
            #[trigger] s2[b].0,
        ) by {
            assert(s2[a].0 == s0[a].0);
            assert(s2[b].0 == s0[b].0);
        }
    } else {
        assert forall|a: int, b: int| 0 <= a < b < s2.len() implies lex_lt(
            #[trigger] s2[a].0,
            #[trigger] s2[b].0,
        ) by {
            if a < i && b < i {
                assert(s2[a].0 == s0[a].0 && s2[b].0 == s0[b].0);
            } else if a < i && b == i {
                assert(s2[a].0 == s0[a].0 && s2[b].0 == pk.0);
            } else if a < i && b > i {
                assert(s2[a].0 == s0[a].0 && s2[b].0 == s0[b - 1].0);
                assert(b - 1 >= i > a);
            } else if a == i && b > i {
                assert(s2[a].0 == pk.0 && s2[b].0 == s0[b - 1].0);
                if b - 1 > i {
                    lemma_lex_lt_transitive(pk.0, s0[i].0, s0[b - 1].0);
                }
            } else {
                assert(a > i && b > i);
                assert(s2[a].0 == s0[a - 1].0 && s2[b].0 == s0[b - 1].0);
            }
        }
    }
}

/// After a write at slot `i`, the store's map is the old map with the key
/// bound to the new value.
proof fn lemma_put_contents(
    s0: Seq<(Seq<u8>, Seq<u8>)>,
    s2: Seq<(Seq<u8>, Seq<u8>)>,
    i: int,
    pk: (Seq<u8>, Seq<u8>),
    replace: bool,
)
    requires
        distinct_keys(s0),
        distinct_keys(s2),
        0 <= i <= s0.len(),
        replace ==> i < s0.len() && s0[i].0 == pk.0 && s2 == s0.update(i, pk),
        !replace ==> !has_key(s0, pk.0) && s2 == s0.insert(i, pk),
    ensures
        map_of(s2) == map_of(s0).insert(pk.0, pk.1),
{
    let m0 = map_of(s0);
    let m2 = map_of(s2);
    assert(0 <= i < s2.len() && s2[i] == pk);
    lemma_entry_value(s2, i);
    assert forall|k: Seq<u8>| #[trigger] m2.contains_key(k) implies m0.insert(
        pk.0,
        pk.1,
    ).contains_key(k) && m2[k] == m0.insert(pk.0, pk.1)[k] by {
        let j2 = choose|j2: int| 0 <= j2 < s2.len() && s2[j2].0 == k;
        if k == pk.0 {
            assert(m2[k] == pk.1);
        } else {
            assert(j2 != i);
            let j0: int = if replace {
                j2
            } else if j2 < i {
                j2
            } else {
                j2 - 1
            };
            assert(0 <= j0 < s0.len() && s0[j0] == s2[j2]);
            assert(has_key(s0, k));
            lemma_entry_value(s0, j0);
            lemma_entry_value(s2, j2);
        }
    }
    assert forall|k: Seq<u8>| #[trigger] m0.insert(pk.0, pk.1).contains_key(k) implies
        m2.contains_key(k) by {
        if k == pk.0 {
            assert(m2.contains_key(k));
        } else {
            assert(m0.contains_key(k));
            let j0 = choose|j0: int| 0 <= j0 < s0.len() && s0[j0].0 == k;
            let j2: int = if replace {
                j0
            } else if j0 < i {
                j0
            } else {
                j0 + 1
            };
            if replace && j0 == i {
                assert(false);
            }
            assert(0 <= j2 < s2.len() && s2[j2] == s0[j0]);
            assert(has_key(s2, k));
        }
    }
    assert(m2 =~= m0.insert(pk.0, pk.1));
}

} // verus!
