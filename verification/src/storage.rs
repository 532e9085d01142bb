//! A key-value map over byte-string keys, held in ascending key order.
//!
//! The map is the ledger's storage abstraction: lookups, overwriting inserts,
//! removals, and an iteration order that a cursor can resume. Its model is a
//! `Map<Seq<u8>, V::V>`; the iteration order is the lexicographic order of the
//! keys.

use vstd::prelude::*;
use crate::bytes::{byte_order, lemma_lex_irreflexive, lemma_lex_total, lemma_lex_transitive, lex_lt, Order};

verus! {

/// One stored row.
pub struct Entry<V> {
    pub key: Vec<u8>,
    pub value: V,
}

/// A map from byte strings to values, iterated in ascending key order.
pub struct StorageMap<V> {
    entries: Vec<Entry<V>>,
}

/// Strictly ascending in lexicographic order.
pub open spec fn ascending(keys: Seq<Seq<u8>>) -> bool {
    forall|i: int, j: int| 0 <= i < j < keys.len() ==> lex_lt(#[trigger] keys[i], #[trigger] keys[j])
}

/// In an ascending sequence every key stands at one index only.
pub proof fn lemma_ascending_distinct(keys: Seq<Seq<u8>>, i: int, j: int)
    requires
        ascending(keys),
        0 <= i < keys.len(),
        0 <= j < keys.len(),
        keys[i] == keys[j],
    ensures
        i == j,
{
    if i < j {
        lemma_lex_irreflexive(keys[i]);
    } else if j < i {
        lemma_lex_irreflexive(keys[j]);
    }
}

impl<V: View> View for StorageMap<V> {
    type V = Map<Seq<u8>, V::V>;

    /// The contents: each key with the view of its value.
    open spec fn view(&self) -> Map<Seq<u8>, V::V> {
        Map::new(
            |k: Seq<u8>| self.keys().contains(k),
            |k: Seq<u8>| self.values()[self.keys().index_of(k)],
        )
    }
}

impl<V: View> StorageMap<V> {
    /// The keys in iteration order.
    pub closed spec fn keys(&self) -> Seq<Seq<u8>> {
        self.entries@.map_values(|e: Entry<V>| e.key@)
    }

    /// The values, each at the index of its key.
    pub closed spec fn values(&self) -> Seq<V::V> {
        self.entries@.map_values(|e: Entry<V>| e.value@)
    }

    /// The keys are strictly ascending and each has its value.
    pub open spec fn wf(&self) -> bool {
        &&& self.keys().len() == self.values().len()
        &&& ascending(self.keys())
    }

    /// How the contents relate to the iteration order.
    pub proof fn lemma_rows(&self)
        requires
            self.wf(),
        ensures
            self@.dom().finite(),
            self@.dom() == self.keys().to_set(),
            forall|i: int|
                0 <= i < self.keys().len() ==> self@.contains_key(#[trigger] self.keys()[i])
                    && self@[self.keys()[i]] == self.values()[i],
            forall|k: Seq<u8>| self@.contains_key(k) <==> self.keys().contains(k),
    {
        let keys = self.keys();
        assert forall|i: int| 0 <= i < keys.len() implies self@.contains_key(#[trigger] keys[i])
            && self@[keys[i]] == self.values()[i] by {
            assert(keys.contains(keys[i]));
            let j = keys.index_of(keys[i]);
            lemma_ascending_distinct(keys, i, j);
        }
        assert(self@.dom() =~= keys.to_set());
        vstd::seq_lib::seq_to_set_is_finite(keys);
    }

    /// An empty map.
    pub fn new() -> (r: Self)
        ensures
            r.wf(),
            r@ == Map::<Seq<u8>, V::V>::empty(),
            r.keys() == Seq::<Seq<u8>>::empty(),
    {
        let r = StorageMap { entries: Vec::new() };
        assert(r.keys() =~= Seq::<Seq<u8>>::empty());
        assert(r@ =~= Map::<Seq<u8>, V::V>::empty());
        r
    }

    /// The number of rows.
    pub fn len(&self) -> (r: usize)
        ensures
            r == self.keys().len(),
            r == self.values().len(),
    {
        self.entries.len()
    }

    /// The key at position `i` of the iteration order.
    pub fn key_at(&self, i: usize) -> (r: &Vec<u8>)
        requires
            i < self.keys().len(),
        ensures
            r@ == self.keys()[i as int],
    {
        &self.entries[i].key
    }

    /// The value at position `i` of the iteration order.
    pub fn value_at(&self, i: usize) -> (r: &V)
        requires
            i < self.values().len(),
        ensures
            r@ == self.values()[i as int],
    {
        &self.entries[i].value
    }

    /// The number of keys that come before `key`: where iteration resumes
    /// for a cursor, and where `key` stands if it is present.
    pub fn lower_bound(&self, key: &[u8]) -> (p: usize)
        requires
            self.wf(),
        ensures
            p <= self.keys().len(),
            forall|j: int| 0 <= j < p ==> lex_lt(#[trigger] self.keys()[j], key@),
            forall|j: int| p <= j < self.keys().len() ==> !lex_lt(#[trigger] self.keys()[j], key@),
    {
        let mut i: usize = 0;
        while i < self.entries.len()
            invariant
                self.wf(),
                i <= self.keys().len(),
                self.keys().len() == self.entries@.len(),
                forall|j: int| 0 <= j < i ==> lex_lt(#[trigger] self.keys()[j], key@),
            decreases self.entries@.len() - i,
        {
            match byte_order(self.entries[i].key.as_slice(), key) {
                Order::Less => {},
                _ => {
                    proof {
                        let keys = self.keys();
                        assert(!lex_lt(keys[i as int], key@)) by {
                            if lex_lt(keys[i as int], key@) {
                                lemma_lex_irreflexive(key@);
                            }
                        }
                        assert forall|j: int| i <= j < keys.len() implies !lex_lt(
                            #[trigger] keys[j],
                            key@,
                        ) by {
                            if j > i && lex_lt(keys[j], key@) {
                                assert(lex_lt(keys[i as int], keys[j]));
                                lemma_lex_transitive(keys[i as int], keys[j], key@);
                            }
                        }
                    }
                    return i;
                },
            }
            i += 1;
        }
        i
    }

    /// The position of `key` in the iteration order, if it is present.
    pub fn find(&self, key: &[u8]) -> (r: Option<usize>)
        requires
            self.wf(),
        ensures
            match r {
                Some(i) => i < self.keys().len() && self.keys()[i as int] == key@,
                None => !self.keys().contains(key@),
            },
            r is Some <==> self@.contains_key(key@),
    {
        let p = self.lower_bound(key);
        if p < self.entries.len() {
            match byte_order(self.entries[p].key.as_slice(), key) {
                Order::Equal => {
                    assert(self.keys().contains(self.keys()[p as int]));
                    return Some(p);
                },
                _ => {},
            }
        }
        proof {
            let keys = self.keys();
            assert forall|j: int| 0 <= j < keys.len() implies keys[j] != key@ by {
                if keys[j] == key@ {
                    if j < p {
                        lemma_lex_irreflexive(key@);
                    } else if j > p {
                        assert(lex_lt(keys[p as int], keys[j]));
                    }
                }
            }
        }
        None
    }

    /// Whether `key` has a row.
    pub fn contains_key(&self, key: &[u8]) -> (r: bool)
        requires
            self.wf(),
        ensures
            r == self@.contains_key(key@),
    {
        self.find(key).is_some()
    }

    /// The value stored under `key`, if any.
    pub fn get(&self, key: &[u8]) -> (r: Option<&V>)
        requires
            self.wf(),
        ensures
            match r {
                Some(v) => self@.contains_key(key@) && v@ == self@[key@],
                None => !self@.contains_key(key@),
            },
    {
        match self.find(key) {
            Some(i) => {
                proof {
                    self.lemma_rows();
                }
                Some(&self.entries[i].value)
            },
            None => None,
        }
    }

    /// Stores `value` under `key`, replacing what was there.
    pub fn insert(&mut self, key: Vec<u8>, value: V)
        requires
            old(self).wf(),
        ensures
            final(self).wf(),
            final(self)@ == old(self)@.insert(key@, value@),
    {
        let p = self.lower_bound(key.as_slice());
        let ghost old_keys = self.keys();
        let ghost old_values = self.values();
        let ghost k = key@;
        let ghost v = value@;
        proof {
            self.lemma_rows();
        }
        let mut replace = false;
        if p < self.entries.len() {
            match byte_order(self.entries[p].key.as_slice(), key.as_slice()) {
                Order::Equal => {
                    replace = true;
                },
                _ => {},
            }
        }
        if replace {
            self.entries.set(p, Entry { key, value });
            proof {
                assert(old_keys[p as int] == k);
                assert(old_keys.contains(k));
                assert(self.keys() =~= old_keys);
                assert(self.values() =~= old_values.update(p as int, v));
                self.lemma_rows();
                assert forall|q: Seq<u8>| #[trigger]
                    self@.contains_key(q) == old(self)@.insert(k, v).contains_key(q) by {
                    assert(self@.contains_key(q) == old_keys.contains(q));
                    assert(old(self)@.contains_key(q) == old_keys.contains(q));
                }
                assert forall|q: Seq<u8>| self@.contains_key(q) implies #[trigger] self@[q] == old(
                    self,
                )@.insert(k, v)[q] by {
                    let i = choose|i: int| 0 <= i < old_keys.len() && old_keys[i] == q;
                    assert(self@[self.keys()[i]] == self.values()[i]);
                    assert(old(self)@[old_keys[i]] == old_values[i]);
                    if q == k {
                        lemma_ascending_distinct(old_keys, i, p as int);
                    }
                }
                assert(self@ =~= old(self)@.insert(k, v));
            }
        } else {
            self.entries.insert(p, Entry { key, value });
            proof {
                let keys = self.keys();
                assert(keys =~= old_keys.insert(p as int, k));
                assert(self.values() =~= old_values.insert(p as int, v));
                assert forall|j: int| p <= j < old_keys.len() implies lex_lt(
                    k,
                    #[trigger] old_keys[j],
                ) by {
                    lemma_lex_total(k, old_keys[j]);
                    if old_keys[j] == k {
                        if j > p {
                            assert(lex_lt(old_keys[p as int], old_keys[j]));
                        }
                    }
                }
                assert(ascending(keys)) by {
                    assert forall|i: int, j: int| 0 <= i < j < keys.len() implies lex_lt(
                        #[trigger] keys[i],
                        #[trigger] keys[j],
                    ) by {
                        if i < p && j == p {
                            assert(keys[i] == old_keys[i]);
                        } else if i < p && j > p {
                            assert(keys[i] == old_keys[i] && keys[j] == old_keys[j - 1]);
                        } else if i < p && j < p {
                            assert(keys[i] == old_keys[i] && keys[j] == old_keys[j]);
                        } else if i == p {
                            assert(keys[j] == old_keys[j - 1]);
                        } else {
                            assert(keys[i] == old_keys[i - 1] && keys[j] == old_keys[j - 1]);
                        }
                    }
                }
                self.lemma_rows();
                assert forall|q: Seq<u8>| #[trigger]
                    self@.contains_key(q) == old(self)@.insert(k, v).contains_key(q) by {
                    if keys.contains(q) {
                        let i = choose|i: int| 0 <= i < keys.len() && keys[i] == q;
                        if i < p {
                            assert(old_keys[i] == q);
                        } else if i > p {
                            assert(old_keys[i - 1] == q);
                        }
                    }
                    if old_keys.contains(q) {
                        let i = choose|i: int| 0 <= i < old_keys.len() && old_keys[i] == q;
                        if i < p {
                            assert(keys[i] == q);
                        } else {
                            assert(keys[i + 1] == q);
                        }
                    }
                    if q == k {
                        assert(keys[p as int] == q);
                    }
                }
                assert forall|q: Seq<u8>| self@.contains_key(q) implies #[trigger] self@[q] == old(
                    self,
                )@.insert(k, v)[q] by {
                    let i = choose|i: int| 0 <= i < keys.len() && keys[i] == q;
                    assert(self@[keys[i]] == self.values()[i]);
                    if i < p {
                        assert(old(self)@[old_keys[i]] == old_values[i]);
                        assert(lex_lt(old_keys[i], k));
                        lemma_lex_irreflexive(k);
                    } else if i > p {
                        assert(old(self)@[old_keys[i - 1]] == old_values[i - 1]);
                        assert(lex_lt(keys[p as int], keys[i]));
                        lemma_lex_irreflexive(k);
                    }
                }
                assert(self@ =~= old(self)@.insert(k, v));
            }
        }
    }

    /// Removes the row of `key`, if there is one, and hands its value out.
    pub fn remove(&mut self, key: &[u8]) -> (r: Option<V>)
        requires
            old(self).wf(),
        ensures
            final(self).wf(),
            final(self)@ == old(self)@.remove(key@),
            match r {
                Some(v) => old(self)@.contains_key(key@) && v@ == old(self)@[key@],
                None => !old(self)@.contains_key(key@),
            },
    {
        let ghost old_keys = self.keys();
        let ghost old_values = self.values();
        proof {
            self.lemma_rows();
        }
        match self.find(key) {
            None => {
                assert(self@ =~= old(self)@.remove(key@));
                None
            },
            Some(p) => {
                let entry = self.entries.remove(p);
                proof {
                    let keys = self.keys();
                    assert(keys =~= old_keys.remove(p as int));
                    assert(self.values() =~= old_values.remove(p as int));
                    assert(ascending(keys)) by {
                        assert forall|i: int, j: int| 0 <= i < j < keys.len() implies lex_lt(
                            #[trigger] keys[i],
                            #[trigger] keys[j],
                        ) by {
                            let oi = if i < p { i } else { i + 1 };
                            let oj = if j < p { j } else { j + 1 };
                            assert(keys[i] == old_keys[oi] && keys[j] == old_keys[oj]);
                        }
                    }
                    self.lemma_rows();
                    assert forall|q: Seq<u8>| #[trigger]
                        self@.contains_key(q) == old(self)@.remove(key@).contains_key(q) by {
                        if keys.contains(q) {
                            let i = choose|i: int| 0 <= i < keys.len() && keys[i] == q;
                            let oi = if i < p { i } else { i + 1 };
                            assert(old_keys[oi] == q);
                            if q == key@ {
                                lemma_ascending_distinct(old_keys, oi, p as int);
                            }
                        }
                        if old_keys.contains(q) && q != key@ {
                            let i = choose|i: int| 0 <= i < old_keys.len() && old_keys[i] == q;
                            if i < p {
                                assert(keys[i] == q);
                            } else {
                                assert(keys[i - 1] == q);
                            }
                        }
                    }
                    assert forall|q: Seq<u8>| self@.contains_key(q) implies #[trigger] self@[q]
                        == old(self)@.remove(key@)[q] by {
                        let i = choose|i: int| 0 <= i < keys.len() && keys[i] == q;
                        let oi = if i < p { i } else { i + 1 };
                        assert(self@[keys[i]] == self.values()[i]);
                        assert(old(self)@[old_keys[oi]] == old_values[oi]);
                    }
                    assert(self@ =~= old(self)@.remove(key@));
                    assert(old(self)@[old_keys[p as int]] == old_values[p as int]);
                }
                Some(entry.value)
            },
        }
    }
}

} // verus!
