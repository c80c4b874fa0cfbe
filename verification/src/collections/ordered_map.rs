//! A map kept as a vector of entries in ascending key order.
//!
//! Its enumeration order is the canonical order of its key set, so it never
//! depends on the order in which the entries were inserted.

use crate::collections::ordered_key::{
    ascending, canonical, lemma_ascending_distinct, lemma_canonical_of, OrderedKey,
};
use vstd::prelude::*;

verus! {

#[derive(Debug, Clone)]
pub struct OrderedMap<K: OrderedKey, V> {
    keys: Vec<K>,
    values: Vec<V>,
}

impl<K: OrderedKey, V> View for OrderedMap<K, V> {
    type V = Map<K::V, V>;

    closed spec fn view(&self) -> Map<K::V, V> {
        Map::new(
            |k: K::V| self.stored_keys().contains(k),
            |k: K::V| self.values@[self.stored_keys().index_of(k)],
        )
    }
}

impl<K: OrderedKey, V> OrderedMap<K, V> {
    /// The views of the stored keys, in storage order.
    pub closed spec fn stored_keys(&self) -> Seq<K::V> {
        self.keys@.map_values(|k: K| k@)
    }

    /// The entries are stored in strictly ascending key order.
    pub closed spec fn wf(&self) -> bool {
        &&& self.keys.len() == self.values.len()
        &&& ascending::<K>(self.stored_keys())
    }

    /// The keys of the map in ascending order.
    pub open spec fn ordered_keys(&self) -> Seq<K::V> {
        canonical::<K>(self@.dom())
    }

    /// What holds of the ascending enumeration of a well-formed map.
    pub proof fn lemma_ordered_keys(&self)
        requires
            self.wf(),
        ensures
            self@.dom().finite(),
            self.ordered_keys().len() == self@.len(),
            self.ordered_keys().no_duplicates(),
            ascending::<K>(self.ordered_keys()),
            self.ordered_keys().to_set() == self@.dom(),
            forall|i: int|
                0 <= i < self.ordered_keys().len() ==> self@.contains_key(
                    #[trigger] self.ordered_keys()[i],
                ),
            forall|k: K::V| self@.contains_key(k) ==> self.ordered_keys().contains(k),
    {
        self.lemma_stored_is_ordered();
        let s = self.stored_keys();
        lemma_ascending_distinct::<K>(s);
        s.unique_seq_to_set();
        vstd::seq_lib::seq_to_set_is_finite(s);
        assert forall|i: int| 0 <= i < s.len() implies self@.contains_key(#[trigger] s[i]) by {
            assert(s.contains(s[i]));
        }
    }

    proof fn lemma_stored_is_ordered(&self)
        requires
            self.wf(),
        ensures
            self.ordered_keys() == self.stored_keys(),
            self@.dom() == self.stored_keys().to_set(),
    {
        let s = self.stored_keys();
        assert(self@.dom() =~= s.to_set());
        lemma_canonical_of::<K>(s);
    }

    proof fn lemma_entry(&self, i: int)
        requires
            self.wf(),
            0 <= i < self.keys.len(),
        ensures
            self@.contains_key(self.stored_keys()[i]),
            self@[self.stored_keys()[i]] == self.values@[i],
            self.stored_keys()[i] == self.keys@[i]@,
    {
        let s = self.stored_keys();
        lemma_ascending_distinct::<K>(s);
        assert(s.contains(s[i]));
        let j = s.index_of(s[i]);
        assert(0 <= j < s.len() && s[j] == s[i]);
    }

    /// A map without entries.
    pub fn new() -> (m: Self)
        ensures
            m.wf(),
            m@ == Map::<K::V, V>::empty(),
    {
        let m = OrderedMap { keys: Vec::new(), values: Vec::new() };
        assert(m@ =~= Map::<K::V, V>::empty());
        m
    }

    /// The number of entries.
    pub fn len(&self) -> (n: usize)
        requires
            self.wf(),
        ensures
            n == self@.len(),
            n == self.ordered_keys().len(),
    {
        proof {
            self.lemma_ordered_keys();
            self.lemma_stored_is_ordered();
        }
        self.keys.len()
    }

    /// Where `key` is stored, or where it would have to be inserted.
    fn search(&self, key: &K) -> (r: (bool, usize))
        requires
            self.wf(),
        ensures
            r.1 <= self.keys.len(),
            r.0 ==> r.1 < self.keys.len() && self.stored_keys()[r.1 as int] == key@,
            !r.0 ==> !self.stored_keys().contains(key@),
            !r.0 ==> forall|i: int| 0 <= i < r.1 ==> K::key_lt(self.stored_keys()[i], key@),
            !r.0 ==> forall|i: int|
                r.1 <= i < self.keys.len() ==> K::key_lt(key@, self.stored_keys()[i]),
    {
        let ghost s = self.stored_keys();
        let mut lo: usize = 0;
        let mut hi: usize = self.keys.len();
        while lo < hi
            invariant
                self.wf(),
                s == self.stored_keys(),
                0 <= lo <= hi <= self.keys.len(),
                forall|i: int| 0 <= i < lo ==> K::key_lt(s[i], key@),
                forall|i: int| hi <= i < s.len() ==> K::key_lt(key@, s[i]),
            decreases hi - lo,
        {
            let mid: usize = lo + (hi - lo) / 2;
            let probe = &self.keys[mid];
            assert(probe@ == s[mid as int]);
            if probe.same(key) {
                return (true, mid);
            } else if probe.before(key) {
                proof {
                    assert forall|i: int| 0 <= i < mid + 1 implies K::key_lt(s[i], key@) by {
                        if i < mid {
                            assert(K::key_lt(s[i], s[mid as int]));
                            K::lemma_transitive(s[i], s[mid as int], key@);
                        }
                    }
                }
                lo = mid + 1;
            } else {
                proof {
                    K::lemma_connected(s[mid as int], key@);
                    assert forall|i: int| mid <= i < s.len() implies K::key_lt(key@, s[i]) by {
                        if mid < i {
                            assert(K::key_lt(s[mid as int], s[i]));
                            K::lemma_transitive(key@, s[mid as int], s[i]);
                        }
                    }
                }
                hi = mid;
            }
        }
        proof {
            if s.contains(key@) {
                let i = s.index_of(key@);
                K::lemma_irreflexive(key@);
            }
        }
        (false, lo)
    }

    /// The place of `key` in the ascending enumeration, if the map holds it.
    pub fn position(&self, key: &K) -> (r: Option<usize>)
        requires
            self.wf(),
        ensures
            match r {
                Some(i) => i < self.ordered_keys().len() && self.ordered_keys()[i as int] == key@,
                None => !self@.contains_key(key@),
            },
    {
        proof {
            self.lemma_stored_is_ordered();
        }
        let (found, at) = self.search(key);
        if found {
            Some(at)
        } else {
            None
        }
    }

    /// Whether the map holds an entry for `key`.
    pub fn contains_key(&self, key: &K) -> (r: bool)
        requires
            self.wf(),
        ensures
            r == self@.contains_key(key@),
    {
        let (found, at) = self.search(key);
        proof {
            if found {
                self.lemma_entry(at as int);
            }
        }
        found
    }

    /// The value stored under `key`, if there is one.
    pub fn get(&self, key: &K) -> (r: Option<&V>)
        requires
            self.wf(),
        ensures
            match r {
                Some(v) => self@.contains_key(key@) && *v == self@[key@],
                None => !self@.contains_key(key@),
            },
    {
        let (found, at) = self.search(key);
        if found {
            proof {
                self.lemma_entry(at as int);
            }
            Some(&self.values[at])
        } else {
            None
        }
    }

    /// The key at place `i` of the ascending enumeration.
    pub fn key_at(&self, i: usize) -> (k: &K)
        requires
            self.wf(),
            i < self@.len(),
        ensures
            k@ == self.ordered_keys()[i as int],
            self@.contains_key(k@),
    {
        proof {
            self.lemma_ordered_keys();
            self.lemma_stored_is_ordered();
            self.lemma_entry(i as int);
        }
        &self.keys[i]
    }

    /// The value stored under the key at place `i` of the ascending enumeration.
    pub fn value_at(&self, i: usize) -> (v: &V)
        requires
            self.wf(),
            i < self@.len(),
        ensures
            self@.contains_key(self.ordered_keys()[i as int]),
            *v == self@[self.ordered_keys()[i as int]],
    {
        proof {
            self.lemma_ordered_keys();
            self.lemma_stored_is_ordered();
            self.lemma_entry(i as int);
        }
        &self.values[i]
    }

    /// Stores `value` under `key`, replacing what was stored under it before.
    pub fn insert(&mut self, key: K, value: V)
        requires
            old(self).wf(),
        ensures
            final(self).wf(),
            final(self)@ == old(self)@.insert(key@, value),
    {
        let (found, at) = self.search(&key);
        let ghost before = *self;
        let ghost s = self.stored_keys();
        if found {
            self.values[at] = value;
            proof {
                assert(self.stored_keys() == s);
                lemma_ascending_distinct::<K>(s);
                assert forall|k: K::V| #[trigger] self@.contains_key(k) implies self@[k]
                    == before@.insert(key@, value)[k] by {
                    let j = s.index_of(k);
                    assert(0 <= j < s.len() && s[j] == k);
                }
                assert(self@ =~= before@.insert(key@, value));
            }
        } else {
            self.keys.insert(at, key);
            self.values.insert(at, value);
            proof {
                let t = self.stored_keys();
                assert(t =~= s.insert(at as int, key@));
                assert forall|i: int, j: int| 0 <= i < j < t.len() implies #[trigger] K::key_lt(
                    t[i],
                    t[j],
                ) by {
                    if j < at {
                        assert(K::key_lt(s[i], s[j]));
                    } else if j == at {
                    } else if i < at {
                        assert(K::key_lt(s[i], s[j - 1]));
                    } else if i == at {
                    } else {
                        assert(K::key_lt(s[i - 1], s[j - 1]));
                    }
                }
                lemma_ascending_distinct::<K>(s);
                lemma_ascending_distinct::<K>(t);
                assert forall|k: K::V| t.contains(k) <==> (k == key@ || s.contains(k)) by {
                    if t.contains(k) {
                        let j = t.index_of(k);
                        assert(0 <= j < t.len() && t[j] == k);
                        if j < at {
                            assert(s[j] == k);
                        } else if j > at {
                            assert(s[j - 1] == k);
                        }
                    }
                    if s.contains(k) {
                        let j = s.index_of(k);
                        assert(0 <= j < s.len() && s[j] == k);
                        if j < at {
                            assert(t[j] == k);
                        } else {
                            assert(t[j + 1] == k);
                        }
                    }
                    if k == key@ {
                        assert(t[at as int] == k);
                    }
                }
                assert forall|k: K::V| #[trigger] self@.contains_key(k) implies self@[k]
                    == before@.insert(key@, value)[k] by {
                    let j = t.index_of(k);
                    assert(0 <= j < t.len() && t[j] == k);
                    if j < at {
                        assert(s[j] == k);
                        let j0 = s.index_of(k);
                        assert(0 <= j0 < s.len() && s[j0] == k);
                    } else if j > at {
                        assert(s[j - 1] == k);
                        let j0 = s.index_of(k);
                        assert(0 <= j0 < s.len() && s[j0] == k);
                    }
                }
                assert(self@ =~= before@.insert(key@, value));
            }
        }
    }

    /// The values in ascending order of their keys.
    pub fn values(&self) -> (r: Vec<&V>)
        requires
            self.wf(),
        ensures
            r@.len() == self@.len(),
            forall|i: int|
                0 <= i < r@.len() ==> self@.contains_key(self.ordered_keys()[i])
                    && *#[trigger] r@[i] == self@[self.ordered_keys()[i]],
    {
        let n = self.len();
        let mut out: Vec<&V> = Vec::new();
        let mut i: usize = 0;
        while i < n
            invariant
                self.wf(),
                n == self@.len(),
                n == self.ordered_keys().len(),
                i <= n,
                out@.len() == i,
                forall|j: int|
                    0 <= j < i ==> self@.contains_key(self.ordered_keys()[j])
                        && *#[trigger] out@[j] == self@[self.ordered_keys()[j]],
            decreases n - i,
        {
            let ghost so_far = out@;
            let value = self.value_at(i);
            out.push(value);
            proof {
                assert forall|j: int| 0 <= j < i + 1 implies self@.contains_key(
                    self.ordered_keys()[j],
                ) && *#[trigger] out@[j] == self@[self.ordered_keys()[j]] by {
                    if j < i {
                        assert(out@[j] == so_far[j]);
                    }
                }
            }
            i = i + 1;
        }
        out
    }
}

} // verus!
