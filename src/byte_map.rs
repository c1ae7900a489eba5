//! A map from byte strings to values, kept in lexicographic order of its keys.
use vstd::prelude::*;
use crate::order::{
    bytes_eq, bytes_lt, lemma_lex_irreflexive, lemma_lex_total, lemma_lex_transitive, lex_lt,
};

verus! {

/// Every key sorts strictly before each key that follows it.
pub open spec fn strictly_sorted(keys: Seq<Seq<u8>>) -> bool {
    forall|i: int, j: int| 0 <= i < j < keys.len() ==> lex_lt(#[trigger] keys[i], #[trigger] keys[j])
}

/// In a strictly sorted sequence each key stands at one place only.
pub proof fn lemma_sorted_unique(keys: Seq<Seq<u8>>, i: int, j: int)
    requires
        strictly_sorted(keys),
        0 <= i < keys.len(),
        0 <= j < keys.len(),
        keys[i] == keys[j],
    ensures
        i == j,
{
    if i < j {
        lemma_lex_irreflexive(keys[i]);
    } else if j < i {
        lemma_lex_irreflexive(keys[i]);
    }
}

/// A map from byte strings to values, kept sorted by key.
pub struct ByteMap<V: View> {
    entries: Vec<(Vec<u8>, V)>,
}

impl<V: View> View for ByteMap<V> {
    type V = Map<Seq<u8>, V::V>;

    closed spec fn view(&self) -> Map<Seq<u8>, V::V> {
        Map::new(
            |k: Seq<u8>| self.keys().contains(k),
            |k: Seq<u8>| self.vals()[self.keys().index_of(k)],
        )
    }
}

/// Values that can be copied with their view kept.
pub trait DeepCopy: View + Sized {
    fn deep_copy(&self) -> (r: Self)
        ensures
            r@ == self@,
    ;
}

impl DeepCopy for Vec<u8> {
    fn deep_copy(&self) -> (r: Self) {
        let r = self.clone();
        assert(r@ =~= self@);
        r
    }
}

impl<V: DeepCopy> DeepCopy for ByteMap<V> {
    fn deep_copy(&self) -> (r: Self) {
        proof {
            use_type_invariant(self);
            self.lemma_shape();
        }
        let mut entries: Vec<(Vec<u8>, V)> = Vec::new();
        let n = self.entries.len();
        let mut i: usize = 0;
        while i < n
            invariant
                n == self.entries@.len(),
                i <= n,
                entries@.map_values(|e: (Vec<u8>, V)| e.0@) =~= self.keys().subrange(0, i as int),
                entries@.map_values(|e: (Vec<u8>, V)| e.1@) =~= self.vals().subrange(0, i as int),
            decreases n - i,
        {
            assert(self.keys()[i as int] == self.entries@[i as int].0@);
            assert(self.vals()[i as int] == self.entries@[i as int].1@);
            let k = self.entries[i].0.deep_copy();
            let v = self.entries[i].1.deep_copy();
            let ghost prev = entries@;
            entries.push((k, v));
            assert(entries@.map_values(|e: (Vec<u8>, V)| e.0@) =~= prev.map_values(
                |e: (Vec<u8>, V)| e.0@,
            ).push(self.keys()[i as int]));
            assert(entries@.map_values(|e: (Vec<u8>, V)| e.1@) =~= prev.map_values(
                |e: (Vec<u8>, V)| e.1@,
            ).push(self.vals()[i as int]));
            assert(self.keys().subrange(0, i + 1) =~= self.keys().subrange(0, i as int).push(
                self.keys()[i as int],
            ));
            assert(self.vals().subrange(0, i + 1) =~= self.vals().subrange(0, i as int).push(
                self.vals()[i as int],
            ));
            i = i + 1;
        }
        let r = ByteMap { entries };
        assert(r.keys() =~= self.keys());
        assert(r.vals() =~= self.vals());
        assert(r@ =~= self@);
        r
    }
}

impl<V: View> ByteMap<V> {
    /// The keys, in ascending order.
    pub closed spec fn keys(&self) -> Seq<Seq<u8>> {
        self.entries@.map_values(|e: (Vec<u8>, V)| e.0@)
    }

    /// The values, in the order of their keys.
    pub closed spec fn vals(&self) -> Seq<V::V> {
        self.entries@.map_values(|e: (Vec<u8>, V)| e.1@)
    }

    #[verifier::type_invariant]
    closed spec fn inv(&self) -> bool {
        strictly_sorted(self.keys())
    }


    /// The keys are strictly sorted, one value stands beside each, and the map
    /// holds exactly these pairs.
    proof fn lemma_shape(&self)
        requires
            self.inv(),
        ensures
            strictly_sorted(self.keys()),
            self.keys().len() == self.vals().len(),
            forall|k: Seq<u8>| self@.contains_key(k) <==> self.keys().contains(k),
            forall|i: int|
                0 <= i < self.keys().len() ==> #[trigger] self@[self.keys()[i]] == self.vals()[i],
    {
        assert forall|i: int| 0 <= i < self.keys().len() implies #[trigger] self@[self.keys()[i]]
            == self.vals()[i] by {
            let k = self.keys()[i];
            assert(self.keys().contains(k));
            let j = self.keys().index_of(k);
            lemma_sorted_unique(self.keys(), i, j);
        }
    }

    pub fn new() -> (r: Self)
        ensures
            r@ == Map::<Seq<u8>, V::V>::empty(),
            r.keys().len() == 0,
    {
        let r = ByteMap { entries: Vec::new() };
        assert(r@ =~= Map::<Seq<u8>, V::V>::empty());
        r
    }

    /// Number of keys.
    pub fn len(&self) -> (r: usize)
        ensures
            r == self.keys().len(),
            r == self@.dom().len(),
            strictly_sorted(self.keys()),
            self.keys().len() == self.vals().len(),
            forall|k: Seq<u8>| self@.contains_key(k) <==> self.keys().contains(k),
            forall|i: int|
                0 <= i < self.keys().len() ==> #[trigger] self@[self.keys()[i]] == self.vals()[i],
    {
        proof {
            use_type_invariant(self);
            self.lemma_shape();
            self.lemma_dom_len();
        }
        self.entries.len()
    }

    proof fn lemma_dom_len(&self)
        requires
            self.inv(),
        ensures
            self@.dom().len() == self.keys().len(),
            self@.dom().finite(),
    {
        let keys = self.keys();
        assert(keys.no_duplicates()) by {
            assert forall|i: int, j: int|
                0 <= i < keys.len() && 0 <= j < keys.len() && i != j implies keys[i]
                != keys[j] by {
                if keys[i] == keys[j] {
                    lemma_sorted_unique(keys, i, j);
                }
            }
        }
        assert(self@.dom() =~= keys.to_set());
        keys.unique_seq_to_set();
    }

    /// The key at place `i` in ascending order.
    pub fn key_at(&self, i: usize) -> (r: &Vec<u8>)
        requires
            i < self.keys().len(),
        ensures
            r@ == self.keys()[i as int],
    {
        &self.entries[i].0
    }

    /// The value at place `i` in ascending order of the keys.
    pub fn value_at(&self, i: usize) -> (r: &V)
        requires
            i < self.keys().len(),
        ensures
            r@ == self.vals()[i as int],
    {
        &self.entries[i].1
    }

    /// The first place whose key does not sort before `k`.
    fn find(&self, k: &[u8]) -> (r: usize)
        ensures
            r <= self.keys().len(),
            forall|i: int| 0 <= i < r ==> lex_lt(#[trigger] self.keys()[i], k@),
            forall|i: int| r <= i < self.keys().len() ==> !lex_lt(#[trigger] self.keys()[i], k@),
    {
        proof {
            use_type_invariant(self);
        }
        let ghost keys = self.keys();
        let mut lo: usize = 0;
        let mut hi: usize = self.entries.len();
        while lo < hi
            invariant
                keys == self.keys(),
                strictly_sorted(keys),
                keys.len() == self.entries@.len(),
                lo <= hi <= keys.len(),
                forall|i: int| 0 <= i < lo ==> lex_lt(#[trigger] keys[i], k@),
                forall|i: int| hi <= i < keys.len() ==> !lex_lt(#[trigger] keys[i], k@),
            decreases hi - lo,
        {
            let mid = lo + (hi - lo) / 2;
            assert(keys[mid as int] == self.entries@[mid as int].0@);
            if bytes_lt(self.entries[mid].0.as_slice(), k) {
                assert forall|i: int| 0 <= i <= mid implies lex_lt(#[trigger] keys[i], k@) by {
                    if i < mid {
                        lemma_lex_transitive(keys[i], keys[mid as int], k@);
                    }
                }
                lo = mid + 1;
            } else {
                assert forall|i: int| mid <= i < keys.len() implies !lex_lt(
                    #[trigger] keys[i],
                    k@,
                ) by {
                    if i > mid && lex_lt(keys[i], k@) {
                        lemma_lex_transitive(keys[mid as int], keys[i], k@);
                    }
                }
                hi = mid;
            }
        }
        lo
    }

    /// The value stored under `k`, if any.
    pub fn get(&self, k: &[u8]) -> (r: Option<&V>)
        ensures
            match r {
                Some(v) => self@.contains_key(k@) && v@ == self@[k@],
                None => !self@.contains_key(k@),
            },
    {
        proof {
            use_type_invariant(self);
            self.lemma_shape();
        }
        let p = self.find(k);
        if p < self.entries.len() && bytes_eq(self.entries[p].0.as_slice(), k) {
            assert(self.keys()[p as int] == k@);
            Some(&self.entries[p].1)
        } else {
            proof {
                if self.keys().contains(k@) {
                    let i = self.keys().index_of(k@);
                    lemma_lex_irreflexive(k@);
                    if i > p {
                        assert(lex_lt(self.keys()[p as int], self.keys()[i]));
                    }
                }
            }
            None
        }
    }

    /// Whether `k` is a key.
    pub fn contains(&self, k: &[u8]) -> (r: bool)
        ensures
            r == self@.contains_key(k@),
    {
        match self.get(k) {
            Some(_) => true,
            None => false,
        }
    }

    /// Stores `v` under `k`, replacing what was there.
    pub fn insert(&mut self, k: Vec<u8>, v: V)
        ensures
            final(self)@ == old(self)@.insert(k@, v@),
    {
        proof {
            use_type_invariant(&*self);
            self.lemma_shape();
        }
        let ghost old_keys = self.keys();
        let ghost old_vals = self.vals();
        let ghost kv = k@;
        let ghost vv = v@;
        let p = self.find(k.as_slice());
        let mut entries: Vec<(Vec<u8>, V)> = Vec::new();
        std::mem::swap(&mut entries, &mut self.entries);
        assert(entries@.map_values(|e: (Vec<u8>, V)| e.0@) == old_keys);
        if p < entries.len() && bytes_eq(entries[p].0.as_slice(), k.as_slice()) {
            entries.set(p, (k, v));
            let ghost new_keys = entries@.map_values(|e: (Vec<u8>, V)| e.0@);
            assert(new_keys =~= old_keys);
            self.entries = entries;
            proof {
                self.lemma_shape();
                assert(self.vals() =~= old_vals.update(p as int, vv));
                assert(self@ =~= old(self)@.insert(kv, vv)) by {
                    assert forall|key: Seq<u8>| #[trigger] self@.contains_key(key) implies self@[key]
                        == old(self)@.insert(kv, vv)[key] by {
                        let i = self.keys().index_of(key);
                        assert(self@[self.keys()[i]] == self.vals()[i]);
                        assert(self.keys()[p as int] == kv);
                        if i != p {
                            assert(old(self)@[old_keys[i]] == old_vals[i]);
                            if key == kv {
                                lemma_sorted_unique(self.keys(), i, p as int);
                            }
                        }
                    }
                    assert forall|key: Seq<u8>| #[trigger] old(self)@.insert(kv, vv).contains_key(key)
                        implies self@.contains_key(key) by {
                        if key == kv {
                            assert(self.keys()[p as int] == key);
                        }
                    }
                }
            }
        } else {
            entries.insert(p, (k, v));
            let ghost new_keys = entries@.map_values(|e: (Vec<u8>, V)| e.0@);
            assert(new_keys =~= old_keys.insert(p as int, kv));
            proof {
                assert(!old_keys.contains(kv)) by {
                    if old_keys.contains(kv) {
                        let i = old_keys.index_of(kv);
                        lemma_lex_irreflexive(kv);
                        if i > p {
                            assert(lex_lt(old_keys[p as int], old_keys[i]));
                        }
                    }
                }
                assert forall|i: int, j: int| 0 <= i < j < new_keys.len() implies lex_lt(
                    #[trigger] new_keys[i],
                    #[trigger] new_keys[j],
                ) by {
                    if j == p {
                        assert(new_keys[i] == old_keys[i]);
                    } else if i == p {
                        assert(new_keys[j] == old_keys[j - 1]);
                        assert(!lex_lt(old_keys[j - 1], kv));
                        lemma_lex_total(old_keys[j - 1], kv);
                    } else if i < p && j > p {
                        assert(new_keys[j] == old_keys[j - 1]);
                        assert(new_keys[i] == old_keys[i]);
                    } else if i > p {
                        assert(new_keys[j] == old_keys[j - 1]);
                        assert(new_keys[i] == old_keys[i - 1]);
                    }
                }
            }
            self.entries = entries;
            proof {
                self.lemma_shape();
                assert(self.vals() =~= old_vals.insert(p as int, vv));
                assert(self@ =~= old(self)@.insert(kv, vv)) by {
                    assert forall|key: Seq<u8>| #[trigger] self@.contains_key(key) implies self@[key]
                        == old(self)@.insert(kv, vv)[key] by {
                        let i = self.keys().index_of(key);
                        assert(self@[self.keys()[i]] == self.vals()[i]);
                        if i < p {
                            assert(old(self)@[old_keys[i]] == old_vals[i]);
                        } else if i > p {
                            assert(old(self)@[old_keys[i - 1]] == old_vals[i - 1]);
                        }
                    }
                    assert forall|key: Seq<u8>| #[trigger] old(self)@.insert(kv, vv).contains_key(key)
                        implies self@.contains_key(key) by {
                        if key != kv {
                            let i = old_keys.index_of(key);
                            if i < p {
                                assert(self.keys()[i] == key);
                            } else {
                                assert(self.keys()[i + 1] == key);
                            }
                        } else {
                            assert(self.keys()[p as int] == key);
                        }
                    }
                }
            }
        }
    }

    /// Takes out the value stored under `k`, if any.
    pub fn remove(&mut self, k: &[u8]) -> (r: Option<V>)
        ensures
            final(self)@ == old(self)@.remove(k@),
            match r {
                Some(v) => old(self)@.contains_key(k@) && v@ == old(self)@[k@],
                None => !old(self)@.contains_key(k@),
            },
    {
        proof {
            use_type_invariant(&*self);
            self.lemma_shape();
        }
        let ghost old_keys = self.keys();
        let ghost old_vals = self.vals();
        let p = self.find(k);
        if p < self.entries.len() && bytes_eq(self.entries[p].0.as_slice(), k) {
            let mut entries: Vec<(Vec<u8>, V)> = Vec::new();
            std::mem::swap(&mut entries, &mut self.entries);
            assert(entries@.map_values(|e: (Vec<u8>, V)| e.0@) == old_keys);
            let taken = entries.remove(p);
            assert(taken.1@ == old_vals[p as int]);
            assert(old_keys[p as int] == k@);
            assert(old(self)@[old_keys[p as int]] == old_vals[p as int]);
            let ghost new_keys = entries@.map_values(|e: (Vec<u8>, V)| e.0@);
            assert(new_keys =~= old_keys.remove(p as int));
            assert forall|i: int, j: int| 0 <= i < j < new_keys.len() implies lex_lt(
                #[trigger] new_keys[i],
                #[trigger] new_keys[j],
            ) by {
                if i >= p {
                    assert(new_keys[i] == old_keys[i + 1]);
                }
                if j >= p {
                    assert(new_keys[j] == old_keys[j + 1]);
                }
            }
            self.entries = entries;
            proof {
                self.lemma_shape();
                assert(self.vals() =~= old_vals.remove(p as int));
                assert(self@ =~= old(self)@.remove(k@)) by {
                    assert forall|key: Seq<u8>| #[trigger] self@.contains_key(key) implies self@[key]
                        == old(self)@[key] && key != k@ by {
                        let i = self.keys().index_of(key);
                        assert(self@[self.keys()[i]] == self.vals()[i]);
                        if i < p {
                            assert(old(self)@[old_keys[i]] == old_vals[i]);
                            if key == k@ {
                                lemma_sorted_unique(old_keys, i, p as int);
                            }
                        } else {
                            assert(old(self)@[old_keys[i + 1]] == old_vals[i + 1]);
                            if key == k@ {
                                lemma_sorted_unique(old_keys, i + 1, p as int);
                            }
                        }
                    }
                    assert forall|key: Seq<u8>| #[trigger] old(self)@.remove(k@).contains_key(key)
                        implies self@.contains_key(key) by {
                        let i = old_keys.index_of(key);
                        if i < p {
                            assert(self.keys()[i] == key);
                        } else {
                            assert(i != p);
                            assert(self.keys()[i - 1] == key);
                        }
                    }
                }
            }
            Some(taken.1)
        } else {
            proof {
                if old_keys.contains(k@) {
                    let i = old_keys.index_of(k@);
                    lemma_lex_irreflexive(k@);
                    if i > p {
                        assert(lex_lt(old_keys[p as int], old_keys[i]));
                    }
                }
                assert(self@ =~= old(self)@.remove(k@));
            }
            None
        }
    }

    /// Drops every entry.
    pub fn clear(&mut self)
        ensures
            final(self)@ == Map::<Seq<u8>, V::V>::empty(),
    {
        self.entries = Vec::new();
        assert(self@ =~= Map::<Seq<u8>, V::V>::empty());
    }
}

} // verus!
