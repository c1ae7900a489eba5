//! Iterators over the entries, keys and values of an index, in ascending key order.
use vstd::prelude::*;
use crate::byte_map::{ByteMap, strictly_sorted};
use crate::codec::{BinaryKey, BinaryValue};
use crate::db::{RawAccess, Space};
use crate::error::{Error, ErrorKind};
use crate::order::{bytes_have_prefix, bytes_lt, has_prefix, lex_lt};

verus! {

/// A key's bytes fall in an iteration: they start with `prefix`, and do not sort
/// before `from` where a start is given.
pub open spec fn in_range(kb: Seq<u8>, prefix: Seq<u8>, from: Option<Seq<u8>>) -> bool {
    has_prefix(kb, prefix) && match from {
        Some(f) => !lex_lt(kb, f),
        None => true,
    }
}

/// Every stored key in range, and its value, decode.
pub open spec fn all_decode<K: BinaryKey, V: BinaryValue>(
    sp: Space,
    prefix: Seq<u8>,
    from: Option<Seq<u8>>,
) -> bool {
    forall|kb: Seq<u8>|
        #![trigger sp.contains_key(kb)]
        sp.contains_key(kb) && in_range(kb, prefix, from) ==> K::key_of(kb) is Some && V::value_of(
            sp[kb],
        ) is Some
}

/// `items` are exactly the decoded entries of `sp` in range, in ascending key order.
pub open spec fn lists_entries<K: BinaryKey, V: BinaryValue>(
    sp: Space,
    prefix: Seq<u8>,
    from: Option<Seq<u8>>,
    items: Seq<(K::V, V::V)>,
) -> bool {
    &&& forall|i: int|
        #![trigger items[i]]
        0 <= i < items.len() ==> in_range(K::key_bytes(items[i].0), prefix, from) && sp.contains_key(
            K::key_bytes(items[i].0),
        ) && V::value_of(sp[K::key_bytes(items[i].0)]) == Some(items[i].1)
    &&& forall|kb: Seq<u8>|
        #![trigger sp.contains_key(kb)]
        sp.contains_key(kb) && in_range(kb, prefix, from) ==> exists|i: int|
            0 <= i < items.len() && K::key_bytes(#[trigger] items[i].0) == kb
    &&& forall|i: int, j: int|
        0 <= i < j < items.len() ==> lex_lt(
            K::key_bytes(#[trigger] items[i].0),
            K::key_bytes(#[trigger] items[j].0),
        )
}

/// Iterator over the key-value pairs of an index.
pub struct Entries<K, V> {
    items: Vec<(K, V)>,
}

/// Iterator over the keys of an index.
pub struct Keys<K> {
    items: Vec<K>,
}

/// Iterator over the values of an index.
pub struct Values<V> {
    items: Vec<V>,
}

impl<K: BinaryKey, V: BinaryValue> Entries<K, V> {
    /// What is left to yield, in order.
    pub closed spec fn remaining(&self) -> Seq<(K::V, V::V)> {
        Seq::new(
            self.items@.len(),
            |i: int| (self.items@[self.items@.len() - 1 - i].0@, self.items@[self.items@.len() - 1 - i].1@),
        )
    }

    /// Iterates over the index at the keyspace `a`, from the key `from` on where one
    /// is given. Fails with `DecodeFailure` where a key or value in range does not
    /// decode.
    pub fn new<A: RawAccess>(access: &A, a: &[u8], from: Option<&K>) -> (r: Result<Self, Error>)
        ensures
            match r {
                Ok(e) => all_decode::<K, V>(access.space(a@), Seq::empty(), from_bytes::<K>(from))
                    && lists_entries::<K, V>(access.space(a@), Seq::empty(), from_bytes::<K>(from), e.remaining()),
                Err(e) => !all_decode::<K, V>(access.space(a@), Seq::empty(), from_bytes::<K>(from))
                    && e.kind == ErrorKind::DecodeFailure,
            },
    {
        let empty: Vec<u8> = Vec::new();
        Self::with_prefix_bytes(access, a, empty.as_slice(), from)
    }

    /// Iterates over the keys of the index at `a` that start with the bytes of
    /// `prefix`, from the key `from` on where one is given.
    pub fn with_prefix<A: RawAccess, P: BinaryKey>(access: &A, a: &[u8], prefix: &P, from: Option<&K>) -> (r: Result<Self, Error>)
        ensures
            match r {
                Ok(e) => all_decode::<K, V>(access.space(a@), P::key_bytes(prefix@), from_bytes::<K>(from))
                    && lists_entries::<K, V>(access.space(a@), P::key_bytes(prefix@), from_bytes::<K>(from), e.remaining()),
                Err(e) => !all_decode::<K, V>(access.space(a@), P::key_bytes(prefix@), from_bytes::<K>(from))
                    && e.kind == ErrorKind::DecodeFailure,
            },
    {
        let pb = prefix.to_key_bytes();
        Self::with_prefix_bytes(access, a, pb.as_slice(), from)
    }

    fn with_prefix_bytes<A: RawAccess>(access: &A, a: &[u8], prefix: &[u8], from: Option<&K>) -> (r: Result<Self, Error>)
        ensures
            match r {
                Ok(e) => all_decode::<K, V>(access.space(a@), prefix@, from_bytes::<K>(from))
                    && lists_entries::<K, V>(access.space(a@), prefix@, from_bytes::<K>(from), e.remaining()),
                Err(e) => !all_decode::<K, V>(access.space(a@), prefix@, from_bytes::<K>(from))
                    && e.kind == ErrorKind::DecodeFailure,
            },
    {
        let space = access.space_raw(a);
        let fb: Option<Vec<u8>> = match from {
            Some(f) => Some(f.to_key_bytes()),
            None => None,
        };
        let ghost fr = from_bytes::<K>(from);
        assert(match fb { Some(v) => fr == Some(v@), None => fr is None });
        Self::collect(&space, prefix, &fb, Ghost(fr))
    }

    fn collect(space: &ByteMap<Vec<u8>>, prefix: &[u8], fb: &Option<Vec<u8>>, Ghost(fr): Ghost<Option<Seq<u8>>>) -> (r: Result<Self, Error>)
        requires
            match fb { Some(v) => fr == Some(v@), None => fr is None },
        ensures
            match r {
                Ok(e) => all_decode::<K, V>(space@, prefix@, fr)
                    && lists_entries::<K, V>(space@, prefix@, fr, e.remaining()),
                Err(e) => !all_decode::<K, V>(space@, prefix@, fr) && e.kind == ErrorKind::DecodeFailure,
            },
    {
        let n = space.len();
        let ghost keys = space.keys();
        let ghost vals = space.vals();
        let ghost sp = space@;
        let mut items: Vec<(K, V)> = Vec::new();
        let ghost mut src: Seq<int> = Seq::empty();
        let mut i: usize = n;
        while i > 0
            invariant
                n == keys.len(),
                keys == space.keys(),
                vals == space.vals(),
                sp == space@,
                keys.len() == vals.len(),
                strictly_sorted(keys),
                forall|k: Seq<u8>| sp.contains_key(k) <==> keys.contains(k),
                forall|j: int| 0 <= j < keys.len() ==> #[trigger] sp[keys[j]] == vals[j],
                i <= n,
                match fb {
                    Some(v) => fr == Some(v@),
                    None => fr is None,
                },
                src.len() == items@.len(),
                forall|j: int| 0 <= j < src.len() ==> i <= #[trigger] src[j] < n,
                forall|j1: int, j2: int| 0 <= j1 < j2 < src.len() ==> #[trigger] src[j1] > #[trigger] src[j2],
                forall|j: int|
                    #![trigger items@[j]]
                    0 <= j < items@.len() ==> K::key_bytes(items@[j].0@) == keys[src[j]] && V::value_of(
                        vals[src[j]],
                    ) == Some(items@[j].1@) && in_range(keys[src[j]], prefix@, fr),
                forall|idx: int|
                    i <= idx < n && in_range(#[trigger] keys[idx], prefix@, fr) ==> exists|j: int|
                        0 <= j < src.len() && src[j] == idx,
                forall|idx: int|
                    i <= idx < n && in_range(#[trigger] keys[idx], prefix@, fr) ==> K::key_of(keys[idx]) is Some
                        && V::value_of(vals[idx]) is Some,
            decreases i,
        {
            let idx = i - 1;
            let kb = space.key_at(idx);
            let in_prefix = bytes_have_prefix(kb.as_slice(), prefix);
            let after_from = match fb {
                Some(f) => !bytes_lt(kb.as_slice(), f.as_slice()),
                None => true,
            };
            proof {
                assert(in_prefix == has_prefix(keys[idx as int], prefix@));
                match fr {
                    Some(f) => {
                        assert(after_from == !lex_lt(keys[idx as int], f));
                    },
                    None => {
                        assert(after_from);
                    },
                }
                assert((in_prefix && after_from) == in_range(keys[idx as int], prefix@, fr));
            }
            if in_prefix && after_from {
                let vb = space.value_at(idx);
                let k = K::from_key_bytes(kb.as_slice());
                let v = V::from_bytes(vb.as_slice());
                match (k, v) {
                    (Some(k), Some(v)) => {
                        proof {
                            K::lemma_key_canonical(keys[idx as int]);
                        }
                        items.push((k, v));
                        proof {
                            let prev = src;
                            src = src.push(idx as int);
                            assert forall|x: int|
                                idx <= x < n && in_range(#[trigger] keys[x], prefix@, fr) implies exists|j: int|
                                    0 <= j < src.len() && src[j] == x by {
                                if x == idx {
                                    assert(src[src.len() - 1] == x);
                                } else {
                                    let j = choose|j: int| 0 <= j < prev.len() && prev[j] == x;
                                    assert(src[j] == x);
                                }
                            }
                        }
                    },
                    _ => {
                        proof {
                            let kk = keys[idx as int];
                            assert(sp.contains_key(kk)) by {
                                assert(keys.contains(kk));
                            }
                            assert(sp[kk] == vals[idx as int]);
                            assert(in_range(kk, prefix@, fr));
                            assert(!(K::key_of(kk) is Some && V::value_of(sp[kk]) is Some));
                        }
                        return Err(Error::with_kind(ErrorKind::DecodeFailure, "undecodable entry".to_owned()));
                    },
                }
            }
            i = idx;
        }
        let e = Entries { items };
        proof {
            let rem = e.remaining();
            let m = items@.len();
            assert forall|kb: Seq<u8>|
                #![trigger sp.contains_key(kb)]
                sp.contains_key(kb) && in_range(kb, prefix@, fr) implies K::key_of(kb) is Some
                    && V::value_of(sp[kb]) is Some by {
                assert(keys.contains(kb));
                let idx = keys.index_of(kb);
                assert(in_range(keys[idx], prefix@, fr));
            }
            assert forall|q: int| #![trigger rem[q]] 0 <= q < rem.len() implies in_range(K::key_bytes(rem[q].0), prefix@, fr)
                && sp.contains_key(K::key_bytes(rem[q].0)) && V::value_of(sp[K::key_bytes(rem[q].0)]) == Some(rem[q].1) by {
                let j = m - 1 - q;
                assert(rem[q] == (items@[j].0@, items@[j].1@));
                assert(keys.contains(keys[src[j]]));
            }
            assert forall|kb: Seq<u8>|
                #![trigger sp.contains_key(kb)]
                sp.contains_key(kb) && in_range(kb, prefix@, fr) implies exists|q: int|
                    0 <= q < rem.len() && K::key_bytes(#[trigger] rem[q].0) == kb by {
                assert(keys.contains(kb));
                let idx = keys.index_of(kb);
                assert(in_range(keys[idx], prefix@, fr));
                let j = choose|j: int| 0 <= j < src.len() && src[j] == idx;
                let q = m - 1 - j;
                assert(rem[q] == (items@[j].0@, items@[j].1@));
                assert(K::key_bytes(rem[q].0) == kb);
            }
            assert forall|q1: int, q2: int| 0 <= q1 < q2 < rem.len() implies lex_lt(
                K::key_bytes(#[trigger] rem[q1].0),
                K::key_bytes(#[trigger] rem[q2].0),
            ) by {
                let j1 = m - 1 - q1;
                let j2 = m - 1 - q2;
                assert(rem[q1] == (items@[j1].0@, items@[j1].1@));
                assert(rem[q2] == (items@[j2].0@, items@[j2].1@));
                assert(src[j2] > src[j1]);
            }
        }
        Ok(e)
    }

    /// Entries that yield `items` in order.
    pub fn from_vec(items: Vec<(K, V)>) -> (r: Entries<K, V>)
        ensures
            r.remaining() == items@.map_values(|e: (K, V)| (e.0@, e.1@)),
    {
        let mut src = items;
        let ghost orig = src@;
        let n = src.len();
        let mut rev: Vec<(K, V)> = Vec::new();
        while src.len() > 0
            invariant
                orig.len() == n,
                src@ == orig.subrange(0, src@.len() as int),
                rev@.len() + src@.len() == n,
                forall|j: int| 0 <= j < rev@.len() ==> #[trigger] rev@[j] == orig[n - 1 - j],
            decreases src@.len(),
        {
            let e = src.pop().unwrap();
            rev.push(e);
        }
        let r = Entries { items: rev };
        assert(r.remaining() =~= orig.map_values(|e: (K, V)| (e.0@, e.1@)));
        r
    }

    /// The next pair, or `None` when all have been yielded.
    pub fn next(&mut self) -> (r: Option<(K, V)>)
        ensures
            old(self).remaining().len() == 0 ==> r is None && final(self).remaining() == old(self).remaining(),
            old(self).remaining().len() > 0 ==> (r matches Some(x) && (x.0@, x.1@) == old(self).remaining()[0]
                && final(self).remaining() == old(self).remaining().drop_first()),
    {
        let r = self.items.pop();
        proof {
            assert(self.remaining() =~= old(self).remaining().drop_first() || old(self).remaining().len() == 0);
            if old(self).remaining().len() == 0 {
                assert(self.remaining() =~= old(self).remaining());
            }
        }
        r
    }

    /// Skips values in the output, keeping the keys.
    pub fn skip_values(self) -> (r: Keys<K>)
        ensures
            r.remaining() == self.remaining().map_values(|e: (K::V, V::V)| e.0),
    {
        let mut src = self.items;
        let mut keys: Vec<K> = Vec::new();
        let mut rev: Vec<K> = Vec::new();
        let ghost orig = src@;
        let n = src.len();
        while src.len() > 0
            invariant
                orig.len() == n,
                src@ == orig.subrange(0, src@.len() as int),
                rev@.len() + src@.len() == n,
                forall|j: int| 0 <= j < rev@.len() ==> #[trigger] rev@[j]@ == orig[n - 1 - j].0@,
            decreases src@.len(),
        {
            let (k, _v) = src.pop().unwrap();
            rev.push(k);
        }
        while rev.len() > 0
            invariant
                rev@.len() + keys@.len() == n,
                forall|j: int| 0 <= j < rev@.len() ==> #[trigger] rev@[j]@ == orig[n - 1 - j].0@,
                forall|j: int| 0 <= j < keys@.len() ==> #[trigger] keys@[j]@ == orig[j].0@,
            decreases rev@.len(),
        {
            let k = rev.pop().unwrap();
            keys.push(k);
        }
        let r = Keys { items: keys };
        assert(r.remaining() =~= self.remaining().map_values(|e: (K::V, V::V)| e.0));
        r
    }

    /// Skips keys in the output, keeping the values.
    pub fn skip_keys(self) -> (r: Values<V>)
        ensures
            r.remaining() == self.remaining().map_values(|e: (K::V, V::V)| e.1),
    {
        let mut src = self.items;
        let mut vals: Vec<V> = Vec::new();
        let mut rev: Vec<V> = Vec::new();
        let ghost orig = src@;
        let n = src.len();
        while src.len() > 0
            invariant
                orig.len() == n,
                src@ == orig.subrange(0, src@.len() as int),
                rev@.len() + src@.len() == n,
                forall|j: int| 0 <= j < rev@.len() ==> #[trigger] rev@[j]@ == orig[n - 1 - j].1@,
            decreases src@.len(),
        {
            let (_k, v) = src.pop().unwrap();
            rev.push(v);
        }
        while rev.len() > 0
            invariant
                rev@.len() + vals@.len() == n,
                forall|j: int| 0 <= j < rev@.len() ==> #[trigger] rev@[j]@ == orig[n - 1 - j].1@,
                forall|j: int| 0 <= j < vals@.len() ==> #[trigger] vals@[j]@ == orig[j].1@,
            decreases rev@.len(),
        {
            let v = rev.pop().unwrap();
            vals.push(v);
        }
        let r = Values { items: vals };
        assert(r.remaining() =~= self.remaining().map_values(|e: (K::V, V::V)| e.1));
        r
    }
}

/// The bytes of an optional start key.
pub open spec fn from_bytes<K: BinaryKey>(from: Option<&K>) -> Option<Seq<u8>> {
    match from {
        Some(k) => Some(K::key_bytes(k@)),
        None => None,
    }
}

impl<K: View> Keys<K> {
    /// What is left to yield, in order.
    pub closed spec fn remaining(&self) -> Seq<K::V> {
        Seq::new(self.items@.len(), |i: int| self.items@[self.items@.len() - 1 - i]@)
    }

    /// The next key, or `None` when all have been yielded.
    pub fn next(&mut self) -> (r: Option<K>)
        ensures
            old(self).remaining().len() == 0 ==> r is None && final(self).remaining() == old(self).remaining(),
            old(self).remaining().len() > 0 ==> (r matches Some(x) && x@ == old(self).remaining()[0]
                && final(self).remaining() == old(self).remaining().drop_first()),
    {
        let r = self.items.pop();
        proof {
            if old(self).remaining().len() == 0 {
                assert(self.remaining() =~= old(self).remaining());
            } else {
                assert(self.remaining() =~= old(self).remaining().drop_first());
            }
        }
        r
    }
}

impl<V: View> Values<V> {
    /// What is left to yield, in order.
    pub closed spec fn remaining(&self) -> Seq<V::V> {
        Seq::new(self.items@.len(), |i: int| self.items@[self.items@.len() - 1 - i]@)
    }

    /// Values that yield `items` in order.
    pub fn from_vec(items: Vec<V>) -> (r: Values<V>)
        ensures
            r.remaining() == items@.map_values(|v: V| v@),
    {
        let mut src = items;
        let ghost orig = src@;
        let n = src.len();
        let mut rev: Vec<V> = Vec::new();
        while src.len() > 0
            invariant
                orig.len() == n,
                src@ == orig.subrange(0, src@.len() as int),
                rev@.len() + src@.len() == n,
                forall|j: int| 0 <= j < rev@.len() ==> #[trigger] rev@[j] == orig[n - 1 - j],
            decreases src@.len(),
        {
            let v = src.pop().unwrap();
            rev.push(v);
        }
        let r = Values { items: rev };
        assert(r.remaining() =~= orig.map_values(|v: V| v@));
        r
    }

    /// The next value, or `None` when all have been yielded.
    pub fn next(&mut self) -> (r: Option<V>)
        ensures
            old(self).remaining().len() == 0 ==> r is None && final(self).remaining() == old(self).remaining(),
            old(self).remaining().len() > 0 ==> (r matches Some(x) && x@ == old(self).remaining()[0]
                && final(self).remaining() == old(self).remaining().drop_first()),
    {
        let r = self.items.pop();
        proof {
            if old(self).remaining().len() == 0 {
                assert(self.remaining() =~= old(self).remaining());
            } else {
                assert(self.remaining() =~= old(self).remaining().drop_first());
            }
        }
        r
    }
}

/// An index that can be iterated from any position: every index kind but the
/// single-value entry.
pub trait IndexIterator {
    /// Type of the index keys.
    type Key: BinaryKey;

    /// Type of the index values.
    type Value: BinaryValue;

    /// The keyspace the index occupies.
    spec fn index_address(&self) -> Seq<u8>;

    /// Iterates from `from` on, or from the start where it is `None`.
    fn index_iter<A: RawAccess>(&self, access: &A, from: Option<&Self::Key>) -> (r: Result<
        Entries<Self::Key, Self::Value>,
        Error,
    >)
        ensures
            match r {
                Ok(e) => all_decode::<Self::Key, Self::Value>(access.space(self.index_address()), Seq::empty(), from_bytes::<Self::Key>(from))
                    && lists_entries::<Self::Key, Self::Value>(
                    access.space(self.index_address()),
                    Seq::empty(),
                    from_bytes::<Self::Key>(from),
                    e.remaining(),
                ),
                Err(e) => !all_decode::<Self::Key, Self::Value>(access.space(self.index_address()), Seq::empty(), from_bytes::<Self::Key>(from))
                    && e.kind == ErrorKind::DecodeFailure,
            },
    ;
}

} // verus!
