//! An ordered map from keys to values, stored in one keyspace.
use vstd::prelude::*;
use core::marker::PhantomData;
use crate::address::{IndexAddress, catalog_key, is_resolvable_name};
use crate::catalog::{FromAddress, IndexType, check_effect, check_index, open_effect, open_index};
use crate::codec::{BinaryKey, BinaryValue};
use crate::db::{
    Fork, ForkModel, RawAccess, Space, fork_clear, fork_delete, fork_put, fork_space,
    lemma_read_your_writes,
};
use crate::error::{Error, ErrorKind};
use crate::iter::{IndexIterator, Entries, Keys, Values, all_decode, lists_entries};

verus! {

/// What a map read of key bytes `kb` gives: the decoded value, nothing, or a decode failure.
pub open spec fn map_read<V: BinaryValue>(sp: Space, kb: Seq<u8>) -> Result<Option<V::V>, ErrorKind> {
    if sp.contains_key(kb) {
        match V::value_of(sp[kb]) {
            Some(v) => Ok(Some(v)),
            None => Err(ErrorKind::DecodeFailure),
        }
    } else {
        Ok(None)
    }
}

/// The result of a read, seen through views.
pub open spec fn read_view<V: View>(r: Result<Option<V>, Error>) -> Result<Option<V::V>, ErrorKind> {
    match r {
        Ok(Some(v)) => Ok(Some(v@)),
        Ok(None) => Ok(None),
        Err(e) => Err(e.kind),
    }
}

/// The result of opening, seen through the keyspace it gives.
pub open spec fn opened_view<T>(r: Result<T, Error>, addr: spec_fn(T) -> Seq<u8>) -> Result<Seq<u8>, ErrorKind> {
    match r {
        Ok(m) => Ok(addr(m)),
        Err(e) => Err(e.kind),
    }
}

/// Read-your-writes for typed maps: after a put through a fork, reading the key
/// back decodes to the value put.
pub proof fn lemma_map_read_your_writes<K: BinaryKey, V: BinaryValue>(f: ForkModel, a: Seq<u8>, k: K::V, v: V::V)
    ensures
        map_read::<V>(fork_space(fork_put(f, a, K::key_bytes(k), V::value_bytes(v)), a), K::key_bytes(k))
            == Ok::<Option<V::V>, ErrorKind>(Some(v)),
{
    lemma_read_your_writes(f, a, K::key_bytes(k), V::value_bytes(v), a);
    V::lemma_value_round_trip(v);
}

/// An ordered map index: values under keys, iterated in key order.
pub struct MapIndex<K, V> {
    addr: Vec<u8>,
    marker: PhantomData<(K, V)>,
}

impl<K: BinaryKey, V: BinaryValue> MapIndex<K, V> {
    /// The keyspace the map occupies.
    pub closed spec fn address(&self) -> Seq<u8> {
        self.addr@
    }

    /// Opens the map at `addr` in a fork, recording it in the catalog if new.
    pub fn open(fork: &mut Fork, addr: &IndexAddress) -> (r: Result<Self, Error>)
        requires
            is_resolvable_name(addr.name_of()),
        ensures
            open_effect(old(fork)@, final(fork)@, addr.name_of(), addr.prefix_of(), IndexType::OrderedMap,
                opened_view(r, |m: Self| m.address())),
    {
        match open_index(fork, addr, IndexType::OrderedMap) {
            Ok(a) => Ok(MapIndex { addr: a, marker: PhantomData }),
            Err(e) => Err(e),
        }
    }

    /// Opens the map at `addr` for reading, checking its catalog record if any.
    pub fn open_readonly<A: RawAccess>(access: &A, addr: &IndexAddress) -> (r: Result<Self, Error>)
        requires
            is_resolvable_name(addr.name_of()),
        ensures
            check_effect(access.space(catalog_key()), addr.name_of(), addr.prefix_of(), IndexType::OrderedMap,
                opened_view(r, |m: Self| m.address())),
    {
        match check_index(access, addr, IndexType::OrderedMap) {
            Ok(a) => Ok(MapIndex { addr: a, marker: PhantomData }),
            Err(e) => Err(e),
        }
    }

    /// The value under `k`.
    pub fn get<A: RawAccess>(&self, access: &A, k: &K) -> (r: Result<Option<V>, Error>)
        ensures
            read_view(r) == map_read::<V>(access.space(self.address()), K::key_bytes(k@)),
    {
        let kb = k.to_key_bytes();
        match access.get_raw(self.addr.as_slice(), kb.as_slice()) {
            Some(bytes) => match V::from_bytes(bytes.as_slice()) {
                Some(v) => Ok(Some(v)),
                None => Err(Error::with_kind(ErrorKind::DecodeFailure, "undecodable value".to_owned())),
            },
            None => Ok(None),
        }
    }

    /// Whether a value is stored under `k`.
    pub fn contains<A: RawAccess>(&self, access: &A, k: &K) -> (r: bool)
        ensures
            r == access.space(self.address()).contains_key(K::key_bytes(k@)),
    {
        let kb = k.to_key_bytes();
        match access.get_raw(self.addr.as_slice(), kb.as_slice()) {
            Some(_) => true,
            None => false,
        }
    }

    /// Stores `v` under `k`.
    pub fn put(&self, fork: &mut Fork, k: &K, v: &V)
        ensures
            final(fork)@ == fork_put(old(fork)@, self.address(), K::key_bytes(k@), V::value_bytes(v@)),
    {
        let kb = k.to_key_bytes();
        let vb = v.to_bytes();
        fork.put_raw(self.addr.as_slice(), kb, vb);
    }

    /// Removes the value under `k`, if any.
    pub fn remove(&self, fork: &mut Fork, k: &K)
        ensures
            final(fork)@ == fork_delete(old(fork)@, self.address(), K::key_bytes(k@)),
    {
        let kb = k.to_key_bytes();
        fork.delete_raw(self.addr.as_slice(), kb);
    }

    /// Removes every entry.
    pub fn clear(&self, fork: &mut Fork)
        ensures
            final(fork)@ == fork_clear(old(fork)@, self.address()),
    {
        fork.clear_raw(self.addr.as_slice());
    }

    /// All entries in ascending key order.
    pub fn iter<A: RawAccess>(&self, access: &A) -> (r: Result<Entries<K, V>, Error>)
        ensures
            match r {
                Ok(e) => all_decode::<K, V>(access.space(self.address()), Seq::empty(), None)
                    && lists_entries::<K, V>(access.space(self.address()), Seq::empty(), None, e.remaining()),
                Err(e) => !all_decode::<K, V>(access.space(self.address()), Seq::empty(), None)
                    && e.kind == ErrorKind::DecodeFailure,
            },
    {
        Entries::new(access, self.addr.as_slice(), None)
    }

    /// The entries whose keys do not sort before `from`, in ascending key order.
    pub fn iter_from<A: RawAccess>(&self, access: &A, from: &K) -> (r: Result<Entries<K, V>, Error>)
        ensures
            match r {
                Ok(e) => all_decode::<K, V>(access.space(self.address()), Seq::empty(), Some(K::key_bytes(from@)))
                    && lists_entries::<K, V>(access.space(self.address()), Seq::empty(), Some(K::key_bytes(from@)), e.remaining()),
                Err(e) => !all_decode::<K, V>(access.space(self.address()), Seq::empty(), Some(K::key_bytes(from@)))
                    && e.kind == ErrorKind::DecodeFailure,
            },
    {
        Entries::new(access, self.addr.as_slice(), Some(from))
    }

    /// All keys in ascending order.
    pub fn keys<A: RawAccess>(&self, access: &A) -> (r: Result<Keys<K>, Error>)
        ensures
            match r {
                Ok(ks) => exists|e: Seq<(K::V, V::V)>|
                    lists_entries::<K, V>(access.space(self.address()), Seq::empty(), None, e)
                        && ks.remaining() == e.map_values(|x: (K::V, V::V)| x.0),
                Err(e) => !all_decode::<K, V>(access.space(self.address()), Seq::empty(), None)
                    && e.kind == ErrorKind::DecodeFailure,
            },
    {
        match self.iter(access) {
            Ok(e) => Ok(e.skip_values()),
            Err(e) => Err(e),
        }
    }

    /// All values in ascending order of their keys.
    pub fn values<A: RawAccess>(&self, access: &A) -> (r: Result<Values<V>, Error>)
        ensures
            match r {
                Ok(vs) => exists|e: Seq<(K::V, V::V)>|
                    lists_entries::<K, V>(access.space(self.address()), Seq::empty(), None, e)
                        && vs.remaining() == e.map_values(|x: (K::V, V::V)| x.1),
                Err(e) => !all_decode::<K, V>(access.space(self.address()), Seq::empty(), None)
                    && e.kind == ErrorKind::DecodeFailure,
            },
    {
        match self.iter(access) {
            Ok(e) => Ok(e.skip_keys()),
            Err(e) => Err(e),
        }
    }
}

impl<K: BinaryKey, V: BinaryValue> IndexIterator for MapIndex<K, V> {
    type Key = K;

    type Value = V;

    open spec fn index_address(&self) -> Seq<u8> {
        self.address()
    }

    fn index_iter<A: RawAccess>(&self, access: &A, from: Option<&K>) -> (r: Result<Entries<K, V>, Error>) {
        Entries::new(access, self.addr.as_slice(), from)
    }
}

impl<K: BinaryKey, V: BinaryValue> FromAddress for MapIndex<K, V> {
    open spec fn kind() -> IndexType {
        IndexType::OrderedMap
    }

    open spec fn keyspace(&self) -> Seq<u8> {
        self.address()
    }

    fn from_address(fork: &mut Fork, addr: &IndexAddress) -> (r: Result<Self, Error>) {
        Self::open(fork, addr)
    }
}

} // verus!
