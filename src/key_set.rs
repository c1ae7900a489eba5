//! A set of keys, stored as keys with empty values.
use vstd::prelude::*;
use core::marker::PhantomData;
use crate::address::{IndexAddress, catalog_key, is_resolvable_name};
use crate::catalog::{FromAddress, IndexType, check_effect, check_index, open_effect, open_index};
use crate::codec::BinaryKey;
use crate::db::{Fork, RawAccess, fork_clear, fork_delete, fork_put};
use crate::error::{Error, ErrorKind};
use crate::iter::{IndexIterator, Entries, Keys, all_decode, lists_entries};
use crate::map::opened_view;

verus! {

/// A set of keys, iterated in key order.
pub struct KeySetIndex<K> {
    addr: Vec<u8>,
    marker: PhantomData<K>,
}

impl<K: BinaryKey> KeySetIndex<K> {
    /// The keyspace the set occupies.
    pub closed spec fn address(&self) -> Seq<u8> {
        self.addr@
    }

    /// Opens the set at `addr` in a fork, recording it in the catalog if new.
    pub fn open(fork: &mut Fork, addr: &IndexAddress) -> (r: Result<Self, Error>)
        requires
            is_resolvable_name(addr.name_of()),
        ensures
            open_effect(old(fork)@, final(fork)@, addr.name_of(), addr.prefix_of(), IndexType::KeySet,
                opened_view(r, |m: Self| m.address())),
    {
        match open_index(fork, addr, IndexType::KeySet) {
            Ok(a) => Ok(KeySetIndex { addr: a, marker: PhantomData }),
            Err(e) => Err(e),
        }
    }

    /// Opens the set at `addr` for reading, checking its catalog record if any.
    pub fn open_readonly<A: RawAccess>(access: &A, addr: &IndexAddress) -> (r: Result<Self, Error>)
        requires
            is_resolvable_name(addr.name_of()),
        ensures
            check_effect(access.space(catalog_key()), addr.name_of(), addr.prefix_of(), IndexType::KeySet,
                opened_view(r, |m: Self| m.address())),
    {
        match check_index(access, addr, IndexType::KeySet) {
            Ok(a) => Ok(KeySetIndex { addr: a, marker: PhantomData }),
            Err(e) => Err(e),
        }
    }

    /// Whether `k` is in the set.
    pub fn contains<A: RawAccess>(&self, access: &A, k: &K) -> (r: bool)
        ensures
            r == access.space(self.address()).contains_key(K::key_bytes(k@)),
    {
        let kb = k.to_key_bytes();
        match access.get_raw(self.addr.as_slice(), kb.as_slice()) {
            Some(_) => true,
            None => false,
        }
    }

    /// Adds `k` to the set.
    pub fn insert(&self, fork: &mut Fork, k: &K)
        ensures
            final(fork)@ == fork_put(old(fork)@, self.address(), K::key_bytes(k@), Seq::empty()),
    {
        let kb = k.to_key_bytes();
        let empty: Vec<u8> = Vec::new();
        assert(empty@ =~= Seq::<u8>::empty());
        fork.put_raw(self.addr.as_slice(), kb, empty);
    }

    /// Removes `k` from the set.
    pub fn remove(&self, fork: &mut Fork, k: &K)
        ensures
            final(fork)@ == fork_delete(old(fork)@, self.address(), K::key_bytes(k@)),
    {
        let kb = k.to_key_bytes();
        fork.delete_raw(self.addr.as_slice(), kb);
    }

    /// Removes every key.
    pub fn clear(&self, fork: &mut Fork)
        ensures
            final(fork)@ == fork_clear(old(fork)@, self.address()),
    {
        fork.clear_raw(self.addr.as_slice());
    }

    /// All keys in ascending order.
    pub fn iter<A: RawAccess>(&self, access: &A) -> (r: Result<Keys<K>, Error>)
        ensures
            match r {
                Ok(ks) => exists|e: Seq<(K::V, ())>|
                    lists_entries::<K, ()>(access.space(self.address()), Seq::empty(), None, e)
                        && ks.remaining() == e.map_values(|x: (K::V, ())| x.0),
                Err(e) => !all_decode::<K, ()>(access.space(self.address()), Seq::empty(), None)
                    && e.kind == ErrorKind::DecodeFailure,
            },
    {
        match Entries::<K, ()>::new(access, self.addr.as_slice(), None) {
            Ok(e) => {
                let ghost rem = e.remaining();
                let ks = e.skip_values();
                assert(lists_entries::<K, ()>(access.space(self.address()), Seq::empty(), None, rem));
                assert(ks.remaining() == rem.map_values(|x: (K::V, ())| x.0));
                Ok(ks)
            },
            Err(e) => Err(e),
        }
    }
}

impl<K: BinaryKey> IndexIterator for KeySetIndex<K> {
    type Key = K;

    type Value = ();

    open spec fn index_address(&self) -> Seq<u8> {
        self.address()
    }

    fn index_iter<A: RawAccess>(&self, access: &A, from: Option<&K>) -> (r: Result<Entries<K, ()>, Error>) {
        Entries::new(access, self.addr.as_slice(), from)
    }
}

impl<K: BinaryKey> FromAddress for KeySetIndex<K> {
    open spec fn kind() -> IndexType {
        IndexType::KeySet
    }

    open spec fn keyspace(&self) -> Seq<u8> {
        self.address()
    }

    fn from_address(fork: &mut Fork, addr: &IndexAddress) -> (r: Result<Self, Error>) {
        Self::open(fork, addr)
    }
}

} // verus!
