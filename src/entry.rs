//! An index that holds at most one value.
use vstd::prelude::*;
use core::marker::PhantomData;
use crate::address::{IndexAddress, catalog_key, is_resolvable_name};
use crate::catalog::{FromAddress, IndexType, check_effect, check_index, open_effect, open_index};
use crate::codec::BinaryValue;
use crate::db::{Fork, RawAccess, fork_delete, fork_put};
use crate::error::{Error, ErrorKind};
use crate::map::{map_read, opened_view, read_view};

verus! {

/// The key under which an entry keeps its value.
pub open spec fn value_key() -> Seq<u8> {
    Seq::empty()
}

/// An index holding at most one value, like an `Option` stored in the database.
pub struct Entry<V> {
    addr: Vec<u8>,
    marker: PhantomData<V>,
}

impl<V: BinaryValue> Entry<V> {
    /// The keyspace the entry occupies.
    pub closed spec fn address(&self) -> Seq<u8> {
        self.addr@
    }

    /// Opens the entry at `addr` in a fork, recording it in the catalog if new.
    pub fn open(fork: &mut Fork, addr: &IndexAddress) -> (r: Result<Self, Error>)
        requires
            is_resolvable_name(addr.name_of()),
        ensures
            open_effect(old(fork)@, final(fork)@, addr.name_of(), addr.prefix_of(), IndexType::Entry,
                opened_view(r, |m: Self| m.address())),
    {
        match open_index(fork, addr, IndexType::Entry) {
            Ok(a) => Ok(Entry { addr: a, marker: PhantomData }),
            Err(e) => Err(e),
        }
    }

    /// Opens the entry at `addr` for reading, checking its catalog record if any.
    pub fn open_readonly<A: RawAccess>(access: &A, addr: &IndexAddress) -> (r: Result<Self, Error>)
        requires
            is_resolvable_name(addr.name_of()),
        ensures
            check_effect(access.space(catalog_key()), addr.name_of(), addr.prefix_of(), IndexType::Entry,
                opened_view(r, |m: Self| m.address())),
    {
        match check_index(access, addr, IndexType::Entry) {
            Ok(a) => Ok(Entry { addr: a, marker: PhantomData }),
            Err(e) => Err(e),
        }
    }

    fn key() -> (r: Vec<u8>)
        ensures
            r@ == value_key(),
    {
        let r: Vec<u8> = Vec::new();
        assert(r@ =~= value_key());
        r
    }

    /// The stored value, if any.
    pub fn get<A: RawAccess>(&self, access: &A) -> (r: Result<Option<V>, Error>)
        ensures
            read_view(r) == map_read::<V>(access.space(self.address()), value_key()),
    {
        let k = Self::key();
        match access.get_raw(self.addr.as_slice(), k.as_slice()) {
            Some(bytes) => match V::from_bytes(bytes.as_slice()) {
                Some(v) => Ok(Some(v)),
                None => Err(Error::with_kind(ErrorKind::DecodeFailure, "undecodable value".to_owned())),
            },
            None => Ok(None),
        }
    }

    /// Whether a value is stored.
    pub fn has_value<A: RawAccess>(&self, access: &A) -> (r: bool)
        ensures
            r == access.space(self.address()).contains_key(value_key()),
    {
        let k = Self::key();
        match access.get_raw(self.addr.as_slice(), k.as_slice()) {
            Some(_) => true,
            None => false,
        }
    }

    /// Stores `v`, replacing what was there.
    pub fn set(&self, fork: &mut Fork, v: &V)
        ensures
            final(fork)@ == fork_put(old(fork)@, self.address(), value_key(), V::value_bytes(v@)),
    {
        fork.put_raw(self.addr.as_slice(), Self::key(), v.to_bytes());
    }

    /// Removes the value, if any.
    pub fn remove(&self, fork: &mut Fork)
        ensures
            final(fork)@ == fork_delete(old(fork)@, self.address(), value_key()),
    {
        fork.delete_raw(self.addr.as_slice(), Self::key());
    }

    /// Removes the value and returns it. Where it does not decode, nothing is removed.
    pub fn take(&self, fork: &mut Fork) -> (r: Result<Option<V>, Error>)
        ensures
            read_view(r) == map_read::<V>(old(fork).space(self.address()), value_key()),
            r is Ok ==> final(fork)@ == fork_delete(old(fork)@, self.address(), value_key()),
            r is Err ==> final(fork)@ == old(fork)@,
    {
        let r = self.get(&*fork);
        if r.is_ok() {
            self.remove(fork);
        }
        r
    }
}

impl<V: BinaryValue> FromAddress for Entry<V> {
    open spec fn kind() -> IndexType {
        IndexType::Entry
    }

    open spec fn keyspace(&self) -> Seq<u8> {
        self.address()
    }

    fn from_address(fork: &mut Fork, addr: &IndexAddress) -> (r: Result<Self, Error>) {
        Self::open(fork, addr)
    }
}

} // verus!
