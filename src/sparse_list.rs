//! A list whose items may be removed from any position, leaving holes.
use vstd::prelude::*;
use core::marker::PhantomData;
use crate::address::{IndexAddress, catalog_key, is_resolvable_name};
use crate::catalog::{FromAddress, IndexType, check_effect, check_index, open_effect, open_index};
use crate::codec::{BinaryKey, BinaryValue};
use crate::db::{
    Fork, RawAccess, Space, fork_clear, fork_space, fork_writes, lemma_delete_writes,
    lemma_put_writes, lemma_writes_chain,
};
use crate::error::{Error, ErrorKind};
use crate::iter::Entries;
use crate::list::{item_key, len_bytes};
use crate::map::{map_read, opened_view, read_view};

verus! {

/// The key of the number of items present.
pub open spec fn count_key() -> Seq<u8> {
    Seq::empty()
}

/// The key of the capacity: one past the last position ever pushed.
pub open spec fn capacity_key() -> Seq<u8> {
    seq![0u8]
}

/// A stored counter: `0` where none is stored, `None` where it does not decode.
pub open spec fn counter(sp: Space, k: Seq<u8>) -> Option<u64> {
    if sp.contains_key(k) {
        <u64 as BinaryValue>::value_of(sp[k])
    } else {
        Some(0)
    }
}

/// Every item present below `n` decodes.
pub open spec fn present_decode<V: BinaryValue>(sp: Space, n: int) -> bool {
    forall|i: int| 0 <= i < n && #[trigger] sp.contains_key(item_key(i)) ==> V::value_of(sp[item_key(i)]) is Some
}

/// The present items below `n` with their positions, in order of position.
pub open spec fn present_items<V: BinaryValue>(sp: Space, n: int) -> Seq<(u64, V::V)>
    decreases n,
{
    if n <= 0 {
        Seq::empty()
    } else if sp.contains_key(item_key(n - 1)) {
        present_items::<V>(sp, n - 1).push(((n - 1) as u64, V::value_of(sp[item_key(n - 1)]).unwrap()))
    } else {
        present_items::<V>(sp, n - 1)
    }
}

/// A list with holes: removing an item leaves its position empty.
pub struct SparseListIndex<V> {
    addr: Vec<u8>,
    marker: PhantomData<V>,
}

fn count_key_bytes() -> (r: Vec<u8>)
    ensures
        r@ == count_key(),
{
    let r: Vec<u8> = Vec::new();
    assert(r@ =~= count_key());
    r
}

fn capacity_key_bytes() -> (r: Vec<u8>)
    ensures
        r@ == capacity_key(),
{
    let r: Vec<u8> = vec![0u8];
    assert(r@ =~= capacity_key());
    r
}

fn read_counter<A: RawAccess>(access: &A, a: &[u8], k: &[u8]) -> (r: Result<u64, Error>)
    ensures
        match counter(access.space(a@), k@) {
            Some(n) => r == Ok::<u64, Error>(n),
            None => r matches Err(e) && e.kind == ErrorKind::DecodeFailure,
        },
{
    match access.get_raw(a, k) {
        Some(bytes) => match <u64 as BinaryValue>::from_bytes(bytes.as_slice()) {
            Some(n) => Ok(n),
            None => Err(Error::with_kind(ErrorKind::DecodeFailure, "undecodable counter".to_owned())),
        },
        None => Ok(0),
    }
}

impl<V: BinaryValue> SparseListIndex<V> {
    /// The keyspace the list occupies.
    pub closed spec fn address(&self) -> Seq<u8> {
        self.addr@
    }

    /// Opens the list at `addr` in a fork, recording it in the catalog if new.
    pub fn open(fork: &mut Fork, addr: &IndexAddress) -> (r: Result<Self, Error>)
        requires
            is_resolvable_name(addr.name_of()),
        ensures
            open_effect(old(fork)@, final(fork)@, addr.name_of(), addr.prefix_of(), IndexType::SparseList,
                opened_view(r, |m: Self| m.address())),
    {
        match open_index(fork, addr, IndexType::SparseList) {
            Ok(a) => Ok(SparseListIndex { addr: a, marker: PhantomData }),
            Err(e) => Err(e),
        }
    }

    /// Opens the list at `addr` for reading, checking its catalog record if any.
    pub fn open_readonly<A: RawAccess>(access: &A, addr: &IndexAddress) -> (r: Result<Self, Error>)
        requires
            is_resolvable_name(addr.name_of()),
        ensures
            check_effect(access.space(catalog_key()), addr.name_of(), addr.prefix_of(), IndexType::SparseList,
                opened_view(r, |m: Self| m.address())),
    {
        match check_index(access, addr, IndexType::SparseList) {
            Ok(a) => Ok(SparseListIndex { addr: a, marker: PhantomData }),
            Err(e) => Err(e),
        }
    }

    /// The number of items present.
    pub fn len<A: RawAccess>(&self, access: &A) -> (r: Result<u64, Error>)
        ensures
            match counter(access.space(self.address()), count_key()) {
                Some(n) => r == Ok::<u64, Error>(n),
                None => r matches Err(e) && e.kind == ErrorKind::DecodeFailure,
            },
    {
        read_counter(access, self.addr.as_slice(), count_key_bytes().as_slice())
    }

    /// One past the last position ever pushed.
    pub fn capacity<A: RawAccess>(&self, access: &A) -> (r: Result<u64, Error>)
        ensures
            match counter(access.space(self.address()), capacity_key()) {
                Some(n) => r == Ok::<u64, Error>(n),
                None => r matches Err(e) && e.kind == ErrorKind::DecodeFailure,
            },
    {
        read_counter(access, self.addr.as_slice(), capacity_key_bytes().as_slice())
    }

    /// The item at position `i`, if present.
    pub fn get<A: RawAccess>(&self, access: &A, i: u64) -> (r: Result<Option<V>, Error>)
        ensures
            read_view(r) == map_read::<V>(access.space(self.address()), item_key(i as int)),
    {
        let kb = i.to_key_bytes();
        match access.get_raw(self.addr.as_slice(), kb.as_slice()) {
            Some(bytes) => match V::from_bytes(bytes.as_slice()) {
                Some(v) => Ok(Some(v)),
                None => Err(Error::with_kind(ErrorKind::DecodeFailure, "undecodable list item".to_owned())),
            },
            None => Ok(None),
        }
    }

    /// Appends `v` at the capacity, which grows by one, as does the count.
    pub fn push(&self, fork: &mut Fork, v: &V) -> (r: Result<(), Error>)
        ensures
            match (counter(fork_space(old(fork)@, self.address()), count_key()),
                counter(fork_space(old(fork)@, self.address()), capacity_key())) {
                (Some(n), Some(c)) => if n < u64::MAX && c < u64::MAX {
                    r is Ok && fork_writes(old(fork)@, final(fork)@, self.address(),
                        fork_space(old(fork)@, self.address()).insert(item_key(c as int), V::value_bytes(v@))
                            .insert(capacity_key(), len_bytes(c + 1)).insert(count_key(), len_bytes(n + 1)))
                } else {
                    r matches Err(e) && e.kind == ErrorKind::OutOfRange && final(fork)@ == old(fork)@
                },
                _ => r matches Err(e) && e.kind == ErrorKind::DecodeFailure && final(fork)@ == old(fork)@,
            },
    {
        let n = match self.len(&*fork) {
            Ok(n) => n,
            Err(e) => return Err(e),
        };
        let c = match self.capacity(&*fork) {
            Ok(c) => c,
            Err(e) => return Err(e),
        };
        if n == u64::MAX || c == u64::MAX {
            return Err(Error::with_kind(ErrorKind::OutOfRange, "list is full".to_owned()));
        }
        let ghost a = self.addr@;
        let ghost f0 = fork@;
        fork.put_raw(self.addr.as_slice(), c.to_key_bytes(), v.to_bytes());
        let ghost f1 = fork@;
        let c1 = c + 1;
        fork.put_raw(self.addr.as_slice(), capacity_key_bytes(), c1.to_bytes());
        let ghost f2 = fork@;
        let n1 = n + 1;
        fork.put_raw(self.addr.as_slice(), count_key_bytes(), n1.to_bytes());
        proof {
            lemma_put_writes(f0, a, item_key(c as int), V::value_bytes(v@));
            lemma_put_writes(f1, a, capacity_key(), len_bytes(c + 1));
            lemma_put_writes(f2, a, count_key(), len_bytes(n + 1));
            lemma_writes_chain(f0, f1, f2, a, fork_space(f1, a), fork_space(f2, a));
            lemma_writes_chain(f0, f2, fork@, a, fork_space(f2, a), fork_space(fork@, a));
        }
        Ok(())
    }

    /// Removes and returns the item at position `i`, leaving a hole; `None` where
    /// no item is there. Fails, changing nothing, where the item or the count does
    /// not decode.
    pub fn remove(&self, fork: &mut Fork, i: u64) -> (r: Result<Option<V>, Error>)
        ensures
            match map_read::<V>(fork_space(old(fork)@, self.address()), item_key(i as int)) {
                Ok(Some(v)) => match counter(fork_space(old(fork)@, self.address()), count_key()) {
                    Some(n) => if n > 0 {
                        read_view(r) == Ok::<Option<V::V>, ErrorKind>(Some(v)) && fork_writes(old(fork)@, final(fork)@,
                            self.address(), fork_space(old(fork)@, self.address()).remove(item_key(i as int))
                                .insert(count_key(), len_bytes(n - 1)))
                    } else {
                        r matches Err(e) && e.kind == ErrorKind::DecodeFailure && final(fork)@ == old(fork)@
                    },
                    None => r matches Err(e) && e.kind == ErrorKind::DecodeFailure && final(fork)@ == old(fork)@,
                },
                Ok(None) => r matches Ok(None) && final(fork)@ == old(fork)@,
                Err(_) => r matches Err(e) && e.kind == ErrorKind::DecodeFailure && final(fork)@ == old(fork)@,
            },
    {
        let v = match self.get(&*fork, i) {
            Ok(Some(v)) => v,
            Ok(None) => return Ok(None),
            Err(e) => return Err(e),
        };
        let n = match self.len(&*fork) {
            Ok(n) => n,
            Err(e) => return Err(e),
        };
        if n == 0 {
            return Err(Error::with_kind(ErrorKind::DecodeFailure, "count below items present".to_owned()));
        }
        let ghost a = self.addr@;
        let ghost f0 = fork@;
        fork.delete_raw(self.addr.as_slice(), i.to_key_bytes());
        let ghost f1 = fork@;
        let n1 = n - 1;
        fork.put_raw(self.addr.as_slice(), count_key_bytes(), n1.to_bytes());
        proof {
            lemma_delete_writes(f0, a, item_key(i as int));
            lemma_put_writes(f1, a, count_key(), len_bytes(n - 1));
            lemma_writes_chain(f0, f1, fork@, a, fork_space(f1, a), fork_space(fork@, a));
        }
        Ok(Some(v))
    }

    /// Stores `v` at position `i` below the capacity, filling a hole or replacing
    /// an item. Fails with `OutOfRange`, changing nothing, at or past the capacity.
    pub fn set(&self, fork: &mut Fork, i: u64, v: &V) -> (r: Result<(), Error>)
        ensures
            match (counter(fork_space(old(fork)@, self.address()), count_key()),
                counter(fork_space(old(fork)@, self.address()), capacity_key())) {
                (Some(n), Some(c)) => if i >= c {
                    r matches Err(e) && e.kind == ErrorKind::OutOfRange && final(fork)@ == old(fork)@
                } else if fork_space(old(fork)@, self.address()).contains_key(item_key(i as int)) {
                    r is Ok && fork_writes(old(fork)@, final(fork)@, self.address(),
                        fork_space(old(fork)@, self.address()).insert(item_key(i as int), V::value_bytes(v@)))
                } else if n < u64::MAX {
                    r is Ok && fork_writes(old(fork)@, final(fork)@, self.address(),
                        fork_space(old(fork)@, self.address()).insert(item_key(i as int), V::value_bytes(v@))
                            .insert(count_key(), len_bytes(n + 1)))
                } else {
                    r matches Err(e) && e.kind == ErrorKind::OutOfRange && final(fork)@ == old(fork)@
                },
                _ => r matches Err(e) && e.kind == ErrorKind::DecodeFailure && final(fork)@ == old(fork)@,
            },
    {
        let n = match self.len(&*fork) {
            Ok(n) => n,
            Err(e) => return Err(e),
        };
        let c = match self.capacity(&*fork) {
            Ok(c) => c,
            Err(e) => return Err(e),
        };
        if i >= c {
            return Err(Error::with_kind(ErrorKind::OutOfRange, "position past capacity".to_owned()));
        }
        let kb = i.to_key_bytes();
        let present = match fork.get_raw(self.addr.as_slice(), kb.as_slice()) {
            Some(_) => true,
            None => false,
        };
        if !present && n == u64::MAX {
            return Err(Error::with_kind(ErrorKind::OutOfRange, "list is full".to_owned()));
        }
        let ghost a = self.addr@;
        let ghost f0 = fork@;
        fork.put_raw(self.addr.as_slice(), kb, v.to_bytes());
        proof {
            lemma_put_writes(f0, a, item_key(i as int), V::value_bytes(v@));
        }
        if !present {
            let ghost f1 = fork@;
            let n1 = n + 1;
            fork.put_raw(self.addr.as_slice(), count_key_bytes(), n1.to_bytes());
            proof {
                lemma_put_writes(f1, a, count_key(), len_bytes(n + 1));
                lemma_writes_chain(f0, f1, fork@, a, fork_space(f1, a), fork_space(fork@, a));
            }
        }
        Ok(())
    }

    /// Removes every item; count and capacity return to zero.
    pub fn clear(&self, fork: &mut Fork)
        ensures
            final(fork)@ == fork_clear(old(fork)@, self.address()),
    {
        fork.clear_raw(self.addr.as_slice());
    }

    /// The present items with their positions, in order of position, holes
    /// skipped. Fails with `DecodeFailure` where the capacity or an item does not
    /// decode.
    pub fn iter<A: RawAccess>(&self, access: &A) -> (r: Result<Entries<u64, V>, Error>)
        ensures
            match counter(access.space(self.address()), capacity_key()) {
                Some(c) => if present_decode::<V>(access.space(self.address()), c as int) {
                    r matches Ok(e) && e.remaining() == present_items::<V>(access.space(self.address()), c as int)
                } else {
                    r matches Err(e) && e.kind == ErrorKind::DecodeFailure
                },
                None => r matches Err(e) && e.kind == ErrorKind::DecodeFailure,
            },
    {
        let c = match self.capacity(access) {
            Ok(c) => c,
            Err(e) => return Err(e),
        };
        let ghost sp = access.space(self.addr@);
        let mut out: Vec<(u64, V)> = Vec::new();
        let mut i: u64 = 0;
        while i < c
            invariant
                i <= c,
                sp == access.space(self.addr@),
                counter(sp, capacity_key()) == Some(c),
                present_decode::<V>(sp, i as int),
                out@.map_values(|e: (u64, V)| (e.0@, e.1@)) =~= present_items::<V>(sp, i as int),
            decreases c - i,
        {
            let kb = i.to_key_bytes();
            let ghost prev = out@;
            match access.get_raw(self.addr.as_slice(), kb.as_slice()) {
                Some(bytes) => match V::from_bytes(bytes.as_slice()) {
                    Some(v) => {
                        out.push((i, v));
                        proof {
                            assert(out@.map_values(|e: (u64, V)| (e.0@, e.1@)) =~= prev.map_values(
                                |e: (u64, V)| (e.0@, e.1@),
                            ).push((i, v@)));
                        }
                    },
                    None => {
                        proof {
                            assert(!present_decode::<V>(sp, c as int)) by {
                                assert(sp.contains_key(item_key(i as int)));
                            }
                        }
                        return Err(Error::with_kind(ErrorKind::DecodeFailure, "undecodable list item".to_owned()));
                    },
                },
                None => {},
            }
            i = i + 1;
        }
        Ok(Entries::from_vec(out))
    }
}

impl<V: BinaryValue> FromAddress for SparseListIndex<V> {
    open spec fn kind() -> IndexType {
        IndexType::SparseList
    }

    open spec fn keyspace(&self) -> Seq<u8> {
        self.address()
    }

    fn from_address(fork: &mut Fork, addr: &IndexAddress) -> (r: Result<Self, Error>) {
        Self::open(fork, addr)
    }
}

} // verus!
