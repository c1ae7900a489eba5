//! A list of values indexed by position, with its length kept beside the items.
use vstd::prelude::*;
use core::marker::PhantomData;
use crate::address::{IndexAddress, catalog_key, is_resolvable_name};
use crate::catalog::{FromAddress, IndexType, check_effect, check_index, open_effect, open_index};
use crate::codec::{BinaryKey, BinaryValue};
use crate::db::{
    Fork, RawAccess, Space, fork_clear, fork_space, fork_writes, lemma_delete_writes,
    lemma_put_writes, lemma_writes_chain,
};
use crate::error::{Error, ErrorKind};
use crate::iter::Values;
use crate::map::{map_read, opened_view, read_view};

verus! {

/// The key of the list's length.
pub open spec fn len_key() -> Seq<u8> {
    Seq::empty()
}

/// The key of the item at position `i`.
pub open spec fn item_key(i: int) -> Seq<u8> {
    <u64 as BinaryKey>::key_bytes(i as u64)
}

/// The bytes of a stored length.
pub open spec fn len_bytes(n: int) -> Seq<u8> {
    <u64 as BinaryValue>::value_bytes(n as u64)
}

/// The length of the list in keyspace `sp`: `0` where none is stored, `None`
/// where what is stored does not decode.
pub open spec fn list_len(sp: Space) -> Option<u64> {
    if sp.contains_key(len_key()) {
        <u64 as BinaryValue>::value_of(sp[len_key()])
    } else {
        Some(0)
    }
}

/// Every item below `n` is stored and decodes.
pub open spec fn items_decode<V: BinaryValue>(sp: Space, n: int) -> bool {
    forall|i: int| 0 <= i < n ==> #[trigger] sp.contains_key(item_key(i)) && V::value_of(sp[item_key(i)]) is Some
}

/// The decoded items below `n`.
pub open spec fn list_items<V: BinaryValue>(sp: Space, n: int) -> Seq<V::V> {
    Seq::new(n as nat, |i: int| V::value_of(sp[item_key(i)]).unwrap())
}

/// `sp` without the items at positions `from` up to `to`.
pub open spec fn without_items(sp: Space, from: int, to: int) -> Space
    decreases to - from,
{
    if to <= from {
        sp
    } else {
        without_items(sp, from, to - 1).remove(item_key(to - 1))
    }
}

/// `sp` with the item bytes `vbs` appended after position `n`, and the length set.
pub open spec fn with_items(sp: Space, n: int, vbs: Seq<Seq<u8>>) -> Space
    decreases vbs.len(),
{
    if vbs.len() == 0 {
        sp
    } else {
        with_items(sp, n, vbs.drop_last()).insert(item_key(n + vbs.len() - 1), vbs.last()).insert(
            len_key(),
            len_bytes(n + vbs.len()),
        )
    }
}

/// A list of values at positions `0` up to its length.
pub struct ListIndex<V> {
    addr: Vec<u8>,
    marker: PhantomData<V>,
}

fn len_key_bytes() -> (r: Vec<u8>)
    ensures
        r@ == len_key(),
{
    let r: Vec<u8> = Vec::new();
    assert(r@ =~= len_key());
    r
}

impl<V: BinaryValue> ListIndex<V> {
    /// The keyspace the list occupies.
    pub closed spec fn address(&self) -> Seq<u8> {
        self.addr@
    }

    /// Opens the list at `addr` in a fork, recording it in the catalog if new.
    pub fn open(fork: &mut Fork, addr: &IndexAddress) -> (r: Result<Self, Error>)
        requires
            is_resolvable_name(addr.name_of()),
        ensures
            open_effect(old(fork)@, final(fork)@, addr.name_of(), addr.prefix_of(), IndexType::List,
                opened_view(r, |m: Self| m.address())),
    {
        match open_index(fork, addr, IndexType::List) {
            Ok(a) => Ok(ListIndex { addr: a, marker: PhantomData }),
            Err(e) => Err(e),
        }
    }

    /// Opens the list at `addr` for reading, checking its catalog record if any.
    pub fn open_readonly<A: RawAccess>(access: &A, addr: &IndexAddress) -> (r: Result<Self, Error>)
        requires
            is_resolvable_name(addr.name_of()),
        ensures
            check_effect(access.space(catalog_key()), addr.name_of(), addr.prefix_of(), IndexType::List,
                opened_view(r, |m: Self| m.address())),
    {
        match check_index(access, addr, IndexType::List) {
            Ok(a) => Ok(ListIndex { addr: a, marker: PhantomData }),
            Err(e) => Err(e),
        }
    }

    /// The number of items.
    pub fn len<A: RawAccess>(&self, access: &A) -> (r: Result<u64, Error>)
        ensures
            match list_len(access.space(self.address())) {
                Some(n) => r == Ok::<u64, Error>(n),
                None => r matches Err(e) && e.kind == ErrorKind::DecodeFailure,
            },
    {
        let k = len_key_bytes();
        match access.get_raw(self.addr.as_slice(), k.as_slice()) {
            Some(bytes) => match <u64 as BinaryValue>::from_bytes(bytes.as_slice()) {
                Some(n) => Ok(n),
                None => Err(Error::with_kind(ErrorKind::DecodeFailure, "undecodable list length".to_owned())),
            },
            None => Ok(0),
        }
    }

    /// Whether the list has no items.
    pub fn is_empty<A: RawAccess>(&self, access: &A) -> (r: Result<bool, Error>)
        ensures
            match list_len(access.space(self.address())) {
                Some(n) => r == Ok::<bool, Error>(n == 0),
                None => r matches Err(e) && e.kind == ErrorKind::DecodeFailure,
            },
    {
        match self.len(access) {
            Ok(n) => Ok(n == 0),
            Err(e) => Err(e),
        }
    }

    /// The item at position `i`; `None` at or past the end.
    pub fn get<A: RawAccess>(&self, access: &A, i: u64) -> (r: Result<Option<V>, Error>)
        ensures
            match list_len(access.space(self.address())) {
                Some(n) => if i < n {
                    read_view(r) == map_read::<V>(access.space(self.address()), item_key(i as int))
                } else {
                    r matches Ok(None)
                },
                None => r matches Err(e) && e.kind == ErrorKind::DecodeFailure,
            },
    {
        let n = match self.len(access) {
            Ok(n) => n,
            Err(e) => return Err(e),
        };
        if i >= n {
            return Ok(None);
        }
        let kb = i.to_key_bytes();
        match access.get_raw(self.addr.as_slice(), kb.as_slice()) {
            Some(bytes) => match V::from_bytes(bytes.as_slice()) {
                Some(v) => Ok(Some(v)),
                None => Err(Error::with_kind(ErrorKind::DecodeFailure, "undecodable list item".to_owned())),
            },
            None => Ok(None),
        }
    }

    /// The last item, if any.
    pub fn last<A: RawAccess>(&self, access: &A) -> (r: Result<Option<V>, Error>)
        ensures
            match list_len(access.space(self.address())) {
                Some(n) => if n > 0 {
                    read_view(r) == map_read::<V>(access.space(self.address()), item_key(n - 1))
                } else {
                    r matches Ok(None)
                },
                None => r matches Err(e) && e.kind == ErrorKind::DecodeFailure,
            },
    {
        let n = match self.len(access) {
            Ok(n) => n,
            Err(e) => return Err(e),
        };
        if n == 0 {
            return Ok(None);
        }
        self.get(access, n - 1)
    }

    /// Appends `v`. Fails where the stored length does not decode, or the list is
    /// as long as positions go.
    pub fn push(&self, fork: &mut Fork, v: &V) -> (r: Result<(), Error>)
        ensures
            match list_len(fork_space(old(fork)@, self.address())) {
                Some(n) => if n < u64::MAX {
                    r is Ok && fork_writes(old(fork)@, final(fork)@, self.address(),
                        fork_space(old(fork)@, self.address()).insert(item_key(n as int), V::value_bytes(v@))
                            .insert(len_key(), len_bytes(n + 1)))
                } else {
                    r matches Err(e) && e.kind == ErrorKind::OutOfRange && final(fork)@ == old(fork)@
                },
                None => r matches Err(e) && e.kind == ErrorKind::DecodeFailure && final(fork)@ == old(fork)@,
            },
    {
        let n = match self.len(&*fork) {
            Ok(n) => n,
            Err(e) => return Err(e),
        };
        if n == u64::MAX {
            return Err(Error::with_kind(ErrorKind::OutOfRange, "list is full".to_owned()));
        }
        let ghost f0 = fork@;
        let ghost a = self.addr@;
        fork.put_raw(self.addr.as_slice(), n.to_key_bytes(), v.to_bytes());
        let ghost f1 = fork@;
        let next = n + 1;
        fork.put_raw(self.addr.as_slice(), len_key_bytes(), next.to_bytes());
        proof {
            lemma_put_writes(f0, a, item_key(n as int), V::value_bytes(v@));
            lemma_put_writes(f1, a, len_key(), len_bytes(n + 1));
            lemma_writes_chain(f0, f1, fork@, a, fork_space(f1, a), fork_space(fork@, a));
        }
        Ok(())
    }

    /// Appends every item of `items`, in order. Fails, changing nothing, where the
    /// stored length does not decode or the list would grow past its positions.
    pub fn extend(&self, fork: &mut Fork, items: &Vec<V>) -> (r: Result<(), Error>)
        ensures
            match list_len(fork_space(old(fork)@, self.address())) {
                Some(n) => if n + items@.len() <= u64::MAX {
                    r is Ok && fork_writes(old(fork)@, final(fork)@, self.address(),
                        with_items(fork_space(old(fork)@, self.address()), n as int,
                            items@.map_values(|x: V| V::value_bytes(x@))))
                } else {
                    r matches Err(e) && e.kind == ErrorKind::OutOfRange && final(fork)@ == old(fork)@
                },
                None => r matches Err(e) && e.kind == ErrorKind::DecodeFailure && final(fork)@ == old(fork)@,
            },
    {
        let n = match self.len(&*fork) {
            Ok(n) => n,
            Err(e) => return Err(e),
        };
        if items.len() as u64 > u64::MAX - n {
            return Err(Error::with_kind(ErrorKind::OutOfRange, "list is full".to_owned()));
        }
        let ghost f0 = fork@;
        let ghost a = self.addr@;
        let ghost sp0 = fork_space(f0, a);
        let ghost vbs = items@.map_values(|x: V| V::value_bytes(x@));
        let mut i: usize = 0;
        assert(vbs.subrange(0, 0) =~= Seq::<Seq<u8>>::empty());
        assert(fork_writes(f0, fork@, a, with_items(sp0, n as int, vbs.subrange(0, 0))));
        while i < items.len()
            invariant
                i <= items@.len(),
                n + items@.len() <= u64::MAX,
                a == self.addr@,
                sp0 == fork_space(f0, a),
                vbs == items@.map_values(|x: V| V::value_bytes(x@)),
                fork_writes(f0, fork@, a, with_items(sp0, n as int, vbs.subrange(0, i as int))),
            decreases items@.len() - i,
        {
            let pos = n + i as u64;
            let ghost g0 = fork@;
            fork.put_raw(self.addr.as_slice(), pos.to_key_bytes(), items[i].to_bytes());
            let ghost g1 = fork@;
            let next = pos + 1;
            fork.put_raw(self.addr.as_slice(), len_key_bytes(), next.to_bytes());
            proof {
                let prev = with_items(sp0, n as int, vbs.subrange(0, i as int));
                lemma_put_writes(g0, a, item_key(pos as int), V::value_bytes(items@[i as int]@));
                lemma_put_writes(g1, a, len_key(), len_bytes(pos + 1));
                lemma_writes_chain(g0, g1, fork@, a, fork_space(g1, a), fork_space(fork@, a));
                lemma_writes_chain(f0, g0, fork@, a, prev, fork_space(fork@, a));
                let sub = vbs.subrange(0, i + 1);
                assert(sub.drop_last() =~= vbs.subrange(0, i as int));
                assert(sub.last() == V::value_bytes(items@[i as int]@));
            }
            i = i + 1;
        }
        assert(vbs.subrange(0, items@.len() as int) =~= vbs);
        Ok(())
    }

    /// Removes and returns the last item; `None` on an empty list. Fails, changing
    /// nothing, where the length or the last item does not decode or is missing.
    pub fn pop(&self, fork: &mut Fork) -> (r: Result<Option<V>, Error>)
        ensures
            match list_len(fork_space(old(fork)@, self.address())) {
                Some(n) => if n == 0 {
                    r matches Ok(None) && final(fork)@ == old(fork)@
                } else {
                    match map_read::<V>(fork_space(old(fork)@, self.address()), item_key(n - 1)) {
                        Ok(Some(v)) => read_view(r) == Ok::<Option<V::V>, ErrorKind>(Some(v))
                            && fork_writes(old(fork)@, final(fork)@, self.address(),
                                fork_space(old(fork)@, self.address()).remove(item_key(n - 1))
                                    .insert(len_key(), len_bytes(n - 1))),
                        _ => r matches Err(e) && e.kind == ErrorKind::DecodeFailure && final(fork)@ == old(fork)@,
                    }
                },
                None => r matches Err(e) && e.kind == ErrorKind::DecodeFailure && final(fork)@ == old(fork)@,
            },
    {
        let n = match self.len(&*fork) {
            Ok(n) => n,
            Err(e) => return Err(e),
        };
        if n == 0 {
            return Ok(None);
        }
        let last = n - 1;
        let kb = last.to_key_bytes();
        let v = match fork.get_raw(self.addr.as_slice(), kb.as_slice()) {
            Some(bytes) => match V::from_bytes(bytes.as_slice()) {
                Some(v) => v,
                None => return Err(Error::with_kind(ErrorKind::DecodeFailure, "undecodable list item".to_owned())),
            },
            None => return Err(Error::with_kind(ErrorKind::DecodeFailure, "missing list item".to_owned())),
        };
        let ghost f0 = fork@;
        let ghost a = self.addr@;
        fork.delete_raw(self.addr.as_slice(), kb);
        let ghost f1 = fork@;
        fork.put_raw(self.addr.as_slice(), len_key_bytes(), last.to_bytes());
        proof {
            lemma_delete_writes(f0, a, item_key(last as int));
            lemma_put_writes(f1, a, len_key(), len_bytes(last as int));
            lemma_writes_chain(f0, f1, fork@, a, fork_space(f1, a), fork_space(fork@, a));
        }
        Ok(Some(v))
    }

    /// Replaces the item at position `i`. Fails with `OutOfRange`, changing
    /// nothing, at or past the end.
    pub fn set(&self, fork: &mut Fork, i: u64, v: &V) -> (r: Result<(), Error>)
        ensures
            match list_len(fork_space(old(fork)@, self.address())) {
                Some(n) => if i < n {
                    r is Ok && fork_writes(old(fork)@, final(fork)@, self.address(),
                        fork_space(old(fork)@, self.address()).insert(item_key(i as int), V::value_bytes(v@)))
                } else {
                    r matches Err(e) && e.kind == ErrorKind::OutOfRange && final(fork)@ == old(fork)@
                },
                None => r matches Err(e) && e.kind == ErrorKind::DecodeFailure && final(fork)@ == old(fork)@,
            },
    {
        let n = match self.len(&*fork) {
            Ok(n) => n,
            Err(e) => return Err(e),
        };
        if i >= n {
            return Err(Error::with_kind(ErrorKind::OutOfRange, "list index out of range".to_owned()));
        }
        let ghost f0 = fork@;
        fork.put_raw(self.addr.as_slice(), i.to_key_bytes(), v.to_bytes());
        proof {
            lemma_put_writes(f0, self.addr@, item_key(i as int), V::value_bytes(v@));
        }
        Ok(())
    }

    /// Shortens the list to `len` items, dropping the rest; a longer `len` changes
    /// nothing.
    pub fn truncate(&self, fork: &mut Fork, len: u64) -> (r: Result<(), Error>)
        ensures
            match list_len(fork_space(old(fork)@, self.address())) {
                Some(n) => if len < n {
                    r is Ok && fork_writes(old(fork)@, final(fork)@, self.address(),
                        without_items(fork_space(old(fork)@, self.address()), len as int, n as int)
                            .insert(len_key(), len_bytes(len as int)))
                } else {
                    r is Ok && final(fork)@ == old(fork)@
                },
                None => r matches Err(e) && e.kind == ErrorKind::DecodeFailure && final(fork)@ == old(fork)@,
            },
    {
        let n = match self.len(&*fork) {
            Ok(n) => n,
            Err(e) => return Err(e),
        };
        if len >= n {
            return Ok(());
        }
        let ghost f0 = fork@;
        let ghost a = self.addr@;
        let ghost sp0 = fork_space(f0, a);
        let mut i: u64 = len;
        assert(fork_writes(f0, fork@, a, without_items(sp0, len as int, len as int)));
        while i < n
            invariant
                len <= i <= n,
                a == self.addr@,
                sp0 == fork_space(f0, a),
                fork_writes(f0, fork@, a, without_items(sp0, len as int, i as int)),
            decreases n - i,
        {
            let ghost g0 = fork@;
            fork.delete_raw(self.addr.as_slice(), i.to_key_bytes());
            proof {
                lemma_delete_writes(g0, a, item_key(i as int));
                lemma_writes_chain(f0, g0, fork@, a, without_items(sp0, len as int, i as int), fork_space(fork@, a));
            }
            i = i + 1;
        }
        let ghost g1 = fork@;
        fork.put_raw(self.addr.as_slice(), len_key_bytes(), len.to_bytes());
        proof {
            lemma_put_writes(g1, a, len_key(), len_bytes(len as int));
            lemma_writes_chain(f0, g1, fork@, a, fork_space(g1, a), fork_space(fork@, a));
        }
        Ok(())
    }

    /// Removes every item.
    pub fn clear(&self, fork: &mut Fork)
        ensures
            final(fork)@ == fork_clear(old(fork)@, self.address()),
    {
        fork.clear_raw(self.addr.as_slice());
    }

    /// All items in order of position. Fails with `DecodeFailure` where the length
    /// or an item does not decode or an item is missing.
    pub fn iter<A: RawAccess>(&self, access: &A) -> (r: Result<Values<V>, Error>)
        ensures
            match list_len(access.space(self.address())) {
                Some(n) => if items_decode::<V>(access.space(self.address()), n as int) {
                    r matches Ok(vs) && vs.remaining() == list_items::<V>(access.space(self.address()), n as int)
                } else {
                    r matches Err(e) && e.kind == ErrorKind::DecodeFailure
                },
                None => r matches Err(e) && e.kind == ErrorKind::DecodeFailure,
            },
    {
        let n = match self.len(access) {
            Ok(n) => n,
            Err(e) => return Err(e),
        };
        let ghost sp = access.space(self.addr@);
        let mut out: Vec<V> = Vec::new();
        let mut i: u64 = 0;
        while i < n
            invariant
                i <= n,
                sp == access.space(self.addr@),
                list_len(sp) == Some(n),
                items_decode::<V>(sp, i as int),
                out@.map_values(|x: V| x@) =~= list_items::<V>(sp, i as int),
            decreases n - i,
        {
            let kb = i.to_key_bytes();
            let v = match access.get_raw(self.addr.as_slice(), kb.as_slice()) {
                Some(bytes) => match V::from_bytes(bytes.as_slice()) {
                    Some(v) => v,
                    None => {
                        proof {
                            assert(!items_decode::<V>(sp, n as int)) by {
                                assert(sp.contains_key(item_key(i as int)));
                            }
                        }
                        return Err(Error::with_kind(ErrorKind::DecodeFailure, "undecodable list item".to_owned()));
                    },
                },
                None => {
                    proof {
                        assert(!items_decode::<V>(sp, n as int)) by {
                            assert(!sp.contains_key(item_key(i as int)));
                        }
                    }
                    return Err(Error::with_kind(ErrorKind::DecodeFailure, "missing list item".to_owned()));
                },
            };
            let ghost prev = out@;
            out.push(v);
            proof {
                assert(out@.map_values(|x: V| x@) =~= prev.map_values(|x: V| x@).push(v@));
                assert(list_items::<V>(sp, i + 1) =~= list_items::<V>(sp, i as int).push(v@));
            }
            i = i + 1;
        }
        let vs = Values::from_vec(out);
        Ok(vs)
    }
}

impl<V: BinaryValue> FromAddress for ListIndex<V> {
    open spec fn kind() -> IndexType {
        IndexType::List
    }

    open spec fn keyspace(&self) -> Seq<u8> {
        self.address()
    }

    fn from_address(fork: &mut Fork, addr: &IndexAddress) -> (r: Result<Self, Error>) {
        Self::open(fork, addr)
    }
}

} // verus!
