//! Groups: families of indexes of one kind, one under each key.
use vstd::prelude::*;
use core::marker::PhantomData;
use crate::address::{IndexAddress, is_resolvable_name, resolved_key, lemma_resolved_key_injective};
use crate::catalog::{FromAddress, open_effect};
use crate::db::Fork;
use crate::error::Error;
use crate::codec::BinaryKey;
use crate::db::{ForkModel, Space, fork_space, fork_writes};

verus! {

/// A factory of indexes: the member under key `k` stands at this group's address
/// with the bytes of `k` appended to its group prefix. A group has no catalog
/// record of its own; its members get theirs when first opened.
pub struct Group<K> {
    addr: IndexAddress,
    marker: PhantomData<K>,
}

impl<K: BinaryKey> Group<K> {
    /// The address the group stands at.
    pub closed spec fn base(&self) -> (Seq<u8>, Seq<u8>) {
        self.addr@
    }

    /// The group at `addr`.
    pub fn new(addr: &IndexAddress) -> (r: Self)
        ensures
            r.base() == addr@,
    {
        Group { addr: addr.duplicate(), marker: PhantomData }
    }

    /// The address of the member under `k`, at which any index may be opened.
    pub fn get(&self, k: &K) -> (r: IndexAddress)
        ensures
            r@ == (self.base().0, self.base().1 + K::key_bytes(k@)),
    {
        self.addr.in_group(k)
    }

    /// Opens the member under `k` as an index of kind `T`.
    pub fn open_member<T: FromAddress>(&self, fork: &mut Fork, k: &K) -> (r: Result<T, Error>)
        requires
            is_resolvable_name(self.base().0),
        ensures
            open_effect(old(fork)@, final(fork)@, self.base().0, self.base().1 + K::key_bytes(k@), T::kind(),
                match r { Ok(m) => Ok(m.keyspace()), Err(e) => Err(e.kind) }),
    {
        let addr = self.get(k);
        T::from_address(fork, &addr)
    }
}

/// Members of a group under distinct keys occupy distinct keyspaces: whatever a
/// fork writes to one member leaves another member reading as before, its
/// length included.
pub proof fn lemma_group_isolation<K: BinaryKey>(
    f: ForkModel,
    g: ForkModel,
    name: Seq<u8>,
    prefix: Seq<u8>,
    k1: K::V,
    k2: K::V,
    sp: Space,
)
    requires
        k1 != k2,
        name.len() < 256,
        fork_writes(f, g, resolved_key(name, prefix + K::key_bytes(k1)), sp),
    ensures
        fork_space(g, resolved_key(name, prefix + K::key_bytes(k2))) == fork_space(
            f,
            resolved_key(name, prefix + K::key_bytes(k2)),
        ),
{
    let a1 = resolved_key(name, prefix + K::key_bytes(k1));
    let a2 = resolved_key(name, prefix + K::key_bytes(k2));
    if a1 == a2 {
        lemma_resolved_key_injective(name, prefix + K::key_bytes(k1), name, prefix + K::key_bytes(k2));
        assert(K::key_bytes(k1) =~= (prefix + K::key_bytes(k1)).subrange(prefix.len() as int, (prefix + K::key_bytes(k1)).len() as int));
        assert(K::key_bytes(k2) =~= (prefix + K::key_bytes(k2)).subrange(prefix.len() as int, (prefix + K::key_bytes(k2)).len() as int));
        K::lemma_key_round_trip(k1);
        K::lemma_key_round_trip(k2);
    }
}

} // verus!
