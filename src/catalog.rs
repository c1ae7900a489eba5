//! The system catalog: for every allocated index, its type and identity, kept in a
//! keyspace of its own and written in the same patch as the data it describes.
use vstd::prelude::*;
use crate::address::{IndexAddress, catalog_key, is_resolvable_name, resolved_key};
use crate::codec::{
    BinaryValue, be_bytes, be_value, decode_be, encode_be, lemma_be_bytes_len, lemma_be_round_trip,
    lemma_pow256_values,
};
use crate::db::{
    Fork, ForkModel, PatchModel, RawAccess, Space, fork_space, fork_writes, lemma_merge_matches_fork,
    lemma_put_writes, lemma_writes_chain, merge_store,
};
use crate::error::{Error, ErrorKind};

verus! {

/// The kinds of index, and the mark left where one was removed.
#[derive(Debug, Clone, Copy, PartialEq, Eq, Structural)]
pub enum IndexType {
    Entry,
    List,
    SparseList,
    OrderedMap,
    KeySet,
    ValueSet,
    Group,
    Tombstone,
}

/// The byte that stands for each index type in the catalog.
pub open spec fn type_tag(t: IndexType) -> u8 {
    match t {
        IndexType::Entry => 1,
        IndexType::List => 2,
        IndexType::SparseList => 3,
        IndexType::OrderedMap => 4,
        IndexType::KeySet => 5,
        IndexType::ValueSet => 6,
        IndexType::Group => 7,
        IndexType::Tombstone => 8,
    }
}

pub open spec fn type_of_tag(b: u8) -> Option<IndexType> {
    if b == 1 {
        Some(IndexType::Entry)
    } else if b == 2 {
        Some(IndexType::List)
    } else if b == 3 {
        Some(IndexType::SparseList)
    } else if b == 4 {
        Some(IndexType::OrderedMap)
    } else if b == 5 {
        Some(IndexType::KeySet)
    } else if b == 6 {
        Some(IndexType::ValueSet)
    } else if b == 7 {
        Some(IndexType::Group)
    } else if b == 8 {
        Some(IndexType::Tombstone)
    } else {
        None
    }
}

/// What the catalog records of one index.
#[derive(Debug, Clone, Copy, PartialEq, Eq, Structural)]
pub struct IndexMetadata {
    pub index_type: IndexType,
    pub identity: u64,
}

/// Catalog layout of a record: the type byte, then the identity as eight
/// big-endian bytes.
pub open spec fn metadata_bytes(m: IndexMetadata) -> Seq<u8> {
    seq![type_tag(m.index_type)] + be_bytes(m.identity as nat, 8)
}

pub open spec fn metadata_of(b: Seq<u8>) -> Option<IndexMetadata> {
    if b.len() == 9 && type_of_tag(b[0]) is Some {
        Some(IndexMetadata { index_type: type_of_tag(b[0]).unwrap(), identity: be_value(b.drop_first()) as u64 })
    } else {
        None
    }
}

/// A catalog record reads back as itself.
pub proof fn lemma_metadata_round_trip(m: IndexMetadata)
    ensures
        metadata_of(metadata_bytes(m)) == Some(m),
{
    lemma_pow256_values();
    lemma_be_bytes_len(m.identity as nat, 8);
    lemma_be_round_trip(m.identity as nat, 8);
    assert(metadata_bytes(m).drop_first() =~= be_bytes(m.identity as nat, 8));
}

/// The catalog key of the counter from which identities are drawn; no resolved
/// address is empty.
pub open spec fn counter_key() -> Seq<u8> {
    Seq::empty()
}

/// The identity the next allocated index receives: `0` in a fresh catalog.
pub open spec fn next_identity(cat: Space) -> Option<u64> {
    if cat.contains_key(counter_key()) {
        <u64 as BinaryValue>::value_of(cat[counter_key()])
    } else {
        Some(0)
    }
}

/// The catalog after opening the address with key `key` as type `t`, or why that fails:
/// a matching record is reused; a tombstone is restamped with the new type; a
/// missing record is allocated with the next identity; another type is a mismatch.
pub open spec fn open_result(cat: Space, key: Seq<u8>, t: IndexType) -> Result<Space, ErrorKind> {
    if cat.contains_key(key) {
        match metadata_of(cat[key]) {
            Some(m) => if m.index_type == t {
                Ok(cat)
            } else if m.index_type == IndexType::Tombstone {
                Ok(cat.insert(key, metadata_bytes(IndexMetadata { index_type: t, identity: m.identity })))
            } else {
                Err(ErrorKind::TypeMismatch)
            },
            None => Err(ErrorKind::DecodeFailure),
        }
    } else {
        match next_identity(cat) {
            Some(n) => if n < u64::MAX {
                Ok(
                    cat.insert(counter_key(), <u64 as BinaryValue>::value_bytes((n + 1) as u64)).insert(
                        key,
                        metadata_bytes(IndexMetadata { index_type: t, identity: n }),
                    ),
                )
            } else {
                Err(ErrorKind::OutOfRange)
            },
            None => Err(ErrorKind::DecodeFailure),
        }
    }
}

/// Whether reading the address with key `key` as type `t` is allowed: no record, a
/// tombstone, or a record of that type.
pub open spec fn read_check(cat: Space, key: Seq<u8>, t: IndexType) -> Result<(), ErrorKind> {
    if cat.contains_key(key) {
        match metadata_of(cat[key]) {
            Some(m) => if m.index_type == t || m.index_type == IndexType::Tombstone {
                Ok(())
            } else {
                Err(ErrorKind::TypeMismatch)
            },
            None => Err(ErrorKind::DecodeFailure),
        }
    } else {
        Ok(())
    }
}

/// The record under `key` exists and is not a tombstone.
pub open spec fn index_exists(cat: Space, key: Seq<u8>) -> bool {
    cat.contains_key(key) && (metadata_of(cat[key]) matches Some(m) && m.index_type != IndexType::Tombstone)
}

impl IndexType {
    pub fn tag(&self) -> (r: u8)
        ensures
            r == type_tag(*self),
    {
        match self {
            IndexType::Entry => 1,
            IndexType::List => 2,
            IndexType::SparseList => 3,
            IndexType::OrderedMap => 4,
            IndexType::KeySet => 5,
            IndexType::ValueSet => 6,
            IndexType::Group => 7,
            IndexType::Tombstone => 8,
        }
    }

    pub fn from_tag(b: u8) -> (r: Option<IndexType>)
        ensures
            r == type_of_tag(b),
    {
        if b == 1 {
            Some(IndexType::Entry)
        } else if b == 2 {
            Some(IndexType::List)
        } else if b == 3 {
            Some(IndexType::SparseList)
        } else if b == 4 {
            Some(IndexType::OrderedMap)
        } else if b == 5 {
            Some(IndexType::KeySet)
        } else if b == 6 {
            Some(IndexType::ValueSet)
        } else if b == 7 {
            Some(IndexType::Group)
        } else if b == 8 {
            Some(IndexType::Tombstone)
        } else {
            None
        }
    }
}

impl IndexMetadata {
    pub fn to_bytes(&self) -> (r: Vec<u8>)
        ensures
            r@ == metadata_bytes(*self),
    {
        proof {
            lemma_pow256_values();
        }
        let mut r: Vec<u8> = vec![self.index_type.tag()];
        let id = encode_be(self.identity, 8);
        proof {
            lemma_be_bytes_len(self.identity as nat, 8);
        }
        assert(r@ =~= seq![type_tag(self.index_type)] + id@.subrange(0, 0));
        let mut i: usize = 0;
        while i < 8
            invariant
                id@.len() == 8,
                i <= 8,
                r@ == seq![type_tag(self.index_type)] + id@.subrange(0, i as int),
            decreases 8 - i,
        {
            r.push(id[i]);
            i = i + 1;
            assert(r@ =~= seq![type_tag(self.index_type)] + id@.subrange(0, i as int));
        }
        assert(id@.subrange(0, 8) =~= id@);
        proof {
            lemma_be_bytes_len(self.identity as nat, 8);
        }
        r
    }

    pub fn from_bytes(b: &[u8]) -> (r: Option<IndexMetadata>)
        ensures
            r == metadata_of(b@),
    {
        if b.len() != 9 {
            return None;
        }
        match IndexType::from_tag(b[0]) {
            Some(t) => {
                let (_, rest) = b.split_at(1);
                assert(rest@ =~= b@.drop_first());
                let id = decode_be(rest);
                Some(IndexMetadata { index_type: t, identity: id })
            },
            None => None,
        }
    }
}

/// The catalog's keyspace address.
fn catalog_address() -> (r: Vec<u8>)
    ensures
        r@ == catalog_key(),
{
    let r: Vec<u8> = vec![0u8];
    assert(r@ =~= catalog_key());
    r
}

/// Opens `addr` as an index of type `t` in the fork, allocating a catalog record
/// where there is none. Returns the bytes of the keyspace the index occupies.
pub fn open_index(fork: &mut Fork, addr: &IndexAddress, t: IndexType) -> (r: Result<Vec<u8>, Error>)
    requires
        is_resolvable_name(addr.name_of()),
    ensures
        match open_result(
            fork_space(old(fork)@, catalog_key()),
            resolved_key(addr.name_of(), addr.prefix_of()),
            t,
        ) {
            Ok(cat) => r matches Ok(a) && a@ == resolved_key(addr.name_of(), addr.prefix_of())
                && fork_writes(old(fork)@, final(fork)@, catalog_key(), cat),
            Err(kind) => r matches Err(e) && e.kind == kind && final(fork)@ == old(fork)@,
        },
{
    let key = addr.resolve();
    let cat = catalog_address();
    let ghost cat0 = fork_space(fork@, catalog_key());
    match fork.get_raw(cat.as_slice(), key.as_slice()) {
        Some(bytes) => match IndexMetadata::from_bytes(bytes.as_slice()) {
            Some(m) => {
                if m.index_type == t {
                    assert(fork_space(fork@, catalog_key()) == cat0);
                    Ok(key)
                } else if m.index_type == IndexType::Tombstone {
                    let restamped = IndexMetadata { index_type: t, identity: m.identity };
                    let ghost f0 = fork@;
                    fork.put_raw(cat.as_slice(), key.clone(), restamped.to_bytes());
                    proof {
                        lemma_put_writes(f0, catalog_key(), key@, metadata_bytes(restamped));
                    }
                    Ok(key)
                } else {
                    Err(Error::with_kind(ErrorKind::TypeMismatch, "index type mismatch".to_owned()))
                }
            },
            None => Err(Error::with_kind(ErrorKind::DecodeFailure, "corrupt catalog record".to_owned())),
        },
        None => {
            let ck: Vec<u8> = Vec::new();
            assert(ck@ =~= counter_key());
            let next = match fork.get_raw(cat.as_slice(), ck.as_slice()) {
                Some(bytes) => <u64 as BinaryValue>::from_bytes(bytes.as_slice()),
                None => Some(0u64),
            };
            match next {
                Some(n) => {
                    if n < u64::MAX {
                        let ghost f0 = fork@;
                        let bumped = n + 1;
                        fork.put_raw(cat.as_slice(), ck, bumped.to_bytes());
                        let ghost f1 = fork@;
                        let meta = IndexMetadata { index_type: t, identity: n };
                        fork.put_raw(cat.as_slice(), key.clone(), meta.to_bytes());
                        proof {
                            lemma_put_writes(f0, catalog_key(), counter_key(), <u64 as BinaryValue>::value_bytes(bumped));
                            lemma_put_writes(f1, catalog_key(), key@, metadata_bytes(meta));
                            lemma_writes_chain(f0, f1, fork@, catalog_key(), fork_space(f1, catalog_key()), fork_space(fork@, catalog_key()));
                        }
                        Ok(key)
                    } else {
                        Err(Error::with_kind(ErrorKind::OutOfRange, "index identities exhausted".to_owned()))
                    }
                },
                None => Err(Error::with_kind(ErrorKind::DecodeFailure, "corrupt identity counter".to_owned())),
            }
        },
    }
}

/// Checks that `addr` may be read as an index of type `t` through `access`, without
/// writing anything. Returns the bytes of the keyspace the index occupies.
pub fn check_index<A: RawAccess>(access: &A, addr: &IndexAddress, t: IndexType) -> (r: Result<Vec<u8>, Error>)
    requires
        is_resolvable_name(addr.name_of()),
    ensures
        match read_check(access.space(catalog_key()), resolved_key(addr.name_of(), addr.prefix_of()), t) {
            Ok(_) => r matches Ok(a) && a@ == resolved_key(addr.name_of(), addr.prefix_of()),
            Err(kind) => r matches Err(e) && e.kind == kind,
        },
{
    let key = addr.resolve();
    let cat = catalog_address();
    match access.get_raw(cat.as_slice(), key.as_slice()) {
        Some(bytes) => match IndexMetadata::from_bytes(bytes.as_slice()) {
            Some(m) => {
                if m.index_type == t || m.index_type == IndexType::Tombstone {
                    Ok(key)
                } else {
                    Err(Error::with_kind(ErrorKind::TypeMismatch, "index type mismatch".to_owned()))
                }
            },
            None => Err(Error::with_kind(ErrorKind::DecodeFailure, "corrupt catalog record".to_owned())),
        },
        None => Ok(key),
    }
}

/// Whether an index of any type other than a tombstone is recorded at `addr`.
pub fn exists_index<A: RawAccess>(access: &A, addr: &IndexAddress) -> (r: bool)
    requires
        is_resolvable_name(addr.name_of()),
    ensures
        r == index_exists(access.space(catalog_key()), resolved_key(addr.name_of(), addr.prefix_of())),
{
    let key = addr.resolve();
    let cat = catalog_address();
    match access.get_raw(cat.as_slice(), key.as_slice()) {
        Some(bytes) => match IndexMetadata::from_bytes(bytes.as_slice()) {
            Some(m) => m.index_type != IndexType::Tombstone,
            None => false,
        },
        None => false,
    }
}

/// Once an address has been opened as one type, opening it as another type fails
/// with a type mismatch.
pub proof fn lemma_type_safety(cat: Space, key: Seq<u8>, t1: IndexType, t2: IndexType)
    requires
        t1 != t2,
        t1 != IndexType::Tombstone,
        t2 != IndexType::Tombstone,
        open_result(cat, key, t1) is Ok,
    ensures
        open_result(open_result(cat, key, t1).unwrap(), key, t2) == Err::<Space, ErrorKind>(ErrorKind::TypeMismatch),
{
    let cat1 = open_result(cat, key, t1).unwrap();
    assert(cat1.contains_key(key));
    if cat.contains_key(key) {
        let m = metadata_of(cat[key]).unwrap();
        if m.index_type != t1 {
            lemma_metadata_round_trip(IndexMetadata { index_type: t1, identity: m.identity });
        }
    } else {
        let n = next_identity(cat).unwrap();
        lemma_metadata_round_trip(IndexMetadata { index_type: t1, identity: n });
    }
}

/// The same, across a commit: a fork opens an address as `t1` and is merged; a
/// fork of the merged store then fails to open the address as any other type.
pub proof fn lemma_type_safety_committed(
    f0: ForkModel,
    f1: ForkModel,
    key: Seq<u8>,
    t1: IndexType,
    t2: IndexType,
)
    requires
        t1 != t2,
        t1 != IndexType::Tombstone,
        t2 != IndexType::Tombstone,
        open_result(fork_space(f0, catalog_key()), key, t1) matches Ok(cat1) && fork_writes(
            f0,
            f1,
            catalog_key(),
            cat1,
        ),
    ensures
        open_result(
            fork_space(
                ForkModel { base: merge_store(f1.base, f1.pending), pending: PatchModel::empty() },
                catalog_key(),
            ),
            key,
            t2,
        ) == Err::<Space, ErrorKind>(ErrorKind::TypeMismatch),
{
    let g = ForkModel { base: merge_store(f1.base, f1.pending), pending: PatchModel::empty() };
    lemma_merge_matches_fork(f1, catalog_key());
    assert(fork_space(g, catalog_key()) =~= fork_space(f1, catalog_key()));
    lemma_type_safety(fork_space(f0, catalog_key()), key, t1, t2);
}

/// What opening `(name, prefix)` as type `t` in a fork does: on success the result
/// is the keyspace's bytes and only the catalog changes, as `open_result` says;
/// on failure the result is the error kind and the fork is unchanged.
pub open spec fn open_effect(
    old: ForkModel,
    new: ForkModel,
    name: Seq<u8>,
    prefix: Seq<u8>,
    t: IndexType,
    r: Result<Seq<u8>, ErrorKind>,
) -> bool {
    match open_result(fork_space(old, catalog_key()), resolved_key(name, prefix), t) {
        Ok(cat) => r == Ok::<Seq<u8>, ErrorKind>(resolved_key(name, prefix)) && fork_writes(old, new, catalog_key(), cat),
        Err(kind) => r == Err::<Seq<u8>, ErrorKind>(kind) && new == old,
    }
}

/// What checking `(name, prefix)` for reading as type `t` gives.
pub open spec fn check_effect(cat: Space, name: Seq<u8>, prefix: Seq<u8>, t: IndexType, r: Result<Seq<u8>, ErrorKind>) -> bool {
    match read_check(cat, resolved_key(name, prefix), t) {
        Ok(_) => r == Ok::<Seq<u8>, ErrorKind>(resolved_key(name, prefix)),
        Err(kind) => r == Err::<Seq<u8>, ErrorKind>(kind),
    }
}

/// An index kind that can be opened at an address of a fork.
pub trait FromAddress: Sized {
    /// The type the catalog records for this kind.
    spec fn kind() -> IndexType;

    /// The keyspace an opened index occupies.
    spec fn keyspace(&self) -> Seq<u8>;

    /// Opens the index at `addr`, recording it in the catalog if new.
    fn from_address(fork: &mut Fork, addr: &IndexAddress) -> (r: Result<Self, Error>)
        requires
            is_resolvable_name(addr.name_of()),
        ensures
            open_effect(old(fork)@, final(fork)@, addr.name_of(), addr.prefix_of(), Self::kind(),
                match r { Ok(m) => Ok(m.keyspace()), Err(e) => Err(e.kind) }),
    ;
}

} // verus!
