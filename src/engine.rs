//! How keyspaces lie in one flat ordered keyspace of a storage engine: each key is
//! the resolved address's length as four big-endian bytes, the address, then the
//! key within the keyspace.
use vstd::prelude::*;
use crate::codec::{
    BinaryKey, be_value, decode_be, encode_be, lemma_be_bytes_len, lemma_pow256_values,
};

verus! {

/// The flat engine key of key `k` in the keyspace at `a`.
pub open spec fn engine_key(a: Seq<u8>, k: Seq<u8>) -> Seq<u8> {
    <u32 as BinaryKey>::key_bytes(a.len() as u32) + a + k
}

/// The bytes `b` begin with a length field that the rest can hold.
pub open spec fn splits(b: Seq<u8>) -> bool {
    b.len() >= 4 && be_value(b.subrange(0, 4)) <= b.len() - 4
}

/// Joins a keyspace address and a key into one engine key.
pub fn join_engine_key(a: &[u8], k: &[u8]) -> (r: Vec<u8>)
    requires
        a@.len() <= u32::MAX,
    ensures
        r@ == engine_key(a@, k@),
{
    proof {
        lemma_pow256_values();
    }
    let head = encode_be(a.len() as u64, 4);
    let with_a = crate::address::concat_bytes(head.as_slice(), a);
    crate::address::concat_bytes(with_a.as_slice(), k)
}

/// Splits an engine key into the keyspace address and the key; `None` where the
/// length field does not fit.
pub fn split_engine_key(b: &[u8]) -> (r: Option<(Vec<u8>, Vec<u8>)>)
    ensures
        match r {
            Some((a, k)) => splits(b@) && b@ == engine_key(a@, k@) && a@.len() <= u32::MAX,
            None => !splits(b@),
        },
{
    if b.len() < 4 {
        return None;
    }
    let (head, rest) = b.split_at(4);
    let n = decode_be(head);
    if n > rest.len() as u64 {
        return None;
    }
    let (a, k) = rest.split_at(n as usize);
    proof {
        lemma_pow256_values();
        crate::codec::lemma_be_value_bound(head@);
        crate::codec::lemma_be_canonical(head@);
        assert(head@ =~= b@.subrange(0, 4));
        assert(b@ =~= head@ + a@ + k@);
        assert(<u32 as BinaryKey>::key_bytes(a@.len() as u32) == head@);
    }
    Some((vstd::slice::slice_to_vec(a), vstd::slice::slice_to_vec(k)))
}

/// Splitting a joined key gives back the address and the key.
pub proof fn lemma_engine_key_round_trip(a: Seq<u8>, k: Seq<u8>)
    requires
        a.len() <= u32::MAX,
    ensures
        splits(engine_key(a, k)),
        engine_key(a, k).subrange(4, 4 + a.len() as int) == a,
        engine_key(a, k).subrange(4 + a.len() as int, engine_key(a, k).len() as int) == k,
{
    lemma_pow256_values();
    lemma_be_bytes_len(a.len() as nat, 4);
    crate::codec::lemma_be_round_trip(a.len() as nat, 4);
    let e = engine_key(a, k);
    assert(e.subrange(0, 4) =~= <u32 as BinaryKey>::key_bytes(a.len() as u32));
    assert(e.subrange(4, 4 + a.len() as int) =~= a);
    assert(e.subrange(4 + a.len() as int, e.len() as int) =~= k);
}

} // verus!
