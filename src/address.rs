//! Index addresses, their resolution to keyspaces, and the system catalog that
//! records the type of every allocated index.
use vstd::prelude::*;
use vstd::slice::slice_to_vec;
use vstd::string::StringSliceAdditionalSpecFns;
use crate::codec::BinaryKey;
use crate::error::{Error, ErrorKind};

verus! {

/// The byte that begins the name of every staged index of a migration.
pub const STAGING_BYTE: u8 = 94;

/// The byte that separates the parts of a dotted name.
pub const DOT: u8 = 46;

/// The longest full name an index may have.
pub const MAX_NAME_LEN: usize = 250;

/// A byte allowed in a user index name: an ASCII letter or digit, `_`, `-` or `.`.
pub open spec fn is_name_byte(b: u8) -> bool {
    (48 <= b <= 57) || (65 <= b <= 90) || (97 <= b <= 122) || b == 95 || b == 45 || b == DOT
}

/// A name a user may give an index.
pub open spec fn is_valid_name(n: Seq<u8>) -> bool {
    0 < n.len() <= MAX_NAME_LEN && forall|i: int| 0 <= i < n.len() ==> is_name_byte(#[trigger] n[i])
}

/// A name that can be resolved: a user name, or a user name under the staging byte.
pub open spec fn is_resolvable_name(n: Seq<u8>) -> bool {
    is_valid_name(n) || (n.len() > 0 && n[0] == STAGING_BYTE && is_valid_name(n.drop_first()))
}

/// The bytes under which the keyspace of `(name, prefix)` is stored: the name's
/// length, the name, then the group prefix.
pub open spec fn resolved_key(name: Seq<u8>, prefix: Seq<u8>) -> Seq<u8> {
    seq![name.len() as u8] + name + prefix
}

/// The catalog's own keyspace: the empty name, which no index can have.
pub open spec fn catalog_key() -> Seq<u8> {
    seq![0u8]
}

/// Two addresses resolve to the same bytes only if they are the same address.
pub proof fn lemma_resolved_key_injective(na: Seq<u8>, pa: Seq<u8>, nb: Seq<u8>, pb: Seq<u8>)
    requires
        na.len() < 256,
        nb.len() < 256,
        resolved_key(na, pa) == resolved_key(nb, pb),
    ensures
        na == nb,
        pa == pb,
{
    let k = resolved_key(na, pa);
    assert(k[0] == na.len() as u8);
    assert(resolved_key(nb, pb)[0] == nb.len() as u8);
    assert(na.len() == nb.len());
    assert(na =~= k.subrange(1, na.len() as int + 1));
    assert(nb =~= resolved_key(nb, pb).subrange(1, nb.len() as int + 1));
    assert(pa =~= k.subrange(na.len() as int + 1, k.len() as int));
    assert(pb =~= resolved_key(nb, pb).subrange(nb.len() as int + 1, k.len() as int));
}

/// Logical address of an index: a dotted name and the bytes of the group keys
/// under which it stands (empty outside any group).
#[derive(Debug, Clone)]
pub struct IndexAddress {
    name: Vec<u8>,
    prefix: Vec<u8>,
}

impl View for IndexAddress {
    type V = (Seq<u8>, Seq<u8>);

    closed spec fn view(&self) -> (Seq<u8>, Seq<u8>) {
        (self.name@, self.prefix@)
    }
}

/// Whether every byte of `n` may stand in a user name.
fn check_name(n: &[u8]) -> (r: bool)
    ensures
        r == is_valid_name(n@),
{
    if n.len() == 0 || n.len() > MAX_NAME_LEN {
        return false;
    }
    let mut i: usize = 0;
    while i < n.len()
        invariant
            i <= n@.len(),
            forall|j: int| 0 <= j < i ==> is_name_byte(#[trigger] n@[j]),
        decreases n@.len() - i,
    {
        let b = n[i];
        if !((48 <= b && b <= 57) || (65 <= b && b <= 90) || (97 <= b && b <= 122) || b == 95
            || b == 45 || b == DOT) {
            return false;
        }
        i = i + 1;
    }
    true
}

/// `a` followed by `b`.
pub fn concat_bytes(a: &[u8], b: &[u8]) -> (r: Vec<u8>)
    ensures
        r@ == a@ + b@,
{
    concat(a, b)
}

/// `a` followed by `b`.
fn concat(a: &[u8], b: &[u8]) -> (r: Vec<u8>)
    ensures
        r@ == a@ + b@,
{
    let mut r = slice_to_vec(a);
    let mut i: usize = 0;
    while i < b.len()
        invariant
            i <= b@.len(),
            r@ == a@ + b@.subrange(0, i as int),
        decreases b@.len() - i,
    {
        r.push(b[i]);
        i = i + 1;
        assert(r@ =~= a@ + b@.subrange(0, i as int));
    }
    assert(b@.subrange(0, b@.len() as int) =~= b@);
    r
}

impl IndexAddress {
    /// The name of the address.
    pub open spec fn name_of(&self) -> Seq<u8> {
        self@.0
    }

    /// The group prefix of the address.
    pub open spec fn prefix_of(&self) -> Seq<u8> {
        self@.1
    }

    /// The address named by `name`, as it stands.
    pub(crate) fn from_bytes_unchecked(name: &[u8]) -> (r: IndexAddress)
        ensures
            r@ == (name@, Seq::<u8>::empty()),
    {
        IndexAddress { name: slice_to_vec(name), prefix: Vec::new() }
    }

    /// A copy of this address.
    pub fn duplicate(&self) -> (r: IndexAddress)
        ensures
            r@ == self@,
    {
        IndexAddress { name: self.name.clone(), prefix: self.prefix.clone() }
    }

    /// The address of a top-level index; fails with `InvalidName` on an empty or
    /// over-long name, or one with a byte outside letters, digits, `_`, `-`, `.`.
    pub fn from_root(name: &str) -> (r: Result<IndexAddress, Error>)
        ensures
            match r {
                Ok(a) => is_valid_name(name.spec_bytes()) && a@ == (name.spec_bytes(), Seq::<u8>::empty()),
                Err(e) => !is_valid_name(name.spec_bytes()) && e.kind == ErrorKind::InvalidName,
            },
    {
        let bytes = name.as_bytes();
        if check_name(bytes) {
            Ok(IndexAddress { name: slice_to_vec(bytes), prefix: Vec::new() })
        } else {
            Err(Error::with_kind(ErrorKind::InvalidName, "invalid index name".to_owned()))
        }
    }

    /// The address `suffix` inside this one's namespace: the name becomes
    /// `name.suffix`, the group prefix stays.
    pub fn append_name(&self, suffix: &str) -> (r: Result<IndexAddress, Error>)
        ensures
            match r {
                Ok(a) => a@ == (self.name_of() + seq![DOT] + suffix.spec_bytes(), self.prefix_of()),
                Err(e) => e.kind == ErrorKind::InvalidName,
            },
            r is Ok <==> (self.name_of().len() > 0 && is_valid_name(self.name_of() + seq![DOT] + suffix.spec_bytes())
                && suffix.spec_bytes().len() > 0),
    {
        let s = suffix.as_bytes();
        let dotted = concat(self.name.as_slice(), &[DOT]);
        let full = concat(dotted.as_slice(), s);
        assert(full@ == self.name@ + seq![DOT] + s@);
        if self.name.len() > 0 && s.len() > 0 && check_name(full.as_slice()) {
            Ok(IndexAddress { name: full, prefix: self.prefix.clone() })
        } else {
            Err(Error::with_kind(ErrorKind::InvalidName, "invalid index name".to_owned()))
        }
    }

    /// The address of the member of the group at this address under key `k`:
    /// the key's bytes are appended to the group prefix.
    pub fn in_group<K: BinaryKey>(&self, k: &K) -> (r: IndexAddress)
        ensures
            r@ == (self.name_of(), self.prefix_of() + K::key_bytes(k@)),
    {
        let kb = k.to_key_bytes();
        IndexAddress { name: self.name.clone(), prefix: concat(self.prefix.as_slice(), kb.as_slice()) }
    }

    /// The same address placed in the staging area of a migration.
    pub fn staged(&self) -> (r: IndexAddress)
        ensures
            r@ == (seq![STAGING_BYTE] + self.name_of(), self.prefix_of()),
    {
        IndexAddress { name: concat(&[STAGING_BYTE], self.name.as_slice()), prefix: self.prefix.clone() }
    }

    /// The bytes of the keyspace this address resolves to.
    pub fn resolve(&self) -> (r: Vec<u8>)
        requires
            self.name_of().len() < 256,
        ensures
            r@ == resolved_key(self.name_of(), self.prefix_of()),
    {
        let head: Vec<u8> = vec![self.name.len() as u8];
        let with_name = concat(head.as_slice(), self.name.as_slice());
        let r = concat(with_name.as_slice(), self.prefix.as_slice());
        assert(head@ =~= seq![self.name@.len() as u8]);
        r
    }
}

} // verus!
