//! Migrations: a new version of the indexes under a root name is written to a
//! staging area beside the old one, then moved over it in one patch.
use vstd::prelude::*;
use vstd::slice::slice_to_vec;
use vstd::string::StringSliceAdditionalSpecFns;
use crate::address::{
    DOT, IndexAddress, STAGING_BYTE, catalog_key, is_valid_name, resolved_key,
};
use crate::byte_map::{ByteMap, DeepCopy, strictly_sorted};
use crate::catalog::{IndexMetadata, IndexType, metadata_of, open_effect, open_index};
use crate::db::{
    Fork, ForkModel, RawAccess, Space, fork_space, fork_writes, lemma_clear_writes,
    lemma_delete_writes, lemma_put_writes, lemma_writes_chain,
};
use crate::error::{Error, ErrorKind};
use crate::order::{bytes_have_prefix, has_prefix};

verus! {

/// The name prefix under which the staged indexes of root `root` stand.
pub open spec fn staging_prefix(root: Seq<u8>) -> Seq<u8> {
    seq![STAGING_BYTE] + root
}

/// The name within a resolved key.
pub open spec fn name_in(key: Seq<u8>) -> Seq<u8> {
    key.subrange(1, 1 + key[0] as int)
}

/// `key` is the resolved key of an index staged under `root`: its name is `^root`
/// or begins with `^root.`.
pub open spec fn is_staged_under(key: Seq<u8>, root: Seq<u8>) -> bool {
    &&& key.len() > 0
    &&& 1 + key[0] <= key.len()
    &&& has_prefix(name_in(key), staging_prefix(root))
    &&& (name_in(key).len() == root.len() + 1 || name_in(key)[root.len() as int + 1] == DOT)
}

/// Where a staged key moves: the same address without the staging byte.
pub open spec fn target_of(key: Seq<u8>) -> Seq<u8> {
    seq![(key[0] - 1) as u8] + key.subrange(2, key.len() as int)
}

/// The staged key that moves to `key`.
pub open spec fn source_of(key: Seq<u8>) -> Seq<u8> {
    seq![(key[0] + 1) as u8, STAGING_BYTE] + key.subrange(1, key.len() as int)
}

/// The record under catalog key `s` marks a removal.
pub open spec fn is_removal(cat: Space, s: Seq<u8>) -> bool {
    metadata_of(cat[s]) matches Some(m) && m.index_type == IndexType::Tombstone
}

/// `key` receives the index staged at its source, one of the keys in `moved`.
pub open spec fn is_target_in(key: Seq<u8>, moved: Set<Seq<u8>>) -> bool {
    key.len() > 0 && key[0] < 255 && moved.contains(source_of(key))
}

/// The catalog once the staged keys in `moved` have moved: their records stand
/// at their targets, and nowhere under the staging name.
pub open spec fn moved_catalog(cat: Space, moved: Set<Seq<u8>>) -> Space {
    Map::new(
        |k: Seq<u8>| (cat.contains_key(k) && !moved.contains(k)) || is_target_in(k, moved),
        |k: Seq<u8>| if is_target_in(k, moved) { cat[source_of(k)] } else { cat[k] },
    )
}

/// What the fork `f` reads at `a` once the staged keys in `moved` have moved: a
/// staged keyspace is empty; its target holds what the staged one held, or
/// nothing where the staged record marks a removal; the catalog is moved as
/// `moved_catalog` says; everything else is as before.
pub open spec fn moved_space(f: ForkModel, moved: Set<Seq<u8>>, a: Seq<u8>) -> Space {
    let cat = fork_space(f, catalog_key());
    if a == catalog_key() {
        moved_catalog(cat, moved)
    } else if moved.contains(a) {
        Map::empty()
    } else if is_target_in(a, moved) {
        if is_removal(cat, source_of(a)) {
            Map::empty()
        } else {
            fork_space(f, source_of(a))
        }
    } else {
        fork_space(f, a)
    }
}

/// The staged keys under `root` that the catalog of `f` records.
pub open spec fn staged_keys(f: ForkModel, root: Seq<u8>) -> Set<Seq<u8>> {
    fork_space(f, catalog_key()).dom().filter(|k: Seq<u8>| is_staged_under(k, root))
}

/// The facts about staged keys and their targets that moving relies on.
pub proof fn lemma_staged_shape(s: Seq<u8>, root: Seq<u8>)
    requires
        is_valid_name(root),
        is_staged_under(s, root),
    ensures
        s[1] == STAGING_BYTE,
        s[0] >= 2,
        target_of(s) != s,
        target_of(s) != catalog_key(),
        s != catalog_key(),
        target_of(s).len() > 0,
        target_of(s)[0] < 255,
        source_of(target_of(s)) == s,
        !is_staged_under(target_of(s), root),
{
    let name = name_in(s);
    assert(name[0] == staging_prefix(root)[0]);
    assert(name[0] == s[1]);
    assert(root.len() >= 1);
    let t = target_of(s);
    assert(source_of(t) =~= s);
    assert(t[1] == s[2]);
    assert(name[1] == staging_prefix(root)[1]);
    assert(staging_prefix(root)[1] == root[0]);
    assert(crate::address::is_name_byte(root[0]));
    if is_staged_under(t, root) {
        assert(name_in(t)[0] == t[1]);
        assert(name_in(t)[0] == staging_prefix(root)[0]);
    }
}

/// Once every staged index has moved, no staged key is left in the catalog and no
/// staged keyspace holds anything.
pub proof fn lemma_flush_empties_staging(f: ForkModel, root: Seq<u8>, a: Seq<u8>)
    requires
        is_valid_name(root),
        is_staged_under(a, root),
    ensures
        staged_keys(f, root).contains(a) ==> moved_space(f, staged_keys(f, root), a) == Map::<Seq<u8>, Seq<u8>>::empty(),
        !moved_catalog(fork_space(f, catalog_key()), staged_keys(f, root)).contains_key(a),
{
    lemma_staged_shape(a, root);
    let moved = staged_keys(f, root);
    if is_target_in(a, moved) {
        lemma_staged_shape(source_of(a), root);
        assert(source_of(a)[1] == STAGING_BYTE);
        assert(target_of(source_of(a)) =~= a);
        assert(!is_staged_under(a, root));
    }
}

/// After the move each staged index stands at its target: its records and its
/// contents, or nothing where it marked a removal.
pub proof fn lemma_flush_moves(f: ForkModel, root: Seq<u8>, s: Seq<u8>)
    requires
        is_valid_name(root),
        staged_keys(f, root).contains(s),
    ensures
        moved_space(f, staged_keys(f, root), target_of(s)) == (if is_removal(fork_space(f, catalog_key()), s) {
            Map::<Seq<u8>, Seq<u8>>::empty()
        } else {
            fork_space(f, s)
        }),
        moved_catalog(fork_space(f, catalog_key()), staged_keys(f, root)).contains_key(target_of(s)),
        moved_catalog(fork_space(f, catalog_key()), staged_keys(f, root))[target_of(s)] == fork_space(f, catalog_key())[s],
{
    lemma_staged_shape(s, root);
}

/// Fills the empty keyspace `t` with the entries of `content`.
fn copy_into(fork: &mut Fork, t: &[u8], content: &ByteMap<Vec<u8>>)
    requires
        fork_space(old(fork)@, t@) == Map::<Seq<u8>, Seq<u8>>::empty(),
    ensures
        fork_writes(old(fork)@, final(fork)@, t@, content@),
{
    let ghost f0 = fork@;
    let n = content.len();
    let ghost keys = content.keys();
    let ghost m = content@;
    assert(m.restrict(keys.subrange(0, 0).to_set()) =~= Map::<Seq<u8>, Seq<u8>>::empty());
    let mut i: usize = 0;
    while i < n
        invariant
            n == keys.len(),
            keys == content.keys(),
            m == content@,
            keys.len() == content.vals().len(),
            forall|k: Seq<u8>| m.contains_key(k) <==> keys.contains(k),
            forall|j: int| 0 <= j < keys.len() ==> #[trigger] m[keys[j]] == content.vals()[j],
            i <= n,
            fork_writes(f0, fork@, t@, m.restrict(keys.subrange(0, i as int).to_set())),
        decreases n - i,
    {
        let k = content.key_at(i);
        let v = content.value_at(i);
        let ghost g = fork@;
        let ghost prev = m.restrict(keys.subrange(0, i as int).to_set());
        fork.put_raw(t, k.deep_copy(), v.deep_copy());
        proof {
            lemma_put_writes(g, t@, k@, v@);
            lemma_writes_chain(f0, g, fork@, t@, prev, fork_space(fork@, t@));
            let ki = keys[i as int];
            assert(keys.contains(ki));
            let s0 = keys.subrange(0, i as int);
            let s1 = keys.subrange(0, i + 1);
            assert forall|x: Seq<u8>| s1.to_set().contains(x) <==> (s0.to_set().contains(x) || x == ki) by {
                if s1.contains(x) {
                    let j = s1.index_of(x);
                    if j < i {
                        assert(s0[j] == x);
                    }
                }
                if s0.contains(x) {
                    let j = s0.index_of(x);
                    assert(s1[j] == x);
                }
                if x == ki {
                    assert(s1[i as int] == x);
                }
            }
            assert(m.restrict(s1.to_set()) =~= prev.insert(ki, m[ki]));
        }
        i = i + 1;
    }
    assert(m.restrict(keys.subrange(0, n as int).to_set()) =~= m) by {
        assert(keys.subrange(0, n as int) =~= keys);
    }
}

/// A namespace for addresses under a dotted prefix.
pub struct Prefixed {
    prefix: Vec<u8>,
}

impl Prefixed {
    pub closed spec fn prefix(&self) -> Seq<u8> {
        self.prefix@
    }

    /// The namespace `prefix`; fails with `InvalidName` where it is not a valid name.
    pub fn new(prefix: &str) -> (r: Result<Prefixed, Error>)
        ensures
            match r {
                Ok(p) => is_valid_name(prefix.spec_bytes()) && p.prefix() == prefix.spec_bytes(),
                Err(e) => !is_valid_name(prefix.spec_bytes()) && e.kind == ErrorKind::InvalidName,
            },
    {
        match IndexAddress::from_root(prefix) {
            Ok(_) => Ok(Prefixed { prefix: slice_to_vec(prefix.as_bytes()) }),
            Err(e) => Err(e),
        }
    }

    /// The address `prefix.name`.
    pub fn address(&self, name: &str) -> (r: Result<IndexAddress, Error>)
        ensures
            match r {
                Ok(a) => a@ == (self.prefix() + seq![DOT] + name.spec_bytes(), Seq::<u8>::empty()),
                Err(e) => e.kind == ErrorKind::InvalidName,
            },
            r is Ok <==> (self.prefix().len() > 0 && name.spec_bytes().len() > 0 && is_valid_name(
                self.prefix() + seq![DOT] + name.spec_bytes(),
            )),
    {
        let base = IndexAddress::from_bytes_unchecked(self.prefix.as_slice());
        base.append_name(name)
    }
}

/// A migration of the indexes under `root`: addresses given out here are staged.
pub struct Migration {
    root: Vec<u8>,
}

impl Migration {
    pub closed spec fn root(&self) -> Seq<u8> {
        self.root@
    }

    /// The migration of root `root`; fails with `InvalidName` where it is not a
    /// valid name.
    pub fn new(root: &str) -> (r: Result<Migration, Error>)
        ensures
            match r {
                Ok(m) => is_valid_name(root.spec_bytes()) && m.root() == root.spec_bytes(),
                Err(e) => !is_valid_name(root.spec_bytes()) && e.kind == ErrorKind::InvalidName,
            },
    {
        match IndexAddress::from_root(root) {
            Ok(_) => Ok(Migration { root: slice_to_vec(root.as_bytes()) }),
            Err(e) => Err(e),
        }
    }

    /// The staged address of `root.name`: `^root.name`.
    pub fn address(&self, name: &str) -> (r: Result<IndexAddress, Error>)
        ensures
            match r {
                Ok(a) => a@ == (seq![STAGING_BYTE] + self.root() + seq![DOT] + name.spec_bytes(), Seq::<u8>::empty()),
                Err(e) => e.kind == ErrorKind::InvalidName,
            },
            r is Ok <==> (self.root().len() > 0 && name.spec_bytes().len() > 0 && is_valid_name(
                self.root() + seq![DOT] + name.spec_bytes(),
            )),
    {
        let base = IndexAddress::from_bytes_unchecked(self.root.as_slice());
        match base.append_name(name) {
            Ok(a) => {
                let staged = a.staged();
                assert(staged@.0 =~= seq![STAGING_BYTE] + self.root@ + seq![DOT] + name.spec_bytes());
                Ok(staged)
            },
            Err(e) => Err(e),
        }
    }
}

/// Marks the staged address `addr` so that flushing the migration removes the
/// live index it stands for.
pub fn create_tombstone(fork: &mut Fork, addr: &IndexAddress) -> (r: Result<(), Error>)
    requires
        crate::address::is_resolvable_name(addr.name_of()),
    ensures
        open_effect(old(fork)@, final(fork)@, addr.name_of(), addr.prefix_of(), IndexType::Tombstone,
            match r { Ok(_) => Ok(resolved_key(addr.name_of(), addr.prefix_of())), Err(e) => Err(e.kind) }),
{
    match open_index(fork, addr, IndexType::Tombstone) {
        Ok(_) => Ok(()),
        Err(e) => Err(e),
    }
}

/// Whether `key` is the resolved key of an index staged under `root`.
fn check_staged(key: &[u8], root: &[u8]) -> (r: bool)
    ensures
        r == is_staged_under(key@, root@),
{
    if key.len() == 0 {
        return false;
    }
    let len = key[0] as usize;
    if 1 + len > key.len() {
        return false;
    }
    let name = slice_subrange(key, 1, 1 + len);
    let head: Vec<u8> = vec![STAGING_BYTE];
    assert(head@ =~= seq![STAGING_BYTE]);
    let sp = crate::address::concat_bytes(head.as_slice(), root);
    assert(name@ == name_in(key@));
    assert(sp@ == staging_prefix(root@));
    if !bytes_have_prefix(name.as_slice(), sp.as_slice()) {
        return false;
    }
    name.len() == root.len() + 1 || name[root.len() + 1] == DOT
}

/// The bytes of `s` from `from` up to `to`.
fn slice_subrange(s: &[u8], from: usize, to: usize) -> (r: Vec<u8>)
    requires
        from <= to <= s@.len(),
    ensures
        r@ == s@.subrange(from as int, to as int),
{
    let mut r: Vec<u8> = Vec::new();
    let mut i: usize = from;
    while i < to
        invariant
            from <= i <= to <= s@.len(),
            r@ == s@.subrange(from as int, i as int),
        decreases to - i,
    {
        r.push(s[i]);
        i = i + 1;
        assert(r@ =~= s@.subrange(from as int, i as int));
    }
    r
}

/// The key a staged key moves to.
fn target_key(s: &[u8]) -> (r: Vec<u8>)
    requires
        s@.len() >= 2,
        s@[0] >= 1,
    ensures
        r@ == target_of(s@),
{
    let mut r: Vec<u8> = vec![s[0] - 1];
    let rest = slice_subrange(s, 2, s.len());
    let mut i: usize = 0;
    while i < rest.len()
        invariant
            i <= rest@.len(),
            rest@ == s@.subrange(2, s@.len() as int),
            r@ == seq![(s@[0] - 1) as u8] + rest@.subrange(0, i as int),
        decreases rest@.len() - i,
    {
        r.push(rest[i]);
        i = i + 1;
        assert(r@ =~= seq![(s@[0] - 1) as u8] + rest@.subrange(0, i as int));
    }
    assert(rest@.subrange(0, rest@.len() as int) =~= rest@);
    r
}

/// Moves the keyspace `s` to `t`, or empties `t` where `removal` holds, and moves
/// the catalog record `meta` from `s` to `t`.
fn move_one(fork: &mut Fork, s: &[u8], t: &[u8], meta: &Vec<u8>, removal: bool)
    requires
        s@ != t@,
        s@ != catalog_key(),
        t@ != catalog_key(),
    ensures
        final(fork)@.base == old(fork)@.base,
        fork_space(final(fork)@, s@) == Map::<Seq<u8>, Seq<u8>>::empty(),
        fork_space(final(fork)@, t@) == (if removal {
            Map::<Seq<u8>, Seq<u8>>::empty()
        } else {
            fork_space(old(fork)@, s@)
        }),
        fork_space(final(fork)@, catalog_key()) == fork_space(old(fork)@, catalog_key()).insert(t@, meta@).remove(s@),
        forall|a: Seq<u8>|
            a != s@ && a != t@ && a != catalog_key() ==> #[trigger] fork_space(final(fork)@, a) == fork_space(old(fork)@, a),
{
    let ghost f0 = fork@;
    let content = fork.space_raw(s);
    fork.clear_raw(t);
    proof {
        lemma_clear_writes(f0, t@);
    }
    let ghost f1 = fork@;
    if !removal {
        copy_into(fork, t, &content);
    }
    let ghost f2 = fork@;
    fork.clear_raw(s);
    proof {
        lemma_clear_writes(f2, s@);
    }
    let ghost f3 = fork@;
    let cat: Vec<u8> = vec![0u8];
    assert(cat@ =~= catalog_key());
    fork.put_raw(cat.as_slice(), slice_to_vec(t), meta.deep_copy());
    proof {
        lemma_put_writes(f3, catalog_key(), t@, meta@);
    }
    let ghost f4 = fork@;
    fork.delete_raw(cat.as_slice(), slice_to_vec(s));
    proof {
        lemma_delete_writes(f4, catalog_key(), s@);
        assert forall|a: Seq<u8>|
            a != s@ && a != t@ && a != catalog_key() implies #[trigger] fork_space(fork@, a) == fork_space(f0, a) by {
            assert(fork_space(f1, a) == fork_space(f0, a));
            assert(fork_space(f2, a) == fork_space(f1, a));
            assert(fork_space(f3, a) == fork_space(f2, a));
            assert(fork_space(f4, a) == fork_space(f3, a));
        }
        assert(fork_space(f1, s@) == fork_space(f0, s@));
        assert(fork_space(f2, t@) == fork_space(f3, t@));
        assert(fork_space(f3, t@) == fork_space(f4, t@));
        assert(fork_space(f1, catalog_key()) == fork_space(f0, catalog_key()));
        assert(fork_space(f2, catalog_key()) == fork_space(f1, catalog_key()));
        assert(fork_space(f3, catalog_key()) == fork_space(f2, catalog_key()));
        assert(fork_space(f4, s@) == fork_space(f3, s@));
    }
}

/// Every staged record under `root` decodes.
pub open spec fn staged_records_decode(f: ForkModel, root: Seq<u8>) -> bool {
    forall|s: Seq<u8>| #[trigger] staged_keys(f, root).contains(s) ==> metadata_of(fork_space(f, catalog_key())[s]) is Some
}

proof fn lemma_source_target(k: Seq<u8>)
    requires
        k.len() > 0,
        k[0] < 255,
    ensures
        target_of(source_of(k)) == k,
        source_of(k).len() >= 2,
        source_of(k)[0] >= 1,
{
    assert(target_of(source_of(k)) =~= k);
}

/// Flushes the migration of `root`: every index staged under `^root` replaces the
/// live index it stands for, data and catalog record together; a staged removal
/// empties the live index and leaves a tombstone; the staging area ends empty.
/// All of it lands in this fork, and so in one patch. Fails, changing nothing,
/// with `InvalidName` on an invalid root and with `MigrationConflict` where a
/// staged catalog record does not decode.
pub fn flush_migration(fork: &mut Fork, root: &str) -> (r: Result<(), Error>)
    ensures
        !is_valid_name(root.spec_bytes()) ==> (r matches Err(e) && e.kind == ErrorKind::InvalidName
            && final(fork)@ == old(fork)@),
        is_valid_name(root.spec_bytes()) && !staged_records_decode(old(fork)@, root.spec_bytes()) ==> (
            r matches Err(e) && e.kind == ErrorKind::MigrationConflict && final(fork)@ == old(fork)@),
        is_valid_name(root.spec_bytes()) && staged_records_decode(old(fork)@, root.spec_bytes()) ==> (
            r is Ok && final(fork)@.base == old(fork)@.base && forall|a: Seq<u8>|
                #[trigger] fork_space(final(fork)@, a) == moved_space(
                    old(fork)@,
                    staged_keys(old(fork)@, root.spec_bytes()),
                    a,
                )),
{
    match IndexAddress::from_root(root) {
        Ok(_) => {},
        Err(e) => return Err(e),
    }
    let rb = root.as_bytes();
    let ghost rv = rb@;
    let ghost f0 = fork@;
    let cat: Vec<u8> = vec![0u8];
    assert(cat@ =~= catalog_key());
    let ghost cv = fork_space(f0, catalog_key());
    let cat_space = fork.space_raw(cat.as_slice());
    let n = cat_space.len();
    let ghost keys = cat_space.keys();
    let mut staged: Vec<(Vec<u8>, Vec<u8>)> = Vec::new();
    let ghost mut ss: Seq<Seq<u8>> = Seq::empty();
    let mut i: usize = 0;
    while i < n
        invariant
            n == keys.len(),
            keys == cat_space.keys(),
            cv == cat_space@,
            keys.len() == cat_space.vals().len(),
            strictly_sorted(keys),
            forall|k: Seq<u8>| cv.contains_key(k) <==> keys.contains(k),
            forall|j: int| 0 <= j < keys.len() ==> #[trigger] cv[keys[j]] == cat_space.vals()[j],
            i <= n,
            rv == rb@,
            rv == root.spec_bytes(),
            is_valid_name(rv),
            fork@ == f0,
            f0 == old(fork)@,
            cv == fork_space(f0, catalog_key()),
            ss.len() == staged@.len(),
            forall|j: int| 0 <= j < ss.len() ==> #[trigger] staged@[j].0@ == ss[j] && staged@[j].1@ == cv[ss[j]]
                && is_staged_under(ss[j], rv) && cv.contains_key(ss[j]) && metadata_of(cv[ss[j]]) is Some,
            forall|j: int| 0 <= j < ss.len() ==> exists|idx: int| 0 <= idx < i && keys[idx] == #[trigger] ss[j],
            forall|j1: int, j2: int| 0 <= j1 < j2 < ss.len() ==> crate::order::lex_lt(#[trigger] ss[j1], #[trigger] ss[j2]),
            forall|idx: int| 0 <= idx < i && is_staged_under(#[trigger] keys[idx], rv) ==> ss.contains(keys[idx]),
        decreases n - i,
    {
        let k = cat_space.key_at(i);
        if check_staged(k.as_slice(), rb) {
            let meta = cat_space.value_at(i);
            proof {
                assert(keys.contains(keys[i as int]));
            }
            match IndexMetadata::from_bytes(meta.as_slice()) {
                Some(_) => {},
                None => {
                    proof {
                        assert(staged_keys(f0, rv).contains(keys[i as int]));
                        assert(cv[keys[i as int]] == cat_space.vals()[i as int]);
                        assert(metadata_of(cv[keys[i as int]]) is None);
                        assert(!staged_records_decode(f0, rv));
                    }
                    return Err(Error::with_kind(ErrorKind::MigrationConflict, "corrupt staged catalog record".to_owned()));
                },
            }
            let ghost prev = ss;
            staged.push((k.deep_copy(), meta.deep_copy()));
            proof {
                ss = ss.push(keys[i as int]);
                assert forall|j: int| 0 <= j < ss.len() implies exists|idx: int| 0 <= idx < i + 1 && keys[idx] == #[trigger] ss[j] by {
                    if j < prev.len() {
                        let idx = choose|idx: int| 0 <= idx < i && keys[idx] == prev[j];
                        assert(keys[idx] == ss[j]);
                    } else {
                        assert(keys[i as int] == ss[j]);
                    }
                }
                assert forall|j1: int, j2: int| 0 <= j1 < j2 < ss.len() implies crate::order::lex_lt(#[trigger] ss[j1], #[trigger] ss[j2]) by {
                    if j2 == prev.len() {
                        let idx = choose|idx: int| 0 <= idx < i && keys[idx] == prev[j1];
                        assert(ss[j1] == keys[idx]);
                    }
                }
                assert forall|idx: int| 0 <= idx < i + 1 && is_staged_under(#[trigger] keys[idx], rv) implies ss.contains(keys[idx]) by {
                    if idx < i {
                        let j = choose|j: int| 0 <= j < prev.len() && prev[j] == keys[idx];
                        assert(ss[j] == keys[idx]);
                    } else {
                        assert(ss[ss.len() - 1] == keys[idx]);
                    }
                }
            }
        } else {
            proof {
                assert forall|idx: int| 0 <= idx < i + 1 && is_staged_under(#[trigger] keys[idx], rv) implies ss.contains(keys[idx]) by {
                }
            }
        }
        i = i + 1;
    }
    let ghost moved_all = staged_keys(f0, rv);
    proof {
        assert(ss.to_set() =~= moved_all) by {
            assert forall|x: Seq<u8>| ss.to_set().contains(x) implies moved_all.contains(x) by {
                let j = ss.index_of(x);
                assert(staged@[j].0@ == ss[j]);
            }
            assert forall|x: Seq<u8>| moved_all.contains(x) implies ss.to_set().contains(x) by {
                assert(keys.contains(x));
                let idx = keys.index_of(x);
            }
        }
        assert(staged_records_decode(f0, rv)) by {
            assert forall|x: Seq<u8>| #[trigger] moved_all.contains(x) implies metadata_of(cv[x]) is Some by {
                assert(ss.to_set().contains(x));
                let j = ss.index_of(x);
                assert(staged@[j].0@ == ss[j]);
            }
        }
        assert forall|a: Seq<u8>| #[trigger] fork_space(fork@, a) == moved_space(f0, ss.subrange(0, 0).to_set(), a) by {
            assert(ss.subrange(0, 0).to_set() =~= Set::<Seq<u8>>::empty());
            if a == catalog_key() {
                assert(moved_catalog(cv, Set::<Seq<u8>>::empty()) =~= cv);
            }
        }
    }
    let m = staged.len();
    let ghost sq = ss;
    proof {
        assert forall|q: int| 0 <= q < sq.len() implies #[trigger] staged@[q].0@ == sq[q] && staged@[q].1@ == cv[sq[q]]
            && is_staged_under(sq[q], rv) && cv.contains_key(sq[q]) && metadata_of(cv[sq[q]]) is Some by {
            assert(staged@[q].0@ == sq[q]);
        }
    }
    let mut j: usize = 0;
    while j < m
        invariant
            m == staged@.len(),
            sq.len() == m,
            j <= m,
            is_valid_name(rv),
            cv == fork_space(f0, catalog_key()),
            fork@.base == f0.base,
            forall|q: int| 0 <= q < sq.len() ==> #[trigger] staged@[q].0@ == sq[q] && staged@[q].1@ == cv[sq[q]]
                && is_staged_under(sq[q], rv) && cv.contains_key(sq[q]) && metadata_of(cv[sq[q]]) is Some,
            forall|j1: int, j2: int| 0 <= j1 < j2 < sq.len() ==> crate::order::lex_lt(#[trigger] sq[j1], #[trigger] sq[j2]),
            forall|a: Seq<u8>| #[trigger] fork_space(fork@, a) == moved_space(f0, sq.subrange(0, j as int).to_set(), a),
        decreases m - j,
    {
        let s = &staged[j].0;
        let meta = &staged[j].1;
        let ghost sv = sq[j as int];
        let ghost p = sq.subrange(0, j as int).to_set();
        let ghost done_after = sq.subrange(0, j + 1).to_set();
        proof {
            assert(staged@[j as int].0@ == sq[j as int]);
            lemma_staged_shape(sv, rv);
            assert(done_after =~= p.insert(sv)) by {
                assert forall|x: Seq<u8>| done_after.contains(x) <==> (p.contains(x) || x == sv) by {
                    let s0 = sq.subrange(0, j as int);
                    let s1 = sq.subrange(0, j + 1);
                    if s1.contains(x) {
                        let q = s1.index_of(x);
                        if q < j {
                            assert(s0[q] == x);
                        }
                    }
                    if s0.contains(x) {
                        let q = s0.index_of(x);
                        assert(s1[q] == x);
                    }
                    if x == sv {
                        assert(s1[j as int] == x);
                    }
                }
            }
            assert(!p.contains(sv)) by {
                if p.contains(sv) {
                    let s0 = sq.subrange(0, j as int);
                    let q = s0.index_of(sv);
                    assert(sq[q] == sv);
                    crate::order::lemma_lex_irreflexive(sv);
                }
            }
        }
        let t = target_key(s.as_slice());
        let removal = match IndexMetadata::from_bytes(meta.as_slice()) {
            Some(md) => md.index_type == IndexType::Tombstone,
            None => false,
        };
        let ghost cur = fork@;
        let ghost tv = t@;
        proof {
            assert(removal == is_removal(cv, sv));
            assert(fork_space(cur, sv) == fork_space(f0, sv)) by {
                if is_target_in(sv, p) {
                    lemma_staged_shape(source_of(sv), rv);
                    lemma_source_target(sv);
                }
            }
        }
        move_one(fork, s.as_slice(), t.as_slice(), meta, removal);
        proof {
            assert forall|a: Seq<u8>| #[trigger] fork_space(fork@, a) == moved_space(f0, done_after, a) by {
                if a == catalog_key() {
                    let c0 = moved_catalog(cv, p);
                    assert(fork_space(cur, catalog_key()) == c0);
                    let lhs = fork_space(fork@, a);
                    let rhs = moved_catalog(cv, done_after);
                    assert(staged@[j as int].1@ == cv[sv]);
                    assert(lhs == c0.insert(tv, cv[sv]).remove(sv));
                    assert forall|k: Seq<u8>| #[trigger] lhs.contains_key(k) == rhs.contains_key(k)
                        && (lhs.contains_key(k) ==> lhs[k] == rhs[k]) by {
                        if k.len() > 0 && k[0] < 255 {
                            lemma_source_target(k);
                        }
                        if is_target_in(k, done_after) && source_of(k) == sv {
                            assert(k == tv);
                        }
                        if k == sv && is_target_in(k, done_after) {
                            let src = source_of(k);
                            assert(src.len() == k.len() + 1);
                            assert(p.contains(src));
                            let s0 = sq.subrange(0, j as int);
                            let q = s0.index_of(src);
                            assert(sq[q] == src);
                            assert(staged@[q].0@ == sq[q]);
                            lemma_staged_shape(src, rv);
                            assert(target_of(src) == sv);
                        }
                        if k == tv {
                            assert(source_of(tv) == sv);
                            assert(is_target_in(k, done_after));
                        }
                    }
                    assert(lhs =~= rhs);
                } else if a == sv {
                } else if a == tv {
                    assert(is_target_in(tv, done_after));
                    assert(!done_after.contains(tv)) by {
                        if done_after.contains(tv) {
                            let s1 = sq.subrange(0, j + 1);
                            let q = s1.index_of(tv);
                            assert(sq[q] == tv);
                            assert(staged@[q].0@ == sq[q]);
                        }
                    }
                } else {
                    if a.len() > 0 && a[0] < 255 {
                        lemma_source_target(a);
                        if source_of(a) == sv {
                            assert(a == tv);
                        }
                    }
                }
            }
        }
        j = j + 1;
    }
    proof {
        assert(ss.subrange(0, m as int) =~= ss);
    }
    Ok(())
}

/// Before a flush the old schema is intact: writes to a staged index leave every
/// live index reading as before, since no live name begins with the staging byte.
pub proof fn lemma_staging_leaves_live(
    f: ForkModel,
    g: ForkModel,
    staged_name: Seq<u8>,
    staged_prefix: Seq<u8>,
    sp: Space,
    name: Seq<u8>,
    prefix: Seq<u8>,
)
    requires
        is_valid_name(name),
        0 < staged_name.len() < 256,
        staged_name[0] == STAGING_BYTE,
        fork_writes(f, g, resolved_key(staged_name, staged_prefix), sp),
    ensures
        fork_space(g, resolved_key(name, prefix)) == fork_space(f, resolved_key(name, prefix)),
{
    assert(resolved_key(name, prefix)[1] == name[0]);
    assert(resolved_key(staged_name, staged_prefix)[1] == staged_name[0]);
    assert(crate::address::is_name_byte(name[0]));
}

} // verus!
