//! Change sets, patches, snapshots, forks, and the in-memory database that merges
//! patches atomically.
use vstd::prelude::*;
use vstd::slice::slice_to_vec;
use crate::byte_map::{ByteMap, DeepCopy};
use crate::error::Error;

verus! {

/// Contents of one keyspace: key bytes to value bytes.
pub type Space = Map<Seq<u8>, Seq<u8>>;

/// The whole database: each keyspace under the bytes of its resolved address.
pub type Store = Map<Seq<u8>, Space>;

/// Pending changes at one resolved address: whether the keyspace was cleared,
/// and for each touched key its new value, or `None` for a deletion.
pub struct ChangesModel {
    pub cleared: bool,
    pub entries: Map<Seq<u8>, Option<Seq<u8>>>,
}

/// Pending changes of a whole fork, by resolved address.
pub type PatchModel = Map<Seq<u8>, ChangesModel>;

/// A fork: the store it was taken from and the changes made since.
pub struct ForkModel {
    pub base: Store,
    pub pending: PatchModel,
}

pub open spec fn no_changes() -> ChangesModel {
    ChangesModel { cleared: false, entries: Map::empty() }
}

/// The keyspace at `a`; empty where nothing was ever written.
pub open spec fn space_of(s: Store, a: Seq<u8>) -> Space {
    if s.contains_key(a) {
        s[a]
    } else {
        Map::empty()
    }
}

/// The changes pending at `a`; none where nothing was touched.
pub open spec fn changes_at(p: PatchModel, a: Seq<u8>) -> ChangesModel {
    if p.contains_key(a) {
        p[a]
    } else {
        no_changes()
    }
}

/// A keyspace with changes laid over it: a key's own change wins; otherwise a
/// clear hides the key; otherwise the base value shows through.
pub open spec fn apply_changes(base: Space, ch: ChangesModel) -> Space {
    Map::new(
        |k: Seq<u8>|
            if ch.entries.contains_key(k) {
                ch.entries[k] is Some
            } else {
                !ch.cleared && base.contains_key(k)
            },
        |k: Seq<u8>|
            if ch.entries.contains_key(k) {
                ch.entries[k].unwrap()
            } else {
                base[k]
            },
    )
}

/// The store after a patch is merged into it.
pub open spec fn merge_store(s: Store, p: PatchModel) -> Store {
    Map::new(
        |a: Seq<u8>| s.contains_key(a) || p.contains_key(a),
        |a: Seq<u8>|
            if p.contains_key(a) {
                apply_changes(space_of(s, a), p[a])
            } else {
                s[a]
            },
    )
}

/// What a fork reads at `a`: its own changes over its base.
pub open spec fn fork_space(f: ForkModel, a: Seq<u8>) -> Space {
    apply_changes(space_of(f.base, a), changes_at(f.pending, a))
}

pub open spec fn changes_put(ch: ChangesModel, k: Seq<u8>, v: Seq<u8>) -> ChangesModel {
    ChangesModel { cleared: ch.cleared, entries: ch.entries.insert(k, Some(v)) }
}

pub open spec fn changes_delete(ch: ChangesModel, k: Seq<u8>) -> ChangesModel {
    ChangesModel { cleared: ch.cleared, entries: ch.entries.insert(k, None) }
}

pub open spec fn changes_cleared() -> ChangesModel {
    ChangesModel { cleared: true, entries: Map::empty() }
}

pub open spec fn fork_put(f: ForkModel, a: Seq<u8>, k: Seq<u8>, v: Seq<u8>) -> ForkModel {
    ForkModel { base: f.base, pending: f.pending.insert(a, changes_put(changes_at(f.pending, a), k, v)) }
}

pub open spec fn fork_delete(f: ForkModel, a: Seq<u8>, k: Seq<u8>) -> ForkModel {
    ForkModel { base: f.base, pending: f.pending.insert(a, changes_delete(changes_at(f.pending, a), k)) }
}

pub open spec fn fork_clear(f: ForkModel, a: Seq<u8>) -> ForkModel {
    ForkModel { base: f.base, pending: f.pending.insert(a, changes_cleared()) }
}

pub proof fn lemma_apply_put(base: Space, ch: ChangesModel, k: Seq<u8>, v: Seq<u8>)
    ensures
        apply_changes(base, changes_put(ch, k, v)) == apply_changes(base, ch).insert(k, v),
{
    assert(apply_changes(base, changes_put(ch, k, v)) =~= apply_changes(base, ch).insert(k, v));
}

pub proof fn lemma_apply_delete(base: Space, ch: ChangesModel, k: Seq<u8>)
    ensures
        apply_changes(base, changes_delete(ch, k)) == apply_changes(base, ch).remove(k),
{
    assert(apply_changes(base, changes_delete(ch, k)) =~= apply_changes(base, ch).remove(k));
}

/// Read-your-writes: after a put through a fork, the fork reads the value written
/// at that address and key, and every other address reads as before.
pub proof fn lemma_read_your_writes(f: ForkModel, a: Seq<u8>, k: Seq<u8>, v: Seq<u8>, b: Seq<u8>)
    ensures
        fork_space(fork_put(f, a, k, v), a).contains_key(k),
        fork_space(fork_put(f, a, k, v), a)[k] == v,
        fork_space(fork_put(f, a, k, v), a) == fork_space(f, a).insert(k, v),
        b != a ==> fork_space(fork_put(f, a, k, v), b) == fork_space(f, b),
{
    lemma_apply_put(space_of(f.base, a), changes_at(f.pending, a), k, v);
}

/// After a delete through a fork, the key is absent at that address, and every
/// other address reads as before.
pub proof fn lemma_delete_hides(f: ForkModel, a: Seq<u8>, k: Seq<u8>, b: Seq<u8>)
    ensures
        fork_space(fork_delete(f, a, k), a) == fork_space(f, a).remove(k),
        b != a ==> fork_space(fork_delete(f, a, k), b) == fork_space(f, b),
{
    lemma_apply_delete(space_of(f.base, a), changes_at(f.pending, a), k);
}

/// After a clear followed by a put, the keyspace holds exactly the one pair put,
/// whatever it held before.
pub proof fn lemma_clear_then_put(f: ForkModel, a: Seq<u8>, k: Seq<u8>, v: Seq<u8>)
    ensures
        fork_space(fork_put(fork_clear(f, a), a, k, v), a) == Map::<Seq<u8>, Seq<u8>>::empty().insert(
            k,
            v,
        ),
{
    assert(fork_space(fork_put(fork_clear(f, a), a, k, v), a) =~= Map::<
        Seq<u8>,
        Seq<u8>,
    >::empty().insert(k, v));
}

/// Merging a fork's pending changes into the store the fork was taken from gives,
/// at every address, exactly what the fork read there.
pub proof fn lemma_merge_matches_fork(f: ForkModel, a: Seq<u8>)
    ensures
        space_of(merge_store(f.base, f.pending), a) == fork_space(f, a),
{
    if !f.pending.contains_key(a) {
        assert(apply_changes(space_of(f.base, a), no_changes()) =~= space_of(f.base, a));
    }
}

/// Two patches that touch disjoint sets of addresses give the same store in
/// either order of merging.
pub proof fn lemma_disjoint_merges_commute(s: Store, first: PatchModel, second: PatchModel)
    requires
        forall|a: Seq<u8>| !(first.contains_key(a) && second.contains_key(a)),
    ensures
        merge_store(merge_store(s, first), second) == merge_store(merge_store(s, second), first),
{
    assert(merge_store(merge_store(s, first), second) =~= merge_store(merge_store(s, second), first));
}

/// Where two merged patches touch the same address and key, the one merged later
/// decides what the key holds.
pub proof fn lemma_later_merge_wins(s: Store, first: PatchModel, second: PatchModel, a: Seq<u8>, k: Seq<u8>)
    requires
        second.contains_key(a),
        second[a].entries.contains_key(k),
    ensures
        space_of(merge_store(merge_store(s, first), second), a).contains_key(k) == (second[a].entries[k] is Some),
        second[a].entries[k] is Some ==> space_of(merge_store(merge_store(s, first), second), a)[k]
            == second[a].entries[k].unwrap(),
{
}

/// `new` differs from `old` only in what it reads at `a`, which is `sp`.
pub open spec fn fork_writes(old: ForkModel, new: ForkModel, a: Seq<u8>, sp: Space) -> bool {
    &&& new.base == old.base
    &&& fork_space(new, a) == sp
    &&& forall|b: Seq<u8>| b != a ==> #[trigger] fork_space(new, b) == fork_space(old, b)
}

/// A put reads back at its address and nowhere else.
pub proof fn lemma_put_writes(f: ForkModel, a: Seq<u8>, k: Seq<u8>, v: Seq<u8>)
    ensures
        fork_writes(f, fork_put(f, a, k, v), a, fork_space(f, a).insert(k, v)),
{
    assert forall|b: Seq<u8>| b != a implies #[trigger] fork_space(fork_put(f, a, k, v), b) == fork_space(f, b) by {
        lemma_read_your_writes(f, a, k, v, b);
    }
    lemma_read_your_writes(f, a, k, v, a);
}

/// A delete hides the key at its address and changes nothing elsewhere.
pub proof fn lemma_delete_writes(f: ForkModel, a: Seq<u8>, k: Seq<u8>)
    ensures
        fork_writes(f, fork_delete(f, a, k), a, fork_space(f, a).remove(k)),
{
    assert forall|b: Seq<u8>| b != a implies #[trigger] fork_space(fork_delete(f, a, k), b) == fork_space(f, b) by {
        lemma_delete_hides(f, a, k, b);
    }
    lemma_delete_hides(f, a, k, a);
}

/// A clear empties its address and changes nothing elsewhere.
pub proof fn lemma_clear_writes(f: ForkModel, a: Seq<u8>)
    ensures
        fork_writes(f, fork_clear(f, a), a, Map::empty()),
{
    assert(fork_space(fork_clear(f, a), a) =~= Map::<Seq<u8>, Seq<u8>>::empty());
}

/// Two writes at one address compose.
pub proof fn lemma_writes_chain(f: ForkModel, g: ForkModel, h: ForkModel, a: Seq<u8>, s1: Space, s2: Space)
    requires
        fork_writes(f, g, a, s1),
        fork_writes(g, h, a, s2),
    ensures
        fork_writes(f, h, a, s2),
{
    assert forall|b: Seq<u8>| b != a implies #[trigger] fork_space(h, b) == fork_space(f, b) by {
        assert(fork_space(h, b) == fork_space(g, b));
    }
}

/// One pending change to a key.
pub enum Change {
    Put(Vec<u8>),
    Delete,
}

impl View for Change {
    type V = Option<Seq<u8>>;

    open spec fn view(&self) -> Option<Seq<u8>> {
        match self {
            Change::Put(v) => Some(v@),
            Change::Delete => None,
        }
    }
}

impl DeepCopy for Change {
    fn deep_copy(&self) -> (r: Self) {
        match self {
            Change::Put(v) => Change::Put(v.deep_copy()),
            Change::Delete => Change::Delete,
        }
    }
}

/// The changes pending at one resolved address.
pub struct Changes {
    cleared: bool,
    entries: ByteMap<Change>,
}

impl View for Changes {
    type V = ChangesModel;

    closed spec fn view(&self) -> ChangesModel {
        ChangesModel { cleared: self.cleared, entries: self.entries@ }
    }
}

impl DeepCopy for Changes {
    fn deep_copy(&self) -> (r: Self) {
        Changes { cleared: self.cleared, entries: self.entries.deep_copy() }
    }
}

impl Changes {
    pub fn new() -> (r: Self)
        ensures
            r@ == no_changes(),
    {
        Changes { cleared: false, entries: ByteMap::new() }
    }

    /// Whether the keyspace is cleared before the entries apply.
    pub fn is_cleared(&self) -> (r: bool)
        ensures
            r == self@.cleared,
    {
        self.cleared
    }

    /// The changed keys in ascending order, each with its change.
    pub fn entries(&self) -> (r: &ByteMap<Change>)
        ensures
            r@ == self@.entries,
    {
        &self.entries
    }

    pub fn put(&mut self, k: Vec<u8>, v: Vec<u8>)
        ensures
            final(self)@ == changes_put(old(self)@, k@, v@),
    {
        self.entries.insert(k, Change::Put(v));
    }

    pub fn delete(&mut self, k: Vec<u8>)
        ensures
            final(self)@ == changes_delete(old(self)@, k@),
    {
        self.entries.insert(k, Change::Delete);
    }

    pub fn clear(&mut self)
        ensures
            final(self)@ == changes_cleared(),
    {
        self.cleared = true;
        self.entries.clear();
    }

    /// Lays these changes over a keyspace.
    pub fn apply_to(&self, space: &mut ByteMap<Vec<u8>>)
        ensures
            final(space)@ == apply_changes(old(space)@, self@),
    {
        let ghost base = space@;
        if self.cleared {
            space.clear();
        }
        let n = self.entries.len();
        let ghost keys = self.entries.keys();
        let ghost m = self.entries@;
        assert(space@ =~= apply_changes(
            base,
            ChangesModel { cleared: self.cleared, entries: m.restrict(keys.subrange(0, 0).to_set()) },
        ));
        let mut i: usize = 0;
        while i < n
            invariant
                n == keys.len(),
                keys == self.entries.keys(),
                m == self.entries@,
                keys.len() == self.entries.vals().len(),
                forall|k: Seq<u8>| m.contains_key(k) <==> keys.contains(k),
                forall|j: int| 0 <= j < keys.len() ==> #[trigger] m[keys[j]] == self.entries.vals()[j],
                i <= n,
                space@ == apply_changes(
                    base,
                    ChangesModel {
                        cleared: self.cleared,
                        entries: m.restrict(keys.subrange(0, i as int).to_set()),
                    },
                ),
            decreases n - i,
        {
            let k = self.entries.key_at(i);
            let c = self.entries.value_at(i);
            let ghost prev = m.restrict(keys.subrange(0, i as int).to_set());
            proof {
                let ki = keys[i as int];
                assert(keys.contains(ki));
                let s0 = keys.subrange(0, i as int);
                let s1 = keys.subrange(0, i + 1);
                assert forall|x: Seq<u8>| s1.to_set().contains(x) <==> (s0.to_set().contains(x) || x == ki) by {
                    if s1.contains(x) {
                        let j = s1.index_of(x);
                        if j < i {
                            assert(s0[j] == x);
                        }
                    }
                    if s0.contains(x) {
                        let j = s0.index_of(x);
                        assert(s1[j] == x);
                    }
                    if x == ki {
                        assert(s1[i as int] == x);
                    }
                }
                assert(m.restrict(s1.to_set()) =~= prev.insert(ki, m[ki]));
            }
            match c {
                Change::Put(v) => {
                    proof {
                        lemma_apply_put(base, ChangesModel { cleared: self.cleared, entries: prev }, k@, v@);
                    }
                    space.insert(k.deep_copy(), v.deep_copy());
                },
                Change::Delete => {
                    proof {
                        lemma_apply_delete(base, ChangesModel { cleared: self.cleared, entries: prev }, k@);
                    }
                    let _ = space.remove(k.as_slice());
                },
            }
            i = i + 1;
        }
        assert(m.restrict(keys.subrange(0, n as int).to_set()) =~= m) by {
            assert(keys.subrange(0, n as int) =~= keys);
        }
    }
}

/// Read access to keyspaces: what a snapshot or a fork shows at each resolved address.
pub trait RawAccess {
    /// The keyspace at the resolved address `a`.
    spec fn space(&self, a: Seq<u8>) -> Space;

    /// The value stored under `k` at `a`, if any.
    fn get_raw(&self, a: &[u8], k: &[u8]) -> (r: Option<Vec<u8>>)
        ensures
            match r {
                Some(v) => self.space(a@).contains_key(k@) && v@ == self.space(a@)[k@],
                None => !self.space(a@).contains_key(k@),
            },
    ;

    /// The whole keyspace at `a`, in ascending key order.
    fn space_raw(&self, a: &[u8]) -> (r: ByteMap<Vec<u8>>)
        ensures
            r@ == self.space(a@),
    ;
}

/// An immutable, point-in-time copy of the whole database.
pub struct Snapshot {
    store: ByteMap<ByteMap<Vec<u8>>>,
}

impl View for Snapshot {
    type V = Store;

    closed spec fn view(&self) -> Store {
        self.store@
    }
}

impl RawAccess for Snapshot {
    open spec fn space(&self, a: Seq<u8>) -> Space {
        space_of(self@, a)
    }

    fn get_raw(&self, a: &[u8], k: &[u8]) -> (r: Option<Vec<u8>>) {
        match self.store.get(a) {
            Some(space) => match space.get(k) {
                Some(v) => Some(v.deep_copy()),
                None => None,
            },
            None => None,
        }
    }

    fn space_raw(&self, a: &[u8]) -> (r: ByteMap<Vec<u8>>) {
        match self.store.get(a) {
            Some(space) => space.deep_copy(),
            None => ByteMap::new(),
        }
    }
}

/// The finished, immutable change set of a fork, merged into a database as a whole.
pub struct Patch {
    changes: ByteMap<Changes>,
}

impl Patch {
    /// The resolved addresses the patch touches, in ascending order, with their changes.
    pub fn changes(&self) -> (r: &ByteMap<Changes>)
        ensures
            r@ == self@,
    {
        &self.changes
    }
}

impl View for Patch {
    type V = PatchModel;

    closed spec fn view(&self) -> PatchModel {
        self.changes@
    }
}

/// A transactional context over a snapshot: writes gather in memory and are read
/// back through the fork before any merge.
pub struct Fork {
    snapshot: Snapshot,
    changes: ByteMap<Changes>,
}

impl View for Fork {
    type V = ForkModel;

    closed spec fn view(&self) -> ForkModel {
        ForkModel { base: self.snapshot@, pending: self.changes@ }
    }
}

impl RawAccess for Fork {
    open spec fn space(&self, a: Seq<u8>) -> Space {
        fork_space(self@, a)
    }

    fn get_raw(&self, a: &[u8], k: &[u8]) -> (r: Option<Vec<u8>>) {
        match self.changes.get(a) {
            Some(ch) => match ch.entries.get(k) {
                Some(Change::Put(v)) => Some(v.deep_copy()),
                Some(Change::Delete) => None,
                None => {
                    if ch.cleared {
                        None
                    } else {
                        self.snapshot.get_raw(a, k)
                    }
                },
            },
            None => self.snapshot.get_raw(a, k),
        }
    }

    fn space_raw(&self, a: &[u8]) -> (r: ByteMap<Vec<u8>>) {
        let mut space = self.snapshot.space_raw(a);
        match self.changes.get(a) {
            Some(ch) => {
                ch.apply_to(&mut space);
            },
            None => {
                assert(apply_changes(space@, no_changes()) =~= space@);
            },
        }
        space
    }
}

impl Fork {
    /// Takes out the changes pending at `a`, leaving none there.
    fn take_changes(&mut self, a: &[u8]) -> (r: Changes)
        ensures
            r@ == changes_at(old(self)@.pending, a@),
            final(self)@.base == old(self)@.base,
            final(self)@.pending == old(self)@.pending.remove(a@),
    {
        match self.changes.remove(a) {
            Some(ch) => ch,
            None => Changes::new(),
        }
    }

    /// Stores `v` under `k` at the resolved address `a`.
    pub fn put_raw(&mut self, a: &[u8], k: Vec<u8>, v: Vec<u8>)
        ensures
            final(self)@ == fork_put(old(self)@, a@, k@, v@),
    {
        let mut ch = self.take_changes(a);
        ch.put(k, v);
        self.changes.insert(slice_to_vec(a), ch);
        assert(self@.pending =~= fork_put(old(self)@, a@, k@, v@).pending);
    }

    /// Deletes `k` at the resolved address `a`.
    pub fn delete_raw(&mut self, a: &[u8], k: Vec<u8>)
        ensures
            final(self)@ == fork_delete(old(self)@, a@, k@),
    {
        let mut ch = self.take_changes(a);
        ch.delete(k);
        self.changes.insert(slice_to_vec(a), ch);
        assert(self@.pending =~= fork_delete(old(self)@, a@, k@).pending);
    }

    /// Deletes every key at the resolved address `a`.
    pub fn clear_raw(&mut self, a: &[u8])
        ensures
            final(self)@ == fork_clear(old(self)@, a@),
    {
        let mut ch = self.take_changes(a);
        ch.clear();
        self.changes.insert(slice_to_vec(a), ch);
        assert(self@.pending =~= fork_clear(old(self)@, a@).pending);
    }

    /// Finishes the fork, handing over its changes as a patch.
    pub fn into_patch(self) -> (r: Patch)
        ensures
            r@ == self@.pending,
    {
        Patch { changes: self.changes }
    }

    /// The snapshot this fork was taken from.
    pub fn base(&self) -> (r: &Snapshot)
        ensures
            r@ == self@.base,
    {
        &self.snapshot
    }

    /// A read-only copy of what the fork shows now: its base with its changes
    /// merged in.
    pub fn readonly_snapshot(&self) -> (r: Snapshot)
        ensures
            r@ == merge_store(self@.base, self@.pending),
    {
        let mut store = self.snapshot.store.deep_copy();
        merge_into(&mut store, &self.changes);
        Snapshot { store }
    }
}

/// Merges each pending change set into the store, address by address.
fn merge_into(store: &mut ByteMap<ByteMap<Vec<u8>>>, changes: &ByteMap<Changes>)
    ensures
        final(store)@ == merge_store(old(store)@, changes@),
{
    let ghost s0 = store@;
    let n = changes.len();
    let ghost keys = changes.keys();
    let ghost m = changes@;
    assert(merge_store(s0, m.restrict(keys.subrange(0, 0).to_set())) =~= s0);
    let mut i: usize = 0;
    while i < n
        invariant
            n == keys.len(),
            keys == changes.keys(),
            m == changes@,
            keys.len() == changes.vals().len(),
            crate::byte_map::strictly_sorted(keys),
            forall|k: Seq<u8>| m.contains_key(k) <==> keys.contains(k),
            forall|j: int| 0 <= j < keys.len() ==> #[trigger] m[keys[j]] == changes.vals()[j],
            i <= n,
            store@ == merge_store(s0, m.restrict(keys.subrange(0, i as int).to_set())),
        decreases n - i,
    {
        let a = changes.key_at(i);
        let ch = changes.value_at(i);
        let ghost prev = m.restrict(keys.subrange(0, i as int).to_set());
        proof {
            let ai = keys[i as int];
            assert(keys.contains(ai));
            let s0q = keys.subrange(0, i as int);
            let s1q = keys.subrange(0, i + 1);
            assert forall|x: Seq<u8>| s1q.to_set().contains(x) <==> (s0q.to_set().contains(x) || x == ai) by {
                if s1q.contains(x) {
                    let j = s1q.index_of(x);
                    if j < i {
                        assert(s0q[j] == x);
                    }
                }
                if s0q.contains(x) {
                    let j = s0q.index_of(x);
                    assert(s1q[j] == x);
                }
                if x == ai {
                    assert(s1q[i as int] == x);
                }
            }
            assert(m.restrict(s1q.to_set()) =~= prev.insert(ai, m[ai]));
            assert(!prev.contains_key(ai)) by {
                if s0q.contains(ai) {
                    let j = s0q.index_of(ai);
                    assert(s0q[j] == keys[j]);
                    crate::byte_map::lemma_sorted_unique(keys, j, i as int);
                }
            }
        }
        let mut space = match store.remove(a.as_slice()) {
            Some(sp) => sp,
            None => ByteMap::new(),
        };
        ch.apply_to(&mut space);
        store.insert(a.deep_copy(), space);
        proof {
            let ai = keys[i as int];
            assert(space_of(merge_store(s0, prev), ai) == space_of(s0, ai));
            assert(store@ =~= merge_store(s0, prev.insert(ai, m[ai])));
        }
        i = i + 1;
    }
    assert(m.restrict(keys.subrange(0, n as int).to_set()) =~= m) by {
        assert(keys.subrange(0, n as int) =~= keys);
    }
}

/// A database kept in memory, gone when dropped.
pub struct TemporaryDB {
    store: ByteMap<ByteMap<Vec<u8>>>,
}

impl View for TemporaryDB {
    type V = Store;

    closed spec fn view(&self) -> Store {
        self.store@
    }
}

impl TemporaryDB {
    /// An empty database.
    pub fn new() -> (r: Self)
        ensures
            r@ == Store::empty(),
    {
        TemporaryDB { store: ByteMap::new() }
    }

    /// A snapshot of everything merged so far. Later merges do not reach it: it
    /// holds its own copy.
    pub fn snapshot(&self) -> (r: Snapshot)
        ensures
            r@ == self@,
    {
        Snapshot { store: self.store.deep_copy() }
    }

    /// A fork over a snapshot of everything merged so far, with no changes yet.
    pub fn fork(&self) -> (r: Fork)
        ensures
            r@ == (ForkModel { base: self@, pending: PatchModel::empty() }),
    {
        Fork { snapshot: self.snapshot(), changes: ByteMap::new() }
    }

    /// Merges a patch: all of its changes take effect together.
    pub fn merge(&mut self, patch: Patch) -> (r: Result<(), Error>)
        ensures
            r is Ok,
            final(self)@ == merge_store(old(self)@, patch@),
    {
        merge_into(&mut self.store, &patch.changes);
        Ok(())
    }

    /// Merges a patch; for a database in memory this is the same as `merge`.
    pub fn merge_sync(&mut self, patch: Patch) -> (r: Result<(), Error>)
        ensures
            r is Ok,
            final(self)@ == merge_store(old(self)@, patch@),
    {
        self.merge(patch)
    }
}

} // verus!
