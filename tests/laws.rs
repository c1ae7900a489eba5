use metaldb::{
    BinaryKey, BinaryValue, Entries, ErrorKind, Group, IndexAddress, KeySetIndex, Keys, ListIndex,
    MapIndex, RawAccess, TemporaryDB,
};

fn collect_entries<K: BinaryKey, V: BinaryValue>(mut e: Entries<K, V>) -> Vec<(K, V)> {
    let mut out = Vec::new();
    while let Some(x) = e.next() {
        out.push(x);
    }
    out
}

fn collect_keys<K: BinaryKey>(mut e: Keys<K>) -> Vec<K> {
    let mut out = Vec::new();
    while let Some(x) = e.next() {
        out.push(x);
    }
    out
}

#[test]
fn read_your_writes_before_merge() {
    let db = TemporaryDB::new();
    let mut fork = db.fork();
    let a = vec![4u8, b't', b'e', b's', b't'];
    fork.put_raw(&a, vec![1, 2], vec![3, 4, 5]);
    assert_eq!(fork.get_raw(&a, &[1, 2]), Some(vec![3, 4, 5]));
    assert_eq!(db.snapshot().get_raw(&a, &[1, 2]), None);
    fork.delete_raw(&a, vec![1, 2]);
    assert_eq!(fork.get_raw(&a, &[1, 2]), None);
}

#[test]
fn disjoint_merges_commute() {
    let addr1 = IndexAddress::from_root("first").unwrap();
    let addr2 = IndexAddress::from_root("second").unwrap();
    let run = |first_then_second: bool| {
        let mut db = TemporaryDB::new();
        let mut f1 = db.fork();
        let mut f2 = db.fork();
        let a = addr1.resolve();
        let b = addr2.resolve();
        f1.put_raw(&a, vec![1], vec![10]);
        f2.put_raw(&b, vec![1], vec![20]);
        let (first, second) = (f1.into_patch(), f2.into_patch());
        if first_then_second {
            db.merge(first).unwrap();
            db.merge(second).unwrap();
        } else {
            db.merge(second).unwrap();
            db.merge(first).unwrap();
        }
        let snap = db.snapshot();
        (snap.get_raw(&a, &[1]), snap.get_raw(&b, &[1]))
    };
    assert_eq!(run(true), run(false));
    assert_eq!(run(true), (Some(vec![10]), Some(vec![20])));
}

#[test]
fn later_merge_wins() {
    let mut db = TemporaryDB::new();
    let a = IndexAddress::from_root("shared").unwrap().resolve();
    let mut f1 = db.fork();
    let mut f2 = db.fork();
    f1.put_raw(&a, vec![7], vec![1]);
    f2.put_raw(&a, vec![7], vec![2]);
    db.merge(f1.into_patch()).unwrap();
    db.merge(f2.into_patch()).unwrap();
    assert_eq!(db.snapshot().get_raw(&a, &[7]), Some(vec![2]));
}

#[test]
fn snapshot_isolation_over_many_merges() {
    let mut db = TemporaryDB::new();
    let addr = IndexAddress::from_root("iso").unwrap();
    let snap = db.snapshot();
    for i in 0..5u8 {
        let mut fork = db.fork();
        let map: MapIndex<u8, u8> = MapIndex::open(&mut fork, &addr).unwrap();
        map.put(&mut fork, &i, &i);
        db.merge(fork.into_patch()).unwrap();
    }
    let map: MapIndex<u8, u8> = MapIndex::open_readonly(&snap, &addr).unwrap();
    assert_eq!(collect_entries(map.iter(&snap).unwrap()), vec![]);
    let now = db.snapshot();
    assert_eq!(collect_entries(map.iter(&now).unwrap()).len(), 5);
}

#[test]
fn clear_then_put_leaves_one_pair() {
    let mut db = TemporaryDB::new();
    let addr = IndexAddress::from_root("cleared").unwrap();
    let mut fork = db.fork();
    let map: MapIndex<u32, u32> = MapIndex::open(&mut fork, &addr).unwrap();
    for i in 0..10u32 {
        map.put(&mut fork, &i, &(i * 2));
    }
    db.merge(fork.into_patch()).unwrap();
    let mut fork = db.fork();
    map.put(&mut fork, &50, &1);
    map.clear(&mut fork);
    map.put(&mut fork, &3, &33);
    assert_eq!(collect_entries(map.iter(&fork).unwrap()), vec![(3, 33)]);
    db.merge(fork.into_patch()).unwrap();
    let snap = db.snapshot();
    assert_eq!(collect_entries(map.iter(&snap).unwrap()), vec![(3, 33)]);
}

#[test]
fn reopening_with_another_type_fails() {
    let mut db = TemporaryDB::new();
    let addr = IndexAddress::from_root("typed").unwrap();
    let mut fork = db.fork();
    let _map: MapIndex<u8, u8> = MapIndex::open(&mut fork, &addr).unwrap();
    db.merge(fork.into_patch()).unwrap();
    let mut fork = db.fork();
    let err = ListIndex::<u8>::open(&mut fork, &addr).err().unwrap();
    assert_eq!(err.kind, ErrorKind::TypeMismatch);
    let snap = db.snapshot();
    let err = ListIndex::<u8>::open_readonly(&snap, &addr).err().unwrap();
    assert_eq!(err.kind, ErrorKind::TypeMismatch);
    assert!(MapIndex::<u8, u8>::open(&mut fork, &addr).is_ok());
}

#[test]
fn group_members_are_isolated() {
    let db = TemporaryDB::new();
    let mut fork = db.fork();
    let group: Group<u16> = Group::new(&IndexAddress::from_root("members").unwrap());
    let a: ListIndex<u32> = ListIndex::open(&mut fork, &group.get(&1)).unwrap();
    let b: ListIndex<u32> = ListIndex::open(&mut fork, &group.get(&2)).unwrap();
    b.push(&mut fork, &5).unwrap();
    for i in 0..4u32 {
        a.push(&mut fork, &i).unwrap();
    }
    a.pop(&mut fork).unwrap();
    a.clear(&mut fork);
    assert_eq!(b.len(&fork).unwrap(), 1);
    assert_eq!(b.get(&fork, 0).unwrap(), Some(5));
    assert_eq!(a.len(&fork).unwrap(), 0);
}

#[test]
fn key_set_iterates_in_order() {
    let db = TemporaryDB::new();
    let mut fork = db.fork();
    let set: KeySetIndex<i32> = KeySetIndex::open(&mut fork, &IndexAddress::from_root("set").unwrap()).unwrap();
    for k in [5, -3, 0, 12, -100] {
        set.insert(&mut fork, &k);
    }
    set.remove(&mut fork, &0);
    assert!(set.contains(&fork, &-3));
    assert!(!set.contains(&fork, &0));
    assert_eq!(collect_keys(set.iter(&fork).unwrap()), vec![-100, -3, 5, 12]);
}

#[test]
fn map_iteration_from_a_key() {
    let db = TemporaryDB::new();
    let mut fork = db.fork();
    let map: MapIndex<u64, u8> = MapIndex::open(&mut fork, &IndexAddress::from_root("from").unwrap()).unwrap();
    for k in [300u64, 1, 70000, 256, 2] {
        map.put(&mut fork, &k, &((k % 251) as u8));
    }
    let keys = collect_keys(map.keys(&fork).unwrap());
    assert_eq!(keys, vec![1, 2, 256, 300, 70000]);
    let tail: Vec<u64> = collect_entries(map.iter_from(&fork, &256).unwrap()).into_iter().map(|e| e.0).collect();
    assert_eq!(tail, vec![256, 300, 70000]);
    let mut values = map.values(&fork).unwrap();
    assert_eq!(values.next(), Some(1));
    let e = map.iter(&fork).unwrap();
    let mut k = e.skip_values();
    assert_eq!(k.next(), Some(1));
}
