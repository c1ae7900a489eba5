use metaldb::catalog::exists_index;
use metaldb::{
    create_tombstone, flush_migration, BinaryKey, BinaryValue, Entries, Entry, Group, IndexAddress,
    ListIndex, MapIndex, Migration, Prefixed, TemporaryDB, Values,
};

fn collect_entries<K: BinaryKey, V: BinaryValue>(mut e: Entries<K, V>) -> Vec<(K, V)> {
    let mut out = Vec::new();
    while let Some(x) = e.next() {
        out.push(x);
    }
    out
}

fn collect_values<V: BinaryValue>(mut e: Values<V>) -> Vec<V> {
    let mut out = Vec::new();
    while let Some(x) = e.next() {
        out.push(x);
    }
    out
}

#[test]
fn basic_map() {
    let mut db = TemporaryDB::new();
    let mut fork = db.fork();
    let addr = IndexAddress::from_root("test").unwrap();
    let map: MapIndex<u8, i32> = MapIndex::open(&mut fork, &addr).unwrap();
    map.put(&mut fork, &1, &10);
    map.put(&mut fork, &2, &20);
    map.put(&mut fork, &1, &11);
    assert_eq!(collect_entries(map.iter(&fork).unwrap()), vec![(1, 11), (2, 20)]);
    assert_eq!(map.get(&fork, &3).unwrap(), None);
    db.merge(fork.into_patch()).unwrap();

    let snap = db.snapshot();
    let map: MapIndex<u8, i32> = MapIndex::open_readonly(&snap, &addr).unwrap();
    assert_eq!(collect_entries(map.iter(&snap).unwrap()), vec![(1, 11), (2, 20)]);
    assert_eq!(map.get(&snap, &3).unwrap(), None);
    assert_eq!(map.get(&snap, &1).unwrap(), Some(11));
}

#[test]
fn list_truncate_set() {
    let db = TemporaryDB::new();
    let mut fork = db.fork();
    let addr = IndexAddress::from_root("list").unwrap();
    let list: ListIndex<u64> = ListIndex::open(&mut fork, &addr).unwrap();
    for i in 0..100u64 {
        list.push(&mut fork, &i).unwrap();
    }
    assert_eq!(list.len(&fork).unwrap(), 100);
    list.truncate(&mut fork, 10).unwrap();
    assert_eq!(list.len(&fork).unwrap(), 10);
    assert_eq!(collect_values(list.iter(&fork).unwrap()), (0..10).collect::<Vec<u64>>());
    list.set(&mut fork, 9, &999).unwrap();
    let items = collect_values(list.iter(&fork).unwrap());
    assert_eq!(&items[8..], &[8, 999]);
    let err = list.set(&mut fork, 10, &5).unwrap_err();
    assert_eq!(err.kind, metaldb::ErrorKind::OutOfRange);
}

#[test]
fn clear_mixes_with_snapshot() {
    let mut db = TemporaryDB::new();
    let addr = IndexAddress::from_root("map").unwrap();
    {
        let mut fork = db.fork();
        let map: MapIndex<u8, u64> = MapIndex::open(&mut fork, &addr).unwrap();
        for i in 0..16u8 {
            map.put(&mut fork, &i, &(i as u64));
        }
        db.merge(fork.into_patch()).unwrap();
    }
    let snap = db.snapshot();
    let mut fork = db.fork();
    let map: MapIndex<u8, u64> = MapIndex::open(&mut fork, &addr).unwrap();
    map.clear(&mut fork);
    map.put(&mut fork, &0, &42);
    assert_eq!(collect_entries(map.iter(&fork).unwrap()), vec![(0, 42)]);
    let expected: Vec<(u8, u64)> = (0..16u8).map(|i| (i, i as u64)).collect();
    assert_eq!(collect_entries(map.iter(&snap).unwrap()), expected);
}

#[test]
fn group_namespaces() {
    let db = TemporaryDB::new();
    let mut fork = db.fork();
    let group: Group<u64> = Group::new(&IndexAddress::from_root("group").unwrap());
    let seven: ListIndex<u64> = ListIndex::open(&mut fork, &group.get(&7)).unwrap();
    let eight: ListIndex<u64> = ListIndex::open(&mut fork, &group.get(&8)).unwrap();
    seven.extend(&mut fork, &vec![1, 2, 3]).unwrap();
    eight.push(&mut fork, &9).unwrap();
    assert_eq!(collect_values(seven.iter(&fork).unwrap()), vec![1, 2, 3]);
    assert_eq!(collect_values(eight.iter(&fork).unwrap()), vec![9]);
    assert_ne!(group.get(&7).resolve(), group.get(&8).resolve());
}

const WALLETS: u16 = 10_000;

fn wallet_bytes(id: u16, balance: u32) -> Vec<u8> {
    let mut v = id.to_be_bytes().to_vec();
    v.extend_from_slice(&balance.to_be_bytes());
    v
}

#[test]
fn migration_flip() {
    let mut db = TemporaryDB::new();
    let old = Prefixed::new("test").unwrap();
    {
        let mut fork = db.fork();
        let ticker: Entry<Vec<u8>> = Entry::open(&mut fork, &old.address("ticker").unwrap()).unwrap();
        ticker.set(&mut fork, &b"XNM".to_vec());
        let divisibility: Entry<u8> = Entry::open(&mut fork, &old.address("divisibility").unwrap()).unwrap();
        divisibility.set(&mut fork, &8);
        let wallets: MapIndex<u16, Vec<u8>> = MapIndex::open(&mut fork, &old.address("wallets").unwrap()).unwrap();
        for id in 0..WALLETS {
            wallets.put(&mut fork, &id, &wallet_bytes(id, 100));
        }
        let unrelated: ListIndex<u64> = ListIndex::open(&mut fork, &IndexAddress::from_root("unrelated.list").unwrap()).unwrap();
        unrelated.extend(&mut fork, &vec![1, 2, 3]).unwrap();
        db.merge(fork.into_patch()).unwrap();
    }

    let migration = Migration::new("test").unwrap();
    {
        let mut fork = db.fork();
        let config: Entry<Vec<u8>> = Entry::open(&mut fork, &migration.address("config").unwrap()).unwrap();
        let mut cfg = b"XNM".to_vec();
        cfg.push(8);
        config.set(&mut fork, &cfg);
        let new_wallets: MapIndex<u16, Vec<u8>> = MapIndex::open(&mut fork, &migration.address("wallets").unwrap()).unwrap();
        for id in 0..WALLETS {
            new_wallets.put(&mut fork, &id, &wallet_bytes(id, 200));
        }
        create_tombstone(&mut fork, &migration.address("ticker").unwrap()).unwrap();
        create_tombstone(&mut fork, &migration.address("divisibility").unwrap()).unwrap();
        db.merge(fork.into_patch()).unwrap();
    }

    {
        let snap = db.snapshot();
        let ticker: Entry<Vec<u8>> = Entry::open_readonly(&snap, &old.address("ticker").unwrap()).unwrap();
        assert_eq!(ticker.get(&snap).unwrap(), Some(b"XNM".to_vec()));
        let config: Entry<Vec<u8>> = Entry::open_readonly(&snap, &migration.address("config").unwrap()).unwrap();
        assert_eq!(&config.get(&snap).unwrap().unwrap()[..3], b"XNM");
        let wallets: MapIndex<u16, Vec<u8>> = MapIndex::open_readonly(&snap, &old.address("wallets").unwrap()).unwrap();
        assert_eq!(wallets.get(&snap, &5).unwrap(), Some(wallet_bytes(5, 100)));
    }

    {
        let mut fork = db.fork();
        flush_migration(&mut fork, "test").unwrap();
        db.merge(fork.into_patch()).unwrap();
    }

    let snap = db.snapshot();
    let config: Entry<Vec<u8>> = Entry::open_readonly(&snap, &old.address("config").unwrap()).unwrap();
    assert_eq!(config.get(&snap).unwrap().unwrap()[3], 8);
    assert!(!exists_index(&snap, &old.address("ticker").unwrap()));
    let ticker: Entry<Vec<u8>> = Entry::open_readonly(&snap, &old.address("ticker").unwrap()).unwrap();
    assert_eq!(ticker.get(&snap).unwrap(), None);
    let wallets: MapIndex<u16, Vec<u8>> = MapIndex::open_readonly(&snap, &old.address("wallets").unwrap()).unwrap();
    assert_eq!(wallets.get(&snap, &5).unwrap(), Some(wallet_bytes(5, 200)));
    assert!(!exists_index(&snap, &migration.address("config").unwrap()));
    assert!(!exists_index(&snap, &migration.address("wallets").unwrap()));
    let staged: MapIndex<u16, Vec<u8>> = MapIndex::open_readonly(&snap, &migration.address("wallets").unwrap()).unwrap();
    assert_eq!(collect_entries(staged.iter(&snap).unwrap()).len(), 0);
    let unrelated: ListIndex<u64> = ListIndex::open_readonly(&snap, &IndexAddress::from_root("unrelated.list").unwrap()).unwrap();
    assert_eq!(collect_values(unrelated.iter(&snap).unwrap()), vec![1, 2, 3]);
}
