use metaldb::{
    ErrorKind, Group, IndexAddress, IndexIterator, Lazy, ListIndex, MapIndex, SparseListIndex,
    TemporaryDB,
};

#[test]
fn sparse_list_keeps_holes() {
    let db = TemporaryDB::new();
    let mut fork = db.fork();
    let list: SparseListIndex<u32> = SparseListIndex::open(&mut fork, &IndexAddress::from_root("sparse").unwrap()).unwrap();
    for v in [10u32, 11, 12, 13] {
        list.push(&mut fork, &v).unwrap();
    }
    assert_eq!(list.remove(&mut fork, 1).unwrap(), Some(11));
    assert_eq!(list.remove(&mut fork, 1).unwrap(), None);
    assert_eq!(list.len(&fork).unwrap(), 3);
    assert_eq!(list.capacity(&fork).unwrap(), 4);
    assert_eq!(list.get(&fork, 1).unwrap(), None);
    let mut it = list.iter(&fork).unwrap();
    let mut got = Vec::new();
    while let Some(x) = it.next() {
        got.push(x);
    }
    assert_eq!(got, vec![(0, 10), (2, 12), (3, 13)]);
    list.set(&mut fork, 1, &21).unwrap();
    assert_eq!(list.len(&fork).unwrap(), 4);
    assert_eq!(list.set(&mut fork, 4, &0).unwrap_err().kind, ErrorKind::OutOfRange);
    list.clear(&mut fork);
    assert_eq!(list.capacity(&fork).unwrap(), 0);
}

#[test]
fn group_opens_members() {
    let db = TemporaryDB::new();
    let mut fork = db.fork();
    let group: Group<u8> = Group::new(&IndexAddress::from_root("wallets").unwrap());
    let first: ListIndex<u8> = group.open_member(&mut fork, &1).unwrap();
    let second: ListIndex<u8> = group.open_member(&mut fork, &2).unwrap();
    first.push(&mut fork, &7).unwrap();
    assert_eq!(second.len(&fork).unwrap(), 0);
    let again: ListIndex<u8> = group.open_member(&mut fork, &1).unwrap();
    assert_eq!(again.get(&fork, 0).unwrap(), Some(7));
    let clash = group.open_member::<MapIndex<u8, u8>>(&mut fork, &1).err().unwrap();
    assert_eq!(clash.kind, ErrorKind::TypeMismatch);
}

#[test]
fn index_iteration_resumes_from_a_key() {
    let db = TemporaryDB::new();
    let mut fork = db.fork();
    let map: MapIndex<u16, u16> = MapIndex::open(&mut fork, &IndexAddress::from_root("resume").unwrap()).unwrap();
    for k in [1u16, 2, 3, 500] {
        map.put(&mut fork, &k, &(k + 1));
    }
    let mut it = map.index_iter(&fork, Some(&3)).unwrap();
    assert_eq!(it.next(), Some((3, 4)));
    assert_eq!(it.next(), Some((500, 501)));
    assert_eq!(it.next(), None);
}

#[test]
fn lazy_opens_on_first_use() {
    let db = TemporaryDB::new();
    let mut fork = db.fork();
    let addr = IndexAddress::from_root("lazy").unwrap();
    let mut lazy: Lazy<ListIndex<u8>> = Lazy::new(&addr);
    assert!(!metaldb::catalog::exists_index(&fork, &addr));
    let list = lazy.get(&mut fork).unwrap();
    let handle = ListIndex::<u8>::open(&mut fork, &addr).unwrap();
    handle.push(&mut fork, &3).unwrap();
    assert!(metaldb::catalog::exists_index(&fork, &addr));
    let mut conflicting: Lazy<MapIndex<u8, u8>> = Lazy::new(&addr);
    assert_eq!(conflicting.get(&mut fork).err().unwrap().kind, ErrorKind::TypeMismatch);
    let _ = list;
}
