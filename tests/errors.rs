use metaldb::{
    flush_migration, CompressionType, DBOptions, Entry, Error, ErrorKind, IndexAddress, ListIndex,
    MapIndex, Migration, TemporaryDB,
};

#[test]
fn error_new_is_a_backend_failure() {
    let e = Error::new("disk full".to_string());
    assert_eq!(e.kind(), ErrorKind::BackendFailure);
    assert_eq!(e.message, "disk full");
}

#[test]
fn invalid_names_are_rejected() {
    assert_eq!(IndexAddress::from_root("").unwrap_err().kind, ErrorKind::InvalidName);
    assert_eq!(IndexAddress::from_root("^hidden").unwrap_err().kind, ErrorKind::InvalidName);
    assert_eq!(IndexAddress::from_root("sp ace").unwrap_err().kind, ErrorKind::InvalidName);
    assert!(IndexAddress::from_root("foo.bar_baz-1").is_ok());
    let base = IndexAddress::from_root("foo").unwrap();
    assert_eq!(base.append_name("").unwrap_err().kind, ErrorKind::InvalidName);
    assert!(Migration::new("").is_err());
}

#[test]
fn undecodable_value_is_a_decode_failure() {
    let db = TemporaryDB::new();
    let mut fork = db.fork();
    let addr = IndexAddress::from_root("raw").unwrap();
    let map: MapIndex<u8, u64> = MapIndex::open(&mut fork, &addr).unwrap();
    fork.put_raw(&addr.resolve(), vec![1], vec![1, 2, 3]);
    assert_eq!(map.get(&fork, &1).unwrap_err().kind, ErrorKind::DecodeFailure);
    assert_eq!(map.iter(&fork).err().unwrap().kind, ErrorKind::DecodeFailure);
    assert_eq!(map.get(&fork, &2).unwrap(), None);
}

#[test]
fn list_pop_and_out_of_range() {
    let db = TemporaryDB::new();
    let mut fork = db.fork();
    let list: ListIndex<i64> = ListIndex::open(&mut fork, &IndexAddress::from_root("l").unwrap()).unwrap();
    assert_eq!(list.pop(&mut fork).unwrap(), None);
    list.push(&mut fork, &-7).unwrap();
    list.push(&mut fork, &8).unwrap();
    assert_eq!(list.last(&fork).unwrap(), Some(8));
    assert_eq!(list.pop(&mut fork).unwrap(), Some(8));
    assert_eq!(list.len(&fork).unwrap(), 1);
    assert_eq!(list.get(&fork, 1).unwrap(), None);
    assert_eq!(list.set(&mut fork, 1, &0).unwrap_err().kind, ErrorKind::OutOfRange);
    assert!(!list.is_empty(&fork).unwrap());
}

#[test]
fn corrupt_staged_record_is_a_migration_conflict() {
    let db = TemporaryDB::new();
    let mut fork = db.fork();
    let staged = Migration::new("m").unwrap().address("x").unwrap();
    fork.put_raw(&[0u8], staged.resolve(), vec![99]);
    assert_eq!(flush_migration(&mut fork, "m").unwrap_err().kind, ErrorKind::MigrationConflict);
    assert_eq!(flush_migration(&mut fork, "").unwrap_err().kind, ErrorKind::InvalidName);
}

#[test]
fn entry_set_take_remove() {
    let db = TemporaryDB::new();
    let mut fork = db.fork();
    let entry: Entry<u32> = Entry::open(&mut fork, &IndexAddress::from_root("e").unwrap()).unwrap();
    assert!(!entry.has_value(&fork));
    entry.set(&mut fork, &5);
    assert!(entry.has_value(&fork));
    assert_eq!(entry.take(&mut fork).unwrap(), Some(5));
    assert_eq!(entry.get(&fork).unwrap(), None);
    entry.set(&mut fork, &6);
    entry.remove(&mut fork);
    assert_eq!(entry.get(&fork).unwrap(), None);
}

#[test]
fn options_defaults() {
    let o = DBOptions::default();
    assert_eq!(o.max_open_files, None);
    assert!(o.create_if_missing);
    assert_eq!(o.compression_type, CompressionType::NoCompression);
    assert_eq!(o.max_total_wal_size, None);
    assert_eq!(o.max_cache_size, None);
    let o = DBOptions::new(Some(5), false, CompressionType::Zstd, Some(1), Some(2));
    assert_eq!(o.max_open_files, Some(5));
    assert_eq!(o.compression_type.name(), "zstd");
    assert_eq!(CompressionType::NoCompression.name(), "none");
}
