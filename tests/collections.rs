use std::collections::{HashMap, HashSet};

use metaldb::{Fork, IndexAddress, KeySetIndex, ListIndex, MapIndex, TemporaryDB};

const ACTIONS_MAX_LEN: usize = 100;

struct Rng(u64);

impl Rng {
    fn next(&mut self) -> u64 {
        self.0 ^= self.0 << 13;
        self.0 ^= self.0 >> 7;
        self.0 ^= self.0 << 17;
        self.0
    }
}

fn list_of(fork: &mut Fork) -> ListIndex<i32> {
    ListIndex::open(fork, &IndexAddress::from_root("test").unwrap()).unwrap()
}

fn compare_list(fork: &Fork, reference: &Vec<i32>) {
    let list = ListIndex::<i32>::open_readonly(fork, &IndexAddress::from_root("test").unwrap()).unwrap();
    let mut it = list.iter(fork).unwrap();
    let mut got = Vec::new();
    while let Some(v) = it.next() {
        got.push(v);
    }
    assert_eq!(&got, reference);
}

#[test]
fn compare_list_to_vec() {
    for seed in 1..20u64 {
        let mut rng = Rng(seed * 0x9E37_79B9_7F4A_7C15);
        let mut db = TemporaryDB::new();
        let mut fork = db.fork();
        list_of(&mut fork).clear(&mut fork);
        let mut reference: Vec<i32> = Vec::new();
        let n = 1 + (rng.next() as usize) % ACTIONS_MAX_LEN;
        for _ in 0..n {
            let list = list_of(&mut fork);
            match rng.next() % 7 {
                0 => {
                    let v = rng.next() as i32;
                    list.push(&mut fork, &v).unwrap();
                    reference.push(v);
                }
                1 => {
                    list.pop(&mut fork).unwrap();
                    reference.pop();
                }
                2 => {
                    let k = 1 + (rng.next() % 4) as usize;
                    let items: Vec<i32> = (0..k).map(|_| rng.next() as i32).collect();
                    list.extend(&mut fork, &items).unwrap();
                    reference.extend(items);
                }
                3 => {
                    let size = rng.next();
                    let len = list.len(&fork).unwrap();
                    if len > 0 {
                        list.truncate(&mut fork, size % len).unwrap();
                        reference.truncate((size % len) as usize);
                    }
                }
                4 => {
                    let (idx, v) = (rng.next(), rng.next() as i32);
                    let len = list.len(&fork).unwrap();
                    if len > 0 {
                        list.set(&mut fork, idx % len, &v).unwrap();
                        reference[(idx % len) as usize] = v;
                    }
                }
                5 => {
                    list.clear(&mut fork);
                    reference.clear();
                }
                _ => {
                    db.merge(fork.into_patch()).unwrap();
                    fork = db.fork();
                }
            }
            compare_list(&fork, &reference);
        }
        compare_list(&fork, &reference);
    }
}

#[test]
fn compare_map_to_hash_map() {
    for seed in 1..20u64 {
        let mut rng = Rng(seed * 0x2545_F491_4F6C_DD1D);
        let mut db = TemporaryDB::new();
        let addr = IndexAddress::from_root("test").unwrap();
        let mut fork = db.fork();
        let map: MapIndex<u8, i32> = MapIndex::open(&mut fork, &addr).unwrap();
        map.clear(&mut fork);
        let mut reference: HashMap<u8, i32> = HashMap::new();
        let n = 1 + (rng.next() as usize) % ACTIONS_MAX_LEN;
        for _ in 0..n {
            match rng.next() % 4 {
                0 => {
                    let (k, v) = ((rng.next() % 8) as u8, rng.next() as i32);
                    map.put(&mut fork, &k, &v);
                    reference.insert(k, v);
                }
                1 => {
                    let k = (rng.next() % 8) as u8;
                    map.remove(&mut fork, &k);
                    reference.remove(&k);
                }
                2 => {
                    map.clear(&mut fork);
                    reference.clear();
                }
                _ => {
                    db.merge(fork.into_patch()).unwrap();
                    fork = db.fork();
                }
            }
            for k in reference.keys() {
                assert!(map.contains(&fork, k));
            }
            let mut it = map.iter(&fork).unwrap();
            let mut count = 0;
            while let Some((k, v)) = it.next() {
                assert_eq!(Some(&v), reference.get(&k));
                count += 1;
            }
            assert_eq!(count, reference.len());
        }
    }
}

#[test]
fn compare_key_set_to_hash_set() {
    for seed in 1..20u64 {
        let mut rng = Rng(seed * 0x1405_7B7E_F767_814F);
        let mut db = TemporaryDB::new();
        let addr = IndexAddress::from_root("test").unwrap();
        let mut fork = db.fork();
        let set: KeySetIndex<u8> = KeySetIndex::open(&mut fork, &addr).unwrap();
        set.clear(&mut fork);
        let mut reference: HashSet<u8> = HashSet::new();
        let n = 1 + (rng.next() as usize) % ACTIONS_MAX_LEN;
        for _ in 0..n {
            match rng.next() % 4 {
                0 => {
                    let k = (rng.next() % 8) as u8;
                    set.insert(&mut fork, &k);
                    reference.insert(k);
                }
                1 => {
                    let k = (rng.next() % 8) as u8;
                    set.remove(&mut fork, &k);
                    reference.remove(&k);
                }
                2 => {
                    set.clear(&mut fork);
                    reference.clear();
                }
                _ => {
                    db.merge(fork.into_patch()).unwrap();
                    fork = db.fork();
                }
            }
            for k in &reference {
                assert!(set.contains(&fork, k));
            }
            let mut it = set.iter(&fork).unwrap();
            while let Some(k) = it.next() {
                assert!(reference.contains(&k));
            }
        }
    }
}
