use metaldb::engine::{join_engine_key, split_engine_key};
use metaldb::{BinaryKey, BinaryValue};

#[test]
fn integer_keys_are_big_endian() {
    assert_eq!(258u16.to_key_bytes(), vec![1, 2]);
    assert_eq!(1u64.to_key_bytes(), vec![0, 0, 0, 0, 0, 0, 0, 1]);
    assert_eq!(0x0102_0304u32.to_key_bytes(), vec![1, 2, 3, 4]);
    assert_eq!(7u8.to_key_bytes(), vec![7]);
}

#[test]
fn signed_keys_keep_their_order() {
    assert_eq!((-1i32).to_key_bytes(), vec![0x7f, 0xff, 0xff, 0xff]);
    assert_eq!(0i32.to_key_bytes(), vec![0x80, 0, 0, 0]);
    assert!((-5i64).to_key_bytes() < 3i64.to_key_bytes());
    assert!(i64::MIN.to_key_bytes() < i64::MAX.to_key_bytes());
}

#[test]
fn round_trips() {
    for x in [0u64, 1, 255, 256, u64::MAX] {
        assert_eq!(u64::from_bytes(&x.to_bytes()), Some(x));
    }
    for x in [i32::MIN, -1, 0, 1, i32::MAX] {
        assert_eq!(i32::from_key_bytes(&x.to_key_bytes()), Some(x));
        assert_eq!(i32::from_bytes(&x.to_bytes()), Some(x));
    }
    for x in [i64::MIN, -1, 0, i64::MAX] {
        assert_eq!(i64::from_bytes(&x.to_bytes()), Some(x));
    }
    assert_eq!(u16::from_bytes(&513u16.to_bytes()), Some(513));
    assert_eq!(u8::from_bytes(&[9]), Some(9));
    assert_eq!(Vec::<u8>::from_bytes(&[1, 2]), Some(vec![1, 2]));
    assert_eq!(<()>::from_bytes(&[]), Some(()));
    assert_eq!(bool::from_bytes(&true.to_bytes()), Some(true));
    assert_eq!(bool::from_bytes(&[2]), None);
    assert_eq!(u32::from_bytes(&[1, 2, 3]), None);
    assert_eq!(<()>::from_bytes(&[0]), None);
}

#[test]
fn engine_keys_split_back() {
    let joined = join_engine_key(&[5, 6], &[7]);
    assert_eq!(joined, vec![0, 0, 0, 2, 5, 6, 7]);
    assert_eq!(split_engine_key(&joined), Some((vec![5, 6], vec![7])));
    assert_eq!(split_engine_key(&[0, 0, 0, 9, 1]), None);
    assert_eq!(split_engine_key(&[0, 0]), None);
}
