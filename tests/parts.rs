use cuckoohash::bucket::{Bin, Bucket};
use cuckoohash::utils::{
    elem_to_bytes, get_alt_hash, index_from_bytes, get_alt_hash_three, get_random, get_three_hash, get_two_hash,
};

#[test]
fn bin_empty_and_occupied() {
    let e = Bin::empty();
    assert!(e.is_empty());
    assert_eq!(e.element(), None);
    let b = Bin::new(9);
    assert!(!b.is_empty());
    assert_eq!(b.element(), Some(9));
    assert!(b == Bin::new(9));
    assert!(b != Bin::new(8));
    assert!(b != e);
    assert!(e == Bin::empty());
}

#[test]
fn bin_from_slice_reads_little_endian() {
    assert_eq!(Bin::from_slice(&[1, 2, 3, 4]).element(), Some(0x0403_0201));
    assert_eq!(Bin::from_slice(&[1, 2]).element(), Some(0x0201));
    assert_eq!(Bin::from_slice(&[1, 2, 3, 4, 5, 6]).element(), Some(0x0403_0201));
    assert_eq!(Bin::from_slice(&[]).element(), Some(0));
    assert_eq!(Bin::from_slice(&7u32.to_le_bytes()), Bin::new(7));
}

#[test]
fn bin_slice_copy_overwrites_low_bytes() {
    let mut b = Bin::new(0xaabb_ccdd);
    b.slice_copy(&[0x11, 0x22]);
    assert_eq!(b.element(), Some(0xaabb_2211));
    let mut e = Bin::empty();
    e.slice_copy(&[0x05]);
    assert_eq!(e.element(), Some(5));
}

#[test]
fn bucket_insert_places_then_displaces() {
    let mut bucket = Bucket::new();
    assert!(bucket.is_available());
    assert!(!bucket.contains(&Bin::new(1)));
    assert!(!bucket.contains(&Bin::empty()));
    let mut bin = Bin::new(1);
    bucket.insert(&mut bin);
    assert!(bin.is_empty());
    assert!(!bucket.is_available());
    assert!(bucket.contains(&Bin::new(1)));
    let mut next = Bin::new(2);
    bucket.insert(&mut next);
    assert_eq!(next.element(), Some(1));
    assert!(bucket.contains(&Bin::new(2)));
    assert!(!bucket.contains(&Bin::new(1)));
}

#[test]
fn element_bytes_are_little_endian() {
    assert_eq!(elem_to_bytes(0x0403_0201), vec![1, 2, 3, 4]);
    assert_eq!(elem_to_bytes(7), vec![7, 0, 0, 0]);
}

#[test]
fn hash_indices_come_from_the_sha256_digest() {
    assert_eq!(get_two_hash(&[1, 2, 3, 4], 1000), (863, 999));
    assert_eq!(get_three_hash(&[1, 2, 3, 4], 1000), (863, 999, 863));
    assert_eq!(get_three_hash(&[1, 2, 3, 4], 4096), (1183, 2847, 623));
    assert_eq!(get_three_hash(&[7, 0, 0, 0], 4096), (488, 1005, 2004));
    assert_eq!(get_two_hash(&[7, 0, 0, 0], 1000), (272, 525));
    assert_eq!(get_two_hash(&[7, 0, 0, 0], 1), (0, 0));
}

#[test]
fn alternate_hash_rules() {
    let key = [1u8, 2, 3, 4];
    assert_eq!(get_alt_hash(&key, 1000, 863), 999);
    assert_eq!(get_alt_hash(&key, 1000, 999), 863);
    assert_eq!(get_alt_hash(&key, 1000, 5), 863);
    assert_eq!(get_alt_hash_three(&key, 1000, 863), 999);
    assert_eq!(get_alt_hash_three(&key, 1000, 999), 863);
    assert_eq!(get_alt_hash_three(&key, 4096, 1183), 2847);
    assert_eq!(get_alt_hash_three(&key, 4096, 2847), 623);
    assert_eq!(get_alt_hash_three(&key, 4096, 623), 1183);
}

#[test]
fn random_index_is_in_range() {
    for _ in 0..100 {
        match get_random(10) {
            Some(x) => assert!(x < 10),
            None => panic!("random source failed"),
        }
    }
    assert_eq!(get_random(1), Some(0));
}

#[test]
fn random_bytes_select_index_little_endian() {
    assert_eq!(index_from_bytes([1, 0, 0, 0, 0, 0, 0, 0], 10), 1);
    assert_eq!(index_from_bytes([0, 1, 0, 0, 0, 0, 0, 0], 1000), 256);
    assert_eq!(index_from_bytes([0xff; 8], 1000), (u64::MAX % 1000) as usize);
    assert_eq!(index_from_bytes([7, 7, 7, 7, 7, 7, 7, 7], 1), 0);
}
