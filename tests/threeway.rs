use cuckoohash::cuckoo_hash::{Placement, MAX_RELOCATE};
use cuckoohash::utils::get_three_hash;
use cuckoohash::{StandardCuckoo, ThreewayCuckoo};

#[test]
fn threeway_new_table_is_empty() {
    let ct = ThreewayCuckoo::new();
    assert_eq!(ct.len(), 0);
    assert_eq!(ct.capacity(), 4096);
    assert_eq!(ThreewayCuckoo::with_capacity(0).capacity(), 1);
}

#[test]
fn threeway_thousand_sequential_elements_are_found() {
    let mut ct = ThreewayCuckoo::with_capacity(1024);
    for i in 0..1000u32 {
        ct.insert(i);
    }
    for i in 0..1000u32 {
        assert!(ct.contains(i));
    }
    assert!(!ct.contains(5000));
    assert_eq!(ct.len(), 1000);
}

#[test]
fn threeway_single_bucket_keeps_both_elements() {
    let mut ct = ThreewayCuckoo::with_capacity(1);
    assert!(ct.insert(2));
    assert!(!ct.insert(4));
    assert_eq!(ct.len(), 2);
    assert_eq!(ct.stash_len(), 1);
    assert!(ct.contains(2) && ct.contains(4));
    assert!(ct.insert(4));
    assert_eq!(ct.len(), 2);
    assert_eq!(ct.record().reload_cnt, MAX_RELOCATE as u64);
}

#[test]
fn threeway_disjoint_candidates_never_relocate() {
    let cap = 64;
    let mut pair = None;
    'outer: for a in 0..100u32 {
        for b in (a + 1)..100u32 {
            let ha = get_three_hash(&a.to_le_bytes(), cap);
            let hb = get_three_hash(&b.to_le_bytes(), cap);
            let sa = [ha.0, ha.1, ha.2];
            let sb = [hb.0, hb.1, hb.2];
            if sa.iter().all(|i| !sb.contains(i)) {
                pair = Some((a, b));
                break 'outer;
            }
        }
    }
    let (a, b) = pair.unwrap();
    for (x, y) in [(a, b), (b, a)] {
        let mut ct = ThreewayCuckoo::with_capacity(cap);
        assert_eq!(ct.place(x, 2), Placement::Direct);
        assert_eq!(ct.place(y, 0), Placement::Direct);
        assert_eq!(ct.record().reload_elem, 0);
    }
}

#[test]
fn threeway_uses_no_more_stash_than_standard() {
    let rate = 2.4f64;
    let cap = ((1 << 20) as f64 * rate) as usize;
    let mut two = StandardCuckoo::with_capacity(cap);
    let mut three = ThreewayCuckoo::with_capacity(cap);
    for i in 0..(1u32 << 20) {
        two.insert(i);
        three.insert(i);
    }
    assert_eq!(two.len(), 1 << 20);
    assert_eq!(three.len(), 1 << 20);
    assert!(two.stash_len() <= 2);
    assert!(three.stash_len() <= two.stash_len());
    assert!(three.record().reload_cnt <= two.record().reload_cnt);
    assert!(three.record().reload_elem <= two.record().reload_elem);
}

#[test]
fn threeway_try_insert_reports_placement() {
    let mut ct = ThreewayCuckoo::with_capacity(1);
    assert_eq!(ct.try_insert(9), Some(true));
    assert_eq!(ct.try_insert(10), Some(false));
    assert_eq!(ct.try_insert(10), Some(true));
    assert_eq!(ct.stash_len(), 1);
}
