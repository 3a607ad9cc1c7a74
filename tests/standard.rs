use cuckoohash::cuckoo_hash::standard::CuckooHashTable;
use cuckoohash::cuckoo_hash::{Placement, MAX_RELOCATE};
use cuckoohash::utils::get_two_hash;
use cuckoohash::StandardCuckoo;
use std::time::Instant;

#[test]
fn test_insert() {
    let rate = 2.4f64;
    let f = (1 << 20) as f64 * rate;
    let mut ctable = CuckooHashTable::with_capacity(f as usize);

    let start = Instant::now();
    for i in 10000..(1u32 << 20) + 10000 {
        ctable.insert(i);
    }

    let insert_time = start.elapsed().as_millis();
    println!("Insert Time: {}ms", insert_time);

    for i in 10000..(1u32 << 20) + 10000 {
        assert!(ctable.contains(i));
    }
    println!("Check Time: {}ms", start.elapsed().as_millis() - insert_time);

    println!("expension rate: {}", rate);
    println!("table capacity: {}", ctable.capacity());
    println!("element count: {}", ctable.len());
    println!("use stash: {}", ctable.stash_len());
    println!("record: {:?}", &ctable.record());
}

#[test]
fn new_table_is_empty_with_default_capacity() {
    let ctb = StandardCuckoo::new();
    assert_eq!(ctb.len(), 0);
    assert_eq!(ctb.capacity(), 4096);
    assert_eq!(ctb.stash_len(), 0);
    assert!(!ctb.contains(0));
}

#[test]
fn with_capacity_keeps_capacity_and_raises_zero() {
    assert_eq!(StandardCuckoo::with_capacity(1024).capacity(), 1024);
    assert_eq!(StandardCuckoo::with_capacity(0).capacity(), 1);
}

#[test]
fn insert_counts_distinct_elements() {
    let mut ct = StandardCuckoo::new();
    assert!(ct.insert(3));
    assert_eq!(ct.len(), 1);
    assert!(ct.insert(4));
    assert_eq!(ct.len(), 2);
    assert!(ct.insert(3));
    assert_eq!(ct.len(), 2);
}

#[test]
fn duplicate_insert_is_a_no_op() {
    let mut ct = StandardCuckoo::with_capacity(1);
    assert!(ct.insert(2));
    assert!(!ct.insert(4));
    for _ in 0..3 {
        assert!(ct.insert(4));
        assert!(ct.insert(2));
        assert_eq!(ct.len(), 2);
        assert_eq!(ct.stash_len(), 1);
    }
    assert_eq!(ct.place(4, 0), Placement::Present);
}

#[test]
fn thousand_sequential_elements_are_found() {
    let mut ct = StandardCuckoo::with_capacity(1024);
    for i in 0..1000u32 {
        ct.insert(i);
    }
    for i in 0..1000u32 {
        assert!(ct.contains(i));
    }
    assert!(!ct.contains(5000));
    assert_eq!(ct.len(), 1000);
}

#[test]
fn single_bucket_keeps_both_elements() {
    let mut smallct = StandardCuckoo::with_capacity(1);
    assert!(smallct.insert(2));
    assert_eq!(smallct.len(), 1);
    assert!(!smallct.insert(4));
    assert_eq!(smallct.len(), 2);
    assert_eq!(smallct.stash_len(), 1);
    assert!(smallct.contains(2));
    assert!(smallct.contains(4));
    assert!(!smallct.contains(3));
}

#[test]
fn exhausted_chain_reports_stash_and_bound() {
    let mut ct = StandardCuckoo::with_capacity(1);
    assert_eq!(ct.place(10, 0), Placement::Direct);
    assert_eq!(ct.place(11, 1), Placement::Stashed);
    let rec = ct.record();
    assert_eq!(rec.reload_elem, 1);
    assert_eq!(rec.reload_cnt, MAX_RELOCATE as u64);
    assert_eq!(rec.max_reload, MAX_RELOCATE as u64);
    assert_eq!(ct.place(12, 0), Placement::Stashed);
    assert_eq!(ct.stash_len(), 2);
    assert_eq!(ct.record().reload_elem, 2);
    for x in 10..13u32 {
        assert!(ct.contains(x));
    }
}

fn disjoint_pair(cap: usize) -> (u32, u32) {
    for a in 0..100u32 {
        for b in (a + 1)..100u32 {
            let ha = get_two_hash(&a.to_le_bytes(), cap);
            let hb = get_two_hash(&b.to_le_bytes(), cap);
            if ha.0 != hb.0 && ha.0 != hb.1 && ha.1 != hb.0 && ha.1 != hb.1 {
                return (a, b);
            }
        }
    }
    panic!("no pair found");
}

#[test]
fn disjoint_candidates_never_relocate() {
    let (a, b) = disjoint_pair(16);
    for (x, y) in [(a, b), (b, a)] {
        let mut ct = StandardCuckoo::with_capacity(16);
        assert_eq!(ct.place(x, 0), Placement::Direct);
        assert_eq!(ct.place(y, 1), Placement::Direct);
        assert_eq!(ct.record().reload_elem, 0);
        assert_eq!(ct.record().reload_cnt, 0);
        assert!(ct.contains(x) && ct.contains(y));
    }
}

#[test]
fn full_candidates_relocate_within_bound() {
    let mut ct = StandardCuckoo::with_capacity(8);
    let mut outcomes = Vec::new();
    for x in 0..40u32 {
        outcomes.push(ct.place(x, x as usize));
    }
    let mut stashed = 0;
    for p in &outcomes {
        match p {
            Placement::Relocated(n) => assert!(*n >= 1 && *n <= MAX_RELOCATE),
            Placement::Stashed => stashed += 1,
            Placement::Direct => {}
            Placement::Present => panic!("distinct elements"),
        }
    }
    assert_eq!(ct.stash_len(), stashed);
    assert!(ct.record().max_reload <= MAX_RELOCATE as u64);
    for x in 0..40u32 {
        assert!(ct.contains(x));
    }
    assert!(!ct.contains(40));
    assert_eq!(ct.len(), 40);
}

#[test]
fn try_insert_reports_placement() {
    let mut ct = StandardCuckoo::with_capacity(1);
    assert_eq!(ct.try_insert(2), Some(true));
    assert_eq!(ct.try_insert(2), Some(true));
    assert_eq!(ct.try_insert(4), Some(false));
    assert_eq!(ct.len(), 2);
    assert_eq!(ct.stash_len(), 1);
    assert!(ct.contains(2) && ct.contains(4));
}
