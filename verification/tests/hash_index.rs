use hekaton::Data;
use hekaton::Relation;

#[test]
fn insert_then_lookup_finds_entry() {
    let mut rel = Relation::new(8);
    rel.insert(5, 50, 500);
    let found = rel.lookup(5);
    assert!(found.is_some());
    let d = found.unwrap();
    assert_eq!(d.a, 5);
    assert_eq!(d.b, 50);
    assert_eq!(d.c, 500);
    assert_eq!(rel.size(), 1);
}

#[test]
fn lookup_on_empty_table_misses() {
    let rel = Relation::new(4);
    assert!(rel.lookup(0).is_none());
    assert!(rel.lookup(123).is_none());
    assert_eq!(rel.size(), 0);
}

#[test]
fn remove_effectiveness() {
    let mut rel = Relation::new(4);
    rel.insert(1, 10, 100);
    rel.insert(2, 20, 200);
    assert_eq!(rel.size(), 2);
    rel.remove(&Data { a: 1, b: 0, c: 0 });
    assert!(rel.lookup(1).is_none());
    assert_eq!(rel.size(), 1);
    let kept = rel.lookup(2).unwrap();
    assert_eq!(kept.b, 20);
}

#[test]
fn remove_absent_key_is_a_no_op() {
    let mut rel = Relation::new(4);
    rel.insert(3, 30, 300);
    rel.insert(7, 70, 700);
    rel.remove(&Data { a: 11, b: 0, c: 0 });
    assert_eq!(rel.size(), 2);
    assert_eq!(rel.lookup(3).unwrap().b, 30);
    assert_eq!(rel.lookup(7).unwrap().b, 70);
    assert!(rel.lookup(11).is_none());
}

#[test]
fn remove_in_one_bucket_leaves_other_buckets_alone() {
    // mask = 3: keys 1 and 2 land in different buckets.
    let mut rel = Relation::new(4);
    rel.insert(1, 10, 100);
    rel.insert(2, 20, 200);
    rel.remove(&Data { a: 1, b: 0, c: 0 });
    let kept = rel.lookup(2).unwrap();
    assert_eq!(kept.a, 2);
    assert_eq!(kept.b, 20);
    assert_eq!(kept.c, 200);
}

#[test]
fn scan_yields_every_live_entry_once() {
    let mut rel = Relation::new(16);
    let mut live_count: usize = 0;
    let mut live_key_sum: usize = 0;
    let mut i: usize = 0;
    while i < 100 {
        rel.insert(i, i / 3, i / 7);
        live_count += 1;
        live_key_sum += i;
        i += 1;
    }
    // Remove every fourth key.
    let mut k: usize = 0;
    while k < 100 {
        rel.remove(&Data { a: k, b: 0, c: 0 });
        live_count -= 1;
        live_key_sum -= k;
        k += 4;
    }
    let scanned = rel.scan();
    assert_eq!(scanned.len(), live_count);
    assert_eq!(scanned.len(), rel.size());
    let mut sum: usize = 0;
    for d in &scanned {
        sum += d.a;
    }
    assert_eq!(sum, live_key_sum);
}

#[test]
fn duplicate_keys_coexist() {
    let mut rel = Relation::new(4);
    rel.insert(9, 1, 11);
    rel.insert(9, 2, 22);
    assert_eq!(rel.size(), 2);
    // The most recently inserted duplicate is found first.
    let newest = rel.lookup(9).unwrap();
    assert_eq!(newest.b, 2);
    assert_eq!(newest.c, 22);
    // One removal takes out only that one.
    rel.remove(&Data { a: 9, b: 0, c: 0 });
    assert_eq!(rel.size(), 1);
    let older = rel.lookup(9).unwrap();
    assert_eq!(older.b, 1);
    assert_eq!(older.c, 11);
}

#[test]
fn concrete_scenario_three_collisions() {
    // bucket_count = 4, mask = 3; keys 0, 4, 8 all mask to bucket 0.
    let mut rel = Relation::new(4);
    rel.insert(0, 100, 1000);
    rel.insert(4, 104, 1004);
    rel.insert(8, 108, 1008);
    assert_eq!(rel.size(), 3);
    // Chain order is reverse insertion order: [8, 4, 0] head to tail.
    let before = rel.scan();
    let before_keys: Vec<usize> = before.iter().map(|d| d.a).collect();
    assert_eq!(before_keys, vec![8, 4, 0]);
    rel.remove(&Data { a: 4, b: 0, c: 0 });
    let after = rel.scan();
    let after_keys: Vec<usize> = after.iter().map(|d| d.a).collect();
    assert_eq!(after_keys, vec![8, 0]);
    assert!(rel.lookup(4).is_none());
    assert_eq!(rel.lookup(8).unwrap().b, 108);
    assert_eq!(rel.lookup(0).unwrap().b, 100);
    assert_eq!(rel.size(), 2);
}

#[test]
fn single_bucket_table_chains_everything() {
    // bucket_count = 1, mask = 0: every key collides.
    let mut rel = Relation::new(1);
    rel.insert(10, 1, 1);
    rel.insert(20, 2, 2);
    rel.insert(30, 3, 3);
    assert_eq!(rel.size(), 3);
    assert_eq!(rel.lookup(10).unwrap().b, 1);
    assert_eq!(rel.lookup(20).unwrap().b, 2);
    assert_eq!(rel.lookup(30).unwrap().b, 3);
    let keys: Vec<usize> = rel.scan().iter().map(|d| d.a).collect();
    assert_eq!(keys, vec![30, 20, 10]);
    rel.remove(&Data { a: 20, b: 0, c: 0 });
    assert!(rel.lookup(20).is_none());
    assert_eq!(rel.lookup(10).unwrap().b, 1);
    assert_eq!(rel.lookup(30).unwrap().b, 3);
}

#[test]
fn largest_keys_hash_by_mask() {
    let mut rel = Relation::new(4);
    rel.insert(usize::MAX, 1, 2);
    // usize::MAX & 3 == 3, same bucket as key 3.
    rel.insert(3, 9, 9);
    assert_eq!(rel.lookup(usize::MAX).unwrap().b, 1);
    assert_eq!(rel.lookup(3).unwrap().b, 9);
    rel.remove(&Data { a: 3, b: 0, c: 0 });
    assert_eq!(rel.lookup(usize::MAX).unwrap().b, 1);
    assert!(rel.lookup(3).is_none());
}

#[test]
fn remove_only_first_of_three_duplicates() {
    let mut rel = Relation::new(2);
    rel.insert(6, 1, 0);
    rel.insert(6, 2, 0);
    rel.insert(6, 3, 0);
    assert_eq!(rel.size(), 3);
    rel.remove(&Data { a: 6, b: 0, c: 0 });
    assert_eq!(rel.size(), 2);
    assert_eq!(rel.lookup(6).unwrap().b, 2);
    rel.remove(&Data { a: 6, b: 0, c: 0 });
    assert_eq!(rel.size(), 1);
    assert_eq!(rel.lookup(6).unwrap().b, 1);
    rel.remove(&Data { a: 6, b: 0, c: 0 });
    assert_eq!(rel.size(), 0);
    assert!(rel.lookup(6).is_none());
}
