use the_algorithms_rust::bloom_filters::insert_all;
use the_algorithms_rust::{
    BasicBloomFilter, BloomFilter, FilterConfigError, MultiBinaryBloomFilter,
    SingleBinaryBloomFilter,
};

/// A small deterministic generator for workloads.
struct Lcg(u64);

impl Lcg {
    fn next_i32(&mut self) -> i32 {
        self.0 = self
            .0
            .wrapping_mul(6364136223846793005)
            .wrapping_add(1442695040888963407);
        (self.0 >> 32) as i32
    }
}

fn workload(seed: u64, inserted: usize, queried: usize) -> (Vec<i32>, Vec<i32>) {
    let mut rng = Lcg(seed);
    let to_insert: Vec<i32> = (0..inserted).map(|_| rng.next_i32()).collect();
    let to_test: Vec<i32> = (0..queried).map(|_| rng.next_i32()).collect();
    (to_insert, to_test)
}

fn sizing(n: usize, p: f64) -> (usize, usize) {
    let m = (-(n as f64) * p.ln() / (2.0_f64.ln().powi(2))).ceil() as usize;
    let k = ((m as f64 / n as f64) * 2.0_f64.ln()).ceil() as usize;
    (m, k)
}

#[test]
fn basic_filter_must_not_return_false_negative() {
    for seed in 0..20u64 {
        let (to_insert, to_test) = workload(seed, 50 + (seed as usize) * 200, 2000);
        let mut filter = BasicBloomFilter::<10_000>::default();
        for item in &to_insert {
            filter.insert(*item);
        }
        for item in &to_insert {
            assert!(filter.contains(item));
        }
        for other in to_test {
            if !filter.contains(&other) {
                assert!(!to_insert.contains(&other));
            }
        }
    }
}

#[test]
fn binary_filter_must_not_return_false_negative() {
    for seed in 0..20u64 {
        let (to_insert, to_test) = workload(seed, 50 + (seed as usize) * 200, 2000);
        let mut filter = SingleBinaryBloomFilter::default();
        for item in &to_insert {
            filter.insert(*item);
        }
        for item in &to_insert {
            assert!(filter.contains(item));
        }
        for other in to_test {
            if !filter.contains(&other) {
                assert!(!to_insert.contains(&other));
            }
        }
    }
}

#[test]
fn a_basic_filter_of_capacity_128_is_the_same_as_a_binary_filter() {
    for seed in 0..20u64 {
        let (to_insert, to_test) = workload(seed, 1 + (seed as usize) * 7, 1000);
        let mut basic = BasicBloomFilter::<128>::default();
        let mut binary = SingleBinaryBloomFilter::default();
        for item in &to_insert {
            basic.insert(*item);
            binary.insert(*item);
            for other in &to_test {
                assert_eq!(basic.contains(other), binary.contains(other));
            }
        }
    }
}

#[test]
fn a_multi_binary_bloom_filter_must_not_return_false_negatives() {
    for seed in 0..10u64 {
        let (to_insert, to_test) = workload(seed, 50 + (seed as usize) * 400, 4000);
        let mut unique = to_insert.clone();
        unique.sort();
        unique.dedup();
        let (m, k) = sizing(unique.len(), 0.05);
        let mut filter = MultiBinaryBloomFilter::with_dimensions(m, k).unwrap();
        for item in &unique {
            filter.insert(*item);
        }
        let mut false_positives = 0;
        for other in &to_test {
            if !filter.contains(other) {
                assert!(!unique.contains(other));
            } else if !unique.contains(other) {
                false_positives += 1;
            }
        }
        let rate = false_positives as f64 / to_test.len() as f64;
        assert!(rate < 0.25);
    }
}

#[test]
fn multi_filter_false_positive_rate_stays_near_target() {
    let (to_insert, _) = workload(99, 2000, 0);
    let mut unique = to_insert.clone();
    unique.sort();
    unique.dedup();
    let (m, k) = sizing(unique.len(), 0.01);
    let mut filter = MultiBinaryBloomFilter::with_dimensions(m, k).unwrap();
    for item in &unique {
        filter.insert(*item);
    }
    let mut queried = 0;
    let mut false_positives = 0;
    let mut rng = Lcg(12345);
    while queried < 20_000 {
        let q = rng.next_i32();
        if unique.binary_search(&q).is_ok() {
            continue;
        }
        queried += 1;
        if filter.contains(&q) {
            false_positives += 1;
        }
    }
    let rate = false_positives as f64 / queried as f64;
    assert!(rate < 0.03);
}

#[test]
fn fixed_filter_small_integers_scenario() {
    let mut filter = BasicBloomFilter::<10_000>::default();
    filter.insert(1);
    filter.insert(2);
    filter.insert(3);
    assert!(filter.contains(&1));
    assert!(filter.contains(&2));
    assert!(filter.contains(&3));
    let mut positives = 0;
    for x in 1_000_000..1_010_000 {
        if filter.contains(&x) {
            positives += 1;
        }
    }
    assert!(positives < 100);
}

#[test]
fn sized_multi_filter_scenario() {
    let (m, k) = sizing(1000, 0.05);
    let mut filter = MultiBinaryBloomFilter::with_dimensions(m, k).unwrap();
    let mut rng = Lcg(7);
    let mut inserted: Vec<i32> = Vec::new();
    while inserted.len() < 1000 {
        let x = rng.next_i32();
        if !inserted.contains(&x) {
            inserted.push(x);
        }
    }
    for x in &inserted {
        filter.insert(*x);
    }
    let mut queries: Vec<i32> = Vec::new();
    while queries.len() < 1000 {
        let x = rng.next_i32();
        if !inserted.contains(&x) {
            queries.push(x);
        }
    }
    for x in &inserted {
        assert!(filter.contains(x));
    }
    let false_positives = queries.iter().filter(|q| filter.contains(*q)).count();
    assert!((false_positives as f64 / 1000.0) < 0.25);
}

#[test]
fn repeated_insert_changes_no_answer() {
    let (to_insert, to_test) = workload(3, 300, 3000);
    let mut once = MultiBinaryBloomFilter::with_dimensions(4000, 3).unwrap();
    let mut twice = MultiBinaryBloomFilter::with_dimensions(4000, 3).unwrap();
    let mut basic_once = BasicBloomFilter::<1000>::default();
    let mut basic_twice = BasicBloomFilter::<1000>::default();
    for item in &to_insert {
        once.insert(*item);
        twice.insert(*item);
        twice.insert(*item);
        basic_once.insert(*item);
        basic_twice.insert(*item);
        basic_twice.insert(*item);
    }
    for item in &to_insert {
        twice.insert(*item);
    }
    for other in to_test.iter().chain(to_insert.iter()) {
        assert_eq!(once.contains(other), twice.contains(other));
        assert_eq!(basic_once.contains(other), basic_twice.contains(other));
    }
}

#[test]
fn empty_filters_contain_nothing() {
    let basic = BasicBloomFilter::<64>::default();
    let binary = SingleBinaryBloomFilter::default();
    let multi = MultiBinaryBloomFilter::with_dimensions(13, 4).unwrap();
    for x in -500..500 {
        assert!(!basic.contains(&x));
        assert!(!binary.contains(&x));
        assert!(!multi.contains(&x));
    }
}

#[test]
fn filter_size_not_a_multiple_of_eight() {
    for size in [1usize, 7, 9, 15, 17, 63] {
        let mut filter = MultiBinaryBloomFilter::with_dimensions(size, 3).unwrap();
        for x in 0..200 {
            filter.insert(x);
            assert!(filter.contains(&x));
        }
    }
}

#[test]
fn a_filter_of_one_cell_reports_everything_once_used() {
    let mut filter = MultiBinaryBloomFilter::with_dimensions(1, 1).unwrap();
    assert!(!filter.contains(&5));
    filter.insert(5);
    for x in -100..100 {
        assert!(filter.contains(&x));
    }
}

#[test]
fn zero_sizes_are_rejected() {
    assert_eq!(
        MultiBinaryBloomFilter::with_dimensions(0, 3).err(),
        Some(FilterConfigError::ZeroFilterSize)
    );
    assert_eq!(
        MultiBinaryBloomFilter::with_dimensions(0, 0).err(),
        Some(FilterConfigError::ZeroFilterSize)
    );
    assert_eq!(
        MultiBinaryBloomFilter::with_dimensions(10, 0).err(),
        Some(FilterConfigError::ZeroHashCount)
    );
    assert_eq!(
        MultiBinaryBloomFilter::with_seeds(10, vec![]).err(),
        Some(FilterConfigError::ZeroHashCount)
    );
}

#[test]
fn repeated_seeds_are_rejected() {
    assert_eq!(
        MultiBinaryBloomFilter::with_seeds(10, vec![4, 8, 4]).err(),
        Some(FilterConfigError::RepeatedSeed)
    );
    assert!(MultiBinaryBloomFilter::with_seeds(10, vec![4, 8, 5]).is_ok());
}

#[test]
fn salts_give_distinct_hash_functions() {
    let mut a = MultiBinaryBloomFilter::with_seeds(64, vec![1]).unwrap();
    let mut b = MultiBinaryBloomFilter::with_seeds(64, vec![2]).unwrap();
    a.insert(42);
    b.insert(42);
    let differ = (0..5000).any(|x| a.contains(&x) != b.contains(&x));
    assert!(differ);
}

#[test]
fn filters_on_other_integer_types() {
    let mut wide = MultiBinaryBloomFilter::with_dimensions(1000, 3).unwrap();
    let values: Vec<u64> = vec![0, 1, u64::MAX, 1 << 40];
    for v in &values {
        wide.insert(*v);
    }
    for v in &values {
        assert!(wide.contains(v));
    }
    let mut signed = BasicBloomFilter::<500>::default();
    signed.insert(-7i64);
    assert!(signed.contains(&-7i64));
    let mut small = SingleBinaryBloomFilter::default();
    small.insert(9u32);
    assert!(small.contains(&9u32));
}

#[test]
fn insert_all_inserts_every_item() {
    let (to_insert, to_test) = workload(11, 500, 2000);
    let mut bulk = MultiBinaryBloomFilter::with_dimensions(5000, 4).unwrap();
    let mut single = MultiBinaryBloomFilter::with_dimensions(5000, 4).unwrap();
    insert_all(&mut bulk, &to_insert);
    for item in &to_insert {
        single.insert(*item);
    }
    for item in &to_insert {
        assert!(bulk.contains(item));
    }
    for other in &to_test {
        assert_eq!(bulk.contains(other), single.contains(other));
    }
}

#[test]
fn union_of_filters_reports_both_item_sets() {
    let (left, right) = workload(21, 400, 400);
    let mut a = MultiBinaryBloomFilter::with_dimensions(3000, 3).unwrap();
    let mut b = MultiBinaryBloomFilter::with_dimensions(3000, 3).unwrap();
    let mut both = MultiBinaryBloomFilter::with_dimensions(3000, 3).unwrap();
    for x in &left {
        a.insert(*x);
        both.insert(*x);
    }
    for x in &right {
        b.insert(*x);
        both.insert(*x);
    }
    assert!(a.same_config(&b));
    assert_eq!(a.union_with(&b), Ok(()));
    for x in left.iter().chain(right.iter()) {
        assert!(a.contains(x));
    }
    let (_, probes) = workload(22, 0, 3000);
    for q in &probes {
        assert_eq!(a.contains(q), both.contains(q));
    }
}

#[test]
fn union_of_different_configurations_is_refused() {
    let mut a = MultiBinaryBloomFilter::with_dimensions(100, 3).unwrap();
    let mut b = MultiBinaryBloomFilter::with_dimensions(101, 3).unwrap();
    let c = MultiBinaryBloomFilter::with_seeds(100, vec![0, 1, 5]).unwrap();
    b.insert(4);
    assert!(!a.same_config(&b));
    assert_eq!(a.union_with(&b), Err(FilterConfigError::DifferentConfig));
    assert_eq!(a.union_with(&c), Err(FilterConfigError::DifferentConfig));
    assert!(!a.contains(&4));
}

#[test]
fn filters_take_string_slices() {
    let mut filter = MultiBinaryBloomFilter::with_dimensions(500, 4).unwrap();
    let words = ["apple", "pear", "plum", "ünïcødé", ""];
    for w in words {
        filter.insert(w);
    }
    for w in words {
        assert!(filter.contains(&w));
    }
    let mut basic = BasicBloomFilter::<256>::default();
    basic.insert("kiwi");
    assert!(basic.contains(&"kiwi"));
}
