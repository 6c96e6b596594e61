use the_algorithms_rust::{merge_sort, partition, quick_sort};

fn is_sorted<T: Ord>(arr: &[T]) -> bool {
    arr.windows(2).all(|w| w[0] <= w[1])
}

fn have_same_elements<T: Ord + Clone>(a: &[T], b: &[T]) -> bool {
    let mut x = a.to_vec();
    let mut y = b.to_vec();
    x.sort();
    y.sort();
    x == y
}

struct Lcg(u64);

impl Lcg {
    fn below(&mut self, bound: u64) -> u64 {
        self.0 = self
            .0
            .wrapping_mul(6364136223846793005)
            .wrapping_add(1442695040888963407);
        (self.0 >> 33) % bound
    }
}

fn generate_random_vec(n: u32, range_l: i32, range_r: i32) -> Vec<i32> {
    let mut rng = Lcg(n as u64);
    let span = (range_r - range_l + 1) as u64;
    (0..n).map(|_| range_l + rng.below(span) as i32).collect()
}

fn generate_nearly_ordered_vec(n: u32, swap_times: u32) -> Vec<i32> {
    let mut arr: Vec<i32> = (0..n as i32).collect();
    let mut rng = Lcg(swap_times as u64);
    for _ in 0..swap_times {
        let a = rng.below(n as u64) as usize;
        let b = rng.below(n as u64) as usize;
        arr.swap(a, b);
    }
    arr
}

fn generate_repeated_elements_vec(n: u32, unique_elements: u8) -> Vec<i32> {
    let mut rng = Lcg(n as u64 + unique_elements as u64);
    (0..n).map(|_| rng.below(unique_elements as u64) as i32).collect()
}

#[test]
fn increase() {
    let mut v = vec![1, 2, 3, 4];
    let answer = v.clone();

    merge_sort(&mut v);

    assert_eq!(v, answer);
}

#[test]
fn decrease() {
    let mut v = vec![4, 3, 2, 1];

    let mut answer = v.clone();
    answer.reverse();

    merge_sort(&mut v);
    assert_eq!(v, answer);
}

#[test]
fn urandom() {
    let mut v = vec![];
    let (mut x, a, c, m) = (0u64, 12, 34, 1_000_000_000 + 7);

    for _ in 0..65536 {
        x = (x + a) * c % m;
        v.push(x);
    }

    let mut answer = v.clone();
    answer.sort();

    merge_sort(&mut v);
    assert_eq!(v, answer);
}

#[test]
fn merge_sort_small_inputs() {
    let mut empty: Vec<i32> = vec![];
    merge_sort(&mut empty);
    assert!(empty.is_empty());
    let mut one = vec![5];
    merge_sort(&mut one);
    assert_eq!(one, vec![5]);
    let mut dups = vec![3, 1, 3, 1, 2, 2];
    merge_sort(&mut dups);
    assert_eq!(dups, vec![1, 1, 2, 2, 3, 3]);
}

#[test]
fn basic() {
    let mut res = vec![10, 8, 4, 3, 1, 9, 2, 7, 5, 6];
    let cloned = res.clone();
    quick_sort(&mut res);
    assert!(is_sorted(&res) && have_same_elements(&res, &cloned));
}

#[test]
fn basic_string() {
    let mut res = vec!["a", "bb", "d", "cc"];
    let cloned = res.clone();
    quick_sort(&mut res);
    assert!(is_sorted(&res) && have_same_elements(&res, &cloned));
}

#[test]
fn empty() {
    let mut res = Vec::<u8>::new();
    let cloned = res.clone();
    quick_sort(&mut res);
    assert!(is_sorted(&res) && have_same_elements(&res, &cloned));
}

#[test]
fn one_element() {
    let mut res = vec![1];
    let cloned = res.clone();
    quick_sort(&mut res);
    assert!(is_sorted(&res) && have_same_elements(&res, &cloned));
}

#[test]
fn pre_sorted() {
    let mut res = vec![1, 2, 3, 4];
    let cloned = res.clone();
    quick_sort(&mut res);
    assert!(is_sorted(&res) && have_same_elements(&res, &cloned));
}

#[test]
fn reverse_sorted() {
    let mut res = vec![4, 3, 2, 1];
    let cloned = res.clone();
    quick_sort(&mut res);
    assert!(is_sorted(&res) && have_same_elements(&res, &cloned));
}

#[test]
fn large_elements() {
    let mut res = generate_random_vec(300000, 0, 1000000);
    let cloned = res.clone();
    quick_sort(&mut res);
    assert!(is_sorted(&res) && have_same_elements(&res, &cloned));
}

#[test]
fn nearly_ordered_elements() {
    let mut res = generate_nearly_ordered_vec(3000, 10);
    let cloned = res.clone();
    quick_sort(&mut res);
    assert!(is_sorted(&res) && have_same_elements(&res, &cloned));
}

#[test]
fn repeated_elements() {
    let mut res = generate_repeated_elements_vec(1000000, 3);
    let cloned = res.clone();
    quick_sort(&mut res);
    assert!(is_sorted(&res) && have_same_elements(&res, &cloned));
}

#[test]
fn partition_places_the_pivot() {
    let mut arr = vec![9, 7, 5, 11, 12, 2, 14, 3, 10, 6];
    let p = partition(&mut arr, 0, 9);
    assert_eq!(arr[p], 6);
    assert!(arr[..p].iter().all(|x| *x <= 6));
    assert!(arr[p + 1..].iter().all(|x| *x >= 6));
}

#[test]
fn partition_keeps_elements_outside_the_range() {
    let mut arr = vec![100, 5, 1, 4, 3, -100];
    let p = partition(&mut arr, 1, 4);
    assert_eq!(arr[0], 100);
    assert_eq!(arr[5], -100);
    assert_eq!(p, 2);
    assert_eq!(arr[2], 3);
    let mut middle = arr[1..5].to_vec();
    middle.sort();
    assert_eq!(middle, vec![1, 3, 4, 5]);
}
