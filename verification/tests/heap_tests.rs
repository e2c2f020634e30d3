use binary_heap::Heap;
use binary_heap::MaxCmp;
use binary_heap::MaxHeap;
use binary_heap::MinCmp;
use binary_heap::MinHeap;

#[test]
fn test_empty_heap() {
    let mut heap = MaxHeap::new();
    assert_eq!(heap.next(), None);
}

#[test]
fn test_min_heap() {
    let mut heap = MinHeap::new();
    heap.add(4);
    heap.add(2);
    heap.add(9);
    heap.add(11);
    assert_eq!(heap.len(), 4);
    assert_eq!(heap.next(), Some(2));
    assert_eq!(heap.next(), Some(4));
    assert_eq!(heap.next(), Some(9));
    heap.add(1);
    assert_eq!(heap.next(), Some(1));
    assert_eq!(heap.next(), Some(11));
    assert_eq!(heap.next(), None);
}

#[test]
fn test_max_heap() {
    let mut heap = MaxHeap::new();
    heap.add(4);
    heap.add(2);
    heap.add(9);
    heap.add(11);
    assert_eq!(heap.len(), 4);
    assert_eq!(heap.next(), Some(11));
    assert_eq!(heap.next(), Some(9));
    assert_eq!(heap.next(), Some(4));
    heap.add(1);
    assert_eq!(heap.next(), Some(2));
    assert_eq!(heap.next(), Some(1));
    assert_eq!(heap.next(), None);
}

fn drain(heap: &mut Heap<i64, MinCmp>) -> Vec<i64> {
    let mut out: Vec<i64> = Vec::new();
    while let Some(v) = heap.next() {
        out.push(v);
    }
    out
}

fn drain_max(heap: &mut Heap<i64, MaxCmp>) -> Vec<i64> {
    let mut out: Vec<i64> = Vec::new();
    while let Some(v) = heap.next() {
        out.push(v);
    }
    out
}

fn permutations(values: &[i64]) -> Vec<Vec<i64>> {
    if values.is_empty() {
        return vec![Vec::new()];
    }
    let mut all: Vec<Vec<i64>> = Vec::new();
    for i in 0..values.len() {
        let mut rest: Vec<i64> = values.to_vec();
        let picked = rest.remove(i);
        for mut tail in permutations(&rest) {
            let mut perm = vec![picked];
            perm.append(&mut tail);
            all.push(perm);
        }
    }
    all
}

#[test]
fn every_permutation_extracts_in_order() {
    for perm in permutations(&[4, 2, 9, 11]) {
        let mut min_heap = MinHeap::new();
        let mut max_heap = MaxHeap::new();
        for &v in &perm {
            min_heap.add(v);
            max_heap.add(v);
        }
        assert_eq!(drain(&mut min_heap), vec![2, 4, 9, 11]);
        assert_eq!(drain_max(&mut max_heap), vec![11, 9, 4, 2]);
    }
}

#[test]
fn round_trip_sorts_duplicates() {
    let input: Vec<i64> = vec![5, 1, 5, 3, 3, 3, 0, -7, 3, 5];

    let mut min_heap = MinHeap::new();
    for &v in &input {
        min_heap.add(v);
    }
    let mut ascending = input.clone();
    ascending.sort();
    assert_eq!(drain(&mut min_heap), ascending);

    let mut max_heap = MaxHeap::new();
    for &v in &input {
        max_heap.add(v);
    }
    let mut descending = input.clone();
    descending.sort();
    descending.reverse();
    assert_eq!(drain_max(&mut max_heap), descending);
}

#[test]
fn len_tracks_adds_and_successful_extractions() {
    // A fixed linear-congruential sequence drives an arbitrary-looking mix
    // of adds and extractions; len() must equal adds minus successful
    // extractions at every step.
    let mut heap = MinHeap::new();
    let mut expected: usize = 0;
    let mut state: u64 = 0x2545_f491_4f6c_dd1d;
    for _ in 0..200 {
        state = state.wrapping_mul(6364136223846793005).wrapping_add(1442695040888963407);
        if state % 3 == 0 {
            if heap.next().is_some() {
                expected -= 1;
            }
        } else {
            heap.add((state % 1000) as i64);
            expected += 1;
        }
        assert_eq!(heap.len(), expected);
        assert_eq!(heap.is_empty(), expected == 0);
    }
    while heap.next().is_some() {
        expected -= 1;
        assert_eq!(heap.len(), expected);
    }
    assert_eq!(expected, 0);
    assert!(heap.is_empty());
}

#[test]
fn drained_heap_stays_empty() {
    let mut heap = MinHeap::new();
    assert!(heap.is_empty());
    assert_eq!(heap.len(), 0);
    assert_eq!(heap.next(), None);
    heap.add(7);
    assert!(!heap.is_empty());
    assert_eq!(heap.next(), Some(7));
    assert_eq!(heap.next(), None);
    assert_eq!(heap.next(), None);
    assert_eq!(heap.len(), 0);
}

#[test]
fn extreme_values_order_correctly() {
    let mut heap = MaxHeap::new();
    heap.add(i64::MIN);
    heap.add(0);
    heap.add(i64::MAX);
    heap.add(i64::MIN);
    assert_eq!(heap.next(), Some(i64::MAX));
    assert_eq!(heap.next(), Some(0));
    assert_eq!(heap.next(), Some(i64::MIN));
    assert_eq!(heap.next(), Some(i64::MIN));
    assert_eq!(heap.next(), None);
}

#[test]
fn custom_rule_through_general_constructor() {
    // The general constructor takes the rule as a value, as the two
    // convenience constructors do internally.
    let mut heap = Heap::new(MinCmp {});
    heap.add(30);
    heap.add(-2);
    heap.add(14);
    assert_eq!(heap.next(), Some(-2));
    assert_eq!(heap.next(), Some(14));
    assert_eq!(heap.next(), Some(30));
}
