use kyopro::interval_heap::{IntervalHeap, LimitedMaximumHeap, LimitedMinimumHeap};

#[test]
fn test_interval_heap_peek() {
    let mut heap = IntervalHeap::<i32>::new();
    heap.push(2);
    assert_eq!(heap.peek_min(), Some(&2));
    assert_eq!(heap.peek_max(), Some(&2));
    heap.push(5);
    assert_eq!(heap.peek_min(), Some(&2));
    assert_eq!(heap.peek_max(), Some(&5));
    heap.push(3);
    assert_eq!(heap.peek_min(), Some(&2));
    assert_eq!(heap.peek_max(), Some(&5));
    heap.push(1);
    assert_eq!(heap.peek_min(), Some(&1));
    assert_eq!(heap.peek_max(), Some(&5));
}

#[test]
fn test_interval_heap_pop_min() {
    let mut heap = IntervalHeap::<i32>::new();
    heap.push(2);
    heap.push(5);
    heap.push(3);
    heap.push(1);
    heap.push(4);
    for i in 1..=5 {
        let x = heap.pop_min();
        assert_eq!(x, Some(i));
    }
    assert_eq!(heap.pop_min(), None);
}

#[test]
fn test_interval_heap_pop_max() {
    let mut heap = IntervalHeap::<i32>::new();
    heap.push(2);
    heap.push(5);
    heap.push(3);
    heap.push(1);
    heap.push(4);
    for i in (1..=5).rev() {
        let x = heap.pop_max();
        assert_eq!(x, Some(i));
    }
    assert_eq!(heap.pop_min(), None);
}

#[test]
fn test_limited_minimum_heap() {
    let mut que = LimitedMinimumHeap::<i32>::new(3);
    que.push(3);
    que.push(4);
    que.push(1);
    que.push(2);
    assert_eq!(que.pop(), Some(1));
    assert_eq!(que.pop(), Some(2));
    assert_eq!(que.pop(), Some(3));
    assert_eq!(que.pop(), None);
}

#[test]
fn test_limited_maximum_heap() {
    let mut que = LimitedMaximumHeap::<i32>::new(3);
    que.push(3);
    que.push(4);
    que.push(1);
    que.push(2);
    assert_eq!(que.pop(), Some(4));
    assert_eq!(que.pop(), Some(3));
    assert_eq!(que.pop(), Some(2));
    assert_eq!(que.pop(), None);
}

fn next(seed: &mut u64) -> u64 {
    *seed = seed.wrapping_mul(6364136223846793005).wrapping_add(1442695040888963407);
    *seed >> 33
}

#[test]
fn test_interval_heap_against_sorted_vector() {
    let mut seed = 7u64;
    for round in 0..40 {
        let mut heap = IntervalHeap::with_capacity(8);
        let mut model: Vec<u64> = Vec::new();
        for step in 0..200 {
            let r = next(&mut seed) % 4;
            if r < 2 || model.is_empty() {
                let v = next(&mut seed) % (10 + round);
                heap.push(v);
                model.push(v);
                model.sort();
            } else if r == 2 {
                assert_eq!(heap.pop_min(), Some(model.remove(0)));
            } else {
                assert_eq!(heap.pop_max(), model.pop());
            }
            assert_eq!(heap.len(), model.len());
            assert_eq!(heap.is_empty(), model.is_empty());
            assert_eq!(heap.peek_min(), model.first());
            assert_eq!(heap.peek_max(), model.last());
            if step % 50 == 49 {
                heap.clear();
                model.clear();
                assert!(heap.is_empty());
                assert_eq!(heap.pop_max(), None);
            }
        }
    }
}

#[test]
fn test_limited_heaps_against_sorting() {
    let mut seed = 99u64;
    for limit in 1..8usize {
        let mut big = LimitedMaximumHeap::new(limit);
        let mut small = LimitedMinimumHeap::new(limit);
        assert!(big.is_empty() && small.is_empty());
        let mut all: Vec<u64> = Vec::new();
        for _ in 0..60 {
            let v = next(&mut seed) % 20;
            let mut with: Vec<u64> = all.clone();
            with.sort();
            let kept_big: Vec<u64> = with.iter().rev().take(limit).cloned().collect();
            let kept_small: Vec<u64> = with.iter().take(limit).cloned().collect();
            let out_big = big.push(v);
            let out_small = small.push(v);
            if all.len() < limit {
                assert_eq!(out_big, None);
                assert_eq!(out_small, None);
            } else {
                assert_eq!(out_big, Some(v.min(*kept_big.last().unwrap())));
                assert_eq!(out_small, Some(v.max(*kept_small.last().unwrap())));
            }
            all.push(v);
            all.sort();
            assert_eq!(big.peek(), all.last());
        }
        let mut sorted = all.clone();
        sorted.sort();
        for k in 0..limit {
            assert_eq!(big.pop(), Some(sorted[sorted.len() - 1 - k]));
            assert_eq!(small.pop(), Some(sorted[k]));
        }
        assert_eq!(big.pop(), None);
        assert_eq!(small.pop(), None);
        big.push(1);
        small.push(1);
        big.clear();
        small.clear();
        assert!(big.is_empty() && small.is_empty());
    }
}
