use parallel_frontier::Frontier;
use parallel_frontier::FrontierError;

fn drain<'a, T>(mut it: parallel_frontier::FrontierIter<'a, T>) -> Vec<T>
where
    T: Copy,
{
    let mut out: Vec<T> = Vec::new();
    while let Some(v) = it.next() {
        out.push(*v);
    }
    out
}

#[test]
fn test_par_iter() {
    let mut frontier: Frontier<usize> = Frontier::new();
    let vals: Vec<usize> = (0..10).collect::<Vec<_>>();

    for i in &vals {
        frontier.push(*i).unwrap();
    }

    assert_eq!(vals, drain(frontier.iter()));

    let (low, high) = frontier.iter().split();
    let high = high.unwrap();
    assert_eq!((low.len(), high.len()), (5, 5));
    assert_eq!((drain(low).len(), drain(high).len()), (5, 5));

    let (low, high) = frontier.iter().split();
    let mut both = drain(low);
    both.extend(drain(high.unwrap()));
    assert_eq!(vals, both);

    let mut sum: usize = 0;
    for v in drain(frontier.iter()) {
        sum += v;
    }
    assert_eq!(vals.iter().copied().sum::<usize>(), sum);

    // The balanced split falls at the midpoint: it agrees with the
    // exact-length split at half the range.
    let (low, high) = frontier.iter().split();
    let (low_at, high_at) = frontier.iter().split_at(5);
    assert_eq!(drain(low), drain(low_at));
    assert_eq!(drain(high.unwrap()), drain(high_at));
}

#[test]
fn test_single_context_order() {
    // One calling context (the test thread, outside any pool) owns one shard:
    // forward iteration yields exactly the push order.
    let mut frontier: Frontier<u64> = Frontier::new();
    let vals: Vec<u64> = vec![7, 3, 3, 9, 0, 2];
    for v in &vals {
        frontier.push(*v).unwrap();
    }
    assert_eq!(vals, drain(frontier.iter()));
}

#[test]
fn test_pop_stack_discipline() {
    let mut frontier: Frontier<u32> = Frontier::new();
    frontier.push(1).unwrap();
    frontier.push(2).unwrap();
    frontier.push(3).unwrap();
    assert_eq!(frontier.pop().unwrap(), Some(3));
    assert_eq!(frontier.pop().unwrap(), Some(2));
    assert_eq!(frontier.pop().unwrap(), Some(1));
    assert_eq!(frontier.pop().unwrap(), None);
}

#[test]
fn test_split_small_ranges() {
    // A range of length 0 or 1 is not split: the original cursor comes back
    // and there is no second half.
    let empty: Frontier<u8> = Frontier::new();
    let (low, high) = empty.iter().split();
    assert!(high.is_none());
    assert_eq!(low.len(), 0);
    assert_eq!(drain(low), Vec::<u8>::new());

    let mut single: Frontier<u8> = Frontier::new();
    single.push(42).unwrap();
    let (low, high) = single.iter().split();
    assert!(high.is_none());
    assert_eq!(low.len(), 1);
    assert_eq!(drain(low), vec![42]);
}

#[test]
fn test_split_across_shard_boundaries() {
    // Jagged shards, with an empty one in the middle: the halves stay
    // non-empty, disjoint and order-preserving, and concatenate to the
    // original sequence.
    let shards: Vec<Vec<u32>> = vec![vec![1, 2, 3], vec![], vec![4], vec![5, 6, 7, 8]];
    let frontier = Frontier::from_shards(4, shards).unwrap();
    let full: Vec<u32> = drain(frontier.iter());
    assert_eq!(full, vec![1, 2, 3, 4, 5, 6, 7, 8]);

    let (low, high) = frontier.iter().split();
    let high = high.unwrap();
    let (l, h) = (low.len(), high.len());
    assert!(l >= 1 && h >= 1);
    assert_eq!(l + h, 8);
    let mut both = drain(low);
    both.extend(drain(high));
    assert_eq!(full, both);
}

#[test]
fn test_split_at_exact_lengths() {
    let shards: Vec<Vec<u32>> = vec![vec![10, 11], vec![12], vec![], vec![13, 14, 15]];
    let frontier = Frontier::from_shards(4, shards).unwrap();
    let full: Vec<u32> = drain(frontier.iter());
    for index in 1..6 {
        let (low, high) = frontier.iter().split_at(index);
        assert_eq!(low.len(), index);
        assert_eq!(high.len(), 6 - index);
        let lowed = drain(low);
        let highed = drain(high);
        assert_eq!(lowed, full[..index].to_vec());
        assert_eq!(highed, full[index..].to_vec());
    }
}

#[test]
fn test_double_ended_iteration() {
    let shards: Vec<Vec<u32>> = vec![vec![1], vec![], vec![2, 3], vec![4]];
    let frontier = Frontier::from_shards(4, shards).unwrap();
    let mut it = frontier.iter();
    let mut back: Vec<u32> = Vec::new();
    while let Some(v) = it.next_back() {
        back.push(*v);
    }
    assert_eq!(back, vec![4, 3, 2, 1]);

    // Alternating ends meet in the middle without overlap.
    let mut it = frontier.iter();
    assert_eq!(it.next().copied(), Some(1));
    assert_eq!(it.next_back().copied(), Some(4));
    assert_eq!(it.next().copied(), Some(2));
    assert_eq!(it.next_back().copied(), Some(3));
    assert_eq!(it.next(), None);
    assert_eq!(it.next_back(), None);
}

#[test]
fn test_reconstruction_round_trip() {
    let shards: Vec<Vec<i64>> = vec![vec![5, 6], vec![], vec![7]];
    let frontier = Frontier::from_shards(3, shards).unwrap();
    let width = frontier.number_of_threads();
    let rebuilt = Frontier::from_shards(width, frontier.clone().into_shards()).unwrap();
    assert!(frontier == rebuilt);
    assert_eq!(frontier.concat(), rebuilt.concat());
}

#[test]
fn test_equality_ignores_shard_boundaries() {
    let a = Frontier::from_shards(2, vec![vec![1, 2], vec![3]]).unwrap();
    let b = Frontier::from_shards(2, vec![vec![1], vec![2, 3]]).unwrap();
    let c = Frontier::from_shards(2, vec![vec![1], vec![3, 2]]).unwrap();
    assert!(a == b);
    assert!(a != c);
}

#[test]
fn test_mismatch_rejection() {
    let shards: Vec<Vec<u8>> = vec![vec![1], vec![2]];
    let err = Frontier::from_shards(3, shards).unwrap_err();
    assert_eq!(err, FrontierError::ShardCountMismatch { expected: 3, provided: 2 });
}

#[test]
fn test_len_and_sizes() {
    let frontier = Frontier::from_shards(3, vec![vec![1u8, 2], vec![], vec![3, 4, 5]]).unwrap();
    assert_eq!(frontier.len(), 5);
    assert!(!frontier.is_empty());
    let sizes = frontier.vector_sizes();
    assert_eq!(sizes, vec![2, 0, 3]);
    assert_eq!(sizes.iter().sum::<usize>(), frontier.len());
}

#[test]
fn test_clear_and_shrink() {
    let mut frontier = Frontier::from_shards(2, vec![vec![1u16, 2], vec![3]]).unwrap();
    frontier.shrink_to_fit();
    assert_eq!(frontier.concat(), vec![1, 2, 3]);
    frontier.clear();
    assert!(frontier.is_empty());
    assert_eq!(frontier.len(), 0);
    assert_eq!(frontier.number_of_threads(), 2);
}

#[test]
fn test_concat_orders_shards() {
    let frontier = Frontier::from_shards(3, vec![vec![3u8], vec![1, 4], vec![1, 5]]).unwrap();
    assert_eq!(frontier.concat(), vec![3, 1, 4, 1, 5]);
}

#[test]
fn test_iterate_then_mutate() {
    let mut frontier: Frontier<u8> = Frontier::new();
    frontier.push(1).unwrap();
    assert_eq!(drain(frontier.iter()).len(), 1);
    frontier.push(2).unwrap();
    assert_eq!(frontier.len(), 2);
    assert_eq!(drain(frontier.iter()), vec![1, 2]);
}

#[test]
fn test_construction() {
    assert!(Frontier::<u8>::system_number_of_threads() >= 1);

    let fresh: Frontier<u8> = Frontier::new();
    assert!(fresh.is_empty());
    assert!(fresh.number_of_threads() >= 1);

    let roomy: Frontier<u8> = Frontier::with_capacity(100);
    assert!(roomy.is_empty());
    assert_eq!(roomy.len(), 0);

    let wide: Frontier<u8> = Frontier::with_width(5);
    assert!(wide.is_empty());
    assert_eq!(wide.number_of_threads(), 5);
    assert_eq!(wide.vector_sizes(), vec![0, 0, 0, 0, 0]);
}

#[test]
fn test_shard_access() {
    let mut frontier = Frontier::from_shards(2, vec![vec![1u8], vec![2]]).unwrap();
    frontier.shard_mut(1).push(9);
    assert_eq!(frontier.shard(0).as_slice(), &[1]);
    assert_eq!(frontier.shard(1).as_slice(), &[2, 9]);
    assert_eq!(frontier.concat(), vec![1, 2, 9]);
}
