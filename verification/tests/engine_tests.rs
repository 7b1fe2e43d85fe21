use parallel_frontier::resolve_context;
use parallel_frontier::Frontier;
use parallel_frontier::FrontierError;
use parallel_frontier::FrontierIter;

fn sequential_count(mut it: FrontierIter<usize>) -> usize {
    let mut n = 0;
    while it.next().is_some() {
        n += 1;
    }
    n
}

// Divide-and-conquer consumption over balanced splits, the halves running on
// the engine's workers.
fn parallel_count(it: FrontierIter<usize>) -> usize {
    if it.len() < 2 {
        return sequential_count(it);
    }
    let (low, high) = it.split();
    let high = high.expect("a range of length >= 2 must split");
    let (a, b) = rayon::join(|| parallel_count(low), || parallel_count(high));
    a + b
}

#[test]
fn test_many_contexts_load() {
    let m = 24;
    let n = 1000;

    // One shard per calling context, each context pushing into its own shard.
    let mut frontier: Frontier<usize> = Frontier::with_width(m);
    for ctx in 0..m {
        for i in 0..n {
            frontier.push_on_thread(i, ctx);
        }
    }

    assert_eq!(m * n, frontier.len());
    assert_eq!(m * n, frontier.vector_sizes().iter().sum::<usize>());
    assert_eq!(m * n, parallel_count(frontier.iter()));
}

#[test]
fn test_with_thread_pool() {
    let pool = rayon::ThreadPoolBuilder::default().num_threads(3).build().unwrap();
    let mut frontier: Frontier<usize> = Frontier::with_threads(&pool, None);
    assert_eq!(3, frontier.number_of_threads());

    // The main thread belongs to no pool: its pushes land in shard 0.
    for i in 0..10 {
        frontier.push(i).unwrap();
    }
    assert_eq!(10, frontier.len());
    assert_eq!(vec![10, 0, 0], frontier.vector_sizes());

    // A worker of the container's own pool maps to its own slot.
    let outcome = pool.install(|| frontier.push(99));
    assert_eq!(outcome, Ok(()));
    assert_eq!(11, frontier.len());
}

#[test]
fn test_context_resolution() {
    let foreign = Err(FrontierError::ForeignContextMisuse);

    // Scoped to a pool: a worker of that pool gets its own slot, within the
    // container's width.
    assert_eq!(resolve_context(true, Some(2), Some(2), 4), Ok(2));
    assert_eq!(resolve_context(true, Some(9), Some(9), 4), foreign);
    // A worker of some other pool is refused; a caller outside any pool
    // falls back to slot zero.
    assert_eq!(resolve_context(true, None, Some(0), 4), foreign);
    assert_eq!(resolve_context(true, None, None, 4), Ok(0));

    // Unscoped: the caller's own slot counts, slot zero outside any pool.
    assert_eq!(resolve_context(false, None, Some(3), 4), Ok(3));
    assert_eq!(resolve_context(false, None, Some(7), 4), foreign);
    assert_eq!(resolve_context(false, None, None, 4), Ok(0));
}

#[test]
fn test_foreign_pool_is_refused() {
    let pool_a = rayon::ThreadPoolBuilder::default().num_threads(2).build().unwrap();
    let pool_b = rayon::ThreadPoolBuilder::default().num_threads(2).build().unwrap();
    let mut frontier: Frontier<usize> = Frontier::with_threads(&pool_a, Some(16));
    let outcome = pool_b.install(|| frontier.push(1));
    assert_eq!(outcome, Err(FrontierError::ForeignContextMisuse));
    assert!(frontier.is_empty());
}
