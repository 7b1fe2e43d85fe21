//! What the container asks of the fork-join engine: the width of a worker
//! pool and the calling worker's slot in it. Nothing is promised of the
//! returned values — which pool surrounds a call, and which worker makes it,
//! is ambient state — so every caller must cope with every outcome.

use vstd::prelude::*;

verus! {

/// The engine's pool handle, as `rayon` defines it. The container only reads
/// the pool's width and the calling worker's slot; the value itself stays
/// opaque.
#[verifier::external_type_specification]
#[verifier::external_body]
pub struct ExThreadPool(rayon::ThreadPool);

/// Relies on `rayon::current_num_threads` for the width of the surrounding
/// registry: the enclosing pool's when the caller is a worker, the global
/// pool's otherwise.
pub assume_specification[ rayon::current_num_threads ]() -> usize;

/// Relies on `rayon::current_thread_index` for the calling worker's slot in
/// its own pool, or `None` when the caller is no worker at all.
pub assume_specification[ rayon::current_thread_index ]() -> Option<usize>;

/// Relies on `rayon::ThreadPool::current_num_threads` for this pool's width.
pub assume_specification[ rayon::ThreadPool::current_num_threads ](
    pool: &rayon::ThreadPool,
) -> usize;

/// Relies on `rayon::ThreadPool::current_thread_index` for the calling
/// worker's slot in this pool, or `None` when the caller belongs to another
/// pool or to none.
pub assume_specification[ rayon::ThreadPool::current_thread_index ](
    pool: &rayon::ThreadPool,
) -> Option<usize>;

} // verus!
