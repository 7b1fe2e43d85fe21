//! The sharded worklist container: a fixed number of independently growable
//! shards, one assignable per worker of a fork-join engine. Pushes and pops
//! go to the calling context's own shard; the logical content is the
//! shard-order concatenation of all shards.

use vstd::prelude::*;

use vstd::std_specs::cmp::PartialEqSpec;

use crate::shards::flat_of;
use crate::shards::lemma_flat_empty_iff;
use crate::shards::lemma_flat_index;
use crate::shards::lemma_flat_len;
use crate::shards::lemma_flat_snoc;
use crate::shards::lemma_prefix_len_monotone;
use crate::shards::lemma_prefix_len_step;
use crate::shards::prefix_len;

verus! {

/// Why a frontier operation could not run.
#[derive(Clone, Copy, Debug, PartialEq, Eq, Structural)]
pub enum FrontierError {
    /// A shard table was offered whose shard count differs from the
    /// container's configured width. Recoverable: the construction fails and
    /// nothing is built.
    ShardCountMismatch { expected: usize, provided: usize },
    /// The calling context could not be mapped unambiguously to a shard of
    /// this container — it belongs to an unrelated worker pool, or its slot
    /// lies outside this container's width. Guessing a shard would silently
    /// corrupt shard attribution, so the operation refuses to run.
    ForeignContextMisuse,
}

/// A queue-like frontier for breadth-first visits on graphs: a fixed-width
/// table of shards, one per worker of the engine's pool, each growable on
/// its own. Ordering holds inside a shard (push order), never across shards.
///
/// A frontier can be scoped to one engine pool (see
/// [`Frontier::with_threads`]); otherwise the engine's global pool is
/// assumed. The calling context's shard is resolved on every
/// [`push`](Frontier::push) and [`pop`](Frontier::pop).
#[derive(Clone, Debug)]
pub struct Frontier<'a, T> {
    data: Vec<Vec<T>>,
    threads: Option<&'a rayon::ThreadPool>,
}

impl<'a, T> View for Frontier<'a, T> {
    type V = Seq<Seq<T>>;

    closed spec fn view(&self) -> Seq<Seq<T>> {
        self.data@.map_values(|v: Vec<T>| v@)
    }
}

/// Builds `n` empty shards, each with room for `capacity` elements.
fn empty_shards<T>(n: usize, capacity: usize) -> (r: Vec<Vec<T>>)
    ensures
        r@.len() == n,
        forall|i: int| 0 <= i < n ==> r@[i]@ == Seq::<T>::empty(),
{
    let mut r: Vec<Vec<T>> = Vec::new();
    let mut i: usize = 0;
    while i < n
        invariant
            i <= n,
            r@.len() == i,
            forall|j: int| 0 <= j < i ==> r@[j]@ == Seq::<T>::empty(),
        decreases n - i,
    {
        r.push(Vec::with_capacity(capacity));
        i = i + 1;
    }
    r
}

impl<'a, T> Frontier<'a, T> {
    /// A container is well formed when it has at least one shard.
    pub open spec fn wf(self) -> bool {
        self@.len() >= 1
    }

    /// The logical content: the shards concatenated in shard order.
    pub open spec fn content(self) -> Seq<T> {
        flat_of(self@)
    }

    /// Whether the container is scoped to a pool of its own (see
    /// [`Frontier::with_threads`]): the `scoped` flag that every ambient
    /// push and pop hands to [`resolve_context`].
    pub closed spec fn pool_scoped(self) -> bool {
        self.threads is Some
    }

    /// The width of the engine's surrounding pool, and so the shard count of
    /// containers built without an explicit pool; never below one.
    pub fn system_number_of_threads() -> (r: usize)
        ensures
            r >= 1,
    {
        let n: usize = rayon::current_num_threads();
        if n < 1 {
            1
        } else {
            n
        }
    }

    /// Creates a frontier with [`Frontier::system_number_of_threads`] empty
    /// shards, scoped to the engine's global pool.
    pub fn new() -> (r: Self)
        ensures
            r.wf(),
            !r.pool_scoped(),
            forall|i: int| 0 <= i < r@.len() ==> r@[i] == Seq::<T>::empty(),
            r.content() == Seq::<T>::empty(),
    {
        Self::with_capacity(0)
    }

    /// Creates a frontier with [`Frontier::system_number_of_threads`] empty
    /// shards and the given overall capacity, spread about uniformly across
    /// the shards (integer truncation; the reserved total may fall short).
    pub fn with_capacity(capacity: usize) -> (r: Self)
        ensures
            r.wf(),
            !r.pool_scoped(),
            forall|i: int| 0 <= i < r@.len() ==> r@[i] == Seq::<T>::empty(),
            r.content() == Seq::<T>::empty(),
    {
        let n: usize = Self::system_number_of_threads();
        let r = Frontier { data: empty_shards(n, capacity / n), threads: None };
        proof {
            lemma_flat_empty_iff(r@);
            assert(r.content() =~= Seq::<T>::empty());
        }
        r
    }

    /// Creates a frontier with exactly `width` empty shards, for callers
    /// that manage the context-to-shard assignment themselves.
    pub fn with_width(width: usize) -> (r: Self)
        requires
            width >= 1,
        ensures
            r.wf(),
            !r.pool_scoped(),
            r@.len() == width,
            forall|i: int| 0 <= i < r@.len() ==> r@[i] == Seq::<T>::empty(),
            r.content() == Seq::<T>::empty(),
    {
        let r = Frontier { data: empty_shards(width, 0), threads: None };
        proof {
            lemma_flat_empty_iff(r@);
            assert(r.content() =~= Seq::<T>::empty());
        }
        r
    }

    /// Creates a frontier scoped to the given pool, one shard per worker of
    /// that pool, with the given overall capacity spread across the shards.
    /// Later pushes and pops resolve their shard against this pool, and
    /// contexts foreign to it are refused, as [`resolve_context`] states.
    pub fn with_threads(thread_pool: &'a rayon::ThreadPool, capacity: Option<usize>) -> (r: Self)
        ensures
            r.wf(),
            r.pool_scoped(),
            forall|i: int| 0 <= i < r@.len() ==> r@[i] == Seq::<T>::empty(),
            r.content() == Seq::<T>::empty(),
    {
        let reported: usize = thread_pool.current_num_threads();
        let n: usize = if reported < 1 {
            1
        } else {
            reported
        };
        let cap: usize = match capacity {
            Some(c) => c,
            None => 0,
        };
        let r = Frontier { data: empty_shards(n, cap / n), threads: Some(thread_pool) };
        proof {
            lemma_flat_empty_iff(r@);
            assert(r.content() =~= Seq::<T>::empty());
        }
        r
    }

    /// The number of shards — the worker-pool width the container was built
    /// for, fixed for its whole lifetime.
    pub fn number_of_threads(&self) -> (r: usize)
        ensures
            r == self@.len(),
    {
        self.data.len()
    }

    /// Read access to one shard.
    pub fn shard(&self, i: usize) -> (r: &Vec<T>)
        requires
            i < self@.len(),
        ensures
            r@ == self@[i as int],
    {
        &self.data[i]
    }

    /// Exclusive access to one shard: the explicit access grant a worker task
    /// takes once and then uses for all of its writes, e.g. to fill its shard
    /// before the traversal begins.
    pub fn shard_mut(&mut self, i: usize) -> (r: &mut Vec<T>)
        requires
            i < old(self)@.len(),
        ensures
            r@ == old(self)@[i as int],
            final(self)@ =~= old(self)@.update(i as int, final(r)@),
    {
        &mut self.data[i]
    }

    /// Appends `element` to the shard owned by context `thread_id`, touching
    /// no other shard.
    pub fn push_on_thread(&mut self, element: T, thread_id: usize)
        requires
            thread_id < old(self)@.len(),
        ensures
            final(self)@ =~= old(self)@.update(
                thread_id as int,
                old(self)@[thread_id as int].push(element),
            ),
    {
        self.data[thread_id].push(element);
    }

    /// Removes and returns the most recently pushed element of the shard
    /// owned by context `thread_id`, or `None` when that shard is empty —
    /// which does not mean the whole container is: other shards may still
    /// hold items.
    pub fn pop_from_thread(&mut self, thread_id: usize) -> (r: Option<T>)
        requires
            thread_id < old(self)@.len(),
        ensures
            old(self)@[thread_id as int].len() == 0 ==> r is None && final(self)@ =~= old(
                self,
            )@,
            old(self)@[thread_id as int].len() > 0 ==> r == Some(
                old(self)@[thread_id as int].last(),
            ) && final(self)@ =~= old(self)@.update(
                thread_id as int,
                old(self)@[thread_id as int].drop_last(),
            ),
    {
        let r = self.data[thread_id].pop();
        proof {
            if old(self)@[thread_id as int].len() == 0 {
                assert(final(self)@ =~= old(self)@);
            } else {
                assert(old(self)@[thread_id as int].subrange(
                    0,
                    old(self)@[thread_id as int].len() - 1,
                ) =~= old(self)@[thread_id as int].drop_last());
            }
        }
        r
    }

    /// Maps the calling context to the shard it owns, by handing the two
    /// engine probes — the scoped pool's slot for this worker, and the
    /// worker's slot in its own pool whichever that is — to
    /// [`resolve_context`], whose contract fixes the routing for every
    /// combination of their values.
    fn get_current_thread_index(&self) -> (r: Result<usize, FrontierError>)
        ensures
            r matches Ok(i) ==> i < self@.len(),
            r is Err ==> r == Err::<usize, FrontierError>(FrontierError::ForeignContextMisuse),
    {
        let (scoped, pool_slot): (bool, Option<usize>) = match self.threads {
            Some(thread_pool) => (true, thread_pool.current_thread_index()),
            None => (false, None),
        };
        let ambient_slot: Option<usize> = rayon::current_thread_index();
        resolve_context(scoped, pool_slot, ambient_slot, self.data.len())
    }

    /// Appends `element` to the calling context's own shard. Which shard that
    /// is depends on ambient worker identity — [`resolve_context`] fixes the
    /// routing for every combination of the engine's probe values — so the
    /// contract here promises only that exactly one shard grew by this
    /// element at its end; inside one context the shard is always the same
    /// one, and [`Frontier::push_on_thread`] pins it. A context that cannot
    /// be mapped to a shard is refused and the container left untouched.
    pub fn push(&mut self, element: T) -> (r: Result<(), FrontierError>)
        ensures
            r is Ok ==> exists|i: int|
                0 <= i < old(self)@.len() && final(self)@ == old(self)@.update(
                    i,
                    old(self)@[i].push(element),
                ),
            r is Err ==> *final(self) == *old(self) && r == Err::<(), FrontierError>(
                FrontierError::ForeignContextMisuse,
            ),
    {
        match self.get_current_thread_index() {
            Ok(thread_id) => {
                self.push_on_thread(element, thread_id);
                proof {
                    assert(self@ == old(self)@.update(
                        thread_id as int,
                        old(self)@[thread_id as int].push(element),
                    ));
                }
                Ok(())
            },
            Err(e) => Err(e),
        }
    }

    /// Removes and returns the most recently pushed element of the calling
    /// context's own shard — `Ok(None)` when that shard is empty, which does
    /// not mean the whole container is. The shard is routed exactly as in
    /// [`Frontier::push`]; a context that cannot be mapped to a shard is
    /// refused and the container left untouched.
    pub fn pop(&mut self) -> (r: Result<Option<T>, FrontierError>)
        ensures
            r matches Ok(v) ==> exists|i: int|
                0 <= i < old(self)@.len() && ((old(self)@[i].len() == 0 && v is None
                    && final(self)@ == old(self)@) || (old(self)@[i].len() > 0 && v == Some(
                    old(self)@[i].last(),
                ) && final(self)@ == old(self)@.update(i, old(self)@[i].drop_last()))),
            r is Err ==> *final(self) == *old(self) && r == Err::<Option<T>, FrontierError>(
                FrontierError::ForeignContextMisuse,
            ),
    {
        match self.get_current_thread_index() {
            Ok(thread_id) => {
                let v = self.pop_from_thread(thread_id);
                proof {
                    let i = thread_id as int;
                    if old(self)@[i].len() == 0 {
                        assert(self@ == old(self)@);
                    } else {
                        assert(self@ == old(self)@.update(i, old(self)@[i].drop_last()));
                    }
                }
                Ok(v)
            },
            Err(e) => Err(e),
        }
    }

    /// The total number of elements over all shards (a full scan).
    pub fn len(&self) -> (r: usize)
        requires
            self.content().len() <= usize::MAX,
        ensures
            r == self.content().len(),
    {
        proof {
            lemma_flat_len(self@);
        }
        let n: usize = self.data.len();
        let mut total: usize = 0;
        let mut i: usize = 0;
        while i < n
            invariant
                i <= n,
                n == self@.len(),
                total == prefix_len(self@, i as int),
                prefix_len(self@, n as int) <= usize::MAX,
                self.content().len() == prefix_len(self@, n as int),
            decreases n - i,
        {
            proof {
                lemma_prefix_len_step(self@, i as int);
                lemma_prefix_len_monotone(self@, i as int + 1, n as int);
            }
            total = total + self.data[i].len();
            i = i + 1;
        }
        total
    }

    /// Whether no shard holds any element.
    pub fn is_empty(&self) -> (r: bool)
        ensures
            r == (self.content().len() == 0),
    {
        proof {
            lemma_flat_empty_iff(self@);
        }
        let n: usize = self.data.len();
        let mut i: usize = 0;
        while i < n
            invariant
                i <= n,
                n == self@.len(),
                forall|j: int| 0 <= j < i ==> self@[j].len() == 0,
            decreases n - i,
        {
            if self.data[i].len() > 0 {
                proof {
                    lemma_flat_empty_iff(self@);
                    assert(self@[i as int].len() > 0);
                }
                return false;
            }
            i = i + 1;
        }
        true
    }

    /// Empties every shard, keeping the shard count and the allocated
    /// capacity.
    pub fn clear(&mut self)
        ensures
            final(self)@.len() == old(self)@.len(),
            forall|i: int| 0 <= i < final(self)@.len() ==> final(self)@[i] == Seq::<T>::empty(),
            final(self).content() == Seq::<T>::empty(),
    {
        let n: usize = self.data.len();
        let mut i: usize = 0;
        while i < n
            invariant
                i <= n,
                n == self@.len(),
                forall|j: int| 0 <= j < i ==> self@[j] == Seq::<T>::empty(),
            decreases n - i,
        {
            let ghost prev = self@;
            self.data[i].clear();
            proof {
                assert forall|j: int| 0 <= j < i + 1 implies self@[j] == Seq::<T>::empty() by {
                    if j < i {
                        assert(prev[j] == Seq::<T>::empty());
                        assert(self@[j] == prev[j]);
                    } else {
                        assert(self@[i as int] == Seq::<T>::empty());
                    }
                }
            }
            i = i + 1;
        }
        proof {
            lemma_flat_empty_iff(self@);
            assert(self.content() =~= Seq::<T>::empty());
        }
    }

    /// Releases the spare capacity of every shard; the contents stay as they
    /// are.
    pub fn shrink_to_fit(&mut self)
        ensures
            final(self)@ == old(self)@,
    {
        let n: usize = self.data.len();
        let mut i: usize = 0;
        while i < n
            invariant
                i <= n,
                n == self@.len(),
                self@ =~= old(self)@,
            decreases n - i,
        {
            vec_shrink_to_fit(&mut self.data[i]);
            i = i + 1;
        }
        proof {
            assert(final(self)@ =~= old(self)@);
        }
    }

    /// The length of each shard, in shard order — useful for diagnosing load
    /// imbalance.
    pub fn vector_sizes(&self) -> (r: Vec<usize>)
        ensures
            r@.len() == self@.len(),
            forall|i: int| 0 <= i < self@.len() ==> r@[i] == self@[i].len(),
    {
        let n: usize = self.data.len();
        let mut r: Vec<usize> = Vec::new();
        let mut i: usize = 0;
        while i < n
            invariant
                i <= n,
                n == self@.len(),
                r@.len() == i,
                forall|j: int| 0 <= j < i ==> r@[j] == self@[j].len(),
            decreases n - i,
        {
            r.push(self.data[i].len());
            i = i + 1;
        }
        r
    }

    /// The whole shard table, for walking the shards one by one.
    pub fn iter_vectors(&self) -> (r: &Vec<Vec<T>>)
        ensures
            r@.map_values(|v: Vec<T>| v@) == self@,
    {
        &self.data
    }

    /// Exclusive access to the whole shard table, e.g. to hand disjoint
    /// shards out to worker tasks for initialization. A caller that changes
    /// the number of shards forfeits the container's well-formedness.
    pub fn vectors_mut(&mut self) -> (r: &mut Vec<Vec<T>>)
        ensures
            r@.map_values(|v: Vec<T>| v@) == old(self)@,
            final(self)@ == final(r)@.map_values(|v: Vec<T>| v@),
    {
        &mut self.data
    }

    /// Builds a container of configured width `width` from an externally
    /// supplied shard-by-shard representation. The only validation performed
    /// is on the shard count: a table of any other length is rejected with
    /// [`FrontierError::ShardCountMismatch`], and element values are taken
    /// as they come.
    pub fn from_shards(width: usize, shards: Vec<Vec<T>>) -> (r: Result<Self, FrontierError>)
        requires
            width >= 1,
        ensures
            shards@.len() == width ==> (r matches Ok(f) && f@ == shards@.map_values(
                |v: Vec<T>| v@,
            ) && f.wf() && !f.pool_scoped()),
            shards@.len() != width ==> (r matches Err(e) && e == (FrontierError::ShardCountMismatch {
                expected: width,
                provided: shards.len(),
            })),
    {
        if shards.len() != width {
            return Err(
                FrontierError::ShardCountMismatch { expected: width, provided: shards.len() },
            );
        }
        Ok(Frontier { data: shards, threads: None })
    }

    /// Takes the shard table out of the container, shard order kept.
    pub fn into_shards(self) -> (r: Vec<Vec<T>>)
        ensures
            r@.map_values(|v: Vec<T>| v@) == self@,
    {
        self.data
    }
}

impl<'a, T: Copy> Frontier<'a, T> {
    /// Materializes the logical content: every shard's elements, shard zero
    /// first, in shard order, keeping the push order inside each shard.
    pub fn concat(&self) -> (r: Vec<T>)
        ensures
            r@ == self.content(),
    {
        let n: usize = self.data.len();
        let mut r: Vec<T> = Vec::new();
        let mut i: usize = 0;
        while i < n
            invariant
                i <= n,
                n == self@.len(),
                r@ == flat_of(self@.subrange(0, i as int)),
            decreases n - i,
        {
            let shard: &Vec<T> = &self.data[i];
            let m: usize = shard.len();
            let mut j: usize = 0;
            while j < m
                invariant
                    j <= m,
                    i < n,
                    n == self@.len(),
                    m == self@[i as int].len(),
                    shard@ == self@[i as int],
                    r@ == flat_of(self@.subrange(0, i as int)) + self@[i as int].subrange(
                        0,
                        j as int,
                    ),
                decreases m - j,
            {
                r.push(shard[j]);
                proof {
                    assert(self@[i as int].subrange(0, j + 1) =~= self@[i as int].subrange(
                        0,
                        j as int,
                    ).push(self@[i as int][j as int]));
                }
                j = j + 1;
            }
            proof {
                lemma_flat_snoc(self@.subrange(0, i as int), self@[i as int]);
                assert(self@.subrange(0, i as int + 1) =~= self@.subrange(0, i as int).push(
                    self@[i as int],
                ));
                assert(self@[i as int].subrange(0, m as int) =~= self@[i as int]);
            }
            i = i + 1;
        }
        proof {
            assert(self@.subrange(0, n as int) =~= self@);
        }
        r
    }
}

impl<'a, T> Default for Frontier<'a, T> {
    /// A default frontier: [`Frontier::system_number_of_threads`] empty
    /// shards, scoped to the engine's global pool.
    fn default() -> (r: Self)
        ensures
            r.wf(),
            r.content() == Seq::<T>::empty(),
    {
        Self::new()
    }
}

/// The context-to-shard routing decision, on the engine's two probe results
/// as plain values, so that the rule holds for every combination of them:
/// a worker of the scoped pool gets its own slot; a caller outside the
/// scoped pool is accepted only when it belongs to no pool at all, on slot
/// zero (serial or initialization use); without a scoped pool the caller's
/// own slot counts, again slot zero outside any pool. A slot at or beyond
/// `width` — a worker of an unrelated, wider pool — is refused rather than
/// mis-routed, as is any worker foreign to the scoped pool.
///
/// `scoped` says whether the container is scoped to its own pool;
/// `pool_slot` is that pool's slot for the calling worker (`None` when
/// unscoped or when the caller is no worker of it); `ambient_slot` is the
/// caller's slot in whatever pool it belongs to.
pub fn resolve_context(
    scoped: bool,
    pool_slot: Option<usize>,
    ambient_slot: Option<usize>,
    width: usize,
) -> (r: Result<usize, FrontierError>)
    ensures
        scoped ==> (match pool_slot {
            Some(i) => r == (if i < width {
                Ok::<usize, FrontierError>(i)
            } else {
                Err::<usize, FrontierError>(FrontierError::ForeignContextMisuse)
            }),
            None => r == (if ambient_slot is Some {
                Err::<usize, FrontierError>(FrontierError::ForeignContextMisuse)
            } else if 0 < width {
                Ok::<usize, FrontierError>(0)
            } else {
                Err::<usize, FrontierError>(FrontierError::ForeignContextMisuse)
            }),
        }),
        !scoped ==> (match ambient_slot {
            Some(i) => r == (if i < width {
                Ok::<usize, FrontierError>(i)
            } else {
                Err::<usize, FrontierError>(FrontierError::ForeignContextMisuse)
            }),
            None => r == (if 0 < width {
                Ok::<usize, FrontierError>(0)
            } else {
                Err::<usize, FrontierError>(FrontierError::ForeignContextMisuse)
            }),
        }),
        r matches Ok(i) ==> i < width,
        r is Err ==> r == Err::<usize, FrontierError>(FrontierError::ForeignContextMisuse),
{
    let candidate: usize = if scoped {
        match pool_slot {
            // The call comes from a worker of the container's own pool.
            Some(index) => index,
            None => {
                // The call comes from outside the container's pool: accept
                // it only when it belongs to no pool at all.
                if ambient_slot.is_some() {
                    return Err(FrontierError::ForeignContextMisuse);
                }
                0
            },
        }
    } else {
        match ambient_slot {
            Some(index) => index,
            None => 0,
        }
    };
    if candidate < width {
        Ok(candidate)
    } else {
        Err(FrontierError::ForeignContextMisuse)
    }
}

/// Relies on `Vec::shrink_to_fit`: it only sheds spare capacity and leaves
/// the contents alone.
#[verifier::external_body]
fn vec_shrink_to_fit<T>(v: &mut Vec<T>)
    ensures
        final(v)@ == old(v)@,
{
    v.shrink_to_fit()
}

/// Reconstruction round-trip: a container rebuilt from the shard table taken
/// out of another container of the same width carries the same shard table,
/// and so the same logical content — the two containers are equal, since
/// container equality compares the logical concatenations alone.
pub proof fn lemma_reconstruction_round_trip<'a, 'b, T>(
    original: Frontier<'a, T>,
    rebuilt: Frontier<'b, T>,
)
    requires
        rebuilt@ == original@,
    ensures
        rebuilt@.len() == original@.len(),
        rebuilt.content() == original.content(),
{
}

impl<'a, T: PartialEq> PartialEq for Frontier<'a, T> {
    /// Two frontiers are equal exactly when their logical concatenations
    /// (shard order, push order inside each shard) are element-wise equal;
    /// where the shard boundaries lie plays no part.
    fn eq(&self, other: &Self) -> (r: bool) {
        let ghost av = self@;
        let ghost bv = other@;
        let na: usize = self.data.len();
        let nb: usize = other.data.len();
        let mut sa: usize = 0;
        let mut oa: usize = 0;
        let mut sb: usize = 0;
        let mut ob: usize = 0;
        proof {
            lemma_flat_len(av);
            lemma_flat_len(bv);
        }
        loop
            invariant
                na == av.len(),
                nb == bv.len(),
                av == self@,
                bv == other@,
                sa <= na,
                sb <= nb,
                sa < na ==> oa <= av[sa as int].len(),
                sa == na ==> oa == 0,
                sb < nb ==> ob <= bv[sb as int].len(),
                sb == nb ==> ob == 0,
                prefix_len(av, sa as int) + oa == prefix_len(bv, sb as int) + ob,
                flat_of(av).len() == prefix_len(av, na as int),
                flat_of(bv).len() == prefix_len(bv, nb as int),
                T::obeys_eq_spec() ==> (forall|k: int|
                    0 <= k < prefix_len(av, sa as int) + oa ==> flat_of(av)[k].eq_spec(
                        &flat_of(bv)[k],
                    )),
            decreases flat_of(av).len() - prefix_len(av, sa as int) - oa, na - sa + nb - sb,
        {
            let ghost ca = prefix_len(av, sa as int) + oa;
            proof {
                if sa < na {
                    lemma_prefix_len_step(av, sa as int);
                    lemma_prefix_len_monotone(av, sa as int + 1, na as int);
                }
                if sb < nb {
                    lemma_prefix_len_step(bv, sb as int);
                    lemma_prefix_len_monotone(bv, sb as int + 1, nb as int);
                }
            }
            if sa < na && oa == self.data[sa].len() {
                sa = sa + 1;
                oa = 0;
            } else if sb < nb && ob == other.data[sb].len() {
                sb = sb + 1;
                ob = 0;
            } else if sa == na && sb == nb {
                return true;
            } else if sa == na || sb == nb {
                return false;
            } else {
                proof {
                    lemma_flat_index(av, sa as int, oa as int);
                    lemma_flat_index(bv, sb as int, ob as int);
                }
                let ea: &T = &self.data[sa][oa];
                let eb: &T = &other.data[sb][ob];
                if !(ea.eq(eb)) {
                    return false;
                }
                proof {
                    if T::obeys_eq_spec() {
                        assert forall|k: int| 0 <= k < ca + 1 implies flat_of(av)[k].eq_spec(
                            &flat_of(bv)[k],
                        ) by {
                            if k == ca {
                                assert(flat_of(av)[k] == av[sa as int][oa as int]);
                                assert(flat_of(bv)[k] == bv[sb as int][ob as int]);
                            }
                        }
                    }
                }
                oa = oa + 1;
                ob = ob + 1;
            }
        }
    }
}

impl<'a, T: PartialEq> vstd::std_specs::cmp::PartialEqSpecImpl for Frontier<'a, T> {
    open spec fn obeys_eq_spec() -> bool {
        T::obeys_eq_spec()
    }

    open spec fn eq_spec(&self, other: &Self) -> bool {
        &&& flat_of(self@).len() == flat_of(other@).len()
        &&& (forall|k: int|
            0 <= k < flat_of(self@).len() ==> flat_of(self@)[k].eq_spec(&flat_of(other@)[k]))
    }
}

} // verus!
