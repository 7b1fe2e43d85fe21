//! The mathematical model of a sharded container: its logical content as the
//! shard-order concatenation of the shards, and the prefix sums of shard
//! lengths that translate a global offset into a (shard, offset) coordinate.

use vstd::prelude::*;

verus! {

/// The logical content of a shard table: the concatenation of the shards in
/// shard order, keeping the order inside each shard.
pub open spec fn flat_of<T>(shards: Seq<Seq<T>>) -> Seq<T>
    decreases shards.len(),
{
    if shards.len() == 0 {
        Seq::empty()
    } else {
        shards.first() + flat_of(shards.drop_first())
    }
}

/// The number of elements held by the first `i` shards together: the global
/// offset at which shard `i` begins.
pub open spec fn prefix_len<T>(shards: Seq<Seq<T>>, i: int) -> int
    decreases i,
{
    if i <= 0 || shards.len() == 0 {
        0
    } else {
        shards[0].len() + prefix_len(shards.drop_first(), i - 1)
    }
}

/// One shard advances the prefix sum by exactly its own length.
pub proof fn lemma_prefix_len_step<T>(shards: Seq<Seq<T>>, i: int)
    requires
        0 <= i < shards.len(),
    ensures
        prefix_len(shards, i + 1) == prefix_len(shards, i) + shards[i].len(),
    decreases i,
{
    if i > 0 {
        lemma_prefix_len_step(shards.drop_first(), i - 1);
    } else {
        assert(prefix_len(shards, 1) == shards[0].len() + prefix_len(shards.drop_first(), 0));
        assert(prefix_len(shards.drop_first(), 0) == 0);
    }
}

/// Prefix sums never decrease as more shards are taken in.
pub proof fn lemma_prefix_len_monotone<T>(shards: Seq<Seq<T>>, i: int, j: int)
    requires
        0 <= i <= j <= shards.len(),
    ensures
        prefix_len(shards, i) <= prefix_len(shards, j),
    decreases j - i,
{
    if i < j {
        lemma_prefix_len_step(shards, j - 1);
        lemma_prefix_len_monotone(shards, i, j - 1);
    }
}

/// The prefix sum over `i` shards only reads the first `i` shards.
pub proof fn lemma_prefix_len_agree<T>(a: Seq<Seq<T>>, b: Seq<Seq<T>>, i: int)
    requires
        0 <= i <= a.len(),
        i <= b.len(),
        forall|j: int| 0 <= j < i ==> a[j] == b[j],
    ensures
        prefix_len(a, i) == prefix_len(b, i),
    decreases i,
{
    if i > 0 {
        lemma_prefix_len_agree(a.drop_first(), b.drop_first(), i - 1);
    }
}

/// The logical content is as long as all the shards together.
pub proof fn lemma_flat_len<T>(shards: Seq<Seq<T>>)
    ensures
        flat_of(shards).len() == prefix_len(shards, shards.len() as int),
    decreases shards.len(),
{
    if shards.len() > 0 {
        lemma_flat_len(shards.drop_first());
    }
}

/// Element `j` of shard `i` sits at global offset `prefix_len(shards, i) + j`.
pub proof fn lemma_flat_index<T>(shards: Seq<Seq<T>>, i: int, j: int)
    requires
        0 <= i < shards.len(),
        0 <= j < shards[i].len(),
    ensures
        0 <= prefix_len(shards, i) + j < flat_of(shards).len(),
        flat_of(shards)[prefix_len(shards, i) + j] == shards[i][j],
    decreases i,
{
    lemma_flat_len(shards);
    lemma_prefix_len_step(shards, i);
    lemma_prefix_len_monotone(shards, 0, i);
    lemma_prefix_len_monotone(shards, i + 1, shards.len() as int);
    if i > 0 {
        lemma_flat_index(shards.drop_first(), i - 1, j);
        lemma_prefix_len_step(shards.drop_first(), i - 1);
    }
}

/// Appending one more shard appends its content to the logical sequence.
pub proof fn lemma_flat_snoc<T>(shards: Seq<Seq<T>>, tail: Seq<T>)
    ensures
        flat_of(shards.push(tail)) == flat_of(shards) + tail,
    decreases shards.len(),
{
    if shards.len() == 0 {
        assert(shards.push(tail).drop_first() =~= Seq::<Seq<T>>::empty());
        assert(flat_of(Seq::<Seq<T>>::empty()) == Seq::<T>::empty());
        assert(flat_of(shards.push(tail)) == tail + Seq::<T>::empty());
        assert(flat_of(shards.push(tail)) =~= flat_of(shards) + tail);
    } else {
        lemma_flat_snoc(shards.drop_first(), tail);
        assert(shards.push(tail).drop_first() =~= shards.drop_first().push(tail));
        assert(flat_of(shards.push(tail)) == shards[0] + flat_of(shards.drop_first().push(tail)));
        assert(flat_of(shards) == shards[0] + flat_of(shards.drop_first()));
        vstd::seq_lib::lemma_concat_associative(shards[0], flat_of(shards.drop_first()), tail);
    }
}

/// The logical content is empty exactly when every shard is empty.
pub proof fn lemma_flat_empty_iff<T>(shards: Seq<Seq<T>>)
    ensures
        flat_of(shards).len() == 0 <==> (forall|i: int|
            0 <= i < shards.len() ==> shards[i].len() == 0),
    decreases shards.len(),
{
    if shards.len() > 0 {
        lemma_flat_empty_iff(shards.drop_first());
        if flat_of(shards).len() == 0 {
            assert forall|i: int| 0 <= i < shards.len() implies shards[i].len() == 0 by {
                if i > 0 {
                    assert(shards.drop_first()[i - 1].len() == 0);
                }
            }
        } else {
            if shards[0].len() == 0 {
                let k = choose|k: int|
                    0 <= k < shards.drop_first().len() && shards.drop_first()[k].len() != 0;
                assert(shards[k + 1].len() != 0);
            }
        }
    }
}

/// Order preservation: when one calling context, owning shard `i`, has pushed
/// the values `vs` into an otherwise untouched container, the logical
/// sequence is exactly `vs` in push order.
pub proof fn lemma_single_context_order<T>(shards: Seq<Seq<T>>, i: int, vs: Seq<T>)
    requires
        0 <= i < shards.len(),
        shards[i] == vs,
        forall|j: int| 0 <= j < shards.len() && j != i ==> shards[j] == Seq::<T>::empty(),
    ensures
        flat_of(shards) == vs,
    decreases shards.len(),
{
    if i == 0 {
        assert forall|j: int|
            0 <= j < shards.drop_first().len() implies shards.drop_first()[j].len() == 0 by {
            assert(shards.drop_first()[j] == shards[j + 1]);
        }
        lemma_flat_empty_iff(shards.drop_first());
        assert(flat_of(shards.drop_first()) =~= Seq::<T>::empty());
        assert(flat_of(shards) =~= vs);
    } else {
        assert forall|j: int|
            0 <= j < shards.drop_first().len() && j != i - 1 implies shards.drop_first()[j]
            == Seq::<T>::empty() by {
            assert(shards.drop_first()[j] == shards[j + 1]);
        }
        lemma_single_context_order(shards.drop_first(), i - 1, vs);
        assert(shards[0] == Seq::<T>::empty());
        assert(flat_of(shards) =~= vs);
    }
}

/// Load distribution: when each shard in a set `ctxs` of calling contexts has
/// received `n` values and every other shard is empty, the container holds
/// `ctxs.len() * n` values in all.
pub proof fn lemma_load_distribution<T>(shards: Seq<Seq<T>>, ctxs: Set<int>, n: nat)
    requires
        ctxs.finite(),
        forall|j: int| ctxs.contains(j) ==> 0 <= j < shards.len(),
        forall|j: int|
            0 <= j < shards.len() ==> shards[j].len() == (if ctxs.contains(j) {
                n
            } else {
                0nat
            }),
    ensures
        flat_of(shards).len() == ctxs.len() * n,
    decreases shards.len(),
{
    lemma_flat_len(shards);
    if shards.len() == 0 {
        assert(ctxs =~= Set::<int>::empty());
    } else {
        let last = shards.len() - 1;
        let front = shards.drop_last();
        let fronts = ctxs.remove(last);
        assert forall|j: int| fronts.contains(j) implies 0 <= j < front.len() by {
            assert(ctxs.contains(j));
        }
        assert forall|j: int|
            0 <= j < front.len() implies front[j].len() == (if fronts.contains(j) {
            n
        } else {
            0nat
        }) by {
            assert(front[j] == shards[j]);
        }
        lemma_load_distribution(front, fronts, n);
        lemma_flat_len(front);
        lemma_prefix_len_agree(shards, front, last);
        lemma_prefix_len_step(shards, last);
        if ctxs.contains(last) {
            assert(ctxs.len() == fronts.len() + 1);
            assert((fronts.len() + 1) * n == fronts.len() * n + n) by (nonlinear_arith);
        } else {
            assert(fronts =~= ctxs);
        }
    }
}

} // verus!
