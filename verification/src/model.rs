//! The mathematical model of compaction: which positions of the input survive
//! a given deletion-index list, and what the compacted sequence is.

use vstd::prelude::*;

verus! {

/// Position `i` of the input is kept iff no entry of the deletion-index list
/// names it. Out-of-range and duplicate entries are absorbed naturally: an
/// index beyond the input never matches a position, and naming a position
/// twice deletes it once.
pub open spec fn keep_at(indices: Seq<usize>, i: int) -> bool {
    forall|j: int| 0 <= j < indices.len() ==> indices[j] != i
}

/// The compacted form of the first `n` elements of `e`: the elements at kept
/// positions below `n`, in their original order.
pub open spec fn compacted_prefix(e: Seq<u32>, indices: Seq<usize>, n: int) -> Seq<u32>
    decreases n,
{
    if n <= 0 {
        Seq::empty()
    } else if keep_at(indices, n - 1) {
        compacted_prefix(e, indices, n - 1).push(e[n - 1])
    } else {
        compacted_prefix(e, indices, n - 1)
    }
}

/// The compacted form of the whole input: every kept element, in order.
pub open spec fn compacted(e: Seq<u32>, indices: Seq<usize>) -> Seq<u32> {
    compacted_prefix(e, indices, e.len() as int)
}

/// The number of kept positions below `n`: the rank a kept position `i`
/// takes in the compacted output.
pub open spec fn kept_before(indices: Seq<usize>, n: int) -> int
    decreases n,
{
    if n <= 0 {
        0
    } else if keep_at(indices, n - 1) {
        kept_before(indices, n - 1) + 1
    } else {
        kept_before(indices, n - 1)
    }
}

/// The number of deleted positions below `n`. Since each deleted position is
/// counted once however many index entries name it, this is the cardinality
/// of the set of distinct in-range deletion indices below `n`.
pub open spec fn deleted_before(indices: Seq<usize>, n: int) -> int
    decreases n,
{
    if n <= 0 {
        0
    } else if keep_at(indices, n - 1) {
        deleted_before(indices, n - 1)
    } else {
        deleted_before(indices, n - 1) + 1
    }
}

/// The compacted prefix holds one element per kept position.
pub proof fn lemma_prefix_count(e: Seq<u32>, indices: Seq<usize>, n: int)
    requires
        0 <= n <= e.len(),
    ensures
        compacted_prefix(e, indices, n).len() == kept_before(indices, n),
    decreases n,
{
    if n > 0 {
        lemma_prefix_count(e, indices, n - 1);
    }
}

/// Kept ranks grow with the position, strictly across a kept position.
pub proof fn lemma_kept_before_monotonic(indices: Seq<usize>, a: int, b: int)
    requires
        0 <= a <= b,
    ensures
        kept_before(indices, a) <= kept_before(indices, b),
        a < b && keep_at(indices, a) ==> kept_before(indices, a) < kept_before(indices, b),
    decreases b - a,
{
    if a < b {
        lemma_kept_before_monotonic(indices, a, b - 1);
    }
}

/// A kept position `i` below `n` appears in the compacted prefix at its kept
/// rank, with its original value.
proof fn lemma_prefix_index(e: Seq<u32>, indices: Seq<usize>, n: int, i: int)
    requires
        0 <= i < n <= e.len(),
        keep_at(indices, i),
    ensures
        0 <= kept_before(indices, i) < compacted_prefix(e, indices, n).len(),
        compacted_prefix(e, indices, n)[kept_before(indices, i)] == e[i],
    decreases n,
{
    lemma_prefix_count(e, indices, n);
    lemma_prefix_count(e, indices, n - 1);
    lemma_kept_before_monotonic(indices, 0, i);
    lemma_kept_before_monotonic(indices, i, n);
    if i < n - 1 {
        lemma_prefix_index(e, indices, n - 1, i);
    }
}

/// Every slot of the compacted prefix comes from some kept position.
proof fn lemma_prefix_source(e: Seq<u32>, indices: Seq<usize>, n: int, k: int)
    requires
        0 <= n <= e.len(),
        0 <= k < compacted_prefix(e, indices, n).len(),
    ensures
        exists|i: int|
            0 <= i < n && #[trigger] keep_at(indices, i) && kept_before(indices, i) == k && e[i]
                == compacted_prefix(e, indices, n)[k],
    decreases n,
{
    lemma_prefix_count(e, indices, n);
    if n > 0 {
        lemma_prefix_count(e, indices, n - 1);
        if keep_at(indices, n - 1) && k == compacted_prefix(e, indices, n - 1).len() {
            assert(kept_before(indices, n - 1) == k);
            assert(0 <= n - 1 < n && keep_at(indices, n - 1) && kept_before(indices, n - 1) == k
                && e[n - 1] == compacted_prefix(e, indices, n)[k]);
        } else {
            lemma_prefix_source(e, indices, n - 1, k);
            let i = choose|i: int|
                0 <= i < n - 1 && keep_at(indices, i) && kept_before(indices, i) == k && e[i]
                    == compacted_prefix(e, indices, n - 1)[k];
            assert(0 <= i < n && keep_at(indices, i) && kept_before(indices, i) == k && e[i]
                == compacted_prefix(e, indices, n)[k]);
        }
    }
}

/// Order preservation: the compacted sequence is the subsequence of the
/// input at the kept positions. Each kept position lands at its kept rank
/// with its original value, ranks are strictly increasing in the position,
/// and every output slot comes from some kept position.
pub proof fn lemma_order_preservation(e: Seq<u32>, indices: Seq<usize>)
    ensures
        forall|i: int|
            0 <= i < e.len() && keep_at(indices, i) ==> 0 <= #[trigger] kept_before(indices, i)
                < compacted(e, indices).len() && compacted(e, indices)[kept_before(indices, i)]
                == e[i],
        forall|i: int, j: int|
            0 <= i < j < e.len() && keep_at(indices, i) && keep_at(indices, j)
                ==> #[trigger] kept_before(indices, i) < #[trigger] kept_before(indices, j),
{
    assert forall|i: int| 0 <= i < e.len() && keep_at(indices, i) implies 0
        <= #[trigger] kept_before(indices, i) < compacted(e, indices).len() && compacted(
        e,
        indices,
    )[kept_before(indices, i)] == e[i] by {
        lemma_prefix_index(e, indices, e.len() as int, i);
    }
    assert forall|i: int, j: int|
        0 <= i < j < e.len() && keep_at(indices, i) && keep_at(indices, j)
        implies #[trigger] kept_before(indices, i) < #[trigger] kept_before(indices, j) by {
        lemma_kept_before_monotonic(indices, i, j);
    }
}

/// Every slot of the compacted sequence carries the value of some kept
/// position of the input, the one whose kept rank is that slot.
pub proof fn lemma_output_source(e: Seq<u32>, indices: Seq<usize>, k: int)
    requires
        0 <= k < compacted(e, indices).len(),
    ensures
        exists|i: int|
            0 <= i < e.len() && #[trigger] keep_at(indices, i) && kept_before(indices, i) == k
                && e[i] == compacted(e, indices)[k],
{
    lemma_prefix_source(e, indices, e.len() as int, k);
}

/// Length law: the compacted sequence drops one element per distinct
/// in-range deletion index.
pub proof fn lemma_length_law(e: Seq<u32>, indices: Seq<usize>)
    ensures
        compacted(e, indices).len() == e.len() - deleted_before(indices, e.len() as int),
        0 <= deleted_before(indices, e.len() as int) <= e.len(),
{
    lemma_counts_split(e, indices, e.len() as int);
    lemma_prefix_count(e, indices, e.len() as int);
}

/// Every position below `n` is either kept or deleted, so the two counts
/// split `n`.
proof fn lemma_counts_split(e: Seq<u32>, indices: Seq<usize>, n: int)
    requires
        0 <= n,
    ensures
        kept_before(indices, n) + deleted_before(indices, n) == n,
        0 <= kept_before(indices, n),
        0 <= deleted_before(indices, n),
    decreases n,
{
    if n > 0 {
        lemma_counts_split(e, indices, n - 1);
    }
}

/// Identity: with no deletion indices at all, compaction returns the input.
pub proof fn lemma_identity_on_empty(e: Seq<u32>)
    ensures
        compacted(e, Seq::<usize>::empty()) == e,
{
    lemma_identity_prefix(e, e.len() as int);
    assert(compacted(e, Seq::<usize>::empty()) =~= e);
}

proof fn lemma_identity_prefix(e: Seq<u32>, n: int)
    requires
        0 <= n <= e.len(),
    ensures
        compacted_prefix(e, Seq::<usize>::empty(), n) == e.subrange(0, n),
    decreases n,
{
    if n > 0 {
        lemma_identity_prefix(e, n - 1);
        assert(compacted_prefix(e, Seq::<usize>::empty(), n) =~= e.subrange(0, n));
    } else {
        assert(compacted_prefix(e, Seq::<usize>::empty(), 0) =~= e.subrange(0, 0));
    }
}

/// Total deletion: when every position is named by some index, nothing
/// survives.
pub proof fn lemma_total_deletion(e: Seq<u32>, indices: Seq<usize>)
    requires
        forall|i: int| 0 <= i < e.len() ==> !keep_at(indices, i),
    ensures
        compacted(e, indices) == Seq::<u32>::empty(),
{
    lemma_prefix_unchanged_range(e, indices, 0, e.len() as int);
}

/// Skipping a run of deleted positions leaves the compacted prefix unchanged.
pub proof fn lemma_prefix_unchanged_range(e: Seq<u32>, indices: Seq<usize>, a: int, b: int)
    requires
        0 <= a <= b,
        forall|i: int| a <= i < b ==> !keep_at(indices, i),
    ensures
        compacted_prefix(e, indices, b) == compacted_prefix(e, indices, a),
    decreases b - a,
{
    if a < b {
        lemma_prefix_unchanged_range(e, indices, a, b - 1);
    }
}

} // verus!
