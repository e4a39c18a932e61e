//! The three compactors and the shared deletion-mask builder.

use vstd::prelude::*;

use crate::model::{compacted, compacted_prefix, keep_at, lemma_prefix_unchanged_range};
use crate::table::{group_kept, lemma_prefix_group, pat_bit, push_group};

verus! {

/// Builds the byte-per-element deletion mask: entry `i` is `0` iff position
/// `i` is kept. Out-of-range indices are silently dropped; duplicates are
/// idempotent.
pub fn build_mask(length: usize, indices: &Vec<usize>) -> (mask: Vec<u8>)
    ensures
        mask@.len() == length,
        forall|i: int| 0 <= i < length ==> ((mask@[i] == 0) <==> keep_at(indices@, i)),
{
    let mut mask: Vec<u8> = Vec::new();
    let mut i: usize = 0;
    while i < length
        invariant
            i <= length,
            mask@.len() == i,
            forall|k: int| 0 <= k < i ==> mask@[k] == 0,
        decreases length - i,
    {
        mask.push(0);
        i += 1;
    }
    let mut j: usize = 0;
    while j < indices.len()
        invariant
            j <= indices@.len(),
            mask@.len() == length,
            forall|i2: int| 0 <= i2 < length ==> ((mask@[i2] == 0) <==> (forall|k: int|
                0 <= k < j ==> indices@[k] != i2)),
        decreases indices@.len() - j,
    {
        let index = indices[j];
        if index < length {
            mask.set(index, 1);
        }
        j += 1;
    }
    mask
}

/// Scalar bitmask compactor: builds the deletion mask, then copies each kept
/// element in one linear pass. Returns exactly the kept elements in order.
pub fn compact_bitmask(elements: Vec<u32>, indices: &Vec<usize>) -> (out: Vec<u32>)
    ensures
        out@ == compacted(elements@, indices@),
{
    let length = elements.len();
    let mask = build_mask(length, indices);
    let mut out: Vec<u32> = Vec::new();
    let mut read: usize = 0;
    while read < length
        invariant
            read <= length,
            length == elements@.len(),
            mask@.len() == length,
            forall|i: int| 0 <= i < length ==> ((mask@[i] == 0) <==> keep_at(indices@, i)),
            out@ == compacted_prefix(elements@, indices@, read as int),
        decreases length - read,
    {
        if mask[read] == 0 {
            out.push(elements[read]);
        }
        read += 1;
    }
    out
}

/// Sorted-merge compactor: merges a strictly ascending, in-range
/// deletion-index list against the read cursor in one pass, with no mask
/// array. The precondition is the caller's to uphold; under it the result is
/// the same compacted sequence the mask-based compactors return.
pub fn compact_sorted(elements: Vec<u32>, sorted_indices: &Vec<usize>) -> (out: Vec<u32>)
    requires
        forall|j1: int, j2: int|
            0 <= j1 < j2 < sorted_indices@.len() ==> sorted_indices@[j1] < sorted_indices@[j2],
        forall|j: int| 0 <= j < sorted_indices@.len() ==> sorted_indices@[j] < elements@.len(),
    ensures
        out@ == compacted(elements@, sorted_indices@),
        out@.len() + sorted_indices@.len() == elements@.len(),
{
    let length = elements.len();
    let mut out: Vec<u32> = Vec::new();
    let mut del: usize = 0;
    let mut read: usize = 0;
    while read < length
        invariant
            read <= length,
            del <= sorted_indices@.len(),
            out@.len() + del == read,
            length == elements@.len(),
            forall|j1: int, j2: int|
                0 <= j1 < j2 < sorted_indices@.len() ==> sorted_indices@[j1]
                    < sorted_indices@[j2],
            forall|j: int| 0 <= j < del ==> sorted_indices@[j] < read,
            forall|j: int|
                del <= j < sorted_indices@.len() ==> sorted_indices@[j] >= read,
            out@ == compacted_prefix(elements@, sorted_indices@, read as int),
        decreases length - read,
    {
        if del < sorted_indices.len() && sorted_indices[del] == read {
            proof {
                assert(!keep_at(sorted_indices@, read as int)) by {
                    assert(sorted_indices@[del as int] == read);
                }
            }
            del += 1;
        } else {
            proof {
                assert forall|j: int|
                    0 <= j < sorted_indices@.len() implies sorted_indices@[j]
                    != read as usize by {
                    if j < del {
                    } else if j == del {
                    } else {
                        assert(sorted_indices@[del as int] < sorted_indices@[j]);
                    }
                }
                assert(keep_at(sorted_indices@, read as int));
            }
            out.push(elements[read]);
        }
        read += 1;
    }
    proof {
        if del < sorted_indices@.len() {
            assert(sorted_indices@[del as int] < length);
        }
    }
    out
}

/// Cross-implementation equivalence: every compactor's contract pins its
/// result to `compacted`, so two results for the same input are the same
/// sequence, element for element.
pub proof fn lemma_cross_implementation_equivalence(
    e: Seq<u32>,
    indices: Seq<usize>,
    a: Seq<u32>,
    b: Seq<u32>,
)
    requires
        a == compacted(e, indices),
        b == compacted(e, indices),
    ensures
        a == b,
{
}

/// Folds the 4 mask bytes at `r` into a 4-bit keep pattern: bit `j` is set
/// iff mask byte `r + j` says "keep".
fn pattern_at(mask: &Vec<u8>, r: usize) -> (p: u8)
    requires
        r + 4 <= mask@.len(),
    ensures
        p < 16,
        forall|j: int| 0 <= j < 4 ==> (pat_bit(p as int, j) <==> mask@[r + j] == 0),
{
    let n = mask.len();
    let b0: u8 = if mask[r] == 0 { 1 } else { 0 };
    let b1: u8 = if mask[r + 1] == 0 { 1 } else { 0 };
    let b2: u8 = if mask[r + 2] == 0 { 1 } else { 0 };
    let b3: u8 = if mask[r + 3] == 0 { 1 } else { 0 };
    let p: u8 = b0 + 2 * b1 + 4 * b2 + 8 * b3;
    proof {
        assert(pat_bit(p as int, 0) <==> b0 == 1);
        assert(pat_bit(p as int, 1) <==> b1 == 1);
        assert(pat_bit(p as int, 2) <==> b2 == 1);
        assert(pat_bit(p as int, 3) <==> b3 == 1);
    }
    p
}

/// Lane-oriented compactor: processes the buffer in 16-lane super-groups,
/// short-circuiting the all-deleted and all-kept cases, and otherwise
/// compacting four 4-lane sub-groups through the permutation table; a 4-lane
/// tier and a scalar tier handle the tail. Returns exactly the kept elements
/// in order, byte for byte what `compact_bitmask` returns.
#[verifier::rlimit(60)]
pub fn compact_vectorized(elements: Vec<u32>, indices: &Vec<usize>) -> (out: Vec<u32>)
    ensures
        out@ == compacted(elements@, indices@),
{
    let length = elements.len();
    let mask = build_mask(length, indices);
    let mut out: Vec<u32> = Vec::new();
    let mut read: usize = 0;
    while length - read >= 16
        invariant
            read <= length,
            length == elements@.len(),
            mask@.len() == length,
            forall|i: int| 0 <= i < length ==> ((mask@[i] == 0) <==> keep_at(indices@, i)),
            out@ == compacted_prefix(elements@, indices@, read as int),
        decreases length - read,
    {
        let p0 = pattern_at(&mask, read);
        let p1 = pattern_at(&mask, read + 4);
        let p2 = pattern_at(&mask, read + 8);
        let p3 = pattern_at(&mask, read + 12);
        let keep_mask: u16 = p0 as u16 + 16 * (p1 as u16) + 256 * (p2 as u16) + 4096 * (p3
            as u16);
        if keep_mask == 0 {
            // Every lane of the super-group is deleted: skip it whole.
            proof {
                assert(p0 == 0 && p1 == 0 && p2 == 0 && p3 == 0);
                assert forall|i: int| read <= i < read + 16 implies !keep_at(indices@, i) by {
                    let d = i - read;
                    if d < 4 {
                        assert(!pat_bit(p0 as int, d));
                    } else if d < 8 {
                        assert(!pat_bit(p1 as int, d - 4));
                    } else if d < 12 {
                        assert(!pat_bit(p2 as int, d - 8));
                    } else {
                        assert(!pat_bit(p3 as int, d - 12));
                    }
                }
                lemma_prefix_unchanged_range(
                    elements@,
                    indices@,
                    read as int,
                    read as int + 16,
                );
            }
        } else if keep_mask == 0xFFFF {
            // Every lane is kept: bulk-copy the 16 elements.
            proof {
                assert(p0 == 15 && p1 == 15 && p2 == 15 && p3 == 15);
                assert forall|k: int| 0 <= k < 16 implies #[trigger] mask@[read + k] == 0 by {
                    if k < 4 {
                        assert(pat_bit(p0 as int, k));
                    } else if k < 8 {
                        assert(pat_bit(p1 as int, k - 4));
                    } else if k < 12 {
                        assert(pat_bit(p2 as int, k - 8));
                    } else {
                        assert(pat_bit(p3 as int, k - 12));
                    }
                }
            }
            let mut rr: usize = read;
            while rr < read + 16
                invariant
                    read <= rr <= read + 16,
                    read + 16 <= length,
                    length == elements@.len(),
                    mask@.len() == length,
                    forall|i: int| 0 <= i < length ==> ((mask@[i] == 0) <==> keep_at(
                        indices@,
                        i,
                    )),
                    forall|k: int| 0 <= k < 16 ==> #[trigger] mask@[read + k] == 0,
                    out@ == compacted_prefix(elements@, indices@, rr as int),
                decreases read + 16 - rr,
            {
                proof {
                    assert(mask@[read + (rr - read)] == 0);
                }
                out.push(elements[rr]);
                rr += 1;
            }
        } else {
            // Mixed: compact each 4-lane sub-group through the table.
            let b0 = read;
            if p0 == 0 {
                proof {
                    assert forall|i: int| b0 <= i < b0 + 4 implies !keep_at(indices@, i) by {
                        assert(!pat_bit(p0 as int, i - b0));
                    }
                    lemma_prefix_unchanged_range(elements@, indices@, b0 as int, b0 as int + 4);
                }
            } else {
                push_group(
                    &mut out,
                    elements[b0],
                    elements[b0 + 1],
                    elements[b0 + 2],
                    elements[b0 + 3],
                    p0,
                );
                proof {
                    assert(seq![
                        elements@[b0 as int],
                        elements@[b0 + 1],
                        elements@[b0 + 2],
                        elements@[b0 + 3],
                    ] =~= elements@.subrange(b0 as int, b0 as int + 4));
                    lemma_prefix_group(elements@, indices@, b0 as int, p0 as int);
                }
            }
            let b1 = read + 4;
            if p1 == 0 {
                proof {
                    assert forall|i: int| b1 <= i < b1 + 4 implies !keep_at(indices@, i) by {
                        assert(!pat_bit(p1 as int, i - b1));
                    }
                    lemma_prefix_unchanged_range(elements@, indices@, b1 as int, b1 as int + 4);
                }
            } else {
                push_group(
                    &mut out,
                    elements[b1],
                    elements[b1 + 1],
                    elements[b1 + 2],
                    elements[b1 + 3],
                    p1,
                );
                proof {
                    assert(seq![
                        elements@[b1 as int],
                        elements@[b1 + 1],
                        elements@[b1 + 2],
                        elements@[b1 + 3],
                    ] =~= elements@.subrange(b1 as int, b1 as int + 4));
                    lemma_prefix_group(elements@, indices@, b1 as int, p1 as int);
                }
            }
            let b2 = read + 8;
            if p2 == 0 {
                proof {
                    assert forall|i: int| b2 <= i < b2 + 4 implies !keep_at(indices@, i) by {
                        assert(!pat_bit(p2 as int, i - b2));
                    }
                    lemma_prefix_unchanged_range(elements@, indices@, b2 as int, b2 as int + 4);
                }
            } else {
                push_group(
                    &mut out,
                    elements[b2],
                    elements[b2 + 1],
                    elements[b2 + 2],
                    elements[b2 + 3],
                    p2,
                );
                proof {
                    assert(seq![
                        elements@[b2 as int],
                        elements@[b2 + 1],
                        elements@[b2 + 2],
                        elements@[b2 + 3],
                    ] =~= elements@.subrange(b2 as int, b2 as int + 4));
                    lemma_prefix_group(elements@, indices@, b2 as int, p2 as int);
                }
            }
            let b3 = read + 12;
            if p3 == 0 {
                proof {
                    assert forall|i: int| b3 <= i < b3 + 4 implies !keep_at(indices@, i) by {
                        assert(!pat_bit(p3 as int, i - b3));
                    }
                    lemma_prefix_unchanged_range(elements@, indices@, b3 as int, b3 as int + 4);
                }
            } else {
                push_group(
                    &mut out,
                    elements[b3],
                    elements[b3 + 1],
                    elements[b3 + 2],
                    elements[b3 + 3],
                    p3,
                );
                proof {
                    assert(seq![
                        elements@[b3 as int],
                        elements@[b3 + 1],
                        elements@[b3 + 2],
                        elements@[b3 + 3],
                    ] =~= elements@.subrange(b3 as int, b3 as int + 4));
                    lemma_prefix_group(elements@, indices@, b3 as int, p3 as int);
                }
            }
        }
        read += 16;
    }
    while length - read >= 4
        invariant
            read <= length,
            length == elements@.len(),
            mask@.len() == length,
            forall|i: int| 0 <= i < length ==> ((mask@[i] == 0) <==> keep_at(indices@, i)),
            out@ == compacted_prefix(elements@, indices@, read as int),
        decreases length - read,
    {
        let p = pattern_at(&mask, read);
        if p > 0 {
            push_group(
                &mut out,
                elements[read],
                elements[read + 1],
                elements[read + 2],
                elements[read + 3],
                p,
            );
            proof {
                assert(seq![
                    elements@[read as int],
                    elements@[read + 1],
                    elements@[read + 2],
                    elements@[read + 3],
                ] =~= elements@.subrange(read as int, read as int + 4));
                lemma_prefix_group(elements@, indices@, read as int, p as int);
            }
        } else {
            proof {
                assert forall|i: int| read <= i < read + 4 implies !keep_at(indices@, i) by {
                    assert(!pat_bit(p as int, i - read));
                }
                lemma_prefix_unchanged_range(elements@, indices@, read as int, read as int + 4);
            }
        }
        read += 4;
    }
    while read < length
        invariant
            read <= length,
            length == elements@.len(),
            mask@.len() == length,
            forall|i: int| 0 <= i < length ==> ((mask@[i] == 0) <==> keep_at(indices@, i)),
            out@ == compacted_prefix(elements@, indices@, read as int),
        decreases length - read,
    {
        if mask[read] == 0 {
            out.push(elements[read]);
        }
        read += 1;
    }
    out
}

} // verus!
