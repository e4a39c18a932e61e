//! The 4-lane permutation and count tables.
//!
//! A 4-bit keep pattern says which of 4 consecutive lanes survive. The count
//! table maps a pattern to its popcount (how many lanes to emit); the
//! permutation table maps a pattern to the lane order that gathers the
//! surviving lanes to the front of the group.

use vstd::prelude::*;

use crate::model::{compacted_prefix, keep_at};

verus! {

/// Bit `i` of the 4-bit keep pattern `p`: true iff lane `i` of the group is kept.
pub open spec fn pat_bit(p: int, i: int) -> bool {
    if i == 0 {
        p % 2 == 1
    } else if i == 1 {
        (p / 2) % 2 == 1
    } else if i == 2 {
        (p / 4) % 2 == 1
    } else {
        (p / 8) % 2 == 1
    }
}

/// The number of set bits of the 4-bit pattern `p` (its popcount).
pub open spec fn pat_count(p: int) -> int {
    (if pat_bit(p, 0) { 1int } else { 0 })
    + (if pat_bit(p, 1) { 1int } else { 0 })
    + (if pat_bit(p, 2) { 1int } else { 0 })
    + (if pat_bit(p, 3) { 1int } else { 0 })
}

/// The kept lane numbers of pattern `p`, in ascending order.
pub open spec fn pat_lanes(p: int) -> Seq<int> {
    (if pat_bit(p, 0) { seq![0int] } else { Seq::empty() })
    + (if pat_bit(p, 1) { seq![1int] } else { Seq::empty() })
    + (if pat_bit(p, 2) { seq![2int] } else { Seq::empty() })
    + (if pat_bit(p, 3) { seq![3int] } else { Seq::empty() })
}

/// What compacting one 4-lane group under pattern `p` must produce: the kept
/// lanes of `g`, in ascending lane order.
pub open spec fn group_kept(g: Seq<u32>, p: int) -> Seq<u32> {
    pat_lanes(p).map_values(|l: int| g[l])
}

/// The count-table entry for `p` is `p`'s popcount.
pub fn count_for(p: u8) -> (c: u8)
    requires
        p < 16,
    ensures
        c as int == pat_count(p as int),
        c <= 4,
{
    match p {
        0 => 0,
        1 => 1,
        2 => 1,
        3 => 2,
        4 => 1,
        5 => 2,
        6 => 2,
        7 => 3,
        8 => 1,
        9 => 2,
        10 => 2,
        11 => 3,
        12 => 2,
        13 => 3,
        14 => 3,
        _ => 4,
    }
}

/// The permutation-table entry for `p`: output slot `k` reads input lane
/// `q.k`. The first `pat_count(p)` slots name the kept lanes in ascending
/// order; trailing slots are never copied out and hold lane 0.
pub fn perm_for(p: u8) -> (q: (u8, u8, u8, u8))
    requires
        p < 16,
    ensures
        q.0 < 4 && q.1 < 4 && q.2 < 4 && q.3 < 4,
        pat_lanes(p as int).len() >= 1 ==> q.0 as int == pat_lanes(p as int)[0],
        pat_lanes(p as int).len() >= 2 ==> q.1 as int == pat_lanes(p as int)[1],
        pat_lanes(p as int).len() >= 3 ==> q.2 as int == pat_lanes(p as int)[2],
        pat_lanes(p as int).len() >= 4 ==> q.3 as int == pat_lanes(p as int)[3],
{
    match p {
        0 => (0, 0, 0, 0),
        1 => (0, 0, 0, 0),
        2 => (1, 0, 0, 0),
        3 => (0, 1, 0, 0),
        4 => (2, 0, 0, 0),
        5 => (0, 2, 0, 0),
        6 => (1, 2, 0, 0),
        7 => (0, 1, 2, 0),
        8 => (3, 0, 0, 0),
        9 => (0, 3, 0, 0),
        10 => (1, 3, 0, 0),
        11 => (0, 1, 3, 0),
        12 => (2, 3, 0, 0),
        13 => (0, 2, 3, 0),
        14 => (1, 2, 3, 0),
        _ => (0, 1, 2, 3),
    }
}

/// Selects lane `i` out of the 4-lane group `(e0, e1, e2, e3)`.
pub fn lane(e0: u32, e1: u32, e2: u32, e3: u32, i: u8) -> (r: u32)
    requires
        i < 4,
    ensures
        r == seq![e0, e1, e2, e3][i as int],
{
    match i {
        0 => e0,
        1 => e1,
        2 => e2,
        _ => e3,
    }
}

/// Compacts one 4-lane group under keep pattern `p`: looks up the
/// permutation and count tables and appends the first `count` permuted lanes
/// to `out`, which extends `out` by exactly the kept lanes in order.
pub fn push_group(out: &mut Vec<u32>, e0: u32, e1: u32, e2: u32, e3: u32, p: u8)
    requires
        p < 16,
    ensures
        final(out)@ == old(out)@ + group_kept(seq![e0, e1, e2, e3], p as int),
{
    let ghost g = seq![e0, e1, e2, e3];
    let (q0, q1, q2, q3) = perm_for(p);
    let c = count_for(p);
    proof {
        assert(pat_lanes(p as int).len() == pat_count(p as int));
    }
    if c >= 1 {
        out.push(lane(e0, e1, e2, e3, q0));
    }
    if c >= 2 {
        out.push(lane(e0, e1, e2, e3, q1));
    }
    if c >= 3 {
        out.push(lane(e0, e1, e2, e3, q2));
    }
    if c >= 4 {
        out.push(lane(e0, e1, e2, e3, q3));
    }
    proof {
        assert(out@ =~= old(out)@ + group_kept(g, p as int));
    }
}

/// The number of kept lanes strictly below lane `l` of pattern `p`: the slot
/// at which lane `l`, if kept, comes out of the group.
pub open spec fn lanes_below(p: int, l: int) -> int {
    (if l > 0 && pat_bit(p, 0) { 1int } else { 0 })
    + (if l > 1 && pat_bit(p, 1) { 1int } else { 0 })
    + (if l > 2 && pat_bit(p, 2) { 1int } else { 0 })
}

/// Table consistency: the count-table entry for `p` is `p`'s popcount, and
/// compacting any 4-lane group under `p` (permute, then take that many
/// lanes) yields exactly the lanes whose bit is set in `p`, in ascending
/// lane order: each kept lane `l` comes out at slot `lanes_below(p, l)`,
/// every slot reads a kept lane, and slots read strictly ascending lanes.
pub proof fn lemma_table_consistency(g: Seq<u32>, p: int)
    requires
        g.len() == 4,
        0 <= p < 16,
    ensures
        pat_lanes(p).len() == pat_count(p),
        group_kept(g, p).len() == pat_count(p),
        forall|j: int|
            0 <= j < pat_count(p) ==> 0 <= #[trigger] pat_lanes(p)[j] < 4 && pat_bit(
                p,
                pat_lanes(p)[j],
            ) && group_kept(g, p)[j] == g[pat_lanes(p)[j]],
        forall|j1: int, j2: int|
            0 <= j1 < j2 < pat_count(p) ==> #[trigger] pat_lanes(p)[j1] < #[trigger] pat_lanes(
                p,
            )[j2],
        forall|l: int|
            0 <= l < 4 && pat_bit(p, l) ==> #[trigger] pat_lanes(p)[lanes_below(p, l)] == l,
{
}

/// Crossing one 4-lane group whose keep pattern is `p` extends the compacted
/// prefix by exactly the kept lanes of that group, in order.
pub proof fn lemma_prefix_group(e: Seq<u32>, indices: Seq<usize>, r: int, p: int)
    requires
        0 <= r,
        r + 4 <= e.len(),
        0 <= p < 16,
        forall|j: int| 0 <= j < 4 ==> (pat_bit(p, j) <==> keep_at(indices, r + j)),
    ensures
        compacted_prefix(e, indices, r + 4) == compacted_prefix(e, indices, r) + group_kept(
            e.subrange(r, r + 4),
            p,
        ),
{
    let g = e.subrange(r, r + 4);
    assert(g[0] == e[r] && g[1] == e[r + 1] && g[2] == e[r + 2] && g[3] == e[r + 3]);
    assert(compacted_prefix(e, indices, r + 1) == if keep_at(indices, r) {
        compacted_prefix(e, indices, r).push(e[r])
    } else {
        compacted_prefix(e, indices, r)
    });
    assert(compacted_prefix(e, indices, r + 2) == if keep_at(indices, r + 1) {
        compacted_prefix(e, indices, r + 1).push(e[r + 1])
    } else {
        compacted_prefix(e, indices, r + 1)
    });
    assert(compacted_prefix(e, indices, r + 3) == if keep_at(indices, r + 2) {
        compacted_prefix(e, indices, r + 2).push(e[r + 2])
    } else {
        compacted_prefix(e, indices, r + 2)
    });
    assert(compacted_prefix(e, indices, r + 4) == if keep_at(indices, r + 3) {
        compacted_prefix(e, indices, r + 3).push(e[r + 3])
    } else {
        compacted_prefix(e, indices, r + 3)
    });
    assert(compacted_prefix(e, indices, r + 4) =~= compacted_prefix(e, indices, r) + group_kept(
        g,
        p,
    ));
}

} // verus!
