use seam_compact::compact::{build_mask, compact_bitmask, compact_sorted, compact_vectorized};
use seam_compact::table::{count_for, perm_for, push_group};

/// Reference result computed the obvious way: keep element `i` iff no index
/// names it.
fn naive(elements: &[u32], indices: &[usize]) -> Vec<u32> {
    let mut out = Vec::new();
    for (i, &e) in elements.iter().enumerate() {
        if !indices.contains(&i) {
            out.push(e);
        }
    }
    out
}

fn range_vec(n: u32) -> Vec<u32> {
    (0..n).collect()
}

#[test]
fn literal_scenario_hundred() {
    let elements = range_vec(100);
    let indices = vec![10, 20, 30];
    let expected = naive(&elements, &indices);
    assert_eq!(expected.len(), 97);
    assert_eq!(expected[9], 9);
    assert_eq!(expected[10], 11);
    assert_eq!(compact_bitmask(elements.clone(), &indices), expected);
    assert_eq!(compact_vectorized(elements.clone(), &indices), expected);
    assert_eq!(compact_sorted(elements, &indices), expected);
}

#[test]
fn literal_scenario_sorted_merge() {
    let elements = range_vec(10);
    let indices = vec![2, 5, 9];
    assert_eq!(compact_sorted(elements, &indices), vec![0, 1, 3, 4, 6, 7, 8]);
}

#[test]
fn identity_on_empty_deletion_set() {
    for len in [0u32, 1, 3, 16, 20, 33] {
        let elements = range_vec(len);
        let indices: Vec<usize> = Vec::new();
        assert_eq!(compact_bitmask(elements.clone(), &indices), elements);
        assert_eq!(compact_vectorized(elements.clone(), &indices), elements);
        assert_eq!(compact_sorted(elements.clone(), &indices), elements);
    }
}

#[test]
fn total_deletion_yields_empty() {
    for len in [1u32, 4, 15, 16, 17, 32, 35] {
        let elements = range_vec(len);
        let indices: Vec<usize> = (0..len as usize).collect();
        assert_eq!(compact_bitmask(elements.clone(), &indices), Vec::<u32>::new());
        assert_eq!(compact_vectorized(elements.clone(), &indices), Vec::<u32>::new());
        assert_eq!(compact_sorted(elements, &indices), Vec::<u32>::new());
    }
}

#[test]
fn tail_lengths_not_multiples_of_lane_widths() {
    // Deletions spanning the super-group, sub-group and scalar boundaries.
    let cases: [(u32, &[usize]); 6] = [
        (3, &[0, 2]),
        (5, &[3, 4]),
        (17, &[0, 15, 16]),
        (18, &[16, 17]),
        (19, &[4, 7, 18]),
        (21, &[15, 16, 17, 18, 19, 20]),
    ];
    for (len, indices) in cases {
        let elements = range_vec(len);
        let indices = indices.to_vec();
        let expected = naive(&elements, &indices);
        assert_eq!(compact_bitmask(elements.clone(), &indices), expected);
        assert_eq!(compact_vectorized(elements.clone(), &indices), expected);
        assert_eq!(compact_sorted(elements, &indices), expected);
    }
}

#[test]
fn tail_length_17_exact_value() {
    let elements = range_vec(17);
    let indices = vec![0, 16];
    let expected: Vec<u32> = (1..16).collect();
    assert_eq!(compact_vectorized(elements, &indices), expected);
}

#[test]
fn cross_implementation_equivalence_permissive_inputs() {
    // Unsorted, duplicated and out-of-range indices: both mask-based
    // compactors must agree (and match the reference).
    let cases: [(u32, &[usize]); 5] = [
        (40, &[39, 0, 7, 7, 100, 0]),
        (64, &[63, 62, 61, 60, 1000]),
        (16, &[5, 5, 5, 5]),
        (33, &[32, 31, 0, 16, 17, 18, 19]),
        (7, &[6, 8, 2, 2]),
    ];
    for (len, indices) in cases {
        let elements = range_vec(len);
        let indices = indices.to_vec();
        let a = compact_bitmask(elements.clone(), &indices);
        let b = compact_vectorized(elements.clone(), &indices);
        assert_eq!(a, b);
        assert_eq!(a, naive(&elements, &indices));
    }
}

#[test]
fn super_group_fast_paths() {
    // 48 elements: one all-kept block, one all-deleted block, one mixed.
    let elements = range_vec(48);
    let mut indices: Vec<usize> = (16..32).collect();
    indices.push(35);
    indices.push(40);
    let expected = naive(&elements, &indices);
    assert_eq!(expected.len(), 30);
    assert_eq!(compact_vectorized(elements.clone(), &indices), expected);
    assert_eq!(compact_bitmask(elements, &indices), expected);
}

#[test]
fn out_of_range_indices_are_ignored() {
    let elements = vec![9, 8, 7];
    let indices = vec![3, 4, usize::MAX];
    assert_eq!(compact_bitmask(elements.clone(), &indices), vec![9, 8, 7]);
    assert_eq!(compact_vectorized(elements, &indices), vec![9, 8, 7]);
}

#[test]
fn empty_input_buffer() {
    let indices = vec![0, 1, 2];
    assert_eq!(compact_bitmask(Vec::new(), &indices), Vec::<u32>::new());
    assert_eq!(compact_vectorized(Vec::new(), &indices), Vec::<u32>::new());
    let none: Vec<usize> = Vec::new();
    assert_eq!(compact_sorted(Vec::new(), &none), Vec::<u32>::new());
}

#[test]
fn sorted_merge_length_law() {
    // With a duplicate-free in-range list, the output drops exactly one
    // element per index.
    let elements = range_vec(20);
    let indices = vec![0, 3, 9, 19];
    let out = compact_sorted(elements, &indices);
    assert_eq!(out.len(), 16);
    assert_eq!(out, naive(&range_vec(20), &indices));
}

#[test]
fn mask_builder_drops_out_of_range_and_collapses_duplicates() {
    let indices = vec![1, 1, 7];
    let mask = build_mask(4, &indices);
    assert_eq!(mask, vec![0, 1, 0, 0]);
    let mask_empty = build_mask(0, &indices);
    assert_eq!(mask_empty, Vec::<u8>::new());
}

#[test]
fn count_table_is_popcount() {
    for p in 0u8..16 {
        assert_eq!(count_for(p) as u32, (p as u32).count_ones());
    }
}

#[test]
fn permutation_table_gathers_kept_lanes_in_order() {
    let lanes = [10u32, 20, 30, 40];
    for p in 0u8..16 {
        // Expected: the lanes whose bit is set in p, ascending.
        let mut expected = Vec::new();
        for l in 0..4 {
            if p & (1 << l) != 0 {
                expected.push(lanes[l]);
            }
        }
        let mut out = Vec::new();
        push_group(&mut out, lanes[0], lanes[1], lanes[2], lanes[3], p);
        assert_eq!(out, expected);
        assert_eq!(out.len(), count_for(p) as usize);
        // The table's leading slots name exactly the set bits, ascending.
        let (q0, q1, q2, q3) = perm_for(p);
        let q = [q0, q1, q2, q3];
        for (slot, &lane) in q.iter().enumerate().take(count_for(p) as usize) {
            assert!(p & (1 << lane) != 0);
            if slot > 0 {
                assert!(q[slot - 1] < lane);
            }
        }
    }
}
