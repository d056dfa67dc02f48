use recurrences::list_coloring_utils::apply_list_coloring_partition;
use recurrences::list_coloring_utils::has_higher_priority;
use recurrences::list_coloring_utils::partitions_of_colors;
use recurrences::list_coloring_utils::reduce_duplicate_2lists;
use recurrences::list_coloring_utils::star_list_degree_counts;
use recurrences::list_coloring_utils::NodeFeatures;
use recurrences::star_utils::Star;

fn is_valid_partition(colors: u8, part: &[u8]) -> bool {
    if colors == 0 {
        return part.is_empty();
    }
    if part.iter().any(|&b| b == 0) {
        return false;
    }
    let mut union = 0u8;
    for &b in part {
        if (union & b) != 0 {
            return false;
        }
        union |= b;
    }
    union == colors
}

#[test]
fn partitions_of_0b0111_contains_examples() {
    let colors = 0b0111u8;
    let parts = partitions_of_colors(colors);

    // Bell number B3 = 5
    assert_eq!(parts.len(), 5);
    for p in &parts {
        assert!(is_valid_partition(colors, p));
    }

    assert!(parts.contains(&vec![0b0100, 0b0010, 0b0001]));
    assert!(parts.contains(&vec![0b0100, 0b0011]));
    assert!(parts.contains(&vec![0b0101, 0b0010]));
    assert!(parts.contains(&vec![0b0110, 0b0001]));
    assert!(parts.contains(&vec![0b0111]));
}

#[test]
fn partitions_of_0b1111_has_15_partitions() {
    let colors = 0b1111u8;
    let parts = partitions_of_colors(colors);
    // Bell number B4 = 15
    assert_eq!(parts.len(), 15);
    for p in &parts {
        assert!(is_valid_partition(colors, p));
    }
}

#[test]
fn partitions_of_zero_is_single_empty_partition() {
    let parts = partitions_of_colors(0);
    assert_eq!(parts, vec![Vec::<u8>::new()]);
}

#[test]
fn partitions_small_sets_have_bell_counts() {
    assert_eq!(partitions_of_colors(0b0001).len(), 1);
    assert_eq!(partitions_of_colors(0b1000).len(), 1);
    assert_eq!(partitions_of_colors(0b0011).len(), 2);
    assert_eq!(partitions_of_colors(0b1010).len(), 2);
}

#[test]
fn partitions_are_canonically_ordered() {
    let parts = partitions_of_colors(0b0111);
    // Fewer blocks first; ties lexicographically by block sequence.
    assert_eq!(
        parts,
        vec![
            vec![0b0111],
            vec![0b0100, 0b0011],
            vec![0b0101, 0b0010],
            vec![0b0110, 0b0001],
            vec![0b0100, 0b0010, 0b0001],
        ]
    );
}

#[test]
fn apply_list_coloring_partition_splits_into_branches() {
    let star = Star {
        root_colors: 0b0111,
        neighbor_colors: vec![0b0011, 0b0101, 0b0110],
        neighbor_halfedges: vec![2, 2, 2],
    };
    let partition = vec![0b0001, 0b0110];

    let branches = apply_list_coloring_partition(&star, &partition);
    assert_eq!(branches.len(), 2);

    // Root=1 is singleton: remove 1 from all neighbors, but keep all neighbors.
    assert!(branches.iter().any(|b| {
        b.root_colors == 0b0001
            && b.neighbor_colors == vec![0b0010, 0b0100, 0b0110]
            && b.neighbor_halfedges == vec![2, 2, 2]
    }));

    // Root=6 does not remove any color and keeps all neighbors.
    assert!(branches.iter().any(|b| {
        b.root_colors == 0b0110
            && b.neighbor_colors == vec![0b0011, 0b0101, 0b0110]
            && b.neighbor_halfedges == vec![2, 2, 2]
    }));
}

#[test]
fn apply_singleton_block_keeps_emptied_neighbor() {
    // The only neighbor's list becomes empty, but the neighbor stays.
    let star = Star {
        root_colors: 0b0011,
        neighbor_colors: vec![0b0001],
        neighbor_halfedges: vec![2],
    };
    let partition = vec![0b0001, 0b0010];
    let branches = apply_list_coloring_partition(&star, &partition);
    assert_eq!(branches.len(), 2);
    assert!(branches.iter().any(|b| {
        b.root_colors == 0b0001 && b.neighbor_colors == vec![0b0000] && b.neighbor_halfedges == vec![2]
    }));
}

#[test]
fn apply_skips_blocks_disjoint_from_root() {
    let star = Star {
        root_colors: 0b0011,
        neighbor_colors: vec![0b0011],
        neighbor_halfedges: vec![2],
    };
    // Only the first block intersects the root list.
    let partition = vec![0b0010, 0b1100];
    let branches = apply_list_coloring_partition(&star, &partition);
    assert_eq!(branches.len(), 1);
    assert_eq!(branches[0].root_colors, 0b0010);
}

#[test]
fn reduce_duplicate_2lists_merges_root_list_neighbors() {
    let star = Star {
        root_colors: 0b0011,
        neighbor_colors: vec![0b0011, 0b0101, 0b0011, 0b0110],
        neighbor_halfedges: vec![2, 3, 5, 7],
    };

    let reduced = reduce_duplicate_2lists(&star).expect("should reduce");
    assert_eq!(reduced.root_colors, 0b0011);

    // Two neighbors equal to the root list should be merged: 2 + 5 = 7.
    assert_eq!(reduced.neighbor_colors.len(), 3);
    assert_eq!(reduced.neighbor_halfedges.len(), 3);
    assert!(
        reduced
            .neighbor_colors
            .iter()
            .zip(reduced.neighbor_halfedges.iter())
            .any(|(&c, &h)| c == 0b0011 && h == 7)
    );

    // Other neighbors are preserved.
    assert!(
        reduced
            .neighbor_colors
            .iter()
            .zip(reduced.neighbor_halfedges.iter())
            .any(|(&c, &h)| c == 0b0101 && h == 3)
    );
    assert!(
        reduced
            .neighbor_colors
            .iter()
            .zip(reduced.neighbor_halfedges.iter())
            .any(|(&c, &h)| c == 0b0110 && h == 7)
    );
}

#[test]
fn reduce_duplicate_2lists_returns_none_when_not_applicable() {
    // Root has 3 colors.
    let star = Star {
        root_colors: 0b0111,
        neighbor_colors: vec![0b0111, 0b0111],
        neighbor_halfedges: vec![2, 2],
    };
    assert!(reduce_duplicate_2lists(&star).is_none());

    // Root has 2 colors, but only one matching neighbor.
    let star2 = Star {
        root_colors: 0b0011,
        neighbor_colors: vec![0b0011, 0b0101],
        neighbor_halfedges: vec![2, 2],
    };
    assert!(reduce_duplicate_2lists(&star2).is_none());
}

#[test]
fn reduce_duplicate_2lists_returns_none_on_halfedge_overflow() {
    // Two matching neighbors whose halfedge sum exceeds a u8.
    let star = Star {
        root_colors: 0b0011,
        neighbor_colors: vec![0b0011, 0b0011],
        neighbor_halfedges: vec![200, 100],
    };
    assert!(reduce_duplicate_2lists(&star).is_none());

    // Just at the boundary, the reduction still applies.
    let star2 = Star {
        root_colors: 0b0011,
        neighbor_colors: vec![0b0011, 0b0011],
        neighbor_halfedges: vec![200, 55],
    };
    let reduced = reduce_duplicate_2lists(&star2).expect("sum fits");
    assert_eq!(reduced.neighbor_colors, vec![0b0011]);
    assert_eq!(reduced.neighbor_halfedges, vec![255]);
}

#[test]
fn reduce_keeps_original_order_of_other_neighbors() {
    let star = Star {
        root_colors: 0b0011,
        neighbor_colors: vec![0b0101, 0b0011, 0b0110, 0b0011, 0b1001],
        neighbor_halfedges: vec![3, 2, 4, 2, 5],
    };
    let reduced = reduce_duplicate_2lists(&star).expect("should reduce");
    assert_eq!(reduced.neighbor_colors, vec![0b0101, 0b0011, 0b0110, 0b1001]);
    assert_eq!(reduced.neighbor_halfedges, vec![3, 4, 4, 5]);
}

#[test]
fn star_list_degree_counts_counts_root_and_neighbors() {
    // Degree(root)=4. Root list size=4.
    // Neighbor degrees = halfedges+1: 2->3, 3->4, 4->5.
    let star = Star {
        root_colors: 0b1111,
        neighbor_colors: vec![0b1111, 0b0111, 0b0011, 0b0111],
        neighbor_halfedges: vec![4, 3, 2, 2],
    };

    let c = star_list_degree_counts(&star);
    assert_eq!(c.n4_4, 1); // root
    assert_eq!(c.n4_ge5, 1); // neighbor (deg 5)
    assert_eq!(c.n3_4, 1); // neighbor (deg 4)
    assert_eq!(c.n3_3, 1); // neighbor (deg 3)
    assert_eq!(c.n2_3, 1); // neighbor (deg 3)
}

#[test]
fn node_features_inner_product_basic() {
    let a = NodeFeatures {
        n4_ge5: 1,
        n4_4: 2,
        n4_3: 0,
        n3_ge5: -1,
        n3_4: 0,
        n3_3: 3,
        n2_ge5: 0,
        n2_4: 0,
        n2_3: 4,
    };
    let b = NodeFeatures {
        n4_ge5: 5,
        n4_4: 1,
        n4_3: 7,
        n3_ge5: 2,
        n3_4: 0,
        n3_3: -1,
        n2_ge5: 0,
        n2_4: 0,
        n2_3: 2,
    };
    // 1*5 + 2*1 + 0*7 + (-1)*2 + 0*0 + 3*(-1) + 0 + 0 + 4*2 = 10
    assert_eq!(a.mul(b), 10);
}

#[test]
fn node_features_sub_is_componentwise_and_dot_is_bilinear() {
    let a = NodeFeatures {
        n4_ge5: 1,
        n4_4: 2,
        n4_3: 3,
        n3_ge5: 4,
        n3_4: 5,
        n3_3: 6,
        n2_ge5: 7,
        n2_4: 8,
        n2_3: 9,
    };
    let b = NodeFeatures {
        n4_ge5: 9,
        n4_4: 8,
        n4_3: 7,
        n3_ge5: 6,
        n3_4: 5,
        n3_3: 4,
        n2_ge5: 3,
        n2_4: 2,
        n2_3: 1,
    };
    let c = NodeFeatures {
        n4_ge5: -1,
        n4_4: 2,
        n4_3: -3,
        n3_ge5: 4,
        n3_4: -5,
        n3_3: 6,
        n2_ge5: -7,
        n2_4: 8,
        n2_3: -9,
    };
    let d = a.sub(b);
    assert_eq!(d.n4_ge5, -8);
    assert_eq!(d.n2_3, 8);
    assert_eq!(d.mul(c), a.mul(c) - b.mul(c));
}

#[test]
fn has_higher_priority_orders_by_list_size_then_degree() {
    // Smaller list size wins.
    assert!(has_higher_priority(3, 9, 2, 3));
    // Equal list sizes: larger degree wins.
    assert!(has_higher_priority(5, 4, 3, 3));
    // Larger list size loses.
    assert!(!has_higher_priority(9, 3, 3, 2));
    // Equal list sizes, smaller degree loses.
    assert!(!has_higher_priority(4, 5, 3, 3));
    // Exact ties on both keys are unordered.
    assert!(!has_higher_priority(4, 4, 3, 3));
}
