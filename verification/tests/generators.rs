use recurrences::colors::color_subsets_ge2;
use recurrences::colors::count_colors;
use recurrences::colors::intersects;
use recurrences::colors::root_color_subsets;
use recurrences::multiset_index::nondecreasing_sequences;
use recurrences::star_utils::generate_stars;
use recurrences::star_utils::hex;
use recurrences::star_utils::star_to_string;
use recurrences::star_utils::Star;
use recurrences::tree_utils::colors_to_digits;
use recurrences::tree_utils::generate_colored_uniform_trees;
use recurrences::tree_utils::node_to_json;
use recurrences::tree_utils::Node;

#[test]
fn color_tables_have_expected_entries() {
    let roots = root_color_subsets();
    assert_eq!(roots, vec![0b1111, 0b0111, 0b0011]);
    let subsets = color_subsets_ge2();
    assert_eq!(subsets.len(), 11);
    for &c in &subsets {
        assert!(count_colors(c) >= 2);
        assert!(c <= 0b1111);
    }
}

#[test]
fn intersects_checks_shared_colors() {
    assert!(intersects(0b0011, 0b0110));
    assert!(!intersects(0b0011, 0b1100));
}

#[test]
fn nondecreasing_sequences_enumerates_multisets() {
    // Multisets of size 2 out of 3 types: C(4, 2) = 6 of them.
    let seqs = nondecreasing_sequences(2, 2);
    assert_eq!(
        seqs,
        vec![
            vec![0, 0],
            vec![0, 1],
            vec![0, 2],
            vec![1, 1],
            vec![1, 2],
            vec![2, 2],
        ]
    );
}

#[test]
fn nondecreasing_sequences_of_length_zero_is_single_empty() {
    let seqs = nondecreasing_sequences(1000, 0);
    assert_eq!(seqs, vec![Vec::<usize>::new()]);
}

#[test]
fn generate_stars_counts_match_stars_and_bars() {
    // Degree 2: the roots {0,1,2,3} and {0,1,2} admit all 11 neighbor color
    // sets, the root {0,1} admits 10; one halfedge count (2) per set.
    // C(11 + 1, 2) + C(11 + 1, 2) + C(10 + 1, 2) = 66 + 66 + 55 = 187.
    let stars = generate_stars(2);
    assert_eq!(stars.len(), 187);
    for s in &stars {
        assert_eq!(s.neighbor_colors.len(), 2);
        assert_eq!(s.neighbor_halfedges.len(), 2);
        for &h in &s.neighbor_halfedges {
            assert!(h == 2);
        }
        for &c in &s.neighbor_colors {
            assert!(intersects(s.root_colors, c));
        }
    }
}

#[test]
fn generate_stars_degree3_count() {
    // Two halfedge counts (2 and 3) per neighbor color set now:
    // C(22 + 2, 3) + C(22 + 2, 3) + C(20 + 2, 3) = 2024 + 2024 + 1540.
    assert_eq!(generate_stars(3).len(), 5588);
}

#[test]
fn generate_trees_depth0_degree2_has_three_leaves() {
    let trees = generate_colored_uniform_trees(0, 2);
    assert_eq!(trees.len(), 3);
    let colors: Vec<u8> = trees.iter().map(|t| t.colors).collect();
    assert_eq!(colors, vec![0b1111, 0b0111, 0b0011]);
    for t in &trees {
        assert_eq!(t.halfedges, 2);
    }
}

#[test]
fn generate_stars_degenerate_degrees_yield_nothing() {
    assert!(generate_stars(0).is_empty());
    assert!(generate_stars(1).is_empty());
}

#[test]
fn generate_stars_2_includes_minimal_neighbors_and_no_disjoint_ones() {
    let stars = generate_stars(2);
    // A star with root {0,1,2} and two {0,1} neighbors with 2 halfedges each.
    assert!(stars.iter().any(|s| {
        s.root_colors == 0b0111
            && s.neighbor_colors == vec![0b0011, 0b0011]
            && s.neighbor_halfedges == vec![2, 2]
    }));
    // No neighbor color set is ever disjoint from its root.
    for s in &stars {
        for &c in &s.neighbor_colors {
            assert_ne!(s.root_colors & c, 0);
        }
    }
}

#[test]
fn generate_trees_depth0_yields_one_leaf_per_root_and_halfedge() {
    // 3 roots x halfedge counts 2..=5.
    let trees = generate_colored_uniform_trees(0, 5);
    assert_eq!(trees.len(), 12);
    for t in &trees {
        assert!(t.children.is_empty());
        assert!(t.halfedges >= 2 && t.halfedges <= 5);
    }
    assert!(generate_colored_uniform_trees(0, 1).is_empty());
    assert!(generate_colored_uniform_trees(3, 0).is_empty());
}

#[test]
fn generate_trees_depth1_matches_star_count() {
    // A depth-1 tree is a star; the counts agree with generate_stars.
    let trees = generate_colored_uniform_trees(1, 2);
    let stars = generate_stars(2);
    assert_eq!(trees.len(), stars.len());
    for t in &trees {
        assert_eq!(t.children.len(), 2);
        assert_eq!(t.halfedges, 0);
        for c in &t.children {
            assert!(c.children.is_empty());
            assert!(intersects(t.colors, c.colors));
            assert_eq!(c.halfedges, 2);
        }
    }
}

#[test]
fn generate_trees_parent_child_colors_always_intersect() {
    let trees = generate_colored_uniform_trees(2, 2);
    assert!(!trees.is_empty());
    for t in &trees {
        for c1 in &t.children {
            assert!(intersects(t.colors, c1.colors));
            for c2 in &c1.children {
                assert!(intersects(c1.colors, c2.colors));
                assert!(c2.children.is_empty());
            }
        }
    }
}

#[test]
fn hex_renders_lowercase_without_leading_zeros() {
    assert_eq!(hex(0), "0");
    assert_eq!(hex(0b1111), "f");
    assert_eq!(hex(10), "a");
    assert_eq!(hex(255), "ff");
    assert_eq!(hex(16), "10");
}

#[test]
fn star_to_string_renders_compact_encoding() {
    let star = Star {
        root_colors: 0b0111,
        neighbor_colors: vec![0b0011, 0b0011],
        neighbor_halfedges: vec![2, 2],
    };
    let s = star_to_string(&star).expect("always renders");
    assert_eq!(s, "star_2_733_022");
}

#[test]
fn colors_to_digits_lists_ascending_colors() {
    assert_eq!(colors_to_digits(0b0101), "02");
    assert_eq!(colors_to_digits(0b1111), "0123");
    assert_eq!(colors_to_digits(0), "");
}

#[test]
fn tree_star_to_string_requires_true_star() {
    let leaf1 = Node { colors: 0b0011, halfedges: 2, children: Vec::new() };
    let leaf2 = Node { colors: 0b0011, halfedges: 2, children: Vec::new() };
    let root = Node { colors: 0b0111, halfedges: 0, children: vec![leaf1, leaf2] };
    let s = recurrences::tree_utils::star_to_string(&root, 2).expect("is a star");
    assert_eq!(s, "S2__0_012__2_01__2_01");
    // Wrong degree: no encoding.
    assert!(recurrences::tree_utils::star_to_string(&root, 3).is_none());
    // A grandchild makes it no star.
    let inner = Node { colors: 0b0011, halfedges: 2, children: Vec::new() };
    let mid = Node { colors: 0b0011, halfedges: 0, children: vec![inner] };
    let deep = Node { colors: 0b0111, halfedges: 0, children: vec![mid] };
    assert!(recurrences::tree_utils::star_to_string(&deep, 1).is_none());
}

#[test]
fn node_to_json_renders_compact_objects() {
    let leaf = Node { colors: 0b0011, halfedges: 2, children: Vec::new() };
    let mut out = String::new();
    node_to_json(&leaf, &mut out);
    assert_eq!(out, "{\"colors\":3,\"halfedges\":2,\"children\":[]}");

    let l1 = Node { colors: 0b0011, halfedges: 2, children: Vec::new() };
    let l2 = Node { colors: 0b0101, halfedges: 3, children: Vec::new() };
    let root = Node { colors: 0b0111, halfedges: 0, children: vec![l1, l2] };
    let mut out2 = String::new();
    node_to_json(&root, &mut out2);
    assert_eq!(
        out2,
        "{\"colors\":7,\"halfedges\":0,\"children\":[{\"colors\":3,\"halfedges\":2,\"children\":[]},{\"colors\":5,\"halfedges\":3,\"children\":[]}]}"
    );
}
