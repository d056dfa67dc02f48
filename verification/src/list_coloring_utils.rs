//! The list-coloring toolkit: the branching-priority comparator, the
//! feature-count vector extracted from a star, set partitions of a color set,
//! and the branch/reduce rules that turn one star and one partition into a
//! sequence of smaller cases.

use vstd::prelude::*;
use vstd::arithmetic::mul::lemma_mul_is_distributive_sub_other_way;
use crate::colors::color_count;
use crate::colors::count_colors;
use crate::star_utils::Star;
use crate::star_utils::StarView;
use crate::star_utils::star_wf;
use crate::star_utils::star_views;

verus! {

/// Returns whether node 1 has higher priority than node 2.
///
/// Priority order:
/// - smaller `list_size` is higher priority
/// - if `list_size` ties, larger `degree` is higher priority
pub fn has_higher_priority(degree1: usize, degree2: usize, list_size1: usize, list_size2: usize) -> (r:
    bool)
    ensures
        r == (list_size1 < list_size2 || (list_size1 == list_size2 && degree1 > degree2)),
{
    (list_size1 < list_size2) || (list_size1 == list_size2 && degree1 > degree2)
}

/// The 9-dimensional count vector over (list size in `{2,3,4}`) crossed with
/// (degree bucket in `{3,4,>=5}`), extracted from a star and compared by
/// componentwise subtraction and inner product.
#[derive(Clone, Copy, Debug, PartialEq)]
pub struct NodeFeatures {
    pub n4_ge5: i32,
    pub n4_4: i32,
    pub n4_3: i32,
    pub n3_ge5: i32,
    pub n3_4: i32,
    pub n3_3: i32,
    pub n2_ge5: i32,
    pub n2_4: i32,
    pub n2_3: i32,
}

/// The unbounded mathematical value of a [`NodeFeatures`] vector.
pub struct FeatureVec {
    pub n4_ge5: int,
    pub n4_4: int,
    pub n4_3: int,
    pub n3_ge5: int,
    pub n3_4: int,
    pub n3_3: int,
    pub n2_ge5: int,
    pub n2_4: int,
    pub n2_3: int,
}

impl View for NodeFeatures {
    type V = FeatureVec;

    open spec fn view(&self) -> FeatureVec {
        FeatureVec {
            n4_ge5: self.n4_ge5 as int,
            n4_4: self.n4_4 as int,
            n4_3: self.n4_3 as int,
            n3_ge5: self.n3_ge5 as int,
            n3_4: self.n3_4 as int,
            n3_3: self.n3_3 as int,
            n2_ge5: self.n2_ge5 as int,
            n2_4: self.n2_4 as int,
            n2_3: self.n2_3 as int,
        }
    }
}

/// Componentwise difference of two feature vectors.
pub open spec fn spec_feature_sub(a: FeatureVec, b: FeatureVec) -> FeatureVec {
    FeatureVec {
        n4_ge5: a.n4_ge5 - b.n4_ge5,
        n4_4: a.n4_4 - b.n4_4,
        n4_3: a.n4_3 - b.n4_3,
        n3_ge5: a.n3_ge5 - b.n3_ge5,
        n3_4: a.n3_4 - b.n3_4,
        n3_3: a.n3_3 - b.n3_3,
        n2_ge5: a.n2_ge5 - b.n2_ge5,
        n2_4: a.n2_4 - b.n2_4,
        n2_3: a.n2_3 - b.n2_3,
    }
}

/// Inner product of two feature vectors: the sum of componentwise products.
pub open spec fn spec_feature_dot(a: FeatureVec, b: FeatureVec) -> int {
    a.n4_ge5 * b.n4_ge5 + a.n4_4 * b.n4_4 + a.n4_3 * b.n4_3 + a.n3_ge5 * b.n3_ge5 + a.n3_4
        * b.n3_4 + a.n3_3 * b.n3_3 + a.n2_ge5 * b.n2_ge5 + a.n2_4 * b.n2_4 + a.n2_3 * b.n2_3
}

/// The inner product is linear in its left argument: subtraction distributes
/// out of it, `(a - b) . c == a . c - b . c`, for all feature vectors.
pub proof fn lemma_feature_dot_sub_bilinear(a: FeatureVec, b: FeatureVec, c: FeatureVec)
    ensures
        spec_feature_dot(spec_feature_sub(a, b), c) == spec_feature_dot(a, c) - spec_feature_dot(
            b,
            c,
        ),
{
    lemma_mul_is_distributive_sub_other_way(c.n4_ge5, a.n4_ge5, b.n4_ge5);
    lemma_mul_is_distributive_sub_other_way(c.n4_4, a.n4_4, b.n4_4);
    lemma_mul_is_distributive_sub_other_way(c.n4_3, a.n4_3, b.n4_3);
    lemma_mul_is_distributive_sub_other_way(c.n3_ge5, a.n3_ge5, b.n3_ge5);
    lemma_mul_is_distributive_sub_other_way(c.n3_4, a.n3_4, b.n3_4);
    lemma_mul_is_distributive_sub_other_way(c.n3_3, a.n3_3, b.n3_3);
    lemma_mul_is_distributive_sub_other_way(c.n2_ge5, a.n2_ge5, b.n2_ge5);
    lemma_mul_is_distributive_sub_other_way(c.n2_4, a.n2_4, b.n2_4);
    lemma_mul_is_distributive_sub_other_way(c.n2_3, a.n2_3, b.n2_3);
}

impl NodeFeatures {
    /// Componentwise subtraction.
    pub fn sub(self, rhs: NodeFeatures) -> (r: NodeFeatures)
        requires
            i32::MIN <= self@.n4_ge5 - rhs@.n4_ge5 <= i32::MAX,
            i32::MIN <= self@.n4_4 - rhs@.n4_4 <= i32::MAX,
            i32::MIN <= self@.n4_3 - rhs@.n4_3 <= i32::MAX,
            i32::MIN <= self@.n3_ge5 - rhs@.n3_ge5 <= i32::MAX,
            i32::MIN <= self@.n3_4 - rhs@.n3_4 <= i32::MAX,
            i32::MIN <= self@.n3_3 - rhs@.n3_3 <= i32::MAX,
            i32::MIN <= self@.n2_ge5 - rhs@.n2_ge5 <= i32::MAX,
            i32::MIN <= self@.n2_4 - rhs@.n2_4 <= i32::MAX,
            i32::MIN <= self@.n2_3 - rhs@.n2_3 <= i32::MAX,
        ensures
            r@ == spec_feature_sub(self@, rhs@),
    {
        NodeFeatures {
            n4_ge5: self.n4_ge5 - rhs.n4_ge5,
            n4_4: self.n4_4 - rhs.n4_4,
            n4_3: self.n4_3 - rhs.n4_3,
            n3_ge5: self.n3_ge5 - rhs.n3_ge5,
            n3_4: self.n3_4 - rhs.n3_4,
            n3_3: self.n3_3 - rhs.n3_3,
            n2_ge5: self.n2_ge5 - rhs.n2_ge5,
            n2_4: self.n2_4 - rhs.n2_4,
            n2_3: self.n2_3 - rhs.n2_3,
        }
    }

    /// Inner product; widens to `i128`, which the product of two `i32`-bounded
    /// vectors can never overflow.
    pub fn mul(self, rhs: NodeFeatures) -> (r: i128)
        ensures
            r as int == spec_feature_dot(self@, rhs@),
    {
        proof {
            lemma_i32_prod_bound(self.n4_ge5, rhs.n4_ge5);
            lemma_i32_prod_bound(self.n4_4, rhs.n4_4);
            lemma_i32_prod_bound(self.n4_3, rhs.n4_3);
            lemma_i32_prod_bound(self.n3_ge5, rhs.n3_ge5);
            lemma_i32_prod_bound(self.n3_4, rhs.n3_4);
            lemma_i32_prod_bound(self.n3_3, rhs.n3_3);
            lemma_i32_prod_bound(self.n2_ge5, rhs.n2_ge5);
            lemma_i32_prod_bound(self.n2_4, rhs.n2_4);
            lemma_i32_prod_bound(self.n2_3, rhs.n2_3);
        }
        (self.n4_ge5 as i128) * (rhs.n4_ge5 as i128) + (self.n4_4 as i128) * (rhs.n4_4 as i128) + (
        self.n4_3 as i128) * (rhs.n4_3 as i128) + (self.n3_ge5 as i128) * (rhs.n3_ge5 as i128) + (
        self.n3_4 as i128) * (rhs.n3_4 as i128) + (self.n3_3 as i128) * (rhs.n3_3 as i128) + (
        self.n2_ge5 as i128) * (rhs.n2_ge5 as i128) + (self.n2_4 as i128) * (rhs.n2_4 as i128) + (
        self.n2_3 as i128) * (rhs.n2_3 as i128)
    }
}

impl Default for NodeFeatures {
    /// The all-zero count vector.
    fn default() -> (r: NodeFeatures)
        ensures
            r.n4_ge5 == 0 && r.n4_4 == 0 && r.n4_3 == 0,
            r.n3_ge5 == 0 && r.n3_4 == 0 && r.n3_3 == 0,
            r.n2_ge5 == 0 && r.n2_4 == 0 && r.n2_3 == 0,
    {
        NodeFeatures {
            n4_ge5: 0,
            n4_4: 0,
            n4_3: 0,
            n3_ge5: 0,
            n3_4: 0,
            n3_3: 0,
            n2_ge5: 0,
            n2_4: 0,
            n2_3: 0,
        }
    }
}

/// The product of two `i32` values stays far inside the `i64` range.
proof fn lemma_i32_prod_bound(x: i32, y: i32)
    ensures
        -0x4000_0000_0000_0000 <= (x as int) * (y as int) <= 0x4000_0000_0000_0000,
{
    assert(-0x4000_0000_0000_0000 <= (x as int) * (y as int) <= 0x4000_0000_0000_0000)
        by (nonlinear_arith)
        requires
            -0x8000_0000 <= x as int <= 0x7fff_ffff,
            -0x8000_0000 <= y as int <= 0x7fff_ffff,
    ;
}

/// The degree bucket a node falls in: `5` stands for "degree at least 5",
/// `4` and `3` for those exact degrees, and `0` for degrees with no bucket.
pub open spec fn bucket_of(degree: int) -> int {
    if degree >= 5 {
        5
    } else if degree == 4 {
        4
    } else if degree == 3 {
        3
    } else {
        0
    }
}

/// One component of a feature vector, selected by (list size, degree bucket);
/// combinations with no bucket read as 0.
pub open spec fn feature_component(f: FeatureVec, ls: int, bucket: int) -> int {
    if ls == 4 && bucket == 5 {
        f.n4_ge5
    } else if ls == 4 && bucket == 4 {
        f.n4_4
    } else if ls == 4 && bucket == 3 {
        f.n4_3
    } else if ls == 3 && bucket == 5 {
        f.n3_ge5
    } else if ls == 3 && bucket == 4 {
        f.n3_4
    } else if ls == 3 && bucket == 3 {
        f.n3_3
    } else if ls == 2 && bucket == 5 {
        f.n2_ge5
    } else if ls == 2 && bucket == 4 {
        f.n2_4
    } else if ls == 2 && bucket == 3 {
        f.n2_3
    } else {
        0
    }
}

/// How many of the first `n` neighbors have list size `ls` and fall in degree
/// bucket `bucket` (a neighbor's degree is its halfedge count plus one).
pub open spec fn count_neighbors(cs: Seq<u8>, hs: Seq<u8>, ls: int, bucket: int) -> int
    decreases cs.len(),
{
    if cs.len() == 0 {
        0
    } else {
        count_neighbors(cs.drop_last(), hs.drop_last(), ls, bucket) + if color_count(cs.last())
            == ls && bucket_of(hs.last() as int + 1) == bucket {
            1int
        } else {
            0int
        }
    }
}

/// A neighbor count never exceeds the number of neighbors counted.
pub proof fn lemma_count_neighbors_bound(cs: Seq<u8>, hs: Seq<u8>, ls: int, bucket: int)
    ensures
        0 <= count_neighbors(cs, hs, ls, bucket) <= cs.len(),
    decreases cs.len(),
{
    if cs.len() > 0 {
        lemma_count_neighbors_bound(cs.drop_last(), hs.drop_last(), ls, bucket);
    }
}

/// The (ls, bucket) feature count of a star: its qualifying neighbors, plus
/// one if the root itself qualifies (the root's degree is its neighbor count).
pub open spec fn spec_feature_count(s: StarView, ls: int, bucket: int) -> int {
    count_neighbors(s.neighbor_colors, s.neighbor_halfedges, ls, bucket) + if color_count(
        s.root_colors,
    ) == ls && bucket_of(s.neighbor_colors.len() as int) == bucket {
        1int
    } else {
        0int
    }
}

/// Adds one node with the given list size and degree to the count vector.
fn bump_count(counts: &mut NodeFeatures, list_size: u8, degree: usize)
    requires
        forall|ls: int, b: int|
            2 <= ls <= 4 && 3 <= b <= 5 ==> #[trigger] feature_component(old(counts)@, ls, b)
                < i32::MAX,
    ensures
        forall|ls: int, b: int|
            2 <= ls <= 4 && 3 <= b <= 5 ==> #[trigger] feature_component(final(counts)@, ls, b)
                == feature_component(old(counts)@, ls, b) + if list_size == ls && bucket_of(
                degree as int,
            ) == b {
                1int
            } else {
                0int
            },
{
    proof {
        assert(feature_component(old(counts)@, 4, 5) < i32::MAX);
        assert(feature_component(old(counts)@, 4, 4) < i32::MAX);
        assert(feature_component(old(counts)@, 4, 3) < i32::MAX);
        assert(feature_component(old(counts)@, 3, 5) < i32::MAX);
        assert(feature_component(old(counts)@, 3, 4) < i32::MAX);
        assert(feature_component(old(counts)@, 3, 3) < i32::MAX);
        assert(feature_component(old(counts)@, 2, 5) < i32::MAX);
        assert(feature_component(old(counts)@, 2, 4) < i32::MAX);
        assert(feature_component(old(counts)@, 2, 3) < i32::MAX);
    }
    let degree_bucket: usize = if degree >= 5 {
        5
    } else if degree == 4 {
        4
    } else if degree == 3 {
        3
    } else {
        0
    };
    if list_size == 4 && degree_bucket == 5 {
        counts.n4_ge5 = counts.n4_ge5 + 1;
    } else if list_size == 4 && degree_bucket == 4 {
        counts.n4_4 = counts.n4_4 + 1;
    } else if list_size == 4 && degree_bucket == 3 {
        counts.n4_3 = counts.n4_3 + 1;
    } else if list_size == 3 && degree_bucket == 5 {
        counts.n3_ge5 = counts.n3_ge5 + 1;
    } else if list_size == 3 && degree_bucket == 4 {
        counts.n3_4 = counts.n3_4 + 1;
    } else if list_size == 3 && degree_bucket == 3 {
        counts.n3_3 = counts.n3_3 + 1;
    } else if list_size == 2 && degree_bucket == 5 {
        counts.n2_ge5 = counts.n2_ge5 + 1;
    } else if list_size == 2 && degree_bucket == 4 {
        counts.n2_4 = counts.n2_4 + 1;
    } else if list_size == 2 && degree_bucket == 3 {
        counts.n2_3 = counts.n2_3 + 1;
    }
}

/// Computes the feature counts of a star: one count per (list size, degree
/// bucket) pair, over the root and every neighbor. A node's list size is the
/// cardinality of its color set; the root's degree is its neighbor count,
/// and a neighbor's degree is its halfedge count plus one. Nodes whose list
/// size or degree has no bucket contribute nothing.
pub fn star_list_degree_counts(star: &Star) -> (r: NodeFeatures)
    requires
        star_wf(star@),
        star@.neighbor_colors.len() + 1 < i32::MAX,
    ensures
        forall|ls: int, b: int|
            2 <= ls <= 4 && 3 <= b <= 5 ==> #[trigger] feature_component(r@, ls, b)
                == spec_feature_count(star@, ls, b),
{
    let mut counts = NodeFeatures::default();

    let root_list_size = count_colors(star.root_colors);
    let root_degree = star.neighbor_colors.len();
    bump_count(&mut counts, root_list_size, root_degree);

    let ghost root_part = counts@;
    let mut i: usize = 0;
    while i < star.neighbor_colors.len()
        invariant
            star_wf(star@),
            star@.neighbor_colors.len() + 1 < i32::MAX,
            i <= star@.neighbor_colors.len(),
            forall|ls: int, b: int|
                2 <= ls <= 4 && 3 <= b <= 5 ==> #[trigger] feature_component(root_part, ls, b)
                    == if color_count(star@.root_colors) == ls && bucket_of(
                    star@.neighbor_colors.len() as int,
                ) == b {
                    1int
                } else {
                    0int
                },
            forall|ls: int, b: int|
                2 <= ls <= 4 && 3 <= b <= 5 ==> #[trigger] feature_component(counts@, ls, b)
                    == feature_component(root_part, ls, b) + count_neighbors(
                    star@.neighbor_colors.take(i as int),
                    star@.neighbor_halfedges.take(i as int),
                    ls,
                    b,
                ),
        decreases star@.neighbor_colors.len() - i,
    {
        let list_size = count_colors(star.neighbor_colors[i]);
        let halfedges = star.neighbor_halfedges[i];
        proof {
            assert forall|ls: int, b: int| 2 <= ls <= 4 && 3 <= b <= 5 implies #[trigger]
                feature_component(counts@, ls, b) < i32::MAX by {
                lemma_count_neighbors_bound(
                    star@.neighbor_colors.take(i as int),
                    star@.neighbor_halfedges.take(i as int),
                    ls,
                    b,
                );
            }
        }
        bump_count(&mut counts, list_size, (halfedges as usize) + 1);
        proof {
            let csp = star@.neighbor_colors.take(i as int + 1);
            let hsp = star@.neighbor_halfedges.take(i as int + 1);
            assert(csp.drop_last() =~= star@.neighbor_colors.take(i as int));
            assert(hsp.drop_last() =~= star@.neighbor_halfedges.take(i as int));
            assert(csp.last() == star@.neighbor_colors[i as int]);
            assert(hsp.last() == star@.neighbor_halfedges[i as int]);
        }
        i += 1;
    }
    proof {
        assert(star@.neighbor_colors.take(i as int) =~= star@.neighbor_colors);
        assert(star@.neighbor_halfedges.take(i as int) =~= star@.neighbor_halfedges);
    }
    counts
}

/// How many of the neighbors carry exactly the color list `root`.
pub open spec fn match_count(cs: Seq<u8>, root: u8) -> int
    decreases cs.len(),
{
    if cs.len() == 0 {
        0
    } else {
        match_count(cs.drop_last(), root) + if cs.last() == root {
            1int
        } else {
            0int
        }
    }
}

/// The total halfedge count of the neighbors whose color list is `root`.
pub open spec fn match_sum(cs: Seq<u8>, hs: Seq<u8>, root: u8) -> int
    decreases cs.len(),
{
    if cs.len() == 0 {
        0
    } else {
        match_sum(cs.drop_last(), hs.drop_last(), root) + if cs.last() == root {
            hs.last() as int
        } else {
            0int
        }
    }
}

/// The index of the first neighbor whose color list is `root` (the length of
/// the sequence when there is none).
pub open spec fn first_match(cs: Seq<u8>, root: u8) -> int
    decreases cs.len(),
{
    if cs.len() == 0 {
        0
    } else if cs[0] == root {
        0
    } else {
        1 + first_match(cs.skip(1), root)
    }
}

/// `first_match` returns exactly the position of the first match.
pub proof fn lemma_first_match(cs: Seq<u8>, root: u8, k: int)
    requires
        0 <= k < cs.len(),
        cs[k] == root,
        forall|j: int| 0 <= j < k ==> cs[j] != root,
    ensures
        first_match(cs, root) == k,
    decreases cs.len(),
{
    if cs[0] == root {
    } else {
        let tail = cs.skip(1);
        assert(forall|j: int| 0 <= j < tail.len() ==> tail[j] == cs[j + 1]);
        lemma_first_match(tail, root, k - 1);
    }
}

/// The non-matching neighbors, in their original order.
pub open spec fn unmatched(cs: Seq<u8>, hs: Seq<u8>, root: u8) -> (Seq<u8>, Seq<u8>)
    decreases cs.len(),
{
    if cs.len() == 0 {
        (Seq::empty(), Seq::empty())
    } else {
        let r = unmatched(cs.drop_last(), hs.drop_last(), root);
        if cs.last() == root {
            r
        } else {
            (r.0.push(cs.last()), r.1.push(hs.last()))
        }
    }
}

/// The duplicate-2-list reduction on a star. It applies only when the root
/// list has exactly 2 colors and at least 2 neighbors carry exactly that
/// list, and their summed halfedges still fit in a halfedge count; it then
/// collapses all matching neighbors into one at the position of the first
/// match, carrying the summed halfedges, and keeps every other neighbor
/// unchanged and in order. In every other case there is no reduction.
pub open spec fn spec_reduce(s: StarView) -> Option<StarView> {
    if color_count(s.root_colors) != 2 {
        None
    } else if s.neighbor_colors.len() != s.neighbor_halfedges.len() {
        None
    } else if match_count(s.neighbor_colors, s.root_colors) < 2 {
        None
    } else if match_sum(s.neighbor_colors, s.neighbor_halfedges, s.root_colors) > u8::MAX {
        None
    } else {
        let k = first_match(s.neighbor_colors, s.root_colors);
        let rest = unmatched(
            s.neighbor_colors.skip(k + 1),
            s.neighbor_halfedges.skip(k + 1),
            s.root_colors,
        );
        let total = match_sum(s.neighbor_colors, s.neighbor_halfedges, s.root_colors);
        Some(
            StarView {
                root_colors: s.root_colors,
                neighbor_colors: s.neighbor_colors.take(k) + seq![s.root_colors] + rest.0,
                neighbor_halfedges: s.neighbor_halfedges.take(k) + seq![total as u8] + rest.1,
            },
        )
    }
}

/// If the root has exactly 2 colors and at least two neighbors carry the
/// exact same color list as the root, merges all such neighbors into a
/// single neighbor at the position of the first of them, with the sum of
/// their halfedges; all other neighbors are kept unchanged, in order.
///
/// Returns `None` if no reduction applies or if the halfedge sum overflows
/// a `u8` halfedge count.
pub fn reduce_duplicate_2lists(star: &Star) -> (r: Option<Star>)
    ensures
        r is Some <==> spec_reduce(star@) is Some,
        r is Some ==> r.unwrap()@ == spec_reduce(star@).unwrap(),
{
    if count_colors(star.root_colors) != 2 {
        return None;
    }
    if star.neighbor_colors.len() != star.neighbor_halfedges.len() {
        return None;
    }
    let ghost cs = star@.neighbor_colors;
    let ghost hs = star@.neighbor_halfedges;
    let ghost root = star@.root_colors;
    let n = star.neighbor_colors.len();

    let mut matching: usize = 0;
    let mut keep_idx: usize = 0;
    let mut sum: u16 = 0;
    let mut i: usize = 0;
    while i < n
        invariant
            star@.neighbor_colors == cs,
            star@.neighbor_halfedges == hs,
            star@.root_colors == root,
            n == cs.len(),
            hs.len() == n,
            i <= n,
            matching as int == match_count(cs.take(i as int), root),
            matching <= i,
            matching > 0 ==> keep_idx < i && cs[keep_idx as int] == root && (forall|j: int|
                0 <= j < keep_idx ==> cs[j] != root),
            matching == 0 ==> (forall|j: int| 0 <= j < i ==> cs[j] != root),
            sum <= 510,
            sum <= 255 ==> sum as int == match_sum(cs.take(i as int), hs.take(i as int), root),
            sum > 255 ==> match_sum(cs.take(i as int), hs.take(i as int), root) > 255,
        decreases n - i,
    {
        proof {
            assert(cs.take(i as int + 1).drop_last() =~= cs.take(i as int));
            assert(hs.take(i as int + 1).drop_last() =~= hs.take(i as int));
        }
        if star.neighbor_colors[i] == star.root_colors {
            if matching == 0 {
                keep_idx = i;
            }
            matching += 1;
            if sum <= 255 {
                sum = sum + star.neighbor_halfedges[i] as u16;
            } else {
                proof {
                    lemma_match_sum_monotonic(cs.take(i as int + 1), hs.take(i as int + 1), root);
                }
            }
        }
        i += 1;
    }
    proof {
        assert(cs.take(n as int) =~= cs);
        assert(hs.take(n as int) =~= hs);
    }
    if matching < 2 {
        return None;
    }
    if sum > 255 {
        return None;
    }
    let merged: u8 = sum as u8;
    proof {
        lemma_first_match(cs, root, keep_idx as int);
    }
    let ghost k = keep_idx as int;

    let mut nc: Vec<u8> = Vec::new();
    let mut nh: Vec<u8> = Vec::new();
    let mut i: usize = 0;
    while i < n
        invariant
            star@.neighbor_colors == cs,
            star@.neighbor_halfedges == hs,
            star@.root_colors == root,
            n == cs.len(),
            hs.len() == n,
            i <= n,
            k == keep_idx as int,
            keep_idx < n,
            cs[k] == root,
            forall|j: int| 0 <= j < k ==> cs[j] != root,
            merged == (match_sum(cs, hs, root) as u8),
            i <= k ==> nc@ =~= cs.take(i as int) && nh@ =~= hs.take(i as int),
            i > k ==> nc@ =~= cs.take(k) + seq![root] + unmatched(
                cs.subrange(k + 1, i as int),
                hs.subrange(k + 1, i as int),
                root,
            ).0,
            i > k ==> nh@ =~= hs.take(k) + seq![merged] + unmatched(
                cs.subrange(k + 1, i as int),
                hs.subrange(k + 1, i as int),
                root,
            ).1,
        decreases n - i,
    {
        if i == keep_idx {
            nc.push(star.neighbor_colors[i]);
            nh.push(merged);
            proof {
                assert(cs.subrange(k + 1, k + 1) =~= Seq::<u8>::empty());
                assert(hs.subrange(k + 1, k + 1) =~= Seq::<u8>::empty());
                assert(nc@ =~= cs.take(k) + seq![root] + unmatched(
                    cs.subrange(k + 1, k + 1),
                    hs.subrange(k + 1, k + 1),
                    root,
                ).0);
                assert(nh@ =~= hs.take(k) + seq![merged] + unmatched(
                    cs.subrange(k + 1, k + 1),
                    hs.subrange(k + 1, k + 1),
                    root,
                ).1);
            }
        } else {
            proof {
                if i > keep_idx {
                    assert(cs.subrange(k + 1, i as int + 1).drop_last() =~= cs.subrange(
                        k + 1,
                        i as int,
                    ));
                    assert(hs.subrange(k + 1, i as int + 1).drop_last() =~= hs.subrange(
                        k + 1,
                        i as int,
                    ));
                } else {
                    assert(cs.take(i as int + 1).drop_last() =~= cs.take(i as int));
                    assert(hs.take(i as int + 1).drop_last() =~= hs.take(i as int));
                }
            }
            if star.neighbor_colors[i] == star.root_colors {
            } else {
                nc.push(star.neighbor_colors[i]);
                nh.push(star.neighbor_halfedges[i]);
            }
        }
        i += 1;
    }
    let out = Star { root_colors: star.root_colors, neighbor_colors: nc, neighbor_halfedges: nh };
    proof {
        assert(cs.subrange(k + 1, n as int) =~= cs.skip(k + 1));
        assert(hs.subrange(k + 1, n as int) =~= hs.skip(k + 1));
        assert(out@.neighbor_colors == spec_reduce(star@).unwrap().neighbor_colors);
        assert(out@.neighbor_halfedges == spec_reduce(star@).unwrap().neighbor_halfedges);
    }
    Some(out)
}

/// One branch of the list-coloring case split: the root list becomes the
/// block (intersected with the old root list), and when that is a single
/// definite color, that color is removed from every neighbor list. No
/// neighbor is dropped, even if its list becomes empty.
pub open spec fn spec_branch(s: StarView, block: u8) -> StarView {
    let new_root = block & s.root_colors;
    StarView {
        root_colors: new_root,
        neighbor_colors: if color_count(new_root) == 1 {
            s.neighbor_colors.map_values(|c: u8| c & !new_root)
        } else {
            s.neighbor_colors
        },
        neighbor_halfedges: s.neighbor_halfedges,
    }
}

/// A branch after the duplicate-2-list reduction: the reduced star when the
/// reduction applies, the branch unchanged otherwise.
pub open spec fn spec_reduce_or_keep(s: StarView) -> StarView {
    match spec_reduce(s) {
        Some(r) => r,
        None => s,
    }
}

/// The full branching rule: one reduced branch per partition block that
/// intersects the root list, in block order; blocks disjoint from the root
/// list are skipped.
pub open spec fn spec_apply(s: StarView, partition: Seq<u8>) -> Seq<StarView>
    decreases partition.len(),
{
    if partition.len() == 0 {
        Seq::empty()
    } else {
        spec_apply(s, partition.drop_last()) + (if partition.last() & s.root_colors == 0 {
            Seq::<StarView>::empty()
        } else {
            seq![spec_reduce_or_keep(spec_branch(s, partition.last()))]
        })
    }
}

/// A fresh copy of a byte vector.
fn copy_bytes(v: &Vec<u8>) -> (r: Vec<u8>)
    ensures
        r@ == v@,
{
    let mut r: Vec<u8> = Vec::new();
    let mut i: usize = 0;
    while i < v.len()
        invariant
            i <= v@.len(),
            r@ =~= v@.take(i as int),
        decreases v@.len() - i,
    {
        r.push(v[i]);
        assert(r@ =~= v@.take(i as int + 1));
        i += 1;
    }
    proof {
        assert(v@.take(v@.len() as int) =~= v@);
    }
    r
}

/// Applies a list-coloring branching rule to a star.
///
/// The `partition` stands for a partition of `star.root_colors` into
/// disjoint non-empty blocks. This produces one branch per block that
/// intersects the root list:
/// - the root list becomes the block (defensively intersected with the root);
/// - if that is a singleton color, the color is removed from every neighbor
///   list, and no neighbor is dropped;
/// - the branch is then passed through [`reduce_duplicate_2lists`], keeping
///   the reduced form when the reduction applies.
pub fn apply_list_coloring_partition(star: &Star, partition: &Vec<u8>) -> (r: Vec<Star>)
    requires
        star_wf(star@),
    ensures
        star_views(r@) == spec_apply(star@, partition@),
{
    let mut out: Vec<Star> = Vec::new();
    proof {
        assert(partition@.take(0) =~= Seq::<u8>::empty());
        assert(star_views(out@) =~= spec_apply(star@, partition@.take(0)));
    }
    let mut i: usize = 0;
    while i < partition.len()
        invariant
            star_wf(star@),
            i <= partition@.len(),
            star_views(out@) == spec_apply(star@, partition@.take(i as int)),
        decreases partition@.len() - i,
    {
        let root_block = partition[i];
        let new_root = root_block & star.root_colors;
        proof {
            assert(partition@.take(i as int + 1).drop_last() =~= partition@.take(i as int));
            assert(partition@.take(i as int + 1).last() == partition@[i as int]);
        }
        if new_root != 0 {
            let nh = copy_bytes(&star.neighbor_halfedges);
            let mut nc: Vec<u8>;
            if count_colors(new_root) == 1 {
                nc = Vec::new();
                let mut j: usize = 0;
                while j < star.neighbor_colors.len()
                    invariant
                        j <= star@.neighbor_colors.len(),
                        nc@ =~= star@.neighbor_colors.take(j as int).map_values(
                            |c: u8| c & !new_root,
                        ),
                    decreases star@.neighbor_colors.len() - j,
                {
                    nc.push(star.neighbor_colors[j] & !new_root);
                    assert(nc@ =~= star@.neighbor_colors.take(j as int + 1).map_values(
                        |c: u8| c & !new_root,
                    ));
                    j += 1;
                }
                proof {
                    assert(star@.neighbor_colors.take(star@.neighbor_colors.len() as int)
                        =~= star@.neighbor_colors);
                }
            } else {
                nc = copy_bytes(&star.neighbor_colors);
            }
            let branch = Star { root_colors: new_root, neighbor_colors: nc, neighbor_halfedges: nh };
            proof {
                assert(branch@ == spec_branch(star@, root_block));
            }
            let reduced = reduce_duplicate_2lists(&branch);
            let chosen = match reduced {
                Some(s) => s,
                None => branch,
            };
            proof {
                assert(chosen@ == spec_reduce_or_keep(spec_branch(star@, root_block)));
            }
            let ghost prev_views = star_views(out@);
            let ghost chosen_v = chosen@;
            out.push(chosen);
            proof {
                assert(star_views(out@) =~= prev_views.push(chosen_v));
                assert(star_views(out@) =~= spec_apply(star@, partition@.take(i as int + 1)));
            }
        } else {
            proof {
                assert(star_views(out@) =~= spec_apply(star@, partition@.take(i as int + 1)));
            }
        }
        i += 1;
    }
    proof {
        assert(partition@.take(partition@.len() as int) =~= partition@);
    }
    out
}

/// A capped running sum only ever undercounts: the true matching-halfedge
/// sum of a longer prefix is at least that of a shorter one.
proof fn lemma_match_sum_monotonic(cs: Seq<u8>, hs: Seq<u8>, root: u8)
    requires
        cs.len() > 0,
        cs.len() <= hs.len(),
    ensures
        match_sum(cs, hs, root) >= match_sum(cs.drop_last(), hs.drop_last(), root),
{
}

/// Basic facts about bitmask union and intersection.
proof fn lemma_mask_facts(a: u8, b: u8, c: u8)
    ensures
        a != 0 ==> (a | b) != 0,
        (a & c == 0 && b & c == 0) ==> ((a | b) & c) == 0,
        (c & a == 0 && c & b == 0) ==> (c & (a | b)) == 0,
        (a | b) == (b | a),
        ((a | b) | c) == (a | (b | c)),
        (a | 0) == a,
        a & b == 0 ==> (a | b) == a + b,
{
    assert((a != 0 ==> (a | b) != 0) && ((a & c == 0 && b & c == 0) ==> ((a | b) & c) == 0) && ((c
        & a == 0 && c & b == 0) ==> (c & (a | b)) == 0) && ((a | b) == (b | a)) && (((a | b) | c)
        == (a | (b | c))) && ((a | 0) == a) && (a & b == 0 ==> (a | b) == a + b)) by (bit_vector);
}

/// The bitwise union of a sequence of masks.
pub open spec fn or_all(s: Seq<u8>) -> u8
    decreases s.len(),
{
    if s.len() == 0 {
        0
    } else {
        or_all(s.drop_last()) | s.last()
    }
}

/// Union distributes over concatenation.
proof fn lemma_or_all_concat(x: Seq<u8>, y: Seq<u8>)
    ensures
        or_all(x + y) == (or_all(x) | or_all(y)),
    decreases y.len(),
{
    if y.len() == 0 {
        assert(x + y =~= x);
        lemma_mask_facts(or_all(x), 0, 0);
    } else {
        lemma_or_all_concat(x, y.drop_last());
        assert((x + y).drop_last() =~= x + y.drop_last());
        assert((x + y).last() == y.last());
        lemma_mask_facts(or_all(x), or_all(y.drop_last()), y.last());
    }
}

/// Number of restricted-growth assignments of `m` further elements when `k`
/// blocks already exist: each element joins one of the blocks built so far
/// or starts a new one.
pub open spec fn bell_helper(m: nat, k: nat) -> nat
    decreases m,
{
    if m == 0 {
        1
    } else {
        k * bell_helper((m - 1) as nat, k) + bell_helper((m - 1) as nat, k + 1)
    }
}

/// The Bell number: how many partitions a set of `n` elements has.
pub open spec fn bell(n: nat) -> nat {
    bell_helper(n, 0)
}

/// What it means for a block sequence to be a set partition of the color
/// set `colors`: blocks are non-empty, pairwise disjoint, and their union
/// is exactly `colors`.
pub open spec fn valid_partition(p: Seq<u8>, colors: u8) -> bool {
    (forall|i: int| 0 <= i < p.len() ==> p[i] != 0) && (forall|i: int, j: int|
        0 <= i < p.len() && 0 <= j < p.len() && i != j ==> (p[i] & p[j]) == 0) && or_all(p)
        == colors
}

/// Blocks within a canonical partition are sorted by descending bitmask.
pub open spec fn sorted_desc(p: Seq<u8>) -> bool {
    forall|i: int, j: int| 0 <= i < j < p.len() ==> p[i] >= p[j]
}

/// The union of a single mask is that mask.
proof fn lemma_or_all_singleton(x: u8)
    ensures
        or_all(seq![x]) == x,
{
    assert(or_all(Seq::<u8>::empty()) == 0);
    assert(seq![x].drop_last() =~= Seq::<u8>::empty());
    assert(seq![x].last() == x);
    lemma_mask_facts(x, 0, 0);
}

/// Swapping two adjacent entries leaves the union unchanged.
proof fn lemma_or_all_swap_adjacent(s: Seq<u8>, j: int)
    requires
        1 <= j < s.len(),
    ensures
        or_all(s.update(j - 1, s[j]).update(j, s[j - 1])) == or_all(s),
{
    let s2 = s.update(j - 1, s[j]).update(j, s[j - 1]);
    let front = s.take(j - 1);
    let back = s.skip(j + 1);
    assert(s =~= front + (seq![s[j - 1]] + (seq![s[j]] + back)));
    assert(s2 =~= front + (seq![s[j]] + (seq![s[j - 1]] + back)));
    lemma_or_all_concat(front, seq![s[j - 1]] + (seq![s[j]] + back));
    lemma_or_all_concat(seq![s[j - 1]], seq![s[j]] + back);
    lemma_or_all_concat(seq![s[j]], back);
    lemma_or_all_concat(front, seq![s[j]] + (seq![s[j - 1]] + back));
    lemma_or_all_concat(seq![s[j]], seq![s[j - 1]] + back);
    lemma_or_all_concat(seq![s[j - 1]], back);
    lemma_or_all_singleton(s[j - 1]);
    lemma_or_all_singleton(s[j]);
    lemma_mask_facts(s[j - 1], s[j], or_all(back));
    lemma_mask_facts(s[j - 1], s[j] | or_all(back), 0);
    lemma_mask_facts(s[j], s[j - 1] | or_all(back), 0);
    assert((s[j - 1] | (s[j] | or_all(back))) == (s[j] | (s[j - 1] | or_all(back)))) by {
        lemma_mask_facts(s[j - 1], s[j], or_all(back));
        lemma_mask_facts(s[j], s[j - 1], or_all(back));
        lemma_mask_facts(s[j - 1], s[j], 0);
    }
    assert(or_all(s) == (or_all(front) | (s[j - 1] | (s[j] | or_all(back)))));
    assert(or_all(s2) == (or_all(front) | (s[j] | (s[j - 1] | or_all(back)))));
}

/// Sorts a block list by descending bitmask, preserving its length, union,
/// non-emptiness and pairwise disjointness.
fn sort_blocks_desc(v: &mut Vec<u8>)
    ensures
        final(v)@.len() == old(v)@.len(),
        sorted_desc(final(v)@),
        or_all(final(v)@) == or_all(old(v)@),
        (forall|i: int| 0 <= i < old(v)@.len() ==> old(v)@[i] != 0) ==> (forall|i: int|
            0 <= i < final(v)@.len() ==> final(v)@[i] != 0),
        (forall|i: int, j: int|
            0 <= i < old(v)@.len() && 0 <= j < old(v)@.len() && i != j ==> (old(v)@[i] & old(
                v,
            )@[j]) == 0) ==> (forall|i: int, j: int|
            0 <= i < final(v)@.len() && 0 <= j < final(v)@.len() && i != j ==> (final(v)@[i]
                & final(v)@[j]) == 0),
{
    let ghost orig = v@;
    let mut i: usize = 1;
    while i < v.len()
        invariant
            1 <= i,
            v@.len() == orig.len(),
            or_all(v@) == or_all(orig),
            (forall|p: int| 0 <= p < orig.len() ==> orig[p] != 0) ==> (forall|p: int|
                0 <= p < v@.len() ==> v@[p] != 0),
            (forall|p: int, q: int|
                0 <= p < orig.len() && 0 <= q < orig.len() && p != q ==> (orig[p] & orig[q])
                    == 0) ==> (forall|p: int, q: int|
                0 <= p < v@.len() && 0 <= q < v@.len() && p != q ==> (v@[p] & v@[q]) == 0),
            forall|p: int, q: int| 0 <= p < q < i && q < v@.len() ==> v@[p] >= v@[q],
        decreases v@.len() - i,
    {
        let mut j: usize = i;
        while j > 0 && v[j - 1] < v[j]
            invariant
                j <= i < v@.len(),
                v@.len() == orig.len(),
                or_all(v@) == or_all(orig),
                (forall|p: int| 0 <= p < orig.len() ==> orig[p] != 0) ==> (forall|p: int|
                    0 <= p < v@.len() ==> v@[p] != 0),
                (forall|p: int, q: int|
                    0 <= p < orig.len() && 0 <= q < orig.len() && p != q ==> (orig[p] & orig[q])
                        == 0) ==> (forall|p: int, q: int|
                    0 <= p < v@.len() && 0 <= q < v@.len() && p != q ==> (v@[p] & v@[q]) == 0),
                forall|p: int, q: int|
                    0 <= p < q <= i && q < v@.len() && p != j && q != j ==> v@[p] >= v@[q],
                forall|q: int| j < q <= i ==> v@[j as int] >= v@[q],
            decreases j,
        {
            let ghost before = v@;
            let a = v[j - 1];
            let b = v[j];
            v[j - 1] = b;
            v[j] = a;
            proof {
                assert(v@ =~= before.update(j as int - 1, before[j as int]).update(
                    j as int,
                    before[j as int - 1],
                ));
                lemma_or_all_swap_adjacent(before, j as int);
            }
            j -= 1;
        }
        i += 1;
    }
}

/// How many blocks of a partition intersect the root list.
pub open spec fn nonzero_block_count(p: Seq<u8>, root: u8) -> int
    decreases p.len(),
{
    if p.len() == 0 {
        0
    } else {
        nonzero_block_count(p.drop_last(), root) + if p.last() & root == 0 {
            0int
        } else {
            1int
        }
    }
}

/// Branching law: the branching rule produces exactly one branch per block
/// of the partition that intersects the root list.
pub proof fn lemma_apply_branch_count(s: StarView, p: Seq<u8>)
    ensures
        spec_apply(s, p).len() == nonzero_block_count(p, s.root_colors),
    decreases p.len(),
{
    if p.len() > 0 {
        lemma_apply_branch_count(s, p.drop_last());
    }
}

/// Singleton propagation law: when a block meets the root list in exactly
/// one color, the branch for that block clears that one color from every
/// neighbor list, drops no neighbor, and is never reduced further (the
/// reduction applies only to roots with exactly 2 colors).
pub proof fn lemma_singleton_branch(s: StarView, block: u8)
    requires
        color_count(block & s.root_colors) == 1,
    ensures
        spec_reduce(spec_branch(s, block)) is None,
        spec_reduce_or_keep(spec_branch(s, block)) == spec_branch(s, block),
        spec_branch(s, block).root_colors == (block & s.root_colors),
        spec_branch(s, block).neighbor_colors.len() == s.neighbor_colors.len(),
        forall|i: int|
            0 <= i < s.neighbor_colors.len() ==> spec_branch(s, block).neighbor_colors[i] == (
            s.neighbor_colors[i] & !(block & s.root_colors)),
        spec_branch(s, block).neighbor_halfedges == s.neighbor_halfedges,
{
}

/// A branch for a block with two or more colors keeps every neighbor list
/// unchanged before reduction.
pub proof fn lemma_wide_branch(s: StarView, block: u8)
    requires
        color_count(block & s.root_colors) != 1,
    ensures
        spec_branch(s, block).neighbor_colors == s.neighbor_colors,
        spec_branch(s, block).neighbor_halfedges == s.neighbor_halfedges,
{
}

/// Matching counts, sums and the unmatched remainder all split over
/// concatenation.
proof fn lemma_match_concat(ac: Seq<u8>, ah: Seq<u8>, bc: Seq<u8>, bh: Seq<u8>, root: u8)
    requires
        ac.len() == ah.len(),
        bc.len() == bh.len(),
    ensures
        match_count(ac + bc, root) == match_count(ac, root) + match_count(bc, root),
        match_sum(ac + bc, ah + bh, root) == match_sum(ac, ah, root) + match_sum(bc, bh, root),
        unmatched(ac + bc, ah + bh, root).0 == unmatched(ac, ah, root).0 + unmatched(
            bc,
            bh,
            root,
        ).0,
        unmatched(ac + bc, ah + bh, root).1 == unmatched(ac, ah, root).1 + unmatched(
            bc,
            bh,
            root,
        ).1,
    decreases bc.len(),
{
    if bc.len() == 0 {
        assert(ac + bc =~= ac);
        assert(ah + bh =~= ah);
        assert(unmatched(ac, ah, root).0 + unmatched(bc, bh, root).0 =~= unmatched(
            ac,
            ah,
            root,
        ).0);
        assert(unmatched(ac, ah, root).1 + unmatched(bc, bh, root).1 =~= unmatched(
            ac,
            ah,
            root,
        ).1);
    } else {
        lemma_match_concat(ac, ah, bc.drop_last(), bh.drop_last(), root);
        assert((ac + bc).drop_last() =~= ac + bc.drop_last());
        assert((ah + bh).drop_last() =~= ah + bh.drop_last());
        assert((ac + bc).last() == bc.last());
        assert((ah + bh).last() == bh.last());
        if bc.last() == root {
        } else {
            assert(unmatched(ac, ah, root).0 + unmatched(bc, bh, root).0 =~= (unmatched(
                ac,
                ah,
                root,
            ).0 + unmatched(bc.drop_last(), bh.drop_last(), root).0).push(bc.last()));
            assert(unmatched(ac, ah, root).1 + unmatched(bc, bh, root).1 =~= (unmatched(
                ac,
                ah,
                root,
            ).1 + unmatched(bc.drop_last(), bh.drop_last(), root).1).push(bh.last()));
        }
    }
}

/// A sequence with no matching entry contributes nothing and survives the
/// unmatched filter unchanged.
proof fn lemma_no_match(cs: Seq<u8>, hs: Seq<u8>, root: u8)
    requires
        cs.len() == hs.len(),
        forall|j: int| 0 <= j < cs.len() ==> cs[j] != root,
    ensures
        match_count(cs, root) == 0,
        match_sum(cs, hs, root) == 0,
        unmatched(cs, hs, root).0 == cs,
        unmatched(cs, hs, root).1 == hs,
    decreases cs.len(),
{
    if cs.len() == 0 {
        assert(unmatched(cs, hs, root).0 =~= cs);
        assert(unmatched(cs, hs, root).1 =~= hs);
    } else {
        lemma_no_match(cs.drop_last(), hs.drop_last(), root);
        assert(unmatched(cs, hs, root).0 =~= cs);
        assert(unmatched(cs, hs, root).1 =~= hs);
    }
}

/// The unmatched remainder has no matching entry, equal lengths, and a
/// non-negative matching sum stands behind it.
proof fn lemma_unmatched_props(cs: Seq<u8>, hs: Seq<u8>, root: u8)
    requires
        cs.len() == hs.len(),
    ensures
        unmatched(cs, hs, root).0.len() == unmatched(cs, hs, root).1.len(),
        unmatched(cs, hs, root).0.len() == cs.len() - match_count(cs, root),
        forall|j: int|
            0 <= j < unmatched(cs, hs, root).0.len() ==> #[trigger] unmatched(cs, hs, root).0[j]
                != root,
        match_sum(cs, hs, root) >= 0,
        match_count(cs, root) >= 0,
    decreases cs.len(),
{
    if cs.len() > 0 {
        lemma_unmatched_props(cs.drop_last(), hs.drop_last(), root);
    }
}

/// Matching data of a single neighbor.
proof fn lemma_match_singleton(c: u8, h: u8, root: u8)
    ensures
        match_count(seq![c], root) == if c == root {
            1int
        } else {
            0int
        },
        match_sum(seq![c], seq![h], root) == if c == root {
            h as int
        } else {
            0int
        },
        unmatched(seq![c], seq![h], root).0 == if c == root {
            Seq::<u8>::empty()
        } else {
            seq![c]
        },
        unmatched(seq![c], seq![h], root).1 == if c == root {
            Seq::<u8>::empty()
        } else {
            seq![h]
        },
{
    assert(seq![c].drop_last() =~= Seq::<u8>::empty());
    assert(seq![h].drop_last() =~= Seq::<u8>::empty());
    assert(seq![c].last() == c);
    assert(seq![h].last() == h);
    assert(match_count(Seq::<u8>::empty(), root) == 0);
    assert(match_sum(Seq::<u8>::empty(), Seq::<u8>::empty(), root) == 0);
    assert(unmatched(Seq::<u8>::empty(), Seq::<u8>::empty(), root).0 =~= Seq::<u8>::empty());
    assert(unmatched(Seq::<u8>::empty(), Seq::<u8>::empty(), root).1 =~= Seq::<u8>::empty());
    if c == root {
        assert(unmatched(seq![c], seq![h], root).0 =~= Seq::<u8>::empty());
        assert(unmatched(seq![c], seq![h], root).1 =~= Seq::<u8>::empty());
    } else {
        assert(unmatched(seq![c], seq![h], root).0 =~= seq![c]);
        assert(unmatched(seq![c], seq![h], root).1 =~= seq![h]);
    }
}

/// The first match of a sequence with at least one match: it lies in range,
/// it matches, and nothing before it does.
proof fn lemma_first_match_props(cs: Seq<u8>, root: u8)
    requires
        match_count(cs, root) >= 1,
    ensures
        0 <= first_match(cs, root) < cs.len(),
        cs[first_match(cs, root)] == root,
        forall|j: int| 0 <= j < first_match(cs, root) ==> cs[j] != root,
    decreases cs.len(),
{
    assert(cs.len() > 0);
    if cs[0] == root {
    } else {
        let tail = cs.skip(1);
        assert(cs =~= seq![cs[0]] + tail);
        lemma_match_concat(seq![cs[0]], seq![0u8], tail, tail, root);
        lemma_match_singleton(cs[0], 0u8, root);
        lemma_first_match_props(tail, root);
        assert(forall|j: int| 0 <= j < tail.len() ==> tail[j] == cs[j + 1]);
    }
}

/// Reduction law: when the reduction applies, the reduced star keeps the
/// root list, stays well-formed, carries exactly one neighbor matching the
/// root list whose halfedges are the exact sum of all the matching
/// neighbors' halfedges, and keeps the non-matching neighbors exactly, in
/// their original order.
pub proof fn lemma_reduce_merges(s: StarView)
    requires
        spec_reduce(s) is Some,
    ensures
        spec_reduce(s).unwrap().root_colors == s.root_colors,
        star_wf(spec_reduce(s).unwrap()),
        spec_reduce(s).unwrap().neighbor_colors.len() == s.neighbor_colors.len() - match_count(
            s.neighbor_colors,
            s.root_colors,
        ) + 1,
        match_count(spec_reduce(s).unwrap().neighbor_colors, s.root_colors) == 1,
        match_sum(
            spec_reduce(s).unwrap().neighbor_colors,
            spec_reduce(s).unwrap().neighbor_halfedges,
            s.root_colors,
        ) == match_sum(s.neighbor_colors, s.neighbor_halfedges, s.root_colors),
        unmatched(
            spec_reduce(s).unwrap().neighbor_colors,
            spec_reduce(s).unwrap().neighbor_halfedges,
            s.root_colors,
        ) == unmatched(s.neighbor_colors, s.neighbor_halfedges, s.root_colors),
{
    let cs = s.neighbor_colors;
    let hs = s.neighbor_halfedges;
    let root = s.root_colors;
    let total = match_sum(cs, hs, root);
    let k = first_match(cs, root);
    lemma_first_match_props(cs, root);
    let front_c = cs.take(k);
    let front_h = hs.take(k);
    let back_c = cs.skip(k + 1);
    let back_h = hs.skip(k + 1);
    let rest = unmatched(back_c, back_h, root);
    assert(cs =~= front_c + (seq![root] + back_c));
    assert(hs =~= front_h + (seq![hs[k]] + back_h));
    assert(seq![root] + back_c =~= seq![cs[k]] + back_c);
    lemma_match_concat(front_c, front_h, seq![root] + back_c, seq![hs[k]] + back_h, root);
    lemma_match_concat(seq![root], seq![hs[k]], back_c, back_h, root);
    lemma_no_match(front_c, front_h, root);
    lemma_match_singleton(root, hs[k], root);
    lemma_unmatched_props(back_c, back_h, root);
    lemma_unmatched_props(cs, hs, root);
    // The reduced neighbor sequences.
    let r = spec_reduce(s).unwrap();
    let rc = r.neighbor_colors;
    let rh = r.neighbor_halfedges;
    assert(rc == front_c + seq![root] + rest.0);
    assert(rh == front_h + seq![(total as u8)] + rest.1);
    assert(rc =~= front_c + (seq![root] + rest.0));
    assert(rh =~= front_h + (seq![(total as u8)] + rest.1));
    lemma_match_concat(front_c, front_h, seq![root] + rest.0, seq![(total as u8)] + rest.1, root);
    lemma_match_concat(seq![root], seq![(total as u8)], rest.0, rest.1, root);
    lemma_match_singleton(root, (total as u8), root);
    lemma_no_match(rest.0, rest.1, root);
    assert(0 <= total <= 255);
    assert((total as u8) as int == total);
    // Match count, sum, and the unmatched remainder of the reduced star.
    assert(match_count(rc, root) == 1);
    assert(match_sum(rc, rh, root) == total);
    assert(unmatched(rc, rh, root).0 =~= unmatched(cs, hs, root).0);
    assert(unmatched(rc, rh, root).1 =~= unmatched(cs, hs, root).1);
    assert(match_count(cs, root) == 1 + match_count(back_c, root));
    assert(rc.len() == k + 1 + rest.0.len());
    assert(cs.len() == k + 1 + back_c.len());
}

/// A set partition in canonical form: valid, with blocks sorted descending.
pub open spec fn canonical_partition(p: Seq<u8>, colors: u8) -> bool {
    valid_partition(p, colors) && sorted_desc(p)
}

/// A mask with no bits under `2b` has no bit in common with `b`.
proof fn lemma_high_disjoint(x: u8, b: u8)
    requires
        b == 1 || b == 2 || b == 4 || b == 8 || b == 16 || b == 32 || b == 64 || b == 128,
        x as int % (2 * b as int) == 0,
    ensures
        (x & b) == 0,
        x as int % (b as int) == 0,
{
    vstd::arithmetic::div_mod::lemma_mod_breakdown(x as int, b as int, 2);
    assert((b as int) * ((x as int / b as int) % 2) + x as int % (b as int) == 0);
    assert(x as int % (b as int) >= 0);
    assert((x as int / b as int) % 2 >= 0);
    if (x as int / b as int) % 2 == 1 {
        assert((b as int) * 1 + x as int % (b as int) > 0);
    }
    assert(x % b == 0 && (x / b) % 2 == 0);
    assert((x & b) == 0) by (bit_vector)
        requires
            b == 1 || b == 2 || b == 4 || b == 8 || b == 16 || b == 32 || b == 64 || b == 128,
            x % b == 0,
            (x / b) % 2 == 0,
    ;
}

/// Union of disjoint masks is addition.
proof fn lemma_or_add(x: u8, y: u8)
    by (bit_vector)
    requires
        (x & y) == 0,
    ensures
        (x | y) == x + y,
{
}

/// How the remainder of a color set under `2b` relates to its remainder
/// under `b`: the bit `b` either is in the remainder or is not.
proof fn lemma_mod_halving(c: u8, b: u8)
    requires
        b == 1 || b == 2 || b == 4 || b == 8 || b == 16 || b == 32 || b == 64 || b == 128,
    ensures
        c as int % (2 * b as int) >= b as int ==> c as int % (b as int) == c as int % (2
            * b as int) - b as int,
        c as int % (2 * b as int) < b as int ==> c as int % (b as int) == c as int % (2
            * b as int),
        (c as int - c as int % (2 * b as int)) % (2 * b as int) == 0,
        c as int % (2 * b as int) <= c as int,
{
    let m = 2 * b as int;
    vstd::arithmetic::div_mod::lemma_mod_breakdown(c as int, b as int, 2);
    vstd::arithmetic::div_mod::lemma_fundamental_div_mod(c as int, m);
    vstd::arithmetic::div_mod::lemma_mod_multiples_basic(c as int / m, m);
    assert(c as int - c as int % m == m * (c as int / m));
    assert((m * (c as int / m)) % m == ((c as int / m) * m) % m);
    assert(0 <= c as int % (b as int) < b as int) by {
        vstd::arithmetic::div_mod::lemma_mod_bound(c as int, b as int);
    }
    assert(0 <= c as int % m <= c as int) by {
        vstd::arithmetic::div_mod::lemma_mod_bound(c as int, m);
        vstd::arithmetic::div_mod::lemma_mod_decreases(c as nat, m as nat);
    }
    if (c as int / b as int) % 2 == 1 {
        assert(c as int % m == b as int + c as int % (b as int));
    } else {
        assert(c as int % m == c as int % (b as int));
    }
}

/// Removing the bit `b` from a mask that contains it lowers the popcount by
/// exactly one.
proof fn lemma_popcount_drop_bit(r: u8, b: u8)
    requires
        b == 1 || b == 2 || b == 4 || b == 8 || b == 16 || b == 32 || b == 64 || b == 128,
        b <= r,
        (r as int) < 2 * (b as int),
    ensures
        color_count((r - b) as u8) == color_count(r) - 1,
{
    let s = (r - b) as u8;
    assert(s % 2 + s / 2 % 2 + s / 4 % 2 + s / 8 % 2 + s / 16 % 2 + s / 32 % 2 + s / 64 % 2 + s
        / 128 % 2 + 1 == r % 2 + r / 2 % 2 + r / 4 % 2 + r / 8 % 2 + r / 16 % 2 + r / 32 % 2 + r
        / 64 % 2 + r / 128 % 2) by (bit_vector)
        requires
            b == 1 || b == 2 || b == 4 || b == 8 || b == 16 || b == 32 || b == 64 || b == 128,
            b <= r,
            r < 2 * b,
            s == r - b,
    ;
    assert(color_count(s) == (s / 1) % 2 + (s / 2) % 2 + (s / 4) % 2 + (s / 8) % 2 + (s / 16) % 2
        + (s / 32) % 2 + (s / 64) % 2 + (s / 128) % 2);
    assert(color_count(r) == (r / 1) % 2 + (r / 2) % 2 + (r / 4) % 2 + (r / 8) % 2 + (r / 16) % 2
        + (r / 32) % 2 + (r / 64) % 2 + (r / 128) % 2);
}

/// The set bits of a color set, as single-bit masks in descending order.
fn extract_bits(colors: u8) -> (elems: Vec<u8>)
    ensures
        elems@.len() == color_count(colors),
        forall|i: int| 0 <= i < elems@.len() ==> elems@[i] != 0,
        forall|i: int, j: int|
            0 <= i < elems@.len() && 0 <= j < elems@.len() && i != j ==> (elems@[i] & elems@[j])
                == 0,
        or_all(elems@) == colors,
{
    let mut elems: Vec<u8> = Vec::new();
    let mut rem: u8 = colors;
    let mut bit: u8 = 128;
    while bit > 0
        invariant
            bit == 128 || bit == 64 || bit == 32 || bit == 16 || bit == 8 || bit == 4 || bit == 2
                || bit == 1 || bit == 0,
            bit > 0 ==> rem as int == colors as int % (2 * bit as int),
            bit == 0 ==> rem == 0,
            or_all(elems@) as int == colors as int - rem as int,
            elems@.len() as int + color_count(rem) == color_count(colors),
            forall|i: int| 0 <= i < elems@.len() ==> elems@[i] != 0,
            forall|i: int, j: int|
                0 <= i < elems@.len() && 0 <= j < elems@.len() && i != j ==> (elems@[i]
                    & elems@[j]) == 0,
            forall|i: int|
                0 <= i < elems@.len() && bit > 0 ==> #[trigger] (elems@[i] as int) % (2
                    * bit as int) == 0,
        decreases bit,
    {
        proof {
            lemma_mod_halving(colors, bit);
        }
        if rem >= bit {
            let ghost prev = elems@;
            let ghost x = or_all(elems@);
            proof {
                lemma_high_disjoint(x, bit);
                lemma_or_add(x, bit);
                lemma_popcount_drop_bit(rem, bit);
                assert forall|i: int|
                    0 <= i < prev.len() implies ((prev[i] & bit) == 0 && (bit & prev[i])
                    == 0) by {
                    lemma_high_disjoint(prev[i], bit);
                    lemma_mask_facts_and(prev[i], bit);
                }
            }
            elems.push(bit);
            rem = rem - bit;
            proof {
                assert(elems@.drop_last() =~= prev);
                assert(forall|i: int| 0 <= i < prev.len() ==> elems@[i] == prev[i]);
            }
        }
        proof {
            if bit >= 2 {
                lemma_mod_halving(colors, (bit / 2) as u8);
                assert forall|i: int|
                    0 <= i < elems@.len() && bit / 2 > 0 implies #[trigger] (elems@[i] as int) % (2
                    * (bit / 2) as int) == 0 by {
                    if elems@[i] == bit {
                    } else {
                        lemma_high_disjoint(elems@[i], bit);
                    }
                }
            }
        }
        bit = bit / 2;
    }
    elems
}

/// Replaces `s[i]` by `s[i] | x`: the union gains exactly `x`.
proof fn lemma_or_all_update_or(s: Seq<u8>, i: int, x: u8)
    requires
        0 <= i < s.len(),
    ensures
        or_all(s.update(i, s[i] | x)) == (or_all(s) | x),
{
    let s2 = s.update(i, s[i] | x);
    let front = s.take(i);
    let back = s.skip(i + 1);
    assert(s =~= front + (seq![s[i]] + back));
    assert(s2 =~= front + (seq![s[i] | x] + back));
    lemma_or_all_concat(front, seq![s[i]] + back);
    lemma_or_all_concat(seq![s[i]], back);
    lemma_or_all_concat(front, seq![s[i] | x] + back);
    lemma_or_all_concat(seq![s[i] | x], back);
    lemma_or_all_singleton(s[i]);
    lemma_or_all_singleton(s[i] | x);
    let f = or_all(front);
    let bk = or_all(back);
    assert((f | ((s[i] | x) | bk)) == ((f | (s[i] | bk)) | x)) by {
        lemma_mask_facts(s[i], x, bk);
        lemma_mask_facts(s[i], bk, x);
        lemma_mask_facts(x, bk, 0);
        lemma_mask_facts(bk, x, 0);
        lemma_mask_facts(f, s[i] | bk, x);
    }
}

/// The restricted-growth backtracking step: assigns the elements of
/// `elems[idx..]` to blocks in every possible way — each element joins an
/// existing block or starts a new one — and appends one canonically sorted
/// partition per complete assignment to `out`.
fn partitions_rec(elems: &Vec<u8>, idx: usize, blocks: &Vec<u8>, out: &mut Vec<Vec<u8>>)
    requires
        idx <= elems@.len(),
        forall|i: int| 0 <= i < elems@.len() ==> elems@[i] != 0,
        forall|i: int, j: int|
            0 <= i < elems@.len() && 0 <= j < elems@.len() && i != j ==> (elems@[i] & elems@[j])
                == 0,
        forall|i: int| 0 <= i < blocks@.len() ==> blocks@[i] != 0,
        forall|i: int, j: int|
            0 <= i < blocks@.len() && 0 <= j < blocks@.len() && i != j ==> (blocks@[i]
                & blocks@[j]) == 0,
        forall|i: int, j: int|
            0 <= i < blocks@.len() && idx <= j < elems@.len() ==> (blocks@[i] & elems@[j]) == 0,
    ensures
        final(out)@.len() == old(out)@.len() + bell_helper(
            (elems@.len() - idx) as nat,
            blocks@.len() as nat,
        ),
        forall|j: int| 0 <= j < old(out)@.len() ==> final(out)@[j]@ == old(out)@[j]@,
        forall|j: int|
            old(out)@.len() <= j < final(out)@.len() ==> canonical_partition(
                final(out)@[j]@,
                or_all(blocks@) | or_all(elems@.skip(idx as int)),
            ),
    decreases elems@.len() - idx,
{
    let ghost m = (elems@.len() - idx) as nat;
    let ghost k = blocks@.len() as nat;
    let ghost u = or_all(blocks@) | or_all(elems@.skip(idx as int));
    if idx == elems.len() {
        let mut part = copy_bytes(blocks);
        sort_blocks_desc(&mut part);
        let ghost part_v = part@;
        out.push(part);
        proof {
            assert(elems@.skip(idx as int) =~= Seq::<u8>::empty());
            lemma_mask_facts(or_all(blocks@), 0, 0);
            assert(canonical_partition(part_v, u));
        }
        return ;
    }
    let bit = elems[idx];
    proof {
        assert(elems@.skip(idx as int) =~= seq![bit] + elems@.skip(idx as int + 1));
        lemma_or_all_concat(seq![bit], elems@.skip(idx as int + 1));
        lemma_or_all_singleton(bit);
    }
    let ghost rest = or_all(elems@.skip(idx as int + 1));
    // u == or_all(blocks@) | (bit | rest)
    let mut i: usize = 0;
    while i < blocks.len()
        invariant
            idx < elems@.len(),
            elems@.len() <= usize::MAX,
            bit == elems@[idx as int],
            i <= blocks@.len(),
            m == (elems@.len() - idx) as nat,
            k == blocks@.len() as nat,
            u == (or_all(blocks@) | (bit | rest)),
            rest == or_all(elems@.skip(idx as int + 1)),
            forall|p: int| 0 <= p < elems@.len() ==> elems@[p] != 0,
            forall|p: int, q: int|
                0 <= p < elems@.len() && 0 <= q < elems@.len() && p != q ==> (elems@[p]
                    & elems@[q]) == 0,
            forall|p: int| 0 <= p < blocks@.len() ==> blocks@[p] != 0,
            forall|p: int, q: int|
                0 <= p < blocks@.len() && 0 <= q < blocks@.len() && p != q ==> (blocks@[p]
                    & blocks@[q]) == 0,
            forall|p: int, q: int|
                0 <= p < blocks@.len() && idx <= q < elems@.len() ==> (blocks@[p] & elems@[q])
                    == 0,
            out@.len() == old(out)@.len() + i * bell_helper((m - 1) as nat, k),
            forall|j: int| 0 <= j < old(out)@.len() ==> out@[j]@ == old(out)@[j]@,
            forall|j: int|
                old(out)@.len() <= j < out@.len() ==> canonical_partition(out@[j]@, u),
        decreases blocks@.len() - i,
    {
        let mut nb = copy_bytes(blocks);
        let merged = nb[i] | bit;
        nb[i] = merged;
        proof {
            assert(nb@ =~= blocks@.update(i as int, blocks@[i as int] | bit));
            lemma_or_all_update_or(blocks@, i as int, bit);
            assert forall|p: int| 0 <= p < nb@.len() implies nb@[p] != 0 by {
                lemma_mask_facts(blocks@[p], bit, 0);
            }
            assert forall|p: int, q: int|
                0 <= p < nb@.len() && 0 <= q < nb@.len() && p != q implies (nb@[p] & nb@[q])
                == 0 by {
                assert(blocks@[p] & elems@[idx as int] == 0);
                assert(blocks@[q] & elems@[idx as int] == 0);
                lemma_mask_facts_and(bit, blocks@[p]);
                lemma_mask_facts_and(bit, blocks@[q]);
                lemma_mask_facts(blocks@[i as int], bit, blocks@[p]);
                lemma_mask_facts(blocks@[i as int], bit, blocks@[q]);
            }
            assert forall|p: int, q: int|
                0 <= p < nb@.len() && idx + 1 <= q < elems@.len() implies (nb@[p] & elems@[q])
                == 0 by {
                assert(elems@[idx as int] & elems@[q] == 0);
                lemma_mask_facts(blocks@[i as int], bit, elems@[q]);
            }
        }
        let ghost before_len = out@.len();
        partitions_rec(elems, idx + 1, &nb, out);
        proof {
            assert((or_all(nb@) | rest) == u) by {
                lemma_mask_facts(or_all(blocks@), bit, rest);
            }
            assert(out@.len() == before_len + bell_helper((m - 1) as nat, k));
            assert((i + 1) * bell_helper((m - 1) as nat, k) == i * bell_helper((m - 1) as nat, k)
                + bell_helper((m - 1) as nat, k)) by (nonlinear_arith);
        }
        i += 1;
    }
    let mut nb = copy_bytes(blocks);
    nb.push(bit);
    proof {
        assert(nb@.drop_last() =~= blocks@);
        assert(or_all(nb@) == (or_all(blocks@) | bit));
        assert forall|p: int, q: int|
            0 <= p < nb@.len() && 0 <= q < nb@.len() && p != q implies (nb@[p] & nb@[q]) == 0 by {
            if p < blocks@.len() && q < blocks@.len() {
            } else if p < blocks@.len() {
                assert(nb@[q] == bit);
            } else {
                assert(nb@[p] == bit);
                lemma_mask_facts(bit, blocks@[q], 0);
                assert((bit & nb@[q]) == (nb@[q] & bit)) by {
                    lemma_mask_facts_and(bit, nb@[q]);
                }
            }
        }
    }
    let ghost before_len = out@.len();
    partitions_rec(elems, idx + 1, &nb, out);
    proof {
        assert((or_all(nb@) | rest) == u) by {
            lemma_mask_facts(or_all(blocks@), bit, rest);
        }
        assert(out@.len() == before_len + bell_helper((m - 1) as nat, (k + 1) as nat));
        assert(bell_helper(m, k) == k * bell_helper((m - 1) as nat, k) + bell_helper(
            (m - 1) as nat,
            (k + 1) as nat,
        ));
    }
}

/// Intersection is symmetric.
proof fn lemma_mask_facts_and(a: u8, b: u8)
    by (bit_vector)
    ensures
        (a & b) == (b & a),
{
}

/// Lexicographic order on block sequences, with a proper prefix ordered
/// first.
pub open spec fn lex_le(a: Seq<u8>, b: Seq<u8>) -> bool
    decreases a.len(),
{
    if a.len() == 0 {
        true
    } else if b.len() == 0 {
        false
    } else if a[0] < b[0] {
        true
    } else if a[0] > b[0] {
        false
    } else {
        lex_le(a.skip(1), b.skip(1))
    }
}

/// The canonical order on partitions: fewer blocks first, ties broken by
/// lexicographically smaller block sequence.
pub open spec fn part_le(a: Seq<u8>, b: Seq<u8>) -> bool {
    a.len() < b.len() || (a.len() == b.len() && lex_le(a, b))
}

/// The lexicographic order is total.
proof fn lemma_lex_le_total(a: Seq<u8>, b: Seq<u8>)
    ensures
        lex_le(a, b) || lex_le(b, a),
    decreases a.len(),
{
    if a.len() == 0 || b.len() == 0 {
    } else if a[0] == b[0] {
        lemma_lex_le_total(a.skip(1), b.skip(1));
    }
}

/// The lexicographic order is transitive.
proof fn lemma_lex_le_trans(a: Seq<u8>, b: Seq<u8>, c: Seq<u8>)
    requires
        lex_le(a, b),
        lex_le(b, c),
    ensures
        lex_le(a, c),
    decreases a.len(),
{
    if a.len() == 0 {
    } else {
        assert(b.len() > 0);
        assert(c.len() > 0);
        if a[0] == b[0] && b[0] == c[0] {
            lemma_lex_le_trans(a.skip(1), b.skip(1), c.skip(1));
        }
    }
}

/// The canonical partition order is total.
proof fn lemma_part_le_total(a: Seq<u8>, b: Seq<u8>)
    ensures
        part_le(a, b) || part_le(b, a),
{
    lemma_lex_le_total(a, b);
}

/// The canonical partition order is transitive.
proof fn lemma_part_le_trans(a: Seq<u8>, b: Seq<u8>, c: Seq<u8>)
    requires
        part_le(a, b),
        part_le(b, c),
    ensures
        part_le(a, c),
{
    if a.len() == b.len() && b.len() == c.len() {
        lemma_lex_le_trans(a, b, c);
    }
}

/// A shared prefix does not decide the lexicographic order: it is decided
/// by the remainders.
proof fn lemma_lex_le_common_prefix(a: Seq<u8>, b: Seq<u8>, i: int)
    requires
        a.len() == b.len(),
        0 <= i <= a.len(),
        forall|p: int| 0 <= p < i ==> a[p] == b[p],
    ensures
        lex_le(a, b) == lex_le(a.skip(i), b.skip(i)),
    decreases i,
{
    if i == 0 || a.len() == 0 {
        assert(a.skip(0) =~= a);
        assert(b.skip(0) =~= b);
    } else {
        let ta = a.skip(1);
        let tb = b.skip(1);
        assert(a[0] == b[0]);
        assert(forall|p: int| 0 <= p < ta.len() ==> ta[p] == a[p + 1]);
        assert(forall|p: int| 0 <= p < tb.len() ==> tb[p] == b[p + 1]);
        lemma_lex_le_common_prefix(ta, tb, i - 1);
        assert(ta.skip(i - 1) =~= a.skip(i));
        assert(tb.skip(i - 1) =~= b.skip(i));
    }
}

/// Whether partition `a` comes strictly before partition `b` in the
/// canonical output order: fewer blocks first, ties by lexicographically
/// smaller block sequence.
fn part_lt(a: &Vec<u8>, b: &Vec<u8>) -> (r: bool)
    ensures
        r == !part_le(b@, a@),
{
    if a.len() != b.len() {
        return a.len() < b.len();
    }
    let mut i: usize = 0;
    while i < a.len()
        invariant
            a@.len() == b@.len(),
            i <= a@.len(),
            forall|p: int| 0 <= p < i ==> a@[p] == b@[p],
        decreases a@.len() - i,
    {
        if a[i] != b[i] {
            proof {
                lemma_lex_le_common_prefix(b@, a@, i as int);
                assert(b@.skip(i as int)[0] == b@[i as int]);
                assert(a@.skip(i as int)[0] == a@[i as int]);
            }
            return a[i] < b[i];
        }
        i += 1;
    }
    proof {
        lemma_lex_le_common_prefix(b@, a@, a@.len() as int);
        assert(b@.skip(a@.len() as int) =~= Seq::<u8>::empty());
    }
    false
}

/// Sorts the partition list by (block count, lexicographic block order),
/// keeping its length and the canonical validity of every entry.
fn sort_partitions(v: &mut Vec<Vec<u8>>, colors: Ghost<u8>)
    requires
        forall|j: int| 0 <= j < old(v)@.len() ==> canonical_partition(old(v)@[j]@, colors@),
    ensures
        final(v)@.len() == old(v)@.len(),
        forall|j: int| 0 <= j < final(v)@.len() ==> canonical_partition(final(v)@[j]@, colors@),
        forall|p: int, q: int|
            0 <= p < q < final(v)@.len() ==> part_le(final(v)@[p]@, final(v)@[q]@),
{
    let mut i: usize = 1;
    while i < v.len()
        invariant
            1 <= i,
            v@.len() == old(v)@.len(),
            forall|j: int| 0 <= j < v@.len() ==> canonical_partition(v@[j]@, colors@),
            forall|p: int, q: int|
                0 <= p < q < i && q < v@.len() ==> part_le(v@[p]@, v@[q]@),
        decreases v@.len() - i,
    {
        let mut j: usize = i;
        while j > 0 && part_lt(&v[j], &v[j - 1])
            invariant
                j <= i < v@.len(),
                v@.len() == old(v)@.len(),
                forall|p: int| 0 <= p < v@.len() ==> canonical_partition(v@[p]@, colors@),
                forall|p: int, q: int|
                    0 <= p < q <= i && p != j && q != j ==> part_le(v@[p]@, v@[q]@),
                forall|q: int| j < q <= i ==> part_le(v@[j as int]@, v@[q]@),
            decreases j,
        {
            proof {
                lemma_part_le_total(v@[j as int]@, v@[j as int - 1]@);
            }
            let ghost before = v@;
            let x = v.remove(j);
            v.insert(j - 1, x);
            proof {
                assert(v@ == before.remove(j as int).insert(j as int - 1, before[j as int]));
                assert forall|p: int| 0 <= p < v@.len() implies canonical_partition(
                    v@[p]@,
                    colors@,
                ) by {
                    if p < j - 1 {
                        assert(v@[p] == before[p]);
                    } else if p == j - 1 {
                        assert(v@[p] == before[j as int]);
                    } else if p == j {
                        assert(v@[p] == before[j as int - 1]);
                    } else {
                        assert(v@[p] == before[p]);
                    }
                }
                assert(v@[j as int - 1] == before[j as int]);
                assert(v@[j as int] == before[j as int - 1]);
                assert(forall|p: int| 0 <= p < j - 1 ==> v@[p] == before[p]);
                assert(forall|p: int| j < p < v@.len() ==> v@[p] == before[p]);
            }
            j -= 1;
        }
        proof {
            assert forall|p: int, q: int| 0 <= p < q <= i implies part_le(v@[p]@, v@[q]@) by {
                if p == j {
                    assert(part_le(v@[p]@, v@[q]@));
                } else if q == j {
                    if p == j - 1 {
                        assert(part_le(v@[p]@, v@[q]@));
                    } else {
                        lemma_part_le_trans(v@[p]@, v@[j as int - 1]@, v@[j as int]@);
                    }
                } else {
                    assert(part_le(v@[p]@, v@[q]@));
                }
            }
        }
        i += 1;
    }
}

/// Produces all set partitions of the set represented by `colors`.
///
/// Each partition is a sequence of non-empty bitmasks, pairwise disjoint,
/// whose bitwise union equals `colors`; there are exactly Bell-many of them,
/// where the Bell number is taken of the number of set bits of `colors`.
///
/// Notes:
/// - If `colors == 0`, this returns a single empty partition.
/// - Output is deterministic: blocks inside a partition are sorted
///   descending by bitmask, and the list of partitions is sorted by
///   (number of blocks, lexicographic block order).
pub fn partitions_of_colors(colors: u8) -> (r: Vec<Vec<u8>>)
    ensures
        r@.len() == bell(color_count(colors) as nat),
        forall|j: int| 0 <= j < r@.len() ==> canonical_partition(r@[j]@, colors),
        forall|p: int, q: int| 0 <= p < q < r@.len() ==> part_le(r@[p]@, r@[q]@),
        colors == 0 ==> r@.len() == 1 && r@[0]@ == Seq::<u8>::empty(),
{
    let mut out: Vec<Vec<u8>> = Vec::new();
    if colors == 0 {
        let empty_part: Vec<u8> = Vec::new();
        out.push(empty_part);
        proof {
            assert(color_count(0u8) == 0);
            assert(bell(0) == 1);
            assert(out@[0]@ =~= Seq::<u8>::empty());
        }
        return out;
    }
    let elems = extract_bits(colors);
    let blocks: Vec<u8> = Vec::new();
    partitions_rec(&elems, 0, &blocks, &mut out);
    proof {
        assert(elems@.skip(0) =~= elems@);
        assert(or_all(blocks@) == 0);
        lemma_mask_facts(or_all(elems@), 0, 0);
        assert((or_all(blocks@) | or_all(elems@)) == colors);
        assert(color_count(colors) >= 0);
        assert(out@.len() == bell(color_count(colors) as nat));
    }
    sort_partitions(&mut out, Ghost(colors));
    out
}

} // verus!
