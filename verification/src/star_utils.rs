//! Stars: depth-1 rooted trees, flattened to a root color set plus two
//! same-length neighbor sequences (color sets and halfedge counts). The
//! neighbor order carries no meaning; a star's neighbors are semantically an
//! unordered multiset, and the generator picks them through the multiset
//! index enumerator so that each multiset appears exactly once.

use vstd::prelude::*;
use crate::colors::spec_intersects;
use crate::colors::intersects;
use crate::colors::spec_root_color_subsets;
use crate::colors::spec_color_subsets_ge2;
use crate::colors::root_color_subsets;
use crate::colors::color_subsets_ge2;
use crate::multiset_index::spec_nds;
use crate::multiset_index::nondecreasing_sequences;
use crate::multiset_index::lemma_nds_sound;
use crate::multiset_index::lemma_nds_count;
use crate::multiset_index::binom;
use crate::render::spec_hex;
use crate::render::spec_dec;
use crate::render::push_hex;
use crate::render::push_dec;
use vstd::string::StringExecFns;

verus! {

/// A star: a root color set together with one color set and one halfedge
/// count per neighbor. The two neighbor sequences always have equal length;
/// their order is a storage convenience only.
#[derive(Clone, Debug, PartialEq, Eq, Hash)]
pub struct Star {
    /// Bitmask over colors `{0,1,2,3}`; bit `i` set means color `i` is present.
    pub root_colors: u8,
    /// Color list bitmask of each neighbor.
    pub neighbor_colors: Vec<u8>,
    /// Number of dangling halfedges of each neighbor.
    pub neighbor_halfedges: Vec<u8>,
}

/// The mathematical value of a [`Star`].
pub struct StarView {
    pub root_colors: u8,
    pub neighbor_colors: Seq<u8>,
    pub neighbor_halfedges: Seq<u8>,
}

impl View for Star {
    type V = StarView;

    open spec fn view(&self) -> StarView {
        StarView {
            root_colors: self.root_colors,
            neighbor_colors: self.neighbor_colors@,
            neighbor_halfedges: self.neighbor_halfedges@,
        }
    }
}

/// Well-formedness of a star: one halfedge count per neighbor.
pub open spec fn star_wf(s: StarView) -> bool {
    s.neighbor_colors.len() == s.neighbor_halfedges.len()
}

/// The views of a sequence of stars.
pub open spec fn star_views(s: Seq<Star>) -> Seq<StarView> {
    s.map_values(|st: Star| st@)
}

/// The (color set, halfedges) neighbor types contributed by one color set:
/// one type per halfedge count in `2..=degree`, in increasing order.
pub open spec fn spec_halfedge_types(c: u8, degree: usize) -> Seq<(u8, u8)> {
    if degree < 2 {
        Seq::empty()
    } else {
        Seq::new((degree - 1) as nat, |i: int| (c, (i + 2) as u8))
    }
}

/// The candidate neighbor types for a root, contributed by the subset table
/// entries from index `j` on: every table color set intersecting the root,
/// paired with every halfedge count in `2..=degree`, in table order.
pub open spec fn spec_neighbor_types_from(root: u8, degree: usize, j: int) -> Seq<(u8, u8)>
    decreases 11 - j,
{
    if j < 0 || j >= 11 {
        Seq::empty()
    } else {
        (if spec_intersects(root, spec_color_subsets_ge2()[j]) {
            spec_halfedge_types(spec_color_subsets_ge2()[j], degree)
        } else {
            Seq::empty()
        }) + spec_neighbor_types_from(root, degree, j + 1)
    }
}

/// All candidate neighbor types for a root, in table order.
pub open spec fn spec_neighbor_types(root: u8, degree: usize) -> Seq<(u8, u8)> {
    spec_neighbor_types_from(root, degree, 0)
}

/// The star assembled from a root and a choice of neighbor type indices.
pub open spec fn spec_star_from(root: u8, types: Seq<(u8, u8)>, choice: Seq<usize>) -> StarView {
    StarView {
        root_colors: root,
        neighbor_colors: choice.map_values(|i: usize| types[i as int].0),
        neighbor_halfedges: choice.map_values(|i: usize| types[i as int].1),
    }
}

/// All stars with the given root color set: one per unordered multiset of
/// `degree` candidate neighbor types, in enumeration order.
pub open spec fn spec_stars_for_root(root: u8, degree: usize) -> Seq<StarView> {
    let types = spec_neighbor_types(root, degree);
    if types.len() == 0 {
        Seq::empty()
    } else {
        spec_nds(0, (types.len() - 1) as usize, degree as nat).map_values(
            |choice: Seq<usize>| spec_star_from(root, types, choice),
        )
    }
}

/// All stars of the root table entries from index `j` on, in table order.
pub open spec fn spec_stars_from_roots(degree: usize, j: int) -> Seq<StarView>
    decreases 3 - j,
{
    if j < 0 || j >= 3 {
        Seq::empty()
    } else {
        spec_stars_for_root(spec_root_color_subsets()[j], degree) + spec_stars_from_roots(
            degree,
            j + 1,
        )
    }
}

/// All stars of a given degree: for each legal root color set, one star per
/// unordered multiset of `degree` candidate neighbor types. Degrees below 2
/// admit no neighbor type, and yield nothing.
pub open spec fn spec_generate_stars(degree: usize) -> Seq<StarView> {
    if degree < 2 {
        Seq::empty()
    } else {
        spec_stars_from_roots(degree, 0)
    }
}

/// The neighbor type table is small: at most `degree` types per table subset.
proof fn lemma_neighbor_types_from_len(root: u8, degree: usize, j: int)
    requires
        0 <= j <= 11,
    ensures
        spec_neighbor_types_from(root, degree, j).len() <= (11 - j) * (degree as int),
    decreases 11 - j,
{
    if j >= 11 {
    } else {
        lemma_neighbor_types_from_len(root, degree, j + 1);
        assert((degree as int) + (11 - (j + 1)) * (degree as int) <= (11 - j) * (degree as int))
            by (nonlinear_arith)
            requires
                0 <= j < 11,
        ;
    }
}

/// Counting law for one root: with `k` candidate neighbor types, choosing an
/// unordered multiset of `degree` of them has, by stars and bars, exactly
/// `C(k + degree - 1, degree)` outcomes, so that is how many stars the root
/// contributes.
pub proof fn lemma_stars_for_root_count(root: u8, degree: usize)
    requires
        2 <= degree <= u8::MAX as usize,
        spec_neighbor_types(root, degree).len() >= 1,
    ensures
        spec_stars_for_root(root, degree).len() == binom(
            (spec_neighbor_types(root, degree).len() + degree - 1) as nat,
            degree as nat,
        ),
{
    let k = spec_neighbor_types(root, degree).len();
    lemma_neighbor_types_from_len(root, degree, 0);
    lemma_nds_count(0, (k - 1) as usize, degree as nat);
}

/// The number of candidate neighbor types per root table entry: all 11 table
/// subsets intersect the roots `{0,1,2,3}` and `{0,1,2}`, while 10 intersect
/// the root `{0,1}` (only `{2,3}` is disjoint from it); each intersecting
/// subset contributes one type per halfedge count in `2..=degree`.
pub proof fn lemma_neighbor_type_counts(degree: usize)
    requires
        2 <= degree,
    ensures
        spec_neighbor_types(0b1111u8, degree).len() == 11 * (degree - 1),
        spec_neighbor_types(0b0111u8, degree).len() == 11 * (degree - 1),
        spec_neighbor_types(0b0011u8, degree).len() == 10 * (degree - 1),
{
    assert((0b1111u8 & 0b1111u8 != 0) && (0b1111u8 & 0b0111u8 != 0) && (0b1111u8 & 0b1011u8 != 0)
        && (0b1111u8 & 0b1101u8 != 0) && (0b1111u8 & 0b1110u8 != 0) && (0b1111u8 & 0b0011u8 != 0)
        && (0b1111u8 & 0b0101u8 != 0) && (0b1111u8 & 0b1001u8 != 0) && (0b1111u8 & 0b0110u8 != 0)
        && (0b1111u8 & 0b1010u8 != 0) && (0b1111u8 & 0b1100u8 != 0) && (0b0111u8 & 0b1111u8 != 0)
        && (0b0111u8 & 0b0111u8 != 0) && (0b0111u8 & 0b1011u8 != 0) && (0b0111u8 & 0b1101u8 != 0)
        && (0b0111u8 & 0b1110u8 != 0) && (0b0111u8 & 0b0011u8 != 0) && (0b0111u8 & 0b0101u8 != 0)
        && (0b0111u8 & 0b1001u8 != 0) && (0b0111u8 & 0b0110u8 != 0) && (0b0111u8 & 0b1010u8 != 0)
        && (0b0111u8 & 0b1100u8 != 0) && (0b0011u8 & 0b1111u8 != 0) && (0b0011u8 & 0b0111u8 != 0)
        && (0b0011u8 & 0b1011u8 != 0) && (0b0011u8 & 0b1101u8 != 0) && (0b0011u8 & 0b1110u8 != 0)
        && (0b0011u8 & 0b0011u8 != 0) && (0b0011u8 & 0b0101u8 != 0) && (0b0011u8 & 0b1001u8 != 0)
        && (0b0011u8 & 0b0110u8 != 0) && (0b0011u8 & 0b1010u8 != 0) && (0b0011u8 & 0b1100u8 == 0))
        by (bit_vector);
    reveal_with_fuel(spec_neighbor_types_from, 13);
}

/// Counting law for the whole star generator: the output is the stars of the
/// three root table entries, in table order, so its length is the sum of the
/// three per-root stars-and-bars counts.
pub proof fn lemma_generate_stars_count(degree: usize)
    requires
        2 <= degree <= u8::MAX as usize,
    ensures
        spec_generate_stars(degree).len() == binom((11 * (degree - 1) + degree - 1) as nat, degree as nat)
            + binom((11 * (degree - 1) + degree - 1) as nat, degree as nat) + binom(
            (10 * (degree - 1) + degree - 1) as nat,
            degree as nat,
        ),
{
    lemma_neighbor_type_counts(degree);
    lemma_stars_for_root_count(0b1111u8, degree);
    lemma_stars_for_root_count(0b0111u8, degree);
    lemma_stars_for_root_count(0b0011u8, degree);
    reveal_with_fuel(spec_stars_from_roots, 5);
    assert(spec_generate_stars(degree).len() == spec_stars_for_root(0b1111u8, degree).len()
        + spec_stars_for_root(0b0111u8, degree).len() + spec_stars_for_root(0b0011u8, degree).len());
}

/// What a sound candidate neighbor type looks like: a subset-table color set
/// sharing a color with the root, and a halfedge count in `2..=degree`.
pub open spec fn sound_type(t: (u8, u8), root: u8, degree: usize) -> bool {
    spec_color_subsets_ge2().contains(t.0) && spec_intersects(root, t.0) && 2 <= t.1 <= degree
}

/// Every candidate neighbor type is sound.
proof fn lemma_neighbor_types_sound(root: u8, degree: usize, j: int)
    requires
        degree <= u8::MAX as usize,
    ensures
        forall|p: int|
            0 <= p < spec_neighbor_types_from(root, degree, j).len() ==> sound_type(
                #[trigger] spec_neighbor_types_from(root, degree, j)[p],
                root,
                degree,
            ),
    decreases 11 - j,
{
    if j < 0 || j >= 11 {
    } else {
        lemma_neighbor_types_sound(root, degree, j + 1);
        let c = spec_color_subsets_ge2()[j];
        let here = if spec_intersects(root, c) {
            spec_halfedge_types(c, degree)
        } else {
            Seq::<(u8, u8)>::empty()
        };
        assert(spec_color_subsets_ge2().contains(c)) by {
            assert(spec_color_subsets_ge2()[j] == c);
        }
        assert forall|p: int|
            0 <= p < spec_neighbor_types_from(root, degree, j).len() implies sound_type(
            #[trigger] spec_neighbor_types_from(root, degree, j)[p],
            root,
            degree,
        ) by {
            if p < here.len() {
                assert(spec_neighbor_types_from(root, degree, j)[p] == here[p]);
            } else {
                assert(spec_neighbor_types_from(root, degree, j)[p] == spec_neighbor_types_from(
                    root,
                    degree,
                    j + 1,
                )[p - here.len()]);
            }
        }
    }
}

/// What a sound generated star looks like: a root-table root, one neighbor
/// color set and one halfedge count per spoke, every neighbor color set a
/// subset-table entry sharing a color with the root, and every halfedge
/// count in `2..=degree`.
pub open spec fn sound_star(s: StarView, degree: usize) -> bool {
    &&& spec_root_color_subsets().contains(s.root_colors)
    &&& star_wf(s)
    &&& s.neighbor_colors.len() == degree
    &&& forall|p: int|
        0 <= p < degree ==> spec_color_subsets_ge2().contains(#[trigger] s.neighbor_colors[p])
            && spec_intersects(s.root_colors, s.neighbor_colors[p])
    &&& forall|p: int| 0 <= p < degree ==> 2 <= #[trigger] s.neighbor_halfedges[p] <= degree
}

/// Every star generated for one root is sound.
proof fn lemma_stars_for_root_sound(root: u8, degree: usize, k: int)
    requires
        degree <= u8::MAX as usize,
        spec_root_color_subsets().contains(root),
        0 <= k < spec_stars_for_root(root, degree).len(),
    ensures
        sound_star(spec_stars_for_root(root, degree)[k], degree),
{
    let types = spec_neighbor_types(root, degree);
    let t = (types.len() - 1) as usize;
    let choice = spec_nds(0, t, degree as nat)[k];
    lemma_nds_sound(0, t, degree as nat, k);
    lemma_neighbor_types_sound(root, degree, 0);
    let s = spec_stars_for_root(root, degree)[k];
    assert(s == spec_star_from(root, types, choice));
    assert forall|p: int|
        0 <= p < degree implies spec_color_subsets_ge2().contains(#[trigger] s.neighbor_colors[p])
        && spec_intersects(s.root_colors, s.neighbor_colors[p]) by {
        assert(0 <= choice[p] <= t);
        assert(s.neighbor_colors[p] == types[choice[p] as int].0);
        assert(sound_type(types[choice[p] as int], root, degree));
    }
    assert forall|p: int| 0 <= p < degree implies 2 <= #[trigger] s.neighbor_halfedges[p]
        <= degree by {
        assert(0 <= choice[p] <= t);
        assert(s.neighbor_halfedges[p] == types[choice[p] as int].1);
        assert(sound_type(types[choice[p] as int], root, degree));
    }
}

/// Soundness law of the star generator: every generated star is sound — in
/// particular no neighbor color set is ever disjoint from its root.
pub proof fn lemma_generate_stars_sound(degree: usize, j: int)
    requires
        degree <= u8::MAX as usize,
        0 <= j < spec_generate_stars(degree).len(),
    ensures
        sound_star(spec_generate_stars(degree)[j], degree),
{
    lemma_stars_from_roots_sound(degree, 0, j);
}

/// Soundness of the per-root concatenation.
proof fn lemma_stars_from_roots_sound(degree: usize, rj: int, j: int)
    requires
        2 <= degree <= u8::MAX as usize,
        0 <= j < spec_stars_from_roots(degree, rj).len(),
    ensures
        sound_star(spec_stars_from_roots(degree, rj)[j], degree),
    decreases 3 - rj,
{
    let root = spec_root_color_subsets()[rj];
    let here = spec_stars_for_root(root, degree);
    if j < here.len() {
        assert(spec_root_color_subsets().contains(root)) by {
            assert(spec_root_color_subsets()[rj] == root);
        }
        lemma_stars_for_root_sound(root, degree, j);
        assert(spec_stars_from_roots(degree, rj)[j] == here[j]);
    } else {
        lemma_stars_from_roots_sound(degree, rj + 1, j - here.len());
        assert(spec_stars_from_roots(degree, rj)[j] == spec_stars_from_roots(degree, rj + 1)[j
            - here.len()]);
    }
}

/// Generates all stars of a given `degree`: a root with a color subset from
/// the root table, and `degree` leaf neighbors, each carrying a subset-table
/// color set intersecting the root's and a halfedge count in `2..=degree`.
/// Neighbors are an unordered multiset: each multiset appears exactly once.
pub fn generate_stars(degree: usize) -> (r: Vec<Star>)
    requires
        degree <= u8::MAX as usize,
    ensures
        star_views(r@) == spec_generate_stars(degree),
{
    let mut out: Vec<Star> = Vec::new();
    if degree < 2 {
        proof {
            assert(star_views(out@) =~= spec_generate_stars(degree));
        }
        return out;
    }
    let roots = root_color_subsets();
    let subsets = color_subsets_ge2();
    proof {
        assert(star_views(out@) + spec_stars_from_roots(degree, 0) =~= spec_stars_from_roots(
            degree,
            0,
        ));
    }
    let mut ri: usize = 0;
    while ri < 3
        invariant
            2 <= degree <= 255,
            ri <= 3,
            roots@ == spec_root_color_subsets(),
            subsets@ == spec_color_subsets_ge2(),
            star_views(out@) + spec_stars_from_roots(degree, ri as int) == spec_stars_from_roots(
                degree,
                0,
            ),
        decreases 3 - ri,
    {
        let root = roots[ri];
        let mut types: Vec<(u8, u8)> = Vec::new();
        let mut j: usize = 0;
        while j < 11
            invariant
                2 <= degree <= 255,
                j <= 11,
                subsets@ == spec_color_subsets_ge2(),
                types@ + spec_neighbor_types_from(root, degree, j as int) == spec_neighbor_types(
                    root,
                    degree,
                ),
            decreases 11 - j,
        {
            let c = subsets[j];
            if intersects(root, c) {
                let ghost types_start = types@;
                let mut h: usize = 2;
                while h <= degree
                    invariant
                        2 <= degree <= 255,
                        2 <= h <= degree + 1,
                        types@ =~= types_start + Seq::new((h - 2) as nat, |i: int| (c, (i
                            + 2) as u8)),
                    decreases degree + 1 - h,
                {
                    types.push((c, h as u8));
                    assert(types@ =~= types_start + Seq::new((h - 1) as nat, |i: int| (c, (i
                        + 2) as u8)));
                    h += 1;
                }
                proof {
                    assert(types@ =~= types_start + spec_halfedge_types(c, degree));
                    assert(types@ + spec_neighbor_types_from(root, degree, j as int + 1)
                        =~= types_start + spec_neighbor_types_from(root, degree, j as int));
                }
            } else {
                proof {
                    assert(types@ + spec_neighbor_types_from(root, degree, j as int + 1)
                        =~= types@ + spec_neighbor_types_from(root, degree, j as int));
                }
            }
            j += 1;
        }
        proof {
            assert(types@ =~= spec_neighbor_types(root, degree));
        }
        let ghost stars_root = spec_stars_for_root(root, degree);
        let ghost done = star_views(out@);
        if types.len() > 0 {
            let t = types.len() - 1;
            let choices = nondecreasing_sequences(t, degree);
            proof {
                assert(stars_root == spec_nds(0, t, degree as nat).map_values(
                    |choice: Seq<usize>| spec_star_from(root, types@, choice),
                ));
                assert(done + stars_root.take(0) =~= done);
            }
            let mut cj: usize = 0;
            while cj < choices.len()
                invariant
                    2 <= degree <= 255,
                    types@ == spec_neighbor_types(root, degree),
                    types@.len() >= 1,
                    t == types@.len() - 1,
                    choices@.len() == spec_nds(0, t, degree as nat).len(),
                    forall|q: int|
                        0 <= q < choices@.len() ==> choices@[q]@ == spec_nds(0, t, degree as nat)[q],
                    stars_root == spec_nds(0, t, degree as nat).map_values(
                        |choice: Seq<usize>| spec_star_from(root, types@, choice),
                    ),
                    cj <= choices@.len(),
                    star_views(out@) == done + stars_root.take(cj as int),
                decreases choices@.len() - cj,
            {
                let choice = &choices[cj];
                proof {
                    lemma_nds_sound(0, t, degree as nat, cj as int);
                }
                let mut nc: Vec<u8> = Vec::new();
                let mut nh: Vec<u8> = Vec::new();
                let mut k: usize = 0;
                while k < choice.len()
                    invariant
                        k <= choice@.len(),
                        choice@ == spec_nds(0, t, degree as nat)[cj as int],
                        0 <= cj < spec_nds(0, t, degree as nat).len(),
                        forall|a: int, b: int|
                            0 <= a <= b < choice@.len() ==> 0 <= #[trigger] choice@[a]
                                <= #[trigger] choice@[b] <= t,
                        t == types@.len() - 1,
                        types@.len() >= 1,
                        nc@ =~= choice@.take(k as int).map_values(|i: usize| types@[i as int].0),
                        nh@ =~= choice@.take(k as int).map_values(|i: usize| types@[i as int].1),
                    decreases choice@.len() - k,
                {
                    let idx = choice[k];
                    assert(choice@[k as int] <= t);
                    nc.push(types[idx].0);
                    nh.push(types[idx].1);
                    assert(choice@.take(k as int + 1) =~= choice@.take(k as int).push(
                        choice@[k as int],
                    ));
                    assert(nc@ =~= choice@.take(k as int + 1).map_values(
                        |i: usize| types@[i as int].0,
                    ));
                    assert(nh@ =~= choice@.take(k as int + 1).map_values(
                        |i: usize| types@[i as int].1,
                    ));
                    k += 1;
                }
                let star = Star { root_colors: root, neighbor_colors: nc, neighbor_halfedges: nh };
                proof {
                    assert(choice@.take(choice@.len() as int) =~= choice@);
                    assert(star@.neighbor_colors =~= spec_star_from(
                        root,
                        types@,
                        choice@,
                    ).neighbor_colors);
                    assert(star@.neighbor_halfedges =~= spec_star_from(
                        root,
                        types@,
                        choice@,
                    ).neighbor_halfedges);
                    assert(star@ == spec_star_from(root, types@, choice@));
                    assert(stars_root[cj as int] == spec_star_from(root, types@, choice@));
                }
                let ghost prev_views = star_views(out@);
                let ghost star_v = star@;
                out.push(star);
                proof {
                    assert(star_views(out@) =~= prev_views.push(star_v));
                    assert(stars_root.take(cj as int + 1) =~= stars_root.take(cj as int).push(
                        stars_root[cj as int],
                    ));
                    assert(star_views(out@) =~= done + stars_root.take(cj as int + 1));
                }
                cj += 1;
            }
            proof {
                assert(stars_root.take(stars_root.len() as int) =~= stars_root);
                assert(star_views(out@) == done + stars_root);
            }
        } else {
            proof {
                assert(stars_root =~= Seq::<StarView>::empty());
                assert(star_views(out@) =~= done + stars_root);
            }
        }
        proof {
            assert(star_views(out@) + spec_stars_from_roots(degree, ri as int + 1) =~= (done
                + spec_stars_from_roots(degree, ri as int)));
        }
        ri += 1;
    }
    proof {
        assert(star_views(out@) =~= spec_stars_from_roots(degree, 0));
    }
    out
}

/// The lowercase hexadecimal rendering of a byte, without leading zeros.
pub fn hex(i: u8) -> (r: String)
    ensures
        r@ == spec_hex(i),
{
    let mut s = String::new();
    push_hex(&mut s, i);
    proof {
        assert(s@ =~= spec_hex(i));
    }
    s
}

/// The concatenated hexadecimal renderings of a sequence of bytes.
pub open spec fn spec_hex_concat(v: Seq<u8>) -> Seq<char>
    decreases v.len(),
{
    if v.len() == 0 {
        Seq::empty()
    } else {
        spec_hex_concat(v.drop_last()) + spec_hex(v.last())
    }
}

/// The canonical compact text encoding of a star.
pub open spec fn spec_star_string(s: StarView) -> Seq<char> {
    "star_"@ + spec_dec(s.neighbor_colors.len() as int) + "_"@ + spec_hex(s.root_colors)
        + spec_hex_concat(s.neighbor_colors) + "_"@ + "0"@ + spec_hex_concat(s.neighbor_halfedges)
}

/// Renders a star as its compact text encoding: its degree, the root color
/// set, each neighbor's color set, and each neighbor's halfedge count, all
/// in fixed positions.
pub fn star_to_string(star: &Star) -> (r: Option<String>)
    requires
        star_wf(star@),
    ensures
        r is Some,
        r.unwrap()@ == spec_star_string(star@),
{
    let degree = star.neighbor_colors.len();
    let mut s = String::new();
    s.append("star_");
    push_dec(&mut s, degree);
    s.append("_");
    push_hex(&mut s, star.root_colors);
    let ghost head = s@;
    let mut i: usize = 0;
    while i < degree
        invariant
            degree == star@.neighbor_colors.len(),
            star_wf(star@),
            i <= degree,
            s@ == head + spec_hex_concat(star@.neighbor_colors.take(i as int)),
        decreases degree - i,
    {
        push_hex(&mut s, star.neighbor_colors[i]);
        proof {
            assert(star@.neighbor_colors.take(i as int + 1).drop_last() =~= star@
                .neighbor_colors.take(i as int));
            assert(s@ =~= head + spec_hex_concat(star@.neighbor_colors.take(i as int + 1)));
        }
        i += 1;
    }
    proof {
        assert(star@.neighbor_colors.take(degree as int) =~= star@.neighbor_colors);
    }
    s.append("_");
    s.append("0");
    let ghost mid = s@;
    let mut i: usize = 0;
    while i < degree
        invariant
            degree == star@.neighbor_colors.len(),
            star_wf(star@),
            i <= degree,
            s@ == mid + spec_hex_concat(star@.neighbor_halfedges.take(i as int)),
        decreases degree - i,
    {
        push_hex(&mut s, star.neighbor_halfedges[i]);
        proof {
            assert(star@.neighbor_halfedges.take(i as int + 1).drop_last() =~= star@
                .neighbor_halfedges.take(i as int));
            assert(s@ =~= mid + spec_hex_concat(star@.neighbor_halfedges.take(i as int + 1)));
        }
        i += 1;
    }
    proof {
        assert(star@.neighbor_halfedges.take(degree as int) =~= star@.neighbor_halfedges);
        assert(s@ =~= spec_star_string(star@));
    }
    Some(s)
}

} // verus!
