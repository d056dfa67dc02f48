//! Colored uniform rooted trees: recursive, memoized enumeration of all
//! valid colorings of the unique tree shape of a given depth and degree,
//! under the constraint that every parent and child share a color. The
//! children of a node are an unordered multiset, picked through the multiset
//! index enumerator so that each coloring appears exactly once.

use vstd::prelude::*;
use crate::colors::COLOR_MASK;
use crate::colors::color_count;
use crate::colors::spec_intersects;
use crate::colors::intersects;
use crate::colors::spec_root_color_subsets;
use crate::colors::spec_color_subsets_ge2;
use crate::colors::root_color_subsets;
use crate::colors::color_subsets_ge2;
use crate::colors::lemma_tables_valid;
use crate::multiset_index::spec_nds;
use crate::multiset_index::nondecreasing_sequences;
use crate::multiset_index::lemma_nds_sound;
use crate::render::spec_dec;
use crate::render::push_dec;
use vstd::string::StringExecFns;

verus! {

/// A node in a uniform rooted tree.
#[derive(Debug, PartialEq, Eq, Hash)]
pub struct Node {
    /// Bitmask over colors `{0,1,2,3}`; bit `i` set means color `i` is present.
    pub colors: u8,
    /// Number of dangling halfedges at this node.
    ///
    /// Invariant:
    /// - If `children` is non-empty, then `halfedges == 0`.
    /// - If `children` is empty (leaf), then `halfedges >= 2` (and enumeration
    ///   additionally enforces `halfedges <= degree`).
    pub halfedges: u8,
    pub children: Vec<Node>,
}

/// The mathematical value of a [`Node`]: the same tree over `Seq`.
pub struct NodeView {
    pub colors: u8,
    pub halfedges: u8,
    pub children: Seq<NodeView>,
}

/// The view of a node, taken recursively through its children.
pub open spec fn node_view(n: Node) -> NodeView
    decreases n,
{
    NodeView {
        colors: n.colors,
        halfedges: n.halfedges,
        children: Seq::new(
            n.children@.len(),
            |i: int|
                if 0 <= i < n.children@.len() {
                    node_view(n.children@[i])
                } else {
                    NodeView { colors: 0, halfedges: 0, children: Seq::empty() }
                },
        ),
    }
}

impl View for Node {
    type V = NodeView;

    open spec fn view(&self) -> NodeView {
        node_view(*self)
    }
}

/// The views of a sequence of nodes.
pub open spec fn node_views(s: Seq<Node>) -> Seq<NodeView> {
    s.map_values(|n: Node| node_view(n))
}

impl Node {
    /// An internal node: it has children and no dangling halfedges.
    pub fn new_internal(colors: u8, children: Vec<Node>) -> (r: Node)
        requires
            colors != 0,
            colors <= COLOR_MASK,
            color_count(colors) >= 2,
            children@.len() > 0,
        ensures
            r@.colors == colors,
            r@.halfedges == 0,
            r@.children == node_views(children@),
    {
        let r = Node { colors, halfedges: 0, children };
        proof {
            assert(r@.children =~= node_views(r.children@));
        }
        r
    }

    /// A leaf: no children, and at least 2 dangling halfedges.
    pub fn new_leaf(colors: u8, halfedges: u8) -> (r: Node)
        requires
            colors != 0,
            colors <= COLOR_MASK,
            color_count(colors) >= 2,
            halfedges >= 2,
        ensures
            r@.colors == colors,
            r@.halfedges == halfedges,
            r@.children == Seq::<NodeView>::empty(),
    {
        let r = Node { colors, halfedges, children: Vec::new() };
        proof {
            assert(r@.children =~= Seq::<NodeView>::empty());
        }
        r
    }
}

/// A deep copy of a node.
fn clone_node(n: &Node) -> (r: Node)
    ensures
        r@ == n@,
    decreases *n,
{
    let mut children: Vec<Node> = Vec::new();
    let mut i: usize = 0;
    while i < n.children.len()
        invariant
            i <= n.children@.len(),
            children@.len() == i,
            forall|j: int| 0 <= j < i ==> #[trigger] children@[j]@ == n.children@[j]@,
        decreases n.children@.len() - i,
    {
        let c = clone_node(&n.children[i]);
        children.push(c);
        i += 1;
    }
    let r = Node { colors: n.colors, halfedges: n.halfedges, children };
    proof {
        assert forall|j: int| 0 <= j < r.children@.len() implies r@.children[j] == n@.children[j] by {
            assert(r.children@[j]@ == n.children@[j]@);
        }
        assert(r@.children =~= n@.children);
    }
    r
}

/// A deep copy of a sequence of nodes.
fn clone_nodes(v: &Vec<Node>) -> (r: Vec<Node>)
    ensures
        node_views(r@) == node_views(v@),
    decreases v@.len(),
{
    let mut r: Vec<Node> = Vec::new();
    let mut i: usize = 0;
    while i < v.len()
        invariant
            i <= v@.len(),
            r@.len() == i,
            forall|j: int| 0 <= j < i ==> #[trigger] r@[j]@ == v@[j]@,
        decreases v@.len() - i,
    {
        let c = clone_node(&v[i]);
        r.push(c);
        i += 1;
    }
    proof {
        assert forall|j: int| 0 <= j < r@.len() implies node_views(r@)[j] == node_views(v@)[j] by {
            assert(r@[j]@ == v@[j]@);
        }
        assert(node_views(r@) =~= node_views(v@));
    }
    r
}

/// The leaves contributed by one color set: one per halfedge count in
/// `2..=degree`, in increasing order.
pub open spec fn spec_leaves(c: u8, degree: usize) -> Seq<NodeView> {
    if degree < 2 {
        Seq::empty()
    } else {
        Seq::new(
            (degree - 1) as nat,
            |i: int| (NodeView { colors: c, halfedges: (i + 2) as u8, children: Seq::empty() }),
        )
    }
}

/// The internal node assembled from a color set and a choice of candidate
/// subtrees.
pub open spec fn spec_internal(c: u8, cands: Seq<NodeView>, choice: Seq<usize>) -> NodeView {
    NodeView { colors: c, halfedges: 0, children: choice.map_values(|i: usize| cands[i as int]) }
}

/// All valid subtrees of the given remaining `depth` rooted at a non-root
/// node whose parent carries the color set at `parent_idx` in the subset
/// table. A non-root node has `degree - 1` children (one edge goes to the
/// parent); at depth 0 it is a leaf with a halfedge count in `2..=degree`.
pub open spec fn spec_subtrees(depth: nat, degree: usize, parent_idx: int) -> Seq<NodeView>
    decreases depth, 12int,
{
    spec_subtrees_from(depth, degree, parent_idx, 0)
}

/// The subtrees of [`spec_subtrees`] contributed by the subset table entries
/// from index `j` on, in table order.
pub open spec fn spec_subtrees_from(depth: nat, degree: usize, parent_idx: int, j: int) -> Seq<
    NodeView,
>
    decreases depth, 11 - j,
{
    if j < 0 || j >= 11 || parent_idx < 0 || parent_idx >= 11 {
        Seq::empty()
    } else {
        let parent = spec_color_subsets_ge2()[parent_idx];
        let c = spec_color_subsets_ge2()[j];
        let here = if !spec_intersects(parent, c) {
            Seq::<NodeView>::empty()
        } else if depth == 0 {
            spec_leaves(c, degree)
        } else if degree < 2 {
            Seq::<NodeView>::empty()
        } else {
            let cands = spec_subtrees((depth - 1) as nat, degree, j);
            if cands.len() == 0 {
                Seq::<NodeView>::empty()
            } else {
                spec_nds(0, (cands.len() - 1) as usize, (degree - 1) as nat).map_values(
                    |choice: Seq<usize>| spec_internal(c, cands, choice),
                )
            }
        };
        here + spec_subtrees_from(depth, degree, parent_idx, j + 1)
    }
}

/// All trees with the given root color set (at index `root_idx` in the
/// subset table): the root has `degree` children, or is a leaf at depth 0.
pub open spec fn spec_trees_root(root: u8, root_idx: int, depth: nat, degree: usize) -> Seq<
    NodeView,
> {
    if depth == 0 {
        spec_leaves(root, degree)
    } else {
        let cands = spec_subtrees((depth - 1) as nat, degree, root_idx);
        if cands.len() == 0 {
            Seq::<NodeView>::empty()
        } else {
            spec_nds(0, (cands.len() - 1) as usize, degree as nat).map_values(
                |choice: Seq<usize>| spec_internal(root, cands, choice),
            )
        }
    }
}

/// The trees of the root table entries from index `j` on, in table order.
pub open spec fn spec_trees_from(depth: nat, degree: usize, j: int) -> Seq<NodeView>
    decreases 3 - j,
{
    if j < 0 || j >= 3 {
        Seq::empty()
    } else {
        let root = spec_root_color_subsets()[j];
        let idx: int = if j == 0 {
            0
        } else if j == 1 {
            1
        } else {
            5
        };
        spec_trees_root(root, idx, depth, degree) + spec_trees_from(depth, degree, j + 1)
    }
}

/// All colorings of the uniform tree of the given depth and degree, for the
/// three legal root color sets, in table order. Degrees below 2 admit no
/// valid leaf, and yield nothing.
pub open spec fn spec_generate_trees(depth: nat, degree: usize) -> Seq<NodeView> {
    if degree < 2 {
        Seq::empty()
    } else {
        spec_trees_from(depth, degree, 0)
    }
}

/// The memo cache of the recursive subtree generator, keyed by (remaining
/// depth, parent color-subset index); the degree is fixed for the lifetime
/// of one top-level call. Entries are computed once and cloned on reuse.
pub struct SubtreeCache {
    entries: Vec<Vec<Option<Vec<Node>>>>,
}

/// A cache entry is either absent or exactly the memoized enumeration
/// result for its key.
pub closed spec fn cache_entry_ok(e: Option<Vec<Node>>, d: int, degree: usize, i: int) -> bool {
    match e {
        Option::None => true,
        Option::Some(v) => node_views(v@) == spec_subtrees(d as nat, degree, i),
    }
}

/// Every present cache entry holds the enumeration result for its key.
pub closed spec fn cache_wf(c: SubtreeCache, degree: usize) -> bool {
    (forall|d: int| 0 <= d < c.entries@.len() ==> #[trigger] c.entries@[d]@.len() == 11)
        && (forall|d: int, i: int|
        0 <= d < c.entries@.len() && 0 <= i < 11 ==> cache_entry_ok(
            #[trigger] c.entries@[d]@[i],
            d,
            degree,
            i,
        ))
}

impl SubtreeCache {
    /// An empty cache, usable for any degree.
    pub fn new() -> (r: SubtreeCache)
        ensures
            forall|degree: usize| cache_wf(r, degree),
    {
        SubtreeCache { entries: Vec::new() }
    }
}

/// Grows the cache so that row `depth` exists, without losing entries.
fn cache_ensure_depth(cache: &mut SubtreeCache, depth: usize, Ghost(degree): Ghost<usize>)
    requires
        cache_wf(*old(cache), degree),
    ensures
        cache_wf(*final(cache), degree),
        final(cache).entries@.len() > depth,
        forall|d: int|
            0 <= d < old(cache).entries@.len() ==> #[trigger] final(cache).entries@[d]
                == old(cache).entries@[d],
    decreases 0int,
{
    while cache.entries.len() <= depth
        invariant
            cache_wf(*cache, degree),
            forall|d: int|
                0 <= d < old(cache).entries@.len() ==> #[trigger] cache.entries@[d] == old(
                    cache,
                ).entries@[d],
            cache.entries@.len() >= old(cache).entries@.len(),
        decreases depth + 1 - cache.entries@.len(),
    {
        let mut row: Vec<Option<Vec<Node>>> = Vec::new();
        let mut i: usize = 0;
        while i < 11
            invariant
                i <= 11,
                row@.len() == i,
                forall|p: int| 0 <= p < i ==> #[trigger] row@[p] is None,
            decreases 11 - i,
        {
            row.push(None);
            i += 1;
        }
        cache.entries.push(row);
    }
}

/// Enumerates all valid subtrees of the given remaining `depth` whose parent
/// carries the color set at `parent_color_idx` in the subset table, reusing
/// memoized results where the cache already holds the answer for the key.
pub fn generate_subtrees_with_parent(
    depth: usize,
    degree: usize,
    parent_color_idx: usize,
    cache: &mut SubtreeCache,
) -> (r: Vec<Node>)
    requires
        parent_color_idx < 11,
        degree <= u8::MAX as usize,
        cache_wf(*old(cache), degree),
    ensures
        cache_wf(*final(cache), degree),
        node_views(r@) == spec_subtrees(depth as nat, degree, parent_color_idx as int),
    decreases depth,
{
    cache_ensure_depth(cache, depth, Ghost(degree));
    let hit = {
        let entry = &cache.entries[depth][parent_color_idx];
        entry.is_some()
    };
    if hit {
        let entry = &cache.entries[depth][parent_color_idx];
        match entry {
            Some(v) => {
                return clone_nodes(v);
            },
            None => {
                proof {
                    assert(false);
                }
            },
        }
    }
    let subsets = color_subsets_ge2();
    let parent_colors = subsets[parent_color_idx];
    proof {
        lemma_tables_valid();
    }
    let mut out: Vec<Node> = Vec::new();
    let ghost pidx = parent_color_idx as int;
    proof {
        assert(node_views(out@) + spec_subtrees_from(depth as nat, degree, pidx, 0)
            =~= spec_subtrees(depth as nat, degree, pidx));
    }
    let mut j: usize = 0;
    while j < 11
        invariant
            j <= 11,
            subsets@ == spec_color_subsets_ge2(),
            parent_colors == spec_color_subsets_ge2()[pidx],
            pidx == parent_color_idx as int,
            0 <= pidx < 11,
            degree <= 255,
            cache_wf(*cache, degree),
            forall|i: int|
                0 <= i < 11 ==> #[trigger] crate::colors::valid_color_set(
                    spec_color_subsets_ge2()[i],
                ),
            node_views(out@) + spec_subtrees_from(depth as nat, degree, pidx, j as int)
                == spec_subtrees(depth as nat, degree, pidx),
        decreases 11 - j,
    {
        let c = subsets[j];
        let ghost done = node_views(out@);
        let ghost here = {
            if !spec_intersects(spec_color_subsets_ge2()[pidx], c) {
                Seq::<NodeView>::empty()
            } else if depth == 0 {
                spec_leaves(c, degree)
            } else if degree < 2 {
                Seq::<NodeView>::empty()
            } else {
                let cands = spec_subtrees((depth - 1) as nat, degree, j as int);
                if cands.len() == 0 {
                    Seq::<NodeView>::empty()
                } else {
                    spec_nds(0, (cands.len() - 1) as usize, (degree - 1) as nat).map_values(
                        |choice: Seq<usize>| spec_internal(c, cands, choice),
                    )
                }
            }
        };
        proof {
            assert(spec_subtrees_from(depth as nat, degree, pidx, j as int) == here
                + spec_subtrees_from(depth as nat, degree, pidx, j as int + 1));
        }
        if intersects(parent_colors, c) {
            if depth == 0 {
                if degree >= 2 {
                    let mut h: usize = 2;
                    while h <= degree
                        invariant
                            2 <= degree <= 255,
                            2 <= h <= degree + 1,
                            crate::colors::valid_color_set(c),
                            here == spec_leaves(c, degree),
                            node_views(out@) =~= done + Seq::new(
                                (h - 2) as nat,
                                |i: int|
                                    (NodeView {
                                        colors: c,
                                        halfedges: (i + 2) as u8,
                                        children: Seq::empty(),
                                    }),
                            ),
                        decreases degree + 1 - h,
                    {
                        let leaf = Node::new_leaf(c, h as u8);
                        let ghost prev_views = node_views(out@);
                        let ghost leaf_v = leaf@;
                        out.push(leaf);
                        proof {
                            assert(node_views(out@) =~= prev_views.push(leaf_v));
                            assert(node_views(out@) =~= done + Seq::new(
                                (h - 1) as nat,
                                |i: int|
                                    (NodeView {
                                        colors: c,
                                        halfedges: (i + 2) as u8,
                                        children: Seq::empty(),
                                    }),
                            ));
                        }
                        h += 1;
                    }
                    proof {
                        assert(node_views(out@) =~= done + here);
                    }
                } else {
                    proof {
                        assert(node_views(out@) =~= done + here);
                    }
                }
            } else if degree < 2 {
                proof {
                    assert(node_views(out@) =~= done + here);
                }
            } else {
                let cands = generate_subtrees_with_parent(depth - 1, degree, j, cache);
                let ghost cands_v = spec_subtrees((depth - 1) as nat, degree, j as int);
                if cands.len() == 0 {
                    proof {
                        assert(cands_v.len() == 0);
                        assert(node_views(out@) =~= done + here);
                    }
                } else {
                    let t = cands.len() - 1;
                    let choices = nondecreasing_sequences(t, degree - 1);
                    proof {
                        assert(here == spec_nds(0, t, (degree - 1) as nat).map_values(
                            |choice: Seq<usize>| spec_internal(c, cands_v, choice),
                        ));
                        assert(done + here.take(0) =~= done);
                    }
                    let mut cj: usize = 0;
                    while cj < choices.len()
                        invariant
                            2 <= degree <= 255,
                            crate::colors::valid_color_set(c),
                            cands@.len() >= 1,
                            t == cands@.len() - 1,
                            node_views(cands@) == cands_v,
                            cands_v.len() == cands@.len(),
                            choices@.len() == spec_nds(0, t, (degree - 1) as nat).len(),
                            forall|q: int|
                                0 <= q < choices@.len() ==> choices@[q]@ == spec_nds(
                                    0,
                                    t,
                                    (degree - 1) as nat,
                                )[q],
                            here == spec_nds(0, t, (degree - 1) as nat).map_values(
                                |choice: Seq<usize>| spec_internal(c, cands_v, choice),
                            ),
                            cj <= choices@.len(),
                            node_views(out@) == done + here.take(cj as int),
                        decreases choices@.len() - cj,
                    {
                        let choice = &choices[cj];
                        proof {
                            lemma_nds_sound(0, t, (degree - 1) as nat, cj as int);
                        }
                        let mut children: Vec<Node> = Vec::new();
                        let mut k: usize = 0;
                        while k < choice.len()
                            invariant
                                k <= choice@.len(),
                                choice@ == spec_nds(0, t, (degree - 1) as nat)[cj as int],
                                0 <= cj < spec_nds(0, t, (degree - 1) as nat).len(),
                                forall|a: int, b: int|
                                    0 <= a <= b < choice@.len() ==> 0 <= #[trigger] choice@[a]
                                        <= #[trigger] choice@[b] <= t,
                                t == cands@.len() - 1,
                                cands@.len() >= 1,
                                node_views(cands@) == cands_v,
                                cands_v.len() == cands@.len(),
                                children@.len() == k,
                                forall|p: int|
                                    0 <= p < k ==> #[trigger] children@[p]@ == cands_v[choice@[p] as int],
                            decreases choice@.len() - k,
                        {
                            let idx = choice[k];
                            assert(choice@[k as int] <= t);
                            let child = clone_node(&cands[idx]);
                            proof {
                                assert(node_views(cands@)[idx as int] == cands@[idx as int]@);
                            }
                            children.push(child);
                            k += 1;
                        }
                        let node = Node::new_internal(c, children);
                        proof {
                            assert(choice@.take(choice@.len() as int) =~= choice@);
                            assert forall|p: int|
                                0 <= p < children@.len() implies node_views(children@)[p]
                                == cands_v[choice@[p] as int] by {
                                assert(children@[p]@ == cands_v[choice@[p] as int]);
                            }
                            assert(node@.children =~= spec_internal(c, cands_v, choice@).children);
                            assert(node@ == spec_internal(c, cands_v, choice@));
                            assert(here[cj as int] == spec_internal(c, cands_v, choice@));
                        }
                        let ghost prev_views = node_views(out@);
                        let ghost node_v = node@;
                        out.push(node);
                        proof {
                            assert(node_views(out@) =~= prev_views.push(node_v));
                            assert(here.take(cj as int + 1) =~= here.take(cj as int).push(
                                here[cj as int],
                            ));
                            assert(node_views(out@) =~= done + here.take(cj as int + 1));
                        }
                        cj += 1;
                    }
                    proof {
                        assert(here.take(here.len() as int) =~= here);
                        assert(node_views(out@) == done + here);
                    }
                }
            }
        } else {
            proof {
                assert(node_views(out@) =~= done + here);
            }
        }
        proof {
            assert(node_views(out@) + spec_subtrees_from(depth as nat, degree, pidx, j as int + 1)
                =~= done + spec_subtrees_from(depth as nat, degree, pidx, j as int));
        }
        j += 1;
    }
    proof {
        assert(spec_subtrees_from(depth as nat, degree, pidx, 11) =~= Seq::<NodeView>::empty());
        assert(node_views(out@) =~= spec_subtrees(depth as nat, degree, pidx));
    }
    cache_ensure_depth(cache, depth, Ghost(degree));
    let stored = clone_nodes(&out);
    let ghost cache_before = *cache;
    cache.entries[depth][parent_color_idx] = Some(stored);
    proof {
        assert(cache.entries@[depth as int]@ == cache_before.entries@[depth as int]@.update(
            parent_color_idx as int,
            cache.entries@[depth as int]@[parent_color_idx as int],
        ));
        assert(cache_entry_ok(
            cache.entries@[depth as int]@[parent_color_idx as int],
            depth as int,
            degree,
            parent_color_idx as int,
        ));
        assert forall|d: int, i: int| 0 <= d < cache.entries@.len() && 0 <= i < 11 implies
            cache_entry_ok(#[trigger] cache.entries@[d]@[i], d, degree, i) by {
            if d == depth as int && i == parent_color_idx as int {
            } else {
                assert(cache_entry_ok(cache_before.entries@[d]@[i], d, degree, i));
            }
        }
    }
    out
}

/// Generates all colorings of the unique uniform tree of the given `depth`
/// and `degree`.
///
/// - `depth` counts edges from the root to a leaf (so `depth == 0` yields a
///   single node).
/// - `degree` includes the edge to the parent, so the root has `degree`
///   children and every other internal node has `degree - 1` children.
/// - Colors are chosen from the subset table; for every parent/child edge
///   the two color sets intersect.
/// - Degrees below 2 yield the empty sequence.
pub fn generate_colored_uniform_trees(depth: usize, degree: usize) -> (r: Vec<Node>)
    requires
        degree <= u8::MAX as usize,
    ensures
        node_views(r@) == spec_generate_trees(depth as nat, degree),
{
    let mut out: Vec<Node> = Vec::new();
    if degree < 2 {
        proof {
            assert(node_views(out@) =~= spec_generate_trees(depth as nat, degree));
        }
        return out;
    }
    let roots = root_color_subsets();
    let mut cache = SubtreeCache::new();
    proof {
        lemma_tables_valid();
        assert(node_views(out@) + spec_trees_from(depth as nat, degree, 0) =~= spec_trees_from(
            depth as nat,
            degree,
            0,
        ));
    }
    let mut ri: usize = 0;
    while ri < 3
        invariant
            2 <= degree <= 255,
            ri <= 3,
            roots@ == spec_root_color_subsets(),
            cache_wf(cache, degree),
            forall|i: int|
                0 <= i < 11 ==> #[trigger] crate::colors::valid_color_set(
                    spec_color_subsets_ge2()[i],
                ),
            spec_root_color_subsets()[0] == spec_color_subsets_ge2()[0],
            spec_root_color_subsets()[1] == spec_color_subsets_ge2()[1],
            spec_root_color_subsets()[2] == spec_color_subsets_ge2()[5],
            node_views(out@) + spec_trees_from(depth as nat, degree, ri as int) == spec_trees_from(
                depth as nat,
                degree,
                0,
            ),
        decreases 3 - ri,
    {
        let root = roots[ri];
        let root_idx: usize = if ri == 0 {
            0
        } else if ri == 1 {
            1
        } else {
            5
        };
        proof {
            assert(root == spec_color_subsets_ge2()[root_idx as int]);
            assert(crate::colors::valid_color_set(root));
        }
        let ghost done = node_views(out@);
        let ghost here = spec_trees_root(root, root_idx as int, depth as nat, degree);
        if depth == 0 {
            let mut h: usize = 2;
            while h <= degree
                invariant
                    2 <= degree <= 255,
                    2 <= h <= degree + 1,
                    crate::colors::valid_color_set(root),
                    here == spec_leaves(root, degree),
                    node_views(out@) =~= done + Seq::new(
                        (h - 2) as nat,
                        |i: int|
                            (NodeView {
                                colors: root,
                                halfedges: (i + 2) as u8,
                                children: Seq::empty(),
                            }),
                    ),
                decreases degree + 1 - h,
            {
                let leaf = Node::new_leaf(root, h as u8);
                let ghost prev_views = node_views(out@);
                let ghost leaf_v = leaf@;
                out.push(leaf);
                proof {
                    assert(node_views(out@) =~= prev_views.push(leaf_v));
                    assert(node_views(out@) =~= done + Seq::new(
                        (h - 1) as nat,
                        |i: int|
                            (NodeView {
                                colors: root,
                                halfedges: (i + 2) as u8,
                                children: Seq::empty(),
                            }),
                    ));
                }
                h += 1;
            }
            proof {
                assert(node_views(out@) =~= done + here);
            }
        } else {
            let cands = generate_subtrees_with_parent(depth - 1, degree, root_idx, &mut cache);
            let ghost cands_v = spec_subtrees((depth - 1) as nat, degree, root_idx as int);
            if cands.len() == 0 {
                proof {
                    assert(cands_v.len() == 0);
                    assert(node_views(out@) =~= done + here);
                }
            } else {
                let t = cands.len() - 1;
                let choices = nondecreasing_sequences(t, degree);
                proof {
                    assert(here == spec_nds(0, t, degree as nat).map_values(
                        |choice: Seq<usize>| spec_internal(root, cands_v, choice),
                    ));
                    assert(done + here.take(0) =~= done);
                }
                let mut cj: usize = 0;
                while cj < choices.len()
                    invariant
                        2 <= degree <= 255,
                        crate::colors::valid_color_set(root),
                        cands@.len() >= 1,
                        t == cands@.len() - 1,
                        node_views(cands@) == cands_v,
                        cands_v.len() == cands@.len(),
                        choices@.len() == spec_nds(0, t, degree as nat).len(),
                        forall|q: int|
                            0 <= q < choices@.len() ==> choices@[q]@ == spec_nds(
                                0,
                                t,
                                degree as nat,
                            )[q],
                        here == spec_nds(0, t, degree as nat).map_values(
                            |choice: Seq<usize>| spec_internal(root, cands_v, choice),
                        ),
                        cj <= choices@.len(),
                        node_views(out@) == done + here.take(cj as int),
                    decreases choices@.len() - cj,
                {
                    let choice = &choices[cj];
                    proof {
                        lemma_nds_sound(0, t, degree as nat, cj as int);
                    }
                    let mut children: Vec<Node> = Vec::new();
                    let mut k: usize = 0;
                    while k < choice.len()
                        invariant
                            k <= choice@.len(),
                            choice@ == spec_nds(0, t, degree as nat)[cj as int],
                            0 <= cj < spec_nds(0, t, degree as nat).len(),
                            forall|a: int, b: int|
                                0 <= a <= b < choice@.len() ==> 0 <= #[trigger] choice@[a]
                                    <= #[trigger] choice@[b] <= t,
                            t == cands@.len() - 1,
                            cands@.len() >= 1,
                            node_views(cands@) == cands_v,
                            cands_v.len() == cands@.len(),
                            children@.len() == k,
                            forall|p: int|
                                0 <= p < k ==> #[trigger] children@[p]@ == cands_v[choice@[p] as int],
                        decreases choice@.len() - k,
                    {
                        let idx = choice[k];
                        assert(choice@[k as int] <= t);
                        let child = clone_node(&cands[idx]);
                        proof {
                            assert(node_views(cands@)[idx as int] == cands@[idx as int]@);
                        }
                        children.push(child);
                        k += 1;
                    }
                    let node = Node::new_internal(root, children);
                    proof {
                        assert(choice@.take(choice@.len() as int) =~= choice@);
                        assert forall|p: int|
                            0 <= p < children@.len() implies node_views(children@)[p]
                            == cands_v[choice@[p] as int] by {
                            assert(children@[p]@ == cands_v[choice@[p] as int]);
                        }
                        assert(node@.children =~= spec_internal(root, cands_v, choice@).children);
                        assert(node@ == spec_internal(root, cands_v, choice@));
                        assert(here[cj as int] == spec_internal(root, cands_v, choice@));
                    }
                    let ghost prev_views = node_views(out@);
                    let ghost node_v = node@;
                    out.push(node);
                    proof {
                        assert(node_views(out@) =~= prev_views.push(node_v));
                        assert(here.take(cj as int + 1) =~= here.take(cj as int).push(
                            here[cj as int],
                        ));
                        assert(node_views(out@) =~= done + here.take(cj as int + 1));
                    }
                    cj += 1;
                }
                proof {
                    assert(here.take(here.len() as int) =~= here);
                    assert(node_views(out@) == done + here);
                }
            }
        }
        proof {
            assert(node_views(out@) + spec_trees_from(depth as nat, degree, ri as int + 1) =~= done
                + spec_trees_from(depth as nat, degree, ri as int));
        }
        ri += 1;
    }
    proof {
        assert(node_views(out@) =~= spec_trees_from(depth as nat, degree, 0));
    }
    out
}

/// What a valid non-root subtree of the given remaining depth looks like: a
/// valid subset-table color set everywhere; at depth 0 a leaf with a
/// halfedge count in `2..=degree`; at positive depth an internal node with
/// no halfedges and exactly `degree - 1` children, each sharing a color with
/// it and valid one level down.
pub open spec fn valid_subtree(n: NodeView, degree: usize, depth: nat) -> bool
    decreases depth,
{
    &&& spec_color_subsets_ge2().contains(n.colors)
    &&& if depth == 0 {
        n.children.len() == 0 && 2 <= n.halfedges <= degree
    } else {
        &&& n.halfedges == 0
        &&& n.children.len() == degree - 1
        &&& forall|i: int|
            0 <= i < n.children.len() ==> spec_intersects(n.colors, #[trigger] n.children[i].colors)
                && valid_subtree(n.children[i], degree, (depth - 1) as nat)
    }
}

/// Like [`valid_subtree`], but for the root, which has `degree` children.
pub open spec fn valid_root_tree(n: NodeView, degree: usize, depth: nat) -> bool {
    &&& spec_root_color_subsets().contains(n.colors)
    &&& if depth == 0 {
        n.children.len() == 0 && 2 <= n.halfedges <= degree
    } else {
        &&& n.halfedges == 0
        &&& n.children.len() == degree
        &&& forall|i: int|
            0 <= i < n.children.len() ==> spec_intersects(n.colors, #[trigger] n.children[i].colors)
                && valid_subtree(n.children[i], degree, (depth - 1) as nat)
    }
}

/// Every enumerated subtree is valid, and shares a color with its parent.
#[verifier::rlimit(50)]
proof fn lemma_subtrees_sound(depth: nat, degree: usize, parent_idx: int, j: int, k: int)
    requires
        2 <= degree <= u8::MAX as usize,
        0 <= k < spec_subtrees_from(depth, degree, parent_idx, j).len(),
    ensures
        valid_subtree(spec_subtrees_from(depth, degree, parent_idx, j)[k], degree, depth),
        spec_intersects(
            spec_color_subsets_ge2()[parent_idx],
            spec_subtrees_from(depth, degree, parent_idx, j)[k].colors,
        ),
    decreases depth, 11 - j,
{
    let parent = spec_color_subsets_ge2()[parent_idx];
    let c = spec_color_subsets_ge2()[j];
    let whole = spec_subtrees_from(depth, degree, parent_idx, j);
    let here = if !spec_intersects(parent, c) {
        Seq::<NodeView>::empty()
    } else if depth == 0 {
        spec_leaves(c, degree)
    } else {
        let cands = spec_subtrees((depth - 1) as nat, degree, j);
        if cands.len() == 0 {
            Seq::<NodeView>::empty()
        } else {
            spec_nds(0, (cands.len() - 1) as usize, (degree - 1) as nat).map_values(
                |choice: Seq<usize>| spec_internal(c, cands, choice),
            )
        }
    };
    if k >= here.len() {
        lemma_subtrees_sound(depth, degree, parent_idx, j + 1, k - here.len());
        assert(whole[k] == spec_subtrees_from(depth, degree, parent_idx, j + 1)[k - here.len()]);
        assert(valid_subtree(whole[k], degree, depth));
        assert(spec_intersects(parent, whole[k].colors));
    } else {
        assert(spec_color_subsets_ge2().contains(c)) by {
            assert(spec_color_subsets_ge2()[j] == c);
        }
        if depth == 0 {
            assert(whole[k] == here[k]);
            assert(valid_subtree(whole[k], degree, depth));
            assert(spec_intersects(parent, whole[k].colors));
        } else {
            let cands = spec_subtrees((depth - 1) as nat, degree, j);
            let t = (cands.len() - 1) as usize;
            let choice = spec_nds(0, t, (degree - 1) as nat)[k];
            lemma_nds_sound(0, t, (degree - 1) as nat, k);
            assert(whole[k] == spec_internal(c, cands, choice));
            let n = spec_internal(c, cands, choice);
            assert forall|i: int|
                0 <= i < n.children.len() implies spec_intersects(
                n.colors,
                #[trigger] n.children[i].colors,
            ) && valid_subtree(n.children[i], degree, (depth - 1) as nat) by {
                assert(0 <= choice[i] <= t);
                assert(n.children[i] == cands[choice[i] as int]);
                lemma_subtrees_sound((depth - 1) as nat, degree, j, 0, choice[i] as int);
            }
            assert(n.children.len() == degree - 1);
            assert(n.halfedges == 0);
            assert(spec_color_subsets_ge2().contains(n.colors));
            assert(valid_subtree(n, degree, depth));
            assert(spec_intersects(parent, whole[k].colors));
        }
    }
}

/// Soundness law of the tree generator: every generated tree is a valid
/// uniform tree — a root-table root with `degree` children (or a leaf at
/// depth 0), every parent sharing a color with every child, every color set
/// a subset-table entry, and every leaf carrying `2..=degree` halfedges.
pub proof fn lemma_generate_trees_sound(depth: nat, degree: usize, j: int)
    requires
        degree <= u8::MAX as usize,
        0 <= j < spec_generate_trees(depth, degree).len(),
    ensures
        valid_root_tree(spec_generate_trees(depth, degree)[j], degree, depth),
{
    lemma_trees_from_sound(depth, degree, 0, j);
}

/// Soundness of the per-root concatenation.
proof fn lemma_trees_from_sound(depth: nat, degree: usize, rj: int, j: int)
    requires
        2 <= degree <= u8::MAX as usize,
        0 <= j < spec_trees_from(depth, degree, rj).len(),
    ensures
        valid_root_tree(spec_trees_from(depth, degree, rj)[j], degree, depth),
    decreases 3 - rj,
{
    lemma_tables_valid();
    let root = spec_root_color_subsets()[rj];
    let root_idx: int = if rj == 0 {
        0
    } else if rj == 1 {
        1
    } else {
        5
    };
    let here = spec_trees_root(root, root_idx, depth, degree);
    if j >= here.len() {
        lemma_trees_from_sound(depth, degree, rj + 1, j - here.len());
        assert(spec_trees_from(depth, degree, rj)[j] == spec_trees_from(depth, degree, rj + 1)[j
            - here.len()]);
    } else {
        assert(spec_trees_from(depth, degree, rj)[j] == here[j]);
        assert(spec_root_color_subsets().contains(root)) by {
            assert(spec_root_color_subsets()[rj] == root);
        }
        if depth == 0 {
        } else {
            let cands = spec_subtrees((depth - 1) as nat, degree, root_idx);
            let t = (cands.len() - 1) as usize;
            let choice = spec_nds(0, t, degree as nat)[j];
            lemma_nds_sound(0, t, degree as nat, j);
            assert(here[j] == spec_internal(root, cands, choice));
            let n = spec_internal(root, cands, choice);
            assert(root == spec_color_subsets_ge2()[root_idx]);
            assert forall|i: int|
                0 <= i < n.children.len() implies spec_intersects(
                n.colors,
                #[trigger] n.children[i].colors,
            ) && valid_subtree(n.children[i], degree, (depth - 1) as nat) by {
                assert(0 <= choice[i] <= t);
                assert(n.children[i] == cands[choice[i] as int]);
                lemma_subtrees_sound((depth - 1) as nat, degree, root_idx, 0, choice[i] as int);
            }
        }
    }
}

/// Counting law at depth 0: for `degree >= 2` the generator yields exactly
/// `3 * (degree - 1)` leaves — one per root color set and per halfedge count
/// in `2..=degree` — and for `degree < 2` it yields nothing.
pub proof fn lemma_generate_trees_depth0_count(degree: usize)
    ensures
        degree >= 2 ==> spec_generate_trees(0, degree).len() == 3 * (degree - 1),
        degree < 2 ==> spec_generate_trees(0, degree).len() == 0,
{
    if degree >= 2 {
        reveal_with_fuel(spec_trees_from, 5);
        assert(spec_trees_root(spec_root_color_subsets()[0], 0, 0, degree).len() == degree - 1);
        assert(spec_trees_root(spec_root_color_subsets()[1], 1, 0, degree).len() == degree - 1);
        assert(spec_trees_root(spec_root_color_subsets()[2], 5, 0, degree).len() == degree - 1);
    }
}

/// The ascending digits of the colors present in a color set, as characters
/// (color set `{0, 2}` renders as `"02"`).
pub open spec fn spec_color_digits(c: u8) -> Seq<char> {
    (if (c as int) % 2 == 1 {
        seq!['0']
    } else {
        Seq::<char>::empty()
    }) + (if (c as int / 2) % 2 == 1 {
        seq!['1']
    } else {
        Seq::<char>::empty()
    }) + (if (c as int / 4) % 2 == 1 {
        seq!['2']
    } else {
        Seq::<char>::empty()
    }) + (if (c as int / 8) % 2 == 1 {
        seq!['3']
    } else {
        Seq::<char>::empty()
    })
}

/// Renders the ascending color digits of a color set.
pub fn colors_to_digits(colors: u8) -> (r: String)
    ensures
        r@ == spec_color_digits(colors),
{
    let mut s = String::new();
    if colors % 2 == 1 {
        s.append("0");
        proof {
            reveal_strlit("0");
        }
    }
    if (colors / 2) % 2 == 1 {
        s.append("1");
        proof {
            reveal_strlit("1");
        }
    }
    if (colors / 4) % 2 == 1 {
        s.append("2");
        proof {
            reveal_strlit("2");
        }
    }
    if (colors / 8) % 2 == 1 {
        s.append("3");
        proof {
            reveal_strlit("3");
        }
    }
    proof {
        assert(s@ =~= spec_color_digits(colors));
    }
    s
}

/// The compact object rendering of a node: its color bitmask and halfedge
/// count as integers, and its recursively rendered children.
pub open spec fn spec_node_json(n: NodeView) -> Seq<char>
    decreases n,
{
    "{\"colors\":"@ + spec_dec(n.colors as int) + ",\"halfedges\":"@ + spec_dec(
        n.halfedges as int,
    ) + ",\"children\":["@ + spec_children_json(n.children) + "]}"@
}

/// The comma-separated renderings of a sequence of nodes.
pub open spec fn spec_children_json(s: Seq<NodeView>) -> Seq<char>
    decreases s,
{
    if s.len() == 0 {
        Seq::empty()
    } else if s.len() == 1 {
        spec_node_json(s[0])
    } else {
        spec_children_json(s.drop_last()) + seq![','] + spec_node_json(s.last())
    }
}

/// Appends the compact object rendering of a node, recursively.
pub fn node_to_json(node: &Node, out: &mut String)
    ensures
        final(out)@ == old(out)@ + spec_node_json(node@),
    decreases *node,
{
    let ghost prev = out@;
    out.append("{\"colors\":");
    push_dec(out, node.colors as usize);
    out.append(",\"halfedges\":");
    push_dec(out, node.halfedges as usize);
    out.append(",\"children\":[");
    let ghost head = out@;
    let mut i: usize = 0;
    while i < node.children.len()
        invariant
            i <= node.children@.len(),
            out@ == head + spec_children_json(node@.children.take(i as int)),
        decreases node.children@.len() - i,
    {
        if i > 0 {
            out.append(",");
            proof {
                reveal_strlit(",");
            }
        }
        node_to_json(&node.children[i], out);
        proof {
            let pfx = node@.children.take(i as int + 1);
            assert(pfx.drop_last() =~= node@.children.take(i as int));
            assert(pfx.last() == node@.children[i as int]);
            assert(node@.children[i as int] == node.children@[i as int]@);
            if i == 0 {
                assert(out@ =~= head + spec_children_json(pfx));
            } else {
                assert(out@ =~= head + spec_children_json(pfx));
            }
        }
        i += 1;
    }
    proof {
        assert(node@.children.take(node.children@.len() as int) =~= node@.children);
    }
    out.append("]}");
    proof {
        assert(out@ =~= prev + spec_node_json(node@));
    }
}

/// Whether a tree is a true star of the given degree: the root has exactly
/// `degree` children and they are all leaves.
pub open spec fn spec_is_star(n: NodeView, degree: usize) -> bool {
    n.children.len() == degree && (forall|i: int|
        0 <= i < n.children.len() ==> #[trigger] n.children[i].children.len() == 0)
}

/// The compact text encoding of a depth-1 tree: the degree, then the
/// halfedge count and color digits of the root and of each child.
pub open spec fn spec_tree_star_string(n: NodeView, degree: usize) -> Seq<char> {
    "S"@ + spec_dec(degree as int) + "__"@ + spec_dec(n.halfedges as int) + "_"@
        + spec_color_digits(n.colors) + spec_star_children(n.children)
}

/// The encoded children of a depth-1 tree, in order.
pub open spec fn spec_star_children(s: Seq<NodeView>) -> Seq<char>
    decreases s.len(),
{
    if s.len() == 0 {
        Seq::empty()
    } else {
        spec_star_children(s.drop_last()) + "__"@ + spec_dec(s.last().halfedges as int) + "_"@
            + spec_color_digits(s.last().colors)
    }
}

/// Renders a depth-1 tree in its compact star encoding: `None` unless the
/// root has exactly `degree` children, all of them leaves.
pub fn star_to_string(root: &Node, degree: usize) -> (r: Option<String>)
    ensures
        r is Some <==> spec_is_star(root@, degree),
        r is Some ==> r.unwrap()@ == spec_tree_star_string(root@, degree),
{
    if root.children.len() != degree {
        proof {
            assert(root@.children.len() == root.children@.len());
        }
        return None;
    }
    let mut i: usize = 0;
    while i < root.children.len()
        invariant
            i <= root.children@.len(),
            forall|j: int| 0 <= j < i ==> #[trigger] root@.children[j].children.len() == 0,
        decreases root.children@.len() - i,
    {
        if root.children[i].children.len() != 0 {
            proof {
                assert(root@.children[i as int].children.len() == root.children@[i as int]@
                    .children.len());
            }
            return None;
        }
        proof {
            assert(root@.children[i as int].children.len() == root.children@[i as int]@
                .children.len());
        }
        i += 1;
    }
    let mut s = String::new();
    s.append("S");
    push_dec(&mut s, degree);
    s.append("__");
    push_dec(&mut s, root.halfedges as usize);
    s.append("_");
    let digits = colors_to_digits(root.colors);
    s.append(digits.as_str());
    let ghost head = s@;
    let mut i: usize = 0;
    while i < root.children.len()
        invariant
            i <= root.children@.len(),
            s@ == head + spec_star_children(root@.children.take(i as int)),
        decreases root.children@.len() - i,
    {
        let child = &root.children[i];
        s.append("__");
        push_dec(&mut s, child.halfedges as usize);
        s.append("_");
        let child_digits = colors_to_digits(child.colors);
        s.append(child_digits.as_str());
        proof {
            let pfx = root@.children.take(i as int + 1);
            assert(pfx.drop_last() =~= root@.children.take(i as int));
            assert(pfx.last() == root@.children[i as int]);
            assert(root@.children[i as int] == root.children@[i as int]@);
            assert(s@ =~= head + spec_star_children(pfx));
        }
        i += 1;
    }
    proof {
        assert(root@.children.take(root.children@.len() as int) =~= root@.children);
        assert(s@ =~= spec_tree_star_string(root@, degree));
    }
    Some(s)
}

} // verus!
