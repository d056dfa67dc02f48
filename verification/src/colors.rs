//! Color sets over the fixed 4-color universe, represented as `u8` bitmasks:
//! bit `i` set means color `i` is present (so `0b0011` is the set `{0, 1}`).
//! This module holds the two static subset tables that drive the generators,
//! and the small bitmask helpers shared by the rest of the crate.

use vstd::prelude::*;

verus! {

/// Bitmask covering the whole 4-color universe `{0, 1, 2, 3}`.
pub const COLOR_MASK: u8 = 0b1111;

/// Number of set bits of a color bitmask (its cardinality as a color set),
/// written arithmetically: bit `k` of `c` is `(c / 2^k) % 2`.
pub open spec fn color_count(c: u8) -> int {
    (c as int) % 2 + (c as int / 2) % 2 + (c as int / 4) % 2 + (c as int / 8) % 2 + (c as int
        / 16) % 2 + (c as int / 32) % 2 + (c as int / 64) % 2 + (c as int / 128) % 2
}

/// Counts the set bits of a color bitmask.
pub fn count_colors(c: u8) -> (n: u8)
    ensures
        n as int == color_count(c),
        n <= 8,
{
    c % 2 + (c / 2) % 2 + (c / 4) % 2 + (c / 8) % 2 + (c / 16) % 2 + (c / 32) % 2 + (c / 64) % 2
        + (c / 128) % 2
}

/// Whether two color sets share a color.
pub open spec fn spec_intersects(a: u8, b: u8) -> bool {
    a & b != 0
}

/// Whether two color sets share a color.
pub fn intersects(a: u8, b: u8) -> (r: bool)
    ensures
        r == spec_intersects(a, b),
{
    a & b != 0
}

/// The three color sets legal at the root of a tree or star, in table order.
pub open spec fn spec_root_color_subsets() -> Seq<u8> {
    seq![0b1111u8, 0b0111u8, 0b0011u8]
}

/// All eleven subsets of the 4-color universe with at least two colors, in
/// the fixed table order that determines downstream output ordering.
pub open spec fn spec_color_subsets_ge2() -> Seq<u8> {
    seq![
        0b1111u8,
        0b0111u8,
        0b1011u8,
        0b1101u8,
        0b1110u8,
        0b0011u8,
        0b0101u8,
        0b1001u8,
        0b0110u8,
        0b1010u8,
        0b1100u8,
    ]
}

/// A color set legal anywhere in a generated structure: non-empty,
/// width-bounded, and of cardinality at least 2.
pub open spec fn valid_color_set(c: u8) -> bool {
    c != 0 && c <= COLOR_MASK && color_count(c) >= 2
}

/// Every entry of the subset table is a valid color set, and every entry of
/// the root table is an entry of the subset table (at indices 0, 1 and 5).
pub proof fn lemma_tables_valid()
    ensures
        spec_color_subsets_ge2().len() == 11,
        forall|i: int| 0 <= i < 11 ==> #[trigger] valid_color_set(spec_color_subsets_ge2()[i]),
        spec_root_color_subsets().len() == 3,
        spec_root_color_subsets()[0] == spec_color_subsets_ge2()[0],
        spec_root_color_subsets()[1] == spec_color_subsets_ge2()[1],
        spec_root_color_subsets()[2] == spec_color_subsets_ge2()[5],
        forall|i: int| 0 <= i < 3 ==> #[trigger] valid_color_set(spec_root_color_subsets()[i]),
{
    assert forall|i: int| 0 <= i < 11 implies #[trigger] valid_color_set(
        spec_color_subsets_ge2()[i],
    ) by {
        assert(valid_color_set(0b1111u8));
        assert(valid_color_set(0b0111u8));
        assert(valid_color_set(0b1011u8));
        assert(valid_color_set(0b1101u8));
        assert(valid_color_set(0b1110u8));
        assert(valid_color_set(0b0011u8));
        assert(valid_color_set(0b0101u8));
        assert(valid_color_set(0b1001u8));
        assert(valid_color_set(0b0110u8));
        assert(valid_color_set(0b1010u8));
        assert(valid_color_set(0b1100u8));
    }
}

/// The three color sets legal at the root of a tree or star.
pub fn root_color_subsets() -> (v: Vec<u8>)
    ensures
        v@ == spec_root_color_subsets(),
{
    let mut v: Vec<u8> = Vec::new();
    v.push(0b1111);
    v.push(0b0111);
    v.push(0b0011);
    proof {
        assert(v@ =~= spec_root_color_subsets());
    }
    v
}

/// All subsets of the 4-color universe with at least two colors.
pub fn color_subsets_ge2() -> (v: Vec<u8>)
    ensures
        v@ == spec_color_subsets_ge2(),
{
    let mut v: Vec<u8> = Vec::new();
    v.push(0b1111);
    v.push(0b0111);
    v.push(0b1011);
    v.push(0b1101);
    v.push(0b1110);
    v.push(0b0011);
    v.push(0b0101);
    v.push(0b1001);
    v.push(0b0110);
    v.push(0b1010);
    v.push(0b1100);
    proof {
        assert(v@ =~= spec_color_subsets_ge2());
    }
    v
}

} // verus!
