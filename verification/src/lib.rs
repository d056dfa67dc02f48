//! Enumeration of colored bounded-degree rooted trees and depth-1 stars over a
//! fixed 4-color universe, together with the list-coloring branching and
//! reduction rules used to build a case-analysis search space.

pub mod colors;
pub mod multiset_index;
pub mod render;
pub mod list_coloring_utils;
pub mod star_utils;
pub mod tree_utils;

pub use colors::color_count;
pub use colors::count_colors;
pub use colors::intersects;
pub use colors::color_subsets_ge2;
pub use colors::root_color_subsets;
