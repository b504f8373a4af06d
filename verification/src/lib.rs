//! A region quadtree over axis-aligned integer rectangles.
//!
//! The tree stores rectangular items, answers "which items intersect this
//! rectangle" queries, grows its root on demand to enclose far-away
//! insertions, and prunes branches that removal has left empty.

pub mod quad_tree;
pub mod quad_tree_bounds;
pub mod quad_tree_leaf;

pub use quad_tree::QuadTree;
pub use quad_tree::QuadTreeError;
pub use quad_tree_bounds::QuadTreeBounds;
pub use quad_tree_leaf::QuadTreeLeaf;
