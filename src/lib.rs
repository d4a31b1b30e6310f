//! Procedural stellar systems: an arena-backed multi-way tree with handle-based
//! mutation and subtree merging, the seeded generator bootstrap, the classification
//! rules for generated planets, the placement rule for moons, and the assembly of a
//! system tree.

pub mod classify;
pub mod mtree;
pub mod placement;
pub mod system;
pub mod tree_model;
