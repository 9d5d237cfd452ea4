pub mod disjoint_set;
pub mod fenwick;
pub mod graph;
pub mod grid;
pub mod mod_nat;
pub mod mod_usize;
pub mod segment_tree;
