//! Graph build passes of a code-search index.
//!
//! A workspace is parsed file by file into staging graphs, committed into one
//! code graph, and then refined by passes that add the edges no single file
//! can see. This crate holds those passes together with the graph they work
//! on; each function states what it returns or changes.
pub mod arena;
pub mod bind;
pub mod c_indirect;
pub mod clock;
pub mod edges;
pub mod fields;
pub mod files;
pub mod graph;
pub mod hints;
pub mod ids;
pub mod indices;
pub mod kinds;
pub mod lists;
pub mod metadata;
pub(crate) mod parallel;
pub mod node_map;
pub mod parallel_commit;
pub mod pass3_intra;
pub mod pass4_cross;
pub mod pass5_cross_language;
pub mod pass5b_c_indirect;
pub mod pass_go_method_set;
pub mod phase4e_binding;
pub mod sorting;
pub mod staging;
pub mod strings;
pub mod symbols;
pub mod text;
pub mod unification;
