//! Committing staging graphs into the code graph.

pub use self::c_drain::{DeferredAddressTakenEntry, PhaseCIndirectDrain};
pub use self::finalize::{
    pending_edges_to_delta, phase4_apply_global_remap, phase4d_bulk_insert_edges,
    phase4d_prime_propagate_staging_metadata, rebuild_indices, rekey_staging_metadata_to_arena,
};
pub use self::phase3::{phase3_parallel_commit, Phase3Result};
pub use self::plan::{
    compute_commit_plan, phase2_assign_ranges, ChunkCommitPlan, FilePlan, GlobalOffsets,
};
pub use self::remap::{
    remap_edge_kind_string_ids, remap_node_entry_global, remap_option_string_id,
    remap_string_id,
};
pub use self::unify::{phase4c_prime_unify_cross_file_nodes, UnificationStats};

pub mod c_drain;
pub mod chunk_laws;
pub mod commit;
pub mod commit_laws;
pub mod finalize;
pub mod phase3;
pub mod plan;
pub mod remap;
pub mod unify;
pub mod unify_laws;
