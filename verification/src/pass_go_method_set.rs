//! Go method sets: promotion through embedding, implicit interface satisfaction
//! and function types that functions implement.
use vstd::prelude::*;

use crate::clock::{clamp_millis, clock_now, elapsed_since};
use crate::graph::{CodeGraph, GraphView};
use crate::ids::{FileId, NodeId};
use crate::indices::rows_with_nodes;

use self::function_types::{
    function_types_implemented, run_t1_3_signature_implements, signature_edges,
};
use self::materialise::{
    gain_views, materialise_and_emit_structural, materialised, GainView, LocalView, MintState,
    PassLocalIndices,
};
use self::ownership::{tombstone_all_pass_owned, tombstoned};
use self::promotion::{
    blocked_count, collect_embeddings, compute_promotions_for_outer, counted_up, embeddings_of,
    promotions, Embedding, PerOuterPromotion,
};
use self::satisfaction::{
    counted_up_64, implements_edges, in_order, judged, pairs_examined, pointer_count,
    run_t1_1_satisfaction, satisfied, value_count,
};
use self::shadow::{emit_shadow_calls_and_references, shadowed, shadows};
use crate::sorting::{dedup_neighbours, stable_sort};

pub mod contribution_laws;
pub mod count_laws;
pub mod function_type_laws;
pub mod function_types;
pub mod growth;
pub mod later_runs;
pub mod laws;
pub mod lookup;
pub mod materialise;
pub mod materialise_laws;
pub mod method_set_laws;
pub mod ownership;
pub mod ownership_laws;
pub mod promotion;
pub mod promotion_laws;
pub mod receiver_laws;
pub mod repeat;
pub mod rerun;
pub mod satisfaction;
pub mod satisfaction_laws;
pub mod shadow;
pub mod shadow_laws;
pub mod signature;
pub mod signature_laws;
pub mod steady;
pub mod twin_pairs;
pub mod twin_sets;
pub mod twin_shadows;
pub mod twins;
pub mod undo;

verus! {

/// What one run of the Go method-set pass has done.
#[derive(Clone, Copy, Debug, PartialEq, Eq, Structural)]
pub struct GoMethodSetStats {
    /// Implementation edges from types.
    pub implements_edges_value: u32,
    /// Implementation edges from pointers to types that do not satisfy the interface
    /// themselves.
    pub implements_edges_pointer: u32,
    /// Implementation edges from functions and methods to function types.
    pub signature_implements_edges: u32,
    /// Nodes made for promoted methods.
    pub promoted_method_nodes: u32,
    /// Calls of and references to promoted methods.
    pub promoted_back_reference_edges: u32,
    /// Pairs of type and interface that were looked at.
    pub satisfaction_pairs_examined: u64,
    /// Promotions blocked by an ambiguous name or by the depth limit.
    pub ambiguity_blocked_promotions: u32,
    /// Wall-clock duration in milliseconds.
    pub elapsed_ms: u64,
}

impl Default for GoMethodSetStats {
    fn default() -> (r: GoMethodSetStats)
        ensures
            r == (GoMethodSetStats {
                implements_edges_value: 0,
                implements_edges_pointer: 0,
                signature_implements_edges: 0,
                promoted_method_nodes: 0,
                promoted_back_reference_edges: 0,
                satisfaction_pairs_examined: 0,
                ambiguity_blocked_promotions: 0,
                elapsed_ms: 0,
            }),
    {
        GoMethodSetStats {
            implements_edges_value: 0,
            implements_edges_pointer: 0,
            signature_implements_edges: 0,
            promoted_method_nodes: 0,
            promoted_back_reference_edges: 0,
            satisfaction_pairs_examined: 0,
            ambiguity_blocked_promotions: 0,
            elapsed_ms: 0,
        }
    }
}

/// The graph on which a run works: without what an earlier run has made, where some
/// file has changed.
pub open spec fn cleared(g: GraphView, incremental: bool) -> GraphView {
    if incremental {
        tombstoned(g)
    } else {
        g
    }
}

/// The embeddings that the hints of `g` name.
pub open spec fn all_embeddings(g: GraphView) -> Seq<Embedding> {
    embeddings_of(g, g.hints.embeddings, g.hints.embeddings.len() as int)
}

/// The outer nodes of embeddings.
pub open spec fn outers_of(embeddings: Seq<Embedding>) -> Seq<NodeId> {
    Seq::new(embeddings.len(), |i: int| embeddings[i].outer)
}

/// The structs that embed something, in node order.
pub open spec fn embedding_structs(g: GraphView) -> Seq<NodeId> {
    in_order(outers_of(all_embeddings(g)))
}

/// What each of `outers` gains.
pub open spec fn gains_of(g: GraphView, outers: Seq<NodeId>) -> Seq<GainView> {
    Seq::new(
        outers.len(),
        |i: int|
            GainView {
                value: promotions(g, all_embeddings(g), outers[i]).value,
                pointer_only: promotions(g, all_embeddings(g), outers[i]).pointer_only,
            },
    )
}

/// How much the count of blocked promotions grows on behalf of the first `n` of `outers`.
pub open spec fn blocked_total(g: GraphView, outers: Seq<NodeId>, n: int) -> nat
    decreases n,
{
    if n <= 0 {
        0
    } else {
        blocked_total(g, outers, n - 1) + blocked_count(g, all_embeddings(g), outers[n - 1])
    }
}

/// The graph after promoted methods were made in `g`, with what was made.
pub open spec fn promoted(g: GraphView) -> MintState {
    let outers = embedding_structs(g);
    materialised(
        MintState { g, idx: LocalView::none(), fresh: Seq::empty(), promoted: 0 },
        outers,
        gains_of(g, outers),
    )
}

/// `g` with `nodes` indexed.
pub open spec fn indexed_with(g: GraphView, nodes: Seq<NodeId>) -> GraphView {
    GraphView { indices: rows_with_nodes(g.indices, g.nodes, nodes, nodes.len() as int), ..g }
}

/// The graph after promotion: promoted methods made and indexed.
pub open spec fn after_promotion(g: GraphView) -> GraphView {
    indexed_with(promoted(g).g, promoted(g).fresh)
}

/// The graph after shadow edges were added.
pub open spec fn after_shadows(g: GraphView) -> GraphView {
    shadowed(after_promotion(g), promoted(g).idx)
}

/// The graph after interfaces were satisfied.
pub open spec fn after_satisfaction(g: GraphView) -> GraphView {
    indexed_with(
        satisfied(after_shadows(g), promoted(g).idx),
        judged(after_shadows(g), promoted(g).idx).st.fresh,
    )
}

/// The graph after the whole pass, which starts on `g`.
pub open spec fn after_pass(g: GraphView) -> GraphView {
    function_types_implemented(after_satisfaction(g))
}

/// What the pass counts when it starts on `g`, but for the time it takes.
pub open spec fn pass_counts(g: GraphView) -> GoMethodSetStats {
    let outers = embedding_structs(g);
    let edges = implements_edges(after_shadows(g), promoted(g).idx);
    GoMethodSetStats {
        implements_edges_value: counted_up(0, value_count(edges, edges.len() as int)),
        implements_edges_pointer: counted_up(0, pointer_count(edges, edges.len() as int)),
        signature_implements_edges: counted_up(0, signature_edges(after_satisfaction(g)).len()),
        promoted_method_nodes: promoted(g).promoted,
        promoted_back_reference_edges: counted_up(
            0,
            shadows(after_promotion(g), promoted(g).idx).len(),
        ),
        satisfaction_pairs_examined: counted_up_64(
            0,
            pairs_examined(after_shadows(g), promoted(g).idx),
        ),
        ambiguity_blocked_promotions: counted_up(0, blocked_total(g, outers, outers.len() as int)),
        elapsed_ms: 0,
    }
}

fn collect_outers(embeddings: &Vec<Embedding>) -> (r: Vec<NodeId>)
    ensures
        r@ == in_order(outers_of(embeddings@)),
{
    let mut found: Vec<NodeId> = Vec::new();
    for i in 0..embeddings.len()
        invariant
            found@ == outers_of(embeddings@).take(i as int),
    {
        found.push(embeddings[i].outer);
        proof {
            assert(outers_of(embeddings@).take(i + 1) =~= outers_of(embeddings@).take(
                i as int,
            ).push(outers_of(embeddings@)[i as int]));
        }
    }
    proof {
        assert(outers_of(embeddings@).take(embeddings@.len() as int) =~= outers_of(embeddings@));
    }
    let ordered = stable_sort(found);
    dedup_neighbours(&ordered)
}

/// Runs the Go method-set pass. With `changed_files`, everything that an earlier run has
/// made is taken back first; which files have changed makes no difference.
pub fn run_go_method_set_satisfaction(graph: &mut CodeGraph, changed_files: Option<&[FileId]>) -> (r:
    GoMethodSetStats)
    requires
        old(graph).wf(),
    ensures
        final(graph).wf(),
        final(graph)@ == after_pass(cleared(old(graph)@, changed_files is Some)),
        r == (GoMethodSetStats {
            elapsed_ms: r.elapsed_ms,
            ..pass_counts(cleared(old(graph)@, changed_files is Some))
        }),
{
    run_go_method_set_satisfaction_generic(graph, changed_files)
}

/// Runs the Go method-set pass on any graph, freshly built or being rebuilt.
pub fn run_go_method_set_satisfaction_generic(
    graph: &mut CodeGraph,
    changed_files: Option<&[FileId]>,
) -> (r: GoMethodSetStats)
    requires
        old(graph).wf(),
    ensures
        final(graph).wf(),
        final(graph)@ == after_pass(cleared(old(graph)@, changed_files is Some)),
        r == (GoMethodSetStats {
            elapsed_ms: r.elapsed_ms,
            ..pass_counts(cleared(old(graph)@, changed_files is Some))
        }),
{
    let start = clock_now();
    let mut stats = GoMethodSetStats::default();
    if changed_files.is_some() {
        tombstone_all_pass_owned(graph);
    }
    let ghost g = graph@;
    let mut idx = PassLocalIndices::new();
    let mut fresh: Vec<NodeId> = Vec::new();
    let embeddings = collect_embeddings(graph);
    let outers = collect_outers(&embeddings);
    let mut gains: Vec<PerOuterPromotion> = Vec::new();
    let mut blocked: u32 = 0;
    for i in 0..outers.len()
        invariant
            graph.wf(),
            graph@ == g,
            embeddings@ == all_embeddings(g),
            gains@.len() == i,
            forall|j: int|
                0 <= j < i ==> (#[trigger] gains@[j])@ == gains_of(g, outers@)[j],
            blocked == counted_up(0, blocked_total(g, outers@, i as int)),
    {
        let gain = compute_promotions_for_outer(graph, outers[i], &embeddings, &mut blocked);
        gains.push(gain);
        proof {
            assert(gain@ == gains_of(g, outers@)[i as int]);
        }
    }
    stats.ambiguity_blocked_promotions = blocked;
    proof {
        assert(gain_views(gains@) =~= gains_of(g, outers@));
        assert(fresh@ =~= Seq::<NodeId>::empty());
    }
    let mut made: u32 = 0;
    materialise_and_emit_structural(graph, &outers, &gains, &mut idx, &mut fresh, &mut made);
    stats.promoted_method_nodes = made;
    graph.rebuild_qualified_name_index_for_new_nodes(&fresh);
    let mut shadow_edges: u32 = 0;
    emit_shadow_calls_and_references(graph, &idx, &mut shadow_edges);
    stats.promoted_back_reference_edges = shadow_edges;
    let mut anchors: Vec<NodeId> = Vec::new();
    let mut value: u32 = 0;
    let mut pointer: u32 = 0;
    let mut examined: u64 = 0;
    run_t1_1_satisfaction(graph, &idx, &mut anchors, &mut value, &mut pointer, &mut examined);
    proof {
        assert(anchors@ =~= judged(after_shadows(g), idx@).st.fresh);
    }
    stats.implements_edges_value = value;
    stats.implements_edges_pointer = pointer;
    stats.satisfaction_pairs_examined = examined;
    graph.rebuild_qualified_name_index_for_new_nodes(&anchors);
    let mut signatures: u32 = 0;
    run_t1_3_signature_implements(graph, &mut signatures);
    stats.signature_implements_edges = signatures;
    stats.elapsed_ms = clamp_millis(elapsed_since(&start));
    stats
}

} // verus!
