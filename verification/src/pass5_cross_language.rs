//! Edges across languages: foreign functions and HTTP endpoints.
use vstd::prelude::*;

use crate::edges::{copy_spans, pending_views, PendingEdge, PendingView};
use crate::graph::{CodeGraph, GraphView};
use crate::parallel_commit::finalize::with_pending;

pub use self::http::normalize_url_path;

use self::ffi::{all_declarations, all_ffi_edges, link_ffi_edges};
use self::http::{all_http_edges, link_http_edges, requests_scanned};

pub mod ffi;
pub mod ffi_laws;
pub mod http;
pub mod http_laws;

verus! {

/// What one run of the pass has done.
#[derive(Debug, Clone, Copy, PartialEq, Eq, Structural)]
pub struct Pass5Stats {
    /// Foreign-function declarations looked at.
    pub ffi_declarations_scanned: usize,
    /// Edges from declarations to implementations.
    pub ffi_edges_created: usize,
    /// Request edges looked at.
    pub http_requests_scanned: usize,
    /// Edges from requests to endpoints.
    pub http_endpoints_matched: usize,
    /// Edges of both sorts.
    pub total_edges_created: usize,
}

impl Default for Pass5Stats {
    fn default() -> (r: Pass5Stats)
        ensures
            r == (Pass5Stats {
                ffi_declarations_scanned: 0,
                ffi_edges_created: 0,
                http_requests_scanned: 0,
                http_endpoints_matched: 0,
                total_edges_created: 0,
            }),
    {
        Pass5Stats {
            ffi_declarations_scanned: 0,
            ffi_edges_created: 0,
            http_requests_scanned: 0,
            http_endpoints_matched: 0,
            total_edges_created: 0,
        }
    }
}

/// All edges that the pass adds, those of foreign functions first.
pub open spec fn cross_language_edges(g: GraphView) -> Seq<PendingView> {
    all_ffi_edges(g) + all_http_edges(g)
}

/// The graph with its languages linked.
pub open spec fn languages_linked(g: GraphView) -> GraphView {
    let edges = cross_language_edges(g);
    GraphView { edges: with_pending(g.edges, edges, edges.len() as int), ..g }
}

/// What the pass counts.
pub open spec fn pass5_counts(g: GraphView) -> Pass5Stats {
    Pass5Stats {
        ffi_declarations_scanned: all_declarations(g).len() as usize,
        ffi_edges_created: all_ffi_edges(g).len() as usize,
        http_requests_scanned: requests_scanned(g) as usize,
        http_endpoints_matched: all_http_edges(g).len() as usize,
        total_edges_created: cross_language_edges(g).len() as usize,
    }
}

/// Links foreign-function declarations to C functions, and HTTP requests to endpoints.
pub fn link_cross_language_edges(graph: &mut CodeGraph) -> (r: Pass5Stats)
    requires
        old(graph).wf(),
    ensures
        final(graph).wf(),
        final(graph)@ == languages_linked(old(graph)@),
        r == pass5_counts(old(graph)@),
{
    link_cross_language_edges_generic(graph)
}

/// Links languages in any graph, freshly built or being rebuilt.
pub fn link_cross_language_edges_generic(graph: &mut CodeGraph) -> (r: Pass5Stats)
    requires
        old(graph).wf(),
    ensures
        final(graph).wf(),
        final(graph)@ == languages_linked(old(graph)@),
        r == pass5_counts(old(graph)@),
{
    let ghost g = graph@;
    let mut stats = Pass5Stats::default();
    let mut pending: Vec<PendingEdge> = Vec::new();
    proof {
        assert(pending_views(pending@) =~= Seq::empty());
    }
    stats.ffi_declarations_scanned = link_ffi_edges(graph, &mut pending);
    proof {
        assert(pending_views(pending@) =~= all_ffi_edges(g));
        assert(pending_views(pending@).len() == pending@.len());
    }
    stats.ffi_edges_created = pending.len();
    stats.http_requests_scanned = link_http_edges(graph, &mut pending);
    let ghost edges = cross_language_edges(g);
    proof {
        assert(pending_views(pending@) == edges);
        assert(pending_views(pending@).len() == pending@.len());
    }
    stats.http_endpoints_matched = pending.len() - stats.ffi_edges_created;
    stats.total_edges_created = pending.len();
    for i in 0..pending.len()
        invariant
            graph.wf(),
            pending_views(pending@) == edges,
            graph@ == (GraphView { edges: with_pending(g.edges, edges, i as int), ..g }),
    {
        let e = &pending[i];
        assert(edges[i as int] == e@);
        graph.edges.add_edge_with_spans(
            e.source,
            e.target,
            e.kind.clone(),
            e.file,
            copy_spans(&e.spans),
        );
    }
    stats
}

/// The total is the sum of both sorts of edges, and the pass adds as many.
pub proof fn law_pass5_total_is_the_sum(g: GraphView)
    requires
        cross_language_edges(g).len() <= usize::MAX,
    ensures
        ({
            let s = pass5_counts(g);
            &&& s.total_edges_created == s.ffi_edges_created + s.http_endpoints_matched
            &&& s.total_edges_created == cross_language_edges(g).len()
        }),
{
}

} // verus!
