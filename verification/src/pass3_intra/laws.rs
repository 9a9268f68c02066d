//! What becomes of each reference of a file.
use vstd::prelude::*;

use crate::edges::PendingView;
use crate::ids::{FileId, NodeId, Position, Span};
use crate::indices::lemma_filter_take;
use crate::kinds::{EdgeKind, ResolvedVia};
use crate::pass3_intra::{
    call_count, lemma_call_count_bound, lemma_call_count_push, names_call, pass3_counts,
    resolved_edges, unresolved_refs, ReferenceView, UnresolvedView,
};

verus! {

/// The reference is a call.
pub open spec fn is_call(r: ReferenceView) -> bool {
    r.kind == "call"@ || r.kind == "function_call"@ || r.kind == "method_call"@
}

/// An edge of this kind is what the reference says.
pub open spec fn says(r: ReferenceView, kind: EdgeKind) -> bool {
    if is_call(r) {
        kind == (EdgeKind::Calls {
            argument_count: 0,
            is_async: false,
            resolved_via: ResolvedVia::Direct,
        })
    } else {
        kind == EdgeKind::References
    }
}

/// The file knows both ends of the reference.
pub open spec fn both_known(symbols: Map<Seq<char>, NodeId>, r: ReferenceView) -> bool {
    symbols.dom().contains(r.source) && symbols.dom().contains(r.target)
}

/// The file knows only where the reference starts.
pub open spec fn start_known(symbols: Map<Seq<char>, NodeId>, r: ReferenceView) -> bool {
    symbols.dom().contains(r.source) && !symbols.dom().contains(r.target)
}

/// `e` is the edge that the reference becomes.
pub open spec fn edge_of(
    symbols: Map<Seq<char>, NodeId>,
    file: FileId,
    r: ReferenceView,
    e: PendingView,
) -> bool {
    &&& e.source == symbols[r.source]
    &&& e.target == symbols[r.target]
    &&& says(r, e.kind)
    &&& e.file == file
    &&& e.spans == (if r.has_location {
        seq![
            Span {
                start: Position { line: r.line, column: r.column },
                end: Position { line: r.line, column: r.column },
            },
        ]
    } else {
        Seq::empty()
    })
}

/// `u` is what is left of the reference for other files to resolve.
pub open spec fn left_of(
    symbols: Map<Seq<char>, NodeId>,
    file: FileId,
    r: ReferenceView,
    u: UnresolvedView,
) -> bool {
    &&& u.source_node == symbols[r.source]
    &&& u.target_name == r.target
    &&& says(r, u.kind)
    &&& u.source_file == file
    &&& u.line == r.line
    &&& u.column == r.column
    &&& u.has_location == r.has_location
}

proof fn lemma_becomes(
    refs: Seq<ReferenceView>,
    symbols: Map<Seq<char>, NodeId>,
    file: FileId,
    n: int,
)
    requires
        0 <= n <= refs.len(),
    ensures
        ({
            let known = refs.take(n).filter(|r: ReferenceView| both_known(symbols, r));
            let open = refs.take(n).filter(|r: ReferenceView| start_known(symbols, r));
            let calls = refs.take(n).filter(
                |r: ReferenceView| both_known(symbols, r) && is_call(r),
            );
            let edges = resolved_edges(refs, symbols, file, n);
            let left = unresolved_refs(refs, symbols, file, n);
            &&& edges.len() == known.len()
            &&& forall|i: int|
                0 <= i < edges.len() ==> edge_of(symbols, file, known[i], #[trigger] edges[i])
            &&& left.len() == open.len()
            &&& forall|i: int|
                0 <= i < left.len() ==> left_of(symbols, file, open[i], #[trigger] left[i])
            &&& call_count(edges, edges.len() as int) == calls.len()
        }),
    decreases n,
{
    let p = |r: ReferenceView| both_known(symbols, r);
    let q = |r: ReferenceView| start_known(symbols, r);
    let c = |r: ReferenceView| both_known(symbols, r) && is_call(r);
    if n > 0 {
        lemma_becomes(refs, symbols, file, n - 1);
        lemma_filter_take(refs, p, n);
        lemma_filter_take(refs, q, n);
        lemma_filter_take(refs, c, n);
        let before = resolved_edges(refs, symbols, file, n - 1);
        let edges = resolved_edges(refs, symbols, file, n);
        let r = refs[n - 1];
        assert(names_call(r.kind) == is_call(r));
        if both_known(symbols, r) {
            let e = edges[before.len() as int];
            assert(edges == before.push(e));
            lemma_call_count_push(before, e, before.len() as int);
            assert(edge_of(symbols, file, r, e));
        }
    } else {
        reveal(Seq::filter);
        assert(refs.take(0).filter(p).len() == 0);
        assert(refs.take(0).filter(q).len() == 0);
        assert(refs.take(0).filter(c).len() == 0);
    }
}

/// The references of which the file knows both ends become edges between these, in their
/// order: calls become calls, and all others references. Those of which it knows only the
/// start are left for other files, as they are. All are counted by what becomes of them.
pub proof fn law_references_become_what_they_say(
    refs: Seq<ReferenceView>,
    symbols: Map<Seq<char>, NodeId>,
    file: FileId,
)
    requires
        refs.len() <= usize::MAX,
    ensures
        ({
            let n = refs.len() as int;
            let known = refs.filter(|r: ReferenceView| both_known(symbols, r));
            let open = refs.filter(|r: ReferenceView| start_known(symbols, r));
            let calls = refs.filter(|r: ReferenceView| both_known(symbols, r) && is_call(r));
            let edges = resolved_edges(refs, symbols, file, n);
            let left = unresolved_refs(refs, symbols, file, n);
            let s = pass3_counts(refs, symbols, file, n);
            &&& edges.len() == known.len()
            &&& forall|i: int|
                0 <= i < edges.len() ==> edge_of(symbols, file, known[i], #[trigger] edges[i])
            &&& left.len() == open.len()
            &&& forall|i: int|
                0 <= i < left.len() ==> left_of(symbols, file, open[i], #[trigger] left[i])
            &&& s.references_processed == refs.len()
            &&& s.calls_edges_created == calls.len()
            &&& s.calls_edges_created + s.references_edges_created == known.len()
            &&& s.unresolved_references == refs.len() - known.len()
        }),
{
    let n = refs.len() as int;
    lemma_becomes(refs, symbols, file, n);
    assert(refs.take(n) =~= refs);
    let edges = resolved_edges(refs, symbols, file, n);
    lemma_call_count_bound(edges, edges.len() as int);
    crate::pass3_intra::lemma_resolved_bound(refs, symbols, file, n);
}

} // verus!
