//! Edges within one file: the references that the file itself can resolve.
use vstd::prelude::*;

pub use crate::edges::PendingEdge;

use crate::edges::{pending_views, PendingView};
use crate::ids::{FileId, NodeId, Position, Span};
use crate::kinds::{EdgeKind, ResolvedVia};
use crate::lists::{lemma_views_push, views};
use crate::symbols::{node_named, SymbolTable};
use crate::text::same_text;

pub mod laws;

verus! {

/// What one run of the pass has done.
#[derive(Debug, Clone, Copy, PartialEq, Eq, Structural)]
pub struct Pass3Stats {
    /// References looked at.
    pub references_processed: usize,
    /// Call edges made.
    pub calls_edges_created: usize,
    /// Reference edges made.
    pub references_edges_created: usize,
    /// References with an unknown source or target.
    pub unresolved_references: usize,
}

impl Default for Pass3Stats {
    fn default() -> (r: Pass3Stats)
        ensures
            r == (Pass3Stats {
                references_processed: 0,
                calls_edges_created: 0,
                references_edges_created: 0,
                unresolved_references: 0,
            }),
    {
        Pass3Stats {
            references_processed: 0,
            calls_edges_created: 0,
            references_edges_created: 0,
            unresolved_references: 0,
        }
    }
}

/// A reference whose target is not in its file.
#[derive(Clone, Debug)]
pub struct UnresolvedRef {
    pub source_node: NodeId,
    pub target_name: String,
    pub kind: EdgeKind,
    pub source_file: FileId,
    pub line: usize,
    pub column: usize,
    /// Whether line and column were given.
    pub has_location: bool,
}

/// Contents of an unresolved reference.
pub struct UnresolvedView {
    pub source_node: NodeId,
    pub target_name: Seq<char>,
    pub kind: EdgeKind,
    pub source_file: FileId,
    pub line: usize,
    pub column: usize,
    pub has_location: bool,
}

impl View for UnresolvedRef {
    type V = UnresolvedView;

    open spec fn view(&self) -> UnresolvedView {
        UnresolvedView {
            source_node: self.source_node,
            target_name: self.target_name@,
            kind: self.kind,
            source_file: self.source_file,
            line: self.line,
            column: self.column,
            has_location: self.has_location,
        }
    }
}

/// A reference from one symbol of a file to another.
#[derive(Clone, Debug)]
pub struct IntraFileReference {
    pub source_qualified_name: String,
    pub target_qualified_name: String,
    /// Kind of reference, such as `call`.
    pub kind: String,
    pub line: usize,
    pub column: usize,
    /// Whether line and column were given.
    pub has_location: bool,
}

/// Contents of a reference.
pub struct ReferenceView {
    pub source: Seq<char>,
    pub target: Seq<char>,
    pub kind: Seq<char>,
    pub line: usize,
    pub column: usize,
    pub has_location: bool,
}

impl View for IntraFileReference {
    type V = ReferenceView;

    open spec fn view(&self) -> ReferenceView {
        ReferenceView {
            source: self.source_qualified_name@,
            target: self.target_qualified_name@,
            kind: self.kind@,
            line: self.line,
            column: self.column,
            has_location: self.has_location,
        }
    }
}

impl IntraFileReference {
    /// A reference without a location.
    pub fn new(source: String, target: String, kind: String) -> (r: IntraFileReference)
        ensures
            r@ == (ReferenceView {
                source: source@,
                target: target@,
                kind: kind@,
                line: 0,
                column: 0,
                has_location: false,
            }),
    {
        IntraFileReference {
            source_qualified_name: source,
            target_qualified_name: target,
            kind,
            line: 0,
            column: 0,
            has_location: false,
        }
    }

    /// A reference at a location.
    pub fn with_location(
        source: String,
        target: String,
        kind: String,
        line: usize,
        column: usize,
    ) -> (r: IntraFileReference)
        ensures
            r@ == (ReferenceView {
                source: source@,
                target: target@,
                kind: kind@,
                line,
                column,
                has_location: true,
            }),
    {
        IntraFileReference {
            source_qualified_name: source,
            target_qualified_name: target,
            kind,
            line,
            column,
            has_location: true,
        }
    }
}

/// What the pass yields.
#[derive(Debug)]
pub struct Pass3Result {
    pub stats: Pass3Stats,
    /// Edges within the file.
    pub edges: Vec<PendingEdge>,
    /// References to be resolved across files.
    pub unresolved: Vec<UnresolvedRef>,
}

/// The kind of reference is a call.
pub open spec fn names_call(kind: Seq<char>) -> bool {
    kind == "call"@ || kind == "function_call"@ || kind == "method_call"@
}

/// The kind of edge that a reference becomes.
pub open spec fn edge_kind_of(kind: Seq<char>) -> EdgeKind {
    if names_call(kind) {
        EdgeKind::Calls { argument_count: 0, is_async: false, resolved_via: ResolvedVia::Direct }
    } else {
        EdgeKind::References
    }
}

/// The place of a reference: one point where its location was given, none otherwise.
pub open spec fn point_spans(has_location: bool, line: usize, column: usize) -> Seq<Span> {
    if has_location {
        seq![Span { start: Position { line, column }, end: Position { line, column } }]
    } else {
        Seq::empty()
    }
}

/// The place of a reference, as spans.
pub fn make_point_spans(has_location: bool, line: usize, column: usize) -> (r: Vec<Span>)
    ensures
        r@ == point_spans(has_location, line, column),
{
    let mut spans: Vec<Span> = Vec::new();
    if has_location {
        spans.push(Span { start: Position { line, column }, end: Position { line, column } });
    }
    proof {
        assert(spans@ =~= point_spans(has_location, line, column));
    }
    spans
}

/// The edge that a reference becomes, where source and target are known.
pub open spec fn resolved_edge(
    r: ReferenceView,
    symbols: Map<Seq<char>, NodeId>,
    file: FileId,
) -> Option<PendingView> {
    match (node_named(symbols, r.source), node_named(symbols, r.target)) {
        (Some(source), Some(target)) => Some(
            PendingView {
                source,
                target,
                kind: edge_kind_of(r.kind),
                file,
                spans: point_spans(r.has_location, r.line, r.column),
            },
        ),
        _ => None,
    }
}

/// The unresolved reference that a reference becomes, where only its source is known.
pub open spec fn unresolved_ref(
    r: ReferenceView,
    symbols: Map<Seq<char>, NodeId>,
    file: FileId,
) -> Option<UnresolvedView> {
    match (node_named(symbols, r.source), node_named(symbols, r.target)) {
        (Some(source), None) => Some(
            UnresolvedView {
                source_node: source,
                target_name: r.target,
                kind: edge_kind_of(r.kind),
                source_file: file,
                line: r.line,
                column: r.column,
                has_location: r.has_location,
            },
        ),
        _ => None,
    }
}

/// The edges that the first `n` references become, in order.
pub open spec fn resolved_edges(
    refs: Seq<ReferenceView>,
    symbols: Map<Seq<char>, NodeId>,
    file: FileId,
    n: int,
) -> Seq<PendingView>
    decreases n,
{
    if n <= 0 {
        Seq::empty()
    } else {
        let before = resolved_edges(refs, symbols, file, n - 1);
        match resolved_edge(refs[n - 1], symbols, file) {
            Some(e) => before.push(e),
            None => before,
        }
    }
}

/// The unresolved references among the first `n`, in order.
pub open spec fn unresolved_refs(
    refs: Seq<ReferenceView>,
    symbols: Map<Seq<char>, NodeId>,
    file: FileId,
    n: int,
) -> Seq<UnresolvedView>
    decreases n,
{
    if n <= 0 {
        Seq::empty()
    } else {
        let before = unresolved_refs(refs, symbols, file, n - 1);
        match unresolved_ref(refs[n - 1], symbols, file) {
            Some(u) => before.push(u),
            None => before,
        }
    }
}

/// Calls among the first `n` edges.
pub open spec fn call_count(edges: Seq<PendingView>, n: int) -> int
    decreases n,
{
    if n <= 0 {
        0
    } else {
        call_count(edges, n - 1) + (if edges[n - 1].kind is Calls {
            1int
        } else {
            0int
        })
    }
}

/// What the pass counts on the first `n` references.
pub open spec fn pass3_counts(
    refs: Seq<ReferenceView>,
    symbols: Map<Seq<char>, NodeId>,
    file: FileId,
    n: int,
) -> Pass3Stats {
    let edges = resolved_edges(refs, symbols, file, n);
    let calls = call_count(edges, edges.len() as int);
    Pass3Stats {
        references_processed: n as usize,
        calls_edges_created: calls as usize,
        references_edges_created: (edges.len() - calls) as usize,
        unresolved_references: (n - edges.len()) as usize,
    }
}

pub(crate) proof fn lemma_call_count_push(edges: Seq<PendingView>, e: PendingView, n: int)
    requires
        0 <= n <= edges.len(),
    ensures
        call_count(edges.push(e), n) == call_count(edges, n),
    decreases n,
{
    if n > 0 {
        lemma_call_count_push(edges, e, n - 1);
    }
}

pub(crate) proof fn lemma_call_count_bound(edges: Seq<PendingView>, n: int)
    requires
        n >= 0,
    ensures
        0 <= call_count(edges, n) <= n,
    decreases n,
{
    if n > 0 {
        lemma_call_count_bound(edges, n - 1);
    }
}

pub(crate) proof fn lemma_resolved_bound(
    refs: Seq<ReferenceView>,
    symbols: Map<Seq<char>, NodeId>,
    file: FileId,
    n: int,
)
    requires
        n >= 0,
    ensures
        resolved_edges(refs, symbols, file, n).len() <= n,
    decreases n,
{
    if n > 0 {
        lemma_resolved_bound(refs, symbols, file, n - 1);
    }
}

fn is_call_name(kind: &str) -> (r: bool)
    ensures
        r == names_call(kind@),
{
    same_text(kind, "call") || same_text(kind, "function_call") || same_text(kind, "method_call")
}

fn make_edge_kind(kind: &str) -> (r: EdgeKind)
    ensures
        r == edge_kind_of(kind@),
{
    if is_call_name(kind) {
        EdgeKind::Calls { argument_count: 0, is_async: false, resolved_via: ResolvedVia::Direct }
    } else {
        EdgeKind::References
    }
}

/// Makes an edge of every reference whose source and target the file knows, and keeps
/// those of which it knows only the source for resolution across files.
pub fn pass3_intra_edges(
    references: &[IntraFileReference],
    symbol_to_node: &SymbolTable,
    file_id: FileId,
) -> (r: Pass3Result)
    ensures
        ({
            let refs = views(references@);
            let n = refs.len() as int;
            &&& pending_views(r.edges@) == resolved_edges(refs, symbol_to_node@, file_id, n)
            &&& views(r.unresolved@) == unresolved_refs(refs, symbol_to_node@, file_id, n)
            &&& r.stats == pass3_counts(refs, symbol_to_node@, file_id, n)
        }),
{
    let ghost refs = views(references@);
    let ghost symbols = symbol_to_node@;
    let mut stats = Pass3Stats::default();
    let mut edges: Vec<PendingEdge> = Vec::new();
    let mut unresolved: Vec<UnresolvedRef> = Vec::new();
    for i in 0..references.len()
        invariant
            refs == views(references@),
            symbols == symbol_to_node@,
            pending_views(edges@) =~= resolved_edges(refs, symbols, file_id, i as int),
            views(unresolved@) =~= unresolved_refs(refs, symbols, file_id, i as int),
            stats == pass3_counts(refs, symbols, file_id, i as int),
    {
        let reference = &references[i];
        assert(refs[i as int] == reference@);
        let ghost so_far = resolved_edges(refs, symbols, file_id, i as int);
        proof {
            lemma_resolved_bound(refs, symbols, file_id, i as int);
            lemma_call_count_bound(so_far, so_far.len() as int);
        }
        stats.references_processed = stats.references_processed + 1;
        let kind = make_edge_kind(reference.kind.as_str());
        match symbol_to_node.get(reference.source_qualified_name.as_str()) {
            None => {
                stats.unresolved_references = stats.unresolved_references + 1;
            },
            Some(source) => match symbol_to_node.get(reference.target_qualified_name.as_str()) {
                None => {
                    stats.unresolved_references = stats.unresolved_references + 1;
                    let u = UnresolvedRef {
                        source_node: source,
                        target_name: reference.target_qualified_name.clone(),
                        kind,
                        source_file: file_id,
                        line: reference.line,
                        column: reference.column,
                        has_location: reference.has_location,
                    };
                    proof {
                        lemma_views_push(unresolved@, u);
                    }
                    unresolved.push(u);
                },
                Some(target) => {
                    match &kind {
                        EdgeKind::Calls { .. } => {
                            stats.calls_edges_created = stats.calls_edges_created + 1;
                        },
                        _ => {
                            stats.references_edges_created = stats.references_edges_created + 1;
                        },
                    }
                    let e = PendingEdge {
                        source,
                        target,
                        kind,
                        file: file_id,
                        spans: make_point_spans(
                            reference.has_location,
                            reference.line,
                            reference.column,
                        ),
                    };
                    let ghost before = pending_views(edges@);
                    edges.push(e);
                    proof {
                        assert(pending_views(edges@) =~= before.push(e@));
                        lemma_call_count_push(so_far, e@, so_far.len() as int);
                    }
                },
            },
        }
    }
    Pass3Result { stats, edges, unresolved }
}

/// The counts and the edges of [`pass3_intra_edges`].
pub fn pass3_intra_edges_legacy(
    references: &[IntraFileReference],
    symbol_to_node: &SymbolTable,
    file_id: FileId,
) -> (r: (Pass3Stats, Vec<PendingEdge>))
    ensures
        ({
            let refs = views(references@);
            let n = refs.len() as int;
            &&& pending_views(r.1@) == resolved_edges(refs, symbol_to_node@, file_id, n)
            &&& r.0 == pass3_counts(refs, symbol_to_node@, file_id, n)
        }),
{
    let result = pass3_intra_edges(references, symbol_to_node, file_id);
    (result.stats, result.edges)
}

/// Every reference is accounted for: as a call edge, as a reference edge, or as
/// unresolved; and only those whose source is known are kept as unresolved.
pub proof fn law_pass3_accounts_for_every_reference(
    refs: Seq<ReferenceView>,
    symbols: Map<Seq<char>, NodeId>,
    file: FileId,
)
    requires
        refs.len() <= usize::MAX,
    ensures
        ({
            let n = refs.len() as int;
            let s = pass3_counts(refs, symbols, file, n);
            &&& s.references_processed == n
            &&& s.calls_edges_created + s.references_edges_created + s.unresolved_references == n
            &&& s.calls_edges_created + s.references_edges_created == resolved_edges(
                refs,
                symbols,
                file,
                n,
            ).len()
            &&& unresolved_refs(refs, symbols, file, n).len() <= s.unresolved_references
        }),
{
    let n = refs.len() as int;
    let edges = resolved_edges(refs, symbols, file, n);
    lemma_resolved_bound(refs, symbols, file, n);
    lemma_call_count_bound(edges, edges.len() as int);
    lemma_unresolved_bound(refs, symbols, file, n);
}

proof fn lemma_unresolved_bound(
    refs: Seq<ReferenceView>,
    symbols: Map<Seq<char>, NodeId>,
    file: FileId,
    n: int,
)
    requires
        n >= 0,
    ensures
        unresolved_refs(refs, symbols, file, n).len() + resolved_edges(
            refs,
            symbols,
            file,
            n,
        ).len() <= n,
    decreases n,
{
    if n > 0 {
        lemma_unresolved_bound(refs, symbols, file, n - 1);
    }
}

} // verus!
