//! The edge store: live edges in insertion order, and the edges on their way in.
use vstd::prelude::*;

use crate::files::has_node;
use crate::ids::{FileId, NodeId, Span};
use crate::indices::lemma_filter_take;
use crate::kinds::{same_kind, EdgeKind};

verus! {

/// A live edge.
#[derive(Debug)]
pub struct StoreEdgeRef {
    pub source: NodeId,
    pub target: NodeId,
    pub kind: EdgeKind,
    /// Position of the edge in the order of insertions.
    pub seq: u64,
    pub file: FileId,
    pub spans: Vec<Span>,
}

/// Contents of a live edge.
pub struct EdgeView {
    pub source: NodeId,
    pub target: NodeId,
    pub kind: EdgeKind,
    pub seq: u64,
    pub file: FileId,
    pub spans: Seq<Span>,
}

impl View for StoreEdgeRef {
    type V = EdgeView;

    open spec fn view(&self) -> EdgeView {
        EdgeView {
            source: self.source,
            target: self.target,
            kind: self.kind,
            seq: self.seq,
            file: self.file,
            spans: self.spans@,
        }
    }
}

/// A copy of `spans`.
pub fn copy_spans(spans: &Vec<Span>) -> (r: Vec<Span>)
    ensures
        r@ == spans@,
{
    let mut out: Vec<Span> = Vec::new();
    for i in 0..spans.len()
        invariant
            out@ == spans@.take(i as int),
    {
        out.push(spans[i]);
        proof {
            assert(spans@.take(i + 1) =~= spans@.take(i as int).push(spans@[i as int]));
        }
    }
    proof {
        assert(spans@.take(spans@.len() as int) =~= spans@);
    }
    out
}

impl Clone for StoreEdgeRef {
    fn clone(&self) -> (r: StoreEdgeRef)
        ensures
            r@ == self@,
    {
        StoreEdgeRef {
            source: self.source,
            target: self.target,
            kind: self.kind.clone(),
            seq: self.seq,
            file: self.file,
            spans: copy_spans(&self.spans),
        }
    }
}

/// Contents of a list of live edges.
pub open spec fn edge_views(edges: Seq<StoreEdgeRef>) -> Seq<EdgeView> {
    Seq::new(edges.len(), |i: int| edges[i]@)
}

/// An edge that a pass has resolved and not yet inserted.
#[derive(Debug)]
pub struct PendingEdge {
    pub source: NodeId,
    pub target: NodeId,
    pub kind: EdgeKind,
    pub file: FileId,
    pub spans: Vec<Span>,
}

/// Contents of a pending edge.
pub struct PendingView {
    pub source: NodeId,
    pub target: NodeId,
    pub kind: EdgeKind,
    pub file: FileId,
    pub spans: Seq<Span>,
}

impl View for PendingEdge {
    type V = PendingView;

    open spec fn view(&self) -> PendingView {
        PendingView {
            source: self.source,
            target: self.target,
            kind: self.kind,
            file: self.file,
            spans: self.spans@,
        }
    }
}

impl Clone for PendingEdge {
    fn clone(&self) -> (r: PendingEdge)
        ensures
            r@ == self@,
    {
        PendingEdge {
            source: self.source,
            target: self.target,
            kind: self.kind.clone(),
            file: self.file,
            spans: copy_spans(&self.spans),
        }
    }
}

/// Contents of a list of pending edges.
pub open spec fn pending_views(edges: Seq<PendingEdge>) -> Seq<PendingView> {
    Seq::new(edges.len(), |i: int| edges[i]@)
}

/// Contents of the pending edges of each file.
pub open spec fn pending_views_by_file(files: Seq<Vec<PendingEdge>>) -> Seq<Seq<PendingView>> {
    Seq::new(files.len(), |i: int| pending_views(files[i]@))
}

/// Whether a delta adds or removes its edge.
#[derive(Clone, Copy, Debug, PartialEq, Eq, Structural)]
pub enum DeltaOp {
    Add,
    Remove,
}

/// One change to the edge store.
#[derive(Clone, Debug)]
pub struct DeltaEdge {
    pub source: NodeId,
    pub target: NodeId,
    pub kind: EdgeKind,
    pub seq: u64,
    pub op: DeltaOp,
    pub file: FileId,
    pub spans: Vec<Span>,
}

/// Contents of a delta.
pub struct DeltaView {
    pub source: NodeId,
    pub target: NodeId,
    pub kind: EdgeKind,
    pub seq: u64,
    pub op: DeltaOp,
    pub file: FileId,
    pub spans: Seq<Span>,
}

impl View for DeltaEdge {
    type V = DeltaView;

    open spec fn view(&self) -> DeltaView {
        DeltaView {
            source: self.source,
            target: self.target,
            kind: self.kind,
            seq: self.seq,
            op: self.op,
            file: self.file,
            spans: self.spans@,
        }
    }
}

impl DeltaEdge {
    /// Whether the delta adds its edge.
    pub fn is_add(&self) -> (r: bool)
        ensures
            r == (self.op == DeltaOp::Add),
    {
        self.op == DeltaOp::Add
    }
}

/// Contents of a list of deltas.
pub open spec fn delta_views(edges: Seq<DeltaEdge>) -> Seq<DeltaView> {
    Seq::new(edges.len(), |i: int| edges[i]@)
}

/// Contents of the deltas of each file.
pub open spec fn delta_views_by_file(files: Seq<Vec<DeltaEdge>>) -> Seq<Seq<DeltaView>> {
    Seq::new(files.len(), |i: int| delta_views(files[i]@))
}

/// The live edges of a graph.
pub struct EdgeStore {
    pub edges: Vec<StoreEdgeRef>,
    /// Sequence number of the next insertion.
    pub next_seq: u64,
}

/// Contents of an edge store.
pub struct StoreView {
    /// Live edges, in insertion order.
    pub edges: Seq<EdgeView>,
    /// Sequence number of the next insertion.
    pub next_seq: u64,
}

impl View for EdgeStore {
    type V = StoreView;

    open spec fn view(&self) -> StoreView {
        StoreView { edges: edge_views(self.edges@), next_seq: self.next_seq }
    }
}

/// The sequence number after `seq`.
pub open spec fn next_seq_after(seq: u64) -> u64 {
    if seq < u64::MAX {
        (seq + 1) as u64
    } else {
        0
    }
}

impl StoreView {
    /// The store with one more edge at the end.
    pub open spec fn added(
        self,
        source: NodeId,
        target: NodeId,
        kind: EdgeKind,
        file: FileId,
        spans: Seq<Span>,
    ) -> StoreView {
        StoreView {
            edges: self.edges.push(
                EdgeView { source, target, kind, seq: self.next_seq, file, spans },
            ),
            next_seq: next_seq_after(self.next_seq),
        }
    }
}

impl StoreView {
    /// The store without the edges that have the given source, target, kind and file.
    pub open spec fn removed(
        self,
        source: NodeId,
        target: NodeId,
        kind: EdgeKind,
        file: FileId,
    ) -> StoreView {
        StoreView {
            edges: edges_without(
                self.edges,
                source,
                target,
                kind,
                file,
                self.edges.len() as int,
            ),
            next_seq: next_seq_after(self.next_seq),
        }
    }
}

/// The store after the first `n` of `deltas` were applied. One that removes an edge
/// removes every edge with its source, target, kind and file.
pub open spec fn with_deltas(store: StoreView, deltas: Seq<DeltaView>, n: int) -> StoreView
    decreases n,
{
    if n <= 0 {
        store
    } else {
        let before = with_deltas(store, deltas, n - 1);
        let d = deltas[n - 1];
        match d.op {
            DeltaOp::Add => StoreView {
                edges: before.edges.push(
                    EdgeView {
                        source: d.source,
                        target: d.target,
                        kind: d.kind,
                        seq: d.seq,
                        file: d.file,
                        spans: d.spans,
                    },
                ),
                next_seq: next_seq_after(before.next_seq),
            },
            DeltaOp::Remove => before.removed(d.source, d.target, d.kind, d.file),
        }
    }
}

/// The edges among the first `n` that leave `node`.
pub open spec fn edges_out_of(edges: Seq<EdgeView>, node: NodeId, n: int) -> Seq<EdgeView>
    decreases n,
{
    if n <= 0 {
        Seq::empty()
    } else {
        let before = edges_out_of(edges, node, n - 1);
        if edges[n - 1].source == node {
            before.push(edges[n - 1])
        } else {
            before
        }
    }
}

/// The edges among the first `n` that enter `node`.
pub open spec fn edges_into(edges: Seq<EdgeView>, node: NodeId, n: int) -> Seq<EdgeView>
    decreases n,
{
    if n <= 0 {
        Seq::empty()
    } else {
        let before = edges_into(edges, node, n - 1);
        if edges[n - 1].target == node {
            before.push(edges[n - 1])
        } else {
            before
        }
    }
}

/// The edges among the first `n` that touch none of `dead`.
pub open spec fn edges_without_nodes(edges: Seq<EdgeView>, dead: Seq<NodeId>, n: int) -> Seq<
    EdgeView,
>
    decreases n,
{
    if n <= 0 {
        Seq::empty()
    } else {
        let before = edges_without_nodes(edges, dead, n - 1);
        if dead.contains(edges[n - 1].source) || dead.contains(edges[n - 1].target) {
            before
        } else {
            before.push(edges[n - 1])
        }
    }
}

/// The edges among the first `n` that differ from the given one in source, target,
/// kind or file.
pub open spec fn edges_without(
    edges: Seq<EdgeView>,
    source: NodeId,
    target: NodeId,
    kind: EdgeKind,
    file: FileId,
    n: int,
) -> Seq<EdgeView>
    decreases n,
{
    if n <= 0 {
        Seq::empty()
    } else {
        let before = edges_without(edges, source, target, kind, file, n - 1);
        let e = edges[n - 1];
        if e.source == source && e.target == target && e.kind == kind && e.file == file {
            before
        } else {
            before.push(e)
        }
    }
}

/// One call of a node: the caller and the shape of the call.
#[derive(Clone, Copy, Debug, PartialEq, Eq, Structural)]
pub struct CallerRef {
    pub caller: NodeId,
    pub argument_count: u8,
    pub is_async: bool,
}

/// The calls of `node` among the first `n` edges, in insertion order.
pub open spec fn callers_of(edges: Seq<EdgeView>, node: NodeId, n: int) -> Seq<CallerRef>
    decreases n,
{
    if n <= 0 {
        Seq::empty()
    } else {
        let before = callers_of(edges, node, n - 1);
        let e = edges[n - 1];
        match e.kind {
            EdgeKind::Calls { argument_count, is_async, resolved_via } => if e.target == node {
                before.push(CallerRef { caller: e.source, argument_count, is_async })
            } else {
                before
            },
            _ => before,
        }
    }
}

impl EdgeStore {
    /// A store without edges.
    pub fn new() -> (r: EdgeStore)
        ensures
            r@.edges == Seq::<EdgeView>::empty(),
            r@.next_seq == 0,
    {
        let r = EdgeStore { edges: Vec::new(), next_seq: 0 };
        proof {
            assert(r@.edges =~= Seq::<EdgeView>::empty());
        }
        r
    }

    /// Sequence number of the next insertion.
    pub fn seq_counter(&self) -> (r: u64)
        ensures
            r == self@.next_seq,
    {
        self.next_seq
    }

    /// Adds an edge that has spans.
    pub fn add_edge_with_spans(
        &mut self,
        source: NodeId,
        target: NodeId,
        kind: EdgeKind,
        file: FileId,
        spans: Vec<Span>,
    )
        ensures
            final(self)@ == old(self)@.added(source, target, kind, file, spans@),
    {
        let seq: u64 = self.next_seq;
        let ghost e = EdgeView { source, target, kind, seq, file, spans: spans@ };
        self.edges.push(StoreEdgeRef { source, target, kind, seq, file, spans });
        self.next_seq = if seq < u64::MAX {
            seq + 1
        } else {
            0
        };
        proof {
            assert(self@.edges =~= old(self)@.edges.push(e));
        }
    }

    /// Applies `deltas`, in order.
    pub fn add_deltas(&mut self, deltas: &Vec<DeltaEdge>)
        ensures
            final(self)@ == with_deltas(
                old(self)@,
                delta_views(deltas@),
                deltas@.len() as int,
            ),
    {
        for i in 0..deltas.len()
            invariant
                self@ == with_deltas(old(self)@, delta_views(deltas@), i as int),
        {
            let d = &deltas[i];
            assert(delta_views(deltas@)[i as int] == d@);
            let ghost before = self@;
            if d.is_add() {
                let e = StoreEdgeRef {
                    source: d.source,
                    target: d.target,
                    kind: d.kind.clone(),
                    seq: d.seq,
                    file: d.file,
                    spans: copy_spans(&d.spans),
                };
                self.edges.push(e);
                self.next_seq = if self.next_seq < u64::MAX {
                    self.next_seq + 1
                } else {
                    0
                };
                proof {
                    assert(self@.edges =~= before.edges.push(e@));
                }
            } else {
                self.remove_edge(d.source, d.target, &d.kind, d.file);
            }
        }
    }

    /// Removes every edge with the given source, target, kind and file.
    pub fn remove_edge(&mut self, source: NodeId, target: NodeId, kind: &EdgeKind, file: FileId)
        ensures
            final(self)@ == old(self)@.removed(source, target, *kind, file),
    {
        let ghost before = self@;
        let mut kept: Vec<StoreEdgeRef> = Vec::new();
        proof {
            assert(edge_views(kept@) =~= Seq::<EdgeView>::empty());
        }
        for i in 0..self.edges.len()
            invariant
                self@ == before,
                edge_views(kept@) == edges_without(
                    before.edges,
                    source,
                    target,
                    *kind,
                    file,
                    i as int,
                ),
        {
            let e = &self.edges[i];
            assert(before.edges[i as int] == e@);
            if !(e.source == source && e.target == target && same_kind(&e.kind, kind) && e.file
                == file) {
                let ghost mid = edge_views(kept@);
                let copy = e.clone();
                kept.push(copy);
                proof {
                    assert(edge_views(kept@) =~= mid.push(copy@));
                }
            }
        }
        self.edges = kept;
        self.next_seq = if self.next_seq < u64::MAX {
            self.next_seq + 1
        } else {
            0
        };
    }

    /// Adds an edge without spans.
    pub fn add_edge(&mut self, source: NodeId, target: NodeId, kind: EdgeKind, file: FileId)
        ensures
            final(self)@ == old(self)@.added(source, target, kind, file, Seq::empty()),
    {
        let spans: Vec<Span> = Vec::new();
        proof {
            assert(spans@ =~= Seq::<Span>::empty());
        }
        self.add_edge_with_spans(source, target, kind, file, spans);
    }

    /// The edges that leave `node`, in insertion order.
    pub fn edges_from(&self, node: NodeId) -> (r: Vec<StoreEdgeRef>)
        ensures
            edge_views(r@) == edges_out_of(self@.edges, node, self@.edges.len() as int),
    {
        let mut out: Vec<StoreEdgeRef> = Vec::new();
        proof {
            assert(edge_views(out@) =~= Seq::<EdgeView>::empty());
        }
        for i in 0..self.edges.len()
            invariant
                edge_views(out@) == edges_out_of(self@.edges, node, i as int),
        {
            if self.edges[i].source == node {
                let ghost before = edge_views(out@);
                out.push(self.edges[i].clone());
                proof {
                    assert(edge_views(out@) =~= before.push(self@.edges[i as int]));
                }
            }
        }
        out
    }

    /// The edges that enter `node`, in insertion order.
    pub fn edges_to(&self, node: NodeId) -> (r: Vec<StoreEdgeRef>)
        ensures
            edge_views(r@) == edges_into(self@.edges, node, self@.edges.len() as int),
    {
        let mut out: Vec<StoreEdgeRef> = Vec::new();
        proof {
            assert(edge_views(out@) =~= Seq::<EdgeView>::empty());
        }
        for i in 0..self.edges.len()
            invariant
                edge_views(out@) == edges_into(self@.edges, node, i as int),
        {
            if self.edges[i].target == node {
                let ghost before = edge_views(out@);
                out.push(self.edges[i].clone());
                proof {
                    assert(edge_views(out@) =~= before.push(self@.edges[i as int]));
                }
            }
        }
        out
    }

    /// Every live edge, in insertion order.
    pub fn all_live_forward_edges(&self) -> (r: Vec<StoreEdgeRef>)
        ensures
            edge_views(r@) == self@.edges,
    {
        let mut out: Vec<StoreEdgeRef> = Vec::new();
        for i in 0..self.edges.len()
            invariant
                out@.len() == i,
                forall|j: int| 0 <= j < i ==> (#[trigger] out@[j])@ == self.edges@[j]@,
        {
            out.push(self.edges[i].clone());
        }
        proof {
            assert(edge_views(out@) =~= self@.edges);
        }
        out
    }

    /// The calls of `node`, in insertion order.
    pub fn calls_into(&self, node: NodeId) -> (r: Vec<CallerRef>)
        ensures
            r@ == callers_of(self@.edges, node, self@.edges.len() as int),
    {
        let mut out: Vec<CallerRef> = Vec::new();
        for i in 0..self.edges.len()
            invariant
                out@ == callers_of(self@.edges, node, i as int),
        {
            assert(self@.edges[i as int] == self.edges@[i as int]@);
            if self.edges[i].target == node {
                match &self.edges[i].kind {
                    EdgeKind::Calls { argument_count, is_async, resolved_via } => {
                        out.push(
                            CallerRef {
                                caller: self.edges[i].source,
                                argument_count: *argument_count,
                                is_async: *is_async,
                            },
                        );
                    },
                    _ => {},
                }
            }
        }
        out
    }

    /// Drops every edge that touches one of `dead`.
    pub fn tombstone_edges_for_nodes(&mut self, dead: &Vec<NodeId>)
        ensures
            final(self)@.next_seq == old(self)@.next_seq,
            final(self)@.edges == edges_without_nodes(
                old(self)@.edges,
                dead@,
                old(self)@.edges.len() as int,
            ),
    {
        let mut kept: Vec<StoreEdgeRef> = Vec::new();
        proof {
            assert(edge_views(kept@) =~= Seq::<EdgeView>::empty());
        }
        for i in 0..self.edges.len()
            invariant
                edge_views(kept@) == edges_without_nodes(self@.edges, dead@, i as int),
        {
            assert(self@.edges[i as int] == self.edges@[i as int]@);
            if !has_node(dead, self.edges[i].source) && !has_node(dead, self.edges[i].target) {
                let ghost before = edge_views(kept@);
                kept.push(self.edges[i].clone());
                proof {
                    assert(edge_views(kept@) =~= before.push(self@.edges[i as int]));
                }
            }
        }
        self.edges = kept;
    }
}

proof fn lemma_sieved(
    edges: Seq<EdgeView>,
    node: NodeId,
    dead: Seq<NodeId>,
    source: NodeId,
    target: NodeId,
    kind: EdgeKind,
    file: FileId,
    n: int,
)
    requires
        0 <= n <= edges.len(),
    ensures
        edges_out_of(edges, node, n) == edges.take(n).filter(|e: EdgeView| e.source == node),
        edges_into(edges, node, n) == edges.take(n).filter(|e: EdgeView| e.target == node),
        edges_without_nodes(edges, dead, n) == edges.take(n).filter(
            |e: EdgeView| !dead.contains(e.source) && !dead.contains(e.target),
        ),
        edges_without(edges, source, target, kind, file, n) == edges.take(n).filter(
            |e: EdgeView|
                !(e.source == source && e.target == target && e.kind == kind && e.file == file),
        ),
        callers_of(edges, node, n) == edges.take(n).filter(
            |e: EdgeView| e.kind is Calls && e.target == node,
        ).map_values(
            |e: EdgeView|
                CallerRef {
                    caller: e.source,
                    argument_count: e.kind->Calls_argument_count,
                    is_async: e.kind->Calls_is_async,
                },
        ),
    decreases n,
{
    let a = |e: EdgeView| e.source == node;
    let b = |e: EdgeView| e.target == node;
    let c = |e: EdgeView| !dead.contains(e.source) && !dead.contains(e.target);
    let d = |e: EdgeView|
        !(e.source == source && e.target == target && e.kind == kind && e.file == file);
    let f = |e: EdgeView| e.kind is Calls && e.target == node;
    let call = |e: EdgeView|
        CallerRef {
            caller: e.source,
            argument_count: e.kind->Calls_argument_count,
            is_async: e.kind->Calls_is_async,
        };
    if n > 0 {
        lemma_sieved(edges, node, dead, source, target, kind, file, n - 1);
        lemma_filter_take(edges, a, n);
        lemma_filter_take(edges, b, n);
        lemma_filter_take(edges, c, n);
        lemma_filter_take(edges, d, n);
        lemma_filter_take(edges, f, n);
        let before = edges.take(n - 1).filter(f);
        assert(before.push(edges[n - 1]).map_values(call) =~= before.map_values(call).push(
            call(edges[n - 1]),
        ));
    } else {
        reveal(Seq::filter);
        assert(edges.take(0) =~= Seq::empty());
        assert(Seq::<EdgeView>::empty().filter(f).map_values(call) =~= Seq::empty());
    }
}

/// Looking up the edges from or to a node, and the calls of it, gives those and no others,
/// in their order; taking out nodes, or an edge, leaves all other edges.
pub proof fn law_edges_are_told_by_their_ends(
    store: StoreView,
    node: NodeId,
    dead: Seq<NodeId>,
    source: NodeId,
    target: NodeId,
    kind: EdgeKind,
    file: FileId,
)
    ensures
        ({
            let edges = store.edges;
            let n = edges.len() as int;
            &&& edges_out_of(edges, node, n) == edges.filter(|e: EdgeView| e.source == node)
            &&& edges_into(edges, node, n) == edges.filter(|e: EdgeView| e.target == node)
            &&& edges_without_nodes(edges, dead, n) == edges.filter(
                |e: EdgeView| !dead.contains(e.source) && !dead.contains(e.target),
            )
            &&& store.removed(source, target, kind, file).edges == edges.filter(
                |e: EdgeView|
                    !(e.source == source && e.target == target && e.kind == kind && e.file
                        == file),
            )
            &&& callers_of(edges, node, n) == edges.filter(
                |e: EdgeView| e.kind is Calls && e.target == node,
            ).map_values(
                |e: EdgeView|
                    CallerRef {
                        caller: e.source,
                        argument_count: e.kind->Calls_argument_count,
                        is_async: e.kind->Calls_is_async,
                    },
            )
        }),
{
    let n = store.edges.len() as int;
    assert(store.edges.take(n) =~= store.edges);
    lemma_sieved(store.edges, node, dead, source, target, kind, file, n);
}

/// An edge that is added goes behind all others, with the number that is next.
pub proof fn law_added_edge_is_the_last(
    store: StoreView,
    source: NodeId,
    target: NodeId,
    kind: EdgeKind,
    file: FileId,
    spans: Seq<Span>,
)
    ensures
        ({
            let r = store.added(source, target, kind, file, spans);
            &&& r.edges.len() == store.edges.len() + 1
            &&& forall|i: int|
                0 <= i < store.edges.len() ==> #[trigger] r.edges[i] == store.edges[i]
            &&& r.edges.last().source == source
            &&& r.edges.last().target == target
            &&& r.edges.last().kind == kind
            &&& r.edges.last().file == file
            &&& r.edges.last().spans == spans
            &&& r.edges.last().seq == store.next_seq
            &&& store.next_seq < u64::MAX ==> r.next_seq == store.next_seq + 1
        }),
{
}

} // verus!
