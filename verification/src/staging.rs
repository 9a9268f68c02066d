//! Staging graphs: what one parsed file contributes before it is committed.
use vstd::prelude::*;

use crate::arena::NodeEntry;
use crate::c_indirect::CIndirectStagingPayload;
use crate::hints::{GoHints, HintsView};
use crate::ids::{FileId, NodeId, Span, StringId};
use crate::kinds::EdgeKind;
use crate::lists::views;
use crate::strings::text_of;

verus! {

/// One staged operation.
#[derive(Debug)]
pub enum StagingOp {
    AddNode { entry: NodeEntry, expected_id: Option<NodeId> },
    AddEdge { source: NodeId, target: NodeId, kind: EdgeKind, file: FileId, spans: Vec<Span> },
    InternString { local_id: StringId, value: String },
}

/// Contents of a staged operation.
pub enum OpView {
    AddNode { entry: NodeEntry, expected_id: Option<NodeId> },
    AddEdge { source: NodeId, target: NodeId, kind: EdgeKind, file: FileId, spans: Seq<Span> },
    InternString { local_id: StringId, value: Seq<char> },
}

impl View for StagingOp {
    type V = OpView;

    open spec fn view(&self) -> OpView {
        match self {
            StagingOp::AddNode { entry, expected_id } => OpView::AddNode {
                entry: *entry,
                expected_id: *expected_id,
            },
            StagingOp::AddEdge { source, target, kind, file, spans } => OpView::AddEdge {
                source: *source,
                target: *target,
                kind: *kind,
                file: *file,
                spans: spans@,
            },
            StagingOp::InternString { local_id, value } => OpView::InternString {
                local_id: *local_id,
                value: value@,
            },
        }
    }
}

/// A staged node.
pub struct StagedNode {
    pub entry: NodeEntry,
    pub expected_id: Option<NodeId>,
}

/// A staged edge.
pub struct StagedEdge {
    pub source: NodeId,
    pub target: NodeId,
    pub kind: EdgeKind,
    pub spans: Seq<Span>,
}

/// A staged string.
pub struct StagedString {
    pub local_id: StringId,
    pub value: Seq<char>,
}

/// The nodes that the first `n` operations stage, in order.
pub open spec fn staged_nodes(ops: Seq<OpView>, n: int) -> Seq<StagedNode>
    decreases n,
{
    if n <= 0 {
        Seq::empty()
    } else {
        match ops[n - 1] {
            OpView::AddNode { entry, expected_id } => staged_nodes(ops, n - 1).push(
                StagedNode { entry, expected_id },
            ),
            _ => staged_nodes(ops, n - 1),
        }
    }
}

/// The edges that the first `n` operations stage, in order.
pub open spec fn staged_edges(ops: Seq<OpView>, n: int) -> Seq<StagedEdge>
    decreases n,
{
    if n <= 0 {
        Seq::empty()
    } else {
        match ops[n - 1] {
            OpView::AddEdge { source, target, kind, file, spans } => staged_edges(ops, n - 1).push(
                StagedEdge { source, target, kind, spans },
            ),
            _ => staged_edges(ops, n - 1),
        }
    }
}

/// The strings that the first `n` operations stage, in order.
pub open spec fn staged_strings(ops: Seq<OpView>, n: int) -> Seq<StagedString>
    decreases n,
{
    if n <= 0 {
        Seq::empty()
    } else {
        match ops[n - 1] {
            OpView::InternString { local_id, value } => staged_strings(ops, n - 1).push(
                StagedString { local_id, value },
            ),
            _ => staged_strings(ops, n - 1),
        }
    }
}

/// A count, at most the largest number that fits.
pub open spec fn clamped(n: int) -> u32 {
    if n <= u32::MAX {
        n as u32
    } else {
        u32::MAX
    }
}

/// The text of the first staged string `id` at or after position `i`.
pub open spec fn local_text_from(ops: Seq<OpView>, id: StringId, i: int) -> Option<Seq<char>>
    decreases ops.len() - i,
{
    if i < 0 || i >= ops.len() {
        None
    } else {
        match ops[i] {
            OpView::InternString { local_id, value } => if local_id == id {
                Some(value)
            } else {
                local_text_from(ops, id, i + 1)
            },
            _ => local_text_from(ops, id, i + 1),
        }
    }
}

/// What one parsed file contributes.
pub struct StagingGraph {
    pub ops: Vec<StagingOp>,
    pub go_hints: GoHints,
    pub c_indirect: Option<CIndirectStagingPayload>,
}

impl StagingGraph {
    /// The staged operations.
    pub open spec fn spec_ops(&self) -> Seq<OpView> {
        views(self.ops@)
    }

    /// The staged nodes.
    pub open spec fn nodes(&self) -> Seq<StagedNode> {
        staged_nodes(self.spec_ops(), self.spec_ops().len() as int)
    }

    /// The staged edges.
    pub open spec fn edges(&self) -> Seq<StagedEdge> {
        staged_edges(self.spec_ops(), self.spec_ops().len() as int)
    }

    /// The staged strings.
    pub open spec fn strings(&self) -> Seq<StagedString> {
        staged_strings(self.spec_ops(), self.spec_ops().len() as int)
    }

    /// Nothing is staged.
    pub fn new() -> (r: StagingGraph)
        ensures
            r.spec_ops() == Seq::<OpView>::empty(),
            r.go_hints@ == HintsView::none(),
            r.c_indirect is None,
    {
        let r = StagingGraph { ops: Vec::new(), go_hints: GoHints::new(), c_indirect: None };
        proof {
            assert(r.spec_ops() =~= Seq::<OpView>::empty());
        }
        r
    }

    /// The staged operations.
    pub fn operations(&self) -> (r: &Vec<StagingOp>)
        ensures
            *r == self.ops,
    {
        &self.ops
    }

    /// The staged Go hints.
    pub fn go_hints(&self) -> (r: &GoHints)
        ensures
            *r == self.go_hints,
    {
        &self.go_hints
    }

    /// The staged C payload.
    pub fn c_indirect(&self) -> (r: Option<&CIndirectStagingPayload>)
        ensures
            match r {
                Some(p) => self.c_indirect == Some(*p),
                None => self.c_indirect is None,
            },
    {
        match &self.c_indirect {
            Some(p) => Some(p),
            None => None,
        }
    }

    /// Number of staged nodes.
    pub fn node_count_u32(&self) -> (r: u32)
        ensures
            r == clamped(self.nodes().len() as int),
    {
        let mut n: u32 = 0;
        for i in 0..self.ops.len()
            invariant
                n == clamped(staged_nodes(self.spec_ops(), i as int).len() as int),
        {
            assert(self.spec_ops()[i as int] == self.ops@[i as int]@);
            match &self.ops[i] {
                StagingOp::AddNode { .. } => {
                    n = if n < u32::MAX {
                        n + 1
                    } else {
                        n
                    };
                },
                _ => {},
            }
        }
        n
    }

    /// Number of staged edges.
    pub fn edge_count_u32(&self) -> (r: u32)
        ensures
            r == clamped(self.edges().len() as int),
    {
        let mut n: u32 = 0;
        for i in 0..self.ops.len()
            invariant
                n == clamped(staged_edges(self.spec_ops(), i as int).len() as int),
        {
            assert(self.spec_ops()[i as int] == self.ops@[i as int]@);
            match &self.ops[i] {
                StagingOp::AddEdge { .. } => {
                    n = if n < u32::MAX {
                        n + 1
                    } else {
                        n
                    };
                },
                _ => {},
            }
        }
        n
    }

    /// Number of staged strings.
    pub fn string_count_u32(&self) -> (r: u32)
        ensures
            r == clamped(self.strings().len() as int),
    {
        let mut n: u32 = 0;
        for i in 0..self.ops.len()
            invariant
                n == clamped(staged_strings(self.spec_ops(), i as int).len() as int),
        {
            assert(self.spec_ops()[i as int] == self.ops@[i as int]@);
            match &self.ops[i] {
                StagingOp::InternString { .. } => {
                    n = if n < u32::MAX {
                        n + 1
                    } else {
                        n
                    };
                },
                _ => {},
            }
        }
        n
    }

    /// Stages a node; returns the identity it has until it is committed, which counts
    /// the nodes staged before.
    pub fn add_node(&mut self, entry: NodeEntry) -> (r: NodeId)
        ensures
            r == (NodeId { index: clamped(old(self).nodes().len() as int), generation: 1 }),
            final(self).spec_ops() == old(self).spec_ops().push(
                (OpView::AddNode { entry, expected_id: Some(r) }),
            ),
            final(self).go_hints == old(self).go_hints,
            final(self).c_indirect == old(self).c_indirect,
    {
        let id: NodeId = NodeId::new(self.node_count_u32(), 1);
        let ghost before = self.ops@;
        self.ops.push(StagingOp::AddNode { entry, expected_id: Some(id) });
        proof {
            crate::lists::lemma_views_push(before, self.ops@.last());
            assert(self.ops@ =~= before.push(self.ops@.last()));
        }
        id
    }

    /// Stages an edge that stands at `spans`.
    pub fn add_edge_with_spans(
        &mut self,
        source: NodeId,
        target: NodeId,
        kind: EdgeKind,
        file: FileId,
        spans: Vec<Span>,
    )
        ensures
            final(self).spec_ops() == old(self).spec_ops().push(
                (OpView::AddEdge { source, target, kind, file, spans: spans@ }),
            ),
            final(self).go_hints == old(self).go_hints,
            final(self).c_indirect == old(self).c_indirect,
    {
        let ghost before = self.ops@;
        self.ops.push(StagingOp::AddEdge { source, target, kind, file, spans });
        proof {
            crate::lists::lemma_views_push(before, self.ops@.last());
            assert(self.ops@ =~= before.push(self.ops@.last()));
        }
    }

    /// Stages an edge.
    pub fn add_edge(&mut self, source: NodeId, target: NodeId, kind: EdgeKind, file: FileId)
        ensures
            final(self).spec_ops() == old(self).spec_ops().push(
                (OpView::AddEdge { source, target, kind, file, spans: Seq::empty() }),
            ),
            final(self).go_hints == old(self).go_hints,
            final(self).c_indirect == old(self).c_indirect,
    {
        self.add_edge_with_spans(source, target, kind, file, Vec::new());
    }

    /// Stages a string.
    pub fn intern_string(&mut self, local_id: StringId, value: String)
        ensures
            final(self).spec_ops() == old(self).spec_ops().push(
                (OpView::InternString { local_id, value: value@ }),
            ),
            final(self).go_hints == old(self).go_hints,
            final(self).c_indirect == old(self).c_indirect,
    {
        let ghost before = self.ops@;
        self.ops.push(StagingOp::InternString { local_id, value });
        proof {
            crate::lists::lemma_views_push(before, self.ops@.last());
            assert(self.ops@ =~= before.push(self.ops@.last()));
        }
    }

    /// The text of staged string `id`.
    pub fn resolve_local_string(&self, id: StringId) -> (r: Option<String>)
        ensures
            text_of(r) == local_text_from(self.spec_ops(), id, 0),
    {
        for i in 0..self.ops.len()
            invariant
                local_text_from(self.spec_ops(), id, 0) == local_text_from(
                    self.spec_ops(),
                    id,
                    i as int,
                ),
        {
            assert(self.spec_ops()[i as int] == self.ops@[i as int]@);
            match &self.ops[i] {
                StagingOp::InternString { local_id, value } => {
                    if *local_id == id {
                        return Some(value.clone());
                    }
                },
                _ => {},
            }
        }
        None
    }
}

} // verus!
