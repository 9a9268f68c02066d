//! Calls and references that promoted methods share with the methods they stand for.
use vstd::prelude::*;

use crate::arena::live;
use crate::edges::{callers_of, CallerRef, StoreView};
use crate::graph::{CodeGraph, GraphView};
use crate::hints::{GoReceiverHintKind, ReceiverCallView, ReceiverHintView};
use crate::ids::{FileId, NodeId};
use crate::kinds::{EdgeKind, ResolvedVia};
use crate::pass_go_method_set::lookup::{
    callable_with_text, declared_type, inherits_target, inherits_target_of_promoted, out_edges,
    resolve_qualified_name_to_callable, resolve_qualified_name_to_type_node, return_type_from,
    type_with_text, walk_typeof_return_to_type_node, walk_typeof_to_type_node,
};
use crate::pass_go_method_set::materialise::{
    find_outer, outer_at, LocalView, PassLocalIndices, PromotedKey,
};
use crate::pass_go_method_set::promotion::{count_up, counted_up};
use crate::sorting::{dedup_neighbours, deduped, sorted, stable_sort, Ranked};

verus! {

/// Type declarations that are followed from a receiver to its type.
pub const MAX_RECEIVER_HOPS: usize = 4;

/// A receiver whose type is known.
#[derive(Clone, Copy, Debug, PartialEq, Eq, Structural)]
pub struct ResolvedReceiver {
    pub node: NodeId,
    /// Whether the receiver is written as a pointer.
    pub pointer: bool,
}

/// The type of a receiver expression.
pub open spec fn receiver_type(g: GraphView, kind: ReceiverHintView) -> Option<ResolvedReceiver> {
    let node = match kind {
        ReceiverHintView::TypePrefixed { type_text } => type_with_text(g, type_text),
        ReceiverHintView::PointerPrefixed { type_text } => type_with_text(g, type_text),
        ReceiverHintView::LocalIdent { binding_local } => declared_type(
            g,
            binding_local,
            MAX_RECEIVER_HOPS as int,
        ),
        ReceiverHintView::CallReturn { callee_qn } => match callable_with_text(g, callee_qn) {
            Some(callee) => return_type_from(g.nodes, out_edges(g, callee), 0),
            None => None,
        },
    };
    match node {
        Some(n) => Some(
            ResolvedReceiver { node: n, pointer: kind is PointerPrefixed },
        ),
        None => None,
    }
}

/// Works out the type of a receiver expression.
pub fn resolve_receiver_kind(graph: &CodeGraph, kind: &GoReceiverHintKind) -> (r: Option<
    ResolvedReceiver,
>)
    requires
        graph.wf(),
    ensures
        r == receiver_type(graph@, kind@),
{
    match kind {
        GoReceiverHintKind::TypePrefixed { type_text } => {
            match resolve_qualified_name_to_type_node(graph, type_text.as_str()) {
                Some(node) => Some(ResolvedReceiver { node, pointer: false }),
                None => None,
            }
        },
        GoReceiverHintKind::PointerPrefixed { type_text } => {
            match resolve_qualified_name_to_type_node(graph, type_text.as_str()) {
                Some(node) => Some(ResolvedReceiver { node, pointer: true }),
                None => None,
            }
        },
        GoReceiverHintKind::LocalIdent { binding_local } => {
            match walk_typeof_to_type_node(graph, *binding_local, MAX_RECEIVER_HOPS) {
                Some(node) => Some(ResolvedReceiver { node, pointer: false }),
                None => None,
            }
        },
        GoReceiverHintKind::CallReturn { callee_qn } => {
            match resolve_qualified_name_to_callable(graph, callee_qn.as_str()) {
                Some(callee) => match walk_typeof_return_to_type_node(graph, callee) {
                    Some(node) => Some(ResolvedReceiver { node, pointer: false }),
                    None => None,
                },
                None => None,
            }
        },
    }
}

/// A call of or reference to a promoted method, not yet in the graph.
#[derive(Clone, Copy, Debug, PartialEq, Eq, Structural)]
pub struct PendingShadow {
    pub caller: NodeId,
    pub target: NodeId,
    /// Whether the edge is a reference rather than a call.
    pub reference: bool,
    pub argument_count: u8,
    pub is_async: bool,
    pub file: FileId,
}

/// Shadows sort by caller, then by target, calls before references.
impl Ranked for PendingShadow {
    open spec fn ranks_before(self, other: PendingShadow) -> bool {
        self.caller.index < other.caller.index || (self.caller.index == other.caller.index && (
        self.target.index < other.target.index || (self.target.index == other.target.index
            && !self.reference && other.reference)))
    }

    open spec fn same_rank(self, other: PendingShadow) -> bool {
        self.caller.index == other.caller.index && self.target.index == other.target.index
            && self.reference == other.reference
    }

    fn is_ranked_before(&self, other: &PendingShadow) -> (r: bool) {
        self.caller.index < other.caller.index || (self.caller.index == other.caller.index && (
        self.target.index < other.target.index || (self.target.index == other.target.index
            && !self.reference && other.reference)))
    }

    fn is_same_rank(&self, other: &PendingShadow) -> (r: bool) {
        self.caller.index == other.caller.index && self.target.index == other.target.index
            && self.reference == other.reference
    }
}

/// The file of a node.
pub open spec fn file_of(g: GraphView, node: NodeId) -> FileId {
    match live(g.nodes, node) {
        Some(e) => e.file,
        None => FileId::spec_invalid(),
    }
}

/// The file of a node; the invalid file where the node is not live.
pub fn find_file(graph: &CodeGraph, node: NodeId) -> (r: FileId)
    ensures
        r == file_of(graph@, node),
{
    match graph.nodes.get(node) {
        Some(e) => e.file,
        None => FileId::invalid(),
    }
}

/// The call that shadows `c` on `target`.
pub open spec fn call_shadow(g: GraphView, c: CallerRef, target: NodeId) -> PendingShadow {
    PendingShadow {
        caller: c.caller,
        target,
        reference: false,
        argument_count: c.argument_count,
        is_async: c.is_async,
        file: file_of(g, c.caller),
    }
}

/// The reference that shadows `c` on `target`.
pub open spec fn reference_shadow(g: GraphView, c: CallerRef, target: NodeId) -> PendingShadow {
    PendingShadow {
        caller: c.caller,
        target,
        reference: true,
        argument_count: 0,
        is_async: false,
        file: file_of(g, c.caller),
    }
}

/// Which calls count: those of one shape, or all.
#[derive(Clone, Copy, Debug, PartialEq, Eq, Structural)]
pub struct CallShape {
    pub argument_count: u8,
    pub is_async: bool,
}

/// The call has the wanted shape.
pub open spec fn has_shape(c: CallerRef, shape: Option<CallShape>) -> bool {
    match shape {
        Some(s) => c.argument_count == s.argument_count && c.is_async == s.is_async,
        None => true,
    }
}

/// The shadows on `target` of the first `n` of `callers`, added to `pending`.
pub open spec fn with_shadows(
    g: GraphView,
    pending: Seq<PendingShadow>,
    callers: Seq<CallerRef>,
    target: NodeId,
    shape: Option<CallShape>,
    n: int,
) -> Seq<PendingShadow>
    decreases n,
{
    if n <= 0 {
        pending
    } else {
        let before = with_shadows(g, pending, callers, target, shape, n - 1);
        let c = callers[n - 1];
        if has_shape(c, shape) {
            before.push(call_shadow(g, c, target)).push(reference_shadow(g, c, target))
        } else {
            before
        }
    }
}

/// The shadows on `target` of the calls of `method`, added to `pending`.
pub open spec fn shadowing(
    g: GraphView,
    pending: Seq<PendingShadow>,
    method: NodeId,
    target: NodeId,
    shape: Option<CallShape>,
) -> Seq<PendingShadow> {
    let callers = callers_of(g.edges.edges, method, g.edges.edges.len() as int);
    with_shadows(g, pending, callers, target, shape, callers.len() as int)
}

fn add_shadows(
    graph: &CodeGraph,
    pending: &mut Vec<PendingShadow>,
    method: NodeId,
    target: NodeId,
    shape: Option<CallShape>,
)
    ensures
        final(pending)@ == shadowing(graph@, old(pending)@, method, target, shape),
{
    let callers = graph.edges.calls_into(method);
    for i in 0..callers.len()
        invariant
            pending@ == with_shadows(
                graph@,
                old(pending)@,
                callers@,
                target,
                shape,
                i as int,
            ),
    {
        let c: CallerRef = callers[i];
        let wanted: bool = match shape {
            Some(s) => c.argument_count == s.argument_count && c.is_async == s.is_async,
            None => true,
        };
        if wanted {
            let file: FileId = find_file(graph, c.caller);
            pending.push(
                PendingShadow {
                    caller: c.caller,
                    target,
                    reference: false,
                    argument_count: c.argument_count,
                    is_async: c.is_async,
                    file,
                },
            );
            pending.push(
                PendingShadow {
                    caller: c.caller,
                    target,
                    reference: true,
                    argument_count: 0,
                    is_async: false,
                    file,
                },
            );
        }
    }
}

/// The promoted method that a receiver call reaches.
pub open spec fn promoted_callee(g: GraphView, idx: LocalView, hint: ReceiverCallView) -> Option<
    NodeId,
> {
    match receiver_type(g, hint.receiver) {
        Some(r) => if r.pointer {
            outer_at(idx.outer_pointer, r.node, hint.method_name, idx.outer_pointer.len() as int)
        } else {
            outer_at(idx.outer_value, r.node, hint.method_name, idx.outer_value.len() as int)
        },
        None => None,
    }
}

/// The shadows that the first `n` receiver calls call for.
pub open spec fn hinted_shadows(g: GraphView, idx: LocalView, n: int) -> Seq<PendingShadow>
    decreases n,
{
    if n <= 0 {
        Seq::empty()
    } else {
        let before = hinted_shadows(g, idx, n - 1);
        let hint = g.hints.receiver_calls[n - 1];
        match promoted_callee(g, idx, hint) {
            Some(target) => shadowing(
                g,
                before,
                hint.callee_method,
                target,
                Some(
                    CallShape { argument_count: hint.argument_count, is_async: hint.is_async },
                ),
            ),
            None => before,
        }
    }
}

/// The shadows of all calls of the methods that the first `n` of `made` stand for, added
/// to `pending`.
pub open spec fn unhinted_shadows(
    g: GraphView,
    pending: Seq<PendingShadow>,
    made: Seq<PromotedKey>,
    n: int,
) -> Seq<PendingShadow>
    decreases n,
{
    if n <= 0 {
        pending
    } else {
        let before = unhinted_shadows(g, pending, made, n - 1);
        match inherits_target(g, made[n - 1].node) {
            Some(method) => shadowing(g, before, method, made[n - 1].node, None),
            None => before,
        }
    }
}

/// The shadows, sorted, each caller, target and kind once.
pub open spec fn distinct_shadows(pending: Seq<PendingShadow>) -> Seq<PendingShadow> {
    let s = sorted(pending);
    deduped(s, s.len() as int)
}

/// The shadow edges that the pass adds: those that the receiver calls call for, or,
/// where no receiver call is known, those of all calls.
pub open spec fn shadows(g: GraphView, idx: LocalView) -> Seq<PendingShadow> {
    if g.hints.receiver_calls.len() == 0 {
        distinct_shadows(
            unhinted_shadows(
                g,
                unhinted_shadows(g, Seq::empty(), idx.value, idx.value.len() as int),
                idx.pointer,
                idx.pointer.len() as int,
            ),
        )
    } else {
        distinct_shadows(hinted_shadows(g, idx, g.hints.receiver_calls.len() as int))
    }
}

/// The kind of a shadow edge.
pub open spec fn shadow_kind(p: PendingShadow) -> EdgeKind {
    if p.reference {
        EdgeKind::References
    } else {
        EdgeKind::Calls {
            argument_count: p.argument_count,
            is_async: p.is_async,
            resolved_via: ResolvedVia::Direct,
        }
    }
}

/// The store with the first `n` shadows added.
pub open spec fn with_shadow_edges(store: StoreView, pending: Seq<PendingShadow>, n: int) -> StoreView
    decreases n,
{
    if n <= 0 {
        store
    } else {
        let p = pending[n - 1];
        with_shadow_edges(store, pending, n - 1).added(
            p.caller,
            p.target,
            shadow_kind(p),
            p.file,
            Seq::empty(),
        )
    }
}

/// The graph with its shadow edges added.
pub open spec fn shadowed(g: GraphView, idx: LocalView) -> GraphView {
    let p = shadows(g, idx);
    GraphView { edges: with_shadow_edges(g.edges, p, p.len() as int), ..g }
}

fn emit_shadows(graph: &mut CodeGraph, pending: &Vec<PendingShadow>, emitted: &mut u32)
    requires
        old(graph).wf(),
    ensures
        final(graph).wf(),
        final(graph)@ == (GraphView {
            edges: with_shadow_edges(old(graph)@.edges, pending@, pending@.len() as int),
            ..old(graph)@
        }),
        *final(emitted) == counted_up(*old(emitted), pending@.len()),
{
    for i in 0..pending.len()
        invariant
            graph.wf(),
            graph@ == (GraphView {
                edges: with_shadow_edges(old(graph)@.edges, pending@, i as int),
                ..old(graph)@
            }),
            *emitted == counted_up(*old(emitted), i as nat),
    {
        let p: PendingShadow = pending[i];
        let kind: EdgeKind = if p.reference {
            EdgeKind::References
        } else {
            EdgeKind::Calls {
                argument_count: p.argument_count,
                is_async: p.is_async,
                resolved_via: ResolvedVia::Direct,
            }
        };
        graph.edges.add_edge(p.caller, p.target, kind, p.file);
        *emitted = count_up(*emitted);
    }
}

/// Where no receiver call is known, lets every caller of a method call and reference
/// the promoted methods that stand for it.
pub fn emit_shadow_calls_legacy(graph: &mut CodeGraph, idx: &PassLocalIndices, emitted: &mut u32)
    requires
        old(graph).wf(),
        old(graph)@.hints.receiver_calls.len() == 0,
    ensures
        final(graph).wf(),
        final(graph)@ == shadowed(old(graph)@, idx@),
        *final(emitted) == counted_up(*old(emitted), shadows(old(graph)@, idx@).len()),
{
    let ghost g = graph@;
    let mut pending: Vec<PendingShadow> = Vec::new();
    for i in 0..idx.value.len()
        invariant
            graph@ == g,
            pending@ == unhinted_shadows(g, Seq::empty(), idx@.value, i as int),
    {
        match inherits_target_of_promoted(graph, idx.value[i].node) {
            Some(method) => {
                add_shadows(graph, &mut pending, method, idx.value[i].node, None);
            },
            None => {},
        }
    }
    let ghost first = pending@;
    for i in 0..idx.pointer.len()
        invariant
            graph@ == g,
            pending@ == unhinted_shadows(g, first, idx@.pointer, i as int),
    {
        match inherits_target_of_promoted(graph, idx.pointer[i].node) {
            Some(method) => {
                add_shadows(graph, &mut pending, method, idx.pointer[i].node, None);
            },
            None => {},
        }
    }
    let ordered = stable_sort(pending);
    let distinct = dedup_neighbours(&ordered);
    emit_shadows(graph, &distinct, emitted);
}

/// Lets the callers of a method call and reference the promoted method that stands for
/// it, where the receiver of the call has the type that gained it.
pub fn emit_shadow_calls_and_references(
    graph: &mut CodeGraph,
    idx: &PassLocalIndices,
    emitted: &mut u32,
)
    requires
        old(graph).wf(),
    ensures
        final(graph).wf(),
        final(graph)@ == shadowed(old(graph)@, idx@),
        *final(emitted) == counted_up(*old(emitted), shadows(old(graph)@, idx@).len()),
{
    if graph.go_hints.receiver_calls.len() == 0 {
        emit_shadow_calls_legacy(graph, idx, emitted);
        return ;
    }
    let ghost g = graph@;
    let mut pending: Vec<PendingShadow> = Vec::new();
    for i in 0..graph.go_hints.receiver_calls.len()
        invariant
            graph.wf(),
            graph@ == g,
            pending@ == hinted_shadows(g, idx@, i as int),
    {
        let hint = &graph.go_hints.receiver_calls[i];
        assert(g.hints.receiver_calls[i as int] == hint@);
        match resolve_receiver_kind(graph, &hint.receiver) {
            Some(r) => {
                let found: Option<NodeId> = if r.pointer {
                    find_outer(&idx.outer_to_pointer_promoted, r.node, hint.method_name)
                } else {
                    find_outer(&idx.outer_to_value_promoted, r.node, hint.method_name)
                };
                match found {
                    Some(target) => {
                        add_shadows(
                            graph,
                            &mut pending,
                            hint.callee_method,
                            target,
                            Some(
                                CallShape {
                                    argument_count: hint.argument_count,
                                    is_async: hint.is_async,
                                },
                            ),
                        );
                    },
                    None => {},
                }
            },
            None => {},
        }
    }
    let ordered = stable_sort(pending);
    let distinct = dedup_neighbours(&ordered);
    emit_shadows(graph, &distinct, emitted);
}

} // verus!
