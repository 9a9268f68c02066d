//! Which functions and methods implement which named function types.
use vstd::prelude::*;

use crate::arena::live_kind;
use crate::edges::{edge_views, edges_into, EdgeView, StoreView};
use crate::graph::{CodeGraph, GraphView};
use crate::ids::{FileId, NodeId, StringId};
use crate::kinds::{EdgeKind, NodeKind, TypeOfContext};
use crate::pass_go_method_set::lookup::{kind_of, named, out_edges};
use crate::pass_go_method_set::promotion::{count_up, counted_up};
use crate::pass_go_method_set::satisfaction::{
    find_method_signature, in_order, method_signature, signature_at,
};
use crate::pass_go_method_set::shadow::{file_of, find_file};
use crate::sorting::{dedup_neighbours, sorted, stable_sort, Ranked};
use crate::strings::text_of;
use crate::text::{find_str, find_text, same_text};

verus! {

/// The signature of function or named function type `node`.
pub open spec fn function_signature(g: GraphView, node: NodeId) -> Option<Seq<char>> {
    signature_at(g.hints.function_signatures, node, g.hints.function_signatures.len() as int)
}

fn find_function_signature(graph: &CodeGraph, node: NodeId) -> (r: Option<String>)
    ensures
        text_of(r) == function_signature(graph@, node),
{
    let mut i: usize = graph.go_hints.function_signatures.len();
    while i > 0
        invariant
            i <= graph.go_hints.function_signatures@.len(),
            function_signature(graph@, node) == signature_at(
                graph@.hints.function_signatures,
                node,
                i as int,
            ),
        decreases i,
    {
        let h = &graph.go_hints.function_signatures[i - 1];
        assert(graph@.hints.function_signatures[i - 1] == h@);
        if h.function_node == node {
            return Some(h.canonical_signature.clone());
        }
        i = i - 1;
    }
    None
}

/// The signature of `node` as a named function type.
pub open spec fn type_signature(g: GraphView, node: NodeId) -> Option<Seq<char>> {
    if live_kind(g.nodes, node) == Some(NodeKind::Type) {
        function_signature(g, node)
    } else {
        None
    }
}

fn find_type_signature(graph: &CodeGraph, node: NodeId) -> (r: Option<String>)
    ensures
        text_of(r) == type_signature(graph@, node),
{
    if kind_of(&graph.nodes, node) == Some(NodeKind::Type) {
        find_function_signature(graph, node)
    } else {
        None
    }
}

/// The signature of `node` as a function or method.
pub open spec fn callable_signature(g: GraphView, node: NodeId) -> Option<Seq<char>> {
    match live_kind(g.nodes, node) {
        Some(NodeKind::Function) => function_signature(g, node),
        Some(NodeKind::Method) => method_signature(g, node),
        _ => None,
    }
}

fn find_callable_signature(graph: &CodeGraph, node: NodeId) -> (r: Option<String>)
    ensures
        text_of(r) == callable_signature(graph@, node),
{
    match kind_of(&graph.nodes, node) {
        Some(NodeKind::Function) => find_function_signature(graph, node),
        Some(NodeKind::Method) => find_method_signature(graph, node),
        _ => None,
    }
}

/// The package of a qualified name: what stands before its first separator.
pub open spec fn package_of(qn: Seq<char>) -> Seq<char> {
    match find_text(qn, "::"@) {
        Some(i) => qn.subrange(0, i),
        None => qn,
    }
}

/// Two nodes stand in one package. A node without a qualified name counts as standing
/// in every package.
pub open spec fn same_package(g: GraphView, a: NodeId, b: NodeId) -> bool {
    match (g.qn(a), g.qn(b)) {
        (Some(p), Some(q)) => package_of(p).len() > 0 && package_of(p) == package_of(q),
        _ => true,
    }
}

fn find_package(qn: &str) -> (r: String)
    ensures
        r@ == package_of(qn@),
{
    match find_str(qn, "::") {
        Some(i) => {
            proof {
                crate::text::lemma_find_from(qn@, "::"@, 0);
            }
            qn.substring_char(0, i).to_owned()
        },
        None => qn.to_owned(),
    }
}

/// Whether two nodes stand in one package. A node without a qualified name counts as
/// standing in every package.
pub fn same_package_qn(graph: &CodeGraph, a: NodeId, b: NodeId) -> (r: bool)
    ensures
        r == same_package(graph@, a, b),
{
    let p: String = match graph.qualified_name_string(a) {
        Some(s) => s,
        None => {
            return true;
        },
    };
    let q: String = match graph.qualified_name_string(b) {
        Some(s) => s,
        None => {
            return true;
        },
    };
    let x = find_package(p.as_str());
    let y = find_package(q.as_str());
    x.as_str().unicode_len() > 0 && same_text(x.as_str(), y.as_str())
}

/// `node` implements the named function type `ty`: both signatures are known and the
/// same, and both stand in one package.
pub open spec fn implements_type(g: GraphView, node: NodeId, ty: NodeId) -> bool {
    callable_signature(g, node) is Some && callable_signature(g, node) == type_signature(g, ty)
        && same_package(g, node, ty)
}

fn is_type_implemented(graph: &CodeGraph, node: NodeId, ty: NodeId) -> (r: bool)
    ensures
        r == implements_type(graph@, node, ty),
{
    match (find_callable_signature(graph, node), find_type_signature(graph, ty)) {
        (Some(a), Some(b)) => same_text(a.as_str(), b.as_str()) && same_package_qn(graph, node, ty),
        _ => false,
    }
}

/// A function or method that implements a named function type, and the file that says so.
#[derive(Clone, Copy, Debug, PartialEq, Eq, Structural)]
pub struct PendingSignature {
    pub source: NodeId,
    pub target: NodeId,
    pub file: FileId,
}

/// Entries sort by source, then by target.
impl Ranked for PendingSignature {
    open spec fn ranks_before(self, other: PendingSignature) -> bool {
        self.source.before(other.source) || (self.source == other.source && self.target.before(
            other.target,
        ))
    }

    open spec fn same_rank(self, other: PendingSignature) -> bool {
        self.source == other.source && self.target == other.target
    }

    fn is_ranked_before(&self, other: &PendingSignature) -> (r: bool) {
        self.source.is_before(&other.source) || (self.source == other.source
            && self.target.is_before(&other.target))
    }

    fn is_same_rank(&self, other: &PendingSignature) -> (r: bool) {
        self.source == other.source && self.target == other.target
    }
}

/// Position of the entry for `source` and `target` at or after position `i`.
pub open spec fn entry_from(s: Seq<PendingSignature>, source: NodeId, target: NodeId, i: int) -> Option<
    int,
>
    decreases s.len() - i,
{
    if i < 0 || i >= s.len() {
        None
    } else if s[i].source == source && s[i].target == target {
        Some(i)
    } else {
        entry_from(s, source, target, i + 1)
    }
}

/// `s` with an entry that replaces one for the same source and target, where
/// `replace` says so; else the one that is there stays.
pub open spec fn with_entry(s: Seq<PendingSignature>, e: PendingSignature, replace: bool) -> Seq<
    PendingSignature,
> {
    match entry_from(s, e.source, e.target, 0) {
        Some(i) => if replace {
            s.update(i, e)
        } else {
            s
        },
        None => s.push(e),
    }
}

fn put_entry(v: &mut Vec<PendingSignature>, e: PendingSignature, replace: bool)
    ensures
        final(v)@ == with_entry(old(v)@, e, replace),
{
    let mut i: usize = 0;
    while i < v.len()
        invariant
            v@ == old(v)@,
            i <= v@.len(),
            entry_from(v@, e.source, e.target, 0) == entry_from(v@, e.source, e.target, i as int),
        decreases v@.len() - i,
    {
        if v[i].source == e.source && v[i].target == e.target {
            if replace {
                v.set(i, e);
            }
            return ;
        }
        i = i + 1;
    }
    v.push(e);
}

/// The first named function type at or after position `i` of `nodes`.
pub open spec fn function_type_from(g: GraphView, nodes: Seq<NodeId>, i: int) -> Option<NodeId>
    decreases nodes.len() - i,
{
    if i < 0 || i >= nodes.len() {
        None
    } else if type_signature(g, nodes[i]) is Some {
        Some(nodes[i])
    } else {
        function_type_from(g, nodes, i + 1)
    }
}

fn find_function_type(graph: &CodeGraph, qn: StringId) -> (r: Option<NodeId>)
    ensures
        r == function_type_from(graph@, named(graph@, qn), 0),
{
    let nodes = graph.indices.by_qualified_name(qn);
    for i in 0..nodes.len()
        invariant
            nodes@ == named(graph@, qn),
            function_type_from(graph@, nodes@, 0) == function_type_from(
                graph@,
                nodes@,
                i as int,
            ),
    {
        if find_type_signature(graph, nodes[i]).is_some() {
            return Some(nodes[i]);
        }
    }
    None
}

/// What the first `n` conversions say: a conversion `T(g)` says that `g` implements `T`,
/// if it does.
pub open spec fn converted(g: GraphView, n: int) -> Seq<PendingSignature>
    decreases n,
{
    if n <= 0 {
        Seq::empty()
    } else {
        let before = converted(g, n - 1);
        let h = g.hints.named_type_conversions[n - 1];
        match function_type_from(g, named(g, h.target_type_qualified_name), 0) {
            Some(ty) => if implements_type(g, h.argument_node, ty) {
                with_entry(
                    before,
                    PendingSignature { source: h.argument_node, target: ty, file: h.file },
                    true,
                )
            } else {
                before
            },
            None => before,
        }
    }
}

/// The edge types a variable, parameter, field or return value.
pub open spec fn types_slot(kind: EdgeKind) -> bool {
    match kind {
        EdgeKind::TypeOf { context: Some(TypeOfContext::Variable), .. } => true,
        EdgeKind::TypeOf { context: Some(TypeOfContext::Parameter), .. } => true,
        EdgeKind::TypeOf { context: Some(TypeOfContext::Field), .. } => true,
        EdgeKind::TypeOf { context: Some(TypeOfContext::Return), .. } => true,
        _ => false,
    }
}

fn is_slot_type(kind: &EdgeKind) -> (r: bool)
    ensures
        r == types_slot(*kind),
{
    match kind {
        EdgeKind::TypeOf { context: Some(TypeOfContext::Variable), .. } => true,
        EdgeKind::TypeOf { context: Some(TypeOfContext::Parameter), .. } => true,
        EdgeKind::TypeOf { context: Some(TypeOfContext::Field), .. } => true,
        EdgeKind::TypeOf { context: Some(TypeOfContext::Return), .. } => true,
        _ => false,
    }
}

fn is_reference(kind: &EdgeKind) -> (r: bool)
    ensures
        r == (*kind == EdgeKind::References),
{
    match kind {
        EdgeKind::References => true,
        _ => false,
    }
}

/// What the first `n` edges out of a slot of type `ty` say: the callables that the slot
/// refers to implement `ty`, if they do.
pub open spec fn with_slot(
    g: GraphView,
    pending: Seq<PendingSignature>,
    edges: Seq<EdgeView>,
    ty: NodeId,
    n: int,
) -> Seq<PendingSignature>
    decreases n,
{
    if n <= 0 {
        pending
    } else {
        let before = with_slot(g, pending, edges, ty, n - 1);
        let e = edges[n - 1];
        if e.kind == EdgeKind::References && implements_type(g, e.target, ty) {
            with_entry(
                before,
                PendingSignature { source: e.target, target: ty, file: file_of(g, e.target) },
                false,
            )
        } else {
            before
        }
    }
}

/// What the slots say that the first `n` edges into `ty` type.
pub open spec fn with_slots(
    g: GraphView,
    pending: Seq<PendingSignature>,
    incoming: Seq<EdgeView>,
    ty: NodeId,
    n: int,
) -> Seq<PendingSignature>
    decreases n,
{
    if n <= 0 {
        pending
    } else {
        let before = with_slots(g, pending, incoming, ty, n - 1);
        let e = incoming[n - 1];
        if types_slot(e.kind) {
            let out = out_edges(g, e.source);
            with_slot(g, before, out, ty, out.len() as int)
        } else {
            before
        }
    }
}

/// The edges that enter `node`, in insertion order.
pub open spec fn in_edges(g: GraphView, node: NodeId) -> Seq<EdgeView> {
    edges_into(g.edges.edges, node, g.edges.edges.len() as int)
}

/// What the slots of the first `n` of `types` say.
pub open spec fn with_slots_of(
    g: GraphView,
    pending: Seq<PendingSignature>,
    types: Seq<NodeId>,
    n: int,
) -> Seq<PendingSignature>
    decreases n,
{
    if n <= 0 {
        pending
    } else {
        let before = with_slots_of(g, pending, types, n - 1);
        let incoming = in_edges(g, types[n - 1]);
        with_slots(g, before, incoming, types[n - 1], incoming.len() as int)
    }
}

/// The named function types among the first `n` signature hints.
pub open spec fn hinted_types(g: GraphView, n: int) -> Seq<NodeId>
    decreases n,
{
    if n <= 0 {
        Seq::empty()
    } else {
        let before = hinted_types(g, n - 1);
        let node = g.hints.function_signatures[n - 1].node;
        if live_kind(g.nodes, node) == Some(NodeKind::Type) {
            before.push(node)
        } else {
            before
        }
    }
}

/// The named function types, in node order.
pub open spec fn function_types(g: GraphView) -> Seq<NodeId> {
    in_order(hinted_types(g, g.hints.function_signatures.len() as int))
}

/// Which functions and methods implement which named function types, by node.
pub open spec fn signature_edges(g: GraphView) -> Seq<PendingSignature> {
    let types = function_types(g);
    sorted(
        with_slots_of(
            g,
            converted(g, g.hints.named_type_conversions.len() as int),
            types,
            types.len() as int,
        ),
    )
}

/// The store with the first `n` implementation edges added.
pub open spec fn with_signature_edges(store: StoreView, pending: Seq<PendingSignature>, n: int) -> StoreView
    decreases n,
{
    if n <= 0 {
        store
    } else {
        let p = pending[n - 1];
        with_signature_edges(store, pending, n - 1).added(
            p.source,
            p.target,
            EdgeKind::Implements,
            p.file,
            Seq::empty(),
        )
    }
}

/// The graph with its function types implemented.
pub open spec fn function_types_implemented(g: GraphView) -> GraphView {
    let p = signature_edges(g);
    GraphView { edges: with_signature_edges(g.edges, p, p.len() as int), ..g }
}

fn add_slot(
    graph: &CodeGraph,
    pending: &mut Vec<PendingSignature>,
    slot: NodeId,
    ty: NodeId,
)
    ensures
        final(pending)@ == with_slot(
            graph@,
            old(pending)@,
            out_edges(graph@, slot),
            ty,
            out_edges(graph@, slot).len() as int,
        ),
{
    let outgoing = graph.edges.edges_from(slot);
    let ghost views = out_edges(graph@, slot);
    for i in 0..outgoing.len()
        invariant
            edge_views(outgoing@) == views,
            pending@ == with_slot(graph@, old(pending)@, views, ty, i as int),
    {
        assert(views[i as int] == outgoing@[i as int]@);
        let target: NodeId = outgoing[i].target;
        if is_reference(&outgoing[i].kind) && is_type_implemented(graph, target, ty) {
            let file: FileId = find_file(graph, target);
            put_entry(pending, PendingSignature { source: target, target: ty, file }, false);
        }
    }
}

fn add_slots(graph: &CodeGraph, pending: &mut Vec<PendingSignature>, ty: NodeId)
    ensures
        final(pending)@ == with_slots(
            graph@,
            old(pending)@,
            in_edges(graph@, ty),
            ty,
            in_edges(graph@, ty).len() as int,
        ),
{
    let incoming = graph.edges.edges_to(ty);
    let ghost views = in_edges(graph@, ty);
    for i in 0..incoming.len()
        invariant
            edge_views(incoming@) == views,
            pending@ == with_slots(graph@, old(pending)@, views, ty, i as int),
    {
        assert(views[i as int] == incoming@[i as int]@);
        if is_slot_type(&incoming[i].kind) {
            add_slot(graph, pending, incoming[i].source, ty);
        }
    }
}

fn collect_function_types(graph: &CodeGraph) -> (r: Vec<NodeId>)
    ensures
        r@ == function_types(graph@),
{
    let mut found: Vec<NodeId> = Vec::new();
    for i in 0..graph.go_hints.function_signatures.len()
        invariant
            found@ == hinted_types(graph@, i as int),
    {
        assert(graph@.hints.function_signatures[i as int]
            == graph.go_hints.function_signatures@[i as int]@);
        let node: NodeId = graph.go_hints.function_signatures[i].function_node;
        if kind_of(&graph.nodes, node) == Some(NodeKind::Type) {
            found.push(node);
        }
    }
    let ordered = stable_sort(found);
    dedup_neighbours(&ordered)
}

/// Adds an implementation edge from each function or method that implements a named
/// function type of its package, as a conversion or a slot of that type says.
pub fn run_t1_3_signature_implements(graph: &mut CodeGraph, emitted: &mut u32)
    requires
        old(graph).wf(),
    ensures
        final(graph).wf(),
        final(graph)@ == function_types_implemented(old(graph)@),
        *final(emitted) == counted_up(*old(emitted), signature_edges(old(graph)@).len()),
{
    let ghost g = graph@;
    let mut pending: Vec<PendingSignature> = Vec::new();
    for i in 0..graph.go_hints.named_type_conversions.len()
        invariant
            graph@ == g,
            pending@ == converted(g, i as int),
    {
        let h = graph.go_hints.named_type_conversions[i];
        match find_function_type(graph, h.target_type_qualified_name) {
            Some(ty) => {
                if is_type_implemented(graph, h.argument_node, ty) {
                    put_entry(
                        &mut pending,
                        PendingSignature { source: h.argument_node, target: ty, file: h.file },
                        true,
                    );
                }
            },
            None => {},
        }
    }
    let types = collect_function_types(graph);
    let ghost first = pending@;
    for i in 0..types.len()
        invariant
            graph@ == g,
            pending@ == with_slots_of(g, first, types@, i as int),
    {
        add_slots(graph, &mut pending, types[i]);
    }
    let ordered = stable_sort(pending);
    for i in 0..ordered.len()
        invariant
            graph.wf(),
            graph@ == (GraphView {
                edges: with_signature_edges(g.edges, ordered@, i as int),
                ..g
            }),
            *emitted == counted_up(*old(emitted), i as nat),
    {
        let p: PendingSignature = ordered[i];
        graph.edges.add_edge(p.source, p.target, EdgeKind::Implements, p.file);
        *emitted = count_up(*emitted);
    }
}

} // verus!
