//! Queries over the graph: types by name, methods of a type, declared types.
use vstd::prelude::*;

use crate::arena::{live, live_kind, NodeArena, Slot};
use crate::edges::{edge_views, edges_out_of, EdgeView};
use crate::files::has_node;
use crate::graph::{CodeGraph, GraphView};
use crate::ids::{NodeId, StringId};
use crate::indices::{nodes_of_kind, nodes_of_qn};
use crate::kinds::{EdgeKind, NodeKind, TypeOfContext};
use crate::sorting::{dedup_neighbours, deduped, sorted, stable_sort, Ranked};
use crate::strings::text_of;
use crate::text::{
    contains_str, contains_text, same_text, strip_prefix_str, without_prefix,
};

verus! {

/// Struct before interface before named type; nothing else is a type.
pub open spec fn type_rank(kind: Option<NodeKind>) -> int {
    match kind {
        Some(NodeKind::Struct) => 3,
        Some(NodeKind::Interface) => 2,
        Some(NodeKind::Type) => 1,
        _ => 0,
    }
}

fn type_rank_of(kind: Option<NodeKind>) -> (r: u8)
    ensures
        r == type_rank(kind),
{
    match kind {
        Some(NodeKind::Struct) => 3,
        Some(NodeKind::Interface) => 2,
        Some(NodeKind::Type) => 1,
        _ => 0,
    }
}

/// The kind of the node that `id` names.
pub fn kind_of(nodes: &NodeArena, id: NodeId) -> (r: Option<NodeKind>)
    ensures
        r == live_kind(nodes@, id),
{
    match nodes.get(id) {
        Some(e) => Some(e.kind),
        None => None,
    }
}

/// The first node of the highest type rank among the first `n` of `nodes`.
pub open spec fn best_type(slots: Seq<Slot>, nodes: Seq<NodeId>, n: int) -> Option<NodeId>
    decreases n,
{
    if n <= 0 {
        None
    } else {
        let best = best_type(slots, nodes, n - 1);
        let rank = type_rank(live_kind(slots, nodes[n - 1]));
        let best_rank = match best {
            Some(b) => type_rank(live_kind(slots, b)),
            None => 0,
        };
        if rank > best_rank {
            Some(nodes[n - 1])
        } else {
            best
        }
    }
}

/// The first node of the highest type rank among `nodes`.
pub fn find_best_type(arena: &NodeArena, nodes: &Vec<NodeId>) -> (r: Option<NodeId>)
    ensures
        r == best_type(arena@, nodes@, nodes@.len() as int),
{
    let mut best: Option<NodeId> = None;
    let mut best_rank: u8 = 0;
    for i in 0..nodes.len()
        invariant
            best == best_type(arena@, nodes@, i as int),
            best_rank == (match best {
                Some(b) => type_rank(live_kind(arena@, b)),
                None => 0,
            }),
    {
        let rank: u8 = type_rank_of(kind_of(arena, nodes[i]));
        if rank > best_rank {
            best = Some(nodes[i]);
            best_rank = rank;
        }
    }
    best
}

/// The nodes that carry qualified name `qn`, in index order.
pub open spec fn named(g: GraphView, qn: StringId) -> Seq<NodeId> {
    nodes_of_qn(g.indices, qn, g.indices.len() as int)
}

/// The type that `qn` names.
pub open spec fn type_named(g: GraphView, qn: StringId) -> Option<NodeId> {
    best_type(g.nodes, named(g, qn), named(g, qn).len() as int)
}

/// The type that `qn` names: a struct if there is one, else an interface, else a
/// named type.
pub fn resolve_inner_type_node(graph: &CodeGraph, qn: StringId) -> (r: Option<NodeId>)
    ensures
        r == type_named(graph@, qn),
{
    let found = graph.indices.by_qualified_name(qn);
    find_best_type(&graph.nodes, &found)
}

/// Every node of `nodes` is live.
pub open spec fn all_live(slots: Seq<Slot>, nodes: Seq<NodeId>) -> bool {
    forall|i: int| 0 <= i < nodes.len() ==> live(slots, #[trigger] nodes[i]) is Some
}

/// The type with qualified name `text`, provided every node of that name is live.
pub open spec fn type_with_text(g: GraphView, text: Seq<char>) -> Option<NodeId> {
    match g.strings.get(text) {
        Some(qn) => if all_live(g.nodes, named(g, qn)) {
            type_named(g, qn)
        } else {
            None
        },
        None => None,
    }
}

/// The type with qualified name `text`, provided every node of that name is live.
pub fn resolve_qualified_name_to_type_node(graph: &CodeGraph, text: &str) -> (r: Option<NodeId>)
    requires
        graph.wf(),
    ensures
        r == type_with_text(graph@, text@),
{
    match graph.strings.get(text) {
        Some(qn) => {
            let found = graph.indices.by_qualified_name(qn);
            for i in 0..found.len()
                invariant
                    found@ == named(graph@, qn),
                    Some(qn) == graph@.strings.get(text@),
                    forall|j: int| 0 <= j < i ==> live(graph@.nodes, #[trigger] found@[j]) is Some,
            {
                if graph.nodes.get(found[i]).is_none() {
                    assert(live(graph@.nodes, found@[i as int]) is None);
                    return None;
                }
            }
            find_best_type(&graph.nodes, &found)
        },
        None => None,
    }
}

/// The first callable at or after position `i` of `nodes`; a node that is not live
/// ends the search.
pub open spec fn callable_from(slots: Seq<Slot>, nodes: Seq<NodeId>, i: int) -> Option<NodeId>
    decreases nodes.len() - i,
{
    if i < 0 || i >= nodes.len() {
        None
    } else {
        match live_kind(slots, nodes[i]) {
            None => None,
            Some(NodeKind::Function) => Some(nodes[i]),
            Some(NodeKind::Method) => Some(nodes[i]),
            _ => callable_from(slots, nodes, i + 1),
        }
    }
}

/// The function or method with qualified name `text`.
pub open spec fn callable_with_text(g: GraphView, text: Seq<char>) -> Option<NodeId> {
    match g.strings.get(text) {
        Some(qn) => callable_from(g.nodes, named(g, qn), 0),
        None => None,
    }
}

/// The function or method with qualified name `text`.
pub fn resolve_qualified_name_to_callable(graph: &CodeGraph, text: &str) -> (r: Option<NodeId>)
    requires
        graph.wf(),
    ensures
        r == callable_with_text(graph@, text@),
{
    match graph.strings.get(text) {
        Some(qn) => {
            let found = graph.indices.by_qualified_name(qn);
            for i in 0..found.len()
                invariant
                    found@ == named(graph@, qn),
                    Some(qn) == graph@.strings.get(text@),
                    callable_from(graph@.nodes, found@, 0) == callable_from(
                        graph@.nodes,
                        found@,
                        i as int,
                    ),
            {
                match kind_of(&graph.nodes, found[i]) {
                    None => {
                        return None;
                    },
                    Some(NodeKind::Function) => {
                        return Some(found[i]);
                    },
                    Some(NodeKind::Method) => {
                        return Some(found[i]);
                    },
                    _ => {},
                }
            }
            None
        },
        None => None,
    }
}

/// The edges that leave `node`, in insertion order.
pub open spec fn out_edges(g: GraphView, node: NodeId) -> Seq<EdgeView> {
    edges_out_of(g.edges.edges, node, g.edges.edges.len() as int)
}

/// The edge gives the declared type of a variable, parameter or field.
pub open spec fn declares_type(kind: EdgeKind) -> bool {
    match kind {
        EdgeKind::TypeOf { context: Some(TypeOfContext::Variable), .. } => true,
        EdgeKind::TypeOf { context: Some(TypeOfContext::Parameter), .. } => true,
        EdgeKind::TypeOf { context: Some(TypeOfContext::Field), .. } => true,
        _ => false,
    }
}

fn is_type_declaration(kind: &EdgeKind) -> (r: bool)
    ensures
        r == declares_type(*kind),
{
    match kind {
        EdgeKind::TypeOf { context: Some(TypeOfContext::Variable), .. } => true,
        EdgeKind::TypeOf { context: Some(TypeOfContext::Parameter), .. } => true,
        EdgeKind::TypeOf { context: Some(TypeOfContext::Field), .. } => true,
        _ => false,
    }
}

/// Target of the first type declaration at or after position `i`.
pub open spec fn declared_from(edges: Seq<EdgeView>, i: int) -> Option<NodeId>
    decreases edges.len() - i,
{
    if i < 0 || i >= edges.len() {
        None
    } else if declares_type(edges[i].kind) {
        Some(edges[i].target)
    } else {
        declared_from(edges, i + 1)
    }
}

/// The node of the highest type rank among those that share the qualified name of
/// `target`; `target` itself where it has no name or none of them is a type.
pub open spec fn preferred_type(g: GraphView, target: NodeId) -> NodeId {
    match live(g.nodes, target) {
        Some(e) => match e.qualified_name {
            Some(qn) => match type_named(g, qn) {
                Some(best) => best,
                None => target,
            },
            None => target,
        },
        None => target,
    }
}

/// The type reached from `node` over at most `hops` type declarations.
pub open spec fn declared_type(g: GraphView, node: NodeId, hops: int) -> Option<NodeId>
    decreases hops,
{
    if hops <= 0 {
        None
    } else {
        match declared_from(out_edges(g, node), 0) {
            Some(target) => if live(g.nodes, target) is None {
                None
            } else if type_rank(live_kind(g.nodes, target)) > 0 {
                Some(preferred_type(g, target))
            } else {
                declared_type(g, target, hops - 1)
            },
            None => None,
        }
    }
}

/// Follows type declarations from `node` to a type, over at most `max_hops` edges.
pub fn walk_typeof_to_type_node(graph: &CodeGraph, node: NodeId, max_hops: usize) -> (r: Option<
    NodeId,
>)
    ensures
        r == declared_type(graph@, node, max_hops as int),
{
    let mut current: NodeId = node;
    let mut left: usize = max_hops;
    while left > 0
        invariant
            declared_type(graph@, node, max_hops as int) == declared_type(
                graph@,
                current,
                left as int,
            ),
        decreases left,
    {
        let outgoing = graph.edges.edges_from(current);
        let ghost views = out_edges(graph@, current);
        let mut next: Option<NodeId> = None;
        let mut i: usize = 0;
        while i < outgoing.len() && next.is_none()
            invariant
                edge_views(outgoing@) == views,
                i <= outgoing@.len(),
                match next {
                    None => declared_from(views, 0) == declared_from(views, i as int),
                    Some(t) => declared_from(views, 0) == Some(t),
                },
            decreases outgoing@.len() - i,
        {
            assert(views[i as int] == outgoing@[i as int]@);
            if is_type_declaration(&outgoing[i].kind) {
                next = Some(outgoing[i].target);
            }
            i = i + 1;
        }
        let target: NodeId = match next {
            Some(t) => t,
            None => {
                return None;
            },
        };
        match graph.nodes.get(target) {
            None => {
                return None;
            },
            Some(e) => {
                if type_rank_of(Some(e.kind)) > 0 {
                    match e.qualified_name {
                        Some(qn) => {
                            match resolve_inner_type_node(graph, qn) {
                                Some(best) => {
                                    return Some(best);
                                },
                                None => {
                                    return Some(target);
                                },
                            }
                        },
                        None => {
                            return Some(target);
                        },
                    }
                }
            },
        }
        current = target;
        left = left - 1;
    }
    None
}

/// The edge gives the first return type of a callable.
pub open spec fn declares_return(kind: EdgeKind) -> bool {
    match kind {
        EdgeKind::TypeOf { context: Some(TypeOfContext::Return), index, .. } => index is None
            || index == Some(0u16),
        _ => false,
    }
}

/// Target of the first return declaration at or after position `i` that is a type; a
/// declaration whose target is not live ends the search.
pub open spec fn return_type_from(slots: Seq<Slot>, edges: Seq<EdgeView>, i: int) -> Option<NodeId>
    decreases edges.len() - i,
{
    if i < 0 || i >= edges.len() {
        None
    } else if declares_return(edges[i].kind) && live(slots, edges[i].target) is None {
        None
    } else if declares_return(edges[i].kind) && type_rank(live_kind(slots, edges[i].target)) > 0 {
        Some(edges[i].target)
    } else {
        return_type_from(slots, edges, i + 1)
    }
}

/// The type that `callable` returns first.
pub fn walk_typeof_return_to_type_node(graph: &CodeGraph, callable: NodeId) -> (r: Option<NodeId>)
    ensures
        r == return_type_from(graph@.nodes, out_edges(graph@, callable), 0),
{
    let outgoing = graph.edges.edges_from(callable);
    let ghost views = out_edges(graph@, callable);
    for i in 0..outgoing.len()
        invariant
            edge_views(outgoing@) == views,
            views == out_edges(graph@, callable),
            return_type_from(graph@.nodes, views, 0) == return_type_from(
                graph@.nodes,
                views,
                i as int,
            ),
    {
        assert(views[i as int] == outgoing@[i as int]@);
        let hit: bool = match &outgoing[i].kind {
            EdgeKind::TypeOf { context: Some(TypeOfContext::Return), index, .. } => match index {
                Some(k) => *k == 0,
                None => true,
            },
            _ => false,
        };
        if hit {
            match kind_of(&graph.nodes, outgoing[i].target) {
                None => {
                    return None;
                },
                Some(k) => {
                    if type_rank_of(Some(k)) > 0 {
                        return Some(outgoing[i].target);
                    }
                },
            }
        }
    }
    None
}

/// Target of the first inheritance edge at or after position `i`.
pub open spec fn inherited_from(edges: Seq<EdgeView>, i: int) -> Option<NodeId>
    decreases edges.len() - i,
{
    if i < 0 || i >= edges.len() {
        None
    } else if edges[i].kind == EdgeKind::Inherits {
        Some(edges[i].target)
    } else {
        inherited_from(edges, i + 1)
    }
}

/// The method that the promoted method `node` stands for.
pub open spec fn inherits_target(g: GraphView, node: NodeId) -> Option<NodeId> {
    inherited_from(out_edges(g, node), 0)
}

/// Whether the edge kind is inheritance.
pub fn is_inherits(kind: &EdgeKind) -> (r: bool)
    ensures
        r == (*kind == EdgeKind::Inherits),
{
    match kind {
        EdgeKind::Inherits => true,
        _ => false,
    }
}

/// The method that a promoted method stands for: the target of its first
/// inheritance edge.
pub fn inherits_target_of_promoted(graph: &CodeGraph, node: NodeId) -> (r: Option<NodeId>)
    ensures
        r == inherits_target(graph@, node),
{
    let outgoing = graph.edges.edges_from(node);
    let ghost views = out_edges(graph@, node);
    for i in 0..outgoing.len()
        invariant
            edge_views(outgoing@) == views,
            views == out_edges(graph@, node),
            inherited_from(views, 0) == inherited_from(views, i as int),
    {
        assert(views[i as int] == outgoing@[i as int]@);
        if is_inherits(&outgoing[i].kind) {
            return Some(outgoing[i].target);
        }
    }
    None
}

/// A method of a type.
#[derive(Clone, Copy, Debug, PartialEq, Eq, Structural)]
pub struct MethodRef {
    pub name: StringId,
    pub node: NodeId,
}

/// Methods sort by node index.
impl Ranked for MethodRef {
    open spec fn ranks_before(self, other: MethodRef) -> bool {
        self.node.index < other.node.index
    }

    open spec fn same_rank(self, other: MethodRef) -> bool {
        self.node == other.node
    }

    fn is_ranked_before(&self, other: &MethodRef) -> (r: bool) {
        self.node.index < other.node.index
    }

    fn is_same_rank(&self, other: &MethodRef) -> (r: bool) {
        self.node == other.node
    }
}

/// `qn` is `type_qn`, a separator and one more segment.
pub open spec fn member_of(qn: Seq<char>, type_qn: Seq<char>) -> bool {
    match without_prefix(qn, type_qn + "::"@) {
        Some(short) => !contains_text(short, "::"@),
        None => false,
    }
}

/// The members of `type_qn` among the first `n` of `nodes`.
pub open spec fn members_among(g: GraphView, type_qn: Seq<char>, nodes: Seq<NodeId>, n: int) -> Seq<
    MethodRef,
>
    decreases n,
{
    if n <= 0 {
        Seq::empty()
    } else {
        let before = members_among(g, type_qn, nodes, n - 1);
        let node = nodes[n - 1];
        match g.qn(node) {
            Some(qn) => if member_of(qn, type_qn) {
                before.push(MethodRef { name: live(g.nodes, node)->0.name, node })
            } else {
                before
            },
            None => before,
        }
    }
}

/// The indexed methods of the type with qualified name `type_qn`, by node index.
pub open spec fn methods_of(g: GraphView, type_qn: Seq<char>) -> Seq<MethodRef> {
    let nodes = nodes_of_kind(g.indices, NodeKind::Method, g.indices.len() as int);
    let found = sorted(members_among(g, type_qn, nodes, nodes.len() as int));
    deduped(found, found.len() as int)
}

/// The methods of the type with qualified name `type_qn`: name and node of each
/// indexed method whose qualified name is that of the type and one more segment.
pub fn find_method_names_of_type(graph: &CodeGraph, type_qn: &str) -> (r: Vec<MethodRef>)
    ensures
        r@ == methods_of(graph@, type_qn@),
{
    let mut prefix: String = type_qn.to_owned();
    prefix.append("::");
    let nodes = graph.indices.by_kind(NodeKind::Method);
    let mut out: Vec<MethodRef> = Vec::new();
    for i in 0..nodes.len()
        invariant
            prefix@ == type_qn@ + "::"@,
            nodes@ == nodes_of_kind(graph@.indices, NodeKind::Method, graph@.indices.len() as int),
            out@ == members_among(graph@, type_qn@, nodes@, i as int),
    {
        match graph.nodes.get(nodes[i]) {
            Some(entry) => match graph.qualified_name_string(nodes[i]) {
                Some(qn) => match strip_prefix_str(qn.as_str(), prefix.as_str()) {
                    Some(short) => {
                        if !contains_str(short, "::") {
                            out.push(MethodRef { name: entry.name, node: nodes[i] });
                        }
                    },
                    None => {},
                },
                None => {},
            },
            None => {},
        }
    }
    let ordered = stable_sort(out);
    dedup_neighbours(&ordered)
}

/// The edge names the underlying type of an alias.
pub open spec fn names_underlying(kind: EdgeKind) -> bool {
    match kind {
        EdgeKind::TypeOf { context: Some(TypeOfContext::TypeParameter), .. } => true,
        _ => false,
    }
}

/// Qualified name of the first underlying type, at or after position `i`, that is
/// not `own`; one that has no resolvable name ends the search.
pub open spec fn underlying_from(g: GraphView, edges: Seq<EdgeView>, own: Seq<char>, i: int) -> Option<
    Seq<char>,
>
    decreases edges.len() - i,
{
    if i < 0 || i >= edges.len() {
        None
    } else if names_underlying(edges[i].kind) {
        match g.qn(edges[i].target) {
            None => None,
            Some(qn) => if qn != own {
                Some(qn)
            } else {
                underlying_from(g, edges, own, i + 1)
            },
        }
    } else {
        underlying_from(g, edges, own, i + 1)
    }
}

/// Qualified name of the type that the alias `inner` stands for.
pub open spec fn alias_target(g: GraphView, inner: NodeId, own: Seq<char>) -> Option<Seq<char>> {
    if live_kind(g.nodes, inner) == Some(NodeKind::Type) {
        underlying_from(g, out_edges(g, inner), own, 0)
    } else {
        None
    }
}

/// Qualified name of the type that the alias `inner` stands for, one hop away.
pub fn resolve_alias_underlying_qn(graph: &CodeGraph, inner: NodeId, inner_qn: &str) -> (r: Option<
    String,
>)
    ensures
        text_of(r) == alias_target(graph@, inner, inner_qn@),
{
    match graph.nodes.get(inner) {
        Some(e) => {
            if e.kind != NodeKind::Type {
                return None;
            }
        },
        None => {
            return None;
        },
    }
    let outgoing = graph.edges.edges_from(inner);
    let ghost views = out_edges(graph@, inner);
    for i in 0..outgoing.len()
        invariant
            live_kind(graph@.nodes, inner) == Some(NodeKind::Type),
            edge_views(outgoing@) == views,
            views == out_edges(graph@, inner),
            underlying_from(graph@, views, inner_qn@, 0) == underlying_from(
                graph@,
                views,
                inner_qn@,
                i as int,
            ),
    {
        assert(views[i as int] == outgoing@[i as int]@);
        let hit: bool = match &outgoing[i].kind {
            EdgeKind::TypeOf { context: Some(TypeOfContext::TypeParameter), .. } => true,
            _ => false,
        };
        if hit {
            match graph.qualified_name_string(outgoing[i].target) {
                None => {
                    return None;
                },
                Some(qn) => {
                    if !same_text(qn.as_str(), inner_qn) {
                        return Some(qn);
                    }
                },
            }
        }
    }
    None
}

/// The interface targets of inheritance among the first `n` of `edges`, added to `found`.
pub open spec fn with_interfaces(slots: Seq<Slot>, found: Seq<NodeId>, edges: Seq<EdgeView>, n: int) -> Seq<
    NodeId,
>
    decreases n,
{
    if n <= 0 {
        found
    } else {
        let before = with_interfaces(slots, found, edges, n - 1);
        let e = edges[n - 1];
        if e.kind == EdgeKind::Inherits && live_kind(slots, e.target) == Some(NodeKind::Interface)
            && !before.contains(e.target) {
            before.push(e.target)
        } else {
            before
        }
    }
}

/// `from` with the interfaces added that its first `n` nodes embed. With `named_only`,
/// a node without a qualified name counts as embedding nothing.
pub open spec fn one_level_more(g: GraphView, from: Seq<NodeId>, named_only: bool, n: int) -> Seq<
    NodeId,
>
    decreases n,
{
    if n <= 0 {
        from
    } else {
        let before = one_level_more(g, from, named_only, n - 1);
        let node = from[n - 1];
        if named_only && g.qn(node) is None {
            before
        } else {
            with_interfaces(g.nodes, before, out_edges(g, node), out_edges(g, node).len() as int)
        }
    }
}

/// `start` and the interfaces that it embeds, directly or through at most `depth`
/// levels, nearest first.
pub open spec fn embedded_interfaces(g: GraphView, start: NodeId, named_only: bool, depth: int) -> Seq<
    NodeId,
>
    decreases depth,
{
    if depth <= 0 {
        seq![start]
    } else {
        let near = embedded_interfaces(g, start, named_only, depth - 1);
        one_level_more(g, near, named_only, near.len() as int)
    }
}

proof fn lemma_embedded_fixpoint(g: GraphView, start: NodeId, named_only: bool, d: int, e: int)
    requires
        0 <= d <= e,
        embedded_interfaces(g, start, named_only, d + 1) == embedded_interfaces(
            g,
            start,
            named_only,
            d,
        ),
    ensures
        embedded_interfaces(g, start, named_only, e) == embedded_interfaces(
            g,
            start,
            named_only,
            d,
        ),
    decreases e - d,
{
    if d < e {
        lemma_embedded_fixpoint(g, start, named_only, d, e - 1);
    }
}

/// Levels of interfaces that are looked at, that of the outer interface among them.
pub const MAX_INTERFACE_EMBED_DEPTH: usize = 16;

proof fn lemma_with_interfaces_len(
    slots: Seq<Slot>,
    found: Seq<NodeId>,
    edges: Seq<EdgeView>,
    n: int,
)
    ensures
        found.len() <= with_interfaces(slots, found, edges, n).len(),
        found.len() == with_interfaces(slots, found, edges, n).len() ==> found == with_interfaces(
            slots,
            found,
            edges,
            n,
        ),
    decreases n,
{
    if n > 0 {
        lemma_with_interfaces_len(slots, found, edges, n - 1);
    }
}

proof fn lemma_one_level_len(g: GraphView, from: Seq<NodeId>, named_only: bool, n: int)
    ensures
        from.len() <= one_level_more(g, from, named_only, n).len(),
        from.len() == one_level_more(g, from, named_only, n).len() ==> from == one_level_more(
            g,
            from,
            named_only,
            n,
        ),
    decreases n,
{
    if n > 0 {
        lemma_one_level_len(g, from, named_only, n - 1);
        let before = one_level_more(g, from, named_only, n - 1);
        let out = out_edges(g, from[n - 1]);
        lemma_with_interfaces_len(g.nodes, before, out, out.len() as int);
    }
}

/// `start` and the interfaces that it embeds, nearest first, over fewer than
/// [`MAX_INTERFACE_EMBED_DEPTH`] levels.
pub fn collect_embedded_interfaces(graph: &CodeGraph, start: NodeId, named_only: bool) -> (r: Vec<
    NodeId,
>)
    ensures
        r@ == embedded_interfaces(
            graph@,
            start,
            named_only,
            MAX_INTERFACE_EMBED_DEPTH - 1,
        ),
{
    let mut all: Vec<NodeId> = Vec::new();
    all.push(start);
    proof {
        assert(all@ =~= seq![start]);
    }
    let mut depth: usize = 0;
    let mut grew = true;
    while grew && depth < MAX_INTERFACE_EMBED_DEPTH - 1
        invariant
            depth <= MAX_INTERFACE_EMBED_DEPTH - 1,
            all@ == embedded_interfaces(graph@, start, named_only, depth as int),
            !grew ==> all@ == embedded_interfaces(
                graph@,
                start,
                named_only,
                MAX_INTERFACE_EMBED_DEPTH - 1,
            ),
        decreases MAX_INTERFACE_EMBED_DEPTH - depth, (if grew { 1int } else { 0int }),
    {
        let count: usize = all.len();
        let ghost from = all@;
        for k in 0..count
            invariant
                count == from.len(),
                count <= all@.len(),
                from.is_prefix_of(all@),
                all@ == one_level_more(graph@, from, named_only, k as int),
        {
            let node: NodeId = all[k];
            proof {
                assert(node == from[k as int]);
                lemma_one_level_len(graph@, from, named_only, k + 1);
            }
            let skip: bool = named_only && graph.qualified_name_string(node).is_none();
            if !skip {
                let outgoing = graph.edges.edges_from(node);
                let ghost views = out_edges(graph@, node);
                let ghost before = all@;
                for i in 0..outgoing.len()
                    invariant
                        edge_views(outgoing@) == views,
                        from.is_prefix_of(all@),
                        all@ == with_interfaces(graph@.nodes, before, views, i as int),
                {
                    assert(views[i as int] == outgoing@[i as int]@);
                    let target: NodeId = outgoing[i].target;
                    if is_inherits(&outgoing[i].kind) && kind_of(&graph.nodes, target) == Some(
                        NodeKind::Interface,
                    ) && !has_node(&all, target) {
                        all.push(target);
                    }
                }
            }
        }
        proof {
            lemma_one_level_len(graph@, from, named_only, count as int);
        }
        if all.len() == count {
            proof {
                lemma_embedded_fixpoint(
                    graph@,
                    start,
                    named_only,
                    depth as int,
                    MAX_INTERFACE_EMBED_DEPTH - 1,
                );
            }
            grew = false;
        } else {
            depth = depth + 1;
        }
    }
    all
}

/// The methods among the first `n` of `more` whose name is new, added to `found`.
pub open spec fn with_new_names(found: Seq<MethodRef>, more: Seq<MethodRef>, n: int) -> Seq<
    MethodRef,
>
    decreases n,
{
    if n <= 0 {
        found
    } else {
        let before = with_new_names(found, more, n - 1);
        if has_name(before, more[n - 1].name) {
            before
        } else {
            before.push(more[n - 1])
        }
    }
}

/// Some method of `s` is named `name`.
pub open spec fn has_name(s: Seq<MethodRef>, name: StringId) -> bool {
    exists|i: int| 0 <= i < s.len() && (#[trigger] s[i]).name == name
}

fn is_named(v: &Vec<MethodRef>, name: StringId) -> (r: bool)
    ensures
        r == has_name(v@, name),
{
    for i in 0..v.len()
        invariant
            forall|j: int| 0 <= j < i ==> (#[trigger] v@[j]).name != name,
    {
        if v[i].name == name {
            assert(v@[i as int].name == name);
            return true;
        }
    }
    false
}

/// The methods of the first `n` of `types`, one per name, nearest first.
pub open spec fn methods_of_all(g: GraphView, types: Seq<NodeId>, n: int) -> Seq<MethodRef>
    decreases n,
{
    if n <= 0 {
        Seq::empty()
    } else {
        let before = methods_of_all(g, types, n - 1);
        match g.qn(types[n - 1]) {
            Some(qn) => with_new_names(before, methods_of(g, qn), methods_of(g, qn).len() as int),
            None => before,
        }
    }
}

/// The methods of interface `start` and of the interfaces that it embeds.
pub open spec fn flattened_methods(g: GraphView, start: NodeId) -> Seq<MethodRef> {
    let all = embedded_interfaces(g, start, true, MAX_INTERFACE_EMBED_DEPTH - 1);
    methods_of_all(g, all, all.len() as int)
}

/// Adds to `found` the methods of `more` whose name is new.
pub fn add_new_names(found: &mut Vec<MethodRef>, more: &Vec<MethodRef>)
    ensures
        final(found)@ == with_new_names(old(found)@, more@, more@.len() as int),
{
    for i in 0..more.len()
        invariant
            found@ == with_new_names(old(found)@, more@, i as int),
    {
        if !is_named(found, more[i].name) {
            found.push(more[i]);
        }
    }
}

/// The methods of an interface and of the interfaces that it embeds, one per name;
/// of several with one name the nearest counts.
pub fn find_interface_flattened_methods(graph: &CodeGraph, interface_node: NodeId) -> (r: Vec<
    MethodRef,
>)
    ensures
        r@ == flattened_methods(graph@, interface_node),
{
    let all = collect_embedded_interfaces(graph, interface_node, true);
    let mut out: Vec<MethodRef> = Vec::new();
    for i in 0..all.len()
        invariant
            out@ == methods_of_all(graph@, all@, i as int),
    {
        match graph.qualified_name_string(all[i]) {
            Some(qn) => {
                let methods = find_method_names_of_type(graph, qn.as_str());
                add_new_names(&mut out, &methods);
            },
            None => {},
        }
    }
    out
}

} // verus!
