//! Deriving the binding plane: scopes, aliases and shadowed names.
//!
//! The edges are walked once, into an index that answers for any node what contains it,
//! what imports it and what it defines or contains. Only `Contains`, `Defines` and
//! `Imports` edges count.
use vstd::prelude::*;

use crate::arena::{live, occupied, NodeEntry};
use crate::bind::{
    find_scope_kind, scope_id, scope_kind, AliasEntry, AliasTable, BindingView, EdgeEnd, EdgeLists,
    FileStableId, ProvenanceView, Scope, ScopeArena, ScopeId, ScopeKind, ScopeProvenance,
    ScopeProvenanceStore, ScopeStableId, ShadowEntry, ShadowTable,
};
use crate::edges::EdgeView;
use crate::files::RegistryView;
use crate::graph::{CodeGraph, GraphView};
use crate::ids::{NodeId, StringId};
use crate::indices::nodes_of_kind;
use crate::kinds::{EdgeKind, NodeKind};
use crate::lists::{lemma_views_push, views};
use crate::node_map::NodeMap;

pub mod laws;

verus! {

/// What contains `node`, by the last of the first `n` edges that says so.
pub open spec fn parent_of(edges: Seq<EdgeView>, node: NodeId, n: int) -> Option<NodeId>
    decreases n,
{
    if n <= 0 {
        None
    } else if edges[n - 1].kind == EdgeKind::Contains && edges[n - 1].target == node {
        Some(edges[n - 1].source)
    } else {
        parent_of(edges, node, n - 1)
    }
}

/// What imports `node` among the first `n` edges.
pub open spec fn importers_of(edges: Seq<EdgeView>, node: NodeId, n: int) -> Seq<EdgeEnd>
    decreases n,
{
    if n <= 0 {
        Seq::empty()
    } else {
        let before = importers_of(edges, node, n - 1);
        let e = edges[n - 1];
        if e.kind is Imports && e.target == node {
            before.push(EdgeEnd { node: e.source, kind: e.kind })
        } else {
            before
        }
    }
}

/// What `node` defines or contains among the first `n` edges.
pub open spec fn members_of(edges: Seq<EdgeView>, node: NodeId, n: int) -> Seq<EdgeEnd>
    decreases n,
{
    if n <= 0 {
        Seq::empty()
    } else {
        let before = members_of(edges, node, n - 1);
        let e = edges[n - 1];
        if (e.kind == EdgeKind::Contains || e.kind == EdgeKind::Defines) && e.source == node {
            before.push(EdgeEnd { node: e.target, kind: e.kind })
        } else {
            before
        }
    }
}

/// The edges that the derivation needs, by node.
pub struct BindingEdgeIndex {
    /// What contains each node.
    pub contains_parents: NodeMap<NodeId>,
    /// What imports each node.
    pub imports_by_target: EdgeLists,
    /// What each node defines or contains.
    pub defines_contains_by_source: EdgeLists,
}

impl BindingEdgeIndex {
    /// The index answers as the first `n` of `edges` do.
    pub open spec fn answers(&self, edges: Seq<EdgeView>, n: int) -> bool {
        &&& self.contains_parents.wf()
        &&& self.imports_by_target.wf()
        &&& self.defines_contains_by_source.wf()
        &&& forall|node: NodeId| #[trigger]
            parent_of(edges, node, n) == (if self.contains_parents@.dom().contains(node) {
                Some(self.contains_parents@[node])
            } else {
                None
            })
        &&& forall|node: NodeId| #[trigger]
            self.imports_by_target.listed(node) == importers_of(edges, node, n)
        &&& forall|node: NodeId| #[trigger]
            self.defines_contains_by_source.listed(node) == members_of(edges, node, n)
    }
}

/// Walks the edges once. The index answers for every node as a walk over all edges
/// would.
pub fn build_binding_edge_index(graph: &CodeGraph) -> (r: BindingEdgeIndex)
    ensures
        r.answers(graph@.edges.edges, graph@.edges.edges.len() as int),
{
    let ghost all = graph@.edges.edges;
    let mut r = BindingEdgeIndex {
        contains_parents: NodeMap::new(),
        imports_by_target: EdgeLists::new(),
        defines_contains_by_source: EdgeLists::new(),
    };
    for i in 0..graph.edges.edges.len()
        invariant
            all == graph@.edges.edges,
            r.answers(all, i as int),
    {
        let e = &graph.edges.edges[i];
        assert(all[i as int] == e@);
        let ghost before = r;
        match &e.kind {
            EdgeKind::Contains => {
                r.contains_parents.insert(e.target, e.source);
                r.defines_contains_by_source.push(
                    e.source,
                    EdgeEnd { node: e.target, kind: EdgeKind::Contains },
                );
            },
            EdgeKind::Defines => {
                r.defines_contains_by_source.push(
                    e.source,
                    EdgeEnd { node: e.target, kind: EdgeKind::Defines },
                );
            },
            EdgeKind::Imports { alias, is_wildcard } => {
                r.imports_by_target.push(
                    e.target,
                    EdgeEnd {
                        node: e.source,
                        kind: EdgeKind::Imports { alias: *alias, is_wildcard: *is_wildcard },
                    },
                );
            },
            _ => {},
        }
        proof {
            assert forall|node: NodeId| #[trigger] parent_of(all, node, i + 1) == (
            if r.contains_parents@.dom().contains(node) {
                Some(r.contains_parents@[node])
            } else {
                None
            }) by {
                assert(parent_of(all, node, i as int) == (
                if before.contains_parents@.dom().contains(node) {
                    Some(before.contains_parents@[node])
                } else {
                    None
                }));
            }
            assert forall|node: NodeId| #[trigger] r.imports_by_target.listed(node)
                == importers_of(all, node, i + 1) by {
                assert(before.imports_by_target.listed(node) == importers_of(all, node, i as int));
            }
            assert forall|node: NodeId| #[trigger] r.defines_contains_by_source.listed(node)
                == members_of(all, node, i + 1) by {
                assert(before.defines_contains_by_source.listed(node) == members_of(
                    all,
                    node,
                    i as int,
                ));
            }
        }
    }
    r
}

/// What one derivation has found.
#[derive(Debug, Clone, Copy, PartialEq, Eq, Structural)]
pub struct BindingDerivationStats {
    /// Scopes.
    pub scopes: u64,
    /// Imported names.
    pub aliases: u64,
    /// Import nodes that give a name without a scope around it.
    pub aliases_with_invalid_scope: u64,
    /// Definitions of variables and parameters.
    pub shadows: u64,
}

impl Default for BindingDerivationStats {
    fn default() -> (r: BindingDerivationStats)
        ensures
            r == (BindingDerivationStats {
                scopes: 0,
                aliases: 0,
                aliases_with_invalid_scope: 0,
                shadows: 0,
            }),
    {
        BindingDerivationStats { scopes: 0, aliases: 0, aliases_with_invalid_scope: 0, shadows: 0 }
    }
}

/// The nodes among the first `n` that open a scope.
pub open spec fn scope_nodes(nodes: Seq<(NodeId, NodeEntry)>, n: int) -> Seq<(NodeId, NodeEntry)>
    decreases n,
{
    if n <= 0 {
        Seq::empty()
    } else {
        let before = scope_nodes(nodes, n - 1);
        if scope_kind(nodes[n - 1].1.kind) is Some {
            before.push(nodes[n - 1])
        } else {
            before
        }
    }
}

/// The nodes of the graph that open a scope, in slot order.
pub open spec fn all_scope_nodes(g: GraphView) -> Seq<(NodeId, NodeEntry)> {
    let nodes = occupied(g.nodes, g.nodes.len() as int);
    scope_nodes(nodes, nodes.len() as int)
}

/// The scope that `node` opens, among the first `n`.
pub open spec fn own_scope(openers: Seq<(NodeId, NodeEntry)>, node: NodeId, n: int) -> Option<int>
    decreases n,
{
    if n <= 0 {
        None
    } else if openers[n - 1].0 == node {
        Some(n - 1)
    } else {
        own_scope(openers, node, n - 1)
    }
}

/// The innermost scope around `node`, found in at most `steps` steps outwards.
pub open spec fn enclosing(
    g: GraphView,
    openers: Seq<(NodeId, NodeEntry)>,
    node: NodeId,
    steps: int,
) -> Option<int>
    decreases steps,
{
    if steps <= 0 {
        None
    } else {
        match parent_of(g.edges.edges, node, g.edges.edges.len() as int) {
            Some(p) => match own_scope(openers, p, openers.len() as int) {
                Some(i) => Some(i),
                None => enclosing(g, openers, p, steps - 1),
            },
            None => None,
        }
    }
}

/// The identity of the innermost scope around `node`.
pub open spec fn enclosing_id(g: GraphView, node: NodeId) -> ScopeId {
    match enclosing(g, all_scope_nodes(g), node, g.nodes.len() as int) {
        Some(i) => scope_id(i),
        None => ScopeId::invalid(),
    }
}

/// The scope that a node opens.
pub open spec fn scope_of(g: GraphView, opener: (NodeId, NodeEntry)) -> Scope {
    Scope {
        kind: scope_kind(opener.1.kind)->0,
        node: opener.0,
        parent: enclosing_id(g, opener.0),
        byte_span: (opener.1.start_byte, opener.1.end_byte),
        file: opener.1.file,
    }
}

/// The scopes of the graph.
pub open spec fn scopes_of(g: GraphView) -> Seq<Scope> {
    Seq::new(all_scope_nodes(g).len(), |i: int| scope_of(g, all_scope_nodes(g)[i]))
}

/// The nodes that open a scope, and which scope each opens.
pub struct ScopeOpeners {
    pub nodes: Vec<(NodeId, NodeEntry)>,
    pub by_node: NodeMap<u32>,
}

impl ScopeOpeners {
    /// The table agrees with the list.
    pub open spec fn wf(&self) -> bool {
        &&& self.by_node.wf()
        &&& forall|node: NodeId| #[trigger]
            own_scope(self.nodes@, node, self.nodes@.len() as int) == (
            if self.by_node@.dom().contains(node) {
                Some(self.by_node@[node] as int)
            } else {
                None
            })
    }
}

fn collect_openers(graph: &CodeGraph) -> (r: ScopeOpeners)
    requires
        graph@.nodes.len() <= u32::MAX,
    ensures
        r.wf(),
        r.nodes@ == all_scope_nodes(graph@),
{
    let all = graph.nodes.iter();
    let mut nodes: Vec<(NodeId, NodeEntry)> = Vec::new();
    let mut by_node: NodeMap<u32> = NodeMap::new();
    proof {
        lemma_occupied_bound(graph@.nodes, graph@.nodes.len() as int);
    }
    for i in 0..all.len()
        invariant
            all@.len() <= u32::MAX,
            nodes@ == scope_nodes(all@, i as int),
            nodes@.len() <= i,
            by_node.wf(),
            forall|node: NodeId| #[trigger]
                own_scope(nodes@, node, nodes@.len() as int) == (
                if by_node@.dom().contains(node) {
                    Some(by_node@[node] as int)
                } else {
                    None
                }),
    {
        if find_scope_kind(all[i].1.kind).is_some() {
            let at: u32 = nodes.len() as u32;
            let ghost before = nodes@;
            let ghost table = by_node@;
            by_node.insert(all[i].0, at);
            nodes.push(all[i]);
            proof {
                assert forall|node: NodeId| #[trigger]
                    own_scope(nodes@, node, nodes@.len() as int) == (
                    if by_node@.dom().contains(node) {
                        Some(by_node@[node] as int)
                    } else {
                        None
                    }) by {
                    lemma_own_scope_prefix(before, nodes@, node, before.len() as int);
                    assert(own_scope(before, node, before.len() as int) == (
                    if table.dom().contains(node) {
                        Some(table[node] as int)
                    } else {
                        None
                    }));
                }
            }
        }
    }
    ScopeOpeners { nodes, by_node }
}

pub(crate) proof fn lemma_occupied_bound(slots: Seq<crate::arena::Slot>, n: int)
    requires
        n >= 0,
    ensures
        occupied(slots, n).len() <= n,
    decreases n,
{
    if n > 0 {
        lemma_occupied_bound(slots, n - 1);
    }
}

proof fn lemma_own_scope_prefix(
    a: Seq<(NodeId, NodeEntry)>,
    b: Seq<(NodeId, NodeEntry)>,
    node: NodeId,
    n: int,
)
    requires
        0 <= n <= a.len() <= b.len(),
        forall|i: int| 0 <= i < a.len() ==> a[i] == b[i],
    ensures
        own_scope(a, node, n) == own_scope(b, node, n),
    decreases n,
{
    if n > 0 {
        lemma_own_scope_prefix(a, b, node, n - 1);
    }
}

fn find_enclosing(
    graph: &CodeGraph,
    index: &BindingEdgeIndex,
    openers: &ScopeOpeners,
    node: NodeId,
) -> (r: ScopeId)
    requires
        index.answers(graph@.edges.edges, graph@.edges.edges.len() as int),
        openers.wf(),
        openers.nodes@ == all_scope_nodes(graph@),
    ensures
        r == enclosing_id(graph@, node),
{
    let ghost g = graph@;
    let ghost all = openers.nodes@;
    let mut at: NodeId = node;
    let mut steps: usize = graph.nodes.slot_count();
    while steps > 0
        invariant
            g == graph@,
            all == openers.nodes@,
            all == all_scope_nodes(g),
            index.answers(g.edges.edges, g.edges.edges.len() as int),
            openers.wf(),
            enclosing(g, all, node, g.nodes.len() as int) == enclosing(g, all, at, steps as int),
        decreases steps,
    {
        assert(parent_of(g.edges.edges, at, g.edges.edges.len() as int) == (
        if index.contains_parents@.dom().contains(at) {
            Some(index.contains_parents@[at])
        } else {
            None
        }));
        match index.contains_parents.get(at) {
            Some(p) => {
                assert(own_scope(all, p, all.len() as int) == (
                if openers.by_node@.dom().contains(p) {
                    Some(openers.by_node@[p] as int)
                } else {
                    None
                }));
                match openers.by_node.get(p) {
                    Some(i) => {
                        return ScopeId::new(i, 1);
                    },
                    None => {
                        at = p;
                        steps = steps - 1;
                    },
                }
            },
            None => {
                return ScopeId::invalid();
            },
        }
    }
    ScopeId::invalid()
}

/// The scopes of the graph.
pub fn derive_scopes(graph: &CodeGraph, index: &BindingEdgeIndex, openers: &ScopeOpeners) -> (r:
    ScopeArena)
    requires
        index.answers(graph@.edges.edges, graph@.edges.edges.len() as int),
        openers.wf(),
        openers.nodes@ == all_scope_nodes(graph@),
    ensures
        r@ == scopes_of(graph@),
{
    let ghost g = graph@;
    let mut out: Vec<Scope> = Vec::new();
    for i in 0..openers.nodes.len()
        invariant
            g == graph@,
            index.answers(g.edges.edges, g.edges.edges.len() as int),
            openers.wf(),
            openers.nodes@ == all_scope_nodes(g),
            out@ =~= scopes_of(g).take(i as int),
    {
        let node: NodeId = openers.nodes[i].0;
        let entry: NodeEntry = openers.nodes[i].1;
        proof {
            let all = occupied(g.nodes, g.nodes.len() as int);
            lemma_scope_nodes_open(all, all.len() as int, i as int);
            assert(scopes_of(g).take(i + 1) =~= scopes_of(g).take(i as int).push(
                scopes_of(g)[i as int],
            ));
        }
        match find_scope_kind(entry.kind) {
            Some(kind) => {
                out.push(
                    Scope {
                        kind,
                        node,
                        parent: find_enclosing(graph, index, openers, node),
                        byte_span: (entry.start_byte, entry.end_byte),
                        file: entry.file,
                    },
                );
            },
            None => {},
        }
    }
    proof {
        assert(scopes_of(g).take(scopes_of(g).len() as int) =~= scopes_of(g));
    }
    ScopeArena { scopes: out }
}

proof fn lemma_scope_nodes_open(nodes: Seq<(NodeId, NodeEntry)>, n: int, i: int)
    requires
        0 <= i < scope_nodes(nodes, n).len(),
    ensures
        scope_kind(scope_nodes(nodes, n)[i].1.kind) is Some,
    decreases n,
{
    if n > 0 && i < scope_nodes(nodes, n - 1).len() {
        lemma_scope_nodes_open(nodes, n - 1, i);
    }
}

/// The name that an import edge gives to import node `e`, in scope `scope`.
pub open spec fn alias_of(scope: ScopeId, node: NodeId, e: NodeEntry, end: EdgeEnd) -> AliasEntry {
    AliasEntry {
        scope,
        from_symbol: match end.kind {
            EdgeKind::Imports { alias: Some(a), is_wildcard } => a,
            _ => e.name,
        },
        to_symbol: match e.qualified_name {
            Some(q) => q,
            None => e.name,
        },
        import_node: node,
        is_wildcard: match end.kind {
            EdgeKind::Imports { alias, is_wildcard } => is_wildcard,
            _ => false,
        },
    }
}

/// The names that import node `node` gives.
pub open spec fn aliases_of(g: GraphView, node: NodeId) -> Seq<AliasEntry> {
    match live(g.nodes, node) {
        Some(e) => {
            let ends = importers_of(g.edges.edges, node, g.edges.edges.len() as int);
            Seq::new(ends.len(), |i: int| alias_of(enclosing_id(g, node), node, e, ends[i]))
        },
        None => Seq::empty(),
    }
}

/// The names that the first `n` import nodes give.
pub open spec fn aliases_until(g: GraphView, nodes: Seq<NodeId>, n: int) -> Seq<AliasEntry>
    decreases n,
{
    if n <= 0 {
        Seq::empty()
    } else {
        aliases_until(g, nodes, n - 1) + aliases_of(g, nodes[n - 1])
    }
}

/// The imported names of the graph.
pub open spec fn all_aliases(g: GraphView) -> Seq<AliasEntry> {
    let nodes = nodes_of_kind(g.indices, NodeKind::Import, g.indices.len() as int);
    aliases_until(g, nodes, nodes.len() as int)
}

/// The import nodes that give, among the first `n` names, one without a scope around it.
pub open spec fn unscoped(aliases: Seq<AliasEntry>, n: int) -> Set<NodeId>
    decreases n,
{
    if n <= 0 {
        Set::empty()
    } else if aliases[n - 1].scope == ScopeId::invalid() {
        unscoped(aliases, n - 1).insert(aliases[n - 1].import_node)
    } else {
        unscoped(aliases, n - 1)
    }
}

pub(crate) proof fn lemma_unscoped(aliases: Seq<AliasEntry>, n: int)
    requires
        0 <= n <= aliases.len(),
    ensures
        unscoped(aliases, n).finite(),
        unscoped(aliases, n).len() <= n,
        forall|node: NodeId| #[trigger]
            unscoped(aliases, n).contains(node) <==> exists|i: int|
                0 <= i < n && (#[trigger] aliases[i]).import_node == node && aliases[i].scope
                    == ScopeId::invalid(),
    decreases n,
{
    if n > 0 {
        lemma_unscoped(aliases, n - 1);
        assert(aliases[n - 1].import_node == aliases[n - 1].import_node);
    }
}

/// An import node is counted among those without a scope exactly when some name that it
/// gives has no scope around it.
pub proof fn law_unscoped_imports_give_unscoped_names(g: GraphView, node: NodeId)
    ensures
        unscoped(all_aliases(g), all_aliases(g).len() as int).contains(node) <==> exists|i: int|
            0 <= i < all_aliases(g).len() && (#[trigger] all_aliases(g)[i]).import_node == node
                && all_aliases(g)[i].scope == ScopeId::invalid(),
{
    lemma_unscoped(all_aliases(g), all_aliases(g).len() as int);
}

fn make_alias(scope: ScopeId, node: NodeId, e: &NodeEntry, kind: &EdgeKind) -> (r: AliasEntry)
    ensures
        forall|end: EdgeEnd| #[trigger] end.kind == *kind ==> r == alias_of(scope, node, *e, end),
{
    let from_symbol: StringId = match kind {
        EdgeKind::Imports { alias: Some(a), .. } => *a,
        _ => e.name,
    };
    let is_wildcard: bool = match kind {
        EdgeKind::Imports { is_wildcard, .. } => *is_wildcard,
        _ => false,
    };
    let to_symbol: StringId = match e.qualified_name {
        Some(q) => q,
        None => e.name,
    };
    AliasEntry { scope, from_symbol, to_symbol, import_node: node, is_wildcard }
}

fn add_aliases(
    graph: &CodeGraph,
    index: &BindingEdgeIndex,
    openers: &ScopeOpeners,
    node: NodeId,
    out: &mut Vec<AliasEntry>,
)
    requires
        index.answers(graph@.edges.edges, graph@.edges.edges.len() as int),
        openers.wf(),
        openers.nodes@ == all_scope_nodes(graph@),
    ensures
        final(out)@ == old(out)@ + aliases_of(graph@, node),
{
    let ghost g = graph@;
    let ghost before = out@;
    proof {
        assert(before + Seq::<AliasEntry>::empty() =~= before);
        assert(index.imports_by_target.listed(node) == importers_of(
            g.edges.edges,
            node,
            g.edges.edges.len() as int,
        ));
    }
    let entry: NodeEntry = match graph.nodes.get(node) {
        Some(e) => e,
        None => {
            return ;
        },
    };
    let scope: ScopeId = find_enclosing(graph, index, openers, node);
    let ends: &Vec<EdgeEnd> = match index.imports_by_target.find(node) {
        Some(v) => v,
        None => {
            proof {
                assert(aliases_of(g, node) =~= Seq::empty());
            }
            return ;
        },
    };
    proof {
        assert(before + aliases_of(g, node).take(0) =~= before);
    }
    for i in 0..ends.len()
        invariant
            g == graph@,
            live(g.nodes, node) == Some(entry),
            scope == enclosing_id(g, node),
            ends@ == importers_of(g.edges.edges, node, g.edges.edges.len() as int),
            out@ == before + aliases_of(g, node).take(i as int),
    {
        let a = make_alias(scope, node, &entry, &ends[i].kind);
        out.push(a);
        proof {
            assert(ends@[i as int].kind == ends@[i as int].kind);
            assert(a == alias_of(scope, node, entry, ends@[i as int]));
            assert(before + aliases_of(g, node).take(i + 1) =~= (before + aliases_of(
                g,
                node,
            ).take(i as int)).push(aliases_of(g, node)[i as int]));
        }
    }
    proof {
        assert(aliases_of(g, node).take(ends@.len() as int) =~= aliases_of(g, node));
    }
}

/// The imported names of the graph, and how many import nodes give one without a scope
/// around it.
pub fn derive_aliases(graph: &CodeGraph, index: &BindingEdgeIndex, openers: &ScopeOpeners) -> (r: (
    AliasTable,
    u64,
))
    requires
        index.answers(graph@.edges.edges, graph@.edges.edges.len() as int),
        openers.wf(),
        openers.nodes@ == all_scope_nodes(graph@),
    ensures
        r.0@ == all_aliases(graph@),
        r.1 == unscoped(all_aliases(graph@), all_aliases(graph@).len() as int).len(),
{
    let ghost g = graph@;
    let nodes = graph.indices.by_kind(NodeKind::Import);
    let mut out: Vec<AliasEntry> = Vec::new();
    for i in 0..nodes.len()
        invariant
            g == graph@,
            index.answers(g.edges.edges, g.edges.edges.len() as int),
            openers.wf(),
            openers.nodes@ == all_scope_nodes(g),
            out@ == aliases_until(g, nodes@, i as int),
    {
        add_aliases(graph, index, openers, nodes[i], &mut out);
    }
    let mut invalid: u64 = 0;
    let mut counted: NodeMap<bool> = NodeMap::new();
    for i in 0..out.len()
        invariant
            counted.wf(),
            counted@.dom() == unscoped(out@, i as int),
            invalid == unscoped(out@, i as int).len(),
    {
        proof {
            lemma_unscoped(out@, i as int);
        }
        if out[i].scope.is_invalid() && counted.get(out[i].import_node).is_none() {
            counted.insert(out[i].import_node, true);
            invalid = invalid + 1;
        }
        proof {
            assert(counted@.dom() =~= unscoped(out@, i + 1));
        }
    }
    (AliasTable { entries: out }, invalid)
}

/// A node of this kind can be shadowed.
pub open spec fn can_be_shadowed(kind: NodeKind) -> bool {
    kind == NodeKind::Variable || kind == NodeKind::Parameter
}

/// A definition of `node` in scope `scope` is among `entries`.
pub open spec fn has_definition(entries: Seq<ShadowEntry>, scope: ScopeId, node: NodeId) -> bool {
    exists|i: int|
        0 <= i < entries.len() && (#[trigger] entries[i]).scope == scope && entries[i].node == node
}

/// The definitions after those among the first `n` members of a function were added, each
/// once.
pub open spec fn with_members(
    g: GraphView,
    entries: Seq<ShadowEntry>,
    scope: ScopeId,
    ends: Seq<EdgeEnd>,
    n: int,
) -> Seq<ShadowEntry>
    decreases n,
{
    if n <= 0 {
        entries
    } else {
        let before = with_members(g, entries, scope, ends, n - 1);
        let node = ends[n - 1].node;
        match live(g.nodes, node) {
            Some(e) => if can_be_shadowed(e.kind) && !has_definition(before, scope, node) {
                before.push(
                    ShadowEntry { scope, symbol: e.name, byte_offset: e.start_byte, node },
                )
            } else {
                before
            },
            None => before,
        }
    }
}

/// The definitions in the first `n` scopes, as far as these are functions.
pub open spec fn shadows_until(g: GraphView, scopes: Seq<Scope>, n: int) -> Seq<ShadowEntry>
    decreases n,
{
    if n <= 0 {
        Seq::empty()
    } else {
        let before = shadows_until(g, scopes, n - 1);
        if scopes[n - 1].kind == ScopeKind::Function {
            let ends = members_of(
                g.edges.edges,
                scopes[n - 1].node,
                g.edges.edges.len() as int,
            );
            with_members(g, before, scope_id(n - 1), ends, ends.len() as int)
        } else {
            before
        }
    }
}

/// The definitions of variables and parameters of the graph.
pub open spec fn all_shadows(g: GraphView) -> Seq<ShadowEntry> {
    shadows_until(g, scopes_of(g), scopes_of(g).len() as int)
}

fn is_defined(entries: &Vec<ShadowEntry>, scope: ScopeId, node: NodeId) -> (r: bool)
    ensures
        r == has_definition(entries@, scope, node),
{
    for i in 0..entries.len()
        invariant
            forall|j: int|
                0 <= j < i ==> !((#[trigger] entries@[j]).scope == scope && entries@[j].node
                    == node),
    {
        if entries[i].scope == scope && entries[i].node == node {
            return true;
        }
    }
    false
}

fn add_members(
    graph: &CodeGraph,
    index: &BindingEdgeIndex,
    scope: ScopeId,
    opener: NodeId,
    out: &mut Vec<ShadowEntry>,
)
    requires
        index.answers(graph@.edges.edges, graph@.edges.edges.len() as int),
    ensures
        ({
            let ends = members_of(
                graph@.edges.edges,
                opener,
                graph@.edges.edges.len() as int,
            );
            final(out)@ == with_members(graph@, old(out)@, scope, ends, ends.len() as int)
        }),
{
    let ghost g = graph@;
    let ghost before = out@;
    proof {
        assert(index.defines_contains_by_source.listed(opener) == members_of(
            g.edges.edges,
            opener,
            g.edges.edges.len() as int,
        ));
    }
    match index.defines_contains_by_source.find(opener) {
        Some(ends) => {
            for i in 0..ends.len()
                invariant
                    g == graph@,
                    out@ == with_members(g, before, scope, ends@, i as int),
            {
                let node: NodeId = ends[i].node;
                match graph.nodes.get(node) {
                    Some(e) => {
                        if (e.kind == NodeKind::Variable || e.kind == NodeKind::Parameter)
                            && !is_defined(out, scope, node) {
                            out.push(
                                ShadowEntry {
                                    scope,
                                    symbol: e.name,
                                    byte_offset: e.start_byte,
                                    node,
                                },
                            );
                        }
                    },
                    None => {},
                }
            }
        },
        None => {},
    }
}

/// The definitions of variables and parameters of the graph.
pub fn derive_shadows(graph: &CodeGraph, scopes: &ScopeArena, index: &BindingEdgeIndex) -> (r:
    ShadowTable)
    requires
        index.answers(graph@.edges.edges, graph@.edges.edges.len() as int),
        scopes@.len() <= u32::MAX,
    ensures
        r@ == shadows_until(graph@, scopes@, scopes@.len() as int),
{
    let mut out: Vec<ShadowEntry> = Vec::new();
    for i in 0..scopes.scopes.len()
        invariant
            index.answers(graph@.edges.edges, graph@.edges.edges.len() as int),
            scopes@.len() <= u32::MAX,
            out@ == shadows_until(graph@, scopes@, i as int),
    {
        let s: Scope = scopes.scopes[i];
        if s.kind == ScopeKind::Function {
            add_members(graph, index, ScopeId::new(i as u32, 1), s.node, &mut out);
        }
    }
    ShadowTable { entries: out }
}

/// Where scope `i` comes from.
pub open spec fn provenance_of(files: RegistryView, epoch: u64, s: Scope, i: int) -> ProvenanceView {
    ProvenanceView {
        scope: scope_id(i),
        first_seen_epoch: epoch,
        last_seen_epoch: epoch,
        path: files.path(s.file)->0,
        content_hash: files.content_hash(s.file),
        kind: s.kind,
        byte_span: s.byte_span,
    }
}

/// Where scopes come from.
pub open spec fn provenance_of_all(files: RegistryView, epoch: u64, scopes: Seq<Scope>) -> Seq<
    ProvenanceView,
> {
    Seq::new(scopes.len(), |i: int| provenance_of(files, epoch, scopes[i], i))
}

fn stamp_provenance(graph: &CodeGraph, scopes: &ScopeArena) -> (r: ScopeProvenanceStore)
    requires
        scopes@.len() <= u32::MAX,
        forall|i: int|
            0 <= i < scopes@.len() ==> graph@.files.path((#[trigger] scopes@[i]).file) is Some,
    ensures
        r@ == provenance_of_all(graph@.files, graph@.fact_epoch, scopes@),
{
    let ghost all = provenance_of_all(graph@.files, graph@.fact_epoch, scopes@);
    let mut out: Vec<ScopeProvenance> = Vec::new();
    for i in 0..scopes.scopes.len()
        invariant
            all == provenance_of_all(graph@.files, graph@.fact_epoch, scopes@),
            scopes@.len() <= u32::MAX,
            forall|k: int|
                0 <= k < scopes@.len() ==> graph@.files.path((#[trigger] scopes@[k]).file) is Some,
            views(out@) =~= all.take(i as int),
    {
        let s: Scope = scopes.scopes[i];
        assert(graph@.files.path(scopes@[i as int].file) is Some);
        match graph.files.resolve(s.file) {
            Some(path) => {
                let p = ScopeProvenance {
                    scope: ScopeId::new(i as u32, 1),
                    first_seen_epoch: graph.fact_epoch,
                    last_seen_epoch: graph.fact_epoch,
                    stable_id: ScopeStableId {
                        file: FileStableId { path },
                        content_hash: graph.files.content_hash(s.file),
                        kind: s.kind,
                        byte_span: s.byte_span,
                    },
                };
                proof {
                    lemma_views_push(out@, p);
                    assert(all.take(i + 1) =~= all.take(i as int).push(all[i as int]));
                }
                out.push(p);
            },
            None => {},
        }
    }
    proof {
        assert(all.take(all.len() as int) =~= all);
    }
    ScopeProvenanceStore { records: out }
}

/// The binding plane of the graph.
pub open spec fn binding_of(g: GraphView) -> BindingView {
    BindingView {
        scopes: scopes_of(g),
        aliases: all_aliases(g),
        shadows: all_shadows(g),
        provenance: provenance_of_all(g.files, g.fact_epoch, scopes_of(g)),
    }
}

/// What the derivation counts.
pub open spec fn binding_counts(g: GraphView) -> BindingDerivationStats {
    BindingDerivationStats {
        scopes: scopes_of(g).len() as u64,
        aliases: all_aliases(g).len() as u64,
        aliases_with_invalid_scope: unscoped(
            all_aliases(g),
            all_aliases(g).len() as int,
        ).len() as u64,
        shadows: all_shadows(g).len() as u64,
    }
}

/// Every node that opens a scope stands in a registered file.
pub open spec fn scope_files_registered(g: GraphView) -> bool {
    forall|i: int|
        0 <= i < all_scope_nodes(g).len() ==> g.files.path(
            (#[trigger] all_scope_nodes(g)[i]).1.file,
        ) is Some
}

/// Derives the binding plane of the graph.
pub fn derive_binding_plane(graph: &mut CodeGraph) -> (r: BindingDerivationStats)
    requires
        old(graph).wf(),
        old(graph)@.nodes.len() <= u32::MAX,
        scope_files_registered(old(graph)@),
    ensures
        final(graph).wf(),
        final(graph)@ == (GraphView { binding: binding_of(old(graph)@), ..old(graph)@ }),
        r == binding_counts(old(graph)@),
{
    derive_binding_plane_generic(graph)
}

/// Derives the binding plane of any graph, freshly built or being rebuilt.
pub fn derive_binding_plane_generic(graph: &mut CodeGraph) -> (r: BindingDerivationStats)
    requires
        old(graph).wf(),
        old(graph)@.nodes.len() <= u32::MAX,
        scope_files_registered(old(graph)@),
    ensures
        final(graph).wf(),
        final(graph)@ == (GraphView { binding: binding_of(old(graph)@), ..old(graph)@ }),
        r == binding_counts(old(graph)@),
{
    let ghost g = graph@;
    let mut stats = BindingDerivationStats::default();
    let index = build_binding_edge_index(graph);
    let openers = collect_openers(graph);
    let scopes = derive_scopes(graph, &index, &openers);
    proof {
        lemma_occupied_bound(g.nodes, g.nodes.len() as int);
        let nodes = occupied(g.nodes, g.nodes.len() as int);
        lemma_scope_nodes_bound(nodes, nodes.len() as int);
        assert forall|i: int| 0 <= i < scopes@.len() implies g.files.path(
            (#[trigger] scopes@[i]).file,
        ) is Some by {
            assert(scopes@[i].file == all_scope_nodes(g)[i].1.file);
        }
    }
    stats.scopes = scopes.len() as u64;
    let (aliases, invalid) = derive_aliases(graph, &index, &openers);
    stats.aliases = aliases.len() as u64;
    stats.aliases_with_invalid_scope = invalid;
    let shadows = derive_shadows(graph, &scopes, &index);
    stats.shadows = shadows.len() as u64;
    let provenance = stamp_provenance(graph, &scopes);
    graph.binding.scopes = scopes;
    graph.binding.aliases = aliases;
    graph.binding.shadows = shadows;
    graph.binding.provenance = provenance;
    stats
}

pub(crate) proof fn lemma_scope_nodes_bound(nodes: Seq<(NodeId, NodeEntry)>, n: int)
    requires
        n >= 0,
    ensures
        scope_nodes(nodes, n).len() <= n,
    decreases n,
{
    if n > 0 {
        lemma_scope_nodes_bound(nodes, n - 1);
    }
}

/// Every scope has one provenance record, at the same position and of this build; and
/// deriving the plane again changes nothing.
pub proof fn law_binding_plane_is_stable(g: GraphView)
    ensures
        binding_of(g).provenance.len() == binding_of(g).scopes.len(),
        forall|i: int|
            0 <= i < binding_of(g).scopes.len() ==> (#[trigger] binding_of(g).provenance[i]).scope
                == scope_id(i) && binding_of(g).provenance[i].first_seen_epoch == g.fact_epoch
                && binding_of(g).provenance[i].last_seen_epoch == g.fact_epoch,
        binding_of((GraphView { binding: binding_of(g), ..g })) == binding_of(g),
{
    let h = GraphView { binding: binding_of(g), ..g };
    assert(all_scope_nodes(h) == all_scope_nodes(g));
    assert forall|node: NodeId, steps: int| enclosing(h, all_scope_nodes(g), node, steps)
        == enclosing(g, all_scope_nodes(g), node, steps) by {
        lemma_enclosing_same(g, h, all_scope_nodes(g), node, steps);
    }
    assert(scopes_of(h) =~= scopes_of(g));
    let imports = nodes_of_kind(g.indices, NodeKind::Import, g.indices.len() as int);
    lemma_aliases_same(g, h, imports, imports.len() as int);
    lemma_shadows_same(g, h, scopes_of(g), scopes_of(g).len() as int);
}

proof fn lemma_enclosing_same(
    g: GraphView,
    h: GraphView,
    openers: Seq<(NodeId, NodeEntry)>,
    node: NodeId,
    steps: int,
)
    requires
        h.edges == g.edges,
    ensures
        enclosing(h, openers, node, steps) == enclosing(g, openers, node, steps),
    decreases steps,
{
    if steps > 0 {
        match parent_of(g.edges.edges, node, g.edges.edges.len() as int) {
            Some(p) => {
                lemma_enclosing_same(g, h, openers, p, steps - 1);
            },
            None => {},
        }
    }
}

proof fn lemma_aliases_same(g: GraphView, h: GraphView, nodes: Seq<NodeId>, n: int)
    requires
        h.edges == g.edges,
        h.nodes == g.nodes,
    ensures
        aliases_until(h, nodes, n) == aliases_until(g, nodes, n),
    decreases n,
{
    if n > 0 {
        lemma_aliases_same(g, h, nodes, n - 1);
        lemma_enclosing_same(g, h, all_scope_nodes(g), nodes[n - 1], g.nodes.len() as int);
        assert(aliases_of(h, nodes[n - 1]) =~= aliases_of(g, nodes[n - 1]));
    }
}

proof fn lemma_members_same(
    g: GraphView,
    h: GraphView,
    entries: Seq<ShadowEntry>,
    scope: ScopeId,
    ends: Seq<EdgeEnd>,
    n: int,
)
    requires
        h.nodes == g.nodes,
    ensures
        with_members(h, entries, scope, ends, n) == with_members(g, entries, scope, ends, n),
    decreases n,
{
    if n > 0 {
        lemma_members_same(g, h, entries, scope, ends, n - 1);
    }
}

proof fn lemma_shadows_same(g: GraphView, h: GraphView, scopes: Seq<Scope>, n: int)
    requires
        h.edges == g.edges,
        h.nodes == g.nodes,
    ensures
        shadows_until(h, scopes, n) == shadows_until(g, scopes, n),
    decreases n,
{
    if n > 0 {
        lemma_shadows_same(g, h, scopes, n - 1);
        let ends = members_of(g.edges.edges, scopes[n - 1].node, g.edges.edges.len() as int);
        lemma_members_same(
            g,
            h,
            shadows_until(g, scopes, n - 1),
            scope_id(n - 1),
            ends,
            ends.len() as int,
        );
    }
}

} // verus!
