//! What the binding plane holds: which scopes, which names and which definitions.
use vstd::prelude::*;

use crate::arena::{live, occupied, NodeEntry, Slot};
use crate::bind::{scope_id, AliasEntry, EdgeEnd, Scope, ScopeId, ScopeKind, ShadowEntry};
use crate::edges::EdgeView;
use crate::graph::GraphView;
use crate::ids::NodeId;
use crate::indices::{lemma_kind_rows, nodes_of_kind};
use crate::kinds::{EdgeKind, NodeKind};
use crate::phase4e_binding::{
    aliases_of, aliases_until, all_scope_nodes, binding_counts, binding_of, enclosing, enclosing_id,
    has_definition, importers_of, lemma_unscoped, members_of, own_scope, parent_of, scope_nodes, shadows_until,
    unscoped, with_members,
};

verus! {

/// A node of kind `kind` opens a scope of kind `scope`.
pub open spec fn opens(kind: NodeKind, scope: ScopeKind) -> bool {
    match scope {
        ScopeKind::Module => kind == NodeKind::Module,
        ScopeKind::Function => kind == NodeKind::Function || kind == NodeKind::Method,
        ScopeKind::Class => kind == NodeKind::Class,
        ScopeKind::Struct => kind == NodeKind::Struct,
        ScopeKind::Enum => kind == NodeKind::Enum,
        ScopeKind::Interface => kind == NodeKind::Interface,
        ScopeKind::Trait => kind == NodeKind::Trait,
    }
}

/// The first `n` nodes that open a scope, as they stand in the slots.
spec fn opened(slots: Seq<Slot>, found: Seq<(NodeId, NodeEntry)>, n: int) -> bool {
    &&& forall|i: int|
        0 <= i < found.len() ==> {
            let o = #[trigger] found[i];
            &&& o.0.index < n
            &&& live(slots, o.0) == Some(o.1)
            &&& exists|scope: ScopeKind| #[trigger] opens(o.1.kind, scope)
        }
    &&& forall|i: int, j: int|
        0 <= i < j < found.len() ==> (#[trigger] found[i]).0.index < (#[trigger] found[j]).0.index
    &&& forall|id: NodeId, scope: ScopeKind|
        id.index < n && (#[trigger] live(slots, id)) is Some && #[trigger] opens(
            live(slots, id)->0.kind,
            scope,
        ) ==> exists|i: int| 0 <= i < found.len() && (#[trigger] found[i]).0 == id
}

proof fn lemma_kinds(kind: NodeKind)
    ensures
        forall|scope: ScopeKind| #[trigger]
            opens(kind, scope) <==> crate::bind::scope_kind(kind) == Some(scope),
{
}

proof fn lemma_scope_nodes_prefix(
    a: Seq<(NodeId, NodeEntry)>,
    b: Seq<(NodeId, NodeEntry)>,
    n: int,
)
    requires
        0 <= n <= a.len(),
        a.is_prefix_of(b),
    ensures
        scope_nodes(a, n) == scope_nodes(b, n),
    decreases n,
{
    if n > 0 {
        lemma_scope_nodes_prefix(a, b, n - 1);
        assert(a[n - 1] == b[n - 1]);
    }
}

proof fn lemma_opened(slots: Seq<Slot>, n: int)
    requires
        0 <= n <= slots.len() <= 0x1_0000_0000,
    ensures
        opened(slots, scope_nodes(occupied(slots, n), occupied(slots, n).len() as int), n),
    decreases n,
{
    let all = occupied(slots, n);
    let found = scope_nodes(all, all.len() as int);
    if n > 0 {
        lemma_opened(slots, n - 1);
        let few = occupied(slots, n - 1);
        let before = scope_nodes(few, few.len() as int);
        let id = NodeId { index: (n - 1) as u32, generation: slots[n - 1].generation };
        assert(id.index == n - 1);
        lemma_scope_nodes_prefix(few, all, few.len() as int);
        if let Some(e) = slots[n - 1].entry {
            lemma_kinds(e.kind);
            assert(live(slots, id) == Some(e));
            if crate::bind::scope_kind(e.kind) is Some {
                let k = crate::bind::scope_kind(e.kind)->0;
                assert(opens(e.kind, k));
                assert(found == before.push((id, e)));
            } else {
                assert(found == before);
            }
        } else {
            assert(found == before);
        }
        assert forall|x: NodeId, scope: ScopeKind|
            x.index < n && (#[trigger] live(slots, x)) is Some && #[trigger] opens(
                live(slots, x)->0.kind,
                scope,
            ) implies exists|i: int| 0 <= i < found.len() && (#[trigger] found[i]).0 == x by {
            if x.index < n - 1 {
                let i = choose|i: int| 0 <= i < before.len() && (#[trigger] before[i]).0 == x;
                assert(found[i] == before[i]);
            } else {
                assert(x == id);
                assert(found[before.len() as int].0 == x);
            }
        }
        assert forall|i: int| 0 <= i < found.len() implies {
            let o = #[trigger] found[i];
            &&& o.0.index < n
            &&& live(slots, o.0) == Some(o.1)
            &&& exists|scope: ScopeKind| #[trigger] opens(o.1.kind, scope)
        } by {
            if i < before.len() {
                assert(found[i] == before[i]);
            }
        }
        assert forall|i: int, j: int| 0 <= i < j < found.len() implies (#[trigger] found[i]).0.index
            < (#[trigger] found[j]).0.index by {
            assert(found[i] == before[i]);
            if j < before.len() {
                assert(found[j] == before[j]);
            }
        }
    }
}

/// Every live node of one of the kinds that open a scope opens exactly one, and nothing
/// else opens any: a module, a function or method, a class, a struct, an enum, an interface
/// or a trait. A scope spans what its node spans, in its file.
pub proof fn law_scopes_are_those_that_nodes_open(g: GraphView)
    requires
        g.nodes.len() <= 0x1_0000_0000,
    ensures
        forall|id: NodeId, scope: ScopeKind| #[trigger]
            live(g.nodes, id) is Some && #[trigger] opens(live(g.nodes, id)->0.kind, scope)
                ==> exists|i: int|
                0 <= i < binding_of(g).scopes.len() && (#[trigger] binding_of(g).scopes[i]).node
                    == id,
        forall|i: int|
            0 <= i < binding_of(g).scopes.len() ==> {
                let s = #[trigger] binding_of(g).scopes[i];
                &&& live(g.nodes, s.node) is Some
                &&& opens(live(g.nodes, s.node)->0.kind, s.kind)
                &&& s.byte_span == (
                    live(g.nodes, s.node)->0.start_byte,
                    live(g.nodes, s.node)->0.end_byte,
                )
                &&& s.file == live(g.nodes, s.node)->0.file
            },
        forall|i: int, j: int|
            0 <= i < j < binding_of(g).scopes.len() ==> (#[trigger] binding_of(
                g,
            ).scopes[i]).node.index < (#[trigger] binding_of(g).scopes[j]).node.index,
        binding_counts(g).scopes == binding_of(g).scopes.len() as u64,
{
    lemma_opened(g.nodes, g.nodes.len() as int);
    let found = all_scope_nodes(g);
    let scopes = binding_of(g).scopes;
    assert forall|id: NodeId, scope: ScopeKind| #[trigger]
        live(g.nodes, id) is Some && #[trigger] opens(
            live(g.nodes, id)->0.kind,
            scope,
        ) implies exists|i: int| 0 <= i < scopes.len() && (#[trigger] scopes[i]).node == id by {
        assert(id.index < g.nodes.len());
        let i = choose|i: int| 0 <= i < found.len() && (#[trigger] found[i]).0 == id;
        assert(scopes[i].node == id);
    }
    assert forall|i: int| 0 <= i < scopes.len() implies {
        let s = #[trigger] scopes[i];
        &&& live(g.nodes, s.node) is Some
        &&& opens(live(g.nodes, s.node)->0.kind, s.kind)
        &&& s.byte_span == (
            live(g.nodes, s.node)->0.start_byte,
            live(g.nodes, s.node)->0.end_byte,
        )
        &&& s.file == live(g.nodes, s.node)->0.file
    } by {
        let o = found[i];
        lemma_kinds(o.1.kind);
    }
    assert forall|i: int, j: int| 0 <= i < j < scopes.len() implies (#[trigger] scopes[i]).node.index
        < (#[trigger] scopes[j]).node.index by {
        assert(found[i].0.index < found[j].0.index);
    }
}

/// `parent` contains `node`, by the last edge that says what contains it.
pub open spec fn contains_node(edges: Seq<EdgeView>, parent: NodeId, node: NodeId) -> bool {
    exists|k: int|
        0 <= k < edges.len() && (#[trigger] edges[k]).kind == EdgeKind::Contains && edges[k].target
            == node && edges[k].source == parent && (forall|j: int|
            k < j < edges.len() ==> !((#[trigger] edges[j]).kind == EdgeKind::Contains
                && edges[j].target == node))
}

proof fn lemma_parent(edges: Seq<EdgeView>, node: NodeId, n: int)
    requires
        0 <= n <= edges.len(),
    ensures
        match parent_of(edges, node, n) {
            Some(p) => exists|k: int|
                0 <= k < n && (#[trigger] edges[k]).kind == EdgeKind::Contains && edges[k].target
                    == node && edges[k].source == p && (forall|j: int|
                    k < j < n ==> !((#[trigger] edges[j]).kind == EdgeKind::Contains
                        && edges[j].target == node)),
            None => forall|j: int|
                0 <= j < n ==> !((#[trigger] edges[j]).kind == EdgeKind::Contains
                    && edges[j].target == node),
        },
    decreases n,
{
    if n > 0 {
        if edges[n - 1].kind == EdgeKind::Contains && edges[n - 1].target == node {
            assert(edges[n - 1].source == edges[n - 1].source);
        } else {
            lemma_parent(edges, node, n - 1);
        }
    }
}

proof fn lemma_contains(edges: Seq<EdgeView>, node: NodeId, parent: NodeId)
    ensures
        contains_node(edges, parent, node) <==> parent_of(edges, node, edges.len() as int) == Some(
            parent,
        ),
{
    let n = edges.len() as int;
    lemma_parent(edges, node, n);
    if contains_node(edges, parent, node) {
        let k = choose|k: int|
            0 <= k < n && (#[trigger] edges[k]).kind == EdgeKind::Contains && edges[k].target
                == node && edges[k].source == parent && (forall|j: int|
                k < j < n ==> !((#[trigger] edges[j]).kind == EdgeKind::Contains
                    && edges[j].target == node));
        let p = parent_of(edges, node, n)->0;
        let m = choose|m: int|
            0 <= m < n && (#[trigger] edges[m]).kind == EdgeKind::Contains && edges[m].target
                == node && edges[m].source == p && (forall|j: int|
                m < j < n ==> !((#[trigger] edges[j]).kind == EdgeKind::Contains
                    && edges[j].target == node));
        assert(edges[k].target == node && edges[m].target == node);
        assert(k == m);
    }
}

proof fn lemma_own_scope(openers: Seq<(NodeId, NodeEntry)>, node: NodeId, n: int)
    requires
        0 <= n <= openers.len(),
    ensures
        match own_scope(openers, node, n) {
            Some(i) => 0 <= i < n && openers[i].0 == node,
            None => forall|i: int| 0 <= i < n ==> (#[trigger] openers[i]).0 != node,
        },
    decreases n,
{
    if n > 0 {
        lemma_own_scope(openers, node, n - 1);
    }
}

/// `path` leads from `node` outwards, each step to what contains the last; only its end
/// opens a scope of `g`, which is scope `i`.
pub open spec fn leads_out(g: GraphView, node: NodeId, path: Seq<NodeId>, i: int) -> bool {
    let scopes = binding_of(g).scopes;
    &&& 0 < path.len() <= g.nodes.len()
    &&& contains_node(g.edges.edges, path[0], node)
    &&& forall|k: int|
        0 < k < path.len() ==> contains_node(g.edges.edges, #[trigger] path[k], path[k - 1])
    &&& forall|k: int, j: int|
        0 <= k < path.len() - 1 && 0 <= j < scopes.len() ==> (#[trigger] scopes[j]).node
            != #[trigger] path[k]
    &&& 0 <= i < scopes.len()
    &&& scopes[i].node == path[path.len() - 1]
}

spec fn leads_out_in(
    g: GraphView,
    openers: Seq<(NodeId, NodeEntry)>,
    node: NodeId,
    path: Seq<NodeId>,
    i: int,
    steps: int,
) -> bool {
    &&& 0 < path.len() <= steps
    &&& contains_node(g.edges.edges, path[0], node)
    &&& forall|k: int|
        0 < k < path.len() ==> contains_node(g.edges.edges, #[trigger] path[k], path[k - 1])
    &&& forall|k: int, j: int|
        0 <= k < path.len() - 1 && 0 <= j < openers.len() ==> (#[trigger] openers[j]).0
            != #[trigger] path[k]
    &&& 0 <= i < openers.len()
    &&& openers[i].0 == path[path.len() - 1]
}

proof fn lemma_enclosing_path(
    g: GraphView,
    openers: Seq<(NodeId, NodeEntry)>,
    node: NodeId,
    steps: int,
)
    ensures
        enclosing(g, openers, node, steps) matches Some(i) ==> exists|path: Seq<NodeId>| #[trigger]
            leads_out_in(g, openers, node, path, i, steps),
    decreases steps,
{
    if steps > 0 {
        let edges = g.edges.edges;
        if let Some(p) = parent_of(edges, node, edges.len() as int) {
            lemma_contains(edges, node, p);
            lemma_own_scope(openers, p, openers.len() as int);
            match own_scope(openers, p, openers.len() as int) {
                Some(i) => {
                    assert(leads_out_in(g, openers, node, seq![p], i, steps));
                },
                None => {
                    lemma_enclosing_path(g, openers, p, steps - 1);
                    if let Some(i) = enclosing(g, openers, p, steps - 1) {
                        let rest = choose|path: Seq<NodeId>| #[trigger]
                            leads_out_in(g, openers, p, path, i, steps - 1);
                        let path = seq![p] + rest;
                        assert forall|k: int| 0 < k < path.len() implies contains_node(
                            edges,
                            #[trigger] path[k],
                            path[k - 1],
                        ) by {
                            assert(path[k] == rest[k - 1]);
                            if k > 1 {
                                assert(path[k - 1] == rest[k - 2]);
                            }
                        }
                        assert forall|k: int, j: int|
                            0 <= k < path.len() - 1 && 0 <= j < openers.len() implies (
                        #[trigger] openers[j]).0 != #[trigger] path[k] by {
                            if k > 0 {
                                assert(path[k] == rest[k - 1]);
                            }
                        }
                        assert(path[path.len() - 1] == rest[rest.len() - 1]);
                        assert(leads_out_in(g, openers, node, path, i, steps));
                    }
                },
            }
        }
    }
}

proof fn lemma_path_enclosing(
    g: GraphView,
    openers: Seq<(NodeId, NodeEntry)>,
    node: NodeId,
    path: Seq<NodeId>,
    i: int,
    steps: int,
)
    requires
        leads_out_in(g, openers, node, path, i, steps),
        forall|a: int, b: int|
            0 <= a < b < openers.len() ==> (#[trigger] openers[a]).0 != (#[trigger] openers[b]).0,
    ensures
        enclosing(g, openers, node, steps) == Some(i),
    decreases steps,
{
    let edges = g.edges.edges;
    let p = path[0];
    lemma_contains(edges, node, p);
    lemma_own_scope(openers, p, openers.len() as int);
    if path.len() == 1 {
        let j = own_scope(openers, p, openers.len() as int)->0;
        assert(openers[i].0 == p);
        assert(openers[j].0 == p);
        assert(i == j);
    } else {
        if let Some(j) = own_scope(openers, p, openers.len() as int) {
            assert(openers[j].0 != path[0]);
        }
        let rest = path.subrange(1, path.len() as int);
        assert(rest[0] == path[1]);
        assert forall|k: int| 0 < k < rest.len() implies contains_node(
            edges,
            #[trigger] rest[k],
            rest[k - 1],
        ) by {
            assert(rest[k] == path[k + 1]);
            assert(rest[k - 1] == path[k]);
        }
        assert forall|k: int, j: int|
            0 <= k < rest.len() - 1 && 0 <= j < openers.len() implies (#[trigger] openers[j]).0
            != #[trigger] rest[k] by {
            assert(rest[k] == path[k + 1]);
        }
        assert(leads_out_in(g, openers, p, rest, i, steps - 1));
        lemma_path_enclosing(g, openers, p, rest, i, steps - 1);
    }
}

proof fn lemma_enclosing_id(g: GraphView, node: NodeId)
    requires
        g.nodes.len() <= 0x1_0000_0000,
    ensures
        binding_of(g).scopes.len() <= g.nodes.len(),
        forall|i: int, path: Seq<NodeId>| #[trigger]
            leads_out(g, node, path, i) ==> enclosing_id(g, node) == scope_id(i),
        (forall|i: int, path: Seq<NodeId>| !#[trigger] leads_out(g, node, path, i)) ==> enclosing_id(
            g,
            node,
        ) == ScopeId::invalid(),
{
    let openers = all_scope_nodes(g);
    let scopes = binding_of(g).scopes;
    let steps = g.nodes.len() as int;
    lemma_opened(g.nodes, steps);
    crate::phase4e_binding::lemma_occupied_bound(g.nodes, steps);
    let nodes = occupied(g.nodes, steps);
    crate::phase4e_binding::lemma_scope_nodes_bound(nodes, nodes.len() as int);
    assert forall|a: int, b: int| 0 <= a < b < openers.len() implies (#[trigger] openers[a]).0 != (
    #[trigger] openers[b]).0 by {
        assert(openers[a].0.index < openers[b].0.index);
    }
    assert forall|i: int, path: Seq<NodeId>| #[trigger]
        leads_out(g, node, path, i) implies enclosing_id(g, node) == scope_id(i) by {
        assert forall|k: int, j: int|
            0 <= k < path.len() - 1 && 0 <= j < openers.len() implies (#[trigger] openers[j]).0
            != #[trigger] path[k] by {
            assert(scopes[j].node != path[k]);
        }
        assert(scopes[i].node == openers[i].0);
        assert(leads_out_in(g, openers, node, path, i, steps));
        lemma_path_enclosing(g, openers, node, path, i, steps);
    }
    lemma_enclosing_path(g, openers, node, steps);
    if let Some(i) = enclosing(g, openers, node, steps) {
        let path = choose|path: Seq<NodeId>| #[trigger]
            leads_out_in(g, openers, node, path, i, steps);
        assert(scopes[i].node == openers[i].0);
        assert forall|k: int, j: int|
            0 <= k < path.len() - 1 && 0 <= j < scopes.len() implies (#[trigger] scopes[j]).node
            != #[trigger] path[k] by {
            assert(openers[j].0 != path[k]);
        }
        assert(leads_out(g, node, path, i));
    }
}

/// The scope around a scope is the first that is met on the way out from its node, from
/// each node to what contains it. Where none is met, there is none around it.
pub proof fn law_scope_stands_in_the_next_one_outwards(g: GraphView, at: int)
    requires
        g.nodes.len() <= 0x1_0000_0000,
        0 <= at < binding_of(g).scopes.len(),
    ensures
        forall|i: int, path: Seq<NodeId>| #[trigger]
            leads_out(g, binding_of(g).scopes[at].node, path, i) ==> binding_of(
                g,
            ).scopes[at].parent == (ScopeId { index: i as u32, generation: 1 }),
        (forall|i: int, path: Seq<NodeId>| !#[trigger]
            leads_out(g, binding_of(g).scopes[at].node, path, i)) ==> binding_of(
            g,
        ).scopes[at].parent == ScopeId::invalid(),
{
    lemma_enclosing_id(g, binding_of(g).scopes[at].node);
}

/// Edge `m` imports `node`.
pub open spec fn imports(g: GraphView, m: int, node: NodeId) -> bool {
    &&& 0 <= m < g.edges.edges.len()
    &&& g.edges.edges[m].kind is Imports
    &&& g.edges.edges[m].target == node
}

/// `node` is an import.
pub open spec fn is_import(g: GraphView, node: NodeId) -> bool {
    &&& live(g.nodes, node) is Some
    &&& exists|k: int|
        0 <= k < g.indices.len() && (#[trigger] g.indices[k]).kind == NodeKind::Import
            && g.indices[k].node == node
}

/// `a` is the name that edge `m` gives to import `node`: the alias that it states or else
/// the name of the import, for what the import is qualified with or else its name.
pub open spec fn names_import(g: GraphView, a: AliasEntry, m: int, node: NodeId) -> bool {
    let e = live(g.nodes, node)->0;
    &&& a.import_node == node
    &&& g.edges.edges[m].kind matches EdgeKind::Imports { alias, is_wildcard }
    &&& a.is_wildcard == is_wildcard
    &&& match alias {
        Some(s) => a.from_symbol == s,
        None => a.from_symbol == e.name,
    }
    &&& match e.qualified_name {
        Some(q) => a.to_symbol == q,
        None => a.to_symbol == e.name,
    }
    &&& forall|i: int, path: Seq<NodeId>| #[trigger]
        leads_out(g, node, path, i) ==> a.scope == (ScopeId { index: i as u32, generation: 1 })
    &&& (forall|i: int, path: Seq<NodeId>| !#[trigger] leads_out(g, node, path, i)) ==> a.scope
        == ScopeId::invalid()
}

/// Some edge gives `a` as the name of an import.
pub open spec fn comes_from_import(g: GraphView, a: AliasEntry) -> bool {
    is_import(g, a.import_node) && exists|m: int| #[trigger]
        imports(g, m, a.import_node) && names_import(g, a, m, a.import_node)
}

proof fn lemma_importer_of(edges: Seq<EdgeView>, node: NodeId, n: int, i: int) -> (m: int)
    requires
        0 <= n <= edges.len(),
        0 <= i < importers_of(edges, node, n).len(),
    ensures
        0 <= m < n,
        edges[m].kind is Imports,
        edges[m].target == node,
        importers_of(edges, node, n)[i].kind == edges[m].kind,
    decreases n,
{
    if i < importers_of(edges, node, n - 1).len() {
        lemma_importer_of(edges, node, n - 1, i)
    } else {
        n - 1
    }
}

proof fn lemma_importer_there(edges: Seq<EdgeView>, node: NodeId, n: int, m: int) -> (i: int)
    requires
        0 <= m < n <= edges.len(),
        edges[m].kind is Imports,
        edges[m].target == node,
    ensures
        0 <= i < importers_of(edges, node, n).len(),
        importers_of(edges, node, n)[i].kind == edges[m].kind,
    decreases n,
{
    if m < n - 1 {
        lemma_importer_there(edges, node, n - 1, m)
    } else {
        importers_of(edges, node, n - 1).len() as int
    }
}

proof fn lemma_alias_of(g: GraphView, nodes: Seq<NodeId>, n: int, i: int) -> (k: (int, int))
    requires
        0 <= n <= nodes.len(),
        0 <= i < aliases_until(g, nodes, n).len(),
    ensures
        0 <= k.0 < n,
        0 <= k.1 < aliases_of(g, nodes[k.0]).len(),
        aliases_until(g, nodes, n)[i] == aliases_of(g, nodes[k.0])[k.1],
    decreases n,
{
    let before = aliases_until(g, nodes, n - 1);
    if i < before.len() {
        lemma_alias_of(g, nodes, n - 1, i)
    } else {
        (n - 1, i - before.len())
    }
}

proof fn lemma_alias_there(g: GraphView, nodes: Seq<NodeId>, n: int, k: int, j: int) -> (i: int)
    requires
        0 <= k < n <= nodes.len(),
        0 <= j < aliases_of(g, nodes[k]).len(),
    ensures
        0 <= i < aliases_until(g, nodes, n).len(),
        aliases_until(g, nodes, n)[i] == aliases_of(g, nodes[k])[j],
    decreases n,
{
    let before = aliases_until(g, nodes, n - 1);
    if k < n - 1 {
        let i = lemma_alias_there(g, nodes, n - 1, k, j);
        assert(aliases_until(g, nodes, n)[i] == before[i]);
        i
    } else {
        before.len() + j
    }
}

/// Every edge that imports an import node gives it a name in the scope around the node, and
/// no name comes from anything else.
pub proof fn law_aliases_are_what_import_edges_say(g: GraphView)
    requires
        g.nodes.len() <= 0x1_0000_0000,
    ensures
        forall|m: int, node: NodeId|
            is_import(g, node) && #[trigger] imports(g, m, node) ==> exists|i: int|
                0 <= i < binding_of(g).aliases.len() && names_import(
                    g,
                    #[trigger] binding_of(g).aliases[i],
                    m,
                    node,
                ),
        forall|i: int|
            0 <= i < binding_of(g).aliases.len() ==> comes_from_import(
                g,
                #[trigger] binding_of(g).aliases[i],
            ),
{
    let edges = g.edges.edges;
    let nodes = nodes_of_kind(g.indices, NodeKind::Import, g.indices.len() as int);
    let all = binding_of(g).aliases;
    assert forall|m: int, node: NodeId|
        is_import(g, node) && #[trigger] imports(g, m, node) implies exists|i: int|
        0 <= i < all.len() && names_import(g, #[trigger] all[i], m, node) by {
        lemma_kind_rows(g.indices, NodeKind::Import, g.indices.len() as int, node);
        lemma_enclosing_id(g, node);
        let k = nodes.index_of(node);
        let j = lemma_importer_there(edges, node, edges.len() as int, m);
        let i = lemma_alias_there(g, nodes, nodes.len() as int, k, j);
        assert(names_import(g, all[i], m, node));
    }
    assert forall|i: int| 0 <= i < all.len() implies comes_from_import(g, #[trigger] all[i]) by {
        let k = lemma_alias_of(g, nodes, nodes.len() as int, i);
        let node = nodes[k.0];
        lemma_kind_rows(g.indices, NodeKind::Import, g.indices.len() as int, node);
        assert(nodes.contains(node));
        lemma_enclosing_id(g, node);
        let m = lemma_importer_of(edges, node, edges.len() as int, k.1);
        assert(imports(g, m, node));
        assert(names_import(g, all[i], m, node));
    }
}

/// Edge `m` says that `owner` contains or defines `node`.
pub open spec fn holds_node(g: GraphView, m: int, owner: NodeId, node: NodeId) -> bool {
    &&& 0 <= m < g.edges.edges.len()
    &&& g.edges.edges[m].kind == EdgeKind::Contains || g.edges.edges[m].kind == EdgeKind::Defines
    &&& g.edges.edges[m].source == owner
    &&& g.edges.edges[m].target == node
}

/// `node` is a variable or a parameter that the node of scope `i`, which is that of a
/// function, contains or defines.
pub open spec fn defined_in(g: GraphView, i: int, node: NodeId) -> bool {
    let scopes = binding_of(g).scopes;
    &&& 0 <= i < scopes.len()
    &&& scopes[i].kind == ScopeKind::Function
    &&& live(g.nodes, node) is Some
    &&& live(g.nodes, node)->0.kind == NodeKind::Variable || live(g.nodes, node)->0.kind
        == NodeKind::Parameter
    &&& exists|m: int| #[trigger] holds_node(g, m, scopes[i].node, node)
}

proof fn lemma_member_of(edges: Seq<EdgeView>, owner: NodeId, n: int, node: NodeId)
    requires
        0 <= n <= edges.len(),
    ensures
        (exists|j: int|
            0 <= j < members_of(edges, owner, n).len() && (#[trigger] members_of(
                edges,
                owner,
                n,
            )[j]).node == node) <==> exists|m: int|
            0 <= m < n && ((#[trigger] edges[m]).kind == EdgeKind::Contains || edges[m].kind
                == EdgeKind::Defines) && edges[m].source == owner && edges[m].target == node,
    decreases n,
{
    if n > 0 {
        lemma_member_of(edges, owner, n - 1, node);
        let before = members_of(edges, owner, n - 1);
        let after = members_of(edges, owner, n);
        if exists|j: int| 0 <= j < before.len() && (#[trigger] before[j]).node == node {
            let j = choose|j: int| 0 <= j < before.len() && (#[trigger] before[j]).node == node;
            assert(after[j].node == node);
        }
        if exists|j: int| 0 <= j < after.len() && (#[trigger] after[j]).node == node {
            let j = choose|j: int| 0 <= j < after.len() && (#[trigger] after[j]).node == node;
            if j < before.len() {
                assert(before[j].node == node);
                let m = choose|m: int|
                    0 <= m < n - 1 && ((#[trigger] edges[m]).kind == EdgeKind::Contains
                        || edges[m].kind == EdgeKind::Defines) && edges[m].source == owner
                        && edges[m].target == node;
                assert(edges[m].target == node);
            } else {
                assert(edges[n - 1].target == node);
            }
        }
        if exists|m: int|
            0 <= m < n && ((#[trigger] edges[m]).kind == EdgeKind::Contains || edges[m].kind
                == EdgeKind::Defines) && edges[m].source == owner && edges[m].target == node {
            let m = choose|m: int|
                0 <= m < n && ((#[trigger] edges[m]).kind == EdgeKind::Contains || edges[m].kind
                    == EdgeKind::Defines) && edges[m].source == owner && edges[m].target == node;
            if m == n - 1 {
                assert(after[before.len() as int].node == node);
            } else {
                assert(edges[m].target == node);
                let j = choose|j: int| 0 <= j < before.len() && (#[trigger] before[j]).node == node;
                assert(after[j].node == node);
            }
        }
    }
}

/// Entry `s` defines `node` in `scope`.
pub open spec fn defines(g: GraphView, s: ShadowEntry, scope: ScopeId, node: NodeId) -> bool {
    let e = live(g.nodes, node)->0;
    s.scope == scope && s.node == node && s.symbol == e.name && s.byte_offset == e.start_byte
}

spec fn can_define(g: GraphView, node: NodeId) -> bool {
    live(g.nodes, node) is Some && (live(g.nodes, node)->0.kind == NodeKind::Variable || live(
        g.nodes,
        node,
    )->0.kind == NodeKind::Parameter)
}

/// No two entries define the same node in the same scope.
pub open spec fn each_defined_once(entries: Seq<ShadowEntry>) -> bool {
    forall|i: int, j: int|
        0 <= i < j < entries.len() ==> (#[trigger] entries[i]).scope != (#[trigger] entries[j]).scope
            || entries[i].node != entries[j].node
}

proof fn lemma_with_members(
    g: GraphView,
    entries: Seq<ShadowEntry>,
    scope: ScopeId,
    ends: Seq<EdgeEnd>,
    n: int,
)
    requires
        0 <= n <= ends.len(),
        each_defined_once(entries),
        forall|i: int| 0 <= i < entries.len() ==> (#[trigger] entries[i]).scope != scope,
    ensures
        ({
            let all = with_members(g, entries, scope, ends, n);
            &&& entries.is_prefix_of(all)
            &&& each_defined_once(all)
            &&& forall|i: int|
                entries.len() <= i < all.len() ==> {
                    let s = #[trigger] all[i];
                    &&& defines(g, s, scope, s.node)
                    &&& can_define(g, s.node)
                    &&& exists|j: int| 0 <= j < n && (#[trigger] ends[j]).node == s.node
                }
            &&& forall|j: int|
                0 <= j < n && can_define(g, (#[trigger] ends[j]).node) ==> has_definition(
                    all,
                    scope,
                    ends[j].node,
                )
        }),
    decreases n,
{
    if n > 0 {
        lemma_with_members(g, entries, scope, ends, n - 1);
        let before = with_members(g, entries, scope, ends, n - 1);
        let all = with_members(g, entries, scope, ends, n);
        let node = ends[n - 1].node;
        assert forall|i: int, j: int| 0 <= i < j < all.len() implies (#[trigger] all[i]).scope != (
        #[trigger] all[j]).scope || all[i].node != all[j].node by {
            assert(all[i] == before[i]);
            if j < before.len() {
                assert(all[j] == before[j]);
            } else {
                assert(!has_definition(before, scope, node));
            }
        }
        assert forall|i: int| entries.len() <= i < all.len() implies {
            let s = #[trigger] all[i];
            &&& defines(g, s, scope, s.node)
            &&& can_define(g, s.node)
            &&& exists|j: int| 0 <= j < n && (#[trigger] ends[j]).node == s.node
        } by {
            if i < before.len() {
                assert(all[i] == before[i]);
                let j = choose|j: int| 0 <= j < n - 1 && (#[trigger] ends[j]).node == before[i].node;
                assert(ends[j].node == all[i].node);
            } else {
                assert(ends[n - 1].node == all[i].node);
            }
        }
        assert forall|j: int| 0 <= j < n && can_define(g, (#[trigger] ends[j]).node) implies
            has_definition(all, scope, ends[j].node) by {
            let x = ends[j].node;
            if has_definition(before, scope, x) {
                let i = choose|i: int|
                    0 <= i < before.len() && (#[trigger] before[i]).scope == scope && before[i].node
                        == x;
                assert(all[i] == before[i]);
            } else {
                assert(j == n - 1);
                assert(all[before.len() as int].node == x);
            }
        }
    }
}

spec fn definitions_until(g: GraphView, scopes: Seq<Scope>, n: int, all: Seq<ShadowEntry>) -> bool {
    &&& each_defined_once(all)
    &&& forall|k: int|
        0 <= k < all.len() ==> {
            let s = #[trigger] all[k];
            &&& s.scope.index < n
            &&& s.scope.generation == 1
            &&& defines(g, s, s.scope, s.node)
            &&& defined_by(g, scopes, s.scope.index as int, s.node)
        }
    &&& forall|i: int, node: NodeId|
        0 <= i < n && #[trigger] defined_by(g, scopes, i, node) ==> has_definition(
            all,
            scope_id(i),
            node,
        )
}

spec fn defined_by(g: GraphView, scopes: Seq<Scope>, i: int, node: NodeId) -> bool {
    &&& scopes[i].kind == ScopeKind::Function
    &&& can_define(g, node)
    &&& exists|m: int| #[trigger] holds_node(g, m, scopes[i].node, node)
}

proof fn lemma_definitions(g: GraphView, scopes: Seq<Scope>, n: int)
    requires
        0 <= n <= scopes.len() <= 0x1_0000_0000,
    ensures
        definitions_until(g, scopes, n, shadows_until(g, scopes, n)),
    decreases n,
{
    if n > 0 {
        lemma_definitions(g, scopes, n - 1);
        let before = shadows_until(g, scopes, n - 1);
        let all = shadows_until(g, scopes, n);
        let edges = g.edges.edges;
        let id = scope_id(n - 1);
        assert(id.index == n - 1);
        if scopes[n - 1].kind == ScopeKind::Function {
            let owner = scopes[n - 1].node;
            let ends = members_of(edges, owner, edges.len() as int);
            assert forall|i: int| 0 <= i < before.len() implies (#[trigger] before[i]).scope != id by {
                assert(before[i].scope.index < n - 1);
            }
            lemma_with_members(g, before, id, ends, ends.len() as int);
            assert forall|k: int| 0 <= k < all.len() implies {
                let s = #[trigger] all[k];
                &&& s.scope.index < n
                &&& s.scope.generation == 1
                &&& defines(g, s, s.scope, s.node)
                &&& defined_by(g, scopes, s.scope.index as int, s.node)
            } by {
                let s = all[k];
                if k < before.len() {
                    assert(all[k] == before[k]);
                } else {
                    lemma_member_of(edges, owner, edges.len() as int, s.node);
                    let m = choose|m: int|
                        0 <= m < edges.len() && ((#[trigger] edges[m]).kind == EdgeKind::Contains
                            || edges[m].kind == EdgeKind::Defines) && edges[m].source == owner
                            && edges[m].target == s.node;
                    assert(holds_node(g, m, owner, s.node));
                }
            }
            assert forall|i: int, node: NodeId|
                0 <= i < n && #[trigger] defined_by(g, scopes, i, node) implies has_definition(
                all,
                scope_id(i),
                node,
            ) by {
                if i < n - 1 {
                    assert(has_definition(before, scope_id(i), node));
                    let k = choose|k: int|
                        0 <= k < before.len() && (#[trigger] before[k]).scope == scope_id(i)
                            && before[k].node == node;
                    assert(all[k] == before[k]);
                } else {
                    let m = choose|m: int| #[trigger] holds_node(g, m, owner, node);
                    assert(edges[m].target == node);
                    lemma_member_of(edges, owner, edges.len() as int, node);
                    let j = choose|j: int| 0 <= j < ends.len() && (#[trigger] ends[j]).node == node;
                    assert(can_define(g, ends[j].node));
                }
            }
        } else {
            assert(all == before);
            assert forall|i: int, node: NodeId|
                0 <= i < n && #[trigger] defined_by(g, scopes, i, node) implies has_definition(
                all,
                scope_id(i),
                node,
            ) by {
                assert(i < n - 1);
            }
        }
    }
}

/// Every variable and every parameter that a function contains or defines is defined in the
/// scope of that function, exactly once, by its name and where it starts; and nothing else
/// is defined anywhere.
pub proof fn law_variables_and_parameters_are_defined_once(g: GraphView)
    requires
        g.nodes.len() <= 0x1_0000_0000,
    ensures
        forall|i: int, node: NodeId| #[trigger]
            defined_in(g, i, node) ==> exists|k: int|
                0 <= k < binding_of(g).shadows.len() && defines(
                    g,
                    #[trigger] binding_of(g).shadows[k],
                    ScopeId { index: i as u32, generation: 1 },
                    node,
                ),
        forall|k: int|
            0 <= k < binding_of(g).shadows.len() ==> {
                let s = #[trigger] binding_of(g).shadows[k];
                &&& defined_in(g, s.scope.index as int, s.node)
                &&& s.scope.generation == 1
                &&& defines(g, s, s.scope, s.node)
            },
        each_defined_once(binding_of(g).shadows),
        binding_counts(g).shadows == binding_of(g).shadows.len() as u64,
        binding_counts(g).aliases == binding_of(g).aliases.len() as u64,
{
    let scopes = binding_of(g).scopes;
    let all = binding_of(g).shadows;
    lemma_enclosing_id(g, NodeId { index: 0, generation: 0 });
    lemma_definitions(g, scopes, scopes.len() as int);
    assert forall|i: int, node: NodeId| #[trigger] defined_in(g, i, node) implies exists|k: int|
        0 <= k < all.len() && defines(
            g,
            #[trigger] all[k],
            ScopeId { index: i as u32, generation: 1 },
            node,
        ) by {
        assert(defined_by(g, scopes, i, node));
        assert(has_definition(all, scope_id(i), node));
        let k = choose|k: int|
            0 <= k < all.len() && (#[trigger] all[k]).scope == scope_id(i) && all[k].node == node;
        assert(defines(g, all[k], scope_id(i), node));
    }
    assert forall|k: int| 0 <= k < all.len() implies {
        let s = #[trigger] all[k];
        &&& defined_in(g, s.scope.index as int, s.node)
        &&& s.scope.generation == 1
        &&& defines(g, s, s.scope, s.node)
    } by {
        let s = all[k];
        assert(defined_by(g, scopes, s.scope.index as int, s.node));
    }
}

/// Scope `i` is recorded with the file, the span and the kind that it has, and as seen in
/// this build.
pub proof fn law_scopes_are_recorded_as_they_are(g: GraphView, i: int)
    requires
        g.nodes.len() <= 0x1_0000_0000,
        0 <= i < binding_of(g).scopes.len(),
    ensures
        binding_of(g).provenance.len() == binding_of(g).scopes.len(),
        ({
            let s = binding_of(g).scopes[i];
            let p = binding_of(g).provenance[i];
            &&& p.scope == (ScopeId { index: i as u32, generation: 1 })
            &&& p.first_seen_epoch == g.fact_epoch
            &&& p.last_seen_epoch == g.fact_epoch
            &&& p.kind == s.kind
            &&& p.byte_span == s.byte_span
            &&& s.file.0 < g.files.files.len() ==> {
                &&& p.path == g.files.files[s.file.0 as int].path
                &&& match g.files.files[s.file.0 as int].content_hash {
                    Some(h) => p.content_hash == h@,
                    None => p.content_hash == Seq::new(32, |k: int| 0u8),
                }
            }
        }),
{
}

/// All scopes, names and definitions are counted, and so are the import nodes that give a
/// name without a scope around it, each once.
pub proof fn law_what_is_derived_is_counted(g: GraphView)
    requires
        binding_of(g).scopes.len() <= u64::MAX,
        binding_of(g).aliases.len() <= u64::MAX,
        binding_of(g).shadows.len() <= u64::MAX,
    ensures
        ({
            let b = binding_of(g);
            let n = binding_counts(g);
            &&& n.scopes == b.scopes.len()
            &&& n.aliases == b.aliases.len()
            &&& n.shadows == b.shadows.len()
            &&& n.aliases_with_invalid_scope == b.aliases.filter(
                |a: AliasEntry| a.scope == ScopeId { index: u32::MAX, generation: 0 },
            ).map_values(|a: AliasEntry| a.import_node).to_set().len()
        }),
{
    let aliases = binding_of(g).aliases;
    let p = |a: AliasEntry| a.scope == ScopeId { index: u32::MAX, generation: 0 };
    let node = |a: AliasEntry| a.import_node;
    let n = aliases.len() as int;
    lemma_unscoped(aliases, n);
    let kept = aliases.filter(p);
    let nodes = kept.map_values(node);
    let found = unscoped(aliases, n);
    assert forall|x: NodeId| #[trigger] found.contains(x) <==> nodes.to_set().contains(x) by {
        if found.contains(x) {
            let i = choose|i: int|
                0 <= i < n && (#[trigger] aliases[i]).import_node == x && aliases[i].scope
                    == ScopeId::invalid();
            aliases.lemma_filter_contains(p, i);
            let k = kept.index_of(aliases[i]);
            assert(nodes[k] == x);
        }
        if nodes.to_set().contains(x) {
            let k = nodes.index_of(x);
            assert(kept.contains(kept[k]));
            aliases.lemma_filter_contains_rev(p, kept[k]);
            aliases.lemma_filter_pred(p, k);
            let i = aliases.index_of(kept[k]);
            assert(aliases[i].import_node == x);
        }
    }
    assert(found =~= nodes.to_set());
}

} // verus!
