//! What an embedded type contributes, and which type a name stands for.

use vstd::prelude::*;

use crate::arena::{live, live_kind, Slot};
use crate::edges::EdgeView;
use crate::graph::GraphView;
use crate::ids::{NodeId, StringId};
use crate::indices::{nodes_of_qn, IndexRow};
use crate::kinds::{EdgeKind, NodeKind, TypeOfContext};
use crate::pass_go_method_set::function_type_laws::lemma_out_of;
use crate::pass_go_method_set::lookup::{
    best_type, embedded_interfaces, flattened_methods, has_name, methods_of, methods_of_all, named,
    names_underlying, one_level_more, out_edges, type_named, type_rank, underlying_from, MethodRef,
};
use crate::pass_go_method_set::method_set_laws::{
    declares_method, embedding_path, embeds_interface, embeds_next, lemma_embeds, lemma_methods,
    lemma_new_names,
};
use crate::pass_go_method_set::promotion::{
    companion, contributed_methods, interface_from, methods_name,
};

verus! {

/// What goes before what, where a name stands for several types: structs, then interfaces,
/// then other named types; anything else is no type.
pub open spec fn weight(kind: Option<NodeKind>) -> int {
    if kind == Some(NodeKind::Struct) {
        3
    } else if kind == Some(NodeKind::Interface) {
        2
    } else if kind == Some(NodeKind::Type) {
        1
    } else {
        0
    }
}

/// Row `k` gives the type that `qn` stands for: none of its name weighs more, and none
/// before it as much.
pub open spec fn gives_type(g: GraphView, qn: StringId, k: int) -> bool {
    &&& 0 <= k < g.indices.len()
    &&& g.indices[k].qualified_name == Some(qn)
    &&& weight(live_kind(g.nodes, g.indices[k].node)) > 0
    &&& forall|j: int|
        0 <= j < g.indices.len() && (#[trigger] g.indices[j]).qualified_name == Some(qn) ==> weight(
            live_kind(g.nodes, g.indices[j].node),
        ) <= weight(live_kind(g.nodes, g.indices[k].node)) && (j < k ==> weight(
            live_kind(g.nodes, g.indices[j].node),
        ) < weight(live_kind(g.nodes, g.indices[k].node)))
}

spec fn gives_among(g: GraphView, qn: StringId, k: int, n: int) -> bool {
    &&& 0 <= k < n
    &&& g.indices[k].qualified_name == Some(qn)
    &&& weight(live_kind(g.nodes, g.indices[k].node)) > 0
    &&& forall|j: int|
        0 <= j < n && (#[trigger] g.indices[j]).qualified_name == Some(qn) ==> weight(
            live_kind(g.nodes, g.indices[j].node),
        ) <= weight(live_kind(g.nodes, g.indices[k].node)) && (j < k ==> weight(
            live_kind(g.nodes, g.indices[j].node),
        ) < weight(live_kind(g.nodes, g.indices[k].node)))
}

proof fn lemma_best_push(slots: Seq<Slot>, nodes: Seq<NodeId>, x: NodeId, n: int)
    requires
        0 <= n <= nodes.len(),
    ensures
        best_type(slots, nodes.push(x), n) == best_type(slots, nodes, n),
    decreases n,
{
    if n > 0 {
        lemma_best_push(slots, nodes, x, n - 1);
        assert(nodes.push(x)[n - 1] == nodes[n - 1]);
    }
}

proof fn lemma_best(g: GraphView, qn: StringId, n: int) -> (k: int)
    requires
        0 <= n <= g.indices.len(),
    ensures
        ({
            let nodes = nodes_of_qn(g.indices, qn, n);
            match best_type(g.nodes, nodes, nodes.len() as int) {
                Some(b) => gives_among(g, qn, k, n) && g.indices[k].node == b,
                None => forall|j: int|
                    0 <= j < n && (#[trigger] g.indices[j]).qualified_name == Some(qn) ==> weight(
                        live_kind(g.nodes, g.indices[j].node),
                    ) == 0,
            }
        }),
    decreases n,
{
    if n <= 0 {
        -1
    } else {
        let k = lemma_best(g, qn, n - 1);
        let before = nodes_of_qn(g.indices, qn, n - 1);
        let x = g.indices[n - 1].node;
        let old = best_type(g.nodes, before, before.len() as int);
        assert(type_rank(live_kind(g.nodes, x)) == weight(live_kind(g.nodes, x)));
        if let Some(b) = old {
            assert(type_rank(live_kind(g.nodes, b)) == weight(live_kind(g.nodes, b)));
        }
        if g.indices[n - 1].qualified_name == Some(qn) {
            lemma_best_push(g.nodes, before, x, before.len() as int);
            assert(before.push(x)[before.len() as int] == x);
            let best = match old {
                Some(b) => weight(live_kind(g.nodes, b)),
                None => 0,
            };
            if weight(live_kind(g.nodes, x)) > best {
                n - 1
            } else {
                k
            }
        } else {
            k
        }
    }
}

/// A row gives the type of a name that some row has as a type.
pub(crate) proof fn lemma_some_type(g: GraphView, qn: StringId) -> (k: int)
    requires
        exists|j: int|
            0 <= j < g.indices.len() && (#[trigger] g.indices[j]).qualified_name == Some(qn)
                && weight(live_kind(g.nodes, g.indices[j].node)) > 0,
    ensures
        gives_type(g, qn, k),
{
    lemma_best(g, qn, g.indices.len() as int)
}

/// A name stands for the type that its rows give: a struct before an interface, that before
/// any other named type, and the first of these.
pub proof fn law_name_stands_for_the_weightiest_type(g: GraphView, qn: StringId, b: NodeId)
    ensures
        type_named(g, qn) == Some(b) <==> exists|k: int|
            gives_type(g, qn, k) && (#[trigger] g.indices[k]).node == b,
{
    let n = g.indices.len() as int;
    let m = lemma_best(g, qn, n);
    if type_named(g, qn) == Some(b) {
        assert(gives_type(g, qn, m) && g.indices[m].node == b);
    }
    if exists|k: int| gives_type(g, qn, k) && (#[trigger] g.indices[k]).node == b {
        let k = choose|k: int| gives_type(g, qn, k) && (#[trigger] g.indices[k]).node == b;
        assert(g.indices[k].qualified_name == Some(qn));
        assert(type_named(g, qn) is Some);
        assert(g.indices[m].qualified_name == Some(qn));
        assert(k == m);
    }
}

/// All on the path but the last are named.
pub open spec fn named_on_the_way(g: GraphView, path: Seq<NodeId>) -> bool {
    forall|k: int| 0 <= k < path.len() - 1 ==> g.qn(#[trigger] path[k]) is Some
}

proof fn lemma_one_level(g: GraphView, from: Seq<NodeId>, n: int, b: NodeId)
    requires
        0 <= n <= from.len(),
    ensures
        one_level_more(g, from, true, n).contains(b) <==> from.contains(b) || exists|k: int|
            0 <= k < n && g.qn(from[k]) is Some && #[trigger] embeds_interface(g, from[k], b),
    decreases n,
{
    if n > 0 {
        lemma_one_level(g, from, n - 1, b);
        lemma_embeds(g, one_level_more(g, from, true, n - 1), from[n - 1], b);
        if exists|k: int|
            0 <= k < n - 1 && g.qn(from[k]) is Some && #[trigger] embeds_interface(g, from[k], b) {
            let k = choose|k: int|
                0 <= k < n - 1 && g.qn(from[k]) is Some && #[trigger] embeds_interface(
                    g,
                    from[k],
                    b,
                );
            assert(embeds_interface(g, from[k], b));
        }
    }
}

proof fn lemma_embedded(g: GraphView, start: NodeId, depth: int, b: NodeId)
    requires
        0 <= depth,
    ensures
        embedded_interfaces(g, start, true, depth).contains(b) <==> exists|path: Seq<NodeId>|
            #[trigger] embedding_path(g, start, b, path) && path.len() <= depth + 1
                && named_on_the_way(g, path),
    decreases depth,
{
    if depth == 0 {
        let all = embedded_interfaces(g, start, true, depth);
        assert(all =~= seq![start]);
        if b == start {
            assert(all[0] == b);
            assert(embedding_path(g, start, b, seq![start]));
        }
        if all.contains(b) {
            assert(b == start);
        }
    } else {
        let near = embedded_interfaces(g, start, true, depth - 1);
        lemma_embedded(g, start, depth - 1, b);
        lemma_one_level(g, near, near.len() as int, b);
        if embedded_interfaces(g, start, true, depth).contains(b) && !near.contains(b) {
            let k = choose|k: int|
                0 <= k < near.len() && g.qn(near[k]) is Some && #[trigger] embeds_interface(
                    g,
                    near[k],
                    b,
                );
            assert(near.contains(near[k]));
            lemma_embedded(g, start, depth - 1, near[k]);
            let path = choose|path: Seq<NodeId>| #[trigger]
                embedding_path(g, start, near[k], path) && path.len() <= depth && named_on_the_way(
                    g,
                    path,
                );
            let longer = path.push(b);
            assert forall|i: int| 0 <= i < longer.len() - 1 implies #[trigger] embeds_next(
                g,
                longer,
                i,
            ) by {
                if i < path.len() - 1 {
                    assert(embeds_next(g, path, i));
                }
            }
            assert forall|i: int| 0 <= i < longer.len() - 1 implies g.qn(
                #[trigger] longer[i],
            ) is Some by {
                if i < path.len() - 1 {
                    assert(g.qn(path[i]) is Some);
                }
            }
            assert(embedding_path(g, start, b, longer));
        }
        if exists|path: Seq<NodeId>| #[trigger]
            embedding_path(g, start, b, path) && path.len() <= depth + 1 && named_on_the_way(
                g,
                path,
            ) {
            let path = choose|path: Seq<NodeId>| #[trigger]
                embedding_path(g, start, b, path) && path.len() <= depth + 1 && named_on_the_way(
                    g,
                    path,
                );
            if path.len() <= depth {
                assert(near.contains(b));
            } else {
                let shorter = path.subrange(0, path.len() - 1);
                let last = shorter[shorter.len() - 1];
                assert forall|i: int| 0 <= i < shorter.len() - 1 implies #[trigger] embeds_next(
                    g,
                    shorter,
                    i,
                ) by {
                    assert(embeds_next(g, path, i));
                }
                assert forall|i: int| 0 <= i < shorter.len() - 1 implies g.qn(
                    #[trigger] shorter[i],
                ) is Some by {
                    assert(g.qn(path[i]) is Some);
                }
                assert(embedding_path(g, start, last, shorter));
                lemma_embedded(g, start, depth - 1, last);
                let k = near.index_of(last);
                assert(embeds_next(g, path, path.len() - 2));
                assert(g.qn(path[path.len() - 2]) is Some);
                assert(embeds_interface(g, near[k], b));
            }
        }
    }
}

/// Interface `t` hands on method `node`, named `name`: it is a method of `t`, or of an
/// interface that `t` embeds, through named ones, over fewer than sixteen levels.
pub open spec fn hands_on(g: GraphView, t: NodeId, node: NodeId, name: StringId) -> bool {
    exists|i: NodeId, path: Seq<NodeId>|
        #![trigger embedding_path(g, t, i, path), declares_method(g, i, node, name)]
        embedding_path(g, t, i, path) && path.len() <= 16 && named_on_the_way(g, path)
            && declares_method(g, i, node, name)
}

spec fn declared_by_some(g: GraphView, types: Seq<NodeId>, n: int, m: MethodRef) -> bool {
    exists|k: int| 0 <= k < n && #[trigger] declares_method(g, types[k], m.node, m.name)
}

proof fn lemma_methods_of_all(g: GraphView, types: Seq<NodeId>, n: int)
    requires
        0 <= n <= types.len(),
    ensures
        ({
            let all = methods_of_all(g, types, n);
            &&& forall|m: MethodRef| #[trigger]
                all.contains(m) ==> declared_by_some(g, types, n, m)
            &&& forall|m: MethodRef| #[trigger]
                declared_by_some(g, types, n, m) ==> has_name(all, m.name)
        }),
    decreases n,
{
    let all = methods_of_all(g, types, n);
    if n > 0 {
        lemma_methods_of_all(g, types, n - 1);
        let before = methods_of_all(g, types, n - 1);
        let t = types[n - 1];
        let own = if g.qn(t) is Some {
            methods_of(g, g.qn(t)->0)
        } else {
            Seq::empty()
        };
        lemma_new_names(before, own, own.len() as int);
        assert forall|m: MethodRef| #[trigger] all.contains(m) implies declared_by_some(
            g,
            types,
            n,
            m,
        ) by {
            if before.contains(m) {
                let k = choose|k: int|
                    0 <= k < n - 1 && #[trigger] declares_method(g, types[k], m.node, m.name);
                assert(declares_method(g, types[k], m.node, m.name));
            } else {
                assert(own.contains(m));
                lemma_methods(g, t, m);
                assert(declares_method(g, types[n - 1], m.node, m.name));
            }
        }
        assert forall|m: MethodRef| #[trigger] declared_by_some(g, types, n, m) implies has_name(
            all,
            m.name,
        ) by {
            let k = choose|k: int|
                0 <= k < n && #[trigger] declares_method(g, types[k], m.node, m.name);
            if k < n - 1 {
                assert(declared_by_some(g, types, n - 1, m));
                assert(has_name(before, m.name));
                let i = choose|i: int| 0 <= i < before.len() && (#[trigger] before[i]).name == m.name;
                assert(before.contains(before[i]));
                if all != before {
                    assert(has_name(all, before[i].name));
                }
            } else {
                lemma_methods(g, t, m);
                let i = own.index_of(m);
                assert(own[i].name == m.name);
            }
        }
    } else {
        assert(all =~= Seq::empty());
    }
}

proof fn lemma_flattened(g: GraphView, t: NodeId)
    ensures
        forall|m: MethodRef| #[trigger]
            flattened_methods(g, t).contains(m) ==> hands_on(g, t, m.node, m.name),
        forall|node: NodeId, name: StringId| #[trigger]
            hands_on(g, t, node, name) ==> has_name(flattened_methods(g, t), name),
{
    let types = embedded_interfaces(g, t, true, 15);
    let n = types.len() as int;
    let all = flattened_methods(g, t);
    lemma_methods_of_all(g, types, n);
    assert forall|m: MethodRef| #[trigger] all.contains(m) implies hands_on(
        g,
        t,
        m.node,
        m.name,
    ) by {
        let k = choose|k: int| 0 <= k < n && #[trigger] declares_method(g, types[k], m.node, m.name);
        assert(declared_by_some(g, types, n, m));
        assert(types.contains(types[k]));
        lemma_embedded(g, t, 15, types[k]);
        let path = choose|path: Seq<NodeId>| #[trigger]
            embedding_path(g, t, types[k], path) && path.len() <= 16 && named_on_the_way(g, path);
        assert(embedding_path(g, t, types[k], path) && declares_method(
            g,
            types[k],
            m.node,
            m.name,
        ));
    }
    assert forall|node: NodeId, name: StringId| #[trigger] hands_on(g, t, node, name) implies
        has_name(all, name) by {
        let (i, path) = choose|i: NodeId, path: Seq<NodeId>|
            #![trigger embedding_path(g, t, i, path), declares_method(g, i, node, name)]
            embedding_path(g, t, i, path) && path.len() <= 16 && named_on_the_way(g, path)
                && declares_method(g, i, node, name);
        lemma_embedded(g, t, 15, i);
        let k = types.index_of(i);
        let m = MethodRef { name, node };
        assert(declares_method(g, types[k], m.node, m.name));
        assert(declared_by_some(g, types, n, m));
    }
}

/// An embedded interface contributes what it hands on, one method for each name.
pub proof fn law_embedded_interface_contributes_what_it_hands_on(g: GraphView, inner: NodeId)
    requires
        g.qn(inner) is Some,
        live(g.nodes, inner) is Some,
        live(g.nodes, inner)->0.kind == NodeKind::Interface,
    ensures
        forall|m: MethodRef| #[trigger]
            contributed_methods(g, inner, g.qn(inner)->0).contains(m) ==> hands_on(
                g,
                inner,
                m.node,
                m.name,
            ),
        forall|node: NodeId, name: StringId| #[trigger]
            hands_on(g, inner, node, name) ==> has_name(
                contributed_methods(g, inner, g.qn(inner)->0),
                name,
            ),
{
    lemma_flattened(g, inner);
}

/// Nothing that is named `name` is an interface.
pub open spec fn no_interface_named(g: GraphView, name: Seq<char>) -> bool {
    forall|k: int|
        0 <= k < g.indices.len() && (#[trigger] g.indices[k]).qualified_name is Some
            && g.strings.resolve(g.indices[k].qualified_name->0) == Some(name) ==> live_kind(
            g.nodes,
            g.indices[k].node,
        ) != Some(NodeKind::Interface)
}

proof fn lemma_interface_from(g: GraphView, nodes: Seq<NodeId>, i: int)
    requires
        0 <= i,
        forall|k: int|
            i <= k < nodes.len() ==> live_kind(g.nodes, #[trigger] nodes[k]) != Some(
                NodeKind::Interface,
            ),
    ensures
        interface_from(g, nodes, i) is None,
    decreases nodes.len() - i,
{
    if i < nodes.len() {
        assert(live_kind(g.nodes, nodes[i]) != Some(NodeKind::Interface));
        lemma_interface_from(g, nodes, i + 1);
    }
}

proof fn lemma_rows_of(rows: Seq<IndexRow>, qn: StringId, n: int, k: int) -> (j: int)
    requires
        0 <= n <= rows.len(),
        0 <= k < nodes_of_qn(rows, qn, n).len(),
    ensures
        0 <= j < n,
        rows[j].qualified_name == Some(qn),
        rows[j].node == nodes_of_qn(rows, qn, n)[k],
    decreases n,
{
    if k < nodes_of_qn(rows, qn, n - 1).len() {
        lemma_rows_of(rows, qn, n - 1, k)
    } else {
        n - 1
    }
}

proof fn lemma_no_companion(g: GraphView, inner: NodeId, name: Seq<char>)
    requires
        g.strings.wf(),
        live_kind(g.nodes, inner) != Some(NodeKind::Interface),
        no_interface_named(g, name),
    ensures
        companion(g, inner, name) is None,
{
    if let Some(qn) = g.strings.get(name) {
        crate::strings::lemma_slot_from(g.strings.text, name, 0);
        let nodes = named(g, qn);
        assert forall|k: int| 0 <= k < nodes.len() implies live_kind(g.nodes, #[trigger] nodes[k])
            != Some(NodeKind::Interface) by {
            let j = lemma_rows_of(g.indices, qn, g.indices.len() as int, k);
            assert(g.indices[j].qualified_name == Some(qn));
        }
        lemma_interface_from(g, nodes, 0);
    }
}

/// An embedded type that is no alias, and that no interface shares its name with,
/// contributes the methods that are declared for it.
pub proof fn law_embedded_type_contributes_its_methods(g: GraphView, inner: NodeId, m: MethodRef)
    requires
        g.strings.wf(),
        g.qn(inner) is Some,
        live_kind(g.nodes, inner) != Some(NodeKind::Interface),
        no_interface_named(g, g.qn(inner)->0),
        live_kind(g.nodes, inner) == Some(NodeKind::Type) ==> forall|k: int|
            0 <= k < g.edges.edges.len() && (#[trigger] g.edges.edges[k]).source == inner
                ==> !is_underlying(g.edges.edges[k].kind),
    ensures
        contributed_methods(g, inner, g.qn(inner)->0).contains(m) <==> declares_method(
            g,
            inner,
            m.node,
            m.name,
        ),
{
    let own = g.qn(inner)->0;
    let out = out_edges(g, inner);
    if live_kind(g.nodes, inner) == Some(NodeKind::Type) {
        assert forall|k: int| 0 <= k < out.len() implies !names_underlying(
            (#[trigger] out[k]).kind,
        ) by {
            assert(out.contains(out[k]));
            lemma_out_of(g.edges.edges, inner, g.edges.edges.len() as int, out[k]);
            let j = choose|j: int|
                0 <= j < g.edges.edges.len() && #[trigger] g.edges.edges[j] == out[k];
            assert(!is_underlying(g.edges.edges[j].kind));
        }
        lemma_no_underlying(g, out, own, 0);
    }
    lemma_no_companion(g, inner, own);
    lemma_methods(g, inner, m);
}

/// The edge leads from an alias to the type that it stands for.
pub open spec fn is_underlying(kind: EdgeKind) -> bool {
    kind matches EdgeKind::TypeOf { context: Some(c), .. } && c == TypeOfContext::TypeParameter
}

proof fn lemma_no_underlying(g: GraphView, edges: Seq<EdgeView>, own: Seq<char>, i: int)
    requires
        0 <= i,
        forall|k: int| 0 <= k < edges.len() ==> !names_underlying((#[trigger] edges[k]).kind),
    ensures
        underlying_from(g, edges, own, i) is None,
    decreases edges.len() - i,
{
    if i < edges.len() {
        assert(!names_underlying(edges[i].kind));
        lemma_no_underlying(g, edges, own, i + 1);
    }
}

/// An embedded alias contributes the methods that are declared for the type that it stands
/// for: the one to which the only edge of that sort leads.
pub proof fn law_embedded_alias_contributes_what_it_stands_for(
    g: GraphView,
    inner: NodeId,
    at: int,
    m: MethodRef,
)
    requires
        g.strings.wf(),
        g.qn(inner) is Some,
        live_kind(g.nodes, inner) == Some(NodeKind::Type),
        0 <= at < g.edges.edges.len(),
        g.edges.edges[at].source == inner,
        is_underlying(g.edges.edges[at].kind),
        g.qn(g.edges.edges[at].target) is Some,
        g.qn(g.edges.edges[at].target)->0 != g.qn(inner)->0,
        forall|k: int|
            0 <= k < g.edges.edges.len() && k != at && (#[trigger] g.edges.edges[k]).source == inner
                ==> !is_underlying(g.edges.edges[k].kind),
        no_interface_named(g, g.qn(g.edges.edges[at].target)->0),
    ensures
        contributed_methods(g, inner, g.qn(inner)->0).contains(m) <==> declares_method(
            g,
            g.edges.edges[at].target,
            m.node,
            m.name,
        ),
{
    let own = g.qn(inner)->0;
    let out = out_edges(g, inner);
    let e = g.edges.edges[at];
    lemma_out_of(g.edges.edges, inner, g.edges.edges.len() as int, e);
    let p = out.index_of(e);
    assert forall|k: int| 0 <= k < out.len() && names_underlying(
        (#[trigger] out[k]).kind,
    ) implies out[k].target == e.target by {
        assert(out.contains(out[k]));
        lemma_out_of(g.edges.edges, inner, g.edges.edges.len() as int, out[k]);
        let j = choose|j: int|
            0 <= j < g.edges.edges.len() && #[trigger] g.edges.edges[j] == out[k];
        if j != at {
            assert(!is_underlying(g.edges.edges[j].kind));
        }
    }
    lemma_underlying(g, out, own, e.target, 0, p);
    let name = g.qn(e.target)->0;
    assert(methods_name(g, inner, own) == name);
    lemma_no_companion(g, inner, name);
    lemma_methods(g, e.target, m);
}

proof fn lemma_underlying(
    g: GraphView,
    edges: Seq<EdgeView>,
    own: Seq<char>,
    target: NodeId,
    i: int,
    p: int,
)
    requires
        0 <= i <= p < edges.len(),
        names_underlying(edges[p].kind),
        g.qn(target) is Some,
        g.qn(target)->0 != own,
        forall|k: int|
            0 <= k < edges.len() && names_underlying((#[trigger] edges[k]).kind) ==> edges[k].target
                == target,
    ensures
        underlying_from(g, edges, own, i) == Some(g.qn(target)->0),
    decreases p - i,
{
    if names_underlying(edges[i].kind) {
        assert(edges[i].target == target);
    } else {
        lemma_underlying(g, edges, own, target, i + 1, p);
    }
}

} // verus!
