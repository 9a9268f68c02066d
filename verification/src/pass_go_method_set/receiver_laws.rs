//! Which type a receiver expression has.

use vstd::prelude::*;

use crate::arena::{live, live_kind, Slot};
use crate::edges::{edges_out_of, EdgeView};
use crate::graph::GraphView;
use crate::hints::ReceiverHintView;
use crate::ids::{NodeId, StringId};
use crate::indices::{nodes_of_qn, IndexRow};
use crate::kinds::{EdgeKind, NodeKind, TypeOfContext};
use crate::pass_go_method_set::contribution_laws::{
    gives_type, law_name_stands_for_the_weightiest_type, lemma_some_type, weight,
};
use crate::pass_go_method_set::lookup::{
    all_live, callable_from, declared_from, declared_type, named, out_edges, preferred_type,
    return_type_from, type_named, type_rank,
};
use crate::pass_go_method_set::shadow::{receiver_type, ResolvedReceiver};

verus! {

/// The edge says of which type a variable, a parameter or a field is.
pub open spec fn says_type(kind: EdgeKind) -> bool {
    kind is TypeOf && (kind->TypeOf_context == Some(TypeOfContext::Variable)
        || kind->TypeOf_context == Some(TypeOfContext::Parameter) || kind->TypeOf_context == Some(
        TypeOfContext::Field,
    ))
}

/// The edge says what comes back first, or alone.
pub open spec fn says_result(kind: EdgeKind) -> bool {
    kind is TypeOf && kind->TypeOf_context == Some(TypeOfContext::Return) && (
    kind->TypeOf_index is None || kind->TypeOf_index == Some(0u16))
}

/// Edge `k` is the first that says of which type `node` is.
pub open spec fn says_first(g: GraphView, node: NodeId, k: int) -> bool {
    &&& 0 <= k < g.edges.edges.len()
    &&& g.edges.edges[k].source == node
    &&& says_type(g.edges.edges[k].kind)
    &&& forall|j: int|
        0 <= j < k && (#[trigger] g.edges.edges[j]).source == node ==> !says_type(
            g.edges.edges[j].kind,
        )
}

/// `target` is what the first edge that says of which type `node` is leads to.
pub open spec fn is_said(g: GraphView, node: NodeId, target: NodeId) -> bool {
    exists|k: int| says_first(g, node, k) && (#[trigger] g.edges.edges[k]).target == target
}

/// `t` is what the name of the type node `target` stands for, or that node itself, if it has
/// no name or its name stands for nothing.
pub open spec fn goes_by_name(g: GraphView, target: NodeId, t: NodeId) -> bool {
    match live(g.nodes, target)->0.qualified_name {
        Some(qn) => {
            ||| exists|k: int| gives_type(g, qn, k) && (#[trigger] g.indices[k]).node == t
            ||| t == target && forall|k: int|
                0 <= k < g.indices.len() && (#[trigger] g.indices[k]).qualified_name == Some(qn)
                    ==> weight(live_kind(g.nodes, g.indices[k].node)) == 0
        },
        None => t == target,
    }
}

/// From the first of `path` on, each is what is said of the one before it; none in between
/// is a type, and the last one is.
pub open spec fn is_said_path(g: GraphView, path: Seq<NodeId>) -> bool {
    &&& path.len() >= 2
    &&& forall|k: int| 0 <= k < path.len() - 1 ==> is_said_next(g, path, k)
    &&& forall|k: int|
        0 < k < path.len() - 1 ==> live(g.nodes, #[trigger] path[k]) is Some && weight(
            live_kind(g.nodes, path[k]),
        ) == 0
    &&& weight(live_kind(g.nodes, path.last())) > 0
}

/// What comes after number `k` of `path` is said of it.
pub open spec fn is_said_next(g: GraphView, path: Seq<NodeId>, k: int) -> bool {
    is_said(g, path[k], path[k + 1])
}

proof fn lemma_declared_push(s: Seq<EdgeView>, e: EdgeView, i: int)
    requires
        0 <= i <= s.len(),
    ensures
        declared_from(s.push(e), i) == (if declared_from(s, i) is Some {
            declared_from(s, i)
        } else if says_type(e.kind) {
            Some(e.target)
        } else {
            None
        }),
    decreases s.len() - i,
{
    if i < s.len() {
        assert(s.push(e)[i] == s[i]);
        lemma_declared_push(s, e, i + 1);
    } else {
        assert(s.push(e)[i] == e);
        assert(declared_from(s.push(e), i + 1) is None);
    }
}

proof fn lemma_declared(g: GraphView, node: NodeId, n: int) -> (k: int)
    requires
        0 <= n <= g.edges.edges.len(),
    ensures
        match declared_from(edges_out_of(g.edges.edges, node, n), 0) {
            Some(t) => k < n && says_first(g, node, k) && g.edges.edges[k].target == t,
            None => forall|j: int|
                0 <= j < n && (#[trigger] g.edges.edges[j]).source == node ==> !says_type(
                    g.edges.edges[j].kind,
                ),
        },
    decreases n,
{
    if n <= 0 {
        -1
    } else {
        let k = lemma_declared(g, node, n - 1);
        let before = edges_out_of(g.edges.edges, node, n - 1);
        let e = g.edges.edges[n - 1];
        if e.source == node {
            lemma_declared_push(before, e, 0);
            if declared_from(before, 0) is None && says_type(e.kind) {
                n - 1
            } else {
                k
            }
        } else {
            k
        }
    }
}

proof fn lemma_said(g: GraphView, node: NodeId, target: NodeId)
    ensures
        declared_from(out_edges(g, node), 0) == Some(target) <==> is_said(g, node, target),
{
    let k = lemma_declared(g, node, g.edges.edges.len() as int);
    if declared_from(out_edges(g, node), 0) == Some(target) {
        assert(g.edges.edges[k].target == target);
    }
    if is_said(g, node, target) {
        let j = choose|j: int|
            says_first(g, node, j) && (#[trigger] g.edges.edges[j]).target == target;
        assert(g.edges.edges[j].source == node);
        assert(declared_from(out_edges(g, node), 0) is Some);
        assert(g.edges.edges[k].source == node);
        assert(k == j);
    }
}

proof fn lemma_rank(kind: Option<NodeKind>)
    ensures
        type_rank(kind) == weight(kind),
{
}

proof fn lemma_preferred(g: GraphView, target: NodeId, t: NodeId)
    requires
        live(g.nodes, target) is Some,
    ensures
        preferred_type(g, target) == t <==> goes_by_name(g, target, t),
{
    if let Some(qn) = live(g.nodes, target)->0.qualified_name {
        let best = type_named(g, qn);
        law_name_stands_for_the_weightiest_type(g, qn, t);
        if let Some(b) = best {
            law_name_stands_for_the_weightiest_type(g, qn, b);
            let k = choose|k: int| gives_type(g, qn, k) && (#[trigger] g.indices[k]).node == b;
            assert(g.indices[k].qualified_name == Some(qn));
        } else {
            if exists|k: int|
                0 <= k < g.indices.len() && (#[trigger] g.indices[k]).qualified_name == Some(qn)
                    && weight(live_kind(g.nodes, g.indices[k].node)) > 0 {
                let k = lemma_some_type(g, qn);
                law_name_stands_for_the_weightiest_type(g, qn, g.indices[k].node);
            }
        }
    }
}

proof fn lemma_path(g: GraphView, node: NodeId, hops: int, t: NodeId) -> (path: Seq<NodeId>)
    requires
        declared_type(g, node, hops) == Some(t),
    ensures
        path.len() <= hops + 1,
        path[0] == node,
        is_said_path(g, path),
        goes_by_name(g, path.last(), t),
    decreases hops,
{
    let target = declared_from(out_edges(g, node), 0)->0;
    lemma_said(g, node, target);
    lemma_rank(live_kind(g.nodes, target));
    if weight(live_kind(g.nodes, target)) > 0 {
        lemma_preferred(g, target, t);
        let path = seq![node, target];
        assert(path[1] == target);
        assert(is_said_next(g, path, 0));
        path
    } else {
        let rest = lemma_path(g, target, hops - 1, t);
        let path = seq![node] + rest;
        assert(path[1] == target);
        assert forall|k: int| 0 <= k < path.len() - 1 implies is_said_next(g, path, k) by {
            if k > 0 {
                assert(path[k] == rest[k - 1] && path[k + 1] == rest[k]);
                assert(is_said_next(g, rest, k - 1));
            } else {
                assert(path[1] == target);
            }
        }
        assert forall|k: int| 0 < k < path.len() - 1 implies live(
            g.nodes,
            #[trigger] path[k],
        ) is Some && weight(live_kind(g.nodes, path[k])) == 0 by {
            assert(path[k] == rest[k - 1]);
        }
        assert(path.last() == rest.last());
        path
    }
}

proof fn lemma_path_back(g: GraphView, path: Seq<NodeId>, hops: int, t: NodeId)
    requires
        path.len() <= hops + 1,
        is_said_path(g, path),
        goes_by_name(g, path.last(), t),
    ensures
        declared_type(g, path[0], hops) == Some(t),
    decreases hops,
{
    assert(is_said_next(g, path, 0));
    let target = path[1];
    lemma_said(g, path[0], target);
    lemma_rank(live_kind(g.nodes, target));
    if path.len() == 2 {
        assert(path.last() == target);
        lemma_preferred(g, target, t);
    } else {
        assert(live(g.nodes, path[1]) is Some && weight(live_kind(g.nodes, path[1])) == 0);
        let rest = path.drop_first();
        assert forall|k: int| 0 <= k < rest.len() - 1 implies is_said_next(g, rest, k) by {
            assert(is_said_next(g, path, k + 1));
            assert(rest[k] == path[k + 1] && rest[k + 1] == path[k + 1 + 1]);
        }
        assert forall|k: int| 0 < k < rest.len() - 1 implies live(
            g.nodes,
            #[trigger] rest[k],
        ) is Some && weight(live_kind(g.nodes, rest[k])) == 0 by {
            assert(rest[k] == path[k + 1]);
        }
        assert(rest.last() == path.last());
        assert(rest[0] == target);
        lemma_path_back(g, rest, hops - 1, t);
    }
}

/// A receiver that is a local has the type that its declaration leads to in at most four
/// steps, by the name of that type; it counts as no pointer.
pub proof fn law_local_receiver_has_its_declared_type(
    g: GraphView,
    local: NodeId,
    r: ResolvedReceiver,
)
    ensures
        receiver_type(g, ReceiverHintView::LocalIdent { binding_local: local }) == Some(r) <==> {
            &&& !r.pointer
            &&& exists|path: Seq<NodeId>| #[trigger]
                is_said_path(g, path) && path.len() <= 5 && path[0] == local && goes_by_name(
                    g,
                    path.last(),
                    r.node,
                )
        },
{
    let kind = ReceiverHintView::LocalIdent { binding_local: local };
    if receiver_type(g, kind) == Some(r) {
        let path = lemma_path(g, local, 4, r.node);
        assert(is_said_path(g, path));
    }
    if !r.pointer && exists|path: Seq<NodeId>| #[trigger]
        is_said_path(g, path) && path.len() <= 5 && path[0] == local && goes_by_name(
            g,
            path.last(),
            r.node,
        ) {
        let path = choose|path: Seq<NodeId>| #[trigger]
            is_said_path(g, path) && path.len() <= 5 && path[0] == local && goes_by_name(
                g,
                path.last(),
                r.node,
            );
        lemma_path_back(g, path, 4, r.node);
    }
}

/// One of the first `n` rows has `node` under `qn`.
spec fn has_row(rows: Seq<IndexRow>, qn: StringId, n: int, node: NodeId) -> bool {
    exists|k: int|
        0 <= k < n && (#[trigger] rows[k]).qualified_name == Some(qn) && rows[k].node == node
}

proof fn lemma_named(rows: Seq<IndexRow>, qn: StringId, n: int)
    requires
        0 <= n <= rows.len(),
    ensures
        forall|k: int|
            0 <= k < n && (#[trigger] rows[k]).qualified_name == Some(qn) ==> nodes_of_qn(
                rows,
                qn,
                n,
            ).contains(rows[k].node),
        forall|i: int|
            0 <= i < nodes_of_qn(rows, qn, n).len() ==> has_row(
                rows,
                qn,
                n,
                #[trigger] nodes_of_qn(rows, qn, n)[i],
            ),
    decreases n,
{
    if n > 0 {
        lemma_named(rows, qn, n - 1);
        let before = nodes_of_qn(rows, qn, n - 1);
        let all = nodes_of_qn(rows, qn, n);
        assert forall|k: int|
            0 <= k < n && (#[trigger] rows[k]).qualified_name == Some(qn) implies all.contains(
            rows[k].node,
        ) by {
            if k < n - 1 {
                let i = before.index_of(rows[k].node);
                assert(all[i] == rows[k].node);
            } else {
                assert(all[before.len() as int] == rows[k].node);
            }
        }
        assert forall|i: int| 0 <= i < all.len() implies has_row(rows, qn, n, #[trigger] all[i]) by {
            if i < before.len() {
                assert(before[i] == all[i]);
                assert(has_row(rows, qn, n - 1, before[i]));
            } else {
                assert(rows[n - 1].node == all[i]);
            }
        }
    }
}

/// A receiver that is written with its type has the type that the text stands for, provided
/// that all that goes by the text is live; it counts as a pointer if it is written as one.
pub proof fn law_written_receiver_has_its_type(
    g: GraphView,
    text: Seq<char>,
    pointer: bool,
    r: ResolvedReceiver,
)
    ensures
        ({
            let kind = if pointer {
                ReceiverHintView::PointerPrefixed { type_text: text }
            } else {
                ReceiverHintView::TypePrefixed { type_text: text }
            };
            receiver_type(g, kind) == Some(r) <==> {
                &&& r.pointer == pointer
                &&& g.strings.get(text) is Some
                &&& forall|k: int|
                    0 <= k < g.indices.len() && (#[trigger] g.indices[k]).qualified_name
                        == g.strings.get(text) ==> live(g.nodes, g.indices[k].node) is Some
                &&& exists|k: int|
                    gives_type(g, g.strings.get(text)->0, k) && (#[trigger] g.indices[k]).node
                        == r.node
            }
        }),
{
    if let Some(qn) = g.strings.get(text) {
        law_name_stands_for_the_weightiest_type(g, qn, r.node);
        lemma_named(g.indices, qn, g.indices.len() as int);
        let nodes = named(g, qn);
        let all = forall|k: int|
            0 <= k < g.indices.len() && (#[trigger] g.indices[k]).qualified_name == Some(qn)
                ==> live(g.nodes, g.indices[k].node) is Some;
        if all_live(g.nodes, nodes) {
            assert forall|k: int|
                0 <= k < g.indices.len() && (#[trigger] g.indices[k]).qualified_name == Some(
                    qn,
                ) implies live(g.nodes, g.indices[k].node) is Some by {
                let i = nodes.index_of(g.indices[k].node);
                assert(live(g.nodes, nodes[i]) is Some);
            }
        }
        if all {
            assert forall|i: int| 0 <= i < nodes.len() implies live(
                g.nodes,
                #[trigger] nodes[i],
            ) is Some by {
                assert(has_row(g.indices, qn, g.indices.len() as int, nodes[i]));
            }
        }
    }
}

/// Row `k` is the first under `qn` whose node is gone or can be called.
pub open spec fn settles_callee(g: GraphView, qn: StringId, k: int) -> bool {
    &&& 0 <= k < g.indices.len()
    &&& g.indices[k].qualified_name == Some(qn)
    &&& gone_or_callable(g.nodes, g.indices[k].node)
    &&& forall|j: int|
        0 <= j < k && (#[trigger] g.indices[j]).qualified_name == Some(qn) ==> !gone_or_callable(
            g.nodes,
            g.indices[j].node,
        )
}

/// `node` is not live, or is a function or a method.
pub open spec fn gone_or_callable(slots: Seq<Slot>, node: NodeId) -> bool {
    live(slots, node) is None || live(slots, node)->0.kind == NodeKind::Function || live(
        slots,
        node,
    )->0.kind == NodeKind::Method
}

/// Edge `k` is the first from `callee` that says what comes back and leads to a type, or to
/// a node that is gone.
pub open spec fn settles_result(g: GraphView, callee: NodeId, k: int) -> bool {
    &&& 0 <= k < g.edges.edges.len()
    &&& g.edges.edges[k].source == callee
    &&& settles(g.nodes, g.edges.edges[k])
    &&& forall|j: int|
        0 <= j < k && (#[trigger] g.edges.edges[j]).source == callee ==> !settles(
            g.nodes,
            g.edges.edges[j],
        )
}

/// `e` says what comes back and leads to a type, or to a node that is gone.
pub open spec fn settles(slots: Seq<Slot>, e: EdgeView) -> bool {
    says_result(e.kind) && (live(slots, e.target) is None || weight(live_kind(slots, e.target))
        > 0)
}

/// None of `s` settles it.
spec fn unsettled(slots: Seq<Slot>, s: Seq<EdgeView>, i: int) -> bool {
    forall|j: int| i <= j < s.len() ==> !settles(slots, #[trigger] s[j])
}

proof fn lemma_result_push(slots: Seq<Slot>, s: Seq<EdgeView>, e: EdgeView, i: int)
    requires
        0 <= i <= s.len(),
    ensures
        return_type_from(slots, s.push(e), i) == (if unsettled(slots, s, i) {
            if settles(slots, e) && live(slots, e.target) is Some {
                Some(e.target)
            } else {
                None
            }
        } else {
            return_type_from(slots, s, i)
        }),
        unsettled(slots, s, i) ==> return_type_from(slots, s, i) is None,
    decreases s.len() - i,
{
    if i < s.len() {
        assert(s.push(e)[i] == s[i]);
        lemma_rank(live_kind(slots, s[i].target));
        lemma_result_push(slots, s, e, i + 1);
        if unsettled(slots, s, i + 1) && !settles(slots, s[i]) {
            assert forall|j: int| i <= j < s.len() implies !settles(slots, #[trigger] s[j]) by {}
        }
    } else {
        assert(s.push(e)[i] == e);
        lemma_rank(live_kind(slots, e.target));
        assert(return_type_from(slots, s.push(e), i + 1) is None);
    }
}

proof fn lemma_result(g: GraphView, callee: NodeId, n: int) -> (k: int)
    requires
        0 <= n <= g.edges.edges.len(),
    ensures
        ({
            let s = edges_out_of(g.edges.edges, callee, n);
            if unsettled(g.nodes, s, 0) {
                &&& return_type_from(g.nodes, s, 0) is None
                &&& forall|j: int|
                    0 <= j < n && (#[trigger] g.edges.edges[j]).source == callee ==> !settles(
                        g.nodes,
                        g.edges.edges[j],
                    )
            } else {
                &&& k < n
                &&& settles_result(g, callee, k)
                &&& return_type_from(g.nodes, s, 0) == (if live(
                    g.nodes,
                    g.edges.edges[k].target,
                ) is Some {
                    Some(g.edges.edges[k].target)
                } else {
                    None
                })
            }
        }),
    decreases n,
{
    if n <= 0 {
        -1
    } else {
        let k = lemma_result(g, callee, n - 1);
        let before = edges_out_of(g.edges.edges, callee, n - 1);
        let e = g.edges.edges[n - 1];
        if e.source == callee {
            lemma_result_push(g.nodes, before, e, 0);
            let all = before.push(e);
            if unsettled(g.nodes, before, 0) {
                if settles(g.nodes, e) {
                    assert(settles(g.nodes, all[before.len() as int]));
                    n - 1
                } else {
                    assert(unsettled(g.nodes, all, 0));
                    k
                }
            } else {
                let j = choose|j: int| 0 <= j < before.len() && settles(g.nodes, #[trigger] before[j]);
                assert(settles(g.nodes, all[j]));
                k
            }
        } else {
            k
        }
    }
}

proof fn lemma_callee_from(g: GraphView, qn: StringId, n: int) -> (k: int)
    requires
        0 <= n <= g.indices.len(),
    ensures
        ({
            let s = nodes_of_qn(g.indices, qn, n);
            if no_callee(g.nodes, s, 0) {
                &&& callable_from(g.nodes, s, 0) is None
                &&& forall|j: int|
                    0 <= j < n && (#[trigger] g.indices[j]).qualified_name == Some(qn)
                        ==> !gone_or_callable(g.nodes, g.indices[j].node)
            } else {
                &&& k < n
                &&& settles_callee(g, qn, k)
                &&& callable_from(g.nodes, s, 0) == (if live(
                    g.nodes,
                    g.indices[k].node,
                ) is Some {
                    Some(g.indices[k].node)
                } else {
                    None
                })
            }
        }),
    decreases n,
{
    if n <= 0 {
        -1
    } else {
        let k = lemma_callee_from(g, qn, n - 1);
        let before = nodes_of_qn(g.indices, qn, n - 1);
        let x = g.indices[n - 1].node;
        if g.indices[n - 1].qualified_name == Some(qn) {
            lemma_callee_push(g.nodes, before, x, 0);
            let all = before.push(x);
            if no_callee(g.nodes, before, 0) {
                if gone_or_callable(g.nodes, x) {
                    assert(gone_or_callable(g.nodes, all[before.len() as int]));
                    n - 1
                } else {
                    assert(no_callee(g.nodes, all, 0));
                    k
                }
            } else {
                let j = choose|j: int|
                    0 <= j < before.len() && gone_or_callable(g.nodes, #[trigger] before[j]);
                assert(gone_or_callable(g.nodes, all[j]));
                k
            }
        } else {
            k
        }
    }
}

/// None of `s` is gone or can be called.
spec fn no_callee(slots: Seq<Slot>, s: Seq<NodeId>, i: int) -> bool {
    forall|j: int| i <= j < s.len() ==> !gone_or_callable(slots, #[trigger] s[j])
}

proof fn lemma_callee_push(slots: Seq<Slot>, s: Seq<NodeId>, x: NodeId, i: int)
    requires
        0 <= i <= s.len(),
    ensures
        callable_from(slots, s.push(x), i) == (if no_callee(slots, s, i) {
            if gone_or_callable(slots, x) && live(slots, x) is Some {
                Some(x)
            } else {
                None
            }
        } else {
            callable_from(slots, s, i)
        }),
        no_callee(slots, s, i) ==> callable_from(slots, s, i) is None,
    decreases s.len() - i,
{
    if i < s.len() {
        assert(s.push(x)[i] == s[i]);
        lemma_callee_push(slots, s, x, i + 1);
        if no_callee(slots, s, i + 1) && !gone_or_callable(slots, s[i]) {
            assert forall|j: int| i <= j < s.len() implies !gone_or_callable(
                slots,
                #[trigger] s[j],
            ) by {}
        }
    } else {
        assert(s.push(x)[i] == x);
        assert(callable_from(slots, s.push(x), i + 1) is None);
    }
}

/// A receiver that is what a call gives back has the type that the callee declares as its
/// first or only result; it counts as no pointer. The callee is the first function or method
/// of its name, unless a node that is gone comes before it.
pub proof fn law_call_receiver_has_the_returned_type(
    g: GraphView,
    callee: Seq<char>,
    r: ResolvedReceiver,
)
    ensures
        receiver_type(g, ReceiverHintView::CallReturn { callee_qn: callee }) == Some(r) <==> {
            &&& !r.pointer
            &&& g.strings.get(callee) is Some
            &&& live(g.nodes, r.node) is Some
            &&& exists|c: int, e: int|
                settles_callee(g, g.strings.get(callee)->0, c) && live(
                    g.nodes,
                    (#[trigger] g.indices[c]).node,
                ) is Some && settles_result(g, g.indices[c].node, e) && (
                #[trigger] g.edges.edges[e]).target == r.node
        },
{
    if let Some(qn) = g.strings.get(callee) {
        let c = lemma_callee_from(g, qn, g.indices.len() as int);
        let f = callable_from(g.nodes, named(g, qn), 0);
        if let Some(x) = f {
            let e = lemma_result(g, x, g.edges.edges.len() as int);
            assert(g.indices[c].node == x);
            if receiver_type(g, ReceiverHintView::CallReturn { callee_qn: callee }) == Some(r) {
                assert(g.edges.edges[e].target == r.node);
            }
        }
        if exists|c: int, e: int|
            settles_callee(g, qn, c) && live(g.nodes, (#[trigger] g.indices[c]).node) is Some
                && settles_result(g, g.indices[c].node, e) && (#[trigger] g.edges.edges[e]).target
                == r.node {
            let (c2, e2) = choose|c: int, e: int|
                settles_callee(g, qn, c) && live(g.nodes, (#[trigger] g.indices[c]).node) is Some
                    && settles_result(g, g.indices[c].node, e) && (
                #[trigger] g.edges.edges[e]).target == r.node;
            assert(g.indices[c2].qualified_name == Some(qn));
            assert(g.indices[c].qualified_name == Some(qn));
            assert(c == c2);
            let e = lemma_result(g, g.indices[c].node, g.edges.edges.len() as int);
            assert(g.edges.edges[e2].source == g.indices[c].node);
            assert(g.edges.edges[e].source == g.indices[c].node);
            assert(e == e2);
        }
    }
}

} // verus!
