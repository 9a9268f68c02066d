//! Two runs of the pass add the same shadow edges.

use vstd::prelude::*;

use crate::arena::{live, live_kind};
use crate::edges::{callers_of, edges_out_of, CallerRef, EdgeView};
use crate::graph::GraphView;
use crate::ids::{NodeId, StringId};
use crate::pass_go_method_set::lookup::{inherited_from, inherits_target, out_edges, type_rank};
use crate::pass_go_method_set::materialise::{LocalView, PromotedKey};
use crate::pass_go_method_set::shadow::{
    call_shadow, distinct_shadows, has_shape, hinted_shadows, promoted_callee, receiver_type,
    reference_shadow, shadow_kind, shadowing, shadows, unhinted_shadows, with_shadow_edges,
    with_shadows, CallShape, PendingShadow,
};
use crate::pass_go_method_set::steady::{lemma_receiver, name_alike, names_more, over};
use crate::pass_go_method_set::twin_sets::runs;
use crate::pass_go_method_set::twins::{
    lemma_peer, lemma_peers_apart, lemma_twin_edge, lemma_twin_outer_at, option_peer, peer,
    twin_notes, twin_promoted, twins,
};
use crate::pass_go_method_set::undo::known;
use crate::sorting::{
    deduped, law_deduped_keeps_keys, lemma_deduped_mapped, lemma_sorted_contains,
    lemma_sorted_mapped, sorted,
};

verus! {

/// A caller, where it stands in `t`.
pub open spec fn peer_caller(g: GraphView, t: GraphView, r: CallerRef) -> CallerRef {
    CallerRef { caller: peer(g, t, r.caller), ..r }
}

/// A shadow edge between the nodes that stand in `t` where its ends do.
pub open spec fn peer_shadow(g: GraphView, t: GraphView, p: PendingShadow) -> PendingShadow {
    PendingShadow { caller: peer(g, t, p.caller), target: peer(g, t, p.target), ..p }
}

proof fn lemma_twin_callers(
    g: GraphView,
    t: GraphView,
    b: GraphView,
    c: GraphView,
    method: NodeId,
    n: int,
)
    requires
        twins(g, t, b, c),
        known(g, b, method),
        0 <= n <= b.edges.edges.len(),
    ensures
        callers_of(c.edges.edges, peer(g, t, method), n) == callers_of(
            b.edges.edges,
            method,
            n,
        ).map_values(|r: CallerRef| peer_caller(g, t, r)),
        forall|i: int|
            0 <= i < callers_of(b.edges.edges, method, n).len() ==> known(
                g,
                b,
                (#[trigger] callers_of(b.edges.edges, method, n)[i]).caller,
            ),
    decreases n,
{
    let f = |r: CallerRef| peer_caller(g, t, r);
    let after = callers_of(b.edges.edges, method, n);
    let other = callers_of(c.edges.edges, peer(g, t, method), n);
    if n > 0 {
        lemma_twin_callers(g, t, b, c, method, n - 1);
        let before = callers_of(b.edges.edges, method, n - 1);
        let e = b.edges.edges[n - 1];
        assert(known(g, b, e.source) && known(g, b, e.target));
        lemma_peers_apart(g, t, b, c, e.target, method);
        assert forall|i: int| 0 <= i < after.len() implies known(
            g,
            b,
            (#[trigger] after[i]).caller,
        ) by {
            if i < before.len() {
                assert(after[i] == before[i]);
            }
        }
    }
    assert(other =~= after.map_values(f));
}

/// The ends of `pending` are known.
pub open spec fn shadows_there(g: GraphView, b: GraphView, pending: Seq<PendingShadow>) -> bool {
    forall|i: int|
        0 <= i < pending.len() ==> known(g, b, (#[trigger] pending[i]).caller) && known(
            g,
            b,
            pending[i].target,
        )
}

proof fn lemma_twin_with_shadows(
    g: GraphView,
    t: GraphView,
    b: GraphView,
    c: GraphView,
    pending: Seq<PendingShadow>,
    callers: Seq<CallerRef>,
    target: NodeId,
    shape: Option<CallShape>,
    n: int,
)
    requires
        twins(g, t, b, c),
        shadows_there(g, b, pending),
        known(g, b, target),
        0 <= n <= callers.len(),
        forall|i: int| 0 <= i < callers.len() ==> known(g, b, (#[trigger] callers[i]).caller),
    ensures
        shadows_there(g, b, with_shadows(b, pending, callers, target, shape, n)),
        with_shadows(
            c,
            pending.map_values(|p: PendingShadow| peer_shadow(g, t, p)),
            callers.map_values(|r: CallerRef| peer_caller(g, t, r)),
            peer(g, t, target),
            shape,
            n,
        ) == with_shadows(b, pending, callers, target, shape, n).map_values(
            |p: PendingShadow| peer_shadow(g, t, p),
        ),
    decreases n,
{
    if n > 0 {
        lemma_twin_with_shadows(g, t, b, c, pending, callers, target, shape, n - 1);
        let f = |p: PendingShadow| peer_shadow(g, t, p);
        let r = callers[n - 1];
        assert(known(g, b, callers[n - 1].caller));
        lemma_peer(g, t, b, c, r.caller);
        let others = callers.map_values(|r: CallerRef| peer_caller(g, t, r));
        assert(others[n - 1] == peer_caller(g, t, r));
        let before = with_shadows(b, pending, callers, target, shape, n - 1);
        if has_shape(r, shape) {
            let call = call_shadow(b, r, target);
            let reference = reference_shadow(b, r, target);
            assert(before.map_values(f).push(f(call)).push(f(reference)) =~= before.push(
                call,
            ).push(reference).map_values(f));
        }
    }
}

proof fn lemma_twin_shadowing(
    g: GraphView,
    t: GraphView,
    b: GraphView,
    c: GraphView,
    pending: Seq<PendingShadow>,
    method: NodeId,
    target: NodeId,
    shape: Option<CallShape>,
)
    requires
        twins(g, t, b, c),
        shadows_there(g, b, pending),
        known(g, b, method),
        known(g, b, target),
    ensures
        shadows_there(g, b, shadowing(b, pending, method, target, shape)),
        shadowing(
            c,
            pending.map_values(|p: PendingShadow| peer_shadow(g, t, p)),
            peer(g, t, method),
            peer(g, t, target),
            shape,
        ) == shadowing(b, pending, method, target, shape).map_values(
            |p: PendingShadow| peer_shadow(g, t, p),
        ),
{
    let n = b.edges.edges.len() as int;
    lemma_twin_callers(g, t, b, c, method, n);
    let callers = callers_of(b.edges.edges, method, n);
    lemma_twin_with_shadows(
        g,
        t,
        b,
        c,
        pending,
        callers,
        target,
        shape,
        callers.len() as int,
    );
}

/// Receiver calls and receiver hints speak of methods that are there or are gone for good.
pub open spec fn called_truly(g: GraphView) -> bool {
    &&& forall|i: int|
        0 <= i < g.hints.receiver_calls.len() ==> known(
            g,
            g,
            (#[trigger] g.hints.receiver_calls[i]).callee_method,
        )
    &&& forall|i: int|
        0 <= i < g.hints.method_receivers.len() ==> known(
            g,
            g,
            (#[trigger] g.hints.method_receivers[i]).method_node,
        )
}

/// Two runs index types under the same names.
proof fn lemma_twins_name_alike(g: GraphView, t: GraphView, b: GraphView, c: GraphView)
    requires
        twins(g, t, b, c),
        g.indices.len() <= t.indices.len(),
        forall|i: int|
            g.indices.len() <= i < t.indices.len() ==> live(
                c.nodes,
                (#[trigger] t.indices[i]).node,
            ) is None,
    ensures
        name_alike(g, b, c),
{
    let shift = t.indices.len() - g.indices.len();
    let n = b.indices.len() as int;
    let m = c.indices.len() as int;
    assert forall|q: StringId| #![trigger names_more(g, b, q, n)] names_more(g, b, q, n)
        == names_more(g, c, q, m) by {
        if names_more(g, b, q, n) {
            let k = choose|k: int|
                g.indices.len() <= k < n && (#[trigger] b.indices[k]).qualified_name == Some(q)
                    && type_rank(live_kind(b.nodes, b.indices[k].node)) > 0;
            lemma_peer(g, t, b, c, b.indices[k].node);
            assert(c.indices[k + shift].qualified_name == Some(q));
        }
        if names_more(g, c, q, m) {
            let k = choose|k: int|
                g.indices.len() <= k < m && (#[trigger] c.indices[k]).qualified_name == Some(q)
                    && type_rank(live_kind(c.nodes, c.indices[k].node)) > 0;
            if k < t.indices.len() {
                assert(c.indices[k] == t.indices[k]);
            }
            let r = b.indices[k - shift];
            assert(live(b.nodes, r.node) is Some);
            lemma_peer(g, t, b, c, r.node);
            assert(b.indices[k - shift].qualified_name == Some(q));
        }
    }
}

proof fn lemma_twin_hinted(
    g: GraphView,
    t: GraphView,
    b: GraphView,
    c: GraphView,
    x: LocalView,
    y: LocalView,
    n: int,
)
    requires
        twins(g, t, b, c),
        twin_notes(g, t, b, x, y),
        over(g, b),
        over(g, c),
        name_alike(g, b, c),
        called_truly(g),
        0 <= n <= g.hints.receiver_calls.len(),
    ensures
        shadows_there(g, b, hinted_shadows(b, x, n)),
        hinted_shadows(c, y, n) == hinted_shadows(b, x, n).map_values(
            |p: PendingShadow| peer_shadow(g, t, p),
        ),
    decreases n,
{
    let f = |p: PendingShadow| peer_shadow(g, t, p);
    if n > 0 {
        lemma_twin_hinted(g, t, b, c, x, y, n - 1);
        let hint = g.hints.receiver_calls[n - 1];
        assert(known(g, g, g.hints.receiver_calls[n - 1].callee_method));
        assert(known(g, b, hint.callee_method));
        lemma_peer(g, t, b, c, hint.callee_method);
        lemma_receiver(g, b, c, n - 1);
        let v = x.outer_value.len() as int;
        let w = x.outer_pointer.len() as int;
        if let Some(r) = receiver_type(b, hint.receiver) {
            lemma_twin_outer_at(g, t, b, x.outer_value, y.outer_value, r.node, hint.method_name, v);
            lemma_twin_outer_at(
                g,
                t,
                b,
                x.outer_pointer,
                y.outer_pointer,
                r.node,
                hint.method_name,
                w,
            );
        }
        if let Some(r) = receiver_type(c, hint.receiver) {
            lemma_twin_outer_at(g, t, b, x.outer_value, y.outer_value, r.node, hint.method_name, v);
            lemma_twin_outer_at(
                g,
                t,
                b,
                x.outer_pointer,
                y.outer_pointer,
                r.node,
                hint.method_name,
                w,
            );
        }
        assert(promoted_callee(c, y, hint) == option_peer(g, t, promoted_callee(b, x, hint)));
        if let Some(target) = promoted_callee(b, x, hint) {
            lemma_twin_shadowing(
                g,
                t,
                b,
                c,
                hinted_shadows(b, x, n - 1),
                hint.callee_method,
                target,
                Some(CallShape { argument_count: hint.argument_count, is_async: hint.is_async }),
            );
        }
    } else {
        assert(hinted_shadows(c, y, n) =~= hinted_shadows(b, x, n).map_values(f));
    }
}

/// Two lists of edges are the same from one node to the others.
pub open spec fn twin_list(
    g: GraphView,
    t: GraphView,
    b: GraphView,
    es: Seq<EdgeView>,
    fs: Seq<EdgeView>,
) -> bool {
    &&& es.len() == fs.len()
    &&& forall|i: int|
        0 <= i < es.len() ==> known(g, b, (#[trigger] es[i]).target) && fs[i].target
            == peer(g, t, es[i].target) && fs[i].kind == es[i].kind
}

proof fn lemma_twin_out(
    g: GraphView,
    t: GraphView,
    b: GraphView,
    c: GraphView,
    node: NodeId,
    n: int,
)
    requires
        twins(g, t, b, c),
        known(g, b, node),
        0 <= n <= b.edges.edges.len(),
    ensures
        twin_list(
            g,
            t,
            b,
            edges_out_of(b.edges.edges, node, n),
            edges_out_of(c.edges.edges, peer(g, t, node), n),
        ),
    decreases n,
{
    if n > 0 {
        lemma_twin_out(g, t, b, c, node, n - 1);
        let e = b.edges.edges[n - 1];
        assert(known(g, b, e.source) && known(g, b, e.target));
        lemma_peers_apart(g, t, b, c, e.source, node);
    }
}

proof fn lemma_inherited(
    g: GraphView,
    t: GraphView,
    b: GraphView,
    es: Seq<EdgeView>,
    fs: Seq<EdgeView>,
    i: int,
)
    requires
        twin_list(g, t, b, es, fs),
        0 <= i,
    ensures
        inherited_from(fs, i) == option_peer(g, t, inherited_from(es, i)),
        inherited_from(es, i) matches Some(target) ==> known(g, b, target),
    decreases es.len() - i,
{
    if i < es.len() {
        assert(known(g, b, es[i].target));
        lemma_inherited(g, t, b, es, fs, i + 1);
    }
}

/// What a node inherits from, its peer does.
pub(crate) proof fn lemma_twin_inherits(
    g: GraphView,
    t: GraphView,
    b: GraphView,
    c: GraphView,
    node: NodeId,
)
    requires
        twins(g, t, b, c),
        known(g, b, node),
    ensures
        inherits_target(c, peer(g, t, node)) == option_peer(g, t, inherits_target(b, node)),
        inherits_target(b, node) matches Some(target) ==> known(g, b, target),
{
    lemma_twin_out(g, t, b, c, node, b.edges.edges.len() as int);
    lemma_inherited(g, t, b, out_edges(b, node), out_edges(c, peer(g, t, node)), 0);
}

proof fn lemma_twin_unhinted(
    g: GraphView,
    t: GraphView,
    b: GraphView,
    c: GraphView,
    pending: Seq<PendingShadow>,
    x: Seq<PromotedKey>,
    y: Seq<PromotedKey>,
    n: int,
)
    requires
        twins(g, t, b, c),
        twin_promoted(g, t, b, x, y),
        shadows_there(g, b, pending),
        0 <= n <= x.len(),
    ensures
        shadows_there(g, b, unhinted_shadows(b, pending, x, n)),
        unhinted_shadows(c, pending.map_values(|p: PendingShadow| peer_shadow(g, t, p)), y, n)
            == unhinted_shadows(b, pending, x, n).map_values(
            |p: PendingShadow| peer_shadow(g, t, p),
        ),
    decreases n,
{
    if n > 0 {
        lemma_twin_unhinted(g, t, b, c, pending, x, y, n - 1);
        let node = x[n - 1].node;
        assert(live(b.nodes, x[n - 1].node) is Some);
        lemma_twin_inherits(g, t, b, c, node);
        if let Some(method) = inherits_target(b, node) {
            lemma_twin_shadowing(
                g,
                t,
                b,
                c,
                unhinted_shadows(b, pending, x, n - 1),
                method,
                node,
                None,
            );
        }
    }
}

proof fn lemma_twin_distinct_shadows(g: GraphView, t: GraphView, pending: Seq<PendingShadow>)
    ensures
        distinct_shadows(pending.map_values(|p: PendingShadow| peer_shadow(g, t, p)))
            == distinct_shadows(pending).map_values(|p: PendingShadow| peer_shadow(g, t, p)),
{
    let f = |p: PendingShadow| peer_shadow(g, t, p);
    lemma_sorted_mapped(f, pending);
    let s = sorted(pending);
    lemma_deduped_mapped(f, s, s.len() as int);
}

/// Two runs add the same shadow edges.
pub(crate) proof fn lemma_twin_shadows(
    g: GraphView,
    t: GraphView,
    b: GraphView,
    c: GraphView,
    x: LocalView,
    y: LocalView,
)
    requires
        twins(g, t, b, c),
        twin_notes(g, t, b, x, y),
        over(g, b),
        over(g, c),
        called_truly(g),
        g.indices.len() <= t.indices.len(),
        forall|i: int|
            g.indices.len() <= i < t.indices.len() ==> live(
                c.nodes,
                (#[trigger] t.indices[i]).node,
            ) is None,
    ensures
        shadows(c, y) == shadows(b, x).map_values(|p: PendingShadow| peer_shadow(g, t, p)),
        shadows_there(g, b, shadows(b, x)),
{
    let f = |p: PendingShadow| peer_shadow(g, t, p);
    let none = Seq::<PendingShadow>::empty();
    let pending = if b.hints.receiver_calls.len() == 0 {
        let n = x.value.len() as int;
        let first = unhinted_shadows(b, none, x.value, n);
        lemma_twin_unhinted(g, t, b, c, none, x.value, y.value, n);
        assert(none.map_values(f) =~= none);
        lemma_twin_unhinted(g, t, b, c, first, x.pointer, y.pointer, x.pointer.len() as int);
        unhinted_shadows(b, first, x.pointer, x.pointer.len() as int)
    } else {
        let n = b.hints.receiver_calls.len() as int;
        lemma_twins_name_alike(g, t, b, c);
        lemma_twin_hinted(g, t, b, c, x, y, n);
        hinted_shadows(b, x, n)
    };
    lemma_twin_distinct_shadows(g, t, pending);
    let s = sorted(pending);
    let all = shadows(b, x);
    law_deduped_keeps_keys(s, s.len() as int);
    assert forall|k: int| 0 <= k < all.len() implies known(g, b, (#[trigger] all[k]).caller)
        && known(g, b, all[k].target) by {
        assert(s.contains(deduped(s, s.len() as int)[k]));
        lemma_sorted_contains(pending, all[k]);
        let m = pending.index_of(all[k]);
        assert(known(g, b, pending[m].caller));
    }
}

pub(crate) proof fn lemma_twin_shadow_edges(
    g: GraphView,
    t: GraphView,
    b: GraphView,
    c: GraphView,
    p: Seq<PendingShadow>,
    n: int,
)
    requires
        twins(g, t, b, c),
        shadows_there(g, b, p),
        0 <= n <= p.len(),
    ensures
        twins(
            g,
            t,
            (GraphView { edges: with_shadow_edges(b.edges, p, n), ..b }),
            (GraphView {
                edges: with_shadow_edges(
                    c.edges,
                    p.map_values(|p: PendingShadow| peer_shadow(g, t, p)),
                    n,
                ),
                ..c
            }),
        ),
    decreases n,
{
    if n > 0 {
        lemma_twin_shadow_edges(g, t, b, c, p, n - 1);
        let q = p.map_values(|p: PendingShadow| peer_shadow(g, t, p));
        let e = p[n - 1];
        assert(known(g, b, p[n - 1].caller));
        assert(q[n - 1] == peer_shadow(g, t, e));
        assert(shadow_kind(q[n - 1]) == shadow_kind(e));
        let b1 = GraphView { edges: with_shadow_edges(b.edges, p, n - 1), ..b };
        let c1 = GraphView { edges: with_shadow_edges(c.edges, q, n - 1), ..c };
        lemma_twin_edge(g, t, b1, c1, e.caller, e.target, shadow_kind(e), e.file);
    }
}

} // verus!
