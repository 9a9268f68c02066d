//! What the pass adds to a graph changes nothing of what it looks up there.

use vstd::prelude::*;

use crate::arena::{live, live_kind, Slot};
use crate::edges::{edges_out_of, EdgeView};
use crate::graph::GraphView;
use crate::hints::ReceiverHintView;
use crate::ids::{NodeId, StringId};
use crate::indices::{nodes_of_kind, nodes_of_qn, IndexRow};
use crate::kinds::{EdgeKind, NodeKind};
use crate::pass_go_method_set::lookup::{
    best_type, callable_from, callable_with_text, declared_from, declared_type, declares_return,
    declares_type, embedded_interfaces, named, one_level_more, out_edges, preferred_type,
    return_type_from, type_named, type_rank, type_with_text, with_interfaces,
};
use crate::pass_go_method_set::materialise::LocalView;
use crate::pass_go_method_set::rerun::{
    beyond, indexed_truly, lemma_named_beyond, lemma_slot_prefix, padded,
};
use crate::pass_go_method_set::satisfaction::{
    candidate_types, in_order, indexed, is_pointer_form, method_sets, types_with_sets,
    with_originals, with_types, InterfaceView, PairState,
};
use crate::pass_go_method_set::shadow::{receiver_type, MAX_RECEIVER_HOPS};
use crate::pass_go_method_set::undo::{known, made, passed, sound};
use crate::sorting::{
    deduped, law_deduped_keeps_keys, law_sorted_and_deduped_is_strict, lemma_sorted_contains,
    sorted, stands_in, strictly_ascending, Ranked,
};

verus! {

/// `node` is one of `g`, where it is one of `d` at all.
pub open spec fn was_there(g: GraphView, d: GraphView, node: NodeId) -> bool {
    live(d.nodes, node) is Some ==> live(g.nodes, node) is Some
}

/// The name of the type that a receiver spells out.
pub open spec fn receiver_text(kind: ReceiverHintView) -> Option<Seq<char>> {
    match kind {
        ReceiverHintView::TypePrefixed { type_text } => Some(type_text),
        ReceiverHintView::PointerPrefixed { type_text } => Some(type_text),
        _ => None,
    }
}

/// Hint `i` spells out the name of a type of `g`.
pub open spec fn spells_type(g: GraphView, i: int) -> bool {
    &&& 0 <= i < g.hints.receiver_calls.len()
    &&& receiver_text(g.hints.receiver_calls[i].receiver) matches Some(text) && type_with_text(
        g,
        text,
    ) is Some
}

/// The name that hint `i` spells out.
pub open spec fn spelled(g: GraphView, i: int) -> Option<StringId> {
    g.strings.get(receiver_text(g.hints.receiver_calls[i].receiver)->0)
}

/// No index row that `d` has besides those of `g` bears the name of a type of `g` that a
/// receiver spells out.
pub open spec fn apart(g: GraphView, d: GraphView) -> bool {
    forall|k: int, i: int|
        #![trigger d.indices[k], spells_type(g, i)]
        g.indices.len() <= k < d.indices.len() && spells_type(g, i)
            ==> d.indices[k].qualified_name != spelled(g, i)
}

/// `d` is `g` with what the pass adds to it.
pub open spec fn over(g: GraphView, d: GraphView) -> bool {
    &&& beyond(g, d)
    &&& sound(g)
    &&& indexed_truly(g)
    &&& d.strings.wf()
    &&& g.strings.text.is_prefix_of(d.strings.text)
    &&& forall|i: int| 0 <= i < g.indices.len() ==> was_there(g, d, (#[trigger] g.indices[i]).node)
    &&& apart(g, d)
    &&& forall|i: int|
        g.edges.edges.len() <= i < d.edges.edges.len() && (#[trigger] d.edges.edges[i]).kind
            == EdgeKind::Inherits ==> made(g, d, d.edges.edges[i].source)
    &&& forall|k: int|
        g.indices.len() <= k < d.indices.len() ==> type_rank(
            live_kind(d.nodes, (#[trigger] d.indices[k]).node),
        ) <= 1
}

/// A node, where it is one of `g`.
pub open spec fn shown(g: GraphView, node: Option<NodeId>) -> Option<NodeId> {
    match node {
        Some(n) => if live(g.nodes, n) is Some {
            Some(n)
        } else {
            None
        },
        None => None,
    }
}

proof fn lemma_row_nodes(rows: Seq<IndexRow>, q: StringId, n: int)
    requires
        0 <= n <= rows.len(),
    ensures
        forall|i: int|
            0 <= i < nodes_of_qn(rows, q, n).len() ==> exists|k: int|
                0 <= k < n && (#[trigger] rows[k]).node == #[trigger] nodes_of_qn(rows, q, n)[i]
                    && rows[k].qualified_name == Some(q),
    decreases n,
{
    if n > 0 {
        lemma_row_nodes(rows, q, n - 1);
        let before = nodes_of_qn(rows, q, n - 1);
        let after = nodes_of_qn(rows, q, n);
        assert forall|i: int| 0 <= i < after.len() implies exists|k: int|
            0 <= k < n && (#[trigger] rows[k]).node == #[trigger] after[i] && rows[k].qualified_name
                == Some(q) by {
            if i < before.len() {
                assert(after[i] == before[i]);
                let k = choose|k: int|
                    0 <= k < n - 1 && (#[trigger] rows[k]).node == before[i]
                        && rows[k].qualified_name == Some(q);
                assert(rows[k].node == after[i]);
            } else {
                assert(rows[n - 1].node == after[i]);
            }
        }
    }
}

/// What the indices of `g` name, `d` knows as `g` does.
proof fn lemma_named_known(g: GraphView, d: GraphView, q: StringId, i: int)
    requires
        over(g, d),
        0 <= i < named(g, q).len(),
    ensures
        live(d.nodes, named(g, q)[i]) == live(g.nodes, named(g, q)[i]),
        live(g.nodes, named(g, q)[i]) matches Some(e) ==> e.qualified_name == Some(q),
{
    lemma_row_nodes(g.indices, q, g.indices.len() as int);
    let x = named(g, q)[i];
    assert(nodes_of_qn(g.indices, q, g.indices.len() as int)[i] == x);
    let k = choose|k: int|
        0 <= k < g.indices.len() && (#[trigger] g.indices[k]).node == x
            && g.indices[k].qualified_name == Some(q);
    assert(was_there(g, d, g.indices[k].node));
    if live(g.nodes, x) is Some {
        assert(live(d.nodes, x) == live(g.nodes, x));
        assert(live(g.nodes, g.indices[k].node) is Some);
    }
}

pub(crate) proof fn lemma_best_member(slots: Seq<Slot>, nodes: Seq<NodeId>, n: int)
    requires
        0 <= n <= nodes.len(),
    ensures
        best_type(slots, nodes, n) matches Some(b) ==> nodes.contains(b) && type_rank(
            live_kind(slots, b),
        ) > 0,
    decreases n,
{
    if n > 0 {
        lemma_best_member(slots, nodes, n - 1);
        assert(nodes.contains(nodes[n - 1]));
    }
}

/// `d` indexes under a name what `g` does, where none of the further rows bears it.
proof fn lemma_named_same(g: GraphView, d: GraphView, q: StringId, n: int)
    requires
        over(g, d),
        forall|k: int|
            g.indices.len() <= k < d.indices.len() ==> (#[trigger] d.indices[k]).qualified_name
                != Some(q),
        0 <= n <= d.indices.len(),
    ensures
        nodes_of_qn(d.indices, q, n) == nodes_of_qn(
            g.indices,
            q,
            if n <= g.indices.len() {
                n
            } else {
                g.indices.len() as int
            },
        ),
    decreases n,
{
    if n > 0 {
        lemma_named_same(g, d, q, n - 1);
        if n <= g.indices.len() {
            assert(g.indices[n - 1] == d.indices[n - 1]);
        } else {
            assert(d.indices[n - 1].qualified_name != Some(q));
        }
    }
}

proof fn lemma_best_same(g: GraphView, d: GraphView, q: StringId, n: int)
    requires
        over(g, d),
        0 <= n <= named(g, q).len(),
    ensures
        best_type(d.nodes, named(g, q), n) == best_type(g.nodes, named(g, q), n),
    decreases n,
{
    if n > 0 {
        lemma_best_same(g, d, q, n - 1);
        lemma_named_known(g, d, q, n - 1);
        lemma_best_member(g.nodes, named(g, q), n - 1);
        if let Some(b) = best_type(g.nodes, named(g, q), n - 1) {
            let i = named(g, q).index_of(b);
            lemma_named_known(g, d, q, i);
        }
    }
}

proof fn lemma_over_itself(g: GraphView, d: GraphView)
    requires
        over(g, d),
    ensures
        over(g, g),
{
}

proof fn lemma_text_type(g: GraphView, d: GraphView, text: Seq<char>)
    requires
        over(g, d),
        type_with_text(g, text) is Some ==> forall|k: int|
            g.indices.len() <= k < d.indices.len() ==> (#[trigger] d.indices[k]).qualified_name
                != g.strings.get(text),
    ensures
        shown(g, type_with_text(d, text)) == shown(g, type_with_text(g, text)),
{
    lemma_slot_prefix(g.strings.text, d.strings.text, text, 0);
    if type_with_text(g, text) is Some {
        let q = g.strings.get(text)->0;
        lemma_named_same(g, d, q, d.indices.len() as int);
        lemma_best_same(g, d, q, named(g, q).len() as int);
        assert forall|i: int| 0 <= i < named(d, q).len() implies live(
            d.nodes,
            #[trigger] named(d, q)[i],
        ) is Some by {
            lemma_named_known(g, d, q, i);
            assert(live(g.nodes, named(g, q)[i]) is Some);
        }
    } else if let Some(q) = d.strings.get(text) {
        if let Some(n) = type_with_text(d, text) {
            if live(g.nodes, n) is Some {
                lemma_found_before(g, d, q, n);
                assert forall|i: int| 0 <= i < named(g, q).len() implies live(
                    g.nodes,
                    #[trigger] named(g, q)[i],
                ) is Some by {
                    lemma_named_known(g, d, q, i);
                    lemma_named_beyond(g, d, q, d.indices.len() as int);
                    assert(live(d.nodes, named(d, q)[i]) is Some);
                }
                assert(live(g.nodes, n)->0.qualified_name == Some(q));
            }
        }
    }
}

/// A type of `g` that `d` finds under a name, `g` knows under it.
proof fn lemma_found_before(g: GraphView, d: GraphView, q: StringId, n: NodeId)
    requires
        over(g, d),
        type_named(d, q) == Some(n),
        live(g.nodes, n) is Some,
    ensures
        type_named(g, q) is Some,
        live(g.nodes, n)->0.qualified_name == Some(q),
{
    let few = named(g, q);
    let more = named(d, q);
    lemma_best_member(d.nodes, more, more.len() as int);
    lemma_named_beyond(g, d, q, d.indices.len() as int);
    let i = more.index_of(n);
    assert(more[i] == n);
    if i >= few.len() {
        assert(live(g.nodes, more[i]) is None);
    }
    assert(few[i] == n);
    lemma_named_known(g, d, q, i);
    assert(live(d.nodes, n) == live(g.nodes, n));
    lemma_best_is_some(g.nodes, few, few.len() as int, i);
}

proof fn lemma_best_is_some(slots: Seq<Slot>, nodes: Seq<NodeId>, n: int, i: int)
    requires
        0 <= i < n <= nodes.len(),
        type_rank(live_kind(slots, nodes[i])) > 0,
    ensures
        best_type(slots, nodes, n) is Some,
    decreases n,
{
    if i < n - 1 {
        lemma_best_is_some(slots, nodes, n - 1, i);
    }
}

proof fn lemma_best_push(slots: Seq<Slot>, nodes: Seq<NodeId>, x: NodeId, n: int)
    requires
        0 <= n <= nodes.len(),
    ensures
        best_type(slots, nodes.push(x), n) == best_type(slots, nodes, n),
    decreases n,
{
    if n > 0 {
        lemma_best_push(slots, nodes, x, n - 1);
        assert(nodes.push(x)[n - 1] == nodes[n - 1]);
    }
}

/// One of the further rows of `d`, up to row `n`, is of a type named `q`.
pub open spec fn names_more(g: GraphView, d: GraphView, q: StringId, n: int) -> bool {
    exists|k: int|
        g.indices.len() <= k < n && (#[trigger] d.indices[k]).qualified_name == Some(q)
            && type_rank(live_kind(d.nodes, d.indices[k].node)) > 0
}

/// A type of `g` goes before whatever else bears its name in `d`.
proof fn lemma_type_over(g: GraphView, d: GraphView, q: StringId, n: int)
    requires
        over(g, d),
        g.indices.len() <= n <= d.indices.len(),
    ensures
        ({
            let more = nodes_of_qn(d.indices, q, n);
            let found = best_type(d.nodes, more, more.len() as int);
            if type_named(g, q) is Some {
                found == type_named(g, q)
            } else {
                &&& found is Some <==> names_more(g, d, q, n)
                &&& shown(g, found) is None
            }
        }),
    decreases n,
{
    let more = nodes_of_qn(d.indices, q, n);
    lemma_best_member(g.nodes, named(g, q), named(g, q).len() as int);
    if let Some(first) = type_named(g, q) {
        let i = named(g, q).index_of(first);
        lemma_named_known(g, d, q, i);
    }
    if n > g.indices.len() {
        lemma_type_over(g, d, q, n - 1);
        let before = nodes_of_qn(d.indices, q, n - 1);
        let r = d.indices[n - 1];
        assert(type_rank(live_kind(d.nodes, d.indices[n - 1].node)) <= 1);
        assert(live(g.nodes, d.indices[n - 1].node) is None);
        if r.qualified_name == Some(q) {
            assert(more == before.push(r.node));
            lemma_best_push(d.nodes, before, r.node, before.len() as int);
            assert(more[before.len() as int] == r.node);
        }
        lemma_best_member(d.nodes, before, before.len() as int);
        if names_more(g, d, q, n - 1) {
            let k = choose|k: int|
                g.indices.len() <= k < n - 1 && (#[trigger] d.indices[k]).qualified_name == Some(q)
                    && type_rank(live_kind(d.nodes, d.indices[k].node)) > 0;
            assert(d.indices[k].qualified_name == Some(q));
        }
    } else {
        lemma_named_beyond(g, d, q, n);
        lemma_best_same(g, d, q, named(g, q).len() as int);
    }
}

/// The further rows of `b` and `c` are of types of the same names.
pub open spec fn name_alike(g: GraphView, b: GraphView, c: GraphView) -> bool {
    forall|q: StringId|
        #![trigger names_more(g, b, q, b.indices.len() as int)]
        names_more(g, b, q, b.indices.len() as int) == names_more(
            g,
            c,
            q,
            c.indices.len() as int,
        )
}

proof fn lemma_preferred(g: GraphView, b: GraphView, c: GraphView, target: NodeId)
    requires
        over(g, b),
        over(g, c),
        name_alike(g, b, c),
        live(g.nodes, target) is Some,
    ensures
        shown(g, Some(preferred_type(b, target))) == shown(g, Some(preferred_type(c, target))),
{
    assert(live(b.nodes, target) == live(g.nodes, target));
    assert(live(c.nodes, target) == live(g.nodes, target));
    if let Some(q) = live(g.nodes, target)->0.qualified_name {
        lemma_type_over(g, b, q, b.indices.len() as int);
        lemma_type_over(g, c, q, c.indices.len() as int);
        assert(names_more(g, b, q, b.indices.len() as int) == names_more(
            g,
            c,
            q,
            c.indices.len() as int,
        ));
    }
}

proof fn lemma_targets_known(g: GraphView, node: NodeId, n: int)
    requires
        sound(g),
        0 <= n <= g.edges.edges.len(),
    ensures
        forall|i: int|
            0 <= i < edges_out_of(g.edges.edges, node, n).len() ==> known(
                g,
                g,
                (#[trigger] edges_out_of(g.edges.edges, node, n)[i]).target,
            ),
    decreases n,
{
    if n > 0 {
        lemma_targets_known(g, node, n - 1);
        assert(known(g, g, g.edges.edges[n - 1].target));
        let before = edges_out_of(g.edges.edges, node, n - 1);
        let after = edges_out_of(g.edges.edges, node, n);
        assert forall|i: int| 0 <= i < after.len() implies known(
            g,
            g,
            (#[trigger] after[i]).target,
        ) by {
            if i < before.len() {
                assert(after[i] == before[i]);
            }
        }
    }
}

proof fn lemma_declared_push(es: Seq<EdgeView>, e: EdgeView, i: int)
    requires
        0 <= i <= es.len(),
        !declares_type(e.kind),
    ensures
        declared_from(es.push(e), i) == declared_from(es, i),
    decreases es.len() - i,
{
    if i < es.len() {
        assert(es.push(e)[i] == es[i]);
        lemma_declared_push(es, e, i + 1);
    } else {
        assert(es.push(e)[i] == e);
        assert(declared_from(es.push(e), i + 1) is None);
    }
}

proof fn lemma_declared(g: GraphView, d: GraphView, node: NodeId, n: int)
    requires
        over(g, d),
        0 <= n <= d.edges.edges.len(),
    ensures
        n <= g.edges.edges.len() ==> edges_out_of(d.edges.edges, node, n) == edges_out_of(
            g.edges.edges,
            node,
            n,
        ),
        n >= g.edges.edges.len() ==> declared_from(edges_out_of(d.edges.edges, node, n), 0)
            == declared_from(out_edges(g, node), 0),
        n >= g.edges.edges.len() ==> return_type_from(
            g.nodes,
            edges_out_of(d.edges.edges, node, n),
            0,
        ) == return_type_from(g.nodes, out_edges(g, node), 0),
    decreases n,
{
    if n > 0 {
        lemma_declared(g, d, node, n - 1);
        let e = d.edges.edges[n - 1];
        if n <= g.edges.edges.len() {
            assert(g.edges.edges[n - 1] == e);
        } else {
            assert(d.edges.edges[n - 1].kind !is TypeOf);
            let before = edges_out_of(d.edges.edges, node, n - 1);
            lemma_declared_push(before, e, 0);
            lemma_return_push(g.nodes, before, e, 0);
        }
    }
}

proof fn lemma_declared_known(g: GraphView, es: Seq<EdgeView>, i: int)
    requires
        0 <= i,
        forall|k: int| 0 <= k < es.len() ==> known(g, g, (#[trigger] es[k]).target),
    ensures
        declared_from(es, i) matches Some(target) ==> known(g, g, target),
    decreases es.len() - i,
{
    if i < es.len() {
        assert(known(g, g, es[i].target));
        lemma_declared_known(g, es, i + 1);
    }
}

proof fn lemma_declared_type(
    g: GraphView,
    b: GraphView,
    c: GraphView,
    node: NodeId,
    hops: int,
)
    requires
        over(g, b),
        over(g, c),
        name_alike(g, b, c),
    ensures
        shown(g, declared_type(b, node, hops)) == shown(g, declared_type(c, node, hops)),
    decreases hops,
{
    if hops > 0 {
        lemma_declared(g, b, node, b.edges.edges.len() as int);
        lemma_declared(g, c, node, c.edges.edges.len() as int);
        let es = out_edges(g, node);
        lemma_targets_known(g, node, g.edges.edges.len() as int);
        lemma_declared_known(g, es, 0);
        if let Some(target) = declared_from(es, 0) {
            assert(live(b.nodes, target) == live(g.nodes, target));
            assert(live(c.nodes, target) == live(g.nodes, target));
            lemma_declared_type(g, b, c, target, hops - 1);
            if type_rank(live_kind(g.nodes, target)) > 0 {
                lemma_preferred(g, b, c, target);
            }
        }
    }
}

proof fn lemma_return_push(slots: Seq<Slot>, es: Seq<EdgeView>, e: EdgeView, i: int)
    requires
        0 <= i <= es.len(),
        !declares_return(e.kind),
    ensures
        return_type_from(slots, es.push(e), i) == return_type_from(slots, es, i),
    decreases es.len() - i,
{
    if i < es.len() {
        assert(es.push(e)[i] == es[i]);
        lemma_return_push(slots, es, e, i + 1);
    } else {
        assert(es.push(e)[i] == e);
        assert(return_type_from(slots, es.push(e), i + 1) is None);
    }
}

/// Only edges that declare a return are looked at.
proof fn lemma_return_slots(g: GraphView, d: GraphView, es: Seq<EdgeView>, i: int)
    requires
        over(g, d),
        0 <= i,
        forall|k: int|
            0 <= k < es.len() && declares_return((#[trigger] es[k]).kind) ==> known(
                g,
                g,
                es[k].target,
            ),
    ensures
        return_type_from(d.nodes, es, i) == return_type_from(g.nodes, es, i),
    decreases es.len() - i,
{
    if i < es.len() {
        lemma_return_slots(g, d, es, i + 1);
        if declares_return(es[i].kind) {
            assert(live(d.nodes, es[i].target) == live(g.nodes, es[i].target));
        }
    }
}

proof fn lemma_return_targets(g: GraphView, d: GraphView, node: NodeId, n: int)
    requires
        over(g, d),
        0 <= n <= d.edges.edges.len(),
    ensures
        forall|k: int|
            0 <= k < edges_out_of(d.edges.edges, node, n).len() && declares_return(
                (#[trigger] edges_out_of(d.edges.edges, node, n)[k]).kind,
            ) ==> known(g, g, edges_out_of(d.edges.edges, node, n)[k].target),
    decreases n,
{
    if n > 0 {
        lemma_return_targets(g, d, node, n - 1);
        let before = edges_out_of(d.edges.edges, node, n - 1);
        let after = edges_out_of(d.edges.edges, node, n);
        assert forall|k: int|
            0 <= k < after.len() && declares_return((#[trigger] after[k]).kind) implies known(
            g,
            g,
            after[k].target,
        ) by {
            if k < before.len() {
                assert(after[k] == before[k]);
            } else if n <= g.edges.edges.len() {
                assert(g.edges.edges[n - 1] == d.edges.edges[n - 1]);
                assert(known(g, g, g.edges.edges[n - 1].target));
            } else {
                assert(d.edges.edges[n - 1].kind !is TypeOf);
            }
        }
    }
}

proof fn lemma_return(g: GraphView, d: GraphView, node: NodeId)
    requires
        over(g, d),
    ensures
        return_type_from(d.nodes, out_edges(d, node), 0) == return_type_from(
            g.nodes,
            out_edges(g, node),
            0,
        ),
        !known(g, g, node) ==> return_type_from(g.nodes, out_edges(g, node), 0) is None,
{
    lemma_declared(g, d, node, d.edges.edges.len() as int);
    lemma_return_targets(g, d, node, d.edges.edges.len() as int);
    lemma_return_slots(g, d, out_edges(d, node), 0);
    if !known(g, g, node) {
        lemma_no_edges(g, node, g.edges.edges.len() as int);
    }
}

proof fn lemma_no_edges(g: GraphView, node: NodeId, n: int)
    requires
        sound(g),
        !known(g, g, node),
        0 <= n <= g.edges.edges.len(),
    ensures
        edges_out_of(g.edges.edges, node, n).len() == 0,
    decreases n,
{
    if n > 0 {
        lemma_no_edges(g, node, n - 1);
        assert(known(g, g, g.edges.edges[n - 1].source));
    }
}

proof fn lemma_callable(g: GraphView, d: GraphView, q: StringId, i: int)
    requires
        over(g, d),
        0 <= i,
    ensures
        shown(g, callable_from(d.nodes, named(d, q), i)) == shown(
            g,
            callable_from(g.nodes, named(g, q), i),
        ),
    decreases named(d, q).len() - i,
{
    let few = named(g, q);
    let more = named(d, q);
    lemma_named_beyond(g, d, q, d.indices.len() as int);
    if i < more.len() {
        lemma_callable(g, d, q, i + 1);
        if i < few.len() {
            assert(few[i] == more[i]);
            lemma_named_known(g, d, q, i);
        } else {
            assert(live(g.nodes, more[i]) is None);
        }
    }
}

proof fn lemma_callable_there(slots: Seq<Slot>, nodes: Seq<NodeId>, i: int)
    requires
        0 <= i,
    ensures
        callable_from(slots, nodes, i) matches Some(n) ==> live(slots, n) is Some,
    decreases nodes.len() - i,
{
    if i < nodes.len() {
        lemma_callable_there(slots, nodes, i + 1);
    }
}

/// The node of a receiver.
pub open spec fn receiver_node(d: GraphView, kind: ReceiverHintView) -> Option<NodeId> {
    match receiver_type(d, kind) {
        Some(r) => Some(r.node),
        None => None,
    }
}

proof fn lemma_callee_return(g: GraphView, d: GraphView, callee_qn: Seq<char>)
    requires
        over(g, d),
    ensures
        ({
            let kind = ReceiverHintView::CallReturn { callee_qn };
            shown(g, receiver_node(d, kind)) == shown(g, receiver_node(g, kind))
        }),
{
    lemma_slot_prefix(g.strings.text, d.strings.text, callee_qn, 0);
    lemma_over_itself(g, d);
    let a = callable_with_text(g, callee_qn);
    let b = callable_with_text(d, callee_qn);
    if let Some(x) = a {
        lemma_callable_there(g.nodes, named(g, g.strings.get(callee_qn)->0), 0);
        lemma_return(g, g, x);
    }
    if let Some(y) = b {
        lemma_callable_there(d.nodes, named(d, d.strings.get(callee_qn)->0), 0);
        assert(live(d.nodes, y) is Some);
        lemma_return(g, d, y);
    }
    if let Some(q) = d.strings.get(callee_qn) {
        lemma_callable(g, d, q, 0);
        if g.strings.get(callee_qn) is None {
            lemma_unknown_callable(g, d, q, 0);
        }
    }
}

/// The receiver of hint `i` is of the same type of `g`, looked up in `b` or in `c`.
pub(crate) proof fn lemma_receiver(g: GraphView, b: GraphView, c: GraphView, i: int)
    requires
        over(g, b),
        over(g, c),
        name_alike(g, b, c),
        0 <= i < g.hints.receiver_calls.len(),
    ensures
        ({
            let kind = g.hints.receiver_calls[i].receiver;
            shown(g, receiver_node(b, kind)) == shown(g, receiver_node(c, kind))
        }),
{
    match g.hints.receiver_calls[i].receiver {
        ReceiverHintView::TypePrefixed { type_text } => {
            assert(spells_type(g, i) == (type_with_text(g, type_text) is Some));
            lemma_text_type(g, b, type_text);
            lemma_text_type(g, c, type_text);
        },
        ReceiverHintView::PointerPrefixed { type_text } => {
            assert(spells_type(g, i) == (type_with_text(g, type_text) is Some));
            lemma_text_type(g, b, type_text);
            lemma_text_type(g, c, type_text);
        },
        ReceiverHintView::LocalIdent { binding_local } => {
            lemma_declared_type(g, b, c, binding_local, MAX_RECEIVER_HOPS as int);
        },
        ReceiverHintView::CallReturn { callee_qn } => {
            lemma_callee_return(g, b, callee_qn);
            lemma_callee_return(g, c, callee_qn);
        },
    }
}

/// Nothing of `g` is called by a name that `g` does not know.
proof fn lemma_unknown_callable(g: GraphView, d: GraphView, q: StringId, i: int)
    requires
        over(g, d),
        g.strings.text.len() <= q.0,
        0 <= i,
    ensures
        shown(g, callable_from(g.nodes, named(g, q), i)) is None,
    decreases named(g, q).len() - i,
{
    if i < named(g, q).len() {
        lemma_unknown_callable(g, d, q, i + 1);
        lemma_named_known(g, d, q, i);
        if live(g.nodes, named(g, q)[i]) is Some {
            assert(g.qn(named(g, q)[i]) is Some);
        }
    }
}

proof fn lemma_interfaces_push(
    slots: Seq<Slot>,
    found: Seq<NodeId>,
    es: Seq<EdgeView>,
    e: EdgeView,
    n: int,
)
    requires
        0 <= n <= es.len(),
    ensures
        with_interfaces(slots, found, es.push(e), n) == with_interfaces(slots, found, es, n),
    decreases n,
{
    if n > 0 {
        lemma_interfaces_push(slots, found, es, e, n - 1);
        assert(es.push(e)[n - 1] == es[n - 1]);
    }
}

proof fn lemma_interfaces_of(g: GraphView, d: GraphView, found: Seq<NodeId>, node: NodeId, n: int)
    requires
        over(g, d),
        was_there(g, d, node),
        0 <= n <= d.edges.edges.len(),
    ensures
        ({
            let k = if n <= g.edges.edges.len() {
                n
            } else {
                g.edges.edges.len() as int
            };
            let more = edges_out_of(d.edges.edges, node, n);
            let few = edges_out_of(g.edges.edges, node, k);
            with_interfaces(d.nodes, found, more, more.len() as int) == with_interfaces(
                g.nodes,
                found,
                few,
                few.len() as int,
            )
        }),
    decreases n,
{
    if n > 0 {
        lemma_interfaces_of(g, d, found, node, n - 1);
        let e = d.edges.edges[n - 1];
        let more = edges_out_of(d.edges.edges, node, n - 1);
        lemma_interfaces_push(d.nodes, found, more, e, more.len() as int);
        assert(more.push(e)[more.len() as int] == e);
        if n <= g.edges.edges.len() {
            assert(g.edges.edges[n - 1] == e);
            let few = edges_out_of(g.edges.edges, node, n - 1);
            lemma_interfaces_push(g.nodes, found, few, e, few.len() as int);
            assert(few.push(e)[few.len() as int] == e);
            assert(known(g, g, g.edges.edges[n - 1].target));
            assert(live(d.nodes, e.target) == live(g.nodes, e.target));
        } else if e.source == node && e.kind == EdgeKind::Inherits {
            assert(made(g, d, d.edges.edges[n - 1].source));
        }
    }
}

proof fn lemma_interfaces_there(g: GraphView, found: Seq<NodeId>, es: Seq<EdgeView>, n: int)
    ensures
        forall|i: int|
            0 <= i < with_interfaces(g.nodes, found, es, n).len() ==> i < found.len() && #[trigger]
                with_interfaces(g.nodes, found, es, n)[i] == found[i] || live(
                g.nodes,
                with_interfaces(g.nodes, found, es, n)[i],
            ) is Some,
    decreases n,
{
    if n > 0 {
        lemma_interfaces_there(g, found, es, n - 1);
        let before = with_interfaces(g.nodes, found, es, n - 1);
        let after = with_interfaces(g.nodes, found, es, n);
        assert forall|i: int| 0 <= i < after.len() implies i < found.len() && #[trigger] after[i]
            == found[i] || live(g.nodes, after[i]) is Some by {
            if i < before.len() {
                assert(after[i] == before[i]);
            }
        }
    }
}

/// The nodes are ones of `g`, where they are ones of `d` at all.
pub open spec fn all_were_there(g: GraphView, d: GraphView, nodes: Seq<NodeId>) -> bool {
    forall|i: int| 0 <= i < nodes.len() ==> was_there(g, d, #[trigger] nodes[i])
}

proof fn lemma_one_level_over(
    g: GraphView,
    d: GraphView,
    from: Seq<NodeId>,
    n: int,
)
    requires
        over(g, d),
        all_were_there(g, d, from),
        0 <= n <= from.len(),
    ensures
        one_level_more(d, from, false, n) == one_level_more(g, from, false, n),
        all_were_there(g, d, one_level_more(g, from, false, n)),
    decreases n,
{
    if n > 0 {
        lemma_one_level_over(g, d, from, n - 1);
        let before = one_level_more(g, from, false, n - 1);
        let node = from[n - 1];
        assert(was_there(g, d, from[n - 1]));
        lemma_interfaces_of(g, d, before, node, d.edges.edges.len() as int);
        lemma_interfaces_there(g, before, out_edges(g, node), out_edges(g, node).len() as int);
        let after = one_level_more(g, from, false, n);
        assert forall|i: int| 0 <= i < after.len() implies was_there(g, d, #[trigger] after[i]) by {
            if i < before.len() && after[i] == before[i] {
                assert(was_there(g, d, before[i]));
            }
        }
    }
}

/// An interface embeds the same interfaces in `d` as in `g`.
pub(crate) proof fn lemma_embedded_over(g: GraphView, d: GraphView, start: NodeId, depth: int)
    requires
        over(g, d),
        was_there(g, d, start),
    ensures
        embedded_interfaces(d, start, false, depth) == embedded_interfaces(g, start, false, depth),
        all_were_there(g, d, embedded_interfaces(g, start, false, depth)),
    decreases depth,
{
    if depth > 0 {
        lemma_embedded_over(g, d, start, depth - 1);
        let near = embedded_interfaces(g, start, false, depth - 1);
        lemma_one_level_over(g, d, near, near.len() as int);
    }
}

/// The index rows that `d` has besides those of `g` name no struct and no interface, and
/// no type but pointers and what is gone.
pub open spec fn plain_tail(g: GraphView, d: GraphView) -> bool {
    forall|k: int|
        g.indices.len() <= k < d.indices.len() ==> {
            let r = #[trigger] d.indices[k];
            &&& r.kind != NodeKind::Struct
            &&& r.kind != NodeKind::Interface
            &&& r.kind == NodeKind::Type ==> live(d.nodes, r.node) is None || is_pointer_form(
                d,
                r.node,
            )
        }
}

proof fn lemma_originals_push(
    d: GraphView,
    found: Seq<NodeId>,
    nodes: Seq<NodeId>,
    x: NodeId,
    n: int,
)
    requires
        0 <= n <= nodes.len(),
    ensures
        with_originals(d, found, nodes.push(x), n) == with_originals(d, found, nodes, n),
    decreases n,
{
    if n > 0 {
        lemma_originals_push(d, found, nodes, x, n - 1);
        assert(nodes.push(x)[n - 1] == nodes[n - 1]);
    }
}

/// The nodes of one kind among the first `n` index rows that are no pointers.
spec fn row_originals(d: GraphView, found: Seq<NodeId>, kind: NodeKind, n: int) -> Seq<NodeId> {
    let nodes = nodes_of_kind(d.indices, kind, n);
    with_originals(d, found, nodes, nodes.len() as int)
}

proof fn lemma_row_originals(d: GraphView, found: Seq<NodeId>, kind: NodeKind, n: int)
    requires
        0 < n <= d.indices.len(),
    ensures
        ({
            let r = d.indices[n - 1];
            row_originals(d, found, kind, n) == (if r.kind == kind && !is_pointer_form(
                d,
                r.node,
            ) {
                row_originals(d, found, kind, n - 1).push(r.node)
            } else {
                row_originals(d, found, kind, n - 1)
            })
        }),
{
    let before = nodes_of_kind(d.indices, kind, n - 1);
    let x = d.indices[n - 1].node;
    lemma_originals_push(d, found, before, x, before.len() as int);
    assert(before.push(x)[before.len() as int] == x);
}

proof fn lemma_early_originals(
    g: GraphView,
    d: GraphView,
    found: Seq<NodeId>,
    kind: NodeKind,
    n: int,
)
    requires
        over(g, d),
        all_were_there(g, d, found),
        0 <= n <= g.indices.len(),
    ensures
        row_originals(d, found, kind, n) == row_originals(g, found, kind, n),
        all_were_there(g, d, row_originals(g, found, kind, n)),
    decreases n,
{
    if n > 0 {
        lemma_early_originals(g, d, found, kind, n - 1);
        lemma_row_originals(g, found, kind, n);
        lemma_row_originals(d, found, kind, n);
        let x = g.indices[n - 1].node;
        assert(d.indices[n - 1] == g.indices[n - 1]);
        assert(was_there(g, d, g.indices[n - 1].node));
        if live(g.nodes, x) is Some {
            assert(live(d.nodes, x) == live(g.nodes, x));
        }
        assert(d.qn(x) == g.qn(x));
    }
}

proof fn lemma_late_originals(
    g: GraphView,
    d: GraphView,
    found: Seq<NodeId>,
    kind: NodeKind,
    n: int,
)
    requires
        over(g, d),
        plain_tail(g, d),
        all_were_there(g, d, found),
        kind == NodeKind::Struct || kind == NodeKind::Interface || kind == NodeKind::Type,
        g.indices.len() <= n <= d.indices.len(),
    ensures
        padded(
            d.nodes,
            row_originals(g, found, kind, g.indices.len() as int),
            row_originals(d, found, kind, n),
        ),
        kind != NodeKind::Type ==> row_originals(d, found, kind, n) == row_originals(
            g,
            found,
            kind,
            g.indices.len() as int,
        ),
    decreases n,
{
    let few = row_originals(g, found, kind, g.indices.len() as int);
    let more = row_originals(d, found, kind, n);
    if n > g.indices.len() {
        lemma_late_originals(g, d, found, kind, n - 1);
        lemma_row_originals(d, found, kind, n);
        assert(d.indices[n - 1].kind != NodeKind::Struct);
        assert(few =~= more.take(few.len() as int));
    } else {
        lemma_early_originals(g, d, found, kind, n);
    }
}

/// The nodes that can satisfy an interface, as the indices list them.
pub open spec fn originals(d: GraphView) -> Seq<NodeId> {
    let s = indexed(d, NodeKind::Struct);
    let i = indexed(d, NodeKind::Interface);
    let t = indexed(d, NodeKind::Type);
    with_originals(
        d,
        with_originals(
            d,
            with_originals(d, Seq::empty(), s, s.len() as int),
            i,
            i.len() as int,
        ),
        t,
        t.len() as int,
    )
}

proof fn lemma_originals(g: GraphView, d: GraphView)
    requires
        over(g, d),
        plain_tail(g, d),
    ensures
        padded(d.nodes, originals(g), originals(d)),
        all_were_there(g, d, originals(g)),
{
    let n = g.indices.len() as int;
    let m = d.indices.len() as int;
    let none = Seq::<NodeId>::empty();
    lemma_late_originals(g, d, none, NodeKind::Struct, m);
    lemma_early_originals(g, d, none, NodeKind::Struct, n);
    let s = row_originals(g, none, NodeKind::Struct, n);
    lemma_late_originals(g, d, s, NodeKind::Interface, m);
    lemma_early_originals(g, d, s, NodeKind::Interface, n);
    let i = row_originals(g, s, NodeKind::Interface, n);
    lemma_late_originals(g, d, i, NodeKind::Type, m);
    lemma_early_originals(g, d, i, NodeKind::Type, n);
}

/// `x` is one of the first `n` of `s`.
spec fn within(s: Seq<NodeId>, n: int, x: NodeId) -> bool {
    exists|k: int| 0 <= k < n && #[trigger] s[k] == x
}

proof fn lemma_in_order(s: Seq<NodeId>)
    ensures
        strictly_ascending(in_order(s)),
        forall|x: NodeId| s.contains(x) <==> #[trigger] within(in_order(s), in_order(s).len() as int, x),
{
    let r = sorted(s);
    let o = in_order(s);
    law_sorted_and_deduped_is_strict(s);
    law_deduped_keeps_keys(r, r.len() as int);
    assert forall|x: NodeId| s.contains(x) <==> #[trigger] within(o, o.len() as int, x) by {
        lemma_sorted_contains(s, x);
        if s.contains(x) {
            let i = r.index_of(x);
            assert(stands_in(deduped(r, r.len() as int), r[i]));
            if o.contains(x) {
                assert(o[o.index_of(x)] == x);
            } else {
                let k = choose|k: int| 0 <= k < o.len() && (#[trigger] o[k]).same_rank(x);
                assert(o[k] == x);
            }
        }
        if within(o, o.len() as int, x) {
            let k = choose|k: int| 0 <= k < o.len() && #[trigger] o[k] == x;
            assert(r.contains(deduped(r, r.len() as int)[k]));
        }
    }
}

/// Types that are not there are passed over.
proof fn lemma_passed_over(
    d: GraphView,
    p: PairState,
    idx: LocalView,
    few: Seq<NodeId>,
    more: Seq<NodeId>,
    interfaces: Seq<InterfaceView>,
    m: int,
    n: int,
)
    requires
        strictly_ascending(few),
        strictly_ascending(more),
        0 <= m <= few.len(),
        0 <= n <= more.len(),
        forall|i: int| 0 <= i < m ==> within(more, n, #[trigger] few[i]),
        forall|j: int|
            0 <= j < n ==> within(few, m, #[trigger] more[j]) || live(d.nodes, more[j]) is None,
    ensures
        with_types(d, p, idx, more, interfaces, n) == with_types(d, p, idx, few, interfaces, m),
        types_with_sets(d, idx, more, n) == types_with_sets(d, idx, few, m),
    decreases n,
{
    if n == 0 {
        if m > 0 {
            assert(within(more, n, few[0]));
        }
    } else {
        let z = more[n - 1];
        if m > 0 && few[m - 1] == z {
            assert forall|i: int| 0 <= i < m - 1 implies within(more, n - 1, #[trigger] few[i]) by {
                assert(within(more, n, few[i]));
                let k = choose|k: int| 0 <= k < n && #[trigger] more[k] == few[i];
                assert(few[i].ranks_before(few[m - 1]));
                assert(more[k] == few[i]);
            }
            assert forall|j: int| 0 <= j < n - 1 implies within(few, m - 1, #[trigger] more[j])
                || live(d.nodes, more[j]) is None by {
                assert(within(few, m, more[j]) || live(d.nodes, more[j]) is None);
                if within(few, m, more[j]) {
                    let k = choose|k: int| 0 <= k < m && #[trigger] few[k] == more[j];
                    assert(more[j].ranks_before(more[n - 1]));
                    assert(few[k] == more[j]);
                }
            }
            lemma_passed_over(d, p, idx, few, more, interfaces, m - 1, n - 1);
        } else {
            if within(few, m, z) {
                let k = choose|k: int| 0 <= k < m && #[trigger] few[k] == z;
                assert(few[k].ranks_before(few[m - 1]));
                assert(within(more, n, few[m - 1]));
                let j = choose|j: int| 0 <= j < n && #[trigger] more[j] == few[m - 1];
                if j < n - 1 {
                    assert(more[j].ranks_before(more[n - 1]));
                }
            }
            assert(within(few, m, more[n - 1]) || live(d.nodes, more[n - 1]) is None);
            assert forall|i: int| 0 <= i < m implies within(more, n - 1, #[trigger] few[i]) by {
                assert(within(more, n, few[i]));
                let k = choose|k: int| 0 <= k < n && #[trigger] more[k] == few[i];
                assert(within(few, m, few[i]));
                assert(more[k] == few[i]);
            }
            lemma_passed_over(d, p, idx, few, more, interfaces, m, n - 1);
            assert(method_sets(d, idx, z) is None);
        }
    }
}

/// `d` holds against interfaces what `g` does.
pub(crate) proof fn lemma_candidates_over(
    g: GraphView,
    d: GraphView,
    p: PairState,
    idx: LocalView,
    interfaces: Seq<InterfaceView>,
)
    requires
        over(g, d),
        plain_tail(g, d),
    ensures
        with_types(
            d,
            p,
            idx,
            candidate_types(d),
            interfaces,
            candidate_types(d).len() as int,
        ) == with_types(
            d,
            p,
            idx,
            candidate_types(g),
            interfaces,
            candidate_types(g).len() as int,
        ),
        types_with_sets(d, idx, candidate_types(d), candidate_types(d).len() as int)
            == types_with_sets(d, idx, candidate_types(g), candidate_types(g).len() as int),
        all_were_there(g, d, candidate_types(g)),
{
    lemma_originals(g, d);
    let few = originals(g);
    let more = originals(d);
    let a = candidate_types(g);
    let b = candidate_types(d);
    lemma_in_order(few);
    lemma_in_order(more);
    assert forall|i: int| 0 <= i < a.len() implies within(b, b.len() as int, #[trigger] a[i])
        && was_there(g, d, a[i]) by {
        assert(within(a, a.len() as int, a[i]));
        let k = few.index_of(a[i]);
        assert(was_there(g, d, few[k]));
        assert(more[k] == a[i]);
        assert(more.contains(a[i]));
    }
    assert forall|j: int| 0 <= j < b.len() implies within(a, a.len() as int, #[trigger] b[j]) || live(
        d.nodes,
        b[j],
    ) is None by {
        assert(within(b, b.len() as int, b[j]));
        let k = more.index_of(b[j]);
        if k < few.len() {
            assert(few[k] == b[j]);
            assert(few.contains(b[j]));
        } else {
            assert(live(d.nodes, more[k]) is None);
        }
    }
    lemma_passed_over(d, p, idx, a, b, interfaces, a.len() as int, b.len() as int);
}

} // verus!
