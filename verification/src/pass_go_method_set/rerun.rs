//! A later run of the pass starts where the first has started: what structs gain from the
//! types that they embed is the same again.

use vstd::prelude::*;

use crate::arena::{live, live_kind, Slot};
use crate::edges::{edges_into, edges_out_of, EdgeView};
use crate::graph::GraphView;
use crate::hints::{GoEmbeddingHint, SignatureView};
use crate::ids::{NodeId, StringId};
use crate::indices::{nodes_of_kind, nodes_of_qn, row_of};
use crate::kinds::{EdgeKind, NodeKind, Receiver};
use crate::pass_go_method_set::function_types::{
    callable_signature, converted, function_type_from, function_types, hinted_types,
    implements_type, signature_edges, type_signature, types_slot, with_entry, with_slot, with_slots,
    with_slots_of, PendingSignature,
};
use crate::pass_go_method_set::lookup::{
    alias_target, best_type, embedded_interfaces, flattened_methods, members_among, methods_of,
    methods_of_all, named, one_level_more, out_edges, type_named, type_with_text, underlying_from,
    with_interfaces, MAX_INTERFACE_EMBED_DEPTH, MethodRef,
};
use crate::pass_go_method_set::materialise::GainView;
use crate::pass_go_method_set::ownership::{
    all_vacated, law_tombstone_twice_is_tombstone_once, owned_nodes, tombstoned, untouched,
};
use crate::pass_go_method_set::promotion::{
    blocked_count, candidates_from, chained, companion, contributed, contributed_methods,
    declared_receiver, embeddings_of, embeds_of, enters, goes_on, harvest, harvest_below,
    interface_from, methods_name, names_of, promotions, Embed, Embedder, Embedding,
    MAX_PROMOTION_DEPTH,
};
use crate::pass_go_method_set::satisfaction::{indexed, signature_at};
use crate::pass_go_method_set::satisfaction_laws::has_package;
use crate::pass_go_method_set::shadow::file_of;
use crate::pass_go_method_set::steady::lemma_best_member;
use crate::pass_go_method_set::undo::{
    adds_knowably, gains_plainly, known, law_taking_back_undoes_the_pass, lemma_known_nodes,
    lemma_pass_steps, made, named_on, pass_edge, passed, plainly_gained, sound, steps,
};
use crate::pass_go_method_set::{
    after_pass, after_satisfaction, all_embeddings, blocked_total, embedding_structs, gains_of,
    pass_counts,
};
use crate::strings::slot_from;

verus! {

/// Every index row of a node that is there says what the node is.
pub open spec fn indexed_truly(g: GraphView) -> bool {
    forall|i: int|
        0 <= i < g.indices.len() && live(g.nodes, (#[trigger] g.indices[i]).node) is Some
            ==> g.indices[i] == row_of(
            g.indices[i].node,
            live(g.nodes, g.indices[i].node)->0,
        )
}

/// `t` has the nodes, edges and hints of `g`; it may know more strings, and have index
/// rows of nodes that are not there.
pub open spec fn like(g: GraphView, t: GraphView) -> bool {
    &&& forall|id: NodeId| #[trigger] live(t.nodes, id) == live(g.nodes, id)
    &&& forall|id: NodeId| passed(g, id) ==> #[trigger] passed(t, id)
    &&& t.edges.edges == g.edges.edges
    &&& t.hints == g.hints
    &&& g.strings.text.is_prefix_of(t.strings.text)
    &&& g.indices.is_prefix_of(t.indices)
    &&& forall|i: int|
        g.indices.len() <= i < t.indices.len() ==> live(
            g.nodes,
            (#[trigger] t.indices[i]).node,
        ) is None
}

/// Nothing among `nodes` from position `n` on is there.
pub open spec fn gone_from(slots: Seq<Slot>, nodes: Seq<NodeId>, n: int) -> bool {
    forall|i: int| n <= i < nodes.len() ==> live(slots, #[trigger] nodes[i]) is None
}

/// `more` is `nodes`, and behind them nodes that are not there.
pub open spec fn padded(slots: Seq<Slot>, nodes: Seq<NodeId>, more: Seq<NodeId>) -> bool {
    nodes.is_prefix_of(more) && gone_from(slots, more, nodes.len() as int)
}

pub(crate) proof fn lemma_same_qn(g: GraphView, t: GraphView, id: NodeId)
    requires
        like(g, t),
        sound(g),
    ensures
        t.qn(id) == g.qn(id),
{
    assert(live(t.nodes, id) == live(g.nodes, id));
    if live(g.nodes, id) is Some {
        if let Some(q) = live(g.nodes, id)->0.qualified_name {
            assert(g.strings.text[q.0 as int] == t.strings.text[q.0 as int]);
        }
    }
}

proof fn lemma_same_kind(g: GraphView, t: GraphView, id: NodeId)
    requires
        like(g, t),
    ensures
        live_kind(t.nodes, id) == live_kind(g.nodes, id),
{
    assert(live(t.nodes, id) == live(g.nodes, id));
}

proof fn lemma_kind_prefix(g: GraphView, t: GraphView, kind: NodeKind, n: int)
    requires
        like(g, t),
        0 <= n <= g.indices.len(),
    ensures
        nodes_of_kind(t.indices, kind, n) == nodes_of_kind(g.indices, kind, n),
    decreases n,
{
    if n > 0 {
        lemma_kind_prefix(g, t, kind, n - 1);
        assert(g.indices[n - 1] == t.indices[n - 1]);
    }
}

proof fn lemma_kind_grows(g: GraphView, t: GraphView, kind: NodeKind, n: int)
    requires
        like(g, t),
        g.indices.len() <= n <= t.indices.len(),
    ensures
        padded(
            g.nodes,
            nodes_of_kind(g.indices, kind, g.indices.len() as int),
            nodes_of_kind(t.indices, kind, n),
        ),
    decreases n,
{
    let few = nodes_of_kind(g.indices, kind, g.indices.len() as int);
    let more = nodes_of_kind(t.indices, kind, n);
    if n > g.indices.len() {
        lemma_kind_grows(g, t, kind, n - 1);
        assert(live(g.nodes, t.indices[n - 1].node) is None);
        assert(few =~= more.take(few.len() as int));
    } else {
        lemma_kind_prefix(g, t, kind, n);
    }
}

proof fn lemma_named_prefix(g: GraphView, t: GraphView, qn: StringId, n: int)
    requires
        like(g, t),
        0 <= n <= g.indices.len(),
    ensures
        nodes_of_qn(t.indices, qn, n) == nodes_of_qn(g.indices, qn, n),
    decreases n,
{
    if n > 0 {
        lemma_named_prefix(g, t, qn, n - 1);
        assert(g.indices[n - 1] == t.indices[n - 1]);
    }
}

proof fn lemma_named_grows(g: GraphView, t: GraphView, qn: StringId, n: int)
    requires
        like(g, t),
        g.indices.len() <= n <= t.indices.len(),
    ensures
        padded(g.nodes, named(g, qn), nodes_of_qn(t.indices, qn, n)),
    decreases n,
{
    let few = named(g, qn);
    let more = nodes_of_qn(t.indices, qn, n);
    if n > g.indices.len() {
        lemma_named_grows(g, t, qn, n - 1);
        assert(live(g.nodes, t.indices[n - 1].node) is None);
        assert(few =~= more.take(few.len() as int));
    } else {
        lemma_named_prefix(g, t, qn, n);
    }
}

proof fn lemma_best_type(g: GraphView, t: GraphView, few: Seq<NodeId>, more: Seq<NodeId>, n: int)
    requires
        like(g, t),
        padded(g.nodes, few, more),
        0 <= n <= more.len(),
    ensures
        best_type(t.nodes, more, n) == best_type(
            g.nodes,
            few,
            if n <= few.len() {
                n
            } else {
                few.len() as int
            },
        ),
    decreases n,
{
    if n > 0 {
        lemma_best_type(g, t, few, more, n - 1);
        lemma_same_kind(g, t, more[n - 1]);
        if let Some(b) = best_type(t.nodes, more, n - 1) {
            lemma_same_kind(g, t, b);
        }
        if n <= few.len() {
            assert(few[n - 1] == more[n - 1]);
        } else {
            assert(live(g.nodes, more[n - 1]) is None);
        }
    }
}

proof fn lemma_type_named(g: GraphView, t: GraphView, qn: StringId)
    requires
        like(g, t),
    ensures
        type_named(t, qn) == type_named(g, qn),
{
    lemma_named_grows(g, t, qn, t.indices.len() as int);
    lemma_best_type(g, t, named(g, qn), named(t, qn), named(t, qn).len() as int);
}

proof fn lemma_embeddings(g: GraphView, t: GraphView, hints: Seq<GoEmbeddingHint>, n: int)
    requires
        like(g, t),
    ensures
        embeddings_of(t, hints, n) == embeddings_of(g, hints, n),
    decreases n,
{
    if n > 0 {
        lemma_embeddings(g, t, hints, n - 1);
        lemma_type_named(g, t, hints[n - 1].inner_qualified_name);
    }
}

proof fn lemma_members_among(
    g: GraphView,
    t: GraphView,
    type_qn: Seq<char>,
    few: Seq<NodeId>,
    more: Seq<NodeId>,
    n: int,
)
    requires
        like(g, t),
        sound(g),
        padded(g.nodes, few, more),
        0 <= n <= more.len(),
    ensures
        members_among(t, type_qn, more, n) == members_among(
            g,
            type_qn,
            few,
            if n <= few.len() {
                n
            } else {
                few.len() as int
            },
        ),
    decreases n,
{
    if n > 0 {
        lemma_members_among(g, t, type_qn, few, more, n - 1);
        lemma_same_qn(g, t, more[n - 1]);
        assert(live(t.nodes, more[n - 1]) == live(g.nodes, more[n - 1]));
        if n <= few.len() {
            assert(few[n - 1] == more[n - 1]);
        } else {
            assert(live(g.nodes, more[n - 1]) is None);
        }
    }
}

proof fn lemma_methods_of(g: GraphView, t: GraphView, type_qn: Seq<char>)
    requires
        like(g, t),
        sound(g),
    ensures
        methods_of(t, type_qn) == methods_of(g, type_qn),
{
    let few = nodes_of_kind(g.indices, NodeKind::Method, g.indices.len() as int);
    let more = nodes_of_kind(t.indices, NodeKind::Method, t.indices.len() as int);
    lemma_kind_grows(g, t, NodeKind::Method, t.indices.len() as int);
    lemma_members_among(g, t, type_qn, few, more, more.len() as int);
}

proof fn lemma_underlying(
    g: GraphView,
    t: GraphView,
    edges: Seq<EdgeView>,
    own: Seq<char>,
    i: int,
)
    requires
        like(g, t),
        sound(g),
    ensures
        underlying_from(t, edges, own, i) == underlying_from(g, edges, own, i),
    decreases edges.len() - i,
{
    if 0 <= i < edges.len() {
        lemma_same_qn(g, t, edges[i].target);
        lemma_underlying(g, t, edges, own, i + 1);
    }
}

proof fn lemma_with_interfaces(
    g: GraphView,
    t: GraphView,
    found: Seq<NodeId>,
    edges: Seq<EdgeView>,
    n: int,
)
    requires
        like(g, t),
    ensures
        with_interfaces(t.nodes, found, edges, n)
            == with_interfaces(g.nodes, found, edges, n),
    decreases n,
{
    if n > 0 {
        lemma_with_interfaces(g, t, found, edges, n - 1);
        lemma_same_kind(g, t, edges[n - 1].target);
    }
}

proof fn lemma_one_level(g: GraphView, t: GraphView, from: Seq<NodeId>, named_only: bool, n: int)
    requires
        like(g, t),
        sound(g),
    ensures
        one_level_more(t, from, named_only, n) == one_level_more(g, from, named_only, n),
    decreases n,
{
    if n > 0 {
        lemma_one_level(g, t, from, named_only, n - 1);
        lemma_same_qn(g, t, from[n - 1]);
        let out = out_edges(g, from[n - 1]);
        lemma_with_interfaces(
            g,
            t,
            one_level_more(g, from, named_only, n - 1),
            out,
            out.len() as int,
        );
    }
}

proof fn lemma_embedded_interfaces(
    g: GraphView,
    t: GraphView,
    start: NodeId,
    named_only: bool,
    depth: int,
)
    requires
        like(g, t),
        sound(g),
    ensures
        embedded_interfaces(t, start, named_only, depth) == embedded_interfaces(
            g,
            start,
            named_only,
            depth,
        ),
    decreases depth,
{
    if depth > 0 {
        lemma_embedded_interfaces(g, t, start, named_only, depth - 1);
        let near = embedded_interfaces(g, start, named_only, depth - 1);
        lemma_one_level(g, t, near, named_only, near.len() as int);
    }
}

proof fn lemma_methods_of_all(g: GraphView, t: GraphView, types: Seq<NodeId>, n: int)
    requires
        like(g, t),
        sound(g),
    ensures
        methods_of_all(t, types, n) == methods_of_all(g, types, n),
    decreases n,
{
    if n > 0 {
        lemma_methods_of_all(g, t, types, n - 1);
        lemma_same_qn(g, t, types[n - 1]);
        if let Some(qn) = g.qn(types[n - 1]) {
            lemma_methods_of(g, t, qn);
        }
    }
}

proof fn lemma_flattened(g: GraphView, t: GraphView, start: NodeId)
    requires
        like(g, t),
        sound(g),
    ensures
        flattened_methods(t, start) == flattened_methods(g, start),
{
    lemma_embedded_interfaces(g, t, start, true, MAX_INTERFACE_EMBED_DEPTH - 1);
    let all = embedded_interfaces(g, start, true, MAX_INTERFACE_EMBED_DEPTH - 1);
    lemma_methods_of_all(g, t, all, all.len() as int);
}

proof fn lemma_interface_from(
    g: GraphView,
    t: GraphView,
    few: Seq<NodeId>,
    more: Seq<NodeId>,
    i: int,
)
    requires
        like(g, t),
        padded(g.nodes, few, more),
        0 <= i,
    ensures
        interface_from(t, more, i) == interface_from(g, few, i),
    decreases more.len() - i,
{
    if i < more.len() {
        lemma_interface_from(g, t, few, more, i + 1);
        lemma_same_kind(g, t, more[i]);
        if i < few.len() {
            assert(few[i] == more[i]);
        } else {
            assert(live(g.nodes, more[i]) is None);
        }
    }
}

/// The first slot that holds a text is the same in a longer table.
pub(crate) proof fn lemma_slot_prefix(
    a: Seq<Option<Seq<char>>>,
    b: Seq<Option<Seq<char>>>,
    s: Seq<char>,
    i: int,
)
    requires
        a.is_prefix_of(b),
        0 <= i <= a.len(),
    ensures
        slot_from(a, s, i) is Some ==> slot_from(b, s, i) == slot_from(a, s, i),
        slot_from(a, s, i) is None ==> match slot_from(b, s, i) {
            Some(k) => a.len() <= k < b.len(),
            None => true,
        },
    decreases b.len() - i,
{
    if i < a.len() {
        assert(a[i] == b[i]);
        lemma_slot_prefix(a, b, s, i + 1);
    } else {
        lemma_slot_range(b, s, i);
    }
}

proof fn lemma_slot_range(b: Seq<Option<Seq<char>>>, s: Seq<char>, i: int)
    requires
        0 <= i,
    ensures
        slot_from(b, s, i) matches Some(k) ==> i <= k < b.len(),
    decreases b.len() - i,
{
    if i < b.len() {
        lemma_slot_range(b, s, i + 1);
    }
}

proof fn lemma_interface_named(g: GraphView, nodes: Seq<NodeId>, i: int)
    requires
        0 <= i,
        gone_from(g.nodes, nodes, 0),
    ensures
        interface_from(g, nodes, i) is None,
    decreases nodes.len() - i,
{
    if i < nodes.len() {
        assert(live(g.nodes, nodes[i]) is None);
        lemma_interface_named(g, nodes, i + 1);
    }
}

/// Nothing that is there goes by a name that is not known.
proof fn lemma_unknown_name(g: GraphView, qn: StringId, n: int)
    requires
        sound(g),
        indexed_truly(g),
        qn.0 >= g.strings.text.len(),
        0 <= n <= g.indices.len(),
    ensures
        gone_from(g.nodes, nodes_of_qn(g.indices, qn, n), 0),
    decreases n,
{
    if n > 0 {
        lemma_unknown_name(g, qn, n - 1);
        let row = g.indices[n - 1];
        if live(g.nodes, row.node) is Some {
            assert(g.indices[n - 1] == row_of(row.node, live(g.nodes, row.node)->0));
        }
    }
}

proof fn lemma_companion(g: GraphView, t: GraphView, inner: NodeId, name: Seq<char>)
    requires
        like(g, t),
        sound(g),
        t.strings.wf(),
        indexed_truly(g),
    ensures
        companion(t, inner, name) == companion(g, inner, name),
{
    lemma_same_kind(g, t, inner);
    lemma_slot_prefix(g.strings.text, t.strings.text, name, 0);
    match t.strings.get(name) {
        Some(qn) => {
            lemma_named_grows(g, t, qn, t.indices.len() as int);
            lemma_interface_from(g, t, named(g, qn), named(t, qn), 0);
            if g.strings.get(name) is None {
                lemma_unknown_name(g, qn, g.indices.len() as int);
                lemma_interface_named(g, named(g, qn), 0);
            }
        },
        None => {},
    }
}

/// A text names a type of `t` only where it names one of `g`.
pub(crate) proof fn lemma_text_like(g: GraphView, t: GraphView, text: Seq<char>)
    requires
        like(g, t),
        sound(g),
        indexed_truly(g),
        t.strings.wf(),
        type_with_text(t, text) is Some,
    ensures
        type_with_text(g, text) is Some,
        t.strings.get(text) == g.strings.get(text),
{
    lemma_slot_prefix(g.strings.text, t.strings.text, text, 0);
    let q = t.strings.get(text)->0;
    lemma_type_named(g, t, q);
    lemma_best_member(g.nodes, named(g, q), named(g, q).len() as int);
    if g.strings.get(text) is None {
        lemma_unknown_name(g, q, g.indices.len() as int);
        let i = named(g, q).index_of(type_named(g, q)->0);
        assert(live(g.nodes, named(g, q)[i]) is None);
    }
    lemma_named_grows(g, t, q, t.indices.len() as int);
    assert forall|i: int| 0 <= i < named(g, q).len() implies live(
        g.nodes,
        #[trigger] named(g, q)[i],
    ) is Some by {
        let x = named(t, q)[i];
        assert(live(t.nodes, named(t, q)[i]) is Some);
        assert(live(t.nodes, x) == live(g.nodes, x));
    }
}

proof fn lemma_contributed_methods(g: GraphView, t: GraphView, inner: NodeId, own: Seq<char>)
    requires
        like(g, t),
        sound(g),
        t.strings.wf(),
        indexed_truly(g),
    ensures
        contributed_methods(t, inner, own) == contributed_methods(g, inner, own),
{
    lemma_same_kind(g, t, inner);
    lemma_underlying(g, t, out_edges(g, inner), own, 0);
    assert(alias_target(t, inner, own) == alias_target(g, inner, own));
    let name = methods_name(g, inner, own);
    lemma_companion(g, t, inner, name);
    lemma_methods_of(g, t, name);
    if let Some(iface) = companion(g, inner, name) {
        lemma_flattened(g, t, iface);
    }
}

proof fn lemma_enters(x: Embedder, y: Embedder, inner: NodeId, path: Seq<NodeId>)
    requires
        like(x.g, y.g),
        sound(x.g),
    ensures
        enters(y, inner, path) == enters(x, inner, path),
{
    lemma_same_qn(x.g, y.g, inner);
}

proof fn lemma_candidates(
    x: Embedder,
    y: Embedder,
    methods: Seq<MethodRef>,
    path: Seq<NodeId>,
    depth: int,
    chain: Receiver,
    n: int,
)
    requires
        x.g.hints == y.g.hints,
        x.own == y.own,
    ensures
        candidates_from(y, methods, path, depth, chain, n) == candidates_from(
            x,
            methods,
            path,
            depth,
            chain,
            n,
        ),
    decreases n,
{
    if n > 0 {
        lemma_candidates(x, y, methods, path, depth, chain, n - 1);
        assert(declared_receiver(y.g, methods[n - 1].node) == declared_receiver(
            x.g,
            methods[n - 1].node,
        ));
    }
}

/// Two walks that find the same.
spec fn walk_alike(x: Embedder, y: Embedder) -> bool {
    &&& like(x.g, y.g)
    &&& sound(x.g)
    &&& y.g.strings.wf()
    &&& indexed_truly(x.g)
    &&& x.embeddings == y.embeddings
    &&& x.own == y.own
}

proof fn lemma_contributed(
    x: Embedder,
    y: Embedder,
    embeds: Seq<Embed>,
    depth: int,
    chain: Receiver,
    path: Seq<NodeId>,
    n: int,
)
    requires
        walk_alike(x, y),
    ensures
        contributed(y, embeds, depth, chain, path, n) == contributed(
            x,
            embeds,
            depth,
            chain,
            path,
            n,
        ),
    decreases n,
{
    if n > 0 {
        lemma_contributed(x, y, embeds, depth, chain, path, n - 1);
        let e = embeds[n - 1];
        lemma_enters(x, y, e.inner, path);
        lemma_same_qn(x.g, y.g, e.inner);
        if enters(x, e.inner, path) {
            let own = x.g.qn(e.inner)->0;
            lemma_contributed_methods(x.g, y.g, e.inner, own);
            let methods = contributed_methods(x.g, e.inner, own);
            lemma_candidates(
                x,
                y,
                methods,
                path.push(e.inner),
                depth + 1,
                chained(chain, e.pointerness),
                methods.len() as int,
            );
        }
    }
}

proof fn lemma_goes_on(x: Embedder, y: Embedder, embeds: Seq<Embed>, path: Seq<NodeId>)
    requires
        walk_alike(x, y),
    ensures
        goes_on(y, embeds, path) == goes_on(x, embeds, path),
{
    assert forall|i: int| 0 <= i < embeds.len() implies enters(
        y,
        (#[trigger] embeds[i]).inner,
        path,
    ) == enters(x, embeds[i].inner, path) by {
        lemma_enters(x, y, embeds[i].inner, path);
    }
}

proof fn lemma_harvest(
    x: Embedder,
    y: Embedder,
    cur: NodeId,
    depth: int,
    chain: Receiver,
    path: Seq<NodeId>,
)
    requires
        walk_alike(x, y),
    ensures
        harvest(y, cur, depth, chain, path) == harvest(x, cur, depth, chain, path),
    decreases MAX_PROMOTION_DEPTH - depth, 1int, 0int,
{
    let embeds = embeds_of(x.embeddings, cur);
    let n = embeds.len() as int;
    lemma_goes_on(x, y, embeds, path);
    if depth < MAX_PROMOTION_DEPTH {
        lemma_contributed(x, y, embeds, depth, chain, path, n);
        lemma_harvest_below(x, y, embeds, depth, chain, path, n);
    }
}

proof fn lemma_harvest_below(
    x: Embedder,
    y: Embedder,
    embeds: Seq<Embed>,
    depth: int,
    chain: Receiver,
    path: Seq<NodeId>,
    n: int,
)
    requires
        walk_alike(x, y),
    ensures
        harvest_below(y, embeds, depth, chain, path, n) == harvest_below(
            x,
            embeds,
            depth,
            chain,
            path,
            n,
        ),
    decreases MAX_PROMOTION_DEPTH - depth, 0int, n,
{
    if n > 0 && depth < MAX_PROMOTION_DEPTH {
        lemma_harvest_below(x, y, embeds, depth, chain, path, n - 1);
        let e = embeds[n - 1];
        lemma_enters(x, y, e.inner, path);
        if enters(x, e.inner, path) {
            lemma_harvest(
                x,
                y,
                e.inner,
                depth + 1,
                chained(chain, e.pointerness),
                path.push(e.inner),
            );
        }
    }
}

proof fn lemma_promotions(
    g: GraphView,
    t: GraphView,
    embeddings: Seq<Embedding>,
    outer: NodeId,
)
    requires
        like(g, t),
        sound(g),
        t.strings.wf(),
        indexed_truly(g),
    ensures
        promotions(t, embeddings, outer) == promotions(g, embeddings, outer),
        blocked_count(t, embeddings, outer) == blocked_count(g, embeddings, outer),
{
    lemma_same_qn(g, t, outer);
    if let Some(qn) = g.qn(outer) {
        lemma_methods_of(g, t, qn);
        let own = names_of(methods_of(g, qn));
        let x = Embedder { g, embeddings, own };
        let y = Embedder { g: t, embeddings, own };
        lemma_harvest(x, y, outer, 0, Receiver::Value, seq![outer]);
    }
}

proof fn lemma_blocked_total(g: GraphView, t: GraphView, outers: Seq<NodeId>, n: int)
    requires
        like(g, t),
        sound(g),
        t.strings.wf(),
        indexed_truly(g),
        all_embeddings(t) == all_embeddings(g),
    ensures
        blocked_total(t, outers, n) == blocked_total(g, outers, n),
    decreases n,
{
    if n > 0 {
        lemma_blocked_total(g, t, outers, n - 1);
        lemma_promotions(g, t, all_embeddings(g), outers[n - 1]);
    }
}

/// The signature hints speak of nodes that are there or are gone for good.
pub open spec fn hinted_truly(g: GraphView) -> bool {
    &&& forall|i: int|
        0 <= i < g.hints.method_signatures.len() ==> known(
            g,
            g,
            (#[trigger] g.hints.method_signatures[i]).node,
        )
    &&& forall|i: int|
        0 <= i < g.hints.function_signatures.len() ==> known(
            g,
            g,
            (#[trigger] g.hints.function_signatures[i]).node,
        )
}

/// What a run of the pass needs to be undone and done again: the graph holds together and
/// holds nothing of the pass, and what the pass gives a name to, it knows again by that.
pub open spec fn ready(g: GraphView) -> bool {
    &&& sound(g)
    &&& untouched(g)
    &&& gains_plainly(g)
    &&& indexed_truly(g)
    &&& hinted_truly(g)
}

/// The graph that a run gives back is like the one on which it has started.
pub(crate) proof fn lemma_given_back(g: GraphView)
    requires
        ready(g),
        adds_knowably(g),
    ensures
        like(g, tombstoned(after_pass(g))),
        tombstoned(after_pass(g)).strings.wf(),
        indexed(tombstoned(after_pass(g)), NodeKind::Interface) == indexed(
            g,
            NodeKind::Interface,
        ),
        tombstoned(after_pass(g)).files == g.files,
        tombstoned(after_pass(g)).nodes.len() == after_pass(g).nodes.len(),
        untouched(tombstoned(after_pass(g))),
{
    let a = after_pass(g);
    let t = tombstoned(a);
    lemma_pass_steps(g);
    law_taking_back_undoes_the_pass(g);
    assert forall|i: int| g.indices.len() <= i < t.indices.len() implies live(
        g.nodes,
        (#[trigger] t.indices[i]).node,
    ) is None by {
        assert(made(g, a, a.indices[i].node));
    }
    law_tombstone_twice_is_tombstone_once(a);
    let dead = owned_nodes(a, a.nodes.len() as int);
    lemma_all_vacated_len(a.nodes, dead, dead.len() as int);
    assert forall|id: NodeId| passed(g, id) implies #[trigger] passed(t, id) by {
        assert(a.nodes[id.index as int].generation == g.nodes[id.index as int].generation);
    }
}

proof fn lemma_all_vacated_len(slots: Seq<Slot>, dead: Seq<NodeId>, n: int)
    ensures
        all_vacated(slots, dead, n).len() == slots.len(),
        forall|i: int|
            0 <= i < slots.len() ==> slots[i].generation <= (#[trigger] all_vacated(
                slots,
                dead,
                n,
            )[i]).generation,
    decreases n,
{
    if n > 0 {
        lemma_all_vacated_len(slots, dead, n - 1);
    }
}

/// After a run was taken back, a further run finds what the first has found: the same
/// structs embed something, each gains the same methods, and as many promotions are
/// blocked.
pub proof fn law_later_run_promotes_the_same(g: GraphView)
    requires
        ready(g),
        adds_knowably(g),
    ensures
        ({
            let t = tombstoned(after_pass(g));
            &&& embedding_structs(t) == embedding_structs(g)
            &&& gains_of(t, embedding_structs(t)) == gains_of(g, embedding_structs(g))
            &&& pass_counts(t).ambiguity_blocked_promotions == pass_counts(
                g,
            ).ambiguity_blocked_promotions
        }),
{
    let t = tombstoned(after_pass(g));
    lemma_given_back(g);
    lemma_embeddings(g, t, g.hints.embeddings, g.hints.embeddings.len() as int);
    let outers = embedding_structs(g);
    assert forall|i: int| 0 <= i < outers.len() implies gains_of(t, outers)[i] == gains_of(
        g,
        outers,
    )[i] by {
        lemma_promotions(g, t, all_embeddings(g), outers[i]);
    }
    assert(gains_of(t, outers) =~= gains_of(g, outers));
    lemma_blocked_total(g, t, outers, outers.len() as int);
}

proof fn lemma_sound_like(g: GraphView, t: GraphView)
    requires
        sound(g),
        like(g, t),
        t.strings.wf(),
        t.files == g.files,
    ensures
        sound(t),
{
    assert forall|id: NodeId| (#[trigger] live(t.nodes, id)) is Some implies (live(
        t.nodes,
        id,
    )->0.qualified_name matches Some(q) ==> q.0 < t.strings.text.len()) by {
        assert(live(t.nodes, id) == live(g.nodes, id));
    }
    assert forall|i: int| 0 <= i < t.edges.edges.len() implies known(
        t,
        t,
        (#[trigger] t.edges.edges[i]).source,
    ) && known(t, t, t.edges.edges[i].target) by {
        let e = g.edges.edges[i];
        assert(known(g, g, g.edges.edges[i].source));
        lemma_still_known(g, t, e.source);
        lemma_still_known(g, t, e.target);
    }
    assert forall|i: int| 0 <= i < t.files.buckets.len() implies known(
        t,
        t,
        (#[trigger] t.files.buckets[i]).node,
    ) by {
        lemma_still_known(g, t, g.files.buckets[i].node);
    }
}

proof fn lemma_truly_like(g: GraphView, t: GraphView)
    requires
        like(g, t),
        indexed_truly(g),
        hinted_truly(g),
    ensures
        indexed_truly(t),
        hinted_truly(t),
{
    assert forall|i: int| 0 <= i < t.indices.len() && live(
        t.nodes,
        (#[trigger] t.indices[i]).node,
    ) is Some implies t.indices[i] == row_of(
        t.indices[i].node,
        live(t.nodes, t.indices[i].node)->0,
    ) by {
        let node = t.indices[i].node;
        assert(live(t.nodes, node) == live(g.nodes, node));
        if i < g.indices.len() {
            assert(t.indices[i] == g.indices[i]);
        }
    }
    assert forall|i: int| 0 <= i < t.hints.method_signatures.len() implies known(
        t,
        t,
        (#[trigger] t.hints.method_signatures[i]).node,
    ) by {
        lemma_still_known(g, t, g.hints.method_signatures[i].node);
    }
    assert forall|i: int| 0 <= i < t.hints.function_signatures.len() implies known(
        t,
        t,
        (#[trigger] t.hints.function_signatures[i]).node,
    ) by {
        lemma_still_known(g, t, g.hints.function_signatures[i].node);
    }
}

proof fn lemma_plainly_like(g: GraphView, t: GraphView, outer: NodeId, gain: GainView)
    requires
        sound(g),
        like(g, t),
        plainly_gained(g, outer, gain),
    ensures
        plainly_gained(t, outer, gain),
{
    lemma_same_qn(g, t, outer);
    assert forall|k: int| 0 <= k < gain.value.len() implies (#[trigger] gain.value[k]).name.0
        < t.strings.text.len() && (has_package(t, outer) ==> named_on(
        t,
        t.qn(outer)->0,
        gain.value[k],
    )) by {
        lemma_same_text(g, t, gain.value[k].name);
    }
}

/// The graph that a run gives back is ready for a further run.
pub proof fn law_given_back_ready(g: GraphView)
    requires
        ready(g),
        adds_knowably(g),
    ensures
        ready(tombstoned(after_pass(g))),
{
    let t = tombstoned(after_pass(g));
    lemma_given_back(g);
    law_later_run_promotes_the_same(g);
    lemma_sound_like(g, t);
    lemma_truly_like(g, t);
    reveal(gains_plainly);
    assert forall|i: int| 0 <= i < embedding_structs(t).len() implies plainly_gained(
        t,
        embedding_structs(t)[i],
        #[trigger] gains_of(t, embedding_structs(t))[i],
    ) by {
        lemma_plainly_like(
            g,
            t,
            embedding_structs(g)[i],
            gains_of(g, embedding_structs(g))[i],
        );
    }
}

pub(crate) proof fn lemma_still_known(g: GraphView, t: GraphView, id: NodeId)
    requires
        like(g, t),
        known(g, g, id),
    ensures
        known(t, t, id),
{
    assert(live(t.nodes, id) == live(g.nodes, id));
    if passed(g, id) {
        assert(passed(t, id));
    }
}

proof fn lemma_same_text(g: GraphView, t: GraphView, q: StringId)
    requires
        like(g, t),
        q.0 < g.strings.text.len(),
    ensures
        t.strings.resolve(q) == g.strings.resolve(q),
{
    assert(g.strings.text[q.0 as int] == t.strings.text[q.0 as int]);
}

/// `d` has everything that `g` has, and besides it nodes that no signature hint speaks of,
/// edges that type nothing and refer to none of the nodes of `g`, and index rows of nodes
/// that `g` does not have.
pub open spec fn beyond(g: GraphView, d: GraphView) -> bool {
    &&& d.hints == g.hints
    &&& forall|id: NodeId|
        (#[trigger] live(g.nodes, id)) is Some ==> live(d.nodes, id) == live(g.nodes, id) && d.qn(
            id,
        ) == g.qn(id)
    &&& forall|id: NodeId| passed(g, id) ==> (#[trigger] live(d.nodes, id)) is None
    &&& g.edges.edges.is_prefix_of(d.edges.edges)
    &&& forall|i: int|
        g.edges.edges.len() <= i < d.edges.edges.len() ==> {
            &&& (#[trigger] d.edges.edges[i]).kind !is TypeOf
            &&& d.edges.edges[i].kind == EdgeKind::References ==> live(
                g.nodes,
                d.edges.edges[i].target,
            ) is None
        }
    &&& g.indices.is_prefix_of(d.indices)
    &&& forall|i: int|
        g.indices.len() <= i < d.indices.len() ==> live(
            g.nodes,
            (#[trigger] d.indices[i]).node,
        ) is None
}

pub(crate) proof fn lemma_unhinted(hints: Seq<SignatureView>, node: NodeId, n: int)
    requires
        0 <= n <= hints.len(),
        forall|i: int| 0 <= i < hints.len() ==> (#[trigger] hints[i]).node != node,
    ensures
        signature_at(hints, node, n) is None,
    decreases n,
{
    if n > 0 {
        lemma_unhinted(hints, node, n - 1);
        assert(hints[n - 1].node != node);
    }
}

proof fn lemma_signatures_beyond(g: GraphView, d: GraphView, node: NodeId)
    requires
        beyond(g, d),
        hinted_truly(g),
    ensures
        type_signature(d, node) == type_signature(g, node),
        callable_signature(d, node) == callable_signature(g, node),
        live(g.nodes, node) is None ==> type_signature(d, node) is None && callable_signature(
            d,
            node,
        ) is None,
{
    if known(g, g, node) {
        assert(live(d.nodes, node) == live(g.nodes, node));
    } else {
        let m = g.hints.method_signatures;
        let f = g.hints.function_signatures;
        assert forall|i: int| 0 <= i < m.len() implies (#[trigger] m[i]).node != node by {
            assert(known(g, g, g.hints.method_signatures[i].node));
        }
        assert forall|i: int| 0 <= i < f.len() implies (#[trigger] f[i]).node != node by {
            assert(known(g, g, g.hints.function_signatures[i].node));
        }
        lemma_unhinted(m, node, m.len() as int);
        lemma_unhinted(f, node, f.len() as int);
    }
}

proof fn lemma_implements_beyond(g: GraphView, d: GraphView, node: NodeId, ty: NodeId)
    requires
        beyond(g, d),
        hinted_truly(g),
    ensures
        implements_type(d, node, ty) == implements_type(g, node, ty),
        implements_type(g, node, ty) ==> live(g.nodes, node) is Some,
{
    lemma_signatures_beyond(g, d, node);
    lemma_signatures_beyond(g, d, ty);
    if live(g.nodes, node) is Some && live(g.nodes, ty) is Some {
        assert(d.qn(node) == g.qn(node));
        assert(d.qn(ty) == g.qn(ty));
    }
}

pub(crate) proof fn lemma_named_beyond(g: GraphView, d: GraphView, qn: StringId, n: int)
    requires
        beyond(g, d),
        0 <= n <= d.indices.len(),
    ensures
        n <= g.indices.len() ==> nodes_of_qn(d.indices, qn, n) == nodes_of_qn(g.indices, qn, n),
        n >= g.indices.len() ==> padded(g.nodes, named(g, qn), nodes_of_qn(d.indices, qn, n)),
    decreases n,
{
    let few = named(g, qn);
    let more = nodes_of_qn(d.indices, qn, n);
    if n > 0 {
        lemma_named_beyond(g, d, qn, n - 1);
        if n <= g.indices.len() {
            assert(g.indices[n - 1] == d.indices[n - 1]);
        } else {
            assert(live(g.nodes, d.indices[n - 1].node) is None);
            assert(few =~= more.take(few.len() as int));
        }
    }
}

proof fn lemma_function_type_beyond(
    g: GraphView,
    d: GraphView,
    few: Seq<NodeId>,
    more: Seq<NodeId>,
    i: int,
)
    requires
        beyond(g, d),
        hinted_truly(g),
        padded(g.nodes, few, more),
        0 <= i,
    ensures
        function_type_from(d, more, i) == function_type_from(g, few, i),
    decreases more.len() - i,
{
    if i < more.len() {
        lemma_function_type_beyond(g, d, few, more, i + 1);
        lemma_signatures_beyond(g, d, more[i]);
        if i < few.len() {
            assert(few[i] == more[i]);
        } else {
            assert(live(g.nodes, more[i]) is None);
        }
    }
}

proof fn lemma_converted_beyond(g: GraphView, d: GraphView, n: int)
    requires
        beyond(g, d),
        hinted_truly(g),
    ensures
        converted(d, n) == converted(g, n),
    decreases n,
{
    if n > 0 {
        lemma_converted_beyond(g, d, n - 1);
        let h = g.hints.named_type_conversions[n - 1];
        let qn = h.target_type_qualified_name;
        lemma_named_beyond(g, d, qn, d.indices.len() as int);
        lemma_function_type_beyond(g, d, named(g, qn), named(d, qn), 0);
        if let Some(ty) = function_type_from(g, named(g, qn), 0) {
            lemma_implements_beyond(g, d, h.argument_node, ty);
        }
    }
}

proof fn lemma_hinted_types_beyond(g: GraphView, d: GraphView, n: int)
    requires
        beyond(g, d),
        hinted_truly(g),
        0 <= n <= g.hints.function_signatures.len(),
    ensures
        hinted_types(d, n) == hinted_types(g, n),
    decreases n,
{
    if n > 0 {
        lemma_hinted_types_beyond(g, d, n - 1);
        let node = g.hints.function_signatures[n - 1].node;
        assert(known(g, g, g.hints.function_signatures[n - 1].node));
        assert(live(d.nodes, node) == live(g.nodes, node));
    }
}

/// The edges that a slot has got besides change nothing.
proof fn lemma_slot_beyond(
    g: GraphView,
    d: GraphView,
    pending: Seq<PendingSignature>,
    slot: NodeId,
    ty: NodeId,
    n: int,
)
    requires
        beyond(g, d),
        hinted_truly(g),
        0 <= n <= d.edges.edges.len(),
    ensures
        ({
            let k = if n <= g.edges.edges.len() {
                n
            } else {
                g.edges.edges.len() as int
            };
            let more = edges_out_of(d.edges.edges, slot, n);
            let few = edges_out_of(g.edges.edges, slot, k);
            with_slot(d, pending, more, ty, more.len() as int) == with_slot(
                g,
                pending,
                few,
                ty,
                few.len() as int,
            )
        }),
    decreases n,
{
    let m = g.edges.edges.len() as int;
    if n > 0 {
        lemma_slot_beyond(g, d, pending, slot, ty, n - 1);
        let e = d.edges.edges[n - 1];
        let before = edges_out_of(d.edges.edges, slot, n - 1);
        if e.source == slot {
            lemma_slot_push(d, pending, before, e, ty, before.len() as int);
            lemma_implements_beyond(g, d, e.target, ty);
        }
        if n <= m {
            assert(g.edges.edges[n - 1] == e);
            let few = edges_out_of(g.edges.edges, slot, n - 1);
            if e.source == slot {
                lemma_slot_push(g, pending, few, e, ty, few.len() as int);
                if implements_type(g, e.target, ty) {
                    assert(live(d.nodes, e.target) == live(g.nodes, e.target));
                }
            }
        } else {
            assert(e.kind == EdgeKind::References ==> live(g.nodes, d.edges.edges[n - 1].target) is None);
        }
    }
}

proof fn lemma_slot_push(
    d: GraphView,
    pending: Seq<PendingSignature>,
    edges: Seq<EdgeView>,
    e: EdgeView,
    ty: NodeId,
    n: int,
)
    requires
        0 <= n <= edges.len(),
    ensures
        with_slot(d, pending, edges.push(e), ty, n) == with_slot(d, pending, edges, ty, n),
        n == edges.len() ==> with_slot(d, pending, edges.push(e), ty, n + 1) == (if e.kind
            == EdgeKind::References && implements_type(d, e.target, ty) {
            with_entry(
                with_slot(d, pending, edges, ty, n),
                PendingSignature { source: e.target, target: ty, file: file_of(d, e.target) },
                false,
            )
        } else {
            with_slot(d, pending, edges, ty, n)
        }),
    decreases n,
{
    if n > 0 {
        lemma_slot_push(d, pending, edges, e, ty, n - 1);
        assert(edges.push(e)[n - 1] == edges[n - 1]);
    }
    if n == edges.len() {
        assert(edges.push(e)[n] == e);
    }
}

proof fn lemma_slots_push(
    d: GraphView,
    pending: Seq<PendingSignature>,
    edges: Seq<EdgeView>,
    e: EdgeView,
    ty: NodeId,
    n: int,
)
    requires
        0 <= n <= edges.len(),
    ensures
        with_slots(d, pending, edges.push(e), ty, n) == with_slots(d, pending, edges, ty, n),
        n == edges.len() ==> with_slots(d, pending, edges.push(e), ty, n + 1) == (if types_slot(
            e.kind,
        ) {
            with_slot(
                d,
                with_slots(d, pending, edges, ty, n),
                out_edges(d, e.source),
                ty,
                out_edges(d, e.source).len() as int,
            )
        } else {
            with_slots(d, pending, edges, ty, n)
        }),
    decreases n,
{
    if n > 0 {
        lemma_slots_push(d, pending, edges, e, ty, n - 1);
        assert(edges.push(e)[n - 1] == edges[n - 1]);
    }
    if n == edges.len() {
        assert(edges.push(e)[n] == e);
    }
}

proof fn lemma_slots_beyond(
    g: GraphView,
    d: GraphView,
    pending: Seq<PendingSignature>,
    ty: NodeId,
    n: int,
)
    requires
        beyond(g, d),
        hinted_truly(g),
        0 <= n <= d.edges.edges.len(),
    ensures
        ({
            let k = if n <= g.edges.edges.len() {
                n
            } else {
                g.edges.edges.len() as int
            };
            let more = edges_into(d.edges.edges, ty, n);
            let few = edges_into(g.edges.edges, ty, k);
            with_slots(d, pending, more, ty, more.len() as int) == with_slots(
                g,
                pending,
                few,
                ty,
                few.len() as int,
            )
        }),
    decreases n,
{
    let m = g.edges.edges.len() as int;
    if n > 0 {
        lemma_slots_beyond(g, d, pending, ty, n - 1);
        let e = d.edges.edges[n - 1];
        let before = edges_into(d.edges.edges, ty, n - 1);
        if e.target == ty {
            lemma_slots_push(d, pending, before, e, ty, before.len() as int);
        }
        if n <= m {
            assert(g.edges.edges[n - 1] == e);
            let few = edges_into(g.edges.edges, ty, n - 1);
            if e.target == ty {
                lemma_slots_push(g, pending, few, e, ty, few.len() as int);
                lemma_slot_beyond(
                    g,
                    d,
                    with_slots(g, pending, few, ty, few.len() as int),
                    e.source,
                    ty,
                    d.edges.edges.len() as int,
                );
            }
        } else {
            assert(d.edges.edges[n - 1].kind !is TypeOf);
        }
    }
}

proof fn lemma_slots_of_beyond(
    g: GraphView,
    d: GraphView,
    pending: Seq<PendingSignature>,
    types: Seq<NodeId>,
    n: int,
)
    requires
        beyond(g, d),
        hinted_truly(g),
    ensures
        with_slots_of(d, pending, types, n) == with_slots_of(g, pending, types, n),
    decreases n,
{
    if n > 0 {
        lemma_slots_of_beyond(g, d, pending, types, n - 1);
        lemma_slots_beyond(
            g,
            d,
            with_slots_of(g, pending, types, n - 1),
            types[n - 1],
            d.edges.edges.len() as int,
        );
    }
}

/// What goes beyond a graph makes no function implement a type, and keeps none from it.
proof fn lemma_signature_edges_beyond(g: GraphView, d: GraphView)
    requires
        beyond(g, d),
        hinted_truly(g),
    ensures
        signature_edges(d) == signature_edges(g),
{
    lemma_converted_beyond(g, d, g.hints.named_type_conversions.len() as int);
    lemma_hinted_types_beyond(g, d, g.hints.function_signatures.len() as int);
    let types = function_types(g);
    lemma_slots_of_beyond(
        g,
        d,
        converted(g, g.hints.named_type_conversions.len() as int),
        types,
        types.len() as int,
    );
}

/// What the pass adds to a graph goes beyond it.
pub(crate) proof fn lemma_run_beyond(g: GraphView, d: GraphView)
    requires
        sound(g),
        untouched(g),
        steps(g, g, d),
    ensures
        beyond(g, d),
{
    assert forall|id: NodeId| (#[trigger] live(g.nodes, id)) is Some implies live(d.nodes, id)
        == live(g.nodes, id) && d.qn(id) == g.qn(id) by {
        lemma_known_nodes(g, d, id);
    }
    assert forall|id: NodeId| passed(g, id) implies (#[trigger] live(d.nodes, id)) is None by {
        lemma_known_nodes(g, d, id);
    }
    assert forall|i: int| g.edges.edges.len() <= i < d.edges.edges.len() implies {
        &&& (#[trigger] d.edges.edges[i]).kind !is TypeOf
        &&& d.edges.edges[i].kind == EdgeKind::References ==> live(
            g.nodes,
            d.edges.edges[i].target,
        ) is None
    } by {
        let e = d.edges.edges[i];
        assert(pass_edge(g, d, d.edges.edges[i].kind, e.source, e.target));
    }
    assert forall|i: int| g.indices.len() <= i < d.indices.len() implies live(
        g.nodes,
        (#[trigger] d.indices[i]).node,
    ) is None by {
        assert(made(g, d, d.indices[i].node));
    }
}

/// What goes beyond the graph that a run gives back goes beyond the one on which the run
/// has started.
pub(crate) proof fn lemma_later_beyond(g: GraphView, t: GraphView, d: GraphView)
    requires
        sound(g),
        like(g, t),
        beyond(t, d),
    ensures
        beyond(g, d),
{
    assert forall|id: NodeId| (#[trigger] live(g.nodes, id)) is Some implies live(d.nodes, id)
        == live(g.nodes, id) && d.qn(id) == g.qn(id) by {
        assert(live(t.nodes, id) == live(g.nodes, id));
        lemma_same_qn(g, t, id);
    }
    assert forall|id: NodeId| passed(g, id) implies (#[trigger] live(d.nodes, id)) is None by {
        assert(passed(t, id));
    }
    assert forall|i: int| g.edges.edges.len() <= i < d.edges.edges.len() implies {
        &&& (#[trigger] d.edges.edges[i]).kind !is TypeOf
        &&& d.edges.edges[i].kind == EdgeKind::References ==> live(
            g.nodes,
            d.edges.edges[i].target,
        ) is None
    } by {
        let target = d.edges.edges[i].target;
        assert(live(t.nodes, target) == live(g.nodes, target));
    }
    assert(g.indices =~= d.indices.take(g.indices.len() as int));
    assert forall|i: int| g.indices.len() <= i < d.indices.len() implies live(
        g.nodes,
        (#[trigger] d.indices[i]).node,
    ) is None by {
        let node = d.indices[i].node;
        assert(live(t.nodes, node) == live(g.nodes, node));
        if i < t.indices.len() {
            assert(d.indices[i] == t.indices[i]);
        }
    }
}

/// A run implements named function types as the graph has it on which it starts; what it
/// makes on the way makes no difference.
pub(crate) proof fn lemma_signature_edges_of_run(g: GraphView)
    requires
        ready(g),
    ensures
        signature_edges(after_satisfaction(g)) == signature_edges(g),
{
    let d = after_satisfaction(g);
    lemma_pass_steps(g);
    lemma_run_beyond(g, d);
    lemma_signature_edges_beyond(g, d);
}

/// After a run was taken back, a further run adds the same implementations of named
/// function types as the first, and counts as many.
pub proof fn law_later_run_implements_function_types_the_same(g: GraphView)
    requires
        ready(g),
        adds_knowably(g),
    ensures
        ({
            let t = tombstoned(after_pass(g));
            &&& signature_edges(after_satisfaction(t)) == signature_edges(after_satisfaction(g))
            &&& pass_counts(t).signature_implements_edges == pass_counts(
                g,
            ).signature_implements_edges
        }),
{
    let t = tombstoned(after_pass(g));
    lemma_given_back(g);
    law_given_back_ready(g);
    lemma_signature_edges_of_run(g);
    lemma_signature_edges_of_run(t);
    assert forall|id: NodeId| (#[trigger] live(g.nodes, id)) is Some implies live(t.nodes, id)
        == live(g.nodes, id) && t.qn(id) == g.qn(id) by {
        lemma_same_qn(g, t, id);
    }
    assert forall|id: NodeId| passed(g, id) implies (#[trigger] live(t.nodes, id)) is None by {
        assert(passed(t, id));
    }
    assert(g.edges.edges.is_prefix_of(t.edges.edges));
    assert(beyond(g, t));
    lemma_signature_edges_beyond(g, t);
}

} // verus!
