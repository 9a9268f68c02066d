//! What it takes to implement an interface, in terms of methods and their signatures.

use vstd::prelude::*;

use crate::arena::{live, live_kind, Slot};
use crate::edges::{edges_out_of, EdgeView};
use crate::graph::GraphView;
use crate::hints::{GoMethodReceiverHint, SignatureView};
use crate::ids::{NodeId, StringId};
use crate::indices::{lemma_kind_rows, nodes_of_kind};
use crate::kinds::{EdgeKind, NodeKind, Receiver};
use crate::pass_go_method_set::lookup::{
    embedded_interfaces, has_name, inherited_from, inherits_target, member_of, members_among,
    methods_of, one_level_more, out_edges, with_interfaces, with_new_names, MethodRef,
};
use crate::pass_go_method_set::materialise::{LocalView, OuterKey};
use crate::pass_go_method_set::promotion::{declared_receiver, receiver_of};
use crate::pass_go_method_set::satisfaction::{
    candidate_types, entries_of, entry_matches, implements_edges, in_order, indexed,
    interface_methods_of, is_pointer_form, is_promoted, judged, method_sets, method_signature,
    native_sets, required_methods, satisfies, set_has, signature_at, with_originals, with_promoted,
    MethodSetEntry, SetsView,
};
use crate::pass_go_method_set::satisfaction_laws::{
    earned, implements, law_implements_edges_are_earned, law_no_implementation_is_missed,
    law_no_pointer_implementation_is_missed, pointer_implements, pointer_to,
};
use crate::pass_go_method_set::promoted;
use crate::sorting::{
    deduped, law_deduped_keeps_keys, lemma_sorted_contains, sorted, stands_in, Ranked,
};
use crate::text::{contains_text, without_prefix};

verus! {

/// The signature recorded for `node` is `sig`: the last one that a hint gives it.
pub open spec fn has_signature(g: GraphView, node: NodeId, sig: Seq<char>) -> bool {
    let hints = g.hints.method_signatures;
    exists|k: int|
        0 <= k < hints.len() && (#[trigger] hints[k]).node == node && hints[k].signature == sig && (
        forall|j: int| k < j < hints.len() ==> (#[trigger] hints[j]).node != node)
}

/// Where a signature is recorded for both methods, it is the same, letter for letter.
pub open spec fn signatures_agree(g: GraphView, a: NodeId, b: NodeId) -> bool {
    forall|s: Seq<char>, t: Seq<char>| #[trigger]
        has_signature(g, a, s) && #[trigger] has_signature(g, b, t) ==> s == t
}

/// `node` is a method named `name` of `owner`: its qualified name is that of `owner` with
/// one more segment.
pub open spec fn declares_method(
    g: GraphView,
    owner: NodeId,
    node: NodeId,
    name: StringId,
) -> bool {
    &&& exists|k: int|
        0 <= k < g.indices.len() && (#[trigger] g.indices[k]).kind == NodeKind::Method
            && g.indices[k].node == node
    &&& live(g.nodes, node) is Some
    &&& live(g.nodes, node)->0.name == name
    &&& g.qn(owner) is Some
    &&& g.qn(node) is Some
    &&& exists|short: Seq<char>| #[trigger] adds_segment(g.qn(node)->0, g.qn(owner)->0, short)
}

/// `qn` is `owner` with the segment `short` added.
pub open spec fn adds_segment(qn: Seq<char>, owner: Seq<char>, short: Seq<char>) -> bool {
    qn == owner + "::"@ + short && !contains_text(short, "::"@)
}

/// Hint `k` is the last that speaks of `node`, and says that a value is its receiver.
pub open spec fn last_by_value(hints: Seq<GoMethodReceiverHint>, node: NodeId, k: int) -> bool {
    &&& 0 <= k < hints.len()
    &&& hints[k].method_node == node
    &&& hints[k].receiver_pointerness == Receiver::Value
    &&& forall|j: int| k < j < hints.len() ==> (#[trigger] hints[j]).method_node != node
}

/// A value is the receiver of `node`: the last hint that speaks of it says so, or none does.
pub open spec fn takes_value(g: GraphView, node: NodeId) -> bool {
    let hints = g.hints.method_receivers;
    ||| forall|j: int| 0 <= j < hints.len() ==> (#[trigger] hints[j]).method_node != node
    ||| exists|k: int| last_by_value(hints, node, k)
}

/// `a` embeds interface `b`.
pub open spec fn embeds_interface(g: GraphView, a: NodeId, b: NodeId) -> bool {
    &&& live(g.nodes, b) is Some
    &&& live(g.nodes, b)->0.kind == NodeKind::Interface
    &&& exists|k: int|
        0 <= k < g.edges.edges.len() && (#[trigger] g.edges.edges[k]).kind == EdgeKind::Inherits
            && g.edges.edges[k].source == a && g.edges.edges[k].target == b
}

/// `path` leads from `a` to `b`, each step to an interface that the last embeds.
pub open spec fn embedding_path(g: GraphView, a: NodeId, b: NodeId, path: Seq<NodeId>) -> bool {
    &&& path.len() > 0
    &&& path[0] == a
    &&& path[path.len() - 1] == b
    &&& forall|k: int| 0 <= k < path.len() - 1 ==> #[trigger] embeds_next(g, path, k)
}

/// What stands at `k` on the path embeds what comes next.
pub open spec fn embeds_next(g: GraphView, path: Seq<NodeId>, k: int) -> bool {
    embeds_interface(g, path[k], path[k + 1])
}

/// Interface `t` asks for method `node`, named `name`: it is a method of `t`, or of an
/// interface that `t` embeds over fewer than sixteen levels.
pub open spec fn asks_for(g: GraphView, t: NodeId, node: NodeId, name: StringId) -> bool {
    exists|i: NodeId, path: Seq<NodeId>|
        #![trigger embedding_path(g, t, i, path), declares_method(g, i, node, name)]
        embedding_path(g, t, i, path) && path.len() <= 16 && is_indexed(g, i, NodeKind::Interface)
            && declares_method(g, i, node, name)
}

/// `node` is indexed as one of kind `kind`.
pub open spec fn is_indexed(g: GraphView, node: NodeId, kind: NodeKind) -> bool {
    exists|k: int|
        0 <= k < g.indices.len() && (#[trigger] g.indices[k]).kind == kind && g.indices[k].node
            == node
}

/// `key` promotes a method to `c`, and `origin` is the method it stands for, if any.
pub open spec fn promotes(
    g: GraphView,
    keys: Seq<OuterKey>,
    c: NodeId,
    name: StringId,
    origin: Option<NodeId>,
) -> bool {
    exists|k: int|
        0 <= k < keys.len() && (#[trigger] keys[k]).outer == c && keys[k].name == name
            && stands_for(g, keys[k].node, origin)
}

/// `node` stands for `origin`: that is where its first inheritance leads.
pub open spec fn stands_for(g: GraphView, node: NodeId, origin: Option<NodeId>) -> bool {
    let edges = g.edges.edges;
    match origin {
        Some(x) => exists|k: int|
            0 <= k < edges.len() && (#[trigger] edges[k]).source == node && edges[k].kind
                == EdgeKind::Inherits && edges[k].target == x && (forall|j: int|
                0 <= j < k ==> !((#[trigger] edges[j]).source == node && edges[j].kind
                    == EdgeKind::Inherits)),
        None => forall|j: int|
            0 <= j < edges.len() ==> !((#[trigger] edges[j]).source == node && edges[j].kind
                == EdgeKind::Inherits),
    }
}

/// `c` has a method named `name` by value, which is `origin`, or whose origin is unknown: one
/// that it declares for a value, or one that is promoted to it.
pub open spec fn has_by_value(
    g: GraphView,
    idx: LocalView,
    c: NodeId,
    name: StringId,
    origin: Option<NodeId>,
) -> bool {
    ||| origin is Some && declares_method(g, c, origin->0, name) && takes_value(g, origin->0)
        && !is_promoted(idx.outer_value, origin->0)
    ||| promotes(g, idx.outer_value, c, name, origin)
}

/// The pointer to `c` has a method named `name`, which is `origin`, or whose origin is
/// unknown: one that `c` declares, or one that is promoted to it or to the pointer.
pub open spec fn has_by_pointer(
    g: GraphView,
    idx: LocalView,
    c: NodeId,
    name: StringId,
    origin: Option<NodeId>,
) -> bool {
    ||| origin is Some && declares_method(g, c, origin->0, name) && !is_promoted(
        idx.outer_value,
        origin->0,
    )
    ||| promotes(g, idx.outer_value, c, name, origin)
    ||| promotes(g, idx.outer_pointer, c, name, origin)
}

/// `origin` answers to `asked`.
pub open spec fn answers_to(g: GraphView, origin: Option<NodeId>, asked: NodeId) -> bool {
    origin is Some ==> signatures_agree(g, asked, origin->0)
}

pub(crate) proof fn lemma_signature_at(hints: Seq<SignatureView>, node: NodeId, n: int)
    requires
        0 <= n <= hints.len(),
    ensures
        match signature_at(hints, node, n) {
            Some(s) => exists|k: int|
                0 <= k < n && (#[trigger] hints[k]).node == node && hints[k].signature == s && (
                forall|j: int| k < j < n ==> (#[trigger] hints[j]).node != node),
            None => forall|j: int| 0 <= j < n ==> (#[trigger] hints[j]).node != node,
        },
    decreases n,
{
    if n > 0 {
        if hints[n - 1].node == node {
            assert(hints[n - 1].signature == hints[n - 1].signature);
        } else {
            lemma_signature_at(hints, node, n - 1);
        }
    }
}

pub(crate) proof fn lemma_signature(g: GraphView, node: NodeId, sig: Seq<char>)
    ensures
        has_signature(g, node, sig) <==> method_signature(g, node) == Some(sig),
{
    let hints = g.hints.method_signatures;
    lemma_signature_at(hints, node, hints.len() as int);
    if has_signature(g, node, sig) {
        let k = choose|k: int|
            0 <= k < hints.len() && (#[trigger] hints[k]).node == node && hints[k].signature == sig
                && (forall|j: int| k < j < hints.len() ==> (#[trigger] hints[j]).node != node);
        let s = method_signature(g, node)->0;
        let m = choose|m: int|
            0 <= m < hints.len() && (#[trigger] hints[m]).node == node && hints[m].signature == s
                && (forall|j: int| m < j < hints.len() ==> (#[trigger] hints[j]).node != node);
        assert(hints[k].node == node && hints[m].node == node);
        assert(k == m);
    }
}

proof fn lemma_matches(g: GraphView, have: MethodSetEntry, want: MethodSetEntry)
    requires
        want.source is Some,
    ensures
        entry_matches(g, have, want) <==> have.name == want.name && answers_to(
            g,
            have.source,
            want.source->0,
        ),
{
    let a = want.source->0;
    if let Some(b) = have.source {
        if signatures_agree(g, a, b) {
            if let Some(s) = method_signature(g, a) {
                if let Some(t) = method_signature(g, b) {
                    lemma_signature(g, a, s);
                    lemma_signature(g, b, t);
                    assert(has_signature(g, a, s) && has_signature(g, b, t));
                }
            }
        }
        if entry_matches(g, have, want) {
            assert forall|s: Seq<char>, t: Seq<char>| #[trigger]
                has_signature(g, a, s) && #[trigger] has_signature(g, b, t) implies s == t by {
                lemma_signature(g, a, s);
                lemma_signature(g, b, t);
            }
        }
    }
}

/// The last hint that speaks of `node`; none where there is none.
proof fn lemma_receiver_of(hints: Seq<GoMethodReceiverHint>, node: NodeId, n: int) -> (k: int)
    requires
        0 <= n <= hints.len(),
    ensures
        -1 <= k < n,
        k >= 0 ==> hints[k].method_node == node && receiver_of(hints, node, n)
            == hints[k].receiver_pointerness,
        k < 0 ==> receiver_of(hints, node, n) == Receiver::Value,
        forall|j: int| k < j < n ==> (#[trigger] hints[j]).method_node != node,
    decreases n,
{
    if n <= 0 {
        -1
    } else if hints[n - 1].method_node == node {
        n - 1
    } else {
        lemma_receiver_of(hints, node, n - 1)
    }
}

pub(crate) proof fn lemma_takes_value(g: GraphView, node: NodeId)
    ensures
        takes_value(g, node) <==> declared_receiver(g, node) == Receiver::Value,
{
    let hints = g.hints.method_receivers;
    let m = lemma_receiver_of(hints, node, hints.len() as int);
    if m >= 0 {
        assert(hints[m].method_node == node);
        if takes_value(g, node) {
            let k = choose|k: int| last_by_value(hints, node, k);
            assert(hints[k].method_node == node);
            assert(k == m);
        }
        if declared_receiver(g, node) == Receiver::Value {
            assert(last_by_value(hints, node, m));
        }
    }
}

proof fn lemma_member(qn: Seq<char>, owner: Seq<char>)
    ensures
        member_of(qn, owner) <==> exists|short: Seq<char>| #[trigger]
            adds_segment(qn, owner, short),
{
    let pat = owner + "::"@;
    let n = pat.len() as int;
    if member_of(qn, owner) {
        let short = without_prefix(qn, pat)->0;
        assert(qn =~= owner + "::"@ + short) by {
            assert(qn.subrange(0, n) == pat);
        }
        assert(adds_segment(qn, owner, short));
    }
    if exists|short: Seq<char>| #[trigger] adds_segment(qn, owner, short) {
        let short = choose|short: Seq<char>| #[trigger] adds_segment(qn, owner, short);
        assert(qn.subrange(0, n) =~= pat);
        assert(qn.subrange(n, qn.len() as int) =~= short);
    }
}

proof fn lemma_members(g: GraphView, owner: Seq<char>, nodes: Seq<NodeId>, n: int, m: MethodRef)
    requires
        0 <= n <= nodes.len(),
    ensures
        members_among(g, owner, nodes, n).contains(m) <==> nodes.take(n).contains(m.node) && g.qn(
            m.node,
        ) is Some && member_of(g.qn(m.node)->0, owner) && m.name == live(g.nodes, m.node)->0.name,
    decreases n,
{
    if n > 0 {
        lemma_members(g, owner, nodes, n - 1, m);
        let before = members_among(g, owner, nodes, n - 1);
        let after = members_among(g, owner, nodes, n);
        let few = nodes.take(n - 1);
        let more = nodes.take(n);
        if few.contains(m.node) {
            assert(more[few.index_of(m.node)] == m.node);
        }
        assert(more[n - 1] == nodes[n - 1]);
        if more.contains(m.node) && m.node != nodes[n - 1] {
            assert(few[more.index_of(m.node)] == m.node);
        }
        if before.contains(m) {
            assert(after[before.index_of(m)] == m);
        }
        if after.contains(m) && !before.contains(m) {
            let i = after.index_of(m);
            if i < before.len() {
                assert(before[i] == m);
            }
        }
        if after.len() > before.len() {
            assert(after[before.len() as int].node == nodes[n - 1]);
        }
    } else {
        assert(nodes.take(0) =~= Seq::empty());
    }
}

/// A type has the methods that are declared for it, and no others.
pub(crate) proof fn lemma_methods(g: GraphView, owner: NodeId, m: MethodRef)
    requires
        g.qn(owner) is Some,
    ensures
        methods_of(g, g.qn(owner)->0).contains(m) <==> declares_method(g, owner, m.node, m.name),
{
    let qn = g.qn(owner)->0;
    let nodes = nodes_of_kind(g.indices, NodeKind::Method, g.indices.len() as int);
    let all = members_among(g, qn, nodes, nodes.len() as int);
    let s = sorted(all);
    let kept = methods_of(g, qn);
    law_deduped_keeps_keys(s, s.len() as int);
    lemma_kind_rows(g.indices, NodeKind::Method, g.indices.len() as int, m.node);
    lemma_members(g, qn, nodes, nodes.len() as int, m);
    assert(nodes.take(nodes.len() as int) =~= nodes);
    lemma_sorted_contains(all, m);
    if g.qn(m.node) is Some {
        lemma_member(g.qn(m.node)->0, qn);
    }
    if kept.contains(m) {
        let k = kept.index_of(m);
        assert(s.contains(deduped(s, s.len() as int)[k]));
    }
    if all.contains(m) {
        let i = s.index_of(m);
        assert(stands_in(kept, s[i]));
        if !kept.contains(m) {
            let k = choose|k: int| 0 <= k < kept.len() && (#[trigger] kept[k]).same_rank(m);
            let o = kept[k];
            assert(s.contains(deduped(s, s.len() as int)[k]));
            lemma_sorted_contains(all, o);
            lemma_members(g, qn, nodes, nodes.len() as int, o);
            assert(o == m);
        }
    }
}

proof fn lemma_out(edges: Seq<EdgeView>, node: NodeId, n: int, b: NodeId)
    requires
        0 <= n <= edges.len(),
    ensures
        (exists|j: int|
            0 <= j < edges_out_of(edges, node, n).len() && (#[trigger] edges_out_of(
                edges,
                node,
                n,
            )[j]).kind == EdgeKind::Inherits && edges_out_of(edges, node, n)[j].target == b)
            <==> exists|k: int|
            0 <= k < n && (#[trigger] edges[k]).kind == EdgeKind::Inherits && edges[k].source
                == node && edges[k].target == b,
    decreases n,
{
    if n > 0 {
        lemma_out(edges, node, n - 1, b);
        let before = edges_out_of(edges, node, n - 1);
        let after = edges_out_of(edges, node, n);
        if exists|j: int|
            0 <= j < before.len() && (#[trigger] before[j]).kind == EdgeKind::Inherits
                && before[j].target == b {
            let j = choose|j: int|
                0 <= j < before.len() && (#[trigger] before[j]).kind == EdgeKind::Inherits
                    && before[j].target == b;
            assert(after[j] == before[j]);
            let k = choose|k: int|
                0 <= k < n - 1 && (#[trigger] edges[k]).kind == EdgeKind::Inherits
                    && edges[k].source == node && edges[k].target == b;
            assert(edges[k].target == b);
        }
        if edges[n - 1].source == node && edges[n - 1].kind == EdgeKind::Inherits && edges[n
            - 1].target == b {
            assert(after[before.len() as int] == edges[n - 1]);
        }
        if exists|j: int|
            0 <= j < after.len() && (#[trigger] after[j]).kind == EdgeKind::Inherits
                && after[j].target == b {
            let j = choose|j: int|
                0 <= j < after.len() && (#[trigger] after[j]).kind == EdgeKind::Inherits
                    && after[j].target == b;
            if j < before.len() {
                assert(after[j] == before[j]);
            } else {
                assert(edges[n - 1].target == b);
            }
        }
        if exists|k: int|
            0 <= k < n && (#[trigger] edges[k]).kind == EdgeKind::Inherits && edges[k].source
                == node && edges[k].target == b {
            let k = choose|k: int|
                0 <= k < n && (#[trigger] edges[k]).kind == EdgeKind::Inherits && edges[k].source
                    == node && edges[k].target == b;
            if k < n - 1 {
                assert(edges[k].target == b);
            }
        }
    }
}

proof fn lemma_with_interfaces(
    slots: Seq<Slot>,
    found: Seq<NodeId>,
    edges: Seq<EdgeView>,
    n: int,
    b: NodeId,
)
    requires
        0 <= n <= edges.len(),
    ensures
        with_interfaces(slots, found, edges, n).contains(b) <==> found.contains(b) || (live_kind(
            slots,
            b,
        ) == Some(NodeKind::Interface) && exists|j: int|
            0 <= j < n && (#[trigger] edges[j]).kind == EdgeKind::Inherits && edges[j].target == b),
    decreases n,
{
    if n > 0 {
        lemma_with_interfaces(slots, found, edges, n - 1, b);
        let before = with_interfaces(slots, found, edges, n - 1);
        let after = with_interfaces(slots, found, edges, n);
        if before.contains(b) {
            assert(after[before.index_of(b)] == b);
        }
        if after.contains(b) && !before.contains(b) {
            let i = after.index_of(b);
            if i < before.len() {
                assert(before[i] == b);
            }
            assert(edges[n - 1].target == b);
        }
        if after.len() > before.len() {
            assert(after[before.len() as int] == edges[n - 1].target);
        }
        if exists|j: int|
            0 <= j < n - 1 && (#[trigger] edges[j]).kind == EdgeKind::Inherits && edges[j].target
                == b {
            let j = choose|j: int|
                0 <= j < n - 1 && (#[trigger] edges[j]).kind == EdgeKind::Inherits
                    && edges[j].target == b;
            assert(edges[j].target == b);
        }
    }
}

pub(crate) proof fn lemma_embeds(g: GraphView, found: Seq<NodeId>, a: NodeId, b: NodeId)
    ensures
        with_interfaces(g.nodes, found, out_edges(g, a), out_edges(g, a).len() as int).contains(b)
            <==> found.contains(b) || embeds_interface(g, a, b),
{
    let out = out_edges(g, a);
    lemma_with_interfaces(g.nodes, found, out, out.len() as int, b);
    lemma_out(g.edges.edges, a, g.edges.edges.len() as int, b);
}

proof fn lemma_one_level(g: GraphView, from: Seq<NodeId>, n: int, b: NodeId)
    requires
        0 <= n <= from.len(),
    ensures
        one_level_more(g, from, false, n).contains(b) <==> from.contains(b) || exists|k: int|
            0 <= k < n && #[trigger] embeds_interface(g, from[k], b),
    decreases n,
{
    if n > 0 {
        lemma_one_level(g, from, n - 1, b);
        lemma_embeds(g, one_level_more(g, from, false, n - 1), from[n - 1], b);
        if exists|k: int| 0 <= k < n - 1 && #[trigger] embeds_interface(g, from[k], b) {
            let k = choose|k: int| 0 <= k < n - 1 && #[trigger] embeds_interface(g, from[k], b);
            assert(embeds_interface(g, from[k], b));
        }
    }
}

proof fn lemma_embedded(g: GraphView, start: NodeId, depth: int, b: NodeId)
    requires
        0 <= depth,
    ensures
        embedded_interfaces(g, start, false, depth).contains(b) <==> exists|path: Seq<NodeId>|
            #[trigger] embedding_path(g, start, b, path) && path.len() <= depth + 1,
    decreases depth,
{
    if depth == 0 {
        let all = embedded_interfaces(g, start, false, depth);
        assert(all =~= seq![start]);
        if b == start {
            assert(all[0] == b);
            assert(embedding_path(g, start, b, seq![start]));
        }
        if all.contains(b) {
            assert(b == start);
        }
    } else {
        let near = embedded_interfaces(g, start, false, depth - 1);
        lemma_embedded(g, start, depth - 1, b);
        lemma_one_level(g, near, near.len() as int, b);
        if embedded_interfaces(g, start, false, depth).contains(b) && !near.contains(b) {
            let k = choose|k: int| 0 <= k < near.len() && #[trigger] embeds_interface(g, near[k], b);
            assert(near.contains(near[k]));
            lemma_embedded(g, start, depth - 1, near[k]);
            let path = choose|path: Seq<NodeId>| #[trigger]
                embedding_path(g, start, near[k], path) && path.len() <= depth;
            let longer = path.push(b);
            assert forall|i: int| 0 <= i < longer.len() - 1 implies #[trigger] embeds_next(
                g,
                longer,
                i,
            ) by {
                if i < path.len() - 1 {
                    assert(embeds_next(g, path, i));
                }
            }
            assert(embedding_path(g, start, b, longer));
        }
        if exists|path: Seq<NodeId>| #[trigger]
            embedding_path(g, start, b, path) && path.len() <= depth + 1 {
            let path = choose|path: Seq<NodeId>| #[trigger]
                embedding_path(g, start, b, path) && path.len() <= depth + 1;
            if path.len() <= depth {
                assert(near.contains(b));
            } else {
                let shorter = path.subrange(0, path.len() - 1);
                let last = shorter[shorter.len() - 1];
                assert forall|i: int| 0 <= i < shorter.len() - 1 implies #[trigger] embeds_next(
                    g,
                    shorter,
                    i,
                ) by {
                    assert(embeds_next(g, path, i));
                }
                assert(embedding_path(g, start, last, shorter));
                lemma_embedded(g, start, depth - 1, last);
                let k = near.index_of(last);
                assert(embeds_next(g, path, path.len() - 2));
                assert(embeds_interface(g, near[k], b));
            }
        }
    }
}

pub(crate) proof fn lemma_new_names(found: Seq<MethodRef>, more: Seq<MethodRef>, n: int)
    requires
        0 <= n <= more.len(),
    ensures
        ({
            let all = with_new_names(found, more, n);
            &&& forall|m: MethodRef| #[trigger]
                all.contains(m) ==> found.contains(m) || more.contains(m)
            &&& forall|m: MethodRef| #[trigger] found.contains(m) ==> has_name(all, m.name)
            &&& forall|i: int| 0 <= i < n ==> has_name(all, (#[trigger] more[i]).name)
        }),
    decreases n,
{
    let all = with_new_names(found, more, n);
    if n > 0 {
        lemma_new_names(found, more, n - 1);
        let before = with_new_names(found, more, n - 1);
        assert forall|name: StringId| has_name(before, name) implies #[trigger] has_name(
            all,
            name,
        ) by {
            let i = choose|i: int| 0 <= i < before.len() && (#[trigger] before[i]).name == name;
            assert(all[i] == before[i]);
        }
        assert forall|m: MethodRef| #[trigger] all.contains(m) implies found.contains(m)
            || more.contains(m) by {
            let i = all.index_of(m);
            if i < before.len() {
                assert(before[i] == m);
                assert(before.contains(m));
            } else {
                assert(more[n - 1] == m);
            }
        }
        assert forall|i: int| 0 <= i < n implies has_name(all, (#[trigger] more[i]).name) by {
            if i == n - 1 && !has_name(before, more[i].name) {
                assert(all[before.len() as int] == more[i]);
            }
        }
        assert forall|m: MethodRef| #[trigger] found.contains(m) implies has_name(all, m.name) by {
            assert(has_name(before, m.name));
        }
    } else {
        assert forall|m: MethodRef| #[trigger] found.contains(m) implies has_name(all, m.name) by {
            let i = found.index_of(m);
            assert(all[i].name == m.name);
        }
    }
}

/// The method `m` is one of the first `n` of `types`.
spec fn method_of_some(g: GraphView, types: Seq<NodeId>, n: int, m: MethodRef) -> bool {
    exists|k: int|
        0 <= k < n && #[trigger] declares_method(g, types[k], m.node, m.name) && is_indexed(
            g,
            types[k],
            NodeKind::Interface,
        )
}

proof fn lemma_interface_methods(g: GraphView, types: Seq<NodeId>, n: int)
    requires
        0 <= n <= types.len(),
    ensures
        ({
            let all = interface_methods_of(g, types, n);
            &&& forall|m: MethodRef| #[trigger] all.contains(m) ==> method_of_some(g, types, n, m)
            &&& forall|m: MethodRef| #[trigger]
                method_of_some(g, types, n, m) ==> has_name(all, m.name)
        }),
    decreases n,
{
    let all = interface_methods_of(g, types, n);
    if n > 0 {
        lemma_interface_methods(g, types, n - 1);
        let before = interface_methods_of(g, types, n - 1);
        let t = types[n - 1];
        let own = if g.qn(t) is Some {
            methods_of(g, g.qn(t)->0)
        } else {
            Seq::empty()
        };
        let listed = indexed(g, NodeKind::Interface).contains(t);
        lemma_kind_rows(g.indices, NodeKind::Interface, g.indices.len() as int, t);
        lemma_new_names(before, own, own.len() as int);
        assert forall|m: MethodRef| #[trigger] all.contains(m) implies method_of_some(
            g,
            types,
            n,
            m,
        ) by {
            if before.contains(m) {
                let k = choose|k: int|
                    0 <= k < n - 1 && #[trigger] declares_method(g, types[k], m.node, m.name)
                        && is_indexed(g, types[k], NodeKind::Interface);
                assert(declares_method(g, types[k], m.node, m.name));
            } else {
                assert(own.contains(m));
                lemma_methods(g, t, m);
                assert(declares_method(g, types[n - 1], m.node, m.name));
            }
        }
        assert forall|m: MethodRef| #[trigger] method_of_some(g, types, n, m) implies has_name(
            all,
            m.name,
        ) by {
            let k = choose|k: int|
                0 <= k < n && #[trigger] declares_method(g, types[k], m.node, m.name) && is_indexed(
                    g,
                    types[k],
                    NodeKind::Interface,
                );
            if k < n - 1 {
                assert(method_of_some(g, types, n - 1, m));
                assert(has_name(before, m.name));
                let i = choose|i: int| 0 <= i < before.len() && (#[trigger] before[i]).name == m.name;
                assert(before.contains(before[i]));
                if all != before {
                    assert(has_name(all, before[i].name));
                }
            } else {
                lemma_methods(g, t, m);
                let i = own.index_of(m);
                assert(own[i].name == m.name);
            }
        }
    } else {
        assert(all =~= Seq::empty());
    }
}

/// What an interface requires is what it asks for, one method for each name.
proof fn lemma_required(g: GraphView, t: NodeId)
    ensures
        forall|e: MethodSetEntry| #[trigger]
            required_methods(g, t).contains(e) ==> e.source is Some && asks_for(
                g,
                t,
                e.source->0,
                e.name,
            ),
        forall|node: NodeId, name: StringId| #[trigger]
            asks_for(g, t, node, name) ==> exists|k: int|
                0 <= k < required_methods(g, t).len() && (#[trigger] required_methods(g, t)[k]).name
                    == name,
{
    let types = embedded_interfaces(g, t, false, 15);
    let n = types.len() as int;
    let methods = interface_methods_of(g, types, n);
    let entries = entries_of(methods);
    let all = required_methods(g, t);
    lemma_interface_methods(g, types, n);
    assert forall|e: MethodSetEntry| #[trigger] all.contains(e) implies e.source is Some && asks_for(
        g,
        t,
        e.source->0,
        e.name,
    ) by {
        lemma_sorted_contains(entries, e);
        let i = entries.index_of(e);
        let m = methods[i];
        assert(methods.contains(m));
        assert(method_of_some(g, types, n, m));
        let k = choose|k: int|
            0 <= k < n && #[trigger] declares_method(g, types[k], m.node, m.name) && is_indexed(
                g,
                types[k],
                NodeKind::Interface,
            );
        assert(types.contains(types[k]));
        lemma_embedded(g, t, 15, types[k]);
        let path = choose|path: Seq<NodeId>| #[trigger]
            embedding_path(g, t, types[k], path) && path.len() <= 16;
        assert(embedding_path(g, t, types[k], path) && declares_method(
            g,
            types[k],
            m.node,
            m.name,
        ));
    }
    assert forall|node: NodeId, name: StringId| #[trigger]
        asks_for(g, t, node, name) implies exists|k: int|
        0 <= k < all.len() && (#[trigger] all[k]).name == name by {
        let (i, path) = choose|i: NodeId, path: Seq<NodeId>|
            #![trigger embedding_path(g, t, i, path), declares_method(g, i, node, name)]
            embedding_path(g, t, i, path) && path.len() <= 16 && is_indexed(
                g,
                i,
                NodeKind::Interface,
            ) && declares_method(g, i, node, name);
        lemma_embedded(g, t, 15, i);
        let k = types.index_of(i);
        let m = MethodRef { name, node };
        assert(declares_method(g, types[k], m.node, m.name));
        assert(method_of_some(g, types, n, m));
        let j = choose|j: int| 0 <= j < methods.len() && (#[trigger] methods[j]).name == name;
        assert(entries.contains(entries[j]));
        lemma_sorted_contains(entries, entries[j]);
        let q = all.index_of(entries[j]);
        assert(all[q].name == name);
    }
}

proof fn lemma_native(
    g: GraphView,
    methods: Seq<MethodRef>,
    keys: Seq<OuterKey>,
    n: int,
    e: MethodSetEntry,
)
    requires
        0 <= n <= methods.len(),
    ensures
        native_sets(g, methods, keys, n).value.contains(e) <==> exists|i: int|
            0 <= i < n && !is_promoted(keys, (#[trigger] methods[i]).node) && e == (
            MethodSetEntry { name: methods[i].name, source: Some(methods[i].node) })
                && declared_receiver(g, methods[i].node) == Receiver::Value,
        native_sets(g, methods, keys, n).pointer.contains(e) <==> exists|i: int|
            0 <= i < n && !is_promoted(keys, (#[trigger] methods[i]).node) && e == (
            MethodSetEntry { name: methods[i].name, source: Some(methods[i].node) }),
    decreases n,
{
    if n > 0 {
        lemma_native(g, methods, keys, n - 1, e);
        let before = native_sets(g, methods, keys, n - 1);
        let after = native_sets(g, methods, keys, n);
        let m = methods[n - 1];
        if !is_promoted(keys, m.node) {
            let x = MethodSetEntry { name: m.name, source: Some(m.node) };
            assert(after.pointer == before.pointer.push(x));
            lemma_push_contains(before.pointer, x, e);
            lemma_push_contains(before.value, x, e);
        }
        assert(methods[n - 1] == m);
    }
}

proof fn lemma_push_contains(s: Seq<MethodSetEntry>, x: MethodSetEntry, e: MethodSetEntry)
    ensures
        s.push(x).contains(e) <==> s.contains(e) || e == x,
{
    let t = s.push(x);
    if s.contains(e) {
        assert(t[s.index_of(e)] == e);
    }
    assert(t[s.len() as int] == x);
    if t.contains(e) && e != x {
        assert(s[t.index_of(e)] == e);
    }
}

proof fn lemma_promoted(
    g: GraphView,
    sets: SetsView,
    keys: Seq<OuterKey>,
    c: NodeId,
    pointer_only: bool,
    n: int,
    e: MethodSetEntry,
)
    requires
        0 <= n <= keys.len(),
    ensures
        ({
            let all = with_promoted(g, sets, keys, c, pointer_only, n);
            let here = exists|i: int|
                0 <= i < n && (#[trigger] keys[i]).outer == c && e == (MethodSetEntry {
                    name: keys[i].name,
                    source: inherits_target(g, keys[i].node),
                });
            &&& all.pointer.contains(e) <==> sets.pointer.contains(e) || here
            &&& all.value.contains(e) <==> sets.value.contains(e) || (!pointer_only && here)
        }),
    decreases n,
{
    if n > 0 {
        lemma_promoted(g, sets, keys, c, pointer_only, n - 1, e);
        let before = with_promoted(g, sets, keys, c, pointer_only, n - 1);
        let k = keys[n - 1];
        let x = MethodSetEntry { name: k.name, source: inherits_target(g, k.node) };
        lemma_push_contains(before.pointer, x, e);
        lemma_push_contains(before.value, x, e);
        assert(keys[n - 1] == k);
    }
}

proof fn lemma_inherited(edges: Seq<EdgeView>, i: int)
    requires
        0 <= i,
    ensures
        match inherited_from(edges, i) {
            Some(x) => exists|k: int|
                i <= k < edges.len() && (#[trigger] edges[k]).kind == EdgeKind::Inherits
                    && edges[k].target == x && (forall|j: int|
                    i <= j < k ==> (#[trigger] edges[j]).kind != EdgeKind::Inherits),
            None => forall|j: int|
                i <= j < edges.len() ==> (#[trigger] edges[j]).kind != EdgeKind::Inherits,
        },
    decreases edges.len() - i,
{
    if i < edges.len() {
        if edges[i].kind == EdgeKind::Inherits {
            assert(edges[i].target == edges[i].target);
        } else {
            lemma_inherited(edges, i + 1);
        }
    }
}

/// The first inheritance among the edges that leave `node`.
proof fn lemma_first_out(edges: Seq<EdgeView>, node: NodeId, n: int)
    requires
        0 <= n <= edges.len(),
    ensures
        match inherited_from(edges_out_of(edges, node, n), 0) {
            Some(x) => exists|k: int|
                0 <= k < n && (#[trigger] edges[k]).source == node && edges[k].kind
                    == EdgeKind::Inherits && edges[k].target == x && (forall|j: int|
                    0 <= j < k ==> !((#[trigger] edges[j]).source == node && edges[j].kind
                        == EdgeKind::Inherits)),
            None => forall|j: int|
                0 <= j < n ==> !((#[trigger] edges[j]).source == node && edges[j].kind
                    == EdgeKind::Inherits),
        },
    decreases n,
{
    if n > 0 {
        lemma_first_out(edges, node, n - 1);
        let before = edges_out_of(edges, node, n - 1);
        let after = edges_out_of(edges, node, n);
        if edges[n - 1].source == node {
            lemma_inherited_push(before, edges[n - 1], 0);
        }
        if let Some(x) = inherited_from(before, 0) {
            let k = choose|k: int|
                0 <= k < n - 1 && (#[trigger] edges[k]).source == node && edges[k].kind
                    == EdgeKind::Inherits && edges[k].target == x && (forall|j: int|
                    0 <= j < k ==> !((#[trigger] edges[j]).source == node && edges[j].kind
                        == EdgeKind::Inherits));
            assert(edges[k].target == x);
        } else if edges[n - 1].source == node && edges[n - 1].kind == EdgeKind::Inherits {
            assert(edges[n - 1].target == edges[n - 1].target);
        }
    }
}

proof fn lemma_inherited_push(edges: Seq<EdgeView>, e: EdgeView, i: int)
    requires
        0 <= i <= edges.len(),
    ensures
        inherited_from(edges.push(e), i) == (match inherited_from(edges, i) {
            Some(x) => Some(x),
            None => if e.kind == EdgeKind::Inherits {
                Some(e.target)
            } else {
                None
            },
        }),
    decreases edges.len() - i,
{
    let all = edges.push(e);
    if i < edges.len() {
        assert(all[i] == edges[i]);
        if edges[i].kind != EdgeKind::Inherits {
            lemma_inherited_push(edges, e, i + 1);
        }
    } else {
        assert(all[i] == e);
        assert(inherited_from(all, i + 1) is None);
    }
}

pub(crate) proof fn lemma_stands_for(g: GraphView, node: NodeId, origin: Option<NodeId>)
    ensures
        stands_for(g, node, origin) <==> inherits_target(g, node) == origin,
{
    let edges = g.edges.edges;
    let n = edges.len() as int;
    lemma_first_out(edges, node, n);
    if stands_for(g, node, origin) && origin is Some {
        let x = origin->0;
        let k = choose|k: int|
            0 <= k < n && (#[trigger] edges[k]).source == node && edges[k].kind
                == EdgeKind::Inherits && edges[k].target == x && (forall|j: int|
                0 <= j < k ==> !((#[trigger] edges[j]).source == node && edges[j].kind
                    == EdgeKind::Inherits));
        let y = inherits_target(g, node)->0;
        let m = choose|m: int|
            0 <= m < n && (#[trigger] edges[m]).source == node && edges[m].kind
                == EdgeKind::Inherits && edges[m].target == y && (forall|j: int|
                0 <= j < m ==> !((#[trigger] edges[j]).source == node && edges[j].kind
                    == EdgeKind::Inherits));
        assert(edges[k].source == node && edges[m].source == node);
        assert(k == m);
    }
}

proof fn lemma_promotes(g: GraphView, keys: Seq<OuterKey>, c: NodeId, e: MethodSetEntry)
    ensures
        promotes(g, keys, c, e.name, e.source) <==> exists|i: int|
            0 <= i < keys.len() && (#[trigger] keys[i]).outer == c && e == (MethodSetEntry {
                name: keys[i].name,
                source: inherits_target(g, keys[i].node),
            }),
{
    if promotes(g, keys, c, e.name, e.source) {
        let k = choose|k: int|
            0 <= k < keys.len() && (#[trigger] keys[k]).outer == c && keys[k].name == e.name
                && stands_for(g, keys[k].node, e.source);
        lemma_stands_for(g, keys[k].node, e.source);
        assert(keys[k].outer == c);
    }
    if exists|i: int|
        0 <= i < keys.len() && (#[trigger] keys[i]).outer == c && e == (MethodSetEntry {
            name: keys[i].name,
            source: inherits_target(g, keys[i].node),
        }) {
        let i = choose|i: int|
            0 <= i < keys.len() && (#[trigger] keys[i]).outer == c && e == (MethodSetEntry {
                name: keys[i].name,
                source: inherits_target(g, keys[i].node),
            });
        lemma_stands_for(g, keys[i].node, e.source);
        assert(keys[i].outer == c);
    }
}

/// The method sets of a type hold what it has by value, and what the pointer to it has.
proof fn lemma_sets(g: GraphView, idx: LocalView, c: NodeId, e: MethodSetEntry)
    requires
        method_sets(g, idx, c) is Some,
    ensures
        method_sets(g, idx, c)->0.value.contains(e) <==> has_by_value(
            g,
            idx,
            c,
            e.name,
            e.source,
        ),
        method_sets(g, idx, c)->0.pointer.contains(e) <==> has_by_pointer(
            g,
            idx,
            c,
            e.name,
            e.source,
        ),
{
    lemma_full_sets(g, idx, c, e);
}

spec fn full_sets(g: GraphView, idx: LocalView, c: NodeId) -> SetsView {
    let native = methods_of(g, g.qn(c)->0);
    with_promoted(
        g,
        with_promoted(
            g,
            native_sets(g, native, idx.outer_value, native.len() as int),
            idx.outer_value,
            c,
            false,
            idx.outer_value.len() as int,
        ),
        idx.outer_pointer,
        c,
        true,
        idx.outer_pointer.len() as int,
    )
}

proof fn lemma_full_sets(g: GraphView, idx: LocalView, c: NodeId, e: MethodSetEntry)
    requires
        g.qn(c) is Some,
    ensures
        full_sets(g, idx, c).value.contains(e) <==> has_by_value(g, idx, c, e.name, e.source),
        full_sets(g, idx, c).pointer.contains(e) <==> has_by_pointer(g, idx, c, e.name, e.source),
{
    let native = methods_of(g, g.qn(c)->0);
    let n = native.len() as int;
    let keys = idx.outer_value;
    let first = native_sets(g, native, keys, n);
    let second = with_promoted(g, first, keys, c, false, keys.len() as int);
    lemma_native(g, native, keys, n, e);
    lemma_promoted(g, first, keys, c, false, keys.len() as int, e);
    lemma_promoted(g, second, idx.outer_pointer, c, true, idx.outer_pointer.len() as int, e);
    lemma_promotes(g, keys, c, e);
    lemma_promotes(g, idx.outer_pointer, c, e);
    if let Some(x) = e.source {
        let m = MethodRef { name: e.name, node: x };
        lemma_methods(g, c, m);
        lemma_takes_value(g, x);
        if native.contains(m) {
            let i = native.index_of(m);
            assert(native[i] == m);
        }
        if exists|i: int|
            0 <= i < n && !is_promoted(keys, (#[trigger] native[i]).node) && e == (MethodSetEntry {
                name: native[i].name,
                source: Some(native[i].node),
            }) {
            let i = choose|i: int|
                0 <= i < n && !is_promoted(keys, (#[trigger] native[i]).node) && e == (
                MethodSetEntry { name: native[i].name, source: Some(native[i].node) });
            assert(native[i] == m);
            assert(native.contains(m));
        }
    }
}

/// `c` has a method named `name` by value that answers to one of that name that `t` asks
/// for.
pub open spec fn answered_by_value(
    g: GraphView,
    idx: LocalView,
    c: NodeId,
    t: NodeId,
    name: StringId,
) -> bool {
    exists|node: NodeId, origin: Option<NodeId>|
        #![trigger asks_for(g, t, node, name), has_by_value(g, idx, c, name, origin)]
        asks_for(g, t, node, name) && has_by_value(g, idx, c, name, origin) && answers_to(
            g,
            origin,
            node,
        )
}

/// The pointer to `c` has a method named `name` that answers to one of that name that `t`
/// asks for.
pub open spec fn answered_by_pointer(
    g: GraphView,
    idx: LocalView,
    c: NodeId,
    t: NodeId,
    name: StringId,
) -> bool {
    exists|node: NodeId, origin: Option<NodeId>|
        #![trigger asks_for(g, t, node, name), has_by_pointer(g, idx, c, name, origin)]
        asks_for(g, t, node, name) && has_by_pointer(g, idx, c, name, origin) && answers_to(
            g,
            origin,
            node,
        )
}

/// For every method that `t` asks for, `c` has one by value.
pub open spec fn value_answers(g: GraphView, idx: LocalView, c: NodeId, t: NodeId) -> bool {
    forall|asked: NodeId, name: StringId| #[trigger]
        asks_for(g, t, asked, name) ==> answered_by_value(g, idx, c, t, name)
}

/// For every method that `t` asks for, the pointer to `c` has one.
pub open spec fn pointer_answers(g: GraphView, idx: LocalView, c: NodeId, t: NodeId) -> bool {
    forall|asked: NodeId, name: StringId| #[trigger]
        asks_for(g, t, asked, name) ==> answered_by_pointer(g, idx, c, t, name)
}

proof fn lemma_satisfied(g: GraphView, idx: LocalView, c: NodeId, t: NodeId)
    requires
        method_sets(g, idx, c) is Some,
    ensures
        satisfies(g, method_sets(g, idx, c)->0.value, required_methods(g, t)) ==> value_answers(
            g,
            idx,
            c,
            t,
        ),
        satisfies(g, method_sets(g, idx, c)->0.pointer, required_methods(g, t)) ==> pointer_answers(
            g,
            idx,
            c,
            t,
        ),
{
    let sets = method_sets(g, idx, c)->0;
    let required = required_methods(g, t);
    lemma_required(g, t);
    if satisfies(g, sets.value, required) {
        assert forall|asked: NodeId, name: StringId| #[trigger]
            asks_for(g, t, asked, name) implies answered_by_value(g, idx, c, t, name) by {
            let k = choose|k: int| 0 <= k < required.len() && (#[trigger] required[k]).name == name;
            let want = required[k];
            assert(required.contains(want));
            assert(set_has(g, sets.value, required[k]));
            let i = choose|i: int|
                0 <= i < sets.value.len() && #[trigger] entry_matches(g, sets.value[i], want);
            let have = sets.value[i];
            assert(sets.value.contains(have));
            lemma_matches(g, have, want);
            lemma_sets(g, idx, c, have);
            assert(asks_for(g, t, want.source->0, name) && has_by_value(
                g,
                idx,
                c,
                name,
                have.source,
            ));
        }
    }
    if satisfies(g, sets.pointer, required) {
        assert forall|asked: NodeId, name: StringId| #[trigger]
            asks_for(g, t, asked, name) implies answered_by_pointer(g, idx, c, t, name) by {
            let k = choose|k: int| 0 <= k < required.len() && (#[trigger] required[k]).name == name;
            let want = required[k];
            assert(required.contains(want));
            assert(set_has(g, sets.pointer, required[k]));
            let i = choose|i: int|
                0 <= i < sets.pointer.len() && #[trigger] entry_matches(g, sets.pointer[i], want);
            let have = sets.pointer[i];
            assert(sets.pointer.contains(have));
            lemma_matches(g, have, want);
            lemma_sets(g, idx, c, have);
            assert(asks_for(g, t, want.source->0, name) && has_by_pointer(
                g,
                idx,
                c,
                name,
                have.source,
            ));
        }
    }
}

/// Whoever has, for each method that `t` asks for, one of its name that agrees with it.
proof fn lemma_satisfies(g: GraphView, idx: LocalView, c: NodeId, t: NodeId)
    requires
        method_sets(g, idx, c) is Some,
    ensures
        (forall|asked: NodeId, name: StringId| #[trigger]
            asks_for(g, t, asked, name) ==> value_has(g, idx, c, asked, name)) ==> satisfies(
            g,
            method_sets(g, idx, c)->0.value,
            required_methods(g, t),
        ),
        (forall|asked: NodeId, name: StringId| #[trigger]
            asks_for(g, t, asked, name) ==> pointer_has(g, idx, c, asked, name)) ==> satisfies(
            g,
            method_sets(g, idx, c)->0.pointer,
            required_methods(g, t),
        ),
{
    let sets = method_sets(g, idx, c)->0;
    let required = required_methods(g, t);
    lemma_required(g, t);
    if forall|asked: NodeId, name: StringId| #[trigger]
        asks_for(g, t, asked, name) ==> value_has(g, idx, c, asked, name) {
        assert forall|k: int| 0 <= k < required.len() implies set_has(
            g,
            sets.value,
            #[trigger] required[k],
        ) by {
            let want = required[k];
            assert(required.contains(want));
            assert(value_has(g, idx, c, want.source->0, want.name));
            let origin = choose|origin: Option<NodeId>| #[trigger]
                has_by_value(g, idx, c, want.name, origin) && answers_to(
                    g,
                    origin,
                    want.source->0,
                );
            let have = MethodSetEntry { name: want.name, source: origin };
            lemma_sets(g, idx, c, have);
            lemma_matches(g, have, want);
            let i = sets.value.index_of(have);
            assert(entry_matches(g, sets.value[i], want));
        }
    }
    if forall|asked: NodeId, name: StringId| #[trigger]
        asks_for(g, t, asked, name) ==> pointer_has(g, idx, c, asked, name) {
        assert forall|k: int| 0 <= k < required.len() implies set_has(
            g,
            sets.pointer,
            #[trigger] required[k],
        ) by {
            let want = required[k];
            assert(required.contains(want));
            assert(pointer_has(g, idx, c, want.source->0, want.name));
            let origin = choose|origin: Option<NodeId>| #[trigger]
                has_by_pointer(g, idx, c, want.name, origin) && answers_to(
                    g,
                    origin,
                    want.source->0,
                );
            let have = MethodSetEntry { name: want.name, source: origin };
            lemma_sets(g, idx, c, have);
            lemma_matches(g, have, want);
            let i = sets.pointer.index_of(have);
            assert(entry_matches(g, sets.pointer[i], want));
        }
    }
}

/// `c` has a method of that name by value that answers to `asked`.
pub open spec fn value_has(
    g: GraphView,
    idx: LocalView,
    c: NodeId,
    asked: NodeId,
    name: StringId,
) -> bool {
    exists|origin: Option<NodeId>| #[trigger]
        has_by_value(g, idx, c, name, origin) && answers_to(g, origin, asked)
}

/// The pointer to `c` has a method of that name that answers to `asked`.
pub open spec fn pointer_has(
    g: GraphView,
    idx: LocalView,
    c: NodeId,
    asked: NodeId,
    name: StringId,
) -> bool {
    exists|origin: Option<NodeId>| #[trigger]
        has_by_pointer(g, idx, c, name, origin) && answers_to(g, origin, asked)
}

/// Every implementation edge from a type leads to an interface, other than the type itself,
/// that asks for something, and for everything it asks for the type has a method of that
/// name by value, with the same recorded signature. The same holds of the pointer to some
/// type where the edge is that of a pointer.
pub proof fn law_implementations_have_what_is_asked_for(g: GraphView, idx: LocalView, k: int)
    requires
        0 <= k < implements_edges(g, idx).len(),
    ensures
        ({
            let e = implements_edges(g, idx)[k];
            &&& is_indexed(g, e.target, NodeKind::Interface)
            &&& exists|node: NodeId, name: StringId| #[trigger] asks_for(g, e.target, node, name)
            &&& !e.pointer ==> e.source != e.target && value_answers(g, idx, e.source, e.target)
            &&& e.pointer ==> exists|c: NodeId| #[trigger]
                pointer_answers(g, idx, c, e.target) && c != e.target && (e.pointer_only
                    ==> !implements(g, idx, c, e.target))
        }),
{
    let e = implements_edges(g, idx)[k];
    let t = e.target;
    law_implements_edges_are_earned(g, idx);
    assert(earned(g, idx, implements_edges(g, idx)[k]));
    let c = if e.pointer {
        choose|c: NodeId| #[trigger]
            pointer_implements(g, idx, c, t) && (e.pointer_only <==> !implements(g, idx, c, t))
    } else {
        e.source
    };
    lemma_satisfied(g, idx, c, t);
    lemma_required(g, t);
    let all = indexed(g, NodeKind::Interface);
    lemma_in_order(all, t);
    lemma_kind_rows(g.indices, NodeKind::Interface, g.indices.len() as int, t);
    let first = required_methods(g, t)[0];
    assert(required_methods(g, t).contains(first));
    assert(asks_for(g, t, first.source->0, first.name));
    if e.pointer {
        assert(pointer_answers(g, idx, c, t));
    }
}

pub(crate) proof fn lemma_in_order(nodes: Seq<NodeId>, x: NodeId)
    ensures
        in_order(nodes).contains(x) <==> nodes.contains(x),
{
    let s = sorted(nodes);
    let kept = in_order(nodes);
    law_deduped_keeps_keys(s, s.len() as int);
    lemma_sorted_contains(nodes, x);
    if kept.contains(x) {
        let k = kept.index_of(x);
        assert(s.contains(deduped(s, s.len() as int)[k]));
    }
    if nodes.contains(x) {
        let i = s.index_of(x);
        assert(stands_in(kept, s[i]));
        if !kept.contains(x) {
            let k = choose|k: int| 0 <= k < kept.len() && (#[trigger] kept[k]).same_rank(x);
            assert(kept[k] == x);
        }
    }
}

proof fn lemma_originals(
    g: GraphView,
    found: Seq<NodeId>,
    nodes: Seq<NodeId>,
    n: int,
    x: NodeId,
)
    requires
        0 <= n <= nodes.len(),
    ensures
        with_originals(g, found, nodes, n).contains(x) <==> found.contains(x) || (nodes.take(
            n,
        ).contains(x) && !is_pointer_form(g, x)),
    decreases n,
{
    if n > 0 {
        lemma_originals(g, found, nodes, n - 1, x);
        let before = with_originals(g, found, nodes, n - 1);
        let after = with_originals(g, found, nodes, n);
        let few = nodes.take(n - 1);
        let more = nodes.take(n);
        if few.contains(x) {
            assert(more[few.index_of(x)] == x);
        }
        assert(more[n - 1] == nodes[n - 1]);
        if more.contains(x) && x != nodes[n - 1] {
            assert(few[more.index_of(x)] == x);
        }
        if before.contains(x) {
            assert(after[before.index_of(x)] == x);
        }
        if after.contains(x) && !before.contains(x) {
            let i = after.index_of(x);
            if i < before.len() {
                assert(before[i] == x);
            }
        }
        if after.len() > before.len() {
            assert(after[before.len() as int] == nodes[n - 1]);
        }
    } else {
        assert(nodes.take(0) =~= Seq::empty());
    }
}

/// `c` is indexed as a struct, an interface or a named type, and not as a pointer.
pub open spec fn is_type(g: GraphView, c: NodeId) -> bool {
    &&& is_indexed(g, c, NodeKind::Struct) || is_indexed(g, c, NodeKind::Interface) || is_indexed(
        g,
        c,
        NodeKind::Type,
    )
    &&& !(g.qn(c) is Some && contains_text(g.qn(c)->0, "::*"@))
}

proof fn lemma_candidate(g: GraphView, c: NodeId)
    ensures
        candidate_types(g).contains(c) <==> is_type(g, c),
{
    let s = indexed(g, NodeKind::Struct);
    let i = indexed(g, NodeKind::Interface);
    let t = indexed(g, NodeKind::Type);
    let none = Seq::<NodeId>::empty();
    let a = with_originals(g, none, s, s.len() as int);
    let b = with_originals(g, a, i, i.len() as int);
    let all = with_originals(g, b, t, t.len() as int);
    let n = g.indices.len() as int;
    lemma_kind_rows(g.indices, NodeKind::Struct, n, c);
    lemma_kind_rows(g.indices, NodeKind::Interface, n, c);
    lemma_kind_rows(g.indices, NodeKind::Type, n, c);
    lemma_originals(g, none, s, s.len() as int, c);
    lemma_originals(g, a, i, i.len() as int, c);
    lemma_originals(g, b, t, t.len() as int, c);
    assert(s.take(s.len() as int) =~= s);
    assert(i.take(i.len() as int) =~= i);
    assert(t.take(t.len() as int) =~= t);
    lemma_in_order(all, c);
}

proof fn lemma_implements(g: GraphView, idx: LocalView, c: NodeId, t: NodeId)
    requires
        is_type(g, c),
        g.qn(c) is Some,
        is_indexed(g, t, NodeKind::Interface),
        c != t,
        exists|node: NodeId, name: StringId| #[trigger] asks_for(g, t, node, name),
    ensures
        (forall|asked: NodeId, name: StringId| #[trigger]
            asks_for(g, t, asked, name) ==> value_has(g, idx, c, asked, name)) ==> implements(
            g,
            idx,
            c,
            t,
        ),
        (forall|asked: NodeId, name: StringId| #[trigger]
            asks_for(g, t, asked, name) ==> pointer_has(g, idx, c, asked, name))
            ==> pointer_implements(g, idx, c, t),
{
    lemma_candidate(g, c);
    let all = indexed(g, NodeKind::Interface);
    lemma_in_order(all, t);
    lemma_kind_rows(g.indices, NodeKind::Interface, g.indices.len() as int, t);
    lemma_required(g, t);
    let (node, name) = choose|node: NodeId, name: StringId| #[trigger] asks_for(g, t, node, name);
    let required = required_methods(g, t);
    let k = choose|k: int| 0 <= k < required.len() && (#[trigger] required[k]).name == name;
    assert(required[k].name == name);
    let sets = full_sets(g, idx, c);
    if (forall|asked: NodeId, name: StringId| #[trigger]
        asks_for(g, t, asked, name) ==> value_has(g, idx, c, asked, name)) {
        assert(value_has(g, idx, c, node, name));
        let origin = choose|origin: Option<NodeId>| #[trigger]
            has_by_value(g, idx, c, name, origin) && answers_to(g, origin, node);
        let e = MethodSetEntry { name, source: origin };
        lemma_full_sets(g, idx, c, e);
        assert(has_by_pointer(g, idx, c, name, origin));
        assert(sets.pointer[sets.pointer.index_of(e)] == e);
        assert(method_sets(g, idx, c) == Some(sets));
        lemma_satisfies(g, idx, c, t);
    }
    if (forall|asked: NodeId, name: StringId| #[trigger]
        asks_for(g, t, asked, name) ==> pointer_has(g, idx, c, asked, name)) {
        assert(pointer_has(g, idx, c, node, name));
        let origin = choose|origin: Option<NodeId>| #[trigger]
            has_by_pointer(g, idx, c, name, origin) && answers_to(g, origin, node);
        let e = MethodSetEntry { name, source: origin };
        lemma_full_sets(g, idx, c, e);
        assert(sets.pointer[sets.pointer.index_of(e)] == e);
        assert(method_sets(g, idx, c) == Some(sets));
        lemma_satisfies(g, idx, c, t);
    }
}

/// A type that has by value, for every method that an interface asks for, one of the same
/// name with the same recorded signature, gets an edge to that interface. Edges are told
/// apart by the places of their ends.
pub proof fn law_whoever_has_what_is_asked_for_implements(
    g: GraphView,
    idx: LocalView,
    c: NodeId,
    t: NodeId,
)
    requires
        is_type(g, c),
        g.qn(c) is Some,
        is_indexed(g, t, NodeKind::Interface),
        c != t,
        exists|node: NodeId, name: StringId| #[trigger] asks_for(g, t, node, name),
        forall|asked: NodeId, name: StringId| #[trigger]
            asks_for(g, t, asked, name) ==> value_has(g, idx, c, asked, name),
    ensures
        exists|k: int|
            0 <= k < implements_edges(g, idx).len() && (#[trigger] implements_edges(
                g,
                idx,
            )[k]).source.index == c.index && implements_edges(g, idx)[k].target.index == t.index
                && !implements_edges(g, idx)[k].pointer,
{
    lemma_implements(g, idx, c, t);
    law_no_implementation_is_missed(g, idx, c, t);
}

/// The same holds of the pointer to a type, where there is a node for it.
pub proof fn law_whoever_has_what_is_asked_for_by_pointer_implements(
    g: GraphView,
    idx: LocalView,
    c: NodeId,
    t: NodeId,
)
    requires
        g.strings.wf(),
        is_type(g, c),
        g.qn(c) is Some,
        is_indexed(g, t, NodeKind::Interface),
        c != t,
        exists|node: NodeId, name: StringId| #[trigger] asks_for(g, t, node, name),
        forall|asked: NodeId, name: StringId| #[trigger]
            asks_for(g, t, asked, name) ==> pointer_has(g, idx, c, asked, name),
        pointer_to(judged(g, idx).st, c) is Some,
    ensures
        exists|k: int|
            0 <= k < implements_edges(g, idx).len() && (#[trigger] implements_edges(
                g,
                idx,
            )[k]).source.index == pointer_to(judged(g, idx).st, c)->0.index && implements_edges(
                g,
                idx,
            )[k].target.index == t.index && implements_edges(g, idx)[k].pointer,
{
    lemma_implements(g, idx, c, t);
    law_no_pointer_implementation_is_missed(g, idx, c, t);
}

} // verus!
