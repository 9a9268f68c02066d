//! Two runs of the pass find the same method sets.

use vstd::prelude::*;

use crate::arena::live;
use crate::graph::GraphView;
use crate::ids::NodeId;
use crate::indices::{nodes_of_kind, IndexRow};
use crate::kinds::NodeKind;
use crate::pass_go_method_set::lookup::{
    embedded_interfaces, has_name, inherits_target, member_of, members_among, methods_of,
    with_new_names, MAX_INTERFACE_EMBED_DEPTH, MethodRef,
};
use crate::pass_go_method_set::materialise::{LocalView, OuterKey};
use crate::pass_go_method_set::promotion::{declared_receiver, receiver_of};
use crate::pass_go_method_set::rerun::{hinted_truly, lemma_unhinted};
use crate::pass_go_method_set::satisfaction::{
    demanding, entries_of, entry_matches, in_order, indexed, interface_methods_of, interface_sets,
    is_promoted, method_sets, method_signature, native_sets, required_methods, satisfies, set_has,
    with_promoted, InterfaceView, MethodSetEntry, SetsView,
};
use crate::pass_go_method_set::steady::{all_were_there, lemma_embedded_over, over, was_there};
use crate::pass_go_method_set::twin_shadows::{called_truly, lemma_twin_inherits};
use crate::pass_go_method_set::twins::{
    lemma_peer, lemma_peers_apart, lemma_twin_qn, option_peer, peer, rows_settled, twin_notes,
    twin_outers, twins,
};
use crate::pass_go_method_set::undo::{known, made, named_truly};
use crate::sorting::{
    deduped, law_deduped_keeps_keys, lemma_deduped_mapped, lemma_sorted_contains,
    lemma_sorted_mapped, sorted, Ranked,
};

verus! {

/// A method, where it stands in `t`.
pub open spec fn peer_method(g: GraphView, t: GraphView, m: MethodRef) -> MethodRef {
    MethodRef { node: peer(g, t, m.node), ..m }
}

/// The methods are there.
pub open spec fn methods_there(b: GraphView, s: Seq<MethodRef>) -> bool {
    forall|i: int| 0 <= i < s.len() ==> live(b.nodes, (#[trigger] s[i]).node) is Some
}

/// A run that has come from `g` to `b`, and one that has come from `t` to `c`, where `t`
/// is what the first gives back.
pub open spec fn runs(g: GraphView, t: GraphView, b: GraphView, c: GraphView) -> bool {
    &&& twins(g, t, b, c)
    &&& over(g, b)
    &&& over(g, c)
    &&& named_truly(b)
    &&& g.indices.is_prefix_of(t.indices)
    &&& forall|i: int|
        g.indices.len() <= i < t.indices.len() ==> live(
            c.nodes,
            (#[trigger] t.indices[i]).node,
        ) is None
    &&& indexed(b, NodeKind::Interface) == indexed(g, NodeKind::Interface)
    &&& indexed(c, NodeKind::Interface) == indexed(g, NodeKind::Interface)
    &&& hinted_truly(g)
    &&& called_truly(g)
}

/// A node of `g` is known by the same name, and nothing else is known.
proof fn lemma_known_row(g: GraphView, t: GraphView, b: GraphView, c: GraphView, x: NodeId)
    requires
        runs(g, t, b, c),
        was_there(g, b, x),
        was_there(g, c, x),
    ensures
        live(c.nodes, x) == live(b.nodes, x),
        c.qn(x) == b.qn(x),
        live(b.nodes, x) is Some ==> peer(g, t, x) == x && live(g.nodes, x) is Some,
{
    if live(g.nodes, x) is Some {
        assert(live(b.nodes, x) == live(g.nodes, x));
        assert(live(c.nodes, x) == live(g.nodes, x));
        lemma_peer(g, t, b, c, x);
    }
}

proof fn lemma_members_push(d: GraphView, q: Seq<char>, nodes: Seq<NodeId>, x: NodeId, n: int)
    requires
        0 <= n <= nodes.len(),
    ensures
        members_among(d, q, nodes.push(x), n) == members_among(d, q, nodes, n),
    decreases n,
{
    if n > 0 {
        lemma_members_push(d, q, nodes, x, n - 1);
        assert(nodes.push(x)[n - 1] == nodes[n - 1]);
    }
}

/// The members among the methods of the first `n` index rows.
pub open spec fn row_members(d: GraphView, q: Seq<char>, n: int) -> Seq<MethodRef> {
    let nodes = nodes_of_kind(d.indices, NodeKind::Method, n);
    members_among(d, q, nodes, nodes.len() as int)
}

proof fn lemma_row_members(d: GraphView, q: Seq<char>, n: int)
    requires
        0 < n <= d.indices.len(),
    ensures
        ({
            let r = d.indices[n - 1];
            row_members(d, q, n) == (if r.kind == NodeKind::Method && d.qn(r.node) is Some
                && member_of(d.qn(r.node)->0, q) {
                row_members(d, q, n - 1).push(
                    MethodRef { name: live(d.nodes, r.node)->0.name, node: r.node },
                )
            } else {
                row_members(d, q, n - 1)
            })
        }),
{
    let before = nodes_of_kind(d.indices, NodeKind::Method, n - 1);
    let x = d.indices[n - 1].node;
    lemma_members_push(d, q, before, x, before.len() as int);
    assert(before.push(x)[before.len() as int] == x);
}

proof fn lemma_twin_early_members(
    g: GraphView,
    t: GraphView,
    b: GraphView,
    c: GraphView,
    q: Seq<char>,
    n: int,
)
    requires
        runs(g, t, b, c),
        0 <= n <= g.indices.len(),
    ensures
        row_members(c, q, n) == row_members(b, q, n).map_values(
            |m: MethodRef| peer_method(g, t, m),
        ),
        methods_there(b, row_members(b, q, n)),
    decreases n,
{
    let f = |m: MethodRef| peer_method(g, t, m);
    if n > 0 {
        lemma_twin_early_members(g, t, b, c, q, n - 1);
        lemma_row_members(b, q, n);
        lemma_row_members(c, q, n);
        let r = g.indices[n - 1];
        assert(b.indices[n - 1] == r);
        assert(t.indices[n - 1] == r);
        assert(c.indices[n - 1] == r);
        assert(was_there(g, b, g.indices[n - 1].node));
        assert(was_there(g, c, g.indices[n - 1].node));
        lemma_known_row(g, t, b, c, r.node);
        let before = row_members(b, q, n - 1);
        let m = MethodRef { name: live(b.nodes, r.node)->0.name, node: r.node };
        assert(before.push(m).map_values(f) =~= before.map_values(f).push(f(m)));
    } else {
        assert(row_members(c, q, n) =~= row_members(b, q, n).map_values(f));
    }
}

proof fn lemma_stale_members(
    g: GraphView,
    t: GraphView,
    b: GraphView,
    c: GraphView,
    q: Seq<char>,
    n: int,
)
    requires
        runs(g, t, b, c),
        g.indices.len() <= n <= t.indices.len(),
    ensures
        row_members(c, q, n) == row_members(c, q, g.indices.len() as int),
    decreases n,
{
    if n > g.indices.len() {
        lemma_stale_members(g, t, b, c, q, n - 1);
        lemma_row_members(c, q, n);
        assert(c.indices[n - 1] == t.indices[n - 1]);
        assert(live(c.nodes, t.indices[n - 1].node) is None);
    }
}

proof fn lemma_twin_late_members(
    g: GraphView,
    t: GraphView,
    b: GraphView,
    c: GraphView,
    q: Seq<char>,
    n: int,
)
    requires
        runs(g, t, b, c),
        g.indices.len() <= n <= b.indices.len(),
    ensures
        row_members(c, q, n - g.indices.len() + t.indices.len()) == row_members(
            b,
            q,
            n,
        ).map_values(|m: MethodRef| peer_method(g, t, m)),
        methods_there(b, row_members(b, q, n)),
    decreases n,
{
    let f = |m: MethodRef| peer_method(g, t, m);
    if n > g.indices.len() {
        lemma_twin_late_members(g, t, b, c, q, n - 1);
        let k = n - g.indices.len() + t.indices.len();
        lemma_row_members(b, q, n);
        lemma_row_members(c, q, k);
        let r = b.indices[n - 1];
        assert(live(b.nodes, b.indices[n - 1].node) is Some);
        assert(c.indices[k - 1] == (IndexRow { node: peer(g, t, r.node), ..r }));
        lemma_twin_qn(g, t, b, c, r.node);
        lemma_peer(g, t, b, c, r.node);
        let before = row_members(b, q, n - 1);
        let m = MethodRef { name: live(b.nodes, r.node)->0.name, node: r.node };
        assert(before.push(m).map_values(f) =~= before.map_values(f).push(f(m)));
    } else {
        lemma_twin_early_members(g, t, b, c, q, n);
        lemma_stale_members(g, t, b, c, q, t.indices.len() as int);
    }
}

proof fn lemma_twin_methods_of(
    g: GraphView,
    t: GraphView,
    b: GraphView,
    c: GraphView,
    q: Seq<char>,
)
    requires
        runs(g, t, b, c),
    ensures
        methods_of(c, q) == methods_of(b, q).map_values(|m: MethodRef| peer_method(g, t, m)),
        methods_there(b, methods_of(b, q)),
{
    let f = |m: MethodRef| peer_method(g, t, m);
    let n = b.indices.len() as int;
    lemma_twin_late_members(g, t, b, c, q, n);
    let found = row_members(b, q, n);
    lemma_sorted_mapped(f, found);
    let s = sorted(found);
    assert forall|i: int| 0 <= i < s.len() implies live(b.nodes, (#[trigger] s[i]).node) is Some by {
        assert(s.contains(s[i]));
        lemma_sorted_contains(found, s[i]);
        let k = found.index_of(s[i]);
        assert(live(b.nodes, found[k].node) is Some);
    }
    assert forall|i: int, j: int|
        #![trigger s[i], s[j]]
        0 <= i < s.len() && 0 <= j < s.len() implies f(s[i]).same_rank(f(s[j])) == s[i].same_rank(
        s[j],
    ) by {
        lemma_peers_apart(g, t, b, c, s[i].node, s[j].node);
    }
    lemma_deduped_mapped(f, s, s.len() as int);
    law_deduped_keeps_keys(s, s.len() as int);
    let r = methods_of(b, q);
    assert forall|i: int| 0 <= i < r.len() implies live(b.nodes, (#[trigger] r[i]).node) is Some by {
        assert(s.contains(deduped(s, s.len() as int)[i]));
        let k = s.index_of(r[i]);
        assert(live(b.nodes, s[k].node) is Some);
    }
}

proof fn lemma_twin_new_names(
    g: GraphView,
    t: GraphView,
    b: GraphView,
    found: Seq<MethodRef>,
    more: Seq<MethodRef>,
    n: int,
)
    requires
        0 <= n <= more.len(),
        methods_there(b, found),
        methods_there(b, more),
    ensures
        with_new_names(
            found.map_values(|m: MethodRef| peer_method(g, t, m)),
            more.map_values(|m: MethodRef| peer_method(g, t, m)),
            n,
        ) == with_new_names(found, more, n).map_values(|m: MethodRef| peer_method(g, t, m)),
        methods_there(b, with_new_names(found, more, n)),
    decreases n,
{
    let f = |m: MethodRef| peer_method(g, t, m);
    if n > 0 {
        lemma_twin_new_names(g, t, b, found, more, n - 1);
        let before = with_new_names(found, more, n - 1);
        let m = more[n - 1];
        let others = before.map_values(f);
        assert(more.map_values(f)[n - 1] == f(m));
        assert(live(b.nodes, more[n - 1].node) is Some);
        if has_name(before, m.name) {
            let i = choose|i: int| 0 <= i < before.len() && (#[trigger] before[i]).name == m.name;
            assert(others[i].name == m.name);
        }
        if has_name(others, m.name) {
            let i = choose|i: int| 0 <= i < others.len() && (#[trigger] others[i]).name == m.name;
            assert(before[i].name == m.name);
        }
        assert(before.push(m).map_values(f) =~= others.push(f(m)));
    }
}

proof fn lemma_twin_interface_methods(
    g: GraphView,
    t: GraphView,
    b: GraphView,
    c: GraphView,
    types: Seq<NodeId>,
    n: int,
)
    requires
        runs(g, t, b, c),
        all_were_there(g, b, types),
        all_were_there(g, c, types),
        0 <= n <= types.len(),
    ensures
        interface_methods_of(c, types, n) == interface_methods_of(b, types, n).map_values(
            |m: MethodRef| peer_method(g, t, m),
        ),
        methods_there(b, interface_methods_of(b, types, n)),
    decreases n,
{
    let f = |m: MethodRef| peer_method(g, t, m);
    if n > 0 {
        lemma_twin_interface_methods(g, t, b, c, types, n - 1);
        let x = types[n - 1];
        assert(was_there(g, b, types[n - 1]));
        assert(was_there(g, c, types[n - 1]));
        lemma_known_row(g, t, b, c, x);
        if let Some(q) = b.qn(x) {
            lemma_twin_methods_of(g, t, b, c, q);
            lemma_twin_new_names(
                g,
                t,
                b,
                interface_methods_of(b, types, n - 1),
                methods_of(b, q),
                methods_of(b, q).len() as int,
            );
        }
    } else {
        assert(interface_methods_of(c, types, n) =~= interface_methods_of(b, types, n).map_values(
            f,
        ));
    }
}

/// An entry of a method set, from where its method stands in `t`.
pub open spec fn peer_entry(g: GraphView, t: GraphView, e: MethodSetEntry) -> MethodSetEntry {
    MethodSetEntry { source: option_peer(g, t, e.source), ..e }
}

/// The methods of a set are there, or gone for good.
pub open spec fn entries_there(g: GraphView, b: GraphView, s: Seq<MethodSetEntry>) -> bool {
    forall|i: int| 0 <= i < s.len() ==> source_there(g, b, #[trigger] s[i])
}

/// The method of an entry is there, or gone for good.
pub open spec fn source_there(g: GraphView, b: GraphView, e: MethodSetEntry) -> bool {
    e.source matches Some(x) ==> known(g, b, x)
}

proof fn lemma_twin_required(
    g: GraphView,
    t: GraphView,
    b: GraphView,
    c: GraphView,
    iface: NodeId,
)
    requires
        runs(g, t, b, c),
        was_there(g, b, iface),
        was_there(g, c, iface),
    ensures
        required_methods(c, iface) == required_methods(b, iface).map_values(
            |e: MethodSetEntry| peer_entry(g, t, e),
        ),
        entries_there(g, b, required_methods(b, iface)),
{
    let f = |e: MethodSetEntry| peer_entry(g, t, e);
    let h = |m: MethodRef| peer_method(g, t, m);
    let depth = MAX_INTERFACE_EMBED_DEPTH - 1;
    lemma_embedded_over(g, b, iface, depth);
    lemma_embedded_over(g, c, iface, depth);
    let all = embedded_interfaces(g, iface, false, depth);
    lemma_twin_interface_methods(g, t, b, c, all, all.len() as int);
    let methods = interface_methods_of(b, all, all.len() as int);
    let entries = entries_of(methods);
    assert(entries_of(methods.map_values(h)) =~= entries.map_values(f));
    lemma_sorted_mapped(f, entries);
    let s = sorted(entries);
    assert forall|i: int| 0 <= i < s.len() implies source_there(g, b, #[trigger] s[i]) by {
        assert(s.contains(s[i]));
        lemma_sorted_contains(entries, s[i]);
        let k = entries.index_of(s[i]);
        assert(live(b.nodes, methods[k].node) is Some);
    }
}

/// An interface that requires the methods that stand in `t` where its own do.
pub open spec fn peer_interface(g: GraphView, t: GraphView, v: InterfaceView) -> InterfaceView {
    InterfaceView {
        node: v.node,
        required: v.required.map_values(|e: MethodSetEntry| peer_entry(g, t, e)),
    }
}

/// The interfaces and what they require are there.
pub open spec fn interfaces_there(
    g: GraphView,
    b: GraphView,
    c: GraphView,
    s: Seq<InterfaceView>,
) -> bool {
    forall|i: int|
        0 <= i < s.len() ==> was_there(g, b, (#[trigger] s[i]).node) && was_there(g, c, s[i].node)
            && known(g, g, s[i].node) && entries_there(g, b, s[i].required)
}

proof fn lemma_twin_demanding(
    g: GraphView,
    t: GraphView,
    b: GraphView,
    c: GraphView,
    nodes: Seq<NodeId>,
    n: int,
)
    requires
        runs(g, t, b, c),
        all_were_there(g, b, nodes),
        all_were_there(g, c, nodes),
        forall|i: int| 0 <= i < nodes.len() ==> known(g, g, #[trigger] nodes[i]),
        0 <= n <= nodes.len(),
    ensures
        demanding(c, nodes, n) == demanding(b, nodes, n).map_values(
            |v: InterfaceView| peer_interface(g, t, v),
        ),
        interfaces_there(g, b, c, demanding(b, nodes, n)),
    decreases n,
{
    let f = |v: InterfaceView| peer_interface(g, t, v);
    if n > 0 {
        lemma_twin_demanding(g, t, b, c, nodes, n - 1);
        assert(was_there(g, b, nodes[n - 1]));
        assert(was_there(g, c, nodes[n - 1]));
        lemma_twin_required(g, t, b, c, nodes[n - 1]);
        let before = demanding(b, nodes, n - 1);
        let v = InterfaceView { node: nodes[n - 1], required: required_methods(b, nodes[n - 1]) };
        assert(before.push(v).map_values(f) =~= before.map_values(f).push(f(v)));
    } else {
        assert(demanding(c, nodes, n) =~= demanding(b, nodes, n).map_values(f));
    }
}

proof fn lemma_kind_nodes(rows: Seq<IndexRow>, kind: NodeKind, n: int)
    requires
        0 <= n <= rows.len(),
    ensures
        forall|i: int|
            0 <= i < nodes_of_kind(rows, kind, n).len() ==> exists|k: int|
                0 <= k < n && (#[trigger] rows[k]).node == #[trigger] nodes_of_kind(
                    rows,
                    kind,
                    n,
                )[i] && rows[k].kind == kind,
    decreases n,
{
    if n > 0 {
        lemma_kind_nodes(rows, kind, n - 1);
        let before = nodes_of_kind(rows, kind, n - 1);
        let after = nodes_of_kind(rows, kind, n);
        assert forall|i: int| 0 <= i < after.len() implies exists|k: int|
            0 <= k < n && (#[trigger] rows[k]).node == #[trigger] after[i] && rows[k].kind == kind by {
            if i < before.len() {
                assert(after[i] == before[i]);
                let k = choose|k: int|
                    0 <= k < n - 1 && (#[trigger] rows[k]).node == before[i] && rows[k].kind
                        == kind;
                assert(rows[k].node == after[i]);
            } else {
                assert(rows[n - 1].node == after[i]);
            }
        }
    }
}

/// Two runs hold types against the same interfaces.
pub(crate) proof fn lemma_twin_interfaces(g: GraphView, t: GraphView, b: GraphView, c: GraphView)
    requires
        runs(g, t, b, c),
        rows_settled(g),
    ensures
        interface_sets(c) == interface_sets(b).map_values(
            |v: InterfaceView| peer_interface(g, t, v),
        ),
        interfaces_there(g, b, c, interface_sets(b)),
{
    let all = indexed(g, NodeKind::Interface);
    let s = sorted(all);
    let nodes = in_order(all);
    law_deduped_keeps_keys(s, s.len() as int);
    lemma_kind_nodes(g.indices, NodeKind::Interface, g.indices.len() as int);
    assert forall|i: int| 0 <= i < nodes.len() implies was_there(g, b, #[trigger] nodes[i])
        && was_there(g, c, nodes[i]) && known(g, g, nodes[i]) by {
        assert(s.contains(deduped(s, s.len() as int)[i]));
        lemma_sorted_contains(all, nodes[i]);
        let m = all.index_of(nodes[i]);
        assert(nodes_of_kind(g.indices, NodeKind::Interface, g.indices.len() as int)[m]
            == nodes[i]);
        let k = choose|k: int|
            0 <= k < g.indices.len() && (#[trigger] g.indices[k]).node == nodes[i]
                && g.indices[k].kind == NodeKind::Interface;
        assert(was_there(g, b, g.indices[k].node));
        assert(was_there(g, c, g.indices[k].node));
        assert(known(g, g, g.indices[k].node));
    }
    lemma_twin_demanding(g, t, b, c, nodes, nodes.len() as int);
}

/// What is made is neither hinted at nor has a signature, in either run.
proof fn lemma_twin_hints(g: GraphView, t: GraphView, b: GraphView, c: GraphView, x: NodeId)
    requires
        runs(g, t, b, c),
        known(g, b, x),
    ensures
        declared_receiver(c, peer(g, t, x)) == declared_receiver(b, x),
        method_signature(c, peer(g, t, x)) == method_signature(b, x),
{
    lemma_peer(g, t, b, c, x);
    if !known(g, g, x) {
        let y = peer(g, t, x);
        if live(g.nodes, y) is Some {
            assert(live(b.nodes, y) is Some);
            lemma_peers_apart(g, t, b, c, x, y);
            lemma_peer(g, t, b, c, y);
        }
        assert(live(c.nodes, y) is Some);
        let m = g.hints.method_signatures;
        let r = g.hints.method_receivers;
        assert forall|i: int| 0 <= i < m.len() implies (#[trigger] m[i]).node != x && m[i].node
            != y by {
            assert(known(g, g, g.hints.method_signatures[i].node));
        }
        lemma_unhinted(m, x, m.len() as int);
        lemma_unhinted(m, y, m.len() as int);
        lemma_no_receiver(g, x, r.len() as int);
        lemma_no_receiver(g, y, r.len() as int);
    }
}

proof fn lemma_no_receiver(g: GraphView, x: NodeId, n: int)
    requires
        called_truly(g),
        !known(g, g, x),
        0 <= n <= g.hints.method_receivers.len(),
    ensures
        receiver_of(g.hints.method_receivers, x, n) == receiver_of(g.hints.method_receivers, x, 0),
    decreases n,
{
    if n > 0 {
        lemma_no_receiver(g, x, n - 1);
        assert(known(g, g, g.hints.method_receivers[n - 1].method_node));
    }
}

/// Method sets of the methods that stand in `t` where the given ones do.
pub open spec fn peer_sets(g: GraphView, t: GraphView, s: SetsView) -> SetsView {
    SetsView {
        value: s.value.map_values(|e: MethodSetEntry| peer_entry(g, t, e)),
        pointer: s.pointer.map_values(|e: MethodSetEntry| peer_entry(g, t, e)),
    }
}

/// The methods of both sets are there, or gone for good.
pub open spec fn sets_there(g: GraphView, b: GraphView, s: SetsView) -> bool {
    entries_there(g, b, s.value) && entries_there(g, b, s.pointer)
}

proof fn lemma_twin_native(
    g: GraphView,
    t: GraphView,
    b: GraphView,
    c: GraphView,
    methods: Seq<MethodRef>,
    x: Seq<OuterKey>,
    y: Seq<OuterKey>,
    n: int,
)
    requires
        runs(g, t, b, c),
        twin_outers(g, t, b, x, y),
        methods_there(b, methods),
        0 <= n <= methods.len(),
    ensures
        native_sets(c, methods.map_values(|m: MethodRef| peer_method(g, t, m)), y, n) == peer_sets(
            g,
            t,
            native_sets(b, methods, x, n),
        ),
        sets_there(g, b, native_sets(b, methods, x, n)),
    decreases n,
{
    let f = |e: MethodSetEntry| peer_entry(g, t, e);
    let others = methods.map_values(|m: MethodRef| peer_method(g, t, m));
    if n > 0 {
        lemma_twin_native(g, t, b, c, methods, x, y, n - 1);
        let m = methods[n - 1];
        assert(others[n - 1] == peer_method(g, t, m));
        assert(live(b.nodes, methods[n - 1].node) is Some);
        if is_promoted(x, m.node) {
            let i = choose|i: int| 0 <= i < x.len() && (#[trigger] x[i]).node == m.node;
            assert(y[i].node == peer(g, t, m.node));
        }
        if is_promoted(y, peer(g, t, m.node)) {
            let i = choose|i: int| 0 <= i < y.len() && (#[trigger] y[i]).node == peer(g, t, m.node);
            assert(live(b.nodes, x[i].node) is Some);
            lemma_peers_apart(g, t, b, c, x[i].node, m.node);
        }
        lemma_twin_hints(g, t, b, c, m.node);
        let before = native_sets(b, methods, x, n - 1);
        let e = MethodSetEntry { name: m.name, source: Some(m.node) };
        assert(source_there(g, b, e));
        assert(before.value.push(e).map_values(f) =~= before.value.map_values(f).push(f(e)));
        assert(before.pointer.push(e).map_values(f) =~= before.pointer.map_values(f).push(f(e)));
    } else {
        let none = Seq::<MethodSetEntry>::empty();
        assert(none.map_values(f) =~= none);
    }
}

proof fn lemma_twin_with_promoted(
    g: GraphView,
    t: GraphView,
    b: GraphView,
    c: GraphView,
    sets: SetsView,
    x: Seq<OuterKey>,
    y: Seq<OuterKey>,
    owner: NodeId,
    pointer_only: bool,
    n: int,
)
    requires
        runs(g, t, b, c),
        twin_outers(g, t, b, x, y),
        sets_there(g, b, sets),
        0 <= n <= x.len(),
    ensures
        with_promoted(c, peer_sets(g, t, sets), y, owner, pointer_only, n) == peer_sets(
            g,
            t,
            with_promoted(b, sets, x, owner, pointer_only, n),
        ),
        sets_there(g, b, with_promoted(b, sets, x, owner, pointer_only, n)),
    decreases n,
{
    let f = |e: MethodSetEntry| peer_entry(g, t, e);
    if n > 0 {
        lemma_twin_with_promoted(g, t, b, c, sets, x, y, owner, pointer_only, n - 1);
        let k = x[n - 1];
        assert(live(b.nodes, x[n - 1].node) is Some);
        lemma_twin_inherits(g, t, b, c, k.node);
        let before = with_promoted(b, sets, x, owner, pointer_only, n - 1);
        let e = MethodSetEntry { name: k.name, source: inherits_target(b, k.node) };
        assert(source_there(g, b, e));
        assert(before.value.push(e).map_values(f) =~= before.value.map_values(f).push(f(e)));
        assert(before.pointer.push(e).map_values(f) =~= before.pointer.map_values(f).push(f(e)));
    }
}

/// A node that was there has the same methods in both runs.
pub(crate) proof fn lemma_twin_method_sets(
    g: GraphView,
    t: GraphView,
    b: GraphView,
    c: GraphView,
    x: LocalView,
    y: LocalView,
    owner: NodeId,
)
    requires
        runs(g, t, b, c),
        twin_notes(g, t, b, x, y),
        was_there(g, b, owner),
        was_there(g, c, owner),
    ensures
        match method_sets(b, x, owner) {
            Some(s) => method_sets(c, y, owner) == Some(peer_sets(g, t, s)) && sets_there(g, b, s)
                && live(g.nodes, owner) is Some,
            None => method_sets(c, y, owner) is None,
        },
{
    lemma_known_row(g, t, b, c, owner);
    if let Some(q) = b.qn(owner) {
        lemma_twin_methods_of(g, t, b, c, q);
        let native = methods_of(b, q);
        let n = native.len() as int;
        lemma_twin_native(g, t, b, c, native, x.outer_value, y.outer_value, n);
        let first = native_sets(b, native, x.outer_value, n);
        lemma_twin_with_promoted(
            g,
            t,
            b,
            c,
            first,
            x.outer_value,
            y.outer_value,
            owner,
            false,
            x.outer_value.len() as int,
        );
        lemma_twin_with_promoted(
            g,
            t,
            b,
            c,
            with_promoted(b, first, x.outer_value, owner, false, x.outer_value.len() as int),
            x.outer_pointer,
            y.outer_pointer,
            owner,
            true,
            x.outer_pointer.len() as int,
        );
    }
}

proof fn lemma_twin_matches(
    g: GraphView,
    t: GraphView,
    b: GraphView,
    c: GraphView,
    have: MethodSetEntry,
    want: MethodSetEntry,
)
    requires
        runs(g, t, b, c),
        source_there(g, b, have),
        source_there(g, b, want),
    ensures
        entry_matches(c, peer_entry(g, t, have), peer_entry(g, t, want)) == entry_matches(
            b,
            have,
            want,
        ),
{
    if let Some(x) = have.source {
        lemma_twin_hints(g, t, b, c, x);
    }
    if let Some(x) = want.source {
        lemma_twin_hints(g, t, b, c, x);
    }
}

proof fn lemma_twin_set_has(
    g: GraphView,
    t: GraphView,
    b: GraphView,
    c: GraphView,
    set: Seq<MethodSetEntry>,
    want: MethodSetEntry,
)
    requires
        runs(g, t, b, c),
        entries_there(g, b, set),
        source_there(g, b, want),
    ensures
        set_has(c, set.map_values(|e: MethodSetEntry| peer_entry(g, t, e)), peer_entry(g, t, want))
            == set_has(b, set, want),
{
    let other = set.map_values(|e: MethodSetEntry| peer_entry(g, t, e));
    assert forall|i: int| 0 <= i < set.len() implies entry_matches(
        c,
        #[trigger] other[i],
        peer_entry(g, t, want),
    ) == entry_matches(b, set[i], want) by {
        assert(source_there(g, b, set[i]));
        lemma_twin_matches(g, t, b, c, set[i], want);
    }
    if set_has(b, set, want) {
        let i = choose|i: int| 0 <= i < set.len() && #[trigger] entry_matches(b, set[i], want);
        assert(entry_matches(c, other[i], peer_entry(g, t, want)));
    }
    if set_has(c, other, peer_entry(g, t, want)) {
        let i = choose|i: int|
            0 <= i < other.len() && #[trigger] entry_matches(c, other[i], peer_entry(g, t, want));
        assert(entry_matches(b, set[i], want));
    }
}

pub(crate) proof fn lemma_twin_satisfies(
    g: GraphView,
    t: GraphView,
    b: GraphView,
    c: GraphView,
    set: Seq<MethodSetEntry>,
    required: Seq<MethodSetEntry>,
)
    requires
        runs(g, t, b, c),
        entries_there(g, b, set),
        entries_there(g, b, required),
    ensures
        satisfies(
            c,
            set.map_values(|e: MethodSetEntry| peer_entry(g, t, e)),
            required.map_values(|e: MethodSetEntry| peer_entry(g, t, e)),
        ) == satisfies(b, set, required),
{
    let s = set.map_values(|e: MethodSetEntry| peer_entry(g, t, e));
    let r = required.map_values(|e: MethodSetEntry| peer_entry(g, t, e));
    assert forall|i: int| 0 <= i < required.len() implies set_has(c, s, #[trigger] r[i])
        == set_has(b, set, required[i]) by {
        assert(source_there(g, b, required[i]));
        lemma_twin_set_has(g, t, b, c, set, required[i]);
    }
    if satisfies(b, set, required) {
        assert forall|i: int| 0 <= i < r.len() implies set_has(c, s, #[trigger] r[i]) by {
            assert(set_has(b, set, required[i]));
        }
    }
    if satisfies(c, s, r) {
        assert forall|i: int| 0 <= i < required.len() implies set_has(b, set, #[trigger] required[i]) by {
            assert(set_has(c, s, r[i]));
        }
    }
}

} // verus!
