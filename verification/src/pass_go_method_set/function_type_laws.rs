//! Which functions and methods are said to implement which named function types.

use vstd::prelude::*;

use crate::arena::live;
use crate::edges::{edges_into, edges_out_of, EdgeView};
use crate::graph::GraphView;
use crate::ids::{NodeId, StringId};
use crate::indices::nodes_of_qn;
use crate::kinds::{EdgeKind, NodeKind, TypeOfContext};
use crate::pass_go_method_set::function_types::{
    callable_signature, converted, entry_from, function_signature, function_type_from,
    function_types, hinted_types, implements_type, in_edges, package_of, same_package,
    signature_edges, type_signature, types_slot, with_entry, with_slot, with_slots, with_slots_of,
    PendingSignature,
};
use crate::pass_go_method_set::lookup::{named, out_edges};
use crate::pass_go_method_set::method_set_laws::{
    has_signature, lemma_in_order, lemma_signature, lemma_signature_at,
};
use crate::sorting::{lemma_sorted_contains, sorted};
use crate::text::{contains_text, find_text, lemma_find_contains, lemma_find_from, occurs_at};

verus! {

/// The signature recorded for function or type `node` is `sig`: the last one that a hint
/// gives it.
pub open spec fn has_function_signature(g: GraphView, node: NodeId, sig: Seq<char>) -> bool {
    let hints = g.hints.function_signatures;
    exists|k: int|
        0 <= k < hints.len() && (#[trigger] hints[k]).node == node && hints[k].signature == sig && (
        forall|j: int| k < j < hints.len() ==> (#[trigger] hints[j]).node != node)
}

/// `node` is a function or a method with signature `sig`.
pub open spec fn is_callable(g: GraphView, node: NodeId, sig: Seq<char>) -> bool {
    &&& live(g.nodes, node) is Some
    &&& (live(g.nodes, node)->0.kind == NodeKind::Function && has_function_signature(g, node, sig))
        || (live(g.nodes, node)->0.kind == NodeKind::Method && has_signature(g, node, sig))
}

/// `ty` is a named function type with signature `sig`.
pub open spec fn is_function_type(g: GraphView, ty: NodeId, sig: Seq<char>) -> bool {
    &&& live(g.nodes, ty) is Some
    &&& live(g.nodes, ty)->0.kind == NodeKind::Type
    &&& has_function_signature(g, ty, sig)
}

/// `package` is what stands before the first separator of `qn`, or all of it where it has
/// none.
pub open spec fn in_package(qn: Seq<char>, package: Seq<char>) -> bool {
    ||| qn == package && !contains_text(qn, "::"@)
    ||| occurs_at(qn, "::"@, package.len() as int) && qn.subrange(0, package.len() as int)
        == package && forall|j: int| 0 <= j < package.len() ==> !occurs_at(qn, "::"@, j)
}

/// Both nodes stand in one package, as far as their names say.
pub open spec fn one_package(g: GraphView, a: NodeId, b: NodeId) -> bool {
    g.qn(a) is Some && g.qn(b) is Some ==> exists|package: Seq<char>| #[trigger]
        in_package(g.qn(a)->0, package) && in_package(g.qn(b)->0, package) && package.len() > 0
}

/// `node` has the signature of `ty`, in the same package.
pub open spec fn fits(g: GraphView, node: NodeId, ty: NodeId) -> bool {
    &&& one_package(g, node, ty)
    &&& exists|sig: Seq<char>| #[trigger]
        is_callable(g, node, sig) && is_function_type(g, ty, sig)
}

proof fn lemma_function_signature(g: GraphView, node: NodeId, sig: Seq<char>)
    ensures
        has_function_signature(g, node, sig) <==> function_signature(g, node) == Some(sig),
{
    let hints = g.hints.function_signatures;
    lemma_signature_at(hints, node, hints.len() as int);
    if has_function_signature(g, node, sig) {
        let k = choose|k: int|
            0 <= k < hints.len() && (#[trigger] hints[k]).node == node && hints[k].signature == sig
                && (forall|j: int| k < j < hints.len() ==> (#[trigger] hints[j]).node != node);
        let s = function_signature(g, node)->0;
        let m = choose|m: int|
            0 <= m < hints.len() && (#[trigger] hints[m]).node == node && hints[m].signature == s
                && (forall|j: int| m < j < hints.len() ==> (#[trigger] hints[j]).node != node);
        assert(hints[k].node == node && hints[m].node == node);
        assert(k == m);
    }
}

proof fn lemma_package(qn: Seq<char>, package: Seq<char>)
    ensures
        in_package(qn, package) <==> package_of(qn) == package,
{
    reveal_strlit("::");
    lemma_find_from(qn, "::"@, 0);
    lemma_find_contains(qn, "::"@);
    if in_package(qn, package) {
        if let Some(i) = find_text(qn, "::"@) {
            assert(i == package.len());
        } else {
            assert(!occurs_at(qn, "::"@, package.len() as int));
        }
    }
}

proof fn lemma_fits(g: GraphView, node: NodeId, ty: NodeId)
    ensures
        fits(g, node, ty) <==> implements_type(g, node, ty),
{
    if g.qn(node) is Some && g.qn(ty) is Some {
        let p = g.qn(node)->0;
        let q = g.qn(ty)->0;
        lemma_package(p, package_of(p));
        lemma_package(q, package_of(p));
        if one_package(g, node, ty) {
            let package = choose|package: Seq<char>| #[trigger]
                in_package(p, package) && in_package(q, package) && package.len() > 0;
            lemma_package(p, package);
            lemma_package(q, package);
        }
    }
    assert(one_package(g, node, ty) == same_package(g, node, ty));
    if fits(g, node, ty) {
        let sig = choose|sig: Seq<char>| #[trigger]
            is_callable(g, node, sig) && is_function_type(g, ty, sig);
        lemma_function_signature(g, node, sig);
        lemma_signature(g, node, sig);
        lemma_function_signature(g, ty, sig);
    }
    if implements_type(g, node, ty) {
        let sig = callable_signature(g, node)->0;
        lemma_function_signature(g, node, sig);
        lemma_signature(g, node, sig);
        lemma_function_signature(g, ty, sig);
        assert(is_callable(g, node, sig) && is_function_type(g, ty, sig));
    }
}

/// Some signature makes `ty` a named function type.
pub open spec fn is_some_function_type(g: GraphView, ty: NodeId) -> bool {
    exists|sig: Seq<char>| is_function_type(g, ty, sig)
}

proof fn lemma_some_type(g: GraphView, ty: NodeId)
    ensures
        is_some_function_type(g, ty) <==> type_signature(g, ty) is Some,
{
    if is_some_function_type(g, ty) {
        let sig = choose|sig: Seq<char>| is_function_type(g, ty, sig);
        lemma_function_signature(g, ty, sig);
    }
    if let Some(sig) = type_signature(g, ty) {
        lemma_function_signature(g, ty, sig);
        assert(is_function_type(g, ty, sig));
    }
}

/// Row `k` is the first with qualified name `qn` whose node is a named function type, and
/// that is `ty`.
pub open spec fn first_function_type(g: GraphView, qn: StringId, k: int, ty: NodeId) -> bool {
    &&& 0 <= k < g.indices.len()
    &&& g.indices[k].qualified_name == Some(qn)
    &&& g.indices[k].node == ty
    &&& is_some_function_type(g, ty)
    &&& forall|j: int|
        0 <= j < k && (#[trigger] g.indices[j]).qualified_name == Some(qn)
            ==> !is_some_function_type(g, g.indices[j].node)
}

proof fn lemma_type_from_push(g: GraphView, nodes: Seq<NodeId>, x: NodeId, i: int)
    requires
        0 <= i <= nodes.len(),
    ensures
        function_type_from(g, nodes.push(x), i) == (match function_type_from(g, nodes, i) {
            Some(t) => Some(t),
            None => if type_signature(g, x) is Some {
                Some(x)
            } else {
                None
            },
        }),
    decreases nodes.len() - i,
{
    let all = nodes.push(x);
    if i < nodes.len() {
        assert(all[i] == nodes[i]);
        if type_signature(g, nodes[i]) is None {
            lemma_type_from_push(g, nodes, x, i + 1);
        }
    } else {
        assert(all[i] == x);
        assert(function_type_from(g, all, i + 1) is None);
    }
}

proof fn lemma_type_from(g: GraphView, qn: StringId, n: int) -> (k: int)
    requires
        0 <= n <= g.indices.len(),
    ensures
        -1 <= k < n,
        match function_type_from(g, nodes_of_qn(g.indices, qn, n), 0) {
            Some(ty) => k >= 0 && g.indices[k].qualified_name == Some(qn) && g.indices[k].node == ty
                && type_signature(g, ty) is Some && forall|j: int|
                0 <= j < k && (#[trigger] g.indices[j]).qualified_name == Some(qn)
                    ==> type_signature(g, g.indices[j].node) is None,
            None => k < 0 && forall|j: int|
                0 <= j < n && (#[trigger] g.indices[j]).qualified_name == Some(qn)
                    ==> type_signature(g, g.indices[j].node) is None,
        },
    decreases n,
{
    if n <= 0 {
        -1
    } else {
        let k = lemma_type_from(g, qn, n - 1);
        let before = nodes_of_qn(g.indices, qn, n - 1);
        let x = g.indices[n - 1].node;
        if g.indices[n - 1].qualified_name == Some(qn) {
            lemma_type_from_push(g, before, x, 0);
            if k < 0 && type_signature(g, x) is Some {
                n - 1
            } else {
                k
            }
        } else {
            k
        }
    }
}

proof fn lemma_first_type(g: GraphView, qn: StringId, ty: NodeId)
    ensures
        function_type_from(g, named(g, qn), 0) == Some(ty) <==> exists|k: int|
            first_function_type(g, qn, k, ty),
{
    let m = lemma_type_from(g, qn, g.indices.len() as int);
    if function_type_from(g, named(g, qn), 0) == Some(ty) {
        lemma_some_type(g, ty);
        assert forall|j: int|
            0 <= j < m && (#[trigger] g.indices[j]).qualified_name == Some(qn) implies
            !is_some_function_type(g, g.indices[j].node) by {
            lemma_some_type(g, g.indices[j].node);
        }
        assert(first_function_type(g, qn, m, ty));
    }
    if exists|k: int| first_function_type(g, qn, k, ty) {
        let k = choose|k: int| first_function_type(g, qn, k, ty);
        lemma_some_type(g, ty);
        assert(g.indices[k].qualified_name == Some(qn));
        assert(m >= 0);
        lemma_some_type(g, g.indices[m].node);
        assert(g.indices[m].qualified_name == Some(qn));
        assert(k == m);
    }
}

/// Hint `k` converts `node` to `ty`, whose signature it has.
pub open spec fn converts(g: GraphView, k: int, node: NodeId, ty: NodeId) -> bool {
    let hints = g.hints.named_type_conversions;
    &&& 0 <= k < hints.len()
    &&& hints[k].argument_node == node
    &&& exists|j: int| first_function_type(g, hints[k].target_type_qualified_name, j, ty)
    &&& fits(g, node, ty)
}

/// Edge `i` gives the variable, parameter, field or return value that edge `j` makes refer
/// to `node` the type `ty`, whose signature `node` has.
pub open spec fn fills(g: GraphView, i: int, j: int, node: NodeId, ty: NodeId) -> bool {
    let edges = g.edges.edges;
    &&& 0 <= i < edges.len()
    &&& edges[i].target == ty
    &&& edges[i].kind matches EdgeKind::TypeOf { context: Some(c), .. }
    &&& c == TypeOfContext::Variable || c == TypeOfContext::Parameter || c == TypeOfContext::Field
        || c == TypeOfContext::Return
    &&& 0 <= j < edges.len()
    &&& edges[j].source == edges[i].source
    &&& edges[j].kind == EdgeKind::References
    &&& edges[j].target == node
    &&& fits(g, node, ty)
}

/// Some entry leads from `a` to `b`.
pub open spec fn has_entry(s: Seq<PendingSignature>, a: NodeId, b: NodeId) -> bool {
    exists|k: int| 0 <= k < s.len() && (#[trigger] s[k]).source == a && s[k].target == b
}

/// No two entries lead from the same node to the same.
pub open spec fn each_entry_once(s: Seq<PendingSignature>) -> bool {
    forall|i: int, j: int|
        0 <= i < j < s.len() ==> (#[trigger] s[i]).source != (#[trigger] s[j]).source || s[i].target
            != s[j].target
}

proof fn lemma_entry_from(s: Seq<PendingSignature>, a: NodeId, b: NodeId, i: int)
    requires
        0 <= i,
    ensures
        match entry_from(s, a, b, i) {
            Some(k) => i <= k < s.len() && s[k].source == a && s[k].target == b,
            None => forall|k: int|
                i <= k < s.len() ==> (#[trigger] s[k]).source != a || s[k].target != b,
        },
    decreases s.len() - i,
{
    if i < s.len() && !(s[i].source == a && s[i].target == b) {
        lemma_entry_from(s, a, b, i + 1);
    }
}

proof fn lemma_put(s: Seq<PendingSignature>, e: PendingSignature, replace: bool)
    requires
        each_entry_once(s),
    ensures
        each_entry_once(with_entry(s, e, replace)),
        forall|a: NodeId, b: NodeId| #[trigger]
            has_entry(with_entry(s, e, replace), a, b) <==> has_entry(s, a, b) || (a == e.source && b
                == e.target),
{
    let all = with_entry(s, e, replace);
    lemma_entry_from(s, e.source, e.target, 0);
    assert forall|a: NodeId, b: NodeId| #[trigger] has_entry(all, a, b) <==> has_entry(s, a, b) || (
    a == e.source && b == e.target) by {
        if has_entry(s, a, b) {
            let k = choose|k: int|
                0 <= k < s.len() && (#[trigger] s[k]).source == a && s[k].target == b;
            assert(all[k].source == a && all[k].target == b);
        }
        if has_entry(all, a, b) {
            let k = choose|k: int|
                0 <= k < all.len() && (#[trigger] all[k]).source == a && all[k].target == b;
            if k < s.len() {
                assert(s[k].source == a && s[k].target == b);
            }
        }
        match entry_from(s, e.source, e.target, 0) {
            Some(k) => {
                assert(all[k].source == e.source && all[k].target == e.target);
            },
            None => {
                assert(all[s.len() as int] == e);
            },
        }
    }
}

proof fn lemma_converted(g: GraphView, n: int)
    requires
        0 <= n <= g.hints.named_type_conversions.len(),
    ensures
        each_entry_once(converted(g, n)),
        forall|a: NodeId, b: NodeId| #[trigger]
            has_entry(converted(g, n), a, b) <==> exists|k: int| k < n && converts(g, k, a, b),
    decreases n,
{
    if n > 0 {
        lemma_converted(g, n - 1);
        let before = converted(g, n - 1);
        let h = g.hints.named_type_conversions[n - 1];
        let found = function_type_from(g, named(g, h.target_type_qualified_name), 0);
        if let Some(ty) = found {
            lemma_put(
                before,
                PendingSignature { source: h.argument_node, target: ty, file: h.file },
                true,
            );
        }
        assert forall|a: NodeId, b: NodeId| #[trigger] has_entry(converted(g, n), a, b)
            <==> exists|k: int| k < n && converts(g, k, a, b) by {
            lemma_first_type(g, h.target_type_qualified_name, b);
            lemma_fits(g, a, b);
            if let Some(ty) = found {
                lemma_fits(g, h.argument_node, ty);
            }
            if has_entry(before, a, b) {
                let k = choose|k: int| k < n - 1 && converts(g, k, a, b);
                assert(k < n && converts(g, k, a, b));
            }
            if has_entry(converted(g, n), a, b) && !has_entry(before, a, b) {
                assert(converts(g, n - 1, a, b));
            }
            if exists|k: int| k < n && converts(g, k, a, b) {
                let k = choose|k: int| k < n && converts(g, k, a, b);
                if k < n - 1 {
                    assert(has_entry(before, a, b));
                }
            }
        }
    } else {
        assert(converted(g, n) =~= Seq::empty());
    }
}

proof fn lemma_slot(
    g: GraphView,
    pending: Seq<PendingSignature>,
    edges: Seq<EdgeView>,
    ty: NodeId,
    n: int,
)
    requires
        0 <= n <= edges.len(),
        each_entry_once(pending),
    ensures
        each_entry_once(with_slot(g, pending, edges, ty, n)),
        forall|a: NodeId, b: NodeId| #[trigger]
            has_entry(with_slot(g, pending, edges, ty, n), a, b) <==> has_entry(pending, a, b) || (b
                == ty && fits(g, a, ty) && exists|j: int|
                0 <= j < n && (#[trigger] edges[j]).kind == EdgeKind::References && edges[j].target
                    == a),
    decreases n,
{
    if n > 0 {
        lemma_slot(g, pending, edges, ty, n - 1);
        let before = with_slot(g, pending, edges, ty, n - 1);
        let e = edges[n - 1];
        lemma_fits(g, e.target, ty);
        if e.kind == EdgeKind::References && implements_type(g, e.target, ty) {
            lemma_put(
                before,
                PendingSignature {
                    source: e.target,
                    target: ty,
                    file: crate::pass_go_method_set::shadow::file_of(g, e.target),
                },
                false,
            );
        }
        assert(edges[n - 1] == e);
    }
}

pub(crate) proof fn lemma_out_of(edges: Seq<EdgeView>, node: NodeId, n: int, e: EdgeView)
    requires
        0 <= n <= edges.len(),
    ensures
        edges_out_of(edges, node, n).contains(e) <==> e.source == node && exists|k: int|
            0 <= k < n && #[trigger] edges[k] == e,
    decreases n,
{
    if n > 0 {
        lemma_out_of(edges, node, n - 1, e);
        let before = edges_out_of(edges, node, n - 1);
        let after = edges_out_of(edges, node, n);
        if before.contains(e) {
            assert(after[before.index_of(e)] == e);
        }
        if after.contains(e) && !before.contains(e) {
            let i = after.index_of(e);
            if i < before.len() {
                assert(before[i] == e);
            }
        }
        if edges[n - 1] == e && e.source == node {
            assert(after[before.len() as int] == e);
        }
    }
}

proof fn lemma_into(edges: Seq<EdgeView>, node: NodeId, n: int, e: EdgeView)
    requires
        0 <= n <= edges.len(),
    ensures
        edges_into(edges, node, n).contains(e) <==> e.target == node && exists|k: int|
            0 <= k < n && #[trigger] edges[k] == e,
    decreases n,
{
    if n > 0 {
        lemma_into(edges, node, n - 1, e);
        let before = edges_into(edges, node, n - 1);
        let after = edges_into(edges, node, n);
        if before.contains(e) {
            assert(after[before.index_of(e)] == e);
        }
        if after.contains(e) && !before.contains(e) {
            let i = after.index_of(e);
            if i < before.len() {
                assert(before[i] == e);
            }
        }
        if edges[n - 1] == e && e.target == node {
            assert(after[before.len() as int] == e);
        }
    }
}

/// Edge `e` types a slot that refers to `a`.
spec fn slot_refers(g: GraphView, e: EdgeView, a: NodeId) -> bool {
    types_slot(e.kind) && exists|j: int|
        0 <= j < out_edges(g, e.source).len() && (#[trigger] out_edges(g, e.source)[j]).kind
            == EdgeKind::References && out_edges(g, e.source)[j].target == a
}

proof fn lemma_slots(
    g: GraphView,
    pending: Seq<PendingSignature>,
    incoming: Seq<EdgeView>,
    ty: NodeId,
    n: int,
)
    requires
        0 <= n <= incoming.len(),
        each_entry_once(pending),
    ensures
        each_entry_once(with_slots(g, pending, incoming, ty, n)),
        forall|a: NodeId, b: NodeId| #[trigger]
            has_entry(with_slots(g, pending, incoming, ty, n), a, b) <==> has_entry(pending, a, b)
                || (b == ty && fits(g, a, ty) && exists|i: int|
                0 <= i < n && slot_refers(g, #[trigger] incoming[i], a)),
    decreases n,
{
    if n > 0 {
        lemma_slots(g, pending, incoming, ty, n - 1);
        let before = with_slots(g, pending, incoming, ty, n - 1);
        let e = incoming[n - 1];
        let out = out_edges(g, e.source);
        lemma_slot(g, before, out, ty, out.len() as int);
        assert forall|a: NodeId, b: NodeId| #[trigger]
            has_entry(with_slots(g, pending, incoming, ty, n), a, b) <==> has_entry(pending, a, b)
            || (b == ty && fits(g, a, ty) && exists|i: int|
            0 <= i < n && slot_refers(g, #[trigger] incoming[i], a)) by {
            assert(has_entry(before, a, b) <==> has_entry(pending, a, b) || (b == ty && fits(
                g,
                a,
                ty,
            ) && exists|i: int| 0 <= i < n - 1 && slot_refers(g, #[trigger] incoming[i], a)));
            if slot_refers(g, e, a) {
                assert(slot_refers(g, incoming[n - 1], a));
            }
            if exists|i: int| 0 <= i < n - 1 && slot_refers(g, #[trigger] incoming[i], a) {
                let i = choose|i: int| 0 <= i < n - 1 && slot_refers(g, #[trigger] incoming[i], a);
                assert(slot_refers(g, incoming[i], a));
            }
        }
    }
}

proof fn lemma_slots_of(
    g: GraphView,
    pending: Seq<PendingSignature>,
    types: Seq<NodeId>,
    n: int,
)
    requires
        0 <= n <= types.len(),
        each_entry_once(pending),
    ensures
        each_entry_once(with_slots_of(g, pending, types, n)),
        forall|a: NodeId, b: NodeId| #[trigger]
            has_entry(with_slots_of(g, pending, types, n), a, b) <==> has_entry(pending, a, b) || (
            types.take(n).contains(b) && filled(g, a, b)),
    decreases n,
{
    if n > 0 {
        lemma_slots_of(g, pending, types, n - 1);
        let before = with_slots_of(g, pending, types, n - 1);
        let ty = types[n - 1];
        let incoming = in_edges(g, ty);
        lemma_slots(g, before, incoming, ty, incoming.len() as int);
        let few = types.take(n - 1);
        let more = types.take(n);
        assert forall|a: NodeId, b: NodeId| #[trigger]
            has_entry(with_slots_of(g, pending, types, n), a, b) <==> has_entry(pending, a, b) || (
            more.contains(b) && filled(g, a, b)) by {
            if few.contains(b) {
                assert(more[few.index_of(b)] == b);
            }
            assert(more[n - 1] == ty);
            if more.contains(b) && b != ty {
                assert(few[more.index_of(b)] == b);
            }
            lemma_filled(g, a, ty);
            assert(has_entry(before, a, b) <==> has_entry(pending, a, b) || (few.contains(b)
                && filled(g, a, b)));
        }
    } else {
        assert(types.take(0) =~= Seq::empty());
    }
}

/// Some slot of type `ty` refers to `node`, which fits.
pub open spec fn filled(g: GraphView, node: NodeId, ty: NodeId) -> bool {
    exists|i: int, j: int| #[trigger] fills(g, i, j, node, ty)
}

proof fn lemma_filled(g: GraphView, a: NodeId, ty: NodeId)
    ensures
        filled(g, a, ty) <==> fits(g, a, ty) && exists|i: int|
            0 <= i < in_edges(g, ty).len() && slot_refers(g, #[trigger] in_edges(g, ty)[i], a),
{
    let edges = g.edges.edges;
    let n = edges.len() as int;
    let incoming = in_edges(g, ty);
    if filled(g, a, ty) {
        let (i, j) = choose|i: int, j: int| #[trigger] fills(g, i, j, a, ty);
        let e = edges[i];
        let f = edges[j];
        lemma_into(edges, ty, n, e);
        lemma_out_of(edges, e.source, n, f);
        let p = incoming.index_of(e);
        let out = out_edges(g, e.source);
        let q = out.index_of(f);
        assert(out[q].kind == EdgeKind::References && out[q].target == a);
        assert(slot_refers(g, incoming[p], a));
    }
    if fits(g, a, ty) && exists|i: int|
        0 <= i < incoming.len() && slot_refers(g, #[trigger] incoming[i], a) {
        let p = choose|i: int|
            0 <= i < incoming.len() && slot_refers(g, #[trigger] incoming[i], a);
        let e = incoming[p];
        assert(incoming.contains(e));
        lemma_into(edges, ty, n, e);
        let i = choose|k: int| 0 <= k < n && #[trigger] edges[k] == e;
        let out = out_edges(g, e.source);
        let q = choose|j: int|
            0 <= j < out.len() && (#[trigger] out[j]).kind == EdgeKind::References
                && out[j].target == a;
        let f = out[q];
        assert(out.contains(f));
        lemma_out_of(edges, e.source, n, f);
        let j = choose|k: int| 0 <= k < n && #[trigger] edges[k] == f;
        assert(fills(g, i, j, a, ty));
    }
}

proof fn lemma_hinted(g: GraphView, n: int, ty: NodeId)
    requires
        0 <= n <= g.hints.function_signatures.len(),
    ensures
        hinted_types(g, n).contains(ty) <==> live(g.nodes, ty) is Some && live(g.nodes, ty)->0.kind
            == NodeKind::Type && exists|k: int|
            0 <= k < n && (#[trigger] g.hints.function_signatures[k]).node == ty,
    decreases n,
{
    if n > 0 {
        lemma_hinted(g, n - 1, ty);
        let before = hinted_types(g, n - 1);
        let after = hinted_types(g, n);
        if before.contains(ty) {
            assert(after[before.index_of(ty)] == ty);
        }
        if after.contains(ty) && !before.contains(ty) {
            let i = after.index_of(ty);
            if i < before.len() {
                assert(before[i] == ty);
            }
        }
        if after.len() > before.len() {
            assert(after[before.len() as int] == g.hints.function_signatures[n - 1].node);
        }
    }
}

/// A function or method is said to implement a named function type exactly when it has its
/// signature, in the same package, and is either converted to it somewhere, or referred to
/// by a variable, parameter, field or return value of that type. Each is said once.
pub proof fn law_function_types_are_implemented_where_they_are_used(g: GraphView)
    ensures
        each_entry_once(signature_edges(g)),
        forall|node: NodeId, ty: NodeId| #[trigger]
            has_entry(signature_edges(g), node, ty) <==> filled(g, node, ty) || exists|k: int|
                converts(g, k, node, ty),
{
    let n = g.hints.named_type_conversions.len() as int;
    let first = converted(g, n);
    let types = function_types(g);
    lemma_converted(g, n);
    lemma_slots_of(g, first, types, types.len() as int);
    let all = with_slots_of(g, first, types, types.len() as int);
    let s = signature_edges(g);
    assert(types.take(types.len() as int) =~= types);
    assert forall|node: NodeId, ty: NodeId| #[trigger] has_entry(s, node, ty) <==> filled(
        g,
        node,
        ty,
    ) || exists|k: int| converts(g, k, node, ty) by {
        if has_entry(s, node, ty) {
            let k = choose|k: int|
                0 <= k < s.len() && (#[trigger] s[k]).source == node && s[k].target == ty;
            lemma_sorted_contains(all, s[k]);
            let i = all.index_of(s[k]);
            assert(all[i].source == node && all[i].target == ty);
            assert(has_entry(all, node, ty));
        }
        if has_entry(all, node, ty) {
            let k = choose|k: int|
                0 <= k < all.len() && (#[trigger] all[k]).source == node && all[k].target == ty;
            lemma_sorted_contains(all, all[k]);
            let i = s.index_of(all[k]);
            assert(s[i].source == node && s[i].target == ty);
        }
        if filled(g, node, ty) {
            let (i, j) = choose|i: int, j: int| #[trigger] fills(g, i, j, node, ty);
            let sig = choose|sig: Seq<char>| #[trigger]
                is_callable(g, node, sig) && is_function_type(g, ty, sig);
            let hints = g.hints.function_signatures;
            let k = choose|k: int|
                0 <= k < hints.len() && (#[trigger] hints[k]).node == ty && hints[k].signature
                    == sig && (forall|j: int|
                    k < j < hints.len() ==> (#[trigger] hints[j]).node != ty);
            assert(hints[k].node == ty);
            lemma_hinted(g, hints.len() as int, ty);
            lemma_in_order(hinted_types(g, hints.len() as int), ty);
        }
        if exists|k: int| converts(g, k, node, ty) {
            let k = choose|k: int| converts(g, k, node, ty);
            assert(k < n && converts(g, k, node, ty));
            assert(has_entry(first, node, ty));
        }
        if has_entry(first, node, ty) {
            let k = choose|k: int| k < n && converts(g, k, node, ty);
            assert(converts(g, k, node, ty));
        }
    }
    lemma_sorted_once(all);
}

proof fn lemma_sorted_once(s: Seq<PendingSignature>)
    requires
        each_entry_once(s),
    ensures
        each_entry_once(sorted(s)),
{
    let t = sorted(s);
    crate::sorting::law_sorted_keeps_elements(s);
    assert(s.no_duplicates()) by {
        assert forall|i: int, j: int| 0 <= i < s.len() && 0 <= j < s.len() && i != j implies s[i]
            != s[j] by {
            if i < j {
                assert(s[i].source != s[j].source || s[i].target != s[j].target);
            } else {
                assert(s[j].source != s[i].source || s[j].target != s[i].target);
            }
        }
    }
    s.lemma_multiset_has_no_duplicates();
    t.lemma_multiset_has_no_duplicates_conv();
    assert forall|i: int, j: int| 0 <= i < j < t.len() implies (#[trigger] t[i]).source != (
    #[trigger] t[j]).source || t[i].target != t[j].target by {
        assert(t[i] != t[j]);
        lemma_sorted_contains(s, t[i]);
        lemma_sorted_contains(s, t[j]);
        assert(t.contains(t[i]) && t.contains(t[j]));
        let a = s.index_of(t[i]);
        let b = s.index_of(t[j]);
        assert(a != b);
        if a < b {
            assert(s[a].source != s[b].source || s[a].target != s[b].target);
        } else {
            assert(s[b].source != s[a].source || s[b].target != s[a].target);
        }
    }
}

} // verus!
