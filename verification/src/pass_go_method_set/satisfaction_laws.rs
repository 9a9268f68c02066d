//! Which implementation edges the pass adds, and that it misses none.

use vstd::prelude::*;

use crate::arena::{can_allocate, free_from, lemma_free_from, live, reusable};
use crate::graph::GraphView;
use crate::ids::{FileId, NodeId};
use crate::kinds::NodeKind;
use crate::pass_go_method_set::lookup::{methods_of, named, MethodRef};
use crate::pass_go_method_set::materialise::{pointer_name, split_qn, LocalView, OuterKey};
use crate::pass_go_method_set::rerun::lemma_slot_prefix;
use crate::pass_go_method_set::satisfaction::{
    candidate_types, demanding, entry_matches, form_at, implements_edges, in_order, indexed,
    interface_sets, judged, method_sets, native_sets, required_methods, satisfies, set_has,
    synthetic_type_from, with_pair, with_pointer_form, with_promoted, with_type, with_types,
    InterfaceView, MethodSetEntry, PairState, PendingImplements, PointerForm, PointerState,
    SetsView,
};
use crate::pass_go_method_set::shadow::{file_of, hinted_shadows, shadows, unhinted_shadows};
use crate::pass_go_method_set::steady::originals;
use crate::pass_go_method_set::twin_pairs::lemma_type_extends;
use crate::pass_go_method_set::twins::{extends, lemma_extends_on};
use crate::sorting::{
    deduped, law_deduped_keeps_keys, law_sorted_and_deduped_is_strict, lemma_sorted_contains,
    sorted, stands_in, strictly_ascending, Ranked,
};
use crate::strings::{law_interned_reads_back, InternerView};

verus! {

/// Whether every entry of the method set of a type is in that of the pointer to it.
pub open spec fn nested(s: SetsView) -> bool {
    forall|i: int| 0 <= i < s.value.len() ==> s.pointer.contains(#[trigger] s.value[i])
}

proof fn lemma_both(s: SetsView, e: MethodSetEntry)
    requires
        nested(s),
    ensures
        nested((SetsView { value: s.value.push(e), pointer: s.pointer.push(e) })),
        nested((SetsView { value: s.value, pointer: s.pointer.push(e) })),
{
    let p = s.pointer.push(e);
    assert(p[s.pointer.len() as int] == e);
    assert forall|i: int| 0 <= i < s.value.len() implies p.contains(#[trigger] s.value[i]) by {
        let k = s.pointer.index_of(s.value[i]);
        assert(p[k] == s.value[i]);
    }
    let v = s.value.push(e);
    assert forall|i: int| 0 <= i < v.len() implies p.contains(#[trigger] v[i]) by {
        if i < s.value.len() {
            assert(v[i] == s.value[i]);
        }
    }
}

proof fn lemma_native_nested(
    g: GraphView,
    methods: Seq<MethodRef>,
    promoted: Seq<OuterKey>,
    n: int,
)
    ensures
        nested(native_sets(g, methods, promoted, n)),
    decreases n,
{
    if n > 0 {
        lemma_native_nested(g, methods, promoted, n - 1);
        let m = methods[n - 1];
        lemma_both(
            native_sets(g, methods, promoted, n - 1),
            MethodSetEntry { name: m.name, source: Some(m.node) },
        );
    }
}

proof fn lemma_promoted_nested(
    g: GraphView,
    sets: SetsView,
    keys: Seq<OuterKey>,
    c: NodeId,
    pointer_only: bool,
    n: int,
)
    requires
        nested(sets),
    ensures
        nested(with_promoted(g, sets, keys, c, pointer_only, n)),
    decreases n,
{
    if n > 0 {
        lemma_promoted_nested(g, sets, keys, c, pointer_only, n - 1);
        let before = with_promoted(g, sets, keys, c, pointer_only, n - 1);
        let after = with_promoted(g, sets, keys, c, pointer_only, n);
        if keys[n - 1].outer == c {
            lemma_both(before, after.pointer.last());
        }
    }
}

/// Every method of a type is a method of the pointer to it.
pub proof fn law_pointer_set_holds_value_set(g: GraphView, idx: LocalView, c: NodeId)
    ensures
        method_sets(g, idx, c) matches Some(s) ==> nested(s),
{
    if let Some(qn) = g.qn(c) {
        let native = methods_of(g, qn);
        let sets = native_sets(g, native, idx.outer_value, native.len() as int);
        lemma_native_nested(g, native, idx.outer_value, native.len() as int);
        let n = idx.outer_value.len() as int;
        lemma_promoted_nested(g, sets, idx.outer_value, c, false, n);
        lemma_promoted_nested(
            g,
            with_promoted(g, sets, idx.outer_value, c, false, n),
            idx.outer_pointer,
            c,
            true,
            idx.outer_pointer.len() as int,
        );
    }
}

/// What a type satisfies, the pointer to it satisfies too.
pub proof fn law_pointer_satisfies_what_the_type_does(
    g: GraphView,
    idx: LocalView,
    c: NodeId,
    required: Seq<MethodSetEntry>,
)
    requires
        method_sets(g, idx, c) is Some,
        satisfies(g, method_sets(g, idx, c)->0.value, required),
    ensures
        satisfies(g, method_sets(g, idx, c)->0.pointer, required),
{
    law_pointer_set_holds_value_set(g, idx, c);
    lemma_nested_satisfies(g, method_sets(g, idx, c)->0, required);
}

/// Type `c` implements interface `t` with its method set.
pub open spec fn implements(g: GraphView, idx: LocalView, c: NodeId, t: NodeId) -> bool {
    &&& c != t
    &&& candidate_types(g).contains(c)
    &&& in_order(indexed(g, NodeKind::Interface)).contains(t)
    &&& required_methods(g, t).len() > 0
    &&& method_sets(g, idx, c) is Some
    &&& satisfies(g, method_sets(g, idx, c)->0.value, required_methods(g, t))
}

/// The pointer to type `c` implements interface `t` with its method set.
pub open spec fn pointer_implements(g: GraphView, idx: LocalView, c: NodeId, t: NodeId) -> bool {
    &&& c != t
    &&& candidate_types(g).contains(c)
    &&& in_order(indexed(g, NodeKind::Interface)).contains(t)
    &&& required_methods(g, t).len() > 0
    &&& method_sets(g, idx, c) is Some
    &&& satisfies(g, method_sets(g, idx, c)->0.pointer, required_methods(g, t))
}

/// Edge `e` says something true of a type, or of the pointer to one.
pub open spec fn earned(g: GraphView, idx: LocalView, e: PendingImplements) -> bool {
    if e.pointer {
        exists|c: NodeId|
            #[trigger] pointer_implements(g, idx, c, e.target) && (e.pointer_only <==> !implements(
                g,
                idx,
                c,
                e.target,
            ))
    } else {
        implements(g, idx, e.source, e.target)
    }
}

spec fn all_earned(g: GraphView, idx: LocalView, p: Seq<PendingImplements>) -> bool {
    forall|i: int| 0 <= i < p.len() ==> earned(g, idx, #[trigger] p[i])
}

/// Whether `p` holds an edge from type `c` to `t`.
pub open spec fn holds_edge(p: Seq<PendingImplements>, c: NodeId, t: NodeId) -> bool {
    exists|k: int|
        0 <= k < p.len() && (#[trigger] p[k]).source == c && p[k].target == t && !p[k].pointer
}

spec fn demand_of(g: GraphView, i: InterfaceView) -> bool {
    &&& i.required == required_methods(g, i.node)
    &&& i.required.len() > 0
    &&& in_order(indexed(g, NodeKind::Interface)).contains(i.node)
}

proof fn lemma_demanding(g: GraphView, nodes: Seq<NodeId>, n: int)
    requires
        0 <= n <= nodes.len(),
    ensures
        forall|k: int|
            0 <= k < demanding(g, nodes, n).len() ==> {
                let i = #[trigger] demanding(g, nodes, n)[k];
                i.required == required_methods(g, i.node) && i.required.len() > 0
                    && nodes.contains(i.node)
            },
        forall|j: int|
            0 <= j < n && required_methods(g, #[trigger] nodes[j]).len() > 0 ==> exists|k: int|
                0 <= k < demanding(g, nodes, n).len() && (#[trigger] demanding(g, nodes, n)[k]).node
                    == nodes[j],
    decreases n,
{
    if n > 0 {
        lemma_demanding(g, nodes, n - 1);
        let before = demanding(g, nodes, n - 1);
        let after = demanding(g, nodes, n);
        assert forall|k: int| 0 <= k < after.len() implies {
            let i = #[trigger] after[k];
            i.required == required_methods(g, i.node) && i.required.len() > 0 && nodes.contains(
                i.node,
            )
        } by {
            if k < before.len() {
                assert(after[k] == before[k]);
            } else {
                assert(nodes[n - 1] == after[k].node);
            }
        }
        assert forall|j: int|
            0 <= j < n && required_methods(g, #[trigger] nodes[j]).len() > 0 implies exists|k: int|
            0 <= k < after.len() && (#[trigger] after[k]).node == nodes[j] by {
            if j < n - 1 {
                let k = choose|k: int|
                    0 <= k < before.len() && (#[trigger] before[k]).node == nodes[j];
                assert(after[k] == before[k]);
            } else {
                assert(after[before.len() as int].node == nodes[j]);
            }
        }
    }
}

proof fn lemma_pair(
    g: GraphView,
    p: PairState,
    idx: LocalView,
    c: NodeId,
    file: FileId,
    i: InterfaceView,
)
    requires
        all_earned(g, idx, p.pending),
        candidate_types(g).contains(c),
        method_sets(g, idx, c) is Some,
        demand_of(g, i),
    ensures
        ({
            let q = with_pair(g, p, idx, c, file, method_sets(g, idx, c)->0, i);
            &&& all_earned(g, idx, q.pending)
            &&& p.pending.is_prefix_of(q.pending)
            &&& implements(g, idx, c, i.node) ==> holds_edge(q.pending, c, i.node)
        }),
{
    let sets = method_sets(g, idx, c)->0;
    let q = with_pair(g, p, idx, c, file, sets, i);
    let n = p.pending.len() as int;
    let by_value = satisfies(g, sets.value, i.required);
    if by_value {
        law_pointer_satisfies_what_the_type_does(g, idx, c, i.required);
    }
    assert forall|k: int| 0 <= k < q.pending.len() implies earned(g, idx, #[trigger] q.pending[k]) by {
        if k < n {
            assert(q.pending[k] == p.pending[k]);
        } else {
            let e = q.pending[k];
            assert(implements(g, idx, c, i.node) == by_value);
            assert(pointer_implements(g, idx, c, i.node));
            assert(e.target == i.node);
            if e.pointer {
                assert(e.pointer_only == !by_value);
            }
        }
    }
    if implements(g, idx, c, i.node) {
        assert(q.pending[n].source == c && q.pending[n].target == i.node && !q.pending[n].pointer);
    }
}

proof fn lemma_prefix_keeps(a: Seq<PendingImplements>, b: Seq<PendingImplements>, c: NodeId, t: NodeId)
    requires
        a.is_prefix_of(b),
        holds_edge(a, c, t),
    ensures
        holds_edge(b, c, t),
{
    let k = choose|k: int|
        0 <= k < a.len() && (#[trigger] a[k]).source == c && a[k].target == t && !a[k].pointer;
    assert(b[k] == a[k]);
}

proof fn lemma_type(
    g: GraphView,
    p: PairState,
    idx: LocalView,
    c: NodeId,
    file: FileId,
    interfaces: Seq<InterfaceView>,
    n: int,
)
    requires
        0 <= n <= interfaces.len(),
        all_earned(g, idx, p.pending),
        candidate_types(g).contains(c),
        method_sets(g, idx, c) is Some,
        forall|k: int| 0 <= k < interfaces.len() ==> demand_of(g, #[trigger] interfaces[k]),
    ensures
        ({
            let q = with_type(g, p, idx, c, file, method_sets(g, idx, c)->0, interfaces, n);
            &&& all_earned(g, idx, q.pending)
            &&& p.pending.is_prefix_of(q.pending)
            &&& forall|k: int|
                0 <= k < n && implements(g, idx, c, (#[trigger] interfaces[k]).node) ==> holds_edge(
                    q.pending,
                    c,
                    interfaces[k].node,
                )
        }),
    decreases n,
{
    if n > 0 {
        lemma_type(g, p, idx, c, file, interfaces, n - 1);
        let sets = method_sets(g, idx, c)->0;
        let before = with_type(g, p, idx, c, file, sets, interfaces, n - 1);
        let q = with_type(g, p, idx, c, file, sets, interfaces, n);
        lemma_pair(g, before, idx, c, file, interfaces[n - 1]);
        assert forall|k: int|
            0 <= k < n && implements(g, idx, c, (#[trigger] interfaces[k]).node) implies holds_edge(
            q.pending,
            c,
            interfaces[k].node,
        ) by {
            if k < n - 1 {
                lemma_prefix_keeps(before.pending, q.pending, c, interfaces[k].node);
            }
        }
    }
}

proof fn lemma_types(
    g: GraphView,
    p: PairState,
    idx: LocalView,
    types: Seq<NodeId>,
    interfaces: Seq<InterfaceView>,
    n: int,
)
    requires
        0 <= n <= types.len(),
        types == candidate_types(g),
        all_earned(g, idx, p.pending),
        forall|k: int| 0 <= k < interfaces.len() ==> demand_of(g, #[trigger] interfaces[k]),
    ensures
        ({
            let q = with_types(g, p, idx, types, interfaces, n);
            &&& all_earned(g, idx, q.pending)
            &&& forall|j: int, k: int|
                #![trigger types[j], interfaces[k]]
                0 <= j < n && 0 <= k < interfaces.len() && implements(
                    g,
                    idx,
                    types[j],
                    interfaces[k].node,
                ) ==> holds_edge(q.pending, types[j], interfaces[k].node)
        }),
    decreases n,
{
    if n > 0 {
        lemma_types(g, p, idx, types, interfaces, n - 1);
        let before = with_types(g, p, idx, types, interfaces, n - 1);
        let q = with_types(g, p, idx, types, interfaces, n);
        let c = types[n - 1];
        if method_sets(g, idx, c) is Some {
            lemma_type(
                g,
                before,
                idx,
                c,
                file_of(before.st.g, c),
                interfaces,
                interfaces.len() as int,
            );
        }
        assert forall|j: int, k: int|
            #![trigger types[j], interfaces[k]]
            0 <= j < n && 0 <= k < interfaces.len() && implements(
                g,
                idx,
                types[j],
                interfaces[k].node,
            ) implies holds_edge(q.pending, types[j], interfaces[k].node) by {
            if j < n - 1 && method_sets(g, idx, c) is Some {
                lemma_prefix_keeps(before.pending, q.pending, types[j], interfaces[k].node);
            }
        }
    }
}

proof fn lemma_judged(g: GraphView, idx: LocalView)
    ensures
        all_earned(g, idx, judged(g, idx).pending),
        forall|c: NodeId, t: NodeId| #[trigger]
            implements(g, idx, c, t) ==> holds_edge(judged(g, idx).pending, c, t),
{
    let types = candidate_types(g);
    let nodes = in_order(indexed(g, NodeKind::Interface));
    let interfaces = interface_sets(g);
    lemma_demanding(g, nodes, nodes.len() as int);
    assert forall|k: int| 0 <= k < interfaces.len() implies demand_of(g, #[trigger] interfaces[k]) by {}
    let start = PairState {
        st: PointerState { g, forms: Seq::empty(), fresh: Seq::empty() },
        pending: Seq::empty(),
    };
    lemma_types(g, start, idx, types, interfaces, types.len() as int);
    assert forall|c: NodeId, t: NodeId| #[trigger] implements(g, idx, c, t) implies holds_edge(
        judged(g, idx).pending,
        c,
        t,
    ) by {
        let j = types.index_of(c);
        let m = nodes.index_of(t);
        assert(required_methods(g, nodes[m]).len() > 0);
        let k = choose|k: int| 0 <= k < interfaces.len() && (#[trigger] interfaces[k]).node == nodes[m];
        assert(types[j] == c && interfaces[k].node == t);
    }
}

/// No implementation edge is added for a type, or the pointer to one, that lacks a
/// method of the interface; no type implements itself; and nothing implements an
/// interface without methods.
pub proof fn law_implements_edges_are_earned(g: GraphView, idx: LocalView)
    ensures
        forall|k: int|
            0 <= k < implements_edges(g, idx).len() ==> earned(
                g,
                idx,
                #[trigger] implements_edges(g, idx)[k],
            ),
{
    let pending = judged(g, idx).pending;
    let s = sorted(pending);
    lemma_judged(g, idx);
    law_deduped_keeps_keys(s, s.len() as int);
    let edges = implements_edges(g, idx);
    assert forall|k: int| 0 <= k < edges.len() implies earned(g, idx, #[trigger] edges[k]) by {
        assert(s.contains(deduped(s, s.len() as int)[k]));
        lemma_sorted_contains(pending, edges[k]);
        let m = pending.index_of(edges[k]);
        assert(earned(g, idx, pending[m]));
    }
}

/// Every type that implements an interface has an edge that says so. Edges are told
/// apart by the places of their ends.
pub proof fn law_no_implementation_is_missed(g: GraphView, idx: LocalView, c: NodeId, t: NodeId)
    requires
        implements(g, idx, c, t),
    ensures
        exists|k: int|
            0 <= k < implements_edges(g, idx).len() && (#[trigger] implements_edges(
                g,
                idx,
            )[k]).source.index == c.index && implements_edges(g, idx)[k].target.index == t.index
                && !implements_edges(g, idx)[k].pointer,
{
    let pending = judged(g, idx).pending;
    let s = sorted(pending);
    lemma_judged(g, idx);
    let m = choose|m: int|
        0 <= m < pending.len() && (#[trigger] pending[m]).source == c && pending[m].target == t
            && !pending[m].pointer;
    assert(holds_edge(pending, c, t));
    let e = pending[m];
    lemma_sorted_contains(pending, e);
    assert(s.contains(e));
    law_deduped_keeps_keys(s, s.len() as int);
    let i = s.index_of(e);
    let edges = implements_edges(g, idx);
    assert(stands_in(edges, s[i]));
    if edges.contains(e) {
        let k = edges.index_of(e);
        assert(edges[k] == e);
    } else {
        let k = choose|k: int| 0 <= k < edges.len() && (#[trigger] edges[k]).same_rank(e);
        assert(edges[k].source.index == c.index);
    }
}

/// Whether `p` holds an edge from the pointer `x` to `t`.
pub open spec fn holds_pointer_edge(p: Seq<PendingImplements>, x: NodeId, t: NodeId) -> bool {
    exists|k: int|
        0 <= k < p.len() && (#[trigger] p[k]).source == x && p[k].target == t && p[k].pointer
}

/// The node that stands for the pointer to `c`, where one was found or made.
pub open spec fn pointer_to(st: PointerState, c: NodeId) -> Option<NodeId> {
    form_at(st.forms, c, st.forms.len() as int)
}

/// The qualified name of `c` is that of a type in a package.
pub open spec fn has_package(h: GraphView, c: NodeId) -> bool {
    match h.qn(c) {
        Some(qn) => split_qn(qn) is Some,
        None => false,
    }
}

/// There is room for one more string and one more node.
pub open spec fn has_room_left(h: GraphView) -> bool {
    h.strings.text.len() < 0x8000_0000 && can_allocate(h.nodes)
}

proof fn lemma_form_push(forms: Seq<PointerForm>, f: PointerForm, c: NodeId, n: int)
    requires
        0 <= n <= forms.len(),
    ensures
        form_at(forms.push(f), c, n) == form_at(forms, c, n),
    decreases n,
{
    if n > 0 {
        lemma_form_push(forms, f, c, n - 1);
        assert(forms.push(f)[n - 1] == forms[n - 1]);
    }
}

/// A pointer that was found or made is known from then on, and only it is new.
proof fn lemma_form_found(st: PointerState, idx: LocalView, c: NodeId, file: FileId, d: NodeId)
    ensures
        ({
            let f = with_pointer_form(st, idx, c, file);
            &&& d != c ==> pointer_to(f.0, d) == pointer_to(st, d)
            &&& pointer_to(f.0, c) == f.1
        }),
{
    let f = with_pointer_form(st, idx, c, file);
    if pointer_to(st, c) is None && f.1 is Some {
        let form = PointerForm { of: c, node: f.1->0 };
        assert(f.0.forms == st.forms.push(form));
        lemma_form_push(st.forms, form, d, st.forms.len() as int);
        assert(f.0.forms[st.forms.len() as int] == form);
    }
}

proof fn lemma_interned_again(v: InternerView, s: Seq<char>, t: Seq<char>)
    requires
        v.wf(),
        v.can_intern(s),
    ensures
        v.interned(s).wf(),
        v.interned(s).can_intern(s),
        v.interned(s).intern_id(s) == v.intern_id(s),
        v.interned(s).interned(s).text == v.interned(s).text,
        v.interned(s).get(t) is None ==> v.get(t) is None,
        v.get(t) is Some ==> v.interned(s).get(t) == v.get(t),
{
    law_interned_reads_back(v, s);
    assert(v.text.is_prefix_of(v.interned(s).text)) by {
        assert(v.text =~= v.interned(s).text.take(v.text.len() as int));
    }
    lemma_slot_prefix(v.text, v.interned(s).text, t, 0);
}

/// Where no pointer could be made, none can be made a moment later.
proof fn lemma_no_second_form(st: PointerState, idx: LocalView, c: NodeId, file: FileId)
    requires
        st.g.strings.wf(),
        with_pointer_form(st, idx, c, file).1 is None,
    ensures
        with_pointer_form(st, idx, c, file).0.g.strings.wf(),
        with_pointer_form(with_pointer_form(st, idx, c, file).0, idx, c, file).1 is None,
        has_package(with_pointer_form(st, idx, c, file).0.g, c) ==> !has_room_left(
            with_pointer_form(st, idx, c, file).0.g,
        ),
{
    if let Some(qn) = st.g.qn(c) {
        if let Some(p) = split_qn(qn) {
            let f = with_pointer_form(st, idx, c, file).0;
            let name = pointer_name(p.0, p.1);
            let s0 = st.g.strings;
            let s1 = s0.interned(p.0);
            let s2 = s1.interned(p.1);
            let s3 = s2.interned(name);
            if s0.can_intern(p.0) {
                lemma_interned_again(s0, p.0, p.0);
                if s1.can_intern(p.1) {
                    lemma_interned_again(s1, p.1, p.0);
                    if s2.can_intern(name) {
                        lemma_interned_again(s2, name, p.0);
                        lemma_interned_again(s2, name, p.1);
                        let g3 = GraphView { strings: s3, ..st.g };
                        lemma_interned_again(s3, p.1, p.0);
                        lemma_interned_again(s3, p.1, name);
                        assert(!can_allocate(st.g.nodes));
                        let r1 = f.g.strings.interned(p.0);
                        let r2 = r1.interned(p.1);
                        lemma_interned_again(f.g.strings, p.0, p.1);
                        lemma_interned_again(f.g.strings, p.0, name);
                        lemma_interned_again(r1, p.1, name);
                        assert(r2.intern_id(name) == s2.intern_id(name));
                        let h3 = GraphView { strings: r2.interned(name), ..f.g };
                        lemma_synthetic_same(g3, h3, named(g3, s2.intern_id(name)), 0);
                    } else {
                        lemma_interned_again(s2, p.0, p.1);
                        lemma_interned_again(s2, p.0, name);
                        lemma_interned_again(s2.interned(p.0), p.1, name);
                    }
                } else {
                    lemma_interned_again(s1, p.0, p.1);
                }
            }
            lemma_name_stays(st, f, c);
        }
    }
}

proof fn lemma_name_stays(st: PointerState, f: PointerState, c: NodeId)
    requires
        st.g.nodes == f.g.nodes,
        st.g.strings.text.is_prefix_of(f.g.strings.text),
        st.g.qn(c) is Some,
    ensures
        f.g.qn(c) == st.g.qn(c),
{
    let q = live(st.g.nodes, c)->0.qualified_name->0;
    assert(st.g.strings.text[q.0 as int] == f.g.strings.text[q.0 as int]);
}

proof fn lemma_synthetic_same(g: GraphView, h: GraphView, nodes: Seq<NodeId>, i: int)
    requires
        g.nodes == h.nodes,
        g.metadata == h.metadata,
    ensures
        synthetic_type_from(h, nodes, i) == synthetic_type_from(g, nodes, i),
    decreases nodes.len() - i,
{
    if 0 <= i < nodes.len() {
        lemma_synthetic_same(g, h, nodes, i + 1);
    }
}

proof fn lemma_interned_wf(v: InternerView, s: Seq<char>)
    requires
        v.wf(),
    ensures
        v.interned(s).wf(),
{
    if v.can_intern(s) {
        law_interned_reads_back(v, s);
    }
}

proof fn lemma_form_wf(st: PointerState, idx: LocalView, c: NodeId, file: FileId)
    requires
        st.g.strings.wf(),
    ensures
        with_pointer_form(st, idx, c, file).0.g.strings.wf(),
{
    if let Some(qn) = st.g.qn(c) {
        if let Some(p) = split_qn(qn) {
            let s1 = st.g.strings.interned(p.0);
            let s2 = s1.interned(p.1);
            let s3 = s2.interned(pointer_name(p.0, p.1));
            lemma_interned_wf(st.g.strings, p.0);
            lemma_interned_wf(s1, p.1);
            lemma_interned_wf(s2, pointer_name(p.0, p.1));
            lemma_interned_wf(s3, p.1);
        }
    }
}

/// One of the first `n` interfaces is satisfied by the pointer to `c`.
spec fn asked_for(
    g: GraphView,
    c: NodeId,
    sets: SetsView,
    interfaces: Seq<InterfaceView>,
    k: int,
) -> bool {
    interfaces[k].node != c && satisfies(g, sets.pointer, interfaces[k].required)
}

/// What has become of the pointer to `c` once it was held against the first `n`
/// interfaces: it has an edge to each that it satisfies, or it cannot be made.
spec fn pointed(
    g: GraphView,
    q: PairState,
    idx: LocalView,
    c: NodeId,
    file: FileId,
    sets: SetsView,
    interfaces: Seq<InterfaceView>,
    n: int,
) -> bool {
    match pointer_to(q.st, c) {
        Some(x) => forall|k: int|
            0 <= k < n && #[trigger] asked_for(g, c, sets, interfaces, k) ==> holds_pointer_edge(
                q.pending,
                x,
                interfaces[k].node,
            ),
        None => (forall|k: int| 0 <= k < n ==> !#[trigger] asked_for(g, c, sets, interfaces, k))
            || (with_pointer_form(q.st, idx, c, file).1 is None && (has_package(q.st.g, c)
            ==> !has_room_left(q.st.g))),
    }
}

proof fn lemma_pointer_prefix(
    a: Seq<PendingImplements>,
    b: Seq<PendingImplements>,
    x: NodeId,
    t: NodeId,
)
    requires
        a.is_prefix_of(b),
        holds_pointer_edge(a, x, t),
    ensures
        holds_pointer_edge(b, x, t),
{
    let k = choose|k: int|
        0 <= k < a.len() && (#[trigger] a[k]).source == x && a[k].target == t && a[k].pointer;
    assert(b[k] == a[k]);
}

proof fn lemma_pointed(
    g: GraphView,
    p: PairState,
    idx: LocalView,
    c: NodeId,
    file: FileId,
    sets: SetsView,
    interfaces: Seq<InterfaceView>,
    n: int,
)
    requires
        0 <= n <= interfaces.len(),
        p.st.g.strings.wf(),
        pointer_to(p.st, c) is None,
        nested(sets),
    ensures
        ({
            let q = with_type(g, p, idx, c, file, sets, interfaces, n);
            &&& q.st.g.strings.wf()
            &&& p.pending.is_prefix_of(q.pending)
            &&& forall|d: NodeId| d != c ==> #[trigger] pointer_to(q.st, d) == pointer_to(p.st, d)
            &&& pointed(g, q, idx, c, file, sets, interfaces, n)
        }),
    decreases n,
{
    if n > 0 {
        lemma_pointed(g, p, idx, c, file, sets, interfaces, n - 1);
        let b = with_type(g, p, idx, c, file, sets, interfaces, n - 1);
        let q = with_type(g, p, idx, c, file, sets, interfaces, n);
        let i = interfaces[n - 1];
        let by_value = satisfies(g, sets.value, i.required);
        let by_pointer = satisfies(g, sets.pointer, i.required);
        if by_value {
            lemma_nested_satisfies(g, sets, i.required);
        }
        if i.node != c && by_pointer {
            assert(asked_for(g, c, sets, interfaces, n - 1));
            let f = with_pointer_form(b.st, idx, c, file);
            lemma_form_wf(b.st, idx, c, file);
            assert forall|d: NodeId| d != c implies #[trigger] pointer_to(q.st, d) == pointer_to(
                p.st,
                d,
            ) by {
                lemma_form_found(b.st, idx, c, file, d);
                assert(pointer_to(b.st, d) == pointer_to(p.st, d));
            }
            lemma_form_found(b.st, idx, c, file, c);
            match f.1 {
                Some(x) => {
                    let last = q.pending.len() - 1;
                    assert(q.pending[last].source == x && q.pending[last].target == i.node
                        && q.pending[last].pointer);
                    assert forall|k: int|
                        0 <= k < n && #[trigger] asked_for(g, c, sets, interfaces, k) implies
                        holds_pointer_edge(q.pending, x, interfaces[k].node) by {
                        if k < n - 1 {
                            lemma_pointer_prefix(b.pending, q.pending, x, interfaces[k].node);
                        }
                    }
                },
                None => {
                    lemma_no_second_form(b.st, idx, c, file);
                },
            }
        } else {
            assert(q == b);
            assert(!asked_for(g, c, sets, interfaces, n - 1));
        }
    }
}

proof fn lemma_nested_satisfies(g: GraphView, s: SetsView, required: Seq<MethodSetEntry>)
    requires
        nested(s),
        satisfies(g, s.value, required),
    ensures
        satisfies(g, s.pointer, required),
{
    assert forall|i: int| 0 <= i < required.len() implies set_has(
        g,
        s.pointer,
        #[trigger] required[i],
    ) by {
        assert(set_has(g, s.value, required[i]));
        let k = choose|k: int|
            0 <= k < s.value.len() && #[trigger] entry_matches(g, s.value[k], required[i]);
        let m = s.pointer.index_of(s.value[k]);
        assert(entry_matches(g, s.pointer[m], required[i]));
    }
}

proof fn lemma_free_before(b: GraphView, c: GraphView, i: int)
    requires
        extends(b, c),
        0 <= i <= b.nodes.len(),
    ensures
        free_from(c.nodes, i) <= u32::MAX ==> free_from(b.nodes, i) <= free_from(c.nodes, i),
    decreases b.nodes.len() - i,
{
    lemma_free_from(c.nodes, i);
    if i < b.nodes.len() {
        lemma_free_before(b, c, i + 1);
        if i <= u32::MAX && reusable(c.nodes[i]) {
            let x = NodeId { index: i as u32, generation: b.nodes[i].generation };
            assert(c.nodes[i].generation == b.nodes[i].generation);
            if b.nodes[i].entry is Some {
                assert(live(b.nodes, x) is Some);
                assert(live(c.nodes, x) == live(b.nodes, x));
            }
        }
    }
}

/// Room that is left was there before.
proof fn lemma_room_before(b: GraphView, c: GraphView)
    requires
        extends(b, c),
        has_room_left(c),
    ensures
        has_room_left(b),
{
    lemma_free_before(b, c, 0);
}

/// Each of `types` once.
spec fn each_once(types: Seq<NodeId>) -> bool {
    forall|i: int, j: int|
        #![trigger types[i], types[j]]
        0 <= i < j < types.len() ==> types[i] != types[j]
}

proof fn lemma_all_pointed(
    g: GraphView,
    p: PairState,
    idx: LocalView,
    types: Seq<NodeId>,
    interfaces: Seq<InterfaceView>,
    n: int,
)
    requires
        0 <= n <= types.len(),
        each_once(types),
        p.st.g.strings.wf(),
        extends(g, p.st.g),
        p.st.forms.len() == 0,
    ensures
        ({
            let q = with_types(g, p, idx, types, interfaces, n);
            &&& q.st.g.strings.wf()
            &&& extends(g, q.st.g)
            &&& forall|j: int| n <= j < types.len() ==> pointer_to(q.st, #[trigger] types[j]) is None
            &&& forall|j: int, k: int|
                #![trigger types[j], interfaces[k]]
                0 <= j < n && 0 <= k < interfaces.len() && method_sets(g, idx, types[j]) is Some
                    && asked_for(
                    g,
                    types[j],
                    method_sets(g, idx, types[j])->0,
                    interfaces,
                    k,
                ) ==> match pointer_to(q.st, types[j]) {
                    Some(x) => holds_pointer_edge(q.pending, x, interfaces[k].node),
                    None => has_package(g, types[j]) ==> !has_room_left(q.st.g),
                }
        }),
    decreases n,
{
    if n > 0 {
        lemma_all_pointed(g, p, idx, types, interfaces, n - 1);
        let b = with_types(g, p, idx, types, interfaces, n - 1);
        let q = with_types(g, p, idx, types, interfaces, n);
        let c = types[n - 1];
        let m = interfaces.len() as int;
        if method_sets(g, idx, c) is Some {
            let sets = method_sets(g, idx, c)->0;
            let file = file_of(b.st.g, c);
            law_pointer_set_holds_value_set(g, idx, c);
            assert(pointer_to(b.st, types[n - 1]) is None);
            lemma_pointed(g, b, idx, c, file, sets, interfaces, m);
            lemma_type_extends(g, b, idx, c, file, sets, interfaces, m);
            lemma_extends_on(g, b.st.g, q.st.g);
            assert forall|j: int| n <= j < types.len() implies pointer_to(
                q.st,
                #[trigger] types[j],
            ) is None by {
                assert(types[n - 1] != types[j]);
                assert(pointer_to(b.st, types[j]) is None);
            }
            assert forall|j: int, k: int|
                #![trigger types[j], interfaces[k]]
                0 <= j < n && 0 <= k < interfaces.len() && method_sets(g, idx, types[j]) is Some
                    && asked_for(
                    g,
                    types[j],
                    method_sets(g, idx, types[j])->0,
                    interfaces,
                    k,
                ) implies match pointer_to(q.st, types[j]) {
                Some(x) => holds_pointer_edge(q.pending, x, interfaces[k].node),
                None => has_package(g, types[j]) ==> !has_room_left(q.st.g),
            } by {
                if j < n - 1 {
                    assert(types[j] != types[n - 1]);
                    assert(pointer_to(q.st, types[j]) == pointer_to(b.st, types[j]));
                    if let Some(x) = pointer_to(b.st, types[j]) {
                        lemma_pointer_prefix(b.pending, q.pending, x, interfaces[k].node);
                    } else if has_room_left(q.st.g) {
                        lemma_room_before(b.st.g, q.st.g);
                    }
                } else if pointer_to(q.st, c) is None {
                    lemma_extended_name(g, q.st.g, c);
                }
            }
        }
    }
}

proof fn lemma_extended_name(g: GraphView, h: GraphView, c: NodeId)
    requires
        extends(g, h),
        g.qn(c) is Some,
    ensures
        h.qn(c) == g.qn(c),
{
    let q = live(g.nodes, c)->0.qualified_name->0;
    assert(live(h.nodes, c) == live(g.nodes, c));
    assert(g.strings.text[q.0 as int] == h.strings.text[q.0 as int]);
}

proof fn lemma_all_judged(g: GraphView, idx: LocalView, c: NodeId, t: NodeId)
    requires
        g.strings.wf(),
        pointer_implements(g, idx, c, t),
    ensures
        match pointer_to(judged(g, idx).st, c) {
            Some(x) => holds_pointer_edge(judged(g, idx).pending, x, t),
            None => has_package(g, c) ==> !has_room_left(judged(g, idx).st.g),
        },
{
    let types = candidate_types(g);
    let nodes = in_order(indexed(g, NodeKind::Interface));
    let interfaces = interface_sets(g);
    lemma_demanding(g, nodes, nodes.len() as int);
    lemma_candidates_once(g);
    let start = PairState {
        st: PointerState { g, forms: Seq::empty(), fresh: Seq::empty() },
        pending: Seq::empty(),
    };
    lemma_all_pointed(g, start, idx, types, interfaces, types.len() as int);
    let j = types.index_of(c);
    let m = nodes.index_of(t);
    assert(required_methods(g, nodes[m]).len() > 0);
    let k = choose|k: int| 0 <= k < interfaces.len() && (#[trigger] interfaces[k]).node == nodes[m];
    assert(types[j] == c && interfaces[k].node == t);
    assert(asked_for(g, c, method_sets(g, idx, c)->0, interfaces, k));
}

proof fn lemma_candidates_once(g: GraphView)
    ensures
        each_once(candidate_types(g)),
{
    let found = originals(g);
    law_sorted_and_deduped_is_strict(found);
    let types = candidate_types(g);
    assert forall|i: int, j: int|
        #![trigger types[i], types[j]]
        0 <= i < j < types.len() implies types[i] != types[j] by {
        assert(types[i].ranks_before(types[j]));
    }
}

/// Every pointer to a type that implements an interface, with methods of the type alone or
/// with its own too, has an edge that says so, if there is a node for that pointer. Edges
/// are told apart by the places of their ends.
pub proof fn law_no_pointer_implementation_is_missed(
    g: GraphView,
    idx: LocalView,
    c: NodeId,
    t: NodeId,
)
    requires
        g.strings.wf(),
        pointer_implements(g, idx, c, t),
        pointer_to(judged(g, idx).st, c) is Some,
    ensures
        exists|k: int|
            0 <= k < implements_edges(g, idx).len() && (#[trigger] implements_edges(
                g,
                idx,
            )[k]).source.index == pointer_to(judged(g, idx).st, c)->0.index && implements_edges(
                g,
                idx,
            )[k].target.index == t.index && implements_edges(g, idx)[k].pointer,
{
    let pending = judged(g, idx).pending;
    let x = pointer_to(judged(g, idx).st, c)->0;
    let s = sorted(pending);
    lemma_all_judged(g, idx, c, t);
    let m = choose|m: int|
        0 <= m < pending.len() && (#[trigger] pending[m]).source == x && pending[m].target == t
            && pending[m].pointer;
    let e = pending[m];
    lemma_sorted_contains(pending, e);
    assert(s.contains(e));
    law_deduped_keeps_keys(s, s.len() as int);
    let i = s.index_of(e);
    let edges = implements_edges(g, idx);
    assert(stands_in(edges, s[i]));
    if edges.contains(e) {
        let k = edges.index_of(e);
        assert(edges[k] == e);
    } else {
        let k = choose|k: int| 0 <= k < edges.len() && (#[trigger] edges[k]).same_rank(e);
        assert(edges[k].source.index == x.index);
    }
}

/// Where the pointer to a type implements some interface, there is a node for that
/// pointer, if the type has a package and the machine does not run out of room.
pub proof fn law_implementing_pointer_has_a_node(
    g: GraphView,
    idx: LocalView,
    c: NodeId,
    t: NodeId,
)
    requires
        g.strings.wf(),
        pointer_implements(g, idx, c, t),
        has_package(g, c),
        has_room_left(judged(g, idx).st.g),
    ensures
        pointer_to(judged(g, idx).st, c) is Some,
{
    lemma_all_judged(g, idx, c, t);
}

/// Implementation edges are added in ascending order of source, then target, types
/// before pointers, and none twice.
pub proof fn law_implements_edges_are_in_order(g: GraphView, idx: LocalView)
    ensures
        strictly_ascending(implements_edges(g, idx)),
{
    law_sorted_and_deduped_is_strict(judged(g, idx).pending);
}

/// Calls of and references to promoted methods are added in ascending order of caller,
/// then method, calls before references, and none twice.
pub proof fn law_shadows_are_in_order(g: GraphView, idx: LocalView)
    ensures
        strictly_ascending(shadows(g, idx)),
{
    if g.hints.receiver_calls.len() == 0 {
        law_sorted_and_deduped_is_strict(
            unhinted_shadows(
                g,
                unhinted_shadows(g, Seq::empty(), idx.value, idx.value.len() as int),
                idx.pointer,
                idx.pointer.len() as int,
            ),
        );
    } else {
        law_sorted_and_deduped_is_strict(
            hinted_shadows(g, idx, g.hints.receiver_calls.len() as int),
        );
    }
}

} // verus!
