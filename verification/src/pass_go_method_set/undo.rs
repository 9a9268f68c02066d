//! Taking back what the pass has made gives the graph back on which it started.

use vstd::prelude::*;

use crate::arena::{
    allocated, law_allocation_is_fresh, law_allocation_keeps_nodes, lemma_free_from, live,
    live_kind, next_id, NodeEntry,
};
use crate::edges::{callers_of, edges_without_nodes, CallerRef, EdgeView};
use crate::files::buckets_without;
use crate::graph::GraphView;
use crate::ids::{FileId, NodeId, StringId};
use crate::indices::{nodes_of_kind, row_of, rows_with_nodes, with_row, IndexRow};
use crate::kinds::{EdgeKind, Language, NodeKind};
use crate::pass_go_method_set::function_types::{
    converted, entry_from, function_type_from, function_types, implements_type, in_edges,
    signature_edges, with_entry, with_signature_edges, with_slot, with_slots, with_slots_of,
    PendingSignature,
};
use crate::pass_go_method_set::growth::{
    grows, law_given_names_have_pass_shape, law_pointer_members_have_pass_shape,
};
use crate::pass_go_method_set::lookup::{inherits_target, named, out_edges};
use crate::pass_go_method_set::materialise::{
    law_split_joins, linked, minted, outer_at, pointer_name, pointer_type_at, promoted_at, split_qn,
    surveyed, surveyed_one, with_anchor, with_edge, with_gain, with_gains, with_member,
    with_members, GainView, LocalView, MetaView, MintState, OuterKey, PointerTypeKey, PromotedKey,
};
use crate::pass_go_method_set::ownership::{
    edges_not_emitted, emitted_implements, law_tombstone_leaves_no_owned_node, lemma_owned_listed,
    lemma_owned_only, lemma_without_push, owned, owned_nodes, pass_shape, tombstoned, untouched,
};
use crate::pass_go_method_set::promotion::{counted_up, PromotedMethod};
use crate::pass_go_method_set::satisfaction::{
    candidate_types, form_at, implements_edges, indexed, interface_sets, judged, method_sets,
    pointer_form_in, satisfied, synthetic_type_from, with_implements, with_pair, with_pointer_form,
    with_type, with_types, InterfaceView, PairState, PendingImplements, PointerForm, PointerState,
    SetsView,
};
use crate::pass_go_method_set::satisfaction_laws::has_package;
use crate::pass_go_method_set::shadow::{
    file_of, hinted_shadows, promoted_callee, receiver_type, shadow_kind, shadows, unhinted_shadows,
    with_shadow_edges, with_shadows, CallShape, PendingShadow,
};
use crate::pass_go_method_set::{
    after_pass, after_promotion, after_satisfaction, after_shadows, embedding_structs, gains_of,
    indexed_with, promoted,
};
use crate::sorting::{deduped, law_deduped_keeps_keys, lemma_sorted_contains, sorted};
use crate::strings::{law_interned_reads_back, law_interning_keeps_strings};
use crate::text::{contains_text, occurs_at};

verus! {

/// The slot of `id` has been used again since.
pub open spec fn passed(g: GraphView, id: NodeId) -> bool {
    id.index < g.nodes.len() && id.generation < g.nodes[id.index as int].generation
}

/// `x` names a node of `b`, or one that was gone from `g` for good.
pub open spec fn known(g: GraphView, b: GraphView, x: NodeId) -> bool {
    live(b.nodes, x) is Some || passed(g, x)
}

/// `id` names a node of `b`, and named none in `g`.
pub open spec fn made(g: GraphView, b: GraphView, id: NodeId) -> bool {
    live(g.nodes, id) is None && live(b.nodes, id) is Some
}

/// `node` stands in for the type of a type assertion.
pub open spec fn is_stand_in(g: GraphView, node: NodeId) -> bool {
    match g.qn(node) {
        Some(qn) => occurs_at(qn, "<type:"@, 0),
        None => false,
    }
}

/// The pass, started on `g`, adds an implementation from `source` to `target`.
#[verifier::opaque]
pub open spec fn adds_implementation(g: GraphView, source: NodeId, target: NodeId) -> bool {
    let types = implements_edges(after_shadows(g), promoted(g).idx);
    let functions = signature_edges(after_satisfaction(g));
    ||| exists|i: int|
        0 <= i < types.len() && (#[trigger] types[i]).source == source && types[i].target == target
    ||| exists|i: int|
        0 <= i < functions.len() && (#[trigger] functions[i]).source == source
            && functions[i].target == target
}

/// An edge that the pass can add to `g` on the way to `b`: one that touches a node that
/// the pass has made, or an implementation between nodes that were there. It types
/// nothing, it refers to nothing else than what the pass has made, and nothing else
/// inherits by it.
pub open spec fn pass_edge(
    g: GraphView,
    b: GraphView,
    kind: EdgeKind,
    source: NodeId,
    target: NodeId,
) -> bool {
    &&& made(g, b, source) || made(g, b, target) || (kind == EdgeKind::Implements && live(
        g.nodes,
        source,
    ) is Some && adds_implementation(g, source, target))
    &&& kind !is TypeOf
    &&& kind == EdgeKind::References ==> made(g, b, target)
    &&& kind == EdgeKind::Inherits ==> made(g, b, source)
}

/// A type that the pass makes is a pointer.
pub open spec fn made_as(kind: NodeKind, qn: Seq<char>) -> bool {
    kind == NodeKind::Type ==> contains_text(qn, "::*"@)
}

/// `c` is `b` with something added that the pass, started on `g`, adds.
pub open spec fn steps(g: GraphView, b: GraphView, c: GraphView) -> bool {
    &&& grows(b, c)
    &&& c.strings.wf()
    &&& b.nodes.len() <= c.nodes.len()
    &&& forall|i: int|
        0 <= i < b.nodes.len() ==> (#[trigger] c.nodes[i]).generation == b.nodes[i].generation
    &&& b.strings.text.is_prefix_of(c.strings.text)
    &&& b.indices.is_prefix_of(c.indices)
    &&& forall|i: int|
        b.indices.len() <= i < c.indices.len() ==> made(g, c, (#[trigger] c.indices[i]).node)
            && c.indices[i] == row_of(
            c.indices[i].node,
            live(c.nodes, c.indices[i].node)->0,
        )
    &&& c.files.files == b.files.files
    &&& c.hints == b.hints
    &&& b.files.buckets.is_prefix_of(c.files.buckets)
    &&& forall|i: int|
        b.files.buckets.len() <= i < c.files.buckets.len() ==> made(
            g,
            c,
            (#[trigger] c.files.buckets[i]).node,
        )
    &&& forall|id: NodeId|
        (#[trigger] live(b.nodes, id)) is Some ==> c.metadata.is_synthetic(id)
            == b.metadata.is_synthetic(id)
    &&& forall|id: NodeId| #[trigger]
        made(b, c, id) ==> owned(c, id) && made_as(live(c.nodes, id)->0.kind, c.qn(id)->0)
    &&& forall|i: int|
        b.edges.edges.len() <= i < c.edges.edges.len() ==> pass_edge(
            g,
            c,
            (#[trigger] c.edges.edges[i]).kind,
            c.edges.edges[i].source,
            c.edges.edges[i].target,
        )
    &&& indexed(c, NodeKind::Interface) == indexed(b, NodeKind::Interface)
}

proof fn lemma_owned_stays(g: GraphView, b: GraphView, c: GraphView, id: NodeId)
    requires
        steps(g, b, c),
        owned(b, id),
    ensures
        owned(c, id),
        c.qn(id) == b.qn(id),
{
    let e = live(b.nodes, id)->0;
    assert(live(c.nodes, id) == live(b.nodes, id));
    assert(c.metadata.is_synthetic(id) == b.metadata.is_synthetic(id));
    let q = e.qualified_name->0;
    lemma_resolve_stays(b, c, q);
}

proof fn lemma_resolve_stays(b: GraphView, c: GraphView, q: StringId)
    requires
        b.strings.text.is_prefix_of(c.strings.text),
        b.strings.resolve(q) is Some,
    ensures
        c.strings.resolve(q) == b.strings.resolve(q),
{
    assert(b.strings.text[q.0 as int] == c.strings.text[q.0 as int]);
}

proof fn lemma_made_stays(g: GraphView, b: GraphView, c: GraphView, id: NodeId)
    requires
        grows(b, c),
        made(g, b, id),
    ensures
        made(g, c, id),
{
    assert(live(c.nodes, id) == live(b.nodes, id));
}

proof fn lemma_steps_on(g: GraphView, a: GraphView, b: GraphView, c: GraphView)
    requires
        steps(g, a, b),
        steps(g, b, c),
    ensures
        steps(g, a, c),
{
    assert(a.edges.edges =~= c.edges.edges.take(a.edges.edges.len() as int));
    assert(a.files.buckets =~= c.files.buckets.take(a.files.buckets.len() as int));
    assert forall|id: NodeId| (#[trigger] live(a.nodes, id)) is Some implies live(c.nodes, id)
        == live(a.nodes, id) && c.metadata.is_synthetic(id) == a.metadata.is_synthetic(id) by {
        assert(live(b.nodes, id) == live(a.nodes, id));
        assert(live(c.nodes, id) == live(b.nodes, id));
    }
    assert(a.strings.text =~= c.strings.text.take(a.strings.text.len() as int));
    assert(a.indices =~= c.indices.take(a.indices.len() as int));
    assert forall|i: int| a.indices.len() <= i < c.indices.len() implies made(
        g,
        c,
        (#[trigger] c.indices[i]).node,
    ) && c.indices[i] == row_of(c.indices[i].node, live(c.nodes, c.indices[i].node)->0) by {
        if i < b.indices.len() {
            assert(c.indices[i] == b.indices[i]);
            lemma_made_stays(g, b, c, b.indices[i].node);
        }
    }
    assert forall|i: int| a.files.buckets.len() <= i < c.files.buckets.len() implies made(
        g,
        c,
        (#[trigger] c.files.buckets[i]).node,
    ) by {
        if i < b.files.buckets.len() {
            assert(c.files.buckets[i] == b.files.buckets[i]);
            lemma_made_stays(g, b, c, b.files.buckets[i].node);
        }
    }
    assert forall|id: NodeId| #[trigger] made(a, c, id) implies owned(c, id) && made_as(
        live(c.nodes, id)->0.kind,
        c.qn(id)->0,
    ) by {
        if live(b.nodes, id) is Some {
            assert(made(a, b, id));
            lemma_owned_stays(g, b, c, id);
            assert(c.qn(id) == b.qn(id));
        } else {
            assert(made(b, c, id));
        }
    }
    assert forall|i: int| a.edges.edges.len() <= i < c.edges.edges.len() implies pass_edge(
        g,
        c,
        (#[trigger] c.edges.edges[i]).kind,
        c.edges.edges[i].source,
        c.edges.edges[i].target,
    ) by {
        if i < b.edges.edges.len() {
            let e = b.edges.edges[i];
            assert(c.edges.edges[i] == e);
            if made(g, b, e.source) {
                lemma_made_stays(g, b, c, e.source);
            }
            if made(g, b, e.target) {
                lemma_made_stays(g, b, c, e.target);
            }
        }
    }
}

/// Nothing is added.
proof fn lemma_steps_same(g: GraphView, b: GraphView)
    requires
        b.strings.wf(),
    ensures
        steps(g, b, b),
{
}

/// A string is added.
proof fn lemma_intern_step(g: GraphView, b: GraphView, text: Seq<char>)
    requires
        b.strings.wf(),
    ensures
        steps(g, b, (GraphView { strings: b.strings.interned(text), ..b })),
{
    let c = GraphView { strings: b.strings.interned(text), ..b };
    assert(c.strings.wf()) by {
        if b.strings.can_intern(text) {
            law_interned_reads_back(b.strings, text);
        }
    }
    assert(b.strings.text =~= c.strings.text.take(b.strings.text.len() as int));
}

/// An edge is added.
proof fn lemma_edge_step(
    g: GraphView,
    b: GraphView,
    source: NodeId,
    target: NodeId,
    kind: EdgeKind,
    file: FileId,
)
    requires
        b.strings.wf(),
        pass_edge(g, b, kind, source, target),
    ensures
        steps(g, b, with_edge(b, source, target, kind, file)),
{
    let c = with_edge(b, source, target, kind, file);
    assert(b.edges.edges =~= c.edges.edges.take(b.edges.edges.len() as int));
}

/// A node is added under a name by which the pass knows it again.
proof fn lemma_mint_step(
    g: GraphView,
    b: GraphView,
    kind: NodeKind,
    short: Seq<char>,
    qn: StringId,
    file: FileId,
)
    requires
        grows(g, b),
        b.strings.wf(),
        kind == NodeKind::Method || kind == NodeKind::Type,
        b.strings.resolve(qn) matches Some(text) && pass_shape(text) && made_as(kind, text),
    ensures
        steps(g, b, minted(b, kind, short, qn, file).g),
        minted(b, kind, short, qn, file).id matches Some(node) ==> made(
            g,
            minted(b, kind, short, qn, file).g,
            node,
        ),
{
    let m = minted(b, kind, short, qn, file);
    lemma_intern_step(g, b, short);
    if let Some(node) = m.id {
        let c = m.g;
        let entry = NodeEntry {
            qualified_name: Some(qn),
            ..NodeEntry::bare(kind, b.strings.intern_id(short), file)
        };
        assert(c.nodes == allocated(b.nodes, entry));
        assert(node == next_id(b.nodes));
        law_allocation_is_fresh(b.nodes, entry);
        lemma_free_from(b.nodes, 0);
        law_interning_keeps_strings(b.strings, short, qn);
        if live(g.nodes, node) is Some {
            assert(live(b.nodes, node) == live(g.nodes, node));
        }
        assert forall|id: NodeId| (#[trigger] live(b.nodes, id)) is Some implies live(c.nodes, id)
            == live(b.nodes, id) && c.metadata.is_synthetic(id) == b.metadata.is_synthetic(id) by {
            law_allocation_keeps_nodes(b.nodes, entry, id);
        }
        assert(owned(c, node));
        assert forall|id: NodeId| #[trigger] made(b, c, id) implies owned(c, id) && made_as(
            live(c.nodes, id)->0.kind,
            c.qn(id)->0,
        ) by {
            assert(id == node);
        }
        assert(b.files.buckets =~= c.files.buckets.take(b.files.buckets.len() as int));
        assert(b.edges.edges =~= c.edges.edges.take(b.edges.edges.len() as int));
        assert(indexed(c, NodeKind::Interface) == indexed(b, NodeKind::Interface));
    }
}

proof fn lemma_nodes_of_kind_prefix(rows: Seq<IndexRow>, row: IndexRow, kind: NodeKind, n: int)
    requires
        0 <= n <= rows.len(),
    ensures
        nodes_of_kind(rows.push(row), kind, n) == nodes_of_kind(rows, kind, n),
    decreases n,
{
    if n > 0 {
        lemma_nodes_of_kind_prefix(rows, row, kind, n - 1);
        assert(rows.push(row)[n - 1] == rows[n - 1]);
    }
}

proof fn lemma_rows_added(b: GraphView, nodes: Seq<NodeId>, n: int)
    requires
        0 <= n <= nodes.len(),
    ensures
        b.indices.is_prefix_of(rows_with_nodes(b.indices, b.nodes, nodes, n)),
        forall|i: int|
            b.indices.len() <= i < rows_with_nodes(b.indices, b.nodes, nodes, n).len()
                ==> nodes.contains(
                (#[trigger] rows_with_nodes(b.indices, b.nodes, nodes, n)[i]).node,
            ) && rows_with_nodes(b.indices, b.nodes, nodes, n)[i] == row_of(
                rows_with_nodes(b.indices, b.nodes, nodes, n)[i].node,
                live(
                    b.nodes,
                    rows_with_nodes(b.indices, b.nodes, nodes, n)[i].node,
                )->0,
            ),
    decreases n,
{
    if n > 0 {
        lemma_rows_added(b, nodes, n - 1);
        let before = rows_with_nodes(b.indices, b.nodes, nodes, n - 1);
        let after = rows_with_nodes(b.indices, b.nodes, nodes, n);
        assert(b.indices =~= after.take(b.indices.len() as int));
        assert forall|i: int| b.indices.len() <= i < after.len() implies nodes.contains(
            (#[trigger] after[i]).node,
        ) && after[i] == row_of(after[i].node, live(b.nodes, after[i].node)->0) by {
            if i < before.len() {
                assert(after[i] == before[i]);
            } else {
                assert(nodes[n - 1] == after[i].node);
            }
        }
    }
}

proof fn lemma_indexed_rows(b: GraphView, nodes: Seq<NodeId>, n: int)
    requires
        0 <= n <= nodes.len(),
        forall|i: int|
            0 <= i < nodes.len() ==> live_kind(b.nodes, #[trigger] nodes[i]) != Some(
                NodeKind::Interface,
            ),
    ensures
        ({
            let rows = rows_with_nodes(b.indices, b.nodes, nodes, n);
            nodes_of_kind(rows, NodeKind::Interface, rows.len() as int) == indexed(
                b,
                NodeKind::Interface,
            )
        }),
    decreases n,
{
    if n > 0 {
        lemma_indexed_rows(b, nodes, n - 1);
        let before = rows_with_nodes(b.indices, b.nodes, nodes, n - 1);
        if let Some(e) = live(b.nodes, nodes[n - 1]) {
            let row = row_of(nodes[n - 1], e);
            assert(live_kind(b.nodes, nodes[n - 1]) == Some(e.kind));
            if !before.contains(row) {
                lemma_nodes_of_kind_prefix(before, row, NodeKind::Interface, before.len() as int);
                assert(with_row(before, row) == before.push(row));
                assert(before.push(row)[before.len() as int] == row);
            }
        }
    }
}

/// Nodes that the pass has made are indexed.
proof fn lemma_index_step(g: GraphView, b: GraphView, nodes: Seq<NodeId>)
    requires
        steps(g, g, b),
        forall|i: int| 0 <= i < nodes.len() ==> made(g, b, #[trigger] nodes[i]),
    ensures
        steps(g, b, indexed_with(b, nodes)),
{
    assert forall|i: int| 0 <= i < nodes.len() implies live_kind(b.nodes, #[trigger] nodes[i]) != Some(
        NodeKind::Interface,
    ) by {
        assert(made(g, b, nodes[i]));
        assert(owned(b, nodes[i]));
    }
    lemma_indexed_rows(b, nodes, nodes.len() as int);
    lemma_rows_added(b, nodes, nodes.len() as int);
    let c = indexed_with(b, nodes);
    assert forall|i: int| b.indices.len() <= i < c.indices.len() implies made(
        g,
        c,
        (#[trigger] c.indices[i]).node,
    ) && c.indices[i] == row_of(c.indices[i].node, live(c.nodes, c.indices[i].node)->0) by {
        let k = nodes.index_of(c.indices[i].node);
        assert(made(g, b, nodes[k]));
    }
}

/// Everything that the pass has noted, it has made.
pub open spec fn all_made(g: GraphView, b: GraphView, idx: LocalView) -> bool {
    &&& forall|i: int| 0 <= i < idx.value.len() ==> made(g, b, (#[trigger] idx.value[i]).node)
    &&& forall|i: int| 0 <= i < idx.pointer.len() ==> made(g, b, (#[trigger] idx.pointer[i]).node)
    &&& forall|i: int|
        0 <= i < idx.pointer_type.len() ==> made(g, b, (#[trigger] idx.pointer_type[i]).node)
    &&& forall|i: int|
        0 <= i < idx.outer_value.len() ==> made(g, b, (#[trigger] idx.outer_value[i]).node)
    &&& forall|i: int|
        0 <= i < idx.outer_pointer.len() ==> made(g, b, (#[trigger] idx.outer_pointer[i]).node)
}

/// The nodes of a list are nodes that the pass has made.
pub open spec fn all_nodes_made(g: GraphView, b: GraphView, nodes: Seq<NodeId>) -> bool {
    forall|i: int| 0 <= i < nodes.len() ==> made(g, b, #[trigger] nodes[i])
}

proof fn lemma_all_made_stays(
    g: GraphView,
    b: GraphView,
    c: GraphView,
    idx: LocalView,
    fresh: Seq<NodeId>,
)
    requires
        grows(b, c),
    ensures
        all_made(g, b, idx) ==> all_made(g, c, idx),
        all_nodes_made(g, b, fresh) ==> all_nodes_made(g, c, fresh),
{
    assert forall|id: NodeId| made(g, b, id) implies made(g, c, id) by {
        lemma_made_stays(g, b, c, id);
    }
}

/// A state that the pass, started on `g`, reaches while it makes promoted methods.
spec fn reached(g: GraphView, st: MintState) -> bool {
    &&& steps(g, g, st.g)
    &&& all_made(g, st.g, st.idx)
    &&& all_nodes_made(g, st.g, st.fresh)
}

proof fn lemma_promoted_at(
    s: Seq<PromotedKey>,
    package: StringId,
    owner: StringId,
    method: StringId,
    n: int,
)
    requires
        0 <= n <= s.len(),
    ensures
        promoted_at(s, package, owner, method, n) matches Some(node) ==> exists|i: int|
            0 <= i < n && (#[trigger] s[i]).node == node,
    decreases n,
{
    if n > 0 {
        lemma_promoted_at(s, package, owner, method, n - 1);
        assert(s[n - 1].node == s[n - 1].node);
    }
}

proof fn lemma_pointer_type_at(s: Seq<PointerTypeKey>, package: StringId, owner: StringId, n: int)
    requires
        0 <= n <= s.len(),
    ensures
        pointer_type_at(s, package, owner, n) matches Some(node) ==> exists|i: int|
            0 <= i < n && (#[trigger] s[i]).node == node,
    decreases n,
{
    if n > 0 {
        lemma_pointer_type_at(s, package, owner, n - 1);
        assert(s[n - 1].node == s[n - 1].node);
    }
}

proof fn lemma_outer_at(s: Seq<OuterKey>, outer: NodeId, name: StringId, n: int)
    requires
        0 <= n <= s.len(),
    ensures
        outer_at(s, outer, name, n) matches Some(node) ==> exists|i: int|
            0 <= i < n && (#[trigger] s[i]).node == node,
    decreases n,
{
    if n > 0 {
        lemma_outer_at(s, outer, name, n - 1);
        assert(s[n - 1].node == s[n - 1].node);
    }
}

proof fn lemma_linked(
    g: GraphView,
    st: MintState,
    meta: MetaView,
    parent: NodeId,
    node: NodeId,
    pointer: bool,
    pm: PromotedMethod,
)
    requires
        reached(g, st),
        made(g, st.g, node),
    ensures
        reached(g, linked(st, meta, parent, node, pointer, pm)),
{
    let r = linked(st, meta, parent, node, pointer, pm);
    let b = with_edge(st.g, parent, node, EdgeKind::Contains, meta.file);
    lemma_edge_step(g, st.g, parent, node, EdgeKind::Contains, meta.file);
    lemma_made_stays(g, st.g, b, node);
    lemma_edge_step(g, b, node, pm.method, EdgeKind::Inherits, meta.file);
    lemma_steps_on(g, g, st.g, b);
    lemma_steps_on(g, g, b, r.g);
    lemma_all_made_stays(g, st.g, b, st.idx, st.fresh);
    lemma_all_made_stays(g, b, r.g, st.idx, st.fresh);
    lemma_made_stays(g, b, r.g, node);
}

/// The name of `pm` has its place in the table, and added to `base` makes a name by which
/// the pass knows a node again.
pub open spec fn named_on(g: GraphView, base: Seq<char>, pm: PromotedMethod) -> bool {
    &&& pm.name.0 < g.strings.text.len()
    &&& g.strings.resolve(pm.name) matches Some(short) ==> pass_shape(base + "::"@ + short)
}

proof fn lemma_member(
    g: GraphView,
    st: MintState,
    meta: MetaView,
    parent: NodeId,
    base: Seq<char>,
    pointer: bool,
    pm: PromotedMethod,
)
    requires
        reached(g, st),
        named_on(g, base, pm),
    ensures
        reached(g, with_member(st, meta, parent, base, pointer, pm)),
{
    assert(g.strings.text[pm.name.0 as int] == st.g.strings.text[pm.name.0 as int]);
    let short = st.g.strings.resolve(pm.name)->0;
    let list = if pointer {
        st.idx.pointer
    } else {
        st.idx.value
    };
    let n = list.len() as int;
    lemma_promoted_at(list, meta.package_id, meta.short_id, pm.name, n);
    match promoted_at(list, meta.package_id, meta.short_id, pm.name, n) {
        Some(node) => {
            let i = choose|i: int| 0 <= i < n && (#[trigger] list[i]).node == node;
            assert(made(g, st.g, list[i].node));
            if st.g.strings.resolve(pm.name) is Some {
                lemma_linked(g, st, meta, parent, node, pointer, pm);
            }
        },
        None => {
            let qn = base + "::"@ + short;
            if st.g.strings.resolve(pm.name) is Some && st.g.strings.can_intern(qn) {
                let g1 = GraphView { strings: st.g.strings.interned(qn), ..st.g };
                let id = st.g.strings.intern_id(qn);
                lemma_intern_step(g, st.g, qn);
                lemma_steps_on(g, g, st.g, g1);
                law_interned_reads_back(st.g.strings, qn);
                assert(pass_shape(qn));
                lemma_mint_step(g, g1, NodeKind::Method, short, id, meta.file);
                let m = minted(g1, NodeKind::Method, short, id, meta.file);
                lemma_steps_on(g, g, g1, m.g);
                lemma_all_made_stays(g, st.g, g1, st.idx, st.fresh);
                lemma_all_made_stays(g, g1, m.g, st.idx, st.fresh);
                if let Some(node) = m.id {
                    let key = PromotedKey {
                        package: meta.package_id,
                        owner: meta.short_id,
                        method: pm.name,
                        node,
                    };
                    let idx = if pointer {
                        LocalView { pointer: st.idx.pointer.push(key), ..st.idx }
                    } else {
                        LocalView { value: st.idx.value.push(key), ..st.idx }
                    };
                    let mid = MintState {
                        g: m.g,
                        idx,
                        fresh: st.fresh.push(node),
                        promoted: counted_up(st.promoted, 1),
                    };
                    assert(reached(g, mid));
                    lemma_linked(g, mid, meta, parent, node, pointer, pm);
                }
            }
        },
    }
}

proof fn lemma_members(
    g: GraphView,
    st: MintState,
    meta: MetaView,
    parent: NodeId,
    base: Seq<char>,
    pointer: bool,
    methods: Seq<PromotedMethod>,
    n: int,
)
    requires
        reached(g, st),
        0 <= n <= methods.len(),
        forall|i: int| 0 <= i < methods.len() ==> named_on(g, base, #[trigger] methods[i]),
    ensures
        reached(g, with_members(st, meta, parent, base, pointer, methods, n)),
    decreases n,
{
    if n > 0 {
        lemma_members(g, st, meta, parent, base, pointer, methods, n - 1);
        let before = with_members(st, meta, parent, base, pointer, methods, n - 1);
        lemma_member(g, before, meta, parent, base, pointer, methods[n - 1]);
    }
}

/// The names of a struct that gains methods belong together.
spec fn proper_meta(meta: MetaView) -> bool {
    exists|package: Seq<char>|
        #![trigger pointer_name(package, meta.short)]
        meta.short.len() > 0 && meta.qn == package + "::"@ + meta.short && meta.pointer_qn
            == pointer_name(package, meta.short)
}

proof fn lemma_pointer_marked(package: Seq<char>, short: Seq<char>)
    ensures
        contains_text(pointer_name(package, short), "::*"@),
{
    let name = pointer_name(package, short);
    let n = package.len() as int;
    assert(occurs_at(name, "::*"@, n)) by {
        assert(name.subrange(n, n + "::*"@.len()) =~= "::*"@);
    }
}

proof fn lemma_pointer_base(meta: MetaView)
    requires
        proper_meta(meta),
    ensures
        pass_shape(meta.pointer_qn),
        contains_text(meta.pointer_qn, "::*"@),
        forall|method: Seq<char>| pass_shape(#[trigger] (meta.pointer_qn + "::"@ + method)),
{
    let package = choose|package: Seq<char>|
        #![trigger pointer_name(package, meta.short)]
        meta.short.len() > 0 && meta.qn == package + "::"@ + meta.short && meta.pointer_qn
            == pointer_name(package, meta.short);
    law_given_names_have_pass_shape(package, meta.short, seq!['m']);
    lemma_pointer_marked(package, meta.short);
    assert forall|method: Seq<char>| pass_shape(#[trigger] (meta.pointer_qn + "::"@ + method)) by {
        law_pointer_members_have_pass_shape(package, meta.short, method);
    }
}

proof fn lemma_anchor(g: GraphView, st: MintState, meta: MetaView)
    requires
        reached(g, st),
        proper_meta(meta),
    ensures
        reached(g, with_anchor(st, meta).0),
{
    lemma_pointer_base(meta);
    if st.g.strings.can_intern(meta.pointer_qn) {
        let g1 = GraphView { strings: st.g.strings.interned(meta.pointer_qn), ..st.g };
        let id = st.g.strings.intern_id(meta.pointer_qn);
        lemma_intern_step(g, st.g, meta.pointer_qn);
        lemma_steps_on(g, g, st.g, g1);
        law_interned_reads_back(st.g.strings, meta.pointer_qn);
        lemma_mint_step(g, g1, NodeKind::Type, meta.short, id, meta.file);
        let m = minted(g1, NodeKind::Type, meta.short, id, meta.file);
        lemma_steps_on(g, g, g1, m.g);
        lemma_all_made_stays(g, st.g, g1, st.idx, st.fresh);
        lemma_all_made_stays(g, g1, m.g, st.idx, st.fresh);
        if let Some(node) = m.id {
            let r = with_edge(m.g, node, meta.outer, EdgeKind::Inherits, meta.file);
            lemma_edge_step(g, m.g, node, meta.outer, EdgeKind::Inherits, meta.file);
            lemma_steps_on(g, g, m.g, r);
            lemma_all_made_stays(g, m.g, r, st.idx, st.fresh);
            lemma_made_stays(g, m.g, r, node);
        }
    }
}

/// The methods that `outer` gains get names by which the pass knows them again.
pub open spec fn plainly_gained(g: GraphView, outer: NodeId, gain: GainView) -> bool {
    &&& forall|i: int|
        0 <= i < gain.value.len() ==> (#[trigger] gain.value[i]).name.0 < g.strings.text.len() && (
        has_package(g, outer) ==> named_on(g, g.qn(outer)->0, gain.value[i]))
    &&& forall|i: int|
        0 <= i < gain.pointer_only.len() ==> (#[trigger] gain.pointer_only[i]).name.0
            < g.strings.text.len()
}

proof fn lemma_gain(
    g: GraphView,
    st: MintState,
    meta: MetaView,
    outer: NodeId,
    gain: GainView,
)
    requires
        reached(g, st),
        proper_meta(meta),
        g.qn(outer) == Some(meta.qn),
        has_package(g, outer),
        plainly_gained(g, outer, gain),
    ensures
        reached(g, with_gain(st, meta, gain)),
{
    let n = gain.value.len() as int;
    lemma_pointer_base(meta);
    assert forall|i: int| 0 <= i < gain.value.len() implies named_on(
        g,
        meta.qn,
        #[trigger] gain.value[i],
    ) by {}
    assert forall|i: int| 0 <= i < gain.pointer_only.len() implies named_on(
        g,
        meta.pointer_qn,
        #[trigger] gain.pointer_only[i],
    ) by {}
    if gain.pointer_only.len() == 0 {
        lemma_members(g, st, meta, meta.outer, meta.qn, false, gain.value, n);
    } else {
        lemma_anchor(g, st, meta);
        let a = with_anchor(st, meta);
        if let Some(anchor) = a.1 {
            lemma_members(g, a.0, meta, meta.outer, meta.qn, false, gain.value, n);
            lemma_members(
                g,
                with_members(a.0, meta, meta.outer, meta.qn, false, gain.value, n),
                meta,
                anchor,
                meta.pointer_qn,
                true,
                gain.pointer_only,
                gain.pointer_only.len() as int,
            );
        }
    }
}

/// The names of `meta` are those of the struct at its place.
spec fn meta_of(g: GraphView, outers: Seq<NodeId>, meta: MetaView) -> bool {
    &&& proper_meta(meta)
    &&& 0 <= meta.at < outers.len()
    &&& g.qn(outers[meta.at]) == Some(meta.qn)
    &&& has_package(g, outers[meta.at])
}

proof fn lemma_gains(
    g: GraphView,
    st: MintState,
    metas: Seq<MetaView>,
    outers: Seq<NodeId>,
    gains: Seq<GainView>,
    n: int,
)
    requires
        reached(g, st),
        0 <= n <= metas.len(),
        outers.len() == gains.len(),
        forall|i: int| 0 <= i < metas.len() ==> meta_of(g, outers, #[trigger] metas[i]),
        forall|i: int| 0 <= i < gains.len() ==> plainly_gained(g, outers[i], #[trigger] gains[i]),
    ensures
        reached(g, with_gains(st, metas, gains, n)),
    decreases n,
{
    if n > 0 {
        lemma_gains(g, st, metas, outers, gains, n - 1);
        let meta = metas[n - 1];
        assert(meta_of(g, outers, metas[n - 1]));
        assert(plainly_gained(g, outers[meta.at], gains[meta.at]));
        lemma_gain(
            g,
            with_gains(st, metas, gains, n - 1),
            meta,
            outers[meta.at],
            gains[meta.at],
        );
    }
}

proof fn lemma_survey(g: GraphView, outers: Seq<NodeId>, gains: Seq<GainView>, n: int)
    requires
        g.strings.wf(),
        named_truly(g),
        0 <= n <= gains.len(),
        outers.len() == gains.len(),
    ensures
        steps(g, g, surveyed(g, outers, gains, n).g),
        surveyed(g, outers, gains, n).g.nodes == g.nodes,
        forall|i: int|
            0 <= i < surveyed(g, outers, gains, n).metas.len() ==> meta_of(
                g,
                outers,
                #[trigger] surveyed(g, outers, gains, n).metas[i],
            ),
    decreases n,
{
    if n > 0 {
        lemma_survey(g, outers, gains, n - 1);
        let before = surveyed(g, outers, gains, n - 1);
        let h = before.g;
        let outer = outers[n - 1];
        let one = surveyed_one(h, outer, gains[n - 1], n - 1);
        lemma_steps_same(g, h);
        if let Some(e) = live(g.nodes, outer) {
            if let Some(q) = e.qualified_name {
                assert(g.strings.text[q.0 as int] == h.strings.text[q.0 as int]);
            }
        }
        assert(h.qn(outer) == g.qn(outer));
        if let Some(qn) = h.qn(outer) {
            law_split_joins(qn);
            if let Some(p) = split_qn(qn) {
                let h1 = GraphView { strings: h.strings.interned(p.0), ..h };
                lemma_intern_step(g, h, p.0);
                lemma_intern_step(g, h1, p.1);
                let h2 = GraphView { strings: h1.strings.interned(p.1), ..h };
                lemma_steps_on(g, h, h1, h2);
                if let Some(meta) = one.1 {
                    assert(meta.pointer_qn == pointer_name(p.0, meta.short));
                    assert(proper_meta(meta));
                }
            }
        }
        lemma_steps_on(g, g, h, one.0);
        let after = surveyed(g, outers, gains, n);
        assert forall|i: int| 0 <= i < after.metas.len() implies meta_of(
            g,
            outers,
            #[trigger] after.metas[i],
        ) by {
            if i < before.metas.len() {
                assert(after.metas[i] == before.metas[i]);
            }
        }
    } else {
        lemma_steps_same(g, g);
    }
}

/// Every target of `pending` is a node that the pass has made.
spec fn shadow_targets_made(g: GraphView, b: GraphView, pending: Seq<PendingShadow>) -> bool {
    forall|i: int| 0 <= i < pending.len() ==> made(g, b, (#[trigger] pending[i]).target)
}

proof fn lemma_with_shadows(
    g: GraphView,
    b: GraphView,
    pending: Seq<PendingShadow>,
    callers: Seq<CallerRef>,
    target: NodeId,
    shape: Option<CallShape>,
    n: int,
)
    requires
        shadow_targets_made(g, b, pending),
        made(g, b, target),
    ensures
        shadow_targets_made(g, b, with_shadows(b, pending, callers, target, shape, n)),
    decreases n,
{
    if n > 0 {
        lemma_with_shadows(g, b, pending, callers, target, shape, n - 1);
    }
}

proof fn lemma_hinted_shadows(g: GraphView, b: GraphView, idx: LocalView, n: int)
    requires
        all_made(g, b, idx),
    ensures
        shadow_targets_made(g, b, hinted_shadows(b, idx, n)),
    decreases n,
{
    if n > 0 {
        lemma_hinted_shadows(g, b, idx, n - 1);
        let hint = b.hints.receiver_calls[n - 1];
        if let Some(target) = promoted_callee(b, idx, hint) {
            let r = receiver_type(b, hint.receiver)->0;
            let list = if r.pointer {
                idx.outer_pointer
            } else {
                idx.outer_value
            };
            lemma_outer_at(list, r.node, hint.method_name, list.len() as int);
            let k = choose|k: int| 0 <= k < list.len() && (#[trigger] list[k]).node == target;
            assert(made(g, b, list[k].node));
            let callers = callers_of(
                b.edges.edges,
                hint.callee_method,
                b.edges.edges.len() as int,
            );
            lemma_with_shadows(
                g,
                b,
                hinted_shadows(b, idx, n - 1),
                callers,
                target,
                Some(
                    CallShape { argument_count: hint.argument_count, is_async: hint.is_async },
                ),
                callers.len() as int,
            );
        }
    }
}

proof fn lemma_unhinted_shadows(
    g: GraphView,
    b: GraphView,
    pending: Seq<PendingShadow>,
    keys: Seq<PromotedKey>,
    n: int,
)
    requires
        shadow_targets_made(g, b, pending),
        0 <= n <= keys.len(),
        forall|i: int| 0 <= i < keys.len() ==> made(g, b, (#[trigger] keys[i]).node),
    ensures
        shadow_targets_made(g, b, unhinted_shadows(b, pending, keys, n)),
    decreases n,
{
    if n > 0 {
        lemma_unhinted_shadows(g, b, pending, keys, n - 1);
        assert(made(g, b, keys[n - 1].node));
        if let Some(method) = inherits_target(b, keys[n - 1].node) {
            let callers = callers_of(b.edges.edges, method, b.edges.edges.len() as int);
            lemma_with_shadows(
                g,
                b,
                unhinted_shadows(b, pending, keys, n - 1),
                callers,
                keys[n - 1].node,
                None,
                callers.len() as int,
            );
        }
    }
}

proof fn lemma_shadow_targets(g: GraphView, b: GraphView, idx: LocalView)
    requires
        all_made(g, b, idx),
    ensures
        shadow_targets_made(g, b, shadows(b, idx)),
{
    let pending = if b.hints.receiver_calls.len() == 0 {
        lemma_unhinted_shadows(g, b, Seq::empty(), idx.value, idx.value.len() as int);
        let first = unhinted_shadows(b, Seq::empty(), idx.value, idx.value.len() as int);
        lemma_unhinted_shadows(g, b, first, idx.pointer, idx.pointer.len() as int);
        unhinted_shadows(b, first, idx.pointer, idx.pointer.len() as int)
    } else {
        lemma_hinted_shadows(g, b, idx, b.hints.receiver_calls.len() as int);
        hinted_shadows(b, idx, b.hints.receiver_calls.len() as int)
    };
    let s = sorted(pending);
    let all = shadows(b, idx);
    law_deduped_keeps_keys(s, s.len() as int);
    assert forall|k: int| 0 <= k < all.len() implies made(g, b, (#[trigger] all[k]).target) by {
        assert(s.contains(deduped(s, s.len() as int)[k]));
        lemma_sorted_contains(pending, all[k]);
        let m = pending.index_of(all[k]);
        assert(made(g, b, pending[m].target));
    }
}

proof fn lemma_shadow_edges(g: GraphView, b: GraphView, pending: Seq<PendingShadow>, n: int)
    requires
        b.strings.wf(),
        shadow_targets_made(g, b, pending),
        0 <= n <= pending.len(),
    ensures
        steps(g, b, (GraphView { edges: with_shadow_edges(b.edges, pending, n), ..b })),
    decreases n,
{
    if n > 0 {
        lemma_shadow_edges(g, b, pending, n - 1);
        let mid = GraphView { edges: with_shadow_edges(b.edges, pending, n - 1), ..b };
        let p = pending[n - 1];
        assert(made(g, b, p.target));
        lemma_edge_step(g, mid, p.caller, p.target, shadow_kind(p), p.file);
        lemma_steps_on(
            g,
            b,
            mid,
            (GraphView { edges: with_shadow_edges(b.edges, pending, n), ..b }),
        );
    } else {
        lemma_steps_same(g, b);
    }
}

/// A state that the pass, started on `g`, reaches from `judge` on while it holds types
/// against interfaces.
spec fn judging(g: GraphView, judge: GraphView, idx: LocalView, p: PairState) -> bool {
    &&& steps(g, g, judge)
    &&& steps(g, judge, p.st.g)
    &&& all_made(g, judge, idx)
    &&& all_nodes_made(g, p.st.g, p.st.fresh)
    &&& forall|i: int|
        0 <= i < p.st.forms.len() ==> live(p.st.g.nodes, (#[trigger] p.st.forms[i]).node) is Some
    &&& forall|i: int|
        0 <= i < p.pending.len() ==> live(p.st.g.nodes, (#[trigger] p.pending[i]).source) is Some
}

proof fn lemma_form_at(forms: Seq<PointerForm>, c: NodeId, n: int)
    requires
        0 <= n <= forms.len(),
    ensures
        form_at(forms, c, n) matches Some(node) ==> exists|i: int|
            0 <= i < n && (#[trigger] forms[i]).node == node,
    decreases n,
{
    if n > 0 {
        lemma_form_at(forms, c, n - 1);
        assert(forms[n - 1].node == forms[n - 1].node);
    }
}

proof fn lemma_synthetic_type(g: GraphView, nodes: Seq<NodeId>, i: int)
    ensures
        synthetic_type_from(g, nodes, i) matches Some(node) ==> live(g.nodes, node) is Some,
    decreases nodes.len() - i,
{
    if 0 <= i < nodes.len() {
        lemma_synthetic_type(g, nodes, i + 1);
    }
}

/// What was live or made stays so while the state grows.
proof fn lemma_judging_on(
    g: GraphView,
    judge: GraphView,
    idx: LocalView,
    p: PairState,
    c: GraphView,
)
    requires
        judging(g, judge, idx, p),
        steps(g, p.st.g, c),
    ensures
        judging(
            g,
            judge,
            idx,
            (PairState { st: PointerState { g: c, ..p.st }, ..p }),
        ),
{
    lemma_steps_on(g, judge, p.st.g, c);
    lemma_all_made_stays(g, p.st.g, c, idx, p.st.fresh);
    assert forall|i: int| 0 <= i < p.st.forms.len() implies live(
        c.nodes,
        (#[trigger] p.st.forms[i]).node,
    ) is Some by {
        assert(live(p.st.g.nodes, p.st.forms[i].node) is Some);
    }
    assert forall|i: int| 0 <= i < p.pending.len() implies live(
        c.nodes,
        (#[trigger] p.pending[i]).source,
    ) is Some by {
        assert(live(p.st.g.nodes, p.pending[i].source) is Some);
    }
}

proof fn lemma_pointer_form_in(
    g: GraphView,
    judge: GraphView,
    idx: LocalView,
    p: PairState,
    c: NodeId,
    file: FileId,
    package: Seq<char>,
    short: Seq<char>,
)
    requires
        judging(g, judge, idx, p),
        short.len() > 0,
    ensures
        ({
            let f = pointer_form_in(p.st, idx, c, file, package, short);
            &&& judging(g, judge, idx, (PairState { st: f.0, ..p }))
            &&& f.1 matches Some(node) ==> live(f.0.g.nodes, node) is Some
        }),
{
    let b = p.st.g;
    let b1 = GraphView { strings: b.strings.interned(package), ..b };
    let b2 = GraphView { strings: b1.strings.interned(short), ..b };
    let name = pointer_name(package, short);
    let b3 = GraphView { strings: b2.strings.interned(name), ..b };
    lemma_intern_step(g, b, package);
    lemma_intern_step(g, b1, short);
    lemma_intern_step(g, b2, name);
    lemma_steps_on(g, b, b1, b2);
    lemma_steps_on(g, b, b2, b3);
    lemma_judging_on(g, judge, idx, p, b1);
    lemma_judging_on(g, judge, idx, p, b2);
    lemma_judging_on(g, judge, idx, p, b3);
    if b.strings.can_intern(package) && b1.strings.can_intern(short) {
        let package_id = b.strings.intern_id(package);
        let short_id = b1.strings.intern_id(short);
        let n = idx.pointer_type.len() as int;
        lemma_pointer_type_at(idx.pointer_type, package_id, short_id, n);
        match pointer_type_at(idx.pointer_type, package_id, short_id, n) {
            Some(node) => {
                let k = choose|k: int|
                    0 <= k < n && (#[trigger] idx.pointer_type[k]).node == node;
                assert(made(g, judge, idx.pointer_type[k].node));
                assert(live(judge.nodes, node) is Some);
                assert(live(b.nodes, node) is Some);
            },
            None => {
                if b2.strings.can_intern(name) {
                    let qn = b2.strings.intern_id(name);
                    law_interned_reads_back(b2.strings, name);
                    law_given_names_have_pass_shape(package, short, seq!['m']);
                    lemma_pointer_marked(package, short);
                    lemma_synthetic_type(b3, named(b3, qn), 0);
                    lemma_steps_on(g, g, judge, b);
                    lemma_steps_on(g, g, b, b3);
                    lemma_mint_step(g, b3, NodeKind::Type, short, qn, file);
                    let m = minted(b3, NodeKind::Type, short, qn, file);
                    lemma_steps_on(g, b, b3, m.g);
                    lemma_judging_on(g, judge, idx, p, m.g);
                    if let Some(node) = m.id {
                        let r = with_edge(m.g, node, c, EdgeKind::Inherits, file);
                        lemma_edge_step(g, m.g, node, c, EdgeKind::Inherits, file);
                        lemma_steps_on(g, b, m.g, r);
                        lemma_judging_on(g, judge, idx, p, r);
                        lemma_made_stays(g, m.g, r, node);
                    }
                }
            },
        }
    }
}

proof fn lemma_pointer_form(
    g: GraphView,
    judge: GraphView,
    idx: LocalView,
    p: PairState,
    c: NodeId,
    file: FileId,
)
    requires
        judging(g, judge, idx, p),
    ensures
        ({
            let f = with_pointer_form(p.st, idx, c, file);
            &&& judging(g, judge, idx, (PairState { st: f.0, ..p }))
            &&& f.1 matches Some(node) ==> live(f.0.g.nodes, node) is Some
        }),
{
    let n = p.st.forms.len() as int;
    lemma_form_at(p.st.forms, c, n);
    match form_at(p.st.forms, c, n) {
        Some(node) => {
            let k = choose|k: int| 0 <= k < n && (#[trigger] p.st.forms[k]).node == node;
            assert(live(p.st.g.nodes, p.st.forms[k].node) is Some);
        },
        None => {
            if let Some(qn) = p.st.g.qn(c) {
                law_split_joins(qn);
                if let Some(parts) = split_qn(qn) {
                    lemma_pointer_form_in(g, judge, idx, p, c, file, parts.0, parts.1);
                }
            }
        },
    }
}

proof fn lemma_judged_pair(
    g: GraphView,
    judge: GraphView,
    idx: LocalView,
    p: PairState,
    c: NodeId,
    file: FileId,
    sets: SetsView,
    i: InterfaceView,
)
    requires
        judging(g, judge, idx, p),
        live(judge.nodes, c) is Some,
    ensures
        judging(g, judge, idx, with_pair(judge, p, idx, c, file, sets, i)),
{
    lemma_pointer_form(g, judge, idx, p, c, file);
    let f = with_pointer_form(p.st, idx, c, file);
    let mid = PairState { st: f.0, ..p };
    assert(judging(g, judge, idx, mid));
    assert(live(mid.st.g.nodes, c) is Some);
}

proof fn lemma_judged_type(
    g: GraphView,
    judge: GraphView,
    idx: LocalView,
    p: PairState,
    c: NodeId,
    file: FileId,
    sets: SetsView,
    interfaces: Seq<InterfaceView>,
    n: int,
)
    requires
        judging(g, judge, idx, p),
        live(judge.nodes, c) is Some,
        0 <= n <= interfaces.len(),
    ensures
        judging(g, judge, idx, with_type(judge, p, idx, c, file, sets, interfaces, n)),
    decreases n,
{
    if n > 0 {
        lemma_judged_type(g, judge, idx, p, c, file, sets, interfaces, n - 1);
        lemma_judged_pair(
            g,
            judge,
            idx,
            with_type(judge, p, idx, c, file, sets, interfaces, n - 1),
            c,
            file,
            sets,
            interfaces[n - 1],
        );
    }
}

proof fn lemma_judged_types(
    g: GraphView,
    judge: GraphView,
    idx: LocalView,
    p: PairState,
    types: Seq<NodeId>,
    interfaces: Seq<InterfaceView>,
    n: int,
)
    requires
        judging(g, judge, idx, p),
        0 <= n <= types.len(),
    ensures
        judging(g, judge, idx, with_types(judge, p, idx, types, interfaces, n)),
    decreases n,
{
    if n > 0 {
        lemma_judged_types(g, judge, idx, p, types, interfaces, n - 1);
        let before = with_types(judge, p, idx, types, interfaces, n - 1);
        let c = types[n - 1];
        if let Some(sets) = method_sets(judge, idx, c) {
            lemma_judged_type(
                g,
                judge,
                idx,
                before,
                c,
                file_of(before.st.g, c),
                sets,
                interfaces,
                interfaces.len() as int,
            );
        }
    }
}

proof fn lemma_implements_edges(g: GraphView, b: GraphView, pending: Seq<PendingImplements>, n: int)
    requires
        b.strings.wf(),
        0 <= n <= pending.len(),
        forall|i: int|
            0 <= i < pending.len() ==> live(b.nodes, (#[trigger] pending[i]).source) is Some
                && adds_implementation(g, pending[i].source, pending[i].target),
    ensures
        steps(g, b, (GraphView { edges: with_implements(b.edges, pending, n), ..b })),
    decreases n,
{
    if n > 0 {
        lemma_implements_edges(g, b, pending, n - 1);
        let mid = GraphView { edges: with_implements(b.edges, pending, n - 1), ..b };
        let p = pending[n - 1];
        assert(live(b.nodes, p.source) is Some);
        lemma_edge_step(g, mid, p.source, p.target, EdgeKind::Implements, p.file);
        lemma_steps_on(g, b, mid, (GraphView { edges: with_implements(b.edges, pending, n), ..b }));
    } else {
        lemma_steps_same(g, b);
    }
}

/// The ends of every entry fit: a callable implements a named function type.
pub open spec fn entries_fit(b: GraphView, pending: Seq<PendingSignature>) -> bool {
    forall|i: int|
        0 <= i < pending.len() ==> implements_type(
            b,
            (#[trigger] pending[i]).source,
            pending[i].target,
        )
}

proof fn lemma_entry_from(s: Seq<PendingSignature>, source: NodeId, target: NodeId, i: int)
    ensures
        entry_from(s, source, target, i) matches Some(k) ==> 0 <= k < s.len(),
    decreases s.len() - i,
{
    if 0 <= i < s.len() {
        lemma_entry_from(s, source, target, i + 1);
    }
}

proof fn lemma_with_entry(
    b: GraphView,
    pending: Seq<PendingSignature>,
    e: PendingSignature,
    replace: bool,
)
    requires
        entries_fit(b, pending),
        implements_type(b, e.source, e.target),
    ensures
        entries_fit(b, with_entry(pending, e, replace)),
{
    lemma_entry_from(pending, e.source, e.target, 0);
}

proof fn lemma_converted(b: GraphView, n: int)
    ensures
        entries_fit(b, converted(b, n)),
    decreases n,
{
    if n > 0 {
        lemma_converted(b, n - 1);
        let h = b.hints.named_type_conversions[n - 1];
        if let Some(ty) = function_type_from(b, named(b, h.target_type_qualified_name), 0) {
            if implements_type(b, h.argument_node, ty) {
                lemma_with_entry(
                    b,
                    converted(b, n - 1),
                    PendingSignature { source: h.argument_node, target: ty, file: h.file },
                    true,
                );
            }
        }
    }
}

proof fn lemma_with_slot(
    b: GraphView,
    pending: Seq<PendingSignature>,
    edges: Seq<EdgeView>,
    ty: NodeId,
    n: int,
)
    requires
        entries_fit(b, pending),
    ensures
        entries_fit(b, with_slot(b, pending, edges, ty, n)),
    decreases n,
{
    if n > 0 {
        lemma_with_slot(b, pending, edges, ty, n - 1);
        let e = edges[n - 1];
        if e.kind == EdgeKind::References && implements_type(b, e.target, ty) {
            lemma_with_entry(
                b,
                with_slot(b, pending, edges, ty, n - 1),
                PendingSignature { source: e.target, target: ty, file: file_of(b, e.target) },
                false,
            );
        }
    }
}

proof fn lemma_with_slots(
    b: GraphView,
    pending: Seq<PendingSignature>,
    incoming: Seq<EdgeView>,
    ty: NodeId,
    n: int,
)
    requires
        entries_fit(b, pending),
    ensures
        entries_fit(b, with_slots(b, pending, incoming, ty, n)),
    decreases n,
{
    if n > 0 {
        lemma_with_slots(b, pending, incoming, ty, n - 1);
        let out = out_edges(b, incoming[n - 1].source);
        lemma_with_slot(
            b,
            with_slots(b, pending, incoming, ty, n - 1),
            out,
            ty,
            out.len() as int,
        );
    }
}

proof fn lemma_with_slots_of(
    b: GraphView,
    pending: Seq<PendingSignature>,
    types: Seq<NodeId>,
    n: int,
)
    requires
        entries_fit(b, pending),
    ensures
        entries_fit(b, with_slots_of(b, pending, types, n)),
    decreases n,
{
    if n > 0 {
        lemma_with_slots_of(b, pending, types, n - 1);
        let incoming = in_edges(b, types[n - 1]);
        lemma_with_slots(
            b,
            with_slots_of(b, pending, types, n - 1),
            incoming,
            types[n - 1],
            incoming.len() as int,
        );
    }
}

pub(crate) proof fn lemma_signatures_fit(b: GraphView)
    ensures
        entries_fit(b, signature_edges(b)),
{
    let types = function_types(b);
    let first = converted(b, b.hints.named_type_conversions.len() as int);
    lemma_converted(b, b.hints.named_type_conversions.len() as int);
    lemma_with_slots_of(b, first, types, types.len() as int);
    let all = with_slots_of(b, first, types, types.len() as int);
    let s = signature_edges(b);
    assert forall|i: int| 0 <= i < s.len() implies implements_type(
        b,
        (#[trigger] s[i]).source,
        s[i].target,
    ) by {
        lemma_sorted_contains(all, s[i]);
        assert(s.contains(s[i]));
        let k = all.index_of(s[i]);
        assert(implements_type(b, all[k].source, all[k].target));
    }
}

proof fn lemma_signature_edges(g: GraphView, b: GraphView, pending: Seq<PendingSignature>, n: int)
    requires
        b.strings.wf(),
        0 <= n <= pending.len(),
        forall|i: int|
            0 <= i < pending.len() ==> pass_edge(
                g,
                b,
                EdgeKind::Implements,
                (#[trigger] pending[i]).source,
                pending[i].target,
            ),
    ensures
        steps(g, b, (GraphView { edges: with_signature_edges(b.edges, pending, n), ..b })),
    decreases n,
{
    if n > 0 {
        lemma_signature_edges(g, b, pending, n - 1);
        let mid = GraphView { edges: with_signature_edges(b.edges, pending, n - 1), ..b };
        let p = pending[n - 1];
        assert(pass_edge(g, b, EdgeKind::Implements, p.source, p.target));
        lemma_edge_step(g, mid, p.source, p.target, EdgeKind::Implements, p.file);
        lemma_steps_on(
            g,
            b,
            mid,
            (GraphView { edges: with_signature_edges(b.edges, pending, n), ..b }),
        );
    } else {
        lemma_steps_same(g, b);
    }
}

/// Taking back knows every implementation again that a run on `g` adds between nodes that
/// are there: it comes from a Go file, and leads to nothing that stands in for the type of
/// a type assertion.
pub open spec fn adds_knowably(g: GraphView) -> bool {
    forall|source: NodeId, target: NodeId| #[trigger]
        adds_implementation(g, source, target) && live(g.nodes, source) is Some
            ==> g.files.language(live(g.nodes, source)->0.file) == Some(Language::Go)
            && !is_stand_in(g, target)
}

/// Every method that a struct gains in `g` gets a name by which the pass knows it again.
#[verifier::opaque]
pub open spec fn gains_plainly(g: GraphView) -> bool {
    forall|i: int|
        0 <= i < embedding_structs(g).len() ==> plainly_gained(
            g,
            embedding_structs(g)[i],
            #[trigger] gains_of(g, embedding_structs(g))[i],
        )
}

/// A run of the pass on `g` adds nothing but what it knows again: nodes of its own, edges
/// that touch them, and implementations between nodes that were there.
pub(crate) proof fn lemma_pass_steps(g: GraphView)
    requires
        g.strings.wf(),
        named_truly(g),
        gains_plainly(g),
    ensures
        steps(g, g, after_promotion(g)),
        steps(g, g, after_shadows(g)),
        steps(g, g, after_satisfaction(g)),
        steps(g, g, after_pass(g)),
{
    reveal(gains_plainly);
    let outers = embedding_structs(g);
    let gains = gains_of(g, outers);
    let s = surveyed(g, outers, gains, outers.len() as int);
    lemma_survey(g, outers, gains, outers.len() as int);
    let start = MintState { g: s.g, idx: LocalView::none(), fresh: Seq::empty(), promoted: 0 };
    lemma_gains(g, start, s.metas, outers, gains, s.metas.len() as int);
    let a = promoted(g);
    assert(reached(g, a));
    let b = after_promotion(g);
    lemma_index_step(g, a.g, a.fresh);
    lemma_steps_on(g, g, a.g, b);
    lemma_all_made_stays(g, a.g, b, a.idx, a.fresh);
    let c = after_shadows(g);
    let p = shadows(b, a.idx);
    lemma_shadow_targets(g, b, a.idx);
    lemma_shadow_edges(g, b, p, p.len() as int);
    lemma_steps_on(g, g, b, c);
    lemma_all_made_stays(g, b, c, a.idx, a.fresh);
    let types = candidate_types(c);
    let first = PairState {
        st: PointerState { g: c, forms: Seq::empty(), fresh: Seq::empty() },
        pending: Seq::empty(),
    };
    lemma_steps_same(g, c);
    let interfaces = interface_sets(c);
    lemma_judged_types(g, c, a.idx, first, types, interfaces, types.len() as int);
    let j = judged(c, a.idx);
    assert(judging(g, c, a.idx, j));
    let h = j.st.g;
    lemma_steps_on(g, g, c, h);
    let e = implements_edges(c, a.idx);
    let ordered = sorted(j.pending);
    law_deduped_keeps_keys(ordered, ordered.len() as int);
    reveal(adds_implementation);
    assert forall|i: int| 0 <= i < e.len() implies live(h.nodes, (#[trigger] e[i]).source) is Some
        && adds_implementation(g, e[i].source, e[i].target) by {
        assert(ordered.contains(deduped(ordered, ordered.len() as int)[i]));
        lemma_sorted_contains(j.pending, e[i]);
        let m = j.pending.index_of(e[i]);
        assert(live(h.nodes, j.pending[m].source) is Some);
    }
    lemma_implements_edges(g, h, e, e.len() as int);
    let x = satisfied(c, a.idx);
    lemma_steps_on(g, g, h, x);
    lemma_all_made_stays(g, h, x, a.idx, j.st.fresh);
    let d = after_satisfaction(g);
    lemma_index_step(g, x, j.st.fresh);
    lemma_steps_on(g, g, x, d);
    let q = signature_edges(d);
    lemma_signatures_fit(d);
    assert forall|i: int| 0 <= i < q.len() implies pass_edge(
        g,
        d,
        EdgeKind::Implements,
        (#[trigger] q[i]).source,
        q[i].target,
    ) by {
        assert(implements_type(d, q[i].source, q[i].target));
        assert(live(d.nodes, q[i].source) is Some);
        assert(live_kind(d.nodes, q[i].target) == Some(NodeKind::Type));
        if live(g.nodes, q[i].target) is Some {
            assert(live(d.nodes, q[i].target) == live(g.nodes, q[i].target));
        }
    }
    lemma_signature_edges(g, d, q, q.len() as int);
    lemma_steps_on(g, g, d, after_pass(g));
}

/// The qualified names of the nodes of `b` have their places in the table.
pub open spec fn named_truly(b: GraphView) -> bool {
    forall|id: NodeId|
        (#[trigger] live(b.nodes, id)) is Some ==> {
            live(b.nodes, id)->0.qualified_name matches Some(q) ==> q.0 < b.strings.text.len()
        }
}

/// The graph holds together: the qualified names of its nodes have their places in the
/// table, and its edges and buckets speak of nodes that are there or are gone for good.
pub open spec fn sound(g: GraphView) -> bool {
    &&& g.strings.wf()
    &&& named_truly(g)
    &&& forall|i: int|
        0 <= i < g.edges.edges.len() ==> known(g, g, (#[trigger] g.edges.edges[i]).source) && known(
            g,
            g,
            g.edges.edges[i].target,
        )
    &&& forall|i: int|
        0 <= i < g.files.buckets.len() ==> known(g, g, (#[trigger] g.files.buckets[i]).node)
}

/// What the nodes of `g` are called and whether the pass has made them is the same in `a`.
pub(crate) proof fn lemma_known_nodes(g: GraphView, a: GraphView, id: NodeId)
    requires
        sound(g),
        untouched(g),
        steps(g, g, a),
        known(g, g, id),
    ensures
        live(a.nodes, id) == live(g.nodes, id),
        a.qn(id) == g.qn(id),
        !owned(a, id),
{
    if passed(g, id) {
        assert(a.nodes[id.index as int].generation == g.nodes[id.index as int].generation);
    }
    assert(live(a.nodes, id) == live(g.nodes, id));
    if let Some(e) = live(g.nodes, id) {
        if let Some(q) = e.qualified_name {
            assert(g.strings.text[q.0 as int] == a.strings.text[q.0 as int]);
        }
        assert(a.metadata.is_synthetic(id) == g.metadata.is_synthetic(id));
    }
    assert(!owned(g, id));
}

proof fn lemma_dead_are_made(g: GraphView, a: GraphView, id: NodeId)
    requires
        sound(g),
        untouched(g),
        steps(g, g, a),
    ensures
        owned_nodes(a, a.nodes.len() as int).contains(id) <==> made(g, a, id),
{
    let n = a.nodes.len() as int;
    if owned_nodes(a, n).contains(id) {
        lemma_owned_only(a, n, id);
        if live(g.nodes, id) is Some {
            lemma_known_nodes(g, a, id);
        }
    }
    if made(g, a, id) {
        assert(owned(a, id));
        lemma_owned_listed(a, n, id);
    }
}

proof fn lemma_edges_taken_back(g: GraphView, a: GraphView, n: int)
    requires
        sound(g),
        adds_knowably(g),
        untouched(g),
        steps(g, g, a),
        0 <= n <= a.edges.edges.len(),
    ensures
        ({
            let dead = owned_nodes(a, a.nodes.len() as int);
            let kept = edges_not_emitted(a, n);
            edges_without_nodes(kept, dead, kept.len() as int) == (if n
                <= g.edges.edges.len() {
                g.edges.edges.take(n)
            } else {
                g.edges.edges
            })
        }),
    decreases n,
{
    let dead = owned_nodes(a, a.nodes.len() as int);
    let m = g.edges.edges.len() as int;
    if n > 0 {
        lemma_edges_taken_back(g, a, n - 1);
        let e = a.edges.edges[n - 1];
        let before = edges_not_emitted(a, n - 1);
        lemma_dead_are_made(g, a, e.source);
        lemma_dead_are_made(g, a, e.target);
        if n <= m {
            assert(g.edges.edges[n - 1] == e);
            lemma_known_nodes(g, a, e.source);
            lemma_known_nodes(g, a, e.target);
            assert(!emitted_implements(g, g.edges.edges[n - 1]));
            assert(!emitted_implements(a, e));
            assert(edges_not_emitted(a, n) == before.push(e));
            lemma_without_push(before, e, dead, before.len() as int);
            assert(g.edges.edges.take(n) =~= g.edges.edges.take(n - 1).push(e));
        } else {
            assert(pass_edge(g, a, a.edges.edges[n - 1].kind, e.source, e.target));
            if !made(g, a, e.source) && !made(g, a, e.target) {
                lemma_known_nodes(g, a, e.source);
                if live(g.nodes, e.target) is Some {
                    lemma_known_nodes(g, a, e.target);
                }
                assert(emitted_implements(a, e));
            }
            lemma_without_push(before, e, dead, before.len() as int);
            if n - 1 == m {
                assert(g.edges.edges.take(m) =~= g.edges.edges);
            }
        }
    } else {
        assert(g.edges.edges.take(0) =~= Seq::empty());
    }
}

proof fn lemma_buckets_taken_back(g: GraphView, a: GraphView, n: int)
    requires
        sound(g),
        untouched(g),
        steps(g, g, a),
        0 <= n <= a.files.buckets.len(),
    ensures
        buckets_without(a.files.buckets, owned_nodes(a, a.nodes.len() as int), n) == (if n
            <= g.files.buckets.len() {
            g.files.buckets.take(n)
        } else {
            g.files.buckets
        }),
    decreases n,
{
    let m = g.files.buckets.len() as int;
    if n > 0 {
        lemma_buckets_taken_back(g, a, n - 1);
        let x = a.files.buckets[n - 1];
        lemma_dead_are_made(g, a, x.node);
        if n <= m {
            assert(g.files.buckets[n - 1] == x);
            assert(known(g, g, g.files.buckets[n - 1].node));
            lemma_known_nodes(g, a, x.node);
            assert(g.files.buckets.take(n) =~= g.files.buckets.take(n - 1).push(x));
        } else {
            assert(made(g, a, a.files.buckets[n - 1].node));
            if n - 1 == m {
                assert(g.files.buckets.take(m) =~= g.files.buckets);
            }
        }
    } else {
        assert(g.files.buckets.take(0) =~= Seq::empty());
    }
}

/// Taking back what a run of the pass has made gives back the graph on which it started:
/// its nodes, its edges in their order, and the nodes recorded for its files.
pub proof fn law_taking_back_undoes_the_pass(g: GraphView)
    requires
        sound(g),
        untouched(g),
        gains_plainly(g),
        adds_knowably(g),
    ensures
        tombstoned(after_pass(g)).edges.edges == g.edges.edges,
        forall|id: NodeId|
            #[trigger] live(tombstoned(after_pass(g)).nodes, id) == live(g.nodes, id),
        tombstoned(after_pass(g)).files == g.files,
        tombstoned(after_pass(g)).hints == g.hints,
{
    let a = after_pass(g);
    let t = tombstoned(a);
    lemma_pass_steps(g);
    lemma_edges_taken_back(g, a, a.edges.edges.len() as int);
    assert(g.edges.edges.take(g.edges.edges.len() as int) =~= g.edges.edges);
    assert forall|id: NodeId| #[trigger] live(t.nodes, id) == live(g.nodes, id) by {
        law_tombstone_leaves_no_owned_node(a, id);
        if live(g.nodes, id) is Some {
            lemma_known_nodes(g, a, id);
        } else if live(a.nodes, id) is Some {
            assert(made(g, a, id));
        }
    }
    lemma_buckets_taken_back(g, a, a.files.buckets.len() as int);
    assert(g.files.buckets.take(g.files.buckets.len() as int) =~= g.files.buckets);
}

} // verus!
