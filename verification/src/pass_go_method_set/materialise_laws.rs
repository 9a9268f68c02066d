//! What is made of the methods that structs gain.

use vstd::prelude::*;

use crate::arena::{
    allocated, can_allocate, free_from, law_allocation_is_fresh, law_allocation_keeps_nodes,
    lemma_free_from, live, next_id, reusable, NodeEntry, Slot,
};
use crate::edges::EdgeView;
use crate::graph::GraphView;
use crate::ids::{FileId, NodeId, StringId};
use crate::kinds::{EdgeKind, NodeKind};
use crate::pass_go_method_set::materialise::{
    law_split_joins, materialised, minted, pointer_type_at, promoted_at, split_qn, surveyed,
    surveyed_one, with_anchor, with_edge, with_gain, with_gains, with_member, with_members,
    GainView, LocalView, MetaView, MintState, PointerTypeKey, PromotedKey,
};
use crate::pass_go_method_set::promotion::PromotedMethod;
use crate::strings::{law_interned_reads_back, lemma_slot_from};
use crate::text::{occurs_at, rfind_from};

verus! {

proof fn lemma_rfind_last(s: Seq<char>, pat: Seq<char>, i: int)
    ensures
        match rfind_from(s, pat, i) {
            Some(k) => k <= i && occurs_at(s, pat, k) && forall|j: int|
                k < j <= i ==> !#[trigger] occurs_at(s, pat, j),
            None => forall|j: int| 0 <= j <= i ==> !#[trigger] occurs_at(s, pat, j),
        },
    decreases i + 1,
{
    if i >= 0 && !occurs_at(s, pat, i) {
        lemma_rfind_last(s, pat, i - 1);
    }
}

/// A qualified name parts at its last separator, and only where something stands on either
/// side of it.
pub proof fn law_qualified_name_parts_at_the_last_separator(
    qn: Seq<char>,
    package: Seq<char>,
    short: Seq<char>,
)
    ensures
        split_qn(qn) == Some((package, short)) <==> {
            &&& qn == package + "::"@ + short
            &&& package.len() > 0
            &&& short.len() > 0
            &&& forall|k: int| k > package.len() ==> !#[trigger] occurs_at(qn, "::"@, k)
        },
{
    reveal_strlit("::");
    law_split_joins(qn);
    lemma_rfind_last(qn, "::"@, qn.len() as int);
    if qn == package + "::"@ + short && package.len() > 0 && short.len() > 0 && (forall|k: int|
        k > package.len() ==> !#[trigger] occurs_at(qn, "::"@, k)) {
        let n = package.len() as int;
        assert(qn.subrange(n, n + 2) =~= "::"@);
        assert(occurs_at(qn, "::"@, n));
        assert(qn.subrange(0, n) =~= package);
        assert(qn.subrange(n + 2, qn.len() as int) =~= short);
    }
}

/// `b` has the edges, nodes, strings and marks of `a`, and no more room than it.
pub open spec fn keeps(a: GraphView, b: GraphView) -> bool {
    &&& a.edges.edges.is_prefix_of(b.edges.edges)
    &&& forall|id: NodeId|
        (#[trigger] live(a.nodes, id)) is Some ==> live(b.nodes, id) == live(a.nodes, id)
    &&& a.strings.text.is_prefix_of(b.strings.text)
    &&& a.strings.wf() ==> b.strings.wf()
    &&& forall|id: NodeId|
        (#[trigger] a.metadata.of(id)).synthetic ==> b.metadata.of(id).synthetic
    &&& can_allocate(b.nodes) ==> can_allocate(a.nodes)
}

/// More nodes and strings can still be made.
pub open spec fn has_space(g: GraphView) -> bool {
    can_allocate(g.nodes) && g.strings.text.len() < 0x8000_0000
}

/// `node` is live and synthetic, and has this kind, qualified name and name.
pub open spec fn is_made(
    g: GraphView,
    node: NodeId,
    kind: NodeKind,
    qn: Seq<char>,
    name: Seq<char>,
) -> bool {
    &&& live(g.nodes, node) is Some
    &&& live(g.nodes, node)->0.kind == kind
    &&& g.qn(node) == Some(qn)
    &&& g.strings.resolve(live(g.nodes, node)->0.name) == Some(name)
    &&& g.metadata.of(node).synthetic
}

/// An edge of this kind leads from `source` to `target`.
pub open spec fn is_joined(g: GraphView, source: NodeId, target: NodeId, kind: EdgeKind) -> bool {
    exists|k: int|
        0 <= k < g.edges.edges.len() && (#[trigger] g.edges.edges[k]).source == source
            && g.edges.edges[k].target == target && g.edges.edges[k].kind == kind
}

/// `node` stands for method `pm` on `outer`, or on the pointer to it.
pub open spec fn stands_for(
    g: GraphView,
    outer: NodeId,
    pm: PromotedMethod,
    pointer: bool,
    node: NodeId,
) -> bool {
    &&& g.qn(outer) is Some
    &&& split_qn(g.qn(outer)->0) is Some
    &&& g.strings.resolve(pm.name) is Some
    &&& {
        let qn = g.qn(outer)->0;
        let p = split_qn(qn)->0;
        let name = g.strings.resolve(pm.name)->0;
        let owner = if pointer {
            p.0 + "::*"@ + p.1
        } else {
            qn
        };
        is_made(g, node, NodeKind::Method, owner + "::"@ + name, name)
    }
}

/// `node` stands for the pointer to `outer`.
pub open spec fn stands_for_pointer(g: GraphView, outer: NodeId, node: NodeId) -> bool {
    &&& g.qn(outer) is Some
    &&& split_qn(g.qn(outer)->0) is Some
    &&& {
        let p = split_qn(g.qn(outer)->0)->0;
        is_made(g, node, NodeKind::Type, p.0 + "::*"@ + p.1, p.1)
    }
}

/// `e` lies in the file of `outer`, and either puts what stands for `pm` under `outer`, or
/// under the pointer to it, or leads from there to the method itself.
pub open spec fn goes_with_method(
    g: GraphView,
    outer: NodeId,
    pm: PromotedMethod,
    pointer: bool,
    e: EdgeView,
) -> bool {
    &&& live(g.nodes, outer) is Some
    &&& e.file == live(g.nodes, outer)->0.file
    &&& {
        ||| {
            &&& e.kind == EdgeKind::Contains
            &&& if pointer {
                stands_for_pointer(g, outer, e.source)
            } else {
                e.source == outer
            }
            &&& stands_for(g, outer, pm, pointer, e.target)
        }
        ||| {
            &&& e.kind == EdgeKind::Inherits
            &&& e.target == pm.method
            &&& stands_for(g, outer, pm, pointer, e.source)
        }
    }
}

/// `e` leads from what stands for the pointer to `outer` to `outer`, in the file of it.
pub open spec fn goes_with_pointer(g: GraphView, outer: NodeId, e: EdgeView) -> bool {
    &&& live(g.nodes, outer) is Some
    &&& e.file == live(g.nodes, outer)->0.file
    &&& e.kind == EdgeKind::Inherits
    &&& e.target == outer
    &&& stands_for_pointer(g, outer, e.source)
}

/// `e` goes with something that `outer` gains.
pub open spec fn goes_with_gain(g: GraphView, outer: NodeId, gain: GainView, e: EdgeView) -> bool {
    ||| exists|j: int|
        0 <= j < gain.value.len() && goes_with_method(
            g,
            outer,
            #[trigger] gain.value[j],
            false,
            e,
        )
    ||| exists|j: int|
        0 <= j < gain.pointer_only.len() && goes_with_method(
            g,
            outer,
            #[trigger] gain.pointer_only[j],
            true,
            e,
        )
    ||| gain.pointer_only.len() > 0 && goes_with_pointer(g, outer, e)
}

/// Something stands for method `pm` under `outer` and leads to the method.
pub open spec fn has_method(g: GraphView, outer: NodeId, pm: PromotedMethod) -> bool {
    exists|node: NodeId| #[trigger]
        stands_for(g, outer, pm, false, node) && is_joined(g, outer, node, EdgeKind::Contains)
            && is_joined(g, node, pm.method, EdgeKind::Inherits)
}

/// `anchor` stands for the pointer to `outer` and leads to it, or to its namesake.
pub open spec fn is_anchor(g: GraphView, outer: NodeId, anchor: NodeId) -> bool {
    &&& stands_for_pointer(g, outer, anchor)
    &&& exists|o: NodeId| #[trigger]
        g.qn(o) == g.qn(outer) && is_joined(g, anchor, o, EdgeKind::Inherits)
}

/// Something stands for method `pm` under what stands for the pointer to `outer`, and leads
/// to the method.
pub open spec fn pointer_has_method(g: GraphView, outer: NodeId, pm: PromotedMethod) -> bool {
    exists|anchor: NodeId, node: NodeId| #[trigger]
        is_anchor(g, outer, anchor) && #[trigger] stands_for(g, outer, pm, true, node)
            && is_joined(g, anchor, node, EdgeKind::Contains) && is_joined(
            g,
            node,
            pm.method,
            EdgeKind::Inherits,
        )
}

proof fn lemma_keeps_on(a: GraphView, b: GraphView, c: GraphView)
    requires
        keeps(a, b),
        keeps(b, c),
    ensures
        keeps(a, c),
{
    assert(a.edges.edges =~= c.edges.edges.take(a.edges.edges.len() as int));
    assert(a.strings.text =~= c.strings.text.take(a.strings.text.len() as int));
    assert forall|id: NodeId| (#[trigger] live(a.nodes, id)) is Some implies live(c.nodes, id)
        == live(a.nodes, id) by {
        assert(live(b.nodes, id) == live(a.nodes, id));
    }
    assert forall|id: NodeId| (#[trigger] a.metadata.of(id)).synthetic implies c.metadata.of(
        id,
    ).synthetic by {
        assert(b.metadata.of(id).synthetic);
    }
}

proof fn lemma_resolve_kept(a: GraphView, b: GraphView, id: StringId)
    requires
        keeps(a, b),
        a.strings.resolve(id) is Some,
    ensures
        b.strings.resolve(id) == a.strings.resolve(id),
{
    assert(a.strings.text[id.0 as int] == b.strings.text[id.0 as int]);
}

proof fn lemma_qn_kept(a: GraphView, b: GraphView, id: NodeId)
    requires
        keeps(a, b),
        a.qn(id) is Some,
    ensures
        b.qn(id) == a.qn(id),
        live(b.nodes, id) == live(a.nodes, id),
{
    assert(live(a.nodes, id) is Some);
    lemma_resolve_kept(a, b, live(a.nodes, id)->0.qualified_name->0);
}

proof fn lemma_made_kept(
    a: GraphView,
    b: GraphView,
    node: NodeId,
    kind: NodeKind,
    qn: Seq<char>,
    name: Seq<char>,
)
    requires
        keeps(a, b),
        is_made(a, node, kind, qn, name),
    ensures
        is_made(b, node, kind, qn, name),
{
    lemma_qn_kept(a, b, node);
    lemma_resolve_kept(a, b, live(a.nodes, node)->0.name);
    assert(a.metadata.of(node).synthetic);
}

proof fn lemma_joined_kept(
    a: GraphView,
    b: GraphView,
    source: NodeId,
    target: NodeId,
    kind: EdgeKind,
)
    requires
        keeps(a, b),
        is_joined(a, source, target, kind),
    ensures
        is_joined(b, source, target, kind),
{
    let k = choose|k: int|
        0 <= k < a.edges.edges.len() && (#[trigger] a.edges.edges[k]).source == source
            && a.edges.edges[k].target == target && a.edges.edges[k].kind == kind;
    assert(b.edges.edges[k] == a.edges.edges[k]);
}

proof fn lemma_stands_kept(
    a: GraphView,
    b: GraphView,
    outer: NodeId,
    pm: PromotedMethod,
    pointer: bool,
    node: NodeId,
)
    requires
        keeps(a, b),
        stands_for(a, outer, pm, pointer, node),
    ensures
        stands_for(b, outer, pm, pointer, node),
{
    lemma_qn_kept(a, b, outer);
    lemma_resolve_kept(a, b, pm.name);
    let qn = a.qn(outer)->0;
    let p = split_qn(qn)->0;
    let name = a.strings.resolve(pm.name)->0;
    let owner = if pointer {
        p.0 + "::*"@ + p.1
    } else {
        qn
    };
    lemma_made_kept(a, b, node, NodeKind::Method, owner + "::"@ + name, name);
}

proof fn lemma_pointer_kept(a: GraphView, b: GraphView, outer: NodeId, node: NodeId)
    requires
        keeps(a, b),
        stands_for_pointer(a, outer, node),
    ensures
        stands_for_pointer(b, outer, node),
{
    lemma_qn_kept(a, b, outer);
    let p = split_qn(a.qn(outer)->0)->0;
    lemma_made_kept(a, b, node, NodeKind::Type, p.0 + "::*"@ + p.1, p.1);
}

proof fn lemma_method_edge_kept(
    a: GraphView,
    b: GraphView,
    outer: NodeId,
    pm: PromotedMethod,
    pointer: bool,
    e: EdgeView,
)
    requires
        keeps(a, b),
        goes_with_method(a, outer, pm, pointer, e),
    ensures
        goes_with_method(b, outer, pm, pointer, e),
{
    assert(live(b.nodes, outer) == live(a.nodes, outer));
    if e.kind == EdgeKind::Contains {
        lemma_stands_kept(a, b, outer, pm, pointer, e.target);
        if pointer {
            lemma_pointer_kept(a, b, outer, e.source);
        }
    } else {
        lemma_stands_kept(a, b, outer, pm, pointer, e.source);
    }
}

proof fn lemma_gain_edge_kept(
    a: GraphView,
    b: GraphView,
    outer: NodeId,
    gain: GainView,
    e: EdgeView,
)
    requires
        keeps(a, b),
        goes_with_gain(a, outer, gain, e),
    ensures
        goes_with_gain(b, outer, gain, e),
{
    if exists|j: int|
        0 <= j < gain.value.len() && goes_with_method(
            a,
            outer,
            #[trigger] gain.value[j],
            false,
            e,
        ) {
        let j = choose|j: int|
            0 <= j < gain.value.len() && goes_with_method(
                a,
                outer,
                #[trigger] gain.value[j],
                false,
                e,
            );
        lemma_method_edge_kept(a, b, outer, gain.value[j], false, e);
    } else if exists|j: int|
        0 <= j < gain.pointer_only.len() && goes_with_method(
            a,
            outer,
            #[trigger] gain.pointer_only[j],
            true,
            e,
        ) {
        let j = choose|j: int|
            0 <= j < gain.pointer_only.len() && goes_with_method(
                a,
                outer,
                #[trigger] gain.pointer_only[j],
                true,
                e,
            );
        lemma_method_edge_kept(a, b, outer, gain.pointer_only[j], true, e);
    } else {
        assert(live(b.nodes, outer) == live(a.nodes, outer));
        lemma_pointer_kept(a, b, outer, e.source);
    }
}

proof fn lemma_has_method_kept(a: GraphView, b: GraphView, outer: NodeId, pm: PromotedMethod)
    requires
        keeps(a, b),
    ensures
        has_method(a, outer, pm) ==> has_method(b, outer, pm),
        pointer_has_method(a, outer, pm) ==> pointer_has_method(b, outer, pm),
{
    if has_method(a, outer, pm) {
        let node = choose|node: NodeId| #[trigger]
            stands_for(a, outer, pm, false, node) && is_joined(a, outer, node, EdgeKind::Contains)
                && is_joined(a, node, pm.method, EdgeKind::Inherits);
        lemma_stands_kept(a, b, outer, pm, false, node);
        lemma_joined_kept(a, b, outer, node, EdgeKind::Contains);
        lemma_joined_kept(a, b, node, pm.method, EdgeKind::Inherits);
    }
    if pointer_has_method(a, outer, pm) {
        let (anchor, node) = choose|anchor: NodeId, node: NodeId| #[trigger]
            is_anchor(a, outer, anchor) && #[trigger] stands_for(a, outer, pm, true, node)
                && is_joined(a, anchor, node, EdgeKind::Contains) && is_joined(
                a,
                node,
                pm.method,
                EdgeKind::Inherits,
            );
        lemma_stands_kept(a, b, outer, pm, true, node);
        lemma_anchor_kept(a, b, outer, anchor);
        lemma_joined_kept(a, b, anchor, node, EdgeKind::Contains);
        lemma_joined_kept(a, b, node, pm.method, EdgeKind::Inherits);
    }
}

proof fn lemma_anchor_kept(a: GraphView, b: GraphView, outer: NodeId, anchor: NodeId)
    requires
        keeps(a, b),
        is_anchor(a, outer, anchor),
    ensures
        is_anchor(b, outer, anchor),
{
    lemma_pointer_kept(a, b, outer, anchor);
    let o = choose|o: NodeId| #[trigger]
        a.qn(o) == a.qn(outer) && is_joined(a, anchor, o, EdgeKind::Inherits);
    lemma_qn_kept(a, b, o);
    lemma_qn_kept(a, b, outer);
    lemma_joined_kept(a, b, anchor, o, EdgeKind::Inherits);
    assert(b.qn(o) == b.qn(outer));
}

proof fn lemma_free_passes(slots: Seq<Slot>, entry: NodeEntry, i: int)
    requires
        0 <= i <= free_from(slots, 0),
        free_from(slots, i) == free_from(slots, 0),
        free_from(slots, 0) <= slots.len(),
    ensures
        free_from(allocated(slots, entry), i) >= free_from(slots, 0),
    decreases free_from(slots, 0) - i,
{
    let after = allocated(slots, entry);
    lemma_free_from(after, i);
    if i < free_from(slots, 0) {
        assert(!reusable(slots[i]));
        assert(after[i] == slots[i]);
        lemma_free_passes(slots, entry, i + 1);
    }
}

proof fn lemma_interned_kept(g: GraphView, s: Seq<char>)
    ensures
        keeps(g, GraphView { strings: g.strings.interned(s), ..g }),
        g.strings.wf() && g.strings.can_intern(s) ==> g.strings.interned(s).resolve(
            g.strings.intern_id(s),
        ) == Some(s),
        !g.strings.can_intern(s) ==> g.strings.text.len() >= 0x8000_0000,
{
    lemma_slot_from(g.strings.text, s, 0);
    assert(g.strings.text =~= g.strings.interned(s).text.take(g.strings.text.len() as int));
    if g.strings.wf() && g.strings.can_intern(s) {
        law_interned_reads_back(g.strings, s);
    }
}

proof fn lemma_minted(
    g: GraphView,
    kind: NodeKind,
    short: Seq<char>,
    qn: StringId,
    file: FileId,
    text: Seq<char>,
)
    requires
        g.strings.wf(),
        g.strings.resolve(qn) == Some(text),
    ensures
        ({
            let m = minted(g, kind, short, qn, file);
            &&& keeps(g, m.g)
            &&& m.g.edges == g.edges
            &&& m.id matches Some(id) ==> is_made(m.g, id, kind, text, short)
            &&& m.id is None ==> !has_space(g)
        }),
{
    let m = minted(g, kind, short, qn, file);
    let named = GraphView { strings: g.strings.interned(short), ..g };
    lemma_interned_kept(g, short);
    if m.id is Some {
        let id = next_id(g.nodes);
        let entry = NodeEntry {
            qualified_name: Some(qn),
            ..NodeEntry::bare(kind, g.strings.intern_id(short), file)
        };
        law_allocation_is_fresh(g.nodes, entry);
        lemma_free_from(g.nodes, 0);
        lemma_free_passes(g.nodes, entry, 0);
        assert(m.g.nodes == allocated(g.nodes, entry));
        assert forall|o: NodeId| (#[trigger] live(g.nodes, o)) is Some implies live(m.g.nodes, o)
            == live(g.nodes, o) by {
            law_allocation_keeps_nodes(g.nodes, entry, o);
        }
        assert(keeps(g, m.g));
        lemma_resolve_kept(g, m.g, qn);
    }
}

/// What is noted of a promoted method is right.
spec fn method_noted(g: GraphView, k: PromotedKey, sep: Seq<char>) -> bool {
    &&& g.strings.resolve(k.package) is Some
    &&& g.strings.resolve(k.owner) is Some
    &&& g.strings.resolve(k.method) is Some
    &&& is_made(
        g,
        k.node,
        NodeKind::Method,
        g.strings.resolve(k.package)->0 + sep + g.strings.resolve(k.owner)->0 + "::"@
            + g.strings.resolve(k.method)->0,
        g.strings.resolve(k.method)->0,
    )
}

/// What is noted of the type of a pointer is right.
spec fn pointer_noted(g: GraphView, k: PointerTypeKey) -> bool {
    &&& g.strings.resolve(k.package) is Some
    &&& g.strings.resolve(k.owner) is Some
    &&& is_made(
        g,
        k.node,
        NodeKind::Type,
        g.strings.resolve(k.package)->0 + "::*"@ + g.strings.resolve(k.owner)->0,
        g.strings.resolve(k.owner)->0,
    )
    &&& exists|o: NodeId| #[trigger]
        g.qn(o) == Some(g.strings.resolve(k.package)->0 + "::"@ + g.strings.resolve(k.owner)->0)
            && is_joined(g, k.node, o, EdgeKind::Inherits)
}

/// What is noted is right.
spec fn noted(g: GraphView, idx: LocalView) -> bool {
    &&& g.strings.wf()
    &&& forall|i: int| 0 <= i < idx.value.len() ==> method_noted(g, #[trigger] idx.value[i], "::"@)
    &&& forall|i: int|
        0 <= i < idx.pointer.len() ==> method_noted(g, #[trigger] idx.pointer[i], "::*"@)
    &&& forall|i: int|
        0 <= i < idx.pointer_type.len() ==> pointer_noted(g, #[trigger] idx.pointer_type[i])
}

proof fn lemma_method_noted_kept(a: GraphView, b: GraphView, k: PromotedKey, sep: Seq<char>)
    requires
        keeps(a, b),
        method_noted(a, k, sep),
    ensures
        method_noted(b, k, sep),
{
    lemma_resolve_kept(a, b, k.package);
    lemma_resolve_kept(a, b, k.owner);
    lemma_resolve_kept(a, b, k.method);
    lemma_made_kept(
        a,
        b,
        k.node,
        NodeKind::Method,
        a.strings.resolve(k.package)->0 + sep + a.strings.resolve(k.owner)->0 + "::"@
            + a.strings.resolve(k.method)->0,
        a.strings.resolve(k.method)->0,
    );
}

proof fn lemma_noted_kept(a: GraphView, b: GraphView, idx: LocalView)
    requires
        keeps(a, b),
        noted(a, idx),
    ensures
        noted(b, idx),
{
    assert forall|i: int| 0 <= i < idx.value.len() implies method_noted(
        b,
        #[trigger] idx.value[i],
        "::"@,
    ) by {
        lemma_method_noted_kept(a, b, idx.value[i], "::"@);
    }
    assert forall|i: int| 0 <= i < idx.pointer.len() implies method_noted(
        b,
        #[trigger] idx.pointer[i],
        "::*"@,
    ) by {
        lemma_method_noted_kept(a, b, idx.pointer[i], "::*"@);
    }
    assert forall|i: int| 0 <= i < idx.pointer_type.len() implies pointer_noted(
        b,
        #[trigger] idx.pointer_type[i],
    ) by {
        let k = idx.pointer_type[i];
        assert(pointer_noted(a, k));
        lemma_resolve_kept(a, b, k.package);
        lemma_resolve_kept(a, b, k.owner);
        let p = a.strings.resolve(k.package)->0;
        let s = a.strings.resolve(k.owner)->0;
        lemma_made_kept(a, b, k.node, NodeKind::Type, p + "::*"@ + s, s);
        let o = choose|o: NodeId| #[trigger]
            a.qn(o) == Some(p + "::"@ + s) && is_joined(a, k.node, o, EdgeKind::Inherits);
        lemma_qn_kept(a, b, o);
        lemma_joined_kept(a, b, k.node, o, EdgeKind::Inherits);
        assert(b.qn(o) == Some(p + "::"@ + s));
    }
}

/// What is held of a struct that gains something is right.
spec fn meta_right(g: GraphView, m: MetaView) -> bool {
    &&& g.qn(m.outer) == Some(m.qn)
    &&& split_qn(m.qn) is Some
    &&& g.strings.resolve(m.package_id) == Some((split_qn(m.qn)->0).0)
    &&& g.strings.resolve(m.short_id) == Some((split_qn(m.qn)->0).1)
    &&& m.short == (split_qn(m.qn)->0).1
    &&& m.pointer_qn == (split_qn(m.qn)->0).0 + "::*"@ + (split_qn(m.qn)->0).1
    &&& m.file == live(g.nodes, m.outer)->0.file
}

proof fn lemma_meta_kept(a: GraphView, b: GraphView, m: MetaView)
    requires
        keeps(a, b),
        meta_right(a, m),
    ensures
        meta_right(b, m),
{
    lemma_qn_kept(a, b, m.outer);
    lemma_resolve_kept(a, b, m.package_id);
    lemma_resolve_kept(a, b, m.short_id);
}

proof fn lemma_promoted_at(
    s: Seq<PromotedKey>,
    package: StringId,
    owner: StringId,
    method: StringId,
    n: int,
) -> (i: int)
    requires
        0 <= n <= s.len(),
    ensures
        promoted_at(s, package, owner, method, n) matches Some(node) ==> 0 <= i < n && s[i].package
            == package && s[i].owner == owner && s[i].method == method && s[i].node == node,
    decreases n,
{
    if n > 0 {
        let k = s[n - 1];
        if k.package == package && k.owner == owner && k.method == method {
            n - 1
        } else {
            lemma_promoted_at(s, package, owner, method, n - 1)
        }
    } else {
        0
    }
}

proof fn lemma_pointer_type_at(
    s: Seq<PointerTypeKey>,
    package: StringId,
    owner: StringId,
    n: int,
) -> (i: int)
    requires
        0 <= n <= s.len(),
    ensures
        pointer_type_at(s, package, owner, n) matches Some(node) ==> 0 <= i < n && s[i].package
            == package && s[i].owner == owner && s[i].node == node,
    decreases n,
{
    if n > 0 {
        let k = s[n - 1];
        if k.package == package && k.owner == owner {
            n - 1
        } else {
            lemma_pointer_type_at(s, package, owner, n - 1)
        }
    } else {
        0
    }
}

proof fn lemma_member(
    st: MintState,
    meta: MetaView,
    parent: NodeId,
    base: Seq<char>,
    pointer: bool,
    pm: PromotedMethod,
) -> (node: NodeId)
    requires
        noted(st.g, st.idx),
        meta_right(st.g, meta),
        if pointer {
            stands_for_pointer(st.g, meta.outer, parent) && base == meta.pointer_qn
        } else {
            parent == meta.outer && base == meta.qn
        },
    ensures
        ({
            let r = with_member(st, meta, parent, base, pointer, pm);
            &&& keeps(st.g, r.g)
            &&& noted(r.g, r.idx)
            &&& forall|k: int|
                st.g.edges.edges.len() <= k < r.g.edges.edges.len() ==> goes_with_method(
                    r.g,
                    meta.outer,
                    pm,
                    pointer,
                    #[trigger] r.g.edges.edges[k],
                )
            &&& st.g.strings.resolve(pm.name) is Some && has_space(r.g) ==> stands_for(
                r.g,
                meta.outer,
                pm,
                pointer,
                node,
            ) && is_joined(r.g, parent, node, EdgeKind::Contains) && is_joined(
                r.g,
                node,
                pm.method,
                EdgeKind::Inherits,
            )
        }),
{
    let r = with_member(st, meta, parent, base, pointer, pm);
    law_split_joins(meta.qn);
    match st.g.strings.resolve(pm.name) {
        None => parent,
        Some(short) => {
            let list = if pointer {
                st.idx.pointer
            } else {
                st.idx.value
            };
            let at = promoted_at(
                list,
                meta.package_id,
                meta.short_id,
                pm.name,
                list.len() as int,
            );
            let i = lemma_promoted_at(
                list,
                meta.package_id,
                meta.short_id,
                pm.name,
                list.len() as int,
            );
            let qn = base + "::"@ + short;
            match at {
                Some(node) => {
                    assert(list[i].node == node);
                    assert(is_made(st.g, node, NodeKind::Method, qn, short));
                    assert(stands_for(st.g, meta.outer, pm, pointer, node));
                    lemma_linked(st.g, r.g, meta, parent, node, pointer, pm);
                    lemma_noted_kept(st.g, r.g, st.idx);
                    node
                },
                None => {
                    let g1 = GraphView { strings: st.g.strings.interned(qn), ..st.g };
                    lemma_interned_kept(st.g, qn);
                    if st.g.strings.can_intern(qn) {
                        let id = st.g.strings.intern_id(qn);
                        lemma_minted(g1, NodeKind::Method, short, id, meta.file, qn);
                        let m = minted(g1, NodeKind::Method, short, id, meta.file);
                        lemma_keeps_on(st.g, g1, m.g);
                        lemma_noted_kept(st.g, m.g, st.idx);
                        lemma_meta_kept(st.g, m.g, meta);
                        if let Some(node) = m.id {
                            lemma_resolve_kept(st.g, m.g, pm.name);
                            assert(stands_for(m.g, meta.outer, pm, pointer, node));
                            if pointer {
                                lemma_pointer_kept(st.g, m.g, meta.outer, parent);
                            }
                            lemma_linked(m.g, r.g, meta, parent, node, pointer, pm);
                            lemma_keeps_on(st.g, m.g, r.g);
                            let key = PromotedKey {
                                package: meta.package_id,
                                owner: meta.short_id,
                                method: pm.name,
                                node,
                            };
                            assert(method_noted(
                                m.g,
                                key,
                                if pointer {
                                    "::*"@
                                } else {
                                    "::"@
                                },
                            ));
                            assert(noted(m.g, r.idx));
                            lemma_noted_kept(m.g, r.g, r.idx);
                            node
                        } else {
                            parent
                        }
                    } else {
                        parent
                    }
                },
            }
        },
    }
}

proof fn lemma_linked(
    g: GraphView,
    r: GraphView,
    meta: MetaView,
    parent: NodeId,
    node: NodeId,
    pointer: bool,
    pm: PromotedMethod,
)
    requires
        r == with_edge(
            with_edge(
                g,
                parent,
                node,
                EdgeKind::Contains,
                meta.file,
            ),
            node,
            pm.method,
            EdgeKind::Inherits,
            meta.file,
        ),
        meta_right(g, meta),
        stands_for(g, meta.outer, pm, pointer, node),
        if pointer {
            stands_for_pointer(g, meta.outer, parent)
        } else {
            parent == meta.outer
        },
    ensures
        keeps(g, r),
        stands_for(r, meta.outer, pm, pointer, node),
        is_joined(r, parent, node, EdgeKind::Contains),
        is_joined(r, node, pm.method, EdgeKind::Inherits),
        forall|k: int|
            g.edges.edges.len() <= k < r.edges.edges.len() ==> goes_with_method(
                r,
                meta.outer,
                pm,
                pointer,
                #[trigger] r.edges.edges[k],
            ),
{
    let n = g.edges.edges.len() as int;
    assert(g.edges.edges =~= r.edges.edges.take(n));
    assert(keeps(g, r));
    lemma_stands_kept(g, r, meta.outer, pm, pointer, node);
    lemma_meta_kept(g, r, meta);
    if pointer {
        lemma_pointer_kept(g, r, meta.outer, parent);
    }
    assert(r.edges.edges[n].kind == EdgeKind::Contains);
    assert(r.edges.edges[n + 1].kind == EdgeKind::Inherits);
    assert(live(r.nodes, meta.outer) is Some);
}

/// `e` goes with one of the first `n` methods.
spec fn goes_with_one(
    g: GraphView,
    outer: NodeId,
    methods: Seq<PromotedMethod>,
    n: int,
    pointer: bool,
    e: EdgeView,
) -> bool {
    exists|j: int|
        0 <= j < n && goes_with_method(g, outer, #[trigger] methods[j], pointer, e)
}

proof fn lemma_members(
    st: MintState,
    meta: MetaView,
    parent: NodeId,
    base: Seq<char>,
    pointer: bool,
    methods: Seq<PromotedMethod>,
    n: int,
)
    requires
        0 <= n <= methods.len(),
        noted(st.g, st.idx),
        meta_right(st.g, meta),
        if pointer {
            is_anchor(st.g, meta.outer, parent) && base == meta.pointer_qn
        } else {
            parent == meta.outer && base == meta.qn
        },
    ensures
        ({
            let r = with_members(st, meta, parent, base, pointer, methods, n);
            &&& keeps(st.g, r.g)
            &&& noted(r.g, r.idx)
            &&& forall|k: int|
                st.g.edges.edges.len() <= k < r.g.edges.edges.len() ==> goes_with_one(
                    r.g,
                    meta.outer,
                    methods,
                    n,
                    pointer,
                    #[trigger] r.g.edges.edges[k],
                )
            &&& has_space(r.g) ==> forall|j: int|
                0 <= j < n && st.g.strings.resolve((#[trigger] methods[j]).name) is Some ==> if pointer {
                    pointer_has_method(r.g, meta.outer, methods[j])
                } else {
                    has_method(r.g, meta.outer, methods[j])
                }
        }),
    decreases n,
{
    if n > 0 {
        lemma_members(st, meta, parent, base, pointer, methods, n - 1);
        let b = with_members(st, meta, parent, base, pointer, methods, n - 1);
        let r = with_members(st, meta, parent, base, pointer, methods, n);
        let pm = methods[n - 1];
        lemma_meta_kept(st.g, b.g, meta);
        if pointer {
            lemma_anchor_kept(st.g, b.g, meta.outer, parent);
        }
        let node = lemma_member(b, meta, parent, base, pointer, pm);
        lemma_keeps_on(st.g, b.g, r.g);
        if pointer {
            lemma_anchor_kept(b.g, r.g, meta.outer, parent);
        }
        assert(r == with_member(b, meta, parent, base, pointer, pm));
        assert forall|k: int| st.g.edges.edges.len() <= k < r.g.edges.edges.len() implies goes_with_one(
            r.g,
            meta.outer,
            methods,
            n,
            pointer,
            #[trigger] r.g.edges.edges[k],
        ) by {
            if k < b.g.edges.edges.len() {
                assert(b.g.edges.edges[k] == r.g.edges.edges[k]);
                assert(goes_with_one(
                    b.g,
                    meta.outer,
                    methods,
                    n - 1,
                    pointer,
                    b.g.edges.edges[k],
                ));
                let j = choose|j: int|
                    0 <= j < n - 1 && goes_with_method(
                        b.g,
                        meta.outer,
                        #[trigger] methods[j],
                        pointer,
                        b.g.edges.edges[k],
                    );
                lemma_method_edge_kept(
                    b.g,
                    r.g,
                    meta.outer,
                    methods[j],
                    pointer,
                    r.g.edges.edges[k],
                );
            } else {
                assert(goes_with_method(
                    r.g,
                    meta.outer,
                    methods[n - 1],
                    pointer,
                    r.g.edges.edges[k],
                ));
            }
        }
        if has_space(r.g) {
            assert forall|j: int|
                0 <= j < n && st.g.strings.resolve(
                    (#[trigger] methods[j]).name,
                ) is Some implies if pointer {
                pointer_has_method(r.g, meta.outer, methods[j])
            } else {
                has_method(r.g, meta.outer, methods[j])
            } by {
                if j < n - 1 {
                    lemma_has_method_kept(b.g, r.g, meta.outer, methods[j]);
                } else {
                    lemma_resolve_kept(st.g, b.g, pm.name);
                    assert(stands_for(r.g, meta.outer, pm, pointer, node));
                }
            }
        }
    } else {
        assert(st.g.edges.edges =~= st.g.edges.edges.take(st.g.edges.edges.len() as int));
        assert(st.g.strings.text =~= st.g.strings.text.take(st.g.strings.text.len() as int));
    }
}

proof fn lemma_anchor(st: MintState, meta: MetaView)
    requires
        noted(st.g, st.idx),
        meta_right(st.g, meta),
    ensures
        ({
            let a = with_anchor(st, meta);
            &&& keeps(st.g, a.0.g)
            &&& noted(a.0.g, a.0.idx)
            &&& forall|k: int|
                st.g.edges.edges.len() <= k < a.0.g.edges.edges.len() ==> goes_with_pointer(
                    a.0.g,
                    meta.outer,
                    #[trigger] a.0.g.edges.edges[k],
                )
            &&& a.1 matches Some(anchor) ==> is_anchor(a.0.g, meta.outer, anchor)
            &&& a.1 is None ==> !has_space(a.0.g)
        }),
{
    let a = with_anchor(st, meta);
    law_split_joins(meta.qn);
    let p = split_qn(meta.qn)->0;
    let at = pointer_type_at(
        st.idx.pointer_type,
        meta.package_id,
        meta.short_id,
        st.idx.pointer_type.len() as int,
    );
    let i = lemma_pointer_type_at(
        st.idx.pointer_type,
        meta.package_id,
        meta.short_id,
        st.idx.pointer_type.len() as int,
    );
    assert(st.g.edges.edges =~= st.g.edges.edges.take(st.g.edges.edges.len() as int));
    assert(st.g.strings.text =~= st.g.strings.text.take(st.g.strings.text.len() as int));
    match at {
        Some(node) => {
            assert(pointer_noted(st.g, st.idx.pointer_type[i]));
            let o = choose|o: NodeId| #[trigger]
                st.g.qn(o) == Some(p.0 + "::"@ + p.1) && is_joined(
                    st.g,
                    node,
                    o,
                    EdgeKind::Inherits,
                );
            assert(st.g.qn(o) == st.g.qn(meta.outer));
        },
        None => {
            let g1 = GraphView { strings: st.g.strings.interned(meta.pointer_qn), ..st.g };
            lemma_interned_kept(st.g, meta.pointer_qn);
            if st.g.strings.can_intern(meta.pointer_qn) {
                let id = st.g.strings.intern_id(meta.pointer_qn);
                lemma_minted(g1, NodeKind::Type, meta.short, id, meta.file, meta.pointer_qn);
                let m = minted(g1, NodeKind::Type, meta.short, id, meta.file);
                lemma_keeps_on(st.g, g1, m.g);
                lemma_noted_kept(st.g, m.g, st.idx);
                lemma_meta_kept(st.g, m.g, meta);
                if let Some(node) = m.id {
                    let r = a.0.g;
                    let n = m.g.edges.edges.len() as int;
                    assert(m.g.edges.edges =~= r.edges.edges.take(n));
                    assert(keeps(m.g, r));
                    lemma_keeps_on(st.g, m.g, r);
                    lemma_noted_kept(m.g, r, st.idx);
                    lemma_meta_kept(m.g, r, meta);
                    assert(stands_for_pointer(m.g, meta.outer, node));
                    lemma_pointer_kept(m.g, r, meta.outer, node);
                    assert(r.edges.edges[n].source == node);
                    assert(is_joined(r, node, meta.outer, EdgeKind::Inherits));
                    assert(r.qn(meta.outer) == r.qn(meta.outer));
                    assert(pointer_noted(r, a.0.idx.pointer_type.last()));
                    assert(noted(r, a.0.idx));
                }
            }
        },
    }
}

/// The edges of `r` from number `n` on go with what `outer` gains.
spec fn new_edges_go(r: GraphView, n: int, outer: NodeId, gain: GainView) -> bool {
    forall|k: int|
        n <= k < r.edges.edges.len() ==> goes_with_gain(
            r,
            outer,
            gain,
            #[trigger] r.edges.edges[k],
        )
}

/// `outer` has everything that it gains, as far as `g` names it.
pub open spec fn has_gain(g: GraphView, r: GraphView, outer: NodeId, gain: GainView) -> bool {
    &&& forall|j: int|
        0 <= j < gain.value.len() && g.strings.resolve((#[trigger] gain.value[j]).name) is Some
            ==> has_method(r, outer, gain.value[j])
    &&& forall|j: int|
        0 <= j < gain.pointer_only.len() && g.strings.resolve(
            (#[trigger] gain.pointer_only[j]).name,
        ) is Some ==> pointer_has_method(r, outer, gain.pointer_only[j])
}

proof fn lemma_has_gain_kept(
    f: GraphView,
    g: GraphView,
    a: GraphView,
    b: GraphView,
    outer: NodeId,
    gain: GainView,
)
    requires
        keeps(f, g),
        keeps(a, b),
        has_gain(g, a, outer, gain),
    ensures
        has_gain(f, b, outer, gain),
{
    assert forall|j: int|
        0 <= j < gain.value.len() && f.strings.resolve(
            (#[trigger] gain.value[j]).name,
        ) is Some implies has_method(b, outer, gain.value[j]) by {
        lemma_resolve_kept(f, g, gain.value[j].name);
        lemma_has_method_kept(a, b, outer, gain.value[j]);
    }
    assert forall|j: int|
        0 <= j < gain.pointer_only.len() && f.strings.resolve(
            (#[trigger] gain.pointer_only[j]).name,
        ) is Some implies pointer_has_method(b, outer, gain.pointer_only[j]) by {
        lemma_resolve_kept(f, g, gain.pointer_only[j].name);
        lemma_has_method_kept(a, b, outer, gain.pointer_only[j]);
    }
}

proof fn lemma_gain(st: MintState, meta: MetaView, gain: GainView)
    requires
        noted(st.g, st.idx),
        meta_right(st.g, meta),
    ensures
        ({
            let r = with_gain(st, meta, gain);
            &&& keeps(st.g, r.g)
            &&& noted(r.g, r.idx)
            &&& new_edges_go(r.g, st.g.edges.edges.len() as int, meta.outer, gain)
            &&& has_space(r.g) ==> has_gain(st.g, r.g, meta.outer, gain)
        }),
{
    let r = with_gain(st, meta, gain);
    let vn = gain.value.len() as int;
    let pn = gain.pointer_only.len() as int;
    if pn == 0 {
        lemma_members(st, meta, meta.outer, meta.qn, false, gain.value, vn);
        assert forall|k: int|
            st.g.edges.edges.len() <= k < r.g.edges.edges.len() implies goes_with_gain(
            r.g,
            meta.outer,
            gain,
            #[trigger] r.g.edges.edges[k],
        ) by {
            assert(goes_with_one(
                r.g,
                meta.outer,
                gain.value,
                vn,
                false,
                r.g.edges.edges[k],
            ));
        }
    } else {
        lemma_anchor(st, meta);
        let a = with_anchor(st, meta);
        assert(new_edges_go(a.0.g, st.g.edges.edges.len() as int, meta.outer, gain));
        if let Some(anchor) = a.1 {
            lemma_meta_kept(st.g, a.0.g, meta);
            lemma_members(a.0, meta, meta.outer, meta.qn, false, gain.value, vn);
            let b = with_members(a.0, meta, meta.outer, meta.qn, false, gain.value, vn);
            lemma_meta_kept(a.0.g, b.g, meta);
            lemma_anchor_kept(a.0.g, b.g, meta.outer, anchor);
            lemma_members(b, meta, anchor, meta.pointer_qn, true, gain.pointer_only, pn);
            lemma_keeps_on(st.g, a.0.g, b.g);
            lemma_keeps_on(st.g, b.g, r.g);
            lemma_keeps_on(a.0.g, b.g, r.g);
            assert forall|k: int|
                st.g.edges.edges.len() <= k < r.g.edges.edges.len() implies goes_with_gain(
                r.g,
                meta.outer,
                gain,
                #[trigger] r.g.edges.edges[k],
            ) by {
                let e = r.g.edges.edges[k];
                if k < a.0.g.edges.edges.len() {
                    assert(a.0.g.edges.edges[k] == e);
                    lemma_gain_edge_kept(a.0.g, r.g, meta.outer, gain, e);
                } else if k < b.g.edges.edges.len() {
                    assert(b.g.edges.edges[k] == e);
                    assert(goes_with_one(b.g, meta.outer, gain.value, vn, false, e));
                    assert(goes_with_gain(b.g, meta.outer, gain, e));
                    lemma_gain_edge_kept(b.g, r.g, meta.outer, gain, e);
                } else {
                    assert(goes_with_one(r.g, meta.outer, gain.pointer_only, pn, true, e));
                }
            }
            if has_space(r.g) {
                assert(has_space(b.g));
                assert forall|j: int|
                    0 <= j < gain.value.len() && st.g.strings.resolve(
                        (#[trigger] gain.value[j]).name,
                    ) is Some implies has_method(r.g, meta.outer, gain.value[j]) by {
                    lemma_resolve_kept(st.g, a.0.g, gain.value[j].name);
                    lemma_has_method_kept(b.g, r.g, meta.outer, gain.value[j]);
                }
                assert forall|j: int|
                    0 <= j < gain.pointer_only.len() && st.g.strings.resolve(
                        (#[trigger] gain.pointer_only[j]).name,
                    ) is Some implies pointer_has_method(
                    r.g,
                    meta.outer,
                    gain.pointer_only[j],
                ) by {
                    lemma_resolve_kept(st.g, b.g, gain.pointer_only[j].name);
                }
            }
        }
    }
}

/// The metas belong to `outers`.
spec fn metas_right(g: GraphView, metas: Seq<MetaView>, outers: Seq<NodeId>, n: int) -> bool {
    forall|k: int|
        0 <= k < metas.len() ==> meta_right(g, #[trigger] metas[k]) && 0 <= metas[k].at < n
            && metas[k].outer == outers[metas[k].at]
}

/// One of the metas is that of number `i`.
spec fn has_meta(metas: Seq<MetaView>, i: int) -> bool {
    exists|k: int| 0 <= k < metas.len() && (#[trigger] metas[k]).at == i
}

/// `outer` can be told from its package, and gains something.
pub open spec fn can_gain(g: GraphView, outer: NodeId, gain: GainView) -> bool {
    &&& g.qn(outer) is Some
    &&& split_qn(g.qn(outer)->0) is Some
    &&& gain.value.len() > 0 || gain.pointer_only.len() > 0
}

proof fn lemma_survey(g: GraphView, outers: Seq<NodeId>, gains: Seq<GainView>, n: int)
    requires
        g.strings.wf(),
        0 <= n <= outers.len(),
    ensures
        ({
            let s = surveyed(g, outers, gains, n);
            &&& keeps(g, s.g)
            &&& s.g.edges == g.edges
            &&& metas_right(s.g, s.metas, outers, n)
            &&& has_space(s.g) ==> forall|i: int|
                0 <= i < n && can_gain(g, #[trigger] outers[i], gains[i]) ==> has_meta(s.metas, i)
        }),
    decreases n,
{
    assert(g.edges.edges =~= g.edges.edges.take(g.edges.edges.len() as int));
    assert(g.strings.text =~= g.strings.text.take(g.strings.text.len() as int));
    if n > 0 {
        lemma_survey(g, outers, gains, n - 1);
        let b = surveyed(g, outers, gains, n - 1);
        let s = surveyed(g, outers, gains, n);
        let outer = outers[n - 1];
        let one = surveyed_one(b.g, outer, gains[n - 1], n - 1);
        assert(b.g.edges.edges =~= b.g.edges.edges.take(b.g.edges.edges.len() as int));
        assert(b.g.strings.text =~= b.g.strings.text.take(b.g.strings.text.len() as int));
        assert(keeps(b.g, b.g));
        if g.qn(outer) is Some {
            lemma_qn_kept(g, b.g, outer);
        }
        if b.g.qn(outer) is Some && split_qn(b.g.qn(outer)->0) is Some {
            let p = split_qn(b.g.qn(outer)->0)->0;
            let g1 = GraphView { strings: b.g.strings.interned(p.0), ..b.g };
            lemma_interned_kept(b.g, p.0);
            lemma_interned_kept(g1, p.1);
            let g2 = GraphView { strings: g1.strings.interned(p.1), ..b.g };
            assert(g2 == (GraphView { strings: g1.strings.interned(p.1), ..g1 }));
            lemma_keeps_on(b.g, g1, g2);
            if one.1 is Some {
                assert(s.g == g2);
                lemma_resolve_kept(g1, g2, b.g.strings.intern_id(p.0));
                lemma_qn_kept(b.g, g2, outer);
                assert(meta_right(g2, one.1->0));
            }
        }
        assert(keeps(b.g, s.g));
        lemma_keeps_on(g, b.g, s.g);
        assert forall|k: int| 0 <= k < s.metas.len() implies meta_right(s.g, #[trigger] s.metas[k])
            && 0 <= s.metas[k].at < n && s.metas[k].outer == outers[s.metas[k].at] by {
            if k < b.metas.len() {
                assert(s.metas[k] == b.metas[k]);
                lemma_meta_kept(b.g, s.g, b.metas[k]);
            }
        }
        if has_space(s.g) {
            assert forall|i: int|
                0 <= i < n && can_gain(g, #[trigger] outers[i], gains[i]) implies has_meta(
                s.metas,
                i,
            ) by {
                if i < n - 1 {
                    assert(has_meta(b.metas, i));
                    let k = choose|k: int| 0 <= k < b.metas.len() && (#[trigger] b.metas[k]).at == i;
                    assert(s.metas[k] == b.metas[k]);
                } else {
                    assert(one.1 is Some);
                    assert(s.metas[b.metas.len() as int].at == i);
                }
            }
        }
    }
}

proof fn lemma_gains(
    st: MintState,
    metas: Seq<MetaView>,
    outers: Seq<NodeId>,
    gains: Seq<GainView>,
    n: int,
)
    requires
        noted(st.g, st.idx),
        metas_right(st.g, metas, outers, outers.len() as int),
        0 <= n <= metas.len(),
    ensures
        ({
            let r = with_gains(st, metas, gains, n);
            &&& keeps(st.g, r.g)
            &&& noted(r.g, r.idx)
            &&& forall|k: int|
                st.g.edges.edges.len() <= k < r.g.edges.edges.len() ==> exists|i: int|
                    0 <= i < outers.len() && goes_with_gain(
                        r.g,
                        #[trigger] outers[i],
                        gains[i],
                        #[trigger] r.g.edges.edges[k],
                    )
            &&& has_space(r.g) ==> forall|k: int|
                0 <= k < n ==> has_gain(
                    st.g,
                    r.g,
                    (#[trigger] metas[k]).outer,
                    gains[metas[k].at],
                )
        }),
    decreases n,
{
    if n > 0 {
        lemma_gains(st, metas, outers, gains, n - 1);
        let b = with_gains(st, metas, gains, n - 1);
        let r = with_gains(st, metas, gains, n);
        let meta = metas[n - 1];
        lemma_meta_kept(st.g, b.g, meta);
        lemma_gain(b, meta, gains[meta.at]);
        lemma_keeps_on(st.g, b.g, r.g);
        assert forall|k: int|
            st.g.edges.edges.len() <= k < r.g.edges.edges.len() implies exists|i: int|
            0 <= i < outers.len() && goes_with_gain(
                r.g,
                #[trigger] outers[i],
                gains[i],
                #[trigger] r.g.edges.edges[k],
            ) by {
            if k < b.g.edges.edges.len() {
                assert(b.g.edges.edges[k] == r.g.edges.edges[k]);
                let i = choose|i: int|
                    0 <= i < outers.len() && goes_with_gain(
                        b.g,
                        #[trigger] outers[i],
                        gains[i],
                        b.g.edges.edges[k],
                    );
                lemma_gain_edge_kept(b.g, r.g, outers[i], gains[i], r.g.edges.edges[k]);
            } else {
                assert(goes_with_gain(
                    r.g,
                    outers[meta.at],
                    gains[meta.at],
                    r.g.edges.edges[k],
                ));
            }
        }
        if has_space(r.g) {
            assert forall|k: int| 0 <= k < n implies has_gain(
                st.g,
                r.g,
                (#[trigger] metas[k]).outer,
                gains[metas[k].at],
            ) by {
                if k < n - 1 {
                    assert(keeps(st.g, st.g)) by {
                        assert(st.g.edges.edges =~= st.g.edges.edges.take(
                            st.g.edges.edges.len() as int,
                        ));
                        assert(st.g.strings.text =~= st.g.strings.text.take(
                            st.g.strings.text.len() as int,
                        ));
                    }
                    lemma_has_gain_kept(
                        st.g,
                        st.g,
                        b.g,
                        r.g,
                        metas[k].outer,
                        gains[metas[k].at],
                    );
                } else {
                    assert(keeps(r.g, r.g)) by {
                        assert(r.g.edges.edges =~= r.g.edges.edges.take(
                            r.g.edges.edges.len() as int,
                        ));
                        assert(r.g.strings.text =~= r.g.strings.text.take(
                            r.g.strings.text.len() as int,
                        ));
                    }
                    lemma_has_gain_kept(
                        st.g,
                        b.g,
                        r.g,
                        r.g,
                        metas[k].outer,
                        gains[metas[k].at],
                    );
                }
            }
        }
    } else {
        assert(st.g.edges.edges =~= st.g.edges.edges.take(st.g.edges.edges.len() as int));
        assert(st.g.strings.text =~= st.g.strings.text.take(st.g.strings.text.len() as int));
    }
}

/// Every edge that is added for gained methods goes with one of them: it puts a synthetic
/// method of that name under the struct, or under the synthetic type that stands for the
/// pointer to it, or leads from there to the method that was declared.
pub proof fn law_edges_go_with_gained_methods(
    g: GraphView,
    outers: Seq<NodeId>,
    gains: Seq<GainView>,
    k: int,
)
    requires
        g.strings.wf(),
        ({
            let r = made_for(g, outers, gains);
            g.edges.edges.len() <= k < r.edges.edges.len()
        }),
    ensures
        ({
            let r = made_for(g, outers, gains);
            exists|i: int|
                0 <= i < outers.len() && goes_with_gain(
                    r,
                    #[trigger] outers[i],
                    gains[i],
                    r.edges.edges[k],
                )
        }),
{
    lemma_all(g, outers, gains);
}

/// As long as there is space for more, each method that a struct with a package gains by
/// value stands under the struct, and each that it gains by pointer alone stands under what
/// stands for the pointer, as a synthetic method that leads to the one that was declared.
pub proof fn law_gained_methods_are_made(
    g: GraphView,
    outers: Seq<NodeId>,
    gains: Seq<GainView>,
    i: int,
)
    requires
        g.strings.wf(),
        0 <= i < outers.len(),
        can_gain(g, outers[i], gains[i]),
        has_space(made_for(g, outers, gains)),
    ensures
        has_gain(g, made_for(g, outers, gains), outers[i], gains[i]),
{
    lemma_all(g, outers, gains);
    assert(outers[i] == outers[i]);
}

/// The graph with everything made that `outers` gain.
pub open spec fn made_for(g: GraphView, outers: Seq<NodeId>, gains: Seq<GainView>) -> GraphView {
    materialised(
        MintState { g, idx: LocalView::none(), fresh: Seq::empty(), promoted: 0 },
        outers,
        gains,
    ).g
}

proof fn lemma_all(g: GraphView, outers: Seq<NodeId>, gains: Seq<GainView>)
    requires
        g.strings.wf(),
    ensures
        ({
            let r = made_for(g, outers, gains);
            &&& forall|k: int|
                g.edges.edges.len() <= k < r.edges.edges.len() ==> exists|i: int|
                    0 <= i < outers.len() && goes_with_gain(
                        r,
                        #[trigger] outers[i],
                        gains[i],
                        #[trigger] r.edges.edges[k],
                    )
            &&& has_space(r) ==> forall|i: int|
                0 <= i < outers.len() && can_gain(g, #[trigger] outers[i], gains[i]) ==> has_gain(
                    g,
                    r,
                    outers[i],
                    gains[i],
                )
        }),
{
    let r = made_for(g, outers, gains);
    let s = surveyed(g, outers, gains, outers.len() as int);
    lemma_survey(g, outers, gains, outers.len() as int);
    let st = MintState { g: s.g, idx: LocalView::none(), fresh: Seq::empty(), promoted: 0 };
    lemma_gains(st, s.metas, outers, gains, s.metas.len() as int);
    if has_space(r) {
        assert(keeps(r, r)) by {
            assert(r.edges.edges =~= r.edges.edges.take(r.edges.edges.len() as int));
            assert(r.strings.text =~= r.strings.text.take(r.strings.text.len() as int));
        }
        assert forall|i: int|
            0 <= i < outers.len() && can_gain(g, #[trigger] outers[i], gains[i]) implies has_gain(
            g,
            r,
            outers[i],
            gains[i],
        ) by {
            assert(has_meta(s.metas, i));
            let k = choose|k: int| 0 <= k < s.metas.len() && (#[trigger] s.metas[k]).at == i;
            assert(has_gain(s.g, r, s.metas[k].outer, gains[s.metas[k].at]));
            lemma_has_gain_kept(g, s.g, r, r, outers[i], gains[i]);
        }
    }
}

} // verus!
