//! What the Go method-set pass leaves alone, and that it knows its own nodes again.

use vstd::prelude::*;

use crate::arena::{
    allocated, law_allocation_is_fresh, law_allocation_keeps_nodes, lemma_free_from, live,
    NodeEntry,
};
use crate::edges::StoreView;
use crate::graph::GraphView;
use crate::ids::{FileId, NodeId, StringId};
use crate::kinds::NodeKind;
use crate::pass_go_method_set::function_types::{
    signature_edges, with_signature_edges, PendingSignature,
};
use crate::pass_go_method_set::materialise::{
    law_keys_are_noted_once, minted, pointer_name, split_qn, surveyed, with_anchor, with_gain,
    with_gains, with_member, with_members, GainView, LocalView, MetaView, MintState,
};
use crate::pass_go_method_set::ownership::{
    law_tombstone_leaves_no_owned_node, owned, pass_shape, tombstoned,
};
use crate::pass_go_method_set::promotion::{
    law_gained_names_are_distinct, names_once, PromotedMethod,
};
use crate::pass_go_method_set::satisfaction::{
    candidate_types, implements_edges, in_order, interface_sets, judged, method_sets,
    pointer_form_in, satisfied, with_implements, with_pair, with_pointer_form, with_type,
    with_types, InterfaceView, PairState, PendingImplements, PointerState, SetsView,
};
use crate::pass_go_method_set::shadow::{file_of, shadows, with_shadow_edges, PendingShadow};
use crate::pass_go_method_set::{
    after_pass, after_promotion, after_satisfaction, after_shadows, all_embeddings,
    embedding_structs, gains_of, outers_of, promoted,
};
use crate::sorting::{law_sorted_and_deduped_is_strict, Ranked};
use crate::strings::law_interning_keeps_strings;
use crate::text::{count_from, find_text, lemma_find_from, occurs_at};

verus! {

/// `b` has everything that `a` has: the edges of `a` come first, and the nodes of `a`
/// are as they were.
pub open spec fn grows(a: GraphView, b: GraphView) -> bool {
    &&& a.edges.edges.is_prefix_of(b.edges.edges)
    &&& forall|id: NodeId|
        (#[trigger] live(a.nodes, id)) is Some ==> live(b.nodes, id) == live(a.nodes, id)
}

proof fn lemma_grows_on(a: GraphView, b: GraphView, c: GraphView)
    requires
        grows(a, b),
        grows(b, c),
    ensures
        grows(a, c),
{
    assert(a.edges.edges =~= c.edges.edges.take(a.edges.edges.len() as int));
    assert forall|id: NodeId| (#[trigger] live(a.nodes, id)) is Some implies live(c.nodes, id)
        == live(a.nodes, id) by {
        assert(live(b.nodes, id) == live(a.nodes, id));
    }
}

proof fn lemma_grows_same(a: GraphView, b: GraphView)
    requires
        a.edges == b.edges,
        a.nodes == b.nodes,
    ensures
        grows(a, b),
{
}

proof fn lemma_minted_grows(
    g: GraphView,
    kind: NodeKind,
    short: Seq<char>,
    qn: StringId,
    file: FileId,
)
    ensures
        grows(g, minted(g, kind, short, qn, file).g),
        minted(g, kind, short, qn, file).g.edges == g.edges,
{
    let m = minted(g, kind, short, qn, file);
    if m.id is Some {
        let entry = NodeEntry {
            qualified_name: Some(qn),
            ..NodeEntry::bare(kind, g.strings.intern_id(short), file)
        };
        assert(m.g.nodes == allocated(g.nodes, entry));
        assert forall|id: NodeId| (#[trigger] live(g.nodes, id)) is Some implies live(m.g.nodes, id)
            == live(g.nodes, id) by {
            law_allocation_keeps_nodes(g.nodes, entry, id);
        }
    }
}

proof fn lemma_member_grows(
    st: MintState,
    meta: MetaView,
    parent: NodeId,
    base: Seq<char>,
    pointer: bool,
    pm: PromotedMethod,
)
    ensures
        grows(st.g, with_member(st, meta, parent, base, pointer, pm).g),
{
    if let Some(short) = st.g.strings.resolve(pm.name) {
        let qn = base + "::"@ + short;
        let g1 = GraphView { strings: st.g.strings.interned(qn), ..st.g };
        let id = st.g.strings.intern_id(qn);
        lemma_minted_grows(g1, NodeKind::Method, short, id, meta.file);
        let m = minted(g1, NodeKind::Method, short, id, meta.file);
        lemma_grows_same(st.g, g1);
        lemma_grows_on(st.g, g1, m.g);
        let r = with_member(st, meta, parent, base, pointer, pm).g;
        if grows(m.g, r) {
            lemma_grows_on(st.g, m.g, r);
        }
    }
}

proof fn lemma_members_grow(
    st: MintState,
    meta: MetaView,
    parent: NodeId,
    base: Seq<char>,
    pointer: bool,
    methods: Seq<PromotedMethod>,
    n: int,
)
    ensures
        grows(st.g, with_members(st, meta, parent, base, pointer, methods, n).g),
    decreases n,
{
    if n > 0 {
        lemma_members_grow(st, meta, parent, base, pointer, methods, n - 1);
        let before = with_members(st, meta, parent, base, pointer, methods, n - 1);
        lemma_member_grows(before, meta, parent, base, pointer, methods[n - 1]);
        lemma_grows_on(
            st.g,
            before.g,
            with_members(st, meta, parent, base, pointer, methods, n).g,
        );
    }
}

proof fn lemma_anchor_grows(st: MintState, meta: MetaView)
    ensures
        grows(st.g, with_anchor(st, meta).0.g),
{
    let g1 = GraphView { strings: st.g.strings.interned(meta.pointer_qn), ..st.g };
    let id = st.g.strings.intern_id(meta.pointer_qn);
    lemma_minted_grows(g1, NodeKind::Type, meta.short, id, meta.file);
    let m = minted(g1, NodeKind::Type, meta.short, id, meta.file);
    lemma_grows_on(st.g, g1, m.g);
    if grows(m.g, with_anchor(st, meta).0.g) {
        lemma_grows_on(st.g, m.g, with_anchor(st, meta).0.g);
    }
}

proof fn lemma_gain_grows(st: MintState, meta: MetaView, gain: GainView)
    ensures
        grows(st.g, with_gain(st, meta, gain).g),
{
    let n = gain.value.len() as int;
    if gain.pointer_only.len() == 0 {
        lemma_members_grow(st, meta, meta.outer, meta.qn, false, gain.value, n);
    } else {
        lemma_anchor_grows(st, meta);
        let a = with_anchor(st, meta);
        if let Some(anchor) = a.1 {
            lemma_members_grow(a.0, meta, meta.outer, meta.qn, false, gain.value, n);
            let b = with_members(a.0, meta, meta.outer, meta.qn, false, gain.value, n);
            lemma_members_grow(
                b,
                meta,
                anchor,
                meta.pointer_qn,
                true,
                gain.pointer_only,
                gain.pointer_only.len() as int,
            );
            lemma_grows_on(st.g, a.0.g, b.g);
            lemma_grows_on(st.g, b.g, with_gain(st, meta, gain).g);
        }
    }
}

proof fn lemma_gains_grow(st: MintState, metas: Seq<MetaView>, gains: Seq<GainView>, n: int)
    ensures
        grows(st.g, with_gains(st, metas, gains, n).g),
    decreases n,
{
    if n > 0 {
        lemma_gains_grow(st, metas, gains, n - 1);
        let before = with_gains(st, metas, gains, n - 1);
        lemma_gain_grows(before, metas[n - 1], gains[metas[n - 1].at]);
        lemma_grows_on(st.g, before.g, with_gains(st, metas, gains, n).g);
    }
}

proof fn lemma_survey_keeps(g: GraphView, outers: Seq<NodeId>, gains: Seq<GainView>, n: int)
    ensures
        surveyed(g, outers, gains, n).g.nodes == g.nodes,
        surveyed(g, outers, gains, n).g.edges == g.edges,
    decreases n,
{
    if n > 0 {
        lemma_survey_keeps(g, outers, gains, n - 1);
    }
}

proof fn lemma_shadow_edges_grow(store: StoreView, pending: Seq<PendingShadow>, n: int)
    ensures
        store.edges.is_prefix_of(with_shadow_edges(store, pending, n).edges),
    decreases n,
{
    if n > 0 {
        lemma_shadow_edges_grow(store, pending, n - 1);
    }
}

proof fn lemma_implements_grow(store: StoreView, pending: Seq<PendingImplements>, n: int)
    ensures
        store.edges.is_prefix_of(with_implements(store, pending, n).edges),
    decreases n,
{
    if n > 0 {
        lemma_implements_grow(store, pending, n - 1);
    }
}

proof fn lemma_signature_edges_grow(store: StoreView, pending: Seq<PendingSignature>, n: int)
    ensures
        store.edges.is_prefix_of(with_signature_edges(store, pending, n).edges),
    decreases n,
{
    if n > 0 {
        lemma_signature_edges_grow(store, pending, n - 1);
    }
}

proof fn lemma_pointer_form_grows(st: PointerState, idx: LocalView, c: NodeId, file: FileId)
    ensures
        grows(st.g, with_pointer_form(st, idx, c, file).0.g),
{
    if let Some(qn) = st.g.qn(c) {
        if let Some(p) = split_qn(qn) {
            let s2 = st.g.strings.interned(p.0).interned(p.1);
            let name = pointer_name(p.0, p.1);
            let g3 = GraphView { strings: s2.interned(name), ..st.g };
            let m = minted(g3, NodeKind::Type, p.1, s2.intern_id(name), file);
            lemma_minted_grows(g3, NodeKind::Type, p.1, s2.intern_id(name), file);
            lemma_grows_on(st.g, g3, m.g);
            let r = pointer_form_in(st, idx, c, file, p.0, p.1).0.g;
            if grows(m.g, r) {
                lemma_grows_on(st.g, m.g, r);
            }
        }
    }
}

proof fn lemma_pair_grows(
    judge: GraphView,
    p: PairState,
    idx: LocalView,
    c: NodeId,
    file: FileId,
    sets: SetsView,
    i: InterfaceView,
)
    ensures
        grows(p.st.g, with_pair(judge, p, idx, c, file, sets, i).st.g),
{
    lemma_pointer_form_grows(p.st, idx, c, file);
}

proof fn lemma_type_grows(
    judge: GraphView,
    p: PairState,
    idx: LocalView,
    c: NodeId,
    file: FileId,
    sets: SetsView,
    interfaces: Seq<InterfaceView>,
    n: int,
)
    ensures
        grows(p.st.g, with_type(judge, p, idx, c, file, sets, interfaces, n).st.g),
    decreases n,
{
    if n > 0 {
        lemma_type_grows(judge, p, idx, c, file, sets, interfaces, n - 1);
        let before = with_type(judge, p, idx, c, file, sets, interfaces, n - 1);
        lemma_pair_grows(judge, before, idx, c, file, sets, interfaces[n - 1]);
        lemma_grows_on(
            p.st.g,
            before.st.g,
            with_type(judge, p, idx, c, file, sets, interfaces, n).st.g,
        );
    }
}

proof fn lemma_types_grow(
    judge: GraphView,
    p: PairState,
    idx: LocalView,
    types: Seq<NodeId>,
    interfaces: Seq<InterfaceView>,
    n: int,
)
    ensures
        grows(p.st.g, with_types(judge, p, idx, types, interfaces, n).st.g),
    decreases n,
{
    if n > 0 {
        lemma_types_grow(judge, p, idx, types, interfaces, n - 1);
        let before = with_types(judge, p, idx, types, interfaces, n - 1);
        let c = types[n - 1];
        if let Some(sets) = method_sets(judge, idx, c) {
            lemma_type_grows(
                judge,
                before,
                idx,
                c,
                file_of(before.st.g, c),
                sets,
                interfaces,
                interfaces.len() as int,
            );
        }
        lemma_grows_on(
            p.st.g,
            before.st.g,
            with_types(judge, p, idx, types, interfaces, n).st.g,
        );
    }
}

pub(crate) proof fn lemma_judged_grows(g: GraphView, idx: LocalView)
    ensures
        grows(g, judged(g, idx).st.g),
{
    let types = candidate_types(g);
    lemma_types_grow(
        g,
        PairState {
            st: PointerState { g, forms: Seq::empty(), fresh: Seq::empty() },
            pending: Seq::empty(),
        },
        idx,
        types,
        interface_sets(g),
        types.len() as int,
    );
}

/// A run of the pass on a fresh graph only adds: every edge that was there stays, in
/// its place, and every node that was there is as it was.
pub proof fn law_pass_only_adds(g: GraphView)
    ensures
        grows(g, after_pass(g)),
{
    let outers = embedding_structs(g);
    let gains = gains_of(g, outers);
    let s = surveyed(g, outers, gains, outers.len() as int);
    lemma_survey_keeps(g, outers, gains, outers.len() as int);
    let start = MintState { g: s.g, idx: LocalView::none(), fresh: Seq::empty(), promoted: 0 };
    lemma_gains_grow(start, s.metas, gains, s.metas.len() as int);
    let a = promoted(g);
    lemma_grows_on(g, s.g, a.g);
    let b = after_promotion(g);
    lemma_grows_on(g, a.g, b);
    let c = after_shadows(g);
    let p = shadows(b, a.idx);
    lemma_shadow_edges_grow(b.edges, p, p.len() as int);
    lemma_grows_on(g, b, c);
    lemma_judged_grows(c, a.idx);
    let h = judged(c, a.idx).st.g;
    lemma_grows_on(g, c, h);
    let e = implements_edges(c, a.idx);
    lemma_implements_grow(h.edges, e, e.len() as int);
    lemma_grows_on(g, h, satisfied(c, a.idx));
    let d = after_satisfaction(g);
    lemma_grows_on(g, satisfied(c, a.idx), d);
    let q = signature_edges(d);
    lemma_signature_edges_grow(d.edges, q, q.len() as int);
    lemma_grows_on(g, d, after_pass(g));
}

proof fn lemma_counted_once(s: Seq<char>, pat: Seq<char>, i: int, j: int)
    requires
        0 <= i <= j,
        pat.len() > 0,
        occurs_at(s, pat, j),
    ensures
        count_from(s, pat, i) >= 1,
    decreases j - i,
{
    if !occurs_at(s, pat, i) {
        lemma_counted_once(s, pat, i + 1, j);
    }
}

proof fn lemma_counted_twice(s: Seq<char>, pat: Seq<char>, i: int, j: int, k: int)
    requires
        0 <= i <= j,
        j + pat.len() <= k,
        pat.len() > 0,
        occurs_at(s, pat, j),
        occurs_at(s, pat, k),
    ensures
        count_from(s, pat, i) >= 2,
    decreases j - i,
{
    if occurs_at(s, pat, i) {
        lemma_counted_once(s, pat, i + pat.len(), k);
    } else {
        lemma_counted_twice(s, pat, i + 1, j, k);
    }
}

/// A text that holds `::*` in front of its last character.
proof fn lemma_pointer_shape(s: Seq<char>, n: int)
    requires
        occurs_at(s, "::*"@, n),
        n + 3 < s.len(),
    ensures
        pass_shape(s),
{
    lemma_find_from(s, "::*"@, 0);
}

/// A text with two separators that does not end in a star.
proof fn lemma_value_shape(s: Seq<char>, n: int, m: int)
    requires
        0 <= n,
        n + 2 <= m,
        occurs_at(s, "::"@, n),
        occurs_at(s, "::"@, m),
        s[s.len() - 1] != '*',
    ensures
        pass_shape(s),
{
    reveal_strlit("::");
    reveal_strlit("::*");
    lemma_counted_twice(s, "::"@, 0, n, m);
    lemma_find_from(s, "::*"@, 0);
    if let Some(i) = find_text(s, "::*"@) {
        assert(s.subrange(i, i + 3)[2] == s[i + 2]);
        assert("::*"@[2] == '*');
    }
}

/// The names that the pass gives to its nodes have the shape by which it knows them
/// again.
pub proof fn law_given_names_have_pass_shape(
    package: Seq<char>,
    owner: Seq<char>,
    method: Seq<char>,
)
    requires
        owner.len() > 0,
        method.len() > 0 && method[method.len() - 1] != '*',
    ensures
        pass_shape(package + "::"@ + owner + "::"@ + method),
        pass_shape(pointer_name(package, owner)),
        pass_shape(pointer_name(package, owner) + "::"@ + method),
{
    reveal_strlit("::");
    reveal_strlit("::*");
    let value = package + "::"@ + owner + "::"@ + method;
    let n = package.len() as int;
    let m = n + 2 + owner.len();
    assert(value.subrange(n, n + 2) =~= "::"@);
    assert(value.subrange(m, m + 2) =~= "::"@);
    lemma_value_shape(value, n, m);
    let pointer = pointer_name(package, owner);
    assert(pointer.subrange(n, n + 3) =~= "::*"@);
    lemma_pointer_shape(pointer, n);
    let member = pointer + "::"@ + method;
    assert(member.subrange(n, n + 3) =~= "::*"@);
    lemma_pointer_shape(member, n);
}

/// Whatever a method is called, the name that the pass gives it as one of a pointer has the
/// shape by which the pass knows it again.
pub proof fn law_pointer_members_have_pass_shape(
    package: Seq<char>,
    owner: Seq<char>,
    method: Seq<char>,
)
    ensures
        pass_shape(pointer_name(package, owner) + "::"@ + method),
{
    reveal_strlit("::");
    reveal_strlit("::*");
    let n = package.len() as int;
    let member = pointer_name(package, owner) + "::"@ + method;
    assert(member.subrange(n, n + 3) =~= "::*"@);
    lemma_pointer_shape(member, n);
}

/// A node that the pass makes under such a name is one of its own, and is gone once
/// everything that the pass has made was taken back.
pub proof fn law_minted_node_is_taken_back(
    g: GraphView,
    kind: NodeKind,
    short: Seq<char>,
    qn: StringId,
    file: FileId,
)
    requires
        g.strings.wf(),
        g.nodes.len() < u32::MAX,
        kind == NodeKind::Method || kind == NodeKind::Type,
        g.strings.resolve(qn) matches Some(text) && pass_shape(text),
    ensures
        minted(g, kind, short, qn, file).id matches Some(node) ==> {
            let after = minted(g, kind, short, qn, file).g;
            owned(after, node) && live(tombstoned(after).nodes, node) is None
        },
{
    let m = minted(g, kind, short, qn, file);
    if let Some(node) = m.id {
        let entry = NodeEntry {
            qualified_name: Some(qn),
            ..NodeEntry::bare(kind, g.strings.intern_id(short), file)
        };
        law_allocation_is_fresh(g.nodes, entry);
        law_interning_keeps_strings(g.strings, short, qn);
        lemma_free_from(g.nodes, 0);
        assert(m.g.metadata.is_synthetic(node));
        assert(owned(m.g, node));
        law_tombstone_leaves_no_owned_node(m.g, node);
    }
}

/// Nodes in order are distinct.
proof fn lemma_in_order_distinct(nodes: Seq<NodeId>)
    ensures
        in_order(nodes).no_duplicates(),
{
    law_sorted_and_deduped_is_strict(nodes);
    let s = in_order(nodes);
    assert forall|i: int, j: int| 0 <= i < s.len() && 0 <= j < s.len() && i != j implies s[i]
        != s[j] by {
        if i < j {
            assert(s[i].ranks_before(s[j]));
        } else {
            assert(s[j].ranks_before(s[i]));
        }
    }
}

/// A run of the pass notes what it has made once under its key.
pub proof fn law_pass_notes_each_key_once(g: GraphView)
    ensures
        promoted(g).idx.wf(),
{
    let outers = embedding_structs(g);
    let gains = gains_of(g, outers);
    lemma_in_order_distinct(outers_of(all_embeddings(g)));
    assert forall|i: int| 0 <= i < gains.len() implies names_once((#[trigger] gains[i]).value)
        && names_once(gains[i].pointer_only) by {
        law_gained_names_are_distinct(g, all_embeddings(g), outers[i]);
    }
    law_keys_are_noted_once(
        MintState { g, idx: LocalView::none(), fresh: Seq::empty(), promoted: 0 },
        outers,
        gains,
    );
}

} // verus!
