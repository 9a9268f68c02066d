//! What the counts of the pass tell.

use vstd::prelude::*;

use crate::edges::StoreView;
use crate::graph::GraphView;
use crate::ids::NodeId;
use crate::indices::lemma_filter_take;
use crate::pass_go_method_set::function_types::{
    signature_edges, with_signature_edges, PendingSignature,
};
use crate::pass_go_method_set::growth::{law_pass_only_adds, lemma_judged_grows};
use crate::pass_go_method_set::materialise::{
    surveyed, with_anchor, with_gain, with_gains, with_member, with_members, GainView, LocalView,
    MetaView, MintState,
};
use crate::pass_go_method_set::promotion::{counted_up, PromotedMethod};
use crate::pass_go_method_set::satisfaction::{
    implements_edges, judged, pointer_count, value_count, with_implements, PendingImplements,
};
use crate::pass_go_method_set::shadow::{shadows, with_shadow_edges, PendingShadow};
use crate::pass_go_method_set::{
    after_pass, after_promotion, after_satisfaction, after_shadows, embedding_structs, gains_of,
    pass_counts, promoted,
};

verus! {

/// As many promoted methods are counted as are noted, and there is a new node for each of
/// them and for each pointer that is noted.
spec fn counts_right(st: MintState) -> bool {
    &&& st.promoted == counted_up(0, st.idx.value.len() + st.idx.pointer.len())
    &&& st.fresh.len() == st.idx.value.len() + st.idx.pointer.len() + st.idx.pointer_type.len()
}

proof fn lemma_members_counted(
    st: MintState,
    meta: MetaView,
    parent: NodeId,
    base: Seq<char>,
    pointer: bool,
    methods: Seq<PromotedMethod>,
    n: int,
)
    requires
        counts_right(st),
    ensures
        counts_right(with_members(st, meta, parent, base, pointer, methods, n)),
    decreases n,
{
    if n > 0 {
        lemma_members_counted(st, meta, parent, base, pointer, methods, n - 1);
        let b = with_members(st, meta, parent, base, pointer, methods, n - 1);
        let r = with_member(b, meta, parent, base, pointer, methods[n - 1]);
        assert(counts_right(r));
    }
}

proof fn lemma_gain_counted(st: MintState, meta: MetaView, gain: GainView)
    requires
        counts_right(st),
    ensures
        counts_right(with_gain(st, meta, gain)),
{
    let vn = gain.value.len() as int;
    let pn = gain.pointer_only.len() as int;
    if pn == 0 {
        lemma_members_counted(st, meta, meta.outer, meta.qn, false, gain.value, vn);
    } else {
        let a = with_anchor(st, meta);
        assert(counts_right(a.0));
        if let Some(anchor) = a.1 {
            lemma_members_counted(a.0, meta, meta.outer, meta.qn, false, gain.value, vn);
            let b = with_members(a.0, meta, meta.outer, meta.qn, false, gain.value, vn);
            lemma_members_counted(b, meta, anchor, meta.pointer_qn, true, gain.pointer_only, pn);
        }
    }
}

proof fn lemma_gains_counted(st: MintState, metas: Seq<MetaView>, gains: Seq<GainView>, n: int)
    requires
        counts_right(st),
    ensures
        counts_right(with_gains(st, metas, gains, n)),
    decreases n,
{
    if n > 0 {
        lemma_gains_counted(st, metas, gains, n - 1);
        lemma_gain_counted(
            with_gains(st, metas, gains, n - 1),
            metas[n - 1],
            gains[metas[n - 1].at],
        );
    }
}

proof fn lemma_shadows_counted(store: StoreView, pending: Seq<PendingShadow>, n: int)
    requires
        n >= 0,
    ensures
        with_shadow_edges(store, pending, n).edges.len() == store.edges.len() + n,
    decreases n,
{
    if n > 0 {
        lemma_shadows_counted(store, pending, n - 1);
    }
}

proof fn lemma_implements_counted(store: StoreView, pending: Seq<PendingImplements>, n: int)
    requires
        n >= 0,
    ensures
        with_implements(store, pending, n).edges.len() == store.edges.len() + n,
    decreases n,
{
    if n > 0 {
        lemma_implements_counted(store, pending, n - 1);
    }
}

proof fn lemma_signatures_counted(store: StoreView, pending: Seq<PendingSignature>, n: int)
    requires
        n >= 0,
    ensures
        with_signature_edges(store, pending, n).edges.len() == store.edges.len() + n,
    decreases n,
{
    if n > 0 {
        lemma_signatures_counted(store, pending, n - 1);
    }
}

proof fn lemma_pending_counted(p: Seq<PendingImplements>, n: int)
    requires
        0 <= n <= p.len(),
    ensures
        value_count(p, n) == p.take(n).filter(|x: PendingImplements| !x.pointer).len(),
        pointer_count(p, n) == p.take(n).filter(
            |x: PendingImplements| x.pointer && x.pointer_only,
        ).len(),
        value_count(p, n) <= n,
        pointer_count(p, n) <= n,
    decreases n,
{
    let a = |x: PendingImplements| !x.pointer;
    let b = |x: PendingImplements| x.pointer && x.pointer_only;
    if n > 0 {
        lemma_pending_counted(p, n - 1);
        lemma_filter_take(p, a, n);
        lemma_filter_take(p, b, n);
    } else {
        reveal(Seq::filter);
        assert(p.take(0).filter(a).len() == 0);
        assert(p.take(0).filter(b).len() == 0);
    }
}

/// As long as no count runs over, the pass counts what it adds: the edges between the graph
/// with promoted methods and that with their callers, those that are added last for function
/// types, the implementations by types and those by pointers alone, and the methods that it
/// has made.
pub proof fn law_counts_tell_what_was_added(g: GraphView)
    requires
        after_pass(g).edges.edges.len() <= u32::MAX,
        promoted(g).fresh.len() <= u32::MAX,
    ensures
        ({
            let n = pass_counts(g);
            let idx = promoted(g).idx;
            let p = implements_edges(after_shadows(g), idx);
            &&& n.promoted_back_reference_edges == after_shadows(g).edges.edges.len()
                - after_promotion(g).edges.edges.len()
            &&& n.signature_implements_edges == after_pass(g).edges.edges.len()
                - after_satisfaction(g).edges.edges.len()
            &&& n.implements_edges_value == p.filter(|x: PendingImplements| !x.pointer).len()
            &&& n.implements_edges_pointer == p.filter(
                |x: PendingImplements| x.pointer && x.pointer_only,
            ).len()
            &&& n.promoted_method_nodes == idx.value.len() + idx.pointer.len()
            &&& promoted(g).fresh.len() == n.promoted_method_nodes + idx.pointer_type.len()
        }),
{
    let idx = promoted(g).idx;
    let outers = embedding_structs(g);
    let gains = gains_of(g, outers);
    let s = surveyed(g, outers, gains, outers.len() as int);
    let st = MintState { g: s.g, idx: LocalView::none(), fresh: Seq::empty(), promoted: 0 };
    lemma_gains_counted(st, s.metas, gains, s.metas.len() as int);
    let sh = shadows(after_promotion(g), idx);
    lemma_shadows_counted(after_promotion(g).edges, sh, sh.len() as int);
    let h = after_shadows(g);
    let p = implements_edges(h, idx);
    lemma_implements_counted(judged(h, idx).st.g.edges, p, p.len() as int);
    lemma_pending_counted(p, p.len() as int);
    assert(p.take(p.len() as int) =~= p);
    let e = signature_edges(after_satisfaction(g));
    lemma_signatures_counted(after_satisfaction(g).edges, e, e.len() as int);
    law_pass_only_adds(g);
    lemma_judged_grows(h, idx);
}

} // verus!
