//! A later run of the pass does again what the first has done.

use vstd::prelude::*;

use crate::arena::{live, live_kind, next_generation, Slot};
use crate::graph::GraphView;
use crate::ids::NodeId;
use crate::indices::{row_of, IndexRow};
use crate::kinds::{EdgeKind, Language, NodeKind};
use crate::pass_go_method_set::laws::law_gained_methods_are_nodes;
use crate::pass_go_method_set::lookup::type_rank;
use crate::pass_go_method_set::materialise::{surveyed, LocalView, MintState};
use crate::pass_go_method_set::ownership::{all_vacated, owned, owned_nodes, tombstoned};
use crate::pass_go_method_set::promotion::promotions;
use crate::pass_go_method_set::rerun::{
    indexed_truly, law_given_back_ready, law_later_run_implements_function_types_the_same,
    law_later_run_promotes_the_same, lemma_given_back, lemma_later_beyond, lemma_run_beyond,
    lemma_same_qn, lemma_still_known, lemma_text_like, like, ready,
};
use crate::pass_go_method_set::satisfaction::{
    candidate_types, distinct_implements, implements_edges, interface_sets, is_pointer_form, judged,
    pairs_examined, pointer_count, value_count, PairState, PendingImplements, PointerState,
};
use crate::pass_go_method_set::shadow::shadows;
use crate::pass_go_method_set::steady::{
    apart, lemma_candidates_over, over, plain_tail, receiver_text, spelled, spells_type, was_there,
};
use crate::pass_go_method_set::twin_pairs::{
    lemma_rows_stay_settled, lemma_twin_types, lemma_types_extends, peer_implements, settled,
    sources_there, targets_known, twin_judges, twin_pairs,
};
use crate::pass_go_method_set::twin_sets::{lemma_twin_interfaces, runs};
use crate::pass_go_method_set::twin_shadows::{
    called_truly, lemma_twin_shadow_edges, lemma_twin_shadows,
};
use crate::pass_go_method_set::twins::{
    extends, fits, gained_node, gained_nodes, lemma_extends_on, lemma_fits_before,
    lemma_gains_extends, lemma_notes_stay, lemma_peer, lemma_peers_apart, lemma_survey_extends,
    lemma_twin_gains, lemma_twin_rows_with, lemma_twin_survey, peer, rows_settled, twin_edges,
    twin_marks, twin_mints, twin_notes, twin_rows, twin_slots, twins,
};
use crate::pass_go_method_set::undo::{
    adds_implementation, adds_knowably, gains_plainly, is_stand_in, known, lemma_pass_steps, made,
    named_truly, pass_edge, passed, plainly_gained, sound, steps,
};
use crate::pass_go_method_set::{
    after_pass, after_promotion, after_shadows, all_embeddings, embedding_structs, gains_of,
    pass_counts, promoted,
};
use crate::sorting::{
    deduped, law_deduped_keeps_keys, lemma_deduped_mapped, lemma_sorted_contains,
    lemma_sorted_mapped, sorted,
};

verus! {

/// Removing nodes moves the slots that held them on by one generation, and no others.
pub(crate) proof fn lemma_vacated_slots(slots: Seq<Slot>, dead: Seq<NodeId>, n: int)
    ensures
        all_vacated(slots, dead, n).len() == slots.len(),
        forall|i: int|
            0 <= i < slots.len() ==> (#[trigger] all_vacated(slots, dead, n)[i]) == slots[i] || (
            all_vacated(slots, dead, n)[i].entry is None && all_vacated(slots, dead, n)[i].generation
                == next_generation(slots[i].generation)),
    decreases n,
{
    if n > 0 {
        lemma_vacated_slots(slots, dead, n - 1);
        let before = all_vacated(slots, dead, n - 1);
        let x = dead[n - 1];
        if live(before, x) is Some {
            assert(before[x.index as int] == slots[x.index as int]);
        }
    }
}

/// No node that a run makes on `g` has the qualified name of a type that a receiver spells
/// out.
pub open spec fn names_apart(g: GraphView) -> bool {
    forall|x: NodeId, i: int|
        #![trigger live(after_pass(g).nodes, x), spells_type(g, i)]
        made(g, after_pass(g), x) && spells_type(g, i) ==> live(
            after_pass(g).nodes,
            x,
        )->0.qualified_name != spelled(g, i)
}

/// A run on `g`, and one more after it, stay within the limits of the machine.
pub open spec fn roomy(g: GraphView) -> bool {
    &&& forall|i: int|
        0 <= i < g.nodes.len() ==> (#[trigger] g.nodes[i]).generation < u64::MAX - 1
    &&& after_pass(g).nodes.len() < u32::MAX
    &&& after_pass(g).strings.text.len() < 0x8000_0000
}

/// What a run of the pass needs to be repeated.
pub open spec fn repeatable(g: GraphView) -> bool {
    &&& ready(g)
    &&& adds_knowably(g)
    &&& rows_settled(g)
    &&& called_truly(g)
    &&& names_apart(g)
    &&& roomy(g)
}

/// The slots and strings grow up to the end of a run.
pub(crate) proof fn lemma_run_extends(g: GraphView)
    ensures
        ({
            let outers = embedding_structs(g);
            let s = surveyed(g, outers, gains_of(g, outers), outers.len() as int);
            extends(g, s.g) && extends(s.g, promoted(g).g)
        }),
        extends(promoted(g).g, judged(after_shadows(g), promoted(g).idx).st.g),
        extends(g, judged(after_shadows(g), promoted(g).idx).st.g),
        judged(after_shadows(g), promoted(g).idx).st.g.nodes == after_pass(g).nodes,
        judged(after_shadows(g), promoted(g).idx).st.g.strings == after_pass(g).strings,
{
    let outers = embedding_structs(g);
    let gains = gains_of(g, outers);
    let s = surveyed(g, outers, gains, outers.len() as int);
    lemma_survey_extends(g, outers, gains, outers.len() as int);
    let start = MintState { g: s.g, idx: LocalView::none(), fresh: Seq::empty(), promoted: 0 };
    lemma_gains_extends(start, s.metas, gains, s.metas.len() as int);
    let c = after_shadows(g);
    let p = PairState {
        st: PointerState { g: c, forms: Seq::empty(), fresh: Seq::empty() },
        pending: Seq::empty(),
    };
    let types = candidate_types(c);
    lemma_types_extends(c, p, promoted(g).idx, types, interface_sets(c), types.len() as int);
    let j = judged(c, promoted(g).idx).st.g;
    assert(extends(promoted(g).g, j));
    lemma_extends_on(g, s.g, promoted(g).g);
    lemma_extends_on(g, promoted(g).g, j);
}

/// The graph that a run gives back has the slots of the graph on which it has started, and
/// free ones.
proof fn lemma_start_slots(g: GraphView)
    requires
        repeatable(g),
    ensures
        twin_slots(g, tombstoned(after_pass(g)), g, tombstoned(after_pass(g))),
        rows_settled(tombstoned(after_pass(g))),
{
    let a = after_pass(g);
    let t = tombstoned(a);
    lemma_given_back(g);
    lemma_pass_steps(g);
    lemma_run_extends(g);
    let dead = owned_nodes(a, a.nodes.len() as int);
    lemma_vacated_slots(a.nodes, dead, dead.len() as int);
    assert forall|i: int| 0 <= i < t.nodes.len() implies (#[trigger] t.nodes[i]).generation
        < u64::MAX && t.nodes[i].generation >= a.nodes[i].generation by {
        if i < g.nodes.len() {
            assert(a.nodes[i].generation == g.nodes[i].generation);
            assert(g.nodes[i].generation < u64::MAX - 1);
        } else {
            assert(a.nodes[i].generation == 1);
        }
    }
    assert forall|i: int| 0 <= i < g.nodes.len() implies (#[trigger] g.nodes[i]).entry
        == t.nodes[i].entry && g.nodes[i].generation < u64::MAX by {
        let x = NodeId { index: i as u32, generation: g.nodes[i].generation };
        let y = NodeId { index: i as u32, generation: t.nodes[i].generation };
        assert(live(t.nodes, x) == live(g.nodes, x));
        assert(live(t.nodes, y) == live(g.nodes, y));
        assert(g.nodes[i].generation < u64::MAX - 1);
    }
    assert forall|i: int| g.nodes.len() <= i < t.nodes.len() implies (#[trigger]
    t.nodes[i]).entry is None by {
        let y = NodeId { index: i as u32, generation: t.nodes[i].generation };
        assert(live(t.nodes, y) == live(g.nodes, y));
    }
    assert forall|i: int| 0 <= i < t.indices.len() implies live(
        t.nodes,
        (#[trigger] t.indices[i]).node,
    ) is Some || passed(t, t.indices[i].node) by {
        let x = t.indices[i].node;
        let k = x.index as int;
        assert(live(t.nodes, x) == live(g.nodes, x));
        if i < g.indices.len() {
            assert(g.indices[i] == t.indices[i]);
            assert(live(g.nodes, g.indices[i].node) is Some || passed(g, g.indices[i].node));
            if live(g.nodes, x) is None {
                assert(a.nodes[k].generation == g.nodes[k].generation);
                assert(t.nodes[k].generation >= a.nodes[k].generation);
            }
        } else {
            assert(made(g, a, a.indices[i].node));
            assert(t.nodes[k].generation < u64::MAX);
            assert(t.nodes[k] == a.nodes[k] || t.nodes[k].generation == next_generation(
                a.nodes[k].generation,
            ));
        }
    }
}

pub(crate) proof fn lemma_stays_put(g: GraphView, t: GraphView, id: NodeId)
    requires
        like(g, t),
        known(g, g, id),
    ensures
        peer(g, t, id) == id,
{
    assert(live(t.nodes, id) == live(g.nodes, id));
}

/// Before either run has done anything, they have done the same.
pub(crate) proof fn lemma_start(g: GraphView)
    requires
        repeatable(g),
    ensures
        settled(g, tombstoned(after_pass(g))),
        like(g, tombstoned(after_pass(g))),
        ready(tombstoned(after_pass(g))),
{
    let a = after_pass(g);
    let t = tombstoned(a);
    lemma_start_slots(g);
    lemma_given_back(g);
    law_given_back_ready(g);
    lemma_pass_steps(g);
    assert forall|id: NodeId| (#[trigger] live(g.nodes, id)) is Some implies peer(g, t, id) == id by {
        assert(live(t.nodes, id) == live(g.nodes, id));
    }
    assert(twin_marks(g, t, g, t)) by {
        assert forall|id: NodeId| (#[trigger] live(g.nodes, id)) is Some implies t.metadata.is_synthetic(
            peer(g, t, id),
        ) == g.metadata.is_synthetic(id) by {
            assert(peer(g, t, id) == id);
            assert(a.metadata.is_synthetic(id) == g.metadata.is_synthetic(id));
        }
    }
    assert(twin_edges(g, t, g, t)) by {
        assert forall|i: int| 0 <= i < g.edges.edges.len() implies {
            let e = #[trigger] g.edges.edges[i];
            let f = t.edges.edges[i];
            &&& known(g, g, e.source)
            &&& known(g, g, e.target)
            &&& f.source == peer(g, t, e.source)
            &&& f.target == peer(g, t, e.target)
            &&& f.kind == e.kind
            &&& f.file == e.file
        } by {
            let e = g.edges.edges[i];
            assert(known(g, g, g.edges.edges[i].source));
            lemma_stays_put(g, t, e.source);
            lemma_stays_put(g, t, e.target);
        }
    }
    assert forall|i: int| g.indices.len() <= i < t.indices.len() implies live(
        t.nodes,
        (#[trigger] t.indices[i]).node,
    ) is None by {
        let x = t.indices[i].node;
        assert(live(t.nodes, x) == live(g.nodes, x));
    }
}

/// Both runs promote the same.
proof fn lemma_same_promotion(g: GraphView)
    requires
        repeatable(g),
    ensures
        twin_mints(g, tombstoned(after_pass(g)), promoted(g), promoted(tombstoned(after_pass(g)))),
        fits(tombstoned(after_pass(g)), promoted(g).g),
{
    let a = after_pass(g);
    let t = tombstoned(a);
    lemma_start(g);
    lemma_given_back(g);
    lemma_run_extends(g);
    law_later_run_promotes_the_same(g);
    let outers = embedding_structs(g);
    let gains = gains_of(g, outers);
    let n = outers.len() as int;
    let s = surveyed(g, outers, gains, n);
    let u = surveyed(t, outers, gains, n);
    let j = judged(after_shadows(g), promoted(g).idx).st.g;
    assert(j.strings.text =~= t.strings.text.take(t.strings.text.len() as int));
    assert(fits(t, j));
    lemma_fits_before(t, promoted(g).g, j);
    lemma_fits_before(t, s.g, promoted(g).g);
    assert forall|i: int| 0 <= i < outers.len() implies live(t.nodes, #[trigger] outers[i]) == live(
        g.nodes,
        outers[i],
    ) by {}
    lemma_twin_survey(g, t, outers, gains, n);
    let x = MintState { g: s.g, idx: LocalView::none(), fresh: Seq::empty(), promoted: 0 };
    let y = MintState { g: u.g, idx: LocalView::none(), fresh: Seq::empty(), promoted: 0 };
    assert forall|i: int| 0 <= i < gains.len() implies gained_nodes(g, #[trigger] gains[i]) by {
        reveal(gains_plainly);
        assert(plainly_gained(g, outers[i], gains[i]));
        law_gained_methods_are_nodes(g, all_embeddings(g), outers[i]);
        assert forall|k: int| 0 <= k < gains[i].value.len() implies gained_node(
            g,
            #[trigger] gains[i].value[k],
        ) by {
            assert(gains[i].value[k].name.0 < g.strings.text.len());
            assert(live(
                g.nodes,
                promotions(g, all_embeddings(g), outers[i]).value[k].method,
            ) is Some);
        }
        assert forall|k: int| 0 <= k < gains[i].pointer_only.len() implies gained_node(
            g,
            #[trigger] gains[i].pointer_only[k],
        ) by {
            assert(gains[i].pointer_only[k].name.0 < g.strings.text.len());
            assert(live(
                g.nodes,
                promotions(g, all_embeddings(g), outers[i]).pointer_only[k].method,
            ) is Some);
        }
    }
    assert(twin_mints(g, t, x, y));
    lemma_twin_gains(g, t, x, y, s.metas, gains, s.metas.len() as int);
}

/// The names of the nodes that the pass makes have their places in the table too.
pub(crate) proof fn lemma_named_on(g: GraphView, b: GraphView)
    requires
        sound(g),
        steps(g, g, b),
    ensures
        named_truly(b),
{
    assert forall|id: NodeId| (#[trigger] live(b.nodes, id)) is Some implies (live(
        b.nodes,
        id,
    )->0.qualified_name matches Some(q) ==> q.0 < b.strings.text.len()) by {
        if live(g.nodes, id) is Some {
            assert(live(b.nodes, id) == live(g.nodes, id));
        } else {
            assert(made(g, b, id));
            assert(b.qn(id) is Some);
        }
    }
}

/// What the first run has come to is the graph with what the pass adds to it.
proof fn lemma_first_over(g: GraphView, b: GraphView, a: GraphView)
    requires
        repeatable(g),
        a == after_pass(g),
        steps(g, g, b),
        extends(b, a),
        settled(g, tombstoned(a)),
        exists|c: GraphView| twins(g, tombstoned(a), b, c),
    ensures
        over(g, b),
        plain_tail(g, b),
        named_truly(b),
{
    let t = tombstoned(a);
    let c = choose|c: GraphView| twins(g, t, b, c);
    lemma_run_beyond(g, b);
    lemma_pass_steps(g);
    assert forall|i: int| 0 <= i < g.indices.len() implies was_there(
        g,
        b,
        (#[trigger] g.indices[i]).node,
    ) by {
        lemma_rows_stay_settled(g, t, b, c, i);
    }
    assert forall|k: int| g.indices.len() <= k < b.indices.len() implies made(
        g,
        a,
        (#[trigger] b.indices[k]).node,
    ) && live(a.nodes, b.indices[k].node) == live(b.nodes, b.indices[k].node) by {
        assert(made(g, b, b.indices[k].node));
    }
    assert(apart(g, b)) by {
        assert forall|k: int, i: int|
            #![trigger b.indices[k], spells_type(g, i)]
            g.indices.len() <= k < b.indices.len() && spells_type(g, i) implies
            b.indices[k].qualified_name != spelled(g, i) by {
            let x = b.indices[k].node;
            assert(made(g, a, b.indices[k].node));
            assert(live(a.nodes, x)->0.qualified_name != spelled(g, i));
        }
    }
    assert forall|k: int| g.indices.len() <= k < b.indices.len() implies type_rank(
        live_kind(b.nodes, (#[trigger] b.indices[k]).node),
    ) <= 1 by {
        assert(made(g, b, b.indices[k].node));
        assert(owned(b, b.indices[k].node));
    }
    assert forall|i: int|
        g.edges.edges.len() <= i < b.edges.edges.len() && (#[trigger] b.edges.edges[i]).kind
            == EdgeKind::Inherits implies made(g, b, b.edges.edges[i].source) by {
        let e = b.edges.edges[i];
        assert(pass_edge(g, b, b.edges.edges[i].kind, e.source, e.target));
    }
    assert forall|k: int| g.indices.len() <= k < b.indices.len() implies {
        let r = #[trigger] b.indices[k];
        &&& r.kind != NodeKind::Struct
        &&& r.kind != NodeKind::Interface
        &&& r.kind == NodeKind::Type ==> live(b.nodes, r.node) is None || is_pointer_form(b, r.node)
    } by {
        let r = b.indices[k];
        assert(made(g, b, b.indices[k].node));
        assert(owned(b, r.node));
    }
    lemma_named_on(g, b);
}

/// What the later run has come to is the graph with what the pass adds to it.
proof fn lemma_later_over(g: GraphView, t: GraphView, b: GraphView, c: GraphView)
    requires
        sound(g),
        indexed_truly(g),
        settled(g, t),
        ready(t),
        like(g, t),
        rows_apart(g, t),
        steps(t, t, c),
        twins(g, t, b, c),
        over(g, b),
    ensures
        over(g, c),
        plain_tail(g, c),
{
    lemma_run_beyond(t, c);
    lemma_later_beyond(g, t, c);
    assert forall|i: int| 0 <= i < g.indices.len() implies was_there(
        g,
        c,
        (#[trigger] g.indices[i]).node,
    ) by {
        lemma_rows_stay_settled(g, t, b, c, i);
    }
    lemma_later_apart(g, t, b, c);
    lemma_later_tail(g, t, b, c);
    assert forall|i: int|
        g.edges.edges.len() <= i < c.edges.edges.len() && (#[trigger] c.edges.edges[i]).kind
            == EdgeKind::Inherits implies made(g, c, c.edges.edges[i].source) by {
        let e = c.edges.edges[i];
        assert(pass_edge(t, c, c.edges.edges[i].kind, e.source, e.target));
        assert(live(t.nodes, e.source) == live(g.nodes, e.source));
    }
}

/// The rows that `t` has besides those of `g` are such as the pass makes, and bear the name
/// of no type of `g` that a receiver spells out.
pub open spec fn rows_apart(g: GraphView, t: GraphView) -> bool {
    &&& apart(g, t)
    &&& forall|k: int|
        g.indices.len() <= k < t.indices.len() ==> (#[trigger] t.indices[k]).kind
            != NodeKind::Struct && t.indices[k].kind != NodeKind::Interface
}

proof fn lemma_later_apart(g: GraphView, t: GraphView, b: GraphView, c: GraphView)
    requires
        g.indices.is_prefix_of(t.indices),
        rows_apart(g, t),
        twin_rows(g, t, b, c),
        apart(g, b),
    ensures
        apart(g, c),
{
    let shift = t.indices.len() - g.indices.len();
    assert forall|k: int, i: int|
        #![trigger c.indices[k], spells_type(g, i)]
        g.indices.len() <= k < c.indices.len() && spells_type(g, i) implies
        c.indices[k].qualified_name != spelled(g, i) by {
        if k < t.indices.len() {
            assert(c.indices[k] == t.indices[k]);
            assert(t.indices[k].qualified_name != spelled(g, i));
        } else {
            let r = b.indices[k - shift];
            assert(c.indices[k] == (IndexRow { node: peer(g, t, r.node), ..r }));
            assert(r.qualified_name != spelled(g, i));
        }
    }
}

proof fn lemma_later_tail(g: GraphView, t: GraphView, b: GraphView, c: GraphView)
    requires
        settled(g, t),
        rows_apart(g, t),
        steps(t, t, c),
        twins(g, t, b, c),
    ensures
        plain_tail(g, c),
        forall|k: int|
            g.indices.len() <= k < c.indices.len() ==> type_rank(
                live_kind(c.nodes, (#[trigger] c.indices[k]).node),
            ) <= 1,
{
    assert forall|k: int| g.indices.len() <= k < c.indices.len() implies type_rank(
        live_kind(c.nodes, (#[trigger] c.indices[k]).node),
    ) <= 1 by {
        if k < t.indices.len() {
            assert(c.indices[k] == t.indices[k]);
            lemma_rows_stay_settled(g, t, b, c, k);
        } else {
            assert(made(t, c, c.indices[k].node));
            assert(owned(c, c.indices[k].node));
        }
    }
    assert forall|k: int| g.indices.len() <= k < c.indices.len() implies {
        let r = #[trigger] c.indices[k];
        &&& r.kind != NodeKind::Struct
        &&& r.kind != NodeKind::Interface
        &&& r.kind == NodeKind::Type ==> live(c.nodes, r.node) is None || is_pointer_form(c, r.node)
    } by {
        let r = c.indices[k];
        if k < t.indices.len() {
            assert(c.indices[k] == t.indices[k]);
            lemma_rows_stay_settled(g, t, b, c, k);
        } else {
            assert(made(t, c, c.indices[k].node));
            assert(owned(c, r.node));
        }
    }
}

/// The rows that a run leaves behind are such as the pass makes.
proof fn lemma_rows_left(g: GraphView)
    requires
        repeatable(g),
    ensures
        rows_apart(g, tombstoned(after_pass(g))),
{
    let a = after_pass(g);
    let t = tombstoned(a);
    lemma_pass_steps(g);
    assert forall|k: int| g.indices.len() <= k < t.indices.len() implies made(
        g,
        a,
        (#[trigger] t.indices[k]).node,
    ) && t.indices[k] == row_of(t.indices[k].node, live(a.nodes, t.indices[k].node)->0) by {
        assert(made(g, a, a.indices[k].node));
    }
    assert forall|k: int, i: int|
        #![trigger t.indices[k], spells_type(g, i)]
        g.indices.len() <= k < t.indices.len() && spells_type(g, i) implies
        t.indices[k].qualified_name != spelled(g, i) by {
        let x = t.indices[k].node;
        assert(made(g, a, t.indices[k].node));
        assert(live(a.nodes, x)->0.qualified_name != spelled(g, i));
    }
    assert forall|k: int| g.indices.len() <= k < t.indices.len() implies (#[trigger]
    t.indices[k]).kind != NodeKind::Struct && t.indices[k].kind != NodeKind::Interface by {
        assert(made(g, a, t.indices[k].node));
        assert(owned(a, t.indices[k].node));
    }
}

/// What the runs have come to when interfaces are to be satisfied.
proof fn lemma_same_shadows(g: GraphView)
    requires
        repeatable(g),
    ensures
        ({
            let t = tombstoned(after_pass(g));
            let x = promoted(g).idx;
            let y = promoted(t).idx;
            &&& twin_judges(g, t, after_shadows(g), after_shadows(t), x, y)
            &&& plain_tail(g, after_shadows(g))
            &&& plain_tail(g, after_shadows(t))
            &&& shadows(after_promotion(t), y).len() == shadows(after_promotion(g), x).len()
            &&& promoted(t).promoted == promoted(g).promoted
        }),
{
    let a = after_pass(g);
    let t = tombstoned(a);
    let p = promoted(g);
    let q = promoted(t);
    lemma_start(g);
    lemma_given_back(g);
    lemma_same_promotion(g);
    lemma_run_extends(g);
    lemma_pass_steps(g);
    lemma_pass_steps(t);
    lemma_twin_rows_with(g, t, p.g, q.g, p.fresh, q.fresh, p.fresh.len() as int);
    let b = after_promotion(g);
    let c = after_promotion(t);
    assert(twins(g, t, b, c));
    assert(extends(b, a));
    lemma_first_over(g, b, a);
    lemma_rows_left(g);
    lemma_later_over(g, t, b, c);
    assert(twin_notes(g, t, b, p.idx, q.idx)) by {
        lemma_notes_stay(g, t, p.g, b, p.idx, q.idx);
    }
    assert forall|i: int| g.indices.len() <= i < t.indices.len() implies live(
        c.nodes,
        (#[trigger] t.indices[i]).node,
    ) is None by {
        lemma_rows_stay_settled(g, t, b, c, i);
    }
    lemma_twin_shadows(g, t, b, c, p.idx, q.idx);
    let s = shadows(b, p.idx);
    lemma_twin_shadow_edges(g, t, b, c, s, s.len() as int);
    let b1 = after_shadows(g);
    let c1 = after_shadows(t);
    assert(twins(g, t, b1, c1));
    assert(extends(b1, a));
    lemma_first_over(g, b1, a);
    lemma_later_over(g, t, b1, c1);
    lemma_notes_stay(g, t, b, b1, p.idx, q.idx);
    assert forall|i: int| g.indices.len() <= i < t.indices.len() implies live(
        c1.nodes,
        (#[trigger] t.indices[i]).node,
    ) is None by {
        lemma_rows_stay_settled(g, t, b1, c1, i);
    }
}

proof fn lemma_same_counts(g: GraphView, t: GraphView, p: Seq<PendingImplements>, n: int)
    requires
        0 <= n <= p.len(),
    ensures
        ({
            let q = p.map_values(|p: PendingImplements| peer_implements(g, t, p));
            &&& value_count(q, n) == value_count(p, n)
            &&& pointer_count(q, n) == pointer_count(p, n)
        }),
    decreases n,
{
    if n > 0 {
        lemma_same_counts(g, t, p, n - 1);
    }
}

/// Two runs that have come to `b` and `c` hold the same types against the same interfaces.
proof fn lemma_judge_both(
    g: GraphView,
    t: GraphView,
    b: GraphView,
    c: GraphView,
    xi: LocalView,
    yi: LocalView,
)
    requires
        twin_judges(g, t, b, c, xi, yi),
        plain_tail(g, b),
        plain_tail(g, c),
        fits(t, judged(b, xi).st.g),
    ensures
        twin_pairs(g, t, judged(b, xi), judged(c, yi)),
        pairs_examined(c, yi) == pairs_examined(b, xi),
{
    lemma_twin_interfaces(g, t, b, c);
    let interfaces = interface_sets(b);
    let x = PairState {
        st: PointerState { g: b, forms: Seq::empty(), fresh: Seq::empty() },
        pending: Seq::empty(),
    };
    let y = PairState {
        st: PointerState { g: c, forms: Seq::empty(), fresh: Seq::empty() },
        pending: Seq::empty(),
    };
    assert(y.pending =~= x.pending.map_values(|p: PendingImplements| peer_implements(g, t, p)));
    assert(twin_pairs(g, t, x, y));
    lemma_candidates_over(g, b, x, xi, interfaces);
    lemma_candidates_over(g, c, y, yi, interface_sets(c));
    let types = candidate_types(g);
    lemma_twin_types(g, t, b, c, xi, yi, x, y, types, interfaces, types.len() as int);
}

/// Both runs hold the same types against the same interfaces.
pub(crate) proof fn lemma_same_judging(g: GraphView)
    requires
        repeatable(g),
    ensures
        ({
            let t = tombstoned(after_pass(g));
            let x = promoted(g).idx;
            let y = promoted(t).idx;
            &&& twin_pairs(g, t, judged(after_shadows(g), x), judged(after_shadows(t), y))
            &&& pairs_examined(after_shadows(t), y) == pairs_examined(after_shadows(g), x)
        }),
{
    let t = tombstoned(after_pass(g));
    lemma_same_shadows(g);
    lemma_given_back(g);
    lemma_run_extends(g);
    let j = judged(after_shadows(g), promoted(g).idx);
    assert(j.st.g.strings.text =~= t.strings.text.take(t.strings.text.len() as int));
    assert(fits(t, j.st.g));
    lemma_judge_both(
        g,
        t,
        after_shadows(g),
        after_shadows(t),
        promoted(g).idx,
        promoted(t).idx,
    );
}

/// After a run was taken back, a further run does the same again: it counts what the first
/// has counted, and it adds the same implementations, each from the node that stands where
/// that of the first run stood.
pub proof fn law_later_run_does_the_same(g: GraphView)
    requires
        repeatable(g),
    ensures
        ({
            let t = tombstoned(after_pass(g));
            &&& pass_counts(t) == pass_counts(g)
            &&& implements_edges(after_shadows(t), promoted(t).idx) == implements_edges(
                after_shadows(g),
                promoted(g).idx,
            ).map_values(|p: PendingImplements| peer_implements(g, t, p))
        }),
{
    let t = tombstoned(after_pass(g));
    lemma_same_shadows(g);
    lemma_same_judging(g);
    law_later_run_promotes_the_same(g);
    law_later_run_implements_function_types_the_same(g);
    let f = |p: PendingImplements| peer_implements(g, t, p);
    let j = judged(after_shadows(g), promoted(g).idx);
    lemma_sorted_mapped(f, j.pending);
    let s = sorted(j.pending);
    lemma_deduped_mapped(f, s, s.len() as int);
    let e = implements_edges(after_shadows(g), promoted(g).idx);
    lemma_same_counts(g, t, e, e.len() as int);
}

/// Taking back knows again what a later run adds.
pub(crate) proof fn lemma_later_adds_knowably(g: GraphView)
    requires
        repeatable(g),
    ensures
        adds_knowably(tombstoned(after_pass(g))),
{
    let t = tombstoned(after_pass(g));
    lemma_start(g);
    lemma_given_back(g);
    lemma_same_judging(g);
    law_later_run_does_the_same(g);
    law_later_run_implements_function_types_the_same(g);
    let x = judged(after_shadows(g), promoted(g).idx);
    let y = judged(after_shadows(t), promoted(t).idx);
    let types = implements_edges(after_shadows(g), promoted(g).idx);
    let later = implements_edges(after_shadows(t), promoted(t).idx);
    lemma_distinct_ends(g, x.st.g, x.pending);
    assert forall|source: NodeId, target: NodeId| #[trigger]
        adds_implementation(t, source, target) && live(t.nodes, source) is Some implies
        t.files.language(live(t.nodes, source)->0.file) == Some(Language::Go) && !is_stand_in(
        t,
        target,
    ) by {
        reveal(adds_implementation);
        assert(live(t.nodes, source) == live(g.nodes, source));
        assert(live(x.st.g.nodes, source) is Some);
        lemma_peer(g, t, x.st.g, y.st.g, source);
        if exists|i: int|
            0 <= i < later.len() && (#[trigger] later[i]).source == source && later[i].target
                == target {
            let i = choose|i: int|
                0 <= i < later.len() && (#[trigger] later[i]).source == source && later[i].target
                    == target;
            assert(later[i] == peer_implements(g, t, types[i]));
            assert(live(x.st.g.nodes, types[i].source) is Some);
            lemma_peers_apart(g, t, x.st.g, y.st.g, types[i].source, source);
            assert(types[i].source == source && types[i].target == target);
        }
        assert(adds_implementation(g, source, target));
        lemma_same_qn(g, t, target);
    }
}

pub(crate) proof fn lemma_distinct_ends(
    g: GraphView,
    b: GraphView,
    pending: Seq<PendingImplements>,
)
    requires
        sources_there(b, pending),
        targets_known(g, pending),
    ensures
        sources_there(b, distinct_implements(pending)),
        targets_known(g, distinct_implements(pending)),
{
    let s = sorted(pending);
    let r = distinct_implements(pending);
    law_deduped_keeps_keys(s, s.len() as int);
    assert forall|i: int| 0 <= i < r.len() implies live(b.nodes, (#[trigger] r[i]).source) is Some
        && known(g, g, r[i].target) by {
        assert(s.contains(deduped(s, s.len() as int)[i]));
        lemma_sorted_contains(pending, r[i]);
        let k = pending.index_of(r[i]);
        assert(live(b.nodes, pending[k].source) is Some);
        assert(known(g, g, pending[k].target));
    }
}

/// No node that a later run makes has such a name either.
pub(crate) proof fn lemma_later_names_apart(g: GraphView)
    requires
        repeatable(g),
    ensures
        names_apart(tombstoned(after_pass(g))),
{
    let a = after_pass(g);
    let t = tombstoned(a);
    lemma_start(g);
    lemma_same_judging(g);
    lemma_run_extends(g);
    lemma_run_extends(t);
    let d = after_pass(t);
    let b = judged(after_shadows(g), promoted(g).idx).st.g;
    let c = judged(after_shadows(t), promoted(t).idx).st.g;
    assert forall|x: NodeId, i: int|
        #![trigger live(d.nodes, x), spells_type(t, i)]
        made(t, d, x) && spells_type(t, i) implies live(d.nodes, x)->0.qualified_name != spelled(
        t,
        i,
    ) by {
        let k = x.index as int;
        assert(live(t.nodes, x) == live(g.nodes, x));
        lemma_text_like(g, t, receiver_text(t.hints.receiver_calls[i].receiver)->0);
        assert(spells_type(g, i));
        if k >= b.nodes.len() {
            assert(c.nodes[k].entry is None);
        }
        assert(b.nodes[k].entry == c.nodes[k].entry);
        let z = NodeId { index: x.index, generation: b.nodes[k].generation };
        assert(live(b.nodes, z) == live(d.nodes, x));
        if live(g.nodes, z) is Some {
            assert(live(c.nodes, z) == live(g.nodes, z));
        }
        assert(made(g, a, z));
        assert(live(a.nodes, z)->0.qualified_name != spelled(g, i));
    }
}

pub(crate) proof fn lemma_called_like(g: GraphView, t: GraphView)
    requires
        like(g, t),
        called_truly(g),
    ensures
        called_truly(t),
{
    assert forall|i: int| 0 <= i < t.hints.receiver_calls.len() implies known(
        t,
        t,
        (#[trigger] t.hints.receiver_calls[i]).callee_method,
    ) by {
        lemma_still_known(g, t, g.hints.receiver_calls[i].callee_method);
    }
    assert forall|i: int| 0 <= i < t.hints.method_receivers.len() implies known(
        t,
        t,
        (#[trigger] t.hints.method_receivers[i]).method_node,
    ) by {
        lemma_still_known(g, t, g.hints.method_receivers[i].method_node);
    }
}

} // verus!
