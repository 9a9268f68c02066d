//! However often the pass is run again, the graph comes out the same.

use vstd::multiset::Multiset;
use vstd::prelude::*;

use crate::arena::{live, NodeEntry};
use crate::edges::EdgeView;
use crate::graph::GraphView;
use crate::ids::{FileId, NodeId};
use crate::kinds::EdgeKind;
use crate::pass_go_method_set::function_types::{
    implements_type, signature_edges, with_signature_edges, PendingSignature,
};
use crate::pass_go_method_set::ownership::{owned_nodes, tombstoned};
use crate::pass_go_method_set::repeat::{
    law_later_run_does_the_same, lemma_called_like, lemma_distinct_ends, lemma_later_adds_knowably,
    lemma_later_names_apart, lemma_named_on, lemma_run_extends, lemma_same_judging, lemma_start,
    lemma_stays_put, lemma_vacated_slots, repeatable,
};
use crate::pass_go_method_set::rerun::{
    law_later_run_implements_function_types_the_same, lemma_signature_edges_of_run, like,
};
use crate::pass_go_method_set::satisfaction::{
    implements_edges, judged, with_implements, PendingImplements,
};
use crate::pass_go_method_set::twin_pairs::{peer_implements, sources_there, targets_known};
use crate::pass_go_method_set::twins::{lemma_peer, lemma_twin_edge, lemma_twin_qn, peer, twins};
use crate::pass_go_method_set::undo::{known, lemma_pass_steps, lemma_signatures_fit, named_truly};
use crate::pass_go_method_set::{
    after_pass, after_satisfaction, after_shadows, cleared, pass_counts, promoted, GoMethodSetStats,
};

verus! {

/// What an edge says, by the qualified names of its ends.
pub struct NamedEdge {
    pub source: Option<Seq<char>>,
    pub target: Option<Seq<char>>,
    pub kind: EdgeKind,
    pub file: FileId,
}

/// What the edge `e` of `d` says.
pub open spec fn named_edge(d: GraphView, e: EdgeView) -> NamedEdge {
    NamedEdge { source: d.qn(e.source), target: d.qn(e.target), kind: e.kind, file: e.file }
}

/// What the edges of `d` say, in their order.
pub open spec fn named_edges(d: GraphView) -> Seq<NamedEdge> {
    d.edges.edges.map_values(|e: EdgeView| named_edge(d, e))
}

/// What the implementations among the edges of `d` say, each as often as it is there.
pub open spec fn named_implementations(d: GraphView) -> Multiset<NamedEdge> {
    named_edges(d).filter(|e: NamedEdge| e.kind == EdgeKind::Implements).to_multiset()
}

/// What the slots of `d` hold, in their order.
pub open spec fn entries(d: GraphView) -> Seq<Option<NodeEntry>> {
    Seq::new(d.nodes.len(), |i: int| d.nodes[i].entry)
}

/// The graph that a run on `g` leaves, and `n` further runs after it, each of which first
/// takes back what the one before it has made.
pub open spec fn after_runs(g: GraphView, n: nat) -> GraphView
    decreases n,
{
    if n == 0 {
        after_pass(cleared(g, false))
    } else {
        after_pass(cleared(after_runs(g, (n - 1) as nat), true))
    }
}

/// What the last of these runs counts.
pub open spec fn counts_of_last_run(g: GraphView, n: nat) -> GoMethodSetStats {
    if n == 0 {
        pass_counts(cleared(g, false))
    } else {
        pass_counts(cleared(after_runs(g, (n - 1) as nat), true))
    }
}

/// No slot runs out of generations in `n` further runs.
pub open spec fn lasts(g: GraphView, n: nat) -> bool {
    &&& forall|i: int|
        0 <= i < g.nodes.len() ==> (#[trigger] g.nodes[i]).generation + n < u64::MAX - 1
    &&& n + 1 < u64::MAX - 1
}

proof fn lemma_twin_implements(
    g: GraphView,
    t: GraphView,
    b: GraphView,
    c: GraphView,
    pending: Seq<PendingImplements>,
    n: int,
)
    requires
        twins(g, t, b, c),
        like(g, t),
        sources_there(b, pending),
        targets_known(g, pending),
        0 <= n <= pending.len(),
    ensures
        ({
            let others = pending.map_values(|p: PendingImplements| peer_implements(g, t, p));
            twins(
                g,
                t,
                GraphView { edges: with_implements(b.edges, pending, n), ..b },
                GraphView { edges: with_implements(c.edges, others, n), ..c },
            )
        }),
    decreases n,
{
    let others = pending.map_values(|p: PendingImplements| peer_implements(g, t, p));
    if n > 0 {
        lemma_twin_implements(g, t, b, c, pending, n - 1);
        let p = pending[n - 1];
        let b1 = GraphView { edges: with_implements(b.edges, pending, n - 1), ..b };
        let c1 = GraphView { edges: with_implements(c.edges, others, n - 1), ..c };
        assert(live(b.nodes, pending[n - 1].source) is Some);
        assert(known(g, g, pending[n - 1].target));
        assert(known(g, b1, p.target)) by {
            if live(g.nodes, p.target) is Some {
                assert(live(b.nodes, p.target) is Some);
            }
        }
        lemma_stays_put(g, t, p.target);
        lemma_twin_edge(g, t, b1, c1, p.source, p.target, EdgeKind::Implements, p.file);
        assert(others[n - 1] == peer_implements(g, t, p));
    }
}

proof fn lemma_twin_signatures(
    g: GraphView,
    t: GraphView,
    b: GraphView,
    c: GraphView,
    pending: Seq<PendingSignature>,
    n: int,
)
    requires
        twins(g, t, b, c),
        like(g, t),
        forall|i: int|
            0 <= i < pending.len() ==> live(g.nodes, (#[trigger] pending[i]).source) is Some
                && live(g.nodes, pending[i].target) is Some,
        0 <= n <= pending.len(),
    ensures
        twins(
            g,
            t,
            GraphView { edges: with_signature_edges(b.edges, pending, n), ..b },
            GraphView { edges: with_signature_edges(c.edges, pending, n), ..c },
        ),
    decreases n,
{
    if n > 0 {
        lemma_twin_signatures(g, t, b, c, pending, n - 1);
        let p = pending[n - 1];
        let b1 = GraphView { edges: with_signature_edges(b.edges, pending, n - 1), ..b };
        let c1 = GraphView { edges: with_signature_edges(c.edges, pending, n - 1), ..c };
        assert(live(g.nodes, pending[n - 1].source) is Some);
        assert(live(b.nodes, p.source) is Some && live(b.nodes, p.target) is Some);
        lemma_stays_put(g, t, p.source);
        lemma_stays_put(g, t, p.target);
        lemma_twin_edge(g, t, b1, c1, p.source, p.target, EdgeKind::Implements, p.file);
    }
}

/// What twins hold says the same.
proof fn lemma_twins_agree(g: GraphView, t: GraphView, b: GraphView, c: GraphView)
    requires
        twins(g, t, b, c),
        named_truly(b),
        b.nodes.len() == c.nodes.len(),
    ensures
        named_edges(c) == named_edges(b),
        entries(c) == entries(b),
{
    assert forall|i: int| 0 <= i < b.edges.edges.len() implies named_edges(c)[i] == #[trigger]
    named_edges(b)[i] by {
        let e = b.edges.edges[i];
        assert(known(g, b, b.edges.edges[i].source));
        lemma_name_of_peer(g, t, b, c, e.source);
        lemma_name_of_peer(g, t, b, c, e.target);
    }
    assert(named_edges(c) =~= named_edges(b));
    assert(entries(c) =~= entries(b)) by {
        assert forall|i: int| 0 <= i < b.nodes.len() implies (#[trigger] b.nodes[i]).entry
            == c.nodes[i].entry by {}
    }
}

proof fn lemma_name_of_peer(g: GraphView, t: GraphView, b: GraphView, c: GraphView, x: NodeId)
    requires
        twins(g, t, b, c),
        named_truly(b),
        known(g, b, x),
    ensures
        c.qn(peer(g, t, x)) == b.qn(x),
{
    lemma_peer(g, t, b, c, x);
    if live(b.nodes, x) is Some {
        lemma_twin_qn(g, t, b, c, x);
    } else {
        let i = x.index as int;
        assert(b.nodes[i].generation == g.nodes[i].generation);
        assert(c.nodes[i].generation == t.nodes[i].generation);
    }
}

/// What the signature hints make implement a type was there.
proof fn lemma_signature_ends(g: GraphView)
    ensures
        forall|i: int|
            0 <= i < signature_edges(g).len() ==> live(
                g.nodes,
                (#[trigger] signature_edges(g)[i]).source,
            ) is Some && live(g.nodes, signature_edges(g)[i].target) is Some,
{
    lemma_signatures_fit(g);
    assert forall|i: int| 0 <= i < signature_edges(g).len() implies live(
        g.nodes,
        (#[trigger] signature_edges(g)[i]).source,
    ) is Some && live(g.nodes, signature_edges(g)[i].target) is Some by {
        let p = signature_edges(g)[i];
        assert(implements_type(g, signature_edges(g)[i].source, p.target));
    }
}

/// After a run was taken back, a further run leaves the same graph: every slot holds what
/// it held, every edge says what it said, and the counts are the same.
pub proof fn law_later_run_leaves_the_same_graph(g: GraphView)
    requires
        repeatable(g),
    ensures
        ({
            let a = after_pass(g);
            let t = tombstoned(a);
            &&& pass_counts(t) == pass_counts(g)
            &&& named_edges(after_pass(t)) == named_edges(a)
            &&& entries(after_pass(t)) == entries(a)
            &&& after_pass(t).strings.text == a.strings.text
        }),
{
    let a = after_pass(g);
    let t = tombstoned(a);
    let d = after_pass(t);
    lemma_start(g);
    lemma_same_judging(g);
    law_later_run_does_the_same(g);
    law_later_run_implements_function_types_the_same(g);
    let x = judged(after_shadows(g), promoted(g).idx);
    let y = judged(after_shadows(t), promoted(t).idx);
    let p = implements_edges(after_shadows(g), promoted(g).idx);
    let q = implements_edges(after_shadows(t), promoted(t).idx);
    lemma_distinct_ends(g, x.st.g, x.pending);
    lemma_twin_implements(g, t, x.st.g, y.st.g, p, p.len() as int);
    let b = GraphView { edges: with_implements(x.st.g.edges, p, p.len() as int), ..x.st.g };
    let c = GraphView { edges: with_implements(y.st.g.edges, q, q.len() as int), ..y.st.g };
    lemma_signature_edges_of_run(g);
    lemma_signature_ends(g);
    let s = signature_edges(g);
    lemma_twin_signatures(g, t, b, c, s, s.len() as int);
    let b1 = GraphView { edges: with_signature_edges(b.edges, s, s.len() as int), ..b };
    let c1 = GraphView { edges: with_signature_edges(c.edges, s, s.len() as int), ..c };
    assert(after_satisfaction(g).edges == b.edges);
    assert(after_satisfaction(t).edges == c.edges);
    assert(a.edges == b1.edges && a.nodes == b1.nodes && a.strings == b1.strings);
    assert(d.edges == c1.edges && d.nodes == c1.nodes && d.strings == c1.strings);
    lemma_pass_steps(g);
    lemma_named_on(g, a);
    assert(named_truly(b1)) by {
        assert forall|id: NodeId| (#[trigger] live(b1.nodes, id)) is Some implies (live(
            b1.nodes,
            id,
        )->0.qualified_name matches Some(q) ==> q.0 < b1.strings.text.len()) by {
            assert(live(a.nodes, id) is Some);
        }
    }
    let dead = owned_nodes(a, a.nodes.len() as int);
    lemma_vacated_slots(a.nodes, dead, dead.len() as int);
    lemma_twins_agree(g, t, b1, c1);
    assert(named_edges(a) =~= named_edges(b1));
    assert(named_edges(d) =~= named_edges(c1));
    assert(entries(a) =~= entries(b1));
    assert(entries(d) =~= entries(c1));
}

/// The graph that a run gives back can be run on again, as long as its slots last.
pub proof fn law_given_back_repeatable(g: GraphView)
    requires
        repeatable(g),
        lasts(g, 1),
    ensures
        repeatable(tombstoned(after_pass(g))),
{
    let a = after_pass(g);
    let t = tombstoned(a);
    lemma_start(g);
    lemma_later_adds_knowably(g);
    lemma_later_names_apart(g);
    lemma_called_like(g, t);
    lemma_given_back_lasts(g, 1);
    law_later_run_leaves_the_same_graph(g);
    assert(entries(after_pass(t)).len() == entries(a).len());
}

/// A run costs each slot one generation at most.
proof fn lemma_given_back_lasts(g: GraphView, n: nat)
    requires
        n > 0,
        lasts(g, n),
    ensures
        lasts(tombstoned(after_pass(g)), (n - 1) as nat),
{
    let a = after_pass(g);
    let t = tombstoned(a);
    lemma_run_extends(g);
    let dead = owned_nodes(a, a.nodes.len() as int);
    lemma_vacated_slots(a.nodes, dead, dead.len() as int);
    assert forall|i: int| 0 <= i < t.nodes.len() implies (#[trigger] t.nodes[i]).generation + (n
        - 1) < u64::MAX - 1 by {
        if i < g.nodes.len() {
            assert(a.nodes[i].generation == g.nodes[i].generation);
            assert(g.nodes[i].generation + n < u64::MAX - 1);
        } else {
            assert(a.nodes[i].generation == 1);
        }
    }
}

/// A run that starts on `s` counts and leaves what one that starts on `g` does, and has
/// room for `rest` further ones after it.
#[verifier::opaque]
spec fn starts_alike(g: GraphView, s: GraphView, rest: nat) -> bool {
    &&& repeatable(s)
    &&& lasts(s, rest)
    &&& pass_counts(s) == pass_counts(g)
    &&& named_edges(after_pass(s)) == named_edges(after_pass(g))
    &&& entries(after_pass(s)) == entries(after_pass(g))
}

proof fn lemma_starts_alike_on(g: GraphView, s: GraphView, rest: nat)
    requires
        starts_alike(g, s, rest + 1),
    ensures
        starts_alike(g, tombstoned(after_pass(s)), rest),
{
    reveal(starts_alike);
    assert(lasts(s, 1)) by {
        assert forall|i: int| 0 <= i < s.nodes.len() implies (#[trigger] s.nodes[i]).generation + 1
            < u64::MAX - 1 by {
            assert(s.nodes[i].generation + (rest + 1) < u64::MAX - 1);
        }
    }
    law_given_back_repeatable(s);
    lemma_given_back_lasts(s, rest + 1);
    law_later_run_leaves_the_same_graph(s);
}

proof fn lemma_runs(g: GraphView, n: nat, rest: nat)
    requires
        starts_alike(g, g, n + rest),
    ensures
        n == 0 ==> starts_alike(g, g, rest),
        n > 0 ==> starts_alike(g, tombstoned(after_runs(g, (n - 1) as nat)), rest),
    decreases n,
{
    if n > 0 {
        lemma_runs(g, (n - 1) as nat, rest + 1);
        if n == 1 {
            lemma_starts_alike_on(g, g, rest);
        } else {
            lemma_starts_alike_on(g, tombstoned(after_runs(g, (n - 2) as nat)), rest);
        }
    }
}

/// However many runs follow the first, and whatever files they are told of, each counts
/// what the first has counted and leaves the graph that the first has left: every slot
/// holds what it held, so that no node stands there twice, and every edge says what it said
/// of the same qualified names, so that no edge stands there twice.
pub proof fn law_every_later_run_leaves_the_same_graph(g: GraphView, n: nat)
    requires
        repeatable(g),
        lasts(g, n),
    ensures
        counts_of_last_run(g, n) == counts_of_last_run(g, 0),
        named_implementations(after_runs(g, n)) == named_implementations(after_runs(g, 0)),
        named_edges(after_runs(g, n)) == named_edges(after_runs(g, 0)),
        entries(after_runs(g, n)) == entries(after_runs(g, 0)),
{
    assert(starts_alike(g, g, n + 0)) by {
        reveal(starts_alike);
    }
    lemma_runs(g, n, 0);
    reveal(starts_alike);
}

} // verus!
