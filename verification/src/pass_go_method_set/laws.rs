//! What promotion and implicit satisfaction promise as a whole.

use vstd::prelude::*;

use crate::arena::live;
use crate::graph::GraphView;
use crate::ids::{NodeId, StringId};
use crate::indices::nodes_of_kind;
use crate::kinds::{NodeKind, Receiver};
use crate::pass_go_method_set::lookup::{
    embedded_interfaces, flattened_methods, members_among, methods_of, methods_of_all,
    with_new_names, MethodRef, MAX_INTERFACE_EMBED_DEPTH,
};
use crate::pass_go_method_set::promotion::{
    candidates_from, chained, companion, contends, contributed, contributed_methods,
    contributed_names, embeds_of, enters, first_contender, harvest, harvest_below,
    methods_name, names_of, outcome, outer_harvest, promotions, settled, shallowest,
    Embed, Embedder, Embedding, Outcome, PromotedMethod, CandidateView, MAX_PROMOTION_DEPTH,
};
use crate::sorting::{deduped, law_deduped_keeps_keys, lemma_sorted_contains, sorted};

verus! {

/// Whether `c` may be promoted past the own methods `own`: it shadows none of them
/// and comes from at least one level down.
spec fn eligible(own: Seq<StringId>, c: CandidateView) -> bool {
    !own.contains(c.name) && 1 <= c.depth <= MAX_PROMOTION_DEPTH
}

spec fn all_eligible(own: Seq<StringId>, c: Seq<CandidateView>) -> bool {
    forall|i: int| 0 <= i < c.len() ==> eligible(own, #[trigger] c[i])
}

proof fn lemma_eligible_join(
    own: Seq<StringId>,
    a: Seq<CandidateView>,
    b: Seq<CandidateView>,
)
    requires
        all_eligible(own, a),
        all_eligible(own, b),
    ensures
        all_eligible(own, a + b),
{
    assert forall|i: int| 0 <= i < (a + b).len() implies eligible(own, #[trigger] (a + b)[i]) by {
        if i < a.len() {
            assert((a + b)[i] == a[i]);
        } else {
            assert((a + b)[i] == b[i - a.len()]);
        }
    }
}

proof fn lemma_candidates_eligible(
    x: Embedder,
    methods: Seq<MethodRef>,
    path: Seq<NodeId>,
    depth: int,
    chain: Receiver,
    n: int,
)
    requires
        1 <= depth <= MAX_PROMOTION_DEPTH,
    ensures
        all_eligible(x.own, candidates_from(x, methods, path, depth, chain, n)),
    decreases n,
{
    if n > 0 {
        lemma_candidates_eligible(x, methods, path, depth, chain, n - 1);
    }
}

proof fn lemma_contributed_eligible(
    x: Embedder,
    embeds: Seq<Embed>,
    depth: int,
    chain: Receiver,
    path: Seq<NodeId>,
    n: int,
)
    requires
        0 <= depth < MAX_PROMOTION_DEPTH,
    ensures
        all_eligible(x.own, contributed(x, embeds, depth, chain, path, n)),
    decreases n,
{
    if n > 0 {
        lemma_contributed_eligible(x, embeds, depth, chain, path, n - 1);
        let e = embeds[n - 1];
        if enters(x, e.inner, path) {
            let methods = contributed_methods(x.g, e.inner, x.g.qn(e.inner)->0);
            let c = chained(chain, e.pointerness);
            let on_path = path.push(e.inner);
            let m = methods.len() as int;
            lemma_candidates_eligible(x, methods, on_path, depth + 1, c, m);
            lemma_eligible_join(
                x.own,
                contributed(x, embeds, depth, chain, path, n - 1),
                candidates_from(x, methods, on_path, depth + 1, c, m),
            );
        }
    }
}

proof fn lemma_harvest_eligible(
    x: Embedder,
    cur: NodeId,
    depth: int,
    chain: Receiver,
    path: Seq<NodeId>,
)
    requires
        0 <= depth,
    ensures
        all_eligible(x.own, harvest(x, cur, depth, chain, path).candidates),
    decreases MAX_PROMOTION_DEPTH - depth, 1int, 0int,
{
    if depth < MAX_PROMOTION_DEPTH {
        let embeds = embeds_of(x.embeddings, cur);
        let n = embeds.len() as int;
        lemma_contributed_eligible(x, embeds, depth, chain, path, n);
        lemma_below_eligible(x, embeds, depth, chain, path, n);
        lemma_eligible_join(
            x.own,
            contributed(x, embeds, depth, chain, path, n),
            harvest_below(x, embeds, depth, chain, path, n).candidates,
        );
    }
}

proof fn lemma_below_eligible(
    x: Embedder,
    embeds: Seq<Embed>,
    depth: int,
    chain: Receiver,
    path: Seq<NodeId>,
    n: int,
)
    requires
        0 <= depth,
    ensures
        all_eligible(x.own, harvest_below(x, embeds, depth, chain, path, n).candidates),
    decreases MAX_PROMOTION_DEPTH - depth, 0int, n,
{
    if n > 0 && depth < MAX_PROMOTION_DEPTH {
        lemma_below_eligible(x, embeds, depth, chain, path, n - 1);
        let e = embeds[n - 1];
        if enters(x, e.inner, path) {
            let c = chained(chain, e.pointerness);
            lemma_harvest_eligible(x, e.inner, depth + 1, c, path.push(e.inner));
            lemma_eligible_join(
                x.own,
                harvest(x, e.inner, depth + 1, c, path.push(e.inner)).candidates,
                harvest_below(x, embeds, depth, chain, path, n - 1).candidates,
            );
        }
    }
}

/// Candidate `w` is the only one to contribute its name as near to the outer struct
/// as it does: no other comes from less far, and those that come from as far come
/// over the same path.
pub open spec fn prevails(c: Seq<CandidateView>, w: int) -> bool {
    0 <= w < c.len() && forall|j: int|
        0 <= j < c.len() && (#[trigger] c[j]).name == c[w].name ==> c[w].depth <= c[j].depth && (
        c[j].depth == c[w].depth ==> c[j].path == c[w].path)
}

/// `m` is a method that some candidate prevails with.
pub open spec fn prevailing(c: Seq<CandidateView>, m: PromotedMethod) -> bool {
    exists|w: int| #[trigger] prevails(c, w) && c[w].name == m.name && c[w].defining_method == m.method
}

pub(crate) proof fn lemma_shallowest(c: Seq<CandidateView>, name: StringId, n: int)
    requires
        0 <= n <= c.len(),
    ensures
        shallowest(c, name, n) is None ==> forall|j: int| 0 <= j < n ==> (#[trigger] c[j]).name != name,
        shallowest(c, name, n) matches Some(d) ==> forall|j: int|
            0 <= j < n && (#[trigger] c[j]).name == name ==> d <= c[j].depth,
    decreases n,
{
    if n > 0 {
        lemma_shallowest(c, name, n - 1);
    }
}

pub(crate) proof fn lemma_first_contender(c: Seq<CandidateView>, name: StringId, depth: u8, i: int)
    requires
        0 <= i,
    ensures
        first_contender(c, name, depth, i) matches Some(w) ==> contends(c, name, depth, w),
    decreases c.len() - i,
{
    if i < c.len() && !contends(c, name, depth, i) {
        lemma_first_contender(c, name, depth, i + 1);
    }
}

proof fn lemma_outcome(c: Seq<CandidateView>, name: StringId)
    ensures
        outcome(c, name) matches Outcome::Value(m) ==> prevailing(
            c,
            (PromotedMethod { name, method: m }),
        ),
        outcome(c, name) matches Outcome::PointerOnly(m) ==> prevailing(
            c,
            (PromotedMethod { name, method: m }),
        ),
{
    lemma_shallowest(c, name, c.len() as int);
    if let Some(d) = shallowest(c, name, c.len() as int) {
        lemma_first_contender(c, name, d, 0);
        if let Some(w) = first_contender(c, name, d, 0) {
            if outcome(c, name) is Value || outcome(c, name) is PointerOnly {
                assert forall|j: int|
                    0 <= j < c.len() && (#[trigger] c[j]).name == c[w].name implies c[w].depth
                    <= c[j].depth && (c[j].depth == c[w].depth ==> c[j].path == c[w].path) by {
                    if c[j].depth == d {
                        assert(contends(c, name, d, j));
                    }
                }
                assert(prevails(c, w));
            }
        }
    }
}

pub(crate) proof fn lemma_settled(c: Seq<CandidateView>, names: Seq<StringId>, n: int)
    requires
        0 <= n <= names.len(),
    ensures
        ({
            let v = settled(c, names, n);
            &&& forall|i: int|
                0 <= i < v.value.len() ==> prevailing(c, #[trigger] v.value[i]) && names.take(
                    n,
                ).contains(v.value[i].name) && outcome(c, v.value[i].name) is Value
            &&& forall|i: int|
                0 <= i < v.pointer_only.len() ==> prevailing(c, #[trigger] v.pointer_only[i])
                    && names.take(n).contains(v.pointer_only[i].name) && outcome(
                    c,
                    v.pointer_only[i].name,
                ) is PointerOnly
        }),
    decreases n,
{
    if n > 0 {
        lemma_settled(c, names, n - 1);
        let before = settled(c, names, n - 1);
        let v = settled(c, names, n);
        let name = names[n - 1];
        lemma_outcome(c, name);
        assert(names.take(n)[n - 1] == name);
        assert forall|i: int| 0 <= i < v.value.len() implies prevailing(c, #[trigger] v.value[i])
            && names.take(n).contains(v.value[i].name) && outcome(c, v.value[i].name) is Value by {
            if i < before.value.len() {
                assert(v.value[i] == before.value[i]);
                let k = names.take(n - 1).index_of(v.value[i].name);
                assert(names.take(n)[k] == v.value[i].name);
            }
        }
        assert forall|i: int| 0 <= i < v.pointer_only.len() implies prevailing(
            c,
            #[trigger] v.pointer_only[i],
        ) && names.take(n).contains(v.pointer_only[i].name) && outcome(
            c,
            v.pointer_only[i].name,
        ) is PointerOnly by {
            if i < before.pointer_only.len() {
                assert(v.pointer_only[i] == before.pointer_only[i]);
                let k = names.take(n - 1).index_of(v.pointer_only[i].name);
                assert(names.take(n)[k] == v.pointer_only[i].name);
            }
        }
    }
}

/// The candidates from which `promotions` picks.
pub open spec fn offered(g: GraphView, embeddings: Seq<Embedding>, outer: NodeId) -> Seq<
    CandidateView,
> {
    match g.qn(outer) {
        Some(qn) => outer_harvest(g, embeddings, outer, qn).candidates,
        None => Seq::empty(),
    }
}

/// Whatever a struct gains, nothing that it embeds contributes nearer by, and nothing
/// else contributes as near by: the shallowest method wins and an ambiguous one is
/// not promoted.
pub proof fn law_promoted_method_prevails(
    g: GraphView,
    embeddings: Seq<Embedding>,
    outer: NodeId,
)
    ensures
        forall|i: int|
            0 <= i < promotions(g, embeddings, outer).value.len() ==> prevailing(
                offered(g, embeddings, outer),
                #[trigger] promotions(g, embeddings, outer).value[i],
            ),
        forall|i: int|
            0 <= i < promotions(g, embeddings, outer).pointer_only.len() ==> prevailing(
                offered(g, embeddings, outer),
                #[trigger] promotions(g, embeddings, outer).pointer_only[i],
            ),
{
    if let Some(qn) = g.qn(outer) {
        let c = outer_harvest(g, embeddings, outer, qn).candidates;
        let names = contributed_names(c, c.len() as int);
        lemma_settled(c, names, names.len() as int);
    }
}

/// A method of a struct's own is never replaced by a promoted one.
pub proof fn law_own_method_is_not_promoted(
    g: GraphView,
    embeddings: Seq<Embedding>,
    outer: NodeId,
    qn: Seq<char>,
)
    requires
        g.qn(outer) == Some(qn),
    ensures
        forall|i: int|
            0 <= i < promotions(g, embeddings, outer).value.len() ==> !names_of(
                methods_of(g, qn),
            ).contains((#[trigger] promotions(g, embeddings, outer).value[i]).name),
        forall|i: int|
            0 <= i < promotions(g, embeddings, outer).pointer_only.len() ==> !names_of(
                methods_of(g, qn),
            ).contains((#[trigger] promotions(g, embeddings, outer).pointer_only[i]).name),
{
    let own = names_of(methods_of(g, qn));
    let x = Embedder { g, embeddings, own };
    let c = offered(g, embeddings, outer);
    lemma_harvest_eligible(x, outer, 0, Receiver::Value, seq![outer]);
    law_promoted_method_prevails(g, embeddings, outer);
    let p = promotions(g, embeddings, outer);
    assert forall|i: int| 0 <= i < p.value.len() implies !own.contains(
        (#[trigger] p.value[i]).name,
    ) by {
        let w = choose|w: int| #[trigger]
            prevails(c, w) && c[w].name == p.value[i].name && c[w].defining_method
                == p.value[i].method;
        assert(prevailing(c, p.value[i]));
        assert(eligible(own, c[w]));
    }
    assert forall|i: int| 0 <= i < p.pointer_only.len() implies !own.contains(
        (#[trigger] p.pointer_only[i]).name,
    ) by {
        let w = choose|w: int| #[trigger]
            prevails(c, w) && c[w].name == p.pointer_only[i].name && c[w].defining_method
                == p.pointer_only[i].method;
        assert(prevailing(c, p.pointer_only[i]));
        assert(eligible(own, c[w]));
    }
}

/// A name is promoted to the struct or to the pointer to it, never to both.
pub proof fn law_promoted_once(g: GraphView, embeddings: Seq<Embedding>, outer: NodeId)
    ensures
        forall|i: int, j: int|
            #![trigger promotions(g, embeddings, outer).value[i], promotions(
                g,
                embeddings,
                outer,
            ).pointer_only[j]]
            0 <= i < promotions(g, embeddings, outer).value.len() && 0 <= j < promotions(
                g,
                embeddings,
                outer,
            ).pointer_only.len() ==> promotions(g, embeddings, outer).value[i].name != promotions(
                g,
                embeddings,
                outer,
            ).pointer_only[j].name,
{
    if let Some(qn) = g.qn(outer) {
        let c = outer_harvest(g, embeddings, outer, qn).candidates;
        let names = contributed_names(c, c.len() as int);
        lemma_settled(c, names, names.len() as int);
        let p = settled(c, names, names.len() as int);
        assert(p == promotions(g, embeddings, outer));
        assert forall|i: int, j: int|
            #![trigger p.value[i], p.pointer_only[j]]
            0 <= i < p.value.len() && 0 <= j < p.pointer_only.len() implies p.value[i].name
            != p.pointer_only[j].name by {
            assert(outcome(c, p.value[i].name) is Value);
            assert(outcome(c, p.pointer_only[j].name) is PointerOnly);
        }
    }
}

/// The methods are nodes of the graph.
spec fn all_nodes(g: GraphView, methods: Seq<MethodRef>) -> bool {
    forall|i: int| 0 <= i < methods.len() ==> live(g.nodes, (#[trigger] methods[i]).node) is Some
}

/// The candidates are nodes of the graph.
spec fn all_defined(g: GraphView, c: Seq<CandidateView>) -> bool {
    forall|i: int|
        0 <= i < c.len() ==> live(g.nodes, (#[trigger] c[i]).defining_method) is Some
}

proof fn lemma_members_are_nodes(g: GraphView, type_qn: Seq<char>, nodes: Seq<NodeId>, n: int)
    ensures
        all_nodes(g, members_among(g, type_qn, nodes, n)),
    decreases n,
{
    if n > 0 {
        lemma_members_are_nodes(g, type_qn, nodes, n - 1);
    }
}

proof fn lemma_methods_are_nodes(g: GraphView, type_qn: Seq<char>)
    ensures
        all_nodes(g, methods_of(g, type_qn)),
{
    let nodes = nodes_of_kind(g.indices, NodeKind::Method, g.indices.len() as int);
    let found = members_among(g, type_qn, nodes, nodes.len() as int);
    lemma_members_are_nodes(g, type_qn, nodes, nodes.len() as int);
    let s = sorted(found);
    law_deduped_keeps_keys(s, s.len() as int);
    let r = methods_of(g, type_qn);
    assert forall|i: int| 0 <= i < r.len() implies live(g.nodes, (#[trigger] r[i]).node) is Some by {
        assert(s.contains(deduped(s, s.len() as int)[i]));
        lemma_sorted_contains(found, r[i]);
        let k = found.index_of(r[i]);
        assert(live(g.nodes, found[k].node) is Some);
    }
}

proof fn lemma_new_names_are_nodes(
    g: GraphView,
    found: Seq<MethodRef>,
    more: Seq<MethodRef>,
    n: int,
)
    requires
        all_nodes(g, found),
        all_nodes(g, more),
        n <= more.len(),
    ensures
        all_nodes(g, with_new_names(found, more, n)),
    decreases n,
{
    if n > 0 {
        lemma_new_names_are_nodes(g, found, more, n - 1);
        assert(live(g.nodes, more[n - 1].node) is Some);
    }
}

proof fn lemma_all_methods_are_nodes(g: GraphView, types: Seq<NodeId>, n: int)
    ensures
        all_nodes(g, methods_of_all(g, types, n)),
    decreases n,
{
    if n > 0 {
        lemma_all_methods_are_nodes(g, types, n - 1);
        if let Some(qn) = g.qn(types[n - 1]) {
            lemma_methods_are_nodes(g, qn);
            lemma_new_names_are_nodes(
                g,
                methods_of_all(g, types, n - 1),
                methods_of(g, qn),
                methods_of(g, qn).len() as int,
            );
        }
    }
}

proof fn lemma_contributed_are_nodes(g: GraphView, inner: NodeId, own: Seq<char>)
    ensures
        all_nodes(g, contributed_methods(g, inner, own)),
{
    let name = methods_name(g, inner, own);
    match companion(g, inner, name) {
        Some(iface) => {
            let all = embedded_interfaces(g, iface, true, MAX_INTERFACE_EMBED_DEPTH - 1);
            lemma_all_methods_are_nodes(g, all, all.len() as int);
            assert(flattened_methods(g, iface) == methods_of_all(g, all, all.len() as int));
        },
        None => {
            lemma_methods_are_nodes(g, name);
        },
    }
}

proof fn lemma_candidates_are_nodes(
    x: Embedder,
    methods: Seq<MethodRef>,
    path: Seq<NodeId>,
    depth: int,
    chain: Receiver,
    n: int,
)
    requires
        all_nodes(x.g, methods),
        n <= methods.len(),
    ensures
        all_defined(x.g, candidates_from(x, methods, path, depth, chain, n)),
    decreases n,
{
    if n > 0 {
        lemma_candidates_are_nodes(x, methods, path, depth, chain, n - 1);
        assert(live(x.g.nodes, methods[n - 1].node) is Some);
    }
}

proof fn lemma_defined_join(g: GraphView, a: Seq<CandidateView>, b: Seq<CandidateView>)
    requires
        all_defined(g, a),
        all_defined(g, b),
    ensures
        all_defined(g, a + b),
{
    assert forall|i: int| 0 <= i < (a + b).len() implies live(
        g.nodes,
        (#[trigger] (a + b)[i]).defining_method,
    ) is Some by {
        if i < a.len() {
            assert((a + b)[i] == a[i]);
        } else {
            assert((a + b)[i] == b[i - a.len()]);
        }
    }
}

proof fn lemma_contributions_are_nodes(
    x: Embedder,
    embeds: Seq<Embed>,
    depth: int,
    chain: Receiver,
    path: Seq<NodeId>,
    n: int,
)
    ensures
        all_defined(x.g, contributed(x, embeds, depth, chain, path, n)),
    decreases n,
{
    if n > 0 {
        lemma_contributions_are_nodes(x, embeds, depth, chain, path, n - 1);
        let e = embeds[n - 1];
        if enters(x, e.inner, path) {
            let own = x.g.qn(e.inner)->0;
            let methods = contributed_methods(x.g, e.inner, own);
            let on_path = path.push(e.inner);
            let on = chained(chain, e.pointerness);
            let m = methods.len() as int;
            lemma_contributed_are_nodes(x.g, e.inner, own);
            lemma_candidates_are_nodes(x, methods, on_path, depth + 1, on, m);
            lemma_defined_join(
                x.g,
                contributed(x, embeds, depth, chain, path, n - 1),
                candidates_from(x, methods, on_path, depth + 1, on, m),
            );
        }
    }
}

proof fn lemma_harvest_is_of_nodes(
    x: Embedder,
    cur: NodeId,
    depth: int,
    chain: Receiver,
    path: Seq<NodeId>,
)
    ensures
        all_defined(x.g, harvest(x, cur, depth, chain, path).candidates),
    decreases MAX_PROMOTION_DEPTH - depth, 1int, 0int,
{
    if depth < MAX_PROMOTION_DEPTH {
        let embeds = embeds_of(x.embeddings, cur);
        let n = embeds.len() as int;
        lemma_contributions_are_nodes(x, embeds, depth, chain, path, n);
        lemma_below_is_of_nodes(x, embeds, depth, chain, path, n);
        lemma_defined_join(
            x.g,
            contributed(x, embeds, depth, chain, path, n),
            harvest_below(x, embeds, depth, chain, path, n).candidates,
        );
    }
}

proof fn lemma_below_is_of_nodes(
    x: Embedder,
    embeds: Seq<Embed>,
    depth: int,
    chain: Receiver,
    path: Seq<NodeId>,
    n: int,
)
    ensures
        all_defined(x.g, harvest_below(x, embeds, depth, chain, path, n).candidates),
    decreases MAX_PROMOTION_DEPTH - depth, 0int, n,
{
    if n > 0 && depth < MAX_PROMOTION_DEPTH {
        lemma_below_is_of_nodes(x, embeds, depth, chain, path, n - 1);
        let e = embeds[n - 1];
        if enters(x, e.inner, path) {
            let on = chained(chain, e.pointerness);
            lemma_harvest_is_of_nodes(x, e.inner, depth + 1, on, path.push(e.inner));
            lemma_defined_join(
                x.g,
                harvest(x, e.inner, depth + 1, on, path.push(e.inner)).candidates,
                harvest_below(x, embeds, depth, chain, path, n - 1).candidates,
            );
        }
    }
}

proof fn lemma_first_contends(c: Seq<CandidateView>, name: StringId, depth: u8, i: int)
    ensures
        first_contender(c, name, depth, i) matches Some(w) ==> 0 <= w < c.len(),
    decreases c.len() - i,
{
    if 0 <= i < c.len() && !contends(c, name, depth, i) {
        lemma_first_contends(c, name, depth, i + 1);
    }
}

spec fn methods_are_nodes(g: GraphView, s: Seq<PromotedMethod>) -> bool {
    forall|i: int| 0 <= i < s.len() ==> live(g.nodes, (#[trigger] s[i]).method) is Some
}

proof fn lemma_settled_are_nodes(
    g: GraphView,
    c: Seq<CandidateView>,
    names: Seq<StringId>,
    n: int,
)
    requires
        all_defined(g, c),
    ensures
        methods_are_nodes(g, settled(c, names, n).value),
        methods_are_nodes(g, settled(c, names, n).pointer_only),
    decreases n,
{
    if n > 0 {
        lemma_settled_are_nodes(g, c, names, n - 1);
        let name = names[n - 1];
        if let Some(d) = shallowest(c, name, c.len() as int) {
            lemma_first_contends(c, name, d, 0);
            if let Some(w) = first_contender(c, name, d, 0) {
                assert(live(g.nodes, c[w].defining_method) is Some);
            }
        }
    }
}

/// Every method that a struct gains is a node of the graph.
pub proof fn law_gained_methods_are_nodes(g: GraphView, embeddings: Seq<Embedding>, outer: NodeId)
    ensures
        forall|i: int|
            0 <= i < promotions(g, embeddings, outer).value.len() ==> live(
                g.nodes,
                (#[trigger] promotions(g, embeddings, outer).value[i]).method,
            ) is Some,
        forall|i: int|
            0 <= i < promotions(g, embeddings, outer).pointer_only.len() ==> live(
                g.nodes,
                (#[trigger] promotions(g, embeddings, outer).pointer_only[i]).method,
            ) is Some,
{
    if let Some(qn) = g.qn(outer) {
        let x = Embedder { g, embeddings, own: names_of(methods_of(g, qn)) };
        lemma_harvest_is_of_nodes(x, outer, 0, Receiver::Value, seq![outer]);
        let c = outer_harvest(g, embeddings, outer, qn).candidates;
        let names = contributed_names(c, c.len() as int);
        lemma_settled_are_nodes(g, c, names, names.len() as int);
    }
}

} // verus!
