//! Which methods a struct gains through the types that it embeds.

use vstd::prelude::*;

use crate::graph::GraphView;
use crate::hints::GoEmbeddingHint;
use crate::ids::{NodeId, StringId};
use crate::kinds::Receiver;
use crate::pass_go_method_set::all_embeddings;
use crate::pass_go_method_set::laws::{
    lemma_first_contender, lemma_settled, lemma_shallowest, prevailing, prevails,
};
use crate::pass_go_method_set::lookup::{methods_of, type_named, MethodRef};
use crate::pass_go_method_set::method_set_laws::{
    declares_method, lemma_methods, lemma_takes_value, takes_value,
};
use crate::pass_go_method_set::promotion::{
    bucket_of_method, candidates_from, chained, contends, contributed, contributed_methods,
    contributed_names, declared_receiver, embeddings_of, embeds_among, embeds_of, enters,
    first_contender, harvest, harvest_below, names_of, outcome, outer_harvest, promotions, settled,
    shallowest, CandidateView, Embed, Embedder, Embedding, PromotedMethod, PromotionBucket,
};
use crate::sorting::{
    deduped, law_deduped_keeps_keys, lemma_place_contains, lemma_sorted_contains, sorted, stands_in,
    Ranked,
};

verus! {

/// `a` embeds the type `b`, as a value or by pointer.
pub open spec fn embeds_type(g: GraphView, a: NodeId, b: NodeId, p: Receiver) -> bool {
    let hints = g.hints.embeddings;
    exists|k: int|
        0 <= k < hints.len() && (#[trigger] hints[k]).outer == a && hints[k].pointerness == p
            && type_named(g, hints[k].inner_qualified_name) == Some(b)
}

/// Step `i` leads from the step before it, or from `outer`, to a type that is embedded there
/// and has not been met on the way.
pub open spec fn steps_down(g: GraphView, outer: NodeId, steps: Seq<Embed>, i: int) -> bool {
    &&& embeds_type(
        g,
        if i == 0 {
            outer
        } else {
            steps[i - 1].inner
        },
        steps[i].inner,
        steps[i].pointerness,
    )
    &&& g.qn(steps[i].inner) is Some
    &&& steps[i].inner != outer
    &&& forall|j: int| 0 <= j < i ==> (#[trigger] steps[j]).inner != steps[i].inner
}

/// `steps` lead from `outer` down through what is embedded, over at most sixteen levels.
pub open spec fn embedding_chain(g: GraphView, outer: NodeId, steps: Seq<Embed>) -> bool {
    &&& 1 <= steps.len() <= 16
    &&& forall|i: int| 0 <= i < steps.len() ==> #[trigger] steps_down(g, outer, steps, i)
}

/// Over `steps`, `outer` comes to a method named `name`, and has none of that name itself.
pub open spec fn comes_to(
    g: GraphView,
    outer: NodeId,
    steps: Seq<Embed>,
    method: NodeId,
    name: StringId,
) -> bool {
    &&& embedding_chain(g, outer, steps)
    &&& contributed_methods(
        g,
        steps[steps.len() - 1].inner,
        g.qn(steps[steps.len() - 1].inner)->0,
    ).contains(MethodRef { name, node: method })
    &&& forall|own: NodeId| !#[trigger] declares_method(g, outer, own, name)
}

/// Over `steps`, a value comes to the method: a pointer is embedded on the way, or the
/// method is one of values.
pub open spec fn by_value(g: GraphView, steps: Seq<Embed>, method: NodeId) -> bool {
    takes_value(g, method) || exists|i: int|
        0 <= i < steps.len() && (#[trigger] steps[i]).pointerness == Receiver::Pointer
}

/// Both lead through the same types.
pub open spec fn same_types(a: Seq<Embed>, b: Seq<Embed>) -> bool {
    a.len() == b.len() && forall|i: int|
        0 <= i < a.len() ==> (#[trigger] a[i]).inner == (#[trigger] b[i]).inner
}

/// No way to a method of that name is shorter than `steps`, and none that is as short leads
/// through other types.
pub open spec fn stands_alone(
    g: GraphView,
    outer: NodeId,
    steps: Seq<Embed>,
    name: StringId,
) -> bool {
    forall|other: Seq<Embed>, method: NodeId| #[trigger]
        comes_to(g, outer, other, method, name) ==> other.len() >= steps.len() && (other.len()
            == steps.len() ==> same_types(other, steps))
}

/// Some way that is as short as `steps` brings a value to a method of that name.
pub open spec fn some_by_value(
    g: GraphView,
    outer: NodeId,
    steps: Seq<Embed>,
    name: StringId,
) -> bool {
    exists|other: Seq<Embed>, method: NodeId| #[trigger]
        comes_to(g, outer, other, method, name) && other.len() == steps.len() && by_value(
            g,
            other,
            method,
        )
}

spec fn inners(steps: Seq<Embed>) -> Seq<NodeId> {
    Seq::new(steps.len(), |i: int| steps[i].inner)
}

spec fn chain_end(chain: Receiver, steps: Seq<Embed>) -> Receiver
    decreases steps.len(),
{
    if steps.len() == 0 {
        chain
    } else {
        chain_end(chained(chain, steps[0].pointerness), steps.drop_first())
    }
}

spec fn walks(x: Embedder, cur: NodeId, path: Seq<NodeId>, steps: Seq<Embed>) -> bool
    decreases steps.len(),
{
    steps.len() == 0 || {
        &&& embeds_of(x.embeddings, cur).contains(steps[0])
        &&& enters(x, steps[0].inner, path)
        &&& walks(x, steps[0].inner, path.push(steps[0].inner), steps.drop_first())
    }
}

spec fn offers_as(
    x: Embedder,
    path: Seq<NodeId>,
    depth: int,
    chain: Receiver,
    steps: Seq<Embed>,
    c: CandidateView,
) -> bool {
    let last = steps[steps.len() - 1].inner;
    &&& contributed_methods(x.g, last, x.g.qn(last)->0).contains(
        MethodRef { name: c.name, node: c.defining_method },
    )
    &&& !x.own.contains(c.name)
    &&& c.path == path + inners(steps)
    &&& c.depth == depth + steps.len()
    &&& c.bucket == bucket_of_method(
        declared_receiver(x.g, c.defining_method),
        chain_end(chain, steps),
    )
}

spec fn found_over(
    x: Embedder,
    cur: NodeId,
    path: Seq<NodeId>,
    depth: int,
    chain: Receiver,
    steps: Seq<Embed>,
    c: CandidateView,
) -> bool {
    &&& 1 <= steps.len()
    &&& depth + steps.len() <= 16
    &&& walks(x, cur, path, steps)
    &&& offers_as(x, path, depth, chain, steps, c)
}

spec fn found(
    x: Embedder,
    cur: NodeId,
    path: Seq<NodeId>,
    depth: int,
    chain: Receiver,
    c: CandidateView,
) -> bool {
    exists|steps: Seq<Embed>| found_over(x, cur, path, depth, chain, steps, c)
}

proof fn lemma_candidates_from(
    x: Embedder,
    methods: Seq<MethodRef>,
    path: Seq<NodeId>,
    depth: int,
    chain: Receiver,
    n: int,
    c: CandidateView,
)
    requires
        0 <= n <= methods.len(),
        0 <= depth <= 16,
    ensures
        candidates_from(x, methods, path, depth, chain, n).contains(c) <==> methods.take(n).contains(
            MethodRef { name: c.name, node: c.defining_method },
        ) && !x.own.contains(c.name) && c.path == path && c.depth == depth && c.bucket
            == bucket_of_method(declared_receiver(x.g, c.defining_method), chain),
    decreases n,
{
    if n > 0 {
        lemma_candidates_from(x, methods, path, depth, chain, n - 1, c);
        let before = candidates_from(x, methods, path, depth, chain, n - 1);
        let after = candidates_from(x, methods, path, depth, chain, n);
        let few = methods.take(n - 1);
        let more = methods.take(n);
        let m = MethodRef { name: c.name, node: c.defining_method };
        if few.contains(m) {
            assert(more[few.index_of(m)] == m);
        }
        assert(more[n - 1] == methods[n - 1]);
        if more.contains(m) && m != methods[n - 1] {
            assert(few[more.index_of(m)] == m);
        }
        if before.contains(c) {
            assert(after[before.index_of(c)] == c);
        }
        if after.contains(c) && !before.contains(c) {
            let i = after.index_of(c);
            if i < before.len() {
                assert(before[i] == c);
            }
        }
        if after.len() > before.len() {
            let last = after[before.len() as int];
            assert(last.depth == depth);
            if m == methods[n - 1] && c.path == path && c.depth == depth && c.bucket
                == bucket_of_method(declared_receiver(x.g, c.defining_method), chain) {
                assert(last == c);
            }
        }
    } else {
        assert(methods.take(0) =~= Seq::empty());
    }
}

proof fn lemma_one_step(
    x: Embedder,
    e: Embed,
    path: Seq<NodeId>,
    depth: int,
    chain: Receiver,
    c: CandidateView,
)
    requires
        0 <= depth < 16,
        enters(x, e.inner, path),
    ensures
        ({
            let methods = contributed_methods(x.g, e.inner, x.g.qn(e.inner)->0);
            candidates_from(
                x,
                methods,
                path.push(e.inner),
                depth + 1,
                chained(chain, e.pointerness),
                methods.len() as int,
            ).contains(c) <==> offers_as(x, path, depth, chain, seq![e], c)
        }),
{
    let methods = contributed_methods(x.g, e.inner, x.g.qn(e.inner)->0);
    lemma_candidates_from(
        x,
        methods,
        path.push(e.inner),
        depth + 1,
        chained(chain, e.pointerness),
        methods.len() as int,
        c,
    );
    assert(methods.take(methods.len() as int) =~= methods);
    assert(path + inners(seq![e]) =~= path.push(e.inner));
    assert(seq![e].drop_first() =~= Seq::empty());
    reveal_with_fuel(chain_end, 2);
}

proof fn lemma_join_contains(a: Seq<CandidateView>, b: Seq<CandidateView>, c: CandidateView)
    ensures
        (a + b).contains(c) <==> a.contains(c) || b.contains(c),
{
    let s = a + b;
    if a.contains(c) {
        assert(s[a.index_of(c)] == c);
    }
    if b.contains(c) {
        assert(s[a.len() + b.index_of(c)] == c);
    }
    if s.contains(c) && !a.contains(c) {
        let i = s.index_of(c);
        if i < a.len() {
            assert(a[i] == c);
        }
        assert(b[i - a.len()] == c);
    }
}

proof fn lemma_contributed(
    x: Embedder,
    embeds: Seq<Embed>,
    depth: int,
    chain: Receiver,
    path: Seq<NodeId>,
    n: int,
    c: CandidateView,
)
    requires
        0 <= n <= embeds.len(),
        0 <= depth < 16,
    ensures
        contributed(x, embeds, depth, chain, path, n).contains(c) <==> exists|i: int|
            0 <= i < n && enters(x, (#[trigger] embeds[i]).inner, path) && offers_as(
                x,
                path,
                depth,
                chain,
                seq![embeds[i]],
                c,
            ),
    decreases n,
{
    if n > 0 {
        lemma_contributed(x, embeds, depth, chain, path, n - 1, c);
        let e = embeds[n - 1];
        if enters(x, e.inner, path) {
            let methods = contributed_methods(x.g, e.inner, x.g.qn(e.inner)->0);
            lemma_one_step(x, e, path, depth, chain, c);
            lemma_join_contains(
                contributed(x, embeds, depth, chain, path, n - 1),
                candidates_from(
                    x,
                    methods,
                    path.push(e.inner),
                    depth + 1,
                    chained(chain, e.pointerness),
                    methods.len() as int,
                ),
                c,
            );
        }
        assert(embeds[n - 1] == e);
    }
}

proof fn lemma_longer(
    x: Embedder,
    cur: NodeId,
    path: Seq<NodeId>,
    depth: int,
    chain: Receiver,
    e: Embed,
    steps: Seq<Embed>,
    c: CandidateView,
)
    requires
        steps.len() >= 1,
        embeds_of(x.embeddings, cur).contains(e),
        enters(x, e.inner, path),
    ensures
        found_over(x, cur, path, depth, chain, seq![e] + steps, c) <==> found_over(
            x,
            e.inner,
            path.push(e.inner),
            depth + 1,
            chained(chain, e.pointerness),
            steps,
            c,
        ),
{
    let all = seq![e] + steps;
    assert(all.drop_first() =~= steps);
    assert(all[0] == e);
    assert(all[all.len() - 1] == steps[steps.len() - 1]);
    assert(path + inners(all) =~= path.push(e.inner) + inners(steps));
    reveal_with_fuel(walks, 2);
    reveal_with_fuel(chain_end, 2);
}

proof fn lemma_harvest(
    x: Embedder,
    cur: NodeId,
    depth: int,
    chain: Receiver,
    path: Seq<NodeId>,
    c: CandidateView,
)
    requires
        0 <= depth <= 16,
    ensures
        harvest(x, cur, depth, chain, path).candidates.contains(c) <==> found(
            x,
            cur,
            path,
            depth,
            chain,
            c,
        ),
    decreases 16 - depth, 1int, 0int,
{
    let embeds = embeds_of(x.embeddings, cur);
    let n = embeds.len() as int;
    if depth < 16 {
        lemma_contributed(x, embeds, depth, chain, path, n, c);
        lemma_below(x, cur, embeds, depth, chain, path, n, c);
        let here = contributed(x, embeds, depth, chain, path, n);
        let deeper = harvest_below(x, embeds, depth, chain, path, n).candidates;
        lemma_join_contains(here, deeper, c);
        if here.contains(c) {
            let i = choose|i: int|
                0 <= i < n && enters(x, (#[trigger] embeds[i]).inner, path) && offers_as(
                    x,
                    path,
                    depth,
                    chain,
                    seq![embeds[i]],
                    c,
                );
            let one = seq![embeds[i]];
            assert(embeds.contains(embeds[i]));
            assert(one.drop_first() =~= Seq::empty());
            reveal_with_fuel(walks, 2);
            assert(found_over(x, cur, path, depth, chain, one, c));
        }
        if deeper.contains(c) {
            let i = choose|i: int|
                0 <= i < n && enters(x, (#[trigger] embeds[i]).inner, path) && found(
                    x,
                    embeds[i].inner,
                    path.push(embeds[i].inner),
                    depth + 1,
                    chained(chain, embeds[i].pointerness),
                    c,
                );
            let steps = lemma_found(
                x,
                embeds[i].inner,
                path.push(embeds[i].inner),
                depth + 1,
                chained(chain, embeds[i].pointerness),
                c,
            );
            assert(embeds.contains(embeds[i]));
            lemma_longer(x, cur, path, depth, chain, embeds[i], steps, c);
            assert(found_over(x, cur, path, depth, chain, seq![embeds[i]] + steps, c));
        }
        if found(x, cur, path, depth, chain, c) {
            let steps = lemma_found(x, cur, path, depth, chain, c);
            let e = steps[0];
            let i = embeds.index_of(e);
            assert(embeds[i] == e);
            if steps.len() == 1 {
                assert(steps =~= seq![e]);
                assert(here.contains(c));
            } else {
                let rest = steps.drop_first();
                assert(steps =~= seq![e] + rest);
                lemma_longer(x, cur, path, depth, chain, e, rest, c);
                lemma_is_found(
                    x,
                    embeds[i].inner,
                    path.push(embeds[i].inner),
                    depth + 1,
                    chained(chain, embeds[i].pointerness),
                    rest,
                    c,
                );
            }
        }
    }
}

proof fn lemma_below(
    x: Embedder,
    cur: NodeId,
    embeds: Seq<Embed>,
    depth: int,
    chain: Receiver,
    path: Seq<NodeId>,
    n: int,
    c: CandidateView,
)
    requires
        0 <= depth < 16,
        0 <= n <= embeds.len(),
    ensures
        harvest_below(x, embeds, depth, chain, path, n).candidates.contains(c) <==> exists|i: int|
            0 <= i < n && enters(x, (#[trigger] embeds[i]).inner, path) && found(
                x,
                embeds[i].inner,
                path.push(embeds[i].inner),
                depth + 1,
                chained(chain, embeds[i].pointerness),
                c,
            ),
    decreases 16 - depth, 0int, n,
{
    if n > 0 {
        lemma_below(x, cur, embeds, depth, chain, path, n - 1, c);
        let rest = harvest_below(x, embeds, depth, chain, path, n - 1).candidates;
        let e = embeds[n - 1];
        if enters(x, e.inner, path) {
            let p = path.push(e.inner);
            let ch = chained(chain, e.pointerness);
            let here = harvest(x, e.inner, depth + 1, ch, p).candidates;
            lemma_harvest(x, e.inner, depth + 1, ch, p, c);
            lemma_join_contains(here, rest, c);
        }
        assert(embeds[n - 1] == e);
    }
}

proof fn lemma_found(
    x: Embedder,
    cur: NodeId,
    path: Seq<NodeId>,
    depth: int,
    chain: Receiver,
    c: CandidateView,
) -> (steps: Seq<Embed>)
    requires
        found(x, cur, path, depth, chain, c),
    ensures
        found_over(x, cur, path, depth, chain, steps, c),
{
    choose|steps: Seq<Embed>| found_over(x, cur, path, depth, chain, steps, c)
}

proof fn lemma_is_found(
    x: Embedder,
    cur: NodeId,
    path: Seq<NodeId>,
    depth: int,
    chain: Receiver,
    steps: Seq<Embed>,
    c: CandidateView,
)
    requires
        found_over(x, cur, path, depth, chain, steps, c),
    ensures
        found(x, cur, path, depth, chain, c),
{
}

proof fn lemma_embeds_among(embeddings: Seq<Embedding>, outer: NodeId, n: int, e: Embed)
    requires
        0 <= n <= embeddings.len(),
    ensures
        embeds_among(embeddings, outer, n).contains(e) <==> exists|k: int|
            0 <= k < n && (#[trigger] embeddings[k]).outer == outer && embeddings[k].inner
                == e.inner && embeddings[k].pointerness == e.pointerness,
    decreases n,
{
    if n > 0 {
        lemma_embeds_among(embeddings, outer, n - 1, e);
        let before = embeds_among(embeddings, outer, n - 1);
        let after = embeds_among(embeddings, outer, n);
        if before.contains(e) {
            assert(after[before.index_of(e)] == e);
        }
        if after.contains(e) && !before.contains(e) {
            let i = after.index_of(e);
            if i < before.len() {
                assert(before[i] == e);
            }
        }
        if after.len() > before.len() {
            let last = embeddings[n - 1];
            assert(after[before.len() as int] == (Embed {
                inner: last.inner,
                pointerness: last.pointerness,
            }));
        }
    }
}

proof fn lemma_embeddings(g: GraphView, hints: Seq<GoEmbeddingHint>, n: int, a: NodeId, e: Embed)
    requires
        0 <= n <= hints.len(),
    ensures
        (exists|k: int|
            0 <= k < embeddings_of(g, hints, n).len() && (#[trigger] embeddings_of(
                g,
                hints,
                n,
            )[k]).outer == a && embeddings_of(g, hints, n)[k].inner == e.inner && embeddings_of(
                g,
                hints,
                n,
            )[k].pointerness == e.pointerness) <==> exists|k: int|
            0 <= k < n && (#[trigger] hints[k]).outer == a && hints[k].pointerness == e.pointerness
                && type_named(g, hints[k].inner_qualified_name) == Some(e.inner),
    decreases n,
{
    if n > 0 {
        lemma_embeddings(g, hints, n - 1, a, e);
        let before = embeddings_of(g, hints, n - 1);
        let after = embeddings_of(g, hints, n);
        let h = hints[n - 1];
        if exists|k: int|
            0 <= k < before.len() && (#[trigger] before[k]).outer == a && before[k].inner == e.inner
                && before[k].pointerness == e.pointerness {
            let k = choose|k: int|
                0 <= k < before.len() && (#[trigger] before[k]).outer == a && before[k].inner
                    == e.inner && before[k].pointerness == e.pointerness;
            assert(after[k] == before[k]);
        }
        if exists|k: int|
            0 <= k < after.len() && (#[trigger] after[k]).outer == a && after[k].inner == e.inner
                && after[k].pointerness == e.pointerness {
            let k = choose|k: int|
                0 <= k < after.len() && (#[trigger] after[k]).outer == a && after[k].inner
                    == e.inner && after[k].pointerness == e.pointerness;
            if k < before.len() {
                assert(before[k].outer == a);
                let j = choose|j: int|
                    0 <= j < n - 1 && (#[trigger] hints[j]).outer == a && hints[j].pointerness
                        == e.pointerness && type_named(g, hints[j].inner_qualified_name) == Some(
                        e.inner,
                    );
                assert(hints[j].outer == a);
            } else {
                assert(hints[n - 1].outer == a);
            }
        }
        if exists|k: int|
            0 <= k < n && (#[trigger] hints[k]).outer == a && hints[k].pointerness == e.pointerness
                && type_named(g, hints[k].inner_qualified_name) == Some(e.inner) {
            let k = choose|k: int|
                0 <= k < n && (#[trigger] hints[k]).outer == a && hints[k].pointerness
                    == e.pointerness && type_named(g, hints[k].inner_qualified_name) == Some(
                    e.inner,
                );
            if k == n - 1 {
                assert(after[before.len() as int].outer == a);
            } else {
                assert(hints[k].outer == a);
                let j = choose|j: int|
                    0 <= j < before.len() && (#[trigger] before[j]).outer == a && before[j].inner
                        == e.inner && before[j].pointerness == e.pointerness;
                assert(after[j] == before[j]);
            }
        }
    }
}

proof fn lemma_embeds(g: GraphView, a: NodeId, e: Embed)
    ensures
        embeds_of(all_embeddings(g), a).contains(e) <==> embeds_type(
            g,
            a,
            e.inner,
            e.pointerness,
        ),
{
    let all = all_embeddings(g);
    let found = embeds_among(all, a, all.len() as int);
    let s = sorted(found);
    let kept = embeds_of(all, a);
    law_deduped_keeps_keys(s, s.len() as int);
    lemma_embeds_among(all, a, all.len() as int, e);
    lemma_embeddings(g, g.hints.embeddings, g.hints.embeddings.len() as int, a, e);
    lemma_sorted_contains(found, e);
    if kept.contains(e) {
        let k = kept.index_of(e);
        assert(s.contains(deduped(s, s.len() as int)[k]));
    }
    if found.contains(e) {
        let i = s.index_of(e);
        assert(stands_in(kept, s[i]));
        if !kept.contains(e) {
            let k = choose|k: int| 0 <= k < kept.len() && (#[trigger] kept[k]).same_rank(e);
            assert(kept[k] == e);
        }
    }
}

/// What a walk from `cur`, which has come over `path`, asks of step `i`.
spec fn walk_step(
    g: GraphView,
    cur: NodeId,
    path: Seq<NodeId>,
    steps: Seq<Embed>,
    i: int,
) -> bool {
    &&& embeds_type(
        g,
        if i == 0 {
            cur
        } else {
            steps[i - 1].inner
        },
        steps[i].inner,
        steps[i].pointerness,
    )
    &&& g.qn(steps[i].inner) is Some
    &&& !path.contains(steps[i].inner)
    &&& forall|j: int| 0 <= j < i ==> (#[trigger] steps[j]).inner != steps[i].inner
}

proof fn lemma_walks(x: Embedder, cur: NodeId, path: Seq<NodeId>, steps: Seq<Embed>)
    requires
        x.embeddings == all_embeddings(x.g),
    ensures
        walks(x, cur, path, steps) <==> forall|i: int|
            0 <= i < steps.len() ==> #[trigger] walk_step(x.g, cur, path, steps, i),
    decreases steps.len(),
{
    if steps.len() > 0 {
        let e = steps[0];
        let rest = steps.drop_first();
        let longer = path.push(e.inner);
        lemma_walks(x, e.inner, longer, rest);
        lemma_embeds(x.g, cur, e);
        assert forall|y: NodeId| #[trigger] longer.contains(y) <==> path.contains(y) || y
            == e.inner by {
            if path.contains(y) {
                assert(longer[path.index_of(y)] == y);
            }
            assert(longer[path.len() as int] == e.inner);
            if longer.contains(y) && y != e.inner {
                assert(path[longer.index_of(y)] == y);
            }
        }
        if walks(x, cur, path, steps) {
            assert forall|i: int| 0 <= i < steps.len() implies #[trigger] walk_step(
                x.g,
                cur,
                path,
                steps,
                i,
            ) by {
                if i > 0 {
                    assert(walk_step(x.g, e.inner, longer, rest, i - 1));
                    assert(rest[i - 1] == steps[i]);
                    assert forall|j: int| 0 <= j < i implies (#[trigger] steps[j]).inner
                        != steps[i].inner by {
                        if j > 0 {
                            assert(rest[j - 1] == steps[j]);
                        }
                    }
                    if i > 1 {
                        assert(rest[i - 2] == steps[i - 1]);
                    }
                }
            }
        }
        if forall|i: int|
            0 <= i < steps.len() ==> #[trigger] walk_step(x.g, cur, path, steps, i) {
            assert(walk_step(x.g, cur, path, steps, 0));
            assert forall|i: int| 0 <= i < rest.len() implies #[trigger] walk_step(
                x.g,
                e.inner,
                longer,
                rest,
                i,
            ) by {
                assert(walk_step(x.g, cur, path, steps, i + 1));
                assert(rest[i] == steps[i + 1]);
                assert(steps[0].inner != steps[i + 1].inner);
                assert forall|j: int| 0 <= j < i implies (#[trigger] rest[j]).inner
                    != rest[i].inner by {
                    assert(rest[j] == steps[j + 1]);
                }
                if i > 0 {
                    assert(rest[i - 1] == steps[i]);
                }
            }
        }
    }
}

proof fn lemma_chain_end(chain: Receiver, steps: Seq<Embed>)
    ensures
        chain_end(chain, steps) == Receiver::Pointer <==> chain == Receiver::Pointer || exists|
            i: int,
        |
            0 <= i < steps.len() && (#[trigger] steps[i]).pointerness == Receiver::Pointer,
    decreases steps.len(),
{
    if steps.len() > 0 {
        let rest = steps.drop_first();
        lemma_chain_end(chained(chain, steps[0].pointerness), rest);
        if exists|i: int|
            0 <= i < steps.len() && (#[trigger] steps[i]).pointerness == Receiver::Pointer {
            let i = choose|i: int|
                0 <= i < steps.len() && (#[trigger] steps[i]).pointerness == Receiver::Pointer;
            if i > 0 {
                assert(rest[i - 1] == steps[i]);
            }
        }
        if exists|i: int|
            0 <= i < rest.len() && (#[trigger] rest[i]).pointerness == Receiver::Pointer {
            let i = choose|i: int|
                0 <= i < rest.len() && (#[trigger] rest[i]).pointerness == Receiver::Pointer;
            assert(steps[i + 1] == rest[i]);
        }
    }
}

spec fn candidates(g: GraphView, outer: NodeId) -> Seq<CandidateView> {
    outer_harvest(g, all_embeddings(g), outer, g.qn(outer)->0).candidates
}

/// The candidate `c` is what `outer` comes to over `steps`.
spec fn candidate_over(
    g: GraphView,
    outer: NodeId,
    steps: Seq<Embed>,
    c: CandidateView,
) -> bool {
    &&& comes_to(g, outer, steps, c.defining_method, c.name)
    &&& c.path == seq![outer] + inners(steps)
    &&& c.depth == steps.len()
    &&& c.bucket == PromotionBucket::Value <==> by_value(g, steps, c.defining_method)
}

proof fn lemma_own(g: GraphView, outer: NodeId, name: StringId)
    requires
        g.qn(outer) is Some,
    ensures
        names_of(methods_of(g, g.qn(outer)->0)).contains(name) <==> exists|own: NodeId| #[trigger]
            declares_method(g, outer, own, name),
{
    let methods = methods_of(g, g.qn(outer)->0);
    let names = names_of(methods);
    if names.contains(name) {
        let i = names.index_of(name);
        let m = methods[i];
        assert(methods.contains(m));
        lemma_methods(g, outer, m);
        assert(declares_method(g, outer, m.node, name));
    }
    if exists|own: NodeId| #[trigger] declares_method(g, outer, own, name) {
        let own = choose|own: NodeId| #[trigger] declares_method(g, outer, own, name);
        let m = MethodRef { name, node: own };
        lemma_methods(g, outer, m);
        let i = methods.index_of(m);
        assert(names[i] == name);
    }
}

proof fn lemma_over(g: GraphView, outer: NodeId, steps: Seq<Embed>, c: CandidateView)
    requires
        g.qn(outer) is Some,
    ensures
        ({
            let x = Embedder {
                g,
                embeddings: all_embeddings(g),
                own: names_of(methods_of(g, g.qn(outer)->0)),
            };
            found_over(x, outer, seq![outer], 0, Receiver::Value, steps, c) <==> candidate_over(
                g,
                outer,
                steps,
                c,
            )
        }),
{
    let x = Embedder {
        g,
        embeddings: all_embeddings(g),
        own: names_of(methods_of(g, g.qn(outer)->0)),
    };
    let path = seq![outer];
    lemma_walks(x, outer, path, steps);
    lemma_own(g, outer, c.name);
    lemma_chain_end(Receiver::Value, steps);
    lemma_takes_value(g, c.defining_method);
    assert forall|y: NodeId| #[trigger] path.contains(y) <==> y == outer by {
        assert(path[0] == outer);
    }
    if steps.len() >= 1 {
        if forall|i: int|
            0 <= i < steps.len() ==> #[trigger] walk_step(g, outer, path, steps, i) {
            assert forall|i: int| 0 <= i < steps.len() implies #[trigger] steps_down(
                g,
                outer,
                steps,
                i,
            ) by {
                assert(walk_step(g, outer, path, steps, i));
            }
        }
        if forall|i: int| 0 <= i < steps.len() ==> #[trigger] steps_down(g, outer, steps, i) {
            assert forall|i: int| 0 <= i < steps.len() implies #[trigger] walk_step(
                g,
                outer,
                path,
                steps,
                i,
            ) by {
                assert(steps_down(g, outer, steps, i));
            }
        }
    }
}

proof fn lemma_candidate(g: GraphView, outer: NodeId, c: CandidateView)
    requires
        g.qn(outer) is Some,
    ensures
        candidates(g, outer).contains(c) <==> exists|steps: Seq<Embed>|
            candidate_over(g, outer, steps, c),
{
    let x = Embedder {
        g,
        embeddings: all_embeddings(g),
        own: names_of(methods_of(g, g.qn(outer)->0)),
    };
    lemma_harvest(x, outer, 0, Receiver::Value, seq![outer], c);
    if candidates(g, outer).contains(c) {
        let steps = lemma_found(x, outer, seq![outer], 0, Receiver::Value, c);
        lemma_over(g, outer, steps, c);
        assert(candidate_over(g, outer, steps, c));
    }
    if exists|steps: Seq<Embed>| candidate_over(g, outer, steps, c) {
        let steps = choose|steps: Seq<Embed>| candidate_over(g, outer, steps, c);
        lemma_over(g, outer, steps, c);
        lemma_is_found(x, outer, seq![outer], 0, Receiver::Value, steps, c);
    }
}

/// The candidate that `outer` comes to over `steps`.
proof fn lemma_candidate_there(
    g: GraphView,
    outer: NodeId,
    steps: Seq<Embed>,
    method: NodeId,
    name: StringId,
) -> (i: int)
    requires
        g.qn(outer) is Some,
        comes_to(g, outer, steps, method, name),
    ensures
        0 <= i < candidates(g, outer).len(),
        candidate_over(g, outer, steps, candidates(g, outer)[i]),
        candidates(g, outer)[i].name == name,
        candidates(g, outer)[i].defining_method == method,
{
    let c = CandidateView {
        name,
        defining_method: method,
        path: seq![outer] + inners(steps),
        depth: steps.len() as u8,
        bucket: if by_value(g, steps, method) {
            PromotionBucket::Value
        } else {
            PromotionBucket::PointerOnly
        },
    };
    assert(candidate_over(g, outer, steps, c));
    lemma_candidate(g, outer, c);
    candidates(g, outer).index_of(c)
}

proof fn lemma_same_path(outer: NodeId, a: Seq<Embed>, b: Seq<Embed>)
    ensures
        seq![outer] + inners(a) == seq![outer] + inners(b) <==> same_types(a, b),
{
    let p = seq![outer] + inners(a);
    let q = seq![outer] + inners(b);
    if p == q {
        assert forall|i: int| 0 <= i < a.len() implies (#[trigger] a[i]).inner == (
        #[trigger] b[i]).inner by {
            assert(p[i + 1] == a[i].inner);
            assert(q[i + 1] == b[i].inner);
        }
    }
    if same_types(a, b) {
        assert(p =~= q) by {
            assert forall|i: int| 0 <= i < p.len() implies p[i] == q[i] by {
                if i > 0 {
                    assert(a[i - 1].inner == b[i - 1].inner);
                }
            }
        }
    }
}

/// What comes of a name among the candidates.
proof fn lemma_outcome_of(c: Seq<CandidateView>, w: int)
    requires
        prevails(c, w),
    ensures
        (exists|j: int|
            0 <= j < c.len() && (#[trigger] c[j]).name == c[w].name && c[j].depth == c[w].depth
                && c[j].bucket == PromotionBucket::Value) ==> outcome(c, c[w].name) is Value,
        (forall|j: int|
            0 <= j < c.len() && (#[trigger] c[j]).name == c[w].name && c[j].depth == c[w].depth
                ==> c[j].bucket == PromotionBucket::PointerOnly) ==> outcome(
            c,
            c[w].name,
        ) is PointerOnly,
{
    let name = c[w].name;
    let n = c.len() as int;
    lemma_shallowest(c, name, n);
    lemma_shallowest_there(c, name, n);
    let d = shallowest(c, name, n)->0;
    assert(d == c[w].depth);
    assert(contends(c, name, d, w));
    lemma_first_there(c, name, d, 0, w);
    let f = first_contender(c, name, d, 0)->0;
    lemma_first_contender(c, name, d, 0);
    assert(contends(c, name, d, f));
    assert forall|j: int| #[trigger] contends(c, name, d, j) implies c[j].path == c[f].path by {
        assert(c[j].path == c[w].path);
        assert(c[f].path == c[w].path);
    }
    if exists|j: int|
        0 <= j < c.len() && (#[trigger] c[j]).name == c[w].name && c[j].depth == c[w].depth
            && c[j].bucket == PromotionBucket::Value {
        let j = choose|j: int|
            0 <= j < c.len() && (#[trigger] c[j]).name == c[w].name && c[j].depth == c[w].depth
                && c[j].bucket == PromotionBucket::Value;
        assert(contends(c, name, d, j));
    }
}

proof fn lemma_shallowest_there(c: Seq<CandidateView>, name: StringId, n: int)
    requires
        0 <= n <= c.len(),
    ensures
        shallowest(c, name, n) matches Some(d) ==> exists|j: int|
            0 <= j < n && (#[trigger] c[j]).name == name && c[j].depth == d,
    decreases n,
{
    if n > 0 {
        lemma_shallowest_there(c, name, n - 1);
        if let Some(d) = shallowest(c, name, n - 1) {
            let j = choose|j: int|
                0 <= j < n - 1 && (#[trigger] c[j]).name == name && c[j].depth == d;
            assert(c[j].depth == d);
        }
        assert(c[n - 1].depth == c[n - 1].depth);
    }
}

proof fn lemma_first_there(c: Seq<CandidateView>, name: StringId, d: u8, i: int, w: int)
    requires
        0 <= i <= w,
        contends(c, name, d, w),
    ensures
        first_contender(c, name, d, i) is Some,
    decreases w - i,
{
    if i < w && !contends(c, name, d, i) {
        lemma_first_there(c, name, d, i + 1, w);
    }
}

proof fn lemma_contributed_names(c: Seq<CandidateView>, n: int, j: int)
    requires
        0 <= j < n <= c.len(),
    ensures
        contributed_names(c, n).contains(c[j].name),
    decreases n,
{
    let before = contributed_names(c, n - 1);
    if j < n - 1 {
        lemma_contributed_names(c, n - 1, j);
    }
    if !before.contains(c[n - 1].name) {
        lemma_place_contains(c[n - 1].name, before, c[j].name);
    }
}

proof fn lemma_settled_there(c: Seq<CandidateView>, names: Seq<StringId>, n: int, k: int)
    requires
        0 <= k < n <= names.len(),
    ensures
        outcome(c, names[k]) is Value ==> exists|i: int|
            0 <= i < settled(c, names, n).value.len() && (#[trigger] settled(
                c,
                names,
                n,
            ).value[i]).name == names[k],
        outcome(c, names[k]) is PointerOnly ==> exists|i: int|
            0 <= i < settled(c, names, n).pointer_only.len() && (#[trigger] settled(
                c,
                names,
                n,
            ).pointer_only[i]).name == names[k],
    decreases n,
{
    let before = settled(c, names, n - 1);
    let after = settled(c, names, n);
    if k < n - 1 {
        lemma_settled_there(c, names, n - 1, k);
        if outcome(c, names[k]) is Value {
            let i = choose|i: int|
                0 <= i < before.value.len() && (#[trigger] before.value[i]).name == names[k];
            assert(after.value[i] == before.value[i]);
        }
        if outcome(c, names[k]) is PointerOnly {
            let i = choose|i: int|
                0 <= i < before.pointer_only.len() && (#[trigger] before.pointer_only[i]).name
                    == names[k];
            assert(after.pointer_only[i] == before.pointer_only[i]);
        }
    } else {
        if outcome(c, names[k]) is Value {
            assert(after.value[before.value.len() as int].name == names[k]);
        }
        if outcome(c, names[k]) is PointerOnly {
            assert(after.pointer_only[before.pointer_only.len() as int].name == names[k]);
        }
    }
}

/// A candidate prevails exactly where its way stands alone.
proof fn lemma_prevails(g: GraphView, outer: NodeId, steps: Seq<Embed>, w: int)
    requires
        g.qn(outer) is Some,
        0 <= w < candidates(g, outer).len(),
        candidate_over(g, outer, steps, candidates(g, outer)[w]),
    ensures
        prevails(candidates(g, outer), w) <==> stands_alone(
            g,
            outer,
            steps,
            candidates(g, outer)[w].name,
        ),
{
    let c = candidates(g, outer);
    let name = c[w].name;
    if prevails(c, w) {
        assert forall|other: Seq<Embed>, method: NodeId| #[trigger]
            comes_to(g, outer, other, method, name) implies other.len() >= steps.len() && (
        other.len() == steps.len() ==> same_types(other, steps)) by {
            let j = lemma_candidate_there(g, outer, other, method, name);
            assert(c[j].name == c[w].name);
            lemma_same_path(outer, other, steps);
        }
    }
    if stands_alone(g, outer, steps, name) {
        assert forall|j: int|
            0 <= j < c.len() && (#[trigger] c[j]).name == c[w].name implies c[w].depth <= c[j].depth
            && (c[j].depth == c[w].depth ==> c[j].path == c[w].path) by {
            assert(c.contains(c[j]));
            lemma_candidate(g, outer, c[j]);
            let other = choose|other: Seq<Embed>| candidate_over(g, outer, other, c[j]);
            assert(comes_to(g, outer, other, c[j].defining_method, name));
            lemma_same_path(outer, other, steps);
        }
    }
}

/// Whatever a struct gains, it comes to over embedded types, and nothing else of that name
/// is as near: the way to it stands alone. It is gained by value exactly when a value comes
/// to it, and by pointer only otherwise.
pub proof fn law_gained_methods_are_come_to(g: GraphView, outer: NodeId, pm: PromotedMethod)
    requires
        g.qn(outer) is Some,
    ensures
        promotions(g, all_embeddings(g), outer).value.contains(pm) ==> exists|steps: Seq<Embed>|
            #[trigger] comes_to(g, outer, steps, pm.method, pm.name) && stands_alone(
                g,
                outer,
                steps,
                pm.name,
            ) && some_by_value(g, outer, steps, pm.name),
        promotions(g, all_embeddings(g), outer).pointer_only.contains(pm) ==> exists|
            steps: Seq<Embed>,
        | #[trigger]
            comes_to(g, outer, steps, pm.method, pm.name) && stands_alone(
                g,
                outer,
                steps,
                pm.name,
            ) && !some_by_value(g, outer, steps, pm.name),
{
    let c = candidates(g, outer);
    let names = contributed_names(c, c.len() as int);
    let p = promotions(g, all_embeddings(g), outer);
    lemma_settled(c, names, names.len() as int);
    if p.value.contains(pm) || p.pointer_only.contains(pm) {
        if p.value.contains(pm) {
            let i = p.value.index_of(pm);
            assert(prevailing(c, p.value[i]));
        } else {
            let i = p.pointer_only.index_of(pm);
            assert(prevailing(c, p.pointer_only[i]));
        }
        let w = choose|w: int| #[trigger]
            prevails(c, w) && c[w].name == pm.name && c[w].defining_method == pm.method;
        assert(c.contains(c[w]));
        lemma_candidate(g, outer, c[w]);
        let steps = choose|steps: Seq<Embed>| candidate_over(g, outer, steps, c[w]);
        lemma_prevails(g, outer, steps, w);
        lemma_outcome_of(c, w);
        lemma_some_by_value(g, outer, steps, w);
        assert(comes_to(g, outer, steps, pm.method, pm.name));
    }
}

proof fn lemma_some_by_value(g: GraphView, outer: NodeId, steps: Seq<Embed>, w: int)
    requires
        g.qn(outer) is Some,
        0 <= w < candidates(g, outer).len(),
        candidate_over(g, outer, steps, candidates(g, outer)[w]),
    ensures
        some_by_value(g, outer, steps, candidates(g, outer)[w].name) <==> exists|j: int|
            0 <= j < candidates(g, outer).len() && (#[trigger] candidates(g, outer)[j]).name
                == candidates(g, outer)[w].name && candidates(g, outer)[j].depth == candidates(
                g,
                outer,
            )[w].depth && candidates(g, outer)[j].bucket == PromotionBucket::Value,
{
    let c = candidates(g, outer);
    let name = c[w].name;
    if some_by_value(g, outer, steps, name) {
        let (other, method) = choose|other: Seq<Embed>, method: NodeId| #[trigger]
            comes_to(g, outer, other, method, name) && other.len() == steps.len() && by_value(
                g,
                other,
                method,
            );
        let j = lemma_candidate_there(g, outer, other, method, name);
        assert(c[j].bucket == PromotionBucket::Value);
    }
    if exists|j: int|
        0 <= j < c.len() && (#[trigger] c[j]).name == name && c[j].depth == c[w].depth
            && c[j].bucket == PromotionBucket::Value {
        let j = choose|j: int|
            0 <= j < c.len() && (#[trigger] c[j]).name == name && c[j].depth == c[w].depth
                && c[j].bucket == PromotionBucket::Value;
        assert(c.contains(c[j]));
        lemma_candidate(g, outer, c[j]);
        let other = choose|other: Seq<Embed>| candidate_over(g, outer, other, c[j]);
        assert(comes_to(g, outer, other, c[j].defining_method, name));
    }
}

/// Whatever a struct comes to over a way that stands alone, it gains: by value where a value
/// comes to it, and by pointer otherwise.
pub proof fn law_what_is_come_to_alone_is_gained(
    g: GraphView,
    outer: NodeId,
    steps: Seq<Embed>,
    method: NodeId,
    name: StringId,
)
    requires
        g.qn(outer) is Some,
        comes_to(g, outer, steps, method, name),
        stands_alone(g, outer, steps, name),
    ensures
        some_by_value(g, outer, steps, name) ==> exists|i: int|
            0 <= i < promotions(g, all_embeddings(g), outer).value.len() && (#[trigger] promotions(
                g,
                all_embeddings(g),
                outer,
            ).value[i]).name == name,
        !some_by_value(g, outer, steps, name) ==> exists|i: int|
            0 <= i < promotions(g, all_embeddings(g), outer).pointer_only.len() && (
            #[trigger] promotions(g, all_embeddings(g), outer).pointer_only[i]).name == name,
{
    let c = candidates(g, outer);
    let n = c.len() as int;
    let names = contributed_names(c, n);
    let w = lemma_candidate_there(g, outer, steps, method, name);
    lemma_prevails(g, outer, steps, w);
    lemma_some_by_value(g, outer, steps, w);
    lemma_outcome_of(c, w);
    lemma_contributed_names(c, n, w);
    let k = names.index_of(name);
    lemma_settled_there(c, names, names.len() as int, k);
    let all = settled(c, names, names.len() as int);
    let p = promotions(g, all_embeddings(g), outer);
    assert(p == all);
    if some_by_value(g, outer, steps, name) {
        assert(outcome(c, name) is Value);
        let i = choose|i: int| 0 <= i < all.value.len() && (#[trigger] all.value[i]).name == name;
        assert(p.value[i].name == name);
    } else {
        assert forall|j: int|
            0 <= j < c.len() && (#[trigger] c[j]).name == c[w].name && c[j].depth
                == c[w].depth implies c[j].bucket == PromotionBucket::PointerOnly by {}
        assert(outcome(c, name) is PointerOnly);
        let i = choose|i: int|
            0 <= i < all.pointer_only.len() && (#[trigger] all.pointer_only[i]).name == name;
        assert(p.pointer_only[i].name == name);
    }
}

} // verus!
