//! Which methods a struct gains from the types that it embeds.
use vstd::prelude::*;

use crate::arena::live_kind;
use crate::files::has_node;
use crate::graph::{CodeGraph, GraphView};
use crate::hints::{GoEmbeddingHint, GoMethodReceiverHint};
use crate::ids::{NodeId, StringId};
use crate::kinds::{NodeKind, Receiver};
use crate::pass_go_method_set::lookup::{
    alias_target, find_interface_flattened_methods, find_method_names_of_type, flattened_methods,
    kind_of, methods_of, named, resolve_alias_underlying_qn, resolve_inner_type_node, type_named,
    MethodRef,
};
use crate::sorting::{dedup_neighbours, deduped, place, place_in, sorted, stable_sort, Ranked};

verus! {

/// Levels of struct embedding that are followed.
pub const MAX_PROMOTION_DEPTH: u8 = 16;

/// A resolved embedding: `outer` embeds `inner`.
#[derive(Clone, Copy, Debug, PartialEq, Eq, Structural)]
pub struct Embedding {
    pub outer: NodeId,
    pub inner: NodeId,
    pub pointerness: Receiver,
    /// Levels between the two; zero for an embedding as it is written.
    pub depth: u8,
}

/// The embeddings among the first `n` hints whose inner type is known.
pub open spec fn embeddings_of(g: GraphView, hints: Seq<GoEmbeddingHint>, n: int) -> Seq<Embedding>
    decreases n,
{
    if n <= 0 {
        Seq::empty()
    } else {
        let before = embeddings_of(g, hints, n - 1);
        let h = hints[n - 1];
        match type_named(g, h.inner_qualified_name) {
            Some(inner) => before.push(
                Embedding { outer: h.outer, inner, pointerness: h.pointerness, depth: 0 },
            ),
            None => before,
        }
    }
}

/// The embeddings that the hints name, in hint order; an embedding whose inner type
/// is unknown is dropped.
pub fn collect_embeddings(graph: &CodeGraph) -> (r: Vec<Embedding>)
    ensures
        r@ == embeddings_of(
            graph@,
            graph@.hints.embeddings,
            graph@.hints.embeddings.len() as int,
        ),
{
    let mut out: Vec<Embedding> = Vec::new();
    for i in 0..graph.go_hints.embeddings.len()
        invariant
            out@ == embeddings_of(graph@, graph@.hints.embeddings, i as int),
    {
        let h: GoEmbeddingHint = graph.go_hints.embeddings[i];
        match resolve_inner_type_node(graph, h.inner_qualified_name) {
            Some(inner) => {
                out.push(
                    Embedding { outer: h.outer, inner, pointerness: h.pointerness, depth: 0 },
                );
            },
            None => {},
        }
    }
    out
}

/// One embedded type of a struct.
#[derive(Clone, Copy, Debug, PartialEq, Eq, Structural)]
pub struct Embed {
    pub inner: NodeId,
    pub pointerness: Receiver,
}

/// Values before pointers.
pub open spec fn pointerness_rank(p: Receiver) -> int {
    match p {
        Receiver::Value => 0,
        Receiver::Pointer => 1,
    }
}

fn pointerness_key(p: Receiver) -> (r: u8)
    ensures
        r == pointerness_rank(p),
{
    match p {
        Receiver::Value => 0,
        Receiver::Pointer => 1,
    }
}

/// Embedded types sort by node index, values before pointers.
impl Ranked for Embed {
    open spec fn ranks_before(self, other: Embed) -> bool {
        self.inner.index < other.inner.index || (self.inner.index == other.inner.index
            && pointerness_rank(self.pointerness) < pointerness_rank(other.pointerness))
    }

    open spec fn same_rank(self, other: Embed) -> bool {
        self == other
    }

    fn is_ranked_before(&self, other: &Embed) -> (r: bool) {
        self.inner.index < other.inner.index || (self.inner.index == other.inner.index
            && pointerness_key(self.pointerness) < pointerness_key(other.pointerness))
    }

    fn is_same_rank(&self, other: &Embed) -> (r: bool) {
        *self == *other
    }
}

/// What `outer` embeds, among the first `n` embeddings.
pub open spec fn embeds_among(embeddings: Seq<Embedding>, outer: NodeId, n: int) -> Seq<Embed>
    decreases n,
{
    if n <= 0 {
        Seq::empty()
    } else {
        let before = embeds_among(embeddings, outer, n - 1);
        let e = embeddings[n - 1];
        if e.outer == outer {
            before.push(Embed { inner: e.inner, pointerness: e.pointerness })
        } else {
            before
        }
    }
}

/// What `outer` embeds, by node index, each embedding once.
pub open spec fn embeds_of(embeddings: Seq<Embedding>, outer: NodeId) -> Seq<Embed> {
    let found = sorted(embeds_among(embeddings, outer, embeddings.len() as int));
    deduped(found, found.len() as int)
}

/// What `outer` embeds, by node index, each embedding once.
pub fn build_embedding_adjacency(embeddings: &Vec<Embedding>, outer: NodeId) -> (r: Vec<Embed>)
    ensures
        r@ == embeds_of(embeddings@, outer),
{
    let mut out: Vec<Embed> = Vec::new();
    for i in 0..embeddings.len()
        invariant
            out@ == embeds_among(embeddings@, outer, i as int),
    {
        if embeddings[i].outer == outer {
            out.push(
                Embed { inner: embeddings[i].inner, pointerness: embeddings[i].pointerness },
            );
        }
    }
    let ordered = stable_sort(out);
    dedup_neighbours(&ordered)
}

/// The receiver that the hints declare for `method`: the last of the first `n` that
/// speak of it, a value receiver where none does.
pub open spec fn receiver_of(hints: Seq<GoMethodReceiverHint>, method: NodeId, n: int) -> Receiver
    decreases n,
{
    if n <= 0 {
        Receiver::Value
    } else if hints[n - 1].method_node == method {
        hints[n - 1].receiver_pointerness
    } else {
        receiver_of(hints, method, n - 1)
    }
}

/// The declared receiver of `method`.
pub open spec fn declared_receiver(g: GraphView, method: NodeId) -> Receiver {
    receiver_of(g.hints.method_receivers, method, g.hints.method_receivers.len() as int)
}

/// The declared receiver of `method`; a value receiver where no hint speaks of it.
pub fn find_receiver(graph: &CodeGraph, method: NodeId) -> (r: Receiver)
    ensures
        r == declared_receiver(graph@, method),
{
    let hints = &graph.go_hints.method_receivers;
    let mut i: usize = hints.len();
    while i > 0
        invariant
            hints@ == graph@.hints.method_receivers,
            i <= hints@.len(),
            declared_receiver(graph@, method) == receiver_of(hints@, method, i as int),
        decreases i,
    {
        if hints[i - 1].method_node == method {
            return hints[i - 1].receiver_pointerness;
        }
        i = i - 1;
    }
    Receiver::Value
}

/// Whether a promoted method is in the method set of `S` or of `*S` only.
#[derive(Clone, Copy, Debug, PartialEq, Eq, Structural)]
pub enum PromotionBucket {
    Value,
    PointerOnly,
}

/// A method that an embedded type contributes.
#[derive(Debug)]
pub struct PromotionCandidate {
    pub name: StringId,
    /// The method as it is declared.
    pub defining_method: NodeId,
    /// The types from the outer struct down to the one that contributes it.
    pub path: Vec<NodeId>,
    /// Levels of embedding between the outer struct and that type.
    pub depth: u8,
    pub bucket: PromotionBucket,
}

/// Contents of a candidate.
pub struct CandidateView {
    pub name: StringId,
    pub defining_method: NodeId,
    pub path: Seq<NodeId>,
    pub depth: u8,
    pub bucket: PromotionBucket,
}

impl View for PromotionCandidate {
    type V = CandidateView;

    open spec fn view(&self) -> CandidateView {
        CandidateView {
            name: self.name,
            defining_method: self.defining_method,
            path: self.path@,
            depth: self.depth,
            bucket: self.bucket,
        }
    }
}

/// Contents of candidates.
pub open spec fn candidate_views(s: Seq<PromotionCandidate>) -> Seq<CandidateView> {
    Seq::new(s.len(), |i: int| s[i]@)
}

/// Pointerness of a chain of embeddings: pointer once one of them is.
pub open spec fn chained(chain: Receiver, embed: Receiver) -> Receiver {
    if chain == Receiver::Pointer || embed == Receiver::Pointer {
        Receiver::Pointer
    } else {
        Receiver::Value
    }
}

/// A pointer-receiver method reached by values alone is in the method set of `*S`
/// only; every other method is in that of `S` too.
pub open spec fn bucket_of_method(receiver: Receiver, chain: Receiver) -> PromotionBucket {
    if receiver == Receiver::Pointer && chain == Receiver::Value {
        PromotionBucket::PointerOnly
    } else {
        PromotionBucket::Value
    }
}

/// The first interface at or after position `i` of `nodes`.
pub open spec fn interface_from(g: GraphView, nodes: Seq<NodeId>, i: int) -> Option<NodeId>
    decreases nodes.len() - i,
{
    if i < 0 || i >= nodes.len() {
        None
    } else if live_kind(g.nodes, nodes[i]) == Some(NodeKind::Interface) {
        Some(nodes[i])
    } else {
        interface_from(g, nodes, i + 1)
    }
}

/// The qualified name under which the methods of `inner` stand: that of the type it
/// stands for where it is an alias, else its own.
pub open spec fn methods_name(g: GraphView, inner: NodeId, own: Seq<char>) -> Seq<char> {
    match alias_target(g, inner, own) {
        Some(t) => t,
        None => own,
    }
}

/// The interface whose methods `inner` contributes: itself, or one that shares the
/// name under which its methods stand.
pub open spec fn companion(g: GraphView, inner: NodeId, name: Seq<char>) -> Option<NodeId> {
    if live_kind(g.nodes, inner) == Some(NodeKind::Interface) {
        Some(inner)
    } else {
        match g.strings.get(name) {
            Some(qn) => interface_from(g, named(g, qn), 0),
            None => None,
        }
    }
}

/// The methods that the embedded type `inner`, with qualified name `own`, contributes.
pub open spec fn contributed_methods(g: GraphView, inner: NodeId, own: Seq<char>) -> Seq<
    MethodRef,
> {
    let name = methods_name(g, inner, own);
    match companion(g, inner, name) {
        Some(iface) => flattened_methods(g, iface),
        None => methods_of(g, name),
    }
}

fn find_contributed_methods(graph: &CodeGraph, inner: NodeId, own: &String) -> (r: Vec<MethodRef>)
    requires
        graph.wf(),
    ensures
        r@ == contributed_methods(graph@, inner, own@),
{
    let name: String = match resolve_alias_underlying_qn(graph, inner, own.as_str()) {
        Some(t) => t,
        None => own.clone(),
    };
    assert(name@ == methods_name(graph@, inner, own@));
    if kind_of(&graph.nodes, inner) == Some(NodeKind::Interface) {
        return find_interface_flattened_methods(graph, inner);
    }
    match graph.strings.get(name.as_str()) {
        Some(qn) => {
            let nodes = graph.indices.by_qualified_name(qn);
            for i in 0..nodes.len()
                invariant
                    graph.wf(),
                    name@ == methods_name(graph@, inner, own@),
                    live_kind(graph@.nodes, inner) != Some(NodeKind::Interface),
                    Some(qn) == graph@.strings.get(name@),
                    nodes@ == named(graph@, qn),
                    interface_from(graph@, nodes@, 0) == interface_from(graph@, nodes@, i as int),
            {
                if kind_of(&graph.nodes, nodes[i]) == Some(NodeKind::Interface) {
                    return find_interface_flattened_methods(graph, nodes[i]);
                }
            }
        },
        None => {},
    }
    find_method_names_of_type(graph, name.as_str())
}

/// What a walk over embeddings finds.
pub struct Harvest {
    /// Contributed methods, in the order of the walk.
    pub candidates: Seq<CandidateView>,
    /// How many branches of the walk were cut at the depth limit.
    pub truncated: nat,
}

/// What the walk depends on and does not change.
pub struct Embedder {
    pub g: GraphView,
    pub embeddings: Seq<Embedding>,
    /// Names of the outer struct's own methods.
    pub own: Seq<StringId>,
}

/// The candidates that the first `n` of `methods` make, when the type at the end of `path`
/// contributes them at `depth` over a chain of pointerness `chain`.
pub open spec fn candidates_from(
    x: Embedder,
    methods: Seq<MethodRef>,
    path: Seq<NodeId>,
    depth: int,
    chain: Receiver,
    n: int,
) -> Seq<CandidateView>
    decreases n,
{
    if n <= 0 {
        Seq::empty()
    } else {
        let before = candidates_from(x, methods, path, depth, chain, n - 1);
        let m = methods[n - 1];
        if x.own.contains(m.name) {
            before
        } else {
            before.push(
                CandidateView {
                    name: m.name,
                    defining_method: m.node,
                    path,
                    depth: depth as u8,
                    bucket: bucket_of_method(declared_receiver(x.g, m.node), chain),
                },
            )
        }
    }
}

/// The walk enters `inner` from a path of embeddings: it is not on the path and has
/// a qualified name.
pub open spec fn enters(x: Embedder, inner: NodeId, path: Seq<NodeId>) -> bool {
    !path.contains(inner) && x.g.qn(inner) is Some
}

/// The walk would enter one of `embeds` from `path`.
pub open spec fn goes_on(x: Embedder, embeds: Seq<Embed>, path: Seq<NodeId>) -> bool {
    exists|i: int| 0 <= i < embeds.len() && enters(x, (#[trigger] embeds[i]).inner, path)
}

/// What the first `n` of `embeds` contribute themselves, one level below `depth`.
pub open spec fn contributed(
    x: Embedder,
    embeds: Seq<Embed>,
    depth: int,
    chain: Receiver,
    path: Seq<NodeId>,
    n: int,
) -> Seq<CandidateView>
    decreases n,
{
    if n <= 0 {
        Seq::empty()
    } else {
        let before = contributed(x, embeds, depth, chain, path, n - 1);
        let e = embeds[n - 1];
        if enters(x, e.inner, path) {
            let methods = contributed_methods(x.g, e.inner, x.g.qn(e.inner)->0);
            before + candidates_from(
                x,
                methods,
                path.push(e.inner),
                depth + 1,
                chained(chain, e.pointerness),
                methods.len() as int,
            )
        } else {
            before
        }
    }
}

/// What the walk finds from `cur` on, reached at `depth` over `path`.
pub open spec fn harvest(
    x: Embedder,
    cur: NodeId,
    depth: int,
    chain: Receiver,
    path: Seq<NodeId>,
) -> Harvest
    decreases MAX_PROMOTION_DEPTH - depth, 1int, 0int,
{
    let embeds = embeds_of(x.embeddings, cur);
    if depth >= MAX_PROMOTION_DEPTH {
        Harvest {
            candidates: Seq::empty(),
            truncated: if goes_on(x, embeds, path) {
                1
            } else {
                0
            },
        }
    } else {
        let deeper = harvest_below(x, embeds, depth, chain, path, embeds.len() as int);
        Harvest {
            candidates: contributed(x, embeds, depth, chain, path, embeds.len() as int)
                + deeper.candidates,
            truncated: deeper.truncated,
        }
    }
}

/// What the walk finds below the first `n` of `embeds`, the last of them first.
pub open spec fn harvest_below(
    x: Embedder,
    embeds: Seq<Embed>,
    depth: int,
    chain: Receiver,
    path: Seq<NodeId>,
    n: int,
) -> Harvest
    decreases MAX_PROMOTION_DEPTH - depth, 0int, n,
{
    if n <= 0 || depth >= MAX_PROMOTION_DEPTH {
        Harvest { candidates: Seq::empty(), truncated: 0 }
    } else {
        let rest = harvest_below(x, embeds, depth, chain, path, n - 1);
        let e = embeds[n - 1];
        if enters(x, e.inner, path) {
            let here = harvest(
                x,
                e.inner,
                depth + 1,
                chained(chain, e.pointerness),
                path.push(e.inner),
            );
            Harvest {
                candidates: here.candidates + rest.candidates,
                truncated: here.truncated + rest.truncated,
            }
        } else {
            rest
        }
    }
}

/// `a + n`, at most the largest count.
pub open spec fn counted_up(a: u32, n: nat) -> u32 {
    if a + n > u32::MAX {
        u32::MAX
    } else {
        (a + n) as u32
    }
}

/// Counts `a` up by one, at most to the largest count.
pub fn count_up(a: u32) -> (r: u32)
    ensures
        r == counted_up(a, 1),
{
    if a < u32::MAX {
        a + 1
    } else {
        u32::MAX
    }
}

fn has_string(names: &Vec<StringId>, name: StringId) -> (r: bool)
    ensures
        r == names@.contains(name),
{
    for i in 0..names.len()
        invariant
            forall|j: int| 0 <= j < i ==> names@[j] != name,
    {
        if names[i] == name {
            assert(names@[i as int] == name);
            return true;
        }
    }
    false
}

fn chain_pointerness(chain: Receiver, embed: Receiver) -> (r: Receiver)
    ensures
        r == chained(chain, embed),
{
    if chain == Receiver::Pointer || embed == Receiver::Pointer {
        Receiver::Pointer
    } else {
        Receiver::Value
    }
}

/// The path that leads on from `path` to `inner`.
fn path_on(path: &Vec<NodeId>, inner: NodeId) -> (r: Vec<NodeId>)
    ensures
        r@ == path@.push(inner),
{
    let mut r: Vec<NodeId> = Vec::new();
    for j in 0..path.len()
        invariant
            r@ == path@.take(j as int),
    {
        r.push(path[j]);
        proof {
            assert(path@.take(j + 1) =~= path@.take(j as int).push(path@[j as int]));
        }
    }
    r.push(inner);
    proof {
        assert(r@ =~= path@.push(inner));
    }
    r
}

fn add_candidates(
    graph: &CodeGraph,
    own: &Vec<StringId>,
    methods: &Vec<MethodRef>,
    path: &Vec<NodeId>,
    inner: NodeId,
    depth: u8,
    chain: Receiver,
    out: &mut Vec<PromotionCandidate>,
    Ghost(x): Ghost<Embedder>,
)
    requires
        x.g == graph@,
        x.own == own@,
    ensures
        candidate_views(final(out)@) == candidate_views(old(out)@) + candidates_from(
            x,
            methods@,
            path@.push(inner),
            depth as int,
            chain,
            methods@.len() as int,
        ),
{
    let ghost start = candidate_views(out@);
    proof {
        assert(start + Seq::<CandidateView>::empty() =~= start);
    }
    for i in 0..methods.len()
        invariant
            x.g == graph@,
            x.own == own@,
            candidate_views(out@) == start + candidates_from(
                x,
                methods@,
                path@.push(inner),
                depth as int,
                chain,
                i as int,
            ),
    {
        let m: MethodRef = methods[i];
        if !has_string(own, m.name) {
            let receiver: Receiver = find_receiver(graph, m.node);
            let bucket: PromotionBucket = if receiver == Receiver::Pointer && chain
                == Receiver::Value {
                PromotionBucket::PointerOnly
            } else {
                PromotionBucket::Value
            };
            let ghost before = candidates_from(
                x,
                methods@,
                path@.push(inner),
                depth as int,
                chain,
                i as int,
            );
            let ghost so_far = out@;
            let c = PromotionCandidate {
                name: m.name,
                defining_method: m.node,
                path: path_on(path, inner),
                depth,
                bucket,
            };
            let ghost v = c@;
            out.push(c);
            proof {
                assert(candidate_views(out@) =~= candidate_views(so_far).push(v));
                assert(start + before.push(v) =~= (start + before).push(v));
            }
        }
    }
}

/// Whether the walk would enter one of `embeds` from `path`.
fn would_go_on(
    graph: &CodeGraph,
    embeds: &Vec<Embed>,
    path: &Vec<NodeId>,
    Ghost(x): Ghost<Embedder>,
) -> (r: bool)
    requires
        graph.wf(),
        x.g == graph@,
    ensures
        r == goes_on(x, embeds@, path@),
{
    for i in 0..embeds.len()
        invariant
            graph.wf(),
            x.g == graph@,
            forall|j: int| 0 <= j < i ==> !enters(x, (#[trigger] embeds@[j]).inner, path@),
    {
        let inner: NodeId = embeds[i].inner;
        if !has_node(path, inner) && graph.qualified_name_string(inner).is_some() {
            assert(enters(x, embeds@[i as int].inner, path@));
            return true;
        }
    }
    false
}

/// Walks the embeddings from `cur` on and notes the contributed methods.
fn walk_embeddings(
    graph: &CodeGraph,
    embeddings: &Vec<Embedding>,
    own: &Vec<StringId>,
    cur: NodeId,
    depth: u8,
    chain: Receiver,
    path: &Vec<NodeId>,
    out: &mut Vec<PromotionCandidate>,
    truncated: &mut u32,
    Ghost(x): Ghost<Embedder>,
)
    requires
        graph.wf(),
        x.g == graph@,
        x.own == own@,
        x.embeddings == embeddings@,
        depth <= MAX_PROMOTION_DEPTH,
    ensures
        candidate_views(final(out)@) == candidate_views(old(out)@) + harvest(x, cur, depth as int, chain, path@).candidates,
        *final(truncated) == counted_up(
            *old(truncated),
            harvest(x, cur, depth as int, chain, path@).truncated,
        ),
    decreases MAX_PROMOTION_DEPTH - depth,
{
    let ghost start = candidate_views(out@);
    let ghost t0 = *truncated;
    let embeds = build_embedding_adjacency(embeddings, cur);
    if depth >= MAX_PROMOTION_DEPTH {
        if would_go_on(graph, &embeds, path, Ghost(x)) {
            *truncated = count_up(*truncated);
        }
        proof {
            assert(start + Seq::<CandidateView>::empty() =~= start);
        }
        return ;
    }
    let n: usize = embeds.len();
    proof {
        assert(start + Seq::<CandidateView>::empty() =~= start);
    }
    for i in 0..n
        invariant
            graph.wf(),
            x.g == graph@,
            x.own == own@,
            depth < MAX_PROMOTION_DEPTH,
            n == embeds@.len(),
            *truncated == t0,
            candidate_views(out@) == start + contributed(x, embeds@, depth as int, chain, path@, i as int),
    {
        let e: Embed = embeds[i];
        if !has_node(path, e.inner) {
            match graph.qualified_name_string(e.inner) {
                Some(qn) => {
                    let methods = find_contributed_methods(graph, e.inner, &qn);
                    let ghost before = contributed(
                        x,
                        embeds@,
                        depth as int,
                        chain,
                        path@,
                        i as int,
                    );
                    let chain1: Receiver = chain_pointerness(chain, e.pointerness);
                    add_candidates(
                        graph,
                        own,
                        &methods,
                        path,
                        e.inner,
                        depth + 1,
                        chain1,
                        out,
                        Ghost(x),
                    );
                    proof {
                        let added = candidates_from(
                            x,
                            methods@,
                            path@.push(e.inner),
                            depth + 1,
                            chain1,
                            methods@.len() as int,
                        );
                        assert((start + before) + added =~= start + (before + added));
                    }
                },
                None => {},
            }
        }
    }
    let ghost mine = contributed(x, embeds@, depth as int, chain, path@, n as int);
    let ghost below = harvest_below(x, embeds@, depth as int, chain, path@, n as int);
    let mut k: usize = n;
    while k > 0
        invariant
            graph.wf(),
            x.g == graph@,
            x.own == own@,
            x.embeddings == embeddings@,
            depth < MAX_PROMOTION_DEPTH,
            n == embeds@.len(),
            k <= n,
            below == harvest_below(x, embeds@, depth as int, chain, path@, n as int),
            candidate_views(out@) + harvest_below(
                x,
                embeds@,
                depth as int,
                chain,
                path@,
                k as int,
            ).candidates == start + mine + below.candidates,
            counted_up(
                *truncated,
                harvest_below(x, embeds@, depth as int, chain, path@, k as int).truncated,
            ) == counted_up(t0, below.truncated),
        decreases k,
    {
        let e: Embed = embeds[k - 1];
        if !has_node(path, e.inner) && graph.qualified_name_string(e.inner).is_some() {
            let longer: Vec<NodeId> = path_on(path, e.inner);
            let chain1: Receiver = chain_pointerness(chain, e.pointerness);
            let ghost here = harvest(x, e.inner, depth + 1, chain1, path@.push(e.inner));
            let ghost rest = harvest_below(x, embeds@, depth as int, chain, path@, k - 1);
            let ghost before = candidate_views(out@);
            proof {
                assert(before + (here.candidates + rest.candidates) =~= (before + here.candidates)
                    + rest.candidates);
            }
            walk_embeddings(
                graph,
                embeddings,
                own,
                e.inner,
                depth + 1,
                chain1,
                &longer,
                out,
                truncated,
                Ghost(x),
            );
        }
        k = k - 1;
    }
    proof {
        let none = harvest_below(x, embeds@, depth as int, chain, path@, 0);
        assert(candidate_views(out@) + none.candidates =~= candidate_views(out@));
        assert(start + mine + below.candidates =~= start + (mine + below.candidates));
    }
}

/// A promoted method: its name and the method as it is declared.
#[derive(Clone, Copy, Debug, PartialEq, Eq, Structural)]
pub struct PromotedMethod {
    pub name: StringId,
    pub method: NodeId,
}

/// The smallest depth at which `name` occurs among the first `n` candidates.
pub open spec fn shallowest(c: Seq<CandidateView>, name: StringId, n: int) -> Option<u8>
    decreases n,
{
    if n <= 0 {
        None
    } else {
        let before = shallowest(c, name, n - 1);
        if c[n - 1].name != name {
            before
        } else {
            match before {
                None => Some(c[n - 1].depth),
                Some(d) => if c[n - 1].depth < d {
                    Some(c[n - 1].depth)
                } else {
                    Some(d)
                },
            }
        }
    }
}

/// Candidate `i` contributes `name` at `depth`.
pub open spec fn contends(c: Seq<CandidateView>, name: StringId, depth: u8, i: int) -> bool {
    0 <= i < c.len() && c[i].name == name && c[i].depth == depth
}

/// The first candidate at or after `i` that contributes `name` at `depth`.
pub open spec fn first_contender(
    c: Seq<CandidateView>,
    name: StringId,
    depth: u8,
    i: int,
) -> Option<int>
    decreases c.len() - i,
{
    if i < 0 || i >= c.len() {
        None
    } else if contends(c, name, depth, i) {
        Some(i)
    } else {
        first_contender(c, name, depth, i + 1)
    }
}

/// What becomes of a contributed name.
#[derive(Clone, Copy, Debug, PartialEq, Eq, Structural)]
pub enum Outcome {
    /// Nothing contributes the name.
    Absent,
    /// It is reached over several paths at the smallest depth.
    Ambiguous,
    /// It is in the method set of the struct.
    Value(NodeId),
    /// It is in the method set of the pointer to the struct only.
    PointerOnly(NodeId),
}

/// What becomes of `name`: at the smallest depth at which it is contributed, it must be
/// reached over one path alone; it is pointer-only when every contribution there is.
pub open spec fn outcome(c: Seq<CandidateView>, name: StringId) -> Outcome {
    match shallowest(c, name, c.len() as int) {
        None => Outcome::Absent,
        Some(d) => match first_contender(c, name, d, 0) {
            None => Outcome::Absent,
            Some(w) => if exists|j: int|
                #[trigger] contends(c, name, d, j) && c[j].path != c[w].path {
                Outcome::Ambiguous
            } else if exists|j: int|
                #[trigger] contends(c, name, d, j) && c[j].bucket == PromotionBucket::Value {
                Outcome::Value(c[w].defining_method)
            } else {
                Outcome::PointerOnly(c[w].defining_method)
            },
        },
    }
}

fn same_path(a: &Vec<NodeId>, b: &Vec<NodeId>) -> (r: bool)
    ensures
        r == (a@ == b@),
{
    if a.len() != b.len() {
        return false;
    }
    for i in 0..a.len()
        invariant
            a@.len() == b@.len(),
            forall|j: int| 0 <= j < i ==> a@[j] == b@[j],
    {
        if a[i] != b[i] {
            return false;
        }
    }
    proof {
        assert(a@ =~= b@);
    }
    true
}

fn decide(found: &Vec<PromotionCandidate>, name: StringId) -> (r: Outcome)
    ensures
        r == outcome(candidate_views(found@), name),
{
    let ghost c = candidate_views(found@);
    let mut depth: Option<u8> = None;
    for i in 0..found.len()
        invariant
            c == candidate_views(found@),
            depth == shallowest(c, name, i as int),
    {
        assert(c[i as int] == found@[i as int]@);
        if found[i].name == name {
            match depth {
                None => {
                    depth = Some(found[i].depth);
                },
                Some(d) => {
                    if found[i].depth < d {
                        depth = Some(found[i].depth);
                    }
                },
            }
        }
    }
    let d: u8 = match depth {
        None => {
            return Outcome::Absent;
        },
        Some(d) => d,
    };
    let mut winner: Option<usize> = None;
    let mut any_value = false;
    for i in 0..found.len()
        invariant
            c == candidate_views(found@),
            match winner {
                None => first_contender(c, name, d, 0) == first_contender(c, name, d, i as int)
                    && !any_value && forall|j: int| 0 <= j < i ==> !contends(c, name, d, j),
                Some(w) => first_contender(c, name, d, 0) == Some(w as int) && w < c.len() && (
                forall|j: int|
                    0 <= j < i && #[trigger] contends(c, name, d, j) ==> c[j].path
                        == c[w as int].path) && (any_value <==> exists|j: int|
                    0 <= j < i && #[trigger] contends(c, name, d, j) && c[j].bucket
                        == PromotionBucket::Value),
            },
            shallowest(c, name, c.len() as int) == Some(d),
    {
        assert(c[i as int] == found@[i as int]@);
        if found[i].name == name && found[i].depth == d {
            assert(contends(c, name, d, i as int));
            match winner {
                None => {
                    winner = Some(i);
                },
                Some(w) => {
                    assert(c[w as int] == found@[w as int]@);
                    if !same_path(&found[i].path, &found[w].path) {
                        return Outcome::Ambiguous;
                    }
                },
            }
            if found[i].bucket == PromotionBucket::Value {
                any_value = true;
            }
        }
    }
    match winner {
        None => Outcome::Absent,
        Some(w) => {
            proof {
                assert(c[w as int] == found@[w as int]@);
                assert forall|j: int| #[trigger] contends(c, name, d, j) implies c[j].path
                    == c[w as int].path by {}
            }
            if any_value {
                Outcome::Value(found[w].defining_method)
            } else {
                Outcome::PointerOnly(found[w].defining_method)
            }
        },
    }
}

/// The names among the first `n` candidates, ascending, each once.
pub open spec fn contributed_names(c: Seq<CandidateView>, n: int) -> Seq<StringId>
    decreases n,
{
    if n <= 0 {
        Seq::empty()
    } else {
        let before = contributed_names(c, n - 1);
        if before.contains(c[n - 1].name) {
            before
        } else {
            place(c[n - 1].name, before)
        }
    }
}

/// What a struct gains from the types that it embeds.
pub struct PromotionView {
    /// Methods of the struct, by name.
    pub value: Seq<PromotedMethod>,
    /// Methods of the pointer to the struct only, by name.
    pub pointer_only: Seq<PromotedMethod>,
    /// Names that are ambiguous.
    pub blocked: nat,
}

/// What becomes of the first `n` of `names`.
pub open spec fn settled(c: Seq<CandidateView>, names: Seq<StringId>, n: int) -> PromotionView
    decreases n,
{
    if n <= 0 {
        PromotionView { value: Seq::empty(), pointer_only: Seq::empty(), blocked: 0 }
    } else {
        let before = settled(c, names, n - 1);
        let name = names[n - 1];
        match outcome(c, name) {
            Outcome::Absent => before,
            Outcome::Ambiguous => PromotionView { blocked: before.blocked + 1, ..before },
            Outcome::Value(method) => PromotionView {
                value: before.value.push(PromotedMethod { name, method }),
                ..before
            },
            Outcome::PointerOnly(method) => PromotionView {
                pointer_only: before.pointer_only.push(PromotedMethod { name, method }),
                ..before
            },
        }
    }
}

/// The names of methods.
pub open spec fn names_of(methods: Seq<MethodRef>) -> Seq<StringId> {
    Seq::new(methods.len(), |i: int| methods[i].name)
}

/// The walk that starts at `outer`, whose qualified name is `qn`.
pub open spec fn outer_harvest(
    g: GraphView,
    embeddings: Seq<Embedding>,
    outer: NodeId,
    qn: Seq<char>,
) -> Harvest {
    harvest(
        Embedder { g, embeddings, own: names_of(methods_of(g, qn)) },
        outer,
        0,
        Receiver::Value,
        seq![outer],
    )
}

/// What `outer` gains from the types that it embeds. A struct without a qualified
/// name gains nothing.
pub open spec fn promotions(g: GraphView, embeddings: Seq<Embedding>, outer: NodeId) -> PromotionView {
    match g.qn(outer) {
        Some(qn) => {
            let c = outer_harvest(g, embeddings, outer, qn).candidates;
            let names = contributed_names(c, c.len() as int);
            settled(c, names, names.len() as int)
        },
        None => PromotionView { value: Seq::empty(), pointer_only: Seq::empty(), blocked: 0 },
    }
}

/// How much the count of blocked promotions grows on behalf of `outer`: by one for
/// each ambiguous name and for each path that goes on past the depth limit.
pub open spec fn blocked_count(g: GraphView, embeddings: Seq<Embedding>, outer: NodeId) -> nat {
    match g.qn(outer) {
        Some(qn) => outer_harvest(g, embeddings, outer, qn).truncated + promotions(
            g,
            embeddings,
            outer,
        ).blocked,
        None => 0,
    }
}

/// What a struct gains from the types that it embeds.
pub struct PerOuterPromotion {
    /// Methods of the struct, by name.
    pub value: Vec<PromotedMethod>,
    /// Methods of the pointer to the struct only, by name.
    pub pointer_only: Vec<PromotedMethod>,
}

impl PerOuterPromotion {
    /// Every name occurs once in each list.
    pub open spec fn wf(&self) -> bool {
        names_once(self.value@) && names_once(self.pointer_only@)
    }
}

/// Every name occurs once.
pub open spec fn names_once(s: Seq<PromotedMethod>) -> bool {
    forall|i: int, j: int|
        0 <= i < j < s.len() ==> (#[trigger] s[i]).name != (#[trigger] s[j]).name
}

proof fn lemma_place_new(x: StringId, s: Seq<StringId>)
    requires
        s.no_duplicates(),
        !s.contains(x),
    ensures
        place(x, s).no_duplicates(),
        forall|y: StringId| #[trigger] place(x, s).contains(y) <==> y == x || s.contains(y),
    decreases s.len(),
{
    let r = place(x, s);
    if s.len() > 0 && s[0].ranks_before(x) {
        let t = s.drop_first();
        assert forall|y: StringId| #[trigger] t.contains(y) implies s.contains(y) by {
            let k = t.index_of(y);
            assert(s[k + 1] == y);
        }
        lemma_place_new(x, t);
        let u = place(x, t);
        if t.contains(s[0]) {
            let k = t.index_of(s[0]);
            assert(s[k + 1] == s[0]);
        }
        assert forall|i: int, j: int| 0 <= i < r.len() && 0 <= j < r.len() && i != j implies r[i]
            != r[j] by {
            if i > 0 && j > 0 {
                assert(u[i - 1] != u[j - 1]);
            } else if i == 0 {
                assert(u.contains(u[j - 1]));
            } else {
                assert(u.contains(u[i - 1]));
            }
        }
        assert forall|y: StringId| #[trigger] r.contains(y) <==> y == x || s.contains(y) by {
            if r.contains(y) {
                let k = r.index_of(y);
                if k > 0 {
                    assert(u.contains(u[k - 1]));
                }
            }
            if y == x || s.contains(y) {
                if y == s[0] {
                    assert(r[0] == y);
                } else {
                    if s.contains(y) {
                        let k = s.index_of(y);
                        assert(t[k - 1] == y);
                    }
                    assert(u.contains(y));
                    let k = u.index_of(y);
                    assert(r[k + 1] == y);
                }
            }
        }
    } else {
        assert(r[0] == x);
        assert forall|i: int| 0 < i < r.len() implies #[trigger] r[i] == s[i - 1] by {}
        assert forall|i: int, j: int| 0 <= i < r.len() && 0 <= j < r.len() && i != j implies r[i]
            != r[j] by {
            if i > 0 && j > 0 {
                assert(s[i - 1] != s[j - 1]);
            } else if i == 0 {
                assert(s.contains(s[j - 1]));
            } else {
                assert(s.contains(s[i - 1]));
            }
        }
        assert forall|y: StringId| #[trigger] r.contains(y) <==> y == x || s.contains(y) by {
            if r.contains(y) {
                let k = r.index_of(y);
                if k > 0 {
                    assert(s[k - 1] == y);
                }
            }
            if s.contains(y) {
                let k = s.index_of(y);
                assert(r[k + 1] == y);
            }
        }
    }
}

proof fn lemma_contributed_names_once(c: Seq<CandidateView>, n: int)
    ensures
        contributed_names(c, n).no_duplicates(),
    decreases n,
{
    if n > 0 {
        lemma_contributed_names_once(c, n - 1);
        let before = contributed_names(c, n - 1);
        if !before.contains(c[n - 1].name) {
            lemma_place_new(c[n - 1].name, before);
        }
    }
}

proof fn lemma_settled_once(c: Seq<CandidateView>, names: Seq<StringId>, n: int)
    requires
        names.no_duplicates(),
        0 <= n <= names.len(),
    ensures
        names_once(settled(c, names, n).value),
        names_once(settled(c, names, n).pointer_only),
        forall|i: int|
            0 <= i < settled(c, names, n).value.len() ==> names.take(n).contains(
                (#[trigger] settled(c, names, n).value[i]).name,
            ),
        forall|i: int|
            0 <= i < settled(c, names, n).pointer_only.len() ==> names.take(n).contains(
                (#[trigger] settled(c, names, n).pointer_only[i]).name,
            ),
    decreases n,
{
    if n > 0 {
        lemma_settled_once(c, names, n - 1);
        let before = settled(c, names, n - 1);
        let after = settled(c, names, n);
        let head = names.take(n - 1);
        let all = names.take(n);
        let name = names[n - 1];
        assert(all[n - 1] == name);
        assert forall|x: StringId| #[trigger] head.contains(x) implies all.contains(x) && x != name by {
            let k = head.index_of(x);
            assert(all[k] == x);
            assert(names[k] != names[n - 1]);
        }
        assert forall|i: int| 0 <= i < after.value.len() implies all.contains(
            (#[trigger] after.value[i]).name,
        ) by {
            if i < before.value.len() {
                assert(after.value[i] == before.value[i]);
            }
        }
        assert forall|i: int| 0 <= i < after.pointer_only.len() implies all.contains(
            (#[trigger] after.pointer_only[i]).name,
        ) by {
            if i < before.pointer_only.len() {
                assert(after.pointer_only[i] == before.pointer_only[i]);
            }
        }
        assert forall|i: int, j: int| 0 <= i < j < after.value.len() implies (
        #[trigger] after.value[i]).name != (#[trigger] after.value[j]).name by {
            assert(after.value[i] == before.value[i]);
            assert(head.contains(before.value[i].name));
            if j < before.value.len() {
                assert(after.value[j] == before.value[j]);
            }
        }
        assert forall|i: int, j: int| 0 <= i < j < after.pointer_only.len() implies (
        #[trigger] after.pointer_only[i]).name != (#[trigger] after.pointer_only[j]).name by {
            assert(after.pointer_only[i] == before.pointer_only[i]);
            assert(head.contains(before.pointer_only[i].name));
            if j < before.pointer_only.len() {
                assert(after.pointer_only[j] == before.pointer_only[j]);
            }
        }
    }
}

/// A struct gains a method of a given name once.
pub proof fn law_gained_names_are_distinct(
    g: GraphView,
    embeddings: Seq<Embedding>,
    outer: NodeId,
)
    ensures
        names_once(promotions(g, embeddings, outer).value),
        names_once(promotions(g, embeddings, outer).pointer_only),
{
    if let Some(qn) = g.qn(outer) {
        let c = outer_harvest(g, embeddings, outer, qn).candidates;
        let names = contributed_names(c, c.len() as int);
        lemma_contributed_names_once(c, c.len() as int);
        lemma_settled_once(c, names, names.len() as int);
    }
}

/// Works out what `outer` gains from the types that it embeds, and counts the
/// promotions that were blocked.
pub fn compute_promotions_for_outer(
    graph: &CodeGraph,
    outer: NodeId,
    embeddings: &Vec<Embedding>,
    blocked: &mut u32,
) -> (r: PerOuterPromotion)
    requires
        graph.wf(),
    ensures
        r.wf(),
        r.value@ == promotions(graph@, embeddings@, outer).value,
        r.pointer_only@ == promotions(graph@, embeddings@, outer).pointer_only,
        *final(blocked) == counted_up(
            *old(blocked),
            blocked_count(graph@, embeddings@, outer),
        ),
{
    proof {
        law_gained_names_are_distinct(graph@, embeddings@, outer);
    }
    let qn: String = match graph.qualified_name_string(outer) {
        Some(s) => s,
        None => {
            return PerOuterPromotion { value: Vec::new(), pointer_only: Vec::new() };
        },
    };
    let methods = find_method_names_of_type(graph, qn.as_str());
    let mut own: Vec<StringId> = Vec::new();
    for i in 0..methods.len()
        invariant
            own@.len() == i,
            forall|j: int| 0 <= j < i ==> own@[j] == (#[trigger] methods@[j]).name,
    {
        own.push(methods[i].name);
    }
    proof {
        assert forall|j: int| 0 <= j < own@.len() implies own@[j] == names_of(methods@)[j] by {
            assert(own@[j] == methods@[j].name);
        }
        assert(own@ =~= names_of(methods@));
    }
    let ghost x = Embedder { g: graph@, embeddings: embeddings@, own: own@ };
    let mut path: Vec<NodeId> = Vec::new();
    path.push(outer);
    let mut found: Vec<PromotionCandidate> = Vec::new();
    proof {
        assert(path@ =~= seq![outer]);
    }
    let ghost start = *blocked;
    walk_embeddings(
        graph,
        embeddings,
        &own,
        outer,
        0,
        Receiver::Value,
        &path,
        &mut found,
        blocked,
        Ghost(x),
    );
    let ghost h = outer_harvest(graph@, embeddings@, outer, qn@);
    proof {
        assert(candidate_views(found@) =~= h.candidates);
    }
    let mut names: Vec<StringId> = Vec::new();
    for i in 0..found.len()
        invariant
            names@ == contributed_names(candidate_views(found@), i as int),
    {
        assert(candidate_views(found@)[i as int] == found@[i as int]@);
        if !has_string(&names, found[i].name) {
            place_in(&mut names, found[i].name);
        }
    }
    let mut value: Vec<PromotedMethod> = Vec::new();
    let mut pointer_only: Vec<PromotedMethod> = Vec::new();
    for i in 0..names.len()
        invariant
            candidate_views(found@) == h.candidates,
            value@ == settled(h.candidates, names@, i as int).value,
            pointer_only@ == settled(h.candidates, names@, i as int).pointer_only,
            *blocked == counted_up(
                start,
                (h.truncated + settled(h.candidates, names@, i as int).blocked) as nat,
            ),
    {
        let name: StringId = names[i];
        match decide(&found, name) {
            Outcome::Absent => {},
            Outcome::Ambiguous => {
                *blocked = count_up(*blocked);
            },
            Outcome::Value(method) => {
                value.push(PromotedMethod { name, method });
            },
            Outcome::PointerOnly(method) => {
                pointer_only.push(PromotedMethod { name, method });
            },
        }
    }
    PerOuterPromotion { value, pointer_only }
}

} // verus!
