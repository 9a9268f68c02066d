//! Which nodes and edges the Go pass has made, and how it takes them back.
use vstd::prelude::*;

use crate::arena::{live, vacated, NodeArena, NodeEntry, Slot};
use crate::edges::{
    edge_views, edges_without_nodes, next_seq_after, EdgeView, StoreEdgeRef, StoreView,
};
use crate::files::{buckets_without, BucketEntry, RegistryView};
use crate::graph::{qn_text, CodeGraph, GraphView};
use crate::ids::NodeId;
use crate::kinds::{EdgeKind, Language, NodeKind};
use crate::metadata::{MetadataView, NodeMetadataStore};
use crate::strings::{text_of, InternerView, StringInterner};
use crate::text::{count_from, count_str, find_str, find_text, occurs_at, starts_with_str};

verus! {

/// The qualified names that the pass gives: `pkg::S::m`, `pkg::*S::m` and `pkg::*S`.
pub open spec fn pass_shape(qn: Seq<char>) -> bool {
    match find_text(qn, "::*"@) {
        Some(i) => i + 3 < qn.len(),
        None => count_from(qn, "::"@, 0) >= 2,
    }
}

/// Whether a qualified name has one of the shapes that the pass gives.
pub fn qualified_name_matches_pass_shape(qn: &str) -> (r: bool)
    ensures
        r == pass_shape(qn@),
{
    match find_str(qn, "::*") {
        Some(i) => {
            proof {
                crate::text::lemma_find_from(qn@, "::*"@, 0);
                reveal_strlit("::*");
            }
            let n: usize = qn.unicode_len();
            n - i > 3
        },
        None => {
            proof {
                reveal_strlit("::");
            }
            count_str(qn, "::") >= 2
        },
    }
}

/// A node of kind `kind` and qualified name `qn` is one that the pass has made.
pub open spec fn owned_shape(kind: NodeKind, qn: Seq<char>, synthetic: bool) -> bool {
    (kind == NodeKind::Method || kind == NodeKind::Type) && synthetic && pass_shape(qn)
}

/// Whether a node is one that the pass has made: a synthetic method or type whose
/// qualified name has one of the shapes that the pass gives.
pub fn is_pass_owned_node(node: &NodeEntry, qualified_name: &str, is_synthetic: bool) -> (r: bool)
    ensures
        r == owned_shape(node.kind, qualified_name@, is_synthetic),
{
    if node.kind != NodeKind::Method && node.kind != NodeKind::Type {
        return false;
    }
    if !is_synthetic {
        return false;
    }
    qualified_name_matches_pass_shape(qualified_name)
}

/// The live node `node` is one that the pass has made.
pub open spec fn node_owned(
    slots: Seq<Slot>,
    strings: InternerView,
    metadata: MetadataView,
    node: NodeId,
) -> bool {
    match qn_text(slots, strings, node) {
        Some(qn) => owned_shape(
            live(slots, node)->0.kind,
            qn,
            metadata.is_synthetic(node),
        ),
        None => false,
    }
}

/// The edge was made by the pass, as far as its kind and ends tell: a containment or
/// inheritance with an end that the pass has made, a call of or reference to a method
/// that it has made, or an implementation whose target is no type-assertion stand-in.
pub open spec fn edge_owned(
    kind: EdgeKind,
    source: NodeId,
    target: NodeId,
    slots: Seq<Slot>,
    strings: InternerView,
    metadata: MetadataView,
) -> bool {
    match kind {
        EdgeKind::Contains => node_owned(slots, strings, metadata, source) || node_owned(
            slots,
            strings,
            metadata,
            target,
        ),
        EdgeKind::Inherits => node_owned(slots, strings, metadata, source) || node_owned(
            slots,
            strings,
            metadata,
            target,
        ),
        EdgeKind::Calls { .. } => node_owned(slots, strings, metadata, target) && live(
            slots,
            target,
        )->0.kind == NodeKind::Method,
        EdgeKind::References => node_owned(slots, strings, metadata, target) && live(
            slots,
            target,
        )->0.kind == NodeKind::Method,
        EdgeKind::Implements => match qn_text(slots, strings, target) {
            Some(qn) => !occurs_at(qn, "<type:"@, 0),
            None => false,
        },
        _ => false,
    }
}

fn name_of(nodes: &NodeArena, strings: &StringInterner, node: NodeId) -> (r: Option<String>)
    ensures
        text_of(r) == qn_text(nodes@, strings@, node),
{
    match nodes.get(node) {
        Some(e) => match e.qualified_name {
            Some(q) => strings.resolve(q),
            None => None,
        },
        None => None,
    }
}

fn is_node_owned(
    nodes: &NodeArena,
    strings: &StringInterner,
    metadata: &NodeMetadataStore,
    node: NodeId,
) -> (r: bool)
    requires
        metadata.wf(),
    ensures
        r == node_owned(nodes@, strings@, metadata@, node),
{
    match name_of(nodes, strings, node) {
        Some(qn) => match nodes.get(node) {
            Some(e) => is_pass_owned_node(&e, qn.as_str(), metadata.is_synthetic(node)),
            None => false,
        },
        None => false,
    }
}

fn is_owned_method(
    nodes: &NodeArena,
    strings: &StringInterner,
    metadata: &NodeMetadataStore,
    node: NodeId,
) -> (r: bool)
    requires
        metadata.wf(),
    ensures
        r == (node_owned(nodes@, strings@, metadata@, node) && live(nodes@, node)->0.kind
            == NodeKind::Method),
{
    match nodes.get(node) {
        Some(e) => e.kind == NodeKind::Method && is_node_owned(nodes, strings, metadata, node),
        None => false,
    }
}

/// Whether the pass has made an edge, as far as its kind and ends tell.
pub fn is_pass_owned_edge(
    edge: &StoreEdgeRef,
    nodes: &NodeArena,
    strings: &StringInterner,
    metadata: &NodeMetadataStore,
) -> (r: bool)
    requires
        metadata.wf(),
    ensures
        r == edge_owned(edge.kind, edge.source, edge.target, nodes@, strings@, metadata@),
{
    match &edge.kind {
        EdgeKind::Contains => is_node_owned(nodes, strings, metadata, edge.source)
            || is_node_owned(nodes, strings, metadata, edge.target),
        EdgeKind::Inherits => is_node_owned(nodes, strings, metadata, edge.source)
            || is_node_owned(nodes, strings, metadata, edge.target),
        EdgeKind::Calls { .. } => is_owned_method(nodes, strings, metadata, edge.target),
        EdgeKind::References => is_owned_method(nodes, strings, metadata, edge.target),
        EdgeKind::Implements => match name_of(nodes, strings, edge.target) {
            Some(qn) => !starts_with_str(qn.as_str(), "<type:"),
            None => false,
        },
        _ => false,
    }
}

/// The pass has made `node`.
pub open spec fn owned(g: GraphView, node: NodeId) -> bool {
    node_owned(g.nodes, g.strings, g.metadata, node)
}

/// The nodes that the pass has made, among the first `n` slots.
pub open spec fn owned_nodes(g: GraphView, n: int) -> Seq<NodeId>
    decreases n,
{
    if n <= 0 {
        Seq::empty()
    } else {
        let before = owned_nodes(g, n - 1);
        let node = NodeId { index: (n - 1) as u32, generation: g.nodes[n - 1].generation };
        if owned(g, node) {
            before.push(node)
        } else {
            before
        }
    }
}

/// The target of the edge stands in for a type assertion.
pub open spec fn asserts_type(g: GraphView, e: EdgeView) -> bool {
    match g.qn(e.target) {
        Some(qn) => occurs_at(qn, "<type:"@, 0),
        None => false,
    }
}

/// The source of the edge stands in a Go file.
pub open spec fn from_go(g: GraphView, e: EdgeView) -> bool {
    match live(g.nodes, e.source) {
        Some(s) => g.files.language(s.file) == Some(Language::Go),
        None => false,
    }
}

/// An implementation edge that the pass has made between nodes that it has not.
pub open spec fn emitted_implements(g: GraphView, e: EdgeView) -> bool {
    e.kind == EdgeKind::Implements && !asserts_type(g, e) && from_go(g, e)
}

/// The edges among the first `n` that are no implementation edges of the pass.
pub open spec fn edges_not_emitted(g: GraphView, n: int) -> Seq<EdgeView>
    decreases n,
{
    if n <= 0 {
        Seq::empty()
    } else {
        let before = edges_not_emitted(g, n - 1);
        if emitted_implements(g, g.edges.edges[n - 1]) {
            before
        } else {
            before.push(g.edges.edges[n - 1])
        }
    }
}

/// The sequence number after the implementation edges of the pass among the first `n`
/// edges were removed: every removal uses one up.
pub open spec fn seq_after_removals(g: GraphView, n: int) -> u64
    decreases n,
{
    if n <= 0 {
        g.edges.next_seq
    } else if emitted_implements(g, g.edges.edges[n - 1]) {
        next_seq_after(seq_after_removals(g, n - 1))
    } else {
        seq_after_removals(g, n - 1)
    }
}

/// `slots` without the first `n` of `nodes`.
pub open spec fn all_vacated(slots: Seq<Slot>, nodes: Seq<NodeId>, n: int) -> Seq<Slot>
    decreases n,
{
    if n <= 0 {
        slots
    } else {
        vacated(all_vacated(slots, nodes, n - 1), nodes[n - 1])
    }
}

/// The graph without anything that the pass has made.
pub open spec fn tombstoned(g: GraphView) -> GraphView {
    let dead = owned_nodes(g, g.nodes.len() as int);
    let kept = edges_not_emitted(g, g.edges.edges.len() as int);
    GraphView {
        edges: StoreView {
            edges: edges_without_nodes(kept, dead, kept.len() as int),
            next_seq: seq_after_removals(g, g.edges.edges.len() as int),
        },
        nodes: all_vacated(g.nodes, dead, dead.len() as int),
        files: RegistryView {
            buckets: buckets_without(g.files.buckets, dead, g.files.buckets.len() as int),
            ..g.files
        },
        ..g
    }
}

fn is_emitted_implements(graph: &CodeGraph, e: &StoreEdgeRef) -> (r: bool)
    ensures
        r == emitted_implements(graph@, e@),
{
    match &e.kind {
        EdgeKind::Implements => {},
        _ => {
            return false;
        },
    }
    match graph.qualified_name_string(e.target) {
        Some(qn) => {
            if starts_with_str(qn.as_str(), "<type:") {
                return false;
            }
        },
        None => {},
    }
    match graph.nodes.get(e.source) {
        Some(s) => graph.files.language_for_file(s.file) == Some(Language::Go),
        None => false,
    }
}

/// Takes back everything that the pass has made: its nodes, the edges that touch them,
/// and its implementation edges between other nodes. Returns the number of nodes.
pub fn tombstone_all_pass_owned(graph: &mut CodeGraph) -> (r: usize)
    requires
        old(graph).wf(),
    ensures
        final(graph).wf(),
        final(graph)@ == tombstoned(old(graph)@),
        r == owned_nodes(old(graph)@, old(graph)@.nodes.len() as int).len(),
{
    let ghost g = graph@;
    let mut dead: Vec<NodeId> = Vec::new();
    for i in 0..graph.nodes.slots.len()
        invariant
            graph.wf(),
            graph@ == g,
            dead@ == owned_nodes(g, i as int),
    {
        let node = NodeId { index: i as u32, generation: graph.nodes.slots[i].generation };
        if is_node_owned(&graph.nodes, &graph.strings, &graph.macro_metadata, node) {
            dead.push(node);
        }
    }
    let mut kept: Vec<StoreEdgeRef> = Vec::new();
    let mut seq: u64 = graph.edges.next_seq;
    proof {
        assert(edge_views(kept@) =~= Seq::<EdgeView>::empty());
    }
    for i in 0..graph.edges.edges.len()
        invariant
            graph@ == g,
            edge_views(kept@) == edges_not_emitted(g, i as int),
            seq == seq_after_removals(g, i as int),
    {
        assert(g.edges.edges[i as int] == graph.edges.edges@[i as int]@);
        if !is_emitted_implements(graph, &graph.edges.edges[i]) {
            let ghost before = edge_views(kept@);
            kept.push(graph.edges.edges[i].clone());
            proof {
                assert(edge_views(kept@) =~= before.push(g.edges.edges[i as int]));
            }
        } else {
            seq = if seq < u64::MAX {
                seq + 1
            } else {
                0
            };
        }
    }
    graph.edges.edges = kept;
    graph.edges.next_seq = seq;
    graph.edges.tombstone_edges_for_nodes(&dead);
    let ghost mid = graph@;
    for i in 0..dead.len()
        invariant
            graph.wf(),
            graph@ == (GraphView { nodes: all_vacated(g.nodes, dead@, i as int), ..mid }),
    {
        graph.nodes.remove(dead[i]);
    }
    graph.files.drop_nodes_from_buckets(&dead);
    dead.len()
}

pub(crate) proof fn lemma_owned_listed(g: GraphView, n: int, node: NodeId)
    requires
        0 <= n <= g.nodes.len(),
        node.index < n,
        owned(g, node),
    ensures
        owned_nodes(g, n).contains(node),
    decreases n,
{
    let before = owned_nodes(g, n - 1);
    let here = NodeId { index: (n - 1) as u32, generation: g.nodes[n - 1].generation };
    if node.index == n - 1 {
        assert(node == here);
        assert(before.push(here).last() == node);
        assert(before.push(here).contains(node));
    } else {
        lemma_owned_listed(g, n - 1, node);
        let k = choose|k: int| 0 <= k < before.len() && before[k] == node;
        assert(before.push(here)[k] == node);
    }
}

pub(crate) proof fn lemma_owned_only(g: GraphView, n: int, node: NodeId)
    requires
        0 <= n <= g.nodes.len(),
        owned_nodes(g, n).contains(node),
    ensures
        owned(g, node),
    decreases n,
{
    if n > 0 {
        let before = owned_nodes(g, n - 1);
        if before.contains(node) {
            lemma_owned_only(g, n - 1, node);
        }
    }
}

proof fn lemma_all_vacated(slots: Seq<Slot>, dead: Seq<NodeId>, n: int, node: NodeId)
    requires
        0 <= n <= dead.len(),
    ensures
        live(all_vacated(slots, dead, n), node) is Some ==> live(all_vacated(slots, dead, n), node)
            == live(slots, node),
        (exists|k: int| 0 <= k < n && dead[k] == node) ==> live(
            all_vacated(slots, dead, n),
            node,
        ) is None,
        !(exists|k: int| 0 <= k < n && dead[k] == node) && live(slots, node) is Some ==> live(
            all_vacated(slots, dead, n),
            node,
        ) == live(slots, node),
        all_vacated(slots, dead, n).len() == slots.len(),
    decreases n,
{
    if n > 0 {
        lemma_all_vacated(slots, dead, n - 1, node);
        let before = all_vacated(slots, dead, n - 1);
        let d = dead[n - 1];
        if live(slots, node) is Some && d.index == node.index && d != node {
            assert(dead[n - 1] == d);
            lemma_all_vacated_slot(slots, dead, n - 1, node);
        }
    }
}

/// A slot that was occupied and still is has kept its generation.
proof fn lemma_all_vacated_slot(slots: Seq<Slot>, dead: Seq<NodeId>, n: int, node: NodeId)
    requires
        0 <= n <= dead.len(),
        live(slots, node) is Some,
    ensures
        all_vacated(slots, dead, n).len() == slots.len(),
        all_vacated(slots, dead, n)[node.index as int].entry is Some ==> all_vacated(
            slots,
            dead,
            n,
        )[node.index as int] == slots[node.index as int],
    decreases n,
{
    if n > 0 {
        lemma_all_vacated_slot(slots, dead, n - 1, node);
    }
}

/// After everything that the pass has made was taken back, no node that it has made
/// is left, and every other node is as it was.
pub proof fn law_tombstone_leaves_no_owned_node(g: GraphView, node: NodeId)
    ensures
        !owned(tombstoned(g), node),
        owned(g, node) ==> live(tombstoned(g).nodes, node) is None,
        !owned(g, node) ==> live(tombstoned(g).nodes, node) == live(g.nodes, node),
{
    let dead = owned_nodes(g, g.nodes.len() as int);
    lemma_all_vacated(g.nodes, dead, dead.len() as int, node);
    if owned(g, node) {
        lemma_owned_listed(g, g.nodes.len() as int, node);
    } else {
        if exists|k: int| 0 <= k < dead.len() && dead[k] == node {
            lemma_owned_only(g, g.nodes.len() as int, node);
        }
    }
}

proof fn lemma_kept_edges(kept: Seq<EdgeView>, dead: Seq<NodeId>, n: int, i: int)
    requires
        0 <= n <= kept.len(),
        0 <= i < edges_without_nodes(kept, dead, n).len(),
    ensures
        !dead.contains(edges_without_nodes(kept, dead, n)[i].source),
        !dead.contains(edges_without_nodes(kept, dead, n)[i].target),
        kept.take(n).contains(edges_without_nodes(kept, dead, n)[i]),
    decreases n,
{
    let before = edges_without_nodes(kept, dead, n - 1);
    if i < before.len() {
        lemma_kept_edges(kept, dead, n - 1, i);
        let head = kept.take(n - 1);
        let k = choose|k: int| 0 <= k < head.len() && head[k] == before[i];
        assert(kept.take(n)[k] == before[i]);
    } else {
        assert(kept.take(n)[n - 1] == kept[n - 1]);
    }
}

proof fn lemma_not_emitted(g: GraphView, n: int, i: int)
    requires
        0 <= n <= g.edges.edges.len(),
        0 <= i < edges_not_emitted(g, n).len(),
    ensures
        !emitted_implements(g, edges_not_emitted(g, n)[i]),
    decreases n,
{
    if i < edges_not_emitted(g, n - 1).len() {
        lemma_not_emitted(g, n - 1, i);
    }
}

/// After everything that the pass has made was taken back, no edge touches a node that
/// it had made, and none of its implementation edges is left.
pub proof fn law_tombstone_leaves_no_emitted_edge(g: GraphView, i: int)
    requires
        0 <= i < tombstoned(g).edges.edges.len(),
    ensures
        !owned(g, tombstoned(g).edges.edges[i].source),
        !owned(g, tombstoned(g).edges.edges[i].target),
        !emitted_implements(g, tombstoned(g).edges.edges[i]),
{
    let dead = owned_nodes(g, g.nodes.len() as int);
    let kept = edges_not_emitted(g, g.edges.edges.len() as int);
    let e = tombstoned(g).edges.edges[i];
    lemma_kept_edges(kept, dead, kept.len() as int, i);
    assert(kept.take(kept.len() as int) =~= kept);
    let k = choose|k: int| 0 <= k < kept.len() && kept[k] == e;
    lemma_not_emitted(g, g.edges.edges.len() as int, k);
    if owned(g, e.source) {
        lemma_owned_listed(g, g.nodes.len() as int, e.source);
    }
    if owned(g, e.target) {
        lemma_owned_listed(g, g.nodes.len() as int, e.target);
    }
}

proof fn lemma_kept_buckets(buckets: Seq<BucketEntry>, dead: Seq<NodeId>, n: int, i: int)
    requires
        0 <= n <= buckets.len(),
        0 <= i < buckets_without(buckets, dead, n).len(),
    ensures
        !dead.contains(buckets_without(buckets, dead, n)[i].node),
    decreases n,
{
    if i < buckets_without(buckets, dead, n - 1).len() {
        lemma_kept_buckets(buckets, dead, n - 1, i);
    }
}

/// After everything that the pass has made was taken back, no node that it had made is
/// recorded for a file.
pub proof fn law_tombstone_leaves_no_owned_bucket_entry(g: GraphView, i: int)
    requires
        0 <= i < tombstoned(g).files.buckets.len(),
    ensures
        !owned(g, tombstoned(g).files.buckets[i].node),
        !owned(tombstoned(g), tombstoned(g).files.buckets[i].node),
{
    let dead = owned_nodes(g, g.nodes.len() as int);
    let node = tombstoned(g).files.buckets[i].node;
    lemma_kept_buckets(g.files.buckets, dead, g.files.buckets.len() as int, i);
    if owned(g, node) {
        lemma_owned_listed(g, g.nodes.len() as int, node);
    }
    law_tombstone_leaves_no_owned_node(g, node);
}

proof fn lemma_none_owned(g: GraphView, n: int)
    requires
        forall|node: NodeId| !#[trigger] owned(g, node),
    ensures
        owned_nodes(g, n).len() == 0,
    decreases n,
{
    if n > 0 {
        lemma_none_owned(g, n - 1);
    }
}

proof fn lemma_none_emitted(g: GraphView, n: int)
    requires
        0 <= n <= g.edges.edges.len(),
        forall|i: int|
            0 <= i < g.edges.edges.len() ==> !emitted_implements(g, #[trigger] g.edges.edges[i]),
    ensures
        edges_not_emitted(g, n) == g.edges.edges.take(n),
        seq_after_removals(g, n) == g.edges.next_seq,
    decreases n,
{
    if n > 0 {
        lemma_none_emitted(g, n - 1);
        assert(g.edges.edges.take(n) =~= g.edges.edges.take(n - 1).push(g.edges.edges[n - 1]));
    } else {
        assert(g.edges.edges.take(0) =~= Seq::empty());
    }
}

proof fn lemma_no_node_left_out(edges: Seq<EdgeView>, dead: Seq<NodeId>, n: int)
    requires
        0 <= n <= edges.len(),
        dead.len() == 0,
    ensures
        edges_without_nodes(edges, dead, n) == edges.take(n),
    decreases n,
{
    if n > 0 {
        lemma_no_node_left_out(edges, dead, n - 1);
        assert(edges.take(n) =~= edges.take(n - 1).push(edges[n - 1]));
    } else {
        assert(edges.take(0) =~= Seq::empty());
    }
}

proof fn lemma_no_entry_left_out(buckets: Seq<BucketEntry>, dead: Seq<NodeId>, n: int)
    requires
        0 <= n <= buckets.len(),
        dead.len() == 0,
    ensures
        buckets_without(buckets, dead, n) == buckets.take(n),
    decreases n,
{
    if n > 0 {
        lemma_no_entry_left_out(buckets, dead, n - 1);
        assert(buckets.take(n) =~= buckets.take(n - 1).push(buckets[n - 1]));
    } else {
        assert(buckets.take(0) =~= Seq::empty());
    }
}

/// The graph holds nothing that the pass has made: no node of its own, and no
/// implementation edge of its own.
pub open spec fn untouched(g: GraphView) -> bool {
    &&& forall|node: NodeId| !#[trigger] owned(g, node)
    &&& forall|i: int|
        0 <= i < g.edges.edges.len() ==> !emitted_implements(g, #[trigger] g.edges.edges[i])
}

/// Where the pass has made nothing, there is nothing to take back: no node is counted,
/// and the graph stays as it is.
pub proof fn law_tombstone_keeps_an_untouched_graph(g: GraphView)
    requires
        untouched(g),
    ensures
        owned_nodes(g, g.nodes.len() as int).len() == 0,
        tombstoned(g) == g,
{
    let dead = owned_nodes(g, g.nodes.len() as int);
    let edges = g.edges.edges;
    lemma_none_owned(g, g.nodes.len() as int);
    lemma_none_emitted(g, edges.len() as int);
    assert(edges.take(edges.len() as int) =~= edges);
    lemma_no_node_left_out(edges, dead, edges.len() as int);
    lemma_no_entry_left_out(g.files.buckets, dead, g.files.buckets.len() as int);
    assert(g.files.buckets.take(g.files.buckets.len() as int) =~= g.files.buckets);
}

/// Taking back a second time counts no node and changes nothing.
pub proof fn law_tombstone_twice_is_tombstone_once(g: GraphView)
    ensures
        untouched(tombstoned(g)),
        owned_nodes(tombstoned(g), tombstoned(g).nodes.len() as int).len() == 0,
        tombstoned(tombstoned(g)) == tombstoned(g),
{
    let t = tombstoned(g);
    assert forall|node: NodeId| !#[trigger] owned(t, node) by {
        law_tombstone_leaves_no_owned_node(g, node);
    }
    assert forall|i: int| 0 <= i < t.edges.edges.len() implies !emitted_implements(
        t,
        #[trigger] t.edges.edges[i],
    ) by {
        let e = t.edges.edges[i];
        law_tombstone_leaves_no_emitted_edge(g, i);
        law_tombstone_leaves_no_owned_node(g, e.source);
        law_tombstone_leaves_no_owned_node(g, e.target);
    }
    law_tombstone_keeps_an_untouched_graph(t);
}

proof fn lemma_owned_in_order(g: GraphView, n: int)
    requires
        0 <= n <= g.nodes.len() <= 0x1_0000_0000,
    ensures
        owned_nodes(g, n).no_duplicates(),
        forall|k: int| 0 <= k < owned_nodes(g, n).len() ==> (#[trigger] owned_nodes(g, n)[k]).index
            < n,
    decreases n,
{
    if n > 0 {
        lemma_owned_in_order(g, n - 1);
    }
}

/// The nodes that are taken back, and counted, are those that the pass has made, each
/// once.
pub proof fn law_owned_nodes_are_counted_once(g: GraphView)
    requires
        g.nodes.len() <= 0x1_0000_0000,
    ensures
        owned_nodes(g, g.nodes.len() as int).no_duplicates(),
        forall|node: NodeId| #[trigger]
            owned_nodes(g, g.nodes.len() as int).contains(node) <==> owned(g, node),
{
    let n = g.nodes.len() as int;
    lemma_owned_in_order(g, n);
    assert forall|node: NodeId| #[trigger] owned_nodes(g, n).contains(node) <==> owned(g, node) by {
        if owned_nodes(g, n).contains(node) {
            lemma_owned_only(g, n, node);
        }
        if owned(g, node) {
            lemma_owned_listed(g, n, node);
        }
    }
}

pub(crate) proof fn lemma_without_push(kept: Seq<EdgeView>, e: EdgeView, dead: Seq<NodeId>, n: int)
    requires
        0 <= n <= kept.len(),
    ensures
        edges_without_nodes(kept.push(e), dead, n) == edges_without_nodes(kept, dead, n),
        n == kept.len() ==> edges_without_nodes(kept.push(e), dead, n + 1) == (if dead.contains(
            e.source,
        ) || dead.contains(e.target) {
            edges_without_nodes(kept, dead, n)
        } else {
            edges_without_nodes(kept, dead, n).push(e)
        }),
    decreases n,
{
    if n > 0 {
        lemma_without_push(kept, e, dead, n - 1);
        assert(kept.push(e)[n - 1] == kept[n - 1]);
    }
}

/// The edge has nothing of the pass: it touches no node that the pass has made, and is no
/// implementation edge of its own.
pub open spec fn foreign(g: GraphView, e: EdgeView) -> bool {
    !owned(g, e.source) && !owned(g, e.target) && !emitted_implements(g, e)
}

proof fn lemma_foreign_edges(g: GraphView, n: int)
    requires
        0 <= n <= g.edges.edges.len(),
    ensures
        ({
            let dead = owned_nodes(g, g.nodes.len() as int);
            let kept = edges_not_emitted(g, n);
            edges_without_nodes(kept, dead, kept.len() as int) == g.edges.edges.take(n).filter(
                |e: EdgeView| foreign(g, e),
            )
        }),
    decreases n,
{
    reveal(Seq::filter);
    let dead = owned_nodes(g, g.nodes.len() as int);
    let head = g.edges.edges.take(n);
    if n > 0 {
        lemma_foreign_edges(g, n - 1);
        let e = g.edges.edges[n - 1];
        let before = edges_not_emitted(g, n - 1);
        assert(head.drop_last() =~= g.edges.edges.take(n - 1));
        assert(head.last() == e);
        lemma_without_push(before, e, dead, before.len() as int);
        lemma_owned_known(g, e.source);
        lemma_owned_known(g, e.target);
    }
}

proof fn lemma_owned_known(g: GraphView, node: NodeId)
    ensures
        owned_nodes(g, g.nodes.len() as int).contains(node) <==> owned(g, node),
{
    if owned_nodes(g, g.nodes.len() as int).contains(node) {
        lemma_owned_only(g, g.nodes.len() as int, node);
    }
    if owned(g, node) {
        lemma_owned_listed(g, g.nodes.len() as int, node);
    }
}

proof fn lemma_foreign_entries(g: GraphView, n: int)
    requires
        0 <= n <= g.files.buckets.len(),
    ensures
        buckets_without(g.files.buckets, owned_nodes(g, g.nodes.len() as int), n)
            == g.files.buckets.take(n).filter(|b: BucketEntry| !owned(g, b.node)),
    decreases n,
{
    reveal(Seq::filter);
    let head = g.files.buckets.take(n);
    if n > 0 {
        lemma_foreign_entries(g, n - 1);
        assert(head.drop_last() =~= g.files.buckets.take(n - 1));
        assert(head.last() == g.files.buckets[n - 1]);
        lemma_owned_known(g, g.files.buckets[n - 1].node);
    }
}

/// Taking back leaves everything else as it was: the edges that have nothing of the pass
/// and the recorded nodes that it has not made, in their order, and all that is neither
/// node, edge nor recorded node.
pub proof fn law_tombstone_keeps_everything_else(g: GraphView)
    ensures
        tombstoned(g).edges.edges == g.edges.edges.filter(|e: EdgeView| foreign(g, e)),
        tombstoned(g).files.buckets == g.files.buckets.filter(|b: BucketEntry| !owned(g, b.node)),
        tombstoned(g).files.files == g.files.files,
        tombstoned(g) == (GraphView {
            nodes: tombstoned(g).nodes,
            edges: tombstoned(g).edges,
            files: tombstoned(g).files,
            ..g
        }),
{
    let edges = g.edges.edges;
    let buckets = g.files.buckets;
    lemma_foreign_edges(g, edges.len() as int);
    assert(edges.take(edges.len() as int) =~= edges);
    lemma_foreign_entries(g, buckets.len() as int);
    assert(buckets.take(buckets.len() as int) =~= buckets);
}

} // verus!
