//! What is done once every chunk is committed: renumbering strings, metadata, indices
//! and edges.
use vstd::prelude::*;

use crate::arena::{NodeArena, NodeEntry, Slot};
use crate::edges::{
    copy_spans, delta_views, delta_views_by_file, pending_views, pending_views_by_file,
    DeltaEdge, DeltaOp, DeltaView, EdgeView, PendingEdge, PendingView, StoreView,
};
use crate::graph::{CodeGraph, GraphView};
use crate::ids::{FileId, NodeId};
use crate::indices::rows_of_arena;
use crate::lists::views;
use crate::metadata::{entry_map, shape_map, MetadataView, NodeMetadataStore, ShapeDescriptor};
use crate::parallel_commit::remap::{
    law_empty_remap_is_identity, on_entry, on_kind, remap_edge_kind_string_ids,
    remap_node_entry_global,
};
use crate::strings::StringRemap;
use crate::unification::{kept_metadata, NodeRemapTable};

verus! {

/// A slot whose occupant names renumbered strings.
pub open spec fn renamed_slot(remap: Map<u32, u32>, slot: Slot) -> Slot {
    match slot.entry {
        Some(e) => Slot { entry: Some(on_entry(remap, false, e)), ..slot },
        None => slot,
    }
}

/// Slots whose occupants name renumbered strings.
pub open spec fn renamed_slots(remap: Map<u32, u32>, slots: Seq<Slot>) -> Seq<Slot> {
    Seq::new(slots.len(), |i: int| renamed_slot(remap, slots[i]))
}

/// A pending edge that names renumbered strings.
pub open spec fn renamed_edge(remap: Map<u32, u32>, e: PendingView) -> PendingView {
    PendingView { kind: on_kind(remap, false, e.kind), ..e }
}

/// Pending edges that name renumbered strings.
pub open spec fn renamed_list(remap: Map<u32, u32>, edges: Seq<PendingView>) -> Seq<PendingView> {
    Seq::new(edges.len(), |i: int| renamed_edge(remap, edges[i]))
}

/// The pending edges of each file, naming renumbered strings.
pub open spec fn renamed_lists(remap: Map<u32, u32>, files: Seq<Seq<PendingView>>) -> Seq<
    Seq<PendingView>,
> {
    Seq::new(files.len(), |i: int| renamed_list(remap, files[i]))
}

fn rename_edges(edges: &mut Vec<PendingEdge>, remap: &StringRemap)
    ensures
        pending_views(final(edges)@) == renamed_list(remap@, pending_views(old(edges)@)),
{
    let n: usize = edges.len();
    let ghost before = edges@;
    for i in 0..n
        invariant
            n == before.len(),
            edges@.len() == n,
            forall|j: int|
                0 <= j < i ==> (#[trigger] edges@[j])@ == renamed_edge(remap@, before[j]@),
            forall|j: int| i <= j < n ==> #[trigger] edges@[j] == before[j],
    {
        let ghost prev = edges@;
        let mut kind = edges[i].kind.clone();
        remap_edge_kind_string_ids(&mut kind, remap);
        let one: &mut PendingEdge = &mut edges[i];
        one.kind = kind;
        proof {
            assert forall|j: int| 0 <= j < i + 1 implies (#[trigger] edges@[j])@ == renamed_edge(
                remap@,
                before[j]@,
            ) by {
                if j < i {
                    assert(edges@[j] == prev[j]);
                }
            }
        }
    }
    proof {
        assert(pending_views(edges@) =~= renamed_list(remap@, pending_views(before)));
    }
}

/// Renumbers every string that a node or a pending edge names.
pub fn phase4_apply_global_remap(
    arena: &mut NodeArena,
    all_edges: &mut Vec<Vec<PendingEdge>>,
    remap: &StringRemap,
)
    ensures
        final(arena)@ == renamed_slots(remap@, old(arena)@),
        pending_views_by_file(final(all_edges)@) == renamed_lists(
            remap@,
            pending_views_by_file(old(all_edges)@),
        ),
{
    if remap.is_empty() {
        proof {
            lemma_nothing_renamed(arena@, pending_views_by_file(all_edges@));
        }
        return ;
    }
    let ghost slots = arena@;
    let n: usize = arena.slots.len();
    for i in 0..n
        invariant
            n == slots.len(),
            arena@.len() == n,
            forall|j: int|
                0 <= j < i ==> #[trigger] arena@[j] == renamed_slot(remap@, slots[j]),
            forall|j: int| i <= j < n ==> #[trigger] arena@[j] == slots[j],
    {
        let slot: Slot = arena.slots[i];
        assert(slot == slots[i as int]);
        match slot.entry {
            Some(e) => {
                let mut entry: NodeEntry = e;
                remap_node_entry_global(&mut entry, remap);
                arena.slots.set(i, Slot { generation: slot.generation, entry: Some(entry) });
            },
            None => {},
        }
    }
    proof {
        assert(arena@ =~= renamed_slots(remap@, slots));
    }
    let ghost files = all_edges@;
    let m: usize = all_edges.len();
    for i in 0..m
        invariant
            m == files.len(),
            all_edges@.len() == m,
            forall|j: int|
                0 <= j < i ==> pending_views((#[trigger] all_edges@[j])@) == renamed_list(
                    remap@,
                    pending_views(files[j]@),
                ),
            forall|j: int| i <= j < m ==> #[trigger] all_edges@[j] == files[j],
    {
        let ghost prev = all_edges@;
        rename_edges(&mut all_edges[i], remap);
        proof {
            assert forall|j: int| 0 <= j < i + 1 implies pending_views(
                (#[trigger] all_edges@[j])@,
            ) == renamed_list(remap@, pending_views(files[j]@)) by {
                if j < i {
                    assert(all_edges@[j] == prev[j]);
                }
            }
        }
    }
    proof {
        assert(pending_views_by_file(all_edges@) =~= renamed_lists(
            remap@,
            pending_views_by_file(files),
        ));
    }
}

proof fn lemma_nothing_renamed(slots: Seq<Slot>, files: Seq<Seq<PendingView>>)
    ensures
        renamed_slots(Map::empty(), slots) == slots,
        renamed_lists(Map::empty(), files) == files,
{
    let none = Map::<u32, u32>::empty();
    assert forall|e: NodeEntry| on_entry(none, false, e) == e by {
        law_empty_remap_is_identity(crate::kinds::EdgeKind::Defines, e, false);
    }
    assert(renamed_slots(none, slots) =~= slots);
    assert forall|i: int| 0 <= i < files.len() implies renamed_list(none, #[trigger] files[i])
        == files[i] by {
        assert forall|j: int| 0 <= j < files[i].len() implies renamed_edge(none, #[trigger] files[i][j])
            == files[i][j] by {
            law_empty_remap_is_identity(
                files[i][j].kind,
                slots[0].entry->0,
                false,
            );
        }
        assert(renamed_list(none, files[i]) =~= files[i]);
    }
    assert(renamed_lists(none, files) =~= files);
}

/// `out` holds, under the committed identity of each node, what `staged` holds under its
/// staged one; and nothing else. Node `i` of the file is staged as generation one of
/// slot `i`, and committed as `ids[i]`.
pub open spec fn is_rekeyed<V>(out: Map<NodeId, V>, staged: Map<NodeId, V>, ids: Seq<NodeId>) -> bool {
    &&& forall|i: int|
        #![trigger ids[i]]
        0 <= i < ids.len() && staged.dom().contains(staged_id(i)) ==> out.dom().contains(ids[i])
    &&& forall|k: NodeId| #[trigger]
        out.dom().contains(k) ==> exists|i: int|
            #![trigger ids[i]]
            0 <= i < ids.len() && ids[i] == k && staged.dom().contains(staged_id(i)) && out[k]
                == staged[staged_id(i)]
}

/// The staged identity of node `i`.
pub open spec fn staged_id(i: int) -> NodeId {
    NodeId { index: i as u32, generation: 1 }
}

proof fn lemma_rekey_step<V>(
    out: Map<NodeId, V>,
    staged: Map<NodeId, V>,
    ids: Seq<NodeId>,
    node: NodeId,
    v: V,
)
    requires
        is_rekeyed(out, staged, ids),
        !staged.dom().contains(node),
        ids.len() <= u32::MAX + 1,
    ensures
        node.generation == 1 && node.index < ids.len() ==> is_rekeyed(
            out.insert(ids[node.index as int], v),
            staged.insert(node, v),
            ids,
        ),
        !(node.generation == 1 && node.index < ids.len()) ==> is_rekeyed(
            out,
            staged.insert(node, v),
            ids,
        ),
{
    let staged2 = staged.insert(node, v);
    if node.generation == 1 && node.index < ids.len() {
        let at = node.index as int;
        let out2 = out.insert(ids[at], v);
        assert(staged_id(at) == node);
        assert forall|k: NodeId| #[trigger] out2.dom().contains(k) implies exists|i: int|
            #![trigger ids[i]]
            0 <= i < ids.len() && ids[i] == k && staged2.dom().contains(staged_id(i)) && out2[k]
                == staged2[staged_id(i)] by {
            if k == ids[at] {
                assert(ids[at] == k && out2[k] == staged2[staged_id(at)]);
            } else {
                assert(out.dom().contains(k));
                let i = choose|i: int|
                    #![trigger ids[i]]
                    0 <= i < ids.len() && ids[i] == k && staged.dom().contains(staged_id(i))
                        && out[k] == staged[staged_id(i)];
                assert(ids[i] == k && staged2.dom().contains(staged_id(i)) && out2[k]
                    == staged2[staged_id(i)]);
            }
        }
    } else {
        assert forall|i: int| 0 <= i < ids.len() implies #[trigger] staged_id(i) != node by {}
        assert forall|k: NodeId| #[trigger] out.dom().contains(k) implies exists|i: int|
            #![trigger ids[i]]
            0 <= i < ids.len() && ids[i] == k && staged2.dom().contains(staged_id(i)) && out[k]
                == staged2[staged_id(i)] by {
            let i = choose|i: int|
                #![trigger ids[i]]
                0 <= i < ids.len() && ids[i] == k && staged.dom().contains(staged_id(i))
                    && out[k] == staged[staged_id(i)];
            assert(ids[i] == k && staged2.dom().contains(staged_id(i)) && out[k]
                == staged2[staged_id(i)]);
        }
    }
}

/// The metadata of a file under the identities its nodes were committed with. What is
/// stored for a node that was not committed is dropped.
pub fn rekey_staging_metadata_to_arena(
    staging_metadata: &NodeMetadataStore,
    per_file_node_ids: &[NodeId],
) -> (r: NodeMetadataStore)
    requires
        staging_metadata.wf(),
        per_file_node_ids@.len() <= u32::MAX + 1,
    ensures
        r.wf(),
        is_rekeyed(r@.entries, staging_metadata@.entries, per_file_node_ids@),
        is_rekeyed(r@.shapes, staging_metadata@.shapes, per_file_node_ids@),
{
    let ghost ids = per_file_node_ids@;
    let mut out = NodeMetadataStore::new();
    for i in 0..staging_metadata.entries.len()
        invariant
            staging_metadata.wf(),
            ids == per_file_node_ids@,
            ids.len() <= u32::MAX + 1,
            out.wf(),
            out@.shapes == Map::<NodeId, ShapeDescriptor>::empty(),
            is_rekeyed(out@.entries, entry_map(staging_metadata.entries@, i as int), ids),
    {
        let node: NodeId = staging_metadata.entries[i].node;
        proof {
            staging_metadata.lemma_fresh_entry(i as int);
            lemma_rekey_step(
                out@.entries,
                entry_map(staging_metadata.entries@, i as int),
                ids,
                node,
                staging_metadata.entries@[i as int].entry@,
            );
        }
        if node.generation == 1 && (node.index as usize) < per_file_node_ids.len() {
            out.insert_entry(
                per_file_node_ids[node.index as usize],
                staging_metadata.entries[i].entry.clone(),
            );
        }
    }
    for i in 0..staging_metadata.shapes.len()
        invariant
            staging_metadata.wf(),
            ids == per_file_node_ids@,
            ids.len() <= u32::MAX + 1,
            out.wf(),
            is_rekeyed(out@.entries, staging_metadata@.entries, ids),
            is_rekeyed(out@.shapes, shape_map(staging_metadata.shapes@, i as int), ids),
    {
        let node: NodeId = staging_metadata.shapes[i].node;
        proof {
            staging_metadata.lemma_fresh_shape(i as int);
            lemma_rekey_step(
                out@.shapes,
                shape_map(staging_metadata.shapes@, i as int),
                ids,
                node,
                staging_metadata.shapes@[i as int].shape,
            );
        }
        if node.generation == 1 && (node.index as usize) < per_file_node_ids.len() {
            out.insert_shape_descriptor(
                per_file_node_ids[node.index as usize],
                staging_metadata.shapes[i].shape,
            );
        }
    }
    out
}

/// Where committed identities are distinct, what is stored for a committed node is
/// exactly what was staged for it.
pub proof fn law_rekeyed_keeps_payload<V>(
    out: Map<NodeId, V>,
    staged: Map<NodeId, V>,
    ids: Seq<NodeId>,
    i: int,
)
    requires
        is_rekeyed(out, staged, ids),
        ids.no_duplicates(),
        0 <= i < ids.len(),
    ensures
        out.dom().contains(ids[i]) == staged.dom().contains(staged_id(i)),
        staged.dom().contains(staged_id(i)) ==> out[ids[i]] == staged[staged_id(i)],
{
    if out.dom().contains(ids[i]) {
        let j = choose|j: int|
            #![trigger ids[j]]
            0 <= j < ids.len() && ids[j] == ids[i] && staged.dom().contains(staged_id(j))
                && out[ids[i]] == staged[staged_id(j)];
        assert(j == i);
    }
}

/// What `a` stores, and what `b` stores in its place.
pub open spec fn merged_metadata(a: MetadataView, b: MetadataView) -> MetadataView {
    MetadataView {
        entries: a.entries.union_prefer_right(b.entries),
        shapes: a.shapes.union_prefer_right(b.shapes),
    }
}

/// The metadata after the first `n` staged stores were merged, without what they store
/// for nodes that were merged away.
pub open spec fn metadata_after(
    m: MetadataView,
    staged: Seq<(FileId, MetadataView)>,
    losers: Map<NodeId, NodeId>,
    n: int,
) -> MetadataView
    decreases n,
{
    if n <= 0 {
        m
    } else {
        merged_metadata(
            metadata_after(m, staged, losers, n - 1),
            kept_metadata(losers, staged[n - 1].1),
        )
    }
}

/// One of the first `n` staged stores has something for a node that was not merged away.
pub open spec fn any_kept(
    staged: Seq<(FileId, MetadataView)>,
    losers: Map<NodeId, NodeId>,
    n: int,
) -> bool {
    exists|i: int|
        #![trigger staged[i]]
        0 <= i < n && kept_metadata(losers, staged[i].1) != MetadataView::empty()
}

/// Merges the staged metadata of every file into that of the graph, but for nodes that
/// were merged away; returns whether there was any.
pub fn phase4d_prime_propagate_staging_metadata(
    graph: &mut CodeGraph,
    staged_metadata: Vec<(FileId, NodeMetadataStore)>,
    remap: &NodeRemapTable,
) -> (r: bool)
    requires
        old(graph).wf(),
        forall|i: int|
            0 <= i < staged_metadata@.len() ==> (#[trigger] staged_metadata@[i]).1.wf(),
    ensures
        final(graph).wf(),
        final(graph)@ == (GraphView {
            metadata: metadata_after(
                old(graph)@.metadata,
                views(staged_metadata@),
                remap@,
                staged_metadata@.len() as int,
            ),
            ..old(graph)@
        }),
        r == any_kept(views(staged_metadata@), remap@, staged_metadata@.len() as int),
{
    let ghost g = graph@;
    let ghost staged = views(staged_metadata@);
    let mut any: bool = false;
    for i in 0..staged_metadata.len()
        invariant
            staged == views(staged_metadata@),
            forall|j: int|
                0 <= j < staged_metadata@.len() ==> (#[trigger] staged_metadata@[j]).1.wf(),
            graph.wf(),
            graph@ == (GraphView {
                metadata: metadata_after(g.metadata, staged, remap@, i as int),
                ..g
            }),
            any == any_kept(staged, remap@, i as int),
    {
        assert(staged_metadata@[i as int].1.wf());
        assert(staged[i as int] == staged_metadata@[i as int]@);
        let kept = remap.kept(&staged_metadata[i].1);
        let ghost before = graph@.metadata;
        if !kept.is_empty() {
            graph.macro_metadata.merge(&kept);
            any = true;
            proof {
                assert(staged[i as int].1 == staged_metadata@[i as int].1@);
                assert(any_kept(staged, remap@, i + 1));
            }
        } else {
            proof {
                let e = MetadataView::empty();
                assert(before.entries.union_prefer_right(e.entries) =~= before.entries);
                assert(before.shapes.union_prefer_right(e.shapes) =~= before.shapes);
                assert(any_kept(staged, remap@, i + 1) == any_kept(staged, remap@, i as int)) by {
                    if any_kept(staged, remap@, i + 1) {
                        let j = choose|j: int|
                            #![trigger staged[j]]
                            0 <= j < i + 1 && kept_metadata(remap@, staged[j].1)
                                != MetadataView::empty();
                        assert(j < i);
                        assert(kept_metadata(remap@, staged[j].1) != MetadataView::empty());
                    }
                }
            }
        }
    }
    any
}

/// Edges of the first `n` files.
pub open spec fn edges_before<V>(files: Seq<Seq<V>>, n: int) -> int
    decreases n,
{
    if n <= 0 {
        0
    } else {
        edges_before(files, n - 1) + files[n - 1].len()
    }
}

/// A shorter prefix of files has no more edges.
pub proof fn lemma_edges_before_monotone<V>(files: Seq<Seq<V>>, m: int, n: int)
    requires
        0 <= m <= n,
    ensures
        0 <= edges_before(files, m) <= edges_before(files, n),
    decreases n,
{
    if m < n {
        lemma_edges_before_monotone(files, m, n - 1);
    } else if m > 0 {
        lemma_edges_before_monotone(files, m - 1, m - 1);
    }
}

/// The insertion of a pending edge under sequence number `seq`.
pub open spec fn delta_of(e: PendingView, seq: u64) -> DeltaView {
    DeltaView {
        source: e.source,
        target: e.target,
        kind: e.kind,
        seq,
        op: DeltaOp::Add,
        file: e.file,
        spans: e.spans,
    }
}

/// The insertions of the pending edges of file `f`: numbers run on from file to file and
/// from edge to edge.
pub open spec fn deltas_of(files: Seq<Seq<PendingView>>, seq_start: u64, f: int) -> Seq<DeltaView> {
    Seq::new(
        files[f].len(),
        |i: int| delta_of(files[f][i], (seq_start + edges_before(files, f) + i) as u64),
    )
}

fn file_to_delta(edges: &Vec<PendingEdge>, seq_start: u64) -> (r: Vec<DeltaEdge>)
    requires
        seq_start + edges@.len() <= u64::MAX,
    ensures
        delta_views(r@) == Seq::new(
            edges@.len(),
            |i: int| delta_of(edges@[i]@, (seq_start + i) as u64),
        ),
{
    let mut out: Vec<DeltaEdge> = Vec::new();
    for i in 0..edges.len()
        invariant
            seq_start + edges@.len() <= u64::MAX,
            delta_views(out@) =~= Seq::new(
                i as nat,
                |j: int| delta_of(edges@[j]@, (seq_start + j) as u64),
            ),
    {
        let e = &edges[i];
        let ghost before = delta_views(out@);
        let d = DeltaEdge {
            source: e.source,
            target: e.target,
            kind: e.kind.clone(),
            seq: seq_start + i as u64,
            op: DeltaOp::Add,
            file: e.file,
            spans: copy_spans(&e.spans),
        };
        out.push(d);
        proof {
            assert(delta_views(out@) =~= before.push(d@));
        }
    }
    out
}

/// The insertions of the pending edges, numbered from `seq_start` on, and the number
/// after the last.
pub fn pending_edges_to_delta(per_file_edges: &[Vec<PendingEdge>], seq_start: u64) -> (r: (
    Vec<Vec<DeltaEdge>>,
    u64,
))
    requires
        seq_start + edges_before(
            pending_views_by_file(per_file_edges@),
            per_file_edges@.len() as int,
        ) <= u64::MAX,
    ensures
        delta_views_by_file(r.0@) == Seq::new(
            per_file_edges@.len(),
            |f: int| deltas_of(pending_views_by_file(per_file_edges@), seq_start, f),
        ),
        r.1 == seq_start + edges_before(
            pending_views_by_file(per_file_edges@),
            per_file_edges@.len() as int,
        ),
{
    let ghost files = pending_views_by_file(per_file_edges@);
    let mut seq: u64 = seq_start;
    let mut out: Vec<Vec<DeltaEdge>> = Vec::new();
    for f in 0..per_file_edges.len()
        invariant
            files == pending_views_by_file(per_file_edges@),
            seq_start + edges_before(files, per_file_edges@.len() as int) <= u64::MAX,
            seq == seq_start + edges_before(files, f as int),
            delta_views_by_file(out@) =~= Seq::new(
                f as nat,
                |j: int| deltas_of(files, seq_start, j),
            ),
    {
        proof {
            lemma_edges_before_monotone(files, f + 1, per_file_edges@.len() as int);
            assert(files[f as int] == pending_views(per_file_edges@[f as int]@));
        }
        let ghost before = delta_views_by_file(out@);
        let deltas = file_to_delta(&per_file_edges[f], seq);
        proof {
            assert(delta_views(deltas@) =~= deltas_of(files, seq_start, f as int));
        }
        seq = seq + per_file_edges[f].len() as u64;
        out.push(deltas);
        proof {
            assert(delta_views_by_file(out@) =~= before.push(delta_views(deltas@)));
        }
    }
    (out, seq)
}

/// Every pending edge becomes one insertion, in order: no two insertions share a number,
/// and later ones have larger numbers.
pub proof fn law_delta_numbers_increase(
    files: Seq<Seq<PendingView>>,
    seq_start: u64,
    f: int,
    i: int,
    g: int,
    j: int,
)
    requires
        seq_start + edges_before(files, files.len() as int) <= u64::MAX,
        0 <= f < files.len(),
        0 <= i < files[f].len(),
        0 <= g < files.len(),
        0 <= j < files[g].len(),
        f < g || (f == g && i < j),
    ensures
        deltas_of(files, seq_start, f)[i].seq < deltas_of(files, seq_start, g)[j].seq,
{
    lemma_edges_before_monotone(files, 0, f);
    lemma_edges_before_monotone(files, g + 1, files.len() as int);
    if f < g {
        lemma_edges_before_monotone(files, f + 1, g);
    }
}

/// Rebuilds the indices from the arena.
pub fn rebuild_indices(graph: &mut CodeGraph)
    requires
        old(graph).wf(),
    ensures
        final(graph).wf(),
        final(graph)@ == (GraphView {
            indices: rows_of_arena(old(graph)@.nodes, old(graph)@.nodes.len() as int),
            ..old(graph)@
        }),
{
    graph.indices.build_from_arena(&graph.nodes);
}

/// The store after the first `n` pending edges were added, in order.
pub open spec fn with_pending(store: StoreView, edges: Seq<PendingView>, n: int) -> StoreView
    decreases n,
{
    if n <= 0 {
        store
    } else {
        let e = edges[n - 1];
        with_pending(store, edges, n - 1).added(e.source, e.target, e.kind, e.file, e.spans)
    }
}

/// The store after the pending edges of the first `n` files were added, in order.
pub open spec fn with_pending_files(store: StoreView, files: Seq<Seq<PendingView>>, n: int) -> StoreView
    decreases n,
{
    if n <= 0 {
        store
    } else {
        let edges = files[n - 1];
        with_pending(with_pending_files(store, files, n - 1), edges, edges.len() as int)
    }
}

/// Adding pending edges leaves those that are there as they are, and numbers the new ones
/// from the counter on.
pub proof fn law_bulk_insert_keeps_edges(store: StoreView, files: Seq<Seq<PendingView>>, n: int)
    requires
        0 <= n <= files.len(),
        store.next_seq + edges_before(files, n) <= u64::MAX,
    ensures
        with_pending_files(store, files, n).next_seq == store.next_seq + edges_before(files, n),
        with_pending_files(store, files, n).edges.len() == store.edges.len() + edges_before(
            files,
            n,
        ),
        forall|i: int|
            0 <= i < store.edges.len() ==> #[trigger] with_pending_files(store, files, n).edges[i]
                == store.edges[i],
    decreases n,
{
    if n > 0 {
        lemma_edges_before_monotone(files, n - 1, n);
        law_bulk_insert_keeps_edges(store, files, n - 1);
        let mid = with_pending_files(store, files, n - 1);
        lemma_with_pending(mid, files[n - 1], files[n - 1].len() as int);
        assert forall|i: int| 0 <= i < store.edges.len() implies #[trigger] with_pending_files(
            store,
            files,
            n,
        ).edges[i] == store.edges[i] by {
            assert(mid.edges[i] == store.edges[i]);
        }
    }
}

proof fn lemma_with_pending(store: StoreView, edges: Seq<PendingView>, n: int)
    requires
        0 <= n <= edges.len(),
        store.next_seq + n <= u64::MAX,
    ensures
        with_pending(store, edges, n).next_seq == store.next_seq + n,
        with_pending(store, edges, n).edges.len() == store.edges.len() + n,
        forall|i: int|
            0 <= i < store.edges.len() ==> #[trigger] with_pending(store, edges, n).edges[i]
                == store.edges[i],
        forall|i: int|
            0 <= i < n ==> #[trigger] with_pending(store, edges, n).edges[store.edges.len() + i]
                == (EdgeView {
                source: edges[i].source,
                target: edges[i].target,
                kind: edges[i].kind,
                seq: (store.next_seq + i) as u64,
                file: edges[i].file,
                spans: edges[i].spans,
            }),
    decreases n,
{
    if n > 0 {
        lemma_with_pending(store, edges, n - 1);
        let before = with_pending(store, edges, n - 1);
        let after = with_pending(store, edges, n);
        assert forall|i: int| 0 <= i < store.edges.len() implies #[trigger] after.edges[i]
            == store.edges[i] by {
            assert(before.edges[i] == store.edges[i]);
        }
        assert forall|i: int| 0 <= i < n implies #[trigger] after.edges[store.edges.len() + i] == (
        EdgeView {
            source: edges[i].source,
            target: edges[i].target,
            kind: edges[i].kind,
            seq: (store.next_seq + i) as u64,
            file: edges[i].file,
            spans: edges[i].spans,
        }) by {
            if i < n - 1 {
                assert(after.edges[store.edges.len() + i] == before.edges[store.edges.len() + i]);
            }
        }
    }
}

/// Adds every pending edge, in order and none of them twice or left out; returns the next
/// sequence number.
pub fn phase4d_bulk_insert_edges(graph: &mut CodeGraph, per_file_edges: &[Vec<PendingEdge>]) -> (r:
    u64)
    requires
        old(graph).wf(),
        old(graph)@.edges.next_seq + edges_before(
            pending_views_by_file(per_file_edges@),
            per_file_edges@.len() as int,
        ) <= u64::MAX,
    ensures
        final(graph).wf(),
        final(graph)@ == (GraphView {
            edges: with_pending_files(
                old(graph)@.edges,
                pending_views_by_file(per_file_edges@),
                per_file_edges@.len() as int,
            ),
            ..old(graph)@
        }),
        r == final(graph)@.edges.next_seq,
{
    let ghost g = graph@;
    let ghost files = pending_views_by_file(per_file_edges@);
    let ghost n = per_file_edges@.len() as int;
    let start: u64 = graph.edges.seq_counter();
    let (deltas, last) = pending_edges_to_delta(per_file_edges, start);
    proof {
        assert(delta_views_by_file(deltas@).len() == deltas@.len());
    }
    for f in 0..deltas.len()
        invariant
            graph.wf(),
            files == pending_views_by_file(per_file_edges@),
            n == per_file_edges@.len(),
            n == deltas@.len(),
            start == g.edges.next_seq,
            start + edges_before(files, n) <= u64::MAX,
            delta_views_by_file(deltas@) == Seq::new(
                n as nat,
                |f: int| deltas_of(files, start, f),
            ),
            graph@ == (GraphView { edges: with_pending_files(g.edges, files, f as int), ..g }),
    {
        proof {
            lemma_edges_before_monotone(files, f as int, f + 1);
            lemma_edges_before_monotone(files, f + 1, n);
            law_bulk_insert_keeps_edges(g.edges, files, f as int);
            assert(delta_views_by_file(deltas@)[f as int] == deltas_of(files, start, f as int));
            assert(delta_views(deltas@[f as int]@) == deltas_of(files, start, f as int));
        }
        let ghost mid = graph@.edges;
        graph.edges.add_deltas(&deltas[f]);
        proof {
            lemma_deltas_are_pending(
                mid,
                deltas_of(files, start, f as int),
                files[f as int],
                files[f as int].len() as int,
            );
        }
    }
    proof {
        law_bulk_insert_keeps_edges(g.edges, files, n);
    }
    last
}

proof fn lemma_deltas_are_pending(
    store: StoreView,
    deltas: Seq<DeltaView>,
    edges: Seq<PendingView>,
    n: int,
)
    requires
        deltas.len() == edges.len(),
        0 <= n <= edges.len(),
        store.next_seq + edges.len() <= u64::MAX,
        forall|i: int|
            0 <= i < edges.len() ==> #[trigger] deltas[i] == delta_of(
                edges[i],
                (store.next_seq + i) as u64,
            ),
    ensures
        crate::edges::with_deltas(store, deltas, n) == with_pending(store, edges, n),
    decreases n,
{
    if n > 0 {
        lemma_deltas_are_pending(store, deltas, edges, n - 1);
        lemma_with_pending(store, edges, n - 1);
    }
}

} // verus!
