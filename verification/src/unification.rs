//! Merging nodes: which node stands for which, and the merge itself.
use vstd::prelude::*;

use crate::arena::{live, NodeArena, NodeEntry, Slot};
use crate::edges::{
    pending_views, pending_views_by_file, EdgeStore, EdgeView, PendingEdge,
    PendingView, StoreView,
};
use crate::ids::{NodeId, StringId};
use crate::metadata::{entry_map, shape_map, MetadataView, NodeMetadataStore};
use crate::node_map::NodeMap;

verus! {

/// A table that says which node stands for which.
pub struct NodeRemapTable {
    pub map: NodeMap<NodeId>,
}

impl View for NodeRemapTable {
    type V = Map<NodeId, NodeId>;

    open spec fn view(&self) -> Map<NodeId, NodeId> {
        self.map@
    }
}

/// The node that stands for `id`: itself where the table says nothing.
pub open spec fn moved(table: Map<NodeId, NodeId>, id: NodeId) -> NodeId {
    if table.dom().contains(id) {
        table[id]
    } else {
        id
    }
}

/// A pending edge between the nodes that stand for its ends.
pub open spec fn moved_pending(table: Map<NodeId, NodeId>, e: PendingView) -> PendingView {
    PendingView { source: moved(table, e.source), target: moved(table, e.target), ..e }
}

/// A live edge between the nodes that stand for its ends.
pub open spec fn moved_edge(table: Map<NodeId, NodeId>, e: EdgeView) -> EdgeView {
    EdgeView { source: moved(table, e.source), target: moved(table, e.target), ..e }
}

/// The pending edges of one file, between the nodes that stand for their ends.
pub open spec fn moved_list(table: Map<NodeId, NodeId>, edges: Seq<PendingView>) -> Seq<
    PendingView,
> {
    Seq::new(edges.len(), |i: int| moved_pending(table, edges[i]))
}

/// The pending edges of each file, between the nodes that stand for their ends.
pub open spec fn moved_lists(table: Map<NodeId, NodeId>, files: Seq<Seq<PendingView>>) -> Seq<
    Seq<PendingView>,
> {
    Seq::new(files.len(), |i: int| moved_list(table, files[i]))
}

/// The edge store, each edge between the nodes that stand for its ends.
pub open spec fn moved_store(table: Map<NodeId, NodeId>, store: StoreView) -> StoreView {
    StoreView {
        edges: Seq::new(store.edges.len(), |i: int| moved_edge(table, store.edges[i])),
        ..store
    }
}

/// The metadata of nodes for which no other node stands.
pub open spec fn kept_metadata(table: Map<NodeId, NodeId>, m: MetadataView) -> MetadataView {
    MetadataView {
        entries: m.entries.remove_keys(table.dom()),
        shapes: m.shapes.remove_keys(table.dom()),
    }
}

impl NodeRemapTable {
    /// The table is well formed.
    pub open spec fn wf(&self) -> bool {
        self.map.wf()
    }

    /// A table in which every node stands for itself.
    pub fn new() -> (r: NodeRemapTable)
        ensures
            r.wf(),
            r@ == Map::<NodeId, NodeId>::empty(),
    {
        NodeRemapTable { map: NodeMap::new() }
    }

    /// Lets `to` stand for `from`.
    pub fn insert(&mut self, from: NodeId, to: NodeId)
        requires
            old(self).wf(),
        ensures
            final(self).wf(),
            final(self)@ == old(self)@.insert(from, to),
    {
        self.map.insert(from, to);
    }

    /// The node that stands for `id`, if another was named.
    pub fn get(&self, id: NodeId) -> (r: Option<NodeId>)
        ensures
            match r {
                Some(to) => self@.dom().contains(id) && self@[id] == to,
                None => !self@.dom().contains(id),
            },
    {
        self.map.get(id)
    }

    /// The node that stands for `id`.
    pub fn resolve(&self, id: NodeId) -> (r: NodeId)
        ensures
            r == moved(self@, id),
    {
        match self.get(id) {
            Some(to) => to,
            None => id,
        }
    }

    /// Whether every node stands for itself.
    pub fn is_empty(&self) -> (r: bool)
        requires
            self.wf(),
        ensures
            r == (self@ == Map::<NodeId, NodeId>::empty()),
    {
        self.map.is_empty()
    }

    /// Lets every pending edge run between the nodes that stand for its ends.
    pub fn apply_to_edges(&self, all_edges: &mut Vec<Vec<PendingEdge>>)
        ensures
            pending_views_by_file(final(all_edges)@) == moved_lists(
                self@,
                pending_views_by_file(old(all_edges)@),
            ),
    {
        let ghost before = all_edges@;
        let mut out: Vec<Vec<PendingEdge>> = Vec::new();
        for f in 0..all_edges.len()
            invariant
                all_edges@ == before,
                out@.len() == f,
                forall|j: int|
                    0 <= j < f ==> pending_views((#[trigger] out@[j])@) == moved_list(
                        self@,
                        pending_views(before[j]@),
                    ),
        {
            let moved = self.moved_edges(&all_edges[f]);
            let ghost prev = out@;
            out.push(moved);
            proof {
                assert forall|j: int| 0 <= j < f + 1 implies pending_views((#[trigger] out@[j])@)
                    == moved_list(self@, pending_views(before[j]@)) by {
                    if j < f {
                        assert(out@[j] == prev[j]);
                    }
                }
            }
        }
        proof {
            assert(pending_views_by_file(out@) =~= moved_lists(
                self@,
                pending_views_by_file(before),
            ));
        }
        *all_edges = out;
    }

    fn moved_edges(&self, edges: &Vec<PendingEdge>) -> (r: Vec<PendingEdge>)
        ensures
            pending_views(r@) == moved_list(self@, pending_views(edges@)),
    {
        let mut out: Vec<PendingEdge> = Vec::new();
        for i in 0..edges.len()
            invariant
                out@.len() == i,
                forall|j: int|
                    0 <= j < i ==> (#[trigger] out@[j])@ == moved_pending(self@, edges@[j]@),
        {
            let mut e = edges[i].clone();
            e.source = self.resolve(e.source);
            e.target = self.resolve(e.target);
            let ghost prev = out@;
            out.push(e);
            proof {
                assert forall|j: int| 0 <= j < i + 1 implies (#[trigger] out@[j])@ == moved_pending(
                    self@,
                    edges@[j]@,
                ) by {
                    if j < i {
                        assert(out@[j] == prev[j]);
                    }
                }
            }
        }
        proof {
            assert(pending_views(out@) =~= moved_list(self@, pending_views(edges@)));
        }
        out
    }

    /// Lets every live edge run between the nodes that stand for its ends.
    pub fn apply_to_committed_edges(&self, store: &mut EdgeStore)
        ensures
            final(store)@ == moved_store(self@, old(store)@),
    {
        let ghost before = store.edges@;
        let n: usize = store.edges.len();
        for i in 0..n
            invariant
                n == before.len(),
                store.edges@.len() == n,
                store.next_seq == old(store).next_seq,
                forall|j: int|
                    0 <= j < i ==> (#[trigger] store.edges@[j])@ == moved_edge(self@, before[j]@),
                forall|j: int| i <= j < n ==> #[trigger] store.edges@[j] == before[j],
        {
            let mut e = store.edges[i].clone();
            e.source = self.resolve(e.source);
            e.target = self.resolve(e.target);
            let ghost prev = store.edges@;
            store.edges.set(i, e);
            proof {
                assert forall|j: int| 0 <= j < i + 1 implies (#[trigger] store.edges@[j])@
                    == moved_edge(self@, before[j]@) by {
                    if j < i {
                        assert(store.edges@[j] == prev[j]);
                    }
                }
            }
        }
        proof {
            assert(store@.edges =~= moved_store(self@, old(store)@).edges);
        }
    }

    /// The metadata of nodes for which no other node stands.
    pub fn kept(&self, store: &NodeMetadataStore) -> (r: NodeMetadataStore)
        requires
            store.wf(),
        ensures
            r.wf(),
            r@ == kept_metadata(self@, store@),
    {
        let mut out = NodeMetadataStore::new();
        proof {
            assert(entry_map(store.entries@, 0).remove_keys(self@.dom()) =~= Map::empty());
            assert(shape_map(store.shapes@, 0).remove_keys(self@.dom()) =~= Map::empty());
        }
        for i in 0..store.entries.len()
            invariant
                out.wf(),
                out@.entries == entry_map(store.entries@, i as int).remove_keys(self@.dom()),
                out@.shapes == Map::<NodeId, crate::metadata::ShapeDescriptor>::empty(),
        {
            let node: NodeId = store.entries[i].node;
            if self.get(node).is_none() {
                out.insert_entry(node, store.entries[i].entry.clone());
            }
            proof {
                assert(out@.entries =~= entry_map(store.entries@, i + 1).remove_keys(self@.dom()));
            }
        }
        for i in 0..store.shapes.len()
            invariant
                out.wf(),
                out@.entries == store@.entries.remove_keys(self@.dom()),
                out@.shapes == shape_map(store.shapes@, i as int).remove_keys(self@.dom()),
        {
            let node: NodeId = store.shapes[i].node;
            if self.get(node).is_none() {
                out.insert_shape_descriptor(node, store.shapes[i].shape);
            }
            proof {
                assert(out@.shapes =~= shape_map(store.shapes@, i + 1).remove_keys(self@.dom()));
            }
        }
        out
    }
}

/// Why two nodes cannot be merged.
#[derive(Clone, Copy, Debug, PartialEq, Eq, Structural)]
pub enum MergeError {
    /// The loser and the winner are one node.
    SameNode,
    /// The loser is not live.
    NoLoser,
    /// The winner is not live.
    NoWinner,
}

/// The winner of a merge: it takes over what the loser knows and it does not.
pub open spec fn merged_winner(winner: NodeEntry, loser: NodeEntry) -> NodeEntry {
    NodeEntry {
        signature: if winner.signature is None {
            loser.signature
        } else {
            winner.signature
        },
        doc: if winner.doc is None {
            loser.doc
        } else {
            winner.doc
        },
        visibility: if winner.visibility is None {
            loser.visibility
        } else {
            winner.visibility
        },
        ..winner
    }
}

/// The loser of a merge: nothing names it any more.
pub open spec fn merged_loser(loser: NodeEntry) -> NodeEntry {
    NodeEntry { name: StringId::invalid(), qualified_name: None, ..loser }
}

/// Whether `loser` can be merged into `winner`.
pub open spec fn mergeable(slots: Seq<Slot>, loser: NodeId, winner: NodeId) -> bool {
    loser != winner && live(slots, loser) is Some && live(slots, winner) is Some
}

/// The arena after `loser` was merged into `winner`.
pub open spec fn merged(slots: Seq<Slot>, loser: NodeId, winner: NodeId) -> Seq<Slot> {
    let l = live(slots, loser)->0;
    let w = live(slots, winner)->0;
    slots.update(
        winner.index as int,
        Slot { generation: winner.generation, entry: Some(merged_winner(w, l)) },
    ).update(
        loser.index as int,
        Slot { generation: loser.generation, entry: Some(merged_loser(l)) },
    )
}

/// Merges `loser` into `winner`. The slot of the loser stays occupied, and nothing names
/// it any more.
pub fn merge_node_into(arena: &mut NodeArena, loser: NodeId, winner: NodeId) -> (r: Result<
    (),
    MergeError,
>)
    ensures
        match r {
            Ok(_) => mergeable(old(arena)@, loser, winner) && final(arena)@ == merged(
                old(arena)@,
                loser,
                winner,
            ),
            Err(e) => final(arena)@ == old(arena)@ && match e {
                MergeError::SameNode => loser == winner,
                MergeError::NoLoser => loser != winner && live(old(arena)@, loser) is None,
                MergeError::NoWinner => loser != winner && live(old(arena)@, loser) is Some
                    && live(old(arena)@, winner) is None,
            },
        },
{
    if loser == winner {
        return Err(MergeError::SameNode);
    }
    let mut l: NodeEntry = match arena.get(loser) {
        Some(e) => e,
        None => {
            return Err(MergeError::NoLoser);
        },
    };
    let mut w: NodeEntry = match arena.get(winner) {
        Some(e) => e,
        None => {
            return Err(MergeError::NoWinner);
        },
    };
    if w.signature.is_none() {
        w.signature = l.signature;
    }
    if w.doc.is_none() {
        w.doc = l.doc;
    }
    if w.visibility.is_none() {
        w.visibility = l.visibility;
    }
    l.name = StringId::invalid();
    l.qualified_name = None;
    arena.replace(winner, w);
    arena.replace(loser, l);
    Ok(())
}

} // verus!
