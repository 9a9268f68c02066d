//! What becomes of a chunk of files, and of the edges that are held back for later.
use vstd::prelude::*;

use crate::arena::{live, NodeEntry, Slot};
use crate::edges::{DeltaOp, EdgeView, PendingView, StoreView};
use crate::graph::GraphView;
use crate::ids::{FileId, NodeId, StringId};
use crate::metadata::MetadataView;
use crate::parallel_commit::c_drain::{chunk_drain, drained, file_drain, DrainView};
use crate::parallel_commit::commit::{file_slots, file_texts, strings_written};
use crate::parallel_commit::commit_laws::{lemma_reads, reads_as};
use crate::parallel_commit::finalize::{
    deltas_of, edges_before, lemma_edges_before_monotone, with_pending, with_pending_files,
};
use crate::parallel_commit::phase3::{
    chunk_committed, committed_slots, committed_texts, lemma_before_monotone, node_len, node_piece,
    nodes_before, ranges_forward, string_len, string_piece, strings_before,
};
use crate::parallel_commit::plan::FilePlan;
use crate::staging::{StagedString, StagingGraph};
use crate::unification::{kept_metadata, mergeable, merged, moved_lists, moved_store};

verus! {

/// A node that takes another in keeps all that it has, and gets from the other the
/// signature, the documentation and the visibility that it lacks. The other loses its names,
/// and nothing else; no third node is touched.
pub proof fn law_merging_fills_gaps(slots: Seq<Slot>, loser: NodeId, winner: NodeId)
    requires
        mergeable(slots, loser, winner),
        loser.index != winner.index,
    ensures
        ({
            let l = live(slots, loser)->0;
            let w = live(slots, winner)->0;
            let after = merged(slots, loser, winner);
            let x = live(after, winner)->0;
            let y = live(after, loser)->0;
            &&& live(after, winner) is Some
            &&& live(after, loser) is Some
            &&& x.signature == (if w.signature is Some {
                w.signature
            } else {
                l.signature
            })
            &&& x.doc == (if w.doc is Some {
                w.doc
            } else {
                l.doc
            })
            &&& x.visibility == (if w.visibility is Some {
                w.visibility
            } else {
                l.visibility
            })
            &&& x == (NodeEntry {
                signature: x.signature,
                doc: x.doc,
                visibility: x.visibility,
                ..w
            })
            &&& y == (NodeEntry { name: StringId(u32::MAX), qualified_name: None, ..l })
            &&& forall|id: NodeId|
                id != winner && id != loser ==> #[trigger] live(after, id) == live(slots, id)
        }),
{
    let after = merged(slots, loser, winner);
    assert forall|id: NodeId| id != winner && id != loser implies #[trigger] live(after, id)
        == live(slots, id) by {
        if id.index == winner.index {
            assert(id.generation != winner.generation);
        }
        if id.index == loser.index {
            assert(id.generation != loser.generation);
        }
    }
}

/// `to` is where `from` went by `table`.
pub open spec fn went_to(table: Map<NodeId, NodeId>, from: NodeId, to: NodeId) -> bool {
    if table.dom().contains(from) {
        to == table[from]
    } else {
        to == from
    }
}

/// Where nodes were merged, edges lead from and to what is left, and are otherwise what
/// they were; and what is noted of nodes that are gone is dropped, nothing else.
pub proof fn law_merged_nodes_leave_no_edge(
    table: Map<NodeId, NodeId>,
    files: Seq<Seq<PendingView>>,
    store: StoreView,
    m: MetadataView,
)
    ensures
        moved_lists(table, files).len() == files.len(),
        forall|f: int|
            0 <= f < files.len() ==> (#[trigger] moved_lists(table, files)[f]).len()
                == files[f].len(),
        forall|f: int, i: int|
            0 <= f < files.len() && 0 <= i < files[f].len() ==> {
                let x = #[trigger] moved_lists(table, files)[f][i];
                let e = files[f][i];
                &&& went_to(table, e.source, x.source)
                &&& went_to(table, e.target, x.target)
                &&& x == (PendingView { source: x.source, target: x.target, ..e })
            },
        moved_store(table, store).next_seq == store.next_seq,
        moved_store(table, store).edges.len() == store.edges.len(),
        forall|i: int|
            0 <= i < store.edges.len() ==> {
                let x = #[trigger] moved_store(table, store).edges[i];
                let e = store.edges[i];
                &&& went_to(table, e.source, x.source)
                &&& went_to(table, e.target, x.target)
                &&& x == (EdgeView { source: x.source, target: x.target, ..e })
            },
        forall|id: NodeId| #[trigger]
            kept_metadata(table, m).entries.dom().contains(id) <==> m.entries.dom().contains(id)
                && !table.dom().contains(id),
        forall|id: NodeId| #[trigger]
            kept_metadata(table, m).entries.dom().contains(id) ==> kept_metadata(
                table,
                m,
            ).entries[id] == m.entries[id],
        forall|id: NodeId| #[trigger]
            kept_metadata(table, m).shapes.dom().contains(id) <==> m.shapes.dom().contains(id)
                && !table.dom().contains(id),
        forall|id: NodeId| #[trigger]
            kept_metadata(table, m).shapes.dom().contains(id) ==> kept_metadata(
                table,
                m,
            ).shapes[id] == m.shapes[id],
{
}

/// Each pending edge of a file becomes an insertion that says the same; insertions are
/// numbered through, from `seq_start` on, file after file.
pub proof fn law_insertions_say_what_pending_edges_say(
    files: Seq<Seq<PendingView>>,
    seq_start: u64,
    f: int,
    i: int,
)
    requires
        seq_start + files.flatten().len() <= u64::MAX,
        0 <= f < files.len(),
        0 <= i < files[f].len(),
    ensures
        deltas_of(files, seq_start, f).len() == files[f].len(),
        ({
            let d = deltas_of(files, seq_start, f)[i];
            let e = files[f][i];
            &&& d.source == e.source
            &&& d.target == e.target
            &&& d.kind == e.kind
            &&& d.file == e.file
            &&& d.spans == e.spans
            &&& d.op == DeltaOp::Add
            &&& d.seq == seq_start + files.take(f).flatten().len() + i
        }),
{
    lemma_edges_before(files, f);
    lemma_edges_before(files, f + 1);
    lemma_edges_before(files, files.len() as int);
    lemma_edges_before_monotone(files, f + 1, files.len() as int);
    assert(files.take(files.len() as int) =~= files);
}

pub(crate) proof fn lemma_flatten_take<V>(files: Seq<Seq<V>>, n: int)
    requires
        0 < n <= files.len(),
    ensures
        files.take(n).flatten() == files.take(n - 1).flatten() + files[n - 1],
{
    let a = files.take(n);
    let b = files.take(n - 1);
    a.lemma_flatten_and_flatten_alt_are_equivalent();
    b.lemma_flatten_and_flatten_alt_are_equivalent();
    assert(a.drop_last() =~= b);
    assert(a.last() == files[n - 1]);
}

proof fn lemma_edges_before<V>(files: Seq<Seq<V>>, n: int)
    requires
        0 <= n <= files.len(),
    ensures
        edges_before(files, n) == files.take(n).flatten().len(),
    decreases n,
{
    if n > 0 {
        lemma_edges_before(files, n - 1);
        lemma_flatten_take(files, n);
    } else {
        assert(files.take(0) =~= Seq::empty());
    }
}

proof fn lemma_added(store: StoreView, edges: Seq<PendingView>, n: int)
    requires
        0 <= n <= edges.len(),
        store.next_seq + n <= u64::MAX,
    ensures
        ({
            let r = with_pending(store, edges, n);
            &&& r.next_seq == store.next_seq + n
            &&& r.edges.len() == store.edges.len() + n
            &&& forall|i: int|
                0 <= i < store.edges.len() ==> #[trigger] r.edges[i] == store.edges[i]
            &&& forall|i: int|
                0 <= i < n ==> is_added(
                    #[trigger] edges[i],
                    store.next_seq + i,
                    r.edges[store.edges.len() + i],
                )
        }),
    decreases n,
{
    if n > 0 {
        lemma_added(store, edges, n - 1);
        let b = with_pending(store, edges, n - 1);
        let r = with_pending(store, edges, n);
        assert forall|i: int| 0 <= i < n implies is_added(
            #[trigger] edges[i],
            store.next_seq + i,
            r.edges[store.edges.len() + i],
        ) by {
            if i < n - 1 {
                assert(r.edges[store.edges.len() + i] == b.edges[store.edges.len() + i]);
            }
        }
        assert forall|i: int| 0 <= i < store.edges.len() implies #[trigger] r.edges[i]
            == store.edges[i] by {
            assert(b.edges[i] == store.edges[i]);
        }
    }
}

/// `x` says what `e` says, under number `seq`.
pub open spec fn is_added(e: PendingView, seq: int, x: EdgeView) -> bool {
    &&& x.source == e.source
    &&& x.target == e.target
    &&& x.kind == e.kind
    &&& x.file == e.file
    &&& x.spans == e.spans
    &&& x.seq == seq
}

/// Adding the pending edges of all files puts them behind those that are there, file after
/// file, each as it is and with the next number.
pub proof fn law_pending_edges_are_added_in_order(store: StoreView, files: Seq<Seq<PendingView>>)
    requires
        store.next_seq + files.flatten().len() <= u64::MAX,
    ensures
        ({
            let all = files.flatten();
            let r = with_pending_files(store, files, files.len() as int);
            &&& r.edges.len() == store.edges.len() + all.len()
            &&& r.next_seq == store.next_seq + all.len()
            &&& forall|i: int|
                0 <= i < store.edges.len() ==> #[trigger] r.edges[i] == store.edges[i]
            &&& forall|i: int|
                0 <= i < all.len() ==> is_added(
                    #[trigger] all[i],
                    store.next_seq + i,
                    r.edges[store.edges.len() + i],
                )
        }),
{
    assert(files.take(files.len() as int) =~= files);
    lemma_all_added(store, files, files.len() as int);
}

proof fn lemma_all_added(store: StoreView, files: Seq<Seq<PendingView>>, n: int)
    requires
        0 <= n <= files.len(),
        store.next_seq + files.take(n).flatten().len() <= u64::MAX,
    ensures
        ({
            let all = files.take(n).flatten();
            let r = with_pending_files(store, files, n);
            &&& r.edges.len() == store.edges.len() + all.len()
            &&& r.next_seq == store.next_seq + all.len()
            &&& forall|i: int|
                0 <= i < store.edges.len() ==> #[trigger] r.edges[i] == store.edges[i]
            &&& forall|i: int|
                0 <= i < all.len() ==> is_added(
                    #[trigger] all[i],
                    store.next_seq + i,
                    r.edges[store.edges.len() + i],
                )
        }),
    decreases n,
{
    if n > 0 {
        lemma_flatten_take(files, n);
        let before = files.take(n - 1).flatten();
        let all = files.take(n).flatten();
        let last = files[n - 1];
        lemma_all_added(store, files, n - 1);
        let b = with_pending_files(store, files, n - 1);
        let r = with_pending_files(store, files, n);
        lemma_added(b, last, last.len() as int);
        assert forall|i: int| 0 <= i < all.len() implies is_added(
            #[trigger] all[i],
            store.next_seq + i,
            r.edges[store.edges.len() + i],
        ) by {
            if i < before.len() {
                assert(all[i] == before[i]);
                assert(is_added(before[i], store.next_seq + i, b.edges[store.edges.len() + i]));
                assert(r.edges[store.edges.len() + i] == b.edges[store.edges.len() + i]);
            } else {
                let k = i - before.len();
                assert(all[i] == last[k]);
                assert(is_added(last[k], b.next_seq + k, r.edges[b.edges.len() + k]));
            }
        }
        assert forall|i: int| 0 <= i < store.edges.len() implies #[trigger] r.edges[i]
            == store.edges[i] by {
            assert(b.edges[i] == store.edges[i]);
        }
    } else {
        assert(files.take(0) =~= Seq::empty());
    }
}

/// Each range begins where the one before it ends.
pub open spec fn in_a_row(plans: Seq<FilePlan>) -> bool {
    forall|i: int, j: int|
        0 <= i < plans.len() && j == i + 1 && j < plans.len() ==> (
        #[trigger] plans[j]).node_range.start == (#[trigger] plans[i]).node_range.end
            && plans[j].string_range.start == plans[i].string_range.end
}

proof fn lemma_in_a_row(plans: Seq<FilePlan>, i: int)
    requires
        in_a_row(plans),
        0 <= i < plans.len(),
    ensures
        plans[i].node_range.start == plans[0].node_range.start + nodes_before(plans, i),
        plans[i].string_range.start == plans[0].string_range.start + strings_before(plans, i),
    decreases i,
{
    if i > 0 {
        lemma_in_a_row(plans, i - 1);
        assert(plans[i].node_range.start == plans[i - 1].node_range.end);
    }
}

proof fn lemma_slot_of(
    s: Seq<Slot>,
    plans: Seq<FilePlan>,
    graphs: Seq<&StagingGraph>,
    n: int,
    i: int,
    j: int,
)
    requires
        0 <= i < n <= plans.len(),
        plans.len() == graphs.len(),
        ranges_forward(plans),
        nodes_before(plans, n) <= s.len(),
        0 <= j < node_len(plans[i]),
    ensures
        committed_slots(s, plans, graphs, n).len() == nodes_before(plans, n),
        committed_slots(s, plans, graphs, n)[nodes_before(plans, i) + j] == file_slots(
            *graphs[i],
            plans[i],
            node_piece(s, plans, i),
            string_len(plans[i]) as nat,
        )[j],
    decreases n,
{
    lemma_slots_len(s, plans, graphs, n);
    lemma_slots_len(s, plans, graphs, n - 1);
    lemma_before_monotone(plans, n - 1, n);
    lemma_before_monotone(plans, i, n - 1);
    lemma_before_monotone(plans, i + 1, n);
    lemma_before_monotone(plans, 0, i);
    if i < n - 1 {
        lemma_slot_of(s, plans, graphs, n - 1, i, j);
        lemma_before_monotone(plans, i + 1, n - 1);
    }
}

proof fn lemma_slots_len(s: Seq<Slot>, plans: Seq<FilePlan>, graphs: Seq<&StagingGraph>, n: int)
    requires
        0 <= n <= plans.len(),
        plans.len() == graphs.len(),
        ranges_forward(plans),
        nodes_before(plans, n) <= s.len(),
    ensures
        committed_slots(s, plans, graphs, n).len() == nodes_before(plans, n),
    decreases n,
{
    if n > 0 {
        lemma_before_monotone(plans, n - 1, n);
        lemma_before_monotone(plans, 0, n - 1);
        lemma_slots_len(s, plans, graphs, n - 1);
    }
}

proof fn lemma_text_of(
    s: Seq<Option<Seq<char>>>,
    plans: Seq<FilePlan>,
    graphs: Seq<&StagingGraph>,
    n: int,
    i: int,
    j: int,
)
    requires
        0 <= i < n <= plans.len(),
        plans.len() == graphs.len(),
        ranges_forward(plans),
        strings_before(plans, n) <= s.len(),
        0 <= j < string_len(plans[i]),
    ensures
        committed_texts(s, plans, graphs, n).len() == strings_before(plans, n),
        committed_texts(s, plans, graphs, n)[strings_before(plans, i) + j] == file_texts(
            *graphs[i],
            string_piece(s, plans, i),
        )[j],
    decreases n,
{
    lemma_texts_len(s, plans, graphs, n);
    lemma_texts_len(s, plans, graphs, n - 1);
    lemma_before_monotone(plans, n - 1, n);
    lemma_before_monotone(plans, i, n - 1);
    lemma_before_monotone(plans, i + 1, n);
    lemma_before_monotone(plans, 0, i);
    if i < n - 1 {
        lemma_text_of(s, plans, graphs, n - 1, i, j);
        lemma_before_monotone(plans, i + 1, n - 1);
    }
}

proof fn lemma_texts_len(
    s: Seq<Option<Seq<char>>>,
    plans: Seq<FilePlan>,
    graphs: Seq<&StagingGraph>,
    n: int,
)
    requires
        0 <= n <= plans.len(),
        plans.len() == graphs.len(),
        ranges_forward(plans),
        strings_before(plans, n) <= s.len(),
    ensures
        committed_texts(s, plans, graphs, n).len() == strings_before(plans, n),
    decreases n,
{
    if n > 0 {
        lemma_before_monotone(plans, n - 1, n);
        lemma_before_monotone(plans, 0, n - 1);
        lemma_texts_len(s, plans, graphs, n - 1);
    }
}

/// `to` is `from` as the graph calls it, or both are missing.
pub open spec fn may_read_as(
    strings: Seq<StagedString>,
    start: u32,
    n: int,
    from: Option<StringId>,
    to: Option<StringId>,
) -> bool {
    &&& from is Some <==> to is Some
    &&& from is Some ==> reads_as(strings, start, n, from->0, to->0)
}

/// Entry `x` is the staged entry `e` in the graph: in file `file`, with the strings of the
/// graph, and otherwise as it was staged.
pub open spec fn is_committed(
    strings: Seq<StagedString>,
    start: u32,
    n: int,
    file: FileId,
    e: NodeEntry,
    x: NodeEntry,
) -> bool {
    &&& x.file == file
    &&& reads_as(strings, start, n, e.name, x.name)
    &&& may_read_as(strings, start, n, e.signature, x.signature)
    &&& may_read_as(strings, start, n, e.doc, x.doc)
    &&& may_read_as(strings, start, n, e.qualified_name, x.qualified_name)
    &&& may_read_as(strings, start, n, e.visibility, x.visibility)
    &&& x == (NodeEntry {
        file: x.file,
        name: x.name,
        signature: x.signature,
        doc: x.doc,
        qualified_name: x.qualified_name,
        visibility: x.visibility,
        ..e
    })
}

/// Where the ranges of a chunk come in a row and lie within the graph, each staged node and
/// string of a file stands at its own place in the range of the file, as far as this
/// reaches; and what lies before and behind all ranges is as it was.
pub proof fn law_chunk_goes_to_its_ranges(
    g: GraphView,
    plans: Seq<FilePlan>,
    graphs: Seq<&StagingGraph>,
    i: int,
)
    requires
        plans.len() == graphs.len(),
        in_a_row(plans),
        ranges_forward(plans),
        plans.len() > 0 ==> plans.last().node_range.end <= g.nodes.len()
            && plans.last().string_range.end <= g.strings.text.len(),
        0 <= i < plans.len(),
    ensures
        ({
            let r = chunk_committed(g, plans, graphs);
            let p = plans[i];
            let strings = graphs[i].strings();
            let m = if strings.len() <= p.string_range.end - p.string_range.start {
                strings.len() as int
            } else {
                p.string_range.end - p.string_range.start
            };
            &&& r.nodes.len() == g.nodes.len()
            &&& r.strings.text.len() == g.strings.text.len()
            &&& forall|j: int|
                0 <= j < graphs[i].nodes().len() && j < p.node_range.end - p.node_range.start ==> {
                    let slot = r.nodes[p.node_range.start + j];
                    &&& slot.generation == 1
                    &&& slot.entry is Some
                    &&& is_committed(
                        strings,
                        p.string_range.start,
                        m,
                        p.file_id,
                        (#[trigger] graphs[i].nodes()[j]).entry,
                        slot.entry->0,
                    )
                }
            &&& forall|j: int|
                0 <= j < m ==> r.strings.text[p.string_range.start + j] == Some(
                    (#[trigger] strings[j]).value,
                )
            &&& forall|k: int|
                0 <= k < g.nodes.len() && (k < plans[0].node_range.start || k
                    >= plans.last().node_range.end) ==> #[trigger] r.nodes[k] == g.nodes[k]
            &&& forall|k: int|
                0 <= k < g.strings.text.len() && (k < plans[0].string_range.start || k
                    >= plans.last().string_range.end) ==> #[trigger] r.strings.text[k]
                    == g.strings.text[k]
        }),
{
    let n = plans.len() as int;
    let r = chunk_committed(g, plans, graphs);
    let p = plans[i];
    let strings = graphs[i].strings();
    let nb = plans[0].node_range.start as int;
    let sb = plans[0].string_range.start as int;
    let nodes = g.nodes.subrange(nb, g.nodes.len() as int);
    let text = g.strings.text.subrange(sb, g.strings.text.len() as int);
    lemma_in_a_row(plans, i);
    lemma_in_a_row(plans, n - 1);
    lemma_before_monotone(plans, 0, n - 1);
    lemma_before_monotone(plans, n - 1, n);
    lemma_before_monotone(plans, 0, i);
    lemma_before_monotone(plans, i, i + 1);
    lemma_before_monotone(plans, i + 1, n);
    lemma_slots_len(nodes, plans, graphs, n);
    lemma_texts_len(text, plans, graphs, n);
    let m = strings_written(*graphs[i], string_len(p) as nat) as int;
    assert forall|j: int|
        0 <= j < graphs[i].nodes().len() && j < p.node_range.end - p.node_range.start implies {
        let slot = r.nodes[p.node_range.start + j];
        &&& slot.generation == 1
        &&& slot.entry is Some
        &&& is_committed(
            strings,
            p.string_range.start,
            m,
            p.file_id,
            (#[trigger] graphs[i].nodes()[j]).entry,
            slot.entry->0,
        )
    } by {
        lemma_slot_of(nodes, plans, graphs, n, i, j);
        let e = graphs[i].nodes()[j].entry;
        lemma_reads(strings, p.string_range.start, m, e.name);
        if e.signature is Some {
            lemma_reads(strings, p.string_range.start, m, e.signature->0);
        }
        if e.doc is Some {
            lemma_reads(strings, p.string_range.start, m, e.doc->0);
        }
        if e.qualified_name is Some {
            lemma_reads(strings, p.string_range.start, m, e.qualified_name->0);
        }
        if e.visibility is Some {
            lemma_reads(strings, p.string_range.start, m, e.visibility->0);
        }
    }
    assert forall|j: int| 0 <= j < m implies r.strings.text[p.string_range.start + j] == Some(
        (#[trigger] strings[j]).value,
    ) by {
        lemma_text_of(text, plans, graphs, n, i, j);
    }
}

/// What a chunk hands on of calls through C function pointers is what its files have staged,
/// one after the other, each under its file; there is something to hand on exactly where a
/// file has staged something.
pub proof fn law_chunk_hands_on_what_files_staged(
    plans: Seq<FilePlan>,
    graphs: Seq<&StagingGraph>,
)
    requires
        plans.len() == graphs.len(),
    ensures
        chunk_drain(plans, graphs) is Some <==> exists|i: int|
            0 <= i < graphs.len() && (#[trigger] graphs[i]).c_indirect is Some,
        chunk_drain(plans, graphs) matches Some(d) ==> {
            let files = Seq::new(
                plans.len(),
                |i: int| file_drain(*graphs[i], plans[i].file_id),
            );
            &&& d.address_taken_names == files.map_values(
                |x: DrainView| x.address_taken_names,
            ).flatten()
            &&& d.struct_field_signatures == files.map_values(
                |x: DrainView| x.struct_field_signatures,
            ).flatten()
            &&& d.bindings == files.map_values(|x: DrainView| x.bindings).flatten()
            &&& d.indirect_callsites == files.map_values(
                |x: DrainView| x.indirect_callsites,
            ).flatten()
            &&& d.local_scope_indices == files.map_values(
                |x: DrainView| x.local_scope_indices,
            ).flatten()
        },
{
    let files = Seq::new(plans.len(), |i: int| file_drain(*graphs[i], plans[i].file_id));
    lemma_drained(plans, graphs, files, plans.len() as int);
    assert(files.take(plans.len() as int) =~= files);
}

/// A file hands on all that it has staged of calls through C function pointers, in its order
/// and under itself, and nothing if it has staged nothing.
pub proof fn law_file_hands_on_what_it_staged(staging: StagingGraph, file: FileId)
    ensures
        ({
            let d = file_drain(staging, file);
            match staging.c_indirect {
                Some(p) => {
                    &&& d.struct_field_signatures.len() == p.pending_struct_field_signatures@.len()
                    &&& forall|i: int|
                        0 <= i < p.pending_struct_field_signatures@.len()
                            ==> #[trigger] d.struct_field_signatures[i]
                            == p.pending_struct_field_signatures@[i]@
                    &&& d.bindings.len() == p.pending_bindings@.len()
                    &&& forall|i: int|
                        0 <= i < p.pending_bindings@.len() ==> #[trigger] d.bindings[i] == (
                            file,
                            p.pending_bindings@[i]@,
                        )
                    &&& d.indirect_callsites.len() == p.pending_indirect_callsites@.len()
                    &&& forall|i: int|
                        0 <= i < p.pending_indirect_callsites@.len()
                            ==> #[trigger] d.indirect_callsites[i] == (
                            file,
                            p.pending_indirect_callsites@[i]@,
                        )
                    &&& d.local_scope_indices.len() == (if p.local_scope_index is Some {
                        1nat
                    } else {
                        0nat
                    })
                    &&& p.local_scope_index is Some ==> d.local_scope_indices[0] == (
                        file,
                        (p.local_scope_index->0)@,
                    )
                },
                None => {
                    &&& d.address_taken_names.len() == 0
                    &&& d.struct_field_signatures.len() == 0
                    &&& d.bindings.len() == 0
                    &&& d.indirect_callsites.len() == 0
                    &&& d.local_scope_indices.len() == 0
                },
            }
        }),
{
}

proof fn lemma_drained(
    plans: Seq<FilePlan>,
    graphs: Seq<&StagingGraph>,
    files: Seq<DrainView>,
    n: int,
)
    requires
        0 <= n <= plans.len() == graphs.len(),
        files == Seq::new(plans.len(), |i: int| file_drain(*graphs[i], plans[i].file_id)),
    ensures
        ({
            let d = drained(plans, graphs, n);
            let first = files.take(n);
            &&& d.address_taken_names == first.map_values(
                |x: DrainView| x.address_taken_names,
            ).flatten()
            &&& d.struct_field_signatures == first.map_values(
                |x: DrainView| x.struct_field_signatures,
            ).flatten()
            &&& d.bindings == first.map_values(|x: DrainView| x.bindings).flatten()
            &&& d.indirect_callsites == first.map_values(
                |x: DrainView| x.indirect_callsites,
            ).flatten()
            &&& d.local_scope_indices == first.map_values(
                |x: DrainView| x.local_scope_indices,
            ).flatten()
        }),
    decreases n,
{
    let first = files.take(n);
    let a = |x: DrainView| x.address_taken_names;
    let b = |x: DrainView| x.struct_field_signatures;
    let c = |x: DrainView| x.bindings;
    let d = |x: DrainView| x.indirect_callsites;
    let e = |x: DrainView| x.local_scope_indices;
    if n > 0 {
        lemma_drained(plans, graphs, files, n - 1);
        lemma_flatten_map(files, n, a);
        lemma_flatten_map(files, n, b);
        lemma_flatten_map(files, n, c);
        lemma_flatten_map(files, n, d);
        lemma_flatten_map(files, n, e);
    } else {
        assert(first.map_values(a) =~= Seq::empty());
        assert(first.map_values(b) =~= Seq::empty());
        assert(first.map_values(c) =~= Seq::empty());
        assert(first.map_values(d) =~= Seq::empty());
        assert(first.map_values(e) =~= Seq::empty());
    }
}

proof fn lemma_flatten_map<A, B>(files: Seq<A>, n: int, f: spec_fn(A) -> Seq<B>)
    requires
        0 < n <= files.len(),
    ensures
        files.take(n).map_values(f).flatten() == files.take(n - 1).map_values(f).flatten() + f(
            files[n - 1],
        ),
{
    let all = files.map_values(f);
    lemma_flatten_take(all, n);
    assert(files.take(n).map_values(f) =~= all.take(n));
    assert(files.take(n - 1).map_values(f) =~= all.take(n - 1));
}

} // verus!
