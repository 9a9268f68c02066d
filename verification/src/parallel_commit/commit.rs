//! Committing the staging graph of one file into its ranges.
use vstd::prelude::*;

use crate::arena::{NodeEntry, Slot};
use crate::edges::{copy_spans, pending_views, PendingEdge, PendingView};
use crate::hints::{
    function_signature_views, method_signature_views, receiver_call_views, GoEmbeddingHint,
    GoFunctionSignatureHint, GoHints, GoMethodReceiverHint, GoMethodSignatureHint,
    GoNamedTypeConversionHint, GoReceiverCallHint, GoReceiverHintKind, HintsView,
    ReceiverCallView, ReceiverHintView, SignatureView,
};
use crate::ids::{FileId, NodeId, StringId};
use crate::kinds::EdgeKind;
use crate::lists::views;
use crate::parallel_commit::plan::FilePlan;
use crate::parallel_commit::remap::{
    entry_ids, kind_ids, locals_mapped, on_entry, on_id, on_kind, remap_edge_kind_local_string_ids,
    remap_node_entry_string_ids,
};
use crate::staging::{
    staged_edges, staged_nodes, staged_strings, OpView, StagedEdge, StagedNode, StagedString,
    StagingGraph, StagingOp,
};
use crate::strings::{texts_of, StringRemap};
use crate::unification::{moved, NodeRemapTable};

verus! {

/// How many of `count` items find a slot.
pub open spec fn taken(count: nat, slots: nat) -> nat {
    if count <= slots {
        count
    } else {
        slots
    }
}

/// The numbers that the first `n` staged strings get, from `start` on.
pub open spec fn string_table(strings: Seq<StagedString>, start: u32, n: int) -> Map<u32, u32>
    decreases n,
{
    if n <= 0 {
        Map::empty()
    } else {
        string_table(strings, start, n - 1).insert(
            strings[n - 1].local_id.0,
            (start + n - 1) as u32,
        )
    }
}

/// String slots after the first `n` staged strings were written.
pub open spec fn texts_after(
    texts: Seq<Option<Seq<char>>>,
    strings: Seq<StagedString>,
    n: int,
) -> Seq<Option<Seq<char>>> {
    Seq::new(
        texts.len(),
        |i: int|
            if i < n {
                Some(strings[i].value)
            } else {
                texts[i]
            },
    )
}

/// Reference counts after the first `n` staged strings were written.
pub open spec fn refs_after(refs: Seq<u32>, n: int) -> Seq<u32> {
    Seq::new(
        refs.len(),
        |i: int|
            if i < n {
                1u32
            } else {
                refs[i]
            },
    )
}

/// The strings that are looked at are local, and none is staged twice.
pub open spec fn strings_well_staged(strings: Seq<StagedString>, slots: nat) -> bool {
    &&& forall|i: int|
        0 <= i < strings.len() && i <= slots ==> (#[trigger] strings[i]).local_id.local()
    &&& forall|i: int, j: int|
        #![trigger strings[i], strings[j]]
        0 <= i < j < strings.len() && j <= slots ==> strings[i].local_id != strings[j].local_id
}

/// The identities that the first `n` staged nodes get, from slot `start` on.
pub open spec fn node_table(nodes: Seq<StagedNode>, start: u32, n: int) -> Map<NodeId, NodeId>
    decreases n,
{
    if n <= 0 {
        Map::empty()
    } else {
        let before = node_table(nodes, start, n - 1);
        match nodes[n - 1].expected_id {
            Some(id) => before.insert(id, committed_id(start, n - 1)),
            None => before,
        }
    }
}

/// The identity of the node in slot `i` of a file whose slots begin at `start`.
pub open spec fn committed_id(start: u32, i: int) -> NodeId {
    NodeId { index: (start + i) as u32, generation: 1 }
}

/// The entry of a committed node.
pub open spec fn committed_entry(table: Map<u32, u32>, file: FileId, entry: NodeEntry) -> NodeEntry {
    NodeEntry { file, ..on_entry(table, true, entry) }
}

/// Node slots after the first `n` staged nodes were written.
pub open spec fn slots_after(
    slots: Seq<Slot>,
    nodes: Seq<StagedNode>,
    table: Map<u32, u32>,
    file: FileId,
    n: int,
) -> Seq<Slot> {
    Seq::new(
        slots.len(),
        |i: int|
            if i < n {
                Slot {
                    generation: 1,
                    entry: Some(committed_entry(table, file, nodes[i].entry)),
                }
            } else {
                slots[i]
            },
    )
}

/// The identities of the first `n` committed nodes.
pub open spec fn committed_ids(start: u32, n: nat) -> Seq<NodeId> {
    Seq::new(n, |i: int| committed_id(start, i))
}

/// A committed edge.
pub open spec fn committed_edge(
    nodes: Map<NodeId, NodeId>,
    strings: Map<u32, u32>,
    file: FileId,
    e: StagedEdge,
) -> PendingView {
    PendingView {
        source: moved(nodes, e.source),
        target: moved(nodes, e.target),
        kind: on_kind(strings, true, e.kind),
        file,
        spans: e.spans,
    }
}

/// The committed edges.
pub open spec fn committed_edges(
    nodes: Map<NodeId, NodeId>,
    strings: Map<u32, u32>,
    file: FileId,
    edges: Seq<StagedEdge>,
) -> Seq<PendingView> {
    Seq::new(edges.len(), |i: int| committed_edge(nodes, strings, file, edges[i]))
}

proof fn lemma_strings_prefix(ops: Seq<OpView>, m: int, n: int)
    requires
        0 <= m <= n,
    ensures
        staged_strings(ops, m).len() <= staged_strings(ops, n).len(),
        forall|j: int|
            0 <= j < staged_strings(ops, m).len() ==> #[trigger] staged_strings(ops, m)[j]
                == staged_strings(ops, n)[j],
    decreases n,
{
    if m < n {
        lemma_strings_prefix(ops, m, n - 1);
        let a = staged_strings(ops, n - 1);
        assert forall|j: int| 0 <= j < staged_strings(ops, m).len() implies #[trigger] staged_strings(
            ops,
            m,
        )[j] == staged_strings(ops, n)[j] by {
            assert(staged_strings(ops, m)[j] == a[j]);
        }
    }
}

proof fn lemma_nodes_prefix(ops: Seq<OpView>, m: int, n: int)
    requires
        0 <= m <= n,
    ensures
        staged_nodes(ops, m).len() <= staged_nodes(ops, n).len(),
        forall|j: int|
            0 <= j < staged_nodes(ops, m).len() ==> #[trigger] staged_nodes(ops, m)[j]
                == staged_nodes(ops, n)[j],
    decreases n,
{
    if m < n {
        lemma_nodes_prefix(ops, m, n - 1);
        let a = staged_nodes(ops, n - 1);
        assert forall|j: int| 0 <= j < staged_nodes(ops, m).len() implies #[trigger] staged_nodes(
            ops,
            m,
        )[j] == staged_nodes(ops, n)[j] by {
            assert(staged_nodes(ops, m)[j] == a[j]);
        }
    }
}

proof fn lemma_edges_prefix(ops: Seq<OpView>, m: int, n: int)
    requires
        0 <= m <= n,
    ensures
        staged_edges(ops, m).len() <= staged_edges(ops, n).len(),
        forall|j: int|
            0 <= j < staged_edges(ops, m).len() ==> #[trigger] staged_edges(ops, m)[j]
                == staged_edges(ops, n)[j],
    decreases n,
{
    if m < n {
        lemma_edges_prefix(ops, m, n - 1);
        let a = staged_edges(ops, n - 1);
        assert forall|j: int| 0 <= j < staged_edges(ops, m).len() implies #[trigger] staged_edges(
            ops,
            m,
        )[j] == staged_edges(ops, n)[j] by {
            assert(staged_edges(ops, m)[j] == a[j]);
        }
    }
}

/// Writes the staged strings into the string slots of the file; returns the numbers
/// they got and how many were written. Strings that find no slot are left out.
pub fn write_strings(
    ops: &Vec<StagingOp>,
    plan: &FilePlan,
    str_slots: &mut Vec<Option<String>>,
    rc_slots: &mut Vec<u32>,
) -> (r: (StringRemap, usize))
    requires
        old(str_slots)@.len() == old(rc_slots)@.len(),
        plan.string_range.start + old(str_slots)@.len() <= u32::MAX + 1,
        strings_well_staged(staged_strings(views(ops@), ops@.len() as int), old(str_slots)@.len()),
    ensures
        ({
            let strings = staged_strings(views(ops@), ops@.len() as int);
            &&& r.1 == taken(strings.len(), old(str_slots)@.len())
            &&& r.0@ == string_table(strings, plan.string_range.start, r.1 as int)
            &&& texts_of(final(str_slots)@) == texts_after(
                texts_of(old(str_slots)@),
                strings,
                r.1 as int,
            )
            &&& final(rc_slots)@ == refs_after(old(rc_slots)@, r.1 as int)
        }),
{
    let ghost all = staged_strings(views(ops@), ops@.len() as int);
    let ghost texts = texts_of(str_slots@);
    let ghost refs = rc_slots@;
    let mut remap = StringRemap::new();
    let mut cursor: usize = 0;
    proof {
        assert(texts_after(texts, all, 0) =~= texts);
        assert(refs_after(refs, 0) =~= refs);
    }
    for i in 0..ops.len()
        invariant
            all == staged_strings(views(ops@), ops@.len() as int),
            texts.len() == refs.len(),
            str_slots@.len() == texts.len(),
            rc_slots@.len() == texts.len(),
            texts == texts_of(old(str_slots)@),
            refs == old(rc_slots)@,
            plan.string_range.start + texts.len() <= u32::MAX + 1,
            cursor == staged_strings(views(ops@), i as int).len(),
            cursor <= texts.len(),
            remap@ == string_table(all, plan.string_range.start, cursor as int),
            texts_of(str_slots@) == texts_after(texts, all, cursor as int),
            rc_slots@ == refs_after(refs, cursor as int),
    {
        assert(views(ops@)[i as int] == ops@[i as int]@);
        match &ops[i] {
            StagingOp::InternString { local_id, value } => {
                proof {
                    lemma_strings_prefix(views(ops@), i + 1, ops@.len() as int);
                    let here = staged_strings(views(ops@), i + 1);
                    assert(here[cursor as int] == all[cursor as int]);
                    assert(all[cursor as int].value == value@);
                    assert(all[cursor as int].local_id == *local_id);
                }
                if cursor >= str_slots.len() {
                    return (remap, cursor);
                }
                let global: StringId = StringId::new(plan.string_range.start + cursor as u32);
                let ghost mid = texts_of(str_slots@);
                str_slots.set(cursor, Some(value.clone()));
                rc_slots.set(cursor, 1);
                remap.insert(*local_id, global);
                proof {
                    assert(texts_of(str_slots@) =~= mid.update(cursor as int, Some(value@)));
                    assert(texts_of(str_slots@) =~= texts_after(texts, all, cursor + 1));
                    assert(rc_slots@ =~= refs_after(refs, cursor + 1));
                }
                cursor = cursor + 1;
            },
            _ => {},
        }
    }
    (remap, cursor)
}

/// Writes the staged nodes into the node slots of the file; returns the identities they
/// got, how many were written, and their identities in order. Nodes that find no slot
/// are left out.
pub fn write_nodes(
    ops: &Vec<StagingOp>,
    plan: &FilePlan,
    node_slots: &mut Vec<Slot>,
    string_remap: &StringRemap,
) -> (r: (NodeRemapTable, usize, Vec<NodeId>))
    requires
        plan.node_range.start + old(node_slots)@.len() <= u32::MAX + 1,
        forall|i: int|
            #![trigger staged_nodes(views(ops@), ops@.len() as int)[i]]
            0 <= i < staged_nodes(views(ops@), ops@.len() as int).len() && i < old(
                node_slots,
            )@.len() ==> locals_mapped(
                string_remap@,
                entry_ids(staged_nodes(views(ops@), ops@.len() as int)[i].entry),
            ),
    ensures
        r.0.wf(),
        ({
            let nodes = staged_nodes(views(ops@), ops@.len() as int);
            &&& r.1 == taken(nodes.len(), old(node_slots)@.len())
            &&& r.0@ == node_table(nodes, plan.node_range.start, r.1 as int)
            &&& r.2@ == committed_ids(plan.node_range.start, r.1 as nat)
            &&& final(node_slots)@ == slots_after(
                old(node_slots)@,
                nodes,
                string_remap@,
                plan.file_id,
                r.1 as int,
            )
        }),
{
    let ghost all = staged_nodes(views(ops@), ops@.len() as int);
    let ghost slots = node_slots@;
    let mut node_remap = NodeRemapTable::new();
    let mut cursor: usize = 0;
    let mut node_ids: Vec<NodeId> = Vec::new();
    proof {
        assert(slots_after(slots, all, string_remap@, plan.file_id, 0) =~= slots);
        assert(node_ids@ =~= committed_ids(plan.node_range.start, 0));
    }
    for i in 0..ops.len()
        invariant
            all == staged_nodes(views(ops@), ops@.len() as int),
            slots == old(node_slots)@,
            node_slots@.len() == slots.len(),
            plan.node_range.start + slots.len() <= u32::MAX + 1,
            forall|k: int|
                #![trigger all[k]]
                0 <= k < all.len() && k < slots.len() ==> locals_mapped(
                    string_remap@,
                    entry_ids(all[k].entry),
                ),
            cursor == staged_nodes(views(ops@), i as int).len(),
            cursor <= slots.len(),
            node_remap.wf(),
            node_remap@ == node_table(all, plan.node_range.start, cursor as int),
            node_ids@ == committed_ids(plan.node_range.start, cursor as nat),
            node_slots@ == slots_after(
                slots,
                all,
                string_remap@,
                plan.file_id,
                cursor as int,
            ),
    {
        assert(views(ops@)[i as int] == ops@[i as int]@);
        match &ops[i] {
            StagingOp::AddNode { entry, expected_id } => {
                proof {
                    lemma_nodes_prefix(views(ops@), i + 1, ops@.len() as int);
                    let here = staged_nodes(views(ops@), i + 1);
                    assert(here[cursor as int] == all[cursor as int]);
                    assert(all[cursor as int].entry == *entry);
                    assert(all[cursor as int].expected_id == *expected_id);
                }
                if cursor >= node_slots.len() {
                    return (node_remap, cursor, node_ids);
                }
                let mut committed: NodeEntry = *entry;
                remap_node_entry_string_ids(&mut committed, string_remap);
                committed.file = plan.file_id;
                let actual: NodeId = NodeId::new(plan.node_range.start + cursor as u32, 1);
                node_slots.set(cursor, Slot::new_occupied(1, committed));
                match expected_id {
                    Some(expected) => {
                        node_remap.insert(*expected, actual);
                    },
                    None => {},
                }
                node_ids.push(actual);
                proof {
                    assert(node_slots@ =~= slots_after(
                        slots,
                        all,
                        string_remap@,
                        plan.file_id,
                        cursor + 1,
                    ));
                    assert(node_ids@ =~= committed_ids(
                        plan.node_range.start,
                        (cursor + 1) as nat,
                    ));
                }
                cursor = cursor + 1;
            },
            _ => {},
        }
    }
    (node_remap, cursor, node_ids)
}

/// The staged edges, between committed nodes and with committed strings.
pub fn collect_edges(
    ops: &Vec<StagingOp>,
    plan: &FilePlan,
    node_remap: &NodeRemapTable,
    string_remap: &StringRemap,
) -> (r: Vec<PendingEdge>)
    requires
        forall|i: int|
            #![trigger staged_edges(views(ops@), ops@.len() as int)[i]]
            0 <= i < staged_edges(views(ops@), ops@.len() as int).len() ==> locals_mapped(
                string_remap@,
                kind_ids(staged_edges(views(ops@), ops@.len() as int)[i].kind),
            ),
    ensures
        pending_views(r@) == committed_edges(
            node_remap@,
            string_remap@,
            plan.file_id,
            staged_edges(views(ops@), ops@.len() as int),
        ),
{
    let ghost all = staged_edges(views(ops@), ops@.len() as int);
    let mut edges: Vec<PendingEdge> = Vec::new();
    proof {
        assert(pending_views(edges@) =~= committed_edges(
            node_remap@,
            string_remap@,
            plan.file_id,
            staged_edges(views(ops@), 0),
        ));
    }
    for i in 0..ops.len()
        invariant
            all == staged_edges(views(ops@), ops@.len() as int),
            forall|k: int|
                #![trigger all[k]]
                0 <= k < all.len() ==> locals_mapped(string_remap@, kind_ids(all[k].kind)),
            pending_views(edges@) == committed_edges(
                node_remap@,
                string_remap@,
                plan.file_id,
                staged_edges(views(ops@), i as int),
            ),
    {
        assert(views(ops@)[i as int] == ops@[i as int]@);
        match &ops[i] {
            StagingOp::AddEdge { source, target, kind, file, spans } => {
                let ghost so_far = staged_edges(views(ops@), i as int);
                proof {
                    lemma_edges_prefix(views(ops@), i + 1, ops@.len() as int);
                    let here = staged_edges(views(ops@), i + 1);
                    assert(here[so_far.len() as int] == all[so_far.len() as int]);
                }
                let mut remapped: EdgeKind = kind.clone();
                remap_edge_kind_local_string_ids(&mut remapped, string_remap);
                let ghost before = pending_views(edges@);
                let edge = PendingEdge {
                    source: node_remap.resolve(*source),
                    target: node_remap.resolve(*target),
                    kind: remapped,
                    file: plan.file_id,
                    spans: copy_spans(spans),
                };
                edges.push(edge);
                proof {
                    assert(pending_views(edges@) =~= before.push(edge@));
                    assert(pending_views(edges@) =~= committed_edges(
                        node_remap@,
                        string_remap@,
                        plan.file_id,
                        staged_edges(views(ops@), i + 1),
                    ));
                }
            },
            _ => {},
        }
    }
    edges
}

/// A committed embedding.
pub open spec fn committed_embedding(
    nodes: Map<NodeId, NodeId>,
    strings: Map<u32, u32>,
    file: FileId,
    h: GoEmbeddingHint,
) -> GoEmbeddingHint {
    GoEmbeddingHint {
        outer: moved(nodes, h.outer),
        inner_qualified_name: on_id(strings, true, h.inner_qualified_name),
        file,
        ..h
    }
}

/// A committed conversion.
pub open spec fn committed_conversion(
    nodes: Map<NodeId, NodeId>,
    strings: Map<u32, u32>,
    file: FileId,
    h: GoNamedTypeConversionHint,
) -> GoNamedTypeConversionHint {
    GoNamedTypeConversionHint {
        call_site: moved(nodes, h.call_site),
        target_type_qualified_name: on_id(strings, true, h.target_type_qualified_name),
        argument_node: moved(nodes, h.argument_node),
        file,
    }
}

/// A committed receiver expression.
pub open spec fn committed_receiver(nodes: Map<NodeId, NodeId>, h: ReceiverHintView) -> ReceiverHintView {
    match h {
        ReceiverHintView::LocalIdent { binding_local } => ReceiverHintView::LocalIdent {
            binding_local: moved(nodes, binding_local),
        },
        _ => h,
    }
}

/// A committed method call.
pub open spec fn committed_call(
    nodes: Map<NodeId, NodeId>,
    strings: Map<u32, u32>,
    file: FileId,
    h: ReceiverCallView,
) -> ReceiverCallView {
    ReceiverCallView {
        call_site: moved(nodes, h.call_site),
        callee_method: moved(nodes, h.callee_method),
        method_name: on_id(strings, true, h.method_name),
        receiver: committed_receiver(nodes, h.receiver),
        file,
        ..h
    }
}

/// A committed method receiver.
pub open spec fn committed_method_receiver(
    nodes: Map<NodeId, NodeId>,
    strings: Map<u32, u32>,
    file: FileId,
    h: GoMethodReceiverHint,
) -> GoMethodReceiverHint {
    GoMethodReceiverHint {
        method_node: moved(nodes, h.method_node),
        receiver_type_qualified_name: on_id(strings, true, h.receiver_type_qualified_name),
        file,
        ..h
    }
}

/// A committed signature.
pub open spec fn committed_signature(
    nodes: Map<NodeId, NodeId>,
    file: FileId,
    h: SignatureView,
) -> SignatureView {
    SignatureView { node: moved(nodes, h.node), file, ..h }
}

/// The committed hints.
pub open spec fn committed_hints(
    nodes: Map<NodeId, NodeId>,
    strings: Map<u32, u32>,
    file: FileId,
    h: HintsView,
) -> HintsView {
    HintsView {
        embeddings: Seq::new(
            h.embeddings.len(),
            |i: int| committed_embedding(nodes, strings, file, h.embeddings[i]),
        ),
        named_type_conversions: Seq::new(
            h.named_type_conversions.len(),
            |i: int| committed_conversion(nodes, strings, file, h.named_type_conversions[i]),
        ),
        receiver_calls: Seq::new(
            h.receiver_calls.len(),
            |i: int| committed_call(nodes, strings, file, h.receiver_calls[i]),
        ),
        method_receivers: Seq::new(
            h.method_receivers.len(),
            |i: int| committed_method_receiver(nodes, strings, file, h.method_receivers[i]),
        ),
        method_signatures: Seq::new(
            h.method_signatures.len(),
            |i: int| committed_signature(nodes, file, h.method_signatures[i]),
        ),
        function_signatures: Seq::new(
            h.function_signatures.len(),
            |i: int| committed_signature(nodes, file, h.function_signatures[i]),
        ),
    }
}

/// The committed identity of a node that a hint names.
pub fn remap_node_id_hint(id: NodeId, node_remap: &NodeRemapTable) -> (r: NodeId)
    ensures
        r == moved(node_remap@, id),
{
    node_remap.resolve(id)
}

/// The committed number of a string that a hint names.
pub fn remap_string_id_hint(id: StringId, string_remap: &StringRemap) -> (r: StringId)
    ensures
        r == on_id(string_remap@, true, id),
{
    if id.is_local() {
        match string_remap.get(&id) {
            Some(to) => to,
            None => id,
        }
    } else {
        id
    }
}

/// The committed form of a receiver expression.
pub fn remap_receiver_hint(receiver: &GoReceiverHintKind, node_remap: &NodeRemapTable) -> (r:
    GoReceiverHintKind)
    ensures
        r@ == committed_receiver(node_remap@, receiver@),
{
    match receiver {
        GoReceiverHintKind::LocalIdent { binding_local } => GoReceiverHintKind::LocalIdent {
            binding_local: remap_node_id_hint(*binding_local, node_remap),
        },
        GoReceiverHintKind::TypePrefixed { type_text } => GoReceiverHintKind::TypePrefixed {
            type_text: type_text.clone(),
        },
        GoReceiverHintKind::PointerPrefixed { type_text } => GoReceiverHintKind::PointerPrefixed {
            type_text: type_text.clone(),
        },
        GoReceiverHintKind::CallReturn { callee_qn } => GoReceiverHintKind::CallReturn {
            callee_qn: callee_qn.clone(),
        },
    }
}

fn remap_calls(
    calls: &Vec<GoReceiverCallHint>,
    node_remap: &NodeRemapTable,
    string_remap: &StringRemap,
    file: FileId,
) -> (r: Vec<GoReceiverCallHint>)
    ensures
        receiver_call_views(r@) == Seq::new(
            calls@.len(),
            |i: int| committed_call(node_remap@, string_remap@, file, calls@[i]@),
        ),
{
    let mut out: Vec<GoReceiverCallHint> = Vec::new();
    for i in 0..calls.len()
        invariant
            receiver_call_views(out@) =~= Seq::new(
                i as nat,
                |j: int| committed_call(node_remap@, string_remap@, file, calls@[j]@),
            ),
    {
        let h = &calls[i];
        let ghost before = receiver_call_views(out@);
        let hint = GoReceiverCallHint {
            call_site: remap_node_id_hint(h.call_site, node_remap),
            callee_method: remap_node_id_hint(h.callee_method, node_remap),
            method_name: remap_string_id_hint(h.method_name, string_remap),
            receiver: remap_receiver_hint(&h.receiver, node_remap),
            argument_count: h.argument_count,
            is_async: h.is_async,
            file,
        };
        out.push(hint);
        proof {
            assert(receiver_call_views(out@) =~= before.push(hint@));
        }
    }
    out
}

fn remap_method_signatures(
    signatures: &Vec<GoMethodSignatureHint>,
    node_remap: &NodeRemapTable,
    file: FileId,
) -> (r: Vec<GoMethodSignatureHint>)
    ensures
        method_signature_views(r@) == Seq::new(
            signatures@.len(),
            |i: int| committed_signature(node_remap@, file, signatures@[i]@),
        ),
{
    let mut out: Vec<GoMethodSignatureHint> = Vec::new();
    for i in 0..signatures.len()
        invariant
            method_signature_views(out@) =~= Seq::new(
                i as nat,
                |j: int| committed_signature(node_remap@, file, signatures@[j]@),
            ),
    {
        let ghost before = method_signature_views(out@);
        let hint = GoMethodSignatureHint {
            method_node: remap_node_id_hint(signatures[i].method_node, node_remap),
            canonical_signature: signatures[i].canonical_signature.clone(),
            file,
        };
        out.push(hint);
        proof {
            assert(method_signature_views(out@) =~= before.push(hint@));
        }
    }
    out
}

fn remap_function_signatures(
    signatures: &Vec<GoFunctionSignatureHint>,
    node_remap: &NodeRemapTable,
    file: FileId,
) -> (r: Vec<GoFunctionSignatureHint>)
    ensures
        function_signature_views(r@) == Seq::new(
            signatures@.len(),
            |i: int| committed_signature(node_remap@, file, signatures@[i]@),
        ),
{
    let mut out: Vec<GoFunctionSignatureHint> = Vec::new();
    for i in 0..signatures.len()
        invariant
            function_signature_views(out@) =~= Seq::new(
                i as nat,
                |j: int| committed_signature(node_remap@, file, signatures@[j]@),
            ),
    {
        let ghost before = function_signature_views(out@);
        let hint = GoFunctionSignatureHint {
            function_node: remap_node_id_hint(signatures[i].function_node, node_remap),
            canonical_signature: signatures[i].canonical_signature.clone(),
            file,
        };
        out.push(hint);
        proof {
            assert(function_signature_views(out@) =~= before.push(hint@));
        }
    }
    out
}

/// The staged Go hints, of committed nodes and strings.
pub fn remap_go_hints(
    staging: &StagingGraph,
    node_remap: &NodeRemapTable,
    string_remap: &StringRemap,
    plan: &FilePlan,
) -> (r: GoHints)
    ensures
        r@ == committed_hints(node_remap@, string_remap@, plan.file_id, staging.go_hints@),
{
    let hints: &GoHints = staging.go_hints();
    let file: FileId = plan.file_id;
    let ghost nodes = node_remap@;
    let ghost strings = string_remap@;
    let mut embeddings: Vec<GoEmbeddingHint> = Vec::new();
    for i in 0..hints.embeddings.len()
        invariant
            nodes == node_remap@,
            strings == string_remap@,
            embeddings@ =~= Seq::new(
                i as nat,
                |j: int| committed_embedding(nodes, strings, file, hints.embeddings@[j]),
            ),
    {
        let h: GoEmbeddingHint = hints.embeddings[i];
        embeddings.push(
            GoEmbeddingHint {
                outer: remap_node_id_hint(h.outer, node_remap),
                inner_qualified_name: remap_string_id_hint(h.inner_qualified_name, string_remap),
                pointerness: h.pointerness,
                file,
            },
        );
    }
    let mut named_type_conversions: Vec<GoNamedTypeConversionHint> = Vec::new();
    for i in 0..hints.named_type_conversions.len()
        invariant
            nodes == node_remap@,
            strings == string_remap@,
            named_type_conversions@ =~= Seq::new(
                i as nat,
                |j: int|
                    committed_conversion(nodes, strings, file, hints.named_type_conversions@[j]),
            ),
    {
        let h: GoNamedTypeConversionHint = hints.named_type_conversions[i];
        named_type_conversions.push(
            GoNamedTypeConversionHint {
                call_site: remap_node_id_hint(h.call_site, node_remap),
                target_type_qualified_name: remap_string_id_hint(
                    h.target_type_qualified_name,
                    string_remap,
                ),
                argument_node: remap_node_id_hint(h.argument_node, node_remap),
                file,
            },
        );
    }
    let mut method_receivers: Vec<GoMethodReceiverHint> = Vec::new();
    for i in 0..hints.method_receivers.len()
        invariant
            nodes == node_remap@,
            strings == string_remap@,
            method_receivers@ =~= Seq::new(
                i as nat,
                |j: int|
                    committed_method_receiver(nodes, strings, file, hints.method_receivers@[j]),
            ),
    {
        let h: GoMethodReceiverHint = hints.method_receivers[i];
        method_receivers.push(
            GoMethodReceiverHint {
                method_node: remap_node_id_hint(h.method_node, node_remap),
                receiver_type_qualified_name: remap_string_id_hint(
                    h.receiver_type_qualified_name,
                    string_remap,
                ),
                receiver_pointerness: h.receiver_pointerness,
                file,
            },
        );
    }
    let r = GoHints {
        embeddings,
        named_type_conversions,
        receiver_calls: remap_calls(&hints.receiver_calls, node_remap, string_remap, file),
        method_receivers,
        method_signatures: remap_method_signatures(&hints.method_signatures, node_remap, file),
        function_signatures: remap_function_signatures(
            &hints.function_signatures,
            node_remap,
            file,
        ),
    };
    proof {
        let h = staging.go_hints@;
        let c = committed_hints(nodes, strings, file, h);
        assert(r@.embeddings =~= c.embeddings);
        assert(r@.named_type_conversions =~= c.named_type_conversions);
        assert(r@.receiver_calls =~= c.receiver_calls);
        assert(r@.method_receivers =~= c.method_receivers);
        assert(r@.method_signatures =~= c.method_signatures);
        assert(r@.function_signatures =~= c.function_signatures);
    }
    r
}

/// What committing one file yields beside the slots it has written.
pub struct FileCommitResult {
    /// The edges of the file.
    pub edges: Vec<PendingEdge>,
    /// The nodes of the file, in order.
    pub node_ids: Vec<NodeId>,
    pub nodes_written: usize,
    pub strings_written: usize,
    /// The Go hints of the file.
    pub hints: GoHints,
}

/// How many strings of `staging` find one of `slots` slots.
pub open spec fn strings_written(staging: StagingGraph, slots: nat) -> nat {
    taken(staging.strings().len(), slots)
}

/// How many nodes of `staging` find one of `slots` slots.
pub open spec fn nodes_written(staging: StagingGraph, slots: nat) -> nat {
    taken(staging.nodes().len(), slots)
}

/// The numbers that the strings of `staging` get.
pub open spec fn file_strings(staging: StagingGraph, plan: FilePlan, string_slots: nat) -> Map<
    u32,
    u32,
> {
    string_table(
        staging.strings(),
        plan.string_range.start,
        strings_written(staging, string_slots) as int,
    )
}

/// The identities that the nodes of `staging` get.
pub open spec fn file_nodes(staging: StagingGraph, plan: FilePlan, node_slots: nat) -> Map<
    NodeId,
    NodeId,
> {
    node_table(
        staging.nodes(),
        plan.node_range.start,
        nodes_written(staging, node_slots) as int,
    )
}

/// `staging` can be committed: its strings are local and staged once, and every local
/// string that a committed node or an edge names is committed.
pub open spec fn committable(
    staging: StagingGraph,
    plan: FilePlan,
    node_slots: nat,
    string_slots: nat,
) -> bool {
    let table = file_strings(staging, plan, string_slots);
    &&& plan.node_range.start + node_slots <= u32::MAX + 1
    &&& plan.string_range.start + string_slots <= u32::MAX + 1
    &&& strings_well_staged(staging.strings(), string_slots)
    &&& forall|i: int|
        #![trigger staging.nodes()[i]]
        0 <= i < staging.nodes().len() && i < node_slots ==> locals_mapped(
            table,
            entry_ids(staging.nodes()[i].entry),
        )
    &&& forall|i: int|
        #![trigger staging.edges()[i]]
        0 <= i < staging.edges().len() ==> locals_mapped(table, kind_ids(staging.edges()[i].kind))
}

/// `r` is what committing `staging` yields.
pub open spec fn is_commit_of(
    r: FileCommitResult,
    staging: StagingGraph,
    plan: FilePlan,
    node_slots: nat,
    string_slots: nat,
) -> bool {
    let strings = file_strings(staging, plan, string_slots);
    let nodes = file_nodes(staging, plan, node_slots);
    &&& r.nodes_written == nodes_written(staging, node_slots)
    &&& r.strings_written == strings_written(staging, string_slots)
    &&& r.node_ids@ == committed_ids(plan.node_range.start, nodes_written(staging, node_slots))
    &&& pending_views(r.edges@) == committed_edges(nodes, strings, plan.file_id, staging.edges())
    &&& r.hints@ == committed_hints(nodes, strings, plan.file_id, staging.go_hints@)
}

/// The node slots of a file after it was committed.
pub open spec fn file_slots(staging: StagingGraph, plan: FilePlan, slots: Seq<Slot>, string_slots: nat) -> Seq<
    Slot,
> {
    slots_after(
        slots,
        staging.nodes(),
        file_strings(staging, plan, string_slots),
        plan.file_id,
        nodes_written(staging, slots.len()) as int,
    )
}

/// The string slots of a file after it was committed.
pub open spec fn file_texts(staging: StagingGraph, texts: Seq<Option<Seq<char>>>) -> Seq<
    Option<Seq<char>>,
> {
    texts_after(texts, staging.strings(), strings_written(staging, texts.len()) as int)
}

/// The reference counts of a file after it was committed.
pub open spec fn file_refs(staging: StagingGraph, refs: Seq<u32>) -> Seq<u32> {
    refs_after(refs, strings_written(staging, refs.len()) as int)
}

/// Commits one file into slots that are its own: strings first, then nodes, then edges
/// and hints, which name the committed nodes and strings.
pub fn commit_single_file(
    staging: &StagingGraph,
    plan: &FilePlan,
    node_slots: &mut Vec<Slot>,
    str_slots: &mut Vec<Option<String>>,
    rc_slots: &mut Vec<u32>,
) -> (r: FileCommitResult)
    requires
        old(str_slots)@.len() == old(rc_slots)@.len(),
        committable(*staging, *plan, old(node_slots)@.len(), old(str_slots)@.len()),
    ensures
        is_commit_of(r, *staging, *plan, old(node_slots)@.len(), old(str_slots)@.len()),
        final(node_slots)@ == file_slots(
            *staging,
            *plan,
            old(node_slots)@,
            old(str_slots)@.len(),
        ),
        texts_of(final(str_slots)@) == file_texts(*staging, texts_of(old(str_slots)@)),
        final(rc_slots)@ == file_refs(*staging, old(rc_slots)@),
{
    let ops: &Vec<StagingOp> = staging.operations();
    let (string_remap, strings_written) = write_strings(ops, plan, str_slots, rc_slots);
    let (node_remap, nodes_written, node_ids) = write_nodes(ops, plan, node_slots, &string_remap);
    let edges = collect_edges(ops, plan, &node_remap, &string_remap);
    let hints = remap_go_hints(staging, &node_remap, &string_remap, plan);
    FileCommitResult { edges, node_ids, nodes_written, strings_written, hints }
}

proof fn lemma_string_table(strings: Seq<StagedString>, start: u32, n: int, i: int)
    requires
        0 <= i < n <= strings.len(),
        forall|a: int, b: int|
            #![trigger strings[a], strings[b]]
            0 <= a < b < n ==> strings[a].local_id != strings[b].local_id,
    ensures
        string_table(strings, start, n).dom().contains(strings[i].local_id.0),
        string_table(strings, start, n)[strings[i].local_id.0] == (start + i) as u32,
    decreases n,
{
    if i < n - 1 {
        lemma_string_table(strings, start, n - 1, i);
        assert(strings[i].local_id != strings[n - 1].local_id);
    }
}

/// A staged string reads back: the number that its local identity gets is that of the
/// slot which holds its text.
pub proof fn law_committed_string_reads_back(
    staging: StagingGraph,
    plan: FilePlan,
    texts: Seq<Option<Seq<char>>>,
    i: int,
)
    requires
        strings_well_staged(staging.strings(), texts.len()),
        plan.string_range.start + texts.len() <= u32::MAX + 1,
        0 <= i < strings_written(staging, texts.len()),
    ensures
        ({
            let s = staging.strings()[i];
            let table = file_strings(staging, plan, texts.len());
            &&& table.dom().contains(s.local_id.0)
            &&& table[s.local_id.0] == plan.string_range.start + i
            &&& file_texts(staging, texts)[i] == Some(s.value)
        }),
{
    lemma_string_table(
        staging.strings(),
        plan.string_range.start,
        strings_written(staging, texts.len()) as int,
        i,
    );
}

/// A staged node reads back: its slot holds its entry, in the file of the plan and with
/// committed strings, under the identity that is reported for it.
pub proof fn law_committed_node_reads_back(
    staging: StagingGraph,
    plan: FilePlan,
    slots: Seq<Slot>,
    string_slots: nat,
    i: int,
)
    requires
        plan.node_range.start + slots.len() <= u32::MAX + 1,
        0 <= i < nodes_written(staging, slots.len()),
    ensures
        ({
            let after = file_slots(staging, plan, slots, string_slots)[i];
            let id = committed_ids(
                plan.node_range.start,
                nodes_written(staging, slots.len()),
            )[i];
            &&& id.index == plan.node_range.start + i
            &&& id.generation == after.generation
            &&& after.entry == Some(
                committed_entry(
                    file_strings(staging, plan, string_slots),
                    plan.file_id,
                    staging.nodes()[i].entry,
                ),
            )
        }),
{
}

} // verus!
