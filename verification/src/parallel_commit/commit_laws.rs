//! What becomes of what a file has staged.
use vstd::prelude::*;

use crate::arena::NodeEntry;
use crate::hints::{HintsView, ReceiverHintView};
use crate::ids::{FileId, NodeId, StringId};
use crate::indices::lemma_filter_take;
use crate::metadata::MetadataView;
use crate::parallel_commit::c_drain::deferred;
use crate::parallel_commit::commit::{committed_edges, committed_hints, node_table, string_table};
use crate::parallel_commit::finalize::metadata_after;
use crate::parallel_commit::remap::{on_entry, on_id};
use crate::staging::{
    local_text_from, staged_edges, staged_nodes, staged_strings, OpView, StagedEdge, StagedNode,
    StagedString,
};
use crate::unification::moved;

verus! {

/// The node that the file calls `from` is `to` in the graph: its own slot, counted from
/// `start` on, where one of the first `n` staged nodes was to be `from`, the last of them;
/// and `from` itself where none was.
pub open spec fn lands_at(
    nodes: Seq<StagedNode>,
    start: u32,
    n: int,
    from: NodeId,
    to: NodeId,
) -> bool {
    ||| to == from && forall|j: int|
        0 <= j < n ==> (#[trigger] nodes[j]).expected_id != Some(from)
    ||| exists|a: int|
        0 <= a < n && (#[trigger] nodes[a]).expected_id == Some(from) && to == (NodeId {
            index: (start + a) as u32,
            generation: 1,
        }) && (forall|j: int| a < j < n ==> (#[trigger] nodes[j]).expected_id != Some(from))
}

/// The string that the file calls `from` is `to` in the graph: its own slot, counted from
/// `start` on, where it is local and one of the first `n` staged strings is called so, the
/// last of them; and `from` itself otherwise.
pub open spec fn reads_as(
    strings: Seq<StagedString>,
    start: u32,
    n: int,
    from: StringId,
    to: StringId,
) -> bool {
    ||| to == from && (!(0x8000_0000 <= from.0 < u32::MAX) || forall|j: int|
        0 <= j < n ==> (#[trigger] strings[j]).local_id != from)
    ||| 0x8000_0000 <= from.0 < u32::MAX && exists|a: int|
        0 <= a < n && (#[trigger] strings[a]).local_id == from && to.0 == (start + a) as u32 && (
        forall|j: int| a < j < n ==> (#[trigger] strings[j]).local_id != from)
}

proof fn lemma_node_table(nodes: Seq<StagedNode>, start: u32, n: int, id: NodeId) -> (a: int)
    requires
        0 <= n <= nodes.len(),
    ensures
        -1 <= a < n,
        a >= 0 ==> nodes[a].expected_id == Some(id) && node_table(nodes, start, n).dom().contains(id)
            && node_table(nodes, start, n)[id] == (NodeId {
            index: (start + a) as u32,
            generation: 1,
        }),
        a < 0 ==> !node_table(nodes, start, n).dom().contains(id),
        forall|j: int| a < j < n ==> (#[trigger] nodes[j]).expected_id != Some(id),
    decreases n,
{
    if n <= 0 {
        -1
    } else if nodes[n - 1].expected_id == Some(id) {
        n - 1
    } else {
        lemma_node_table(nodes, start, n - 1, id)
    }
}

proof fn lemma_string_table(strings: Seq<StagedString>, start: u32, n: int, id: StringId) -> (a:
    int)
    requires
        0 <= n <= strings.len(),
    ensures
        -1 <= a < n,
        a >= 0 ==> strings[a].local_id == id && string_table(strings, start, n).dom().contains(id.0)
            && string_table(strings, start, n)[id.0] == (start + a) as u32,
        a < 0 ==> !string_table(strings, start, n).dom().contains(id.0),
        forall|j: int| a < j < n ==> (#[trigger] strings[j]).local_id != id,
    decreases n,
{
    if n <= 0 {
        -1
    } else if strings[n - 1].local_id == id {
        n - 1
    } else {
        lemma_string_table(strings, start, n - 1, id)
    }
}

proof fn lemma_lands(nodes: Seq<StagedNode>, start: u32, n: int, from: NodeId)
    requires
        0 <= n <= nodes.len(),
    ensures
        lands_at(nodes, start, n, from, moved(node_table(nodes, start, n), from)),
{
    let a = lemma_node_table(nodes, start, n, from);
}

pub(crate) proof fn lemma_reads(strings: Seq<StagedString>, start: u32, n: int, from: StringId)
    requires
        0 <= n <= strings.len(),
    ensures
        reads_as(strings, start, n, from, on_id(string_table(strings, start, n), true, from)),
{
    let a = lemma_string_table(strings, start, n, from);
}

/// A staged edge is committed between the nodes that its ends become, in the file that is
/// being committed and over the same spans, one for each and in their order.
pub proof fn law_committed_edges_join_committed_nodes(
    nodes: Seq<StagedNode>,
    strings: Seq<StagedString>,
    node_start: u32,
    string_start: u32,
    n: int,
    m: int,
    file: FileId,
    edges: Seq<StagedEdge>,
)
    requires
        0 <= n <= nodes.len(),
        0 <= m <= strings.len(),
    ensures
        ({
            let out = committed_edges(
                node_table(nodes, node_start, n),
                string_table(strings, string_start, m),
                file,
                edges,
            );
            &&& out.len() == edges.len()
            &&& forall|i: int|
                0 <= i < edges.len() ==> {
                    let e = edges[i];
                    let c = #[trigger] out[i];
                    &&& lands_at(nodes, node_start, n, e.source, c.source)
                    &&& lands_at(nodes, node_start, n, e.target, c.target)
                    &&& c.file == file
                    &&& c.spans == e.spans
                }
        }),
{
    let table = node_table(nodes, node_start, n);
    let out = committed_edges(table, string_table(strings, string_start, m), file, edges);
    assert forall|i: int| 0 <= i < edges.len() implies {
        let e = edges[i];
        let c = #[trigger] out[i];
        &&& lands_at(nodes, node_start, n, e.source, c.source)
        &&& lands_at(nodes, node_start, n, e.target, c.target)
        &&& c.file == file
        &&& c.spans == e.spans
    } by {
        lemma_lands(nodes, node_start, n, edges[i].source);
        lemma_lands(nodes, node_start, n, edges[i].target);
    }
}

/// Staged hints are committed one for each and in their order: the nodes and the strings
/// that they speak of are those that the graph knows them as, the file is the one that is
/// being committed, and whatever else they say they still say.
pub proof fn law_committed_hints_speak_of_committed_nodes(
    nodes: Seq<StagedNode>,
    strings: Seq<StagedString>,
    node_start: u32,
    string_start: u32,
    n: int,
    m: int,
    file: FileId,
    h: HintsView,
)
    requires
        0 <= n <= nodes.len(),
        0 <= m <= strings.len(),
    ensures
        ({
            let c = committed_hints(
                node_table(nodes, node_start, n),
                string_table(strings, string_start, m),
                file,
                h,
            );
            &&& c.embeddings.len() == h.embeddings.len()
            &&& forall|i: int|
                0 <= i < h.embeddings.len() ==> {
                    let a = h.embeddings[i];
                    let b = #[trigger] c.embeddings[i];
                    &&& lands_at(nodes, node_start, n, a.outer, b.outer)
                    &&& reads_as(
                        strings,
                        string_start,
                        m,
                        a.inner_qualified_name,
                        b.inner_qualified_name,
                    )
                    &&& b.pointerness == a.pointerness
                    &&& b.file == file
                }
            &&& c.named_type_conversions.len() == h.named_type_conversions.len()
            &&& forall|i: int|
                0 <= i < h.named_type_conversions.len() ==> {
                    let a = h.named_type_conversions[i];
                    let b = #[trigger] c.named_type_conversions[i];
                    &&& lands_at(nodes, node_start, n, a.call_site, b.call_site)
                    &&& lands_at(nodes, node_start, n, a.argument_node, b.argument_node)
                    &&& reads_as(
                        strings,
                        string_start,
                        m,
                        a.target_type_qualified_name,
                        b.target_type_qualified_name,
                    )
                    &&& b.file == file
                }
            &&& c.receiver_calls.len() == h.receiver_calls.len()
            &&& forall|i: int|
                0 <= i < h.receiver_calls.len() ==> {
                    let a = h.receiver_calls[i];
                    let b = #[trigger] c.receiver_calls[i];
                    &&& lands_at(nodes, node_start, n, a.call_site, b.call_site)
                    &&& lands_at(nodes, node_start, n, a.callee_method, b.callee_method)
                    &&& reads_as(strings, string_start, m, a.method_name, b.method_name)
                    &&& b.argument_count == a.argument_count
                    &&& b.is_async == a.is_async
                    &&& b.file == file
                    &&& match a.receiver {
                        ReceiverHintView::LocalIdent { binding_local: x } => {
                            b.receiver matches ReceiverHintView::LocalIdent { binding_local: y }
                                && lands_at(nodes, node_start, n, x, y)
                        },
                        other => b.receiver == other,
                    }
                }
            &&& c.method_receivers.len() == h.method_receivers.len()
            &&& forall|i: int|
                0 <= i < h.method_receivers.len() ==> {
                    let a = h.method_receivers[i];
                    let b = #[trigger] c.method_receivers[i];
                    &&& lands_at(nodes, node_start, n, a.method_node, b.method_node)
                    &&& reads_as(
                        strings,
                        string_start,
                        m,
                        a.receiver_type_qualified_name,
                        b.receiver_type_qualified_name,
                    )
                    &&& b.receiver_pointerness == a.receiver_pointerness
                    &&& b.file == file
                }
            &&& c.method_signatures.len() == h.method_signatures.len()
            &&& forall|i: int|
                0 <= i < h.method_signatures.len() ==> {
                    let a = h.method_signatures[i];
                    let b = #[trigger] c.method_signatures[i];
                    &&& lands_at(nodes, node_start, n, a.node, b.node)
                    &&& b.signature == a.signature
                    &&& b.file == file
                }
            &&& c.function_signatures.len() == h.function_signatures.len()
            &&& forall|i: int|
                0 <= i < h.function_signatures.len() ==> {
                    let a = h.function_signatures[i];
                    let b = #[trigger] c.function_signatures[i];
                    &&& lands_at(nodes, node_start, n, a.node, b.node)
                    &&& b.signature == a.signature
                    &&& b.file == file
                }
        }),
{
    let table = node_table(nodes, node_start, n);
    let texts = string_table(strings, string_start, m);
    assert forall|id: NodeId| lands_at(nodes, node_start, n, id, #[trigger] moved(table, id)) by {
        lemma_lands(nodes, node_start, n, id);
    }
    assert forall|id: StringId| reads_as(
        strings,
        string_start,
        m,
        id,
        #[trigger] on_id(texts, true, id),
    ) by {
        lemma_reads(strings, string_start, m, id);
    }
}

/// `to` is what a table of strings makes of `from`: what the table says, where it says
/// anything and, if only local strings count, `from` is one; else `from`.
pub open spec fn renamed_to(
    remap: Map<u32, u32>,
    local_only: bool,
    from: StringId,
    to: StringId,
) -> bool {
    if remap.dom().contains(from.0) && (local_only ==> 0x8000_0000 <= from.0 < u32::MAX) {
        to.0 == remap[from.0]
    } else {
        to == from
    }
}

/// The same for a string that may be missing.
pub open spec fn option_renamed_to(
    remap: Map<u32, u32>,
    local_only: bool,
    from: Option<StringId>,
    to: Option<StringId>,
) -> bool {
    match (from, to) {
        (Some(a), Some(b)) => renamed_to(remap, local_only, a, b),
        (None, None) => true,
        _ => false,
    }
}

/// A node keeps what it is: only its strings are renamed, and all of them.
pub proof fn law_renaming_touches_all_strings_of_a_node_and_nothing_else(
    remap: Map<u32, u32>,
    local_only: bool,
    e: NodeEntry,
)
    ensures
        ({
            let r = on_entry(remap, local_only, e);
            &&& renamed_to(remap, local_only, e.name, r.name)
            &&& option_renamed_to(remap, local_only, e.signature, r.signature)
            &&& option_renamed_to(remap, local_only, e.doc, r.doc)
            &&& option_renamed_to(remap, local_only, e.qualified_name, r.qualified_name)
            &&& option_renamed_to(remap, local_only, e.visibility, r.visibility)
            &&& r == (NodeEntry {
                name: r.name,
                signature: r.signature,
                doc: r.doc,
                qualified_name: r.qualified_name,
                visibility: r.visibility,
                ..e
            })
        }),
{
}

/// What a file stages is what it was told to add, in that order.
pub proof fn law_staged_is_what_was_added(ops: Seq<OpView>)
    ensures
        staged_nodes(ops, ops.len() as int) == ops.filter(|o: OpView| o is AddNode).map_values(
            |o: OpView|
                StagedNode { entry: o->AddNode_entry, expected_id: o->AddNode_expected_id },
        ),
        staged_edges(ops, ops.len() as int) == ops.filter(|o: OpView| o is AddEdge).map_values(
            |o: OpView|
                StagedEdge {
                    source: o->AddEdge_source,
                    target: o->AddEdge_target,
                    kind: o->AddEdge_kind,
                    spans: o->AddEdge_spans,
                },
        ),
        staged_strings(ops, ops.len() as int) == ops.filter(
            |o: OpView| o is InternString,
        ).map_values(
            |o: OpView|
                StagedString {
                    local_id: o->InternString_local_id,
                    value: o->InternString_value,
                },
        ),
{
    lemma_staged(ops, ops.len() as int);
    assert(ops.take(ops.len() as int) =~= ops);
}

proof fn lemma_staged(ops: Seq<OpView>, n: int)
    requires
        0 <= n <= ops.len(),
    ensures
        staged_nodes(ops, n) == ops.take(n).filter(|o: OpView| o is AddNode).map_values(
            |o: OpView|
                StagedNode { entry: o->AddNode_entry, expected_id: o->AddNode_expected_id },
        ),
        staged_edges(ops, n) == ops.take(n).filter(|o: OpView| o is AddEdge).map_values(
            |o: OpView|
                StagedEdge {
                    source: o->AddEdge_source,
                    target: o->AddEdge_target,
                    kind: o->AddEdge_kind,
                    spans: o->AddEdge_spans,
                },
        ),
        staged_strings(ops, n) == ops.take(n).filter(|o: OpView| o is InternString).map_values(
            |o: OpView|
                StagedString {
                    local_id: o->InternString_local_id,
                    value: o->InternString_value,
                },
        ),
    decreases n,
{
    let p = |o: OpView| o is AddNode;
    let q = |o: OpView| o is AddEdge;
    let r = |o: OpView| o is InternString;
    let a = |o: OpView|
        StagedNode { entry: o->AddNode_entry, expected_id: o->AddNode_expected_id };
    let b = |o: OpView|
        StagedEdge {
            source: o->AddEdge_source,
            target: o->AddEdge_target,
            kind: o->AddEdge_kind,
            spans: o->AddEdge_spans,
        };
    let c = |o: OpView|
        StagedString { local_id: o->InternString_local_id, value: o->InternString_value };
    if n > 0 {
        lemma_staged(ops, n - 1);
        lemma_filter_take(ops, p, n);
        lemma_filter_take(ops, q, n);
        lemma_filter_take(ops, r, n);
        let few = ops.take(n - 1);
        let o = ops[n - 1];
        assert(few.filter(p).push(o).map_values(a) =~= few.filter(p).map_values(a).push(a(o)));
        assert(few.filter(q).push(o).map_values(b) =~= few.filter(q).map_values(b).push(b(o)));
        assert(few.filter(r).push(o).map_values(c) =~= few.filter(r).map_values(c).push(c(o)));
        assert(staged_nodes(ops, n) =~= ops.take(n).filter(p).map_values(a));
        assert(staged_edges(ops, n) =~= ops.take(n).filter(q).map_values(b));
        assert(staged_strings(ops, n) =~= ops.take(n).filter(r).map_values(c));
    } else {
        reveal(Seq::filter);
        assert(ops.take(0).filter(p).map_values(a) =~= staged_nodes(ops, n));
        assert(ops.take(0).filter(q).map_values(b) =~= staged_edges(ops, n));
        assert(ops.take(0).filter(r).map_values(c) =~= staged_strings(ops, n));
    }
}

/// The first string that the file interns as `id` is `text`.
pub open spec fn interns(ops: Seq<OpView>, id: StringId, text: Seq<char>) -> bool {
    exists|k: int|
        0 <= k < ops.len() && (#[trigger] ops[k]) == (OpView::InternString {
            local_id: id,
            value: text,
        }) && (forall|j: int|
            0 <= j < k ==> !((#[trigger] ops[j]) is InternString && ops[j]->InternString_local_id
                == id))
}

proof fn lemma_local_text(ops: Seq<OpView>, id: StringId, i: int) -> (k: int)
    requires
        0 <= i <= ops.len(),
    ensures
        i <= k <= ops.len(),
        k < ops.len() ==> ops[k] is InternString && ops[k]->InternString_local_id == id
            && local_text_from(ops, id, i) == Some(ops[k]->InternString_value),
        k == ops.len() ==> local_text_from(ops, id, i) is None,
        forall|j: int|
            i <= j < k ==> !((#[trigger] ops[j]) is InternString && ops[j]->InternString_local_id
                == id),
    decreases ops.len() - i,
{
    if i >= ops.len() {
        i
    } else if ops[i] is InternString && ops[i]->InternString_local_id == id {
        i
    } else {
        lemma_local_text(ops, id, i + 1)
    }
}

proof fn lemma_interns(ops: Seq<OpView>, id: StringId, text: Seq<char>)
    ensures
        interns(ops, id, text) <==> local_text_from(ops, id, 0) == Some(text),
{
    let m = lemma_local_text(ops, id, 0);
    if m < ops.len() {
        assert(ops[m] is InternString);
        if local_text_from(ops, id, 0) == Some(text) {
            assert(ops[m] == (OpView::InternString { local_id: id, value: text }));
        }
    }
    if interns(ops, id, text) {
        let k = choose|k: int|
            0 <= k < ops.len() && (#[trigger] ops[k]) == (OpView::InternString {
                local_id: id,
                value: text,
            }) && (forall|j: int|
                0 <= j < k ==> !((#[trigger] ops[j]) is InternString
                    && ops[j]->InternString_local_id == id));
        assert(ops[k] is InternString);
        assert(k == m);
    }
}

/// Some text is interned as `id`.
pub open spec fn interns_some(ops: Seq<OpView>, id: StringId) -> bool {
    exists|text: Seq<char>| interns(ops, id, text)
}

/// Of the functions whose address a file takes, those whose name the file interns are
/// handed on by that name and with the file, in their order.
pub proof fn law_address_taken_names_are_handed_on(
    ops: Seq<OpView>,
    names: Seq<StringId>,
    file: FileId,
)
    ensures
        ({
            let known = names.filter(|id: StringId| interns_some(ops, id));
            let out = deferred(ops, names, file, names.len() as int);
            &&& out.len() == known.len()
            &&& forall|i: int|
                0 <= i < out.len() ==> interns(
                    ops,
                    known[i],
                    (#[trigger] out[i]).function_qualified_name,
                ) && out[i].file_id == file
        }),
{
    lemma_deferred(ops, names, file, names.len() as int);
    assert(names.take(names.len() as int) =~= names);
}

proof fn lemma_deferred(ops: Seq<OpView>, names: Seq<StringId>, file: FileId, n: int)
    requires
        0 <= n <= names.len(),
    ensures
        ({
            let known = names.take(n).filter(|id: StringId| interns_some(ops, id));
            let out = deferred(ops, names, file, n);
            &&& out.len() == known.len()
            &&& forall|i: int|
                0 <= i < out.len() ==> interns(
                    ops,
                    known[i],
                    (#[trigger] out[i]).function_qualified_name,
                ) && out[i].file_id == file
        }),
    decreases n,
{
    let p = |id: StringId| interns_some(ops, id);
    if n > 0 {
        lemma_deferred(ops, names, file, n - 1);
        lemma_filter_take(names, p, n);
        let id = names[n - 1];
        match local_text_from(ops, id, 0) {
            Some(t) => {
                lemma_interns(ops, id, t);
                assert(p(id));
            },
            None => {
                assert forall|t: Seq<char>| !interns(ops, id, t) by {
                    lemma_interns(ops, id, t);
                }
                assert(!p(id));
            },
        }
    } else {
        reveal(Seq::filter);
        assert(names.take(0).filter(p).len() == 0);
    }
}

/// What the metadata says of `node` after `n` files: what the last file says that speaks of
/// it, if no other node stands for it; else what was said before.
pub proof fn law_later_metadata_prevails(
    m: MetadataView,
    staged: Seq<(FileId, MetadataView)>,
    losers: Map<NodeId, NodeId>,
    node: NodeId,
)
    ensures
        ({
            let after = metadata_after(m, staged, losers, staged.len() as int);
            &&& losers.dom().contains(node) ==> after.of(node) == m.of(node)
            &&& forall|k: int|
                0 <= k < staged.len() && (#[trigger] staged[k]).1.entries.dom().contains(node)
                    && !losers.dom().contains(node) && (forall|j: int|
                    k < j < staged.len() ==> !(#[trigger] staged[j]).1.entries.dom().contains(node))
                    ==> after.of(node) == staged[k].1.of(node)
            &&& (forall|j: int|
                0 <= j < staged.len() ==> !(#[trigger] staged[j]).1.entries.dom().contains(node))
                ==> after.of(node) == m.of(node)
        }),
{
    let k = lemma_metadata(m, staged, losers, staged.len() as int, node);
}

proof fn lemma_metadata(
    m: MetadataView,
    staged: Seq<(FileId, MetadataView)>,
    losers: Map<NodeId, NodeId>,
    n: int,
    node: NodeId,
) -> (k: int)
    requires
        0 <= n <= staged.len(),
    ensures
        -1 <= k < n,
        ({
            let after = metadata_after(m, staged, losers, n);
            &&& k >= 0 ==> !losers.dom().contains(node) && staged[k].1.entries.dom().contains(node)
                && after.entries.dom().contains(node) && after.entries[node]
                == staged[k].1.entries[node]
            &&& k < 0 ==> after.of(node) == m.of(node)
            &&& k < 0 ==> (after.entries.dom().contains(node) <==> m.entries.dom().contains(node))
            &&& forall|j: int|
                k < j < n ==> losers.dom().contains(node) || !(
                #[trigger] staged[j]).1.entries.dom().contains(node)
        }),
    decreases n,
{
    if n <= 0 {
        -1
    } else {
        let k = lemma_metadata(m, staged, losers, n - 1, node);
        if !losers.dom().contains(node) && staged[n - 1].1.entries.dom().contains(node) {
            n - 1
        } else {
            k
        }
    }
}

} // verus!
