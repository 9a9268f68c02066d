//! What holds of several functions together, on concrete values.

use sqry_build::arena::NodeEntry;
use sqry_build::bind::ScopeKind;
use sqry_build::c_indirect::{CIndirectStagingPayload, PendingBinding};
use sqry_build::fields::{join_fields, keep_non_empty, split_fields};
use sqry_build::graph::CodeGraph;
use sqry_build::hints::GoEmbeddingHint;
use sqry_build::ids::{FileId, NodeId, StringId};
use sqry_build::kinds::{EdgeKind, NodeKind, Receiver, ResolvedVia, TypeArg, TypeArgs};
use sqry_build::parallel_commit::c_drain::collect_c_indirect_drain;
use sqry_build::parallel_commit::{
    phase2_assign_ranges, phase3_parallel_commit, rebuild_indices, remap_edge_kind_string_ids,
    GlobalOffsets, PhaseCIndirectDrain,
};
use sqry_build::pass_go_method_set::materialise::split_qn_into_package_and_name;
use sqry_build::pass_go_method_set::run_go_method_set_satisfaction;
use sqry_build::phase4e_binding::derive_binding_plane;
use sqry_build::sorting::{dedup_neighbours, place_in, stable_sort};
use sqry_build::staging::StagingGraph;
use sqry_build::strings::StringRemap;
use sqry_build::text::{chars_of, string_of};
use sqry_build::unification::{merge_node_into, NodeRemapTable};

fn add_node(graph: &mut CodeGraph, kind: NodeKind, name: &str, qn: &str) -> NodeId {
    let name = graph.strings_mut().intern(name).unwrap();
    let qn = graph.strings_mut().intern(qn).unwrap();
    let mut entry = NodeEntry::new(kind, name, FileId::new(0));
    entry.qualified_name = Some(qn);
    graph.nodes_mut().allocate(entry).unwrap()
}

#[test]
fn sorting_keeps_elements_and_puts_them_in_order() {
    let ids: Vec<StringId> = [3, 1, 2, 3, 1].iter().map(|i| StringId::new(*i)).collect();
    let sorted = stable_sort(ids);
    let numbers: Vec<u32> = sorted.iter().map(|s| s.index()).collect();
    assert_eq!(numbers, vec![1, 1, 2, 3, 3]);

    let mut distinct = dedup_neighbours(&sorted);
    assert_eq!(distinct.len(), 3);
    place_in(&mut distinct, StringId::new(0));
    assert_eq!(distinct[0], StringId::new(0));
}

#[test]
fn joined_fields_come_apart_again() {
    let parts = vec![chars_of("api"), chars_of(""), chars_of("users")];
    let joined = join_fields(&parts, '/');
    assert_eq!(string_of(&joined), "api//users");
    assert_eq!(split_fields(&joined, '/'), parts);
    assert_eq!(keep_non_empty(parts).len(), 2);
}

#[test]
fn package_and_name_join_to_the_qualified_name() {
    let (package, name) = split_qn_into_package_and_name("a::b::C").unwrap();
    assert_eq!(package, "a::b");
    assert_eq!(name, "C");
    assert!(split_qn_into_package_and_name("C").is_none());
}

#[test]
fn remap_reaches_type_arguments() {
    let mut remap = StringRemap::new();
    remap.insert(StringId::new(1), StringId::new(10));
    remap.insert(StringId::new(2), StringId::new(20));
    let args = [
        TypeArg { name: StringId::new(1), inferred: false },
        TypeArg { name: StringId::new(2), inferred: true },
        TypeArg { name: StringId::new(3), inferred: false },
    ];
    let mut kind =
        EdgeKind::Instantiates { type_args: TypeArgs::from_slice(&args), is_partial: false };

    remap_edge_kind_string_ids(&mut kind, &remap);

    match kind {
        EdgeKind::Instantiates { type_args, is_partial } => {
            let names: Vec<u32> = type_args.to_vec().iter().map(|a| a.name.index()).collect();
            assert_eq!(names, vec![10, 20, 3]);
            assert!(!is_partial);
        }
        _ => panic!("kind changed"),
    }
}

#[test]
fn drains_join_in_order_and_the_empty_one_adds_nothing() {
    let mut sg = StagingGraph::new();
    sg.intern_string(StringId::new_local(0), "handler".to_string());
    let mut payload = CIndirectStagingPayload::new();
    payload.pending_address_taken_names.push(StringId::new_local(0));
    payload.pending_address_taken_names.push(StringId::new_local(9));
    payload.pending_bindings.push(PendingBinding {
        struct_tag: "ops".to_string(),
        field_name: "read".to_string(),
        instance_name: "dev_ops".to_string(),
        target_fn_name: "dev_read".to_string(),
    });
    sg.c_indirect = Some(payload);
    let plain = StagingGraph::new();
    let files = [FileId::new(4), FileId::new(5)];
    let offsets = GlobalOffsets { node_offset: 0, string_offset: 1 };
    let plan = phase2_assign_ranges(&[&plain, &sg], &files, &offsets);

    let drain = collect_c_indirect_drain(&plan, &[&plain, &sg]).unwrap();

    // A name that the staging graph does not hold is left out.
    assert_eq!(drain.address_taken_names.len(), 1);
    assert_eq!(drain.address_taken_names[0].function_qualified_name, "handler");
    assert_eq!(drain.address_taken_names[0].file_id, FileId::new(5));
    assert_eq!(drain.bindings[0].0, FileId::new(5));

    let mut all = PhaseCIndirectDrain::default();
    assert!(all.is_empty());
    all.merge(drain);
    all.merge(PhaseCIndirectDrain::default());
    assert_eq!(all.address_taken_names.len(), 1);
    assert_eq!(all.bindings.len(), 1);

    let none = phase2_assign_ranges(&[&plain], &[FileId::new(4)], &offsets);
    assert!(collect_c_indirect_drain(&none, &[&plain]).is_none());

    // A payload that holds nothing is still a payload.
    let mut blank = StagingGraph::new();
    blank.c_indirect = Some(CIndirectStagingPayload::new());
    let drain = collect_c_indirect_drain(&none, &[&blank]).unwrap();
    assert!(drain.is_empty());
}

#[test]
fn committed_chunk_keeps_hints_and_edges() {
    let mut sg = StagingGraph::new();
    let outer_name = StringId::new_local(0);
    sg.intern_string(outer_name, "pkg::Outer".to_string());
    let a = sg.add_node(NodeEntry::new(NodeKind::Struct, outer_name, FileId::new(0)));
    let b = sg.add_node(NodeEntry::new(NodeKind::Method, outer_name, FileId::new(0)));
    sg.add_edge(
        a,
        b,
        EdgeKind::Calls { argument_count: 1, is_async: true, resolved_via: ResolvedVia::Direct },
        FileId::new(0),
    );
    sg.go_hints.embeddings.push(GoEmbeddingHint {
        outer: a,
        inner_qualified_name: outer_name,
        pointerness: Receiver::Pointer,
        file: FileId::new(0),
    });
    let mut graph = CodeGraph::new();
    let file = FileId::new(7);
    let offsets = GlobalOffsets { node_offset: 0, string_offset: 1 };
    let plan = phase2_assign_ranges(&[&sg], &[file], &offsets);
    let blank = NodeEntry::new(NodeKind::Other, StringId::new(0), FileId::new(0));
    graph.nodes_mut().alloc_range(plan.total_nodes, &blank).unwrap();
    graph.strings_mut().alloc_range(plan.total_strings).unwrap();

    let result = phase3_parallel_commit(&plan, &[&sg], &mut graph);

    let ids = &result.per_file_node_ids[0];
    assert_eq!(result.per_file_edges[0][0].source, ids[0]);
    assert_eq!(result.per_file_edges[0][0].target, ids[1]);
    let hint = &graph.go_hints().embeddings[0];
    assert_eq!(hint.outer, ids[0]);
    assert_eq!(hint.inner_qualified_name, StringId::new(1));
    assert_eq!(hint.file, file);
}

#[test]
fn merging_into_itself_or_a_missing_node_is_refused() {
    let mut graph = CodeGraph::new();
    let a = add_node(&mut graph, NodeKind::Function, "f", "p::f");
    let gone = NodeId::new(9, 1);
    assert!(merge_node_into(graph.nodes_mut(), a, a).is_err());
    assert!(merge_node_into(graph.nodes_mut(), gone, a).is_err());
    assert!(merge_node_into(graph.nodes_mut(), a, gone).is_err());

    let b = add_node(&mut graph, NodeKind::Function, "f", "p::f");
    let doc = graph.strings_mut().intern("doc").unwrap();
    let mut entry = graph.nodes().get(b).unwrap();
    entry.doc = Some(doc);
    graph.nodes_mut().replace(b, entry);
    assert!(merge_node_into(graph.nodes_mut(), b, a).is_ok());
    assert_eq!(graph.nodes().get(a).unwrap().doc, Some(doc));
    assert_eq!(graph.nodes().get(b).unwrap().qualified_name, None);
}

#[test]
fn remap_table_resolves_in_one_step() {
    let mut table = NodeRemapTable::new();
    assert!(table.is_empty());
    let (a, b) = (NodeId::new(1, 1), NodeId::new(2, 1));
    table.insert(a, b);
    assert_eq!(table.resolve(a), b);
    assert_eq!(table.resolve(b), b);
    assert_eq!(table.get(b), None);
}

#[test]
fn go_pass_only_adds_edges_and_nodes() {
    let mut graph = CodeGraph::new();
    add_node(&mut graph, NodeKind::Struct, "Inner", "fx::Inner");
    let m = add_node(&mut graph, NodeKind::Method, "M", "fx::Inner::M");
    let outer = add_node(&mut graph, NodeKind::Struct, "Outer", "fx::Outer");
    let caller = add_node(&mut graph, NodeKind::Function, "use", "fx::use");
    rebuild_indices(&mut graph);
    graph.edges_mut().add_edge(
        caller,
        m,
        EdgeKind::Calls { argument_count: 0, is_async: false, resolved_via: ResolvedVia::Direct },
        FileId::new(0),
    );
    let inner_qn = graph.strings_mut().intern("fx::Inner").unwrap();
    graph.go_hints_mut().embeddings.push(GoEmbeddingHint {
        outer,
        inner_qualified_name: inner_qn,
        pointerness: Receiver::Value,
        file: FileId::new(0),
    });
    let nodes_before = graph.nodes().iter();

    run_go_method_set_satisfaction(&mut graph, None);

    let edges = graph.edges().all_live_forward_edges();
    assert!(edges.len() > 1);
    assert_eq!((edges[0].source, edges[0].target), (caller, m));
    for (id, entry) in nodes_before {
        assert_eq!(graph.nodes().get(id), Some(entry));
    }
}

#[test]
fn named_type_without_methods_is_not_held_against_interfaces() {
    let mut graph = CodeGraph::new();
    add_node(&mut graph, NodeKind::Interface, "Reader", "fx::Reader");
    add_node(&mut graph, NodeKind::Method, "Read", "fx::Reader::Read");
    add_node(&mut graph, NodeKind::Struct, "File", "fx::File");
    add_node(&mut graph, NodeKind::Type, "Alias", "fx::Alias");
    add_node(&mut graph, NodeKind::Type, "Handler", "fx::Handler");
    add_node(&mut graph, NodeKind::Method, "Read", "fx::Handler::Read");
    rebuild_indices(&mut graph);

    let stats = run_go_method_set_satisfaction(&mut graph, None);

    // Reader, File and Handler against Reader.
    assert_eq!(stats.satisfaction_pairs_examined, 3);
    assert_eq!(stats.implements_edges_value, 1);
}

#[test]
fn provenance_holds_the_content_hash() {
    let mut graph = CodeGraph::new();
    let file = graph.files_mut().register("/virtual/m.rs").unwrap();
    graph.files_mut().set_content_hash(file, [7u8; 32]);
    let name = graph.strings_mut().intern("m").unwrap();
    let mut entry = NodeEntry::new(NodeKind::Module, name, file);
    entry.end_byte = 40;
    graph.nodes_mut().allocate(entry).unwrap();
    rebuild_indices(&mut graph);
    graph.fact_epoch = 3;

    let stats = derive_binding_plane(&mut graph);

    assert_eq!(stats.scopes, 1);
    let record = &graph.scope_provenance_store().records[0];
    assert_eq!(record.stable_id.content_hash, [7u8; 32]);
    assert_eq!(record.stable_id.kind, ScopeKind::Module);
    assert_eq!(record.stable_id.byte_span, (0, 40));
    assert_eq!(record.first_seen_epoch, 3);
}
