//! Committing staging graphs.

use sqry_build::arena::{NodeArena, NodeEntry, Slot};
use sqry_build::edges::{DeltaOp, PendingEdge};
use sqry_build::graph::CodeGraph;
use sqry_build::ids::{FileId, NodeId, StringId};
use sqry_build::kinds::{EdgeKind, MqProtocol, NodeKind, ResolvedVia, TypeOfContext};
use sqry_build::metadata::{MacroNodeMetadata, NodeMetadataStore, ShapeDescriptor};
use sqry_build::parallel_commit::commit::commit_single_file;
use sqry_build::parallel_commit::{
    compute_commit_plan, pending_edges_to_delta, phase2_assign_ranges, phase3_parallel_commit,
    phase4_apply_global_remap, phase4c_prime_unify_cross_file_nodes, phase4d_bulk_insert_edges,
    phase4d_prime_propagate_staging_metadata, rebuild_indices, rekey_staging_metadata_to_arena,
    remap_edge_kind_string_ids, remap_option_string_id, remap_string_id, ChunkCommitPlan, FilePlan,
    GlobalOffsets,
};
use sqry_build::staging::StagingGraph;
use sqry_build::strings::StringRemap;
use sqry_build::unification::NodeRemapTable;

#[test]
fn test_compute_commit_plan_basic() {
    let file_ids = vec![FileId::new(0), FileId::new(1), FileId::new(2)];
    let node_counts = vec![3, 0, 5];
    let string_counts = vec![2, 1, 3];
    let edge_counts = vec![4, 0, 6];

    let plan = compute_commit_plan(
        &node_counts,
        &string_counts,
        &edge_counts,
        &file_ids,
        0,
        1,
    );

    assert_eq!(plan.total_nodes, 8);
    assert_eq!(plan.total_strings, 6);
    assert_eq!(plan.total_edges, 10);

    assert_eq!(plan.file_plans[0].node_range, 0..3);
    assert_eq!(plan.file_plans[0].string_range, 1..3);

    assert_eq!(plan.file_plans[1].node_range, 3..3);
    assert_eq!(plan.file_plans[1].string_range, 3..4);

    assert_eq!(plan.file_plans[2].node_range, 3..8);
    assert_eq!(plan.file_plans[2].string_range, 4..7);
}

#[test]
fn test_compute_commit_plan_with_offsets() {
    let file_ids = vec![FileId::new(5)];
    let plan = compute_commit_plan(&[10], &[5], &[7], &file_ids, 100, 50);
    assert_eq!(plan.file_plans[0].node_range, 100..110);
    assert_eq!(plan.file_plans[0].string_range, 50..55);
    assert_eq!(plan.total_nodes, 10);
    assert_eq!(plan.total_strings, 5);
    assert_eq!(plan.total_edges, 7);
}

#[test]
fn test_compute_commit_plan_empty() {
    let plan = compute_commit_plan(&[], &[], &[], &[], 0, 1);
    assert_eq!(plan.total_nodes, 0);
    assert_eq!(plan.total_strings, 0);
    assert_eq!(plan.total_edges, 0);
    assert!(plan.file_plans.is_empty());
}

#[test]
fn test_remap_string_id_basic() {
    let mut remap = StringRemap::new();
    remap.insert(StringId::new(1), StringId::new(100));

    let mut id = StringId::new(1);
    remap_string_id(&mut id, &remap);
    assert_eq!(id, StringId::new(100));
}

#[test]
fn test_remap_string_id_not_in_remap() {
    let remap = StringRemap::new();
    let mut id = StringId::new(42);
    remap_string_id(&mut id, &remap);
    assert_eq!(id, StringId::new(42));
}

#[test]
fn test_remap_option_string_id() {
    let mut remap = StringRemap::new();
    remap.insert(StringId::new(5), StringId::new(50));

    let mut some_id = Some(StringId::new(5));
    remap_option_string_id(&mut some_id, &remap);
    assert_eq!(some_id, Some(StringId::new(50)));

    let mut none_id: Option<StringId> = None;
    remap_option_string_id(&mut none_id, &remap);
    assert_eq!(none_id, None);
}

#[test]
fn test_remap_edge_kind_imports() {
    let mut remap = StringRemap::new();
    remap.insert(StringId::new(1), StringId::new(100));

    let mut kind = EdgeKind::Imports {
        alias: Some(StringId::new(1)),
        is_wildcard: false,
    };
    remap_edge_kind_string_ids(&mut kind, &remap);
    assert!(
        matches!(kind, EdgeKind::Imports { alias: Some(id), .. } if id == StringId::new(100))
    );
}

#[test]
fn test_remap_edge_kind_trait_method_binding() {
    let mut remap = StringRemap::new();
    remap.insert(StringId::new(1), StringId::new(100));
    remap.insert(StringId::new(2), StringId::new(200));

    let mut kind = EdgeKind::TraitMethodBinding {
        trait_name: StringId::new(1),
        impl_type: StringId::new(2),
        is_ambiguous: false,
    };
    remap_edge_kind_string_ids(&mut kind, &remap);
    assert!(
        matches!(kind, EdgeKind::TraitMethodBinding { trait_name, impl_type, .. }
            if trait_name == StringId::new(100) && impl_type == StringId::new(200))
    );
}

#[test]
fn test_remap_edge_kind_no_op_variants() {
    let remap = StringRemap::new();

    let mut kind = EdgeKind::Defines;
    remap_edge_kind_string_ids(&mut kind, &remap);
    assert!(matches!(kind, EdgeKind::Defines));

    let mut kind = EdgeKind::Calls {
        argument_count: 3,
        is_async: true,
        resolved_via: ResolvedVia::Direct,
    };
    remap_edge_kind_string_ids(&mut kind, &remap);
    assert!(matches!(
        kind,
        EdgeKind::Calls {
            argument_count: 3,
            is_async: true,
            resolved_via: ResolvedVia::Direct,
        }
    ));
}

fn placeholder_entry() -> NodeEntry {
    NodeEntry::new(NodeKind::Function, StringId::new(0), FileId::new(0))
}

#[test]
fn test_phase2_assign_ranges_basic() {
    let mut sg0 = StagingGraph::new();
    let mut sg1 = StagingGraph::new();

    let entry0 = placeholder_entry();
    let n0 = sg0.add_node(entry0.clone());
    let n1 = sg0.add_node(entry0.clone());
    sg0.intern_string(StringId::new_local(0), "hello".into());
    sg0.add_edge(
        n0,
        n1,
        EdgeKind::Calls {
            argument_count: 0,
            is_async: false,
            resolved_via: ResolvedVia::Direct,
        },
        FileId::new(0),
    );

    sg1.add_node(entry0);
    sg1.intern_string(StringId::new_local(0), "world".into());
    sg1.intern_string(StringId::new_local(1), "foo".into());

    let file_ids = vec![FileId::new(10), FileId::new(11)];
    let offsets = GlobalOffsets {
        node_offset: 5,
        string_offset: 3,
    };

    let plan = phase2_assign_ranges(&[&sg0, &sg1], &file_ids, &offsets);

    assert_eq!(plan.file_plans[0].node_range, 5..7);
    assert_eq!(plan.file_plans[0].string_range, 3..4);

    assert_eq!(plan.file_plans[1].node_range, 7..8);
    assert_eq!(plan.file_plans[1].string_range, 4..6);

    assert_eq!(plan.total_nodes, 3);
    assert_eq!(plan.total_strings, 3);
    assert_eq!(plan.total_edges, 1);
}

#[test]
fn test_phase3_parallel_commit_basic() {
    let mut sg = StagingGraph::new();
    let local_name = StringId::new_local(0);
    sg.intern_string(local_name, "my_func".into());

    let entry = NodeEntry::new(NodeKind::Function, local_name, FileId::new(0));
    let n0 = sg.add_node(entry.clone());

    let entry2 = NodeEntry::new(NodeKind::Variable, local_name, FileId::new(0));
    let n1 = sg.add_node(entry2);

    sg.add_edge(
        n0,
        n1,
        EdgeKind::Calls {
            argument_count: 0,
            is_async: false,
            resolved_via: ResolvedVia::Direct,
        },
        FileId::new(0),
    );

    let file_ids = vec![FileId::new(5)];

    let mut graph = CodeGraph::new();
    graph
        .nodes_mut()
        .alloc_range(10, &placeholder_entry())
        .unwrap();
    let string_start = graph.strings_mut().alloc_range(1).unwrap();
    assert_eq!(string_start, 1);

    let offsets = GlobalOffsets {
        node_offset: 10,
        string_offset: string_start,
    };
    let plan = phase2_assign_ranges(&[&sg], &file_ids, &offsets);
    assert_eq!(plan.file_plans[0].node_range, 10..12);

    graph
        .nodes_mut()
        .alloc_range(plan.total_nodes, &placeholder_entry())
        .unwrap();
    graph.strings_mut().alloc_range(plan.total_strings).unwrap();

    let result = phase3_parallel_commit(&plan, &[&sg], &mut graph);

    assert_eq!(result.total_nodes_written, 2);
    assert_eq!(result.total_strings_written, 1);

    let global_name = StringId::new(string_start);
    assert_eq!(graph.strings().resolve(global_name).unwrap(), "my_func");

    assert_eq!(result.per_file_edges.len(), 1);
    assert_eq!(result.per_file_edges[0].len(), 1);

    let edge = &result.per_file_edges[0][0];
    assert_eq!(edge.file, FileId::new(5));
    assert_eq!(edge.source, NodeId::new(10, 1));
    assert_eq!(edge.target, NodeId::new(11, 1));

    assert_eq!(result.per_file_node_ids.len(), 1);
    assert_eq!(result.per_file_node_ids[0], vec![NodeId::new(10, 1), NodeId::new(11, 1)]);
}

#[test]
fn test_phase3_parallel_commit_empty() {
    let mut graph = CodeGraph::new();

    let plan = ChunkCommitPlan {
        file_plans: vec![],
        total_nodes: 0,
        total_strings: 0,
        total_edges: 0,
    };

    let result = phase3_parallel_commit(&plan, &[], &mut graph);
    assert!(result.per_file_edges.is_empty());
    assert!(result.per_file_node_ids.is_empty());
    assert_eq!(result.total_nodes_written, 0);
    assert_eq!(result.total_strings_written, 0);
}

#[test]
fn phase3_parallel_commit_runs_against_rebuild_graph() {
    let mut sg = StagingGraph::new();
    let local_name = StringId::new_local(0);
    sg.intern_string(local_name, "rebuild_target".into());
    let entry = NodeEntry::new(NodeKind::Function, local_name, FileId::new(0));
    let n0 = sg.add_node(entry.clone());
    let entry2 = NodeEntry::new(NodeKind::Variable, local_name, FileId::new(0));
    let n1 = sg.add_node(entry2);
    sg.add_edge(
        n0,
        n1,
        EdgeKind::Calls {
            argument_count: 0,
            is_async: false,
            resolved_via: ResolvedVia::Direct,
        },
        FileId::new(0),
    );

    let mut rebuild = CodeGraph::new();

    rebuild
        .nodes_mut()
        .alloc_range(10, &placeholder_entry())
        .unwrap();
    let string_start = rebuild.strings_mut().alloc_range(1).unwrap();
    assert_eq!(string_start, 1);

    let file_ids = vec![FileId::new(5)];
    let offsets = GlobalOffsets {
        node_offset: 10,
        string_offset: string_start,
    };
    let plan = phase2_assign_ranges(&[&sg], &file_ids, &offsets);

    rebuild
        .nodes_mut()
        .alloc_range(plan.total_nodes, &placeholder_entry())
        .unwrap();
    rebuild
        .strings_mut()
        .alloc_range(plan.total_strings)
        .unwrap();

    let result = phase3_parallel_commit(&plan, &[&sg], &mut rebuild);

    let committed_ids = &result.per_file_node_ids[0];
    assert_eq!(committed_ids, &vec![NodeId::new(10, 1), NodeId::new(11, 1)]);

    let resolved_name = rebuild
        .nodes_mut()
        .get(NodeId::new(10, 1))
        .map(|entry| entry.name)
        .unwrap();
    let resolved_str = rebuild.strings_mut().resolve(resolved_name).unwrap();
    assert_eq!(resolved_str, "rebuild_target");

    assert_eq!(result.total_nodes_written, 2);
    assert_eq!(result.total_strings_written, 1);
    assert_eq!(result.per_file_edges.len(), 1);
    assert_eq!(result.per_file_edges[0].len(), 1);
    let edge = &result.per_file_edges[0][0];
    assert_eq!(edge.file, FileId::new(5));
    assert_eq!(edge.source, NodeId::new(10, 1));
    assert_eq!(edge.target, NodeId::new(11, 1));
}

#[test]
fn test_commit_single_file_string_remap() {
    let mut sg = StagingGraph::new();
    let local_0 = StringId::new_local(0);
    let local_1 = StringId::new_local(1);
    sg.intern_string(local_0, "alpha".into());
    sg.intern_string(local_1, "beta".into());

    let mut entry = NodeEntry::new(NodeKind::Function, local_0, FileId::new(0));
    entry.signature = Some(local_1);
    sg.add_node(entry);

    let plan = FilePlan {
        parsed_index: 0,
        file_id: FileId::new(42),
        node_range: 10..11,
        string_range: 20..22,
    };

    let mut node_slots = vec![Slot::new_occupied(1, placeholder_entry())];
    let mut str_slots: Vec<Option<String>> = vec![None, None];
    let mut rc_slots: Vec<u32> = vec![0, 0];

    let result = commit_single_file(&sg, &plan, &mut node_slots, &mut str_slots, &mut rc_slots);

    assert_eq!(str_slots[0].as_deref(), Some("alpha"));
    assert_eq!(str_slots[1].as_deref(), Some("beta"));
    assert_eq!(rc_slots[0], 1);
    assert_eq!(rc_slots[1], 1);
    assert_eq!(result.strings_written, 2);

    if let Some(entry) = node_slots[0].get() {
        assert_eq!(entry.name, StringId::new(20));
        assert_eq!(entry.signature, Some(StringId::new(21)));
        assert_eq!(entry.file, FileId::new(42));
    } else {
        panic!("Expected occupied slot");
    }
    assert_eq!(result.nodes_written, 1);

    assert_eq!(result.node_ids, vec![NodeId::new(10, 1)]);

    assert!(result.edges.is_empty());
}

#[test]
fn test_remap_edge_kind_message_queue_other() {
    let mut remap = StringRemap::new();
    remap.insert(StringId::new(10), StringId::new(110));
    remap.insert(StringId::new(20), StringId::new(220));

    let mut kind = EdgeKind::MessageQueue {
        protocol: MqProtocol::Other(StringId::new(10)),
        topic: Some(StringId::new(20)),
    };
    remap_edge_kind_string_ids(&mut kind, &remap);
    assert!(matches!(
        kind,
        EdgeKind::MessageQueue {
            protocol: MqProtocol::Other(proto),
            topic: Some(topic),
        } if proto == StringId::new(110) && topic == StringId::new(220)
    ));
}

#[test]
fn test_phase4_apply_global_remap_basic() {
    let mut arena = NodeArena::new();

    let entry1 = NodeEntry::new(NodeKind::Function, StringId::new(1), FileId::new(0));
    let mut entry2 = NodeEntry::new(NodeKind::Variable, StringId::new(2), FileId::new(0));
    entry2.signature = Some(StringId::new(3));

    arena.allocate(entry1).unwrap();
    arena.allocate(entry2).unwrap();

    let mut all_edges = vec![vec![PendingEdge {
        source: NodeId::new(0, 1),
        target: NodeId::new(1, 1),
        kind: EdgeKind::Imports {
            alias: Some(StringId::new(3)),
            is_wildcard: false,
        },
        file: FileId::new(0),
        spans: vec![],
    }]];

    let mut remap = StringRemap::new();
    remap.insert(StringId::new(2), StringId::new(1));
    remap.insert(StringId::new(3), StringId::new(1));

    phase4_apply_global_remap(&mut arena, &mut all_edges, &remap);

    let (_, entry) = arena.iter().into_iter().nth(1).unwrap();
    assert_eq!(entry.name, StringId::new(1));
    assert_eq!(entry.signature, Some(StringId::new(1)));

    if let EdgeKind::Imports { alias, .. } = &all_edges[0][0].kind {
        assert_eq!(*alias, Some(StringId::new(1)));
    } else {
        panic!("Expected Imports edge");
    }
}

#[test]
fn test_phase4_apply_global_remap_empty() {
    let mut arena = NodeArena::new();
    let mut edges: Vec<Vec<PendingEdge>> = vec![];
    let remap = StringRemap::new();

    phase4_apply_global_remap(&mut arena, &mut edges, &remap);
}

#[test]
fn test_pending_edges_to_delta_basic() {
    let edges = vec![
        vec![
            PendingEdge {
                source: NodeId::new(0, 1),
                target: NodeId::new(1, 1),
                kind: EdgeKind::Calls {
                    argument_count: 0,
                    is_async: false,
                    resolved_via: ResolvedVia::Direct,
                },
                file: FileId::new(0),
                spans: vec![],
            },
            PendingEdge {
                source: NodeId::new(1, 1),
                target: NodeId::new(2, 1),
                kind: EdgeKind::References,
                file: FileId::new(0),
                spans: vec![],
            },
        ],
        vec![PendingEdge {
            source: NodeId::new(3, 1),
            target: NodeId::new(4, 1),
            kind: EdgeKind::Defines,
            file: FileId::new(1),
            spans: vec![],
        }],
    ];

    let (deltas, final_seq) = pending_edges_to_delta(&edges, 100);

    assert_eq!(deltas.len(), 2);
    assert_eq!(deltas[0].len(), 2);
    assert_eq!(deltas[1].len(), 1);
    assert_eq!(final_seq, 103);

    assert_eq!(deltas[0][0].seq, 100);
    assert_eq!(deltas[0][1].seq, 101);
    assert_eq!(deltas[1][0].seq, 102);

    assert!(matches!(deltas[0][0].op, DeltaOp::Add));
    assert!(matches!(deltas[1][0].op, DeltaOp::Add));
}

#[test]
fn test_pending_edges_to_delta_empty() {
    let edges: Vec<Vec<PendingEdge>> = vec![];
    let (deltas, final_seq) = pending_edges_to_delta(&edges, 0);
    assert!(deltas.is_empty());
    assert_eq!(final_seq, 0);
}

#[test]
fn phase4c_prime_unify_cross_file_nodes_runs_against_rebuild_graph() {
    let mut rebuild = CodeGraph::new();

    let qname_sid = rebuild.strings_mut().intern("my_mod::my_func").unwrap();

    let file_a = FileId::new(7);
    let file_b = FileId::new(8);

    let mut winner_entry = NodeEntry::new(NodeKind::Function, qname_sid, file_a);
    winner_entry.qualified_name = Some(qname_sid);
    winner_entry.start_line = 10;
    winner_entry.end_line = 30;

    let mut loser_entry = NodeEntry::new(NodeKind::Function, qname_sid, file_b);
    loser_entry.qualified_name = Some(qname_sid);
    loser_entry.start_line = 5;
    loser_entry.end_line = 6;

    let winner_id = rebuild.nodes_mut().allocate(winner_entry).unwrap();
    let loser_id = rebuild.nodes_mut().allocate(loser_entry).unwrap();

    let mut all_edges = vec![vec![PendingEdge {
        source: winner_id,
        target: loser_id,
        kind: EdgeKind::Calls {
            argument_count: 0,
            is_async: false,
            resolved_via: ResolvedVia::Direct,
        },
        file: file_b,
        spans: vec![],
    }]];

    let (stats, _remap) = phase4c_prime_unify_cross_file_nodes(&mut rebuild, &mut all_edges);

    assert_eq!(stats.nodes_merged, 1);
    assert_eq!(stats.candidate_pairs_examined, 1);
    assert_eq!(stats.edges_rewritten, 1);

    let winner_entry_after = rebuild.nodes().get(winner_id).unwrap();
    assert_eq!(winner_entry_after.qualified_name, Some(qname_sid));

    let loser_entry_after = rebuild.nodes().get(loser_id).unwrap();
    assert_eq!(loser_entry_after.qualified_name, None);

    assert_eq!(all_edges[0][0].target, winner_id);
}

#[test]
fn phase4c_prime_tie_break_prefers_lex_smaller_path_over_node_id() {
    let mut graph = CodeGraph::new();
    let qname = graph.strings_mut().intern("shared_qname").unwrap();
    let high_path_file = graph.files_mut().register("zzz_late.rs").unwrap();
    let low_path_file = graph.files_mut().register("aaa_early.rs").unwrap();

    let mut high_entry = NodeEntry::new(NodeKind::Function, qname, high_path_file);
    high_entry.qualified_name = Some(qname);
    high_entry.start_line = 10;
    high_entry.end_line = 20;
    let high_node = graph.nodes_mut().allocate(high_entry).unwrap();

    let mut low_entry = NodeEntry::new(NodeKind::Function, qname, low_path_file);
    low_entry.qualified_name = Some(qname);
    low_entry.start_line = 10;
    low_entry.end_line = 20;
    let low_node = graph.nodes_mut().allocate(low_entry).unwrap();

    rebuild_indices(&mut graph);

    let mut all_edges: Vec<Vec<PendingEdge>> = Vec::new();
    let (stats, _remap) = phase4c_prime_unify_cross_file_nodes(&mut graph, &mut all_edges);

    assert_eq!(stats.nodes_merged, 1);

    let low_after = graph.nodes().get(low_node).unwrap();
    assert_eq!(low_after.qualified_name, Some(qname));

    let high_after = graph.nodes().get(high_node).unwrap();
    assert_eq!(high_after.qualified_name, None);
}

#[test]
fn phase4c_prime_tie_break_falls_back_to_smaller_node_id_on_identical_path() {
    let mut graph = CodeGraph::new();
    let qname = graph.strings_mut().intern("shared_qname").unwrap();
    let file = graph.files_mut().register("shared.rs").unwrap();

    let mut first_entry = NodeEntry::new(NodeKind::Function, qname, file);
    first_entry.qualified_name = Some(qname);
    first_entry.start_line = 1;
    first_entry.end_line = 5;
    let first_node = graph.nodes_mut().allocate(first_entry).unwrap();

    let mut second_entry = NodeEntry::new(NodeKind::Function, qname, file);
    second_entry.qualified_name = Some(qname);
    second_entry.start_line = 1;
    second_entry.end_line = 5;
    let second_node = graph.nodes_mut().allocate(second_entry).unwrap();

    assert!(first_node.index() < second_node.index());

    rebuild_indices(&mut graph);

    let mut all_edges: Vec<Vec<PendingEdge>> = Vec::new();
    let (stats, _remap) = phase4c_prime_unify_cross_file_nodes(&mut graph, &mut all_edges);

    assert_eq!(stats.nodes_merged, 1);

    let winner_after = graph.nodes().get(first_node).unwrap();
    assert_eq!(winner_after.qualified_name, Some(qname));
    let loser_after = graph.nodes().get(second_node).unwrap();
    assert_eq!(loser_after.qualified_name, None);
}

#[test]
fn rebuild_indices_runs_against_rebuild_graph() {
    let mut code_graph = CodeGraph::new();
    let alpha_id_code = code_graph.strings_mut().intern("alpha").unwrap();
    let mut code_entry = NodeEntry::new(NodeKind::Function, alpha_id_code, FileId::new(1));
    code_entry.qualified_name = Some(alpha_id_code);
    let code_node_id = code_graph.nodes_mut().allocate(code_entry).unwrap();
    rebuild_indices(&mut code_graph);
    let code_buckets_function: Vec<NodeId> =
        code_graph.indices().by_kind(NodeKind::Function).to_vec();

    let mut rebuild = CodeGraph::new();
    let alpha_id_rebuild = rebuild.strings_mut().intern("alpha").unwrap();
    let mut rebuild_entry =
        NodeEntry::new(NodeKind::Function, alpha_id_rebuild, FileId::new(1));
    rebuild_entry.qualified_name = Some(alpha_id_rebuild);
    let rebuild_node_id = rebuild.nodes_mut().allocate(rebuild_entry).unwrap();
    rebuild_indices(&mut rebuild);

    assert_eq!(code_node_id, rebuild_node_id);

    let rebuild_buckets_function: Vec<NodeId> = rebuild.indices().by_kind(NodeKind::Function).to_vec();

    assert_eq!(code_buckets_function, rebuild_buckets_function);
    let by_name: Vec<NodeId> = rebuild.indices().by_name(alpha_id_rebuild).to_vec();
    assert_eq!(by_name, vec![rebuild_node_id]);
}

#[test]
fn phase4d_bulk_insert_edges_runs_against_rebuild_graph() {
    let mut rebuild = CodeGraph::new();

    let name_sid = rebuild.strings_mut().intern("edge_target").unwrap();
    let file = FileId::new(3);

    let n_source = rebuild
        .nodes_mut()
        .allocate(NodeEntry::new(NodeKind::Function, name_sid, file))
        .unwrap();
    let n_target = rebuild
        .nodes_mut()
        .allocate(NodeEntry::new(NodeKind::Variable, name_sid, file))
        .unwrap();

    let pre_counter = rebuild.edges().seq_counter();

    let per_file_edges = vec![vec![
        PendingEdge {
            source: n_source,
            target: n_target,
            kind: EdgeKind::Calls {
                argument_count: 0,
                is_async: false,
                resolved_via: ResolvedVia::Direct,
            },
            file,
            spans: vec![],
        },
        PendingEdge {
            source: n_source,
            target: n_target,
            kind: EdgeKind::Calls {
                argument_count: 1,
                is_async: false,
                resolved_via: ResolvedVia::Direct,
            },
            file,
            spans: vec![],
        },
    ]];

    let final_seq = phase4d_bulk_insert_edges(&mut rebuild, &per_file_edges);

    assert_eq!(final_seq, pre_counter + 2);

    let forward = rebuild.edges();
    let after_counter = forward.seq_counter();
    assert_eq!(after_counter, pre_counter + 2);
    assert!(forward.all_live_forward_edges().len() >= 2);

    let empty_final = phase4d_bulk_insert_edges(&mut rebuild, &[]);
    assert_eq!(empty_final, pre_counter + 2);
}

#[test]
fn phase4d_preserves_property_sourced_typeof_field_edges() {
    let struct_id = NodeId::new(10, 1);
    let property_id = NodeId::new(11, 1);
    let bool_id = NodeId::new(12, 1);

    let typeof_field_kind = || EdgeKind::TypeOf {
        context: Some(TypeOfContext::Field),
        index: Some(0),
        name: None,
    };

    let per_file_edges = vec![vec![
        PendingEdge {
            source: property_id,
            target: bool_id,
            kind: typeof_field_kind(),
            file: FileId::new(0),
            spans: vec![],
        },
        PendingEdge {
            source: struct_id,
            target: bool_id,
            kind: typeof_field_kind(),
            file: FileId::new(0),
            spans: vec![],
        },
    ]];

    let (deltas, final_seq) = pending_edges_to_delta(&per_file_edges, 500);

    assert_eq!(deltas.len(), 1);
    assert_eq!(deltas[0].len(), 2);
    assert_eq!(final_seq, 502);

    assert_eq!(deltas[0][0].source, property_id);
    assert_eq!(deltas[0][0].target, bool_id);
    assert_eq!(deltas[0][0].seq, 500);
    assert!(matches!(
        deltas[0][0].kind,
        EdgeKind::TypeOf {
            context: Some(TypeOfContext::Field),
            ..
        }
    ));

    assert_eq!(deltas[0][1].source, struct_id);
    assert_eq!(deltas[0][1].target, bool_id);
    assert_eq!(deltas[0][1].seq, 501);

    let (deltas_again, final_seq_again) = pending_edges_to_delta(&per_file_edges, 500);
    assert_eq!(final_seq_again, final_seq);
    assert_eq!(deltas_again.len(), deltas.len());
    assert_eq!(deltas_again[0].len(), deltas[0].len());
    for (a, b) in deltas[0].iter().zip(deltas_again[0].iter()) {
        assert_eq!(a.source, b.source);
        assert_eq!(a.target, b.target);
        assert_eq!(a.seq, b.seq);
    }
}

fn macro_store_with(node_id: NodeId, cfg: &str) -> NodeMetadataStore {
    let mut store = NodeMetadataStore::new();
    let m = MacroNodeMetadata {
        cfg_condition: Some(cfg.to_string()),
        ..Default::default()
    };
    store.insert(node_id, m);
    store
}

#[test]
fn phase4d_prime_merges_per_file_metadata_into_graph_macro_metadata() {
    let mut graph = CodeGraph::new();
    let nid_a = NodeId::new(101, 1);
    let nid_b = NodeId::new(202, 1);
    let file_a = FileId::new(7);
    let file_b = FileId::new(8);

    let staged = vec![
        (file_a, macro_store_with(nid_a, "linux")),
        (file_b, macro_store_with(nid_b, "darwin")),
    ];

    let remap = NodeRemapTable::new();
    let merged = phase4d_prime_propagate_staging_metadata(&mut graph, staged, &remap);

    assert!(merged);
    assert_eq!(
        graph.macro_metadata_mut()
            .get_macro(nid_a)
            .and_then(|m| m.cfg_condition.clone()),
        Some("linux".to_string())
    );
    assert_eq!(
        graph.macro_metadata_mut()
            .get_macro(nid_b)
            .and_then(|m| m.cfg_condition.clone()),
        Some("darwin".to_string())
    );
}

#[test]
fn phase4d_prime_drops_loser_metadata_before_merge() {
    let mut graph = CodeGraph::new();
    let loser = NodeId::new(101, 1);
    let winner = NodeId::new(202, 1);
    let file_loser = FileId::new(7);
    let file_winner = FileId::new(8);

    let staged = vec![
        (file_loser, macro_store_with(loser, "linux")),
        (file_winner, macro_store_with(winner, "darwin")),
    ];

    let mut remap = NodeRemapTable::new();
    remap.insert(loser, winner);

    let merged = phase4d_prime_propagate_staging_metadata(&mut graph, staged, &remap);
    assert!(merged);

    assert_eq!(
        graph.macro_metadata_mut()
            .get_macro(winner)
            .and_then(|m| m.cfg_condition.clone()),
        Some("darwin".to_string())
    );
    assert!(graph.macro_metadata_mut() .get_macro(loser) .is_none());
}

#[test]
fn rekey_staging_metadata_to_arena_maps_local_to_arena() {
    let mut staging = NodeMetadataStore::new();
    for (i, cond) in ["linux", "darwin", "windows"].iter().enumerate() {
        let m = MacroNodeMetadata {
            cfg_condition: Some((*cond).to_string()),
            ..Default::default()
        };
        staging.insert(NodeId::new(i as u32, 1), m);
    }

    let arena_ids = vec![
        NodeId::new(100, 1),
        NodeId::new(101, 1),
        NodeId::new(102, 1),
    ];

    let rekeyed = rekey_staging_metadata_to_arena(&staging, &arena_ids);

    assert_eq!(rekeyed.len(), 3);
    for (i, cond) in ["linux", "darwin", "windows"].iter().enumerate() {
        let m = rekeyed
            .get_macro(arena_ids[i])
            .unwrap();
        assert_eq!(m.cfg_condition.as_deref(), Some(*cond));
    }
    assert!(rekeyed.get_macro(NodeId::new(0, 1)).is_none());
}

#[test]
fn rekey_staging_metadata_maps_shape_descriptors_local_to_arena() {
    let mut staging = NodeMetadataStore::new();
    for i in 0..3u32 {
        let d = ShapeDescriptor { branches: (i + 1) as u16, loops: 0, returns: 0, calls: 0 };
        staging.insert_shape_descriptor(NodeId::new(i, 1), d);
    }
    assert!(staging.get_macro(NodeId::new(0, 1)).is_none());
    assert!(!staging.is_empty());

    let arena_ids = vec![
        NodeId::new(100, 1),
        NodeId::new(101, 1),
        NodeId::new(102, 1),
    ];
    let rekeyed = rekey_staging_metadata_to_arena(&staging, &arena_ids);

    assert_eq!(rekeyed.shape_count(), 3);
    for i in 0..3u32 {
        let d = rekeyed
            .shape_descriptor(arena_ids[i as usize])
            .unwrap();
        assert_eq!(d.branches, (i + 1) as u16);
    }
    assert!(rekeyed.shape_descriptor(NodeId::new(0, 1)).is_none());
}

#[test]
fn rekey_staging_metadata_drops_out_of_range_keys() {
    let mut staging = NodeMetadataStore::new();
    let in_range = MacroNodeMetadata {
        cfg_condition: Some("good".to_string()),
        ..Default::default()
    };
    staging.insert(NodeId::new(0, 1), in_range);

    let stale = MacroNodeMetadata {
        cfg_condition: Some("bad".to_string()),
        ..Default::default()
    };
    staging.insert(NodeId::new(5, 1), stale);

    let arena_ids = vec![NodeId::new(100, 1)];
    let rekeyed = rekey_staging_metadata_to_arena(&staging, &arena_ids);

    assert_eq!(rekeyed.len(), 1);
    assert_eq!(
        rekeyed
            .get_macro(NodeId::new(100, 1))
            .and_then(|m| m.cfg_condition.clone()),
        Some("good".to_string())
    );
}

#[test]
fn phase4d_prime_empty_staged_metadata_returns_false() {
    let mut graph = CodeGraph::new();
    let remap = NodeRemapTable::new();
    let merged = phase4d_prime_propagate_staging_metadata(&mut graph, Vec::new(), &remap);
    assert!(!merged);
}

#[test]
fn phase4d_prime_empty_store_after_loser_drop_returns_false() {
    let mut graph = CodeGraph::new();
    let loser = NodeId::new(101, 1);
    let winner = NodeId::new(202, 1);
    let file_loser = FileId::new(7);

    let staged = vec![(file_loser, macro_store_with(loser, "linux"))];

    let mut remap = NodeRemapTable::new();
    remap.insert(loser, winner);

    let merged = phase4d_prime_propagate_staging_metadata(&mut graph, staged, &remap);

    assert!(!merged);
    assert!(graph.macro_metadata_mut().is_empty());
}

fn staged_file(names: &[&str]) -> StagingGraph {
    let mut sg = StagingGraph::new();
    for (i, name) in names.iter().enumerate() {
        let local = StringId::new_local(i as u32);
        sg.intern_string(local, name.to_string());
        sg.add_node(NodeEntry::new(NodeKind::Function, local, FileId::new(0)));
    }
    sg
}

#[test]
fn ranges_of_a_chunk_follow_each_other() {
    let plan = compute_commit_plan(
        &[2, 0, 4],
        &[1, 5, 0],
        &[0, 0, 0],
        &[FileId::new(0), FileId::new(1), FileId::new(2)],
        7,
        9,
    );

    for i in 1..plan.file_plans.len() {
        assert_eq!(plan.file_plans[i - 1].node_range.end, plan.file_plans[i].node_range.start);
        assert_eq!(plan.file_plans[i - 1].string_range.end, plan.file_plans[i].string_range.start);
    }
    assert_eq!(plan.file_plans[0].node_range.start, 7);
    assert_eq!(plan.file_plans[2].node_range.end, 7 + plan.total_nodes);
    assert_eq!(plan.file_plans[2].string_range.end, 9 + plan.total_strings);
}

#[test]
fn files_of_a_chunk_are_committed_in_order() {
    let a = staged_file(&["a0", "a1"]);
    let b = staged_file(&["b0"]);
    let c = staged_file(&["c0", "c1", "c2"]);
    let mut graph = CodeGraph::new();
    let files = vec![FileId::new(1), FileId::new(2), FileId::new(3)];
    let offsets = GlobalOffsets { node_offset: 0, string_offset: 1 };
    let plan = phase2_assign_ranges(&[&a, &b, &c], &files, &offsets);
    graph.nodes_mut().alloc_range(plan.total_nodes, &placeholder_entry()).unwrap();
    graph.strings_mut().alloc_range(plan.total_strings).unwrap();

    let result = phase3_parallel_commit(&plan, &[&a, &b, &c], &mut graph);

    assert_eq!(result.total_nodes_written, 6);
    let mut names = Vec::new();
    for (file, ids) in result.per_file_node_ids.iter().enumerate() {
        for id in ids {
            let entry = graph.nodes().get(*id).unwrap();
            assert_eq!(entry.file, files[file]);
            names.push(graph.strings().resolve(entry.name).unwrap());
        }
    }
    assert_eq!(names, vec!["a0", "a1", "b0", "c0", "c1", "c2"]);
}

#[test]
fn empty_remap_changes_nothing() {
    let remap = StringRemap::new();
    let mut kind = EdgeKind::TraitMethodBinding {
        trait_name: StringId::new(1),
        impl_type: StringId::new(2),
        is_ambiguous: true,
    };
    remap_edge_kind_string_ids(&mut kind, &remap);
    assert!(matches!(
        kind,
        EdgeKind::TraitMethodBinding { trait_name, impl_type, is_ambiguous: true }
            if trait_name == StringId::new(1) && impl_type == StringId::new(2)
    ));
}

#[test]
fn no_edge_ends_at_a_merged_node() {
    let mut graph = CodeGraph::new();
    let qname = graph.strings_mut().intern("pkg::f").unwrap();
    let mut nodes = Vec::new();
    for i in 0..3u32 {
        let mut entry = NodeEntry::new(NodeKind::Function, qname, FileId::new(i));
        entry.qualified_name = Some(qname);
        entry.start_line = 1;
        entry.end_line = 2 + i;
        nodes.push(graph.nodes_mut().allocate(entry).unwrap());
    }
    let mut edges = vec![vec![
        PendingEdge {
            source: nodes[0],
            target: nodes[1],
            kind: EdgeKind::References,
            file: FileId::new(0),
            spans: vec![],
        },
        PendingEdge {
            source: nodes[2],
            target: nodes[0],
            kind: EdgeKind::References,
            file: FileId::new(2),
            spans: vec![],
        },
    ]];

    let (stats, remap) = phase4c_prime_unify_cross_file_nodes(&mut graph, &mut edges);

    // The widest span wins.
    assert_eq!(stats.nodes_merged, 2);
    // Of the four ends, one was at the winner already.
    assert_eq!(stats.edges_rewritten, 3);
    assert_eq!(remap.get(nodes[0]), Some(nodes[2]));
    assert_eq!(remap.get(nodes[1]), Some(nodes[2]));
    for edge in &edges[0] {
        assert_eq!(edge.source, nodes[2]);
        assert_eq!(edge.target, nodes[2]);
    }
}

#[test]
fn kinds_that_cannot_be_called_are_not_merged() {
    let mut graph = CodeGraph::new();
    let qname = graph.strings_mut().intern("pkg::f").unwrap();
    let mut ids = Vec::new();
    for kind in [NodeKind::Function, NodeKind::Struct] {
        let mut entry = NodeEntry::new(kind, qname, FileId::new(0));
        entry.qualified_name = Some(qname);
        ids.push(graph.nodes_mut().allocate(entry).unwrap());
    }
    let mut edges: Vec<Vec<PendingEdge>> = Vec::new();

    let (stats, remap) = phase4c_prime_unify_cross_file_nodes(&mut graph, &mut edges);

    assert_eq!(stats.nodes_merged, 0);
    assert!(remap.is_empty());
    assert_eq!(graph.nodes().get(ids[1]).unwrap().qualified_name, Some(qname));
}
