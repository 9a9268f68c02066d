//! Go method sets.

use sqry_build::arena::NodeEntry;
use sqry_build::edges::StoreEdgeRef;
use sqry_build::graph::CodeGraph;
use sqry_build::hints::{
    GoEmbeddingHint, GoFunctionSignatureHint, GoMethodReceiverHint, GoMethodSignatureHint,
    GoNamedTypeConversionHint, GoReceiverCallHint, GoReceiverHintKind,
};
use sqry_build::ids::{FileId, NodeId, StringId};
use sqry_build::kinds::{EdgeKind, Language, NodeKind, Receiver, ResolvedVia, TypeOfContext};
use sqry_build::pass_go_method_set::ownership::{
    is_pass_owned_edge, is_pass_owned_node, tombstone_all_pass_owned,
};
use sqry_build::pass_go_method_set::promotion::MAX_PROMOTION_DEPTH;
use sqry_build::pass_go_method_set::signature::{
    canonicalise_param_list, canonicalise_return_clause, canonicalise_signature,
};
use sqry_build::pass_go_method_set::{
    run_go_method_set_satisfaction, run_go_method_set_satisfaction_generic,
};

/// The name under which the graph keeps a dotted Go name.
fn go_name(name: &str) -> String {
    name.replace('.', "::")
}

#[test]
fn whitespace_collapse_on_pointer_modifier() {
    let a = canonicalise_signature("* T", "");
    let b = canonicalise_signature("*T", "");
    assert_eq!(a, b);
    assert_eq!(a.0, b"(*T)");
}

#[test]
fn whitespace_collapse_on_slice_modifier() {
    let a = canonicalise_signature("[ ]T", "");
    let b = canonicalise_signature("[ ] T", "");
    let c = canonicalise_signature("[]T", "");
    assert_eq!(a, b);
    assert_eq!(b, c);
    assert_eq!(c.0, b"([]T)");
}

#[test]
fn whitespace_collapse_on_slice_pointer_combo() {
    let a = canonicalise_signature("[ ] *T", "");
    let b = canonicalise_signature("[]*T", "");
    assert_eq!(a, b);
    assert_eq!(a.0, b"([]*T)");
}

#[test]
fn whitespace_preserved_between_identifier_words() {
    let sig = canonicalise_signature("chan T", "");
    assert_eq!(sig.0, b"(chan T)");
}

#[test]
fn type_keyword_prefixes_are_preserved() {
    let m = canonicalise_signature("map[K]V", "");
    assert_eq!(m.0, b"(map[K]V)");

    let named = canonicalise_signature("m map[K]V", "");
    assert_eq!(named.0, b"(map[K]V)");
}

#[test]
fn parameter_name_is_stripped_on_pointer_form() {
    let a = canonicalise_signature("p *T", "");
    let b = canonicalise_signature("*T", "");
    assert_eq!(a, b);
    assert_eq!(a.0, b"(*T)");
}

#[test]
fn parameter_name_is_stripped_on_slice_form() {
    let a = canonicalise_signature("p []byte", "");
    let b = canonicalise_signature("[]byte", "");
    assert_eq!(a, b);
    assert_eq!(a.0, b"([]byte)");
}

#[test]
fn parameter_name_is_stripped_on_qualified_type() {
    let a = canonicalise_signature("r io.Reader", "");
    let b = canonicalise_signature("io.Reader", "");
    assert_eq!(a, b);
    assert_eq!(a.0, b"(io.Reader)");
}

#[test]
fn variadic_is_preserved() {
    let v1 = canonicalise_signature("... T", "");
    let v2 = canonicalise_signature("...T", "");
    assert_eq!(v1, v2);
    assert_eq!(v1.0, b"(...T)");

    let non_v = canonicalise_signature("T", "");
    assert_ne!(v1, non_v);
    assert_eq!(non_v.0, b"(T)");
}

#[test]
fn return_paren_stripped_for_single_return() {
    let a = canonicalise_signature("", "(int)");
    let b = canonicalise_signature("", "int");
    assert_eq!(a, b);
    assert_eq!(a.0, b"()int");
}

#[test]
fn return_paren_preserved_for_multi_return() {
    let sig = canonicalise_signature("", "(int, error)");
    assert_eq!(sig.0, b"()(int,error)");
}

#[test]
fn return_empty_yields_no_return_clause() {
    let sig = canonicalise_signature("", "");
    assert_eq!(sig.0, b"()");
}

#[test]
fn empty_parameter_list_keeps_parens() {
    let sig = canonicalise_signature("", "");
    assert_eq!(sig.0, b"()");
}

#[test]
fn parameter_list_with_explicit_parens_is_unwrapped() {
    let wrapped = canonicalise_signature("(a int, b int)", "");
    let unwrapped = canonicalise_signature("a int, b int", "");
    assert_eq!(wrapped, unwrapped);
    assert_eq!(wrapped.0, b"(int,int)");
}

#[test]
fn idempotent_on_simple_input() {
    let first = canonicalise_signature("p *T", "(int)");
    assert_eq!(first.0, b"(*T)int");

    let second = canonicalise_signature("*T", "int");
    assert_eq!(first, second);

    let third = canonicalise_signature("*T", "int");
    assert_eq!(second, third);
}

#[test]
fn idempotent_on_complex_input() {
    let first = canonicalise_signature("ctx context.Context, vs ...T", "(int, error)");
    assert_eq!(first.0, b"(context.Context,...T)(int,error)");

    let second = canonicalise_signature("context.Context, ...T", "(int, error)");
    assert_eq!(first, second);
}

#[test]
fn entrypoint_no_op_on_empty_graph() {
    let mut graph = CodeGraph::new();
    let stats = run_go_method_set_satisfaction(&mut graph, None);
    assert_eq!(stats.promoted_method_nodes, 0);
    assert_eq!(stats.promoted_back_reference_edges, 0);
    assert_eq!(stats.ambiguity_blocked_promotions, 0);
    assert_eq!(stats.implements_edges_value, 0);
    assert_eq!(stats.implements_edges_pointer, 0);
    assert_eq!(stats.signature_implements_edges, 0);
    assert_eq!(stats.satisfaction_pairs_examined, 0);

    let scoped = run_go_method_set_satisfaction(&mut graph, Some(&[]));
    assert_eq!(scoped.promoted_method_nodes, 0);
}

fn register_go_file(graph: &mut CodeGraph, path: &str) -> FileId {
    graph
        .files_mut()
        .register_with_language(path, Some(Language::Go))
        .expect("register Go test file")
}

fn qn_strid(graph: &CodeGraph, qn: &str) -> Option<StringId> {
    graph.strings().get(&go_name(qn))
}

fn make_qn_node(
    graph: &mut CodeGraph,
    kind: NodeKind,
    short_name: &str,
    qualified_name: &str,
    file: FileId,
) -> NodeId {
    let canonical_qn = go_name(qualified_name);
    let name_id = graph.strings_mut().intern(short_name).expect("intern name");
    let qn_id = graph.strings_mut().intern(&canonical_qn).expect("intern");
    let mut entry = NodeEntry::new(kind, name_id, file);
    entry.qualified_name = Some(qn_id);
    let new_id = graph.nodes_mut().allocate(entry).expect("alloc node");
    graph.files_mut().record_node(file, new_id);
    new_id
}

fn add_embedding_hint(
    graph: &mut CodeGraph,
    outer: NodeId,
    inner_qn: &str,
    pointerness: Receiver,
    file: FileId,
) {
    let canonical_inner = go_name(inner_qn);
    let inner_qn_id = graph.strings_mut().intern(&canonical_inner).expect("intern inner qn");
    graph.go_hints_mut().embeddings.push(GoEmbeddingHint {
        outer,
        inner_qualified_name: inner_qn_id,
        pointerness,
        file,
    });
}

fn add_method_receiver_hint(
    graph: &mut CodeGraph,
    method_node: NodeId,
    receiver_qn: &str,
    pointerness: Receiver,
    file: FileId,
) {
    let canonical_recv = go_name(receiver_qn);
    let receiver_qn_id = graph.strings_mut().intern(&canonical_recv).expect("intern receiver qn");
    graph.go_hints_mut().method_receivers.push(GoMethodReceiverHint {
        method_node,
        receiver_type_qualified_name: receiver_qn_id,
        receiver_pointerness: pointerness,
        file,
    });
}

fn add_local_ident_receiver_call_hint(
    graph: &mut CodeGraph,
    call_site: NodeId,
    callee_method: NodeId,
    method_name: &str,
    binding_local: NodeId,
    file: FileId,
) {
    let method_name_id = graph.strings_mut().intern(method_name).expect("intern method name");
    graph.go_hints_mut().receiver_calls.push(GoReceiverCallHint {
        call_site,
        callee_method,
        method_name: method_name_id,
        receiver: GoReceiverHintKind::LocalIdent { binding_local },
        argument_count: 0,
        is_async: false,
        file,
    });
}

fn rebuild_indices(graph: &mut CodeGraph) {
    let mut all: Vec<NodeId> = Vec::new();
    for (nid, _entry) in graph.nodes().iter() {
        all.push(nid);
    }
    graph.rebuild_qualified_name_index_for_new_nodes(&all);
}

#[test]
fn d1_simple_value_embedding_promotes_method() {
    let mut graph = CodeGraph::new();
    let file = FileId::new(0);

    let _inner = make_qn_node(&mut graph, NodeKind::Struct, "Inner", "fx.Inner", file);
    let inner_m = make_qn_node(
        &mut graph,
        NodeKind::Method,
        "Greeting",
        "fx.Inner.Greeting",
        file,
    );
    let outer = make_qn_node(&mut graph, NodeKind::Struct, "Outer", "fx.Outer", file);
    rebuild_indices(&mut graph);

    add_embedding_hint(&mut graph, outer, "fx.Inner", Receiver::Value, file);

    let stats = run_go_method_set_satisfaction(&mut graph, None);
    assert_eq!(stats.promoted_method_nodes, 1);

    let outer_greeting_qn =
        qn_strid(&graph, "fx.Outer.Greeting").expect("promoted qn interned");
    let promoted = graph.indices().by_qualified_name(outer_greeting_qn);
    assert_eq!(promoted.len(), 1);
    let promoted_id = promoted[0];

    let outer_outgoing = graph.edges().edges_from(outer);
    assert!(
        outer_outgoing
            .iter()
            .any(|e| matches!(e.kind, EdgeKind::Contains) && e.target == promoted_id)
    );

    let promoted_outgoing = graph.edges().edges_from(promoted_id);
    assert!(
        promoted_outgoing
            .iter()
            .any(|e| matches!(e.kind, EdgeKind::Inherits) && e.target == inner_m)
    );

    assert!(graph.macro_metadata().is_synthetic(promoted_id));
}

#[test]
fn d1_pointer_embedding_promotes_into_value_and_pointer_buckets() {
    let mut graph = CodeGraph::new();
    let file = FileId::new(0);

    let _inner = make_qn_node(&mut graph, NodeKind::Struct, "Inner", "fx.Inner", file);
    let inner_m = make_qn_node(&mut graph, NodeKind::Method, "Mutate", "fx.Inner.Mutate", file);
    let outer_p = make_qn_node(&mut graph, NodeKind::Struct, "OuterP", "fx.OuterP", file);
    rebuild_indices(&mut graph);

    add_embedding_hint(&mut graph, outer_p, "fx.Inner", Receiver::Pointer, file);

    let stats = run_go_method_set_satisfaction(&mut graph, None);
    assert!(stats.promoted_method_nodes >= 1);

    let outer_p_mutate_qn =
        qn_strid(&graph, "fx.OuterP.Mutate").expect("value-form promoted qn interned");
    let value_promoted = graph.indices().by_qualified_name(outer_p_mutate_qn);
    assert_eq!(value_promoted.len(), 1);

    let promoted_outgoing = graph.edges().edges_from(value_promoted[0]);
    assert!(
        promoted_outgoing
            .iter()
            .any(|e| matches!(e.kind, EdgeKind::Inherits) && e.target == inner_m)
    );
}

#[test]
fn d1_diamond_ambiguity_blocks_emission() {
    let mut graph = CodeGraph::new();
    let file = FileId::new(0);

    let a_iface = make_qn_node(&mut graph, NodeKind::Interface, "A", "fx.A", file);
    let _ = make_qn_node(&mut graph, NodeKind::Method, "a", "fx.A.a", file);
    let ab_iface = make_qn_node(&mut graph, NodeKind::Interface, "AB", "fx.AB", file);
    let _ = make_qn_node(&mut graph, NodeKind::Method, "a", "fx.AB.a", file);
    let _ = make_qn_node(&mut graph, NodeKind::Method, "b", "fx.AB.b", file);
    let foo = make_qn_node(&mut graph, NodeKind::Struct, "Foo", "fx.Foo", file);
    rebuild_indices(&mut graph);

    add_embedding_hint(&mut graph, foo, "fx.A", Receiver::Value, file);
    add_embedding_hint(&mut graph, foo, "fx.AB", Receiver::Value, file);
    let _ = (a_iface, ab_iface);

    let stats = run_go_method_set_satisfaction(&mut graph, None);

    let foo_a_qn = qn_strid(&graph, "fx.Foo.a");
    if let Some(qn) = foo_a_qn {
        let bucket = graph.indices().by_qualified_name(qn);
        assert!(bucket.is_empty());
    }

    assert!(stats.ambiguity_blocked_promotions >= 1);
}

#[test]
fn d1_shallower_depth_wins() {
    let mut graph = CodeGraph::new();
    let file = FileId::new(0);

    let deep = make_qn_node(&mut graph, NodeKind::Struct, "Deep", "fx.Deep", file);
    let deep_m = make_qn_node(&mut graph, NodeKind::Method, "M", "fx.Deep.M", file);
    let mid = make_qn_node(&mut graph, NodeKind::Struct, "Mid", "fx.Mid", file);
    let outer = make_qn_node(&mut graph, NodeKind::Struct, "Outer", "fx.Outer", file);
    rebuild_indices(&mut graph);

    add_embedding_hint(&mut graph, mid, "fx.Deep", Receiver::Value, file);
    add_embedding_hint(&mut graph, outer, "fx.Mid", Receiver::Value, file);
    add_embedding_hint(&mut graph, outer, "fx.Deep", Receiver::Value, file);
    let _ = (deep, mid);

    let stats = run_go_method_set_satisfaction(&mut graph, None);

    let outer_m_qn = qn_strid(&graph, "fx.Outer.M").expect("qn interned");
    let outer_m = graph.indices().by_qualified_name(outer_m_qn);
    assert_eq!(outer_m.len(), 1);

    let outgoing = graph.edges().edges_from(outer_m[0]);
    let inherits_targets: Vec<NodeId> = outgoing
        .iter()
        .filter(|e| matches!(e.kind, EdgeKind::Inherits))
        .map(|e| e.target)
        .collect();
    assert_eq!(inherits_targets, vec![deep_m]);

    assert_eq!(stats.ambiguity_blocked_promotions, 0);
}

#[test]
fn d1_alias_embedding_promotes_underlying_methods() {

    let mut graph = CodeGraph::new();
    let file = FileId::new(0);

    let bar = make_qn_node(&mut graph, NodeKind::Struct, "Bar", "fx.Bar", file);
    let bar_greet = make_qn_node(&mut graph, NodeKind::Method, "Greet", "fx.Bar.Greet", file);

    let a_alias = make_qn_node(&mut graph, NodeKind::Type, "A", "fx.A", file);
    graph.edges_mut().add_edge(
        a_alias,
        bar,
        EdgeKind::TypeOf {
            context: Some(TypeOfContext::TypeParameter),
            index: None,
            name: None,
        },
        file,
    );

    let s = make_qn_node(&mut graph, NodeKind::Struct, "S", "fx.S", file);
    rebuild_indices(&mut graph);

    add_embedding_hint(&mut graph, s, "fx.A", Receiver::Value, file);

    let stats = run_go_method_set_satisfaction(&mut graph, None);
    assert!(stats.promoted_method_nodes >= 1);

    let s_greet_qn = qn_strid(&graph, "fx.S.Greet").expect("qn interned");
    let s_greet = graph.indices().by_qualified_name(s_greet_qn).to_vec();
    assert_eq!(s_greet.len(), 1);

    let outgoing = graph.edges().edges_from(s_greet[0]);
    assert!(
        outgoing
            .iter()
            .any(|e| matches!(e.kind, EdgeKind::Inherits) && e.target == bar_greet)
    );
}

#[test]
fn d1_shadow_calls_emitted_at_receiver_call_sites() {
    let mut graph = CodeGraph::new();
    let file = FileId::new(0);

    let _ = make_qn_node(&mut graph, NodeKind::Struct, "Inner", "fx.Inner", file);
    let inner_m = make_qn_node(&mut graph, NodeKind::Method, "M", "fx.Inner.M", file);
    let outer = make_qn_node(&mut graph, NodeKind::Struct, "Outer", "fx.Outer", file);
    let use_fn = make_qn_node(&mut graph, NodeKind::Function, "use", "fx.use", file);
    rebuild_indices(&mut graph);

    graph.edges_mut().add_edge(
        use_fn,
        inner_m,
        EdgeKind::Calls {
            argument_count: 0,
            is_async: false,
            resolved_via: ResolvedVia::Direct,
        },
        file,
    );

    add_embedding_hint(&mut graph, outer, "fx.Inner", Receiver::Value, file);

    let stats = run_go_method_set_satisfaction(&mut graph, None);
    assert_eq!(stats.promoted_method_nodes, 1);
    assert!(stats.promoted_back_reference_edges >= 2);

    let outer_m_qn = qn_strid(&graph, "fx.Outer.M").expect("qn interned");
    let outer_m = graph.indices().by_qualified_name(outer_m_qn);
    assert_eq!(outer_m.len(), 1);
    let outer_m_id = outer_m[0];

    let use_outgoing = graph.edges().edges_from(use_fn);
    assert!(
        use_outgoing
            .iter()
            .any(|e| matches!(e.kind, EdgeKind::Calls { .. }) && e.target == outer_m_id)
    );

    assert!(
        use_outgoing
            .iter()
            .any(|e| matches!(e.kind, EdgeKind::References) && e.target == outer_m_id)
    );

    assert!(
        use_outgoing
            .iter()
            .any(|e| matches!(e.kind, EdgeKind::Calls { .. }) && e.target == inner_m)
    );
}

#[test]
fn d1_determinism_two_runs_emit_identical_edge_sequence() {
    fn build_workspace() -> CodeGraph {
        let mut graph = CodeGraph::new();
        let file = FileId::new(0);
        let _ = make_qn_node(&mut graph, NodeKind::Struct, "Inner", "fx.Inner", file);
        let _ = make_qn_node(&mut graph, NodeKind::Method, "M", "fx.Inner.M", file);
        let _ = make_qn_node(&mut graph, NodeKind::Method, "N", "fx.Inner.N", file);
        let outer = make_qn_node(&mut graph, NodeKind::Struct, "Outer", "fx.Outer", file);
        rebuild_indices(&mut graph);
        add_embedding_hint(&mut graph, outer, "fx.Inner", Receiver::Value, file);
        graph
    }

    fn snapshot(graph: &CodeGraph) -> Vec<(u32, u32, String)> {
        let mut out: Vec<(u32, u32, String)> = Vec::new();
        for edge in graph.edges().all_live_forward_edges() {
            let kind_tag = format!("{:?}", edge.kind);
            out.push((edge.source.index(), edge.target.index(), kind_tag));
        }
        out.sort();
        out
    }

    let mut g1 = build_workspace();
    let _ = run_go_method_set_satisfaction(&mut g1, None);
    let s1 = snapshot(&g1);

    let mut g2 = build_workspace();
    let _ = run_go_method_set_satisfaction(&mut g2, None);
    let s2 = snapshot(&g2);

    assert_eq!(s1, s2);
}

#[test]
fn d2_method_receiver_hint_pointer_only_promotion() {
    let mut graph = CodeGraph::new();
    let file = FileId::new(0);

    let _inner = make_qn_node(&mut graph, NodeKind::Struct, "Inner", "fx.Inner", file);
    let inner_mutate = make_qn_node(
        &mut graph,
        NodeKind::Method,
        "Mutate",
        "fx.Inner.Mutate",
        file,
    );
    let outer_v = make_qn_node(&mut graph, NodeKind::Struct, "OuterV", "fx.OuterV", file);
    rebuild_indices(&mut graph);

    add_embedding_hint(&mut graph, outer_v, "fx.Inner", Receiver::Value, file);
    add_method_receiver_hint(&mut graph, inner_mutate, "fx.Inner", Receiver::Pointer, file);

    let stats = run_go_method_set_satisfaction(&mut graph, None);
    assert!(stats.promoted_method_nodes >= 1);

    let pointer_form_qn =
        qn_strid(&graph, "fx.*OuterV.Mutate").expect("pointer-form qn interned");
    let pointer_promoted = graph.indices().by_qualified_name(pointer_form_qn).to_vec();
    assert_eq!(pointer_promoted.len(), 1);

    let value_form = qn_strid(&graph, "fx.OuterV.Mutate");
    if let Some(qn) = value_form {
        let bucket = graph.indices().by_qualified_name(qn);
        assert!(bucket.is_empty());
    }
}

#[test]
fn d2_pointer_method_via_pointer_embed_promotes_to_value_bucket() {
    let mut graph = CodeGraph::new();
    let file = FileId::new(0);

    let _inner = make_qn_node(&mut graph, NodeKind::Struct, "Inner", "fx.Inner", file);
    let inner_mutate = make_qn_node(
        &mut graph,
        NodeKind::Method,
        "Mutate",
        "fx.Inner.Mutate",
        file,
    );
    let outer_p = make_qn_node(&mut graph, NodeKind::Struct, "OuterP", "fx.OuterP", file);
    rebuild_indices(&mut graph);

    add_embedding_hint(&mut graph, outer_p, "fx.Inner", Receiver::Pointer, file);
    add_method_receiver_hint(&mut graph, inner_mutate, "fx.Inner", Receiver::Pointer, file);

    let _ = run_go_method_set_satisfaction(&mut graph, None);

    let value_form_qn = qn_strid(&graph, "fx.OuterP.Mutate").expect("value-form qn interned");
    let value_promoted = graph.indices().by_qualified_name(value_form_qn).to_vec();
    assert_eq!(value_promoted.len(), 1);
}

#[test]
fn d2_shadow_emission_gating_excludes_unrelated_callers() {

    let mut graph = CodeGraph::new();
    let file = FileId::new(0);

    let _inner = make_qn_node(&mut graph, NodeKind::Struct, "Inner", "fx.Inner", file);
    let inner_m = make_qn_node(&mut graph, NodeKind::Method, "M", "fx.Inner.M", file);
    let outer = make_qn_node(&mut graph, NodeKind::Struct, "Outer", "fx.Outer", file);
    let unrelated = make_qn_node(
        &mut graph,
        NodeKind::Struct,
        "Unrelated",
        "fx.Unrelated",
        file,
    );
    let unrelated_m = make_qn_node(&mut graph, NodeKind::Method, "M", "fx.Unrelated.M", file);
    let use_fn = make_qn_node(
        &mut graph,
        NodeKind::Function,
        "use_unrelated",
        "fx.use_unrelated",
        file,
    );
    let u_var = make_qn_node(&mut graph, NodeKind::Variable, "u", "fx.use_unrelated.u", file);
    let call_site = make_qn_node(
        &mut graph,
        NodeKind::CallSite,
        "call_u_M",
        "fx.use_unrelated.call_u_M",
        file,
    );
    rebuild_indices(&mut graph);

    graph.edges_mut().add_edge(
        u_var,
        unrelated,
        EdgeKind::TypeOf {
            context: Some(TypeOfContext::Variable),
            index: None,
            name: None,
        },
        file,
    );

    graph.edges_mut().add_edge(
        use_fn,
        unrelated_m,
        EdgeKind::Calls {
            argument_count: 0,
            is_async: false,
            resolved_via: ResolvedVia::Direct,
        },
        file,
    );

    add_embedding_hint(&mut graph, outer, "fx.Inner", Receiver::Value, file);
    add_method_receiver_hint(&mut graph, inner_m, "fx.Inner", Receiver::Value, file);
    add_method_receiver_hint(&mut graph, unrelated_m, "fx.Unrelated", Receiver::Value, file);

    add_local_ident_receiver_call_hint(&mut graph, call_site, unrelated_m, "M", u_var, file);

    let _ = run_go_method_set_satisfaction(&mut graph, None);

    let outer_m_qn = qn_strid(&graph, "fx.Outer.M").expect("promoted qn interned");
    let outer_m = graph.indices().by_qualified_name(outer_m_qn);
    assert_eq!(outer_m.len(), 1);
    let outer_m_id = outer_m[0];

    let use_outgoing = graph.edges().edges_from(use_fn);
    assert!(
        !use_outgoing
            .iter()
            .any(|e| matches!(e.kind, EdgeKind::Calls { .. }) && e.target == outer_m_id)
    );
    assert!(
        !use_outgoing
            .iter()
            .any(|e| matches!(e.kind, EdgeKind::References) && e.target == outer_m_id)
    );

    assert!(
        use_outgoing
            .iter()
            .any(|e| matches!(e.kind, EdgeKind::Calls { .. }) && e.target == unrelated_m)
    );
}

fn make_interface_with_methods(
    graph: &mut CodeGraph,
    short: &str,
    qualified: &str,
    method_names: &[&str],
    file: FileId,
) -> NodeId {
    let iface = make_qn_node(graph, NodeKind::Interface, short, qualified, file);
    for m in method_names {
        let mqn = format!("{qualified}.{m}");
        let _ = make_qn_node(graph, NodeKind::Method, m, &mqn, file);
    }
    iface
}

#[test]
fn d2_ac1_single_method_implements() {
    let mut graph = CodeGraph::new();
    let file = FileId::new(0);

    let reader =
        make_interface_with_methods(&mut graph, "Reader", "fx.Reader", &["Read"], file);
    let file_struct = make_qn_node(&mut graph, NodeKind::Struct, "File", "fx.File", file);
    let file_read = make_qn_node(&mut graph, NodeKind::Method, "Read", "fx.File.Read", file);
    rebuild_indices(&mut graph);

    add_method_receiver_hint(&mut graph, file_read, "fx.File", Receiver::Pointer, file);

    let stats = run_go_method_set_satisfaction(&mut graph, None);

    assert!(stats.satisfaction_pairs_examined > 0);

    let ptr_qn = qn_strid(&graph, "fx.*File").expect("pointer-form qn interned");
    let ptr_node_candidates = graph.indices().by_qualified_name(ptr_qn).to_vec();
    assert_eq!(ptr_node_candidates.len(), 1);
    let ptr_node = ptr_node_candidates[0];

    let outgoing = graph.edges().edges_from(ptr_node);
    assert!(
        outgoing
            .iter()
            .any(|e| matches!(e.kind, EdgeKind::Implements) && e.target == reader)
    );

    let file_outgoing = graph.edges().edges_from(file_struct);
    assert!(
        !file_outgoing
            .iter()
            .any(|e| matches!(e.kind, EdgeKind::Implements) && e.target == reader)
    );
}

#[test]
fn d2_ac2_cross_file_implements_same_package() {
    let mut graph = CodeGraph::new();
    let file_a = FileId::new(0);
    let file_b = FileId::new(1);

    let writer =
        make_interface_with_methods(&mut graph, "Writer", "fx.Writer", &["Write"], file_a);
    let buf = make_qn_node(&mut graph, NodeKind::Struct, "Buf", "fx.Buf", file_b);
    let buf_write = make_qn_node(&mut graph, NodeKind::Method, "Write", "fx.Buf.Write", file_b);
    rebuild_indices(&mut graph);

    add_method_receiver_hint(&mut graph, buf_write, "fx.Buf", Receiver::Value, file_b);

    let _ = run_go_method_set_satisfaction(&mut graph, None);

    let buf_outgoing = graph.edges().edges_from(buf);
    assert!(
        buf_outgoing
            .iter()
            .any(|e| matches!(e.kind, EdgeKind::Implements) && e.target == writer)
    );
}

#[test]
fn d2_ac2_cross_package_implements() {
    let mut graph = CodeGraph::new();
    let file = FileId::new(0);

    let reader =
        make_interface_with_methods(&mut graph, "Reader", "pkg_a.Reader", &["Read"], file);
    let file_struct = make_qn_node(&mut graph, NodeKind::Struct, "File", "pkg_b.File", file);
    let file_read = make_qn_node(&mut graph, NodeKind::Method, "Read", "pkg_b.File.Read", file);
    rebuild_indices(&mut graph);

    add_method_receiver_hint(&mut graph, file_read, "pkg_b.File", Receiver::Value, file);

    let _ = run_go_method_set_satisfaction(&mut graph, None);

    let outgoing = graph.edges().edges_from(file_struct);
    assert!(
        outgoing
            .iter()
            .any(|e| matches!(e.kind, EdgeKind::Implements) && e.target == reader)
    );
}

#[test]
fn d2_ac2_declaration_order_independence() {
    let mut graph = CodeGraph::new();
    let file = FileId::new(0);

    let file_struct = make_qn_node(&mut graph, NodeKind::Struct, "File", "fx.File", file);
    let file_read = make_qn_node(&mut graph, NodeKind::Method, "Read", "fx.File.Read", file);
    let reader =
        make_interface_with_methods(&mut graph, "Reader", "fx.Reader", &["Read"], file);
    rebuild_indices(&mut graph);

    add_method_receiver_hint(&mut graph, file_read, "fx.File", Receiver::Value, file);

    let _ = run_go_method_set_satisfaction(&mut graph, None);

    let outgoing = graph.edges().edges_from(file_struct);
    assert!(
        outgoing
            .iter()
            .any(|e| matches!(e.kind, EdgeKind::Implements) && e.target == reader)
    );
}

#[test]
fn d2_ac3_pointer_only_satisfaction_emits_only_pointer_form() {
    let mut graph = CodeGraph::new();
    let file = FileId::new(0);

    let mutator =
        make_interface_with_methods(&mut graph, "Mutator", "fx.Mutator", &["Mutate"], file);
    let buffer = make_qn_node(&mut graph, NodeKind::Struct, "Buffer", "fx.Buffer", file);
    let buf_mutate = make_qn_node(
        &mut graph,
        NodeKind::Method,
        "Mutate",
        "fx.Buffer.Mutate",
        file,
    );
    rebuild_indices(&mut graph);

    add_method_receiver_hint(&mut graph, buf_mutate, "fx.Buffer", Receiver::Pointer, file);

    let _ = run_go_method_set_satisfaction(&mut graph, None);

    let ptr_qn = qn_strid(&graph, "fx.*Buffer").expect("pointer-form qn interned");
    let ptr_candidates = graph.indices().by_qualified_name(ptr_qn).to_vec();
    assert_eq!(ptr_candidates.len(), 1);
    let ptr_buffer = ptr_candidates[0];

    assert!(
        graph
            .edges()
            .edges_from(ptr_buffer)
            .iter()
            .any(|e| matches!(e.kind, EdgeKind::Implements) && e.target == mutator)
    );

    assert!(
        !graph
            .edges()
            .edges_from(buffer)
            .iter()
            .any(|e| matches!(e.kind, EdgeKind::Implements) && e.target == mutator)
    );
}

#[test]
fn d2_ac7_no_false_positive_missing_method() {
    let mut graph = CodeGraph::new();
    let file = FileId::new(0);

    let closer =
        make_interface_with_methods(&mut graph, "Closer", "fx.Closer", &["Close"], file);
    let nac = make_qn_node(&mut graph, NodeKind::Struct, "NotACloser", "fx.NotACloser", file);
    let nac_open = make_qn_node(
        &mut graph,
        NodeKind::Method,
        "Open",
        "fx.NotACloser.Open",
        file,
    );
    rebuild_indices(&mut graph);

    add_method_receiver_hint(&mut graph, nac_open, "fx.NotACloser", Receiver::Value, file);

    let _ = run_go_method_set_satisfaction(&mut graph, None);

    let outgoing = graph.edges().edges_from(nac);
    assert!(
        !outgoing
            .iter()
            .any(|e| matches!(e.kind, EdgeKind::Implements) && e.target == closer)
    );

    let ptr_qn = qn_strid(&graph, "fx.*NotACloser");
    if let Some(ptr_qn) = ptr_qn {
        let ptr_candidates = graph.indices().by_qualified_name(ptr_qn).to_vec();
        for ptr_node in ptr_candidates {
            assert!(
                !graph
                    .edges()
                    .edges_from(ptr_node)
                    .iter()
                    .any(|e| matches!(e.kind, EdgeKind::Implements) && e.target == closer)
            );
        }
    }
}

#[test]
fn d2_ac8_empty_interface_filter_skips_emission() {
    let mut graph = CodeGraph::new();
    let file = FileId::new(0);

    let empty_iface = make_qn_node(&mut graph, NodeKind::Interface, "Any", "fx.Any", file);

    let x = make_qn_node(&mut graph, NodeKind::Struct, "X", "fx.X", file);
    let x_m = make_qn_node(&mut graph, NodeKind::Method, "M", "fx.X.M", file);
    rebuild_indices(&mut graph);

    add_method_receiver_hint(&mut graph, x_m, "fx.X", Receiver::Value, file);

    let _ = run_go_method_set_satisfaction(&mut graph, None);

    let outgoing = graph.edges().edges_from(x);
    assert!(
        !outgoing
            .iter()
            .any(|e| matches!(e.kind, EdgeKind::Implements) && e.target == empty_iface)
    );
}

fn add_method_signature_hint(
    graph: &mut CodeGraph,
    method_node: NodeId,
    canonical_signature: &str,
    file: FileId,
) {
    graph.go_hints_mut().method_signatures.push(GoMethodSignatureHint {
        method_node,
        canonical_signature: canonical_signature.to_string(),
        file,
    });
}

fn add_function_signature_hint(
    graph: &mut CodeGraph,
    function_node: NodeId,
    canonical_signature: &str,
    file: FileId,
) {
    graph.go_hints_mut().function_signatures.push(GoFunctionSignatureHint {
        function_node,
        canonical_signature: canonical_signature.to_string(),
        file,
    });
}

#[test]
fn d3_ac7_signature_mismatch() {
    let mut graph = CodeGraph::new();
    let file = FileId::new(0);

    let r = make_qn_node(&mut graph, NodeKind::Interface, "R", "fx.R", file);
    let r_read = make_qn_node(&mut graph, NodeKind::Method, "Read", "fx.R.Read", file);

    let s = make_qn_node(&mut graph, NodeKind::Struct, "S", "fx.S", file);
    let s_write = make_qn_node(&mut graph, NodeKind::Method, "Write", "fx.S.Write", file);

    let q = make_qn_node(&mut graph, NodeKind::Struct, "Q", "fx.Q", file);
    let q_read = make_qn_node(&mut graph, NodeKind::Method, "Read", "fx.Q.Read", file);

    rebuild_indices(&mut graph);

    add_method_receiver_hint(&mut graph, r_read, "fx.R", Receiver::Value, file);
    add_method_receiver_hint(&mut graph, s_write, "fx.S", Receiver::Value, file);
    add_method_receiver_hint(&mut graph, q_read, "fx.Q", Receiver::Value, file);

    let sig_read_bytes = "([]byte)(int,error)";
    let sig_write_bytes = "([]byte)";
    let sig_read_int_err = "(int)error";
    add_method_signature_hint(&mut graph, r_read, sig_read_bytes, file);
    add_method_signature_hint(&mut graph, s_write, sig_write_bytes, file);
    add_method_signature_hint(&mut graph, q_read, sig_read_int_err, file);

    let _ = run_go_method_set_satisfaction(&mut graph, None);

    assert!(
        !graph
            .edges()
            .edges_from(s)
            .iter()
            .any(|e| matches!(e.kind, EdgeKind::Implements) && e.target == r)
    );

    assert!(
        !graph
            .edges()
            .edges_from(q)
            .iter()
            .any(|e| matches!(e.kind, EdgeKind::Implements) && e.target == r)
    );

    for ptr_qn_str in ["fx.*S", "fx.*Q"] {
        if let Some(ptr_qn) = qn_strid(&graph, ptr_qn_str) {
            let ptr_candidates = graph.indices().by_qualified_name(ptr_qn).to_vec();
            for ptr_node in ptr_candidates {
                assert!(
                    !graph
                        .edges()
                        .edges_from(ptr_node)
                        .iter()
                        .any(|e| matches!(e.kind, EdgeKind::Implements) && e.target == r)
                );
            }
        }
    }
}

fn add_named_type_conversion_hint(
    graph: &mut CodeGraph,
    call_site: NodeId,
    target_qn: &str,
    argument_node: NodeId,
    file: FileId,
) {
    let canonical_target = go_name(target_qn);
    let target_qn_id = graph.strings_mut().intern(&canonical_target).expect("intern target qn");
    graph.go_hints_mut().named_type_conversions.push(GoNamedTypeConversionHint {
        call_site,
        target_type_qualified_name: target_qn_id,
        argument_node,
        file,
    });
}

#[test]
fn d3_t1_3_named_type_conversion_emits_signature_implements() {
    let mut graph = CodeGraph::new();
    let file = FileId::new(0);

    let op = make_qn_node(&mut graph, NodeKind::Type, "Op", "fx.Op", file);
    let double = make_qn_node(&mut graph, NodeKind::Function, "double", "fx.double", file);
    let call_site = make_qn_node(
        &mut graph,
        NodeKind::CallSite,
        "Op_double_call",
        "fx.<Op(double)>",
        file,
    );
    rebuild_indices(&mut graph);

    let sig_int_int = "(int)int";
    add_function_signature_hint(&mut graph, op, sig_int_int, file);
    add_function_signature_hint(&mut graph, double, sig_int_int, file);
    add_named_type_conversion_hint(&mut graph, call_site, "fx.Op", double, file);

    let stats = run_go_method_set_satisfaction(&mut graph, None);

    assert!(stats.signature_implements_edges >= 1);

    let outgoing = graph.edges().edges_from(double);
    assert!(
        outgoing
            .iter()
            .any(|e| matches!(e.kind, EdgeKind::Implements) && e.target == op)
    );
}

#[test]
fn d3_t1_3_signature_mismatch_blocks_emission() {
    let mut graph = CodeGraph::new();
    let file = FileId::new(0);

    let op = make_qn_node(&mut graph, NodeKind::Type, "Op", "fx.Op", file);
    let wrong_sig = make_qn_node(&mut graph, NodeKind::Function, "wrong", "fx.wrong", file);
    let call_site = make_qn_node(
        &mut graph,
        NodeKind::CallSite,
        "Op_wrong_call",
        "fx.<Op(wrong)>",
        file,
    );
    rebuild_indices(&mut graph);

    add_function_signature_hint(&mut graph, op, "(int)int", file);
    add_function_signature_hint(&mut graph, wrong_sig, "(string)string", file);
    add_named_type_conversion_hint(&mut graph, call_site, "fx.Op", wrong_sig, file);

    let stats = run_go_method_set_satisfaction(&mut graph, None);

    assert_eq!(stats.signature_implements_edges, 0);

    let outgoing = graph.edges().edges_from(wrong_sig);
    assert!(
        !outgoing
            .iter()
            .any(|e| matches!(e.kind, EdgeKind::Implements) && e.target == op)
    );
}

#[test]
fn d3_t1_3_cross_package_is_blocked() {
    let mut graph = CodeGraph::new();
    let file = FileId::new(0);

    let op = make_qn_node(&mut graph, NodeKind::Type, "Op", "pkg_a.Op", file);
    let g = make_qn_node(&mut graph, NodeKind::Function, "g", "pkg_b.g", file);
    let call_site = make_qn_node(
        &mut graph,
        NodeKind::CallSite,
        "Op_g_call",
        "pkg_b.<Op(g)>",
        file,
    );
    rebuild_indices(&mut graph);

    add_function_signature_hint(&mut graph, op, "(int)int", file);
    add_function_signature_hint(&mut graph, g, "(int)int", file);
    add_named_type_conversion_hint(&mut graph, call_site, "pkg_a.Op", g, file);

    let stats = run_go_method_set_satisfaction(&mut graph, None);

    assert_eq!(stats.signature_implements_edges, 0);
}

#[test]
fn d3_t1_3_determinism_two_runs() {
    let mut graph_a = CodeGraph::new();
    let mut graph_b = CodeGraph::new();
    let file = FileId::new(0);

    for graph in [&mut graph_a, &mut graph_b] {
        let op = make_qn_node(graph, NodeKind::Type, "Op", "fx.Op", file);
        let f1 = make_qn_node(graph, NodeKind::Function, "f1", "fx.f1", file);
        let f2 = make_qn_node(graph, NodeKind::Function, "f2", "fx.f2", file);
        let c1 = make_qn_node(graph, NodeKind::CallSite, "Op_f1_call", "fx.<Op(f1)>", file);
        let c2 = make_qn_node(graph, NodeKind::CallSite, "Op_f2_call", "fx.<Op(f2)>", file);
        rebuild_indices(graph);

        add_function_signature_hint(graph, op, "(int)int", file);
        add_function_signature_hint(graph, f1, "(int)int", file);
        add_function_signature_hint(graph, f2, "(int)int", file);
        add_named_type_conversion_hint(graph, c1, "fx.Op", f1, file);
        add_named_type_conversion_hint(graph, c2, "fx.Op", f2, file);
    }

    let stats_a = run_go_method_set_satisfaction(&mut graph_a, None);
    let stats_b = run_go_method_set_satisfaction(&mut graph_b, None);

    assert_eq!(stats_a.signature_implements_edges, stats_b.signature_implements_edges);
    assert!(stats_a.signature_implements_edges >= 2);
}

#[test]
fn d3_ac11_dual_natured_handlerfunc() {
    let mut graph = CodeGraph::new();
    let file = FileId::new(0);

    let handler = make_qn_node(
        &mut graph,
        NodeKind::Interface,
        "Handler",
        "http.Handler",
        file,
    );
    let handler_serve_http = make_qn_node(
        &mut graph,
        NodeKind::Method,
        "ServeHTTP",
        "http.Handler.ServeHTTP",
        file,
    );

    let handler_func = make_qn_node(
        &mut graph,
        NodeKind::Type,
        "HandlerFunc",
        "http.HandlerFunc",
        file,
    );

    let handler_func_serve = make_qn_node(
        &mut graph,
        NodeKind::Method,
        "ServeHTTP",
        "http.HandlerFunc.ServeHTTP",
        file,
    );

    let handle_index = make_qn_node(
        &mut graph,
        NodeKind::Function,
        "handleIndex",
        "http.handleIndex",
        file,
    );

    let call_site = make_qn_node(
        &mut graph,
        NodeKind::CallSite,
        "handlerfunc_conv",
        "http.<HandlerFunc(handleIndex)>",
        file,
    );

    rebuild_indices(&mut graph);

    let handler_sig = "(ResponseWriter,*Request)";

    add_method_receiver_hint(
        &mut graph,
        handler_func_serve,
        "http.HandlerFunc",
        Receiver::Value,
        file,
    );
    add_method_receiver_hint(
        &mut graph,
        handler_serve_http,
        "http.Handler",
        Receiver::Value,
        file,
    );

    add_method_signature_hint(&mut graph, handler_serve_http, handler_sig, file);
    add_method_signature_hint(&mut graph, handler_func_serve, handler_sig, file);
    add_function_signature_hint(&mut graph, handler_func, handler_sig, file);
    add_function_signature_hint(&mut graph, handle_index, handler_sig, file);

    add_named_type_conversion_hint(
        &mut graph,
        call_site,
        "http.HandlerFunc",
        handle_index,
        file,
    );

    let stats = run_go_method_set_satisfaction(&mut graph, None);

    let hf_outgoing = graph.edges().edges_from(handler_func);
    assert!(
        hf_outgoing
            .iter()
            .any(|e| matches!(e.kind, EdgeKind::Implements) && e.target == handler)
    );

    let hi_outgoing = graph.edges().edges_from(handle_index);
    assert!(
        hi_outgoing
            .iter()
            .any(|e| matches!(e.kind, EdgeKind::Implements) && e.target == handler_func)
    );

    assert!(stats.signature_implements_edges >= 1);

    assert!(stats.implements_edges_value + stats.implements_edges_pointer >= 1);
}

#[test]
fn d3_name_and_signature_match_emits_implements() {
    let mut graph = CodeGraph::new();
    let file = FileId::new(0);

    let r = make_qn_node(&mut graph, NodeKind::Interface, "R", "fx.R", file);
    let r_read = make_qn_node(&mut graph, NodeKind::Method, "Read", "fx.R.Read", file);

    let f = make_qn_node(&mut graph, NodeKind::Struct, "F", "fx.F", file);
    let f_read = make_qn_node(&mut graph, NodeKind::Method, "Read", "fx.F.Read", file);
    rebuild_indices(&mut graph);

    add_method_receiver_hint(&mut graph, r_read, "fx.R", Receiver::Value, file);
    add_method_receiver_hint(&mut graph, f_read, "fx.F", Receiver::Value, file);

    let sig = "([]byte)(int,error)";
    add_method_signature_hint(&mut graph, r_read, sig, file);
    add_method_signature_hint(&mut graph, f_read, sig, file);

    let _ = run_go_method_set_satisfaction(&mut graph, None);

    assert!(
        graph
            .edges()
            .edges_from(f)
            .iter()
            .any(|e| matches!(e.kind, EdgeKind::Implements) && e.target == r)
    );
}

#[test]
fn e1_full_build_pass_runs() {
    let mut graph = CodeGraph::new();
    let file = FileId::new(0);

    let reader =
        make_interface_with_methods(&mut graph, "Reader", "fx.Reader", &["Read"], file);
    let _file_struct = make_qn_node(&mut graph, NodeKind::Struct, "File", "fx.File", file);
    let file_read = make_qn_node(&mut graph, NodeKind::Method, "Read", "fx.File.Read", file);
    rebuild_indices(&mut graph);
    add_method_receiver_hint(&mut graph, file_read, "fx.File", Receiver::Pointer, file);

    let stats = run_go_method_set_satisfaction(&mut graph, None);

    assert!(stats.satisfaction_pairs_examined > 0);
    assert!(stats.implements_edges_pointer >= 1);

    let ptr_qn = qn_strid(&graph, "fx.*File").expect("pointer-form qn interned");
    let ptr_node_candidates = graph.indices().by_qualified_name(ptr_qn).to_vec();
    assert_eq!(ptr_node_candidates.len(), 1);
    let ptr_node = ptr_node_candidates[0];
    assert!(
        graph
            .edges()
            .edges_from(ptr_node)
            .iter()
            .any(|e| matches!(e.kind, EdgeKind::Implements) && e.target == reader)
    );
}

#[test]
fn e1_incremental_build_pass_runs() {
    let mut graph = CodeGraph::new();
    let file = register_go_file(&mut graph, "/tmp/fx.go");

    let reader =
        make_interface_with_methods(&mut graph, "Reader", "fx.Reader", &["Read"], file);
    let _file_struct = make_qn_node(&mut graph, NodeKind::Struct, "File", "fx.File", file);
    let file_read = make_qn_node(&mut graph, NodeKind::Method, "Read", "fx.File.Read", file);
    rebuild_indices(&mut graph);
    add_method_receiver_hint(&mut graph, file_read, "fx.File", Receiver::Pointer, file);

    let stats = run_go_method_set_satisfaction_generic(&mut graph, Some(&[file]));

    assert!(stats.satisfaction_pairs_examined > 0);
    assert!(stats.implements_edges_pointer >= 1);

    let ptr_qn = qn_strid(&graph, "fx.*File").expect("pointer-form qn interned");
    let ptr_node_candidates = graph.indices().by_qualified_name(ptr_qn).to_vec();
    assert_eq!(ptr_node_candidates.len(), 1);
    let ptr_node = ptr_node_candidates[0];
    assert!(
        graph
            .edges()
            .edges_from(ptr_node)
            .iter()
            .any(|e| matches!(e.kind, EdgeKind::Implements) && e.target == reader)
    );
}

#[test]
fn e2_is_pass_owned_node_predicate() {
    let file = FileId::new(0);
    let sid = StringId::new(0);

    let cases: &[(NodeKind, &str, bool, bool)] = &[
        (NodeKind::Method, "fx::File::Read", true, true),
        (NodeKind::Method, "fx::*File::Read", true, true),
        (NodeKind::Type, "fx::*File", true, true),
        (NodeKind::Method, "fx::File::Read", false, false),
        (NodeKind::Type, "fx::*File", false, false),
        (NodeKind::Struct, "fx::File::Read", true, false),
        (NodeKind::Interface, "fx::*File", true, false),
        (NodeKind::Method, "noPackage", true, false),
        (NodeKind::Type, "fx::File", true, false),
        (NodeKind::Method, "", true, false),
        (NodeKind::Type, "fx::*", true, false),
    ];

    for (kind, qn, is_synthetic, expected) in cases {
        let view = NodeEntry::new(*kind, sid, file);
        assert_eq!(is_pass_owned_node(&view, qn, *is_synthetic), *expected);
    }
}

#[test]
fn e2_is_pass_owned_edge_predicate() {
    let mut graph = CodeGraph::new();
    let file = FileId::new(0);

    let real_struct = make_qn_node(&mut graph, NodeKind::Struct, "File", "fx.File", file);
    let real_iface = make_qn_node(&mut graph, NodeKind::Interface, "Reader", "fx.Reader", file);
    let real_method = make_qn_node(&mut graph, NodeKind::Method, "Read", "fx.File.Read", file);

    let synth_promoted_method = make_qn_node(
        &mut graph,
        NodeKind::Method,
        "Greeting",
        "fx.Outer.Greeting",
        file,
    );
    let synth_pointer_type = make_qn_node(&mut graph, NodeKind::Type, "File", "fx.*File", file);
    graph
        .macro_metadata_mut()
        .mark_synthetic(synth_promoted_method);
    graph
        .macro_metadata_mut()
        .mark_synthetic(synth_pointer_type);

    let type_assertion_iface =
        make_qn_node(&mut graph, NodeKind::Interface, "T", "<type:fx.T>", file);

    let classify = |s: NodeId, t: NodeId, k: EdgeKind, g: &CodeGraph| {
        let edge_ref = StoreEdgeRef {
            source: s,
            target: t,
            kind: k,
            seq: 0,
            file,
            spans: Vec::new(),
        };
        is_pass_owned_edge(&edge_ref, g.nodes(), g.strings(), g.macro_metadata())
    };

    assert!(
        classify(
            real_struct,
            synth_promoted_method,
            EdgeKind::Contains,
            &graph
        )
    );
    assert!(classify(synth_pointer_type, real_struct, EdgeKind::Inherits, &graph));
    assert!(!classify(real_struct, real_method, EdgeKind::Contains, &graph));

    assert!(
        classify(
            real_method,
            synth_promoted_method,
            EdgeKind::Calls {
                argument_count: 0,
                is_async: false,
                resolved_via: ResolvedVia::Direct,
            },
            &graph
        )
    );
    assert!(
        !classify(
            real_method,
            real_method,
            EdgeKind::Calls {
                argument_count: 0,
                is_async: false,
                resolved_via: ResolvedVia::Direct,
            },
            &graph
        )
    );

    assert!(
        classify(
            real_method,
            synth_promoted_method,
            EdgeKind::References,
            &graph
        )
    );

    assert!(classify(real_struct, real_iface, EdgeKind::Implements, &graph));
    assert!(
        !classify(
            real_struct,
            type_assertion_iface,
            EdgeKind::Implements,
            &graph
        )
    );

    let dummy_name_id = graph.strings_mut().intern("dummy").expect("intern");
    assert!(
        !classify(
            real_method,
            synth_promoted_method,
            EdgeKind::TypeOf {
                context: Some(TypeOfContext::Parameter),
                index: Some(0),
                name: Some(dummy_name_id),
            },
            &graph
        )
    );
}

#[test]
fn e2_tombstone_removes_orphan_implements() {
    let mut graph = CodeGraph::new();
    let file = register_go_file(&mut graph, "/tmp/orphan_fx.go");

    let reader =
        make_interface_with_methods(&mut graph, "Reader", "fx.Reader", &["Read"], file);
    let _file_struct = make_qn_node(&mut graph, NodeKind::Struct, "File", "fx.File", file);
    let file_read = make_qn_node(&mut graph, NodeKind::Method, "Read", "fx.File.Read", file);
    rebuild_indices(&mut graph);
    add_method_receiver_hint(&mut graph, file_read, "fx.File", Receiver::Pointer, file);

    let _stats1 = run_go_method_set_satisfaction(&mut graph, None);

    let ptr_qn_first =
        qn_strid(&graph, "fx.*File").expect("pointer-form qn interned by first run");
    let ptr_first_candidates = graph.indices().by_qualified_name(ptr_qn_first).to_vec();
    assert_eq!(ptr_first_candidates.len(), 1);
    let ptr_first = ptr_first_candidates[0];
    assert!(
        graph
            .edges()
            .edges_from(ptr_first)
            .iter()
            .any(|e| matches!(e.kind, EdgeKind::Implements) && e.target == reader)
    );

    graph.nodes_mut().remove(file_read);
    graph.go_hints_mut().method_receivers.clear();

    let stats2 = run_go_method_set_satisfaction_generic(&mut graph, Some(&[file]));

    assert_eq!(stats2.implements_edges_pointer, 0);
    assert_eq!(stats2.implements_edges_value, 0);

    let ptr_qn_second = qn_strid(&graph, "fx.*File").expect("string still interned");
    let ptr_second_candidates = graph
        .indices()
        .by_qualified_name(ptr_qn_second)
        .iter()
        .filter(|&&nid| graph.nodes().contains(nid))
        .copied()
        .collect::<Vec<_>>();
    assert!(ptr_second_candidates.is_empty());
    let stale_outgoing = graph.edges().edges_from(ptr_first);
    assert!(
        !stale_outgoing
            .iter()
            .any(|e| matches!(e.kind, EdgeKind::Implements) && e.target == reader)
    );
}

#[test]
fn e2_idempotent_re_run_on_unchanged_files() {
    let mut graph = CodeGraph::new();
    let file = register_go_file(&mut graph, "/tmp/idempotent_fx.go");
    let _reader =
        make_interface_with_methods(&mut graph, "Reader", "fx.Reader", &["Read"], file);
    let _file_struct = make_qn_node(&mut graph, NodeKind::Struct, "File", "fx.File", file);
    let file_read = make_qn_node(&mut graph, NodeKind::Method, "Read", "fx.File.Read", file);
    rebuild_indices(&mut graph);
    add_method_receiver_hint(&mut graph, file_read, "fx.File", Receiver::Pointer, file);

    let stats1 = run_go_method_set_satisfaction(&mut graph, None);
    assert!(stats1.implements_edges_pointer >= 1);

    let stats2 = run_go_method_set_satisfaction_generic(&mut graph, Some(&[file]));
    assert_eq!(stats1.implements_edges_value, stats2.implements_edges_value);
    assert_eq!(stats1.implements_edges_pointer, stats2.implements_edges_pointer);
    assert_eq!(stats1.signature_implements_edges, stats2.signature_implements_edges);
    assert_eq!(stats1.promoted_method_nodes, stats2.promoted_method_nodes);
    assert_eq!(stats1.promoted_back_reference_edges, stats2.promoted_back_reference_edges);
    assert_eq!(stats1.satisfaction_pairs_examined, stats2.satisfaction_pairs_examined);

    let stats3 = run_go_method_set_satisfaction_generic(&mut graph, Some(&[file]));
    assert_eq!(stats2.implements_edges_value, stats3.implements_edges_value);
    assert_eq!(stats2.implements_edges_pointer, stats3.implements_edges_pointer);
    assert_eq!(stats2.promoted_method_nodes, stats3.promoted_method_nodes);
}

#[test]
fn e2_multi_file_implements_idempotent_across_reruns() {
    let mut graph = CodeGraph::new();
    let file_c = register_go_file(&mut graph, "/tmp/fx_c.go");
    let file_i = register_go_file(&mut graph, "/tmp/fx_i.go");

    let reader =
        make_interface_with_methods(&mut graph, "Reader", "fx.Reader", &["Read"], file_i);
    let _file_struct = make_qn_node(&mut graph, NodeKind::Struct, "File", "fx.File", file_c);
    let file_read = make_qn_node(&mut graph, NodeKind::Method, "Read", "fx.File.Read", file_c);
    rebuild_indices(&mut graph);
    add_method_receiver_hint(&mut graph, file_read, "fx.File", Receiver::Pointer, file_c);

    fn implements_multiset(graph: &CodeGraph) -> Vec<(u32, u32)> {
        let mut out: Vec<(u32, u32)> = graph
            .edges()
            .all_live_forward_edges()
            .into_iter()
            .filter(|e| matches!(e.kind, EdgeKind::Implements))
            .map(|e| (e.source.index(), e.target.index()))
            .collect();
        out.sort();
        out
    }

    let _stats1 = run_go_method_set_satisfaction(&mut graph, None);
    let multiset1 = implements_multiset(&graph);
    assert!(!multiset1.is_empty());
    let reader_target_index = reader.index();
    assert!(multiset1.iter().any(|(_s, t)| *t == reader_target_index));

    let _stats2 = run_go_method_set_satisfaction_generic(&mut graph, Some(&[file_i]));
    let multiset2 = implements_multiset(&graph);
    assert_eq!(multiset1, multiset2);

    let _stats3 = run_go_method_set_satisfaction_generic(&mut graph, Some(&[file_i]));
    let multiset3 = implements_multiset(&graph);
    assert_eq!(multiset2, multiset3);

    let _stats4 = run_go_method_set_satisfaction_generic(&mut graph, Some(&[file_c]));
    let multiset4 = implements_multiset(&graph);
    assert_eq!(multiset3, multiset4);
}

#[test]
fn e2_t1_3_source_a_cross_file_correctness() {
    let mut graph = CodeGraph::new();
    let file_func = register_go_file(&mut graph, "/tmp/fx_func.go");
    let file_type = register_go_file(&mut graph, "/tmp/fx_type.go");
    let file_call = register_go_file(&mut graph, "/tmp/fx_call.go");

    let g = make_qn_node(&mut graph, NodeKind::Function, "g", "lib.g", file_func);
    let t = make_qn_node(&mut graph, NodeKind::Type, "T", "lib.T", file_type);
    let caller = make_qn_node(
        &mut graph,
        NodeKind::Function,
        "caller",
        "app.caller",
        file_call,
    );
    rebuild_indices(&mut graph);

    let sig = "()(int)";
    add_function_signature_hint(&mut graph, g, sig, file_func);
    add_function_signature_hint(&mut graph, t, sig, file_type);

    fn implements_multiset(graph: &CodeGraph) -> Vec<(u32, u32)> {
        let mut out: Vec<(u32, u32)> = graph
            .edges()
            .all_live_forward_edges()
            .into_iter()
            .filter(|e| matches!(e.kind, EdgeKind::Implements))
            .map(|e| (e.source.index(), e.target.index()))
            .collect();
        out.sort();
        out
    }

    let _ = run_go_method_set_satisfaction(&mut graph, None);
    let multiset_no_hint = implements_multiset(&graph);
    assert!(
        !multiset_no_hint
            .iter()
            .any(|(s, target)| *s == g.index() && *target == t.index())
    );

    add_named_type_conversion_hint(&mut graph, caller, "lib.T", g, file_call);

    let _ = run_go_method_set_satisfaction_generic(&mut graph, Some(&[file_call]));
    let multiset_after_add = implements_multiset(&graph);
    assert!(
        multiset_after_add
            .iter()
            .any(|(s, target)| *s == g.index() && *target == t.index())
    );

    let _ = run_go_method_set_satisfaction_generic(&mut graph, Some(&[file_call]));
    let multiset_after_rerun = implements_multiset(&graph);
    assert_eq!(multiset_after_add, multiset_after_rerun);

    graph.go_hints_mut().named_type_conversions.clear();
    let _ = run_go_method_set_satisfaction_generic(&mut graph, Some(&[file_call]));
    let multiset_after_remove = implements_multiset(&graph);
    assert!(
        !multiset_after_remove
            .iter()
            .any(|(s, target)| *s == g.index() && *target == t.index())
    );
}

#[test]
fn normalize_signature_value_param_named_and_unnamed_match() {
    let named = canonicalise_param_list("(p []byte)");
    let unnamed = canonicalise_param_list("([]byte)");
    assert_eq!(named, unnamed);
    assert_eq!(named, "[]byte");

    assert_eq!(canonicalise_param_list("p *T"), canonicalise_param_list("*T"));
    assert_eq!(canonicalise_param_list("r io.Reader"), canonicalise_param_list("io.Reader"));
    assert_eq!(
        canonicalise_param_list("a int, b string"),
        canonicalise_param_list("int, string")
    );
}

#[test]
fn promotion_respects_outer_shadow() {
    let mut graph = CodeGraph::new();
    let file = FileId::new(0);

    let _inner = make_qn_node(&mut graph, NodeKind::Struct, "Inner", "fx.Inner", file);
    let inner_m = make_qn_node(&mut graph, NodeKind::Method, "M", "fx.Inner.M", file);
    let outer = make_qn_node(&mut graph, NodeKind::Struct, "Outer", "fx.Outer", file);
    let outer_m_real = make_qn_node(&mut graph, NodeKind::Method, "M", "fx.Outer.M", file);
    rebuild_indices(&mut graph);

    add_embedding_hint(&mut graph, outer, "fx.Inner", Receiver::Value, file);
    add_method_receiver_hint(&mut graph, inner_m, "fx.Inner", Receiver::Value, file);
    add_method_receiver_hint(&mut graph, outer_m_real, "fx.Outer", Receiver::Value, file);

    let stats = run_go_method_set_satisfaction(&mut graph, None);

    let outer_m_qn = qn_strid(&graph, "fx.Outer.M").expect("fx.Outer.M qn interned");
    let bucket = graph.indices().by_qualified_name(outer_m_qn);
    assert_eq!(bucket.len(), 1);
    assert_eq!(bucket[0], outer_m_real);

    let entry = graph.nodes().get(bucket[0]).expect("node entry exists");
    assert!(matches!(entry.kind, NodeKind::Method));

    let _ = stats;
}

#[test]
fn promotion_alias_pointer_embedded() {

    let mut graph = CodeGraph::new();
    let file = FileId::new(0);

    let int_ptr = make_qn_node(&mut graph, NodeKind::Type, "*int", "fx.*int", file);
    let t_alias = make_qn_node(&mut graph, NodeKind::Type, "T", "fx.T", file);
    graph.edges_mut().add_edge(
        t_alias,
        int_ptr,
        EdgeKind::TypeOf {
            context: Some(TypeOfContext::TypeParameter),
            index: None,
            name: None,
        },
        file,
    );
    let s = make_qn_node(&mut graph, NodeKind::Struct, "S", "fx.S", file);
    rebuild_indices(&mut graph);

    add_embedding_hint(&mut graph, s, "fx.T", Receiver::Value, file);

    let stats = run_go_method_set_satisfaction(&mut graph, None);

    assert_eq!(stats.promoted_method_nodes, 0);
    assert_eq!(stats.implements_edges_value + stats.implements_edges_pointer, 0);

    if let Some(qn) = qn_strid(&graph, "fx.S.M") {
        assert!(graph.indices().by_qualified_name(qn).is_empty());
    }
}

#[test]
fn promotion_max_depth_cap_warns_and_skips() {
    let mut graph = CodeGraph::new();
    let file = FileId::new(0);

    let chain_len: usize = (MAX_PROMOTION_DEPTH as usize) + 4;
    let mut structs: Vec<NodeId> = Vec::with_capacity(chain_len);
    for i in 0..chain_len {
        let name = format!("S{i}");
        let qn = format!("fx.S{i}");
        let s = make_qn_node(&mut graph, NodeKind::Struct, &name, &qn, file);
        structs.push(s);
    }
    let last_qn = format!("fx.S{chain_len}.M", chain_len = chain_len - 1);
    let deepest_m = make_qn_node(&mut graph, NodeKind::Method, "M", &last_qn, file);
    rebuild_indices(&mut graph);

    for (i, &outer_struct) in structs.iter().take(chain_len - 1).enumerate() {
        let inner_qn = format!("fx.S{}", i + 1);
        add_embedding_hint(&mut graph, outer_struct, &inner_qn, Receiver::Value, file);
    }
    let deepest_recv_qn = format!("fx.S{}", chain_len - 1);
    add_method_receiver_hint(&mut graph, deepest_m, &deepest_recv_qn, Receiver::Value, file);

    let stats = run_go_method_set_satisfaction(&mut graph, None);

    assert!((stats.promoted_method_nodes as usize) < chain_len - 1);

    assert!(stats.ambiguity_blocked_promotions > 0);
}

#[test]
fn own_signature_normalises_to_itself() {
    for (params, results) in [
        ("", ""),
        ("a, b int", "(int, error)"),
        ("m map[string]func(x int) bool", "chan  int"),
        ("ctx context.Context, xs ... T", "(n int)"),
        (" p  *T ,q [ ]byte", ""),
    ] {
        let params_text = canonicalise_param_list(params);
        let results_text = canonicalise_return_clause(results);
        assert_eq!(
            canonicalise_signature(&params_text, &results_text),
            canonicalise_signature(params, results)
        );
    }
}

#[test]
fn words_after_a_name_are_taken_for_a_type() {
    assert_eq!(canonicalise_param_list("a b c"), "b c");
    assert_eq!(canonicalise_param_list("b c"), "c");
    assert_eq!(canonicalise_return_clause("((int))"), "(int)");
    assert_eq!(canonicalise_return_clause("(int)"), "int");
}

#[test]
fn name_of_a_parameter_does_not_matter() {
    for name in ["a", "_", "veryLong1"] {
        let params = format!("{name}\t[ ] T");
        assert_eq!(canonicalise_param_list(&params), "[]T");
    }
}

#[test]
fn commas_inside_brackets_separate_nothing() {
    assert_eq!(
        canonicalise_param_list("f func(int, string) (bool, error), m map[K]V"),
        "func(int,string)(bool,error),map[K]V"
    );
}

#[test]
fn type_that_implements_an_interface_does_so_by_pointer_too() {
    let mut graph = CodeGraph::new();
    let file = FileId::new(0);
    let reader = make_interface_with_methods(&mut graph, "Reader", "fx.Reader", &["Read"], file);
    let file_struct = make_qn_node(&mut graph, NodeKind::Struct, "File", "fx.File", file);
    make_qn_node(&mut graph, NodeKind::Method, "Read", "fx.File.Read", file);
    rebuild_indices(&mut graph);

    let stats = run_go_method_set_satisfaction(&mut graph, None);

    let pointer = graph.indices().by_qualified_name(qn_strid(&graph, "fx.*File").unwrap());
    assert_eq!(pointer.len(), 1);
    for source in [file_struct, pointer[0]] {
        let implements: Vec<NodeId> = graph
            .edges()
            .edges_from(source)
            .iter()
            .filter(|e| matches!(e.kind, EdgeKind::Implements))
            .map(|e| e.target)
            .collect();
        assert_eq!(implements, vec![reader]);
    }
    assert_eq!(stats.implements_edges_value, 1);
    assert_eq!(stats.implements_edges_pointer, 0);
}

#[test]
fn nothing_implements_itself() {
    let mut graph = CodeGraph::new();
    let file = FileId::new(0);
    let reader = make_interface_with_methods(&mut graph, "Reader", "fx.Reader", &["Read"], file);
    rebuild_indices(&mut graph);

    run_go_method_set_satisfaction(&mut graph, None);

    assert!(!graph
        .edges()
        .edges_from(reader)
        .iter()
        .any(|e| matches!(e.kind, EdgeKind::Implements) && e.target == reader));
}

#[test]
fn implementation_edges_are_numbered_in_order() {
    let mut graph = CodeGraph::new();
    let file = FileId::new(0);
    for name in ["B", "A"] {
        let qn = format!("fx.{name}");
        make_interface_with_methods(&mut graph, name, &qn, &["M"], file);
    }
    for name in ["Y", "X"] {
        let qn = format!("fx.{name}");
        make_qn_node(&mut graph, NodeKind::Struct, name, &qn, file);
        let mqn = format!("fx.{name}.M");
        make_qn_node(&mut graph, NodeKind::Method, "M", &mqn, file);
    }
    rebuild_indices(&mut graph);

    run_go_method_set_satisfaction(&mut graph, None);

    let ends: Vec<(u32, u32)> = graph
        .edges()
        .all_live_forward_edges()
        .iter()
        .filter(|e| matches!(e.kind, EdgeKind::Implements))
        .map(|e| (e.source.index(), e.target.index()))
        .collect();
    let mut sorted = ends.clone();
    sorted.sort();
    assert_eq!(ends, sorted);
    assert!(!ends.is_empty());
}

#[test]
fn tombstoning_takes_back_what_the_pass_made() {
    let mut graph = CodeGraph::new();
    let file = register_go_file(&mut graph, "/src/fx.go");
    make_interface_with_methods(&mut graph, "Reader", "fx.Reader", &["Read"], file);
    make_qn_node(&mut graph, NodeKind::Struct, "Inner", "fx.Inner", file);
    make_qn_node(&mut graph, NodeKind::Method, "Read", "fx.Inner.Read", file);
    let outer = make_qn_node(&mut graph, NodeKind::Struct, "Outer", "fx.Outer", file);
    rebuild_indices(&mut graph);
    add_embedding_hint(&mut graph, outer, "fx.Inner", Receiver::Value, file);
    let before = graph.nodes().iter().len();

    let stats = run_go_method_set_satisfaction(&mut graph, None);
    assert_eq!(stats.promoted_method_nodes, 1);
    let made = graph.nodes().iter().len() - before;
    assert!(made > 0);

    let removed = tombstone_all_pass_owned(&mut graph);

    assert_eq!(removed, made);
    assert_eq!(graph.nodes().iter().len(), before);
    assert!(graph.edges().all_live_forward_edges().is_empty());
}

#[test]
fn channel_arrows_are_no_brackets() {
    let receive = canonicalise_signature("a <-chan int, b string", "");
    assert_eq!(receive.0, b"(<-chan int,string)");
    let send = canonicalise_signature("a chan<- int, b string", "<-chan T");
    assert_eq!(send.0, b"(chan<-int,string)<-chan T");
    let generic = canonicalise_signature("a Pair<K, V>, b T", "");
    assert_eq!(generic.0, b"(Pair<K,V>,T)");
    assert_eq!(canonicalise_param_list("<-chan int,string"), "<-chan int,string");
}

#[test]
fn names_of_parameters_leave_no_trace() {
    let bare = canonicalise_signature("<-chan int, []T, map[K]V", "error");
    assert_eq!(canonicalise_signature("a <-chan int, b []T, map[K]V", "error"), bare);
    assert_eq!(canonicalise_signature("<-chan int, _ []T, c map[K]V", "error"), bare);
    assert_eq!(bare.0, b"(<-chan int,[]T,map[K]V)error");
}

#[test]
fn diamond_of_embeddings_is_ambiguous() {
    let mut graph = CodeGraph::new();
    let file = FileId::new(0);
    make_qn_node(&mut graph, NodeKind::Struct, "C", "fx.C", file);
    make_qn_node(&mut graph, NodeKind::Method, "M", "fx.C.M", file);
    let a = make_qn_node(&mut graph, NodeKind::Struct, "A", "fx.A", file);
    let b = make_qn_node(&mut graph, NodeKind::Struct, "B", "fx.B", file);
    let outer = make_qn_node(&mut graph, NodeKind::Struct, "Outer", "fx.Outer", file);
    rebuild_indices(&mut graph);
    for (from, to) in [(outer, "fx.A"), (outer, "fx.B"), (a, "fx.C"), (b, "fx.C")] {
        add_embedding_hint(&mut graph, from, to, Receiver::Value, file);
    }

    let stats = run_go_method_set_satisfaction(&mut graph, None);

    // `A` and `B` gain the method, `Outer` does not.
    assert_eq!(stats.promoted_method_nodes, 2);
    assert_eq!(stats.ambiguity_blocked_promotions, 1);
    assert!(qn_strid(&graph, "fx.Outer.M").is_none());
    assert!(qn_strid(&graph, "fx.A.M").is_some());
}

#[test]
fn diamond_below_an_embedded_type_is_ambiguous() {
    let mut graph = CodeGraph::new();
    let file = FileId::new(0);
    make_qn_node(&mut graph, NodeKind::Struct, "C", "fx.C", file);
    make_qn_node(&mut graph, NodeKind::Method, "M", "fx.C.M", file);
    let a = make_qn_node(&mut graph, NodeKind::Struct, "A", "fx.A", file);
    let b = make_qn_node(&mut graph, NodeKind::Struct, "B", "fx.B", file);
    let x = make_qn_node(&mut graph, NodeKind::Struct, "X", "fx.X", file);
    make_qn_node(&mut graph, NodeKind::Method, "N", "fx.X.N", file);
    let outer = make_qn_node(&mut graph, NodeKind::Struct, "Outer", "fx.Outer", file);
    rebuild_indices(&mut graph);
    for (from, to) in [
        (outer, "fx.X"),
        (x, "fx.A"),
        (x, "fx.B"),
        (a, "fx.C"),
        (b, "fx.C"),
    ] {
        add_embedding_hint(&mut graph, from, to, Receiver::Value, file);
    }

    let stats = run_go_method_set_satisfaction(&mut graph, None);

    // `A` and `B` gain `M`, and `Outer` gains `N`; `X` and `Outer` do not gain `M`.
    assert_eq!(stats.promoted_method_nodes, 3);
    assert_eq!(stats.ambiguity_blocked_promotions, 2);
    assert!(qn_strid(&graph, "fx.X.M").is_none());
    assert!(qn_strid(&graph, "fx.Outer.M").is_none());
    assert!(qn_strid(&graph, "fx.Outer.N").is_some());
}

#[test]
fn one_path_by_value_and_by_pointer_is_not_ambiguous() {
    let mut graph = CodeGraph::new();
    let file = FileId::new(0);
    make_qn_node(&mut graph, NodeKind::Struct, "C", "fx.C", file);
    let m = make_qn_node(&mut graph, NodeKind::Method, "M", "fx.C.M", file);
    let outer = make_qn_node(&mut graph, NodeKind::Struct, "Outer", "fx.Outer", file);
    rebuild_indices(&mut graph);
    add_method_receiver_hint(&mut graph, m, "fx.C", Receiver::Pointer, file);
    add_embedding_hint(&mut graph, outer, "fx.C", Receiver::Value, file);
    add_embedding_hint(&mut graph, outer, "fx.C", Receiver::Pointer, file);

    let stats = run_go_method_set_satisfaction(&mut graph, None);

    assert_eq!(stats.ambiguity_blocked_promotions, 0);
    assert!(qn_strid(&graph, "fx.Outer.M").is_some());
}

fn embedding_chain(length: usize) -> CodeGraph {
    let mut graph = CodeGraph::new();
    let file = FileId::new(0);
    let mut nodes = Vec::new();
    for i in 0..length {
        let (short, qn) = (format!("S{i}"), format!("fx.S{i}"));
        nodes.push(make_qn_node(&mut graph, NodeKind::Struct, &short, &qn, file));
    }
    let qn = format!("fx.S{}.M", length - 1);
    make_qn_node(&mut graph, NodeKind::Method, "M", &qn, file);
    rebuild_indices(&mut graph);
    for i in 0..length - 1 {
        let inner = format!("fx.S{}", i + 1);
        add_embedding_hint(&mut graph, nodes[i], &inner, Receiver::Value, file);
    }
    graph
}

#[test]
fn deepest_level_of_embedding_is_within_the_limit() {
    let depth = MAX_PROMOTION_DEPTH as usize;

    let mut within = embedding_chain(depth + 1);
    let stats = run_go_method_set_satisfaction(&mut within, None);
    assert_eq!(stats.promoted_method_nodes as usize, depth);
    assert_eq!(stats.ambiguity_blocked_promotions, 0);
    assert!(qn_strid(&within, "fx.S0.M").is_some());

    let mut beyond = embedding_chain(depth + 2);
    let stats = run_go_method_set_satisfaction(&mut beyond, None);
    assert_eq!(stats.promoted_method_nodes as usize, depth);
    assert_eq!(stats.ambiguity_blocked_promotions, 1);
    assert!(qn_strid(&beyond, "fx.S0.M").is_none());
    assert!(qn_strid(&beyond, "fx.S1.M").is_some());
}

fn implements_edges(graph: &CodeGraph, source: NodeId) -> Vec<NodeId> {
    graph
        .edges()
        .edges_from(source)
        .iter()
        .filter(|e| matches!(e.kind, EdgeKind::Implements))
        .map(|e| e.target)
        .collect()
}

#[test]
fn promoted_method_has_the_signature_of_its_declaration() {
    for (wanted, found) in [("(int)", true), ("(string)", false)] {
        let mut graph = CodeGraph::new();
        let file = FileId::new(0);
        let reader = make_qn_node(&mut graph, NodeKind::Interface, "Reader", "fx.Reader", file);
        let want = make_qn_node(&mut graph, NodeKind::Method, "Read", "fx.Reader.Read", file);
        make_qn_node(&mut graph, NodeKind::Struct, "Inner", "fx.Inner", file);
        let have = make_qn_node(&mut graph, NodeKind::Method, "Read", "fx.Inner.Read", file);
        let outer = make_qn_node(&mut graph, NodeKind::Struct, "Outer", "fx.Outer", file);
        rebuild_indices(&mut graph);
        add_method_signature_hint(&mut graph, want, wanted, file);
        add_method_signature_hint(&mut graph, have, "(int)", file);
        add_embedding_hint(&mut graph, outer, "fx.Inner", Receiver::Value, file);

        let stats = run_go_method_set_satisfaction(&mut graph, None);

        assert_eq!(stats.promoted_method_nodes, 1);
        assert_eq!(implements_edges(&graph, outer).contains(&reader), found);
    }
}

#[test]
fn interface_requires_the_methods_of_all_that_it_embeds() {
    let mut graph = CodeGraph::new();
    let file = FileId::new(0);
    let all = make_qn_node(&mut graph, NodeKind::Interface, "All", "fx.All", file);
    let full = make_qn_node(&mut graph, NodeKind::Struct, "Full", "fx.Full", file);
    let partial = make_qn_node(&mut graph, NodeKind::Struct, "Partial", "fx.Partial", file);
    let mut embedded = Vec::new();
    for i in 0..20 {
        let (short, qn, method) = (format!("I{i}"), format!("fx.I{i}"), format!("M{i}"));
        embedded.push(make_interface_with_methods(&mut graph, &short, &qn, &[&method], file));
        let own = format!("fx.Full.M{i}");
        make_qn_node(&mut graph, NodeKind::Method, &method, &own, file);
        if i != 7 {
            let own = format!("fx.Partial.M{i}");
            make_qn_node(&mut graph, NodeKind::Method, &method, &own, file);
        }
    }
    rebuild_indices(&mut graph);
    for iface in &embedded {
        graph.edges_mut().add_edge(all, *iface, EdgeKind::Inherits, file);
    }

    run_go_method_set_satisfaction(&mut graph, None);

    assert!(implements_edges(&graph, full).contains(&all));
    assert!(!implements_edges(&graph, partial).contains(&all));
    assert_eq!(implements_edges(&graph, partial).len(), 19);
}

#[test]
fn taking_back_gives_the_graph_back() {
    let mut graph = CodeGraph::new();
    let file = register_go_file(&mut graph, "/src/fx.go");
    make_interface_with_methods(&mut graph, "Reader", "fx.Reader", &["Read"], file);
    let inner = make_qn_node(&mut graph, NodeKind::Struct, "Inner", "fx.Inner", file);
    let read = make_qn_node(&mut graph, NodeKind::Method, "Read", "fx.Inner.Read", file);
    let outer = make_qn_node(&mut graph, NodeKind::Struct, "Outer", "fx.Outer", file);
    rebuild_indices(&mut graph);
    add_embedding_hint(&mut graph, outer, "fx.Inner", Receiver::Value, file);
    graph.edges_mut().add_edge(inner, read, EdgeKind::Contains, file);
    let nodes: Vec<NodeId> = graph.nodes().iter().iter().map(|n| n.0).collect();
    let bucket = graph.files().nodes_for_file(file);

    run_go_method_set_satisfaction(&mut graph, None);
    let implements = graph
        .edges()
        .all_live_forward_edges()
        .iter()
        .filter(|e| matches!(e.kind, EdgeKind::Implements))
        .filter(|e| nodes.contains(&e.source))
        .count();
    let seq = graph.edges().seq_counter();
    assert!(implements > 0);
    assert!(tombstone_all_pass_owned(&mut graph) > 0);

    let left: Vec<NodeId> = graph.nodes().iter().iter().map(|n| n.0).collect();
    assert_eq!(left, nodes);
    assert_eq!(graph.files().nodes_for_file(file), bucket);
    let edges = graph.edges().all_live_forward_edges();
    assert_eq!(edges.len(), 1);
    assert_eq!((edges[0].source, edges[0].target), (inner, read));
    // Every removed implementation edge of a node that is left uses up a number.
    assert!(graph.edges().seq_counter() >= seq + implements as u64);

    let seq = graph.edges().seq_counter();
    assert_eq!(tombstone_all_pass_owned(&mut graph), 0);
    assert_eq!(graph.edges().seq_counter(), seq);
    assert_eq!(graph.edges().all_live_forward_edges().len(), 1);
}

#[test]
fn later_runs_count_what_the_first_has_counted() {
    let mut graph = CodeGraph::new();
    let file = register_go_file(&mut graph, "/src/fx.go");
    make_interface_with_methods(&mut graph, "Reader", "fx.Reader", &["Read"], file);
    make_qn_node(&mut graph, NodeKind::Struct, "Inner", "fx.Inner", file);
    let read = make_qn_node(&mut graph, NodeKind::Method, "Read", "fx.Inner.Read", file);
    let outer = make_qn_node(&mut graph, NodeKind::Struct, "Outer", "fx.Outer", file);
    rebuild_indices(&mut graph);
    add_method_receiver_hint(&mut graph, read, "fx.Inner", Receiver::Pointer, file);
    add_embedding_hint(&mut graph, outer, "fx.Inner", Receiver::Value, file);

    let mut first = run_go_method_set_satisfaction(&mut graph, None);
    first.elapsed_ms = 0;
    for changed in [vec![], vec![file], vec![FileId::new(9)]] {
        let mut again = run_go_method_set_satisfaction(&mut graph, Some(&changed));
        again.elapsed_ms = 0;
        assert_eq!(again, first);
    }
}

/// The edges of the graph by the names of their ends, sorted.
fn edges_by_name(graph: &CodeGraph) -> Vec<String> {
    let mut all: Vec<String> = graph
        .edges()
        .all_live_forward_edges()
        .iter()
        .map(|e| {
            let source = graph.qualified_name_string(e.source);
            let target = graph.qualified_name_string(e.target);
            format!("{:?} {:?} {:?}", source, e.kind, target)
        })
        .collect();
    all.sort();
    all
}

#[test]
fn later_run_adds_the_same_edges() {
    let mut graph = CodeGraph::new();
    let file = register_go_file(&mut graph, "/src/fx.go");
    make_interface_with_methods(&mut graph, "Reader", "fx.Reader", &["Read"], file);
    make_qn_node(&mut graph, NodeKind::Struct, "Inner", "fx.Inner", file);
    let read = make_qn_node(&mut graph, NodeKind::Method, "Read", "fx.Inner.Read", file);
    let seek = make_qn_node(&mut graph, NodeKind::Method, "Seek", "fx.Inner.Seek", file);
    let outer = make_qn_node(&mut graph, NodeKind::Struct, "Outer", "fx.Outer", file);
    let copy = make_qn_node(&mut graph, NodeKind::Function, "copy", "fx.copy", file);
    let local = make_qn_node(&mut graph, NodeKind::Variable, "o", "fx.copy.o", file);
    let site = make_qn_node(&mut graph, NodeKind::CallSite, "call", "fx.copy.call", file);
    let op = make_qn_node(&mut graph, NodeKind::Type, "Op", "fx.Op", file);
    rebuild_indices(&mut graph);
    add_method_receiver_hint(&mut graph, read, "fx.Inner", Receiver::Value, file);
    add_method_receiver_hint(&mut graph, seek, "fx.Inner", Receiver::Pointer, file);
    add_embedding_hint(&mut graph, outer, "fx.Inner", Receiver::Value, file);
    graph.edges_mut().add_edge(
        local,
        outer,
        EdgeKind::TypeOf {
            context: Some(TypeOfContext::Variable),
            index: None,
            name: None,
        },
        file,
    );
    graph.edges_mut().add_edge(
        copy,
        read,
        EdgeKind::Calls {
            argument_count: 0,
            is_async: false,
            resolved_via: ResolvedVia::Direct,
        },
        file,
    );
    add_local_ident_receiver_call_hint(&mut graph, site, read, "Read", local, file);
    add_function_signature_hint(&mut graph, op, "()", file);
    add_function_signature_hint(&mut graph, copy, "()", file);
    add_named_type_conversion_hint(&mut graph, site, "fx.Op", copy, file);
    let before = edges_by_name(&graph);

    let mut first = run_go_method_set_satisfaction(&mut graph, None);
    first.elapsed_ms = 0;
    let edges = edges_by_name(&graph);
    assert_eq!(before.len(), 2);
    assert_eq!(first.promoted_method_nodes, 2);
    assert_eq!(first.promoted_back_reference_edges, 2);
    assert_eq!(first.signature_implements_edges, 1);
    assert!(first.implements_edges_value >= 2);

    for _ in 0..2 {
        let mut again = run_go_method_set_satisfaction(&mut graph, Some(&[file]));
        again.elapsed_ms = 0;
        assert_eq!(again, first);
        assert_eq!(edges_by_name(&graph), edges);
    }
}

#[test]
fn later_run_does_the_same_where_a_node_was_removed() {
    let mut graph = CodeGraph::new();
    let file = register_go_file(&mut graph, "/src/fx.go");
    make_interface_with_methods(&mut graph, "Reader", "fx.Reader", &["Read"], file);
    make_qn_node(&mut graph, NodeKind::Struct, "Inner", "fx.Inner", file);
    let read = make_qn_node(&mut graph, NodeKind::Method, "Read", "fx.Inner.Read", file);
    let gone = make_qn_node(&mut graph, NodeKind::Method, "Gone", "fx.Inner.Gone", file);
    let outer = make_qn_node(&mut graph, NodeKind::Struct, "Outer", "fx.Outer", file);
    rebuild_indices(&mut graph);
    add_method_receiver_hint(&mut graph, read, "fx.Inner", Receiver::Value, file);
    add_method_receiver_hint(&mut graph, gone, "fx.Inner", Receiver::Value, file);
    add_embedding_hint(&mut graph, outer, "fx.Inner", Receiver::Value, file);
    graph.edges_mut().add_edge(gone, read, EdgeKind::References, file);
    graph.nodes_mut().remove(gone);

    let mut first = run_go_method_set_satisfaction(&mut graph, None);
    first.elapsed_ms = 0;
    let edges = edges_by_name(&graph);
    let slots = graph.nodes().slot_count();
    assert_eq!(first.promoted_method_nodes, 1);

    for _ in 0..3 {
        let mut again = run_go_method_set_satisfaction(&mut graph, Some(&[file]));
        again.elapsed_ms = 0;
        assert_eq!(again, first);
        assert_eq!(edges_by_name(&graph), edges);
        assert_eq!(graph.nodes().slot_count(), slots);
    }
}
