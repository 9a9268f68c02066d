//! Indirect calls in C.

use sqry_build::arena::NodeEntry;
use sqry_build::c_indirect::{
    BindingEntry, CIndirectSideTables, FieldKey, FieldSignature, FileScope, FnSignature,
    IndirectCallsite, IndirectShape, LocalScopeIndex, ScopeBinding,
};
use sqry_build::graph::CodeGraph;
use sqry_build::ids::{FileId, NodeId, StringId};
use sqry_build::kinds::{EdgeKind, Language, NodeKind, ResolvedVia};
use sqry_build::pass5b_c_indirect::{
    resolve_c_indirect_calls, strip_struct_keyword_and_pointer, Pass5bStats,
};

#[test]
fn strip_struct_keyword_strips_struct_prefix() {
    assert_eq!(strip_struct_keyword_and_pointer("struct ops"), "ops");
    assert_eq!(
        strip_struct_keyword_and_pointer("struct file_operations"),
        "file_operations"
    );
}

#[test]
fn strip_struct_keyword_strips_union_and_enum() {
    assert_eq!(strip_struct_keyword_and_pointer("union variant"), "variant");
    assert_eq!(strip_struct_keyword_and_pointer("enum color"), "color");
}

#[test]
fn strip_struct_keyword_no_op_on_bare_tag() {
    assert_eq!(strip_struct_keyword_and_pointer("ops"), "ops");
}

#[test]
fn strip_struct_keyword_trims_trailing_pointer() {
    assert_eq!(strip_struct_keyword_and_pointer("struct ops *"), "ops");
    assert_eq!(strip_struct_keyword_and_pointer("struct ops **"), "ops");
}

#[test]
fn pass5b_stats_total_resolved_sums_binding_and_typematch() {
    let s = Pass5bStats {
        binding_resolved: 3,
        typematch_resolved: 5,
        cap_exceeded: 1,
        stub_fallback: 2,
    };
    assert_eq!(s.total_resolved(), 8);
}

#[test]
fn resolve_c_indirect_calls_short_circuits_when_no_c() {
    // Construct a default CodeGraph (no c_indirect_tables set).
    let mut graph = CodeGraph::new();
    let stats = resolve_c_indirect_calls(&mut graph);
    assert_eq!(stats, Pass5bStats::default());
}

/// A C file in which `caller` calls `dev->read(..)` through a stub node `read`.
struct Fixture {
    graph: CodeGraph,
    file: FileId,
    caller: NodeId,
    stub: NodeId,
    field: FieldKey,
}

fn intern(graph: &mut CodeGraph, s: &str) -> StringId {
    graph.strings_mut().intern(s).expect("intern")
}

fn add_function(graph: &mut CodeGraph, name: &str, file: FileId) -> NodeId {
    let id = intern(graph, name);
    let mut entry = NodeEntry::new(NodeKind::Function, id, file);
    entry.qualified_name = Some(id);
    graph.nodes_mut().allocate(entry).expect("allocate")
}

fn fixture() -> Fixture {
    let mut graph = CodeGraph::new();
    let file =
        graph.files_mut().register_with_language("/test/dev.c", Some(Language::C)).expect("file");
    let caller = add_function(&mut graph, "caller", file);
    let stub = add_function(&mut graph, "read", file);
    let field = FieldKey {
        struct_tag: intern(&mut graph, "ops"),
        field_name: intern(&mut graph, "read"),
    };
    graph.edges_mut().add_edge(
        caller,
        stub,
        EdgeKind::Calls { argument_count: 2, is_async: false, resolved_via: ResolvedVia::Direct },
        file,
    );
    let mut tables = CIndirectSideTables::new();
    tables.pending_callsites.push(IndirectCallsite {
        caller,
        file_id: file,
        shape: IndirectShape::FieldExpr {
            receiver_name: "dev".to_string(),
            field_name: "read".to_string(),
        },
        use_span: (50, 60),
        argument_count: 2,
        is_async: false,
    });
    let mut index = LocalScopeIndex::new();
    index.bindings.push(ScopeBinding {
        name: "dev".to_string(),
        type_token: "struct ops *".to_string(),
        visible_from: 10,
        visible_to: 100,
    });
    tables.local_scope_indices.push(FileScope { file, index });
    *graph.c_indirect_tables_mut() = Some(tables);
    Fixture { graph, file, caller, stub, field }
}

fn with_tables(f: &mut Fixture, edit: impl FnOnce(&mut CIndirectSideTables)) {
    match f.graph.c_indirect_tables_mut() {
        Some(tables) => edit(tables),
        None => panic!("tables"),
    }
}

fn calls_from(f: &Fixture) -> Vec<(NodeId, ResolvedVia)> {
    f.graph
        .edges()
        .edges_from(f.caller)
        .iter()
        .map(|e| match e.kind {
            EdgeKind::Calls { resolved_via, .. } => (e.target, resolved_via),
            _ => panic!("not a call"),
        })
        .collect()
}

#[test]
fn bound_field_call_is_rewritten_to_its_targets() {
    let mut f = fixture();
    let file = f.file;
    let a = add_function(&mut f.graph, "a_read", file);
    let b = add_function(&mut f.graph, "b_read", file);
    let field = f.field;
    let instance = f.stub;
    with_tables(&mut f, |t| {
        for target_fn in [a, b, a] {
            t.bindings_by_field.push(BindingEntry { field, instance, target_fn });
        }
    });

    let stats = resolve_c_indirect_calls(&mut f.graph);

    assert_eq!(stats.binding_resolved, 1);
    assert_eq!(stats.total_resolved(), 1);
    assert_eq!(
        calls_from(&f),
        vec![(a, ResolvedVia::BindingPlane), (b, ResolvedVia::BindingPlane)]
    );
}

#[test]
fn unbound_field_call_falls_back_on_signatures() {
    let mut f = fixture();
    let file = f.file;
    let a = add_function(&mut f.graph, "a_read", file);
    let other = add_function(&mut f.graph, "other", file);
    let sig = intern(&mut f.graph, "int (*)(int, int)");
    f.graph.macro_metadata_mut().mark_address_taken(a);
    let field = f.field;
    with_tables(&mut f, |t| {
        t.struct_field_fnptr.push(FieldSignature { field, signature: sig });
        t.fn_signature.push(FnSignature { node: a, signature: sig });
        t.fn_signature.push(FnSignature { node: other, signature: sig });
    });

    let stats = resolve_c_indirect_calls(&mut f.graph);

    assert_eq!(stats.typematch_resolved, 1);
    // `other` never had its address taken, so nothing can call it through a pointer.
    assert_eq!(calls_from(&f), vec![(a, ResolvedVia::TypeMatch)]);
}

#[test]
fn too_many_candidates_mark_the_caller() {
    let mut f = fixture();
    let file = f.file;
    let sig = intern(&mut f.graph, "int (*)(int, int)");
    let field = f.field;
    let mut nodes = Vec::new();
    for i in 0..5 {
        let name = format!("fn_{i}");
        let n = add_function(&mut f.graph, &name, file);
        f.graph.macro_metadata_mut().mark_address_taken(n);
        nodes.push(n);
    }
    with_tables(&mut f, |t| {
        t.struct_field_fnptr.push(FieldSignature { field, signature: sig });
        for node in &nodes {
            t.fn_signature.push(FnSignature { node: *node, signature: sig });
        }
    });

    let stats = resolve_c_indirect_calls(&mut f.graph);

    assert_eq!(stats.cap_exceeded, 1);
    assert!(f.graph.macro_metadata().is_callsite_promiscuous(f.caller));
    assert_eq!(calls_from(&f), vec![(f.stub, ResolvedVia::Direct)]);
}

#[test]
fn unknown_receiver_keeps_the_stub() {
    let mut f = fixture();
    with_tables(&mut f, |t| {
        t.local_scope_indices.clear();
    });

    let stats = resolve_c_indirect_calls(&mut f.graph);

    assert_eq!(stats.stub_fallback, 1);
    assert_eq!(stats.total_resolved(), 0);
    assert_eq!(calls_from(&f), vec![(f.stub, ResolvedVia::Direct)]);
}

#[test]
fn every_callsite_is_counted_once() {
    let mut f = fixture();
    let caller = f.caller;
    let file = f.file;
    with_tables(&mut f, |t| {
        t.pending_callsites.push(IndirectCallsite {
            caller,
            file_id: file,
            shape: IndirectShape::PointerExpr { var_name: "cb".to_string() },
            use_span: (70, 75),
            argument_count: 0,
            is_async: false,
        });
    });

    let s = resolve_c_indirect_calls(&mut f.graph);

    assert_eq!(s.total_resolved() + s.cap_exceeded + s.stub_fallback, 2);
}
