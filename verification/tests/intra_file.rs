//! Edges inside one file.

use sqry_build::ids::{FileId, NodeId};
use sqry_build::kinds::EdgeKind;
use sqry_build::pass3_intra::{pass3_intra_edges, pass3_intra_edges_legacy, IntraFileReference};
use sqry_build::symbols::SymbolTable;

fn create_test_reference(source: &str, target: &str, kind: &str) -> IntraFileReference {
    IntraFileReference::new(source.to_string(), target.to_string(), kind.to_string())
}

#[test]
fn test_pass3_creates_call_edge() {
    let mut symbol_to_node = SymbolTable::new();
    let caller_id = NodeId::new(0, 1);
    let target_id = NodeId::new(1, 1);
    symbol_to_node.insert("caller".to_string(), caller_id);
    symbol_to_node.insert("callee".to_string(), target_id);

    let references = vec![create_test_reference("caller", "callee", "call")];
    let file_id = FileId::new(0);

    let result = pass3_intra_edges(&references, &symbol_to_node, file_id);

    assert_eq!(result.stats.references_processed, 1);
    assert_eq!(result.stats.calls_edges_created, 1);
    assert_eq!(result.stats.unresolved_references, 0);
    assert_eq!(result.edges.len(), 1);
    assert!(result.unresolved.is_empty());

    let edge = &result.edges[0];
    assert_eq!(edge.source, caller_id);
    assert_eq!(edge.target, target_id);
    assert!(matches!(
        edge.kind,
        EdgeKind::Calls {
            argument_count: 0,
            is_async: false,
            ..
        }
    ));
}

#[test]
fn test_pass3_creates_reference_edge() {
    let mut symbol_to_node = SymbolTable::new();
    let user_id = NodeId::new(0, 1);
    let type_id = NodeId::new(1, 1);
    symbol_to_node.insert("user_func".to_string(), user_id);
    symbol_to_node.insert("MyType".to_string(), type_id);

    let references = vec![create_test_reference(
        "user_func",
        "MyType",
        "type_reference",
    )];
    let file_id = FileId::new(0);

    let result = pass3_intra_edges(&references, &symbol_to_node, file_id);

    assert_eq!(result.stats.references_processed, 1);
    assert_eq!(result.stats.references_edges_created, 1);
    assert_eq!(result.edges.len(), 1);
    assert!(matches!(result.edges[0].kind, EdgeKind::References));
}

#[test]
fn test_pass3_unresolved_source() {
    let mut symbol_to_node = SymbolTable::new();
    let target_id = NodeId::new(1, 1);
    symbol_to_node.insert("target".to_string(), target_id);

    let references = vec![create_test_reference("unknown_source", "target", "call")];
    let file_id = FileId::new(0);

    let result = pass3_intra_edges(&references, &symbol_to_node, file_id);

    assert_eq!(result.stats.references_processed, 1);
    assert_eq!(result.stats.unresolved_references, 1);
    assert!(result.edges.is_empty());
    // Source not found, so no unresolved ref created
    assert!(result.unresolved.is_empty());
}

#[test]
fn test_pass3_unresolved_target() {
    let mut symbol_to_node = SymbolTable::new();
    let source_id = NodeId::new(0, 1);
    symbol_to_node.insert("source".to_string(), source_id);

    let references = vec![create_test_reference("source", "unknown_target", "call")];
    let file_id = FileId::new(0);

    let result = pass3_intra_edges(&references, &symbol_to_node, file_id);

    assert_eq!(result.stats.references_processed, 1);
    assert_eq!(result.stats.unresolved_references, 1);
    assert!(result.edges.is_empty());
    // Source found but target not - creates unresolved ref for Pass 4
    assert_eq!(result.unresolved.len(), 1);
    assert_eq!(result.unresolved[0].source_node, source_id);
    assert_eq!(result.unresolved[0].target_name, "unknown_target");
    assert!(matches!(
        result.unresolved[0].kind,
        EdgeKind::Calls {
            argument_count: 0,
            is_async: false,
            ..
        }
    ));
}

#[test]
fn test_pass3_multiple_edges() {
    let mut symbol_to_node = SymbolTable::new();
    let func_a = NodeId::new(0, 1);
    let func_b = NodeId::new(1, 1);
    let func_c = NodeId::new(2, 1);
    symbol_to_node.insert("func_a".to_string(), func_a);
    symbol_to_node.insert("func_b".to_string(), func_b);
    symbol_to_node.insert("func_c".to_string(), func_c);

    let references = vec![
        create_test_reference("func_a", "func_b", "call"),
        create_test_reference("func_a", "func_c", "call"),
        create_test_reference("func_b", "func_c", "call"),
    ];
    let file_id = FileId::new(0);

    let result = pass3_intra_edges(&references, &symbol_to_node, file_id);

    assert_eq!(result.stats.references_processed, 3);
    assert_eq!(result.stats.calls_edges_created, 3);
    assert_eq!(result.edges.len(), 3);
}

#[test]
fn test_pass3_mixed_resolved_unresolved() {
    let mut symbol_to_node = SymbolTable::new();
    let func_a = NodeId::new(0, 1);
    let func_b = NodeId::new(1, 1);
    symbol_to_node.insert("func_a".to_string(), func_a);
    symbol_to_node.insert("func_b".to_string(), func_b);

    let references = vec![
        create_test_reference("func_a", "func_b", "call"), // resolved
        create_test_reference("func_a", "external_func", "call"), // unresolved
        create_test_reference("func_b", "external_type", "type"), // unresolved
    ];
    let file_id = FileId::new(0);

    let result = pass3_intra_edges(&references, &symbol_to_node, file_id);

    assert_eq!(result.stats.references_processed, 3);
    assert_eq!(result.stats.calls_edges_created, 1);
    assert_eq!(result.stats.unresolved_references, 2);
    assert_eq!(result.edges.len(), 1);
    assert_eq!(result.unresolved.len(), 2);

    // Verify unresolved refs have correct data
    assert_eq!(result.unresolved[0].target_name, "external_func");
    assert_eq!(result.unresolved[1].target_name, "external_type");
}

#[test]
fn test_intra_file_reference_new() {
    let reference = IntraFileReference::new(
        "my_module::caller".to_string(),
        "my_module::callee".to_string(),
        "call".to_string(),
    );

    assert_eq!(reference.source_qualified_name, "my_module::caller");
    assert_eq!(reference.target_qualified_name, "my_module::callee");
    assert_eq!(reference.kind, "call");
    assert_eq!(reference.line, 0);
    assert_eq!(reference.column, 0);
}

#[test]
fn test_intra_file_reference_with_location() {
    let reference = IntraFileReference::with_location(
        "caller".to_string(),
        "callee".to_string(),
        "call".to_string(),
        42,
        10,
    );

    assert_eq!(reference.line, 42);
    assert_eq!(reference.column, 10);
}

#[test]
fn test_unresolved_ref_preserves_location() {
    let mut symbol_to_node = SymbolTable::new();
    let source_id = NodeId::new(0, 1);
    symbol_to_node.insert("source".to_string(), source_id);

    let references = vec![IntraFileReference::with_location(
        "source".to_string(),
        "unknown".to_string(),
        "call".to_string(),
        100,
        25,
    )];
    let file_id = FileId::new(5);

    let result = pass3_intra_edges(&references, &symbol_to_node, file_id);

    assert_eq!(result.unresolved.len(), 1);
    assert_eq!(result.unresolved[0].line, 100);
    assert_eq!(result.unresolved[0].column, 25);
    assert_eq!(result.unresolved[0].source_file, file_id);
}
#[test]
fn test_pass3_legacy_gives_the_same_edges() {
    let mut symbols = SymbolTable::new();
    symbols.insert("a".to_string(), NodeId::new(0, 1));
    symbols.insert("b".to_string(), NodeId::new(1, 1));
    let references = vec![
        create_test_reference("a", "b", "call"),
        create_test_reference("b", "c", "call"),
    ];

    let result = pass3_intra_edges(&references, &symbols, FileId::new(3));
    let (stats, edges) = pass3_intra_edges_legacy(&references, &symbols, FileId::new(3));

    assert_eq!(stats.references_processed, result.stats.references_processed);
    assert_eq!(stats.unresolved_references, 1);
    assert_eq!(edges.len(), 1);
    assert_eq!(edges[0].source, result.edges[0].source);
    assert_eq!(edges[0].target, result.edges[0].target);
    assert_eq!(edges[0].file, FileId::new(3));
}

#[test]
fn test_pass3_accounts_for_every_reference() {
    let mut symbols = SymbolTable::new();
    symbols.insert("a".to_string(), NodeId::new(0, 1));
    symbols.insert("b".to_string(), NodeId::new(1, 1));
    let references = vec![
        create_test_reference("a", "b", "call"),
        create_test_reference("a", "b", "type_reference"),
        create_test_reference("a", "gone", "call"),
        create_test_reference("gone", "a", "call"),
    ];

    let result = pass3_intra_edges(&references, &symbols, FileId::new(0));

    assert_eq!(
        result.stats.calls_edges_created
            + result.stats.references_edges_created
            + result.stats.unresolved_references,
        result.stats.references_processed
    );
    assert_eq!(result.edges.len(), 2);
    assert_eq!(result.unresolved.len(), 1);
}

#[test]
fn test_pass3_location_becomes_a_point_span() {
    let mut symbols = SymbolTable::new();
    symbols.insert("a".to_string(), NodeId::new(0, 1));
    symbols.insert("b".to_string(), NodeId::new(1, 1));
    let references = vec![
        IntraFileReference::with_location(
            "a".to_string(),
            "b".to_string(),
            "call".to_string(),
            7,
            3,
        ),
        create_test_reference("a", "b", "call"),
    ];

    let result = pass3_intra_edges(&references, &symbols, FileId::new(0));

    assert_eq!(result.edges[0].spans.len(), 1);
    assert_eq!(result.edges[0].spans[0].start.column, 3);
    assert_eq!(result.edges[0].spans[0].start, result.edges[0].spans[0].end);
    assert!(result.edges[1].spans.is_empty());
}
