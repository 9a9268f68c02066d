//! Edges between files.

use sqry_build::ids::{FileId, NodeId, StringId};
use sqry_build::kinds::{EdgeKind, ResolvedVia};
use sqry_build::pass3_intra::UnresolvedRef;
use sqry_build::pass4_cross::{build_export_map, pass4_cross_file, ExportMap, ImportDecl};
use sqry_build::symbols::SymbolTable;

#[test]
fn test_export_map_register_and_lookup() {
    let mut export_map = ExportMap::new();
    let file_id = FileId::new(0);
    let node_id = NodeId::new(1, 1);

    export_map.register("module::MyClass".to_string(), file_id, node_id);

    assert!(export_map.contains("module::MyClass"));
    assert!(!export_map.contains("other::Class"));

    let result = export_map.lookup("module::MyClass");
    assert_eq!(result, Some((file_id, node_id)));
}

#[test]
fn test_export_map_remove_file() {
    let mut export_map = ExportMap::new();
    let file_a = FileId::new(0);
    let file_b = FileId::new(1);

    export_map.register("a::Foo".to_string(), file_a, NodeId::new(0, 1));
    export_map.register("a::Bar".to_string(), file_a, NodeId::new(1, 1));
    export_map.register("b::Baz".to_string(), file_b, NodeId::new(2, 1));

    assert_eq!(export_map.len(), 3);

    export_map.remove_file(file_a);

    assert_eq!(export_map.len(), 1);
    assert!(!export_map.contains("a::Foo"));
    assert!(!export_map.contains("a::Bar"));
    assert!(export_map.contains("b::Baz"));
}

#[test]
fn test_pass4_resolves_cross_file_call() {
    let mut export_map = ExportMap::new();
    let file_a = FileId::new(0);
    let file_b = FileId::new(1);
    let source_node = NodeId::new(0, 1);
    let target_node = NodeId::new(1, 1);

    // Register target in file B
    export_map.register("module_b::helper".to_string(), file_b, target_node);

    // Unresolved reference from file A with default/unknown call metadata
    let unresolved = vec![UnresolvedRef {
        source_node,
        target_name: "module_b::helper".to_string(),
        kind: EdgeKind::Calls {
            argument_count: 255,
            is_async: false,
            resolved_via: ResolvedVia::Direct,
        },
        source_file: file_a,
        line: 0,
        column: 0,
        has_location: false,
    }];

    let (stats, edges) = pass4_cross_file(&unresolved, &[], &export_map, None, file_a);

    assert_eq!(stats.unresolved_processed, 1);
    assert_eq!(stats.cross_file_calls, 1);
    assert_eq!(stats.still_unresolved, 0);
    assert_eq!(edges.len(), 1);

    let edge = &edges[0];
    assert_eq!(edge.source, source_node);
    assert_eq!(edge.target, target_node);
    assert!(matches!(
        edge.kind,
        EdgeKind::Calls {
            argument_count: 255,
            is_async: false,
            resolved_via: ResolvedVia::Direct,
        }
    ));
}

#[test]
fn test_pass4_preserves_call_metadata() {
    let mut export_map = ExportMap::new();
    let file_a = FileId::new(0);
    let file_b = FileId::new(1);
    let source_node = NodeId::new(0, 1);
    let target_node = NodeId::new(1, 1);

    // Register target in file B
    export_map.register("module_b::async_helper".to_string(), file_b, target_node);

    // Unresolved reference from file A with async call and 3 arguments
    let unresolved = vec![UnresolvedRef {
        source_node,
        target_name: "module_b::async_helper".to_string(),
        kind: EdgeKind::Calls {
            argument_count: 3,
            is_async: true,
            resolved_via: ResolvedVia::Direct,
        },
        source_file: file_a,
        line: 10,
        column: 5,
        has_location: true,
    }];

    let (stats, edges) = pass4_cross_file(&unresolved, &[], &export_map, None, file_a);

    assert_eq!(stats.unresolved_processed, 1);
    assert_eq!(stats.cross_file_calls, 1);
    assert_eq!(edges.len(), 1);

    let edge = &edges[0];
    // Verify that call metadata (argument_count, is_async) is preserved
    assert!(matches!(
        edge.kind,
        EdgeKind::Calls {
            argument_count: 3,
            is_async: true,
            resolved_via: ResolvedVia::Direct,
        }
    ));
}

#[test]
fn test_pass4_creates_imports_edge() {
    let mut export_map = ExportMap::new();
    let file_a = FileId::new(0);
    let file_b = FileId::new(1);
    let file_node = NodeId::new(10, 1);
    let target_node = NodeId::new(1, 1);

    export_map.register("module_b::Widget".to_string(), file_b, target_node);

    let imports = vec![ImportDecl {
        imported_name: "module_b::Widget".to_string(),
        alias_name: None,
        alias_id: None,
        is_wildcard: false,
        line: 1,
    }];

    let (stats, edges) = pass4_cross_file(&[], &imports, &export_map, Some(file_node), file_a);

    assert_eq!(stats.imports_created, 1);
    assert_eq!(edges.len(), 1);

    let edge = &edges[0];
    assert_eq!(edge.source, file_node);
    assert_eq!(edge.target, target_node);
    assert!(matches!(
        edge.kind,
        EdgeKind::Imports {
            alias: None,
            is_wildcard: false
        }
    ));
}

#[test]
fn test_pass4_import_edge_preserves_metadata() {
    let mut export_map = ExportMap::new();
    let file_a = FileId::new(0);
    let file_b = FileId::new(1);
    let file_node = NodeId::new(10, 1);
    let target_node = NodeId::new(1, 1);

    export_map.register("module_b::Widget".to_string(), file_b, target_node);

    let alias_id = StringId::new(7);
    let imports = vec![ImportDecl {
        imported_name: "module_b::Widget".to_string(),
        alias_name: Some("W".to_string()),
        alias_id: Some(alias_id),
        is_wildcard: true,
        line: 1,
    }];

    let (stats, edges) = pass4_cross_file(&[], &imports, &export_map, Some(file_node), file_a);

    assert_eq!(stats.imports_created, 1);
    assert_eq!(edges.len(), 1);
    assert!(matches!(
        edges[0].kind,
        EdgeKind::Imports {
            alias: Some(id),
            is_wildcard: true,
        } if id == alias_id
    ));
}

#[test]
fn test_pass4_resolves_alias() {
    let mut export_map = ExportMap::new();
    let file_a = FileId::new(0);
    let file_b = FileId::new(1);
    let source_node = NodeId::new(0, 1);
    let target_node = NodeId::new(1, 1);

    export_map.register(
        "very::long::module::path::Helper".to_string(),
        file_b,
        target_node,
    );

    // Import with alias
    let imports = vec![ImportDecl {
        imported_name: "very::long::module::path::Helper".to_string(),
        alias_name: Some("Helper".to_string()),
        alias_id: Some(StringId::new(42)),
        is_wildcard: false,
        line: 1,
    }];

    // Reference uses the alias (type reference)
    let unresolved = vec![UnresolvedRef {
        source_node,
        target_name: "Helper".to_string(),
        kind: EdgeKind::References,
        source_file: file_a,
        line: 5,
        column: 10,
        has_location: true,
    }];

    let (stats, edges) = pass4_cross_file(&unresolved, &imports, &export_map, None, file_a);

    assert_eq!(stats.cross_file_references, 1);
    assert_eq!(edges.len(), 1);
    assert_eq!(edges[0].target, target_node);
}

#[test]
fn test_pass4_unresolved_remains_unresolved() {
    let export_map = ExportMap::new(); // Empty
    let file_a = FileId::new(0);
    let source_node = NodeId::new(0, 1);

    let unresolved = vec![UnresolvedRef {
        source_node,
        target_name: "unknown::symbol".to_string(),
        kind: EdgeKind::Calls {
            argument_count: 2,
            is_async: false,
            resolved_via: ResolvedVia::Direct,
        },
        source_file: file_a,
        line: 0,
        column: 0,
        has_location: false,
    }];

    let (stats, edges) = pass4_cross_file(&unresolved, &[], &export_map, None, file_a);

    assert_eq!(stats.unresolved_processed, 1);
    assert_eq!(stats.still_unresolved, 1);
    assert_eq!(stats.cross_file_calls, 0);
    assert!(edges.is_empty());
}

#[test]
fn test_build_export_map() {
    let file_a = FileId::new(0);
    let file_b = FileId::new(1);

    let mut symbols_a = SymbolTable::new();
    symbols_a.insert("a::Foo".to_string(), NodeId::new(0, 1));
    symbols_a.insert("a::Bar".to_string(), NodeId::new(1, 1));

    let mut symbols_b = SymbolTable::new();
    symbols_b.insert("b::Baz".to_string(), NodeId::new(2, 1));

    let files = vec![(file_a, &symbols_a), (file_b, &symbols_b)];

    let export_map = build_export_map(&files);

    assert_eq!(export_map.len(), 3);
    assert!(export_map.contains("a::Foo"));
    assert!(export_map.contains("a::Bar"));
    assert!(export_map.contains("b::Baz"));
}
fn call_to(name: &str, source: NodeId, file: FileId) -> UnresolvedRef {
    UnresolvedRef {
        source_node: source,
        target_name: name.to_string(),
        kind: EdgeKind::Calls {
            argument_count: 1,
            is_async: false,
            resolved_via: ResolvedVia::Direct,
        },
        source_file: file,
        line: 0,
        column: 0,
        has_location: false,
    }
}

#[test]
fn test_lookup_prefers_the_first_definition() {
    let mut exports = ExportMap::new();
    assert!(exports.is_empty());
    exports.register("m::f".to_string(), FileId::new(1), NodeId::new(1, 1));
    exports.register("m::f".to_string(), FileId::new(2), NodeId::new(2, 1));

    assert_eq!(exports.len(), 1);
    assert_eq!(exports.lookup("m::f"), Some((FileId::new(1), NodeId::new(1, 1))));
    assert_eq!(
        exports.lookup_cross_file("m::f", FileId::new(1)),
        Some((FileId::new(2), NodeId::new(2, 1)))
    );
    assert_eq!(exports.lookup("m::g"), None);
    assert_eq!(exports.iter().len(), 1);
}

#[test]
fn test_lookup_cross_file_never_returns_the_file_itself() {
    let mut exports = ExportMap::new();
    exports.register("m::f".to_string(), FileId::new(1), NodeId::new(1, 1));

    assert_eq!(exports.lookup_cross_file("m::f", FileId::new(1)), None);
    assert!(exports.definitions_outside("m::f", FileId::new(1)).is_empty());
    assert_eq!(exports.definitions_outside("m::f", FileId::new(2)).len(), 1);
}

#[test]
fn test_remove_file_keeps_definitions_elsewhere() {
    let mut exports = ExportMap::new();
    exports.register("m::f".to_string(), FileId::new(1), NodeId::new(1, 1));
    exports.register("m::f".to_string(), FileId::new(2), NodeId::new(2, 1));

    exports.remove_file(FileId::new(1));

    assert_eq!(exports.lookup("m::f"), Some((FileId::new(2), NodeId::new(2, 1))));
    exports.remove_file(FileId::new(2));
    assert!(exports.is_empty());
}

#[test]
fn test_pass4_does_not_resolve_inside_the_file() {
    let file = FileId::new(0);
    let mut exports = ExportMap::new();
    exports.register("m::f".to_string(), file, NodeId::new(1, 1));

    let refs = vec![call_to("m::f", NodeId::new(0, 1), file)];
    let (stats, edges) = pass4_cross_file(&refs, &[], &exports, None, file);

    assert_eq!(stats.still_unresolved, 1);
    assert!(edges.is_empty());
}

#[test]
fn test_pass4_accounts_for_every_reference() {
    let file = FileId::new(0);
    let mut exports = ExportMap::new();
    exports.register("m::f".to_string(), FileId::new(1), NodeId::new(1, 1));

    let mut by_type = call_to("m::f", NodeId::new(0, 1), file);
    by_type.kind = EdgeKind::References;
    let refs = vec![
        call_to("m::f", NodeId::new(0, 1), file),
        by_type,
        call_to("m::missing", NodeId::new(0, 1), file),
    ];
    let (stats, edges) = pass4_cross_file(&refs, &[], &exports, None, file);

    assert_eq!(stats.unresolved_processed, 3);
    assert_eq!(stats.cross_file_calls, 1);
    assert_eq!(stats.cross_file_references, 1);
    assert_eq!(stats.still_unresolved, 1);
    assert_eq!(edges.len(), 2);
}

#[test]
fn test_pass4_without_a_file_node_makes_no_import_edge() {
    let mut exports = ExportMap::new();
    exports.register("m::W".to_string(), FileId::new(1), NodeId::new(1, 1));
    let imports = vec![ImportDecl {
        imported_name: "m::W".to_string(),
        alias_name: None,
        alias_id: None,
        is_wildcard: false,
        line: 1,
    }];

    let (stats, edges) = pass4_cross_file(&[], &imports, &exports, None, FileId::new(0));

    assert_eq!(stats.imports_created, 0);
    assert!(edges.is_empty());
}

#[test]
fn exports_are_the_symbols_of_the_files() {
    let first = NodeId::new(0, 1);
    let second = NodeId::new(1, 1);
    let third = NodeId::new(2, 1);
    let mut a = SymbolTable::new();
    a.insert("pkg::f".to_string(), first);
    let mut b = SymbolTable::new();
    b.insert("pkg::f".to_string(), second);
    b.insert("pkg::g".to_string(), third);
    let (x, y) = (FileId::new(4), FileId::new(2));

    let exports = build_export_map(&[(x, &a), (y, &b)]);

    assert_eq!(exports.len(), 2);
    assert!(exports.contains("pkg::f"));
    assert!(!exports.contains("pkg::h"));
    assert_eq!(exports.lookup("pkg::f"), Some((x, first)));
    assert_eq!(exports.lookup("pkg::g"), Some((y, third)));
    assert_eq!(exports.lookup("pkg::h"), None);
    assert_eq!(exports.lookup_cross_file("pkg::f", x), Some((y, second)));
    assert_eq!(exports.lookup_cross_file("pkg::f", y), Some((x, first)));
    assert_eq!(exports.lookup_cross_file("pkg::g", y), None);
}
