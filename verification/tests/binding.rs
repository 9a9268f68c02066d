//! Scopes, aliases and shadowed names.

use std::collections::BTreeSet;

use sqry_build::arena::NodeEntry;
use sqry_build::bind::{
    AliasEntry, AliasTable, ScopeArena, ScopeId, ScopeKind, ScopeProvenanceStore, ShadowEntry,
    ShadowTable,
};
use sqry_build::graph::CodeGraph;
use sqry_build::ids::{NodeId, StringId};
use sqry_build::kinds::{EdgeKind, NodeKind};
use sqry_build::parallel_commit::finalize::rebuild_indices;
use sqry_build::phase4e_binding::{derive_binding_plane, derive_binding_plane_generic};

struct SeedHandles {
    alias_local_name: StringId,
    alias_target_name: StringId,
    shadow_symbol: StringId,
    shadow_outer_offset: u32,
    shadow_inner_offset: u32,
}

fn intern(graph: &mut CodeGraph, s: &str) -> StringId {
    graph.strings_mut().intern(s).expect("intern")
}

fn place(
    graph: &mut CodeGraph,
    mut entry: NodeEntry,
    qualified_name: StringId,
    bytes: (u32, u32),
    lines: (u32, u32),
) -> NodeId {
    entry.qualified_name = Some(qualified_name);
    entry.start_byte = bytes.0;
    entry.end_byte = bytes.1;
    entry.start_line = lines.0;
    entry.end_line = lines.1;
    graph.nodes_mut().allocate(entry).expect("allocate")
}

fn seed(graph: &mut CodeGraph, file_suffix: &str) -> SeedHandles {
    let path = format!("/virtual/bind_{file_suffix}.rs");
    let file = graph.files_mut().register(&path).expect("register test file");

    let mod_name = intern(graph, "my_mod");
    let fn_name = intern(graph, "my_fn");
    let import_local = intern(graph, "baz");
    let import_target = intern(graph, "foo::bar");
    let x = intern(graph, "x");

    let module =
        place(graph, NodeEntry::new(NodeKind::Module, mod_name, file), mod_name, (0, 200), (1, 20));
    let function =
        place(graph, NodeEntry::new(NodeKind::Function, fn_name, file), fn_name, (20, 150), (2, 15));
    let import = place(
        graph,
        NodeEntry::new(NodeKind::Import, import_local, file),
        import_target,
        (2, 18),
        (1, 1),
    );
    let outer = place(graph, NodeEntry::new(NodeKind::Variable, x, file), x, (30, 35), (3, 3));
    let inner = place(graph, NodeEntry::new(NodeKind::Variable, x, file), x, (80, 85), (8, 8));
    rebuild_indices(graph);

    let edges = graph.edges_mut();
    edges.add_edge(module, function, EdgeKind::Contains, file);
    edges.add_edge(module, import, EdgeKind::Contains, file);
    edges.add_edge(module, outer, EdgeKind::Contains, file);
    edges.add_edge(function, outer, EdgeKind::Contains, file);
    edges.add_edge(function, inner, EdgeKind::Contains, file);
    edges.add_edge(
        module,
        import,
        EdgeKind::Imports { alias: Some(import_local), is_wildcard: false },
        file,
    );

    SeedHandles {
        alias_local_name: import_local,
        alias_target_name: import_target,
        shadow_symbol: x,
        shadow_outer_offset: 30,
        shadow_inner_offset: 80,
    }
}

/// What a scope handle stands for, whatever its place in the arena.
#[derive(Clone, Debug, PartialEq)]
enum ScopeIdentity {
    Invalid,
    Stale,
    Live(ScopeKind, (u32, u32), u32),
}

fn scope_identity(id: ScopeId, arena: &ScopeArena) -> ScopeIdentity {
    if id.is_invalid() {
        return ScopeIdentity::Invalid;
    }
    match arena.get(id) {
        Some(scope) => ScopeIdentity::Live(scope.kind, scope.byte_span, scope.file.index()),
        None => ScopeIdentity::Stale,
    }
}

fn project_alias_entries(
    table: &AliasTable,
    arena: &ScopeArena,
) -> Vec<(ScopeIdentity, StringId, StringId, NodeId, bool)> {
    table
        .entries
        .iter()
        .map(|e: &AliasEntry| {
            (
                scope_identity(e.scope, arena),
                e.from_symbol,
                e.to_symbol,
                e.import_node,
                e.is_wildcard,
            )
        })
        .collect()
}

fn project_shadow_entries(
    table: &ShadowTable,
    arena: &ScopeArena,
) -> Vec<(ScopeIdentity, StringId, u32, NodeId)> {
    table
        .entries
        .iter()
        .map(|e: &ShadowEntry| {
            (scope_identity(e.scope, arena), e.symbol, e.byte_offset, e.node)
        })
        .collect()
}

fn project_provenance_stable_ids(
    store: &ScopeProvenanceStore,
) -> Vec<(String, ScopeKind, (u32, u32))> {
    store
        .records
        .iter()
        .map(|p| (p.stable_id.file.path.clone(), p.stable_id.kind, p.stable_id.byte_span))
        .collect()
}

fn has_expected_alias(graph: &CodeGraph, handles: &SeedHandles) -> bool {
    graph.alias_table().entries.iter().any(|e| {
        e.from_symbol == handles.alias_local_name
            && e.to_symbol == handles.alias_target_name
            && !e.is_wildcard
    })
}

fn has_shadow_at(graph: &CodeGraph, symbol: StringId, offset: u32) -> bool {
    graph.shadow_table().entries.iter().any(|e| e.symbol == symbol && e.byte_offset == offset)
}

fn scope_kinds(graph: &CodeGraph) -> BTreeSet<ScopeKind> {
    graph.scope_arena().scopes.iter().map(|s| s.kind).collect()
}

fn has_scope_of(graph: &CodeGraph, kind: ScopeKind) -> bool {
    graph.scope_arena().scopes.iter().any(|s| s.kind == kind)
}

#[test]
fn derive_binding_plane_runs_against_rebuild_graph() {
    let mut cg = CodeGraph::new();
    let cg_handles = seed(&mut cg, "cg");
    let cg_stats = derive_binding_plane_generic(&mut cg);

    assert!(cg.scope_arena().len() > 0);
    assert!(!cg.alias_table().is_empty());
    assert!(!cg.shadow_table().is_empty());
    assert!(!cg.scope_provenance_store().is_empty());

    let mut rb = CodeGraph::new();
    let rb_handles = seed(&mut rb, "cg");
    let rb_stats = derive_binding_plane_generic(&mut rb);

    assert_eq!(cg_handles.alias_local_name, rb_handles.alias_local_name);
    assert_eq!(cg_handles.alias_target_name, rb_handles.alias_target_name);
    assert_eq!(cg_handles.shadow_symbol, rb_handles.shadow_symbol);

    assert_eq!(cg_stats.scopes, rb_stats.scopes);
    assert_eq!(cg_stats.aliases, rb_stats.aliases);
    assert_eq!(cg_stats.shadows, rb_stats.shadows);

    assert!(!rb.scope_arena().is_empty());
    assert!(!rb.alias_table().is_empty());
    assert!(!rb.shadow_table().is_empty());
    assert!(!rb.scope_provenance_store().is_empty());

    assert_eq!(cg.scope_arena().len(), rb.scope_arena().len());
    assert_eq!(scope_kinds(&cg), scope_kinds(&rb));
    assert!(has_scope_of(&rb, ScopeKind::Module));
    assert!(has_scope_of(&rb, ScopeKind::Function));

    assert_eq!(
        project_alias_entries(cg.alias_table(), cg.scope_arena()),
        project_alias_entries(rb.alias_table(), rb.scope_arena())
    );
    assert!(has_expected_alias(&rb, &rb_handles));

    assert_eq!(
        project_shadow_entries(cg.shadow_table(), cg.scope_arena()),
        project_shadow_entries(rb.shadow_table(), rb.scope_arena())
    );
    assert!(has_shadow_at(&rb, rb_handles.shadow_symbol, rb_handles.shadow_outer_offset));
    assert!(has_shadow_at(&rb, rb_handles.shadow_symbol, rb_handles.shadow_inner_offset));

    assert_eq!(
        project_provenance_stable_ids(cg.scope_provenance_store()),
        project_provenance_stable_ids(rb.scope_provenance_store())
    );
    assert_eq!(rb.scope_provenance_store().len(), rb.scope_arena().len());
    for record in &rb.scope_provenance_store().records {
        assert_eq!(record.first_seen_epoch, rb.fact_epoch);
        assert_eq!(record.last_seen_epoch, rb.fact_epoch);
    }
}

#[test]
fn derive_binding_plane_incremental_runs_against_rebuild_graph() {
    let mut cg = CodeGraph::new();
    seed(&mut cg, "cg_inc");
    let cg_stats = derive_binding_plane(&mut cg);

    let mut rb = CodeGraph::new();
    let handles = seed(&mut rb, "cg_inc");
    let rb_stats = derive_binding_plane_generic(&mut rb);

    assert!(rb_stats.scopes > 0);
    assert_eq!(cg_stats.scopes, rb_stats.scopes);
    assert_eq!(cg_stats.aliases, rb_stats.aliases);
    assert_eq!(cg_stats.shadows, rb_stats.shadows);

    assert!(!rb.scope_arena().is_empty());
    assert!(!rb.alias_table().is_empty());
    assert!(!rb.shadow_table().is_empty());
    assert!(!rb.scope_provenance_store().is_empty());

    assert_eq!(
        project_alias_entries(cg.alias_table(), cg.scope_arena()),
        project_alias_entries(rb.alias_table(), rb.scope_arena())
    );
    assert_eq!(
        project_shadow_entries(cg.shadow_table(), cg.scope_arena()),
        project_shadow_entries(rb.shadow_table(), rb.scope_arena())
    );
    assert_eq!(
        project_provenance_stable_ids(cg.scope_provenance_store()),
        project_provenance_stable_ids(rb.scope_provenance_store())
    );

    assert!(has_expected_alias(&rb, &handles));
    assert!(has_shadow_at(&rb, handles.shadow_symbol, handles.shadow_outer_offset));
    assert!(has_shadow_at(&rb, handles.shadow_symbol, handles.shadow_inner_offset));
}

fn corrupt_alias_scope(table: &AliasTable, corrupt_to: ScopeId) -> AliasTable {
    let mut entries: Vec<AliasEntry> = table.entries.to_vec();
    assert!(!entries.is_empty());
    entries[0].scope = corrupt_to;
    AliasTable { entries }
}

fn corrupt_shadow_scope(table: &ShadowTable, corrupt_to: ScopeId) -> ShadowTable {
    let mut entries: Vec<ShadowEntry> = table.entries.to_vec();
    assert!(!entries.is_empty());
    entries[0].scope = corrupt_to;
    ShadowTable { entries }
}

#[test]
fn scope_corruption_in_alias_table_is_caught_by_phase4e_tests() {
    let mut cg = CodeGraph::new();
    seed(&mut cg, "corrupt_baseline");
    derive_binding_plane_generic(&mut cg);
    let baseline_alias = project_alias_entries(cg.alias_table(), cg.scope_arena());
    let baseline_shadow = project_shadow_entries(cg.shadow_table(), cg.scope_arena());

    let mut rb = CodeGraph::new();
    seed(&mut rb, "corrupt_baseline");
    derive_binding_plane_generic(&mut rb);
    assert_eq!(baseline_alias, project_alias_entries(rb.alias_table(), rb.scope_arena()));
    assert_eq!(baseline_shadow, project_shadow_entries(rb.shadow_table(), rb.scope_arena()));
    assert!(!rb.alias_table().is_empty());
    assert!(!rb.shadow_table().is_empty());

    // No scope at all.
    let invalid = corrupt_alias_scope(rb.alias_table(), ScopeId::invalid());
    assert_ne!(baseline_alias, project_alias_entries(&invalid, rb.scope_arena()));

    // Another live scope.
    let first = rb.shadow_table().entries[0].scope;
    let original = scope_identity(first, rb.scope_arena());
    let mut wrong: Option<ScopeId> = None;
    for i in 0..rb.scope_arena().len() {
        let candidate = ScopeId::new(i as u32, first.generation);
        if scope_identity(candidate, rb.scope_arena()) != original {
            wrong = Some(candidate);
        }
    }
    let wrong = wrong.expect("two distinct scopes");
    assert!(matches!(scope_identity(wrong, rb.scope_arena()), ScopeIdentity::Live(_, _, _)));
    let swapped = corrupt_shadow_scope(rb.shadow_table(), wrong);
    assert_ne!(baseline_shadow, project_shadow_entries(&swapped, rb.scope_arena()));

    // A scope that is not there.
    let stale_scope = ScopeId::new(u32::MAX - 1, u64::MAX);
    assert!(!stale_scope.is_invalid());
    assert!(rb.scope_arena().get(stale_scope).is_none());
    let stale = corrupt_alias_scope(rb.alias_table(), stale_scope);
    assert_ne!(baseline_alias, project_alias_entries(&stale, rb.scope_arena()));
}

#[test]
fn broken_alias_table_setter_is_caught_by_phase4e_tests() {
    let mut graph = CodeGraph::new();
    seed(&mut graph, "broken");
    derive_binding_plane_generic(&mut graph);

    assert!(!graph.alias_table().is_empty());
    assert!(!graph.shadow_table().is_empty());
    assert!(!graph.scope_provenance_store().is_empty());
    assert!(!graph.scope_arena().is_empty());

    graph.binding.aliases = AliasTable::new();
    assert!(graph.alias_table().is_empty());
    derive_binding_plane_generic(&mut graph);
    assert!(!graph.alias_table().is_empty());

    graph.binding.shadows = ShadowTable::new();
    assert!(graph.shadow_table().is_empty());
    derive_binding_plane_generic(&mut graph);
    assert!(!graph.shadow_table().is_empty());

    graph.binding.provenance = ScopeProvenanceStore::new();
    assert!(graph.scope_provenance_store().is_empty());
    derive_binding_plane_generic(&mut graph);
    assert!(!graph.scope_provenance_store().is_empty());
}

#[test]
fn deriving_twice_changes_nothing() {
    let mut graph = CodeGraph::new();
    seed(&mut graph, "twice");
    let first = derive_binding_plane(&mut graph);
    let aliases = project_alias_entries(graph.alias_table(), graph.scope_arena());
    let shadows = project_shadow_entries(graph.shadow_table(), graph.scope_arena());

    let second = derive_binding_plane(&mut graph);

    assert_eq!(first, second);
    assert_eq!(aliases, project_alias_entries(graph.alias_table(), graph.scope_arena()));
    assert_eq!(shadows, project_shadow_entries(graph.shadow_table(), graph.scope_arena()));
}

#[test]
fn empty_graph_has_an_empty_plane() {
    let mut graph = CodeGraph::new();
    let stats = derive_binding_plane(&mut graph);
    assert_eq!(stats.scopes, 0);
    assert_eq!(stats.aliases, 0);
    assert_eq!(stats.aliases_with_invalid_scope, 0);
    assert_eq!(stats.shadows, 0);
}

#[test]
fn import_without_a_scope_is_counted_once() {
    let mut graph = CodeGraph::new();
    let file = graph.files_mut().register("/virtual/unscoped.rs").expect("register test file");
    let name = intern(&mut graph, "baz");
    let other = intern(&mut graph, "qux");
    let target = intern(&mut graph, "foo::bar");
    let import = NodeEntry::new(NodeKind::Import, name, file);
    let import = place(&mut graph, import, target, (2, 18), (1, 1));
    let lone = NodeEntry::new(NodeKind::Import, other, file);
    let lone = place(&mut graph, lone, other, (20, 30), (2, 2));
    let user = NodeEntry::new(NodeKind::Variable, other, file);
    let user = place(&mut graph, user, other, (40, 50), (3, 3));
    rebuild_indices(&mut graph);
    let edges = graph.edges_mut();
    for alias in [None, Some(name), Some(other)] {
        edges.add_edge(user, import, EdgeKind::Imports { alias, is_wildcard: false }, file);
    }

    let stats = derive_binding_plane(&mut graph);
    assert_eq!(stats.aliases, 3);
    assert_eq!(stats.aliases_with_invalid_scope, 1);

    let kind = EdgeKind::Imports { alias: None, is_wildcard: true };
    graph.edges_mut().add_edge(user, lone, kind, file);
    let stats = derive_binding_plane(&mut graph);
    assert_eq!(stats.aliases, 4);
    assert_eq!(stats.aliases_with_invalid_scope, 2);
}
