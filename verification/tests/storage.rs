//! Nodes, strings, files and edges.

use sqry_build::arena::{NodeArena, NodeEntry};
use sqry_build::edges::EdgeStore;
use sqry_build::files::FileRegistry;
use sqry_build::ids::{FileId, NodeId, StringId};
use sqry_build::kinds::{EdgeKind, Language, NodeKind};
use sqry_build::metadata::{MacroNodeMetadata, NodeMetadataStore};
use sqry_build::strings::StringInterner;

fn entry(name: u32) -> NodeEntry {
    NodeEntry::new(NodeKind::Function, StringId::new(name), FileId::new(0))
}

#[test]
fn removed_node_is_gone_and_its_slot_is_used_again() {
    let mut arena = NodeArena::new();
    let a = arena.allocate(entry(1)).unwrap();
    let b = arena.allocate(entry(2)).unwrap();

    assert_eq!(arena.remove(a).map(|e| e.name), Some(StringId::new(1)));
    assert!(arena.get(a).is_none());
    assert!(arena.remove(a).is_none());

    let c = arena.allocate(entry(3)).unwrap();
    assert_eq!(c.index(), a.index());
    assert_ne!(c, a);
    assert!(!arena.contains(a));
    assert_eq!(arena.get(b).map(|e| e.name), Some(StringId::new(2)));
    assert_eq!(arena.get(c).map(|e| e.name), Some(StringId::new(3)));
    assert_eq!(arena.slot_count(), 2);
}

#[test]
fn allocated_range_follows_the_last_slot() {
    let mut arena = NodeArena::new();
    arena.allocate(entry(1)).unwrap();
    assert_eq!(arena.alloc_range(3, &entry(0)).unwrap(), 1);
    assert_eq!(arena.iter().len(), 4);
    assert!(arena.alloc_range(u32::MAX, &entry(0)).is_err());
    assert_eq!(arena.slot_count(), 4);
}

#[test]
fn interned_string_reads_back() {
    let mut strings = StringInterner::new();
    let a = strings.intern("alpha").unwrap();
    let b = strings.intern("beta").unwrap();
    assert_ne!(a, b);
    assert_eq!(strings.intern("alpha").unwrap(), a);
    assert_eq!(strings.resolve(a).as_deref(), Some("alpha"));
    assert_eq!(strings.get("beta"), Some(b));
    assert_eq!(strings.get("gamma"), None);
    assert_eq!(strings.resolve(StringId::new(99)), None);
}

#[test]
fn registered_file_keeps_its_number() {
    let mut files = FileRegistry::new();
    let a = files.register_with_language("/a.go", Some(Language::Go)).unwrap();
    let b = files.register("/b.txt").unwrap();
    assert_ne!(a, b);
    assert_eq!(files.register_with_language("/a.go", Some(Language::Go)).unwrap(), a);
    assert_eq!(files.resolve(a).as_deref(), Some("/a.go"));
    assert_eq!(files.language_for_file(a), Some(Language::Go));
    assert_eq!(files.language_for_file(b), None);
    assert_eq!(files.files_by_language(Language::Go), vec![a]);
}

#[test]
fn node_buckets_drop_dead_nodes() {
    let mut files = FileRegistry::new();
    let f = files.register("/a.go").unwrap();
    let (x, y) = (NodeId::new(0, 1), NodeId::new(1, 1));
    files.record_node(f, x);
    files.record_node(f, y);
    files.drop_nodes_from_buckets(&vec![x]);
    assert_eq!(files.nodes_for_file(f), vec![y]);
}

#[test]
fn removed_edge_is_gone() {
    let mut edges = EdgeStore::new();
    let (a, b) = (NodeId::new(0, 1), NodeId::new(1, 1));
    let file = FileId::new(0);
    edges.add_edge(a, b, EdgeKind::References, file);
    edges.add_edge(a, b, EdgeKind::Contains, file);
    edges.remove_edge(a, b, &EdgeKind::References, file);

    let left = edges.edges_from(a);
    assert_eq!(left.len(), 1);
    assert!(matches!(left[0].kind, EdgeKind::Contains));
    assert_eq!(edges.edges_to(b).len(), 1);
}

#[test]
fn merged_metadata_holds_both_sides() {
    let mut left = NodeMetadataStore::new();
    let mut right = NodeMetadataStore::new();
    let (a, b) = (NodeId::new(0, 1), NodeId::new(1, 1));
    left.mark_synthetic(a);
    right.insert(
        b,
        MacroNodeMetadata { cfg_condition: Some("unix".to_string()), ..Default::default() },
    );

    left.merge(&right);

    assert!(left.is_synthetic(a));
    assert!(!left.is_synthetic(b));
    assert_eq!(left.get_macro(b).unwrap().cfg_condition.as_deref(), Some("unix"));
    assert_eq!(left.len(), 2);
}
