//! The code graph: arena, interner, files, indices, edges, metadata and hints.
use vstd::prelude::*;

use crate::arena::{live, NodeArena, Slot};
use crate::bind::{
    AliasTable, BindingPlane, BindingView, ScopeArena, ScopeProvenanceStore, ShadowTable,
};
use crate::c_indirect::{tables_of, tables_wf, CIndirectSideTables, TablesView};
use crate::edges::{EdgeStore, StoreView};
use crate::files::{FileRegistry, RegistryView};
use crate::hints::{GoHints, HintsView};
use crate::ids::NodeId;
use crate::indices::{rows_with_nodes, AuxiliaryIndices, IndexRow};
use crate::metadata::{MetadataView, NodeMetadataStore};
use crate::strings::{text_of, InternerView, StringInterner};

verus! {

/// A code graph.
pub struct CodeGraph {
    pub nodes: NodeArena,
    pub strings: StringInterner,
    pub files: FileRegistry,
    pub indices: AuxiliaryIndices,
    pub edges: EdgeStore,
    pub macro_metadata: NodeMetadataStore,
    pub go_hints: GoHints,
    pub c_indirect: Option<CIndirectSideTables>,
    pub binding: BindingPlane,
    /// Number of the build that the facts of the graph come from.
    pub fact_epoch: u64,
}

/// Contents of a code graph.
pub struct GraphView {
    pub nodes: Seq<Slot>,
    pub strings: InternerView,
    pub files: RegistryView,
    pub indices: Seq<IndexRow>,
    pub edges: StoreView,
    pub metadata: MetadataView,
    pub hints: HintsView,
    pub c_indirect: Option<TablesView>,
    pub binding: BindingView,
    pub fact_epoch: u64,
}

impl View for CodeGraph {
    type V = GraphView;

    open spec fn view(&self) -> GraphView {
        GraphView {
            nodes: self.nodes@,
            strings: self.strings@,
            files: self.files@,
            indices: self.indices@,
            edges: self.edges@,
            metadata: self.macro_metadata@,
            hints: self.go_hints@,
            c_indirect: tables_of(self.c_indirect),
            binding: self.binding@,
            fact_epoch: self.fact_epoch,
        }
    }
}

/// The text of the qualified name of `node`.
pub open spec fn qn_text(slots: Seq<Slot>, strings: InternerView, node: NodeId) -> Option<
    Seq<char>,
> {
    match live(slots, node) {
        Some(e) => match e.qualified_name {
            Some(q) => strings.resolve(q),
            None => None,
        },
        None => None,
    }
}

impl GraphView {
    /// The text of the qualified name of `node`.
    pub open spec fn qn(self, node: NodeId) -> Option<Seq<char>> {
        qn_text(self.nodes, self.strings, node)
    }
}

impl CodeGraph {
    /// The interner, the metadata store and the tables of calls through C function
    /// pointers are well formed.
    pub open spec fn wf(&self) -> bool {
        self.strings.wf() && self.macro_metadata.wf() && tables_wf(self@.c_indirect)
    }

    /// A graph without nodes.
    pub fn new() -> (r: CodeGraph)
        ensures
            r.wf(),
            r@.nodes == Seq::<Slot>::empty(),
            r@.strings.text == seq![None::<Seq<char>>],
            r@.strings.refs == seq![0u32],
            r@.files.files.len() == 0,
            r@.files.buckets.len() == 0,
            r@.indices == Seq::<IndexRow>::empty(),
            r@.edges.edges.len() == 0,
            r@.edges.next_seq == 0,
            r@.metadata == MetadataView::empty(),
            r@.hints == HintsView::none(),
            r@.c_indirect is None,
            r@.binding.scopes.len() == 0,
            r@.binding.aliases.len() == 0,
            r@.binding.shadows.len() == 0,
            r@.binding.provenance.len() == 0,
            r@.fact_epoch == 0,
    {
        CodeGraph {
            nodes: NodeArena::new(),
            strings: StringInterner::new(),
            files: FileRegistry::new(),
            indices: AuxiliaryIndices::new(),
            edges: EdgeStore::new(),
            macro_metadata: NodeMetadataStore::new(),
            go_hints: GoHints::new(),
            c_indirect: None,
            binding: BindingPlane::new(),
            fact_epoch: 0,
        }
    }

    /// The node arena.
    pub fn nodes(&self) -> (r: &NodeArena)
        ensures
            *r == self.nodes,
    {
        &self.nodes
    }

    /// The node arena, for changing.
    pub fn nodes_mut(&mut self) -> (r: &mut NodeArena)
        ensures
            *r == old(self).nodes,
            *final(self) == (CodeGraph { nodes: *final(r), ..*old(self) }),
    {
        &mut self.nodes
    }

    /// The interner.
    pub fn strings(&self) -> (r: &StringInterner)
        ensures
            *r == self.strings,
    {
        &self.strings
    }

    /// The interner, for changing.
    pub fn strings_mut(&mut self) -> (r: &mut StringInterner)
        ensures
            *r == old(self).strings,
            *final(self) == (CodeGraph { strings: *final(r), ..*old(self) }),
    {
        &mut self.strings
    }

    /// The file registry.
    pub fn files(&self) -> (r: &FileRegistry)
        ensures
            *r == self.files,
    {
        &self.files
    }

    /// The file registry, for changing.
    pub fn files_mut(&mut self) -> (r: &mut FileRegistry)
        ensures
            *r == old(self).files,
            *final(self) == (CodeGraph { files: *final(r), ..*old(self) }),
    {
        &mut self.files
    }

    /// The indices.
    pub fn indices(&self) -> (r: &AuxiliaryIndices)
        ensures
            *r == self.indices,
    {
        &self.indices
    }

    /// The edge store.
    pub fn edges(&self) -> (r: &EdgeStore)
        ensures
            *r == self.edges,
    {
        &self.edges
    }

    /// The edge store, for changing.
    pub fn edges_mut(&mut self) -> (r: &mut EdgeStore)
        ensures
            *r == old(self).edges,
            *final(self) == (CodeGraph { edges: *final(r), ..*old(self) }),
    {
        &mut self.edges
    }

    /// The metadata store.
    pub fn macro_metadata(&self) -> (r: &NodeMetadataStore)
        ensures
            *r == self.macro_metadata,
    {
        &self.macro_metadata
    }

    /// The metadata store, for changing.
    pub fn macro_metadata_mut(&mut self) -> (r: &mut NodeMetadataStore)
        ensures
            *r == old(self).macro_metadata,
            *final(self) == (CodeGraph { macro_metadata: *final(r), ..*old(self) }),
    {
        &mut self.macro_metadata
    }

    /// The Go hints.
    pub fn go_hints(&self) -> (r: &GoHints)
        ensures
            *r == self.go_hints,
    {
        &self.go_hints
    }

    /// The Go hints, for changing.
    pub fn go_hints_mut(&mut self) -> (r: &mut GoHints)
        ensures
            *r == old(self).go_hints,
            *final(self) == (CodeGraph { go_hints: *final(r), ..*old(self) }),
    {
        &mut self.go_hints
    }

    /// What is known of calls through C function pointers, where there is any C code.
    pub fn c_indirect_tables(&self) -> (r: Option<&CIndirectSideTables>)
        ensures
            match r {
                Some(t) => self.c_indirect == Some(*t),
                None => self.c_indirect is None,
            },
    {
        match &self.c_indirect {
            Some(t) => Some(t),
            None => None,
        }
    }

    /// What is known of calls through C function pointers, for changing.
    pub fn c_indirect_tables_mut(&mut self) -> (r: &mut Option<CIndirectSideTables>)
        ensures
            *r == old(self).c_indirect,
            *final(self) == (CodeGraph { c_indirect: *final(r), ..*old(self) }),
    {
        &mut self.c_indirect
    }

    /// The scopes.
    pub fn scope_arena(&self) -> (r: &ScopeArena)
        ensures
            *r == self.binding.scopes,
    {
        &self.binding.scopes
    }

    /// The imported names.
    pub fn alias_table(&self) -> (r: &AliasTable)
        ensures
            *r == self.binding.aliases,
    {
        &self.binding.aliases
    }

    /// The definitions of variables and parameters.
    pub fn shadow_table(&self) -> (r: &ShadowTable)
        ensures
            *r == self.binding.shadows,
    {
        &self.binding.shadows
    }

    /// Where the scopes come from.
    pub fn scope_provenance_store(&self) -> (r: &ScopeProvenanceStore)
        ensures
            *r == self.binding.provenance,
    {
        &self.binding.provenance
    }

    /// Indexes each of `nodes` that is live.
    pub fn rebuild_qualified_name_index_for_new_nodes(&mut self, nodes: &Vec<NodeId>)
        requires
            old(self).wf(),
        ensures
            final(self).wf(),
            final(self)@ == (GraphView {
                indices: rows_with_nodes(
                    old(self)@.indices,
                    old(self)@.nodes,
                    nodes@,
                    nodes@.len() as int,
                ),
                ..old(self)@
            }),
    {
        self.indices.add_nodes(&self.nodes, nodes);
    }

    /// The text of the qualified name of `node`.
    pub fn qualified_name_string(&self, node: NodeId) -> (r: Option<String>)
        ensures
            text_of(r) == self@.qn(node),
    {
        match self.nodes.get(node) {
            Some(e) => match e.qualified_name {
                Some(q) => self.strings.resolve(q),
                None => None,
            },
            None => None,
        }
    }
}

} // verus!
