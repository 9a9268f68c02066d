//! The binding plane: scopes, aliases, shadowed names and where scopes come from.
use vstd::prelude::*;

use crate::ids::{FileId, NodeId, StringId};
use crate::kinds::{EdgeKind, NodeKind};
use crate::lists::views;
use crate::node_map::NodeMap;

verus! {

/// Identity of a scope.
#[derive(Clone, Copy, Debug, PartialEq, Eq, PartialOrd, Ord, Hash, Structural)]
pub struct ScopeId {
    pub index: u32,
    pub generation: u64,
}

impl ScopeId {
    /// The identity of generation `generation` of slot `index`.
    pub fn new(index: u32, generation: u64) -> (r: ScopeId)
        ensures
            r == (ScopeId { index, generation }),
    {
        ScopeId { index, generation }
    }

    /// The identity that names no scope.
    pub open spec fn spec_invalid() -> ScopeId {
        ScopeId { index: u32::MAX, generation: 0 }
    }

    /// The identity that names no scope.
    #[verifier::when_used_as_spec(spec_invalid)]
    pub fn invalid() -> (r: ScopeId)
        ensures
            r == ScopeId::spec_invalid(),
    {
        ScopeId { index: u32::MAX, generation: 0 }
    }

    /// Whether this is the identity that names no scope.
    pub fn is_invalid(&self) -> (r: bool)
        ensures
            r == (*self == ScopeId::spec_invalid()),
    {
        self.index == u32::MAX && self.generation == 0
    }
}

/// What opens a scope.
#[derive(Clone, Copy, Debug, PartialEq, Eq, PartialOrd, Ord, Hash, Structural)]
pub enum ScopeKind {
    Module,
    Function,
    Class,
    Struct,
    Enum,
    Interface,
    Trait,
}

/// The scope that a node of this kind opens.
pub open spec fn scope_kind(kind: NodeKind) -> Option<ScopeKind> {
    match kind {
        NodeKind::Module => Some(ScopeKind::Module),
        NodeKind::Function => Some(ScopeKind::Function),
        NodeKind::Method => Some(ScopeKind::Function),
        NodeKind::Class => Some(ScopeKind::Class),
        NodeKind::Struct => Some(ScopeKind::Struct),
        NodeKind::Enum => Some(ScopeKind::Enum),
        NodeKind::Interface => Some(ScopeKind::Interface),
        NodeKind::Trait => Some(ScopeKind::Trait),
        _ => None,
    }
}

/// The scope that a node of this kind opens.
pub fn find_scope_kind(kind: NodeKind) -> (r: Option<ScopeKind>)
    ensures
        r == scope_kind(kind),
{
    match kind {
        NodeKind::Module => Some(ScopeKind::Module),
        NodeKind::Function => Some(ScopeKind::Function),
        NodeKind::Method => Some(ScopeKind::Function),
        NodeKind::Class => Some(ScopeKind::Class),
        NodeKind::Struct => Some(ScopeKind::Struct),
        NodeKind::Enum => Some(ScopeKind::Enum),
        NodeKind::Interface => Some(ScopeKind::Interface),
        NodeKind::Trait => Some(ScopeKind::Trait),
        _ => None,
    }
}

/// A scope.
#[derive(Clone, Copy, Debug, PartialEq, Eq)]
pub struct Scope {
    pub kind: ScopeKind,
    /// The node that opens the scope.
    pub node: NodeId,
    /// The scope around it.
    pub parent: ScopeId,
    pub byte_span: (u32, u32),
    pub file: FileId,
}

/// All scopes.
#[derive(Debug)]
pub struct ScopeArena {
    pub scopes: Vec<Scope>,
}

impl View for ScopeArena {
    type V = Seq<Scope>;

    open spec fn view(&self) -> Seq<Scope> {
        self.scopes@
    }
}

/// The identity of scope `i`.
pub open spec fn scope_id(i: int) -> ScopeId {
    ScopeId { index: i as u32, generation: 1 }
}

/// The scope that `id` names.
pub open spec fn scope_named(scopes: Seq<Scope>, id: ScopeId) -> Option<Scope> {
    if id.index < scopes.len() && id.generation == 1 {
        Some(scopes[id.index as int])
    } else {
        None
    }
}

impl ScopeArena {
    /// No scope.
    pub fn new() -> (r: ScopeArena)
        ensures
            r@ == Seq::<Scope>::empty(),
    {
        ScopeArena { scopes: Vec::new() }
    }

    /// The scope that `id` names.
    pub fn get(&self, id: ScopeId) -> (r: Option<Scope>)
        ensures
            r == scope_named(self@, id),
    {
        let i: usize = id.index as usize;
        if i < self.scopes.len() && id.generation == 1 {
            Some(self.scopes[i])
        } else {
            None
        }
    }

    /// Number of scopes.
    pub fn len(&self) -> (r: usize)
        ensures
            r == self@.len(),
    {
        self.scopes.len()
    }

    /// Whether there is no scope.
    pub fn is_empty(&self) -> (r: bool)
        ensures
            r == (self@.len() == 0),
    {
        self.scopes.len() == 0
    }
}

/// An imported name.
#[derive(Clone, Copy, Debug, PartialEq, Eq, Structural)]
pub struct AliasEntry {
    /// The scope in which the name is known.
    pub scope: ScopeId,
    /// The name as it is known in the scope.
    pub from_symbol: StringId,
    /// The name that it stands for.
    pub to_symbol: StringId,
    pub import_node: NodeId,
    pub is_wildcard: bool,
}

/// All imported names.
#[derive(Debug)]
pub struct AliasTable {
    pub entries: Vec<AliasEntry>,
}

impl View for AliasTable {
    type V = Seq<AliasEntry>;

    open spec fn view(&self) -> Seq<AliasEntry> {
        self.entries@
    }
}

impl AliasTable {
    /// No name.
    pub fn new() -> (r: AliasTable)
        ensures
            r@ == Seq::<AliasEntry>::empty(),
    {
        AliasTable { entries: Vec::new() }
    }

    /// Number of names.
    pub fn len(&self) -> (r: usize)
        ensures
            r == self@.len(),
    {
        self.entries.len()
    }

    /// Whether there is no name.
    pub fn is_empty(&self) -> (r: bool)
        ensures
            r == (self@.len() == 0),
    {
        self.entries.len() == 0
    }
}

/// A definition of a variable or parameter in a function.
#[derive(Clone, Copy, Debug, PartialEq, Eq, Structural)]
pub struct ShadowEntry {
    pub scope: ScopeId,
    pub symbol: StringId,
    pub byte_offset: u32,
    pub node: NodeId,
}

/// All definitions of variables and parameters.
#[derive(Debug)]
pub struct ShadowTable {
    pub entries: Vec<ShadowEntry>,
}

impl View for ShadowTable {
    type V = Seq<ShadowEntry>;

    open spec fn view(&self) -> Seq<ShadowEntry> {
        self.entries@
    }
}

impl ShadowTable {
    /// No definition.
    pub fn new() -> (r: ShadowTable)
        ensures
            r@ == Seq::<ShadowEntry>::empty(),
    {
        ShadowTable { entries: Vec::new() }
    }

    /// Number of definitions.
    pub fn len(&self) -> (r: usize)
        ensures
            r == self@.len(),
    {
        self.entries.len()
    }

    /// Whether there is no definition.
    pub fn is_empty(&self) -> (r: bool)
        ensures
            r == (self@.len() == 0),
    {
        self.entries.len() == 0
    }
}

/// What identifies a file from one build to the next.
#[derive(Debug, PartialEq, Eq)]
pub struct FileStableId {
    pub path: String,
}

/// What identifies a scope from one build to the next.
#[derive(Debug, PartialEq, Eq)]
pub struct ScopeStableId {
    pub file: FileStableId,
    pub content_hash: [u8; 32],
    pub kind: ScopeKind,
    pub byte_span: (u32, u32),
}

/// Where a scope comes from.
#[derive(Debug, PartialEq, Eq)]
pub struct ScopeProvenance {
    pub scope: ScopeId,
    pub first_seen_epoch: u64,
    pub last_seen_epoch: u64,
    pub stable_id: ScopeStableId,
}

/// Contents of a provenance record.
pub struct ProvenanceView {
    pub scope: ScopeId,
    pub first_seen_epoch: u64,
    pub last_seen_epoch: u64,
    pub path: Seq<char>,
    pub content_hash: Seq<u8>,
    pub kind: ScopeKind,
    pub byte_span: (u32, u32),
}

impl View for ScopeProvenance {
    type V = ProvenanceView;

    open spec fn view(&self) -> ProvenanceView {
        ProvenanceView {
            scope: self.scope,
            first_seen_epoch: self.first_seen_epoch,
            last_seen_epoch: self.last_seen_epoch,
            path: self.stable_id.file.path@,
            content_hash: self.stable_id.content_hash@,
            kind: self.stable_id.kind,
            byte_span: self.stable_id.byte_span,
        }
    }
}

/// Where all scopes come from.
#[derive(Debug)]
pub struct ScopeProvenanceStore {
    pub records: Vec<ScopeProvenance>,
}

impl View for ScopeProvenanceStore {
    type V = Seq<ProvenanceView>;

    open spec fn view(&self) -> Seq<ProvenanceView> {
        views(self.records@)
    }
}

impl ScopeProvenanceStore {
    /// No record.
    pub fn new() -> (r: ScopeProvenanceStore)
        ensures
            r@ == Seq::<ProvenanceView>::empty(),
    {
        let r = ScopeProvenanceStore { records: Vec::new() };
        proof {
            assert(r@ =~= Seq::<ProvenanceView>::empty());
        }
        r
    }

    /// Number of records.
    pub fn len(&self) -> (r: usize)
        ensures
            r == self@.len(),
    {
        proof {
            assert(self@.len() == self.records@.len());
        }
        self.records.len()
    }

    /// Whether there is no record.
    pub fn is_empty(&self) -> (r: bool)
        ensures
            r == (self@.len() == 0),
    {
        proof {
            assert(self@.len() == self.records@.len());
        }
        self.records.len() == 0
    }
}

/// The binding plane of a graph.
#[derive(Debug)]
pub struct BindingPlane {
    pub scopes: ScopeArena,
    pub aliases: AliasTable,
    pub shadows: ShadowTable,
    pub provenance: ScopeProvenanceStore,
}

/// Contents of a binding plane.
pub struct BindingView {
    pub scopes: Seq<Scope>,
    pub aliases: Seq<AliasEntry>,
    pub shadows: Seq<ShadowEntry>,
    pub provenance: Seq<ProvenanceView>,
}

impl View for BindingPlane {
    type V = BindingView;

    open spec fn view(&self) -> BindingView {
        BindingView {
            scopes: self.scopes@,
            aliases: self.aliases@,
            shadows: self.shadows@,
            provenance: self.provenance@,
        }
    }
}

impl BindingPlane {
    /// Nothing is bound.
    pub fn new() -> (r: BindingPlane)
        ensures
            r@.scopes.len() == 0,
            r@.aliases.len() == 0,
            r@.shadows.len() == 0,
            r@.provenance.len() == 0,
    {
        BindingPlane {
            scopes: ScopeArena::new(),
            aliases: AliasTable::new(),
            shadows: ShadowTable::new(),
            provenance: ScopeProvenanceStore::new(),
        }
    }
}

/// One end of an edge, with its kind.
#[derive(Debug)]
pub struct EdgeEnd {
    pub node: NodeId,
    pub kind: EdgeKind,
}

/// Ends of edges by node.
pub struct EdgeLists {
    pub slots: NodeMap<usize>,
    pub lists: Vec<Vec<EdgeEnd>>,
}

impl EdgeLists {
    /// What is listed for `node`.
    pub open spec fn listed(&self, node: NodeId) -> Seq<EdgeEnd> {
        if self.slots@.dom().contains(node) {
            self.lists@[self.slots@[node] as int]@
        } else {
            Seq::empty()
        }
    }

    /// Every node has a list of its own.
    pub open spec fn wf(&self) -> bool {
        &&& self.slots.wf()
        &&& forall|a: NodeId| #[trigger]
            self.slots@.dom().contains(a) ==> self.slots@[a] < self.lists@.len()
        &&& forall|a: NodeId, b: NodeId|
            #![trigger self.slots@.dom().contains(a), self.slots@.dom().contains(b)]
            self.slots@.dom().contains(a) && self.slots@.dom().contains(b) && a != b
                ==> self.slots@[a] != self.slots@[b]
    }

    /// Nothing is listed.
    pub fn new() -> (r: EdgeLists)
        ensures
            r.wf(),
            forall|n: NodeId| #[trigger] r.listed(n) == Seq::<EdgeEnd>::empty(),
    {
        EdgeLists { slots: NodeMap::new(), lists: Vec::new() }
    }

    /// Lists `end` for `node`, behind what is listed.
    pub fn push(&mut self, node: NodeId, end: EdgeEnd)
        requires
            old(self).wf(),
        ensures
            final(self).wf(),
            final(self).listed(node) == old(self).listed(node).push(end),
            forall|n: NodeId|
                n != node ==> #[trigger] final(self).listed(n) == old(self).listed(n),
    {
        let ghost before = *self;
        match self.slots.get(node) {
            Some(i) => {
                self.lists[i].push(end);
                proof {
                    assert forall|n: NodeId| n != node implies #[trigger] self.listed(n)
                        == before.listed(n) by {
                        if before.slots@.dom().contains(n) {
                            assert(before.slots@[n] != i);
                        }
                    }
                }
            },
            None => {
                let at: usize = self.lists.len();
                let mut list: Vec<EdgeEnd> = Vec::new();
                list.push(end);
                proof {
                    assert(list@ =~= Seq::<EdgeEnd>::empty().push(end));
                }
                self.lists.push(list);
                self.slots.insert(node, at);
                proof {
                    assert forall|n: NodeId| n != node implies #[trigger] self.listed(n)
                        == before.listed(n) by {
                        if before.slots@.dom().contains(n) {
                            assert(self.slots@[n] == before.slots@[n]);
                        }
                    }
                }
            },
        }
    }

    /// Position of what is listed for `node`.
    pub fn find(&self, node: NodeId) -> (r: Option<&Vec<EdgeEnd>>)
        requires
            self.wf(),
        ensures
            match r {
                Some(v) => v@ == self.listed(node),
                None => self.listed(node) == Seq::<EdgeEnd>::empty(),
            },
    {
        match self.slots.get(node) {
            Some(i) => Some(&self.lists[i]),
            None => None,
        }
    }
}

} // verus!
