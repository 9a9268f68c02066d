//! Identifiers: arena nodes, registered files and interned strings.
use vstd::prelude::*;

verus! {

/// Identity of a node: the arena slot it occupies and the generation of that slot.
///
/// A slot's generation advances when its node is removed, so an identity taken
/// before the removal never names a later occupant.
#[derive(Clone, Copy, Debug, PartialEq, Eq, PartialOrd, Ord, Hash, Structural)]
pub struct NodeId {
    /// Slot index in the arena.
    pub index: u32,
    /// Generation of the slot.
    pub generation: u64,
}

impl NodeId {
    /// The identity of generation `generation` of slot `index`.
    pub fn new(index: u32, generation: u64) -> (r: NodeId)
        ensures
            r == (NodeId { index, generation }),
    {
        NodeId { index, generation }
    }

    /// Slot index in the arena.
    pub fn index(&self) -> (r: u32)
        ensures
            r == self.index,
    {
        self.index
    }

    /// Generation of the slot.
    pub fn generation(&self) -> (r: u64)
        ensures
            r == self.generation,
    {
        self.generation
    }

    /// Index first, generation second.
    pub open spec fn before(self, other: NodeId) -> bool {
        self.index < other.index || (self.index == other.index && self.generation
            < other.generation)
    }

    /// Whether `self` sorts strictly before `other`.
    pub fn is_before(&self, other: &NodeId) -> (r: bool)
        ensures
            r == self.before(*other),
    {
        self.index < other.index || (self.index == other.index && self.generation
            < other.generation)
    }

    /// One integer per identity.
    pub open spec fn code(self) -> int {
        self.generation as int * 0x1_0000_0000 + self.index as int
    }

    /// One integer per identity, usable as a table key.
    pub fn key(&self) -> (r: u128)
        ensures
            r == self.code(),
    {
        self.generation as u128 * 0x1_0000_0000u128 + self.index as u128
    }
}

/// Distinct identities have distinct codes.
pub proof fn lemma_code_injective(a: NodeId, b: NodeId)
    requires
        a.code() == b.code(),
    ensures
        a == b,
{
}

/// Identity of a registered file.
#[derive(Clone, Copy, Debug, PartialEq, Eq, PartialOrd, Ord, Hash, Structural)]
pub struct FileId(pub u32);

impl View for FileId {
    type V = FileId;

    open spec fn view(&self) -> FileId {
        *self
    }
}

impl FileId {
    /// The file in registry slot `index`.
    pub fn new(index: u32) -> (r: FileId)
        ensures
            r == FileId(index),
    {
        FileId(index)
    }

    /// Registry slot of the file.
    pub fn index(&self) -> (r: u32)
        ensures
            r == self.0,
    {
        self.0
    }

    /// The identity that names no file.
    pub open spec fn spec_invalid() -> FileId {
        FileId(u32::MAX)
    }

    /// The identity that names no file.
    #[verifier::when_used_as_spec(spec_invalid)]
    pub fn invalid() -> (r: FileId)
        ensures
            r == FileId::spec_invalid(),
    {
        FileId(u32::MAX)
    }
}

/// First raw value of the identifiers that a staging graph hands out.
pub const LOCAL_TAG: u32 = 0x8000_0000;

/// Identity of an interned string.
///
/// Raw values from [`LOCAL_TAG`] on are local to one staging graph; the others
/// name a slot of the graph's interner.
#[derive(Clone, Copy, Debug, PartialEq, Eq, PartialOrd, Ord, Hash, Structural)]
pub struct StringId(pub u32);

impl StringId {
    /// The string in interner slot `index`.
    pub fn new(index: u32) -> (r: StringId)
        ensures
            r == StringId(index),
    {
        StringId(index)
    }

    /// The `index`-th string of a staging graph.
    pub fn new_local(index: u32) -> (r: StringId)
        requires
            index < LOCAL_TAG - 1,
        ensures
            r.local(),
            r.0 == LOCAL_TAG + index,
    {
        StringId(LOCAL_TAG + index)
    }

    /// The identity that names no string.
    pub open spec fn spec_invalid() -> StringId {
        StringId(u32::MAX)
    }

    /// The identity that names no string.
    #[verifier::when_used_as_spec(spec_invalid)]
    pub fn invalid() -> (r: StringId)
        ensures
            r == StringId::spec_invalid(),
    {
        StringId(u32::MAX)
    }

    /// Interner slot of the string.
    pub fn index(&self) -> (r: u32)
        ensures
            r == self.0,
    {
        self.0
    }

    /// Whether the identity is local to a staging graph.
    pub open spec fn local(self) -> bool {
        LOCAL_TAG <= self.0 && self.0 != u32::MAX
    }

    /// Whether the identity is local to a staging graph.
    pub fn is_local(&self) -> (r: bool)
        ensures
            r == self.local(),
    {
        LOCAL_TAG <= self.0 && self.0 != u32::MAX
    }
}

/// A line and a column, both counted from zero.
#[derive(Clone, Copy, Debug, PartialEq, Eq, Hash, Structural)]
pub struct Position {
    pub line: usize,
    pub column: usize,
}

/// A stretch of source text.
#[derive(Clone, Copy, Debug, PartialEq, Eq, Hash, Structural)]
pub struct Span {
    pub start: Position,
    pub end: Position,
}

} // verus!
