//! The node arena: generational slots that hold node entries.
use vstd::prelude::*;

use crate::ids::{FileId, NodeId, StringId};
use crate::kinds::NodeKind;

verus! {

/// What the graph knows of one node.
#[derive(Clone, Copy, Debug, PartialEq, Eq, Hash, Structural)]
pub struct NodeEntry {
    pub kind: NodeKind,
    pub name: StringId,
    pub file: FileId,
    pub start_byte: u32,
    pub end_byte: u32,
    pub start_line: u32,
    pub start_column: u32,
    pub end_line: u32,
    pub end_column: u32,
    pub signature: Option<StringId>,
    pub doc: Option<StringId>,
    pub qualified_name: Option<StringId>,
    pub visibility: Option<StringId>,
    pub is_async: bool,
    pub is_static: bool,
}

impl NodeEntry {
    /// An entry with a kind, a name and a file, and nothing else.
    pub open spec fn bare(kind: NodeKind, name: StringId, file: FileId) -> NodeEntry {
        NodeEntry {
            kind,
            name,
            file,
            start_byte: 0,
            end_byte: 0,
            start_line: 0,
            start_column: 0,
            end_line: 0,
            end_column: 0,
            signature: None,
            doc: None,
            qualified_name: None,
            visibility: None,
            is_async: false,
            is_static: false,
        }
    }

    /// An entry with a kind, a name and a file, and nothing else.
    pub fn new(kind: NodeKind, name: StringId, file: FileId) -> (r: NodeEntry)
        ensures
            r == NodeEntry::bare(kind, name, file),
    {
        NodeEntry {
            kind,
            name,
            file,
            start_byte: 0,
            end_byte: 0,
            start_line: 0,
            start_column: 0,
            end_line: 0,
            end_column: 0,
            signature: None,
            doc: None,
            qualified_name: None,
            visibility: None,
            is_async: false,
            is_static: false,
        }
    }
}

/// One arena slot.
#[derive(Clone, Copy, Debug, PartialEq, Eq, Hash, Structural)]
pub struct Slot {
    /// Generation of the current or next occupant.
    pub generation: u64,
    /// The occupant, if there is one.
    pub entry: Option<NodeEntry>,
}

impl Slot {
    /// An occupied slot.
    pub fn new_occupied(generation: u64, entry: NodeEntry) -> (r: Slot)
        ensures
            r == (Slot { generation, entry: Some(entry) }),
    {
        Slot { generation, entry: Some(entry) }
    }

    /// The occupant, if there is one.
    pub fn get(&self) -> (r: Option<NodeEntry>)
        ensures
            r == self.entry,
    {
        self.entry
    }
}

/// No further slot can be numbered.
#[derive(Clone, Copy, Debug, PartialEq, Eq, Structural)]
pub struct ArenaFull;

/// Generational storage of node entries.
pub struct NodeArena {
    pub slots: Vec<Slot>,
}

impl View for NodeArena {
    type V = Seq<Slot>;

    open spec fn view(&self) -> Seq<Slot> {
        self.slots@
    }
}

/// The entry that `id` names, if its slot is occupied by that generation.
pub open spec fn live(slots: Seq<Slot>, id: NodeId) -> Option<NodeEntry> {
    if id.index < slots.len() && slots[id.index as int].generation == id.generation {
        slots[id.index as int].entry
    } else {
        None
    }
}

/// The kind of the node that `id` names.
pub open spec fn live_kind(slots: Seq<Slot>, id: NodeId) -> Option<NodeKind> {
    match live(slots, id) {
        Some(e) => Some(e.kind),
        None => None,
    }
}

/// The occupied slots among the first `n`, in slot order.
pub open spec fn occupied(slots: Seq<Slot>, n: int) -> Seq<(NodeId, NodeEntry)>
    decreases n,
{
    if n <= 0 {
        Seq::empty()
    } else {
        let before = occupied(slots, n - 1);
        match slots[n - 1].entry {
            Some(e) => before.push(
                (NodeId { index: (n - 1) as u32, generation: slots[n - 1].generation }, e),
            ),
            None => before,
        }
    }
}

/// Whether `count` more slots can be numbered.
pub open spec fn has_room(slots: Seq<Slot>, count: int) -> bool {
    slots.len() + count <= u32::MAX
}

/// Whether a slot can take a node: it is vacant, and its generation tells the node
/// apart from all that it held before.
pub open spec fn reusable(slot: Slot) -> bool {
    slot.entry is None && slot.generation < u64::MAX
}

/// The first slot at or after `i` that can take a node, or the end.
pub open spec fn free_from(slots: Seq<Slot>, i: int) -> int
    decreases slots.len() - i,
{
    if i < 0 || i >= slots.len() || reusable(slots[i]) {
        i
    } else {
        free_from(slots, i + 1)
    }
}

/// Whether there is a slot for one more node, or a number for one more slot.
pub open spec fn can_allocate(slots: Seq<Slot>) -> bool {
    free_from(slots, 0) < u32::MAX
}

/// `slots` with `entry` in the first slot that can take it, or in a fresh one at the
/// end.
pub open spec fn allocated(slots: Seq<Slot>, entry: NodeEntry) -> Seq<Slot> {
    let i = free_from(slots, 0);
    if i < slots.len() {
        slots.update(i, Slot { generation: slots[i].generation, entry: Some(entry) })
    } else {
        slots.push(Slot { generation: 1, entry: Some(entry) })
    }
}

/// The identity that the next allocation hands out.
pub open spec fn next_id(slots: Seq<Slot>) -> NodeId {
    let i = free_from(slots, 0);
    NodeId {
        index: i as u32,
        generation: if i < slots.len() {
            slots[i].generation
        } else {
            1
        },
    }
}

/// The generation after `g`.
pub open spec fn next_generation(g: u64) -> u64 {
    if g < u64::MAX {
        (g + 1) as u64
    } else {
        g
    }
}

/// `slots` without the node that `id` names.
pub open spec fn vacated(slots: Seq<Slot>, id: NodeId) -> Seq<Slot> {
    if live(slots, id) is Some {
        slots.update(
            id.index as int,
            Slot { generation: next_generation(slots[id.index as int].generation), entry: None },
        )
    } else {
        slots
    }
}

impl NodeArena {
    /// An arena without slots.
    pub fn new() -> (r: NodeArena)
        ensures
            r@ == Seq::<Slot>::empty(),
    {
        NodeArena { slots: Vec::new() }
    }

    /// The entry that `id` names.
    pub fn get(&self, id: NodeId) -> (r: Option<NodeEntry>)
        ensures
            r == live(self@, id),
    {
        let i: usize = id.index as usize;
        if i < self.slots.len() && self.slots[i].generation == id.generation {
            self.slots[i].entry
        } else {
            None
        }
    }

    /// Whether `id` names a node.
    pub fn contains(&self, id: NodeId) -> (r: bool)
        ensures
            r == (live(self@, id) is Some),
    {
        self.get(id).is_some()
    }

    /// Number of slots, occupied or not.
    pub fn slot_count(&self) -> (r: usize)
        ensures
            r == self@.len(),
    {
        self.slots.len()
    }

    /// Puts `entry` into the first slot that can take it, or into a fresh one.
    pub fn allocate(&mut self, entry: NodeEntry) -> (r: Result<NodeId, ArenaFull>)
        ensures
            match r {
                Ok(id) => can_allocate(old(self)@) && id == next_id(old(self)@) && final(self)@
                    == allocated(old(self)@, entry),
                Err(_) => !can_allocate(old(self)@) && final(self)@ == old(self)@,
            },
    {
        let n: usize = self.slots.len();
        let mut i: usize = 0;
        while i < n && !(self.slots[i].entry.is_none() && self.slots[i].generation < u64::MAX)
            invariant
                n == self@.len(),
                i <= n,
                free_from(self@, 0) == free_from(self@, i as int),
            decreases n - i,
        {
            i = i + 1;
        }
        if i >= u32::MAX as usize {
            return Err(ArenaFull);
        }
        if i < n {
            let generation: u64 = self.slots[i].generation;
            self.slots.set(i, Slot { generation, entry: Some(entry) });
            Ok(NodeId { index: i as u32, generation })
        } else {
            self.slots.push(Slot { generation: 1, entry: Some(entry) });
            Ok(NodeId { index: n as u32, generation: 1 })
        }
    }

    /// Appends `count` slots that each hold `template`; returns the first index.
    pub fn alloc_range(&mut self, count: u32, template: &NodeEntry) -> (r: Result<u32, ArenaFull>)
        ensures
            match r {
                Ok(start) => has_room(old(self)@, count as int) && start == old(self)@.len()
                    && final(self)@ == old(self)@ + Seq::new(
                    count as nat,
                    |i: int| Slot { generation: 1, entry: Some(*template) },
                ),
                Err(_) => !has_room(old(self)@, count as int) && final(self)@ == old(self)@,
            },
    {
        let n: usize = self.slots.len();
        if n > (u32::MAX - count) as usize {
            return Err(ArenaFull);
        }
        let ghost before = self@;
        for i in 0..count
            invariant
                self@ == before + Seq::new(
                    i as nat,
                    |j: int| Slot { generation: 1, entry: Some(*template) },
                ),
        {
            self.slots.push(Slot { generation: 1, entry: Some(*template) });
            proof {
                assert(self@ =~= before + Seq::new(
                    (i + 1) as nat,
                    |j: int| Slot { generation: 1, entry: Some(*template) },
                ));
            }
        }
        Ok(n as u32)
    }

    /// Removes the node that `id` names; its slot takes the next generation.
    pub fn remove(&mut self, id: NodeId) -> (r: Option<NodeEntry>)
        ensures
            r == live(old(self)@, id),
            final(self)@ == vacated(old(self)@, id),
    {
        let found = self.get(id);
        if found.is_some() {
            let i: usize = id.index as usize;
            let g: u64 = self.slots[i].generation;
            let next: u64 = if g < u64::MAX {
                g + 1
            } else {
                g
            };
            self.slots.set(i, Slot { generation: next, entry: None });
        }
        found
    }

    /// Replaces the entry of the node that `id` names.
    pub fn replace(&mut self, id: NodeId, entry: NodeEntry)
        requires
            live(old(self)@, id) is Some,
        ensures
            final(self)@ == old(self)@.update(
                id.index as int,
                Slot { generation: id.generation, entry: Some(entry) },
            ),
    {
        self.slots.set(id.index as usize, Slot { generation: id.generation, entry: Some(entry) });
    }

    /// The occupied slots, in slot order.
    pub fn iter(&self) -> (r: Vec<(NodeId, NodeEntry)>)
        ensures
            r@ == occupied(self@, self@.len() as int),
    {
        let mut out: Vec<(NodeId, NodeEntry)> = Vec::new();
        for i in 0..self.slots.len()
            invariant
                out@ == occupied(self@, i as int),
        {
            match self.slots[i].entry {
                Some(e) => {
                    out.push(
                        (
                            NodeId { index: i as u32, generation: self.slots[i].generation },
                            e,
                        ),
                    );
                },
                None => {},
            }
        }
        out
    }
}

pub(crate) proof fn lemma_free_from(slots: Seq<Slot>, i: int)
    requires
        0 <= i <= slots.len(),
    ensures
        i <= free_from(slots, i) <= slots.len(),
        free_from(slots, i) < slots.len() ==> reusable(slots[free_from(slots, i)]),
    decreases slots.len() - i,
{
    if i < slots.len() && !reusable(slots[i]) {
        lemma_free_from(slots, i + 1);
    }
}

/// An allocation leaves every node that was live as it was.
pub proof fn law_allocation_keeps_nodes(slots: Seq<Slot>, entry: NodeEntry, id: NodeId)
    requires
        live(slots, id) is Some,
    ensures
        live(allocated(slots, entry), id) == live(slots, id),
{
    lemma_free_from(slots, 0);
}

/// After an allocation the new identity names the new entry, and named nothing before.
pub proof fn law_allocation_is_fresh(slots: Seq<Slot>, entry: NodeEntry)
    requires
        can_allocate(slots),
    ensures
        live(slots, next_id(slots)) is None,
        live(allocated(slots, entry), next_id(slots)) == Some(entry),
{
    lemma_free_from(slots, 0);
}

/// A removed identity names nothing and is not handed out again, and no node in
/// another slot is affected.
pub proof fn law_removed_node_is_gone(slots: Seq<Slot>, id: NodeId, other: NodeId)
    ensures
        live(vacated(slots, id), id) is None,
        live(slots, id) is Some && can_allocate(vacated(slots, id)) ==> next_id(vacated(slots, id))
            != id,
        other.index != id.index ==> live(vacated(slots, id), other) == live(slots, other),
{
    lemma_free_from(vacated(slots, id), 0);
}

} // verus!
