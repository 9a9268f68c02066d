//! Metadata beside the arena: macro facts, flags and shape descriptors by node.
use vstd::prelude::*;

use crate::ids::NodeId;

verus! {

/// Macro-related facts of one node.
#[derive(Debug)]
pub struct MacroNodeMetadata {
    /// Condition under which the node is compiled.
    pub cfg_condition: Option<String>,
    /// Whether a macro generated the node.
    pub macro_generated: bool,
}

/// Contents of macro-related facts.
pub struct MacroView {
    pub cfg_condition: Option<Seq<char>>,
    pub macro_generated: bool,
}

impl View for MacroNodeMetadata {
    type V = MacroView;

    open spec fn view(&self) -> MacroView {
        MacroView {
            cfg_condition: match self.cfg_condition {
                Some(s) => Some(s@),
                None => None,
            },
            macro_generated: self.macro_generated,
        }
    }
}

impl Default for MacroNodeMetadata {
    fn default() -> (r: MacroNodeMetadata)
        ensures
            r@ == (MacroView { cfg_condition: None, macro_generated: false }),
    {
        MacroNodeMetadata { cfg_condition: None, macro_generated: false }
    }
}

impl Clone for MacroNodeMetadata {
    fn clone(&self) -> (r: MacroNodeMetadata)
        ensures
            r@ == self@,
    {
        MacroNodeMetadata {
            cfg_condition: match &self.cfg_condition {
                Some(s) => Some(s.clone()),
                None => None,
            },
            macro_generated: self.macro_generated,
        }
    }
}

/// Everything stored for one node apart from its shape.
#[derive(Debug)]
pub struct StoredEntry {
    pub payload: Option<MacroNodeMetadata>,
    pub synthetic: bool,
    pub address_taken: bool,
    pub callsite_promiscuous: bool,
}

/// Contents of a stored entry.
pub struct StoredView {
    pub payload: Option<MacroView>,
    pub synthetic: bool,
    pub address_taken: bool,
    pub callsite_promiscuous: bool,
}

impl View for StoredEntry {
    type V = StoredView;

    open spec fn view(&self) -> StoredView {
        StoredView {
            payload: match self.payload {
                Some(p) => Some(p@),
                None => None,
            },
            synthetic: self.synthetic,
            address_taken: self.address_taken,
            callsite_promiscuous: self.callsite_promiscuous,
        }
    }
}

impl StoredView {
    /// Nothing is stored.
    pub open spec fn blank() -> StoredView {
        StoredView {
            payload: None,
            synthetic: false,
            address_taken: false,
            callsite_promiscuous: false,
        }
    }
}

impl Clone for StoredEntry {
    fn clone(&self) -> (r: StoredEntry)
        ensures
            r@ == self@,
    {
        StoredEntry {
            payload: match &self.payload {
                Some(p) => Some(p.clone()),
                None => None,
            },
            synthetic: self.synthetic,
            address_taken: self.address_taken,
            callsite_promiscuous: self.callsite_promiscuous,
        }
    }
}

/// Counts of control-flow constructs in one function body.
#[derive(Clone, Copy, Debug, PartialEq, Eq, Structural)]
pub struct ShapeDescriptor {
    pub branches: u16,
    pub loops: u16,
    pub returns: u16,
    pub calls: u16,
}

/// One metadata record.
pub struct EntryRecord {
    pub node: NodeId,
    pub entry: StoredEntry,
}

/// One shape record.
#[derive(Clone, Copy, Debug, PartialEq, Eq, Structural)]
pub struct ShapeRecord {
    pub node: NodeId,
    pub shape: ShapeDescriptor,
}

/// Metadata by node.
pub struct NodeMetadataStore {
    pub entries: Vec<EntryRecord>,
    pub shapes: Vec<ShapeRecord>,
}

/// Contents of a metadata store.
pub struct MetadataView {
    pub entries: Map<NodeId, StoredView>,
    pub shapes: Map<NodeId, ShapeDescriptor>,
}

/// The map that the first `n` records spell out.
pub open spec fn entry_map(records: Seq<EntryRecord>, n: int) -> Map<NodeId, StoredView>
    decreases n,
{
    if n <= 0 {
        Map::empty()
    } else {
        entry_map(records, n - 1).insert(records[n - 1].node, records[n - 1].entry@)
    }
}

/// The map that the first `n` shape records spell out.
pub open spec fn shape_map(records: Seq<ShapeRecord>, n: int) -> Map<NodeId, ShapeDescriptor>
    decreases n,
{
    if n <= 0 {
        Map::empty()
    } else {
        shape_map(records, n - 1).insert(records[n - 1].node, records[n - 1].shape)
    }
}

impl View for NodeMetadataStore {
    type V = MetadataView;

    open spec fn view(&self) -> MetadataView {
        MetadataView {
            entries: entry_map(self.entries@, self.entries@.len() as int),
            shapes: shape_map(self.shapes@, self.shapes@.len() as int),
        }
    }
}

impl MetadataView {
    /// Nothing is stored.
    pub open spec fn empty() -> MetadataView {
        MetadataView { entries: Map::empty(), shapes: Map::empty() }
    }

    /// What is stored for `node`, blank where nothing is.
    pub open spec fn of(self, node: NodeId) -> StoredView {
        if self.entries.dom().contains(node) {
            self.entries[node]
        } else {
            StoredView::blank()
        }
    }

    /// Whether `node` is marked synthetic.
    pub open spec fn is_synthetic(self, node: NodeId) -> bool {
        self.of(node).synthetic
    }

    /// The store with `node` marked synthetic.
    pub open spec fn marked_synthetic(self, node: NodeId) -> MetadataView {
        MetadataView {
            entries: self.entries.insert(node, StoredView { synthetic: true, ..self.of(node) }),
            ..self
        }
    }

    /// The store with `node` marked as called through an ambiguous callsite.
    pub open spec fn marked_promiscuous(self, node: NodeId) -> MetadataView {
        MetadataView {
            entries: self.entries.insert(
                node,
                StoredView { callsite_promiscuous: true, ..self.of(node) },
            ),
            ..self
        }
    }

    /// The store with `node` marked as having its address taken.
    pub open spec fn marked_address_taken(self, node: NodeId) -> MetadataView {
        MetadataView {
            entries: self.entries.insert(node, StoredView { address_taken: true, ..self.of(node) }),
            ..self
        }
    }
}

/// No node has two records.
pub open spec fn distinct_entries(records: Seq<EntryRecord>) -> bool {
    forall|i: int, j: int|
        #![trigger records[i], records[j]]
        0 <= i < j < records.len() ==> records[i].node != records[j].node
}

/// No node has two shape records.
pub open spec fn distinct_shapes(records: Seq<ShapeRecord>) -> bool {
    forall|i: int, j: int|
        #![trigger records[i], records[j]]
        0 <= i < j < records.len() ==> records[i].node != records[j].node
}

proof fn lemma_entry_map(records: Seq<EntryRecord>, n: int)
    requires
        0 <= n <= records.len(),
        distinct_entries(records),
    ensures
        forall|k: NodeId|
            #![trigger entry_map(records, n).dom().contains(k)]
            entry_map(records, n).dom().contains(k) <==> exists|i: int|
                0 <= i < n && (#[trigger] records[i]).node == k,
        forall|i: int|
            0 <= i < n ==> #[trigger] entry_map(records, n)[records[i].node] == records[i].entry@,
        entry_map(records, n).dom().finite(),
        entry_map(records, n).dom().len() == n,
    decreases n,
{
    if n > 0 {
        lemma_entry_map(records, n - 1);
        let m = entry_map(records, n - 1);
        let k0 = records[n - 1].node;
        assert(!m.dom().contains(k0));
        assert forall|k: NodeId|
            #![trigger entry_map(records, n).dom().contains(k)]
            entry_map(records, n).dom().contains(k) <==> exists|i: int|
                0 <= i < n && (#[trigger] records[i]).node == k by {
            if entry_map(records, n).dom().contains(k) {
                if k == k0 {
                    assert(records[n - 1].node == k);
                } else {
                    assert(m.dom().contains(k));
                }
            }
            if exists|i: int| 0 <= i < n && (#[trigger] records[i]).node == k {
                let i = choose|i: int| 0 <= i < n && (#[trigger] records[i]).node == k;
                if i < n - 1 {
                    assert(m.dom().contains(k));
                }
            }
        }
        assert forall|i: int| 0 <= i < n implies #[trigger] entry_map(records, n)[records[i].node]
            == records[i].entry@ by {
            if i < n - 1 {
                assert(records[i].node != k0);
                assert(m[records[i].node] == records[i].entry@);
            }
        }
        assert(entry_map(records, n).dom() =~= m.dom().insert(k0));
    }
}

proof fn lemma_shape_map(records: Seq<ShapeRecord>, n: int)
    requires
        0 <= n <= records.len(),
        distinct_shapes(records),
    ensures
        forall|k: NodeId|
            #![trigger shape_map(records, n).dom().contains(k)]
            shape_map(records, n).dom().contains(k) <==> exists|i: int|
                0 <= i < n && (#[trigger] records[i]).node == k,
        forall|i: int|
            0 <= i < n ==> #[trigger] shape_map(records, n)[records[i].node] == records[i].shape,
        shape_map(records, n).dom().finite(),
        shape_map(records, n).dom().len() == n,
    decreases n,
{
    if n > 0 {
        lemma_shape_map(records, n - 1);
        let m = shape_map(records, n - 1);
        let k0 = records[n - 1].node;
        assert(!m.dom().contains(k0));
        assert forall|k: NodeId|
            #![trigger shape_map(records, n).dom().contains(k)]
            shape_map(records, n).dom().contains(k) <==> exists|i: int|
                0 <= i < n && (#[trigger] records[i]).node == k by {
            if shape_map(records, n).dom().contains(k) {
                if k == k0 {
                    assert(records[n - 1].node == k);
                } else {
                    assert(m.dom().contains(k));
                }
            }
            if exists|i: int| 0 <= i < n && (#[trigger] records[i]).node == k {
                let i = choose|i: int| 0 <= i < n && (#[trigger] records[i]).node == k;
                if i < n - 1 {
                    assert(m.dom().contains(k));
                }
            }
        }
        assert forall|i: int| 0 <= i < n implies #[trigger] shape_map(records, n)[records[i].node]
            == records[i].shape by {
            if i < n - 1 {
                assert(records[i].node != k0);
                assert(m[records[i].node] == records[i].shape);
            }
        }
        assert(shape_map(records, n).dom() =~= m.dom().insert(k0));
    }
}

impl NodeMetadataStore {
    /// No node has two records of one sort.
    pub open spec fn wf(&self) -> bool {
        distinct_entries(self.entries@) && distinct_shapes(self.shapes@)
    }

    /// A store that holds nothing.
    pub fn new() -> (r: NodeMetadataStore)
        ensures
            r.wf(),
            r@ == MetadataView::empty(),
    {
        NodeMetadataStore { entries: Vec::new(), shapes: Vec::new() }
    }

    /// No record before position `i` is for the node of record `i`.
    pub proof fn lemma_fresh_entry(&self, i: int)
        requires
            self.wf(),
            0 <= i < self.entries@.len(),
        ensures
            !entry_map(self.entries@, i).dom().contains(self.entries@[i].node),
    {
        lemma_entry_map(self.entries@, i);
    }

    /// No shape record before position `i` is for the node of record `i`.
    pub proof fn lemma_fresh_shape(&self, i: int)
        requires
            self.wf(),
            0 <= i < self.shapes@.len(),
        ensures
            !shape_map(self.shapes@, i).dom().contains(self.shapes@[i].node),
    {
        lemma_shape_map(self.shapes@, i);
    }

    fn find_entry(&self, node: NodeId) -> (r: Option<usize>)
        requires
            self.wf(),
        ensures
            match r {
                Some(i) => i < self.entries@.len() && self.entries@[i as int].node == node
                    && self@.entries.dom().contains(node) && self@.entries[node]
                    == self.entries@[i as int].entry@,
                None => !self@.entries.dom().contains(node) && forall|j: int|
                    0 <= j < self.entries@.len() ==> (#[trigger] self.entries@[j]).node != node,
            },
    {
        proof {
            lemma_entry_map(self.entries@, self.entries@.len() as int);
        }
        for i in 0..self.entries.len()
            invariant
                self.wf(),
                forall|j: int| 0 <= j < i ==> (#[trigger] self.entries@[j]).node != node,
        {
            if self.entries[i].node == node {
                proof {
                    lemma_entry_map(self.entries@, self.entries@.len() as int);
                    assert(self.entries@[i as int].node == node);
                }
                return Some(i);
            }
        }
        None
    }

    fn find_shape(&self, node: NodeId) -> (r: Option<usize>)
        requires
            self.wf(),
        ensures
            match r {
                Some(i) => i < self.shapes@.len() && self.shapes@[i as int].node == node
                    && self@.shapes.dom().contains(node) && self@.shapes[node]
                    == self.shapes@[i as int].shape,
                None => !self@.shapes.dom().contains(node) && forall|j: int|
                    0 <= j < self.shapes@.len() ==> (#[trigger] self.shapes@[j]).node != node,
            },
    {
        proof {
            lemma_shape_map(self.shapes@, self.shapes@.len() as int);
        }
        for i in 0..self.shapes.len()
            invariant
                self.wf(),
                forall|j: int| 0 <= j < i ==> (#[trigger] self.shapes@[j]).node != node,
        {
            if self.shapes[i].node == node {
                proof {
                    lemma_shape_map(self.shapes@, self.shapes@.len() as int);
                    assert(self.shapes@[i as int].node == node);
                }
                return Some(i);
            }
        }
        None
    }

    /// A copy of what is stored for `node`, blank where nothing is.
    pub fn entry_or_blank(&self, node: NodeId) -> (r: StoredEntry)
        requires
            self.wf(),
        ensures
            r@ == self@.of(node),
    {
        match self.find_entry(node) {
            Some(i) => self.entries[i].entry.clone(),
            None => StoredEntry {
                payload: None,
                synthetic: false,
                address_taken: false,
                callsite_promiscuous: false,
            },
        }
    }

    /// Stores `entry` for `node` in place of what was there.
    pub fn insert_entry(&mut self, node: NodeId, entry: StoredEntry)
        requires
            old(self).wf(),
        ensures
            final(self).wf(),
            final(self)@.entries == old(self)@.entries.insert(node, entry@),
            final(self)@.shapes == old(self)@.shapes,
    {
        let ghost before = self.entries@;
        let ghost view = entry@;
        match self.find_entry(node) {
            Some(i) => {
                self.entries.set(i, EntryRecord { node, entry });
                proof {
                    let after = self.entries@;
                    assert(after =~= before.update(i as int, after[i as int]));
                    assert forall|a: int, b: int|
                        #![trigger after[a], after[b]]
                        0 <= a < b < after.len() implies after[a].node != after[b].node by {
                        assert(before[a].node != before[b].node);
                    }
                    lemma_entry_map(before, before.len() as int);
                    lemma_entry_map(after, after.len() as int);
                    let m = entry_map(before, before.len() as int).insert(node, view);
                    let m2 = entry_map(after, after.len() as int);
                    assert forall|k: NodeId| m2.dom().contains(k) <==> m.dom().contains(k) by {
                        if m2.dom().contains(k) {
                            let j = choose|j: int|
                                0 <= j < after.len() && (#[trigger] after[j]).node == k;
                            assert(before[j].node == k);
                        }
                        if m.dom().contains(k) {
                            let j = if k == node {
                                i as int
                            } else {
                                choose|j: int|
                                    0 <= j < before.len() && (#[trigger] before[j]).node == k
                            };
                            assert(after[j].node == k);
                        }
                    }
                    assert forall|k: NodeId| m2.dom().contains(k) implies m2[k] == m[k] by {
                        let j = choose|j: int|
                            0 <= j < after.len() && (#[trigger] after[j]).node == k;
                        assert(m2[after[j].node] == after[j].entry@);
                        if j != i {
                            assert(before[j].node == k);
                            assert(before[i as int].node == node);
                            assert(m2[k] == before[j].entry@);
                            assert(entry_map(before, before.len() as int)[before[j].node]
                                == before[j].entry@);
                        }
                    }
                    assert(m2 =~= m);
                }
            },
            None => {
                self.entries.push(EntryRecord { node, entry });
                proof {
                    let after = self.entries@;
                    lemma_entry_map_prefix(before, after, before.len() as int);
                }
            },
        }
    }

    /// Stores macro facts for `node`; its flags stay as they are.
    pub fn insert(&mut self, node: NodeId, payload: MacroNodeMetadata)
        requires
            old(self).wf(),
        ensures
            final(self).wf(),
            final(self)@.entries == old(self)@.entries.insert(
                node,
                (StoredView { payload: Some(payload@), ..old(self)@.of(node) }),
            ),
            final(self)@.shapes == old(self)@.shapes,
    {
        let mut entry = self.entry_or_blank(node);
        entry.payload = Some(payload);
        self.insert_entry(node, entry);
    }

    /// The macro facts of `node`.
    pub fn get_macro(&self, node: NodeId) -> (r: Option<MacroNodeMetadata>)
        requires
            self.wf(),
        ensures
            match r {
                Some(p) => self@.of(node).payload == Some(p@),
                None => self@.of(node).payload is None,
            },
    {
        self.entry_or_blank(node).payload
    }

    /// Whether `node` is marked synthetic.
    pub fn is_synthetic(&self, node: NodeId) -> (r: bool)
        requires
            self.wf(),
        ensures
            r == self@.is_synthetic(node),
    {
        self.entry_or_blank(node).synthetic
    }

    /// Whether the address of `node` is taken somewhere.
    pub fn is_address_taken(&self, node: NodeId) -> (r: bool)
        requires
            self.wf(),
        ensures
            r == self@.of(node).address_taken,
    {
        self.entry_or_blank(node).address_taken
    }

    /// Whether `node` has been called through an ambiguous callsite.
    pub fn is_callsite_promiscuous(&self, node: NodeId) -> (r: bool)
        requires
            self.wf(),
        ensures
            r == self@.of(node).callsite_promiscuous,
    {
        self.entry_or_blank(node).callsite_promiscuous
    }

    /// Marks `node` synthetic.
    pub fn mark_synthetic(&mut self, node: NodeId)
        requires
            old(self).wf(),
        ensures
            final(self).wf(),
            final(self)@ == old(self)@.marked_synthetic(node),
    {
        let mut entry = self.entry_or_blank(node);
        entry.synthetic = true;
        self.insert_entry(node, entry);
    }

    /// Marks the address of `node` as taken.
    pub fn mark_address_taken(&mut self, node: NodeId)
        requires
            old(self).wf(),
        ensures
            final(self).wf(),
            final(self)@ == old(self)@.marked_address_taken(node),
    {
        let mut entry = self.entry_or_blank(node);
        entry.address_taken = true;
        self.insert_entry(node, entry);
    }

    /// Marks `node` as called through an ambiguous callsite.
    pub fn mark_callsite_promiscuous(&mut self, node: NodeId)
        requires
            old(self).wf(),
        ensures
            final(self).wf(),
            final(self)@ == old(self)@.marked_promiscuous(node),
    {
        let mut entry = self.entry_or_blank(node);
        entry.callsite_promiscuous = true;
        self.insert_entry(node, entry);
    }

    /// Stores the shape of `node` in place of what was there.
    pub fn insert_shape_descriptor(&mut self, node: NodeId, shape: ShapeDescriptor)
        requires
            old(self).wf(),
        ensures
            final(self).wf(),
            final(self)@.shapes == old(self)@.shapes.insert(node, shape),
            final(self)@.entries == old(self)@.entries,
    {
        let ghost before = self.shapes@;
        match self.find_shape(node) {
            Some(i) => {
                self.shapes.set(i, ShapeRecord { node, shape });
                proof {
                    let after = self.shapes@;
                    assert forall|a: int, b: int|
                        #![trigger after[a], after[b]]
                        0 <= a < b < after.len() implies after[a].node != after[b].node by {
                        assert(before[a].node != before[b].node);
                    }
                    lemma_shape_map(before, before.len() as int);
                    lemma_shape_map(after, after.len() as int);
                    let m = shape_map(before, before.len() as int).insert(node, shape);
                    let m2 = shape_map(after, after.len() as int);
                    assert forall|k: NodeId| m2.dom().contains(k) <==> m.dom().contains(k) by {
                        if m2.dom().contains(k) {
                            let j = choose|j: int|
                                0 <= j < after.len() && (#[trigger] after[j]).node == k;
                            assert(before[j].node == k);
                        }
                        if m.dom().contains(k) {
                            let j = if k == node {
                                i as int
                            } else {
                                choose|j: int|
                                    0 <= j < before.len() && (#[trigger] before[j]).node == k
                            };
                            assert(after[j].node == k);
                        }
                    }
                    assert forall|k: NodeId| m2.dom().contains(k) implies m2[k] == m[k] by {
                        let j = choose|j: int|
                            0 <= j < after.len() && (#[trigger] after[j]).node == k;
                        assert(m2[after[j].node] == after[j].shape);
                        if j != i {
                            assert(before[j].node == k);
                            assert(before[i as int].node == node);
                            assert(shape_map(before, before.len() as int)[before[j].node]
                                == before[j].shape);
                        }
                    }
                    assert(m2 =~= m);
                }
            },
            None => {
                self.shapes.push(ShapeRecord { node, shape });
                proof {
                    lemma_shape_map_prefix(before, self.shapes@, before.len() as int);
                }
            },
        }
    }

    /// The shape of `node`.
    pub fn shape_descriptor(&self, node: NodeId) -> (r: Option<ShapeDescriptor>)
        requires
            self.wf(),
        ensures
            match r {
                Some(d) => self@.shapes.dom().contains(node) && self@.shapes[node] == d,
                None => !self@.shapes.dom().contains(node),
            },
    {
        match self.find_shape(node) {
            Some(i) => Some(self.shapes[i].shape),
            None => None,
        }
    }

    /// Number of nodes with a stored entry.
    pub fn len(&self) -> (r: usize)
        requires
            self.wf(),
        ensures
            r == self@.entries.dom().len(),
    {
        proof {
            lemma_entry_map(self.entries@, self.entries@.len() as int);
        }
        self.entries.len()
    }

    /// Number of nodes with a stored shape.
    pub fn shape_count(&self) -> (r: usize)
        requires
            self.wf(),
        ensures
            r == self@.shapes.dom().len(),
    {
        proof {
            lemma_shape_map(self.shapes@, self.shapes@.len() as int);
        }
        self.shapes.len()
    }

    /// Whether nothing is stored.
    pub fn is_empty(&self) -> (r: bool)
        requires
            self.wf(),
        ensures
            r == (self@ == MetadataView::empty()),
    {
        proof {
            lemma_entry_map(self.entries@, self.entries@.len() as int);
            lemma_shape_map(self.shapes@, self.shapes@.len() as int);
            if self.entries@.len() == 0 {
                assert(self@.entries =~= Map::empty());
            }
            if self.shapes@.len() == 0 {
                assert(self@.shapes =~= Map::empty());
            }
        }
        self.entries.len() == 0 && self.shapes.len() == 0
    }

    /// Takes over everything that `other` stores; where both store something for a
    /// node, what `other` stores counts.
    pub fn merge(&mut self, other: &NodeMetadataStore)
        requires
            old(self).wf(),
            other.wf(),
        ensures
            final(self).wf(),
            final(self)@.entries == old(self)@.entries.union_prefer_right(other@.entries),
            final(self)@.shapes == old(self)@.shapes.union_prefer_right(other@.shapes),
    {
        let ghost e0 = self@.entries;
        let ghost s0 = self@.shapes;
        proof {
            assert(e0.union_prefer_right(Map::empty()) =~= e0);
            assert(s0.union_prefer_right(Map::empty()) =~= s0);
        }
        for i in 0..other.entries.len()
            invariant
                self.wf(),
                self@.shapes == s0,
                self@.entries == e0.union_prefer_right(entry_map(other.entries@, i as int)),
        {
            let ghost m = entry_map(other.entries@, i as int);
            self.insert_entry(other.entries[i].node, other.entries[i].entry.clone());
            proof {
                assert(self@.entries =~= e0.union_prefer_right(
                    m.insert(
                        other.entries@[i as int].node,
                        other.entries@[i as int].entry@,
                    ),
                ));
            }
        }
        for i in 0..other.shapes.len()
            invariant
                self.wf(),
                self@.entries == e0.union_prefer_right(other@.entries),
                self@.shapes == s0.union_prefer_right(shape_map(other.shapes@, i as int)),
        {
            let ghost m = shape_map(other.shapes@, i as int);
            self.insert_shape_descriptor(other.shapes[i].node, other.shapes[i].shape);
            proof {
                assert(self@.shapes =~= s0.union_prefer_right(
                    m.insert(other.shapes@[i as int].node, other.shapes@[i as int].shape),
                ));
            }
        }
    }
}

proof fn lemma_entry_map_prefix(a: Seq<EntryRecord>, b: Seq<EntryRecord>, n: int)
    requires
        n <= a.len() <= b.len(),
        forall|i: int| 0 <= i < a.len() ==> a[i] == b[i],
    ensures
        entry_map(a, n) == entry_map(b, n),
    decreases n,
{
    if n > 0 {
        lemma_entry_map_prefix(a, b, n - 1);
    }
}

proof fn lemma_shape_map_prefix(a: Seq<ShapeRecord>, b: Seq<ShapeRecord>, n: int)
    requires
        n <= a.len() <= b.len(),
        forall|i: int| 0 <= i < a.len() ==> a[i] == b[i],
    ensures
        shape_map(a, n) == shape_map(b, n),
    decreases n,
{
    if n > 0 {
        lemma_shape_map_prefix(a, b, n - 1);
    }
}

} // verus!
