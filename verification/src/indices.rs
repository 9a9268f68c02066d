//! Auxiliary indices: nodes by kind, name, qualified name and file.
use vstd::prelude::*;

use crate::arena::{live, occupied, NodeArena, NodeEntry, Slot};
use crate::ids::{FileId, NodeId, StringId};
use crate::kinds::NodeKind;

verus! {

/// What the indices know of one node.
#[derive(Clone, Copy, Debug, PartialEq, Eq, Structural)]
pub struct IndexRow {
    pub node: NodeId,
    pub kind: NodeKind,
    pub name: StringId,
    pub qualified_name: Option<StringId>,
    pub file: FileId,
}

/// Nodes by kind, name, qualified name and file.
pub struct AuxiliaryIndices {
    pub rows: Vec<IndexRow>,
}

impl View for AuxiliaryIndices {
    type V = Seq<IndexRow>;

    open spec fn view(&self) -> Seq<IndexRow> {
        self.rows@
    }
}

/// The index row of node `node` with entry `entry`.
pub open spec fn row_of(node: NodeId, entry: NodeEntry) -> IndexRow {
    IndexRow {
        node,
        kind: entry.kind,
        name: entry.name,
        qualified_name: entry.qualified_name,
        file: entry.file,
    }
}

/// The rows with `row` added, unless it is there.
pub open spec fn with_row(rows: Seq<IndexRow>, row: IndexRow) -> Seq<IndexRow> {
    if rows.contains(row) {
        rows
    } else {
        rows.push(row)
    }
}

/// The rows after the first `n` of `nodes` were indexed; nodes that are not live are skipped.
pub open spec fn rows_with_nodes(
    rows: Seq<IndexRow>,
    slots: Seq<Slot>,
    nodes: Seq<NodeId>,
    n: int,
) -> Seq<IndexRow>
    decreases n,
{
    if n <= 0 {
        rows
    } else {
        let before = rows_with_nodes(rows, slots, nodes, n - 1);
        match live(slots, nodes[n - 1]) {
            Some(e) => with_row(before, row_of(nodes[n - 1], e)),
            None => before,
        }
    }
}

/// One row per occupied slot with a valid name, among the first `n` slots.
pub open spec fn rows_of_arena(slots: Seq<Slot>, n: int) -> Seq<IndexRow>
    decreases n,
{
    if n <= 0 {
        Seq::empty()
    } else {
        let before = rows_of_arena(slots, n - 1);
        match slots[n - 1].entry {
            Some(e) => if e.name == StringId::spec_invalid() {
                before
            } else {
                before.push(
                    row_of(
                        NodeId { index: (n - 1) as u32, generation: slots[n - 1].generation },
                        e,
                    ),
                )
            },
            None => before,
        }
    }
}

/// The nodes of kind `kind` among the first `n` rows, in row order.
pub open spec fn nodes_of_kind(rows: Seq<IndexRow>, kind: NodeKind, n: int) -> Seq<NodeId>
    decreases n,
{
    if n <= 0 {
        Seq::empty()
    } else {
        let before = nodes_of_kind(rows, kind, n - 1);
        if rows[n - 1].kind == kind {
            before.push(rows[n - 1].node)
        } else {
            before
        }
    }
}

/// The nodes named `name` among the first `n` rows, in row order.
pub open spec fn nodes_of_name(rows: Seq<IndexRow>, name: StringId, n: int) -> Seq<NodeId>
    decreases n,
{
    if n <= 0 {
        Seq::empty()
    } else {
        let before = nodes_of_name(rows, name, n - 1);
        if rows[n - 1].name == name {
            before.push(rows[n - 1].node)
        } else {
            before
        }
    }
}

/// The nodes with qualified name `qn` among the first `n` rows, in row order.
pub open spec fn nodes_of_qn(rows: Seq<IndexRow>, qn: StringId, n: int) -> Seq<NodeId>
    decreases n,
{
    if n <= 0 {
        Seq::empty()
    } else {
        let before = nodes_of_qn(rows, qn, n - 1);
        if rows[n - 1].qualified_name == Some(qn) {
            before.push(rows[n - 1].node)
        } else {
            before
        }
    }
}

/// The nodes of file `file` among the first `n` rows, in row order.
pub open spec fn nodes_of_file(rows: Seq<IndexRow>, file: FileId, n: int) -> Seq<NodeId>
    decreases n,
{
    if n <= 0 {
        Seq::empty()
    } else {
        let before = nodes_of_file(rows, file, n - 1);
        if rows[n - 1].file == file {
            before.push(rows[n - 1].node)
        } else {
            before
        }
    }
}

impl AuxiliaryIndices {
    /// Indices of no node.
    pub fn new() -> (r: AuxiliaryIndices)
        ensures
            r@ == Seq::<IndexRow>::empty(),
    {
        AuxiliaryIndices { rows: Vec::new() }
    }

    /// Indexes `node`, unless it is indexed already.
    pub fn add(&mut self, node: NodeId, entry: &NodeEntry)
        ensures
            final(self)@ == with_row(old(self)@, row_of(node, *entry)),
    {
        let row = IndexRow {
            node,
            kind: entry.kind,
            name: entry.name,
            qualified_name: entry.qualified_name,
            file: entry.file,
        };
        let mut i: usize = 0;
        while i < self.rows.len()
            invariant
                i <= self.rows@.len(),
                self@ == old(self)@,
                row == row_of(node, *entry),
                forall|j: int| 0 <= j < i ==> self.rows@[j] != row,
            decreases self.rows@.len() - i,
        {
            if self.rows[i] == row {
                assert(self.rows@[i as int] == row);
                return ;
            }
            i = i + 1;
        }
        self.rows.push(row);
    }

    /// Indexes each of `nodes` that is live.
    pub fn add_nodes(&mut self, arena: &NodeArena, nodes: &Vec<NodeId>)
        ensures
            final(self)@ == rows_with_nodes(
                old(self)@,
                arena@,
                nodes@,
                nodes@.len() as int,
            ),
    {
        for i in 0..nodes.len()
            invariant
                self@ == rows_with_nodes(old(self)@, arena@, nodes@, i as int),
        {
            match arena.get(nodes[i]) {
                Some(e) => self.add(nodes[i], &e),
                None => {},
            }
        }
    }

    /// Indexes the nodes of `arena` afresh. Nodes without a valid name stay out.
    pub fn build_from_arena(&mut self, arena: &NodeArena)
        ensures
            final(self)@ == rows_of_arena(arena@, arena@.len() as int),
    {
        let mut rows: Vec<IndexRow> = Vec::new();
        let invalid: StringId = StringId::invalid();
        for i in 0..arena.slots.len()
            invariant
                invalid == StringId::spec_invalid(),
                rows@ == rows_of_arena(arena@, i as int),
        {
            match arena.slots[i].entry {
                Some(e) => {
                    if e.name != invalid {
                        rows.push(
                            IndexRow {
                                node: NodeId {
                                    index: i as u32,
                                    generation: arena.slots[i].generation,
                                },
                                kind: e.kind,
                                name: e.name,
                                qualified_name: e.qualified_name,
                                file: e.file,
                            },
                        );
                    }
                },
                None => {},
            }
        }
        self.rows = rows;
    }

    /// The nodes of kind `kind`.
    pub fn by_kind(&self, kind: NodeKind) -> (r: Vec<NodeId>)
        ensures
            r@ == nodes_of_kind(self@, kind, self@.len() as int),
    {
        let mut out: Vec<NodeId> = Vec::new();
        for i in 0..self.rows.len()
            invariant
                out@ == nodes_of_kind(self@, kind, i as int),
        {
            if self.rows[i].kind == kind {
                out.push(self.rows[i].node);
            }
        }
        out
    }

    /// The nodes named `name`.
    pub fn by_name(&self, name: StringId) -> (r: Vec<NodeId>)
        ensures
            r@ == nodes_of_name(self@, name, self@.len() as int),
    {
        let mut out: Vec<NodeId> = Vec::new();
        for i in 0..self.rows.len()
            invariant
                out@ == nodes_of_name(self@, name, i as int),
        {
            if self.rows[i].name == name {
                out.push(self.rows[i].node);
            }
        }
        out
    }

    /// The nodes with qualified name `qn`.
    pub fn by_qualified_name(&self, qn: StringId) -> (r: Vec<NodeId>)
        ensures
            r@ == nodes_of_qn(self@, qn, self@.len() as int),
    {
        let mut out: Vec<NodeId> = Vec::new();
        for i in 0..self.rows.len()
            invariant
                out@ == nodes_of_qn(self@, qn, i as int),
        {
            let hit: bool = match self.rows[i].qualified_name {
                Some(q) => q == qn,
                None => false,
            };
            if hit {
                out.push(self.rows[i].node);
            }
        }
        out
    }

    /// The nodes of file `file`.
    pub fn by_file(&self, file: FileId) -> (r: Vec<NodeId>)
        ensures
            r@ == nodes_of_file(self@, file, self@.len() as int),
    {
        let mut out: Vec<NodeId> = Vec::new();
        for i in 0..self.rows.len()
            invariant
                out@ == nodes_of_file(self@, file, i as int),
        {
            if self.rows[i].file == file {
                out.push(self.rows[i].node);
            }
        }
        out
    }
}

pub(crate) proof fn lemma_filter_take<A>(s: Seq<A>, p: spec_fn(A) -> bool, n: int)
    requires
        0 < n <= s.len(),
    ensures
        s.take(n).filter(p) == (if p(s[n - 1]) {
            s.take(n - 1).filter(p).push(s[n - 1])
        } else {
            s.take(n - 1).filter(p)
        }),
{
    reveal(Seq::filter);
    assert(s.take(n).drop_last() =~= s.take(n - 1));
    assert(s.take(n).last() == s[n - 1]);
}

/// Looking up a kind, a name, a qualified name or a file gives the nodes of exactly the
/// rows that say so, in their order.
pub proof fn law_lookups_give_the_rows_that_say_so(
    rows: Seq<IndexRow>,
    kind: NodeKind,
    name: StringId,
    qn: StringId,
    file: FileId,
)
    ensures
        nodes_of_kind(rows, kind, rows.len() as int) == rows.filter(
            |r: IndexRow| r.kind == kind,
        ).map_values(|r: IndexRow| r.node),
        nodes_of_name(rows, name, rows.len() as int) == rows.filter(
            |r: IndexRow| r.name == name,
        ).map_values(|r: IndexRow| r.node),
        nodes_of_qn(rows, qn, rows.len() as int) == rows.filter(
            |r: IndexRow| r.qualified_name == Some(qn),
        ).map_values(|r: IndexRow| r.node),
        nodes_of_file(rows, file, rows.len() as int) == rows.filter(
            |r: IndexRow| r.file == file,
        ).map_values(|r: IndexRow| r.node),
{
    lemma_lookups(rows, kind, name, qn, file, rows.len() as int);
    assert(rows.take(rows.len() as int) =~= rows);
}

proof fn lemma_lookups(
    rows: Seq<IndexRow>,
    kind: NodeKind,
    name: StringId,
    qn: StringId,
    file: FileId,
    n: int,
)
    requires
        0 <= n <= rows.len(),
    ensures
        ({
            let node = |r: IndexRow| r.node;
            let all = rows.take(n);
            &&& nodes_of_kind(rows, kind, n) == all.filter(
                |r: IndexRow| r.kind == kind,
            ).map_values(node)
            &&& nodes_of_name(rows, name, n) == all.filter(
                |r: IndexRow| r.name == name,
            ).map_values(node)
            &&& nodes_of_qn(rows, qn, n) == all.filter(
                |r: IndexRow| r.qualified_name == Some(qn),
            ).map_values(node)
            &&& nodes_of_file(rows, file, n) == all.filter(
                |r: IndexRow| r.file == file,
            ).map_values(node)
        }),
    decreases n,
{
    let node = |r: IndexRow| r.node;
    let p = |r: IndexRow| r.kind == kind;
    let q = |r: IndexRow| r.name == name;
    let u = |r: IndexRow| r.qualified_name == Some(qn);
    let v = |r: IndexRow| r.file == file;
    if n > 0 {
        lemma_lookups(rows, kind, name, qn, file, n - 1);
        lemma_filter_take(rows, p, n);
        lemma_filter_take(rows, q, n);
        lemma_filter_take(rows, u, n);
        lemma_filter_take(rows, v, n);
        let all = rows.take(n - 1);
        let r = rows[n - 1];
        assert(all.filter(p).push(r).map_values(node) =~= all.filter(p).map_values(node).push(
            r.node,
        ));
        assert(all.filter(q).push(r).map_values(node) =~= all.filter(q).map_values(node).push(
            r.node,
        ));
        assert(all.filter(u).push(r).map_values(node) =~= all.filter(u).map_values(node).push(
            r.node,
        ));
        assert(all.filter(v).push(r).map_values(node) =~= all.filter(v).map_values(node).push(
            r.node,
        ));
        assert(nodes_of_kind(rows, kind, n) =~= rows.take(n).filter(p).map_values(node));
        assert(nodes_of_name(rows, name, n) =~= rows.take(n).filter(q).map_values(node));
        assert(nodes_of_qn(rows, qn, n) =~= rows.take(n).filter(u).map_values(node));
        assert(nodes_of_file(rows, file, n) =~= rows.take(n).filter(v).map_values(node));
    } else {
        reveal(Seq::filter);
        let none = rows.take(0);
        assert(none.filter(p).map_values(node) =~= Seq::empty());
        assert(none.filter(q).map_values(node) =~= Seq::empty());
        assert(none.filter(u).map_values(node) =~= Seq::empty());
        assert(none.filter(v).map_values(node) =~= Seq::empty());
    }
}

/// One of the first `n` rows says that `node` is of kind `kind`.
pub open spec fn kind_row(rows: Seq<IndexRow>, kind: NodeKind, n: int, node: NodeId) -> bool {
    exists|k: int| 0 <= k < n && (#[trigger] rows[k]).kind == kind && rows[k].node == node
}

pub(crate) proof fn lemma_kind_rows(rows: Seq<IndexRow>, kind: NodeKind, n: int, node: NodeId)
    requires
        0 <= n <= rows.len(),
    ensures
        nodes_of_kind(rows, kind, n).contains(node) <==> kind_row(rows, kind, n, node),
    decreases n,
{
    if n > 0 {
        lemma_kind_rows(rows, kind, n - 1, node);
        let before = nodes_of_kind(rows, kind, n - 1);
        let after = nodes_of_kind(rows, kind, n);
        if before.contains(node) {
            let i = before.index_of(node);
            assert(after[i] == node);
        }
        if after.contains(node) && !before.contains(node) {
            let i = after.index_of(node);
            if i < before.len() {
                assert(before[i] == node);
            }
            assert(rows[n - 1].node == node);
        }
        if kind_row(rows, kind, n - 1, node) {
            let k = choose|k: int|
                0 <= k < n - 1 && (#[trigger] rows[k]).kind == kind && rows[k].node == node;
            assert(rows[k].node == node);
        }
        if kind_row(rows, kind, n, node) && !kind_row(rows, kind, n - 1, node) {
            let k = choose|k: int|
                0 <= k < n && (#[trigger] rows[k]).kind == kind && rows[k].node == node;
            assert(k == n - 1);
            assert(after[before.len() as int] == node);
        }
    }
}

/// One of the first `n` rows says that `node` is of file `file`.
pub open spec fn file_row(rows: Seq<IndexRow>, file: FileId, n: int, node: NodeId) -> bool {
    exists|k: int| 0 <= k < n && (#[trigger] rows[k]).file == file && rows[k].node == node
}

pub(crate) proof fn lemma_file_rows(rows: Seq<IndexRow>, file: FileId, n: int, node: NodeId)
    requires
        0 <= n <= rows.len(),
    ensures
        nodes_of_file(rows, file, n).contains(node) <==> file_row(rows, file, n, node),
    decreases n,
{
    if n > 0 {
        lemma_file_rows(rows, file, n - 1, node);
        let before = nodes_of_file(rows, file, n - 1);
        let after = nodes_of_file(rows, file, n);
        if before.contains(node) {
            let i = before.index_of(node);
            assert(after[i] == node);
        }
        if after.contains(node) && !before.contains(node) {
            let i = after.index_of(node);
            if i < before.len() {
                assert(before[i] == node);
            }
            assert(rows[n - 1].node == node);
        }
        if file_row(rows, file, n - 1, node) {
            let k = choose|k: int|
                0 <= k < n - 1 && (#[trigger] rows[k]).file == file && rows[k].node == node;
            assert(rows[k].node == node);
        }
        if file_row(rows, file, n, node) && !file_row(rows, file, n - 1, node) {
            let k = choose|k: int|
                0 <= k < n && (#[trigger] rows[k]).file == file && rows[k].node == node;
            assert(k == n - 1);
            assert(after[before.len() as int] == node);
        }
    }
}

/// Row `r` says what `e`, the node `node`, is.
pub open spec fn says_what_is(r: IndexRow, node: NodeId, e: NodeEntry) -> bool {
    &&& r.node == node
    &&& r.kind == e.kind
    &&& r.name == e.name
    &&& r.qualified_name == e.qualified_name
    &&& r.file == e.file
}

/// Built from the nodes, the indices have one row for each live node with a valid name, in
/// the order of the slots, which says what the node is; and no other row.
pub proof fn law_rebuilt_indices_have_every_named_node_once(slots: Seq<Slot>)
    requires
        slots.len() <= 0x1_0000_0000,
    ensures
        ({
            let rows = rows_of_arena(slots, slots.len() as int);
            &&& forall|id: NodeId|
                (#[trigger] live(slots, id)) is Some && live(slots, id)->0.name
                    != StringId::spec_invalid() ==> exists|k: int|
                    0 <= k < rows.len() && says_what_is(#[trigger] rows[k], id, live(slots, id)->0)
            &&& forall|k: int|
                0 <= k < rows.len() ==> {
                    let r = #[trigger] rows[k];
                    &&& live(slots, r.node) is Some
                    &&& live(slots, r.node)->0.name != StringId::spec_invalid()
                    &&& says_what_is(r, r.node, live(slots, r.node)->0)
                }
            &&& forall|i: int, j: int|
                0 <= i < j < rows.len() ==> (#[trigger] rows[i]).node.index < (
                #[trigger] rows[j]).node.index
        }),
{
    lemma_rebuilt(slots, slots.len() as int);
}

proof fn lemma_rebuilt(slots: Seq<Slot>, n: int)
    requires
        0 <= n <= slots.len() <= 0x1_0000_0000,
    ensures
        ({
            let rows = rows_of_arena(slots, n);
            &&& forall|id: NodeId|
                id.index < n && (#[trigger] live(slots, id)) is Some && live(slots, id)->0.name
                    != StringId::spec_invalid() ==> exists|k: int|
                    0 <= k < rows.len() && says_what_is(#[trigger] rows[k], id, live(slots, id)->0)
            &&& forall|k: int|
                0 <= k < rows.len() ==> {
                    let r = #[trigger] rows[k];
                    &&& r.node.index < n
                    &&& live(slots, r.node) is Some
                    &&& live(slots, r.node)->0.name != StringId::spec_invalid()
                    &&& says_what_is(r, r.node, live(slots, r.node)->0)
                }
            &&& forall|i: int, j: int|
                0 <= i < j < rows.len() ==> (#[trigger] rows[i]).node.index < (
                #[trigger] rows[j]).node.index
        }),
    decreases n,
{
    if n > 0 {
        lemma_rebuilt(slots, n - 1);
        let before = rows_of_arena(slots, n - 1);
        let rows = rows_of_arena(slots, n);
        assert forall|id: NodeId|
            id.index < n && (#[trigger] live(slots, id)) is Some && live(slots, id)->0.name
                != StringId::spec_invalid() implies exists|k: int|
            0 <= k < rows.len() && says_what_is(#[trigger] rows[k], id, live(slots, id)->0) by {
            if id.index < n - 1 {
                let k = choose|k: int|
                    0 <= k < before.len() && says_what_is(
                        #[trigger] before[k],
                        id,
                        live(slots, id)->0,
                    );
                assert(rows[k] == before[k]);
            } else {
                assert(says_what_is(rows[before.len() as int], id, live(slots, id)->0));
            }
        }
        assert forall|k: int| 0 <= k < rows.len() implies {
            let r = #[trigger] rows[k];
            &&& r.node.index < n
            &&& live(slots, r.node) is Some
            &&& live(slots, r.node)->0.name != StringId::spec_invalid()
            &&& says_what_is(r, r.node, live(slots, r.node)->0)
        } by {
            if k < before.len() {
                assert(rows[k] == before[k]);
            }
        }
        assert forall|i: int, j: int| 0 <= i < j < rows.len() implies (#[trigger] rows[i]).node.index
            < (#[trigger] rows[j]).node.index by {
            assert(rows[i] == before[i]);
            if j < before.len() {
                assert(rows[j] == before[j]);
            }
        }
    }
}

/// Indexing more nodes keeps the rows that are there, adds one for each of the nodes that
/// is live and has none that says the same, and nothing else.
pub proof fn law_indexing_adds_rows_of_live_nodes(
    rows: Seq<IndexRow>,
    slots: Seq<Slot>,
    nodes: Seq<NodeId>,
    n: int,
)
    requires
        0 <= n <= nodes.len(),
    ensures
        ({
            let all = rows_with_nodes(rows, slots, nodes, n);
            &&& rows.is_prefix_of(all)
            &&& forall|i: int|
                0 <= i < n && live(slots, #[trigger] nodes[i]) is Some ==> exists|k: int|
                    0 <= k < all.len() && says_what_is(
                        #[trigger] all[k],
                        nodes[i],
                        live(slots, nodes[i])->0,
                    )
            &&& forall|k: int|
                rows.len() <= k < all.len() ==> {
                    let r = #[trigger] all[k];
                    &&& live(slots, r.node) is Some
                    &&& says_what_is(r, r.node, live(slots, r.node)->0)
                    &&& nodes.contains(r.node)
                    &&& forall|j: int| 0 <= j < k ==> #[trigger] all[j] != r
                }
        }),
    decreases n,
{
    if n > 0 {
        law_indexing_adds_rows_of_live_nodes(rows, slots, nodes, n - 1);
        let before = rows_with_nodes(rows, slots, nodes, n - 1);
        let all = rows_with_nodes(rows, slots, nodes, n);
        assert forall|i: int| 0 <= i < n && live(slots, #[trigger] nodes[i]) is Some implies exists|
            k: int,
        |
            0 <= k < all.len() && says_what_is(
                #[trigger] all[k],
                nodes[i],
                live(slots, nodes[i])->0,
            ) by {
            if i < n - 1 {
                let k = choose|k: int|
                    0 <= k < before.len() && says_what_is(
                        #[trigger] before[k],
                        nodes[i],
                        live(slots, nodes[i])->0,
                    );
                assert(all[k] == before[k]);
            } else {
                let row = row_of(nodes[i], live(slots, nodes[i])->0);
                if before.contains(row) {
                    assert(says_what_is(
                        all[before.index_of(row)],
                        nodes[i],
                        live(slots, nodes[i])->0,
                    ));
                } else {
                    assert(says_what_is(
                        all[before.len() as int],
                        nodes[i],
                        live(slots, nodes[i])->0,
                    ));
                }
            }
        }
        assert forall|k: int| rows.len() <= k < all.len() implies {
            let r = #[trigger] all[k];
            &&& live(slots, r.node) is Some
            &&& says_what_is(r, r.node, live(slots, r.node)->0)
            &&& nodes.contains(r.node)
            &&& forall|j: int| 0 <= j < k ==> #[trigger] all[j] != r
        } by {
            if k < before.len() {
                assert(all[k] == before[k]);
                assert forall|j: int| 0 <= j < k implies #[trigger] all[j] != all[k] by {
                    assert(all[j] == before[j]);
                }
            } else {
                assert(nodes[n - 1] == all[k].node);
                assert forall|j: int| 0 <= j < k implies #[trigger] all[j] != all[k] by {
                    assert(all[j] == before[j]);
                    assert(before.contains(before[j]));
                }
            }
        }
    }
}

} // verus!
