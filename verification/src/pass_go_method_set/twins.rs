//! Two runs of the pass, step by step: what the one does, the other does.

use vstd::prelude::*;

use crate::arena::{
    allocated, can_allocate, free_from, law_allocation_keeps_nodes, lemma_free_from, live, next_id,
    reusable, NodeEntry,
};
use crate::graph::GraphView;
use crate::ids::{FileId, NodeId, StringId};
use crate::indices::{row_of, rows_with_nodes, IndexRow};
use crate::kinds::{EdgeKind, NodeKind};
use crate::pass_go_method_set::materialise::{
    linked, minted, outer_at, pointer_type_at, promoted_at, split_qn, surveyed, surveyed_one,
    with_anchor, with_edge, with_gain, with_gains, with_member, with_members, GainView, LocalView,
    MetaView, MintState, OuterKey, PointerTypeKey, PromotedKey,
};
use crate::pass_go_method_set::promotion::{counted_up, PromotedMethod};
use crate::pass_go_method_set::rerun::lemma_slot_prefix;
use crate::pass_go_method_set::satisfaction::indexed;
use crate::pass_go_method_set::steady::apart;
use crate::pass_go_method_set::twin_sets::runs;
use crate::pass_go_method_set::undo::{known, made, named_truly, passed};
use crate::pass_go_method_set::promoted;
use crate::strings::{lemma_slot_from, lemma_slot_from_push, slot_from};

verus! {

/// What stands in `t` where `x` stands elsewhere: what was gone from `g` for good stands
/// nowhere and keeps its name.
pub open spec fn peer(g: GraphView, t: GraphView, x: NodeId) -> NodeId {
    if passed(g, x) {
        x
    } else {
        NodeId { index: x.index, generation: t.nodes[x.index as int].generation }
    }
}

/// The slots of two runs hold the same nodes.
pub open spec fn twin_slots(g: GraphView, t: GraphView, b: GraphView, c: GraphView) -> bool {
    &&& g.nodes.len() <= b.nodes.len() <= c.nodes.len()
    &&& c.nodes.len() == t.nodes.len()
    &&& forall|i: int|
        0 <= i < b.nodes.len() ==> (#[trigger] b.nodes[i]).entry == c.nodes[i].entry
            && b.nodes[i].generation < u64::MAX
    &&& forall|i: int|
        b.nodes.len() <= i < c.nodes.len() ==> (#[trigger] c.nodes[i]).entry is None
    &&& forall|i: int|
        0 <= i < c.nodes.len() ==> (#[trigger] c.nodes[i]).generation == t.nodes[i].generation
            && c.nodes[i].generation < u64::MAX
    &&& forall|i: int|
        0 <= i < g.nodes.len() ==> (#[trigger] b.nodes[i]).generation == g.nodes[i].generation
            && g.nodes[i].generation <= t.nodes[i].generation
    &&& forall|id: NodeId|
        (#[trigger] live(g.nodes, id)) is Some ==> live(b.nodes, id) == live(g.nodes, id) && live(
            c.nodes,
            id,
        ) == live(g.nodes, id)
}

/// The edges of two runs are the same.
pub open spec fn twin_edges(g: GraphView, t: GraphView, b: GraphView, c: GraphView) -> bool {
    &&& b.edges.edges.len() == c.edges.edges.len()
    &&& forall|i: int|
        0 <= i < b.edges.edges.len() ==> {
            let e = #[trigger] b.edges.edges[i];
            let f = c.edges.edges[i];
            &&& known(g, b, e.source)
            &&& known(g, b, e.target)
            &&& f.source == peer(g, t, e.source)
            &&& f.target == peer(g, t, e.target)
            &&& f.kind == e.kind
            &&& f.file == e.file
        }
}

/// Two runs have indexed the same.
pub open spec fn twin_rows(g: GraphView, t: GraphView, b: GraphView, c: GraphView) -> bool {
    &&& g.indices.is_prefix_of(b.indices)
    &&& t.indices.is_prefix_of(c.indices)
    &&& b.indices.len() - g.indices.len() == c.indices.len() - t.indices.len()
    &&& forall|k: int|
        g.indices.len() <= k < b.indices.len() ==> {
            let r = #[trigger] b.indices[k];
            &&& live(g.nodes, r.node) is None
            &&& live(b.nodes, r.node) is Some
            &&& r == row_of(r.node, live(b.nodes, r.node)->0)
            &&& c.indices[k - g.indices.len() + t.indices.len()] == (IndexRow {
                node: peer(g, t, r.node),
                ..r
            })
        }
}

/// The same nodes are marked synthetic.
pub open spec fn twin_marks(g: GraphView, t: GraphView, b: GraphView, c: GraphView) -> bool {
    forall|id: NodeId|
        (#[trigger] live(b.nodes, id)) is Some ==> c.metadata.is_synthetic(peer(g, t, id))
            == b.metadata.is_synthetic(id)
}

/// A run that has come from `g` to `b` and one that has come from `t` to `c` have done the
/// same.
pub open spec fn twins(g: GraphView, t: GraphView, b: GraphView, c: GraphView) -> bool {
    &&& twin_slots(g, t, b, c)
    &&& twin_marks(g, t, b, c)
    &&& twin_edges(g, t, b, c)
    &&& twin_rows(g, t, b, c)
    &&& b.strings.text.is_prefix_of(t.strings.text)
    &&& c.strings.text == t.strings.text
}

/// `b` has not yet grown beyond `t`, and `t` is within the limits of the machine.
pub open spec fn fits(t: GraphView, b: GraphView) -> bool {
    &&& b.strings.text.is_prefix_of(t.strings.text)
    &&& b.nodes.len() <= t.nodes.len() < u32::MAX
    &&& t.strings.text.len() < 0x8000_0000
}

/// `c` has what `b` has and perhaps more.
pub open spec fn extends(b: GraphView, c: GraphView) -> bool {
    &&& b.strings.text.is_prefix_of(c.strings.text)
    &&& b.nodes.len() <= c.nodes.len()
    &&& forall|i: int|
        0 <= i < b.nodes.len() ==> (#[trigger] c.nodes[i]).generation == b.nodes[i].generation
    &&& forall|i: int|
        b.nodes.len() <= i < c.nodes.len() ==> (#[trigger] c.nodes[i]).generation == 1
    &&& forall|id: NodeId|
        (#[trigger] live(b.nodes, id)) is Some ==> live(c.nodes, id) == live(b.nodes, id)
}

pub(crate) proof fn lemma_extends_on(a: GraphView, b: GraphView, c: GraphView)
    requires
        extends(a, b),
        extends(b, c),
    ensures
        extends(a, c),
{
    assert(a.strings.text =~= c.strings.text.take(a.strings.text.len() as int));
    assert forall|id: NodeId| (#[trigger] live(a.nodes, id)) is Some implies live(c.nodes, id)
        == live(a.nodes, id) by {
        assert(live(b.nodes, id) == live(a.nodes, id));
    }
}

pub(crate) proof fn lemma_fits_before(t: GraphView, b: GraphView, c: GraphView)
    requires
        extends(b, c),
        fits(t, c),
    ensures
        fits(t, b),
{
    assert(b.strings.text =~= t.strings.text.take(b.strings.text.len() as int));
}

pub(crate) proof fn lemma_intern_extends(b: GraphView, s: Seq<char>)
    ensures
        extends(b, (GraphView { strings: b.strings.interned(s), ..b })),
{
    let c = GraphView { strings: b.strings.interned(s), ..b };
    assert(b.strings.text =~= c.strings.text.take(b.strings.text.len() as int));
}

pub(crate) proof fn lemma_mint_extends(
    b: GraphView,
    kind: NodeKind,
    short: Seq<char>,
    qn: StringId,
    file: FileId,
)
    ensures
        extends(b, minted(b, kind, short, qn, file).g),
{
    let m = minted(b, kind, short, qn, file);
    lemma_intern_extends(b, short);
    lemma_free_from(b.nodes, 0);
    assert(m.g.strings == b.strings.interned(short));
    assert(b.nodes.len() <= m.g.nodes.len());
    let entry = NodeEntry {
        qualified_name: Some(qn),
        ..NodeEntry::bare(kind, b.strings.intern_id(short), file)
    };
    assert forall|id: NodeId| (#[trigger] live(b.nodes, id)) is Some implies live(m.g.nodes, id)
        == live(b.nodes, id) by {
        if m.id is Some {
            law_allocation_keeps_nodes(b.nodes, entry, id);
        }
    }
}

/// What is known in both runs has one peer, which is itself where it was there before.
pub(crate) proof fn lemma_peer(g: GraphView, t: GraphView, b: GraphView, c: GraphView, x: NodeId)
    requires
        twin_slots(g, t, b, c),
        known(g, b, x),
    ensures
        live(c.nodes, peer(g, t, x)) == live(b.nodes, x),
        live(g.nodes, x) is Some || passed(g, x) ==> peer(g, t, x) == x,
{
    let i = x.index as int;
    assert(b.nodes[i].entry == c.nodes[i].entry);
    assert(c.nodes[i].generation == t.nodes[i].generation);
    if i < g.nodes.len() {
        assert(b.nodes[i].generation == g.nodes[i].generation);
    }
    if live(g.nodes, x) is Some {
        assert(live(c.nodes, x) == live(g.nodes, x));
    }
}

pub(crate) proof fn lemma_twin_intern(
    g: GraphView,
    t: GraphView,
    b: GraphView,
    c: GraphView,
    s: Seq<char>,
)
    requires
        twins(g, t, b, c),
        fits(t, (GraphView { strings: b.strings.interned(s), ..b })),
    ensures
        b.strings.can_intern(s),
        c.strings.can_intern(s),
        b.strings.intern_id(s) == c.strings.intern_id(s),
        twins(
            g,
            t,
            (GraphView { strings: b.strings.interned(s), ..b }),
            (GraphView { strings: c.strings.interned(s), ..c }),
        ),
{
    let b1 = GraphView { strings: b.strings.interned(s), ..b };
    lemma_slot_from(b.strings.text, s, 0);
    if slot_from(b.strings.text, s, 0) is None {
        lemma_slot_from_push(b.strings.text, s, 0);
    }
    lemma_slot_prefix(b1.strings.text, t.strings.text, s, 0);
}

proof fn lemma_twin_free(g: GraphView, t: GraphView, b: GraphView, c: GraphView, i: int)
    requires
        twins(g, t, b, c),
        0 <= i <= b.nodes.len(),
    ensures
        free_from(b.nodes, i) == free_from(c.nodes, i),
    decreases b.nodes.len() - i,
{
    if i < b.nodes.len() {
        assert(b.nodes[i].entry == c.nodes[i].entry);
        lemma_twin_free(g, t, b, c, i + 1);
    } else if i < c.nodes.len() {
        assert(c.nodes[i].entry is None);
        assert(reusable(c.nodes[i]));
    }
}

pub(crate) proof fn lemma_twin_mint(
    g: GraphView,
    t: GraphView,
    b: GraphView,
    c: GraphView,
    kind: NodeKind,
    short: Seq<char>,
    qn: StringId,
    file: FileId,
)
    requires
        twins(g, t, b, c),
        fits(t, minted(b, kind, short, qn, file).g),
    ensures
        twins(g, t, minted(b, kind, short, qn, file).g, minted(c, kind, short, qn, file).g),
        minted(b, kind, short, qn, file).id matches Some(x) && minted(c, kind, short, qn, file).id
            == Some(peer(g, t, x)) && live(minted(b, kind, short, qn, file).g.nodes, x) is Some
            && live(g.nodes, x) is None && live(b.nodes, x) is None,
{
    let b1 = GraphView { strings: b.strings.interned(short), ..b };
    let c1 = GraphView { strings: c.strings.interned(short), ..c };
    let m = minted(b, kind, short, qn, file);
    let k = minted(c, kind, short, qn, file);
    assert(fits(t, b1)) by {
        if m.id is Some {
            assert(m.g.strings == b1.strings);
        }
        lemma_mint_extends(b, kind, short, qn, file);
    }
    lemma_twin_intern(g, t, b, c, short);
    lemma_twin_free(g, t, b, c, 0);
    lemma_free_from(b.nodes, 0);
    lemma_free_from(c.nodes, 0);
    let i = free_from(b.nodes, 0);
    let entry = NodeEntry {
        qualified_name: Some(qn),
        ..NodeEntry::bare(kind, b.strings.intern_id(short), file)
    };
    assert(can_allocate(b.nodes));
    let x = next_id(b.nodes);
    assert(m.g.nodes == allocated(b.nodes, entry));
    assert(k.g.nodes == allocated(c.nodes, entry));
    assert(i < t.nodes.len());
    assert(k.id == Some(peer(g, t, x)));
    if i < b.nodes.len() {
        assert(reusable(b.nodes[i]));
    }
    assert(live(m.g.nodes, x) is Some);
    assert forall|id: NodeId| (#[trigger] live(b.nodes, id)) is Some implies live(m.g.nodes, id)
        == live(b.nodes, id) by {
        law_allocation_keeps_nodes(b.nodes, entry, id);
    }
    assert(live(b.nodes, x) is None);
    if live(g.nodes, x) is Some {
        assert(live(b.nodes, x) == live(g.nodes, x));
    }
    assert forall|id: NodeId| (#[trigger] live(g.nodes, id)) is Some implies live(m.g.nodes, id)
        == live(g.nodes, id) && live(k.g.nodes, id) == live(g.nodes, id) by {
        assert(live(b.nodes, id) is Some);
        assert(live(c.nodes, id) is Some);
        law_allocation_keeps_nodes(c.nodes, entry, id);
    }
    assert(twin_slots(g, t, m.g, k.g));
    assert(twin_marks(g, t, m.g, k.g)) by {
        assert forall|id: NodeId| (#[trigger] live(m.g.nodes, id)) is Some implies k.g.metadata.is_synthetic(
            peer(g, t, id),
        ) == m.g.metadata.is_synthetic(id) by {
            if id != x {
                assert(live(b.nodes, id) is Some);
                assert(id.index != x.index);
            }
        }
    }
    assert(twin_edges(g, t, m.g, k.g)) by {
        assert forall|i: int| 0 <= i < m.g.edges.edges.len() implies {
            let e = #[trigger] m.g.edges.edges[i];
            let f = k.g.edges.edges[i];
            &&& known(g, m.g, e.source)
            &&& known(g, m.g, e.target)
            &&& f.source == peer(g, t, e.source)
            &&& f.target == peer(g, t, e.target)
            &&& f.kind == e.kind
            &&& f.file == e.file
        } by {
            let e = b.edges.edges[i];
            assert(known(g, b, e.source) && known(g, b, e.target));
        }
    }
    assert(twin_rows(g, t, m.g, k.g)) by {
        assert forall|k: int| g.indices.len() <= k < b.indices.len() implies live(
            m.g.nodes,
            (#[trigger] b.indices[k]).node,
        ) == live(b.nodes, b.indices[k].node) by {
            assert(live(b.nodes, b.indices[k].node) is Some);
        }
    }
}

pub(crate) proof fn lemma_twin_edge(
    g: GraphView,
    t: GraphView,
    b: GraphView,
    c: GraphView,
    source: NodeId,
    target: NodeId,
    kind: EdgeKind,
    file: FileId,
)
    requires
        twins(g, t, b, c),
        known(g, b, source),
        known(g, b, target),
    ensures
        twins(
            g,
            t,
            with_edge(b, source, target, kind, file),
            with_edge(c, peer(g, t, source), peer(g, t, target), kind, file),
        ),
{
    let b1 = with_edge(b, source, target, kind, file);
    let c1 = with_edge(c, peer(g, t, source), peer(g, t, target), kind, file);
    assert forall|i: int| 0 <= i < b1.edges.edges.len() implies {
        let e = #[trigger] b1.edges.edges[i];
        let f = c1.edges.edges[i];
        &&& known(g, b1, e.source)
        &&& known(g, b1, e.target)
        &&& f.source == peer(g, t, e.source)
        &&& f.target == peer(g, t, e.target)
        &&& f.kind == e.kind
        &&& f.file == e.file
    } by {
        if i < b.edges.edges.len() {
            assert(b1.edges.edges[i] == b.edges.edges[i]);
        }
    }
}

/// Two runs have noted the same promoted methods.
pub open spec fn twin_promoted(
    g: GraphView,
    t: GraphView,
    b: GraphView,
    x: Seq<PromotedKey>,
    y: Seq<PromotedKey>,
) -> bool {
    &&& x.len() == y.len()
    &&& forall|i: int|
        0 <= i < x.len() ==> live(b.nodes, (#[trigger] x[i]).node) is Some && y[i]
            == (PromotedKey { node: peer(g, t, x[i].node), ..x[i] })
}

/// Two runs have noted the same pointers.
pub open spec fn twin_pointer_types(
    g: GraphView,
    t: GraphView,
    b: GraphView,
    x: Seq<PointerTypeKey>,
    y: Seq<PointerTypeKey>,
) -> bool {
    &&& x.len() == y.len()
    &&& forall|i: int|
        0 <= i < x.len() ==> live(b.nodes, (#[trigger] x[i]).node) is Some && y[i]
            == (PointerTypeKey { node: peer(g, t, x[i].node), ..x[i] })
}

/// Two runs have noted the same methods for the same structs.
pub open spec fn twin_outers(
    g: GraphView,
    t: GraphView,
    b: GraphView,
    x: Seq<OuterKey>,
    y: Seq<OuterKey>,
) -> bool {
    &&& x.len() == y.len()
    &&& forall|i: int|
        0 <= i < x.len() ==> live(g.nodes, (#[trigger] x[i]).outer) is Some && live(
            b.nodes,
            x[i].node,
        ) is Some && y[i] == (OuterKey { node: peer(g, t, x[i].node), ..x[i] })
}

/// Two runs have noted the same.
pub open spec fn twin_notes(
    g: GraphView,
    t: GraphView,
    b: GraphView,
    x: LocalView,
    y: LocalView,
) -> bool {
    &&& twin_promoted(g, t, b, x.value, y.value)
    &&& twin_promoted(g, t, b, x.pointer, y.pointer)
    &&& twin_pointer_types(g, t, b, x.pointer_type, y.pointer_type)
    &&& twin_outers(g, t, b, x.outer_value, y.outer_value)
    &&& twin_outers(g, t, b, x.outer_pointer, y.outer_pointer)
}

/// The nodes that one run has made have their peers in the other.
pub open spec fn twin_fresh(
    g: GraphView,
    t: GraphView,
    b: GraphView,
    x: Seq<NodeId>,
    y: Seq<NodeId>,
) -> bool {
    &&& x.len() == y.len()
    &&& forall|i: int|
        0 <= i < x.len() ==> live(b.nodes, #[trigger] x[i]) is Some && live(g.nodes, x[i]) is None
            && y[i] == peer(g, t, x[i])
}

/// Two runs have made the same promoted methods.
pub open spec fn twin_mints(g: GraphView, t: GraphView, x: MintState, y: MintState) -> bool {
    &&& twins(g, t, x.g, y.g)
    &&& twin_notes(g, t, x.g, x.idx, y.idx)
    &&& twin_fresh(g, t, x.g, x.fresh, y.fresh)
    &&& x.promoted == y.promoted
}

pub(crate) proof fn lemma_notes_stay(
    g: GraphView,
    t: GraphView,
    b: GraphView,
    c: GraphView,
    x: LocalView,
    y: LocalView,
)
    requires
        extends(b, c),
        twin_notes(g, t, b, x, y),
    ensures
        twin_notes(g, t, c, x, y),
{
    assert forall|id: NodeId| live(b.nodes, id) is Some implies #[trigger] live(c.nodes, id) is Some by {
        assert(live(b.nodes, id) is Some);
    }
}

proof fn lemma_fresh_stays(
    g: GraphView,
    t: GraphView,
    b: GraphView,
    c: GraphView,
    x: Seq<NodeId>,
    y: Seq<NodeId>,
)
    requires
        extends(b, c),
        twin_fresh(g, t, b, x, y),
    ensures
        twin_fresh(g, t, c, x, y),
{
}

/// What stands in `t` where a node stands, if there is one.
pub open spec fn option_peer(g: GraphView, t: GraphView, x: Option<NodeId>) -> Option<NodeId> {
    match x {
        Some(n) => Some(peer(g, t, n)),
        None => None,
    }
}

proof fn lemma_twin_promoted_at(
    g: GraphView,
    t: GraphView,
    b: GraphView,
    x: Seq<PromotedKey>,
    y: Seq<PromotedKey>,
    package: StringId,
    owner: StringId,
    method: StringId,
    n: int,
)
    requires
        twin_promoted(g, t, b, x, y),
        0 <= n <= x.len(),
    ensures
        promoted_at(y, package, owner, method, n) == option_peer(
            g,
            t,
            promoted_at(x, package, owner, method, n),
        ),
        promoted_at(x, package, owner, method, n) matches Some(node) ==> live(b.nodes, node) is Some,
    decreases n,
{
    if n > 0 {
        lemma_twin_promoted_at(g, t, b, x, y, package, owner, method, n - 1);
        assert(live(b.nodes, x[n - 1].node) is Some);
    }
}

pub(crate) proof fn lemma_twin_pointer_type_at(
    g: GraphView,
    t: GraphView,
    b: GraphView,
    x: Seq<PointerTypeKey>,
    y: Seq<PointerTypeKey>,
    package: StringId,
    owner: StringId,
    n: int,
)
    requires
        twin_pointer_types(g, t, b, x, y),
        0 <= n <= x.len(),
    ensures
        pointer_type_at(y, package, owner, n) == option_peer(
            g,
            t,
            pointer_type_at(x, package, owner, n),
        ),
        pointer_type_at(x, package, owner, n) matches Some(node) ==> live(b.nodes, node) is Some,
    decreases n,
{
    if n > 0 {
        lemma_twin_pointer_type_at(g, t, b, x, y, package, owner, n - 1);
        assert(live(b.nodes, x[n - 1].node) is Some);
    }
}

pub(crate) proof fn lemma_twin_outer_at(
    g: GraphView,
    t: GraphView,
    b: GraphView,
    x: Seq<OuterKey>,
    y: Seq<OuterKey>,
    outer: NodeId,
    name: StringId,
    n: int,
)
    requires
        twin_outers(g, t, b, x, y),
        0 <= n <= x.len(),
    ensures
        outer_at(y, outer, name, n) == option_peer(g, t, outer_at(x, outer, name, n)),
        outer_at(x, outer, name, n) matches Some(node) ==> live(b.nodes, node) is Some && live(
            g.nodes,
            outer,
        ) is Some,
    decreases n,
{
    if n > 0 {
        lemma_twin_outer_at(g, t, b, x, y, outer, name, n - 1);
        assert(live(b.nodes, x[n - 1].node) is Some);
    }
}

proof fn lemma_twin_linked(
    g: GraphView,
    t: GraphView,
    x: MintState,
    y: MintState,
    meta: MetaView,
    parent: NodeId,
    node: NodeId,
    pointer: bool,
    pm: PromotedMethod,
)
    requires
        twin_mints(g, t, x, y),
        live(g.nodes, meta.outer) is Some,
        live(x.g.nodes, parent) is Some,
        live(x.g.nodes, node) is Some,
        live(g.nodes, pm.method) is Some,
    ensures
        twin_mints(
            g,
            t,
            linked(x, meta, parent, node, pointer, pm),
            linked(y, meta, peer(g, t, parent), peer(g, t, node), pointer, pm),
        ),
{
    let r = linked(x, meta, parent, node, pointer, pm);
    let b = with_edge(x.g, parent, node, EdgeKind::Contains, meta.file);
    let c = with_edge(y.g, peer(g, t, parent), peer(g, t, node), EdgeKind::Contains, meta.file);
    assert(live(x.g.nodes, pm.method) is Some);
    lemma_peer(g, t, x.g, y.g, pm.method);
    lemma_twin_edge(g, t, x.g, y.g, parent, node, EdgeKind::Contains, meta.file);
    lemma_twin_edge(g, t, b, c, node, pm.method, EdgeKind::Inherits, meta.file);
    assert(twin_notes(g, t, x.g, x.idx, y.idx));
}

proof fn lemma_member_extends(
    x: MintState,
    meta: MetaView,
    parent: NodeId,
    base: Seq<char>,
    pointer: bool,
    pm: PromotedMethod,
)
    ensures
        extends(x.g, with_member(x, meta, parent, base, pointer, pm).g),
{
    if let Some(short) = x.g.strings.resolve(pm.name) {
        let qn = base + "::"@ + short;
        let g1 = GraphView { strings: x.g.strings.interned(qn), ..x.g };
        lemma_intern_extends(x.g, qn);
        lemma_mint_extends(
            g1,
            NodeKind::Method,
            short,
            x.g.strings.intern_id(qn),
            meta.file,
        );
        lemma_extends_on(
            x.g,
            g1,
            minted(g1, NodeKind::Method, short, x.g.strings.intern_id(qn), meta.file).g,
        );
    }
}

proof fn lemma_twin_member(
    g: GraphView,
    t: GraphView,
    x: MintState,
    y: MintState,
    meta: MetaView,
    parent: NodeId,
    base: Seq<char>,
    pointer: bool,
    pm: PromotedMethod,
)
    requires
        twin_mints(g, t, x, y),
        live(g.nodes, meta.outer) is Some,
        live(x.g.nodes, parent) is Some,
        live(g.nodes, pm.method) is Some,
        pm.name.0 < x.g.strings.text.len(),
        fits(t, with_member(x, meta, parent, base, pointer, pm).g),
    ensures
        twin_mints(
            g,
            t,
            with_member(x, meta, parent, base, pointer, pm),
            with_member(y, meta, peer(g, t, parent), base, pointer, pm),
        ),
{
    let short = x.g.strings.resolve(pm.name)->0;
    assert(x.g.strings.text[pm.name.0 as int] == t.strings.text[pm.name.0 as int]);
    assert(y.g.strings.resolve(pm.name) == x.g.strings.resolve(pm.name));
    let list = if pointer {
        x.idx.pointer
    } else {
        x.idx.value
    };
    let other = if pointer {
        y.idx.pointer
    } else {
        y.idx.value
    };
    let n = list.len() as int;
    lemma_twin_promoted_at(
        g,
        t,
        x.g,
        list,
        other,
        meta.package_id,
        meta.short_id,
        pm.name,
        n,
    );
    if x.g.strings.resolve(pm.name) is Some {
        match promoted_at(list, meta.package_id, meta.short_id, pm.name, n) {
            Some(node) => {
                lemma_twin_linked(g, t, x, y, meta, parent, node, pointer, pm);
            },
            None => {
                let qn = base + "::"@ + short;
                let r = with_member(x, meta, parent, base, pointer, pm);
                let b1 = GraphView { strings: x.g.strings.interned(qn), ..x.g };
                let c1 = GraphView { strings: y.g.strings.interned(qn), ..y.g };
                let id = x.g.strings.intern_id(qn);
                let m = minted(b1, NodeKind::Method, short, id, meta.file);
                let k = minted(c1, NodeKind::Method, short, id, meta.file);
                lemma_intern_extends(x.g, qn);
                lemma_mint_extends(b1, NodeKind::Method, short, id, meta.file);
                if x.g.strings.can_intern(qn) {
                    assert(m.g.strings == r.g.strings && m.g.nodes == r.g.nodes);
                    lemma_fits_before(t, b1, m.g);
                } else {
                    assert(b1.strings.text == x.g.strings.text);
                    lemma_fits_before(t, b1, r.g);
                }
                lemma_twin_intern(g, t, x.g, y.g, qn);
                lemma_twin_mint(g, t, b1, c1, NodeKind::Method, short, id, meta.file);
                lemma_extends_on(x.g, b1, m.g);
                lemma_notes_stay(g, t, x.g, m.g, x.idx, y.idx);
                lemma_fresh_stays(g, t, x.g, m.g, x.fresh, y.fresh);
                let node = m.id->0;
                let key = PromotedKey {
                    package: meta.package_id,
                    owner: meta.short_id,
                    method: pm.name,
                    node,
                };
                let other_key = PromotedKey { node: peer(g, t, node), ..key };
                let x1 = MintState {
                    g: m.g,
                    idx: if pointer {
                        LocalView { pointer: x.idx.pointer.push(key), ..x.idx }
                    } else {
                        LocalView { value: x.idx.value.push(key), ..x.idx }
                    },
                    fresh: x.fresh.push(node),
                    promoted: counted_up(x.promoted, 1),
                };
                let y1 = MintState {
                    g: k.g,
                    idx: if pointer {
                        LocalView { pointer: y.idx.pointer.push(other_key), ..y.idx }
                    } else {
                        LocalView { value: y.idx.value.push(other_key), ..y.idx }
                    },
                    fresh: y.fresh.push(peer(g, t, node)),
                    promoted: counted_up(y.promoted, 1),
                };
                assert(twin_mints(g, t, x1, y1));
                lemma_twin_linked(g, t, x1, y1, meta, parent, node, pointer, pm);
            },
        }
    }
}

proof fn lemma_members_extends(
    x: MintState,
    meta: MetaView,
    parent: NodeId,
    base: Seq<char>,
    pointer: bool,
    methods: Seq<PromotedMethod>,
    n: int,
)
    ensures
        extends(x.g, with_members(x, meta, parent, base, pointer, methods, n).g),
    decreases n,
{
    if n > 0 {
        lemma_members_extends(x, meta, parent, base, pointer, methods, n - 1);
        let before = with_members(x, meta, parent, base, pointer, methods, n - 1);
        lemma_member_extends(before, meta, parent, base, pointer, methods[n - 1]);
        lemma_extends_on(
            x.g,
            before.g,
            with_members(x, meta, parent, base, pointer, methods, n).g,
        );
    }
}

/// A promoted method is a node whose name has its place in the table.
pub open spec fn gained_node(g: GraphView, pm: PromotedMethod) -> bool {
    live(g.nodes, pm.method) is Some && pm.name.0 < g.strings.text.len()
}

proof fn lemma_twin_members(
    g: GraphView,
    t: GraphView,
    x: MintState,
    y: MintState,
    meta: MetaView,
    parent: NodeId,
    base: Seq<char>,
    pointer: bool,
    methods: Seq<PromotedMethod>,
    n: int,
)
    requires
        twin_mints(g, t, x, y),
        g.strings.text.is_prefix_of(x.g.strings.text),
        live(g.nodes, meta.outer) is Some,
        live(x.g.nodes, parent) is Some,
        0 <= n <= methods.len(),
        forall|i: int| 0 <= i < methods.len() ==> gained_node(g, #[trigger] methods[i]),
        fits(t, with_members(x, meta, parent, base, pointer, methods, n).g),
    ensures
        twin_mints(
            g,
            t,
            with_members(x, meta, parent, base, pointer, methods, n),
            with_members(y, meta, peer(g, t, parent), base, pointer, methods, n),
        ),
    decreases n,
{
    if n > 0 {
        let before = with_members(x, meta, parent, base, pointer, methods, n - 1);
        lemma_member_extends(before, meta, parent, base, pointer, methods[n - 1]);
        lemma_fits_before(
            t,
            before.g,
            with_members(x, meta, parent, base, pointer, methods, n).g,
        );
        lemma_twin_members(g, t, x, y, meta, parent, base, pointer, methods, n - 1);
        lemma_members_extends(x, meta, parent, base, pointer, methods, n - 1);
        assert(gained_node(g, methods[n - 1]));
        let q = methods[n - 1].name;
        assert(g.strings.text[q.0 as int] == x.g.strings.text[q.0 as int]);
        assert(x.g.strings.text[q.0 as int] == before.g.strings.text[q.0 as int]);
        assert(live(before.g.nodes, parent) is Some);
        lemma_twin_member(
            g,
            t,
            before,
            with_members(y, meta, peer(g, t, parent), base, pointer, methods, n - 1),
            meta,
            parent,
            base,
            pointer,
            methods[n - 1],
        );
    }
}

proof fn lemma_anchor_extends(x: MintState, meta: MetaView)
    ensures
        extends(x.g, with_anchor(x, meta).0.g),
{
    let g1 = GraphView { strings: x.g.strings.interned(meta.pointer_qn), ..x.g };
    let id = x.g.strings.intern_id(meta.pointer_qn);
    lemma_intern_extends(x.g, meta.pointer_qn);
    lemma_mint_extends(g1, NodeKind::Type, meta.short, id, meta.file);
    lemma_extends_on(x.g, g1, minted(g1, NodeKind::Type, meta.short, id, meta.file).g);
}

proof fn lemma_twin_anchor(g: GraphView, t: GraphView, x: MintState, y: MintState, meta: MetaView)
    requires
        twin_mints(g, t, x, y),
        live(g.nodes, meta.outer) is Some,
        fits(t, with_anchor(x, meta).0.g),
    ensures
        twin_mints(g, t, with_anchor(x, meta).0, with_anchor(y, meta).0),
        with_anchor(x, meta).1 matches Some(node) && live(
            with_anchor(x, meta).0.g.nodes,
            node,
        ) is Some && with_anchor(y, meta).1 == Some(peer(g, t, node)),
{
    let n = x.idx.pointer_type.len() as int;
    lemma_twin_pointer_type_at(
        g,
        t,
        x.g,
        x.idx.pointer_type,
        y.idx.pointer_type,
        meta.package_id,
        meta.short_id,
        n,
    );
    if pointer_type_at(x.idx.pointer_type, meta.package_id, meta.short_id, n) is None {
        let r = with_anchor(x, meta).0;
        let b1 = GraphView { strings: x.g.strings.interned(meta.pointer_qn), ..x.g };
        let c1 = GraphView { strings: y.g.strings.interned(meta.pointer_qn), ..y.g };
        let id = x.g.strings.intern_id(meta.pointer_qn);
        let m = minted(b1, NodeKind::Type, meta.short, id, meta.file);
        let k = minted(c1, NodeKind::Type, meta.short, id, meta.file);
        lemma_intern_extends(x.g, meta.pointer_qn);
        lemma_mint_extends(b1, NodeKind::Type, meta.short, id, meta.file);
        if x.g.strings.can_intern(meta.pointer_qn) {
            assert(m.g.strings == r.g.strings && m.g.nodes == r.g.nodes);
            lemma_fits_before(t, b1, m.g);
        } else {
            assert(b1.strings.text == x.g.strings.text);
            lemma_fits_before(t, b1, r.g);
        }
        lemma_twin_intern(g, t, x.g, y.g, meta.pointer_qn);
        lemma_twin_mint(g, t, b1, c1, NodeKind::Type, meta.short, id, meta.file);
        lemma_extends_on(x.g, b1, m.g);
        lemma_notes_stay(g, t, x.g, m.g, x.idx, y.idx);
        lemma_fresh_stays(g, t, x.g, m.g, x.fresh, y.fresh);
        let node = m.id->0;
        assert(live(m.g.nodes, meta.outer) is Some);
        lemma_peer(g, t, m.g, k.g, meta.outer);
        lemma_twin_edge(g, t, m.g, k.g, node, meta.outer, EdgeKind::Inherits, meta.file);
        let s = with_anchor(y, meta).0;
        assert(twin_pointer_types(g, t, r.g, r.idx.pointer_type, s.idx.pointer_type));
        assert(twin_fresh(g, t, r.g, r.fresh, s.fresh));
    }
}

proof fn lemma_gain_extends(x: MintState, meta: MetaView, gain: GainView)
    ensures
        extends(x.g, with_gain(x, meta, gain).g),
{
    let n = gain.value.len() as int;
    if gain.pointer_only.len() == 0 {
        lemma_members_extends(x, meta, meta.outer, meta.qn, false, gain.value, n);
    } else {
        lemma_anchor_extends(x, meta);
        let a = with_anchor(x, meta);
        if let Some(anchor) = a.1 {
            let v = with_members(a.0, meta, meta.outer, meta.qn, false, gain.value, n);
            lemma_members_extends(a.0, meta, meta.outer, meta.qn, false, gain.value, n);
            lemma_members_extends(
                v,
                meta,
                anchor,
                meta.pointer_qn,
                true,
                gain.pointer_only,
                gain.pointer_only.len() as int,
            );
            lemma_extends_on(x.g, a.0.g, v.g);
            lemma_extends_on(x.g, v.g, with_gain(x, meta, gain).g);
        }
    }
}

/// The methods that a struct gains are nodes whose names have their places in the table.
pub open spec fn gained_nodes(g: GraphView, gain: GainView) -> bool {
    &&& forall|i: int| 0 <= i < gain.value.len() ==> gained_node(g, #[trigger] gain.value[i])
    &&& forall|i: int|
        0 <= i < gain.pointer_only.len() ==> gained_node(g, #[trigger] gain.pointer_only[i])
}

pub(crate) proof fn lemma_text_on(g: GraphView, b: GraphView, c: GraphView)
    requires
        g.strings.text.is_prefix_of(b.strings.text),
        extends(b, c),
    ensures
        g.strings.text.is_prefix_of(c.strings.text),
{
    assert(g.strings.text =~= c.strings.text.take(g.strings.text.len() as int));
}

proof fn lemma_twin_gain(
    g: GraphView,
    t: GraphView,
    x: MintState,
    y: MintState,
    meta: MetaView,
    gain: GainView,
)
    requires
        twin_mints(g, t, x, y),
        g.strings.text.is_prefix_of(x.g.strings.text),
        live(g.nodes, meta.outer) is Some,
        gained_nodes(g, gain),
        fits(t, with_gain(x, meta, gain).g),
    ensures
        twin_mints(g, t, with_gain(x, meta, gain), with_gain(y, meta, gain)),
{
    let n = gain.value.len() as int;
    assert(live(x.g.nodes, meta.outer) is Some);
    lemma_peer(g, t, x.g, y.g, meta.outer);
    if gain.pointer_only.len() == 0 {
        lemma_twin_members(g, t, x, y, meta, meta.outer, meta.qn, false, gain.value, n);
    } else {
        let a = with_anchor(x, meta);
        let d = with_anchor(y, meta);
        let r = with_gain(x, meta, gain);
        let last = gain.pointer_only.len() as int;
        if let Some(anchor) = a.1 {
            let v = with_members(a.0, meta, meta.outer, meta.qn, false, gain.value, n);
            lemma_members_extends(a.0, meta, meta.outer, meta.qn, false, gain.value, n);
            lemma_members_extends(
                v,
                meta,
                anchor,
                meta.pointer_qn,
                true,
                gain.pointer_only,
                last,
            );
            lemma_fits_before(t, v.g, r.g);
            lemma_fits_before(t, a.0.g, v.g);
        }
        lemma_twin_anchor(g, t, x, y, meta);
        lemma_anchor_extends(x, meta);
        lemma_text_on(g, x.g, a.0.g);
        let anchor = a.1->0;
        let v = with_members(a.0, meta, meta.outer, meta.qn, false, gain.value, n);
        let w = with_members(d.0, meta, meta.outer, meta.qn, false, gain.value, n);
        assert(live(a.0.g.nodes, meta.outer) is Some);
        lemma_twin_members(g, t, a.0, d.0, meta, meta.outer, meta.qn, false, gain.value, n);
        lemma_text_on(g, a.0.g, v.g);
        assert(live(v.g.nodes, anchor) is Some);
        lemma_twin_members(
            g,
            t,
            v,
            w,
            meta,
            anchor,
            meta.pointer_qn,
            true,
            gain.pointer_only,
            last,
        );
    }
}

pub(crate) proof fn lemma_gains_extends(
    x: MintState,
    metas: Seq<MetaView>,
    gains: Seq<GainView>,
    n: int,
)
    ensures
        extends(x.g, with_gains(x, metas, gains, n).g),
    decreases n,
{
    if n > 0 {
        lemma_gains_extends(x, metas, gains, n - 1);
        let before = with_gains(x, metas, gains, n - 1);
        lemma_gain_extends(before, metas[n - 1], gains[metas[n - 1].at]);
        lemma_extends_on(x.g, before.g, with_gains(x, metas, gains, n).g);
    }
}

pub(crate) proof fn lemma_twin_gains(
    g: GraphView,
    t: GraphView,
    x: MintState,
    y: MintState,
    metas: Seq<MetaView>,
    gains: Seq<GainView>,
    n: int,
)
    requires
        twin_mints(g, t, x, y),
        g.strings.text.is_prefix_of(x.g.strings.text),
        0 <= n <= metas.len(),
        forall|i: int|
            0 <= i < metas.len() ==> live(g.nodes, (#[trigger] metas[i]).outer) is Some && 0
                <= metas[i].at < gains.len(),
        forall|i: int| 0 <= i < gains.len() ==> gained_nodes(g, #[trigger] gains[i]),
        fits(t, with_gains(x, metas, gains, n).g),
    ensures
        twin_mints(g, t, with_gains(x, metas, gains, n), with_gains(y, metas, gains, n)),
    decreases n,
{
    if n > 0 {
        let before = with_gains(x, metas, gains, n - 1);
        let meta = metas[n - 1];
        lemma_gain_extends(before, meta, gains[meta.at]);
        lemma_fits_before(t, before.g, with_gains(x, metas, gains, n).g);
        lemma_twin_gains(g, t, x, y, metas, gains, n - 1);
        lemma_gains_extends(x, metas, gains, n - 1);
        lemma_text_on(g, x.g, before.g);
        assert(live(g.nodes, metas[n - 1].outer) is Some);
        assert(gained_nodes(g, gains[meta.at]));
        lemma_twin_gain(
            g,
            t,
            before,
            with_gains(y, metas, gains, n - 1),
            meta,
            gains[meta.at],
        );
    }
}

proof fn lemma_survey_one_extends(h: GraphView, outer: NodeId, gain: GainView, at: int)
    ensures
        extends(h, surveyed_one(h, outer, gain, at).0),
{
    if let Some(qn) = h.qn(outer) {
        if let Some(p) = split_qn(qn) {
            let h1 = GraphView { strings: h.strings.interned(p.0), ..h };
            let h2 = GraphView { strings: h1.strings.interned(p.1), ..h };
            lemma_intern_extends(h, p.0);
            lemma_intern_extends(h1, p.1);
            lemma_extends_on(h, h1, h2);
        }
    }
}

pub(crate) proof fn lemma_survey_extends(
    g: GraphView,
    outers: Seq<NodeId>,
    gains: Seq<GainView>,
    n: int,
)
    ensures
        extends(g, surveyed(g, outers, gains, n).g),
    decreases n,
{
    if n > 0 {
        lemma_survey_extends(g, outers, gains, n - 1);
        let before = surveyed(g, outers, gains, n - 1);
        lemma_survey_one_extends(before.g, outers[n - 1], gains[n - 1], n - 1);
        lemma_extends_on(g, before.g, surveyed(g, outers, gains, n).g);
    }
}

/// A node that was there has the same qualified name in both runs.
pub(crate) proof fn lemma_twin_qn(g: GraphView, t: GraphView, b: GraphView, c: GraphView, x: NodeId)
    requires
        twins(g, t, b, c),
        live(b.nodes, x) is Some,
        live(b.nodes, x)->0.qualified_name matches Some(q) ==> q.0 < b.strings.text.len(),
    ensures
        c.qn(peer(g, t, x)) == b.qn(x),
{
    lemma_peer(g, t, b, c, x);
    if let Some(q) = live(b.nodes, x)->0.qualified_name {
        assert(b.strings.text[q.0 as int] == t.strings.text[q.0 as int]);
    }
}

pub(crate) proof fn lemma_twin_survey(
    g: GraphView,
    t: GraphView,
    outers: Seq<NodeId>,
    gains: Seq<GainView>,
    n: int,
)
    requires
        twins(g, t, g, t),
        named_truly(g),
        0 <= n <= outers.len(),
        forall|i: int| 0 <= i < outers.len() ==> live(t.nodes, #[trigger] outers[i]) == live(
            g.nodes,
            outers[i],
        ),
        fits(t, surveyed(g, outers, gains, n).g),
    ensures
        twins(g, t, surveyed(g, outers, gains, n).g, surveyed(t, outers, gains, n).g),
        surveyed(t, outers, gains, n).metas == surveyed(g, outers, gains, n).metas,
        surveyed(g, outers, gains, n).g.nodes == g.nodes,
        surveyed(t, outers, gains, n).g.nodes == t.nodes,
        forall|i: int|
            0 <= i < surveyed(g, outers, gains, n).metas.len() ==> live(
                g.nodes,
                (#[trigger] surveyed(g, outers, gains, n).metas[i]).outer,
            ) is Some && 0 <= surveyed(g, outers, gains, n).metas[i].at < n,
    decreases n,
{
    if n > 0 {
        let before = surveyed(g, outers, gains, n - 1);
        let other = surveyed(t, outers, gains, n - 1);
        let outer = outers[n - 1];
        let gain = gains[n - 1];
        let one = surveyed_one(before.g, outer, gain, n - 1);
        let h = before.g;
        lemma_survey_one_extends(h, outer, gain, n - 1);
        lemma_fits_before(t, h, one.0);
        lemma_twin_survey(g, t, outers, gains, n - 1);
        lemma_survey_extends(g, outers, gains, n - 1);
        assert(live(t.nodes, outers[n - 1]) == live(g.nodes, outer));
        if let Some(e) = live(g.nodes, outer) {
            if let Some(q) = e.qualified_name {
                assert(g.strings.text[q.0 as int] == h.strings.text[q.0 as int]);
            }
            lemma_twin_qn(g, t, h, other.g, outer);
            lemma_peer(g, t, h, other.g, outer);
        }
        assert(other.g.qn(outer) == h.qn(outer));
        if gain.value.len() != 0 || gain.pointer_only.len() != 0 {
            if let Some(qn) = h.qn(outer) {
                if let Some(p) = split_qn(qn) {
                    let h1 = GraphView { strings: h.strings.interned(p.0), ..h };
                    let h2 = GraphView { strings: h1.strings.interned(p.1), ..h };
                    lemma_intern_extends(h, p.0);
                    lemma_intern_extends(h1, p.1);
                    assert(fits(t, h1)) by {
                        if !h.strings.can_intern(p.0) {
                            assert(h1.strings.text == h.strings.text);
                        } else if h1.strings.can_intern(p.1) {
                            assert(one.0.strings == h2.strings);
                            lemma_fits_before(t, h1, h2);
                        }
                    }
                    lemma_twin_intern(g, t, h, other.g, p.0);
                    assert(fits(t, h2)) by {
                        if !h1.strings.can_intern(p.1) {
                            assert(h2.strings.text == h1.strings.text);
                        }
                    }
                    let k1 = GraphView { strings: other.g.strings.interned(p.0), ..other.g };
                    lemma_twin_intern(g, t, h1, k1, p.1);
                }
            }
        }
    }
}

/// Every index row speaks of a node that is there, or of one that was there and cannot
/// come again.
pub open spec fn rows_settled(g: GraphView) -> bool {
    forall|i: int|
        0 <= i < g.indices.len() ==> live(g.nodes, (#[trigger] g.indices[i]).node) is Some
            || passed(g, g.indices[i].node)
}

/// What one run has made and its peer were not in the indices before.
proof fn lemma_not_indexed(g: GraphView, t: GraphView, b: GraphView, c: GraphView, x: NodeId)
    requires
        twins(g, t, g, t),
        twins(g, t, b, c),
        rows_settled(g),
        rows_settled(t),
        live(b.nodes, x) is Some,
        live(g.nodes, x) is None,
    ensures
        live(t.nodes, peer(g, t, x)) is None,
        forall|i: int| 0 <= i < g.indices.len() ==> (#[trigger] g.indices[i]).node != x,
        forall|i: int| 0 <= i < t.indices.len() ==> (#[trigger] t.indices[i]).node != peer(g, t, x),
{
    let k = x.index as int;
    if k < g.nodes.len() {
        assert(b.nodes[k].generation == g.nodes[k].generation);
        assert(g.nodes[k].entry == t.nodes[k].entry);
    }
    assert(live(t.nodes, peer(g, t, x)) is None);
    assert forall|i: int| 0 <= i < g.indices.len() implies (#[trigger] g.indices[i]).node != x by {
        assert(live(g.nodes, g.indices[i].node) is Some || passed(g, g.indices[i].node));
    }
    assert forall|i: int| 0 <= i < t.indices.len() implies (#[trigger] t.indices[i]).node != peer(
        g,
        t,
        x,
    ) by {
        assert(live(t.nodes, t.indices[i].node) is Some || passed(t, t.indices[i].node));
    }
}

pub(crate) proof fn lemma_twin_rows_with(
    g: GraphView,
    t: GraphView,
    b: GraphView,
    c: GraphView,
    x: Seq<NodeId>,
    y: Seq<NodeId>,
    n: int,
)
    requires
        twins(g, t, g, t),
        twins(g, t, b, c),
        rows_settled(g),
        rows_settled(t),
        twin_fresh(g, t, b, x, y),
        0 <= n <= x.len(),
    ensures
        twins(
            g,
            t,
            (GraphView { indices: rows_with_nodes(b.indices, b.nodes, x, n), ..b }),
            (GraphView { indices: rows_with_nodes(c.indices, c.nodes, y, n), ..c }),
        ),
    decreases n,
{
    if n > 0 {
        lemma_twin_rows_with(g, t, b, c, x, y, n - 1);
        let before = rows_with_nodes(b.indices, b.nodes, x, n - 1);
        let other = rows_with_nodes(c.indices, c.nodes, y, n - 1);
        let node = x[n - 1];
        let b0 = GraphView { indices: before, ..b };
        let c0 = GraphView { indices: other, ..c };
        assert(live(b.nodes, x[n - 1]) is Some);
        lemma_peer(g, t, b, c, node);
        lemma_not_indexed(g, t, b0, c0, node);
        let e = live(b.nodes, node)->0;
        let row = row_of(node, e);
        let peer_row = row_of(peer(g, t, node), e);
        let shift = t.indices.len() - g.indices.len();
        if before.contains(row) {
            let k = before.index_of(row);
            if k < g.indices.len() {
                assert(g.indices[k] == before[k]);
            }
            assert(other[k + shift] == peer_row);
            assert(other.contains(peer_row));
        } else if other.contains(peer_row) {
            let k = other.index_of(peer_row);
            if k < t.indices.len() {
                assert(t.indices[k] == other[k]);
            }
            let r = before[k - shift];
            assert(live(b.nodes, r.node) is Some);
            assert(r.node.index == node.index);
            assert(r == row);
            assert(before.contains(row));
        } else {
            let b1 = GraphView { indices: before.push(row), ..b };
            let c1 = GraphView { indices: other.push(peer_row), ..c };
            assert(g.indices =~= b1.indices.take(g.indices.len() as int));
            assert(t.indices =~= c1.indices.take(t.indices.len() as int));
            assert forall|k: int| g.indices.len() <= k < b1.indices.len() implies {
                let r = #[trigger] b1.indices[k];
                &&& live(g.nodes, r.node) is None
                &&& live(b1.nodes, r.node) is Some
                &&& r == row_of(r.node, live(b1.nodes, r.node)->0)
                &&& c1.indices[k - g.indices.len() + t.indices.len()] == (IndexRow {
                    node: peer(g, t, r.node),
                    ..r
                })
            } by {
                if k < before.len() {
                    assert(b1.indices[k] == before[k]);
                    assert(c1.indices[k + shift] == other[k + shift]);
                }
            }
            assert(twins(g, t, b1, c1));
        }
    }
}

/// Nodes that are known are apart where their peers are.
pub(crate) proof fn lemma_peers_apart(
    g: GraphView,
    t: GraphView,
    b: GraphView,
    c: GraphView,
    x: NodeId,
    y: NodeId,
)
    requires
        twin_slots(g, t, b, c),
        known(g, b, x),
        known(g, b, y),
    ensures
        (peer(g, t, x) == peer(g, t, y)) == (x == y),
{
    let i = x.index as int;
    if i < g.nodes.len() {
        assert(b.nodes[i].generation == g.nodes[i].generation);
    }
}

} // verus!
