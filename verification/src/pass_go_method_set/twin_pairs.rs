//! Two runs of the pass hold the same types against the same interfaces.

use vstd::prelude::*;

use crate::arena::{live, live_kind};
use crate::graph::GraphView;
use crate::ids::{FileId, NodeId, StringId};
use crate::indices::{nodes_of_qn, IndexRow};
use crate::kinds::{EdgeKind, NodeKind};
use crate::pass_go_method_set::lookup::named;
use crate::pass_go_method_set::materialise::{
    minted, pointer_name, pointer_type_at, split_qn, LocalView,
};
use crate::pass_go_method_set::satisfaction::{
    form_at, method_sets, pointer_form_in, satisfies, synthetic_type_from, types_with_sets,
    with_pair, with_pointer_form, with_type, with_types, InterfaceView, PairState,
    PendingImplements, PointerForm, PointerState, SetsView,
};
use crate::pass_go_method_set::shadow::file_of;
use crate::pass_go_method_set::steady::{all_were_there, was_there};
use crate::pass_go_method_set::twin_sets::{
    entries_there, interfaces_there, lemma_twin_method_sets, lemma_twin_satisfies, peer_interface,
    peer_sets, runs, sets_there,
};
use crate::pass_go_method_set::twins::{
    extends, fits, lemma_extends_on, lemma_fits_before, lemma_intern_extends, lemma_mint_extends,
    lemma_notes_stay, lemma_peer, lemma_text_on, lemma_twin_edge, lemma_twin_intern,
    lemma_twin_mint, lemma_twin_pointer_type_at, lemma_twin_qn, option_peer, peer, rows_settled,
    twin_notes, twin_pointer_types, twins,
};
use crate::pass_go_method_set::undo::{known, passed, sound};

verus! {

/// The indices of `t` are those of `g`, and rows of nodes that are gone; and no row in
/// either speaks of a node that is yet to come.
pub open spec fn settled(g: GraphView, t: GraphView) -> bool {
    &&& twins(g, t, g, t)
    &&& rows_settled(g)
    &&& rows_settled(t)
    &&& g.indices.is_prefix_of(t.indices)
    &&& forall|i: int|
        g.indices.len() <= i < t.indices.len() ==> live(
            t.nodes,
            (#[trigger] t.indices[i]).node,
        ) is None
}

/// Rows of nodes that are gone stay so.
pub(crate) proof fn lemma_rows_stay_settled(
    g: GraphView,
    t: GraphView,
    b: GraphView,
    c: GraphView,
    i: int,
)
    requires
        settled(g, t),
        twins(g, t, b, c),
        0 <= i < t.indices.len(),
    ensures
        i < g.indices.len() ==> was_there(g, b, g.indices[i].node) && was_there(
            g,
            c,
            g.indices[i].node,
        ),
        i >= g.indices.len() ==> live(c.nodes, t.indices[i].node) is None,
{
    let x = t.indices[i].node;
    let k = x.index as int;
    assert(live(t.nodes, t.indices[i].node) is Some || passed(t, t.indices[i].node));
    if i < g.indices.len() {
        assert(g.indices[i] == t.indices[i]);
        assert(live(g.nodes, g.indices[i].node) is Some || passed(g, g.indices[i].node));
        if live(g.nodes, x) is None {
            if k < g.nodes.len() {
                assert(b.nodes[k].generation == g.nodes[k].generation);
                assert(g.nodes[k].entry == t.nodes[k].entry);
                if g.nodes[k].entry is Some {
                    let id = NodeId { index: x.index, generation: g.nodes[k].generation };
                    assert(live(g.nodes, id) is Some);
                    assert(live(t.nodes, id) is Some);
                }
            }
            assert(live(t.nodes, x) is None);
            if k < t.nodes.len() {
                assert(c.nodes[k].generation == t.nodes[k].generation);
            }
        }
    } else {
        assert(live(t.nodes, t.indices[i].node) is None);
        assert(c.nodes[k].generation == t.nodes[k].generation);
    }
}

/// `x` is a synthetic type node.
pub open spec fn synthetic_type(d: GraphView, x: NodeId) -> bool {
    live_kind(d.nodes, x) == Some(NodeKind::Type) && d.metadata.is_synthetic(x)
}

proof fn lemma_synthetic_push(d: GraphView, nodes: Seq<NodeId>, x: NodeId, i: int)
    requires
        0 <= i <= nodes.len(),
    ensures
        synthetic_type_from(d, nodes.push(x), i) == (match synthetic_type_from(d, nodes, i) {
            Some(y) => Some(y),
            None => if synthetic_type(d, x) {
                Some(x)
            } else {
                None
            },
        }),
    decreases nodes.len() - i,
{
    let more = nodes.push(x);
    if i < nodes.len() {
        lemma_synthetic_push(d, nodes, x, i + 1);
        assert(more[i] == nodes[i]);
    } else {
        assert(more[i] == x);
        assert(synthetic_type_from(d, more, i + 1) is None);
    }
}

/// The first synthetic type node that the first `n` index rows name so.
pub open spec fn row_synthetic(d: GraphView, q: StringId, n: int) -> Option<NodeId> {
    synthetic_type_from(d, nodes_of_qn(d.indices, q, n), 0)
}

proof fn lemma_twin_early_synthetic(
    g: GraphView,
    t: GraphView,
    b: GraphView,
    c: GraphView,
    q: StringId,
    n: int,
)
    requires
        settled(g, t),
        twins(g, t, b, c),
        0 <= n <= g.indices.len(),
    ensures
        row_synthetic(c, q, n) == option_peer(g, t, row_synthetic(b, q, n)),
        row_synthetic(b, q, n) matches Some(x) ==> live(b.nodes, x) is Some,
    decreases n,
{
    if n > 0 {
        lemma_twin_early_synthetic(g, t, b, c, q, n - 1);
        let r = g.indices[n - 1];
        assert(b.indices[n - 1] == r);
        assert(t.indices[n - 1] == r);
        assert(c.indices[n - 1] == r);
        lemma_rows_stay_settled(g, t, b, c, n - 1);
        if live(b.nodes, r.node) is Some {
            lemma_peer(g, t, b, c, r.node);
        }
        lemma_synthetic_push(b, nodes_of_qn(b.indices, q, n - 1), r.node, 0);
        lemma_synthetic_push(c, nodes_of_qn(c.indices, q, n - 1), r.node, 0);
    }
}

proof fn lemma_stale_synthetic(
    g: GraphView,
    t: GraphView,
    b: GraphView,
    c: GraphView,
    q: StringId,
    n: int,
)
    requires
        settled(g, t),
        twins(g, t, b, c),
        g.indices.len() <= n <= t.indices.len(),
    ensures
        row_synthetic(c, q, n) == row_synthetic(c, q, g.indices.len() as int),
    decreases n,
{
    if n > g.indices.len() {
        lemma_stale_synthetic(g, t, b, c, q, n - 1);
        lemma_rows_stay_settled(g, t, b, c, n - 1);
        assert(c.indices[n - 1] == t.indices[n - 1]);
        lemma_synthetic_push(c, nodes_of_qn(c.indices, q, n - 1), t.indices[n - 1].node, 0);
    }
}

proof fn lemma_twin_synthetic(
    g: GraphView,
    t: GraphView,
    b: GraphView,
    c: GraphView,
    q: StringId,
    n: int,
)
    requires
        settled(g, t),
        twins(g, t, b, c),
        g.indices.len() <= n <= b.indices.len(),
    ensures
        row_synthetic(c, q, n - g.indices.len() + t.indices.len()) == option_peer(
            g,
            t,
            row_synthetic(b, q, n),
        ),
        row_synthetic(b, q, n) matches Some(x) ==> live(b.nodes, x) is Some,
    decreases n,
{
    if n > g.indices.len() {
        lemma_twin_synthetic(g, t, b, c, q, n - 1);
        let k = n - g.indices.len() + t.indices.len();
        let r = b.indices[n - 1];
        assert(live(b.nodes, b.indices[n - 1].node) is Some);
        assert(c.indices[k - 1] == (IndexRow { node: peer(g, t, r.node), ..r }));
        lemma_peer(g, t, b, c, r.node);
        lemma_synthetic_push(b, nodes_of_qn(b.indices, q, n - 1), r.node, 0);
        lemma_synthetic_push(c, nodes_of_qn(c.indices, q, k - 1), peer(g, t, r.node), 0);
    } else {
        lemma_twin_early_synthetic(g, t, b, c, q, n);
        lemma_stale_synthetic(g, t, b, c, q, t.indices.len() as int);
    }
}

/// An implementation, from where its source stands in `t`.
pub open spec fn peer_implements(
    g: GraphView,
    t: GraphView,
    p: PendingImplements,
) -> PendingImplements {
    PendingImplements { source: peer(g, t, p.source), ..p }
}

/// Two runs have found the same pointers for types.
pub open spec fn twin_forms(
    g: GraphView,
    t: GraphView,
    b: GraphView,
    x: Seq<PointerForm>,
    y: Seq<PointerForm>,
) -> bool {
    &&& x.len() == y.len()
    &&& forall|i: int|
        0 <= i < x.len() ==> live(b.nodes, (#[trigger] x[i]).node) is Some && y[i]
            == (PointerForm { node: peer(g, t, x[i].node), ..x[i] })
}

/// Two runs have held the same types against the same interfaces.
pub open spec fn twin_pairs(g: GraphView, t: GraphView, x: PairState, y: PairState) -> bool {
    &&& twins(g, t, x.st.g, y.st.g)
    &&& twin_forms(g, t, x.st.g, x.st.forms, y.st.forms)
    &&& y.pending == x.pending.map_values(|p: PendingImplements| peer_implements(g, t, p))
    &&& sources_there(x.st.g, x.pending)
    &&& targets_known(g, x.pending)
}

/// The sources of `pending` are there.
pub open spec fn sources_there(b: GraphView, pending: Seq<PendingImplements>) -> bool {
    forall|i: int|
        0 <= i < pending.len() ==> live(b.nodes, (#[trigger] pending[i]).source) is Some
}

/// The targets of `pending` are nodes of `g`, or were gone from it for good.
pub open spec fn targets_known(g: GraphView, pending: Seq<PendingImplements>) -> bool {
    forall|i: int| 0 <= i < pending.len() ==> known(g, g, (#[trigger] pending[i]).target)
}

proof fn lemma_twin_form_at(
    g: GraphView,
    t: GraphView,
    b: GraphView,
    x: Seq<PointerForm>,
    y: Seq<PointerForm>,
    of: NodeId,
    n: int,
)
    requires
        twin_forms(g, t, b, x, y),
        0 <= n <= x.len(),
    ensures
        form_at(y, of, n) == option_peer(g, t, form_at(x, of, n)),
        form_at(x, of, n) matches Some(node) ==> live(b.nodes, node) is Some,
    decreases n,
{
    if n > 0 {
        lemma_twin_form_at(g, t, b, x, y, of, n - 1);
        assert(live(b.nodes, x[n - 1].node) is Some);
    }
}

proof fn lemma_pointer_form_extends(
    st: PointerState,
    idx: LocalView,
    c: NodeId,
    file: FileId,
    package: Seq<char>,
    short: Seq<char>,
)
    ensures
        extends(st.g, pointer_form_in(st, idx, c, file, package, short).0.g),
{
    let b = st.g;
    let b1 = GraphView { strings: b.strings.interned(package), ..b };
    let b2 = GraphView { strings: b1.strings.interned(short), ..b };
    let name = pointer_name(package, short);
    let b3 = GraphView { strings: b2.strings.interned(name), ..b };
    let q = b2.strings.intern_id(name);
    lemma_intern_extends(b, package);
    lemma_intern_extends(b1, short);
    lemma_intern_extends(b2, name);
    lemma_mint_extends(b3, NodeKind::Type, short, q, file);
    lemma_extends_on(b, b1, b2);
    lemma_extends_on(b, b2, b3);
    lemma_extends_on(b, b3, minted(b3, NodeKind::Type, short, q, file).g);
}

proof fn lemma_with_form_extends(st: PointerState, idx: LocalView, c: NodeId, file: FileId)
    ensures
        extends(st.g, with_pointer_form(st, idx, c, file).0.g),
{
    if let Some(qn) = st.g.qn(c) {
        if let Some(p) = split_qn(qn) {
            lemma_pointer_form_extends(st, idx, c, file, p.0, p.1);
        }
    }
}

proof fn lemma_forms_stay(
    g: GraphView,
    t: GraphView,
    b: GraphView,
    c: GraphView,
    x: Seq<PointerForm>,
    y: Seq<PointerForm>,
)
    requires
        extends(b, c),
        twin_forms(g, t, b, x, y),
    ensures
        twin_forms(g, t, c, x, y),
{
}

/// Two runs find or make the same pointer.
pub open spec fn twin_found(
    g: GraphView,
    t: GraphView,
    x: (PointerState, Option<NodeId>),
    y: (PointerState, Option<NodeId>),
) -> bool {
    &&& twins(g, t, x.0.g, y.0.g)
    &&& twin_forms(g, t, x.0.g, x.0.forms, y.0.forms)
    &&& y.1 == option_peer(g, t, x.1)
    &&& x.1 matches Some(node) ==> live(x.0.g.nodes, node) is Some
}

proof fn lemma_twin_pointer_form_in(
    g: GraphView,
    t: GraphView,
    x: PointerState,
    y: PointerState,
    xi: LocalView,
    yi: LocalView,
    c: NodeId,
    file: FileId,
    package: Seq<char>,
    short: Seq<char>,
)
    requires
        settled(g, t),
        twins(g, t, x.g, y.g),
        twin_forms(g, t, x.g, x.forms, y.forms),
        twin_pointer_types(g, t, x.g, xi.pointer_type, yi.pointer_type),
        live(g.nodes, c) is Some,
        fits(t, pointer_form_in(x, xi, c, file, package, short).0.g),
    ensures
        twin_found(
            g,
            t,
            pointer_form_in(x, xi, c, file, package, short),
            pointer_form_in(y, yi, c, file, package, short),
        ),
{
    let r = pointer_form_in(x, xi, c, file, package, short);
    let name = pointer_name(package, short);
    let b1 = GraphView { strings: x.g.strings.interned(package), ..x.g };
    let b2 = GraphView { strings: b1.strings.interned(short), ..x.g };
    let b3 = GraphView { strings: b2.strings.interned(name), ..x.g };
    let c1 = GraphView { strings: y.g.strings.interned(package), ..y.g };
    let c2 = GraphView { strings: c1.strings.interned(short), ..y.g };
    let c3 = GraphView { strings: c2.strings.interned(name), ..y.g };
    let q = b2.strings.intern_id(name);
    let m = minted(b3, NodeKind::Type, short, q, file);
    let k = minted(c3, NodeKind::Type, short, q, file);
    lemma_intern_extends(x.g, package);
    lemma_intern_extends(b1, short);
    lemma_intern_extends(b2, name);
    lemma_mint_extends(b3, NodeKind::Type, short, q, file);
    lemma_extends_on(b2, b3, m.g);
    lemma_extends_on(b1, b2, m.g);
    assert(fits(t, b1)) by {
        if !x.g.strings.can_intern(package) {
            assert(b1.strings.text == x.g.strings.text);
        } else if !b1.strings.can_intern(short) {
            assert(r.0.g.strings == b1.strings);
        } else {
            lemma_pointer_form_after(x, xi, c, file, package, short);
            lemma_fits_before(t, b2, r.0.g);
            lemma_fits_before(t, b1, b2);
        }
    }
    lemma_twin_intern(g, t, x.g, y.g, package);
    assert(fits(t, b2)) by {
        if !b1.strings.can_intern(short) {
            assert(b2.strings.text == b1.strings.text);
        } else {
            lemma_pointer_form_after(x, xi, c, file, package, short);
            lemma_fits_before(t, b2, r.0.g);
        }
    }
    lemma_twin_intern(g, t, b1, c1, short);
    let package_id = x.g.strings.intern_id(package);
    let short_id = b1.strings.intern_id(short);
    let n = xi.pointer_type.len() as int;
    lemma_twin_pointer_type_at(
        g,
        t,
        x.g,
        xi.pointer_type,
        yi.pointer_type,
        package_id,
        short_id,
        n,
    );
    if pointer_type_at(xi.pointer_type, package_id, short_id, n) is None {
        let found = synthetic_type_from(b3, named(b3, q), 0);
        assert(fits(t, b3)) by {
            if !b2.strings.can_intern(name) {
                assert(b3.strings.text == b2.strings.text);
            } else if found is None {
                assert(r.0.g.strings == m.g.strings && r.0.g.nodes == m.g.nodes);
                lemma_fits_before(t, b3, m.g);
            }
        }
        lemma_twin_intern(g, t, b2, c2, name);
        lemma_twin_synthetic(g, t, b3, c3, q, b3.indices.len() as int);
        if found is None {
            assert(fits(t, m.g));
            lemma_twin_mint(g, t, b3, c3, NodeKind::Type, short, q, file);
            lemma_extends_on(x.g, b1, m.g);
            lemma_forms_stay(g, t, x.g, m.g, x.forms, y.forms);
            let node = m.id->0;
            assert(live(m.g.nodes, c) is Some);
            lemma_peer(g, t, m.g, k.g, c);
            lemma_twin_edge(g, t, m.g, k.g, node, c, EdgeKind::Inherits, file);
        }
    }
}

/// Where package and name are known, what comes after keeps them.
proof fn lemma_pointer_form_after(
    st: PointerState,
    idx: LocalView,
    c: NodeId,
    file: FileId,
    package: Seq<char>,
    short: Seq<char>,
)
    requires
        st.g.strings.can_intern(package),
        st.g.strings.interned(package).can_intern(short),
    ensures
        extends(
            (GraphView { strings: st.g.strings.interned(package).interned(short), ..st.g }),
            pointer_form_in(st, idx, c, file, package, short).0.g,
        ),
{
    let b2 = GraphView { strings: st.g.strings.interned(package).interned(short), ..st.g };
    let name = pointer_name(package, short);
    let b3 = GraphView { strings: b2.strings.interned(name), ..st.g };
    let q = b2.strings.intern_id(name);
    lemma_intern_extends(b2, name);
    lemma_mint_extends(b3, NodeKind::Type, short, q, file);
    lemma_extends_on(b2, b3, minted(b3, NodeKind::Type, short, q, file).g);
}

proof fn lemma_twin_pointer_form(
    g: GraphView,
    t: GraphView,
    x: PointerState,
    y: PointerState,
    xi: LocalView,
    yi: LocalView,
    c: NodeId,
    file: FileId,
)
    requires
        settled(g, t),
        sound(g),
        g.strings.text.is_prefix_of(x.g.strings.text),
        twins(g, t, x.g, y.g),
        twin_forms(g, t, x.g, x.forms, y.forms),
        twin_pointer_types(g, t, x.g, xi.pointer_type, yi.pointer_type),
        live(g.nodes, c) is Some,
        fits(t, with_pointer_form(x, xi, c, file).0.g),
    ensures
        twin_found(
            g,
            t,
            with_pointer_form(x, xi, c, file),
            with_pointer_form(y, yi, c, file),
        ),
{
    lemma_twin_form_at(g, t, x.g, x.forms, y.forms, c, x.forms.len() as int);
    assert(live(x.g.nodes, c) == live(g.nodes, c));
    lemma_peer(g, t, x.g, y.g, c);
    if let Some(q) = live(g.nodes, c)->0.qualified_name {
        assert(g.strings.text[q.0 as int] == x.g.strings.text[q.0 as int]);
    }
    lemma_twin_qn(g, t, x.g, y.g, c);
    if form_at(x.forms, c, x.forms.len() as int) is None {
        if let Some(qn) = x.g.qn(c) {
            if let Some(p) = split_qn(qn) {
                lemma_twin_pointer_form_in(g, t, x, y, xi, yi, c, file, p.0, p.1);
            }
        }
    }
}

proof fn lemma_pair_extends(
    judge: GraphView,
    p: PairState,
    idx: LocalView,
    c: NodeId,
    file: FileId,
    sets: SetsView,
    i: InterfaceView,
)
    ensures
        extends(p.st.g, with_pair(judge, p, idx, c, file, sets, i).st.g),
{
    lemma_with_form_extends(p.st, idx, c, file);
}

/// What the runs share while they hold types against interfaces.
pub open spec fn twin_judges(
    g: GraphView,
    t: GraphView,
    b: GraphView,
    c: GraphView,
    xi: LocalView,
    yi: LocalView,
) -> bool {
    &&& settled(g, t)
    &&& runs(g, t, b, c)
    &&& twin_notes(g, t, b, xi, yi)
}

proof fn lemma_twin_pair(
    g: GraphView,
    t: GraphView,
    b: GraphView,
    c: GraphView,
    xi: LocalView,
    yi: LocalView,
    x: PairState,
    y: PairState,
    of: NodeId,
    file: FileId,
    sets: SetsView,
    i: InterfaceView,
)
    requires
        twin_judges(g, t, b, c, xi, yi),
        extends(b, x.st.g),
        twin_pairs(g, t, x, y),
        live(g.nodes, of) is Some,
        sets_there(g, b, sets),
        entries_there(g, b, i.required),
        known(g, g, i.node),
        fits(t, with_pair(b, x, xi, of, file, sets, i).st.g),
    ensures
        twin_pairs(
            g,
            t,
            with_pair(b, x, xi, of, file, sets, i),
            with_pair(c, y, yi, of, file, peer_sets(g, t, sets), peer_interface(g, t, i)),
        ),
{
    let f = |p: PendingImplements| peer_implements(g, t, p);
    lemma_twin_satisfies(g, t, b, c, sets.value, i.required);
    lemma_twin_satisfies(g, t, b, c, sets.pointer, i.required);
    let by_value = satisfies(b, sets.value, i.required);
    let by_pointer = satisfies(b, sets.pointer, i.required);
    if i.node != of && (by_value || by_pointer) {
        assert(twin_pointer_types(g, t, x.st.g, xi.pointer_type, yi.pointer_type)) by {
            lemma_notes_stay(g, t, b, x.st.g, xi, yi);
        }
        lemma_text_on(g, b, x.st.g);
        lemma_twin_pointer_form(g, t, x.st, y.st, xi, yi, of, file);
        lemma_peer(g, t, b, c, of);
        let r = with_pointer_form(x.st, xi, of, file);
        lemma_with_form_extends(x.st, xi, of, file);
        assert(live(x.st.g.nodes, of) is Some);
        assert(sources_there(r.0.g, x.pending)) by {
            assert forall|k: int| 0 <= k < x.pending.len() implies live(
                r.0.g.nodes,
                (#[trigger] x.pending[k]).source,
            ) is Some by {
                assert(live(x.st.g.nodes, x.pending[k].source) is Some);
            }
        }
        let first = PendingImplements {
            source: of,
            target: i.node,
            file,
            pointer: false,
            pointer_only: false,
        };
        assert(f(first) == first);
        assert(x.pending.push(first).map_values(f) =~= y.pending.push(first));
        let pending = if by_value {
            x.pending.push(first)
        } else {
            x.pending
        };
        if let Some(node) = r.1 {
            let second = PendingImplements {
                source: node,
                target: i.node,
                file,
                pointer: true,
                pointer_only: !by_value,
            };
            assert(pending.push(second).map_values(f) =~= pending.map_values(f).push(f(second)));
        }
    }
}

pub(crate) proof fn lemma_type_extends(
    judge: GraphView,
    p: PairState,
    idx: LocalView,
    of: NodeId,
    file: FileId,
    sets: SetsView,
    interfaces: Seq<InterfaceView>,
    n: int,
)
    ensures
        extends(p.st.g, with_type(judge, p, idx, of, file, sets, interfaces, n).st.g),
    decreases n,
{
    if n > 0 {
        lemma_type_extends(judge, p, idx, of, file, sets, interfaces, n - 1);
        let before = with_type(judge, p, idx, of, file, sets, interfaces, n - 1);
        lemma_pair_extends(judge, before, idx, of, file, sets, interfaces[n - 1]);
        lemma_extends_on(
            p.st.g,
            before.st.g,
            with_type(judge, p, idx, of, file, sets, interfaces, n).st.g,
        );
    }
}

proof fn lemma_twin_type(
    g: GraphView,
    t: GraphView,
    b: GraphView,
    c: GraphView,
    xi: LocalView,
    yi: LocalView,
    x: PairState,
    y: PairState,
    of: NodeId,
    file: FileId,
    sets: SetsView,
    interfaces: Seq<InterfaceView>,
    n: int,
)
    requires
        twin_judges(g, t, b, c, xi, yi),
        extends(b, x.st.g),
        twin_pairs(g, t, x, y),
        live(g.nodes, of) is Some,
        sets_there(g, b, sets),
        interfaces_there(g, b, c, interfaces),
        0 <= n <= interfaces.len(),
        fits(t, with_type(b, x, xi, of, file, sets, interfaces, n).st.g),
    ensures
        twin_pairs(
            g,
            t,
            with_type(b, x, xi, of, file, sets, interfaces, n),
            with_type(
                c,
                y,
                yi,
                of,
                file,
                peer_sets(g, t, sets),
                interfaces.map_values(|v: InterfaceView| peer_interface(g, t, v)),
                n,
            ),
        ),
    decreases n,
{
    if n > 0 {
        let before = with_type(b, x, xi, of, file, sets, interfaces, n - 1);
        let others = interfaces.map_values(|v: InterfaceView| peer_interface(g, t, v));
        let i = interfaces[n - 1];
        lemma_pair_extends(b, before, xi, of, file, sets, i);
        lemma_fits_before(
            t,
            before.st.g,
            with_type(b, x, xi, of, file, sets, interfaces, n).st.g,
        );
        lemma_twin_type(g, t, b, c, xi, yi, x, y, of, file, sets, interfaces, n - 1);
        lemma_type_extends(b, x, xi, of, file, sets, interfaces, n - 1);
        lemma_extends_on(b, x.st.g, before.st.g);
        assert(others[n - 1] == peer_interface(g, t, i));
        assert(was_there(g, b, interfaces[n - 1].node));
        lemma_twin_pair(
            g,
            t,
            b,
            c,
            xi,
            yi,
            before,
            with_type(c, y, yi, of, file, peer_sets(g, t, sets), others, n - 1),
            of,
            file,
            sets,
            i,
        );
    }
}

pub(crate) proof fn lemma_types_extends(
    judge: GraphView,
    p: PairState,
    idx: LocalView,
    types: Seq<NodeId>,
    interfaces: Seq<InterfaceView>,
    n: int,
)
    ensures
        extends(p.st.g, with_types(judge, p, idx, types, interfaces, n).st.g),
    decreases n,
{
    if n > 0 {
        lemma_types_extends(judge, p, idx, types, interfaces, n - 1);
        let before = with_types(judge, p, idx, types, interfaces, n - 1);
        let of = types[n - 1];
        if let Some(sets) = method_sets(judge, idx, of) {
            lemma_type_extends(
                judge,
                before,
                idx,
                of,
                file_of(before.st.g, of),
                sets,
                interfaces,
                interfaces.len() as int,
            );
            lemma_extends_on(
                p.st.g,
                before.st.g,
                with_types(judge, p, idx, types, interfaces, n).st.g,
            );
        }
    }
}

pub(crate) proof fn lemma_twin_types(
    g: GraphView,
    t: GraphView,
    b: GraphView,
    c: GraphView,
    xi: LocalView,
    yi: LocalView,
    x: PairState,
    y: PairState,
    types: Seq<NodeId>,
    interfaces: Seq<InterfaceView>,
    n: int,
)
    requires
        twin_judges(g, t, b, c, xi, yi),
        extends(b, x.st.g),
        twin_pairs(g, t, x, y),
        all_were_there(g, b, types),
        all_were_there(g, c, types),
        interfaces_there(g, b, c, interfaces),
        0 <= n <= types.len(),
        fits(t, with_types(b, x, xi, types, interfaces, n).st.g),
    ensures
        twin_pairs(
            g,
            t,
            with_types(b, x, xi, types, interfaces, n),
            with_types(
                c,
                y,
                yi,
                types,
                interfaces.map_values(|v: InterfaceView| peer_interface(g, t, v)),
                n,
            ),
        ),
        types_with_sets(c, yi, types, n) == types_with_sets(b, xi, types, n),
    decreases n,
{
    if n > 0 {
        let before = with_types(b, x, xi, types, interfaces, n - 1);
        let after = with_types(b, x, xi, types, interfaces, n);
        let others = interfaces.map_values(|v: InterfaceView| peer_interface(g, t, v));
        let of = types[n - 1];
        assert(was_there(g, b, types[n - 1]));
        assert(was_there(g, c, types[n - 1]));
        lemma_twin_method_sets(g, t, b, c, xi, yi, of);
        let m = interfaces.len() as int;
        let file = file_of(before.st.g, of);
        if let Some(sets) = method_sets(b, xi, of) {
            lemma_type_extends(b, before, xi, of, file, sets, interfaces, m);
            lemma_fits_before(t, before.st.g, after.st.g);
        }
        lemma_twin_types(g, t, b, c, xi, yi, x, y, types, interfaces, n - 1);
        lemma_types_extends(b, x, xi, types, interfaces, n - 1);
        lemma_extends_on(b, x.st.g, before.st.g);
        let other = with_types(c, y, yi, types, others, n - 1);
        if let Some(sets) = method_sets(b, xi, of) {
            assert(live(before.st.g.nodes, of) is Some);
            lemma_peer(g, t, before.st.g, other.st.g, of);
            assert(file_of(other.st.g, of) == file);
            lemma_twin_type(
                g,
                t,
                b,
                c,
                xi,
                yi,
                before,
                other,
                of,
                file,
                sets,
                interfaces,
                m,
            );
        }
    }
}

} // verus!
