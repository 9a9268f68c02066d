//! Which nodes are unified, and which of them is kept.
use vstd::prelude::*;

use crate::arena::{live, occupied, NodeEntry, Slot};
use crate::edges::PendingView;
use crate::files::RegistryView;
use crate::graph::GraphView;
use crate::ids::{NodeId, StringId};
use crate::indices::lemma_filter_take;
use crate::kinds::NodeKind;
use crate::parallel_commit::chunk_laws::lemma_flatten_take;
use crate::parallel_commit::unify::{
    absorbed, group_name, group_names, law_winner_is_best, lemma_names_distinct,
    lemma_occupied_in_order, members, moved_ends_before, moved_ends_in, outranks, path_key,
    unification_counts, unification_of, unified, winner_of, UnifyView,
};
use crate::text::{lemma_text_order, text_before};
use crate::unification::{merged_loser, merged_winner, moved};

verus! {

/// `id` is a function or method with qualified name `q`.
pub open spec fn goes_by(slots: Seq<Slot>, id: NodeId, q: StringId) -> bool {
    &&& live(slots, id) is Some
    &&& live(slots, id)->0.kind == NodeKind::Function || live(slots, id)->0.kind
        == NodeKind::Method
    &&& live(slots, id)->0.qualified_name == Some(q)
}

/// Lines from the first to the last.
pub open spec fn lines(e: NodeEntry) -> int {
    if e.end_line > e.start_line {
        e.end_line - e.start_line
    } else {
        0
    }
}

/// The path of the file of `e`.
pub open spec fn path_of(files: RegistryView, e: NodeEntry) -> Seq<char> {
    if e.file.0 < files.files.len() {
        files.files[e.file.0 as int].path
    } else {
        Seq::empty()
    }
}

/// `a` is kept rather than `b`: what has a place in the source before what has none, then
/// what has more lines, then what stands in the file whose path comes first, then what
/// comes first.
pub open spec fn kept_rather(g: GraphView, a: NodeId, b: NodeId) -> bool {
    let x = live(g.nodes, a)->0;
    let y = live(g.nodes, b)->0;
    let p = path_of(g.files, x);
    let q = path_of(g.files, y);
    ||| x.start_line > 0 && y.start_line == 0
    ||| (x.start_line > 0 <==> y.start_line > 0) && (lines(x) > lines(y) || (lines(x) == lines(y)
        && (text_before(p, q) || (p == q && a.index < b.index))))
}

/// What `e` knows: its signature, its documentation and its visibility.
pub open spec fn knows_no_less(e: NodeEntry, f: NodeEntry) -> bool {
    &&& f.signature is Some ==> e.signature is Some
    &&& f.doc is Some ==> e.doc is Some
    &&& f.visibility is Some ==> e.visibility is Some
}

/// `e` is `f`, but for what it may have learned and `f` did not know.
pub open spec fn learned(e: NodeEntry, f: NodeEntry) -> bool {
    &&& e == (NodeEntry { signature: e.signature, doc: e.doc, visibility: e.visibility, ..f })
    &&& f.signature is Some ==> e.signature == f.signature
    &&& f.doc is Some ==> e.doc == f.doc
    &&& f.visibility is Some ==> e.visibility == f.visibility
}

proof fn lemma_absorbed(
    st: UnifyView,
    group: Seq<NodeId>,
    winner: NodeId,
    n: int,
)
    requires
        0 <= n <= group.len(),
        group.no_duplicates(),
        group.contains(winner),
        forall|i: int| 0 <= i < group.len() ==> live(st.slots, #[trigger] group[i]) is Some,
    ensures
        ({
            let then = absorbed(st, group, winner, n);
            &&& then.slots.len() == st.slots.len()
            &&& forall|id: NodeId|
                (#[trigger] live(then.slots, id)) is Some <==> live(st.slots, id) is Some
            &&& forall|id: NodeId|
                !group.take(n).contains(id) && id != winner ==> #[trigger] live(then.slots, id)
                    == live(st.slots, id)
            &&& forall|i: int|
                0 <= i < n && #[trigger] group[i] != winner ==> live(then.slots, group[i]) == Some(
                    merged_loser(live(st.slots, group[i])->0),
                )
            &&& learned(live(then.slots, winner)->0, live(st.slots, winner)->0)
            &&& forall|i: int|
                0 <= i < n ==> knows_no_less(
                    live(then.slots, winner)->0,
                    live(st.slots, #[trigger] group[i])->0,
                )
            &&& forall|k: NodeId| #[trigger]
                then.table.dom().contains(k) <==> st.table.dom().contains(k) || (k != winner
                    && group.take(n).contains(k))
            &&& forall|k: NodeId|
                k != winner && group.take(n).contains(k) ==> #[trigger] then.table[k] == winner
            &&& forall|k: NodeId|
                !group.take(n).contains(k) ==> #[trigger] then.table[k] == st.table[k]
            &&& then.count == st.count + (if group.take(n).contains(winner) {
                n - 1
            } else {
                n
            })
        }),
    decreases n,
{
    if n > 0 {
        lemma_absorbed(st, group, winner, n - 1);
        let before = absorbed(st, group, winner, n - 1);
        let then = absorbed(st, group, winner, n);
        let loser = group[n - 1];
        let few = group.take(n - 1);
        let more = group.take(n);
        assert(more =~= few.push(loser));
        assert forall|k: NodeId| #[trigger] more.contains(k) <==> few.contains(k) || k == loser by {
            if few.contains(k) {
                assert(more[few.index_of(k)] == k);
            }
            assert(more[n - 1] == loser);
            if more.contains(k) && k != loser {
                assert(few[more.index_of(k)] == k);
            }
        }
        assert(!few.contains(loser)) by {
            if few.contains(loser) {
                let i = few.index_of(loser);
                assert(group[i] == group[n - 1]);
            }
        }
        assert(live(st.slots, group[n - 1]) is Some);
        assert(live(st.slots, winner) is Some) by {
            let w = group.index_of(winner);
            assert(live(st.slots, group[w]) is Some);
        }
        assert(live(before.slots, winner) is Some && live(before.slots, loser) is Some);
        if loser != winner {
            assert(loser.index != winner.index);
            let l = live(before.slots, loser)->0;
            let w = live(before.slots, winner)->0;
            assert(l == live(st.slots, loser)->0);
            assert(live(then.slots, winner) == Some(merged_winner(w, l)));
            assert(live(then.slots, loser) == Some(merged_loser(l)));
            assert forall|id: NodeId| id != winner && id != loser implies #[trigger] live(
                then.slots,
                id,
            ) == live(before.slots, id) by {}
            assert forall|i: int| 0 <= i < n && #[trigger] group[i] != winner implies live(
                then.slots,
                group[i],
            ) == Some(merged_loser(live(st.slots, group[i])->0)) by {
                if i < n - 1 {
                    assert(group[i] != loser);
                }
            }
            assert forall|i: int| 0 <= i < n implies knows_no_less(
                live(then.slots, winner)->0,
                live(st.slots, #[trigger] group[i])->0,
            ) by {
                if i < n - 1 {
                    assert(knows_no_less(w, live(st.slots, group[i])->0));
                }
            }
        } else {
            assert(then == before);
            assert forall|i: int| 0 <= i < n implies knows_no_less(
                live(then.slots, winner)->0,
                live(st.slots, #[trigger] group[i])->0,
            ) by {}
        }
    } else {
        assert(group.take(0) =~= Seq::empty());
    }
}

proof fn lemma_occupied(slots: Seq<Slot>, n: int)
    requires
        0 <= n <= slots.len() <= u32::MAX + 1,
    ensures
        forall|i: int|
            0 <= i < occupied(slots, n).len() ==> live(
                slots,
                (#[trigger] occupied(slots, n)[i]).0,
            ) == Some(occupied(slots, n)[i].1),
        forall|id: NodeId|
            id.index < n && (#[trigger] live(slots, id)) is Some ==> exists|i: int|
                0 <= i < occupied(slots, n).len() && (#[trigger] occupied(slots, n)[i]).0 == id,
    decreases n,
{
    if n > 0 {
        lemma_occupied(slots, n - 1);
        let before = occupied(slots, n - 1);
        let after = occupied(slots, n);
        assert forall|i: int| 0 <= i < after.len() implies live(slots, (#[trigger] after[i]).0)
            == Some(after[i].1) by {
            if i < before.len() {
                assert(after[i] == before[i]);
            }
        }
        assert forall|id: NodeId| id.index < n && (#[trigger] live(slots, id)) is Some implies exists|
            i: int,
        |
            0 <= i < after.len() && (#[trigger] after[i]).0 == id by {
            if id.index < n - 1 {
                let i = choose|i: int| 0 <= i < before.len() && (#[trigger] before[i]).0 == id;
                assert(after[i] == before[i]);
            } else {
                assert(after[before.len() as int].0 == id);
            }
        }
    }
}

proof fn lemma_members(nodes: Seq<(NodeId, NodeEntry)>, q: StringId, n: int)
    requires
        0 <= n <= nodes.len(),
        forall|i: int, j: int|
            #![trigger nodes[i], nodes[j]]
            0 <= i < j < nodes.len() ==> nodes[i].0 != nodes[j].0,
    ensures
        members(nodes, q, n).no_duplicates(),
        forall|id: NodeId| #[trigger]
            members(nodes, q, n).contains(id) <==> exists|i: int|
                0 <= i < n && (#[trigger] nodes[i]).0 == id && group_name(nodes[i].1) == Some(q),
    decreases n,
{
    if n > 0 {
        lemma_members(nodes, q, n - 1);
        let before = members(nodes, q, n - 1);
        let after = members(nodes, q, n);
        let last = nodes[n - 1];
        assert(!before.contains(last.0)) by {
            if before.contains(last.0) {
                let i = choose|i: int|
                    0 <= i < n - 1 && (#[trigger] nodes[i]).0 == last.0 && group_name(nodes[i].1)
                        == Some(q);
                assert(nodes[i].0 != nodes[n - 1].0);
            }
        }
        assert forall|id: NodeId| #[trigger] after.contains(id) <==> exists|i: int|
            0 <= i < n && (#[trigger] nodes[i]).0 == id && group_name(nodes[i].1) == Some(q) by {
            if before.contains(id) {
                assert(after[before.index_of(id)] == id);
                let i = choose|i: int|
                    0 <= i < n - 1 && (#[trigger] nodes[i]).0 == id && group_name(nodes[i].1)
                        == Some(q);
                assert(nodes[i].0 == id);
            }
            if after.contains(id) && !before.contains(id) {
                let i = after.index_of(id);
                if i < before.len() {
                    assert(before[i] == id);
                }
                assert(nodes[n - 1].0 == id);
            }
            if exists|i: int|
                0 <= i < n && (#[trigger] nodes[i]).0 == id && group_name(nodes[i].1) == Some(q) {
                let i = choose|i: int|
                    0 <= i < n && (#[trigger] nodes[i]).0 == id && group_name(nodes[i].1) == Some(
                        q,
                    );
                if i == n - 1 {
                    assert(after[before.len() as int] == id);
                } else {
                    assert(nodes[i].0 == id);
                    assert(before.contains(id));
                }
            }
        }
    }
}

proof fn lemma_names(nodes: Seq<(NodeId, NodeEntry)>, n: int, i: int)
    requires
        0 <= i < n <= nodes.len(),
        group_name(nodes[i].1) is Some,
    ensures
        group_names(nodes, n).contains(group_name(nodes[i].1)->0),
    decreases n,
{
    let before = group_names(nodes, n - 1);
    let after = group_names(nodes, n);
    let q = group_name(nodes[i].1)->0;
    if i < n - 1 {
        lemma_names(nodes, n - 1, i);
        assert(after[before.index_of(q)] == q);
    } else if !before.contains(q) {
        assert(after[before.len() as int] == q);
    }
}

/// The group of a name: who goes by it in `g`.
spec fn groups(g: GraphView, q: StringId) -> Seq<NodeId> {
    let nodes = occupied(g.nodes, g.nodes.len() as int);
    members(nodes, q, nodes.len() as int)
}

proof fn lemma_groups(g: GraphView, q: StringId)
    requires
        g.nodes.len() <= u32::MAX + 1,
    ensures
        groups(g, q).no_duplicates(),
        forall|id: NodeId| #[trigger] groups(g, q).contains(id) <==> goes_by(g.nodes, id, q),
{
    let n = g.nodes.len() as int;
    let nodes = occupied(g.nodes, n);
    lemma_occupied_in_order(g.nodes, n);
    lemma_occupied(g.nodes, n);
    lemma_members(nodes, q, nodes.len() as int);
    assert forall|id: NodeId| #[trigger] groups(g, q).contains(id) <==> goes_by(
        g.nodes,
        id,
        q,
    ) by {
        if groups(g, q).contains(id) {
            let i = choose|i: int|
                0 <= i < nodes.len() && (#[trigger] nodes[i]).0 == id && group_name(nodes[i].1)
                    == Some(q);
            assert(live(g.nodes, nodes[i].0) == Some(nodes[i].1));
        }
        if goes_by(g.nodes, id, q) {
            assert(id.index < n);
            let i = choose|i: int| 0 <= i < nodes.len() && (#[trigger] nodes[i]).0 == id;
            assert(live(g.nodes, nodes[i].0) == Some(nodes[i].1));
            assert(group_name(nodes[i].1) == Some(q));
        }
    }
}

/// What has become of the nodes that go by `q`.
spec fn settled(g: GraphView, st: UnifyView, q: StringId, w: NodeId) -> bool {
    &&& goes_by(g.nodes, w, q)
    &&& !st.table.dom().contains(w)
    &&& learned(live(st.slots, w)->0, live(g.nodes, w)->0)
    &&& forall|id: NodeId| #[trigger]
        goes_by(g.nodes, id, q) ==> knows_no_less(
            live(st.slots, w)->0,
            live(g.nodes, id)->0,
        ) && (id != w ==> st.table.dom().contains(id) && st.table[id] == w && live(st.slots, id)
            == Some(merged_loser(live(g.nodes, id)->0)) && kept_rather(g, w, id))
}

spec fn state_at(g: GraphView, st: UnifyView, names: Seq<StringId>, n: int) -> bool {
    &&& st.slots.len() == g.nodes.len()
    &&& forall|id: NodeId|
        (#[trigger] live(st.slots, id)) is Some <==> live(g.nodes, id) is Some
    &&& forall|id: NodeId| #[trigger]
        st.table.dom().contains(id) ==> exists|j: int|
            0 <= j < n && goes_by(g.nodes, id, #[trigger] names[j])
    &&& forall|id: NodeId|
        (forall|j: int| 0 <= j < n ==> !goes_by(g.nodes, id, #[trigger] names[j])) ==> #[trigger] live(
            st.slots,
            id,
        ) == live(g.nodes, id)
    &&& forall|j: int|
        0 <= j < n && (exists|id: NodeId| goes_by(g.nodes, id, names[j])) ==> exists|w: NodeId|
            settled(g, st, #[trigger] names[j], w)
}

proof fn lemma_kept(g: GraphView, slots: Seq<Slot>, a: NodeId, b: NodeId)
    requires
        live(g.nodes, a) is Some,
        live(g.nodes, b) is Some,
        live(slots, a) == live(g.nodes, a),
        live(slots, b) == live(g.nodes, b),
        a != b,
        !outranks(slots, g.files, b, a),
    ensures
        kept_rather(g, a, b),
{
    let p = path_key(slots, g.files, a);
    let q = path_key(slots, g.files, b);
    lemma_text_order(p, q);
    lemma_text_order(q, p);
    assert(p == path_of(g.files, live(g.nodes, a)->0));
    assert(q == path_of(g.files, live(g.nodes, b)->0));
    assert(a.index != b.index);
}

proof fn lemma_state(g: GraphView, names: Seq<StringId>, n: int)
    requires
        g.nodes.len() <= u32::MAX + 1,
        0 <= n <= names.len(),
        names.no_duplicates(),
    ensures
        state_at(
            g,
            unified(
                UnifyView { slots: g.nodes, table: Map::empty(), count: 0 },
                g.files,
                occupied(g.nodes, g.nodes.len() as int),
                names,
                n,
            ),
            names,
            n,
        ),
    decreases n,
{
    let start = UnifyView { slots: g.nodes, table: Map::empty(), count: 0 };
    let nodes = occupied(g.nodes, g.nodes.len() as int);
    let then = unified(start, g.files, nodes, names, n);
    if n > 0 {
        lemma_state(g, names, n - 1);
        let before = unified(start, g.files, nodes, names, n - 1);
        let q = names[n - 1];
        let group = groups(g, q);
        lemma_groups(g, q);
        assert forall|id: NodeId, j: int|
            #![trigger goes_by(g.nodes, id, names[j])]
            0 <= j < n - 1 && goes_by(g.nodes, id, names[j]) implies !goes_by(g.nodes, id, q) by {
            if goes_by(g.nodes, id, q) {
                assert(names[j] == names[n - 1]);
            }
        }
        assert forall|i: int| 0 <= i < group.len() implies live(before.slots, #[trigger] group[i])
            == live(g.nodes, group[i]) && live(g.nodes, group[i]) is Some by {
            assert(group.contains(group[i]));
            assert(goes_by(g.nodes, group[i], q));
        }
        if group.len() >= 2 {
            let w = winner_of(before.slots, g.files, group);
            law_winner_is_best(before.slots, g.files, group, 0);
            lemma_absorbed(before, group, w, group.len() as int);
            assert(group.take(group.len() as int) =~= group);
            assert(then == absorbed(before, group, w, group.len() as int));
            lemma_state_step(g, before, then, names, n, w);
        } else {
            assert(then == before);
            lemma_state_same(g, then, names, n);
        }
    }
}

proof fn lemma_state_same(g: GraphView, st: UnifyView, names: Seq<StringId>, n: int)
    requires
        g.nodes.len() <= u32::MAX + 1,
        0 < n <= names.len(),
        names.no_duplicates(),
        state_at(g, st, names, n - 1),
        groups(g, names[n - 1]).len() < 2,
    ensures
        state_at(g, st, names, n),
{
    let q = names[n - 1];
    let group = groups(g, q);
    lemma_groups(g, q);
    assert forall|id: NodeId| #[trigger] st.table.dom().contains(id) implies exists|j: int|
        0 <= j < n && goes_by(g.nodes, id, #[trigger] names[j]) by {
        let j = choose|j: int| 0 <= j < n - 1 && goes_by(g.nodes, id, #[trigger] names[j]);
        assert(goes_by(g.nodes, id, names[j]));
    }
    assert forall|j: int|
        0 <= j < n && (exists|id: NodeId| goes_by(g.nodes, id, names[j])) implies exists|w: NodeId|
        settled(g, st, #[trigger] names[j], w) by {
        if j == n - 1 {
            let w = choose|id: NodeId| goes_by(g.nodes, id, names[j]);
            assert(group.contains(w));
            assert forall|i: int| 0 <= i < n - 1 implies !goes_by(g.nodes, w, #[trigger] names[i]) by {
                if goes_by(g.nodes, w, names[i]) {
                    assert(names[i] == names[n - 1]);
                }
            }
            assert forall|id: NodeId| #[trigger] goes_by(g.nodes, id, q) implies id == w by {
                assert(group.contains(id));
                assert(group.index_of(id) == group.index_of(w));
            }
            assert(!st.table.dom().contains(w));
            assert(live(st.slots, w) == live(g.nodes, w));
            assert(settled(g, st, names[j], w));
        }
    }
}

proof fn lemma_state_step(
    g: GraphView,
    before: UnifyView,
    then: UnifyView,
    names: Seq<StringId>,
    n: int,
    w: NodeId,
)
    requires
        g.nodes.len() <= u32::MAX + 1,
        0 < n <= names.len(),
        names.no_duplicates(),
        state_at(g, before, names, n - 1),
        ({
            let group = groups(g, names[n - 1]);
            &&& group.contains(w)
            &&& w == winner_of(before.slots, g.files, group)
            &&& group.len() >= 2
            &&& then.slots.len() == before.slots.len()
            &&& forall|id: NodeId|
                (#[trigger] live(then.slots, id)) is Some <==> live(before.slots, id) is Some
            &&& forall|id: NodeId|
                !group.contains(id) && id != w ==> #[trigger] live(then.slots, id) == live(
                    before.slots,
                    id,
                )
            &&& forall|i: int|
                0 <= i < group.len() && #[trigger] group[i] != w ==> live(then.slots, group[i])
                    == Some(merged_loser(live(before.slots, group[i])->0))
            &&& learned(live(then.slots, w)->0, live(before.slots, w)->0)
            &&& forall|i: int|
                0 <= i < group.len() ==> knows_no_less(
                    live(then.slots, w)->0,
                    live(before.slots, #[trigger] group[i])->0,
                )
            &&& forall|k: NodeId| #[trigger]
                then.table.dom().contains(k) <==> before.table.dom().contains(k) || (k != w
                    && group.contains(k))
            &&& forall|k: NodeId|
                k != w && group.contains(k) ==> #[trigger] then.table[k] == w
            &&& forall|k: NodeId|
                !group.contains(k) ==> #[trigger] then.table[k] == before.table[k]
        }),
    ensures
        state_at(g, then, names, n),
{
    let q = names[n - 1];
    let group = groups(g, q);
    lemma_groups(g, q);
    assert forall|id: NodeId, j: int|
        #![trigger goes_by(g.nodes, id, names[j])]
        0 <= j < n - 1 && goes_by(g.nodes, id, names[j]) implies !goes_by(g.nodes, id, q) by {
        if goes_by(g.nodes, id, q) {
            assert(names[j] == names[n - 1]);
        }
    }
    assert forall|id: NodeId| #[trigger] goes_by(g.nodes, id, q) implies live(before.slots, id)
        == live(g.nodes, id) && !before.table.dom().contains(id) by {
        if before.table.dom().contains(id) {
            let j = choose|j: int| 0 <= j < n - 1 && goes_by(g.nodes, id, #[trigger] names[j]);
            assert(goes_by(g.nodes, id, names[j]));
        }
    }
    assert forall|id: NodeId| #[trigger] then.table.dom().contains(id) implies exists|j: int|
        0 <= j < n && goes_by(g.nodes, id, #[trigger] names[j]) by {
        if before.table.dom().contains(id) {
            let j = choose|j: int| 0 <= j < n - 1 && goes_by(g.nodes, id, #[trigger] names[j]);
            assert(goes_by(g.nodes, id, names[j]));
        } else {
            assert(goes_by(g.nodes, id, names[n - 1]));
        }
    }
    assert forall|id: NodeId|
        (forall|j: int| 0 <= j < n ==> !goes_by(g.nodes, id, #[trigger] names[j])) implies #[trigger] live(
        then.slots,
        id,
    ) == live(g.nodes, id) by {
        assert(!goes_by(g.nodes, id, names[n - 1]));
        assert(!group.contains(id));
        assert(live(before.slots, id) == live(g.nodes, id));
    }
    assert(goes_by(g.nodes, w, q));
    assert forall|j: int|
        0 <= j < n && (exists|id: NodeId| goes_by(g.nodes, id, names[j])) implies exists|x: NodeId|
        settled(g, then, #[trigger] names[j], x) by {
        if j < n - 1 {
            let x = choose|x: NodeId| settled(g, before, names[j], x);
            assert forall|id: NodeId| #[trigger] goes_by(g.nodes, id, names[j]) implies live(
                then.slots,
                id,
            ) == live(before.slots, id) && !group.contains(id) by {
                assert(!goes_by(g.nodes, id, q));
            }
            assert(goes_by(g.nodes, x, names[j]));
            assert(settled(g, then, names[j], x));
        } else {
            assert forall|id: NodeId| #[trigger] goes_by(g.nodes, id, q) implies knows_no_less(
                live(then.slots, w)->0,
                live(g.nodes, id)->0,
            ) && (id != w ==> then.table.dom().contains(id) && then.table[id] == w && live(
                then.slots,
                id,
            ) == Some(merged_loser(live(g.nodes, id)->0)) && kept_rather(g, w, id)) by {
                assert(group.contains(id));
                let i = group.index_of(id);
                assert(group[i] == id);
                if id != w {
                    law_winner_is_best(before.slots, g.files, group, i);
                    lemma_kept(g, before.slots, w, id);
                }
            }
            assert(settled(g, then, names[j], w));
        }
    }
}

/// Functions and methods that go by the same qualified name end up as one node, which is
/// one of them: that which has a place in the source, spans the most lines, stands in the
/// first file and comes first, in this order. It knows what any of them knew, and keeps
/// what it knew itself. The others keep their slots, without their names, and whatever is
/// no such namesake stays as it is.
pub proof fn law_namesakes_become_the_best_of_them(g: GraphView)
    requires
        g.nodes.len() <= u32::MAX + 1,
    ensures
        ({
            let table = unification_of(g).table;
            let slots = unification_of(g).slots;
            &&& forall|a: NodeId, b: NodeId, q: StringId|
                #![trigger goes_by(g.nodes, a, q), goes_by(g.nodes, b, q)]
                goes_by(g.nodes, a, q) && goes_by(g.nodes, b, q) ==> {
                    let w = moved(table, a);
                    &&& moved(table, b) == w
                    &&& goes_by(g.nodes, w, q)
                    &&& b != w ==> kept_rather(g, w, b) && live(slots, b) == Some(
                        NodeEntry {
                            name: StringId::invalid(),
                            qualified_name: None,
                            ..live(g.nodes, b)->0
                        },
                    )
                    &&& learned(live(slots, w)->0, live(g.nodes, w)->0)
                    &&& knows_no_less(live(slots, w)->0, live(g.nodes, b)->0)
                }
            &&& forall|id: NodeId|
                (forall|q: StringId| !#[trigger] goes_by(g.nodes, id, q)) ==> #[trigger] live(
                    slots,
                    id,
                ) == live(g.nodes, id) && moved(table, id) == id
        }),
{
    let n = g.nodes.len() as int;
    let nodes = occupied(g.nodes, n);
    let names = group_names(nodes, nodes.len() as int);
    lemma_names_distinct(nodes, nodes.len() as int);
    lemma_state(g, names, names.len() as int);
    let st = unification_of(g);
    assert(state_at(g, st, names, names.len() as int));
    assert forall|a: NodeId, b: NodeId, q: StringId|
        #![trigger goes_by(g.nodes, a, q), goes_by(g.nodes, b, q)]
        goes_by(g.nodes, a, q) && goes_by(g.nodes, b, q) implies {
        let w = moved(st.table, a);
        &&& moved(st.table, b) == w
        &&& goes_by(g.nodes, w, q)
        &&& b != w ==> kept_rather(g, w, b) && live(st.slots, b) == Some(
            NodeEntry {
                name: StringId::invalid(),
                qualified_name: None,
                ..live(g.nodes, b)->0
            },
        )
        &&& learned(live(st.slots, w)->0, live(g.nodes, w)->0)
        &&& knows_no_less(live(st.slots, w)->0, live(g.nodes, b)->0)
    } by {
        lemma_occupied(g.nodes, n);
        let i = choose|i: int| 0 <= i < nodes.len() && (#[trigger] nodes[i]).0 == a;
        assert(live(g.nodes, nodes[i].0) == Some(nodes[i].1));
        lemma_names(nodes, nodes.len() as int, i);
        let j = names.index_of(q);
        assert(goes_by(g.nodes, a, names[j]));
        let w = choose|w: NodeId| settled(g, st, names[j], w);
        assert(goes_by(g.nodes, b, names[j]));
    }
    assert forall|id: NodeId|
        (forall|q: StringId| !#[trigger] goes_by(g.nodes, id, q)) implies #[trigger] live(
        st.slots,
        id,
    ) == live(g.nodes, id) && moved(st.table, id) == id by {
        if st.table.dom().contains(id) {
            let j = choose|j: int|
                0 <= j < names.len() && goes_by(g.nodes, id, #[trigger] names[j]);
            assert(goes_by(g.nodes, id, names[j]));
        }
    }
}

proof fn lemma_absorbed_counted(st: UnifyView, group: Seq<NodeId>, winner: NodeId, n: int)
    requires
        0 <= n <= group.len(),
        group.no_duplicates(),
        st.table.dom().finite(),
        forall|k: int| 0 <= k < group.len() ==> !st.table.dom().contains(#[trigger] group[k]),
    ensures
        ({
            let r = absorbed(st, group, winner, n);
            &&& r.table.dom().finite()
            &&& r.count - st.count == r.table.dom().len() - st.table.dom().len()
            &&& forall|k: int|
                n <= k < group.len() ==> !r.table.dom().contains(#[trigger] group[k])
        }),
    decreases n,
{
    if n > 0 {
        lemma_absorbed_counted(st, group, winner, n - 1);
        let b = absorbed(st, group, winner, n - 1);
        let r = absorbed(st, group, winner, n);
        assert(!b.table.dom().contains(group[n - 1]));
        assert(b.table.insert(group[n - 1], winner).dom() =~= b.table.dom().insert(group[n - 1]));
        assert forall|k: int| n <= k < group.len() implies !r.table.dom().contains(
            #[trigger] group[k],
        ) by {
            assert(group[k] != group[n - 1]);
        }
    }
}

proof fn lemma_unified_counted(g: GraphView, names: Seq<StringId>, n: int)
    requires
        g.nodes.len() <= u32::MAX + 1,
        0 <= n <= names.len(),
        names.no_duplicates(),
    ensures
        ({
            let r = unified(
                UnifyView { slots: g.nodes, table: Map::empty(), count: 0 },
                g.files,
                occupied(g.nodes, g.nodes.len() as int),
                names,
                n,
            );
            &&& r.table.dom().finite()
            &&& r.count == r.table.dom().len()
        }),
    decreases n,
{
    let nodes = occupied(g.nodes, g.nodes.len() as int);
    let start = UnifyView { slots: g.nodes, table: Map::empty(), count: 0 };
    if n > 0 {
        lemma_unified_counted(g, names, n - 1);
        lemma_state(g, names, n - 1);
        let b = unified(start, g.files, nodes, names, n - 1);
        let group = members(nodes, names[n - 1], nodes.len() as int);
        lemma_occupied_in_order(g.nodes, g.nodes.len() as int);
        lemma_occupied(g.nodes, g.nodes.len() as int);
        lemma_members(nodes, names[n - 1], nodes.len() as int);
        assert forall|k: int| 0 <= k < group.len() implies !b.table.dom().contains(
            #[trigger] group[k],
        ) by {
            let id = group[k];
            assert(group.contains(id));
            let i = choose|i: int|
                0 <= i < nodes.len() && (#[trigger] nodes[i]).0 == id && group_name(nodes[i].1)
                    == Some(names[n - 1]);
            assert(live(g.nodes, nodes[i].0) == Some(nodes[i].1));
            if b.table.dom().contains(id) {
                let j = choose|j: int| 0 <= j < n - 1 && goes_by(g.nodes, id, #[trigger] names[j]);
                assert(names[j] == names[n - 1]);
            }
        }
        lemma_absorbed_counted(b, group, winner_of(b.slots, g.files, group), group.len() as int);
    } else {
        assert(start.table.dom() =~= Set::empty());
    }
}

proof fn lemma_moved_ends_in(table: Map<NodeId, NodeId>, edges: Seq<PendingView>, n: int)
    requires
        0 <= n <= edges.len(),
    ensures
        moved_ends_in(table, edges, n) == edges.take(n).filter(
            |e: PendingView| table.dom().contains(e.source),
        ).len() + edges.take(n).filter(|e: PendingView| table.dom().contains(e.target)).len(),
    decreases n,
{
    let a = |e: PendingView| table.dom().contains(e.source);
    let b = |e: PendingView| table.dom().contains(e.target);
    if n > 0 {
        lemma_moved_ends_in(table, edges, n - 1);
        lemma_filter_take(edges, a, n);
        lemma_filter_take(edges, b, n);
    } else {
        reveal(Seq::filter);
        assert(edges.take(0).filter(a).len() == 0);
        assert(edges.take(0).filter(b).len() == 0);
    }
}

proof fn lemma_moved_ends(table: Map<NodeId, NodeId>, files: Seq<Seq<PendingView>>, n: int)
    requires
        0 <= n <= files.len(),
    ensures
        moved_ends_before(table, files, n) == files.take(n).flatten().filter(
            |e: PendingView| table.dom().contains(e.source),
        ).len() + files.take(n).flatten().filter(
            |e: PendingView| table.dom().contains(e.target),
        ).len(),
    decreases n,
{
    let a = |e: PendingView| table.dom().contains(e.source);
    let b = |e: PendingView| table.dom().contains(e.target);
    if n > 0 {
        lemma_moved_ends(table, files, n - 1);
        lemma_flatten_take(files, n);
        let before = files.take(n - 1).flatten();
        let last = files[n - 1];
        lemma_moved_ends_in(table, last, last.len() as int);
        assert(last.take(last.len() as int) =~= last);
        Seq::filter_distributes_over_add(before, last, a);
        Seq::filter_distributes_over_add(before, last, b);
    } else {
        reveal(Seq::filter);
        assert(files.take(0) =~= Seq::empty());
        assert(files.take(0).flatten().filter(a).len() == 0);
        assert(files.take(0).flatten().filter(b).len() == 0);
    }
}

/// As many nodes are counted as merged, and as kept without a name, as another node stands
/// for; and as many ends of pending edges are counted as moved as began or ended at one of
/// these.
pub proof fn law_merged_nodes_and_moved_ends_are_counted(
    g: GraphView,
    files: Seq<Seq<PendingView>>,
)
    requires
        g.nodes.len() <= u32::MAX + 1,
        unification_of(g).table.dom().len() <= usize::MAX,
        2 * files.flatten().len() <= usize::MAX,
    ensures
        ({
            let table = unification_of(g).table;
            let s = unification_counts(g, files);
            let all = files.flatten();
            &&& s.nodes_merged == table.dom().len()
            &&& s.nodes_inert == table.dom().len()
            &&& s.edges_rewritten == all.filter(
                |e: PendingView| table.dom().contains(e.source),
            ).len() + all.filter(|e: PendingView| table.dom().contains(e.target)).len()
        }),
{
    let nodes = occupied(g.nodes, g.nodes.len() as int);
    let names = group_names(nodes, nodes.len() as int);
    let table = unification_of(g).table;
    let all = files.flatten();
    lemma_names_distinct(nodes, nodes.len() as int);
    lemma_unified_counted(g, names, names.len() as int);
    lemma_moved_ends(table, files, files.len() as int);
    assert(files.take(files.len() as int) =~= files);
    all.lemma_filter_len(|e: PendingView| table.dom().contains(e.source));
    all.lemma_filter_len(|e: PendingView| table.dom().contains(e.target));
}

} // verus!
