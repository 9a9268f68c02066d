//! Unifying nodes of different files that stand for one declaration.
use vstd::prelude::*;

use crate::arena::{live, occupied, NodeArena, NodeEntry, Slot};
use crate::clock::{clamp_millis, clock_now, elapsed_since};
use crate::edges::{pending_views_by_file, PendingEdge, PendingView};
use crate::files::{FileRegistry, RegistryView};
use crate::graph::{CodeGraph, GraphView};
use crate::ids::{NodeId, StringId};
use crate::kinds::NodeKind;
use crate::parallel_commit::finalize::{edges_before, lemma_edges_before_monotone};
use crate::text::{is_text_before, lemma_text_order, same_text, text_before};
use crate::unification::{
    merge_node_into, mergeable, merged, merged_loser, moved_list, moved_lists, moved_store,
    NodeRemapTable,
};

verus! {

/// What one run of the unification has done.
#[derive(Clone, Copy, Debug, PartialEq, Eq, Structural)]
pub struct UnificationStats {
    /// Groups of two or more nodes with one qualified name.
    pub candidate_pairs_examined: usize,
    /// Nodes merged into another.
    pub nodes_merged: usize,
    /// Ends of pending edges moved to another node.
    pub edges_rewritten: usize,
    /// Nodes whose slot is kept without a name.
    pub nodes_inert: usize,
    /// Wall-clock duration in milliseconds.
    pub elapsed_ms: u64,
}

impl Default for UnificationStats {
    fn default() -> (r: UnificationStats)
        ensures
            r == (UnificationStats {
                candidate_pairs_examined: 0,
                nodes_merged: 0,
                edges_rewritten: 0,
                nodes_inert: 0,
                elapsed_ms: 0,
            }),
    {
        UnificationStats {
            candidate_pairs_examined: 0,
            nodes_merged: 0,
            edges_rewritten: 0,
            nodes_inert: 0,
            elapsed_ms: 0,
        }
    }
}

/// A node of this kind can be the target of a call.
pub open spec fn call_compatible(kind: NodeKind) -> bool {
    kind == NodeKind::Function || kind == NodeKind::Method
}

/// The qualified name under which a node takes part.
pub open spec fn group_name(e: NodeEntry) -> Option<StringId> {
    if call_compatible(e.kind) {
        e.qualified_name
    } else {
        None
    }
}

fn find_group_name(e: &NodeEntry) -> (r: Option<StringId>)
    ensures
        r == group_name(*e),
{
    if e.kind == NodeKind::Function || e.kind == NodeKind::Method {
        e.qualified_name
    } else {
        None
    }
}

/// The nodes with qualified name `qn` among the first `n`.
pub open spec fn members(nodes: Seq<(NodeId, NodeEntry)>, qn: StringId, n: int) -> Seq<NodeId>
    decreases n,
{
    if n <= 0 {
        Seq::empty()
    } else {
        let before = members(nodes, qn, n - 1);
        if group_name(nodes[n - 1].1) == Some(qn) {
            before.push(nodes[n - 1].0)
        } else {
            before
        }
    }
}

/// The qualified names of the first `n` nodes, each once, in order of appearance.
pub open spec fn group_names(nodes: Seq<(NodeId, NodeEntry)>, n: int) -> Seq<StringId>
    decreases n,
{
    if n <= 0 {
        Seq::empty()
    } else {
        let before = group_names(nodes, n - 1);
        match group_name(nodes[n - 1].1) {
            Some(q) => if before.contains(q) {
                before
            } else {
                before.push(q)
            },
            None => before,
        }
    }
}

/// The path of the file of `node`; empty where it has none.
pub open spec fn path_key(slots: Seq<Slot>, files: RegistryView, node: NodeId) -> Seq<char> {
    match live(slots, node) {
        Some(e) => match files.path(e.file) {
            Some(p) => p,
            None => Seq::empty(),
        },
        None => Seq::empty(),
    }
}

fn find_path_key(nodes: &NodeArena, files: &FileRegistry, node: NodeId) -> (r: String)
    ensures
        r@ == path_key(nodes@, files@, node),
{
    match nodes.get(node) {
        Some(e) => match files.resolve(e.file) {
            Some(p) => p,
            None => crate::text::string_of(&Vec::new()),
        },
        None => crate::text::string_of(&Vec::new()),
    }
}

/// Lines that an entry spans beyond its first.
pub open spec fn span_width(e: NodeEntry) -> int {
    if e.end_line >= e.start_line {
        e.end_line - e.start_line
    } else {
        0
    }
}

/// `a` is to be kept rather than `b`: it is live and `b` is not; or it has a place in the
/// source and `b` has not; or it spans more lines; or the path of its file sorts
/// first; or its slot comes first.
pub open spec fn outranks(slots: Seq<Slot>, files: RegistryView, a: NodeId, b: NodeId) -> bool {
    match (live(slots, a), live(slots, b)) {
        (Some(x), Some(y)) => {
            let p = path_key(slots, files, a);
            let q = path_key(slots, files, b);
            if (x.start_line > 0) != (y.start_line > 0) {
                x.start_line > 0
            } else if span_width(x) != span_width(y) {
                span_width(x) > span_width(y)
            } else if p != q {
                text_before(p, q)
            } else {
                a.index < b.index
            }
        },
        (Some(_), None) => true,
        _ => false,
    }
}

fn does_outrank(nodes: &NodeArena, files: &FileRegistry, a: NodeId, b: NodeId) -> (r: bool)
    ensures
        r == outranks(nodes@, files@, a, b),
{
    match (nodes.get(a), nodes.get(b)) {
        (Some(x), Some(y)) => {
            let x_real: bool = x.start_line > 0;
            let y_real: bool = y.start_line > 0;
            if x_real != y_real {
                return x_real;
            }
            let x_width: u32 = if x.end_line >= x.start_line {
                x.end_line - x.start_line
            } else {
                0
            };
            let y_width: u32 = if y.end_line >= y.start_line {
                y.end_line - y.start_line
            } else {
                0
            };
            if x_width != y_width {
                return x_width > y_width;
            }
            let p = find_path_key(nodes, files, a);
            let q = find_path_key(nodes, files, b);
            if same_text(p.as_str(), q.as_str()) {
                a.index < b.index
            } else {
                is_text_before(p.as_str(), q.as_str())
            }
        },
        (Some(_), None) => true,
        _ => false,
    }
}

/// The node to be kept among the first `n` of `group`.
pub open spec fn winner_among(slots: Seq<Slot>, files: RegistryView, group: Seq<NodeId>, n: int) -> NodeId
    decreases n,
{
    if n <= 1 {
        group[0]
    } else {
        let best = winner_among(slots, files, group, n - 1);
        if outranks(slots, files, best, group[n - 1]) {
            best
        } else {
            group[n - 1]
        }
    }
}

/// The node to be kept in `group`.
pub open spec fn winner_of(slots: Seq<Slot>, files: RegistryView, group: Seq<NodeId>) -> NodeId {
    winner_among(slots, files, group, group.len() as int)
}

/// The node to be kept in `group`.
pub fn select_unification_winner(nodes: &NodeArena, files: &FileRegistry, group: &Vec<NodeId>) -> (r:
    NodeId)
    requires
        group@.len() > 0,
    ensures
        r == winner_of(nodes@, files@, group@),
{
    let mut best: NodeId = group[0];
    for i in 1..group.len()
        invariant
            group@.len() > 0,
            best == winner_among(nodes@, files@, group@, i as int),
    {
        if !does_outrank(nodes, files, best, group[i]) {
            best = group[i];
        }
    }
    best
}

/// State of the unification.
pub struct UnifyView {
    pub slots: Seq<Slot>,
    /// Which node stands for which.
    pub table: Map<NodeId, NodeId>,
    /// Nodes merged so far.
    pub count: nat,
}

/// The state after the first `n` of `group` were merged into `winner`.
pub open spec fn absorbed(st: UnifyView, group: Seq<NodeId>, winner: NodeId, n: int) -> UnifyView
    decreases n,
{
    if n <= 0 {
        st
    } else {
        let before = absorbed(st, group, winner, n - 1);
        let loser = group[n - 1];
        if mergeable(before.slots, loser, winner) {
            UnifyView {
                slots: merged(before.slots, loser, winner),
                table: before.table.insert(loser, winner),
                count: before.count + 1,
            }
        } else {
            before
        }
    }
}

/// The state after the groups of the first `n` names were unified.
pub open spec fn unified(
    st: UnifyView,
    files: RegistryView,
    nodes: Seq<(NodeId, NodeEntry)>,
    names: Seq<StringId>,
    n: int,
) -> UnifyView
    decreases n,
{
    if n <= 0 {
        st
    } else {
        let before = unified(st, files, nodes, names, n - 1);
        let group = members(nodes, names[n - 1], nodes.len() as int);
        if group.len() >= 2 {
            absorbed(
                before,
                group,
                winner_of(before.slots, files, group),
                group.len() as int,
            )
        } else {
            before
        }
    }
}

/// How many of the first `n` names have two nodes or more.
pub open spec fn groups_of_two(nodes: Seq<(NodeId, NodeEntry)>, names: Seq<StringId>, n: int) -> nat
    decreases n,
{
    if n <= 0 {
        0
    } else {
        groups_of_two(nodes, names, n - 1) + (if members(
            nodes,
            names[n - 1],
            nodes.len() as int,
        ).len() >= 2 {
            1nat
        } else {
            0nat
        })
    }
}

/// The state after all nodes of `g` were unified.
pub open spec fn unification_of(g: GraphView) -> UnifyView {
    let nodes = occupied(g.nodes, g.nodes.len() as int);
    let names = group_names(nodes, nodes.len() as int);
    unified(
        UnifyView { slots: g.nodes, table: Map::empty(), count: 0 },
        g.files,
        nodes,
        names,
        names.len() as int,
    )
}

/// How many ends of `e` another node stands for.
pub open spec fn moved_ends_of(table: Map<NodeId, NodeId>, e: PendingView) -> nat {
    (if table.dom().contains(e.source) {
        1nat
    } else {
        0nat
    }) + (if table.dom().contains(e.target) {
        1nat
    } else {
        0nat
    })
}

/// How many ends of the first `n` edges of a file another node stands for.
pub open spec fn moved_ends_in(table: Map<NodeId, NodeId>, edges: Seq<PendingView>, n: int) -> nat
    decreases n,
{
    if n <= 0 {
        0
    } else {
        moved_ends_in(table, edges, n - 1) + moved_ends_of(table, edges[n - 1])
    }
}

/// How many ends of the edges of the first `n` files another node stands for.
pub open spec fn moved_ends_before(
    table: Map<NodeId, NodeId>,
    files: Seq<Seq<PendingView>>,
    n: int,
) -> nat
    decreases n,
{
    if n <= 0 {
        0
    } else {
        moved_ends_before(table, files, n - 1) + moved_ends_in(
            table,
            files[n - 1],
            files[n - 1].len() as int,
        )
    }
}

/// What the unification of `g` counts, but for the time it takes.
pub open spec fn unification_counts(g: GraphView, edges: Seq<Seq<PendingView>>) -> UnificationStats {
    let nodes = occupied(g.nodes, g.nodes.len() as int);
    let names = group_names(nodes, nodes.len() as int);
    let u = unification_of(g);
    UnificationStats {
        candidate_pairs_examined: groups_of_two(nodes, names, names.len() as int) as usize,
        nodes_merged: u.count as usize,
        edges_rewritten: moved_ends_before(u.table, edges, edges.len() as int) as usize,
        nodes_inert: u.count as usize,
        elapsed_ms: 0,
    }
}

/// Nodes in the groups of the first `n` names, looking at the first `m` nodes.
spec fn members_total(nodes: Seq<(NodeId, NodeEntry)>, names: Seq<StringId>, n: int, m: int) -> int
    decreases n,
{
    if n <= 0 {
        0
    } else {
        members_total(nodes, names, n - 1, m) + members(nodes, names[n - 1], m).len()
    }
}

pub(crate) proof fn lemma_names_distinct(nodes: Seq<(NodeId, NodeEntry)>, n: int)
    ensures
        group_names(nodes, n).no_duplicates(),
        n >= 0 ==> group_names(nodes, n).len() <= n,
    decreases n,
{
    if n > 0 {
        lemma_names_distinct(nodes, n - 1);
    }
}

proof fn lemma_one_more_member(
    nodes: Seq<(NodeId, NodeEntry)>,
    names: Seq<StringId>,
    n: int,
    m: int,
)
    requires
        names.no_duplicates(),
        0 <= n <= names.len(),
        0 < m,
    ensures
        members_total(nodes, names, n, m) <= members_total(nodes, names, n, m - 1) + 1,
        !(exists|k: int|
            0 <= k < n && Some(#[trigger] names[k]) == group_name(nodes[m - 1].1))
            ==> members_total(nodes, names, n, m) == members_total(nodes, names, n, m - 1),
    decreases n,
{
    if n > 0 {
        lemma_one_more_member(nodes, names, n - 1, m);
        if group_name(nodes[m - 1].1) == Some(names[n - 1]) {
            assert(Some(names[n - 1]) == group_name(nodes[m - 1].1));
            assert forall|k: int| 0 <= k < n - 1 implies Some(#[trigger] names[k]) != group_name(
                nodes[m - 1].1,
            ) by {
                assert(names[k] != names[n - 1]);
            }
        }
    }
}

proof fn lemma_members_total(nodes: Seq<(NodeId, NodeEntry)>, names: Seq<StringId>, n: int, m: int)
    requires
        names.no_duplicates(),
        0 <= n <= names.len(),
        0 <= m,
    ensures
        0 <= members_total(nodes, names, n, m) <= m,
    decreases m,
{
    if m > 0 {
        lemma_members_total(nodes, names, n, m - 1);
        lemma_one_more_member(nodes, names, n, m);
        lemma_members_total_positive(nodes, names, n, m);
    } else {
        lemma_members_total_empty(nodes, names, n);
    }
}

proof fn lemma_members_total_positive(
    nodes: Seq<(NodeId, NodeEntry)>,
    names: Seq<StringId>,
    n: int,
    m: int,
)
    ensures
        0 <= members_total(nodes, names, n, m),
    decreases n,
{
    if n > 0 {
        lemma_members_total_positive(nodes, names, n - 1, m);
    }
}

proof fn lemma_members_total_empty(nodes: Seq<(NodeId, NodeEntry)>, names: Seq<StringId>, n: int)
    ensures
        members_total(nodes, names, n, 0) == 0,
    decreases n,
{
    if n > 0 {
        lemma_members_total_empty(nodes, names, n - 1);
    }
}

proof fn lemma_members_total_monotone(
    nodes: Seq<(NodeId, NodeEntry)>,
    names: Seq<StringId>,
    k: int,
    n: int,
    m: int,
)
    requires
        0 <= k <= n,
    ensures
        members_total(nodes, names, k, m) <= members_total(nodes, names, n, m),
    decreases n,
{
    if k < n {
        lemma_members_total_monotone(nodes, names, k, n - 1, m);
    }
}

proof fn lemma_absorbed_count(st: UnifyView, group: Seq<NodeId>, winner: NodeId, n: int)
    requires
        n >= 0,
    ensures
        absorbed(st, group, winner, n).count <= st.count + n,
        absorbed(st, group, winner, n).slots.len() == st.slots.len(),
    decreases n,
{
    if n > 0 {
        lemma_absorbed_count(st, group, winner, n - 1);
    }
}

fn collect_group_names(nodes: &Vec<(NodeId, NodeEntry)>) -> (r: Vec<StringId>)
    ensures
        r@ == group_names(nodes@, nodes@.len() as int),
{
    let mut names: Vec<StringId> = Vec::new();
    for i in 0..nodes.len()
        invariant
            names@ == group_names(nodes@, i as int),
    {
        match find_group_name(&nodes[i].1) {
            Some(q) => {
                if !has_name(&names, q) {
                    names.push(q);
                }
            },
            None => {},
        }
    }
    names
}

fn has_name(names: &Vec<StringId>, q: StringId) -> (r: bool)
    ensures
        r == names@.contains(q),
{
    for i in 0..names.len()
        invariant
            forall|j: int| 0 <= j < i ==> names@[j] != q,
    {
        if names[i] == q {
            return true;
        }
    }
    false
}

fn collect_members(nodes: &Vec<(NodeId, NodeEntry)>, qn: StringId) -> (r: Vec<NodeId>)
    ensures
        r@ == members(nodes@, qn, nodes@.len() as int),
{
    let mut out: Vec<NodeId> = Vec::new();
    for i in 0..nodes.len()
        invariant
            out@ == members(nodes@, qn, i as int),
    {
        match find_group_name(&nodes[i].1) {
            Some(q) => {
                if q == qn {
                    out.push(nodes[i].0);
                }
            },
            None => {},
        }
    }
    out
}

fn absorb_group(
    arena: &mut NodeArena,
    group: &Vec<NodeId>,
    winner: NodeId,
    remap: &mut NodeRemapTable,
    count: &mut usize,
)
    requires
        old(remap).wf(),
        *old(count) + group@.len() <= usize::MAX,
    ensures
        final(remap).wf(),
        ({
            let st = UnifyView {
                slots: old(arena)@,
                table: old(remap)@,
                count: *old(count) as nat,
            };
            let out = absorbed(st, group@, winner, group@.len() as int);
            &&& final(arena)@ == out.slots
            &&& final(remap)@ == out.table
            &&& *final(count) == out.count
        }),
{
    let ghost st = UnifyView { slots: arena@, table: remap@, count: *count as nat };
    for i in 0..group.len()
        invariant
            remap.wf(),
            st.count + group@.len() <= usize::MAX,
            arena@ == absorbed(st, group@, winner, i as int).slots,
            remap@ == absorbed(st, group@, winner, i as int).table,
            *count == absorbed(st, group@, winner, i as int).count,
    {
        proof {
            lemma_absorbed_count(st, group@, winner, i as int);
        }
        match merge_node_into(arena, group[i], winner) {
            Ok(()) => {
                remap.insert(group[i], winner);
                *count = *count + 1;
            },
            Err(_) => {},
        }
    }
}

proof fn lemma_two_ends_per_edge(
    table: Map<NodeId, NodeId>,
    files: Seq<Seq<PendingView>>,
    n: int,
)
    requires
        0 <= n <= files.len(),
    ensures
        moved_ends_before(table, files, n) <= 2 * edges_before(files, n),
    decreases n,
{
    if n > 0 {
        lemma_two_ends_per_edge(table, files, n - 1);
        lemma_two_ends_in(table, files[n - 1], files[n - 1].len() as int);
    }
}

proof fn lemma_two_ends_in(table: Map<NodeId, NodeId>, edges: Seq<PendingView>, n: int)
    requires
        0 <= n,
    ensures
        moved_ends_in(table, edges, n) <= 2 * n,
    decreases n,
{
    if n > 0 {
        lemma_two_ends_in(table, edges, n - 1);
    }
}

/// How many ends of pending edges another node stands for.
fn count_moved_ends(remap: &NodeRemapTable, files: &Vec<Vec<PendingEdge>>) -> (r: usize)
    requires
        2 * edges_before(pending_views_by_file(files@), files@.len() as int) <= usize::MAX,
    ensures
        r == moved_ends_before(
            remap@,
            pending_views_by_file(files@),
            files@.len() as int,
        ),
{
    let ghost views = pending_views_by_file(files@);
    let mut total: usize = 0;
    for i in 0..files.len()
        invariant
            views == pending_views_by_file(files@),
            2 * edges_before(views, files@.len() as int) <= usize::MAX,
            total == moved_ends_before(remap@, views, i as int),
    {
        proof {
            lemma_two_ends_per_edge(remap@, views, i as int);
            lemma_edges_before_monotone(views, i + 1, files@.len() as int);
            assert(views[i as int].len() == files@[i as int]@.len());
        }
        let edges: &Vec<PendingEdge> = &files[i];
        for j in 0..edges.len()
            invariant
                0 <= i < files@.len(),
                edges@ == files@[i as int]@,
                views == pending_views_by_file(files@),
                views[i as int].len() == edges@.len(),
                2 * (edges_before(views, i as int) + edges@.len()) <= usize::MAX,
                moved_ends_before(remap@, views, i as int) <= 2 * edges_before(views, i as int),
                total == moved_ends_before(remap@, views, i as int) + moved_ends_in(
                    remap@,
                    views[i as int],
                    j as int,
                ),
        {
            proof {
                lemma_two_ends_in(remap@, views[i as int], j as int);
                assert(views[i as int][j as int] == edges@[j as int]@);
            }
            if remap.get(edges[j].source).is_some() {
                total = total + 1;
            }
            if remap.get(edges[j].target).is_some() {
                total = total + 1;
            }
        }
    }
    total
}

/// Unifies the callable nodes that share a qualified name: one of them is kept, the
/// others are merged into it, and every edge runs between nodes that are kept.
pub fn phase4c_prime_unify_cross_file_nodes(
    graph: &mut CodeGraph,
    all_edges: &mut Vec<Vec<PendingEdge>>,
) -> (r: (UnificationStats, NodeRemapTable))
    requires
        old(graph).wf(),
        2 * edges_before(
            pending_views_by_file(old(all_edges)@),
            old(all_edges)@.len() as int,
        ) <= usize::MAX,
    ensures
        final(graph).wf(),
        r.1.wf(),
        r.1@ == unification_of(old(graph)@).table,
        final(graph)@ == (GraphView {
            nodes: unification_of(old(graph)@).slots,
            edges: moved_store(r.1@, old(graph)@.edges),
            ..old(graph)@
        }),
        pending_views_by_file(final(all_edges)@) == moved_lists(
            r.1@,
            pending_views_by_file(old(all_edges)@),
        ),
        r.0 == (UnificationStats {
            elapsed_ms: r.0.elapsed_ms,
            ..unification_counts(old(graph)@, pending_views_by_file(old(all_edges)@))
        }),
{
    let start = clock_now();
    let ghost g = graph@;
    let ghost edges0 = pending_views_by_file(all_edges@);
    let nodes = graph.nodes.iter();
    let node_count: usize = nodes.len();
    let names = collect_group_names(&nodes);
    let mut remap = NodeRemapTable::new();
    let mut count: usize = 0;
    let mut examined: usize = 0;
    let ghost st = UnifyView { slots: g.nodes, table: Map::empty(), count: 0 };
    proof {
        lemma_names_distinct(nodes@, nodes@.len() as int);
    }
    for i in 0..names.len()
        invariant
            graph.wf(),
            nodes@ == occupied(g.nodes, g.nodes.len() as int),
            node_count == nodes@.len(),
            names@.no_duplicates(),
            st == (UnifyView { slots: g.nodes, table: Map::empty(), count: 0 }),
            remap.wf(),
            graph@ == (GraphView {
                nodes: unified(st, g.files, nodes@, names@, i as int).slots,
                ..g
            }),
            remap@ == unified(st, g.files, nodes@, names@, i as int).table,
            count == unified(st, g.files, nodes@, names@, i as int).count,
            count <= members_total(nodes@, names@, i as int, nodes@.len() as int),
            examined == groups_of_two(nodes@, names@, i as int),
            examined <= i,
    {
        let group = collect_members(&nodes, names[i]);
        proof {
            lemma_members_total(nodes@, names@, i + 1, nodes@.len() as int);
        }
        if group.len() >= 2 {
            examined = examined + 1;
            let winner = select_unification_winner(&graph.nodes, &graph.files, &group);
            let ghost before = unified(st, g.files, nodes@, names@, i as int);
            absorb_group(&mut graph.nodes, &group, winner, &mut remap, &mut count);
            proof {
                lemma_absorbed_count(before, group@, winner, group@.len() as int);
            }
        }
    }
    let mut stats = UnificationStats::default();
    stats.candidate_pairs_examined = examined;
    stats.nodes_merged = count;
    stats.nodes_inert = count;
    stats.edges_rewritten = count_moved_ends(&remap, all_edges);
    if !remap.is_empty() {
        remap.apply_to_edges(all_edges);
        remap.apply_to_committed_edges(&mut graph.edges);
    } else {
        proof {
            assert forall|f: int| 0 <= f < edges0.len() implies moved_list(
                remap@,
                #[trigger] edges0[f],
            ) == edges0[f] by {
                assert(moved_list(remap@, edges0[f]) =~= edges0[f]);
            }
            assert(moved_lists(remap@, edges0) =~= edges0);
            assert(moved_store(remap@, g.edges).edges =~= g.edges.edges);
        }
    }
    stats.elapsed_ms = clamp_millis(elapsed_since(&start));
    (stats, remap)
}

proof fn lemma_text_before_transitive(a: Seq<char>, b: Seq<char>, c: Seq<char>)
    requires
        text_before(a, b),
        text_before(b, c),
    ensures
        text_before(a, c),
    decreases a.len(),
{
    if a.len() > 0 {
        vstd::utf8::char_u32_cast(a[0], a[0] as u32);
        vstd::utf8::char_u32_cast(b[0], b[0] as u32);
        vstd::utf8::char_u32_cast(c[0], c[0] as u32);
        if a[0] == b[0] && b[0] == c[0] {
            lemma_text_before_transitive(a.drop_first(), b.drop_first(), c.drop_first());
        }
    }
}

proof fn lemma_outranks_transitive(
    slots: Seq<Slot>,
    files: RegistryView,
    a: NodeId,
    b: NodeId,
    c: NodeId,
)
    requires
        !outranks(slots, files, b, a),
        !outranks(slots, files, c, b),
    ensures
        !outranks(slots, files, c, a),
{
    let p = path_key(slots, files, a);
    let q = path_key(slots, files, b);
    let s = path_key(slots, files, c);
    lemma_text_order(p, q);
    lemma_text_order(q, s);
    lemma_text_order(p, s);
    if text_before(p, q) && text_before(q, s) {
        lemma_text_before_transitive(p, q, s);
    }
}

/// The node that is kept belongs to the group, and no other node of the group outranks
/// it.
pub proof fn law_winner_is_best(slots: Seq<Slot>, files: RegistryView, group: Seq<NodeId>, i: int)
    requires
        0 <= i < group.len(),
    ensures
        group.contains(winner_of(slots, files, group)),
        !outranks(slots, files, group[i], winner_of(slots, files, group)),
{
    lemma_winner_is_best(slots, files, group, group.len() as int, i);
}

proof fn lemma_winner_is_best(
    slots: Seq<Slot>,
    files: RegistryView,
    group: Seq<NodeId>,
    n: int,
    i: int,
)
    requires
        0 <= i < n <= group.len(),
    ensures
        group.contains(winner_among(slots, files, group, n)),
        !outranks(slots, files, group[i], winner_among(slots, files, group, n)),
    decreases n,
{
    if n <= 1 {
        assert(group[0] == winner_among(slots, files, group, n));
        lemma_text_order(
            path_key(slots, files, group[0]),
            path_key(slots, files, group[0]),
        );
    } else {
        let best = winner_among(slots, files, group, n - 1);
        let last = group[n - 1];
        lemma_winner_is_best(slots, files, group, n - 1, 0);
        lemma_text_order(path_key(slots, files, last), path_key(slots, files, best));
        lemma_text_order(path_key(slots, files, last), path_key(slots, files, last));
        if i < n - 1 {
            lemma_winner_is_best(slots, files, group, n - 1, i);
            if !outranks(slots, files, best, last) {
                lemma_outranks_transitive(slots, files, last, best, group[i]);
            }
        }
    }
}

/// A node that was merged away stays live, without a name and a qualified name.
pub proof fn law_merged_loser_is_nameless(slots: Seq<Slot>, loser: NodeId, winner: NodeId)
    requires
        mergeable(slots, loser, winner),
    ensures
        live(merged(slots, loser, winner), loser) == Some(merged_loser(live(slots, loser)->0)),
        live(merged(slots, loser, winner), winner) is Some,
        live(merged(slots, loser, winner), winner)->0.name == live(slots, winner)->0.name,
        live(merged(slots, loser, winner), winner)->0.qualified_name == live(
            slots,
            winner,
        )->0.qualified_name,
{
}

/// `id` is a node of `nodes` with one of the first `n` names.
spec fn named_before(
    nodes: Seq<(NodeId, NodeEntry)>,
    names: Seq<StringId>,
    id: NodeId,
    n: int,
) -> bool {
    exists|i: int, j: int|
        #![trigger nodes[i], names[j]]
        0 <= i < nodes.len() && 0 <= j < n && nodes[i].0 == id && group_name(nodes[i].1) == Some(
            names[j],
        )
}

/// Every node that was merged away, and every node that stands for one, has one of the
/// first `n` names; and no node that stands for another is merged away.
spec fn table_settled(
    table: Map<NodeId, NodeId>,
    nodes: Seq<(NodeId, NodeEntry)>,
    names: Seq<StringId>,
    n: int,
) -> bool {
    forall|k: NodeId| #[trigger]
        table.dom().contains(k) ==> named_before(nodes, names, k, n) && named_before(
            nodes,
            names,
            table[k],
            n,
        ) && !table.dom().contains(table[k])
}

pub(crate) proof fn lemma_occupied_in_order(slots: Seq<Slot>, n: int)
    requires
        0 <= n <= slots.len() <= u32::MAX + 1,
    ensures
        forall|i: int|
            0 <= i < occupied(slots, n).len() ==> (#[trigger] occupied(slots, n)[i]).0.index < n,
        forall|i: int, j: int|
            #![trigger occupied(slots, n)[i], occupied(slots, n)[j]]
            0 <= i < j < occupied(slots, n).len() ==> occupied(slots, n)[i].0 != occupied(
                slots,
                n,
            )[j].0,
    decreases n,
{
    if n > 0 {
        lemma_occupied_in_order(slots, n - 1);
        let before = occupied(slots, n - 1);
        let after = occupied(slots, n);
        assert forall|i: int| 0 <= i < after.len() implies (#[trigger] after[i]).0.index < n by {
            if i < before.len() {
                assert(after[i] == before[i]);
            }
        }
        assert forall|i: int, j: int|
            #![trigger after[i], after[j]]
            0 <= i < j < after.len() implies after[i].0 != after[j].0 by {
            assert(after[i] == before[i]);
            if j < before.len() {
                assert(after[j] == before[j]);
            }
        }
    }
}

proof fn lemma_member_has_name(nodes: Seq<(NodeId, NodeEntry)>, qn: StringId, n: int, k: int)
    requires
        0 <= n <= nodes.len(),
        0 <= k < members(nodes, qn, n).len(),
    ensures
        exists|i: int|
            #![trigger nodes[i]]
            0 <= i < n && nodes[i].0 == members(nodes, qn, n)[k] && group_name(nodes[i].1) == Some(
                qn,
            ),
    decreases n,
{
    if n > 0 {
        if k < members(nodes, qn, n - 1).len() {
            lemma_member_has_name(nodes, qn, n - 1, k);
            let i = choose|i: int|
                #![trigger nodes[i]]
                0 <= i < n - 1 && nodes[i].0 == members(nodes, qn, n - 1)[k] && group_name(
                    nodes[i].1,
                ) == Some(qn);
            assert(nodes[i].0 == members(nodes, qn, n)[k]);
        } else {
            assert(nodes[n - 1].0 == members(nodes, qn, n)[k]);
        }
    }
}

proof fn lemma_absorbed_settled(
    st: UnifyView,
    nodes: Seq<(NodeId, NodeEntry)>,
    names: Seq<StringId>,
    at: int,
    group: Seq<NodeId>,
    winner: NodeId,
    n: int,
)
    requires
        0 <= at < names.len(),
        names.no_duplicates(),
        forall|i: int, j: int|
            #![trigger nodes[i], nodes[j]]
            0 <= i < j < nodes.len() ==> nodes[i].0 != nodes[j].0,
        table_settled(st.table, nodes, names, at),
        group == members(nodes, names[at], nodes.len() as int),
        group.contains(winner),
        0 <= n <= group.len(),
    ensures
        table_settled(absorbed(st, group, winner, n).table, nodes, names, at + 1),
        !absorbed(st, group, winner, n).table.dom().contains(winner),
    decreases n,
{
    let w = choose|w: int| 0 <= w < group.len() && group[w] == winner;
    lemma_member_has_name(nodes, names[at], nodes.len() as int, w);
    let wi = choose|i: int|
        #![trigger nodes[i]]
        0 <= i < nodes.len() && nodes[i].0 == winner && group_name(nodes[i].1) == Some(names[at]);
    assert(named_before(nodes, names, winner, at + 1));
    if n <= 0 {
        assert forall|k: NodeId| #[trigger] st.table.dom().contains(k) implies named_before(
            nodes,
            names,
            k,
            at + 1,
        ) && named_before(nodes, names, st.table[k], at + 1) && k != winner by {
            let (i, j) = choose|i: int, j: int|
                #![trigger nodes[i], names[j]]
                0 <= i < nodes.len() && 0 <= j < at && nodes[i].0 == k && group_name(nodes[i].1)
                    == Some(names[j]);
            assert(nodes[i].0 == k && group_name(nodes[i].1) == Some(names[j]));
            let (i2, j2) = choose|i: int, j: int|
                #![trigger nodes[i], names[j]]
                0 <= i < nodes.len() && 0 <= j < at && nodes[i].0 == st.table[k] && group_name(
                    nodes[i].1,
                ) == Some(names[j]);
            assert(nodes[i2].0 == st.table[k] && group_name(nodes[i2].1) == Some(names[j2]));
            if k == winner {
                assert(i == wi) by {
                    if i < wi {
                        assert(nodes[i].0 != nodes[wi].0);
                    } else if wi < i {
                        assert(nodes[wi].0 != nodes[i].0);
                    }
                }
                assert(names[j] == names[at]);
            }
        }
    } else {
        lemma_absorbed_settled(st, nodes, names, at, group, winner, n - 1);
        let before = absorbed(st, group, winner, n - 1);
        let loser = group[n - 1];
        if mergeable(before.slots, loser, winner) {
            lemma_member_has_name(nodes, names[at], nodes.len() as int, n - 1);
            let li = choose|i: int|
                #![trigger nodes[i]]
                0 <= i < nodes.len() && nodes[i].0 == loser && group_name(nodes[i].1) == Some(
                    names[at],
                );
            assert(named_before(nodes, names, loser, at + 1));
            let after = before.table.insert(loser, winner);
            assert forall|k: NodeId| #[trigger] after.dom().contains(k) implies named_before(
                nodes,
                names,
                k,
                at + 1,
            ) && named_before(nodes, names, after[k], at + 1) && !after.dom().contains(after[k]) by {
                if k != loser {
                    assert(before.table.dom().contains(k));
                    if after[k] == loser {
                        lemma_only_winner_stands(
                            st,
                            nodes,
                            names,
                            at,
                            group,
                            winner,
                            n - 1,
                            k,
                            li,
                        );
                    }
                }
            }
        }
    }
}

/// A node of this group that stands for another is the winner.
proof fn lemma_only_winner_stands(
    st: UnifyView,
    nodes: Seq<(NodeId, NodeEntry)>,
    names: Seq<StringId>,
    at: int,
    group: Seq<NodeId>,
    winner: NodeId,
    n: int,
    k: NodeId,
    li: int,
)
    requires
        0 <= at < names.len(),
        names.no_duplicates(),
        forall|i: int, j: int|
            #![trigger nodes[i], nodes[j]]
            0 <= i < j < nodes.len() ==> nodes[i].0 != nodes[j].0,
        table_settled(st.table, nodes, names, at),
        0 <= n <= group.len(),
        absorbed(st, group, winner, n).table.dom().contains(k),
        0 <= li < nodes.len(),
        nodes[li].0 == absorbed(st, group, winner, n).table[k],
        group_name(nodes[li].1) == Some(names[at]),
    ensures
        absorbed(st, group, winner, n).table[k] == winner,
    decreases n,
{
    if n <= 0 {
        assert(named_before(nodes, names, st.table[k], at));
        let (i, j) = choose|i: int, j: int|
            #![trigger nodes[i], names[j]]
            0 <= i < nodes.len() && 0 <= j < at && nodes[i].0 == st.table[k] && group_name(
                nodes[i].1,
            ) == Some(names[j]);
        assert(i == li) by {
            if i < li {
                assert(nodes[i].0 != nodes[li].0);
            } else if li < i {
                assert(nodes[li].0 != nodes[i].0);
            }
        }
        assert(names[j] == names[at]);
    } else {
        let before = absorbed(st, group, winner, n - 1);
        let loser = group[n - 1];
        if !(mergeable(before.slots, loser, winner) && k == loser) {
            lemma_only_winner_stands(st, nodes, names, at, group, winner, n - 1, k, li);
        }
    }
}

proof fn lemma_unified_settled(
    st: UnifyView,
    files: RegistryView,
    nodes: Seq<(NodeId, NodeEntry)>,
    names: Seq<StringId>,
    n: int,
)
    requires
        st.table == Map::<NodeId, NodeId>::empty(),
        names.no_duplicates(),
        forall|i: int, j: int|
            #![trigger nodes[i], nodes[j]]
            0 <= i < j < nodes.len() ==> nodes[i].0 != nodes[j].0,
        0 <= n <= names.len(),
    ensures
        table_settled(unified(st, files, nodes, names, n).table, nodes, names, n),
    decreases n,
{
    if n > 0 {
        lemma_unified_settled(st, files, nodes, names, n - 1);
        let before = unified(st, files, nodes, names, n - 1);
        let group = members(nodes, names[n - 1], nodes.len() as int);
        if group.len() >= 2 {
            let winner = winner_of(before.slots, files, group);
            law_winner_is_best(before.slots, files, group, 0);
            lemma_absorbed_settled(
                before,
                nodes,
                names,
                n - 1,
                group,
                winner,
                group.len() as int,
            );
        } else {
            let t = before.table;
            assert forall|k: NodeId| #[trigger] t.dom().contains(k) implies named_before(
                nodes,
                names,
                k,
                n,
            ) && named_before(nodes, names, t[k], n) by {
                let (i, j) = choose|i: int, j: int|
                    #![trigger nodes[i], names[j]]
                    0 <= i < nodes.len() && 0 <= j < n - 1 && nodes[i].0 == k && group_name(
                        nodes[i].1,
                    ) == Some(names[j]);
                assert(nodes[i].0 == k && group_name(nodes[i].1) == Some(names[j]));
                let (i2, j2) = choose|i: int, j: int|
                    #![trigger nodes[i], names[j]]
                    0 <= i < nodes.len() && 0 <= j < n - 1 && nodes[i].0 == t[k] && group_name(
                        nodes[i].1,
                    ) == Some(names[j]);
                assert(nodes[i2].0 == t[k] && group_name(nodes[i2].1) == Some(names[j2]));
            }
        }
    }
}

/// A node that stands for another is never merged away itself, so one step through the
/// table leads from any node to one that is kept.
pub proof fn law_kept_nodes_are_kept(g: GraphView, k: NodeId)
    requires
        g.nodes.len() <= u32::MAX + 1,
        unification_of(g).table.dom().contains(k),
    ensures
        !unification_of(g).table.dom().contains(unification_of(g).table[k]),
{
    let nodes = occupied(g.nodes, g.nodes.len() as int);
    let names = group_names(nodes, nodes.len() as int);
    lemma_occupied_in_order(g.nodes, g.nodes.len() as int);
    lemma_names_distinct(nodes, nodes.len() as int);
    lemma_unified_settled(
        UnifyView { slots: g.nodes, table: Map::empty(), count: 0 },
        g.files,
        nodes,
        names,
        names.len() as int,
    );
}

/// After the unification no pending edge begins or ends at a node that was merged away.
pub proof fn law_no_edge_ends_at_a_loser(
    g: GraphView,
    files: Seq<Seq<PendingView>>,
    f: int,
    i: int,
)
    requires
        g.nodes.len() <= u32::MAX + 1,
        0 <= f < files.len(),
        0 <= i < files[f].len(),
    ensures
        ({
            let table = unification_of(g).table;
            let e = moved_lists(table, files)[f][i];
            !table.dom().contains(e.source) && !table.dom().contains(e.target)
        }),
{
    let table = unification_of(g).table;
    let e = files[f][i];
    if table.dom().contains(e.source) {
        law_kept_nodes_are_kept(g, e.source);
    }
    if table.dom().contains(e.target) {
        law_kept_nodes_are_kept(g, e.target);
    }
}

} // verus!
