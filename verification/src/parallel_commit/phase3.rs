//! Committing the files of a chunk side by side.
use vstd::prelude::*;

use crate::arena::Slot;
use crate::edges::{pending_views, pending_views_by_file, PendingEdge, PendingView};
use crate::graph::{CodeGraph, GraphView};
use crate::hints::{GoHints, HintsView};
use crate::ids::{FileId, NodeId};
use crate::lists::views;
use crate::parallel::par_map;
use crate::parallel_commit::c_drain::{
    chunk_drain, collect_c_indirect_drain, drain_of, PhaseCIndirectDrain,
};
use crate::parallel_commit::commit::{
    commit_single_file, committable, committed_edges, committed_hints, committed_ids, file_nodes,
    file_refs, file_slots, file_strings, file_texts, is_commit_of, nodes_written, strings_written,
    FileCommitResult,
};
use crate::parallel_commit::plan::{
    lemma_sum_monotone, node_counts_of, planned, string_counts_of, sum_of, ChunkCommitPlan,
    FilePlan,
};
use crate::staging::StagingGraph;
use crate::strings::{texts_of, InternerView};

verus! {

/// Number of node slots of a file.
pub open spec fn node_len(p: FilePlan) -> int {
    p.node_range.end - p.node_range.start
}

/// Number of string slots of a file.
pub open spec fn string_len(p: FilePlan) -> int {
    p.string_range.end - p.string_range.start
}

/// Node slots of the first `n` files together.
pub open spec fn nodes_before(plans: Seq<FilePlan>, n: int) -> int
    decreases n,
{
    if n <= 0 {
        0
    } else {
        nodes_before(plans, n - 1) + node_len(plans[n - 1])
    }
}

/// String slots of the first `n` files together.
pub open spec fn strings_before(plans: Seq<FilePlan>, n: int) -> int
    decreases n,
{
    if n <= 0 {
        0
    } else {
        strings_before(plans, n - 1) + string_len(plans[n - 1])
    }
}

/// No range runs backwards.
pub open spec fn ranges_forward(plans: Seq<FilePlan>) -> bool {
    forall|i: int|
        0 <= i < plans.len() ==> (#[trigger] plans[i]).node_range.start <= plans[i].node_range.end
            && plans[i].string_range.start <= plans[i].string_range.end
}

pub(crate) proof fn lemma_before_monotone(plans: Seq<FilePlan>, m: int, n: int)
    requires
        ranges_forward(plans),
        0 <= m <= n <= plans.len(),
    ensures
        0 <= nodes_before(plans, m) <= nodes_before(plans, n),
        0 <= strings_before(plans, m) <= strings_before(plans, n),
    decreases n,
{
    if m < n {
        lemma_before_monotone(plans, m, n - 1);
    } else if m > 0 {
        lemma_before_monotone(plans, m - 1, m - 1);
    }
}

/// The part of `s` that belongs to file `i`, where `s` begins with the part of the first
/// file.
pub open spec fn node_piece(s: Seq<Slot>, plans: Seq<FilePlan>, i: int) -> Seq<Slot> {
    s.subrange(nodes_before(plans, i), nodes_before(plans, i + 1))
}

/// The part of the string slots `s` that belongs to file `i`, where `s` begins with the
/// part of the first file.
pub open spec fn string_piece<T>(s: Seq<T>, plans: Seq<FilePlan>, i: int) -> Seq<T> {
    s.subrange(strings_before(plans, i), strings_before(plans, i + 1))
}

/// The node slots of the first `n` files after the commit.
pub open spec fn committed_slots(
    s: Seq<Slot>,
    plans: Seq<FilePlan>,
    graphs: Seq<&StagingGraph>,
    n: int,
) -> Seq<Slot>
    decreases n,
{
    if n <= 0 {
        Seq::empty()
    } else {
        committed_slots(s, plans, graphs, n - 1) + file_slots(
            *graphs[n - 1],
            plans[n - 1],
            node_piece(s, plans, n - 1),
            string_len(plans[n - 1]) as nat,
        )
    }
}

/// The string slots of the first `n` files after the commit.
pub open spec fn committed_texts(
    s: Seq<Option<Seq<char>>>,
    plans: Seq<FilePlan>,
    graphs: Seq<&StagingGraph>,
    n: int,
) -> Seq<Option<Seq<char>>>
    decreases n,
{
    if n <= 0 {
        Seq::empty()
    } else {
        committed_texts(s, plans, graphs, n - 1) + file_texts(
            *graphs[n - 1],
            string_piece(s, plans, n - 1),
        )
    }
}

/// The reference counts of the first `n` files after the commit.
pub open spec fn committed_refs(
    s: Seq<u32>,
    plans: Seq<FilePlan>,
    graphs: Seq<&StagingGraph>,
    n: int,
) -> Seq<u32>
    decreases n,
{
    if n <= 0 {
        Seq::empty()
    } else {
        committed_refs(s, plans, graphs, n - 1) + file_refs(
            *graphs[n - 1],
            string_piece(s, plans, n - 1),
        )
    }
}

/// The hints after those of the first `n` files were added.
pub open spec fn hints_after(
    h: HintsView,
    plans: Seq<FilePlan>,
    graphs: Seq<&StagingGraph>,
    n: int,
) -> HintsView
    decreases n,
{
    if n <= 0 {
        h
    } else {
        hints_after(h, plans, graphs, n - 1).joined(file_hints(plans, graphs, n - 1))
    }
}

/// The committed hints of file `i`.
pub open spec fn file_hints(plans: Seq<FilePlan>, graphs: Seq<&StagingGraph>, i: int) -> HintsView {
    committed_hints(
        file_nodes(*graphs[i], plans[i], node_len(plans[i]) as nat),
        file_strings(*graphs[i], plans[i], string_len(plans[i]) as nat),
        plans[i].file_id,
        graphs[i].go_hints@,
    )
}

/// The committed edges of file `i`.
pub open spec fn file_edges(plans: Seq<FilePlan>, graphs: Seq<&StagingGraph>, i: int) -> Seq<
    PendingView,
> {
    committed_edges(
        file_nodes(*graphs[i], plans[i], node_len(plans[i]) as nat),
        file_strings(*graphs[i], plans[i], string_len(plans[i]) as nat),
        plans[i].file_id,
        graphs[i].edges(),
    )
}

/// The committed nodes of file `i`.
pub open spec fn file_node_ids(plans: Seq<FilePlan>, graphs: Seq<&StagingGraph>, i: int) -> Seq<
    NodeId,
> {
    committed_ids(
        plans[i].node_range.start,
        nodes_written(*graphs[i], node_len(plans[i]) as nat),
    )
}

/// Nodes that the first `n` files write.
pub open spec fn total_nodes(plans: Seq<FilePlan>, graphs: Seq<&StagingGraph>, n: int) -> int
    decreases n,
{
    if n <= 0 {
        0
    } else {
        total_nodes(plans, graphs, n - 1) + nodes_written(
            *graphs[n - 1],
            node_len(plans[n - 1]) as nat,
        )
    }
}

/// Strings that the first `n` files write.
pub open spec fn total_strings(plans: Seq<FilePlan>, graphs: Seq<&StagingGraph>, n: int) -> int
    decreases n,
{
    if n <= 0 {
        0
    } else {
        total_strings(plans, graphs, n - 1) + strings_written(
            *graphs[n - 1],
            string_len(plans[n - 1]) as nat,
        )
    }
}

/// Edges of the first `n` files.
pub open spec fn total_edges(graphs: Seq<&StagingGraph>, n: int) -> int
    decreases n,
{
    if n <= 0 {
        0
    } else {
        total_edges(graphs, n - 1) + graphs[n - 1].edges().len()
    }
}

proof fn lemma_totals(plans: Seq<FilePlan>, graphs: Seq<&StagingGraph>, n: int)
    requires
        ranges_forward(plans),
        0 <= n <= plans.len(),
    ensures
        0 <= total_nodes(plans, graphs, n) <= nodes_before(plans, n),
        0 <= total_strings(plans, graphs, n) <= strings_before(plans, n),
    decreases n,
{
    if n > 0 {
        lemma_totals(plans, graphs, n - 1);
    }
}

proof fn lemma_total_edges_monotone(graphs: Seq<&StagingGraph>, m: int, n: int)
    requires
        0 <= m <= n,
    ensures
        0 <= total_edges(graphs, m) <= total_edges(graphs, n),
    decreases n,
{
    if m < n {
        lemma_total_edges_monotone(graphs, m, n - 1);
    } else if m > 0 {
        lemma_total_edges_monotone(graphs, m - 1, m - 1);
    }
}

/// What committing a chunk yields.
pub struct Phase3Result {
    /// The edges of each file.
    pub per_file_edges: Vec<Vec<PendingEdge>>,
    /// The nodes of each file, in order.
    pub per_file_node_ids: Vec<Vec<NodeId>>,
    /// Nodes written.
    pub total_nodes_written: usize,
    /// Strings written.
    pub total_strings_written: usize,
    /// Edges of all files.
    pub total_edges_collected: usize,
    /// What the C front end has staged, if anything.
    pub c_indirect_drain: Option<PhaseCIndirectDrain>,
}

/// The plan fits the graph, and every file can be committed.
pub open spec fn chunk_committable(g: GraphView, plan: ChunkCommitPlan, graphs: Seq<&StagingGraph>) -> bool {
    let plans = plan.file_plans@;
    &&& plans.len() == graphs.len()
    &&& plans.len() > 0 ==> {
        &&& ranges_forward(plans)
        &&& nodes_before(plans, plans.len() as int) <= plan.total_nodes
        &&& strings_before(plans, plans.len() as int) <= plan.total_strings
        &&& plans[0].node_range.start + plan.total_nodes <= g.nodes.len()
        &&& plans[0].string_range.start + plan.total_strings <= g.strings.text.len()
        &&& total_edges(graphs, graphs.len() as int) <= usize::MAX
        &&& forall|i: int|
            #![trigger plans[i]]
            0 <= i < plans.len() ==> committable(
                *graphs[i],
                plans[i],
                node_len(plans[i]) as nat,
                string_len(plans[i]) as nat,
            )
    }
}

/// The graph after the chunk was committed: the slots of each file are written one
/// behind the other, what stands before and behind them stays.
pub open spec fn chunk_committed(g: GraphView, plans: Seq<FilePlan>, graphs: Seq<&StagingGraph>) -> GraphView {
    if plans.len() == 0 {
        g
    } else {
        let n = plans.len() as int;
        let nb = plans[0].node_range.start as int;
        let sb = plans[0].string_range.start as int;
        let nodes = g.nodes.subrange(nb, g.nodes.len() as int);
        let text = g.strings.text.subrange(sb, g.strings.text.len() as int);
        let refs = g.strings.refs.subrange(sb, g.strings.refs.len() as int);
        GraphView {
            nodes: g.nodes.subrange(0, nb) + committed_slots(nodes, plans, graphs, n)
                + nodes.subrange(nodes_before(plans, n), nodes.len() as int),
            strings: InternerView {
                text: g.strings.text.subrange(0, sb) + committed_texts(text, plans, graphs, n)
                    + text.subrange(strings_before(plans, n), text.len() as int),
                refs: g.strings.refs.subrange(0, sb) + committed_refs(refs, plans, graphs, n)
                    + refs.subrange(strings_before(plans, n), refs.len() as int),
            },
            hints: hints_after(g.hints, plans, graphs, n),
            ..g
        }
    }
}

/// `r` is what committing the chunk yields.
pub open spec fn is_chunk_result(r: Phase3Result, plans: Seq<FilePlan>, graphs: Seq<&StagingGraph>) -> bool {
    let n = plans.len();
    &&& pending_views_by_file(r.per_file_edges@) == Seq::new(
        n,
        |i: int| file_edges(plans, graphs, i),
    )
    &&& views(r.per_file_node_ids@) == Seq::new(n, |i: int| file_node_ids(plans, graphs, i))
    &&& r.total_nodes_written == total_nodes(plans, graphs, n as int)
    &&& r.total_strings_written == total_strings(plans, graphs, n as int)
    &&& r.total_edges_collected == total_edges(graphs, n as int)
    &&& drain_of(r.c_indirect_drain) == chunk_drain(plans, graphs)
}

/// The slots of one file, cut out of the graph, and what goes into them.
pub struct FileWork<'a> {
    pub staging: &'a StagingGraph,
    pub plan: &'a FilePlan,
    pub node_slots: Vec<Slot>,
    pub str_slots: Vec<Option<String>>,
    pub rc_slots: Vec<u32>,
}

/// The slots of one file after its commit.
pub struct FileDone {
    pub result: FileCommitResult,
    pub node_slots: Vec<Slot>,
    pub str_slots: Vec<Option<String>>,
    pub rc_slots: Vec<u32>,
}

/// The work can be done.
pub open spec fn work_ready(w: FileWork<'_>) -> bool {
    w.str_slots@.len() == w.rc_slots@.len() && committable(
        *w.staging,
        *w.plan,
        w.node_slots@.len(),
        w.str_slots@.len(),
    )
}

/// `d` is the outcome of `w`.
pub open spec fn is_done(d: FileDone, w: FileWork<'_>) -> bool {
    &&& is_commit_of(d.result, *w.staging, *w.plan, w.node_slots@.len(), w.str_slots@.len())
    &&& d.node_slots@ == file_slots(*w.staging, *w.plan, w.node_slots@, w.str_slots@.len())
    &&& texts_of(d.str_slots@) == file_texts(*w.staging, texts_of(w.str_slots@))
    &&& d.rc_slots@ == file_refs(*w.staging, w.rc_slots@)
}

fn commit_work(w: FileWork<'_>) -> (r: FileDone)
    requires
        work_ready(w),
    ensures
        is_done(r, w),
{
    let mut node_slots = w.node_slots;
    let mut str_slots = w.str_slots;
    let mut rc_slots = w.rc_slots;
    let result = commit_single_file(
        w.staging,
        w.plan,
        &mut node_slots,
        &mut str_slots,
        &mut rc_slots,
    );
    FileDone { result, node_slots, str_slots, rc_slots }
}

/// `w` is the work of file `i`, where `slots`, `texts` and `refs` begin with the part of
/// the first file.
pub open spec fn is_work_of(
    w: FileWork<'_>,
    slots: Seq<Slot>,
    texts: Seq<Option<String>>,
    refs: Seq<u32>,
    plans: Seq<FilePlan>,
    graphs: Seq<&StagingGraph>,
    i: int,
) -> bool {
    &&& *w.staging == *graphs[i]
    &&& *w.plan == plans[i]
    &&& w.node_slots@ == node_piece(slots, plans, i)
    &&& w.str_slots@ == string_piece(texts, plans, i)
    &&& w.rc_slots@ == string_piece(refs, plans, i)
}

/// Cuts the slots of every file off; what is behind them stays.
fn carve<'a>(
    plan: &'a ChunkCommitPlan,
    staging_graphs: &'a [&'a StagingGraph],
    nodes: &mut Vec<Slot>,
    texts: &mut Vec<Option<String>>,
    refs: &mut Vec<u32>,
) -> (r: Vec<FileWork<'a>>)
    requires
        plan.file_plans@.len() == staging_graphs@.len(),
        ranges_forward(plan.file_plans@),
        nodes_before(plan.file_plans@, plan.file_plans@.len() as int) <= old(nodes)@.len(),
        strings_before(plan.file_plans@, plan.file_plans@.len() as int) <= old(texts)@.len(),
        old(texts)@.len() == old(refs)@.len(),
    ensures
        r@.len() == plan.file_plans@.len(),
        forall|i: int|
            0 <= i < r@.len() ==> is_work_of(
                #[trigger] r@[i],
                old(nodes)@,
                old(texts)@,
                old(refs)@,
                plan.file_plans@,
                staging_graphs@,
                i,
            ),
        final(nodes)@ == old(nodes)@.subrange(
            nodes_before(plan.file_plans@, plan.file_plans@.len() as int),
            old(nodes)@.len() as int,
        ),
        final(texts)@ == old(texts)@.subrange(
            strings_before(plan.file_plans@, plan.file_plans@.len() as int),
            old(texts)@.len() as int,
        ),
        final(refs)@ == old(refs)@.subrange(
            strings_before(plan.file_plans@, plan.file_plans@.len() as int),
            old(refs)@.len() as int,
        ),
{
    let ghost plans = plan.file_plans@;
    let ghost nodes0 = nodes@;
    let ghost texts0 = texts@;
    let ghost refs0 = refs@;
    let mut work: Vec<FileWork<'a>> = Vec::new();
    proof {
        assert(nodes@ =~= nodes0.subrange(0, nodes0.len() as int));
        assert(texts@ =~= texts0.subrange(0, texts0.len() as int));
        assert(refs@ =~= refs0.subrange(0, refs0.len() as int));
    }
    for i in 0..plan.file_plans.len()
        invariant
            plans == plan.file_plans@,
            plans.len() == staging_graphs@.len(),
            ranges_forward(plans),
            nodes_before(plans, plans.len() as int) <= nodes0.len(),
            strings_before(plans, plans.len() as int) <= texts0.len(),
            texts0.len() == refs0.len(),
            nodes@ == nodes0.subrange(nodes_before(plans, i as int), nodes0.len() as int),
            texts@ == texts0.subrange(strings_before(plans, i as int), texts0.len() as int),
            refs@ == refs0.subrange(strings_before(plans, i as int), refs0.len() as int),
            work@.len() == i,
            forall|j: int|
                0 <= j < i ==> is_work_of(
                    #[trigger] work@[j],
                    nodes0,
                    texts0,
                    refs0,
                    plans,
                    staging_graphs@,
                    j,
                ),
    {
        let p: &'a FilePlan = &plan.file_plans[i];
        proof {
            lemma_before_monotone(plans, i as int, i + 1);
            lemma_before_monotone(plans, i + 1, plans.len() as int);
        }
        let nc: usize = (p.node_range.end - p.node_range.start) as usize;
        let sc: usize = (p.string_range.end - p.string_range.start) as usize;
        let mut node_tail = nodes.split_off(nc);
        let mut text_tail = texts.split_off(sc);
        let mut ref_tail = refs.split_off(sc);
        let mut node_slots: Vec<Slot> = Vec::new();
        let mut str_slots: Vec<Option<String>> = Vec::new();
        let mut rc_slots: Vec<u32> = Vec::new();
        node_slots.append(nodes);
        str_slots.append(texts);
        rc_slots.append(refs);
        nodes.append(&mut node_tail);
        texts.append(&mut text_tail);
        refs.append(&mut ref_tail);
        let w = FileWork { staging: staging_graphs[i], plan: p, node_slots, str_slots, rc_slots };
        let ghost prev = work@;
        work.push(w);
        proof {
            assert(w.node_slots@ =~= node_piece(nodes0, plans, i as int));
            assert(w.str_slots@ =~= string_piece(texts0, plans, i as int));
            assert(w.rc_slots@ =~= string_piece(refs0, plans, i as int));
            assert(nodes@ =~= nodes0.subrange(nodes_before(plans, i + 1), nodes0.len() as int));
            assert(texts@ =~= texts0.subrange(strings_before(plans, i + 1), texts0.len() as int));
            assert(refs@ =~= refs0.subrange(strings_before(plans, i + 1), refs0.len() as int));
            assert forall|j: int| 0 <= j < i + 1 implies is_work_of(
                #[trigger] work@[j],
                nodes0,
                texts0,
                refs0,
                plans,
                staging_graphs@,
                j,
            ) by {
                if j < i {
                    assert(work@[j] == prev[j]);
                }
            }
        }
    }
    work
}

/// `d` is the outcome of file `i`.
pub open spec fn is_outcome(
    d: FileDone,
    slots: Seq<Slot>,
    texts: Seq<Option<Seq<char>>>,
    refs: Seq<u32>,
    plans: Seq<FilePlan>,
    graphs: Seq<&StagingGraph>,
    i: int,
) -> bool {
    &&& is_commit_of(
        d.result,
        *graphs[i],
        plans[i],
        node_len(plans[i]) as nat,
        string_len(plans[i]) as nat,
    )
    &&& d.node_slots@ == file_slots(
        *graphs[i],
        plans[i],
        node_piece(slots, plans, i),
        string_len(plans[i]) as nat,
    )
    &&& texts_of(d.str_slots@) == file_texts(*graphs[i], string_piece(texts, plans, i))
    &&& d.rc_slots@ == file_refs(*graphs[i], string_piece(refs, plans, i))
}

/// Cuts the slots of every file off and commits the files into them.
fn commit_pieces(
    plan: &ChunkCommitPlan,
    staging_graphs: &[&StagingGraph],
    nodes: &mut Vec<Slot>,
    texts: &mut Vec<Option<String>>,
    refs: &mut Vec<u32>,
) -> (r: Vec<FileDone>)
    requires
        plan.file_plans@.len() == staging_graphs@.len(),
        ranges_forward(plan.file_plans@),
        nodes_before(plan.file_plans@, plan.file_plans@.len() as int) <= old(nodes)@.len(),
        strings_before(plan.file_plans@, plan.file_plans@.len() as int) <= old(texts)@.len(),
        old(texts)@.len() == old(refs)@.len(),
        forall|i: int|
            #![trigger plan.file_plans@[i]]
            0 <= i < plan.file_plans@.len() ==> committable(
                *staging_graphs@[i],
                plan.file_plans@[i],
                node_len(plan.file_plans@[i]) as nat,
                string_len(plan.file_plans@[i]) as nat,
            ),
    ensures
        r@.len() == plan.file_plans@.len(),
        forall|i: int|
            0 <= i < r@.len() ==> is_outcome(
                #[trigger] r@[i],
                old(nodes)@,
                texts_of(old(texts)@),
                old(refs)@,
                plan.file_plans@,
                staging_graphs@,
                i,
            ),
        final(nodes)@ == old(nodes)@.subrange(
            nodes_before(plan.file_plans@, plan.file_plans@.len() as int),
            old(nodes)@.len() as int,
        ),
        final(texts)@ == old(texts)@.subrange(
            strings_before(plan.file_plans@, plan.file_plans@.len() as int),
            old(texts)@.len() as int,
        ),
        final(refs)@ == old(refs)@.subrange(
            strings_before(plan.file_plans@, plan.file_plans@.len() as int),
            old(refs)@.len() as int,
        ),
{
    let ghost plans = plan.file_plans@;
    let ghost nodes0 = nodes@;
    let ghost texts0 = texts@;
    let ghost refs0 = refs@;
    let work = carve(plan, staging_graphs, nodes, texts, refs);
    proof {
        assert forall|i: int| 0 <= i < plans.len() implies work_ready(#[trigger] work@[i]) by {
            lemma_work_sizes(work@[i], nodes0, texts0, refs0, plans, staging_graphs@, i);
        }
    }
    let done = par_map(work, commit_work);
    proof {
        assert forall|i: int| 0 <= i < plans.len() implies is_outcome(
            #[trigger] done@[i],
            nodes0,
            texts_of(texts0),
            refs0,
            plans,
            staging_graphs@,
            i,
        ) by {
            assert(is_done(done@[i], work@[i]));
            lemma_work_sizes(work@[i], nodes0, texts0, refs0, plans, staging_graphs@, i);
        }
    }
    done
}

proof fn lemma_work_sizes(
    w: FileWork<'_>,
    slots: Seq<Slot>,
    texts: Seq<Option<String>>,
    refs: Seq<u32>,
    plans: Seq<FilePlan>,
    graphs: Seq<&StagingGraph>,
    i: int,
)
    requires
        ranges_forward(plans),
        0 <= i < plans.len(),
        nodes_before(plans, plans.len() as int) <= slots.len(),
        strings_before(plans, plans.len() as int) <= texts.len(),
        texts.len() == refs.len(),
        is_work_of(w, slots, texts, refs, plans, graphs, i),
    ensures
        w.node_slots@.len() == node_len(plans[i]),
        w.str_slots@.len() == string_len(plans[i]),
        w.rc_slots@.len() == string_len(plans[i]),
        texts_of(w.str_slots@) == string_piece(texts_of(texts), plans, i),
{
    lemma_before_monotone(plans, i, i + 1);
    lemma_before_monotone(plans, i + 1, plans.len() as int);
    assert(texts_of(w.str_slots@) =~= string_piece(texts_of(texts), plans, i));
}

/// What the files yield, gathered.
struct Gathered {
    per_file_edges: Vec<Vec<PendingEdge>>,
    per_file_node_ids: Vec<Vec<NodeId>>,
    nodes: usize,
    strings: usize,
    edges: usize,
}

/// `r` gathers what the first `n` files yield.
spec fn gathers(r: Gathered, plans: Seq<FilePlan>, graphs: Seq<&StagingGraph>, n: int) -> bool {
    &&& r.per_file_edges@.len() == n
    &&& forall|j: int|
        0 <= j < n ==> pending_views((#[trigger] r.per_file_edges@[j])@) == file_edges(
            plans,
            graphs,
            j,
        )
    &&& r.per_file_node_ids@.len() == n
    &&& forall|j: int|
        0 <= j < n ==> (#[trigger] r.per_file_node_ids@[j])@ == file_node_ids(plans, graphs, j)
    &&& r.nodes == total_nodes(plans, graphs, n)
    &&& r.strings == total_strings(plans, graphs, n)
    &&& r.edges == total_edges(graphs, n)
}

/// Puts the slots of the files back one behind the other, and gathers what they yield.
fn gather(
    done: Vec<FileDone>,
    nodes: &mut Vec<Slot>,
    texts: &mut Vec<Option<String>>,
    refs: &mut Vec<u32>,
    hints: &mut GoHints,
    Ghost(slots0): Ghost<Seq<Slot>>,
    Ghost(texts0): Ghost<Seq<Option<Seq<char>>>>,
    Ghost(refs0): Ghost<Seq<u32>>,
    Ghost(plans): Ghost<Seq<FilePlan>>,
    Ghost(graphs): Ghost<Seq<&StagingGraph>>,
) -> (r: Gathered)
    requires
        done@.len() == plans.len(),
        ranges_forward(plans),
        total_edges(graphs, plans.len() as int) <= usize::MAX,
        nodes_before(plans, plans.len() as int) <= u32::MAX,
        strings_before(plans, plans.len() as int) <= u32::MAX,
        forall|i: int|
            0 <= i < done@.len() ==> is_outcome(
                #[trigger] done@[i],
                slots0,
                texts0,
                refs0,
                plans,
                graphs,
                i,
            ),
    ensures
        gathers(r, plans, graphs, plans.len() as int),
        final(nodes)@ == old(nodes)@ + committed_slots(slots0, plans, graphs, plans.len() as int),
        texts_of(final(texts)@) == texts_of(old(texts)@) + committed_texts(
            texts0,
            plans,
            graphs,
            plans.len() as int,
        ),
        final(refs)@ == old(refs)@ + committed_refs(refs0, plans, graphs, plans.len() as int),
        final(hints)@ == hints_after(old(hints)@, plans, graphs, plans.len() as int),
{
    let mut done = done;
    let n: usize = done.len();
    let ghost done0 = done@;
    let mut r = Gathered {
        per_file_edges: Vec::new(),
        per_file_node_ids: Vec::new(),
        nodes: 0,
        strings: 0,
        edges: 0,
    };
    let mut i: usize = 0;
    proof {
        assert(nodes@ =~= nodes@ + Seq::<Slot>::empty());
        assert(texts_of(texts@) =~= texts_of(texts@) + Seq::<Option<Seq<char>>>::empty());
        assert(refs@ =~= refs@ + Seq::<u32>::empty());
    }
    while i < n
        invariant
            i <= n,
            n == plans.len(),
            n == done@.len(),
            n == done0.len(),
            ranges_forward(plans),
            total_edges(graphs, n as int) <= usize::MAX,
            nodes_before(plans, n as int) <= u32::MAX,
            strings_before(plans, n as int) <= u32::MAX,
            forall|j: int|
                0 <= j < n ==> is_outcome(
                    #[trigger] done0[j],
                    slots0,
                    texts0,
                    refs0,
                    plans,
                    graphs,
                    j,
                ),
            forall|j: int| i <= j < n ==> #[trigger] done@[j] == done0[j],
            gathers(r, plans, graphs, i as int),
            nodes@ == old(nodes)@ + committed_slots(slots0, plans, graphs, i as int),
            texts_of(texts@) == texts_of(old(texts)@) + committed_texts(
                texts0,
                plans,
                graphs,
                i as int,
            ),
            refs@ == old(refs)@ + committed_refs(refs0, plans, graphs, i as int),
            hints@ == hints_after(old(hints)@, plans, graphs, i as int),
        decreases n - i,
    {
        let ghost d = done0[i as int];
        proof {
            assert(is_outcome(done0[i as int], slots0, texts0, refs0, plans, graphs, i as int));
            assert(done@[i as int] == done0[i as int]);
            lemma_totals(plans, graphs, i + 1);
            lemma_before_monotone(plans, i + 1, n as int);
            lemma_total_edges_monotone(graphs, i + 1, n as int);
            assert(pending_views(d.result.edges@).len() == d.result.edges@.len());
        }
        r.nodes = r.nodes + done[i].result.nodes_written;
        r.strings = r.strings + done[i].result.strings_written;
        r.edges = r.edges + done[i].result.edges.len();
        let one: &mut FileDone = &mut done[i];
        let mut edges: Vec<PendingEdge> = Vec::new();
        edges.append(&mut one.result.edges);
        let mut node_ids: Vec<NodeId> = Vec::new();
        node_ids.append(&mut one.result.node_ids);
        let ghost texts_so_far = texts@;
        nodes.append(&mut one.node_slots);
        texts.append(&mut one.str_slots);
        refs.append(&mut one.rc_slots);
        hints.append(&mut one.result.hints);
        let ghost prev = r;
        proof {
            assert(edges@ =~= d.result.edges@);
            assert(node_ids@ =~= d.result.node_ids@);
        }
        r.per_file_edges.push(edges);
        r.per_file_node_ids.push(node_ids);
        proof {
            assert(texts_of(texts@) =~= texts_of(texts_so_far) + texts_of(d.str_slots@));
            assert(nodes@ =~= old(nodes)@ + committed_slots(slots0, plans, graphs, i + 1));
            assert(texts_of(texts@) =~= texts_of(old(texts)@) + committed_texts(
                texts0,
                plans,
                graphs,
                i + 1,
            ));
            assert(refs@ =~= old(refs)@ + committed_refs(refs0, plans, graphs, i + 1));
            assert forall|j: int| 0 <= j < i + 1 implies pending_views(
                (#[trigger] r.per_file_edges@[j])@,
            ) == file_edges(plans, graphs, j) by {
                if j < i {
                    assert(r.per_file_edges@[j] == prev.per_file_edges@[j]);
                }
            }
            assert forall|j: int| 0 <= j < i + 1 implies (#[trigger] r.per_file_node_ids@[j])@
                == file_node_ids(plans, graphs, j) by {
                if j < i {
                    assert(r.per_file_node_ids@[j] == prev.per_file_node_ids@[j]);
                }
            }
        }
        i = i + 1;
    }
    r
}

proof fn lemma_committed_len(
    nodes: Seq<Slot>,
    text: Seq<Option<Seq<char>>>,
    refs: Seq<u32>,
    plans: Seq<FilePlan>,
    graphs: Seq<&StagingGraph>,
    n: int,
)
    requires
        ranges_forward(plans),
        0 <= n <= plans.len(),
        nodes_before(plans, plans.len() as int) <= nodes.len(),
        strings_before(plans, plans.len() as int) <= text.len(),
        text.len() == refs.len(),
    ensures
        committed_slots(nodes, plans, graphs, n).len() == nodes_before(plans, n),
        committed_texts(text, plans, graphs, n).len() == strings_before(plans, n),
        committed_refs(refs, plans, graphs, n).len() == strings_before(plans, n),
    decreases n,
{
    if n > 0 {
        lemma_committed_len(nodes, text, refs, plans, graphs, n - 1);
        lemma_before_monotone(plans, 0, n - 1);
        lemma_before_monotone(plans, n - 1, n);
        lemma_before_monotone(plans, n, plans.len() as int);
    }
}

proof fn lemma_planned_sums(
    node_counts: Seq<u32>,
    string_counts: Seq<u32>,
    file_ids: Seq<FileId>,
    node_offset: u32,
    string_offset: u32,
    n: int,
)
    requires
        node_counts.len() == string_counts.len(),
        node_offset + sum_of(node_counts, node_counts.len() as int) <= u32::MAX,
        string_offset + sum_of(string_counts, string_counts.len() as int) <= u32::MAX,
        0 <= n <= node_counts.len(),
    ensures
        ({
            let plans = Seq::new(
                node_counts.len(),
                |i: int|
                    planned(node_counts, string_counts, file_ids, node_offset, string_offset, i),
            );
            &&& nodes_before(plans, n) == sum_of(node_counts, n)
            &&& strings_before(plans, n) == sum_of(string_counts, n)
            &&& n < node_counts.len() ==> node_len(plans[n]) == node_counts[n] && string_len(
                plans[n],
            ) == string_counts[n]
        }),
    decreases n,
{
    let len = node_counts.len() as int;
    if n < len {
        lemma_sum_monotone(node_counts, 0, n);
        lemma_sum_monotone(node_counts, n, n + 1);
        lemma_sum_monotone(node_counts, n + 1, len);
        lemma_sum_monotone(string_counts, 0, n);
        lemma_sum_monotone(string_counts, n, n + 1);
        lemma_sum_monotone(string_counts, n + 1, len);
    }
    if n > 0 {
        lemma_planned_sums(
            node_counts,
            string_counts,
            file_ids,
            node_offset,
            string_offset,
            n - 1,
        );
    }
}

/// A chunk that is committed as it was planned loses nothing: the ranges of its plan add
/// up to the totals, and every staged node and string finds a slot.
pub proof fn law_planned_chunk_has_room(
    graphs: Seq<&StagingGraph>,
    file_ids: Seq<FileId>,
    node_offset: u32,
    string_offset: u32,
    i: int,
)
    requires
        node_offset + sum_of(node_counts_of(graphs), graphs.len() as int) <= u32::MAX,
        string_offset + sum_of(string_counts_of(graphs), graphs.len() as int) <= u32::MAX,
        0 <= i < graphs.len(),
        graphs[i].nodes().len() <= u32::MAX,
        graphs[i].strings().len() <= u32::MAX,
    ensures
        ({
            let plans = Seq::new(
                graphs.len(),
                |k: int|
                    planned(
                        node_counts_of(graphs),
                        string_counts_of(graphs),
                        file_ids,
                        node_offset,
                        string_offset,
                        k,
                    ),
            );
            let n = graphs.len() as int;
            &&& nodes_before(plans, n) == sum_of(node_counts_of(graphs), n)
            &&& strings_before(plans, n) == sum_of(string_counts_of(graphs), n)
            &&& plans[i].node_range.start <= plans[i].node_range.end
            &&& plans[i].string_range.start <= plans[i].string_range.end
            &&& nodes_written(*graphs[i], node_len(plans[i]) as nat) == graphs[i].nodes().len()
            &&& strings_written(*graphs[i], string_len(plans[i]) as nat)
                == graphs[i].strings().len()
        }),
{
    let a = node_counts_of(graphs);
    let b = string_counts_of(graphs);
    lemma_planned_sums(a, b, file_ids, node_offset, string_offset, graphs.len() as int);
    lemma_planned_sums(a, b, file_ids, node_offset, string_offset, i);
    lemma_sum_monotone(a, i, i + 1);
    lemma_sum_monotone(b, i, i + 1);
}

/// Commits the files of a chunk into the ranges that its plan assigns, side by side:
/// each works on slots that are its own.
pub fn phase3_parallel_commit(
    plan: &ChunkCommitPlan,
    staging_graphs: &[&StagingGraph],
    graph: &mut CodeGraph,
) -> (r: Phase3Result)
    requires
        old(graph).wf(),
        chunk_committable(old(graph)@, *plan, staging_graphs@),
    ensures
        final(graph).wf(),
        final(graph)@ == chunk_committed(old(graph)@, plan.file_plans@, staging_graphs@),
        is_chunk_result(r, plan.file_plans@, staging_graphs@),
{
    let ghost g = graph@;
    let ghost plans = plan.file_plans@;
    let ghost n = plans.len() as int;
    let drain = collect_c_indirect_drain(plan, staging_graphs);
    if plan.file_plans.len() == 0 {
        let r = Phase3Result {
            per_file_edges: Vec::new(),
            per_file_node_ids: Vec::new(),
            total_nodes_written: 0,
            total_strings_written: 0,
            total_edges_collected: 0,
            c_indirect_drain: drain,
        };
        proof {
            assert(pending_views_by_file(r.per_file_edges@) =~= Seq::new(
                0,
                |i: int| file_edges(plans, staging_graphs@, i),
            ));
            assert(views(r.per_file_node_ids@) =~= Seq::new(
                0,
                |i: int| file_node_ids(plans, staging_graphs@, i),
            ));
        }
        return r;
    }
    let node_start: usize = plan.file_plans[0].node_range.start as usize;
    let string_start: usize = plan.file_plans[0].string_range.start as usize;
    let ghost texts = graph.strings.slots@;
    let mut node_rest = graph.nodes.slots.split_off(node_start);
    let mut text_rest = graph.strings.slots.split_off(string_start);
    let mut ref_rest = graph.strings.refs.split_off(string_start);
    let ghost nodes0 = node_rest@;
    let ghost texts0 = text_rest@;
    let ghost refs0 = ref_rest@;
    let done = commit_pieces(plan, staging_graphs, &mut node_rest, &mut text_rest, &mut ref_rest);
    let gathered = gather(
        done,
        &mut graph.nodes.slots,
        &mut graph.strings.slots,
        &mut graph.strings.refs,
        &mut graph.go_hints,
        Ghost(nodes0),
        Ghost(texts_of(texts0)),
        Ghost(refs0),
        Ghost(plans),
        Ghost(staging_graphs@),
    );
    let ghost texts_mid = graph.strings.slots@;
    let ghost text_tail = text_rest@;
    graph.nodes.slots.append(&mut node_rest);
    graph.strings.slots.append(&mut text_rest);
    graph.strings.refs.append(&mut ref_rest);
    let r = Phase3Result {
        per_file_edges: gathered.per_file_edges,
        per_file_node_ids: gathered.per_file_node_ids,
        total_nodes_written: gathered.nodes,
        total_strings_written: gathered.strings,
        total_edges_collected: gathered.edges,
        c_indirect_drain: drain,
    };
    proof {
        let c = chunk_committed(g, plans, staging_graphs@);
        let text = g.strings.text.subrange(string_start as int, g.strings.text.len() as int);
        lemma_before_monotone(plans, 0, n);
        assert(texts_of(texts0) =~= text);
        assert(texts_of(texts.subrange(0, string_start as int)) =~= g.strings.text.subrange(
            0,
            string_start as int,
        ));
        assert(texts_of(graph.strings.slots@) =~= texts_of(texts_mid) + texts_of(text_tail));
        assert(texts_of(text_tail) =~= text.subrange(
            strings_before(plans, n),
            text.len() as int,
        ));
        assert(graph@.nodes =~= c.nodes);
        assert(graph@.strings.text =~= c.strings.text);
        assert(graph@.strings.refs =~= c.strings.refs);
        lemma_committed_len(nodes0, texts_of(texts0), refs0, plans, staging_graphs@, n);
        assert(pending_views_by_file(r.per_file_edges@) =~= Seq::new(
            n as nat,
            |i: int| file_edges(plans, staging_graphs@, i),
        ));
        assert(views(r.per_file_node_ids@) =~= Seq::new(
            n as nat,
            |i: int| file_node_ids(plans, staging_graphs@, i),
        ));
    }
    r
}

} // verus!
