//! Assigning each file of a chunk its ranges of node and string slots.
use std::ops::Range;
use vstd::prelude::*;

use crate::ids::FileId;
use crate::staging::{clamped, StagingGraph};

verus! {

/// Where the next chunk's ranges begin.
#[derive(Debug, Clone, Copy, PartialEq, Eq, Structural)]
pub struct GlobalOffsets {
    /// Next free node slot.
    pub node_offset: u32,
    /// Next free string slot.
    pub string_offset: u32,
}

impl Default for GlobalOffsets {
    fn default() -> (r: GlobalOffsets)
        ensures
            r.node_offset == 0,
            r.string_offset == 0,
    {
        GlobalOffsets { node_offset: 0, string_offset: 0 }
    }
}

/// The ranges of one file.
#[derive(Debug)]
pub struct FilePlan {
    /// Position of the file in its chunk.
    pub parsed_index: usize,
    /// Identity of the file.
    pub file_id: FileId,
    /// Node slots of the file.
    pub node_range: Range<u32>,
    /// String slots of the file.
    pub string_range: Range<u32>,
}

impl Clone for FilePlan {
    fn clone(&self) -> (r: FilePlan)
        ensures
            r == *self,
    {
        FilePlan {
            parsed_index: self.parsed_index,
            file_id: self.file_id,
            node_range: self.node_range.start..self.node_range.end,
            string_range: self.string_range.start..self.string_range.end,
        }
    }
}

/// The ranges of the files of one chunk.
#[derive(Clone, Debug)]
pub struct ChunkCommitPlan {
    /// The plan of each file, in file order.
    pub file_plans: Vec<FilePlan>,
    /// Nodes of all files.
    pub total_nodes: u32,
    /// Strings of all files.
    pub total_strings: u32,
    /// Edges of all files.
    pub total_edges: u64,
}

/// Sum of the first `n` counts.
pub open spec fn sum_of(counts: Seq<u32>, n: int) -> int
    decreases n,
{
    if n <= 0 {
        0
    } else {
        sum_of(counts, n - 1) + counts[n - 1]
    }
}

/// A shorter prefix has no larger sum, and no sum is negative.
pub proof fn lemma_sum_monotone(counts: Seq<u32>, m: int, n: int)
    requires
        0 <= m <= n,
    ensures
        0 <= sum_of(counts, m) <= sum_of(counts, n),
    decreases n,
{
    if n > m {
        lemma_sum_monotone(counts, m, n - 1);
    } else if m > 0 {
        lemma_sum_monotone(counts, m - 1, m - 1);
    }
}

/// The plan of file `i`: its ranges begin where those of the files before it end.
pub open spec fn planned(
    node_counts: Seq<u32>,
    string_counts: Seq<u32>,
    file_ids: Seq<FileId>,
    node_offset: u32,
    string_offset: u32,
    i: int,
) -> FilePlan {
    FilePlan {
        parsed_index: i as usize,
        file_id: file_ids[i],
        node_range: Range {
            start: (node_offset + sum_of(node_counts, i)) as u32,
            end: (node_offset + sum_of(node_counts, i + 1)) as u32,
        },
        string_range: Range {
            start: (string_offset + sum_of(string_counts, i)) as u32,
            end: (string_offset + sum_of(string_counts, i + 1)) as u32,
        },
    }
}

/// Assigns each file its ranges, one behind the other from the given offsets on.
pub fn compute_commit_plan(
    node_counts: &[u32],
    string_counts: &[u32],
    edge_counts: &[u32],
    file_ids: &[FileId],
    node_offset: u32,
    string_offset: u32,
) -> (r: ChunkCommitPlan)
    requires
        node_counts@.len() == string_counts@.len(),
        node_counts@.len() == edge_counts@.len(),
        node_counts@.len() == file_ids@.len(),
        node_offset + sum_of(node_counts@, node_counts@.len() as int) <= u32::MAX,
        string_offset + sum_of(string_counts@, string_counts@.len() as int) <= u32::MAX,
        sum_of(edge_counts@, edge_counts@.len() as int) <= u64::MAX,
    ensures
        r.file_plans@ == Seq::new(
            node_counts@.len(),
            |i: int|
                planned(
                    node_counts@,
                    string_counts@,
                    file_ids@,
                    node_offset,
                    string_offset,
                    i,
                ),
        ),
        r.total_nodes == sum_of(node_counts@, node_counts@.len() as int),
        r.total_strings == sum_of(string_counts@, string_counts@.len() as int),
        r.total_edges == sum_of(edge_counts@, edge_counts@.len() as int),
{
    let mut plans: Vec<FilePlan> = Vec::new();
    let mut node_cursor: u32 = node_offset;
    let mut string_cursor: u32 = string_offset;
    let mut total_edges: u64 = 0;
    let n: usize = node_counts.len();
    for i in 0..n
        invariant
            n == node_counts@.len(),
            n == string_counts@.len(),
            n == edge_counts@.len(),
            n == file_ids@.len(),
            node_offset + sum_of(node_counts@, n as int) <= u32::MAX,
            string_offset + sum_of(string_counts@, n as int) <= u32::MAX,
            sum_of(edge_counts@, n as int) <= u64::MAX,
            node_cursor == node_offset + sum_of(node_counts@, i as int),
            string_cursor == string_offset + sum_of(string_counts@, i as int),
            total_edges == sum_of(edge_counts@, i as int),
            plans@ == Seq::new(
                i as nat,
                |j: int|
                    planned(
                        node_counts@,
                        string_counts@,
                        file_ids@,
                        node_offset,
                        string_offset,
                        j,
                    ),
            ),
    {
        proof {
            lemma_sum_monotone(node_counts@, i + 1, n as int);
            lemma_sum_monotone(string_counts@, i + 1, n as int);
            lemma_sum_monotone(edge_counts@, i + 1, n as int);
        }
        let node_end: u32 = node_cursor + node_counts[i];
        let string_end: u32 = string_cursor + string_counts[i];
        let plan = FilePlan {
            parsed_index: i,
            file_id: file_ids[i],
            node_range: node_cursor..node_end,
            string_range: string_cursor..string_end,
        };
        plans.push(plan);
        proof {
            assert(plan == planned(
                node_counts@,
                string_counts@,
                file_ids@,
                node_offset,
                string_offset,
                i as int,
            ));
            assert(plans@ =~= Seq::new(
                (i + 1) as nat,
                |j: int|
                    planned(
                        node_counts@,
                        string_counts@,
                        file_ids@,
                        node_offset,
                        string_offset,
                        j,
                    ),
            ));
        }
        node_cursor = node_end;
        string_cursor = string_end;
        total_edges = total_edges + edge_counts[i] as u64;
    }
    proof {
        lemma_sum_monotone(node_counts@, 0, n as int);
        lemma_sum_monotone(string_counts@, 0, n as int);
    }
    ChunkCommitPlan {
        file_plans: plans,
        total_nodes: node_cursor - node_offset,
        total_strings: string_cursor - string_offset,
        total_edges,
    }
}

/// Number of nodes of each staging graph.
pub open spec fn node_counts_of(graphs: Seq<&StagingGraph>) -> Seq<u32> {
    Seq::new(graphs.len(), |i: int| clamped(graphs[i].nodes().len() as int))
}

/// Number of strings of each staging graph.
pub open spec fn string_counts_of(graphs: Seq<&StagingGraph>) -> Seq<u32> {
    Seq::new(graphs.len(), |i: int| clamped(graphs[i].strings().len() as int))
}

/// Number of edges of each staging graph.
pub open spec fn edge_counts_of(graphs: Seq<&StagingGraph>) -> Seq<u32> {
    Seq::new(graphs.len(), |i: int| clamped(graphs[i].edges().len() as int))
}

/// Assigns each staging graph ranges that are as long as it needs.
pub fn phase2_assign_ranges(
    staging_graphs: &[&StagingGraph],
    file_ids: &[FileId],
    offsets: &GlobalOffsets,
) -> (r: ChunkCommitPlan)
    requires
        staging_graphs@.len() == file_ids@.len(),
        offsets.node_offset + sum_of(
            node_counts_of(staging_graphs@),
            staging_graphs@.len() as int,
        ) <= u32::MAX,
        offsets.string_offset + sum_of(
            string_counts_of(staging_graphs@),
            staging_graphs@.len() as int,
        ) <= u32::MAX,
        sum_of(edge_counts_of(staging_graphs@), staging_graphs@.len() as int) <= u64::MAX,
    ensures
        r.file_plans@ == Seq::new(
            staging_graphs@.len(),
            |i: int|
                planned(
                    node_counts_of(staging_graphs@),
                    string_counts_of(staging_graphs@),
                    file_ids@,
                    offsets.node_offset,
                    offsets.string_offset,
                    i,
                ),
        ),
        r.total_nodes == sum_of(
            node_counts_of(staging_graphs@),
            staging_graphs@.len() as int,
        ),
        r.total_strings == sum_of(
            string_counts_of(staging_graphs@),
            staging_graphs@.len() as int,
        ),
        r.total_edges == sum_of(edge_counts_of(staging_graphs@), staging_graphs@.len() as int),
{
    let mut node_counts: Vec<u32> = Vec::new();
    let mut string_counts: Vec<u32> = Vec::new();
    let mut edge_counts: Vec<u32> = Vec::new();
    for i in 0..staging_graphs.len()
        invariant
            node_counts@ == node_counts_of(staging_graphs@).take(i as int),
            string_counts@ == string_counts_of(staging_graphs@).take(i as int),
            edge_counts@ == edge_counts_of(staging_graphs@).take(i as int),
    {
        node_counts.push(staging_graphs[i].node_count_u32());
        string_counts.push(staging_graphs[i].string_count_u32());
        edge_counts.push(staging_graphs[i].edge_count_u32());
        proof {
            assert(node_counts@ =~= node_counts_of(staging_graphs@).take(i + 1));
            assert(string_counts@ =~= string_counts_of(staging_graphs@).take(i + 1));
            assert(edge_counts@ =~= edge_counts_of(staging_graphs@).take(i + 1));
        }
    }
    proof {
        assert(node_counts@ =~= node_counts_of(staging_graphs@));
        assert(string_counts@ =~= string_counts_of(staging_graphs@));
        assert(edge_counts@ =~= edge_counts_of(staging_graphs@));
    }
    compute_commit_plan(
        node_counts.as_slice(),
        string_counts.as_slice(),
        edge_counts.as_slice(),
        file_ids,
        offsets.node_offset,
        offsets.string_offset,
    )
}

/// Every range of a plan begins where the one before it ends, the first at the offset,
/// and the last ends behind the total; so ranges are disjoint and leave no gap.
pub proof fn law_ranges_are_contiguous(
    node_counts: Seq<u32>,
    string_counts: Seq<u32>,
    file_ids: Seq<FileId>,
    node_offset: u32,
    string_offset: u32,
    i: int,
    j: int,
)
    requires
        node_counts.len() == string_counts.len(),
        node_offset + sum_of(node_counts, node_counts.len() as int) <= u32::MAX,
        string_offset + sum_of(string_counts, string_counts.len() as int) <= u32::MAX,
        0 <= i < j < node_counts.len(),
    ensures
        ({
            let p = |k: int|
                planned(node_counts, string_counts, file_ids, node_offset, string_offset, k);
            let n = node_counts.len() as int;
            &&& p(0).node_range.start == node_offset
            &&& p(0).string_range.start == string_offset
            &&& p(i + 1).node_range.start == p(i).node_range.end
            &&& p(i + 1).string_range.start == p(i).string_range.end
            &&& p(n - 1).node_range.end == node_offset + sum_of(node_counts, n)
            &&& p(n - 1).string_range.end == string_offset + sum_of(string_counts, n)
            &&& p(i).node_range.end <= p(j).node_range.start
            &&& p(i).string_range.end <= p(j).string_range.start
            &&& p(i).node_range.end - p(i).node_range.start == node_counts[i]
            &&& p(i).string_range.end - p(i).string_range.start == string_counts[i]
        }),
{
    let n = node_counts.len() as int;
    lemma_sum_monotone(node_counts, i, i + 1);
    lemma_sum_monotone(node_counts, i + 1, j);
    lemma_sum_monotone(node_counts, j, n);
    lemma_sum_monotone(string_counts, i, i + 1);
    lemma_sum_monotone(string_counts, i + 1, j);
    lemma_sum_monotone(string_counts, j, n);
}

} // verus!
