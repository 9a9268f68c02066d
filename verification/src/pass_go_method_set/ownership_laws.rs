//! What the pass takes for its own.

use vstd::prelude::*;

use crate::arena::live;
use crate::edges::EdgeView;
use crate::graph::GraphView;
use crate::ids::NodeId;
use crate::kinds::{EdgeKind, Language, NodeKind};
use crate::pass_go_method_set::ownership::{emitted_implements, owned, pass_shape};
use crate::text::{
    contains_text, count_from, find_text, lemma_find_contains, lemma_find_from, occurs_at,
};

verus! {

/// Two separators stand in `qn`, one behind the other.
pub open spec fn has_two_separators(qn: Seq<char>) -> bool {
    exists|i: int, j: int| #[trigger]
        occurs_at(qn, "::"@, i) && #[trigger] occurs_at(qn, "::"@, j) && i + 2 <= j
}

proof fn lemma_count_bound(qn: Seq<char>, i: int, j: int)
    requires
        0 <= i <= j,
        occurs_at(qn, "::"@, j),
    ensures
        count_from(qn, "::"@, i) >= 1,
    decreases j - i,
{
    reveal_strlit("::");
    if i < j && !occurs_at(qn, "::"@, i) {
        lemma_count_bound(qn, i + 1, j);
    }
}

proof fn lemma_count_one(qn: Seq<char>, i: int)
    requires
        0 <= i,
        count_from(qn, "::"@, i) >= 1,
    ensures
        exists|j: int| i <= j && occurs_at(qn, "::"@, j),
    decreases qn.len() - i,
{
    reveal_strlit("::");
    if i < qn.len() && !occurs_at(qn, "::"@, i) {
        lemma_count_one(qn, i + 1);
        let j = choose|j: int| i + 1 <= j && occurs_at(qn, "::"@, j);
        assert(i <= j && occurs_at(qn, "::"@, j));
    } else {
        assert(occurs_at(qn, "::"@, i));
    }
}

proof fn lemma_count_two(qn: Seq<char>, i: int, a: int, b: int)
    requires
        0 <= i <= a,
        a + 2 <= b,
        occurs_at(qn, "::"@, a),
        occurs_at(qn, "::"@, b),
    ensures
        count_from(qn, "::"@, i) >= 2,
    decreases a - i,
{
    reveal_strlit("::");
    if occurs_at(qn, "::"@, i) {
        lemma_count_bound(qn, i + 2, b);
    } else {
        lemma_count_two(qn, i + 1, a, b);
    }
}

proof fn lemma_two_there(qn: Seq<char>, i: int)
    requires
        0 <= i,
        count_from(qn, "::"@, i) >= 2,
    ensures
        has_two_separators(qn),
    decreases qn.len() - i,
{
    reveal_strlit("::");
    if occurs_at(qn, "::"@, i) {
        lemma_count_one(qn, i + 2);
        let j = choose|j: int| i + 2 <= j && occurs_at(qn, "::"@, j);
        assert(occurs_at(qn, "::"@, i) && occurs_at(qn, "::"@, j) && i + 2 <= j);
    } else {
        lemma_two_there(qn, i + 1);
    }
}

proof fn lemma_shape(qn: Seq<char>)
    ensures
        pass_shape(qn) <==> (if contains_text(qn, "::*"@) {
            exists|i: int| #[trigger] occurs_at(qn, "::*"@, i) && i + 3 < qn.len()
        } else {
            has_two_separators(qn)
        }),
{
    reveal_strlit("::*");
    reveal_strlit("::");
    lemma_find_from(qn, "::*"@, 0);
    lemma_find_contains(qn, "::*"@);
    match find_text(qn, "::*"@) {
        Some(i) => {
            assert(occurs_at(qn, "::*"@, i));
            if exists|k: int| #[trigger] occurs_at(qn, "::*"@, k) && k + 3 < qn.len() {
                let k = choose|k: int| #[trigger] occurs_at(qn, "::*"@, k) && k + 3 < qn.len();
                assert(i <= k);
            }
        },
        None => {
            if has_two_separators(qn) {
                let (a, b) = choose|a: int, b: int| #[trigger]
                    occurs_at(qn, "::"@, a) && #[trigger] occurs_at(qn, "::"@, b) && a + 2 <= b;
                lemma_count_two(qn, 0, a, b);
            }
            if count_from(qn, "::"@, 0) >= 2 {
                lemma_two_there(qn, 0);
            }
        },
    }
}

/// The pass takes a node for its own exactly when it is a live method or type that is marked
/// synthetic, and its qualified name has a star and something behind it after a separator,
/// or, without such a star, two separators.
pub proof fn law_own_nodes_are_told_by_kind_mark_and_name(g: GraphView, node: NodeId)
    ensures
        owned(g, node) <==> {
            &&& live(g.nodes, node) is Some
            &&& live(g.nodes, node)->0.kind == NodeKind::Method || live(g.nodes, node)->0.kind
                == NodeKind::Type
            &&& g.metadata.of(node).synthetic
            &&& g.qn(node) is Some
            &&& if contains_text(g.qn(node)->0, "::*"@) {
                exists|i: int| #[trigger]
                    occurs_at(g.qn(node)->0, "::*"@, i) && i + 3 < g.qn(node)->0.len()
            } else {
                has_two_separators(g.qn(node)->0)
            }
        },
{
    if g.qn(node) is Some {
        lemma_shape(g.qn(node)->0);
    }
}

/// The pass takes an edge for an implementation that it has added exactly when it is one,
/// comes from a live node of a Go file, and does not lead to what stands in for the type of
/// a type assertion.
pub proof fn law_added_implementations_are_told_by_file_and_target(g: GraphView, e: EdgeView)
    ensures
        emitted_implements(g, e) <==> {
            &&& e.kind == EdgeKind::Implements
            &&& live(g.nodes, e.source) is Some
            &&& live(g.nodes, e.source)->0.file.0 < g.files.files.len()
            &&& g.files.files[live(g.nodes, e.source)->0.file.0 as int].language == Some(
                Language::Go,
            )
            &&& !(g.qn(e.target) is Some && occurs_at(g.qn(e.target)->0, "<type:"@, 0))
        },
{
}

} // verus!
