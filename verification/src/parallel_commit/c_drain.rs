//! Draining what the C front end has staged for a chunk.
use vstd::prelude::*;

use crate::c_indirect::{
    LocalScopeIndex, PendingBinding, PendingBindingView, PendingCallsiteView,
    PendingIndirectCallsite, ScopeBindingView,
};
use crate::ids::{FileId, StringId};
use crate::lists::{copied_list, lemma_views_join, lemma_views_push, views, Copied};
use crate::parallel_commit::plan::{ChunkCommitPlan, FilePlan};
use crate::staging::{local_text_from, OpView, StagingGraph};

verus! {

/// A function whose address is taken, and the file that takes it.
#[derive(Clone, Debug, PartialEq, Eq)]
pub struct DeferredAddressTakenEntry {
    pub function_qualified_name: String,
    pub file_id: FileId,
}

/// Contents of a deferred entry.
pub struct DeferredView {
    pub function_qualified_name: Seq<char>,
    pub file_id: FileId,
}

impl View for DeferredAddressTakenEntry {
    type V = DeferredView;

    open spec fn view(&self) -> DeferredView {
        DeferredView {
            function_qualified_name: self.function_qualified_name@,
            file_id: self.file_id,
        }
    }
}

/// What the C front end has staged for a chunk, with the file each item comes from.
#[derive(Debug)]
pub struct PhaseCIndirectDrain {
    pub address_taken_names: Vec<DeferredAddressTakenEntry>,
    pub struct_field_signatures: Vec<(String, String, String)>,
    pub bindings: Vec<(FileId, PendingBinding)>,
    pub indirect_callsites: Vec<(FileId, PendingIndirectCallsite)>,
    pub local_scope_indices: Vec<(FileId, LocalScopeIndex)>,
}

/// Contents of a drain.
pub struct DrainView {
    pub address_taken_names: Seq<DeferredView>,
    pub struct_field_signatures: Seq<(Seq<char>, Seq<char>, Seq<char>)>,
    pub bindings: Seq<(FileId, PendingBindingView)>,
    pub indirect_callsites: Seq<(FileId, PendingCallsiteView)>,
    pub local_scope_indices: Seq<(FileId, Seq<ScopeBindingView>)>,
}

impl View for PhaseCIndirectDrain {
    type V = DrainView;

    open spec fn view(&self) -> DrainView {
        DrainView {
            address_taken_names: views(self.address_taken_names@),
            struct_field_signatures: views(self.struct_field_signatures@),
            bindings: views(self.bindings@),
            indirect_callsites: views(self.indirect_callsites@),
            local_scope_indices: views(self.local_scope_indices@),
        }
    }
}

impl DrainView {
    /// Nothing is drained.
    pub open spec fn none() -> DrainView {
        DrainView {
            address_taken_names: Seq::empty(),
            struct_field_signatures: Seq::empty(),
            bindings: Seq::empty(),
            indirect_callsites: Seq::empty(),
            local_scope_indices: Seq::empty(),
        }
    }

    /// This drain, and `other` behind it.
    pub open spec fn joined(self, other: DrainView) -> DrainView {
        DrainView {
            address_taken_names: self.address_taken_names + other.address_taken_names,
            struct_field_signatures: self.struct_field_signatures
                + other.struct_field_signatures,
            bindings: self.bindings + other.bindings,
            indirect_callsites: self.indirect_callsites + other.indirect_callsites,
            local_scope_indices: self.local_scope_indices + other.local_scope_indices,
        }
    }
}

/// Joining drains is associative, and a drain of nothing changes nothing; so chunks can
/// be accumulated in any grouping.
pub proof fn law_drain_join_is_a_monoid(a: DrainView, b: DrainView, c: DrainView)
    ensures
        a.joined(b).joined(c) == a.joined(b.joined(c)),
        a.joined(DrainView::none()) == a,
        DrainView::none().joined(a) == a,
{
    let l = a.joined(b).joined(c);
    let r = a.joined(b.joined(c));
    assert(l.address_taken_names =~= r.address_taken_names);
    assert(l.struct_field_signatures =~= r.struct_field_signatures);
    assert(l.bindings =~= r.bindings);
    assert(l.indirect_callsites =~= r.indirect_callsites);
    assert(l.local_scope_indices =~= r.local_scope_indices);
    let x = a.joined(DrainView::none());
    assert(x.address_taken_names =~= a.address_taken_names);
    assert(x.struct_field_signatures =~= a.struct_field_signatures);
    assert(x.bindings =~= a.bindings);
    assert(x.indirect_callsites =~= a.indirect_callsites);
    assert(x.local_scope_indices =~= a.local_scope_indices);
    let y = DrainView::none().joined(a);
    assert(y.address_taken_names =~= a.address_taken_names);
    assert(y.struct_field_signatures =~= a.struct_field_signatures);
    assert(y.bindings =~= a.bindings);
    assert(y.indirect_callsites =~= a.indirect_callsites);
    assert(y.local_scope_indices =~= a.local_scope_indices);
}

impl Default for PhaseCIndirectDrain {
    fn default() -> (r: PhaseCIndirectDrain)
        ensures
            r@ == DrainView::none(),
    {
        let r = PhaseCIndirectDrain {
            address_taken_names: Vec::new(),
            struct_field_signatures: Vec::new(),
            bindings: Vec::new(),
            indirect_callsites: Vec::new(),
            local_scope_indices: Vec::new(),
        };
        proof {
            assert(r@.address_taken_names =~= Seq::empty());
            assert(r@.struct_field_signatures =~= Seq::empty());
            assert(r@.bindings =~= Seq::empty());
            assert(r@.indirect_callsites =~= Seq::empty());
            assert(r@.local_scope_indices =~= Seq::empty());
        }
        r
    }
}

impl PhaseCIndirectDrain {
    /// Whether nothing is drained.
    pub fn is_empty(&self) -> (r: bool)
        ensures
            r == (self@ == DrainView::none()),
    {
        let r: bool = self.address_taken_names.len() == 0 && self.struct_field_signatures.len() == 0
            && self.bindings.len() == 0 && self.indirect_callsites.len() == 0
            && self.local_scope_indices.len() == 0;
        proof {
            assert(self@.address_taken_names.len() == self.address_taken_names@.len());
            assert(self@.struct_field_signatures.len() == self.struct_field_signatures@.len());
            assert(self@.bindings.len() == self.bindings@.len());
            assert(self@.indirect_callsites.len() == self.indirect_callsites@.len());
            assert(self@.local_scope_indices.len() == self.local_scope_indices@.len());
            if r {
                assert(self@.address_taken_names =~= Seq::empty());
                assert(self@.struct_field_signatures =~= Seq::empty());
                assert(self@.bindings =~= Seq::empty());
                assert(self@.indirect_callsites =~= Seq::empty());
                assert(self@.local_scope_indices =~= Seq::empty());
            }
        }
        r
    }

    /// Takes over everything that `other` holds, behind what is there.
    pub fn merge(&mut self, other: PhaseCIndirectDrain)
        ensures
            final(self)@ == old(self)@.joined(other@),
    {
        let mut other = other;
        proof {
            lemma_views_join(self.address_taken_names@, other.address_taken_names@);
            lemma_views_join(self.struct_field_signatures@, other.struct_field_signatures@);
            lemma_views_join(self.bindings@, other.bindings@);
            lemma_views_join(self.indirect_callsites@, other.indirect_callsites@);
            lemma_views_join(self.local_scope_indices@, other.local_scope_indices@);
        }
        self.address_taken_names.append(&mut other.address_taken_names);
        self.struct_field_signatures.append(&mut other.struct_field_signatures);
        self.bindings.append(&mut other.bindings);
        self.indirect_callsites.append(&mut other.indirect_callsites);
        self.local_scope_indices.append(&mut other.local_scope_indices);
    }
}

/// The functions that the first `n` of `names` name, each with `file`. A name that is
/// not staged is left out.
pub open spec fn deferred(ops: Seq<OpView>, names: Seq<StringId>, file: FileId, n: int) -> Seq<
    DeferredView,
>
    decreases n,
{
    if n <= 0 {
        Seq::empty()
    } else {
        let before = deferred(ops, names, file, n - 1);
        match local_text_from(ops, names[n - 1], 0) {
            Some(t) => before.push(DeferredView { function_qualified_name: t, file_id: file }),
            None => before,
        }
    }
}

/// Items with the file they come from.
pub open spec fn stamped<V>(file: FileId, items: Seq<V>) -> Seq<(FileId, V)> {
    Seq::new(items.len(), |i: int| (file, items[i]))
}

/// What one file contributes.
pub open spec fn file_drain(staging: StagingGraph, file: FileId) -> DrainView {
    match staging.c_indirect {
        Some(p) => DrainView {
            address_taken_names: deferred(
                staging.spec_ops(),
                p.pending_address_taken_names@,
                file,
                p.pending_address_taken_names@.len() as int,
            ),
            struct_field_signatures: views(p.pending_struct_field_signatures@),
            bindings: stamped(file, views(p.pending_bindings@)),
            indirect_callsites: stamped(file, views(p.pending_indirect_callsites@)),
            local_scope_indices: match p.local_scope_index {
                Some(s) => seq![(file, s@)],
                None => Seq::empty(),
            },
        },
        None => DrainView::none(),
    }
}

/// What the first `n` files contribute.
pub open spec fn drained(plans: Seq<FilePlan>, graphs: Seq<&StagingGraph>, n: int) -> DrainView
    decreases n,
{
    if n <= 0 {
        DrainView::none()
    } else {
        drained(plans, graphs, n - 1).joined(file_drain(*graphs[n - 1], plans[n - 1].file_id))
    }
}

/// Contents of an optional drain.
pub open spec fn drain_of(d: Option<PhaseCIndirectDrain>) -> Option<DrainView> {
    match d {
        Some(d) => Some(d@),
        None => None,
    }
}

/// Whether one of the first `n` files has something staged by the C front end.
pub open spec fn any_staged(graphs: Seq<&StagingGraph>, n: int) -> bool {
    exists|i: int| 0 <= i < n && (#[trigger] graphs[i]).c_indirect is Some
}

/// What a chunk contributes, if one of its files has something staged.
pub open spec fn chunk_drain(plans: Seq<FilePlan>, graphs: Seq<&StagingGraph>) -> Option<
    DrainView,
> {
    if any_staged(graphs, plans.len() as int) {
        Some(drained(plans, graphs, plans.len() as int))
    } else {
        None
    }
}

fn stamp<T: Copied>(items: &Vec<T>, file: FileId) -> (r: Vec<(FileId, T)>)
    ensures
        views(r@) == stamped(file, views(items@)),
{
    let mut out: Vec<(FileId, T)> = Vec::new();
    for i in 0..items.len()
        invariant
            views(out@) =~= stamped(file, views(items@)).take(i as int),
    {
        let item: (FileId, T) = (file, items[i].copied());
        proof {
            lemma_views_push(out@, item);
        }
        out.push(item);
        proof {
            assert(stamped(file, views(items@)).take(i + 1) =~= stamped(file, views(items@)).take(
                i as int,
            ).push((file, items@[i as int]@)));
        }
    }
    out
}

fn drain_names(staging: &StagingGraph, names: &Vec<StringId>, file: FileId) -> (r: Vec<
    DeferredAddressTakenEntry,
>)
    ensures
        views(r@) == deferred(staging.spec_ops(), names@, file, names@.len() as int),
{
    let mut out: Vec<DeferredAddressTakenEntry> = Vec::new();
    for i in 0..names.len()
        invariant
            views(out@) =~= deferred(staging.spec_ops(), names@, file, i as int),
    {
        match staging.resolve_local_string(names[i]) {
            Some(name) => {
                let entry = DeferredAddressTakenEntry {
                    function_qualified_name: name,
                    file_id: file,
                };
                proof {
                    lemma_views_push(out@, entry);
                }
                out.push(entry);
            },
            None => {},
        }
    }
    out
}

fn drain_file(staging: &StagingGraph, file: FileId) -> (r: PhaseCIndirectDrain)
    ensures
        r@ == file_drain(*staging, file),
{
    let mut drain = PhaseCIndirectDrain::default();
    match staging.c_indirect() {
        Some(payload) => {
            drain.address_taken_names = drain_names(
                staging,
                &payload.pending_address_taken_names,
                file,
            );
            drain.struct_field_signatures = copied_list(&payload.pending_struct_field_signatures);
            drain.bindings = stamp(&payload.pending_bindings, file);
            drain.indirect_callsites = stamp(&payload.pending_indirect_callsites, file);
            match &payload.local_scope_index {
                Some(index) => {
                    let item: (FileId, LocalScopeIndex) = (file, index.copied());
                    proof {
                        lemma_views_push(drain.local_scope_indices@, item);
                    }
                    drain.local_scope_indices.push(item);
                    proof {
                        assert(drain@.local_scope_indices =~= seq![(file, index@)]);
                    }
                },
                None => {},
            }
        },
        None => {},
    }
    drain
}

/// What the C front end has staged for the chunk, if it has staged anything for one of
/// its files.
pub fn collect_c_indirect_drain(plan: &ChunkCommitPlan, staging_graphs: &[&StagingGraph]) -> (r: Option<
    PhaseCIndirectDrain,
>)
    requires
        plan.file_plans@.len() == staging_graphs@.len(),
    ensures
        drain_of(r) == chunk_drain(plan.file_plans@, staging_graphs@),
{
    let mut drain = PhaseCIndirectDrain::default();
    let mut staged: bool = false;
    for i in 0..plan.file_plans.len()
        invariant
            plan.file_plans@.len() == staging_graphs@.len(),
            drain@ == drained(plan.file_plans@, staging_graphs@, i as int),
            staged == any_staged(staging_graphs@, i as int),
    {
        if staging_graphs[i].c_indirect.is_some() {
            assert(staging_graphs@[i as int].c_indirect is Some);
            staged = true;
        }
        drain.merge(drain_file(staging_graphs[i], plan.file_plans[i].file_id));
    }
    if staged {
        Some(drain)
    } else {
        None
    }
}

} // verus!
