//! Resolving calls through C function pointers.
//!
//! Every such call has a stub edge, which names the field or the variable that is
//! called. Where the functions that can be meant are few, one edge to each of them takes
//! the place of the stub; otherwise the stub stays.
use vstd::prelude::*;

use crate::arena::live;
use crate::c_indirect::{
    declared_type_at, field_signature_from, fn_signature_from, scope_from, BindingEntry,
    CIndirectSideTables, CallsiteView, FieldKey, FnSignature, IndirectCallsite, IndirectShape,
    ShapeView, TablesView,
};
use crate::edges::{copy_spans, EdgeView, StoreView};
use crate::files::has_node;
use crate::graph::{CodeGraph, GraphView};
use crate::ids::{FileId, NodeId, Span, StringId};
use crate::kinds::{EdgeKind, ResolvedVia};
use crate::metadata::MetadataView;
use crate::strings::text_of;
use crate::text::{
    chars_of, is_white, is_white_char, same_text, string_of, strip_prefix_str, sub_chars,
    trim_chars, trim_text, without_prefix,
};

pub mod laws;

verus! {

/// Most candidates that a call is resolved to.
pub const CAP: usize = 4;

/// What one run of the pass has done, counted by callsite.
#[derive(Debug, Clone, Copy, PartialEq, Eq, Structural)]
pub struct Pass5bStats {
    /// Resolved by what is bound to the field.
    pub binding_resolved: u64,
    /// Resolved by signature.
    pub typematch_resolved: u64,
    /// Left alone because there are too many candidates.
    pub cap_exceeded: u64,
    /// Left alone because there is no candidate.
    pub stub_fallback: u64,
}

impl Default for Pass5bStats {
    fn default() -> (r: Pass5bStats)
        ensures
            r == (Pass5bStats {
                binding_resolved: 0,
                typematch_resolved: 0,
                cap_exceeded: 0,
                stub_fallback: 0,
            }),
    {
        Pass5bStats {
            binding_resolved: 0,
            typematch_resolved: 0,
            cap_exceeded: 0,
            stub_fallback: 0,
        }
    }
}

impl Pass5bStats {
    /// Callsites that were resolved.
    pub fn total_resolved(&self) -> (r: u64)
        requires
            self.binding_resolved + self.typematch_resolved <= u64::MAX,
        ensures
            r == self.binding_resolved + self.typematch_resolved,
    {
        self.binding_resolved + self.typematch_resolved
    }
}

/// `s` without stars and white space at its end.
pub open spec fn without_stars(s: Seq<char>) -> Seq<char>
    decreases s.len(),
{
    if s.len() > 0 && (s[s.len() - 1] == '*' || is_white(s[s.len() - 1])) {
        without_stars(s.subrange(0, s.len() - 1))
    } else {
        s
    }
}

/// `s` without a leading `struct`, `union` or `enum`.
pub open spec fn without_keyword(s: Seq<char>) -> Seq<char> {
    if let Some(rest) = without_prefix(s, "struct "@) {
        rest
    } else if let Some(rest) = without_prefix(s, "union "@) {
        rest
    } else if let Some(rest) = without_prefix(s, "enum "@) {
        rest
    } else {
        s
    }
}

/// The bare tag of a type as it is written in a declaration.
pub open spec fn bare_tag(token: Seq<char>) -> Seq<char> {
    without_stars(trim_text(without_keyword(trim_text(token))))
}

fn cut_stars(s: &Vec<char>) -> (r: Vec<char>)
    ensures
        r@ == without_stars(s@),
{
    let mut hi: usize = s.len();
    proof {
        assert(s@.subrange(0, hi as int) =~= s@);
    }
    while hi > 0 && (s[hi - 1] == '*' || is_white_char(s[hi - 1]))
        invariant
            hi <= s@.len(),
            without_stars(s@) == without_stars(s@.subrange(0, hi as int)),
        decreases hi,
    {
        proof {
            assert(s@.subrange(0, hi as int).subrange(0, hi - 1) =~= s@.subrange(0, hi - 1));
        }
        hi = hi - 1;
    }
    sub_chars(s, 0, hi)
}

fn cut_keyword<'a>(s: &'a str) -> (r: &'a str)
    ensures
        r@ == without_keyword(s@),
{
    if let Some(rest) = strip_prefix_str(s, "struct ") {
        rest
    } else if let Some(rest) = strip_prefix_str(s, "union ") {
        rest
    } else if let Some(rest) = strip_prefix_str(s, "enum ") {
        rest
    } else {
        s
    }
}

/// The bare tag of a type as it is written in a declaration.
pub fn strip_struct_keyword_and_pointer(type_token: &str) -> (r: String)
    ensures
        r@ == bare_tag(type_token@),
{
    let token = chars_of(type_token);
    let trimmed = string_of(&trim_chars(&token));
    let rest = chars_of(cut_keyword(trimmed.as_str()));
    let tag = cut_stars(&trim_chars(&rest));
    string_of(&tag)
}

/// The signatures of functions after those that the first `n` bindings imply: a function
/// that is bound to a field has the signature of the field. One that is known stays.
pub open spec fn seeded(t: TablesView, n: int) -> Seq<FnSignature>
    decreases n,
{
    if n <= 0 {
        t.fn_signature
    } else {
        let before = seeded(t, n - 1);
        let b = t.bindings_by_field[n - 1];
        match field_signature_from(t.struct_field_fnptr, b.field, 0) {
            Some(sig) => if fn_signature_from(before, b.target_fn, 0) is None {
                before.push(FnSignature { node: b.target_fn, signature: sig })
            } else {
                before
            },
            None => before,
        }
    }
}

/// The tables with the signatures that all bindings imply.
pub open spec fn seeded_tables(t: TablesView) -> TablesView {
    TablesView { fn_signature: seeded(t, t.bindings_by_field.len() as int), ..t }
}

/// A function that has no signature is not listed.
proof fn lemma_not_listed(s: Seq<FnSignature>, node: NodeId, i: int)
    requires
        0 <= i,
        fn_signature_from(s, node, i) is None,
    ensures
        forall|j: int| i <= j < s.len() ==> (#[trigger] s[j]).node != node,
    decreases s.len() - i,
{
    if i < s.len() {
        lemma_not_listed(s, node, i + 1);
    }
}

proof fn lemma_seeded_once(t: TablesView, n: int)
    requires
        t.wf(),
    ensures
        (TablesView { fn_signature: seeded(t, n), ..t }).wf(),
    decreases n,
{
    if n > 0 {
        lemma_seeded_once(t, n - 1);
        let before = TablesView { fn_signature: seeded(t, n - 1), ..t };
        let b = t.bindings_by_field[n - 1];
        assert(before.wf());
        if fn_signature_from(before.fn_signature, b.target_fn, 0) is None {
            lemma_not_listed(before.fn_signature, b.target_fn, 0);
        }
    }
}

/// A function is listed with one signature, so it is a candidate of a call once at most.
pub proof fn law_candidates_are_distinct(t: TablesView, metadata: MetadataView, sig: StringId, n: int)
    requires
        t.wf(),
        0 <= n <= t.fn_signature.len(),
    ensures
        taken_with(t.fn_signature, metadata, sig, n).no_duplicates(),
        forall|i: int|
            0 <= i < taken_with(t.fn_signature, metadata, sig, n).len() ==> exists|k: int|
                0 <= k < n && (#[trigger] t.fn_signature[k]).node == #[trigger] taken_with(
                    t.fn_signature,
                    metadata,
                    sig,
                    n,
                )[i],
    decreases n,
{
    if n > 0 {
        law_candidates_are_distinct(t, metadata, sig, n - 1);
        let before = taken_with(t.fn_signature, metadata, sig, n - 1);
        let all = taken_with(t.fn_signature, metadata, sig, n);
        let last = t.fn_signature[n - 1].node;
        assert forall|i: int| 0 <= i < all.len() implies exists|k: int|
            0 <= k < n && (#[trigger] t.fn_signature[k]).node == #[trigger] all[i] by {
            if i < before.len() {
                assert(all[i] == before[i]);
                let k = choose|k: int|
                    0 <= k < n - 1 && (#[trigger] t.fn_signature[k]).node == before[i];
                assert(t.fn_signature[k].node == all[i]);
            } else {
                assert(t.fn_signature[n - 1].node == all[i]);
            }
        }
        assert forall|i: int, j: int| 0 <= i < j < all.len() implies all[i] != all[j] by {
            assert(all[i] == before[i]);
            if j == before.len() {
                let k = choose|k: int|
                    0 <= k < n - 1 && (#[trigger] t.fn_signature[k]).node == before[i];
                assert(t.fn_signature[k].node != t.fn_signature[n - 1].node);
            } else {
                assert(all[j] == before[j]);
            }
        }
    }
}

fn seed_fn_signature_from_bindings(tables: &mut CIndirectSideTables)
    requires
        old(tables)@.wf(),
    ensures
        final(tables)@.wf(),
        final(tables)@ == seeded_tables(old(tables)@),
{
    let ghost t = tables@;
    let n: usize = tables.bindings_by_field.len();
    for i in 0..n
        invariant
            n == t.bindings_by_field.len(),
            tables.bindings_by_field@ == t.bindings_by_field,
            tables@ == (TablesView { fn_signature: seeded(t, i as int), ..t }),
    {
        let b: BindingEntry = tables.bindings_by_field[i];
        match tables.field_signature(b.field) {
            Some(signature) => {
                if tables.signature_of(b.target_fn).is_none() {
                    tables.fn_signature.push(FnSignature { node: b.target_fn, signature });
                }
            },
            None => {},
        }
    }
    proof {
        lemma_seeded_once(t, n as int);
    }
}

/// The functions that the first `n` bindings bind to field `key`.
pub open spec fn bound(bindings: Seq<BindingEntry>, key: FieldKey, n: int) -> Seq<NodeId>
    decreases n,
{
    if n <= 0 {
        Seq::empty()
    } else {
        let before = bound(bindings, key, n - 1);
        if bindings[n - 1].field == key && !before.contains(bindings[n - 1].target_fn) {
            before.push(bindings[n - 1].target_fn)
        } else {
            before
        }
    }
}

/// The functions among the first `n` with signature `sig` whose address is taken.
pub open spec fn taken_with(
    sigs: Seq<FnSignature>,
    metadata: MetadataView,
    sig: StringId,
    n: int,
) -> Seq<NodeId>
    decreases n,
{
    if n <= 0 {
        Seq::empty()
    } else {
        let before = taken_with(sigs, metadata, sig, n - 1);
        if sigs[n - 1].signature == sig && metadata.of(sigs[n - 1].node).address_taken {
            before.push(sigs[n - 1].node)
        } else {
            before
        }
    }
}

/// What a call can be resolved to.
pub enum OutcomeView {
    BindingPlane(Seq<NodeId>),
    TypeMatch(Seq<NodeId>),
    CapExceeded,
    FallbackToStub,
}

/// What the functions with signature `sig` make of a call.
pub open spec fn by_signature(g: GraphView, t: TablesView, sig: Option<StringId>) -> OutcomeView {
    match sig {
        Some(sig) => {
            let found = taken_with(t.fn_signature, g.metadata, sig, t.fn_signature.len() as int);
            if found.len() == 0 {
                OutcomeView::FallbackToStub
            } else if found.len() > CAP {
                OutcomeView::CapExceeded
            } else {
                OutcomeView::TypeMatch(found)
            }
        },
        None => OutcomeView::FallbackToStub,
    }
}

/// The type with which `name` is declared where the call stands.
pub open spec fn type_at_call(t: TablesView, c: CallsiteView, name: Seq<char>) -> Option<Seq<char>> {
    match scope_from(t.local_scope_indices, c.file_id, 0) {
        Some(i) => declared_type_at(t.local_scope_indices[i].index, name, c.use_span.0),
        None => None,
    }
}

/// What a call is resolved to. The functions bound to the called field come first; where
/// there are none, or too many, those with the signature of the field or variable.
pub open spec fn resolution(g: GraphView, t: TablesView, c: CallsiteView) -> OutcomeView {
    match c.shape {
        ShapeView::FieldExpr { receiver_name, field_name } => match type_at_call(
            t,
            c,
            receiver_name,
        ) {
            Some(token) => match (g.strings.get(bare_tag(token)), g.strings.get(field_name)) {
                (Some(tag), Some(field)) => {
                    let key = FieldKey { struct_tag: tag, field_name: field };
                    let found = bound(
                        t.bindings_by_field,
                        key,
                        t.bindings_by_field.len() as int,
                    );
                    if 0 < found.len() <= CAP {
                        OutcomeView::BindingPlane(found)
                    } else {
                        by_signature(
                            g,
                            t,
                            field_signature_from(t.struct_field_fnptr, key, 0),
                        )
                    }
                },
                _ => OutcomeView::FallbackToStub,
            },
            None => OutcomeView::FallbackToStub,
        },
        ShapeView::PointerExpr { var_name } => match type_at_call(t, c, var_name) {
            Some(token) => by_signature(g, t, g.strings.get(token)),
            None => OutcomeView::FallbackToStub,
        },
    }
}

/// What a call can be resolved to.
pub enum ResolutionOutcome {
    BindingPlane(Vec<NodeId>),
    TypeMatch(Vec<NodeId>),
    CapExceeded,
    FallbackToStub,
}

impl View for ResolutionOutcome {
    type V = OutcomeView;

    open spec fn view(&self) -> OutcomeView {
        match self {
            ResolutionOutcome::BindingPlane(v) => OutcomeView::BindingPlane(v@),
            ResolutionOutcome::TypeMatch(v) => OutcomeView::TypeMatch(v@),
            ResolutionOutcome::CapExceeded => OutcomeView::CapExceeded,
            ResolutionOutcome::FallbackToStub => OutcomeView::FallbackToStub,
        }
    }
}

fn find_bound(tables: &CIndirectSideTables, key: FieldKey) -> (r: Vec<NodeId>)
    ensures
        r@ == bound(
            tables@.bindings_by_field,
            key,
            tables@.bindings_by_field.len() as int,
        ),
{
    let mut out: Vec<NodeId> = Vec::new();
    for i in 0..tables.bindings_by_field.len()
        invariant
            out@ == bound(tables@.bindings_by_field, key, i as int),
    {
        let b: BindingEntry = tables.bindings_by_field[i];
        if b.field == key && !has_node(&out, b.target_fn) {
            out.push(b.target_fn);
        }
    }
    out
}

fn find_taken_with(graph: &CodeGraph, tables: &CIndirectSideTables, sig: StringId) -> (r: Vec<NodeId>)
    requires
        graph.wf(),
    ensures
        r@ == taken_with(
            tables@.fn_signature,
            graph@.metadata,
            sig,
            tables@.fn_signature.len() as int,
        ),
{
    let mut out: Vec<NodeId> = Vec::new();
    for i in 0..tables.fn_signature.len()
        invariant
            graph.wf(),
            out@ == taken_with(tables@.fn_signature, graph@.metadata, sig, i as int),
    {
        let s: FnSignature = tables.fn_signature[i];
        if s.signature == sig && graph.macro_metadata.is_address_taken(s.node) {
            out.push(s.node);
        }
    }
    out
}

fn match_signature(graph: &CodeGraph, tables: &CIndirectSideTables, sig: Option<StringId>) -> (r:
    ResolutionOutcome)
    requires
        graph.wf(),
    ensures
        r@ == by_signature(graph@, tables@, sig),
{
    match sig {
        Some(sig) => {
            let found = find_taken_with(graph, tables, sig);
            if found.len() == 0 {
                ResolutionOutcome::FallbackToStub
            } else if found.len() > CAP {
                ResolutionOutcome::CapExceeded
            } else {
                ResolutionOutcome::TypeMatch(found)
            }
        },
        None => ResolutionOutcome::FallbackToStub,
    }
}

fn find_type_at_call(tables: &CIndirectSideTables, callsite: &IndirectCallsite, name: &str) -> (r: Option<
    String,
>)
    ensures
        text_of(r) == type_at_call(tables@, callsite@, name@),
{
    match tables.scope_index_for(callsite.file_id) {
        Some(scope) => scope.resolve_type(name, callsite.use_span.0),
        None => None,
    }
}

fn resolve_one(graph: &CodeGraph, tables: &CIndirectSideTables, callsite: &IndirectCallsite) -> (r:
    ResolutionOutcome)
    requires
        graph.wf(),
    ensures
        r@ == resolution(graph@, tables@, callsite@),
{
    match &callsite.shape {
        IndirectShape::FieldExpr { receiver_name, field_name } => {
            let token = match find_type_at_call(tables, callsite, receiver_name.as_str()) {
                Some(t) => t,
                None => {
                    return ResolutionOutcome::FallbackToStub;
                },
            };
            let tag = strip_struct_keyword_and_pointer(token.as_str());
            let struct_tag = match graph.strings.get(tag.as_str()) {
                Some(id) => id,
                None => {
                    return ResolutionOutcome::FallbackToStub;
                },
            };
            let field = match graph.strings.get(field_name.as_str()) {
                Some(id) => id,
                None => {
                    return ResolutionOutcome::FallbackToStub;
                },
            };
            let key = FieldKey { struct_tag, field_name: field };
            let found = find_bound(tables, key);
            if found.len() > 0 && found.len() <= CAP {
                return ResolutionOutcome::BindingPlane(found);
            }
            match_signature(graph, tables, tables.field_signature(key))
        },
        IndirectShape::PointerExpr { var_name } => {
            match find_type_at_call(tables, callsite, var_name.as_str()) {
                Some(token) => match_signature(graph, tables, graph.strings.get(token.as_str())),
                None => ResolutionOutcome::FallbackToStub,
            }
        },
    }
}

/// An argument count as edges keep it.
pub open spec fn narrow_count(n: u32) -> u8 {
    if n <= 255 {
        n as u8
    } else {
        255
    }
}

/// What the stub of a call names.
pub open spec fn stub_name(shape: ShapeView) -> Seq<char> {
    match shape {
        ShapeView::FieldExpr { receiver_name, field_name } => field_name,
        ShapeView::PointerExpr { var_name } => var_name,
    }
}

/// The name of `node`.
pub open spec fn plain_name(g: GraphView, node: NodeId) -> Option<Seq<char>> {
    match live(g.nodes, node) {
        Some(e) => g.strings.resolve(e.name),
        None => None,
    }
}

/// `e` is the stub of the call: a direct call of the same shape from the caller to a node
/// with the name of the called field or variable.
pub open spec fn is_stub(g: GraphView, e: EdgeView, c: CallsiteView) -> bool {
    &&& e.source == c.caller
    &&& e.kind == EdgeKind::Calls {
        argument_count: narrow_count(c.argument_count),
        is_async: c.is_async,
        resolved_via: ResolvedVia::Direct,
    }
    &&& plain_name(g, e.target) == Some(stub_name(c.shape))
}

/// Position of the first stub of the call from edge `i` on.
pub open spec fn stub_from(g: GraphView, edges: Seq<EdgeView>, c: CallsiteView, i: int) -> Option<int>
    decreases edges.len() - i,
{
    if i < 0 || i >= edges.len() {
        None
    } else if is_stub(g, edges[i], c) {
        Some(i)
    } else {
        stub_from(g, edges, c, i + 1)
    }
}

/// What is to be done about a call.
pub enum ActionView {
    /// Edges to the candidates take the place of the stub.
    Rewrite {
        caller: NodeId,
        stub_target: NodeId,
        stub_kind: EdgeKind,
        stub_file: FileId,
        stub_spans: Seq<Span>,
        new_kind: EdgeKind,
        candidates: Seq<NodeId>,
    },
    /// The caller is marked.
    MarkPromiscuous { caller: NodeId },
    /// Nothing.
    Noop,
}

/// Edges to the candidates take the place of the stub of the call, if it has one.
pub open spec fn rewrite(
    g: GraphView,
    c: CallsiteView,
    candidates: Seq<NodeId>,
    via: ResolvedVia,
) -> ActionView {
    match stub_from(g, g.edges.edges, c, 0) {
        Some(i) => {
            let stub = g.edges.edges[i];
            ActionView::Rewrite {
                caller: c.caller,
                stub_target: stub.target,
                stub_kind: stub.kind,
                stub_file: stub.file,
                stub_spans: stub.spans,
                new_kind: EdgeKind::Calls {
                    argument_count: narrow_count(c.argument_count),
                    is_async: c.is_async,
                    resolved_via: via,
                },
                candidates,
            }
        },
        None => ActionView::Noop,
    }
}

/// What is to be done about a call.
pub open spec fn action(g: GraphView, t: TablesView, c: CallsiteView) -> ActionView {
    match resolution(g, t, c) {
        OutcomeView::BindingPlane(targets) => rewrite(g, c, targets, ResolvedVia::BindingPlane),
        OutcomeView::TypeMatch(targets) => rewrite(g, c, targets, ResolvedVia::TypeMatch),
        OutcomeView::CapExceeded => ActionView::MarkPromiscuous { caller: c.caller },
        OutcomeView::FallbackToStub => ActionView::Noop,
    }
}

/// The store after edges to the first `n` candidates were added.
pub open spec fn with_candidates(
    store: StoreView,
    caller: NodeId,
    candidates: Seq<NodeId>,
    kind: EdgeKind,
    file: FileId,
    spans: Seq<Span>,
    n: int,
) -> StoreView
    decreases n,
{
    if n <= 0 {
        store
    } else {
        with_candidates(store, caller, candidates, kind, file, spans, n - 1).added(
            caller,
            candidates[n - 1],
            kind,
            file,
            spans,
        )
    }
}

/// The graph after an action.
pub open spec fn acted(g: GraphView, a: ActionView) -> GraphView {
    match a {
        ActionView::Rewrite {
            caller,
            stub_target,
            stub_kind,
            stub_file,
            stub_spans,
            new_kind,
            candidates,
        } => GraphView {
            edges: with_candidates(
                g.edges.removed(caller, stub_target, stub_kind, stub_file),
                caller,
                candidates,
                new_kind,
                stub_file,
                stub_spans,
                candidates.len() as int,
            ),
            ..g
        },
        ActionView::MarkPromiscuous { caller } => GraphView {
            metadata: g.metadata.marked_promiscuous(caller),
            ..g
        },
        ActionView::Noop => g,
    }
}

/// The graph `now` after the actions that `g` calls for at its first `n` callsites.
pub open spec fn acted_all(g: GraphView, t: TablesView, now: GraphView, n: int) -> GraphView
    decreases n,
{
    if n <= 0 {
        now
    } else {
        acted(acted_all(g, t, now, n - 1), action(g, t, t.pending_callsites[n - 1]))
    }
}

/// The graph with its calls through C function pointers resolved. All actions are decided
/// before the first is taken.
pub open spec fn indirect_resolved(g: GraphView) -> GraphView {
    match g.c_indirect {
        Some(t) => {
            let seeded = seeded_tables(t);
            let start = GraphView { c_indirect: Some(seeded), ..g };
            acted_all(start, seeded, start, seeded.pending_callsites.len() as int)
        },
        None => g,
    }
}

/// What the pass counts on the first `n` callsites.
pub open spec fn pass5b_counts(g: GraphView, t: TablesView, n: int) -> Pass5bStats
    decreases n,
{
    if n <= 0 {
        Pass5bStats {
            binding_resolved: 0,
            typematch_resolved: 0,
            cap_exceeded: 0,
            stub_fallback: 0,
        }
    } else {
        let s = pass5b_counts(g, t, n - 1);
        match resolution(g, t, t.pending_callsites[n - 1]) {
            OutcomeView::BindingPlane(_) => Pass5bStats {
                binding_resolved: (s.binding_resolved + 1) as u64,
                ..s
            },
            OutcomeView::TypeMatch(_) => Pass5bStats {
                typematch_resolved: (s.typematch_resolved + 1) as u64,
                ..s
            },
            OutcomeView::CapExceeded => Pass5bStats {
                cap_exceeded: (s.cap_exceeded + 1) as u64,
                ..s
            },
            OutcomeView::FallbackToStub => Pass5bStats {
                stub_fallback: (s.stub_fallback + 1) as u64,
                ..s
            },
        }
    }
}

/// What the pass counts.
pub open spec fn all_pass5b_counts(g: GraphView) -> Pass5bStats {
    match g.c_indirect {
        Some(t) => {
            let seeded = seeded_tables(t);
            pass5b_counts(
                GraphView { c_indirect: Some(seeded), ..g },
                seeded,
                seeded.pending_callsites.len() as int,
            )
        },
        None => Pass5bStats {
            binding_resolved: 0,
            typematch_resolved: 0,
            cap_exceeded: 0,
            stub_fallback: 0,
        },
    }
}

/// Every callsite is counted once.
pub proof fn law_pass5b_counts_every_callsite(g: GraphView, t: TablesView, n: int)
    requires
        0 <= n <= u64::MAX,
    ensures
        ({
            let s = pass5b_counts(g, t, n);
            s.binding_resolved + s.typematch_resolved + s.cap_exceeded + s.stub_fallback == n
        }),
    decreases n,
{
    if n > 0 {
        law_pass5b_counts_every_callsite(g, t, n - 1);
    }
}

/// What is to be done about a call.
pub enum PlannedAction {
    Rewrite {
        caller: NodeId,
        stub_target: NodeId,
        stub_kind: EdgeKind,
        stub_file: FileId,
        stub_spans: Vec<Span>,
        new_kind: EdgeKind,
        candidates: Vec<NodeId>,
    },
    MarkPromiscuous { caller: NodeId },
    Noop,
}

impl View for PlannedAction {
    type V = ActionView;

    open spec fn view(&self) -> ActionView {
        match self {
            PlannedAction::Rewrite {
                caller,
                stub_target,
                stub_kind,
                stub_file,
                stub_spans,
                new_kind,
                candidates,
            } => ActionView::Rewrite {
                caller: *caller,
                stub_target: *stub_target,
                stub_kind: *stub_kind,
                stub_file: *stub_file,
                stub_spans: stub_spans@,
                new_kind: *new_kind,
                candidates: candidates@,
            },
            PlannedAction::MarkPromiscuous { caller } => ActionView::MarkPromiscuous {
                caller: *caller,
            },
            PlannedAction::Noop => ActionView::Noop,
        }
    }
}

fn apply_planned_action(graph: &mut CodeGraph, planned: &PlannedAction)
    requires
        old(graph).wf(),
    ensures
        final(graph).wf(),
        final(graph)@ == acted(old(graph)@, planned@),
{
    let ghost g = graph@;
    match planned {
        PlannedAction::Rewrite {
            caller,
            stub_target,
            stub_kind,
            stub_file,
            stub_spans,
            new_kind,
            candidates,
        } => {
            graph.edges.remove_edge(*caller, *stub_target, stub_kind, *stub_file);
            let ghost store = graph@.edges;
            for i in 0..candidates.len()
                invariant
                    graph.wf(),
                    graph@ == (GraphView {
                        edges: with_candidates(
                            store,
                            *caller,
                            candidates@,
                            *new_kind,
                            *stub_file,
                            stub_spans@,
                            i as int,
                        ),
                        ..g
                    }),
            {
                graph.edges.add_edge_with_spans(
                    *caller,
                    candidates[i],
                    new_kind.clone(),
                    *stub_file,
                    copy_spans(stub_spans),
                );
            }
        },
        PlannedAction::MarkPromiscuous { caller } => {
            graph.macro_metadata.mark_callsite_promiscuous(*caller);
        },
        PlannedAction::Noop => {},
    }
}

fn has_plain_name(graph: &CodeGraph, node: NodeId, name: &str) -> (r: bool)
    ensures
        r == (plain_name(graph@, node) == Some(name@)),
{
    match graph.nodes.get(node) {
        Some(e) => match graph.strings.resolve(e.name) {
            Some(text) => same_text(text.as_str(), name),
            None => false,
        },
        None => false,
    }
}

fn find_stub_name(shape: &IndirectShape) -> (r: &str)
    ensures
        r@ == stub_name(shape@),
{
    match shape {
        IndirectShape::FieldExpr { receiver_name, field_name } => field_name.as_str(),
        IndirectShape::PointerExpr { var_name } => var_name.as_str(),
    }
}

fn build_rewrite_action(
    graph: &CodeGraph,
    callsite: &IndirectCallsite,
    candidates: Vec<NodeId>,
    via: ResolvedVia,
) -> (r: PlannedAction)
    ensures
        r@ == rewrite(graph@, callsite@, candidates@, via),
{
    let name: &str = find_stub_name(&callsite.shape);
    let count: u8 = if callsite.argument_count <= 255 {
        callsite.argument_count as u8
    } else {
        255
    };
    let ghost all = graph@.edges.edges;
    for i in 0..graph.edges.edges.len()
        invariant
            all == graph@.edges.edges,
            name@ == stub_name(callsite@.shape),
            count == narrow_count(callsite.argument_count),
            stub_from(graph@, all, callsite@, 0) == stub_from(graph@, all, callsite@, i as int),
    {
        let e = &graph.edges.edges[i];
        assert(all[i as int] == e@);
        let same_shape: bool = match &e.kind {
            EdgeKind::Calls { argument_count, is_async, resolved_via } => *argument_count == count
                && *is_async == callsite.is_async && *resolved_via == ResolvedVia::Direct,
            _ => false,
        };
        if e.source == callsite.caller && same_shape && has_plain_name(graph, e.target, name) {
            return PlannedAction::Rewrite {
                caller: callsite.caller,
                stub_target: e.target,
                stub_kind: e.kind.clone(),
                stub_file: e.file,
                stub_spans: copy_spans(&e.spans),
                new_kind: EdgeKind::Calls {
                    argument_count: count,
                    is_async: callsite.is_async,
                    resolved_via: via,
                },
                candidates,
            };
        }
    }
    PlannedAction::Noop
}

fn plan_callsite(
    graph: &CodeGraph,
    tables: &CIndirectSideTables,
    callsite: &IndirectCallsite,
    stats: &mut Pass5bStats,
) -> (r: PlannedAction)
    requires
        graph.wf(),
        old(stats).binding_resolved < u64::MAX,
        old(stats).typematch_resolved < u64::MAX,
        old(stats).cap_exceeded < u64::MAX,
        old(stats).stub_fallback < u64::MAX,
    ensures
        r@ == action(graph@, tables@, callsite@),
        match resolution(graph@, tables@, callsite@) {
            OutcomeView::BindingPlane(_) => *final(stats) == (Pass5bStats {
                binding_resolved: (old(stats).binding_resolved + 1) as u64,
                ..*old(stats)
            }),
            OutcomeView::TypeMatch(_) => *final(stats) == (Pass5bStats {
                typematch_resolved: (old(stats).typematch_resolved + 1) as u64,
                ..*old(stats)
            }),
            OutcomeView::CapExceeded => *final(stats) == (Pass5bStats {
                cap_exceeded: (old(stats).cap_exceeded + 1) as u64,
                ..*old(stats)
            }),
            OutcomeView::FallbackToStub => *final(stats) == (Pass5bStats {
                stub_fallback: (old(stats).stub_fallback + 1) as u64,
                ..*old(stats)
            }),
        },
{
    match resolve_one(graph, tables, callsite) {
        ResolutionOutcome::BindingPlane(targets) => {
            stats.binding_resolved = stats.binding_resolved + 1;
            build_rewrite_action(graph, callsite, targets, ResolvedVia::BindingPlane)
        },
        ResolutionOutcome::TypeMatch(targets) => {
            stats.typematch_resolved = stats.typematch_resolved + 1;
            build_rewrite_action(graph, callsite, targets, ResolvedVia::TypeMatch)
        },
        ResolutionOutcome::CapExceeded => {
            stats.cap_exceeded = stats.cap_exceeded + 1;
            PlannedAction::MarkPromiscuous { caller: callsite.caller }
        },
        ResolutionOutcome::FallbackToStub => {
            stats.stub_fallback = stats.stub_fallback + 1;
            PlannedAction::Noop
        },
    }
}

fn plan_callsites(graph: &CodeGraph, tables: &CIndirectSideTables, stats: &mut Pass5bStats) -> (r:
    Vec<PlannedAction>)
    requires
        graph.wf(),
        *old(stats) == pass5b_counts(graph@, tables@, 0),
    ensures
        r@.len() == tables@.pending_callsites.len(),
        forall|i: int|
            0 <= i < r@.len() ==> (#[trigger] r@[i])@ == action(
                graph@,
                tables@,
                tables@.pending_callsites[i],
            ),
        *final(stats) == pass5b_counts(
            graph@,
            tables@,
            tables@.pending_callsites.len() as int,
        ),
{
    let mut out: Vec<PlannedAction> = Vec::new();
    let ghost t = tables@;
    for i in 0..tables.pending_callsites.len()
        invariant
            graph.wf(),
            t == tables@,
            out@.len() == i,
            forall|j: int|
                0 <= j < i ==> (#[trigger] out@[j])@ == action(
                    graph@,
                    t,
                    t.pending_callsites[j],
                ),
            *stats == pass5b_counts(graph@, t, i as int),
    {
        assert(t.pending_callsites[i as int] == tables.pending_callsites@[i as int]@);
        proof {
            law_pass5b_counts_every_callsite(graph@, t, i as int);
        }
        let ghost before = out@;
        let planned = plan_callsite(graph, tables, &tables.pending_callsites[i], stats);
        out.push(planned);
        proof {
            assert forall|j: int| 0 <= j < i + 1 implies (#[trigger] out@[j])@ == action(
                graph@,
                t,
                t.pending_callsites[j],
            ) by {
                if j < i {
                    assert(out@[j] == before[j]);
                }
            }
        }
    }
    out
}

/// Resolves the calls through C function pointers. Without C code there is nothing to do.
pub fn resolve_c_indirect_calls(graph: &mut CodeGraph) -> (r: Pass5bStats)
    requires
        old(graph).wf(),
    ensures
        final(graph).wf(),
        final(graph)@ == indirect_resolved(old(graph)@),
        r == all_pass5b_counts(old(graph)@),
{
    let ghost g = graph@;
    let mut stats = Pass5bStats::default();
    let taken: Option<CIndirectSideTables> = graph.c_indirect.take();
    let mut tables: CIndirectSideTables = match taken {
        Some(t) => t,
        None => {
            return stats;
        },
    };
    seed_fn_signature_from_bindings(&mut tables);
    let ghost t = tables@;
    graph.c_indirect = Some(tables);
    let ghost start = graph@;
    let planned = match &graph.c_indirect {
        Some(t) => plan_callsites(graph, t, &mut stats),
        None => Vec::new(),
    };
    for i in 0..planned.len()
        invariant
            graph.wf(),
            planned@.len() == t.pending_callsites.len(),
            forall|j: int|
                0 <= j < planned@.len() ==> (#[trigger] planned@[j])@ == action(
                    start,
                    t,
                    t.pending_callsites[j],
                ),
            graph@ == acted_all(start, t, start, i as int),
    {
        apply_planned_action(graph, &planned[i]);
    }
    stats
}

} // verus!
