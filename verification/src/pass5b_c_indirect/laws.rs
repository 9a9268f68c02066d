//! What calls through C function pointers are resolved to, and what becomes of their stubs.
use vstd::prelude::*;

use crate::c_indirect::{
    field_signature_from, fn_signature_from, innermost, scope_from, BindingEntry, CallsiteView,
    FieldKey, FieldSignature, FileScopeView, FnSignature, ScopeBindingView, ShapeView, TablesView,
};
use crate::edges::{edges_without, EdgeView, StoreView};
use crate::graph::GraphView;
use crate::ids::{FileId, NodeId, Span, StringId};
use crate::indices::lemma_filter_take;
use crate::kinds::{EdgeKind, ResolvedVia};
use crate::metadata::MetadataView;
use crate::pass5b_c_indirect::{
    acted, acted_all, action, all_pass5b_counts, bare_tag, bound, by_signature, indirect_resolved,
    is_stub, law_candidates_are_distinct, law_pass5b_counts_every_callsite, pass5b_counts,
    plain_name, resolution, rewrite, seeded, seeded_tables, stub_from, taken_with, type_at_call,
    with_candidates, without_keyword, without_stars, OutcomeView,
};
use crate::strings::{lemma_slot_from, slot_from};
use crate::text::{is_white, occurs_at, trim_end, trim_text};

verus! {

/// Declaration `b` of `scope` gives `name` its type at byte `at`: it is visible there, and
/// of those that are, it comes into sight last.
pub open spec fn gives_type(
    scope: Seq<ScopeBindingView>,
    b: int,
    name: Seq<char>,
    at: usize,
) -> bool {
    &&& 0 <= b < scope.len()
    &&& scope[b].name == name
    &&& scope[b].visible_from <= at < scope[b].visible_to
    &&& forall|k: int|
        0 <= k < scope.len() && (#[trigger] scope[k]).name == name && scope[k].visible_from <= at
            < scope[k].visible_to ==> scope[k].visible_from < scope[b].visible_from || (
        scope[k].visible_from == scope[b].visible_from && k <= b)
}

/// `name` is declared with type `token` where the call stands.
pub open spec fn typed(t: TablesView, c: CallsiteView, name: Seq<char>, token: Seq<char>) -> bool {
    exists|f: int, b: int|
        0 <= f < t.local_scope_indices.len() && (#[trigger] t.local_scope_indices[f]).file
            == c.file_id && #[trigger] gives_type(
            t.local_scope_indices[f].index,
            b,
            name,
            c.use_span.0,
        ) && t.local_scope_indices[f].index[b].type_token == token
}

proof fn lemma_innermost(scope: Seq<ScopeBindingView>, name: Seq<char>, at: usize, n: int)
    requires
        0 <= n <= scope.len(),
    ensures
        match innermost(scope, name, at, n) {
            Some(b) => b < n && gives_type(scope.take(n), b, name, at),
            None => forall|k: int|
                0 <= k < n ==> !((#[trigger] scope[k]).name == name && scope[k].visible_from <= at
                    < scope[k].visible_to),
        },
    decreases n,
{
    if n > 0 {
        lemma_innermost(scope, name, at, n - 1);
        let few = scope.take(n - 1);
        let more = scope.take(n);
        if let Some(b) = innermost(scope, name, at, n) {
            assert(0 <= b < n) by {
                if let Some(o) = innermost(scope, name, at, n - 1) {
                    assert(0 <= o < n - 1);
                }
            }
            assert forall|k: int|
                0 <= k < more.len() && (#[trigger] more[k]).name == name && more[k].visible_from
                    <= at < more[k].visible_to implies more[k].visible_from < more[b].visible_from
                || (more[k].visible_from == more[b].visible_from && k <= b) by {
                if k < n - 1 {
                    assert(few[k] == more[k]);
                    assert(scope[k] == more[k]);
                    if let Some(o) = innermost(scope, name, at, n - 1) {
                        assert(few[o] == more[o]);
                    }
                }
            }
        }
    }
}

proof fn lemma_scope_from(s: Seq<FileScopeView>, file: FileId, i: int)
    requires
        0 <= i,
    ensures
        match scope_from(s, file, i) {
            Some(f) => i <= f < s.len() && s[f].file == file,
            None => forall|k: int| i <= k < s.len() ==> (#[trigger] s[k]).file != file,
        },
    decreases s.len() - i,
{
    if i < s.len() && s[i].file != file {
        lemma_scope_from(s, file, i + 1);
    }
}

proof fn lemma_typed(t: TablesView, c: CallsiteView, name: Seq<char>, token: Seq<char>)
    requires
        t.wf(),
    ensures
        typed(t, c, name, token) <==> type_at_call(t, c, name) == Some(token),
{
    let s = t.local_scope_indices;
    lemma_scope_from(s, c.file_id, 0);
    if let Some(f) = scope_from(s, c.file_id, 0) {
        let scope = s[f].index;
        lemma_innermost(scope, name, c.use_span.0, scope.len() as int);
        assert(scope.take(scope.len() as int) =~= scope);
        if typed(t, c, name, token) {
            let (h, b) = choose|h: int, b: int|
                0 <= h < s.len() && (#[trigger] s[h]).file == c.file_id && #[trigger] gives_type(
                    s[h].index,
                    b,
                    name,
                    c.use_span.0,
                ) && s[h].index[b].type_token == token;
            assert(s[h].file == s[f].file);
            assert(h == f);
            assert(scope[b].name == name);
            let a = innermost(scope, name, c.use_span.0, scope.len() as int)->0;
            assert(gives_type(scope, a, name, c.use_span.0));
            assert(scope[a].name == name);
            assert(a == b);
        }
        if type_at_call(t, c, name) == Some(token) {
            let a = innermost(scope, name, c.use_span.0, scope.len() as int)->0;
            assert(s[f].file == c.file_id && gives_type(s[f].index, a, name, c.use_span.0));
        }
    }
}

/// `text` is interned as `id`, and nowhere before.
pub open spec fn interned_as(g: GraphView, text: Seq<char>, id: StringId) -> bool {
    &&& id.0 < g.strings.text.len()
    &&& g.strings.text[id.0 as int] == Some(text)
    &&& forall|k: int| 0 <= k < id.0 ==> #[trigger] g.strings.text[k] != Some(text)
}

proof fn lemma_first_slot(text: Seq<Option<Seq<char>>>, s: Seq<char>, i: int)
    requires
        0 <= i,
    ensures
        slot_from(text, s, i) matches Some(k) ==> forall|j: int|
            i <= j < k ==> #[trigger] text[j] != Some(s),
    decreases text.len() - i,
{
    if i < text.len() && text[i] != Some(s) {
        lemma_first_slot(text, s, i + 1);
    }
}

proof fn lemma_interned(g: GraphView, text: Seq<char>, id: StringId)
    requires
        g.strings.wf(),
    ensures
        interned_as(g, text, id) <==> g.strings.get(text) == Some(id),
{
    lemma_slot_from(g.strings.text, text, 0);
    lemma_first_slot(g.strings.text, text, 0);
    if interned_as(g, text, id) {
        let k = slot_from(g.strings.text, text, 0)->0;
        assert(g.strings.text[k] == Some(text));
        assert(g.strings.text[id.0 as int] == Some(text));
    }
}

/// `node` can be meant by a call with signature `sig`: it has that signature, and its
/// address is taken.
pub open spec fn callable_with(g: GraphView, t: TablesView, sig: StringId, node: NodeId) -> bool {
    &&& exists|k: int|
        0 <= k < t.fn_signature.len() && (#[trigger] t.fn_signature[k]).node == node
            && t.fn_signature[k].signature == sig
    &&& g.metadata.of(node).address_taken
}

/// `found` are the functions that a call with signature `sig` can mean, each once.
pub open spec fn all_callable(
    g: GraphView,
    t: TablesView,
    sig: StringId,
    found: Seq<NodeId>,
) -> bool {
    &&& found.no_duplicates()
    &&& forall|node: NodeId| #[trigger]
        found.contains(node) <==> callable_with(g, t, sig, node)
}

/// What a call with signature `sig` is resolved to: to the functions that it can mean, if
/// these are one to four; where there are more, it is given up, and where there are none,
/// it is left alone.
pub open spec fn resolved_by_type(
    g: GraphView,
    t: TablesView,
    sig: StringId,
    out: OutcomeView,
) -> bool {
    match out {
        OutcomeView::TypeMatch(found) => all_callable(g, t, sig, found) && 1 <= found.len() <= 4,
        OutcomeView::CapExceeded => exists|found: Seq<NodeId>| #[trigger]
            all_callable(g, t, sig, found) && found.len() > 4,
        OutcomeView::FallbackToStub => forall|node: NodeId| !#[trigger]
            callable_with(g, t, sig, node),
        OutcomeView::BindingPlane(_) => false,
    }
}

proof fn lemma_taken(
    sigs: Seq<FnSignature>,
    metadata: MetadataView,
    sig: StringId,
    n: int,
    node: NodeId,
)
    requires
        0 <= n <= sigs.len(),
    ensures
        taken_with(sigs, metadata, sig, n).contains(node) <==> metadata.of(node).address_taken && (
        exists|k: int|
            0 <= k < n && (#[trigger] sigs[k]).node == node && sigs[k].signature == sig),
    decreases n,
{
    if n > 0 {
        lemma_taken(sigs, metadata, sig, n - 1, node);
        let before = taken_with(sigs, metadata, sig, n - 1);
        let after = taken_with(sigs, metadata, sig, n);
        if before.contains(node) {
            assert(after[before.index_of(node)] == node);
            let k = choose|k: int|
                0 <= k < n - 1 && (#[trigger] sigs[k]).node == node && sigs[k].signature == sig;
            assert(sigs[k].node == node);
        }
        if after.contains(node) && !before.contains(node) {
            let i = after.index_of(node);
            if i < before.len() {
                assert(before[i] == node);
            }
            assert(sigs[n - 1].node == node);
        }
        if metadata.of(node).address_taken && (exists|k: int|
            0 <= k < n && (#[trigger] sigs[k]).node == node && sigs[k].signature == sig)
            && !before.contains(node) {
            let k = choose|k: int|
                0 <= k < n && (#[trigger] sigs[k]).node == node && sigs[k].signature == sig;
            assert(k == n - 1);
            assert(after[before.len() as int] == node);
        }
    }
}

proof fn lemma_by_type(g: GraphView, t: TablesView, sig: StringId)
    requires
        t.wf(),
    ensures
        resolved_by_type(g, t, sig, by_signature(g, t, Some(sig))),
{
    let n = t.fn_signature.len() as int;
    let found = taken_with(t.fn_signature, g.metadata, sig, n);
    law_candidates_are_distinct(t, g.metadata, sig, n);
    assert forall|node: NodeId| #[trigger] found.contains(node) <==> callable_with(
        g,
        t,
        sig,
        node,
    ) by {
        lemma_taken(t.fn_signature, g.metadata, sig, n, node);
    }
    assert(all_callable(g, t, sig, found));
    if found.len() == 0 {
        assert forall|node: NodeId| !#[trigger] callable_with(g, t, sig, node) by {
            assert(!found.contains(node));
        }
    }
}

/// A call through a pointer variable is resolved by the type with which the variable is
/// declared where the call stands. Where the variable is not declared, or no function has
/// ever been known with that type, the call is left alone.
pub proof fn law_pointer_call_is_resolved_by_type(
    g: GraphView,
    t: TablesView,
    c: CallsiteView,
    name: Seq<char>,
)
    requires
        g.strings.wf(),
        t.wf(),
        c.shape == (ShapeView::PointerExpr { var_name: name }),
    ensures
        forall|token: Seq<char>, sig: StringId| #[trigger]
            typed(t, c, name, token) && #[trigger] interned_as(g, token, sig) ==> resolved_by_type(
                g,
                t,
                sig,
                resolution(g, t, c),
            ),
        (forall|token: Seq<char>, sig: StringId|
            !(#[trigger] typed(t, c, name, token) && #[trigger] interned_as(g, token, sig)))
            ==> resolution(g, t, c) == OutcomeView::FallbackToStub,
{
    assert forall|token: Seq<char>, sig: StringId| #[trigger]
        typed(t, c, name, token) && #[trigger] interned_as(g, token, sig) implies resolved_by_type(
        g,
        t,
        sig,
        resolution(g, t, c),
    ) by {
        lemma_typed(t, c, name, token);
        lemma_interned(g, token, sig);
        lemma_by_type(g, t, sig);
    }
    if let Some(token) = type_at_call(t, c, name) {
        lemma_typed(t, c, name, token);
        if let Some(sig) = g.strings.get(token) {
            lemma_interned(g, token, sig);
            assert(typed(t, c, name, token) && interned_as(g, token, sig));
        }
    }
}

/// `node` is bound to the field `key` of some instance.
pub open spec fn bound_to(t: TablesView, key: FieldKey, node: NodeId) -> bool {
    exists|k: int|
        0 <= k < t.bindings_by_field.len() && (#[trigger] t.bindings_by_field[k]).field == key
            && t.bindings_by_field[k].target_fn == node
}

/// `found` are the functions bound to the field, each once.
pub open spec fn all_bound(t: TablesView, key: FieldKey, found: Seq<NodeId>) -> bool {
    &&& found.no_duplicates()
    &&& forall|node: NodeId| #[trigger] found.contains(node) <==> bound_to(t, key, node)
}

/// The field `key` holds pointers to functions with signature `sig`.
pub open spec fn field_holds(t: TablesView, key: FieldKey, sig: StringId) -> bool {
    exists|k: int|
        0 <= k < t.struct_field_fnptr.len() && (#[trigger] t.struct_field_fnptr[k]).field == key
            && t.struct_field_fnptr[k].signature == sig
}

/// The called field is the field `key`: the receiver is declared, where the call stands,
/// with a type that has the tag of `key`.
pub open spec fn calls_field(
    g: GraphView,
    t: TablesView,
    c: CallsiteView,
    receiver: Seq<char>,
    field: Seq<char>,
    key: FieldKey,
) -> bool {
    exists|token: Seq<char>| #[trigger]
        typed(t, c, receiver, token) && interned_as(g, bare_tag(token), key.struct_tag)
            && interned_as(g, field, key.field_name)
}

/// What a call through the field `key` is resolved to: to the functions bound to it, if
/// these are one to four, and by type otherwise.
pub open spec fn resolved_by_field(
    g: GraphView,
    t: TablesView,
    key: FieldKey,
    out: OutcomeView,
) -> bool {
    match out {
        OutcomeView::BindingPlane(found) => all_bound(t, key, found) && 1 <= found.len() <= 4,
        _ => {
            &&& exists|found: Seq<NodeId>| #[trigger]
                all_bound(t, key, found) && (found.len() == 0 || found.len() > 4)
            &&& forall|sig: StringId| #[trigger]
                field_holds(t, key, sig) ==> resolved_by_type(g, t, sig, out)
            &&& (forall|sig: StringId| !#[trigger] field_holds(t, key, sig)) ==> out
                == OutcomeView::FallbackToStub
        },
    }
}

proof fn lemma_bound(bindings: Seq<BindingEntry>, key: FieldKey, n: int, node: NodeId)
    requires
        0 <= n <= bindings.len(),
    ensures
        bound(bindings, key, n).no_duplicates(),
        bound(bindings, key, n).contains(node) <==> exists|k: int|
            0 <= k < n && (#[trigger] bindings[k]).field == key && bindings[k].target_fn == node,
    decreases n,
{
    if n > 0 {
        lemma_bound(bindings, key, n - 1, node);
        let before = bound(bindings, key, n - 1);
        let after = bound(bindings, key, n);
        if before.contains(node) {
            assert(after[before.index_of(node)] == node);
            let k = choose|k: int|
                0 <= k < n - 1 && (#[trigger] bindings[k]).field == key && bindings[k].target_fn
                    == node;
            assert(bindings[k].field == key);
        }
        if after.contains(node) && !before.contains(node) {
            let i = after.index_of(node);
            if i < before.len() {
                assert(before[i] == node);
            }
            assert(bindings[n - 1].field == key);
        }
        if (exists|k: int|
            0 <= k < n && (#[trigger] bindings[k]).field == key && bindings[k].target_fn == node)
            && !before.contains(node) {
            let k = choose|k: int|
                0 <= k < n && (#[trigger] bindings[k]).field == key && bindings[k].target_fn
                    == node;
            assert(k == n - 1);
            assert(after[before.len() as int] == node);
        }
    }
}

proof fn lemma_field_signature(s: Seq<FieldSignature>, key: FieldKey, i: int)
    requires
        0 <= i,
    ensures
        match field_signature_from(s, key, i) {
            Some(sig) => exists|k: int|
                i <= k < s.len() && (#[trigger] s[k]).field == key && s[k].signature == sig,
            None => forall|k: int| i <= k < s.len() ==> (#[trigger] s[k]).field != key,
        },
    decreases s.len() - i,
{
    if i < s.len() {
        if s[i].field == key {
            assert(s[i].signature == s[i].signature);
        } else {
            lemma_field_signature(s, key, i + 1);
        }
    }
}

/// A call through a field is resolved by the tag of the type with which the receiver is
/// declared where the call stands, and by the name of the field. Where either of them is
/// unknown, the call is left alone.
pub proof fn law_field_call_is_resolved_by_binding_or_type(
    g: GraphView,
    t: TablesView,
    c: CallsiteView,
    receiver: Seq<char>,
    field: Seq<char>,
)
    requires
        g.strings.wf(),
        t.wf(),
        c.shape == (ShapeView::FieldExpr { receiver_name: receiver, field_name: field }),
    ensures
        forall|key: FieldKey| #[trigger]
            calls_field(g, t, c, receiver, field, key) ==> resolved_by_field(
                g,
                t,
                key,
                resolution(g, t, c),
            ),
        (forall|key: FieldKey| !#[trigger] calls_field(g, t, c, receiver, field, key))
            ==> resolution(g, t, c) == OutcomeView::FallbackToStub,
{
    assert forall|key: FieldKey| #[trigger]
        calls_field(g, t, c, receiver, field, key) implies resolved_by_field(
        g,
        t,
        key,
        resolution(g, t, c),
    ) by {
        let token = choose|token: Seq<char>| #[trigger]
            typed(t, c, receiver, token) && interned_as(g, bare_tag(token), key.struct_tag)
                && interned_as(g, field, key.field_name);
        lemma_typed(t, c, receiver, token);
        lemma_interned(g, bare_tag(token), key.struct_tag);
        lemma_interned(g, field, key.field_name);
        lemma_by_field(g, t, key);
    }
    if let Some(token) = type_at_call(t, c, receiver) {
        lemma_typed(t, c, receiver, token);
        if let Some(tag) = g.strings.get(bare_tag(token)) {
            if let Some(name) = g.strings.get(field) {
                let key = FieldKey { struct_tag: tag, field_name: name };
                lemma_interned(g, bare_tag(token), tag);
                lemma_interned(g, field, name);
                assert(calls_field(g, t, c, receiver, field, key));
            }
        }
    }
}

proof fn lemma_by_field(g: GraphView, t: TablesView, key: FieldKey)
    requires
        t.wf(),
    ensures
        ({
            let found = bound(t.bindings_by_field, key, t.bindings_by_field.len() as int);
            let out = if 0 < found.len() <= 4 {
                OutcomeView::BindingPlane(found)
            } else {
                by_signature(g, t, field_signature_from(t.struct_field_fnptr, key, 0))
            };
            resolved_by_field(g, t, key, out)
        }),
{
    let n = t.bindings_by_field.len() as int;
    let found = bound(t.bindings_by_field, key, n);
    assert forall|node: NodeId| #[trigger] found.contains(node) <==> bound_to(t, key, node) by {
        lemma_bound(t.bindings_by_field, key, n, node);
    }
    assert(found.no_duplicates()) by {
        lemma_bound(t.bindings_by_field, key, n, NodeId { index: 0, generation: 0 });
    }
    assert(all_bound(t, key, found));
    let s = t.struct_field_fnptr;
    lemma_field_signature(s, key, 0);
    match field_signature_from(s, key, 0) {
        Some(sig) => {
            lemma_by_type(g, t, sig);
            assert(field_holds(t, key, sig));
            assert forall|other: StringId| #[trigger] field_holds(t, key, other) implies other
                == sig by {
                let i = choose|i: int|
                    0 <= i < s.len() && (#[trigger] s[i]).field == key && s[i].signature == sig;
                let j = choose|j: int|
                    0 <= j < s.len() && (#[trigger] s[j]).field == key && s[j].signature == other;
                assert(s[i].field == s[j].field);
                assert(i == j);
            }
        },
        None => {
            assert forall|sig: StringId| !#[trigger] field_holds(t, key, sig) by {}
        },
    }
}

/// Functions take over the signatures of the fields to which they are bound: what has a
/// signature keeps it, whoever is bound to a field with a signature has one in the end,
/// and nothing else gets any.
pub proof fn law_bound_functions_take_the_signature_of_the_field(t: TablesView)
    requires
        t.wf(),
    ensures
        seeded_tables(t).wf(),
        seeded_tables(t) == (TablesView { fn_signature: seeded_tables(t).fn_signature, ..t }),
        t.fn_signature.is_prefix_of(seeded_tables(t).fn_signature),
        forall|i: int|
            t.fn_signature.len() <= i < seeded_tables(t).fn_signature.len() ==> exists|k: int|
                0 <= k < t.bindings_by_field.len() && (#[trigger] t.bindings_by_field[k]).target_fn
                    == (#[trigger] seeded_tables(t).fn_signature[i]).node && field_holds(
                    t,
                    t.bindings_by_field[k].field,
                    seeded_tables(t).fn_signature[i].signature,
                ),
        forall|k: int, sig: StringId|
            0 <= k < t.bindings_by_field.len() && #[trigger] field_holds(
                t,
                (#[trigger] t.bindings_by_field[k]).field,
                sig,
            ) ==> exists|i: int|
                0 <= i < seeded_tables(t).fn_signature.len() && (#[trigger] seeded_tables(
                    t,
                ).fn_signature[i]).node == t.bindings_by_field[k].target_fn,
{
    lemma_seeds(t, t.bindings_by_field.len() as int);
    let all = seeded_tables(t).fn_signature;
    assert forall|i: int| t.fn_signature.len() <= i < all.len() implies exists|k: int|
        0 <= k < t.bindings_by_field.len() && (#[trigger] t.bindings_by_field[k]).target_fn == (
        #[trigger] all[i]).node && field_holds(
            t,
            t.bindings_by_field[k].field,
            all[i].signature,
        ) by {
        assert(seed_of(t, t.bindings_by_field.len() as int, all[i]));
    }
    assert forall|k: int, sig: StringId|
        0 <= k < t.bindings_by_field.len() && #[trigger] field_holds(
            t,
            (#[trigger] t.bindings_by_field[k]).field,
            sig,
        ) implies exists|i: int|
        0 <= i < all.len() && (#[trigger] all[i]).node == t.bindings_by_field[k].target_fn by {
        assert(lists_node(all, t.bindings_by_field[k].target_fn));
    }
}

spec fn lists_node(s: Seq<FnSignature>, node: NodeId) -> bool {
    exists|i: int| 0 <= i < s.len() && (#[trigger] s[i]).node == node
}

spec fn seed_of(t: TablesView, n: int, e: FnSignature) -> bool {
    exists|k: int|
        0 <= k < n && (#[trigger] t.bindings_by_field[k]).target_fn == e.node && field_holds(
            t,
            t.bindings_by_field[k].field,
            e.signature,
        )
}

proof fn lemma_fn_signature(s: Seq<FnSignature>, node: NodeId, i: int)
    requires
        0 <= i,
    ensures
        fn_signature_from(s, node, i) is Some ==> lists_node(s, node),
        fn_signature_from(s, node, i) is None ==> forall|k: int|
            i <= k < s.len() ==> (#[trigger] s[k]).node != node,
    decreases s.len() - i,
{
    if i < s.len() && s[i].node != node {
        lemma_fn_signature(s, node, i + 1);
    }
}

proof fn lemma_seeds(t: TablesView, n: int)
    requires
        t.wf(),
        0 <= n <= t.bindings_by_field.len(),
    ensures
        (TablesView { fn_signature: seeded(t, n), ..t }).wf(),
        t.fn_signature.is_prefix_of(seeded(t, n)),
        forall|i: int|
            t.fn_signature.len() <= i < seeded(t, n).len() ==> seed_of(
                t,
                n,
                #[trigger] seeded(t, n)[i],
            ),
        forall|k: int, sig: StringId|
            0 <= k < n && #[trigger] field_holds(
                t,
                (#[trigger] t.bindings_by_field[k]).field,
                sig,
            ) ==> lists_node(seeded(t, n), t.bindings_by_field[k].target_fn),
    decreases n,
{
    if n > 0 {
        lemma_seeds(t, n - 1);
        let before = seeded(t, n - 1);
        let after = seeded(t, n);
        let b = t.bindings_by_field[n - 1];
        let old = TablesView { fn_signature: before, ..t };
        let new = TablesView { fn_signature: after, ..t };
        assert(old.wf());
        lemma_field_signature(t.struct_field_fnptr, b.field, 0);
        lemma_fn_signature(before, b.target_fn, 0);
        assert(new.wf()) by {
            assert forall|i: int, j: int| 0 <= i < j < after.len() implies (
            #[trigger] after[i]).node != (#[trigger] after[j]).node by {
                if j < before.len() {
                    assert(old.fn_signature[i].node != old.fn_signature[j].node);
                } else {
                    assert(before[i].node != b.target_fn);
                }
            }
        }
        assert forall|i: int| t.fn_signature.len() <= i < after.len() implies seed_of(
            t,
            n,
            #[trigger] after[i],
        ) by {
            if i < before.len() {
                assert(after[i] == before[i]);
                assert(seed_of(t, n - 1, before[i]));
                let k = choose|k: int|
                    0 <= k < n - 1 && (#[trigger] t.bindings_by_field[k]).target_fn
                        == before[i].node && field_holds(
                        t,
                        t.bindings_by_field[k].field,
                        before[i].signature,
                    );
                assert(t.bindings_by_field[k].target_fn == after[i].node);
            } else {
                assert(t.bindings_by_field[n - 1].target_fn == after[i].node);
            }
        }
        assert forall|k: int, sig: StringId|
            0 <= k < n && #[trigger] field_holds(
                t,
                (#[trigger] t.bindings_by_field[k]).field,
                sig,
            ) implies lists_node(after, t.bindings_by_field[k].target_fn) by {
            if k < n - 1 {
                let node = t.bindings_by_field[k].target_fn;
                assert(lists_node(before, node));
                let i = choose|i: int| 0 <= i < before.len() && (#[trigger] before[i]).node == node;
                assert(after[i].node == node);
            } else {
                match fn_signature_from(before, b.target_fn, 0) {
                    Some(_) => {
                        assert(after == before);
                    },
                    None => {
                        assert(after[before.len() as int].node == b.target_fn);
                    },
                }
            }
        }
    }
}

/// `e` is a stub of the call: a direct call from the caller, with as many arguments as a
/// byte can count, to a node with the name of the called field or variable.
pub open spec fn stub_of_call(g: GraphView, e: EdgeView, c: CallsiteView) -> bool {
    &&& e.source == c.caller
    &&& e.kind matches EdgeKind::Calls { argument_count, is_async, resolved_via }
    &&& argument_count == (if c.argument_count < 255 {
        c.argument_count as int
    } else {
        255int
    })
    &&& is_async == c.is_async
    &&& resolved_via == ResolvedVia::Direct
    &&& plain_name(g, e.target) == Some(
        match c.shape {
            ShapeView::FieldExpr { receiver_name, field_name } => field_name,
            ShapeView::PointerExpr { var_name } => var_name,
        },
    )
}

/// Edge `k` is the first stub of the call.
pub open spec fn first_stub(g: GraphView, c: CallsiteView, k: int) -> bool {
    &&& 0 <= k < g.edges.edges.len()
    &&& stub_of_call(g, g.edges.edges[k], c)
    &&& forall|j: int| 0 <= j < k ==> !stub_of_call(g, #[trigger] g.edges.edges[j], c)
}

/// The call is resolved to `found`, in this way.
pub open spec fn resolved_to(
    g: GraphView,
    t: TablesView,
    c: CallsiteView,
    found: Seq<NodeId>,
    via: ResolvedVia,
) -> bool {
    ||| via == ResolvedVia::TypeMatch && resolution(g, t, c) == OutcomeView::TypeMatch(found)
    ||| via == ResolvedVia::BindingPlane && resolution(g, t, c) == OutcomeView::BindingPlane(found)
}

/// `e` is the call that `stub` stands for, made to one of `found`.
pub open spec fn resolved_edge(
    e: EdgeView,
    stub: EdgeView,
    c: CallsiteView,
    found: Seq<NodeId>,
    via: ResolvedVia,
) -> bool {
    &&& e.source == c.caller
    &&& found.contains(e.target)
    &&& e.kind matches EdgeKind::Calls { argument_count, is_async, resolved_via }
    &&& argument_count == (if c.argument_count < 255 {
        c.argument_count as int
    } else {
        255int
    })
    &&& is_async == c.is_async
    &&& resolved_via == via
    &&& e.file == stub.file
    &&& e.spans == stub.spans
}

/// Both edges lead from and to the same nodes, are of the same kind and stand in the same
/// file.
pub open spec fn same_ends(a: EdgeView, b: EdgeView) -> bool {
    a.source == b.source && a.target == b.target && a.kind == b.kind && a.file == b.file
}

/// The tables with the signatures of bound functions, and the graph with these tables.
pub open spec fn seeded_graph(g: GraphView) -> GraphView {
    GraphView { c_indirect: Some(seeded_tables(g.c_indirect->0)), ..g }
}

/// Call `i` of `g` is resolved to `found`, and `g` has a first stub for it at `k`.
pub open spec fn call_resolved(
    g: GraphView,
    i: int,
    k: int,
    found: Seq<NodeId>,
    via: ResolvedVia,
) -> bool {
    let s = seeded_graph(g);
    let t = s.c_indirect->0;
    &&& 0 <= i < t.pending_callsites.len()
    &&& first_stub(s, t.pending_callsites[i], k)
    &&& resolved_to(s, t, t.pending_callsites[i], found, via)
}

proof fn lemma_stub_from(g: GraphView, edges: Seq<EdgeView>, c: CallsiteView, i: int)
    requires
        0 <= i,
    ensures
        match stub_from(g, edges, c, i) {
            Some(k) => i <= k < edges.len() && stub_of_call(g, edges[k], c) && forall|j: int|
                i <= j < k ==> !stub_of_call(g, #[trigger] edges[j], c),
            None => forall|j: int| i <= j < edges.len() ==> !stub_of_call(g, #[trigger] edges[j], c),
        },
    decreases edges.len() - i,
{
    if i < edges.len() {
        assert(is_stub(g, edges[i], c) == stub_of_call(g, edges[i], c));
        if !is_stub(g, edges[i], c) {
            lemma_stub_from(g, edges, c, i + 1);
        }
    }
}

proof fn lemma_without(
    edges: Seq<EdgeView>,
    source: NodeId,
    target: NodeId,
    kind: EdgeKind,
    file: FileId,
    n: int,
    e: EdgeView,
)
    requires
        0 <= n <= edges.len(),
    ensures
        edges_without(edges, source, target, kind, file, n).contains(e) <==> edges.take(
            n,
        ).contains(e) && !(e.source == source && e.target == target && e.kind == kind && e.file
            == file),
    decreases n,
{
    if n > 0 {
        lemma_without(edges, source, target, kind, file, n - 1, e);
        let before = edges_without(edges, source, target, kind, file, n - 1);
        let after = edges_without(edges, source, target, kind, file, n);
        let few = edges.take(n - 1);
        let more = edges.take(n);
        if few.contains(e) {
            assert(more[few.index_of(e)] == e);
        }
        assert(more[n - 1] == edges[n - 1]);
        if more.contains(e) && e != edges[n - 1] {
            assert(few[more.index_of(e)] == e);
        }
        if before.contains(e) {
            assert(after[before.index_of(e)] == e);
        }
        if after.contains(e) && !before.contains(e) {
            let i = after.index_of(e);
            if i < before.len() {
                assert(before[i] == e);
            }
        }
        if after.len() > before.len() {
            assert(after[before.len() as int] == edges[n - 1]);
        }
    } else {
        assert(edges.take(0) =~= Seq::empty());
    }
}

proof fn lemma_candidates(
    store: StoreView,
    caller: NodeId,
    found: Seq<NodeId>,
    kind: EdgeKind,
    file: FileId,
    spans: Seq<Span>,
    n: int,
)
    requires
        0 <= n <= found.len(),
    ensures
        ({
            let all = with_candidates(store, caller, found, kind, file, spans, n).edges;
            &&& all.len() == store.edges.len() + n
            &&& store.edges.is_prefix_of(all)
            &&& forall|j: int|
                store.edges.len() <= j < all.len() ==> {
                    let e = #[trigger] all[j];
                    &&& e.source == caller
                    &&& e.target == found[j - store.edges.len()]
                    &&& e.kind == kind
                    &&& e.file == file
                    &&& e.spans == spans
                }
        }),
    decreases n,
{
    if n > 0 {
        lemma_candidates(store, caller, found, kind, file, spans, n - 1);
        let before = with_candidates(store, caller, found, kind, file, spans, n - 1).edges;
        let all = with_candidates(store, caller, found, kind, file, spans, n).edges;
        assert forall|j: int| store.edges.len() <= j < all.len() implies {
            let e = #[trigger] all[j];
            &&& e.source == caller
            &&& e.target == found[j - store.edges.len()]
            &&& e.kind == kind
            &&& e.file == file
            &&& e.spans == spans
        } by {
            if j < before.len() {
                assert(all[j] == before[j]);
            }
        }
    }
}

/// What a resolved call does to the edges of `now`.
proof fn lemma_rewritten(
    g: GraphView,
    t: TablesView,
    c: CallsiteView,
    now: GraphView,
    k: int,
    found: Seq<NodeId>,
    via: ResolvedVia,
)
    requires
        first_stub(g, c, k),
        resolved_to(g, t, c, found, via),
    ensures
        ({
            let stub = g.edges.edges[k];
            let then = acted(now, action(g, t, c));
            &&& then == (GraphView { edges: then.edges, ..now })
            &&& forall|e: EdgeView| #[trigger]
                then.edges.edges.contains(e) ==> (now.edges.edges.contains(e) && !same_ends(
                    e,
                    stub,
                )) || resolved_edge(e, stub, c, found, via)
            &&& forall|e: EdgeView|
                now.edges.edges.contains(e) && !same_ends(e, stub)
                    ==> #[trigger] then.edges.edges.contains(e)
            &&& forall|m: int|
                0 <= m < found.len() ==> has_resolved_edge(
                    then,
                    stub,
                    c,
                    #[trigger] found[m],
                    found,
                    via,
                )
        }),
{
    let edges = g.edges.edges;
    lemma_stub_from(g, edges, c, 0);
    let at = stub_from(g, edges, c, 0)->0;
    assert(stub_of_call(g, edges[at], c));
    assert(stub_of_call(g, edges[k], c));
    assert(at == k);
    let stub = edges[k];
    let then = acted(now, action(g, t, c));
    let store = now.edges.removed(c.caller, stub.target, stub.kind, stub.file);
    let kind = EdgeKind::Calls {
        argument_count: crate::pass5b_c_indirect::narrow_count(c.argument_count),
        is_async: c.is_async,
        resolved_via: via,
    };
    assert(action(g, t, c) == rewrite(g, c, found, via));
    let all = then.edges.edges;
    let n = now.edges.edges.len() as int;
    assert(now.edges.edges.take(n) =~= now.edges.edges);
    lemma_candidates(store, c.caller, found, kind, stub.file, stub.spans, found.len() as int);
    assert(then.edges == with_candidates(
        store,
        c.caller,
        found,
        kind,
        stub.file,
        stub.spans,
        found.len() as int,
    ));
    assert forall|e: EdgeView| #[trigger] all.contains(e) implies (now.edges.edges.contains(e)
        && !same_ends(e, stub)) || resolved_edge(e, stub, c, found, via) by {
        let j = all.index_of(e);
        lemma_without(now.edges.edges, c.caller, stub.target, stub.kind, stub.file, n, e);
        if j < store.edges.len() {
            assert(store.edges[j] == e);
            assert(store.edges.contains(e));
        } else {
            assert(all[j] == e);
            assert(found[j - store.edges.len()] == e.target);
        }
    }
    assert forall|e: EdgeView|
        now.edges.edges.contains(e) && !same_ends(e, stub) implies #[trigger] all.contains(e) by {
        lemma_without(now.edges.edges, c.caller, stub.target, stub.kind, stub.file, n, e);
        let j = store.edges.index_of(e);
        assert(all[j] == e);
    }
    assert forall|m: int| 0 <= m < found.len() implies has_resolved_edge(
        then,
        stub,
        c,
        #[trigger] found[m],
        found,
        via,
    ) by {
        let j = store.edges.len() + m;
        let e = all[j];
        assert(found.contains(found[m]));
        assert(all.contains(e) && resolved_edge(e, stub, c, found, via) && e.target == found[m]);
    }
}

/// `h` has an edge that makes the call to `target`.
pub open spec fn has_resolved_edge(
    h: GraphView,
    stub: EdgeView,
    c: CallsiteView,
    target: NodeId,
    found: Seq<NodeId>,
    via: ResolvedVia,
) -> bool {
    exists|e: EdgeView| #[trigger]
        h.edges.edges.contains(e) && resolved_edge(e, stub, c, found, via) && e.target == target
}

/// `then` is what the first `n` calls of `g` make of its edges.
spec fn calls_made(g: GraphView, t: TablesView, then: GraphView, n: int) -> bool {
    &&& then == (GraphView { edges: then.edges, metadata: then.metadata, ..g })
    &&& forall|e: EdgeView| #[trigger]
        then.edges.edges.contains(e) ==> g.edges.edges.contains(e) || made_by(g, t, n, e)
    &&& forall|e: EdgeView| #[trigger]
        g.edges.edges.contains(e) ==> then.edges.edges.contains(e) || replaced_by(g, t, n, e)
    &&& forall|i: int, k: int, found: Seq<NodeId>, via: ResolvedVia|
        0 <= i < n && #[trigger] resolved_at(g, t, i, k, found, via) ==> {
            let stub = g.edges.edges[k];
            let c = t.pending_callsites[i];
            &&& forall|e: EdgeView| #[trigger]
                then.edges.edges.contains(e) ==> !same_ends(e, stub)
            &&& forall|m: int|
                0 <= m < found.len() ==> has_resolved_edge(
                    then,
                    stub,
                    c,
                    #[trigger] found[m],
                    found,
                    via,
                )
        }
}

spec fn resolved_at(
    g: GraphView,
    t: TablesView,
    i: int,
    k: int,
    found: Seq<NodeId>,
    via: ResolvedVia,
) -> bool {
    first_stub(g, t.pending_callsites[i], k) && resolved_to(
        g,
        t,
        t.pending_callsites[i],
        found,
        via,
    )
}

spec fn made_by(g: GraphView, t: TablesView, n: int, e: EdgeView) -> bool {
    exists|i: int, k: int, found: Seq<NodeId>, via: ResolvedVia|
        0 <= i < n && #[trigger] resolved_at(g, t, i, k, found, via) && resolved_edge(
            e,
            g.edges.edges[k],
            t.pending_callsites[i],
            found,
            via,
        )
}

spec fn replaced_by(g: GraphView, t: TablesView, n: int, e: EdgeView) -> bool {
    exists|i: int, k: int, found: Seq<NodeId>, via: ResolvedVia|
        0 <= i < n && #[trigger] resolved_at(g, t, i, k, found, via) && same_ends(
            e,
            g.edges.edges[k],
        )
}

proof fn lemma_calls_made(g: GraphView, t: TablesView, n: int)
    requires
        0 <= n,
    ensures
        calls_made(g, t, acted_all(g, t, g, n), n),
    decreases n,
{
    let then = acted_all(g, t, g, n);
    if n > 0 {
        lemma_calls_made(g, t, n - 1);
        let now = acted_all(g, t, g, n - 1);
        let c = t.pending_callsites[n - 1];
        lemma_stub_from(g, g.edges.edges, c, 0);
        let out = resolution(g, t, c);
        let (found, via) = match out {
            OutcomeView::TypeMatch(f) => (f, ResolvedVia::TypeMatch),
            OutcomeView::BindingPlane(f) => (f, ResolvedVia::BindingPlane),
            _ => (Seq::empty(), ResolvedVia::Direct),
        };
        match stub_from(g, g.edges.edges, c, 0) {
            Some(k) => {
                if out is TypeMatch || out is BindingPlane {
                    assert(first_stub(g, c, k));
                    assert(resolved_at(g, t, n - 1, k, found, via));
                    lemma_rewritten(g, t, c, now, k, found, via);
                    lemma_call_made(g, t, now, then, n, k, found, via);
                } else {
                    assert(then.edges == now.edges);
                    lemma_call_left(g, t, now, then, n, n - 1);
                }
            },
            None => {
                assert(then.edges == now.edges);
                lemma_call_left(g, t, now, then, n, n - 1);
            },
        }
    } else {
        assert(then == g);
    }
}

proof fn lemma_made_on(g: GraphView, t: TablesView, n: int, e: EdgeView)
    ensures
        made_by(g, t, n - 1, e) ==> made_by(g, t, n, e),
        replaced_by(g, t, n - 1, e) ==> replaced_by(g, t, n, e),
{
    if made_by(g, t, n - 1, e) {
        let (i, k, found, via) = choose|i: int, k: int, found: Seq<NodeId>, via: ResolvedVia|
            0 <= i < n - 1 && #[trigger] resolved_at(g, t, i, k, found, via) && resolved_edge(
                e,
                g.edges.edges[k],
                t.pending_callsites[i],
                found,
                via,
            );
        assert(resolved_at(g, t, i, k, found, via));
    }
    if replaced_by(g, t, n - 1, e) {
        let (i, k, found, via) = choose|i: int, k: int, found: Seq<NodeId>, via: ResolvedVia|
            0 <= i < n - 1 && #[trigger] resolved_at(g, t, i, k, found, via) && same_ends(
                e,
                g.edges.edges[k],
            );
        assert(resolved_at(g, t, i, k, found, via));
    }
}

proof fn lemma_call_left(
    g: GraphView,
    t: TablesView,
    now: GraphView,
    then: GraphView,
    n: int,
    last: int,
)
    requires
        n > 0,
        last == n - 1,
        calls_made(g, t, now, n - 1),
        then.edges == now.edges,
        then == (GraphView { edges: then.edges, metadata: then.metadata, ..g }),
        forall|k: int, found: Seq<NodeId>, via: ResolvedVia| !#[trigger]
            resolved_at(g, t, last, k, found, via),
    ensures
        calls_made(g, t, then, n),
{
    assert forall|e: EdgeView| #[trigger] then.edges.edges.contains(e) implies
        g.edges.edges.contains(e) || made_by(g, t, n, e) by {
        lemma_made_on(g, t, n, e);
    }
    assert forall|e: EdgeView| #[trigger] g.edges.edges.contains(e) implies
        then.edges.edges.contains(e) || replaced_by(g, t, n, e) by {
        lemma_made_on(g, t, n, e);
    }
    assert forall|i: int, k: int, found: Seq<NodeId>, via: ResolvedVia|
        0 <= i < n && #[trigger] resolved_at(g, t, i, k, found, via) implies {
        let stub = g.edges.edges[k];
        let c = t.pending_callsites[i];
        &&& forall|e: EdgeView| #[trigger] then.edges.edges.contains(e) ==> !same_ends(e, stub)
        &&& forall|m: int|
            0 <= m < found.len() ==> has_resolved_edge(then, stub, c, #[trigger] found[m], found, via)
    } by {
        assert(i < n - 1);
        let stub = g.edges.edges[k];
        let c = t.pending_callsites[i];
        assert forall|m: int| 0 <= m < found.len() implies has_resolved_edge(
            then,
            stub,
            c,
            #[trigger] found[m],
            found,
            via,
        ) by {
            assert(has_resolved_edge(now, stub, c, found[m], found, via));
            let e = choose|e: EdgeView| #[trigger]
                now.edges.edges.contains(e) && resolved_edge(e, stub, c, found, via) && e.target
                    == found[m];
            assert(then.edges.edges.contains(e));
        }
    }
}

proof fn lemma_call_made(
    g: GraphView,
    t: TablesView,
    now: GraphView,
    then: GraphView,
    n: int,
    k: int,
    found: Seq<NodeId>,
    via: ResolvedVia,
)
    requires
        n > 0,
        calls_made(g, t, now, n - 1),
        resolved_at(g, t, n - 1, k, found, via),
        then == (GraphView { edges: then.edges, ..now }),
        forall|e: EdgeView| #[trigger]
            then.edges.edges.contains(e) ==> (now.edges.edges.contains(e) && !same_ends(
                e,
                g.edges.edges[k],
            )) || resolved_edge(e, g.edges.edges[k], t.pending_callsites[n - 1], found, via),
        forall|e: EdgeView|
            now.edges.edges.contains(e) && !same_ends(e, g.edges.edges[k])
                ==> #[trigger] then.edges.edges.contains(e),
        forall|m: int|
            0 <= m < found.len() ==> has_resolved_edge(
                then,
                g.edges.edges[k],
                t.pending_callsites[n - 1],
                #[trigger] found[m],
                found,
                via,
            ),
    ensures
        calls_made(g, t, then, n),
{
    let last = g.edges.edges[k];
    assert forall|e: EdgeView| #[trigger] then.edges.edges.contains(e) implies
        g.edges.edges.contains(e) || made_by(g, t, n, e) by {
        lemma_made_on(g, t, n, e);
        if resolved_edge(e, last, t.pending_callsites[n - 1], found, via) {
            assert(resolved_at(g, t, n - 1, k, found, via));
        }
    }
    assert forall|e: EdgeView| #[trigger] g.edges.edges.contains(e) implies
        then.edges.edges.contains(e) || replaced_by(g, t, n, e) by {
        lemma_made_on(g, t, n, e);
        if same_ends(e, last) {
            assert(resolved_at(g, t, n - 1, k, found, via));
        }
    }
    assert forall|i: int, j: int, some: Seq<NodeId>, way: ResolvedVia|
        0 <= i < n && #[trigger] resolved_at(g, t, i, j, some, way) implies {
        let stub = g.edges.edges[j];
        let c = t.pending_callsites[i];
        &&& forall|e: EdgeView| #[trigger] then.edges.edges.contains(e) ==> !same_ends(e, stub)
        &&& forall|m: int|
            0 <= m < some.len() ==> has_resolved_edge(then, stub, c, #[trigger] some[m], some, way)
    } by {
        let stub = g.edges.edges[j];
        let c = t.pending_callsites[i];
        if i == n - 1 {
            assert(stub_of_call(g, g.edges.edges[j], c));
            assert(stub_of_call(g, g.edges.edges[k], c));
            assert(j == k);
            assert(some == found && way == via);
        } else {
            assert forall|m: int| 0 <= m < some.len() implies has_resolved_edge(
                then,
                stub,
                c,
                #[trigger] some[m],
                some,
                way,
            ) by {
                assert(has_resolved_edge(now, stub, c, some[m], some, way));
                let e = choose|e: EdgeView| #[trigger]
                    now.edges.edges.contains(e) && resolved_edge(e, stub, c, some, way) && e.target
                        == some[m];
                assert(!same_ends(e, last));
                assert(then.edges.edges.contains(e));
            }
        }
    }
}

/// Where a call is resolved, its stub is gone, and one edge to each of the functions takes
/// its place. No other edge goes, and no other comes.
pub proof fn law_resolved_calls_replace_their_stubs(g: GraphView)
    requires
        g.c_indirect is Some,
    ensures
        forall|i: int, k: int, found: Seq<NodeId>, via: ResolvedVia| #[trigger]
            call_resolved(g, i, k, found, via) ==> {
                let h = indirect_resolved(g);
                let c = g.c_indirect->0.pending_callsites[i];
                &&& forall|e: EdgeView| #[trigger]
                    h.edges.edges.contains(e) ==> !same_ends(e, g.edges.edges[k])
                &&& forall|m: int|
                    0 <= m < found.len() ==> has_resolved_edge(
                        h,
                        g.edges.edges[k],
                        c,
                        #[trigger] found[m],
                        found,
                        via,
                    )
            },
        forall|e: EdgeView| #[trigger]
            g.edges.edges.contains(e) && !indirect_resolved(g).edges.edges.contains(e) ==> exists|
                i: int,
                k: int,
                found: Seq<NodeId>,
                via: ResolvedVia,
            | #[trigger]
                call_resolved(g, i, k, found, via) && same_ends(e, g.edges.edges[k]),
        forall|e: EdgeView| #[trigger]
            indirect_resolved(g).edges.edges.contains(e) && !g.edges.edges.contains(e) ==> exists|
                i: int,
                k: int,
                found: Seq<NodeId>,
                via: ResolvedVia,
            | #[trigger]
                call_resolved(g, i, k, found, via) && resolved_edge(
                    e,
                    g.edges.edges[k],
                    g.c_indirect->0.pending_callsites[i],
                    found,
                    via,
                ),
        ({
            let h = indirect_resolved(g);
            h == (GraphView {
                edges: h.edges,
                metadata: h.metadata,
                c_indirect: Some(seeded_tables(g.c_indirect->0)),
                ..g
            })
        }),
{
    let s = seeded_graph(g);
    let t = s.c_indirect->0;
    let n = t.pending_callsites.len() as int;
    let h = indirect_resolved(g);
    lemma_calls_made(s, t, n);
    assert(h == acted_all(s, t, s, n));
    assert forall|i: int, k: int, found: Seq<NodeId>, via: ResolvedVia| #[trigger]
        call_resolved(g, i, k, found, via) implies {
        let c = g.c_indirect->0.pending_callsites[i];
        &&& forall|e: EdgeView| #[trigger]
            h.edges.edges.contains(e) ==> !same_ends(e, g.edges.edges[k])
        &&& forall|m: int|
            0 <= m < found.len() ==> has_resolved_edge(
                h,
                g.edges.edges[k],
                c,
                #[trigger] found[m],
                found,
                via,
            )
    } by {
        assert(resolved_at(s, t, i, k, found, via));
    }
    assert forall|e: EdgeView| #[trigger]
        g.edges.edges.contains(e) && !h.edges.edges.contains(e) implies exists|
        i: int,
        k: int,
        found: Seq<NodeId>,
        via: ResolvedVia,
    | #[trigger]
        call_resolved(g, i, k, found, via) && same_ends(e, g.edges.edges[k]) by {
        assert(replaced_by(s, t, n, e));
        let (i, k, found, via) = choose|i: int, k: int, found: Seq<NodeId>, via: ResolvedVia|
            0 <= i < n && #[trigger] resolved_at(s, t, i, k, found, via) && same_ends(
                e,
                s.edges.edges[k],
            );
        assert(call_resolved(g, i, k, found, via));
    }
    assert forall|e: EdgeView| #[trigger]
        h.edges.edges.contains(e) && !g.edges.edges.contains(e) implies exists|
        i: int,
        k: int,
        found: Seq<NodeId>,
        via: ResolvedVia,
    | #[trigger]
        call_resolved(g, i, k, found, via) && resolved_edge(
            e,
            g.edges.edges[k],
            g.c_indirect->0.pending_callsites[i],
            found,
            via,
        ) by {
        assert(made_by(s, t, n, e));
        let (i, k, found, via) = choose|i: int, k: int, found: Seq<NodeId>, via: ResolvedVia|
            0 <= i < n && #[trigger] resolved_at(s, t, i, k, found, via) && resolved_edge(
                e,
                s.edges.edges[k],
                t.pending_callsites[i],
                found,
                via,
            );
        assert(call_resolved(g, i, k, found, via));
    }
}

proof fn lemma_marks(g: GraphView, t: TablesView, n: int, node: NodeId)
    requires
        0 <= n,
    ensures
        ({
            let then = acted_all(g, t, g, n);
            let before = g.metadata.of(node);
            let after = then.metadata.of(node);
            &&& after == (crate::metadata::StoredView {
                callsite_promiscuous: after.callsite_promiscuous,
                ..before
            })
            &&& after.callsite_promiscuous <==> before.callsite_promiscuous || exists|i: int|
                0 <= i < n && (#[trigger] t.pending_callsites[i]).caller == node && resolution(
                    g,
                    t,
                    t.pending_callsites[i],
                ) == OutcomeView::CapExceeded
        }),
    decreases n,
{
    if n > 0 {
        lemma_marks(g, t, n - 1, node);
        let now = acted_all(g, t, g, n - 1);
        let then = acted_all(g, t, g, n);
        let c = t.pending_callsites[n - 1];
        lemma_stub_from(g, g.edges.edges, c, 0);
        if resolution(g, t, c) == OutcomeView::CapExceeded {
            assert(then.metadata == now.metadata.marked_promiscuous(c.caller));
        } else {
            assert(then.metadata == now.metadata);
        }
        assert(t.pending_callsites[n - 1].caller == c.caller);
    }
}

/// A caller is marked exactly when one of its calls could mean too many functions; nothing
/// else that is known of a node changes.
pub proof fn law_calls_given_up_mark_the_caller(g: GraphView, node: NodeId)
    requires
        g.c_indirect is Some,
    ensures
        ({
            let s = seeded_graph(g);
            let t = s.c_indirect->0;
            let before = g.metadata.of(node);
            let after = indirect_resolved(g).metadata.of(node);
            &&& after == (crate::metadata::StoredView {
                callsite_promiscuous: after.callsite_promiscuous,
                ..before
            })
            &&& after.callsite_promiscuous <==> before.callsite_promiscuous || exists|i: int|
                0 <= i < t.pending_callsites.len() && (#[trigger] t.pending_callsites[i]).caller
                    == node && resolution(s, t, t.pending_callsites[i])
                    == OutcomeView::CapExceeded
        }),
{
    let s = seeded_graph(g);
    let t = s.c_indirect->0;
    lemma_marks(s, t, t.pending_callsites.len() as int, node);
}

/// `s` consists of stars and white space.
pub open spec fn stars_only(s: Seq<char>) -> bool {
    forall|i: int| 0 <= i < s.len() ==> #[trigger] s[i] == '*' || is_white(s[i])
}

proof fn lemma_without_stars(name: Seq<char>, tail: Seq<char>)
    requires
        name.len() > 0,
        name[name.len() - 1] != '*',
        !is_white(name[name.len() - 1]),
        stars_only(tail),
    ensures
        without_stars(name + tail) == name,
    decreases tail.len(),
{
    let s = name + tail;
    if tail.len() > 0 {
        let less = tail.subrange(0, tail.len() - 1);
        assert(s[s.len() - 1] == tail[tail.len() - 1]);
        assert(s.subrange(0, s.len() - 1) =~= name + less);
        lemma_without_stars(name, less);
    } else {
        assert(s =~= name);
    }
}

proof fn lemma_trim_end(name: Seq<char>, tail: Seq<char>) -> (k: int)
    requires
        name.len() > 0,
        !is_white(name[name.len() - 1]),
    ensures
        0 <= k <= tail.len(),
        trim_end(name + tail) == name + tail.take(k),
    decreases tail.len(),
{
    let s = name + tail;
    if tail.len() > 0 && is_white(tail[tail.len() - 1]) {
        let less = tail.subrange(0, tail.len() - 1);
        assert(s[s.len() - 1] == tail[tail.len() - 1]);
        assert(s.subrange(0, s.len() - 1) =~= name + less);
        let k = lemma_trim_end(name, less);
        assert(less.take(k) =~= tail.take(k));
        k
    } else {
        assert(tail.take(tail.len() as int) =~= tail);
        if tail.len() > 0 {
            assert(s[s.len() - 1] == tail[tail.len() - 1]);
        } else {
            assert(s[s.len() - 1] == name[name.len() - 1]);
        }
        tail.len() as int
    }
}

proof fn lemma_bare(name: Seq<char>, tail: Seq<char>)
    requires
        name.len() > 0,
        !is_white(name[0]),
        !is_white(name[name.len() - 1]),
        name[name.len() - 1] != '*',
        stars_only(tail),
    ensures
        without_stars(trim_text(name + tail)) == name,
{
    let s = name + tail;
    assert(s[0] == name[0]);
    let k = lemma_trim_end(name, tail);
    lemma_without_stars(name, tail.take(k));
}

proof fn lemma_tag_behind(keyword: Seq<char>, name: Seq<char>, tail: Seq<char>)
    requires
        name.len() > 0,
        !is_white(name[0]),
        !is_white(name[name.len() - 1]),
        name[name.len() - 1] != '*',
        stars_only(tail),
        keyword == "struct "@ || keyword == "union "@ || keyword == "enum "@,
    ensures
        bare_tag(keyword + name + tail) == name,
{
    reveal_strlit("struct ");
    reveal_strlit("union ");
    reveal_strlit("enum ");
    let head = keyword + name;
    let s = head + tail;
    assert(s[0] == keyword[0]);
    assert(!is_white('s') && !is_white('u') && !is_white('e'));
    assert(head[head.len() - 1] == name[name.len() - 1]);
    let k = lemma_trim_end(head, tail);
    let u = head + tail.take(k);
    assert(trim_text(s) == u);
    let n = keyword.len() as int;
    assert(u.subrange(0, n) =~= keyword);
    assert(u.subrange(n, u.len() as int) =~= name + tail.take(k));
    assert(u[0] == keyword[0]);
    if occurs_at(u, "struct "@, 0) {
        assert(u.subrange(0, 7)[0] == 's');
    }
    if occurs_at(u, "union "@, 0) {
        assert(u.subrange(0, 6)[0] == 'u');
    }
    assert(without_keyword(u) == name + tail.take(k));
    lemma_bare(name, tail.take(k));
}

/// The tag of a declared type is its name, without the keyword before it and without the
/// stars and the white space behind it.
pub proof fn law_tag_is_what_is_left_of_a_declared_type(name: Seq<char>, tail: Seq<char>)
    requires
        name.len() > 0,
        !is_white(name[0]),
        !is_white(name[name.len() - 1]),
        name[name.len() - 1] != '*',
        stars_only(tail),
    ensures
        bare_tag("struct "@ + name + tail) == name,
        bare_tag("union "@ + name + tail) == name,
        bare_tag("enum "@ + name + tail) == name,
        !occurs_at(name + tail, "struct "@, 0) && !occurs_at(name + tail, "union "@, 0)
            && !occurs_at(name + tail, "enum "@, 0) ==> bare_tag(name + tail) == name,
{
    lemma_tag_behind("struct "@, name, tail);
    lemma_tag_behind("union "@, name, tail);
    lemma_tag_behind("enum "@, name, tail);
    if !occurs_at(name + tail, "struct "@, 0) && !occurs_at(name + tail, "union "@, 0)
        && !occurs_at(name + tail, "enum "@, 0) {
        let s = name + tail;
        assert(s[0] == name[0]);
        let k = lemma_trim_end(name, tail);
        let u = name + tail.take(k);
        assert(trim_text(s) == u);
        assert(u =~= s.subrange(0, u.len() as int));
        lemma_starts(s, u, "struct "@);
        lemma_starts(s, u, "union "@);
        lemma_starts(s, u, "enum "@);
        lemma_bare(name, tail.take(k));
    }
}

proof fn lemma_starts(s: Seq<char>, u: Seq<char>, pat: Seq<char>)
    requires
        u.len() <= s.len(),
        u == s.subrange(0, u.len() as int),
        !occurs_at(s, pat, 0),
    ensures
        !occurs_at(u, pat, 0),
{
    if occurs_at(u, pat, 0) {
        assert(s.subrange(0, pat.len() as int) =~= u.subrange(0, pat.len() as int));
    }
}

proof fn lemma_counts(g: GraphView, t: TablesView, n: int)
    requires
        0 <= n <= u64::MAX,
        n <= t.pending_callsites.len(),
    ensures
        ({
            let s = pass5b_counts(g, t, n);
            let calls = t.pending_callsites.take(n);
            &&& s.binding_resolved == calls.filter(
                |c: CallsiteView| resolution(g, t, c) is BindingPlane,
            ).len()
            &&& s.typematch_resolved == calls.filter(
                |c: CallsiteView| resolution(g, t, c) is TypeMatch,
            ).len()
            &&& s.cap_exceeded == calls.filter(
                |c: CallsiteView| resolution(g, t, c) is CapExceeded,
            ).len()
            &&& s.stub_fallback == calls.filter(
                |c: CallsiteView| resolution(g, t, c) is FallbackToStub,
            ).len()
        }),
    decreases n,
{
    let a = |c: CallsiteView| resolution(g, t, c) is BindingPlane;
    let b = |c: CallsiteView| resolution(g, t, c) is TypeMatch;
    let d = |c: CallsiteView| resolution(g, t, c) is CapExceeded;
    let e = |c: CallsiteView| resolution(g, t, c) is FallbackToStub;
    let calls = t.pending_callsites;
    if n > 0 {
        lemma_counts(g, t, n - 1);
        law_pass5b_counts_every_callsite(g, t, n - 1);
        lemma_filter_take(calls, a, n);
        lemma_filter_take(calls, b, n);
        lemma_filter_take(calls, d, n);
        lemma_filter_take(calls, e, n);
    } else {
        reveal(Seq::filter);
        assert(calls.take(0).filter(a).len() == 0);
        assert(calls.take(0).filter(b).len() == 0);
        assert(calls.take(0).filter(d).len() == 0);
        assert(calls.take(0).filter(e).len() == 0);
    }
}

/// Calls are counted by what they are resolved to.
pub proof fn law_calls_are_counted_by_what_they_are_resolved_to(g: GraphView)
    requires
        g.c_indirect is Some,
        g.c_indirect->0.pending_callsites.len() <= u64::MAX,
    ensures
        ({
            let s = seeded_graph(g);
            let t = s.c_indirect->0;
            let calls = g.c_indirect->0.pending_callsites;
            let n = all_pass5b_counts(g);
            &&& n.binding_resolved == calls.filter(
                |c: CallsiteView| resolution(s, t, c) is BindingPlane,
            ).len()
            &&& n.typematch_resolved == calls.filter(
                |c: CallsiteView| resolution(s, t, c) is TypeMatch,
            ).len()
            &&& n.cap_exceeded == calls.filter(
                |c: CallsiteView| resolution(s, t, c) is CapExceeded,
            ).len()
            &&& n.stub_fallback == calls.filter(
                |c: CallsiteView| resolution(s, t, c) is FallbackToStub,
            ).len()
        }),
{
    let s = seeded_graph(g);
    let t = s.c_indirect->0;
    let n = t.pending_callsites.len() as int;
    lemma_counts(s, t, n);
    assert(t.pending_callsites.take(n) =~= t.pending_callsites);
}

} // verus!
