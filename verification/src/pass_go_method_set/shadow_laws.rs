//! Which calls reach promoted methods.

use vstd::prelude::*;

use crate::arena::live;
use crate::edges::{callers_of, CallerRef, EdgeView, StoreView};
use crate::graph::GraphView;
use crate::ids::{FileId, NodeId, StringId};
use crate::kinds::{EdgeKind, ResolvedVia};
use crate::pass_go_method_set::lookup::inherits_target;
use crate::pass_go_method_set::materialise::{outer_at, LocalView, OuterKey, PromotedKey};
use crate::pass_go_method_set::method_set_laws::{lemma_stands_for, stands_for};
use crate::pass_go_method_set::shadow::{
    call_shadow, has_shape, hinted_shadows, promoted_callee, receiver_type, reference_shadow,
    shadowed, shadowing, shadows, unhinted_shadows, with_shadow_edges, with_shadows, CallShape,
    PendingShadow,
};
use crate::sorting::{
    deduped, law_deduped_keeps_keys, lemma_sorted_contains, sorted, stands_in, Ranked,
};

verus! {

/// Edge `k` is a call of `method` by `caller`.
pub open spec fn is_call(
    g: GraphView,
    k: int,
    method: NodeId,
    caller: NodeId,
    argument_count: u8,
    is_async: bool,
) -> bool {
    &&& 0 <= k < g.edges.edges.len()
    &&& g.edges.edges[k].source == caller
    &&& g.edges.edges[k].target == method
    &&& g.edges.edges[k].kind matches EdgeKind::Calls { argument_count: a, is_async: b, .. }
    &&& a == argument_count
    &&& b == is_async
}

/// `node` is the promoted method `name` of `outer`: the last that is noted as such.
pub open spec fn noted(keys: Seq<OuterKey>, outer: NodeId, name: StringId, node: NodeId) -> bool {
    exists|k: int|
        0 <= k < keys.len() && (#[trigger] keys[k]).outer == outer && keys[k].name == name
            && keys[k].node == node && (forall|j: int|
            k < j < keys.len() ==> !((#[trigger] keys[j]).outer == outer && keys[j].name == name))
}

/// Receiver call `h` says that a call of `method` reaches `target`: the method of that name
/// promoted to the type of the receiver, or to the pointer to it where the receiver is one.
pub open spec fn hint_reaches(
    g: GraphView,
    idx: LocalView,
    h: int,
    method: NodeId,
    target: NodeId,
    argument_count: u8,
    is_async: bool,
) -> bool {
    let hint = g.hints.receiver_calls[h];
    &&& 0 <= h < g.hints.receiver_calls.len()
    &&& hint.callee_method == method
    &&& hint.argument_count == argument_count
    &&& hint.is_async == is_async
    &&& receiver_type(g, hint.receiver) is Some
    &&& noted(
        if hint.receiver is PointerPrefixed {
            idx.outer_pointer
        } else {
            idx.outer_value
        },
        receiver_type(g, hint.receiver)->0.node,
        hint.method_name,
        target,
    )
}

/// `target` was made for a method that is promoted, and stands for `method`.
pub open spec fn made_for(
    g: GraphView,
    idx: LocalView,
    method: NodeId,
    target: NodeId,
) -> bool {
    &&& stands_for(g, target, Some(method))
    &&& (exists|k: int| 0 <= k < idx.value.len() && (#[trigger] idx.value[k]).node == target) || (
    exists|k: int| 0 <= k < idx.pointer.len() && (#[trigger] idx.pointer[k]).node == target)
}

/// A call of `method` reaches the promoted method `target`: a receiver call says so; or,
/// where none is known at all, `target` was made for `method`.
pub open spec fn reaches(
    g: GraphView,
    idx: LocalView,
    method: NodeId,
    target: NodeId,
    argument_count: u8,
    is_async: bool,
) -> bool {
    if g.hints.receiver_calls.len() == 0 {
        made_for(g, idx, method, target)
    } else {
        exists|h: int| #[trigger]
            hint_reaches(g, idx, h, method, target, argument_count, is_async)
    }
}

/// The file of `caller`.
pub open spec fn stands_in_file(g: GraphView, caller: NodeId, file: FileId) -> bool {
    match live(g.nodes, caller) {
        Some(e) => e.file == file,
        None => file == FileId::spec_invalid(),
    }
}

/// `s` follows from a call that reaches its target.
pub open spec fn follows(g: GraphView, idx: LocalView, s: PendingShadow) -> bool {
    exists|k: int, method: NodeId, argument_count: u8, is_async: bool|
        #![trigger is_call(g, k, method, s.caller, argument_count, is_async)]
        is_call(g, k, method, s.caller, argument_count, is_async) && reaches(
            g,
            idx,
            method,
            s.target,
            argument_count,
            is_async,
        ) && stands_in_file(g, s.caller, s.file) && (!s.reference ==> s.argument_count
            == argument_count && s.is_async == is_async)
}

proof fn lemma_callers(edges: Seq<EdgeView>, node: NodeId, n: int, c: CallerRef)
    requires
        0 <= n <= edges.len(),
    ensures
        callers_of(edges, node, n).contains(c) <==> exists|k: int|
            0 <= k < n && caller_at(#[trigger] edges[k], node, c),
    decreases n,
{
    if n > 0 {
        lemma_callers(edges, node, n - 1, c);
        let before = callers_of(edges, node, n - 1);
        let after = callers_of(edges, node, n);
        if before.contains(c) {
            assert(after[before.index_of(c)] == c);
        }
        if after.contains(c) && !before.contains(c) {
            let i = after.index_of(c);
            if i < before.len() {
                assert(before[i] == c);
            }
            assert(caller_at(edges[n - 1], node, c));
        }
        if caller_at(edges[n - 1], node, c) {
            assert(after[before.len() as int] == c);
        }
    }
}

spec fn caller_at(e: EdgeView, node: NodeId, c: CallerRef) -> bool {
    &&& e.target == node
    &&& e.source == c.caller
    &&& e.kind matches EdgeKind::Calls { argument_count, is_async, .. }
    &&& argument_count == c.argument_count
    &&& is_async == c.is_async
}

proof fn lemma_call(g: GraphView, method: NodeId, c: CallerRef)
    ensures
        callers_of(g.edges.edges, method, g.edges.edges.len() as int).contains(c) <==> exists|
            k: int,
        | #[trigger]
            is_call(g, k, method, c.caller, c.argument_count, c.is_async),
{
    let edges = g.edges.edges;
    lemma_callers(edges, method, edges.len() as int, c);
    if exists|k: int| 0 <= k < edges.len() && caller_at(#[trigger] edges[k], method, c) {
        let k = choose|k: int| 0 <= k < edges.len() && caller_at(#[trigger] edges[k], method, c);
        assert(is_call(g, k, method, c.caller, c.argument_count, c.is_async));
    }
    if exists|k: int| #[trigger] is_call(g, k, method, c.caller, c.argument_count, c.is_async) {
        let k = choose|k: int| #[trigger]
            is_call(g, k, method, c.caller, c.argument_count, c.is_async);
        assert(caller_at(edges[k], method, c));
    }
}

/// `s` is one of the two shadows of the call `c` on `target`.
spec fn shadow_of(g: GraphView, c: CallerRef, target: NodeId, s: PendingShadow) -> bool {
    s == call_shadow(g, c, target) || s == reference_shadow(g, c, target)
}

proof fn lemma_with_shadows(
    g: GraphView,
    pending: Seq<PendingShadow>,
    callers: Seq<CallerRef>,
    target: NodeId,
    shape: Option<CallShape>,
    n: int,
    s: PendingShadow,
)
    requires
        0 <= n <= callers.len(),
    ensures
        with_shadows(g, pending, callers, target, shape, n).contains(s) <==> pending.contains(s)
            || exists|i: int|
            0 <= i < n && has_shape(#[trigger] callers[i], shape) && shadow_of(
                g,
                callers[i],
                target,
                s,
            ),
    decreases n,
{
    if n > 0 {
        lemma_with_shadows(g, pending, callers, target, shape, n - 1, s);
        let before = with_shadows(g, pending, callers, target, shape, n - 1);
        let c = callers[n - 1];
        if has_shape(c, shape) {
            let mid = before.push(call_shadow(g, c, target));
            let after = mid.push(reference_shadow(g, c, target));
            if before.contains(s) {
                assert(after[before.index_of(s)] == s);
            }
            assert(after[before.len() as int] == call_shadow(g, c, target));
            assert(after[before.len() as int + 1] == reference_shadow(g, c, target));
            if after.contains(s) && !before.contains(s) {
                let i = after.index_of(s);
                if i < before.len() {
                    assert(before[i] == s);
                }
            }
        }
        assert(callers[n - 1] == c);
    }
}

/// `s` is a shadow on `target` of some call of `method` that has the shape.
spec fn shadows_call(
    g: GraphView,
    method: NodeId,
    target: NodeId,
    shape: Option<CallShape>,
    s: PendingShadow,
) -> bool {
    exists|c: CallerRef|
        #![trigger shadow_of(g, c, target, s)]
        has_shape(c, shape) && shadow_of(g, c, target, s) && callers_of(
            g.edges.edges,
            method,
            g.edges.edges.len() as int,
        ).contains(c)
}

proof fn lemma_shadowing(
    g: GraphView,
    pending: Seq<PendingShadow>,
    method: NodeId,
    target: NodeId,
    shape: Option<CallShape>,
    s: PendingShadow,
)
    ensures
        shadowing(g, pending, method, target, shape).contains(s) <==> pending.contains(s)
            || shadows_call(g, method, target, shape, s),
{
    let callers = callers_of(g.edges.edges, method, g.edges.edges.len() as int);
    lemma_with_shadows(g, pending, callers, target, shape, callers.len() as int, s);
    if exists|i: int|
        0 <= i < callers.len() && has_shape(#[trigger] callers[i], shape) && shadow_of(
            g,
            callers[i],
            target,
            s,
        ) {
        let i = choose|i: int|
            0 <= i < callers.len() && has_shape(#[trigger] callers[i], shape) && shadow_of(
                g,
                callers[i],
                target,
                s,
            );
        assert(callers.contains(callers[i]));
        assert(shadow_of(g, callers[i], target, s));
    }
    if shadows_call(g, method, target, shape, s) {
        let c = choose|c: CallerRef|
            #![trigger shadow_of(g, c, target, s)]
            has_shape(c, shape) && shadow_of(g, c, target, s) && callers.contains(c);
        let i = callers.index_of(c);
        assert(has_shape(callers[i], shape));
    }
}

proof fn lemma_unhinted(
    g: GraphView,
    pending: Seq<PendingShadow>,
    made: Seq<PromotedKey>,
    n: int,
    s: PendingShadow,
)
    requires
        0 <= n <= made.len(),
    ensures
        unhinted_shadows(g, pending, made, n).contains(s) <==> pending.contains(s) || exists|i: int|
            0 <= i < n && inherits_target(g, (#[trigger] made[i]).node) is Some && shadows_call(
                g,
                inherits_target(g, made[i].node)->0,
                made[i].node,
                None,
                s,
            ),
    decreases n,
{
    if n > 0 {
        lemma_unhinted(g, pending, made, n - 1, s);
        let before = unhinted_shadows(g, pending, made, n - 1);
        if let Some(method) = inherits_target(g, made[n - 1].node) {
            lemma_shadowing(g, before, method, made[n - 1].node, None, s);
        }
        assert(made[n - 1] == made[n - 1]);
    }
}

spec fn hint_shadows(g: GraphView, idx: LocalView, h: int, s: PendingShadow) -> bool {
    let hint = g.hints.receiver_calls[h];
    promoted_callee(g, idx, hint) is Some && shadows_call(
        g,
        hint.callee_method,
        promoted_callee(g, idx, hint)->0,
        Some(CallShape { argument_count: hint.argument_count, is_async: hint.is_async }),
        s,
    )
}

proof fn lemma_hinted(g: GraphView, idx: LocalView, n: int, s: PendingShadow)
    requires
        0 <= n <= g.hints.receiver_calls.len(),
    ensures
        hinted_shadows(g, idx, n).contains(s) <==> exists|h: int|
            0 <= h < n && #[trigger] hint_shadows(g, idx, h, s),
    decreases n,
{
    if n > 0 {
        lemma_hinted(g, idx, n - 1, s);
        let before = hinted_shadows(g, idx, n - 1);
        let hint = g.hints.receiver_calls[n - 1];
        if let Some(target) = promoted_callee(g, idx, hint) {
            lemma_shadowing(
                g,
                before,
                hint.callee_method,
                target,
                Some(CallShape { argument_count: hint.argument_count, is_async: hint.is_async }),
                s,
            );
        }
        let after = hinted_shadows(g, idx, n);
        if after.contains(s) && !before.contains(s) {
            assert(hint_shadows(g, idx, n - 1, s));
        }
        if before.contains(s) {
            let h = choose|h: int| 0 <= h < n - 1 && #[trigger] hint_shadows(g, idx, h, s);
            assert(hint_shadows(g, idx, h, s));
        }
        if exists|h: int| 0 <= h < n && #[trigger] hint_shadows(g, idx, h, s) {
            let h = choose|h: int| 0 <= h < n && #[trigger] hint_shadows(g, idx, h, s);
            if h < n - 1 {
                assert(before.contains(s));
            }
        }
    }
}

proof fn lemma_outer_at(
    keys: Seq<OuterKey>,
    outer: NodeId,
    name: StringId,
    n: int,
) -> (k: int)
    requires
        0 <= n <= keys.len(),
    ensures
        -1 <= k < n,
        k >= 0 ==> keys[k].outer == outer && keys[k].name == name && outer_at(keys, outer, name, n)
            == Some(keys[k].node),
        k < 0 ==> outer_at(keys, outer, name, n) is None,
        forall|j: int|
            k < j < n ==> !((#[trigger] keys[j]).outer == outer && keys[j].name == name),
    decreases n,
{
    if n <= 0 {
        -1
    } else if keys[n - 1].outer == outer && keys[n - 1].name == name {
        n - 1
    } else {
        lemma_outer_at(keys, outer, name, n - 1)
    }
}

proof fn lemma_noted(keys: Seq<OuterKey>, outer: NodeId, name: StringId, node: NodeId)
    ensures
        noted(keys, outer, name, node) <==> outer_at(keys, outer, name, keys.len() as int) == Some(
            node,
        ),
{
    let m = lemma_outer_at(keys, outer, name, keys.len() as int);
    if m >= 0 {
        assert(keys[m].outer == outer);
        if noted(keys, outer, name, node) {
            let k = choose|k: int|
                0 <= k < keys.len() && (#[trigger] keys[k]).outer == outer && keys[k].name == name
                    && keys[k].node == node && (forall|j: int|
                    k < j < keys.len() ==> !((#[trigger] keys[j]).outer == outer && keys[j].name
                        == name));
            assert(keys[k].outer == outer);
            assert(k == m);
        }
    }
}

proof fn lemma_hint(g: GraphView, idx: LocalView, h: int, target: NodeId)
    requires
        0 <= h < g.hints.receiver_calls.len(),
    ensures
        ({
            let hint = g.hints.receiver_calls[h];
            promoted_callee(g, idx, hint) == Some(target) <==> hint_reaches(
                g,
                idx,
                h,
                hint.callee_method,
                target,
                hint.argument_count,
                hint.is_async,
            )
        }),
{
    let hint = g.hints.receiver_calls[h];
    if let Some(r) = receiver_type(g, hint.receiver) {
        lemma_noted(idx.outer_pointer, r.node, hint.method_name, target);
        lemma_noted(idx.outer_value, r.node, hint.method_name, target);
    }
}

spec fn pending_shadows(g: GraphView, idx: LocalView) -> Seq<PendingShadow> {
    if g.hints.receiver_calls.len() == 0 {
        unhinted_shadows(
            g,
            unhinted_shadows(g, Seq::empty(), idx.value, idx.value.len() as int),
            idx.pointer,
            idx.pointer.len() as int,
        )
    } else {
        hinted_shadows(g, idx, g.hints.receiver_calls.len() as int)
    }
}

proof fn lemma_follows(
    g: GraphView,
    idx: LocalView,
    method: NodeId,
    target: NodeId,
    shape: Option<CallShape>,
    s: PendingShadow,
)
    requires
        shadows_call(g, method, target, shape, s),
        forall|argument_count: u8, is_async: bool|
            has_shape(
                CallerRef { caller: s.caller, argument_count, is_async },
                shape,
            ) ==> #[trigger] reaches(g, idx, method, target, argument_count, is_async),
    ensures
        follows(g, idx, s),
{
    let c = choose|c: CallerRef|
        #![trigger shadow_of(g, c, target, s)]
        has_shape(c, shape) && shadow_of(g, c, target, s) && callers_of(
            g.edges.edges,
            method,
            g.edges.edges.len() as int,
        ).contains(c);
    lemma_call(g, method, c);
    let k = choose|k: int| #[trigger]
        is_call(g, k, method, c.caller, c.argument_count, c.is_async);
    assert(has_shape(
        CallerRef { caller: s.caller, argument_count: c.argument_count, is_async: c.is_async },
        shape,
    ));
    assert(reaches(g, idx, method, target, c.argument_count, c.is_async));
    assert(s.caller == c.caller && s.target == target);
    assert(is_call(g, k, method, s.caller, c.argument_count, c.is_async));
}

proof fn lemma_pending_follow(g: GraphView, idx: LocalView, s: PendingShadow)
    requires
        pending_shadows(g, idx).contains(s),
    ensures
        follows(g, idx, s),
{
    if g.hints.receiver_calls.len() == 0 {
        let first = unhinted_shadows(g, Seq::empty(), idx.value, idx.value.len() as int);
        lemma_unhinted(g, first, idx.pointer, idx.pointer.len() as int, s);
        lemma_unhinted(g, Seq::empty(), idx.value, idx.value.len() as int, s);
        let keys = if first.contains(s) {
            idx.value
        } else {
            idx.pointer
        };
        let i = choose|i: int|
            0 <= i < keys.len() && inherits_target(g, (#[trigger] keys[i]).node) is Some
                && shadows_call(g, inherits_target(g, keys[i].node)->0, keys[i].node, None, s);
        let node = keys[i].node;
        let method = inherits_target(g, node)->0;
        lemma_stands_for(g, node, Some(method));
        assert(made_for(g, idx, method, node)) by {
            if first.contains(s) {
                assert(idx.value[i].node == node);
            } else {
                assert(idx.pointer[i].node == node);
            }
        }
        lemma_follows(g, idx, method, node, None, s);
    } else {
        let n = g.hints.receiver_calls.len() as int;
        lemma_hinted(g, idx, n, s);
        let h = choose|h: int| 0 <= h < n && #[trigger] hint_shadows(g, idx, h, s);
        let hint = g.hints.receiver_calls[h];
        let target = promoted_callee(g, idx, hint)->0;
        let shape = Some(
            CallShape { argument_count: hint.argument_count, is_async: hint.is_async },
        );
        lemma_hint(g, idx, h, target);
        assert forall|argument_count: u8, is_async: bool|
            has_shape(
                CallerRef { caller: s.caller, argument_count, is_async },
                shape,
            ) implies #[trigger] reaches(
            g,
            idx,
            hint.callee_method,
            target,
            argument_count,
            is_async,
        ) by {
            assert(hint_reaches(
                g,
                idx,
                h,
                hint.callee_method,
                target,
                argument_count,
                is_async,
            ));
        }
        lemma_follows(g, idx, hint.callee_method, target, shape, s);
    }
}

proof fn lemma_pending_there(
    g: GraphView,
    idx: LocalView,
    k: int,
    method: NodeId,
    caller: NodeId,
    target: NodeId,
    argument_count: u8,
    is_async: bool,
)
    requires
        is_call(g, k, method, caller, argument_count, is_async),
        reaches(g, idx, method, target, argument_count, is_async),
    ensures
        ({
            let c = CallerRef { caller, argument_count, is_async };
            &&& pending_shadows(g, idx).contains(call_shadow(g, c, target))
            &&& pending_shadows(g, idx).contains(reference_shadow(g, c, target))
        }),
{
    let c = CallerRef { caller, argument_count, is_async };
    lemma_call(g, method, c);
    let a = call_shadow(g, c, target);
    let b = reference_shadow(g, c, target);
    assert(shadow_of(g, c, target, a) && shadow_of(g, c, target, b));
    if g.hints.receiver_calls.len() == 0 {
        let first = unhinted_shadows(g, Seq::empty(), idx.value, idx.value.len() as int);
        lemma_unhinted(g, first, idx.pointer, idx.pointer.len() as int, a);
        lemma_unhinted(g, Seq::empty(), idx.value, idx.value.len() as int, a);
        lemma_unhinted(g, first, idx.pointer, idx.pointer.len() as int, b);
        lemma_unhinted(g, Seq::empty(), idx.value, idx.value.len() as int, b);
        lemma_stands_for(g, target, Some(method));
        assert(shadows_call(g, method, target, None, a));
        assert(shadows_call(g, method, target, None, b));
        if exists|i: int| 0 <= i < idx.value.len() && (#[trigger] idx.value[i]).node == target {
            let i = choose|i: int|
                0 <= i < idx.value.len() && (#[trigger] idx.value[i]).node == target;
            assert(inherits_target(g, idx.value[i].node) is Some);
        } else {
            let i = choose|i: int|
                0 <= i < idx.pointer.len() && (#[trigger] idx.pointer[i]).node == target;
            assert(inherits_target(g, idx.pointer[i].node) is Some);
        }
    } else {
        let n = g.hints.receiver_calls.len() as int;
        let h = choose|h: int| #[trigger]
            hint_reaches(g, idx, h, method, target, argument_count, is_async);
        lemma_hint(g, idx, h, target);
        lemma_hinted(g, idx, n, a);
        lemma_hinted(g, idx, n, b);
        let hint = g.hints.receiver_calls[h];
        let shape = Some(
            CallShape { argument_count: hint.argument_count, is_async: hint.is_async },
        );
        assert(has_shape(c, shape));
        assert(hint_shadows(g, idx, h, a));
        assert(hint_shadows(g, idx, h, b));
    }
}

/// Whatever is added follows from a call that reaches a promoted method.
pub proof fn law_shadows_follow_from_calls(g: GraphView, idx: LocalView, i: int)
    requires
        0 <= i < shadows(g, idx).len(),
    ensures
        follows(g, idx, shadows(g, idx)[i]),
{
    let all = pending_shadows(g, idx);
    let s = sorted(all);
    law_deduped_keeps_keys(s, s.len() as int);
    let x = shadows(g, idx)[i];
    assert(s.contains(deduped(s, s.len() as int)[i]));
    lemma_sorted_contains(all, x);
    lemma_pending_follow(g, idx, x);
}

/// Shadow `i` leads from where `caller` stands to where `target` stands.
pub open spec fn shadow_at(
    g: GraphView,
    idx: LocalView,
    i: int,
    caller: NodeId,
    target: NodeId,
    reference: bool,
) -> bool {
    &&& 0 <= i < shadows(g, idx).len()
    &&& shadows(g, idx)[i].caller.index == caller.index
    &&& shadows(g, idx)[i].target.index == target.index
    &&& shadows(g, idx)[i].reference == reference
}

proof fn lemma_kept(g: GraphView, idx: LocalView, x: PendingShadow) -> (i: int)
    requires
        pending_shadows(g, idx).contains(x),
    ensures
        shadow_at(g, idx, i, x.caller, x.target, x.reference),
{
    let all = pending_shadows(g, idx);
    let s = sorted(all);
    let kept = shadows(g, idx);
    law_deduped_keeps_keys(s, s.len() as int);
    lemma_sorted_contains(all, x);
    let j = s.index_of(x);
    assert(stands_in(kept, s[j]));
    if kept.contains(x) {
        kept.index_of(x)
    } else {
        choose|k: int| 0 <= k < kept.len() && (#[trigger] kept[k]).same_rank(x)
    }
}

/// Every call that reaches a promoted method calls it and refers to it. What is added is
/// told apart by the places of its ends.
pub proof fn law_calls_of_promoted_methods_are_shadowed(
    g: GraphView,
    idx: LocalView,
    k: int,
    method: NodeId,
    caller: NodeId,
    target: NodeId,
    argument_count: u8,
    is_async: bool,
)
    requires
        is_call(g, k, method, caller, argument_count, is_async),
        reaches(g, idx, method, target, argument_count, is_async),
    ensures
        exists|i: int| shadow_at(g, idx, i, caller, target, false),
        exists|i: int| shadow_at(g, idx, i, caller, target, true),
{
    let c = CallerRef { caller, argument_count, is_async };
    lemma_pending_there(g, idx, k, method, caller, target, argument_count, is_async);
    let i = lemma_kept(g, idx, call_shadow(g, c, target));
    let j = lemma_kept(g, idx, reference_shadow(g, c, target));
    assert(shadow_at(g, idx, i, caller, target, false));
    assert(shadow_at(g, idx, j, caller, target, true));
}

/// The graph gets one edge for each, behind those that it has: a direct call of the same
/// shape, or a reference.
pub proof fn law_shadows_become_edges(g: GraphView, idx: LocalView)
    ensures
        g.edges.edges.is_prefix_of(shadowed(g, idx).edges.edges),
        shadowed(g, idx).edges.edges.len() == g.edges.edges.len() + shadows(g, idx).len(),
        forall|i: int|
            0 <= i < shadows(g, idx).len() ==> {
                let s = #[trigger] shadows(g, idx)[i];
                let e = shadowed(g, idx).edges.edges[g.edges.edges.len() + i];
                &&& e.source == s.caller
                &&& e.target == s.target
                &&& e.file == s.file
                &&& s.reference ==> e.kind == EdgeKind::References
                &&& !s.reference ==> e.kind == (EdgeKind::Calls {
                    argument_count: s.argument_count,
                    is_async: s.is_async,
                    resolved_via: ResolvedVia::Direct,
                })
            },
{
    let p = shadows(g, idx);
    lemma_edges(g.edges, p, p.len() as int);
}

spec fn edge_says(s: PendingShadow, e: EdgeView) -> bool {
    &&& e.source == s.caller
    &&& e.target == s.target
    &&& e.file == s.file
    &&& s.reference ==> e.kind == EdgeKind::References
    &&& !s.reference ==> e.kind == (EdgeKind::Calls {
        argument_count: s.argument_count,
        is_async: s.is_async,
        resolved_via: ResolvedVia::Direct,
    })
}

proof fn lemma_edges(store: StoreView, p: Seq<PendingShadow>, n: int)
    requires
        0 <= n <= p.len(),
    ensures
        store.edges.is_prefix_of(with_shadow_edges(store, p, n).edges),
        with_shadow_edges(store, p, n).edges.len() == store.edges.len() + n,
        forall|i: int|
            0 <= i < n ==> edge_says(
                #[trigger] p[i],
                with_shadow_edges(store, p, n).edges[store.edges.len() + i],
            ),
    decreases n,
{
    if n > 0 {
        lemma_edges(store, p, n - 1);
    }
}

} // verus!
