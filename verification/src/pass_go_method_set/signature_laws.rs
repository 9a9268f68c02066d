//! What the canonical signature text promises of itself: normalising a second
//! time changes nothing, and parameter names and white space leave no trace.

use vstd::prelude::*;

use crate::indices::lemma_filter_take;
use crate::pass_go_method_set::signature::{
    after_angle, ascii_space, canonical_params, canonical_returns, canonical_signature,
    count_arrows, count_char, ident_continue, ident_end, ident_start, joined_params, joined_types,
    list_body, named_type_at, param_text, paren_depth, part_start, parts, parts_before, separates,
    space_end, squeezed, top_level, type_keyword, type_text, unwrapped, without_name, wrapped,
};
use crate::text::{is_white, trim_end, trim_start, trim_text};

verus! {

/// What a character, or a stretch of them, does to the brackets.
#[verifier::ext_equal]
struct Weight {
    /// How far round brackets are opened.
    round: int,
    /// How far square brackets are opened.
    square: int,
    /// How far angle brackets are opened.
    angle: int,
    /// How many round brackets are opened, closed again or not.
    opened: int,
}

spec fn weightless() -> Weight {
    Weight { round: 0, square: 0, angle: 0, opened: 0 }
}

/// What `c` does to the brackets; `open` says that it follows a `<`.
spec fn weight(c: char, open: bool) -> Weight {
    if c == '(' {
        Weight { round: 1, opened: 1, ..weightless() }
    } else if c == ')' {
        Weight { round: -1, ..weightless() }
    } else if c == '[' {
        Weight { square: 1, ..weightless() }
    } else if c == ']' {
        Weight { square: -1, ..weightless() }
    } else if c == '<' {
        Weight { angle: 1, ..weightless() }
    } else if c == '>' || (c == '-' && open) {
        Weight { angle: -1, ..weightless() }
    } else {
        weightless()
    }
}

/// What the first `n` characters of `s` do to the brackets.
spec fn net(s: Seq<char>, n: int) -> Weight {
    Weight {
        round: paren_depth(s, n),
        square: count_char(s, '[', n) - count_char(s, ']', n),
        angle: count_char(s, '<', n) - count_arrows(s, n) - count_char(s, '>', n),
        opened: count_char(s, '(', n),
    }
}

spec fn plus(a: Weight, b: Weight) -> Weight {
    Weight {
        round: a.round + b.round,
        square: a.square + b.square,
        angle: a.angle + b.angle,
        opened: a.opened + b.opened,
    }
}

/// Whether every bracket that was opened was closed.
spec fn balanced(w: Weight) -> bool {
    w.round == 0 && w.square == 0 && w.angle == 0
}

/// Whether `c` is neither a comma nor part of a bracket or an arrow.
spec fn calm(c: char) -> bool {
    weight(c, true) == weightless() && c != ','
}

/// Whether no comma of `s` separates two parts.
spec fn clean(s: Seq<char>) -> bool {
    forall|i: int| 0 <= i < s.len() ==> !#[trigger] separates(s, i)
}

proof fn lemma_net_step(s: Seq<char>, n: int)
    requires
        0 < n,
    ensures
        net(s, n) == plus(net(s, n - 1), weight(s[n - 1], after_angle(s, n - 1))),
        net(s, 0) == weightless(),
{
}

proof fn lemma_top_level(s: Seq<char>, n: int)
    ensures
        top_level(s, n) <==> balanced(net(s, n)),
{
}

/// What `t` adds to the brackets that are open where it starts in `s`.
proof fn lemma_net_shift(s: Seq<char>, from: int, t: Seq<char>, n: int)
    requires
        0 <= from,
        0 <= n <= t.len(),
        from + n <= s.len(),
        !after_angle(s, from),
        forall|i: int| 0 <= i < n ==> t[i] == s[from + i],
    ensures
        net(s, from + n) == plus(net(s, from), net(t, n)),
        after_angle(s, from + n) == after_angle(t, n),
    decreases n,
{
    lemma_net_step(s, 1);
    lemma_net_step(t, 1);
    if n > 0 {
        lemma_net_shift(s, from, t, n - 1);
        lemma_net_step(s, from + n);
        lemma_net_step(t, n);
    }
}

proof fn lemma_net_prefix(s: Seq<char>, t: Seq<char>, n: int)
    requires
        0 <= n <= t.len(),
        n <= s.len(),
        forall|i: int| 0 <= i < n ==> t[i] == s[i],
    ensures
        net(s, n) == net(t, n),
        after_angle(s, n) == after_angle(t, n),
{
    lemma_net_shift(s, 0, t, n);
    lemma_net_step(s, 1);
}

/// Characters from `k` on that are calm leave the brackets as they are.
proof fn lemma_net_calm(s: Seq<char>, k: int, n: int)
    requires
        0 <= k <= n <= s.len(),
        forall|i: int| k <= i < n ==> calm(#[trigger] s[i]),
    ensures
        net(s, n) == net(s, k),
        k == 0 ==> !after_angle(s, n),
    decreases n,
{
    if n > k {
        lemma_net_calm(s, k, n - 1);
        lemma_net_step(s, n);
        assert(calm(s[n - 1]));
    }
}

proof fn lemma_drop_front(s: Seq<char>, j: int)
    requires
        0 <= j <= s.len(),
        forall|i: int| 0 <= i < j ==> calm(#[trigger] s[i]),
    ensures
        ({
            let t = s.subrange(j, s.len() as int);
            net(t, t.len() as int) == net(s, s.len() as int) && (clean(s) ==> clean(t))
        }),
{
    let t = s.subrange(j, s.len() as int);
    lemma_net_calm(s, 0, j);
    lemma_net_step(s, 1);
    lemma_net_shift(s, j, t, t.len() as int);
    if clean(s) {
        assert forall|i: int| 0 <= i < t.len() implies !#[trigger] separates(t, i) by {
            lemma_net_shift(s, j, t, i);
            lemma_top_level(s, j + i);
            lemma_top_level(t, i);
            assert(!separates(s, j + i));
        }
    }
}

proof fn lemma_drop_back(s: Seq<char>, k: int)
    requires
        0 <= k <= s.len(),
        forall|i: int| k <= i < s.len() ==> calm(#[trigger] s[i]),
    ensures
        ({
            let t = s.subrange(0, k);
            net(t, k) == net(s, s.len() as int) && (clean(s) ==> clean(t))
        }),
    decreases s.len() - k,
{
    let t = s.subrange(0, k);
    lemma_net_prefix(s, t, k);
    if clean(s) {
        assert forall|i: int| 0 <= i < t.len() implies !#[trigger] separates(t, i) by {
            lemma_net_prefix(s, t, i);
            lemma_top_level(s, i);
            lemma_top_level(t, i);
            assert(!separates(s, i));
        }
    }
    lemma_net_calm(s, k, s.len() as int);
}

/// Whether `s` neither starts nor ends with white space.
pub open spec fn trimmed(s: Seq<char>) -> bool {
    s.len() > 0 ==> !is_white(s[0]) && !is_white(s[s.len() - 1])
}

proof fn lemma_trim_start(s: Seq<char>)
    ensures
        ({
            let t = trim_start(s);
            &&& t.len() <= s.len()
            &&& t.len() > 0 ==> !is_white(t[0]) && t[t.len() - 1] == s[s.len() - 1]
            &&& net(t, t.len() as int) == net(s, s.len() as int)
            &&& clean(s) ==> clean(t)
            &&& s.len() > 0 && is_white(s[0]) ==> t.len() < s.len()
            &&& !(s.len() > 0 && is_white(s[0])) ==> t == s
        }),
    decreases s.len(),
{
    if s.len() > 0 && is_white(s[0]) {
        let r = s.subrange(1, s.len() as int);
        assert(calm(s[0]));
        lemma_drop_front(s, 1);
        lemma_trim_start(r);
    }
}

proof fn lemma_trim_end(s: Seq<char>)
    ensures
        ({
            let t = trim_end(s);
            &&& t.len() <= s.len()
            &&& t.len() > 0 ==> !is_white(t[t.len() - 1]) && t[0] == s[0]
            &&& net(t, t.len() as int) == net(s, s.len() as int)
            &&& clean(s) ==> clean(t)
            &&& s.len() > 0 && is_white(s[s.len() - 1]) ==> t.len() < s.len()
            &&& !(s.len() > 0 && is_white(s[s.len() - 1])) ==> t == s
        }),
    decreases s.len(),
{
    if s.len() > 0 && is_white(s[s.len() - 1]) {
        let r = s.subrange(0, s.len() - 1);
        assert(calm(s[s.len() - 1]));
        lemma_drop_back(s, s.len() - 1);
        lemma_trim_end(r);
    }
}

proof fn lemma_trim(s: Seq<char>)
    ensures
        ({
            let t = trim_text(s);
            &&& trimmed(t)
            &&& t.len() <= s.len()
            &&& net(t, t.len() as int) == net(s, s.len() as int)
            &&& clean(s) ==> clean(t)
            &&& trimmed(s) ==> t == s
            &&& !trimmed(s) ==> t.len() < s.len()
        }),
{
    lemma_trim_start(s);
    lemma_trim_end(trim_start(s));
}

/// Whether every white space character of `s` is one blank between two
/// identifier characters.
pub open spec fn compact(s: Seq<char>) -> bool {
    forall|i: int|
        0 <= i < s.len() && ascii_space(#[trigger] s[i]) ==> {
            &&& s[i] == ' '
            &&& 0 < i < s.len() - 1
            &&& ident_continue(s[i - 1])
            &&& ident_continue(s[i + 1])
        }
}

proof fn lemma_squeezed(s: Seq<char>, n: int)
    requires
        0 <= n <= s.len(),
    ensures
        ({
            let out = squeezed(s, n);
            &&& out.len() <= n
            &&& compact(out)
            &&& net(out, out.len() as int) == net(s, n)
            &&& after_angle(out, out.len() as int) == after_angle(s, n)
            &&& (forall|k: int| 0 <= k < n ==> !#[trigger] separates(s, k)) ==> clean(out)
            &&& n > 0 && !ascii_space(s[0]) ==> out.len() > 0 && out[0] == s[0]
            &&& n > 0 && !ascii_space(s[n - 1]) ==> out.len() > 0 && out[out.len() - 1] == s[n - 1]
            &&& n > 0 && ascii_space(s[n - 1]) ==> out.len() < n
        }),
    decreases n,
{
    lemma_net_step(s, 1);
    if n > 0 {
        lemma_squeezed(s, n - 1);
        let before = squeezed(s, n - 1);
        let out = squeezed(s, n);
        let c = s[n - 1];
        lemma_net_step(s, n);
        if ascii_space(c) {
            assert(weight(c, true) == weightless());
        } else {
            if n >= 2 && !ascii_space(s[n - 2]) {
                assert(before.len() <= n - 1);
            }
            lemma_net_prefix(out, before, before.len() as int);
            if out.len() == before.len() + 2 {
                lemma_net_step(out, out.len() - 1);
            }
            lemma_net_step(out, out.len() as int);
            if forall|k: int| 0 <= k < n ==> !#[trigger] separates(s, k) {
                assert forall|i: int| 0 <= i < out.len() implies !#[trigger] separates(out, i) by {
                    if i < before.len() {
                        assert(!separates(before, i));
                        lemma_net_prefix(out, before, i);
                        lemma_top_level(out, i);
                        lemma_top_level(before, i);
                    } else if i == out.len() - 1 {
                        assert(!separates(s, n - 1));
                        lemma_top_level(out, i);
                        lemma_top_level(s, n - 1);
                    }
                }
            }
            assert forall|i: int| 0 <= i < out.len() && ascii_space(#[trigger] out[i]) implies {
                &&& out[i] == ' '
                &&& 0 < i < out.len() - 1
                &&& ident_continue(out[i - 1])
                &&& ident_continue(out[i + 1])
            } by {
                if i < before.len() {
                    assert(out[i] == before[i]);
                    assert(ascii_space(before[i]));
                    assert(out[i + 1] == before[i + 1]);
                    assert(out[i - 1] == before[i - 1]);
                }
            }
        }
    }
}

/// A compact text is squeezed already.
proof fn lemma_compact_squeezed(s: Seq<char>, n: int)
    requires
        compact(s),
        0 <= n <= s.len(),
    ensures
        squeezed(s, n) == (if n > 0 && ascii_space(s[n - 1]) {
            s.take(n - 1)
        } else {
            s.take(n)
        }),
    decreases n,
{
    if n > 0 {
        lemma_compact_squeezed(s, n - 1);
        let c = s[n - 1];
        if ascii_space(c) {
            assert(n >= 2 && ident_continue(s[n - 2]));
        } else if n >= 2 && ascii_space(s[n - 2]) {
            assert(ident_continue(s[n - 3]) && ident_continue(s[n - 1]) && s[n - 2] == ' ');
            assert(s.take(n) =~= s.take(n - 2).push(' ').push(c));
        } else {
            assert(s.take(n) =~= s.take(n - 1).push(c));
        }
    } else {
        assert(s.take(0) =~= Seq::empty());
    }
}

proof fn lemma_type_text(s: Seq<char>)
    ensures
        ({
            let t = type_text(s);
            &&& trimmed(t)
            &&& compact(t)
            &&& t.len() <= s.len()
            &&& net(t, t.len() as int) == net(s, s.len() as int)
            &&& clean(s) ==> clean(t)
            &&& trimmed(s) && compact(s) ==> t == s
            &&& !trimmed(s) ==> t.len() < s.len()
        }),
{
    let t = trim_text(s);
    lemma_trim(s);
    lemma_squeezed(t, t.len() as int);
    if trimmed(s) && compact(s) {
        lemma_compact_squeezed(s, s.len() as int);
        assert(s.take(s.len() as int) =~= s);
    }
}

/// Normalising the text of a type a second time changes nothing.
pub proof fn law_type_text_is_stable(s: Seq<char>)
    ensures
        type_text(type_text(s)) == type_text(s),
{
    lemma_type_text(s);
    lemma_type_text(type_text(s));
}

proof fn lemma_ident_end(s: Seq<char>, i: int)
    requires
        0 <= i <= s.len(),
    ensures
        i <= ident_end(s, i) <= s.len(),
        forall|k: int| i <= k < ident_end(s, i) ==> ident_continue(#[trigger] s[k]),
        ident_end(s, i) < s.len() ==> !ident_continue(s[ident_end(s, i)]),
    decreases s.len() - i,
{
    if i < s.len() && ident_continue(s[i]) {
        lemma_ident_end(s, i + 1);
    }
}

proof fn lemma_space_end(s: Seq<char>, i: int)
    requires
        0 <= i <= s.len(),
    ensures
        i <= space_end(s, i) <= s.len(),
        forall|k: int| i <= k < space_end(s, i) ==> ascii_space(#[trigger] s[k]),
        space_end(s, i) < s.len() ==> !ascii_space(s[space_end(s, i)]),
    decreases s.len() - i,
{
    if i < s.len() && ascii_space(s[i]) {
        lemma_space_end(s, i + 1);
    }
}

proof fn lemma_without_name(s: Seq<char>)
    ensures
        ({
            let t = without_name(s);
            &&& net(t, t.len() as int) == net(s, s.len() as int)
            &&& clean(s) ==> clean(t)
            &&& named_type_at(s) is Some ==> t.len() < s.len()
            &&& t.len() <= s.len()
        }),
{
    if let Some(j) = named_type_at(s) {
        let i = ident_end(s, 1);
        lemma_ident_end(s, 1);
        lemma_space_end(s, i + 1);
        assert forall|k: int| 0 <= k < j implies calm(#[trigger] s[k]) by {
            if k > 0 && k < i {
                assert(ident_continue(s[k]));
            }
            if k > i {
                assert(ascii_space(s[k]));
            }
        }
        lemma_drop_front(s, j);
    }
}

proof fn lemma_param_text(s: Seq<char>)
    ensures
        ({
            let t = param_text(s);
            &&& trimmed(t)
            &&& compact(t)
            &&& t.len() <= s.len()
            &&& net(t, t.len() as int) == net(s, s.len() as int)
            &&& clean(s) ==> clean(t)
            &&& trimmed(s) && compact(s) && named_type_at(s) is None ==> t == s
            &&& trimmed(s) && named_type_at(s) is Some ==> t.len() < s.len()
        }),
{
    let t = trim_text(s);
    lemma_trim(s);
    lemma_without_name(t);
    lemma_type_text(without_name(t));
}

/// A parameter reads like its bare type whatever its name is.
pub proof fn law_parameter_name_is_erased(name: Seq<char>, gap: Seq<char>, ty: Seq<char>)
    requires
        name.len() > 0 && ident_start(name[0]),
        forall|i: int| 0 <= i < name.len() ==> ident_continue(#[trigger] name[i]),
        !type_keyword(name),
        gap.len() > 0,
        forall|i: int| 0 <= i < gap.len() ==> ascii_space(#[trigger] gap[i]),
        ty.len() > 0 && trimmed(ty),
    ensures
        param_text(name + gap + ty) == type_text(ty),
{
    let s = name + gap + ty;
    let i = ident_end(s, 1);
    let j = space_end(s, i + 1);
    lemma_trim(s);
    lemma_ident_end(s, 1);
    assert(s[name.len() as int] == gap[0]);
    assert forall|k: int| 0 <= k < name.len() implies ident_continue(#[trigger] s[k]) by {
        assert(s[k] == name[k]);
    }
    assert(i == name.len());
    assert(s.take(i) =~= name);
    lemma_space_end(s, i + 1);
    assert forall|k: int| i <= k < i + gap.len() implies ascii_space(#[trigger] s[k]) by {
        assert(s[k] == gap[k - i]);
    }
    assert(s[i + gap.len()] == ty[0]);
    assert(j == i + gap.len());
    assert(s.subrange(j, s.len() as int) =~= ty);
}

/// The parts of a text hold no separating comma, and the brackets of all but the
/// last are balanced.
proof fn lemma_parts_before(s: Seq<char>, n: int)
    requires
        0 <= n <= s.len(),
    ensures
        0 <= part_start(s, n) <= n,
        balanced(net(s, part_start(s, n))),
        !after_angle(s, part_start(s, n)),
        forall|k: int| part_start(s, n) <= k < n ==> !#[trigger] separates(s, k),
        forall|i: int|
            0 <= i < parts_before(s, n).len() ==> clean(#[trigger] parts_before(s, n)[i]) && balanced(
                net(parts_before(s, n)[i], parts_before(s, n)[i].len() as int),
            ),
    decreases n,
{
    lemma_net_step(s, 1);
    if n > 0 {
        lemma_parts_before(s, n - 1);
        if separates(s, n - 1) {
            let a = part_start(s, n - 1);
            lemma_part(s, a, n - 1);
            lemma_top_level(s, n - 1);
            lemma_net_step(s, n);
            let before = parts_before(s, n - 1);
            assert forall|i: int| 0 <= i < parts_before(s, n).len() implies clean(
                #[trigger] parts_before(s, n)[i],
            ) && balanced(net(parts_before(s, n)[i], parts_before(s, n)[i].len() as int)) by {
                if i < before.len() {
                    assert(parts_before(s, n)[i] == before[i]);
                }
            }
        }
    }
}

/// A stretch of `s` without separating commas that starts outside all brackets.
proof fn lemma_part(s: Seq<char>, a: int, b: int)
    requires
        0 <= a <= b <= s.len(),
        balanced(net(s, a)),
        !after_angle(s, a),
        forall|k: int| a <= k < b ==> !#[trigger] separates(s, k),
    ensures
        clean(s.subrange(a, b)),
        balanced(net(s.subrange(a, b), b - a)) <==> balanced(net(s, b)),
{
    let t = s.subrange(a, b);
    lemma_net_shift(s, a, t, b - a);
    assert forall|i: int| 0 <= i < t.len() implies !#[trigger] separates(t, i) by {
        lemma_net_shift(s, a, t, i);
        lemma_top_level(s, a + i);
        lemma_top_level(t, i);
        assert(!separates(s, a + i));
    }
}

proof fn lemma_parts(s: Seq<char>)
    ensures
        parts(s).len() >= 1,
        forall|i: int| 0 <= i < parts(s).len() ==> clean(#[trigger] parts(s)[i]),
        forall|i: int|
            0 <= i < parts(s).len() - 1 ==> balanced(
                net(#[trigger] parts(s)[i], parts(s)[i].len() as int),
            ),
{
    lemma_parts_before(s, s.len() as int);
    lemma_part(s, part_start(s, s.len() as int), s.len() as int);
}

/// The first `n` pieces with commas between them.
pub open spec fn joined(q: Seq<Seq<char>>, n: int) -> Seq<char>
    decreases n,
{
    if n <= 0 {
        Seq::empty()
    } else if n == 1 {
        q[0]
    } else {
        joined(q, n - 1).push(',') + q[n - 1]
    }
}

proof fn lemma_joined_same(p: Seq<Seq<char>>, q: Seq<Seq<char>>, n: int)
    requires
        0 <= n <= p.len(),
        n <= q.len(),
        forall|i: int| 0 <= i < n ==> p[i] == q[i],
    ensures
        joined(p, n) == joined(q, n),
    decreases n,
{
    if n > 1 {
        lemma_joined_same(p, q, n - 1);
    }
}

/// Joining the parts of a text gives the text back.
proof fn lemma_parts_join(s: Seq<char>, n: int)
    requires
        0 <= n <= s.len(),
    ensures
        0 <= part_start(s, n) <= n,
        ({
            let p = parts_before(s, n).push(s.subrange(part_start(s, n), n));
            joined(p, p.len() as int) == s.take(n)
        }),
    decreases n,
{
    if n > 0 {
        lemma_parts_join(s, n - 1);
        let a = part_start(s, n - 1);
        let before = parts_before(s, n - 1);
        let p0 = before.push(s.subrange(a, n - 1));
        let p = parts_before(s, n).push(s.subrange(part_start(s, n), n));
        let m = p0.len() as int;
        if separates(s, n - 1) {
            assert(p =~= p0.push(s.subrange(n, n)));
            lemma_joined_same(p0, p, m);
            assert(joined(p, m + 1) == joined(p, m).push(',') + p[m]);
            assert(s.take(n) =~= s.take(n - 1).push(',') + s.subrange(n, n));
        } else {
            assert(p =~= before.push(s.subrange(a, n)));
            assert(s.subrange(a, n) =~= s.subrange(a, n - 1).push(s[n - 1]));
            lemma_joined_same(p0, p, m - 1);
            assert(s.take(n) =~= s.take(n - 1).push(s[n - 1]));
            if m > 1 {
                assert(joined(p, m) == joined(p, m - 1).push(',') + p[m - 1]);
                assert(joined(p0, m) == joined(p0, m - 1).push(',') + p0[m - 1]);
                assert(joined(p, m) =~= joined(p0, m).push(s[n - 1]));
            }
        }
    } else {
        assert(s.take(0) =~= s.subrange(0, 0));
    }
}

proof fn lemma_parts_joined(s: Seq<char>)
    ensures
        joined(parts(s), parts(s).len() as int) == s,
{
    lemma_parts_join(s, s.len() as int);
    assert(s.take(s.len() as int) =~= s);
}

proof fn lemma_no_separator(s: Seq<char>, a: int, n: int)
    requires
        0 <= a <= n <= s.len(),
        forall|k: int| a <= k < n ==> !#[trigger] separates(s, k),
    ensures
        part_start(s, n) == part_start(s, a),
        parts_before(s, n) == parts_before(s, a),
    decreases n,
{
    if n > a {
        lemma_no_separator(s, a, n - 1);
    }
}

proof fn lemma_parts_prefix(s: Seq<char>, t: Seq<char>, n: int)
    requires
        0 <= n <= s.len(),
        n <= t.len(),
        forall|i: int| 0 <= i < n ==> s[i] == t[i],
    ensures
        part_start(s, n) == part_start(t, n),
        parts_before(s, n) == parts_before(t, n),
        0 <= part_start(s, n) <= n,
    decreases n,
{
    if n > 0 {
        lemma_parts_prefix(s, t, n - 1);
        lemma_net_prefix(s, t, n - 1);
        lemma_top_level(s, n - 1);
        lemma_top_level(t, n - 1);
        let a = part_start(s, n - 1);
        assert(s.subrange(a, n - 1) =~= t.subrange(a, n - 1));
    }
}

/// Splitting the joined pieces gives the pieces back.
proof fn lemma_joined_parts(q: Seq<Seq<char>>, n: int)
    requires
        1 <= n <= q.len(),
        forall|i: int| 0 <= i < n ==> clean(#[trigger] q[i]),
        forall|i: int|
            0 <= i < n - 1 ==> balanced(net(#[trigger] q[i], q[i].len() as int)),
    ensures
        parts(joined(q, n)) == q.take(n),
        parts_before(joined(q, n), joined(q, n).len() as int) == q.take(n - 1),
        part_start(joined(q, n), joined(q, n).len() as int) == joined(q, n).len() - q[n - 1].len(),
        balanced(net(joined(q, n), joined(q, n).len() as int)) <==> balanced(
            net(q[n - 1], q[n - 1].len() as int),
        ),
    decreases n,
{
    let j = joined(q, n);
    let last = q[n - 1];
    if n == 1 {
        lemma_no_separator(j, 0, j.len() as int);
        assert(q.take(0) =~= Seq::empty());
        assert(j.subrange(0, j.len() as int) =~= j);
        assert(q.take(1) =~= seq![j]);
        assert(parts(j) =~= q.take(1));
    } else {
        lemma_joined_parts(q, n - 1);
        let j0 = joined(q, n - 1);
        let m = j0.len() as int;
        assert(balanced(net(q[n - 2], q[n - 2].len() as int)));
        lemma_parts_prefix(j0, j, m);
        lemma_net_prefix(j, j0, m);
        lemma_top_level(j, m);
        assert(j[m] == ',');
        assert(separates(j, m));
        let a = m - q[n - 2].len();
        assert(j.subrange(a, m) =~= j0.subrange(a, m));
        assert(parts(j0).last() == j0.subrange(a, m));
        assert(q.take(n - 1).last() == q[n - 2]);
        assert(j.subrange(a, m) == q[n - 2]);
        assert(q.take(n - 2).push(q[n - 2]) =~= q.take(n - 1));
        assert(parts_before(j, m + 1) == q.take(n - 1));
        lemma_net_step(j, m + 1);
        assert forall|k: int| m + 1 <= k < j.len() implies !#[trigger] separates(j, k) by {
            let i = k - (m + 1);
            assert(!separates(last, i));
            lemma_net_shift(j, m + 1, last, i);
            lemma_top_level(j, k);
            lemma_top_level(last, i);
        }
        lemma_net_shift(j, m + 1, last, last.len() as int);
        lemma_no_separator(j, m + 1, j.len() as int);
        assert(j.subrange(m + 1, j.len() as int) =~= last);
        assert(q.take(n - 1).push(last) =~= q.take(n));
    }
}

proof fn lemma_joined_shape(q: Seq<Seq<char>>, n: int)
    requires
        1 <= n <= q.len(),
        forall|i: int| 0 <= i < n ==> trimmed(#[trigger] q[i]) && compact(q[i]),
    ensures
        trimmed(joined(q, n)),
        compact(joined(q, n)),
        n >= 2 ==> joined(q, n).len() > 0,
    decreases n,
{
    if n > 1 {
        lemma_joined_shape(q, n - 1);
        let a = joined(q, n - 1);
        let b = q[n - 1];
        let j = joined(q, n);
        assert(j == a.push(',') + b);
        assert(trimmed(b) && compact(b));
        assert forall|i: int| 0 <= i < j.len() && ascii_space(#[trigger] j[i]) implies {
            &&& j[i] == ' '
            &&& 0 < i < j.len() - 1
            &&& ident_continue(j[i - 1])
            &&& ident_continue(j[i + 1])
        } by {
            if i < a.len() {
                assert(j[i] == a[i]);
                assert(ascii_space(a[i]));
                assert(j[i + 1] == a[i + 1] && j[i - 1] == a[i - 1]);
            } else if i > a.len() {
                let k = i - a.len() - 1;
                assert(j[i] == b[k]);
                assert(ascii_space(b[k]));
                assert(j[i + 1] == b[k + 1] && j[i - 1] == b[k - 1]);
            }
        }
        if b.len() > 0 {
            assert(j[j.len() - 1] == b[b.len() - 1]);
        }
        if a.len() > 0 {
            assert(j[0] == a[0]);
        }
    }
}

/// Pieces that are no longer join to a text that is no longer.
proof fn lemma_joined_len(p: Seq<Seq<char>>, q: Seq<Seq<char>>, n: int)
    requires
        0 <= n <= p.len(),
        n <= q.len(),
        forall|i: int| 0 <= i < n ==> #[trigger] q[i].len() <= p[i].len(),
    ensures
        joined(q, n).len() <= joined(p, n).len(),
        (exists|i: int| 0 <= i < n && #[trigger] q[i].len() < p[i].len()) ==> joined(q, n).len()
            < joined(p, n).len(),
    decreases n,
{
    if n > 1 {
        lemma_joined_len(p, q, n - 1);
        assert(q[n - 1].len() <= p[n - 1].len());
    }
    if n == 1 {
        assert(q[0].len() <= p[0].len());
    }
}

proof fn lemma_joined_opened(p: Seq<Seq<char>>, q: Seq<Seq<char>>, n: int)
    requires
        0 <= n <= p.len(),
        n <= q.len(),
        forall|i: int|
            0 <= i < n ==> net(#[trigger] q[i], q[i].len() as int) == net(p[i], p[i].len() as int),
    ensures
        net(joined(q, n), joined(q, n).len() as int) == net(
            joined(p, n),
            joined(p, n).len() as int,
        ),
    decreases n,
{
    if n > 1 {
        lemma_joined_opened(p, q, n - 1);
        assert(net(q[n - 1], q[n - 1].len() as int) == net(p[n - 1], p[n - 1].len() as int));
        lemma_net_joined(p, n);
        lemma_net_joined(q, n);
    } else if n == 1 {
        assert(net(q[0], q[0].len() as int) == net(p[0], p[0].len() as int));
    }
}

proof fn lemma_net_joined(p: Seq<Seq<char>>, n: int)
    requires
        2 <= n <= p.len(),
    ensures
        net(joined(p, n), joined(p, n).len() as int) == plus(
            net(joined(p, n - 1), joined(p, n - 1).len() as int),
            net(p[n - 1], p[n - 1].len() as int),
        ),
{
    let a = joined(p, n - 1);
    let b = p[n - 1];
    let j = joined(p, n);
    let m = a.len() as int;
    lemma_net_prefix(j, a, m);
    lemma_net_step(j, m + 1);
    lemma_net_shift(j, m + 1, b, b.len() as int);
}

spec fn params_of(p: Seq<Seq<char>>) -> Seq<Seq<char>> {
    Seq::new(p.len(), |i: int| param_text(trim_text(p[i])))
}

spec fn types_of(p: Seq<Seq<char>>) -> Seq<Seq<char>> {
    Seq::new(p.len(), |i: int| type_text(trim_text(p[i])))
}

proof fn lemma_params_of(p: Seq<Seq<char>>, n: int)
    requires
        0 <= n <= p.len(),
    ensures
        joined_params(p, n) == joined(params_of(p), n),
    decreases n,
{
    if n > 1 {
        lemma_params_of(p, n - 1);
    }
}

proof fn lemma_types_of(p: Seq<Seq<char>>, n: int)
    requires
        0 <= n <= p.len(),
    ensures
        joined_types(p, n) == joined(types_of(p), n),
    decreases n,
{
    if n > 1 {
        lemma_types_of(p, n - 1);
    }
}

proof fn lemma_param_piece(s: Seq<char>)
    ensures
        ({
            let t = param_text(trim_text(s));
            &&& trimmed(t)
            &&& compact(t)
            &&& t.len() <= s.len()
            &&& net(t, t.len() as int) == net(s, s.len() as int)
            &&& clean(s) ==> clean(t)
            &&& trimmed(s) && compact(s) && named_type_at(s) is None ==> t == s
            &&& trimmed(s) && named_type_at(s) is Some ==> t.len() < s.len()
        }),
{
    lemma_trim(s);
    lemma_param_text(trim_text(s));
}

proof fn lemma_type_piece(s: Seq<char>)
    ensures
        ({
            let t = type_text(trim_text(s));
            &&& trimmed(t)
            &&& compact(t)
            &&& t.len() <= s.len()
            &&& net(t, t.len() as int) == net(s, s.len() as int)
            &&& clean(s) ==> clean(t)
            &&& trimmed(s) && compact(s) ==> t == s
            &&& !trimmed(s) ==> t.len() < s.len()
        }),
{
    lemma_trim(s);
    lemma_type_text(trim_text(s));
}

proof fn lemma_list_body(s: Seq<char>)
    ensures
        trimmed(list_body(s)),
        trimmed(s) && !wrapped(s) ==> list_body(s) == s,
        trimmed(s) && wrapped(s) ==> list_body(s) == trim_text(s.subrange(1, s.len() - 1)),
{
    lemma_trim(s);
    lemma_trim(unwrapped(trim_text(s)));
}

proof fn lemma_canonical_params_len(s: Seq<char>)
    ensures
        canonical_params(s).len() <= list_body(s).len(),
{
    let body = list_body(s);
    let p = parts(body);
    let n = p.len() as int;
    lemma_params_of(p, n);
    lemma_parts_joined(body);
    let q = params_of(p);
    assert forall|i: int| 0 <= i < n implies #[trigger] q[i].len() <= p[i].len() by {
        lemma_param_piece(p[i]);
    }
    lemma_joined_len(p, q, n);
}

/// Whether the canonical text of the parameter list `s` reads like a list of bare
/// types: it stands in no brackets of its own, and no parameter still starts with
/// what looks like a name.
pub open spec fn stable_params(s: Seq<char>) -> bool {
    let p = parts(list_body(s));
    &&& !wrapped(canonical_params(s))
    &&& forall|i: int|
        0 <= i < p.len() ==> named_type_at(param_text(trim_text(#[trigger] p[i]))) is None
}

/// Normalising a parameter list a second time changes nothing exactly when the
/// first result reads like a list of bare types.
pub proof fn law_canonical_params_is_stable(s: Seq<char>)
    ensures
        canonical_params(canonical_params(s)) == canonical_params(s) <==> stable_params(s),
{
    let body = list_body(s);
    let p = parts(body);
    let n = p.len() as int;
    let j = canonical_params(s);
    lemma_parts(body);
    if body.len() == 0 {
        lemma_list_body(j);
        assert(body.subrange(0, 0) =~= body);
        assert(p =~= seq![body]);
        lemma_param_piece(body);
        assert(j =~= body);
        assert(named_type_at(param_text(trim_text(p[0]))) is None);
    } else {
        let q = params_of(p);
        lemma_params_of(p, n);
        assert forall|i: int| 0 <= i < n implies trimmed(#[trigger] q[i]) && compact(q[i])
            && clean(q[i]) && net(q[i], q[i].len() as int) == net(p[i], p[i].len() as int) by {
            lemma_param_piece(p[i]);
        }
        lemma_joined_shape(q, n);
        lemma_list_body(j);
        if wrapped(j) {
            lemma_canonical_params_len(j);
            lemma_trim(j.subrange(1, j.len() - 1));
        } else {
            lemma_joined_parts(q, n);
            assert(q.take(n) =~= q);
            lemma_params_of(q, n);
            let r = params_of(q);
            assert forall|i: int| 0 <= i < n implies #[trigger] r[i].len() <= q[i].len() by {
                lemma_param_piece(q[i]);
            }
            lemma_joined_len(q, r, n);
            if stable_params(s) {
                assert forall|i: int| 0 <= i < n implies r[i] == q[i] by {
                    lemma_param_piece(q[i]);
                    assert(named_type_at(param_text(trim_text(p[i]))) is None);
                }
                lemma_joined_same(r, q, n);
                if j.len() == 0 {
                    assert(j =~= Seq::empty());
                }
            } else {
                let i = choose|i: int|
                    0 <= i < n && named_type_at(param_text(trim_text(#[trigger] p[i]))) is Some;
                lemma_param_piece(q[i]);
                assert(r[i].len() < q[i].len());
                assert(joined(r, n).len() < joined(q, n).len());
            }
        }
    }
}

proof fn lemma_canonical_returns_len(s: Seq<char>)
    ensures
        canonical_returns(s).len() <= list_body(s).len() + 2,
        parts(list_body(s)).len() == 1 ==> canonical_returns(s).len() <= list_body(s).len(),
{
    let body = list_body(s);
    let p = parts(body);
    let n = p.len() as int;
    lemma_types_of(p, n);
    lemma_parts_joined(body);
    let q = types_of(p);
    assert forall|i: int| 0 <= i < n implies #[trigger] q[i].len() <= p[i].len() by {
        lemma_type_piece(p[i]);
    }
    lemma_joined_len(p, q, n);
}

proof fn lemma_canonical_returns_shape(s: Seq<char>)
    ensures
        trimmed(canonical_returns(s)),
        compact(canonical_returns(s)),
{
    let body = list_body(s);
    let p = parts(body);
    let n = p.len() as int;
    let r = canonical_returns(s);
    lemma_parts(body);
    lemma_types_of(p, n);
    let q = types_of(p);
    assert forall|i: int| 0 <= i < n implies trimmed(#[trigger] q[i]) && compact(q[i]) by {
        lemma_type_piece(p[i]);
    }
    lemma_joined_shape(q, n);
    if body.len() > 0 && n > 1 {
        let j = joined(q, n);
        assert(r == seq!['('] + j + seq![')']);
        assert forall|i: int| 0 <= i < r.len() && ascii_space(#[trigger] r[i]) implies {
            &&& r[i] == ' '
            &&& 0 < i < r.len() - 1
            &&& ident_continue(r[i - 1])
            &&& ident_continue(r[i + 1])
        } by {
            assert(0 < i < r.len() - 1);
            assert(r[i] == j[i - 1]);
            assert(ascii_space(j[i - 1]));
            assert(r[i + 1] == j[i] && r[i - 1] == j[i - 2]);
        }
    }
}

/// A stretch of a compact text between characters that belong to no identifier.
proof fn lemma_compact_part(s: Seq<char>, a: int, b: int)
    requires
        compact(s),
        0 <= a <= b <= s.len(),
        a > 0 ==> !ident_continue(s[a - 1]),
        b < s.len() ==> !ident_continue(s[b]),
    ensures
        compact(s.subrange(a, b)),
{
    let t = s.subrange(a, b);
    assert forall|i: int| 0 <= i < t.len() && ascii_space(#[trigger] t[i]) implies {
        &&& t[i] == ' '
        &&& 0 < i < t.len() - 1
        &&& ident_continue(t[i - 1])
        &&& ident_continue(t[i + 1])
    } by {
        assert(ascii_space(s[a + i]));
        assert(ident_continue(s[a + i - 1]) && ident_continue(s[a + i + 1]));
    }
}

proof fn lemma_compact_parts(s: Seq<char>, n: int)
    requires
        compact(s),
        0 <= n <= s.len(),
    ensures
        0 <= part_start(s, n) <= n,
        part_start(s, n) > 0 ==> s[part_start(s, n) - 1] == ',',
        forall|i: int| 0 <= i < parts_before(s, n).len() ==> compact(#[trigger] parts_before(s, n)[i]),
    decreases n,
{
    if n > 0 {
        lemma_compact_parts(s, n - 1);
        if separates(s, n - 1) {
            let before = parts_before(s, n - 1);
            lemma_compact_part(s, part_start(s, n - 1), n - 1);
            assert forall|i: int| 0 <= i < parts_before(s, n).len() implies compact(
                #[trigger] parts_before(s, n)[i],
            ) by {
                if i < before.len() {
                    assert(parts_before(s, n)[i] == before[i]);
                }
            }
        }
    }
}

proof fn lemma_separator_parts(s: Seq<char>, k: int, n: int)
    requires
        0 <= k < n <= s.len(),
        separates(s, k),
    ensures
        parts_before(s, n).len() >= 1,
    decreases n,
{
    if k < n - 1 {
        lemma_separator_parts(s, k, n - 1);
    }
}

proof fn lemma_clean_part(s: Seq<char>)
    requires
        clean(s),
    ensures
        parts(s) == seq![s],
{
    lemma_no_separator(s, 0, s.len() as int);
    assert(s.subrange(0, s.len() as int) =~= s);
    assert(parts(s) =~= seq![s]);
}

/// Whether the canonical text of the result clause `s` reads like a result clause:
/// what its brackets enclose is a list of several types, and without brackets it
/// is one type.
pub open spec fn stable_returns(s: Seq<char>) -> bool {
    let r = canonical_returns(s);
    let inner = r.subrange(1, r.len() - 1);
    if wrapped(r) {
        parts(inner).len() >= 2 && forall|i: int|
            0 <= i < parts(inner).len() ==> trimmed(#[trigger] parts(inner)[i])
    } else {
        forall|i: int| 0 <= i < r.len() ==> !#[trigger] separates(r, i)
    }
}

/// Normalising a result clause a second time changes nothing exactly when the
/// first result reads like a result clause.
pub proof fn law_canonical_returns_is_stable(s: Seq<char>)
    ensures
        canonical_returns(canonical_returns(s)) == canonical_returns(s) <==> stable_returns(s),
{
    let r = canonical_returns(s);
    lemma_canonical_returns_shape(s);
    lemma_list_body(r);
    if wrapped(r) {
        lemma_wrapped_returns(s);
    } else if r.len() == 0 {
        assert(r =~= Seq::empty());
    } else if clean(r) {
        lemma_clean_part(r);
        lemma_type_piece(r);
    } else {
        let k = choose|k: int| 0 <= k < r.len() && separates(r, k);
        lemma_separator_parts(r, k, r.len() as int);
        let p = parts(r);
        let n = p.len() as int;
        let q = types_of(p);
        assert forall|i: int| 0 <= i < n implies net(#[trigger] q[i], q[i].len() as int) == net(
            p[i],
            p[i].len() as int,
        ) by {
            lemma_type_piece(p[i]);
        }
        lemma_types_of(p, n);
        lemma_parts_joined(r);
        lemma_joined_opened(p, q, n);
        let j = joined(q, n);
        let out = seq!['('] + j + seq![')'];
        lemma_net_shift(out, 1, j, j.len() as int);
        lemma_net_step(out, 1);
        lemma_net_step(out, out.len() as int);
        assert(canonical_returns(r) == out);
        assert(net(out, out.len() as int).opened == net(r, r.len() as int).opened + 1);
    }
}

proof fn lemma_wrapped_returns(s: Seq<char>)
    requires
        wrapped(canonical_returns(s)),
    ensures
        canonical_returns(canonical_returns(s)) == canonical_returns(s) <==> stable_returns(s),
{
    let r = canonical_returns(s);
    let inner = r.subrange(1, r.len() - 1);
    let p = parts(inner);
    let n = p.len() as int;
    lemma_canonical_returns_shape(s);
    lemma_list_body(r);
    lemma_trim(inner);
    lemma_compact_part(r, 1, r.len() - 1);
    lemma_compact_parts(inner, inner.len() as int);
    lemma_compact_part(inner, part_start(inner, inner.len() as int), inner.len() as int);
    lemma_parts(inner);
    lemma_parts_joined(inner);
    assert forall|i: int| 0 <= i < n implies compact(#[trigger] p[i]) by {
        if i < n - 1 {
            assert(p[i] == parts_before(inner, inner.len() as int)[i]);
        }
    }
    lemma_canonical_returns_len(r);
    if n == 1 {
        assert(inner =~= p[0]);
        assert(clean(inner));
        lemma_clean_part(list_body(r));
    } else if trimmed(inner) {
        let q = types_of(p);
        lemma_types_of(p, n);
        assert forall|i: int| 0 <= i < n implies #[trigger] q[i].len() <= p[i].len() by {
            lemma_type_piece(p[i]);
        }
        lemma_joined_len(p, q, n);
        if inner.len() == 0 {
            assert(clean(inner));
            lemma_clean_part(inner);
        }
        if stable_returns(s) {
            assert forall|i: int| 0 <= i < n implies q[i] == p[i] by {
                assert(trimmed(p[i]));
                lemma_type_piece(p[i]);
            }
            lemma_joined_same(p, q, n);
            assert(seq!['('] + inner + seq![')'] =~= r);
        } else {
            let i = choose|i: int| 0 <= i < n && !trimmed(#[trigger] p[i]);
            lemma_type_piece(p[i]);
            assert(q[i].len() < p[i].len());
        }
    } else {
        if forall|i: int| 0 <= i < n ==> trimmed(#[trigger] p[i]) {
            lemma_joined_shape(p, n);
        }
    }
}

/// A signature normalises to itself when both of its halves read like what they
/// are, so a canonical signature can be compared and normalised again at will.
pub proof fn law_canonical_signature_is_stable(params: Seq<char>, results: Seq<char>)
    requires
        stable_params(params),
        stable_returns(results),
    ensures
        canonical_signature(canonical_params(params), canonical_returns(results))
            == canonical_signature(params, results),
{
    law_canonical_params_is_stable(params);
    law_canonical_returns_is_stable(results);
}

/// `text` is the type `ty` as a parameter: bare, or behind a name and white space.
pub open spec fn declares_parameter(text: Seq<char>, ty: Seq<char>) -> bool {
    text == ty || exists|name: Seq<char>, gap: Seq<char>|
        #[trigger] names_parameter(name, gap) && text == name + gap + ty
}

/// `name` is an identifier that opens no type, and `gap` is white space.
pub open spec fn names_parameter(name: Seq<char>, gap: Seq<char>) -> bool {
    &&& name.len() > 0 && ident_start(name[0])
    &&& forall|i: int| 0 <= i < name.len() ==> ident_continue(#[trigger] name[i])
    &&& !type_keyword(name)
    &&& gap.len() > 0
    &&& forall|i: int| 0 <= i < gap.len() ==> ascii_space(#[trigger] gap[i])
}

/// `ty` reads like one type and not like a parameter: it has no white space around it, no
/// comma of it separates two parts, and it starts with no name.
pub open spec fn bare_type(ty: Seq<char>) -> bool {
    &&& ty.len() > 0 && trimmed(ty)
    &&& forall|i: int| 0 <= i < ty.len() ==> !#[trigger] separates(ty, i)
    &&& named_type_at(ty) is None
}

proof fn lemma_declared_parameter(text: Seq<char>, ty: Seq<char>)
    requires
        declares_parameter(text, ty),
        bare_type(ty),
    ensures
        text.len() > 0 && trimmed(text),
        clean(text),
        net(text, text.len() as int) == net(ty, ty.len() as int),
        text[0] == '(' ==> ty[0] == '(',
        param_text(trim_text(text)) == type_text(ty),
{
    lemma_trim(ty);
    lemma_trim(text);
    if text != ty {
        let (name, gap) = choose|name: Seq<char>, gap: Seq<char>|
            #[trigger] names_parameter(name, gap) && text == name + gap + ty;
        law_parameter_name_is_erased(name, gap, ty);
        let j = (name.len() + gap.len()) as int;
        assert(text[0] == name[0]);
        assert(text[text.len() - 1] == ty[ty.len() - 1]);
        assert forall|k: int| 0 <= k < j implies calm(#[trigger] text[k]) by {
            if k < name.len() {
                assert(text[k] == name[k]);
            } else {
                assert(text[k] == gap[k - name.len()]);
            }
        }
        assert(text.subrange(j, text.len() as int) =~= ty);
        lemma_net_calm(text, 0, j);
        lemma_net_step(text, 1);
        lemma_drop_front(text, j);
        assert forall|k: int| 0 <= k < text.len() implies !#[trigger] separates(text, k) by {
            if k < j {
                assert(calm(text[k]));
            } else {
                assert(!separates(ty, k - j));
                lemma_net_shift(text, j, ty, k - j);
                lemma_top_level(text, k);
                lemma_top_level(ty, k - j);
            }
        }
    }
}

proof fn lemma_joined_ends(q: Seq<Seq<char>>, n: int)
    requires
        1 <= n <= q.len(),
        forall|i: int| 0 <= i < n ==> (#[trigger] q[i]).len() > 0 && trimmed(q[i]),
    ensures
        joined(q, n).len() > 0,
        trimmed(joined(q, n)),
        joined(q, n)[0] == q[0][0],
    decreases n,
{
    assert(q[n - 1].len() > 0 && trimmed(q[n - 1]));
    if n > 1 {
        lemma_joined_ends(q, n - 1);
    }
}

proof fn lemma_same_params(p: Seq<Seq<char>>, q: Seq<Seq<char>>, n: int)
    requires
        0 <= n <= p.len(),
        n <= q.len(),
        forall|i: int|
            0 <= i < n ==> param_text(trim_text(#[trigger] p[i])) == param_text(trim_text(q[i])),
    ensures
        joined_params(p, n) == joined_params(q, n),
    decreases n,
{
    if n > 1 {
        lemma_same_params(p, q, n - 1);
    }
    if n > 0 {
        assert(param_text(trim_text(p[n - 1])) == param_text(trim_text(q[n - 1])));
    }
}

proof fn lemma_list_of_parameters(p: Seq<Seq<char>>)
    requires
        p.len() > 0,
        forall|i: int|
            0 <= i < p.len() ==> (#[trigger] p[i]).len() > 0 && trimmed(p[i]) && clean(p[i]),
        forall|i: int|
            0 <= i < p.len() - 1 ==> balanced(net(#[trigger] p[i], p[i].len() as int)),
        p[0][0] != '(',
    ensures
        canonical_params(joined(p, p.len() as int)) == joined_params(p, p.len() as int),
{
    let n = p.len() as int;
    let s = joined(p, n);
    lemma_joined_ends(p, n);
    lemma_joined_parts(p, n);
    assert(p.take(n) =~= p);
    lemma_list_body(s);
}

/// The names of parameters leave no trace in a signature: a parameter list reads like the
/// list of its bare types, whichever of the parameters have names and whatever these are.
pub proof fn law_parameter_names_leave_no_trace(
    params: Seq<Seq<char>>,
    types: Seq<Seq<char>>,
    results: Seq<char>,
)
    requires
        params.len() == types.len() > 0,
        forall|i: int|
            0 <= i < params.len() ==> declares_parameter(#[trigger] params[i], types[i]),
        forall|i: int| 0 <= i < types.len() ==> bare_type(#[trigger] types[i]),
        forall|i: int|
            0 <= i < types.len() - 1 ==> top_level(#[trigger] types[i], types[i].len() as int),
        types[0][0] != '(',
    ensures
        canonical_signature(joined(params, params.len() as int), results) == canonical_signature(
            joined(types, types.len() as int),
            results,
        ),
{
    let n = params.len() as int;
    assert forall|i: int| 0 <= i < n implies (#[trigger] params[i]).len() > 0 && trimmed(params[i])
        && clean(params[i]) && net(params[i], params[i].len() as int) == net(
        types[i],
        types[i].len() as int,
    ) && param_text(trim_text(params[i])) == type_text(types[i]) by {
        assert(bare_type(types[i]));
        lemma_declared_parameter(params[i], types[i]);
    }
    assert forall|i: int| 0 <= i < n implies (#[trigger] types[i]).len() > 0 && trimmed(types[i])
        && clean(types[i]) && param_text(trim_text(types[i])) == type_text(types[i]) by {
        assert(bare_type(types[i]));
        lemma_declared_parameter(types[i], types[i]);
    }
    assert forall|i: int| 0 <= i < n - 1 implies balanced(
        net(#[trigger] types[i], types[i].len() as int),
    ) by {
        lemma_top_level(types[i], types[i].len() as int);
    }
    assert forall|i: int| 0 <= i < n - 1 implies balanced(
        net(#[trigger] params[i], params[i].len() as int),
    ) by {
        assert(net(params[i], params[i].len() as int) == net(types[i], types[i].len() as int));
        assert(balanced(net(types[i], types[i].len() as int)));
    }
    assert(bare_type(types[0]));
    assert(declares_parameter(params[0], types[0]));
    lemma_declared_parameter(params[0], types[0]);
    lemma_list_of_parameters(params);
    lemma_list_of_parameters(types);
    assert forall|i: int| 0 <= i < n implies param_text(trim_text(#[trigger] params[i])) == param_text(
        trim_text(types[i]),
    ) by {
        assert(param_text(trim_text(types[i])) == type_text(types[i]));
    }
    lemma_same_params(params, types, n);
}

/// The name of a single parameter does not change the signature.
pub proof fn law_parameter_name_leaves_no_trace(
    name: Seq<char>,
    gap: Seq<char>,
    ty: Seq<char>,
    results: Seq<char>,
)
    requires
        names_parameter(name, gap),
        bare_type(ty),
        ty[0] != '(',
    ensures
        canonical_signature(name + gap + ty, results) == canonical_signature(ty, results),
{
    let p = seq![name + gap + ty];
    let q = seq![ty];
    assert(declares_parameter(p[0], q[0]));
    law_parameter_names_leave_no_trace(p, q, results);
    assert(joined(p, 1) == p[0]);
    assert(joined(q, 1) == q[0]);
}

proof fn lemma_filter_push(s: Seq<char>, c: char, p: spec_fn(char) -> bool)
    ensures
        s.push(c).filter(p) == (if p(c) {
            s.filter(p).push(c)
        } else {
            s.filter(p)
        }),
{
    let n = s.len() as int;
    lemma_filter_take(s.push(c), p, n + 1);
    assert(s.push(c).take(n + 1) =~= s.push(c));
    assert(s.push(c).take(n) =~= s);
}

proof fn lemma_trim_start_drops_white(s: Seq<char>, p: spec_fn(char) -> bool)
    requires
        forall|c: char| is_white(c) ==> !#[trigger] p(c),
    ensures
        trim_start(s).filter(p) == s.filter(p),
    decreases s.len(),
{
    if s.len() > 0 && is_white(s[0]) {
        let r = s.subrange(1, s.len() as int);
        lemma_trim_start_drops_white(r, p);
        let first = seq![s[0]];
        assert(s =~= first + r);
        Seq::filter_distributes_over_add(first, r, p);
        assert(first =~= Seq::empty().push(s[0]));
        lemma_filter_push(Seq::empty(), s[0], p);
        reveal(Seq::filter);
        assert(Seq::<char>::empty().filter(p).len() == 0);
        assert(s.filter(p) =~= r.filter(p));
    }
}

proof fn lemma_trim_end_drops_white(s: Seq<char>, p: spec_fn(char) -> bool)
    requires
        forall|c: char| is_white(c) ==> !#[trigger] p(c),
    ensures
        trim_end(s).filter(p) == s.filter(p),
    decreases s.len(),
{
    if s.len() > 0 && is_white(s[s.len() - 1]) {
        let r = s.subrange(0, s.len() - 1);
        lemma_trim_end_drops_white(r, p);
        assert(s =~= r.push(s[s.len() - 1]));
        lemma_filter_push(r, s[s.len() - 1], p);
    }
}

proof fn lemma_squeezed_drops_white(s: Seq<char>, n: int, p: spec_fn(char) -> bool)
    requires
        0 <= n <= s.len(),
        forall|c: char| is_white(c) ==> !#[trigger] p(c),
    ensures
        squeezed(s, n).filter(p) == s.take(n).filter(p),
    decreases n,
{
    if n > 0 {
        lemma_squeezed_drops_white(s, n - 1, p);
        let out = squeezed(s, n - 1);
        let c = s[n - 1];
        assert(s.take(n) =~= s.take(n - 1).push(c));
        lemma_filter_push(s.take(n - 1), c, p);
        lemma_filter_push(out, c, p);
        lemma_filter_push(out, ' ', p);
        lemma_filter_push(out.push(' '), c, p);
        assert(is_white(' '));
        assert(ascii_space(c) ==> is_white(c));
    } else {
        assert(s.take(0) =~= squeezed(s, 0));
    }
}

/// Normalising the text of a type takes nothing but white space out of it: what is left of
/// that is one blank between two words, and nothing else comes in.
pub proof fn law_type_text_drops_only_white_space(s: Seq<char>)
    ensures
        type_text(s).filter(|c: char| !is_white(c)) == s.filter(|c: char| !is_white(c)),
        trimmed(type_text(s)),
        compact(type_text(s)),
        trimmed(s) && compact(s) ==> type_text(s) == s,
{
    let p = |c: char| !is_white(c);
    lemma_type_text(s);
    let t = trim_text(s);
    lemma_trim_start_drops_white(s, p);
    lemma_trim_end_drops_white(trim_start(s), p);
    lemma_squeezed_drops_white(t, t.len() as int, p);
    assert(t.take(t.len() as int) =~= t);
}

/// `ty` reads like one type, with no white space that could be spared and no round bracket.
pub open spec fn plain_type(ty: Seq<char>) -> bool {
    &&& bare_type(ty)
    &&& compact(ty)
    &&& forall|i: int| 0 <= i < ty.len() ==> #[trigger] ty[i] != '(' && ty[i] != ')'
    &&& top_level(ty, ty.len() as int)
}

/// `list` in round brackets, or as it is.
pub open spec fn in_brackets(list: Seq<char>, brackets: bool) -> Seq<char> {
    if brackets {
        seq!['('] + list + seq![')']
    } else {
        list
    }
}

proof fn lemma_no_rounds(s: Seq<char>, from: int, n: int)
    requires
        0 <= from <= n <= s.len(),
        forall|i: int| from <= i < n ==> #[trigger] s[i] != '(' && s[i] != ')',
    ensures
        paren_depth(s, n) == paren_depth(s, from),
    decreases n - from,
{
    if from < n {
        lemma_no_rounds(s, from, n - 1);
    }
}

proof fn lemma_in_brackets(j: Seq<char>, brackets: bool)
    requires
        forall|i: int| 0 <= i < j.len() ==> #[trigger] j[i] != '(' && j[i] != ')',
        trimmed(j),
    ensures
        list_body(in_brackets(j, brackets)) == j,
{
    let s = in_brackets(j, brackets);
    lemma_list_body(s);
    lemma_trim(j);
    if brackets {
        let n = s.len() as int;
        assert forall|i: int| 1 <= i < n - 1 implies #[trigger] s[i] != '(' && s[i] != ')' by {
            assert(s[i] == j[i - 1]);
        }
        lemma_no_rounds(s, 1, n - 1);
        reveal_with_fuel(count_char, 2);
        assert(s[0] == '(' && s[n - 1] == ')');
        assert(wrapped(s));
        assert(!is_white('(') && !is_white(')'));
        assert(s.subrange(1, n - 1) =~= j);
    } else {
        assert(!wrapped(s));
    }
}

proof fn lemma_joined_plain(q: Seq<Seq<char>>, n: int)
    requires
        0 <= n <= q.len(),
        forall|i: int, k: int|
            0 <= i < n && 0 <= k < q[i].len() ==> #[trigger] q[i][k] != '(' && q[i][k] != ')',
    ensures
        forall|k: int|
            0 <= k < joined(q, n).len() ==> #[trigger] joined(q, n)[k] != '(' && joined(q, n)[k]
                != ')',
    decreases n,
{
    if n > 1 {
        lemma_joined_plain(q, n - 1);
        let before = joined(q, n - 1);
        let all = joined(q, n);
        assert forall|k: int| 0 <= k < all.len() implies #[trigger] all[k] != '(' && all[k]
            != ')' by {
            if k < before.len() {
                assert(all[k] == before[k]);
            } else if k > before.len() {
                assert(all[k] == q[n - 1][k - before.len() - 1]);
            }
        }
    } else if n == 1 {
        assert forall|k: int| 0 <= k < joined(q, 1).len() implies #[trigger] joined(q, 1)[k] != '('
            && joined(q, 1)[k] != ')' by {
            assert(joined(q, 1)[k] == q[0][k]);
        }
    }
}

proof fn lemma_plain_parameter(text: Seq<char>, ty: Seq<char>, k: int)
    requires
        declares_parameter(text, ty),
        plain_type(ty),
        0 <= k < text.len(),
    ensures
        text[k] != '(' && text[k] != ')',
{
    if text != ty {
        let (name, gap) = choose|name: Seq<char>, gap: Seq<char>|
            #[trigger] names_parameter(name, gap) && text == name + gap + ty;
        if k < name.len() {
            assert(text[k] == name[k]);
        } else if k < name.len() + gap.len() {
            assert(text[k] == gap[k - name.len()]);
        } else {
            assert(text[k] == ty[k - name.len() - gap.len()]);
        }
    }
}

proof fn lemma_spelled_params(params: Seq<Seq<char>>, types: Seq<Seq<char>>, brackets: bool)
    requires
        params.len() == types.len(),
        forall|i: int|
            0 <= i < params.len() ==> declares_parameter(#[trigger] params[i], types[i]),
        forall|i: int| 0 <= i < types.len() ==> plain_type(#[trigger] types[i]),
    ensures
        canonical_params(in_brackets(joined(params, params.len() as int), brackets)) == joined(
            types,
            types.len() as int,
        ),
{
    let n = params.len() as int;
    let s = joined(params, n);
    assert forall|i: int, k: int| 0 <= i < n && 0 <= k < params[i].len() implies #[trigger] params[i][k]
        != '(' && params[i][k] != ')' by {
        assert(declares_parameter(params[i], types[i]) && plain_type(types[i]));
        lemma_plain_parameter(params[i], types[i], k);
    }
    lemma_joined_plain(params, n);
    if n == 0 {
        lemma_in_brackets(s, brackets);
        assert(joined(types, 0) =~= Seq::empty());
    } else {
        let q = params_of(params);
        assert forall|i: int| 0 <= i < n implies (#[trigger] params[i]).len() > 0 && trimmed(
            params[i],
        ) && clean(params[i]) && net(params[i], params[i].len() as int) == net(
            types[i],
            types[i].len() as int,
        ) && q[i] == types[i] by {
            assert(plain_type(types[i]));
            lemma_declared_parameter(params[i], types[i]);
            lemma_type_text(types[i]);
        }
        assert forall|i: int| 0 <= i < n - 1 implies balanced(
            net(#[trigger] params[i], params[i].len() as int),
        ) by {
            assert(plain_type(types[i]));
            lemma_top_level(types[i], types[i].len() as int);
            assert(net(params[i], params[i].len() as int) == net(types[i], types[i].len() as int));
        }
        lemma_joined_ends(params, n);
        lemma_joined_parts(params, n);
        assert(params.take(n) =~= params);
        lemma_in_brackets(s, brackets);
        lemma_params_of(params, n);
        lemma_joined_same(q, types, n);
    }
}

proof fn lemma_spelled_results(results: Seq<Seq<char>>, brackets: bool)
    requires
        forall|i: int| 0 <= i < results.len() ==> plain_type(#[trigger] results[i]),
    ensures
        canonical_returns(in_brackets(joined(results, results.len() as int), brackets))
            == in_brackets(joined(results, results.len() as int), results.len() > 1),
{
    let n = results.len() as int;
    let s = joined(results, n);
    assert forall|i: int, k: int|
        0 <= i < n && 0 <= k < results[i].len() implies #[trigger] results[i][k] != '('
        && results[i][k] != ')' by {
        assert(plain_type(results[i]));
    }
    lemma_joined_plain(results, n);
    if n == 0 {
        lemma_in_brackets(s, brackets);
        assert(s =~= Seq::empty());
    } else {
        let q = types_of(results);
        assert forall|i: int| 0 <= i < n implies (#[trigger] results[i]).len() > 0 && trimmed(
            results[i],
        ) && clean(results[i]) && q[i] == results[i] by {
            assert(plain_type(results[i]));
            lemma_type_piece(results[i]);
        }
        assert forall|i: int| 0 <= i < n - 1 implies balanced(
            net(#[trigger] results[i], results[i].len() as int),
        ) by {
            assert(plain_type(results[i]));
            lemma_top_level(results[i], results[i].len() as int);
        }
        lemma_joined_ends(results, n);
        lemma_joined_parts(results, n);
        assert(results.take(n) =~= results);
        lemma_in_brackets(s, brackets);
        lemma_types_of(results, n);
        lemma_joined_same(q, results, n);
    }
}

/// A signature spells out the types of its parameters, in brackets, and behind them those of
/// its results, in brackets if there are several: whether or not the lists came in brackets,
/// and whichever parameters had names.
pub proof fn law_signature_spells_out_its_types(
    params: Seq<Seq<char>>,
    types: Seq<Seq<char>>,
    results: Seq<Seq<char>>,
    params_in_brackets: bool,
    results_in_brackets: bool,
)
    requires
        params.len() == types.len(),
        forall|i: int|
            0 <= i < params.len() ==> declares_parameter(#[trigger] params[i], types[i]),
        forall|i: int| 0 <= i < types.len() ==> plain_type(#[trigger] types[i]),
        forall|i: int| 0 <= i < results.len() ==> plain_type(#[trigger] results[i]),
    ensures
        canonical_signature(
            in_brackets(joined(params, params.len() as int), params_in_brackets),
            in_brackets(joined(results, results.len() as int), results_in_brackets),
        ) == in_brackets(joined(types, types.len() as int), true) + in_brackets(
            joined(results, results.len() as int),
            results.len() > 1,
        ),
{
    lemma_spelled_params(params, types, params_in_brackets);
    lemma_spelled_results(results, results_in_brackets);
}

} // verus!
