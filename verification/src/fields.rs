//! Text taken apart at separators and put together again.
use vstd::prelude::*;

use crate::lists::{lemma_views_push, views};

verus! {

/// The fields of the first `n` characters of `s`, separated by `sep`. There is always a
/// last field, which may be empty.
pub open spec fn fields_of(s: Seq<char>, sep: char, n: int) -> Seq<Seq<char>>
    decreases n,
{
    if n <= 0 {
        seq![Seq::empty()]
    } else {
        let before = fields_of(s, sep, n - 1);
        if s[n - 1] == sep {
            before.push(Seq::empty())
        } else {
            before.update(before.len() - 1, before[before.len() - 1].push(s[n - 1]))
        }
    }
}

/// The fields of `s`, separated by `sep`.
pub open spec fn fields(s: Seq<char>, sep: char) -> Seq<Seq<char>> {
    fields_of(s, sep, s.len() as int)
}

/// The fields among the first `n` that are not empty.
pub open spec fn non_empty(parts: Seq<Seq<char>>, n: int) -> Seq<Seq<char>>
    decreases n,
{
    if n <= 0 {
        Seq::empty()
    } else {
        let before = non_empty(parts, n - 1);
        if parts[n - 1].len() > 0 {
            before.push(parts[n - 1])
        } else {
            before
        }
    }
}

/// The first `n` parts with `sep` between them.
pub open spec fn joined(parts: Seq<Seq<char>>, sep: char, n: int) -> Seq<char>
    decreases n,
{
    if n <= 0 {
        Seq::empty()
    } else if n == 1 {
        parts[0]
    } else {
        joined(parts, sep, n - 1).push(sep) + parts[n - 1]
    }
}

/// Position of the first `c` in `s` from `i` on; the length of `s` where there is none.
pub open spec fn first_char(s: Seq<char>, c: char, i: int) -> int
    decreases s.len() - i,
{
    if i < 0 || i >= s.len() {
        s.len() as int
    } else if s[i] == c {
        i
    } else {
        first_char(s, c, i + 1)
    }
}

/// The part of `s` before its first `c`.
pub open spec fn before_char(s: Seq<char>, c: char) -> Seq<char> {
    s.subrange(0, first_char(s, c, 0))
}

/// Where the first `c` stands, and that none stands before it.
pub proof fn lemma_first_char(s: Seq<char>, c: char, i: int)
    requires
        0 <= i <= s.len(),
    ensures
        i <= first_char(s, c, i) <= s.len(),
        first_char(s, c, i) < s.len() ==> s[first_char(s, c, i)] == c,
        forall|j: int| i <= j < first_char(s, c, i) ==> s[j] != c,
    decreases s.len() - i,
{
    if i < s.len() && s[i] != c {
        lemma_first_char(s, c, i + 1);
    }
}

/// The part before the first `c` holds no `c`, and is everything where there is none.
pub proof fn lemma_before_char(s: Seq<char>, c: char)
    ensures
        !before_char(s, c).contains(c),
        !s.contains(c) ==> before_char(s, c) == s,
{
    lemma_first_char(s, c, 0);
    if !s.contains(c) {
        assert(before_char(s, c) =~= s);
    }
}

/// The part of `s` before its first `c`.
pub fn cut_at_char(s: &Vec<char>, c: char) -> (r: Vec<char>)
    ensures
        r@ == before_char(s@, c),
{
    let mut out: Vec<char> = Vec::new();
    let mut i: usize = 0;
    proof {
        assert(out@ =~= s@.subrange(0, 0));
    }
    while i < s.len() && s[i] != c
        invariant
            i <= s@.len(),
            out@ == s@.subrange(0, i as int),
            first_char(s@, c, 0) == first_char(s@, c, i as int),
        decreases s@.len() - i,
    {
        out.push(s[i]);
        proof {
            assert(s@.subrange(0, i + 1) =~= s@.subrange(0, i as int).push(s@[i as int]));
        }
        i = i + 1;
    }
    out
}

proof fn lemma_fields_some(s: Seq<char>, sep: char, n: int)
    ensures
        fields_of(s, sep, n).len() > 0,
    decreases n,
{
    if n > 0 {
        lemma_fields_some(s, sep, n - 1);
    }
}

/// The fields of `s`, separated by `sep`.
pub fn split_fields(s: &Vec<char>, sep: char) -> (r: Vec<Vec<char>>)
    ensures
        views(r@) == fields(s@, sep),
{
    let mut out: Vec<Vec<char>> = Vec::new();
    let mut last: Vec<char> = Vec::new();
    proof {
        assert(views(out@).push(last@) =~= fields_of(s@, sep, 0));
    }
    for i in 0..s.len()
        invariant
            views(out@).push(last@) == fields_of(s@, sep, i as int),
    {
        let ghost before = fields_of(s@, sep, i as int);
        if s[i] == sep {
            let ghost done = out@;
            let ghost field = last;
            out.push(last);
            last = Vec::new();
            proof {
                lemma_views_push(done, field);
                assert(out@ =~= done.push(field));
                assert(views(out@) =~= before);
                assert(views(out@).push(last@) =~= before.push(Seq::empty()));
            }
        } else {
            last.push(s[i]);
            proof {
                assert(views(out@).push(last@) =~= before.update(
                    before.len() - 1,
                    before[before.len() - 1].push(s@[i as int]),
                ));
            }
        }
    }
    let ghost done = out@;
    let ghost field = last;
    out.push(last);
    proof {
        lemma_views_push(done, field);
        assert(out@ =~= done.push(field));
    }
    out
}

/// The parts that are not empty.
pub fn keep_non_empty(parts: Vec<Vec<char>>) -> (r: Vec<Vec<char>>)
    ensures
        views(r@) == non_empty(views(parts@), parts@.len() as int),
{
    let mut out: Vec<Vec<char>> = Vec::new();
    for i in 0..parts.len()
        invariant
            views(out@) =~= non_empty(views(parts@), i as int),
    {
        assert(views(parts@)[i as int] == parts@[i as int]@);
        if parts[i].len() > 0 {
            let copy = crate::text::sub_chars(&parts[i], 0, parts[i].len());
            proof {
                assert(copy@ =~= parts@[i as int]@);
                lemma_views_push(out@, copy);
            }
            out.push(copy);
        }
    }
    out
}

/// The parts with `sep` between them.
pub fn join_fields(parts: &Vec<Vec<char>>, sep: char) -> (r: Vec<char>)
    ensures
        r@ == joined(views(parts@), sep, parts@.len() as int),
{
    let mut out: Vec<char> = Vec::new();
    for i in 0..parts.len()
        invariant
            out@ == joined(views(parts@), sep, i as int),
    {
        if i > 0 {
            out.push(sep);
        }
        let ghost base = out@;
        let part: &Vec<char> = &parts[i];
        assert(views(parts@)[i as int] == part@);
        for j in 0..part.len()
            invariant
                out@ == base + part@.take(j as int),
        {
            out.push(part[j]);
            proof {
                assert(part@.take(j + 1) =~= part@.take(j as int).push(part@[j as int]));
                assert(base + part@.take(j + 1) =~= (base + part@.take(j as int)).push(
                    part@[j as int],
                ));
            }
        }
        proof {
            assert(part@.take(part@.len() as int) =~= part@);
            if i == 0 {
                assert(base + part@ =~= part@);
            }
        }
    }
    out
}

proof fn lemma_fields_prefix(a: Seq<char>, b: Seq<char>, sep: char, n: int)
    requires
        0 <= n <= a.len(),
    ensures
        fields_of(a + b, sep, n) == fields_of(a, sep, n),
    decreases n,
{
    if n > 0 {
        lemma_fields_prefix(a, b, sep, n - 1);
        assert((a + b)[n - 1] == a[n - 1]);
    }
}

/// Characters that are no separator extend the last field.
proof fn lemma_fields_extend(a: Seq<char>, b: Seq<char>, sep: char, k: int)
    requires
        0 <= k <= b.len(),
        !b.contains(sep),
    ensures
        ({
            let f = fields(a, sep);
            fields_of(a + b, sep, a.len() + k) == f.update(f.len() - 1, f[f.len() - 1] + b.take(k))
        }),
    decreases k,
{
    let f = fields(a, sep);
    lemma_fields_some(a, sep, a.len() as int);
    if k == 0 {
        lemma_fields_prefix(a, b, sep, a.len() as int);
        assert(f[f.len() - 1] + b.take(0) =~= f[f.len() - 1]);
        assert(f.update(f.len() - 1, f[f.len() - 1] + b.take(0)) =~= f);
    } else {
        lemma_fields_extend(a, b, sep, k - 1);
        assert((a + b)[a.len() + k - 1] == b[k - 1]);
        assert(b.contains(b[k - 1]));
        assert((f[f.len() - 1] + b.take(k - 1)).push(b[k - 1]) =~= f[f.len() - 1] + b.take(k));
        assert(f.update(f.len() - 1, f[f.len() - 1] + b.take(k - 1)).update(
            f.len() - 1,
            f[f.len() - 1] + b.take(k),
        ) =~= f.update(f.len() - 1, f[f.len() - 1] + b.take(k)));
    }
}

proof fn lemma_fields_separator(a: Seq<char>, sep: char)
    ensures
        fields(a.push(sep), sep) == fields(a, sep).push(Seq::empty()),
{
    let s = a.push(sep);
    assert(s =~= a + seq![sep]);
    lemma_fields_prefix(a, seq![sep], sep, a.len() as int);
    assert(s[a.len() as int] == sep);
}

/// Parts that hold no separator come back when they are joined and taken apart again.
pub proof fn law_fields_undo_joined(parts: Seq<Seq<char>>, sep: char, n: int)
    requires
        0 < n <= parts.len(),
        forall|i: int| 0 <= i < n ==> !(#[trigger] parts[i]).contains(sep),
    ensures
        fields(joined(parts, sep, n), sep) == parts.take(n),
    decreases n,
{
    if n == 1 {
        let b = parts[0];
        let e = Seq::<char>::empty();
        lemma_fields_extend(e, b, sep, b.len() as int);
        assert(e + b =~= b);
        assert(b.take(b.len() as int) =~= b);
        assert(fields(e, sep) =~= seq![e]);
        assert(fields(b, sep) =~= parts.take(1));
    } else {
        law_fields_undo_joined(parts, sep, n - 1);
        let a = joined(parts, sep, n - 1);
        let b = parts[n - 1];
        lemma_fields_separator(a, sep);
        lemma_fields_extend(a.push(sep), b, sep, b.len() as int);
        assert(b.take(b.len() as int) =~= b);
        let f = fields(a, sep).push(Seq::empty());
        assert(Seq::<char>::empty() + b =~= b);
        assert(f.update(f.len() - 1, b) =~= parts.take(n));
    }
}

/// No field holds the separator.
pub proof fn lemma_fields_hold_no_separator(s: Seq<char>, sep: char, n: int, i: int)
    requires
        0 <= n <= s.len(),
        0 <= i < fields_of(s, sep, n).len(),
    ensures
        !fields_of(s, sep, n)[i].contains(sep),
        forall|c: char| #[trigger] fields_of(s, sep, n)[i].contains(c) ==> s.contains(c),
    decreases n,
{
    if n > 0 {
        let before = fields_of(s, sep, n - 1);
        let after = fields_of(s, sep, n);
        lemma_fields_some(s, sep, n - 1);
        if i < before.len() {
            lemma_fields_hold_no_separator(s, sep, n - 1, i);
            if s[n - 1] != sep && i == before.len() - 1 {
                assert forall|c: char| #[trigger] after[i].contains(c) implies s.contains(c) && c
                    != sep by {
                    let k = choose|k: int| 0 <= k < after[i].len() && after[i][k] == c;
                    if k < before[i].len() {
                        assert(before[i][k] == c);
                        assert(before[i].contains(c));
                    } else {
                        assert(s[n - 1] == c);
                    }
                }
            }
        }
    }
}

/// What is kept of parts is a part, and is not empty.
pub proof fn lemma_non_empty(parts: Seq<Seq<char>>, n: int, i: int)
    requires
        0 <= n <= parts.len(),
        0 <= i < non_empty(parts, n).len(),
    ensures
        non_empty(parts, n)[i].len() > 0,
        exists|k: int| 0 <= k < n && #[trigger] parts[k] == non_empty(parts, n)[i],
    decreases n,
{
    if n > 0 {
        if i < non_empty(parts, n - 1).len() {
            lemma_non_empty(parts, n - 1, i);
            let k = choose|k: int|
                0 <= k < n - 1 && #[trigger] parts[k] == non_empty(parts, n - 1)[i];
            assert(parts[k] == non_empty(parts, n)[i]);
        } else {
            assert(parts[n - 1] == non_empty(parts, n)[i]);
        }
    }
}

/// Where no part is empty, all are kept.
pub proof fn lemma_non_empty_keeps_all(parts: Seq<Seq<char>>, n: int)
    requires
        0 <= n <= parts.len(),
        forall|i: int| 0 <= i < n ==> (#[trigger] parts[i]).len() > 0,
    ensures
        non_empty(parts, n) == parts.take(n),
    decreases n,
{
    if n > 0 {
        lemma_non_empty_keeps_all(parts, n - 1);
        assert(parts.take(n) =~= parts.take(n - 1).push(parts[n - 1]));
    } else {
        assert(parts.take(0) =~= Seq::empty());
    }
}

} // verus!
