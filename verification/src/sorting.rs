//! Stable sorting and removal of neighbours with equal keys.
use vstd::prelude::*;

use crate::ids::{NodeId, StringId};

verus! {

/// A type whose values carry a sort key.
pub trait Ranked: Sized {
    /// The key of `self` is smaller than the key of `other`.
    spec fn ranks_before(self, other: Self) -> bool;

    /// `self` and `other` have the same key.
    spec fn same_rank(self, other: Self) -> bool;

    fn is_ranked_before(&self, other: &Self) -> (r: bool)
        ensures
            r == self.ranks_before(*other),
    ;

    fn is_same_rank(&self, other: &Self) -> (r: bool)
        ensures
            r == self.same_rank(*other),
    ;
}

/// Names sort by number.
impl Ranked for StringId {
    open spec fn ranks_before(self, other: StringId) -> bool {
        self.0 < other.0
    }

    open spec fn same_rank(self, other: StringId) -> bool {
        self == other
    }

    fn is_ranked_before(&self, other: &StringId) -> (r: bool) {
        self.0 < other.0
    }

    fn is_same_rank(&self, other: &StringId) -> (r: bool) {
        *self == *other
    }
}

/// Nodes sort by index, then by generation.
impl Ranked for NodeId {
    open spec fn ranks_before(self, other: NodeId) -> bool {
        self.before(other)
    }

    open spec fn same_rank(self, other: NodeId) -> bool {
        self == other
    }

    fn is_ranked_before(&self, other: &NodeId) -> (r: bool) {
        self.is_before(other)
    }

    fn is_same_rank(&self, other: &NodeId) -> (r: bool) {
        *self == *other
    }
}

/// `x` put into `t` in front of the first element whose key is not smaller.
pub open spec fn place<T: Ranked>(x: T, t: Seq<T>) -> Seq<T>
    decreases t.len(),
{
    if t.len() == 0 || !t[0].ranks_before(x) {
        seq![x] + t
    } else {
        seq![t[0]] + place(x, t.drop_first())
    }
}

/// `s` in ascending key order; elements with equal keys keep their order.
pub open spec fn sorted<T: Ranked>(s: Seq<T>) -> Seq<T>
    decreases s.len(),
{
    if s.len() == 0 {
        s
    } else {
        place(s[0], sorted(s.drop_first()))
    }
}

/// The first `n` elements of `s`, without those whose key equals that of the
/// element kept just before them.
pub open spec fn deduped<T: Ranked>(s: Seq<T>, n: int) -> Seq<T>
    decreases n,
{
    if n <= 0 {
        Seq::empty()
    } else {
        let kept = deduped(s, n - 1);
        if kept.len() > 0 && kept.last().same_rank(s[n - 1]) {
            kept
        } else {
            kept.push(s[n - 1])
        }
    }
}

proof fn lemma_place_is_insert<T: Ranked>(x: T, t: Seq<T>, p: int)
    requires
        0 <= p <= t.len(),
        forall|j: int| 0 <= j < p ==> #[trigger] t[j].ranks_before(x),
        p == t.len() || !t[p].ranks_before(x),
    ensures
        place(x, t) == t.insert(p, x),
    decreases p,
{
    if p == 0 {
        assert(t.insert(0, x) =~= seq![x] + t);
    } else {
        assert(t[0].ranks_before(x));
        let u = t.drop_first();
        assert forall|j: int| 0 <= j < p - 1 implies #[trigger] u[j].ranks_before(x) by {
            assert(t[j + 1].ranks_before(x));
        }
        lemma_place_is_insert(x, u, p - 1);
        assert(t.insert(p, x) =~= seq![t[0]] + u.insert(p - 1, x));
    }
}

/// Puts `x` into `v` in front of the first element whose key is not smaller.
pub fn place_in<T: Ranked>(v: &mut Vec<T>, x: T)
    ensures
        final(v)@ == place(x, old(v)@),
{
    let mut p: usize = 0;
    while p < v.len() && v[p].is_ranked_before(&x)
        invariant
            p <= v@.len(),
            v@ == old(v)@,
            forall|j: int| 0 <= j < p ==> #[trigger] v@[j].ranks_before(x),
        decreases v@.len() - p,
    {
        p = p + 1;
    }
    proof {
        lemma_place_is_insert(x, v@, p as int);
    }
    v.insert(p, x);
}

/// Sorts `v` by key, keeping the order of elements with equal keys.
pub fn stable_sort<T: Ranked>(v: Vec<T>) -> (r: Vec<T>)
    ensures
        r@ == sorted(v@),
{
    let ghost all = v@;
    let mut rest: Vec<T> = v;
    let mut out: Vec<T> = Vec::new();
    proof {
        assert(all.skip(all.len() as int) =~= Seq::<T>::empty());
        assert(all.take(all.len() as int) =~= all);
    }
    while rest.len() > 0
        invariant
            rest@.len() <= all.len(),
            rest@ == all.take(rest@.len() as int),
            out@ == sorted(all.skip(rest@.len() as int)),
        decreases rest@.len(),
    {
        let ghost n = rest@.len();
        let x: T = rest.pop().unwrap();
        proof {
            let tail = all.skip(n - 1);
            assert(tail.drop_first() =~= all.skip(n as int));
            assert(tail[0] == x);
            assert(rest@ =~= all.take(n - 1));
        }
        place_in(&mut out, x);
    }
    proof {
        assert(all.skip(0) =~= all);
    }
    out
}

/// Drops from `v` the elements whose key equals that of the element kept just
/// before them.
pub fn dedup_neighbours<T: Ranked + Copy>(v: &Vec<T>) -> (r: Vec<T>)
    ensures
        r@ == deduped(v@, v@.len() as int),
{
    let mut out: Vec<T> = Vec::new();
    for i in 0..v.len()
        invariant
            out@ == deduped(v@, i as int),
    {
        let n: usize = out.len();
        if n > 0 && out[n - 1].is_same_rank(&v[i]) {
        } else {
            out.push(v[i]);
        }
    }
    out
}

/// The keys of `s` ascend.
pub open spec fn ascending<T: Ranked>(s: Seq<T>) -> bool {
    forall|i: int, j: int|
        #![trigger s[i], s[j]]
        0 <= i < j < s.len() ==> !s[j].ranks_before(s[i])
}

/// Sorting keeps the elements: each occurs as often as before.
pub proof fn law_sorted_keeps_elements<T: Ranked>(s: Seq<T>)
    ensures
        sorted(s).to_multiset() == s.to_multiset(),
    decreases s.len(),
{
    broadcast use vstd::seq_lib::group_to_multiset_ensures;

    if s.len() > 0 {
        let t = sorted(s.drop_first());
        law_sorted_keeps_elements(s.drop_first());
        lemma_place_multiset(s[0], t);
        assert(s =~= s.drop_first().insert(0, s[0]));
    }
}

proof fn lemma_place_multiset<T: Ranked>(x: T, t: Seq<T>)
    ensures
        place(x, t).to_multiset() == t.to_multiset().insert(x),
        place(x, t).len() == t.len() + 1,
    decreases t.len(),
{
    broadcast use vstd::seq_lib::group_to_multiset_ensures;

    if t.len() == 0 || !t[0].ranks_before(x) {
        assert(seq![x] + t =~= t.insert(0, x));
    } else {
        let u = t.drop_first();
        lemma_place_multiset(x, u);
        assert(seq![t[0]] + place(x, u) =~= place(x, u).insert(0, t[0]));
        assert(t =~= u.insert(0, t[0]));
        assert(t.to_multiset().insert(x) =~= u.to_multiset().insert(x).insert(t[0]));
    }
}

/// The order of the keys is one that sorting needs: no two elements stand before
/// each other, and standing not before is transitive.
pub open spec fn orderly<T: Ranked>() -> bool {
    &&& forall|a: T, b: T| #[trigger] a.ranks_before(b) ==> !b.ranks_before(a)
    &&& forall|a: T, b: T, c: T|
        !#[trigger] a.ranks_before(b) && !#[trigger] b.ranks_before(c) ==> !a.ranks_before(c)
}

/// Sorting puts the keys in ascending order.
pub proof fn law_sorted_is_ascending<T: Ranked>(s: Seq<T>)
    requires
        orderly::<T>(),
    ensures
        ascending(sorted(s)),
    decreases s.len(),
{
    if s.len() > 0 {
        law_sorted_is_ascending(s.drop_first());
        lemma_place_ascending(s[0], sorted(s.drop_first()));
    }
}

pub(crate) proof fn lemma_place_ascending<T: Ranked>(x: T, t: Seq<T>)
    requires
        orderly::<T>(),
        ascending(t),
    ensures
        ascending(place(x, t)),
    decreases t.len(),
{
    let r = place(x, t);
    if t.len() == 0 || !t[0].ranks_before(x) {
        assert forall|i: int, j: int|
            #![trigger r[i], r[j]]
            0 <= i < j < r.len() implies !r[j].ranks_before(r[i]) by {
            assert(r[j] == t[j - 1]);
            if i > 0 {
                assert(r[i] == t[i - 1]);
            } else if j > 1 {
                assert(!t[j - 1].ranks_before(t[0]));
            }
        }
    } else {
        let u = t.drop_first();
        assert forall|i: int, j: int|
            #![trigger u[i], u[j]]
            0 <= i < j < u.len() implies !u[j].ranks_before(u[i]) by {
            assert(u[i] == t[i + 1] && u[j] == t[j + 1]);
        }
        lemma_place_ascending(x, u);
        let v = place(x, u);
        assert forall|i: int, j: int|
            #![trigger r[i], r[j]]
            0 <= i < j < r.len() implies !r[j].ranks_before(r[i]) by {
            assert(r[j] == v[j - 1]);
            if i > 0 {
                assert(r[i] == v[i - 1]);
            } else {
                lemma_place_contains(x, u, v[j - 1]);
                assert(v.contains(v[j - 1]));
                if v[j - 1] != x {
                    let k = u.index_of(v[j - 1]);
                    assert(u.contains(v[j - 1]));
                    assert(u[k] == t[k + 1]);
                }
            }
        }
    }
}

pub(crate) proof fn lemma_place_contains<T: Ranked>(x: T, t: Seq<T>, y: T)
    ensures
        place(x, t).contains(y) <==> y == x || t.contains(y),
    decreases t.len(),
{
    let r = place(x, t);
    if t.len() == 0 || !t[0].ranks_before(x) {
        lemma_after_first(x, t, y);
    } else {
        let u = t.drop_first();
        lemma_place_contains(x, u, y);
        lemma_after_first(t[0], place(x, u), y);
        lemma_after_first(t[0], u, y);
        assert(t =~= seq![t[0]] + u);
    }
}

proof fn lemma_after_first<T>(x: T, t: Seq<T>, y: T)
    ensures
        (seq![x] + t).contains(y) <==> y == x || t.contains(y),
{
    let r = seq![x] + t;
    assert(r[0] == x);
    if t.contains(y) {
        let k = t.index_of(y);
        assert(r[k + 1] == y);
    }
    if r.contains(y) && y != x {
        let k = r.index_of(y);
        assert(t[k - 1] == y);
    }
}

pub(crate) proof fn lemma_sorted_contains<T: Ranked>(s: Seq<T>, y: T)
    ensures
        sorted(s).contains(y) <==> s.contains(y),
    decreases s.len(),
{
    if s.len() > 0 {
        lemma_sorted_contains(s.drop_first(), y);
        lemma_place_contains(s[0], sorted(s.drop_first()), y);
        lemma_after_first(s[0], s.drop_first(), y);
        assert(s =~= seq![s[0]] + s.drop_first());
    }
}

/// Whether `y`, or an element with its key, is in `s`.
pub open spec fn stands_in<T: Ranked>(s: Seq<T>, y: T) -> bool {
    s.contains(y) || exists|k: int| 0 <= k < s.len() && (#[trigger] s[k]).same_rank(y)
}

/// What is left of a list without repeated neighbours was in the list, and every
/// element of the list is still there, itself or by its key.
pub proof fn law_deduped_keeps_keys<T: Ranked>(s: Seq<T>, n: int)
    requires
        0 <= n <= s.len(),
    ensures
        forall|k: int| 0 <= k < deduped(s, n).len() ==> s.contains(#[trigger] deduped(s, n)[k]),
        forall|i: int| 0 <= i < n ==> stands_in(deduped(s, n), #[trigger] s[i]),
    decreases n,
{
    if n > 0 {
        law_deduped_keeps_keys(s, n - 1);
        let kept = deduped(s, n - 1);
        let r = deduped(s, n);
        assert forall|k: int| 0 <= k < r.len() implies s.contains(#[trigger] r[k]) by {
            if k < kept.len() {
                assert(r[k] == kept[k]);
            } else {
                assert(s[n - 1] == r[k]);
            }
        }
        assert forall|i: int| 0 <= i < n implies stands_in(r, #[trigger] s[i]) by {
            if i < n - 1 {
                assert(stands_in(kept, s[i]));
                if kept.contains(s[i]) {
                    let k = kept.index_of(s[i]);
                    assert(r[k] == s[i]);
                } else {
                    let k = choose|k: int| 0 <= k < kept.len() && (#[trigger] kept[k]).same_rank(s[i]);
                    assert(r[k] == kept[k]);
                }
            } else if kept.len() > 0 && kept.last().same_rank(s[n - 1]) {
                assert(r[kept.len() - 1].same_rank(s[i]));
            } else {
                assert(r[kept.len() as int] == s[i]);
            }
        }
    }
}

/// Elements have the same key exactly when neither stands before the other.
pub open spec fn decided<T: Ranked>() -> bool {
    forall|a: T, b: T|
        #[trigger] a.same_rank(b) <==> !a.ranks_before(b) && !b.ranks_before(a)
}

/// Every element of `s` stands before all that follow.
pub open spec fn strictly_ascending<T: Ranked>(s: Seq<T>) -> bool {
    forall|i: int, j: int|
        #![trigger s[i], s[j]]
        0 <= i < j < s.len() ==> s[i].ranks_before(s[j])
}

/// A sorted list without repeated neighbours holds every key once.
pub proof fn law_sorted_and_deduped_is_strict<T: Ranked>(s: Seq<T>)
    requires
        orderly::<T>(),
        decided::<T>(),
    ensures
        strictly_ascending(deduped(sorted(s), sorted(s).len() as int)),
{
    law_sorted_is_ascending(s);
    lemma_deduped_strict(sorted(s), sorted(s).len() as int);
}

proof fn lemma_deduped_strict<T: Ranked>(s: Seq<T>, n: int)
    requires
        orderly::<T>(),
        decided::<T>(),
        ascending(s),
        0 <= n <= s.len(),
    ensures
        strictly_ascending(deduped(s, n)),
        forall|k: int| 0 <= k < deduped(s, n).len() ==> s.take(n).contains(#[trigger] deduped(s, n)[k]),
    decreases n,
{
    if n > 0 {
        lemma_deduped_strict(s, n - 1);
        let kept = deduped(s, n - 1);
        let r = deduped(s, n);
        let c = s[n - 1];
        assert(s.take(n)[n - 1] == c);
        assert forall|k: int| 0 <= k < r.len() implies s.take(n).contains(#[trigger] r[k]) by {
            if k < kept.len() {
                assert(r[k] == kept[k]);
                let m = s.take(n - 1).index_of(kept[k]);
                assert(s.take(n)[m] == kept[k]);
            }
        }
        if kept.len() > 0 && !kept.last().same_rank(c) {
            let last = kept.last();
            let m = s.take(n - 1).index_of(last);
            assert(kept[kept.len() - 1] == last);
            assert(s[m] == last);
            assert(last.ranks_before(c));
            assert forall|i: int, j: int|
                #![trigger r[i], r[j]]
                0 <= i < j < r.len() implies r[i].ranks_before(r[j]) by {
                assert(r[i] == kept[i]);
                if j < kept.len() {
                    assert(r[j] == kept[j]);
                } else if i < kept.len() - 1 {
                    assert(kept[i].ranks_before(last));
                    if !kept[i].ranks_before(c) {
                        assert(!c.ranks_before(last));
                    }
                }
            }
        }
    }
}

/// Placing an element commutes with a map that keeps the order.
proof fn lemma_place_mapped<T: Ranked>(f: spec_fn(T) -> T, x: T, t: Seq<T>)
    requires
        forall|a: T, b: T| #[trigger] f(a).ranks_before(f(b)) == a.ranks_before(b),
    ensures
        place(f(x), t.map_values(f)) == place(x, t).map_values(f),
    decreases t.len(),
{
    let u = t.map_values(f);
    if t.len() > 0 {
        assert(u[0] == f(t[0]));
        assert(u.drop_first() =~= t.drop_first().map_values(f));
        lemma_place_mapped(f, x, t.drop_first());
    }
    assert(place(f(x), u) =~= place(x, t).map_values(f));
}

/// Sorting commutes with a map that keeps the order.
pub(crate) proof fn lemma_sorted_mapped<T: Ranked>(f: spec_fn(T) -> T, s: Seq<T>)
    requires
        forall|a: T, b: T| #[trigger] f(a).ranks_before(f(b)) == a.ranks_before(b),
    ensures
        sorted(s.map_values(f)) == sorted(s).map_values(f),
    decreases s.len(),
{
    let u = s.map_values(f);
    if s.len() > 0 {
        assert(u[0] == f(s[0]));
        assert(u.drop_first() =~= s.drop_first().map_values(f));
        lemma_sorted_mapped(f, s.drop_first());
        lemma_place_mapped(f, s[0], sorted(s.drop_first()));
    } else {
        assert(u =~= sorted(s).map_values(f));
    }
}

/// Dropping repeated neighbours commutes with a map that keeps keys apart.
pub(crate) proof fn lemma_deduped_mapped<T: Ranked>(f: spec_fn(T) -> T, s: Seq<T>, n: int)
    requires
        0 <= n <= s.len(),
        forall|i: int, j: int|
            #![trigger s[i], s[j]]
            0 <= i < s.len() && 0 <= j < s.len() ==> f(s[i]).same_rank(f(s[j])) == s[i].same_rank(
                s[j],
            ),
    ensures
        deduped(s.map_values(f), n) == deduped(s, n).map_values(f),
    decreases n,
{
    let u = s.map_values(f);
    if n > 0 {
        lemma_deduped_mapped(f, s, n - 1);
        law_deduped_keeps_keys(s, n - 1);
        let kept = deduped(s, n - 1);
        assert(u[n - 1] == f(s[n - 1]));
        if kept.len() > 0 {
            assert(s.contains(deduped(s, n - 1)[kept.len() - 1]));
            let k = s.index_of(kept.last());
            assert(s[k] == kept.last());
        }
    }
    assert(deduped(u, n) =~= deduped(s, n).map_values(f));
}

} // verus!
