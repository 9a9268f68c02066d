//! Lists of owned values: their contents and copies of them.
use vstd::prelude::*;

verus! {

/// Contents of a list.
pub open spec fn views<T: View>(s: Seq<T>) -> Seq<T::V> {
    Seq::new(s.len(), |i: int| s[i]@)
}

/// Values of which copies with the same contents can be made.
pub trait Copied: View + Sized {
    /// A copy.
    fn copied(&self) -> (r: Self)
        ensures
            r@ == self@,
    ;
}

/// A copy of a list.
pub fn copied_list<T: Copied>(v: &Vec<T>) -> (r: Vec<T>)
    ensures
        views(r@) == views(v@),
{
    let mut out: Vec<T> = Vec::new();
    for i in 0..v.len()
        invariant
            out@.len() == i,
            forall|j: int| 0 <= j < i ==> (#[trigger] out@[j])@ == v@[j]@,
    {
        let ghost before = out@;
        out.push(v[i].copied());
        proof {
            assert forall|j: int| 0 <= j < i + 1 implies (#[trigger] out@[j])@ == v@[j]@ by {
                if j < i {
                    assert(out@[j] == before[j]);
                }
            }
        }
    }
    proof {
        assert(views(out@) =~= views(v@));
    }
    out
}

/// Joining two lists joins their contents.
pub proof fn lemma_views_join<T: View>(a: Seq<T>, b: Seq<T>)
    ensures
        views(a + b) == views(a) + views(b),
{
    assert(views(a + b) =~= views(a) + views(b));
}

/// Appending a value appends its contents.
pub proof fn lemma_views_push<T: View>(a: Seq<T>, x: T)
    ensures
        views(a.push(x)) == views(a).push(x@),
{
    assert(views(a.push(x)) =~= views(a).push(x@));
}

impl Copied for (String, String, String) {
    fn copied(&self) -> (r: (String, String, String)) {
        (self.0.clone(), self.1.clone(), self.2.clone())
    }
}

} // verus!
