//! Copies with a known content.

use vstd::prelude::*;

use crate::sorting::views;

verus! {

/// Makes an equal value.
pub trait Duplicate: View + Sized {
    /// A value with the same view.
    fn duplicate(&self) -> (res: Self)
        ensures
            res@ == self@,
    ;
}

impl Duplicate for String {
    fn duplicate(&self) -> (res: Self) {
        self.clone()
    }
}

impl Duplicate for () {
    fn duplicate(&self) -> (res: Self) {
        ()
    }
}

/// Duplicates the elements of a vector, in order.
pub fn duplicate_all<T: Duplicate>(v: &Vec<T>) -> (res: Vec<T>)
    ensures
        views(res@) == views(v@),
{
    let mut res: Vec<T> = Vec::new();
    let n = v.len();
    for i in 0..n
        invariant
            n == v.len(),
            res.len() == i,
            forall|k: int| 0 <= k < i ==> (#[trigger] res[k])@ == v[k]@,
    {
        res.push(v[i].duplicate());
    }
    assert(views(res@) =~= views(v@));
    res
}

} // verus!
