use vstd::prelude::*;

verus! {

/// Two values that are written one after the other, separated by a space.
#[derive(Debug, Clone)]
pub struct SpacePair<A, B> {
    pub first: A,
    pub second: B,
}

impl<A, B> SpacePair<A, B> {
    pub fn new(first: A, second: B) -> (r: SpacePair<A, B>)
        ensures
            r.first == first,
            r.second == second,
    {
        SpacePair { first, second }
    }
}

} // verus!
