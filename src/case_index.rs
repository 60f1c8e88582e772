use vstd::prelude::*;

verus! {

/// The 1-based position of a record in the input, which is also its place in
/// the output.
#[derive(Debug, Clone, Copy, Hash, PartialEq, Eq, Structural, PartialOrd, Ord)]
pub struct CaseIndex(pub usize);

impl CaseIndex {
    /// The index that follows this one.
    pub fn next(self) -> (r: CaseIndex)
        requires
            self.0 < usize::MAX,
        ensures
            r.0 == self.0 + 1,
    {
        CaseIndex(self.0 + 1)
    }

    /// The index of the first record.
    pub fn start() -> (r: CaseIndex)
        ensures
            r.0 == 1,
    {
        CaseIndex(1)
    }
}

impl Default for CaseIndex {
    fn default() -> (r: CaseIndex)
        ensures
            r.0 == 1,
    {
        CaseIndex::start()
    }
}

/// The indices of the first `num_cases` records, in order.
pub fn case_range(num_cases: usize) -> (r: Vec<CaseIndex>)
    ensures
        r@.len() == num_cases,
        forall|i: int| 0 <= i < num_cases ==> #[trigger] r@[i].0 == i + 1,
{
    let mut r: Vec<CaseIndex> = Vec::new();
    let mut i: usize = 0;
    while i < num_cases
        invariant
            i <= num_cases,
            r@.len() == i,
            forall|j: int| 0 <= j < i ==> #[trigger] r@[j].0 == j + 1,
        decreases num_cases - i,
    {
        r.push(CaseIndex(i + 1));
        i = i + 1;
    }
    r
}

/// A cursor over the indices 1, 2, 3, ... without an upper end.
#[derive(Debug, Clone, Copy)]
pub struct Cases {
    pub following: CaseIndex,
}

impl Cases {
    /// The next index, or `None` once no further index fits in a `usize`.
    pub fn next_case(&mut self) -> (r: Option<CaseIndex>)
        ensures
            old(self).following.0 == 0 ==> r is None && *final(self) == *old(self),
            old(self).following.0 > 0 && old(self).following.0 < usize::MAX ==> r == Some(
                old(self).following,
            ) && final(self).following.0 == old(self).following.0 + 1,
            old(self).following.0 == usize::MAX ==> r == Some(old(self).following)
                && final(self).following.0 == 0,
    {
        let cur = self.following;
        if cur.0 == 0 {
            None
        } else if cur.0 < usize::MAX {
            self.following = cur.next();
            Some(cur)
        } else {
            self.following = CaseIndex(0);
            Some(cur)
        }
    }
}

/// Every index, starting at the first record.
pub fn cases() -> (r: Cases)
    ensures
        r.following.0 == 1,
{
    Cases { following: CaseIndex::start() }
}

} // verus!
