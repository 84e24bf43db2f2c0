//! Candidate lists: parallel (distance, rowid) arrays sorted by distance.

use vstd::prelude::*;

verus! {

/// A ranked list of nearest-neighbor candidates: parallel arrays of
/// distance keys and rowids. A well-formed list has arrays of equal
/// length; a sorted one is non-decreasing in distance.
pub struct CandidateList {
    pub distances: Vec<u32>,
    pub rowids: Vec<i64>,
}

/// The (distance, rowid) pairs that two parallel sequences spell out.
pub open spec fn paired(distances: Seq<u32>, rowids: Seq<i64>) -> Seq<(u32, i64)> {
    Seq::new(distances.len(), |i: int| (distances[i], rowids[i]))
}

/// Non-decreasing in distance.
pub open spec fn sorted_by_distance(s: Seq<(u32, i64)>) -> bool {
    forall|i: int, j: int| 0 <= i <= j < s.len() ==> (#[trigger] s[i]).0 <= (#[trigger] s[j]).0
}

impl View for CandidateList {
    type V = Seq<(u32, i64)>;

    open spec fn view(&self) -> Seq<(u32, i64)> {
        paired(self.distances@, self.rowids@)
    }
}

impl CandidateList {
    /// Both arrays carry one entry per candidate.
    pub open spec fn well_formed(self) -> bool {
        self.distances@.len() == self.rowids@.len()
    }

    /// Number of candidates in the list.
    pub fn len(&self) -> (n: usize)
        requires
            self.well_formed(),
        ensures
            n == self@.len(),
    {
        self.distances.len()
    }
}

} // verus!
