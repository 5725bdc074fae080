use vstd::prelude::*;

verus! {

/// A per-value probe sequence: for every slice index `i` it answers the bit
/// position to probe in that slice, always below `bound()`.
pub trait Hashes: Sized {
    /// The probe sequence is usable: its positions stay below `bound()`.
    spec fn wf(&self) -> bool;

    /// The exclusive upper bound of every probe position (the slice width).
    spec fn bound(&self) -> u64;

    /// The probe position this sequence answers for slice index `i`.
    spec fn spec_get(&self, i: u64) -> u64;

    /// Every probe position lies below the bound.
    proof fn lemma_get_in_bound(&self, i: u64)
        requires
            self.wf(),
        ensures
            self.spec_get(i) < self.bound(),
    ;

    /// Answers the probe position for slice index `i`.
    fn get(&self, i: u64) -> (r: u64)
        requires
            self.wf(),
        ensures
            r == self.spec_get(i),
    ;
}

/// A family of hash functions: derives, from one value, the probe sequence
/// that maps each slice index to a bit position below `bound()`.
pub trait Hashers: Sized {
    type H: Hashes;

    /// The family is usable: the probe sequences it derives are.
    spec fn wf(&self) -> bool;

    /// The exclusive upper bound the derived probe positions obey.
    spec fn bound(&self) -> u64;

    /// Derives the probe sequence for one value.
    fn hash<Q: core::hash::Hash>(&self, value: &Q) -> (r: Self::H)
        requires
            self.wf(),
        ensures
            r.wf(),
            r.bound() == self.bound(),
    ;
}

} // verus!
