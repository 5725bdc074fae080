use vstd::arithmetic::mul::lemma_mul_upper_bound;
use vstd::prelude::*;

use crate::hash::{Hashers, Hashes};

verus! {

/// A logical family of hash functions derived from two inner hash builders
/// with the Kirsch-Mitzenmacher construction: the probe position for slice
/// index `i` is `(x1 + i * x2) mod p`, where `x1` and `x2` are the two
/// builders' digests of the value reduced modulo `p`.
pub struct KMHashers<B1, B2> where B1: core::hash::BuildHasher, B2: core::hash::BuildHasher {
    bh1: B1,
    bh2: B2,
    p: u64,
}

/// Relies on std's `RandomState::new`: a hash builder with fresh random
/// seeds; nothing is promised of the digests its hashers produce.
#[verifier::external_body]
fn fresh_random_state() -> std::collections::hash_map::RandomState {
    std::collections::hash_map::RandomState::new()
}

/// Relies on std's `BuildHasher::hash_one`: feeds the value to one hasher
/// built by this builder and returns that hasher's digest. The digest depends
/// on the builder's seeds, so nothing is promised of it.
#[verifier::external_body]
fn hash_one_with<B: core::hash::BuildHasher, Q: core::hash::Hash>(bh: &B, value: &Q) -> u64 {
    bh.hash_one(value)
}

impl KMHashers<
    std::collections::hash_map::RandomState,
    std::collections::hash_map::RandomState,
> {
    /// A family over two freshly seeded default hash builders, with probe
    /// positions below `p`.
    pub fn new(p: u64) -> (r: Self)
        requires
            1 <= p,
        ensures
            r.wf(),
            r.bound() == p,
    {
        KMHashers::with_build_hashers(p, fresh_random_state(), fresh_random_state())
    }
}

impl<B1, B2> KMHashers<B1, B2> where B1: core::hash::BuildHasher, B2: core::hash::BuildHasher {
    /// A family over the two given hash builders, with probe positions
    /// below `p`.
    pub fn with_build_hashers(p: u64, bh1: B1, bh2: B2) -> (r: Self)
        requires
            1 <= p,
        ensures
            r.wf(),
            r.bound() == p,
    {
        Self { p, bh1, bh2 }
    }
}

impl<B1, B2> Hashers for KMHashers<B1, B2> where
    B1: core::hash::BuildHasher,
    B2: core::hash::BuildHasher,
 {
    type H = KMHashes;

    closed spec fn wf(&self) -> bool {
        self.p >= 1
    }

    closed spec fn bound(&self) -> u64 {
        self.p
    }

    fn hash<Q: core::hash::Hash>(&self, value: &Q) -> (r: KMHashes) {
        let x1 = hash_one_with(&self.bh1, value) % self.p;
        let x2 = hash_one_with(&self.bh2, value) % self.p;
        KMHashes { x1, x2, p: self.p }
    }
}

/// One value's probe sequence under the Kirsch-Mitzenmacher construction.
#[derive(Clone, Debug)]
pub struct KMHashes {
    x1: u64,
    x2: u64,
    p: u64,
}

impl Hashes for KMHashes {
    closed spec fn wf(&self) -> bool {
        &&& self.p >= 1
        &&& self.x1 < self.p
        &&& self.x2 < self.p
    }

    closed spec fn bound(&self) -> u64 {
        self.p
    }

    closed spec fn spec_get(&self, i: u64) -> u64 {
        ((self.x1 as int + i as int * self.x2 as int) % (self.p as int)) as u64
    }

    proof fn lemma_get_in_bound(&self, i: u64) {
        let d = self.x1 as int + i as int * self.x2 as int;
        let pp = self.p as int;
        assert(i as int * self.x2 as int >= 0) by (nonlinear_arith)
            requires
                i >= 0,
                self.x2 >= 0,
        ;
        assert(0 <= d % pp < pp) by (nonlinear_arith)
            requires
                pp >= 1,
        ;
    }

    fn get(&self, i: u64) -> (r: u64) {
        proof {
            lemma_mul_upper_bound(i as int, u64::MAX as int, self.x2 as int, u64::MAX as int);
            self.lemma_get_in_bound(i);
        }
        let prod: u128 = (i as u128) * (self.x2 as u128);
        let sum: u128 = (self.x1 as u128) + prod;
        let r128: u128 = sum % (self.p as u128);
        r128 as u64
    }
}

} // verus!
