use vstd::arithmetic::div_mod::{
    lemma_div_is_ordered_by_denominator, lemma_mod_bound, lemma_mod_sub_multiples_vanish,
    lemma_multiply_divide_lt, lemma_small_mod,
};
use vstd::arithmetic::mul::{
    lemma_mul_inequality, lemma_mul_is_commutative, lemma_mul_is_distributive_add_other_way,
    lemma_mul_strict_inequality, lemma_mul_upper_bound,
};
use vstd::prelude::*;

use crate::bits::{bit_seq, bv_clear_range, bv_get, bv_set, bv_zeroed, BitArray};
use crate::hash::{Hashers, Hashes};
use crate::km::KMHashers;

verus! {

/// Numerator of a rational approximation of ln 2, the constant that fixes how
/// many insertions one head generation absorbs.
pub const LN2_NUMER: u64 = 6931471805599453;

/// Denominator of that approximation: the numerator has sixteen fractional
/// digits.
pub const LN2_DENOM: u64 = 10000000000000000;

/// The generation capacity derived from a slice width `m` and a per-insert
/// slice count `k`: the integer part of `m * ln 2 / k`, computed with the
/// rational approximation above.
pub open spec fn spec_generation_of(m: nat, k: nat) -> nat
    recommends
        k >= 1,
{
    (m * (LN2_NUMER as nat)) / (k * (LN2_DENOM as nat))
}

/// The mathematical state of a filter: the backing bits, the three
/// configuration parameters, the head position `p`, the insertions `n`
/// accepted into the current generation, and the generation capacity `g`.
#[verifier::ext_equal]
pub ghost struct FilterModel {
    pub bits: Seq<bool>,
    pub k: nat,
    pub l: nat,
    pub m: nat,
    pub p: nat,
    pub n: nat,
    pub g: nat,
}

impl FilterModel {
    /// Total number of slices in the ring.
    pub open spec fn ns(self) -> nat {
        self.k + self.l
    }

    /// Structural soundness: parameters at least one, the head inside the
    /// ring, one bit per slice cell, the generation capacity as derived, and
    /// the per-generation counter within range (`n == 1` covers the
    /// degenerate capacity zero, where every insertion rotates).
    pub open spec fn wf(self) -> bool {
        &&& self.k >= 1
        &&& self.l >= 1
        &&& self.m >= 1
        &&& self.p < self.ns()
        &&& self.bits.len() == self.ns() * self.m
        &&& self.g == spec_generation_of(self.m, self.k)
        &&& (self.n <= self.g || self.n == 1)
        &&& self.ns() * self.m <= usize::MAX
    }

    /// The state of a freshly constructed filter: all bits zero, the head at
    /// physical slice zero, no insertions yet.
    pub open spec fn fresh(k: nat, l: nat, m: nat) -> FilterModel {
        FilterModel {
            bits: Seq::new((k + l) * m, |j: int| false),
            k,
            l,
            m,
            p: 0,
            n: 0,
            g: spec_generation_of(m, k),
        }
    }
}

/// The physical slice holding logical slice `i` when the head is at `p`.
pub open spec fn phys_of(p: nat, i: int, ns: nat) -> nat
    recommends
        ns >= 1,
        0 <= i,
{
    (((p + i) % (ns as int)) as nat)
}

/// A probe sequence rendered as mathematics: position `i` is the bit position
/// probed in physical slice `i`.
pub open spec fn probes_of<HH: Hashes>(h: HH, ns: nat) -> Seq<nat> {
    Seq::new(ns, |i: int| h.spec_get(i as u64) as nat)
}

/// A probe sequence fit for a filter with `ns` slices of `m` bits each.
pub open spec fn valid_probes(pr: Seq<nat>, ns: nat, m: nat) -> bool {
    &&& pr.len() == ns
    &&& (forall|i: int| 0 <= i < ns ==> pr[i] < m)
}

/// The index into the backing array of the probed bit of physical slice `ph`.
pub open spec fn probe_index(p: nat, ns: nat, m: nat, pr: Seq<nat>, off: int) -> int {
    let ph = phys_of(p, off, ns);
    (ph * m + pr[ph as int]) as int
}

/// Whether array index `j` is probed by one of the first `upto` offsets of an
/// insertion performed with head `p`.
pub open spec fn written_upto(p: nat, ns: nat, m: nat, pr: Seq<nat>, upto: int, j: int) -> bool {
    exists|off: int| 0 <= off < upto && j == #[trigger] probe_index(p, ns, m, pr, off)
}

/// Extending the probed prefix by one offset adds exactly that offset's cell.
pub proof fn lemma_written_upto_extend(p: nat, ns: nat, m: nat, pr: Seq<nat>, upto: int, j: int)
    requires
        upto >= 0,
    ensures
        written_upto(p, ns, m, pr, upto + 1, j) <==> (written_upto(p, ns, m, pr, upto, j) || j
            == probe_index(p, ns, m, pr, upto)),
{
    if written_upto(p, ns, m, pr, upto + 1, j) {
        let w = choose|w: int| 0 <= w < upto + 1 && j == #[trigger] probe_index(p, ns, m, pr, w);
        if w < upto {
            assert(written_upto(p, ns, m, pr, upto, j));
        }
    }
    if written_upto(p, ns, m, pr, upto, j) {
        let w = choose|w: int| 0 <= w < upto && j == #[trigger] probe_index(p, ns, m, pr, w);
        assert(0 <= w < upto + 1 && j == probe_index(p, ns, m, pr, w));
        assert(written_upto(p, ns, m, pr, upto + 1, j));
    }
    if j == probe_index(p, ns, m, pr, upto) {
        assert(0 <= upto < upto + 1 && j == probe_index(p, ns, m, pr, upto));
        assert(written_upto(p, ns, m, pr, upto + 1, j));
    }
}

/// The probed bit of the slice holding logical index `i`.
pub open spec fn logical_hit(v: FilterModel, pr: Seq<nat>, i: int) -> bool {
    let ph = phys_of(v.p, i, v.ns());
    v.bits[(ph * v.m + pr[ph as int]) as int]
}

/// Whether the `k` logical slices starting at `j` all have their probed bit
/// set.
pub open spec fn full_window_at(v: FilterModel, pr: Seq<nat>, j: int) -> bool {
    forall|t: int| j <= t < j + v.k ==> logical_hit(v, pr, t)
}

/// Whether some run of `k` consecutive logical slices, starting no deeper
/// than the window boundary `l`, has every probed bit set: the membership
/// verdict of the filter for the value behind `pr`.
pub open spec fn has_window(v: FilterModel, pr: Seq<nat>) -> bool {
    exists|j: int| 0 <= j <= v.l && #[trigger] full_window_at(v, pr, j)
}

/// The bits after slice `q` is wiped to zero.
pub open spec fn clear_slice(bits: Seq<bool>, q: nat, m: nat) -> Seq<bool> {
    Seq::new(bits.len(), |j: int| if q * m <= j < (q + 1) * m { false } else { bits[j] })
}

/// One rotation: the oldest logical slice is wiped, becomes the new head, and
/// the per-generation counter restarts.
pub open spec fn spec_rotate(v: FilterModel) -> FilterModel {
    let q = phys_of(v.p, v.ns() - 1, v.ns());
    FilterModel { bits: clear_slice(v.bits, q, v.m), p: q, n: 0, ..v }
}

/// The bits after the first `upto` offsets of an insertion have set their
/// probed cells.
pub open spec fn fill_prefix(v: FilterModel, pr: Seq<nat>, upto: int) -> Seq<bool> {
    Seq::new(v.bits.len(), |j: int| v.bits[j] || written_upto(v.p, v.ns(), v.m, pr, upto, j))
}

/// The filling half of an insertion: the probed bit of each of the first `k`
/// logical slices is set, and the counter advances.
pub open spec fn spec_fill(v: FilterModel, pr: Seq<nat>) -> FilterModel {
    FilterModel { bits: fill_prefix(v, pr, v.k as int), n: v.n + 1, ..v }
}

/// A whole insertion: rotate first if the current generation is full, then
/// fill.
pub open spec fn spec_insert(v: FilterModel, pr: Seq<nat>) -> FilterModel {
    if v.n >= v.g {
        spec_fill(spec_rotate(v), pr)
    } else {
        spec_fill(v, pr)
    }
}

/// Number of set bits among array indices `lo..hi`.
pub open spec fn count_ones(bits: Seq<bool>, lo: int, hi: int) -> nat
    decreases hi - lo,
{
    if lo >= hi {
        0
    } else {
        count_ones(bits, lo, hi - 1) + if bits[hi - 1] { 1nat } else { 0nat }
    }
}

/// Population count of physical slice `s` of a filter state.
pub open spec fn slice_ones(v: FilterModel, s: int) -> nat {
    count_ones(v.bits, s * v.m, (s + 1) * v.m)
}

/// The generation capacity is below the slice width.
pub proof fn lemma_generation_lt_m(m: nat, k: nat)
    requires
        m >= 1,
        k >= 1,
    ensures
        spec_generation_of(m, k) < m,
{
    let numer = (m * (LN2_NUMER as nat)) as int;
    let d1 = LN2_DENOM as int;
    let dk = (k * (LN2_DENOM as nat)) as int;
    lemma_mul_inequality(1, k as int, d1);
    lemma_div_is_ordered_by_denominator(numer, d1, dk);
    lemma_mul_strict_inequality(LN2_NUMER as int, LN2_DENOM as int, m as int);
    lemma_mul_is_commutative(m as int, LN2_NUMER as int);
    lemma_mul_is_commutative(m as int, LN2_DENOM as int);
    lemma_multiply_divide_lt(numer, d1, m as int);
}

/// The probed cell of a slice lies inside the backing array.
pub proof fn lemma_cell_index_bound(ns: nat, m: nat, ph: nat, pos: nat)
    requires
        ph < ns,
        pos < m,
    ensures
        ph * m + pos < ns * m,
{
    lemma_mul_is_distributive_add_other_way(m as int, ph as int, 1);
    lemma_mul_inequality((ph + 1) as int, ns as int, m as int);
}

/// The slice count is no more than the total bit count.
proof fn lemma_ns_le_total(ns: nat, m: nat)
    requires
        m >= 1,
    ensures
        ns <= ns * m,
{
    lemma_mul_inequality(1, m as int, ns as int);
    lemma_mul_is_commutative(m as int, ns as int);
}

/// The physical slice of logical index `i`, spelt without the modulus.
pub proof fn lemma_phys_of_cases(p: nat, i: nat, ns: nat)
    requires
        ns >= 1,
        p < ns,
        i < ns,
    ensures
        phys_of(p, i as int, ns) == if p + i < ns {
            (p + i) as nat
        } else {
            (p + i - ns) as nat
        },
        phys_of(p, i as int, ns) < ns,
{
    if p + i < ns {
        lemma_small_mod((p + i) as nat, ns);
    } else {
        lemma_mod_sub_multiples_vanish((p + i) as int, ns as int);
        lemma_small_mod((p + i - ns) as nat, ns);
    }
}

/// An Age-Partitioned Bloom Filter: a bit array cut into `k + l` slices of
/// `m` bits that rotate as the filter ages. Each insertion sets one bit in
/// each of the `k` newest slices; a membership test walks the slices looking
/// for `k` consecutive set bits.
pub struct APBF<T, H: Hashers> {
    hashers: H,
    bits: BitArray,
    k: usize,
    l: usize,
    m: usize,
    n: u64,
    p: usize,
    g: u64,
    _t: core::marker::PhantomData<T>,
}

impl<T, H: Hashers> View for APBF<T, H> {
    type V = FilterModel;

    closed spec fn view(&self) -> FilterModel {
        FilterModel {
            bits: bit_seq(self.bits),
            k: self.k as nat,
            l: self.l as nat,
            m: self.m as nat,
            p: self.p as nat,
            n: self.n as nat,
            g: self.g as nat,
        }
    }
}

impl<T, H: Hashers> APBF<T, H> {
    /// The filter is sound: its mathematical state is well formed and its
    /// hash family derives probe positions below the slice width.
    pub closed spec fn inv(self) -> bool {
        &&& self@.wf()
        &&& self.hashers.wf()
        &&& self.hashers.bound() as nat == self@.m
    }
}

/// The generation capacity for slice width `m` and per-insert count `k`:
/// the integer part of `m * ln 2 / k`, by fixed-point arithmetic wide enough
/// never to overflow.
fn generation_capacity(k: usize, m: usize) -> (r: u64)
    requires
        1 <= k,
        1 <= m,
    ensures
        r as nat == spec_generation_of(m as nat, k as nat),
        (r as nat) < m as nat,
{
    proof {
        lemma_mul_upper_bound(m as int, u64::MAX as int, LN2_NUMER as int, LN2_NUMER as int);
        lemma_mul_upper_bound(k as int, u64::MAX as int, LN2_DENOM as int, LN2_DENOM as int);
        lemma_mul_inequality(1, k as int, LN2_DENOM as int);
        lemma_generation_lt_m(m as nat, k as nat);
    }
    let numer: u128 = (m as u128) * (LN2_NUMER as u128);
    let denom: u128 = (k as u128) * (LN2_DENOM as u128);
    let q: u128 = numer / denom;
    q as u64
}

impl<T: core::hash::Hash> APBF<
    T,
    KMHashers<std::collections::hash_map::RandomState, std::collections::hash_map::RandomState>,
> {
    /// Builds the filter around a freshly seeded default double-hash family.
    pub fn new(k: usize, l: usize, m: usize) -> (r: Self)
        requires
            1 <= k,
            1 <= l,
            1 <= m,
            (k + l) * m <= usize::MAX,
        ensures
            r.inv(),
            r@ == FilterModel::fresh(k as nat, l as nat, m as nat),
    {
        Self::with_hashers(k, l, m, KMHashers::new(m as u64))
    }
}

impl<T, H> APBF<T, H> where T: core::hash::Hash, H: Hashers {
    /// Builds the filter around an explicit hash family. The configuration
    /// parameters must be at least one and the backing array must fit in
    /// memory; the result is the fresh, all-zero state.
    pub fn with_hashers(k: usize, l: usize, m: usize, hashers: H) -> (r: Self)
        requires
            1 <= k,
            1 <= l,
            1 <= m,
            (k + l) * m <= usize::MAX,
            hashers.wf(),
            hashers.bound() as nat == m as nat,
        ensures
            r.inv(),
            r@ == FilterModel::fresh(k as nat, l as nat, m as nat),
    {
        let g = generation_capacity(k, m);
        proof {
            lemma_ns_le_total((k + l) as nat, m as nat);
        }
        let ns = k + l;
        let total = ns * m;
        let bits = bv_zeroed(total);
        let r = APBF {
            hashers,
            bits,
            k,
            l,
            m,
            n: 0u64,
            p: 0usize,
            g,
            _t: core::marker::PhantomData,
        };
        proof {
            assert(r@ =~= FilterModel::fresh(k as nat, l as nat, m as nat));
        }
        r
    }

    /// Rotates the ring: wipes the oldest logical slice, makes it the new
    /// head, and restarts the per-generation counter.
    fn shift(&mut self)
        requires
            old(self).inv(),
        ensures
            final(self).inv(),
            final(self)@ == spec_rotate(old(self)@),
    {
        proof {
            lemma_ns_le_total(old(self)@.ns(), old(self)@.m);
            lemma_phys_of_cases(old(self)@.p, (old(self)@.ns() - 1) as nat, old(self)@.ns());
        }
        let ns = self.k + self.l;
        let prev = if self.p == 0 {
            ns - 1
        } else {
            self.p - 1
        };
        proof {
            lemma_cell_index_bound(self@.ns(), self@.m, prev as nat, (self@.m - 1) as nat);
            lemma_mul_is_distributive_add_other_way(self@.m as int, prev as int, 1);
        }
        let start = prev * self.m;
        bv_clear_range(&mut self.bits, start, start + self.m);
        self.p = prev;
        self.n = 0;
        proof {
            assert(self@.bits =~= clear_slice(old(self)@.bits, prev as nat, self@.m));
            assert(self@ =~= spec_rotate(old(self)@));
        }
    }

    /// Performs one insertion driven by an already-derived probe sequence:
    /// rotates first if the current generation is full, then sets the probed
    /// bit of each of the `k` newest slices and advances the counter.
    pub fn insert_hashes(&mut self, hashes: &H::H)
        requires
            old(self).inv(),
            hashes.wf(),
            hashes.bound() as nat == old(self)@.m,
        ensures
            final(self).inv(),
            final(self)@ == spec_insert(old(self)@, probes_of(*hashes, old(self)@.ns())),
    {
        if self.n >= self.g {
            self.shift();
        }
        let ghost v0 = self@;
        let ghost pr = probes_of::<H::H>(*hashes, v0.ns());
        proof {
            lemma_ns_le_total(v0.ns(), v0.m);
            assert forall|i: int| 0 <= i < v0.ns() implies pr[i] < v0.m by {
                hashes.lemma_get_in_bound(i as u64);
            }
        }
        let ns = self.k + self.l;
        let mut off: usize = 0;
        while off < self.k
            invariant
                self.inv(),
                hashes.wf(),
                hashes.bound() as nat == v0.m,
                self@.k == v0.k,
                self@.l == v0.l,
                self@.m == v0.m,
                self@.p == v0.p,
                self@.n == v0.n,
                self@.g == v0.g,
                ns == v0.ns(),
                off <= v0.k,
                pr == probes_of::<H::H>(*hashes, v0.ns()),
                valid_probes(pr, v0.ns(), v0.m),
                self@.bits == fill_prefix(v0, pr, off as int),
            decreases v0.k - off,
        {
            let ghost off0 = off as int;
            proof {
                lemma_phys_of_cases(v0.p, off as nat, v0.ns());
            }
            let pos = if off >= ns - self.p {
                off - (ns - self.p)
            } else {
                self.p + off
            };
            let hv = hashes.get(pos as u64);
            proof {
                hashes.lemma_get_in_bound(pos as u64);
                lemma_cell_index_bound(v0.ns(), v0.m, pos as nat, hv as nat);
            }
            let idx = pos * self.m + (hv as usize);
            let ghost prev_bits = self@.bits;
            proof {
                assert(pos as nat == phys_of(v0.p, off0, v0.ns()));
                assert(pr[pos as int] == hashes.spec_get(pos as u64) as nat);
                assert(idx == probe_index(v0.p, v0.ns(), v0.m, pr, off0));
            }
            bv_set(&mut self.bits, idx);
            proof {
                assert forall|j: int| 0 <= j < v0.bits.len() implies self@.bits[j]
                    == fill_prefix(v0, pr, off0 + 1)[j] by {
                    lemma_written_upto_extend(v0.p, v0.ns(), v0.m, pr, off0, j);
                    assert(self@.bits[j] == prev_bits.update(idx as int, true)[j]);
                    assert(prev_bits[j] == fill_prefix(v0, pr, off0)[j]);
                }
                assert(self@.bits =~= fill_prefix(v0, pr, off0 + 1));
            }
            off = off + 1;
        }
        self.n = self.n + 1;
        proof {
            assert(self@.bits =~= spec_fill(v0, pr).bits);
            assert(self@ =~= spec_fill(v0, pr));
            assert(old(self)@.ns() == v0.ns());
            if old(self)@.n >= old(self)@.g {
                assert(v0 == spec_rotate(old(self)@));
            } else {
                assert(v0 == old(self)@);
            }
        }
    }

    /// Inserts a value: derives its probe sequence with the filter's hash
    /// family, then proceeds as `insert_hashes`. Which probe sequence the
    /// family yields is not specified, so the new state is pinned only up to
    /// the derived probes.
    pub fn insert(&mut self, value: &T)
        requires
            old(self).inv(),
        ensures
            final(self).inv(),
            exists|pr: Seq<nat>|
                valid_probes(pr, old(self)@.ns(), old(self)@.m) && final(self)@ == spec_insert(
                    old(self)@,
                    pr,
                ),
            final(self)@.k == old(self)@.k && final(self)@.l == old(self)@.l && final(self)@.m
                == old(self)@.m && final(self)@.g == old(self)@.g,
            old(self)@.n < old(self)@.g ==> final(self)@.p == old(self)@.p && final(self)@.n
                == old(self)@.n + 1,
            old(self)@.n >= old(self)@.g ==> final(self)@.p == phys_of(
                old(self)@.p,
                old(self)@.ns() - 1,
                old(self)@.ns(),
            ) && final(self)@.n == 1,
    {
        let hashes = self.hashers.hash(value);
        proof {
            assert forall|i: int| 0 <= i < old(self)@.ns() implies probes_of::<H::H>(
                hashes,
                old(self)@.ns(),
            )[i] < old(self)@.m by {
                hashes.lemma_get_in_bound(i as u64);
            }
        }
        self.insert_hashes(&hashes);
        proof {
            let pr = probes_of::<H::H>(hashes, old(self)@.ns());
            assert(valid_probes(pr, old(self)@.ns(), old(self)@.m) && self@ == spec_insert(
                old(self)@,
                pr,
            ));
        }
    }

    /// Tests membership driven by an already-derived probe sequence: walks
    /// the logical slices from the window boundary with backtracking, and
    /// answers exactly whether some run of `k` consecutive logical slices,
    /// starting no deeper than `l`, has every probed bit set.
    pub fn contains_hashes(&self, hashes: &H::H) -> (r: bool)
        requires
            self.inv(),
            hashes.wf(),
            hashes.bound() as nat == self@.m,
        ensures
            r == has_window(self@, probes_of(*hashes, self@.ns())),
    {
        let ghost v = self@;
        let ghost pr = probes_of::<H::H>(*hashes, v.ns());
        proof {
            lemma_ns_le_total(v.ns(), v.m);
            assert forall|ii: int| 0 <= ii < v.ns() implies pr[ii] < v.m by {
                hashes.lemma_get_in_bound(ii as u64);
            }
        }
        let ns = self.k + self.l;
        let mut i: usize = self.l;
        let mut prev_count: usize = 0;
        let mut count: usize = 0;
        loop
            invariant
                self.inv(),
                hashes.wf(),
                hashes.bound() as nat == v.m,
                v == self@,
                ns == v.ns(),
                pr == probes_of::<H::H>(*hashes, v.ns()),
                valid_probes(pr, v.ns(), v.m),
                count <= i,
                i as int - count as int <= v.l,
                prev_count + count < v.k,
                forall|t: int| i as int - count as int <= t < i as int ==> logical_hit(v, pr, t),
                prev_count > 0 ==> forall|t: int|
                    i as int - count as int + v.k - prev_count <= t < i as int - count as int
                        + v.k ==> logical_hit(v, pr, t),
                forall|j: int|
                    0 <= j <= v.l && #[trigger] full_window_at(v, pr, j) ==> j <= i as int
                        - count as int,
            decreases i as int + v.k - count as int, v.k - count as int,
        {
            proof {
                lemma_phys_of_cases(v.p, i as nat, v.ns());
            }
            let pos = if i >= ns - self.p {
                i - (ns - self.p)
            } else {
                self.p + i
            };
            let hv = hashes.get(pos as u64);
            proof {
                hashes.lemma_get_in_bound(pos as u64);
                lemma_cell_index_bound(v.ns(), v.m, pos as nat, hv as nat);
            }
            let idx = pos * self.m + (hv as usize);
            let hit = bv_get(&self.bits, idx);
            let ghost iq = i as int;
            proof {
                assert(pos as nat == phys_of(v.p, iq, v.ns()));
                assert(pr[pos as int] == hashes.spec_get(pos as u64) as nat);
                assert(hit == logical_hit(v, pr, iq));
            }
            if hit {
                count = count + 1;
                i = i + 1;
                proof {
                    assert forall|t: int| i as int - count as int <= t < i as int implies
                        logical_hit(v, pr, t) by {
                        if t == iq {
                            assert(logical_hit(v, pr, iq));
                        }
                    }
                }
                if prev_count + count == self.k {
                    proof {
                        let j0 = i as int - count as int;
                        assert forall|t: int| j0 <= t < j0 + v.k implies logical_hit(v, pr, t)
                            by {
                            if t >= i as int {
                                assert(prev_count > 0);
                                assert(logical_hit(v, pr, t));
                            }
                        }
                        assert(full_window_at(v, pr, j0));
                        assert(has_window(v, pr));
                    }
                    return true;
                }
            } else {
                if i < self.k {
                    proof {
                        if has_window(v, pr) {
                            let j0 = choose|j: int|
                                0 <= j <= v.l && #[trigger] full_window_at(v, pr, j);
                            assert(j0 <= iq - count as int);
                            assert(j0 <= iq < j0 + v.k);
                            assert(logical_hit(v, pr, iq));
                            assert(false);
                        }
                    }
                    return false;
                }
                let ghost c_old = count as int;
                i = i - self.k;
                prev_count = count;
                count = 0;
                proof {
                    if prev_count > 0 {
                        assert forall|t: int|
                            i as int - count as int + v.k - prev_count <= t < i as int
                                - count as int + v.k implies logical_hit(v, pr, t) by {
                            assert(iq - c_old <= t < iq);
                        }
                    }
                    assert forall|j: int|
                        0 <= j <= v.l && #[trigger] full_window_at(v, pr, j) implies j <= i as int
                            - count as int by {
                        assert(j <= iq - c_old);
                        if j > i as int {
                            assert(j <= iq < j + v.k);
                            assert(logical_hit(v, pr, iq));
                            assert(false);
                        }
                    }
                }
            }
        }
    }

    /// Tests membership of a value: derives its probe sequence with the
    /// filter's hash family, then proceeds as `contains_hashes`. Whatever
    /// probe sequence the family yields, a filter whose bits are all zero
    /// answers `false`.
    pub fn contains(&self, value: &T) -> (r: bool)
        requires
            self.inv(),
        ensures
            exists|pr: Seq<nat>|
                valid_probes(pr, self@.ns(), self@.m) && r == has_window(self@, pr),
            (forall|j: int| 0 <= j < self@.bits.len() ==> !self@.bits[j]) ==> !r,
    {
        let hashes = self.hashers.hash(value);
        let r = self.contains_hashes(&hashes);
        proof {
            let pr = probes_of::<H::H>(hashes, self@.ns());
            assert forall|ii: int| 0 <= ii < self@.ns() implies pr[ii] < self@.m by {
                hashes.lemma_get_in_bound(ii as u64);
            }
            assert(valid_probes(pr, self@.ns(), self@.m) && r == has_window(self@, pr));
            if (forall|j: int| 0 <= j < self@.bits.len() ==> !self@.bits[j]) && r {
                let j0 = choose|j: int|
                    0 <= j <= self@.l && #[trigger] full_window_at(self@, pr, j);
                assert(logical_hit(self@, pr, j0));
                let ph = phys_of(self@.p, j0, self@.ns());
                lemma_mod_bound(self@.p as int + j0, self@.ns() as int);
                lemma_cell_index_bound(self@.ns(), self@.m, ph, pr[ph as int]);
                assert(false);
            }
        }
        r
    }

    /// Population count of one physical slice, by walking its bits.
    pub fn slice_count_ones(&self, s: usize) -> (r: usize)
        requires
            self.inv(),
            (s as nat) < self@.ns(),
        ensures
            r as nat == slice_ones(self@, s as int),
    {
        proof {
            lemma_cell_index_bound(self@.ns(), self@.m, s as nat, (self@.m - 1) as nat);
            lemma_mul_is_distributive_add_other_way(self@.m as int, s as int, 1);
        }
        let base = s * self.m;
        let mut t: usize = 0;
        let mut r: usize = 0;
        while t < self.m
            invariant
                self.inv(),
                (s as nat) < self@.ns(),
                base == s as int * self@.m as int,
                base + self@.m <= self@.bits.len(),
                t <= self@.m,
                r <= t,
                r as nat == count_ones(self@.bits, base as int, base as int + t as int),
            decreases self@.m - t,
        {
            let b = bv_get(&self.bits, base + t);
            if b {
                r = r + 1;
            }
            t = t + 1;
        }
        r
    }

    /// The physical index of the slice currently acting as the head.
    pub fn head_index(&self) -> (r: usize)
        ensures
            r as nat == self@.p,
    {
        self.p
    }

    /// How many insertions the current head generation has absorbed.
    pub fn current_count(&self) -> (r: u64)
        ensures
            r as nat == self@.n,
    {
        self.n
    }

    /// The total number of slices in the ring.
    pub fn slices(&self) -> (r: usize)
        requires
            self.inv(),
        ensures
            r as nat == self@.ns(),
    {
        proof {
            lemma_ns_le_total(self@.ns(), self@.m);
        }
        self.k + self.l
    }

    /// Width of the sliding window over which recall is guaranteed:
    /// `l` slices of `g` insertions each.
    pub fn window(&self) -> (r: u64)
        requires
            self.inv(),
        ensures
            r as nat == self@.l * self@.g,
    {
        proof {
            self.lemma_observable_bounds();
        }
        (self.l as u64) * self.g
    }

    /// Width of the transition zone that follows the window: `k` slices of
    /// `g` insertions each.
    pub fn slack(&self) -> (r: u64)
        requires
            self.inv(),
        ensures
            r as nat == self@.k * self@.g,
    {
        proof {
            self.lemma_observable_bounds();
        }
        (self.k as u64) * self.g
    }

    /// The generation capacity: how many insertions one head generation
    /// absorbs before the ring rotates.
    pub fn generation(&self) -> (r: u64)
        requires
            self.inv(),
        ensures
            r as nat == self@.g,
            r as nat == spec_generation_of(self@.m, self@.k),
    {
        self.g
    }

    /// The window and slack products fit the machine words they are computed
    /// in.
    proof fn lemma_observable_bounds(self)
        requires
            self.inv(),
        ensures
            self@.l * self@.g <= usize::MAX,
            self@.k * self@.g <= usize::MAX,
    {
        let v = self@;
        lemma_generation_lt_m(v.m, v.k);
        lemma_mul_strict_inequality(v.g as int, v.m as int, v.l as int);
        lemma_mul_strict_inequality(v.g as int, v.m as int, v.k as int);
        lemma_mul_inequality(v.l as int, v.ns() as int, v.m as int);
        lemma_mul_inequality(v.k as int, v.ns() as int, v.m as int);
        lemma_mul_is_commutative(v.l as int, v.g as int);
        lemma_mul_is_commutative(v.l as int, v.m as int);
        lemma_mul_is_commutative(v.k as int, v.g as int);
        lemma_mul_is_commutative(v.k as int, v.m as int);
    }
}

} // verus!
