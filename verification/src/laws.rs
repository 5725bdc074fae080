use vstd::arithmetic::div_mod::{
    lemma_add_mod_noop, lemma_mod_bound, lemma_mod_self_0, lemma_mod_sub_multiples_vanish,
    lemma_small_mod,
};
use vstd::arithmetic::mul::{
    lemma_mul_by_zero_is_zero, lemma_mul_inequality, lemma_mul_is_distributive_add_other_way,
};
use vstd::prelude::*;

use crate::filter::{
    count_ones, full_window_at, has_window, lemma_cell_index_bound, lemma_phys_of_cases,
    logical_hit, phys_of, probe_index, slice_ones, spec_fill, spec_insert, spec_rotate,
    valid_probes, written_upto, FilterModel,
};

verus! {

/// Every entry of a sequence of probe sequences fits the filter's geometry.
pub open spec fn all_valid_probes(prs: Seq<Seq<nat>>, ns: nat, m: nat) -> bool {
    forall|s: int| 0 <= s < prs.len() ==> valid_probes(#[trigger] prs[s], ns, m)
}

/// The filter state after the whole sequence of insertions, first entry
/// first.
pub open spec fn spec_insert_all(v: FilterModel, prs: Seq<Seq<nat>>) -> FilterModel
    decreases prs.len(),
{
    if prs.len() == 0 {
        v
    } else {
        spec_insert_all(spec_insert(v, prs[0]), prs.drop_first())
    }
}

/// A slice-cell index determines its slice and its offset within the slice.
proof fn lemma_slice_decomp(m: int, a: int, b: int, a2: int, b2: int)
    requires
        m >= 1,
        0 <= b < m,
        0 <= b2 < m,
        a * m + b == a2 * m + b2,
        a >= 0,
        a2 >= 0,
    ensures
        a == a2,
        b == b2,
{
    assert(a == a2 && b == b2) by (nonlinear_arith)
        requires
            m >= 1,
            0 <= b < m,
            0 <= b2 < m,
            a * m + b == a2 * m + b2,
    ;
}

/// A range of all-zero bits has population count zero.
proof fn lemma_count_zero(bits: Seq<bool>, lo: int, hi: int)
    requires
        forall|j: int| lo <= j < hi ==> !bits[j],
    ensures
        count_ones(bits, lo, hi) == 0,
    decreases hi - lo,
{
    if lo < hi {
        lemma_count_zero(bits, lo, hi - 1);
    }
}

/// A range with exactly one set bit has population count one.
proof fn lemma_count_single(bits: Seq<bool>, lo: int, hi: int, q: int)
    requires
        lo <= q < hi,
        bits[q],
        forall|j: int| lo <= j < hi && j != q ==> !bits[j],
    ensures
        count_ones(bits, lo, hi) == 1,
    decreases hi - lo,
{
    if q == hi - 1 {
        lemma_count_zero(bits, lo, hi - 1);
    } else {
        lemma_count_single(bits, lo, hi - 1, q);
    }
}

/// Fresh-insert footprint: one insertion into a fresh filter with a positive
/// generation capacity sets exactly one bit in each of the first `k`
/// physical slices and none in the remaining `l`.
pub proof fn lemma_fresh_insert_footprint(v: FilterModel, pr: Seq<nat>)
    requires
        v.wf(),
        v.g >= 1,
        v.p == 0,
        v.n == 0,
        forall|j: int| 0 <= j < v.bits.len() ==> !(#[trigger] v.bits[j]),
        valid_probes(pr, v.ns(), v.m),
    ensures
        forall|s: int| 0 <= s < v.k ==> #[trigger] slice_ones(spec_insert(v, pr), s) == 1,
        forall|s: int| v.k <= s < v.ns() ==> #[trigger] slice_ones(spec_insert(v, pr), s) == 0,
{
    let w = spec_insert(v, pr);
    let ns = v.ns();
    let m = v.m;
    assert(w == spec_fill(v, pr));
    assert forall|off: int| 0 <= off < v.k implies probe_index(v.p, ns, m, pr, off) == off * m
        + pr[off] by {
        lemma_small_mod(off as nat, ns);
    }
    assert forall|s: int| 0 <= s < v.k implies #[trigger] slice_ones(w, s) == 1 by {
        let q = s * m + pr[s];
        lemma_mul_is_distributive_add_other_way(m as int, s, 1);
        lemma_cell_index_bound(ns, m, s as nat, pr[s] as int as nat);
        lemma_cell_index_bound(ns, m, s as nat, (m - 1) as nat);
        assert((s + 1) * m == s * m + m);
        assert(probe_index(v.p, ns, m, pr, s) == q);
        assert(written_upto(v.p, ns, m, pr, v.k as int, q));
        assert(w.bits[q]);
        assert forall|j: int| s * m <= j < (s + 1) * m && j != q implies !(#[trigger] w.bits[j])
            by {
            assert(w.bits[j] == (v.bits[j] || written_upto(v.p, ns, m, pr, v.k as int, j)));
            if written_upto(v.p, ns, m, pr, v.k as int, j) {
                let off = choose|off: int|
                    0 <= off < v.k && j == #[trigger] probe_index(v.p, ns, m, pr, off);
                assert(j == off * m + pr[off]);
                lemma_slice_decomp(m as int, off, pr[off] as int, s, j - s * m);
            }
        }
        lemma_count_single(w.bits, s * m, (s + 1) * m, q);
    }
    assert forall|s: int| v.k <= s < ns implies #[trigger] slice_ones(w, s) == 0 by {
        lemma_mul_is_distributive_add_other_way(m as int, s, 1);
        lemma_cell_index_bound(ns, m, s as nat, (m - 1) as nat);
        assert((s + 1) * m == s * m + m);
        assert forall|j: int| s * m <= j < (s + 1) * m implies !(#[trigger] w.bits[j]) by {
            assert(w.bits[j] == (v.bits[j] || written_upto(v.p, ns, m, pr, v.k as int, j)));
            if written_upto(v.p, ns, m, pr, v.k as int, j) {
                let off = choose|off: int|
                    0 <= off < v.k && j == #[trigger] probe_index(v.p, ns, m, pr, off);
                assert(j == off * m + pr[off]);
                lemma_slice_decomp(m as int, off, pr[off] as int, s, j - s * m);
            }
        }
        lemma_count_zero(w.bits, s * m, (s + 1) * m);
    }
}

/// While the budget of a generation is not exhausted, insertions advance only
/// the counter: the head and the configuration stay.
pub proof fn lemma_head_stays(v: FilterModel, prs: Seq<Seq<nat>>)
    requires
        v.wf(),
        v.n + prs.len() <= v.g,
    ensures
        spec_insert_all(v, prs).p == v.p,
        spec_insert_all(v, prs).n == v.n + prs.len(),
        spec_insert_all(v, prs).wf(),
        spec_insert_all(v, prs).k == v.k,
        spec_insert_all(v, prs).l == v.l,
        spec_insert_all(v, prs).m == v.m,
        spec_insert_all(v, prs).g == v.g,
    decreases prs.len(),
{
    if prs.len() > 0 {
        let v1 = spec_insert(v, prs[0]);
        assert(v.n < v.g);
        assert(v1 == spec_fill(v, prs[0]));
        lemma_head_stays(v1, prs.drop_first());
    }
}

/// Unfolding one insertion off the back of a sequence of insertions.
pub proof fn lemma_insert_all_snoc(v: FilterModel, prs: Seq<Seq<nat>>)
    requires
        prs.len() >= 1,
    ensures
        spec_insert_all(v, prs) == spec_insert(spec_insert_all(v, prs.drop_last()), prs.last()),
    decreases prs.len(),
{
    if prs.len() == 1 {
        let v1 = spec_insert(v, prs[0]);
        assert(prs.drop_first().len() == 0);
        assert(prs.drop_last().len() == 0);
        assert(spec_insert_all(v, prs) == spec_insert_all(v1, prs.drop_first()));
        assert(spec_insert_all(v1, prs.drop_first()) == v1);
        assert(spec_insert_all(v, prs.drop_last()) == v);
        assert(prs.last() == prs[0]);
    } else {
        let v1 = spec_insert(v, prs[0]);
        lemma_insert_all_snoc(v1, prs.drop_first());
        assert(prs.drop_first().drop_last() =~= prs.drop_last().drop_first());
        assert(prs.drop_first().last() == prs.last());
        assert(prs.drop_last()[0] == prs[0]);
        assert(prs.drop_last().len() >= 1);
        assert(spec_insert_all(v, prs) == spec_insert_all(v1, prs.drop_first()));
        assert(spec_insert_all(v, prs.drop_last()) == spec_insert_all(
            v1,
            prs.drop_last().drop_first(),
        ));
        assert(spec_insert_all(v1, prs.drop_last().drop_first()) == spec_insert_all(
            v1,
            prs.drop_first().drop_last(),
        ));
    }
}

/// Head advancement: starting from a fresh filter, exactly `g` insertions
/// leave the head at physical slice zero with a full generation, and one
/// insertion more rotates the head to the last physical slice and restarts
/// the counter at one.
pub proof fn lemma_head_advancement(v: FilterModel, prs: Seq<Seq<nat>>)
    requires
        v.wf(),
        v.g >= 1,
        v.p == 0,
        v.n == 0,
        prs.len() == v.g + 1,
    ensures
        spec_insert_all(v, prs.drop_last()).p == 0,
        spec_insert_all(v, prs.drop_last()).n == v.g,
        spec_insert_all(v, prs).p == v.ns() - 1,
        spec_insert_all(v, prs).n == 1,
{
    let w = spec_insert_all(v, prs.drop_last());
    lemma_head_stays(v, prs.drop_last());
    lemma_insert_all_snoc(v, prs);
    let u = spec_insert(w, prs.last());
    assert(u == spec_fill(spec_rotate(w), prs.last()));
    lemma_small_mod((v.ns() - 1) as nat, v.ns());
}

/// Insertion idempotence on bits: repeating an insertion with the same probe
/// sequence within the same generation sets no new bit.
pub proof fn lemma_insert_idempotent(v: FilterModel, pr: Seq<nat>)
    requires
        v.wf(),
        valid_probes(pr, v.ns(), v.m),
        spec_insert(v, pr).n < spec_insert(v, pr).g,
    ensures
        spec_insert(spec_insert(v, pr), pr).bits == spec_insert(v, pr).bits,
{
    let b = if v.n >= v.g {
        spec_rotate(v)
    } else {
        v
    };
    let v1 = spec_insert(v, pr);
    let v2 = spec_insert(v1, pr);
    assert(v1 == spec_fill(b, pr));
    assert(v2 == spec_fill(v1, pr));
    assert forall|j: int| 0 <= j < v1.bits.len() implies v2.bits[j] == v1.bits[j] by {
        assert(v1.bits[j] == (b.bits[j] || written_upto(b.p, b.ns(), b.m, pr, b.k as int, j)));
        assert(v2.bits[j] == (v1.bits[j] || written_upto(
            v1.p,
            v1.ns(),
            v1.m,
            pr,
            v1.k as int,
            j,
        )));
    }
    assert(v2.bits =~= v1.bits);
}


/// The physical slice that is `r` rotations behind a head once at `p0`.
pub open spec fn back_of(p0: nat, r: nat, ns: nat) -> nat
    recommends
        p0 < ns,
        r < ns,
{
    if r <= p0 {
        (p0 - r) as nat
    } else {
        ((p0 + ns) - r) as nat
    }
}

/// Every cell probed by an insertion made with head `p0` and probe sequence
/// `pr0` is still set.
pub open spec fn probes_hit_by(v: FilterModel, pr0: Seq<nat>, p0: nat) -> bool {
    forall|off: int| 0 <= off < v.k ==> v.bits[#[trigger] probe_index(p0, v.ns(), v.m, pr0, off)]
}

/// Two logical indices below the slice count land on distinct physical
/// slices.
proof fn lemma_phys_of_injective(p: nat, a: nat, b: nat, ns: nat)
    requires
        ns >= 1,
        p < ns,
        a < ns,
        b < ns,
        phys_of(p, a as int, ns) == phys_of(p, b as int, ns),
    ensures
        a == b,
{
    lemma_phys_of_cases(p, a, ns);
    lemma_phys_of_cases(p, b, ns);
}

/// One more rotation moves the head one further slice back.
proof fn lemma_back_of_step(p0: nat, r: nat, ns: nat)
    requires
        p0 < ns,
        r + 1 < ns,
    ensures
        phys_of(back_of(p0, r, ns), (ns - 1) as int, ns) == back_of(p0, r + 1, ns),
{
    lemma_phys_of_cases(back_of(p0, r, ns), (ns - 1) as nat, ns);
}

/// Being `rp` rotations behind `p0` is the physical slice of logical index
/// `ns - rp` relative to `p0`.
proof fn lemma_back_as_phys(p0: nat, rp: nat, ns: nat)
    requires
        p0 < ns,
        1 <= rp <= ns,
    ensures
        back_of(p0, rp, ns) == phys_of(p0, (ns - rp) as int, ns),
{
    lemma_phys_of_cases(p0, (ns - rp) as nat, ns);
}

/// Walking `t` logical slices from a head `r` rotations behind `p0` reaches
/// the slice `t - r` logical slices from `p0`.
proof fn lemma_phys_back_shift(p0: nat, r: nat, ns: nat, t: int)
    requires
        p0 < ns,
        r < ns,
        r <= t,
        t - r < ns,
    ensures
        phys_of(back_of(p0, r, ns), t, ns) == phys_of(p0, t - r, ns),
{
    if r <= p0 {
        assert(back_of(p0, r, ns) + t == p0 + (t - r));
    } else {
        assert(back_of(p0, r, ns) + t == p0 + (t - r) + ns);
        lemma_mod_sub_multiples_vanish((p0 + (t - r) + ns) as int, ns as int);
    }
}

/// The probed cells of an insertion made with head `p0` survive any run of
/// further insertions short enough that the slices they sit in never rotate
/// out: at most `l - r` whole generations when the head is already `r`
/// rotations past `p0`.
proof fn lemma_recall_aux(w: FilterModel, p0: nat, r: nat, pr0: Seq<nat>, prs: Seq<Seq<nat>>)
    requires
        w.wf(),
        w.g >= 1,
        p0 < w.ns(),
        r <= w.l,
        valid_probes(pr0, w.ns(), w.m),
        all_valid_probes(prs, w.ns(), w.m),
        1 <= w.n,
        w.p == back_of(p0, r, w.ns()),
        w.n + prs.len() <= (w.l - r) * w.g + w.g,
        probes_hit_by(w, pr0, p0),
    ensures
        spec_insert_all(w, prs).wf(),
        spec_insert_all(w, prs).k == w.k,
        spec_insert_all(w, prs).l == w.l,
        spec_insert_all(w, prs).m == w.m,
        spec_insert_all(w, prs).g == w.g,
        probes_hit_by(spec_insert_all(w, prs), pr0, p0),
        exists|rf: nat|
            rf <= w.l && spec_insert_all(w, prs).p == #[trigger] back_of(p0, rf, w.ns()),
    decreases prs.len(),
{
    let ns = w.ns();
    let m = w.m;
    if prs.len() == 0 {
        assert(spec_insert_all(w, prs) == w);
        assert(w.p == back_of(p0, r, ns));
    } else {
        let pr1 = prs[0];
        let u1 = spec_insert(w, pr1);
        assert(valid_probes(pr1, ns, m));
        assert forall|off: int| 0 <= off < w.k implies 0 <= #[trigger] probe_index(
            p0,
            ns,
            m,
            pr0,
            off,
        ) < w.bits.len() by {
            lemma_mod_bound(p0 as int + off, ns as int);
            lemma_cell_index_bound(ns, m, phys_of(p0, off, ns), pr0[phys_of(p0, off, ns) as int]);
        }
        if w.n < w.g {
            assert(u1 == spec_fill(w, pr1));
            assert forall|off: int| 0 <= off < u1.k implies u1.bits[#[trigger] probe_index(
                p0,
                u1.ns(),
                u1.m,
                pr0,
                off,
            )] by {
                assert(w.bits[probe_index(p0, ns, m, pr0, off)]);
            }
            lemma_recall_aux(u1, p0, r, pr0, prs.drop_first());
            assert(spec_insert_all(w, prs) == spec_insert_all(u1, prs.drop_first()));
        } else {
            assert(w.n == w.g);
            if r == w.l {
                assert((w.l - r) * w.g == 0) by {
                    lemma_mul_by_zero_is_zero(w.g as int);
                }
                assert(false);
            }
            assert(r + 1 <= w.l);
            let rot = spec_rotate(w);
            let q = phys_of(w.p, (ns - 1) as int, ns);
            lemma_back_of_step(p0, r, ns);
            assert(q == back_of(p0, r + 1, ns));
            lemma_mod_bound(w.p as int + (ns - 1), ns as int);
            lemma_back_as_phys(p0, (r + 1) as nat, ns);
            assert(u1 == spec_fill(rot, pr1));
            assert forall|off: int| 0 <= off < u1.k implies u1.bits[#[trigger] probe_index(
                p0,
                u1.ns(),
                u1.m,
                pr0,
                off,
            )] by {
                let ph = phys_of(p0, off, ns);
                let j = probe_index(p0, ns, m, pr0, off);
                lemma_mod_bound(p0 as int + off, ns as int);
                assert(w.bits[j]);
                if ph != q {
                    vstd::arithmetic::mul::lemma_mul_is_distributive_add_other_way(
                        m as int,
                        q as int,
                        1,
                    );
                    if q * m <= j < (q + 1) * m {
                        lemma_slice_decomp(m as int, ph as int, pr0[ph as int] as int, q as int, j - q * m);
                        assert(false);
                    }
                    assert(rot.bits[j] == w.bits[j]);
                } else {
                    assert(phys_of(p0, off, ns) == phys_of(p0, (ns - (r + 1)) as int, ns));
                    lemma_phys_of_injective(p0, off as nat, (ns - (r + 1)) as nat, ns);
                    assert(off == ns - r - 1);
                    assert(off >= w.k);
                    assert(false);
                }
            }
            assert(u1.n + prs.drop_first().len() <= (u1.l - (r + 1)) * u1.g + u1.g) by {
                vstd::arithmetic::mul::lemma_mul_is_distributive_add_other_way(
                    w.g as int,
                    (w.l - (r + 1)) as int,
                    1,
                );
            }
            lemma_recall_aux(u1, p0, (r + 1) as nat, pr0, prs.drop_first());
            assert(spec_insert_all(w, prs) == spec_insert_all(u1, prs.drop_first()));
        }
    }
}

/// In-window recall: a value inserted into a fresh filter is still reported
/// by its probe sequence after any run of at most `window = l * g` further
/// insertions, whatever they probe. With no further insertions this is
/// immediate recall.
pub proof fn lemma_in_window_recall(v: FilterModel, pr0: Seq<nat>, prs: Seq<Seq<nat>>)
    requires
        v.wf(),
        v.g >= 1,
        v.p == 0,
        v.n == 0,
        forall|j: int| 0 <= j < v.bits.len() ==> !(#[trigger] v.bits[j]),
        valid_probes(pr0, v.ns(), v.m),
        all_valid_probes(prs, v.ns(), v.m),
        prs.len() <= v.l * v.g,
    ensures
        has_window(spec_insert_all(spec_insert(v, pr0), prs), pr0),
{
    let ns = v.ns();
    let m = v.m;
    let p0: nat = 0;
    let w = spec_insert(v, pr0);
    assert(w == spec_fill(v, pr0));
    assert forall|off: int| 0 <= off < w.k implies w.bits[#[trigger] probe_index(
        p0,
        w.ns(),
        w.m,
        pr0,
        off,
    )] by {
        lemma_mod_bound(p0 as int + off, ns as int);
        lemma_cell_index_bound(ns, m, phys_of(p0, off, ns), pr0[phys_of(p0, off, ns) as int]);
        assert(written_upto(v.p, ns, m, pr0, v.k as int, probe_index(p0, ns, m, pr0, off)));
    }
    lemma_recall_aux(w, p0, 0, pr0, prs);
    let u = spec_insert_all(w, prs);
    let rf = choose|rf: nat| rf <= w.l && u.p == #[trigger] back_of(p0, rf, w.ns());
    assert forall|t: int| rf <= t < rf + u.k implies logical_hit(u, pr0, t) by {
        lemma_phys_back_shift(p0, rf, ns, t);
        lemma_mod_bound(p0 as int + (t - rf), ns as int);
        assert(u.bits[probe_index(p0, ns, m, pr0, t - rf)]);
    }
    assert(full_window_at(u, pr0, rf as int));
    assert(has_window(u, pr0));
}


/// In every slice, the second probe sequence avoids the cell the first one
/// probes there.
pub open spec fn disjoint_probes(pr1: Seq<nat>, pr0: Seq<nat>, ns: nat) -> bool {
    forall|ph: int| 0 <= ph < ns ==> pr1[ph] != pr0[ph]
}

/// Every entry of a sequence of probe sequences avoids, in every slice, the
/// cell that `pr0` probes there.
pub open spec fn all_disjoint_probes(prs: Seq<Seq<nat>>, pr0: Seq<nat>, ns: nat) -> bool {
    forall|s: int| 0 <= s < prs.len() ==> disjoint_probes(#[trigger] prs[s], pr0, ns)
}

/// The head position after `r` rotations of a ring whose head started at
/// `p0`, however many times it wrapped.
pub open spec fn back_cycle(p0: nat, r: nat, ns: nat) -> nat
    recommends
        p0 < ns,
{
    back_of(p0, r % ns, ns)
}

/// The cell that `pr0` probes in the slice `d` rotations behind `p0`.
pub open spec fn probe_cell(p0: nat, ns: nat, m: nat, pr0: Seq<nat>, d: nat) -> int {
    let ph = back_of(p0, d, ns);
    (ph * m + pr0[ph as int]) as int
}

/// The cells probed by `pr0` in each of the slices wiped by the first `r`
/// rotations are all zero. Beyond a full turn of the ring this covers every
/// slice.
pub open spec fn probes_cleared(v: FilterModel, pr0: Seq<nat>, p0: nat, r: nat) -> bool {
    forall|d: nat|
        1 <= d <= r && d <= v.ns() ==> !v.bits[#[trigger] probe_cell(p0, v.ns(), v.m, pr0, d)]
}

/// One more rotation moves the wrapped-around head one further slice back.
proof fn lemma_back_cycle_step(p0: nat, r: nat, ns: nat)
    requires
        p0 < ns,
    ensures
        phys_of(back_cycle(p0, r, ns), (ns - 1) as int, ns) == back_cycle(p0, (r + 1) as nat, ns),
{
    lemma_mod_bound(r as int, ns as int);
    lemma_add_mod_noop(r as int, 1, ns as int);
    let rm = (r % ns) as nat;
    if ns == 1 {
        assert(r as int % 1 == 0 && (r + 1) as int % 1 == 0 && (0 + 0) % 1 == 0)
            by (nonlinear_arith);
        assert(back_cycle(p0, r, ns) == 0 && back_cycle(p0, (r + 1) as nat, ns) == 0);
        assert(phys_of(0, 0, 1) == 0) by {
            assert((0int + 0int) % 1int == 0int) by (nonlinear_arith);
        }
    } else {
        assert(1int % ns as int == 1) by {
            lemma_small_mod(1, ns);
        }
        if rm + 1 < ns {
            assert((r + 1) as int % ns as int == rm + 1) by {
                lemma_small_mod(rm + 1, ns);
            }
            lemma_back_of_step(p0, rm, ns);
        } else {
            assert(rm == ns - 1);
            assert((r + 1) as int % ns as int == 0) by {
                lemma_mod_self_0(ns as int);
            }
            lemma_phys_of_cases(back_of(p0, rm, ns), (ns - 1) as nat, ns);
        }
    }
}

/// Every physical slice is some number of rotations, between one and a full
/// turn, behind `p0`.
proof fn lemma_slice_is_behind(p0: nat, ph: nat, ns: nat)
    requires
        p0 < ns,
        ph < ns,
    ensures
        exists|d: nat| 1 <= d <= ns && #[trigger] back_of(p0, d, ns) == ph,
{
    if ph == p0 {
        assert(back_of(p0, ns, ns) == ph);
    } else if ph < p0 {
        assert(back_of(p0, (p0 - ph) as nat, ns) == ph);
    } else {
        assert(back_of(p0, ((p0 + ns) - ph) as nat, ns) == ph);
    }
}

/// After any run of insertions none of which probes, in any slice, the cell
/// that `pr0` probes there, the cells already wiped stay wiped, the wiping
/// keeps pace with the rotations, and one rotation happens per `g`
/// insertions.
proof fn lemma_forget_aux(w: FilterModel, p0: nat, r: nat, pr0: Seq<nat>, prs: Seq<Seq<nat>>)
    requires
        w.wf(),
        w.g >= 1,
        p0 < w.ns(),
        valid_probes(pr0, w.ns(), w.m),
        all_valid_probes(prs, w.ns(), w.m),
        all_disjoint_probes(prs, pr0, w.ns()),
        1 <= w.n <= w.g,
        w.p == back_cycle(p0, r, w.ns()),
        probes_cleared(w, pr0, p0, r),
    ensures
        spec_insert_all(w, prs).wf(),
        spec_insert_all(w, prs).k == w.k,
        spec_insert_all(w, prs).l == w.l,
        spec_insert_all(w, prs).m == w.m,
        spec_insert_all(w, prs).g == w.g,
        1 <= spec_insert_all(w, prs).n <= w.g,
        exists|rf: nat|
            rf >= r && rf * w.g + spec_insert_all(w, prs).n == r * w.g + w.n + prs.len()
                && #[trigger] probes_cleared(spec_insert_all(w, prs), pr0, p0, rf),
    decreases prs.len(),
{
    let ns = w.ns();
    let m = w.m;
    assert forall|d: nat| 1 <= d <= ns implies 0 <= #[trigger] probe_cell(p0, ns, m, pr0, d)
        < ns * m by {
        let ph = back_of(p0, d, ns);
        assert(ph < ns);
        lemma_cell_index_bound(ns, m, ph, pr0[ph as int]);
    }
    if prs.len() == 0 {
        assert(spec_insert_all(w, prs) == w);
        assert(probes_cleared(w, pr0, p0, r));
        assert(r * w.g + w.n == r * w.g + w.n + prs.len());
    } else {
        let pr1 = prs[0];
        let u1 = spec_insert(w, pr1);
        assert(valid_probes(pr1, ns, m));
        assert(disjoint_probes(pr1, pr0, ns));
        if w.n < w.g {
            assert(u1 == spec_fill(w, pr1));
            assert forall|d: nat| 1 <= d <= r && d <= ns implies !u1.bits[#[trigger] probe_cell(
                p0,
                ns,
                m,
                pr0,
                d,
            )] by {
                let ph = back_of(p0, d, ns);
                let j = probe_cell(p0, ns, m, pr0, d);
                assert(!w.bits[j]);
                if written_upto(w.p, ns, m, pr1, w.k as int, j) {
                    let off = choose|off: int|
                        0 <= off < w.k && j == #[trigger] probe_index(w.p, ns, m, pr1, off);
                    let ph2 = phys_of(w.p, off, ns);
                    lemma_mod_bound(w.p as int + off, ns as int);
                    lemma_slice_decomp(
                        m as int,
                        ph2 as int,
                        pr1[ph2 as int] as int,
                        ph as int,
                        j - ph as int * m as int,
                    );
                    assert(pr1[ph as int] == pr0[ph as int]);
                    assert(false);
                }
            }
            lemma_forget_aux(u1, p0, r, pr0, prs.drop_first());
            assert(spec_insert_all(w, prs) == spec_insert_all(u1, prs.drop_first()));
            let u = spec_insert_all(w, prs);
            let rf = choose|rf: nat|
                rf >= r && rf * w.g + u.n == r * w.g + u1.n + prs.drop_first().len()
                    && #[trigger] probes_cleared(u, pr0, p0, rf);
            assert(rf * w.g + u.n == r * w.g + w.n + prs.len());
        } else {
            assert(w.n == w.g);
            let rot = spec_rotate(w);
            let q = phys_of(w.p, (ns - 1) as int, ns);
            lemma_back_cycle_step(p0, r, ns);
            assert(q == back_cycle(p0, (r + 1) as nat, ns));
            lemma_mod_bound(w.p as int + (ns - 1), ns as int);
            lemma_mod_bound((r + 1) as int, ns as int);
            assert(u1 == spec_fill(rot, pr1));
            vstd::arithmetic::mul::lemma_mul_is_distributive_add_other_way(
                m as int,
                q as int,
                1,
            );
            assert forall|d: nat| 1 <= d <= r + 1 && d <= ns implies !u1.bits[
                #[trigger] probe_cell(p0, ns, m, pr0, d)] by {
                let ph = back_of(p0, d, ns);
                let j = probe_cell(p0, ns, m, pr0, d);
                if d <= r {
                    assert(!w.bits[j]);
                    if q * m <= j < (q + 1) * m {
                        assert(!rot.bits[j]);
                    } else {
                        assert(rot.bits[j] == w.bits[j]);
                    }
                } else {
                    assert(d == r + 1);
                    if d < ns {
                        lemma_small_mod(d, ns);
                        assert((r + 1) % ns == d);
                    } else {
                        lemma_mod_self_0(ns as int);
                        assert((r + 1) % ns == 0);
                        assert(back_of(p0, 0, ns) == p0 && back_of(p0, ns, ns) == p0);
                    }
                    assert(q == ph);
                    assert(q * m <= j < (q + 1) * m);
                    assert(!rot.bits[j]);
                }
                if written_upto(rot.p, ns, m, pr1, rot.k as int, j) {
                    let off = choose|off: int|
                        0 <= off < rot.k && j == #[trigger] probe_index(rot.p, ns, m, pr1, off);
                    let ph2 = phys_of(rot.p, off, ns);
                    lemma_mod_bound(rot.p as int + off, ns as int);
                    lemma_slice_decomp(
                        m as int,
                        ph2 as int,
                        pr1[ph2 as int] as int,
                        ph as int,
                        j - ph as int * m as int,
                    );
                    assert(pr1[ph as int] == pr0[ph as int]);
                    assert(false);
                }
            }
            lemma_forget_aux(u1, p0, (r + 1) as nat, pr0, prs.drop_first());
            assert(spec_insert_all(w, prs) == spec_insert_all(u1, prs.drop_first()));
            let u = spec_insert_all(w, prs);
            let rf = choose|rf: nat|
                rf >= r + 1 && rf * w.g + u.n == (r + 1) * w.g + u1.n + prs.drop_first().len()
                    && #[trigger] probes_cleared(u, pr0, p0, rf);
            assert((r + 1) * w.g == r * w.g + w.g) by {
                vstd::arithmetic::mul::lemma_mul_is_distributive_add_other_way(
                    w.g as int,
                    r as int,
                    1,
                );
            }
            assert(rf * w.g + u.n == r * w.g + w.n + prs.len());
        }
    }
}

/// Out-of-window eventual forgetting: after `window + slack` further
/// insertions, none of which probes the same cell as the value in any slice,
/// every cell the value set has rotated out, and its probe sequence is no
/// longer reported. The collision-freedom hypothesis is what the
/// construction's "deterministic for an empty starting filter" proviso
/// amounts to.
pub proof fn lemma_out_of_window_forgetting(v: FilterModel, pr0: Seq<nat>, prs: Seq<Seq<nat>>)
    requires
        v.wf(),
        v.g >= 1,
        v.p == 0,
        v.n == 0,
        forall|j: int| 0 <= j < v.bits.len() ==> !(#[trigger] v.bits[j]),
        valid_probes(pr0, v.ns(), v.m),
        all_valid_probes(prs, v.ns(), v.m),
        all_disjoint_probes(prs, pr0, v.ns()),
        prs.len() == v.l * v.g + v.k * v.g,
    ensures
        !has_window(spec_insert_all(spec_insert(v, pr0), prs), pr0),
{
    let ns = v.ns();
    let m = v.m;
    let p0: nat = 0;
    let w = spec_insert(v, pr0);
    assert(w == spec_fill(v, pr0));
    assert(w.p == 0 && w.n == 1);
    assert(w.p == back_cycle(p0, 0, ns)) by {
        lemma_small_mod(0, ns);
    }
    assert((v.l + v.k) * v.g == v.l * v.g + v.k * v.g) by {
        vstd::arithmetic::mul::lemma_mul_is_distributive_add_other_way(
            v.g as int,
            v.l as int,
            v.k as int,
        );
    }
    lemma_forget_aux(w, p0, 0, pr0, prs);
    let u = spec_insert_all(w, prs);
    let rf = choose|rf: nat|
        rf >= 0 && rf * w.g + u.n == 0 * w.g + w.n + prs.len() && #[trigger] probes_cleared(
            u,
            pr0,
            p0,
            rf,
        );
    assert(rf * v.g + u.n == 1 + ns * v.g);
    assert(rf >= ns) by {
        if rf < ns {
            lemma_mul_inequality(rf as int, (ns - 1) as int, v.g as int);
            assert(rf * v.g <= (ns - 1) * v.g);
            assert((ns - 1) * v.g == ns * v.g - v.g) by {
                vstd::arithmetic::mul::lemma_mul_is_distributive_add_other_way(
                    v.g as int,
                    (ns - 1) as int,
                    1,
                );
            }
            assert(u.n >= 1 + v.g);
            assert(false);
        }
    }
    if has_window(u, pr0) {
        let j0 = choose|j: int| 0 <= j <= u.l && #[trigger] full_window_at(u, pr0, j);
        assert(logical_hit(u, pr0, j0));
        let ph = phys_of(u.p, j0, u.ns());
        lemma_mod_bound(u.p as int + j0, ns as int);
        lemma_slice_is_behind(p0, ph, ns);
        let d = choose|d: nat| 1 <= d <= ns && #[trigger] back_of(p0, d, ns) == ph;
        assert(!u.bits[probe_cell(p0, ns, m, pr0, d)]);
        assert(false);
    }
}

} // verus!
