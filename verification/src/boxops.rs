//! Box-level operations: widest-dimension selection, scale-aware
//! convergence, midpoint boxes, and binade-aligned splitting.
//!
//! A box is a vector of non-empty intervals, one per variable. Splitting
//! bisects the widest dimension, preferring a binade boundary taken from the
//! rounded-down midpoint so that subdivision lines up with floating-point
//! scale changes; when no double lies strictly inside that dimension the box
//! is returned unchanged with `progressed == false`.

use vstd::prelude::*;
use vstd::arithmetic::power2::*;
use crate::bits::{
    is_finite, val, exp_field, frac_field, sign_field, finite, exp_of, pack_sign_exp, next_binade,
    next_binade_bits,
};
use crate::dyadic::{Term, sum_sign, lemma_sum3, lemma_sum4};
use crate::interval::{
    GI, term_of, term_neg, dbl_cmp, is_midpoint_enclosure, is_round_down_mid, is_round_up_mid,
};

verus! {

/// Every dimension of the box is a well-formed, non-empty interval.
pub open spec fn box_wf(s: Seq<GI>) -> bool {
    forall|i: int| 0 <= i < s.len() ==> (#[trigger] s[i]).wf() && !s[i].empty
}

/// `k` is the first index of maximal width: no dimension is wider, and every
/// earlier dimension is strictly narrower.
pub open spec fn is_first_widest(s: Seq<GI>, k: int) -> bool {
    &&& 0 <= k < s.len()
    &&& forall|j: int| 0 <= j < s.len() ==> (#[trigger] s[j]).width_units() <= s[k].width_units()
    &&& forall|j: int| 0 <= j < k ==> (#[trigger] s[j]).width_units() < s[k].width_units()
}

/// Some double lies strictly inside the interval, so a split can progress.
pub open spec fn splittable(x: GI) -> bool {
    exists|z: u64| is_finite(z) && val(x.lo) < #[trigger] val(z) < val(x.hi)
}

/// At most one index is first-widest.
pub proof fn lemma_first_widest_unique(s: Seq<GI>, k1: int, k2: int)
    requires
        is_first_widest(s, k1),
        is_first_widest(s, k2),
    ensures
        k1 == k2,
{
    if k1 < k2 {
        assert(s[k1].width_units() < s[k2].width_units());
        assert(s[k2].width_units() <= s[k1].width_units());
    }
    if k2 < k1 {
        assert(s[k2].width_units() < s[k1].width_units());
        assert(s[k1].width_units() <= s[k2].width_units());
    }
}

/// Exact three-way comparison of two interval widths.
pub fn width_cmp(a: &GI, b: &GI) -> (r: i32)
    requires
        a.wf(),
        !a.empty,
        b.wf(),
        !b.empty,
    ensures
        (r == 1 <==> a.width_units() > b.width_units()),
        (r == 0 <==> a.width_units() == b.width_units()),
        (r == -1 <==> a.width_units() < b.width_units()),
{
    let mut ts: Vec<Term> = Vec::new();
    ts.push(term_of(a.hi));
    ts.push(term_neg(term_of(a.lo)));
    ts.push(term_neg(term_of(b.hi)));
    ts.push(term_of(b.lo));
    proof {
        lemma_sum4(ts@);
    }
    sum_sign(&ts)
}

/// Index of the widest dimension of the box; the first such index wins ties.
/// An empty box gives index 0.
pub fn widest_index(_x: &Vec<GI>) -> (r: usize)
    requires
        box_wf(_x@),
    ensures
        _x@.len() > 0 ==> is_first_widest(_x@, r as int),
        _x@.len() == 0 ==> r == 0,
{
    let mut w_index: usize = 0;
    if _x.len() == 0 {
        return 0;
    }
    let mut i: usize = 1;
    while i < _x.len()
        invariant
            box_wf(_x@),
            1 <= i <= _x@.len(),
            w_index < i,
            forall|j: int|
                0 <= j < i ==> (#[trigger] _x@[j]).width_units() <= _x@[w_index as int].width_units(),
            forall|j: int|
                0 <= j < w_index ==> (#[trigger] _x@[j]).width_units() < _x@[w_index as int].width_units(),
        decreases _x@.len() - i,
    {
        if width_cmp(&_x[i], &_x[w_index]) == 1 {
            w_index = i;
        }
        i = i + 1;
    }
    w_index
}

/// The exponent field of the convergence scale for a widest dimension whose
/// larger bound exponent field is `emax`: the scale is one unit in the last
/// place of a double at that magnitude, and for very small magnitudes the
/// field construction wraps around to a huge or infinite scale.
pub open spec fn scale_field(emax: nat) -> nat {
    if emax >= 52 {
        (emax - 52) as nat
    } else {
        emax + 1996
    }
}

/// Value of the scale pattern with exponent field `fld` (sign 0, fraction 0),
/// in units of 2^-1074.
pub open spec fn scale_units(fld: nat) -> int {
    if fld == 0 {
        0
    } else {
        (pow2(52) * pow2((fld - 1) as nat)) as int
    }
}

/// The scale-aware convergence test: the interval is tight enough when its
/// width is at most the tolerance, or at most the scale that one unit in the
/// last place of its bounds gives (an infinite scale always passes).
pub open spec fn tight_spec(widest: GI, tol: u64) -> bool {
    let emax = if exp_field(widest.lo) >= exp_field(widest.hi) {
        exp_field(widest.lo)
    } else {
        exp_field(widest.hi)
    };
    let fld = scale_field(emax);
    ||| widest.width_units() <= val(tol)
    ||| fld == 2047
    ||| widest.width_units() <= scale_units(fld)
}

/// Decides whether the widest interval of a box is tight enough, comparing
/// its width against the tolerance and against the binary scale of its own
/// bounds, both exactly.
pub fn eps_tol(widest: GI, tol: u64) -> (r: bool)
    requires
        widest.wf(),
        !widest.empty,
        is_finite(tol),
    ensures
        r == tight_spec(widest, tol),
{
    let el = exp_of(widest.lo);
    let eh = exp_of(widest.hi);
    let emax = if el >= eh {
        el
    } else {
        eh
    };
    // width <= tol, exactly
    let mut ts: Vec<Term> = Vec::new();
    ts.push(term_of(widest.hi));
    ts.push(term_neg(term_of(widest.lo)));
    ts.push(term_neg(term_of(tol)));
    proof {
        lemma_sum3(ts@);
    }
    if sum_sign(&ts) <= 0 {
        return true;
    }
    // the scale pattern: exponent field shifted down by the mantissa width,
    // wrapping below 52 exactly as the bit construction does
    let fld = if emax >= 52 {
        emax - 52
    } else {
        emax + 1996
    };
    if fld == 2047 {
        return true;
    }
    let d_bits = pack_sign_exp(0, fld);
    proof {
        assert(val(d_bits) == scale_units(fld as nat));
    }
    let mut ts2: Vec<Term> = Vec::new();
    ts2.push(term_of(widest.hi));
    ts2.push(term_neg(term_of(widest.lo)));
    ts2.push(term_neg(term_of(d_bits)));
    proof {
        lemma_sum3(ts2@);
    }
    sum_sign(&ts2) <= 0
}

/// Applies the convergence test to the widest dimension of the box.
pub fn width_box(_x: &Vec<GI>, tol: u64) -> (r: bool)
    requires
        box_wf(_x@),
        _x@.len() > 0,
        is_finite(tol),
    ensures
        exists|k: int| is_first_widest(_x@, k),
        forall|k: int| is_first_widest(_x@, k) ==> r == tight_spec(_x@[k], tol),
{
    let k = widest_index(_x);
    let r = eps_tol(_x[k], tol);
    proof {
        assert forall|k2: int| is_first_widest(_x@, k2) implies r == tight_spec(_x@[k2], tol) by {
            lemma_first_widest_unique(_x@, k as int, k2);
        }
    }
    r
}

/// Copies a box.
fn clone_box(x: &Vec<GI>) -> (r: Vec<GI>)
    ensures
        r@ == x@,
{
    let mut r: Vec<GI> = Vec::new();
    let mut i: usize = 0;
    while i < x.len()
        invariant
            i <= x@.len(),
            r@ =~= x@.subrange(0, i as int),
        decreases x@.len() - i,
    {
        r.push(x[i]);
        i = i + 1;
    }
    proof {
        assert(r@ =~= x@);
    }
    r
}

/// The box of per-dimension midpoint enclosures.
pub fn midpoint_box(_x: &Vec<GI>) -> (r: Vec<GI>)
    requires
        box_wf(_x@),
    ensures
        r@.len() == _x@.len(),
        forall|i: int| 0 <= i < _x@.len() ==> is_midpoint_enclosure(_x@[i], #[trigger] r@[i]),
{
    let mut r: Vec<GI> = Vec::new();
    let mut i: usize = 0;
    while i < _x.len()
        invariant
            box_wf(_x@),
            i <= _x@.len(),
            r@.len() == i,
            forall|j: int| 0 <= j < i ==> is_midpoint_enclosure(_x@[j], #[trigger] r@[j]),
        decreases _x@.len() - i,
    {
        r.push(_x[i].midpoint());
        i = i + 1;
    }
    r
}

/// What a progressing split guarantees: two children that agree with the
/// parent outside the split dimension `k`, and cover the parent's dimension
/// `k` exactly, meeting at one strictly interior bound.
pub open spec fn split_children(parent: Seq<GI>, a: Seq<GI>, b: Seq<GI>, k: int) -> bool {
    &&& 0 <= k < parent.len()
    &&& a.len() == parent.len()
    &&& b.len() == parent.len()
    &&& forall|j: int| 0 <= j < parent.len() && j != k ==> a[j] == parent[j] && b[j] == parent[j]
    &&& a[k].wf() && !a[k].empty && b[k].wf() && !b[k].empty
    &&& a[k].lo == parent[k].lo
    &&& b[k].hi == parent[k].hi
    &&& a[k].hi == b[k].lo
    &&& val(parent[k].lo) < val(a[k].hi) < val(parent[k].hi)
}

/// Splits the widest dimension of the box. A binade boundary derived from
/// the rounded-down midpoint is used when it falls strictly inside that
/// dimension; otherwise the dimension is halved at its midpoint enclosure.
/// When no double lies strictly inside the dimension, the box is returned
/// unchanged with `progressed == false`.
pub fn split_box(_x: &Vec<GI>) -> (r: (Vec<Vec<GI>>, bool))
    requires
        box_wf(_x@),
        _x@.len() > 0,
    ensures
        exists|k: int| is_first_widest(_x@, k),
        forall|k: int|
            is_first_widest(_x@, k) ==> {
                &&& (r.1 <==> splittable(_x@[k]))
                &&& (!r.1 ==> r.0@.len() == 1 && r.0@[0]@ == _x@)
                &&& (r.1 ==> r.0@.len() == 2 && split_children(_x@, r.0@[0]@, r.0@[1]@, k)
                    && box_wf(r.0@[0]@) && box_wf(r.0@[1]@) && (exists|rdb: u64|
                    {
                        &&& #[trigger] is_round_down_mid(_x@[k], rdb)
                        &&& if is_finite(next_binade_bits(rdb)) && val(next_binade_bits(rdb)) < val(
                            _x@[k].hi,
                        ) {
                            r.0@[0]@[k].hi == next_binade_bits(rdb)
                        } else if val(_x@[k].lo) < val(rdb) {
                            r.0@[0]@[k].hi == rdb
                        } else {
                            is_round_up_mid(_x@[k], r.0@[0]@[k].hi)
                        }
                    }))
            },
{
    let w_ind = widest_index(_x);
    let xi = _x[w_ind];
    let mid = xi.midpoint();
    let rd = mid.lo;
    let nb = next_binade(rd);
    let a0 = clone_box(_x);
    let mut a = clone_box(_x);
    let mut b = clone_box(_x);
    let mut split_at: u64 = 0;
    let mut have: bool = false;
    if finite(nb) && dbl_cmp(nb, xi.hi) == -1 {
        split_at = nb;
        have = true;
    } else if dbl_cmp(xi.lo, rd) == -1 && dbl_cmp(rd, xi.hi) == -1 {
        split_at = rd;
        have = true;
    } else {
        let ru = mid.hi;
        if dbl_cmp(xi.lo, ru) == -1 && dbl_cmp(ru, xi.hi) == -1 {
            split_at = ru;
            have = true;
        }
    }
    if have {
        a.set(w_ind, GI { lo: xi.lo, hi: split_at, empty: false });
        b.set(w_ind, GI { lo: split_at, hi: xi.hi, empty: false });
        let mut out: Vec<Vec<GI>> = Vec::new();
        out.push(a);
        out.push(b);
        proof {
            assert forall|k: int| is_first_widest(_x@, k) implies k == w_ind as int by {
                lemma_first_widest_unique(_x@, k, w_ind as int);
            }
            assert(is_round_down_mid(_x@[w_ind as int], rd));
        }
        (out, true)
    } else {
        // neither the binade boundary nor either midpoint rounding lies
        // strictly inside: no double does, so the dimension cannot be split
        proof {
            assert forall|k: int| is_first_widest(_x@, k) implies k == w_ind as int by {
                lemma_first_widest_unique(_x@, k, w_ind as int);
            }
            if splittable(xi) {
                let z = choose|z: u64| is_finite(z) && val(xi.lo) < #[trigger] val(z) < val(xi.hi);
                if 2 * val(z) <= val(xi.lo) + val(xi.hi) {
                    // then the rounded-down midpoint is strictly interior
                    assert(val(z) <= val(rd));
                    assert(2 * val(rd) < 2 * val(xi.hi));
                    assert(false);
                } else {
                    // then the rounded-up midpoint is strictly interior
                    assert(val(z) >= val(mid.hi));
                    assert(2 * val(mid.hi) > 2 * val(xi.lo));
                    assert(false);
                }
            }
        }
        let mut out: Vec<Vec<GI>> = Vec::new();
        out.push(a);
        (out, false)
    }
}

/// True iff the interval is empty.
pub fn is_empty(x: &GI) -> (r: bool)
    ensures
        r == x.empty,
{
    x.is_empty()
}

/// True iff the interval contains zero.
pub fn straddles_zero(x: &GI) -> (r: bool)
    requires
        x.wf(),
    ensures
        r == (!x.empty && val(x.lo) <= 0 && 0 <= val(x.hi)),
{
    x.straddles_zero()
}

/// True iff no double lies strictly inside the interval.
pub fn is_canonical(x: &GI) -> (r: bool)
    requires
        x.wf(),
    ensures
        r == (!x.empty && !splittable(*x)),
{
    x.is_canonical()
}

/// A placeholder objective function: the degenerate interval at zero,
/// whatever the box.
pub fn func(_x: &Vec<GI>) -> (r: GI)
    ensures
        r.wf(),
        !r.empty,
        val(r.lo) == 0,
        val(r.hi) == 0,
{
    let r = GI::new_d(0, 0);
    proof {
        assert(exp_field(0u64) == 0 && frac_field(0u64) == 0 && sign_field(0u64) == 0) by {
            crate::bits::lemma_field_ops(0u64);
            assert(0u64 >> 63u64 == 0 && (0u64 >> 52u64) & 0x7FF == 0 && 0u64 & 0xF_FFFF_FFFF_FFFF
                == 0) by (bit_vector);
        }
    }
    r
}

/// Total width of a box, in units of 2^-1074.
pub open spec fn box_measure(s: Seq<GI>) -> int
    decreases s.len(),
{
    if s.len() == 0 {
        0
    } else {
        s[0].width_units() + box_measure(s.drop_first())
    }
}

/// Every dimension of a well-formed box contributes a non-negative width, so
/// the total width is a non-negative integer.
pub proof fn lemma_box_measure_nonneg(s: Seq<GI>)
    requires
        box_wf(s),
    ensures
        box_measure(s) >= 0,
    decreases s.len(),
{
    if s.len() > 0 {
        assert(s[0].wf() && !s[0].empty);
        assert(box_wf(s.drop_first()));
        lemma_box_measure_nonneg(s.drop_first());
    }
}

/// Changing one dimension changes the total width by exactly the change in
/// that dimension.
pub proof fn lemma_box_measure_update(p: Seq<GI>, c: Seq<GI>, k: int)
    requires
        p.len() == c.len(),
        0 <= k < p.len(),
        forall|j: int| 0 <= j < p.len() && j != k ==> c[j] == p[j],
    ensures
        box_measure(c) - box_measure(p) == c[k].width_units() - p[k].width_units(),
    decreases p.len(),
{
    if k == 0 {
        assert(c.drop_first() =~= p.drop_first());
    } else {
        assert(c[0] == p[0]);
        assert(forall|j: int|
            0 <= j < p.drop_first().len() && j != k - 1 ==> p.drop_first()[j] == c.drop_first()[j]);
        lemma_box_measure_update(p.drop_first(), c.drop_first(), k - 1);
    }
}

/// Progress of splitting terminates: each child of a progressing split has a
/// strictly smaller total width than its parent, and the total width of a
/// well-formed box is a non-negative integer, so only finitely many
/// progressing splits of the widest dimension can follow one another.
pub proof fn lemma_split_termination(parent: Seq<GI>, a: Seq<GI>, b: Seq<GI>, k: int)
    requires
        box_wf(parent),
        split_children(parent, a, b, k),
    ensures
        box_measure(a) < box_measure(parent),
        box_measure(b) < box_measure(parent),
        box_measure(a) >= 0,
        box_measure(b) >= 0,
{
    lemma_box_measure_update(parent, a, k);
    lemma_box_measure_update(parent, b, k);
    assert(box_wf(a)) by {
        assert(forall|j: int|
            0 <= j < a.len() && j != k ==> a[j] == parent[j] && (#[trigger] a[j]).wf()
                && !a[j].empty);
    }
    assert(box_wf(b)) by {
        assert(forall|j: int|
            0 <= j < b.len() && j != k ==> b[j] == parent[j] && (#[trigger] b[j]).wf()
                && !b[j].empty);
    }
    lemma_box_measure_nonneg(a);
    lemma_box_measure_nonneg(b);
}

/// The width of a non-empty interval is never negative, and a midpoint
/// enclosure is itself a properly ordered non-empty interval.
pub proof fn lemma_width_nonneg(x: GI, m: GI)
    requires
        x.wf(),
        !x.empty,
        is_midpoint_enclosure(x, m),
    ensures
        x.width_units() >= 0,
        val(m.lo) <= val(m.hi),
{
}

} // verus!
