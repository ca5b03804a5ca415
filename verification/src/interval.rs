//! Closed bounded intervals of IEEE-754 doubles, held as bit patterns.
//!
//! `GI` is one dimension of a box: either empty, or a pair of finite double
//! patterns whose exact values (in units of 2^-1074) are ordered. Everything
//! a box operation asks of an interval — ordering of bounds, zero
//! containment, canonicity, an enclosure of the midpoint — is computed and
//! proved over those exact values.

use vstd::prelude::*;
use vstd::arithmetic::power2::*;
use vstd::arithmetic::mul::*;
use crate::bits::{
    is_finite, val, mag_units, exp_field, frac_field, sign_field, key, unkey_s, finite, sign_of,
    exp_of, frac_of, key_of, unkey, lemma_finite_key_range, lemma_val_lt_key_lt,
    lemma_key_le_val_le, lemma_val_injective, lemma_unkey_key, lemma_unkey_in_range, lemma_zero_patterns,
};
use crate::dyadic::{Term, term_wf, term_val, sum_val, sum_sign, lemma_sum2, lemma_sum3};

verus! {

/// A single-dimension closed interval: the doubles with patterns `lo` and
/// `hi`, or the empty interval.
#[derive(Clone, Copy)]
pub struct GI {
    pub lo: u64,
    pub hi: u64,
    pub empty: bool,
}

impl GI {
    /// A non-empty interval has finite bounds in order; the empty interval
    /// carries the canonical zero patterns.
    pub open spec fn wf(self) -> bool {
        if self.empty {
            self.lo == 0 && self.hi == 0
        } else {
            is_finite(self.lo) && is_finite(self.hi) && val(self.lo) <= val(self.hi)
        }
    }

    /// Exact width in units of 2^-1074.
    pub open spec fn width_units(self) -> int {
        val(self.hi) - val(self.lo)
    }

    /// Constructs the interval [inf, sup] from two bit patterns; inputs that
    /// do not describe ordered finite bounds give the empty interval.
    pub fn new_d(inf: u64, sup: u64) -> (r: GI)
        ensures
            r.wf(),
            r.empty <==> !(is_finite(inf) && is_finite(sup) && val(inf) <= val(sup)),
            !r.empty ==> r.lo == inf && r.hi == sup,
    {
        if finite(inf) && finite(sup) && dbl_cmp(inf, sup) <= 0 {
            GI { lo: inf, hi: sup, empty: false }
        } else {
            GI { lo: 0, hi: 0, empty: true }
        }
    }

    /// Constructs the degenerate interval [x, x].
    pub fn new_p(x: u64) -> (r: GI)
        ensures
            r.wf(),
            r.empty <==> !is_finite(x),
            !r.empty ==> r.lo == x && r.hi == x && r.width_units() == 0,
    {
        GI::new_d(x, x)
    }

    /// Overwrites this interval with [inf, sup], as `new_d` builds it.
    pub fn assign(&mut self, inf: u64, sup: u64)
        ensures
            final(self).wf(),
            final(self).empty <==> !(is_finite(inf) && is_finite(sup) && val(inf) <= val(sup)),
            !final(self).empty ==> final(self).lo == inf && final(self).hi == sup,
    {
        *self = GI::new_d(inf, sup);
    }

    /// The empty interval.
    pub fn new_e() -> (r: GI)
        ensures
            r.wf(),
            r.empty,
    {
        GI { lo: 0, hi: 0, empty: true }
    }

    /// Bit pattern of the lower bound.
    pub fn lower(&self) -> (r: u64)
        requires
            !self.empty,
        ensures
            r == self.lo,
    {
        self.lo
    }

    /// Bit pattern of the upper bound.
    pub fn upper(&self) -> (r: u64)
        requires
            !self.empty,
        ensures
            r == self.hi,
    {
        self.hi
    }

    /// True iff the interval is empty.
    pub fn is_empty(&self) -> (r: bool)
        ensures
            r == self.empty,
    {
        self.empty
    }

    /// True iff the interval contains zero.
    pub fn straddles_zero(&self) -> (r: bool)
        requires
            self.wf(),
        ensures
            r == (!self.empty && val(self.lo) <= 0 && 0 <= val(self.hi)),
    {
        if self.empty {
            false
        } else {
            let lo_ok = sign_of(self.lo) == 1 || mag_is_zero(self.lo);
            let hi_ok = sign_of(self.hi) == 0 || mag_is_zero(self.hi);
            lo_ok && hi_ok
        }
    }

    /// True iff no representable double lies strictly inside the interval,
    /// so that splitting can make no further progress on it.
    pub fn is_canonical(&self) -> (r: bool)
        requires
            self.wf(),
        ensures
            r == (!self.empty && forall|z: u64|
                is_finite(z) ==> !(val(self.lo) < val(z) < val(self.hi))),
    {
        if self.empty {
            return false;
        }
        let kl = key_of(self.lo);
        let kh = key_of(self.hi);
        proof {
            lemma_finite_key_range(self.lo);
            lemma_finite_key_range(self.hi);
            if val(self.lo) < val(self.hi) {
                lemma_val_lt_key_lt(self.lo, self.hi);
            }
        }
        if kh <= kl {
            // the bounds share one value, as with [+0, -0]
            proof {
                lemma_key_le_val_le(self.hi, self.lo);
                assert forall|z: u64| is_finite(z) implies !(val(self.lo) < val(z) < val(
                    self.hi,
                )) by {}
            }
            return true;
        }
        if kh - kl == 1 {
            proof {
                assert forall|z: u64| is_finite(z) implies !(val(self.lo) < val(z) < val(
                    self.hi,
                )) by {
                    if val(self.lo) < val(z) < val(self.hi) {
                        lemma_val_lt_key_lt(self.lo, z);
                        lemma_val_lt_key_lt(z, self.hi);
                    }
                }
            }
            return true;
        }
        if kh - kl == 2 {
            let m = unkey(kl + 1);
            proof {
                lemma_finite_key_range(m);
            }
            let inside = dbl_cmp(self.lo, m) < 0 && dbl_cmp(m, self.hi) < 0;
            proof {
                if !inside {
                    assert forall|z: u64| is_finite(z) implies !(val(self.lo) < val(z) < val(
                        self.hi,
                    )) by {
                        if val(self.lo) < val(z) < val(self.hi) {
                            lemma_val_lt_key_lt(self.lo, z);
                            lemma_val_lt_key_lt(z, self.hi);
                            assert(key(z) == kl + 1);
                            lemma_same_key_same_val(z, m);
                        }
                    }
                }
            }
            return !inside;
        }
        // three or more key steps always leave a double strictly inside:
        // of the four patterns at keys kl, kl+1, kl+2 and kh at most two can
        // share a value (the two zeros), so one of the middle two lies
        // strictly between the bounds
        let m1 = unkey(kl + 1);
        let m2 = unkey(kl + 2);
        proof {
            lemma_finite_key_range(m1);
            lemma_finite_key_range(m2);
            lemma_key_le_val_le(self.lo, m1);
            lemma_key_le_val_le(m1, m2);
            lemma_key_le_val_le(m2, self.hi);
            if val(m1) == val(self.lo) {
                lemma_val_injective(m1, self.lo);
                lemma_zero_patterns(m1);
                lemma_zero_patterns(self.lo);
                if val(m2) == val(m1) {
                    lemma_val_injective(m2, m1);
                    lemma_zero_patterns(m2);
                    assert(false);
                }
                if val(m2) == val(self.hi) {
                    lemma_val_injective(m2, self.hi);
                    assert(false);
                }
                assert(val(self.lo) < val(m2) < val(self.hi));
            } else if val(m1) == val(self.hi) {
                lemma_val_injective(m1, self.hi);
                lemma_zero_patterns(m1);
                lemma_zero_patterns(self.hi);
                lemma_val_injective(m2, m1);
                lemma_zero_patterns(m2);
                assert(false);
            } else {
                assert(val(self.lo) < val(m1) < val(self.hi));
            }
        }
        false
    }
}

/// True iff the magnitude of the pattern is zero, that is, iff it is one of
/// the two zero patterns.
pub fn mag_is_zero(b: u64) -> (r: bool)
    ensures
        r == (mag_units(b) == 0),
        r == (val(b) == 0),
{
    let e = exp_of(b);
    let f = frac_of(b);
    proof {
        if e != 0 {
            lemma_pow2_pos(52);
            lemma_pow2_pos((exp_field(b) - 1) as nat);
            lemma_mul_inequality(1, (frac_field(b) + pow2(52)) as int, pow2(
                (exp_field(b) - 1) as nat,
            ) as int);
        }
    }
    e == 0 && f == 0
}

/// Patterns with equal keys denote equal values.
pub proof fn lemma_same_key_same_val(a: u64, b: u64)
    requires
        is_finite(a),
        is_finite(b),
        key(a) == key(b),
    ensures
        val(a) == val(b),
{
    lemma_key_le_val_le(a, b);
    lemma_key_le_val_le(b, a);
}

/// The dyadic term denoting the same value as the finite pattern `b`.
pub(crate) fn term_of(b: u64) -> (t: Term)
    requires
        is_finite(b),
    ensures
        term_wf(t),
        term_val(t) == val(b),
        t.exp <= 2045,
{
    let s = sign_of(b);
    let e = exp_of(b);
    let f = frac_of(b);
    proof {
        lemma2_to64();
        lemma2_to64_rest();
        lemma_pow2_strictly_increases(52, 53);
    }
    if e == 0 {
        let t = Term { neg: s == 1, mag: f, exp: 0 };
        proof {
            lemma_mul_basics(f as int);
            assert(f as nat * pow2(0) == f as nat);
        }
        t
    } else {
        let t = Term { neg: s == 1, mag: f + 0x10_0000_0000_0000, exp: (e - 1) as u16 };
        proof {
            assert(pow2(53) == 0x20_0000_0000_0000);
        }
        t
    }
}

/// The term denoting the negated value of `t`.
pub(crate) fn term_neg(t: Term) -> (r: Term)
    requires
        term_wf(t),
    ensures
        term_wf(r),
        term_val(r) == -term_val(t),
{
    Term { neg: !t.neg, mag: t.mag, exp: t.exp }
}

/// The term denoting twice the value of `t`.
pub(crate) fn term_twice(t: Term) -> (r: Term)
    requires
        term_wf(t),
        t.exp <= 2045,
    ensures
        term_wf(r),
        term_val(r) == 2 * term_val(t),
{
    let r = Term { neg: t.neg, mag: t.mag, exp: t.exp + 1 };
    proof {
        lemma_pow2_adds(t.exp as nat, 1);
        lemma2_to64();
        lemma_mul_is_associative(t.mag as int, pow2(t.exp as nat) as int, 2);
        lemma_mul_is_commutative(t.mag as int * pow2(t.exp as nat) as int, 2);
    }
    r
}

/// Exact three-way comparison of the values of two finite patterns.
pub fn dbl_cmp(a: u64, b: u64) -> (r: i32)
    requires
        is_finite(a),
        is_finite(b),
    ensures
        (r == 1 <==> val(a) > val(b)),
        (r == 0 <==> val(a) == val(b)),
        (r == -1 <==> val(a) < val(b)),
{
    let mut ts: Vec<Term> = Vec::new();
    ts.push(term_of(a));
    ts.push(term_neg(term_of(b)));
    proof {
        lemma_sum2(ts@);
    }
    sum_sign(&ts)
}

/// Exact sign of 2*val(z) - (val(lo) + val(hi)): where the value of `z`
/// stands relative to the exact midpoint of [lo, hi].
fn mid_cmp(z: u64, lo: u64, hi: u64) -> (r: i32)
    requires
        is_finite(z),
        is_finite(lo),
        is_finite(hi),
    ensures
        (r == 1 <==> 2 * val(z) > val(lo) + val(hi)),
        (r == 0 <==> 2 * val(z) == val(lo) + val(hi)),
        (r == -1 <==> 2 * val(z) < val(lo) + val(hi)),
{
    let mut ts: Vec<Term> = Vec::new();
    ts.push(term_twice(term_of(z)));
    ts.push(term_neg(term_of(lo)));
    ts.push(term_neg(term_of(hi)));
    proof {
        lemma_sum3(ts@);
    }
    sum_sign(&ts)
}

/// The largest double at or below the exact midpoint of `x`.
pub open spec fn is_round_down_mid(x: GI, z: u64) -> bool {
    &&& is_finite(z)
    &&& 2 * val(z) <= val(x.lo) + val(x.hi)
    &&& forall|w: u64| is_finite(w) && 2 * val(w) <= val(x.lo) + val(x.hi) ==> val(w) <= val(z)
}

/// The smallest double at or above the exact midpoint of `x`.
pub open spec fn is_round_up_mid(x: GI, z: u64) -> bool {
    &&& is_finite(z)
    &&& 2 * val(z) >= val(x.lo) + val(x.hi)
    &&& forall|w: u64| is_finite(w) && 2 * val(w) >= val(x.lo) + val(x.hi) ==> val(w) >= val(z)
}

/// `m` encloses the exact midpoint of `x` as tightly as doubles allow.
pub open spec fn is_midpoint_enclosure(x: GI, m: GI) -> bool {
    &&& m.wf()
    &&& !m.empty
    &&& val(x.lo) <= val(m.lo)
    &&& val(m.hi) <= val(x.hi)
    &&& is_round_down_mid(x, m.lo)
    &&& is_round_up_mid(x, m.hi)
}

impl GI {
    /// An enclosure of the exact midpoint of the interval: the lower bound of
    /// the result is the largest double at or below the midpoint, the upper
    /// bound the smallest double at or above it.
    pub fn midpoint(&self) -> (m: GI)
        requires
            self.wf(),
            !self.empty,
        ensures
            is_midpoint_enclosure(*self, m),
    {
        let lo = self.lo;
        let hi = self.hi;
        let ghost sum = val(lo) + val(hi);
        proof {
            lemma_finite_key_range(lo);
            lemma_finite_key_range(hi);
            if val(lo) < val(hi) {
                lemma_val_lt_key_lt(lo, hi);
            }
        }
        // search the largest key in [key(lo), key(hi)] whose pattern still
        // lies at or below the midpoint
        let mut lk = key_of(lo);
        let mut hk = key_of(hi);
        if hk < lk {
            // the bounds share one value (as with [+0, -0]); the interval is
            // degenerate and is its own midpoint enclosure
            proof {
                lemma_key_le_val_le(hi, lo);
                assert forall|z: u64|
                    is_finite(z) && 2 * val(z) <= sum implies val(z) <= val(lo) by {}
                assert forall|z: u64|
                    is_finite(z) && 2 * val(z) >= sum implies val(z) >= val(hi) by {}
            }
            return GI { lo, hi, empty: false };
        }
        proof {
            lemma_unkey_key(lo);
        }
        while lk < hk
            invariant
                is_finite(lo),
                is_finite(hi),
                sum == val(lo) + val(hi),
                key(lo) <= lk as nat <= hk as nat <= key(hi),
                0x0010_0000_0000_0000 <= key(lo),
                key(hi) <= 0xFFEF_FFFF_FFFF_FFFF,
                2 * val(unkey_s(lk)) <= sum,
                forall|k: u64|
                    hk < k && k as nat <= key(hi) ==> 2 * val(#[trigger] unkey_s(k)) > sum,
            decreases hk - lk,
        {
            let mk = lk + (hk - lk + 1) / 2;
            let mb = unkey(mk);
            proof {
                lemma_finite_key_range(mb);
            }
            if mid_cmp(mb, lo, hi) <= 0 {
                lk = mk;
            } else {
                proof {
                    assert forall|k: u64|
                        mk - 1 < k && k as nat <= key(hi) implies 2 * val(
                        #[trigger] unkey_s(k),
                    ) > sum by {
                        if k <= hk {
                            lemma_unkey_in_range(k, key(lo), key(hi));
                            lemma_unkey_in_range(mk, key(lo), key(hi));
                            lemma_key_le_val_le(unkey_s(mk), unkey_s(k));
                        }
                    }
                }
                hk = mk - 1;
            }
        }
        let rd = unkey(lk);
        proof {
            lemma_unkey_in_range(lk, key(lo), key(hi));
            lemma_key_le_val_le(lo, rd);
            lemma_key_le_val_le(rd, hi);
        }
        let exact = mid_cmp(rd, lo, hi) == 0;
        let ru = if exact {
            rd
        } else {
            proof {
                if lk as nat == key(hi) {
                    lemma_same_key_same_val(rd, hi);
                }
            }
            let u = unkey(lk + 1);
            proof {
                lemma_unkey_in_range((lk + 1) as u64, key(lo), key(hi));
                lemma_key_le_val_le(rd, u);
                lemma_key_le_val_le(u, hi);
            }
            u
        };
        proof {
            // maximality of rd among doubles at or below the midpoint
            assert forall|z: u64|
                is_finite(z) && 2 * val(z) <= sum implies val(z) <= val(rd) by {
                if val(z) > val(rd) {
                    lemma_val_lt_key_lt(rd, z);
                    if key(z) <= key(hi) {
                        lemma_unkey_key(z);
                        assert(2 * val(unkey_s(key(z) as u64)) > sum);
                    } else {
                        lemma_key_le_val_le(hi, z);
                        assert(val(z) == val(hi));
                        assert(2 * val(hi) <= sum);
                        assert(val(hi) <= val(lo));
                        assert(val(rd) == val(hi));
                    }
                }
            }
            // minimality of ru among doubles at or above the midpoint
            assert forall|z: u64|
                is_finite(z) && 2 * val(z) >= sum implies val(z) >= val(ru) by {
                if val(z) < val(ru) {
                    if exact {
                    } else {
                        lemma_val_lt_key_lt(z, ru);
                        assert(key(z) <= lk as nat);
                        lemma_unkey_key(z);
                        lemma_key_le_val_le(z, rd);
                    }
                }
            }
        }
        GI { lo: rd, hi: ru, empty: false }
    }
}

} // verus!
