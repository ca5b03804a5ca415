//! Exact sign computation for small sums of signed dyadic terms.
//!
//! Every comparison this crate makes between interval bounds, widths and
//! scale thresholds reduces to asking for the sign of a sum of at most four
//! terms of the form (-1)^neg * mag * 2^exp with mag below 2^53. `sum_sign`
//! answers that question exactly: it folds the terms from the largest
//! exponent down, and stops early only when the accumulated value provably
//! dominates everything that is left.

use vstd::prelude::*;
use vstd::arithmetic::power2::*;
use vstd::arithmetic::mul::*;

verus! {

/// One signed dyadic term: the value (-1)^neg * mag * 2^exp,
/// in units of 2^-1074.
#[derive(Clone, Copy)]
pub struct Term {
    pub neg: bool,
    pub mag: u64,
    pub exp: u16,
}

/// A term carries at most a 53-bit magnitude, as every finite double does.
pub open spec fn term_wf(t: Term) -> bool {
    t.mag < pow2(53)
}

/// The integer a term denotes.
pub open spec fn term_val(t: Term) -> int {
    if t.neg {
        -((t.mag as nat * pow2(t.exp as nat)) as int)
    } else {
        (t.mag as nat * pow2(t.exp as nat)) as int
    }
}

/// The integer a sequence of terms denotes.
pub open spec fn sum_val(s: Seq<Term>) -> int
    decreases s.len(),
{
    if s.len() == 0 {
        0
    } else {
        term_val(s[0]) + sum_val(s.drop_first())
    }
}

/// The signed value held by the accumulator of `sum_sign`.
pub open spec fn acc_val(neg: bool, mag: u128, exp: u16) -> int {
    if neg {
        -((mag as nat * pow2(exp as nat)) as int)
    } else {
        (mag as nat * pow2(exp as nat)) as int
    }
}

/// Removing one term takes its value out of the sum.
proof fn lemma_sum_remove(s: Seq<Term>, i: int)
    requires
        0 <= i < s.len(),
    ensures
        sum_val(s.remove(i)) == sum_val(s) - term_val(s[i]),
    decreases s.len(),
{
    if i == 0 {
        assert(s.remove(0) =~= s.drop_first());
    } else {
        lemma_sum_remove(s.drop_first(), i - 1);
        assert(s.remove(i).drop_first() =~= s.drop_first().remove(i - 1));
        assert(s.remove(i)[0] == s[0]);
    }
}

/// A sum of well-formed terms whose exponents are at most `e` is bounded by
/// its length times the largest term magnitude possible at scale `e`.
proof fn lemma_sum_bound(s: Seq<Term>, e: nat)
    requires
        forall|j: int| 0 <= j < s.len() ==> term_wf(#[trigger] s[j]) && s[j].exp as nat <= e,
    ensures
        -(s.len() as int * (pow2((53 + e) as nat) - 1)) <= sum_val(s) <= s.len() as int * (pow2(
            (53 + e) as nat,
        ) - 1),
    decreases s.len(),
{
    lemma_pow2_pos((53 + e) as nat);
    if s.len() == 0 {
    } else {
        let t = s[0];
        assert(term_wf(t) && t.exp as nat <= e);
        lemma_sum_bound(s.drop_first(), e);
        // |term_val(t)| = mag * 2^exp <= (2^53 - 1) * 2^e = 2^(53+e) - 2^e
        assert(t.mag as nat * pow2(t.exp as nat) <= pow2((53 + e) as nat) - pow2(e)) by {
            lemma_pow2_pos(t.exp as nat);
            lemma_pow2_pos(e);
            if (t.exp as nat) < e {
                lemma_pow2_strictly_increases(t.exp as nat, e);
            }
            lemma_mul_inequality(t.mag as int, pow2(53) as int - 1, pow2(t.exp as nat) as int);
            assert((pow2(53) - 1) * pow2(t.exp as nat) <= (pow2(53) - 1) * pow2(e)) by {
                lemma_mul_inequality(pow2(t.exp as nat) as int, pow2(e) as int, pow2(53) as int - 1);
                lemma_mul_is_commutative(pow2(t.exp as nat) as int, pow2(53) as int - 1);
                lemma_mul_is_commutative(pow2(e) as int, pow2(53) as int - 1);
            }
            assert((pow2(53) - 1) * pow2(e) == pow2(53) * pow2(e) - pow2(e)) by {
                lemma_mul_is_distributive_sub_other_way(pow2(e) as int, pow2(53) as int, 1);
            }
            lemma_pow2_adds(53, e);
        }
        lemma_pow2_pos(e);
        assert(sum_val(s) == term_val(t) + sum_val(s.drop_first()));
        let b = pow2((53 + e) as nat) as int - 1;
        assert(s.len() as int * b == b + (s.len() as int - 1) * b) by {
            lemma_mul_is_distributive_add_other_way(b, 1, s.len() as int - 1);
            lemma_mul_basics(b);
        }
        assert(t.mag as nat * pow2(t.exp as nat) <= b);
    }
}

/// When the accumulated value reaches 2^(55+e) in magnitude, no three or
/// fewer remaining terms at scale `e` or below can flip the sign of the sum.
proof fn lemma_dominates(neg: bool, mag: u128, exp: u16, rest: Seq<Term>, e: nat)
    requires
        forall|j: int| 0 <= j < rest.len() ==> term_wf(#[trigger] rest[j]) && rest[j].exp as nat
            <= e,
        rest.len() <= 3,
        mag as nat * pow2(exp as nat) >= pow2((55 + e) as nat),
    ensures
        neg ==> acc_val(neg, mag, exp) + sum_val(rest) < 0,
        !neg ==> acc_val(neg, mag, exp) + sum_val(rest) > 0,
{
    lemma_sum_bound(rest, e);
    lemma_pow2_pos((53 + e) as nat);
    assert(3 * (pow2((53 + e) as nat) - 1) < pow2((55 + e) as nat)) by {
        lemma_pow2_adds((53 + e) as nat, 2);
        lemma2_to64();
        lemma_mul_is_commutative(pow2((53 + e) as nat) as int, 4);
    }
}

/// 2^e as a u128.
fn pow2_u128(e: u16) -> (r: u128)
    requires
        e <= 120,
    ensures
        r as nat == pow2(e as nat),
        r >= 1,
{
    proof {
        lemma_pow2_pos(e as nat);
        lemma2_to64();
    }
    let mut r: u128 = 1;
    let mut i: u16 = 0;
    while i < e
        invariant
            i <= e,
            e <= 120,
            r as nat == pow2(i as nat),
        decreases e - i,
    {
        proof {
            // pow2(i) < pow2(121) <= (u128::MAX + 1) / 2, so doubling is safe
            lemma_pow2_strictly_increases(i as nat, 121);
            assert(pow2(121) * 2 == pow2(122) && pow2(122) <= pow2(128)) by {
                lemma_pow2_adds(121, 1);
                lemma2_to64();
                if 122 < 128 {
                    lemma_pow2_strictly_increases(122, 128);
                }
            }
            assert(pow2(128) == 0x1_0000_0000_0000_0000_0000_0000_0000_0000) by {
                lemma_pow2_adds(64, 64);
                lemma2_to64_rest();
            }
            lemma_pow2_adds(i as nat, 1);
            lemma2_to64();
        }
        r = r * 2;
        i = i + 1;
    }
    r
}

/// Unfolds the sum of a one-term sequence.
pub proof fn lemma_sum1(s: Seq<Term>)
    requires
        s.len() == 1,
    ensures
        sum_val(s) == term_val(s[0]),
{
    assert(s.drop_first().len() == 0);
    assert(sum_val(s.drop_first()) == 0);
}

/// Unfolds the sum of a two-term sequence.
pub proof fn lemma_sum2(s: Seq<Term>)
    requires
        s.len() == 2,
    ensures
        sum_val(s) == term_val(s[0]) + term_val(s[1]),
{
    assert(s.drop_first()[0] == s[1]);
    lemma_sum1(s.drop_first());
}

/// Unfolds the sum of a three-term sequence.
pub proof fn lemma_sum3(s: Seq<Term>)
    requires
        s.len() == 3,
    ensures
        sum_val(s) == term_val(s[0]) + term_val(s[1]) + term_val(s[2]),
{
    assert(s.drop_first()[0] == s[1] && s.drop_first()[1] == s[2]);
    lemma_sum2(s.drop_first());
}

/// Unfolds the sum of a four-term sequence.
pub proof fn lemma_sum4(s: Seq<Term>)
    requires
        s.len() == 4,
    ensures
        sum_val(s) == term_val(s[0]) + term_val(s[1]) + term_val(s[2]) + term_val(s[3]),
{
    assert(s.drop_first()[0] == s[1] && s.drop_first()[1] == s[2] && s.drop_first()[2] == s[3]);
    lemma_sum3(s.drop_first());
}

/// Exact sign of the sum of at most four dyadic terms: 1, 0 or -1 according
/// to whether the sum is positive, zero or negative.
pub fn sum_sign(terms: &Vec<Term>) -> (r: i32)
    requires
        terms.len() <= 4,
        forall|j: int| 0 <= j < terms@.len() ==> term_wf(#[trigger] terms@[j]),
    ensures
        (r == 1 <==> sum_val(terms@) > 0),
        (r == 0 <==> sum_val(terms@) == 0),
        (r == -1 <==> sum_val(terms@) < 0),
{
    let mut v: Vec<Term> = Vec::new();
    let mut i: usize = 0;
    while i < terms.len()
        invariant
            i <= terms.len(),
            v@ =~= terms@.subrange(0, i as int),
        decreases terms.len() - i,
    {
        v.push(terms[i]);
        i = i + 1;
    }
    proof {
        assert(v@ =~= terms@);
        lemma2_to64();
        lemma_pow2_pos(56);
        lemma_mul_basics(pow2(0) as int);
    }
    let mut acc_neg: bool = false;
    let mut acc_mag: u128 = 0;
    let mut acc_exp: u16 = 0;
    while v.len() > 0
        invariant
            sum_val(terms@) == acc_val(acc_neg, acc_mag, acc_exp) + sum_val(v@),
            acc_mag < pow2(56),
            forall|j: int| 0 <= j < v@.len() ==> term_wf(#[trigger] v@[j]),
            acc_mag != 0 ==> forall|j: int| 0 <= j < v@.len() ==> (#[trigger] v@[j]).exp <= acc_exp,
            acc_mag != 0 ==> v@.len() <= 3,
            v@.len() <= 4,
        decreases v.len(),
    {
        // pick the remaining term with the largest exponent
        let mut mi: usize = 0;
        let mut j: usize = 1;
        while j < v.len()
            invariant
                mi < v.len(),
                j <= v.len(),
                v.len() > 0,
                forall|k: int| 0 <= k < j ==> (#[trigger] v@[k]).exp <= v@[mi as int].exp,
            decreases v.len() - j,
        {
            if v[j].exp > v[mi].exp {
                mi = j;
            }
            j = j + 1;
        }
        let ghost v_before = v@;
        let e_max: u16 = v[mi].exp;
        if acc_mag != 0 {
            // can the accumulator already decide the sign?
            let d: u16 = acc_exp - e_max;
            let dominated: bool = if d >= 55 {
                true
            } else {
                acc_mag >= pow2_u128(55 - d)
            };
            if dominated {
                proof {
                    assert(acc_mag as nat * pow2(acc_exp as nat) >= pow2((55 + e_max as nat))) by {
                        lemma_pow2_adds((55 - d) as nat, d as nat);
                        lemma_pow2_adds(e_max as nat, d as nat);
                        lemma_pow2_pos(d as nat);
                        lemma_pow2_pos(acc_exp as nat);
                        if d >= 55 {
                            // 2^acc_exp alone reaches 2^(55+e_max)
                            if (55 + e_max as nat) < acc_exp as nat {
                                lemma_pow2_strictly_increases((55 + e_max as nat), acc_exp as nat);
                            }
                            lemma_mul_inequality(
                                1,
                                acc_mag as int,
                                pow2(acc_exp as nat) as int,
                            );
                        } else {
                            lemma_mul_inequality(
                                pow2((55 - d) as nat) as int,
                                acc_mag as int,
                                pow2(acc_exp as nat) as int,
                            );
                            lemma_pow2_adds((55 - d) as nat, acc_exp as nat);
                            assert((55 - d) as nat + acc_exp as nat == 55 + e_max as nat);
                        }
                    }
                    lemma_dominates(acc_neg, acc_mag, acc_exp, v_before, e_max as nat);
                }
                return if acc_neg {
                    -1
                } else {
                    1
                };
            }
            // fold the term in exactly: d < 55 and acc_mag < 2^(55-d)
            let t = v.remove(mi);
            proof {
                lemma_sum_remove(v_before, mi as int);
            }
            let p = pow2_u128(d);
            proof {
                assert(acc_mag as nat * pow2(d as nat) < pow2(55)) by {
                    lemma_mul_strict_inequality(
                        acc_mag as int,
                        pow2((55 - d) as nat) as int,
                        pow2(d as nat) as int,
                    );
                    lemma_pow2_pos(d as nat);
                    lemma_pow2_adds((55 - d) as nat, d as nat);
                }
                assert(pow2(53) == 0x20_0000_0000_0000 && pow2(55) == 0x80_0000_0000_0000 && pow2(
                    56,
                ) == 0x100_0000_0000_0000) by {
                    lemma2_to64_rest();
                }
                // the rescaled accumulator keeps its value
                assert(acc_mag as nat * pow2(d as nat) * pow2(e_max as nat) == acc_mag as nat
                    * pow2(acc_exp as nat)) by {
                    lemma_pow2_adds(d as nat, e_max as nat);
                    lemma_mul_is_associative(
                        acc_mag as int,
                        pow2(d as nat) as int,
                        pow2(e_max as nat) as int,
                    );
                }
            }
            let shifted: u128 = acc_mag * p;
            let tm: u128 = t.mag as u128;
            proof {
                assert(tm < pow2(53));
                lemma_pow2_pos(e_max as nat);
                lemma_mul_is_distributive_add_other_way(
                    pow2(e_max as nat) as int,
                    shifted as int,
                    tm as int,
                );
                lemma_mul_is_distributive_sub_other_way(
                    pow2(e_max as nat) as int,
                    shifted as int,
                    tm as int,
                );
                lemma_mul_is_distributive_sub_other_way(
                    pow2(e_max as nat) as int,
                    tm as int,
                    shifted as int,
                );
            }
            if acc_neg == t.neg {
                acc_mag = shifted + tm;
            } else if shifted >= tm {
                acc_mag = shifted - tm;
            } else {
                acc_mag = tm - shifted;
                acc_neg = t.neg;
            }
            acc_exp = e_max;
        } else {
            let t = v.remove(mi);
            proof {
                lemma_sum_remove(v_before, mi as int);
                assert(acc_val(acc_neg, 0, acc_exp) == 0) by {
                    lemma_mul_basics(pow2(acc_exp as nat) as int);
                }
                lemma_pow2_strictly_increases(53, 56);
            }
            acc_neg = t.neg;
            acc_mag = t.mag as u128;
            acc_exp = t.exp;
        }
    }
    proof {
        lemma_pow2_pos(acc_exp as nat);
        if acc_mag != 0 {
            lemma_mul_inequality(1, acc_mag as int, pow2(acc_exp as nat) as int);
        } else {
            lemma_mul_basics(pow2(acc_exp as nat) as int);
        }
    }
    if acc_mag == 0 {
        0
    } else if acc_neg {
        -1
    } else {
        1
    }
}

} // verus!
