//! The bit-level model of IEEE-754 binary64 values.
//!
//! An interval bound is carried as the 64-bit pattern of a double. A finite
//! pattern denotes an exact integer when measured in units of the smallest
//! positive subnormal (2^-1074); `val` gives that integer. All interval
//! reasoning in this crate is done over `val`, so width, midpoint and binade
//! questions are answered exactly, with no rounding involved.

use vstd::prelude::*;
use vstd::arithmetic::power2::*;
use vstd::arithmetic::mul::*;
use vstd::bits::*;

verus! {

/// Low 52 bits: the fraction field of a binary64 pattern.
pub const FRAC_MASK: u64 = 0xF_FFFF_FFFF_FFFF;

/// Sign bit of the pattern: 0 or 1.
pub open spec fn sign_field(b: u64) -> nat {
    (b as nat) / pow2(63)
}

/// Biased exponent field of the pattern: 0 ..= 2047.
pub open spec fn exp_field(b: u64) -> nat {
    ((b as nat) / pow2(52)) % pow2(11)
}

/// Fraction field of the pattern: 0 ..= 2^52 - 1.
pub open spec fn frac_field(b: u64) -> nat {
    (b as nat) % pow2(52)
}

/// A pattern is finite when it is neither an infinity nor a NaN.
pub open spec fn is_finite(b: u64) -> bool {
    exp_field(b) != 2047
}

/// Magnitude of the double with pattern `b`, in units of 2^-1074.
pub open spec fn mag_units(b: u64) -> nat {
    if exp_field(b) == 0 {
        frac_field(b)
    } else {
        (frac_field(b) + pow2(52)) * pow2((exp_field(b) - 1) as nat)
    }
}

/// Exact value of the finite double with pattern `b`, in units of 2^-1074.
/// Both zero patterns denote 0.
pub open spec fn val(b: u64) -> int {
    if sign_field(b) == 1 {
        -(mag_units(b) as int)
    } else {
        mag_units(b) as int
    }
}

/// Bridges the executable shift/mask forms to the arithmetic field functions.
pub proof fn lemma_field_ops(b: u64)
    ensures
        (b >> 63u64) as nat == sign_field(b),
        ((b >> 52u64) & 0x7FF) as nat == exp_field(b),
        (b & FRAC_MASK) as nat == frac_field(b),
        sign_field(b) <= 1,
        exp_field(b) <= 2047,
        frac_field(b) < pow2(52),
{
    lemma2_to64();
    lemma2_to64_rest();
    lemma_u64_shr_is_div(b, 63);
    lemma_u64_shr_is_div(b, 52);
    assert(b >> 63u64 <= 1) by (bit_vector);
    let t = b >> 52u64;
    lemma_u64_low_bits_mask_is_mod(t, 11);
    lemma_u64_low_bits_mask_is_mod(b, 52);
    lemma_low_bits_mask_values();
    assert(low_bits_mask(52) == 0xF_FFFF_FFFF_FFFF) by {
        assert(pow2(52) == 0x10_0000_0000_0000);
    }
    assert((t & 0x7FF) == t % 2048);
    assert((t & 0x7FF) as nat == (t as nat) % pow2(11));
    assert((b & FRAC_MASK) as nat == (b as nat) % pow2(52));
}

/// Sign bit of `b`.
pub fn sign_of(b: u64) -> (s: u64)
    ensures
        s as nat == sign_field(b),
        s <= 1,
{
    proof {
        lemma_field_ops(b);
    }
    b >> 63u64
}

/// Biased exponent field of `b`.
pub fn exp_of(b: u64) -> (e: u64)
    ensures
        e as nat == exp_field(b),
        e <= 2047,
{
    proof {
        lemma_field_ops(b);
    }
    (b >> 52u64) & 0x7FF
}

/// Fraction field of `b`.
pub fn frac_of(b: u64) -> (f: u64)
    ensures
        f as nat == frac_field(b),
        f < 0x10_0000_0000_0000,
{
    proof {
        lemma_field_ops(b);
        lemma2_to64_rest();
    }
    b & FRAC_MASK
}

/// True when `b` is neither an infinity nor a NaN.
pub fn finite(b: u64) -> (r: bool)
    ensures
        r == is_finite(b),
{
    exp_of(b) != 2047
}

/// The pattern with sign field `s`, exponent field `e` and fraction 0.
pub open spec fn from_fields(s: nat, e: nat) -> u64 {
    (s * 0x8000_0000_0000_0000 + e * 0x10_0000_0000_0000) as u64
}

/// Builds the pattern with the given sign and exponent fields and fraction 0.
pub fn pack_sign_exp(s: u64, e: u64) -> (r: u64)
    requires
        s <= 1,
        e <= 2047,
    ensures
        sign_field(r) == s as nat,
        exp_field(r) == e as nat,
        frac_field(r) == 0,
        r == from_fields(s as nat, e as nat),
{
    let r = (s << 63u64) | (e << 52u64);
    proof {
        lemma_field_ops(r);
        assert(r >> 63u64 == s && (r >> 52u64) & 0x7FF == e && r & 0xF_FFFF_FFFF_FFFF == 0)
            by (bit_vector)
            requires
                s <= 1,
                e <= 2047,
                r == ((s << 63u64) | (e << 52u64)),
        ;
        assert(r == s * 0x8000_0000_0000_0000 + e * 0x10_0000_0000_0000) by (bit_vector)
            requires
                s <= 1,
                e <= 2047,
                r == ((s << 63u64) | (e << 52u64)),
        ;
    }
    r
}

/// Strict monotonicity of the magnitude in the lexicographic order of
/// (exponent field, fraction field).
pub proof fn lemma_mag_lex(a: u64, b: u64)
    requires
        exp_field(a) < exp_field(b) || (exp_field(a) == exp_field(b) && frac_field(a)
            < frac_field(b)),
    ensures
        mag_units(a) < mag_units(b),
{
    lemma_field_ops(a);
    lemma_field_ops(b);
    let ea = exp_field(a);
    let eb = exp_field(b);
    let fa = frac_field(a);
    let fb = frac_field(b);
    lemma_pow2_pos(52);
    if ea == eb {
        if ea == 0 {
        } else {
            lemma_pow2_pos((ea - 1) as nat);
            lemma_mul_strict_inequality(
                (fa + pow2(52)) as int,
                (fb + pow2(52)) as int,
                pow2((ea - 1) as nat) as int,
            );
        }
    } else {
        // ea < eb, so b is at least one binade above a's magnitude range.
        lemma_pow2_pos((eb - 1) as nat);
        assert(mag_units(b) >= pow2(52) * pow2((eb - 1) as nat)) by {
            lemma_mul_inequality(
                pow2(52) as int,
                (fb + pow2(52)) as int,
                pow2((eb - 1) as nat) as int,
            );
        }
        lemma_pow2_adds(52, (eb - 1) as nat);
        if ea == 0 {
            assert(mag_units(a) == fa < pow2(52));
            assert(pow2(52) <= pow2((52 + eb - 1) as nat)) by {
                if 52 < 52 + eb - 1 {
                    lemma_pow2_strictly_increases(52, (52 + eb - 1) as nat);
                }
            }
        } else {
            // mag(a) < 2^53 * 2^(ea-1) = 2^(52+ea) <= 2^(51+eb)
            assert(fa + pow2(52) < pow2(53)) by {
                lemma2_to64();
                lemma_pow2_adds(52, 1);
            }
            lemma_pow2_pos((ea - 1) as nat);
            lemma_mul_strict_inequality(
                (fa + pow2(52)) as int,
                pow2(53) as int,
                pow2((ea - 1) as nat) as int,
            );
            lemma_pow2_adds(53, (ea - 1) as nat);
            assert(mag_units(a) < pow2((52 + ea) as nat));
            assert(pow2((52 + ea) as nat) <= pow2((52 + eb - 1) as nat)) by {
                if 52 + ea < 52 + eb - 1 {
                    lemma_pow2_strictly_increases((52 + ea) as nat, (52 + eb - 1) as nat);
                }
            }
        }
    }
}

/// Equal field pairs give equal magnitudes; with `lemma_mag_lex` this makes
/// the magnitude order coincide with the lexicographic field order.
pub proof fn lemma_mag_lex_le(a: u64, b: u64)
    requires
        exp_field(a) < exp_field(b) || (exp_field(a) == exp_field(b) && frac_field(a)
            <= frac_field(b)),
    ensures
        mag_units(a) <= mag_units(b),
{
    if exp_field(a) == exp_field(b) && frac_field(a) == frac_field(b) {
    } else {
        lemma_mag_lex(a, b);
    }
}

/// Total-order key of a pattern: orders finite doubles by value, with the two
/// zero patterns adjacent.
pub open spec fn key(b: u64) -> nat {
    if sign_field(b) == 1 {
        (u64::MAX - b) as nat
    } else {
        b as nat + pow2(63)
    }
}

/// Computes `key(b)`.
pub fn key_of(b: u64) -> (k: u64)
    ensures
        k as nat == key(b),
{
    proof {
        lemma_field_ops(b);
        lemma2_to64_rest();
        assert((b >> 63u64 == 1 ==> !b == 0xFFFF_FFFF_FFFF_FFFFu64 - b) && (b >> 63u64 != 1 ==> (b
            | 0x8000_0000_0000_0000) == b + 0x8000_0000_0000_0000)) by (bit_vector);
    }
    if b >> 63u64 == 1 {
        !b
    } else {
        b | 0x8000_0000_0000_0000
    }
}

/// Spec-level inverse of `key`.
pub open spec fn unkey_s(k: u64) -> u64 {
    if k >= 0x8000_0000_0000_0000 {
        (k - 0x8000_0000_0000_0000) as u64
    } else {
        (0xFFFF_FFFF_FFFF_FFFF - k) as u64
    }
}

/// `key` inverts `unkey_s`.
pub proof fn lemma_unkey_props(k: u64)
    ensures
        key(unkey_s(k)) == k as nat,
{
    lemma2_to64_rest();
    let b = unkey_s(k);
    lemma_field_ops(b);
    assert((b >= 0x8000_0000_0000_0000 ==> b >> 63u64 == 1) && (b < 0x8000_0000_0000_0000 ==> b
        >> 63u64 == 0)) by (bit_vector);
}

/// `key` stays within u64 range.
pub proof fn lemma_key_bound(b: u64)
    ensures
        key(b) <= u64::MAX,
        unkey_s(key(b) as u64) == b,
{
    lemma2_to64_rest();
    lemma_field_ops(b);
    assert((b >= 0x8000_0000_0000_0000 ==> b >> 63u64 == 1) && (b < 0x8000_0000_0000_0000 ==> b
        >> 63u64 == 0)) by (bit_vector);
}

/// A key between two finite keys names a finite pattern with that key.
pub proof fn lemma_unkey_in_range(k: u64, klo: nat, khi: nat)
    requires
        0x0010_0000_0000_0000 <= klo,
        khi <= 0xFFEF_FFFF_FFFF_FFFF,
        klo <= k as nat <= khi,
    ensures
        is_finite(unkey_s(k)),
        key(unkey_s(k)) == k as nat,
{
    lemma_unkey_props(k);
    lemma_finite_key_range(unkey_s(k));
}

/// Round-tripping a finite pattern through its key lands on a pattern with
/// the same key and the same value.
pub proof fn lemma_unkey_key(b: u64)
    requires
        is_finite(b),
    ensures
        key(b) <= u64::MAX,
        is_finite(unkey_s(key(b) as u64)),
        key(unkey_s(key(b) as u64)) == key(b),
        val(unkey_s(key(b) as u64)) == val(b),
{
    lemma_key_bound(b);
    lemma_unkey_props(key(b) as u64);
    lemma_finite_key_range(b);
    lemma_finite_key_range(unkey_s(key(b) as u64));
    lemma_key_le_val_le(b, unkey_s(key(b) as u64));
    lemma_key_le_val_le(unkey_s(key(b) as u64), b);
}

/// Inverts `key_of`.
pub fn unkey(k: u64) -> (b: u64)
    ensures
        key(b) == k as nat,
        b == unkey_s(k),
{
    proof {
        lemma2_to64_rest();
    }
    if k >= 0x8000_0000_0000_0000 {
        let b = k - 0x8000_0000_0000_0000;
        proof {
            lemma_field_ops(b);
            assert(b >> 63u64 == 0) by (bit_vector)
                requires
                    b < 0x8000_0000_0000_0000,
            ;
        }
        b
    } else {
        let b = !k;
        proof {
            lemma_field_ops(b);
            assert(b >> 63u64 == 1 && b == 0xFFFF_FFFF_FFFF_FFFFu64 - k) by (bit_vector)
                requires
                    b == !k,
                    k < 0x8000_0000_0000_0000,
            ;
        }
        b
    }
}

/// The keys of the finite patterns form one contiguous range.
pub proof fn lemma_finite_key_range(b: u64)
    ensures
        is_finite(b) <==> (0x0010_0000_0000_0000 <= key(b) <= 0xFFEF_FFFF_FFFF_FFFF),
{
    lemma_field_ops(b);
    lemma2_to64_rest();
    let k: u64 = if b >> 63u64 == 1 {
        !b
    } else {
        b | 0x8000_0000_0000_0000
    };
    assert((b >> 63u64 == 1 ==> !b == 0xFFFF_FFFF_FFFF_FFFFu64 - b) && (b >> 63u64 != 1 ==> (b
        | 0x8000_0000_0000_0000) == b + 0x8000_0000_0000_0000)) by (bit_vector);
    assert(k as nat == key(b));
    assert(((b >> 52u64) & 0x7FF != 0x7FF) <==> (0x0010_0000_0000_0000u64 <= k
        <= 0xFFEF_FFFF_FFFF_FFFF)) by (bit_vector)
        requires
            k == (if b >> 63u64 == 1 {
                !b
            } else {
                (b | 0x8000_0000_0000_0000)
            }),
    ;
}

/// Strictly greater value means strictly greater key.
pub proof fn lemma_val_lt_key_lt(a: u64, b: u64)
    requires
        is_finite(a),
        is_finite(b),
        val(a) < val(b),
    ensures
        key(a) < key(b),
{
    lemma_field_ops(a);
    lemma_field_ops(b);
    lemma2_to64_rest();
    let sa = sign_field(a);
    let sb = sign_field(b);
    if sa == 0 && sb == 0 {
        // mag(a) < mag(b), hence the field pairs are lexicographically ordered
        // and the raw patterns compare the same way.
        assert(mag_units(a) < mag_units(b));
        if exp_field(b) < exp_field(a) || (exp_field(b) == exp_field(a) && frac_field(b)
            <= frac_field(a)) {
            lemma_mag_lex_le(b, a);
            assert(false);
        }
        assert(a < b) by (bit_vector)
            requires
                a >> 63u64 == 0,
                b >> 63u64 == 0,
                ((a >> 52u64) & 0x7FF) < ((b >> 52u64) & 0x7FF) || (((a >> 52u64) & 0x7FF) == ((b
                    >> 52u64) & 0x7FF) && (a & 0xF_FFFF_FFFF_FFFF) < (b & 0xF_FFFF_FFFF_FFFF)),
        ;
    } else if sa == 1 && sb == 1 {
        assert(mag_units(a) > mag_units(b));
        if exp_field(a) < exp_field(b) || (exp_field(a) == exp_field(b) && frac_field(a)
            <= frac_field(b)) {
            lemma_mag_lex_le(a, b);
            assert(false);
        }
        assert(a > b) by (bit_vector)
            requires
                a >> 63u64 == 1,
                b >> 63u64 == 1,
                ((b >> 52u64) & 0x7FF) < ((a >> 52u64) & 0x7FF) || (((a >> 52u64) & 0x7FF) == ((b
                    >> 52u64) & 0x7FF) && (b & 0xF_FFFF_FFFF_FFFF) < (a & 0xF_FFFF_FFFF_FFFF)),
        ;
    } else if sa == 1 && sb == 0 {
        assert(a >= 0x8000_0000_0000_0000) by (bit_vector)
            requires
                a >> 63u64 == 1,
        ;
        assert(key(a) <= 0x7FFF_FFFF_FFFF_FFFF);
        assert(key(b) >= 0x8000_0000_0000_0000);
    } else {
        // sa == 0, sb == 1: then val(a) >= 0 >= val(b), impossible.
        assert(false);
    }
}

/// Key order implies value order.
pub proof fn lemma_key_le_val_le(a: u64, b: u64)
    requires
        is_finite(a),
        is_finite(b),
        key(a) <= key(b),
    ensures
        val(a) <= val(b),
{
    if val(a) > val(b) {
        lemma_val_lt_key_lt(b, a);
    }
}

/// Two distinct finite patterns with the same value are the two zeros.
pub proof fn lemma_val_injective(a: u64, b: u64)
    requires
        is_finite(a),
        is_finite(b),
        val(a) == val(b),
        a != b,
    ensures
        mag_units(a) == 0,
        mag_units(b) == 0,
        exp_field(a) == 0 && frac_field(a) == 0,
        exp_field(b) == 0 && frac_field(b) == 0,
        sign_field(a) != sign_field(b),
{
    lemma_field_ops(a);
    lemma_field_ops(b);
    if sign_field(a) == sign_field(b) {
        assert(mag_units(a) == mag_units(b));
        if exp_field(a) != exp_field(b) || frac_field(a) != frac_field(b) {
            if exp_field(a) < exp_field(b) || (exp_field(a) == exp_field(b) && frac_field(a)
                < frac_field(b)) {
                lemma_mag_lex(a, b);
            } else {
                lemma_mag_lex(b, a);
            }
            assert(false);
        }
        // identical fields and sign give identical patterns
        assert(a == b) by (bit_vector)
            requires
                a >> 63u64 == b >> 63u64,
                (a >> 52u64) & 0x7FF == (b >> 52u64) & 0x7FF,
                a & 0xF_FFFF_FFFF_FFFF == b & 0xF_FFFF_FFFF_FFFF,
        ;
        assert(false);
    }
    // opposite signs force both magnitudes to zero
    assert(mag_units(a) == 0 && mag_units(b) == 0);
    if exp_field(a) != 0 {
        lemma_pow2_pos(52);
        lemma_pow2_pos((exp_field(a) - 1) as nat);
        lemma_mul_inequality(1, (frac_field(a) + pow2(52)) as int, pow2(
            (exp_field(a) - 1) as nat,
        ) as int);
        assert(false);
    }
    if exp_field(b) != 0 {
        lemma_pow2_pos(52);
        lemma_pow2_pos((exp_field(b) - 1) as nat);
        lemma_mul_inequality(1, (frac_field(b) + pow2(52)) as int, pow2(
            (exp_field(b) - 1) as nat,
        ) as int);
        assert(false);
    }
}

/// A pattern of zero magnitude is one of the two zero patterns.
pub proof fn lemma_zero_patterns(b: u64)
    requires
        mag_units(b) == 0,
    ensures
        b == 0 || b == 0x8000_0000_0000_0000,
{
    lemma_field_ops(b);
    if exp_field(b) != 0 {
        lemma_pow2_pos(52);
        lemma_pow2_pos((exp_field(b) - 1) as nat);
        lemma_mul_inequality(1, (frac_field(b) + pow2(52)) as int, pow2(
            (exp_field(b) - 1) as nat,
        ) as int);
        assert(false);
    }
    assert(b == 0 || b == 0x8000_0000_0000_0000) by (bit_vector)
        requires
            (b >> 52u64) & 0x7FF == 0,
            b & 0xF_FFFF_FFFF_FFFF == 0,
    ;
}

/// Sign of the pattern that the binade step produces: the sign of `b`, except
/// that a negative subnormal saturates to the non-negative side.
pub open spec fn next_binade_sign(b: u64) -> nat {
    if exp_field(b) == 0 && sign_field(b) == 1 {
        0
    } else {
        sign_field(b)
    }
}

/// Exponent field of the pattern that the binade step produces: one binade up
/// for non-negative values, one binade toward zero for negative ones.
pub open spec fn next_binade_exp(b: u64) -> nat {
    if next_binade_sign(b) == 1 {
        (exp_field(b) - 1) as nat
    } else {
        exp_field(b) + 1
    }
}

/// The pattern that the binade step produces from `b`.
pub open spec fn next_binade_bits(b: u64) -> u64 {
    from_fields(next_binade_sign(b), next_binade_exp(b))
}

/// Steps the finite pattern `b` to a binade boundary strictly above its
/// value: the top of its own binade for non-negative values, and for
/// negative values minus the lower boundary of the binade below its own,
/// one scale step toward zero. A negative subnormal saturates to the
/// smallest positive normal boundary instead of wrapping.
/// The result can be the infinity pattern, which callers must test before
/// treating it as a value.
pub fn next_binade(b: u64) -> (r: u64)
    requires
        is_finite(b),
    ensures
        sign_field(r) == next_binade_sign(b),
        exp_field(r) == next_binade_exp(b),
        frac_field(r) == 0,
        r == next_binade_bits(b),
        is_finite(r) ==> val(r) > val(b),
{
    proof {
        lemma_field_ops(b);
    }
    let osign = sign_of(b);
    let oexp = exp_of(b);
    let sign = if oexp == 0 && osign == 1 {
        0u64
    } else {
        osign
    };
    let exp = if sign == 1 {
        oexp - 1
    } else {
        oexp + 1
    };
    let r = pack_sign_exp(sign, exp);
    proof {
        if is_finite(r) {
            lemma_binade_step_increases(b, r);
        }
    }
    r
}

/// The arithmetic content of the binade step: when the stepped pattern is
/// finite, its value lies strictly above the value of the input.
proof fn lemma_binade_step_increases(b: u64, r: u64)
    requires
        is_finite(b),
        sign_field(r) == next_binade_sign(b),
        exp_field(r) == next_binade_exp(b),
        frac_field(r) == 0,
        is_finite(r),
    ensures
        val(r) > val(b),
{
    lemma_field_ops(b);
    lemma_field_ops(r);
    lemma_pow2_pos(52);
    let e = exp_field(b);
    let f = frac_field(b);
    if sign_field(b) == 0 {
        // r has exponent field e + 1 and magnitude 2^52 * 2^e.
        assert(mag_units(r) == pow2(52) * pow2(e));
        if e == 0 {
            lemma_pow2_pos(0);
            lemma_mul_inequality(1, pow2(0) as int, pow2(52) as int);
            assert(mag_units(b) == f < pow2(52));
            assert(pow2(52) * pow2(0) == pow2(52)) by {
                lemma2_to64();
                lemma_mul_basics(pow2(52) as int);
            }
            assert(mag_units(b) < mag_units(r)) by {
                lemma_mul_basics(pow2(52) as int);
            }
        } else {
            // mag(b) = (f + 2^52) * 2^(e-1) < 2^53 * 2^(e-1) = 2^52 * 2^e
            lemma_pow2_pos((e - 1) as nat);
            assert(f + pow2(52) < pow2(53)) by {
                lemma2_to64();
                lemma_pow2_adds(52, 1);
            }
            lemma_mul_strict_inequality(
                (f + pow2(52)) as int,
                pow2(53) as int,
                pow2((e - 1) as nat) as int,
            );
            lemma_pow2_adds(53, (e - 1) as nat);
            lemma_pow2_adds(52, e);
            assert(mag_units(b) < pow2((52 + e) as nat));
            assert(mag_units(r) == pow2(52) * pow2(e) == pow2((52 + e) as nat));
        }
    } else if e == 0 {
        // negative subnormal: r is the smallest positive normal boundary
        assert(sign_field(r) == 0 && exp_field(r) == 1);
        assert(mag_units(r) == pow2(52) * pow2(0));
        lemma_pow2_pos(0);
        lemma_mul_inequality(1, pow2(0) as int, pow2(52) as int);
        assert(val(b) <= 0);
        assert(val(r) > 0) by {
            lemma_mul_basics(pow2(52) as int);
        }
    } else {
        // negative with exponent field e >= 1: r = -(binade below), closer to zero
        assert(sign_field(r) == 1 && exp_field(r) == (e - 1) as nat);
        if e == 1 {
            // r is the negative zero pattern
            assert(mag_units(r) == 0);
            lemma_pow2_pos(0);
            lemma_mul_inequality(pow2(52) as int, (f + pow2(52)) as int, pow2(0) as int);
            assert(mag_units(b) >= pow2(52) * pow2(0));
            assert(mag_units(b) > 0) by {
                lemma2_to64();
                lemma_mul_basics(pow2(52) as int);
            }
        } else {
            // mag(r) = 2^52 * 2^(e-2) < 2^52 * 2^(e-1) <= mag(b)
            assert(mag_units(r) == pow2(52) * pow2((e - 2) as nat));
            lemma_pow2_strictly_increases((e - 2) as nat, (e - 1) as nat);
            lemma_mul_strict_inequality(
                pow2((e - 2) as nat) as int,
                pow2((e - 1) as nat) as int,
                pow2(52) as int,
            );
            lemma_mul_is_commutative(pow2(52) as int, pow2((e - 2) as nat) as int);
            lemma_mul_is_commutative(pow2(52) as int, pow2((e - 1) as nat) as int);
            lemma_mul_inequality(pow2(52) as int, (f + pow2(52)) as int, pow2((e - 1) as nat) as int);
            assert(mag_units(r) < pow2(52) * pow2((e - 1) as nat));
            assert(mag_units(b) >= pow2(52) * pow2((e - 1) as nat));
        }
    }
}

} // verus!
