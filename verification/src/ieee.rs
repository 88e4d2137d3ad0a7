//! Reading a double-precision number from its 64 bits: the sign in the top
//! bit, then 11 bits of exponent, then 52 bits of fraction. A finite number
//! is its significand times a power of two, with the sign.

use vstd::prelude::*;

verus! {

/// 2 to the power of 52: one more than the largest fraction.
pub const FRACTION_SPAN: u64 = 0x10_0000_0000_0000;

/// 2 to the power of 63: the sign bit.
pub const SIGN_BIT: u64 = 0x8000_0000_0000_0000;

/// 2 to the power of `k`.
pub open spec fn two_to(k: int) -> int
    decreases k,
{
    if k <= 0 {
        1
    } else {
        2 * two_to(k - 1)
    }
}

/// The fraction bits.
pub open spec fn fraction(bits: u64) -> int {
    bits as int % FRACTION_SPAN as int
}

/// The exponent bits.
pub open spec fn exponent(bits: u64) -> int {
    (bits as int / FRACTION_SPAN as int) % 2048
}

/// The sign bit is set.
pub open spec fn negative(bits: u64) -> bool {
    bits >= SIGN_BIT
}

/// The bits stand for a number: neither an infinity nor a NaN.
pub open spec fn finite(bits: u64) -> bool {
    exponent(bits) != 2047
}

/// The significand: the fraction, with the implicit leading bit unless the
/// number is subnormal.
pub open spec fn significand(bits: u64) -> int {
    if exponent(bits) == 0 {
        fraction(bits)
    } else {
        FRACTION_SPAN as int + fraction(bits)
    }
}

/// The power of two by which the significand is scaled.
pub open spec fn scale(bits: u64) -> int {
    if exponent(bits) == 0 {
        -1074
    } else {
        exponent(bits) - 1075
    }
}

/// The significand with the sign.
pub open spec fn signed(bits: u64) -> int {
    if negative(bits) {
        -significand(bits)
    } else {
        significand(bits)
    }
}

/// The number is at least `num / den`, for a positive `den`.
pub open spec fn reaches(bits: u64, num: int, den: int) -> bool {
    if scale(bits) >= 0 {
        signed(bits) * two_to(scale(bits)) * den >= num
    } else {
        signed(bits) * den >= num * two_to(-scale(bits))
    }
}

/// The integer nearest to the number's absolute value, the larger one when
/// two are equally near.
pub open spec fn nearest_magnitude(bits: u64) -> int {
    if scale(bits) >= 0 {
        significand(bits) * two_to(scale(bits))
    } else {
        (2 * significand(bits) + two_to(-scale(bits))) / (2 * two_to(-scale(bits)))
    }
}

/// The integer nearest to the number, away from zero when two are equally
/// near, and no farther from zero than a 32-bit integer goes.
pub open spec fn rounded(bits: u64) -> int {
    let nearest = if negative(bits) {
        -nearest_magnitude(bits)
    } else {
        nearest_magnitude(bits)
    };
    if nearest > i32::MAX {
        i32::MAX as int
    } else if nearest < i32::MIN {
        i32::MIN as int
    } else {
        nearest
    }
}

/// A power of two is at least 1.
pub proof fn lemma_two_to_positive(k: int)
    ensures
        1 <= two_to(k),
    decreases k,
{
    if k > 0 {
        lemma_two_to_positive(k - 1);
    }
}

/// The powers of two rise with the exponent.
pub proof fn lemma_two_to_rises(fewer: int, more: int)
    requires
        fewer <= more,
    ensures
        1 <= two_to(fewer) <= two_to(more),
    decreases more,
{
    lemma_two_to_positive(fewer);
    if more <= 0 {
    } else if fewer == more {
    } else {
        lemma_two_to_rises(fewer, more - 1);
    }
}

/// Whether the bits stand for a number.
pub fn is_finite(bits: u64) -> (yes: bool)
    ensures
        yes == finite(bits),
{
    (bits / FRACTION_SPAN) % 2048 != 2047
}

/// The significand and the exponent bits.
fn fields(bits: u64) -> (parts: (u64, u64))
    ensures
        parts.0 == significand(bits),
        parts.1 == exponent(bits),
        parts.0 < 2 * FRACTION_SPAN,
        parts.1 < 2048,
        parts.1 > 0 ==> parts.0 >= FRACTION_SPAN,
{
    let exponent = (bits / FRACTION_SPAN) % 2048;
    let fraction = bits % FRACTION_SPAN;
    if exponent == 0 {
        (fraction, exponent)
    } else {
        (FRACTION_SPAN + fraction, exponent)
    }
}

/// Whether the number is at least `num / den`.
pub fn reaches_ratio(bits: u64, num: u64, den: u64) -> (yes: bool)
    requires
        finite(bits),
        1 <= num <= FRACTION_SPAN,
        1 <= den <= 0x10_0000,
    ensures
        yes == reaches(bits, num as int, den as int),
{
    let (digits, exponent) = fields(bits);
    let ghost power = scale(bits);
    proof {
        lemma_two_to_positive(power);
        lemma_two_to_positive(-power);
    }
    if bits >= SIGN_BIT || digits == 0 {
        proof {
            let s = signed(bits);
            let up = two_to(power);
            let down = two_to(-power);
            assert(s * up * den <= 0) by (nonlinear_arith)
                requires
                    s <= 0,
                    up >= 1,
                    den >= 1,
            ;
            assert(s * den <= 0) by (nonlinear_arith)
                requires
                    s <= 0,
                    den >= 1,
            ;
            assert(num * down >= 1) by (nonlinear_arith)
                requires
                    num >= 1,
                    down >= 1,
            ;
        }
        return false;
    }
    if exponent >= 1075 {
        proof {
            let s = signed(bits);
            let up = two_to(power);
            assert(s * up * den >= FRACTION_SPAN) by (nonlinear_arith)
                requires
                    s >= FRACTION_SPAN,
                    up >= 1,
                    den >= 1,
            ;
        }
        return true;
    }
    let shift: u64 = if exponent == 0 {
        1074
    } else {
        1075 - exponent
    };
    assert(shift == -power);
    assert(0 <= digits * den < 0x20_0000_0000_0000 * 0x10_0000 + 1) by (nonlinear_arith)
        requires
            0 <= digits < 0x20_0000_0000_0000,
            0 <= den <= 0x10_0000,
    ;
    let have: u128 = digits as u128 * den as u128;
    if num as u128 > have {
        proof {
            let wanted = two_to(shift as int);
            assert(num * wanted >= num) by (nonlinear_arith)
                requires
                    wanted >= 1,
                    num >= 1,
            ;
        }
        return false;
    }
    let mut power_of_two: u128 = 1;
    let mut k: u64 = 0;
    while k < shift
        invariant
            k <= shift,
            1 <= num <= FRACTION_SPAN,
            shift == -scale(bits),
            scale(bits) < 0,
            have == signed(bits) * den,
            power_of_two == two_to(k as int),
            num * power_of_two <= have,
            have < 0x20_0000_0000_0000 * 0x10_0000 + 1,
        decreases shift - k,
    {
        assert(power_of_two <= have) by (nonlinear_arith)
            requires
                num * power_of_two <= have,
                num >= 1,
                power_of_two >= 0,
        ;
        power_of_two = power_of_two * 2;
        k += 1;
        assert(num * power_of_two <= 0x10_0000_0000_0000 * (2 * (0x20_0000_0000_0000 * 0x10_0000 + 1)))
            by (nonlinear_arith)
            requires
                num <= 0x10_0000_0000_0000,
                0 <= power_of_two <= 2 * (0x20_0000_0000_0000 * 0x10_0000 + 1),
        ;
        if num as u128 * power_of_two > have {
            proof {
                lemma_two_to_rises(k as int, shift as int);
                let reached = two_to(k as int);
                let wanted = two_to(shift as int);
                assert(num * wanted >= num * reached) by (nonlinear_arith)
                    requires
                        wanted >= reached,
                        num >= 1,
                ;
            }
            return false;
        }
    }
    true
}

/// The integer nearest to the number, away from zero when two are equally
/// near, and no farther from zero than a 32-bit integer goes.
pub fn round_to_i32(bits: u64) -> (nearest: i32)
    requires
        finite(bits),
    ensures
        nearest == rounded(bits),
{
    let (digits, exponent) = fields(bits);
    let ghost power = scale(bits);
    let minus = bits >= SIGN_BIT;
    proof {
        lemma_two_to_positive(power);
        lemma_two_to_positive(-power);
    }
    if exponent >= 1075 {
        proof {
            let up = two_to(power);
            assert(digits * up >= FRACTION_SPAN) by (nonlinear_arith)
                requires
                    digits >= FRACTION_SPAN,
                    up >= 1,
            ;
        }
        return if minus {
            i32::MIN
        } else {
            i32::MAX
        };
    }
    let shift: u64 = if exponent == 0 {
        1074
    } else {
        1075 - exponent
    };
    assert(shift == -power);
    let mut power_of_two: u64 = 1;
    let mut k: u64 = 0;
    while k < shift
        invariant
            k <= shift,
            digits < 2 * FRACTION_SPAN,
            digits == significand(bits),
            shift == -scale(bits),
            scale(bits) < 0,
            power_of_two == two_to(k as int),
            power_of_two <= 4 * digits + 1,
        decreases shift - k,
    {
        power_of_two = power_of_two * 2;
        k += 1;
        if power_of_two > 4 * digits + 1 {
            proof {
                lemma_two_to_rises(k as int, shift as int);
                let wanted = two_to(shift as int);
                assert((2 * digits + wanted) / (2 * wanted) == 0) by (nonlinear_arith)
                    requires
                        wanted > 4 * digits + 1,
                        digits >= 0,
                ;
            }
            return 0;
        }
    }
    let magnitude: u64 = (2 * digits + power_of_two) / (2 * power_of_two);
    if minus {
        if magnitude > 0x8000_0000 {
            i32::MIN
        } else {
            (0 - magnitude as i64) as i32
        }
    } else {
        if magnitude > 0x7fff_ffff {
            i32::MAX
        } else {
            magnitude as i32
        }
    }
}

} // verus!
