//! Double-precision patterns as single-precision patterns.
//!
//! Both formats hold a sign, an exponent and a fraction, from the highest bit to
//! the lowest. Here only numbers without a sign occur.

use crate::metric::{is_finite, is_signed, INFINITY_F32};
use vstd::arithmetic::power2::{
    lemma2_to64, lemma2_to64_rest, lemma_pow2_adds, lemma_pow2_pos, lemma_pow2_strictly_increases,
    lemma_pow2_unfold, pow2,
};
use vstd::math::abs;
use vstd::prelude::*;

verus! {

/// What one of the exponent counts for in a double-precision pattern.
pub const EXPONENT_F64: u64 = 0x10_0000_0000_0000;

/// What one of the exponent counts for in a single-precision pattern.
pub const EXPONENT_F32: u32 = 0x80_0000;

/// How many double-precision patterns there are to a single-precision pattern with
/// the same exponent.
pub const PATTERNS_PER_F32: u64 = 0x2000_0000;

/// The number that a double-precision pattern stands for, counted in the smallest
/// positive number of that format.
pub open spec fn value_f64(bits: u64) -> nat {
    let exponent = bits / EXPONENT_F64;
    let fraction = bits % EXPONENT_F64;
    if exponent == 0 {
        fraction as nat
    } else {
        ((EXPONENT_F64 + fraction) as nat) * pow2((exponent - 1) as nat)
    }
}

/// The number that a single-precision pattern stands for, counted in the smallest
/// positive number of the double-precision format. Infinity counts as the number
/// that would follow the largest one.
pub open spec fn value_f32(bits: u32) -> nat {
    let exponent = bits / EXPONENT_F32;
    let fraction = bits % EXPONENT_F32;
    if exponent == 0 {
        (fraction as nat) * pow2(925)
    } else {
        ((EXPONENT_F32 + fraction) as nat) * pow2((exponent + 924) as nat)
    }
}

/// The single-precision pattern is the one nearest to the double-precision number;
/// of two that are equally near it is the even one.
pub open spec fn is_nearest(narrow: u32, wide: u64) -> bool {
    &&& narrow <= INFINITY_F32
    &&& narrow < INFINITY_F32 ==> {
        let doubled_middle = value_f32(narrow) + value_f32((narrow + 1) as u32);
        2 * value_f64(wide) < doubled_middle || 2 * value_f64(wide) == doubled_middle && narrow % 2
            == 0
    }
    &&& narrow > 0 ==> {
        let doubled_middle = value_f32((narrow - 1) as u32) + value_f32(narrow);
        2 * value_f64(wide) > doubled_middle || 2 * value_f64(wide) == doubled_middle && narrow % 2
            == 0
    }
}

/// The distance between a single-precision number and the next.
spec fn step_f32(bits: u32) -> nat {
    let exponent = bits / EXPONENT_F32;
    if exponent == 0 {
        pow2(925)
    } else {
        pow2((exponent + 924) as nat)
    }
}

proof fn lemma_step(bits: u32)
    requires
        bits < INFINITY_F32,
    ensures
        value_f32((bits + 1) as u32) == value_f32(bits) + step_f32(bits),
        step_f32(bits) > 0,
{
    let next = (bits + 1) as u32;
    let exponent = bits / EXPONENT_F32;
    let fraction = bits % EXPONENT_F32;
    let step = step_f32(bits);
    lemma_pow2_pos(925);
    lemma_pow2_pos((exponent + 924) as nat);
    if fraction + 1 < EXPONENT_F32 {
        assert(next / EXPONENT_F32 == exponent && next % EXPONENT_F32 == fraction + 1);
        if exponent == 0 {
            assert((fraction + 1) * step == fraction * step + step) by (nonlinear_arith);
        } else {
            let significand = EXPONENT_F32 + fraction;
            assert((significand + 1) * step == significand * step + step) by (nonlinear_arith);
        }
    } else {
        assert(next / EXPONENT_F32 == exponent + 1 && next % EXPONENT_F32 == 0);
        let limit = EXPONENT_F32 as int;
        if exponent == 0 {
            assert(limit * step == (limit - 1) * step + step) by (nonlinear_arith);
        } else {
            lemma_pow2_unfold((exponent + 925) as nat);
            assert(limit * (2 * step) == (2 * limit - 1) * step + step) by (nonlinear_arith);
        }
    }
}

proof fn lemma_increasing(a: u32, b: u32)
    requires
        a < b <= INFINITY_F32,
    ensures
        value_f32(a) < value_f32(b),
    decreases b - a,
{
    let before = (b - 1) as u32;
    lemma_step(before);
    if a < before {
        lemma_increasing(a, before);
    }
}

/// No number has two nearest patterns.
pub proof fn law_one_nearest_pattern(a: u32, b: u32, wide: u64)
    requires
        is_nearest(a, wide),
        is_nearest(b, wide),
    ensures
        a == b,
{
    if a + 1 < b {
        lemma_increasing(a, (b - 1) as u32);
        lemma_increasing((a + 1) as u32, b);
    } else if b + 1 < a {
        lemma_increasing(b, (a - 1) as u32);
        lemma_increasing((b + 1) as u32, a);
    }
}

/// The smaller double-precision patterns stand for themselves, and one more of the
/// exponent doubles a number.
pub proof fn law_double_precision_numbers(bits: u64)
    requires
        bits <= 0x7fef_ffff_ffff_ffff,
    ensures
        bits < 0x20_0000_0000_0000 ==> value_f64(bits) == bits,
        bits >= 0x10_0000_0000_0000 ==> value_f64((bits + 0x10_0000_0000_0000) as u64) == 2
            * value_f64(bits),
{
    let exponent = bits / EXPONENT_F64;
    let fraction = bits % EXPONENT_F64;
    lemma2_to64();
    if EXPONENT_F64 <= bits < 2 * EXPONENT_F64 {
        assert(exponent == 1 && bits == EXPONENT_F64 + fraction);
        assert((EXPONENT_F64 + fraction) * pow2(0) == EXPONENT_F64 + fraction)
            by (nonlinear_arith)
            requires
                pow2(0) == 1,
        ;
    }
    if bits >= EXPONENT_F64 {
        let next = (bits + EXPONENT_F64) as u64;
        assert(next / EXPONENT_F64 == exponent + 1 && next % EXPONENT_F64 == fraction);
        lemma_pow2_unfold(exponent as nat);
        let significand = EXPONENT_F64 + fraction;
        let scale = pow2((exponent - 1) as nat) as int;
        assert(significand * (2 * scale) == 2 * (significand * scale)) by (nonlinear_arith);
    }
}

/// The smaller single-precision patterns count in equal steps, and one more of the
/// exponent doubles a number.
pub proof fn law_single_precision_numbers(bits: u32)
    requires
        bits <= 0x7f7f_ffff,
    ensures
        bits < 0x100_0000 ==> value_f32(bits) == bits * value_f32(1),
        bits >= 0x80_0000 ==> value_f32((bits + 0x80_0000) as u32) == 2 * value_f32(bits),
{
    let exponent = bits / EXPONENT_F32;
    let fraction = bits % EXPONENT_F32;
    if bits >= EXPONENT_F32 {
        let next = (bits + EXPONENT_F32) as u32;
        assert(next / EXPONENT_F32 == exponent + 1 && next % EXPONENT_F32 == fraction);
        lemma_pow2_unfold((exponent + 925) as nat);
        let significand = EXPONENT_F32 + fraction;
        let scale = pow2((exponent + 924) as nat) as int;
        assert(significand * (2 * scale) == 2 * (significand * scale)) by (nonlinear_arith);
    }
}

/// A single-precision number is the double-precision number whose exponent is 896
/// more and whose fraction has the same leading digits. The least one is two to the
/// power of -149 in either format.
pub proof fn law_formats_agree(bits: u32)
    requires
        0x80_0000 <= bits <= 0x7f80_0000,
    ensures
        value_f32(bits) == value_f64((bits * 0x2000_0000 + 0x3800_0000_0000_0000) as u64),
        value_f32(1) == value_f64(0x36a0_0000_0000_0000),
{
    let wide = (bits * 0x2000_0000 + 0x3800_0000_0000_0000) as u64;
    let exponent = bits / EXPONENT_F32;
    let fraction = bits % EXPONENT_F32;
    assert(wide / EXPONENT_F64 == exponent + 896);
    assert(wide % EXPONENT_F64 == fraction * 0x2000_0000);
    lemma2_to64();
    lemma2_to64_rest();
    lemma_pow2_adds(29, (exponent + 895) as nat);
    assert(29 + (exponent + 895) == exponent + 924);
    let significand = EXPONENT_F32 + fraction;
    let scale = pow2((exponent + 895) as nat) as int;
    assert((significand * 0x2000_0000) * scale == significand * (0x2000_0000 * scale))
        by (nonlinear_arith);
    lemma_pow2_adds(52, 873);
    let least: u64 = 0x36a0_0000_0000_0000;
    assert(least / EXPONENT_F64 == 874 && least % EXPONENT_F64 == 0);
    assert(value_f64(least) == EXPONENT_F64 * pow2(873));
    assert(value_f32(1) == 1 * pow2(925));
}

/// A number that both formats hold stays the same number.
pub proof fn law_exact_number_is_kept(narrow: u32, wide: u64)
    requires
        narrow <= 0x7f80_0000,
        value_f32(narrow) == value_f64(wide),
    ensures
        is_nearest(narrow, wide),
{
    if narrow < INFINITY_F32 {
        lemma_increasing(narrow, (narrow + 1) as u32);
    }
    if narrow > 0 {
        lemma_increasing((narrow - 1) as u32, narrow);
    }
}

/// No single-precision number is nearer to a number than the one it is narrowed to,
/// and where another is as near, the even pattern was taken.
pub proof fn law_no_other_is_nearer(narrow: u32, other: u32, wide: u64)
    requires
        is_nearest(narrow, wide),
        other <= 0x7f80_0000,
        other != narrow,
    ensures
        narrow <= 0x7f80_0000,
        abs(value_f32(narrow) - value_f64(wide)) <= abs(value_f32(other) - value_f64(wide)),
        abs(value_f32(narrow) - value_f64(wide)) == abs(value_f32(other) - value_f64(wide))
            ==> narrow % 2 == 0,
{
    if narrow < other {
        lemma_increasing(narrow, other);
        if narrow + 1 < other {
            lemma_increasing((narrow + 1) as u32, other);
        }
    } else {
        lemma_increasing(other, narrow);
        if other + 1 < narrow {
            lemma_increasing(other, (narrow - 1) as u32);
        }
    }
}

/// Narrowing keeps the order of numbers.
pub proof fn law_narrowing_keeps_order(narrow_a: u32, narrow_b: u32, wide_a: u64, wide_b: u64)
    requires
        is_nearest(narrow_a, wide_a),
        is_nearest(narrow_b, wide_b),
        value_f64(wide_a) <= value_f64(wide_b),
    ensures
        narrow_a <= narrow_b,
{
    if narrow_a > narrow_b {
        lemma_increasing(narrow_b, narrow_a);
        if narrow_a > narrow_b + 1 {
            lemma_increasing((narrow_b + 1) as u32, narrow_a);
            lemma_increasing(narrow_b, (narrow_a - 1) as u32);
        }
    }
}

/// Larger single-precision patterns stand for larger numbers.
pub proof fn law_patterns_are_ordered(a: u32, b: u32)
    requires
        a <= 0x7f80_0000,
        b <= 0x7f80_0000,
    ensures
        a <= b <==> value_f32(a) <= value_f32(b),
{
    if a < b {
        lemma_increasing(a, b);
    } else if b < a {
        lemma_increasing(b, a);
    }
}

/// Zero and one are narrowed to zero and one.
pub proof fn lemma_zero_and_one()
    ensures
        is_nearest(0, 0),
        is_nearest(0x3f80_0000, 0x3ff0_0000_0000_0000),
{
    assert(value_f32(0) == 0) by (nonlinear_arith)
        requires
            value_f32(0) == 0 * pow2(925),
    ;
    law_exact_number_is_kept(0, 0);
    law_formats_agree(0x3f80_0000);
    law_exact_number_is_kept(0x3f80_0000, 0x3ff0_0000_0000_0000);
}

/// Rounds a number that lies `rest` parts of `unit` above the pattern `whole`.
fn round(whole: u32, rest: u64, unit: u64) -> (r: u32)
    requires
        whole < INFINITY_F32,
        rest < unit <= EXPONENT_F64 * 2,
    ensures
        r == whole || r == whole + 1,
        r == whole <==> 2 * rest < unit || 2 * rest == unit && whole % 2 == 0,
{
    if 2 * rest < unit || 2 * rest == unit && whole % 2 == 0 {
        whole
    } else {
        whole + 1
    }
}

proof fn lemma_rounded(wide: u64, whole: u32, rest: nat, unit: nat, scale: nat, r: u32)
    requires
        whole < INFINITY_F32,
        rest < unit,
        scale > 0,
        value_f64(wide) == value_f32(whole) + rest * scale,
        value_f32((whole + 1) as u32) == value_f32(whole) + unit * scale,
        r == whole || r == whole + 1,
        r == whole <==> 2 * rest < unit || 2 * rest == unit && whole % 2 == 0,
    ensures
        is_nearest(r, wide),
{
    assert(rest * scale < unit * scale) by (nonlinear_arith)
        requires
            rest < unit,
            scale > 0,
    ;
    assert(2 * rest < unit ==> 2 * (rest * scale) < unit * scale) by (nonlinear_arith)
        requires
            scale > 0,
    ;
    assert(2 * rest > unit ==> 2 * (rest * scale) > unit * scale) by (nonlinear_arith)
        requires
            scale > 0,
    ;
    assert(2 * rest == unit ==> 2 * (rest * scale) == unit * scale) by (nonlinear_arith);
    if r == whole {
        if whole > 0 {
            lemma_increasing((whole - 1) as u32, whole);
        }
    } else {
        if r < INFINITY_F32 {
            lemma_increasing(r, (r + 1) as u32);
        }
    }
}

/// The single-precision pattern nearest to a number without a sign, which is that
/// of infinity where the number is too large for the format.
pub fn narrow(wide: u64) -> (r: u32)
    requires
        is_finite(wide),
        !is_signed(wide),
    ensures
        is_nearest(r, wide),
{
    let exponent: u64 = wide / EXPONENT_F64;
    let fraction: u64 = wide % EXPONENT_F64;
    if exponent >= 1151 {
        proof {
            lemma_too_large(wide);
        }
        INFINITY_F32
    } else if exponent >= 897 {
        let patterns: u64 = wide / PATTERNS_PER_F32 - 0x1_c000_0000;
        let whole: u32 = patterns as u32;
        let rest: u64 = wide % PATTERNS_PER_F32;
        let r: u32 = round(whole, rest, PATTERNS_PER_F32);
        proof {
            lemma_normal(wide, whole, rest);
            lemma_pow2_pos((exponent - 1) as nat);
            lemma_rounded(
                wide,
                whole,
                rest as nat,
                PATTERNS_PER_F32 as nat,
                pow2((exponent - 1) as nat),
                r,
            );
        }
        r
    } else if exponent <= 872 {
        proof {
            lemma_too_small(wide);
        }
        0
    } else {
        let places: u64 = 926 - exponent;
        let unit: u64 = 1u64 << places;
        proof {
            vstd::bits::lemma_u64_pow2_no_overflow(places as nat);
            vstd::bits::lemma_u64_shl_is_mul(1, places);
            lemma_pow2_pos(places as nat);
            lemma2_to64();
            lemma2_to64_rest();
            if places < 53 {
                lemma_pow2_strictly_increases(places as nat, 53);
            }
            if places > 30 {
                lemma_pow2_strictly_increases(30, places as nat);
            }
        }
        let significand: u64 = EXPONENT_F64 + fraction;
        proof {
            assert(significand / unit <= significand / 0x4000_0000) by (nonlinear_arith)
                requires
                    unit >= 0x4000_0000,
                    significand >= 0,
            ;
        }
        let whole: u32 = (significand / unit) as u32;
        let rest: u64 = significand % unit;
        let r: u32 = round(whole, rest, unit);
        proof {
            lemma_subnormal(wide, whole, rest, unit);
            lemma_pow2_pos((exponent - 1) as nat);
            lemma_rounded(
                wide,
                whole,
                rest as nat,
                unit as nat,
                pow2((exponent - 1) as nat),
                r,
            );
        }
        r
    }
}

proof fn lemma_too_large(wide: u64)
    requires
        is_finite(wide),
        !is_signed(wide),
        wide / EXPONENT_F64 >= 1151,
    ensures
        is_nearest(INFINITY_F32, wide),
{
    let exponent = wide / EXPONENT_F64;
    let fraction = wide % EXPONENT_F64;
    let scale = pow2((exponent - 1) as nat);
    if exponent > 1151 {
        lemma_pow2_strictly_increases(1150, (exponent - 1) as nat);
    }
    lemma_pow2_adds(29, 1150);
    lemma2_to64();
    let least = pow2(1150);
    assert((EXPONENT_F64 + fraction) * scale >= EXPONENT_F64 * least) by (nonlinear_arith)
        requires
            scale >= least,
            fraction >= 0,
            least >= 0,
    ;
    assert(INFINITY_F32 / EXPONENT_F32 == 255 && INFINITY_F32 % EXPONENT_F32 == 0);
    assert(value_f32(INFINITY_F32) == EXPONENT_F32 * pow2(1179));
    assert(EXPONENT_F32 * (0x2000_0000 * least) == EXPONENT_F64 * least) by (nonlinear_arith);
    lemma_increasing((INFINITY_F32 - 1) as u32, INFINITY_F32);
}

proof fn lemma_too_small(wide: u64)
    requires
        is_finite(wide),
        !is_signed(wide),
        wide / EXPONENT_F64 <= 872,
    ensures
        is_nearest(0, wide),
{
    let exponent = wide / EXPONENT_F64;
    let fraction = wide % EXPONENT_F64;
    lemma2_to64();
    lemma2_to64_rest();
    lemma_pow2_adds(53, 871);
    lemma_pow2_unfold(925);
    lemma_pow2_pos(871);
    let most = pow2(871);
    lemma_step(0);
    assert(value_f32(0) == 0) by (nonlinear_arith)
        requires
            value_f32(0) == 0 * pow2(925),
    ;
    if exponent == 0 {
        assert(fraction < 0x20_0000_0000_0000 * most) by (nonlinear_arith)
            requires
                fraction < 0x10_0000_0000_0000,
                most > 0,
        ;
    } else {
        let scale = pow2((exponent - 1) as nat);
        if exponent < 872 {
            lemma_pow2_strictly_increases((exponent - 1) as nat, 871);
        }
        assert((EXPONENT_F64 + fraction) * scale < 0x20_0000_0000_0000 * most)
            by (nonlinear_arith)
            requires
                scale <= most,
                most > 0,
                0 <= EXPONENT_F64 + fraction < 0x20_0000_0000_0000,
        ;
    }
}

proof fn lemma_normal(wide: u64, whole: u32, rest: u64)
    requires
        897 <= wide / EXPONENT_F64 <= 1150,
        whole == wide / PATTERNS_PER_F32 - 0x1_c000_0000,
        rest == wide % PATTERNS_PER_F32,
    ensures
        whole < INFINITY_F32,
        value_f64(wide) == value_f32(whole) + rest * pow2(
            ((wide / EXPONENT_F64) - 1) as nat,
        ),
        value_f32((whole + 1) as u32) == value_f32(whole) + PATTERNS_PER_F32 * pow2(
            ((wide / EXPONENT_F64) - 1) as nat,
        ),
{
    let exponent = wide / EXPONENT_F64;
    let fraction = wide % EXPONENT_F64;
    let scale = pow2((exponent - 1) as nat);
    assert(whole / EXPONENT_F32 == exponent - 896);
    assert(whole % EXPONENT_F32 == fraction / PATTERNS_PER_F32);
    let high = (whole % EXPONENT_F32) as int;
    assert(fraction == high * PATTERNS_PER_F32 + rest);
    lemma_step(whole);
    lemma2_to64();
    lemma_pow2_adds(29, (exponent - 1) as nat);
    assert(exponent - 896 + 924 == 29 + (exponent - 1));
    let step = step_f32(whole);
    assert(step == PATTERNS_PER_F32 * scale);
    let significand = EXPONENT_F32 + high;
    assert(EXPONENT_F64 + fraction == significand * PATTERNS_PER_F32 + rest);
    let unit = PATTERNS_PER_F32 as int;
    assert((significand * unit + rest) * scale == significand * (unit * scale) + rest * scale)
        by (nonlinear_arith);
}

proof fn lemma_subnormal(wide: u64, whole: u32, rest: u64, unit: u64)
    requires
        873 <= wide / EXPONENT_F64 <= 896,
        unit == pow2((926 - wide / EXPONENT_F64) as nat),
        whole == (EXPONENT_F64 + wide % EXPONENT_F64) / unit as int,
        rest == (EXPONENT_F64 + wide % EXPONENT_F64) % unit as int,
        whole < EXPONENT_F32,
    ensures
        value_f64(wide) == value_f32(whole) + rest * pow2(
            ((wide / EXPONENT_F64) - 1) as nat,
        ),
        value_f32((whole + 1) as u32) == value_f32(whole) + unit * pow2(
            ((wide / EXPONENT_F64) - 1) as nat,
        ),
{
    let exponent = wide / EXPONENT_F64;
    let significand = EXPONENT_F64 + wide % EXPONENT_F64;
    let scale = pow2((exponent - 1) as nat);
    lemma_pow2_adds((926 - exponent) as nat, (exponent - 1) as nat);
    assert((926 - exponent) + (exponent - 1) == 925);
    assert(pow2(925) == unit * scale);
    lemma_pow2_pos((926 - exponent) as nat);
    vstd::arithmetic::div_mod::lemma_fundamental_div_mod(significand, unit as int);
    assert(whole / EXPONENT_F32 == 0 && whole % EXPONENT_F32 == whole);
    lemma_step(whole);
    assert((unit * whole + rest) * scale == whole * (unit * scale) + rest * scale)
        by (nonlinear_arith);
}

} // verus!
