//! Fixed-point arithmetic.
//!
//! Every quantity is a decimal with nine places, held as an integer
//! count of billionths. Quantities of usage (tokens, requests, dollars) are `i128`;
//! points in time and window widths, in seconds, are `i64`. Sums of quantities
//! saturate at the ends of `i128` instead of wrapping.

use vstd::prelude::*;

verus! {

/// One whole unit of a quantity: one token, one request or one dollar.
pub const UNIT: i128 = 1_000_000_000;

/// One second.
pub const SECOND: i64 = 1_000_000_000;

/// The slack that comparisons against a cap allow: one billionth of a unit.
pub const SLACK: i128 = 1;

/// `x`, brought into the range of an `i128`.
pub open spec fn sat(x: int) -> int {
    if x > i128::MAX {
        i128::MAX as int
    } else if x < i128::MIN {
        i128::MIN as int
    } else {
        x
    }
}

/// The sum of two quantities, saturating.
pub fn plus(a: i128, b: i128) -> (sum: i128)
    ensures
        sum == sat(a + b),
{
    match a.checked_add(b) {
        Some(sum) => sum,
        None => if a > 0 {
            i128::MAX
        } else {
            i128::MIN
        },
    }
}

/// The difference of two quantities, saturating.
pub fn minus(a: i128, b: i128) -> (difference: i128)
    ensures
        difference == sat(a - b),
{
    match a.checked_sub(b) {
        Some(difference) => difference,
        None => if a >= 0 {
            i128::MAX
        } else {
            i128::MIN
        },
    }
}

/// The fraction `part / whole` of `value`, rounded down.
pub open spec fn share(value: int, part: int, whole: int) -> int {
    (value * part) / whole
}

/// Takes the fraction `part / whole` of a quantity, rounded down.
pub fn prorate(value: i128, part: i64, whole: i64) -> (result: i128)
    requires
        0 <= part <= whole,
        0 < whole,
    ensures
        result == share(value as int, part as int, whole as int),
{
    let ghost v: int = value as int;
    let ghost p: int = part as int;
    let ghost w: int = whole as int;
    proof {
        vstd::arithmetic::div_mod::lemma_fundamental_div_mod(v, w);
        assert(i128::MIN <= v / w <= i128::MAX && 0 <= v % w < w) by (nonlinear_arith)
            requires
                i128::MIN <= v <= i128::MAX,
                0 < w,
        ;
        assert(v < 0 ==> v / w < 0) by (nonlinear_arith)
            requires
                0 < w,
        ;
    }
    let floor: i128 = value.checked_div_euclid(whole as i128).unwrap();
    let above: i128 = value.checked_rem_euclid(whole as i128).unwrap();
    // Split the value toward zero, so that neither product leaves the range.
    let quotient: i128 = if value < 0 {
        floor + 1
    } else {
        floor
    };
    let rest: i128 = if value < 0 {
        above - whole as i128
    } else {
        above
    };
    proof {
        let (q, r) = (quotient as int, rest as int);
        assert(v == w * q + r) by (nonlinear_arith)
            requires
                v == w * floor + above,
                (q == floor && r == above) || (q == floor + 1 && r == above - w),
        ;
        lemma_prorate_parts(v, p, w, q, r);
    }
    quotient * (part as i128) + (rest * (part as i128)).checked_div_euclid(whole as i128).unwrap()
}

/// Splitting a value into a multiple of `w` and a rest, both on the same side of
/// zero, lets its share be computed without leaving the range of `i128`.
proof fn lemma_prorate_parts(v: int, p: int, w: int, q: int, r: int)
    requires
        i128::MIN <= v <= i128::MAX,
        0 <= p <= w,
        0 < w <= i64::MAX,
        v == w * q + r,
        v >= 0 ==> q >= 0 && 0 <= r < w,
        v < 0 ==> q <= 0 && -w <= r < 0,
    ensures
        i128::MIN <= q * p <= i128::MAX,
        i128::MIN <= r * p <= i128::MAX,
        i128::MIN <= r * p / w <= i128::MAX,
        i128::MIN <= q * p + r * p / w <= i128::MAX,
        q * p + r * p / w == share(v, p, w),
{
    assert(v * p == (q * p) * w + r * p) by (nonlinear_arith)
        requires
            v == w * q + r,
    ;
    vstd::arithmetic::div_mod::lemma_hoist_over_denominator(r * p, q * p, w as nat);
    assert(i128::MIN <= r * p <= i128::MAX && (r >= 0 ==> 0 <= r * p / w <= r) && (r < 0 ==> r <= r
        * p / w <= 0)) by (nonlinear_arith)
        requires
            -w <= r < w <= i64::MAX,
            0 <= p <= w,
            0 < w,
    ;
    assert((q >= 0 ==> 0 <= q * p <= w * q) && (q <= 0 ==> w * q <= q * p <= 0))
        by (nonlinear_arith)
        requires
            0 <= p <= w,
    ;
}

} // verus!
