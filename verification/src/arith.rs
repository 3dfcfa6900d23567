//! Fixed-point arithmetic of log-likelihood ratios.
//!
//! A ratio is an `i64`, with `i64::MAX` standing for infinity. Sums and products are formed
//! exactly in `i128` and then brought back into range.

use vstd::prelude::*;

verus! {

/// The largest magnitude of a gain: a scale, a damping factor or a memory strength.
pub const GAIN_LIMIT: i64 = 2305843009213693952;

/// The integer quotient rounded towards zero.
pub open spec fn trunc_div(a: int, b: int) -> int {
    if a >= 0 {
        a / b
    } else {
        -((-a) / b)
    }
}

/// `x` moved to the nearest value of magnitude at most `limit`.
pub open spec fn bound(x: int, limit: int) -> int {
    if x < -limit {
        -limit
    } else if x > limit {
        limit
    } else {
        x
    }
}

/// The magnitude of `x`.
pub open spec fn abs(x: int) -> int {
    if x < 0 {
        -x
    } else {
        x
    }
}

/// `x`, or the largest number that can be held if it exceeds that.
pub open spec fn capped(x: int) -> int {
    if x > u128::MAX {
        u128::MAX as int
    } else {
        x
    }
}

/// The square of the distance of `a` and `b`.
pub open spec fn squared_distance(a: int, b: int) -> int {
    (a - b) * (a - b)
}

/// The sum of `s`.
pub open spec fn sum(s: Seq<i64>) -> int
    decreases s.len(),
{
    if s.len() == 0 {
        0
    } else {
        sum(s.drop_last()) + s.last()
    }
}

/// The least magnitude in `s`, or `i64::MAX` if `s` is empty.
pub open spec fn min_abs(s: Seq<i64>) -> int
    decreases s.len(),
{
    if s.len() == 0 {
        i64::MAX as int
    } else if abs(s.last() as int) <= min_abs(s.drop_last()) {
        abs(s.last() as int)
    } else {
        min_abs(s.drop_last())
    }
}

/// Whether `s` holds an odd number of negative values.
pub open spec fn neg_parity(s: Seq<i64>) -> bool
    decreases s.len(),
{
    if s.len() == 0 {
        false
    } else {
        neg_parity(s.drop_last()) != (s.last() < 0)
    }
}

/// `prior` and `previous` mixed with weights `one - gamma` and `gamma`, as fixed-point
/// numbers of unit `one`. Each ratio is divided by the unit before it is multiplied.
pub open spec fn mix(prior: int, previous: int, gamma: int, one: int) -> int {
    trunc_div(prior, one) * (one - gamma) + trunc_div(previous, one) * gamma
}

/// `prior` and `previous` mixed with weights `one - gamma` and `gamma`, as fixed-point
/// numbers of unit `one`.
pub open spec fn blend(prior: int, previous: int, gamma: int, one: int) -> int {
    trunc_div(prior * (one - gamma) + previous * gamma, one)
}

/// Clamps `value` to magnitude `max_val`.
pub fn bound_value_magnitude(value: i64, max_val: i64) -> (r: i64)
    requires
        max_val >= 0,
    ensures
        r == bound(value as int, max_val as int),
{
    if value < -max_val {
        -max_val
    } else if value > max_val {
        max_val
    } else {
        value
    }
}

/// Brings an exact result back into range.
pub fn narrow(value: i128, max_val: i64) -> (r: i64)
    requires
        max_val >= 0,
    ensures
        r == bound(value as int, max_val as int),
{
    let limit: i128 = max_val as i128;
    if value < -limit {
        -max_val
    } else if value > limit {
        max_val
    } else {
        value as i64
    }
}

/// Division rounded towards zero.
pub fn divide(a: i128, b: i64) -> (r: i128)
    requires
        a > i128::MIN,
        b > 0,
    ensures
        r == trunc_div(a as int, b as int),
        abs(r as int) <= abs(a as int),
{
    proof {
        lemma_trunc_div_bound(a as int, b as int);
    }
    if a >= 0 {
        a / (b as i128)
    } else {
        -((-a) / (b as i128))
    }
}

/// Division towards zero does not increase the magnitude.
pub proof fn lemma_trunc_div_bound(a: int, b: int)
    requires
        b > 0,
    ensures
        abs(trunc_div(a, b)) <= abs(a),
        a >= 0 ==> trunc_div(a, b) >= 0,
        a <= 0 ==> trunc_div(a, b) <= 0,
{
    let m = abs(a);
    assert(0 <= m / b <= m) by (nonlinear_arith)
        requires
            m >= 0,
            b > 0,
    ;
}

/// A share of a value is no longer than the value.
pub proof fn lemma_shrunk_bound(factor: int, value: int, one: int)
    requires
        0 <= factor <= one,
        one >= 1,
    ensures
        abs(trunc_div(factor * value, one)) <= abs(value),
{
    let m = abs(factor * value);
    assert(m <= one * abs(value)) by (nonlinear_arith)
        requires
            m == abs(factor * value),
            0 <= factor <= one,
    ;
    assert(m / one <= abs(value)) by (nonlinear_arith)
        requires
            0 <= m <= one * abs(value),
            one >= 1,
    ;
    assert(0 <= m / one) by (nonlinear_arith)
        requires
            m >= 0,
            one >= 1,
    ;
}

/// The magnitude of a ratio.
pub fn magnitude(x: i64) -> (r: i64)
    requires
        x > i64::MIN,
    ensures
        r == abs(x as int),
{
    if x < 0 {
        -x
    } else {
        x
    }
}

/// Squares are not negative.
pub proof fn lemma_squared_distance(a: int, b: int)
    ensures
        squared_distance(a, b) >= 0,
{
    assert((a - b) * (a - b) >= 0) by (nonlinear_arith);
}

/// Adds the square of the distance of two numbers, which are less than 2^64 apart.
pub fn add_squared_distance(total: u128, a: i128, b: i128) -> (r: u128)
    requires
        -0x1_0000_0000_0000_0000 < a - b < 0x1_0000_0000_0000_0000,
    ensures
        r == capped(total + squared_distance(a as int, b as int)),
{
    let distance: u128 = if a >= b {
        (a - b) as u128
    } else {
        (b - a) as u128
    };
    proof {
        assert(distance * distance == squared_distance(a as int, b as int)) by (nonlinear_arith)
            requires
                distance == a - b || distance == b - a,
        ;
        assert(0 <= distance * distance <= u128::MAX) by (nonlinear_arith)
            requires
                0 <= distance <= 0xffff_ffff_ffff_ffff,
        ;
    }
    let square: u128 = distance * distance;
    if square > u128::MAX - total {
        u128::MAX
    } else {
        total + square
    }
}

/// Mixes two ratios by a memory strength.
pub fn mix_ratios(prior: i64, previous: i64, gamma: i64, one: i64) -> (r: i128)
    requires
        1 <= one <= GAIN_LIMIT,
        -GAIN_LIMIT <= gamma <= GAIN_LIMIT,
    ensures
        r == mix(prior as int, previous as int, gamma as int, one as int),
        abs(r as int) <= 0x8000_0000_0000_0000 * 0x6000_0000_0000_0000,
{
    let a: i128 = divide(prior as i128, one);
    let b: i128 = divide(previous as i128, one);
    let w: i128 = (one as i128) - (gamma as i128);
    let g: i128 = gamma as i128;
    proof {
        lemma_product_bound(a as int, w as int, 0x8000_0000_0000_0000, 0x4000_0000_0000_0000);
        lemma_product_bound(b as int, g as int, 0x8000_0000_0000_0000, 0x2000_0000_0000_0000);
    }
    a * w + b * g
}

/// Mixes two ratios by a memory strength.
pub fn blend_ratios(prior: i64, previous: i64, gamma: i64, one: i64) -> (r: i128)
    requires
        1 <= one <= GAIN_LIMIT,
        -GAIN_LIMIT <= gamma <= GAIN_LIMIT,
    ensures
        r == blend(prior as int, previous as int, gamma as int, one as int),
        abs(r as int) <= 0x8000_0000_0000_0000 * 0x6000_0000_0000_0000,
{
    let a: i128 = prior as i128;
    let b: i128 = previous as i128;
    let w: i128 = (one as i128) - (gamma as i128);
    let g: i128 = gamma as i128;
    proof {
        lemma_product_bound(a as int, w as int, 0x8000_0000_0000_0000, 0x4000_0000_0000_0000);
        lemma_product_bound(b as int, g as int, 0x8000_0000_0000_0000, 0x2000_0000_0000_0000);
    }
    divide(a * w + b * g, one)
}

/// A product is bounded by the product of the bounds.
pub proof fn lemma_product_bound(a: int, b: int, x: int, y: int)
    requires
        abs(a) <= x,
        abs(b) <= y,
    ensures
        abs(a * b) <= x * y,
{
    assert(abs(a * b) == abs(a) * abs(b)) by (nonlinear_arith);
    assert(abs(a) * abs(b) <= x * y) by (nonlinear_arith)
        requires
            0 <= abs(a) <= x,
            0 <= abs(b) <= y,
    ;
}

/// Every sum is bounded by its length.
pub proof fn lemma_sum_bound(s: Seq<i64>)
    ensures
        abs(sum(s)) <= s.len() * 0x8000_0000_0000_0000,
    decreases s.len(),
{
    if s.len() > 0 {
        lemma_sum_bound(s.drop_last());
    }
}

/// Appending a value adds it to the sum.
pub proof fn lemma_sum_push(s: Seq<i64>, x: i64)
    ensures
        sum(s.push(x)) == sum(s) + x,
{
    assert(s.push(x).drop_last() =~= s);
}

/// Appending a value to a row, seen by the folds of the check update.
pub proof fn lemma_fold_push(s: Seq<i64>, x: i64)
    ensures
        min_abs(s.push(x)) == (if abs(x as int) <= min_abs(s) {
            abs(x as int)
        } else {
            min_abs(s)
        }),
        neg_parity(s.push(x)) == (neg_parity(s) != (x < 0)),
{
    assert(s.push(x).drop_last() =~= s);
}

/// The folds of a row without its last value, or without an earlier one.
pub proof fn lemma_remove_push(s: Seq<i64>, x: i64, k: int)
    requires
        0 <= k <= s.len(),
    ensures
        k == s.len() ==> s.push(x).remove(k) == s,
        k < s.len() ==> s.push(x).remove(k) == s.remove(k).push(x),
{
    if k == s.len() {
        assert(s.push(x).remove(k) =~= s);
    } else {
        assert(s.push(x).remove(k) =~= s.remove(k).push(x));
    }
}

/// Removing a value takes its sign out of the parity.
pub proof fn lemma_parity_remove(s: Seq<i64>, k: int)
    requires
        0 <= k < s.len(),
    ensures
        neg_parity(s.remove(k)) == (neg_parity(s) != (s[k] < 0)),
    decreases s.len(),
{
    let t = s.drop_last();
    assert(s =~= t.push(s.last()));
    lemma_remove_push(t, s.last(), k);
    if k < t.len() {
        lemma_parity_remove(t, k);
        lemma_fold_push(t.remove(k), s.last());
    }
}

/// The least magnitude is a magnitude.
pub proof fn lemma_min_abs_range(s: Seq<i64>)
    requires
        forall|i: int| 0 <= i < s.len() ==> s[i] > i64::MIN,
    ensures
        0 <= min_abs(s) <= i64::MAX,
    decreases s.len(),
{
    if s.len() > 0 {
        lemma_min_abs_range(s.drop_last());
    }
}

} // verus!
