//! How good a member of a population is.

use vstd::prelude::*;

use crate::arith::{abs, bound, divide, lemma_product_bound, magnitude, trunc_div, GAIN_LIMIT};
use crate::matrix::Bit;

verus! {

/// The largest confidence that counts.
pub const CONFIDENCE_LIMIT: i128 = 39614081257132168796771975168;

/// The largest weight of the confidence.
pub const BETA_LIMIT: i64 = 1073741824;

/// More than the magnitude of any score of a code with few checks and variables.
pub const FITNESS_LIMIT: i128 = 85070591730234615865843651857942052864;

/// The number of places below `n` in which two bit vectors differ.
pub open spec fn mismatches(a: Seq<Bit>, b: Seq<Bit>, n: int) -> nat
    decreases n,
{
    if n <= 0 {
        0
    } else {
        mismatches(a, b, n - 1) + if a[n - 1] != b[n - 1] {
            1nat
        } else {
            0
        }
    }
}

/// The number of places that two bit vectors share and in which they differ.
pub open spec fn residual(a: Seq<Bit>, b: Seq<Bit>) -> nat {
    mismatches(
        a,
        b,
        if a.len() <= b.len() {
            a.len() as int
        } else {
            b.len() as int
        },
    )
}

/// The number of ratios below `n` of magnitude at most `threshold`.
pub open spec fn low_below(values: Seq<i64>, threshold: int, n: int) -> nat
    decreases n,
{
    if n <= 0 {
        0
    } else {
        low_below(values, threshold, n - 1) + if abs(values[n - 1] as int) <= threshold {
            1nat
        } else {
            0
        }
    }
}

/// The number of ratios of magnitude at most that of `threshold`.
pub open spec fn low_count(values: Seq<i64>, threshold: int) -> nat {
    low_below(values, abs(threshold), values.len() as int)
}

/// The sum of the magnitudes below `n`.
pub open spec fn confidence_below(values: Seq<i64>, n: int) -> int
    decreases n,
{
    if n <= 0 {
        0
    } else {
        confidence_below(values, n - 1) + abs(values[n - 1] as int)
    }
}

/// The sum of the magnitudes of all ratios.
pub open spec fn confidence(values: Seq<i64>) -> int {
    confidence_below(values, values.len() as int)
}

/// A score: unexplained checks cost, confidence and uncertain variables count.
pub open spec fn fitness(
    residual_w: nat,
    confidence: int,
    low: nat,
    alpha: int,
    beta: int,
    mu: int,
    one: int,
) -> int {
    -(alpha * residual_w) + trunc_div(beta * bound(confidence, CONFIDENCE_LIMIT as int), one) + mu
        * low
}

/// Weights that a score can have.
pub open spec fn are_weights(alpha: i64, beta: i64, mu: i64, threshold: i64, one: i64) -> bool {
    &&& -GAIN_LIMIT <= alpha <= GAIN_LIMIT
    &&& -BETA_LIMIT <= beta <= BETA_LIMIT
    &&& -GAIN_LIMIT <= mu <= GAIN_LIMIT
    &&& threshold > i64::MIN
    &&& 1 <= one <= GAIN_LIMIT
}

/// Every ratio has a magnitude.
pub open spec fn are_ratios(values: Seq<i64>) -> bool {
    forall|v: int| 0 <= v < values.len() ==> (#[trigger] values[v]) > i64::MIN
}

/// The number of checks that a decoding does not explain.
pub fn residual_weight(decoded_detectors: &Vec<Bit>, detectors: &Vec<Bit>) -> (r: usize)
    ensures
        r == residual(decoded_detectors@, detectors@),
        r <= detectors.len(),
{
    let n: usize = if decoded_detectors.len() <= detectors.len() {
        decoded_detectors.len()
    } else {
        detectors.len()
    };
    let mut count: usize = 0;
    let mut i: usize = 0;
    while i < n
        invariant
            i <= n <= detectors.len(),
            n <= decoded_detectors.len(),
            count <= i,
            count == mismatches(decoded_detectors@, detectors@, i as int),
        decreases n - i,
    {
        if decoded_detectors[i] != detectors[i] {
            count = count + 1;
        }
        i += 1;
    }
    count
}

/// The number of uncertain variables.
pub fn low_llr_count(final_marginal: &Vec<i64>, threshold: i64) -> (r: usize)
    requires
        are_ratios(final_marginal@),
        threshold > i64::MIN,
    ensures
        r == low_count(final_marginal@, threshold as int),
        r <= final_marginal.len(),
{
    let limit: i64 = magnitude(threshold);
    let mut count: usize = 0;
    let mut i: usize = 0;
    while i < final_marginal.len()
        invariant
            are_ratios(final_marginal@),
            limit == abs(threshold as int),
            i <= final_marginal.len(),
            count <= i,
            count == low_below(final_marginal@, limit as int, i as int),
        decreases final_marginal.len() - i,
    {
        if magnitude(final_marginal[i]) <= limit {
            count = count + 1;
        }
        i += 1;
    }
    count
}

/// The score of what was counted.
fn score(
    residual_w: usize,
    total: i128,
    low: usize,
    alpha: i64,
    beta: i64,
    mu: i64,
    one: i64,
) -> (r: i128)
    requires
        are_weights(alpha, beta, mu, 0, one),
        total > i128::MIN,
    ensures
        r == fitness(
            residual_w as nat,
            total as int,
            low as nat,
            alpha as int,
            beta as int,
            mu as int,
            one as int,
        ),
        r > i128::MIN,
        residual_w <= u32::MAX && low <= u32::MAX ==> -FITNESS_LIMIT < r < FITNESS_LIMIT,
{
    let limited: i128 = if total < -CONFIDENCE_LIMIT {
        -CONFIDENCE_LIMIT
    } else if total > CONFIDENCE_LIMIT {
        CONFIDENCE_LIMIT
    } else {
        total
    };
    proof {
        lemma_product_bound(
            alpha as int,
            residual_w as int,
            GAIN_LIMIT as int,
            0x1_0000_0000_0000_0000,
        );
        lemma_product_bound(mu as int, low as int, GAIN_LIMIT as int, 0x1_0000_0000_0000_0000);
        lemma_product_bound(
            beta as int,
            limited as int,
            BETA_LIMIT as int,
            CONFIDENCE_LIMIT as int,
        );
        if residual_w <= u32::MAX && low <= u32::MAX {
            lemma_product_bound(alpha as int, residual_w as int, GAIN_LIMIT as int, 0xffff_ffff);
            lemma_product_bound(mu as int, low as int, GAIN_LIMIT as int, 0xffff_ffff);
        }
        assert(BETA_LIMIT * CONFIDENCE_LIMIT == 0x2000_0000_0000_0000_0000_0000_0000_0000int);
        assert(GAIN_LIMIT * 0x1_0000_0000_0000_0000
            == 0x2000_0000_0000_0000_0000_0000_0000_0000int);
    }
    let cost: i128 = (alpha as i128) * (residual_w as i128);
    let reward: i128 = divide((beta as i128) * limited, one);
    let doubt: i128 = (mu as i128) * (low as i128);
    reward - cost + doubt
}

/// The score of a member after a min-sum phase whose posteriors summed to magnitudes of
/// `llr_cumsum_abs_sum` in all.
pub fn fitness_from_ms_cumsum(
    residual_w: usize,
    llr_cumsum_abs_sum: i128,
    final_marginal: &Vec<i64>,
    alpha: i64,
    beta: i64,
    low_llr_mu: i64,
    low_llr_threshold: i64,
    one: i64,
) -> (r: i128)
    requires
        are_weights(alpha, beta, low_llr_mu, low_llr_threshold, one),
        llr_cumsum_abs_sum > i128::MIN,
        are_ratios(final_marginal@),
    ensures
        r == fitness(
            residual_w as nat,
            llr_cumsum_abs_sum as int,
            low_count(final_marginal@, low_llr_threshold as int),
            alpha as int,
            beta as int,
            low_llr_mu as int,
            one as int,
        ),
        r > i128::MIN,
        residual_w <= u32::MAX && final_marginal.len() <= u32::MAX ==> -FITNESS_LIMIT < r
            < FITNESS_LIMIT,
{
    let low: usize = low_llr_count(final_marginal, low_llr_threshold);
    score(residual_w, llr_cumsum_abs_sum, low, alpha, beta, low_llr_mu, one)
}

/// The score of a member by its posteriors.
pub fn fitness_from_final_marginal(
    residual_w: usize,
    final_marginal: &Vec<i64>,
    alpha: i64,
    beta: i64,
    low_llr_mu: i64,
    low_llr_threshold: i64,
    one: i64,
) -> (r: i128)
    requires
        are_weights(alpha, beta, low_llr_mu, low_llr_threshold, one),
        are_ratios(final_marginal@),
    ensures
        r == fitness(
            residual_w as nat,
            confidence(final_marginal@),
            low_count(final_marginal@, low_llr_threshold as int),
            alpha as int,
            beta as int,
            low_llr_mu as int,
            one as int,
        ),
        r > i128::MIN,
        residual_w <= u32::MAX && final_marginal.len() <= u32::MAX ==> -FITNESS_LIMIT < r
            < FITNESS_LIMIT,
{
    let mut total: i128 = 0;
    let mut i: usize = 0;
    while i < final_marginal.len()
        invariant
            are_ratios(final_marginal@),
            i <= final_marginal.len(),
            0 <= total <= i * 0x7fff_ffff_ffff_ffff,
            total == confidence_below(final_marginal@, i as int),
        decreases final_marginal.len() - i,
    {
        proof {
            assert(i * 0x7fff_ffff_ffff_ffff + 0x7fff_ffff_ffff_ffff == (i + 1)
                * 0x7fff_ffff_ffff_ffff) by (nonlinear_arith);
            assert((i + 1) * 0x7fff_ffff_ffff_ffff <= 0x1_0000_0000_0000_0000
                * 0x7fff_ffff_ffff_ffff) by (nonlinear_arith)
                requires
                    i + 1 <= 0x1_0000_0000_0000_0000,
            ;
        }
        total = total + (magnitude(final_marginal[i]) as i128);
        i += 1;
    }
    let low: usize = low_llr_count(final_marginal, low_llr_threshold);
    score(residual_w, total, low, alpha, beta, low_llr_mu, one)
}

} // verus!
