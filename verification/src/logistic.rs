//! The logistic function in fixed point.

use vstd::prelude::*;

use crate::arith::{abs, GAIN_LIMIT};

verus! {

/// The unit in which decay is counted.
pub const DECAY_ONE: i128 = 1099511627776;

/// What is left of a unit of decay after one part in 32: the exponential of minus 1/32.
pub const DECAY_STEP: i128 = 1065683211334;

/// The entries of a table for one unit of its argument.
pub const ENTRIES_PER_UNIT: i64 = 32;

/// The entries of a table.
pub const ENTRIES: usize = 1024;

/// What is left of a unit of decay after `k` steps.
pub open spec fn decay(k: nat) -> int
    decreases k,
{
    if k == 0 {
        DECAY_ONE as int
    } else {
        decay((k - 1) as nat) * DECAY_STEP / DECAY_ONE as int
    }
}

/// The share of `one` that the logistic function takes after `k` steps, rounded up.
pub open spec fn logistic_share(k: nat, one: int) -> int {
    (one * DECAY_ONE + DECAY_ONE + decay(k) - 1) / (DECAY_ONE + decay(k))
}

/// The logistic function by steps, where the unit is `one`.
pub open spec fn logistic_table(one: int) -> Seq<i64> {
    Seq::new(ENTRIES as nat, |k: int| logistic_share(k as nat, one) as i64)
}

/// A table holds shares of a unit, none less than half.
pub open spec fn are_upper_shares(table: Seq<i64>, one: int) -> bool {
    &&& table.len() > 0
    &&& forall|k: int| 0 <= k < table.len() ==> (#[trigger] table[k]) <= one <= 2 * table[k]
}

/// The logistic function at `x` by a table with `per_unit` entries for a unit of `one`: the
/// last entry stays, and what a negative argument takes its opposite leaves.
pub open spec fn logistic(table: Seq<i64>, per_unit: int, one: int, x: int) -> int {
    let k = abs(x) * per_unit / one;
    let share = if k < table.len() {
        table[k] as int
    } else {
        table.last() as int
    };
    if x < 0 {
        one - share
    } else {
        share
    }
}

proof fn lemma_decay_step(d: int)
    requires
        0 <= d <= DECAY_ONE,
    ensures
        0 <= d * DECAY_STEP <= DECAY_ONE * DECAY_STEP,
        0 <= d * DECAY_STEP / DECAY_ONE as int <= DECAY_ONE,
{
    assert(0 <= d * DECAY_STEP <= DECAY_ONE * DECAY_STEP) by (nonlinear_arith)
        requires
            0 <= d <= DECAY_ONE,
            DECAY_STEP == 1065683211334,
    ;
    assert(0 <= d * DECAY_STEP / DECAY_ONE as int <= DECAY_ONE) by (nonlinear_arith)
        requires
            0 <= d * DECAY_STEP <= DECAY_ONE * DECAY_STEP,
            DECAY_STEP == 1065683211334,
            DECAY_ONE == 1099511627776,
    ;
}

/// A share is at least half and at most the whole.
proof fn lemma_share(d: int, one: int)
    requires
        0 <= d <= DECAY_ONE,
        1 <= one <= GAIN_LIMIT,
    ensures
        one * DECAY_ONE <= GAIN_LIMIT * DECAY_ONE,
        ({
            let q = (one * DECAY_ONE + DECAY_ONE + d - 1) / (DECAY_ONE + d);
            q <= one <= 2 * q
        }),
{
    let s = DECAY_ONE + d;
    let n = one * DECAY_ONE;
    let q = (n + s - 1) / s;
    assert(n <= GAIN_LIMIT * DECAY_ONE) by (nonlinear_arith)
        requires
            n == one * DECAY_ONE,
            one <= GAIN_LIMIT,
            DECAY_ONE == 1099511627776,
    ;
    vstd::arithmetic::div_mod::lemma_fundamental_div_mod(n + s - 1, s);
    assert(n <= s * q <= n + s - 1);
    assert(q <= one) by (nonlinear_arith)
        requires
            s * q <= n + s - 1,
            n == one * DECAY_ONE,
            s >= DECAY_ONE,
            DECAY_ONE == 1099511627776,
            one >= 1,
    ;
    assert(one <= 2 * q) by (nonlinear_arith)
        requires
            n <= s * q,
            n == one * DECAY_ONE,
            0 < s <= 2 * DECAY_ONE,
            DECAY_ONE == 1099511627776,
            one >= 1,
    ;
}

/// A table of the logistic function, where the unit is `one`.
pub fn build_logistic_table(one: i64) -> (r: Vec<i64>)
    requires
        1 <= one <= GAIN_LIMIT,
    ensures
        r@ == logistic_table(one as int),
        are_upper_shares(r@, one as int),
{
    let mut r: Vec<i64> = Vec::new();
    let mut d: i128 = DECAY_ONE;
    while r.len() < ENTRIES
        invariant
            1 <= one <= GAIN_LIMIT,
            r.len() <= ENTRIES,
            d == decay(r.len() as nat),
            0 <= d <= DECAY_ONE,
            forall|k: int|
                0 <= k < r.len() ==> (#[trigger] r[k]) == logistic_share(k as nat, one as int)
                    && r[k] <= one <= 2 * r[k],
        decreases ENTRIES - r.len(),
    {
        proof {
            lemma_share(d as int, one as int);
            lemma_decay_step(d as int);
        }
        let share: i128 = ((one as i128) * DECAY_ONE + DECAY_ONE + d - 1) / (DECAY_ONE + d);
        r.push(share as i64);
        d = d * DECAY_STEP / DECAY_ONE;
    }
    assert(r@ =~= logistic_table(one as int));
    r
}

/// The logistic function at `x`.
pub fn logistic_at(table: &Vec<i64>, per_unit: i64, one: i64, x: i64) -> (r: i64)
    requires
        one >= 1,
        per_unit >= 1,
        x > i64::MIN,
        are_upper_shares(table@, one as int),
    ensures
        r == logistic(table@, per_unit as int, one as int, x as int),
        0 <= r <= one,
        x >= 0 ==> one <= 2 * r,
{
    let magnitude: i128 = if x < 0 {
        -(x as i128)
    } else {
        x as i128
    };
    proof {
        assert(0 <= magnitude * per_unit <= 0x7fff_ffff_ffff_ffff * 0x7fff_ffff_ffff_ffff)
            by (nonlinear_arith)
            requires
                0 <= magnitude <= 0x7fff_ffff_ffff_ffff,
                1 <= per_unit <= 0x7fff_ffff_ffff_ffff,
        ;
        assert((magnitude * per_unit) / (one as int) >= 0) by (nonlinear_arith)
            requires
                magnitude * per_unit >= 0,
                one >= 1,
        ;
    }
    let k: i128 = magnitude * (per_unit as i128) / (one as i128);
    let share: i64 = if k < table.len() as i128 {
        table[k as usize]
    } else {
        table[table.len() - 1]
    };
    if x < 0 {
        one - share
    } else {
        share
    }
}

} // verus!
