//! Functions that are given by their values at equal steps.

use vstd::prelude::*;

verus! {

/// The value of a table at `x`, which has an entry for every multiple of `step`; the last
/// one stays. An empty table is zero.
pub open spec fn looked_up(table: Seq<i64>, step: int, x: int) -> int {
    if table.len() == 0 {
        0
    } else if x / step < table.len() {
        table[x / step] as int
    } else {
        table.last() as int
    }
}

/// The value of a table at `x`.
pub fn look_up(table: &Vec<i64>, step: i64, x: i64) -> (r: i64)
    requires
        step > 0,
        x >= 0,
    ensures
        r == looked_up(table@, step as int, x as int),
{
    if table.len() == 0 {
        return 0;
    }
    proof {
        assert(0 <= (x as int) / (step as int) <= x) by (nonlinear_arith)
            requires
                x >= 0,
                step > 0,
        ;
    }
    let k: i64 = x / step;
    if (k as u128) < (table.len() as u128) {
        table[k as usize]
    } else {
        table[table.len() - 1]
    }
}

} // verus!
