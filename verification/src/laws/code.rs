//! Syndromes, weights and the variable half of iterations with memory on posteriors.

use vstd::prelude::*;

use crate::arith::{abs, sum};
use crate::decoder::{decoding_quality, quality_below};
use crate::laws::iteration::{held, law_quotient, remembered};
use crate::matrix::{dot, lemma_row_sorted, slice_of, Bit, MatrixModel};
use crate::min_sum::BpModel;

verus! {

/// A single error fires exactly the checks that hold its variable, and no error fires none.
/// With linearity this tells every syndrome.
pub proof fn law_single_error(m: MatrixModel, errors: Seq<Bit>, i: int, j: int)
    requires
        m.wf(),
        0 <= i < m.rows,
        0 <= j < m.cols,
        errors.len() == m.cols,
        forall|v: int| 0 <= v < m.cols && v != j ==> #[trigger] errors[v] == 0,
        errors[j] == 0 || errors[j] == 1,
    ensures
        m.mul_mod2(errors).len() == m.rows,
        m.mul_mod2(errors)[i] == (if errors[j] == 1 && m.entry(i, j) {
            1 as Bit
        } else {
            0 as Bit
        }),
{
    let row = m.row(i);
    lemma_row_sorted(m, i);
    assert(m.row_ptr[i] <= m.row_ptr[i + 1] <= m.row_ptr[m.rows as int]);
    lemma_dot_single(row, errors, j);
    if m.entry(i, j) {
        let k = choose|k: int| 0 <= k < row.len() && #[trigger] row[k] == j;
        assert(row[k] == j as usize);
        assert(row.contains(j as usize));
    }
    if row.contains(j as usize) {
        let k = choose|k: int| 0 <= k < row.len() && row[k] == j as usize;
        assert(row[k] == j);
    }
}

proof fn lemma_dot_single(row: Seq<usize>, errors: Seq<Bit>, j: int)
    requires
        0 <= j < errors.len() <= usize::MAX,
        forall|a: int, b: int| 0 <= a < b < row.len() ==> row[a] < row[b],
        forall|a: int| 0 <= a < row.len() ==> row[a] < errors.len(),
        forall|v: int| 0 <= v < errors.len() && v != j ==> #[trigger] errors[v] == 0,
    ensures
        dot(row, errors) == (if row.contains(j as usize) {
            errors[j] as int
        } else {
            0
        }),
    decreases row.len(),
{
    if row.len() > 0 {
        let t = row.drop_last();
        let last = row[row.len() - 1];
        lemma_dot_single(t, errors, j);
        if t.contains(j as usize) {
            let k = choose|k: int| 0 <= k < t.len() && t[k] == j as usize;
            assert(row[k] == j as usize);
            assert(row[k] < last);
        }
        if row.contains(j as usize) {
            let k = choose|k: int| 0 <= k < row.len() && row[k] == j as usize;
            if k < t.len() {
                assert(t[k] == j as usize);
            }
        }
        if last == j as usize {
            assert(row[row.len() - 1] == j as usize);
        } else {
            assert(errors[last as int] == 0);
        }
    }
}

/// The quality of an estimate adds up the prior ratios of its errors; one of infinite ratio
/// adds nothing.
pub proof fn law_quality(priors: Seq<i64>, errors: Seq<Bit>, ratio: i64, bit: Bit)
    requires
        priors.len() == errors.len(),
    ensures
        decoding_quality(Seq::empty(), Seq::empty()) == 0,
        bit == 1 && ratio != i64::MAX ==> decoding_quality(priors.push(ratio), errors.push(bit))
            == decoding_quality(priors, errors) + ratio,
        bit != 1 || ratio == i64::MAX ==> decoding_quality(priors.push(ratio), errors.push(bit))
            == decoding_quality(priors, errors),
{
    lemma_quality_take(priors.push(ratio), priors, errors.push(bit), errors, errors.len() as int);
}

proof fn lemma_quality_take(p: Seq<i64>, q: Seq<i64>, a: Seq<Bit>, b: Seq<Bit>, n: int)
    requires
        forall|i: int| 0 <= i < n ==> a[i] == b[i] && p[i] == q[i],
    ensures
        quality_below(p, a, n) == quality_below(q, b, n),
    decreases n,
{
    if n > 0 {
        lemma_quality_take(p, q, a, b, n - 1);
    }
}

/// The posterior `x` of variable `v` where memory works on posteriors: that of the prior and
/// all messages, averaged with the last one by the memory strength of the variable.
pub open spec fn marginal_of(d: BpModel, v: int, x: int) -> bool {
    exists|plain: int|
        {
            &&& #[trigger] held(
                plain,
                d.priors[v] + sum(slice_of(d.matrix.col_ptr, d.c2v, v)),
                i64::MAX as int,
            )
            &&& if d.config.gamma0 is Some && plain != i64::MAX {
                remembered(
                    x,
                    plain,
                    d.posterior[v] as int,
                    d.memory[v] as int,
                    d.config.one(),
                    d.config.whole_units,
                )
            } else {
                x == plain
            }
        }
}

/// The variable half of an iteration in which memory works on the posteriors only: what a
/// variable sends is its prior and what all other checks sent.
pub proof fn law_blended_variable(d: BpModel, coins: Seq<bool>, v: int)
    requires
        d.wf(),
        0 <= v < d.cols(),
    ensures
        ({
            let next = d.blended_step(coins);
            let came = sum(slice_of(d.matrix.col_ptr, d.c2v, v));
            let limit = d.config.limit();
            &&& next.c2v == d.c2v
            &&& next.memory == d.memory
            &&& next.priors == d.priors
            &&& next.posterior[v] <= 0 ==> next.decoding[v] == 1
            &&& next.posterior[v] > 0 ==> next.decoding[v] == 0
            &&& exists|x: int|
                {
                    let silent = d.config.drop_enabled && v < coins.len() && coins[v] && abs(x)
                        >= abs(d.config.drop_threshold as int);
                    &&& #[trigger] marginal_of(d, v, x)
                    &&& held(next.posterior[v] as int, x, limit)
                    &&& forall|e: int|
                        0 <= e < d.matrix.nnz() && d.matrix.row_idx[e] == v ==> if silent {
                            #[trigger] next.v2c[e] == 0
                        } else {
                            held(
                                next.v2c[e] as int,
                                d.priors[v] + came - d.c2v[d.matrix.csr_to_csc[e] as int],
                                limit,
                            )
                        }
                }
        }),
{
    let one = d.config.one();
    let plain = d.plain_marginal(v);
    let q = d.posterior[v] as int;
    let g = d.memory[v] as int;
    law_quotient(plain, one);
    law_quotient(q, one);
    law_quotient(plain * (one - g) + q * g, one);
    let x = d.blended_marginal(v);
    assert(held(
        plain,
        d.priors[v] + sum(slice_of(d.matrix.col_ptr, d.c2v, v)),
        i64::MAX as int,
    ));
    assert(marginal_of(d, v, x));
}

} // verus!
