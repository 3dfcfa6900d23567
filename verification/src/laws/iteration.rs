//! What one iteration of belief propagation does to messages and posteriors.

use vstd::prelude::*;

use crate::arith::{
    abs, bound, lemma_min_abs_range, lemma_sum_push, min_abs, neg_parity, sum, trunc_div,
};
use crate::matrix::{in_slice, lemma_slice_unique, slice_of, Bit};
use crate::min_sum::{bound_all, BpModel, ConfigModel};

verus! {

/// `q` is `x / one`, rounded towards zero.
pub open spec fn rounded(q: int, x: int, one: int) -> bool {
    &&& x >= 0 ==> q * one <= x < (q + 1) * one
    &&& x < 0 ==> (q - 1) * one < x <= q * one
}

/// `r` is `x`, or the end of the range of magnitude `limit` beyond which `x` lies.
pub open spec fn held(r: int, x: int, limit: int) -> bool {
    &&& -limit <= x <= limit ==> r == x
    &&& x > limit ==> r == limit
    &&& x < -limit ==> r == -limit
}

proof fn lemma_one_quotient(p: int, d: int, m: int, one: int)
    requires
        one > 0,
        p * one <= m < (p + 1) * one,
        d * one <= m < (d + 1) * one,
    ensures
        p == d,
{
    if p < d {
        assert((p + 1) * one <= d * one) by (nonlinear_arith)
            requires
                p + 1 <= d,
                one > 0,
        ;
    }
    if d < p {
        assert((d + 1) * one <= p * one) by (nonlinear_arith)
            requires
                d + 1 <= p,
                one > 0,
        ;
    }
}

/// Dividing rounds towards zero, and only one number is the quotient.
pub proof fn law_quotient(x: int, one: int)
    requires
        one > 0,
    ensures
        rounded(trunc_div(x, one), x, one),
        forall|q: int| #[trigger] rounded(q, x, one) ==> q == trunc_div(x, one),
{
    let m = abs(x);
    let d = m / one;
    assert(d * one <= m < (d + 1) * one) by (nonlinear_arith)
        requires
            d == m / one,
            one > 0,
    ;
    assert((-d) * one == -(d * one)) by (nonlinear_arith);
    assert((-d - 1) * one == -((d + 1) * one)) by (nonlinear_arith);
    assert forall|q: int| #[trigger] rounded(q, x, one) implies q == trunc_div(x, one) by {
        if x >= 0 {
            lemma_one_quotient(q, d, m, one);
        } else {
            let p = -q;
            assert((q - 1) * one == -((p + 1) * one)) by (nonlinear_arith)
                requires
                    p == -q,
            ;
            assert(q * one == -(p * one)) by (nonlinear_arith)
                requires
                    p == -q,
            ;
            lemma_one_quotient(p, d, m, one);
        }
    }
}

/// A sum is that of its first values and the last one, and the sum of none is zero.
pub proof fn law_sum(s: Seq<i64>, x: i64)
    ensures
        sum(Seq::<i64>::empty()) == 0,
        sum(s.push(x)) == sum(s) + x,
{
    lemma_sum_push(s, x);
}

/// What of its prior and its last posterior counts for a variable with the memory strength
/// `gamma`: the average with the weights `one - gamma` and `gamma`. In whole units each of
/// the two is rounded for itself.
pub open spec fn remembered(
    x: int,
    prior: int,
    previous: int,
    gamma: int,
    one: int,
    whole_units: bool,
) -> bool {
    if whole_units {
        exists|a: int, b: int|
            #![trigger rounded(a, prior, one), rounded(b, previous, one)]
            rounded(a, prior, one) && rounded(b, previous, one) && x == a * (one - gamma) + b
                * gamma
    } else {
        rounded(x, prior * (one - gamma) + previous * gamma, one)
    }
}

/// The part of the posterior of variable `v` that its own past makes: without memory, or
/// with an infinite prior, the prior; else prior and posterior as its own memory strength
/// weighs them.
pub open spec fn carried(d: BpModel, v: int, x: int) -> bool {
    if d.config.gamma0 is Some && d.priors[v] != i64::MAX {
        remembered(
            x,
            d.priors[v] as int,
            d.posterior[v] as int,
            d.memory[v] as int,
            d.config.one(),
            d.config.whole_units,
        )
    } else {
        x == d.priors[v]
    }
}

proof fn lemma_carried(d: BpModel, v: int)
    requires
        d.config.one() >= 1,
    ensures
        carried(d, v, d.variable_prior(v)),
{
    let one = d.config.one();
    let p = d.priors[v] as int;
    let q = d.posterior[v] as int;
    let g = d.memory[v] as int;
    law_quotient(p, one);
    law_quotient(q, one);
    law_quotient(p * (one - g) + q * g, one);
}

/// An iteration gives a variable the posterior that its own past and the messages that came
/// to it in this iteration make, and sends every check the same less what that check sent.
/// A variable that is sure enough and whose coin says so sends nothing.
pub proof fn law_variable(d: BpModel, det: Seq<Bit>, coins: Seq<bool>, v: int)
    requires
        d.wf(),
        0 <= v < d.cols(),
    ensures
        ({
            let next = d.iterate(det, coins);
            let came = sum(
                next.c2v.subrange(d.matrix.col_ptr[v] as int, d.matrix.col_ptr[v + 1] as int),
            );
            let limit = d.config.limit();
            exists|x: int|
                {
                    let silent = d.config.drop_enabled && v < coins.len() && coins[v] && abs(
                        x + came,
                    ) >= abs(d.config.drop_threshold as int);
                    &&& #[trigger] carried(d, v, x)
                    &&& held(next.posterior[v] as int, x + came, limit)
                    &&& forall|e: int|
                        0 <= e < d.matrix.nnz() && d.matrix.row_idx[e] == v ==> if silent {
                            #[trigger] next.v2c[e] == 0
                        } else {
                            held(
                                next.v2c[e] as int,
                                x + came - next.c2v[d.matrix.csr_to_csc[e] as int],
                                limit,
                            )
                        }
                }
        }),
{
    let next = d.iterate(det, coins);
    let b = d.check_step(det);
    lemma_carried(d, v);
    assert(b.variable_prior(v) == d.variable_prior(v));
    let x = d.variable_prior(v);
    assert(next.c2v == b.c2v);
    assert(carried(d, v, x));
}

/// Memory works on each variable for itself: the posterior of a variable after an iteration
/// does not depend on the memory strengths of the others, nor on their posteriors. With a
/// memory strength of zero its prior counts, with one its last posterior.
pub proof fn law_own_memory(
    d: BpModel,
    det: Seq<Bit>,
    coins: Seq<bool>,
    memory: Seq<i64>,
    posterior: Seq<i64>,
    v: int,
)
    requires
        d.wf(),
        0 <= v < d.cols(),
        memory[v] == d.memory[v],
        posterior[v] == d.posterior[v],
    ensures
        (BpModel { memory, posterior, ..d }).iterate(det, coins).posterior[v] == d.iterate(
            det,
            coins,
        ).posterior[v],
        ({
            let next = d.iterate(det, coins);
            let came = sum(
                next.c2v.subrange(d.matrix.col_ptr[v] as int, d.matrix.col_ptr[v + 1] as int),
            );
            let limit = d.config.limit();
            &&& d.config.gamma0 is None || d.priors[v] == i64::MAX || (d.memory[v] == 0
                && !d.config.whole_units) ==> held(
                next.posterior[v] as int,
                d.priors[v] + came,
                limit,
            )
            &&& d.config.gamma0 is Some && d.priors[v] != i64::MAX && d.memory[v]
                == d.config.one() && !d.config.whole_units ==> held(
                next.posterior[v] as int,
                d.posterior[v] + came,
                limit,
            )
        }),
{
    let e = BpModel { memory, posterior, ..d };
    let b = d.check_step(det);
    let c = e.check_step(det);
    assert forall|f: int| #![auto] 0 <= f < d.matrix.nnz() implies b.c2v[f] == c.c2v[f] by {
        assert(d.check_message_at(det, f) == e.check_message_at(det, f));
    }
    assert(b.c2v =~= c.c2v);
    assert(b.variable_prior(v) == c.variable_prior(v));
    let one = d.config.one();
    let p = d.priors[v] as int;
    let q = d.posterior[v] as int;
    law_quotient(p * one, one);
    law_quotient(q * one, one);
    assert(rounded(p, p * one, one)) by (nonlinear_arith)
        requires
            one >= 1,
    ;
    assert(rounded(q, q * one, one)) by (nonlinear_arith)
        requires
            one >= 1,
    ;
    if d.memory[v] == 0 {
        assert(p * (one - 0) + q * 0 == p * one) by (nonlinear_arith);
    }
    if d.memory[v] == one {
        assert(p * (one - one) + q * one == q * one) by (nonlinear_arith);
    }
}

/// An iteration changes messages, posteriors and the decoding, nothing else, and the
/// decoding has an error exactly where the posterior is not positive.
pub proof fn law_iteration_keeps(d: BpModel, det: Seq<Bit>, coins: Seq<bool>)
    requires
        d.wf(),
    ensures
        ({
            let next = d.iterate(det, coins);
            &&& next.matrix == d.matrix
            &&& next.config == d.config
            &&& next.priors == d.priors
            &&& next.memory == d.memory
            &&& next.alphas == d.alphas
            &&& next.iteration == d.iteration
            &&& next.c2v.len() == d.matrix.nnz()
            &&& next.v2c.len() == d.matrix.nnz()
            &&& next.posterior.len() == d.cols()
            &&& next.decoding.len() == d.cols()
            &&& forall|v: int|
                0 <= v < d.cols() ==> {
                    &&& next.posterior[v] <= 0 ==> #[trigger] next.decoding[v] == 1
                    &&& next.posterior[v] > 0 ==> next.decoding[v] == 0
                }
        }),
{
}

/// Places `a` and `b` are different entries of check `c`.
pub open spec fn beside(d: BpModel, c: int, a: int, b: int) -> bool {
    in_slice(d.matrix.row_ptr, c, a) && in_slice(d.matrix.row_ptr, c, b) && a != b
}

/// `g` is the damping of the messages to variable `v` in the coming iteration.
pub open spec fn damping(d: BpModel, v: int, g: int) -> bool {
    match d.alphas {
        Some(a) => g == a[v],
        None => match d.config.alpha {
            Some(a) => {
                &&& a > 0 ==> g == a
                &&& a < 0 ==> g == d.config.one()
                &&& a == 0 && d.config.alpha_schedule.len() == 0 ==> g == d.config.one()
                &&& a == 0 && d.config.alpha_schedule.len() > d.iteration ==> g
                    == d.config.alpha_schedule[d.iteration as int]
                &&& a == 0 && 0 < d.config.alpha_schedule.len() <= d.iteration ==> g
                    == d.config.alpha_schedule[d.config.alpha_schedule.len() - 1]
            },
            None => g == d.config.one(),
        },
    }
}

proof fn lemma_least(s: Seq<i64>)
    requires
        s.len() > 0,
        forall|i: int| 0 <= i < s.len() ==> s[i] > i64::MIN,
    ensures
        exists|i: int| 0 <= i < s.len() && min_abs(s) == #[trigger] abs(s[i] as int),
        forall|i: int| 0 <= i < s.len() ==> min_abs(s) <= #[trigger] abs(s[i] as int),
    decreases s.len(),
{
    let t = s.drop_last();
    if t.len() > 0 {
        lemma_least(t);
        let i = choose|i: int| 0 <= i < t.len() && min_abs(t) == #[trigger] abs(t[i] as int);
        assert(s[i] == t[i]);
        assert forall|i: int| 0 <= i < s.len() implies min_abs(s) <= #[trigger] abs(s[i] as int) by {
            if i < t.len() {
                assert(abs(t[i] as int) == abs(s[i] as int));
            }
        }
        if min_abs(s) == abs(s.last() as int) {
            assert(abs(s[s.len() - 1] as int) == min_abs(s));
        } else {
            assert(abs(s[i] as int) == min_abs(s));
        }
    } else {
        reveal_with_fuel(min_abs, 2);
        assert(abs(s[0] as int) == min_abs(s));
    }
}

/// What a check sends in terms of what the others sent to it.
proof fn lemma_message(d: BpModel, det: Seq<Bit>, c: int, e: int)
    requires
        d.wf(),
        0 <= c < d.matrix.rows,
        in_slice(d.matrix.row_ptr, c, e),
    ensures
        0 <= e < d.matrix.nnz(),
        d.check_step(det).c2v[d.matrix.csr_to_csc[e] as int] == d.check_message(
            det,
            c,
            e - d.matrix.row_ptr[c],
        ),
        d.matrix.row(c)[e - d.matrix.row_ptr[c]] == d.matrix.row_idx[e],
{
    let m = d.matrix;
    assert(m.row_ptr[c] <= m.row_ptr[c + 1] <= m.row_ptr[m.rows as int]);
    let f = m.csr_to_csc[e] as int;
    assert(m.csc_to_csr[f] == e);
    lemma_slice_unique(m.rows, m.cols, m.row_ptr, m.row_idx, c, m.col_idx[f] as int, e);
}

/// The message of a check to a variable has the least magnitude that the other variables of
/// the check sent, damped. A check of one variable is as sure as can be.
pub proof fn law_check_magnitude(d: BpModel, det: Seq<Bit>, coins: Seq<bool>, c: int, e: int)
    requires
        d.wf(),
        0 <= c < d.matrix.rows,
        in_slice(d.matrix.row_ptr, c, e),
    ensures
        ({
            let sent = d.iterate(det, coins).c2v[d.matrix.csr_to_csc[e] as int] as int;
            let one = d.config.one();
            exists|g: int, least: int, q: int|
                #![trigger damping(d, d.matrix.row_idx[e] as int, g), rounded(q, g * least, one)]
                {
                    &&& damping(d, d.matrix.row_idx[e] as int, g)
                    &&& rounded(q, g * least, one)
                    &&& held(abs(sent), abs(q), i64::MAX as int)
                    &&& forall|o: int| #[trigger]
                        beside(d, c, e, o) ==> least <= abs(d.v2c[o] as int)
                    &&& (exists|o: int| #[trigger]
                        beside(d, c, e, o) && least == abs(d.v2c[o] as int)) || (least == i64::MAX
                        && forall|o: int| !#[trigger] beside(d, c, e, o))
                }
        }),
{
    let m = d.matrix;
    lemma_message(d, det, c, e);
    let k = e - m.row_ptr[c];
    let start = m.row_ptr[c] as int;
    let row = slice_of(m.row_ptr, d.v2c, c);
    assert(m.row_ptr[c] <= m.row_ptr[c + 1] <= m.row_ptr[m.rows as int]);
    let others = row.remove(k);
    let v = m.row_idx[e] as int;
    let g = d.gain(v);
    let least = min_abs(others);
    let one = d.config.one();
    law_quotient(g * least, one);
    law_quotient(-(g * least), one);
    let q = trunc_div(g * least, one);
    assert(damping(d, v, g));
    assert(d.iterate(det, coins).c2v == d.check_step(det).c2v);
    assert(trunc_div(-(g * least), one) == -q) by {
        assert(-0 == 0);
        assert(0int / one == 0) by (nonlinear_arith)
            requires
                one > 0,
        ;
    }
    assert forall|o: int| #[trigger] beside(d, c, e, o) implies least <= abs(d.v2c[o] as int) by {
        let i = if o < e {
            o - start
        } else {
            o - start - 1
        };
        assert(others[i] == d.v2c[o]);
        lemma_least(others);
        assert(least <= abs(others[i] as int));
    }
    if others.len() > 0 {
        lemma_least(others);
        let i = choose|i: int| 0 <= i < others.len() && least == #[trigger] abs(others[i] as int);
        let o = if i < k {
            start + i
        } else {
            start + i + 1
        };
        assert(others[i] == d.v2c[o]);
        assert(beside(d, c, e, o));
    } else {
        assert forall|o: int| !#[trigger] beside(d, c, e, o) by {}
    }
}

/// The same message in two states: of two checks that heard the same from their other
/// variables and have to agree with the same detector, each sends the same. What the variable
/// itself sent does not count.
pub proof fn law_check_ignores(
    d: BpModel,
    other: BpModel,
    det: Seq<Bit>,
    det2: Seq<Bit>,
    coins: Seq<bool>,
    c: int,
    e: int,
)
    requires
        d.wf(),
        other.wf(),
        other.matrix == d.matrix,
        other.config == d.config,
        other.alphas == d.alphas,
        other.iteration == d.iteration,
        0 <= c < d.matrix.rows,
        in_slice(d.matrix.row_ptr, c, e),
        det[c] == det2[c],
        forall|o: int| #[trigger] beside(d, c, e, o) ==> other.v2c[o] == d.v2c[o],
    ensures
        other.iterate(det2, coins).c2v[d.matrix.csr_to_csc[e] as int] == d.iterate(
            det,
            coins,
        ).c2v[d.matrix.csr_to_csc[e] as int],
{
    let m = d.matrix;
    lemma_message(d, det, c, e);
    lemma_message(other, det2, c, e);
    assert(m.row_ptr[c] <= m.row_ptr[c + 1] <= m.row_ptr[m.rows as int]);
    let k = e - m.row_ptr[c];
    let a = slice_of(m.row_ptr, d.v2c, c).remove(k);
    let b = slice_of(m.row_ptr, other.v2c, c).remove(k);
    assert forall|i: int| 0 <= i < a.len() implies a[i] == b[i] by {
        let o = if i < k {
            m.row_ptr[c] + i
        } else {
            m.row_ptr[c] + i + 1
        };
        assert(beside(d, c, e, o));
    }
    assert(a =~= b);
    assert(d.iterate(det, coins).c2v == d.check_step(det).c2v);
    assert(other.iterate(det2, coins).c2v == other.check_step(det2).c2v);
}

/// A message changes its sign with the detector of its check, and with the sign of what any
/// one other variable of the check sent.
pub proof fn law_check_sign(
    d: BpModel,
    det: Seq<Bit>,
    det2: Seq<Bit>,
    coins: Seq<bool>,
    c: int,
    e: int,
    o: int,
)
    requires
        d.wf(),
        0 <= c < d.matrix.rows,
        in_slice(d.matrix.row_ptr, c, e),
        (det[c] == 1) != (det2[c] == 1),
        beside(d, c, e, o),
        d.v2c[o] > 0,
    ensures
        ({
            let f = d.matrix.csr_to_csc[e] as int;
            let sent = d.iterate(det, coins).c2v[f];
            let turned = BpModel { v2c: d.v2c.update(o, (-d.v2c[o]) as i64), ..d };
            &&& d.iterate(det2, coins).c2v[f] == -sent
            &&& turned.iterate(det, coins).c2v[f] == -sent
        }),
{
    let m = d.matrix;
    let turned = BpModel { v2c: d.v2c.update(o, (-d.v2c[o]) as i64), ..d };
    assert(m.row_ptr[c] <= m.row_ptr[c + 1] <= m.row_ptr[m.rows as int]);
    lemma_message(d, det, c, e);
    lemma_message(d, det2, c, e);
    assert(turned.wf());
    lemma_message(turned, det, c, e);
    let start = m.row_ptr[c] as int;
    let k = e - start;
    let row = slice_of(m.row_ptr, d.v2c, c);
    let row2 = slice_of(m.row_ptr, turned.v2c, c);
    let a = row.remove(k);
    let b = row2.remove(k);
    let i = if o < e {
        o - start
    } else {
        o - start - 1
    };
    assert(b =~= a.update(i, (-a[i]) as i64));
    lemma_turned(a, i);
    let f = m.csr_to_csc[e] as int;
    assert(d.iterate(det, coins).c2v == d.check_step(det).c2v);
    assert(d.iterate(det2, coins).c2v == d.check_step(det2).c2v);
    assert(turned.iterate(det, coins).c2v == turned.check_step(det).c2v);
    let g = d.gain(m.row_idx[e] as int);
    let p = g * min_abs(a);
    let one = d.config.one();
    assert(trunc_div(-p, one) == -trunc_div(p, one)) by {
        assert(0int / one == 0) by (nonlinear_arith)
            requires
                one > 0,
        ;
    }
}

proof fn lemma_turned(s: Seq<i64>, i: int)
    requires
        0 <= i < s.len(),
        s[i] > 0,
    ensures
        min_abs(s.update(i, (-s[i]) as i64)) == min_abs(s),
        neg_parity(s.update(i, (-s[i]) as i64)) != neg_parity(s),
    decreases s.len(),
{
    let t = s.update(i, (-s[i]) as i64);
    if i == s.len() - 1 {
        assert(t.drop_last() =~= s.drop_last());
    } else {
        assert(t.drop_last() =~= s.drop_last().update(i, (-s[i]) as i64));
        lemma_turned(s.drop_last(), i);
    }
}

proof fn lemma_none_negative(s: Seq<i64>)
    requires
        forall|i: int| 0 <= i < s.len() ==> s[i] >= 0,
    ensures
        !neg_parity(s),
    decreases s.len(),
{
    if s.len() > 0 {
        lemma_none_negative(s.drop_last());
    }
}

/// A check whose detector did not fire and whose other variables see no error sends no error,
/// where the damping is not negative.
pub proof fn law_check_agrees(d: BpModel, det: Seq<Bit>, coins: Seq<bool>, c: int, e: int)
    requires
        d.wf(),
        0 <= c < d.matrix.rows,
        in_slice(d.matrix.row_ptr, c, e),
        det[c] == 0,
        forall|o: int| #[trigger] beside(d, c, e, o) ==> d.v2c[o] >= 0,
        forall|g: int| #[trigger] damping(d, d.matrix.row_idx[e] as int, g) ==> g >= 0,
    ensures
        d.iterate(det, coins).c2v[d.matrix.csr_to_csc[e] as int] >= 0,
{
    let m = d.matrix;
    assert(m.row_ptr[c] <= m.row_ptr[c + 1] <= m.row_ptr[m.rows as int]);
    lemma_message(d, det, c, e);
    let k = e - m.row_ptr[c];
    let a = slice_of(m.row_ptr, d.v2c, c).remove(k);
    assert forall|i: int| 0 <= i < a.len() implies a[i] >= 0 by {
        let o = if i < k {
            m.row_ptr[c] + i
        } else {
            m.row_ptr[c] + i + 1
        };
        assert(beside(d, c, e, o));
    }
    lemma_none_negative(a);
    lemma_min_abs_range(a);
    let v = m.row_idx[e] as int;
    let g = d.gain(v);
    assert(damping(d, v, g));
    assert(g * min_abs(a) >= 0) by (nonlinear_arith)
        requires
            g >= 0,
            min_abs(a) >= 0,
    ;
    let one = d.config.one();
    let p = g * min_abs(a);
    assert(p / one >= 0) by (nonlinear_arith)
        requires
            p >= 0,
            one > 0,
    ;
    assert(d.iterate(det, coins).c2v == d.check_step(det).c2v);
}

/// Decoding starts without messages from checks, with every variable sending its prior and
/// having the initial memory strength, and with memory from the priors as posteriors.
pub proof fn law_start(d: BpModel)
    requires
        d.wf(),
    ensures
        ({
            let s = d.initialized();
            &&& s.matrix == d.matrix
            &&& s.config == d.config
            &&& s.priors == d.priors
            &&& s.alphas == d.alphas
            &&& s.iteration == 0
            &&& s.c2v.len() == d.matrix.nnz()
            &&& s.v2c.len() == d.matrix.nnz()
            &&& s.memory.len() == d.cols()
            &&& forall|f: int| 0 <= f < d.matrix.nnz() ==> #[trigger] s.c2v[f] == 0
            &&& forall|e: int|
                0 <= e < d.matrix.nnz() ==> #[trigger] s.v2c[e]
                    == d.priors[d.matrix.row_idx[e] as int]
            &&& d.config.gamma0 matches Some(g) ==> s.posterior == d.priors && forall|v: int|
                0 <= v < d.cols() ==> #[trigger] s.memory[v] == g
        }),
{
}

/// The unit is the scale given, or one; the limit is the largest magnitude given, or that of
/// the numbers themselves.
pub proof fn law_units(c: ConfigModel)
    ensures
        c.scale matches Some(s) ==> c.one() == s,
        c.scale is None ==> c.one() == 1,
        c.max_data matches Some(m) ==> c.limit() == m,
        c.max_data is None ==> c.limit() == i64::MAX,
{
}

/// A magnitude does not depend on the sign and is that of a number that is not negative.
pub proof fn law_magnitude(x: int)
    ensures
        abs(x) == abs(-x),
        x >= 0 ==> abs(x) == x,
        forall|limit: int| limit >= 0 ==> held(#[trigger] bound(x, limit), x, limit),
{
}

/// Limiting a list limits each of its values.
pub proof fn law_all_limited(values: Seq<i64>, limit: int, i: int)
    requires
        0 <= i < values.len(),
        0 <= limit <= i64::MAX,
    ensures
        bound_all(values, limit).len() == values.len(),
        held(bound_all(values, limit)[i] as int, values[i] as int, limit),
{
}

} // verus!
