//! What decoders with alternating legs, friction, kicks and dynamic schedules do.

use vstd::prelude::*;

use crate::arith::{abs, bound, sum, trunc_div};
use crate::decoder::negative_bits;
use crate::laws::iteration::{carried, held, law_quotient, rounded};
use crate::laws::legs::{
    alike, ends_in, explains, lemma_passes_longer, lemma_passes_none, lemma_passes_once,
    lemma_runs_longer, lemma_runs_none, lemma_runs_once, lemma_settle, passes, reports, runs_to,
    thrown,
};
use crate::laws::relay::leg_thrown;
use crate::logistic::logistic;
use crate::lrbp::dynamic::DynState;
use crate::lrbp::langevin::{
    oscillation, remembered as kept_of, LangevinDraws, LangevinState,
};
use crate::lrbp::legs::{residual, targets, targets_below, LRBPDecoderConfig, LrbpTrace};
use crate::matrix::{slice_of, Bit, MatrixModel};
use crate::min_sum::{coins_at, BpModel};
use crate::order::increasing;
use crate::relay::leg_coins;

verus! {

/// A single check sends what it would send in a whole iteration, and nothing else changes.
pub proof fn law_check_alone(d: BpModel, det: Seq<Bit>, c: int)
    requires
        d.wf(),
    ensures
        ({
            let next = d.check_updated(det, c);
            &&& next == (BpModel { c2v: next.c2v, ..d })
            &&& next.c2v.len() == d.matrix.nnz()
            &&& forall|f: int|
                0 <= f < d.matrix.nnz() ==> #[trigger] next.c2v[f] == (if d.matrix.col_idx[f] == c {
                    d.iterate(det, Seq::empty()).c2v[f]
                } else {
                    d.c2v[f]
                })
        }),
{
}

proof fn lemma_part(d: BpModel, v: int)
    requires
        d.config.one() >= 1,
    ensures
        carried(d, v, d.variable_prior(v)),
{
    let one = d.config.one();
    let p = d.priors[v] as int;
    let q = d.posterior[v] as int;
    let g = d.memory[v] as int;
    law_quotient(p, one);
    law_quotient(q, one);
    law_quotient(p * (one - g) + q * g, one);
}

/// A single variable of some check takes the posterior that its own past and the present
/// messages make and sends every check the same less what that check sent, unless it drops its
/// messages. All other posteriors and messages are only brought into range.
pub proof fn law_variable_alone(d: BpModel, coins: Seq<bool>, v: int)
    requires
        d.wf(),
        0 <= v < d.cols(),
        d.matrix.col(v).len() > 0,
    ensures
        ({
            let next = d.variable_resent(coins, v);
            let came = sum(slice_of(d.matrix.col_ptr, d.c2v, v));
            let limit = d.config.limit();
            &&& next == (BpModel { v2c: next.v2c, posterior: next.posterior, ..d })
            &&& next.posterior.len() == d.cols()
            &&& next.v2c.len() == d.matrix.nnz()
            &&& forall|u: int|
                0 <= u < d.cols() && u != v ==> held(
                    #[trigger] next.posterior[u] as int,
                    d.posterior[u] as int,
                    limit,
                )
            &&& forall|e: int|
                0 <= e < d.matrix.nnz() && d.matrix.row_idx[e] != v ==> held(
                    #[trigger] next.v2c[e] as int,
                    d.v2c[e] as int,
                    limit,
                )
            &&& exists|x: int|
                {
                    let silent = d.config.drop_enabled && v < coins.len() && coins[v] && abs(
                        x + came,
                    ) >= abs(d.config.drop_threshold as int);
                    &&& #[trigger] carried(d, v, x)
                    &&& held(next.posterior[v] as int, x + came, limit)
                    &&& forall|e: int|
                        0 <= e < d.matrix.nnz() && d.matrix.row_idx[e] == v ==> if silent {
                            #[trigger] next.v2c[e] == 0
                        } else {
                            held(
                                next.v2c[e] as int,
                                x + came - d.c2v[d.matrix.csr_to_csc[e] as int],
                                limit,
                            )
                        }
                }
        }),
{
    lemma_part(d, v);
    assert(carried(d, v, d.variable_prior(v)));
}

/// The checks of special care are exactly those that fired and that the negative posteriors
/// leave unsatisfied, in increasing order.
pub proof fn law_targets(matrix: MatrixModel, det: Seq<Bit>, marginal: Seq<i64>)
    requires
        matrix.rows <= usize::MAX,
    ensures
        increasing(targets(matrix, det, marginal)),
        forall|c: usize|
            #[trigger] targets(matrix, det, marginal).contains(c) <==> c < matrix.rows && det[c as int]
                == 1 && matrix.mul_mod2(negatives_of(marginal))[c as int] ^ 1 == 1,
{
    lemma_targets(matrix, det, marginal, matrix.rows);
    assert(negatives_of(marginal) =~= negative_bits(marginal));
}

/// An error where a ratio is negative.
pub open spec fn negatives_of(marginal: Seq<i64>) -> Seq<Bit> {
    Seq::new(
        marginal.len(),
        |v: int|
            if marginal[v] >= 0 {
                0 as Bit
            } else {
                1 as Bit
            },
    )
}

proof fn lemma_targets(matrix: MatrixModel, det: Seq<Bit>, marginal: Seq<i64>, n: nat)
    requires
        n <= matrix.rows <= usize::MAX,
    ensures
        increasing(targets_below(matrix, det, marginal, n)),
        forall|c: usize|
            #[trigger] targets_below(matrix, det, marginal, n).contains(c) <==> c < n
                && det[c as int] == 1 && matrix.mul_mod2(negative_bits(marginal))[c as int] ^ 1
                == 1,
    decreases n,
{
    if n > 0 {
        let m = (n - 1) as nat;
        lemma_targets(matrix, det, marginal, m);
        let t = targets_below(matrix, det, marginal, m);
        let s = targets_below(matrix, det, marginal, n);
        let here = det[n - 1] == 1 && residual(matrix, det, negative_bits(marginal))[n - 1] == 1;
        assert forall|a: int| 0 <= a < t.len() implies #[trigger] t[a] < m by {
            assert(t.contains(t[a]));
        }
        assert forall|c: usize| #[trigger] s.contains(c) <==> c < n && det[c as int] == 1
            && matrix.mul_mod2(negative_bits(marginal))[c as int] ^ 1 == 1 by {
            if t.contains(c) {
                let a = choose|a: int| 0 <= a < t.len() && t[a] == c;
                assert(s[a] == c);
            }
            if here && c == n - 1 {
                assert(s[t.len() as int] == c);
            }
            if s.contains(c) && c != n - 1 {
                let a = choose|a: int| 0 <= a < s.len() && s[a] == c;
                assert(t[a] == c);
            }
        }
    }
}

/// Before the checks of special care all others send, each what it would send in a whole
/// iteration.
pub proof fn law_others_send(d: BpModel, det: Seq<Bit>, checks: Seq<usize>)
    requires
        d.wf(),
    ensures
        ({
            let next = d.outside_checked(det, checks, d.matrix.rows);
            &&& next == (BpModel { c2v: next.c2v, ..d })
            &&& next.c2v.len() == d.matrix.nnz()
            &&& forall|f: int|
                0 <= f < d.matrix.nnz() ==> #[trigger] next.c2v[f] == (if checks.contains(
                    d.matrix.col_idx[f],
                ) {
                    d.c2v[f]
                } else {
                    d.iterate(det, Seq::empty()).c2v[f]
                })
        }),
{
    lemma_others(d, det, checks, d.matrix.rows);
}

proof fn lemma_others(d: BpModel, det: Seq<Bit>, checks: Seq<usize>, n: nat)
    requires
        d.wf(),
        n <= d.matrix.rows,
    ensures
        ({
            let next = d.outside_checked(det, checks, n);
            &&& next == (BpModel { c2v: next.c2v, ..d })
            &&& next.c2v.len() == d.matrix.nnz()
            &&& forall|f: int|
                0 <= f < d.matrix.nnz() ==> #[trigger] next.c2v[f] == (if d.matrix.col_idx[f] < n
                    && !checks.contains(d.matrix.col_idx[f]) {
                    d.check_message_at(det, f)
                } else {
                    d.c2v[f]
                })
        }),
    decreases n,
{
    if n > 0 {
        let m = (n - 1) as nat;
        lemma_others(d, det, checks, m);
        let before = d.outside_checked(det, checks, m);
        let next = d.outside_checked(det, checks, n);
        assert forall|f: int| 0 <= f < d.matrix.nnz() implies #[trigger] next.c2v[f] == (
        if d.matrix.col_idx[f] < n && !checks.contains(d.matrix.col_idx[f]) {
            d.check_message_at(det, f)
        } else {
            d.c2v[f]
        }) by {
            assert(before.check_message_at(det, f) == d.check_message_at(det, f));
        }
    }
}

/// A leg starts in `s` after one that ended in `d`: its posteriors take the place of the
/// priors, and the messages are as at the start of decoding. A leg with an even number has one
/// memory strength for all variables, any other has its own.
pub open spec fn reseeds(
    config: LRBPDecoderConfig,
    draws: Seq<Vec<i64>>,
    d: BpModel,
    leg: nat,
    s: BpModel,
) -> bool {
    &&& s.matrix == d.matrix
    &&& s.config == d.config
    &&& s.alphas == d.alphas
    &&& s.decoding == d.decoding
    &&& s.priors == d.posterior
    &&& s.posterior == d.posterior
    &&& s.iteration == 0
    &&& s.c2v.len() == d.matrix.nnz()
    &&& s.v2c.len() == d.matrix.nnz()
    &&& forall|f: int| 0 <= f < d.matrix.nnz() ==> #[trigger] s.c2v[f] == 0
    &&& forall|e: int|
        0 <= e < d.matrix.nnz() ==> #[trigger] s.v2c[e] == d.posterior[d.matrix.row_idx[e] as int]
    &&& leg % 2 == 0 ==> s.memory.len() == d.cols() && forall|v: int|
        0 <= v < d.cols() ==> #[trigger] s.memory[v] == config.even_leg_uniform_gamma
    &&& leg % 2 == 1 ==> match config.explicit_gammas {
        Some(g) => s.memory == g[leg as int % g.len() as int]@,
        None => s.memory == draws[(leg - 1) / 2]@,
    }
}

/// The iterations that a leg may do.
pub open spec fn allowed(config: LRBPDecoderConfig, leg: int) -> nat {
    if leg == 0 {
        config.pre_iter as nat
    } else if leg > 1 && leg % 2 == 1 {
        config.odd_leg_max_iter as nat
    } else {
        config.set_max_iter as nat
    }
}

/// One iteration that updates the checks of special care last.
pub open spec fn careful_tick(
    det: Seq<Bit>,
    coins: Seq<Vec<bool>>,
    checks: Seq<usize>,
) -> spec_fn(BpModel) -> BpModel {
    |d: BpModel|
        BpModel { iteration: d.iteration + 1, ..d.surgical_iterate(det, coins, checks) }
}

/// The decoding explains the detectors.
pub open spec fn careful_done(det: Seq<Bit>) -> spec_fn(BpModel) -> bool {
    |d: BpModel| explains(d, det)
}

/// A leg that starts in `s` ends in `end` after `steps` iterations: plain ones in a leg of odd
/// number, careful ones in a leg of even number.
pub open spec fn leg_ends(
    config: LRBPDecoderConfig,
    det: Seq<Bit>,
    coins: Seq<Vec<bool>>,
    checks: Seq<usize>,
    s: BpModel,
    end: BpModel,
    leg: nat,
    steps: nat,
) -> bool {
    &&& leg % 2 == 1 ==> ends_in(s, end, det, coins, allowed(config, leg as int), steps)
    &&& leg % 2 == 0 ==> exists|last: BpModel|
        {
            &&& #[trigger] runs_to(
                s,
                last,
                careful_tick(det, coins, checks),
                careful_done(det),
                allowed(config, leg as int),
                steps,
            )
            &&& alike(last, end)
        }
}

proof fn lemma_careful(
    d: BpModel,
    det: Seq<Bit>,
    coins: Seq<Vec<bool>>,
    checks: Seq<usize>,
    n: nat,
) -> (r: (BpModel, nat))
    ensures
        ({
            let end = d.surgical_settle(det, coins, checks, n);
            let (last, steps) = r;
            &&& runs_to(
                d,
                last,
                careful_tick(det, coins, checks),
                careful_done(det),
                n,
                steps,
            )
            &&& alike(last, end)
            &&& last.iteration == d.iteration + steps
            &&& n > 0 ==> steps > 0
            &&& end.iteration + (if n > 0 && explains(end, det) {
                1nat
            } else {
                0
            }) == last.iteration
        }),
    decreases n,
{
    let step = careful_tick(det, coins, checks);
    let done = careful_done(det);
    if n == 0 {
        lemma_runs_none(d, step, done);
        (d, 0)
    } else {
        let next = d.surgical_iterate(det, coins, checks);
        let kept = next.counted();
        lemma_surgical_count(d, det, coins, checks);
        assert(step(d) == kept);
        if next.converged(det) {
            lemma_runs_once(d, step, done, n);
            (kept, 1)
        } else {
            let (last, steps) = lemma_careful(kept, det, coins, checks, (n - 1) as nat);
            lemma_runs_longer(d, last, step, done, n, steps);
            (last, steps + 1)
        }
    }
}

proof fn lemma_surgical_count(
    d: BpModel,
    det: Seq<Bit>,
    coins: Seq<Vec<bool>>,
    checks: Seq<usize>,
)
    ensures
        d.surgical_iterate(det, coins, checks).iteration == d.iteration,
{
    let base = (d.iteration * (checks.len() + 1)) as int;
    let a = d.outside_checked(det, checks, d.matrix.rows);
    let b = a.outside_answered(coins_at(coins, base), checks, d.cols());
    lemma_checked_count(d, det, checks, d.matrix.rows);
    lemma_answers_count(a, coins_at(coins, base), checks, d.cols());
    lemma_targets_count(b, det, coins, base + 1, checks, checks.len());
}

proof fn lemma_checked_count(d: BpModel, det: Seq<Bit>, checks: Seq<usize>, n: nat)
    ensures
        d.outside_checked(det, checks, n).iteration == d.iteration,
    decreases n,
{
    if n > 0 {
        lemma_checked_count(d, det, checks, (n - 1) as nat);
    }
}

proof fn lemma_answers_count(d: BpModel, coins: Seq<bool>, checks: Seq<usize>, n: nat)
    ensures
        d.outside_answered(coins, checks, n).iteration == d.iteration,
    decreases n,
{
    if n > 0 {
        lemma_answers_count(d, coins, checks, (n - 1) as nat);
    }
}

proof fn lemma_row_count(d: BpModel, coins: Seq<bool>, variables: Seq<usize>, n: nat)
    ensures
        d.answered(coins, variables, n).iteration == d.iteration,
    decreases n,
{
    if n > 0 {
        lemma_row_count(d, coins, variables, (n - 1) as nat);
    }
}

proof fn lemma_targets_count(
    d: BpModel,
    det: Seq<Bit>,
    coins: Seq<Vec<bool>>,
    base: int,
    checks: Seq<usize>,
    n: nat,
)
    ensures
        d.targets_updated(det, coins, base, checks, n).iteration == d.iteration,
    decreases n,
{
    if n > 0 {
        lemma_targets_count(d, det, coins, base, checks, (n - 1) as nat);
        let c = checks[n - 1] as int;
        let row = d.matrix.row(c);
        lemma_row_count(
            d.targets_updated(det, coins, base, checks, (n - 1) as nat).check_updated(det, c),
            coins_at(coins, base + n - 1),
            row,
            row.len(),
        );
    }
}

/// Leg `leg` after one that ended in `d`.
pub proof fn law_lrbp_leg(
    config: LRBPDecoderConfig,
    draws: Seq<Vec<i64>>,
    coins: Seq<Vec<bool>>,
    det: Seq<Bit>,
    d: BpModel,
    leg: nat,
)
    requires
        leg > 0,
    ensures
        ({
            let end = config.leg(draws, coins, det, d, leg);
            let r = end.leg_result(det, config.budget(leg));
            exists|s: BpModel|
                {
                    &&& #[trigger] reseeds(config, draws, d, leg, s)
                    &&& leg_ends(
                        config,
                        det,
                        coins,
                        targets(d.matrix, det, d.posterior),
                        s,
                        end,
                        leg,
                        r.iterations,
                    )
                    &&& reports(r, end, det, allowed(config, leg as int), r.iterations)
                }
        }),
{
    let s = BpModel { memory: config.gammas_at(draws, leg, d.cols()), ..d.reseeded() };
    let n = config.budget(leg);
    let checks = targets(d.matrix, det, d.posterior);
    assert(n == allowed(config, leg as int));
    assert(reseeds(config, draws, d, leg, s));
    if leg % 2 == 0 {
        let (last, steps) = lemma_careful(s, det, coins, checks, n);
    } else {
        let steps = lemma_settle(s, det, coins, n);
        let end = s.settle(det, coins, n);
        if n > 0 && steps == 0 {
            assert(false);
        }
    }
}

/// The legs with the next one added.
pub open spec fn next_leg(
    config: LRBPDecoderConfig,
    draws: Seq<Vec<i64>>,
    coins: Seq<Vec<Vec<bool>>>,
    det: Seq<Bit>,
) -> spec_fn(int, LrbpTrace) -> LrbpTrace {
    |l: int, t: LrbpTrace|
        {
            let end = config.leg(draws, leg_thrown(coins, l), det, t.last, l as nat);
            LrbpTrace {
                legs: t.legs.push(end.leg_result(det, allowed(config, l))),
                last: end,
            }
        }
}

/// The last leg converged.
pub open spec fn leg_converged() -> spec_fn(LrbpTrace) -> bool {
    |t: LrbpTrace| t.legs[t.legs.len() - 1].success
}

proof fn lemma_legs(
    config: LRBPDecoderConfig,
    draws: Seq<Vec<i64>>,
    coins: Seq<Vec<Vec<bool>>>,
    det: Seq<Bit>,
    t: LrbpTrace,
    l: nat,
) -> (path: Seq<LrbpTrace>)
    requires
        !t.legs.last().success,
        l > 0,
    ensures
        passes(
            path,
            t,
            config.legs_from(draws, coins, det, t, l),
            next_leg(config, draws, coins, det),
            leg_converged(),
            l as int,
            config.leg_limit() as int,
        ),
    decreases config.leg_limit() - l,
{
    let step = next_leg(config, draws, coins, det);
    let done = leg_converged();
    let n = config.leg_limit() as int;
    if l >= n {
        lemma_passes_none(t, step, done, l as int, n);
        seq![t]
    } else {
        let next = config.leg_added(draws, coins, det, t, l);
        let end = config.legs_from(draws, coins, det, t, l);
        assert(leg_thrown(coins, l as int) == leg_coins(coins, l as int));
        assert(step(l as int, t) == next);
        assert(end == config.legs_from(draws, coins, det, next, l + 1));
        if next.legs.last().success {
            lemma_passes_once(t, step, done, l as int, n);
            seq![t, next]
        } else {
            let path = lemma_legs(config, draws, coins, det, next, l + 1);
            lemma_passes_longer(path, t, end, step, done, l as int, n);
            seq![t] + path
        }
    }
}

/// The number of legs that may be run.
pub open spec fn legs_allowed(config: LRBPDecoderConfig) -> int {
    if config.num_sets == 0 {
        1
    } else {
        config.num_sets as int
    }
}

/// `first` holds the first leg of a decoder in the state `d`.
pub open spec fn first_leg(
    config: LRBPDecoderConfig,
    coins: Seq<Vec<Vec<bool>>>,
    det: Seq<Bit>,
    d: BpModel,
    first: LrbpTrace,
) -> bool {
    let n = config.pre_iter as nat;
    let leg = first.legs[0];
    &&& first.legs.len() == 1
    &&& ends_in(d.initialized(), first.last, det, leg_thrown(coins, 0), n, leg.iterations)
    &&& reports(leg, first.last, det, n, leg.iterations)
}

/// A decoder with alternating legs settles from the start of decoding in its first leg. As
/// long as none converges, the others follow, each after where the one before ended.
pub proof fn law_lrbp_legs(
    config: LRBPDecoderConfig,
    draws: Seq<Vec<i64>>,
    coins: Seq<Vec<Vec<bool>>>,
    det: Seq<Bit>,
    d: BpModel,
)
    ensures
        exists|first: LrbpTrace|
            {
                let t = config.run(draws, coins, det, d);
                &&& #[trigger] first_leg(config, coins, det, d, first)
                &&& first.legs[0].success ==> t == first
                &&& !first.legs[0].success ==> exists|path: Seq<LrbpTrace>| #[trigger]
                    passes(
                        path,
                        first,
                        t,
                        next_leg(config, draws, coins, det),
                        leg_converged(),
                        1,
                        legs_allowed(config),
                    )
            },
{
    let n = config.pre_iter as nat;
    assert(leg_thrown(coins, 0) == leg_coins(coins, 0));
    let last = d.initialized().settle(det, leg_thrown(coins, 0), n);
    let first = LrbpTrace { legs: seq![last.leg_result(det, n)], last };
    lemma_first_leg(config, coins, det, d);
    let t = config.run(draws, coins, det, d);
    assert(t == config.legs_from(draws, coins, det, first, 1));
    assert(first.legs.last() == first.legs[0]);
    if !first.legs[0].success {
        let path = lemma_legs(config, draws, coins, det, first, 1);
        assert(passes(
            path,
            first,
            t,
            next_leg(config, draws, coins, det),
            leg_converged(),
            1,
            legs_allowed(config),
        ));
    } else {
        assert(t == first);
    }
}

proof fn lemma_first_leg(
    config: LRBPDecoderConfig,
    coins: Seq<Vec<Vec<bool>>>,
    det: Seq<Bit>,
    d: BpModel,
)
    ensures
        ({
            let n = config.pre_iter as nat;
            let last = d.initialized().settle(det, leg_thrown(coins, 0), n);
            first_leg(
                config,
                coins,
                det,
                d,
                LrbpTrace { legs: seq![last.leg_result(det, n)], last },
            )
        }),
{
    let n = config.pre_iter as nat;
    let steps = lemma_settle(d.initialized(), det, leg_thrown(coins, 0), n);
    if n > 0 && steps == 0 {
        assert(false);
    }
}

/// The logistic function by a table: for an argument of magnitude `k / per_unit` units the
/// `k`-th share of a unit, at the end the last one; a negative argument has what its opposite
/// leaves.
pub proof fn law_logistic(table: Seq<i64>, per_unit: int, one: int, x: int)
    requires
        table.len() > 0,
        per_unit >= 1,
        one >= 1,
        x > 0,
    ensures
        logistic(table, per_unit, one, -x) + logistic(table, per_unit, one, x) == one,
        logistic(table, per_unit, one, 0) == table[0],
        exists|k: int|
            {
                &&& 0 <= k < table.len()
                &&& k * one <= x * per_unit
                &&& k + 1 < table.len() ==> x * per_unit < (k + 1) * one
                &&& logistic(table, per_unit, one, x) == #[trigger] table[k]
            },
{
    let y = x * per_unit;
    assert(y >= 0) by (nonlinear_arith)
        requires
            y == x * per_unit,
            x > 0,
            per_unit >= 1,
    ;
    let q = y / one;
    assert(q * one <= y < (q + 1) * one && q >= 0) by (nonlinear_arith)
        requires
            q == y / one,
            one >= 1,
            y >= 0,
    ;
    let k = if q < table.len() {
        q
    } else {
        table.len() - 1
    };
    assert(k * one <= q * one) by (nonlinear_arith)
        requires
            k <= q,
            one >= 1,
    ;
    assert(logistic(table, per_unit, one, x) == table[k]);
    assert(0 * per_unit / one == 0) by (nonlinear_arith)
        requires
            one >= 1,
    ;
}

/// The history of an edge keeps its last messages, the newest last, as many as the window
/// holds. Its oscillation is the magnitude of their sum.
pub proof fn law_history(history: Seq<i64>, raw: i64, window: nat)
    requires
        window > 0,
    ensures
        ({
            let h = kept_of(history, raw, window);
            &&& h.len() <= window
            &&& h.len() == window || h.len() == history.len() + 1
            &&& 0 < h.len() <= history.len() + 1
            &&& h[h.len() - 1] == raw
            &&& forall|i: int|
                0 <= i < h.len() - 1 ==> #[trigger] h[i] == history[history.len() + 1 - h.len() + i]
        }),
        held(oscillation(history), abs(sum(history)), i64::MAX as int),
{
}

/// The friction of an edge is the logistic function of `slope` times the distance of its
/// oscillation from the shift.
pub proof fn law_friction(config: LRBPDecoderConfig, osc: int, one: int)
    requires
        one >= 1,
    ensures
        exists|x: int, y: int|
            #![trigger
                rounded(y, config.friction_slope * (osc - config.friction_shift), one),
                held(x, y, i64::MAX as int)
            ]
            {
                &&& rounded(y, config.friction_slope * (osc - config.friction_shift), one)
                &&& held(x, y, i64::MAX as int)
                &&& config.friction(osc, one) == logistic(
                    config.logistic@,
                    config.logistic_per_unit as int,
                    one,
                    x,
                )
            },
{
    let z = config.friction_slope * (osc - config.friction_shift);
    law_quotient(z, one);
    let y = trunc_div(z, one);
    let x = bound(y, i64::MAX as int);
    assert(rounded(y, z, one) && held(x, y, i64::MAX as int));
}

/// Whether check `c` is satisfied by the present decoding.
pub open spec fn satisfied(d: BpModel, det: Seq<Bit>, c: int) -> bool {
    d.matrix.mul_mod2(d.decoding)[c] ^ det[c] == 0
}

/// An iteration with friction. Every check sends its message times the friction of the edge,
/// which goes by the messages remembered. The message is turned round where the check is not
/// satisfied and the waiting time of the edge, times the temperature, exceeds its oscillation
/// times the number of the iteration.
pub proof fn law_langevin(
    config: LRBPDecoderConfig,
    s: LangevinState,
    det: Seq<Bit>,
    draws: LangevinDraws,
    f: int,
)
    requires
        s.bp.wf(),
        s.history.len() == s.bp.matrix.nnz(),
        0 <= f < s.bp.matrix.nnz(),
        config.langevin_wf(s.bp.config.one()),
    ensures
        ({
            let raw = s.bp.iterate(det, Seq::empty()).c2v[f];
            let next = config.langevin_step(s, det, draws);
            let window: nat = if config.osc_window >= 1 {
                config.osc_window as nat
            } else {
                1
            };
            let osc = oscillation(next.history[f]);
            let one = s.bp.config.one();
            let heat: int = if config.tau >= 1 {
                config.tau as int
            } else {
                1
            };
            let wait: int = if f < draws.waits.len() {
                draws.waits[f] as int
            } else {
                0
            };
            let turned = !satisfied(s.bp, det, s.bp.matrix.col_idx[f] as int) && heat * wait > osc
                * (s.bp.iteration + 1) * one;
            &&& next.history.len() == s.history.len()
            &&& next.history[f] == kept_of(s.history[f], raw, window)
            &&& exists|damped: int|
                {
                    &&& #[trigger] rounded(damped, config.friction(osc, one) * raw, one)
                    &&& turned ==> next.bp.c2v[f] == (-damped) as i64
                    &&& !turned ==> next.bp.c2v[f] == damped as i64
                }
            &&& next.bp.iteration == s.bp.iteration
        }),
{
    let sent = s.bp.check_step(det);
    let raw = s.bp.iterate(det, Seq::empty()).c2v[f];
    assert(raw == sent.c2v[f]);
    let next = config.langevin_step(s, det, draws);
    let one = s.bp.config.one();
    let osc = oscillation(next.history[f]);
    law_quotient(config.friction(osc, one) * raw, one);
    let c = s.bp.matrix.col_idx[f] as int;
    assert(0 <= c < s.bp.matrix.rows);
}

/// An iteration with dropout. A check that is not satisfied and whose coin says so keeps what
/// it sent before; every other sends what it would send in a plain iteration.
pub proof fn law_dropout(
    config: LRBPDecoderConfig,
    s: LangevinState,
    det: Seq<Bit>,
    draws: LangevinDraws,
    f: int,
)
    requires
        s.bp.wf(),
        s.history.len() == s.bp.matrix.nnz(),
        0 <= f < s.bp.matrix.nnz(),
    ensures
        ({
            let raw = s.bp.iterate(det, Seq::empty()).c2v[f];
            let next = config.dropout_step(s, det, draws);
            let c = s.bp.matrix.col_idx[f] as int;
            let keeps = !satisfied(s.bp, det, c) && c < draws.dropouts.len() && draws.dropouts[c];
            &&& keeps ==> next.bp.c2v[f] == s.bp.c2v[f]
            &&& !keeps ==> next.bp.c2v[f] == raw
            &&& next.bp.iteration == s.bp.iteration
        }),
{
    let c = s.bp.matrix.col_idx[f] as int;
    assert(0 <= c < s.bp.matrix.rows);
}

/// Check `c` is the one to be updated next: it may be, none that may be has a lower score, and
/// none after it that may be has the same.
pub open spec fn is_next(config: LRBPDecoderConfig, s: DynState, n: nat, c: int) -> bool {
    &&& 0 <= c < n
    &&& config.dyn_mode is PEBP || s.counts[c] == 0
    &&& forall|k: int|
        0 <= k < n && (config.dyn_mode is PEBP || #[trigger] s.counts[k] == 0) ==> {
            &&& config.score(s, c) <= config.score(s, k)
            &&& k > c ==> config.score(s, c) < config.score(s, k)
        }
}

proof fn lemma_next(config: LRBPDecoderConfig, s: DynState, n: nat)
    ensures
        match config.next_below(s, n) {
            Some(c) => is_next(config, s, n, c),
            None => forall|k: int|
                0 <= k < n ==> !(config.dyn_mode is PEBP || #[trigger] s.counts[k] == 0),
        },
    decreases n,
{
    if n > 0 {
        lemma_next(config, s, (n - 1) as nat);
    }
}

/// The dynamic schedule updates the check of least score next. Without a penalty only checks
/// that were not updated yet may be.
pub proof fn law_next_check(config: LRBPDecoderConfig, s: DynState)
    ensures
        match config.next_below(s, s.bp.matrix.rows) {
            Some(c) => is_next(config, s, s.bp.matrix.rows, c),
            None => forall|k: int|
                0 <= k < s.bp.matrix.rows ==> !(config.dyn_mode is PEBP || #[trigger] s.counts[k]
                    == 0),
        },
        forall|c: int|
            #![trigger config.score(s, c)]
            config.score(s, c) == config.error_probability(
                s.shown,
                s.bp.matrix.row(c),
                s.bp.config.one(),
            ) + (if config.dyn_mode is PEBP {
                config.gamma_dyn_penalty * s.counts[c]
            } else {
                0
            }),
{
    lemma_next(config, s, s.bp.matrix.rows);
}

/// The error probability of a check is half of what the certainty of its variables, all
/// multiplied, leaves. One variable of which nothing is known leaves all of it.
pub proof fn law_error_probability(
    config: LRBPDecoderConfig,
    shown: Seq<i64>,
    row: Seq<usize>,
    n: nat,
    one: int,
)
    ensures
        config.certain(shown, row, 0, one) == one,
        config.certain(shown, row, n + 1, one) == config.certain(shown, row, n, one) * (2
            * logistic(
            config.logistic@,
            config.logistic_per_unit as int,
            one,
            abs(shown[row[n as int] as int] as int),
        ) - one) / one,
        ({
            let p = config.error_probability(shown, row, one);
            let rest = one - config.certain(shown, row, row.len(), one);
            2 * p <= rest < 2 * p + 2
        }),
{
}

/// Updating a check in a dynamic schedule: it sends, then its variables answer one after the
/// other, the posterior of each is shown, and the check counts once more.
pub proof fn law_check_update(
    config: LRBPDecoderConfig,
    s: DynState,
    det: Seq<Bit>,
    coins: Seq<bool>,
    c: int,
)
    requires
        0 <= c < s.counts.len(),
        s.counts[c] < usize::MAX,
    ensures
        ({
            let row = s.bp.matrix.row(c);
            let next = config.updated(s, det, coins, c);
            let sent = DynState { bp: s.bp.check_updated(det, c), ..s };
            &&& next.counts.len() == s.counts.len()
            &&& next.counts[c] == s.counts[c] + 1
            &&& forall|k: int|
                0 <= k < s.counts.len() && k != c ==> #[trigger] next.counts[k] == s.counts[k]
            &&& exists|path: Seq<DynState>|
                {
                    &&& #[trigger] answers(path, sent, coins, row)
                    &&& next.bp == path[row.len() as int].bp
                    &&& next.shown == path[row.len() as int].shown
                }
        }),
{
    let row = s.bp.matrix.row(c);
    let sent = DynState { bp: s.bp.check_updated(det, c), ..s };
    let path = lemma_answers(config, sent, coins, row, row.len());
    assert(row.take(row.len() as int) =~= row);
    assert(answers(path, sent, coins, row));
}

/// Each state of `path` comes from the one before by the answer of the next variable.
pub open spec fn answers(
    path: Seq<DynState>,
    start: DynState,
    coins: Seq<bool>,
    variables: Seq<usize>,
) -> bool {
    &&& path.len() == variables.len() + 1
    &&& path[0] == start
    &&& forall|k: int|
        0 <= k < variables.len() ==> {
            let v = #[trigger] variables[k] as int;
            let bp = path[k].bp.variable_resent(coins, v);
            path[k + 1] == (DynState {
                bp,
                shown: path[k].shown.update(v, bp.posterior[v]),
                counts: path[k].counts,
            })
        }
}

proof fn lemma_answers(
    config: LRBPDecoderConfig,
    s: DynState,
    coins: Seq<bool>,
    variables: Seq<usize>,
    n: nat,
) -> (path: Seq<DynState>)
    requires
        n <= variables.len(),
    ensures
        answers(path, s, coins, variables.take(n as int)),
        path[n as int] == config.shown_after(s, coins, variables, n),
    decreases n,
{
    if n == 0 {
        seq![s]
    } else {
        let m = (n - 1) as nat;
        let before = lemma_answers(config, s, coins, variables, m);
        let path = before.push(config.shown_after(s, coins, variables, n));
        let a = variables.take(m as int);
        let b = variables.take(n as int);
        assert forall|k: int| 0 <= k < b.len() implies ({
            let v = #[trigger] b[k] as int;
            let bp = path[k].bp.variable_resent(coins, v);
            path[k + 1] == (DynState {
                bp,
                shown: path[k].shown.update(v, bp.posterior[v]),
                counts: path[k].counts,
            })
        }) by {
            if k < m {
                assert(a[k] == b[k]);
                assert(path[k] == before[k]);
                assert(path[k + 1] == before[k + 1]);
            } else {
                assert(path[k] == before[m as int]);
            }
        }
        path
    }
}

/// A sweep of `n` updates: as long as a check may be updated, the next one is, with the coins
/// of its turn, and the sweep goes on from there.
pub proof fn law_sweep(
    config: LRBPDecoderConfig,
    s: DynState,
    det: Seq<Bit>,
    coins: Seq<Vec<bool>>,
    base: int,
    n: nat,
)
    requires
        n > 0,
        base >= 0,
    ensures
        config.sweep(s, det, coins, base, 0) == s,
        (exists|c: int| #[trigger] is_next(config, s, s.bp.matrix.rows, c)) ==> exists|c: int|
            {
                &&& #[trigger] is_next(config, s, s.bp.matrix.rows, c)
                &&& config.sweep(s, det, coins, base, n) == config.sweep(
                    config.updated(s, det, thrown(coins, base as nat), c),
                    det,
                    coins,
                    base + 1,
                    (n - 1) as nat,
                )
            },
        (forall|c: int| !#[trigger] is_next(config, s, s.bp.matrix.rows, c)) ==> config.sweep(
            s,
            det,
            coins,
            base,
            n,
        ) == s,
{
    lemma_next(config, s, s.bp.matrix.rows);
    assert(thrown(coins, base as nat) == coins_at(coins, base));
    if exists|c: int| #[trigger] is_next(config, s, s.bp.matrix.rows, c) {
        let c = choose|c: int| #[trigger] is_next(config, s, s.bp.matrix.rows, c);
        assert(config.dyn_mode is PEBP || s.counts[c] == 0);
    }
}

/// One sweep makes as many updates as there are checks, all scored by the posteriors shown,
/// and ends with the decoding of the posteriors.
pub proof fn law_swept(config: LRBPDecoderConfig, d: BpModel, det: Seq<Bit>, coins: Seq<Vec<bool>>)
    ensures
        d.matrix.rows == 0 ==> config.swept(d, det, coins) == d,
        d.matrix.rows > 0 ==> exists|s: DynState|
            {
                let end = #[trigger] config.sweep(
                    s,
                    det,
                    coins,
                    (d.iteration * d.matrix.rows) as int,
                    d.matrix.rows,
                );
                let next = config.swept(d, det, coins);
                &&& s.bp == d
                &&& s.shown == d.posterior
                &&& s.counts.len() == d.matrix.rows
                &&& forall|c: int| 0 <= c < s.counts.len() ==> #[trigger] s.counts[c] == 0
                &&& next == (BpModel { decoding: next.decoding, ..end.bp })
                &&& next.decoding.len() == end.bp.posterior.len()
                &&& forall|v: int|
                    0 <= v < next.decoding.len() ==> #[trigger] next.decoding[v] == (
                    if end.bp.posterior[v] <= 0 {
                        1 as Bit
                    } else {
                        0 as Bit
                    })
            },
{
    if d.matrix.rows > 0 {
        let s = DynState {
            bp: d,
            shown: d.posterior,
            counts: Seq::new(d.matrix.rows, |c: int| 0usize),
        };
        let end = config.sweep(
            s,
            det,
            coins,
            (d.iteration * d.matrix.rows) as int,
            d.matrix.rows,
        );
        assert(config.swept(d, det, coins) == end.bp.decided());
    }
}

/// Sweeping ends with the first sweep that explains the detectors, which is a success; after
/// all sweeps without one it is not. Every sweep counts as an iteration.
pub proof fn law_sweeps(
    config: LRBPDecoderConfig,
    d: BpModel,
    det: Seq<Bit>,
    coins: Seq<Vec<bool>>,
    n: nat,
)
    requires
        n > 0,
    ensures
        ({
            let next = config.swept(d, det, coins);
            let end = config.sweeps(d, det, coins, n);
            let right = d.matrix.rows > 0 && explains(next, det);
            &&& right ==> end == (next, true)
            &&& !right ==> end == config.sweeps(
                BpModel { iteration: next.iteration + 1, ..next },
                det,
                coins,
                (n - 1) as nat,
            )
        }),
        config.sweeps(d, det, coins, 0) == (d, false),
        ({
            let (last, success) = config.sweeps(d, det, coins, config.t_dyn as nat);
            let r = config.dynamic_result(d, det, coins);
            &&& r.success == success
            &&& r.decoding == last.decoding
            &&& r.posterior == last.posterior
            &&& success ==> r.iterations == last.iteration + 1
            &&& !success ==> r.iterations == last.iteration
            &&& r.max_iter == config.t_dyn
        }),
{
}

/// Where checks may keep their messages, iterating ends with the first iteration that explains
/// the detectors.
pub proof fn law_langevin_settles(
    config: LRBPDecoderConfig,
    s: LangevinState,
    det: Seq<Bit>,
    draws: Seq<LangevinDraws>,
    n: nat,
)
    requires
        n > 0,
    ensures
        ({
            let next = config.dropout_step(s, det, draws[s.bp.iteration as int]);
            let end = config.langevin_settle(s, det, draws, n);
            &&& explains(next.bp, det) ==> end == next
            &&& !explains(next.bp, det) ==> end == config.langevin_settle(
                LangevinState {
                    bp: BpModel { iteration: next.bp.iteration + 1, ..next.bp },
                    ..next
                },
                det,
                draws,
                (n - 1) as nat,
            )
        }),
        config.langevin_settle(s, det, draws, 0) == s,
{
}

/// The careful part of an iteration, check by check: the next check sends, then its variables
/// answer in the order of the check.
pub proof fn law_careful_check(
    d: BpModel,
    det: Seq<Bit>,
    coins: Seq<Vec<bool>>,
    base: int,
    checks: Seq<usize>,
    n: nat,
)
    requires
        n < checks.len(),
        base >= 0,
    ensures
        d.targets_updated(det, coins, base, checks, 0) == d,
        ({
            let before = d.targets_updated(det, coins, base, checks, n);
            let c = checks[n as int] as int;
            let row = d.matrix.row(c);
            d.targets_updated(det, coins, base, checks, n + 1) == before.check_updated(
                det,
                c,
            ).answered(thrown(coins, (base + n) as nat), row, row.len())
        }),
{
    assert(thrown(coins, (base + n) as nat) == coins_at(coins, base + n));
}

/// The answers of a list of variables, one by one.
pub proof fn law_answers(d: BpModel, coins: Seq<bool>, variables: Seq<usize>, n: nat)
    requires
        n < variables.len(),
    ensures
        d.answered(coins, variables, 0) == d,
        d.answered(coins, variables, n + 1) == d.answered(coins, variables, n).variable_resent(
            coins,
            variables[n as int] as int,
        ),
{
}

/// The variable half of an iteration that starts from `d` and ends in `next`: variable `v` has
/// the posterior that its own past and the messages of `next` make, sends every check the same
/// less what that check sent, unless it drops its messages, and has an error exactly if its
/// posterior is not positive.
pub open spec fn variable_half(d: BpModel, next: BpModel, coins: Seq<bool>, v: int) -> bool {
    let came = sum(slice_of(d.matrix.col_ptr, next.c2v, v));
    let limit = d.config.limit();
    &&& next.posterior[v] <= 0 ==> next.decoding[v] == 1
    &&& next.posterior[v] > 0 ==> next.decoding[v] == 0
    &&& exists|x: int|
        {
            let silent = d.config.drop_enabled && v < coins.len() && coins[v] && abs(x + came)
                >= abs(d.config.drop_threshold as int);
            &&& #[trigger] carried(d, v, x)
            &&& held(next.posterior[v] as int, x + came, limit)
            &&& forall|e: int|
                0 <= e < d.matrix.nnz() && d.matrix.row_idx[e] == v ==> if silent {
                    #[trigger] next.v2c[e] == 0
                } else {
                    held(
                        next.v2c[e] as int,
                        x + came - next.c2v[d.matrix.csr_to_csc[e] as int],
                        limit,
                    )
                }
        }
}

/// After friction, kicks and dropout the variables go by the messages as they then are.
pub proof fn law_langevin_variables(
    config: LRBPDecoderConfig,
    s: LangevinState,
    det: Seq<Bit>,
    draws: LangevinDraws,
    v: int,
)
    requires
        s.bp.wf(),
        0 <= v < s.bp.cols(),
    ensures
        variable_half(s.bp, config.langevin_step(s, det, draws).bp, draws.coins@, v),
        variable_half(s.bp, config.dropout_step(s, det, draws).bp, draws.coins@, v),
{
    let d = s.bp;
    lemma_part(d, v);
    let x = d.variable_prior(v);
    let violations = residual(d.matrix, det, d.decoding);
    let sent = LangevinState { bp: d.check_step(det), ..s };
    let a = config.modified(sent, violations, draws.waits@).bp;
    let b = config.kept(sent, violations, draws.dropouts@, d.c2v).bp;
    assert(a.variable_prior(v) == x && b.variable_prior(v) == x);
    assert(carried(d, v, x));
}

/// Variable `v` is in a check that is not one of special care.
pub open spec fn in_other_check(m: MatrixModel, checks: Seq<usize>, v: int) -> bool {
    exists|c: int|
        0 <= c < m.rows && !checks.contains(c as usize) && #[trigger] m.row(c).contains(v as usize)
}

/// The answers to the other checks: their variables send in order, all else stays.
pub proof fn law_others_answered(d: BpModel, coins: Seq<bool>, checks: Seq<usize>, n: nat)
    ensures
        d.outside_answered(coins, checks, 0) == d,
        ({
            let before = d.outside_answered(coins, checks, n);
            let next = d.outside_answered(coins, checks, n + 1);
            &&& in_other_check(d.matrix, checks, n as int) ==> next == before.variable_resent(
                coins,
                n as int,
            )
            &&& !in_other_check(d.matrix, checks, n as int) ==> next == before
        }),
{
}

/// A careful iteration: all other checks send and their variables answer, then the checks of
/// special care take their turns, and the decoding is that of the posteriors.
pub proof fn law_careful_iteration(
    d: BpModel,
    det: Seq<Bit>,
    coins: Seq<Vec<bool>>,
    checks: Seq<usize>,
)
    ensures
        ({
            let turn = d.iteration * (checks.len() + 1);
            let sent = d.outside_checked(det, checks, d.matrix.rows);
            let answered = sent.outside_answered(thrown(coins, turn), checks, d.cols());
            let last = answered.targets_updated(
                det,
                coins,
                turn as int + 1,
                checks,
                checks.len(),
            );
            let next = d.surgical_iterate(det, coins, checks);
            &&& next == (BpModel { decoding: next.decoding, ..last })
            &&& next.decoding.len() == last.posterior.len()
            &&& forall|v: int|
                0 <= v < next.decoding.len() ==> {
                    &&& last.posterior[v] <= 0 ==> #[trigger] next.decoding[v] == 1
                    &&& last.posterior[v] > 0 ==> next.decoding[v] == 0
                }
        }),
{
    let turn = d.iteration * (checks.len() + 1);
    assert(turn >= 0) by (nonlinear_arith)
        requires
            turn == d.iteration * (checks.len() + 1),
            d.iteration >= 0,
            checks.len() >= 0,
    ;
    assert(thrown(coins, turn) == coins_at(coins, turn as int));
}

} // verus!
