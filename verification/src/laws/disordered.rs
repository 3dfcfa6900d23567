//! What disorder in damping, memory and bias does, and how posteriors are carried on.

use vstd::prelude::*;

use crate::arith::{abs, lemma_shrunk_bound, sum};
use crate::decoder::ResultModel;
use crate::disordered_bp::{
    mean, DisorderedBPDecoderConfig, DisorderedDraws, DisorderedRun, SamplingMode,
};
use crate::laws::dual::some_of;
use crate::laws::iteration::{held, law_quotient, rounded};
use crate::laws::legs::{
    explains, lemma_runs_longer, lemma_runs_none, lemma_runs_once, reports, runs_to,
};
use crate::matrix::Bit;
use crate::min_sum::BpModel;

verus! {

/// `values` are the ones that a mode takes: one for all variables or those drawn.
pub open spec fn taken_by(
    mode: SamplingMode,
    fixed: i64,
    drawn: Seq<i64>,
    cols: nat,
    values: Seq<i64>,
) -> bool {
    &&& mode is IntervalRandom ==> values == drawn
    &&& mode is Fixed ==> values.len() == cols && forall|v: int|
        0 <= v < cols ==> #[trigger] values[v] == fixed
}

/// Leg `leg` starts in `s` after one that ended in `d`. The first leg starts from the priors
/// with the first damping and memory strength. A later one has dampings and memory strengths
/// of its own and starts from the share `carry_marginal_factor` of the posteriors.
pub open spec fn disordered_start(
    config: DisorderedBPDecoderConfig,
    draws: Seq<DisorderedDraws>,
    d: BpModel,
    leg: nat,
    s: BpModel,
) -> bool {
    &&& s.matrix == d.matrix
    &&& s.config == d.config
    &&& s.priors == d.config.priors
    &&& s.decoding == d.decoding
    &&& s.iteration == 0
    &&& s.c2v.len() == d.matrix.nnz()
    &&& s.v2c.len() == d.matrix.nnz()
    &&& forall|f: int| 0 <= f < d.matrix.nnz() ==> #[trigger] s.c2v[f] == 0
    &&& forall|e: int|
        0 <= e < d.matrix.nnz() ==> #[trigger] s.v2c[e]
            == d.config.priors[d.matrix.row_idx[e] as int]
    &&& s.alphas is Some
    &&& leg == 0 ==> {
        &&& s.posterior == d.config.priors
        &&& s.memory.len() == d.cols()
        &&& s.alphas->0.len() == d.cols()
        &&& forall|v: int| 0 <= v < d.cols() ==> #[trigger] s.memory[v] == config.initial_gamma
        &&& forall|v: int| 0 <= v < d.cols() ==> #[trigger] s.alphas->0[v] == config.initial_alpha
    }
    &&& leg > 0 ==> {
        &&& taken_by(
            config.alpha_mode,
            config.alpha_fixed,
            draws[leg - 1].alphas@,
            d.cols(),
            s.alphas->0,
        )
        &&& taken_by(
            config.gamma_mode,
            config.gamma_fixed,
            draws[leg - 1].gammas@,
            d.cols(),
            s.memory,
        )
        &&& s.posterior.len() == d.posterior.len()
        &&& forall|v: int|
            0 <= v < d.posterior.len() ==> rounded(
                #[trigger] s.posterior[v] as int,
                config.carry_marginal_factor * d.posterior[v],
                d.config.one(),
            )
    }
}

/// How a leg starts.
pub proof fn law_disordered_start(
    config: DisorderedBPDecoderConfig,
    draws: Seq<DisorderedDraws>,
    d: BpModel,
    leg: nat,
)
    requires
        d.wf(),
        config.wf(d.config.one()),
    ensures
        disordered_start(config, draws, d, leg, config.leg_start(draws, d, leg)),
{
    let s = config.leg_start(draws, d, leg);
    let one = d.config.one();
    if leg > 0 {
        assert forall|v: int| 0 <= v < d.posterior.len() implies rounded(
            #[trigger] s.posterior[v] as int,
            config.carry_marginal_factor * d.posterior[v],
            one,
        ) by {
            let x = config.carry_marginal_factor * d.posterior[v];
            law_quotient(x, one);
            lemma_shrunk_bound(
                config.carry_marginal_factor as int,
                d.posterior[v] as int,
                one,
            );
            assert(d.posterior[v] > i64::MIN);
        }
    }
}

/// Whether variable `v` is biased in a later leg, after a leg that ended with `previous`.
pub open spec fn is_biased(config: DisorderedBPDecoderConfig, previous: Seq<i64>, v: int) -> bool {
    config.bias_apply_mode is All || abs(previous[v] as int) <= abs(
        config.bias_filter_threshold as int,
    )
}

/// The bias of variable `v` in leg `leg`, whose sign the coin turns.
pub open spec fn bias_of(
    config: DisorderedBPDecoderConfig,
    draws: Seq<DisorderedDraws>,
    leg: nat,
    v: int,
) -> int {
    let size: int = match config.bias_mode {
        SamplingMode::Fixed => config.bias_fixed as int,
        SamplingMode::IntervalRandom => draws[leg - 1].biases[v] as int,
    };
    if draws[leg - 1].flips[v] {
        -size
    } else {
        size
    }
}

/// One iteration of a leg. In the first leg it is a plain one. In a later one the posteriors
/// of the biased variables have their bias on top, those of the others are left, and the
/// decoding is that of what results.
pub proof fn law_disordered_iteration(
    config: DisorderedBPDecoderConfig,
    draws: Seq<DisorderedDraws>,
    det: Seq<Bit>,
    before: BpModel,
    d: BpModel,
    leg: nat,
)
    requires
        d.wf(),
        before.wf(),
        before.matrix == d.matrix,
        config.wf(d.config.one()),
        leg > 0 ==> config.supplies(draws[leg - 1], d.cols()),
    ensures
        ({
            let plain = d.iterate(det, Seq::empty());
            let next = d.disordered_step(det, config.bias(draws, before, leg));
            &&& leg == 0 ==> next == (BpModel { iteration: d.iteration + 1, ..plain })
            &&& leg > 0 ==> {
                &&& next == (BpModel {
                    iteration: d.iteration + 1,
                    posterior: next.posterior,
                    decoding: next.decoding,
                    ..plain
                })
                &&& next.posterior.len() == d.cols()
                &&& next.decoding.len() == d.cols()
                &&& forall|v: int|
                    0 <= v < d.cols() ==> {
                        &&& is_biased(config, before.posterior, v) ==> held(
                            #[trigger] next.posterior[v] as int,
                            plain.posterior[v] + bias_of(config, draws, leg, v),
                            i64::MAX as int,
                        )
                        &&& !is_biased(config, before.posterior, v) ==> next.posterior[v]
                            == plain.posterior[v]
                        &&& next.decoding[v] == (if next.posterior[v] <= 0 {
                            1 as Bit
                        } else {
                            0 as Bit
                        })
                    }
            }
        }),
{
    let plain = d.iterate(det, Seq::empty());
    let bias = config.bias(draws, before, leg);
    let next = d.disordered_step(det, bias);
    if leg > 0 {
        let biases = config.biases_at(draws, leg, before.cols());
        let mask = config.mask_at(leg, before.posterior);
        assert(bias == Some((biases, mask)));
        assert forall|v: int| 0 <= v < d.cols() implies biases[v] == bias_of(config, draws, leg, v)
            && #[trigger] mask[v] == is_biased(config, before.posterior, v) by {
            if config.bias_mode is IntervalRandom {
                assert(draws[leg - 1].biases[v] > i64::MIN);
            }
        }
        assert forall|v: int| 0 <= v < d.cols() implies ({
            &&& is_biased(config, before.posterior, v) ==> held(
                #[trigger] next.posterior[v] as int,
                plain.posterior[v] + bias_of(config, draws, leg, v),
                i64::MAX as int,
            )
            &&& !is_biased(config, before.posterior, v) ==> next.posterior[v]
                == plain.posterior[v]
        }) by {
            assert(mask[v] == is_biased(config, before.posterior, v));
        }
    }
}

/// One iteration of leg `leg`, which follows one that ended in `before`.
pub open spec fn disordered_tick(
    config: DisorderedBPDecoderConfig,
    draws: Seq<DisorderedDraws>,
    det: Seq<Bit>,
    before: BpModel,
    leg: nat,
) -> spec_fn(BpModel) -> BpModel {
    |d: BpModel| d.disordered_step(det, config.bias(draws, before, leg))
}

/// The decoding explains the detectors.
pub open spec fn disordered_done(det: Seq<Bit>) -> spec_fn(BpModel) -> bool {
    |d: BpModel| explains(d, det)
}

proof fn lemma_disordered(
    config: DisorderedBPDecoderConfig,
    draws: Seq<DisorderedDraws>,
    det: Seq<Bit>,
    before: BpModel,
    leg: nat,
    d: BpModel,
    n: nat,
) -> (steps: nat)
    ensures
        runs_to(
            d,
            d.disordered(det, config.bias(draws, before, leg), n),
            disordered_tick(config, draws, det, before, leg),
            disordered_done(det),
            n,
            steps,
        ),
        d.disordered(det, config.bias(draws, before, leg), n).iteration == d.iteration + steps,
    decreases n,
{
    let bias = config.bias(draws, before, leg);
    let step = disordered_tick(config, draws, det, before, leg);
    let done = disordered_done(det);
    if n == 0 {
        lemma_runs_none(d, step, done);
        0
    } else {
        let next = d.disordered_step(det, bias);
        assert(step(d) == next);
        assert(next.iteration == d.iteration + 1);
        if next.converged(det) {
            lemma_runs_once(d, step, done, n);
            1
        } else {
            let steps = lemma_disordered(config, draws, det, before, leg, next, (n - 1) as nat);
            lemma_runs_longer(d, d.disordered(det, bias, n), step, done, n, steps);
            steps + 1
        }
    }
}

/// The iterations that leg `l` may do.
pub open spec fn allowed(config: DisorderedBPDecoderConfig, l: int) -> nat {
    if l == 0 {
        some_of(config.t_0)
    } else {
        some_of(config.iteration_per_leg)
    }
}

/// `legs` are the legs of a disordered decoder that went through the states `ends`, the first
/// of which is the one before all legs.
pub open spec fn disordered_legs(
    config: DisorderedBPDecoderConfig,
    draws: Seq<DisorderedDraws>,
    det: Seq<Bit>,
    legs: Seq<ResultModel>,
    ends: Seq<BpModel>,
) -> bool {
    let limit = (config.t_0 + (some_of(config.maximum_leg) - 1) * config.iteration_per_leg) as nat;
    &&& ends.len() == legs.len() + 1
    &&& forall|l: int|
        0 <= l < legs.len() ==> {
            &&& #[trigger] runs_to(
                config.leg_start(draws, ends[l], l as nat),
                ends[l + 1],
                disordered_tick(config, draws, det, ends[l], l as nat),
                disordered_done(det),
                allowed(config, l),
                legs[l].iterations,
            )
            &&& reports(legs[l], ends[l + 1], det, limit, legs[l].iterations)
        }
    &&& forall|l: int| 0 <= l < legs.len() - 1 ==> !(#[trigger] legs[l]).success
}

proof fn lemma_one_more(
    config: DisorderedBPDecoderConfig,
    draws: Seq<DisorderedDraws>,
    det: Seq<Bit>,
    legs: Seq<ResultModel>,
    ends: Seq<BpModel>,
    leg: ResultModel,
    end: BpModel,
)
    requires
        disordered_legs(config, draws, det, legs, ends),
        legs.len() > 0 ==> !legs[legs.len() - 1].success,
        runs_to(
            config.leg_start(draws, ends[legs.len() as int], legs.len()),
            end,
            disordered_tick(config, draws, det, ends[legs.len() as int], legs.len()),
            disordered_done(det),
            allowed(config, legs.len() as int),
            leg.iterations,
        ),
        reports(
            leg,
            end,
            det,
            (config.t_0 + (some_of(config.maximum_leg) - 1) * config.iteration_per_leg) as nat,
            leg.iterations,
        ),
    ensures
        disordered_legs(config, draws, det, legs.push(leg), ends.push(end)),
{
    let more = legs.push(leg);
    let b = ends.push(end);
    let limit = (config.t_0 + (some_of(config.maximum_leg) - 1) * config.iteration_per_leg) as nat;
    assert forall|l: int| 0 <= l < more.len() implies #[trigger] runs_to(
        config.leg_start(draws, b[l], l as nat),
        b[l + 1],
        disordered_tick(config, draws, det, b[l], l as nat),
        disordered_done(det),
        allowed(config, l),
        more[l].iterations,
    ) && reports(more[l], b[l + 1], det, limit, more[l].iterations) by {
        if l < legs.len() {
            assert(runs_to(
                config.leg_start(draws, ends[l], l as nat),
                ends[l + 1],
                disordered_tick(config, draws, det, ends[l], l as nat),
                disordered_done(det),
                allowed(config, l),
                legs[l].iterations,
            ));
        }
    }
    assert forall|l: int| 0 <= l < more.len() - 1 implies !(#[trigger] more[l]).success by {
        assert(more[l] == legs[l]);
    }
}

#[verifier::rlimit(40)]
proof fn lemma_legs(
    config: DisorderedBPDecoderConfig,
    draws: Seq<DisorderedDraws>,
    det: Seq<Bit>,
    t: DisorderedRun,
    leg: nat,
    ends: Seq<BpModel>,
) -> (b: Seq<BpModel>)
    requires
        t.legs.len() == leg,
        leg <= some_of(config.maximum_leg),
        disordered_legs(config, draws, det, t.legs, ends),
        t.last == ends[leg as int],
        leg > 0 ==> !t.legs[leg - 1].success,
    ensures
        ({
            let all = config.legs_from(draws, det, t, leg);
            &&& disordered_legs(config, draws, det, all.legs, b)
            &&& b[0] == ends[0]
            &&& all.last == b[b.len() - 1]
            &&& 0 < all.legs.len() <= some_of(config.maximum_leg)
            &&& all.legs.len() < some_of(config.maximum_leg) ==> all.legs[all.legs.len() - 1].success
        }),
    decreases some_of(config.maximum_leg) - leg,
{
    if leg >= some_of(config.maximum_leg) {
        ends
    } else {
        let next = config.leg_added(draws, det, t, leg);
        let s = config.leg_start(draws, t.last, leg);
        assert(s.iteration == 0);
        let n = config.budget(leg);
        assert(n == allowed(config, leg as int));
        let steps = lemma_disordered(config, draws, det, t.last, leg, s, n);
        let r = next.legs.last();
        assert(r.iterations == steps);
        lemma_one_more(config, draws, det, t.legs, ends, r, next.last);
        assert(next.legs == t.legs.push(r));
        let b = ends.push(next.last);
        if next.legs.last().success {
            b
        } else {
            lemma_legs(config, draws, det, next, leg + 1, b)
        }
    }
}

/// A disordered decoder runs leg after leg, each from the state in which the one before
/// ended, until one explains the detectors or all are run.
pub proof fn law_disordered_legs(
    config: DisorderedBPDecoderConfig,
    draws: Seq<DisorderedDraws>,
    det: Seq<Bit>,
    d: BpModel,
)
    ensures
        ({
            let t = config.run(draws, det, d);
            exists|ends: Seq<BpModel>|
                {
                    &&& #[trigger] disordered_legs(config, draws, det, t.legs, ends)
                    &&& ends[0] == d
                    &&& t.last == ends[ends.len() - 1]
                    &&& 0 < t.legs.len() <= some_of(config.maximum_leg)
                    &&& t.legs.len() < some_of(config.maximum_leg)
                        ==> t.legs[t.legs.len() - 1].success
                }
        }),
{
    let t = DisorderedRun { legs: Seq::empty(), last: d };
    assert(disordered_legs(config, draws, det, t.legs, seq![d]));
    let b = lemma_legs(config, draws, det, t, 0, seq![d]);
}

/// A mean is the sum by the number of values, rounded towards zero.
pub proof fn law_mean(values: Seq<i64>)
    requires
        values.len() > 0,
    ensures
        exists|q: int|
            #[trigger] rounded(q, sum(values), values.len() as int) && held(
                mean(values),
                q,
                i64::MAX as int,
            ),
        mean(Seq::empty()) == 0,
{
    law_quotient(sum(values), values.len() as int);
}

} // verus!
