//! What the legs of a generational search start from and go through.

use vstd::prelude::*;

use crate::arith::{abs, bound, GAIN_LIMIT};
use crate::decoder::zero_bits;
use crate::laws::iteration::{held, law_quotient, rounded};
use crate::laws::legs::{
    ends_in, explains, lemma_run as lemma_min_sum_run, lemma_runs_longer, lemma_runs_none,
    lemma_runs_once, runs_to, thrown,
};
use crate::matrix::Bit;
use crate::min_sum::{coins_at, BpModel};
use crate::slg_mbp::adapt::{
    all_blended, blended, drawn_memory, gamma_draw, AdaptiveDraws, LegDraws, MemberDraws,
    SLGMBPDecoder,
};
use crate::slg_mbp::biased::MemberRunModel;
use crate::slg_mbp::config::{
    AdaptiveMemoryMode, AdaptivePerturbationBiasMode, GammaMode, InitPerturbationMode,
    InitStrategy,
};
use crate::slg_mbp::ga_ops::MemberModel;
use crate::slg_mbp::init_population::{perturbed, stretched, PerturbationModel};
use crate::slg_mbp::phase::{mem_run, mem_step, PhaseModel};
use crate::slg_mbp::search::LegModel;

verus! {

/// `r` is `ratio` times the fixed-point number `factor`, in range. An infinite ratio stays
/// infinite where the factor is positive.
pub open spec fn scaled(r: int, ratio: int, factor: int, one: int) -> bool {
    if ratio == i64::MAX && factor > 0 {
        r == ratio
    } else {
        exists|q: int| #[trigger] rounded(q, ratio * factor, one) && held(r, q, i64::MAX as int)
    }
}

/// `r` is the average of `a` and `b` with the weights `one - w` and `w`, in range. An infinite
/// `a` stays infinite.
pub open spec fn averaged(r: int, a: int, b: int, w: int, one: int) -> bool {
    if a == i64::MAX {
        r == a
    } else {
        exists|q: int|
            #[trigger] rounded(q, a * (one - w) + b * w, one) && held(r, q, i64::MAX as int)
    }
}

/// Multiplying a ratio by one, and by anything else.
pub proof fn law_scaled(ratio: int, factor: int, one: int)
    requires
        one > 0,
        -i64::MAX <= ratio <= i64::MAX,
    ensures
        scaled(stretched(ratio, factor, one), ratio, factor, one),
        factor == one ==> stretched(ratio, factor, one) == ratio,
{
    law_quotient(ratio * factor, one);
    assert(rounded(ratio, ratio * one, one)) by (nonlinear_arith)
        requires
            one > 0,
    ;
}

/// Averaging two ratios; with the weights zero and one the first and the second is left.
pub proof fn law_averaged(a: int, b: int, w: int, one: int)
    requires
        one > 0,
        -i64::MAX <= a <= i64::MAX,
        -i64::MAX <= b <= i64::MAX,
    ensures
        averaged(blended(a, b, w, one), a, b, w, one),
        w == 0 ==> blended(a, b, w, one) == a,
        w == one && a != i64::MAX ==> blended(a, b, w, one) == b,
{
    law_quotient(a * (one - w) + b * w, one);
    law_quotient(a * one, one);
    law_quotient(b * one, one);
    assert(rounded(a, a * one, one) && rounded(b, b * one, one)) by (nonlinear_arith)
        requires
            one > 0,
    ;
    if w == 0 {
        assert(a * (one - w) + b * w == a * one) by (nonlinear_arith)
            requires
                w == 0,
        ;
    }
    if w == one {
        assert(a * (one - w) + b * w == b * one) by (nonlinear_arith)
            requires
                w == one,
        ;
    }
}

/// The share of a posterior that a leg carries over.
pub open spec fn share(dec: SLGMBPDecoder, reset: bool) -> int {
    let damping = dec.config.marginal_carry_damping_factor as int;
    if reset || damping < 0 {
        0
    } else if damping > dec.one() {
        dec.one()
    } else {
        damping
    }
}

/// A leg of a member with the posterior `child` starts variable `v` from `x`: from its prior
/// where nothing is carried over, else from the average of the prior and `eta` times the
/// posterior of the child.
pub open spec fn starts_from(
    dec: SLGMBPDecoder,
    prior: int,
    child: int,
    reset: bool,
    x: int,
) -> bool {
    let sure_enough = match dec.config.marginal_carry_llr_abs_threshold {
        Some(t) => abs(child) >= abs(t as int),
        None => true,
    };
    if share(dec, reset) == 0 || !sure_enough {
        x == prior
    } else {
        exists|s: int|
            {
                &&& #[trigger] scaled(s, child, dec.config.eta as int, dec.one())
                &&& averaged(x, prior, s, share(dec, reset), dec.one())
            }
    }
}

/// What a leg starts from, variable by variable. If all of a posterior is carried over, a
/// variable with a finite prior starts from `eta` times the posterior of the child, and from
/// that posterior itself where `eta` is one.
pub proof fn law_carried(
    dec: SLGMBPDecoder,
    prior: Seq<i64>,
    child: Seq<i64>,
    reset: bool,
    v: int,
)
    requires
        dec.one() >= 1,
        0 <= v < prior.len(),
        prior[v] > i64::MIN,
        child[v] > i64::MIN,
    ensures
        dec.carried(prior, child, reset).len() == prior.len(),
        starts_from(
            dec,
            prior[v] as int,
            child[v] as int,
            reset,
            dec.carried(prior, child, reset)[v] as int,
        ),
        reset ==> dec.carried(prior, child, reset)[v] == prior[v],
        !reset && dec.config.marginal_carry_damping_factor >= dec.one()
            && dec.config.marginal_carry_llr_abs_threshold is None && prior[v] != i64::MAX ==> {
            &&& scaled(
                dec.carried(prior, child, reset)[v] as int,
                child[v] as int,
                dec.config.eta as int,
                dec.one(),
            )
            &&& dec.config.eta == dec.one() ==> dec.carried(prior, child, reset)[v] == child[v]
        },
{
    let one = dec.one();
    let s = stretched(child[v] as int, dec.config.eta as int, one);
    law_scaled(child[v] as int, dec.config.eta as int, one);
    law_averaged(prior[v] as int, s, share(dec, reset), one);
    assert(dec.carry(reset) == share(dec, reset));
}

/// A leg begins in `b`: priors, posteriors and what every variable sends are `start`, no
/// check has sent anything, there is no damping and no error is seen yet.
pub open spec fn begins(
    dec: SLGMBPDecoder,
    start: Seq<i64>,
    max_iter: usize,
    drop: bool,
    b: BpModel,
) -> bool {
    &&& b.matrix == dec.check_matrix@
    &&& b.priors == start
    &&& b.posterior == start
    &&& b.alphas is None
    &&& b.config.alpha is None
    &&& b.config.gamma0 is None
    &&& b.config.max_data is None
    &&& b.config.max_iter == max_iter
    &&& b.config.drop_enabled == drop
    &&& b.config.drop_threshold == dec.config.drop_llr_threshold
    &&& b.config.scale == dec.base_min_sum_config@.scale
    &&& b.iteration == 0
    &&& b.decoding == zero_bits(dec.cols())
    &&& b.c2v.len() == b.matrix.nnz()
    &&& b.v2c.len() == b.matrix.nnz()
    &&& forall|f: int| 0 <= f < b.matrix.nnz() ==> #[trigger] b.c2v[f] == 0
    &&& forall|e: int|
        0 <= e < b.matrix.nnz() ==> #[trigger] b.v2c[e] == start[b.matrix.row_idx[e] as int]
}

/// One iteration of a leg with memory: each prior is averaged with the last posterior by the
/// memory strength of its variable, and takes the place of the prior.
pub open spec fn memory_step(
    det: Seq<Bit>,
    coins: Seq<Vec<bool>>,
    prior: Seq<i64>,
    gamma: Seq<i64>,
) -> spec_fn(BpModel) -> BpModel {
    |d: BpModel|
        {
            let mixed = Seq::new(
                prior.len(),
                |v: int|
                    (choose|x: int|
                        #[trigger] averaged(
                            x,
                            prior[v] as int,
                            d.posterior[v] as int,
                            gamma[v] as int,
                            d.config.one(),
                        )) as i64,
            );
            BpModel {
                iteration: d.iteration + 1,
                ..BpModel { priors: mixed, ..d }.iterate(det, thrown(coins, d.iteration))
            }
        }
}

/// The decoding of a leg explains the detectors.
pub open spec fn leg_done(det: Seq<Bit>) -> spec_fn(BpModel) -> bool {
    |d: BpModel| explains(d, det)
}

/// `p` tells of a leg of at most `n` iterations that ended in `end`.
pub open spec fn phase_of(p: PhaseModel, end: BpModel, det: Seq<Bit>, n: nat) -> bool {
    &&& p.decoding == end.decoding
    &&& p.posterior == end.posterior
    &&& p.iterations == end.iteration
    &&& p.success == (n > 0 && explains(end, det))
}

/// `p` is the outcome of a leg that starts from the posteriors `start` and works with the
/// priors `prior` and the memory strengths `gamma`.
pub open spec fn led_from(
    dec: SLGMBPDecoder,
    det: Seq<Bit>,
    coins: Seq<Vec<bool>>,
    prior: Seq<i64>,
    start: Seq<i64>,
    gamma: Seq<i64>,
    max_iter: usize,
    drop: bool,
    p: PhaseModel,
) -> bool {
    exists|b: BpModel, end: BpModel|
        #![trigger begins(dec, start, max_iter, drop, b), phase_of(p, end, det, max_iter as nat)]
        {
            &&& begins(dec, start, max_iter, drop, b)
            &&& phase_of(p, end, det, max_iter as nat)
            &&& runs_to(
                b,
                end,
                memory_step(det, coins, prior, gamma),
                leg_done(det),
                max_iter as nat,
                p.iterations,
            )
        }
}

proof fn lemma_averaged_unique(a: int, b: int, w: int, one: int, x: int, y: int)
    requires
        one > 0,
        averaged(x, a, b, w, one),
        averaged(y, a, b, w, one),
    ensures
        x == y,
{
    law_quotient(a * (one - w) + b * w, one);
}

proof fn lemma_mem_step(
    d: BpModel,
    det: Seq<Bit>,
    coins: Seq<Vec<bool>>,
    prior: Seq<i64>,
    gamma: Seq<i64>,
)
    requires
        d.config.one() >= 1,
        d.posterior.len() == prior.len(),
        forall|v: int| 0 <= v < prior.len() ==> #[trigger] prior[v] > i64::MIN,
        forall|v: int| 0 <= v < prior.len() ==> #[trigger] d.posterior[v] > i64::MIN,
    ensures
        mem_step(d, det, coins, prior, gamma) == (memory_step(det, coins, prior, gamma))(d),
{
    let one = d.config.one();
    let mixed = all_blended(prior, d.posterior, gamma, one);
    let other = Seq::new(
        prior.len(),
        |v: int|
            (choose|x: int|
                #[trigger] averaged(
                    x,
                    prior[v] as int,
                    d.posterior[v] as int,
                    gamma[v] as int,
                    d.config.one(),
                )) as i64,
    );
    assert forall|v: int| 0 <= v < prior.len() implies mixed[v] == #[trigger] other[v] by {
        let a = prior[v] as int;
        let b = d.posterior[v] as int;
        let w = gamma[v] as int;
        law_averaged(a, b, w, one);
        let x = choose|x: int| #[trigger] averaged(x, a, b, w, one);
        lemma_averaged_unique(a, b, w, one, x, blended(a, b, w, one));
    }
    assert(mixed =~= other);
    assert(thrown(coins, d.iteration) == coins_at(coins, d.iteration as int));
}

proof fn lemma_next_ratios(d: BpModel, det: Seq<Bit>, coins: Seq<bool>)
    requires
        d.config.max_data is None,
    ensures
        forall|v: int| 0 <= v < d.cols() ==> #[trigger] d.iterate(det, coins).posterior[v]
            > i64::MIN,
        d.iterate(det, coins).posterior.len() == d.cols(),
{
    let b = d.check_step(det);
    assert forall|v: int| 0 <= v < d.cols() implies #[trigger] d.iterate(det, coins).posterior[v]
        > i64::MIN by {
        assert(d.iterate(det, coins).posterior[v] == bound(b.total(v), i64::MAX as int) as i64);
    }
}

proof fn lemma_mem_run(
    d: BpModel,
    det: Seq<Bit>,
    coins: Seq<Vec<bool>>,
    prior: Seq<i64>,
    gamma: Seq<i64>,
    n: nat,
) -> (steps: nat)
    requires
        d.config.one() >= 1,
        d.config.max_data is None,
        d.posterior.len() == prior.len(),
        prior.len() == d.cols(),
        forall|v: int| 0 <= v < prior.len() ==> #[trigger] prior[v] > i64::MIN,
        forall|v: int| 0 <= v < prior.len() ==> #[trigger] d.posterior[v] > i64::MIN,
    ensures
        runs_to(
            d,
            mem_run(d, det, coins, prior, gamma, n),
            memory_step(det, coins, prior, gamma),
            leg_done(det),
            n,
            steps,
        ),
        mem_run(d, det, coins, prior, gamma, n).iteration == d.iteration + steps,
    decreases n,
{
    let step = memory_step(det, coins, prior, gamma);
    let done = leg_done(det);
    if n == 0 {
        lemma_runs_none(d, step, done);
        0
    } else {
        let next = mem_step(d, det, coins, prior, gamma);
        lemma_mem_step(d, det, coins, prior, gamma);
        lemma_next_ratios(
            BpModel { priors: all_blended(prior, d.posterior, gamma, d.config.one()), ..d },
            det,
            coins_at(coins, d.iteration as int),
        );
        if next.converged(det) {
            lemma_runs_once(d, step, done, n);
            1
        } else {
            let steps = lemma_mem_run(next, det, coins, prior, gamma, (n - 1) as nat);
            lemma_runs_longer(d, mem_run(d, det, coins, prior, gamma, n), step, done, n, steps);
            steps + 1
        }
    }
}

/// A leg with memory works from the posteriors, with the priors and under the memory
/// strengths that it is given.
pub proof fn law_memory_leg(
    dec: SLGMBPDecoder,
    det: Seq<Bit>,
    coins: Seq<Vec<bool>>,
    prior: Seq<i64>,
    start: Seq<i64>,
    gamma: Seq<i64>,
    max_iter: usize,
    drop: bool,
)
    requires
        dec.wf(),
        dec.fits(prior),
        dec.fits(start),
    ensures
        led_from(
            dec,
            det,
            coins,
            prior,
            start,
            gamma,
            max_iter,
            drop,
            dec.mem_bp_phase(det, coins, prior, start, gamma, max_iter, drop),
        ),
{
    let b = dec.fresh(start, max_iter, drop);
    assert(begins(dec, start, max_iter, drop, b));
    let n = max_iter as nat;
    let steps = lemma_mem_run(b, det, coins, prior, gamma, n);
    let end = mem_run(b, det, coins, prior, gamma, n);
    let p = dec.mem_bp_phase(det, coins, prior, start, gamma, max_iter, drop);
    assert(phase_of(p, end, det, n));
}

/// What was drawn for variable `v`; zero where nothing was.
pub open spec fn dealt(draws: Seq<i64>, v: int) -> int {
    if v < draws.len() {
        draws[v] as int
    } else {
        0
    }
}

/// Whether a coin was thrown for variable `v` and fell on its head.
pub open spec fn tossed(coins: Seq<bool>, v: int) -> bool {
    v < coins.len() && coins[v]
}

/// `r` is `ratio` and `delta` in all, in range. An infinite ratio stays infinite.
pub open spec fn moved(r: int, ratio: int, delta: int) -> bool {
    if ratio == i64::MAX {
        r == ratio
    } else {
        held(r, ratio + delta, i64::MAX as int)
    }
}

/// `r` is `ratio` divided by the fixed-point number `factor`, in range. An infinite ratio stays
/// infinite.
pub open spec fn divided(r: int, ratio: int, factor: int, one: int) -> bool {
    if ratio == i64::MAX {
        r == ratio
    } else {
        exists|q: int| #[trigger] rounded(q, ratio * one, factor) && held(r, q, i64::MAX as int)
    }
}

/// Whether variable `v` of a child is one of those that a bias is for: those that were once
/// chosen for good, else those nearer to zero than the threshold.
pub open spec fn doubtful(
    mask: Option<Seq<bool>>,
    posterior: Seq<i64>,
    threshold: int,
    v: int,
) -> bool {
    match mask {
        Some(m) => tossed(m, v),
        None => abs(posterior[v] as int) < abs(threshold),
    }
}

/// `r` is `ratio` with the bias of variable `v`: a sum or a product, away from an error where
/// the sign was drawn to be positive and towards one otherwise.
pub open spec fn nudged(
    dec: SLGMBPDecoder,
    r: int,
    ratio: int,
    draws: AdaptiveDraws,
    v: int,
) -> bool {
    let away = dec.config.adaptive_perturbation_sign_mode is Random && tossed(draws.positive@, v);
    let fixed = dec.config.adaptive_perturbation_factor_mode is Fixed;
    match dec.config.adaptive_perturbation_bias_mode {
        AdaptivePerturbationBiasMode::Additive => {
            let amount = if fixed {
                dec.config.adaptive_perturbation_log_factor as int
            } else {
                dealt(draws.log_factors@, v)
            };
            &&& away ==> moved(r, ratio, amount)
            &&& !away ==> moved(r, ratio, -amount)
        },
        AdaptivePerturbationBiasMode::Scale => {
            let asked = if fixed {
                dec.config.adaptive_perturbation_factor as int
            } else {
                dealt(draws.factors@, v)
            };
            let factor = if asked >= 1 {
                asked
            } else {
                1
            };
            &&& away ==> divided(r, ratio, factor, dec.one())
            &&& !away ==> scaled(r, ratio, factor, dec.one())
        },
    }
}

/// A bias works on the doubtful variables and leaves all others as they are.
pub proof fn law_bias(
    dec: SLGMBPDecoder,
    target: Seq<i64>,
    posterior: Seq<i64>,
    mask: Option<Seq<bool>>,
    threshold: int,
    draws: AdaptiveDraws,
    v: int,
)
    requires
        dec.one() >= 1,
        0 <= v < target.len(),
        target[v] > i64::MIN,
    ensures
        ({
            let r = dec.biased(target, posterior, mask, threshold, draws);
            &&& r.len() == target.len()
            &&& dec.config.adaptive_perturbation && doubtful(mask, posterior, threshold, v)
                ==> nudged(dec, r[v] as int, target[v] as int, draws, v)
            &&& !dec.config.adaptive_perturbation || !doubtful(mask, posterior, threshold, v)
                ==> r[v] == target[v]
            &&& r[v] > i64::MIN
        }),
{
    let ratio = target[v] as int;
    let one = dec.one();
    let asked = if dec.config.adaptive_perturbation_factor_mode is Fixed {
        dec.config.adaptive_perturbation_factor as int
    } else {
        dealt(draws.factors@, v)
    };
    let factor = if asked >= 1 {
        asked
    } else {
        1
    };
    law_scaled(ratio, factor, one);
    law_quotient(ratio * one, factor);
}

/// The prior of variable `v` with which a leg of `child` works is `x`. What is biased is the
/// prior of the code or, if biases add up, the last biased prior of the child.
pub open spec fn prior_biased(
    dec: SLGMBPDecoder,
    base: Seq<i64>,
    child: MemberModel,
    threshold: int,
    draws: AdaptiveDraws,
    v: int,
    x: int,
) -> bool {
    let adds_up = dec.config.adaptive_perturbation_prior_base_mode is PreviousBiased;
    let from = if adds_up && child.adaptive_prior is Some {
        child.adaptive_prior->0[v] as int
    } else {
        base[v] as int
    };
    let wanted = dec.config.adaptive_perturbation_target is Prior
        || dec.config.adaptive_perturbation_target is Both;
    let left = adds_up && dec.config.adaptive_perturbation_reset_on_threshold_exit && abs(
        child.posterior[v] as int,
    ) >= abs(threshold);
    if !wanted || left {
        x == base[v]
    } else if dec.config.adaptive_perturbation && doubtful(child.mask, child.posterior, threshold, v) {
        nudged(dec, x, from, draws, v)
    } else {
        x == from
    }
}

/// `r` is the prior `x` of variable `v` under a perturbation.
pub open spec fn disturbed(r: int, x: int, state: PerturbationModel, one: int, v: int) -> bool {
    match state {
        PerturbationModel::Unperturbed => r == x,
        PerturbationModel::Additive(noise) => if v < noise.len() {
            moved(r, x, noise[v] as int)
        } else {
            r == x
        },
        PerturbationModel::Multiplicative(scale) => if v < scale.len() {
            scaled(r, x, scale[v] as int, one)
        } else {
            r == x
        },
    }
}

/// A perturbation works on each prior for itself.
pub proof fn law_disturbed(prior: Seq<i64>, state: PerturbationModel, one: int, v: int)
    requires
        one >= 1,
        0 <= v < prior.len(),
        prior[v] > i64::MIN,
    ensures
        perturbed(prior, state, one).len() == prior.len(),
        disturbed(perturbed(prior, state, one)[v] as int, prior[v] as int, state, one, v),
        perturbed(prior, state, one)[v] > i64::MIN,
{
    match state {
        PerturbationModel::Multiplicative(scale) => {
            law_scaled(prior[v] as int, scale[v] as int, one);
        },
        _ => {},
    }
}

/// What a draw makes of the mode of the first population.
pub open spec fn drawn_state(mode: InitPerturbationMode, values: Seq<i64>) -> PerturbationModel {
    match mode {
        InitPerturbationMode::MultiplicativeUniform => PerturbationModel::Multiplicative(values),
        InitPerturbationMode::AdditiveGaussian => PerturbationModel::Additive(values),
    }
}

/// A child as it enters a leg: which variables are doubtful may be fixed now, its priors are
/// biased, and it may get a new perturbation.
pub open spec fn entered(
    dec: SLGMBPDecoder,
    base: Seq<i64>,
    child: MemberModel,
    threshold: int,
    draws: MemberDraws,
    m: MemberModel,
) -> bool {
    let renews = dec.config.continue_perturbation && (dec.config.sequential_mc
        || dec.config.perturbation_method is Resample || child.perturbation is Unperturbed);
    &&& m.posterior == child.posterior
    &&& m.fitness == child.fitness
    &&& m.adjacent == child.adjacent
    &&& renews ==> m.perturbation == drawn_state(
        dec.config.init_perturbation_mode,
        draws.perturbation@,
    )
    &&& !renews ==> m.perturbation == child.perturbation
    &&& child.mask is Some || dec.config.adaptive_perturbation_variable_base_mode
        is PreviousLegPosterior ==> m.mask == child.mask
    &&& child.mask is None && dec.config.adaptive_perturbation_variable_base_mode
        is FirstLegPosteriorFixed ==> {
        &&& m.mask matches Some(k) && k.len() == child.posterior.len() && forall|v: int|
            0 <= v < k.len() ==> #[trigger] k[v] == (abs(child.posterior[v] as int) < abs(
                threshold,
            ))
    }
    &&& m.adaptive_prior matches Some(prior) && prior.len() == base.len() && forall|v: int|
        0 <= v < base.len() ==> prior_biased(
            dec,
            base,
            child,
            threshold,
            draws.prior,
            v,
            #[trigger] prior[v] as int,
        )
}

/// How a child enters a leg.
pub proof fn law_entered(
    dec: SLGMBPDecoder,
    base: Seq<i64>,
    child: MemberModel,
    threshold: int,
    draws: MemberDraws,
)
    requires
        dec.wf(),
        dec.fits(base),
        child.wf(dec.cols()),
    ensures
        entered(dec, base, child, threshold, draws, dec.readied(base, child, threshold, draws)),
        dec.fits(dec.readied(base, child, threshold, draws).adaptive_prior->0),
{
    let m = dec.readied(base, child, threshold, draws);
    let masked = dec.masked(child, threshold);
    let prior = m.adaptive_prior->0;
    let adds_up = dec.config.adaptive_perturbation_prior_base_mode is PreviousBiased;
    let target = if adds_up && child.adaptive_prior is Some {
        child.adaptive_prior->0
    } else {
        base
    };
    let rebased = dec.biased(target, child.posterior, masked.mask, threshold, draws.prior);
    assert forall|v: int| 0 <= v < base.len() implies prior_biased(
        dec,
        base,
        child,
        threshold,
        draws.prior,
        v,
        #[trigger] prior[v] as int,
    ) && prior[v] > i64::MIN by {
        assert(target[v] > i64::MIN);
        assert(base[v] > i64::MIN);
        law_bias(dec, target, child.posterior, masked.mask, threshold, draws.prior, v);
        assert(doubtful(masked.mask, child.posterior, threshold, v) == doubtful(
            child.mask,
            child.posterior,
            threshold,
            v,
        ));
    }
}

/// The posterior of variable `v` from which a leg starts is `x`, where the prior is `prior`
/// and the child brings the posterior `posterior`.
pub open spec fn start_biased(
    dec: SLGMBPDecoder,
    prior: Seq<i64>,
    posterior: Seq<i64>,
    mask: Option<Seq<bool>>,
    threshold: int,
    reset: bool,
    draws: AdaptiveDraws,
    v: int,
    x: int,
) -> bool {
    let wanted = dec.config.adaptive_perturbation_target is Posterior
        || dec.config.adaptive_perturbation_target is Both;
    exists|s: int|
        {
            &&& #[trigger] starts_from(dec, prior[v] as int, posterior[v] as int, reset, s)
            &&& if wanted && dec.config.adaptive_perturbation && doubtful(
                mask,
                posterior,
                threshold,
                v,
            ) {
                nudged(dec, x, s, draws, v)
            } else {
                x == s
            }
        }
}

/// What a leg starts from.
pub proof fn law_leg_start(
    dec: SLGMBPDecoder,
    prior: Seq<i64>,
    posterior: Seq<i64>,
    mask: Option<Seq<bool>>,
    threshold: int,
    reset: bool,
    draws: AdaptiveDraws,
)
    requires
        dec.wf(),
        dec.fits(prior),
        dec.fits(posterior),
    ensures
        ({
            let start = dec.biased_start(prior, posterior, mask, threshold, reset, draws);
            &&& dec.fits(start)
            &&& forall|v: int|
                0 <= v < dec.cols() ==> start_biased(
                    dec,
                    prior,
                    posterior,
                    mask,
                    threshold,
                    reset,
                    draws,
                    v,
                    #[trigger] start[v] as int,
                )
        }),
{
    let start = dec.biased_start(prior, posterior, mask, threshold, reset, draws);
    let plain = dec.carried(prior, posterior, reset);
    assert forall|v: int| 0 <= v < dec.cols() implies start_biased(
        dec,
        prior,
        posterior,
        mask,
        threshold,
        reset,
        draws,
        v,
        #[trigger] start[v] as int,
    ) && start[v] > i64::MIN by {
        assert(prior[v] > i64::MIN && posterior[v] > i64::MIN);
        law_carried(dec, prior, posterior, reset, v);
        assert(plain[v] > i64::MIN);
        law_bias(dec, plain, posterior, mask, threshold, draws, v);
        assert(starts_from(dec, prior[v] as int, posterior[v] as int, reset, plain[v] as int));
    }
}

/// `g` is the memory strength that a leg draws for variable `v`.
pub open spec fn strength_dealt(leg: LegDraws, v: int, g: int) -> bool {
    exists|x: int|
        #[trigger] held(x, dealt(leg.gammas@, v), GAIN_LIMIT as int) && g == if tossed(
            leg.gamma_flips@,
            v,
        ) {
            -x
        } else {
            x
        }
}

/// `g` is the memory strength of variable `v` in a leg of `child`. Where confidence decides,
/// a doubtful variable gets the first strength with a drawn sign. Where the surroundings of
/// unexplained checks do, a variable there gets one of its own, which may be turned negative
/// the sooner the more confident it is. All others get the one set or drawn.
pub open spec fn strength_of(
    dec: SLGMBPDecoder,
    child: MemberModel,
    threshold: int,
    draws: MemberDraws,
    v: int,
    g: int,
) -> bool {
    let first = dec.config.init_gamma as int;
    let size = abs(child.posterior[v] as int);
    if dec.config.adaptive_perturbation && dec.config.adaptive_perturbation_target
        is MemoryStrength {
        let left = dec.config.adaptive_perturbation_reset_on_threshold_exit && size >= abs(
            threshold,
        );
        if doubtful(child.mask, child.posterior, threshold, v) && !left {
            if dec.config.adaptive_perturbation_sign_mode is Random && tossed(draws.signs@, v) {
                g == abs(first)
            } else {
                g == -abs(first)
            }
        } else {
            g == first
        }
    } else if dec.config.adaptive_memory && child.adjacent.contains(v as usize) {
        exists|x: int|
            {
                &&& #[trigger] held(x, dealt(draws.adjacent_gammas@, v), GAIN_LIMIT as int)
                &&& match dec.config.adaptive_memory_mode {
                    AdaptiveMemoryMode::DirectInterval => g == x,
                    AdaptiveMemoryMode::ProbabilisticFlip => {
                        let confidence = if size >= 1 {
                            size
                        } else {
                            1
                        };
                        &&& abs(g) == abs(x)
                        &&& confidence * dealt(draws.adjacent_waits@, v)
                            > dec.config.adaptive_memory_zeta * dec.one() ==> g <= 0
                        &&& confidence * dealt(draws.adjacent_waits@, v)
                            <= dec.config.adaptive_memory_zeta * dec.one() ==> g >= 0
                    },
                }
            }
    } else {
        match dec.config.gamma_mode {
            GammaMode::Fixed => g == dec.config.gamma_fixed,
            GammaMode::IntervalRandomPerVariable => strength_dealt(draws.legs[0], v, g),
        }
    }
}

proof fn lemma_strength_dealt(n: nat, leg: LegDraws, v: int)
    requires
        0 <= v < n,
    ensures
        drawn_memory(n, leg).len() == n,
        strength_dealt(leg, v, drawn_memory(n, leg)[v] as int),
        strength_dealt(leg, v, gamma_draw(leg, v)),
        -GAIN_LIMIT <= gamma_draw(leg, v) <= GAIN_LIMIT,
{
    assert(held(
        bound(dealt(leg.gammas@, v), GAIN_LIMIT as int),
        dealt(leg.gammas@, v),
        GAIN_LIMIT as int,
    ));
}

proof fn lemma_strength(
    dec: SLGMBPDecoder,
    child: MemberModel,
    member: MemberModel,
    threshold: int,
    draws: MemberDraws,
    gamma: Seq<i64>,
)
    requires
        dec.wf(),
        child.wf(dec.cols()),
        entered(dec, dec.priors(), child, threshold, draws, member),
        gamma == match dec.biased_memory(child.posterior, member.mask, threshold, draws.signs@) {
            Some(x) => x,
            None => dec.member_memory(child.posterior, child.adjacent, draws, draws.legs[0]),
        },
    ensures
        gamma.len() == dec.cols(),
        forall|v: int|
            0 <= v < dec.cols() ==> strength_of(
                dec,
                child,
                threshold,
                draws,
                v,
                #[trigger] gamma[v] as int,
            ),
{
    assert forall|v: int| 0 <= v < dec.cols() implies strength_of(
        dec,
        child,
        threshold,
        draws,
        v,
        #[trigger] gamma[v] as int,
    ) by {
        lemma_strength_dealt(dec.cols(), draws.legs[0], v);
        let x = bound(dealt(draws.adjacent_gammas@, v), GAIN_LIMIT as int);
        assert(held(x, dealt(draws.adjacent_gammas@, v), GAIN_LIMIT as int));
        assert(doubtful(member.mask, child.posterior, threshold, v) == doubtful(
            child.mask,
            child.posterior,
            threshold,
            v,
        ));
    }
}

/// `run` is a leg of `child` in generation `g` that works with the priors `prior` and starts
/// from the posteriors `start`.
pub open spec fn works_from(
    dec: SLGMBPDecoder,
    det: Seq<Bit>,
    g: nat,
    child: MemberModel,
    threshold: int,
    draws: MemberDraws,
    run: LegModel,
    prior: Seq<i64>,
    start: Seq<i64>,
) -> bool {
    let plain_relay = !dec.config.biased_relay_mode && match dec.config.switch_relay_leg {
        Some(leg) => g + 1 >= leg,
        None => false,
    };
    &&& led_from(
        dec,
        det,
        draws.legs[0].coins@,
        prior,
        start,
        run.gamma,
        dec.config.t_mem,
        dec.config.enable_variable_message_drop,
        run.phase,
    )
    &&& run.gamma.len() == dec.cols()
    &&& prior.len() == dec.cols()
    &&& start.len() == dec.cols()
    &&& plain_relay ==> {
        &&& run.member == child
        &&& prior == dec.priors()
        &&& start == child.posterior
        &&& forall|v: int|
            0 <= v < dec.cols() ==> strength_dealt(draws.legs[0], v, #[trigger] run.gamma[v] as int)
    }
    &&& !plain_relay ==> {
        &&& entered(dec, dec.priors(), child, threshold, draws, run.member)
        &&& forall|v: int|
            0 <= v < dec.cols() ==> leg_prior_of(dec, run.member, v, #[trigger] prior[v] as int)
        &&& forall|v: int|
            0 <= v < dec.cols() ==> start_biased(
                dec,
                prior,
                child.posterior,
                run.member.mask,
                threshold,
                dec.config.reset_marginal,
                draws.legs[0].marginal,
                v,
                #[trigger] start[v] as int,
            )
        &&& forall|v: int|
            0 <= v < dec.cols() ==> strength_of(
                dec,
                child,
                threshold,
                draws,
                v,
                #[trigger] run.gamma[v] as int,
            )
    }
}

/// The leg of a child in a generation works from what the child carries. In a generation of
/// plain relay it starts from the posteriors of the child as they are, with the priors of the
/// code and drawn memory strengths. Otherwise the child enters the leg, and every variable
/// starts from its own posterior as far as the parameters carry it over.
pub proof fn law_generation_leg(
    dec: SLGMBPDecoder,
    det: Seq<Bit>,
    g: nat,
    child: MemberModel,
    threshold: int,
    draws: MemberDraws,
)
    requires
        dec.wf(),
        child.wf(dec.cols()),
        draws.legs.len() > 0,
    ensures
        exists|prior: Seq<i64>, start: Seq<i64>| #[trigger]
            works_from(
                dec,
                det,
                g,
                child,
                threshold,
                draws,
                dec.generation_leg(det, g, child, threshold, draws),
                prior,
                start,
            ),
{
    let run = dec.generation_leg(det, g, child, threshold, draws);
    let leg = draws.legs[0];
    let drop = dec.config.enable_variable_message_drop;
    assert(dec.fits(dec.priors()));
    if dec.switched(g) {
        law_memory_leg(
            dec,
            det,
            leg.coins@,
            dec.priors(),
            child.posterior,
            run.gamma,
            dec.config.t_mem,
            drop,
        );
        assert forall|v: int| 0 <= v < dec.cols() implies strength_dealt(
            leg,
            v,
            #[trigger] run.gamma[v] as int,
        ) by {
            lemma_strength_dealt(dec.cols(), leg, v);
        }
        assert(works_from(
            dec,
            det,
            g,
            child,
            threshold,
            draws,
            run,
            dec.priors(),
            child.posterior,
        ));
    } else {
        law_entered(dec, dec.priors(), child, threshold, draws);
        let member = dec.readied(dec.priors(), child, threshold, draws);
        let prior = dec.leg_prior(member);
        lemma_leg_prior(dec, member);
        law_leg_start(
            dec,
            prior,
            child.posterior,
            member.mask,
            threshold,
            dec.config.reset_marginal,
            leg.marginal,
        );
        lemma_strength(dec, child, member, threshold, draws, run.gamma);
        let start = dec.biased_start(
            prior,
            child.posterior,
            member.mask,
            threshold,
            dec.config.reset_marginal,
            leg.marginal,
        );
        law_memory_leg(
            dec,
            det,
            leg.coins@,
            prior,
            start,
            run.gamma,
            dec.config.t_mem,
            drop,
        );
        assert(works_from(dec, det, g, child, threshold, draws, run, prior, start));
    }
}

/// The prior of variable `v` in a leg of a member that entered it is `x`.
pub open spec fn leg_prior_of(dec: SLGMBPDecoder, member: MemberModel, v: int, x: int) -> bool {
    let biased = member.adaptive_prior->0[v] as int;
    if dec.config.continue_perturbation {
        disturbed(x, biased, member.perturbation, dec.one(), v)
    } else {
        x == biased
    }
}

proof fn lemma_leg_prior(dec: SLGMBPDecoder, member: MemberModel)
    requires
        dec.wf(),
        dec.fits(member.adaptive_prior->0),
    ensures
        dec.fits(dec.leg_prior(member)),
        forall|v: int|
            0 <= v < dec.cols() ==> leg_prior_of(
                dec,
                member,
                v,
                #[trigger] dec.leg_prior(member)[v] as int,
            ),
{
    let prior = member.adaptive_prior->0;
    assert forall|v: int| 0 <= v < dec.cols() implies leg_prior_of(
        dec,
        member,
        v,
        #[trigger] dec.leg_prior(member)[v] as int,
    ) && dec.leg_prior(member)[v] > i64::MIN by {
        assert(prior[v] > i64::MIN);
        law_disturbed(prior, member.perturbation, dec.one(), v);
    }
}

/// Where nothing resets, damps, thresholds or biases what is carried over, the leg of a child
/// starts every variable of finite prior from `eta` times the posterior of that child; with an
/// `eta` of one from that posterior itself, so that children of different posteriors start
/// their legs from different posteriors.
pub proof fn law_child_is_carried(
    dec: SLGMBPDecoder,
    det: Seq<Bit>,
    g: nat,
    child: MemberModel,
    threshold: int,
    draws: MemberDraws,
)
    requires
        dec.wf(),
        child.wf(dec.cols()),
        draws.legs.len() > 0,
        dec.config.switch_relay_leg is None,
        !dec.config.reset_marginal,
        dec.config.marginal_carry_damping_factor == dec.one(),
        dec.config.marginal_carry_llr_abs_threshold is None,
        !dec.config.adaptive_perturbation,
        !dec.config.continue_perturbation,
        forall|v: int| 0 <= v < dec.cols() ==> #[trigger] dec.priors()[v] != i64::MAX,
        !(dec.config.adaptive_perturbation_prior_base_mode is PreviousBiased)
            || child.adaptive_prior is None,
    ensures
        ({
            let run = dec.generation_leg(det, g, child, threshold, draws);
            exists|start: Seq<i64>|
                {
                    &&& #[trigger] led_from(
                        dec,
                        det,
                        draws.legs[0].coins@,
                        dec.priors(),
                        start,
                        run.gamma,
                        dec.config.t_mem,
                        dec.config.enable_variable_message_drop,
                        run.phase,
                    )
                    &&& start.len() == dec.cols()
                    &&& forall|v: int|
                        0 <= v < dec.cols() ==> scaled(
                            #[trigger] start[v] as int,
                            child.posterior[v] as int,
                            dec.config.eta as int,
                            dec.one(),
                        )
                    &&& dec.config.eta == dec.one() ==> start == child.posterior
                }
        }),
{
    law_generation_leg(dec, det, g, child, threshold, draws);
    let run = dec.generation_leg(det, g, child, threshold, draws);
    let member = dec.readied(dec.priors(), child, threshold, draws);
    let prior = dec.leg_prior(member);
    assert(prior =~= dec.priors());
    let start = dec.biased_start(
        prior,
        child.posterior,
        member.mask,
        threshold,
        dec.config.reset_marginal,
        draws.legs[0].marginal,
    );
    assert(dec.fits(dec.priors()));
    law_leg_start(
        dec,
        prior,
        child.posterior,
        member.mask,
        threshold,
        false,
        draws.legs[0].marginal,
    );
    law_memory_leg(
        dec,
        det,
        draws.legs[0].coins@,
        prior,
        start,
        run.gamma,
        dec.config.t_mem,
        dec.config.enable_variable_message_drop,
    );
    assert forall|v: int| 0 <= v < dec.cols() implies scaled(
        #[trigger] start[v] as int,
        child.posterior[v] as int,
        dec.config.eta as int,
        dec.one(),
    ) && (dec.config.eta == dec.one() ==> start[v] == child.posterior[v]) by {
        assert(prior[v] > i64::MIN && child.posterior[v] > i64::MIN);
        assert(prior[v] == dec.priors()[v]);
        law_carried(dec, prior, child.posterior, false, v);
    }
    if dec.config.eta == dec.one() {
        assert(start =~= child.posterior);
    }
}

/// The priors of the first phase are those of the code less the bias set.
pub proof fn law_first_prior(dec: SLGMBPDecoder, v: int)
    requires
        dec.wf(),
        0 <= v < dec.cols(),
    ensures
        dec.first_prior().len() == dec.cols(),
        moved(
            dec.first_prior()[v] as int,
            dec.base_min_sum_config@.priors[v] as int,
            -dec.config.initial_prior_bias,
        ),
        dec.first_prior()[v] > i64::MIN,
{
}

/// The iterations that the first phase may do with memory.
pub open spec fn first_allowed(dec: SLGMBPDecoder, observe: bool) -> usize {
    if dec.config.biased_relay_mode && !observe {
        dec.config.biased_relay_t_0
    } else {
        dec.config.t_ms
    }
}

/// A member of the first population with the priors `init` is decoded from them: without
/// memory, or with the first memory strength from what they carry over.
pub proof fn law_first_phase(dec: SLGMBPDecoder, det: Seq<Bit>, init: Seq<i64>, observe: bool)
    requires
        dec.wf(),
        dec.fits(init),
    ensures
        ({
            let p = dec.first_phase(det, init, observe);
            match dec.config.init_strategy {
                InitStrategy::MinSum => {
                    let n = dec.config.t_ms;
                    exists|b: BpModel, end: BpModel|
                        #![trigger begins(dec, init, n, false, b), phase_of(p, end, det, n as nat)]
                        {
                            &&& begins(dec, init, n, false, b)
                            &&& phase_of(p, end, det, n as nat)
                            &&& ends_in(b, end, det, Seq::empty(), n as nat, p.iterations)
                        }
                },
                InitStrategy::MemBp => {
                    exists|start: Seq<i64>, gamma: Seq<i64>|
                        {
                            &&& #[trigger] led_from(
                                dec,
                                det,
                                Seq::empty(),
                                dec.first_prior(),
                                start,
                                gamma,
                                first_allowed(dec, observe),
                                false,
                                p,
                            )
                            &&& gamma.len() == dec.cols()
                            &&& start.len() == dec.cols()
                            &&& forall|v: int|
                                0 <= v < dec.cols() ==> #[trigger] gamma[v]
                                    == dec.config.init_gamma
                            &&& forall|v: int|
                                0 <= v < dec.cols() ==> starts_from(
                                    dec,
                                    dec.first_prior()[v] as int,
                                    init[v] as int,
                                    false,
                                    #[trigger] start[v] as int,
                                )
                        }
                },
            }
        }),
{
    let p = dec.first_phase(det, init, observe);
    match dec.config.init_strategy {
        InitStrategy::MinSum => {
            let n = dec.config.t_ms;
            let b = dec.fresh(init, n, false);
            assert(begins(dec, init, n, false, b));
            let steps = lemma_min_sum_run(b, det, Seq::empty(), n as nat);
            let end = b.run(det, Seq::empty(), n as nat);
            assert(phase_of(p, end, det, n as nat));
        },
        InitStrategy::MemBp => {
            let n = first_allowed(dec, observe);
            let prior = dec.first_prior();
            let start = dec.carried(prior, init, false);
            assert forall|v: int| 0 <= v < dec.cols() implies starts_from(
                dec,
                prior[v] as int,
                init[v] as int,
                false,
                #[trigger] start[v] as int,
            ) && start[v] > i64::MIN && prior[v] > i64::MIN by {
                law_first_prior(dec, v);
                assert(init[v] > i64::MIN);
                law_carried(dec, prior, init, false, v);
            }
            assert(dec.fits(prior));
            law_memory_leg(
                dec,
                det,
                Seq::empty(),
                prior,
                start,
                dec.constant_gamma(),
                n,
                false,
            );
        },
    }
}

/// `p` is a leg of a member in a round of biased relay that follows one with the posterior
/// `posterior`.
pub open spec fn round_leg(
    dec: SLGMBPDecoder,
    det: Seq<Bit>,
    member: MemberModel,
    threshold: int,
    posterior: Seq<i64>,
    reset: bool,
    leg: LegDraws,
    gamma: Seq<i64>,
    max_iter: usize,
    p: PhaseModel,
) -> bool {
    exists|prior: Seq<i64>, start: Seq<i64>|
        {
            &&& #[trigger] led_from(
                dec,
                det,
                leg.coins@,
                prior,
                start,
                gamma,
                max_iter,
                dec.config.enable_variable_message_drop,
                p,
            )
            &&& prior.len() == dec.cols()
            &&& start.len() == dec.cols()
            &&& forall|v: int|
                0 <= v < dec.cols() ==> leg_prior_of(dec, member, v, #[trigger] prior[v] as int)
            &&& forall|v: int|
                0 <= v < dec.cols() ==> start_biased(
                    dec,
                    prior,
                    posterior,
                    member.mask,
                    threshold,
                    reset,
                    leg.marginal,
                    v,
                    #[trigger] start[v] as int,
                )
        }
}

proof fn lemma_round_leg(
    dec: SLGMBPDecoder,
    det: Seq<Bit>,
    member: MemberModel,
    threshold: int,
    posterior: Seq<i64>,
    reset: bool,
    leg: LegDraws,
    gamma: Seq<i64>,
    max_iter: usize,
)
    requires
        dec.wf(),
        dec.fits(member.adaptive_prior->0),
        dec.fits(posterior),
    ensures
        ({
            let prior = dec.leg_prior(member);
            let p = dec.mem_bp_phase(
                det,
                leg.coins@,
                prior,
                dec.biased_start(prior, posterior, member.mask, threshold, reset, leg.marginal),
                gamma,
                max_iter,
                dec.config.enable_variable_message_drop,
            );
            &&& round_leg(
                dec,
                det,
                member,
                threshold,
                posterior,
                reset,
                leg,
                gamma,
                max_iter,
                p,
            )
            &&& dec.fits(p.posterior)
        }),
{
    let prior = dec.leg_prior(member);
    lemma_leg_prior(dec, member);
    law_leg_start(dec, prior, posterior, member.mask, threshold, reset, leg.marginal);
    let start = dec.biased_start(prior, posterior, member.mask, threshold, reset, leg.marginal);
    let drop = dec.config.enable_variable_message_drop;
    law_memory_leg(dec, det, leg.coins@, prior, start, gamma, max_iter, drop);
    lemma_mem_ratios(
        dec.fresh(start, max_iter, drop),
        det,
        leg.coins@,
        prior,
        gamma,
        max_iter as nat,
    );
}

proof fn lemma_mem_ratios(
    d: BpModel,
    det: Seq<Bit>,
    coins: Seq<Vec<bool>>,
    prior: Seq<i64>,
    gamma: Seq<i64>,
    n: nat,
)
    requires
        d.config.max_data is None,
        d.posterior.len() == d.cols(),
        forall|v: int| 0 <= v < d.cols() ==> #[trigger] d.posterior[v] > i64::MIN,
    ensures
        mem_run(d, det, coins, prior, gamma, n).posterior.len() == d.cols(),
        forall|v: int|
            0 <= v < d.cols() ==> #[trigger] mem_run(d, det, coins, prior, gamma, n).posterior[v]
                > i64::MIN,
    decreases n,
{
    if n > 0 {
        let next = mem_step(d, det, coins, prior, gamma);
        lemma_next_ratios(
            BpModel { priors: all_blended(prior, d.posterior, gamma, d.config.one()), ..d },
            det,
            coins_at(coins, d.iteration as int),
        );
        if !next.converged(det) {
            lemma_mem_ratios(next, det, coins, prior, gamma, (n - 1) as nat);
        }
    }
}

/// The legs of a member in a round of biased relay: `phases[0]` has the first memory strength
/// for every variable, each later one draws its own and starts from the posteriors with which
/// the one before ended.
pub open spec fn round_legs(
    dec: SLGMBPDecoder,
    det: Seq<Bit>,
    member: MemberModel,
    threshold: int,
    draws: MemberDraws,
    phases: Seq<PhaseModel>,
    gammas: Seq<Seq<i64>>,
) -> bool {
    &&& phases.len() > 0
    &&& gammas.len() == phases.len()
    &&& round_leg(
        dec,
        det,
        member,
        threshold,
        member.posterior,
        dec.config.reset_marginal,
        draws.legs[0],
        gammas[0],
        dec.config.biased_relay_t_0,
        phases[0],
    )
    &&& gammas[0].len() == dec.cols()
    &&& forall|v: int| 0 <= v < dec.cols() ==> #[trigger] gammas[0][v] == dec.config.init_gamma
    &&& forall|l: int|
        0 < l < phases.len() ==> {
            &&& round_leg(
                dec,
                det,
                member,
                threshold,
                phases[l - 1].posterior,
                false,
                draws.legs[l],
                gammas[l],
                dec.config.biased_relay_r_relay_iter,
                #[trigger] phases[l],
            )
            &&& gammas[l].len() == dec.cols()
            &&& !phases[l - 1].success
        }
    &&& forall|l: int, v: int|
        0 < l < phases.len() && 0 <= v < dec.cols() ==> strength_dealt(
            draws.legs[l],
            v,
            #[trigger] gammas[l][v] as int,
        )
}

/// The iterations of legs in all.
pub open spec fn spent_in(phases: Seq<PhaseModel>) -> nat
    decreases phases.len(),
{
    if phases.len() == 0 {
        0
    } else {
        spent_in(phases.drop_last()) + phases.last().iterations
    }
}

/// `r` tells of such legs.
pub open spec fn round_told(phases: Seq<PhaseModel>, r: MemberRunModel) -> bool {
    &&& r.phase == phases[phases.len() - 1]
    &&& r.iterations == spent_in(phases)
    &&& forall|l: int| 0 <= l < phases.len() ==> (#[trigger] phases[l]).iterations <= r.longest
    &&& exists|l: int| 0 <= l < phases.len() && (#[trigger] phases[l]).iterations == r.longest
    &&& r.constant == phases[0].success
    &&& r.converged == (phases.len() > 1 && phases[phases.len() - 1].success)
}

proof fn lemma_more_legs(
    dec: SLGMBPDecoder,
    det: Seq<Bit>,
    member: MemberModel,
    threshold: int,
    draws: MemberDraws,
    phases: Seq<PhaseModel>,
    gammas: Seq<Seq<i64>>,
    p: PhaseModel,
    gamma: Seq<i64>,
)
    requires
        round_legs(dec, det, member, threshold, draws, phases, gammas),
        !phases[phases.len() - 1].success,
        gamma == drawn_memory(dec.cols(), draws.legs[phases.len() as int]),
        round_leg(
            dec,
            det,
            member,
            threshold,
            phases[phases.len() - 1].posterior,
            false,
            draws.legs[phases.len() as int],
            gamma,
            dec.config.biased_relay_r_relay_iter,
            p,
        ),
    ensures
        round_legs(dec, det, member, threshold, draws, phases.push(p), gammas.push(gamma)),
{
    let a = phases.push(p);
    let b = gammas.push(gamma);
    assert(b[0] == gammas[0]);
    assert forall|v: int| 0 <= v < dec.cols() implies #[trigger] b[0][v] == dec.config.init_gamma by {
        assert(gammas[0][v] == dec.config.init_gamma);
    }
    assert forall|k: int, v: int| 0 < k < a.len() && 0 <= v < dec.cols() implies strength_dealt(
        draws.legs[k],
        v,
        #[trigger] b[k][v] as int,
    ) by {
        if k < phases.len() {
            assert(b[k][v] == gammas[k][v]);
        } else {
            lemma_strength_dealt(dec.cols(), draws.legs[phases.len() as int], v);
        }
    }
    assert forall|k: int| 0 < k < a.len() implies round_leg(
        dec,
        det,
        member,
        threshold,
        a[k - 1].posterior,
        false,
        draws.legs[k],
        b[k],
        dec.config.biased_relay_r_relay_iter,
        #[trigger] a[k],
    ) && b[k].len() == dec.cols() && !a[k - 1].success by {
        if k < phases.len() {
            assert(a[k] == phases[k]);
        }
    }
}

proof fn lemma_more_told(
    phases: Seq<PhaseModel>,
    r: MemberRunModel,
    p: PhaseModel,
    next: MemberRunModel,
)
    requires
        phases.len() > 0,
        round_told(phases, r),
        !phases[0].success,
        next == (MemberRunModel {
            phase: p,
            iterations: r.iterations + p.iterations,
            longest: if p.iterations > r.longest {
                p.iterations
            } else {
                r.longest
            },
            constant: false,
            converged: p.success,
        }),
    ensures
        round_told(phases.push(p), next),
{
    let a = phases.push(p);
    assert(a.drop_last() =~= phases);
    let w = choose|w: int| 0 <= w < phases.len() && (#[trigger] phases[w]).iterations == r.longest;
    assert(a[w] == phases[w]);
    assert(a[phases.len() as int] == p);
    assert forall|k: int| 0 <= k < a.len() implies (#[trigger] a[k]).iterations <= next.longest by {
        if k < phases.len() {
            assert(a[k] == phases[k]);
        }
    }
    if p.iterations > r.longest {
        assert(a[phases.len() as int].iterations == next.longest);
    } else {
        assert(a[w].iterations == next.longest);
    }
}

#[verifier::rlimit(40)]
proof fn lemma_relay_legs(
    dec: SLGMBPDecoder,
    det: Seq<Bit>,
    member: MemberModel,
    threshold: int,
    draws: MemberDraws,
    r: MemberRunModel,
    l: nat,
    phases: Seq<PhaseModel>,
    gammas: Seq<Seq<i64>>,
)
    requires
        dec.wf(),
        dec.fits(member.adaptive_prior->0),
        dec.fits(r.phase.posterior),
        l <= dec.config.biased_relay_r_relay,
        phases.len() == l + 1,
        round_legs(dec, det, member, threshold, draws, phases, gammas),
        round_told(phases, r),
        !phases[0].success,
    ensures
        exists|a: Seq<PhaseModel>, b: Seq<Seq<i64>>|
            {
                let all = dec.relay_legs(det, member, threshold, draws, r, l);
                &&& #[trigger] round_legs(dec, det, member, threshold, draws, a, b)
                &&& round_told(a, all)
                &&& a.len() <= dec.config.biased_relay_r_relay + 1
                &&& a[a.len() - 1].success || a.len() == dec.config.biased_relay_r_relay + 1
            },
    decreases dec.config.biased_relay_r_relay - l,
{
    if l >= dec.config.biased_relay_r_relay || r.converged {
        assert(round_legs(dec, det, member, threshold, draws, phases, gammas));
    } else {
        let leg = draws.legs[l as int + 1];
        let gamma = drawn_memory(dec.cols(), leg);
        let prior = dec.leg_prior(member);
        let p = dec.mem_bp_phase(
            det,
            leg.coins@,
            prior,
            dec.biased_start(
                prior,
                r.phase.posterior,
                member.mask,
                threshold,
                false,
                leg.marginal,
            ),
            gamma,
            dec.config.biased_relay_r_relay_iter,
            dec.config.enable_variable_message_drop,
        );
        lemma_round_leg(
            dec,
            det,
            member,
            threshold,
            r.phase.posterior,
            false,
            leg,
            gamma,
            dec.config.biased_relay_r_relay_iter,
        );
        let next = MemberRunModel {
            phase: p,
            iterations: r.iterations + p.iterations,
            longest: if p.iterations > r.longest {
                p.iterations
            } else {
                r.longest
            },
            constant: false,
            converged: p.success,
        };
        let a = phases.push(p);
        let b = gammas.push(gamma);
        lemma_more_legs(dec, det, member, threshold, draws, phases, gammas, p, gamma);
        lemma_more_told(phases, r, p, next);
        lemma_relay_legs(dec, det, member, threshold, draws, next, l + 1, a, b);
    }
}

/// A member in a round of biased relay runs a leg of constant memory strength, and as long as
/// none explains the detectors, relay legs, as many as the parameters allow.
pub proof fn law_member_round(
    dec: SLGMBPDecoder,
    det: Seq<Bit>,
    member: MemberModel,
    threshold: int,
    draws: MemberDraws,
)
    requires
        dec.wf(),
        dec.fits(member.posterior),
        dec.fits(member.adaptive_prior->0),
    ensures
        exists|phases: Seq<PhaseModel>, gammas: Seq<Seq<i64>>|
            {
                &&& #[trigger] round_legs(dec, det, member, threshold, draws, phases, gammas)
                &&& round_told(phases, dec.member_run(det, member, threshold, draws))
                &&& phases.len() <= dec.config.biased_relay_r_relay + 1
                &&& phases[phases.len() - 1].success || phases.len()
                    == dec.config.biased_relay_r_relay + 1
            },
{
    let p = dec.constant_leg(det, member, threshold, draws);
    lemma_round_leg(
        dec,
        det,
        member,
        threshold,
        member.posterior,
        dec.config.reset_marginal,
        draws.legs[0],
        dec.constant_gamma(),
        dec.config.biased_relay_t_0,
    );
    let first = MemberRunModel {
        phase: p,
        iterations: p.iterations,
        longest: p.iterations,
        constant: p.success,
        converged: false,
    };
    let phases = seq![p];
    let gammas = seq![dec.constant_gamma()];
    reveal_with_fuel(spent_in, 2);
    assert(phases.drop_last() =~= Seq::empty());
    assert(round_legs(dec, det, member, threshold, draws, phases, gammas));
    assert(phases[0].iterations == first.longest);
    assert(round_told(phases, first));
    if !p.success {
        lemma_relay_legs(dec, det, member, threshold, draws, first, 0, phases, gammas);
    }
}

} // verus!
