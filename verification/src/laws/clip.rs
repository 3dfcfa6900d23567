//! What clipping does to posteriors, and how a decoder with clipped posteriors hands them on.

use vstd::prelude::*;

use crate::arith::abs;
use crate::clip_bp::{ClipBpConfig, ClipState, ClipTrace, SignUpdateMode};
use crate::decoder::ResultModel;
use crate::laws::iteration::law_variable;
use crate::laws::legs::{
    explains, lemma_runs_longer, lemma_runs_none, lemma_runs_once, reports, runs_to, thrown,
};
use crate::laws::relay::{leg_thrown, takes_over};
use crate::matrix::Bit;
use crate::min_sum::{coins_at, BpModel};
use crate::relay::{leg_coins, successes};

verus! {

/// After every iteration each posterior is at least `min_llr` away from zero. One that was so
/// before keeps its distance, any other gets the least one. What is clipped takes the place of
/// the posteriors and is kept for the next iteration; the decoding is still that of the
/// posteriors before.
pub proof fn law_clip_magnitude(
    config: ClipBpConfig,
    s: ClipState,
    det: Seq<Bit>,
    coins: Seq<bool>,
    v: int,
)
    requires
        s.bp.wf(),
        config.wf(),
        0 <= v < s.bp.cols(),
    ensures
        ({
            let plain = s.bp.iterate(det, coins);
            let next = config.step(s, det, coins);
            let least = abs(config.min_llr as int);
            let before = abs(plain.posterior[v] as int);
            let after = abs(next.bp.posterior[v] as int);
            &&& after >= least
            &&& before >= least ==> after == before
            &&& before < least ==> after == least
            &&& next.previous == next.bp.posterior
            &&& next.gammas == s.gammas
            &&& next.bp.posterior.len() == s.bp.cols()
            &&& next.bp == (BpModel {
                iteration: s.bp.iteration + 1,
                posterior: next.bp.posterior,
                ..plain
            })
        }),
{
    let plain = s.bp.iterate(det, coins);
    assert(plain.posterior[v] > i64::MIN) by {
        law_variable(s.bp, det, coins, v);
    }
}

/// The sign of a clipped posterior. It is that of the posterior, and of the one clipped before
/// where the posterior is zero; or the sign that the posterior last had beyond the least
/// distance from zero, which is remembered; or that of the posterior with the share of memory
/// taken out.
pub proof fn law_clip_sign(
    config: ClipBpConfig,
    s: ClipState,
    det: Seq<Bit>,
    coins: Seq<bool>,
    v: int,
)
    requires
        s.bp.wf(),
        config.wf(),
        config.min_llr != 0,
        0 <= v < s.bp.cols(),
    ensures
        ({
            let plain = s.bp.iterate(det, coins).posterior[v];
            let next = config.step(s, det, coins);
            let clipped = next.bp.posterior[v];
            let least = abs(config.min_llr as int);
            match config.sign_mode {
                SignUpdateMode::Naive => {
                    &&& plain > 0 ==> clipped > 0
                    &&& plain < 0 ==> clipped < 0
                    &&& plain == 0 ==> (clipped > 0 <==> s.previous[v] >= 0)
                    &&& next.latch == s.latch
                },
                SignUpdateMode::Hysteresis => {
                    &&& plain > least ==> clipped > 0
                    &&& plain < -least ==> clipped < 0
                    &&& -least <= plain <= least ==> (clipped > 0 <==> s.latch[v])
                    &&& next.latch[v] <==> clipped > 0
                },
                SignUpdateMode::NeighborOnly => {
                    let one = s.bp.config.one();
                    let memory = s.gammas[v] * (s.previous[v] - s.bp.config.priors[v]);
                    &&& clipped > 0 <==> plain * one >= memory
                    &&& next.latch == s.latch
                },
            }
        }),
{
    assert(s.gammas[v] * (s.previous[v] - s.bp.config.priors[v]) == -(s.gammas[v] * (
    s.bp.config.priors[v] - s.previous[v]))) by (nonlinear_arith);
    assert(s.bp.iterate(det, coins).posterior[v] > i64::MIN) by {
        law_variable(s.bp, det, coins, v);
    }
}

/// One iteration of a leg.
pub open spec fn clip_step(
    config: ClipBpConfig,
    det: Seq<Bit>,
    coins: Seq<Vec<bool>>,
) -> spec_fn(ClipState) -> ClipState {
    |s: ClipState| config.step(s, det, thrown(coins, s.bp.iteration))
}

/// The decoding of the leg explains the detectors.
pub open spec fn clip_done(det: Seq<Bit>) -> spec_fn(ClipState) -> bool {
    |s: ClipState| explains(s.bp, det)
}

proof fn lemma_run(
    config: ClipBpConfig,
    s: ClipState,
    det: Seq<Bit>,
    coins: Seq<Vec<bool>>,
    n: nat,
) -> (steps: nat)
    ensures
        runs_to(
            s,
            config.run(s, det, coins, n),
            clip_step(config, det, coins),
            clip_done(det),
            n,
            steps,
        ),
        config.run(s, det, coins, n).bp.iteration == s.bp.iteration + steps,
    decreases n,
{
    let step = clip_step(config, det, coins);
    let done = clip_done(det);
    if n == 0 {
        lemma_runs_none(s, step, done);
        0
    } else {
        let next = config.step(s, det, coins_at(coins, s.bp.iteration as int));
        assert(thrown(coins, s.bp.iteration) == coins_at(coins, s.bp.iteration as int));
        assert(step(s) == next);
        if next.bp.converged(det) {
            lemma_runs_once(s, step, done, n);
            1
        } else {
            let steps = lemma_run(config, next, det, coins, (n - 1) as nat);
            lemma_runs_longer(s, config.run(s, det, coins, n), step, done, n, steps);
            steps + 1
        }
    }
}

/// The iterations that leg `l` may do.
pub open spec fn allowed(config: ClipBpConfig, l: int) -> nat {
    if l == 0 {
        config.max_iter_first as nat
    } else {
        config.max_iter as nat
    }
}

/// A leg starts under the memory strengths `gammas`, with a positive sign held for every
/// variable.
pub open spec fn strengthened(start: ClipState, gammas: Seq<i64>) -> bool {
    &&& start.gammas == gammas
    &&& start.bp.memory == gammas
    &&& start.latch.len() == start.bp.cols()
    &&& forall|v: int| 0 <= v < start.latch.len() ==> #[trigger] start.latch[v]
}

/// `legs` are the legs of a decoder with clipped posteriors that started in `starts` and ended
/// in `ends`.
pub open spec fn clips_on(
    config: ClipBpConfig,
    draws: Seq<Vec<i64>>,
    coins: Seq<Vec<Vec<bool>>>,
    det: Seq<Bit>,
    legs: Seq<ResultModel>,
    starts: Seq<ClipState>,
    ends: Seq<ClipState>,
) -> bool {
    &&& legs.len() == starts.len()
    &&& legs.len() == ends.len()
    &&& legs.len() > 0
    &&& forall|l: int|
        0 < l < legs.len() ==> {
            &&& takes_over((#[trigger] starts[l]).bp, ends[l - 1].bp)
            &&& starts[l].previous == ends[l - 1].previous
            &&& strengthened(starts[l], draws[l - 1]@)
        }
    &&& forall|l: int|
        0 <= l < legs.len() ==> {
            &&& #[trigger] runs_to(
                starts[l],
                ends[l],
                clip_step(config, det, leg_thrown(coins, l)),
                clip_done(det),
                allowed(config, l),
                legs[l].iterations,
            )
            &&& reports(legs[l], ends[l].bp, det, allowed(config, l), legs[l].iterations)
        }
    &&& forall|l: int|
        0 < l < legs.len() ==> successes(#[trigger] legs.take(l)) < config.max_solutions
}

proof fn lemma_clips_from(
    config: ClipBpConfig,
    draws: Seq<Vec<i64>>,
    coins: Seq<Vec<Vec<bool>>>,
    det: Seq<Bit>,
    t: ClipTrace,
    l: nat,
    starts: Seq<ClipState>,
    ends: Seq<ClipState>,
)
    requires
        t.legs.len() == l,
        0 < l <= config.leg_limit(),
        clips_on(config, draws, coins, det, t.legs, starts, ends),
        t.last == ends[l - 1],
    ensures
        ({
            let all = config.legs_from(draws, coins, det, t, l);
            exists|a: Seq<ClipState>, b: Seq<ClipState>|
                {
                    &&& #[trigger] clips_on(config, draws, coins, det, all.legs, a, b)
                    &&& a[0] == starts[0]
                    &&& all.last == b[b.len() - 1]
                    &&& all.legs.len() <= config.leg_limit()
                    &&& all.legs.len() < config.leg_limit() ==> successes(all.legs)
                        >= config.max_solutions
                }
        }),
    decreases config.leg_limit() - l,
{
    if l >= config.leg_limit() || successes(t.legs) >= config.max_solutions {
        assert(clips_on(config, draws, coins, det, t.legs, starts, ends));
    } else {
        let next = config.leg_added(draws, coins, det, t, l);
        let s = config.leg_start(draws, t.last, l as int);
        let start = ClipState { latch: Seq::new(s.bp.cols(), |v: int| true), ..s };
        let n = config.max_iter as nat;
        assert(leg_coins(coins, l as int) == leg_thrown(coins, l as int));
        let steps = lemma_run(config, start, det, leg_thrown(coins, l as int), n);
        assert(start.bp.iteration == 0);
        assert(next.legs[l as int].iterations == steps);
        let a = starts.push(start);
        let b = ends.push(next.last);
        assert forall|k: int| 0 < k < next.legs.len() implies takes_over(
            (#[trigger] a[k]).bp,
            b[k - 1].bp,
        ) && a[k].previous == b[k - 1].previous && strengthened(a[k], draws[k - 1]@) by {
            if k < l {
                assert(a[k] == starts[k]);
            }
        }
        assert forall|k: int| 0 <= k < next.legs.len() implies #[trigger] runs_to(
            a[k],
            b[k],
            clip_step(config, det, leg_thrown(coins, k)),
            clip_done(det),
            allowed(config, k),
            next.legs[k].iterations,
        ) && reports(next.legs[k], b[k].bp, det, allowed(config, k), next.legs[k].iterations) by {
            if k < l {
                assert(runs_to(
                    starts[k],
                    ends[k],
                    clip_step(config, det, leg_thrown(coins, k)),
                    clip_done(det),
                    allowed(config, k),
                    t.legs[k].iterations,
                ));
            }
        }
        assert forall|k: int| 0 < k < next.legs.len() implies successes(
            #[trigger] next.legs.take(k),
        ) < config.max_solutions by {
            assert(next.legs.take(k) =~= t.legs.take(k));
            if k == l {
                assert(t.legs.take(k) =~= t.legs);
            } else {
                assert(successes(t.legs.take(k)) < config.max_solutions);
            }
        }
        assert(clips_on(config, draws, coins, det, next.legs, a, b));
        lemma_clips_from(config, draws, coins, det, next, l + 1, a, b);
    }
}

/// The first leg starts from the start of decoding with the memory strength set for it. Every
/// later leg starts from the clipped posteriors with which the one before ended, under the
/// memory strengths drawn for it. Each iterates until it explains the detectors or has done
/// all it may. Another leg is run as long as there are any and too few have converged.
pub proof fn law_clip_hands_on(
    config: ClipBpConfig,
    draws: Seq<Vec<i64>>,
    coins: Seq<Vec<Vec<bool>>>,
    det: Seq<Bit>,
    d: BpModel,
)
    requires
        d.wf(),
        config.wf(),
    ensures
        ({
            let t = config.legs(draws, coins, det, d);
            let most: nat = if config.max_legs == 0 {
                1
            } else {
                config.max_legs as nat
            };
            exists|starts: Seq<ClipState>, ends: Seq<ClipState>|
                {
                    &&& #[trigger] clips_on(config, draws, coins, det, t.legs, starts, ends)
                    &&& starts[0].bp == (BpModel { memory: starts[0].gammas, ..d.initialized() })
                    &&& starts[0].previous == d.config.priors
                    &&& strengthened(starts[0], starts[0].gammas)
                    &&& starts[0].gammas.len() == d.cols()
                    &&& forall|v: int|
                        0 <= v < d.cols() ==> #[trigger] starts[0].gammas[v] == config.gamma_first
                    &&& t.last == ends[ends.len() - 1]
                    &&& t.legs.len() <= most
                    &&& t.legs.len() < most ==> successes(t.legs) >= config.max_solutions
                }
        }),
{
    let gammas = Seq::new(d.cols(), |v: int| config.gamma_first);
    let s = ClipState {
        bp: BpModel { memory: gammas, ..d.initialized() },
        gammas,
        previous: d.config.priors,
        latch: Seq::new(d.cols(), |v: int| true),
    };
    let first = config.first_leg(coins, det, d);
    let n = config.max_iter_first as nat;
    assert(leg_coins(coins, 0) == leg_thrown(coins, 0));
    let steps = lemma_run(config, s, det, leg_thrown(coins, 0), n);
    assert(first.last == config.run(s, det, leg_thrown(coins, 0), n)) by {
        assert(ClipState { latch: Seq::new(s.bp.cols(), |v: int| true), ..s } == s);
    }
    assert(first.legs[0].iterations == steps);
    assert(clips_on(config, draws, coins, det, first.legs, seq![s], seq![first.last]));
    lemma_clips_from(config, draws, coins, det, first, 1, seq![s], seq![first.last]);
}

} // verus!
