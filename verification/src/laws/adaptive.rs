//! How an adaptive relay decoder lets memory strengths follow the posteriors.

use vstd::prelude::*;

use crate::adaptive_relay::{
    over_below, AdaptiveRelayDecoderConfig, AdaptiveRelayDraws, AdaptiveRelayUpdateMode,
    AdaptiveRun, MemberModel,
};
use crate::arith::{abs, GAIN_LIMIT};
use crate::disordered_bp::mean;
use crate::laws::dual::some_of;
use crate::laws::iteration::{held, law_quotient, rounded};
use crate::laws::legs::{
    explains, lemma_passes_longer, lemma_passes_none, lemma_passes_once, lemma_runs_longer,
    lemma_runs_none, lemma_runs_once, passes, runs_to, thrown,
};
use crate::laws::relay::takes_over;
use crate::matrix::Bit;
use crate::min_sum::{coins_at, BpModel};
use crate::table::looked_up;

verus! {

/// `y` is what a table with a value for every `step` says of `x`: the value of the last step
/// that `x` reaches, and the last value beyond the end.
pub open spec fn tabled(table: Seq<i64>, step: int, x: int, y: int) -> bool {
    if table.len() == 0 {
        y == 0
    } else {
        exists|k: int|
            {
                &&& 0 <= k < table.len()
                &&& k * step <= x
                &&& k + 1 < table.len() ==> x < (k + 1) * step
                &&& y == #[trigger] table[k]
            }
    }
}

/// Looking a value up in a table.
pub proof fn law_tabled(table: Seq<i64>, step: int, x: int)
    requires
        step > 0,
        x >= 0,
    ensures
        tabled(table, step, x, looked_up(table, step, x)),
{
    let q = x / step;
    assert(q * step <= x < (q + 1) * step && q >= 0) by (nonlinear_arith)
        requires
            q == x / step,
            step > 0,
            x >= 0,
    ;
    if table.len() > 0 {
        let k = if q < table.len() {
            q
        } else {
            table.len() - 1
        };
        assert(k * step <= q * step) by (nonlinear_arith)
            requires
                k <= q,
                step > 0,
        ;
        assert(looked_up(table, step, x) == table[k]);
    }
}

/// Whether a decoder clamps its posteriors.
pub open spec fn clamping(config: AdaptiveRelayDecoderConfig) -> bool {
    config.posterior_marginal_clamp_mode is AbsThresholdClamp
        && config.posterior_marginal_abs_threshold > 0
}

/// One iteration of a member. With clamping no posterior is further from zero than the
/// threshold, and one that was within it keeps its value. The decoding is that of the clamped
/// posteriors. The memory strengths stay.
pub proof fn law_adaptive_iteration(
    config: AdaptiveRelayDecoderConfig,
    draws: AdaptiveRelayDraws,
    det: Seq<Bit>,
    m: MemberModel,
)
    requires
        m.bp.wf(),
    ensures
        ({
            let plain = m.bp.iterate(det, thrown(draws.coins@, m.total));
            let next = config.step(draws, det, m);
            let limit = config.posterior_marginal_abs_threshold as int;
            &&& next.success == explains(next.bp, det)
            &&& next.total == m.total + 1
            &&& next.mu == m.mu
            &&& next.gamma == m.gamma
            &&& next.updates == m.updates
            &&& next.legs == m.legs
            &&& next.history == m.history
            &&& next.bp == (BpModel {
                posterior: next.bp.posterior,
                decoding: next.bp.decoding,
                iteration: next.bp.iteration,
                ..plain
            })
            &&& next.bp.iteration == m.bp.iteration + (if next.success {
                0int
            } else {
                1
            })
            &&& next.bp.posterior.len() == m.bp.cols()
            &&& next.bp.decoding.len() == m.bp.cols()
            &&& forall|v: int|
                0 <= v < m.bp.cols() ==> {
                    &&& clamping(config) ==> held(
                        #[trigger] next.bp.posterior[v] as int,
                        plain.posterior[v] as int,
                        limit,
                    )
                    &&& !clamping(config) ==> next.bp.posterior[v] == plain.posterior[v]
                    &&& next.bp.decoding[v] == (if next.bp.posterior[v] <= 0 {
                        1 as Bit
                    } else {
                        0 as Bit
                    })
                }
            &&& clamping(config) ==> next.clamps - m.clamps == outside(
                plain.posterior,
                limit,
            ).len()
            &&& !clamping(config) ==> next.clamps == m.clamps
        }),
{
    let plain = m.bp.iterate(det, thrown(draws.coins@, m.total));
    assert(thrown(draws.coins@, m.total) == coins_at(draws.coins@, m.total as int));
    if clamping(config) {
        lemma_outside(
            plain.posterior,
            config.posterior_marginal_abs_threshold as int,
            plain.posterior.len(),
        );
        assert(plain.posterior.take(plain.posterior.len() as int) =~= plain.posterior);
    }
}

/// The places of the values of which the magnitude is over `limit`.
pub open spec fn outside(values: Seq<i64>, limit: int) -> Set<int> {
    Set::new(|v: int| 0 <= v < values.len() && abs(values[v] as int) > limit)
}

proof fn lemma_outside(values: Seq<i64>, limit: int, n: nat)
    requires
        n <= values.len(),
        limit >= 0,
    ensures
        outside(values.take(n as int), limit).finite(),
        over_below(values, limit, n) == outside(values.take(n as int), limit).len(),
    decreases n,
{
    let s = outside(values.take(n as int), limit);
    if n == 0 {
        assert(s =~= Set::empty());
    } else {
        let m = (n - 1) as nat;
        lemma_outside(values, limit, m);
        let t = outside(values.take(m as int), limit);
        assert(!t.contains(m as int));
        if abs(values[n - 1] as int) > limit {
            assert(s =~= t.insert(m as int));
        } else {
            assert(s =~= t);
        }
    }
}

/// What is drawn on top of the memory strength of variable `v` in update `u`.
pub open spec fn on_top(draws: AdaptiveRelayDraws, u: nat, v: int) -> int {
    if u < draws.perturbations.len() && v < draws.perturbations[u as int].len() {
        draws.perturbations[u as int][v] as int
    } else {
        0
    }
}

/// `x` is the new tendency of variable `v`: the share `beta` of the old one, the rest of what
/// the table says of the magnitude of its posterior.
pub open spec fn tends(
    config: AdaptiveRelayDecoderConfig,
    m: MemberModel,
    v: int,
    x: int,
) -> bool {
    let one = m.bp.config.one();
    exists|target: int, y: int|
        #![trigger tabled(
            config.target_gammas@,
            config.target_step as int,
            abs(m.bp.posterior[v] as int),
            target,
        ), rounded(y, target * (one - config.beta) + m.mu[v] * config.beta, one)]
        {
            &&& tabled(
                config.target_gammas@,
                config.target_step as int,
                abs(m.bp.posterior[v] as int),
                target,
            )
            &&& rounded(y, target * (one - config.beta) + m.mu[v] * config.beta, one)
            &&& held(x, y, GAIN_LIMIT as int)
        }
}

/// Renewing memory strengths: every variable tends to what its own posterior asks for, and
/// what was drawn comes on top.
pub proof fn law_retuned(
    config: AdaptiveRelayDecoderConfig,
    draws: AdaptiveRelayDraws,
    m: MemberModel,
)
    requires
        m.bp.config.one() >= 1,
        config.target_step > 0,
    ensures
        ({
            let next = config.retuned(draws, m);
            &&& next.bp == m.bp
            &&& next.total == m.total
            &&& next.updates == m.updates + 1
            &&& next.success == m.success
            &&& next.legs == m.legs
            &&& next.history == m.history
            &&& next.clamps == m.clamps
            &&& next.mu.len() == m.mu.len()
            &&& next.gamma.len() == m.mu.len()
            &&& forall|v: int|
                0 <= v < m.mu.len() ==> {
                    &&& tends(config, m, v, #[trigger] next.mu[v] as int)
                    &&& held(
                        next.gamma[v] as int,
                        next.mu[v] + on_top(draws, m.updates, v),
                        GAIN_LIMIT as int,
                    )
                }
        }),
{
    let next = config.retuned(draws, m);
    let one = m.bp.config.one();
    assert forall|v: int| 0 <= v < m.mu.len() implies tends(
        config,
        m,
        v,
        #[trigger] next.mu[v] as int,
    ) by {
        let size = abs(m.bp.posterior[v] as int);
        law_tabled(config.target_gammas@, config.target_step as int, size);
        let target = looked_up(config.target_gammas@, config.target_step as int, size);
        law_quotient(target * (one - config.beta) + m.mu[v] * config.beta, one);
        assert(rounded(
            config.tendency(m, v),
            target * (one - config.beta) + m.mu[v] * config.beta,
            one,
        ));
    }
}

/// The decoder of a member works with its memory strengths, and their mean is kept.
pub proof fn law_applied(config: AdaptiveRelayDecoderConfig, m: MemberModel)
    ensures
        ({
            let next = config.applied(m);
            &&& next.bp == (BpModel { memory: m.gamma, ..m.bp })
            &&& next.history == m.history.push(mean(m.gamma) as i64)
            &&& next == (MemberModel { bp: next.bp, history: next.history, ..m })
        }),
{
}

/// One iteration with new memory strengths after it, unless it was a success.
pub open spec fn tick(
    config: AdaptiveRelayDecoderConfig,
    draws: AdaptiveRelayDraws,
    det: Seq<Bit>,
) -> spec_fn(MemberModel) -> MemberModel {
    |m: MemberModel|
        {
            let next = config.step(draws, det, m);
            let counted = MemberModel { legs: next.legs.push(1), ..next };
            if next.success {
                counted
            } else {
                config.applied(config.retuned(draws, counted))
            }
        }
}

/// One iteration of a leg.
pub open spec fn leg_tick(
    config: AdaptiveRelayDecoderConfig,
    draws: AdaptiveRelayDraws,
    det: Seq<Bit>,
) -> spec_fn(MemberModel) -> MemberModel {
    |m: MemberModel| config.step(draws, det, m)
}

/// The member explains the detectors.
pub open spec fn solved() -> spec_fn(MemberModel) -> bool {
    |m: MemberModel| m.success
}

proof fn lemma_ticks(
    config: AdaptiveRelayDecoderConfig,
    draws: AdaptiveRelayDraws,
    det: Seq<Bit>,
    m: MemberModel,
    n: nat,
) -> (steps: nat)
    ensures
        runs_to(
            m,
            config.each_iteration(draws, det, m, n),
            tick(config, draws, det),
            solved(),
            n,
            steps,
        ),
    decreases n,
{
    let step = tick(config, draws, det);
    let done = solved();
    if n == 0 {
        lemma_runs_none(m, step, done);
        0
    } else {
        let next = config.step(draws, det, m);
        if next.success {
            lemma_runs_once(m, step, done, n);
            1
        } else {
            let counted = MemberModel { legs: next.legs.push(1), ..next };
            let after = config.applied(config.retuned(draws, counted));
            assert(step(m) == after);
            assert(!after.success);
            let steps = lemma_ticks(config, draws, det, after, (n - 1) as nat);
            let end = config.each_iteration(draws, det, m, n);
            lemma_runs_longer(m, end, step, done, n, steps);
            steps + 1
        }
    }
}

proof fn lemma_leg_ticks(
    config: AdaptiveRelayDecoderConfig,
    draws: AdaptiveRelayDraws,
    det: Seq<Bit>,
    m: MemberModel,
    n: nat,
) -> (steps: nat)
    ensures
        runs_to(
            m,
            config.steps(draws, det, m, n),
            leg_tick(config, draws, det),
            solved(),
            n,
            steps,
        ),
        config.steps(draws, det, m, n).total == m.total + steps,
    decreases n,
{
    let step = leg_tick(config, draws, det);
    let done = solved();
    if n == 0 {
        lemma_runs_none(m, step, done);
        0
    } else {
        let next = config.step(draws, det, m);
        assert(step(m) == next);
        if next.success {
            lemma_runs_once(m, step, done, n);
            1
        } else {
            let steps = lemma_leg_ticks(config, draws, det, next, (n - 1) as nat);
            let end = config.steps(draws, det, m, n);
            lemma_runs_longer(m, end, step, done, n, steps);
            steps + 1
        }
    }
}

/// A leg starts with the messages as at the start of decoding, under the memory strengths of
/// the member, from its posteriors if they are handed on and from the priors if not.
pub proof fn law_adaptive_leg_start(config: AdaptiveRelayDecoderConfig, m: MemberModel)
    ensures
        ({
            let s = config.leg_start(m);
            let from = if config.carry_marginal_between_legs {
                m.bp.posterior
            } else {
                m.bp.priors
            };
            &&& takes_over(s.bp, BpModel { posterior: from, ..m.bp })
            &&& s.bp.memory == m.gamma
            &&& s.mu == m.mu
            &&& s.gamma == m.gamma
            &&& s.total == m.total
            &&& s.updates == m.updates
            &&& s.legs == m.legs
        }),
{
}

/// The iterations of a leg of a member with `n` iterations left.
pub open spec fn leg_most(config: AdaptiveRelayDecoderConfig, n: nat) -> nat {
    if some_of(config.iter_per_leg) < n {
        some_of(config.iter_per_leg)
    } else {
        n
    }
}

/// A member with `n` iterations left and a leg of it that ended in `end` after `steps`
/// iterations. If that explains the detectors the member is through; otherwise it goes on with
/// new memory strengths and the iterations that are still left.
pub open spec fn leg_goes(
    config: AdaptiveRelayDecoderConfig,
    draws: AdaptiveRelayDraws,
    det: Seq<Bit>,
    m: MemberModel,
    n: nat,
    end: MemberModel,
    steps: nat,
) -> bool {
    let kept = MemberModel { legs: end.legs.push(steps as usize), ..end };
    &&& runs_to(
        config.leg_start(m),
        end,
        leg_tick(config, draws, det),
        solved(),
        leg_most(config, n),
        steps,
    )
    &&& end.success ==> config.each_leg(draws, det, m, n) == kept
    &&& !end.success ==> config.each_leg(draws, det, m, n) == config.each_leg(
        draws,
        det,
        config.retuned(draws, kept),
        (n - leg_most(config, n)) as nat,
    )
}

/// A member that renews its memory strengths after every leg runs a leg of `iter_per_leg`
/// iterations, or of what is left, and goes on from there.
pub proof fn law_adaptive_legs(
    config: AdaptiveRelayDecoderConfig,
    draws: AdaptiveRelayDraws,
    det: Seq<Bit>,
    m: MemberModel,
    n: nat,
)
    requires
        n > 0,
    ensures
        exists|end: MemberModel, steps: nat| #[trigger]
            leg_goes(config, draws, det, m, n, end, steps),
        config.each_leg(draws, det, m, 0) == m,
{
    let begun = config.leg_start(m);
    let most = leg_most(config, n);
    assert(most == config.leg_length(n));
    let steps = lemma_leg_ticks(config, draws, det, begun, most);
    let end = config.steps(draws, det, begun, most);
    assert(end.total - begun.total == steps);
    let kept = MemberModel { legs: end.legs.push(steps as usize), ..end };
    let all = config.each_leg(draws, det, m, n);
    if end.success {
        assert(all == kept);
    } else {
        assert(all == config.each_leg(
            draws,
            det,
            config.retuned(draws, kept),
            (n - most) as nat,
        ));
    }
    assert(leg_goes(config, draws, det, m, n, end, steps));
}

/// The iterations that a member may do under the first memory strength.
pub open spec fn first_most(config: AdaptiveRelayDecoderConfig) -> nat {
    let all = some_of(config.maximum_iteration);
    if !config.pre_decoding {
        0
    } else if config.pre_iteration <= all {
        config.pre_iteration as nat
    } else {
        all
    }
}

/// A member as it starts.
pub open spec fn member_begins(
    config: AdaptiveRelayDecoderConfig,
    d: BpModel,
    start: MemberModel,
) -> bool {
    &&& start.bp == (BpModel { memory: start.gamma, ..d.initialized() })
    &&& start.mu == start.gamma
    &&& start.gamma.len() == d.cols()
    &&& forall|v: int| 0 <= v < d.cols() ==> #[trigger] start.gamma[v] == config.initial_gamma
    &&& start.total == 0
    &&& start.updates == 0
    &&& start.legs.len() == 0
    &&& start.clamps == 0
    &&& !start.success
}

/// What a member comes to that has done `steps` iterations under the first memory strength and
/// is in the state `first`.
pub open spec fn member_goes(
    config: AdaptiveRelayDecoderConfig,
    draws: AdaptiveRelayDraws,
    det: Seq<Bit>,
    d: BpModel,
    start: MemberModel,
    first: MemberModel,
    kept: MemberModel,
    steps: nat,
) -> bool {
    let left = (some_of(config.maximum_iteration) - steps) as nat;
    let end = config.member(draws, det, d);
    &&& member_begins(config, d, start)
    &&& runs_to(
        start,
        first,
        leg_tick(config, draws, det),
        solved(),
        first_most(config),
        steps,
    )
    &&& steps == 0 ==> kept == first
    &&& steps > 0 ==> kept == (MemberModel { legs: first.legs.push(steps as usize), ..first })
    &&& first.success ==> end == kept
    &&& !first.success && config.update_mode is PerLeg ==> end == config.each_leg(
        draws,
        det,
        kept,
        left,
    )
    &&& !first.success && config.update_mode is PerIteration ==> exists|more: nat| #[trigger]
        runs_to(kept, end, tick(config, draws, det), solved(), left, more)
}

/// A member starts from the start of decoding under the first memory strength. With a first
/// decoding it iterates under it as long as that may take. Then, unless the detectors are
/// explained, its memory strengths follow its posteriors for the iterations that are left.
pub proof fn law_adaptive_member_run(
    config: AdaptiveRelayDecoderConfig,
    draws: AdaptiveRelayDraws,
    det: Seq<Bit>,
    d: BpModel,
)
    ensures
        exists|start: MemberModel, first: MemberModel, kept: MemberModel, steps: nat| #[trigger]
            member_goes(config, draws, det, d, start, first, kept, steps),
{
    let start = config.member_start(d);
    assert(member_begins(config, d, start));
    assert(first_most(config) == config.first_length());
    let steps = lemma_leg_ticks(config, draws, det, start, first_most(config));
    let first = config.steps(draws, det, start, first_most(config));
    assert(first.total == steps);
    let kept = config.member_first(draws, det, d);
    let left = (some_of(config.maximum_iteration) - steps) as nat;
    let end = config.member(draws, det, d);
    if !first.success {
        match config.update_mode {
            AdaptiveRelayUpdateMode::PerIteration => {
                let more = lemma_ticks(config, draws, det, kept, left);
                assert(end == config.each_iteration(draws, det, kept, left));
            },
            AdaptiveRelayUpdateMode::PerLeg => {
                assert(end == config.each_leg(draws, det, kept, left));
            },
        }
    }
    assert(member_goes(config, draws, det, d, start, first, kept, steps));
}

/// Members try one after the other, each from the code alone, until one explains the
/// detectors or all have tried.
pub open spec fn try_next(
    config: AdaptiveRelayDecoderConfig,
    draws: Seq<AdaptiveRelayDraws>,
    det: Seq<Bit>,
) -> spec_fn(int, AdaptiveRun) -> AdaptiveRun {
    |k: int, t: AdaptiveRun|
        AdaptiveRun {
            members: t.members.push(config.member(draws[k], det, t.last)),
            last: config.member(draws[k], det, t.last).bp,
        }
}

/// The last member that tried explains the detectors.
pub open spec fn one_solved() -> spec_fn(AdaptiveRun) -> bool {
    |t: AdaptiveRun| t.members[t.members.len() - 1].success
}

proof fn lemma_tries(
    config: AdaptiveRelayDecoderConfig,
    draws: Seq<AdaptiveRelayDraws>,
    det: Seq<Bit>,
    t: AdaptiveRun,
    k: nat,
) -> (path: Seq<AdaptiveRun>)
    ensures
        passes(
            path,
            t,
            config.members_from(draws, det, t, k),
            try_next(config, draws, det),
            one_solved(),
            k as int,
            some_of(config.ensemble_size) as int,
        ),
    decreases some_of(config.ensemble_size) - k,
{
    let step = try_next(config, draws, det);
    let done = one_solved();
    let n = some_of(config.ensemble_size) as int;
    if k >= n {
        lemma_passes_none(t, step, done, k as int, n);
        seq![t]
    } else {
        let m = config.member(draws[k as int], det, t.last);
        let next = AdaptiveRun { members: t.members.push(m), last: m.bp };
        let end = config.members_from(draws, det, t, k);
        assert(step(k as int, t) == next);
        if m.success {
            lemma_passes_once(t, step, done, k as int, n);
            seq![t, next]
        } else {
            let path = lemma_tries(config, draws, det, next, k + 1);
            lemma_passes_longer(path, t, end, step, done, k as int, n);
            seq![t] + path
        }
    }
}

/// The members of an adaptive decoder and the one that is reported: the one that explains the
/// detectors, or the first if none does.
pub proof fn law_adaptive_run(
    config: AdaptiveRelayDecoderConfig,
    draws: Seq<AdaptiveRelayDraws>,
    det: Seq<Bit>,
    d: BpModel,
)
    ensures
        ({
            let t = config.run(draws, det, d);
            let last = t.members[t.members.len() - 1];
            &&& exists|path: Seq<AdaptiveRun>, start: AdaptiveRun|
                {
                    &&& #[trigger] passes(
                        path,
                        start,
                        t,
                        try_next(config, draws, det),
                        one_solved(),
                        0,
                        some_of(config.ensemble_size) as int,
                    )
                    &&& start.members.len() == 0
                    &&& start.last == d
                }
            &&& last.success ==> t.chosen() == last
            &&& !last.success ==> t.chosen() == t.members[0]
        }),
        ({
            let m = config.run(draws, det, d).chosen();
            let r = config.member_result(m);
            &&& r.decoding == m.bp.decoding
            &&& r.posterior == m.bp.posterior
            &&& r.success == m.success
            &&& r.iterations == m.total
            &&& r.max_iter == some_of(config.maximum_iteration)
        }),
{
    let start = AdaptiveRun { members: Seq::empty(), last: d };
    let path = lemma_tries(config, draws, det, start, 0);
    assert(passes(
        path,
        start,
        config.run(draws, det, d),
        try_next(config, draws, det),
        one_solved(),
        0,
        some_of(config.ensemble_size) as int,
    ));
}

} // verus!
