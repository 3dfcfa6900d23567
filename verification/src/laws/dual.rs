//! What a dual relay decoder makes of its memory strengths, and how it hands posteriors on.

use vstd::prelude::*;

use crate::arith::{bound, sum, trunc_div};
use crate::decoder::{decoding_quality, zero_bits, ResultModel};
use crate::dual_relay::{
    column, disagree, joined, median, medians, no_counts, value_keys, DualCounts,
    DualRelayDecoderConfig, DualRelayDraws, DualRun, DualState,
};
use crate::laws::iteration::{held, law_quotient, rounded};
use crate::laws::legs::{lemma_runs_longer, lemma_runs_none, lemma_runs_once, runs_to};
use crate::laws::relay::takes_over;
use crate::matrix::{slice_of, Bit};
use crate::min_sum::{hard_decision, BpModel};
use crate::order::{law_order, order, precedes};
use crate::relay::{successes, StoppingCriterion};

verus! {

/// `p` are the posteriors to which the messages `c2v` and the strengths `gammas` lead from the
/// state `d`.
pub open spec fn foreseen(
    d: BpModel,
    c2v: Seq<i64>,
    gammas: Seq<i64>,
    beta: Option<i64>,
    p: Seq<i64>,
) -> bool {
    &&& p.len() == d.cols()
    &&& forall|v: int|
        0 <= v < d.cols() ==> #[trigger] foreseen_at(d, c2v, v, gammas[v] as int, beta, p[v] as int)
}

/// The posterior `p` of variable `v`: its prior and its last posterior, weighed by `gamma`, and
/// what the checks sent. With the factor `beta`, what they had sent an iteration before counts
/// too.
pub open spec fn foreseen_at(
    d: BpModel,
    c2v: Seq<i64>,
    v: int,
    gamma: int,
    beta: Option<i64>,
    p: int,
) -> bool {
    let one = d.config.one();
    exists|own: int, late: int|
        {
            &&& #[trigger] led(d, c2v, v, own, late, p)
            &&& rounded(own, d.config.priors[v] * (one - gamma) + d.posterior[v] * gamma, one)
            &&& beta is None ==> late == 0
            &&& beta matches Some(b) ==> exists|before: int|
                {
                    &&& #[trigger] held(
                        before,
                        sum(slice_of(d.matrix.col_ptr, d.c2v, v)),
                        i64::MAX as int,
                    )
                    &&& rounded(late, b * before, one)
                }
        }
}

/// A posterior is the own part of a variable, what came to it and what came late.
pub open spec fn led(d: BpModel, c2v: Seq<i64>, v: int, own: int, late: int, p: int) -> bool {
    held(p, own + sum(slice_of(d.matrix.col_ptr, c2v, v)) + late, i64::MAX as int)
}

/// What counts of the messages of the iteration before.
pub open spec fn lateness(config: DualRelayDecoderConfig) -> Option<i64> {
    if config.use_previous_message {
        Some(config.beta)
    } else {
        None
    }
}

/// The state `next` has the posteriors `p`, within the limit, and every variable sends each
/// check its posterior less what that check sent in this iteration.
pub open spec fn adopts(d: BpModel, next: BpModel, det: Seq<Bit>, p: Seq<i64>) -> bool {
    let limit = d.config.limit();
    &&& next.matrix == d.matrix
    &&& next.config == d.config
    &&& next.priors == d.priors
    &&& next.memory == d.memory
    &&& next.alphas == d.alphas
    &&& next.iteration == d.iteration + 1
    &&& next.c2v == d.iterate(det, Seq::empty()).c2v
    &&& next.v2c.len() == d.matrix.nnz()
    &&& next.posterior.len() == d.cols()
    &&& next.decoding.len() == d.cols()
    &&& forall|v: int|
        0 <= v < d.cols() ==> {
            &&& held(#[trigger] next.posterior[v] as int, p[v] as int, limit)
            &&& next.decoding[v] == (if next.posterior[v] <= 0 {
                1 as Bit
            } else {
                0 as Bit
            })
        }
    &&& forall|e: int|
        0 <= e < d.matrix.nnz() ==> held(
            #[trigger] next.v2c[e] as int,
            p[d.matrix.row_idx[e] as int] - next.c2v[d.matrix.csr_to_csc[e] as int],
            limit,
        )
}

/// Where the posteriors `p` are not positive.
pub open spec fn errors_of(p: Seq<i64>) -> Seq<Bit> {
    Seq::new(
        p.len(),
        |v: int|
            if p[v] > 0 {
                0 as Bit
            } else {
                1 as Bit
            },
    )
}

/// Whether the errors that the posteriors `p` see have the syndrome `det`.
pub open spec fn right(d: BpModel, det: Seq<Bit>, p: Seq<i64>) -> bool {
    d.matrix.mul_mod2(errors_of(p)) == det
}

/// The weight of the errors that the posteriors `p` see.
pub open spec fn weight(d: BpModel, p: Seq<i64>) -> int {
    decoding_quality(d.config.priors, errors_of(p))
}

proof fn lemma_errors(p: Seq<i64>)
    ensures
        errors_of(p) == hard_decision(p),
{
    assert(errors_of(p) =~= hard_decision(p));
}

proof fn lemma_foreseen(
    config: DualRelayDecoderConfig,
    d: BpModel,
    det: Seq<Bit>,
    gammas: Seq<i64>,
    sums: Option<Seq<i64>>,
)
    requires
        d.wf(),
        config.use_previous_message ==> sums == Some(
            Seq::new(d.cols(), |v: int| bound(sum(d.incoming(v)), i64::MAX as int) as i64),
        ),
        !config.use_previous_message ==> sums is None,
    ensures
        ({
            let b = d.check_step(det);
            let p = b.prediction(d.posterior, gammas, config.beta as int, sums);
            foreseen(d, b.c2v, gammas, lateness(config), p)
        }),
{
    let b = d.check_step(det);
    let p = b.prediction(d.posterior, gammas, config.beta as int, sums);
    let one = d.config.one();
    assert forall|v: int| 0 <= v < d.cols() implies #[trigger] foreseen_at(
        d,
        b.c2v,
        v,
        gammas[v] as int,
        lateness(config),
        p[v] as int,
    ) by {
        let x = d.config.priors[v] * (one - gammas[v]) + d.posterior[v] * gammas[v];
        law_quotient(x, one);
        let before: int = match sums {
            Some(s) => s[v] as int,
            None => 0,
        };
        law_quotient(config.beta * before, one);
        law_quotient(0, one);
        let own = trunc_div(x, one);
        let late = trunc_div(config.beta * before, one);
        if sums is None {
            assert(config.beta * before == 0) by (nonlinear_arith)
                requires
                    before == 0,
            ;
            assert(rounded(0, 0, one));
        } else {
            assert(held(before, sum(slice_of(d.matrix.col_ptr, d.c2v, v)), i64::MAX as int));
        }
        assert(b.incoming(v) == slice_of(d.matrix.col_ptr, b.c2v, v));
        assert(led(d, b.c2v, v, own, late, p[v] as int));
    }
}

proof fn lemma_adopts(d: BpModel, det: Seq<Bit>, p: Seq<i64>)
    requires
        d.wf(),
        p.len() == d.cols(),
    ensures
        adopts(d, d.check_step(det).rebuilt(p).counted(), det, p),
{
    let next = d.check_step(det).rebuilt(p).counted();
    assert(next.c2v == d.check_step(det).c2v);
    assert(d.iterate(det, Seq::empty()).c2v == d.check_step(det).c2v);
}

/// `gammas` are the memory strengths `drawn` for a later leg; in the first leg every one is
/// `initial`.
pub open spec fn leg_strengths(
    gammas: Seq<i64>,
    leg: nat,
    initial: i64,
    drawn: Seq<i64>,
    cols: nat,
) -> bool {
    if leg == 0 {
        gammas.len() == cols && forall|v: int| 0 <= v < cols ==> #[trigger] gammas[v] == initial
    } else {
        gammas == drawn
    }
}

/// The mixture of a slow and a fast posterior: the average by the share `eta` of the fast
/// one; or, where a fast posterior that disagrees in sign is to weigh, the slow one and
/// `delta` times the fast one.
pub open spec fn mixture(
    config: DualRelayDecoderConfig,
    slow: int,
    fast: int,
    one: int,
    m: int,
) -> bool {
    if config.mix_mode is WeightedFast && (slow < 0) != (fast < 0) {
        exists|x: int|
            #[trigger] rounded(x, config.delta * fast, one) && held(m, slow + x, i64::MAX as int)
    } else {
        exists|x: int|
            #[trigger] rounded(x, slow * (one - config.eta) + fast * config.eta, one) && held(
                m,
                x,
                i64::MAX as int,
            )
    }
}

/// An iteration foresees the posteriors of the slow and of the fast memory strengths of its
/// leg. If those of one explain the detectors, they are adopted, the lighter ones if both do
/// and the slow ones if both weigh the same. Otherwise their mixture is, and the iteration
/// succeeds if that explains the detectors. Each outcome is counted.
pub proof fn law_dual_iteration(
    config: DualRelayDecoderConfig,
    draws: Seq<DualRelayDraws>,
    det: Seq<Bit>,
    s: DualState,
    leg: nat,
)
    requires
        s.bp.wf(),
        !config.ensemble_mode,
    ensures
        ({
            let next = config.step(draws, det, s, leg);
            let d = s.bp;
            let heard = d.iterate(det, Seq::empty()).c2v;
            exists|gammas_slow: Seq<i64>, gammas_fast: Seq<i64>, slow: Seq<i64>, fast: Seq<i64>|
                #![trigger foreseen(d, heard, gammas_slow, lateness(config), slow),
                    foreseen(d, heard, gammas_fast, lateness(config), fast)]
                {
                    &&& leg_strengths(
                        gammas_slow,
                        leg,
                        config.initial_gamma_slow,
                        draws[leg - 1].gammas_slow@,
                        d.cols(),
                    )
                    &&& leg_strengths(
                        gammas_fast,
                        leg,
                        config.initial_gamma_fast,
                        draws[leg - 1].gammas_fast@,
                        d.cols(),
                    )
                    &&& foreseen(d, heard, gammas_slow, lateness(config), slow)
                    &&& foreseen(d, heard, gammas_fast, lateness(config), fast)
                    &&& takes_pair(config, s, next, det, slow, fast)
                }
        }),
{
    let d = s.bp;
    let b = d.check_step(det);
    let sums = if config.use_previous_message {
        Some(Seq::new(d.cols(), |v: int| bound(sum(d.incoming(v)), i64::MAX as int) as i64))
    } else {
        None
    };
    let gs = config.slow_gammas(draws, leg, d.cols());
    let gf = config.fast_gammas(draws, leg, d.cols());
    lemma_foreseen(config, d, det, gs, sums);
    lemma_foreseen(config, d, det, gf, sums);
    let slow = b.prediction(d.posterior, gs, config.beta as int, sums);
    let fast = b.prediction(d.posterior, gf, config.beta as int, sums);
    assert(d.iterate(det, Seq::empty()).c2v == b.c2v);
    lemma_takes_pair(config, draws, det, s, leg, gs, gf, sums);
    let next = config.step(draws, det, s, leg);
    assert(takes_pair(config, s, next, det, slow, fast));
}

proof fn lemma_takes_pair(
    config: DualRelayDecoderConfig,
    draws: Seq<DualRelayDraws>,
    det: Seq<Bit>,
    s: DualState,
    leg: nat,
    gs: Seq<i64>,
    gf: Seq<i64>,
    sums: Option<Seq<i64>>,
)
    requires
        s.bp.wf(),
        !config.ensemble_mode,
        gs == config.slow_gammas(draws, leg, s.bp.cols()),
        gf == config.fast_gammas(draws, leg, s.bp.cols()),
        config.use_previous_message ==> sums == Some(
            Seq::new(s.bp.cols(), |v: int| bound(sum(s.bp.incoming(v)), i64::MAX as int) as i64),
        ),
        !config.use_previous_message ==> sums is None,
    ensures
        ({
            let b = s.bp.check_step(det);
            let slow = b.prediction(s.bp.posterior, gs, config.beta as int, sums);
            let fast = b.prediction(s.bp.posterior, gf, config.beta as int, sums);
            takes_pair(config, s, config.step(draws, det, s, leg), det, slow, fast)
        }),
{
    let d = s.bp;
    let b = d.check_step(det);
    let slow = b.prediction(d.posterior, gs, config.beta as int, sums);
    let fast = b.prediction(d.posterior, gf, config.beta as int, sums);
    let p = config.paired_step(gs, gf, det, d.posterior, sums, b, s.counts);
    let next = config.step(draws, det, s, leg);
    assert(next == (DualState { bp: p.bp.counted(), ..p }));
    lemma_errors(slow);
    lemma_errors(fast);
    assert(right(d, det, slow) == (b.syndrome_of(slow) == det));
    assert(right(d, det, fast) == (b.syndrome_of(fast) == det));
    assert(weight(d, slow) == b.score_of(slow));
    assert(weight(d, fast) == b.score_of(fast));
    if right(d, det, slow) && (!right(d, det, fast) || weight(d, slow) <= weight(d, fast)) {
        lemma_adopts(d, det, slow);
        assert(takes_slow(s, next, det, slow));
    } else if right(d, det, fast) {
        lemma_adopts(d, det, fast);
        assert(takes_fast(s, next, det, fast));
    } else {
        lemma_takes_mixture(config, d, det, slow, fast, s, next);
    }
}

proof fn lemma_takes_mixture(
    config: DualRelayDecoderConfig,
    d: BpModel,
    det: Seq<Bit>,
    slow: Seq<i64>,
    fast: Seq<i64>,
    s: DualState,
    next: DualState,
)
    requires
        d.wf(),
        s.bp == d,
        slow.len() == d.cols(),
        fast.len() == d.cols(),
        ({
            let mixed = config.mix_all(slow, fast, d.config.one());
            let j = joined(
                d.check_step(det).rebuilt(mixed),
                det,
                config.mixes_counted(slow, fast, s.counts),
            );
            next == (DualState { bp: j.bp.counted(), ..j })
        }),
    ensures
        takes_mixture(config, s, next, det, slow, fast),
{
    let one = d.config.one();
    let mixed = config.mix_all(slow, fast, one);
    lemma_adopts(d, det, mixed);
    assert forall|v: int| 0 <= v < d.cols() implies mixture(
        config,
        slow[v] as int,
        fast[v] as int,
        one,
        #[trigger] mixed[v] as int,
    ) by {
        law_quotient(config.delta * fast[v], one);
        law_quotient(slow[v] * (one - config.eta) + fast[v] * config.eta, one);
    }
    if disagree(slow, fast) {
        let v = choose|v: int|
            0 <= v < slow.len() && ((#[trigger] slow[v]) >= 0) != (fast[v] >= 0);
        assert((slow[v] < 0) != (fast[v] < 0));
    }
    assert(adopts(d, next.bp, det, mixed));
}

/// The outcome of an iteration for a slow and a fast list of posteriors.
pub open spec fn takes_pair(
    config: DualRelayDecoderConfig,
    s: DualState,
    next: DualState,
    det: Seq<Bit>,
    slow: Seq<i64>,
    fast: Seq<i64>,
) -> bool {
    let d = s.bp;
    let by_slow = right(d, det, slow);
    let by_fast = right(d, det, fast);
    &&& by_slow && !by_fast ==> takes_slow(s, next, det, slow)
    &&& by_fast && !by_slow ==> takes_fast(s, next, det, fast)
    &&& by_slow && by_fast && weight(d, slow) <= weight(d, fast) ==> takes_slow(s, next, det, slow)
    &&& by_slow && by_fast && weight(d, slow) > weight(d, fast) ==> takes_fast(s, next, det, fast)
    &&& !by_slow && !by_fast ==> takes_mixture(config, s, next, det, slow, fast)
}

/// A mixture is adopted, which may be a success.
pub open spec fn takes_mixture(
    config: DualRelayDecoderConfig,
    s: DualState,
    next: DualState,
    det: Seq<Bit>,
    slow: Seq<i64>,
    fast: Seq<i64>,
) -> bool {
    let d = s.bp;
    let joint: int = if next.success {
        1
    } else {
        0
    };
    let average: int = if config.mix_mode is NaiveAverage {
        1
    } else {
        0
    };
    let disagreement: int = if config.mix_mode is WeightedFast && exists|v: int|
        0 <= v < d.cols() && (#[trigger] slow[v] < 0) != (fast[v] < 0) {
        1
    } else {
        0
    };
    &&& exists|m: Seq<i64>|
        {
            &&& #[trigger] adopts(d, next.bp, det, m)
            &&& m.len() == d.cols()
            &&& forall|v: int|
                0 <= v < d.cols() ==> mixture(
                    config,
                    slow[v] as int,
                    fast[v] as int,
                    d.config.one(),
                    #[trigger] m[v] as int,
                )
        }
    &&& next.decoded == d.matrix.mul_mod2(next.bp.decoding)
    &&& next.success == (next.decoded == det)
    &&& next.counts == (DualCounts {
        slow_success_count: s.counts.slow_success_count,
        fast_success_count: s.counts.fast_success_count,
        joint_success_count: (s.counts.joint_success_count + joint) as usize,
        naive_average_applied_count: (s.counts.naive_average_applied_count + average) as usize,
        weighted_fast_disagreement_applied_count: (
        s.counts.weighted_fast_disagreement_applied_count + disagreement) as usize,
    })
}

/// The slow posteriors are adopted as a success.
pub open spec fn takes_slow(s: DualState, next: DualState, det: Seq<Bit>, slow: Seq<i64>) -> bool {
    &&& adopts(s.bp, next.bp, det, slow)
    &&& next.success
    &&& next.decoded == det
    &&& next.counts == (DualCounts {
        slow_success_count: (s.counts.slow_success_count + 1) as usize,
        ..s.counts
    })
}

/// The fast posteriors are adopted as a success.
pub open spec fn takes_fast(s: DualState, next: DualState, det: Seq<Bit>, fast: Seq<i64>) -> bool {
    &&& adopts(s.bp, next.bp, det, fast)
    &&& next.success
    &&& next.decoded == det
    &&& next.counts == (DualCounts {
        fast_success_count: (s.counts.fast_success_count + 1) as usize,
        ..s.counts
    })
}

/// `p` lists all places of `values` once, none before one of less value.
pub open spec fn ranking(p: Seq<usize>, values: Seq<i64>) -> bool {
    &&& p.len() == values.len()
    &&& p.no_duplicates()
    &&& forall|a: int| 0 <= a < p.len() ==> #[trigger] p[a] < values.len()
    &&& forall|a: int, b: int|
        0 <= a < b < p.len() ==> values[#[trigger] p[a] as int] <= values[#[trigger] p[b] as int]
}

/// `m` is the value in the middle of `values`, or half the sum of the two in the middle.
pub open spec fn middle(m: int, values: Seq<i64>) -> bool {
    let h = (values.len() / 2) as int;
    exists|p: Seq<usize>|
        #[trigger] ranking(p, values) && if values.len() % 2 == 1 {
            m == values[p[h] as int]
        } else {
            rounded(m, values[p[h - 1] as int] + values[p[h] as int], 2)
        }
}

/// The median is the value in the middle.
pub proof fn law_median(values: Seq<i64>)
    requires
        0 < values.len() <= usize::MAX,
    ensures
        middle(median(values), values),
        i64::MIN <= median(values) <= i64::MAX,
{
    let keys = value_keys(values);
    law_order(keys, keys.len());
    let p = order(keys);
    assert forall|a: int, b: int| 0 <= a < b < p.len() implies values[#[trigger] p[a] as int]
        <= values[#[trigger] p[b] as int] by {
        assert(precedes(keys, p[a], p[b]));
    }
    assert(ranking(p, values));
    let h = (values.len() / 2) as int;
    if values.len() % 2 == 0 {
        law_quotient(values[p[h - 1] as int] + values[p[h] as int], 2);
    }
}

/// The number of members of an ensemble in leg `leg`.
pub open spec fn members(config: DualRelayDecoderConfig, leg: nat) -> nat {
    let asked = if leg == 0 {
        config.num_pre_iteration_instance
    } else {
        config.ensemble_size
    };
    if asked == 0 {
        1
    } else {
        asked as nat
    }
}

/// The memory strength of member `i` in iteration `t` of leg `leg`.
pub open spec fn member_strength(
    config: DualRelayDecoderConfig,
    draws: Seq<DualRelayDraws>,
    leg: nat,
    t: int,
    i: int,
) -> i64 {
    let listed = config.initial_gamma.len() as int;
    if leg > 0 {
        draws[leg - 1].ensemble_gammas[t][i]
    } else if listed == 0 {
        config.initial_gamma_slow
    } else if i < listed {
        config.initial_gamma[i]
    } else {
        config.initial_gamma[listed - 1]
    }
}

/// `list` holds the posteriors that each member of the ensemble foresees.
pub open spec fn members_foresee(
    config: DualRelayDecoderConfig,
    draws: Seq<DualRelayDraws>,
    det: Seq<Bit>,
    d: BpModel,
    leg: nat,
    list: Seq<Seq<i64>>,
) -> bool {
    &&& list.len() == members(config, leg)
    &&& forall|i: int|
        0 <= i < list.len() ==> member_foresees(config, draws, det, d, leg, i, #[trigger] list[i])
}

/// `p` are the posteriors that member `i` of the ensemble foresees.
pub open spec fn member_foresees(
    config: DualRelayDecoderConfig,
    draws: Seq<DualRelayDraws>,
    det: Seq<Bit>,
    d: BpModel,
    leg: nat,
    i: int,
    p: Seq<i64>,
) -> bool {
    exists|gammas: Seq<i64>|
        {
            &&& #[trigger] foreseen(
                d,
                d.iterate(det, Seq::empty()).c2v,
                gammas,
                lateness(config),
                p,
            )
            &&& forall|v: int|
                0 <= v < d.cols() ==> #[trigger] gammas[v] == member_strength(
                    config,
                    draws,
                    leg,
                    d.iteration as int,
                    i,
                )
        }
}

/// Member `b` explains the detectors, none that does weighs less, and none of the later ones
/// that do weighs as little.
pub open spec fn last_lightest(d: BpModel, det: Seq<Bit>, list: Seq<Seq<i64>>, b: int) -> bool {
    &&& 0 <= b < list.len()
    &&& right(d, det, list[b])
    &&& forall|i: int|
        0 <= i < list.len() && #[trigger] right(d, det, list[i]) ==> {
            &&& weight(d, list[b]) <= weight(d, list[i])
            &&& i > b ==> weight(d, list[b]) < weight(d, list[i])
        }
}

proof fn lemma_best(d: BpModel, det: Seq<Bit>, list: Seq<Seq<i64>>, n: nat)
    requires
        n <= list.len(),
    ensures
        match d.best_member(det, list, n) {
            Some(b) => last_lightest(d, det, list.take(n as int), b),
            None => forall|i: int| 0 <= i < n ==> !#[trigger] right(d, det, list[i]),
        },
    decreases n,
{
    if n > 0 {
        let m = (n - 1) as nat;
        lemma_best(d, det, list, m);
        lemma_errors(list[n - 1]);
        let a = list.take(m as int);
        let c = list.take(n as int);
        assert forall|i: int| 0 <= i < m implies a[i] == #[trigger] c[i] by {}
        match d.best_member(det, list, m) {
            Some(b) => {
                lemma_errors(list[b]);
                assert(a[b] == c[b]);
                assert(list[b] == c[b]);
                assert forall|i: int| 0 <= i < m && #[trigger] right(d, det, c[i]) implies weight(
                    d,
                    c[b],
                ) <= weight(d, c[i]) && (i > b ==> weight(d, c[b]) < weight(d, c[i])) by {
                    assert(right(d, det, a[i]));
                }
            },
            None => {
                assert forall|i: int| 0 <= i < m implies !#[trigger] right(d, det, c[i]) by {
                    assert(!right(d, det, list[i]));
                }
            },
        }
    }
}

proof fn lemma_members(
    config: DualRelayDecoderConfig,
    draws: Seq<DualRelayDraws>,
    det: Seq<Bit>,
    d: BpModel,
    leg: nat,
    sums: Option<Seq<i64>>,
)
    requires
        d.wf(),
        leg > 0 ==> draws[leg - 1].ensemble_gammas[d.iteration as int].len() >= members(config, leg),
        config.use_previous_message ==> sums == Some(
            Seq::new(d.cols(), |v: int| bound(sum(d.incoming(v)), i64::MAX as int) as i64),
        ),
        !config.use_previous_message ==> sums is None,
    ensures
        ({
            let b = d.check_step(det);
            let list = config.member_posteriors(
                config.member_gammas(draws, leg, d.iteration as int),
                d.posterior,
                sums,
                b,
            );
            &&& members_foresee(config, draws, det, d, leg, list)
            &&& list.len() <= usize::MAX
            &&& forall|i: int| 0 <= i < list.len() ==> (#[trigger] list[i]).len() == d.cols()
        }),
{
    let b = d.check_step(det);
    let gs = config.member_gammas(draws, leg, d.iteration as int);
    let list = config.member_posteriors(gs, d.posterior, sums, b);
    assert(d.iterate(det, Seq::empty()).c2v == b.c2v);
    assert forall|i: int| 0 <= i < list.len() implies member_foresees(
        config,
        draws,
        det,
        d,
        leg,
        i,
        #[trigger] list[i],
    ) by {
        let gammas = Seq::new(b.cols(), |v: int| gs[i]);
        lemma_foreseen(config, d, det, gammas, sums);
        assert(foreseen(
            d,
            d.iterate(det, Seq::empty()).c2v,
            gammas,
            lateness(config),
            list[i],
        ));
    }
}

/// In ensemble mode every member foresees posteriors with one memory strength for all
/// variables. Those of the lightest member that explains the detectors are adopted, of the last
/// one if several weigh the same; otherwise the median of the members for each variable.
pub proof fn law_dual_ensemble(
    config: DualRelayDecoderConfig,
    draws: Seq<DualRelayDraws>,
    det: Seq<Bit>,
    s: DualState,
    leg: nat,
)
    requires
        s.bp.wf(),
        config.ensemble_mode,
        leg > 0 ==> draws[leg - 1].ensemble_gammas[s.bp.iteration as int].len() >= members(
            config,
            leg,
        ),
    ensures
        ({
            let next = config.step(draws, det, s, leg);
            let d = s.bp;
            exists|list: Seq<Seq<i64>>|
                {
                    &&& #[trigger] members_foresee(config, draws, det, d, leg, list)
                    &&& (exists|i: int| 0 <= i < list.len() && #[trigger] right(d, det, list[i]))
                        ==> {
                        &&& next.success
                        &&& next.decoded == det
                        &&& next.counts == s.counts
                        &&& exists|b: int| #[trigger]
                            last_lightest(d, det, list, b) && adopts(d, next.bp, det, list[b])
                    }
                    &&& (forall|i: int|
                        0 <= i < list.len() ==> !#[trigger] right(d, det, list[i])) ==> {
                        &&& next.decoded == d.matrix.mul_mod2(next.bp.decoding)
                        &&& next.success == (next.decoded == det)
                        &&& next.counts == (DualCounts {
                            joint_success_count: (s.counts.joint_success_count + (
                            if next.success {
                                1int
                            } else {
                                0
                            })) as usize,
                            ..s.counts
                        })
                        &&& exists|m: Seq<i64>|
                            {
                                &&& #[trigger] adopts(d, next.bp, det, m)
                                &&& forall|v: int|
                                    0 <= v < d.cols() ==> middle(
                                        #[trigger] m[v] as int,
                                        Seq::new(list.len(), |i: int| list[i][v]),
                                    )
                            }
                    }
                }
        }),
{
    let d = s.bp;
    let b = d.check_step(det);
    let sums = if config.use_previous_message {
        Some(Seq::new(d.cols(), |v: int| bound(sum(d.incoming(v)), i64::MAX as int) as i64))
    } else {
        None
    };
    let list = config.member_posteriors(
        config.member_gammas(draws, leg, d.iteration as int),
        d.posterior,
        sums,
        b,
    );
    lemma_members(config, draws, det, d, leg, sums);
    lemma_best(b, det, list, list.len());
    assert(list.take(list.len() as int) =~= list);
    let next = config.step(draws, det, s, leg);
    assert forall|i: int| right(b, det, list[i]) == #[trigger] right(d, det, list[i]) by {}
    match b.best_member(det, list, list.len()) {
        Some(i) => {
            lemma_errors(list[i]);
            lemma_adopts(d, det, list[i]);
            assert(last_lightest(b, det, list, i));
            assert forall|k: int| weight(b, list[k]) == #[trigger] weight(d, list[k]) by {}
            assert forall|k: int| 0 <= k < list.len() && #[trigger] right(
                d,
                det,
                list[k],
            ) implies weight(d, list[i]) <= weight(d, list[k]) && (k > i ==> weight(d, list[i])
                < weight(d, list[k])) by {
                assert(right(b, det, list[k]));
            }
            assert(last_lightest(d, det, list, i));
            assert(right(d, det, list[i]));
            assert(next.success && next.decoded == det && next.counts == s.counts);
            assert(adopts(d, next.bp, det, list[i]));
        },
        None => {
            let m = medians(list, b.cols());
            lemma_adopts(d, det, m);
            assert forall|v: int| 0 <= v < d.cols() implies middle(
                #[trigger] m[v] as int,
                Seq::new(list.len(), |i: int| list[i][v]),
            ) by {
                assert(column(list, v) =~= Seq::new(list.len(), |i: int| list[i][v]));
                law_median(column(list, v));
            }
            assert(adopts(d, next.bp, det, m));
            assert forall|i: int| 0 <= i < list.len() implies !#[trigger] right(d, det, list[i]) by {
                assert(!right(b, det, list[i]));
            }
        },
    }
}

/// One iteration of leg `leg`.
pub open spec fn dual_step(
    config: DualRelayDecoderConfig,
    draws: Seq<DualRelayDraws>,
    det: Seq<Bit>,
    leg: nat,
) -> spec_fn(DualState) -> DualState {
    |s: DualState| config.step(draws, det, s, leg)
}

/// The iteration was a success.
pub open spec fn dual_done() -> spec_fn(DualState) -> bool {
    |s: DualState| s.success
}

proof fn lemma_iterate(
    config: DualRelayDecoderConfig,
    draws: Seq<DualRelayDraws>,
    det: Seq<Bit>,
    s: DualState,
    leg: nat,
    n: nat,
) -> (steps: nat)
    ensures
        runs_to(
            s,
            config.iterate(draws, det, s, leg, n),
            dual_step(config, draws, det, leg),
            dual_done(),
            n,
            steps,
        ),
        config.iterate(draws, det, s, leg, n).bp.iteration == s.bp.iteration + steps,
        n > 0 ==> steps > 0,
    decreases n,
{
    let step = dual_step(config, draws, det, leg);
    let done = dual_done();
    if n == 0 {
        lemma_runs_none(s, step, done);
        0
    } else {
        let next = config.step(draws, det, s, leg);
        assert(step(s) == next);
        assert(next.bp.iteration == s.bp.iteration + 1);
        if next.success {
            lemma_runs_once(s, step, done, n);
            1
        } else {
            let steps = lemma_iterate(config, draws, det, next, leg, (n - 1) as nat);
            lemma_runs_longer(
                s,
                config.iterate(draws, det, s, leg, n),
                step,
                done,
                n,
                steps,
            );
            steps + 1
        }
    }
}

/// `n`, but at least one.
pub open spec fn some_of(n: usize) -> nat {
    if n > 0 {
        n as nat
    } else {
        1
    }
}

/// The iterations that leg `l` may do.
pub open spec fn allowed(config: DualRelayDecoderConfig, l: int) -> nat {
    if l == 0 {
        some_of(config.pre_iter)
    } else {
        some_of(config.iteration_per_leg)
    }
}

/// `r` tells of a leg that ended in `end` after `steps` iterations.
pub open spec fn tells(
    config: DualRelayDecoderConfig,
    r: ResultModel,
    end: DualState,
    steps: nat,
) -> bool {
    &&& r.decoding == end.bp.decoding
    &&& r.posterior == end.bp.posterior
    &&& r.decoded_detectors == end.decoded
    &&& r.success == end.success
    &&& r.success ==> r.quality == decoding_quality(end.bp.config.priors, end.bp.decoding)
    &&& !r.success ==> r.quality == i128::MAX
    &&& r.iterations == steps
    &&& r.max_iter == some_of(config.pre_iter) + (some_of(config.maximum_leg) - 1) * some_of(
        config.iteration_per_leg,
    )
    &&& r.gap is None
}

/// Whether leg `l` was the last: it converged, and there are enough distinct solutions or
/// enough legs that converged.
pub open spec fn content(config: DualRelayDecoderConfig, legs: Seq<ResultModel>, l: int) -> bool {
    let found = distinct(legs.take(l + 1)).len();
    legs[l].success && (found >= some_of(config.n_solutions) || match config.stopping_criterion {
        StoppingCriterion::PreIter => l == 0,
        StoppingCriterion::NConv { stop_after } => successes(legs.take(l + 1)) >= stop_after,
        StoppingCriterion::All => false,
    })
}

/// The decodings of the legs that converged.
pub open spec fn distinct(legs: Seq<ResultModel>) -> Set<Seq<Bit>>
    decreases legs.len(),
{
    if legs.len() == 0 {
        Set::empty()
    } else if legs.last().success {
        distinct(legs.drop_last()).insert(legs.last().decoding)
    } else {
        distinct(legs.drop_last())
    }
}

/// `legs` are the legs of a dual relay that started in `starts` and ended in `ends`.
pub open spec fn relays(
    config: DualRelayDecoderConfig,
    draws: Seq<DualRelayDraws>,
    det: Seq<Bit>,
    legs: Seq<ResultModel>,
    starts: Seq<DualState>,
    ends: Seq<DualState>,
) -> bool {
    &&& legs.len() == starts.len()
    &&& legs.len() == ends.len()
    &&& forall|l: int|
        0 < l < legs.len() ==> {
            &&& takes_over((#[trigger] starts[l]).bp, ends[l - 1].bp)
            &&& starts[l].counts == ends[l - 1].counts
        }
    &&& forall|l: int|
        0 <= l < legs.len() ==> {
            &&& #[trigger] runs_to(
                starts[l],
                ends[l],
                dual_step(config, draws, det, l as nat),
                dual_done(),
                allowed(config, l),
                legs[l].iterations,
            )
            &&& tells(config, legs[l], ends[l], legs[l].iterations)
        }
    &&& forall|l: int| 0 <= l < legs.len() - 1 ==> !#[trigger] content(config, legs, l)
}

/// The distinct solutions found are those of the legs.
pub open spec fn found_all(found: Seq<Seq<Bit>>, legs: Seq<ResultModel>) -> bool {
    &&& found.no_duplicates()
    &&& found.to_set() == distinct(legs)
}

proof fn lemma_one_more(
    config: DualRelayDecoderConfig,
    draws: Seq<DualRelayDraws>,
    det: Seq<Bit>,
    legs: Seq<ResultModel>,
    starts: Seq<DualState>,
    ends: Seq<DualState>,
    start: DualState,
    end: DualState,
    leg: ResultModel,
)
    requires
        relays(config, draws, det, legs, starts, ends),
        legs.len() > 0 ==> {
            &&& !content(config, legs, legs.len() - 1)
            &&& takes_over(start.bp, ends[legs.len() - 1].bp)
            &&& start.counts == ends[legs.len() - 1].counts
        },
        runs_to(
            start,
            end,
            dual_step(config, draws, det, legs.len()),
            dual_done(),
            allowed(config, legs.len() as int),
            leg.iterations,
        ),
        tells(config, leg, end, leg.iterations),
    ensures
        relays(config, draws, det, legs.push(leg), starts.push(start), ends.push(end)),
{
    let more = legs.push(leg);
    let a = starts.push(start);
    let b = ends.push(end);
    let n = legs.len() as int;
    assert forall|l: int| 0 < l < more.len() implies takes_over((#[trigger] a[l]).bp, b[l - 1].bp)
        && a[l].counts == b[l - 1].counts by {
        if l < n {
            assert(a[l] == starts[l]);
        }
    }
    assert forall|l: int| 0 <= l < more.len() implies #[trigger] runs_to(
        a[l],
        b[l],
        dual_step(config, draws, det, l as nat),
        dual_done(),
        allowed(config, l),
        more[l].iterations,
    ) && tells(config, more[l], b[l], more[l].iterations) by {
        if l < n {
            assert(runs_to(
                starts[l],
                ends[l],
                dual_step(config, draws, det, l as nat),
                dual_done(),
                allowed(config, l),
                legs[l].iterations,
            ));
        }
    }
    assert forall|l: int| 0 <= l < more.len() - 1 implies !#[trigger] content(config, more, l) by {
        assert(more.take(l + 1) =~= legs.take(l + 1));
        assert(!content(config, legs, l));
    }
}

#[verifier::rlimit(60)]
#[verifier::spinoff_prover]
proof fn lemma_relays_from(
    config: DualRelayDecoderConfig,
    draws: Seq<DualRelayDraws>,
    det: Seq<Bit>,
    t: DualRun,
    leg: nat,
    starts: Seq<DualState>,
    ends: Seq<DualState>,
    begin: DualState,
)
    requires
        t.legs.len() == leg,
        leg <= some_of(config.maximum_leg),
        relays(config, draws, det, t.legs, starts, ends),
        found_all(t.found, t.legs),
        leg > 0 ==> t.last == ends[leg - 1],
        leg > 0 ==> !content(config, t.legs, leg - 1),
        leg > 0 ==> starts[0] == config.leg_start(det, begin),
        leg == 0 ==> t.last == begin,
    ensures
        ({
            let all = config.legs_from(draws, det, t, leg);
            exists|a: Seq<DualState>, b: Seq<DualState>|
                {
                    &&& #[trigger] relays(config, draws, det, all.legs, a, b)
                    &&& found_all(all.found, all.legs)
                    &&& all.legs.len() > 0
                    &&& a[0] == config.leg_start(det, begin)
                    &&& all.last == b[b.len() - 1]
                    &&& all.legs.len() <= some_of(config.maximum_leg)
                    &&& all.legs.len() < some_of(config.maximum_leg) ==> content(
                        config,
                        all.legs,
                        all.legs.len() - 1,
                    )
                }
        }),
    decreases some_of(config.maximum_leg) - leg,
{
    if leg >= some_of(config.maximum_leg) {
        assert(relays(config, draws, det, t.legs, starts, ends));
    } else {
        let next = config.leg_added(draws, det, t, leg);
        let s = config.leg_start(det, t.last);
        let leg_of = next.legs.last();
        lemma_leg_added(config, draws, det, t, leg);
        let a = starts.push(s);
        let b = ends.push(next.last);
        lemma_one_more(config, draws, det, t.legs, starts, ends, s, next.last, leg_of);
        lemma_found(t.found, t.legs, leg_of);
        next.found.unique_seq_to_set();
        assert(next.legs.take(leg as int + 1) =~= next.legs);
        assert(relays(config, draws, det, next.legs, a, b));
        assert(content(config, next.legs, leg as int) == (leg_of.success && config.stops(
            next,
            leg,
        )));
        let all = config.legs_from(draws, det, t, leg);
        if !content(config, next.legs, leg as int) {
            assert(all == config.legs_from(draws, det, next, leg + 1));
            lemma_relays_from(config, draws, det, next, leg + 1, a, b, begin);
        } else {
            assert(all == next);
        }
    }
}

proof fn lemma_leg_added(
    config: DualRelayDecoderConfig,
    draws: Seq<DualRelayDraws>,
    det: Seq<Bit>,
    t: DualRun,
    leg: nat,
)
    ensures
        ({
            let next = config.leg_added(draws, det, t, leg);
            let s = config.leg_start(det, t.last);
            let r = next.legs.last();
            &&& takes_over(s.bp, t.last.bp)
            &&& s.counts == t.last.counts
            &&& runs_to(
                s,
                next.last,
                dual_step(config, draws, det, leg),
                dual_done(),
                allowed(config, leg as int),
                r.iterations,
            )
            &&& tells(config, r, next.last, r.iterations)
            &&& next.legs == t.legs.push(r)
            &&& next.found == if r.success && !t.found.contains(r.decoding) {
                t.found.push(r.decoding)
            } else {
                t.found
            }
        }),
{
    let s = config.leg_start(det, t.last);
    let steps = lemma_iterate(config, draws, det, s, leg, config.budget(leg));
    assert(s.bp.iteration == 0);
    assert(takes_over(s.bp, t.last.bp));
}

proof fn lemma_found(found: Seq<Seq<Bit>>, legs: Seq<ResultModel>, leg: ResultModel)
    requires
        found_all(found, legs),
    ensures
        found_all(
            if leg.success && !found.contains(leg.decoding) {
                found.push(leg.decoding)
            } else {
                found
            },
            legs.push(leg),
        ),
{
    let x = leg.decoding;
    assert(legs.push(leg).drop_last() =~= legs);
    assert(found.contains(x) <==> found.to_set().contains(x));
    if leg.success && !found.contains(x) {
        let longer = found.push(x);
        assert forall|y: Seq<Bit>| #[trigger] longer.to_set().contains(y) <==> found.to_set().insert(
            x,
        ).contains(y) by {
            if found.contains(y) {
                let i = choose|i: int| 0 <= i < found.len() && found[i] == y;
                assert(longer[i] == y);
            }
            if y == x {
                assert(longer[found.len() as int] == x);
            }
            if longer.contains(y) {
                let i = choose|i: int| 0 <= i < longer.len() && longer[i] == y;
                if i < found.len() {
                    assert(found[i] == y);
                }
            }
        }
        assert(longer.to_set() =~= found.to_set().insert(x));
    } else if leg.success {
        assert(found.to_set() =~= found.to_set().insert(x));
    }
}

/// The first leg starts from the start of decoding and every later one from the posteriors
/// with which the one before ended, with the messages as at the start. Each iterates until it
/// succeeds or has done all it may. There is no leg after one that converged and made the
/// solutions enough, and without such a leg all are run.
pub proof fn law_dual_hands_on(
    config: DualRelayDecoderConfig,
    draws: Seq<DualRelayDraws>,
    det: Seq<Bit>,
    d: BpModel,
)
    requires
        d.wf(),
    ensures
        ({
            let t = config.run(draws, det, d);
            exists|starts: Seq<DualState>, ends: Seq<DualState>|
                {
                    &&& #[trigger] relays(config, draws, det, t.legs, starts, ends)
                    &&& t.legs.len() > 0
                    &&& starts[0].bp == d.initialized()
                    &&& starts[0].counts == (DualCounts {
                        slow_success_count: 0,
                        fast_success_count: 0,
                        joint_success_count: 0,
                        naive_average_applied_count: 0,
                        weighted_fast_disagreement_applied_count: 0,
                    })
                    &&& t.last == ends[ends.len() - 1]
                    &&& t.legs.len() <= some_of(config.maximum_leg)
                    &&& t.legs.len() < some_of(config.maximum_leg) ==> content(
                        config,
                        t.legs,
                        t.legs.len() - 1,
                    )
                }
        }),
        found_all(config.run(draws, det, d).found, config.run(draws, det, d).legs),
{
    let begin = DualState {
        bp: d.initialized(),
        decoded: zero_bits(det.len()),
        success: false,
        counts: no_counts(),
    };
    let t = DualRun { legs: Seq::empty(), found: Seq::empty(), last: begin };
    assert(t.found.to_set() =~= distinct(t.legs));
    lemma_relays_from(config, draws, det, t, 0, Seq::empty(), Seq::empty(), begin);
    let start = config.leg_start(det, begin);
    assert(start.bp.c2v =~= d.initialized().c2v);
    assert(start.bp.v2c =~= d.initialized().v2c);
    assert(start.bp == d.initialized());
}

} // verus!
