//! How a relay decoder hands its posteriors on from leg to leg.

use vstd::prelude::*;

use crate::arith::abs;
use crate::decoder::ResultModel;
use crate::laws::legs::{ends_in, lemma_settle, reports};
use crate::matrix::Bit;
use crate::min_sum::{coins_at, BpModel};
use crate::relay::{
    leg_coins, successes, RelayDecoderConfig, RelayDraws, RelayTrace, StoppingCriterion,
};

verus! {

/// A later leg starts where the one before ended, but for its memory strengths, with the
/// messages as at the start of decoding: no check sent anything and each variable its prior.
pub open spec fn takes_over(start: BpModel, end: BpModel) -> bool {
    &&& start.posterior == end.posterior
    &&& start.decoding == end.decoding
    &&& start.matrix == end.matrix
    &&& start.config == end.config
    &&& start.priors == end.priors
    &&& start.alphas == end.alphas
    &&& start.iteration == 0
    &&& start.c2v.len() == end.matrix.nnz()
    &&& start.v2c.len() == end.matrix.nnz()
    &&& forall|f: int| 0 <= f < end.matrix.nnz() ==> #[trigger] start.c2v[f] == 0
    &&& forall|e: int|
        0 <= e < end.matrix.nnz() ==> #[trigger] start.v2c[e]
            == end.priors[end.matrix.row_idx[e] as int]
}

/// The `k`-th leg that repels: every `pulse_per_leg`-th leg does, the first of them being the
/// one after `start_leg` ordinary legs.
pub open spec fn pulse(config: RelayDecoderConfig, k: nat) -> int {
    let quiet: int = match config.start_leg {
        Some(s) => s as int,
        None => 0,
    };
    let distance: int = match config.pulse_per_leg {
        Some(p) => p as int,
        None => 1,
    };
    quiet + 1 + k * distance
}

/// Whether leg `set` repels.
pub open spec fn pulses(config: RelayDecoderConfig, set: int) -> bool {
    config.repulsive && exists|k: nat| #[trigger] pulse(config, k) == set
}

/// `gammas` are the memory strengths of leg `set` after a leg that ended in `end`.
pub open spec fn strengths(
    config: RelayDecoderConfig,
    draws: Seq<RelayDraws>,
    end: BpModel,
    set: int,
    gammas: Seq<i64>,
) -> bool {
    match config.explicit_gammas {
        Some(g) => exists|k: int|
            0 <= k < g.len() && (set - k) % (g.len() as int) == 0 && gammas == #[trigger] g[k]@,
        None => {
            let sure: int = match config.abs_llr_threshold {
                Some(t) => t as int,
                None => 2 * end.config.one(),
            };
            &&& !pulses(config, set) ==> gammas == draws[set - 1].gammas@
            &&& pulses(config, set) ==> gammas.len() == end.cols() && forall|v: int|
                0 <= v < end.cols() ==> #[trigger] gammas[v] == (if abs(end.posterior[v] as int)
                    > sure {
                    draws[set - 1].repulsive_gammas[v]
                } else {
                    draws[set - 1].gammas[v]
                })
        },
    }
}

/// The iterations that leg `set` may do.
pub open spec fn allowed(config: RelayDecoderConfig, set: int) -> nat {
    if set == 0 {
        config.pre_iter as nat
    } else {
        config.set_max_iter as nat
    }
}

/// The coins of leg `set`.
pub open spec fn leg_thrown(coins: Seq<Vec<Vec<bool>>>, set: int) -> Seq<Vec<bool>> {
    if set < coins.len() {
        coins[set]@
    } else {
        Seq::empty()
    }
}

/// Whether the legs before, of which the last one is leg `set`, are enough.
pub open spec fn content(config: RelayDecoderConfig, legs: Seq<ResultModel>, set: int) -> bool {
    legs[set].success && match config.stopping_criterion {
        StoppingCriterion::PreIter => set == 0,
        StoppingCriterion::NConv { stop_after } => successes(legs.take(set + 1)) >= stop_after,
        StoppingCriterion::All => false,
    }
}

/// `legs` are the legs of a relay that started in `starts` and ended in `ends`.
pub open spec fn relays(
    config: RelayDecoderConfig,
    draws: Seq<RelayDraws>,
    coins: Seq<Vec<Vec<bool>>>,
    det: Seq<Bit>,
    legs: Seq<ResultModel>,
    starts: Seq<BpModel>,
    ends: Seq<BpModel>,
) -> bool {
    &&& legs.len() == starts.len()
    &&& legs.len() == ends.len()
    &&& legs.len() > 0
    &&& forall|s: int|
        0 < s < legs.len() ==> takes_over(#[trigger] starts[s], ends[s - 1]) && strengths(
            config,
            draws,
            ends[s - 1],
            s,
            starts[s].memory,
        )
    &&& forall|s: int|
        0 <= s < legs.len() ==> {
            &&& #[trigger] ends_in(
                starts[s],
                ends[s],
                det,
                leg_thrown(coins, s),
                allowed(config, s),
                legs[s].iterations,
            )
            &&& reports(legs[s], ends[s], det, allowed(config, s), legs[s].iterations)
        }
    &&& forall|s: int| 0 <= s < legs.len() - 1 ==> !#[trigger] content(config, legs, s)
}

proof fn lemma_pulses(config: RelayDecoderConfig, set: nat)
    requires
        set > 0,
        config.pulse_per_leg != Some(0usize),
    ensures
        pulses(config, set as int) == config.repels(set),
{
    let quiet: int = match config.start_leg {
        Some(s) => s as int,
        None => 0,
    };
    let distance: int = match config.pulse_per_leg {
        Some(p) => p as int,
        None => 1,
    };
    let x = set - 1 - quiet;
    if config.repels(set) {
        let k = x / distance;
        vstd::arithmetic::div_mod::lemma_fundamental_div_mod(x, distance);
        assert(k * distance == x) by (nonlinear_arith)
            requires
                x == distance * (x / distance) + x % distance,
                x % distance == 0,
                k == x / distance,
        ;
        assert(k >= 0) by (nonlinear_arith)
            requires
                k == x / distance,
                x >= 0,
                distance > 0,
        ;
        assert(pulse(config, k as nat) == set);
    }
    if pulses(config, set as int) {
        let k = choose|k: nat| #[trigger] pulse(config, k) == set;
        assert(x == k * distance);
        assert(k * distance >= 0) by (nonlinear_arith)
            requires
                k >= 0,
                distance > 0,
        ;
        vstd::arithmetic::div_mod::lemma_mod_multiples_basic(k as int, distance);
    }
}

proof fn lemma_strengths(config: RelayDecoderConfig, draws: Seq<RelayDraws>, end: BpModel, set: nat)
    requires
        set > 0,
        config.wf(end.cols()),
        config.num_sets > 0,
    ensures
        strengths(config, draws, end, set as int, config.gammas_at(draws, end, set)),
{
    match config.explicit_gammas {
        Some(g) => {
            let n = g.len() as int;
            let k = set as int % n;
            vstd::arithmetic::div_mod::lemma_fundamental_div_mod(set as int, n);
            assert((set - k) % n == 0) by {
                vstd::arithmetic::div_mod::lemma_mod_multiples_basic(set as int / n, n);
                assert(set - k == (set as int / n) * n) by (nonlinear_arith)
                    requires
                        set as int == n * (set as int / n) + k,
                ;
            }
            assert(config.gammas_at(draws, end, set) == g[k]@);
        },
        None => {
            lemma_pulses(config, set);
        },
    }
}

proof fn lemma_takes_over(
    config: RelayDecoderConfig,
    draws: Seq<RelayDraws>,
    end: BpModel,
    set: nat,
)
    ensures
        takes_over(config.leg_start(draws, end, set), end),
        config.leg_start(draws, end, set).memory == config.gammas_at(draws, end, set),
{
}

/// The leg that settling makes of a start.
proof fn lemma_leg(start: BpModel, det: Seq<Bit>, coins: Seq<Vec<bool>>, n: nat)
    requires
        start.iteration == 0,
    ensures
        ({
            let end = start.settle(det, coins, n);
            let leg = start.settled(det, coins, n);
            &&& ends_in(start, end, det, coins, n, leg.iterations)
            &&& reports(leg, end, det, n, leg.iterations)
        }),
{
    let steps = lemma_settle(start, det, coins, n);
    let end = start.settle(det, coins, n);
    if n > 0 && steps == 0 {
        assert(false);
    }
}

proof fn lemma_settle_code(d: BpModel, det: Seq<Bit>, coins: Seq<Vec<bool>>, n: nat)
    ensures
        d.settle(det, coins, n).matrix == d.matrix,
    decreases n,
{
    if n > 0 {
        let next = d.iterate(det, coins_at(coins, d.iteration as int));
        if !next.converged(det) {
            lemma_settle_code(next.counted(), det, coins, (n - 1) as nat);
        }
    }
}

proof fn lemma_relays_from(
    config: RelayDecoderConfig,
    draws: Seq<RelayDraws>,
    coins: Seq<Vec<Vec<bool>>>,
    det: Seq<Bit>,
    t: RelayTrace,
    set: nat,
    starts: Seq<BpModel>,
    ends: Seq<BpModel>,
)
    requires
        config.wf(t.last.cols()),
        t.legs.len() == set,
        set > 0,
        set <= config.num_sets + 1,
        relays(config, draws, coins, det, t.legs, starts, ends),
        t.last == ends[set - 1],
        !content(config, t.legs, set - 1),
    ensures
        ({
            let all = config.legs_from(draws, coins, det, t, set);
            exists|a: Seq<BpModel>, b: Seq<BpModel>|
                {
                    &&& #[trigger] relays(config, draws, coins, det, all.legs, a, b)
                    &&& a[0] == starts[0]
                    &&& all.last == b[b.len() - 1]
                    &&& all.legs.len() <= config.num_sets + 1
                    &&& all.legs.len() <= config.num_sets ==> content(
                        config,
                        all.legs,
                        all.legs.len() - 1,
                    )
                }
        }),
    decreases config.num_sets + 1 - set,
{
    if set > config.num_sets {
        assert(relays(config, draws, coins, det, t.legs, starts, ends));
    } else {
        let next = config.leg_added(draws, coins, det, t, set);
        let s = config.leg_start(draws, t.last, set);
        let n = config.set_max_iter as nat;
        lemma_takes_over(config, draws, t.last, set);
        lemma_strengths(config, draws, t.last, set);
        assert(leg_coins(coins, set as int) == leg_thrown(coins, set as int));
        lemma_leg(s, det, leg_coins(coins, set as int), n);
        lemma_settle_code(s, det, leg_coins(coins, set as int), n);
        let a = starts.push(s);
        let b = ends.push(next.last);
        assert forall|l: int| 0 < l < next.legs.len() implies takes_over(#[trigger] a[l], b[l - 1])
            && strengths(config, draws, b[l - 1], l, a[l].memory) by {
            if l < set {
                assert(a[l] == starts[l]);
            }
        }
        assert forall|l: int| 0 <= l < next.legs.len() implies #[trigger] ends_in(
            a[l],
            b[l],
            det,
            leg_thrown(coins, l),
            allowed(config, l),
            next.legs[l].iterations,
        ) && reports(next.legs[l], b[l], det, allowed(config, l), next.legs[l].iterations) by {
            if l < set {
                assert(ends_in(
                    starts[l],
                    ends[l],
                    det,
                    leg_thrown(coins, l),
                    allowed(config, l),
                    t.legs[l].iterations,
                ));
            }
        }
        assert forall|l: int| 0 <= l < next.legs.len() - 1 implies !#[trigger] content(
            config,
            next.legs,
            l,
        ) by {
            assert(next.legs.take(l + 1) =~= t.legs.take(l + 1));
            assert(!content(config, t.legs, l));
        }
        assert(relays(config, draws, coins, det, next.legs, a, b));
        assert(next.legs.take(set as int + 1) =~= next.legs);
        if !(next.legs.last().success && config.enough(successes(next.legs))) {
            lemma_relays_from(config, draws, coins, det, next, set + 1, a, b);
        }
    }
}

/// A relay decoder runs its first leg from the start of decoding. Every later leg starts from
/// the posteriors with which the one before ended, under the memory strengths given or drawn
/// for it. Each iterates until it explains the detectors or has done all it may. There is no
/// leg after one at which the stopping criterion is content, and without such a leg all are
/// run.
pub proof fn law_relay_hands_on(
    config: RelayDecoderConfig,
    draws: Seq<RelayDraws>,
    coins: Seq<Vec<Vec<bool>>>,
    det: Seq<Bit>,
    d: BpModel,
)
    requires
        d.wf(),
        config.wf(d.cols()),
    ensures
        ({
            let t = config.run(draws, coins, det, d);
            exists|starts: Seq<BpModel>, ends: Seq<BpModel>|
                {
                    &&& #[trigger] relays(config, draws, coins, det, t.legs, starts, ends)
                    &&& starts[0] == d.initialized()
                    &&& t.last == ends[ends.len() - 1]
                    &&& t.legs.len() <= config.num_sets + 1
                    &&& t.legs.len() <= config.num_sets ==> content(
                        config,
                        t.legs,
                        t.legs.len() - 1,
                    )
                }
        }),
{
    let first = config.first_leg(coins, det, d);
    lemma_first(config, draws, coins, det, d);
    let starts = seq![d.initialized()];
    let ends = seq![first.last];
    assert(first.legs.len() == 1);
    assert(relays(config, draws, coins, det, first.legs, starts, ends));
    if !content(config, first.legs, 0) {
        lemma_relays_from(config, draws, coins, det, first, 1, starts, ends);
    }
}

proof fn lemma_first(
    config: RelayDecoderConfig,
    draws: Seq<RelayDraws>,
    coins: Seq<Vec<Vec<bool>>>,
    det: Seq<Bit>,
    d: BpModel,
)
    ensures
        ({
            let first = config.first_leg(coins, det, d);
            &&& relays(
                config,
                draws,
                coins,
                det,
                first.legs,
                seq![d.initialized()],
                seq![first.last],
            )
            &&& first.last.matrix == d.matrix
            &&& content(config, first.legs, 0) == (first.legs[0].success && (
            config.stopping_criterion is PreIter || config.enough(1)))
        }),
{
    let first = config.first_leg(coins, det, d);
    let n = config.pre_iter as nat;
    let s = d.initialized();
    assert(leg_coins(coins, 0) == leg_thrown(coins, 0));
    lemma_leg(s, det, leg_coins(coins, 0), n);
    lemma_settle_code(s, det, leg_coins(coins, 0), n);
    reveal_with_fuel(successes, 2);
    assert(first.legs.take(1) =~= first.legs);
    assert(first.legs.drop_last() =~= Seq::empty());
}

} // verus!
